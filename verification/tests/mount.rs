use lionfs::mount::options::{build_mount_options, MountConfig, MountOption};
use lionfs::mount::unmount::{after_attempt, unmount_flag, Attempt, UnmountNext, COMMANDS};

fn has_ro(opts: &[MountOption]) -> bool {
    opts.iter().any(|o| matches!(o, MountOption::ReadOnly))
}

fn has_rw(opts: &[MountOption]) -> bool {
    opts.iter().any(|o| matches!(o, MountOption::ReadWrite))
}

#[test]
fn read_write_by_default() {
    let opts = build_mount_options(&MountConfig::default());
    assert!(has_rw(&opts));
    assert!(!has_ro(&opts));
}

#[test]
fn read_only_when_configured() {
    let mut cfg = MountConfig::default();
    cfg.read_only = true;
    let opts = build_mount_options(&cfg);
    assert!(has_ro(&opts));
    assert!(!has_rw(&opts));
}

#[test]
fn only_a_missing_command_makes_way_for_the_next() {
    assert_eq!(COMMANDS[0], "fusermount");
    assert_eq!(after_attempt(0, Attempt::Succeeded), UnmountNext::Done);
    assert_eq!(after_attempt(0, Attempt::Failed), UnmountNext::GiveUp);
    assert_eq!(after_attempt(0, Attempt::Broken), UnmountNext::ReportBroken);
    assert_eq!(after_attempt(0, Attempt::Missing), UnmountNext::TryCommand(1));
    assert_eq!(after_attempt(1, Attempt::Missing), UnmountNext::NoCommand);
    assert_eq!(unmount_flag(false), "-u");
    assert_eq!(unmount_flag(true), "-uz");
}
