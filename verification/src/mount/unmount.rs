//! How to unmount: which commands to try, and when to stop.

use vstd::prelude::*;

verus! {

/// The commands that can unmount, the usual one first.
pub const COMMANDS: [&'static str; 2] = ["fusermount", "fusermount3"];

/// How a command ended.
#[derive(Debug, Clone, Copy, PartialEq, Eq, Structural)]
pub enum Attempt {
    /// It ran and succeeded.
    Succeeded,
    /// It ran and failed.
    Failed,
    /// There is no such command.
    Missing,
    /// It could not be run.
    Broken,
}

/// What to do after a command.
#[derive(Debug, Clone, Copy, PartialEq, Eq, Structural)]
pub enum UnmountNext {
    /// The volume is unmounted.
    Done,
    /// Give up: the command failed.
    GiveUp,
    /// Give up: the command could not be run.
    ReportBroken,
    /// Try the command at this place.
    TryCommand(usize),
    /// Give up: there is no command that can unmount.
    NoCommand,
}

/// The option for the command: a forced unmount detaches the volume though it
/// is in use.
pub fn unmount_flag(force: bool) -> (r: &'static str)
    ensures
        r@ == (if force {
            "-uz"@
        } else {
            "-u"@
        }),
{
    if force {
        "-uz"
    } else {
        "-u"
    }
}

/// What to do after the command at a place: only a missing command makes way
/// for the next.
pub fn after_attempt(at: usize, attempt: Attempt) -> (r: UnmountNext)
    requires
        at < 2,
    ensures
        r == (match attempt {
            Attempt::Succeeded => UnmountNext::Done,
            Attempt::Failed => UnmountNext::GiveUp,
            Attempt::Broken => UnmountNext::ReportBroken,
            Attempt::Missing => if at == 0 {
                UnmountNext::TryCommand(1)
            } else {
                UnmountNext::NoCommand
            },
        }),
{
    match attempt {
        Attempt::Succeeded => UnmountNext::Done,
        Attempt::Failed => UnmountNext::GiveUp,
        Attempt::Broken => UnmountNext::ReportBroken,
        Attempt::Missing => if at == 0 {
            UnmountNext::TryCommand(1)
        } else {
            UnmountNext::NoCommand
        },
    }
}

} // verus!
