//! What a mount asks of the kernel.

use vstd::prelude::*;

verus! {

/// How a volume is to be mounted.
#[derive(Debug, Clone, Copy, PartialEq, Eq, Structural)]
pub struct MountConfig {
    pub read_only: bool,
}

impl Default for MountConfig {
    fn default() -> (r: Self)
        ensures
            r == (MountConfig { read_only: false }),
    {
        MountConfig { read_only: false }
    }
}

/// One thing that a mount asks of the kernel.
#[derive(Debug, Clone, Copy, PartialEq, Eq, Structural)]
pub enum MountOption {
    /// The name of the file system.
    FsName,
    /// The kernel checks permissions.
    DefaultPermissions,
    ReadOnly,
    ReadWrite,
}

/// The name that a mounted volume goes by.
pub const FS_NAME: &'static str = "lionfs";

/// What a mount asks of the kernel.
pub fn build_mount_options(config: &MountConfig) -> (r: Vec<MountOption>)
    ensures
        r@ == seq![
            MountOption::FsName,
            MountOption::DefaultPermissions,
            if config.read_only {
                MountOption::ReadOnly
            } else {
                MountOption::ReadWrite
            },
        ],
{
    let mut options: Vec<MountOption> = Vec::new();
    options.push(MountOption::FsName);
    options.push(MountOption::DefaultPermissions);
    options.push(
        if config.read_only {
            MountOption::ReadOnly
        } else {
            MountOption::ReadWrite
        },
    );
    options
}

} // verus!
