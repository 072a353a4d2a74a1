//! What mounting an image promises.

use crate::common::version;
use crate::error::ErrorKind;
use crate::fs::filesystem;
use crate::fs::filesystem::{LionFS, MountError, Recovered, SharedCore};
use crate::ondisk::serialization::Superblock;
use crate::ondisk::superblock;
use vstd::prelude::*;

verus! {

/// An image whose best superblock is of version 2 or older, with no feature but
/// those of attributes and clones, is not refused.
pub proof fn known_image_is_not_refused(
    candidates: Seq<Option<Vec<u8>>>,
    i: int,
    sb: Superblock,
    e: MountError,
)
    requires
        superblock::is_best(candidates, i, sb),
        filesystem::mount_refused(candidates, e),
    ensures
        sb.version > 2 || sb.fs_features > 3,
        e.kind == ErrorKind::InvalidData,
{
    version::only_two_features_are_known(sb.fs_features);
}

/// A mounted image counts on from the last transaction that was recorded
/// anywhere, stamps nodes past all that were stamped, and has nothing buffered
/// and nothing staged.
pub proof fn mounted_image_goes_on(
    fs: LionFS,
    sb: Superblock,
    recovered: Recovered,
    writeback: Option<&str>,
    image_path: &str,
    ino: u64,
)
    requires
        filesystem::started(fs, sb, recovered, writeback, image_path),
    ensures
        fs.core.vol@.sb == sb,
        fs.core.current_tx_id >= recovered.highest_tx,
        fs.core.current_tx_id >= recovered.current_tx_id,
        fs.core.current_tx_id == recovered.highest_tx || fs.core.current_tx_id
            == recovered.current_tx_id,
        fs.core.node_stamp >= sb.node_generation,
        fs.core.node_stamp >= sb.last_snapshot_generation,
        fs.core.node_stamp >= recovered.highest_tx,
        fs.core.node_stamp >= 1,
        fs.core.live_barrier == sb.last_snapshot_generation,
        fs.core.active_tx is None,
        fs.core.committing@.len() == 0,
        !fs.core.page_cache.inodes@.contains_key(ino),
        writeback is None ==> fs.core.page_cache.enabled,
        writeback matches Some(v) ==> fs.core.page_cache.enabled == (v@ != seq!['0']),
        fs.image_path@ == image_path@,
{
}

/// A frozen transaction is found by its number.
pub proof fn frozen_transaction_has_its_number(core: SharedCore, i: int)
    requires
        core.pipeline_ok(),
        0 <= i < core.committing@.len(),
    ensures
        core.frozen(core.committing@[i].id),
        core.frozen_tx(core.committing@[i].id) == core.committing@[i],
{
    reveal(filesystem::pipeline_sound);
    let id = core.committing@[i].id;
    let j = choose|j: int| 0 <= j < core.committing@.len() && (#[trigger] core.committing@[j]).id
        == id;
    assert(core.committing@[j].id == id);
    if i < j {
        assert(core.committing@[i].id < core.committing@[j].id);
    } else if j < i {
        assert(core.committing@[j].id < core.committing@[i].id);
    }
}

} // verus!
