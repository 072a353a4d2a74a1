//! Driving commits: one at a time, until what was staged has landed.

use crate::fs::filesystem;
use crate::fs::filesystem::{LionFS, SharedCore, StoredImage};
use crate::fs::vfs::VfsError;
use crate::fs::vfs_data;
use crate::fs::volume;
use crate::ondisk::serialization::Superblock;
use crate::posix;
use vstd::prelude::*;

verus! {

/// What the committer does next.
#[derive(Debug, Clone, Copy, PartialEq, Eq, Structural)]
pub enum CommitterAction {
    /// Drives a commit.
    Commit,
    /// Waits for work.
    Wait,
    /// Ends.
    Stop,
}

/// What the committer does after an attempt to commit: it goes on as long as
/// there was something to commit, and ends only when there was not.
pub fn committer_next(committed: bool, shutdown: bool) -> (r: CommitterAction)
    ensures
        r == (if committed {
            CommitterAction::Commit
        } else if shutdown {
            CommitterAction::Stop
        } else {
            CommitterAction::Wait
        }),
{
    if committed {
        CommitterAction::Commit
    } else if shutdown {
        CommitterAction::Stop
    } else {
        CommitterAction::Wait
    }
}

/// `b` is `a` once its active transaction has landed: the blocks that it took
/// are counted, and the roots that it moved stand in the superblock.
pub open spec fn commit_landed(a: SharedCore, b: SharedCore) -> bool {
    let tx = a.active_tx->0;
    let moved = a.vol@.root_cells;
    let folded = Superblock {
        free_blocks: filesystem::free_after(a.vol@.sb.free_blocks, tx.alloc_delta) as u64,
        ..a.vol@.sb
    };
    &&& b.committing@ == a.committing@
    &&& b.commit_seq == a.commit_seq.wrapping_add(1).wrapping_add(1)
    &&& b.commit_end == a.commit_end.wrapping_add(1)
    &&& b.active_tx is None
    &&& !b.live_ids().contains(tx.id)
    &&& b.vol@ == (volume::VolumeView {
        root_cells: Map::empty(),
        sb: if moved != Map::<u64, u64>::empty() {
            Superblock {
                node_generation: a.node_stamp,
                ..filesystem::roots_taken(folded, moved)
            }
        } else {
            folded
        },
        ..a.vol@
    })
}

impl SharedCore {
    /// There is something to commit.
    pub open spec fn has_staged(&self) -> bool {
        self.active_tx is Some && self.active_tx->0.dirty > 0
    }

    /// The free blocks can be counted once the active transaction has landed.
    pub open spec fn can_land(&self) -> bool {
        self.active_tx matches Some(t) ==> filesystem::countable(
            self.vol@.sb.free_blocks,
            t.alloc_delta,
        )
    }

    /// Drives one commit: freezes the active transaction, and retires it if
    /// its blocks have `landed`. If they have not, it stays frozen, to be
    /// tried again. Whether there was anything to commit.
    pub fn commit_one(&mut self, landed: bool) -> (r: bool)
        requires
            old(self).wf(),
            old(self).committing@.len() < u64::MAX,
            landed ==> old(self).can_land(),
        ensures
            final(self).wf(),
            r == old(self).has_staged(),
            final(self).active_tx is None,
            final(self).page_cache == old(self).page_cache,
            final(self).pins == old(self).pins,
            final(self).node_stamp == old(self).node_stamp,
            final(self).live_barrier == old(self).live_barrier,
            final(self).same_signals(old(self)),
            !r ==> {
                &&& final(self).committing@ == old(self).committing@
                &&& final(self).vol@ == old(self).vol@
                &&& final(self).commit_seq == old(self).commit_seq
                &&& final(self).commit_end == old(self).commit_end
            },
            r && landed ==> commit_landed(*old(self), *final(self)),
            r && !landed ==> {
                let tx = old(self).active_tx->0;
                &&& final(self).committing@.len() == old(self).committing@.len() + 1
                &&& final(self).committing@.drop_last() == old(self).committing@
                &&& final(self).committing@.last().id == tx.id
                &&& final(self).committing@.last().alloc_delta == tx.alloc_delta
                &&& final(self).committing@.last().root_cells@ == old(self).vol@.root_cells
                &&& final(self).frozen(tx.id)
                &&& final(self).live_ids().contains(tx.id)
                &&& final(self).commit_seq == old(self).commit_seq.wrapping_add(1)
                &&& final(self).commit_end == old(self).commit_end
                &&& final(self).vol@ == (volume::VolumeView {
                    root_cells: Map::empty(),
                    ..old(self).vol@
                })
            },
    {
        proof {
            reveal(filesystem::pipeline_sound);
        }
        let txid = match self.quiesce_tx() {
            Some(id) => id,
            None => {
                return false;
            },
        };
        let ghost mid = *self;
        proof {
            let last = self.committing@.len() - 1;
            assert(self.committing@[last].id == txid);
            assert(filesystem::tx_ids(self.committing@)[last] == txid);
            assert(self.frozen_tx(txid) == self.committing@[last]) by {
                let i = choose|i: int|
                    0 <= i < self.committing@.len() && (#[trigger] self.committing@[i]).id == txid;
                assert(i == last);
            }
        }
        if !landed {
            return true;
        }
        let _ = self.commit_tx(txid);
        let ghost folded = *self;
        self.retire(txid);
        proof {
            let k = choose|k: int|
                0 <= k < folded.committing@.len() && (#[trigger] folded.committing@[k]).id == txid
                    && self.committing@ == folded.committing@.remove(k);
            assert(k == mid.committing@.len() - 1);
            assert(self.committing@ =~= mid.committing@.drop_last());
        }
        true
    }
}

/// `b` is `a` with what is buffered of files flushed at `now`, one after the
/// other. A file whose flush fails loses what was buffered of it.
pub open spec fn flushed_in_turn(a: SharedCore, b: SharedCore, inos: Seq<u64>, now: u64) -> bool
    decreases inos.len(),
{
    if inos.len() == 0 {
        b == a
    } else {
        exists|mid: SharedCore| #[trigger]
            vfs_data::flushed(mid, b, inos.last(), now) && mid.wf() && flushed_in_turn(
                a,
                mid,
                inos.drop_last(),
                now,
            )
    }
}

/// What is buffered of the file is flushed without failing when its turn comes.
pub open spec fn flushes_at_its_turn(a: SharedCore, inos: Seq<u64>, ino: u64, now: u64) -> bool {
    forall|i: int, mid: SharedCore|
        0 <= i < inos.len() && inos[i] == ino && #[trigger] flushed_in_turn(
            a,
            mid,
            inos.take(i),
            now,
        ) && mid.wf() ==> vfs_data::flush_fails(mid, ino) is None
}

/// Flushing files changes nothing that a file holds whose own flush does not
/// fail, whatever the flushes of other files do.
pub proof fn unmounting_keeps_contents(
    a: SharedCore,
    b: SharedCore,
    inos: Seq<u64>,
    now: u64,
    ino: u64,
)
    requires
        a.wf(),
        flushed_in_turn(a, b, inos, now),
        flushes_at_its_turn(a, inos, ino, now),
    ensures
        b.content(ino) == a.content(ino),
    decreases inos.len(),
{
    if inos.len() > 0 {
        let before = inos.drop_last();
        let last = inos.last();
        let mid = choose|mid: SharedCore| #[trigger]
            vfs_data::flushed(mid, b, last, now) && mid.wf() && flushed_in_turn(
                a,
                mid,
                before,
                now,
            );
        assert forall|i: int, m: SharedCore|
            0 <= i < before.len() && before[i] == ino && #[trigger] flushed_in_turn(
                a,
                m,
                before.take(i),
                now,
            ) && m.wf() implies vfs_data::flush_fails(m, ino) is None by {
            assert(before.take(i) =~= inos.take(i));
            assert(inos[i] == ino);
        }
        unmounting_keeps_contents(a, mid, before, now, ino);
        if last == ino {
            let i = inos.len() - 1;
            assert(inos.take(i) =~= before);
            assert(flushed_in_turn(a, mid, inos.take(i), now));
        }
        if vfs_data::flush_fails(mid, last) is None {
            vfs_data::flush_keeps_contents(mid, b, last, now, ino);
        } else {
            assert(b.page_cache.pages(ino) == mid.page_cache.pages(ino));
            assert(b.eff_size(ino) == mid.eff_size(ino));
            assert forall|i: int| 0 <= i < mid.eff_size(ino) implies b.byte_at(ino, i)
                == mid.byte_at(ino, i) by {}
            assert(b.content(ino) =~= mid.content(ino));
        }
    }
}

impl LionFS {
    /// Flushes what is buffered of a file; the transactions that have to land
    /// before the file is safe.
    pub fn fsync(&mut self, ino: u64, now: u64) -> (r: Result<Vec<u64>, VfsError>)
        requires
            old(self).wf(),
            old(self).core.can_stage(),
        ensures
            final(self).wf(),
            final(self).same_storage(old(self)),
            final(self).core.commit_due == old(self).core.commit_due,
            final(self).core.commit_wake == old(self).core.commit_wake,
            if !old(self).core.page_cache.inodes@.contains_key(ino) {
                &&& r matches Ok(ids) && ids@ == old(self).core.live_ids()
                &&& *final(self) == *old(self)
            } else {
                &&& vfs_data::flushed(old(self).core, final(self).core, ino, now)
                &&& match vfs_data::flush_fails(old(self).core, ino) {
                    Some(_) => r matches Err(e) && e.errno == posix::EIO,
                    None => r matches Ok(ids) && ids@ == seq![final(self).core.active_tx->0.id],
                }
            },
    {
        match self.flush_ino_marked(ino, now) {
            Ok(ids) => Ok(ids),
            Err(_) => Err(VfsError::new(posix::EIO)),
        }
    }

    /// Flushes what is buffered of a file that is closed; the transactions that
    /// have to land before the file is safe.
    pub fn flush(&mut self, ino: u64, now: u64) -> (r: Result<Vec<u64>, VfsError>)
        requires
            old(self).wf(),
            old(self).core.can_stage(),
        ensures
            final(self).wf(),
            final(self).same_storage(old(self)),
            final(self).core.commit_due == old(self).core.commit_due,
            final(self).core.commit_wake == old(self).core.commit_wake,
            if !old(self).core.page_cache.inodes@.contains_key(ino) {
                &&& r matches Ok(ids) && ids@ == old(self).core.live_ids()
                &&& *final(self) == *old(self)
            } else {
                &&& vfs_data::flushed(old(self).core, final(self).core, ino, now)
                &&& match vfs_data::flush_fails(old(self).core, ino) {
                    Some(_) => r matches Err(e) && e.errno == posix::EIO,
                    None => r matches Ok(ids) && ids@ == seq![final(self).core.active_tx->0.id],
                }
            },
    {
        self.fsync(ino, now)
    }

    /// Flushes everything that is buffered, before the volume is given up. A
    /// file whose flush fails loses what was buffered of it.
    pub fn destroy(&mut self, now: u64)
        requires
            old(self).wf(),
            old(self).core.can_stage(),
        ensures
            final(self).wf(),
            final(self).same_storage(old(self)),
            final(self).core.commit_wake == old(self).core.commit_wake,
            final(self).core.page_cache.inodes@.dom() == Set::<u64>::empty(),
            final(self).core.committing == old(self).core.committing,
            final(self).core.commit_seq == old(self).core.commit_seq,
            final(self).core.commit_end == old(self).core.commit_end,
            final(self).core.commit_coord == old(self).core.commit_coord,
            exists|inos: Seq<u64>|
                inos.no_duplicates() && inos.to_set() == old(self).core.page_cache.inodes@.dom()
                    && #[trigger] flushed_in_turn(old(self).core, final(self).core, inos, now),
    {
        let ghost a = self.core;
        proof {
            reveal(filesystem::cache_ok);
        }
        let inos = self.core.page_cache.dirty_inodes();
        let mut i: usize = 0;
        proof {
            assert(inos@.take(0) =~= Seq::<u64>::empty());
            assert(inos@.skip(0) =~= inos@);
            assert forall|x: u64| #[trigger]
                a.page_cache.inodes@.contains_key(x) implies inos@.contains(x) by {
                assert(inos@.to_set().contains(x));
            }
        }
        while i < inos.len()
            invariant
                i <= inos@.len(),
                self.wf(),
                self.core.can_stage(),
                self.same_storage(old(self)),
                self.core.commit_wake == old(self).core.commit_wake,
                self.core.committing == old(self).core.committing,
                self.core.commit_seq == old(self).core.commit_seq,
                self.core.commit_end == old(self).core.commit_end,
                self.core.commit_coord == old(self).core.commit_coord,
                a == old(self).core,
                a.wf(),
                inos@.to_set() == a.page_cache.inodes@.dom(),
                inos@.no_duplicates(),
                forall|j: int|
                    i <= j < inos@.len() ==> self.core.page_cache.inodes@.contains_key(
                        #[trigger] inos@[j],
                    ),
                forall|x: u64| #[trigger]
                    self.core.page_cache.inodes@.contains_key(x) ==> inos@.skip(
                        i as int,
                    ).contains(x),
                flushed_in_turn(a, self.core, inos@.take(i as int), now),
            decreases inos@.len() - i,
        {
            let ghost b = self.core;
            let ino = inos[i];
            let _ = self.flush_ino(ino, now);
            proof {
                let more = inos@.take(i + 1);
                assert(more.drop_last() =~= inos@.take(i as int));
                assert(more.last() == ino);
                assert(vfs_data::flushed(b, self.core, more.last(), now));
                assert forall|x: u64| #[trigger]
                    self.core.page_cache.inodes@.contains_key(x) implies inos@.skip(
                    i + 1,
                ).contains(x) by {
                    let rest = inos@.skip(i as int);
                    let j = choose|j: int| 0 <= j < rest.len() && rest[j] == x;
                    assert(j > 0);
                    assert(inos@.skip(i + 1)[j - 1] == x);
                }
            }
            i = i + 1;
        }
        proof {
            assert(inos@.take(i as int) =~= inos@);
            assert(inos@.skip(i as int) =~= Seq::<u64>::empty());
            assert(self.core.page_cache.inodes@.dom() =~= Set::<u64>::empty());
        }
    }
}

/// What was staged before a commit that landed is live no more, so a wait for
/// it ends.
pub proof fn landed_commit_covers(a: SharedCore, b: SharedCore, txid: u64)
    requires
        a.wf(),
        a.has_staged(),
        a.active_tx->0.id == txid,
        b.committing@ == a.committing@,
        b.active_tx is None,
    ensures
        !b.live_ids().contains(txid),
{
    reveal(filesystem::pipeline_sound);
    let ids = b.live_ids();
    if ids.contains(txid) {
        let i = ids.index_of(txid);
        assert(a.committing@[i].id == txid);
    }
}

/// What has landed is there again at the next mount: every file of which
/// nothing is only buffered holds what it held, and every directory, attribute
/// and clone record is as it was.
pub proof fn mount_after_commit_keeps_files(
    a: SharedCore,
    b: SharedCore,
    image: StoredImage,
    fs: LionFS,
    sb: Superblock,
    ino: u64,
)
    requires
        commit_landed(a, b),
        filesystem::same_files(b.vol@, image.vol@),
        filesystem::holds_image(fs, image, sb),
        fs.core.page_cache.inodes@.dom() == Set::<u64>::empty(),
        !a.page_cache.inodes@.contains_key(ino),
    ensures
        fs.core.content(ino) == a.content(ino),
        fs.core.vol@.inodes == a.vol@.inodes,
        fs.core.vol@.dirs == a.vol@.dirs,
        fs.core.vol@.xattrs == a.vol@.xattrs,
        fs.core.vol@.clones == a.vol@.clones,
{
    let c = fs.core;
    assert(c.page_cache.pages(ino) =~= a.page_cache.pages(ino));
    assert(c.eff_size(ino) == a.eff_size(ino));
    assert forall|i: int| 0 <= i < a.eff_size(ino) implies c.byte_at(ino, i) == a.byte_at(
        ino,
        i,
    ) by {
        let stored = a.vol@.stored(ino);
        assert(b.vol@.stored(ino) == stored);
        assert(c.vol@.stored(ino) == image.vol@.stored(ino));
        assert(filesystem::stored_byte(image.vol@.stored(ino), i) == filesystem::stored_byte(
            stored,
            i,
        ));
    }
    assert(c.content(ino) =~= a.content(ino));
}

/// A file that was flushed, and whose transaction has landed, holds at the next
/// mount what it held when it was flushed.
pub proof fn synced_file_is_there_again(
    before: SharedCore,
    a: SharedCore,
    b: SharedCore,
    image: StoredImage,
    fs: LionFS,
    sb: Superblock,
    ino: u64,
    now: u64,
)
    requires
        before.wf(),
        vfs_data::flush_fails(before, ino) is None,
        vfs_data::flushed(before, a, ino, now),
        commit_landed(a, b),
        filesystem::same_files(b.vol@, image.vol@),
        filesystem::holds_image(fs, image, sb),
        fs.core.page_cache.inodes@.dom() == Set::<u64>::empty(),
    ensures
        fs.core.content(ino) == before.content(ino),
{
    vfs_data::flush_keeps_contents(before, a, ino, now, ino);
    mount_after_commit_keeps_files(a, b, image, fs, sb, ino);
}

} // verus!
