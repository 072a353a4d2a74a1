//! What a snapshot froze stays as it was, whatever is done to the live file.

use crate::file::area::DataArea;
use crate::file::runs;
use crate::file::sharing;
use crate::file::writer;
use crate::file::writer::OpenFile;
use crate::fs::extents;
use crate::fs::snapshots::TreeStore;
use crate::integrity::refcount;
use crate::integrity::refcount::RefCountManager;
use crate::ondisk::serialization::{Extent, SnapshotRecord};
use vstd::prelude::*;

verus! {

/// The byte at `x` of a file that has these runs, 0 where it has no block.
pub open spec fn frozen_byte(area: DataArea, frozen: Seq<Extent>, x: int) -> u8 {
    match runs::place(frozen, x / 4096) {
        Some(p) => area.bytes(p)[x % 4096],
        None => 0,
    }
}

/// Every block that the frozen runs hold is in use, and protected where the
/// live file has it too.
pub open spec fn guarded(
    area: DataArea,
    rc: RefCountManager,
    live: OpenFile,
    frozen: Seq<Extent>,
) -> bool {
    forall|l: int|
        (#[trigger] runs::place(frozen, l)) matches Some(p) ==> {
            &&& area.in_use(p as int)
            &&& forall|m: int|
                #[trigger] live.at(m) == Some(p) ==> area.protects(rc, live.ino, m as u64, p)
        }
}

/// It is recorded of every block of the file that it was written at the stamp
/// of the area or before.
pub open spec fn born(area: DataArea, file: OpenFile) -> bool {
    forall|l: int|
        (#[trigger] file.at(l)) is Some ==> (area.birth(file.ino, l as u64) matches Some(rec)
            && rec.generation <= area.stamp)
}

/// With checksums, a barrier at the stamp guards everything that a file holds
/// at that moment. Nothing has to be pinned.
pub proof fn barrier_guards_the_live_file(area: DataArea, rc: RefCountManager, live: OpenFile)
    requires
        live.wf_in(area, rc),
        area.checked,
        born(area, live),
        area.stamp <= area.barrier,
    ensures
        guarded(area, rc, live, live.runs@),
{
    assert forall|l: int| (#[trigger] runs::place(live.runs@, l)) is Some implies ({
        let p = runs::place(live.runs@, l)->0;
        &&& area.in_use(p as int)
        &&& forall|m: int|
            #[trigger] live.at(m) == Some(p) ==> area.protects(rc, live.ino, m as u64, p)
    }) by {
        assert(live.at(l) == runs::place(live.runs@, l));
    }
}

/// Without checksums, pinning the runs of a file guards everything that it
/// holds.
pub proof fn pins_guard_the_live_file(area: DataArea, rc: RefCountManager, live: OpenFile)
    requires
        live.wf_in(area, rc),
        extents::runs_pinned(rc, live.runs@),
    ensures
        guarded(area, rc, live, live.runs@),
{
    let s = live.runs@;
    assert forall|l: int| (#[trigger] runs::place(s, l)) is Some implies ({
        let p = runs::place(s, l)->0;
        &&& area.in_use(p as int)
        &&& forall|m: int|
            #[trigger] live.at(m) == Some(p) ==> area.protects(rc, live.ino, m as u64, p)
    }) by {
        let p = runs::place(s, l)->0;
        assert(live.at(l) == Some(p));
        runs::lemma_place(s, l);
        let i = choose|i: int|
            0 <= i < s.len() && extents::extent_maps(#[trigger] s[i], l, p as int);
        assert(extents::holds(s[i], p as int));
        extents::lemma_cover_nonneg(s.take(i), p as int);
        extents::lemma_cover_step(s, i, p as int);
        extents::lemma_cover_mono(s, i + 1, p as int);
        assert(rc.pin_count(p as int) > 0);
    }
}

/// Writing to a file leaves the bytes of guarded runs as they are, and guards
/// them still.
pub proof fn frozen_data_survives_writing(
    a: DataArea,
    b: DataArea,
    fa: OpenFile,
    fb: OpenFile,
    rc: RefCountManager,
    first: int,
    end: int,
    frozen: Seq<Extent>,
)
    requires
        fa.wf_in(a, rc),
        writer::blocks_written(a, b, fa, fb, rc, first, end),
        guarded(a, rc, fa, frozen),
    ensures
        guarded(b, rc, fb, frozen),
        forall|x: int|
            (#[trigger] frozen_byte(b, frozen, x)) == frozen_byte(a, frozen, x),
{
    assert forall|l: int| (#[trigger] runs::place(frozen, l)) is Some implies ({
        let p = runs::place(frozen, l)->0;
        &&& b.in_use(p as int)
        &&& b.bytes(p) == a.bytes(p)
        &&& forall|m: int|
            #[trigger] fb.at(m) == Some(p) ==> b.protects(rc, fb.ino, m as u64, p)
    }) by {
        let p = runs::place(frozen, l)->0;
        assert(a.in_use(p as int));
        assert(!writer::one_is_at(fb, first, end, p)) by {
            if writer::one_is_at(fb, first, end, p) {
                let m = choose|m: int| first <= m < end && #[trigger] fb.at(m) == Some(p);
                if writer::keeps_place(a, rc, fa, m) {
                    assert(fa.at(m) == Some(p));
                } else {
                    assert(!a.in_use(p as int));
                }
            }
        }
        assert(b.in_use(p as int));
        assert forall|m: int| #[trigger] fb.at(m) == Some(p) implies b.protects(
            rc,
            fb.ino,
            m as u64,
            p,
        ) by {
            assert(!(first <= m < end));
            assert(fa.at(m) == Some(p));
            runs::lemma_place(fa.runs@, m);
            assert(b.birth(fa.ino, m as u64) == a.birth(fa.ino, m as u64));
        }
    }
    assert forall|x: int| (#[trigger] frozen_byte(b, frozen, x)) == frozen_byte(a, frozen, x) by {
        let l = x / 4096;
        if runs::place(frozen, l) is Some {
            assert(b.bytes(runs::place(frozen, l)->0) == a.bytes(runs::place(frozen, l)->0));
        }
    }
}

/// Dropping blocks of a file leaves guarded runs as they are.
proof fn lemma_survives_dropping(
    a: DataArea,
    b: DataArea,
    fa: OpenFile,
    fb: OpenFile,
    rc: RefCountManager,
    end: int,
    frozen: Seq<Extent>,
)
    requires
        fa.wf_in(a, rc),
        writer::blocks_dropped(a, b, fa, fb, rc, end),
        guarded(a, rc, fa, frozen),
    ensures
        guarded(b, rc, fb, frozen),
        forall|x: int|
            (#[trigger] frozen_byte(b, frozen, x)) == frozen_byte(a, frozen, x),
{
    let all: int = 0x1_0000_0000_0000_0000;
    assert forall|l: int| (#[trigger] runs::place(frozen, l)) is Some implies ({
        let p = runs::place(frozen, l)->0;
        &&& b.in_use(p as int)
        &&& forall|m: int|
            #[trigger] fb.at(m) == Some(p) ==> b.protects(rc, fb.ino, m as u64, p)
    }) by {
        let p = runs::place(frozen, l)->0;
        assert(a.in_use(p as int));
        assert(!writer::given_back(a, rc, fa, end, all, p)) by {
            if writer::given_back(a, rc, fa, end, all, p) {
                let m = choose|m: int|
                    end <= m < all && #[trigger] fa.at(m) == Some(p) && !a.protects(
                        rc,
                        fa.ino,
                        m as u64,
                        p,
                    );
                assert(a.protects(rc, fa.ino, m as u64, p));
            }
        }
        assert(b.in_use(p as int));
        assert forall|m: int| #[trigger] fb.at(m) == Some(p) implies b.protects(
            rc,
            fb.ino,
            m as u64,
            p,
        ) by {
            assert(m < end);
            assert(fa.at(m) == Some(p));
            runs::lemma_place(fa.runs@, m);
            assert(b.birth(fa.ino, m as u64) == a.birth(fa.ino, m as u64));
        }
    }
    assert forall|x: int| (#[trigger] frozen_byte(b, frozen, x)) == frozen_byte(a, frozen, x) by {
        if runs::place(frozen, x / 4096) is Some {
            let p = runs::place(frozen, x / 4096)->0;
            assert(b.bytes(p) == a.bytes(p));
        }
    }
}

/// Making a file smaller leaves the bytes of guarded runs as they are, and
/// guards them still.
pub proof fn frozen_data_survives_truncation(
    a: DataArea,
    b: DataArea,
    fa: OpenFile,
    fb: OpenFile,
    rc: RefCountManager,
    new_size: u64,
    frozen: Seq<Extent>,
)
    requires
        fa.wf_in(a, rc),
        writer::shrunk(a, b, fa, fb, rc, new_size),
        guarded(a, rc, fa, frozen),
    ensures
        guarded(b, rc, fb, frozen),
        forall|x: int|
            (#[trigger] frozen_byte(b, frozen, x)) == frozen_byte(a, frozen, x),
{
    let first = new_size as int / 4096;
    let behind = writer::end_block(new_size as int, writer::tail_bytes(fa, new_size));
    let end = writer::end_block(0, new_size as int);
    let (m, fm) = choose|m: DataArea, fm: OpenFile|
        {
            &&& #[trigger] fm.wf_in(m, rc)
            &&& writer::blocks_written(a, m, fa, fm, rc, first, behind)
            &&& writer::blocks_dropped(m, b, fm, fb, rc, end)
        };
    frozen_data_survives_writing(a, m, fa, fm, rc, first, behind, frozen);
    lemma_survives_dropping(m, b, fm, fb, rc, end, frozen);
    assert forall|x: int| (#[trigger] frozen_byte(b, frozen, x)) == frozen_byte(a, frozen, x) by {
        assert(frozen_byte(b, frozen, x) == frozen_byte(m, frozen, x));
    }
}

/// Sharing a block leaves the bytes of guarded runs as they are, and guards
/// them still: the shared block is pinned.
pub proof fn frozen_data_survives_sharing(
    a: DataArea,
    b: DataArea,
    fa: OpenFile,
    fb: OpenFile,
    ra: RefCountManager,
    rb: RefCountManager,
    l: u64,
    p: u64,
    frozen: Seq<Extent>,
)
    requires
        ra.wf(),
        fa.wf_in(a, ra),
        sharing::shared(a, b, fa, fb, l, p),
        refcount::pinned_once_more(ra, rb, p as int, 1),
        guarded(a, ra, fa, frozen),
    ensures
        guarded(b, rb, fb, frozen),
        rb.pin_count(p as int) > 0,
        forall|x: int|
            (#[trigger] frozen_byte(b, frozen, x)) == frozen_byte(a, frozen, x),
{
    refcount::lemma_pins_nonneg(ra, p as int);
    assert(rb.pin_count(p as int) == ra.pin_count(p as int) + 1);
    assert forall|k: int| (#[trigger] runs::place(frozen, k)) is Some implies ({
        let q = runs::place(frozen, k)->0;
        &&& b.in_use(q as int)
        &&& forall|m: int|
            #[trigger] fb.at(m) == Some(q) ==> b.protects(rb, fb.ino, m as u64, q)
    }) by {
        let q = runs::place(frozen, k)->0;
        assert(a.in_use(q as int));
        assert forall|m: int| #[trigger] fb.at(m) == Some(q) implies b.protects(
            rb,
            fb.ino,
            m as u64,
            q,
        ) by {
            if m != l {
                assert(fa.at(m) == Some(q));
                runs::lemma_place(fa.runs@, m);
                assert(rb.pin_count(q as int) >= ra.pin_count(q as int));
                assert(b.birth(fa.ino, m as u64) == a.birth(fa.ino, m as u64));
            }
        }
    }
    assert forall|x: int| (#[trigger] frozen_byte(b, frozen, x)) == frozen_byte(a, frozen, x) by {
        if runs::place(frozen, x / 4096) is Some {
            let q = runs::place(frozen, x / 4096)->0;
            assert(b.bytes(q) == a.bytes(q));
        }
    }
}

/// A snapshot that was made when the file was `fa` reads the bytes that the
/// file had then, after any write to the file.
pub proof fn snapshot_reads_the_file_as_it_was(
    record: SnapshotRecord,
    store: TreeStore,
    a: DataArea,
    b: DataArea,
    fa: OpenFile,
    fb: OpenFile,
    rc: RefCountManager,
    first: int,
    end: int,
)
    requires
        fa.wf_in(a, rc),
        store.runs_at(record.inode_tree_root, fa.ino) == fa.runs@,
        guarded(a, rc, fa, fa.runs@),
        writer::blocks_written(a, b, fa, fb, rc, first, end),
    ensures
        forall|x: int|
            (#[trigger] frozen_byte(b, store.runs_at(record.inode_tree_root, fa.ino), x))
                == fa.byte(a, x),
{
    frozen_data_survives_writing(a, b, fa, fb, rc, first, end, fa.runs@);
    assert forall|x: int|
        (#[trigger] frozen_byte(b, store.runs_at(record.inode_tree_root, fa.ino), x)) == fa.byte(
            a,
            x,
        ) by {
        assert(frozen_byte(b, fa.runs@, x) == frozen_byte(a, fa.runs@, x));
        assert(fa.at(x / 4096) == runs::place(fa.runs@, x / 4096));
    }
}

/// Writing records when each block was written, so a barrier at a later stamp
/// guards what was written.
pub proof fn writing_records_births(
    a: DataArea,
    b: DataArea,
    fa: OpenFile,
    fb: OpenFile,
    rc: RefCountManager,
    first: int,
    end: int,
)
    requires
        fa.wf_in(a, rc),
        fb.wf_in(b, rc),
        a.checked,
        born(a, fa),
        writer::blocks_written(a, b, fa, fb, rc, first, end),
    ensures
        born(b, fb),
{
    assert forall|l: int| (#[trigger] fb.at(l)) is Some implies (b.birth(
        fb.ino,
        l as u64,
    ) matches Some(rec) && rec.generation <= b.stamp) by {
        runs::lemma_place(fb.runs@, l);
        assert(b.birth(fa.ino, l as u64) == b.birth(fb.ino, l as u64));
        if !(first <= l < end) {
            assert(fa.at(l) is Some);
        }
    }
}

/// A write moves a block if and only if something holds on to it: a pin, or a
/// record of the block from before the barrier. What a write may overwrite stays
/// where it is, and what it moves goes to a block that was free.
pub proof fn writing_moves_only_what_is_held(
    a: DataArea,
    b: DataArea,
    fa: OpenFile,
    fb: OpenFile,
    rc: RefCountManager,
    first: int,
    end: int,
    l: int,
)
    requires
        fa.wf_in(a, rc),
        writer::blocks_written(a, b, fa, fb, rc, first, end),
        first <= l < end,
    ensures
        ({
            let pinned = fa.at(l) is Some && rc.pin_count(fa.at(l)->0 as int) > 0;
            let frozen = a.checked && (a.birth(fa.ino, l as u64) matches Some(rec)
                && rec.generation <= a.barrier);
            &&& fa.at(l) is Some && !pinned && !frozen ==> fb.at(l) == fa.at(l)
            &&& fa.at(l) is None || pinned || frozen ==> fb.at(l) != fa.at(l) && (fb.at(l) matches
                Some(p) && !a.in_use(p as int))
            &&& fb.at(l) matches Some(p) && b.in_use(p as int)
        }),
{
    if let Some(p) = fa.at(l) {
        assert(a.in_use(p as int));
    }
    if let Some(p) = fb.at(l) {
        assert(writer::one_is_at(fb, first, end, p));
        assert(b.in_use(p as int));
    }
}

/// What is cut off a file is free again, unless a pin or a record from before
/// the barrier holds on to it. No other block is given back.
pub proof fn cut_off_blocks_are_free_again(
    a: DataArea,
    b: DataArea,
    fa: OpenFile,
    fb: OpenFile,
    rc: RefCountManager,
    end: int,
    l: int,
    q: u64,
)
    requires
        fa.wf_in(a, rc),
        writer::blocks_dropped(a, b, fa, fb, rc, end),
    ensures
        l < end ==> fb.at(l) == fa.at(l),
        l >= end ==> fb.at(l) is None,
        l >= end && fa.at(l) == Some(q) && rc.pin_count(q as int) == 0 && !(a.checked && (a.birth(
            fa.ino,
            l as u64,
        ) matches Some(rec) && rec.generation <= a.barrier)) ==> !b.in_use(q as int),
        rc.pin_count(q as int) > 0 ==> b.in_use(q as int) == a.in_use(q as int),
        (forall|m: int| m >= end ==> #[trigger] fa.at(m) != Some(q)) ==> b.in_use(q as int)
            == a.in_use(q as int),
{
    if l >= end && fa.at(l) == Some(q) {
        runs::lemma_place(fa.runs@, l);
        assert(end <= l < 0x1_0000_0000_0000_0000 && fa.at(l) == Some(q));
    }
    assert(b.in_use(q as int) <==> a.in_use(q as int) && !writer::given_back(
        a,
        rc,
        fa,
        end,
        0x1_0000_0000_0000_0000,
        q,
    ));
}

} // verus!
