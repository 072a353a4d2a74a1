//! Access lists: who may do what with an inode, beyond owner, group and others.
//!
//! A list has an entry for the owner, for the owning group and for others, and
//! may have entries for further users and groups. Those further entries, and
//! that of the owning group, count only as far as the mask entry lets them.
//!
//! Encoded, a list is the version 2 in four bytes and then, for each entry, its
//! tag and permissions in two bytes each and its id in four, lowest byte first.

use crate::codec;
use crate::error::{Error, ErrorKind};
use vstd::prelude::*;

verus! {

/// Attribute that holds the access list of an inode.
pub const ACL_ACCESS_XATTR: &'static str = "system.posix_acl_access";

/// Attribute that holds the access list that new inodes of a directory get.
pub const ACL_DEFAULT_XATTR: &'static str = "system.posix_acl_default";

/// Permission to read.
pub const PERM_READ: u16 = 4;

/// Permission to write.
pub const PERM_WRITE: u16 = 2;

/// Permission to execute.
pub const PERM_EXECUTE: u16 = 1;

/// Tag of the owner's entry.
pub const ACL_USER_OBJ: u16 = 0x01;

/// Tag of the entry of a further user.
pub const ACL_USER: u16 = 0x02;

/// Tag of the owning group's entry.
pub const ACL_GROUP_OBJ: u16 = 0x04;

/// Tag of the entry of a further group.
pub const ACL_GROUP: u16 = 0x08;

/// Tag of the mask.
pub const ACL_MASK: u16 = 0x10;

/// Tag of the entry of all others.
pub const ACL_OTHER: u16 = 0x20;

/// Version of the encoding.
pub const ACL_VERSION: u32 = 2;

/// Id of an entry that has none.
pub const ACL_UNDEFINED_ID: u32 = 0xffff_ffff;

/// An entry of a list.
#[derive(Debug, Clone, Copy, PartialEq, Eq, Structural)]
pub struct AclEntry {
    /// Whom the entry is for.
    pub tag: u16,
    /// Permissions.
    pub perm: u16,
    /// User or group, if the tag asks for one.
    pub id: Option<u32>,
}

/// An access list.
#[derive(Debug)]
pub struct PosixAcl {
    /// Entries.
    pub entries: Vec<AclEntry>,
}

/// The tag asks for an id.
pub open spec fn is_named(tag: u16) -> bool {
    tag == ACL_USER || tag == ACL_GROUP
}

/// The tag is known.
pub open spec fn is_tag(tag: u16) -> bool {
    tag == ACL_USER_OBJ || tag == ACL_GROUP_OBJ || tag == ACL_MASK || tag == ACL_OTHER || is_named(
        tag,
    )
}

/// The entry can be stored: its tag is known, it has no more than the three
/// permissions, and an id if and only if the tag asks for one.
pub open spec fn entry_ok(e: AclEntry) -> bool {
    &&& is_tag(e.tag)
    &&& e.perm <= 7
    &&& e.id is Some <==> is_named(e.tag)
}

/// The first entry of the tag.
pub open spec fn first_of(s: Seq<AclEntry>, tag: u16) -> Option<AclEntry>
    decreases s.len(),
{
    if s.len() == 0 {
        None
    } else if s[0].tag == tag {
        Some(s[0])
    } else {
        first_of(s.drop_first(), tag)
    }
}

/// The first entry of the tag and the id.
pub open spec fn first_named(s: Seq<AclEntry>, tag: u16, id: u32) -> Option<AclEntry>
    decreases s.len(),
{
    if s.len() == 0 {
        None
    } else if s[0].tag == tag && s[0].id == Some(id) {
        Some(s[0])
    } else {
        first_named(s.drop_first(), tag, id)
    }
}

/// The permissions of an entry, none if there is no entry.
pub open spec fn perm_in(e: Option<AclEntry>) -> u16 {
    match e {
        Some(e) => e.perm,
        None => 0,
    }
}

/// What the mask lets through: everything if there is none.
pub open spec fn mask_of(s: Seq<AclEntry>) -> u16 {
    match first_of(s, ACL_MASK) {
        Some(e) => e.perm,
        None => 7,
    }
}

/// The permissions hold all that is wanted.
pub open spec fn grants(perm: u16, want: u16) -> bool {
    perm & want == want
}

/// The list lets the caller do what is wanted with an inode of `owner` and
/// `group`. The owner's entry counts for the owner, else the entry of the user,
/// else those of the groups that the caller is in, else that of all others.
pub open spec fn allows(
    s: Seq<AclEntry>,
    uid: u32,
    gid: u32,
    owner: u32,
    group: u32,
    want: u16,
) -> bool {
    let mask = mask_of(s);
    let user = first_named(s, ACL_USER, uid);
    let named = first_named(s, ACL_GROUP, gid);
    let owning = perm_in(first_of(s, ACL_GROUP_OBJ));
    if uid == owner {
        grants(perm_in(first_of(s, ACL_USER_OBJ)), want)
    } else if user is Some {
        grants(perm_in(user) & mask, want)
    } else if gid == group || named is Some {
        ||| gid == group && grants(owning & mask, want)
        ||| named is Some && grants(perm_in(named) & mask, want)
    } else {
        grants(perm_in(first_of(s, ACL_OTHER)), want)
    }
}

/// The permission bits that the list stands for: the owner's, those of the
/// owning group as far as the mask lets them, and those of others.
pub open spec fn mode_bits_of(s: Seq<AclEntry>) -> u32 {
    let group = perm_in(first_of(s, ACL_GROUP_OBJ)) & mask_of(s);
    ((((perm_in(first_of(s, ACL_USER_OBJ)) & 7) as u32) << 6u32) | (((group & 7) as u32) << 3u32))
        | ((perm_in(first_of(s, ACL_OTHER)) & 7) as u32)
}

/// The bits of one class of a mode.
pub open spec fn class_bits(mode: u32, shift: u32) -> u16 {
    ((mode >> shift) & 7) as u16
}

/// An entry after a change of the mode: the owner's and others' bits are
/// theirs, those of the group go to the mask, or to the owning group where
/// there is no mask.
pub open spec fn chmod_entry(e: AclEntry, mode: u32, masked: bool) -> AclEntry {
    if e.tag == ACL_USER_OBJ {
        AclEntry { perm: class_bits(mode, 6), ..e }
    } else if e.tag == ACL_MASK || (e.tag == ACL_GROUP_OBJ && !masked) {
        AclEntry { perm: class_bits(mode, 3), ..e }
    } else if e.tag == ACL_OTHER {
        AclEntry { perm: class_bits(mode, 0), ..e }
    } else {
        e
    }
}

/// The list after a change of the mode.
pub open spec fn after_chmod(s: Seq<AclEntry>, mode: u32) -> Seq<AclEntry> {
    s.map_values(|e: AclEntry| chmod_entry(e, mode, first_of(s, ACL_MASK) is Some))
}

/// An entry of the list that a new inode gets: owner, owning group and others
/// have no more than the mode gives them.
pub open spec fn inherit_entry(e: AclEntry, mode: u32) -> AclEntry {
    if e.tag == ACL_USER_OBJ {
        AclEntry { perm: e.perm & class_bits(mode, 6), ..e }
    } else if e.tag == ACL_GROUP_OBJ {
        AclEntry { perm: e.perm & class_bits(mode, 3), ..e }
    } else if e.tag == ACL_OTHER {
        AclEntry { perm: e.perm & class_bits(mode, 0), ..e }
    } else {
        e
    }
}

/// The list that a new inode gets from a default list.
pub open spec fn inherited(s: Seq<AclEntry>, mode: u32) -> Seq<AclEntry> {
    s.map_values(|e: AclEntry| inherit_entry(e, mode))
}

/// The number of entries of the tag.
pub open spec fn count_of(s: Seq<AclEntry>, tag: u16) -> nat
    decreases s.len(),
{
    if s.len() == 0 {
        0
    } else {
        count_of(s.drop_last(), tag) + (if s.last().tag == tag {
            1nat
        } else {
            0
        })
    }
}

/// No further user or group has two entries.
pub open spec fn named_once(s: Seq<AclEntry>) -> bool {
    forall|i: int, j: int|
        0 <= i < j < s.len() && is_named((#[trigger] s[i]).tag) && s[i].tag == (
        #[trigger] s[j]).tag ==> s[i].id != s[j].id
}

/// The list is complete: one entry each for owner, owning group and others, at
/// most one mask, and one if there are further users or groups.
pub open spec fn valid(s: Seq<AclEntry>) -> bool {
    &&& forall|i: int| 0 <= i < s.len() ==> entry_ok(#[trigger] s[i])
    &&& count_of(s, ACL_USER_OBJ) == 1
    &&& count_of(s, ACL_GROUP_OBJ) == 1
    &&& count_of(s, ACL_OTHER) == 1
    &&& count_of(s, ACL_MASK) <= 1
    &&& count_of(s, ACL_USER) + count_of(s, ACL_GROUP) > 0 ==> count_of(s, ACL_MASK) == 1
    &&& named_once(s)
}

/// The bytes of an entry.
pub open spec fn entry_bytes(e: AclEntry) -> Seq<u8> {
    codec::le(e.tag as nat, 2) + codec::le(e.perm as nat, 2) + codec::le(
        match e.id {
            Some(id) => id as nat,
            None => ACL_UNDEFINED_ID as nat,
        },
        4,
    )
}

/// The bytes of the entries.
pub open spec fn entries_bytes(s: Seq<AclEntry>) -> Seq<u8>
    decreases s.len(),
{
    if s.len() == 0 {
        Seq::empty()
    } else {
        entries_bytes(s.drop_last()) + entry_bytes(s.last())
    }
}

/// The bytes of a list.
pub open spec fn encoded(s: Seq<AclEntry>) -> Seq<u8> {
    codec::le(ACL_VERSION as nat, 4) + entries_bytes(s)
}

/// The number in the `n` bytes at `at`.
pub open spec fn number_at(b: Seq<u8>, at: int, n: int) -> nat {
    codec::from_le(b.subrange(at, at + n))
}

/// The entry in the eight bytes at `at`.
pub open spec fn entry_in(b: Seq<u8>, at: int) -> AclEntry {
    AclEntry {
        tag: number_at(b, at, 2) as u16,
        perm: number_at(b, at + 2, 2) as u16,
        id: if is_named(number_at(b, at, 2) as u16) {
            Some(number_at(b, at + 4, 4) as u32)
        } else {
            None
        },
    }
}

/// The entries in the bytes of a list.
pub open spec fn entries_in(b: Seq<u8>) -> Seq<AclEntry> {
    Seq::new(((b.len() - 4) / 8) as nat, |i: int| entry_in(b, 4 + 8 * i))
}

/// The list that the bytes stand for, if they stand for one.
pub open spec fn decoded(b: Seq<u8>) -> Option<Seq<AclEntry>> {
    if b.len() < 4 || (b.len() - 4) % 8 != 0 || number_at(b, 0, 4) != ACL_VERSION {
        None
    } else if exists|i: int|
        0 <= i < entries_in(b).len() && !entry_ok(#[trigger] entries_in(b)[i]) {
        None
    } else {
        Some(entries_in(b))
    }
}

/// The bytes of entries are eight for each, and each has its own.
proof fn lemma_entries_bytes(s: Seq<AclEntry>)
    ensures
        entries_bytes(s).len() == 8 * s.len(),
        forall|i: int|
            0 <= i < s.len() ==> entries_bytes(s).subrange(8 * i, 8 * i + 8) == entry_bytes(
                #[trigger] s[i],
            ),
    decreases s.len(),
{
    if s.len() > 0 {
        let t = s.drop_last();
        let e = s.last();
        lemma_entries_bytes(t);
        lemma_entry_len(e);
        let b = entries_bytes(s);
        assert forall|i: int| 0 <= i < s.len() implies b.subrange(8 * i, 8 * i + 8) == entry_bytes(
            #[trigger] s[i],
        ) by {
            if i < t.len() {
                assert(t[i] == s[i]);
                assert(b.subrange(8 * i, 8 * i + 8) =~= entries_bytes(t).subrange(8 * i, 8 * i + 8));
            } else {
                assert(b.subrange(8 * i, 8 * i + 8) =~= entry_bytes(e));
            }
        }
    }
}

/// An entry takes eight bytes.
proof fn lemma_entry_len(e: AclEntry)
    ensures
        entry_bytes(e).len() == 8,
{
    codec::lemma_le_len(e.tag as nat, 2);
    codec::lemma_le_len(e.perm as nat, 2);
    match e.id {
        Some(id) => codec::lemma_le_len(id as nat, 4),
        None => codec::lemma_le_len(ACL_UNDEFINED_ID as nat, 4),
    }
}

/// A list that was encoded is decoded again.
pub proof fn encoding_round_trips(s: Seq<AclEntry>)
    requires
        forall|i: int| 0 <= i < s.len() ==> entry_ok(#[trigger] s[i]),
    ensures
        decoded(encoded(s)) == Some(s),
{
    let b = encoded(s);
    let head = codec::le(ACL_VERSION as nat, 4);
    let body = entries_bytes(s);
    codec::lemma_pow256_values();
    codec::lemma_le_len(ACL_VERSION as nat, 4);
    lemma_entries_bytes(s);
    assert(b.subrange(0, 4) =~= head);
    codec::lemma_from_le_of_le(ACL_VERSION as nat, 4);
    assert(entries_in(b).len() == s.len());
    assert forall|i: int| 0 <= i < s.len() implies #[trigger] entries_in(b)[i] == s[i] by {
        let e = s[i];
        let at = 4 + 8 * i;
        let id: nat = match e.id {
            Some(id) => id as nat,
            None => ACL_UNDEFINED_ID as nat,
        };
        lemma_entry_len(e);
        codec::lemma_le_len(e.tag as nat, 2);
        codec::lemma_le_len(e.perm as nat, 2);
        codec::lemma_le_len(id, 4);
        assert(b.subrange(at, at + 8) =~= body.subrange(8 * i, 8 * i + 8));
        assert(b.subrange(at, at + 8) == entry_bytes(e));
        assert(b.subrange(at, at + 2) =~= entry_bytes(e).subrange(0, 2));
        assert(b.subrange(at, at + 2) =~= codec::le(e.tag as nat, 2));
        assert(b.subrange(at + 2, at + 4) =~= entry_bytes(e).subrange(2, 4));
        assert(b.subrange(at + 2, at + 4) =~= codec::le(e.perm as nat, 2));
        assert(b.subrange(at + 4, at + 8) =~= entry_bytes(e).subrange(4, 8));
        assert(b.subrange(at + 4, at + 8) =~= codec::le(id, 4));
        codec::lemma_from_le_of_le(e.tag as nat, 2);
        codec::lemma_from_le_of_le(e.perm as nat, 2);
        codec::lemma_from_le_of_le(id, 4);
        assert(entry_ok(e));
    }
    assert(entries_in(b) =~= s);
}

/// Mapping the entries by a function that keeps tags keeps which entry is the
/// first of a tag.
proof fn lemma_first_mapped(s: Seq<AclEntry>, f: spec_fn(AclEntry) -> AclEntry, tag: u16)
    requires
        forall|e: AclEntry| (#[trigger] f(e)).tag == e.tag && f(e).id == e.id,
    ensures
        first_of(s.map_values(f), tag) == (match first_of(s, tag) {
            Some(e) => Some(f(e)),
            None => None,
        }),
    decreases s.len(),
{
    let t = s.map_values(f);
    if s.len() > 0 {
        assert(t[0] == f(s[0]));
        assert(t.drop_first() =~= s.drop_first().map_values(f));
        lemma_first_mapped(s.drop_first(), f, tag);
    }
}

/// The same for a tag and an id.
proof fn lemma_named_mapped(
    s: Seq<AclEntry>,
    f: spec_fn(AclEntry) -> AclEntry,
    tag: u16,
    id: u32,
)
    requires
        forall|e: AclEntry| (#[trigger] f(e)).tag == e.tag && f(e).id == e.id,
    ensures
        first_named(s.map_values(f), tag, id) == (match first_named(s, tag, id) {
            Some(e) => Some(f(e)),
            None => None,
        }),
    decreases s.len(),
{
    let t = s.map_values(f);
    if s.len() > 0 {
        assert(t[0] == f(s[0]));
        assert(t.drop_first() =~= s.drop_first().map_values(f));
        lemma_named_mapped(s.drop_first(), f, tag, id);
    }
}

/// The first entry of a tag has the tag.
proof fn lemma_first_has_tag(s: Seq<AclEntry>, tag: u16, id: u32)
    ensures
        first_of(s, tag) matches Some(e) ==> e.tag == tag,
        first_named(s, tag, id) matches Some(e) ==> e.tag == tag,
    decreases s.len(),
{
    if s.len() > 0 {
        lemma_first_has_tag(s.drop_first(), tag, id);
    }
}

/// A change of the mode leaves the entries of further users and groups as they
/// are. The owner and others get their bits of the mode; the bits of the group
/// go to the mask if there is one, and to the owning group if there is none.
pub proof fn chmod_keeps_named_entries(s: Seq<AclEntry>, mode: u32, tag: u16, id: u32)
    requires
        is_named(tag),
    ensures
        first_named(after_chmod(s, mode), tag, id) == first_named(s, tag, id),
        first_of(s, ACL_USER_OBJ) is Some ==> perm_in(first_of(after_chmod(s, mode), ACL_USER_OBJ))
            == class_bits(mode, 6),
        first_of(s, ACL_OTHER) is Some ==> perm_in(first_of(after_chmod(s, mode), ACL_OTHER))
            == class_bits(mode, 0),
        first_of(s, ACL_MASK) is Some ==> mask_of(after_chmod(s, mode)) == class_bits(mode, 3)
            && first_of(after_chmod(s, mode), ACL_GROUP_OBJ) == first_of(s, ACL_GROUP_OBJ),
        first_of(s, ACL_MASK) is None && first_of(s, ACL_GROUP_OBJ) is Some ==> perm_in(
            first_of(after_chmod(s, mode), ACL_GROUP_OBJ),
        ) == class_bits(mode, 3),
{
    let masked = first_of(s, ACL_MASK) is Some;
    let f = |e: AclEntry| chmod_entry(e, mode, masked);
    assert(after_chmod(s, mode) =~= s.map_values(f));
    lemma_named_mapped(s, f, tag, id);
    lemma_first_has_tag(s, tag, id);
    lemma_first_mapped(s, f, ACL_USER_OBJ);
    lemma_first_has_tag(s, ACL_USER_OBJ, id);
    lemma_first_mapped(s, f, ACL_OTHER);
    lemma_first_has_tag(s, ACL_OTHER, id);
    lemma_first_mapped(s, f, ACL_MASK);
    lemma_first_has_tag(s, ACL_MASK, id);
    lemma_first_mapped(s, f, ACL_GROUP_OBJ);
    lemma_first_has_tag(s, ACL_GROUP_OBJ, id);
}

/// A new inode gets the default list's entries of further users and groups and
/// its mask unchanged.
pub proof fn named_entries_are_inherited(s: Seq<AclEntry>, mode: u32, tag: u16, id: u32)
    requires
        is_named(tag),
    ensures
        first_named(inherited(s, mode), tag, id) == first_named(s, tag, id),
        mask_of(inherited(s, mode)) == mask_of(s),
{
    let f = |e: AclEntry| inherit_entry(e, mode);
    assert(inherited(s, mode) =~= s.map_values(f));
    lemma_named_mapped(s, f, tag, id);
    lemma_first_has_tag(s, tag, id);
    lemma_first_mapped(s, f, ACL_MASK);
    lemma_first_has_tag(s, ACL_MASK, id);
}

/// A list stands for permission bits of owner, group and others only: what its
/// entries of these say, that of the owning group as far as the mask lets it.
pub proof fn lists_give_no_other_bits(s: Seq<AclEntry>)
    ensures
        mode_bits_of(s) <= 0o777,
        (mode_bits_of(s) >> 6u32) & 7 == (perm_in(first_of(s, ACL_USER_OBJ)) & 7) as u32,
        (mode_bits_of(s) >> 3u32) & 7 == ((perm_in(first_of(s, ACL_GROUP_OBJ)) & mask_of(s))
            & 7) as u32,
        mode_bits_of(s) & 7 == (perm_in(first_of(s, ACL_OTHER)) & 7) as u32,
{
    let u = perm_in(first_of(s, ACL_USER_OBJ));
    let g = perm_in(first_of(s, ACL_GROUP_OBJ)) & mask_of(s);
    let o = perm_in(first_of(s, ACL_OTHER));
    assert({
        let m = ((((u & 7) as u32) << 6u32) | (((g & 7) as u32) << 3u32)) | ((o & 7) as u32);
        m <= 0o777 && (m >> 6u32) & 7 == (u & 7) as u32 && (m >> 3u32) & 7 == (g & 7) as u32 && m
            & 7 == (o & 7) as u32
    }) by (bit_vector);
}

/// The entry can be stored.
fn is_entry_ok(e: &AclEntry) -> (r: bool)
    ensures
        r == entry_ok(*e),
{
    let named = e.tag == ACL_USER || e.tag == ACL_GROUP;
    let known = named || e.tag == ACL_USER_OBJ || e.tag == ACL_GROUP_OBJ || e.tag == ACL_MASK
        || e.tag == ACL_OTHER;
    known && e.perm <= 7 && e.id.is_some() == named
}

impl PosixAcl {
    /// The list that the bytes stand for.
    pub fn decode(bytes: &[u8]) -> (r: Result<Self, Error>)
        ensures
            match decoded(bytes@) {
                Some(s) => r matches Ok(acl) && acl.entries@ == s,
                None => r matches Err(e) && e.kind == ErrorKind::InvalidInput,
            },
    {
        let n: usize = bytes.len();
        proof {
            codec::lemma_pow256_values();
        }
        if n < 4 || (n - 4) % 8 != 0 {
            return Err(Error::new(ErrorKind::InvalidInput, "access list of a wrong length"));
        }
        if codec::get_le(bytes, 0, 4) != ACL_VERSION as u128 {
            return Err(Error::new(ErrorKind::InvalidInput, "unknown version of access list"));
        }
        let mut entries: Vec<AclEntry> = Vec::new();
        let mut at: usize = 4;
        let ghost b = bytes@;
        while at < n
            invariant
                n == b.len(),
                b == bytes@,
                4 <= at <= n,
                (n - 4) % 8 == 0,
                at == 4 + 8 * entries@.len(),
                number_at(b, 0, 4) == ACL_VERSION,
                forall|i: int|
                    0 <= i < entries@.len() ==> #[trigger] entries@[i] == entries_in(b)[i]
                        && entry_ok(entries@[i]),
            decreases n - at,
        {
            proof {
                codec::lemma_pow256_values();
            }
            let tag: u16 = codec::get_le(bytes, at, 2) as u16;
            let perm: u16 = codec::get_le(bytes, at + 2, 2) as u16;
            let id: u32 = codec::get_le(bytes, at + 4, 4) as u32;
            let e = AclEntry {
                tag,
                perm,
                id: if tag == ACL_USER || tag == ACL_GROUP {
                    Some(id)
                } else {
                    None
                },
            };
            let ghost k = entries@.len() as int;
            assert(e == entry_in(b, at as int));
            assert(e == entries_in(b)[k]);
            if !is_entry_ok(&e) {
                return Err(Error::new(ErrorKind::InvalidInput, "bad entry in access list"));
            }
            entries.push(e);
            at = at + 8;
        }
        assert(entries@ =~= entries_in(b));
        Ok(PosixAcl { entries })
    }

    /// The bytes of the list.
    pub fn encode(&self) -> (r: Vec<u8>)
        ensures
            r@ == encoded(self.entries@),
    {
        let mut out: Vec<u8> = Vec::new();
        codec::put_le(&mut out, ACL_VERSION as u128, 4);
        let mut i: usize = 0;
        assert(out@ =~= encoded(self.entries@.take(0)));
        while i < self.entries.len()
            invariant
                i <= self.entries@.len(),
                out@ == encoded(self.entries@.take(i as int)),
            decreases self.entries@.len() - i,
        {
            let e: AclEntry = self.entries[i];
            let id: u32 = match e.id {
                Some(id) => id,
                None => ACL_UNDEFINED_ID,
            };
            codec::put_le(&mut out, e.tag as u128, 2);
            codec::put_le(&mut out, e.perm as u128, 2);
            codec::put_le(&mut out, id as u128, 4);
            assert(self.entries@.take(i + 1).drop_last() =~= self.entries@.take(i as int));
            i = i + 1;
            assert(out@ =~= encoded(self.entries@.take(i as int)));
        }
        assert(self.entries@.take(i as int) =~= self.entries@);
        out
    }

    /// The first entry of the tag.
    pub fn find(&self, tag: u16) -> (r: Option<AclEntry>)
        ensures
            r == first_of(self.entries@, tag),
    {
        let mut i: usize = 0;
        assert(self.entries@.skip(0) =~= self.entries@);
        while i < self.entries.len()
            invariant
                i <= self.entries@.len(),
                first_of(self.entries@, tag) == first_of(self.entries@.skip(i as int), tag),
            decreases self.entries@.len() - i,
        {
            if self.entries[i].tag == tag {
                return Some(self.entries[i]);
            }
            assert(self.entries@.skip(i as int).drop_first() =~= self.entries@.skip(i + 1));
            i = i + 1;
        }
        None
    }

    /// The first entry of the tag and the id.
    pub fn named_by_id(&self, tag: u16, id: u32) -> (r: Option<AclEntry>)
        ensures
            r == first_named(self.entries@, tag, id),
    {
        let mut i: usize = 0;
        assert(self.entries@.skip(0) =~= self.entries@);
        while i < self.entries.len()
            invariant
                i <= self.entries@.len(),
                first_named(self.entries@, tag, id) == first_named(
                    self.entries@.skip(i as int),
                    tag,
                    id,
                ),
            decreases self.entries@.len() - i,
        {
            let e: AclEntry = self.entries[i];
            if e.tag == tag {
                if let Some(known) = e.id {
                    if known == id {
                        return Some(e);
                    }
                }
            }
            assert(self.entries@.skip(i as int).drop_first() =~= self.entries@.skip(i + 1));
            i = i + 1;
        }
        None
    }

    /// What the mask lets through.
    fn mask(&self) -> (r: u16)
        ensures
            r == mask_of(self.entries@),
    {
        match self.find(ACL_MASK) {
            Some(e) => e.perm,
            None => 7,
        }
    }

    /// The permissions of the first entry of the tag, none if there is none.
    fn perm(&self, tag: u16) -> (r: u16)
        ensures
            r == perm_in(first_of(self.entries@, tag)),
    {
        match self.find(tag) {
            Some(e) => e.perm,
            None => 0,
        }
    }

    /// Whether the list lets the caller do what is wanted with an inode of
    /// `owner` and `group`.
    pub fn evaluate(&self, uid: u32, gid: u32, owner: u32, group: u32, want: u16) -> (r: bool)
        ensures
            r == allows(self.entries@, uid, gid, owner, group, want),
    {
        if uid == owner {
            return self.perm(ACL_USER_OBJ) & want == want;
        }
        let mask: u16 = self.mask();
        if let Some(e) = self.named_by_id(ACL_USER, uid) {
            return (e.perm & mask) & want == want;
        }
        let named = self.named_by_id(ACL_GROUP, gid);
        if gid == group && (self.perm(ACL_GROUP_OBJ) & mask) & want == want {
            return true;
        }
        match named {
            Some(e) => (e.perm & mask) & want == want,
            None => gid != group && self.perm(ACL_OTHER) & want == want,
        }
    }

    /// The permission bits that the list stands for.
    pub fn mode_bits(&self) -> (r: u32)
        ensures
            r == mode_bits_of(self.entries@),
    {
        let user: u16 = self.perm(ACL_USER_OBJ) & 7;
        let group: u16 = (self.perm(ACL_GROUP_OBJ) & self.mask()) & 7;
        let other: u16 = self.perm(ACL_OTHER) & 7;
        (((user as u32) << 6u32) | ((group as u32) << 3u32)) | (other as u32)
    }

    /// The list after a change of the mode.
    pub fn apply_chmod(&self, mode: u32) -> (r: PosixAcl)
        ensures
            r.entries@ == after_chmod(self.entries@, mode),
    {
        let masked = self.find(ACL_MASK).is_some();
        let mut entries: Vec<AclEntry> = Vec::new();
        let mut i: usize = 0;
        while i < self.entries.len()
            invariant
                masked == (first_of(self.entries@, ACL_MASK) is Some),
                i <= self.entries@.len(),
                entries@ == after_chmod(self.entries@, mode).take(i as int),
            decreases self.entries@.len() - i,
        {
            let mut e: AclEntry = self.entries[i];
            if e.tag == ACL_USER_OBJ {
                e.perm = ((mode >> 6u32) & 7) as u16;
            } else if e.tag == ACL_MASK || (e.tag == ACL_GROUP_OBJ && !masked) {
                e.perm = ((mode >> 3u32) & 7) as u16;
            } else if e.tag == ACL_OTHER {
                e.perm = ((mode >> 0u32) & 7) as u16;
            }
            entries.push(e);
            i = i + 1;
            assert(entries@ =~= after_chmod(self.entries@, mode).take(i as int));
        }
        assert(entries@ =~= after_chmod(self.entries@, mode));
        PosixAcl { entries }
    }

    /// The list that a new inode of this mode gets from this default list.
    pub fn inherit_access_from_default(&self, mode: u32) -> (r: PosixAcl)
        ensures
            r.entries@ == inherited(self.entries@, mode),
    {
        let mut entries: Vec<AclEntry> = Vec::new();
        let mut i: usize = 0;
        while i < self.entries.len()
            invariant
                i <= self.entries@.len(),
                entries@ == inherited(self.entries@, mode).take(i as int),
            decreases self.entries@.len() - i,
        {
            let mut e: AclEntry = self.entries[i];
            if e.tag == ACL_USER_OBJ {
                e.perm = e.perm & (((mode >> 6u32) & 7) as u16);
            } else if e.tag == ACL_GROUP_OBJ {
                e.perm = e.perm & (((mode >> 3u32) & 7) as u16);
            } else if e.tag == ACL_OTHER {
                e.perm = e.perm & (((mode >> 0u32) & 7) as u16);
            }
            entries.push(e);
            i = i + 1;
            assert(entries@ =~= inherited(self.entries@, mode).take(i as int));
        }
        assert(entries@ =~= inherited(self.entries@, mode));
        PosixAcl { entries }
    }

    /// The number of entries of the tag.
    fn count(&self, tag: u16) -> (r: usize)
        ensures
            r == count_of(self.entries@, tag),
            r <= self.entries@.len(),
    {
        let mut n: usize = 0;
        let mut i: usize = 0;
        while i < self.entries.len()
            invariant
                i <= self.entries@.len(),
                n <= i,
                n == count_of(self.entries@.take(i as int), tag),
            decreases self.entries@.len() - i,
        {
            assert(self.entries@.take(i + 1).drop_last() =~= self.entries@.take(i as int));
            if self.entries[i].tag == tag {
                n = n + 1;
            }
            i = i + 1;
        }
        assert(self.entries@.take(i as int) =~= self.entries@);
        n
    }

    /// Whether no further user or group has two entries.
    fn is_named_once(&self) -> (r: bool)
        ensures
            r == named_once(self.entries@),
    {
        let mut i: usize = 0;
        while i < self.entries.len()
            invariant
                i <= self.entries@.len(),
                named_once(self.entries@.take(i as int)),
            decreases self.entries@.len() - i,
        {
            let e: AclEntry = self.entries[i];
            let mut j: usize = 0;
            while j < i
                invariant
                    i < self.entries@.len(),
                    e == self.entries@[i as int],
                    j <= i,
                    forall|k: int|
                        0 <= k < j && is_named((#[trigger] self.entries@[k]).tag)
                            && self.entries@[k].tag == e.tag ==> self.entries@[k].id != e.id,
                decreases i - j,
            {
                let f: AclEntry = self.entries[j];
                if (f.tag == ACL_USER || f.tag == ACL_GROUP) && f.tag == e.tag && f.id == e.id {
                    proof {
                        assert(self.entries@[j as int].id == self.entries@[i as int].id);
                    }
                    return false;
                }
                j = j + 1;
            }
            proof {
                let s = self.entries@;
                let t = s.take(i + 1);
                assert forall|a: int, b: int|
                    0 <= a < b < t.len() && is_named((#[trigger] t[a]).tag) && t[a].tag == (
                    #[trigger] t[b]).tag implies t[a].id != t[b].id by {
                    if b < i {
                        assert(s.take(i as int)[a] == t[a] && s.take(i as int)[b] == t[b]);
                    } else {
                        assert(s[a] == t[a]);
                    }
                }
            }
            i = i + 1;
        }
        assert(self.entries@.take(i as int) =~= self.entries@);
        true
    }

    /// Whether the list is complete.
    pub fn validate(&self) -> (r: Result<(), Error>)
        ensures
            r is Ok <==> valid(self.entries@),
            r matches Err(e) ==> e.kind == ErrorKind::InvalidInput,
    {
        let mut i: usize = 0;
        while i < self.entries.len()
            invariant
                i <= self.entries@.len(),
                forall|k: int| 0 <= k < i ==> entry_ok(#[trigger] self.entries@[k]),
            decreases self.entries@.len() - i,
        {
            if !is_entry_ok(&self.entries[i]) {
                return Err(Error::new(ErrorKind::InvalidInput, "bad entry in access list"));
            }
            i = i + 1;
        }
        if self.count(ACL_USER_OBJ) != 1 || self.count(ACL_GROUP_OBJ) != 1 || self.count(ACL_OTHER)
            != 1 || self.count(ACL_MASK) > 1 {
            return Err(Error::new(ErrorKind::InvalidInput, "incomplete access list"));
        }
        if (self.count(ACL_USER) > 0 || self.count(ACL_GROUP) > 0) && self.count(ACL_MASK) != 1 {
            return Err(Error::new(ErrorKind::InvalidInput, "access list without mask"));
        }
        if !self.is_named_once() {
            return Err(Error::new(ErrorKind::InvalidInput, "repeated entry in access list"));
        }
        Ok(())
    }
}

/// `i` is the place of the first entry of the tag; none has it if there is no
/// place.
pub open spec fn first_place(s: Seq<AclEntry>, tag: u16, i: Option<int>) -> bool {
    match i {
        Some(i) => {
            &&& 0 <= i < s.len()
            &&& s[i].tag == tag
            &&& forall|j: int| 0 <= j < i ==> (#[trigger] s[j]).tag != tag
        },
        None => forall|j: int| 0 <= j < s.len() ==> (#[trigger] s[j]).tag != tag,
    }
}

/// `i` is the place of the first entry of the tag for the user or group; none
/// is for it if there is no place.
pub open spec fn named_place(s: Seq<AclEntry>, tag: u16, id: u32, i: Option<int>) -> bool {
    match i {
        Some(i) => {
            &&& 0 <= i < s.len()
            &&& s[i].tag == tag && s[i].id == Some(id)
            &&& forall|j: int|
                0 <= j < i ==> !((#[trigger] s[j]).tag == tag && s[j].id == Some(id))
        },
        None => forall|j: int|
            0 <= j < s.len() ==> !((#[trigger] s[j]).tag == tag && s[j].id == Some(id)),
    }
}

proof fn lemma_first_place(s: Seq<AclEntry>, tag: u16, i: Option<int>)
    requires
        first_place(s, tag, i),
    ensures
        first_of(s, tag) == (match i {
            Some(i) => Some(s[i]),
            None => None,
        }),
    decreases s.len(),
{
    if s.len() > 0 && i != Some(0int) {
        let t = s.drop_first();
        assert forall|j: int| 0 <= j < t.len() implies t[j] == s[j + 1] by {}
        let k = match i {
            Some(i) => Some(i - 1),
            None => None,
        };
        assert(s[0].tag != tag);
        assert(first_place(t, tag, k));
        lemma_first_place(t, tag, k);
    }
}

proof fn lemma_named_place(s: Seq<AclEntry>, tag: u16, id: u32, i: Option<int>)
    requires
        named_place(s, tag, id, i),
    ensures
        first_named(s, tag, id) == (match i {
            Some(i) => Some(s[i]),
            None => None,
        }),
    decreases s.len(),
{
    if s.len() > 0 && i != Some(0int) {
        let t = s.drop_first();
        assert forall|j: int| 0 <= j < t.len() implies t[j] == s[j + 1] by {}
        let k = match i {
            Some(i) => Some(i - 1),
            None => None,
        };
        assert(!(s[0].tag == tag && s[0].id == Some(id)));
        assert(named_place(t, tag, id, k));
        lemma_named_place(t, tag, id, k);
    }
}

/// The owner may do what the owner's entry says, whatever the other entries
/// and the mask say.
pub proof fn owner_entry_decides_for_the_owner(
    s: Seq<AclEntry>,
    i: int,
    uid: u32,
    gid: u32,
    group: u32,
    want: u16,
)
    requires
        first_place(s, 0x01, Some(i)),
    ensures
        allows(s, uid, gid, uid, group, want) == (s[i].perm & want == want),
{
    lemma_first_place(s, 0x01, Some(i));
}

/// A further user who is not the owner may do what the entry for the user says,
/// as far as the mask lets it, whatever the groups may do.
pub proof fn user_entry_decides_for_the_user(
    s: Seq<AclEntry>,
    i: int,
    m: Option<int>,
    uid: u32,
    gid: u32,
    owner: u32,
    group: u32,
    want: u16,
)
    requires
        uid != owner,
        named_place(s, 0x02, uid, Some(i)),
        first_place(s, 0x10, m),
    ensures
        ({
            let mask: u16 = match m {
                Some(m) => s[m].perm,
                None => 7,
            };
            allows(s, uid, gid, owner, group, want) == ((s[i].perm & mask) & want == want)
        }),
{
    lemma_named_place(s, 0x02, uid, Some(i));
    lemma_first_place(s, 0x10, m);
}

/// Somebody else who is in the owning group, or in a group that has an entry,
/// may do what one of these entries says, as far as the mask lets it. What is
/// left for all others does not count then.
pub proof fn group_entries_decide_for_their_members(
    s: Seq<AclEntry>,
    owning: Option<int>,
    named: Option<int>,
    m: Option<int>,
    uid: u32,
    gid: u32,
    owner: u32,
    group: u32,
    want: u16,
)
    requires
        uid != owner,
        named_place(s, 0x02, uid, None),
        first_place(s, 0x04, owning),
        named_place(s, 0x08, gid, named),
        first_place(s, 0x10, m),
        gid == group || named is Some,
    ensures
        ({
            let mask: u16 = match m {
                Some(m) => s[m].perm,
                None => 7,
            };
            let own: u16 = match owning {
                Some(i) => s[i].perm,
                None => 0,
            };
            allows(s, uid, gid, owner, group, want) == {
                ||| gid == group && (own & mask) & want == want
                ||| named matches Some(i) && (s[i].perm & mask) & want == want
            }
        }),
{
    lemma_named_place(s, 0x02, uid, None);
    lemma_first_place(s, 0x04, owning);
    lemma_named_place(s, 0x08, gid, named);
    lemma_first_place(s, 0x10, m);
}

/// Everybody else may do what the entry of all others says; the mask does not
/// count for it.
pub proof fn other_entry_decides_for_the_rest(
    s: Seq<AclEntry>,
    i: int,
    uid: u32,
    gid: u32,
    owner: u32,
    group: u32,
    want: u16,
)
    requires
        uid != owner,
        gid != group,
        named_place(s, 0x02, uid, None),
        named_place(s, 0x08, gid, None),
        first_place(s, 0x20, Some(i)),
    ensures
        allows(s, uid, gid, owner, group, want) == (s[i].perm & want == want),
{
    lemma_named_place(s, 0x02, uid, None);
    lemma_named_place(s, 0x08, gid, None);
    lemma_first_place(s, 0x20, Some(i));
}

/// A change of the mode changes permissions only, and only those of the owner,
/// of others, and of the mask, or of the owning group where there is no mask:
/// they become those of the mode.
pub proof fn chmod_sets_the_classes(s: Seq<AclEntry>, mode: u32, m: Option<int>, i: int)
    requires
        0 <= i < s.len(),
        first_place(s, 0x10, m),
    ensures
        ({
            let after = after_chmod(s, mode);
            &&& after.len() == s.len()
            &&& after[i].tag == s[i].tag && after[i].id == s[i].id
            &&& s[i].tag == 0x01 ==> after[i].perm == (mode >> 6u32) & 7
            &&& s[i].tag == 0x20 ==> after[i].perm == mode & 7
            &&& s[i].tag == 0x10 ==> after[i].perm == (mode >> 3u32) & 7
            &&& s[i].tag == 0x04 && m is None ==> after[i].perm == (mode >> 3u32) & 7
            &&& s[i].tag == 0x04 && m is Some ==> after[i].perm == s[i].perm
            &&& s[i].tag == 0x02 || s[i].tag == 0x08 ==> after[i] == s[i]
        }),
{
    lemma_first_place(s, 0x10, m);
    assert((mode >> 6u32) & 7 < 8 && (mode >> 3u32) & 7 < 8 && (mode >> 0u32) & 7 == mode & 7 && (
    mode & 7) < 8) by (bit_vector);
}

/// What a new inode gets are the entries of the default list; the owner, the
/// owning group and others get no more of theirs than the mode gives.
pub proof fn inherited_permissions_are_limited_by_the_mode(s: Seq<AclEntry>, mode: u32, i: int)
    requires
        0 <= i < s.len(),
    ensures
        ({
            let after = inherited(s, mode);
            &&& after.len() == s.len()
            &&& after[i].tag == s[i].tag && after[i].id == s[i].id
            &&& s[i].tag == 0x01 ==> after[i].perm == s[i].perm & (((mode >> 6u32) & 7) as u16)
            &&& s[i].tag == 0x04 ==> after[i].perm == s[i].perm & (((mode >> 3u32) & 7) as u16)
            &&& s[i].tag == 0x20 ==> after[i].perm == s[i].perm & ((mode & 7) as u16)
            &&& s[i].tag == 0x02 || s[i].tag == 0x08 || s[i].tag == 0x10 ==> after[i] == s[i]
        }),
{
    assert((mode >> 0u32) & 7 == mode & 7) by (bit_vector);
}

/// A list is encoded as its version, 2, in four bytes, and then eight bytes for
/// each entry: tag, permissions, and the id, all ones where there is none.
pub proof fn encoding_layout(s: Seq<AclEntry>, i: int)
    requires
        0 <= i < s.len(),
    ensures
        ({
            let b = encoded(s);
            let at = 4 + 8 * i;
            &&& b.len() == 4 + 8 * s.len()
            &&& codec::from_le(b.subrange(0, 4)) == 2
            &&& codec::from_le(b.subrange(at, at + 2)) == s[i].tag
            &&& codec::from_le(b.subrange(at + 2, at + 4)) == s[i].perm
            &&& codec::from_le(b.subrange(at + 4, at + 8)) == (match s[i].id {
                Some(id) => id,
                None => 0xffff_ffff,
            })
        }),
{
    let b = encoded(s);
    let e = s[i];
    let at = 4 + 8 * i;
    let body = entries_bytes(s);
    let id: nat = match e.id {
        Some(id) => id as nat,
        None => ACL_UNDEFINED_ID as nat,
    };
    codec::lemma_pow256_values();
    codec::lemma_le_len(ACL_VERSION as nat, 4);
    codec::lemma_from_le_of_le(ACL_VERSION as nat, 4);
    lemma_entries_bytes(s);
    lemma_entry_len(e);
    codec::lemma_le_len(e.tag as nat, 2);
    codec::lemma_le_len(e.perm as nat, 2);
    codec::lemma_le_len(id, 4);
    assert(b.subrange(0, 4) =~= codec::le(ACL_VERSION as nat, 4));
    assert(b.subrange(at, at + 8) =~= body.subrange(8 * i, 8 * i + 8));
    assert(b.subrange(at, at + 8) == entry_bytes(e));
    assert(b.subrange(at, at + 2) =~= entry_bytes(e).subrange(0, 2));
    assert(b.subrange(at, at + 2) =~= codec::le(e.tag as nat, 2));
    assert(b.subrange(at + 2, at + 4) =~= entry_bytes(e).subrange(2, 4));
    assert(b.subrange(at + 2, at + 4) =~= codec::le(e.perm as nat, 2));
    assert(b.subrange(at + 4, at + 8) =~= entry_bytes(e).subrange(4, 8));
    assert(b.subrange(at + 4, at + 8) =~= codec::le(id, 4));
    codec::lemma_from_le_of_le(e.tag as nat, 2);
    codec::lemma_from_le_of_le(e.perm as nat, 2);
    codec::lemma_from_le_of_le(id, 4);
}

proof fn lemma_count(s: Seq<AclEntry>, tag: u16)
    ensures
        count_of(s, tag) == 0 <==> first_place(s, tag, None),
        count_of(s, tag) <= 1 <==> (forall|i: int, j: int|
            0 <= i < j < s.len() ==> (#[trigger] s[i]).tag != tag || (#[trigger] s[j]).tag != tag),
    decreases s.len(),
{
    if s.len() > 0 {
        let t = s.drop_last();
        lemma_count(t, tag);
        let n = t.len() as int;
        assert forall|j: int| 0 <= j < t.len() implies t[j] == s[j] by {}
        if first_place(t, tag, None) {
            assert forall|j: int| 0 <= j < n implies (#[trigger] s[j]).tag != tag by {
                assert(t[j].tag != tag);
            }
        } else {
            let k = choose|k: int| 0 <= k < t.len() && (#[trigger] t[k]).tag == tag;
            assert(s[k].tag == tag);
        }
        if count_of(t, tag) > 1 {
            let (i, j) = choose|i: int, j: int|
                0 <= i < j < t.len() && (#[trigger] t[i]).tag == tag && (#[trigger] t[j]).tag
                    == tag;
            assert(s[i].tag == tag && s[j].tag == tag);
        } else {
            assert forall|i: int, j: int| 0 <= i < j < n implies (#[trigger] s[i]).tag != tag || (
            #[trigger] s[j]).tag != tag by {
                assert(t[i].tag != tag || t[j].tag != tag);
            }
        }
        if count_of(t, tag) == 1 && s.last().tag == tag {
            let k = choose|k: int| 0 <= k < t.len() && (#[trigger] t[k]).tag == tag;
            assert(s[k].tag == tag && s[n].tag == tag);
        }
    }
}

/// A complete list has one entry for the owner, one for the owning group and
/// one for others, not two masks, and a mask if anybody else has an entry. No
/// further user or group has two entries, and no entry says what cannot be
/// stored.
pub proof fn complete_lists_have_their_entries(s: Seq<AclEntry>)
    ensures
        valid(s) ==> {
            &&& !first_place(s, 0x01, None)
            &&& !first_place(s, 0x04, None)
            &&& !first_place(s, 0x20, None)
            &&& first_place(s, 0x10, None) ==> first_place(s, 0x02, None) && first_place(
                s,
                0x08,
                None,
            )
            &&& forall|i: int, j: int|
                0 <= i < j < s.len() && (#[trigger] s[i]).tag == (#[trigger] s[j]).tag ==> (s[i].tag
                    == 0x02 || s[i].tag == 0x08) && s[i].id != s[j].id
            &&& forall|i: int|
                0 <= i < s.len() ==> (#[trigger] s[i]).perm <= 7 && (s[i].id is Some <==> s[i].tag
                    == 0x02 || s[i].tag == 0x08) && (s[i].tag == 0x01 || s[i].tag == 0x02
                    || s[i].tag == 0x04 || s[i].tag == 0x08 || s[i].tag == 0x10 || s[i].tag == 0x20)
        },
{
    if valid(s) {
        lemma_count(s, 0x01);
        lemma_count(s, 0x04);
        lemma_count(s, 0x20);
        lemma_count(s, 0x10);
        lemma_count(s, 0x02);
        lemma_count(s, 0x08);
        assert forall|i: int, j: int|
            0 <= i < j < s.len() && (#[trigger] s[i]).tag == (#[trigger] s[j]).tag implies (s[i].tag
            == 0x02 || s[i].tag == 0x08) && s[i].id != s[j].id by {
            assert(entry_ok(s[i]));
        }
    }
}

/// A list that has its entries, each of which can be stored, is complete.
pub proof fn lists_with_their_entries_are_complete(s: Seq<AclEntry>)
    requires
        !first_place(s, 0x01, None),
        !first_place(s, 0x04, None),
        !first_place(s, 0x20, None),
        first_place(s, 0x10, None) ==> first_place(s, 0x02, None) && first_place(s, 0x08, None),
        forall|i: int, j: int|
            0 <= i < j < s.len() && (#[trigger] s[i]).tag == (#[trigger] s[j]).tag ==> (s[i].tag
                == 0x02 || s[i].tag == 0x08) && s[i].id != s[j].id,
        forall|i: int|
            0 <= i < s.len() ==> (#[trigger] s[i]).perm <= 7 && (s[i].id is Some <==> s[i].tag
                == 0x02 || s[i].tag == 0x08) && (s[i].tag == 0x01 || s[i].tag == 0x02 || s[i].tag
                == 0x04 || s[i].tag == 0x08 || s[i].tag == 0x10 || s[i].tag == 0x20),
    ensures
        valid(s),
{
    lemma_count(s, 0x01);
    lemma_count(s, 0x04);
    lemma_count(s, 0x20);
    lemma_count(s, 0x10);
    lemma_count(s, 0x02);
    lemma_count(s, 0x08);
}

} // verus!
