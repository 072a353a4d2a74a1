//! The block that holds one inode's extended attributes.
//!
//! Layout (little endian):
//!
//! ```text
//! [ 0.. 4)  magic "LXAT"
//! [ 4.. 6)  version (1)
//! [ 6.. 8)  entry_count
//! [ 8..12)  used: bytes of the entry region in use
//! [12..20)  next_block (0)
//! [20..24)  fletcher32 over the entry region
//! [24..32)  reserved (zeros)
//! [32..4096) entries, packed back to back
//! ```
//!
//! Each entry: the length of its name in one byte, its namespace class in one
//! byte, the length of its value in two, the name, the value.

use crate::bytes;
use crate::codec;
use crate::common::checksum;
use crate::common::checksum::fletcher32;
use crate::common::text;
use crate::error::{Error, ErrorKind};
use crate::ondisk::serialization::BLOCK_SIZE;
use vstd::prelude::*;
use vstd::string::{StrSliceExecFns, StringSliceAdditionalSpecFns};

verus! {

/// The block's magic number, "LXAT".
pub const XATTR_BLOCK_MAGIC: u32 = 0x5441_584C;

/// The version of the block's layout.
pub const XATTR_BLOCK_VERSION: u16 = 1;

/// Bytes before the first entry.
pub const XATTR_HEADER_SIZE: usize = 32;

/// Bytes of an entry besides its name and value.
pub const XATTR_ENTRY_OVERHEAD: usize = 4;

/// Bytes of entries that one block can hold.
pub const XATTR_CAPACITY: usize = 4064;

/// Longest attribute name, in bytes.
pub const XATTR_NAME_MAX: usize = 255;

/// Namespace class of `user.` names.
pub const NS_USER: u8 = 0;

/// Namespace class of `security.` names.
pub const NS_SECURITY: u8 = 1;

/// Namespace class of `trusted.` names.
pub const NS_TRUSTED: u8 = 2;

/// Namespace class of `system.` names.
pub const NS_SYSTEM: u8 = 3;

/// Set only if the attribute does not exist.
pub const XATTR_CREATE: i32 = 1;

/// Set only if the attribute exists.
pub const XATTR_REPLACE: i32 = 2;

/// One extended attribute.
#[derive(Debug, Clone, PartialEq, Eq)]
pub struct XattrEntry {
    /// Full name, with its namespace prefix.
    pub name: String,
    /// Value.
    pub value: Vec<u8>,
    /// Namespace class.
    pub ns_flags: u8,
}

/// The bytes of one entry, before its name is taken for text.
pub struct RawEntry {
    /// The bytes of the name.
    pub name: Seq<u8>,
    /// The value.
    pub value: Seq<u8>,
    /// The namespace class.
    pub ns_flags: u8,
}

/// What a lossy conversion to text makes of bytes that are not UTF-8.
pub uninterp spec fn lossy_text(data: Seq<u8>) -> Seq<char>;

/// The text of a stored name.
pub open spec fn text_of(data: Seq<u8>) -> Seq<char> {
    if vstd::utf8::valid_utf8(data) {
        vstd::utf8::decode_utf8(data)
    } else {
        lossy_text(data)
    }
}

/// Calls `String::from_utf8_lossy` and takes the result into an owned string.
/// Bytes that are UTF-8 give the text that they encode; what other bytes give
/// is a function of the bytes.
#[verifier::external_body]
fn utf8_lossy(data: &[u8]) -> (r: String)
    ensures
        r@ == (if vstd::utf8::valid_utf8(data@) {
            vstd::utf8::decode_utf8(data@)
        } else {
            lossy_text(data@)
        }),
{
    String::from_utf8_lossy(data).into_owned()
}

impl XattrEntry {
    /// The bytes of the entry.
    pub open spec fn raw(&self) -> RawEntry {
        RawEntry {
            name: vstd::utf8::encode_utf8(self.name@),
            value: self.value@,
            ns_flags: self.ns_flags,
        }
    }

    /// The entry is what `raw` stands for.
    pub open spec fn decoded_from(&self, raw: RawEntry) -> bool {
        &&& self.name@ == text_of(raw.name)
        &&& self.value@ == raw.value
        &&& self.ns_flags == raw.ns_flags
    }
}

impl RawEntry {
    /// The name and the value fit their length fields.
    pub open spec fn fits(self) -> bool {
        &&& 1 <= self.name.len() <= XATTR_NAME_MAX
        &&& self.value.len() <= u16::MAX
    }

    /// The entry as it is stored.
    pub open spec fn wire(self) -> Seq<u8> {
        seq![self.name.len() as u8, self.ns_flags] + codec::le(self.value.len(), 2) + self.name
            + self.value
    }
}

/// The raw entries of `s`.
pub open spec fn raws(s: Seq<XattrEntry>) -> Seq<RawEntry> {
    s.map_values(|e: XattrEntry| e.raw())
}

/// The entries, packed back to back.
pub open spec fn region(s: Seq<RawEntry>) -> Seq<u8>
    decreases s.len(),
{
    if s.len() == 0 {
        Seq::empty()
    } else {
        region(s.drop_last()) + s.last().wire()
    }
}

/// `n` zero bytes.
pub open spec fn zero_bytes(n: nat) -> Seq<u8> {
    Seq::new(n, |i: int| 0u8)
}

/// The block that holds `s`.
pub open spec fn block_of(s: Seq<RawEntry>) -> Seq<u8> {
    let r = region(s);
    codec::le(XATTR_BLOCK_MAGIC as nat, 4) + codec::le(XATTR_BLOCK_VERSION as nat, 2) + codec::le(
        s.len(),
        2,
    ) + codec::le(r.len(), 4) + zero_bytes(8) + codec::le(
        checksum::fletcher32_of(r) as nat,
        4,
    ) + zero_bytes(8) + r + zero_bytes((XATTR_CAPACITY - r.len()) as nat)
}

/// The number in `buf[at..at + n]`.
pub open spec fn field(buf: Seq<u8>, at: int, n: int) -> nat {
    codec::from_le(buf.subrange(at, at + n))
}

/// The entry region of a block, by its `used` field.
pub open spec fn used_region(buf: Seq<u8>) -> Seq<u8> {
    buf.subrange(32, 32 + field(buf, 8, 4) as int)
}

/// The header says that the entry region follows it whole.
pub open spec fn header_ok(buf: Seq<u8>) -> bool {
    &&& buf.len() >= XATTR_HEADER_SIZE
    &&& field(buf, 0, 4) == XATTR_BLOCK_MAGIC
    &&& field(buf, 4, 2) == XATTR_BLOCK_VERSION
    &&& field(buf, 8, 4) <= XATTR_CAPACITY
    &&& XATTR_HEADER_SIZE + field(buf, 8, 4) <= buf.len()
    &&& field(buf, 20, 4) == checksum::fletcher32_of(used_region(buf))
}

/// The entry that starts at `pos`, and where the next one starts.
pub open spec fn entry_at(r: Seq<u8>, pos: int) -> Option<(RawEntry, int)> {
    if pos + 4 > r.len() {
        None
    } else {
        let name_len = r[pos] as int;
        let value_len = codec::from_le(r.subrange(pos + 2, pos + 4)) as int;
        if name_len == 0 || pos + 4 + name_len + value_len > r.len() {
            None
        } else {
            Some(
                (
                    RawEntry {
                        name: r.subrange(pos + 4, pos + 4 + name_len),
                        value: r.subrange(pos + 4 + name_len, pos + 4 + name_len + value_len),
                        ns_flags: r[pos + 1],
                    },
                    pos + 4 + name_len + value_len,
                ),
            )
        }
    }
}

/// The `n` entries from `pos` on.
pub open spec fn entries_from(r: Seq<u8>, pos: int, n: nat) -> Option<Seq<RawEntry>>
    decreases n,
{
    if n == 0 {
        Some(Seq::empty())
    } else {
        match entry_at(r, pos) {
            None => None,
            Some((e, next)) => match entries_from(r, next, (n - 1) as nat) {
                None => None,
                Some(rest) => Some(seq![e] + rest),
            },
        }
    }
}

/// The entries of a block, if it is one.
pub open spec fn parsed(buf: Seq<u8>) -> Option<Seq<RawEntry>> {
    if header_ok(buf) {
        entries_from(used_region(buf), 0, field(buf, 6, 2))
    } else {
        None
    }
}

/// `es` are the entries that `rs` stand for.
pub open spec fn all_decoded_from(es: Seq<XattrEntry>, rs: Seq<RawEntry>) -> bool {
    &&& es.len() == rs.len()
    &&& forall|i: int| 0 <= i < es.len() ==> (#[trigger] es[i]).decoded_from(rs[i])
}

/// The namespace class of a name that begins with a known prefix and goes on
/// after it.
pub open spec fn class_of(name: Seq<char>) -> Option<u8> {
    if vstd::utf8::encode_utf8(name).len() > XATTR_NAME_MAX {
        None
    } else if named_under(name, "user."@) {
        Some(NS_USER)
    } else if named_under(name, "security."@) {
        Some(NS_SECURITY)
    } else if named_under(name, "trusted."@) {
        Some(NS_TRUSTED)
    } else if named_under(name, "system."@) {
        Some(NS_SYSTEM)
    } else {
        None
    }
}

/// `name` is `prefix` followed by at least one character.
pub open spec fn named_under(name: Seq<char>, prefix: Seq<char>) -> bool {
    prefix.is_prefix_of(name) && prefix.len() < name.len()
}

/// The namespace class of an attribute name. The name has 1 to 255 bytes, a
/// known prefix, and something after it.
pub fn classify_name(name: &str) -> (r: Result<u8, Error>)
    ensures
        match class_of(name@) {
            Some(class) => r == Ok::<u8, Error>(class),
            None => r matches Err(e) && e.kind == ErrorKind::InvalidInput,
        },
{
    proof {
        reveal_strlit("user.");
        reveal_strlit("security.");
        reveal_strlit("trusted.");
        reveal_strlit("system.");
    }
    if name.is_empty() || name.as_bytes().len() > XATTR_NAME_MAX {
        return Err(Error::new(ErrorKind::InvalidInput, "xattr name length out of range"));
    }
    if text::has_prefix(name, "user.") {
        return require_body(name, "user.", NS_USER);
    }
    if text::has_prefix(name, "security.") {
        proof {
            assert(name@[0] == "security."@[0] && name@[1] == "security."@[1]);
            assert("trusted."@.is_prefix_of(name@) ==> name@[0] == "trusted."@[0]);
            assert("system."@.is_prefix_of(name@) ==> name@[1] == "system."@[1]);
        }
        return require_body(name, "security.", NS_SECURITY);
    }
    if text::has_prefix(name, "trusted.") {
        return require_body(name, "trusted.", NS_TRUSTED);
    }
    if text::has_prefix(name, "system.") {
        return require_body(name, "system.", NS_SYSTEM);
    }
    Err(
        Error::new(
            ErrorKind::InvalidInput,
            "xattr name must start with user. / security. / trusted. / system.",
        ),
    )
}

/// The class `ns`, if the name goes on after its prefix.
fn require_body(name: &str, prefix: &str, ns: u8) -> (r: Result<u8, Error>)
    requires
        prefix@.is_prefix_of(name@),
    ensures
        if prefix@.len() < name@.len() {
            r == Ok::<u8, Error>(ns)
        } else {
            r matches Err(e) && e.kind == ErrorKind::InvalidInput
        },
{
    if name.unicode_len() == prefix.unicode_len() {
        return Err(Error::new(ErrorKind::InvalidInput, "xattr name body is empty"));
    }
    Ok(ns)
}

/// The entries of a block. Anything that is not a whole block is refused.
pub fn parse_block(buf: &[u8]) -> (r: Result<Vec<XattrEntry>, Error>)
    ensures
        match parsed(buf@) {
            Some(rs) => r matches Ok(es) && all_decoded_from(es@, rs),
            None => r matches Err(e) && e.kind == ErrorKind::InvalidData,
        },
{
    if buf.len() < XATTR_HEADER_SIZE {
        return Err(Error::new(ErrorKind::InvalidData, "xattr block shorter than header"));
    }
    proof {
        codec::lemma_pow256_values();
    }
    if codec::get_le(buf, 0, 4) != XATTR_BLOCK_MAGIC as u128 {
        return Err(Error::new(ErrorKind::InvalidData, "xattr block bad magic"));
    }
    if codec::get_le(buf, 4, 2) != XATTR_BLOCK_VERSION as u128 {
        return Err(Error::new(ErrorKind::InvalidData, "xattr block bad version"));
    }
    let entry_count: usize = codec::get_le(buf, 6, 2) as usize;
    let used_field: u128 = codec::get_le(buf, 8, 4);
    let stored_csum: u32 = codec::get_le(buf, 20, 4) as u32;
    if used_field > XATTR_CAPACITY as u128 {
        return Err(Error::new(ErrorKind::InvalidData, "xattr block used field overflows"));
    }
    let used: usize = used_field as usize;
    if XATTR_HEADER_SIZE + used > buf.len() {
        return Err(Error::new(ErrorKind::InvalidData, "xattr block truncated"));
    }
    let r = vstd::slice::slice_subrange(buf, XATTR_HEADER_SIZE, XATTR_HEADER_SIZE + used);
    if fletcher32(r) != stored_csum {
        return Err(Error::new(ErrorKind::InvalidData, "xattr block checksum mismatch"));
    }
    assert(header_ok(buf@));
    let mut entries: Vec<XattrEntry> = Vec::new();
    let ghost mut done: Seq<RawEntry> = Seq::empty();
    let mut pos: usize = 0;
    let mut i: usize = 0;
    assert(entries_from(r@, 0, entry_count as nat) == prefixed(
        done,
        entries_from(r@, 0, entry_count as nat),
    )) by {
        match entries_from(r@, 0, entry_count as nat) {
            Some(rest) => assert(done + rest =~= rest),
            None => {},
        }
    }
    while i < entry_count
        invariant
            i <= entry_count,
            pos <= r@.len() <= XATTR_CAPACITY,
            r@ == used_region(buf@),
            entry_count == field(buf@, 6, 2),
            header_ok(buf@),
            all_decoded_from(entries@, done),
            entries_from(r@, 0, entry_count as nat) == prefixed(
                done,
                entries_from(r@, pos as int, (entry_count - i) as nat),
            ),
        decreases entry_count - i,
    {
        if pos + XATTR_ENTRY_OVERHEAD > r.len() {
            return Err(Error::new(ErrorKind::InvalidData, "xattr entry header truncated"));
        }
        proof {
            codec::lemma_pow256_values();
        }
        let name_len: usize = r[pos] as usize;
        let ns_flags: u8 = r[pos + 1];
        let value_len: usize = codec::get_le(r, pos + 2, 2) as usize;
        let body: usize = pos + XATTR_ENTRY_OVERHEAD;
        if name_len == 0 || body + name_len + value_len > r.len() {
            return Err(Error::new(ErrorKind::InvalidData, "xattr entry truncated"));
        }
        let name = utf8_lossy(vstd::slice::slice_subrange(r, body, body + name_len));
        let value = bytes::copy_range(r, body + name_len, body + name_len + value_len);
        let ghost (raw, _) = entry_at(r@, pos as int).unwrap();
        proof {
            let rest = entries_from(
                r@,
                body + name_len + value_len,
                (entry_count - i - 1) as nat,
            );
            match rest {
                Some(t) => assert(done + (seq![raw] + t) =~= done.push(raw) + t),
                None => {},
            }
        }
        entries.push(XattrEntry { name, value, ns_flags });
        proof {
            done = done.push(raw);
        }
        pos = body + name_len + value_len;
        i = i + 1;
    }
    assert(done + Seq::<RawEntry>::empty() =~= done);
    Ok(entries)
}

/// `tail` with `head` in front, if there is a tail.
pub open spec fn prefixed(head: Seq<RawEntry>, tail: Option<Seq<RawEntry>>) -> Option<
    Seq<RawEntry>,
> {
    match tail {
        Some(t) => Some(head + t),
        None => None,
    }
}

/// The entries fit their length fields.
pub open spec fn all_fit(s: Seq<RawEntry>) -> bool {
    forall|i: int| 0 <= i < s.len() ==> (#[trigger] s[i]).fits()
}

/// Packing one entry more appends it, and every entry takes room.
proof fn lemma_region_step(s: Seq<RawEntry>, n: int)
    requires
        0 <= n < s.len(),
    ensures
        region(s.take(n + 1)) == region(s.take(n)) + s[n].wire(),
        s[n].wire().len() == 4 + s[n].name.len() + s[n].value.len(),
{
    assert(s.take(n + 1).drop_last() =~= s.take(n));
    assert(s.take(n + 1).last() == s[n]);
    codec::lemma_le_len(s[n].value.len(), 2);
}

/// A shorter list of entries takes no more room.
proof fn lemma_region_mono(s: Seq<RawEntry>, n: int)
    requires
        0 <= n <= s.len(),
    ensures
        region(s.take(n)).len() <= region(s).len(),
        region(s.take(n)).len() >= 4 * n,
        region(s).subrange(0, region(s.take(n)).len() as int) == region(s.take(n)),
    decreases s.len() - n, n,
{
    if n == s.len() {
        assert(s.take(n) =~= s);
        assert(region(s).subrange(0, region(s.take(n)).len() as int) =~= region(s.take(n)));
        if n > 0 {
            lemma_region_len(s, n);
        }
    } else {
        lemma_region_step(s, n);
        lemma_region_mono(s, n + 1);
        lemma_region_len(s, n);
        assert(region(s).subrange(0, region(s.take(n)).len() as int) =~= region(s.take(n + 1)).subrange(
            0,
            region(s.take(n)).len() as int,
        ));
        assert(region(s.take(n + 1)).subrange(0, region(s.take(n)).len() as int) =~= region(
            s.take(n),
        ));
    }
}

proof fn lemma_region_len(s: Seq<RawEntry>, n: int)
    requires
        0 <= n <= s.len(),
    ensures
        region(s.take(n)).len() >= 4 * n,
    decreases n,
{
    if n > 0 {
        lemma_region_len(s, n - 1);
        lemma_region_step(s, n - 1);
    }
}

/// The block that holds `entries`. Refuses an entry whose name or value does
/// not fit its length field, and entries that together do not fit a block.
pub fn write_block(entries: &[XattrEntry]) -> (r: Result<Vec<u8>, Error>)
    ensures
        if !all_fit(raws(entries@)) {
            r matches Err(e) && e.kind == ErrorKind::InvalidInput
        } else if region(raws(entries@)).len() > XATTR_CAPACITY {
            r matches Err(e) && e.kind == ErrorKind::StorageFull
        } else {
            r matches Ok(block) && block@ == block_of(raws(entries@)) && block@.len() == BLOCK_SIZE
        },
{
    let ghost rs = raws(entries@);
    let mut region_len: usize = 0;
    let mut i: usize = 0;
    assert(region(rs.take(0)) =~= Seq::<u8>::empty());
    while i < entries.len()
        invariant
            rs == raws(entries@),
            i <= entries@.len(),
            forall|j: int| 0 <= j < i ==> (#[trigger] rs[j]).fits(),
            region_len == region(rs.take(i as int)).len() || (region_len > XATTR_CAPACITY && region(
                rs.take(i as int),
            ).len() > XATTR_CAPACITY),
        decreases entries@.len() - i,
    {
        let e = &entries[i];
        let name_len: usize = e.name.as_str().as_bytes().len();
        assert(rs[i as int] == e.raw());
        proof {
            lemma_region_step(rs, i as int);
        }
        if name_len == 0 || name_len > XATTR_NAME_MAX {
            assert(!rs[i as int].fits());
            return Err(Error::new(ErrorKind::InvalidInput, "xattr name length out of range"));
        }
        if e.value.len() > 65535 {
            assert(!rs[i as int].fits());
            return Err(Error::new(ErrorKind::InvalidInput, "xattr value too large"));
        }
        region_len = region_len.saturating_add(XATTR_ENTRY_OVERHEAD + name_len + e.value.len());
        i = i + 1;
    }
    assert(rs.take(i as int) =~= rs);
    if region_len > XATTR_CAPACITY {
        return Err(Error::new(ErrorKind::StorageFull, "xattr block capacity exceeded"));
    }
    let mut packed: Vec<u8> = Vec::new();
    let mut k: usize = 0;
    assert(region(rs.take(0)) =~= Seq::<u8>::empty());
    while k < entries.len()
        invariant
            rs == raws(entries@),
            all_fit(rs),
            k <= entries@.len(),
            packed@ == region(rs.take(k as int)),
        decreases entries@.len() - k,
    {
        let e = &entries[k];
        let name = e.name.as_str().as_bytes();
        let ghost before = packed@;
        assert(rs[k as int] == e.raw());
        proof {
            lemma_region_step(rs, k as int);
            assert(rs[k as int].fits());
        }
        packed.push(name.len() as u8);
        packed.push(e.ns_flags);
        codec::put_le(&mut packed, e.value.len() as u128, 2);
        bytes::append(&mut packed, name);
        bytes::append(&mut packed, e.value.as_slice());
        assert(packed@ =~= before + rs[k as int].wire());
        k = k + 1;
    }
    assert(rs.take(k as int) =~= rs);
    let mut buf: Vec<u8> = Vec::new();
    codec::put_le(&mut buf, XATTR_BLOCK_MAGIC as u128, 4);
    codec::put_le(&mut buf, XATTR_BLOCK_VERSION as u128, 2);
    codec::put_le(&mut buf, entries.len() as u128, 2);
    codec::put_le(&mut buf, region_len as u128, 4);
    bytes::append(&mut buf, bytes::zeros(8).as_slice());
    codec::put_le(&mut buf, fletcher32(packed.as_slice()) as u128, 4);
    bytes::append(&mut buf, bytes::zeros(8).as_slice());
    bytes::append(&mut buf, packed.as_slice());
    bytes::append(&mut buf, bytes::zeros(XATTR_CAPACITY - region_len).as_slice());
    proof {
        assert(rs.len() == entries@.len());
        assert(buf@ =~= block_of(rs));
        codec::lemma_le_len(XATTR_BLOCK_MAGIC as nat, 4);
        codec::lemma_le_len(XATTR_BLOCK_VERSION as nat, 2);
        codec::lemma_le_len(rs.len(), 2);
        codec::lemma_le_len(region(rs).len(), 4);
        codec::lemma_le_len(checksum::fletcher32_of(region(rs)) as nat, 4);
    }
    Ok(buf)
}

/// An entry that is packed is found where it was packed.
proof fn lemma_entry_at(s: Seq<RawEntry>, n: int)
    requires
        all_fit(s),
        0 <= n < s.len(),
    ensures
        entry_at(region(s), region(s.take(n)).len() as int) == Some(
            (s[n], region(s.take(n + 1)).len() as int),
        ),
{
    let r = region(s);
    let pos = region(s.take(n)).len() as int;
    let e = s[n];
    lemma_region_step(s, n);
    lemma_region_mono(s, n + 1);
    assert(e.fits());
    codec::lemma_le_len(e.value.len(), 2);
    codec::lemma_pow256_values();
    codec::lemma_from_le_of_le(e.value.len(), 2);
    let head = region(s.take(n + 1));
    assert(r.subrange(0, head.len() as int) == head);
    assert forall|j: int| 0 <= j < e.wire().len() implies r[pos + j] == #[trigger] e.wire()[j] by {
        assert(head[pos + j] == e.wire()[j]);
        assert(r.subrange(0, head.len() as int)[pos + j] == r[pos + j]);
    }
    assert(r[pos] == e.wire()[0]);
    assert(r[pos + 1] == e.wire()[1]);
    assert(r.subrange(pos + 2, pos + 4) =~= codec::le(e.value.len(), 2)) by {
        assert forall|j: int| 0 <= j < 2 implies r[pos + 2 + j] == #[trigger] codec::le(
            e.value.len(),
            2,
        )[j] by {
            assert(r[pos + (2 + j)] == e.wire()[2 + j]);
        }
    }
    assert(r.subrange(pos + 4, pos + 4 + e.name.len()) =~= e.name) by {
        assert forall|j: int| 0 <= j < e.name.len() implies r[pos + 4 + j] == #[trigger] e.name[j] by {
            assert(r[pos + (4 + j)] == e.wire()[4 + j]);
        }
    }
    assert(r.subrange(pos + 4 + e.name.len(), pos + 4 + e.name.len() + e.value.len())
        =~= e.value) by {
        assert forall|j: int| 0 <= j < e.value.len() implies r[pos + 4 + e.name.len() + j]
            == #[trigger] e.value[j] by {
            assert(r[pos + (4 + e.name.len() + j)] == e.wire()[4 + e.name.len() + j]);
        }
    }
}

/// The packed entries from the `n`-th on are read back.
proof fn lemma_entries_from(s: Seq<RawEntry>, n: int)
    requires
        all_fit(s),
        0 <= n <= s.len(),
    ensures
        entries_from(region(s), region(s.take(n)).len() as int, (s.len() - n) as nat) == Some(
            s.skip(n),
        ),
    decreases s.len() - n,
{
    if n == s.len() {
        assert(s.skip(n) =~= Seq::<RawEntry>::empty());
    } else {
        lemma_entry_at(s, n);
        lemma_entries_from(s, n + 1);
        assert(s.skip(n) =~= seq![s[n]] + s.skip(n + 1));
    }
}

/// Reading a block that was written gives the attributes back: if `entries`
/// fit a block, that block parses, and whatever is parsed from it has the same
/// names, values and classes in the same order.
pub proof fn block_roundtrip(entries: Seq<XattrEntry>, back: Seq<XattrEntry>)
    requires
        all_fit(raws(entries)),
        region(raws(entries)).len() <= XATTR_CAPACITY,
        parsed(block_of(raws(entries))) matches Some(rs) ==> all_decoded_from(back, rs),
    ensures
        parsed(block_of(raws(entries))) == Some(raws(entries)),
        back.len() == entries.len(),
        forall|i: int|
            0 <= i < back.len() ==> (#[trigger] back[i]).name@ == entries[i].name@ && back[i].value@
                == entries[i].value@ && back[i].ns_flags == entries[i].ns_flags,
{
    let rs = raws(entries);
    let r = region(rs);
    let b = block_of(rs);
    codec::lemma_pow256_values();
    codec::lemma_le_len(XATTR_BLOCK_MAGIC as nat, 4);
    codec::lemma_le_len(XATTR_BLOCK_VERSION as nat, 2);
    codec::lemma_le_len(rs.len(), 2);
    codec::lemma_le_len(r.len(), 4);
    codec::lemma_le_len(checksum::fletcher32_of(r) as nat, 4);
    codec::lemma_from_le_of_le(XATTR_BLOCK_MAGIC as nat, 4);
    codec::lemma_from_le_of_le(XATTR_BLOCK_VERSION as nat, 2);
    lemma_region_mono(rs, rs.len() as int);
    assert(rs.take(rs.len() as int) =~= rs);
    codec::lemma_from_le_of_le(rs.len(), 2);
    codec::lemma_from_le_of_le(r.len(), 4);
    codec::lemma_from_le_of_le(checksum::fletcher32_of(r) as nat, 4);
    assert(b.subrange(0, 4) =~= codec::le(XATTR_BLOCK_MAGIC as nat, 4));
    assert(b.subrange(4, 6) =~= codec::le(XATTR_BLOCK_VERSION as nat, 2));
    assert(b.subrange(6, 8) =~= codec::le(rs.len(), 2));
    assert(b.subrange(8, 12) =~= codec::le(r.len(), 4));
    assert(b.subrange(20, 24) =~= codec::le(checksum::fletcher32_of(r) as nat, 4));
    assert(used_region(b) =~= r);
    assert(rs.take(0) =~= Seq::<RawEntry>::empty());
    assert(region(rs.take(0)).len() == 0);
    lemma_entries_from(rs, 0);
    assert(rs.skip(0) =~= rs);
    assert forall|i: int| 0 <= i < back.len() implies (#[trigger] back[i]).name@
        == entries[i].name@ && back[i].value@ == entries[i].value@ && back[i].ns_flags
        == entries[i].ns_flags by {
        assert(back[i].decoded_from(rs[i]));
        vstd::utf8::encode_utf8_valid_utf8(entries[i].name@);
        vstd::utf8::encode_utf8_decode_utf8(entries[i].name@);
    }
}

/// A name is of the namespace that it begins with, if anything follows and it
/// has at most 255 bytes; every other name is refused.
pub proof fn names_have_the_namespace_they_begin_with(name: Seq<char>, rest: Seq<char>)
    requires
        rest.len() > 0,
        vstd::utf8::encode_utf8(name).len() <= 255,
    ensures
        name == "user."@ + rest ==> class_of(name) == Some(NS_USER),
        name == "security."@ + rest ==> class_of(name) == Some(NS_SECURITY),
        name == "trusted."@ + rest ==> class_of(name) == Some(NS_TRUSTED),
        name == "system."@ + rest ==> class_of(name) == Some(NS_SYSTEM),
        NS_USER != NS_SECURITY && NS_USER != NS_TRUSTED && NS_USER != NS_SYSTEM && NS_SECURITY
            != NS_TRUSTED && NS_SECURITY != NS_SYSTEM && NS_TRUSTED != NS_SYSTEM,
{
    reveal_strlit("user.");
    reveal_strlit("security.");
    reveal_strlit("trusted.");
    reveal_strlit("system.");
    assert("user."@[0] == 'u' && "security."@[0] == 's' && "security."@[1] == 'e' && "trusted."@[0]
        == 't' && "system."@[0] == 's' && "system."@[1] == 'y');
    if name == "user."@ + rest {
        assert(name.subrange(0, 5) =~= "user."@);
        assert("user."@.is_prefix_of(name));
    }
    if name == "security."@ + rest {
        assert(name[0] == 's');
        assert(name.subrange(0, 9) =~= "security."@);
        assert("security."@.is_prefix_of(name));
        assert(!"user."@.is_prefix_of(name)) by {
            assert(name.subrange(0, 5)[0] == 's');
        }
    }
    if name == "trusted."@ + rest {
        assert(name[0] == 't');
        assert(name.subrange(0, 8) =~= "trusted."@);
        assert(!"user."@.is_prefix_of(name)) by {
            assert(name.subrange(0, 5)[0] == 't');
        }
        if "security."@.is_prefix_of(name) {
            assert(name.subrange(0, 9)[0] == 't');
        }
    }
    if name == "system."@ + rest {
        assert(name[0] == 's' && name[1] == 'y');
        assert(name.subrange(0, 7) =~= "system."@);
        assert(!"user."@.is_prefix_of(name)) by {
            assert(name.subrange(0, 5)[0] == 's');
        }
        if "security."@.is_prefix_of(name) {
            assert(name.subrange(0, 9)[1] == 'y');
        }
        if "trusted."@.is_prefix_of(name) {
            assert(name.subrange(0, 8)[0] == 's');
        }
    }
}

/// A name that is too long, that is of no namespace, or that is nothing but
/// one, is refused.
pub proof fn other_names_are_refused(name: Seq<char>)
    ensures
        vstd::utf8::encode_utf8(name).len() > 255 ==> class_of(name) is None,
        name == "user."@ || name == "security."@ || name == "trusted."@ || name == "system."@
            ==> class_of(name) is None,
        !"user."@.is_prefix_of(name) && !"security."@.is_prefix_of(name)
            && !"trusted."@.is_prefix_of(name) && !"system."@.is_prefix_of(name) ==> class_of(
            name,
        ) is None,
{
    reveal_strlit("user.");
    reveal_strlit("security.");
    reveal_strlit("trusted.");
    reveal_strlit("system.");
    if name == "user."@ || name == "security."@ || name == "trusted."@ || name == "system."@ {
        assert("user."@[0] == 'u' && "security."@[0] == 's' && "security."@[1] == 'e'
            && "trusted."@[0] == 't' && "system."@[0] == 's' && "system."@[1] == 'y');
        if "user."@.is_prefix_of(name) && name != "user."@ {
            assert(name.subrange(0, 5)[0] == name[0]);
        }
        if "trusted."@.is_prefix_of(name) && name != "trusted."@ {
            assert(name.subrange(0, 8)[0] == name[0]);
        }
        if "system."@.is_prefix_of(name) && name != "system."@ {
            assert(name.subrange(0, 7)[0] == name[0]);
            assert(name.subrange(0, 7)[1] == name[1]);
        }
        if "security."@.is_prefix_of(name) && name != "security."@ {
            assert(name.subrange(0, 9)[0] == name[0]);
            assert(name.subrange(0, 9)[1] == name[1]);
        }
    }
}

} // verus!
