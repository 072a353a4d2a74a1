//! Tells which file system an image holds, by the bytes that each begins with.

use crate::common::text;
use vstd::prelude::*;

verus! {

/// A file system that can be moved in from.
#[derive(Clone, Copy, PartialEq, Eq, Hash, Debug, Structural)]
pub enum FsKind {
    Ext4,
    Xfs,
    Btrfs,
    Zfs,
    F2fs,
    Ntfs,
    Apfs,
    Fat32,
    ExFat,
    HfsPlus,
    /// A driver knows it, the table does not.
    Other,
    /// Nobody knows it.
    Unknown,
}

impl FsKind {
    /// The name that policies use.
    pub open spec fn tag_text(self) -> Seq<char> {
        match self {
            FsKind::Ext4 => "ext4"@,
            FsKind::Xfs => "xfs"@,
            FsKind::Btrfs => "btrfs"@,
            FsKind::Zfs => "zfs"@,
            FsKind::F2fs => "f2fs"@,
            FsKind::Ntfs => "ntfs"@,
            FsKind::Apfs => "apfs"@,
            FsKind::Fat32 => "fat32"@,
            FsKind::ExFat => "exfat"@,
            FsKind::HfsPlus => "hfs+"@,
            FsKind::Other => "other"@,
            FsKind::Unknown => "unknown"@,
        }
    }

    /// The name that policies use.
    #[must_use]
    pub fn tag(self) -> (r: &'static str)
        ensures
            r@ == self.tag_text(),
    {
        match self {
            FsKind::Ext4 => "ext4",
            FsKind::Xfs => "xfs",
            FsKind::Btrfs => "btrfs",
            FsKind::Zfs => "zfs",
            FsKind::F2fs => "f2fs",
            FsKind::Ntfs => "ntfs",
            FsKind::Apfs => "apfs",
            FsKind::Fat32 => "fat32",
            FsKind::ExFat => "exfat",
            FsKind::HfsPlus => "hfs+",
            FsKind::Other => "other",
            FsKind::Unknown => "unknown",
        }
    }

    /// The file system of a name.
    #[must_use]
    pub fn from_tag(tag: &str) -> (r: Option<Self>)
        ensures
            match r {
                Some(k) => k.tag_text() == tag@,
                None => forall|k: FsKind| #[trigger] k.tag_text() != tag@,
            },
    {
        if text::same_text(tag, "ext4") {
            Some(FsKind::Ext4)
        } else if text::same_text(tag, "xfs") {
            Some(FsKind::Xfs)
        } else if text::same_text(tag, "btrfs") {
            Some(FsKind::Btrfs)
        } else if text::same_text(tag, "zfs") {
            Some(FsKind::Zfs)
        } else if text::same_text(tag, "f2fs") {
            Some(FsKind::F2fs)
        } else if text::same_text(tag, "ntfs") {
            Some(FsKind::Ntfs)
        } else if text::same_text(tag, "apfs") {
            Some(FsKind::Apfs)
        } else if text::same_text(tag, "fat32") {
            Some(FsKind::Fat32)
        } else if text::same_text(tag, "exfat") {
            Some(FsKind::ExFat)
        } else if text::same_text(tag, "hfs+") {
            Some(FsKind::HfsPlus)
        } else if text::same_text(tag, "other") {
            Some(FsKind::Other)
        } else if text::same_text(tag, "unknown") {
            Some(FsKind::Unknown)
        } else {
            None
        }
    }
}

/// How a name begins, and how long it is.
spec fn outline(k: FsKind) -> (char, char, nat) {
    match k {
        FsKind::Ext4 => ('e', 'x', 4),
        FsKind::Xfs => ('x', 'f', 3),
        FsKind::Btrfs => ('b', 't', 5),
        FsKind::Zfs => ('z', 'f', 3),
        FsKind::F2fs => ('f', '2', 4),
        FsKind::Ntfs => ('n', 't', 4),
        FsKind::Apfs => ('a', 'p', 4),
        FsKind::Fat32 => ('f', 'a', 5),
        FsKind::ExFat => ('e', 'x', 5),
        FsKind::HfsPlus => ('h', 'f', 4),
        FsKind::Other => ('o', 't', 5),
        FsKind::Unknown => ('u', 'n', 7),
    }
}

proof fn lemma_outline(k: FsKind)
    ensures
        (k.tag_text()[0], k.tag_text()[1], k.tag_text().len()) == outline(k),
{
    match k {
        FsKind::Ext4 => {
            reveal_strlit("ext4");
        },
        FsKind::Xfs => {
            reveal_strlit("xfs");
        },
        FsKind::Btrfs => {
            reveal_strlit("btrfs");
        },
        FsKind::Zfs => {
            reveal_strlit("zfs");
        },
        FsKind::F2fs => {
            reveal_strlit("f2fs");
        },
        FsKind::Ntfs => {
            reveal_strlit("ntfs");
        },
        FsKind::Apfs => {
            reveal_strlit("apfs");
        },
        FsKind::Fat32 => {
            reveal_strlit("fat32");
        },
        FsKind::ExFat => {
            reveal_strlit("exfat");
        },
        FsKind::HfsPlus => {
            reveal_strlit("hfs+");
        },
        FsKind::Other => {
            reveal_strlit("other");
        },
        FsKind::Unknown => {
            reveal_strlit("unknown");
        },
    }
}

/// No two file systems have the same name.
pub proof fn names_are_distinct(a: FsKind, b: FsKind)
    requires
        a.tag_text() == b.tag_text(),
    ensures
        a == b,
{
    lemma_outline(a);
    lemma_outline(b);
}

/// Bytes that a file system has at an offset.
#[derive(Clone, Debug)]
pub struct MagicRule {
    pub kind: FsKind,
    pub offset: usize,
    pub magic: Vec<u8>,
    /// Other bytes that it may have there.
    pub alt: Vec<u8>,
}

/// Bytes that a file system has at an offset.
#[verifier::ext_equal]
pub struct Rule {
    pub kind: FsKind,
    pub offset: nat,
    pub magic: Seq<u8>,
    /// Other bytes that it may have there.
    pub alt: Seq<u8>,
}

impl MagicRule {
    /// The rule.
    pub open spec fn view(&self) -> Rule {
        Rule {
            kind: self.kind,
            offset: self.offset as nat,
            magic: self.magic@,
            alt: self.alt@,
        }
    }
}

/// How many rules there are.
pub const RULES: usize = 10;

/// What each file system is told by. The first rule that matches counts.
pub open spec fn rule(i: int) -> Rule {
    if i == 0 {
        Rule { kind: FsKind::Ext4, offset: 1_080, magic: seq![0x53u8, 0xEFu8], alt: Seq::empty() }
    } else if i == 1 {
        Rule { kind: FsKind::Xfs, offset: 0, magic: seq![0x58u8, 0x46u8, 0x53u8, 0x42u8], alt: Seq::empty() }
    } else if i == 2 {
        Rule { kind: FsKind::Btrfs, offset: 65_280, magic: seq![0x5Fu8, 0x42u8, 0x48u8, 0x52u8, 0x66u8, 0x53u8, 0x5Fu8, 0x4Du8], alt: Seq::empty() }
    } else if i == 3 {
        Rule { kind: FsKind::Zfs, offset: 0, magic: seq![0x0Cu8, 0xB1u8, 0xBAu8, 0x00u8], alt: Seq::empty() }
    } else if i == 4 {
        Rule { kind: FsKind::F2fs, offset: 1_024, magic: seq![0xF0u8, 0x0Fu8, 0xF1u8, 0x0Fu8], alt: Seq::empty() }
    } else if i == 5 {
        Rule { kind: FsKind::Ntfs, offset: 3, magic: seq![0x4Eu8, 0x54u8, 0x46u8, 0x53u8, 0x20u8, 0x20u8, 0x20u8, 0x20u8], alt: Seq::empty() }
    } else if i == 6 {
        Rule { kind: FsKind::Fat32, offset: 82, magic: seq![0x46u8, 0x41u8, 0x54u8, 0x33u8, 0x32u8, 0x20u8, 0x20u8, 0x20u8], alt: Seq::empty() }
    } else if i == 7 {
        Rule { kind: FsKind::ExFat, offset: 3, magic: seq![0x45u8, 0x58u8, 0x46u8, 0x41u8, 0x54u8, 0x20u8, 0x20u8, 0x20u8], alt: Seq::empty() }
    } else if i == 8 {
        Rule { kind: FsKind::HfsPlus, offset: 1_024, magic: seq![0x48u8, 0x2Bu8], alt: seq![0x48u8, 0x58u8] }
    } else {
        Rule { kind: FsKind::Apfs, offset: 32, magic: seq![0x4Eu8, 0x58u8, 0x53u8, 0x42u8], alt: Seq::empty() }
    }
}

/// What each file system is told by.
#[must_use]
pub fn magic_table() -> (table: Vec<MagicRule>)
    ensures
        table@.len() == RULES,
        forall|i: int| 0 <= i < RULES ==> (#[trigger] table@[i])@ == rule(i),
{
    let mut table: Vec<MagicRule> = Vec::new();
    table.push(
        MagicRule { kind: FsKind::Ext4, offset: 1_080, magic: vec![0x53u8, 0xEFu8], alt: Vec::new() },
    );
    assert(table@[0]@ =~= rule(0));
    table.push(
        MagicRule { kind: FsKind::Xfs, offset: 0, magic: vec![0x58u8, 0x46u8, 0x53u8, 0x42u8], alt: Vec::new() },
    );
    assert(table@[1]@ =~= rule(1));
    table.push(
        MagicRule { kind: FsKind::Btrfs, offset: 65_280, magic: vec![0x5Fu8, 0x42u8, 0x48u8, 0x52u8, 0x66u8, 0x53u8, 0x5Fu8, 0x4Du8], alt: Vec::new() },
    );
    assert(table@[2]@ =~= rule(2));
    table.push(
        MagicRule { kind: FsKind::Zfs, offset: 0, magic: vec![0x0Cu8, 0xB1u8, 0xBAu8, 0x00u8], alt: Vec::new() },
    );
    assert(table@[3]@ =~= rule(3));
    table.push(
        MagicRule { kind: FsKind::F2fs, offset: 1_024, magic: vec![0xF0u8, 0x0Fu8, 0xF1u8, 0x0Fu8], alt: Vec::new() },
    );
    assert(table@[4]@ =~= rule(4));
    table.push(
        MagicRule { kind: FsKind::Ntfs, offset: 3, magic: vec![0x4Eu8, 0x54u8, 0x46u8, 0x53u8, 0x20u8, 0x20u8, 0x20u8, 0x20u8], alt: Vec::new() },
    );
    assert(table@[5]@ =~= rule(5));
    table.push(
        MagicRule { kind: FsKind::Fat32, offset: 82, magic: vec![0x46u8, 0x41u8, 0x54u8, 0x33u8, 0x32u8, 0x20u8, 0x20u8, 0x20u8], alt: Vec::new() },
    );
    assert(table@[6]@ =~= rule(6));
    table.push(
        MagicRule { kind: FsKind::ExFat, offset: 3, magic: vec![0x45u8, 0x58u8, 0x46u8, 0x41u8, 0x54u8, 0x20u8, 0x20u8, 0x20u8], alt: Vec::new() },
    );
    assert(table@[7]@ =~= rule(7));
    table.push(
        MagicRule { kind: FsKind::HfsPlus, offset: 1_024, magic: vec![0x48u8, 0x2Bu8], alt: vec![0x48u8, 0x58u8] },
    );
    assert(table@[8]@ =~= rule(8));
    table.push(
        MagicRule { kind: FsKind::Apfs, offset: 32, magic: vec![0x4Eu8, 0x58u8, 0x53u8, 0x42u8], alt: Vec::new() },
    );
    assert(table@[9]@ =~= rule(9));
    table
}

impl Rule {
    /// The image has the bytes where the rule says.
    pub open spec fn matched_by(self, image: Seq<u8>) -> bool {
        let end = self.offset + self.magic.len();
        end <= image.len() && {
            let got = image.subrange(self.offset as int, end as int);
            got == self.magic || got == self.alt
        }
    }
}

/// Whether bytes stand at an offset of an image.
fn stands_at(image: &[u8], offset: usize, len: usize, magic: &Vec<u8>) -> (r: bool)
    requires
        offset + len <= image@.len(),
    ensures
        r == (image@.subrange(offset as int, offset + len) == magic@),
{
    if magic.len() != len {
        return false;
    }
    let total: usize = image.len();
    let mut i: usize = 0;
    while i < len
        invariant
            i <= len,
            len == magic@.len(),
            total == image@.len(),
            offset + len <= image@.len(),
            forall|j: int| 0 <= j < i ==> image@[offset + j] == #[trigger] magic@[j],
        decreases len - i,
    {
        if image[offset + i] != magic[i] {
            assert(image@.subrange(offset as int, offset + len)[i as int] != magic@[i as int]);
            return false;
        }
        i = i + 1;
    }
    assert(image@.subrange(offset as int, offset + len) =~= magic@);
    true
}

/// The file system that an image holds: that of the first rule that the image
/// matches.
#[must_use]
pub fn detect(image: &[u8]) -> (r: Option<FsKind>)
    ensures
        match r {
            Some(kind) => exists|i: int|
                0 <= i < RULES && (#[trigger] rule(i)).matched_by(image@) && rule(i).kind == kind && (
                forall|j: int| 0 <= j < i ==> !(#[trigger] rule(j)).matched_by(image@)),
            None => forall|i: int| 0 <= i < RULES ==> !(#[trigger] rule(i)).matched_by(image@),
        },
{
    let table = magic_table();
    let mut i: usize = 0;
    while i < table.len()
        invariant
            i <= table@.len(),
            table@.len() == RULES,
            forall|i: int| 0 <= i < RULES ==> (#[trigger] table@[i])@ == rule(i),
            forall|j: int| 0 <= j < i ==> !(#[trigger] rule(j)).matched_by(image@),
        decreases table@.len() - i,
    {
        let rule = &table[i];
        assert(rule@ == self::rule(i as int));
        assert(rule.offset <= 65_280 && rule.magic@.len() <= 8);
        let len: usize = rule.magic.len();
        if len <= image.len() && rule.offset <= image.len() - len {
            if stands_at(image, rule.offset, len, &rule.magic) || stands_at(
                image,
                rule.offset,
                len,
                &rule.alt,
            ) {
                return Some(rule.kind);
            }
        }
        i = i + 1;
    }
    None
}

/// An image that has the bytes of a rule, and those of none before it, is of
/// that rule's kind, however the rest of it looks.
pub proof fn first_match_wins(image: Seq<u8>, i: int, j: int)
    requires
        0 <= i < RULES,
        0 <= j < RULES,
        rule(i).matched_by(image),
        rule(j).matched_by(image),
        forall|k: int| 0 <= k < i ==> !(#[trigger] rule(k)).matched_by(image),
        forall|k: int| 0 <= k < j ==> !(#[trigger] rule(k)).matched_by(image),
    ensures
        i == j,
{
}

/// Where the mark of each file system stands, and what it is. HFS+ has two.
pub proof fn marks_stand_in_their_places(image: Seq<u8>)
    ensures
        rule(0).kind == FsKind::Ext4 && (rule(0).matched_by(image) <==> image.len() >= 1082
            && image.subrange(1080, 1082) == seq![0x53u8, 0xEFu8]),
        rule(1).kind == FsKind::Xfs && (rule(1).matched_by(image) <==> image.len() >= 4
            && image.subrange(0, 4) == seq![0x58u8, 0x46u8, 0x53u8, 0x42u8]),
        rule(2).kind == FsKind::Btrfs && (rule(2).matched_by(image) <==> image.len() >= 65288
            && image.subrange(65280, 65288) == seq![0x5Fu8, 0x42u8, 0x48u8, 0x52u8, 0x66u8, 0x53u8, 0x5Fu8, 0x4Du8]),
        rule(3).kind == FsKind::Zfs && (rule(3).matched_by(image) <==> image.len() >= 4
            && image.subrange(0, 4) == seq![0x0Cu8, 0xB1u8, 0xBAu8, 0x00u8]),
        rule(4).kind == FsKind::F2fs && (rule(4).matched_by(image) <==> image.len() >= 1028
            && image.subrange(1024, 1028) == seq![0xF0u8, 0x0Fu8, 0xF1u8, 0x0Fu8]),
        rule(5).kind == FsKind::Ntfs && (rule(5).matched_by(image) <==> image.len() >= 11
            && image.subrange(3, 11) == seq![0x4Eu8, 0x54u8, 0x46u8, 0x53u8, 0x20u8, 0x20u8, 0x20u8, 0x20u8]),
        rule(6).kind == FsKind::Fat32 && (rule(6).matched_by(image) <==> image.len() >= 90
            && image.subrange(82, 90) == seq![0x46u8, 0x41u8, 0x54u8, 0x33u8, 0x32u8, 0x20u8, 0x20u8, 0x20u8]),
        rule(7).kind == FsKind::ExFat && (rule(7).matched_by(image) <==> image.len() >= 11
            && image.subrange(3, 11) == seq![0x45u8, 0x58u8, 0x46u8, 0x41u8, 0x54u8, 0x20u8, 0x20u8, 0x20u8]),
        rule(8).kind == FsKind::HfsPlus && (rule(8).matched_by(image) <==> image.len() >= 1026
            && (image.subrange(1024, 1026) == seq![0x48u8, 0x2Bu8] || image.subrange(1024, 1026) == seq![0x48u8, 0x58u8])),
        rule(9).kind == FsKind::Apfs && (rule(9).matched_by(image) <==> image.len() >= 36
            && image.subrange(32, 36) == seq![0x4Eu8, 0x58u8, 0x53u8, 0x42u8]),
{
    assert(rule(0).magic.len() == 2 && rule(0).alt.len() != 2);
    assert(image.len() >= 1082 ==> image.subrange(1080, 1082).len() == 2);
    assert(rule(1).magic.len() == 4 && rule(1).alt.len() != 4);
    assert(image.len() >= 4 ==> image.subrange(0, 4).len() == 4);
    assert(rule(2).magic.len() == 8 && rule(2).alt.len() != 8);
    assert(image.len() >= 65288 ==> image.subrange(65280, 65288).len() == 8);
    assert(rule(3).magic.len() == 4 && rule(3).alt.len() != 4);
    assert(image.len() >= 4 ==> image.subrange(0, 4).len() == 4);
    assert(rule(4).magic.len() == 4 && rule(4).alt.len() != 4);
    assert(image.len() >= 1028 ==> image.subrange(1024, 1028).len() == 4);
    assert(rule(5).magic.len() == 8 && rule(5).alt.len() != 8);
    assert(image.len() >= 11 ==> image.subrange(3, 11).len() == 8);
    assert(rule(6).magic.len() == 8 && rule(6).alt.len() != 8);
    assert(image.len() >= 90 ==> image.subrange(82, 90).len() == 8);
    assert(rule(7).magic.len() == 8 && rule(7).alt.len() != 8);
    assert(image.len() >= 11 ==> image.subrange(3, 11).len() == 8);
    assert(rule(8).magic.len() == 2 && rule(8).alt.len() == 2);
    assert(image.len() >= 1026 ==> image.subrange(1024, 1026).len() == 2);
    assert(rule(9).magic.len() == 4 && rule(9).alt.len() != 4);
    assert(image.len() >= 36 ==> image.subrange(32, 36).len() == 4);
}

} // verus!
