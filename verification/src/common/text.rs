//! Strings and characters.

use vstd::prelude::*;
use vstd::string::{StrSliceExecFns, StringExecFns};

verus! {

/// Whether `prefix` begins `s`.
pub fn has_prefix(s: &str, prefix: &str) -> (r: bool)
    ensures
        r == prefix@.is_prefix_of(s@),
{
    let n: usize = prefix.unicode_len();
    if n > s.unicode_len() {
        return false;
    }
    let mut i: usize = 0;
    while i < n
        invariant
            n == prefix@.len(),
            n <= s@.len(),
            i <= n,
            forall|j: int| 0 <= j < i ==> s@[j] == prefix@[j],
        decreases n - i,
    {
        if s.get_char(i) != prefix.get_char(i) {
            return false;
        }
        i = i + 1;
    }
    assert(prefix@.is_prefix_of(s@)) by {
        assert(s@.subrange(0, n as int) =~= prefix@);
    }
    true
}

/// Whether two strings have the same characters.
pub fn same_text(a: &str, b: &str) -> (r: bool)
    ensures
        r == (a@ == b@),
{
    let same = has_prefix(a, b) && a.unicode_len() == b.unicode_len();
    proof {
        if same {
            assert(a@ =~= b@);
        }
        if a@ == b@ {
            assert(b@.is_prefix_of(a@));
        }
    }
    same
}

/// The character of a digit.
pub open spec fn digit_char(d: int) -> char {
    if d < 10 {
        (48 + d) as char
    } else {
        (87 + d) as char
    }
}

/// A number in decimal.
pub open spec fn dec_text(n: nat) -> Seq<char>
    decreases n,
{
    if n < 10 {
        seq![digit_char(n as int)]
    } else {
        dec_text(n / 10).push(digit_char((n % 10) as int))
    }
}

/// A number in hexadecimal.
pub open spec fn hex_text(n: nat) -> Seq<char>
    decreases n,
{
    if n < 16 {
        seq![digit_char(n as int)]
    } else {
        hex_text(n / 16).push(digit_char((n % 16) as int))
    }
}

/// A number in binary.
pub open spec fn bin_text(n: nat) -> Seq<char>
    decreases n,
{
    if n < 2 {
        seq![digit_char(n as int)]
    } else {
        bin_text(n / 2).push(digit_char((n % 2) as int))
    }
}

/// The character of a digit, as a string.
fn digit(d: u64) -> (r: &'static str)
    requires
        d < 16,
    ensures
        r@ == seq![digit_char(d as int)],
{
    proof {
        reveal_strlit("0");
        reveal_strlit("1");
        reveal_strlit("2");
        reveal_strlit("3");
        reveal_strlit("4");
        reveal_strlit("5");
        reveal_strlit("6");
        reveal_strlit("7");
        reveal_strlit("8");
        reveal_strlit("9");
        reveal_strlit("a");
        reveal_strlit("b");
        reveal_strlit("c");
        reveal_strlit("d");
        reveal_strlit("e");
        reveal_strlit("f");
    }
    let r = match d {
        0 => "0",
        1 => "1",
        2 => "2",
        3 => "3",
        4 => "4",
        5 => "5",
        6 => "6",
        7 => "7",
        8 => "8",
        9 => "9",
        10 => "a",
        11 => "b",
        12 => "c",
        13 => "d",
        14 => "e",
        _ => "f",
    };
    assert(r@ =~= seq![digit_char(d as int)]);
    r
}

/// A number in decimal.
pub fn dec(n: u64) -> (r: String)
    ensures
        r@ == dec_text(n as nat),
    decreases n,
{
    if n < 10 {
        String::from_str(digit(n))
    } else {
        let mut r = dec(n / 10);
        r.append(digit(n % 10));
        assert(r@ =~= dec_text(n as nat));
        r
    }
}

/// A number in hexadecimal.
pub fn hex(n: u64) -> (r: String)
    ensures
        r@ == hex_text(n as nat),
    decreases n,
{
    if n < 16 {
        String::from_str(digit(n))
    } else {
        let mut r = hex(n / 16);
        r.append(digit(n % 16));
        assert(r@ =~= hex_text(n as nat));
        r
    }
}

/// A number in binary.
pub fn bin(n: u64) -> (r: String)
    ensures
        r@ == bin_text(n as nat),
    decreases n,
{
    if n < 2 {
        String::from_str(digit(n))
    } else {
        let mut r = bin(n / 2);
        r.append(digit(n % 2));
        assert(r@ =~= bin_text(n as nat));
        r
    }
}

/// The characters of strings.
pub open spec fn texts(v: Seq<String>) -> Seq<Seq<char>> {
    v.map_values(|s: String| s@)
}

/// A text of which there is one or none.
pub open spec fn text_if(cond: bool, t: Seq<char>) -> Seq<Seq<char>> {
    if cond {
        seq![t]
    } else {
        Seq::empty()
    }
}

/// Adds a string.
pub fn push_text(v: &mut Vec<String>, s: String)
    ensures
        texts(final(v)@) == texts(old(v)@) + text_if(true, s@),
{
    v.push(s);
    assert(texts(v@) =~= texts(old(v)@) + text_if(true, s@));
}

/// The number that digits stand for in a base.
pub open spec fn number_of(digits: Seq<char>, base: nat) -> nat
    decreases digits.len(),
{
    if digits.len() == 0 {
        0
    } else {
        let c = digits.last() as nat;
        base * number_of(digits.drop_last(), base) + (if 48 <= c <= 57 {
            (c - 48) as nat
        } else {
            (c - 97 + 10) as nat
        })
    }
}

/// The text of a number is digits of its base that stand for the number, in as
/// few as it takes: only that of zero begins with a zero.
pub proof fn texts_stand_for_their_numbers(n: nat)
    ensures
        number_of(dec_text(n), 10) == n,
        number_of(hex_text(n), 16) == n,
        number_of(bin_text(n), 2) == n,
        dec_text(n).len() > 0 && (n > 0 ==> dec_text(n)[0] != '0'),
        hex_text(n).len() > 0 && (n > 0 ==> hex_text(n)[0] != '0'),
        bin_text(n).len() > 0 && (n > 0 ==> bin_text(n)[0] != '0'),
        forall|i: int| 0 <= i < dec_text(n).len() ==> '0' <= #[trigger] dec_text(n)[i] <= '9',
        forall|i: int|
            0 <= i < hex_text(n).len() ==> '0' <= #[trigger] hex_text(n)[i] <= '9' || 'a'
                <= hex_text(n)[i] <= 'f',
        forall|i: int| 0 <= i < bin_text(n).len() ==> '0' <= #[trigger] bin_text(n)[i] <= '1',
    decreases n,
{
    if n >= 2 {
        texts_stand_for_their_numbers(n / 2);
        assert(bin_text(n).drop_last() =~= bin_text(n / 2));
    } else {
        assert(bin_text(n).drop_last() =~= Seq::empty());
        reveal_with_fuel(number_of, 2);
    }
    if n >= 10 {
        texts_stand_for_their_numbers(n / 10);
        assert(dec_text(n).drop_last() =~= dec_text(n / 10));
    } else {
        assert(dec_text(n).drop_last() =~= Seq::empty());
        reveal_with_fuel(number_of, 2);
    }
    if n >= 16 {
        texts_stand_for_their_numbers(n / 16);
        assert(hex_text(n).drop_last() =~= hex_text(n / 16));
    } else {
        assert(hex_text(n).drop_last() =~= Seq::empty());
        reveal_with_fuel(number_of, 2);
    }
}

} // verus!
