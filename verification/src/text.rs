//! Text as bytes: what contracts say of names, hosts and paths is said of
//! their UTF-8 bytes.

use vstd::prelude::*;
use vstd::string::*;

verus! {

/// The UTF-8 bytes of a text.
pub open spec fn text_bytes(text: Seq<char>) -> Seq<u8> {
    vstd::utf8::encode_utf8(text)
}

/// Whether two byte strings are the same.
pub fn bytes_eq(a: &[u8], b: &[u8]) -> (same: bool)
    ensures
        same == (a@ == b@),
{
    if a.len() != b.len() {
        return false;
    }
    let mut i: usize = 0;
    while i < a.len()
        invariant
            i <= a@.len(),
            a@.len() == b@.len(),
            forall|k: int| 0 <= k < i ==> a@[k] == b@[k],
        decreases a@.len() - i,
    {
        if a[i] != b[i] {
            return false;
        }
        i = i + 1;
    }
    assert(a@ =~= b@);
    true
}

/// Whether `text` begins with `prefix`.
pub fn starts_with(text: &[u8], prefix: &[u8]) -> (r: bool)
    ensures
        r == prefix@.is_prefix_of(text@),
{
    if prefix.len() > text.len() {
        return false;
    }
    let mut i: usize = 0;
    while i < prefix.len()
        invariant
            i <= prefix@.len() <= text@.len(),
            forall|k: int| 0 <= k < i ==> text@[k] == prefix@[k],
        decreases prefix@.len() - i,
    {
        if text[i] != prefix[i] {
            assert(text@.subrange(0, prefix@.len() as int)[i as int] != prefix@[i as int]);
            return false;
        }
        i = i + 1;
    }
    assert(text@.subrange(0, prefix@.len() as int) =~= prefix@);
    true
}

/// Whether `text` ends with `suffix`.
pub fn ends_with(text: &[u8], suffix: &[u8]) -> (r: bool)
    ensures
        r == suffix@.is_suffix_of(text@),
{
    if suffix.len() > text.len() {
        return false;
    }
    let shift: usize = text.len() - suffix.len();
    let mut i: usize = 0;
    while i < suffix.len()
        invariant
            i <= suffix@.len() <= text@.len(),
            shift == text@.len() - suffix@.len(),
            text@.len() <= usize::MAX,
            forall|k: int| 0 <= k < i ==> text@[shift + k] == suffix@[k],
        decreases suffix@.len() - i,
    {
        if text[shift + i] != suffix[i] {
            assert(text@.subrange(shift as int, text@.len() as int)[i as int] != suffix@[i as int]);
            return false;
        }
        i = i + 1;
    }
    assert(text@.subrange(shift as int, text@.len() as int) =~= suffix@);
    true
}

/// An ASCII letter in lower case; any other byte as it is.
pub open spec fn lower(b: u8) -> u8 {
    if 0x41 <= b <= 0x5A {
        (b + 0x20) as u8
    } else {
        b
    }
}

/// A byte string with its ASCII letters in lower case.
pub open spec fn lower_all(text: Seq<u8>) -> Seq<u8> {
    text.map_values(|b: u8| lower(b))
}

/// Whether two byte strings are the same but for the case of ASCII letters.
pub fn eq_ignore_case(a: &[u8], b: &[u8]) -> (same: bool)
    ensures
        same == (lower_all(a@) == lower_all(b@)),
{
    if a.len() != b.len() {
        assert(lower_all(a@).len() != lower_all(b@).len());
        return false;
    }
    let mut i: usize = 0;
    while i < a.len()
        invariant
            i <= a@.len(),
            a@.len() == b@.len(),
            forall|k: int| 0 <= k < i ==> lower(a@[k]) == lower(b@[k]),
        decreases a@.len() - i,
    {
        let x = a[i];
        let y = b[i];
        let lx = if 0x41 <= x && x <= 0x5A {
            x + 0x20
        } else {
            x
        };
        let ly = if 0x41 <= y && y <= 0x5A {
            y + 0x20
        } else {
            y
        };
        if lx != ly {
            assert(lower_all(a@)[i as int] != lower_all(b@)[i as int]);
            return false;
        }
        i = i + 1;
    }
    assert(lower_all(a@) =~= lower_all(b@));
    true
}

/// The number that a string of decimal digits spells.
pub open spec fn decimal_value(digits: Seq<u8>) -> nat
    decreases digits.len(),
{
    if digits.len() == 0 {
        0
    } else {
        decimal_value(digits.drop_last()) * 10 + (digits.last() - 0x30) as nat
    }
}

/// Whether a byte string is one decimal digit or more and nothing else.
pub open spec fn is_decimal(digits: Seq<u8>) -> bool {
    digits.len() > 0 && forall|i: int| 0 <= i < digits.len() ==> 0x30 <= #[trigger] digits[i] <= 0x39
}

/// Reads a decimal number. `None` where the bytes are not all digits, where
/// there are none, or where the number does not fit.
pub fn parse_decimal(digits: &[u8]) -> (r: Option<usize>)
    ensures
        r is Some <==> is_decimal(digits@) && decimal_value(digits@) <= usize::MAX,
        r matches Some(n) ==> n == decimal_value(digits@),
{
    if digits.len() == 0 {
        return None;
    }
    let mut value: usize = 0;
    let mut i: usize = 0;
    assert(digits@.take(0) =~= Seq::<u8>::empty());
    while i < digits.len()
        invariant
            i <= digits@.len(),
            forall|k: int| 0 <= k < i ==> 0x30 <= #[trigger] digits@[k] <= 0x39,
            value == decimal_value(digits@.take(i as int)),
        decreases digits@.len() - i,
    {
        let d = digits[i];
        if d < 0x30 || d > 0x39 {
            return None;
        }
        proof {
            let next = digits@.take(i + 1);
            assert(next.drop_last() =~= digits@.take(i as int));
            assert(next.last() == d);
        }
        let digit: usize = (d - 0x30) as usize;
        if value > (usize::MAX - digit) / 10 {
            proof {
                if is_decimal(digits@) {
                    lemma_decimal_grows(digits@, i + 1);
                }
            }
            return None;
        }
        value = value * 10 + digit;
        i = i + 1;
    }
    assert(digits@.take(i as int) =~= digits@);
    Some(value)
}

/// A number's decimal digits spell no less than any of their prefixes.
proof fn lemma_decimal_grows(digits: Seq<u8>, n: int)
    requires
        0 <= n <= digits.len(),
        forall|k: int| 0 <= k < digits.len() ==> 0x30 <= #[trigger] digits[k],
    ensures
        decimal_value(digits.take(n)) <= decimal_value(digits),
    decreases digits.len() - n,
{
    if n == digits.len() {
        assert(digits.take(n) =~= digits);
    } else {
        lemma_decimal_grows(digits, n + 1);
        let next = digits.take(n + 1);
        assert(next.drop_last() =~= digits.take(n));
    }
}

/// Texts with the same UTF-8 bytes are the same text.
pub proof fn lemma_text_bytes_injective(a: Seq<char>, b: Seq<char>)
    requires
        text_bytes(a) == text_bytes(b),
    ensures
        a == b,
{
    vstd::utf8::encode_utf8_decode_utf8(a);
    vstd::utf8::encode_utf8_decode_utf8(b);
}

/// Whether two texts are the same.
pub fn str_eq(a: &str, b: &str) -> (same: bool)
    ensures
        same == (a@ == b@),
{
    let same = bytes_eq(a.as_bytes(), b.as_bytes());
    proof {
        if same {
            lemma_text_bytes_injective(a@, b@);
        }
    }
    same
}

/// The length of a text in bytes.
pub fn str_len(text: &str) -> (n: usize)
    ensures
        n == text_bytes(text@).len(),
{
    text.as_bytes().len()
}

/// Whether two byte strings are the same, found by looking at every byte of
/// the longer one whatever the earlier bytes were.
pub fn bytes_eq_all(a: &[u8], b: &[u8]) -> (same: bool)
    ensures
        same == (a@ == b@),
{
    let mut diff: bool = a.len() != b.len();
    let mut i: usize = 0;
    while i < a.len() || i < b.len()
        invariant
            !diff ==> a@.len() == b@.len() && i <= a@.len() && forall|k: int|
                0 <= k < i ==> a@[k] == b@[k],
            diff ==> a@ != b@,
        decreases (if a@.len() >= b@.len() {
            a@.len()
        } else {
            b@.len()
        }) - i,
    {
        if i < a.len() && i < b.len() {
            if a[i] != b[i] {
                diff = true;
            }
        }
        i = i + 1;
    }
    if !diff {
        assert(a@ =~= b@);
    }
    !diff
}

} // verus!
