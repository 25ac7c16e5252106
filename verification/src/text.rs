//! Decimal and dotted-quad text: formatting and parsing, proved against one
//! canonical spelling of each number.

use vstd::prelude::*;
use vstd::utf8::{decode_utf8, valid_utf8};

verus! {

/// Whether `c` is an ASCII decimal digit.
pub open spec fn is_digit(c: char) -> bool {
    '0' <= c && c <= '9'
}

/// The value of an ASCII decimal digit.
pub open spec fn digit_value(c: char) -> nat {
    ((c as int) - ('0' as int)) as nat
}

/// The ASCII digit for `d < 10`.
pub open spec fn digit_char(d: nat) -> char {
    if d == 0 { '0' } else if d == 1 { '1' } else if d == 2 { '2' } else if d == 3 { '3' }
    else if d == 4 { '4' } else if d == 5 { '5' } else if d == 6 { '6' } else if d == 7 { '7' }
    else if d == 8 { '8' } else { '9' }
}

/// The canonical decimal spelling of `n`: no sign, no leading zeros.
pub open spec fn dec(n: nat) -> Seq<char>
    decreases n,
{
    if n < 10 {
        seq![digit_char(n)]
    } else {
        dec(n / 10).push(digit_char(n % 10))
    }
}

/// The number spelled by a sequence of decimal digits (most significant first).
pub open spec fn digits_value(w: Seq<char>) -> nat
    decreases w.len(),
{
    if w.len() == 0 {
        0
    } else {
        digits_value(w.drop_last()) * 10 + digit_value(w.last())
    }
}

/// Every character of `w` is a decimal digit.
pub open spec fn all_digits(w: Seq<char>) -> bool {
    forall|i: int| 0 <= i < w.len() ==> #[trigger] is_digit(w[i])
}

pub proof fn lemma_digit_char(d: nat)
    requires
        d < 10,
    ensures
        is_digit(digit_char(d)),
        digit_value(digit_char(d)) == d,
        (digit_char(d) == '0') == (d == 0),
{
    assert(('0' as int) == 48);
}

/// Facts about the canonical spelling: it is all digits, spells `n`, and
/// starts with `'0'` only when it is exactly `"0"`.
pub proof fn lemma_dec(n: nat)
    ensures
        all_digits(dec(n)),
        digits_value(dec(n)) == n,
        dec(n).len() >= 1,
        dec(n)[0] == '0' ==> n == 0 && dec(n).len() == 1,
        n < 10 ==> dec(n).len() == 1,
        10 <= n < 100 ==> dec(n).len() == 2,
        100 <= n < 1000 ==> dec(n).len() == 3,
        1000 <= n ==> dec(n).len() >= 4,
    decreases n,
{
    if n < 10 {
        lemma_digit_char(n);
        assert(dec(n).drop_last() =~= Seq::<char>::empty());
        assert(digits_value(Seq::<char>::empty()) == 0);
        assert(digits_value(dec(n)) == n);
    } else {
        lemma_dec(n / 10);
        lemma_digit_char(n % 10);
        let w = dec(n);
        assert(w.drop_last() =~= dec(n / 10));
        assert(w[0] == dec(n / 10)[0]);
        assert(w.last() == digit_char(n % 10));
        assert(digits_value(w) == digits_value(dec(n / 10)) * 10 + digit_value(digit_char(n % 10)));
    }
}

/// A digit run without a superfluous leading zero is the canonical spelling of its value.
pub proof fn lemma_canonical_digits(w: Seq<char>)
    requires
        w.len() >= 1,
        all_digits(w),
        w[0] == '0' ==> w.len() == 1,
    ensures
        dec(digits_value(w)) == w,
    decreases w.len(),
{
    assert(('0' as int) == 48);
    if w.len() == 1 {
        assert(w.drop_last() =~= Seq::<char>::empty());
        let d = digit_value(w[0]);
        assert(is_digit(w[0]));
        assert(digit_char(d) == w[0]);
        assert(digits_value(Seq::<char>::empty()) == 0);
        assert(digits_value(w) == d);
        assert(dec(d) =~= w);
    } else {
        let p = w.drop_last();
        assert(all_digits(p)) by {
            assert forall|i: int| 0 <= i < p.len() implies #[trigger] is_digit(p[i]) by {
                assert(is_digit(w[i]));
            }
        }
        assert(p[0] == w[0]);
        lemma_canonical_digits(p);
        lemma_dec(digits_value(p));
        assert(digits_value(p) >= 1) by {
            if digits_value(p) == 0 {
                assert(dec(0)[0] == '0');
            }
        }
        let v = digits_value(w);
        assert(is_digit(w.last()));
        assert(v / 10 == digits_value(p));
        assert(v % 10 == digit_value(w.last()));
        assert(digit_char(digit_value(w.last())) == w.last());
        assert(v >= 10);
        assert(dec(v) == dec(v / 10).push(digit_char(v % 10)));
        assert(dec(v) =~= p.push(w.last()));
        assert(p.push(w.last()) =~= w);
    }
}

/// Appends one character to a `String` (`String::push`).
#[verifier::external_body]
pub(crate) fn push_char(s: &mut String, c: char)
    ensures
        final(s)@ == old(s)@.push(c),
{
    s.push(c);
}

/// The ASCII digit for `d`.
pub fn digit_to_char(d: u64) -> (c: char)
    requires
        d < 10,
    ensures
        c == digit_char(d as nat),
{
    if d == 0 { '0' } else if d == 1 { '1' } else if d == 2 { '2' } else if d == 3 { '3' }
    else if d == 4 { '4' } else if d == 5 { '5' } else if d == 6 { '6' } else if d == 7 { '7' }
    else if d == 8 { '8' } else { '9' }
}

/// Formats `n` in decimal (as `u64`'s `Display` does).
pub fn decimal(n: u64) -> (s: String)
    ensures
        s@ == dec(n as nat),
    decreases n,
{
    if n < 10 {
        let mut s = String::new();
        push_char(&mut s, digit_to_char(n));
        assert(s@ =~= dec(n as nat));
        s
    } else {
        let mut s = decimal(n / 10);
        push_char(&mut s, digit_to_char(n % 10));
        s
    }
}

/// Appends the decimal spelling of `n` to `s`.
pub fn push_decimal(s: &mut String, n: u64)
    ensures
        final(s)@ == old(s)@ + dec(n as nat),
{
    let d = decimal(n);
    s.append(d.as_str());
}

/// The characters of `s`, in order.
pub fn chars_of(s: &str) -> (v: Vec<char>)
    ensures
        v@ == s@,
{
    let mut v: Vec<char> = Vec::new();
    for c in it: s.chars()
        invariant
            v@ == it.seq().take(it.index() as int),
    {
        v.push(c);
    }
    v
}

/// Unicode's `White_Space` property, which `char::is_whitespace` tests.
pub open spec fn white_space(c: char) -> bool {
    ||| ('\u{9}' <= c && c <= '\u{d}')
    ||| c == ' '
    ||| c == '\u{85}'
    ||| c == '\u{a0}'
    ||| c == '\u{1680}'
    ||| ('\u{2000}' <= c && c <= '\u{200a}')
    ||| c == '\u{2028}'
    ||| c == '\u{2029}'
    ||| c == '\u{202f}'
    ||| c == '\u{205f}'
    ||| c == '\u{3000}'
}

/// Whether `c` has Unicode's `White_Space` property (what `char::is_whitespace`
/// tests).
pub fn char_is_whitespace(c: char) -> (r: bool)
    ensures
        r == white_space(c),
{
    ('\u{9}' <= c && c <= '\u{d}') || c == ' ' || c == '\u{85}' || c == '\u{a0}' || c == '\u{1680}' || (
    '\u{2000}' <= c && c <= '\u{200a}') || c == '\u{2028}' || c == '\u{2029}' || c == '\u{202f}' || c
        == '\u{205f}' || c == '\u{3000}'
}

/// `std::str::from_utf8` on `bytes`, copied into a `String`: present exactly
/// when the bytes are valid UTF-8, and then holding the characters they encode.
#[verifier::external_body]
pub(crate) fn utf8_to_string(bytes: &[u8]) -> (r: Option<String>)
    ensures
        r is Some <==> valid_utf8(bytes@),
        r matches Some(s) ==> s@ == decode_utf8(bytes@),
{
    match std::str::from_utf8(bytes) {
        Ok(s) => Some(s.to_string()),
        Err(_) => None,
    }
}

/// The characters of each string.
pub open spec fn string_views(v: Seq<String>) -> Seq<Seq<char>> {
    v.map_values(|s: String| s@)
}

} // verus!
