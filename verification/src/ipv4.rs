//! Dotted-quad IPv4 text (`a.b.c.d`), in the canonical form that std's
//! `Ipv4Addr` prints and accepts.

use vstd::prelude::*;
use vstd::utf8::{encode_utf8, encode_utf8_decode_utf8, is_ascii_chars, is_ascii_chars_encode_utf8};

use crate::text::{all_digits, dec, digits_value, is_digit, lemma_canonical_digits, lemma_dec, push_char, push_decimal};

verus! {

/// The four octets of `addr`, most significant first.
pub open spec fn octet(addr: u32, k: int) -> nat {
    if k == 0 {
        (addr / 16777216) as nat
    } else if k == 1 {
        ((addr / 65536) % 256) as nat
    } else if k == 2 {
        ((addr / 256) % 256) as nat
    } else {
        (addr % 256) as nat
    }
}

/// Four numbers joined by dots, each in canonical decimal.
pub open spec fn quad_text(o0: nat, o1: nat, o2: nat, o3: nat) -> Seq<char> {
    dec(o0) + seq!['.'] + dec(o1) + seq!['.'] + dec(o2) + seq!['.'] + dec(o3)
}

/// The dotted-quad spelling of `addr` (e.g. `8.8.8.8`): the only spelling
/// that std's `Ipv4Addr` parser accepts for it.
pub open spec fn ipv4_text(addr: u32) -> Seq<char> {
    quad_text(octet(addr, 0), octet(addr, 1), octet(addr, 2), octet(addr, 3))
}

/// `t[pos..e]` is the canonical spelling of an octet value `v`, and the digit
/// run ends there (at `hi` or at a non-digit).
pub open spec fn octet_at(t: Seq<char>, pos: int, hi: int, v: nat, e: int) -> bool {
    &&& 0 <= pos <= e <= hi <= t.len()
    &&& v <= 255
    &&& t.subrange(pos, e) == dec(v)
    &&& (e == hi || !is_digit(t[e]))
}

proof fn lemma_octet_at_unique(t: Seq<char>, pos: int, hi: int, v1: nat, e1: int, v2: nat, e2: int)
    requires
        octet_at(t, pos, hi, v1, e1),
        octet_at(t, pos, hi, v2, e2),
    ensures
        v1 == v2,
        e1 == e2,
{
    lemma_dec(v1);
    lemma_dec(v2);
    if e1 < e2 {
        assert(t.subrange(pos, e2)[e1 - pos] == t[e1]);
        assert(is_digit(dec(v2)[e1 - pos]));
    } else if e2 < e1 {
        assert(t.subrange(pos, e1)[e2 - pos] == t[e2]);
        assert(is_digit(dec(v1)[e2 - pos]));
    }
}

proof fn lemma_octets_bounded(addr: u32)
    ensures
        octet(addr, 0) <= 255,
        octet(addr, 1) <= 255,
        octet(addr, 2) <= 255,
        octet(addr, 3) <= 255,
{
}

pub(crate) proof fn lemma_octets_compose(o0: u32, o1: u32, o2: u32, o3: u32)
    requires
        o0 <= 255,
        o1 <= 255,
        o2 <= 255,
        o3 <= 255,
    ensures
        ({
            let a = (o0 * 16777216 + o1 * 65536 + o2 * 256 + o3) as u32;
            &&& o0 * 16777216 + o1 * 65536 + o2 * 256 + o3 <= u32::MAX
            &&& octet(a, 0) == o0
            &&& octet(a, 1) == o1
            &&& octet(a, 2) == o2
            &&& octet(a, 3) == o3
        }),
{
    let x: int = o0 * 16777216 + o1 * 65536 + o2 * 256 + o3;
    assert(x / 16777216 == o0 as int) by (nonlinear_arith)
        requires
            x == o0 * 16777216 + o1 * 65536 + o2 * 256 + o3,
            o1 <= 255,
            o2 <= 255,
            o3 <= 255,
    ;
    assert((x / 65536) % 256 == o1 as int) by (nonlinear_arith)
        requires
            x == o0 * 16777216 + o1 * 65536 + o2 * 256 + o3,
            o1 <= 255,
            o2 <= 255,
            o3 <= 255,
            0 <= o0 <= 255,
    ;
    assert((x / 256) % 256 == o2 as int) by (nonlinear_arith)
        requires
            x == o0 * 16777216 + o1 * 65536 + o2 * 256 + o3,
            o1 <= 255,
            o2 <= 255,
            o3 <= 255,
            0 <= o0 <= 255,
    ;
    assert(x % 256 == o3 as int) by (nonlinear_arith)
        requires
            x == o0 * 16777216 + o1 * 65536 + o2 * 256 + o3,
            o1 <= 255,
            o2 <= 255,
            o3 <= 255,
            0 <= o0 <= 255,
    ;
}

/// Where each octet of `ipv4_text(addr)` sits inside `t[lo..hi]`.
proof fn lemma_ipv4_text_layout(t: Seq<char>, lo: int, hi: int, addr: u32)
    requires
        0 <= lo <= hi <= t.len(),
        t.subrange(lo, hi) == ipv4_text(addr),
    ensures
        ({
            let e0 = lo + dec(octet(addr, 0)).len();
            let e1 = e0 + 1 + dec(octet(addr, 1)).len();
            let e2 = e1 + 1 + dec(octet(addr, 2)).len();
            &&& octet_at(t, lo, hi, octet(addr, 0), e0)
            &&& e0 < hi && t[e0] == '.'
            &&& octet_at(t, e0 + 1, hi, octet(addr, 1), e1)
            &&& e1 < hi && t[e1] == '.'
            &&& octet_at(t, e1 + 1, hi, octet(addr, 2), e2)
            &&& e2 < hi && t[e2] == '.'
            &&& octet_at(t, e2 + 1, hi, octet(addr, 3), hi)
        }),
{
    let d0 = dec(octet(addr, 0));
    let d1 = dec(octet(addr, 1));
    let d2 = dec(octet(addr, 2));
    let d3 = dec(octet(addr, 3));
    let s = t.subrange(lo, hi);
    let e0 = lo + d0.len();
    let e1 = e0 + 1 + d1.len();
    let e2 = e1 + 1 + d2.len();
    lemma_octets_bounded(addr);
    assert(s.len() == d0.len() + d1.len() + d2.len() + d3.len() + 3);
    assert(t.subrange(lo, e0) =~= d0) by {
        assert forall|i: int| 0 <= i < d0.len() implies t.subrange(lo, e0)[i] == d0[i] by {
            assert(t[lo + i] == s[i]);
        }
    }
    assert(t[e0] == s[e0 - lo]);
    assert(t.subrange(e0 + 1, e1) =~= d1) by {
        assert forall|i: int| 0 <= i < d1.len() implies t.subrange(e0 + 1, e1)[i] == d1[i] by {
            assert(t[e0 + 1 + i] == s[e0 + 1 + i - lo]);
        }
    }
    assert(t[e1] == s[e1 - lo]);
    assert(t.subrange(e1 + 1, e2) =~= d2) by {
        assert forall|i: int| 0 <= i < d2.len() implies t.subrange(e1 + 1, e2)[i] == d2[i] by {
            assert(t[e1 + 1 + i] == s[e1 + 1 + i - lo]);
        }
    }
    assert(t[e2] == s[e2 - lo]);
    assert(t.subrange(e2 + 1, hi) =~= d3) by {
        assert forall|i: int| 0 <= i < d3.len() implies t.subrange(e2 + 1, hi)[i] == d3[i] by {
            assert(t[e2 + 1 + i] == s[e2 + 1 + i - lo]);
        }
    }
}

/// Every character of a dotted quad is a decimal digit or a dot.
pub proof fn lemma_ipv4_text_chars(addr: u32)
    ensures
        forall|i: int|
            0 <= i < ipv4_text(addr).len() ==> is_digit(#[trigger] ipv4_text(addr)[i]) || ipv4_text(addr)[i]
                == '.',
{
    let d0 = dec(octet(addr, 0));
    let d1 = dec(octet(addr, 1));
    let d2 = dec(octet(addr, 2));
    let d3 = dec(octet(addr, 3));
    lemma_dec(octet(addr, 0));
    lemma_dec(octet(addr, 1));
    lemma_dec(octet(addr, 2));
    lemma_dec(octet(addr, 3));
    let t = ipv4_text(addr);
    assert(t =~= d0 + seq!['.'] + d1 + seq!['.'] + d2 + seq!['.'] + d3);
    assert forall|i: int| 0 <= i < t.len() implies is_digit(#[trigger] t[i]) || t[i] == '.' by {
        if i < d0.len() {
            assert(is_digit(d0[i]));
        } else if i == d0.len() {
        } else if i < d0.len() + 1 + d1.len() {
            assert(is_digit(d1[i - d0.len() - 1]));
        } else if i == d0.len() + 1 + d1.len() {
        } else if i < d0.len() + d1.len() + 2 + d2.len() {
            assert(is_digit(d2[i - d0.len() - d1.len() - 2]));
        } else if i == d0.len() + d1.len() + 2 + d2.len() {
        } else {
            assert(is_digit(d3[i - d0.len() - d1.len() - d2.len() - 3]));
        }
    }
}

/// A string spells `addr` exactly when its UTF-8 bytes, read as ASCII, do.
proof fn lemma_ascii_spelling(s: Seq<char>, addr: u32)
    ensures
        (s == ipv4_text(addr)) == (ascii_chars(encode_utf8(s)) == ipv4_text(addr)),
{
    let t = ipv4_text(addr);
    let b = encode_utf8(s);
    lemma_ipv4_text_chars(addr);
    assert(is_ascii_chars(t));
    is_ascii_chars_encode_utf8(t);
    if s == t {
        assert(ascii_chars(b) =~= t);
    }
    if ascii_chars(b) == t {
        assert(encode_utf8(t) =~= b) by {
            assert forall|i: int| 0 <= i < b.len() implies encode_utf8(t)[i] == b[i] by {
                assert(t[i] == b[i] as char);
            }
        }
        encode_utf8_decode_utf8(s);
        encode_utf8_decode_utf8(t);
    }
}

/// Whether `c` is an ASCII decimal digit.
pub fn is_ascii_digit(c: char) -> (r: bool)
    ensures
        r == is_digit(c),
{
    c >= '0' && c <= '9'
}

/// The characters that the bytes `b` stand for when read as ASCII (each byte
/// taken as the code point of the same value).
pub open spec fn ascii_chars(b: Seq<u8>) -> Seq<char> {
    b.map_values(|x: u8| x as char)
}

/// Reads one octet (1 to 3 digits, no superfluous leading zero, at most 255)
/// from the ASCII text `t[pos..hi]`, returning its value and where it ends.
fn read_octet(t: &[u8], pos: usize, hi: usize) -> (r: Option<(u32, usize)>)
    requires
        pos <= hi <= t@.len(),
    ensures
        r matches Some((v, e)) ==> octet_at(ascii_chars(t@), pos as int, hi as int, v as nat, e as int),
        r is None ==> forall|v: nat, e: int| !octet_at(ascii_chars(t@), pos as int, hi as int, v, e),
{
    let ghost tc = ascii_chars(t@);
    let mut e = pos;
    let mut v: u32 = 0;
    while e < hi && e - pos < 4 && is_ascii_digit(t[e] as char)
        invariant
            pos <= e <= hi <= t@.len(),
            tc == ascii_chars(t@),
            e - pos <= 4,
            all_digits(tc.subrange(pos as int, e as int)),
            v == digits_value(tc.subrange(pos as int, e as int)),
            v < 10000,
            e - pos == 0 ==> v == 0,
            e - pos <= 1 ==> v < 10,
            e - pos <= 2 ==> v < 100,
            e - pos <= 3 ==> v < 1000,
        decreases hi - e,
    {
        let ghost w = tc.subrange(pos as int, e as int);
        let c = t[e] as char;
        let d: u32 = if c == '0' { 0 } else if c == '1' { 1 } else if c == '2' { 2 } else if c
            == '3' { 3 } else if c == '4' { 4 } else if c == '5' { 5 } else if c == '6' { 6 } else if c
            == '7' { 7 } else if c == '8' { 8 } else { 9 };
        assert(d == crate::text::digit_value(c));
        v = v * 10 + d;
        e = e + 1;
        assert(tc.subrange(pos as int, e as int).drop_last() =~= w);
        assert(tc.subrange(pos as int, e as int) =~= w.push(c));
    }
    let ghost run = tc.subrange(pos as int, e as int);
    if e == pos || e - pos > 3 || v > 255 || (t[pos] as char == '0' && e - pos > 1) {
        proof {
            assert forall|v2: nat, e2: int| !octet_at(tc, pos as int, hi as int, v2, e2) by {
                if octet_at(tc, pos as int, hi as int, v2, e2) {
                    lemma_dec(v2);
                    let w2 = dec(v2);
                    if e < e2 {
                        assert(tc.subrange(pos as int, e2)[e - pos] == tc[e as int]);
                        assert(is_digit(w2[e - pos]));
                    } else if e2 < e {
                        assert(run[e2 - pos] == tc[e2]);
                    }
                    assert(run =~= w2);
                }
            }
        }
        return None;
    }
    proof {
        lemma_canonical_digits(run);
    }
    Some((v, e))
}

/// What a successful partial parse of `t[lo..hi]` must have found when the
/// text is in fact the spelling of `addr`: the same octets, ending at the same places.
proof fn lemma_parse_forced(
    t: Seq<char>,
    lo: int,
    hi: int,
    addr: u32,
    n: int,
    o0: nat,
    e0: int,
    o1: nat,
    e1: int,
    o2: nat,
    e2: int,
    o3: nat,
    e3: int,
)
    requires
        0 <= lo <= hi <= t.len(),
        t.subrange(lo, hi) == ipv4_text(addr),
        n > 0 ==> octet_at(t, lo, hi, o0, e0),
        n > 1 ==> e0 < hi && t[e0] == '.' && octet_at(t, e0 + 1, hi, o1, e1),
        n > 2 ==> e1 < hi && t[e1] == '.' && octet_at(t, e1 + 1, hi, o2, e2),
        n > 3 ==> e2 < hi && t[e2] == '.' && octet_at(t, e2 + 1, hi, o3, e3),
    ensures
        ({
            let f0 = lo + dec(octet(addr, 0)).len();
            let f1 = f0 + 1 + dec(octet(addr, 1)).len();
            let f2 = f1 + 1 + dec(octet(addr, 2)).len();
            &&& octet_at(t, lo, hi, octet(addr, 0), f0)
            &&& f0 < hi && t[f0] == '.'
            &&& octet_at(t, f0 + 1, hi, octet(addr, 1), f1)
            &&& f1 < hi && t[f1] == '.'
            &&& octet_at(t, f1 + 1, hi, octet(addr, 2), f2)
            &&& f2 < hi && t[f2] == '.'
            &&& octet_at(t, f2 + 1, hi, octet(addr, 3), hi)
            &&& n > 0 ==> e0 == f0
            &&& n > 1 ==> e1 == f1
            &&& n > 2 ==> e2 == f2
            &&& n > 3 ==> e3 == hi
        }),
{
    lemma_ipv4_text_layout(t, lo, hi, addr);
    let f0 = lo + dec(octet(addr, 0)).len();
    let f1 = f0 + 1 + dec(octet(addr, 1)).len();
    let f2 = f1 + 1 + dec(octet(addr, 2)).len();
    if n > 0 {
        lemma_octet_at_unique(t, lo, hi, o0, e0, octet(addr, 0), f0);
    }
    if n > 1 {
        lemma_octet_at_unique(t, e0 + 1, hi, o1, e1, octet(addr, 1), f1);
    }
    if n > 2 {
        lemma_octet_at_unique(t, e1 + 1, hi, o2, e2, octet(addr, 2), f2);
    }
    if n > 3 {
        lemma_octet_at_unique(t, e2 + 1, hi, o3, e3, octet(addr, 3), hi);
    }
}

/// Parses the ASCII text `t[lo..hi]` as a dotted-quad IPv4 address.
pub fn parse_ipv4_ascii(t: &[u8], lo: usize, hi: usize) -> (r: Option<u32>)
    requires
        lo <= hi <= t@.len(),
    ensures
        r matches Some(a) ==> ascii_chars(t@).subrange(lo as int, hi as int) == ipv4_text(a),
        r is None ==> forall|a: u32| ascii_chars(t@).subrange(lo as int, hi as int) != ipv4_text(a),
{
    let ghost s = ascii_chars(t@).subrange(lo as int, hi as int);
    let (o0, e0) = match read_octet(t, lo, hi) {
        Some(p) => p,
        None => {
            proof {
                assert forall|a: u32| s != ipv4_text(a) by {
                    if s == ipv4_text(a) {
                        lemma_parse_forced(ascii_chars(t@), lo as int, hi as int, a, 0, 0, 0, 0, 0, 0, 0, 0, 0);
                    }
                }
            }
            return None;
        },
    };
    if e0 >= hi || t[e0] as char != '.' {
        proof {
            assert forall|a: u32| s != ipv4_text(a) by {
                if s == ipv4_text(a) {
                    lemma_parse_forced(ascii_chars(t@), lo as int, hi as int, a, 1, o0 as nat, e0 as int, 0, 0, 0, 0, 0, 0);
                }
            }
        }
        return None;
    }
    let (o1, e1) = match read_octet(t, e0 + 1, hi) {
        Some(p) => p,
        None => {
            proof {
                assert forall|a: u32| s != ipv4_text(a) by {
                    if s == ipv4_text(a) {
                        lemma_parse_forced(ascii_chars(t@), lo as int, hi as int, a, 1, o0 as nat, e0 as int, 0, 0, 0, 0, 0, 0);
                    }
                }
            }
            return None;
        },
    };
    if e1 >= hi || t[e1] as char != '.' {
        proof {
            assert forall|a: u32| s != ipv4_text(a) by {
                if s == ipv4_text(a) {
                    lemma_parse_forced(ascii_chars(t@), lo as int, hi as int, a, 2, o0 as nat, e0 as int, o1 as nat, e1 as int, 0, 0, 0, 0);
                }
            }
        }
        return None;
    }
    let (o2, e2) = match read_octet(t, e1 + 1, hi) {
        Some(p) => p,
        None => {
            proof {
                assert forall|a: u32| s != ipv4_text(a) by {
                    if s == ipv4_text(a) {
                        lemma_parse_forced(ascii_chars(t@), lo as int, hi as int, a, 2, o0 as nat, e0 as int, o1 as nat, e1 as int, 0, 0, 0, 0);
                    }
                }
            }
            return None;
        },
    };
    if e2 >= hi || t[e2] as char != '.' {
        proof {
            assert forall|a: u32| s != ipv4_text(a) by {
                if s == ipv4_text(a) {
                    lemma_parse_forced(ascii_chars(t@), lo as int, hi as int, a, 3, o0 as nat, e0 as int, o1 as nat, e1 as int, o2 as nat, e2 as int, 0, 0);
                }
            }
        }
        return None;
    }
    let (o3, e3) = match read_octet(t, e2 + 1, hi) {
        Some(p) => p,
        None => {
            proof {
                assert forall|a: u32| s != ipv4_text(a) by {
                    if s == ipv4_text(a) {
                        lemma_parse_forced(ascii_chars(t@), lo as int, hi as int, a, 3, o0 as nat, e0 as int, o1 as nat, e1 as int, o2 as nat, e2 as int, 0, 0);
                    }
                }
            }
            return None;
        },
    };
    if e3 != hi {
        proof {
            assert forall|a: u32| s != ipv4_text(a) by {
                if s == ipv4_text(a) {
                    lemma_parse_forced(ascii_chars(t@), lo as int, hi as int, a, 4, o0 as nat, e0 as int, o1 as nat, e1 as int, o2 as nat, e2 as int, o3 as nat, e3 as int);
                }
            }
        }
        return None;
    }
    proof {
        lemma_octets_compose(o0, o1, o2, o3);
        let d0 = ascii_chars(t@).subrange(lo as int, e0 as int);
        let d1 = ascii_chars(t@).subrange(e0 + 1, e1 as int);
        let d2 = ascii_chars(t@).subrange(e1 + 1, e2 as int);
        let d3 = ascii_chars(t@).subrange(e2 + 1, hi as int);
        assert(s =~= d0 + seq!['.'] + d1 + seq!['.'] + d2 + seq!['.'] + d3);
    }
    Some(o0 * 16777216 + o1 * 65536 + o2 * 256 + o3)
}

/// Parses a dotted-quad IPv4 address, as std's `Ipv4Addr` parser does,
/// reading the string's bytes in place.
pub fn parse_ipv4(s: &str) -> (r: Option<u32>)
    ensures
        r matches Some(a) ==> s@ == ipv4_text(a),
        r is None ==> forall|a: u32| s@ != ipv4_text(a),
{
    let b = s.as_bytes();
    let r = parse_ipv4_ascii(b, 0, b.len());
    proof {
        assert(ascii_chars(b@).subrange(0, b@.len() as int) =~= ascii_chars(b@));
        match r {
            Some(a) => lemma_ascii_spelling(s@, a),
            None => {
                assert forall|a: u32| s@ != ipv4_text(a) by {
                    lemma_ascii_spelling(s@, a);
                }
            },
        }
    }
    r
}

/// Formats `addr` as a dotted quad (as std's `Ipv4Addr` displays it).
pub fn ipv4_to_string(addr: u32) -> (s: String)
    ensures
        s@ == ipv4_text(addr),
{
    let mut s = String::new();
    push_decimal(&mut s, (addr / 16777216) as u64);
    push_char(&mut s, '.');
    push_decimal(&mut s, ((addr / 65536) % 256) as u64);
    push_char(&mut s, '.');
    push_decimal(&mut s, ((addr / 256) % 256) as u64);
    push_char(&mut s, '.');
    push_decimal(&mut s, (addr % 256) as u64);
    assert(s@ =~= ipv4_text(addr));
    s
}

proof fn lemma_octets_recompose(a: u32)
    ensures
        a as int == octet(a, 0) * 16777216 + octet(a, 1) * 65536 + octet(a, 2) * 256 + octet(a, 3),
{
    let x = a as int;
    assert(x == (x / 16777216) * 16777216 + ((x / 65536) % 256) * 65536 + ((x / 256) % 256) * 256 + x % 256)
        by (nonlinear_arith)
        requires
            0 <= x < 4294967296,
    ;
}

/// Printing then parsing gives the address back: two addresses with the same
/// dotted-quad spelling are the same address.
pub proof fn law_ipv4_text_injective(a: u32, b: u32)
    requires
        ipv4_text(a) == ipv4_text(b),
    ensures
        a == b,
{
    let t = ipv4_text(a);
    let hi = t.len() as int;
    assert(t.subrange(0, hi) =~= t);
    lemma_ipv4_text_layout(t, 0, hi, a);
    lemma_ipv4_text_layout(t, 0, hi, b);
    let fa0 = dec(octet(a, 0)).len() as int;
    let fb0 = dec(octet(b, 0)).len() as int;
    lemma_octet_at_unique(t, 0, hi, octet(a, 0), fa0, octet(b, 0), fb0);
    let fa1 = fa0 + 1 + dec(octet(a, 1)).len();
    let fb1 = fb0 + 1 + dec(octet(b, 1)).len();
    lemma_octet_at_unique(t, fa0 + 1, hi, octet(a, 1), fa1, octet(b, 1), fb1);
    let fa2 = fa1 + 1 + dec(octet(a, 2)).len();
    let fb2 = fb1 + 1 + dec(octet(b, 2)).len();
    lemma_octet_at_unique(t, fa1 + 1, hi, octet(a, 2), fa2, octet(b, 2), fb2);
    lemma_octet_at_unique(t, fa2 + 1, hi, octet(a, 3), hi, octet(b, 3), hi);
    lemma_octets_recompose(a);
    lemma_octets_recompose(b);
}

} // verus!
