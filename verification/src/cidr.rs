//! CIDR notation (`a.b.c.d/prefix`) expanded to an inclusive address range,
//! without materializing the addresses in between.

use vstd::prelude::*;
use vstd::arithmetic::power2::pow2;

use crate::error::GeoError;
use crate::ipv4::{ascii_chars, ipv4_text, lemma_ipv4_text_chars, parse_ipv4_ascii};
use crate::text::{all_digits, chars_of, dec, digit_value, digits_value, is_digit, lemma_dec};

verus! {

/// The value of a prefix length written as std's `u32` parser accepts it:
/// an optional `+` followed by at least one ASCII digit.
pub open spec fn prefix_value(p: Seq<char>) -> Option<nat> {
    let d = if p.len() > 0 && p[0] == '+' { p.drop_first() } else { p };
    if d.len() > 0 && all_digits(d) {
        Some(digits_value(d))
    } else {
        None
    }
}

/// `t` is `addr` in dotted-quad form, a `/`, and a prefix length spelling `p`.
pub open spec fn cidr_text(t: Seq<char>, addr: u32, p: nat) -> bool {
    let n = ipv4_text(addr).len() as int;
    &&& n < t.len()
    &&& t.subrange(0, n) == ipv4_text(addr)
    &&& t[n] == '/'
    &&& prefix_value(t.subrange(n + 1, t.len() as int)) == Some(p)
}

/// The first address of the `/p` block containing `addr`.
pub open spec fn block_start(addr: u32, p: nat) -> int {
    addr - (addr as int) % (pow2((32 - p) as nat) as int)
}

/// The last address of the `/p` block containing `addr`.
pub open spec fn block_end(addr: u32, p: nat) -> int {
    block_start(addr, p) + pow2((32 - p) as nat) - 1
}

proof fn lemma_ipv4_text_no_slash(addr: u32)
    ensures
        forall|i: int| 0 <= i < ipv4_text(addr).len() ==> #[trigger] ipv4_text(addr)[i] != '/',
{
    lemma_ipv4_text_chars(addr);
}

/// The byte that stands for `c` in ASCII text: `c` itself when it is ASCII, and
/// 0xFF (which spells no digit, dot or slash) otherwise.
pub open spec fn ascii_byte(c: char) -> u8 {
    if c <= '\u{7f}' { c as u8 } else { 255u8 }
}

fn to_ascii_byte(c: char) -> (b: u8)
    ensures
        b == ascii_byte(c),
{
    if c <= '\u{7f}' { c as u8 } else { 255u8 }
}

proof fn lemma_ascii_byte(c: char)
    ensures
        c <= '\u{7f}' ==> (ascii_byte(c) as char) == c,
        c > '\u{7f}' ==> (ascii_byte(c) as char) as u32 == 255,
{
}

/// Text spells `addr` exactly when its ASCII stand-in bytes do.
proof fn lemma_ascii_stand_in(t: Seq<char>, b: Seq<u8>, addr: u32)
    requires
        b.len() == t.len(),
        forall|k: int| 0 <= k < t.len() ==> #[trigger] b[k] == ascii_byte(t[k]),
    ensures
        (t == ipv4_text(addr)) == (ascii_chars(b) == ipv4_text(addr)),
{
    let w = ipv4_text(addr);
    lemma_ipv4_text_chars(addr);
    if t == w {
        assert forall|k: int| 0 <= k < b.len() implies ascii_chars(b)[k] == w[k] by {
            assert(is_digit(w[k]) || w[k] == '.');
            assert(b[k] == ascii_byte(t[k]));
        }
        assert(ascii_chars(b) =~= w);
    }
    if ascii_chars(b) == w {
        assert forall|k: int| 0 <= k < t.len() implies t[k] == w[k] by {
            assert(is_digit(w[k]) || w[k] == '.');
            assert(b[k] == ascii_byte(t[k]));
            assert(ascii_chars(b)[k] == w[k]);
            assert(ascii_chars(b)[k] == b[k] as char);
            lemma_ascii_byte(t[k]);
        }
        assert(t =~= w);
    }
}

proof fn lemma_block_mask(a: u32, h: u32)
    requires
        h < 32,
    ensures
        (a & (!0u32 << h)) as int == a - (a as int) % (pow2(h as nat) as int),
        ((a & (!0u32 << h)) | !(!0u32 << h)) as int == (a & (!0u32 << h)) as int + pow2(h as nat) - 1,
{
    let m: u32 = !0u32 << h;
    vstd::bits::lemma_u32_pow2_no_overflow(h as nat);
    vstd::bits::lemma_u32_shl_is_mul(1, h);
    assert(!m == (1u32 << h) - 1) by (bit_vector)
        requires
            m == !0u32 << h,
            h < 32,
    ;
    assert((1u32 << h) as int == pow2(h as nat));
    assert(vstd::bits::low_bits_mask(h as nat) == pow2(h as nat) - 1);
    vstd::bits::lemma_u32_low_bits_mask_is_mod(a, h as nat);
    assert(a & (vstd::bits::low_bits_mask(h as nat) as u32) == a & !m);
    assert(a & m == a - (a & !m)) by (bit_vector);
    assert((a & m) | !m == (a & m) + !m) by (bit_vector);
}

/// Reads a prefix length from `t[lo..hi]`: an optional `+` and decimal digits
/// spelling at most 32.
fn parse_prefix(t: &Vec<char>, lo: usize, hi: usize) -> (r: Option<u32>)
    requires
        lo <= hi <= t@.len(),
    ensures
        r matches Some(v) ==> v <= 32 && prefix_value(t@.subrange(lo as int, hi as int)) == Some(v as nat),
        r is None ==> !(prefix_value(t@.subrange(lo as int, hi as int)) matches Some(v) && v <= 32),
{
    let ghost p = t@.subrange(lo as int, hi as int);
    let mut i = lo;
    if i < hi && t[i] == '+' {
        i = i + 1;
    }
    let start = i;
    let ghost d = t@.subrange(start as int, hi as int);
    assert(d =~= (if p.len() > 0 && p[0] == '+' { p.drop_first() } else { p }));
    if i == hi {
        return None;
    }
    let mut v: u32 = 0;
    let mut big = false;
    while i < hi
        invariant
            start <= i <= hi <= t@.len(),
            d == t@.subrange(start as int, hi as int),
            p == t@.subrange(lo as int, hi as int),
            d == (if p.len() > 0 && p[0] == '+' { p.drop_first() } else { p }),
            all_digits(t@.subrange(start as int, i as int)),
            !big ==> v == digits_value(t@.subrange(start as int, i as int)) && v <= 32,
            big ==> digits_value(t@.subrange(start as int, i as int)) > 32,
        decreases hi - i,
    {
        let c = t[i];
        if !(c >= '0' && c <= '9') {
            proof {
                assert(d[i - start] == c);
                assert(!is_digit(d[i - start]));
            }
            return None;
        }
        let ghost w = t@.subrange(start as int, i as int);
        let dig: u32 = if c == '0' { 0 } else if c == '1' { 1 } else if c == '2' { 2 } else if c
            == '3' { 3 } else if c == '4' { 4 } else if c == '5' { 5 } else if c == '6' { 6 } else if c
            == '7' { 7 } else if c == '8' { 8 } else { 9 };
        assert(dig == digit_value(c));
        if !big {
            v = v * 10 + dig;
            if v > 32 {
                big = true;
            }
        }
        i = i + 1;
        proof {
            assert(t@.subrange(start as int, i as int).drop_last() =~= w);
            assert(t@.subrange(start as int, i as int) =~= w.push(c));
        }
    }
    assert(t@.subrange(start as int, hi as int) == d);
    if big {
        return None;
    }
    Some(v)
}

/// Parses `a.b.c.d/prefix` into the inclusive `[start, end]` pair of host
/// addresses of that block.
pub fn parse_cidr(cidr: &str) -> (r: Result<(u32, u32), GeoError>)
    ensures
        match r {
            Ok((start, end)) => exists|a: u32, p: nat|
                #![trigger cidr_text(cidr@, a, p)]
                p <= 32 && cidr_text(cidr@, a, p) && start == block_start(a, p) && end == block_end(a, p),
            Err(e) => (forall|a: u32, p: nat| p <= 32 ==> !#[trigger] cidr_text(cidr@, a, p)) && (e matches GeoError::InvalidCidr(s) && s@ == cidr@),
        },
{
    let t = chars_of(cidr);
    let mut i: usize = 0;
    while i < t.len() && t[i] != '/'
        invariant
            i <= t@.len(),
            forall|j: int| 0 <= j < i ==> t@[j] != '/',
        decreases t@.len() - i,
    {
        i = i + 1;
    }
    if i == t.len() {
        proof {
            assert forall|a: u32, p: nat| p <= 32 implies !#[trigger] cidr_text(cidr@, a, p) by {
                if cidr_text(cidr@, a, p) {
                    let n = ipv4_text(a).len() as int;
                    assert(t@[n] == '/');
                }
            }
        }
        return Err(GeoError::InvalidCidr(String::from_str(cidr)));
    }
    proof {
        assert forall|a: u32, p: nat| #[trigger] cidr_text(cidr@, a, p) implies ipv4_text(a).len() == i by {
            let n = ipv4_text(a).len() as int;
            lemma_ipv4_text_no_slash(a);
            if n < i {
                assert(t@[n] == '/');
            } else if n > i {
                assert(t@.subrange(0, n)[i as int] == t@[i as int]);
            }
        }
    }
    let mut ip_bytes: Vec<u8> = Vec::with_capacity(i);
    let mut j: usize = 0;
    while j < i
        invariant
            j <= i <= t@.len(),
            ip_bytes@.len() == j,
            forall|k: int| 0 <= k < j ==> #[trigger] ip_bytes@[k] == ascii_byte(t@[k]),
        decreases i - j,
    {
        ip_bytes.push(to_ascii_byte(t[j]));
        j = j + 1;
    }
    proof {
        assert forall|a: u32| (t@.subrange(0, i as int) == ipv4_text(a)) == (ascii_chars(ip_bytes@).subrange(0, i as int) == ipv4_text(a)) by {
            assert(ascii_chars(ip_bytes@).subrange(0, i as int) =~= ascii_chars(ip_bytes@));
            lemma_ascii_stand_in(t@.subrange(0, i as int), ip_bytes@, a);
        }
    }
    let ip = match parse_ipv4_ascii(ip_bytes.as_slice(), 0, i) {
        Some(a) => a,
        None => {
            proof {
                assert forall|a: u32, p: nat| p <= 32 implies !#[trigger] cidr_text(cidr@, a, p) by {
                    if cidr_text(cidr@, a, p) {
                        assert(t@.subrange(0, i as int) == ipv4_text(a));
                    }
                }
            }
            return Err(GeoError::InvalidCidr(String::from_str(cidr)));
        },
    };
    let prefix = match parse_prefix(&t, i + 1, t.len()) {
        Some(p) => p,
        None => {
            proof {
                assert forall|a: u32, p: nat| p <= 32 implies !#[trigger] cidr_text(cidr@, a, p) by {
                    if cidr_text(cidr@, a, p) {
                        assert(ipv4_text(a).len() == i);
                    }
                }
            }
            return Err(GeoError::InvalidCidr(String::from_str(cidr)));
        },
    };
    let host_bits: u32 = 32 - prefix;
    let mask: u32 = if host_bits == 32 { 0 } else { !0u32 << host_bits };
    let start = ip & mask;
    let end = start | !mask;
    proof {
        assert(cidr_text(cidr@, ip, prefix as nat));
        if host_bits == 32 {
            assert(pow2(32) == 4294967296) by {
                vstd::arithmetic::power2::lemma2_to64();
            }
            assert(ip & 0 == 0) by (bit_vector);
            assert(start | !0u32 == 0xffffffffu32) by (bit_vector)
                requires
                    start == 0,
            ;
            assert((32 - (prefix as nat)) as nat == 32);
            assert((ip as int) % 4294967296 == ip as int);
            assert(start == block_start(ip, prefix as nat));
        } else {
            lemma_block_mask(ip, host_bits);
            assert((32 - (prefix as nat)) as nat == host_bits as nat);
            assert(start == block_start(ip, prefix as nat));
        }
        assert(start == block_start(ip, prefix as nat));
        assert(end == block_end(ip, prefix as nat));
    }
    Ok((start, end))
}

} // verus!
