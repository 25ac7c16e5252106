//! Serializing a country table and a set of IP ranges into the
//! `geolite.bin` binary format read by [`crate::database::GeoDatabase`].

use vstd::prelude::*;
use vstd::utf8::encode_utf8;

use crate::codec::{bytes16, bytes32, bytes64, put_u16, put_u32, put_u64};
use crate::error::GeoError;
use crate::models::{IpRange, HEADER_SIZE, MAGIC, UNKNOWN_COUNTRY_NAME, VERSION};
use crate::text::{dec, push_decimal, string_views};

verus! {

/// The ranges are in non-decreasing order of `start`.
pub open spec fn sorted_by_start(rs: Seq<IpRange>) -> bool {
    forall|i: int, j: int| 0 <= i < j < rs.len() ==> #[trigger] rs[i].start <= #[trigger] rs[j].start
}

/// The UTF-8 bytes of a name.
pub open spec fn name_bytes(n: Seq<char>) -> Seq<u8> {
    encode_utf8(n)
}

/// The country table: each name as a two-byte length and its UTF-8 bytes.
pub open spec fn country_entries(names: Seq<Seq<char>>) -> Seq<u8>
    decreases names.len(),
{
    if names.len() == 0 {
        Seq::empty()
    } else {
        country_entries(names.drop_last()) + bytes16(name_bytes(names.last()).len() as u16)
            + name_bytes(names.last())
    }
}

/// The ten bytes of one range record.
pub open spec fn record_bytes(r: IpRange) -> Seq<u8> {
    bytes32(r.start) + bytes32(r.end) + bytes16(r.country_index)
}

/// The range table: each record in order.
pub open spec fn range_entries(rs: Seq<IpRange>) -> Seq<u8>
    decreases rs.len(),
{
    if rs.len() == 0 {
        Seq::empty()
    } else {
        range_entries(rs.drop_last()) + record_bytes(rs.last())
    }
}

/// The header of a database with these names and ranges.
pub open spec fn header_bytes(names: Seq<Seq<char>>, rs: Seq<IpRange>) -> Seq<u8> {
    MAGIC@ + bytes32(VERSION) + bytes32(names.len() as u32) + bytes32(rs.len() as u32) + bytes64(
        (HEADER_SIZE + country_entries(names).len()) as u64,
    )
}

/// The complete image of a database with these names and (already ordered) ranges.
pub open spec fn database_bytes(names: Seq<Seq<char>>, rs: Seq<IpRange>) -> Seq<u8> {
    header_bytes(names, rs) + country_entries(names) + range_entries(rs)
}

/// A range record that names a country index missing from a table of `n` names.
pub open spec fn bad_index(r: IpRange, n: int) -> bool {
    r.country_index >= n
}

/// A name whose UTF-8 bytes do not fit a two-byte length.
pub open spec fn too_long(n: Seq<char>) -> bool {
    name_bytes(n).len() > 65535
}

/// Why a country table and ranges cannot be written.
pub enum WriteFault {
    /// The table does not start with the reserved "Unknown" entry.
    MissingUnknown,
    /// More names than a `u32` can count.
    TooManyCountries,
    /// More ranges than a `u32` can count.
    TooManyRanges,
    /// The first range (by position) naming a missing country index.
    BadIndex(int),
    /// The first name (by position) that is too long.
    NameTooLong(int),
}

/// The first position in `rs` whose country index is out of range, if any.
pub open spec fn first_bad_index(rs: Seq<IpRange>, n: int) -> int {
    choose|i: int| 0 <= i < rs.len() && bad_index(rs[i], n) && forall|j: int| 0 <= j < i ==> !bad_index(#[trigger] rs[j], n)
}

/// The first position in `names` holding a name that is too long, if any.
pub open spec fn first_too_long(names: Seq<Seq<char>>) -> int {
    choose|i: int| 0 <= i < names.len() && too_long(names[i]) && forall|j: int| 0 <= j < i ==> !too_long(#[trigger] names[j])
}

/// The validations made before anything is written, in the order they are made.
pub open spec fn write_fault(names: Seq<Seq<char>>, rs: Seq<IpRange>) -> Option<WriteFault> {
    if names.len() == 0 || names[0] != UNKNOWN_COUNTRY_NAME@ {
        Some(WriteFault::MissingUnknown)
    } else if names.len() > u32::MAX {
        Some(WriteFault::TooManyCountries)
    } else if rs.len() > u32::MAX {
        Some(WriteFault::TooManyRanges)
    } else if exists|i: int| 0 <= i < rs.len() && bad_index(#[trigger] rs[i], names.len() as int) {
        Some(WriteFault::BadIndex(first_bad_index(rs, names.len() as int)))
    } else if exists|i: int| 0 <= i < names.len() && too_long(#[trigger] names[i]) {
        Some(WriteFault::NameTooLong(first_too_long(names)))
    } else {
        None
    }
}

/// The message of the `CorruptDatabase` error for a write fault.
pub open spec fn write_fault_message(names: Seq<Seq<char>>, rs: Seq<IpRange>, f: WriteFault) -> Seq<char> {
    match f {
        WriteFault::MissingUnknown => "country table must start with the reserved \"Unknown\" entry at index 0"@,
        WriteFault::TooManyCountries => "too many countries to index"@,
        WriteFault::TooManyRanges => "too many ranges to index"@,
        WriteFault::BadIndex(i) => "range ["@ + dec(rs[i].start as nat) + ", "@ + dec(rs[i].end as nat)
            + "] references country index "@ + dec(rs[i].country_index as nat)
            + ", but the country table only has "@ + dec(names.len()) + " entries"@,
        WriteFault::NameTooLong(i) => "country name '"@ + names[i] + "' is longer than 65535 bytes"@,
    }
}

/// The ranges in `rs` that start at `s`, in their order in `rs`.
pub open spec fn starting_at(rs: Seq<IpRange>, s: u32) -> Seq<IpRange> {
    rs.filter(|r: IpRange| r.start == s)
}

/// `slice::sort_by_key` keyed on `start`, a stable sort: afterwards the
/// vector holds the same ranges, in non-decreasing order of `start`, and the
/// ranges that share a start keep their relative order.
#[verifier::external_body]
pub(crate) fn sort_by_start(v: &mut Vec<IpRange>)
    ensures
        final(v)@.to_multiset() == old(v)@.to_multiset(),
        sorted_by_start(final(v)@),
        forall|s: u32| #[trigger] starting_at(final(v)@, s) == starting_at(old(v)@, s),
{
    v.sort_by_key(|r| r.start);
}

/// Appends `bytes` to `out`.
fn push_bytes(out: &mut Vec<u8>, bytes: &[u8])
    ensures
        final(out)@ == old(out)@ + bytes@,
{
    let ghost start = out@;
    let mut i: usize = 0;
    while i < bytes.len()
        invariant
            i <= bytes@.len(),
            out@ == start + bytes@.subrange(0, i as int),
        decreases bytes@.len() - i,
    {
        out.push(bytes[i]);
        i = i + 1;
        assert(out@ =~= start + bytes@.subrange(0, i as int));
    }
    assert(bytes@.subrange(0, bytes@.len() as int) =~= bytes@);
}

proof fn lemma_country_entries_len(names: Seq<Seq<char>>)
    requires
        forall|j: int| 0 <= j < names.len() ==> !too_long(#[trigger] names[j]),
    ensures
        country_entries(names).len() <= 65537 * names.len(),
    decreases names.len(),
{
    if names.len() > 0 {
        let p = names.drop_last();
        assert forall|j: int| 0 <= j < p.len() implies !too_long(#[trigger] p[j]) by {
            assert(p[j] == names[j]);
        }
        lemma_country_entries_len(p);
        assert(!too_long(names[names.len() - 1]));
    }
}

/// Serializes a country table and a set of IP ranges into the binary format.
///
/// `countries[0]` must be the reserved "Unknown" entry and every range's
/// `country_index` must index `countries`. The ranges need not be sorted:
/// they are written in order of `start`.
pub fn encode_database(countries: &[String], ranges: &[IpRange]) -> (r: Result<Vec<u8>, GeoError>)
    ensures
        match write_fault(string_views(countries@), ranges@) {
            Some(f) => r matches Err(e) && (e matches GeoError::CorruptDatabase(m) && m@ == write_fault_message(
                string_views(countries@),
                ranges@,
                f,
            )),
            None => r matches Ok(bytes) && exists|sorted: Seq<IpRange>|
                sorted.to_multiset() == ranges@.to_multiset() && sorted_by_start(sorted) && (forall|s: u32|
                    #[trigger] starting_at(sorted, s) == starting_at(ranges@, s)) && bytes@
                    == database_bytes(string_views(countries@), sorted),
        },
{
    let ghost names = string_views(countries@);
    let ghost rs = ranges@;
    let unknown = String::from_str(UNKNOWN_COUNTRY_NAME);
    if countries.len() == 0 || !(countries[0] == unknown) {
        let msg = String::from_str("country table must start with the reserved \"Unknown\" entry at index 0");
        return Err(GeoError::CorruptDatabase(msg));
    }
    assert(names[0] == UNKNOWN_COUNTRY_NAME@);
    if countries.len() > 4294967295 {
        return Err(GeoError::CorruptDatabase(String::from_str("too many countries to index")));
    }
    if ranges.len() > 4294967295 {
        return Err(GeoError::CorruptDatabase(String::from_str("too many ranges to index")));
    }
    let mut i: usize = 0;
    while i < ranges.len()
        invariant
            i <= rs.len(),
            rs == ranges@,
            names == string_views(countries@),
            forall|j: int| 0 <= j < i ==> !bad_index(#[trigger] rs[j], names.len() as int),
            names.len() > 0 && names[0] == UNKNOWN_COUNTRY_NAME@,
            names.len() <= u32::MAX,
            rs.len() <= u32::MAX,
        decreases rs.len() - i,
    {
        let range = ranges[i];
        if range.country_index as usize >= countries.len() {
            let mut msg = String::from_str("range [");
            push_decimal(&mut msg, range.start as u64);
            msg.append(", ");
            push_decimal(&mut msg, range.end as u64);
            msg.append("] references country index ");
            push_decimal(&mut msg, range.country_index as u64);
            msg.append(", but the country table only has ");
            push_decimal(&mut msg, countries.len() as u64);
            msg.append(" entries");
            proof {
                let n = names.len() as int;
                assert(bad_index(rs[i as int], n) && forall|j: int| 0 <= j < i ==> !bad_index(#[trigger] rs[j], n));
                assert(exists|c: int| 0 <= c < rs.len() && bad_index(rs[c], n) && forall|j: int| 0 <= j < c ==> !bad_index(#[trigger] rs[j], n));
                let c = first_bad_index(rs, names.len() as int);
                assert(0 <= c < rs.len() && bad_index(rs[c], names.len() as int) && forall|j: int|
                    0 <= j < c ==> !bad_index(#[trigger] rs[j], names.len() as int));
                if c < i {
                } else if c > i {
                    assert(!bad_index(rs[i as int], names.len() as int));
                }
                assert(c == i);
                assert(write_fault(names, rs) == Some(WriteFault::BadIndex(i as int)));
                assert(msg@ =~= write_fault_message(names, rs, WriteFault::BadIndex(i as int)));
            }
            return Err(GeoError::CorruptDatabase(msg));
        }
        i = i + 1;
    }

    let mut sorted: Vec<IpRange> = Vec::new();
    let mut i: usize = 0;
    while i < ranges.len()
        invariant
            i <= rs.len(),
            rs == ranges@,
            sorted@ == rs.subrange(0, i as int),
        decreases rs.len() - i,
    {
        sorted.push(ranges[i]);
        i = i + 1;
        assert(sorted@ =~= rs.subrange(0, i as int));
    }
    assert(rs.subrange(0, rs.len() as int) =~= rs);
    sort_by_start(&mut sorted);
    proof {
        broadcast use vstd::seq_lib::group_to_multiset_ensures;
        assert(sorted@.len() == sorted@.to_multiset().len());
        assert(rs.len() == rs.to_multiset().len());
    }

    let mut country_bytes_len: u64 = 0;
    let mut k: usize = 0;
    while k < countries.len()
        invariant
            k <= names.len(),
            names.len() <= 4294967295,
            names == string_views(countries@),
            country_bytes_len == country_entries(names.subrange(0, k as int)).len(),
            country_bytes_len <= 65537 * k,
            forall|j: int| 0 <= j < k ==> !too_long(#[trigger] names[j]),
            names.len() > 0 && names[0] == UNKNOWN_COUNTRY_NAME@,
            rs.len() <= u32::MAX,
            rs == ranges@,
            !(exists|i: int| 0 <= i < rs.len() && bad_index(#[trigger] rs[i], names.len() as int)),
        decreases names.len() - k,
    {
        let name = countries[k].as_str();
        let name_len = name.as_bytes().len();
        if name_len > 65535 {
            let mut msg = String::from_str("country name '");
            msg.append(name);
            msg.append("' is longer than 65535 bytes");
            proof {
                assert(too_long(names[k as int]) && forall|j: int| 0 <= j < k ==> !too_long(#[trigger] names[j]));
                assert(exists|c: int| 0 <= c < names.len() && too_long(names[c]) && forall|j: int| 0 <= j < c ==> !too_long(#[trigger] names[j]));
                let c = first_too_long(names);
                assert(0 <= c < names.len() && too_long(names[c]) && forall|j: int|
                    0 <= j < c ==> !too_long(#[trigger] names[j]));
                if c < k {
                } else if c > k {
                    assert(!too_long(names[k as int]));
                }
                assert(c == k);
                assert(write_fault(names, rs) == Some(WriteFault::NameTooLong(k as int)));
                assert(msg@ =~= write_fault_message(names, rs, WriteFault::NameTooLong(k as int)));
            }
            return Err(GeoError::CorruptDatabase(msg));
        }
        proof {
            let p = names.subrange(0, k as int);
            let q = names.subrange(0, k + 1);
            assert(q.drop_last() =~= p);
            assert(q.last() == names[k as int]);
            assert(name@ == names[k as int]);
            assert(!too_long(names[k as int]));
            assert forall|j: int| 0 <= j < p.len() implies !too_long(#[trigger] p[j]) by {
                assert(p[j] == names[j]);
            }
            lemma_country_entries_len(p);
        }
        country_bytes_len = country_bytes_len + 2 + name_len as u64;
        k = k + 1;
    }
    assert(names.subrange(0, names.len() as int) =~= names);
    assert(!(exists|i: int| 0 <= i < rs.len() && bad_index(#[trigger] rs[i], names.len() as int)));
    assert(!(exists|i: int| 0 <= i < names.len() && too_long(#[trigger] names[i])));
    assert(country_bytes_len <= 65537 * 4294967295) by (nonlinear_arith)
        requires
            country_bytes_len <= 65537 * k,
            k <= 4294967295,
    ;
    let range_table_offset: u64 = HEADER_SIZE as u64 + country_bytes_len;

    let mut out: Vec<u8> = Vec::new();
    let magic: [u8; 4] = MAGIC;
    push_bytes(&mut out, magic.as_slice());
    put_u32(&mut out, VERSION);
    put_u32(&mut out, countries.len() as u32);
    put_u32(&mut out, sorted.len() as u32);
    put_u64(&mut out, range_table_offset);
    let ghost ss = sorted@;
    assert(out@ == header_bytes(names, ss));

    let mut k: usize = 0;
    while k < countries.len()
        invariant
            k <= names.len(),
            names == string_views(countries@),
            forall|j: int| 0 <= j < names.len() ==> !too_long(#[trigger] names[j]),
            out@ == header_bytes(names, ss) + country_entries(names.subrange(0, k as int)),
        decreases names.len() - k,
    {
        let name = countries[k].as_str();
        let bytes = name.as_bytes();
        proof {
            assert(!too_long(names[k as int]));
        }
        put_u16(&mut out, bytes.len() as u16);
        push_bytes(&mut out, bytes);
        proof {
            let q = names.subrange(0, k + 1);
            assert(q.drop_last() =~= names.subrange(0, k as int));
            assert(q.last() == names[k as int]);
        }
        k = k + 1;
    }
    assert(names.subrange(0, names.len() as int) =~= names);

    let mut i: usize = 0;
    while i < sorted.len()
        invariant
            i <= ss.len(),
            ss == sorted@,
            out@ == header_bytes(names, ss) + country_entries(names) + range_entries(ss.subrange(0, i as int)),
        decreases ss.len() - i,
    {
        let range = sorted[i];
        put_u32(&mut out, range.start);
        put_u32(&mut out, range.end);
        put_u16(&mut out, range.country_index);
        proof {
            let q = ss.subrange(0, i + 1);
            assert(q.drop_last() =~= ss.subrange(0, i as int));
            assert(q.last() == ss[i as int]);
        }
        i = i + 1;
    }
    assert(ss.subrange(0, ss.len() as int) =~= ss);
    Ok(out)
}

} // verus!
