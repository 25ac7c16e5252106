//! What the library promises across calls: reading back what was written,
//! and what a lookup over a written database answers.

use vstd::prelude::*;
use vstd::utf8::{decode_utf8, encode_utf8_decode_utf8, encode_utf8_valid_utf8};

use crate::codec::{bytes16, bytes32, bytes64, le16, le32, le64, lemma_read_written16, lemma_read_written32, lemma_read_written64};
use crate::database::{country_table, entry_name, has_magic, open_layout, record_at, records, GeoDatabase, Layout};
use crate::error::GeoError;
use crate::ipv4::{ipv4_text, law_ipv4_text_injective};
use crate::lookup::ranges_ordered;
use crate::models::{IpRange, HEADER_SIZE, MAGIC, RANGE_RECORD_SIZE, UNKNOWN_COUNTRY_NAME, VERSION};
use crate::writer::{country_entries, database_bytes, header_bytes, name_bytes, range_entries, record_bytes, sorted_by_start, too_long};

verus! {

proof fn lemma_le16_at(data: Seq<u8>, p: int, n: u16)
    requires
        0 <= p,
        p + 2 <= data.len(),
        data.subrange(p, p + 2) == bytes16(n),
    ensures
        le16(data, p) == n,
{
    lemma_read_written16(Seq::empty(), n, Seq::empty());
    assert(Seq::<u8>::empty() + bytes16(n) + Seq::<u8>::empty() =~= bytes16(n));
    assert(data[p] == bytes16(n)[0]);
    assert(data[p + 1] == bytes16(n)[1]);
}

proof fn lemma_le32_at(data: Seq<u8>, p: int, n: u32)
    requires
        0 <= p,
        p + 4 <= data.len(),
        data.subrange(p, p + 4) == bytes32(n),
    ensures
        le32(data, p) == n,
{
    lemma_read_written32(Seq::empty(), n, Seq::empty());
    let b = bytes32(n);
    assert(Seq::<u8>::empty() + b + Seq::<u8>::empty() =~= b);
    assert(data[p] == b[0]);
    assert(data[p + 1] == b[1]);
    assert(data[p + 2] == b[2]);
    assert(data[p + 3] == b[3]);
}

proof fn lemma_le64_at(data: Seq<u8>, p: int, n: u64)
    requires
        0 <= p,
        p + 8 <= data.len(),
        data.subrange(p, p + 8) == bytes64(n),
    ensures
        le64(data, p) == n,
{
    lemma_read_written64(Seq::empty(), n, Seq::empty());
    let b = bytes64(n);
    assert(Seq::<u8>::empty() + b + Seq::<u8>::empty() =~= b);
    assert forall|k: int| 0 <= k < 8 implies data[p + k] == b[k] by {
        assert(data.subrange(p, p + 8)[k] == data[p + k]);
    }
}

proof fn lemma_entries_front(names: Seq<Seq<char>>)
    requires
        names.len() > 0,
    ensures
        country_entries(names) == bytes16(name_bytes(names[0]).len() as u16) + name_bytes(names[0])
            + country_entries(names.drop_first()),
    decreases names.len(),
{
    if names.len() == 1 {
        assert(names.drop_last() =~= Seq::<Seq<char>>::empty());
        assert(names.drop_first() =~= Seq::<Seq<char>>::empty());
        assert(country_entries(names) =~= bytes16(name_bytes(names[0]).len() as u16) + name_bytes(names[0])
            + country_entries(names.drop_first()));
    } else {
        let p = names.drop_last();
        lemma_entries_front(p);
        assert(p.drop_first() =~= names.drop_first().drop_last());
        assert(names.drop_first().last() == names.last());
        assert(p[0] == names[0]);
        assert(country_entries(names) =~= bytes16(name_bytes(names[0]).len() as u16) + name_bytes(names[0])
            + country_entries(names.drop_first()));
    }
}

proof fn lemma_table_reads(data: Seq<u8>, off: int, names: Seq<Seq<char>>)
    requires
        0 <= off,
        off + country_entries(names).len() <= data.len(),
        data.subrange(off, off + country_entries(names).len()) == country_entries(names),
        forall|j: int| 0 <= j < names.len() ==> !too_long(#[trigger] names[j]),
    ensures
        country_table(data, off, names.len()) == Ok::<(Seq<Seq<char>>, int), crate::database::TableFault>(
            (names, off + country_entries(names).len()),
        ),
    decreases names.len(),
{
    if names.len() == 0 {
        assert(names =~= Seq::<Seq<char>>::empty());
    } else {
        lemma_entries_front(names);
        let nb = name_bytes(names[0]);
        let rest = names.drop_first();
        let e = country_entries(names);
        assert(!too_long(names[0]));
        let len16 = nb.len() as u16;
        assert(e.subrange(0, 2) =~= bytes16(len16));
        assert(data.subrange(off, off + 2) =~= bytes16(len16)) by {
            assert forall|k: int| 0 <= k < 2 implies data.subrange(off, off + 2)[k] == bytes16(len16)[k] by {
                assert(data.subrange(off, off + e.len())[k] == data[off + k]);
            }
        }
        lemma_le16_at(data, off, len16);
        assert(le16(data, off) == nb.len());
        assert(entry_name(data, off) =~= nb) by {
            assert forall|k: int| 0 <= k < nb.len() implies entry_name(data, off)[k] == nb[k] by {
                assert(data.subrange(off, off + e.len())[2 + k] == data[off + 2 + k]);
                assert(e[2 + k] == nb[k]);
            }
        }
        encode_utf8_valid_utf8(names[0]);
        encode_utf8_decode_utf8(names[0]);
        let off2 = off + 2 + nb.len();
        let er = country_entries(rest);
        assert(e.len() == 2 + nb.len() + er.len());
        assert(data.subrange(off2, off2 + er.len()) =~= er) by {
            assert forall|k: int| 0 <= k < er.len() implies data.subrange(off2, off2 + er.len())[k] == er[k] by {
                assert(data.subrange(off, off + e.len())[2 + nb.len() + k] == data[off2 + k]);
                assert(e[2 + nb.len() + k] == er[k]);
            }
        }
        assert forall|j: int| 0 <= j < rest.len() implies !too_long(#[trigger] rest[j]) by {
            assert(rest[j] == names[j + 1]);
        }
        lemma_table_reads(data, off2, rest);
        assert(seq![decode_utf8(entry_name(data, off))] + rest =~= names);
    }
}

proof fn lemma_range_entries(rs: Seq<IpRange>)
    ensures
        range_entries(rs).len() == RANGE_RECORD_SIZE * rs.len(),
        forall|i: int|
            0 <= i < rs.len() ==> #[trigger] range_entries(rs).subrange(
                RANGE_RECORD_SIZE * i,
                RANGE_RECORD_SIZE * i + RANGE_RECORD_SIZE,
            ) == record_bytes(rs[i]),
    decreases rs.len(),
{
    if rs.len() > 0 {
        let p = rs.drop_last();
        lemma_range_entries(p);
        let e = range_entries(rs);
        assert forall|i: int| 0 <= i < rs.len() implies #[trigger] range_entries(rs).subrange(
            RANGE_RECORD_SIZE * i,
            RANGE_RECORD_SIZE * i + RANGE_RECORD_SIZE,
        ) == record_bytes(rs[i]) by {
            if i < p.len() {
                assert(range_entries(p).subrange(10 * i, 10 * i + 10) == record_bytes(p[i]));
                assert(e.subrange(10 * i, 10 * i + 10) =~= range_entries(p).subrange(10 * i, 10 * i + 10));
            } else {
                assert(e.subrange(10 * i, 10 * i + 10) =~= record_bytes(rs.last()));
            }
        }
    }
}

proof fn lemma_record_reads(data: Seq<u8>, off: int, rs: Seq<IpRange>, i: int)
    requires
        0 <= off,
        0 <= i < rs.len(),
        off + RANGE_RECORD_SIZE * rs.len() <= data.len(),
        data.subrange(off, off + RANGE_RECORD_SIZE * rs.len()) == range_entries(rs),
    ensures
        record_at(data, off, i) == rs[i],
{
    lemma_range_entries(rs);
    let e = range_entries(rs);
    let rb = record_bytes(rs[i]);
    let p = off + 10 * i;
    assert(e.subrange(10 * i, 10 * i + 10) == rb);
    assert forall|k: int| 0 <= k < 10 implies data[p + k] == rb[k] by {
        assert(data.subrange(off, off + 10 * rs.len())[10 * i + k] == data[p + k]);
        assert(e.subrange(10 * i, 10 * i + 10)[k] == e[10 * i + k]);
    }
    assert(data.subrange(p, p + 4) =~= bytes32(rs[i].start)) by {
        assert forall|k: int| 0 <= k < 4 implies data.subrange(p, p + 4)[k] == bytes32(rs[i].start)[k] by {
            assert(rb[k] == bytes32(rs[i].start)[k]);
        }
    }
    assert(data.subrange(p + 4, p + 8) =~= bytes32(rs[i].end)) by {
        assert forall|k: int| 0 <= k < 4 implies data.subrange(p + 4, p + 8)[k] == bytes32(rs[i].end)[k] by {
            assert(data[p + 4 + k] == rb[4 + k]);
            assert(rb[4 + k] == bytes32(rs[i].end)[k]);
        }
    }
    assert(data.subrange(p + 8, p + 10) =~= bytes16(rs[i].country_index)) by {
        assert forall|k: int| 0 <= k < 2 implies data.subrange(p + 8, p + 10)[k] == bytes16(rs[i].country_index)[k] by {
            assert(data[p + 8 + k] == rb[8 + k]);
            assert(rb[8 + k] == bytes16(rs[i].country_index)[k]);
        }
    }
    lemma_le32_at(data, p, rs[i].start);
    lemma_le32_at(data, p + 4, rs[i].end);
    lemma_le16_at(data, p + 8, rs[i].country_index);
}

proof fn lemma_header_reads(names: Seq<Seq<char>>, rs: Seq<IpRange>)
    requires
        names.len() <= u32::MAX,
        rs.len() <= u32::MAX,
        database_bytes(names, rs).len() <= usize::MAX,
    ensures
        ({
            let data = database_bytes(names, rs);
            &&& data.len() >= HEADER_SIZE
            &&& has_magic(data)
            &&& le32(data, 4) == VERSION
            &&& le32(data, 8) == names.len()
            &&& le32(data, 12) == rs.len()
            &&& le64(data, 16) == HEADER_SIZE + country_entries(names).len()
        }),
{
    let data = database_bytes(names, rs);
    let h = header_bytes(names, rs);
    let off = HEADER_SIZE + country_entries(names).len();
    assert(h.len() == 24);
    assert forall|k: int| 0 <= k < 24 implies data[k] == h[k] by {}
    assert(has_magic(data)) by {
        assert(h.subrange(0, 4) =~= MAGIC@);
    }
    assert(le32(data, 4) == VERSION) by {
        assert(data.subrange(4, 8) =~= bytes32(VERSION));
        lemma_le32_at(data, 4, VERSION);
    }
    assert(le32(data, 8) == names.len()) by {
        assert(data.subrange(8, 12) =~= bytes32(names.len() as u32));
        lemma_le32_at(data, 8, names.len() as u32);
    }
    assert(le32(data, 12) == rs.len()) by {
        assert(data.subrange(12, 16) =~= bytes32(rs.len() as u32));
        lemma_le32_at(data, 12, rs.len() as u32);
    }
    assert(le64(data, 16) == off) by {
        assert(data.subrange(16, 24) =~= bytes64(off as u64));
        lemma_le64_at(data, 16, off as u64);
    }
}

/// Reading back what was written: the image written for a country table and
/// ranges (in the order they are stored) opens, and gives back exactly those
/// names and those ranges. The table starts with the reserved "Unknown" entry,
/// as the writer insists.
///
/// The image must fit in memory: its length is at most `usize::MAX`.
#[verifier::rlimit(60)]
pub proof fn law_open_reads_back_written(names: Seq<Seq<char>>, rs: Seq<IpRange>)
    requires
        names.len() > 0,
        names[0] == UNKNOWN_COUNTRY_NAME@,
        names.len() <= u32::MAX,
        rs.len() <= u32::MAX,
        forall|j: int| 0 <= j < names.len() ==> !too_long(#[trigger] names[j]),
        database_bytes(names, rs).len() <= usize::MAX,
    ensures
        open_layout(database_bytes(names, rs)) == Ok::<Layout, crate::database::OpenFault>(
            Layout {
                names,
                offset: HEADER_SIZE + country_entries(names).len(),
                count: rs.len() as int,
            },
        ),
        records(
            database_bytes(names, rs),
            HEADER_SIZE + country_entries(names).len(),
            rs.len() as int,
        ) == rs,
{
    let data = database_bytes(names, rs);
    let ce = country_entries(names);
    let re = range_entries(rs);
    let off = HEADER_SIZE + ce.len();
    lemma_range_entries(rs);
    lemma_header_reads(names, rs);
    assert(data.len() == 24 + ce.len() + re.len());
    assert(country_table(data, 24, names.len()) == Ok::<(Seq<Seq<char>>, int), crate::database::TableFault>((names, off))) by {
        assert(data.subrange(24, off) =~= ce);
        lemma_table_reads(data, 24, names);
    }
    assert(records(data, off, rs.len() as int) =~= rs) by {
        assert(data.subrange(off, off + 10 * rs.len()) =~= re);
        assert forall|i: int| 0 <= i < rs.len() implies records(data, off, rs.len() as int)[i] == rs[i] by {
            lemma_record_reads(data, off, rs, i);
        }
    }
}

/// Two inclusive ranges share at least one address.
pub open spec fn overlaps(a: IpRange, b: IpRange) -> bool {
    a.start <= b.end && b.start <= a.end
}

/// Every range is non-empty and no two ranges (at different positions) share an address.
pub open spec fn disjoint_ranges(rs: Seq<IpRange>) -> bool {
    &&& forall|i: int| 0 <= i < rs.len() ==> #[trigger] rs[i].start <= rs[i].end
    &&& forall|i: int, j: int|
        0 <= i < rs.len() && 0 <= j < rs.len() && i != j ==> !overlaps(#[trigger] rs[i], #[trigger] rs[j])
}

/// Sorting non-empty, pairwise disjoint ranges by start yields the order that
/// the binary search relies on: each range ends before the next one starts.
pub proof fn law_sorted_disjoint_is_ordered(input: Seq<IpRange>, sorted: Seq<IpRange>)
    requires
        disjoint_ranges(input),
        sorted.to_multiset() == input.to_multiset(),
        sorted_by_start(sorted),
    ensures
        ranges_ordered(sorted),
        forall|k: int| 0 <= k < sorted.len() ==> input.contains(#[trigger] sorted[k]),
        forall|j: int| 0 <= j < input.len() ==> sorted.contains(#[trigger] input[j]),
{
    broadcast use vstd::seq_lib::group_to_multiset_ensures;

    assert(input.no_duplicates()) by {
        assert forall|i: int, j: int| 0 <= i < input.len() && 0 <= j < input.len() && i != j
            implies input[i] != input[j] by {
            assert(!overlaps(input[i], input[j]));
            assert(input[i].start <= input[i].end);
        }
    }
    input.lemma_multiset_has_no_duplicates();
    assert forall|x: IpRange| sorted.to_multiset().contains(x) implies sorted.to_multiset().count(x) == 1 by {
        assert(input.to_multiset().contains(x));
    }
    sorted.lemma_multiset_has_no_duplicates_conv();
    assert forall|k: int| 0 <= k < sorted.len() implies input.contains(#[trigger] sorted[k]) by {
        assert(sorted.contains(sorted[k]));
        assert(sorted.to_multiset().count(sorted[k]) > 0);
    }
    assert forall|j: int| 0 <= j < input.len() implies sorted.contains(#[trigger] input[j]) by {
        assert(input.contains(input[j]));
        assert(input.to_multiset().count(input[j]) > 0);
    }
    assert forall|i: int, j: int| 0 <= i < j < sorted.len() implies #[trigger] sorted[i].start
        <= #[trigger] sorted[j].start && sorted[i].end < sorted[j].start by {
        let x = sorted[i];
        let y = sorted[j];
        assert(x != y);
        assert(input.contains(x));
        assert(input.contains(y));
        let a = choose|a: int| 0 <= a < input.len() && input[a] == x;
        let b = choose|b: int| 0 <= b < input.len() && input[b] == y;
        assert(a != b);
        assert(!overlaps(input[a], input[b]));
        assert(input[a].start <= input[a].end);
        assert(input[b].start <= input[b].end);
    }
}

/// What a lookup answers over a database whose tables are those written from
/// a country table (with "Unknown" at index 0) and non-empty, pairwise
/// disjoint ranges with valid country indices: the country of the range that
/// holds the address, or "Unknown" when no range holds it.
pub proof fn law_lookup_after_write(
    db: GeoDatabase,
    names: Seq<Seq<char>>,
    input: Seq<IpRange>,
    sorted: Seq<IpRange>,
    addr: u32,
    r: Result<&str, GeoError>,
)
    requires
        names.len() > 0,
        names[0] == UNKNOWN_COUNTRY_NAME@,
        forall|j: int| 0 <= j < input.len() ==> (#[trigger] input[j]).country_index < names.len(),
        disjoint_ranges(input),
        sorted.to_multiset() == input.to_multiset(),
        sorted_by_start(sorted),
        db.names() == names,
        db.ranges() == sorted,
        db.lookup_outcome(addr, r),
    ensures
        forall|j: int|
            0 <= j < input.len() && (#[trigger] input[j]).spec_contains(addr) ==> (r matches Ok(s)
                && s@ == names[input[j].country_index as int]),
        (forall|j: int| 0 <= j < input.len() ==> !(#[trigger] input[j]).spec_contains(addr)) ==> (r matches Ok(
            s,
        ) && s@ == UNKNOWN_COUNTRY_NAME@),
{
    law_sorted_disjoint_is_ordered(input, sorted);
    assert forall|j: int| 0 <= j < input.len() && (#[trigger] input[j]).spec_contains(addr) implies (r matches Ok(
        s,
    ) && s@ == names[input[j].country_index as int]) by {
        assert(sorted.contains(input[j]));
        let k = choose|k: int| 0 <= k < sorted.len() && sorted[k] == input[j];
        assert(sorted[k].spec_contains(addr));
        assert(db.resolves(sorted[k].country_index, r));
    }
    if forall|j: int| 0 <= j < input.len() ==> !(#[trigger] input[j]).spec_contains(addr) {
        assert forall|k: int| 0 <= k < sorted.len() implies !(#[trigger] sorted[k]).spec_contains(addr) by {
            assert(input.contains(sorted[k]));
            let j = choose|j: int| 0 <= j < input.len() && input[j] == sorted[k];
            assert(!input[j].spec_contains(addr));
        }
        assert(db.resolves(0, r));
    }
}

/// Two lookup results agree: the same name, or the same error.
pub open spec fn same_result(x: Result<&str, GeoError>, y: Result<&str, GeoError>) -> bool {
    match (x, y) {
        (Ok(s), Ok(t)) => s@ == t@,
        (Err(e), Err(f)) => e == f,
        _ => false,
    }
}

/// Looking up the dotted-quad text of an address answers exactly what
/// looking up the address itself as a `u32` does.
pub proof fn law_lookup_text_is_lookup_u32(
    db: &GeoDatabase,
    ip: &str,
    addr: u32,
    by_text: Result<&str, GeoError>,
    by_addr: Result<&str, GeoError>,
)
    requires
        ip@ == ipv4_text(addr),
        db.text_answer(ip@, by_text),
        db.search_answer(addr, by_addr),
    ensures
        same_result(by_text, by_addr),
{
    let a = choose|a: u32| ip@ == ipv4_text(a) && #[trigger] db.search_answer(a, by_text) && db.lookup_outcome(a, by_text);
    law_ipv4_text_injective(a, addr);
}

} // verus!
