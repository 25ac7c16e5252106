//! Reading the `geolite.bin` binary format and answering lookups over it.
//!
//! ```text
//! HEADER (24 bytes, little-endian)
//!   magic "GLDB" | version u32 | country_count u32 | range_count u32 | range_table_offset u64
//! COUNTRY TABLE: country_count entries of  name_len u16 | name_bytes (UTF-8);
//!                entry 0 is the reserved "Unknown"
//! RANGE TABLE: range_count records of  start u32 | end u32 | country_index u16  (sorted by start)
//! ```

use vstd::prelude::*;
use vstd::utf8::{decode_utf8, valid_utf8};

use crate::codec::{get_u16, get_u32, get_u64, le16, le32, le64, lemma_le_bounds};
use crate::error::GeoError;
use crate::ipv4::{ipv4_text, parse_ipv4};
use crate::lookup::{binary_search_range, ranges_ordered, search_result, yields};
use crate::models::{
    Header, IpRange, HEADER_SIZE, MAGIC, RANGE_RECORD_SIZE, UNKNOWN_COUNTRY_INDEX, UNKNOWN_COUNTRY_NAME, VERSION,
};
use crate::text::{dec, push_char, push_decimal, string_views, utf8_to_string};

verus! {

/// Why the country table could not be read.
pub enum TableFault {
    /// An entry's two-byte length prefix runs past the end of the data.
    MissingLength,
    /// An entry's name bytes run past the end of the data.
    MissingName,
    /// An entry's name bytes are not UTF-8.
    BadUtf8,
}

/// The name bytes of the country-table entry whose length prefix is at `offset`.
pub open spec fn entry_name(data: Seq<u8>, offset: int) -> Seq<u8> {
    data.subrange(offset + 2, offset + 2 + le16(data, offset))
}

/// Reads `count` length-prefixed UTF-8 names starting at `offset`: the names
/// and the offset just past the last one, or the first fault met.
pub open spec fn country_table(data: Seq<u8>, offset: int, count: nat) -> Result<
    (Seq<Seq<char>>, int),
    TableFault,
>
    decreases count,
{
    if count == 0 {
        Ok((Seq::empty(), offset))
    } else if offset + 2 > data.len() {
        Err(TableFault::MissingLength)
    } else if offset + 2 + le16(data, offset) > data.len() {
        Err(TableFault::MissingName)
    } else if !valid_utf8(entry_name(data, offset)) {
        Err(TableFault::BadUtf8)
    } else {
        match country_table(data, offset + 2 + le16(data, offset), (count - 1) as nat) {
            Ok((rest, end)) => Ok((seq![decode_utf8(entry_name(data, offset))] + rest, end)),
            Err(f) => Err(f),
        }
    }
}

/// Why a byte image is not a database that can be opened.
pub enum OpenFault {
    /// Shorter than the header.
    TooShort,
    /// The first four bytes are not "GLDB".
    BadMagic,
    /// The version field holds another version.
    WrongVersion(u32),
    /// The country table cannot be read.
    Table(TableFault),
    /// The country table does not start with the reserved "Unknown" entry.
    MissingUnknown,
    /// The country table does not end where the header says the range table starts.
    OffsetMismatch,
    /// The range table's end does not fit in `usize`.
    SizeOverflow,
    /// The data ends before the range table does.
    Truncated,
}

/// Where the parts of an openable database lie.
pub struct Layout {
    pub names: Seq<Seq<char>>,
    pub offset: int,
    pub count: int,
}

/// The first four bytes are the magic "GLDB".
pub open spec fn has_magic(data: Seq<u8>) -> bool {
    &&& data[0] == MAGIC[0]
    &&& data[1] == MAGIC[1]
    &&& data[2] == MAGIC[2]
    &&& data[3] == MAGIC[3]
}

/// The header fields of `data` (which holds at least 24 bytes).
pub open spec fn header_of(data: Seq<u8>) -> Header {
    Header {
        version: le32(data, 4) as u32,
        country_count: le32(data, 8) as u32,
        range_count: le32(data, 12) as u32,
        range_table_offset: le64(data, 16) as u64,
    }
}

/// Whether `data` can be opened as a database, and if so where its parts lie.
pub open spec fn open_layout(data: Seq<u8>) -> Result<Layout, OpenFault> {
    if data.len() < HEADER_SIZE {
        Err(OpenFault::TooShort)
    } else if !has_magic(data) {
        Err(OpenFault::BadMagic)
    } else if le32(data, 4) != VERSION {
        Err(OpenFault::WrongVersion(le32(data, 4) as u32))
    } else {
        match country_table(data, HEADER_SIZE as int, le32(data, 8) as nat) {
            Err(f) => Err(OpenFault::Table(f)),
            Ok((names, end)) => if names.len() == 0 || names[0] != UNKNOWN_COUNTRY_NAME@ {
                Err(OpenFault::MissingUnknown)
            } else if end != le64(data, 16) {
                Err(OpenFault::OffsetMismatch)
            } else if end + RANGE_RECORD_SIZE * le32(data, 12) > usize::MAX {
                Err(OpenFault::SizeOverflow)
            } else if data.len() < end + RANGE_RECORD_SIZE * le32(data, 12) {
                Err(OpenFault::Truncated)
            } else {
                Ok(Layout { names, offset: end, count: le32(data, 12) })
            },
        }
    }
}

/// The `i`-th range record of a table that starts at `offset`.
pub open spec fn record_at(data: Seq<u8>, offset: int, i: int) -> IpRange {
    let p = offset + RANGE_RECORD_SIZE * i;
    IpRange {
        start: le32(data, p) as u32,
        end: le32(data, p + 4) as u32,
        country_index: le16(data, p + 8) as u16,
    }
}

/// The `count` range records of a table that starts at `offset`.
pub open spec fn records(data: Seq<u8>, offset: int, count: int) -> Seq<IpRange> {
    Seq::new(count as nat, |i: int| record_at(data, offset, i))
}

/// `[b0, b1, ...]`, as `{:?}` prints a byte array.
pub open spec fn byte_list(b: Seq<u8>) -> Seq<char>
    decreases b.len(),
{
    if b.len() == 0 {
        seq!['[', ']']
    } else {
        seq!['['] + byte_items(b)
    }
}

/// `b0, b1, ...]`: the items of a byte list and its closing bracket.
pub open spec fn byte_items(b: Seq<u8>) -> Seq<char>
    decreases b.len(),
{
    if b.len() <= 1 {
        if b.len() == 0 { seq![']'] } else { dec(b[0] as nat) + seq![']'] }
    } else {
        dec(b[0] as nat) + seq![',', ' '] + byte_items(b.drop_first())
    }
}

/// The message of the `CorruptDatabase` error for a fault found while opening `data`.
pub open spec fn open_fault_message(data: Seq<u8>, f: OpenFault) -> Seq<char> {
    match f {
        OpenFault::TooShort => "file is only "@ + dec(data.len()) + " bytes, smaller than the 24-byte header"@,
        OpenFault::BadMagic => "bad magic bytes: expected "@ + byte_list(MAGIC@) + ", found "@
            + byte_list(data.subrange(0, 4)),
        OpenFault::Table(TableFault::MissingLength) => "country table truncated: missing a name-length prefix"@,
        OpenFault::Table(TableFault::MissingName) => "country table truncated: missing name bytes"@,
        OpenFault::Table(TableFault::BadUtf8) => "country name is not valid UTF-8"@,
        OpenFault::MissingUnknown => "country table must start with the reserved \"Unknown\" entry at index 0"@,
        OpenFault::OffsetMismatch => match country_table(data, HEADER_SIZE as int, le32(data, 8) as nat) {
            Ok((_, end)) => "country table ends at byte "@ + dec(end as nat)
                + ", but header declares the range table starts at byte "@ + dec(le64(data, 16) as nat),
            Err(_) => Seq::empty(),
        },
        OpenFault::SizeOverflow => "range table size overflows"@,
        OpenFault::Truncated => match country_table(data, HEADER_SIZE as int, le32(data, 8) as nat) {
            Ok((_, end)) => "file is "@ + dec(data.len()) + " bytes but the range table needs "@
                + dec((end + RANGE_RECORD_SIZE * le32(data, 12)) as nat),
            Err(_) => Seq::empty(),
        },
        OpenFault::WrongVersion(_) => Seq::empty(),
    }
}

/// `e` is the error reported for fault `f` while opening `data`.
pub open spec fn open_error(data: Seq<u8>, f: OpenFault, e: GeoError) -> bool {
    match f {
        OpenFault::WrongVersion(v) => e == (GeoError::VersionMismatch { found: v, expected: VERSION }),
        _ => e matches GeoError::CorruptDatabase(m) && m@ == open_fault_message(data, f),
    }
}


/// Prefixes already-read names to the outcome of reading the rest of a table.
pub open spec fn with_prefix(
    p: Seq<Seq<char>>,
    r: Result<(Seq<Seq<char>>, int), TableFault>,
) -> Result<(Seq<Seq<char>>, int), TableFault> {
    match r {
        Ok((n, e)) => Ok((p + n, e)),
        Err(f) => Err(f),
    }
}

proof fn lemma_table_step(data: Seq<u8>, offset: int, count: nat, p: Seq<Seq<char>>)
    requires
        count > 0,
        0 <= offset,
        offset + 2 <= data.len(),
        offset + 2 + le16(data, offset) <= data.len(),
        valid_utf8(entry_name(data, offset)),
    ensures
        with_prefix(p, country_table(data, offset, count)) == with_prefix(
            p.push(decode_utf8(entry_name(data, offset))),
            country_table(data, offset + 2 + le16(data, offset), (count - 1) as nat),
        ),
{
    let name = decode_utf8(entry_name(data, offset));
    match country_table(data, offset + 2 + le16(data, offset), (count - 1) as nat) {
        Ok((rest, end)) => {
            assert(p + (seq![name] + rest) =~= p.push(name) + rest);
        },
        Err(f) => {},
    }
}

/// A `CorruptDatabase` error with a fixed message.
fn corrupt(msg: &str) -> (e: GeoError)
    ensures
        e matches GeoError::CorruptDatabase(m) && m@ == msg@,
{
    GeoError::CorruptDatabase(String::from_str(msg))
}

proof fn lemma_byte_items_step(b: Seq<u8>)
    requires
        b.len() >= 2,
    ensures
        byte_items(b) == dec(b[0] as nat) + seq![',', ' '] + byte_items(b.drop_first()),
{
}

proof fn lemma_byte_items_last(b: Seq<u8>)
    requires
        b.len() == 1,
    ensures
        byte_items(b) == dec(b[0] as nat) + seq![']'],
{
}

#[verifier::rlimit(40)]
proof fn lemma_byte_list4(q: Seq<u8>)
    requires
        q.len() == 4,
    ensures
        byte_list(q) == seq!['['] + dec(q[0] as nat) + seq![',', ' '] + dec(q[1] as nat) + seq![',', ' ']
            + dec(q[2] as nat) + seq![',', ' '] + dec(q[3] as nat) + seq![']'],
{
    let q1 = q.drop_first();
    let q2 = q1.drop_first();
    let q3 = q2.drop_first();
    let sep = seq![',', ' '];
    let d0 = dec(q[0] as nat);
    let d1 = dec(q[1] as nat);
    let d2 = dec(q[2] as nat);
    let d3 = dec(q[3] as nat);
    lemma_byte_items_step(q);
    lemma_byte_items_step(q1);
    lemma_byte_items_step(q2);
    lemma_byte_items_last(q3);
    assert(q1[0] == q[1]);
    assert(q2[0] == q[2]);
    assert(q3[0] == q[3]);
    assert(seq!['['] + (d0 + sep + (d1 + sep + (d2 + sep + (d3 + seq![']'])))) =~= seq!['['] + d0 + sep + d1 + sep
        + d2 + sep + d3 + seq![']']);
}

/// Appends `[b0, b1, b2, b3]`, as `{:?}` prints a four-byte array.
fn push_byte_list4(s: &mut String, b: &[u8])
    requires
        b@.len() == 4,
    ensures
        final(s)@ == old(s)@ + byte_list(b@),
{
    let ghost s0 = s@;
    push_char(s, '[');
    push_decimal(s, b[0] as u64);
    push_char(s, ',');
    push_char(s, ' ');
    push_decimal(s, b[1] as u64);
    push_char(s, ',');
    push_char(s, ' ');
    push_decimal(s, b[2] as u64);
    push_char(s, ',');
    push_char(s, ' ');
    push_decimal(s, b[3] as u64);
    push_char(s, ']');
    proof {
        lemma_byte_list4(b@);
        assert(s@ =~= s0 + byte_list(b@));
    }
}

/// Reads and checks the fixed-size header at the start of `data`.
fn parse_header(data: &[u8]) -> (r: Result<Header, GeoError>)
    requires
        data@.len() >= HEADER_SIZE,
    ensures
        !has_magic(data@) ==> (r matches Err(e) && open_error(data@, OpenFault::BadMagic, e)),
        has_magic(data@) && le32(data@, 4) != VERSION ==> (r matches Err(e) && open_error(
            data@,
            OpenFault::WrongVersion(le32(data@, 4) as u32),
            e,
        )),
        has_magic(data@) && le32(data@, 4) == VERSION ==> (r matches Ok(h) && h == header_of(data@)),
{
    proof {
        lemma_le_bounds(data@, 4);
        lemma_le_bounds(data@, 8);
        lemma_le_bounds(data@, 12);
        lemma_le_bounds(data@, 16);
    }
    let magic = vstd::slice::slice_subrange(data, 0, 4);
    if magic[0] != MAGIC[0] || magic[1] != MAGIC[1] || magic[2] != MAGIC[2] || magic[3] != MAGIC[3] {
        let mut msg = String::from_str("bad magic bytes: expected ");
        let expected: [u8; 4] = MAGIC;
        push_byte_list4(&mut msg, expected.as_slice());
        msg.append(", found ");
        push_byte_list4(&mut msg, magic);
        return Err(GeoError::CorruptDatabase(msg));
    }
    let version = get_u32(data, 4);
    if version != VERSION {
        return Err(GeoError::version_mismatch(version));
    }
    let country_count = get_u32(data, 8);
    let range_count = get_u32(data, 12);
    let range_table_offset = get_u64(data, 16);
    Ok(Header { version, country_count, range_count, range_table_offset })
}

/// Reads `country_count` length-prefixed UTF-8 names starting right after the
/// header, returning them and the offset where the table ends.
fn parse_country_table(data: &[u8], country_count: u32) -> (r: Result<(Vec<String>, usize), GeoError>)
    requires
        data@.len() >= HEADER_SIZE,
    ensures
        match country_table(data@, HEADER_SIZE as int, country_count as nat) {
            Ok((names, end)) => r matches Ok((v, e)) && string_views(v@) == names && e == end,
            Err(f) => r matches Err(e) && open_error(data@, OpenFault::Table(f), e),
        },
{
    let mut offset: usize = HEADER_SIZE;
    let mut countries: Vec<String> = Vec::with_capacity(country_count as usize);
    let mut k: u32 = 0;
    assert(with_prefix(string_views(countries@), country_table(data@, offset as int, country_count as nat))
        == country_table(data@, offset as int, country_count as nat)) by {
        match country_table(data@, offset as int, country_count as nat) {
            Ok((n, e)) => { assert(string_views(countries@) + n =~= n); },
            Err(f) => {},
        }
    }
    while k < country_count
        invariant
            k <= country_count,
            HEADER_SIZE <= offset <= data@.len(),
            country_table(data@, HEADER_SIZE as int, country_count as nat) == with_prefix(
                string_views(countries@),
                country_table(data@, offset as int, (country_count - k) as nat),
            ),
        decreases country_count - k,
    {
        let ghost rest = country_table(data@, offset as int, (country_count - k) as nat);
        if data.len() - offset < 2 {
            return Err(corrupt("country table truncated: missing a name-length prefix"));
        }
        let len = get_u16(data, offset) as usize;
        let name_start = offset + 2;
        if data.len() - name_start < len {
            return Err(corrupt("country table truncated: missing name bytes"));
        }
        let name_bytes = vstd::slice::slice_subrange(data, name_start, name_start + len);
        let name = match utf8_to_string(name_bytes) {
            Some(n) => n,
            None => {
                return Err(corrupt("country name is not valid UTF-8"));
            },
        };
        proof {
            lemma_table_step(data@, offset as int, (country_count - k) as nat, string_views(countries@));
            assert(string_views(countries@.push(name)) =~= string_views(countries@).push(name@));
        }
        offset = name_start + len;
        countries.push(name);
        k = k + 1;
    }
    proof {
        assert(string_views(countries@) + Seq::<Seq<char>>::empty() =~= string_views(countries@));
    }
    Ok((countries, offset))
}


/// The layout of an openable image (an arbitrary one for any other image).
pub open spec fn layout_of(data: Seq<u8>) -> Layout {
    match open_layout(data) {
        Ok(l) => l,
        Err(_) => Layout { names: Seq::empty(), offset: 0, count: 0 },
    }
}

/// A read-only IPv4 -> country lookup database over the bytes of a
/// `geolite.bin` image, which it borrows (typically from a memory map).
///
/// The country table is decoded once, when the database is opened; range
/// records are read directly out of the borrowed image on each lookup, so
/// the image is never copied.
#[derive(Debug)]
pub struct GeoDatabase<'a> {
    data: &'a [u8],
    countries: Vec<String>,
    range_table_offset: usize,
    range_count: usize,
}

impl<'a> GeoDatabase<'a> {
    #[verifier::type_invariant]
    spec fn inv(self) -> bool {
        &&& open_layout(self.data@) is Ok
        &&& string_views(self.countries@) == layout_of(self.data@).names
        &&& self.range_table_offset == layout_of(self.data@).offset
        &&& self.range_count == layout_of(self.data@).count
    }

    /// The database image.
    pub closed spec fn bytes(&self) -> Seq<u8> {
        self.data@
    }

    /// The country names, by index (index 0 is the reserved "Unknown" slot).
    pub closed spec fn names(&self) -> Seq<Seq<char>> {
        string_views(self.countries@)
    }

    /// The range records, in table order.
    pub closed spec fn ranges(&self) -> Seq<IpRange> {
        records(self.data@, self.range_table_offset as int, self.range_count as int)
    }

    /// `r` is what resolving country index `idx` gives: the name when the
    /// index is in the table, `CountryIndexOutOfRange(idx)` otherwise.
    pub open spec fn resolves(&self, idx: u16, r: Result<&str, GeoError>) -> bool {
        if (idx as int) < self.names().len() {
            r matches Ok(s) && s@ == self.names()[idx as int]
        } else {
            r matches Err(e) && e == GeoError::CountryIndexOutOfRange(idx)
        }
    }

    /// `r` is an answer to a lookup of `addr`: the country of a range that
    /// contains `addr`, or the unknown slot; and when the ranges are sorted and
    /// disjoint, exactly the country of the range containing `addr`, or the
    /// unknown slot when no range contains it.
    pub open spec fn lookup_outcome(&self, addr: u32, r: Result<&str, GeoError>) -> bool {
        let rs = self.ranges();
        &&& (exists|k: int|
            0 <= k < rs.len() && #[trigger] rs[k].spec_contains(addr) && self.resolves(
                rs[k].country_index,
                r,
            )) || self.resolves(UNKNOWN_COUNTRY_INDEX, r)
        &&& ranges_ordered(rs) ==> forall|k: int|
            0 <= k < rs.len() && #[trigger] rs[k].spec_contains(addr) ==> self.resolves(
                rs[k].country_index,
                r,
            )
        &&& ranges_ordered(rs) && (forall|k: int| 0 <= k < rs.len() ==> !#[trigger] rs[k].spec_contains(addr))
            ==> self.resolves(UNKNOWN_COUNTRY_INDEX, r)
    }

    /// Opens and validates a database image.
    ///
    /// The header and the country table are parsed and checked eagerly (the
    /// table must start with the reserved "Unknown" entry); the range table is
    /// only checked to fit inside the image, which is borrowed, not copied.
    pub fn from_bytes(data: &'a [u8]) -> (r: Result<GeoDatabase<'a>, GeoError>)
        ensures
            match open_layout(data@) {
                Ok(l) => r matches Ok(db) && db.bytes() == data@ && db.names() == l.names
                    && db.ranges() == records(data@, l.offset, l.count),
                Err(f) => r matches Err(e) && open_error(data@, f, e),
            },
    {
        let len = data.len();
        if len < HEADER_SIZE {
            let mut msg = String::from_str("file is only ");
            push_decimal(&mut msg, len as u64);
            msg.append(" bytes, smaller than the 24-byte header");
            return Err(GeoError::CorruptDatabase(msg));
        }
        let header = match parse_header(data) {
            Ok(h) => h,
            Err(e) => {
                return Err(e);
            },
        };
        let (countries, table_end) = match parse_country_table(data, header.country_count) {
            Ok(p) => p,
            Err(e) => {
                return Err(e);
            },
        };
        let unknown = String::from_str(UNKNOWN_COUNTRY_NAME);
        if countries.len() == 0 || !(countries[0] == unknown) {
            return Err(corrupt("country table must start with the reserved \"Unknown\" entry at index 0"));
        }
        if table_end as u64 != header.range_table_offset {
            let mut msg = String::from_str("country table ends at byte ");
            push_decimal(&mut msg, table_end as u64);
            msg.append(", but header declares the range table starts at byte ");
            push_decimal(&mut msg, header.range_table_offset);
            return Err(GeoError::CorruptDatabase(msg));
        }
        let range_table_offset = table_end;
        let range_count = header.range_count as usize;
        let required_len = match range_count.checked_mul(RANGE_RECORD_SIZE) {
            Some(table_len) => match range_table_offset.checked_add(table_len) {
                Some(n) => n,
                None => {
                    return Err(corrupt("range table size overflows"));
                },
            },
            None => {
                return Err(corrupt("range table size overflows"));
            },
        };
        if len < required_len {
            let mut msg = String::from_str("file is ");
            push_decimal(&mut msg, len as u64);
            msg.append(" bytes but the range table needs ");
            push_decimal(&mut msg, required_len as u64);
            return Err(GeoError::CorruptDatabase(msg));
        }
        Ok(GeoDatabase { data, countries, range_table_offset, range_count })
    }

    /// Number of distinct country names in the database (including the
    /// reserved "Unknown" entry at index 0).
    pub fn country_count(&self) -> (n: usize)
        ensures
            n == self.names().len(),
    {
        self.countries.len()
    }

    /// Number of IP ranges in the database.
    pub fn range_count(&self) -> (n: usize)
        ensures
            n == self.ranges().len(),
    {
        self.range_count
    }

    /// Reads the `idx`-th range record directly out of the image.
    fn range_at(&self, idx: usize) -> (r: IpRange)
        requires
            idx < self.ranges().len(),
        ensures
            r == self.ranges()[idx as int],
    {
        proof {
            use_type_invariant(self);
        }
        let offset = self.range_table_offset + idx * RANGE_RECORD_SIZE;
        let bytes = self.data;
        let start = get_u32(bytes, offset);
        let end = get_u32(bytes, offset + 4);
        let country_index = get_u16(bytes, offset + 8);
        IpRange { start, end, country_index }
    }

    /// The name stored at `index` in the country table.
    fn country_name(&self, index: u16) -> (r: Result<&str, GeoError>)
        ensures
            self.resolves(index, r),
    {
        if (index as usize) < self.countries.len() {
            Ok(self.countries[index as usize].as_str())
        } else {
            Err(GeoError::CountryIndexOutOfRange(index))
        }
    }

    /// `r` is the answer of the binary search for `addr` over the range table:
    /// the country of the range it stops at, or the unknown slot when it finds none.
    pub open spec fn search_answer(&self, addr: u32, r: Result<&str, GeoError>) -> bool {
        match search_result(self.ranges(), addr, 0, self.ranges().len() as int) {
            Some(k) => self.resolves(self.ranges()[k].country_index, r),
            None => self.resolves(UNKNOWN_COUNTRY_INDEX, r),
        }
    }

    /// `r` is the answer to looking up the text `ip`: that of the address it
    /// spells, or `InvalidIp` carrying the text when it spells none.
    pub open spec fn text_answer(&self, ip: Seq<char>, r: Result<&str, GeoError>) -> bool {
        ||| exists|a: u32| ip == ipv4_text(a) && #[trigger] self.search_answer(a, r) && self.lookup_outcome(a, r)
        ||| (forall|a: u32| ip != ipv4_text(a)) && (r matches Err(GeoError::InvalidIp(s)) && s@ == ip)
    }

    /// Looks up the country for an address given as a host-byte-order `u32`.
    ///
    /// An address in no range resolves to the reserved "Unknown" entry rather
    /// than to an error.
    pub fn lookup_u32(&self, addr: u32) -> (r: Result<&str, GeoError>)
        ensures
            self.names().len() > 0 && self.names()[0] == UNKNOWN_COUNTRY_NAME@,
            self.search_answer(addr, r),
            self.lookup_outcome(addr, r),
            (forall|k: int| 0 <= k < self.ranges().len() ==> !#[trigger] self.ranges()[k].spec_contains(addr))
                ==> (r matches Ok(s) && s@ == UNKNOWN_COUNTRY_NAME@),
    {
        proof {
            use_type_invariant(self);
        }
        let count = self.range_count;
        let range_at = |i: usize| -> (rec: IpRange)
            requires
                i < self.ranges().len(),
            ensures
                rec == self.ranges()[i as int],
            { self.range_at(i) };
        assert(yields(range_at, count, self.ranges()));
        let found = binary_search_range(count, addr, range_at);
        let country_index = match found {
            Some(idx) => self.range_at(idx).country_index,
            None => UNKNOWN_COUNTRY_INDEX,
        };
        let r = self.country_name(country_index);
        proof {
            let rs = self.ranges();
            match found {
                Some(idx) => {
                    assert(rs[idx as int].spec_contains(addr));
                    if ranges_ordered(rs) {
                        assert forall|k: int| 0 <= k < rs.len() && #[trigger] rs[k].spec_contains(addr)
                            implies self.resolves(rs[k].country_index, r) by {
                            if k < idx {
                                assert(rs[k].end < rs[idx as int].start);
                            } else if k > idx {
                                assert(rs[idx as int].end < rs[k].start);
                            }
                        }
                    }
                },
                None => {},
            }
        }
        r
    }

    /// Looks up the country for a dotted-quad IPv4 address string, e.g. `"8.8.8.8"`.
    ///
    /// Malformed text gives `InvalidIp`; an address in no range gives the
    /// reserved "Unknown" entry rather than an error. The text is read in
    /// place: nothing is allocated unless an error is returned.
    pub fn lookup(&self, ip: &str) -> (r: Result<&str, GeoError>)
        ensures
            self.names().len() > 0 && self.names()[0] == UNKNOWN_COUNTRY_NAME@,
            self.text_answer(ip@, r),
            r matches Err(e) ==> (e is InvalidIp || e is CountryIndexOutOfRange),
    {
        proof {
            use_type_invariant(self);
        }
        match parse_ipv4(ip) {
            Some(a) => self.lookup_u32(a),
            None => Err(GeoError::InvalidIp(String::from_str(ip))),
        }
    }
}

} // verus!