//! The decisions of the CSV -> database builder: which location rows name a
//! country, which country a block row resolves to, and the deduplicated
//! country table and range list built row by row. Reading the CSV files is
//! left to the caller.

use vstd::prelude::*;

use std::collections::HashMap;

use crate::cidr::{block_end, block_start, cidr_text, parse_cidr};
use crate::models::{IpRange, UNKNOWN_COUNTRY_NAME};
use crate::text::{char_is_whitespace, chars_of, white_space};
use crate::text::string_views;
use crate::writer::{sort_by_start, sorted_by_start, starting_at};

verus! {

/// One row of `GeoLite2-Country-Locations-en.csv`.
pub struct LocationRecord {
    pub geoname_id: String,
    pub locale_code: String,
    pub continent_code: String,
    pub continent_name: String,
    pub country_iso_code: String,
    pub country_name: String,
}

/// One row of `GeoLite2-Country-Blocks-IPv4.csv`.
pub struct BlockRecord {
    pub network: String,
    pub geoname_id: String,
    pub registered_country_geoname_id: String,
    pub represented_country_geoname_id: String,
    pub is_anonymous_proxy: String,
    pub is_satellite_provider: String,
}

/// Nothing is left once surrounding white space is trimmed.
pub open spec fn is_blank(s: Seq<char>) -> bool {
    forall|i: int| 0 <= i < s.len() ==> #[trigger] white_space(s[i])
}

/// `HashMap::get` on a map keyed by `String`. std's `String` compares and
/// hashes by content, so the entry found is the one whose key has the same
/// characters as `key`.
#[verifier::external_body]
fn map_get<'a, V: DeepView>(m: &'a HashMap<String, V>, key: &String) -> (r: Option<&'a V>)
    ensures
        match r {
            Some(v) => m.deep_view().contains_key(key@) && v.deep_view() == m.deep_view()[key@],
            None => !m.deep_view().contains_key(key@),
        },
{
    m.get(key)
}

/// `HashMap::insert` on a map keyed by `String`: afterwards the key's
/// characters map to the value, and every other entry is unchanged.
#[verifier::external_body]
fn map_insert<V: DeepView>(m: &mut HashMap<String, V>, key: String, value: V)
    ensures
        final(m).deep_view() == old(m).deep_view().insert(key@, value.deep_view()),
{
    m.insert(key, value);
}

/// Whether trimming white space from `s` leaves nothing (`s.trim().is_empty()`).
pub fn is_blank_str(s: &str) -> (r: bool)
    ensures
        r == is_blank(s@),
{
    let t = chars_of(s);
    let mut i: usize = 0;
    while i < t.len()
        invariant
            i <= t@.len(),
            t@ == s@,
            forall|j: int| 0 <= j < i ==> #[trigger] white_space(t@[j]),
        decreases t@.len() - i,
    {
        if !char_is_whitespace(t[i]) {
            return false;
        }
        i = i + 1;
    }
    true
}

/// Records one location row in the `geoname_id -> country_name` map. Rows
/// whose country name is blank (continent-level entries) are skipped.
pub fn add_location(map: &mut HashMap<String, String>, record: LocationRecord)
    ensures
        is_blank(record.country_name@) ==> final(map).deep_view() == old(map).deep_view(),
        !is_blank(record.country_name@) ==> final(map).deep_view() == old(map).deep_view().insert(
            record.geoname_id@,
            record.country_name@,
        ),
{
    if is_blank_str(record.country_name.as_str()) {
        return;
    }
    map_insert(map, record.geoname_id, record.country_name);
}

/// The geoname columns of a block row, most specific first.
pub open spec fn geoname_candidates(record: BlockRecord) -> Seq<Seq<char>> {
    seq![
        record.geoname_id@,
        record.registered_country_geoname_id@,
        record.represented_country_geoname_id@,
    ]
}

/// The country of the first candidate that is not blank and is in the map,
/// or "Unknown" when there is none.
pub open spec fn resolve_from(cands: Seq<Seq<char>>, m: Map<Seq<char>, Seq<char>>) -> Seq<char>
    decreases cands.len(),
{
    if cands.len() == 0 {
        UNKNOWN_COUNTRY_NAME@
    } else if !is_blank(cands[0]) && m.contains_key(cands[0]) {
        m[cands[0]]
    } else {
        resolve_from(cands.drop_first(), m)
    }
}

/// The country a single candidate column gives, if any.
fn try_candidate(candidate: &String, map: &HashMap<String, String>) -> (r: Option<String>)
    ensures
        match r {
            Some(n) => !is_blank(candidate@) && map.deep_view().contains_key(candidate@) && n@ == map.deep_view()[candidate@],
            None => is_blank(candidate@) || !map.deep_view().contains_key(candidate@),
        },
{
    if is_blank_str(candidate.as_str()) {
        return None;
    }
    match map_get(map, candidate) {
        Some(name) => Some(name.clone()),
        None => None,
    }
}

/// Resolves a block row to a country name, falling back from the most
/// specific `geoname_id` column to the least specific, then to "Unknown".
pub fn resolve_country(record: &BlockRecord, geoname_to_country: &HashMap<String, String>) -> (r: String)
    ensures
        r@ == resolve_from(geoname_candidates(*record), geoname_to_country.deep_view()),
{
    let ghost m = geoname_to_country.deep_view();
    let ghost c = geoname_candidates(*record);
    assert(c.drop_first() =~= seq![record.registered_country_geoname_id@, record.represented_country_geoname_id@]);
    assert(c.drop_first().drop_first() =~= seq![record.represented_country_geoname_id@]);
    assert(c.drop_first().drop_first().drop_first() =~= Seq::<Seq<char>>::empty());
    proof {
        reveal_with_fuel(resolve_from, 4);
    }
    if let Some(name) = try_candidate(&record.geoname_id, geoname_to_country) {
        return name;
    }
    if let Some(name) = try_candidate(&record.registered_country_geoname_id, geoname_to_country) {
        return name;
    }
    if let Some(name) = try_candidate(&record.represented_country_geoname_id, geoname_to_country) {
        return name;
    }
    String::from_str(UNKNOWN_COUNTRY_NAME)
}

/// The country table and range list being built from block rows: every
/// distinct country name once, "Unknown" first, and one range per row whose
/// network parsed.
pub struct BlockTable {
    countries: Vec<String>,
    country_indices: HashMap<String, u16>,
    ranges: Vec<IpRange>,
    skipped: u32,
}

/// The index assigned to the `i`-th distinct country (a 16-bit index, which
/// wraps past 65535 countries).
pub open spec fn country_slot(i: int) -> u16 {
    (i % 65536) as u16
}

impl BlockTable {
    /// The distinct country names, in order of first appearance.
    pub closed spec fn names(&self) -> Seq<Seq<char>> {
        string_views(self.countries@)
    }

    /// The ranges, in order of their rows.
    pub closed spec fn ranges(&self) -> Seq<IpRange> {
        self.ranges@
    }

    /// How many rows had a malformed network.
    pub closed spec fn skipped_rows(&self) -> u32 {
        self.skipped
    }

    /// The index map agrees with the name list, and names are distinct.
    pub closed spec fn wf(&self) -> bool {
        let names = string_views(self.countries@);
        let m = self.country_indices.deep_view();
        &&& names.len() >= 1
        &&& names[0] == UNKNOWN_COUNTRY_NAME@
        &&& names.no_duplicates()
        &&& forall|k: Seq<char>| #[trigger] m.contains_key(k) <==> names.contains(k)
        &&& forall|i: int| 0 <= i < names.len() ==> m[#[trigger] names[i]] == country_slot(i)
    }

    /// A table holding only the reserved "Unknown" country.
    pub fn new() -> (t: BlockTable)
        ensures
            t.wf(),
            t.names() == seq![UNKNOWN_COUNTRY_NAME@],
            t.ranges() == Seq::<IpRange>::empty(),
            t.skipped_rows() == 0,
    {
        let mut countries: Vec<String> = Vec::new();
        countries.push(String::from_str(UNKNOWN_COUNTRY_NAME));
        let mut country_indices: HashMap<String, u16> = HashMap::new();
        proof {
            broadcast use vstd::std_specs::hash::lemma_hashmap_deepview_dom;
            assert(country_indices.deep_view().dom() =~= Set::<Seq<char>>::empty());
            assert(country_indices.deep_view() =~= Map::<Seq<char>, u16>::empty());
        }
        map_insert(&mut country_indices, String::from_str(UNKNOWN_COUNTRY_NAME), 0);
        let t = BlockTable { countries, country_indices, ranges: Vec::new(), skipped: 0 };
        proof {
            let names = string_views(t.countries@);
            assert(names =~= seq![UNKNOWN_COUNTRY_NAME@]);
            assert forall|k: Seq<char>| #[trigger] t.country_indices.deep_view().contains_key(k) <==> names.contains(k) by {
                if names.contains(k) {
                    assert(names[0] == k);
                }
                if t.country_indices.deep_view().contains_key(k) {
                    assert(names[0] == k);
                }
            }
        }
        t
    }

    /// How many rows had a malformed network.
    pub fn skipped(&self) -> (n: u32)
        ensures
            n == self.skipped_rows(),
    {
        self.skipped
    }

    /// The index of `name`, adding it to the table when it is new.
    fn intern(&mut self, name: String) -> (idx: u16)
        requires
            old(self).wf(),
        ensures
            final(self).wf(),
            final(self).ranges() == old(self).ranges(),
            final(self).skipped_rows() == old(self).skipped_rows(),
            old(self).names().contains(name@) ==> final(self).names() == old(self).names() && idx
                == country_slot(old(self).names().index_of(name@)),
            !old(self).names().contains(name@) ==> final(self).names() == old(self).names().push(name@)
                && idx == country_slot(old(self).names().len() as int),
    {
        let ghost names = self.names();
        match map_get(&self.country_indices, &name) {
            Some(i) => {
                let idx = *i;
                proof {
                    assert(names.contains(name@));
                    let j = names.index_of(name@);
                    assert(names[j] == name@);
                }
                idx
            },
            None => {
                let idx = (self.countries.len() % 65536) as u16;
                let ghost m0 = self.country_indices.deep_view();
                map_insert(&mut self.country_indices, name.clone(), idx);
                self.countries.push(name);
                proof {
                    let nn = string_views(self.countries@);
                    assert(nn =~= names.push(name@));
                    assert(!names.contains(name@));
                    assert forall|i: int, j: int| 0 <= i < nn.len() && 0 <= j < nn.len() && i != j implies nn[i] != nn[j] by {
                        if i == names.len() as int {
                            assert(names.contains(nn[j]));
                        } else if j == names.len() as int {
                            assert(names.contains(nn[i]));
                        }
                    }
                    let m = self.country_indices.deep_view();
                    assert(m == m0.insert(name@, idx));
                    assert forall|k: Seq<char>| #[trigger] m.contains_key(k) <==> nn.contains(k) by {
                        if k == name@ {
                            assert(nn[names.len() as int] == k);
                        } else {
                            assert(m.contains_key(k) == m0.contains_key(k));
                            assert(m0.contains_key(k) == names.contains(k));
                            if nn.contains(k) {
                                let i = choose|i: int| 0 <= i < nn.len() && nn[i] == k;
                                assert(i < names.len());
                                assert(names[i] == k);
                            }
                            if names.contains(k) {
                                let i = choose|i: int| 0 <= i < names.len() && names[i] == k;
                                assert(nn[i] == k);
                            }
                        }
                    }
                    assert forall|i: int| 0 <= i < nn.len() implies m[#[trigger] nn[i]] == country_slot(i) by {
                        if i < names.len() {
                            assert(nn[i] == names[i]);
                            assert(names[i] != name@);
                        }
                    }
                }
                idx
            },
        }
    }

    /// Takes in one block row: a row whose network is not valid CIDR is
    /// counted as skipped (and `true` is returned); any other row adds the
    /// range of its network, indexed to the country it resolves to.
    pub fn add_block(&mut self, record: &BlockRecord, geoname_to_country: &HashMap<String, String>) -> (skipped: bool)
        requires
            old(self).wf(),
        ensures
            final(self).wf(),
            skipped == (forall|a: u32, p: nat| p <= 32 ==> !#[trigger] cidr_text(record.network@, a, p)),
            skipped ==> final(self).names() == old(self).names() && final(self).ranges() == old(self).ranges()
                && final(self).skipped_rows() == (if old(self).skipped_rows() < u32::MAX {
                    old(self).skipped_rows() + 1
                } else {
                    0
                }),
            !skipped ==> ({
                let name = resolve_from(geoname_candidates(*record), geoname_to_country.deep_view());
                let r = final(self).ranges().last();
                &&& final(self).skipped_rows() == old(self).skipped_rows()
                &&& final(self).ranges().drop_last() == old(self).ranges()
                &&& final(self).ranges().len() == old(self).ranges().len() + 1
                &&& exists|a: u32, p: nat|
                    #![trigger cidr_text(record.network@, a, p)]
                    p <= 32 && cidr_text(record.network@, a, p) && r.start == block_start(a, p)
                        && r.end == block_end(a, p)
                &&& old(self).names().contains(name) ==> final(self).names() == old(self).names()
                    && r.country_index == country_slot(old(self).names().index_of(name))
                &&& !old(self).names().contains(name) ==> final(self).names() == old(self).names().push(
                    name,
                ) && r.country_index == country_slot(old(self).names().len() as int)
                &&& old(self).names().len() < 65536 ==> r.country_index < final(self).names().len()
                    && final(self).names()[r.country_index as int] == name
            }),
    {
        match parse_cidr(record.network.as_str()) {
            Err(_) => {
                self.skipped = self.skipped.wrapping_add(1);
                true
            },
            Ok((start, end)) => {
                let name = resolve_country(record, geoname_to_country);
                let ghost names = self.names();
                let ghost n = name@;
                let country_index = self.intern(name);
                let ghost before = self.ranges@;
                self.ranges.push(IpRange { start, end, country_index });
                proof {
                    assert(self.ranges@.drop_last() =~= before);
                    if names.len() < 65536 {
                        law_new_country_index_names_it(names, self.names(), n, country_index);
                    }
                }
                false
            },
        }
    }

    /// The finished tables: the country names and the ranges sorted by start.
    pub fn finish(self) -> (r: (Vec<String>, Vec<IpRange>))
        requires
            self.wf(),
        ensures
            string_views(r.0@) == self.names(),
            string_views(r.0@).len() >= 1,
            string_views(r.0@)[0] == UNKNOWN_COUNTRY_NAME@,
            string_views(r.0@).no_duplicates(),
            r.1@.to_multiset() == self.ranges().to_multiset(),
            sorted_by_start(r.1@),
            forall|s: u32| #[trigger] starting_at(r.1@, s) == starting_at(self.ranges(), s),
    {
        let BlockTable { countries, country_indices: _, ranges, skipped: _ } = self;
        let mut ranges = ranges;
        sort_by_start(&mut ranges);
        (countries, ranges)
    }
}

/// The index given to a row's country names that country in the table:
/// a name already present keeps the index where it sits, and a new name is
/// appended and gets the next index (the `i`-th distinct name gets index
/// `i`), as long as the table held fewer than 65536 names.
pub proof fn law_new_country_index_names_it(before: Seq<Seq<char>>, after: Seq<Seq<char>>, name: Seq<char>, idx: u16)
    requires
        before.len() < 65536,
        before.contains(name) ==> after == before && idx == country_slot(before.index_of(name)),
        !before.contains(name) ==> after == before.push(name) && idx == country_slot(before.len() as int),
    ensures
        idx < after.len(),
        after[idx as int] == name,
        !before.contains(name) ==> idx == before.len(),
{
    if before.contains(name) {
        let i = before.index_of(name);
        assert(0 <= i < before.len() && before[i] == name);
    } else {
        assert(after[before.len() as int] == name);
    }
}

} // verus!
