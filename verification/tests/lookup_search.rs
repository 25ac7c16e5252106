use geolite_lookup::lookup::binary_search_range;
use geolite_lookup::models::IpRange;

fn sample_ranges() -> Vec<IpRange> {
    vec![
        IpRange { start: 0, end: 9, country_index: 1 },
        IpRange { start: 10, end: 19, country_index: 2 },
        IpRange { start: 30, end: 39, country_index: 3 },
        IpRange { start: 1000, end: 1000, country_index: 4 }, // single-address /32
    ]
}

#[test]
fn finds_value_in_middle_of_a_range() {
    let r = sample_ranges();
    assert_eq!(binary_search_range(r.len(), 15, |i| r[i]), Some(1));
}

#[test]
fn finds_range_start_boundary() {
    let r = sample_ranges();
    assert_eq!(binary_search_range(r.len(), 30, |i| r[i]), Some(2));
}

#[test]
fn finds_range_end_boundary() {
    let r = sample_ranges();
    assert_eq!(binary_search_range(r.len(), 19, |i| r[i]), Some(1));
}

#[test]
fn finds_single_address_range() {
    let r = sample_ranges();
    assert_eq!(binary_search_range(r.len(), 1000, |i| r[i]), Some(3));
}

#[test]
fn returns_none_for_gap_between_ranges() {
    let r = sample_ranges();
    assert_eq!(binary_search_range(r.len(), 25, |i| r[i]), None);
}

#[test]
fn returns_none_below_first_range() {
    let r = sample_ranges();
    // u32 can't go below 0, so the lowest address lands in the first range.
    assert_eq!(binary_search_range(r.len(), 0, |i| r[i]), Some(0));
}

#[test]
fn returns_none_above_last_range() {
    let r = sample_ranges();
    assert_eq!(binary_search_range(r.len(), 5_000, |i| r[i]), None);
}

#[test]
fn returns_none_for_empty_table() {
    let r: Vec<IpRange> = vec![];
    assert_eq!(binary_search_range(0, 42, |i| r[i]), None);
}

#[test]
fn contains_is_inclusive_at_both_ends() {
    let r = IpRange { start: 10, end: 19, country_index: 2 };
    assert!(r.contains(10));
    assert!(r.contains(19));
    assert!(!r.contains(9));
    assert!(!r.contains(20));
}
