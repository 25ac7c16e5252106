use std::collections::HashMap;

use geolite_lookup::builder::{add_location, resolve_country, BlockRecord, BlockTable, LocationRecord};
use geolite_lookup::cidr::parse_cidr;
use geolite_lookup::models::{IpRange, UNKNOWN_COUNTRY_NAME};
use geolite_lookup::GeoError;

fn ip_u32(a: u8, b: u8, c: u8, d: u8) -> u32 {
    ((a as u32) << 24) | ((b as u32) << 16) | ((c as u32) << 8) | (d as u32)
}

fn block(network: &str, geoname_id: &str, registered: &str, represented: &str) -> BlockRecord {
    BlockRecord {
        network: network.to_string(),
        geoname_id: geoname_id.to_string(),
        registered_country_geoname_id: registered.to_string(),
        represented_country_geoname_id: represented.to_string(),
        is_anonymous_proxy: "0".to_string(),
        is_satellite_provider: "0".to_string(),
    }
}

#[test]
fn parses_slash_24() {
    assert_eq!(parse_cidr("1.0.0.0/24").unwrap(), (16_777_216, 16_777_471));
}

#[test]
fn parses_slash_32_as_single_address() {
    let (start, end) = parse_cidr("8.8.8.8/32").unwrap();
    assert_eq!(start, end);
    assert_eq!(start, ip_u32(8, 8, 8, 8));
}

#[test]
fn parses_slash_0_as_entire_space() {
    let (start, end) = parse_cidr("0.0.0.0/0").unwrap();
    assert_eq!(start, 0);
    assert_eq!(end, u32::MAX);
}

#[test]
fn rejects_prefix_over_32() {
    assert!(parse_cidr("1.2.3.4/33").is_err());
}

#[test]
fn rejects_missing_prefix() {
    assert!(parse_cidr("1.2.3.4").is_err());
}

#[test]
fn rejects_garbage_ip() {
    assert!(parse_cidr("not.an.ip.addr/24").is_err());
}

#[test]
fn cidr_clears_host_bits_of_the_address() {
    assert_eq!(parse_cidr("10.1.2.3/8").unwrap(), (ip_u32(10, 0, 0, 0), ip_u32(10, 255, 255, 255)));
    assert_eq!(parse_cidr("192.168.1.77/30").unwrap(), (ip_u32(192, 168, 1, 76), ip_u32(192, 168, 1, 79)));
}

#[test]
fn cidr_prefix_accepts_plus_sign_and_leading_zeros() {
    assert_eq!(parse_cidr("1.0.0.0/+24").unwrap(), (16_777_216, 16_777_471));
    assert_eq!(parse_cidr("1.0.0.0/024").unwrap(), (16_777_216, 16_777_471));
}

#[test]
fn cidr_rejects_malformed_pieces_with_invalid_cidr() {
    for bad in ["", "/24", "1.2.3.4/", "1.2.3.4/+", "1.2.3.4/-1", "1.2.3/24", "01.2.3.4/24", "1.2.3.4/24/1", "1.2.3.256/24"] {
        let err = parse_cidr(bad).unwrap_err();
        match err {
            GeoError::InvalidCidr(s) => assert_eq!(s, bad),
            other => panic!("unexpected error {other:?}"),
        }
    }
}

#[test]
fn resolves_country_falls_back_through_geoname_columns() {
    let mut map = HashMap::new();
    map.insert("100".to_string(), "Australia".to_string());

    // Primary geoname_id is blank, registered_country_geoname_id has it.
    let record = BlockRecord {
        network: "1.0.0.0/24".to_string(),
        geoname_id: String::new(),
        registered_country_geoname_id: "100".to_string(),
        represented_country_geoname_id: String::new(),
        is_anonymous_proxy: "0".to_string(),
        is_satellite_provider: "0".to_string(),
    };
    assert_eq!(resolve_country(&record, &map), "Australia");
}

#[test]
fn resolves_country_defaults_to_unknown() {
    let map = HashMap::new();
    let record = BlockRecord {
        network: "1.0.0.0/24".to_string(),
        geoname_id: String::new(),
        registered_country_geoname_id: String::new(),
        represented_country_geoname_id: String::new(),
        is_anonymous_proxy: "0".to_string(),
        is_satellite_provider: "0".to_string(),
    };
    assert_eq!(resolve_country(&record, &map), UNKNOWN_COUNTRY_NAME);
}

#[test]
fn resolve_country_prefers_the_most_specific_column() {
    let mut map = HashMap::new();
    map.insert("1".to_string(), "Germany".to_string());
    map.insert("2".to_string(), "France".to_string());
    assert_eq!(resolve_country(&block("1.0.0.0/24", "1", "2", ""), &map), "Germany");
    // An unknown primary id falls through to the next column.
    assert_eq!(resolve_country(&block("1.0.0.0/24", "9", "2", "1"), &map), "France");
    // Blank (white space only) ids are skipped.
    assert_eq!(resolve_country(&block("1.0.0.0/24", "  ", "", "1"), &map), "Germany");
}

#[test]
fn add_location_skips_blank_country_names() {
    let mut map = HashMap::new();
    let row = |id: &str, name: &str| LocationRecord {
        geoname_id: id.to_string(),
        locale_code: "en".to_string(),
        continent_code: "EU".to_string(),
        continent_name: "Europe".to_string(),
        country_iso_code: String::new(),
        country_name: name.to_string(),
    };
    add_location(&mut map, row("6255148", " \t"));
    add_location(&mut map, row("2921044", "Germany"));
    assert_eq!(map.len(), 1);
    assert_eq!(map.get("2921044").map(String::as_str), Some("Germany"));
}

#[test]
fn block_table_deduplicates_countries_and_skips_malformed_rows() {
    let mut map = HashMap::new();
    map.insert("100".to_string(), "Australia".to_string());
    map.insert("200".to_string(), "United States".to_string());

    let mut table = BlockTable::new();
    assert!(!table.add_block(&block("8.8.8.0/24", "200", "", ""), &map));
    assert!(!table.add_block(&block("1.0.0.0/24", "100", "", ""), &map));
    assert!(table.add_block(&block("bogus", "100", "", ""), &map));
    assert!(!table.add_block(&block("9.9.9.9/32", "", "200", ""), &map));
    assert!(!table.add_block(&block("5.5.5.0/24", "", "", ""), &map));
    assert_eq!(table.skipped(), 1);

    let (countries, ranges) = table.finish();
    assert_eq!(countries, vec!["Unknown".to_string(), "United States".to_string(), "Australia".to_string()]);
    assert_eq!(
        ranges,
        vec![
            IpRange { start: ip_u32(1, 0, 0, 0), end: ip_u32(1, 0, 0, 255), country_index: 2 },
            IpRange { start: ip_u32(5, 5, 5, 0), end: ip_u32(5, 5, 5, 255), country_index: 0 },
            IpRange { start: ip_u32(8, 8, 8, 0), end: ip_u32(8, 8, 8, 255), country_index: 1 },
            IpRange { start: ip_u32(9, 9, 9, 9), end: ip_u32(9, 9, 9, 9), country_index: 1 },
        ]
    );
}
