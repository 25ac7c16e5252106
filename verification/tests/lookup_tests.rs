//! End-to-end tests of the public API: each test builds a small database
//! image with `encode_database` and opens it with `GeoDatabase::from_bytes`.

use geolite_lookup::models::IpRange;
use geolite_lookup::{encode_database, GeoDatabase, GeoError};

fn ip_u32(a: u8, b: u8, c: u8, d: u8) -> u32 {
    ((a as u32) << 24) | ((b as u32) << 16) | ((c as u32) << 8) | (d as u32)
}

fn sample_countries() -> Vec<String> {
    vec!["Unknown".to_string(), "Australia".to_string(), "United States".to_string()]
}

fn sample_ranges() -> Vec<IpRange> {
    vec![
        // 1.0.0.0/24 -> Australia
        IpRange { start: ip_u32(1, 0, 0, 0), end: ip_u32(1, 0, 0, 255), country_index: 1 },
        // 8.8.8.0/24 -> United States
        IpRange { start: ip_u32(8, 8, 8, 0), end: ip_u32(8, 8, 8, 255), country_index: 2 },
        // A single /32 host route, to exercise start == end.
        IpRange { start: ip_u32(9, 9, 9, 9), end: ip_u32(9, 9, 9, 9), country_index: 2 },
    ]
}

fn sample_image() -> Vec<u8> {
    encode_database(&sample_countries(), &sample_ranges()).expect("failed to encode test database")
}

fn corrupt_message(err: GeoError) -> String {
    match err {
        GeoError::CorruptDatabase(m) => m,
        other => panic!("expected CorruptDatabase, got {other:?}"),
    }
}

#[test]
fn looks_up_known_ip_addresses() {
    let image = sample_image();
    let db = GeoDatabase::from_bytes(&image).unwrap();
    assert_eq!(db.lookup("8.8.8.8").unwrap(), "United States");
    assert_eq!(db.lookup("1.0.0.128").unwrap(), "Australia");
}

#[test]
fn range_boundaries_are_inclusive() {
    let image = sample_image();
    let db = GeoDatabase::from_bytes(&image).unwrap();
    assert_eq!(db.lookup("1.0.0.0").unwrap(), "Australia"); // first address in range
    assert_eq!(db.lookup("1.0.0.255").unwrap(), "Australia"); // last address in range
    assert_eq!(db.lookup("9.9.9.9").unwrap(), "United States"); // /32 host route
}

#[test]
fn ip_just_outside_a_range_is_unknown() {
    let image = sample_image();
    let db = GeoDatabase::from_bytes(&image).unwrap();
    assert_eq!(db.lookup("1.0.1.0").unwrap(), "Unknown"); // one past the /24
    assert_eq!(db.lookup("0.255.255.255").unwrap(), "Unknown"); // one before the /24
}

#[test]
fn unmapped_ip_returns_unknown_not_an_error() {
    let image = sample_image();
    let db = GeoDatabase::from_bytes(&image).unwrap();
    assert_eq!(db.lookup("192.168.1.1").unwrap(), "Unknown");
}

#[test]
fn invalid_ip_string_is_an_error() {
    let image = sample_image();
    let db = GeoDatabase::from_bytes(&image).unwrap();
    let err = db.lookup("not-an-ip").unwrap_err();
    assert!(matches!(err, GeoError::InvalidIp(_)));

    let err = db.lookup("999.999.999.999").unwrap_err();
    assert!(matches!(err, GeoError::InvalidIp(_)));
}

#[test]
fn empty_database_resolves_everything_to_unknown() {
    let bytes = encode_database(&sample_countries(), &[]).unwrap();
    let db = GeoDatabase::from_bytes(&bytes).unwrap();
    assert_eq!(db.range_count(), 0);
    assert_eq!(db.lookup("8.8.8.8").unwrap(), "Unknown");
}

#[test]
fn rejects_corrupt_magic_bytes() {
    let mut bytes = sample_image();
    bytes[0] = b'X';
    let err = GeoDatabase::from_bytes(&bytes).unwrap_err();
    assert!(matches!(err, GeoError::CorruptDatabase(_)));
}

#[test]
fn rejects_version_mismatch() {
    let mut bytes = sample_image();
    // Version is the little-endian u32 immediately after the 4-byte magic.
    bytes[4..8].copy_from_slice(&999u32.to_le_bytes());
    let err = GeoDatabase::from_bytes(&bytes).unwrap_err();
    assert!(matches!(err, GeoError::VersionMismatch { found: 999, .. }));
}

#[test]
fn rejects_truncated_range_table() {
    let bytes = sample_image();
    let truncated = &bytes[..bytes.len() - 4]; // chop part of the last range record
    let err = GeoDatabase::from_bytes(truncated).unwrap_err();
    assert!(matches!(err, GeoError::CorruptDatabase(_)));
}

#[test]
fn rejects_truncated_header() {
    let bytes = sample_image();
    let err = GeoDatabase::from_bytes(&bytes[..10]).unwrap_err(); // shorter than the 24-byte header
    assert!(matches!(err, GeoError::CorruptDatabase(_)));
}

#[test]
fn write_database_rejects_missing_unknown_entry() {
    let countries = vec!["Australia".to_string()]; // missing reserved "Unknown" at 0
    let err = encode_database(&countries, &[]).unwrap_err();
    assert!(matches!(err, GeoError::CorruptDatabase(_)));
}

#[test]
fn write_database_rejects_out_of_range_country_index() {
    let countries = vec!["Unknown".to_string()];
    let ranges = vec![IpRange { start: 0, end: 10, country_index: 5 }];
    let err = encode_database(&countries, &ranges).unwrap_err();
    assert!(matches!(err, GeoError::CorruptDatabase(_)));
}

#[test]
fn write_database_accepts_unsorted_input_and_sorts_it() {
    let countries = sample_countries();
    let mut ranges = sample_ranges();
    ranges.reverse(); // deliberately out of order

    let bytes = encode_database(&countries, &ranges).unwrap();
    let db = GeoDatabase::from_bytes(&bytes).unwrap();
    assert_eq!(db.lookup("8.8.8.8").unwrap(), "United States");
    assert_eq!(db.lookup("1.0.0.0").unwrap(), "Australia");
}

// ---- the exact image layout and error messages ----

#[test]
fn encoded_image_has_the_documented_layout() {
    let countries = vec!["Unknown".to_string(), "AU".to_string()];
    let ranges = vec![IpRange { start: 0x01020304, end: 0x05060708, country_index: 1 }];
    let bytes = encode_database(&countries, &ranges).unwrap();
    let mut expected: Vec<u8> = vec![b'G', b'L', b'D', b'B', 1, 0, 0, 0, 2, 0, 0, 0, 1, 0, 0, 0];
    expected.extend_from_slice(&(24u64 + 9 + 4).to_le_bytes());
    expected.extend_from_slice(&[7, 0]);
    expected.extend_from_slice(b"Unknown");
    expected.extend_from_slice(&[2, 0]);
    expected.extend_from_slice(b"AU");
    expected.extend_from_slice(&[4, 3, 2, 1, 8, 7, 6, 5, 1, 0]);
    assert_eq!(bytes, expected);
}

#[test]
fn opened_database_reports_its_counts() {
    let image = sample_image();
    let db = GeoDatabase::from_bytes(&image).unwrap();
    assert_eq!(db.country_count(), 3);
    assert_eq!(db.range_count(), 3);
}

#[test]
fn lookup_u32_matches_lookup_by_text() {
    let image = sample_image();
    let db = GeoDatabase::from_bytes(&image).unwrap();
    assert_eq!(db.lookup_u32(ip_u32(8, 8, 8, 8)).unwrap(), "United States");
    assert_eq!(db.lookup_u32(ip_u32(1, 0, 0, 255)).unwrap(), "Australia");
    assert_eq!(db.lookup_u32(0).unwrap(), "Unknown");
    assert_eq!(db.lookup_u32(u32::MAX).unwrap(), "Unknown");
}

#[test]
fn non_ascii_country_names_round_trip() {
    let countries = vec!["Unknown".to_string(), "Côte d'Ivoire".to_string(), "日本".to_string()];
    let ranges = vec![
        IpRange { start: 100, end: 199, country_index: 2 },
        IpRange { start: 10, end: 19, country_index: 1 },
    ];
    let bytes = encode_database(&countries, &ranges).unwrap();
    let db = GeoDatabase::from_bytes(&bytes).unwrap();
    assert_eq!(db.lookup_u32(150).unwrap(), "日本");
    assert_eq!(db.lookup_u32(10).unwrap(), "Côte d'Ivoire");
    assert_eq!(db.lookup_u32(50).unwrap(), "Unknown");
}

#[test]
fn out_of_range_country_index_in_a_file_is_reported_at_lookup() {
    let mut bytes = sample_image();
    // The last record's country index is the final two bytes.
    let n = bytes.len();
    bytes[n - 2] = 9;
    let db = GeoDatabase::from_bytes(&bytes).unwrap();
    assert!(matches!(db.lookup("9.9.9.9").unwrap_err(), GeoError::CountryIndexOutOfRange(9)));
    assert_eq!(db.lookup("8.8.8.8").unwrap(), "United States");
}

#[test]
fn open_error_messages_name_the_problem() {
    let err = GeoDatabase::from_bytes(&[0u8; 10]).unwrap_err();
    assert_eq!(corrupt_message(err), "file is only 10 bytes, smaller than the 24-byte header");

    let mut bytes = sample_image();
    bytes[0] = b'X';
    let err = GeoDatabase::from_bytes(&bytes).unwrap_err();
    assert_eq!(corrupt_message(err), "bad magic bytes: expected [71, 76, 68, 66], found [88, 76, 68, 66]");

    let bytes = sample_image();
    let n = bytes.len();
    let err = GeoDatabase::from_bytes(&bytes[..n - 4]).unwrap_err();
    assert_eq!(corrupt_message(err), format!("file is {} bytes but the range table needs {}", n - 4, n));
}

#[test]
fn open_rejects_a_country_table_that_disagrees_with_the_header() {
    let mut bytes = sample_image();
    bytes[16] = bytes[16].wrapping_add(1); // range_table_offset one past the country table
    let err = GeoDatabase::from_bytes(&bytes).unwrap_err();
    let expected_end = 24 + (2 + 7) + (2 + 9) + (2 + 13);
    assert_eq!(
        corrupt_message(err),
        format!(
            "country table ends at byte {expected_end}, but header declares the range table starts at byte {}",
            expected_end + 1
        )
    );
}

#[test]
fn open_rejects_truncated_and_non_utf8_country_tables() {
    let mut bytes = sample_image();
    bytes[8] = 200; // claims 200 countries
    let err = GeoDatabase::from_bytes(&bytes).unwrap_err();
    assert!(corrupt_message(err).starts_with("country table truncated"));

    let mut bytes = sample_image();
    bytes[26] = 0xff; // first byte of "Unknown"
    let err = GeoDatabase::from_bytes(&bytes).unwrap_err();
    assert_eq!(corrupt_message(err), "country name is not valid UTF-8");

    let mut bytes = sample_image();
    bytes[24] = 0xff; // the first name's length runs past the end
    bytes[25] = 0xff;
    let err = GeoDatabase::from_bytes(&bytes).unwrap_err();
    assert_eq!(corrupt_message(err), "country table truncated: missing name bytes");

    let bytes = sample_image();
    let err = GeoDatabase::from_bytes(&bytes[..25]).unwrap_err();
    assert_eq!(corrupt_message(err), "country table truncated: missing a name-length prefix");
}

#[test]
fn open_rejects_a_range_table_whose_size_overflows() {
    let mut bytes = sample_image();
    bytes[12..16].copy_from_slice(&u32::MAX.to_le_bytes());
    let err = GeoDatabase::from_bytes(&bytes).unwrap_err();
    let msg = corrupt_message(err);
    if usize::BITS == 32 {
        assert_eq!(msg, "range table size overflows");
    } else {
        assert!(msg.contains("bytes but the range table needs"));
    }
}

#[test]
fn write_error_messages_name_the_problem() {
    let err = encode_database(&["Australia".to_string()], &[]).unwrap_err();
    assert_eq!(
        corrupt_message(err),
        "country table must start with the reserved \"Unknown\" entry at index 0"
    );
    let err = encode_database(&[], &[]).unwrap_err();
    assert!(matches!(err, GeoError::CorruptDatabase(_)));

    let ranges = vec![
        IpRange { start: 0, end: 10, country_index: 0 },
        IpRange { start: 20, end: 30, country_index: 7 },
        IpRange { start: 40, end: 50, country_index: 8 },
    ];
    let err = encode_database(&["Unknown".to_string()], &ranges).unwrap_err();
    assert_eq!(
        corrupt_message(err),
        "range [20, 30] references country index 7, but the country table only has 1 entries"
    );

    let long = "x".repeat(70_000);
    let err = encode_database(&["Unknown".to_string(), long.clone()], &[]).unwrap_err();
    assert_eq!(corrupt_message(err), format!("country name '{long}' is longer than 65535 bytes"));
}

#[test]
fn ranges_sharing_a_start_keep_their_input_order() {
    let countries = vec!["Unknown".to_string(), "A".to_string(), "B".to_string()];
    let first = IpRange { start: 50, end: 60, country_index: 1 };
    let second = IpRange { start: 50, end: 55, country_index: 2 };
    let earlier = IpRange { start: 1, end: 2, country_index: 0 };
    let bytes = encode_database(&countries, &[first, earlier, second]).unwrap();
    let table = &bytes[bytes.len() - 30..];
    assert_eq!(&table[0..4], &1u32.to_le_bytes());
    assert_eq!(&table[14..18], &60u32.to_le_bytes());
    assert_eq!(&table[24..28], &55u32.to_le_bytes());
}

/// The image of a database whose country table is exactly `names`, with no ranges.
fn image_with_names(names: &[&str]) -> Vec<u8> {
    let table_len: usize = names.iter().map(|n| 2 + n.len()).sum();
    let mut bytes: Vec<u8> = b"GLDB".to_vec();
    bytes.extend_from_slice(&1u32.to_le_bytes());
    bytes.extend_from_slice(&(names.len() as u32).to_le_bytes());
    bytes.extend_from_slice(&0u32.to_le_bytes());
    bytes.extend_from_slice(&(24 + table_len as u64).to_le_bytes());
    for n in names {
        bytes.extend_from_slice(&(n.len() as u16).to_le_bytes());
        bytes.extend_from_slice(n.as_bytes());
    }
    bytes
}

#[test]
fn open_rejects_a_table_without_the_unknown_slot() {
    let bytes = image_with_names(&["France"]);
    assert_eq!(bytes.len(), 32);
    let err = GeoDatabase::from_bytes(&bytes).unwrap_err();
    assert_eq!(
        corrupt_message(err),
        "country table must start with the reserved \"Unknown\" entry at index 0"
    );

    let bytes = image_with_names(&[]);
    let err = GeoDatabase::from_bytes(&bytes).unwrap_err();
    assert_eq!(
        corrupt_message(err),
        "country table must start with the reserved \"Unknown\" entry at index 0"
    );

    let bytes = image_with_names(&["France", "Unknown"]);
    assert!(matches!(GeoDatabase::from_bytes(&bytes), Err(GeoError::CorruptDatabase(_))));
}

#[test]
fn hand_built_table_with_the_unknown_slot_opens() {
    let bytes = image_with_names(&["Unknown", "France"]);
    let db = GeoDatabase::from_bytes(&bytes).unwrap();
    assert_eq!(db.country_count(), 2);
    assert_eq!(db.lookup_u32(0).unwrap(), "Unknown");
    assert_eq!(db.lookup("10.0.0.1").unwrap(), "Unknown");
}

#[test]
fn lookup_by_text_reads_the_text_in_place() {
    let image = sample_image();
    let db = GeoDatabase::from_bytes(&image).unwrap();
    for text in ["8.8.8.8", "1.0.0.0", "9.9.9.9", "192.168.1.1", "0.0.0.0", "255.255.255.255"] {
        let octets: Vec<u32> = text.split('.').map(|o| o.parse().unwrap()).collect();
        let addr = (octets[0] << 24) | (octets[1] << 16) | (octets[2] << 8) | octets[3];
        assert_eq!(db.lookup(text).unwrap(), db.lookup_u32(addr).unwrap());
    }
    for text in ["8.8.8.08", "8.8.8", "8.8.8.8.", " 8.8.8.8", "8.8.8.256", "８.8.8.8", "1.2.3.4/8"] {
        match db.lookup(text) {
            Err(GeoError::InvalidIp(s)) => assert_eq!(s, text),
            other => panic!("expected InvalidIp for {text:?}, got {other:?}"),
        }
    }
}
