use geolite_lookup::cli::{config_db_path, ebpf_build_args, plan_cli, plan_xtask, CliOutcome, DEFAULT_DB_PATH};
use geolite_lookup::monitor::{
    comm_name, country_column, decode_event, probe_record, remote_addr_string, AppBytes, EVENT_RECORD_SIZE,
    PROTOCOL_TCP, DIRECTION_SEND,
};
use geolite_lookup::GeoError;

fn strings(v: &[&str]) -> Vec<String> {
    v.iter().map(|s| s.to_string()).collect()
}

fn sample_record() -> Vec<u8> {
    let mut b = Vec::new();
    b.extend_from_slice(&123_456_789_000u64.to_le_bytes());
    b.extend_from_slice(&1500u64.to_le_bytes());
    b.extend_from_slice(&[8, 8, 4, 4]); // remote address, network byte order
    b.extend_from_slice(&4242u32.to_le_bytes());
    b.extend_from_slice(&443u16.to_le_bytes());
    b.push(1);
    b.push(6);
    let mut comm = [0u8; 16];
    comm[..4].copy_from_slice(b"curl");
    b.extend_from_slice(&comm);
    b.extend_from_slice(&[0, 0, 0, 0]);
    b
}

#[test]
fn decodes_a_ring_buffer_record() {
    let b = sample_record();
    assert_eq!(b.len(), EVENT_RECORD_SIZE);
    let e = decode_event(&b).unwrap();
    assert_eq!(e.timestamp_ns, 123_456_789_000);
    assert_eq!(e.size, 1500);
    assert_eq!(e.pid, 4242);
    assert_eq!(e.local_port, 443);
    assert_eq!(e.direction, 1);
    assert_eq!(e.protocol, 6);
    assert_eq!(&e.comm[..5], b"curl\0");
    assert_eq!(remote_addr_string(e.remote_addr), "8.8.4.4");
}

#[test]
fn ignores_records_of_another_size() {
    let mut b = sample_record();
    b.push(0);
    assert!(decode_event(&b).is_none());
    assert!(decode_event(&b[..40]).is_none());
}

#[test]
fn remote_address_is_read_in_network_byte_order() {
    assert_eq!(remote_addr_string(u32::from_le_bytes([192, 168, 1, 20])), "192.168.1.20");
    assert_eq!(remote_addr_string(0), "0.0.0.0");
}

#[test]
fn comm_name_stops_at_the_first_nul() {
    let mut comm = [0u8; 16];
    comm[..6].copy_from_slice(b"sshd\0x");
    assert_eq!(comm_name(&comm), "sshd");
    assert_eq!(comm_name(&[b'a'; 16]), "a".repeat(16));
    assert_eq!(comm_name(&[0u8; 16]), "");
    let mut bad = [0u8; 16];
    bad[0] = 0xff;
    assert_eq!(comm_name(&bad), "");
}

#[test]
fn country_column_labels_each_outcome() {
    assert_eq!(country_column(None), "DB didn't open");
    assert_eq!(country_column(Some(Ok("Japan"))), "Japan");
    assert_eq!(country_column(Some(Err(GeoError::InvalidIp("x".to_string())))), "Not found");
}

#[test]
fn probe_record_skips_empty_transfers() {
    let comm = [7u8; 16];
    assert!(probe_record(0, 1, 2, 3, comm, 4, DIRECTION_SEND, PROTOCOL_TCP).is_none());
    assert!(probe_record(-5, 1, 2, 3, comm, 4, DIRECTION_SEND, PROTOCOL_TCP).is_none());
    let e: AppBytes = probe_record(512, 0x04040808, 8080, (77u64 << 32) | 99, comm, 1000, DIRECTION_SEND, PROTOCOL_TCP).unwrap();
    assert_eq!(e.size, 512);
    assert_eq!(e.pid, 77);
    assert_eq!(e.local_port, 8080);
    assert_eq!(e.direction, 1);
    assert_eq!(e.protocol, 6);
    assert_eq!(e.comm, comm);
    assert_eq!(e._pad, [0; 4]);
}

#[test]
fn cli_records_out_paths_in_order() {
    let plan = plan_cli(&strings(&["--out", "a.db", "--out", "b.db"]));
    assert_eq!(plan.config_writes, strings(&["a.db", "b.db"]));
    assert_eq!(plan.outcome, CliOutcome::Run);

    let plan = plan_cli(&strings(&[]));
    assert!(plan.config_writes.is_empty());
    assert_eq!(plan.outcome, CliOutcome::Run);
}

#[test]
fn cli_stops_at_help_missing_path_or_unknown_argument() {
    let plan = plan_cli(&strings(&["--out", "a.db", "-h", "--out", "b.db"]));
    assert_eq!(plan.config_writes, strings(&["a.db"]));
    assert_eq!(plan.outcome, CliOutcome::Help);

    let plan = plan_cli(&strings(&["--help"]));
    assert_eq!(plan.outcome, CliOutcome::Help);

    let plan = plan_cli(&strings(&["--out"]));
    assert!(plan.config_writes.is_empty());
    assert_eq!(plan.outcome, CliOutcome::MissingOutPath);

    let plan = plan_cli(&strings(&["--verbose", "--out", "x"]));
    assert!(plan.config_writes.is_empty());
    assert_eq!(plan.outcome, CliOutcome::UnknownArgument);
}

#[test]
fn config_uses_the_trimmed_first_line_or_the_default() {
    let c = config_db_path("  /var/log/net.db \r\nsecond line\n");
    assert_eq!(c.path, "/var/log/net.db");
    assert!(!c.rewrite_default);

    let c = config_db_path(" \n\t ");
    assert_eq!(c.path, DEFAULT_DB_PATH);
    assert!(c.rewrite_default);

    let c = config_db_path("");
    assert_eq!(c.path, "./wirelux_log.db");
    assert!(c.rewrite_default);

    let c = config_db_path("\nlater.db");
    assert_eq!(c.path, "");
    assert!(!c.rewrite_default);
}

#[test]
fn xtask_reads_its_command() {
    assert_eq!(plan_xtask(&strings(&["build-ebpf"])), Some(false));
    assert_eq!(plan_xtask(&strings(&["build-ebpf", "--x", "--release"])), Some(true));
    assert_eq!(plan_xtask(&strings(&["--release", "build-ebpf"])), None);
    assert_eq!(plan_xtask(&strings(&[])), None);
    let args = ebpf_build_args(true);
    assert_eq!(args.len(), 9);
    assert_eq!(args[3], "wirelux-ebpf");
    assert_eq!(args[8], "--release");
    assert_eq!(ebpf_build_args(false).len(), 8);
}
