//! The traffic monitor's record format and the decisions it makes per event:
//! decoding a ring-buffer record, naming the process, spelling the remote
//! address and choosing the country column.

use vstd::prelude::*;
use vstd::utf8::{decode_utf8, valid_utf8};

use crate::codec::{get_u16, get_u32, get_u64, le16, le32, le64};
use crate::error::GeoError;
use crate::ipv4::{ipv4_text, lemma_octets_compose, quad_text};
use crate::text::{push_char, push_decimal, utf8_to_string};

verus! {

/// One traffic event as the kernel probe records it.
#[derive(Clone, Copy, Debug, Default)]
pub struct AppBytes {
    pub timestamp_ns: u64,
    pub size: u64,
    pub remote_addr: u32,
    pub pid: u32,
    pub local_port: u16,
    pub direction: u8,
    pub protocol: u8,
    pub comm: [u8; 16],
    pub _pad: [u8; 4],
}

/// Size in bytes of one event record in the ring buffer (C layout).
pub const EVENT_RECORD_SIZE: usize = 48;

/// `e` is the event stored little-endian in `b` (48 bytes, C layout):
/// `timestamp_ns` at 0, `size` at 8, `remote_addr` at 16, `pid` at 20,
/// `local_port` at 24, `direction` at 26, `protocol` at 27, `comm` at 28..44,
/// padding at 44..48.
pub open spec fn decodes_to(b: Seq<u8>, e: AppBytes) -> bool {
    &&& e.timestamp_ns == le64(b, 0)
    &&& e.size == le64(b, 8)
    &&& e.remote_addr == le32(b, 16)
    &&& e.pid == le32(b, 20)
    &&& e.local_port == le16(b, 24)
    &&& e.direction == b[26]
    &&& e.protocol == b[27]
    &&& e.comm@ == b.subrange(28, 44)
    &&& e._pad@ == b.subrange(44, 48)
}

/// Decodes one ring-buffer record; records of any other size are ignored.
pub fn decode_event(entry: &[u8]) -> (r: Option<AppBytes>)
    ensures
        r is Some <==> entry@.len() == EVENT_RECORD_SIZE,
        r matches Some(e) ==> decodes_to(entry@, e),
{
    if entry.len() != EVENT_RECORD_SIZE {
        return None;
    }
    let mut comm = [0u8; 16];
    let mut i: usize = 0;
    while i < 16
        invariant
            i <= 16,
            entry@.len() == 48,
            comm@.len() == 16,
            forall|j: int| 0 <= j < i ==> comm@[j] == entry@[28 + j],
        decreases 16 - i,
    {
        comm[i] = entry[28 + i];
        i = i + 1;
    }
    let mut pad = [0u8; 4];
    let mut i: usize = 0;
    while i < 4
        invariant
            i <= 4,
            entry@.len() == 48,
            pad@.len() == 4,
            forall|j: int| 0 <= j < i ==> pad@[j] == entry@[44 + j],
        decreases 4 - i,
    {
        pad[i] = entry[44 + i];
        i = i + 1;
    }
    let e = AppBytes {
        timestamp_ns: get_u64(entry, 0),
        size: get_u64(entry, 8),
        remote_addr: get_u32(entry, 16),
        pid: get_u32(entry, 20),
        local_port: get_u16(entry, 24),
        direction: entry[26],
        protocol: entry[27],
        comm,
        _pad: pad,
    };
    assert(e.comm@ =~= entry@.subrange(28, 44));
    assert(e._pad@ =~= entry@.subrange(44, 48));
    Some(e)
}

/// The remote address of an event as dotted-quad text. The probe stores the
/// address in network byte order and the record is little-endian, so the
/// first octet is the low byte of `remote_addr`.
pub open spec fn remote_addr_text(remote_addr: u32) -> Seq<char> {
    quad_text(
        (remote_addr % 256) as nat,
        ((remote_addr / 256) % 256) as nat,
        ((remote_addr / 65536) % 256) as nat,
        (remote_addr / 16777216) as nat,
    )
}

/// Spells the remote address of an event (network byte order) as a dotted quad.
pub fn remote_addr_string(remote_addr: u32) -> (s: String)
    ensures
        s@ == remote_addr_text(remote_addr),
{
    let mut s = String::new();
    push_decimal(&mut s, (remote_addr % 256) as u64);
    push_char(&mut s, '.');
    push_decimal(&mut s, ((remote_addr / 256) % 256) as u64);
    push_char(&mut s, '.');
    push_decimal(&mut s, ((remote_addr / 65536) % 256) as u64);
    push_char(&mut s, '.');
    push_decimal(&mut s, (remote_addr / 16777216) as u64);
    assert(s@ =~= remote_addr_text(remote_addr));
    s
}

/// The length of the NUL-terminated prefix of `comm` (all of it when no NUL).
pub open spec fn comm_len(comm: Seq<u8>) -> int {
    if exists|i: int| 0 <= i < comm.len() && comm[i] == 0 {
        choose|i: int| 0 <= i < comm.len() && comm[i] == 0 && forall|j: int| 0 <= j < i ==> #[trigger] comm[j] != 0
    } else {
        comm.len() as int
    }
}

/// The process name carried in an event: the text before the first NUL,
/// or empty when those bytes are not UTF-8.
pub open spec fn comm_text(comm: Seq<u8>) -> Seq<char> {
    let name = comm.subrange(0, comm_len(comm));
    if valid_utf8(name) {
        decode_utf8(name)
    } else {
        Seq::empty()
    }
}

/// The process name carried in an event's `comm` field.
pub fn comm_name(comm: &[u8; 16]) -> (s: String)
    ensures
        s@ == comm_text(comm@),
{
    let mut n: usize = 0;
    while n < 16 && comm[n] != 0
        invariant
            n <= 16,
            comm@.len() == 16,
            forall|j: int| 0 <= j < n ==> #[trigger] comm@[j] != 0,
        decreases 16 - n,
    {
        n = n + 1;
    }
    proof {
        let c = comm@;
        if n < 16 {
            assert(c[n as int] == 0);
            let k = comm_len(c);
            assert(0 <= k < c.len() && c[k] == 0 && forall|j: int| 0 <= j < k ==> #[trigger] c[j] != 0);
            if k < n {
                assert(c[k] != 0);
            } else if k > n {
                assert(c[n as int] != 0);
            }
        }
    }
    let name = vstd::slice::slice_subrange(comm.as_slice(), 0, n);
    match utf8_to_string(name) {
        Some(s) => s,
        None => String::new(),
    }
}

/// The country column for an event: the looked-up name, "Not found" when
/// the lookup failed, or "DB didn't open" when there was no database.
pub fn country_column(lookup: Option<Result<&str, GeoError>>) -> (s: String)
    ensures
        lookup is None ==> s@ == "DB didn't open"@,
        lookup matches Some(Ok(c)) ==> s@ == c@,
        lookup matches Some(Err(_)) ==> s@ == "Not found"@,
{
    match lookup {
        None => String::from_str("DB didn't open"),
        Some(Ok(c)) => String::from_str(c),
        Some(Err(_)) => String::from_str("Not found"),
    }
}

/// Direction value of an event: data received.
pub const DIRECTION_RECV: u8 = 0;
/// Direction value of an event: data sent.
pub const DIRECTION_SEND: u8 = 1;
/// Protocol value of an event: TCP.
pub const PROTOCOL_TCP: u8 = 6;
/// Protocol value of an event: UDP.
pub const PROTOCOL_UDP: u8 = 17;

/// The record a socket probe emits for one completed send or receive:
/// nothing when no bytes moved (`size <= 0`), otherwise the size, the
/// socket's remote address and local port, the process id (the upper half of
/// the pid/tgid word), the command name and the time.
///
/// The probes themselves run in the kernel and are compiled for the BPF
/// target apart from this crate; this is the record-building decision they
/// make, over the values their kernel helpers read.
pub fn probe_record(
    size: i64,
    remote_addr: u32,
    local_port: u16,
    pid_tgid: u64,
    comm: [u8; 16],
    timestamp_ns: u64,
    direction: u8,
    protocol: u8,
) -> (r: Option<AppBytes>)
    ensures
        size <= 0 ==> r is None,
        size > 0 ==> (r matches Some(e) && e.size == size && e.remote_addr == remote_addr && e.local_port
            == local_port && e.pid == pid_tgid / 4294967296 && e.comm == comm && e.timestamp_ns
            == timestamp_ns && e.direction == direction && e.protocol == protocol && e._pad@ == seq![0u8, 0u8, 0u8, 0u8]),
{
    if size <= 0 {
        return None;
    }
    let pid = (pid_tgid / 4294967296) as u32;
    Some(AppBytes {
        timestamp_ns,
        size: size as u64,
        remote_addr,
        pid,
        local_port,
        direction,
        protocol,
        comm,
        _pad: [0u8; 4],
    })
}

/// Every field of a decoded record is read whole, little-endian, from its
/// own bytes: the timestamp from bytes 0..8, the size from 8..16, the remote
/// address from 16..20, the process id from 20..24, the local port from
/// 24..26, then the direction, the protocol, the sixteen command-name bytes
/// and the four padding bytes, in that order.
pub proof fn law_decoded_fields(b: Seq<u8>, e: AppBytes)
    requires
        b.len() == EVENT_RECORD_SIZE,
        decodes_to(b, e),
    ensures
        e.timestamp_ns == b[0] + 256 * b[1] + 65536 * b[2] + 16777216 * b[3] + 4294967296 * b[4]
            + 1099511627776 * b[5] + 281474976710656 * b[6] + 72057594037927936 * b[7],
        e.size == b[8] + 256 * b[9] + 65536 * b[10] + 16777216 * b[11] + 4294967296 * b[12]
            + 1099511627776 * b[13] + 281474976710656 * b[14] + 72057594037927936 * b[15],
        e.remote_addr == b[16] + 256 * b[17] + 65536 * b[18] + 16777216 * b[19],
        e.pid == b[20] + 256 * b[21] + 65536 * b[22] + 16777216 * b[23],
        e.local_port == b[24] + 256 * b[25],
        e.direction == b[26],
        e.protocol == b[27],
        forall|i: int| 0 <= i < 16 ==> e.comm[i] == #[trigger] b[28 + i],
        forall|i: int| 0 <= i < 4 ==> e._pad[i] == #[trigger] b[44 + i],
{
    assert forall|i: int| 0 <= i < 16 implies e.comm[i] == #[trigger] b[28 + i] by {
        assert(e.comm@[i] == b.subrange(28, 44)[i]);
    }
    assert forall|i: int| 0 <= i < 4 implies e._pad[i] == #[trigger] b[44 + i] by {
        assert(e._pad@[i] == b.subrange(44, 48)[i]);
    }
}

/// The probe stores the four address bytes in network order, first octet
/// first, and the record is read little-endian: for the stored bytes
/// `x0 x1 x2 x3`, the remote-address text is the canonical dotted quad of the
/// address `x0.x1.x2.x3` (each octet a whole byte, 0 to 255).
pub proof fn law_remote_addr_is_network_order(x0: u8, x1: u8, x2: u8, x3: u8)
    ensures
        remote_addr_text((x0 + 256 * x1 + 65536 * x2 + 16777216 * x3) as u32) == ipv4_text(
            (16777216 * x0 + 65536 * x1 + 256 * x2 + x3) as u32,
        ),
{
    let a: int = x0 + 256 * x1 + 65536 * x2 + 16777216 * x3;
    assert(a % 256 == x0 as int && (a / 256) % 256 == x1 as int && (a / 65536) % 256 == x2 as int && a
        / 16777216 == x3 as int) by (nonlinear_arith)
        requires
            a == x0 + 256 * x1 + 65536 * x2 + 16777216 * x3,
            0 <= x0 < 256,
            0 <= x1 < 256,
            0 <= x2 < 256,
            0 <= x3 < 256,
    ;
    lemma_octets_compose(x0 as u32, x1 as u32, x2 as u32, x3 as u32);
}

/// The process name is the UTF-8 text of exactly the `comm` bytes before the
/// first NUL (all sixteen when there is none), or empty when those bytes are
/// not UTF-8. Every non-NUL byte before it, a space included, belongs to the name.
pub proof fn law_comm_text_is_prefix_before_nul(comm: Seq<u8>, n: int)
    requires
        0 <= n <= comm.len(),
        forall|j: int| 0 <= j < n ==> #[trigger] comm[j] != 0,
        n < comm.len() ==> comm[n] == 0,
    ensures
        valid_utf8(comm.subrange(0, n)) ==> comm_text(comm) == decode_utf8(comm.subrange(0, n)),
        !valid_utf8(comm.subrange(0, n)) ==> comm_text(comm) == Seq::<char>::empty(),
{
    if n < comm.len() {
        let k = comm_len(comm);
        assert(0 <= k < comm.len() && comm[k] == 0 && forall|j: int| 0 <= j < k ==> #[trigger] comm[j] != 0);
        if k < n {
            assert(comm[k] != 0);
        } else if k > n {
            assert(comm[n] != 0);
        }
    } else {
        assert(!exists|i: int| 0 <= i < comm.len() && comm[i] == 0) by {
            if exists|i: int| 0 <= i < comm.len() && comm[i] == 0 {
                let i = choose|i: int| 0 <= i < comm.len() && comm[i] == 0;
                assert(comm[i] != 0);
            }
        }
    }
    assert(comm_len(comm) == n);
}

} // verus!
