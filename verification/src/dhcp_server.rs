//! A minimal DHCPv4 server for the captive-portal access point.

use vstd::prelude::*;

use crate::bytes::{clear_first, copy_into, same_bytes, to_big_endian};
#[allow(unused_imports)]
use crate::bytes::{big_endian, lemma_overwrite_on, overwritten};

verus! {

/// The access point's own IPv4 address: server id, router and DNS for clients.
pub const SERVER_OCTETS: [u8; 4] = [192, 168, 4, 1];

/// How many distinct clients can hold a lease at once.
pub const POOL_SIZE: usize = 32;

/// Last octet of the first address of the lease pool.
pub const POOL_BASE_LAST_OCTET: u8 = 10;

/// 255.255.255.0, the /24 that the access point hands out.
pub const SUBNET_MASK: [u8; 4] = [255, 255, 255, 0];

/// Lease time advertised to clients, in seconds.
pub const LEASE_SECS: u32 = 3600;

// BOOTP and DHCP wire format.

/// `op` of a client's packet.
pub const OP_BOOTREQUEST: u8 = 1;

/// `op` of a server's packet.
pub const OP_BOOTREPLY: u8 = 2;

/// `htype` for Ethernet.
pub const HTYPE_ETHERNET: u8 = 1;

/// `hlen` for Ethernet.
pub const HLEN_ETHERNET: u8 = 6;

/// The four bytes before the options.
pub const MAGIC_COOKIE: [u8; 4] = [99, 130, 83, 99];

/// Length of the fixed part of a packet, with the magic cookie.
pub const HEADER_LEN: usize = 240;

/// Length of every reply of this server.
pub const REPLY_LEN: usize = 274;

// Option codes.

pub const OPT_PAD: u8 = 0;

pub const OPT_SUBNET_MASK: u8 = 1;

pub const OPT_ROUTER: u8 = 3;

pub const OPT_DNS: u8 = 6;

pub const OPT_LEASE_TIME: u8 = 51;

pub const OPT_MESSAGE_TYPE: u8 = 53;

pub const OPT_SERVER_ID: u8 = 54;

pub const OPT_END: u8 = 255;

// Message types (values of option 53).

pub const DHCPDISCOVER: u8 = 1;

pub const DHCPOFFER: u8 = 2;

pub const DHCPREQUEST: u8 = 3;

pub const DHCPACK: u8 = 5;

pub const DHCPNAK: u8 = 6;

/// One entry of the lease table: which MAC holds which last octet.
#[derive(Clone, Copy)]
pub struct Lease {
    pub mac: [u8; 6],
    pub last_octet: u8,
    pub used: bool,
}

impl Lease {
    /// A slot that nobody holds.
    pub fn empty() -> (lease: Lease)
        ensures
            !lease.used,
            lease.last_octet == 0,
            lease.mac@ == seq![0u8, 0, 0, 0, 0, 0],
    {
        Lease { mac: [0; 6], last_octet: 0, used: false }
    }
}

/// What a lease table entry says, with the MAC as a sequence.
pub struct Slot {
    pub mac: Seq<u8>,
    pub last_octet: u8,
    pub used: bool,
}

impl View for Lease {
    type V = Slot;

    open spec fn view(&self) -> Slot {
        Slot { mac: self.mac@, last_octet: self.last_octet, used: self.used }
    }
}

/// What a lease table says.
pub open spec fn slots(table: Seq<Lease>) -> Seq<Slot> {
    Seq::new(table.len(), |i: int| table[i]@)
}

/// The first slot that `mac` holds, or the table's length where it holds none.
pub open spec fn first_held(table: Seq<Slot>, mac: Seq<u8>) -> int
    decreases table.len(),
{
    if table.len() == 0 || table[0].used && table[0].mac == mac {
        0
    } else {
        1 + first_held(table.drop_first(), mac)
    }
}

/// The first slot that is free, or the table's length where none is.
pub open spec fn first_free(table: Seq<Slot>) -> int
    decreases table.len(),
{
    if table.len() == 0 || !table[0].used {
        0
    } else {
        1 + first_free(table.drop_first())
    }
}

/// The table after a client with `mac` asked for an address, and the last octet
/// that it gets: the one that it already holds, else that of the first free slot,
/// else none.
pub open spec fn allocation(table: Seq<Slot>, mac: Seq<u8>) -> (Seq<Slot>, Option<u8>) {
    let held = first_held(table, mac);
    let free = first_free(table);
    let octet = (POOL_BASE_LAST_OCTET + free) as u8;
    if held < table.len() {
        (table, Some(table[held].last_octet))
    } else if free < table.len() {
        (table.update(free, Slot { mac, last_octet: octet, used: true }), Some(octet))
    } else {
        (table, None)
    }
}

/// Slot `i` is the first that `mac` holds if no earlier one is.
proof fn lemma_first_held(table: Seq<Slot>, mac: Seq<u8>, i: int)
    requires
        0 <= i <= table.len(),
        forall|j: int| 0 <= j < i ==> !((#[trigger] table[j]).used && table[j].mac == mac),
        i < table.len() ==> table[i].used && table[i].mac == mac,
    ensures
        first_held(table, mac) == i,
    decreases table.len(),
{
    if i > 0 {
        let rest = table.drop_first();
        assert forall|j: int| 0 <= j < i - 1 implies !((#[trigger] rest[j]).used && rest[j].mac
            == mac) by {
            assert(rest[j] == table[j + 1]);
        }
        lemma_first_held(rest, mac, i - 1);
    }
}

/// Slot `i` is the first free one if every earlier one is used.
proof fn lemma_first_free(table: Seq<Slot>, i: int)
    requires
        0 <= i <= table.len(),
        forall|j: int| 0 <= j < i ==> (#[trigger] table[j]).used,
        i < table.len() ==> !table[i].used,
    ensures
        first_free(table) == i,
    decreases table.len(),
{
    if i > 0 {
        let rest = table.drop_first();
        assert forall|j: int| 0 <= j < i - 1 implies (#[trigger] rest[j]).used by {
            assert(rest[j] == table[j + 1]);
        }
        lemma_first_free(rest, i - 1);
    }
}

/// Pick or reuse an address for the client with this `mac`. Returns the last
/// octet of the leased address.
pub fn allocate(table: &mut [Lease; POOL_SIZE], mac: &[u8; 6]) -> (octet: Option<u8>)
    ensures
        (slots(final(table)@), octet) == allocation(slots(old(table)@), mac@),
{
    let ghost before = slots(table@);
    // A client that holds a lease keeps it.
    let mut i: usize = 0;
    while i < POOL_SIZE
        invariant
            i <= POOL_SIZE,
            table@ == old(table)@,
            before == slots(table@),
            forall|j: int| 0 <= j < i ==> !((#[trigger] before[j]).used && before[j].mac == mac@),
        decreases POOL_SIZE - i,
    {
        if table[i].used && same_bytes(table[i].mac.as_slice(), mac.as_slice()) {
            proof {
                lemma_first_held(before, mac@, i as int);
            }
            return Some(table[i].last_octet);
        }
        i += 1;
    }
    proof {
        lemma_first_held(before, mac@, POOL_SIZE as int);
    }
    // Otherwise it gets the first free slot.
    let mut k: usize = 0;
    while k < POOL_SIZE
        invariant
            k <= POOL_SIZE,
            table@ == old(table)@,
            before == slots(table@),
            first_held(before, mac@) == POOL_SIZE,
            forall|j: int| 0 <= j < k ==> (#[trigger] before[j]).used,
        decreases POOL_SIZE - k,
    {
        if !table[k].used {
            let last_octet: u8 = POOL_BASE_LAST_OCTET + k as u8;
            table[k] = Lease { mac: *mac, last_octet, used: true };
            proof {
                lemma_first_free(before, k as int);
                assert(slots(table@) =~= allocation(before, mac@).0);
            }
            return Some(last_octet);
        }
        k += 1;
    }
    proof {
        lemma_first_free(before, POOL_SIZE as int);
    }
    None
}

/// Read DHCP option 53 (message type) from the options area of a packet.
pub fn message_type(options: &[u8]) -> (found: Option<u8>)
    ensures
        found == message_type_of(options@),
{
    match find_option(options, OPT_MESSAGE_TYPE) {
        Some(value) => if value.len() > 0 {
            Some(value[0])
        } else {
            None
        },
        None => None,
    }
}

/// The message type that an options area carries: the first byte of option 53.
pub open spec fn message_type_of(options: Seq<u8>) -> Option<u8> {
    match option_value(options, OPT_MESSAGE_TYPE) {
        Some(value) => if value.len() > 0 {
            Some(value[0])
        } else {
            None
        },
        None => None,
    }
}

/// The value of the first option `code` in a list of `[code][len][value...]`
/// options. The list ends at an END option, at its last byte, or at an option
/// that is cut off; PAD options stand alone.
pub open spec fn option_value(options: Seq<u8>, code: u8) -> Option<Seq<u8>>
    decreases options.len(),
{
    if options.len() == 0 || options[0] == OPT_END {
        None
    } else if options[0] == OPT_PAD {
        option_value(options.skip(1), code)
    } else if options.len() < 2 || options.len() < 2 + options[1] {
        None
    } else if options[0] == code {
        Some(options.subrange(2, 2 + options[1]))
    } else {
        option_value(options.skip(2 + options[1]), code)
    }
}

/// Walk the option list and return the value of `code`, if present.
pub fn find_option(options: &[u8], code: u8) -> (found: Option<&[u8]>)
    ensures
        match found {
            Some(value) => option_value(options@, code) == Some(value@),
            None => option_value(options@, code) is None,
        },
{
    let mut i: usize = 0;
    assert(options@.skip(0) =~= options@);
    while i < options.len()
        invariant
            i <= options@.len(),
            option_value(options@, code) == option_value(options@.skip(i as int), code),
        decreases options@.len() - i,
    {
        let ghost rest = options@.skip(i as int);
        let opt: u8 = options[i];
        if opt == OPT_END {
            return None;
        }
        if opt == OPT_PAD {
            assert(rest.skip(1) =~= options@.skip(i + 1));
            i += 1;
            continue;
        }
        if options.len() - i < 2 {
            return None;
        }
        let len: usize = options[i + 1] as usize;
        if options.len() - i - 2 < len {
            return None;
        }
        let start: usize = i + 2;
        let end: usize = start + len;
        if opt == code {
            assert(rest.subrange(2, 2 + rest[1]) =~= options@.subrange(start as int, end as int));
            return Some(&options[start..end]);
        }
        assert(rest.skip(2 + rest[1]) =~= options@.skip(end as int));
        i = end;
    }
    None
}

/// An option as it stands in a packet: code, length, value.
pub open spec fn option_bytes(code: u8, value: Seq<u8>) -> Seq<u8> {
    seq![code, (value.len() % 256) as u8] + value
}

/// Append an option to `buf` at `*pos`, advancing `*pos`.
pub fn put_option(buf: &mut [u8], pos: &mut usize, code: u8, value: &[u8])
    requires
        *old(pos) + 2 + value@.len() <= old(buf)@.len(),
    ensures
        final(buf)@ == overwritten(old(buf)@, *old(pos) as int, option_bytes(code, value@)),
        *final(pos) == *old(pos) + 2 + value@.len(),
{
    let total: usize = buf.len();
    let at: usize = *pos;
    let len: usize = value.len();
    buf[at] = code;
    buf[at + 1] = (len % 256) as u8;
    copy_into(buf, at + 2, value);
    *pos = at + 2 + len;
    assert(buf@ =~= overwritten(old(buf)@, at as int, option_bytes(code, value@)));
}

/// `n` zero bytes.
pub open spec fn zeros(n: nat) -> Seq<u8> {
    Seq::new(n, |i: int| 0u8)
}

/// The fixed BOOTP header of a reply to `req`, up to and with the magic cookie.
pub open spec fn reply_header(req: Seq<u8>, offered_ip: Seq<u8>) -> Seq<u8> {
    seq![OP_BOOTREPLY, HTYPE_ETHERNET, HLEN_ETHERNET, 0u8]  // op, htype, hlen, hops
         + req.subrange(4, 8)  // xid
         + req.subrange(8, 12)  // secs and flags
         + zeros(4)  // ciaddr
         + offered_ip  // yiaddr
         + SERVER_OCTETS@  // siaddr
         + zeros(4)  // giaddr
         + req.subrange(28, 44)  // chaddr
         + zeros(192)  // sname and file
         + MAGIC_COOKIE@
}

/// The options of a reply.
pub open spec fn reply_options(msg_type: u8) -> Seq<u8> {
    option_bytes(OPT_MESSAGE_TYPE, seq![msg_type])
         + option_bytes(OPT_SERVER_ID, SERVER_OCTETS@)
         + option_bytes(OPT_LEASE_TIME, big_endian(LEASE_SECS))
         + option_bytes(OPT_SUBNET_MASK, SUBNET_MASK@)
         + option_bytes(OPT_ROUTER, SERVER_OCTETS@)
         + option_bytes(OPT_DNS, SERVER_OCTETS@)
         + seq![OPT_END]
}

/// A whole reply to `req` that hands out `offered_ip`.
pub open spec fn reply_bytes(req: Seq<u8>, offered_ip: Seq<u8>, msg_type: u8) -> Seq<u8> {
    reply_header(req, offered_ip) + reply_options(msg_type)
}

/// Write the fixed header of a reply to the front of `out`.
#[verifier::rlimit(40)]
fn write_header(req: &[u8], out: &mut [u8], offered_ip: [u8; 4])
    requires
        req@.len() >= 44,
        old(out)@.len() >= HEADER_LEN,
    ensures
        reply_header(req@, offered_ip@).len() == HEADER_LEN,
        final(out)@ == overwritten(old(out)@, 0, reply_header(req@, offered_ip@)),
{
    clear_first(out, HEADER_LEN);
    out[0] = OP_BOOTREPLY;
    out[1] = HTYPE_ETHERNET;
    out[2] = HLEN_ETHERNET;
    copy_into(out, 4, &req[4..8]);
    // The broadcast flag is among the flags that are echoed.
    copy_into(out, 8, &req[8..12]);
    copy_into(out, 16, offered_ip.as_slice());
    copy_into(out, 20, SERVER_OCTETS.as_slice());
    copy_into(out, 28, &req[28..44]);
    copy_into(out, 236, MAGIC_COOKIE.as_slice());
    assert(out@ =~= overwritten(old(out)@, 0, reply_header(req@, offered_ip@)));
}

/// Write the options of a reply behind its header.
fn write_options(out: &mut [u8], msg_type: u8) -> (len: usize)
    requires
        old(out)@.len() >= REPLY_LEN,
    ensures
        len == REPLY_LEN,
        reply_options(msg_type).len() == REPLY_LEN - HEADER_LEN,
        final(out)@ == overwritten(old(out)@, HEADER_LEN as int, reply_options(msg_type)),
{
    let mut pos: usize = HEADER_LEN;
    let ghost start = out@;
    let ghost mut done = option_bytes(OPT_MESSAGE_TYPE, seq![msg_type]);
    assert([msg_type]@ =~= seq![msg_type]);
    put_option(out, &mut pos, OPT_MESSAGE_TYPE, [msg_type].as_slice());
    proof {
        lemma_overwrite_on(start, 240, done, option_bytes(OPT_SERVER_ID, SERVER_OCTETS@));
        done = done + option_bytes(OPT_SERVER_ID, SERVER_OCTETS@);
    }
    put_option(out, &mut pos, OPT_SERVER_ID, SERVER_OCTETS.as_slice());
    proof {
        lemma_overwrite_on(start, 240, done, option_bytes(OPT_LEASE_TIME, big_endian(LEASE_SECS)));
        done = done + option_bytes(OPT_LEASE_TIME, big_endian(LEASE_SECS));
    }
    put_option(out, &mut pos, OPT_LEASE_TIME, to_big_endian(LEASE_SECS).as_slice());
    proof {
        lemma_overwrite_on(start, 240, done, option_bytes(OPT_SUBNET_MASK, SUBNET_MASK@));
        done = done + option_bytes(OPT_SUBNET_MASK, SUBNET_MASK@);
    }
    put_option(out, &mut pos, OPT_SUBNET_MASK, SUBNET_MASK.as_slice());
    proof {
        lemma_overwrite_on(start, 240, done, option_bytes(OPT_ROUTER, SERVER_OCTETS@));
        done = done + option_bytes(OPT_ROUTER, SERVER_OCTETS@);
    }
    put_option(out, &mut pos, OPT_ROUTER, SERVER_OCTETS.as_slice());
    proof {
        lemma_overwrite_on(start, 240, done, option_bytes(OPT_DNS, SERVER_OCTETS@));
        done = done + option_bytes(OPT_DNS, SERVER_OCTETS@);
    }
    put_option(out, &mut pos, OPT_DNS, SERVER_OCTETS.as_slice());
    proof {
        lemma_overwrite_on(start, 240, done, seq![OPT_END]);
        assert(overwritten(out@, 273, seq![OPT_END]) =~= out@.update(273, OPT_END));
    }
    out[pos] = OPT_END;
    pos + 1
}

/// Build a BOOTREPLY into `out` from the incoming `req`, offering or
/// acknowledging `offered_ip`. Returns the number of bytes written.
pub fn build_reply(req: &[u8], out: &mut [u8], offered_ip: [u8; 4], msg_type: u8) -> (len: usize)
    requires
        req@.len() >= 44,
        old(out)@.len() >= REPLY_LEN,
    ensures
        len == REPLY_LEN,
        reply_bytes(req@, offered_ip@, msg_type).len() == REPLY_LEN,
        final(out)@ == overwritten(old(out)@, 0, reply_bytes(req@, offered_ip@, msg_type)),
{
    write_header(req, out, offered_ip);
    let len: usize = write_options(out, msg_type);
    proof {
        lemma_overwrite_on(
            old(out)@,
            0,
            reply_header(req@, offered_ip@),
            reply_options(msg_type),
        );
    }
    len
}

/// Build a DHCPNAK, for a REQUEST that cannot be satisfied. Returns its length.
pub fn build_nak(req: &[u8], out: &mut [u8]) -> (len: usize)
    requires
        req@.len() >= 44,
        old(out)@.len() >= REPLY_LEN,
    ensures
        len == REPLY_LEN,
        final(out)@ == overwritten(
            old(out)@,
            0,
            reply_bytes(req@, seq![0u8, 0, 0, 0], DHCPNAK),
        ),
{
    let nobody: [u8; 4] = [0, 0, 0, 0];
    assert(nobody@ =~= seq![0u8, 0, 0, 0]);
    build_reply(req, out, nobody, DHCPNAK)
}

/// The message type of a packet that the server looks at: a BOOTREQUEST with a
/// whole header, the magic cookie, and option 53.
pub open spec fn request_type(packet: Seq<u8>) -> Option<u8> {
    if packet.len() >= HEADER_LEN && packet[0] == OP_BOOTREQUEST && packet.subrange(236, 240)
        == MAGIC_COOKIE@ {
        message_type_of(packet.skip(HEADER_LEN as int))
    } else {
        None
    }
}

/// The hardware address of the client that sent a packet.
pub open spec fn client_mac(packet: Seq<u8>) -> Seq<u8> {
    packet.subrange(28, 34)
}

/// 192.168.4.`last_octet`.
pub open spec fn pool_address(last_octet: u8) -> Seq<u8> {
    seq![192u8, 168, 4, last_octet]
}

/// The reply that a packet gets, if any: an OFFER for a DISCOVER, an ACK for a
/// REQUEST, and a NAK for a REQUEST when the pool is exhausted.
pub open spec fn answer(table: Seq<Slot>, packet: Seq<u8>) -> Option<Seq<u8>> {
    let kind = request_type(packet);
    let octet = allocation(table, client_mac(packet)).1;
    if kind == Some(DHCPDISCOVER) {
        match octet {
            Some(last) => Some(reply_bytes(packet, pool_address(last), DHCPOFFER)),
            None => None,
        }
    } else if kind == Some(DHCPREQUEST) {
        match octet {
            Some(last) => Some(reply_bytes(packet, pool_address(last), DHCPACK)),
            None => Some(reply_bytes(packet, seq![0u8, 0, 0, 0], DHCPNAK)),
        }
    } else {
        None
    }
}

/// The lease table after a packet.
pub open spec fn table_after(table: Seq<Slot>, packet: Seq<u8>) -> Seq<Slot> {
    let kind = request_type(packet);
    if kind == Some(DHCPDISCOVER) || kind == Some(DHCPREQUEST) {
        allocation(table, client_mac(packet)).0
    } else {
        table
    }
}

/// Handle one received packet. Returns the length of the reply in `out`, to be
/// broadcast to the clients, or `None` where the packet gets none.
pub fn serve(leases: &mut [Lease; POOL_SIZE], packet: &[u8], out: &mut [u8]) -> (reply: Option<
    usize,
>)
    requires
        old(out)@.len() >= REPLY_LEN,
    ensures
        slots(final(leases)@) == table_after(slots(old(leases)@), packet@),
        match answer(slots(old(leases)@), packet@) {
            Some(bytes) => {
                &&& reply == Some(REPLY_LEN)
                &&& bytes.len() == REPLY_LEN
                &&& final(out)@ == overwritten(old(out)@, 0, bytes)
            },
            None => reply is None && final(out)@ == old(out)@,
        },
{
    if packet.len() < HEADER_LEN || packet[0] != OP_BOOTREQUEST {
        return None;
    }
    if !same_bytes(&packet[236..240], MAGIC_COOKIE.as_slice()) {
        return None;
    }
    assert(packet@.subrange(240, packet@.len() as int) =~= packet@.skip(240));
    let kind: u8 = match message_type(&packet[240..packet.len()]) {
        Some(kind) => kind,
        None => {
            return None;
        },
    };
    // RELEASE, INFORM and DECLINE are ignored.
    if kind != DHCPDISCOVER && kind != DHCPREQUEST {
        return None;
    }
    let mac: [u8; 6] = [packet[28], packet[29], packet[30], packet[31], packet[32], packet[33]];
    assert(mac@ =~= client_mac(packet@));
    match allocate(leases, &mac) {
        Some(last) => {
            let ip: [u8; 4] = [192, 168, 4, last];
            assert(ip@ =~= pool_address(last));
            let msg_type: u8 = if kind == DHCPDISCOVER {
                DHCPOFFER
            } else {
                DHCPACK
            };
            Some(build_reply(packet, out, ip, msg_type))
        },
        None => {
            // The pool is exhausted: a DISCOVER is dropped, a REQUEST refused.
            if kind == DHCPDISCOVER {
                None
            } else {
                Some(build_nak(packet, out))
            }
        },
    }
}

/// A lease table as the server keeps it: the used slots come first, the slot
/// decides the address, and no client holds two slots.
pub open spec fn valid_table(table: Seq<Slot>) -> bool {
    &&& table.len() == POOL_SIZE
    &&& forall|i: int, j: int|
        0 <= i < j < POOL_SIZE && (#[trigger] table[j]).used ==> (#[trigger] table[i]).used
    &&& forall|i: int|
        0 <= i < POOL_SIZE && (#[trigger] table[i]).used ==> table[i].last_octet
            == POOL_BASE_LAST_OCTET + i
    &&& forall|i: int, j: int|
        0 <= i < j < POOL_SIZE && (#[trigger] table[i]).used && (#[trigger] table[j]).used
            ==> table[i].mac != table[j].mac
}

/// The table after a sequence of packets.
pub open spec fn table_after_all(table: Seq<Slot>, packets: Seq<Seq<u8>>) -> Seq<Slot>
    decreases packets.len(),
{
    if packets.len() == 0 {
        table
    } else {
        table_after(table_after_all(table, packets.drop_last()), packets.last())
    }
}

/// What [`first_held`] and [`first_free`] point at.
proof fn lemma_firsts(table: Seq<Slot>, mac: Seq<u8>)
    ensures
        0 <= first_held(table, mac) <= table.len(),
        0 <= first_free(table) <= table.len(),
        first_held(table, mac) < table.len() ==> table[first_held(table, mac)].used
            && table[first_held(table, mac)].mac == mac,
        first_free(table) < table.len() ==> !table[first_free(table)].used,
        forall|j: int|
            0 <= j < first_held(table, mac) ==> !((#[trigger] table[j]).used && table[j].mac
                == mac),
        forall|j: int| 0 <= j < first_free(table) ==> (#[trigger] table[j]).used,
    decreases table.len(),
{
    if table.len() > 0 {
        let rest = table.drop_first();
        lemma_firsts(rest, mac);
        assert forall|j: int| 0 <= j < first_held(table, mac) implies !((
        #[trigger] table[j]).used && table[j].mac == mac) by {
            if j > 0 {
                assert(table[j] == rest[j - 1]);
            }
        }
        assert forall|j: int| 0 <= j < first_free(table) implies (#[trigger] table[j]).used by {
            if j > 0 {
                assert(table[j] == rest[j - 1]);
            }
        }
    }
}

/// A table without leases is valid.
pub proof fn law_empty_table_is_valid(table: Seq<Slot>)
    requires
        table.len() == POOL_SIZE,
        forall|i: int| 0 <= i < POOL_SIZE ==> !(#[trigger] table[i]).used,
    ensures
        valid_table(table),
{
}

/// Whatever packet arrives, a valid table stays valid.
pub proof fn law_table_stays_valid(table: Seq<Slot>, packet: Seq<u8>)
    requires
        valid_table(table),
    ensures
        valid_table(table_after(table, packet)),
{
    lemma_firsts(table, client_mac(packet));
}

/// Whatever packets arrive, in whatever order, a valid table stays valid.
pub proof fn law_table_is_always_valid(table: Seq<Slot>, packets: Seq<Seq<u8>>)
    requires
        valid_table(table),
    ensures
        valid_table(table_after_all(table, packets)),
    decreases packets.len(),
{
    if packets.len() > 0 {
        law_table_is_always_valid(table, packets.drop_last());
        law_table_stays_valid(table_after_all(table, packets.drop_last()), packets.last());
    }
}

/// A client that got an address gets the same one again, and asking again changes
/// no lease.
pub proof fn law_lease_is_sticky(table: Seq<Slot>, mac: Seq<u8>)
    ensures
        allocation(allocation(table, mac).0, mac) == allocation(table, mac),
{
    let (after, octet) = allocation(table, mac);
    lemma_firsts(table, mac);
    if first_held(table, mac) == table.len() && first_free(table) < table.len() {
        lemma_first_held(after, mac, first_free(table));
    }
}

/// A client that holds an address keeps it, whatever packets arrive in between.
pub proof fn law_lease_is_kept(table: Seq<Slot>, packets: Seq<Seq<u8>>, mac: Seq<u8>)
    requires
        first_held(table, mac) < table.len(),
    ensures
        first_held(table_after_all(table, packets), mac) == first_held(table, mac),
        allocation(table_after_all(table, packets), mac).1 == allocation(table, mac).1,
    decreases packets.len(),
{
    if packets.len() > 0 {
        let before = table_after_all(table, packets.drop_last());
        let after = table_after_all(table, packets);
        law_lease_is_kept(table, packets.drop_last(), mac);
        lemma_firsts(before, mac);
        lemma_firsts(before, client_mac(packets.last()));
        lemma_firsts(table, mac);
        lemma_table_len(table, packets.drop_last());
        lemma_first_held(after, mac, first_held(table, mac));
    }
}

/// Packets do not change the size of the table.
proof fn lemma_table_len(table: Seq<Slot>, packets: Seq<Seq<u8>>)
    ensures
        table_after_all(table, packets).len() == table.len(),
    decreases packets.len(),
{
    if packets.len() > 0 {
        lemma_table_len(table, packets.drop_last());
        lemma_firsts(table_after_all(table, packets.drop_last()), client_mac(packets.last()));
    }
}

/// Two clients never share an address, and every address comes from the pool,
/// which does not hold the server's own.
pub proof fn law_addresses_are_distinct(table: Seq<Slot>, a: Seq<u8>, b: Seq<u8>)
    requires
        valid_table(table),
        a != b,
    ensures
        match (allocation(table, a).1, allocation(allocation(table, a).0, b).1) {
            (Some(x), Some(y)) => x != y,
            _ => true,
        },
        match allocation(table, a).1 {
            Some(x) => POOL_BASE_LAST_OCTET <= x < POOL_BASE_LAST_OCTET + POOL_SIZE
                && pool_address(x) != SERVER_OCTETS@,
            None => true,
        },
{
    let (after, _) = allocation(table, a);
    lemma_firsts(table, a);
    lemma_firsts(after, b);
    assert forall|x: u8| x != 1 implies #[trigger] pool_address(x) != SERVER_OCTETS@ by {
        assert(pool_address(x)[3] == x);
        assert(SERVER_OCTETS@[3] == 1);
    }
}

/// While a slot is free, every client gets an address; once none is, only those
/// that hold one do: the DISCOVER of another is dropped and its REQUEST refused.
pub proof fn law_pool_exhaustion(table: Seq<Slot>, packet: Seq<u8>)
    requires
        valid_table(table),
    ensures
        allocation(table, client_mac(packet)).1 is None <==> first_free(table) == POOL_SIZE
            && first_held(table, client_mac(packet)) == POOL_SIZE,
        allocation(table, client_mac(packet)).1 is None && request_type(packet) == Some(
            DHCPDISCOVER,
        ) ==> answer(table, packet) is None,
        allocation(table, client_mac(packet)).1 is None && request_type(packet) == Some(DHCPREQUEST)
            ==> answer(table, packet) == Some(
            reply_bytes(packet, seq![0u8, 0, 0, 0], DHCPNAK),
        ),
{
    lemma_firsts(table, client_mac(packet));
}

/// Looking an option up in a list that starts with another option skips that one.
proof fn lemma_option_skipped(first: u8, value: Seq<u8>, rest: Seq<u8>, code: u8)
    requires
        first != OPT_PAD,
        first != OPT_END,
        value.len() < 256,
    ensures
        option_value(option_bytes(first, value) + rest, code) == (if first == code {
            Some(value)
        } else {
            option_value(rest, code)
        }),
{
    let list = option_bytes(first, value) + rest;
    assert(list.subrange(2, 2 + value.len() as int) =~= value);
    assert(list.skip(2 + value.len() as int) =~= rest);
}

/// A client reads back from a reply what the server means to tell it: the message
/// type, and this device as server, router and DNS.
pub proof fn law_reply_is_readable(req: Seq<u8>, offered_ip: Seq<u8>, msg_type: u8)
    requires
        req.len() >= 44,
        offered_ip.len() == 4,
    ensures
        ({
            let options = reply_bytes(req, offered_ip, msg_type).skip(HEADER_LEN as int);
            &&& message_type_of(options) == Some(msg_type)
            &&& option_value(options, OPT_SERVER_ID) == Some(SERVER_OCTETS@)
            &&& option_value(options, OPT_LEASE_TIME) == Some(big_endian(LEASE_SECS))
            &&& option_value(options, OPT_SUBNET_MASK) == Some(SUBNET_MASK@)
            &&& option_value(options, OPT_ROUTER) == Some(SERVER_OCTETS@)
            &&& option_value(options, OPT_DNS) == Some(SERVER_OCTETS@)
        }),
{
    let options = reply_bytes(req, offered_ip, msg_type).skip(HEADER_LEN as int);
    assert(options =~= reply_options(msg_type));
    let end = seq![OPT_END];
    let from_dns = option_bytes(OPT_DNS, SERVER_OCTETS@) + end;
    let from_router = option_bytes(OPT_ROUTER, SERVER_OCTETS@) + from_dns;
    let from_mask = option_bytes(OPT_SUBNET_MASK, SUBNET_MASK@) + from_router;
    let from_time = option_bytes(OPT_LEASE_TIME, big_endian(LEASE_SECS)) + from_mask;
    let from_id = option_bytes(OPT_SERVER_ID, SERVER_OCTETS@) + from_time;
    assert(options =~= option_bytes(OPT_MESSAGE_TYPE, seq![msg_type]) + from_id);
    assert forall|code: u8| true implies #[trigger] option_value(options, code) == (if code
        == OPT_MESSAGE_TYPE {
        Some(seq![msg_type])
    } else if code == OPT_SERVER_ID {
        Some(SERVER_OCTETS@)
    } else if code == OPT_LEASE_TIME {
        Some(big_endian(LEASE_SECS))
    } else if code == OPT_SUBNET_MASK {
        Some(SUBNET_MASK@)
    } else if code == OPT_ROUTER {
        Some(SERVER_OCTETS@)
    } else if code == OPT_DNS {
        Some(SERVER_OCTETS@)
    } else {
        None
    }) by {
        lemma_option_skipped(OPT_MESSAGE_TYPE, seq![msg_type], from_id, code);
        lemma_option_skipped(OPT_SERVER_ID, SERVER_OCTETS@, from_time, code);
        lemma_option_skipped(OPT_LEASE_TIME, big_endian(LEASE_SECS), from_mask, code);
        lemma_option_skipped(OPT_SUBNET_MASK, SUBNET_MASK@, from_router, code);
        lemma_option_skipped(OPT_ROUTER, SERVER_OCTETS@, from_dns, code);
        lemma_option_skipped(OPT_DNS, SERVER_OCTETS@, end, code);
    }
}

/// A reply repeats the request's transaction id, secs, flags and hardware address, and
/// carries the offered address.
pub proof fn law_reply_matches_request(req: Seq<u8>, offered_ip: Seq<u8>, msg_type: u8)
    requires
        req.len() >= 44,
        offered_ip.len() == 4,
    ensures
        ({
            let reply = reply_bytes(req, offered_ip, msg_type);
            &&& reply.len() == REPLY_LEN
            &&& reply[0] == OP_BOOTREPLY
            &&& reply.subrange(4, 8) == req.subrange(4, 8)
            &&& reply.subrange(8, 12) == req.subrange(8, 12)
            &&& reply.subrange(16, 20) == offered_ip
            &&& reply.subrange(28, 44) == req.subrange(28, 44)
            &&& reply.subrange(236, 240) == MAGIC_COOKIE@
        }),
{
    let reply = reply_bytes(req, offered_ip, msg_type);
    assert(reply.subrange(4, 8) =~= req.subrange(4, 8));
    assert(reply.subrange(8, 12) =~= req.subrange(8, 12));
    assert(reply.subrange(16, 20) =~= offered_ip);
    assert(reply.subrange(28, 44) =~= req.subrange(28, 44));
    assert(reply.subrange(236, 240) =~= MAGIC_COOKIE@);
}

// ---- what a client can rely on ----

/// Options one after the other, as they stand in a packet: a code of 0 is a lone byte of
/// padding, any other code is followed by the length of its value and the value.
pub open spec fn options_bytes(items: Seq<(u8, Seq<u8>)>) -> Seq<u8>
    decreases items.len(),
{
    if items.len() == 0 {
        seq![]
    } else if items[0].0 == 0 {
        seq![0u8] + options_bytes(items.drop_first())
    } else {
        seq![items[0].0, items[0].1.len() as u8] + items[0].1 + options_bytes(items.drop_first())
    }
}

/// Whether `items` can stand before the option `code` without hiding it: none of them is
/// an END, has that code, or is longer than an option can be.
pub open spec fn pass_over(items: Seq<(u8, Seq<u8>)>, code: u8) -> bool {
    forall|i: int|
        0 <= i < items.len() ==> (#[trigger] items[i]).0 != 255 && items[i].0 != code
            && items[i].1.len() < 256
}

/// Looking `code` up goes on behind items that do not have it.
proof fn lemma_passed_over(items: Seq<(u8, Seq<u8>)>, code: u8, rest: Seq<u8>)
    requires
        pass_over(items, code),
    ensures
        option_value(options_bytes(items) + rest, code) == option_value(rest, code),
    decreases items.len(),
{
    if items.len() == 0 {
        assert(options_bytes(items) + rest =~= rest);
    } else {
        let first = items[0];
        let others = items.drop_first();
        assert forall|i: int| 0 <= i < others.len() implies (#[trigger] others[i]).0 != 255
            && others[i].0 != code && others[i].1.len() < 256 by {
            assert(others[i] == items[i + 1]);
        }
        lemma_passed_over(others, code, rest);
        let list = options_bytes(items) + rest;
        let tail = options_bytes(others) + rest;
        if first.0 == 0 {
            assert(list.skip(1) =~= tail);
        } else {
            assert(list.skip(2 + first.1.len() as int) =~= tail);
            assert(list[1] == first.1.len());
        }
    }
}

/// An option is found behind any padding and any other options, and whatever follows it.
pub proof fn law_option_is_found(
    items: Seq<(u8, Seq<u8>)>,
    code: u8,
    value: Seq<u8>,
    rest: Seq<u8>,
)
    requires
        code != 0,
        code != 255,
        pass_over(items, code),
        value.len() < 256,
    ensures
        option_value(
            options_bytes(items) + (seq![code, value.len() as u8] + value + rest),
            code,
        ) == Some(value),
{
    let list = seq![code, value.len() as u8] + value + rest;
    lemma_passed_over(items, code, list);
    assert(list.subrange(2, 2 + value.len() as int) =~= value);
    assert(list[1] == value.len());
}

/// An option is missing where the list ends before it: at its last byte, at an END, or
/// at an option that is cut off.
pub proof fn law_option_is_missing(items: Seq<(u8, Seq<u8>)>, code: u8, tail: Seq<u8>)
    requires
        pass_over(items, code),
        tail.len() == 0 || tail[0] == 255 || tail[0] != 0 && (tail.len() == 1 || tail.len() < 2
            + tail[1]),
    ensures
        option_value(options_bytes(items) + tail, code) is None,
{
    lemma_passed_over(items, code, tail);
}

/// An option that was written is found again, whatever its value is.
pub proof fn law_written_option_is_found(code: u8, value: Seq<u8>, rest: Seq<u8>)
    requires
        code != 0,
        code != 255,
        value.len() < 256,
    ensures
        option_bytes(code, value) == seq![code, value.len() as u8] + value,
        option_value(option_bytes(code, value) + rest, code) == Some(value),
{
    law_option_is_found(seq![], code, value, rest);
    assert(options_bytes(seq![]) + (seq![code, value.len() as u8] + value + rest)
        =~= option_bytes(code, value) + rest);
}

/// Whether `reply` answers `packet` with the address `ip` and the message type `kind`,
/// byte by byte.
pub open spec fn is_reply(reply: Seq<u8>, packet: Seq<u8>, ip: Seq<u8>, kind: u8) -> bool {
    &&& reply.len() == 274
    // A BOOTREPLY over Ethernet.
    &&& reply.subrange(0, 4) == seq![2u8, 1, 6, 0]
    // Transaction id, secs and flags as in the packet.
    &&& reply.subrange(4, 12) == packet.subrange(4, 12)
    &&& reply.subrange(12, 16) == seq![0u8, 0, 0, 0]
    &&& reply.subrange(16, 20) == ip
    &&& reply.subrange(20, 24) == seq![192u8, 168, 4, 1]
    &&& reply.subrange(24, 28) == seq![0u8, 0, 0, 0]
    // The client's hardware address.
    &&& reply.subrange(28, 44) == packet.subrange(28, 44)
    &&& forall|i: int| 44 <= i < 236 ==> #[trigger] reply[i] == 0
    &&& reply.subrange(236, 240) == seq![99u8, 130, 83, 99]
    // Message type, server, an hour of lease, mask, router, DNS, END.
    &&& reply.subrange(240, 274) == seq![
        53u8, 1, kind, 54, 4, 192, 168, 4, 1, 51, 4, 0, 0, 14, 16, 1, 4, 255, 255, 255, 0, 3, 4,
        192, 168, 4, 1, 6, 4, 192, 168, 4, 1, 255,
    ]
}

/// The options of a reply, byte by byte.
#[verifier::rlimit(40)]
proof fn lemma_reply_options(kind: u8)
    ensures
        reply_options(kind) == seq![
            53u8, 1, kind, 54, 4, 192, 168, 4, 1, 51, 4, 0, 0, 14, 16, 1, 4, 255, 255, 255, 0, 3,
            4, 192, 168, 4, 1, 6, 4, 192, 168, 4, 1, 255,
        ],
{
    assert(big_endian(LEASE_SECS) =~= seq![0u8, 0, 14, 16]);
    assert(reply_options(kind) =~= seq![
        53u8, 1, kind, 54, 4, 192, 168, 4, 1, 51, 4, 0, 0, 14, 16, 1, 4, 255, 255, 255, 0, 3, 4,
        192, 168, 4, 1, 6, 4, 192, 168, 4, 1, 255,
    ]);
}

/// Every reply has these bytes.
#[verifier::rlimit(40)]
pub proof fn law_reply_is_exact(packet: Seq<u8>, ip: Seq<u8>, kind: u8)
    requires
        packet.len() >= 44,
        ip.len() == 4,
    ensures
        is_reply(reply_bytes(packet, ip, kind), packet, ip, kind),
{
    let head = reply_header(packet, ip);
    let options = reply_options(kind);
    let reply = reply_bytes(packet, ip, kind);
    lemma_reply_options(kind);
    assert(head.len() == 240);
    assert(reply.subrange(240, 274) =~= options);
    assert(forall|i: int| 0 <= i < 240 ==> reply[i] == head[i]);
    assert(reply.subrange(0, 4) =~= seq![2u8, 1, 6, 0]);
    assert(reply.subrange(4, 12) =~= packet.subrange(4, 12));
    assert(reply.subrange(12, 16) =~= seq![0u8, 0, 0, 0]);
    assert(reply.subrange(16, 20) =~= ip);
    assert(reply.subrange(20, 24) =~= seq![192u8, 168, 4, 1]);
    assert(reply.subrange(24, 28) =~= seq![0u8, 0, 0, 0]);
    assert(reply.subrange(28, 44) =~= packet.subrange(28, 44));
    assert(reply.subrange(236, 240) =~= seq![99u8, 130, 83, 99]);
}

/// Whether `packet` is a client's message whose type is the first byte of `value`: a
/// BOOTREQUEST with the magic cookie, and option 53 behind `items`. Nothing is said of
/// any other byte of the header, nor of what follows.
pub open spec fn is_message(
    packet: Seq<u8>,
    items: Seq<(u8, Seq<u8>)>,
    value: Seq<u8>,
    rest: Seq<u8>,
) -> bool {
    &&& packet.len() >= 240
    &&& packet[0] == 1
    &&& packet.subrange(236, 240) == seq![99u8, 130, 83, 99]
    &&& packet.skip(240) == options_bytes(items) + (seq![53u8, value.len() as u8] + value + rest)
    &&& pass_over(items, 53)
    &&& 1 <= value.len() < 256
}

/// What the server takes a client's message for.
proof fn lemma_message(
    packet: Seq<u8>,
    items: Seq<(u8, Seq<u8>)>,
    value: Seq<u8>,
    rest: Seq<u8>,
)
    requires
        is_message(packet, items, value, rest),
    ensures
        request_type(packet) == Some(value[0]),
        client_mac(packet) == packet.subrange(28, 34),
{
    law_option_is_found(items, 53, value, rest);
    assert(MAGIC_COOKIE@ =~= seq![99u8, 130, 83, 99]);
}

/// Whether slot `i` is the client's after its message, and the only one that may have
/// changed.
pub open spec fn takes_slot(
    before: Seq<Slot>,
    after: Seq<Slot>,
    mac: Seq<u8>,
    i: int,
) -> bool {
    &&& 0 <= i < POOL_SIZE
    &&& after[i].used && after[i].mac == mac
    &&& before[i].used ==> after[i] == before[i]
    &&& after.len() == before.len()
    &&& forall|j: int| 0 <= j < POOL_SIZE && j != i ==> #[trigger] after[j] == before[j]
}

/// Every client gets an address as long as a slot is free or its own: a DISCOVER is
/// answered with an OFFER and a REQUEST with an ACK of the address of the slot that the
/// client holds afterwards, whatever else stands in the packet.
#[verifier::rlimit(40)]
pub proof fn law_client_gets_an_address(
    table: Seq<Slot>,
    packet: Seq<u8>,
    items: Seq<(u8, Seq<u8>)>,
    value: Seq<u8>,
    rest: Seq<u8>,
)
    requires
        valid_table(table),
        is_message(packet, items, value, rest),
        value[0] == 1 || value[0] == 3,
        exists|i: int|
            0 <= i < POOL_SIZE && (!(#[trigger] table[i]).used || table[i].mac
                == packet.subrange(28, 34)),
    ensures
        exists|i: int| #[trigger]
            takes_slot(table, table_after(table, packet), packet.subrange(28, 34), i) && (
            answer(table, packet) matches Some(reply) && is_reply(
                reply,
                packet,
                seq![192u8, 168, 4, (10 + i) as u8],
                if value[0] == 1 {
                    2
                } else {
                    5
                },
            )),
{
    let mac = packet.subrange(28, 34);
    let after = table_after(table, packet);
    lemma_message(packet, items, value, rest);
    lemma_firsts(table, mac);
    let held = first_held(table, mac);
    let free = first_free(table);
    let w = choose|i: int|
        0 <= i < POOL_SIZE && (!(#[trigger] table[i]).used || table[i].mac == mac);
    let i = if held < POOL_SIZE {
        held
    } else {
        free
    };
    assert(held < POOL_SIZE || free < POOL_SIZE) by {
        if table[w].used {
            assert(held <= w);
        } else {
            assert(free <= w);
        }
    }
    assert(takes_slot(table, after, mac, i));
    let octet = (10 + i) as u8;
    assert(pool_address(octet) =~= seq![192u8, 168, 4, octet]);
    law_reply_is_exact(packet, pool_address(octet), 2);
    law_reply_is_exact(packet, pool_address(octet), 5);
}

/// A client without a lease gets none once every slot is another's: its DISCOVER is
/// dropped, its REQUEST is answered with a NAK, and no lease changes.
pub proof fn law_exhausted_pool_refuses(
    table: Seq<Slot>,
    packet: Seq<u8>,
    items: Seq<(u8, Seq<u8>)>,
    value: Seq<u8>,
    rest: Seq<u8>,
)
    requires
        valid_table(table),
        is_message(packet, items, value, rest),
        forall|i: int|
            0 <= i < POOL_SIZE ==> (#[trigger] table[i]).used && table[i].mac != packet.subrange(
                28,
                34,
            ),
    ensures
        table_after(table, packet) == table,
        value[0] == 1 ==> answer(table, packet) is None,
        value[0] == 3 ==> (answer(table, packet) matches Some(reply) && is_reply(
            reply,
            packet,
            seq![0u8, 0, 0, 0],
            6,
        )),
{
    lemma_message(packet, items, value, rest);
    lemma_firsts(table, packet.subrange(28, 34));
    law_reply_is_exact(packet, seq![0u8, 0, 0, 0], 6);
}

/// A message of any other type gets no reply and changes no lease.
pub proof fn law_other_types_are_ignored(
    table: Seq<Slot>,
    packet: Seq<u8>,
    items: Seq<(u8, Seq<u8>)>,
    value: Seq<u8>,
    rest: Seq<u8>,
)
    requires
        is_message(packet, items, value, rest),
        value[0] != 1,
        value[0] != 3,
    ensures
        answer(table, packet) is None,
        table_after(table, packet) == table,
{
    lemma_message(packet, items, value, rest);
}

/// What is no client's message gets no reply and changes no lease: a packet that is too
/// short, no BOOTREQUEST, without the magic cookie, or without a message type.
pub proof fn law_other_packets_are_ignored(
    table: Seq<Slot>,
    packet: Seq<u8>,
    items: Seq<(u8, Seq<u8>)>,
    tail: Seq<u8>,
)
    requires
        packet.len() < 240 || packet[0] != 1 || packet.subrange(236, 240) != seq![
            99u8,
            130,
            83,
            99,
        ] || (packet.skip(240) == options_bytes(items) + tail && pass_over(items, 53) && (
        tail.len() == 0 || tail[0] == 255 || tail[0] != 0 && (tail.len() == 1 || tail.len() < 2
            + tail[1] || tail[0] == 53 && tail[1] == 0))),
    ensures
        answer(table, packet) is None,
        table_after(table, packet) == table,
{
    assert(MAGIC_COOKIE@ =~= seq![99u8, 130, 83, 99]);
    if packet.len() >= 240 && packet.skip(240) == options_bytes(items) + tail && pass_over(
        items,
        53,
    ) {
        lemma_passed_over(items, 53, tail);
    }
}

/// A lease that was handed out stays as it is, whatever packets arrive.
pub proof fn law_leases_stay(table: Seq<Slot>, packets: Seq<Seq<u8>>)
    ensures
        table_after_all(table, packets).len() == table.len(),
        forall|i: int|
            0 <= i < table.len() && (#[trigger] table[i]).used ==> table_after_all(
                table,
                packets,
            )[i] == table[i],
    decreases packets.len(),
{
    lemma_table_len(table, packets);
    if packets.len() > 0 {
        let before = table_after_all(table, packets.drop_last());
        law_leases_stay(table, packets.drop_last());
        lemma_firsts(before, client_mac(packets.last()));
        assert forall|i: int| 0 <= i < table.len() && (#[trigger] table[i]).used implies
            table_after_all(table, packets)[i] == table[i] by {
            assert(before[i] == table[i]);
        }
    }
}

/// The same client gets the same address: while it holds slot `i`, each of its DISCOVERs
/// and REQUESTs is answered with the address of that slot, whatever packets arrived in
/// between, and its lease stays the only one that it has.
#[verifier::rlimit(40)]
pub proof fn law_same_client_same_address(
    table: Seq<Slot>,
    packets: Seq<Seq<u8>>,
    packet: Seq<u8>,
    items: Seq<(u8, Seq<u8>)>,
    value: Seq<u8>,
    rest: Seq<u8>,
    i: int,
)
    requires
        valid_table(table),
        0 <= i < POOL_SIZE,
        table[i].used,
        table[i].mac == packet.subrange(28, 34),
        is_message(packet, items, value, rest),
        value[0] == 1 || value[0] == 3,
    ensures
        table_after(table_after_all(table, packets), packet) == table_after_all(table, packets),
        answer(table_after_all(table, packets), packet) matches Some(reply) && is_reply(
            reply,
            packet,
            seq![192u8, 168, 4, (10 + i) as u8],
            if value[0] == 1 {
                2
            } else {
                5
            },
        ),
{
    let now = table_after_all(table, packets);
    let after = table_after(now, packet);
    let mac = packet.subrange(28, 34);
    law_table_is_always_valid(table, packets);
    law_leases_stay(table, packets);
    assert(now[i] == table[i]);
    law_client_gets_an_address(now, packet, items, value, rest);
    law_table_stays_valid(now, packet);
    let k = choose|k: int| #[trigger]
        takes_slot(now, after, mac, k) && (answer(now, packet) matches Some(reply) && is_reply(
            reply,
            packet,
            seq![192u8, 168, 4, (10 + k) as u8],
            if value[0] == 1 {
                2
            } else {
                5
            },
        ));
    assert(after[i].used && after[i].mac == mac);
    assert(after[k].used && after[k].mac == mac);
    assert(k == i);
    assert(after =~= now);
}

/// Different clients get different addresses: after a message of one client was answered
/// with an address, a message of another is never answered with the same.
#[verifier::rlimit(40)]
pub proof fn law_different_clients_differ(
    table: Seq<Slot>,
    packets: Seq<Seq<u8>>,
    p: Seq<u8>,
    q: Seq<u8>,
)
    requires
        valid_table(table),
        p.subrange(28, 34) != q.subrange(28, 34),
        answer(table, p) is Some,
        answer(table_after_all(table_after(table, p), packets), q) is Some,
        answer(table, p)->0.subrange(16, 20) != seq![0u8, 0, 0, 0],
    ensures
        answer(table, p)->0.subrange(16, 20) != answer(
            table_after_all(table_after(table, p), packets),
            q,
        )->0.subrange(16, 20),
{
    let one = table_after(table, p);
    let then = table_after_all(one, packets);
    law_table_stays_valid(table, p);
    law_table_is_always_valid(one, packets);
    law_leases_stay(one, packets);
    lemma_answered(table, p);
    lemma_answered(then, q);
    let x = allocation(table, client_mac(p)).1;
    let y = allocation(then, client_mac(q)).1;
    lemma_octet(table, p);
    lemma_octet(then, q);
    if let Some(last) = y {
        assert(then[x->0 - 10] == one[x->0 - 10]);
        assert(table_after(then, q)[last - 10].mac == client_mac(q));
        assert(pool_address(last)[3] == last && pool_address(x->0)[3] == x->0);
    } else {
        assert(pool_address(x->0)[0] == 192);
    }
}

/// The address in a reply.
proof fn lemma_reply_address(packet: Seq<u8>, ip: Seq<u8>, kind: u8)
    requires
        packet.len() >= 44,
        ip.len() == 4,
    ensures
        reply_bytes(packet, ip, kind).subrange(16, 20) == ip,
{
    law_reply_is_exact(packet, ip, kind);
}

/// The address in an answer.
#[verifier::rlimit(40)]
proof fn lemma_answered(table: Seq<Slot>, packet: Seq<u8>)
    requires
        answer(table, packet) is Some,
    ensures
        table_after(table, packet) == allocation(table, client_mac(packet)).0,
        answer(table, packet)->0.subrange(16, 20) == (match allocation(
            table,
            client_mac(packet),
        ).1 {
            Some(last) => pool_address(last),
            None => seq![0u8, 0, 0, 0],
        }),
{
    lemma_reply_address(packet, seq![0u8, 0, 0, 0], DHCPNAK);
    if let Some(last) = allocation(table, client_mac(packet)).1 {
        lemma_reply_address(packet, pool_address(last), DHCPOFFER);
        lemma_reply_address(packet, pool_address(last), DHCPACK);
    }
}

/// The slot that belongs to an address that was handed out.
proof fn lemma_octet(table: Seq<Slot>, packet: Seq<u8>)
    requires
        valid_table(table),
        answer(table, packet) is Some,
    ensures
        allocation(table, client_mac(packet)).1 matches Some(last) ==> 10 <= last < 10 + POOL_SIZE
            && table_after(table, packet)[last - 10].used && table_after(table, packet)[last
            - 10].mac == client_mac(packet) && (table[last - 10].used ==> table_after(
            table,
            packet,
        )[last - 10] == table[last - 10]),
{
    lemma_answered(table, packet);
    lemma_firsts(table, client_mac(packet));
}

} // verus!
