use pico_proxy::dhcp_server::{
    allocate, build_nak, build_reply, find_option, message_type, put_option, serve, Lease,
    DHCPACK, DHCPDISCOVER, DHCPNAK, DHCPOFFER, DHCPREQUEST, OPT_DNS, OPT_LEASE_TIME,
    OPT_MESSAGE_TYPE, OPT_ROUTER, OPT_SERVER_ID, OPT_SUBNET_MASK, POOL_SIZE, REPLY_LEN,
    SERVER_OCTETS, SUBNET_MASK,
};

/// A packet of type `kind` from a client whose MAC ends in `id`.
fn packet(kind: u8, id: u8) -> Vec<u8> {
    let mut p = vec![0u8; 240];
    p[0] = 1;
    p[1] = 1;
    p[2] = 6;
    p[4..8].copy_from_slice(&[0xde, 0xad, 0xbe, 0xef]);
    p[8..10].copy_from_slice(&[0x12, 0x34]);
    p[10] = 0x80;
    p[28..34].copy_from_slice(&[2, 0, 0, 0, 0, id]);
    p[236..240].copy_from_slice(&[99, 130, 83, 99]);
    p.extend_from_slice(&[53, 1, kind, 255]);
    p
}

fn no_leases() -> [Lease; POOL_SIZE] {
    [Lease::empty(); POOL_SIZE]
}

#[test]
fn an_empty_lease_is_unused() {
    let lease = Lease::empty();
    assert!(!lease.used);
    assert_eq!(lease.last_octet, 0);
    assert_eq!(lease.mac, [0; 6]);
}

#[test]
fn leases_are_sticky() {
    let mut table = no_leases();
    assert_eq!(allocate(&mut table, &[1, 2, 3, 4, 5, 6]), Some(10));
    assert_eq!(allocate(&mut table, &[1, 2, 3, 4, 5, 7]), Some(11));
    assert_eq!(allocate(&mut table, &[1, 2, 3, 4, 5, 6]), Some(10));
    assert_eq!(table[0].mac, [1, 2, 3, 4, 5, 6]);
    assert!(table[1].used);
    assert!(!table[2].used);
}

#[test]
fn addresses_are_distinct_until_the_pool_is_exhausted() {
    let mut table = no_leases();
    for id in 0..32u8 {
        assert_eq!(allocate(&mut table, &[9, 9, 9, 9, 9, id]), Some(10 + id));
    }
    assert_eq!(allocate(&mut table, &[9, 9, 9, 9, 9, 32]), None);
    assert_eq!(allocate(&mut table, &[9, 9, 9, 9, 9, 31]), Some(41));
}

#[test]
fn a_lease_survives_other_packets() {
    let mut table = no_leases();
    let mut out = [0u8; 1024];
    assert_eq!(serve(&mut table, &packet(DHCPDISCOVER, 7), &mut out), Some(REPLY_LEN));
    assert_eq!(out[16..20], [192, 168, 4, 10]);
    for id in 20..40u8 {
        serve(&mut table, &packet(DHCPREQUEST, id), &mut out);
    }
    assert_eq!(serve(&mut table, &packet(DHCPREQUEST, 7), &mut out), Some(REPLY_LEN));
    assert_eq!(out[16..20], [192, 168, 4, 10]);
}

#[test]
fn options_are_found_behind_padding_and_others() {
    let options = [0, 0, 12, 3, 97, 98, 99, 53, 1, 3, 255, 6, 1, 9];
    assert_eq!(find_option(&options, 12), Some(&[97u8, 98, 99][..]));
    assert_eq!(find_option(&options, OPT_MESSAGE_TYPE), Some(&[3u8][..]));
    // Behind the END option nothing is found.
    assert_eq!(find_option(&options, 6), None);
    assert_eq!(message_type(&options), Some(3));
}

#[test]
fn the_first_of_two_options_counts() {
    assert_eq!(find_option(&[53, 1, 1, 53, 1, 3], 53), Some(&[1u8][..]));
}

#[test]
fn options_that_are_cut_off_end_the_list() {
    assert_eq!(find_option(&[], 53), None);
    assert_eq!(find_option(&[53], 53), None);
    assert_eq!(find_option(&[53, 2, 1], 53), None);
    assert_eq!(find_option(&[12, 9, 1, 53, 1, 1], 53), None);
    assert_eq!(message_type(&[53, 0]), None);
    assert_eq!(find_option(&[53, 0], 53), Some(&[][..]));
}

#[test]
fn an_option_is_written_as_code_length_value() {
    let mut buf = [7u8; 8];
    let mut pos = 2;
    put_option(&mut buf, &mut pos, 51, &[1, 2, 3]);
    assert_eq!(buf, [7, 7, 51, 3, 1, 2, 3, 7]);
    assert_eq!(pos, 7);
}

#[test]
fn a_reply_has_the_documented_bytes() {
    let mut out = [0xffu8; 300];
    let len = build_reply(&packet(DHCPDISCOVER, 5), &mut out, [192, 168, 4, 10], DHCPOFFER);
    assert_eq!(len, 274);
    assert_eq!(out[0..4], [2, 1, 6, 0]);
    assert_eq!(out[4..8], [0xde, 0xad, 0xbe, 0xef]);
    assert_eq!(out[8..12], [0x12, 0x34, 0x80, 0]);
    assert_eq!(out[12..16], [0, 0, 0, 0]);
    assert_eq!(out[16..20], [192, 168, 4, 10]);
    assert_eq!(out[20..24], [192, 168, 4, 1]);
    assert_eq!(out[24..28], [0, 0, 0, 0]);
    assert_eq!(out[28..34], [2, 0, 0, 0, 0, 5]);
    assert!(out[34..236].iter().all(|b| *b == 0));
    assert_eq!(out[236..240], [99, 130, 83, 99]);
    assert_eq!(
        out[240..274],
        [
            53, 1, 2, 54, 4, 192, 168, 4, 1, 51, 4, 0, 0, 14, 16, 1, 4, 255, 255, 255, 0, 3, 4, 192,
            168, 4, 1, 6, 4, 192, 168, 4, 1, 255
        ]
    );
    // Nothing behind the reply is touched.
    assert!(out[274..].iter().all(|b| *b == 0xff));
}

#[test]
fn secs_and_flags_are_echoed() {
    let mut out = [0u8; 274];
    build_reply(&[7u8; 44], &mut out, [192, 168, 4, 10], 2);
    assert_eq!(out[8..12], [7, 7, 7, 7]);
}

#[test]
fn a_client_can_read_the_reply() {
    let mut out = [0u8; 300];
    let len = build_reply(&packet(DHCPREQUEST, 5), &mut out, [192, 168, 4, 12], DHCPACK);
    let options = &out[240..len];
    assert_eq!(message_type(options), Some(DHCPACK));
    for code in [OPT_SERVER_ID, OPT_ROUTER, OPT_DNS] {
        assert_eq!(find_option(options, code), Some(&[192u8, 168, 4, 1][..]));
    }
    assert_eq!(find_option(options, OPT_SUBNET_MASK), Some(&[255u8, 255, 255, 0][..]));
    assert_eq!(find_option(options, OPT_LEASE_TIME), Some(&[0u8, 0, 14, 16][..]));
}

#[test]
fn a_nak_offers_no_address() {
    let mut out = [0u8; 300];
    let len = build_nak(&packet(DHCPREQUEST, 5), &mut out);
    assert_eq!(len, 274);
    assert_eq!(out[16..20], [0, 0, 0, 0]);
    assert_eq!(message_type(&out[240..len]), Some(DHCPNAK));
}

#[test]
fn a_discover_is_offered_and_a_request_acknowledged() {
    let mut table = no_leases();
    let mut out = [0u8; 1024];
    assert_eq!(serve(&mut table, &packet(DHCPDISCOVER, 1), &mut out), Some(274));
    assert_eq!(message_type(&out[240..274]), Some(DHCPOFFER));
    assert_eq!(out[16..20], [192, 168, 4, 10]);
    assert_eq!(serve(&mut table, &packet(DHCPREQUEST, 1), &mut out), Some(274));
    assert_eq!(message_type(&out[240..274]), Some(DHCPACK));
    assert_eq!(out[16..20], [192, 168, 4, 10]);
    assert_eq!(table.iter().filter(|lease| lease.used).count(), 1);
}

#[test]
fn an_exhausted_pool_drops_discovers_and_refuses_requests() {
    let mut table = no_leases();
    let mut out = [0u8; 1024];
    for id in 0..32u8 {
        assert_eq!(serve(&mut table, &packet(DHCPDISCOVER, id), &mut out), Some(274));
    }
    out.fill(0xaa);
    assert_eq!(serve(&mut table, &packet(DHCPDISCOVER, 100), &mut out), None);
    assert!(out.iter().all(|b| *b == 0xaa));
    assert_eq!(serve(&mut table, &packet(DHCPREQUEST, 100), &mut out), Some(274));
    assert_eq!(message_type(&out[240..274]), Some(DHCPNAK));
    assert_eq!(out[16..20], [0, 0, 0, 0]);
    // A client with a lease still gets it.
    assert_eq!(serve(&mut table, &packet(DHCPREQUEST, 31), &mut out), Some(274));
    assert_eq!(out[16..20], [192, 168, 4, 41]);
}

#[test]
fn other_packets_get_no_reply() {
    let mut table = no_leases();
    let mut out = [0u8; 1024];
    let good = packet(DHCPDISCOVER, 1);

    assert_eq!(serve(&mut table, &good[..239], &mut out), None);
    // No room for options: no message type.
    assert_eq!(serve(&mut table, &good[..240], &mut out), None);

    let mut reply = good.clone();
    reply[0] = 2;
    assert_eq!(serve(&mut table, &reply, &mut out), None);

    let mut bad_cookie = good.clone();
    bad_cookie[239] = 98;
    assert_eq!(serve(&mut table, &bad_cookie, &mut out), None);

    // DECLINE, RELEASE and INFORM.
    for kind in [4, 7, 8] {
        assert_eq!(serve(&mut table, &packet(kind, 1), &mut out), None);
    }
    assert!(table.iter().all(|lease| !lease.used));
}

#[test]
fn the_pool_lies_in_the_subnet() {
    let mut table = no_leases();
    let mut out = [0u8; 1024];
    for id in 0..32u8 {
        serve(&mut table, &packet(DHCPDISCOVER, id), &mut out);
        for i in 0..4 {
            assert_eq!(out[16 + i] & SUBNET_MASK[i], SERVER_OCTETS[i] & SUBNET_MASK[i]);
        }
        assert_ne!(out[16..20], SERVER_OCTETS);
    }
}

#[test]
fn used_slots_come_first_and_decide_the_address() {
    let mut table = no_leases();
    let mut out = [0u8; 1024];
    for id in [3u8, 1, 3, 9, 1, 200, 9] {
        serve(&mut table, &packet(DHCPREQUEST, id), &mut out);
    }
    for (i, lease) in table.iter().enumerate() {
        assert_eq!(lease.used, i < 4);
        if lease.used {
            assert_eq!(lease.last_octet as usize, 10 + i);
        }
    }
}
