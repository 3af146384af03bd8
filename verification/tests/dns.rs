use pico_proxy::dns_server::build_response;

/// A query for the A record of `a.b`.
fn query() -> Vec<u8> {
    let mut q = vec![0x12, 0x34, 0x01, 0x20, 0, 1, 0, 0, 0, 0, 0, 1];
    q.extend_from_slice(&[1, 97, 1, 98, 0, 0, 1, 0, 1]);
    q
}

#[test]
fn every_query_leads_to_the_portal() {
    let q = query();
    let mut out = [0xeeu8; 64];
    let len = build_response(&q, q.len(), &mut out);
    assert_eq!(len, q.len() + 16);
    assert_eq!(out[0..12], [0x12, 0x34, 0x81, 0x80, 0, 1, 0, 1, 0, 0, 0, 0]);
    assert_eq!(out[12..21], q[12..21]);
    assert_eq!(
        out[21..37],
        [0xc0, 0x0c, 0, 1, 0, 1, 0, 0, 0, 60, 0, 4, 192, 168, 4, 1]
    );
    assert!(out[37..].iter().all(|b| *b == 0xee));
}

#[test]
fn only_the_recursion_bit_is_echoed() {
    let mut q = query();
    q[2] = 0x7e;
    let mut out = [0u8; 64];
    build_response(&q, q.len(), &mut out);
    assert_eq!(out[2], 0x80);
    q[2] = 0xff;
    build_response(&q, q.len(), &mut out);
    assert_eq!(out[2], 0x81);
}

#[test]
fn only_the_received_bytes_count() {
    let mut buf = [0x55u8; 512];
    let q = query();
    buf[..q.len()].copy_from_slice(&q);
    let mut out = [0u8; 600];
    assert_eq!(build_response(&buf, q.len(), &mut out), q.len() + 16);
    assert_eq!(out[q.len()], 0xc0);
}

#[test]
fn the_longest_query_fits_the_buffers() {
    let mut buf = [1u8; 512];
    buf[4] = 0;
    buf[5] = 1;
    let mut out = [0u8; 600];
    assert_eq!(build_response(&buf, 512, &mut out), 528);
    assert_eq!(out[524..528], [192, 168, 4, 1]);
}

#[test]
fn short_packets_and_packets_without_a_question_get_no_response() {
    let mut q = query();
    let mut out = [9u8; 64];
    assert_eq!(build_response(&q, 11, &mut out), 0);
    assert_eq!(build_response(&q, 0, &mut out), 0);
    q[5] = 0;
    assert_eq!(build_response(&q, q.len(), &mut out), 0);
    assert!(out.iter().all(|b| *b == 9));
    // Any other question count is answered.
    q[4] = 1;
    assert_eq!(build_response(&q, q.len(), &mut out), q.len() + 16);
}

#[test]
fn a_bare_header_is_answered() {
    let q = [0, 0, 0, 0, 0, 1, 0, 0, 0, 0, 0, 0];
    let mut out = [0u8; 28];
    assert_eq!(build_response(&q, 12, &mut out), 28);
    assert_eq!(out[12..14], [0xc0, 0x0c]);
}
