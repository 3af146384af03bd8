//! A catch-all DNS responder for the captive portal.
//!
//! While the access point is up every client is told that this device is its DNS
//! server. Every query is answered with the access point's own address, so that
//! whatever host a client's captive-portal probe asks for leads to the portal.
//!
//! The query is not fully parsed. Its bytes are copied, turned into a response,
//! and followed by a single A record whose name is a pointer back to the question.

use vstd::prelude::*;

use crate::bytes::{copy_into, to_big_endian};
#[allow(unused_imports)]
use crate::bytes::{big_endian, lemma_overwrite_on, overwritten};
use crate::dhcp_server::SERVER_OCTETS;

verus! {

/// Length of a DNS header: ID, flags, QDCOUNT, ANCOUNT, NSCOUNT, ARCOUNT.
pub const DNS_HEADER_LEN: usize = 12;

/// Length of the answer record.
pub const ANSWER_LEN: usize = 16;

/// How long a client may keep the answer, in seconds.
pub const ANSWER_TTL: u32 = 60;

/// Whether the `len` bytes at the front of `req` can be answered: they hold a
/// whole header that announces at least one question.
pub open spec fn answerable(req: Seq<u8>, len: int) -> bool {
    len >= DNS_HEADER_LEN && !(req[4] == 0 && req[5] == 0)
}

/// The record that every answer consists of: the name at offset 12, type A, class
/// IN, the time to live, and the access point's address.
pub open spec fn answer_record() -> Seq<u8> {
    seq![0xC0u8, 0x0C, 0, 1, 0, 1] + big_endian(ANSWER_TTL) + seq![0u8, 4] + SERVER_OCTETS@
}

/// The query's header as that of a response: QR and RA set, RD as it was, one
/// answer, no other records.
pub open spec fn response_header(query: Seq<u8>) -> Seq<u8> {
    query.subrange(0, 2) + seq![0x80u8 | (query[2] & 0x01u8), 0x80] + query.subrange(4, 6) + seq![
        0u8,
        1,
        0,
        0,
        0,
        0,
    ]
}

/// The response to `query`.
pub open spec fn response_bytes(query: Seq<u8>) -> Seq<u8> {
    response_header(query) + query.skip(DNS_HEADER_LEN as int) + answer_record()
}

/// Build the response to the first `req_len` bytes of `req` into `out`. Returns
/// the length of the response, or 0 if the request is not answerable.
pub fn build_response(req: &[u8], req_len: usize, out: &mut [u8]) -> (len: usize)
    requires
        req_len >= DNS_HEADER_LEN ==> req@.len() >= 6,
        answerable(req@, req_len as int) ==> req_len <= req@.len() && req_len + ANSWER_LEN <= old(
            out,
        )@.len(),
    ensures
        !answerable(req@, req_len as int) ==> len == 0 && final(out)@ == old(out)@,
        answerable(req@, req_len as int) ==> {
            let response = response_bytes(req@.subrange(0, req_len as int));
            &&& len == req_len + ANSWER_LEN
            &&& response.len() == len
            &&& final(out)@ == overwritten(old(out)@, 0, response)
        },
{
    if req_len < DNS_HEADER_LEN {
        return 0;
    }
    // Without a question there is nothing to point back at.
    if req[4] == 0 && req[5] == 0 {
        return 0;
    }
    let total: usize = out.len();
    let ghost start = out@;
    let ghost query = req@.subrange(0, req_len as int);
    copy_into(out, 0, &req[0..req_len]);
    let rd: u8 = req[2] & 0x01;
    out[2] = 0x80 | rd;
    out[3] = 0x80;
    out[6] = 0;
    out[7] = 1;
    out[8] = 0;
    out[9] = 0;
    out[10] = 0;
    out[11] = 0;
    let ghost head = response_header(query) + query.skip(12);
    assert(out@ =~= overwritten(start, 0, head));

    let record_head: [u8; 6] = [0xC0, 0x0C, 0, 1, 0, 1];
    let data_len: [u8; 2] = [0, 4];
    let ghost mut done = head;
    assert(record_head@ =~= seq![0xC0u8, 0x0C, 0, 1, 0, 1]);
    proof {
        lemma_overwrite_on(start, 0, done, record_head@);
        done = done + record_head@;
    }
    copy_into(out, req_len, record_head.as_slice());
    proof {
        lemma_overwrite_on(start, 0, done, big_endian(ANSWER_TTL));
        done = done + big_endian(ANSWER_TTL);
    }
    copy_into(out, req_len + 6, to_big_endian(ANSWER_TTL).as_slice());
    assert(data_len@ =~= seq![0u8, 4]);
    proof {
        lemma_overwrite_on(start, 0, done, data_len@);
        done = done + data_len@;
    }
    copy_into(out, req_len + 10, data_len.as_slice());
    proof {
        lemma_overwrite_on(start, 0, done, SERVER_OCTETS@);
        done = done + SERVER_OCTETS@;
    }
    copy_into(out, req_len + 12, SERVER_OCTETS.as_slice());
    assert(done =~= response_bytes(query));
    req_len + ANSWER_LEN
}

/// Every query with a question gets a response, whatever it asks and whatever its flags
/// and other bytes are: it has the query's id and questions, is marked as a response
/// without error, and carries one answer, which gives the access point's address for a
/// minute.
pub proof fn law_every_query_leads_to_the_portal(query: Seq<u8>)
    requires
        query.len() >= 12,
        query[4] != 0 || query[5] != 0,
    ensures
        answerable(query, query.len() as int),
        ({
            let response = response_bytes(query);
            let n = query.len() as int;
            &&& response.len() == n + 16
            // The same id and the same questions.
            &&& response.subrange(0, 2) == query.subrange(0, 2)
            &&& response.subrange(4, 6) == query.subrange(4, 6)
            &&& response.subrange(12, n) == query.subrange(12, n)
            // A response (QR) to the same kind of request (RD), without error.
            &&& response[2] & 0x80 == 0x80
            &&& response[2] & 0x01 == query[2] & 0x01
            &&& response[2] & 0x7E == 0
            &&& response[3] == 0x80
            // One answer and no other records.
            &&& response.subrange(6, 12) == seq![0u8, 1, 0, 0, 0, 0]
            // The name at offset 12, type A, class IN, a minute, four bytes, the address.
            &&& response.subrange(n, n + 16) == seq![
                0xC0u8, 0x0C, 0, 1, 0, 1, 0, 0, 0, 60, 0, 4, 192, 168, 4, 1,
            ]
        }),
{
    let response = response_bytes(query);
    let n = query.len() as int;
    let flags = query[2];
    assert((0x80u8 | (flags & 0x01u8)) & 0x80 == 0x80) by (bit_vector);
    assert((0x80u8 | (flags & 0x01u8)) & 0x01 == flags & 0x01) by (bit_vector);
    assert((0x80u8 | (flags & 0x01u8)) & 0x7E == 0) by (bit_vector);
    assert(response[2] == 0x80u8 | (flags & 0x01u8));
    assert(response.subrange(0, 2) =~= query.subrange(0, 2));
    assert(response.subrange(4, 6) =~= query.subrange(4, 6));
    assert(response.subrange(12, n) =~= query.subrange(12, n));
    assert(response.subrange(6, 12) =~= seq![0u8, 1, 0, 0, 0, 0]);
    assert(response.subrange(n, n + 16) =~= answer_record());
    assert(answer_record() =~= seq![
        0xC0u8, 0x0C, 0, 1, 0, 1, 0, 0, 0, 60, 0, 4, 192, 168, 4, 1,
    ]);
}

/// Only the received bytes count, whatever else the buffer holds: what is shorter than a
/// header, or announces no question, is not answered.
pub proof fn law_what_is_not_answered(buf: Seq<u8>, len: int)
    requires
        0 <= len <= buf.len(),
    ensures
        answerable(buf, len) == (len >= 12 && !(buf[4] == 0 && buf[5] == 0)),
        answerable(buf, len) == answerable(buf.subrange(0, len), len),
{
}

} // verus!
