//! The HTTP side of the captive portal.
//!
//!   - `GET /`          the portal page; a fresh scan is requested.
//!   - `GET /networks`  JSON array of the scanned networks.
//!   - `GET /status`    JSON `{"status":"..."}`.
//!   - `POST /connect`  form `ssid=...&password=...`; raises a connect request.
//!   - `POST /blink`    form `msg=...`; the message is blinked in Morse.
//!   - anything else    a redirect to the portal, which is what makes the
//!     captive-portal probes of an operating system pop up the login page.
//!
//! One request gets one response, and the connection is closed.

use vstd::prelude::*;
use vstd::utf8::*;

use crate::dhcp_server::SERVER_OCTETS;
use crate::ipc::MSG_MAX;
use crate::request::{find_subslice, parse_field, parse_form, parse_request_line, HEADER_END};
#[allow(unused_imports)]
use crate::request::{
    after, are_digits, are_items, are_lines, blank_at, connect_form, decimal_value, form_bytes,
    form_values, http_message, is_digit, is_line, law_digits_count_by_place, law_form_is_read,
    law_form_round_trip, law_header_ends_at_the_first_blank_line, law_message_round_trip,
    law_request_line_is_read, law_unreadable_line_gives_nothing, lemma_header_end,
    lemma_occurrence_bounds, number, one_field, positional, request_line, url_encodes, values_of,
};
use crate::shared::{ConnectRequest, Status, PASSWORD_MAX};
use crate::text::Text;
#[allow(unused_imports)]
use crate::text::{
    byte_len, filled, joined, law_nothing_left_out, law_short_text_is_not_truncated,
    law_truncated_text_fits, law_truncation, lemma_encode_concat, lemma_filled_concat,
    lemma_filled_push, singles, truncated, truncated_all,
};
#[allow(unused_imports)]
use crate::utf8::lemma_ascii_split;
use crate::utf8::same_text;
use crate::wifi::{Network, NetworkList, SSID_MAX};
#[allow(unused_imports)]
use crate::wifi::{
    law_no_network_twice, law_ranking_keeps_networks, law_scan_result, scanned, Beacon,
    MAX_NETWORKS,
};

verus! {

// ---- formatting ----

/// The decimal digit `d`.
pub open spec fn digit_char(d: nat) -> char {
    (48 + d) as char
}

/// `n` in decimal.
pub open spec fn decimal(n: nat) -> Seq<char>
    decreases n,
{
    if n < 10 {
        seq![digit_char(n)]
    } else {
        decimal(n / 10).push(digit_char(n % 10))
    }
}

/// `v` in decimal, with a minus sign where it is negative.
pub open spec fn signed_decimal(v: int) -> Seq<char> {
    if v < 0 {
        seq!['-'] + decimal((-v) as nat)
    } else {
        decimal(v as nat)
    }
}

/// Appending the characters of `a` and then those of `b` appends those of `a + b`.
proof fn lemma_singles_concat(t: Seq<char>, room: nat, a: Seq<char>, b: Seq<char>)
    ensures
        filled(filled(t, room, singles(a)), room, singles(b)) == filled(t, room, singles(a + b)),
{
    lemma_filled_concat(t, room, singles(a), singles(b));
    assert(singles(a) + singles(b) =~= singles(a + b));
}

/// Append `v` in decimal, digit by digit.
pub fn push_usize(out: &mut Text, v: usize)
    ensures
        final(out)@ == filled(old(out)@, old(out).capacity(), singles(decimal(v as nat))),
        final(out).capacity() == old(out).capacity(),
{
    let ghost room = out.capacity();
    let mut digits: Vec<char> = Vec::new();
    let mut rest: usize = v;
    while rest >= 10
        invariant
            decimal(v as nat) == decimal(rest as nat) + digits@.reverse(),
        decreases rest,
    {
        let digit: char = (48 + (rest % 10) as u8) as char;
        let ghost behind = digits@;
        digits.push(digit);
        assert(digits@.reverse() =~= seq![digit] + behind.reverse());
        assert(decimal(rest as nat) + behind.reverse() =~= decimal((rest / 10) as nat)
            + digits@.reverse());
        rest = rest / 10;
    }
    let first: char = (48 + rest as u8) as char;
    digits.push(first);
    assert(digits@.reverse() =~= decimal(v as nat));
    let mut k: usize = digits.len();
    let ghost all = digits@.reverse();
    assert(singles(all.take(0)) =~= Seq::<Seq<char>>::empty());
    while k > 0
        invariant
            k <= digits@.len(),
            all == digits@.reverse(),
            out.capacity() == room,
            out@ == filled(old(out)@, room, singles(all.take(digits@.len() - k))),
        decreases k,
    {
        let ghost done = digits@.len() - k;
        k -= 1;
        proof {
            assert(all[done] == digits@[k as int]);
            lemma_filled_push(old(out)@, room, singles(all.take(done)), seq![digits@[k as int]]);
            assert(singles(all.take(done)).push(seq![digits@[k as int]]) =~= singles(
                all.take(done + 1),
            ));
        }
        out.push(digits[k]);
    }
    assert(all.take(digits@.len() as int) =~= all);
}

/// Append `v` in decimal.
pub fn push_i16(out: &mut Text, v: i16)
    ensures
        final(out)@ == filled(old(out)@, old(out).capacity(), singles(signed_decimal(v as int))),
        final(out).capacity() == old(out).capacity(),
{
    if v < 0 {
        let size: usize = (-(v as i32)) as usize;
        proof {
            let room = out.capacity();
            lemma_singles_concat(out@, room, seq!['-'], decimal(size as nat));
            lemma_filled_push(out@, room, seq![], seq!['-']);
            assert(singles(seq!['-']) =~= Seq::<Seq<char>>::empty().push(seq!['-']));
        }
        out.push('-');
        push_usize(out, size);
    } else {
        push_usize(out, v as usize);
    }
}

/// An IPv4 address in dotted notation.
pub open spec fn dotted(octets: Seq<u8>) -> Seq<char>
    decreases octets.len(),
{
    if octets.len() == 0 {
        seq![]
    } else if octets.len() == 1 {
        decimal(octets[0] as nat)
    } else {
        dotted(octets.drop_last()) + seq!['.'] + decimal(octets.last() as nat)
    }
}

/// Append an IPv4 address in dotted notation.
pub fn push_ip(out: &mut Text, octets: &[u8; 4])
    ensures
        final(out)@ == filled(old(out)@, old(out).capacity(), singles(dotted(octets@))),
        final(out).capacity() == old(out).capacity(),
{
    let ghost room = out.capacity();
    let mut i: usize = 0;
    assert(octets@.take(0) =~= seq![]);
    assert(singles(seq![]) =~= Seq::<Seq<char>>::empty());
    while i < 4
        invariant
            i <= 4,
            out.capacity() == room,
            out@ == filled(old(out)@, room, singles(dotted(octets@.take(i as int)))),
        decreases 4 - i,
    {
        let ghost done = dotted(octets@.take(i as int));
        let ghost own = decimal(octets@[i as int] as nat);
        proof {
            assert(octets@.take(i + 1).drop_last() =~= octets@.take(i as int));
            assert(octets@.take(i + 1).last() == octets@[i as int]);
            lemma_singles_concat(old(out)@, room, done, own);
            assert(i == 0 ==> done + own =~= own);
            lemma_singles_concat(old(out)@, room, done, seq!['.']);
            lemma_singles_concat(old(out)@, room, done + seq!['.'], own);
            lemma_filled_push(out@, room, seq![], seq!['.']);
            assert(singles(seq!['.']) =~= Seq::<Seq<char>>::empty().push(seq!['.']));
        }
        if i > 0 {
            out.push('.');
        }
        push_usize(out, octets[i] as usize);
        i += 1;
    }
    assert(octets@.take(4) =~= octets@);
}

/// How one character stands in a JSON string: quotes and backslashes are escaped,
/// control characters are dropped.
pub open spec fn json_piece(c: char) -> Seq<Seq<char>> {
    if c == '"' {
        seq![seq!['\\', '"']]
    } else if c == '\\' {
        seq![seq!['\\', '\\']]
    } else if (c as u32) < 0x20 {
        seq![]
    } else {
        seq![seq![c]]
    }
}

/// The pieces of `s` as it stands in a JSON string.
pub open spec fn json_pieces(s: Seq<char>) -> Seq<Seq<char>>
    decreases s.len(),
{
    if s.len() == 0 {
        seq![]
    } else {
        json_pieces(s.drop_last()) + json_piece(s.last())
    }
}

/// Append `s` as it stands in a JSON string.
pub fn push_json_escaped(out: &mut Text, s: &str)
    ensures
        final(out)@ == filled(old(out)@, old(out).capacity(), json_pieces(s@)),
        final(out).capacity() == old(out).capacity(),
{
    let ghost room = out.capacity();
    let n: usize = s.unicode_len();
    let mut i: usize = 0;
    assert(s@.take(0) =~= seq![]);
    while i < n
        invariant
            i <= n,
            n == s@.len(),
            out.capacity() == room,
            out@ == filled(old(out)@, room, json_pieces(s@.take(i as int))),
        decreases n - i,
    {
        let c: char = s.get_char(i);
        proof {
            let done = json_pieces(s@.take(i as int));
            assert(s@.take(i + 1).drop_last() =~= s@.take(i as int));
            if json_piece(c).len() > 0 {
                let piece = json_piece(c)[0];
                lemma_filled_push(old(out)@, room, done, piece);
                assert(done + json_piece(c) =~= done.push(piece));
            } else {
                assert(done + json_piece(c) =~= done);
            }
            reveal_strlit("\\\"");
            reveal_strlit("\\\\");
            assert("\\\""@ =~= seq!['\\', '"']);
            assert("\\\\"@ =~= seq!['\\', '\\']);
        }
        if c == '"' {
            out.push_str("\\\"");
        } else if c == '\\' {
            out.push_str("\\\\");
        } else if (c as u32) < 0x20 {
        } else {
            out.push(c);
        }
        i += 1;
    }
    assert(s@.take(n as int) =~= s@);
}

// ---- responses ----

/// Room for the head of a response, in bytes.
pub const HEAD_MAX: usize = 256;

/// Room for the list of networks, in bytes: two brackets, and for each of 24 networks a
/// comma, a name of 32 characters that are all escaped, the longest signal strength, and
/// what encloses them.
pub const NETWORKS_MAX: usize = 2162;

/// Room for the status document, in bytes.
pub const STATUS_MAX: usize = 64;

/// Room for the address that a redirect leads to, in bytes.
pub const LOCATION_MAX: usize = 64;

/// The pieces of the head of a response.
pub open spec fn head_pieces(status: Seq<char>, content_type: Seq<char>, body_len: nat) -> Seq<
    Seq<char>,
> {
    seq![
        "HTTP/1.1 "@,
        status,
        "\r\nContent-Type: "@,
        content_type,
        "\r\nContent-Length: "@,
    ] + singles(decimal(body_len)) + seq![
        "\r\nConnection: close\r\nCache-Control: no-store\r\n\r\n"@,
    ]
}

/// The whole head of a response.
pub open spec fn head_text(status: Seq<char>, content_type: Seq<char>, body_len: nat) -> Seq<char> {
    "HTTP/1.1 "@ + status + "\r\nContent-Type: "@ + content_type + "\r\nContent-Length: "@
        + decimal(body_len) + "\r\nConnection: close\r\nCache-Control: no-store\r\n\r\n"@
}

/// The head of a response with the given status, content type and length of the body.
pub fn response_head(status: &str, content_type: &str, body_len: usize) -> (head: Text)
    ensures
        head@ == filled(
            seq![],
            HEAD_MAX as nat,
            head_pieces(status@, content_type@, body_len as nat),
        ),
{
    let mut head: Text = Text::new::<HEAD_MAX>();
    let ghost room = HEAD_MAX as nat;
    let ghost mut done: Seq<Seq<char>> = seq![];
    proof {
        lemma_filled_push(seq![], room, done, "HTTP/1.1 "@);
        done = done.push("HTTP/1.1 "@);
    }
    head.push_str("HTTP/1.1 ");
    proof {
        lemma_filled_push(seq![], room, done, status@);
        done = done.push(status@);
    }
    head.push_str(status);
    proof {
        lemma_filled_push(seq![], room, done, "\r\nContent-Type: "@);
        done = done.push("\r\nContent-Type: "@);
    }
    head.push_str("\r\nContent-Type: ");
    proof {
        lemma_filled_push(seq![], room, done, content_type@);
        done = done.push(content_type@);
    }
    head.push_str(content_type);
    proof {
        lemma_filled_push(seq![], room, done, "\r\nContent-Length: "@);
        done = done.push("\r\nContent-Length: "@);
    }
    head.push_str("\r\nContent-Length: ");
    proof {
        lemma_filled_concat(seq![], room, done, singles(decimal(body_len as nat)));
        done = done + singles(decimal(body_len as nat));
    }
    push_usize(&mut head, body_len);
    proof {
        let end = "\r\nConnection: close\r\nCache-Control: no-store\r\n\r\n"@;
        lemma_filled_push(seq![], room, done, end);
        done = done.push(end);
        assert(done =~= head_pieces(status@, content_type@, body_len as nat));
    }
    head.push_str("\r\nConnection: close\r\nCache-Control: no-store\r\n\r\n");
    head
}

/// The text that a redirect consists of.
pub open spec fn redirect_text() -> Seq<char> {
    "HTTP/1.1 302 Found\r\nLocation: "@ + ("http://"@ + dotted(SERVER_OCTETS@) + "/"@)
        + "\r\nContent-Length: 0\r\nConnection: close\r\n\r\n"@
}

/// ASCII text takes one byte for each character.
proof fn lemma_ascii_len(t: Seq<char>)
    requires
        is_ascii_chars(t),
    ensures
        byte_len(t) == t.len(),
{
    is_ascii_chars_encode_utf8(t);
}

/// 10 to the power of `k`.
spec fn ten_to(k: nat) -> nat
    decreases k,
{
    if k == 0 {
        1
    } else {
        10 * ten_to((k - 1) as nat)
    }
}

/// A number below 10 to the power of `k` has at most `k` digits, all of them ASCII.
proof fn lemma_decimal_len(n: nat, k: nat)
    requires
        k > 0,
        n < ten_to(k),
    ensures
        1 <= decimal(n).len() <= k,
        forall|i: int| 0 <= i < decimal(n).len() ==> is_digit(#[trigger] decimal(n)[i]),
        byte_len(decimal(n)) == decimal(n).len(),
    decreases n,
{
    reveal_with_fuel(ten_to, 2);
    if n >= 10 {
        assert(n / 10 < ten_to((k - 1) as nat));
        lemma_decimal_len(n / 10, (k - 1) as nat);
    }
    lemma_ascii_len(decimal(n));
}

/// Every `usize` has at most 20 digits.
proof fn lemma_usize_len(n: nat)
    requires
        n <= usize::MAX,
    ensures
        1 <= decimal(n).len() <= 20,
        byte_len(decimal(n)) == decimal(n).len(),
{
    reveal_with_fuel(ten_to, 21);
    lemma_decimal_len(n, 20);
}

/// The address in dotted notation is ASCII, and short.
proof fn lemma_dotted_len()
    ensures
        byte_len(dotted(SERVER_OCTETS@)) <= 15,
        is_ascii_chars(dotted(SERVER_OCTETS@)),
        dotted(SERVER_OCTETS@) == "192.168.4.1"@,
{
    reveal_with_fuel(dotted, 5);
    reveal_with_fuel(decimal, 4);
    reveal_strlit("192.168.4.1");
    let all = SERVER_OCTETS@;
    assert(all.drop_last() =~= all.take(3));
    assert(all.take(3).drop_last() =~= all.take(2));
    assert(all.take(2).drop_last() =~= all.take(1));
    assert(dotted(all) =~= "192.168.4.1"@);
    lemma_ascii_len(dotted(all));
}

/// A redirect to the portal at the access point's address.
pub fn redirect_head() -> (head: Text)
    ensures
        head@ == redirect_text(),
{
    proof {
        lemma_dotted_len();
        reveal_strlit("http://");
        reveal_strlit("/");
        reveal_strlit("HTTP/1.1 302 Found\r\nLocation: ");
        reveal_strlit("\r\nContent-Length: 0\r\nConnection: close\r\n\r\n");
        lemma_ascii_len("http://"@);
        lemma_ascii_len("/"@);
        lemma_ascii_len("HTTP/1.1 302 Found\r\nLocation: "@);
        lemma_ascii_len("\r\nContent-Length: 0\r\nConnection: close\r\n\r\n"@);
    }
    let mut location: Text = Text::new::<LOCATION_MAX>();
    let ghost address = dotted(SERVER_OCTETS@);
    proof {
        assert(Seq::<char>::empty() + "http://"@ =~= "http://"@);
        lemma_joined_singles(address);
        law_nothing_left_out("http://"@, LOCATION_MAX as nat, singles(address));
        lemma_encode_concat("http://"@, address);
        lemma_encode_concat("http://"@ + address, "/"@);
    }
    location.push_str("http://");
    push_ip(&mut location, &SERVER_OCTETS);
    location.push('/');
    assert(seq!['/'] =~= "/"@);
    let ghost start = "HTTP/1.1 302 Found\r\nLocation: "@;
    proof {
        assert(Seq::<char>::empty() + start =~= start);
        lemma_encode_concat(start, location@);
    }
    let mut head: Text = Text::new::<HEAD_MAX>();
    head.push_str("HTTP/1.1 302 Found\r\nLocation: ");
    head.push_str(location.as_str());
    head.push_str("\r\nContent-Length: 0\r\nConnection: close\r\n\r\n");
    head
}

/// The characters of `t`, joined, are `t`.
proof fn lemma_joined_singles(t: Seq<char>)
    ensures
        joined(singles(t)) == t,
    decreases t.len(),
{
    if t.len() == 0 {
        assert(joined(singles(t)) =~= t);
    } else {
        lemma_joined_singles(t.drop_last());
        assert(singles(t).drop_last() =~= singles(t.drop_last()));
        assert(joined(singles(t)) =~= t);
    }
}

/// Joining two lists of pieces joins each of them.
proof fn lemma_joined_concat(p: Seq<Seq<char>>, q: Seq<Seq<char>>)
    ensures
        joined(p + q) == joined(p) + joined(q),
    decreases q.len(),
{
    if q.len() == 0 {
        assert(p + q =~= p);
        assert(joined(p) + joined(q) =~= joined(p));
    } else {
        lemma_joined_concat(p, q.drop_last());
        assert((p + q).drop_last() =~= p + q.drop_last());
        assert(joined(p + q) =~= joined(p) + joined(q));
    }
}

/// The pieces of one network in the list, which is at index `i` in it.
pub open spec fn entry_pieces(network: (Seq<char>, i16), i: int) -> Seq<Seq<char>> {
    (if i > 0 {
        seq![seq![',']]
    } else {
        seq![]
    }) + seq!["{\"ssid\":\""@] + json_pieces(network.0) + seq!["\",\"rssi\":"@] + singles(
        signed_decimal(network.1 as int),
    ) + seq![seq!['}']]
}

/// The pieces of all networks in the list.
pub open spec fn entries_pieces(list: Seq<(Seq<char>, i16)>) -> Seq<Seq<char>>
    decreases list.len(),
{
    if list.len() == 0 {
        seq![]
    } else {
        entries_pieces(list.drop_last()) + entry_pieces(list.last(), list.len() - 1)
    }
}

/// The pieces of the list of networks: `[{"ssid":"..","rssi":-40},..]`.
pub open spec fn list_pieces(list: Seq<(Seq<char>, i16)>) -> Seq<Seq<char>> {
    seq![seq!['[']] + entries_pieces(list) + seq![seq![']']]
}

/// The list of networks as a JSON document, leaving out what does not fit. Every list of
/// networks that a scan finds fits.
pub open spec fn networks_text(list: Seq<(Seq<char>, i16)>) -> Seq<char> {
    filled(seq![], NETWORKS_MAX as nat, list_pieces(list))
}

/// Append one network of the list, which is at index `i` in it.
fn push_entry(body: &mut Text, network: &Network, i: usize)
    ensures
        final(body)@ == filled(
            old(body)@,
            old(body).capacity(),
            entry_pieces(network@, i as int),
        ),
        final(body).capacity() == old(body).capacity(),
{
    let ghost start = body@;
    let ghost room = body.capacity();
    let ghost mut done: Seq<Seq<char>> = seq![];
    if i > 0 {
        proof {
            lemma_filled_push(start, room, done, seq![',']);
            done = done.push(seq![',']);
        }
        body.push(',');
    }
    proof {
        lemma_filled_push(start, room, done, "{\"ssid\":\""@);
        done = done.push("{\"ssid\":\""@);
    }
    body.push_str("{\"ssid\":\"");
    proof {
        lemma_filled_concat(start, room, done, json_pieces(network.ssid@));
        done = done + json_pieces(network.ssid@);
    }
    push_json_escaped(body, network.ssid.as_str());
    proof {
        lemma_filled_push(start, room, done, "\",\"rssi\":"@);
        done = done.push("\",\"rssi\":"@);
    }
    body.push_str("\",\"rssi\":");
    proof {
        lemma_filled_concat(start, room, done, singles(signed_decimal(network.rssi as int)));
        done = done + singles(signed_decimal(network.rssi as int));
    }
    push_i16(body, network.rssi);
    proof {
        lemma_filled_push(start, room, done, seq!['}']);
        done = done.push(seq!['}']);
        assert(done =~= entry_pieces(network@, i as int));
    }
    body.push('}');
}

/// The list of networks as a JSON document.
pub fn networks_json(list: &NetworkList) -> (body: Text)
    ensures
        body@ == networks_text(list@),
{
    let mut body: Text = Text::new::<NETWORKS_MAX>();
    let ghost room = NETWORKS_MAX as nat;
    let ghost open = seq![seq!['[']];
    proof {
        lemma_filled_push(seq![], room, seq![], seq!['[']);
        assert(Seq::<Seq<char>>::empty().push(seq!['[']) =~= open);
        assert(open + entries_pieces(list@.take(0)) =~= open);
    }
    body.push('[');
    let networks: &[Network] = list.as_slice();
    let n: usize = networks.len();
    let mut i: usize = 0;
    while i < n
        invariant
            i <= n,
            n == networks@.len() == list@.len(),
            forall|k: int| 0 <= k < n ==> (#[trigger] networks@[k])@ == list@[k],
            room == NETWORKS_MAX,
            body.capacity() == room,
            open == seq![seq!['[']],
            body@ == filled(seq![], room, open + entries_pieces(list@.take(i as int))),
        decreases n - i,
    {
        proof {
            let own = entry_pieces(list@[i as int], i as int);
            assert(networks@[i as int]@ == list@[i as int]);
            assert(list@.take(i + 1).drop_last() =~= list@.take(i as int));
            lemma_filled_concat(seq![], room, open + entries_pieces(list@.take(i as int)), own);
            assert(open + entries_pieces(list@.take(i as int)) + own =~= open + entries_pieces(
                list@.take(i + 1),
            ));
        }
        push_entry(&mut body, &networks[i], i);
        i += 1;
    }
    proof {
        assert(list@.take(n as int) =~= list@);
        lemma_filled_push(seq![], room, open + entries_pieces(list@), seq![']']);
        assert((open + entries_pieces(list@)).push(seq![']']) =~= list_pieces(list@));
    }
    body.push(']');
    body
}

/// The status document: `{"status":"portal"}`.
pub open spec fn status_text(status: Status) -> Seq<char> {
    "{\"status\":\""@ + status.token() + "\"}"@
}

/// The current status as a JSON document.
pub fn status_json(status: Status) -> (body: Text)
    ensures
        body@ == status_text(status),
{
    proof {
        lemma_token_len(status);
        reveal_strlit("{\"status\":\"");
        reveal_strlit("\"}");
        lemma_ascii_len("{\"status\":\""@);
        lemma_ascii_len("\"}"@);
        assert(Seq::<char>::empty() + "{\"status\":\""@ =~= "{\"status\":\""@);
        lemma_encode_concat("{\"status\":\""@, status.token());
    }
    let mut body: Text = Text::new::<STATUS_MAX>();
    body.push_str("{\"status\":\"");
    body.push_str(status.as_str());
    body.push_str("\"}");
    body
}

/// A token is short.
proof fn lemma_token_len(status: Status)
    ensures
        byte_len(status.token()) <= 10,
{
    reveal_strlit("portal");
    reveal_strlit("scanning");
    reveal_strlit("connecting");
    reveal_strlit("connected");
    reveal_strlit("failed");
    lemma_ascii_len(status.token());
}

// ---- requests ----

/// What a request asks for.
#[derive(Clone, Copy, Debug, PartialEq, Eq, Structural)]
pub enum Route {
    Portal,
    Networks,
    Status,
    Connect,
    Blink,
    Elsewhere,
}

/// What a method and a path ask for.
pub open spec fn route_of(method: Seq<char>, path: Seq<char>) -> Route {
    if method == "GET"@ && path == "/"@ {
        Route::Portal
    } else if method == "GET"@ && path == "/networks"@ {
        Route::Networks
    } else if method == "GET"@ && path == "/status"@ {
        Route::Status
    } else if method == "POST"@ && path == "/connect"@ {
        Route::Connect
    } else if method == "POST"@ && path == "/blink"@ {
        Route::Blink
    } else {
        Route::Elsewhere
    }
}

/// What a request asks for. One without a readable request line asks for the portal.
pub open spec fn request_route(req: Seq<u8>) -> Route {
    match request_line(req) {
        Some((method, path)) => route_of(method, path),
        None => Route::Portal,
    }
}

/// What a request asks for.
pub fn route(req: &[u8]) -> (route: Route)
    ensures
        route == request_route(req@),
{
    match parse_request_line(req) {
        None => Route::Portal,
        Some((method, path)) => {
            let get: bool = same_text(method, "GET");
            let post: bool = same_text(method, "POST");
            if get && same_text(path, "/") {
                Route::Portal
            } else if get && same_text(path, "/networks") {
                Route::Networks
            } else if get && same_text(path, "/status") {
                Route::Status
            } else if post && same_text(path, "/connect") {
                Route::Connect
            } else if post && same_text(path, "/blink") {
                Route::Blink
            } else {
                Route::Elsewhere
            }
        },
    }
}

/// The body of a request: what follows the header block.
pub open spec fn request_body(req: Seq<u8>) -> Seq<u8> {
    match after(req, HEADER_END@) {
        Some(body) => body,
        None => seq![],
    }
}

/// What a form holds for a field that has room for `room` bytes.
pub open spec fn field(body: Seq<u8>, key: Seq<char>, room: nat) -> Seq<char> {
    truncated_all(seq![], room, form_values(body, encode_utf8(key)))
}

/// The body of a request: what follows the header block.
fn body_of(req: &[u8]) -> (body: &[u8])
    ensures
        body@ == request_body(req@),
{
    let total: usize = req.len();
    match find_subslice(req, HEADER_END.as_slice()) {
        Some(i) => {
            proof {
                lemma_occurrence_bounds(req@, HEADER_END@);
                assert(req@.subrange(i + 4, total as int) =~= req@.skip(i + 4));
            }
            &req[i + 4..total]
        },
        None => {
            assert(req@.subrange(0, 0) =~= seq![]);
            &req[0..0]
        },
    }
}

/// The body of a response.
pub enum Body {
    /// No body.
    Nothing,
    /// The portal page.
    Page,
    /// A document made for this response.
    Document(Text),
    /// A fixed text.
    Fixed(&'static str),
}

/// What a response asks of the rest of the device, before it is sent.
pub enum Effect {
    Nothing,
    /// Request a scan.
    Scan,
    /// Publish that the device is connecting, and raise this request.
    Connect(ConnectRequest),
    /// Blink this message.
    Blink(Text),
}

/// A response and its effect.
pub struct Reply {
    pub head: Text,
    pub body: Body,
    pub effect: Effect,
}

/// What the body of a response consists of.
pub enum BodyView {
    Nothing,
    Page,
    Text(Seq<char>),
}

/// What a response asks of the rest of the device.
pub enum EffectView {
    Nothing,
    Scan,
    Connect { ssid: Seq<char>, password: Seq<char> },
    Blink(Seq<char>),
}

/// What a response consists of.
pub struct ReplyView {
    pub head: Seq<char>,
    pub body: BodyView,
    pub effect: EffectView,
}

impl View for Body {
    type V = BodyView;

    open spec fn view(&self) -> BodyView {
        match self {
            Body::Nothing => BodyView::Nothing,
            Body::Page => BodyView::Page,
            Body::Document(text) => BodyView::Text(text@),
            Body::Fixed(text) => BodyView::Text(text@),
        }
    }
}

impl View for Effect {
    type V = EffectView;

    open spec fn view(&self) -> EffectView {
        match self {
            Effect::Nothing => EffectView::Nothing,
            Effect::Scan => EffectView::Scan,
            Effect::Connect(request) => EffectView::Connect {
                ssid: request.ssid@,
                password: request.password@,
            },
            Effect::Blink(msg) => EffectView::Blink(msg@),
        }
    }
}

impl View for Reply {
    type V = ReplyView;

    open spec fn view(&self) -> ReplyView {
        ReplyView { head: self.head@, body: self.body@, effect: self.effect@ }
    }
}

/// A response with a text as its body.
pub open spec fn text_reply(
    status: Seq<char>,
    content_type: Seq<char>,
    body: Seq<char>,
    effect: EffectView,
) -> ReplyView {
    ReplyView {
        head: head_text(status, content_type, byte_len(body)),
        body: BodyView::Text(body),
        effect,
    }
}

/// The response to a connect form: a request for the chosen network, or a refusal
/// where no network is named.
pub open spec fn connect_reply(body: Seq<u8>) -> ReplyView {
    let ssid = field(body, "ssid"@, SSID_MAX as nat);
    let password = field(body, "password"@, PASSWORD_MAX as nat);
    if ssid.len() == 0 {
        text_reply("400 Bad Request"@, "text/plain"@, "missing ssid"@, EffectView::Nothing)
    } else {
        text_reply(
            "200 OK"@,
            "application/json"@,
            "{\"ok\":true}"@,
            EffectView::Connect { ssid, password },
        )
    }
}

/// The response to a blink form: the message is blinked, or refused where it is empty.
pub open spec fn blink_reply(body: Seq<u8>) -> ReplyView {
    let msg = field(body, "msg"@, MSG_MAX as nat);
    if msg.len() == 0 {
        text_reply("400 Bad Request"@, "text/plain"@, "missing msg"@, EffectView::Nothing)
    } else {
        text_reply("200 OK"@, "application/json"@, "{\"ok\":true}"@, EffectView::Blink(msg))
    }
}

/// The response to a request, for a portal page of `page_len` bytes, the scanned
/// networks and the current status.
pub open spec fn reply_to(
    req: Seq<u8>,
    page_len: nat,
    networks: Seq<(Seq<char>, i16)>,
    status: Status,
) -> ReplyView {
    match request_route(req) {
        Route::Portal => ReplyView {
            head: head_text("200 OK"@, "text/html"@, page_len),
            body: BodyView::Page,
            effect: EffectView::Scan,
        },
        Route::Networks => text_reply(
            "200 OK"@,
            "application/json"@,
            networks_text(networks),
            EffectView::Nothing,
        ),
        Route::Status => text_reply(
            "200 OK"@,
            "application/json"@,
            status_text(status),
            EffectView::Nothing,
        ),
        Route::Connect => connect_reply(request_body(req)),
        Route::Blink => blink_reply(request_body(req)),
        Route::Elsewhere => ReplyView {
            head: redirect_text(),
            body: BodyView::Nothing,
            effect: EffectView::Nothing,
        },
    }
}

/// The head of a response is whole where status and content type are not overlong.
pub proof fn law_head_is_whole(status: Seq<char>, content_type: Seq<char>, body_len: nat)
    requires
        byte_len(status) + byte_len(content_type) <= 145,
        body_len <= usize::MAX,
    ensures
        filled(seq![], HEAD_MAX as nat, head_pieces(status, content_type, body_len)) == head_text(
            status,
            content_type,
            body_len,
        ),
{
    let a = "HTTP/1.1 "@;
    let b = "\r\nContent-Type: "@;
    let c = "\r\nContent-Length: "@;
    let d = "\r\nConnection: close\r\nCache-Control: no-store\r\n\r\n"@;
    reveal_strlit("HTTP/1.1 ");
    reveal_strlit("\r\nContent-Type: ");
    reveal_strlit("\r\nContent-Length: ");
    reveal_strlit("\r\nConnection: close\r\nCache-Control: no-store\r\n\r\n");
    lemma_ascii_len(a);
    lemma_ascii_len(b);
    lemma_ascii_len(c);
    lemma_ascii_len(d);
    lemma_usize_len(body_len);
    let digits = decimal(body_len);
    let front = seq![a, status, b, content_type, c];
    let pieces = head_pieces(status, content_type, body_len);
    assert(joined(front) =~= a + status + b + content_type + c) by {
        reveal_with_fuel(joined, 6);
        assert(front.drop_last() =~= seq![a, status, b, content_type]);
        assert(seq![a, status, b, content_type].drop_last() =~= seq![a, status, b]);
        assert(seq![a, status, b].drop_last() =~= seq![a, status]);
        assert(seq![a, status].drop_last() =~= seq![a]);
        assert(seq![a].drop_last() =~= seq![]);
    }
    lemma_joined_singles(digits);
    lemma_joined_concat(front, singles(digits));
    lemma_joined_concat(front + singles(digits), seq![d]);
    assert(joined(seq![d]) =~= d) by {
        reveal_with_fuel(joined, 2);
        assert(seq![d].drop_last() =~= seq![]);
    }
    assert(joined(pieces) =~= head_text(status, content_type, body_len));
    lemma_encode_concat(a, status);
    lemma_encode_concat(a + status, b);
    lemma_encode_concat(a + status + b, content_type);
    lemma_encode_concat(a + status + b + content_type, c);
    lemma_encode_concat(a + status + b + content_type + c, digits);
    lemma_encode_concat(a + status + b + content_type + c + digits, d);
    law_nothing_left_out(seq![], HEAD_MAX as nat, pieces);
    assert(Seq::<char>::empty() + joined(pieces) =~= joined(pieces));
}

/// The texts that responses are made of are short.
proof fn lemma_short_texts()
    ensures
        byte_len("200 OK"@) <= 20,
        byte_len("400 Bad Request"@) <= 20,
        byte_len("text/html"@) <= 20,
        byte_len("text/plain"@) <= 20,
        byte_len("application/json"@) <= 20,
{
    reveal_strlit("200 OK");
    reveal_strlit("400 Bad Request");
    reveal_strlit("text/html");
    reveal_strlit("text/plain");
    reveal_strlit("application/json");
    lemma_ascii_len("200 OK"@);
    lemma_ascii_len("400 Bad Request"@);
    lemma_ascii_len("text/html"@);
    lemma_ascii_len("text/plain"@);
    lemma_ascii_len("application/json"@);
}

/// A response with a document as its body.
fn send_document(document: Text) -> (reply: Reply)
    ensures
        reply@ == text_reply("200 OK"@, "application/json"@, document@, EffectView::Nothing),
{
    let len: usize = document.as_str().as_bytes().len();
    proof {
        lemma_short_texts();
        law_head_is_whole("200 OK"@, "application/json"@, len as nat);
    }
    Reply {
        head: response_head("200 OK", "application/json", len),
        body: Body::Document(document),
        effect: Effect::Nothing,
    }
}

/// A response that refuses a form.
fn send_refusal(reason: &'static str) -> (reply: Reply)
    ensures
        reply@ == text_reply("400 Bad Request"@, "text/plain"@, reason@, EffectView::Nothing),
{
    let len: usize = reason.as_bytes().len();
    proof {
        lemma_short_texts();
        law_head_is_whole("400 Bad Request"@, "text/plain"@, len as nat);
    }
    Reply {
        head: response_head("400 Bad Request", "text/plain", len),
        body: Body::Fixed(reason),
        effect: Effect::Nothing,
    }
}

/// A response that accepts a form.
fn send_accepted(effect: Effect) -> (reply: Reply)
    ensures
        reply@ == text_reply("200 OK"@, "application/json"@, "{\"ok\":true}"@, effect@),
        reply.effect == effect,
{
    let ok: &'static str = "{\"ok\":true}";
    let len: usize = ok.as_bytes().len();
    proof {
        lemma_short_texts();
        law_head_is_whole("200 OK"@, "application/json"@, len as nat);
    }
    Reply { head: response_head("200 OK", "application/json", len), body: Body::Fixed(ok), effect }
}

/// Answer a connect form.
pub fn handle_connect(req: &[u8]) -> (reply: Reply)
    ensures
        reply@ == connect_reply(request_body(req@)),
        reply.effect matches Effect::Connect(request) ==> request.well_formed(),
{
    let mut ssid: Text = Text::new::<SSID_MAX>();
    let mut password: Text = Text::new::<PASSWORD_MAX>();
    parse_form(body_of(req), &mut ssid, &mut password);
    if ssid.is_empty() {
        send_refusal("missing ssid")
    } else {
        send_accepted(Effect::Connect(ConnectRequest { ssid, password }))
    }
}

/// Answer a blink form.
pub fn handle_blink(req: &[u8]) -> (reply: Reply)
    ensures
        reply@ == blink_reply(request_body(req@)),
{
    let mut msg: Text = Text::new::<MSG_MAX>();
    parse_field(body_of(req), "msg", &mut msg);
    if msg.is_empty() {
        send_refusal("missing msg")
    } else {
        send_accepted(Effect::Blink(msg))
    }
}

/// Answer a request, with a portal page of `page_len` bytes, the scanned networks and
/// the current status.
pub fn handle_request(
    req: &[u8],
    page_len: usize,
    networks: &NetworkList,
    status: Status,
) -> (reply: Reply)
    ensures
        reply@ == reply_to(req@, page_len as nat, networks@, status),
        reply.effect matches Effect::Connect(request) ==> request.well_formed(),
{
    match route(req) {
        Route::Portal => {
            proof {
                lemma_short_texts();
                law_head_is_whole("200 OK"@, "text/html"@, page_len as nat);
            }
            Reply {
                head: response_head("200 OK", "text/html", page_len),
                body: Body::Page,
                effect: Effect::Scan,
            }
        },
        Route::Networks => send_document(networks_json(networks)),
        Route::Status => send_document(status_json(status)),
        Route::Connect => handle_connect(req),
        Route::Blink => handle_blink(req),
        Route::Elsewhere => Reply {
            head: redirect_head(),
            body: Body::Nothing,
            effect: Effect::Nothing,
        },
    }
}

// ---- laws ----

/// Reading a number back that was written in decimal gives the number.
pub proof fn law_decimal_round_trip(n: nat)
    ensures
        number(decimal(n)) == Some(n),
{
    lemma_decimal_reads(n);
    assert(decimal(n)[0] != '+');
}

/// What `n` in decimal consists of.
proof fn lemma_decimal_reads(n: nat)
    ensures
        decimal(n).len() > 0,
        forall|i: int| 0 <= i < decimal(n).len() ==> is_digit(#[trigger] decimal(n)[i]),
        decimal_value(decimal(n)) == n,
    decreases n,
{
    if n >= 10 {
        lemma_decimal_reads(n / 10);
        assert(decimal(n).drop_last() =~= decimal(n / 10));
    } else {
        assert(decimal(n).drop_last() =~= seq![]);
        assert(decimal_value(seq![]) == 0);
    }
}

/// `s` as it stands in a JSON string.
pub open spec fn json_text(s: Seq<char>) -> Seq<char> {
    joined(json_pieces(s))
}

/// What the inside of a JSON string stands for, as far as its escapes are those of
/// quotes and backslashes; `None` where it is malformed.
pub open spec fn json_read(s: Seq<char>) -> Option<Seq<char>>
    decreases s.len(),
{
    if s.len() == 0 {
        Some(seq![])
    } else if s[0] == '\\' {
        if s.len() >= 2 && (s[1] == '"' || s[1] == '\\') {
            match json_read(s.skip(2)) {
                Some(rest) => Some(seq![s[1]] + rest),
                None => None,
            }
        } else {
            None
        }
    } else if s[0] == '"' || (s[0] as u32) < 0x20 {
        None
    } else {
        match json_read(s.skip(1)) {
            Some(rest) => Some(seq![s[0]] + rest),
            None => None,
        }
    }
}

/// `s` without control characters.
pub open spec fn printable(s: Seq<char>) -> Seq<char>
    decreases s.len(),
{
    if s.len() == 0 {
        seq![]
    } else if (s.last() as u32) < 0x20 {
        printable(s.drop_last())
    } else {
        printable(s.drop_last()).push(s.last())
    }
}

/// A well-formed front is read independently of what follows.
proof fn lemma_json_read_concat(a: Seq<char>, b: Seq<char>)
    requires
        json_read(a) is Some,
        json_read(b) is Some,
    ensures
        json_read(a + b) == Some(json_read(a)->0 + json_read(b)->0),
    decreases a.len(),
{
    let whole = a + b;
    if a.len() == 0 {
        assert(whole =~= b);
        assert(json_read(a)->0 + json_read(b)->0 =~= json_read(b)->0);
    } else {
        let used: int = if a[0] == '\\' {
            2
        } else {
            1
        };
        lemma_json_read_concat(a.skip(used), b);
        assert(whole.skip(used) =~= a.skip(used) + b);
        assert(json_read(whole)->0 =~= json_read(a)->0 + json_read(b)->0);
    }
}

/// Whatever a network calls itself, its name stands in the list as a well-formed JSON
/// string, and reads back as the name without control characters.
pub proof fn law_json_round_trip(s: Seq<char>)
    ensures
        json_read(json_text(s)) == Some(printable(s)),
    decreases s.len(),
{
    if s.len() == 0 {
        assert(json_text(s) =~= seq![]);
    } else {
        let before = s.drop_last();
        let c = s.last();
        law_json_round_trip(before);
        lemma_joined_concat(json_pieces(before), json_piece(c));
        let own = joined(json_piece(c));
        if json_piece(c).len() == 0 {
            assert(own =~= seq![]);
            assert(json_text(s) =~= json_text(before));
        } else {
            lemma_joined_one(json_piece(c)[0]);
            assert(json_piece(c) =~= seq![json_piece(c)[0]]);
            reveal_with_fuel(json_read, 3);
            assert(own.skip(own.len() as int) =~= seq![]);
            assert(json_read(own) =~= Some(seq![c]));
            lemma_json_read_concat(json_text(before), own);
            assert(printable(before) + seq![c] =~= printable(s));
        }
    }
}

/// One piece, joined, is the piece.
proof fn lemma_joined_one(piece: Seq<char>)
    ensures
        joined(seq![piece]) == piece,
{
    reveal_with_fuel(joined, 2);
    assert(seq![piece].drop_last() =~= seq![]);
    assert(joined(seq![piece]) =~= piece);
}

/// One network in the list: `{"ssid":"..","rssi":-40}`.
pub open spec fn entry_text(network: (Seq<char>, i16)) -> Seq<char> {
    "{\"ssid\":\""@ + json_text(network.0) + "\",\"rssi\":"@ + signed_decimal(network.1 as int)
        + seq!['}']
}

/// The networks of the list, separated by commas.
pub open spec fn entries_text(list: Seq<(Seq<char>, i16)>) -> Seq<char>
    decreases list.len(),
{
    if list.len() == 0 {
        seq![]
    } else if list.len() == 1 {
        entry_text(list[0])
    } else {
        entries_text(list.drop_last()) + seq![','] + entry_text(list.last())
    }
}

/// The pieces of one network, joined.
proof fn lemma_entry_joined(network: (Seq<char>, i16), i: int)
    ensures
        joined(entry_pieces(network, i)) == (if i > 0 {
            seq![','] + entry_text(network)
        } else {
            entry_text(network)
        }),
{
    let open = "{\"ssid\":\""@;
    let mid = "\",\"rssi\":"@;
    let rssi = signed_decimal(network.1 as int);
    let comma: Seq<Seq<char>> = if i > 0 {
        seq![seq![',']]
    } else {
        seq![]
    };
    let p1 = comma + seq![open];
    let p2 = p1 + json_pieces(network.0);
    let p3 = p2 + seq![mid];
    let p4 = p3 + singles(rssi);
    lemma_joined_one(seq![',']);
    lemma_joined_one(open);
    lemma_joined_one(mid);
    lemma_joined_one(seq!['}']);
    lemma_joined_singles(rssi);
    lemma_joined_concat(comma, seq![open]);
    lemma_joined_concat(p1, json_pieces(network.0));
    lemma_joined_concat(p2, seq![mid]);
    lemma_joined_concat(p3, singles(rssi));
    lemma_joined_concat(p4, seq![seq!['}']]);
    assert(p4 + seq![seq!['}']] =~= entry_pieces(network, i));
    if i > 0 {
        assert(joined(entry_pieces(network, i)) =~= seq![','] + entry_text(network));
    } else {
        assert(joined(comma) =~= seq![]);
        assert(joined(entry_pieces(network, i)) =~= entry_text(network));
    }
}

/// How many bytes one network takes in the list.
proof fn lemma_entry_len(network: (Seq<char>, i16))
    requires
        byte_len(network.0) <= SSID_MAX,
    ensures
        byte_len(entry_text(network)) <= 89,
{
    let open = "{\"ssid\":\""@;
    let mid = "\",\"rssi\":"@;
    let name = json_text(network.0);
    let rssi = signed_decimal(network.1 as int);
    reveal_strlit("{\"ssid\":\"");
    reveal_strlit("\",\"rssi\":");
    lemma_ascii_len(open);
    lemma_ascii_len(mid);
    lemma_ascii_len(seq!['}']);
    law_escaped_length(network.0);
    lemma_signed_len(network.1);
    lemma_encode_concat(open, name);
    lemma_encode_concat(open + name, mid);
    lemma_encode_concat(open + name + mid, rssi);
    lemma_encode_concat(open + name + mid + rssi, seq!['}']);
}

/// A signal strength takes at most six bytes.
proof fn lemma_signed_len(v: i16)
    ensures
        byte_len(signed_decimal(v as int)) <= 6,
{
    reveal_with_fuel(ten_to, 6);
    lemma_ascii_len(seq!['-']);
    if v < 0 {
        lemma_decimal_len((-v) as nat, 5);
        lemma_encode_concat(seq!['-'], decimal((-v) as nat));
    } else {
        lemma_decimal_len(v as nat, 5);
    }
}

/// The pieces of all networks, joined, and how many bytes they take.
proof fn lemma_entries_joined(list: Seq<(Seq<char>, i16)>)
    ensures
        joined(entries_pieces(list)) == entries_text(list),
        (forall|i: int| 0 <= i < list.len() ==> byte_len((#[trigger] list[i]).0) <= SSID_MAX)
            ==> byte_len(entries_text(list)) <= 90 * list.len(),
    decreases list.len(),
{
    lemma_ascii_len(seq![]);
    lemma_ascii_len(seq![',']);
    if list.len() == 0 {
        assert(joined(entries_pieces(list)) =~= seq![]);
    } else {
        let earlier = list.drop_last();
        let last = list.last();
        let i = list.len() - 1;
        lemma_entries_joined(earlier);
        lemma_entry_joined(last, i);
        lemma_joined_concat(entries_pieces(earlier), entry_pieces(last, i));
        if i == 0 {
            assert(entries_text(earlier) + entry_text(last) =~= entry_text(last));
        } else {
            assert(entries_text(earlier) + (seq![','] + entry_text(last)) =~= entries_text(list));
            lemma_encode_concat(entries_text(earlier), seq![',']);
            lemma_encode_concat(entries_text(earlier) + seq![','], entry_text(last));
        }
        if forall|k: int| 0 <= k < list.len() ==> byte_len((#[trigger] list[k]).0) <= SSID_MAX {
            assert forall|k: int| 0 <= k < earlier.len() implies byte_len((#[trigger] earlier[k]).0)
                <= SSID_MAX by {
                assert(earlier[k] == list[k]);
            }
            assert(list[i] == last);
            lemma_entry_len(last);
        }
    }
}

/// The list of networks is whole, with nothing left out, whatever the networks are
/// called: a JSON array with one object for each network, in order.
pub proof fn law_network_list_is_whole(list: Seq<(Seq<char>, i16)>)
    requires
        list.len() <= MAX_NETWORKS,
        forall|i: int| 0 <= i < list.len() ==> byte_len((#[trigger] list[i]).0) <= SSID_MAX,
    ensures
        networks_text(list) == seq!['['] + joined(entries_pieces(list)) + seq![']'],
        networks_text(list) == seq!['['] + entries_text(list) + seq![']'],
{
    let open = seq![seq!['[']];
    let close = seq![seq![']']];
    lemma_entries_joined(list);
    lemma_joined_one(seq!['[']);
    lemma_joined_one(seq![']']);
    lemma_joined_concat(open, entries_pieces(list));
    lemma_joined_concat(open + entries_pieces(list), close);
    lemma_ascii_len(seq![]);
    lemma_ascii_len(seq!['[']);
    lemma_ascii_len(seq![']']);
    lemma_encode_concat(seq!['['], entries_text(list));
    lemma_encode_concat(seq!['['] + entries_text(list), seq![']']);
    law_nothing_left_out(seq![], NETWORKS_MAX as nat, list_pieces(list));
    assert(seq![] + joined(list_pieces(list)) =~= joined(list_pieces(list)));
}

/// Whatever a scan reports, every network that it lists stands in the JSON document.
pub proof fn law_scanned_networks_are_shown(beacons: Seq<Beacon>, list: Seq<(Seq<char>, i16)>)
    requires
        list.to_multiset() == scanned(beacons).to_multiset(),
    ensures
        networks_text(list) == seq!['['] + entries_text(list) + seq![']'],
{
    law_no_network_twice(beacons);
    law_ranking_keeps_networks(scanned(beacons), list);
    assert forall|i: int| 0 <= i < list.len() implies byte_len((#[trigger] list[i]).0)
        <= SSID_MAX by {
        law_scan_result(beacons, list, i);
    }
    law_network_list_is_whole(list);
}

/// How long a name is in the list: every quote and backslash counts twice.
pub proof fn law_escaped_length(s: Seq<char>)
    ensures
        byte_len(json_text(s)) <= 2 * byte_len(s),
        (forall|i: int| 0 <= i < s.len() ==> #[trigger] s[i] != '"' && s[i] != '\\') ==> byte_len(
            json_text(s),
        ) <= byte_len(s),
    decreases s.len(),
{
    lemma_ascii_len(seq![]);
    if s.len() == 0 {
        assert(json_text(s) =~= seq![]);
        assert(s =~= seq![]);
    } else {
        let before = s.drop_last();
        let c = s.last();
        law_escaped_length(before);
        assert(s =~= before + seq![c]);
        lemma_encode_concat(before, seq![c]);
        lemma_joined_concat(json_pieces(before), json_piece(c));
        lemma_encode_concat(json_text(before), joined(json_piece(c)));
        if json_piece(c).len() == 0 {
            assert(joined(json_piece(c)) =~= seq![]);
        } else {
            lemma_joined_one(json_piece(c)[0]);
            assert(json_piece(c) =~= seq![json_piece(c)[0]]);
            lemma_ascii_len(seq!['\\', '"']);
            lemma_ascii_len(seq!['\\', '\\']);
            if c == '"' || c == '\\' {
                lemma_ascii_len(seq![c]);
            }
        }
        if forall|i: int| 0 <= i < s.len() ==> #[trigger] s[i] != '"' && s[i] != '\\' {
            assert forall|i: int| 0 <= i < before.len() implies #[trigger] before[i] != '"'
                && before[i] != '\\' by {
                assert(before[i] == s[i]);
            }
            assert(s[s.len() - 1] == c);
        }
    }
}

/// Every readable request that is none of the portal's own is redirected to the
/// portal, so that captive-portal probes find it.
pub proof fn law_probes_are_redirected(
    req: Seq<u8>,
    method: Seq<char>,
    path: Seq<char>,
    page_len: nat,
    networks: Seq<(Seq<char>, i16)>,
    status: Status,
)
    requires
        request_line(req) == Some((method, path)),
        method == "GET"@ ==> path != "/"@ && path != "/networks"@ && path != "/status"@,
        method == "POST"@ ==> path != "/connect"@ && path != "/blink"@,
    ensures
        reply_to(req, page_len, networks, status).head == redirect_text(),
        reply_to(req, page_len, networks, status).body is Nothing,
        reply_to(req, page_len, networks, status).effect is Nothing,
{
}

/// A redirect leads to `http://192.168.4.1/`.
pub proof fn law_redirect_names_the_portal()
    ensures
        redirect_text() == "HTTP/1.1 302 Found\r\nLocation: "@ + "http://192.168.4.1/"@
            + "\r\nContent-Length: 0\r\nConnection: close\r\n\r\n"@,
{
    lemma_dotted_len();
    reveal_strlit("http://");
    reveal_strlit("192.168.4.1");
    reveal_strlit("/");
    reveal_strlit("http://192.168.4.1/");
    assert("http://"@ + "192.168.4.1"@ + "/"@ =~= "http://192.168.4.1/"@);
}

/// A connect request is raised only by a connect form that names a network, and what it
/// holds fits the radio: an SSID of 1 to 32 bytes and a password of at most 63.
pub proof fn law_connect_request_is_sound(
    req: Seq<u8>,
    page_len: nat,
    networks: Seq<(Seq<char>, i16)>,
    status: Status,
)
    ensures
        match reply_to(req, page_len, networks, status).effect {
            EffectView::Connect { ssid, password } => {
                &&& request_route(req) == Route::Connect
                &&& ssid.len() > 0
                &&& byte_len(ssid) <= SSID_MAX
                &&& byte_len(password) <= PASSWORD_MAX
            },
            EffectView::Blink(msg) => {
                &&& request_route(req) == Route::Blink
                &&& msg.len() > 0
                &&& byte_len(msg) <= MSG_MAX
            },
            _ => true,
        },
{
    let body = request_body(req);
    lemma_ascii_len(seq![]);
    law_truncated_text_fits(seq![], SSID_MAX as nat, form_values(body, encode_utf8("ssid"@)));
    law_truncated_text_fits(
        seq![],
        PASSWORD_MAX as nat,
        form_values(body, encode_utf8("password"@)),
    );
    law_truncated_text_fits(seq![], MSG_MAX as nat, form_values(body, encode_utf8("msg"@)));
}

/// A form field that fits is taken over whole.
proof fn lemma_field_whole(body: Seq<u8>, key: Seq<char>, room: nat, value: Seq<char>)
    requires
        form_values(body, encode_utf8(key)) == seq![value],
        byte_len(value) <= room,
    ensures
        field(body, key, room) == value,
{
    lemma_ascii_len(seq![]);
    reveal_with_fuel(truncated_all, 2);
    assert(seq![value].drop_first() =~= seq![]);
    law_short_text_is_not_truncated(seq![], room, value);
    assert(seq![] + value =~= value);
}

/// Empty values leave a field empty.
proof fn lemma_field_empty(t: Seq<char>, room: nat, values: Seq<Seq<char>>)
    requires
        forall|i: int| 0 <= i < values.len() ==> (#[trigger] values[i]).len() == 0,
    ensures
        truncated_all(t, room, values) == t,
    decreases values.len(),
{
    if values.len() > 0 {
        let rest = values.drop_first();
        assert forall|i: int| 0 <= i < rest.len() implies (#[trigger] rest[i]).len() == 0 by {
            assert(rest[i] == values[i + 1]);
        }
        assert(truncated(t, room, values[0]) == t);
        lemma_field_empty(t, room, rest);
    }
}

/// What the user enters is what is requested: for an SSID and a password that fit the
/// radio, a connect request with both in URL encoding asks for exactly these.
pub proof fn law_chosen_network_is_requested(
    req: Seq<u8>,
    page_len: nat,
    networks: Seq<(Seq<char>, i16)>,
    status: Status,
    e_ssid: Seq<u8>,
    e_password: Seq<u8>,
    ssid: Seq<char>,
    password: Seq<char>,
)
    requires
        request_route(req) == Route::Connect,
        request_body(req) == connect_form(e_ssid, e_password),
        url_encodes(e_ssid, ssid),
        url_encodes(e_password, password),
        ssid.len() > 0,
        byte_len(ssid) <= SSID_MAX,
        byte_len(password) <= PASSWORD_MAX,
    ensures
        reply_to(req, page_len, networks, status).effect == (EffectView::Connect {
            ssid,
            password,
        }),
{
    law_form_round_trip(e_ssid, e_password, ssid, password);
    lemma_field_whole(request_body(req), "ssid"@, SSID_MAX as nat, ssid);
    lemma_field_whole(request_body(req), "password"@, PASSWORD_MAX as nat, password);
}

/// What the user enters is what is blinked, where it is not empty and fits.
pub proof fn law_entered_message_is_blinked(
    req: Seq<u8>,
    page_len: nat,
    networks: Seq<(Seq<char>, i16)>,
    status: Status,
    e_msg: Seq<u8>,
    msg: Seq<char>,
)
    requires
        request_route(req) == Route::Blink,
        request_body(req) == one_field("msg"@, e_msg),
        url_encodes(e_msg, msg),
        msg.len() > 0,
        byte_len(msg) <= MSG_MAX,
    ensures
        reply_to(req, page_len, networks, status).effect == EffectView::Blink(msg),
{
    law_message_round_trip(e_msg, msg);
    lemma_field_whole(request_body(req), "msg"@, MSG_MAX as nat, msg);
}

/// A connect request whose form has no SSID, or only an empty one, is refused, and joins
/// nothing.
pub proof fn law_missing_ssid_is_refused(
    req: Seq<u8>,
    page_len: nat,
    networks: Seq<(Seq<char>, i16)>,
    status: Status,
)
    requires
        request_route(req) == Route::Connect,
        forall|i: int|
            0 <= i < form_values(request_body(req), encode_utf8("ssid"@)).len() ==> (
            #[trigger] form_values(request_body(req), encode_utf8("ssid"@))[i]).len() == 0,
    ensures
        reply_to(req, page_len, networks, status) == text_reply(
            "400 Bad Request"@,
            "text/plain"@,
            "missing ssid"@,
            EffectView::Nothing,
        ),
{
    lemma_field_empty(
        seq![],
        SSID_MAX as nat,
        form_values(request_body(req), encode_utf8("ssid"@)),
    );
}

/// Asking for the list of networks or for the status changes nothing.
pub proof fn law_reading_has_no_effect(
    req: Seq<u8>,
    page_len: nat,
    networks: Seq<(Seq<char>, i16)>,
    status: Status,
)
    requires
        request_route(req) == Route::Networks || request_route(req) == Route::Status,
    ensures
        reply_to(req, page_len, networks, status).effect is Nothing,
        reply_to(req, page_len, networks, status).body is Text,
{
}

// ---- what a request is answered, byte by byte ----

/// A number is written in decimal: digits that count by their place, without a leading
/// zero.
pub proof fn law_numbers_are_decimal(n: nat)
    ensures
        are_digits(decimal(n)),
        positional(decimal(n)) == n,
        decimal(n).len() > 1 ==> decimal(n)[0] != '0',
    decreases n,
{
    lemma_decimal_reads(n);
    law_digits_count_by_place(decimal(n));
    lemma_no_leading_zero(n);
}

/// A number of more than one digit starts with none that counts nothing.
proof fn lemma_no_leading_zero(n: nat)
    ensures
        n > 0 ==> decimal(n)[0] != '0',
        decimal(n).len() > 1 ==> decimal(n)[0] != '0',
        decimal(n).len() > 0,
    decreases n,
{
    if n >= 10 {
        lemma_no_leading_zero(n / 10);
        assert(decimal(n)[0] == decimal(n / 10)[0]);
    }
}

/// A signed number is written as its size, behind a minus sign where it is negative.
pub proof fn law_signs_are_written(v: int)
    ensures
        v >= 0 ==> signed_decimal(v) == decimal(v as nat),
        v < 0 ==> signed_decimal(v) == seq!['-'] + decimal((-v) as nat),
{
}

/// An address is written as its four bytes in decimal, with dots between them.
pub proof fn law_addresses_are_dotted(a: u8, b: u8, c: u8, d: u8)
    ensures
        dotted(seq![a, b, c, d]) == decimal(a as nat) + seq!['.'] + decimal(b as nat) + seq!['.']
            + decimal(c as nat) + seq!['.'] + decimal(d as nat),
{
    reveal_with_fuel(dotted, 4);
    assert(seq![a, b, c, d].drop_last() =~= seq![a, b, c]);
    assert(seq![a, b, c].drop_last() =~= seq![a, b]);
    assert(seq![a, b].drop_last() =~= seq![a]);
}

/// A JSON string goes by characters: each of them adds at most one piece, which is left out
/// whole or not at all.
pub proof fn law_json_goes_by_character(a: Seq<char>, b: Seq<char>)
    ensures
        b.len() == 1 ==> json_pieces(b).len() <= 1,
        json_pieces(a + b) == json_pieces(a) + json_pieces(b),
        json_text(a + b) == json_text(a) + json_text(b),
    decreases b.len(),
{
    if b.len() == 0 {
        assert(a + b =~= a);
        assert(json_pieces(a) + json_pieces(b) =~= json_pieces(a));
    } else {
        law_json_goes_by_character(a, b.drop_last());
        assert((a + b).drop_last() =~= a + b.drop_last());
        assert(json_pieces(a + b) =~= json_pieces(a) + json_pieces(b));
        assert(b.len() == 1 ==> b.drop_last() =~= seq![]);
    }
    lemma_joined_concat(json_pieces(a), json_pieces(b));
}

/// Heads of every status and kind are made alike.
pub proof fn law_heads_are_made_alike(status: Seq<char>, kind: Seq<char>, n: nat)
    requires
        byte_len(status) + byte_len(kind) <= 145,
        n <= usize::MAX,
    ensures
        filled(seq![], HEAD_MAX as nat, head_pieces(status, kind, n)) == response_to(
            status,
            kind,
            n,
        ),
{
    law_head_is_whole(status, kind, n);
}

/// The head of a response with a body of `n` bytes.
pub open spec fn response_to(status: Seq<char>, kind: Seq<char>, n: nat) -> Seq<char> {
    "HTTP/1.1 "@ + status + "\r\nContent-Type: "@ + kind + "\r\nContent-Length: "@ + decimal(n)
        + "\r\nConnection: close\r\nCache-Control: no-store\r\n\r\n"@
}

/// Whether `line` asks for a path: it starts with the method, a space and the path, which
/// end there or at a space. Nothing is said of what follows.
pub open spec fn asks_for(line: Seq<u8>, method: Seq<u8>, path: Seq<u8>, tail: Seq<u8>) -> bool {
    &&& is_line(line)
    &&& line == method + seq![32u8] + path + tail
    &&& valid_utf8(line)
    &&& tail.len() == 0 || tail[0] == 32
    &&& forall|i: int| 0 <= i < method.len() ==> #[trigger] method[i] != 32
    &&& forall|i: int| 0 <= i < path.len() ==> #[trigger] path[i] != 32
}

/// Whether `line` is the first line of `req`: it is all of it, or a line end follows.
pub open spec fn starts_with_line(req: Seq<u8>, line: Seq<u8>, rest: Seq<u8>) -> bool {
    req == line || req == line + seq![13u8, 10] + rest
}

/// Both words of a line that is UTF-8 are UTF-8.
proof fn lemma_asked_line(line: Seq<u8>, method: Seq<u8>, path: Seq<u8>, tail: Seq<u8>)
    requires
        line == method + seq![32u8] + path + tail,
        valid_utf8(line),
        tail.len() == 0 || tail[0] == 32,
    ensures
        valid_utf8(method),
        valid_utf8(path),
{
    let n = method.len() as int;
    let words = path + tail;
    lemma_ascii_split(line, n);
    assert(line.subrange(0, n) =~= method);
    assert(line.skip(n + 1) =~= words);
    if tail.len() > 0 {
        lemma_ascii_split(words, path.len() as int);
        assert(words.subrange(0, path.len() as int) =~= path);
    } else {
        assert(words =~= path);
    }
}

/// A word that is read as `text` is `text` in UTF-8.
proof fn lemma_word_is(word: Seq<u8>, text: Seq<char>)
    requires
        valid_utf8(word),
    ensures
        decode_utf8(word) == text <==> word == encode_utf8(text),
{
    decode_utf8_encode_utf8(word);
    encode_utf8_decode_utf8(text);
}

/// Which route a request takes shows in the first two words of its first line, byte by
/// byte, whatever follows them.
#[verifier::rlimit(40)]
pub proof fn law_route_is_read(
    req: Seq<u8>,
    line: Seq<u8>,
    rest: Seq<u8>,
    method: Seq<u8>,
    path: Seq<u8>,
    tail: Seq<u8>,
)
    requires
        starts_with_line(req, line, rest),
        asks_for(line, method, path, tail),
    ensures
        request_line(req) is Some,
        request_route(req) == (if method == encode_utf8("GET"@) && path == encode_utf8("/"@) {
            Route::Portal
        } else if method == encode_utf8("GET"@) && path == encode_utf8("/networks"@) {
            Route::Networks
        } else if method == encode_utf8("GET"@) && path == encode_utf8("/status"@) {
            Route::Status
        } else if method == encode_utf8("POST"@) && path == encode_utf8("/connect"@) {
            Route::Connect
        } else if method == encode_utf8("POST"@) && path == encode_utf8("/blink"@) {
            Route::Blink
        } else {
            Route::Elsewhere
        }),
{
    lemma_asked_line(line, method, path, tail);
    law_request_line_is_read(method, path, tail, rest);
    lemma_word_is(method, "GET"@);
    lemma_word_is(method, "POST"@);
    lemma_word_is(path, "/"@);
    lemma_word_is(path, "/networks"@);
    lemma_word_is(path, "/status"@);
    lemma_word_is(path, "/connect"@);
    lemma_word_is(path, "/blink"@);
}

/// The body of a request is what follows its first blank line, and empty without one.
pub proof fn law_body_follows_the_blank_line(req: Seq<u8>, end: int)
    ensures
        blank_at(req, end) && (forall|j: int| 0 <= j < end ==> !#[trigger] blank_at(req, j))
            ==> request_body(req) == req.skip(end + 4),
        (forall|j: int| !#[trigger] blank_at(req, j)) ==> request_body(req)
            == Seq::<u8>::empty(),
{
    law_header_ends_at_the_first_blank_line(req, end);
}

/// `GET /` is answered with the page and requests a scan, whatever the other header lines
/// are, and so is a request whose first line cannot be read.
pub proof fn law_page_is_served(
    req: Seq<u8>,
    line: Seq<u8>,
    rest: Seq<u8>,
    tail: Seq<u8>,
    page_len: nat,
    networks: Seq<(Seq<char>, i16)>,
    status: Status,
)
    requires
        starts_with_line(req, line, rest),
        is_line(line),
        asks_for(line, encode_utf8("GET"@), encode_utf8("/"@), tail) || !valid_utf8(line)
            || forall|i: int| 0 <= i < line.len() ==> #[trigger] line[i] != 32,
    ensures
        reply_to(req, page_len, networks, status) == (ReplyView {
            head: response_to("200 OK"@, "text/html"@, page_len),
            body: BodyView::Page,
            effect: EffectView::Scan,
        }),
{
    if asks_for(line, encode_utf8("GET"@), encode_utf8("/"@), tail) {
        law_route_is_read(req, line, rest, encode_utf8("GET"@), encode_utf8("/"@), tail);
    } else {
        law_unreadable_line_gives_nothing(line, rest);
    }
}

/// The two paths differ.
proof fn lemma_paths_differ()
    ensures
        encode_utf8("/networks"@) != encode_utf8("/"@),
        encode_utf8("/status"@) != encode_utf8("/"@),
        encode_utf8("/status"@) != encode_utf8("/networks"@),
        encode_utf8("/connect"@) != encode_utf8("/blink"@),
        encode_utf8("GET"@) != encode_utf8("POST"@),
{
    reveal_strlit("/");
    reveal_strlit("/networks");
    reveal_strlit("/status");
    reveal_strlit("/connect");
    reveal_strlit("/blink");
    reveal_strlit("GET");
    reveal_strlit("POST");
    lemma_ascii_len("/"@);
    lemma_ascii_len("/networks"@);
    lemma_ascii_len("/status"@);
    lemma_ascii_len("/connect"@);
    lemma_ascii_len("/blink"@);
    lemma_ascii_len("GET"@);
    lemma_ascii_len("POST"@);
}

/// `GET /networks` is answered with the list of networks and `GET /status` with the current
/// status, whatever the other header lines are; the head gives the length in bytes, and
/// nothing else happens.
pub proof fn law_list_and_status_are_served(
    req: Seq<u8>,
    line: Seq<u8>,
    rest: Seq<u8>,
    path: Seq<u8>,
    tail: Seq<u8>,
    page_len: nat,
    networks: Seq<(Seq<char>, i16)>,
    status: Status,
)
    requires
        starts_with_line(req, line, rest),
        asks_for(line, encode_utf8("GET"@), path, tail),
        path == encode_utf8("/networks"@) || path == encode_utf8("/status"@),
    ensures
        ({
            let text = if path == encode_utf8("/networks"@) {
                networks_text(networks)
            } else {
                "{\"status\":\""@ + status.token() + "\"}"@
            };
            reply_to(req, page_len, networks, status) == (ReplyView {
                head: response_to("200 OK"@, "application/json"@, byte_len(text)),
                body: BodyView::Text(text),
                effect: EffectView::Nothing,
            })
        }),
{
    lemma_paths_differ();
    law_route_is_read(req, line, rest, encode_utf8("GET"@), path, tail);
}

/// Every other request is redirected to the portal, whatever it asks for and holds.
pub proof fn law_everything_else_is_redirected(
    req: Seq<u8>,
    line: Seq<u8>,
    rest: Seq<u8>,
    method: Seq<u8>,
    path: Seq<u8>,
    tail: Seq<u8>,
    page_len: nat,
    networks: Seq<(Seq<char>, i16)>,
    status: Status,
)
    requires
        starts_with_line(req, line, rest),
        asks_for(line, method, path, tail),
        method == encode_utf8("GET"@) ==> path != encode_utf8("/"@) && path != encode_utf8(
            "/networks"@,
        ) && path != encode_utf8("/status"@),
        method == encode_utf8("POST"@) ==> path != encode_utf8("/connect"@) && path != encode_utf8(
            "/blink"@,
        ),
    ensures
        reply_to(req, page_len, networks, status) == (ReplyView {
            head: "HTTP/1.1 302 Found\r\nLocation: "@ + "http://192.168.4.1/"@
                + "\r\nContent-Length: 0\r\nConnection: close\r\n\r\n"@,
            body: BodyView::Nothing,
            effect: EffectView::Nothing,
        }),
{
    law_route_is_read(req, line, rest, method, path, tail);
    law_redirect_names_the_portal();
}

/// Whether `part` is as much of `whole` as `room` bytes hold.
pub open spec fn is_cut(part: Seq<char>, whole: Seq<char>, room: nat) -> bool {
    &&& part.len() <= whole.len()
    &&& part == whole.take(part.len() as int)
    &&& byte_len(part) <= room
    &&& part.len() < whole.len() ==> byte_len(whole.take(part.len() as int + 1)) > room
}

/// A field with one value holds as much of it as there is room for.
proof fn lemma_field_is_cut(body: Seq<u8>, key: Seq<char>, room: nat, value: Seq<char>)
    requires
        form_values(body, encode_utf8(key)) == seq![value],
    ensures
        is_cut(field(body, key, room), value, room),
{
    let t = Seq::<char>::empty();
    lemma_ascii_len(t);
    reveal_with_fuel(truncated_all, 2);
    assert(seq![value].drop_first() =~= seq![]);
    law_truncation(t, room, value);
    law_truncated_text_fits(t, room, seq![value]);
    let n = truncated(t, room, value).len() as int;
    assert(t + value.take(n) =~= value.take(n));
}

/// A character takes at most four bytes.
proof fn lemma_char_len(t: Seq<char>)
    requires
        t.len() > 0,
    ensures
        byte_len(t.take(1)) <= 4,
{
    reveal_with_fuel(encode_utf8, 2);
    assert(t.take(1).drop_first() =~= seq![]);
    assert(encode_utf8(seq![]) =~= seq![]);
}

/// What the field of a form holds: as much as there is room for of its value, and nothing
/// without one.
proof fn lemma_field_of(items: Seq<(Seq<u8>, Option<Seq<u8>>)>, key: Seq<char>, room: nat)
    requires
        are_items(items),
        valid_utf8(form_bytes(items)),
        values_of(items, encode_utf8(key)).len() <= 1,
        room >= 4,
    ensures
        ({
            let values = values_of(items, encode_utf8(key));
            let held = field(form_bytes(items), key, room);
            if values.len() == 1 {
                is_cut(held, values[0], room) && (held.len() > 0 <==> values[0].len() > 0)
            } else {
                held.len() == 0
            }
        }),
{
    let body = form_bytes(items);
    let values = values_of(items, encode_utf8(key));
    law_form_is_read(items, encode_utf8(key));
    if values.len() == 1 {
        assert(values =~= seq![values[0]]);
        lemma_field_is_cut(body, key, room, values[0]);
        if values[0].len() > 0 {
            lemma_char_len(values[0]);
        }
    } else {
        assert(values =~= seq![]);
    }
}

/// How many bytes the fixed answers have.
proof fn lemma_answer_lens()
    ensures
        byte_len("{\"ok\":true}"@) == 11,
        byte_len("missing ssid"@) == 12,
        byte_len("missing msg"@) == 11,
{
    reveal_strlit("{\"ok\":true}");
    reveal_strlit("missing ssid");
    reveal_strlit("missing msg");
    lemma_ascii_len("{\"ok\":true}"@);
    lemma_ascii_len("missing ssid"@);
    lemma_ascii_len("missing msg"@);
}

/// A request starts with its first header line.
proof fn lemma_starts_with_line(lines: Seq<Seq<u8>>, body: Seq<u8>) -> (rest: Seq<u8>)
    requires
        are_lines(lines),
    ensures
        http_message(lines, body) == lines[0] + seq![13u8, 10] + rest,
{
    let rest = if lines.len() == 1 {
        seq![13u8, 10] + body
    } else {
        http_message(lines.drop_first(), body)
    };
    assert(http_message(lines, body) =~= lines[0] + seq![13u8, 10] + rest);
    rest
}

/// Where a form is sent.
#[verifier::rlimit(40)]
proof fn lemma_form_routed(lines: Seq<Seq<u8>>, body: Seq<u8>, path: Seq<u8>, tail: Seq<u8>)
    requires
        are_lines(lines),
        asks_for(lines[0], encode_utf8("POST"@), path, tail),
        path == encode_utf8("/connect"@) || path == encode_utf8("/blink"@),
    ensures
        request_body(http_message(lines, body)) == body,
        request_route(http_message(lines, body)) == (if path == encode_utf8("/connect"@) {
            Route::Connect
        } else {
            Route::Blink
        }),
{
    let rest = lemma_starts_with_line(lines, body);
    let req = http_message(lines, body);
    lemma_paths_differ();
    assert(request_body(req) == body) by {
        lemma_header_end(lines, body);
    }
    law_route_is_read(req, lines[0], rest, encode_utf8("POST"@), path, tail);
}

/// A connect form asks for the network and the password in it, wherever in the form they
/// stand, whatever other fields it has and whatever the other header lines are: both as far
/// as the radio has room for them. A form without a password, or without a network, is what
/// it says.
#[verifier::rlimit(40)]
pub proof fn law_connect_form_is_followed(
    lines: Seq<Seq<u8>>,
    tail: Seq<u8>,
    items: Seq<(Seq<u8>, Option<Seq<u8>>)>,
    page_len: nat,
    networks: Seq<(Seq<char>, i16)>,
    status: Status,
)
    requires
        are_lines(lines),
        asks_for(lines[0], encode_utf8("POST"@), encode_utf8("/connect"@), tail),
        are_items(items),
        valid_utf8(form_bytes(items)),
        values_of(items, encode_utf8("ssid"@)).len() <= 1,
        values_of(items, encode_utf8("password"@)).len() <= 1,
    ensures
        ({
            let reply = reply_to(
                http_message(lines, form_bytes(items)),
                page_len,
                networks,
                status,
            );
            let ssids = values_of(items, encode_utf8("ssid"@));
            let passwords = values_of(items, encode_utf8("password"@));
            if ssids.len() == 1 && ssids[0].len() > 0 {
                &&& reply.head == response_to("200 OK"@, "application/json"@, 11)
                &&& reply.body == BodyView::Text("{\"ok\":true}"@)
                &&& reply.effect matches EffectView::Connect { ssid, password } && is_cut(
                    ssid,
                    ssids[0],
                    32,
                ) && (if passwords.len() == 1 {
                    is_cut(password, passwords[0], 63)
                } else {
                    password.len() == 0
                })
            } else {
                &&& reply.head == response_to("400 Bad Request"@, "text/plain"@, 12)
                &&& reply.body == BodyView::Text("missing ssid"@)
                &&& reply.effect is Nothing
            }
        }),
{
    lemma_form_routed(lines, form_bytes(items), encode_utf8("/connect"@), tail);
    lemma_field_of(items, "ssid"@, 32);
    lemma_field_of(items, "password"@, 63);
    lemma_answer_lens();
}

/// A blink form asks for the message in it, wherever in the form it stands, whatever other
/// fields it has and whatever the other header lines are, as far as there is room for it; a
/// form without a message is refused.
#[verifier::rlimit(40)]
pub proof fn law_blink_form_is_followed(
    lines: Seq<Seq<u8>>,
    tail: Seq<u8>,
    items: Seq<(Seq<u8>, Option<Seq<u8>>)>,
    page_len: nat,
    networks: Seq<(Seq<char>, i16)>,
    status: Status,
)
    requires
        are_lines(lines),
        asks_for(lines[0], encode_utf8("POST"@), encode_utf8("/blink"@), tail),
        are_items(items),
        valid_utf8(form_bytes(items)),
        values_of(items, encode_utf8("msg"@)).len() <= 1,
    ensures
        ({
            let reply = reply_to(
                http_message(lines, form_bytes(items)),
                page_len,
                networks,
                status,
            );
            let msgs = values_of(items, encode_utf8("msg"@));
            if msgs.len() == 1 && msgs[0].len() > 0 {
                &&& reply.head == response_to("200 OK"@, "application/json"@, 11)
                &&& reply.body == BodyView::Text("{\"ok\":true}"@)
                &&& reply.effect matches EffectView::Blink(msg) && is_cut(msg, msgs[0], 64)
            } else {
                &&& reply.head == response_to("400 Bad Request"@, "text/plain"@, 11)
                &&& reply.body == BodyView::Text("missing msg"@)
                &&& reply.effect is Nothing
            }
        }),
{
    lemma_paths_differ();
    lemma_form_routed(lines, form_bytes(items), encode_utf8("/blink"@), tail);
    lemma_field_of(items, "msg"@, 64);
    lemma_answer_lens();
}

/// Whatever the fields of a connect form are and however often they occur, what is requested
/// are their values one after the other, each cut where the room ends; without a network
/// nothing is requested.
pub proof fn law_repeated_fields_are_joined(
    lines: Seq<Seq<u8>>,
    tail: Seq<u8>,
    items: Seq<(Seq<u8>, Option<Seq<u8>>)>,
    page_len: nat,
    networks: Seq<(Seq<char>, i16)>,
    status: Status,
)
    requires
        are_lines(lines),
        asks_for(lines[0], encode_utf8("POST"@), encode_utf8("/connect"@), tail),
        are_items(items),
        valid_utf8(form_bytes(items)),
    ensures
        ({
            let ssid = truncated_all(seq![], 32, values_of(items, encode_utf8("ssid"@)));
            let password = truncated_all(seq![], 63, values_of(items, encode_utf8("password"@)));
            reply_to(http_message(lines, form_bytes(items)), page_len, networks, status).effect
                == (if ssid.len() > 0 {
                EffectView::Connect { ssid, password }
            } else {
                EffectView::Nothing
            })
        }),
{
    lemma_form_routed(lines, form_bytes(items), encode_utf8("/connect"@), tail);
    law_form_is_read(items, encode_utf8("ssid"@));
    law_form_is_read(items, encode_utf8("password"@));
}

/// A form without the blank line before it is none: the request is refused.
pub proof fn law_no_form_without_blank_line(
    req: Seq<u8>,
    line: Seq<u8>,
    rest: Seq<u8>,
    tail: Seq<u8>,
    page_len: nat,
    networks: Seq<(Seq<char>, i16)>,
    status: Status,
)
    requires
        starts_with_line(req, line, rest),
        asks_for(line, encode_utf8("POST"@), encode_utf8("/connect"@), tail),
        forall|j: int| !#[trigger] blank_at(req, j),
    ensures
        reply_to(req, page_len, networks, status) == (ReplyView {
            head: response_to("400 Bad Request"@, "text/plain"@, 12),
            body: BodyView::Text("missing ssid"@),
            effect: EffectView::Nothing,
        }),
{
    let key = encode_utf8("ssid"@);
    let items = seq![(Seq::<u8>::empty(), None::<Seq<u8>>)];
    lemma_paths_differ();
    lemma_answer_lens();
    law_route_is_read(req, line, rest, encode_utf8("POST"@), encode_utf8("/connect"@), tail);
    law_body_follows_the_blank_line(req, 0);
    law_form_is_read(items, key);
    assert(form_bytes(items) =~= seq![]);
    assert(items.drop_first() =~= seq![]);
    assert(values_of(items, key) =~= seq![]);
}

/// A form that is no text has no fields: the request is refused, and nothing happens.
pub proof fn law_unreadable_form_is_refused(
    lines: Seq<Seq<u8>>,
    tail: Seq<u8>,
    body: Seq<u8>,
    page_len: nat,
    networks: Seq<(Seq<char>, i16)>,
    status: Status,
)
    requires
        are_lines(lines),
        asks_for(lines[0], encode_utf8("POST"@), encode_utf8("/connect"@), tail),
        !valid_utf8(body),
    ensures
        reply_to(http_message(lines, body), page_len, networks, status) == (ReplyView {
            head: response_to("400 Bad Request"@, "text/plain"@, 12),
            body: BodyView::Text("missing ssid"@),
            effect: EffectView::Nothing,
        }),
{
    lemma_form_routed(lines, body, encode_utf8("/connect"@), tail);
    lemma_answer_lens();
}

/// A blink form that is no text is refused too.
pub proof fn law_unreadable_message_is_refused(
    lines: Seq<Seq<u8>>,
    tail: Seq<u8>,
    body: Seq<u8>,
    page_len: nat,
    networks: Seq<(Seq<char>, i16)>,
    status: Status,
)
    requires
        are_lines(lines),
        asks_for(lines[0], encode_utf8("POST"@), encode_utf8("/blink"@), tail),
        !valid_utf8(body),
    ensures
        reply_to(http_message(lines, body), page_len, networks, status) == (ReplyView {
            head: response_to("400 Bad Request"@, "text/plain"@, 11),
            body: BodyView::Text("missing msg"@),
            effect: EffectView::Nothing,
        }),
{
    lemma_paths_differ();
    lemma_form_routed(lines, body, encode_utf8("/blink"@), tail);
    lemma_answer_lens();
}

/// What the user enters is what is requested, in one statement from form to radio: for
/// every SSID and password that fit, sent in URL encoding, the request is for exactly these.
pub proof fn law_entered_network_is_requested(
    lines: Seq<Seq<u8>>,
    tail: Seq<u8>,
    e_ssid: Seq<u8>,
    e_password: Seq<u8>,
    ssid: Seq<char>,
    password: Seq<char>,
    page_len: nat,
    networks: Seq<(Seq<char>, i16)>,
    status: Status,
)
    requires
        are_lines(lines),
        asks_for(lines[0], encode_utf8("POST"@), encode_utf8("/connect"@), tail),
        url_encodes(e_ssid, ssid),
        url_encodes(e_password, password),
        ssid.len() > 0,
        byte_len(ssid) <= 32,
        byte_len(password) <= 63,
    ensures
        reply_to(
            http_message(lines, connect_form(e_ssid, e_password)),
            page_len,
            networks,
            status,
        ).effect == (EffectView::Connect { ssid, password }),
{
    let body = connect_form(e_ssid, e_password);
    lemma_form_routed(lines, body, encode_utf8("/connect"@), tail);
    law_chosen_network_is_requested(
        http_message(lines, body),
        page_len,
        networks,
        status,
        e_ssid,
        e_password,
        ssid,
        password,
    );
}

} // verus!
