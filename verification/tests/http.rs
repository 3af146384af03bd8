use pico_proxy::http::{
    handle_blink, handle_connect, handle_request, networks_json, push_i16, push_ip,
    push_json_escaped, push_usize, redirect_head, response_head, route, status_json, Body, Effect,
    Reply, Route,
};
use pico_proxy::shared::Status;
use pico_proxy::text::Text;
use pico_proxy::wifi::{scan, Beacon, NetworkList};

fn beacon(name: &[u8], rssi: i16) -> Beacon {
    let mut ssid = [0u8; 32];
    ssid[..name.len()].copy_from_slice(name);
    Beacon { ssid, ssid_len: name.len() as u8, rssi }
}

fn decimal(v: usize) -> String {
    let mut out = Text::new::<32>();
    push_usize(&mut out, v);
    String::from(out.as_str())
}

fn signed(v: i16) -> String {
    let mut out = Text::new::<32>();
    push_i16(&mut out, v);
    String::from(out.as_str())
}

fn escaped(s: &str) -> String {
    let mut out = Text::new::<64>();
    push_json_escaped(&mut out, s);
    String::from(out.as_str())
}

fn body(reply: &Reply) -> &str {
    match &reply.body {
        Body::Nothing => "",
        Body::Page => "<page>",
        Body::Document(text) => text.as_str(),
        Body::Fixed(text) => text,
    }
}

fn answer(req: &[u8]) -> Reply {
    handle_request(req, 1234, &NetworkList::new(), Status::Portal)
}

const REDIRECT: &str = "HTTP/1.1 302 Found\r\nLocation: http://192.168.4.1/\r\nContent-Length: 0\r\nConnection: close\r\n\r\n";

fn head(status: &str, content_type: &str, len: usize) -> String {
    format!(
        "HTTP/1.1 {}\r\nContent-Type: {}\r\nContent-Length: {}\r\nConnection: close\r\nCache-Control: no-store\r\n\r\n",
        status, content_type, len
    )
}

#[test]
fn numbers_are_written_in_decimal() {
    assert_eq!(decimal(0), "0");
    assert_eq!(decimal(7), "7");
    assert_eq!(decimal(10), "10");
    assert_eq!(decimal(1050), "1050");
    assert_eq!(decimal(usize::MAX), usize::MAX.to_string());
    assert_eq!(decimal(98765).parse::<usize>(), Ok(98765));
}

#[test]
fn signal_strengths_are_written_with_their_sign() {
    assert_eq!(signed(0), "0");
    assert_eq!(signed(-40), "-40");
    assert_eq!(signed(12), "12");
    assert_eq!(signed(i16::MIN), "-32768");
    assert_eq!(signed(i16::MAX), "32767");
}

#[test]
fn digits_that_do_not_fit_are_left_out() {
    let mut out = Text::new::<3>();
    push_usize(&mut out, 12345);
    assert_eq!(out.as_str(), "123");
}

#[test]
fn addresses_are_written_with_dots() {
    let mut out = Text::new::<32>();
    push_ip(&mut out, &[192, 168, 4, 1]);
    assert_eq!(out.as_str(), "192.168.4.1");
    push_ip(&mut out, &[0, 255, 10, 0]);
    assert_eq!(out.as_str(), "192.168.4.10.255.10.0");
}

#[test]
fn json_strings_are_escaped() {
    assert_eq!(escaped("plain"), "plain");
    assert_eq!(escaped("a\"b\\c"), "a\\\"b\\\\c");
    assert_eq!(escaped("tab\there\nand\0there"), "tabhereandthere");
    assert_eq!(escaped("caf\u{e9}\u{7f}"), "caf\u{e9}\u{7f}");
}

#[test]
fn an_escape_that_does_not_fit_is_left_out_whole() {
    let mut out = Text::new::<2>();
    push_json_escaped(&mut out, "a\"b");
    assert_eq!(out.as_str(), "ab");
}

/// What a JSON string stands for.
fn json_read(s: &str) -> String {
    let mut out = String::new();
    let mut chars = s.chars();
    while let Some(c) = chars.next() {
        assert!(c != '"' && c >= ' ');
        out.push(if c == '\\' { chars.next().unwrap() } else { c });
    }
    out
}

#[test]
fn an_escaped_name_reads_back() {
    for name in ["", "plain", "\"", "\\", "\\\"", "q\"u\\o\\\\te"] {
        assert_eq!(json_read(&escaped(name)), name);
    }
    assert_eq!(json_read(&escaped("\u{1}a\u{1f}b")), "ab");
}

#[test]
fn a_head_names_status_type_and_length() {
    assert_eq!(
        response_head("200 OK", "text/html", 512).as_str(),
        head("200 OK", "text/html", 512)
    );
    // An overlong type is left out as a whole.
    let long = "x".repeat(300);
    assert_eq!(response_head("200 OK", &long, 0).as_str(), head("200 OK", "", 0));
}

#[test]
fn a_redirect_leads_to_the_portal() {
    assert_eq!(redirect_head().as_str(), REDIRECT);
}

#[test]
fn networks_are_listed_as_json() {
    assert_eq!(networks_json(&NetworkList::new()).as_str(), "[]");
    let list = scan(&[beacon(b"a\"b", -70), beacon(b"home", -40)]);
    assert_eq!(
        networks_json(&list).as_str(),
        "[{\"ssid\":\"home\",\"rssi\":-40},{\"ssid\":\"a\\\"b\",\"rssi\":-70}]"
    );
}

#[test]
fn a_full_list_of_long_names_is_whole() {
    let beacons: Vec<Beacon> = (0..24u8)
        .map(|i| {
            let mut name = [b'x'; 32];
            name[0] = b'a' + i;
            beacon(&name, i16::MIN + i as i16)
        })
        .collect();
    let list = scan(&beacons);
    let json = networks_json(&list);
    assert_eq!(json.as_str().matches("\"ssid\"").count(), 24);
    assert_eq!(json.as_str().len(), 2 + 24 * (9 + 32 + 9 + 6 + 1) + 23);
    assert!(json.as_str().ends_with("}]"));
}

#[test]
fn a_full_list_of_quotes_is_whole() {
    let beacons: Vec<Beacon> = (0..24u8)
        .map(|i| {
            let mut name = [b'"'; 32];
            name[0] = b'a' + i;
            beacon(&name, -30000)
        })
        .collect();
    let list = scan(&beacons);
    let mut expected = String::from("[");
    for (i, network) in list.as_slice().iter().enumerate() {
        if i > 0 {
            expected.push(',');
        }
        let name = network.ssid.as_str();
        assert_eq!(json_read(&"\\\"".repeat(31)), &name[1..]);
        expected.push_str(&format!(
            "{{\"ssid\":\"{}{}\",\"rssi\":-30000}}",
            &name[..1],
            "\\\"".repeat(31)
        ));
    }
    expected.push(']');
    assert_eq!(list.as_slice().len(), 24);
    assert_eq!(networks_json(&list).as_str(), expected);
}

#[test]
fn the_status_is_a_json_document() {
    assert_eq!(status_json(Status::Portal).as_str(), "{\"status\":\"portal\"}");
    assert_eq!(status_json(Status::Connecting).as_str(), "{\"status\":\"connecting\"}");
}

#[test]
fn requests_are_routed() {
    assert_eq!(route(b"GET / HTTP/1.1\r\n\r\n"), Route::Portal);
    assert_eq!(route(b"GET /networks HTTP/1.1\r\n\r\n"), Route::Networks);
    assert_eq!(route(b"GET /status HTTP/1.1\r\n\r\n"), Route::Status);
    assert_eq!(route(b"POST /connect HTTP/1.1\r\n\r\n"), Route::Connect);
    assert_eq!(route(b"POST /blink HTTP/1.1\r\n\r\n"), Route::Blink);
    assert_eq!(route(b"GET /generate_204 HTTP/1.1\r\n\r\n"), Route::Elsewhere);
    assert_eq!(route(b"POST / HTTP/1.1\r\n\r\n"), Route::Elsewhere);
    assert_eq!(route(b"GET /connect HTTP/1.1\r\n\r\n"), Route::Elsewhere);
    assert_eq!(route(b"get / HTTP/1.1\r\n\r\n"), Route::Elsewhere);
    assert_eq!(route(b"GET /status?x HTTP/1.1\r\n\r\n"), Route::Elsewhere);
    // Without a readable request line the portal is meant.
    assert_eq!(route(b""), Route::Portal);
    assert_eq!(route(b"\xff\xff"), Route::Portal);
}

#[test]
fn the_page_is_served_and_a_scan_requested() {
    let reply = answer(b"GET / HTTP/1.1\r\n\r\n");
    assert_eq!(reply.head.as_str(), head("200 OK", "text/html", 1234));
    assert!(matches!(reply.body, Body::Page));
    assert!(matches!(reply.effect, Effect::Scan));
}

#[test]
fn the_list_and_the_status_are_served_without_effect() {
    let list = scan(&[beacon(b"home", -40)]);
    let reply = handle_request(b"GET /networks HTTP/1.1\r\n\r\n", 1, &list, Status::Portal);
    assert_eq!(body(&reply), "[{\"ssid\":\"home\",\"rssi\":-40}]");
    assert_eq!(reply.head.as_str(), head("200 OK", "application/json", 28));
    assert!(matches!(reply.effect, Effect::Nothing));

    let reply = handle_request(b"GET /status HTTP/1.1\r\n\r\n", 1, &list, Status::Failed);
    assert_eq!(body(&reply), "{\"status\":\"failed\"}");
    assert_eq!(reply.head.as_str(), head("200 OK", "application/json", 19));
    assert!(matches!(reply.effect, Effect::Nothing));
}

#[test]
fn the_length_of_a_body_counts_bytes() {
    let list = scan(&[beacon("caf\u{e9}".as_bytes(), 0)]);
    let reply = handle_request(b"GET /networks HTTP/1.1\r\n\r\n", 1, &list, Status::Portal);
    let text = body(&reply);
    assert_eq!(text, "[{\"ssid\":\"caf\u{e9}\",\"rssi\":0}]");
    assert_eq!(reply.head.as_str(), head("200 OK", "application/json", text.len()));
}

#[test]
fn probes_are_redirected() {
    for req in [
        &b"GET /generate_204 HTTP/1.1\r\nHost: connectivitycheck.gstatic.com\r\n\r\n"[..],
        &b"GET /hotspot-detect.html HTTP/1.1\r\n\r\n"[..],
        &b"HEAD / HTTP/1.1\r\n\r\n"[..],
    ] {
        let reply = answer(req);
        assert_eq!(reply.head.as_str(), REDIRECT);
        assert!(matches!(reply.body, Body::Nothing));
        assert!(matches!(reply.effect, Effect::Nothing));
    }
}

#[test]
fn the_chosen_network_is_requested() {
    let reply = answer(
        b"POST /connect HTTP/1.1\r\nContent-Length: 36\r\n\r\nssid=My+Home%21&password=p%26ss+word",
    );
    assert_eq!(reply.head.as_str(), head("200 OK", "application/json", 11));
    assert_eq!(body(&reply), "{\"ok\":true}");
    match reply.effect {
        Effect::Connect(request) => {
            assert_eq!(request.ssid.as_str(), "My Home!");
            assert_eq!(request.password.as_str(), "p&ss word");
        }
        _ => panic!("no connect request"),
    }
}

#[test]
fn a_listed_network_can_be_chosen_whatever_its_name() {
    let list = scan(&[beacon("caf\u{e9}".as_bytes(), -40)]);
    let reply = answer(b"POST /connect HTTP/1.1\r\n\r\nssid=caf%C3%A9&password=");
    match reply.effect {
        Effect::Connect(request) => {
            assert_eq!(request.ssid.as_str(), list.as_slice()[0].ssid.as_str());
        }
        _ => panic!("no connect request"),
    }
}

#[test]
fn an_open_network_needs_no_password() {
    let reply = handle_connect(b"POST /connect HTTP/1.1\r\n\r\nssid=cafe&password=");
    match reply.effect {
        Effect::Connect(request) => {
            assert_eq!(request.ssid.as_str(), "cafe");
            assert!(request.password.is_empty());
        }
        _ => panic!("no connect request"),
    }
}

#[test]
fn a_form_without_ssid_is_refused() {
    for req in [
        &b"POST /connect HTTP/1.1\r\n\r\nssid=&password=x"[..],
        &b"POST /connect HTTP/1.1\r\n\r\npassword=x"[..],
        &b"POST /connect HTTP/1.1\r\n\r\n"[..],
        &b"POST /connect HTTP/1.1"[..],
        &b"POST /connect HTTP/1.1\r\n\r\nssid=\xff"[..],
    ] {
        let reply = answer(req);
        assert_eq!(reply.head.as_str(), head("400 Bad Request", "text/plain", 12));
        assert_eq!(body(&reply), "missing ssid");
        assert!(matches!(reply.effect, Effect::Nothing));
    }
}

#[test]
fn overlong_entries_are_cut_to_what_the_radio_takes() {
    let mut req = b"POST /connect HTTP/1.1\r\n\r\nssid=".to_vec();
    req.extend_from_slice(&[b's'; 40]);
    req.extend_from_slice(b"&password=");
    req.extend_from_slice(&[b'p'; 80]);
    match answer(&req).effect {
        Effect::Connect(request) => {
            assert_eq!(request.ssid.as_str(), "s".repeat(32));
            assert_eq!(request.password.as_str(), "p".repeat(63));
        }
        _ => panic!("no connect request"),
    }
}

#[test]
fn a_message_is_blinked() {
    let reply = answer(b"POST /blink HTTP/1.1\r\n\r\nmsg=Hello+there%21");
    assert_eq!(reply.head.as_str(), head("200 OK", "application/json", 11));
    assert_eq!(body(&reply), "{\"ok\":true}");
    match reply.effect {
        Effect::Blink(msg) => assert_eq!(msg.as_str(), "Hello there!"),
        _ => panic!("no message"),
    }
    let mut long = b"POST /blink HTTP/1.1\r\n\r\nmsg=".to_vec();
    long.extend_from_slice(&[b'e'; 90]);
    match handle_blink(&long).effect {
        Effect::Blink(msg) => assert_eq!(msg.as_str(), "e".repeat(64)),
        _ => panic!("no message"),
    }
}

#[test]
fn an_empty_message_is_refused() {
    let reply = answer(b"POST /blink HTTP/1.1\r\n\r\nmsg=");
    assert_eq!(reply.head.as_str(), head("400 Bad Request", "text/plain", 11));
    assert_eq!(body(&reply), "missing msg");
    assert!(matches!(reply.effect, Effect::Nothing));
}
