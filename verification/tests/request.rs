use pico_proxy::request::{
    after_read, content_length, find_subslice, hex_val, is_complete, parse_field, parse_form,
    parse_request_line, starts_with, url_decode_into, ReadStep,
};
use pico_proxy::text::Text;

fn url_decoded(s: &[u8]) -> String {
    let mut out = Text::new::<64>();
    url_decode_into(s, &mut out);
    String::from(out.as_str())
}

fn form(body: &[u8]) -> (String, String) {
    let mut ssid = Text::new::<32>();
    let mut password = Text::new::<63>();
    parse_form(body, &mut ssid, &mut password);
    (String::from(ssid.as_str()), String::from(password.as_str()))
}

#[test]
fn the_first_occurrence_is_found() {
    assert_eq!(find_subslice(b"abcabc", b"bc"), Some(1));
    assert_eq!(find_subslice(b"aab", b"ab"), Some(1));
    assert_eq!(find_subslice(b"abc", b"abc"), Some(0));
    assert_eq!(find_subslice(b"abc", b"abcd"), None);
    assert_eq!(find_subslice(b"abc", b"x"), None);
    // An empty needle is never found.
    assert_eq!(find_subslice(b"abc", b""), None);
    assert_eq!(find_subslice(b"", b""), None);
}

#[test]
fn prefixes_are_recognised() {
    assert!(starts_with(b"POST /", b"POST"));
    assert!(starts_with(b"POST", b"POST"));
    assert!(!starts_with(b"POS", b"POST"));
    assert!(!starts_with(b"GET /", b"POST"));
}

#[test]
fn the_request_line_gives_method_and_path() {
    assert_eq!(
        parse_request_line(b"GET /networks HTTP/1.1\r\nHost: x\r\n\r\n"),
        Some(("GET", "/networks"))
    );
    // Without a line end the whole request is the line.
    assert_eq!(parse_request_line(b"POST /connect"), Some(("POST", "/connect")));
    // Two spaces enclose an empty word.
    assert_eq!(parse_request_line(b"GET  /"), Some(("GET", "")));
    assert_eq!(parse_request_line(b" /"), Some(("", "/")));
    assert_eq!(parse_request_line(b"GET "), Some(("GET", "")));
}

#[test]
fn an_unreadable_request_line_gives_nothing() {
    assert_eq!(parse_request_line(b""), None);
    assert_eq!(parse_request_line(b"GET\r\n/ x"), None);
    assert_eq!(parse_request_line(b"GET /\xff HTTP/1.1\r\n"), None);
    // Only the first line has to be UTF-8.
    assert_eq!(parse_request_line(b"GET / HTTP/1.1\r\n\xff"), Some(("GET", "/")));
}

#[test]
fn the_content_length_is_read() {
    assert_eq!(content_length(b"POST / HTTP/1.1\r\nContent-Length: 42"), Some(42));
    assert_eq!(content_length(b"content-length:7\r\nHost: x"), Some(7));
    assert_eq!(content_length(b"Content-Length:\t 0012 \t\r\n"), Some(12));
    assert_eq!(content_length(b"Content-Length: +5"), Some(5));
    assert_eq!(content_length("Content-Length:\u{a0}9\u{3000}".as_bytes()), Some(9));
    // The first such line counts.
    assert_eq!(content_length(b"Content-Length: 1\r\nContent-Length: 2"), Some(1));
    assert_eq!(content_length(b"content-length: x\r\nContent-Length: 2"), None);
}

#[test]
fn no_content_length_is_read_where_there_is_none() {
    assert_eq!(content_length(b""), None);
    assert_eq!(content_length(b"Host: x"), None);
    assert_eq!(content_length(b"CONTENT-LENGTH: 3"), None);
    assert_eq!(content_length(b" Content-Length: 3"), None);
    assert_eq!(content_length(b"Content-Length: "), None);
    assert_eq!(content_length(b"Content-Length: +"), None);
    assert_eq!(content_length(b"Content-Length: -1"), None);
    assert_eq!(content_length(b"Content-Length: 1 2"), None);
    assert_eq!(content_length(b"Content-Length: 3\r\nX: \xff"), None);
}

#[test]
fn the_content_length_has_to_fit() {
    let max = format!("Content-Length: {}", usize::MAX);
    assert_eq!(content_length(max.as_bytes()), Some(usize::MAX));
    let over = format!("Content-Length: {}0", usize::MAX);
    assert_eq!(content_length(over.as_bytes()), None);
    assert_eq!(content_length(b"Content-Length: 18446744073709551616"), None);
}

#[test]
fn hexadecimal_digits_have_values() {
    assert_eq!(hex_val(b'0'), Some(0));
    assert_eq!(hex_val(b'9'), Some(9));
    assert_eq!(hex_val(b'a'), Some(10));
    assert_eq!(hex_val(b'f'), Some(15));
    assert_eq!(hex_val(b'A'), Some(10));
    assert_eq!(hex_val(b'F'), Some(15));
    for c in [b'g', b'G', b'/', b':', b'@', b'`', 0xff] {
        assert_eq!(hex_val(c), None);
    }
}

#[test]
fn url_encoding_is_undone() {
    assert_eq!(url_decoded(b"My+Wi-Fi%21"), "My Wi-Fi!");
    assert_eq!(url_decoded(b"%26%3d%3D%25"), "&==%");
    assert_eq!(url_decoded(b"%00"), "\0");
    // The bytes together are UTF-8.
    assert_eq!(url_decoded(b"caf%C3%A9"), "caf\u{e9}");
    assert_eq!(url_decoded(b"%e2%82%ac+%F0%9F%93%B6"), "\u{20ac} \u{1f4f6}");
    assert_eq!(url_decoded("caf\u{e9}".as_bytes()), "caf\u{e9}");
}

#[test]
fn bytes_that_are_not_utf8_stand_for_a_character_each() {
    assert_eq!(url_decoded(b"caf%e9"), "caf\u{e9}");
    assert_eq!(url_decoded(b"%C3%A9%ff"), "\u{c3}\u{a9}\u{ff}");
}

#[test]
fn broken_escapes_stand_for_themselves() {
    assert_eq!(url_decoded(b"%"), "%");
    assert_eq!(url_decoded(b"%4"), "%4");
    assert_eq!(url_decoded(b"100%"), "100%");
    assert_eq!(url_decoded(b"%zz%4x"), "%zz%4x");
    assert_eq!(url_decoded(b"%%41"), "%A");
    assert_eq!(url_decoded(b"%41"), "A");
}

#[test]
fn decoding_truncates_at_the_first_character_that_does_not_fit() {
    let mut out = Text::new::<3>();
    url_decode_into(b"ab%C3%A9c", &mut out);
    assert_eq!(out.as_str(), "ab");
    let mut out = Text::new::<3>();
    url_decode_into(b"a%C3%A9c", &mut out);
    assert_eq!(out.as_str(), "a\u{e9}");
    url_decode_into(b"d", &mut out);
    assert_eq!(out.as_str(), "a\u{e9}");
    let mut out = Text::new::<3>();
    url_decode_into(b"abcdef", &mut out);
    assert_eq!(out.as_str(), "abc");
}

#[test]
fn a_form_gives_back_what_was_entered() {
    assert_eq!(
        form(b"ssid=Caf%65+%26+Bar&password=p%40ss%3Dword"),
        (String::from("Cafe & Bar"), String::from("p@ss=word"))
    );
    // Names beyond ASCII, as a browser encodes them.
    assert_eq!(
        form("ssid=caf%C3%A9+%E2%98%95&password=%C3%BC".as_bytes()),
        (String::from("caf\u{e9} \u{2615}"), String::from("\u{fc}"))
    );
    // In any order, with others between them.
    assert_eq!(
        form(b"password=x&other=1&ssid=y"),
        (String::from("y"), String::from("x"))
    );
    // The value may hold an equals sign.
    assert_eq!(form(b"ssid=a=b"), (String::from("a=b"), String::new()));
}

#[test]
fn missing_and_empty_fields_are_empty() {
    assert_eq!(form(b""), (String::new(), String::new()));
    assert_eq!(form(b"ssid&password"), (String::new(), String::new()));
    assert_eq!(form(b"ssid=&password="), (String::new(), String::new()));
    assert_eq!(form(b"SSID=a&&=b"), (String::new(), String::new()));
    // A body that is not UTF-8 has no fields.
    assert_eq!(form(b"ssid=a&x=\xff"), (String::new(), String::new()));
}

#[test]
fn repeated_fields_are_joined_and_long_ones_cut() {
    assert_eq!(form(b"ssid=a&ssid=b").0, "ab");
    let long = [b'x'; 100];
    let mut body = b"ssid=".to_vec();
    body.extend_from_slice(&long);
    body.extend_from_slice(b"&password=");
    body.extend_from_slice(&long);
    let (ssid, password) = form(&body);
    assert_eq!(ssid.len(), 32);
    assert_eq!(password.len(), 63);
}

#[test]
fn a_single_field_is_read() {
    let mut msg = Text::new::<64>();
    parse_field(b"x=1&msg=SOS+now", "msg", &mut msg);
    assert_eq!(msg.as_str(), "SOS now");
}

#[test]
fn a_request_is_whole_with_its_headers_and_announced_body() {
    assert!(is_complete(b"GET / HTTP/1.1\r\n\r\n"));
    assert!(!is_complete(b"GET / HTTP/1.1\r\n"));
    assert!(!is_complete(b"POST / HTTP/1.1\r\nContent-Length: 3\r\n\r\nab"));
    assert!(is_complete(b"POST / HTTP/1.1\r\nContent-Length: 3\r\n\r\nabc"));
    // A POST that announces no length, and a GET that does.
    assert!(is_complete(b"POST / HTTP/1.1\r\n\r\n"));
    assert!(is_complete(b"GET / HTTP/1.1\r\nContent-Length: 3\r\n\r\n"));
    // A whole request stays whole when more bytes follow.
    assert!(is_complete(b"POST / HTTP/1.1\r\nContent-Length: 3\r\n\r\nabcdef\r\n\r\n"));
}

#[test]
fn a_request_is_read_until_it_is_whole() {
    let request = b"POST /connect HTTP/1.1\r\nContent-Length: 6\r\n\r\nssid=a";
    let mut buf = [0u8; 128];
    let mut total = 0;
    for (i, byte) in request.iter().enumerate() {
        buf[total] = *byte;
        let step = after_read(&buf, total, Some(1));
        if i + 1 < request.len() {
            assert_eq!(step, ReadStep::More(i + 1));
            total = i + 1;
        } else {
            assert_eq!(step, ReadStep::Done(request.len()));
        }
    }
    // In one piece.
    assert_eq!(after_read(&buf, 0, Some(request.len())), ReadStep::Done(request.len()));
}

#[test]
fn reading_ends_when_the_peer_closes_or_the_buffer_is_full() {
    let buf = *b"GET / HT";
    assert_eq!(after_read(&buf, 0, Some(4)), ReadStep::More(4));
    assert_eq!(after_read(&buf, 4, Some(0)), ReadStep::Done(4));
    assert_eq!(after_read(&buf, 4, Some(4)), ReadStep::Done(8));
}

#[test]
fn without_bytes_there_is_no_request() {
    let buf = [0u8; 8];
    assert_eq!(after_read(&buf, 0, Some(0)), ReadStep::Abandon);
    assert_eq!(after_read(&buf, 0, None), ReadStep::Abandon);
    assert_eq!(after_read(&buf, 4, None), ReadStep::Abandon);
}

#[test]
fn pieces_do_not_matter() {
    let request = b"POST /blink HTTP/1.1\r\nContent-Length: 7\r\n\r\nmsg=SOS";
    let mut buf = [0u8; 256];
    buf[..request.len()].copy_from_slice(request);
    for size in 1..=request.len() {
        let mut total = 0;
        loop {
            let n = size.min(request.len() - total);
            match after_read(&buf, total, Some(n)) {
                ReadStep::More(now) => total = now,
                step => {
                    assert_eq!(step, ReadStep::Done(request.len()));
                    break;
                }
            }
        }
    }
}
