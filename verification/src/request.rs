//! Reading and parsing HTTP requests.

use vstd::prelude::*;
use vstd::utf8::*;
#[allow(unused_imports)]
use vstd::arithmetic::power::pow;

use crate::bytes::same_bytes;
use crate::text::Text;
#[allow(unused_imports)]
use crate::text::{truncated, truncated_all};
use crate::utf8::decode;
#[allow(unused_imports)]
use crate::utf8::lemma_ascii_split;

verus! {

/// End of a line.
pub const CRLF: [u8; 2] = [13, 10];

/// End of the header block.
pub const HEADER_END: [u8; 4] = [13, 10, 13, 10];

/// What stands between the words of the request line.
pub const SPACE: [u8; 1] = [32];

/// What stands between the pairs of a form.
pub const AMPERSAND: [u8; 1] = [38];

/// What stands between the key and the value of a pair.
pub const EQUALS: [u8; 1] = [61];

// ---- searching and splitting ----

/// Whether `needle` stands in `haystack` from index `i` on.
pub open spec fn occurs_at(haystack: Seq<u8>, needle: Seq<u8>, i: int) -> bool {
    0 <= i && i + needle.len() <= haystack.len() && haystack.subrange(i, i + needle.len())
        == needle
}

/// Whether `i` is the first index at which `needle` occurs.
pub open spec fn first_at(haystack: Seq<u8>, needle: Seq<u8>, i: int) -> bool {
    occurs_at(haystack, needle, i) && forall|j: int| 0 <= j < i ==> !occurs_at(haystack, needle, j)
}

/// The first index at which `needle` occurs. An empty needle is never found.
pub open spec fn first_occurrence(haystack: Seq<u8>, needle: Seq<u8>) -> Option<int> {
    if needle.len() > 0 && exists|i: int| first_at(haystack, needle, i) {
        Some(choose|i: int| first_at(haystack, needle, i))
    } else {
        None
    }
}

/// There is only one first occurrence.
pub proof fn lemma_first_occurrence(haystack: Seq<u8>, needle: Seq<u8>, i: int)
    requires
        needle.len() > 0,
        first_at(haystack, needle, i),
    ensures
        first_occurrence(haystack, needle) == Some(i),
{
    let k = choose|k: int| first_at(haystack, needle, k);
    assert(first_at(haystack, needle, k));
    assert(occurs_at(haystack, needle, i) && occurs_at(haystack, needle, k));
}

/// Find the first index of `needle` in `haystack`.
pub fn find_subslice(haystack: &[u8], needle: &[u8]) -> (found: Option<usize>)
    ensures
        match found {
            Some(i) => first_occurrence(haystack@, needle@) == Some(i as int),
            None => first_occurrence(haystack@, needle@) is None,
        },
{
    if needle.len() == 0 || haystack.len() < needle.len() {
        return None;
    }
    let total: usize = haystack.len();
    let last: usize = total - needle.len();
    let mut i: usize = 0;
    while i <= last
        invariant
            total == haystack@.len(),
            i <= last + 1,
            last == haystack@.len() - needle@.len(),
            0 < needle@.len() <= haystack@.len(),
            forall|j: int| 0 <= j < i ==> !occurs_at(haystack@, needle@, j),
        decreases last + 1 - i,
    {
        if same_bytes(&haystack[i..i + needle.len()], needle) {
            proof {
                lemma_first_occurrence(haystack@, needle@, i as int);
            }
            return Some(i);
        }
        i += 1;
    }
    None
}

/// The part of `s` before the first `sep`; all of it where there is none.
pub open spec fn before(s: Seq<u8>, sep: Seq<u8>) -> Seq<u8> {
    match first_occurrence(s, sep) {
        Some(i) => s.subrange(0, i),
        None => s,
    }
}

/// The part of `s` behind the first `sep`, if there is one.
pub open spec fn after(s: Seq<u8>, sep: Seq<u8>) -> Option<Seq<u8>> {
    match first_occurrence(s, sep) {
        Some(i) => Some(s.skip(i + sep.len())),
        None => None,
    }
}

/// Where the first occurrence lies.
pub proof fn lemma_occurrence_bounds(s: Seq<u8>, sep: Seq<u8>)
    ensures
        first_occurrence(s, sep) matches Some(i) ==> first_at(s, sep, i) && sep.len() > 0,
{
}

/// Split `s` at the first `sep`.
fn split_at_first<'a>(s: &'a [u8], sep: &[u8]) -> (parts: (&'a [u8], Option<&'a [u8]>))
    ensures
        parts.0@ == before(s@, sep@),
        match parts.1 {
            Some(rest) => after(s@, sep@) == Some(rest@) && rest@.len() < s@.len(),
            None => after(s@, sep@) is None,
        },
{
    let total: usize = s.len();
    match find_subslice(s, sep) {
        Some(i) => {
            proof {
                lemma_occurrence_bounds(s@, sep@);
                assert(s@.subrange(i + sep@.len(), s@.len() as int) =~= s@.skip(i + sep@.len()));
            }
            (&s[0..i], Some(&s[i + sep.len()..total]))
        },
        None => (s, None),
    }
}

/// Splitting valid UTF-8 at an ASCII separator gives valid UTF-8 on both sides.
proof fn lemma_split_valid(s: Seq<u8>, sep: Seq<u8>)
    requires
        valid_utf8(s),
        0 < sep.len() <= 2,
        forall|i: int| 0 <= i < sep.len() ==> #[trigger] sep[i] < 0x80,
    ensures
        valid_utf8(before(s, sep)),
        after(s, sep) matches Some(rest) ==> valid_utf8(rest),
{
    if let Some(i) = first_occurrence(s, sep) {
        lemma_occurrence_bounds(s, sep);
        assert(s[i] == s.subrange(i, i + sep.len())[0]);
        lemma_ascii_split(s, i);
        if sep.len() == 2 {
            let tail = s.skip(i + 1);
            assert(s[i + 1] == s.subrange(i, i + sep.len())[1]);
            assert(tail[0] == s[i + 1]);
            lemma_ascii_split(tail, 0);
            assert(tail.skip(1) =~= s.skip(i + 2));
        }
    }
}

// ---- request line ----

/// The method and the path of a request: the first two words of its first line,
/// where that line is valid UTF-8 and has a space.
pub open spec fn request_line(req: Seq<u8>) -> Option<(Seq<char>, Seq<char>)> {
    let line = before(req, CRLF@);
    match after(line, SPACE@) {
        Some(rest) if valid_utf8(line) => Some(
            (decode_utf8(before(line, SPACE@)), decode_utf8(before(rest, SPACE@))),
        ),
        _ => None,
    }
}

/// Parse the request line, returning (method, path).
pub fn parse_request_line(req: &[u8]) -> (parsed: Option<(&str, &str)>)
    ensures
        match parsed {
            Some((method, path)) => request_line(req@) == Some((method@, path@)),
            None => request_line(req@) is None,
        },
{
    let (line, _) = split_at_first(req, CRLF.as_slice());
    if decode(line).is_none() {
        return None;
    }
    let (first, rest) = split_at_first(line, SPACE.as_slice());
    proof {
        lemma_split_valid(line@, SPACE@);
    }
    match rest {
        Some(rest) => {
            let (second, _) = split_at_first(rest, SPACE.as_slice());
            proof {
                lemma_split_valid(rest@, SPACE@);
            }
            match (decode(first), decode(second)) {
                (Some(method), Some(path)) => Some((method, path)),
                _ => None,
            }
        },
        None => None,
    }
}

// ---- Content-Length ----

/// Whether `c` has the Unicode property White_Space.
pub open spec fn is_whitespace(c: char) -> bool {
    ||| '\u{9}' <= c <= '\u{d}'
    ||| c == '\u{20}'
    ||| c == '\u{85}'
    ||| c == '\u{a0}'
    ||| c == '\u{1680}'
    ||| '\u{2000}' <= c <= '\u{200a}'
    ||| c == '\u{2028}'
    ||| c == '\u{2029}'
    ||| c == '\u{202f}'
    ||| c == '\u{205f}'
    ||| c == '\u{3000}'
}

/// `t` without the whitespace at its start.
pub open spec fn trimmed_start(t: Seq<char>) -> Seq<char>
    decreases t.len(),
{
    if t.len() > 0 && is_whitespace(t[0]) {
        trimmed_start(t.drop_first())
    } else {
        t
    }
}

/// `t` without the whitespace at its end.
pub open spec fn trimmed_end(t: Seq<char>) -> Seq<char>
    decreases t.len(),
{
    if t.len() > 0 && is_whitespace(t.last()) {
        trimmed_end(t.drop_last())
    } else {
        t
    }
}

/// Whether `c` is one of the ten ASCII digits.
pub open spec fn is_digit(c: char) -> bool {
    '0' <= c <= '9'
}

/// The number that the decimal digits of `t` stand for.
pub open spec fn decimal_value(t: Seq<char>) -> nat
    decreases t.len(),
{
    if t.len() == 0 {
        0
    } else {
        decimal_value(t.drop_last()) * 10 + (t.last() as u32 - '0' as u32) as nat
    }
}

/// Whether `t` consists of digits, and of at least one.
pub open spec fn all_digits(t: Seq<char>) -> bool {
    t.len() > 0 && forall|i: int| 0 <= i < t.len() ==> is_digit(#[trigger] t[i])
}

/// `t` without a `+` at its start.
pub open spec fn without_plus(t: Seq<char>) -> Seq<char> {
    if t.len() > 0 && t[0] == '+' {
        t.drop_first()
    } else {
        t
    }
}

/// The number that `t` spells: one or more digits, with a `+` before them or not.
pub open spec fn number(t: Seq<char>) -> Option<nat> {
    if all_digits(without_plus(t)) {
        Some(decimal_value(without_plus(t)))
    } else {
        None
    }
}

/// Whether a line announces the length of the body.
pub open spec fn announces_length(line: Seq<u8>) -> bool {
    ||| encode_utf8("Content-Length:"@).is_prefix_of(line)
    ||| encode_utf8("content-length:"@).is_prefix_of(line)
}

/// The number of the first line that announces the length of the body.
pub open spec fn announced_length(headers: Seq<u8>) -> Option<nat>
    decreases headers.len(),
{
    let line = before(headers, CRLF@);
    if announces_length(line) {
        number(trimmed_end(trimmed_start(decode_utf8(line.skip(15)))))
    } else {
        match after(headers, CRLF@) {
            Some(rest) => {
                proof {
                    lemma_occurrence_bounds(headers, CRLF@);
                }
                announced_length(rest)
            },
            None => None,
        }
    }
}

/// The length of the body that a header block announces: none where the block is
/// not valid UTF-8, where no line announces it, or where the first line that does
/// gives no number that a `usize` holds.
pub open spec fn content_length_of(headers: Seq<u8>) -> Option<usize> {
    if valid_utf8(headers) {
        match announced_length(headers) {
            Some(n) if n <= usize::MAX => Some(n as usize),
            _ => None,
        }
    } else {
        None
    }
}

/// Whether `c` is whitespace.
fn white_space(c: char) -> (yes: bool)
    ensures
        yes == is_whitespace(c),
{
    ('\u{9}' <= c && c <= '\u{d}') || c == '\u{20}' || c == '\u{85}' || c == '\u{a0}' || c
        == '\u{1680}' || ('\u{2000}' <= c && c <= '\u{200a}') || c == '\u{2028}' || c == '\u{2029}'
        || c == '\u{202f}' || c == '\u{205f}' || c == '\u{3000}'
}

/// A number only grows when digits are added behind it.
proof fn lemma_decimal_grows(t: Seq<char>, k: int)
    requires
        0 <= k <= t.len(),
        forall|i: int| 0 <= i < t.len() ==> is_digit(#[trigger] t[i]),
    ensures
        decimal_value(t.subrange(0, k)) <= decimal_value(t),
    decreases t.len(),
{
    if k == t.len() {
        assert(t.subrange(0, k) =~= t);
    } else {
        lemma_decimal_grows(t.drop_last(), k);
        assert(t.drop_last().subrange(0, k) =~= t.subrange(0, k));
    }
}

/// Parse the value of a header as a number.
fn parse_number(value: &str) -> (parsed: Option<usize>)
    ensures
        match (parsed, number(trimmed_end(trimmed_start(value@)))) {
            (Some(v), Some(n)) => v == n,
            (None, Some(n)) => n > usize::MAX,
            (Some(_), None) => false,
            (None, None) => true,
        },
{
    let ghost t = value@;
    let n: usize = value.unicode_len();
    let mut lo: usize = 0;
    assert(t.skip(0) =~= t);
    while lo < n && white_space(value.get_char(lo))
        invariant
            lo <= n,
            n == t.len(),
            t == value@,
            trimmed_start(t) == trimmed_start(t.skip(lo as int)),
        decreases n - lo,
    {
        assert(t.skip(lo as int).drop_first() =~= t.skip(lo + 1));
        lo += 1;
    }
    assert(trimmed_start(t) == t.skip(lo as int));
    let mut hi: usize = n;
    assert(t.subrange(lo as int, n as int) =~= t.skip(lo as int));
    while lo < hi && white_space(value.get_char(hi - 1))
        invariant
            lo <= hi <= n,
            n == t.len(),
            t == value@,
            trimmed_end(t.skip(lo as int)) == trimmed_end(t.subrange(lo as int, hi as int)),
        decreases hi,
    {
        assert(t.subrange(lo as int, hi as int).drop_last() =~= t.subrange(lo as int, hi - 1));
        hi -= 1;
    }
    let ghost core = t.subrange(lo as int, hi as int);
    assert(trimmed_end(trimmed_start(t)) == core);
    let start: usize = if lo < hi && value.get_char(lo) == '+' {
        lo + 1
    } else {
        lo
    };
    let ghost digits = t.subrange(start as int, hi as int);
    assert(digits =~= without_plus(core));
    if start == hi {
        return None;
    }
    let mut v: usize = 0;
    let mut k: usize = start;
    while k < hi
        invariant
            start <= k <= hi <= n,
            n == t.len(),
            t == value@,
            digits == t.subrange(start as int, hi as int),
            forall|i: int| 0 <= i < k - start ==> is_digit(#[trigger] digits[i]),
            v == decimal_value(digits.subrange(0, k - start)),
            start < hi,
            core == trimmed_end(trimmed_start(t)),
            digits == without_plus(core),
        decreases hi - k,
    {
        let c: char = value.get_char(k);
        let ghost i = k - start;
        assert(digits[i] == c);
        if c < '0' || c > '9' {
            return None;
        }
        let digit: usize = (c as u32 - '0' as u32) as usize;
        assert(digits.subrange(0, i + 1).drop_last() =~= digits.subrange(0, i));
        assert(decimal_value(digits.subrange(0, i + 1)) == v * 10 + digit);
        proof {
            if all_digits(digits) {
                lemma_decimal_grows(digits, i + 1);
            }
        }
        if v > (usize::MAX - digit) / 10 {
            return None;
        }
        v = v * 10 + digit;
        k += 1;
    }
    assert(digits.subrange(0, hi - start) =~= digits);
    Some(v)
}

/// Extract Content-Length from a header block, if present.
pub fn content_length(headers: &[u8]) -> (len: Option<usize>)
    ensures
        len == content_length_of(headers@),
{
    if decode(headers).is_none() {
        return None;
    }
    let mut rest: &[u8] = headers;
    loop
        invariant
            valid_utf8(headers@),
            valid_utf8(rest@),
            announced_length(headers@) == announced_length(rest@),
        decreases rest@.len(),
    {
        let (line, next) = split_at_first(rest, CRLF.as_slice());
        proof {
            lemma_split_valid(rest@, CRLF@);
        }
        if starts_with(line, "Content-Length:".as_bytes()) || starts_with(
            line,
            "content-length:".as_bytes(),
        ) {
            let total: usize = line.len();
            proof {
                lemma_prefix_is_15();
                lemma_ascii_split(line@, 14);
            }
            assert(line@.subrange(15, total as int) =~= line@.skip(15));
            return match decode(&line[15..total]) {
                Some(value) => parse_number(value),
                None => None,
            };
        }
        match next {
            Some(next) => {
                rest = next;
            },
            None => {
                return None;
            },
        }
    }
}

/// How a line starts that announces the length of the body.
proof fn lemma_prefix_is_15()
    ensures
        encode_utf8("Content-Length:"@).len() == 15,
        encode_utf8("Content-Length:"@)[14] < 0x80,
        encode_utf8("content-length:"@).len() == 15,
        encode_utf8("content-length:"@)[14] < 0x80,
{
    reveal_strlit("Content-Length:");
    reveal_strlit("content-length:");
    is_ascii_chars_encode_utf8("Content-Length:"@);
    is_ascii_chars_encode_utf8("content-length:"@);
}

/// Whether `s` starts with `prefix`.
pub fn starts_with(s: &[u8], prefix: &[u8]) -> (yes: bool)
    ensures
        yes == prefix@.is_prefix_of(s@),
{
    s.len() >= prefix.len() && same_bytes(&s[0..prefix.len()], prefix)
}

// ---- form decoding ----

/// The value of a hexadecimal digit.
pub open spec fn hex_digit(c: u8) -> Option<u8> {
    if 48 <= c <= 57 {
        Some((c - 48) as u8)
    } else if 97 <= c <= 102 {
        Some((c - 87) as u8)
    } else if 65 <= c <= 70 {
        Some((c - 55) as u8)
    } else {
        None
    }
}

/// The value of a hexadecimal digit, if `c` is one.
pub fn hex_val(c: u8) -> (value: Option<u8>)
    ensures
        value == hex_digit(c),
{
    if 48 <= c && c <= 57 {
        Some(c - 48)
    } else if 97 <= c && c <= 102 {
        Some(c - 87)
    } else if 65 <= c && c <= 70 {
        Some(c - 55)
    } else {
        None
    }
}

/// Whether `s` starts with a percent sign and two hexadecimal digits.
pub open spec fn starts_escape(s: Seq<u8>) -> bool {
    s.len() >= 3 && s[0] == 37 && hex_digit(s[1]) is Some && hex_digit(s[2]) is Some
}

/// The bytes that URL-encoded bytes stand for: `%XX` for the byte with that value, `+`
/// for a space, and every other byte for itself.
pub open spec fn url_bytes(s: Seq<u8>) -> Seq<u8>
    decreases s.len(),
{
    if s.len() == 0 {
        seq![]
    } else if starts_escape(s) {
        seq![(hex_digit(s[1])->0 * 16 + hex_digit(s[2])->0) as u8] + url_bytes(s.skip(3))
    } else if s[0] == 43 {
        seq![32u8] + url_bytes(s.skip(1))
    } else {
        seq![s[0]] + url_bytes(s.skip(1))
    }
}

/// The characters with the codes of `bytes`.
pub open spec fn byte_chars(bytes: Seq<u8>) -> Seq<char> {
    Seq::new(bytes.len(), |i: int| bytes[i] as char)
}

/// The text that URL-encoded bytes stand for: their bytes read as UTF-8, or, where they
/// are not valid UTF-8, one character for each of them.
pub open spec fn url_decoded(s: Seq<u8>) -> Seq<char> {
    if valid_utf8(url_bytes(s)) {
        decode_utf8(url_bytes(s))
    } else {
        byte_chars(url_bytes(s))
    }
}

/// The bytes that URL-encoded bytes stand for.
fn percent_decode(s: &[u8]) -> (bytes: Vec<u8>)
    ensures
        bytes@ == url_bytes(s@),
{
    let mut bytes: Vec<u8> = Vec::new();
    let total: usize = s.len();
    let mut i: usize = 0;
    assert(s@.skip(0) =~= s@);
    assert(bytes@ + url_bytes(s@) =~= url_bytes(s@));
    while i < total
        invariant
            i <= total,
            total == s@.len(),
            url_bytes(s@) == bytes@ + url_bytes(s@.skip(i as int)),
        decreases total - i,
    {
        let ghost rest = s@.skip(i as int);
        let ghost done = bytes@;
        let c: u8 = s[i];
        if c == 37 && total - i > 2 {
            if let (Some(h), Some(l)) = (hex_val(s[i + 1]), hex_val(s[i + 2])) {
                bytes.push(h * 16 + l);
                assert(rest.skip(3) =~= s@.skip(i + 3));
                assert(done + url_bytes(rest) =~= bytes@ + url_bytes(s@.skip(i + 3)));
                i += 3;
                continue;
            }
        }
        bytes.push(
            if c == 43 {
                32
            } else {
                c
            },
        );
        assert(rest.skip(1) =~= s@.skip(i + 1));
        assert(done + url_bytes(rest) =~= bytes@ + url_bytes(s@.skip(i + 1)));
        i += 1;
    }
    assert(url_bytes(s@.skip(i as int)) =~= seq![]);
    assert(bytes@ + url_bytes(s@.skip(i as int)) =~= bytes@);
    bytes
}

/// The text that URL-encoded bytes stand for.
fn url_decode(s: &[u8]) -> (chars: Vec<char>)
    ensures
        chars@ == url_decoded(s@),
{
    let bytes: Vec<u8> = percent_decode(s);
    let mut chars: Vec<char> = Vec::new();
    let mut i: usize = 0;
    match decode(bytes.as_slice()) {
        Some(text) => {
            let n: usize = text.unicode_len();
            while i < n
                invariant
                    i <= n,
                    n == text@.len(),
                    chars@ =~= text@.take(i as int),
                decreases n - i,
            {
                chars.push(text.get_char(i));
                i += 1;
            }
            assert(text@.take(n as int) =~= text@);
        },
        None => {
            while i < bytes.len()
                invariant
                    i <= bytes@.len(),
                    chars@ =~= byte_chars(bytes@).take(i as int),
                decreases bytes@.len() - i,
            {
                chars.push(bytes[i] as char);
                i += 1;
            }
            assert(byte_chars(bytes@).take(i as int) =~= byte_chars(bytes@));
        },
    }
    chars
}

/// URL-decode `s` onto the end of `out`, truncating where it does not fit.
pub fn url_decode_into(s: &[u8], out: &mut Text)
    ensures
        final(out)@ == truncated(old(out)@, old(out).capacity(), url_decoded(s@)),
        final(out).capacity() == old(out).capacity(),
{
    let chars: Vec<char> = url_decode(s);
    let ghost room = out.capacity();
    let ghost goal = truncated(out@, room, chars@);
    let mut i: usize = 0;
    assert(chars@.skip(0) =~= chars@);
    while i < chars.len()
        invariant
            i <= chars@.len(),
            chars@ == url_decoded(s@),
            out.capacity() == room == old(out).capacity(),
            goal == truncated(old(out)@, room, chars@),
            goal == truncated(out@, room, chars@.skip(i as int)),
        decreases chars@.len() - i,
    {
        assert(chars@.skip(i as int).drop_first() =~= chars@.skip(i + 1));
        if !out.push(chars[i]) {
            return ;
        }
        i += 1;
    }
}

/// What one `key=value` pair says of the field `key`, as a list of at most one value.
pub open spec fn pair_values(pair: Seq<u8>, key: Seq<u8>) -> Seq<Seq<char>> {
    if before(pair, EQUALS@) == key {
        match after(pair, EQUALS@) {
            Some(value) => seq![url_decoded(value)],
            None => seq![],
        }
    } else {
        seq![]
    }
}

/// The values that the pairs of a form, separated by `&`, give the field `key`.
pub open spec fn field_values(form: Seq<u8>, key: Seq<u8>) -> Seq<Seq<char>>
    decreases form.len(),
{
    let own = pair_values(before(form, AMPERSAND@), key);
    match after(form, AMPERSAND@) {
        Some(rest) => {
            proof {
                lemma_occurrence_bounds(form, AMPERSAND@);
            }
            own + field_values(rest, key)
        },
        None => own,
    }
}

/// The values that a request body gives the field `key`: none where it is not UTF-8.
pub open spec fn form_values(body: Seq<u8>, key: Seq<u8>) -> Seq<Seq<char>> {
    if valid_utf8(body) {
        field_values(body, key)
    } else {
        seq![]
    }
}

/// Appending one value and then the rest appends them all.
proof fn lemma_values_on(t: Seq<char>, room: nat, own: Seq<Seq<char>>, rest: Seq<Seq<char>>)
    requires
        own.len() <= 1,
    ensures
        truncated_all(t, room, own + rest) == truncated_all(
            truncated_all(t, room, own),
            room,
            rest,
        ),
{
    reveal_with_fuel(truncated_all, 2);
    if own.len() == 0 {
        assert(own + rest =~= rest);
    } else {
        assert((own + rest).drop_first() =~= rest);
        assert(own.drop_first() =~= seq![]);
    }
}

/// Append the values of the field `key` of a URL-encoded form to `out`, truncating where
/// they do not fit.
pub fn parse_field(body: &[u8], key: &str, out: &mut Text)
    ensures
        final(out)@ == truncated_all(
            old(out)@,
            old(out).capacity(),
            form_values(body@, encode_utf8(key@)),
        ),
        final(out).capacity() == old(out).capacity(),
{
    if decode(body).is_none() {
        return ;
    }
    let ghost room = out.capacity();
    let ghost name = encode_utf8(key@);
    let ghost goal = truncated_all(out@, room, field_values(body@, name));
    let mut rest: &[u8] = body;
    loop
        invariant
            out.capacity() == room == old(out).capacity(),
            name == encode_utf8(key@),
            goal == truncated_all(old(out)@, room, form_values(body@, name)),
            goal == truncated_all(out@, room, field_values(rest@, name)),
        decreases rest@.len(),
    {
        let (pair, next) = split_at_first(rest, AMPERSAND.as_slice());
        let (found, value) = split_at_first(pair, EQUALS.as_slice());
        proof {
            let own = pair_values(pair@, name);
            reveal_with_fuel(truncated_all, 2);
            if let Some(next) = next {
                lemma_values_on(out@, room, own, field_values(next@, name));
            }
            if own.len() > 0 {
                assert(own.drop_first() =~= seq![]);
            }
        }
        if let Some(value) = value {
            if same_bytes(found, key.as_bytes()) {
                url_decode_into(value, out);
            }
        }
        match next {
            Some(next) => {
                rest = next;
            },
            None => {
                return ;
            },
        }
    }
}

/// Parse a URL-encoded form with the fields `ssid` and `password`, appending their
/// values to the two texts and truncating them where they do not fit.
pub fn parse_form(body: &[u8], ssid: &mut Text, password: &mut Text)
    ensures
        final(ssid)@ == truncated_all(
            old(ssid)@,
            old(ssid).capacity(),
            form_values(body@, encode_utf8("ssid"@)),
        ),
        final(ssid).capacity() == old(ssid).capacity(),
        final(password)@ == truncated_all(
            old(password)@,
            old(password).capacity(),
            form_values(body@, encode_utf8("password"@)),
        ),
        final(password).capacity() == old(password).capacity(),
{
    parse_field(body, "ssid", ssid);
    parse_field(body, "password", password);
}

// ---- reading a request ----

/// Whether `received` holds a whole request: the header block, and for a POST with
/// an announced length the body too.
pub open spec fn complete(received: Seq<u8>) -> bool {
    match first_occurrence(received, HEADER_END@) {
        Some(end) => encode_utf8("POST"@).is_prefix_of(received) ==> match content_length_of(
            received.subrange(0, end),
        ) {
            Some(len) => received.len() - (end + 4) >= len,
            None => true,
        },
        None => false,
    }
}

/// Whether `received` holds a whole request.
pub fn is_complete(received: &[u8]) -> (whole: bool)
    ensures
        whole == complete(received@),
{
    match find_subslice(received, HEADER_END.as_slice()) {
        Some(end) => {
            proof {
                lemma_occurrence_bounds(received@, HEADER_END@);
            }
            if starts_with(received, "POST".as_bytes()) {
                match content_length(&received[0..end]) {
                    Some(len) => received.len() - (end + 4) >= len,
                    None => true,
                }
            } else {
                true
            }
        },
        None => false,
    }
}

/// What to do after a read from the connection.
#[derive(Clone, Copy, Debug, PartialEq, Eq, Structural)]
pub enum ReadStep {
    /// Read on; so many bytes are there.
    More(usize),
    /// The request consists of so many bytes.
    Done(usize),
    /// There is no request; close the connection.
    Abandon,
}

/// What follows a read into `buf` behind its first `total` bytes. A read of zero
/// bytes means that the peer closed, `None` that the read failed.
pub open spec fn next_step(buf: Seq<u8>, total: int, read: Option<usize>) -> ReadStep {
    match read {
        None => ReadStep::Abandon,
        Some(n) => if n == 0 {
            if total == 0 {
                ReadStep::Abandon
            } else {
                ReadStep::Done(total as usize)
            }
        } else if total + n == buf.len() || complete(buf.subrange(0, total + n)) {
            ReadStep::Done((total + n) as usize)
        } else {
            ReadStep::More((total + n) as usize)
        },
    }
}

/// Decide what follows a read into `buf` behind its first `total` bytes: the request
/// is done when it is whole, when the buffer is full or when the peer closed.
pub fn after_read(buf: &[u8], total: usize, read: Option<usize>) -> (step: ReadStep)
    requires
        total <= buf@.len(),
        read matches Some(n) ==> total + n <= buf@.len(),
    ensures
        step == next_step(buf@, total as int, read),
        step matches ReadStep::More(n) ==> total < n < buf@.len(),
        step matches ReadStep::Done(n) ==> 0 < n <= buf@.len(),
{
    let room: usize = buf.len();
    match read {
        None => ReadStep::Abandon,
        Some(n) => {
            if n == 0 {
                if total == 0 {
                    ReadStep::Abandon
                } else {
                    ReadStep::Done(total)
                }
            } else {
                let have: usize = total + n;
                if have == room || is_complete(&buf[0..have]) {
                    ReadStep::Done(have)
                } else {
                    ReadStep::More(have)
                }
            }
        },
    }
}

// ---- laws ----

/// The byte `sep` first occurs at `i` if it stands there and nowhere before.
proof fn lemma_first_byte(s: Seq<u8>, sep: Seq<u8>, i: int)
    requires
        sep.len() == 1,
        0 <= i < s.len(),
        s[i] == sep[0],
        forall|j: int| 0 <= j < i ==> #[trigger] s[j] != sep[0],
    ensures
        first_occurrence(s, sep) == Some(i),
{
    assert(s.subrange(i, i + 1) =~= sep);
    assert forall|j: int| 0 <= j < i implies !occurs_at(s, sep, j) by {
        assert(s.subrange(j, j + 1)[0] == s[j]);
    }
    lemma_first_occurrence(s, sep, i);
}

/// The byte `sep` does not occur if it stands nowhere.
proof fn lemma_no_byte(s: Seq<u8>, sep: Seq<u8>)
    requires
        sep.len() == 1,
        forall|j: int| 0 <= j < s.len() ==> #[trigger] s[j] != sep[0],
    ensures
        first_occurrence(s, sep) is None,
{
    assert forall|j: int| !first_at(s, sep, j) by {
        if occurs_at(s, sep, j) {
            assert(s.subrange(j, j + 1)[0] == s[j]);
        }
    }
}

/// Whether a byte stands for itself in URL encoding.
pub open spec fn is_plain(b: u8) -> bool {
    b < 0x80 && b != 37 && b != 38 && b != 43 && b != 61
}

/// Whether `e` is a URL encoding of `bytes`: every byte as `%XX` with its value, a space
/// also as `+`, and a plain ASCII character also as itself.
pub open spec fn encodes_bytes(e: Seq<u8>, bytes: Seq<u8>) -> bool
    decreases bytes.len(),
{
    if bytes.len() == 0 {
        e.len() == 0
    } else {
        let rest = bytes.drop_first();
        ||| e.len() >= 3 && e[0] == 37 && is_hex(e[1], bytes[0] as int / 16) && is_hex(
            e[2],
            bytes[0] as int % 16,
        ) && encodes_bytes(e.skip(3), rest)
        ||| e.len() > 0 && e[0] == 43 && bytes[0] == 32 && encodes_bytes(e.skip(1), rest)
        ||| e.len() > 0 && is_plain(e[0]) && e[0] == bytes[0] && encodes_bytes(e.skip(1), rest)
    }
}

/// Whether `e` is a URL encoding of `t`, that is of its bytes in UTF-8.
pub open spec fn url_encodes(e: Seq<u8>, t: Seq<char>) -> bool {
    encodes_bytes(e, encode_utf8(t))
}

/// Decoding undoes URL encoding, and an encoding holds neither `&` nor `=` nor a byte
/// beyond ASCII.
pub proof fn law_url_round_trip(e: Seq<u8>, t: Seq<char>)
    requires
        url_encodes(e, t),
    ensures
        url_decoded(e) == t,
        forall|i: int| 0 <= i < e.len() ==> #[trigger] e[i] < 0x80 && e[i] != 38 && e[i] != 61,
{
    lemma_bytes_round_trip(e, encode_utf8(t));
    encode_utf8_valid_utf8(t);
    encode_utf8_decode_utf8(t);
}

/// Decoding undoes the URL encoding of bytes.
proof fn lemma_bytes_round_trip(e: Seq<u8>, bytes: Seq<u8>)
    requires
        encodes_bytes(e, bytes),
    ensures
        url_bytes(e) == bytes,
        forall|i: int| 0 <= i < e.len() ==> #[trigger] e[i] < 0x80 && e[i] != 38 && e[i] != 61,
    decreases bytes.len(),
{
    if bytes.len() > 0 {
        let rest = bytes.drop_first();
        let used: int = if starts_escape(e) {
            3
        } else {
            1
        };
        assert(0 <= bytes[0] as int / 16 < 16 && 0 <= bytes[0] as int % 16 < 16);
        lemma_bytes_round_trip(e.skip(used), rest);
        assert(seq![bytes[0]] + rest =~= bytes);
        assert forall|i: int| 0 <= i < e.len() implies #[trigger] e[i] < 0x80 && e[i] != 38
            && e[i] != 61 by {
            if i >= used {
                assert(e[i] == e.skip(used)[i - used]);
            }
        }
    }
}

/// ASCII bytes are valid UTF-8.
proof fn lemma_ascii_valid(bytes: Seq<u8>)
    requires
        forall|i: int| 0 <= i < bytes.len() ==> #[trigger] bytes[i] < 0x80,
    ensures
        valid_utf8(bytes),
{
    let t = byte_chars(bytes);
    assert(is_ascii_chars(t));
    is_ascii_chars_encode_utf8(t);
    assert(encode_utf8(t) =~= bytes);
    encode_utf8_valid_utf8(t);
}

/// A form with one field.
pub open spec fn one_field(key: Seq<char>, value: Seq<u8>) -> Seq<u8> {
    encode_utf8(key) + EQUALS@ + value
}

/// The connect form, with both values in URL encoding.
pub open spec fn connect_form(ssid: Seq<u8>, password: Seq<u8>) -> Seq<u8> {
    one_field("ssid"@, ssid) + AMPERSAND@ + one_field("password"@, password)
}

/// The bytes of the keys.
proof fn lemma_keys()
    ensures
        encode_utf8("ssid"@) =~= seq![115u8, 115, 105, 100],
        encode_utf8("password"@) =~= seq![112u8, 97, 115, 115, 119, 111, 114, 100],
        encode_utf8("msg"@) =~= seq![109u8, 115, 103],
{
    reveal_strlit("ssid");
    reveal_strlit("password");
    reveal_strlit("msg");
    is_ascii_chars_encode_utf8("ssid"@);
    is_ascii_chars_encode_utf8("password"@);
    is_ascii_chars_encode_utf8("msg"@);
}

/// A pair `key=value` adds its value to the field of that name and to no other.
proof fn lemma_pair(key: Seq<u8>, value: Seq<u8>, name: Seq<u8>)
    requires
        forall|i: int| 0 <= i < key.len() ==> #[trigger] key[i] != 61,
    ensures
        pair_values(key + EQUALS@ + value, name) == (if key == name {
            seq![url_decoded(value)]
        } else {
            seq![]
        }),
{
    let pair = key + EQUALS@ + value;
    lemma_first_byte(pair, EQUALS@, key.len() as int);
    assert(pair.subrange(0, key.len() as int) =~= key);
    assert(pair.skip(key.len() as int + 1) =~= value);
}

/// The connect form gives back exactly the SSID and the password that were encoded in it.
pub proof fn law_form_round_trip(
    e_ssid: Seq<u8>,
    e_password: Seq<u8>,
    ssid: Seq<char>,
    password: Seq<char>,
)
    requires
        url_encodes(e_ssid, ssid),
        url_encodes(e_password, password),
    ensures
        form_values(connect_form(e_ssid, e_password), encode_utf8("ssid"@)) == seq![ssid],
        form_values(connect_form(e_ssid, e_password), encode_utf8("password"@)) == seq![password],
{
    let form = connect_form(e_ssid, e_password);
    let key_s = encode_utf8("ssid"@);
    let key_p = encode_utf8("password"@);
    let first = one_field("ssid"@, e_ssid);
    let second = one_field("password"@, e_password);
    lemma_keys();
    law_url_round_trip(e_ssid, ssid);
    law_url_round_trip(e_password, password);
    lemma_ascii_valid(form);
    lemma_first_byte(form, AMPERSAND@, first.len() as int);
    assert(form.subrange(0, first.len() as int) =~= first);
    assert(form.skip(first.len() as int + 1) =~= second);
    lemma_no_byte(second, AMPERSAND@);
    assert(key_s.len() != key_p.len());
    lemma_pair(key_s, e_ssid, key_s);
    lemma_pair(key_p, e_password, key_s);
    lemma_pair(key_s, e_ssid, key_p);
    lemma_pair(key_p, e_password, key_p);
    assert(field_values(second, key_s) == pair_values(second, key_s));
    assert(field_values(second, key_p) == pair_values(second, key_p));
    assert(field_values(form, key_s) =~= seq![ssid]);
    assert(field_values(form, key_p) =~= seq![password]);
}

/// The blink form gives back exactly the message that was encoded in it.
pub proof fn law_message_round_trip(e_msg: Seq<u8>, msg: Seq<char>)
    requires
        url_encodes(e_msg, msg),
    ensures
        form_values(one_field("msg"@, e_msg), encode_utf8("msg"@)) == seq![msg],
{
    lemma_keys();
    law_url_round_trip(e_msg, msg);
    lemma_ascii_valid(one_field("msg"@, e_msg));
    lemma_no_byte(one_field("msg"@, e_msg), AMPERSAND@);
    lemma_pair(encode_utf8("msg"@), e_msg, encode_utf8("msg"@));
}

/// A request that is whole stays whole when more bytes follow.
pub proof fn law_whole_stays_whole(received: Seq<u8>, more: Seq<u8>)
    requires
        complete(received),
    ensures
        complete(received + more),
{
    let longer = received + more;
    lemma_occurrence_bounds(received, HEADER_END@);
    let end = first_occurrence(received, HEADER_END@)->0;
    assert(longer.subrange(end, end + 4) =~= received.subrange(end, end + 4));
    assert forall|j: int| 0 <= j < end implies !occurs_at(longer, HEADER_END@, j) by {
        assert(longer.subrange(j, j + 4) =~= received.subrange(j, j + 4));
        assert(!occurs_at(received, HEADER_END@, j));
    }
    lemma_first_occurrence(longer, HEADER_END@, end);
    assert(longer.subrange(0, end) =~= received.subrange(0, end));
    reveal_strlit("POST");
    is_ascii_chars_encode_utf8("POST"@);
    let post = encode_utf8("POST"@);
    if post.is_prefix_of(longer) {
        assert(received.subrange(0, 4) =~= longer.subrange(0, 4));
        assert(post.is_prefix_of(received));
    }
}

/// However a request arrives in pieces, reading goes on while it is not whole and stops
/// at the first read that makes it so. `whole` is the length of the shortest front of
/// `buf` that is a whole request.
pub proof fn law_read_until_whole(buf: Seq<u8>, whole: int, total: int, read: usize)
    requires
        0 <= total < whole <= buf.len() <= usize::MAX,
        complete(buf.subrange(0, whole)),
        forall|k: int| 0 <= k < whole ==> !complete(#[trigger] buf.subrange(0, k)),
        0 < read,
        total + read <= buf.len(),
    ensures
        next_step(buf, total, Some(read)) == (if total + read < whole {
            ReadStep::More((total + read) as usize)
        } else {
            ReadStep::Done((total + read) as usize)
        }),
{
    let have = total + read;
    if have >= whole {
        law_whole_stays_whole(buf.subrange(0, whole), buf.subrange(whole, have));
        assert(buf.subrange(0, whole) + buf.subrange(whole, have) =~= buf.subrange(0, have));
    } else {
        assert(!complete(buf.subrange(0, have)));
    }
}

/// What reads of these sizes lead to, one after the other, behind the first `total`
/// bytes of `buf`.
pub open spec fn after_reads(buf: Seq<u8>, total: int, reads: Seq<usize>) -> ReadStep
    decreases reads.len(),
{
    if reads.len() == 0 {
        ReadStep::More(total as usize)
    } else {
        match next_step(buf, total, Some(reads[0])) {
            ReadStep::More(n) => after_reads(buf, n as int, reads.drop_first()),
            step => step,
        }
    }
}

/// How many bytes reads of these sizes give.
pub open spec fn total_read(reads: Seq<usize>) -> int
    decreases reads.len(),
{
    if reads.len() == 0 {
        0
    } else {
        reads[0] + total_read(reads.drop_first())
    }
}

/// A request is read whole and no further, into whatever pieces the network cuts it.
/// `whole` is its length: no shorter front of `buf` is a whole request.
pub proof fn law_pieces_do_not_matter(buf: Seq<u8>, whole: int, total: int, reads: Seq<usize>)
    requires
        0 <= total < whole <= buf.len() <= usize::MAX,
        complete(buf.subrange(0, whole)),
        forall|k: int| 0 <= k < whole ==> !complete(#[trigger] buf.subrange(0, k)),
        forall|i: int| 0 <= i < reads.len() ==> #[trigger] reads[i] > 0,
        total + total_read(reads) == whole,
    ensures
        after_reads(buf, total, reads) == ReadStep::Done(whole as usize),
    decreases reads.len(),
{
    let rest = reads.drop_first();
    lemma_total_read(rest);
    law_read_until_whole(buf, whole, total, reads[0]);
    if total + reads[0] < whole {
        assert forall|i: int| 0 <= i < rest.len() implies #[trigger] rest[i] > 0 by {
            assert(rest[i] == reads[i + 1]);
        }
        law_pieces_do_not_matter(buf, whole, total + reads[0], rest);
    }
}

/// No reads give less than nothing.
proof fn lemma_total_read(reads: Seq<usize>)
    ensures
        total_read(reads) >= 0,
    decreases reads.len(),
{
    if reads.len() > 0 {
        lemma_total_read(reads.drop_first());
    }
}

// ---- what a request means, byte by byte ----

/// Whether `needle` stands in `haystack` at `i`, byte for byte.
pub open spec fn stands_at(haystack: Seq<u8>, needle: Seq<u8>, i: int) -> bool {
    &&& 0 <= i <= haystack.len() - needle.len()
    &&& forall|k: int| 0 <= k < needle.len() ==> #[trigger] needle[k] == haystack[i + k]
}

/// A search finds the first place at which the needle stands, wherever that is, and finds
/// none only where it stands nowhere.
pub proof fn law_search_finds_the_first(haystack: Seq<u8>, needle: Seq<u8>, i: int)
    requires
        needle.len() > 0,
    ensures
        first_occurrence(haystack, needle) == Some(i) <==> stands_at(haystack, needle, i) && (
        forall|j: int| 0 <= j < i ==> !#[trigger] stands_at(haystack, needle, j)),
        first_occurrence(haystack, needle) is None ==> !stands_at(haystack, needle, i),
{
    assert forall|j: int| occurs_at(haystack, needle, j) == #[trigger] stands_at(
        haystack,
        needle,
        j,
    ) by {
        lemma_stands(haystack, needle, j);
    }
    lemma_occurrence_bounds(haystack, needle);
    if stands_at(haystack, needle, i) {
        let first = lemma_earliest(haystack, needle, i);
        lemma_first_occurrence(haystack, needle, first);
        assert(stands_at(haystack, needle, first));
    }
}

/// Where there is an occurrence there is a first one.
proof fn lemma_earliest(haystack: Seq<u8>, needle: Seq<u8>, i: int) -> (first: int)
    requires
        occurs_at(haystack, needle, i),
    ensures
        first_at(haystack, needle, first),
        0 <= first <= i,
    decreases i,
{
    if forall|j: int| 0 <= j < i ==> !occurs_at(haystack, needle, j) {
        i
    } else {
        let j = choose|j: int| 0 <= j < i && occurs_at(haystack, needle, j);
        lemma_earliest(haystack, needle, j)
    }
}

/// Byte for byte is the same as all at once.
proof fn lemma_stands(haystack: Seq<u8>, needle: Seq<u8>, i: int)
    ensures
        occurs_at(haystack, needle, i) == stands_at(haystack, needle, i),
{
    if occurs_at(haystack, needle, i) {
        assert forall|k: int| 0 <= k < needle.len() implies #[trigger] needle[k] == haystack[i
            + k] by {
            assert(haystack.subrange(i, i + needle.len())[k] == haystack[i + k]);
        }
    }
    if stands_at(haystack, needle, i) {
        assert(haystack.subrange(i, i + needle.len()) =~= needle);
    }
}

/// Whether `line` is one line: it holds no line end.
pub open spec fn is_line(line: Seq<u8>) -> bool {
    forall|j: int| 0 <= j < line.len() - 1 ==> !(#[trigger] line[j] == 13 && line[j + 1] == 10)
}

/// Lines with line ends between them.
pub open spec fn header_block(lines: Seq<Seq<u8>>) -> Seq<u8>
    decreases lines.len(),
{
    if lines.len() == 0 {
        seq![]
    } else if lines.len() == 1 {
        lines[0]
    } else {
        lines[0] + seq![13u8, 10] + header_block(lines.drop_first())
    }
}

/// A request: header lines, a blank line, and a body.
pub open spec fn http_message(lines: Seq<Seq<u8>>, body: Seq<u8>) -> Seq<u8> {
    header_block(lines) + seq![13u8, 10, 13, 10] + body
}

/// Whether each of these is one line, and there is one.
pub open spec fn all_lines(lines: Seq<Seq<u8>>) -> bool {
    lines.len() > 0 && forall|i: int| 0 <= i < lines.len() ==> is_line(#[trigger] lines[i])
}

/// Whether these can be the header lines of a request: none of them is blank.
pub open spec fn are_lines(lines: Seq<Seq<u8>>) -> bool {
    all_lines(lines) && forall|i: int| 0 <= i < lines.len() ==> (#[trigger] lines[i]).len() > 0
}

/// The first line end is the one behind the first line.
proof fn lemma_first_line_end(line: Seq<u8>, rest: Seq<u8>)
    requires
        is_line(line),
    ensures
        first_occurrence(line, CRLF@) is None,
        before(line + seq![13u8, 10] + rest, CRLF@) == line,
        after(line + seq![13u8, 10] + rest, CRLF@) == Some(rest),
{
    let whole = line + seq![13u8, 10] + rest;
    let n = line.len() as int;
    assert forall|j: int| !first_at(line, CRLF@, j) by {
        if occurs_at(line, CRLF@, j) {
            assert(line.subrange(j, j + 2)[0] == line[j] && line.subrange(j, j + 2)[1] == line[j
                + 1]);
        }
    }
    assert(whole.subrange(n, n + 2) =~= CRLF@);
    assert forall|j: int| 0 <= j < n implies !occurs_at(whole, CRLF@, j) by {
        assert(whole.subrange(j, j + 2)[0] == line[j]);
        assert(whole.subrange(j, j + 2)[1] == whole[j + 1]);
    }
    lemma_first_occurrence(whole, CRLF@, n);
    assert(whole.subrange(0, n) =~= line);
    assert(whole.skip(n + 2) =~= rest);
}

/// The lines behind the first.
proof fn lemma_other_lines(lines: Seq<Seq<u8>>)
    requires
        all_lines(lines),
        lines.len() > 1,
    ensures
        all_lines(lines.drop_first()),
        are_lines(lines) ==> are_lines(lines.drop_first()),
{
    let rest = lines.drop_first();
    assert forall|i: int| 0 <= i < rest.len() implies is_line(#[trigger] rest[i]) by {
        assert(rest[i] == lines[i + 1]);
    }
    if are_lines(lines) {
        assert forall|i: int| 0 <= i < rest.len() implies (#[trigger] rest[i]).len() > 0 by {
            assert(rest[i] == lines[i + 1]);
        }
    }
}

/// There is no blank line among the header lines.
proof fn lemma_no_blank_line(lines: Seq<Seq<u8>>, body: Seq<u8>, j: int)
    requires
        are_lines(lines),
        0 <= j < header_block(lines).len(),
    ensures
        !occurs_at(http_message(lines, body), HEADER_END@, j),
    decreases lines.len(),
{
    let whole = http_message(lines, body);
    let line = lines[0];
    let n = line.len() as int;
    assert(is_line(line));
    if occurs_at(whole, HEADER_END@, j) {
        let found = whole.subrange(j, j + 4);
        assert(found[0] == whole[j] && found[1] == whole[j + 1] && found[2] == whole[j + 2]
            && found[3] == whole[j + 3]);
        if j < n {
            assert(line[j] == 13);
            if j + 1 < n {
                assert(line[j + 1] == 10);
            } else {
                assert(whole[j + 1] == 13);
            }
        } else {
            let rest = lines.drop_first();
            let behind = http_message(rest, body);
            lemma_other_lines(lines);
            assert(whole =~= line + seq![13u8, 10] + behind);
            if j == n {
                assert(is_line(rest[0]) && rest[0].len() > 0);
                assert(behind[0] == rest[0][0]);
                if rest[0].len() > 1 {
                    assert(behind[1] == rest[0][1]);
                } else {
                    assert(behind[1] == 13);
                }
            } else if j >= n + 2 {
                lemma_no_blank_line(rest, body, j - n - 2);
                assert(behind.subrange(j - n - 2, j - n + 2) =~= found);
            }
        }
    }
}

/// The header block of a request ends at its first blank line.
pub proof fn lemma_header_end(lines: Seq<Seq<u8>>, body: Seq<u8>)
    requires
        are_lines(lines),
    ensures
        first_occurrence(http_message(lines, body), HEADER_END@) == Some(
            header_block(lines).len() as int,
        ),
        http_message(lines, body).subrange(0, header_block(lines).len() as int) == header_block(
            lines,
        ),
        after(http_message(lines, body), HEADER_END@) == Some(body),
{
    let whole = http_message(lines, body);
    let n = header_block(lines).len() as int;
    assert(whole.subrange(n, n + 4) =~= HEADER_END@);
    assert forall|j: int| 0 <= j < n implies !occurs_at(whole, HEADER_END@, j) by {
        lemma_no_blank_line(lines, body, j);
    }
    lemma_first_occurrence(whole, HEADER_END@, n);
    assert(whole.subrange(0, n) =~= header_block(lines));
    assert(whole.skip(n + 4) =~= body);
}

/// The method and the path of a request are the first two words of its first line,
/// whatever else stands in that line and behind it.
pub proof fn law_request_line_is_read(
    method: Seq<u8>,
    path: Seq<u8>,
    tail: Seq<u8>,
    rest: Seq<u8>,
)
    requires
        valid_utf8(method + seq![32u8] + path + tail),
        is_line(method + seq![32u8] + path + tail),
        forall|i: int| 0 <= i < method.len() ==> #[trigger] method[i] != 32,
        forall|i: int| 0 <= i < path.len() ==> #[trigger] path[i] != 32,
        tail.len() == 0 || tail[0] == 32,
    ensures
        request_line(method + seq![32u8] + path + tail + seq![13u8, 10] + rest) == Some(
            (decode_utf8(method), decode_utf8(path)),
        ),
        request_line(method + seq![32u8] + path + tail) == Some(
            (decode_utf8(method), decode_utf8(path)),
        ),
{
    let line = method + seq![32u8] + path + tail;
    lemma_first_line_end(line, rest);
    lemma_first_byte(line, SPACE@, method.len() as int);
    assert(line.subrange(0, method.len() as int) =~= method);
    let words = path + tail;
    assert(line.skip(method.len() as int + 1) =~= words);
    if tail.len() > 0 {
        lemma_first_byte(words, SPACE@, path.len() as int);
        assert(words.subrange(0, path.len() as int) =~= path);
    } else {
        assert(words =~= path);
        lemma_no_byte(words, SPACE@);
    }
}

/// A first line without a space, or one that is not UTF-8, gives no method and no path.
pub proof fn law_unreadable_line_gives_nothing(line: Seq<u8>, rest: Seq<u8>)
    requires
        is_line(line),
        !valid_utf8(line) || forall|i: int| 0 <= i < line.len() ==> #[trigger] line[i] != 32,
    ensures
        request_line(line + seq![13u8, 10] + rest) is None,
        request_line(line) is None,
{
    lemma_first_line_end(line, rest);
    if valid_utf8(line) {
        lemma_no_byte(line, SPACE@);
    }
}

/// Whether a header line gives the length of the body.
pub open spec fn gives_length(line: Seq<u8>) -> bool {
    line.len() >= 15 && (line.take(15) == encode_utf8("Content-Length:"@) || line.take(15)
        == encode_utf8("content-length:"@))
}

/// Both ways to tell such a line agree.
proof fn lemma_gives_length(line: Seq<u8>)
    ensures
        announces_length(line) == gives_length(line),
{
    lemma_prefix_is_15();
    let a = encode_utf8("Content-Length:"@);
    let b = encode_utf8("content-length:"@);
    if line.len() >= 15 {
        assert(line.take(15) =~= line.subrange(0, 15));
    }
}

/// What one line says of the length of the body.
spec fn said_length(line: Seq<u8>) -> Option<nat> {
    number(trimmed_end(trimmed_start(decode_utf8(line.skip(15)))))
}

/// The length in a block of one line.
proof fn lemma_announced_alone(line: Seq<u8>)
    requires
        is_line(line),
    ensures
        announced_length(line) == (if gives_length(line) {
            said_length(line)
        } else {
            None
        }),
{
    lemma_gives_length(line);
    lemma_first_line_end(line, seq![]);
}

/// The length in a block of more than one line.
proof fn lemma_announced_on(line: Seq<u8>, rest: Seq<u8>)
    requires
        is_line(line),
    ensures
        announced_length(line + seq![13u8, 10] + rest) == (if gives_length(line) {
            said_length(line)
        } else {
            announced_length(rest)
        }),
{
    lemma_gives_length(line);
    lemma_first_line_end(line, rest);
}

/// The length is that of the first line that gives one, wherever it stands.
proof fn lemma_announced(lines: Seq<Seq<u8>>, k: int)
    requires
        all_lines(lines),
        0 <= k <= lines.len(),
        forall|i: int| 0 <= i < k ==> !gives_length(#[trigger] lines[i]),
        k < lines.len() ==> gives_length(lines[k]),
    ensures
        announced_length(header_block(lines)) == (if k < lines.len() {
            said_length(lines[k])
        } else {
            None
        }),
    decreases lines.len(),
{
    let rest = lines.drop_first();
    assert(is_line(lines[0]));
    if lines.len() == 1 {
        lemma_announced_alone(lines[0]);
    } else {
        lemma_announced_on(lines[0], header_block(rest));
        lemma_other_lines(lines);
        if k > 0 {
            assert forall|i: int| 0 <= i < k - 1 implies !gives_length(#[trigger] rest[i]) by {
                assert(rest[i] == lines[i + 1]);
            }
            assert(k < lines.len() ==> rest[k - 1] == lines[k]);
            lemma_announced(rest, k - 1);
        }
    }
}

/// What a row of digits stands for: each counts ten times the one behind it.
pub open spec fn positional(digits: Seq<char>) -> int
    decreases digits.len(),
{
    if digits.len() == 0 {
        0
    } else {
        (digits[0] as int - 48) * pow(10, (digits.len() - 1) as nat) + positional(
            digits.drop_first(),
        )
    }
}

/// Whether `t` is a row of digits.
pub open spec fn are_digits(t: Seq<char>) -> bool {
    t.len() > 0 && forall|i: int| 0 <= i < t.len() ==> '0' <= #[trigger] t[i] <= '9'
}

/// Reading digits from the left is counting them by their place.
pub proof fn law_digits_count_by_place(t: Seq<char>)
    requires
        are_digits(t),
    ensures
        decimal_value(t) == positional(t),
    decreases t.len(),
{
    lemma_leading_digit(t);
    if t.len() > 1 {
        let rest = t.drop_first();
        assert forall|i: int| 0 <= i < rest.len() implies '0' <= #[trigger] rest[i] <= '9' by {
            assert(rest[i] == t[i + 1]);
        }
        law_digits_count_by_place(rest);
    } else {
        assert(t.drop_first() =~= seq![]);
        assert(decimal_value(seq![]) == 0 && positional(seq![]) == 0);
    }
}

/// The leading digit counts by its place.
proof fn lemma_leading_digit(t: Seq<char>)
    requires
        are_digits(t),
    ensures
        decimal_value(t) == (t[0] as int - 48) * pow(10, (t.len() - 1) as nat) + decimal_value(
            t.drop_first(),
        ),
    decreases t.len(),
{
    let lead = t[0] as int - 48;
    if t.len() == 1 {
        assert(t.drop_last() =~= seq![]);
        assert(t.drop_first() =~= seq![]);
        vstd::arithmetic::power::lemma_pow0(10);
        assert(decimal_value(seq![]) == 0);
        assert(lead * 1 == lead);
    } else {
        let front = t.drop_last();
        lemma_leading_digit(front);
        assert(t.drop_first().drop_last() =~= front.drop_first());
        assert(t.drop_first().last() == t.last());
        let p = pow(10, (t.len() - 2) as nat);
        let q = pow(10, (t.len() - 1) as nat);
        assert(q == 10 * p) by {
            reveal(pow);
        }
        assert((lead * p) * 10 == lead * q) by (nonlinear_arith)
            requires
                q == 10 * p,
        ;
    }
}

/// Leading whitespace is trimmed.
proof fn lemma_trim_start(space: Seq<char>, core: Seq<char>)
    requires
        forall|i: int| 0 <= i < space.len() ==> is_whitespace(#[trigger] space[i]),
        core.len() > 0,
        !is_whitespace(core[0]),
    ensures
        trimmed_start(space + core) == core,
    decreases space.len(),
{
    if space.len() == 0 {
        assert(space + core =~= core);
    } else {
        assert((space + core).drop_first() =~= space.drop_first() + core);
        assert forall|i: int| 0 <= i < space.len() - 1 implies is_whitespace(
            #[trigger] space.drop_first()[i],
        ) by {
            assert(space.drop_first()[i] == space[i + 1]);
        }
        lemma_trim_start(space.drop_first(), core);
    }
}

/// Trailing whitespace is trimmed.
proof fn lemma_trim_end(core: Seq<char>, space: Seq<char>)
    requires
        forall|i: int| 0 <= i < space.len() ==> is_whitespace(#[trigger] space[i]),
        core.len() > 0,
        !is_whitespace(core.last()),
    ensures
        trimmed_end(core + space) == core,
    decreases space.len(),
{
    if space.len() == 0 {
        assert(core + space =~= core);
    } else {
        assert((core + space).drop_last() =~= core + space.drop_last());
        lemma_trim_end(core, space.drop_last());
    }
}

/// Whether `t` consists of spaces and tabs.
pub open spec fn is_blank(t: Seq<char>) -> bool {
    forall|i: int| 0 <= i < t.len() ==> #[trigger] t[i] == ' ' || t[i] == '\t'
}

/// The text of the first line that gives the length of the body.
pub open spec fn length_line(lines: Seq<Seq<u8>>, k: int, value: Seq<char>) -> bool {
    &&& all_lines(lines)
    &&& valid_utf8(header_block(lines))
    &&& 0 <= k < lines.len()
    &&& forall|i: int| 0 <= i < k ==> !gives_length(#[trigger] lines[i])
    &&& gives_length(lines[k])
    &&& lines[k].skip(15) == encode_utf8(value)
}

/// The length of the body is read wherever the line stands that gives it, whatever the
/// other lines say: its digits, with or without a plus sign and blanks around them, where
/// a `usize` holds the number.
pub proof fn law_content_length_is_found(
    lines: Seq<Seq<u8>>,
    k: int,
    left: Seq<char>,
    plus: Seq<char>,
    digits: Seq<char>,
    right: Seq<char>,
)
    requires
        length_line(lines, k, left + plus + digits + right),
        is_blank(left),
        is_blank(right),
        plus == Seq::<char>::empty() || plus == seq!['+'],
        are_digits(digits),
    ensures
        content_length_of(header_block(lines)) == (if positional(digits) <= usize::MAX {
            Some(positional(digits) as usize)
        } else {
            None
        }),
{
    let value = left + plus + digits + right;
    lemma_announced(lines, k);
    encode_utf8_decode_utf8(value);
    let core = plus + digits;
    assert(value =~= left + (core + right));
    assert(core.last() == digits[digits.len() - 1]);
    assert((core + right)[0] == core[0]);
    assert(plus.len() == 0 ==> core =~= digits);
    assert(core[0] == '+' || core[0] == digits[0]);
    lemma_trim_start(left, core + right);
    lemma_trim_end(core, right);
    assert(without_plus(core) =~= digits) by {
        if plus.len() == 1 {
            assert(core.drop_first() =~= digits);
        } else {
            assert(core[0] == digits[0]);
        }
    }
    assert(all_digits(digits));
    law_digits_count_by_place(digits);
}

/// Without a line that gives it, no length is read, nor from a block that is no text.
pub proof fn law_no_length_without_its_line(lines: Seq<Seq<u8>>)
    requires
        all_lines(lines),
        !valid_utf8(header_block(lines)) || forall|i: int|
            0 <= i < lines.len() ==> !gives_length(#[trigger] lines[i]),
    ensures
        content_length_of(header_block(lines)) is None,
{
    if valid_utf8(header_block(lines)) {
        lemma_announced(lines, lines.len() as int);
    }
}

/// Where trimming at the start begins.
proof fn lemma_trimmed_start_at(t: Seq<char>) -> (a: int)
    ensures
        0 <= a <= t.len(),
        trimmed_start(t) == t.skip(a),
        forall|i: int| 0 <= i < a ==> is_whitespace(#[trigger] t[i]),
    decreases t.len(),
{
    if t.len() > 0 && is_whitespace(t[0]) {
        let rest = t.drop_first();
        let b = lemma_trimmed_start_at(rest);
        assert(rest.skip(b) =~= t.skip(b + 1));
        assert forall|i: int| 0 <= i < b + 1 implies is_whitespace(#[trigger] t[i]) by {
            if i > 0 {
                assert(t[i] == rest[i - 1]);
            }
        }
        b + 1
    } else {
        assert(t.skip(0) =~= t);
        0
    }
}

/// Where trimming at the end begins.
proof fn lemma_trimmed_end_at(t: Seq<char>) -> (b: int)
    ensures
        0 <= b <= t.len(),
        trimmed_end(t) == t.take(b),
        forall|i: int| b <= i < t.len() ==> is_whitespace(#[trigger] t[i]),
    decreases t.len(),
{
    if t.len() > 0 && is_whitespace(t.last()) {
        let front = t.drop_last();
        let b = lemma_trimmed_end_at(front);
        assert(front.take(b) =~= t.take(b));
        assert forall|i: int| b <= i < t.len() implies is_whitespace(#[trigger] t[i]) by {
            if i < front.len() {
                assert(t[i] == front[i]);
            }
        }
        b
    } else {
        assert(t.take(t.len() as int) =~= t);
        t.len() as int
    }
}

/// A length that is read is spelled in digits: but for a plus sign before them, no other
/// visible ASCII character stands in the value.
pub proof fn law_content_length_is_spelled(lines: Seq<Seq<u8>>, k: int, value: Seq<char>)
    requires
        length_line(lines, k, value),
        content_length_of(header_block(lines)) is Some,
    ensures
        exists|a: int, b: int|
            0 <= a < b <= value.len() && are_digits(#[trigger] value.subrange(a, b)) && positional(
                value.subrange(a, b),
            ) == content_length_of(header_block(lines))->0 && (forall|i: int|
                b <= i < value.len() ==> !('!' <= #[trigger] value[i] <= '~')) && (forall|i: int|
                0 <= i < a ==> !('!' <= #[trigger] value[i] <= '~') || i == a - 1 && value[i]
                    == '+'),
{
    lemma_announced(lines, k);
    encode_utf8_decode_utf8(value);
    let a = lemma_trimmed_start_at(value);
    let behind = value.skip(a);
    let b = lemma_trimmed_end_at(behind);
    let core = behind.take(b);
    let digits = without_plus(core);
    let c = if core[0] == '+' {
        a + 1
    } else {
        a
    };
    assert(digits =~= value.subrange(c, a + b));
    law_digits_count_by_place(digits);
    assert forall|i: int| a + b <= i < value.len() implies !('!' <= #[trigger] value[i] <= '~') by {
        assert(behind[i - a] == value[i]);
    }
    assert forall|i: int| 0 <= i < c implies !('!' <= #[trigger] value[i] <= '~') || i == c - 1
        && value[i] == '+' by {
        if i == a {
            assert(core[0] == value[a]);
        }
    }
    assert(are_digits(value.subrange(c, a + b)));
}

/// A request starts with its first line, and a line end follows it.
proof fn lemma_first_line(lines: Seq<Seq<u8>>, body: Seq<u8>)
    requires
        are_lines(lines),
    ensures
        lines[0].len() < http_message(lines, body).len(),
        http_message(lines, body).take(lines[0].len() as int) == lines[0],
        http_message(lines, body)[lines[0].len() as int] == 13,
{
    let line = lines[0];
    assert(http_message(lines, body).take(line.len() as int) =~= line);
}

/// Whether a request is a POST shows in its first line.
proof fn lemma_post(lines: Seq<Seq<u8>>, body: Seq<u8>)
    requires
        are_lines(lines),
    ensures
        encode_utf8("POST"@).is_prefix_of(http_message(lines, body)) == (lines[0].len() >= 4
            && lines[0].take(4) == encode_utf8("POST"@)),
{
    let whole = http_message(lines, body);
    let post = encode_utf8("POST"@);
    let line = lines[0];
    let n = line.len() as int;
    reveal_strlit("POST");
    is_ascii_chars_encode_utf8("POST"@);
    assert(post =~= seq![80u8, 79, 83, 84]);
    lemma_first_line(lines, body);
    if n >= 4 {
        assert(whole.subrange(0, 4) =~= whole.take(n).take(4));
    } else if post.is_prefix_of(whole) {
        assert(whole.subrange(0, 4)[n] == whole[n]);
    }
}

/// A request is whole with its blank line, but for a POST that gives the length of its
/// body: that is whole exactly when so many bytes follow.
pub proof fn law_request_is_whole(lines: Seq<Seq<u8>>, body: Seq<u8>)
    requires
        are_lines(lines),
    ensures
        complete(http_message(lines, body)) == (lines[0].len() < 4 || lines[0].take(4)
            != encode_utf8("POST"@) || match content_length_of(header_block(lines)) {
            Some(n) => body.len() >= n,
            None => true,
        }),
{
    lemma_header_end(lines, body);
    lemma_post(lines, body);
    assert(http_message(lines, body).len() == header_block(lines).len() + 4 + body.len());
}

/// A POST is whole exactly when as many bytes follow its blank line as its header lines
/// say, wherever among them they say so.
pub proof fn law_post_is_whole_with_its_body(
    lines: Seq<Seq<u8>>,
    k: int,
    left: Seq<char>,
    digits: Seq<char>,
    body: Seq<u8>,
)
    requires
        are_lines(lines),
        length_line(lines, k, left + digits),
        is_blank(left),
        are_digits(digits),
        positional(digits) <= usize::MAX,
        lines[0].len() >= 4,
        lines[0].take(4) == encode_utf8("POST"@),
    ensures
        complete(http_message(lines, body)) <==> body.len() >= positional(digits),
{
    assert(left + Seq::<char>::empty() + digits + Seq::<char>::empty() =~= left + digits);
    law_content_length_is_found(lines, k, left, seq![], digits, seq![]);
    law_digits_count_by_place(digits);
    law_request_is_whole(lines, body);
}

/// Without a blank line a request is not whole.
pub proof fn law_no_request_without_blank_line(received: Seq<u8>)
    requires
        forall|i: int|
            0 <= i <= received.len() - 4 ==> !(#[trigger] received[i] == 13 && received[i + 1] == 10
                && received[i + 2] == 13 && received[i + 3] == 10),
    ensures
        !complete(received),
{
    lemma_occurrence_bounds(received, HEADER_END@);
    if let Some(i) = first_occurrence(received, HEADER_END@) {
        let found = received.subrange(i, i + 4);
        assert(found[0] == received[i] && found[1] == received[i + 1] && found[2] == received[i + 2]
            && found[3] == received[i + 3]);
    }
}

/// Reading goes on exactly while bytes arrive, the buffer has room, and the request is not
/// whole. It is given up only where a read fails or nothing arrived at all.
pub proof fn law_reading_goes_on(buf: Seq<u8>, total: int, read: Option<usize>)
    requires
        0 <= total < buf.len() <= usize::MAX,
        read matches Some(n) ==> total + n <= buf.len(),
    ensures
        read is None ==> next_step(buf, total, read) is Abandon,
        read == Some(0usize) ==> next_step(buf, total, read) == (if total == 0 {
            ReadStep::Abandon
        } else {
            ReadStep::Done(total as usize)
        }),
        read matches Some(n) ==> n > 0 ==> next_step(buf, total, read) == (if total + n < buf.len()
            && !complete(buf.subrange(0, total + n)) {
            ReadStep::More((total + n) as usize)
        } else {
            ReadStep::Done((total + n) as usize)
        }),
{
}

/// Whether `c` is the hexadecimal digit, in capitals or not, for `d`.
pub open spec fn is_hex(c: u8, d: int) -> bool {
    if d < 10 {
        c == 48 + d
    } else {
        d < 16 && (c == 55 + d || c == 87 + d)
    }
}

/// Every hexadecimal digit is read, in capitals or not, and nothing else is.
pub proof fn law_hexadecimal_digits(c: u8, d: int)
    requires
        0 <= d,
    ensures
        hex_digit(c) == Some(d as u8) && d < 256 <==> is_hex(c, d),
{
}

/// Decoding goes from left to right: an escape gives its byte, a plus a space, and any
/// other byte itself, also a percent sign that starts no escape.
pub proof fn law_decoding_step(s: Seq<u8>, rest: Seq<u8>, h: int, l: int)
    requires
        s.len() > 0,
    ensures
        url_bytes(seq![]) == Seq::<u8>::empty(),
        s.len() == 3 && s[0] == 37 && is_hex(s[1], h) && is_hex(s[2], l) && 0 <= h && 0 <= l
            ==> url_bytes(s + rest) == seq![(16 * h + l) as u8] + url_bytes(rest),
        s == seq![43u8] ==> url_bytes(s + rest) == seq![32u8] + url_bytes(rest),
        s.len() == 1 && s[0] != 43 && s[0] != 37 ==> url_bytes(s + rest) == s + url_bytes(rest),
        s == seq![37u8] && (rest.len() < 2 || (forall|d: int| 0 <= d < 16 ==> !is_hex(rest[0], d))
            || (forall|d: int| 0 <= d < 16 ==> !is_hex(rest[1], d))) ==> url_bytes(s + rest) == s
            + url_bytes(rest),
{
    let whole = s + rest;
    if s.len() == 3 {
        assert(whole.skip(3) =~= rest);
        if 0 <= h && 0 <= l {
            law_hexadecimal_digits(s[1], h);
            law_hexadecimal_digits(s[2], l);
        }
    }
    if s.len() == 1 {
        assert(whole.skip(1) =~= rest);
        assert(s =~= seq![s[0]]);
        if rest.len() >= 2 {
            assert(whole[1] == rest[0] && whole[2] == rest[1]);
            if let Some(d) = hex_digit(rest[0]) {
                assert(is_hex(rest[0], d as int));
            }
            if let Some(d) = hex_digit(rest[1]) {
                assert(is_hex(rest[1], d as int));
            }
        }
    }
}

/// The decoded bytes are read as UTF-8 where they are some text in it, and else stand for
/// a character each.
pub proof fn law_decoded_bytes_are_text(s: Seq<u8>, t: Seq<char>)
    ensures
        url_bytes(s) == encode_utf8(t) ==> url_decoded(s) == t,
        !valid_utf8(url_bytes(s)) ==> url_decoded(s).len() == url_bytes(s).len() && forall|i: int|
            0 <= i < url_bytes(s).len() ==> #[trigger] url_decoded(s)[i] as int == url_bytes(s)[i],
{
    encode_utf8_valid_utf8(t);
    encode_utf8_decode_utf8(t);
}

/// A form: items with `&` between them, each a key with `=` and a value behind it, or a key
/// alone.
pub open spec fn form_bytes(items: Seq<(Seq<u8>, Option<Seq<u8>>)>) -> Seq<u8>
    decreases items.len(),
{
    if items.len() == 0 {
        seq![]
    } else {
        let own = match items[0].1 {
            Some(value) => items[0].0 + seq![61u8] + value,
            None => items[0].0,
        };
        if items.len() == 1 {
            own
        } else {
            own + seq![38u8] + form_bytes(items.drop_first())
        }
    }
}

/// The values of a key, in order, decoded.
pub open spec fn values_of(items: Seq<(Seq<u8>, Option<Seq<u8>>)>, key: Seq<u8>) -> Seq<Seq<char>>
    decreases items.len(),
{
    if items.len() == 0 {
        seq![]
    } else {
        let rest = values_of(items.drop_first(), key);
        match items[0].1 {
            Some(value) => if items[0].0 == key {
                seq![url_decoded(value)] + rest
            } else {
                rest
            },
            None => rest,
        }
    }
}

/// Whether this can be an item of a form: its key holds no separator, and its value not the
/// one between items.
pub open spec fn is_item(item: (Seq<u8>, Option<Seq<u8>>)) -> bool {
    &&& forall|j: int| 0 <= j < item.0.len() ==> #[trigger] item.0[j] != 38 && item.0[j] != 61
    &&& item.1 matches Some(value) ==> forall|j: int|
        0 <= j < value.len() ==> #[trigger] value[j] != 38
}

/// Whether these can be the items of a form, and there is one.
pub open spec fn are_items(items: Seq<(Seq<u8>, Option<Seq<u8>>)>) -> bool {
    items.len() > 0 && forall|i: int| 0 <= i < items.len() ==> is_item(#[trigger] items[i])
}

/// What one item says of a key.
proof fn lemma_item(item: (Seq<u8>, Option<Seq<u8>>), key: Seq<u8>)
    requires
        is_item(item),
    ensures
        ({
            let own = form_bytes(seq![item]);
            &&& forall|j: int| 0 <= j < own.len() ==> #[trigger] own[j] != 38
            &&& pair_values(own, key) == values_of(seq![item], key)
        }),
{
    let own = form_bytes(seq![item]);
    let name = item.0;
    assert(seq![item].drop_first() =~= seq![]);
    assert(values_of(seq![], key) =~= seq![]);
    assert(EQUALS@ =~= seq![61u8]);
    match item.1 {
        Some(value) => {
            assert forall|j: int| 0 <= j < own.len() implies #[trigger] own[j] != 38 by {
                if j < name.len() {
                    assert(own[j] == name[j]);
                } else if j > name.len() {
                    assert(own[j] == value[j - name.len() - 1]);
                }
            }
            lemma_pair(name, value, key);
            assert(pair_values(own, key) =~= values_of(seq![item], key));
        },
        None => {
            assert(own =~= name);
            lemma_no_byte(own, EQUALS@);
        },
    }
}

/// A form gives each key the values of the items with that key, decoded, in order, wherever
/// these stand and whatever the others are.
pub proof fn law_form_is_read(items: Seq<(Seq<u8>, Option<Seq<u8>>)>, key: Seq<u8>)
    requires
        are_items(items),
    ensures
        field_values(form_bytes(items), key) == values_of(items, key),
        form_values(form_bytes(items), key) == (if valid_utf8(form_bytes(items)) {
            values_of(items, key)
        } else {
            seq![]
        }),
    decreases items.len(),
{
    let form = form_bytes(items);
    let own = form_bytes(seq![items[0]]);
    let n = own.len() as int;
    let rest = items.drop_first();
    assert(is_item(items[0]));
    lemma_item(items[0], key);
    assert(seq![items[0]].drop_first() =~= seq![]);
    assert(values_of(seq![], key) =~= seq![]);
    if items.len() == 1 {
        assert(items =~= seq![items[0]]);
        lemma_no_byte(form, AMPERSAND@);
    } else {
        assert forall|i: int| 0 <= i < rest.len() implies is_item(#[trigger] rest[i]) by {
            assert(rest[i] == items[i + 1]);
        }
        assert(form =~= own + seq![38u8] + form_bytes(rest));
        assert forall|j: int| 0 <= j < n implies #[trigger] form[j] != 38 by {
            assert(form[j] == own[j]);
        }
        lemma_first_byte(form, AMPERSAND@, n);
        assert(form.subrange(0, n) =~= own);
        assert(form.skip(n + 1) =~= form_bytes(rest));
        law_form_is_read(rest, key);
        assert(values_of(items, key) =~= values_of(seq![items[0]], key) + values_of(rest, key));
    }
    assert(field_values(form, key) =~= values_of(items, key));
}

/// Whether a line ends at `i` and a blank one follows.
pub open spec fn blank_at(received: Seq<u8>, i: int) -> bool {
    0 <= i <= received.len() - 4 && received[i] == 13 && received[i + 1] == 10 && received[i + 2]
        == 13 && received[i + 3] == 10
}

/// The end of the header block is the first blank line.
pub proof fn law_header_ends_at_the_first_blank_line(received: Seq<u8>, end: int)
    ensures
        blank_at(received, end) && (forall|j: int|
            0 <= j < end ==> !#[trigger] blank_at(received, j))
            ==> first_occurrence(received, HEADER_END@) == Some(end),
        (forall|j: int| !#[trigger] blank_at(received, j)) ==> first_occurrence(
            received,
            HEADER_END@,
        ) is None,
{
    assert forall|j: int| #[trigger] blank_at(received, j) == stands_at(
        received,
        HEADER_END@,
        j,
    ) by {
        let needle = HEADER_END@;
        if stands_at(received, needle, j) {
            assert(needle[0] == received[j + 0] && needle[1] == received[j + 1] && needle[2]
                == received[j + 2] && needle[3] == received[j + 3]);
        }
    }
    assert forall|j: int| #[trigger] stands_at(received, HEADER_END@, j) implies blank_at(
        received,
        j,
    ) by {
        assert(blank_at(received, j) == stands_at(received, HEADER_END@, j));
    }
    law_search_finds_the_first(received, HEADER_END@, end);
    if let Some(i) = first_occurrence(received, HEADER_END@) {
        law_search_finds_the_first(received, HEADER_END@, i);
    }
}

/// Whether a request is whole shows at its first blank line, wherever that is: unless it is
/// a POST that gives the length of its body, it is whole there, and else when so many bytes
/// follow.
pub proof fn law_whole_from_the_first_blank_line(received: Seq<u8>, end: int)
    requires
        blank_at(received, end),
        forall|j: int| 0 <= j < end ==> !#[trigger] blank_at(received, j),
    ensures
        complete(received) == (received.take(4) != encode_utf8("POST"@)
            || match content_length_of(received.take(end)) {
            Some(n) => received.len() - (end + 4) >= n,
            None => true,
        }),
{
    law_header_ends_at_the_first_blank_line(received, end);
    assert(received.take(end) =~= received.subrange(0, end));
    reveal_strlit("POST");
    is_ascii_chars_encode_utf8("POST"@);
    assert(received.take(4) =~= received.subrange(0, 4));
}

/// Whitespace around a number is what Unicode calls so: in ASCII the space, the tab and the
/// line breaks, and no visible character.
pub proof fn law_what_is_trimmed(c: char)
    ensures
        (c as int) < 0x80 ==> (is_whitespace(c) <==> c as int == 0x20 || 0x09 <= c as int <= 0x0D),
        (c as int) >= 0x80 ==> (is_whitespace(c) <==> {
            ||| c as int == 0x85 || c as int == 0xA0 || c as int == 0x1680
            ||| 0x2000 <= c as int <= 0x200A
            ||| c as int == 0x2028 || c as int == 0x2029 || c as int == 0x202F
            ||| c as int == 0x205F || c as int == 0x3000
        }),
{
}

} // verus!
