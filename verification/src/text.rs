//! Text of bounded length.
//!
//! Everything the portal renders or stores as text (SSIDs, passwords, response
//! heads, JSON bodies) has a fixed capacity in bytes. [`Text`] is such a text; a
//! piece that does not fit is left out as a whole, and later pieces that do fit
//! are still appended. What users enter is [`truncated`] instead.

use vstd::prelude::*;
use vstd::utf8::*;

verus! {

/// Text with a capacity in bytes that is fixed when it is made.
///
/// The characters are kept in a `heapless` string. It sits behind a box as a
/// string view, so that one type serves every capacity.
#[verifier::external_body]
pub struct Text {
    inner: Box<heapless::string::StringView>,
}

/// The characters that `t` holds.
pub uninterp spec fn held_chars(t: Text) -> Seq<char>;

/// The number of bytes that `t` was made for.
pub uninterp spec fn byte_capacity(t: Text) -> nat;

impl View for Text {
    type V = Seq<char>;

    open spec fn view(&self) -> Seq<char> {
        held_chars(*self)
    }
}

/// How many bytes `t` takes in UTF-8.
pub open spec fn byte_len(t: Seq<char>) -> nat {
    encode_utf8(t).len()
}

/// Whether `piece` can follow `t` in `room` bytes.
pub open spec fn fits(t: Seq<char>, room: nat, piece: Seq<char>) -> bool {
    byte_len(t) + byte_len(piece) <= room
}

/// `t` followed by `piece`, or `t` alone where both together exceed `room` bytes.
pub open spec fn appended(t: Seq<char>, room: nat, piece: Seq<char>) -> Seq<char> {
    if fits(t, room, piece) {
        t + piece
    } else {
        t
    }
}

/// `t` after every piece in turn was appended, each one only where it fits.
pub open spec fn filled(t: Seq<char>, room: nat, pieces: Seq<Seq<char>>) -> Seq<char>
    decreases pieces.len(),
{
    if pieces.len() == 0 {
        t
    } else {
        appended(filled(t, room, pieces.drop_last()), room, pieces.last())
    }
}

/// One piece for each character of `t`.
pub open spec fn singles(t: Seq<char>) -> Seq<Seq<char>> {
    Seq::new(t.len(), |i: int| seq![t[i]])
}

/// `t` followed by `chars` up to the first character that does not fit.
pub open spec fn truncated(t: Seq<char>, room: nat, chars: Seq<char>) -> Seq<char>
    decreases chars.len(),
{
    if chars.len() == 0 || !fits(t, room, seq![chars[0]]) {
        t
    } else {
        truncated(t + seq![chars[0]], room, chars.drop_first())
    }
}

/// `t` followed by each of `values` in turn, truncated where it does not fit.
pub open spec fn truncated_all(t: Seq<char>, room: nat, values: Seq<Seq<char>>) -> Seq<char>
    decreases values.len(),
{
    if values.len() == 0 {
        t
    } else {
        truncated_all(truncated(t, room, values[0]), room, values.drop_first())
    }
}

/// All pieces, one after the other.
pub open spec fn joined(pieces: Seq<Seq<char>>) -> Seq<char>
    decreases pieces.len(),
{
    if pieces.len() == 0 {
        seq![]
    } else {
        joined(pieces.drop_last()) + pieces.last()
    }
}

/// Calls `heapless::String::<N>::new`: a string that holds nothing and has room
/// for `N` bytes.
#[verifier::external_body]
fn heapless_new<const N: usize>() -> (made: Text)
    ensures
        held_chars(made) == Seq::<char>::empty(),
        byte_capacity(made) == N,
{
    Text { inner: Box::new(heapless::String::<N>::new()) }
}

/// Calls `push` of a `heapless` string: appends `c` where its UTF-8 form still
/// fits, and leaves the string as it was where it does not.
#[verifier::external_body]
fn heapless_push(text: &mut Text, c: char) -> (fitted: bool)
    ensures
        fitted == fits(held_chars(*old(text)), byte_capacity(*old(text)), seq![c]),
        held_chars(*final(text)) == appended(
            held_chars(*old(text)),
            byte_capacity(*old(text)),
            seq![c],
        ),
        byte_capacity(*final(text)) == byte_capacity(*old(text)),
{
    text.inner.push(c).is_ok()
}

/// Calls `push_str` of a `heapless` string: appends all of `s` where it still fits,
/// and leaves the string as it was where it does not.
#[verifier::external_body]
fn heapless_push_str(text: &mut Text, s: &str) -> (fitted: bool)
    ensures
        fitted == fits(held_chars(*old(text)), byte_capacity(*old(text)), s@),
        held_chars(*final(text)) == appended(
            held_chars(*old(text)),
            byte_capacity(*old(text)),
            s@,
        ),
        byte_capacity(*final(text)) == byte_capacity(*old(text)),
{
    text.inner.push_str(s).is_ok()
}

/// Calls `as_str` of a `heapless` string: the characters that it holds, which take no
/// more bytes than it has room for.
#[verifier::external_body]
fn heapless_as_str(text: &Text) -> (s: &str)
    ensures
        s@ == held_chars(*text),
        byte_len(s@) <= byte_capacity(*text),
{
    text.inner.as_str()
}

impl Text {
    /// The number of bytes that this text can hold.
    pub open spec fn capacity(&self) -> nat {
        byte_capacity(*self)
    }

    /// An empty text with room for `N` bytes.
    pub fn new<const N: usize>() -> (made: Text)
        ensures
            made@ == Seq::<char>::empty(),
            made.capacity() == N,
    {
        heapless_new::<N>()
    }

    /// Append `c` if it fits. Returns whether it did.
    pub fn push(&mut self, c: char) -> (fitted: bool)
        ensures
            fitted == fits(old(self)@, old(self).capacity(), seq![c]),
            final(self)@ == appended(old(self)@, old(self).capacity(), seq![c]),
            final(self).capacity() == old(self).capacity(),
    {
        heapless_push(self, c)
    }

    /// Append all of `s` if it fits, else nothing of it. Returns whether it did.
    pub fn push_str(&mut self, s: &str) -> (fitted: bool)
        ensures
            fitted == fits(old(self)@, old(self).capacity(), s@),
            final(self)@ == appended(old(self)@, old(self).capacity(), s@),
            final(self).capacity() == old(self).capacity(),
    {
        heapless_push_str(self, s)
    }

    /// The characters that this text holds.
    pub fn as_str(&self) -> (s: &str)
        ensures
            s@ == self@,
            byte_len(s@) <= self.capacity(),
    {
        heapless_as_str(self)
    }

    /// Whether this text holds no character.
    pub fn is_empty(&self) -> (empty: bool)
        ensures
            empty == (self@.len() == 0),
    {
        self.as_str().is_empty()
    }
}

/// Encoding two texts one after the other encodes their concatenation.
pub proof fn lemma_encode_concat(a: Seq<char>, b: Seq<char>)
    ensures
        encode_utf8(a + b) == encode_utf8(a) + encode_utf8(b),
        byte_len(a + b) == byte_len(a) + byte_len(b),
    decreases a.len(),
{
    if a.len() == 0 {
        assert(a + b =~= b);
        assert(encode_utf8(a) + encode_utf8(b) =~= encode_utf8(b));
    } else {
        lemma_encode_concat(a.drop_first(), b);
        assert((a + b).drop_first() =~= a.drop_first() + b);
        assert(encode_utf8(a + b) =~= encode_utf8(a) + encode_utf8(b));
    }
}

/// Appending the pieces of `p` and then those of `q` appends the pieces of `p + q`.
pub proof fn lemma_filled_concat(t: Seq<char>, room: nat, p: Seq<Seq<char>>, q: Seq<Seq<char>>)
    ensures
        filled(filled(t, room, p), room, q) == filled(t, room, p + q),
    decreases q.len(),
{
    if q.len() == 0 {
        assert(p + q =~= p);
    } else {
        lemma_filled_concat(t, room, p, q.drop_last());
        assert((p + q).drop_last() =~= p + q.drop_last());
    }
}

/// Appending one more piece extends the list of pieces.
pub proof fn lemma_filled_push(t: Seq<char>, room: nat, p: Seq<Seq<char>>, piece: Seq<char>)
    ensures
        appended(filled(t, room, p), room, piece) == filled(t, room, p.push(piece)),
{
    assert(p.push(piece).drop_last() =~= p);
}

/// Where everything fits together, nothing is left out: the text is the
/// concatenation of all pieces.
pub proof fn law_nothing_left_out(t: Seq<char>, room: nat, pieces: Seq<Seq<char>>)
    requires
        byte_len(t) + byte_len(joined(pieces)) <= room,
    ensures
        filled(t, room, pieces) == t + joined(pieces),
    decreases pieces.len(),
{
    if pieces.len() == 0 {
        assert(t + joined(pieces) =~= t);
    } else {
        let before = pieces.drop_last();
        lemma_encode_concat(joined(before), pieces.last());
        law_nothing_left_out(t, room, before);
        lemma_encode_concat(t, joined(before));
        assert(t + joined(before) + pieces.last() =~= t + joined(pieces));
    }
}

/// Truncation keeps the longest front of `chars` that fits: all of it, or so much that
/// one character more would exceed the room.
pub proof fn law_truncation(t: Seq<char>, room: nat, chars: Seq<char>)
    ensures
        ({
            let n = truncated(t, room, chars).len() - t.len();
            &&& 0 <= n <= chars.len()
            &&& truncated(t, room, chars) == t + chars.take(n)
            &&& n > 0 ==> byte_len(t) + byte_len(chars.take(n)) <= room
            &&& n < chars.len() ==> byte_len(t) + byte_len(chars.take(n + 1)) > room
        }),
    decreases chars.len(),
{
    if chars.len() == 0 {
        assert(t + chars.take(0) =~= t);
    } else {
        let first = seq![chars[0]];
        let rest = chars.drop_first();
        if fits(t, room, first) {
            law_truncation(t + first, room, rest);
            let n = truncated(t, room, chars).len() - t.len();
            assert(first + rest.take(n - 1) =~= chars.take(n));
            assert(t + first + rest.take(n - 1) =~= t + chars.take(n));
            lemma_encode_concat(t, first);
            lemma_encode_concat(first, rest.take(n - 1));
            assert(first + rest.take(0) =~= first);
            if n < chars.len() {
                assert(first + rest.take(n) =~= chars.take(n + 1));
                lemma_encode_concat(first, rest.take(n));
            }
        } else {
            assert(t + chars.take(0) =~= t);
            assert(chars.take(1) =~= first);
        }
    }
}

/// What fits is not truncated.
pub proof fn law_short_text_is_not_truncated(t: Seq<char>, room: nat, chars: Seq<char>)
    requires
        byte_len(t) + byte_len(chars) <= room,
    ensures
        truncated(t, room, chars) == t + chars,
{
    law_truncation(t, room, chars);
    let n = truncated(t, room, chars).len() - t.len();
    if n < chars.len() {
        lemma_encode_concat(chars.take(n + 1), chars.skip(n + 1));
        assert(chars.take(n + 1) + chars.skip(n + 1) =~= chars);
    } else {
        assert(chars.take(n) =~= chars);
    }
}

/// A text that starts within its room stays within it, whatever is appended.
pub proof fn law_truncated_text_fits(t: Seq<char>, room: nat, values: Seq<Seq<char>>)
    requires
        byte_len(t) <= room,
    ensures
        byte_len(truncated_all(t, room, values)) <= room,
    decreases values.len(),
{
    if values.len() > 0 {
        lemma_truncated_within(t, room, values[0]);
        law_truncated_text_fits(truncated(t, room, values[0]), room, values.drop_first());
    }
}

/// One value leaves a text within its room.
proof fn lemma_truncated_within(t: Seq<char>, room: nat, chars: Seq<char>)
    requires
        byte_len(t) <= room,
    ensures
        byte_len(truncated(t, room, chars)) <= room,
    decreases chars.len(),
{
    if chars.len() > 0 && fits(t, room, seq![chars[0]]) {
        lemma_encode_concat(t, seq![chars[0]]);
        lemma_truncated_within(t + seq![chars[0]], room, chars.drop_first());
    }
}

/// Values are appended one after the other, each truncated on its own.
pub proof fn law_values_are_appended_in_order(
    t: Seq<char>,
    room: nat,
    value: Seq<char>,
    rest: Seq<Seq<char>>,
)
    ensures
        truncated_all(t, room, seq![]) == t,
        truncated_all(t, room, seq![value] + rest) == truncated_all(
            truncated(t, room, value),
            room,
            rest,
        ),
{
    assert((seq![value] + rest).drop_first() =~= rest);
}

/// A piece is appended whole exactly where it still fits, and left out whole where it does
/// not, whatever was appended or left out before it.
pub proof fn law_pieces_fit_or_are_left_out(
    t: Seq<char>,
    room: nat,
    pieces: Seq<Seq<char>>,
    piece: Seq<char>,
)
    ensures
        filled(t, room, seq![]) == t,
        filled(t, room, pieces.push(piece)) == (if encode_utf8(filled(t, room, pieces)).len()
            + encode_utf8(piece).len() <= room {
            filled(t, room, pieces) + piece
        } else {
            filled(t, room, pieces)
        }),
{
    lemma_filled_push(t, room, pieces, piece);
}

} // verus!
