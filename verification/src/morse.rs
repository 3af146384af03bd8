//! Morse code on the status LED.
//!
//! core1 keeps the latest network [`Status`] and clocks its Morse word out on the
//! LED, over and over. A message that a user submits on the portal is blinked once
//! before the status word resumes.
//!
//! The functions here decide what the LED does and for how long; [`LedStep`]s are
//! carried out by whoever owns the clock and the LED.

use vstd::prelude::*;

use crate::shared::Status;

verus! {

/// One Morse time unit, in milliseconds. A dot takes one unit, a dash three.
pub const UNIT_MS: u64 = 150;

/// One step of a blink pattern.
#[derive(Clone, Copy, Debug, PartialEq, Eq, Structural)]
pub enum LedStep {
    /// Switch the LED on or off.
    Led(bool),
    /// Wait for so many time units.
    Wait(u32),
}

// ---- codes ----

/// The Morse word of a status, its letters separated by spaces.
pub open spec fn status_word(status: Status) -> Seq<char> {
    match status {
        Status::Portal => ".- .--."@,
        Status::Scanning => "..."@,
        Status::Connecting => "-.-."@,
        Status::Connected => "--- -.-"@,
        Status::Failed => ". .-. .-."@,
    }
}

/// Morse word for a network status, its letters separated by spaces.
pub fn word_for(status: Status) -> (word: &'static str)
    ensures
        word@ == status_word(status),
{
    match status {
        Status::Portal => ".- .--.",  // AP
        Status::Scanning => "...",  // S
        Status::Connecting => "-.-.",  // C
        Status::Connected => "--- -.-",  // OK
        Status::Failed => ". .-. .-.",  // ERR
    }
}

/// `c` with a lower-case ASCII letter made upper case.
pub open spec fn upper(c: char) -> char {
    if 'a' <= c <= 'z' {
        (c as u8 - 32) as char
    } else {
        c
    }
}

/// The Morse code of a character, if it has one.
pub open spec fn code_of(c: char) -> Option<Seq<char>> {
    match upper(c) {
        'A' => Some(".-"@),
        'B' => Some("-..."@),
        'C' => Some("-.-."@),
        'D' => Some("-.."@),
        'E' => Some("."@),
        'F' => Some("..-."@),
        'G' => Some("--."@),
        'H' => Some("...."@),
        'I' => Some(".."@),
        'J' => Some(".---"@),
        'K' => Some("-.-"@),
        'L' => Some(".-.."@),
        'M' => Some("--"@),
        'N' => Some("-."@),
        'O' => Some("---"@),
        'P' => Some(".--."@),
        'Q' => Some("--.-"@),
        'R' => Some(".-."@),
        'S' => Some("..."@),
        'T' => Some("-"@),
        'U' => Some("..-"@),
        'V' => Some("...-"@),
        'W' => Some(".--"@),
        'X' => Some("-..-"@),
        'Y' => Some("-.--"@),
        'Z' => Some("--.."@),
        '0' => Some("-----"@),
        '1' => Some(".----"@),
        '2' => Some("..---"@),
        '3' => Some("...--"@),
        '4' => Some("....-"@),
        '5' => Some("....."@),
        '6' => Some("-...."@),
        '7' => Some("--..."@),
        '8' => Some("---.."@),
        '9' => Some("----."@),
        '.' => Some(".-.-.-"@),
        ',' => Some("--..--"@),
        '?' => Some("..--.."@),
        '\'' => Some(".----."@),
        '!' => Some("-.-.--"@),
        '/' => Some("-..-."@),
        '(' => Some("-.--."@),
        ')' => Some("-.--.-"@),
        '&' => Some(".-..."@),
        ':' => Some("---..."@),
        ';' => Some("-.-.-."@),
        '=' => Some("-...-"@),
        '+' => Some(".-.-."@),
        '-' => Some("-....-"@),
        '_' => Some("..--.-"@),
        '"' => Some(".-..-."@),
        '@' => Some(".--.-."@),
        _ => None,
    }
}

/// Map one character to its Morse code (dots and dashes), or `None` if it has none.
/// Letters are case-insensitive; a space has no code.
pub fn morse_for(c: char) -> (code: Option<&'static str>)
    ensures
        match code {
            Some(s) => code_of(c) == Some(s@),
            None => code_of(c) is None,
        },
{
    let capital: char = if 'a' <= c && c <= 'z' {
        (c as u8 - 32) as char
    } else {
        c
    };
    match capital {
        'A' => Some(".-"),
        'B' => Some("-..."),
        'C' => Some("-.-."),
        'D' => Some("-.."),
        'E' => Some("."),
        'F' => Some("..-."),
        'G' => Some("--."),
        'H' => Some("...."),
        'I' => Some(".."),
        'J' => Some(".---"),
        'K' => Some("-.-"),
        'L' => Some(".-.."),
        'M' => Some("--"),
        'N' => Some("-."),
        'O' => Some("---"),
        'P' => Some(".--."),
        'Q' => Some("--.-"),
        'R' => Some(".-."),
        'S' => Some("..."),
        'T' => Some("-"),
        'U' => Some("..-"),
        'V' => Some("...-"),
        'W' => Some(".--"),
        'X' => Some("-..-"),
        'Y' => Some("-.--"),
        'Z' => Some("--.."),
        '0' => Some("-----"),
        '1' => Some(".----"),
        '2' => Some("..---"),
        '3' => Some("...--"),
        '4' => Some("....-"),
        '5' => Some("....."),
        '6' => Some("-...."),
        '7' => Some("--..."),
        '8' => Some("---.."),
        '9' => Some("----."),
        '.' => Some(".-.-.-"),
        ',' => Some("--..--"),
        '?' => Some("..--.."),
        '\'' => Some(".----."),
        '!' => Some("-.-.--"),
        '/' => Some("-..-."),
        '(' => Some("-.--."),
        ')' => Some("-.--.-"),
        '&' => Some(".-..."),
        ':' => Some("---..."),
        ';' => Some("-.-.-."),
        '=' => Some("-...-"),
        '+' => Some(".-.-."),
        '-' => Some("-....-"),
        '_' => Some("..--.-"),
        '"' => Some(".-..-."),
        '@' => Some(".--.-."),
        _ => None,
    }
}

// ---- letters and messages ----

/// The LED in state `on` for so many units.
pub open spec fn led_steps(on: bool, units: u32) -> Seq<LedStep> {
    seq![LedStep::Led(on), LedStep::Wait(units)]
}

/// A dot or a dash; any other symbol does nothing.
pub open spec fn symbol_steps(symbol: char) -> Seq<LedStep> {
    if symbol == '.' {
        led_steps(true, 1)
    } else if symbol == '-' {
        led_steps(true, 3)
    } else {
        seq![]
    }
}

/// The symbols of a letter, with a gap of one unit between them.
pub open spec fn symbols_steps(code: Seq<char>) -> Seq<LedStep>
    decreases code.len(),
{
    if code.len() == 0 {
        seq![]
    } else if code.len() == 1 {
        symbol_steps(code[0])
    } else {
        symbols_steps(code.drop_last()) + led_steps(false, 1) + symbol_steps(code.last())
    }
}

/// Whether `symbol` is a dot or a dash.
pub open spec fn is_symbol(symbol: char) -> bool {
    symbol == '.' || symbol == '-'
}

/// A letter: its symbols, and the LED off where the last of them left it on.
pub open spec fn letter_steps(code: Seq<char>) -> Seq<LedStep> {
    if code.len() > 0 && is_symbol(code.last()) {
        symbols_steps(code).push(LedStep::Led(false))
    } else {
        symbols_steps(code)
    }
}

/// Append the LED in state `on` for so many units.
fn led_for(steps: &mut Vec<LedStep>, on: bool, units: u32)
    ensures
        final(steps)@ == old(steps)@ + led_steps(on, units),
{
    steps.push(LedStep::Led(on));
    steps.push(LedStep::Wait(units));
}

/// Append the steps of one already-encoded Morse letter (a string of dots and
/// dashes). Assumes that the LED is off before it and leaves it off; the gap behind
/// it is the caller's responsibility.
pub fn blink_letter(steps: &mut Vec<LedStep>, code: &str)
    ensures
        final(steps)@ == old(steps)@ + letter_steps(code@),
{
    let n: usize = code.unicode_len();
    let mut lit: bool = false;
    let mut i: usize = 0;
    while i < n
        invariant
            i <= n,
            n == code@.len(),
            lit == (i > 0 && is_symbol(code@[i - 1])),
            steps@ =~= old(steps)@ + symbols_steps(code@.take(i as int)),
        decreases n - i,
    {
        if i > 0 {
            led_for(steps, false, 1);
        }
        let symbol: char = code.get_char(i);
        assert(code@.take(i + 1).drop_last() =~= code@.take(i as int));
        if symbol == '.' {
            led_for(steps, true, 1);
        } else if symbol == '-' {
            led_for(steps, true, 3);
        }
        lit = symbol == '.' || symbol == '-';
        i += 1;
    }
    assert(code@.take(n as int) =~= code@);
    if lit {
        steps.push(LedStep::Led(false));
    }
    assert(steps@ =~= old(steps)@ + letter_steps(code@));
}

/// Whether a letter directly precedes the end of `msg`: one was blinked since the
/// last space.
pub open spec fn after_letter(msg: Seq<char>) -> bool
    decreases msg.len(),
{
    if msg.len() == 0 || msg.last() == ' ' {
        false
    } else {
        code_of(msg.last()) is Some || after_letter(msg.drop_last())
    }
}

/// What one character that follows `msg` adds: a gap of seven units for a space, a
/// letter (with a gap of three units behind an earlier one) for a character that has
/// a code, nothing for any other.
pub open spec fn char_steps(msg: Seq<char>, c: char) -> Seq<LedStep> {
    if c == ' ' {
        led_steps(false, 7)
    } else {
        match code_of(c) {
            Some(code) => if after_letter(msg) {
                led_steps(false, 3) + letter_steps(code)
            } else {
                letter_steps(code)
            },
            None => seq![],
        }
    }
}

/// The characters of a message.
pub open spec fn chars_steps(msg: Seq<char>) -> Seq<LedStep>
    decreases msg.len(),
{
    if msg.len() == 0 {
        seq![]
    } else {
        chars_steps(msg.drop_last()) + char_steps(msg.drop_last(), msg.last())
    }
}

/// A whole message, with a gap before and behind it.
pub open spec fn message_steps(msg: Seq<char>) -> Seq<LedStep> {
    led_steps(false, 3) + chars_steps(msg) + led_steps(false, 3)
}

/// The steps that blink a user's message once. Characters without a Morse code are
/// skipped; spaces become a word gap.
pub fn blink_message(msg: &str) -> (steps: Vec<LedStep>)
    ensures
        steps@ == message_steps(msg@),
{
    let mut steps: Vec<LedStep> = Vec::new();
    led_for(&mut steps, false, 3);
    let n: usize = msg.unicode_len();
    let mut prev_was_char: bool = false;
    let mut i: usize = 0;
    while i < n
        invariant
            i <= n,
            n == msg@.len(),
            prev_was_char == after_letter(msg@.take(i as int)),
            steps@ =~= led_steps(false, 3) + chars_steps(msg@.take(i as int)),
        decreases n - i,
    {
        let c: char = msg.get_char(i);
        assert(msg@.take(i + 1).drop_last() =~= msg@.take(i as int));
        i += 1;
        if c == ' ' {
            led_for(&mut steps, false, 7);
            prev_was_char = false;
            continue;
        }
        if let Some(code) = morse_for(c) {
            if prev_was_char {
                led_for(&mut steps, false, 3);
            }
            blink_letter(&mut steps, code);
            prev_was_char = true;
        }
    }
    assert(msg@.take(n as int) =~= msg@);
    led_for(&mut steps, false, 3);
    steps
}

// ---- the blinker ----

/// The letters of a word: the parts between its spaces.
pub open spec fn letters_of(word: Seq<char>) -> Seq<Seq<char>>
    decreases word.len(),
{
    if word.len() == 0 {
        seq![seq![]]
    } else {
        let earlier = letters_of(word.drop_last());
        if word.last() == ' ' {
            earlier.push(seq![])
        } else {
            earlier.drop_last().push(earlier.last().push(word.last()))
        }
    }
}

/// The texts of a list of strings.
pub open spec fn texts(list: Seq<&str>) -> Seq<Seq<char>> {
    Seq::new(list.len(), |i: int| list[i]@)
}

/// The letters of a word: the parts between its spaces.
pub fn letters(word: &str) -> (list: Vec<&str>)
    ensures
        texts(list@) == letters_of(word@),
{
    let mut list: Vec<&str> = Vec::new();
    let n: usize = word.unicode_len();
    let mut start: usize = 0;
    let mut i: usize = 0;
    assert(word@.take(0) =~= seq![]);
    assert(word@.subrange(0, 0) =~= seq![]);
    while i < n
        invariant
            start <= i <= n,
            n == word@.len(),
            letters_of(word@.take(i as int)) =~= texts(list@).push(
                word@.subrange(start as int, i as int),
            ),
        decreases n - i,
    {
        assert(word@.take(i + 1).drop_last() =~= word@.take(i as int));
        let ghost whole = texts(list@).push(word@.subrange(start as int, i as int));
        assert(whole.drop_last() =~= texts(list@));
        if word.get_char(i) == ' ' {
            list.push(word.substring_char(start, i));
            assert(texts(list@) =~= whole);
            start = i + 1;
            assert(word@.subrange(start as int, i + 1) =~= seq![]);
        } else {
            assert(word@.subrange(start as int, i + 1) =~= word@.subrange(
                start as int,
                i as int,
            ).push(word@[i as int]));
        }
        i += 1;
    }
    let ghost before = texts(list@);
    list.push(word.substring_char(start, n));
    assert(word@.take(n as int) =~= word@);
    assert(texts(list@) =~= before.push(word@.subrange(start as int, n as int)));
    list
}

/// Where the blinker stands in its round.
#[derive(Clone, Copy, Debug, PartialEq, Eq, Structural)]
pub enum Phase {
    /// About to look for a message.
    Message,
    /// A message was blinked; about to look for a status.
    AfterMessage,
    /// About to look for a status before the word.
    Word,
    /// About to look for a status before this letter of the word.
    Letter(usize),
}

/// What the Morse task keeps between two looks at its channels.
#[derive(Clone, Copy, Debug, PartialEq, Eq, Structural)]
pub struct Blinker {
    pub status: Status,
    pub phase: Phase,
}

/// What a look for a message leads to. A message takes priority: it is blinked once.
pub open spec fn message_result(blinker: Blinker, message: Option<Seq<char>>) -> (
    Blinker,
    Seq<LedStep>,
) {
    match message {
        Some(msg) => (Blinker { phase: Phase::AfterMessage, ..blinker }, message_steps(msg)),
        None => (Blinker { phase: Phase::Word, ..blinker }, seq![]),
    }
}

/// The letters of the word that a status is blinked as.
pub open spec fn status_letters(status: Status) -> Seq<Seq<char>> {
    letters_of(status_word(status))
}

/// What a look for a status leads to.
pub open spec fn poll_result(blinker: Blinker, polled: Option<Status>) -> (
    Blinker,
    Seq<LedStep>,
) {
    let status = match polled {
        Some(s) => s,
        None => blinker.status,
    };
    match blinker.phase {
        Phase::Message | Phase::AfterMessage => (Blinker { status, phase: Phase::Message }, seq![]),
        Phase::Word => (Blinker { status, phase: Phase::Letter(0) }, seq![LedStep::Led(false)]),
        Phase::Letter(k) => if status != blinker.status {
            // The status changed within the word: start over with the new one.
            (Blinker { status, phase: Phase::Message }, seq![])
        } else if k + 1 < status_letters(status).len() {
            (
                Blinker { status, phase: Phase::Letter((k + 1) as usize) },
                letter_steps(status_letters(status)[k as int]) + led_steps(false, 3),
            )
        } else {
            (
                Blinker { status, phase: Phase::Message },
                letter_steps(status_letters(status)[k as int]) + led_steps(false, 7),
            )
        },
    }
}

impl Blinker {
    /// Whether the next letter is one of the current word's.
    pub open spec fn well_formed(self) -> bool {
        match self.phase {
            Phase::Letter(k) => k < status_letters(self.status).len(),
            _ => true,
        }
    }

    /// The blinker at start-up.
    pub fn new() -> (blinker: Blinker)
        ensures
            blinker == (Blinker { status: Status::Portal, phase: Phase::Message }),
            blinker.well_formed(),
    {
        Blinker { status: Status::Portal, phase: Phase::Message }
    }

    /// Go on after a look for a message. Returns the steps to carry out.
    pub fn on_message(&mut self, message: Option<&str>) -> (steps: Vec<LedStep>)
        requires
            old(self).phase is Message,
        ensures
            (*final(self), steps@) == message_result(
                *old(self),
                match message {
                    Some(msg) => Some(msg@),
                    None => None,
                },
            ),
            final(self).well_formed(),
    {
        match message {
            Some(msg) => {
                self.phase = Phase::AfterMessage;
                blink_message(msg)
            },
            None => {
                self.phase = Phase::Word;
                Vec::new()
            },
        }
    }

    /// Go on after a look for a status. Returns the steps to carry out.
    pub fn on_poll(&mut self, polled: Option<Status>) -> (steps: Vec<LedStep>)
        requires
            !(old(self).phase is Message),
            old(self).well_formed(),
        ensures
            (*final(self), steps@) == poll_result(*old(self), polled),
            final(self).well_formed(),
    {
        let mut steps: Vec<LedStep> = Vec::new();
        let status: Status = match polled {
            Some(s) => s,
            None => self.status,
        };
        let current: Status = self.status;
        self.status = status;
        match self.phase {
            Phase::Message | Phase::AfterMessage => {
                self.phase = Phase::Message;
            },
            Phase::Word => {
                proof {
                    lemma_some_letter(status_word(status));
                }
                steps.push(LedStep::Led(false));
                self.phase = Phase::Letter(0);
            },
            Phase::Letter(k) => {
                if status != current {
                    self.phase = Phase::Message;
                } else {
                    let list: Vec<&str> = letters(word_for(status));
                    assert(texts(list@) == status_letters(status));
                    assert(list@.len() == status_letters(status).len());
                    assert(texts(list@)[k as int] == list@[k as int]@);
                    blink_letter(&mut steps, list[k]);
                    if k + 1 < list.len() {
                        led_for(&mut steps, false, 3);
                        self.phase = Phase::Letter(k + 1);
                    } else {
                        led_for(&mut steps, false, 7);
                        self.phase = Phase::Message;
                    }
                }
            },
        }
        assert(steps@ =~= poll_result(*old(self), polled).1);
        steps
    }
}

/// Every word has a letter.
proof fn lemma_some_letter(word: Seq<char>)
    ensures
        letters_of(word).len() > 0,
    decreases word.len(),
{
    if word.len() > 0 {
        lemma_some_letter(word.drop_last());
    }
}

// ---- laws ----

/// The codes of the characters of `t`, separated by spaces.
pub open spec fn spelled(t: Seq<char>) -> Seq<char>
    decreases t.len(),
{
    if t.len() == 0 {
        seq![]
    } else if t.len() == 1 {
        code_of(t[0])->0
    } else {
        spelled(t.drop_last()) + seq![' '] + code_of(t.last())->0
    }
}

/// What each status is spelled as.
pub open spec fn status_name(status: Status) -> Seq<char> {
    match status {
        Status::Portal => seq!['A', 'P'],
        Status::Scanning => seq!['S'],
        Status::Connecting => seq!['C'],
        Status::Connected => seq!['O', 'K'],
        Status::Failed => seq!['E', 'R', 'R'],
    }
}

/// The status words spell `AP`, `S`, `C`, `OK` and `ERR`.
pub proof fn law_status_words_spell(status: Status)
    ensures
        status_word(status) == spelled(status_name(status)),
{
    reveal_with_fuel(spelled, 3);
    reveal_strlit(".- .--.");
    reveal_strlit(".-");
    reveal_strlit(".--.");
    reveal_strlit("...");
    reveal_strlit("-.-.");
    reveal_strlit("--- -.-");
    reveal_strlit("---");
    reveal_strlit("-.-");
    reveal_strlit(". .-. .-.");
    reveal_strlit(".");
    reveal_strlit(".-.");
    let name = status_name(status);
    if name.len() > 1 {
        assert(name.drop_last().len() > 0);
        if name.len() > 2 {
            assert(name.drop_last() =~= seq!['E', 'R']);
            assert(seq!['E', 'R'].drop_last() =~= seq!['E']);
        }
    }
    assert(status_word(status) =~= spelled(name));
}

/// Letters are case-insensitive.
pub proof fn law_case_does_not_matter(c: char)
    requires
        'a' <= c <= 'z',
    ensures
        code_of(c) == code_of((c as u8 - 32) as char),
        code_of(c) is Some,
{
}

/// Whether `code` consists of dots and dashes.
pub open spec fn is_code(code: Seq<char>) -> bool {
    forall|i: int| 0 <= i < code.len() ==> is_symbol(#[trigger] code[i])
}

/// One for a dash at index `i`, else zero.
spec fn dash(code: Seq<char>, i: int) -> int {
    if i < code.len() && code[i] == '-' {
        1
    } else {
        0
    }
}

/// A number for a code of up to six symbols, by which codes are told apart.
spec fn code_number(code: Seq<char>) -> int {
    code.len() * 64 + dash(code, 0) * 32 + dash(code, 1) * 16 + dash(code, 2) * 8 + dash(code, 3)
        * 4 + dash(code, 4) * 2 + dash(code, 5)
}

/// The number of the code of a capital letter, digit or mark.
spec fn number_of(c: char) -> int {
    match c {
        'A' => 144,
        'B' => 288,
        'C' => 296,
        'D' => 224,
        'E' => 64,
        'F' => 264,
        'G' => 240,
        'H' => 256,
        'I' => 128,
        'J' => 284,
        'K' => 232,
        'L' => 272,
        'M' => 176,
        'N' => 160,
        'O' => 248,
        'P' => 280,
        'Q' => 308,
        'R' => 208,
        'S' => 192,
        'T' => 96,
        'U' => 200,
        'V' => 260,
        'W' => 216,
        'X' => 292,
        'Y' => 300,
        'Z' => 304,
        '0' => 382,
        '1' => 350,
        '2' => 334,
        '3' => 326,
        '4' => 322,
        '5' => 320,
        '6' => 352,
        '7' => 368,
        '8' => 376,
        '9' => 380,
        '.' => 405,
        ',' => 435,
        '?' => 396,
        '\'' => 414,
        '!' => 427,
        '/' => 356,
        '(' => 364,
        ')' => 429,
        '&' => 336,
        ':' => 440,
        ';' => 426,
        '=' => 354,
        '+' => 340,
        '-' => 417,
        '_' => 397,
        '"' => 402,
        '@' => 410,
        _ => 0,
    }
}

/// What the code of a character consists of, and its number.
proof fn lemma_code(c: char)
    requires
        code_of(c) is Some,
    ensures
        code_number(code_of(c)->0) == number_of(upper(c)),
        1 <= (code_of(c)->0).len() <= 6,
        is_code(code_of(c)->0),
{
    reveal_strlit(".-");
    reveal_strlit("-...");
    reveal_strlit("-.-.");
    reveal_strlit("-..");
    reveal_strlit(".");
    reveal_strlit("..-.");
    reveal_strlit("--.");
    reveal_strlit("....");
    reveal_strlit("..");
    reveal_strlit(".---");
    reveal_strlit("-.-");
    reveal_strlit(".-..");
    reveal_strlit("--");
    reveal_strlit("-.");
    reveal_strlit("---");
    reveal_strlit(".--.");
    reveal_strlit("--.-");
    reveal_strlit(".-.");
    reveal_strlit("...");
    reveal_strlit("-");
    reveal_strlit("..-");
    reveal_strlit("...-");
    reveal_strlit(".--");
    reveal_strlit("-..-");
    reveal_strlit("-.--");
    reveal_strlit("--..");
    reveal_strlit("-----");
    reveal_strlit(".----");
    reveal_strlit("..---");
    reveal_strlit("...--");
    reveal_strlit("....-");
    reveal_strlit(".....");
    reveal_strlit("-....");
    reveal_strlit("--...");
    reveal_strlit("---..");
    reveal_strlit("----.");
    reveal_strlit(".-.-.-");
    reveal_strlit("--..--");
    reveal_strlit("..--..");
    reveal_strlit(".----.");
    reveal_strlit("-.-.--");
    reveal_strlit("-..-.");
    reveal_strlit("-.--.");
    reveal_strlit("-.--.-");
    reveal_strlit(".-...");
    reveal_strlit("---...");
    reveal_strlit("-.-.-.");
    reveal_strlit("-...-");
    reveal_strlit(".-.-.");
    reveal_strlit("-....-");
    reveal_strlit("..--.-");
    reveal_strlit(".-..-.");
    reveal_strlit(".--.-.");
}

/// Two characters have the same code only if they differ in case at most.
pub proof fn law_codes_are_distinct(a: char, b: char)
    requires
        code_of(a) is Some,
        code_of(a) == code_of(b),
    ensures
        upper(a) == upper(b),
{
    lemma_code(a);
    lemma_code(b);
}

/// A code consists of dots and dashes, and of one to six of them.
pub proof fn law_codes_are_dots_and_dashes(c: char)
    requires
        code_of(c) is Some,
    ensures
        1 <= (code_of(c)->0).len() <= 6,
        is_code(code_of(c)->0),
{
    lemma_code(c);
}

/// How many steps the symbols of a letter take.
proof fn lemma_symbols_len(code: Seq<char>)
    requires
        is_code(code),
    ensures
        code.len() == 0 ==> symbols_steps(code).len() == 0,
        code.len() > 0 ==> symbols_steps(code).len() == 4 * code.len() - 2,
    decreases code.len(),
{
    if code.len() > 1 {
        lemma_symbols_len(code.drop_last());
        assert(code[code.len() - 1] == code.last());
    }
}

/// Different codes are blinked differently.
proof fn lemma_symbols_differ(a: Seq<char>, b: Seq<char>)
    requires
        is_code(a),
        is_code(b),
        symbols_steps(a) == symbols_steps(b),
    ensures
        a == b,
    decreases a.len(),
{
    lemma_symbols_len(a);
    lemma_symbols_len(b);
    assert(a.len() == b.len());
    if a.len() > 0 {
        assert(a[a.len() - 1] == a.last() && b[b.len() - 1] == b.last());
        assert(symbols_steps(a).last() == symbol_steps(a.last()).last());
        assert(symbols_steps(b).last() == symbol_steps(b.last()).last());
        assert(a.last() == b.last());
        if a.len() > 1 {
            lemma_symbols_len(a.drop_last());
            lemma_symbols_len(b.drop_last());
            let n = symbols_steps(a).len() - 4;
            assert(symbols_steps(a).subrange(0, n) =~= symbols_steps(a.drop_last()));
            assert(symbols_steps(b).subrange(0, n) =~= symbols_steps(b.drop_last()));
            lemma_symbols_differ(a.drop_last(), b.drop_last());
        }
        assert(a =~= a.drop_last().push(a.last()));
        assert(b =~= b.drop_last().push(b.last()));
    }
}

/// Two characters are blinked alike only if they differ in case at most: what is blinked
/// can be read back.
pub proof fn law_letters_are_told_apart(a: char, b: char)
    requires
        code_of(a) is Some,
        code_of(b) is Some,
        letter_steps(code_of(a)->0) == letter_steps(code_of(b)->0),
    ensures
        upper(a) == upper(b),
{
    let x = code_of(a)->0;
    let y = code_of(b)->0;
    lemma_code(a);
    lemma_code(b);
    assert(is_symbol(x[x.len() - 1]) && is_symbol(y[y.len() - 1]));
    assert(letter_steps(x).drop_last() =~= symbols_steps(x));
    assert(letter_steps(y).drop_last() =~= symbols_steps(y));
    lemma_symbols_differ(x, y);
    law_codes_are_distinct(a, b);
}

/// Characters without a code are skipped: a message blinks as it does without them.
pub proof fn law_unsupported_characters_are_skipped(before: Seq<char>, c: char, behind: Seq<char>)
    requires
        c != ' ',
        code_of(c) is None,
    ensures
        message_steps(before.push(c) + behind) == message_steps(before + behind),
{
    lemma_skipped(before, c, behind);
}

/// A character without a code adds nothing.
proof fn lemma_skipped(before: Seq<char>, c: char, behind: Seq<char>)
    requires
        c != ' ',
        code_of(c) is None,
    ensures
        chars_steps(before.push(c) + behind) == chars_steps(before + behind),
        after_letter(before.push(c) + behind) == after_letter(before + behind),
    decreases behind.len(),
{
    let with = before.push(c) + behind;
    let without = before + behind;
    if behind.len() == 0 {
        assert(with =~= before.push(c));
        assert(with.drop_last() =~= before);
        assert(without =~= before);
        assert(chars_steps(with) =~= chars_steps(before));
    } else {
        lemma_skipped(before, c, behind.drop_last());
        assert(with.drop_last() =~= before.push(c) + behind.drop_last());
        assert(without.drop_last() =~= before + behind.drop_last());
    }
}

/// Whether the LED is on after some steps, if it was in state `on` before.
pub open spec fn led_after(on: bool, steps: Seq<LedStep>) -> bool
    decreases steps.len(),
{
    if steps.len() == 0 {
        on
    } else {
        match steps.last() {
            LedStep::Led(state) => state,
            LedStep::Wait(_) => led_after(on, steps.drop_last()),
        }
    }
}

/// Whatever is blinked, the LED is off afterwards: after a message, after every turn of
/// the blinker that blinks at all, and after a letter if it was off before it.
pub proof fn law_led_is_off_afterwards(
    on: bool,
    code: Seq<char>,
    msg: Seq<char>,
    blinker: Blinker,
    polled: Option<Status>,
)
    ensures
        !led_after(false, letter_steps(code)),
        !led_after(on, message_steps(msg)),
        poll_result(blinker, polled).1.len() > 0 ==> !led_after(
            on,
            poll_result(blinker, polled).1,
        ),
{
    lemma_letter_leaves_off(code);
    reveal_with_fuel(led_after, 2);
    let whole = message_steps(msg);
    assert(whole.last() == LedStep::Wait(3));
    assert(whole.drop_last().last() == LedStep::Led(false));
    let turn = poll_result(blinker, polled).1;
    if turn.len() > 1 {
        assert(turn.last() is Wait);
        assert(turn.drop_last().last() == LedStep::Led(false));
    }
}

/// A letter leaves the LED off.
proof fn lemma_letter_leaves_off(code: Seq<char>)
    ensures
        !led_after(false, letter_steps(code)),
{
    reveal_with_fuel(led_after, 3);
    let steps = letter_steps(code);
    if code.len() > 1 && !is_symbol(code.last()) {
        assert(steps.last() == LedStep::Wait(1));
        assert(steps.drop_last().last() == LedStep::Led(false));
    }
}

/// What the blinker does from letter `k` of its word on while nothing changes.
pub open spec fn undisturbed(status: Status, k: int) -> Seq<LedStep>
    decreases status_letters(status).len() - k,
{
    let (next, steps) = poll_result(
        Blinker { status, phase: Phase::Letter(k as usize) },
        None,
    );
    match next.phase {
        Phase::Letter(n) if n == k + 1 && n < status_letters(status).len() => steps + undisturbed(
            status,
            k + 1,
        ),
        _ => steps,
    }
}

/// A word from letter `k` on: its letters with gaps between them, and a longer gap at
/// the end.
pub open spec fn word_steps(letters: Seq<Seq<char>>, k: int) -> Seq<LedStep>
    decreases letters.len() - k,
{
    if k + 1 < letters.len() {
        letter_steps(letters[k]) + led_steps(false, 3) + word_steps(letters, k + 1)
    } else {
        letter_steps(letters[k]) + led_steps(false, 7)
    }
}

/// While neither a message nor a new status arrives, a round of the blinker blinks
/// every letter of the status word in order and ends where it began.
pub proof fn law_undisturbed_round_blinks_the_word(status: Status)
    ensures
        ({
            let start = Blinker { status, phase: Phase::Message };
            let at_word = message_result(start, None).0;
            let at_first = poll_result(at_word, None).0;
            &&& at_first == Blinker { status, phase: Phase::Letter(0) }
            &&& undisturbed(status, 0) == word_steps(status_letters(status), 0)
            &&& status_letters(status).len() <= usize::MAX
            &&& poll_result(
                Blinker {
                    status,
                    phase: Phase::Letter((status_letters(status).len() - 1) as usize),
                },
                None,
            ).0 == start
        }),
{
    lemma_some_letter(status_word(status));
    lemma_letter_count(status_word(status));
    reveal_strlit(".- .--.");
    reveal_strlit("...");
    reveal_strlit("-.-.");
    reveal_strlit("--- -.-");
    reveal_strlit(". .-. .-.");
    lemma_undisturbed(status, 0);
}

/// A word has at most one letter more than it has characters.
proof fn lemma_letter_count(word: Seq<char>)
    ensures
        letters_of(word).len() <= word.len() + 1,
    decreases word.len(),
{
    if word.len() > 0 {
        lemma_letter_count(word.drop_last());
        lemma_some_letter(word.drop_last());
    }
}

/// From letter `k` on, the rest of the word is blinked.
proof fn lemma_undisturbed(status: Status, k: int)
    requires
        0 <= k < status_letters(status).len() <= 10,
    ensures
        undisturbed(status, k) == word_steps(status_letters(status), k),
    decreases status_letters(status).len() - k,
{
    if k + 1 < status_letters(status).len() {
        lemma_undisturbed(status, k + 1);
    }
}

/// A status that arrives within a word ends the word at once, and is the one that is
/// blinked from then on.
pub proof fn law_new_status_takes_over(blinker: Blinker, new: Status)
    requires
        !(blinker.phase is Message),
    ensures
        poll_result(blinker, Some(new)).0.status == new,
        blinker.phase is Letter && new != blinker.status ==> poll_result(blinker, Some(new)) == (
            Blinker { status: new, phase: Phase::Message },
            Seq::<LedStep>::empty(),
        ),
{
}

/// A message is blinked once, whatever the status; the status word then resumes.
pub proof fn law_message_is_blinked_once(status: Status, msg: Seq<char>)
    ensures
        ({
            let start = Blinker { status, phase: Phase::Message };
            let (blinked, steps) = message_result(start, Some(msg));
            &&& steps == message_steps(msg)
            &&& poll_result(blinked, None) == (start, Seq::<LedStep>::empty())
        }),
{
}

// ---- what can be seen of the LED ----

/// The LED in one state for `n` units.
pub open spec fn units(on: bool, n: nat) -> Seq<bool> {
    Seq::new(n, |i: int| on)
}

/// What can be seen of some steps: the state of the LED, unit by unit.
pub open spec fn signal(on: bool, steps: Seq<LedStep>) -> Seq<bool>
    decreases steps.len(),
{
    if steps.len() == 0 {
        seq![]
    } else {
        let earlier = signal(on, steps.drop_last());
        match steps.last() {
            LedStep::Led(_) => earlier,
            LedStep::Wait(n) => earlier + units(led_after(on, steps.drop_last()), n as nat),
        }
    }
}

/// Morse timing of a letter: a dot is one unit long, a dash three, and the gap between
/// them one.
pub open spec fn code_signal(code: Seq<char>) -> Seq<bool>
    decreases code.len(),
{
    if code.len() == 0 {
        seq![]
    } else {
        let own = units(
            true,
            if code.last() == '-' {
                3
            } else {
                1
            },
        );
        if code.len() == 1 {
            own
        } else {
            code_signal(code.drop_last()) + units(false, 1) + own
        }
    }
}

/// Morse timing of a word: three units between its letters.
pub open spec fn letters_signal(codes: Seq<Seq<char>>) -> Seq<bool>
    decreases codes.len(),
{
    if codes.len() == 0 {
        seq![]
    } else if codes.len() == 1 {
        code_signal(codes[0])
    } else {
        letters_signal(codes.drop_last()) + units(false, 3) + code_signal(codes.last())
    }
}

/// The codes of a word: those of its characters that have one.
pub open spec fn letter_codes(word: Seq<char>) -> Seq<Seq<char>>
    decreases word.len(),
{
    if word.len() == 0 {
        seq![]
    } else {
        let earlier = letter_codes(word.drop_last());
        match code_of(word.last()) {
            Some(code) => earlier.push(code),
            None => earlier,
        }
    }
}

/// Where the last word of a text starts: behind its last space.
pub open spec fn last_word(text: Seq<char>) -> int
    decreases text.len(),
{
    if text.len() == 0 || text.last() == ' ' {
        text.len() as int
    } else {
        last_word(text.drop_last())
    }
}

/// Morse timing of a text: seven units for every space between its words.
pub open spec fn text_signal(text: Seq<char>) -> Seq<bool>
    decreases text.len(),
{
    proof {
        lemma_last_word(text);
    }
    let start = last_word(text);
    if start <= 0 || start > text.len() {
        letters_signal(letter_codes(text))
    } else {
        text_signal(text.take(start - 1)) + units(false, 7) + letters_signal(
            letter_codes(text.skip(start)),
        )
    }
}

/// Where the last word can start.
pub proof fn lemma_last_word(text: Seq<char>)
    ensures
        0 <= last_word(text) <= text.len(),
        last_word(text) > 0 ==> text[last_word(text) - 1] == ' ',
        forall|i: int| last_word(text) <= i < text.len() ==> #[trigger] text[i] != ' ',
    decreases text.len(),
{
    if text.len() > 0 && text.last() != ' ' {
        lemma_last_word(text.drop_last());
        let start = last_word(text);
        assert(start > 0 ==> text.drop_last()[start - 1] == text[start - 1]);
        assert forall|i: int| start <= i < text.len() implies #[trigger] text[i] != ' ' by {
            if i < text.len() - 1 {
                assert(text[i] == text.drop_last()[i]);
            }
        }
    }
}

/// What is seen of two runs of steps is seen of each.
proof fn lemma_signal_on(on: bool, p: Seq<LedStep>, q: Seq<LedStep>)
    ensures
        led_after(on, p + q) == led_after(led_after(on, p), q),
        signal(on, p + q) == signal(on, p) + signal(led_after(on, p), q),
    decreases q.len(),
{
    if q.len() == 0 {
        assert(p + q =~= p);
        assert(signal(on, p) + signal(led_after(on, p), q) =~= signal(on, p));
    } else {
        lemma_signal_on(on, p, q.drop_last());
        assert((p + q).drop_last() =~= p + q.drop_last());
        assert(signal(on, p + q) =~= signal(on, p) + signal(led_after(on, p), q));
    }
}

/// What is seen of the LED in one state for some units.
proof fn lemma_led_signal(on: bool, state: bool, n: u32)
    ensures
        signal(on, led_steps(state, n)) == units(state, n as nat),
        led_after(on, led_steps(state, n)) == state,
{
    reveal_with_fuel(signal, 3);
    reveal_with_fuel(led_after, 3);
    let steps = led_steps(state, n);
    assert(steps.drop_last() =~= seq![LedStep::Led(state)]);
    assert(steps.drop_last().drop_last() =~= seq![]);
    assert(signal(on, steps) =~= units(state, n as nat));
}

/// What is seen of the symbols of a letter.
proof fn lemma_symbols_signal(code: Seq<char>)
    requires
        is_code(code),
    ensures
        signal(false, symbols_steps(code)) == code_signal(code),
        led_after(false, symbols_steps(code)) == (code.len() > 0),
    decreases code.len(),
{
    if code.len() == 0 {
        assert(signal(false, symbols_steps(code)) =~= seq![]);
    } else {
        let c = code.last();
        assert(is_symbol(code[code.len() - 1]));
        let n: u32 = if c == '-' {
            3
        } else {
            1
        };
        assert(symbol_steps(c) == led_steps(true, n));
        if code.len() == 1 {
            lemma_led_signal(false, true, n);
            assert(code[0] == c);
        } else {
            let front = code.drop_last();
            let earlier = symbols_steps(front);
            let gap = led_steps(false, 1);
            lemma_symbols_signal(front);
            lemma_led_signal(true, false, 1);
            lemma_led_signal(false, true, n);
            lemma_signal_on(false, earlier, gap);
            lemma_signal_on(false, earlier + gap, led_steps(true, n));
        }
    }
}

/// Every letter is sent with its timing, and leaves the LED off; nothing is sent for an
/// empty code.
pub proof fn law_letter_is_sent_in_morse(code: Seq<char>)
    requires
        is_code(code),
    ensures
        signal(false, letter_steps(code)) == code_signal(code),
        !led_after(false, letter_steps(code)),
        code.len() == 0 ==> letter_steps(code) == Seq::<LedStep>::empty(),
{
    lemma_symbols_signal(code);
    if code.len() > 0 {
        assert(is_symbol(code[code.len() - 1]));
        assert(letter_steps(code).drop_last() =~= symbols_steps(code));
    }
}

/// Whether a letter precedes the end of a text shows in its last word.
proof fn lemma_after_letter(text: Seq<char>)
    ensures
        after_letter(text) == (letter_codes(text.skip(last_word(text))).len() > 0),
    decreases text.len(),
{
    lemma_last_word(text);
    let start = last_word(text);
    if text.len() > 0 && text.last() != ' ' {
        let front = text.drop_last();
        lemma_last_word(front);
        lemma_after_letter(front);
        assert(text.skip(start).drop_last() =~= front.skip(start));
        assert(text.skip(start).last() == text.last());
    }
}

/// What is seen of the characters of a message.
proof fn lemma_chars_signal(msg: Seq<char>)
    ensures
        signal(false, chars_steps(msg)) == text_signal(msg),
        !led_after(false, chars_steps(msg)),
    decreases msg.len(),
{
    lemma_last_word(msg);
    if msg.len() == 0 {
        assert(signal(false, chars_steps(msg)) =~= text_signal(msg));
    } else {
        let front = msg.drop_last();
        let c = msg.last();
        let own = char_steps(front, c);
        let start = last_word(front);
        lemma_last_word(front);
        lemma_chars_signal(front);
        lemma_after_letter(front);
        lemma_signal_on(false, chars_steps(front), own);
        let word = front.skip(start);
        if c == ' ' {
            lemma_led_signal(false, false, 7);
            assert(msg.take(msg.len() - 1) =~= front);
            assert(msg.skip(msg.len() as int) =~= seq![]);
            assert(text_signal(msg) =~= text_signal(front) + units(false, 7));
        } else {
            assert(last_word(msg) == start);
            assert(msg.skip(start).drop_last() =~= word);
            assert(msg.skip(start).last() == c);
            if start > 0 {
                assert(msg.take(start - 1) =~= front.take(start - 1));
            } else {
                assert(msg.skip(0) =~= msg);
                assert(front.skip(0) =~= front);
            }
            match code_of(c) {
                Some(code) => {
                    lemma_code(c);
                    law_letter_is_sent_in_morse(code);
                    let codes = letter_codes(word);
                    assert(codes.push(code).drop_last() =~= codes);
                    if after_letter(front) {
                        lemma_led_signal(false, false, 3);
                        lemma_signal_on(false, led_steps(false, 3), letter_steps(code));
                        assert(text_signal(msg) =~= text_signal(front) + (units(false, 3)
                            + code_signal(code)));
                    } else {
                        assert(text_signal(msg) =~= text_signal(front) + code_signal(code));
                    }
                },
                None => {
                    assert(signal(false, own) =~= seq![]);
                    assert(text_signal(msg) =~= text_signal(front));
                },
            }
        }
    }
}

/// A message is sent in Morse code with its timing, whatever it says: dots of one unit and
/// dashes of three with one unit between them, three units between letters, seven for
/// every space, and three units of silence before and behind it all.
pub proof fn law_message_is_sent_in_morse(on: bool, msg: Seq<char>)
    ensures
        signal(on, message_steps(msg)) == units(false, 3) + text_signal(msg) + units(false, 3),
        !led_after(on, message_steps(msg)),
{
    let gap = led_steps(false, 3);
    lemma_led_signal(on, false, 3);
    lemma_led_signal(false, false, 3);
    lemma_chars_signal(msg);
    lemma_signal_on(on, gap, chars_steps(msg));
    lemma_signal_on(on, gap + chars_steps(msg), gap);
}

/// Two characters with codes that follow each other are three units apart, and two that a
/// space separates are seven apart, wherever they stand in a message.
pub proof fn law_letters_are_three_units_apart(before: Seq<char>, a: char, b: char)
    requires
        code_of(a) is Some,
        code_of(b) is Some,
        a != ' ',
        b != ' ',
    ensures
        ({
            let first = signal(false, chars_steps(before.push(a)));
            let own = code_signal(code_of(b)->0);
            &&& signal(false, chars_steps(before.push(a).push(b))) == first + units(false, 3) + own
            &&& signal(false, chars_steps(before.push(a).push(' ').push(b))) == first + units(
                false,
                7,
            ) + own
        }),
{
    let first = before.push(a);
    let code = code_of(b)->0;
    lemma_code(b);
    law_letter_is_sent_in_morse(code);
    lemma_led_signal(false, false, 3);
    lemma_led_signal(false, false, 7);
    assert(first.last() == a);
    // Directly behind it.
    let both = first.push(b);
    assert(both.drop_last() =~= first);
    lemma_chars_signal(first);
    lemma_chars_signal(both);
    lemma_signal_on(false, led_steps(false, 3), letter_steps(code));
    lemma_signal_on(false, chars_steps(first), char_steps(first, b));
    assert(text_signal(both) =~= text_signal(first) + units(false, 3) + code_signal(code));
    // Behind a space.
    let spaced = first.push(' ');
    let all = spaced.push(b);
    assert(spaced.drop_last() =~= first);
    assert(all.drop_last() =~= spaced);
    lemma_chars_signal(spaced);
    lemma_chars_signal(all);
    lemma_signal_on(false, chars_steps(first), char_steps(first, ' '));
    lemma_signal_on(false, chars_steps(spaced), char_steps(spaced, b));
    assert(!after_letter(spaced));
    assert(text_signal(all) =~= text_signal(first) + units(false, 7) + code_signal(code));
}

/// A word is split at its spaces: what follows the last one is its last letter, and a word
/// without spaces is a letter of its own.
pub proof fn law_letters_are_split_at_spaces(word: Seq<char>, letter: Seq<char>)
    requires
        forall|i: int| 0 <= i < letter.len() ==> #[trigger] letter[i] != ' ',
    ensures
        letters_of(letter) == seq![letter],
        letters_of(word + seq![' '] + letter) == letters_of(word).push(letter),
    decreases letter.len(),
{
    let whole = word + seq![' '] + letter;
    if letter.len() == 0 {
        assert(whole.drop_last() =~= word);
        assert(whole.last() == ' ');
        assert(letter =~= seq![]);
    } else {
        let front = letter.drop_last();
        assert(letter[letter.len() - 1] != ' ');
        assert(whole.drop_last() =~= word + seq![' '] + front);
        assert(whole.last() == letter.last());
        law_letters_are_split_at_spaces(word, front);
        assert(front.push(letter.last()) =~= letter);
        assert(letters_of(word).push(front).drop_last() =~= letters_of(word));
        assert(seq![front].drop_last() =~= seq![]);
        assert(letters_of(letter) =~= seq![letter]);
    }
}

/// The letters of what is spelled are the codes of its characters.
proof fn lemma_spelled_letters(name: Seq<char>)
    requires
        name.len() > 0,
        forall|i: int| 0 <= i < name.len() ==> code_of(#[trigger] name[i]) is Some,
    ensures
        letters_of(spelled(name)) == letter_codes(name),
        letter_codes(name).len() == name.len(),
        forall|i: int| 0 <= i < name.len() ==> is_code(#[trigger] letter_codes(name)[i]),
    decreases name.len(),
{
    let c = name.last();
    assert(code_of(name[name.len() - 1]) is Some);
    lemma_code(c);
    let code = code_of(c)->0;
    let front = name.drop_last();
    assert forall|i: int| 0 <= i < code.len() implies #[trigger] code[i] != ' ' by {
        assert(is_symbol(code[i]));
    }
    law_letters_are_split_at_spaces(spelled(front), code);
    if name.len() == 1 {
        assert(front =~= seq![]);
        assert(letter_codes(seq![]) =~= seq![]);
        assert(letter_codes(name) =~= seq![code]);
    } else {
        assert forall|i: int| 0 <= i < front.len() implies code_of(#[trigger] front[i]) is Some by {
            assert(front[i] == name[i]);
        }
        lemma_spelled_letters(front);
        assert forall|i: int| 0 <= i < name.len() implies is_code(
            #[trigger] letter_codes(name)[i],
        ) by {
            if i < front.len() {
                assert(letter_codes(name)[i] == letter_codes(front)[i]);
            }
        }
    }
}

/// The first letter of a word and the others.
proof fn lemma_letters_front(codes: Seq<Seq<char>>)
    requires
        codes.len() > 1,
    ensures
        letters_signal(codes) == code_signal(codes[0]) + units(false, 3) + letters_signal(
            codes.drop_first(),
        ),
    decreases codes.len(),
{
    let rest = codes.drop_first();
    assert(codes.last() == rest.last());
    if codes.len() == 2 {
        reveal_with_fuel(letters_signal, 2);
        assert(codes.drop_last().len() == 1);
        assert(codes.drop_last()[0] == codes[0]);
        assert(rest[0] == codes[1]);
    } else {
        lemma_letters_front(codes.drop_last());
        assert(codes.drop_last().drop_first() =~= rest.drop_last());
        assert(codes.drop_last()[0] == codes[0]);
        assert(letters_signal(codes) =~= code_signal(codes[0]) + units(false, 3)
            + letters_signal(rest));
    }
}

/// What is seen of a word from letter `k` on.
proof fn lemma_word_signal(letters: Seq<Seq<char>>, k: int)
    requires
        0 <= k < letters.len(),
        forall|i: int| 0 <= i < letters.len() ==> is_code(#[trigger] letters[i]),
    ensures
        signal(false, word_steps(letters, k)) == letters_signal(letters.skip(k)) + units(false, 7),
        !led_after(false, word_steps(letters, k)),
    decreases letters.len() - k,
{
    let own = letter_steps(letters[k]);
    let left = letters.skip(k);
    assert(is_code(letters[k]));
    assert(left[0] == letters[k]);
    law_letter_is_sent_in_morse(letters[k]);
    lemma_led_signal(false, false, 3);
    lemma_led_signal(false, false, 7);
    if k + 1 < letters.len() {
        let rest = word_steps(letters, k + 1);
        lemma_word_signal(letters, k + 1);
        lemma_signal_on(false, own, led_steps(false, 3));
        lemma_signal_on(false, own + led_steps(false, 3), rest);
        lemma_letters_front(left);
        assert(left.drop_first() =~= letters.skip(k + 1));
        assert(signal(false, word_steps(letters, k)) =~= letters_signal(left) + units(false, 7));
    } else {
        lemma_signal_on(false, own, led_steps(false, 7));
    }
}

/// The status word is sent in Morse code with its timing: an undisturbed round of the
/// blinker sends the name of the status as a message would be sent, and seven units of
/// silence behind it.
pub proof fn law_status_is_sent_in_morse(on: bool, status: Status)
    ensures
        signal(on, seq![LedStep::Led(false)] + undisturbed(status, 0)) == text_signal(
            status_name(status),
        ) + units(false, 7),
{
    let name = status_name(status);
    law_undisturbed_round_blinks_the_word(status);
    law_status_words_spell(status);
    assert forall|i: int| 0 <= i < name.len() implies code_of(#[trigger] name[i]) is Some by {}
    lemma_spelled_letters(name);
    let letters = status_letters(status);
    lemma_word_signal(letters, 0);
    assert(letters.skip(0) =~= letters);
    let off = seq![LedStep::Led(false)];
    reveal_with_fuel(signal, 2);
    reveal_with_fuel(led_after, 2);
    assert(off.drop_last() =~= seq![]);
    lemma_signal_on(on, off, undisturbed(status, 0));
    assert(signal(on, off) =~= seq![]);
    lemma_last_word(name);
    assert(last_word(name) == 0) by {
        if last_word(name) > 0 {
            assert(name[last_word(name) - 1] == ' ');
        }
    }
    assert(signal(on, off + undisturbed(status, 0)) =~= text_signal(name) + units(false, 7));
}

/// The same status again is no news: it changes neither the word nor its steps.
pub proof fn law_same_status_is_no_news(blinker: Blinker)
    ensures
        poll_result(blinker, Some(blinker.status)) == poll_result(blinker, None),
{
}

/// A status that arrives outside a word is taken over, and the round goes on: to the word
/// before it, and to the next message behind a message.
pub proof fn law_round_goes_on(blinker: Blinker, polled: Option<Status>)
    ensures
        ({
            let status = match polled {
                Some(new) => new,
                None => blinker.status,
            };
            &&& blinker.phase is AfterMessage ==> poll_result(blinker, polled) == (
                Blinker { status, phase: Phase::Message },
                Seq::<LedStep>::empty(),
            )
            &&& blinker.phase is Word ==> poll_result(blinker, polled) == (
                Blinker { status, phase: Phase::Letter(0) },
                seq![LedStep::Led(false)],
            )
            &&& message_result(blinker, None) == (
                Blinker { status: blinker.status, phase: Phase::Word },
                Seq::<LedStep>::empty(),
            )
        }),
{
}

/// Which characters can be sent: the letters in both cases, the digits, and these marks.
/// No other character has a code.
pub proof fn law_supported_characters(c: char)
    ensures
        code_of(c) is Some <==> {
            ||| 'A' <= c <= 'Z'
            ||| 'a' <= c <= 'z'
            ||| '0' <= c <= '9'
            ||| c == '.' || c == ',' || c == '?' || c == '\'' || c == '!' || c == '/' || c == '('
            ||| c == ')' || c == '&' || c == ':' || c == ';' || c == '=' || c == '+' || c == '-'
            ||| c == '_' || c == '"' || c == '@'
        },
{
}

/// Two characters that are sent alike are the same, or the same letter in both cases.
pub proof fn law_same_code_same_letter(a: char, b: char)
    requires
        code_of(a) is Some,
        code_of(a) == code_of(b),
    ensures
        a == b || ('A' <= a <= 'Z' && b as int == a as int + 32) || ('A' <= b <= 'Z' && a as int
            == b as int + 32),
{
    law_codes_are_distinct(a, b);
}

} // verus!
