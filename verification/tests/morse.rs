use pico_proxy::morse::{
    blink_letter, blink_message, letters, morse_for, word_for, Blinker, LedStep, Phase, UNIT_MS,
};
use pico_proxy::shared::Status;

/// The steps as text: the LED's state and the units that it is kept.
fn written(steps: &[LedStep]) -> String {
    let mut text = String::new();
    for step in steps {
        match step {
            LedStep::Led(true) => text.push('+'),
            LedStep::Led(false) => text.push('_'),
            LedStep::Wait(units) => text.push_str(&units.to_string()),
        }
    }
    text
}

fn letter(code: &str) -> String {
    let mut steps = Vec::new();
    blink_letter(&mut steps, code);
    written(&steps)
}

#[test]
fn a_unit_takes_150_milliseconds() {
    assert_eq!(UNIT_MS, 150);
}

#[test]
fn every_status_has_its_word() {
    assert_eq!(word_for(Status::Portal), ".- .--.");
    assert_eq!(word_for(Status::Scanning), "...");
    assert_eq!(word_for(Status::Connecting), "-.-.");
    assert_eq!(word_for(Status::Connected), "--- -.-");
    assert_eq!(word_for(Status::Failed), ". .-. .-.");
}

/// The codes of the characters of a text.
fn spelled(text: &str) -> String {
    let codes: Vec<&str> = text.chars().map(|c| morse_for(c).unwrap()).collect();
    codes.join(" ")
}

#[test]
fn the_status_words_spell_their_names() {
    assert_eq!(word_for(Status::Portal), spelled("AP"));
    assert_eq!(word_for(Status::Scanning), spelled("S"));
    assert_eq!(word_for(Status::Connecting), spelled("C"));
    assert_eq!(word_for(Status::Connected), spelled("OK"));
    assert_eq!(word_for(Status::Failed), spelled("ERR"));
}

#[test]
fn every_supported_character_has_its_code() {
    let table = [
        ('A', ".-"), ('B', "-..."), ('C', "-.-."), ('D', "-.."), ('E', "."), ('F', "..-."),
        ('G', "--."), ('H', "...."), ('I', ".."), ('J', ".---"), ('K', "-.-"), ('L', ".-.."),
        ('M', "--"), ('N', "-."), ('O', "---"), ('P', ".--."), ('Q', "--.-"), ('R', ".-."),
        ('S', "..."), ('T', "-"), ('U', "..-"), ('V', "...-"), ('W', ".--"), ('X', "-..-"),
        ('Y', "-.--"), ('Z', "--.."), ('0', "-----"), ('1', ".----"), ('2', "..---"),
        ('3', "...--"), ('4', "....-"), ('5', "....."), ('6', "-...."), ('7', "--..."),
        ('8', "---.."), ('9', "----."), ('.', ".-.-.-"), (',', "--..--"), ('?', "..--.."),
        ('\'', ".----."), ('!', "-.-.--"), ('/', "-..-."), ('(', "-.--."), (')', "-.--.-"),
        ('&', ".-..."), (':', "---..."), (';', "-.-.-."), ('=', "-...-"), ('+', ".-.-."),
        ('-', "-....-"), ('_', "..--.-"), ('"', ".-..-."), ('@', ".--.-."),
    ];
    for (i, (c, code)) in table.iter().enumerate() {
        assert_eq!(morse_for(*c), Some(*code));
        assert_eq!(morse_for(c.to_ascii_lowercase()), Some(*code));
        assert!(code.chars().all(|s| s == '.' || s == '-'));
        // No two of them share a code.
        assert!(table[..i].iter().all(|(_, other)| other != code));
    }
}

#[test]
fn other_characters_have_no_code() {
    for c in [' ', '#', '*', '%', '\n', '\u{e9}', '\u{df}', '\u{131}'] {
        assert_eq!(morse_for(c), None);
    }
}

#[test]
fn dots_and_dashes_are_timed() {
    assert_eq!(letter("."), "+1_");
    assert_eq!(letter("-"), "+3_");
    assert_eq!(letter(".-"), "+1_1+3_");
    assert_eq!(letter("-.-."), "+3_1+1_1+3_1+1_");
    // Nothing is sent for an empty code.
    assert_eq!(letter(""), "");
    // Any other symbol does nothing, but keeps its gap.
    assert_eq!(letter(".x."), "+1_1_1+1_");
    assert_eq!(letter("x"), "");
    assert_eq!(letter("-x"), "+3_1");
}

#[test]
fn steps_are_appended() {
    let mut steps = vec![LedStep::Wait(9)];
    blink_letter(&mut steps, ".");
    assert_eq!(written(&steps), "9+1_");
}

#[test]
fn a_message_is_blinked_with_gaps() {
    assert_eq!(written(&blink_message("")), "_3_3");
    assert_eq!(written(&blink_message("e")), "_3+1__3");
    // Three units between letters, seven between words.
    assert_eq!(written(&blink_message("et")), "_3+1__3+3__3");
    assert_eq!(written(&blink_message("e t")), "_3+1__7+3__3");
}

#[test]
fn characters_without_a_code_are_skipped() {
    assert_eq!(blink_message("e#t"), blink_message("et"));
    assert_eq!(blink_message("\u{e9}e \u{20ac}t%"), blink_message("e t"));
    assert_eq!(blink_message("###"), blink_message(""));
}

#[test]
fn case_does_not_matter() {
    assert_eq!(blink_message("sos"), blink_message("SOS"));
}

#[test]
fn a_word_is_split_at_its_spaces() {
    assert_eq!(letters(".- .--."), [".-", ".--."]);
    assert_eq!(letters("..."), ["..."]);
    assert_eq!(letters(""), [""]);
    assert_eq!(letters(" a  b "), ["", "a", "", "b", ""]);
}

#[test]
fn the_led_is_off_after_a_message() {
    for msg in ["", "e", "SOS", "a b", "#"] {
        let last = blink_message(msg).into_iter().rev().find_map(|step| match step {
            LedStep::Led(on) => Some(on),
            LedStep::Wait(_) => None,
        });
        assert_eq!(last, Some(false));
    }
}

#[test]
fn an_undisturbed_round_blinks_the_status_word() {
    let mut blinker = Blinker::new();
    assert_eq!(blinker.status, Status::Portal);
    assert_eq!(written(&blinker.on_message(None)), "");
    assert_eq!(written(&blinker.on_poll(None)), "_");
    assert_eq!(blinker.phase, Phase::Letter(0));
    assert_eq!(written(&blinker.on_poll(None)), "+1_1+3__3");
    assert_eq!(written(&blinker.on_poll(None)), "+1_1+3_1+3_1+1__7");
    assert_eq!(blinker, Blinker::new());
}

#[test]
fn a_new_status_is_taken_over_before_the_word() {
    let mut blinker = Blinker::new();
    blinker.on_message(None);
    assert_eq!(written(&blinker.on_poll(Some(Status::Scanning))), "_");
    assert_eq!(blinker, Blinker { status: Status::Scanning, phase: Phase::Letter(0) });
    assert_eq!(written(&blinker.on_poll(None)), "+1_1+1_1+1__7");
    assert_eq!(blinker, Blinker { status: Status::Scanning, phase: Phase::Message });
}

#[test]
fn a_new_status_ends_the_word() {
    let mut blinker = Blinker { status: Status::Failed, phase: Phase::Letter(1) };
    assert_eq!(written(&blinker.on_poll(Some(Status::Portal))), "");
    assert_eq!(blinker, Blinker { status: Status::Portal, phase: Phase::Message });
}

#[test]
fn the_same_status_again_changes_nothing() {
    let mut blinker = Blinker { status: Status::Failed, phase: Phase::Letter(0) };
    assert_eq!(written(&blinker.on_poll(Some(Status::Failed))), "+1__3");
    assert_eq!(blinker, Blinker { status: Status::Failed, phase: Phase::Letter(1) });
}

#[test]
fn a_message_is_blinked_once_before_the_status_word() {
    let mut blinker = Blinker { status: Status::Connected, phase: Phase::Message };
    assert_eq!(blinker.on_message(Some("Hi")), blink_message("hi"));
    assert_eq!(blinker.phase, Phase::AfterMessage);
    assert!(blinker.on_poll(None).is_empty());
    assert_eq!(blinker, Blinker { status: Status::Connected, phase: Phase::Message });
    // A status that arrived meanwhile is taken over.
    blinker.on_message(Some("x"));
    assert!(blinker.on_poll(Some(Status::Failed)).is_empty());
    assert_eq!(blinker, Blinker { status: Status::Failed, phase: Phase::Message });
}

#[test]
fn letters_are_told_apart() {
    let all = "ABCDEFGHIJKLMNOPQRSTUVWXYZ0123456789.,?'!/()&:;=+-_\"@";
    let blinked: Vec<String> = all.chars().map(|c| letter(morse_for(c).unwrap())).collect();
    for i in 0..blinked.len() {
        assert!(!blinked[..i].contains(&blinked[i]));
    }
}
