use sprig_llm_core::hid::{char_to_key, key_presses, MOD_LSHIFT};

#[test]
fn letters_and_digits() {
    assert_eq!(char_to_key('a'), Some((0x04, false)));
    assert_eq!(char_to_key('z'), Some((0x1D, false)));
    assert_eq!(char_to_key('A'), Some((0x04, true)));
    assert_eq!(char_to_key('Q'), Some((0x14, true)));
    assert_eq!(char_to_key('1'), Some((0x1E, false)));
    assert_eq!(char_to_key('9'), Some((0x26, false)));
    assert_eq!(char_to_key('0'), Some((0x27, false)));
}

#[test]
fn punctuation_and_whitespace() {
    assert_eq!(char_to_key(' '), Some((0x2C, false)));
    assert_eq!(char_to_key('\n'), Some((0x28, false)));
    assert_eq!(char_to_key('\t'), Some((0x2B, false)));
    assert_eq!(char_to_key('!'), Some((0x1E, true)));
    assert_eq!(char_to_key(')'), Some((0x27, true)));
    assert_eq!(char_to_key('_'), Some((0x2D, true)));
    assert_eq!(char_to_key('\\'), Some((0x31, false)));
    assert_eq!(char_to_key('"'), Some((0x34, true)));
    assert_eq!(char_to_key('?'), Some((0x38, true)));
}

#[test]
fn unmappable_chars() {
    assert_eq!(char_to_key('é'), None);
    assert_eq!(char_to_key('\r'), None);
    assert_eq!(char_to_key('\u{7f}'), None);
}

#[test]
fn every_printable_ascii_char_maps() {
    for b in 0x20u8..=0x7E {
        assert!(char_to_key(b as char).is_some(), "{}", b as char);
    }
}

#[test]
fn presses_for_text() {
    assert_eq!(
        key_presses("Hi é!"),
        vec![(MOD_LSHIFT, 0x0B), (0, 0x0C), (0, 0x2C), (MOD_LSHIFT, 0x1E)]
    );
    assert!(key_presses("").is_empty());
}
