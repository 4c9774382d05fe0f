use sprig_llm_core::button::Button;
use sprig_llm_core::layout::{group_index, letter_index, predict_index, GROUPS, LETTER_BUTTONS};

#[test]
fn all_26_letters_present_exactly_once() {
    let mut seen = [false; 26];
    for g in GROUPS {
        for c in g.chars() {
            if c.is_ascii_lowercase() {
                let idx = (c as u8 - b'a') as usize;
                assert!(!seen[idx], "letter {c} appears twice");
                seen[idx] = true;
            }
        }
    }
    assert!(seen.iter().all(|&s| s), "every letter a-z must be reachable");
}

#[test]
fn groups_fit_the_left_pad() {
    for g in GROUPS {
        assert!(g.chars().count() <= LETTER_BUTTONS.len());
    }
}

#[test]
fn group_and_letter_index_roundtrip() {
    assert_eq!(group_index(Button::S), Some(2));
    assert_eq!(letter_index(Button::D), Some(3));
    assert_eq!(predict_index(Button::I), Some(0));
    assert_eq!(predict_index(Button::L), Some(3));
    assert_eq!(group_index(Button::L), None);
}

#[test]
fn group_str_matches_groups_table() {
    for (g, s) in GROUPS.iter().enumerate() {
        assert_eq!(sprig_llm_core::layout::group_str(g), *s);
        for (i, c) in s.chars().enumerate() {
            assert_eq!(sprig_llm_core::layout::group_letter(g, i), Some(c));
        }
        assert_eq!(sprig_llm_core::layout::group_letter(g, 4), None);
    }
}
