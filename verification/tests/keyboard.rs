use sprig_llm_core::button::Button::{self, A, D, I, J, L, S, W};
use sprig_llm_core::button::KeyEvent;
use sprig_llm_core::keyboard::{Keyboard, Outcome, BUF};
use sprig_llm_core::predict::StaticPredictor;

fn tap(k: &mut Keyboard, b: Button, p: &StaticPredictor) -> Outcome {
    k.process(KeyEvent::Tap(b), p)
}
fn hold(k: &mut Keyboard, b: Button, p: &StaticPredictor) -> Outcome {
    k.process(KeyEvent::Hold(b), p)
}

#[test]
fn types_hi_in_two_taps_each() {
    let p = StaticPredictor::new(&[]);
    let mut k = Keyboard::new();
    tap(&mut k, A, &p);
    tap(&mut k, D, &p);
    assert_eq!(k.text(), "h");
    tap(&mut k, S, &p);
    tap(&mut k, W, &p);
    assert_eq!(k.text(), "hi");
}

#[test]
fn space_via_l() {
    let p = StaticPredictor::new(&[]);
    let mut k = Keyboard::new();
    tap(&mut k, W, &p);
    tap(&mut k, W, &p);
    assert_eq!(tap(&mut k, L, &p), Outcome::Redraw);
    assert_eq!(k.text(), "a ");
}

#[test]
fn caps_is_one_shot() {
    let p = StaticPredictor::new(&[]);
    let mut k = Keyboard::new();
    hold(&mut k, L, &p);
    tap(&mut k, D, &p);
    assert!(k.caps());
    tap(&mut k, W, &p);
    tap(&mut k, W, &p);
    tap(&mut k, A, &p);
    tap(&mut k, W, &p);
    assert_eq!(k.text(), "Ae");
}

#[test]
fn backspace_via_action_layer() {
    let p = StaticPredictor::new(&[]);
    let mut k = Keyboard::new();
    tap(&mut k, W, &p);
    tap(&mut k, W, &p);
    tap(&mut k, W, &p);
    tap(&mut k, A, &p);
    assert_eq!(k.text(), "ab");
    hold(&mut k, L, &p);
    tap(&mut k, W, &p);
    assert_eq!(k.text(), "a");
}

#[test]
fn send_and_expand_actions() {
    let p = StaticPredictor::new(&[]);
    let mut k = Keyboard::new();
    hold(&mut k, L, &p);
    assert_eq!(tap(&mut k, A, &p), Outcome::Send);
    hold(&mut k, L, &p);
    assert_eq!(tap(&mut k, S, &p), Outcome::Expand);
}

#[test]
fn accept_prediction_inserts_word_and_space() {
    let p = StaticPredictor::new(&["hi", "hello", "help"]);
    let mut k = Keyboard::new();
    tap(&mut k, A, &p);
    tap(&mut k, D, &p);
    assert_eq!(k.text(), "h");
    assert_eq!(k.candidates().len(), 3);
    tap(&mut k, S, &p);
    tap(&mut k, J, &p);
    assert_eq!(k.text(), "hello ");
}

#[test]
fn accepting_a_word_that_would_overflow_leaves_draft_intact() {
    let p = StaticPredictor::new(&["aardvarkaardvarkaard"]);
    let mut k = Keyboard::new();
    for _ in 0..124 {
        tap(&mut k, W, &p);
        tap(&mut k, W, &p);
        tap(&mut k, L, &p);
    }
    tap(&mut k, W, &p);
    tap(&mut k, W, &p);
    let before = k.text().to_string();
    assert!(before.len() <= BUF);
    assert_eq!(k.candidates().len(), 1);
    tap(&mut k, S, &p);
    tap(&mut k, I, &p);
    assert_eq!(k.text(), before.as_str());
}

#[test]
fn active_group_reflects_state() {
    let p = StaticPredictor::new(&[]);
    let mut k = Keyboard::new();
    assert_eq!(k.active_group(), None);
    tap(&mut k, A, &p);
    assert_eq!(k.active_group(), Some("efgh"));
    tap(&mut k, D, &p);
    assert_eq!(k.active_group(), None);
}

#[test]
fn prediction_uses_only_current_word() {
    let p = StaticPredictor::new(&["world"]);
    let mut k = Keyboard::new();
    tap(&mut k, W, &p);
    tap(&mut k, W, &p);
    tap(&mut k, L, &p);
    tap(&mut k, J, &p);
    tap(&mut k, S, &p);
    assert_eq!(k.text(), "a w");
    assert_eq!(k.candidates().len(), 1);
    assert_eq!(k.candidates()[0].as_str(), "world");
}

// ---------------------------------------------------------------------------
// Further cases.
// ---------------------------------------------------------------------------

#[test]
fn hold_l_arms_and_next_event_disarms() {
    let p = StaticPredictor::new(&[]);
    let mut k = Keyboard::new();
    assert_eq!(hold(&mut k, L, &p), Outcome::Redraw);
    assert!(k.action_armed());
    assert_eq!(tap(&mut k, L, &p), Outcome::Redraw);
    assert!(!k.action_armed());
    let before = (k.text().to_string(), k.caps(), k.action_armed(), k.active_group());
    assert_eq!(hold(&mut k, W, &p), Outcome::Idle);
    assert_eq!(before, (k.text().to_string(), k.caps(), k.action_armed(), k.active_group()));
}

#[test]
fn newline_clear_and_symbols_actions() {
    let p = StaticPredictor::new(&[]);
    let mut k = Keyboard::new();
    tap(&mut k, W, &p);
    tap(&mut k, W, &p);
    hold(&mut k, L, &p);
    assert_eq!(tap(&mut k, J, &p), Outcome::Redraw);
    assert_eq!(k.text(), "a\n");
    hold(&mut k, L, &p);
    assert_eq!(tap(&mut k, I, &p), Outcome::Redraw);
    assert_eq!(k.text(), "a\n");
    hold(&mut k, L, &p);
    assert_eq!(tap(&mut k, Button::K, &p), Outcome::Redraw);
    assert_eq!(k.text(), "");
}

#[test]
fn empty_prediction_slot_cancels_to_compose() {
    let p = StaticPredictor::new(&["hello"]);
    let mut k = Keyboard::new();
    tap(&mut k, A, &p);
    tap(&mut k, D, &p);
    tap(&mut k, S, &p);
    assert_eq!(k.active_group(), Some("ijkl"));
    assert_eq!(tap(&mut k, L, &p), Outcome::Redraw);
    assert_eq!(k.active_group(), None);
    assert_eq!(k.text(), "h");
}

#[test]
fn punctuation_group_and_caps_leave_dot_alone() {
    let p = StaticPredictor::new(&[]);
    let mut k = Keyboard::new();
    hold(&mut k, L, &p);
    tap(&mut k, D, &p);
    tap(&mut k, Button::K, &p);
    tap(&mut k, S, &p);
    assert_eq!(k.text(), ".");
    assert!(!k.caps());
}

#[test]
fn default_keyboard_is_empty() {
    let k = Keyboard::default();
    assert_eq!(k.text(), "");
    assert!(k.candidates().is_empty());
    assert!(!k.caps());
}

#[test]
fn draft_stops_growing_at_capacity() {
    let p = StaticPredictor::new(&[]);
    let mut k = Keyboard::new();
    for _ in 0..300 {
        tap(&mut k, L, &p);
    }
    assert_eq!(k.text().len(), BUF);
}
