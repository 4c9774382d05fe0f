use sprig_llm_core::button::{Button, KeyEvent};
use sprig_llm_core::input::{Buttons, Debounced, Edge, DEBOUNCE_TICKS, HOLD_TICKS, SCAN_ORDER};

fn feed(d: &mut Debounced, raw: bool, n: usize) -> Vec<Edge> {
    (0..n).map(|_| d.step(raw)).filter(|e| *e != Edge::Idle).collect()
}

#[test]
fn press_commits_after_debounce_ticks() {
    let mut d = Debounced::new();
    assert_eq!(d.step(true), Edge::Idle);
    assert_eq!(d.step(true), Edge::Idle);
    assert!(!d.pressed);
    assert_eq!(d.step(true), Edge::Idle);
    assert!(d.pressed);
    assert_eq!(d.stable_for, DEBOUNCE_TICKS);
}

#[test]
fn short_press_is_a_tap_on_release() {
    let mut d = Debounced::new();
    assert!(feed(&mut d, true, 10).is_empty());
    assert_eq!(d.step(false), Edge::Idle);
    assert_eq!(d.step(false), Edge::Idle);
    assert_eq!(d.step(false), Edge::Tap);
    assert!(!d.pressed);
    assert!(feed(&mut d, false, 10).is_empty());
}

#[test]
fn long_press_holds_once_and_gives_no_tap() {
    let mut d = Debounced::new();
    // Commit on the third sample, then the hold timer counts from 1.
    let edges = feed(&mut d, true, 2 + HOLD_TICKS as usize);
    assert_eq!(edges, vec![Edge::Hold]);
    assert!(feed(&mut d, true, 500).is_empty());
    assert!(feed(&mut d, false, 5).is_empty());
    assert!(!d.pressed);
}

#[test]
fn hold_fires_exactly_at_threshold() {
    let mut d = Debounced::new();
    assert!(feed(&mut d, true, 1 + HOLD_TICKS as usize).is_empty());
    assert_eq!(d.step(true), Edge::Hold);
}

#[test]
fn bounce_is_ignored() {
    let mut d = Debounced::new();
    assert!(feed(&mut d, true, 1).is_empty());
    assert!(feed(&mut d, false, 1).is_empty());
    assert!(feed(&mut d, true, 2).is_empty());
    assert!(!d.pressed);
    // A settled press flickering up for one sample does not release it.
    assert!(feed(&mut d, true, 5).is_empty());
    assert!(d.pressed);
    assert_eq!(d.step(false), Edge::Idle);
    assert_eq!(d.step(true), Edge::Idle);
    assert!(d.pressed);
}

#[test]
fn poll_reports_in_scan_order() {
    assert_eq!(SCAN_ORDER[0], Button::W);
    assert_eq!(SCAN_ORDER[7], Button::L);
    let mut b = Buttons::new();
    let mut raw = [false; 8];
    raw[1] = true; // A
    raw[7] = true; // L
    for _ in 0..5 {
        assert!(b.poll(raw).is_empty());
    }
    let up = [false; 8];
    assert!(b.poll(up).is_empty());
    assert!(b.poll(up).is_empty());
    assert_eq!(b.poll(up), vec![KeyEvent::Tap(Button::A), KeyEvent::Tap(Button::L)]);
}

#[test]
fn poll_reports_hold_of_l() {
    let mut b = Buttons::new();
    let mut raw = [false; 8];
    raw[7] = true;
    let mut events = Vec::new();
    for _ in 0..200 {
        events.extend(b.poll(raw));
    }
    assert_eq!(events, vec![KeyEvent::Hold(Button::L)]);
    for _ in 0..3 {
        events.extend(b.poll([false; 8]));
    }
    assert_eq!(events, vec![KeyEvent::Hold(Button::L)]);
}
