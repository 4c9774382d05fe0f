use sprig_llm_core::predict::{Candidates, Predictor, StaticPredictor};

#[test]
fn predicts_prefix_matches_capped_at_four() {
    let p = StaticPredictor::new(&["hi", "hello", "help", "here", "hero", "ham"]);
    let mut out = Candidates::new();
    p.predict("he", &mut out);
    assert_eq!(out.len(), 4);
    assert_eq!(out[0].as_str(), "hello");
}

#[test]
fn empty_prefix_yields_nothing() {
    let p = StaticPredictor::new(&["hello"]);
    let mut out = Candidates::new();
    p.predict("", &mut out);
    assert!(out.is_empty());
}

#[test]
fn exact_match_is_excluded() {
    let p = StaticPredictor::new(&["hi"]);
    let mut out = Candidates::new();
    p.predict("hi", &mut out);
    assert!(out.is_empty());
}

#[test]
fn words_longer_than_a_candidate_are_skipped() {
    let p = StaticPredictor::new(&["abcdefghijklmnopqrstuvwxyz", "abc"]);
    let mut out = Candidates::new();
    p.predict("ab", &mut out);
    assert_eq!(out.len(), 1);
    assert_eq!(out[0].as_str(), "abc");
}

#[test]
fn predict_replaces_previous_candidates() {
    let p = StaticPredictor::new(&["one", "two"]);
    let mut out = Candidates::new();
    p.predict("o", &mut out);
    assert_eq!(out.len(), 1);
    p.predict("t", &mut out);
    assert_eq!(out.len(), 1);
    assert_eq!(out[0].as_str(), "two");
}
