use sprig_llm_core::text::{decimal_string, BoundedString};

#[test]
fn bounded_string_push_and_pop() {
    let mut s: BoundedString<4> = BoundedString::new();
    assert!(s.is_empty());
    assert_eq!(s.push('a'), Ok(()));
    assert_eq!(s.push('é'), Ok(()));
    assert_eq!(s.as_str(), "aé");
    assert_eq!(s.len(), 3);
    // 'é' takes two bytes and only one is left.
    assert_eq!(s.push('é'), Err(()));
    assert_eq!(s.as_str(), "aé");
    assert_eq!(s.pop(), Some('é'));
    assert_eq!(s.pop(), Some('a'));
    assert_eq!(s.pop(), None);
    assert_eq!(s.capacity(), 4);
}

#[test]
fn bounded_string_push_str_is_all_or_nothing() {
    let mut s: BoundedString<5> = BoundedString::new();
    assert_eq!(s.push_str("abc"), Ok(()));
    assert_eq!(s.push_str("def"), Err(()));
    assert_eq!(s.as_str(), "abc");
    assert_eq!(s.push_str("de"), Ok(()));
    assert_eq!(s.as_str(), "abcde");
    s.clear();
    assert_eq!(s.as_str(), "");
}

#[test]
fn decimal_strings() {
    assert_eq!(decimal_string(0), "0");
    assert_eq!(decimal_string(1024), "1024");
    assert_eq!(decimal_string(u64::MAX), "18446744073709551615");
}
