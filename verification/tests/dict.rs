use sprig_llm_core::dict::{
    checked_bigrams, esc, is_valid_word, parse_args, parse_bigrams, parse_corpus, rank, render,
    usage, Entry, DEFAULT_MAX_WORDS, MAX_FOLLOWERS,
};

#[test]
fn parses_tab_separated_freq() {
    let txt = "the\t100\nand\t50\nof\t75\n";
    let e = parse_corpus(txt);
    // Sorted by descending freq: the(100), of(75), and(50)
    assert_eq!(e.len(), 3);
    assert_eq!(e[0].word, "the");
    assert_eq!(e[0].freq, 100);
    assert_eq!(e[1].word, "of");
    assert_eq!(e[2].word, "and");
}

#[test]
fn implicit_rank_by_line_order() {
    let txt = "first\nsecond\nthird\n";
    let e = parse_corpus(txt);
    assert_eq!(e.len(), 3);
    assert_eq!(e[0].word, "first");
    assert_eq!(e[1].word, "second");
    assert_eq!(e[2].word, "third");
    // Strictly descending implicit weights.
    assert!(e[0].freq > e[1].freq && e[1].freq > e[2].freq);
}

#[test]
fn skips_malformed_lines() {
    // bad freq, empty, comment, uppercase, digits, punctuation
    let txt = "good\t10\nbad\tNOTANUM\n\n# comment\nUPPER\t5\nwith2\t3\nhy-phen\t4\nok\t7\n";
    let e = parse_corpus(txt);
    let words: Vec<&str> = e.iter().map(|x| x.word.as_str()).collect();
    assert_eq!(words, vec!["good", "ok"]);
}

#[test]
fn dedupes_keeping_max_freq() {
    let txt = "the\t10\nthe\t999\nthe\t5\n";
    let e = parse_corpus(txt);
    assert_eq!(e.len(), 1);
    assert_eq!(e[0].freq, 999);
}

#[test]
fn tie_break_is_alphabetical() {
    let txt = "beta\t10\nalpha\t10\ngamma\t10\n";
    let e = parse_corpus(txt);
    let words: Vec<&str> = e.iter().map(|x| x.word.as_str()).collect();
    assert_eq!(words, vec!["alpha", "beta", "gamma"]);
}

#[test]
fn is_valid_word_rules() {
    assert!(is_valid_word("hello"));
    assert!(!is_valid_word(""));
    assert!(!is_valid_word("Hello"));
    assert!(!is_valid_word("a1"));
    assert!(!is_valid_word("a-b"));
    assert!(!is_valid_word("café"));
}

#[test]
fn bigrams_rank_and_cap_followers() {
    let heads = vec!["the".to_string()];
    // five distinct followers with differing weights; cap is MAX_FOLLOWERS (4)
    let txt = "\
the\tquick\t5
the\tlazy\t1
the\tbrown\t4
the\tfox\t3
the\tdog\t2
of\tthe\t9
";
    let bg = parse_bigrams(txt, &heads);
    assert_eq!(bg.len(), 1);
    let (head, followers) = &bg[0];
    assert_eq!(head, "the");
    assert_eq!(followers.len(), MAX_FOLLOWERS);
    // Best-first by weight: quick(5), brown(4), fox(3), dog(2); lazy(1) dropped.
    assert_eq!(followers, &vec!["quick", "brown", "fox", "dog"]);
}

#[test]
fn bigrams_ignore_non_head_and_invalid() {
    let heads = vec!["the".to_string()];
    let txt = "go\tnow\t5\nthe\tBAD\t5\nthe\tword\t5\n";
    let bg = parse_bigrams(txt, &heads);
    assert_eq!(bg.len(), 1);
    assert_eq!(bg[0].1, vec!["word"]);
}

#[test]
fn render_is_includable_shape() {
    let words = vec!["the", "and"];
    let bigrams = vec![("the".to_string(), vec!["quick".to_string()])];
    let out = render(&words, &bigrams);
    assert!(out.contains("pub static WORDS: &[&str] = &["));
    assert!(out.contains("\"the\""));
    assert!(out.contains("pub static BIGRAMS: &[(&str, &[&str])] = &["));
    assert!(out.contains("(\"the\", &[\"quick\"]),"));
}

#[test]
fn arg_parsing() {
    let a = parse_args(&[
        "in.txt".into(),
        "out".into(),
        "--max-words".into(),
        "10".into(),
    ])
    .unwrap();
    assert_eq!(a.input, "in.txt");
    assert_eq!(a.output_dir, "out");
    assert_eq!(a.max_words, 10);

    let d = parse_args(&["in.txt".into(), "out".into()]).unwrap();
    assert_eq!(d.max_words, DEFAULT_MAX_WORDS);

    assert!(parse_args(&["only-one".into()]).is_err());
    assert!(parse_args(&["a".into(), "b".into(), "--nope".into()]).is_err());
    assert!(parse_args(&[
        "a".into(),
        "b".into(),
        "--max-words".into(),
        "0".into()
    ])
    .is_err());
}

#[test]
fn arg_errors_name_the_problem() {
    let e = |v: &[&str]| parse_args(&v.iter().map(|s| s.to_string()).collect::<Vec<_>>()).unwrap_err();
    assert_eq!(e(&["a", "--max-words"]), "--max-words requires a value");
    assert_eq!(e(&["a", "b", "--max-words", "x1"]), "invalid --max-words value: x1");
    assert_eq!(e(&["a", "--verbose", "b"]), "unknown flag: --verbose");
    assert_eq!(e(&["a", "b", "c"]), "expected <input.txt> <output_dir>");
    assert_eq!(e(&["a", "b", "--max-words", "0"]), "--max-words must be > 0");
    // The flag may come first, and `+` is accepted by the number parser.
    let a = parse_args(&["--max-words".into(), "+7".into(), "i".into(), "o".into()]).unwrap();
    assert_eq!((a.input.as_str(), a.output_dir.as_str(), a.max_words), ("i", "o", 7));
}

#[test]
fn usage_text() {
    assert!(usage().starts_with("usage: dict-builder <input.txt> <output_dir> [--max-words N]"));
}

#[test]
fn corpus_trims_and_handles_crlf() {
    let e = parse_corpus("  apple \t 3 \r\nbanana\t7\r\n#x\t9\n");
    let got: Vec<(&str, u64)> = e.iter().map(|x| (x.word.as_str(), x.freq)).collect();
    assert_eq!(got, vec![("banana", 7), ("apple", 3)]);
}

#[test]
fn implicit_weights_count_all_lines() {
    // Three lines in all; the two bare words get weights 3 and 2.
    let e = parse_corpus("zeta\nnum\t1\nalpha");
    let got: Vec<(&str, u64)> = e.iter().map(|x| (x.word.as_str(), x.freq)).collect();
    assert_eq!(got, vec![("zeta", 3), ("alpha", 2), ("num", 1)]);
}

#[test]
fn frequency_overflow_is_malformed() {
    let e = parse_corpus("big\t18446744073709551616\nmax\t18446744073709551615\n");
    assert_eq!(e.len(), 1);
    assert_eq!(e[0].word, "max");
    assert_eq!(e[0].freq, u64::MAX);
}

#[test]
fn rank_orders_entries() {
    let mut v = vec![
        Entry { word: "b".into(), freq: 1 },
        Entry { word: "a".into(), freq: 1 },
        Entry { word: "c".into(), freq: 5 },
    ];
    rank(&mut v);
    let got: Vec<(&str, u64)> = v.iter().map(|x| (x.word.as_str(), x.freq)).collect();
    assert_eq!(got, vec![("c", 5), ("a", 1), ("b", 1)]);
}

#[test]
fn escaping() {
    assert_eq!(esc("plain"), "plain");
    assert_eq!(esc(r#"a"b\c"#), r#"a\"b\\c"#);
}

#[test]
fn render_exact_rows() {
    let words: Vec<String> = (0..9).map(|i| format!("w{i}")).collect();
    let refs: Vec<&str> = words.iter().map(|s| s.as_str()).collect();
    let bigrams = vec![(
        "w0".to_string(),
        vec!["x".to_string(), "y".to_string()],
    )];
    let out = render(&refs, &bigrams);
    assert!(out.contains("// Counts: 9 words, 1 bigram heads.\n\n"));
    assert!(out.contains(
        "pub static WORDS: &[&str] = &[\n    \"w0\", \"w1\", \"w2\", \"w3\", \"w4\", \"w5\", \"w6\", \"w7\", \n    \"w8\", \n];\n\n"
    ));
    assert!(out.ends_with("pub static BIGRAMS: &[(&str, &[&str])] = &[\n    (\"w0\", &[\"x\", \"y\"]),\n];\n"));
}

#[test]
fn bigram_heads_follow_head_order_and_sum_weights() {
    let heads = vec!["of".to_string(), "the".to_string()];
    let txt = "the\tend\t2\nof\tcourse\t1\nthe\tend\t2\nthe\tcat\t3\n";
    let bg = parse_bigrams(txt, &heads);
    assert_eq!(bg.len(), 2);
    assert_eq!(bg[0].0, "of");
    assert_eq!(bg[1].0, "the");
    // "end" sums to 4 and outranks "cat" at 3.
    assert_eq!(bg[1].1, vec!["end", "cat"]);
}

#[test]
fn bigram_overflow_is_reported() {
    let heads = vec!["a".to_string()];
    let txt = "a\tb\t18446744073709551615\na\tb\t1\n";
    assert!(checked_bigrams(txt, &heads).is_none());
    assert!(checked_bigrams("a\tb\t3\n", &heads).is_some());
}
