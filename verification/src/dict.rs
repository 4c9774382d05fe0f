//! The prediction dictionary builder.
//!
//! A host-side tool turns a word-frequency corpus into an `include!`-able
//! Rust source file for the firmware: `WORDS`, the most frequent words in
//! rank order, and `BIGRAMS`, the ranked followers of common words. This
//! module parses the corpus and the arguments and renders the file; reading
//! and writing files is the tool's own business.
//!
//! Corpus lines are `word<TAB>frequency`, or just `word` (an implicit weight
//! that falls with the line number), or `word1<TAB>word2<TAB>frequency` for a
//! bigram. Words are lowercase ASCII (`a-z`); malformed lines are skipped.
use vstd::prelude::*;
use vstd::multiset::Multiset;
use vstd::relations::{sorted_by, total_ordering};
use crate::scan::{has_prefix, is_whitespace, is_ws, same_chars, slice_copy, starts_with};
use crate::text::{chars_of, decimal, decimal_string, string_from_chars};

verus! {

broadcast use vstd::seq_lib::group_seq_properties, vstd::seq_lib::group_to_multiset_ensures;

/// Default cap on the number of words emitted into `WORDS`.
pub const DEFAULT_MAX_WORDS: usize = 4000;

/// Number of leading (most frequent) words that get bigram follower lists.
pub const BIGRAM_HEAD_WORDS: usize = 256;

/// Most followers kept per bigram head word.
pub const MAX_FOLLOWERS: usize = 4;

// ---------------------------------------------------------------------------
// Ranking.
// ---------------------------------------------------------------------------
/// Lexicographic order on character sequences (the order of `str`'s `Ord`).
pub open spec fn lex_le(a: Seq<char>, b: Seq<char>) -> bool
    decreases a.len(),
{
    if a.len() == 0 {
        true
    } else if b.len() == 0 {
        false
    } else if a[0] != b[0] {
        (a[0] as u32) < (b[0] as u32)
    } else {
        lex_le(a.drop_first(), b.drop_first())
    }
}

/// Whether `a` ranks no later than `b`: a higher frequency first, and
/// alphabetical order between equal frequencies.
pub open spec fn ranks_no_later(a: (Seq<char>, u64), b: (Seq<char>, u64)) -> bool {
    a.1 > b.1 || (a.1 == b.1 && lex_le(a.0, b.0))
}

/// The ranking relation.
pub open spec fn rank_leq() -> spec_fn((Seq<char>, u64), (Seq<char>, u64)) -> bool {
    |a: (Seq<char>, u64), b: (Seq<char>, u64)| ranks_no_later(a, b)
}

/// The ranked order of a list of `(word, frequency)` pairs.
pub open spec fn ranked(s: Seq<(Seq<char>, u64)>) -> Seq<(Seq<char>, u64)> {
    s.sort_by(rank_leq())
}

proof fn lemma_lex_le_refl(a: Seq<char>)
    ensures
        lex_le(a, a),
    decreases a.len(),
{
    if a.len() > 0 {
        lemma_lex_le_refl(a.drop_first());
    }
}

proof fn lemma_lex_le_antisym(a: Seq<char>, b: Seq<char>)
    requires
        lex_le(a, b),
        lex_le(b, a),
    ensures
        a == b,
    decreases a.len(),
{
    if a.len() == 0 {
        assert(b.len() == 0);
        assert(a =~= b);
    } else {
        assert(b.len() > 0);
        assert(a[0] == b[0]);
        lemma_lex_le_antisym(a.drop_first(), b.drop_first());
        assert(a =~= seq![a[0]] + a.drop_first());
        assert(b =~= seq![b[0]] + b.drop_first());
    }
}

proof fn lemma_lex_le_trans(a: Seq<char>, b: Seq<char>, c: Seq<char>)
    requires
        lex_le(a, b),
        lex_le(b, c),
    ensures
        lex_le(a, c),
    decreases a.len(),
{
    if a.len() > 0 && b.len() > 0 && c.len() > 0 && a[0] == b[0] && b[0] == c[0] {
        lemma_lex_le_trans(a.drop_first(), b.drop_first(), c.drop_first());
    }
}

proof fn lemma_lex_le_total(a: Seq<char>, b: Seq<char>)
    ensures
        lex_le(a, b) || lex_le(b, a),
    decreases a.len(),
{
    if a.len() > 0 && b.len() > 0 {
        if a[0] == b[0] {
            lemma_lex_le_total(a.drop_first(), b.drop_first());
        } else {
            vstd::utf8::char_u32_cast(a[0], a[0] as u32);
            vstd::utf8::char_u32_cast(b[0], b[0] as u32);
        }
    }
}

/// The ranking is a total order: every list has exactly one ranked order.
pub proof fn law_ranking_is_total()
    ensures
        total_ordering(rank_leq()),
{
    let r = rank_leq();
    assert forall|x: (Seq<char>, u64)| #[trigger] r(x, x) by {
        lemma_lex_le_refl(x.0);
    }
    assert forall|x: (Seq<char>, u64), y: (Seq<char>, u64)| #[trigger]
        r(x, y) && #[trigger] r(y, x) implies x == y by {
        lemma_lex_le_antisym(x.0, y.0);
    }
    assert forall|x: (Seq<char>, u64), y: (Seq<char>, u64), z: (Seq<char>, u64)| #[trigger]
        r(x, y) && #[trigger] r(y, z) implies r(x, z) by {
        if x.1 == y.1 && y.1 == z.1 {
            lemma_lex_le_trans(x.0, y.0, z.0);
        }
    }
    assert forall|x: (Seq<char>, u64), y: (Seq<char>, u64)| #[trigger] r(x, y) || #[trigger] r(
        y,
        x,
    ) by {
        lemma_lex_le_total(x.0, y.0);
    }
}

/// A word and its frequency, as the ranker holds them.
pub type Pair = (Vec<char>, u64);

/// The abstract content of a list of pairs.
pub open spec fn pairs_view(s: Seq<Pair>) -> Seq<(Seq<char>, u64)> {
    s.map_values(|p: Pair| (p.0@, p.1))
}

/// Whether `a <= b` lexicographically.
fn word_le(a: &Vec<char>, b: &Vec<char>) -> (r: bool)
    ensures
        r == lex_le(a@, b@),
{
    let mut i: usize = 0;
    while i < a.len() && i < b.len() && a[i] == b[i]
        invariant
            i <= a@.len(),
            i <= b@.len(),
            lex_le(a@, b@) == lex_le(a@.skip(i as int), b@.skip(i as int)),
        decreases a@.len() - i,
    {
        proof {
            assert(a@.skip(i as int).drop_first() =~= a@.skip(i + 1));
            assert(b@.skip(i as int).drop_first() =~= b@.skip(i + 1));
        }
        i = i + 1;
    }
    if i == a.len() {
        true
    } else if i == b.len() {
        false
    } else {
        (a[i] as u32) < (b[i] as u32)
    }
}

/// Whether pair `a` ranks no later than pair `b`.
fn pair_le(a: &Pair, b: &Pair) -> (r: bool)
    ensures
        r == ranks_no_later((a.0@, a.1), (b.0@, b.1)),
{
    if a.1 != b.1 {
        a.1 > b.1
    } else {
        word_le(&a.0, &b.0)
    }
}

/// Sorts pairs into ranked order: descending frequency, then ascending word.
pub fn rank_pairs(items: Vec<Pair>) -> (out: Vec<Pair>)
    ensures
        pairs_view(out@) == ranked(pairs_view(items@)),
{
    proof {
        law_ranking_is_total();
    }
    let ghost leq = rank_leq();
    let ghost all = pairs_view(items@);
    let mut rest = items;
    let mut out: Vec<Pair> = Vec::new();
    proof {
        assert(pairs_view(out@).to_multiset() =~= Multiset::empty());
        assert(pairs_view(rest@) == all);
    }
    while rest.len() > 0
        invariant
            leq == rank_leq(),
            total_ordering(leq),
            sorted_by(pairs_view(out@), leq),
            pairs_view(out@).to_multiset().add(pairs_view(rest@).to_multiset()) == all.to_multiset(),
        decreases rest@.len(),
    {
        let ghost rest_before = pairs_view(rest@);
        let x = rest.pop().unwrap();
        let ghost xv = (x.0@, x.1);
        proof {
            assert(rest_before =~= pairs_view(rest@).push(xv));
        }
        let mut p: usize = 0;
        while p < out.len() && pair_le(&out[p], &x)
            invariant
                p <= out@.len(),
                forall|k: int| 0 <= k < p ==> ranks_no_later(#[trigger] pairs_view(out@)[k], xv),
                xv == (x.0@, x.1),
            decreases out@.len() - p,
        {
            p = p + 1;
        }
        let ghost before = pairs_view(out@);
        out.insert(p, x);
        proof {
            let after = pairs_view(out@);
            assert(after =~= before.insert(p as int, xv));
            if p < before.len() {
                assert(!ranks_no_later(before[p as int], xv));
                assert(leq(before[p as int], xv) || leq(xv, before[p as int]));
                assert(leq(xv, before[p as int]));
            }
            assert forall|i: int, j: int| 0 <= i < j < after.len() implies #[trigger] leq(
                after[i],
                after[j],
            ) by {
                if j < p {
                    assert(leq(before[i], before[j]));
                } else if j == p {
                    assert(ranks_no_later(before[i], xv));
                } else if i < p {
                    assert(leq(before[i], before[j - 1]));
                } else if i == p {
                    if j - 1 > p {
                        assert(leq(before[p as int], before[j - 1]));
                    }
                } else {
                    assert(leq(before[i - 1], before[j - 1]));
                }
            }
            vstd::seq_lib::to_multiset_insert(before, p as int, xv);
            vstd::seq_lib::to_multiset_build(pairs_view(rest@), xv);
            assert(after.to_multiset().add(pairs_view(rest@).to_multiset()) =~= before.to_multiset().add(
                rest_before.to_multiset(),
            ));
        }
    }
    proof {
        assert(pairs_view(rest@).to_multiset() =~= Multiset::empty());
        assert(pairs_view(out@).to_multiset() =~= all.to_multiset());
        all.lemma_sort_by_ensures(leq);
        vstd::seq_lib::lemma_sorted_unique(pairs_view(out@), all.sort_by(leq), leq);
    }
    out
}


// ---------------------------------------------------------------------------
// Lines, trimming, numbers and words.
// ---------------------------------------------------------------------------
/// The finished lines and the current line after the characters of `text`.
pub open spec fn split_walk(text: Seq<char>) -> (Seq<Seq<char>>, Seq<char>)
    decreases text.len(),
{
    if text.len() == 0 {
        (Seq::empty(), Seq::empty())
    } else {
        let p = split_walk(text.drop_last());
        if text.last() == '\n' {
            (p.0.push(p.1), Seq::empty())
        } else {
            (p.0, p.1.push(text.last()))
        }
    }
}

/// The lines of `text`, as `str::lines` counts them: split at each newline,
/// with no empty line after a final newline. (A carriage return before the
/// newline stays on its line here; every line is trimmed before use.)
pub open spec fn lines_of(text: Seq<char>) -> Seq<Seq<char>> {
    let p = split_walk(text);
    if p.1.len() > 0 {
        p.0.push(p.1)
    } else {
        p.0
    }
}

/// The texts of a list of character vectors.
pub open spec fn chars_view(v: Seq<Vec<char>>) -> Seq<Seq<char>> {
    v.map_values(|l: Vec<char>| l@)
}

/// Splits `text` into its lines.
pub fn split_lines(text: &Vec<char>) -> (lines: Vec<Vec<char>>)
    ensures
        chars_view(lines@) == lines_of(text@),
{
    let mut lines: Vec<Vec<char>> = Vec::new();
    let mut cur: Vec<char> = Vec::new();
    let mut i: usize = 0;
    while i < text.len()
        invariant
            i <= text@.len(),
            (chars_view(lines@), cur@) == split_walk(text@.subrange(0, i as int)),
        decreases text@.len() - i,
    {
        proof {
            assert(text@.subrange(0, i + 1).drop_last() =~= text@.subrange(0, i as int));
        }
        let c = text[i];
        if c == '\n' {
            let ghost before = chars_view(lines@);
            let mut done: Vec<char> = Vec::new();
            std::mem::swap(&mut done, &mut cur);
            lines.push(done);
            proof {
                assert(chars_view(lines@) =~= before.push(done@));
            }
        } else {
            cur.push(c);
        }
        i = i + 1;
    }
    proof {
        assert(text@.subrange(0, text@.len() as int) =~= text@);
    }
    if cur.len() > 0 {
        let ghost before = chars_view(lines@);
        lines.push(cur);
        proof {
            assert(chars_view(lines@) =~= before.push(split_walk(text@).1));
        }
    }
    lines
}

/// `s` without its leading whitespace.
pub open spec fn trim_start(s: Seq<char>) -> Seq<char>
    decreases s.len(),
{
    if s.len() > 0 && is_ws(s[0]) {
        trim_start(s.drop_first())
    } else {
        s
    }
}

/// `s` without its trailing whitespace.
pub open spec fn trim_end(s: Seq<char>) -> Seq<char>
    decreases s.len(),
{
    if s.len() > 0 && is_ws(s.last()) {
        trim_end(s.drop_last())
    } else {
        s
    }
}

/// `s` without leading and trailing whitespace (`str::trim`).
pub open spec fn trimmed(s: Seq<char>) -> Seq<char> {
    trim_end(trim_start(s))
}

/// `str::trim` on a character vector.
pub fn trim(s: &Vec<char>) -> (r: Vec<char>)
    ensures
        r@ == trimmed(s@),
{
    let mut b: usize = 0;
    while b < s.len() && is_whitespace(s[b])
        invariant
            b <= s@.len(),
            trim_start(s@) == trim_start(s@.skip(b as int)),
        decreases s@.len() - b,
    {
        proof {
            assert(s@.skip(b as int).drop_first() =~= s@.skip(b + 1));
        }
        b = b + 1;
    }
    let ghost t = s@.skip(b as int);
    proof {
        if b == s.len() {
            assert(t =~= Seq::<char>::empty());
        }
        assert(trim_start(s@) == t);
    }
    let mut e: usize = s.len();
    proof {
        assert(s@.subrange(b as int, e as int) =~= t);
    }
    while e > b && is_whitespace(s[e - 1])
        invariant
            b <= e <= s@.len(),
            t == s@.skip(b as int),
            trim_end(t) == trim_end(s@.subrange(b as int, e as int)),
        decreases e,
    {
        proof {
            assert(s@.subrange(b as int, e as int).drop_last() =~= s@.subrange(b as int, e - 1));
        }
        e = e - 1;
    }
    slice_copy(s, b, e)
}

/// Whether `c` is an ASCII digit.
pub open spec fn is_digit_char(c: char) -> bool {
    48 <= (c as u32) <= 57
}

/// The value of a run of decimal digits.
pub open spec fn digits_val(s: Seq<char>) -> nat
    decreases s.len(),
{
    if s.len() == 0 {
        0
    } else {
        digits_val(s.drop_last()) * 10 + ((s.last() as u32) - 48) as nat
    }
}

/// The digits of a number, after an optional `+`.
pub open spec fn unsigned_digits(s: Seq<char>) -> Seq<char> {
    if s.len() > 0 && s[0] == '+' {
        s.drop_first()
    } else {
        s
    }
}

/// `str::parse::<u64>`: an optional `+`, then one or more decimal digits
/// whose value fits 64 bits.
pub open spec fn parse_u64_of(s: Seq<char>) -> Option<u64> {
    let d = unsigned_digits(s);
    if d.len() > 0 && (forall|i: int| 0 <= i < d.len() ==> is_digit_char(#[trigger] d[i]))
        && digits_val(d) <= u64::MAX {
        Some(digits_val(d) as u64)
    } else {
        None
    }
}

/// A longer run of digits has no smaller value.
proof fn lemma_digits_val_grows(s: Seq<char>, k: int)
    requires
        0 <= k <= s.len(),
        forall|i: int| 0 <= i < s.len() ==> is_digit_char(#[trigger] s[i]),
    ensures
        digits_val(s.take(k)) <= digits_val(s),
    decreases s.len() - k,
{
    if k < s.len() {
        lemma_digits_val_grows(s, k + 1);
        assert(s.take(k + 1).drop_last() =~= s.take(k));
    } else {
        assert(s.take(k) =~= s);
    }
}

/// Whether every character is an ASCII digit.
fn all_digits(d: &Vec<char>) -> (r: bool)
    ensures
        r == (forall|j: int| 0 <= j < d@.len() ==> is_digit_char(#[trigger] d@[j])),
{
    let mut i: usize = 0;
    while i < d.len()
        invariant
            i <= d@.len(),
            forall|j: int| 0 <= j < i ==> is_digit_char(#[trigger] d@[j]),
        decreases d@.len() - i,
    {
        let v = d[i] as u32;
        if v < 48 || v > 57 {
            proof {
                assert(!is_digit_char(d@[i as int]));
            }
            return false;
        }
        i = i + 1;
    }
    true
}

/// Parses an unsigned decimal number as `str::parse::<u64>` does.
pub fn parse_u64(s: &Vec<char>) -> (r: Option<u64>)
    ensures
        r == parse_u64_of(s@),
{
    let start: usize = if s.len() > 0 && s[0] == '+' {
        1
    } else {
        0
    };
    let digits = slice_copy(s, start, s.len());
    proof {
        assert(digits@ =~= unsigned_digits(s@));
    }
    if digits.len() == 0 || !all_digits(&digits) {
        return None;
    }
    accumulate_digits(&digits)
}

/// The value of a run of decimal digits, if it fits 64 bits.
#[verifier::rlimit(30)]
fn accumulate_digits(d: &Vec<char>) -> (r: Option<u64>)
    requires
        forall|j: int| 0 <= j < d@.len() ==> is_digit_char(#[trigger] d@[j]),
    ensures
        r == (if digits_val(d@) <= u64::MAX {
            Some(digits_val(d@) as u64)
        } else {
            None
        }),
{
    let mut value: u64 = 0;
    let mut k: usize = 0;
    proof {
        assert(d@.take(0) =~= Seq::<char>::empty());
    }
    while k < d.len()
        invariant
            k <= d@.len(),
            forall|j: int| 0 <= j < d@.len() ==> is_digit_char(#[trigger] d@[j]),
            value == digits_val(d@.take(k as int)),
        decreases d@.len() - k,
    {
        proof {
            assert(d@.take(k + 1).drop_last() =~= d@.take(k as int));
            assert(is_digit_char(d@[k as int]));
        }
        let digit = (d[k] as u32 - 48) as u64;
        let step = value.checked_mul(10);
        if step.is_none() {
            proof {
                lemma_digits_val_grows(d@, k + 1);
            }
            return None;
        }
        let next = step.unwrap().checked_add(digit);
        if next.is_none() {
            proof {
                lemma_digits_val_grows(d@, k + 1);
            }
            return None;
        }
        value = next.unwrap();
        k = k + 1;
    }
    proof {
        assert(d@.take(k as int) =~= d@);
    }
    Some(value)
}

/// Whether `w` is a dictionary word: one or more lowercase ASCII letters.
pub open spec fn valid_word(w: Seq<char>) -> bool {
    w.len() > 0 && forall|i: int| 0 <= i < w.len() ==> 97 <= (#[trigger] w[i] as u32) <= 122
}

/// Whether the characters form a dictionary word.
fn valid_word_chars(w: &Vec<char>) -> (r: bool)
    ensures
        r == valid_word(w@),
{
    if w.len() == 0 {
        return false;
    }
    let mut i: usize = 0;
    while i < w.len()
        invariant
            i <= w@.len(),
            forall|j: int| 0 <= j < i ==> 97 <= (#[trigger] w@[j] as u32) <= 122,
        decreases w@.len() - i,
    {
        let v = w[i] as u32;
        if v < 97 || v > 122 {
            return false;
        }
        i = i + 1;
    }
    true
}

/// True if `w` is a non-empty lowercase ASCII word (`a-z` only).
pub fn is_valid_word(w: &str) -> (r: bool)
    ensures
        r == valid_word(w@),
{
    let cs = chars_of(w);
    valid_word_chars(&cs)
}

/// Index of the first `c` in `s` at or after `i`.
pub open spec fn first_of(s: Seq<char>, c: char, i: int) -> Option<int>
    decreases s.len() - i,
{
    if i < 0 || i >= s.len() {
        None
    } else if s[i] == c {
        Some(i)
    } else {
        first_of(s, c, i + 1)
    }
}

/// `str::split_once('\t')`: the text before and after the first tab.
pub open spec fn split_tab(s: Seq<char>) -> Option<(Seq<char>, Seq<char>)> {
    match first_of(s, '\t', 0) {
        Some(i) => Some((s.subrange(0, i), s.subrange(i + 1, s.len() as int))),
        None => None,
    }
}

proof fn lemma_first_of_bounds(s: Seq<char>, c: char, i: int)
    ensures
        first_of(s, c, i) matches Some(j) ==> i <= j < s.len() && s[j] == c,
    decreases s.len() - i,
{
    if 0 <= i < s.len() && s[i] != c {
        lemma_first_of_bounds(s, c, i + 1);
    }
}

/// Splits `s` at its first tab.
fn split_at_tab(s: &Vec<char>) -> (r: Option<(Vec<char>, Vec<char>)>)
    ensures
        match r {
            Some((a, b)) => split_tab(s@) == Some((a@, b@)),
            None => split_tab(s@) is None,
        },
{
    let mut i: usize = 0;
    while i < s.len() && s[i] != '\t'
        invariant
            i <= s@.len(),
            first_of(s@, '\t', 0) == first_of(s@, '\t', i as int),
        decreases s@.len() - i,
    {
        i = i + 1;
    }
    if i == s.len() {
        return None;
    }
    Some((slice_copy(s, 0, i), slice_copy(s, i + 1, s.len())))
}

// ---------------------------------------------------------------------------
// The corpus.
// ---------------------------------------------------------------------------
/// Index of the entry for word `w`, at or after `i`.
pub open spec fn find_word(best: Seq<(Seq<char>, u64)>, w: Seq<char>, i: int) -> Option<int>
    decreases best.len() - i,
{
    if i < 0 || i >= best.len() {
        None
    } else if best[i].0 == w {
        Some(i)
    } else {
        find_word(best, w, i + 1)
    }
}

proof fn lemma_find_word(best: Seq<(Seq<char>, u64)>, w: Seq<char>, i: int)
    requires
        0 <= i,
    ensures
        find_word(best, w, i) matches Some(j) ==> i <= j < best.len() && best[j].0 == w && forall|
            k: int,
        | i <= k < j ==> best[k].0 != w,
        find_word(best, w, i) is None ==> forall|j: int| i <= j < best.len() ==> best[j].0 != w,
    decreases best.len() - i,
{
    if i < best.len() && best[i].0 != w {
        lemma_find_word(best, w, i + 1);
    }
}

/// Records `w` with frequency `v`, keeping the higher frequency when the
/// word was seen before.
pub open spec fn upsert(best: Seq<(Seq<char>, u64)>, w: Seq<char>, v: u64) -> Seq<
    (Seq<char>, u64),
> {
    match find_word(best, w, 0) {
        Some(i) => if v > best[i].1 {
            best.update(i, (w, v))
        } else {
            best
        },
        None => best.push((w, v)),
    }
}

/// The implicit weight of the `k`-th line without a tab, of `total` lines.
pub open spec fn implicit_weight(total: nat, k: nat) -> u64 {
    ((if total >= k {
        total - k
    } else {
        0
    }) + 1) as u64
}

/// Walking the lines of a corpus of `total` lines: the count of lines
/// without a tab so far, and the words seen with their best frequency, in
/// order of first appearance.
pub open spec fn corpus_walk(lines: Seq<Seq<char>>, total: nat) -> (nat, Seq<(Seq<char>, u64)>)
    decreases lines.len(),
{
    if lines.len() == 0 {
        (0, Seq::empty())
    } else {
        let p = corpus_walk(lines.drop_last(), total);
        let line = trimmed(lines.last());
        if line.len() == 0 || line[0] == '#' {
            p
        } else {
            match split_tab(line) {
                Some((w, f)) => match parse_u64_of(trimmed(f)) {
                    None => p,
                    Some(v) => (
                        p.0,
                        if valid_word(trimmed(w)) {
                            upsert(p.1, trimmed(w), v)
                        } else {
                            p.1
                        },
                    ),
                },
                None => {
                    let k = p.0 + 1;
                    (
                        k,
                        if valid_word(line) {
                            upsert(p.1, line, implicit_weight(total, k))
                        } else {
                            p.1
                        },
                    )
                },
            }
        }
    }
}

/// The words of a corpus with their best frequencies, before ranking.
pub open spec fn corpus_words(text: Seq<char>) -> Seq<(Seq<char>, u64)> {
    corpus_walk(lines_of(text), lines_of(text).len()).1
}

/// A parsed corpus entry: a word and its frequency weight.
#[derive(Debug)]
pub struct Entry {
    pub word: String,
    pub freq: u64,
}

/// The abstract content of a list of entries.
pub open spec fn entries_view(s: Seq<Entry>) -> Seq<(Seq<char>, u64)> {
    s.map_values(|e: Entry| (e.word@, e.freq))
}

/// Records `w` with frequency `v` in `best`.
fn upsert_pair(best: &mut Vec<Pair>, w: Vec<char>, v: u64)
    ensures
        pairs_view(final(best)@) == upsert(pairs_view(old(best)@), w@, v),
{
    let ghost bv = pairs_view(best@);
    let mut i: usize = 0;
    proof {
        lemma_find_word(bv, w@, 0);
    }
    while i < best.len()
        invariant
            bv == pairs_view(best@),
            bv == pairs_view(old(best)@),
            i <= best@.len(),
            find_word(bv, w@, 0) == find_word(bv, w@, i as int),
        decreases best@.len() - i,
    {
        if same_chars(&best[i].0, &w) {
            proof {
                assert(bv[i as int].0 == w@);
            }
            if v > best[i].1 {
                best.set(i, (w, v));
                proof {
                    assert(pairs_view(best@) =~= bv.update(i as int, (w@, v)));
                }
            }
            return;
        }
        i = i + 1;
    }
    let ghost wv = w@;
    best.push((w, v));
    proof {
        assert(pairs_view(best@) =~= bv.push((wv, v)));
    }
}

/// Turns ranked pairs into entries.
fn to_entries(pairs: &Vec<Pair>) -> (r: Vec<Entry>)
    ensures
        entries_view(r@) == pairs_view(pairs@),
{
    let mut r: Vec<Entry> = Vec::new();
    let mut i: usize = 0;
    while i < pairs.len()
        invariant
            i <= pairs@.len(),
            entries_view(r@) == pairs_view(pairs@).take(i as int),
        decreases pairs@.len() - i,
    {
        let word = string_from_chars(pairs[i].0.as_slice());
        let ghost before = entries_view(r@);
        proof {
            assert(word@ == pairs@[i as int].0@);
        }
        r.push(Entry { word, freq: pairs[i].1 });
        proof {
            assert(entries_view(r@) =~= before.push(pairs_view(pairs@)[i as int]));
            assert(pairs_view(pairs@).take(i + 1) =~= pairs_view(pairs@).take(i as int).push(
                pairs_view(pairs@)[i as int],
            ));
        }
        i = i + 1;
    }
    proof {
        assert(pairs_view(pairs@).take(i as int) =~= pairs_view(pairs@));
    }
    r
}

/// Parses the corpus into ranked entries: each valid word once, with its
/// highest frequency, by descending frequency and then alphabetically.
/// Malformed lines are skipped.
pub fn parse_corpus(text: &str) -> (r: Vec<Entry>)
    ensures
        entries_view(r@) == ranked(corpus_words(text@)),
{
    let cs = chars_of(text);
    let lines = split_lines(&cs);
    let ghost lv = chars_view(lines@);
    let total = lines.len() as u64;
    let mut implicit: u64 = 0;
    let mut best: Vec<Pair> = Vec::new();
    let mut i: usize = 0;
    proof {
        assert(lv.take(0) =~= Seq::<Seq<char>>::empty());
        assert(pairs_view(best@) =~= Seq::<(Seq<char>, u64)>::empty());
    }
    while i < lines.len()
        invariant
            lv == chars_view(lines@),
            lv == lines_of(text@),
            total == lv.len(),
            i <= lv.len(),
            (implicit as nat, pairs_view(best@)) == corpus_walk(lv.take(i as int), total as nat),
            implicit <= i,
        decreases lv.len() - i,
    {
        proof {
            assert(lv.take(i + 1).drop_last() =~= lv.take(i as int));
            assert(lv.take(i + 1).last() == lines@[i as int]@);
        }
        let line = trim(&lines[i]);
        if line.len() > 0 && line[0] != '#' {
            match split_at_tab(&line) {
                Some((w, f)) => {
                    match parse_u64(&trim(&f)) {
                        Some(v) => {
                            let word = trim(&w);
                            if valid_word_chars(&word) {
                                upsert_pair(&mut best, word, v);
                            }
                        },
                        None => {},
                    }
                },
                None => {
                    implicit = implicit + 1;
                    let v = total - implicit + 1;
                    if valid_word_chars(&line) {
                        upsert_pair(&mut best, line, v);
                    }
                },
            }
        }
        i = i + 1;
    }
    proof {
        assert(lv.take(i as int) =~= lv);
    }
    let ranked_pairs = rank_pairs(best);
    to_entries(&ranked_pairs)
}

/// Each word of a corpus is recorded once, and only valid words are.
pub proof fn law_corpus_words_distinct(lines: Seq<Seq<char>>, total: nat)
    ensures
        forall|i: int, j: int|
            0 <= i < j < corpus_walk(lines, total).1.len() ==> (#[trigger] corpus_walk(
                lines,
                total,
            ).1[i]).0 != (#[trigger] corpus_walk(lines, total).1[j]).0,
        forall|i: int|
            0 <= i < corpus_walk(lines, total).1.len() ==> valid_word(
                (#[trigger] corpus_walk(lines, total).1[i]).0,
            ),
    decreases lines.len(),
{
    if lines.len() > 0 {
        law_corpus_words_distinct(lines.drop_last(), total);
        let p = corpus_walk(lines.drop_last(), total);
        let line = trimmed(lines.last());
        if !(line.len() == 0 || line[0] == '#') {
            match split_tab(line) {
                Some((w, f)) => {
                    lemma_find_word(p.1, trimmed(w), 0);
                },
                None => {
                    lemma_find_word(p.1, line, 0);
                },
            }
        }
    }
}

/// A word seen several times keeps its highest frequency: recording a word
/// again never lowers what was recorded.
pub proof fn law_upsert_keeps_max(best: Seq<(Seq<char>, u64)>, w: Seq<char>, v: u64, i: int)
    requires
        0 <= i < best.len(),
        best[i].0 == w,
    ensures
        find_word(upsert(best, w, v), w, 0) matches Some(j) && upsert(best, w, v)[j].1 == (if v
            > best[find_word(best, w, 0)->0].1 {
            v
        } else {
            best[find_word(best, w, 0)->0].1
        }),
{
    lemma_find_word(best, w, 0);
    let j = find_word(best, w, 0)->0;
    let u = upsert(best, w, v);
    lemma_find_word(u, w, 0);
    assert(u.len() == best.len());
    assert(u[j].0 == w);
    assert forall|k: int| 0 <= k < j implies u[k].0 != w by {
        assert(u[k] == best[k]);
    }
    assert(find_word(u, w, 0) == Some(j)) by {
        lemma_find_word_first(u, w, 0, j);
    }
}

/// The first match at or after `k` is at `j` when none in `k..j` matches.
proof fn lemma_find_word_first(best: Seq<(Seq<char>, u64)>, w: Seq<char>, k: int, j: int)
    requires
        0 <= k <= j < best.len(),
        best[j].0 == w,
        forall|m: int| k <= m < j ==> best[m].0 != w,
    ensures
        find_word(best, w, k) == Some(j),
    decreases j - k,
{
    if k < j {
        lemma_find_word_first(best, w, k + 1, j);
    }
}


/// The words and frequencies of a list of entries, as pairs.
fn entry_pairs(entries: &Vec<Entry>) -> (r: Vec<Pair>)
    ensures
        pairs_view(r@) == entries_view(entries@),
{
    let mut r: Vec<Pair> = Vec::new();
    let mut i: usize = 0;
    while i < entries.len()
        invariant
            i <= entries@.len(),
            pairs_view(r@) == entries_view(entries@).take(i as int),
        decreases entries@.len() - i,
    {
        let w = chars_of(entries[i].word.as_str());
        let ghost before = pairs_view(r@);
        r.push((w, entries[i].freq));
        proof {
            assert(pairs_view(r@) =~= before.push(entries_view(entries@)[i as int]));
            assert(entries_view(entries@).take(i + 1) =~= entries_view(entries@).take(i as int).push(
                entries_view(entries@)[i as int],
            ));
        }
        i = i + 1;
    }
    proof {
        assert(entries_view(entries@).take(i as int) =~= entries_view(entries@));
    }
    r
}

/// Sorts entries by descending frequency, then ascending word.
pub fn rank(entries: &mut Vec<Entry>)
    ensures
        entries_view(final(entries)@) == ranked(entries_view(old(entries)@)),
{
    let pairs = entry_pairs(entries);
    let sorted = rank_pairs(pairs);
    *entries = to_entries(&sorted);
}

// ---------------------------------------------------------------------------
// The data file.
// ---------------------------------------------------------------------------
/// The escape of one character in a Rust string literal: backslash and
/// double quote get a backslash.
pub open spec fn esc_char(c: char) -> Seq<char> {
    if c == '\\' {
        seq!['\\', '\\']
    } else if c == '"' {
        seq!['\\', '"']
    } else {
        seq![c]
    }
}

/// A word escaped for a Rust string literal.
pub open spec fn esc_of(w: Seq<char>) -> Seq<char>
    decreases w.len(),
{
    if w.len() == 0 {
        Seq::empty()
    } else {
        esc_of(w.drop_last()) + esc_char(w.last())
    }
}

/// Appends the escape of `w` to `out`.
fn push_escaped(out: &mut Vec<char>, w: &str)
    ensures
        final(out)@ == old(out)@ + esc_of(w@),
{
    let cs = chars_of(w);
    let mut i: usize = 0;
    proof {
        assert(old(out)@ + esc_of(cs@.take(0)) =~= old(out)@);
    }
    while i < cs.len()
        invariant
            cs@ == w@,
            i <= cs@.len(),
            out@ == old(out)@ + esc_of(cs@.take(i as int)),
        decreases cs@.len() - i,
    {
        let c = cs[i];
        let ghost before = out@;
        if c == '\\' {
            out.push('\\');
            out.push('\\');
        } else if c == '"' {
            out.push('\\');
            out.push('"');
        } else {
            out.push(c);
        }
        proof {
            assert(cs@.take(i + 1).drop_last() =~= cs@.take(i as int));
            assert(out@ =~= before + esc_char(c));
            assert(out@ =~= old(out)@ + esc_of(cs@.take(i + 1)));
        }
        i = i + 1;
    }
    proof {
        assert(cs@.take(i as int) =~= cs@);
    }
}

/// Escapes a word for a Rust string literal (backslashes first, then double
/// quotes).
pub fn esc(w: &str) -> (r: String)
    ensures
        r@ == esc_of(w@),
{
    let mut out: Vec<char> = Vec::new();
    push_escaped(&mut out, w);
    proof {
        assert(Seq::<char>::empty() + esc_of(w@) =~= esc_of(w@));
    }
    string_from_chars(out.as_slice())
}

/// Appends the characters of `s` to `out`.
fn push_text(out: &mut Vec<char>, s: &str)
    ensures
        final(out)@ == old(out)@ + s@,
{
    let cs = chars_of(s);
    let mut i: usize = 0;
    while i < cs.len()
        invariant
            cs@ == s@,
            i <= cs@.len(),
            out@ == old(out)@ + cs@.take(i as int),
        decreases cs@.len() - i,
    {
        out.push(cs[i]);
        i = i + 1;
        proof {
            assert(out@ =~= old(out)@ + cs@.take(i as int));
        }
    }
    proof {
        assert(cs@.take(i as int) =~= cs@);
    }
}

/// A word as a quoted, escaped Rust string literal.
pub open spec fn quoted(w: Seq<char>) -> Seq<char> {
    seq!['"'] + esc_of(w) + seq!['"']
}

/// The items of one `WORDS` row: each word quoted and followed by `, `.
pub open spec fn word_items(ws: Seq<Seq<char>>) -> Seq<char>
    decreases ws.len(),
{
    if ws.len() == 0 {
        Seq::empty()
    } else {
        word_items(ws.drop_last()) + quoted(ws.last()) + seq![',', ' ']
    }
}

/// The rows of `WORDS`: eight words to a row, each row indented by four
/// spaces.
pub open spec fn words_rows(ws: Seq<Seq<char>>) -> Seq<char>
    decreases ws.len(),
{
    if ws.len() == 0 {
        Seq::empty()
    } else {
        let n: int = if ws.len() < 8 {
            ws.len() as int
        } else {
            8
        };
        seq![' ', ' ', ' ', ' '] + word_items(ws.take(n)) + seq!['\n'] + words_rows(ws.skip(n))
    }
}

/// Quoted words joined by `, `.
pub open spec fn joined(ws: Seq<Seq<char>>) -> Seq<char>
    decreases ws.len(),
{
    if ws.len() == 0 {
        Seq::empty()
    } else if ws.len() == 1 {
        quoted(ws[0])
    } else {
        joined(ws.drop_last()) + seq![',', ' '] + quoted(ws.last())
    }
}

/// One `BIGRAMS` row: `    ("head", &["f1", "f2"]),`.
pub open spec fn bigram_row(head: Seq<char>, followers: Seq<Seq<char>>) -> Seq<char> {
    seq![' ', ' ', ' ', ' ', '(']+ quoted(head) + seq![',', ' ', '&', '['] + joined(followers) + seq![
        ']',
        ')',
        ',',
        '\n',
    ]
}

/// The rows of `BIGRAMS`.
pub open spec fn bigram_rows(bs: Seq<(Seq<char>, Seq<Seq<char>>)>) -> Seq<char>
    decreases bs.len(),
{
    if bs.len() == 0 {
        Seq::empty()
    } else {
        bigram_rows(bs.drop_last()) + bigram_row(bs.last().0, bs.last().1)
    }
}

/// The banner at the top of the data file.
pub open spec fn banner() -> Seq<char> {
    BANNER@
}

/// The comment that opens the data file: what it holds and its format.
pub const BANNER: &'static str = "// Prediction data for the Pocket LLM Terminal firmware (RP2040).\n//\n// Format:\n//   pub static WORDS: &[&str]\n//     Top-N words, sorted by DESCENDING frequency (ties broken alphabetically).\n//     Firmware does a prefix scan over this slice to offer word completions.\n//\n//   pub static BIGRAMS: &[(&str, &[&str])]\n//     For common preceding words (the head), their most-likely next words\n//     (the followers), already ranked best-first and capped per head.\n//     Firmware looks up the last committed word as the head and offers the\n//     followers as next-word predictions. Heads are listed in descending\n//     frequency order; an empty slice means no bigram data was available.\n//\n";

/// The data file for `words` (in rank order) and the bigram follower lists.
pub open spec fn render_text(words: Seq<Seq<char>>, bigrams: Seq<(Seq<char>, Seq<Seq<char>>)>) -> Seq<
    char,
> {
    banner() + "// Counts: "@ + decimal(words.len()) + " words, "@ + decimal(bigrams.len())
        + " bigram heads.\n\n"@ + "pub static WORDS: &[&str] = &[\n"@ + words_rows(words)
        + "];\n\n"@ + "pub static BIGRAMS: &[(&str, &[&str])] = &[\n"@ + bigram_rows(bigrams)
        + "];\n"@
}

/// The texts of a list of string slices.
pub open spec fn strs_view(s: Seq<&str>) -> Seq<Seq<char>> {
    s.map_values(|x: &str| x@)
}

/// The texts of a list of strings.
pub open spec fn strings_view(s: Seq<String>) -> Seq<Seq<char>> {
    s.map_values(|x: String| x@)
}

/// The abstract content of bigram follower lists.
pub open spec fn bigrams_view(b: Seq<(String, Vec<String>)>) -> Seq<(Seq<char>, Seq<Seq<char>>)> {
    b.map_values(|x: (String, Vec<String>)| (x.0@, strings_view(x.1@)))
}

/// Appends the `WORDS` rows of `words[from..]`.
fn push_word_rows(out: &mut Vec<char>, words: &[&str], from: usize)
    requires
        from <= words@.len(),
    ensures
        final(out)@ == old(out)@ + words_rows(strs_view(words@).skip(from as int)),
    decreases words@.len() - from,
{
    let ghost ws = strs_view(words@).skip(from as int);
    if from == words.len() {
        proof {
            assert(ws.len() == 0);
            assert(old(out)@ + words_rows(ws) =~= old(out)@);
        }
        return;
    }
    let n: usize = if words.len() - from < 8 {
        words.len() - from
    } else {
        8
    };
    push_text(out, "    ");
    let ghost row_start = out@;
    let mut k: usize = 0;
    proof {
        reveal_strlit("    ");
        assert(ws.take(n as int).take(0) =~= Seq::<Seq<char>>::empty());
    }
    while k < n
        invariant
            k <= n,
            n <= words@.len() - from,
            from <= words@.len(),
            words@.len() == words.len(),
            ws == strs_view(words@).skip(from as int),
            out@ == row_start + word_items(ws.take(n as int).take(k as int)),
        decreases n - k,
    {
        let ghost before = out@;
        out.push('"');
        push_escaped(out, words[from + k]);
        out.push('"');
        out.push(',');
        out.push(' ');
        proof {
            let t = ws.take(n as int);
            assert(t.take(k + 1).drop_last() =~= t.take(k as int));
            assert(t.take(k + 1).last() == words@[from + k]@);
            assert(out@ =~= before + quoted(words@[from + k]@) + seq![',', ' ']);
        }
        k = k + 1;
    }
    out.push('\n');
    proof {
        assert(ws.take(n as int).take(n as int) =~= ws.take(n as int));
        assert(ws.skip(n as int) =~= strs_view(words@).skip(from + n));
    }
    let ghost mid = out@;
    push_word_rows(out, words, from + n);
    proof {
        assert(out@ =~= old(out)@ + words_rows(ws));
    }
}

/// Appends `joined(followers)`.
fn push_joined(out: &mut Vec<char>, followers: &Vec<String>)
    ensures
        final(out)@ == old(out)@ + joined(strings_view(followers@)),
{
    let ghost fs = strings_view(followers@);
    let mut k: usize = 0;
    proof {
        assert(old(out)@ + joined(fs.take(0)) =~= old(out)@);
    }
    while k < followers.len()
        invariant
            k <= followers@.len(),
            fs == strings_view(followers@),
            out@ == old(out)@ + joined(fs.take(k as int)),
        decreases followers@.len() - k,
    {
        let ghost before = out@;
        if k > 0 {
            out.push(',');
            out.push(' ');
        }
        out.push('"');
        push_escaped(out, followers[k].as_str());
        out.push('"');
        proof {
            assert(fs.take(k + 1).drop_last() =~= fs.take(k as int));
            assert(fs.take(k + 1).last() == followers@[k as int]@);
            if k == 0 {
                assert(fs.take(1)[0] == followers@[0]@);
            }
            assert(out@ =~= old(out)@ + joined(fs.take(k + 1)));
        }
        k = k + 1;
    }
    proof {
        assert(fs.take(k as int) =~= fs);
    }
}

/// Renders the data file from the ranked words and the bigram follower
/// lists: the banner, the counts, `WORDS` eight to a row, then `BIGRAMS`.
pub fn render(words: &[&str], bigrams: &[(String, Vec<String>)]) -> (r: String)
    ensures
        r@ == render_text(strs_view(words@), bigrams_view(bigrams@)),
{
    let mut out: Vec<char> = Vec::new();
    push_text(&mut out, BANNER);
    push_text(&mut out, "// Counts: ");
    let nw = decimal_string(words.len() as u64);
    push_text(&mut out, nw.as_str());
    push_text(&mut out, " words, ");
    let nb = decimal_string(bigrams.len() as u64);
    push_text(&mut out, nb.as_str());
    push_text(&mut out, " bigram heads.\n\n");
    push_text(&mut out, "pub static WORDS: &[&str] = &[\n");
    proof {
        assert(strs_view(words@).skip(0) =~= strs_view(words@));
    }
    push_word_rows(&mut out, words, 0);
    push_text(&mut out, "];\n\n");
    push_text(&mut out, "pub static BIGRAMS: &[(&str, &[&str])] = &[\n");
    let ghost bv = bigrams_view(bigrams@);
    let ghost at = out@;
    let mut i: usize = 0;
    proof {
        assert(at + bigram_rows(bv.take(0)) =~= at);
    }
    while i < bigrams.len()
        invariant
            i <= bigrams@.len(),
            bv == bigrams_view(bigrams@),
            out@ == at + bigram_rows(bv.take(i as int)),
        decreases bigrams@.len() - i,
    {
        let ghost before = out@;
        push_text(&mut out, "    (");
        out.push('"');
        push_escaped(&mut out, bigrams[i].0.as_str());
        out.push('"');
        push_text(&mut out, ", &[");
        push_joined(&mut out, &bigrams[i].1);
        push_text(&mut out, "]),\n");
        proof {
            reveal_strlit("    (");
            reveal_strlit(", &[");
            reveal_strlit("]),\n");
            assert(bv.take(i + 1).drop_last() =~= bv.take(i as int));
            assert(bv.take(i + 1).last() == bv[i as int]);
            assert(out@ =~= before + bigram_row(bv[i as int].0, bv[i as int].1));
        }
        i = i + 1;
    }
    proof {
        assert(bv.take(i as int) =~= bv);
    }
    push_text(&mut out, "];\n");
    proof {
        assert(out@ =~= render_text(strs_view(words@), bv));
    }
    string_from_chars(out.as_slice())
}


// ---------------------------------------------------------------------------
// Command-line arguments.
// ---------------------------------------------------------------------------
/// The tool's arguments.
#[derive(Debug)]
pub struct Args {
    pub input: String,
    pub output_dir: String,
    pub max_words: usize,
}

/// `str::parse::<usize>`.
pub open spec fn parse_usize_of(s: Seq<char>) -> Option<usize> {
    match parse_u64_of(s) {
        Some(v) => if v <= usize::MAX {
            Some(v as usize)
        } else {
            None
        },
        None => None,
    }
}

/// Reading `argv` from `i` on, with the positional arguments and the word
/// cap so far: the positional arguments and the cap at the end, or the
/// message of the first error.
pub open spec fn args_walk(argv: Seq<Seq<char>>, i: int, positional: Seq<Seq<char>>, max: usize) -> Result<
    (Seq<Seq<char>>, usize),
    Seq<char>,
>
    decreases argv.len() - i,
{
    if i < 0 || i >= argv.len() {
        Ok((positional, max))
    } else if argv[i] == "--max-words"@ {
        if i + 1 >= argv.len() {
            Err("--max-words requires a value"@)
        } else {
            match parse_usize_of(argv[i + 1]) {
                None => Err("invalid --max-words value: "@ + argv[i + 1]),
                Some(v) => args_walk(argv, i + 2, positional, v),
            }
        }
    } else if starts_with(argv[i], "--"@) {
        Err("unknown flag: "@ + argv[i])
    } else {
        args_walk(argv, i + 1, positional.push(argv[i]), max)
    }
}

/// The arguments `<input> <output_dir> [--max-words N]`, or the message of
/// what is wrong with them.
pub open spec fn args_of(argv: Seq<Seq<char>>) -> Result<(Seq<char>, Seq<char>, usize), Seq<char>> {
    match args_walk(argv, 0, Seq::empty(), DEFAULT_MAX_WORDS) {
        Err(e) => Err(e),
        Ok((p, m)) => if p.len() != 2 {
            Err("expected <input.txt> <output_dir>"@)
        } else if m == 0 {
            Err("--max-words must be > 0"@)
        } else {
            Ok((p[0], p[1], m))
        },
    }
}

/// A string holding `a` followed by `b`.
fn joined_string(a: &str, b: &str) -> (r: String)
    ensures
        r@ == a@ + b@,
{
    let mut out: Vec<char> = Vec::new();
    push_text(&mut out, a);
    push_text(&mut out, b);
    proof {
        assert(Seq::<char>::empty() + a@ + b@ =~= a@ + b@);
    }
    string_from_chars(out.as_slice())
}

/// A copy of a string.
fn copy_string(s: &str) -> (r: String)
    ensures
        r@ == s@,
{
    let cs = chars_of(s);
    string_from_chars(cs.as_slice())
}

/// Parses the tool's arguments: an input file and an output directory, in
/// that order, and optionally `--max-words N` anywhere (a positive number,
/// [`DEFAULT_MAX_WORDS`] when absent).
pub fn parse_args(argv: &[String]) -> (r: Result<Args, String>)
    ensures
        match r {
            Ok(a) => args_of(strings_view(argv@)) == Ok::<(Seq<char>, Seq<char>, usize), Seq<char>>(
                (a.input@, a.output_dir@, a.max_words),
            ),
            Err(e) => args_of(strings_view(argv@)) == Err::<(Seq<char>, Seq<char>, usize), Seq<char>>(
                e@,
            ),
        },
{
    let ghost av = strings_view(argv@);
    let flag = chars_of("--max-words");
    let dashes = chars_of("--");
    let mut positional: Vec<String> = Vec::new();
    let mut max_words: usize = DEFAULT_MAX_WORDS;
    let mut i: usize = 0;
    proof {
        assert(strings_view(positional@) =~= Seq::<Seq<char>>::empty());
    }
    while i < argv.len()
        invariant
            av == strings_view(argv@),
            flag@ == "--max-words"@,
            dashes@ == "--"@,
            i <= argv@.len(),
            args_walk(av, 0, Seq::empty(), DEFAULT_MAX_WORDS) == args_walk(
                av,
                i as int,
                strings_view(positional@),
                max_words,
            ),
        decreases argv@.len() - i,
    {
        let a = chars_of(argv[i].as_str());
        proof {
            assert(a@ == av[i as int]);
        }
        if same_chars(&a, &flag) {
            if i + 1 >= argv.len() {
                let e = copy_string("--max-words requires a value");
                return Err(e);
            }
            let v = chars_of(argv[i + 1].as_str());
            proof {
                assert(v@ == av[i + 1]);
            }
            match parse_u64(&v) {
                Some(n) => {
                    if n > usize::MAX as u64 {
                        let e = joined_string("invalid --max-words value: ", argv[i + 1].as_str());
                        return Err(e);
                    }
                    max_words = n as usize;
                },
                None => {
                    let e = joined_string("invalid --max-words value: ", argv[i + 1].as_str());
                    return Err(e);
                },
            }
            i = i + 2;
        } else if has_prefix(&a, &dashes) {
            let e = joined_string("unknown flag: ", argv[i].as_str());
            return Err(e);
        } else {
            let ghost before = strings_view(positional@);
            positional.push(copy_string(argv[i].as_str()));
            proof {
                assert(strings_view(positional@) =~= before.push(av[i as int]));
            }
            i = i + 1;
        }
    }
    if positional.len() != 2 {
        return Err(copy_string("expected <input.txt> <output_dir>"));
    }
    if max_words == 0 {
        return Err(copy_string("--max-words must be > 0"));
    }
    let output_dir = positional.pop().unwrap();
    let input = positional.pop().unwrap();
    Ok(Args { input, output_dir, max_words })
}

/// The usage text of the tool.
pub fn usage() -> (s: &'static str)
    ensures
        s@ == USAGE@,
{
    USAGE
}

/// How to call the tool.
pub const USAGE: &'static str = "usage: dict-builder <input.txt> <output_dir> [--max-words N]\n\nInput lines: `word<TAB>frequency` or just `word` (implicit rank by line order).\nOptional bigram lines: `word1<TAB>word2<TAB>frequency`.\nWrites `dict_data.rs` into <output_dir>.";


// ---------------------------------------------------------------------------
// Bigrams.
// ---------------------------------------------------------------------------
/// The pieces of `s` between separators `c`, and the piece after the last.
pub open spec fn pieces_walk(s: Seq<char>, c: char) -> (Seq<Seq<char>>, Seq<char>)
    decreases s.len(),
{
    if s.len() == 0 {
        (Seq::empty(), Seq::empty())
    } else {
        let p = pieces_walk(s.drop_last(), c);
        if s.last() == c {
            (p.0.push(p.1), Seq::empty())
        } else {
            (p.0, p.1.push(s.last()))
        }
    }
}

/// `str::split(c)`: the pieces of `s` between the separators `c`.
pub open spec fn split_on(s: Seq<char>, c: char) -> Seq<Seq<char>> {
    let p = pieces_walk(s, c);
    p.0.push(p.1)
}

/// Splits `s` at every `c`.
fn split_by(s: &Vec<char>, c: char) -> (r: Vec<Vec<char>>)
    ensures
        chars_view(r@) == split_on(s@, c),
{
    let mut parts: Vec<Vec<char>> = Vec::new();
    let mut cur: Vec<char> = Vec::new();
    let mut i: usize = 0;
    while i < s.len()
        invariant
            i <= s@.len(),
            (chars_view(parts@), cur@) == pieces_walk(s@.subrange(0, i as int), c),
        decreases s@.len() - i,
    {
        proof {
            assert(s@.subrange(0, i + 1).drop_last() =~= s@.subrange(0, i as int));
        }
        if s[i] == c {
            let ghost before = chars_view(parts@);
            let mut done: Vec<char> = Vec::new();
            std::mem::swap(&mut done, &mut cur);
            parts.push(done);
            proof {
                assert(chars_view(parts@) =~= before.push(done@));
            }
        } else {
            cur.push(s[i]);
        }
        i = i + 1;
    }
    proof {
        assert(s@.subrange(0, s@.len() as int) =~= s@);
    }
    let ghost before = chars_view(parts@);
    parts.push(cur);
    proof {
        assert(chars_view(parts@) =~= before.push(pieces_walk(s@, c).1));
    }
    parts
}

/// The bigram a corpus line holds for one of `heads`: `head<TAB>word<TAB>freq`
/// with both words valid and the head among `heads`.
pub open spec fn bigram_of_line(line: Seq<char>, heads: Seq<Seq<char>>) -> Option<
    (Seq<char>, Seq<char>, u64),
> {
    let t = trimmed(line);
    if t.len() == 0 || t[0] == '#' {
        None
    } else {
        let parts = split_on(t, '\t');
        if parts.len() != 3 {
            None
        } else {
            let w1 = trimmed(parts[0]);
            let w2 = trimmed(parts[1]);
            match parse_u64_of(trimmed(parts[2])) {
                None => None,
                Some(v) => if valid_word(w1) && valid_word(w2) && heads.contains(w1) {
                    Some((w1, w2, v))
                } else {
                    None
                },
            }
        }
    }
}

/// Index of the entry for the pair `(h, w)`, at or after `i`.
pub open spec fn find_pair(walk: Seq<(Seq<char>, Seq<char>, nat)>, h: Seq<char>, w: Seq<char>, i: int) -> Option<
    int,
>
    decreases walk.len() - i,
{
    if i < 0 || i >= walk.len() {
        None
    } else if walk[i].0 == h && walk[i].1 == w {
        Some(i)
    } else {
        find_pair(walk, h, w, i + 1)
    }
}

proof fn lemma_find_pair(walk: Seq<(Seq<char>, Seq<char>, nat)>, h: Seq<char>, w: Seq<char>, i: int)
    requires
        0 <= i,
    ensures
        find_pair(walk, h, w, i) matches Some(j) ==> i <= j < walk.len() && walk[j].0 == h
            && walk[j].1 == w,
    decreases walk.len() - i,
{
    if i < walk.len() && !(walk[i].0 == h && walk[i].1 == w) {
        lemma_find_pair(walk, h, w, i + 1);
    }
}

/// Adds `v` to the weight of the pair `(h, w)`.
pub open spec fn add_pair(walk: Seq<(Seq<char>, Seq<char>, nat)>, h: Seq<char>, w: Seq<char>, v: nat) -> Seq<
    (Seq<char>, Seq<char>, nat),
> {
    match find_pair(walk, h, w, 0) {
        Some(i) => walk.update(i, (h, w, walk[i].2 + v)),
        None => walk.push((h, w, v)),
    }
}

/// The summed weights of the `(head, follower)` pairs of the corpus lines,
/// in order of first appearance.
pub open spec fn bigram_walk(lines: Seq<Seq<char>>, heads: Seq<Seq<char>>) -> Seq<
    (Seq<char>, Seq<char>, nat),
>
    decreases lines.len(),
{
    if lines.len() == 0 {
        Seq::empty()
    } else {
        let p = bigram_walk(lines.drop_last(), heads);
        match bigram_of_line(lines.last(), heads) {
            Some((h, w, v)) => add_pair(p, h, w, v as nat),
            None => p,
        }
    }
}

/// Whether every summed weight fits 64 bits.
pub open spec fn sums_fit(walk: Seq<(Seq<char>, Seq<char>, nat)>) -> bool {
    forall|i: int| 0 <= i < walk.len() ==> (#[trigger] walk[i]).2 <= u64::MAX
}

/// Whether no sum of weights overflows 64 bits at any line of the corpus.
pub open spec fn bigram_sums_fit(text: Seq<char>, heads: Seq<Seq<char>>) -> bool {
    forall|k: int|
        0 <= k <= lines_of(text).len() ==> sums_fit(#[trigger] bigram_walk(lines_of(text).take(k), heads))
}

/// The followers of `h` with their weights.
pub open spec fn followers_of(walk: Seq<(Seq<char>, Seq<char>, nat)>, h: Seq<char>) -> Seq<
    (Seq<char>, u64),
>
    decreases walk.len(),
{
    if walk.len() == 0 {
        Seq::empty()
    } else {
        let r = followers_of(walk.drop_last(), h);
        if walk.last().0 == h {
            r.push((walk.last().1, walk.last().2 as u64))
        } else {
            r
        }
    }
}

/// The best followers of `h`: ranked, at most [`MAX_FOLLOWERS`].
pub open spec fn top_followers(walk: Seq<(Seq<char>, Seq<char>, nat)>, h: Seq<char>) -> Seq<Seq<char>> {
    let r = ranked(followers_of(walk, h));
    let n = if r.len() < MAX_FOLLOWERS {
        r.len()
    } else {
        MAX_FOLLOWERS as nat
    };
    r.take(n as int).map_values(|p: (Seq<char>, u64)| p.0)
}

/// Whether `heads[i]` is the last occurrence of its word in `heads`.
pub open spec fn last_occurrence(heads: Seq<Seq<char>>, i: int) -> bool {
    forall|k: int| i < k < heads.len() ==> heads[k] != heads[i]
}

/// The bigram rows for `heads[i..]`: each head with followers, at the
/// position of its last occurrence in `heads`.
pub open spec fn bigram_heads(heads: Seq<Seq<char>>, walk: Seq<(Seq<char>, Seq<char>, nat)>, i: int) -> Seq<
    (Seq<char>, Seq<Seq<char>>),
>
    decreases heads.len() - i,
{
    if i < 0 || i >= heads.len() {
        Seq::empty()
    } else {
        let rest = bigram_heads(heads, walk, i + 1);
        if last_occurrence(heads, i) && top_followers(walk, heads[i]).len() > 0 {
            seq![(heads[i], top_followers(walk, heads[i]))] + rest
        } else {
            rest
        }
    }
}

/// The bigram follower lists of a corpus for the ranked `heads`.
pub open spec fn bigrams_of(text: Seq<char>, heads: Seq<Seq<char>>) -> Seq<(Seq<char>, Seq<Seq<char>>)> {
    bigram_heads(heads, bigram_walk(lines_of(text), heads), 0)
}

/// The abstract content of the exec walk.
pub open spec fn walk_view(w: Seq<(Vec<char>, Vec<char>, u64)>) -> Seq<(Seq<char>, Seq<char>, nat)> {
    w.map_values(|t: (Vec<char>, Vec<char>, u64)| (t.0@, t.1@, t.2 as nat))
}

/// Whether `w` is one of `heads`.
fn contains_word(heads: &Vec<Vec<char>>, w: &Vec<char>) -> (r: bool)
    ensures
        r == chars_view(heads@).contains(w@),
{
    let ghost hv = chars_view(heads@);
    let mut i: usize = 0;
    while i < heads.len()
        invariant
            hv == chars_view(heads@),
            i <= heads@.len(),
            forall|k: int| 0 <= k < i ==> hv[k] != w@,
        decreases heads@.len() - i,
    {
        if same_chars(&heads[i], w) {
            proof {
                assert(hv[i as int] == w@);
            }
            return true;
        }
        i = i + 1;
    }
    false
}

/// The bigram held by one corpus line.
fn bigram_line(line: &Vec<char>, heads: &Vec<Vec<char>>) -> (r: Option<(Vec<char>, Vec<char>, u64)>)
    ensures
        match r {
            Some((h, w, v)) => bigram_of_line(line@, chars_view(heads@)) == Some(
                (h@, w@, v),
            ),
            None => bigram_of_line(line@, chars_view(heads@)) is None,
        },
{
    let t = trim(line);
    if t.len() == 0 || t[0] == '#' {
        return None;
    }
    let parts = split_by(&t, '\t');
    proof {
        assert(chars_view(parts@).len() == parts@.len());
    }
    if parts.len() != 3 {
        return None;
    }
    proof {
        assert(parts@[0]@ == split_on(t@, '\t')[0]);
        assert(parts@[1]@ == split_on(t@, '\t')[1]);
        assert(parts@[2]@ == split_on(t@, '\t')[2]);
    }
    let w1 = trim(&parts[0]);
    let w2 = trim(&parts[1]);
    let v = match parse_u64(&trim(&parts[2])) {
        Some(v) => v,
        None => {
            return None;
        },
    };
    if valid_word_chars(&w1) && valid_word_chars(&w2) && contains_word(heads, &w1) {
        Some((w1, w2, v))
    } else {
        None
    }
}

/// Adds weight `v` to the pair `(h, w)` of the walk; `false`, leaving the
/// walk as it was, when the summed weight would not fit 64 bits.
fn add_pair_exec(walk: &mut Vec<(Vec<char>, Vec<char>, u64)>, h: Vec<char>, w: Vec<char>, v: u64) -> (ok: bool)
    requires
        sums_fit(walk_view(old(walk)@)),
    ensures
        ok ==> walk_view(final(walk)@) == add_pair(walk_view(old(walk)@), h@, w@, v as nat),
        ok <==> sums_fit(add_pair(walk_view(old(walk)@), h@, w@, v as nat)),
{
    let ghost before = walk_view(walk@);
    let mut i: usize = 0;
    while i < walk.len()
        invariant
            before == walk_view(walk@),
            before == walk_view(old(walk)@),
            sums_fit(before),
            i <= walk@.len(),
            find_pair(before, h@, w@, 0) == find_pair(before, h@, w@, i as int),
        decreases walk@.len() - i,
    {
        if same_chars(&walk[i].0, &h) && same_chars(&walk[i].1, &w) {
            let ghost after = add_pair(before, h@, w@, v as nat);
            proof {
                assert(before[i as int].0 == h@ && before[i as int].1 == w@);
                assert(after[i as int].2 == before[i as int].2 + v);
                assert forall|k: int| 0 <= k < after.len() && k != i implies (#[trigger] after[k]).2
                    <= u64::MAX by {
                    assert(after[k] == before[k]);
                }
            }
            let sum = match walk[i].2.checked_add(v) {
                Some(t) => t,
                None => {
                    proof {
                        assert(!(after[i as int].2 <= u64::MAX));
                    }
                    return false;
                },
            };
            let ghost hv = h@;
            let ghost wv = w@;
            walk.set(i, (h, w, sum));
            proof {
                assert(walk_view(walk@) =~= before.update(
                    i as int,
                    (hv, wv, (before[i as int].2 + v) as nat),
                ));
            }
            return true;
        }
        i = i + 1;
    }
    let ghost hv = h@;
    let ghost wv = w@;
    walk.push((h, w, v));
    proof {
        assert(walk_view(walk@) =~= before.push((hv, wv, v as nat)));
    }
    true
}

/// Sums the weights of the bigram lines; `None` when a sum overflows.
fn bigram_walk_exec(lines: &Vec<Vec<char>>, hc: &Vec<Vec<char>>) -> (r: Option<
    Vec<(Vec<char>, Vec<char>, u64)>,
>)
    ensures
        r is Some <==> (forall|k: int|
            0 <= k <= lines@.len() ==> sums_fit(
                #[trigger] bigram_walk(
                    chars_view(lines@).take(k),
                    chars_view(hc@),
                ),
            )),
        r matches Some(w) ==> walk_view(w@) == bigram_walk(
            chars_view(lines@),
            chars_view(hc@),
        ),
{
    let ghost lv = chars_view(lines@);
    let ghost hs = chars_view(hc@);
    let mut walk: Vec<(Vec<char>, Vec<char>, u64)> = Vec::new();
    let mut i: usize = 0;
    proof {
        assert(lv.take(0) =~= Seq::<Seq<char>>::empty());
        assert(walk_view(walk@) =~= Seq::<(Seq<char>, Seq<char>, nat)>::empty());
    }
    while i < lines.len()
        invariant
            lv == chars_view(lines@),
            hs == chars_view(hc@),
            i <= lv.len(),
            walk_view(walk@) == bigram_walk(lv.take(i as int), hs),
            forall|k: int| 0 <= k <= i ==> sums_fit(#[trigger] bigram_walk(lv.take(k), hs)),
        decreases lv.len() - i,
    {
        proof {
            assert(lv.take(i + 1).drop_last() =~= lv.take(i as int));
            assert(lv.take(i + 1).last() == lines@[i as int]@);
        }
        match bigram_line(&lines[i], hc) {
            Some((h, w, v)) => {
                let ghost hv = h@;
                let ghost wv = w@;
                proof {
                    assert(bigram_walk(lv.take(i + 1), hs) == add_pair(
                        walk_view(walk@),
                        hv,
                        wv,
                        v as nat,
                    ));
                }
                if !add_pair_exec(&mut walk, h, w, v) {
                    proof {
                        assert(!sums_fit(bigram_walk(lv.take(i + 1), hs)));
                    }
                    return None;
                }
            },
            None => {},
        }
        i = i + 1;
        proof {
            assert forall|k: int| 0 <= k <= i implies sums_fit(
                #[trigger] bigram_walk(lv.take(k), hs),
            ) by {
                if k == i {
                    assert(bigram_walk(lv.take(k), hs) == walk_view(walk@));
                }
            }
        }
    }
    proof {
        assert(lv.take(i as int) =~= lv);
    }
    Some(walk)
}

/// The followers of `h` in the walk, with their weights.
fn followers_exec(walk: &Vec<(Vec<char>, Vec<char>, u64)>, h: &Vec<char>) -> (r: Vec<Pair>)
    ensures
        pairs_view(r@) == followers_of(walk_view(walk@), h@),
{
    let ghost wv = walk_view(walk@);
    let mut r: Vec<Pair> = Vec::new();
    let mut i: usize = 0;
    proof {
        assert(pairs_view(r@) =~= followers_of(wv.take(0), h@));
    }
    while i < walk.len()
        invariant
            wv == walk_view(walk@),
            i <= walk@.len(),
            pairs_view(r@) == followers_of(wv.take(i as int), h@),
        decreases walk@.len() - i,
    {
        proof {
            assert(wv.take(i + 1).drop_last() =~= wv.take(i as int));
            assert(wv.take(i + 1).last() == wv[i as int]);
        }
        if same_chars(&walk[i].0, h) {
            let f = slice_copy(&walk[i].1, 0, walk[i].1.len());
            let ghost before = pairs_view(r@);
            r.push((f, walk[i].2));
            proof {
                assert(pairs_view(r@) =~= before.push((wv[i as int].1, wv[i as int].2 as u64)));
            }
        }
        i = i + 1;
    }
    proof {
        assert(wv.take(i as int) =~= wv);
    }
    r
}

/// The first `n` words of ranked pairs, as strings.
fn top_words(pairs: &Vec<Pair>, n: usize) -> (r: Vec<String>)
    requires
        n <= pairs@.len(),
    ensures
        strings_view(r@) == pairs_view(pairs@).take(n as int).map_values(|p: (Seq<char>, u64)| p.0),
{
    let ghost pv = pairs_view(pairs@);
    let mut r: Vec<String> = Vec::new();
    let mut i: usize = 0;
    while i < n
        invariant
            pv == pairs_view(pairs@),
            n <= pairs@.len(),
            i <= n,
            strings_view(r@) == pv.take(i as int).map_values(|p: (Seq<char>, u64)| p.0),
        decreases n - i,
    {
        let s = string_from_chars(pairs[i].0.as_slice());
        let ghost before = strings_view(r@);
        r.push(s);
        proof {
            assert(strings_view(r@) =~= before.push(pv[i as int].0));
            assert(pv.take(i + 1).map_values(|p: (Seq<char>, u64)| p.0) =~= pv.take(i as int).map_values(
                |p: (Seq<char>, u64)| p.0,
            ).push(pv[i as int].0));
        }
        i = i + 1;
    }
    r
}

/// Whether no later head equals `heads[i]`.
fn is_last_occurrence(heads: &Vec<Vec<char>>, i: usize) -> (r: bool)
    requires
        i < heads.len(),
    ensures
        r == last_occurrence(chars_view(heads@), i as int),
{
    let ghost hv = chars_view(heads@);
    let mut k = i + 1;
    while k < heads.len()
        invariant
            hv == chars_view(heads@),
            i < k <= heads@.len(),
            forall|m: int| i < m < k ==> hv[m] != hv[i as int],
        decreases heads@.len() - k,
    {
        if same_chars(&heads[k], &heads[i]) {
            proof {
                assert(hv[k as int] == hv[i as int]);
            }
            return false;
        }
        k = k + 1;
    }
    true
}

/// The character vectors of the heads.
fn head_chars(heads: &[String]) -> (hc: Vec<Vec<char>>)
    ensures
        chars_view(hc@) == strings_view(heads@),
{
    let ghost hs = strings_view(heads@);
    let mut hc: Vec<Vec<char>> = Vec::new();
    let mut k: usize = 0;
    while k < heads.len()
        invariant
            k <= heads@.len(),
            hs == strings_view(heads@),
            chars_view(hc@) == hs.take(k as int),
        decreases heads@.len() - k,
    {
        let ghost before = chars_view(hc@);
        hc.push(chars_of(heads[k].as_str()));
        proof {
            assert(chars_view(hc@) =~= before.push(hs[k as int]));
            assert(hs.take(k + 1) =~= hs.take(k as int).push(hs[k as int]));
        }
        k = k + 1;
    }
    proof {
        assert(hs.take(k as int) =~= hs);
    }
    hc
}

/// The bigram rows of a summed walk, heads in the order of `heads`.
fn bigram_rows_exec(heads: &[String], hc: &Vec<Vec<char>>, walk: &Vec<(Vec<char>, Vec<char>, u64)>) -> (r:
    Vec<(String, Vec<String>)>)
    requires
        chars_view(hc@) == strings_view(heads@),
    ensures
        bigrams_view(r@) == bigram_heads(strings_view(heads@), walk_view(walk@), 0),
{
    let ghost hs = strings_view(heads@);
    let ghost wv = walk_view(walk@);
    let mut out: Vec<(String, Vec<String>)> = Vec::new();
    let mut j: usize = heads.len();
    proof {
        assert(bigrams_view(out@) =~= bigram_heads(hs, wv, heads@.len() as int));
    }
    while j > 0
        invariant
            j <= heads@.len(),
            hc@.len() == heads@.len(),
            hs == chars_view(hc@),
            hs == strings_view(heads@),
            wv == walk_view(walk@),
            bigrams_view(out@) == bigram_heads(hs, wv, j as int),
        decreases j,
    {
        j = j - 1;
        let ghost rest = bigrams_view(out@);
        if is_last_occurrence(hc, j) {
            let fs = followers_exec(walk, &hc[j]);
            let ranked_fs = rank_pairs(fs);
            let n = if ranked_fs.len() < MAX_FOLLOWERS {
                ranked_fs.len()
            } else {
                MAX_FOLLOWERS
            };
            if n > 0 {
                let top = top_words(&ranked_fs, n);
                let head = copy_string(heads[j].as_str());
                out.insert(0, (head, top));
                proof {
                    assert(bigrams_view(out@) =~= seq![(hs[j as int], top_followers(wv, hs[j as int]))]
                        + rest);
                }
            }
        }
    }
    out
}

/// Builds the bigram follower lists from the `head<TAB>word<TAB>freq` lines
/// of the corpus, for heads among `heads`: each head's followers ranked by
/// summed weight (then alphabetically) and cut to [`MAX_FOLLOWERS`], heads
/// in the order of `heads`. The summed weights must fit 64 bits.
pub fn parse_bigrams(text: &str, heads: &[String]) -> (r: Vec<(String, Vec<String>)>)
    requires
        bigram_sums_fit(text@, strings_view(heads@)),
    ensures
        bigrams_view(r@) == bigrams_of(text@, strings_view(heads@)),
{
    let hc = head_chars(heads);
    let cs = chars_of(text);
    let lines = split_lines(&cs);
    match bigram_walk_exec(&lines, &hc) {
        Some(walk) => bigram_rows_exec(heads, &hc, &walk),
        None => {
            proof {
                let k = choose|k: int|
                    0 <= k <= lines@.len() && !sums_fit(
                        #[trigger] bigram_walk(
                            chars_view(lines@).take(k),
                            chars_view(hc@),
                        ),
                    );
                assert(!sums_fit(bigram_walk(lines_of(text@).take(k), strings_view(heads@))));
            }
            Vec::new()
        },
    }
}

/// [`parse_bigrams`] for any corpus: `None` when a summed weight would not
/// fit 64 bits.
pub fn checked_bigrams(text: &str, heads: &[String]) -> (r: Option<Vec<(String, Vec<String>)>>)
    ensures
        r is Some <==> bigram_sums_fit(text@, strings_view(heads@)),
        r matches Some(b) ==> bigrams_view(b@) == bigrams_of(text@, strings_view(heads@)),
{
    let hc = head_chars(heads);
    let cs = chars_of(text);
    let lines = split_lines(&cs);
    match bigram_walk_exec(&lines, &hc) {
        Some(walk) => Some(bigram_rows_exec(heads, &hc, &walk)),
        None => None,
    }
}

} // verus!
