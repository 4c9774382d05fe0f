//! Next-word prediction interface.
//!
//! The keyboard depends only on the [`Predictor`] trait, so its logic is
//! independent of how candidates are ranked. [`StaticPredictor`] is a simple
//! prefix matcher over a fixed word list, used in tests and as a fallback.
use vstd::prelude::*;
use crate::scan::{has_prefix, same_chars, starts_with};
use crate::text::{chars_of, utf8_len, BoundedString};

verus! {

/// Capacity in bytes of one predicted word.
pub const CANDIDATE_CAP: usize = 24;

/// Most candidates shown on the prediction row.
pub const MAX_CANDIDATES: usize = 4;

/// A single predicted word.
pub type Candidate = BoundedString<CANDIDATE_CAP>;

/// Up to [`MAX_CANDIDATES`] ranked candidates.
pub type Candidates = Vec<Candidate>;

/// The texts of a list of candidates.
pub open spec fn cands_view(c: Seq<Candidate>) -> Seq<Seq<char>> {
    c.map_values(|x: Candidate| x@)
}

/// Produces word candidates for the current partial word.
pub trait Predictor {
    /// The candidates offered for `prefix`.
    spec fn predicted(&self, prefix: Seq<char>) -> Seq<Seq<char>>;

    /// At most four candidates are offered for any prefix.
    proof fn lemma_predicted_bounded(&self, prefix: Seq<char>)
        ensures
            self.predicted(prefix).len() <= MAX_CANDIDATES,
    ;

    /// Fills `out` (replacing what it held) with at most four candidates for
    /// `prefix`.
    fn predict(&self, prefix: &str, out: &mut Candidates)
        ensures
            cands_view(final(out)@) == self.predicted(prefix@),
            final(out)@.len() <= MAX_CANDIDATES,
    ;
}

/// Prefix-match predictor backed by a static word list.
pub struct StaticPredictor<'a> {
    pub words: &'a [&'a str],
}

impl<'a> StaticPredictor<'a> {
    /// A predictor over `words`, which are offered in list order.
    pub fn new(words: &'a [&'a str]) -> (p: Self)
        ensures
            p.words == words,
    {
        Self { words }
    }
}

/// Whether `w` is offered for `prefix`: it extends the prefix strictly and fits
/// in a candidate.
pub open spec fn offered(w: Seq<char>, prefix: Seq<char>) -> bool {
    starts_with(w, prefix) && w != prefix && utf8_len(w) <= CANDIDATE_CAP
}

/// A list that starts with at most four entries never grows past four.
pub proof fn lemma_matches_from_bounded(
    words: Seq<Seq<char>>,
    prefix: Seq<char>,
    i: int,
    acc: Seq<Seq<char>>,
)
    requires
        acc.len() <= MAX_CANDIDATES,
    ensures
        matches_from(words, prefix, i, acc).len() <= MAX_CANDIDATES,
    decreases words.len() - i,
{
    if i < 0 || i >= words.len() || acc.len() >= MAX_CANDIDATES {
    } else if offered(words[i], prefix) {
        lemma_matches_from_bounded(words, prefix, i + 1, acc.push(words[i]));
    } else {
        lemma_matches_from_bounded(words, prefix, i + 1, acc);
    }
}

/// The words from index `i` on that are offered for `prefix`, appended to
/// `acc` until it holds four.
pub open spec fn matches_from(
    words: Seq<Seq<char>>,
    prefix: Seq<char>,
    i: int,
    acc: Seq<Seq<char>>,
) -> Seq<Seq<char>>
    decreases words.len() - i,
{
    if i < 0 || i >= words.len() || acc.len() >= MAX_CANDIDATES {
        acc
    } else if offered(words[i], prefix) {
        matches_from(words, prefix, i + 1, acc.push(words[i]))
    } else {
        matches_from(words, prefix, i + 1, acc)
    }
}

/// The first four words of `words` that strictly extend a non-empty `prefix`
/// and fit in a candidate, in list order; nothing for an empty prefix.
pub open spec fn static_predictions(words: Seq<Seq<char>>, prefix: Seq<char>) -> Seq<Seq<char>> {
    if prefix.len() == 0 {
        Seq::empty()
    } else {
        matches_from(words, prefix, 0, Seq::empty())
    }
}

/// The test a word passes to be offered for `prefix`.
pub open spec fn offered_to(prefix: Seq<char>) -> spec_fn(Seq<char>) -> bool {
    |w: Seq<char>| offered(w, prefix)
}

/// The first `n` items of `s` (all of them when there are fewer).
pub open spec fn first_n<A>(s: Seq<A>, n: nat) -> Seq<A> {
    if s.len() <= n {
        s
    } else {
        s.take(n as int)
    }
}

/// The scan from `i` gives the words already taken followed by the offered
/// words from `i` on, cut to four.
proof fn lemma_matches_from_first(
    words: Seq<Seq<char>>,
    prefix: Seq<char>,
    i: int,
    acc: Seq<Seq<char>>,
)
    requires
        0 <= i <= words.len(),
        acc.len() <= MAX_CANDIDATES,
    ensures
        matches_from(words, prefix, i, acc) == first_n(
            acc + words.skip(i).filter(offered_to(prefix)),
            MAX_CANDIDATES as nat,
        ),
    decreases words.len() - i,
{
    let f = offered_to(prefix);
    let all = acc + words.skip(i).filter(f);
    if i == words.len() {
        assert(words.skip(i) =~= Seq::<Seq<char>>::empty());
        assert(words.skip(i).filter(f) =~= Seq::<Seq<char>>::empty());
        assert(all =~= acc);
    } else if acc.len() >= MAX_CANDIDATES {
        assert(all.take(MAX_CANDIDATES as int) =~= acc);
    } else {
        assert(words.skip(i) =~= seq![words[i]] + words.skip(i + 1));
        words.skip(i + 1).lemma_filter_prepend(words[i], f);
        if offered(words[i], prefix) {
            assert(acc.push(words[i]) + words.skip(i + 1).filter(f) =~= all);
            lemma_matches_from_first(words, prefix, i + 1, acc.push(words[i]));
        } else {
            assert(acc + words.skip(i + 1).filter(f) =~= all);
            lemma_matches_from_first(words, prefix, i + 1, acc);
        }
    }
}

/// The predictions for a non-empty prefix are the first four words of the
/// list that are offered for it, in list order; an empty prefix gets none.
pub proof fn law_predictions_are_first_offered(words: Seq<Seq<char>>, prefix: Seq<char>)
    ensures
        prefix.len() > 0 ==> static_predictions(words, prefix) == first_n(
            words.filter(offered_to(prefix)),
            MAX_CANDIDATES as nat,
        ),
        prefix.len() == 0 ==> static_predictions(words, prefix).len() == 0,
{
    if prefix.len() > 0 {
        lemma_matches_from_first(words, prefix, 0, Seq::empty());
        assert(words.skip(0) =~= words);
        assert(Seq::<Seq<char>>::empty() + words.filter(offered_to(prefix)) =~= words.filter(
            offered_to(prefix),
        ));
    }
}

/// A word is never skipped: a word of the list that strictly extends a
/// non-empty prefix and fits a candidate is predicted unless four offered
/// words come before it; and every prediction is such a word of the list.
pub proof fn law_offered_word_is_predicted(words: Seq<Seq<char>>, prefix: Seq<char>, j: int)
    requires
        prefix.len() > 0,
        0 <= j < words.len(),
        offered(words[j], prefix),
        words.take(j).filter(offered_to(prefix)).len() < MAX_CANDIDATES,
    ensures
        static_predictions(words, prefix).contains(words[j]),
        forall|w: Seq<char>|
            static_predictions(words, prefix).contains(w) ==> words.contains(w) && offered(w, prefix),
{
    let f = offered_to(prefix);
    law_predictions_are_first_offered(words, prefix);
    let a = words.take(j);
    let b = words.skip(j);
    assert(words =~= a + b);
    Seq::filter_distributes_over_add(a, b, f);
    assert(b =~= seq![words[j]] + words.skip(j + 1));
    words.skip(j + 1).lemma_filter_prepend(words[j], f);
    let all = words.filter(f);
    let k = a.filter(f).len();
    assert(all =~= a.filter(f) + (seq![words[j]] + words.skip(j + 1).filter(f)));
    assert(all[k as int] == words[j]);
    let r = static_predictions(words, prefix);
    assert(r[k as int] == words[j]);
    assert forall|w: Seq<char>| r.contains(w) implies words.contains(w) && offered(w, prefix) by {
        let m = choose|m: int| 0 <= m < r.len() && r[m] == w;
        assert(all[m] == w);
        words.lemma_filter_contains_rev(f, w);
        words.lemma_filter_pred(f, m);
    }
}

/// The texts of a word list.
pub open spec fn words_view(words: Seq<&str>) -> Seq<Seq<char>> {
    words.map_values(|w: &str| w@)
}

impl<'a> Predictor for StaticPredictor<'a> {
    open spec fn predicted(&self, prefix: Seq<char>) -> Seq<Seq<char>> {
        static_predictions(words_view(self.words@), prefix)
    }

    proof fn lemma_predicted_bounded(&self, prefix: Seq<char>) {
        if prefix.len() > 0 {
            lemma_matches_from_bounded(words_view(self.words@), prefix, 0, Seq::empty());
        }
    }

    fn predict(&self, prefix: &str, out: &mut Candidates) {
        out.clear();
        let ghost words = words_view(self.words@);
        proof {
            assert(cands_view(out@) =~= Seq::<Seq<char>>::empty());
        }
        if prefix.is_empty() {
            return;
        }
        let p = chars_of(prefix);
        let mut i: usize = 0;
        while i < self.words.len() && out.len() < MAX_CANDIDATES
            invariant
                i <= self.words@.len(),
                words == words_view(self.words@),
                p@ == prefix@,
                p@.len() > 0,
                out@.len() <= MAX_CANDIDATES,
                matches_from(words, p@, 0, Seq::empty()) == matches_from(
                    words,
                    p@,
                    i as int,
                    cands_view(out@),
                ),
            decreases self.words@.len() - i,
        {
            let w: &str = self.words[i];
            let wv = chars_of(w);
            if has_prefix(&wv, &p) && !same_chars(&wv, &p) {
                let mut c = Candidate::new();
                let ghost cv = cands_view(out@);
                if c.push_str(w).is_ok() {
                    out.push(c);
                    proof {
                        assert(cands_view(out@) =~= cv.push(w@));
                    }
                }
            }
            i = i + 1;
        }
        proof {
            assert(words.len() == self.words@.len());
        }
    }
}

} // verus!
