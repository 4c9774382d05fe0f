//! Searching and trimming over character sequences, and the model of what a
//! run of capacity-checked appends leaves in a `BoundedString`.
use vstd::prelude::*;
use crate::text::{utf8_len, lemma_utf8_len_push, lemma_utf8_len_concat, lemma_utf8_len_single, BoundedString};

verus! {

broadcast use vstd::seq_lib::group_seq_properties;

/// First index `i >= from` at which `pat` occurs in `s`.
pub open spec fn find_from(s: Seq<char>, pat: Seq<char>, from: int) -> Option<int>
    decreases s.len() + 1 - from,
{
    if from < 0 || from + pat.len() > s.len() {
        None
    } else if s.subrange(from, from + pat.len()) == pat {
        Some(from)
    } else {
        find_from(s, pat, from + 1)
    }
}

/// What `find_from` returns: a real occurrence, and none earlier.
pub proof fn lemma_find_from(s: Seq<char>, pat: Seq<char>, from: int)
    requires
        0 <= from,
    ensures
        find_from(s, pat, from) matches Some(i) ==> from <= i && i + pat.len() <= s.len()
            && s.subrange(i, i + pat.len()) == pat,
        find_from(s, pat, from) matches Some(i) ==> forall|j: int|
            from <= j < i ==> #[trigger] s.subrange(j, j + pat.len()) != pat,
        find_from(s, pat, from) is None ==> forall|j: int|
            from <= j && j + pat.len() <= s.len() ==> #[trigger] s.subrange(j, j + pat.len()) != pat,
    decreases s.len() + 1 - from,
{
    if from + pat.len() > s.len() {
    } else if s.subrange(from, from + pat.len()) == pat {
    } else {
        lemma_find_from(s, pat, from + 1);
    }
}

/// Whether `pat` occurs in `s` at position `i`.
fn matches_at(s: &Vec<char>, pat: &Vec<char>, i: usize) -> (b: bool)
    requires
        i + pat@.len() <= s@.len(),
    ensures
        b == (s@.subrange(i as int, i + pat@.len()) == pat@),
{
    let n = s.len();
    let mut k: usize = 0;
    while k < pat.len()
        invariant
            n == s@.len(),
            i + pat@.len() <= s@.len(),
            k <= pat@.len(),
            forall|t: int| 0 <= t < k ==> s@[i + t] == pat@[t],
        decreases pat@.len() - k,
    {
        if s[i + k] != pat[k] {
            assert(s@.subrange(i as int, i + pat@.len())[k as int] != pat@[k as int]);
            return false;
        }
        k = k + 1;
    }
    assert(s@.subrange(i as int, i + pat@.len()) =~= pat@);
    true
}

/// Exec search: first occurrence of `pat` in `s` at or after `from`.
pub fn find_at(s: &Vec<char>, pat: &Vec<char>, from: usize) -> (r: Option<usize>)
    ensures
        r matches Some(i) ==> find_from(s@, pat@, from as int) == Some(i as int),
        r matches Some(i) ==> from <= i && i + pat@.len() <= s@.len(),
        r is None ==> find_from(s@, pat@, from as int) is None,
        s@.len() <= usize::MAX,
{
    proof {
        lemma_find_from(s@, pat@, from as int);
    }
    let mut i = from;
    while i <= s.len() && pat.len() <= s.len() - i
        invariant
            from <= i,
            find_from(s@, pat@, from as int) == find_from(s@, pat@, i as int),
        decreases s@.len() + 1 - i,
    {
        if matches_at(s, pat, i) {
            return Some(i);
        }
        proof {
            if pat@.len() == 0 {
                assert(s@.subrange(i as int, i as int) =~= pat@);
            }
        }
        i = i + 1;
    }
    None
}

/// Characters for which `char::is_whitespace` holds (the Unicode
/// `White_Space` property).
pub open spec fn is_ws(c: char) -> bool {
    let v = c as u32;
    ||| v == 0x20
    ||| 0x09 <= v <= 0x0d
    ||| v == 0x85
    ||| v == 0xa0
    ||| v == 0x1680
    ||| 0x2000 <= v <= 0x200a
    ||| v == 0x2028
    ||| v == 0x2029
    ||| v == 0x202f
    ||| v == 0x205f
    ||| v == 0x3000
}

/// Exec counterpart of `is_ws`.
pub fn is_whitespace(c: char) -> (b: bool)
    ensures
        b == is_ws(c),
{
    let v = c as u32;
    v == 0x20 || (0x09 <= v && v <= 0x0d) || v == 0x85 || v == 0xa0 || v == 0x1680 || (0x2000
        <= v && v <= 0x200a) || v == 0x2028 || v == 0x2029 || v == 0x202f || v == 0x205f || v
        == 0x3000
}

/// First index `>= i` whose character fails `keep`; `s.len()` when none does.
pub open spec fn skip_while(s: Seq<char>, i: int, keep: spec_fn(char) -> bool) -> int
    decreases s.len() - i,
{
    if i < 0 || i >= s.len() {
        i
    } else if keep(s[i]) {
        skip_while(s, i + 1, keep)
    } else {
        i
    }
}

/// What `skip_while` returns.
pub proof fn lemma_skip_while(s: Seq<char>, i: int, keep: spec_fn(char) -> bool)
    requires
        0 <= i <= s.len(),
    ensures
        i <= skip_while(s, i, keep) <= s.len(),
        forall|j: int| i <= j < skip_while(s, i, keep) ==> keep(#[trigger] s[j]),
        skip_while(s, i, keep) < s.len() ==> !keep(s[skip_while(s, i, keep)]),
    decreases s.len() - i,
{
    if i < s.len() && keep(s[i]) {
        lemma_skip_while(s, i + 1, keep);
    }
}

/// The separators `trim_start_matches([':', ' ', '\t'])` removes.
pub open spec fn is_sep(c: char) -> bool {
    c == ':' || c == ' ' || c == '\t'
}

/// Index of the first character at or after `i` that is not `:`, space or tab.
pub fn skip_seps(s: &Vec<char>, i: usize) -> (r: usize)
    requires
        i <= s@.len(),
    ensures
        r == skip_while(s@, i as int, |c: char| is_sep(c)),
{
    let mut j = i;
    while j < s.len() && (s[j] == ':' || s[j] == ' ' || s[j] == '\t')
        invariant
            i <= j <= s@.len(),
            skip_while(s@, i as int, |c: char| is_sep(c)) == skip_while(
                s@,
                j as int,
                |c: char| is_sep(c),
            ),
        decreases s@.len() - j,
    {
        j = j + 1;
    }
    j
}

/// Index of the first non-whitespace character at or after `i`.
pub fn skip_ws(s: &Vec<char>, i: usize) -> (r: usize)
    requires
        i <= s@.len(),
    ensures
        r == skip_while(s@, i as int, |c: char| is_ws(c)),
{
    let mut j = i;
    while j < s.len() && is_whitespace(s[j])
        invariant
            i <= j <= s@.len(),
            skip_while(s@, i as int, |c: char| is_ws(c)) == skip_while(
                s@,
                j as int,
                |c: char| is_ws(c),
            ),
        decreases s@.len() - j,
    {
        j = j + 1;
    }
    j
}

/// End of `s` once every trailing `'\r'` is removed (`trim_end_matches('\r')`).
pub open spec fn trim_cr_end(s: Seq<char>, e: int) -> int
    decreases e,
{
    if e <= 0 || e > s.len() {
        if e > s.len() { s.len() as int } else { 0 }
    } else if s[e - 1] == '\r' {
        trim_cr_end(s, e - 1)
    } else {
        e
    }
}

/// Exec counterpart of `trim_cr_end(s, s.len())`.
pub fn trim_cr(s: &Vec<char>) -> (e: usize)
    ensures
        e == trim_cr_end(s@, s@.len() as int),
        e <= s@.len(),
{
    let mut e = s.len();
    while e > 0 && s[e - 1] == '\r'
        invariant
            e <= s@.len(),
            trim_cr_end(s@, s@.len() as int) == trim_cr_end(s@, e as int),
        decreases e,
    {
        e = e - 1;
    }
    e
}

/// Copy of `s[lo..hi]`.
pub fn slice_copy(s: &Vec<char>, lo: usize, hi: usize) -> (r: Vec<char>)
    requires
        lo <= hi <= s@.len(),
    ensures
        r@ == s@.subrange(lo as int, hi as int),
{
    let mut r: Vec<char> = Vec::new();
    let mut i = lo;
    while i < hi
        invariant
            lo <= i <= hi <= s@.len(),
            r@ == s@.subrange(lo as int, i as int),
        decreases hi - i,
    {
        r.push(s[i]);
        i = i + 1;
        assert(r@ =~= s@.subrange(lo as int, i as int));
    }
    r
}

/// Whether `s` begins with `pat`.
pub open spec fn starts_with(s: Seq<char>, pat: Seq<char>) -> bool {
    pat.len() <= s.len() && s.subrange(0, pat.len() as int) == pat
}

/// Exec test that `s` begins with `pat`.
pub fn has_prefix(s: &Vec<char>, pat: &Vec<char>) -> (b: bool)
    ensures
        b == starts_with(s@, pat@),
{
    if pat.len() > s.len() {
        return false;
    }
    matches_at(s, pat, 0)
}

/// Whether two character vectors hold the same text.
pub fn same_chars(a: &Vec<char>, b: &Vec<char>) -> (r: bool)
    ensures
        r == (a@ == b@),
{
    if a.len() != b.len() {
        return false;
    }
    let r = matches_at(a, b, 0);
    proof {
        assert(a@.subrange(0, b@.len() as int) =~= a@);
    }
    r
}

/// Contents and outcome of appending the characters of `d` one at a time to
/// `base`, stopping at the first one that would overflow `cap` bytes.
pub open spec fn push_chars(base: Seq<char>, d: Seq<char>, cap: nat) -> (Seq<char>, bool)
    decreases d.len(),
{
    if d.len() == 0 {
        (base, true)
    } else if utf8_len(base.push(d[0])) <= cap {
        push_chars(base.push(d[0]), d.drop_first(), cap)
    } else {
        (base, false)
    }
}

/// Appending one character at a time succeeds exactly when the whole text fits,
/// and then leaves `base + d`.
pub proof fn lemma_push_chars(base: Seq<char>, d: Seq<char>, cap: nat)
    requires
        utf8_len(base) <= cap,
    ensures
        push_chars(base, d, cap).1 <==> utf8_len(base + d) <= cap,
        push_chars(base, d, cap).1 ==> push_chars(base, d, cap).0 == base + d,
        utf8_len(push_chars(base, d, cap).0) <= cap,
        base.is_prefix_of(push_chars(base, d, cap).0),
    decreases d.len(),
{
    if d.len() == 0 {
        assert(base + d =~= base);
    } else {
        lemma_utf8_len_push(base, d[0]);
        lemma_utf8_len_concat(base.push(d[0]), d.drop_first());
        assert(base.push(d[0]) + d.drop_first() =~= base + d);
        if utf8_len(base.push(d[0])) <= cap {
            lemma_push_chars(base.push(d[0]), d.drop_first(), cap);
            assert(base.is_prefix_of(base.push(d[0])));
        } else {
            lemma_utf8_len_concat(base, d);
            lemma_utf8_len_concat(seq![d[0]], d.drop_first());
            assert(seq![d[0]] + d.drop_first() =~= d);
            lemma_utf8_len_single(d[0]);
        }
    }
}

/// Contents and outcome of appending each piece of `ps` whole (an all-or-
/// nothing `push_str`) to `base`, stopping at the first that would overflow.
pub open spec fn push_pieces(base: Seq<char>, ps: Seq<Seq<char>>, cap: nat) -> (
    Seq<char>,
    bool,
)
    decreases ps.len(),
{
    if ps.len() == 0 {
        (base, true)
    } else if utf8_len(base + ps[0]) <= cap {
        push_pieces(base + ps[0], ps.drop_first(), cap)
    } else {
        (base, false)
    }
}

/// The concatenation of all pieces.
pub open spec fn concat(ps: Seq<Seq<char>>) -> Seq<char>
    decreases ps.len(),
{
    if ps.len() == 0 {
        Seq::empty()
    } else {
        ps[0] + concat(ps.drop_first())
    }
}

/// `concat` distributes over sequence concatenation.
pub proof fn lemma_concat_append(a: Seq<Seq<char>>, b: Seq<Seq<char>>)
    ensures
        concat(a + b) == concat(a) + concat(b),
    decreases a.len(),
{
    if a.len() == 0 {
        assert(a + b =~= b);
        assert(concat(a) + concat(b) =~= concat(b));
    } else {
        assert((a + b).drop_first() =~= a.drop_first() + b);
        lemma_concat_append(a.drop_first(), b);
        assert(concat(a + b) =~= concat(a) + concat(b));
    }
}

/// Appending whole pieces succeeds exactly when all of them fit, and then
/// leaves `base` followed by every piece.
pub proof fn lemma_push_pieces(base: Seq<char>, ps: Seq<Seq<char>>, cap: nat)
    requires
        utf8_len(base) <= cap,
    ensures
        push_pieces(base, ps, cap).1 <==> utf8_len(base + concat(ps)) <= cap,
        push_pieces(base, ps, cap).1 ==> push_pieces(base, ps, cap).0 == base + concat(ps),
        utf8_len(push_pieces(base, ps, cap).0) <= cap,
        base.is_prefix_of(push_pieces(base, ps, cap).0),
    decreases ps.len(),
{
    if ps.len() == 0 {
        assert(base + concat(ps) =~= base);
    } else {
        lemma_utf8_len_concat(base + ps[0], concat(ps.drop_first()));
        assert(base + ps[0] + concat(ps.drop_first()) =~= base + concat(ps));
        lemma_utf8_len_concat(base, ps[0]);
        if utf8_len(base + ps[0]) <= cap {
            lemma_push_pieces(base + ps[0], ps.drop_first(), cap);
            assert(base.is_prefix_of(base + ps[0]));
        }
    }
}

/// Appending pieces in two runs is appending them in one.
pub proof fn lemma_push_pieces_append(
    base: Seq<char>,
    a: Seq<Seq<char>>,
    b: Seq<Seq<char>>,
    cap: nat,
)
    ensures
        push_pieces(base, a + b, cap) == (if push_pieces(base, a, cap).1 {
            push_pieces(push_pieces(base, a, cap).0, b, cap)
        } else {
            push_pieces(base, a, cap)
        }),
    decreases a.len(),
{
    if a.len() == 0 {
        assert(a + b =~= b);
    } else {
        assert((a + b).drop_first() =~= a.drop_first() + b);
        assert((a + b)[0] == a[0]);
        if utf8_len(base + a[0]) <= cap {
            lemma_push_pieces_append(base + a[0], a.drop_first(), b, cap);
        }
    }
}

/// Appends `s` to `out` as one whole piece, failing without change when it does
/// not fit.
pub fn push_piece<const N: usize>(out: &mut BoundedString<N>, s: &str) -> (r: Result<(), ()>)
    ensures
        final(out)@ == push_pieces(old(out)@, seq![s@], N as nat).0,
        r is Ok <==> push_pieces(old(out)@, seq![s@], N as nat).1,
{
    let ghost before = out@;
    let r = out.push_str(s);
    proof {
        let ps = seq![s@];
        assert(ps.drop_first() =~= Seq::<Seq<char>>::empty());
        assert(ps[0] == s@);
        lemma_utf8_len_concat(before, s@);
        reveal_with_fuel(push_pieces, 2);
    }
    r
}

} // verus!
