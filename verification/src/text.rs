//! Character-level text helpers and the fixed-capacity string the library
//! writes into.
//!
//! `BoundedString<N>` holds at most `N` bytes of UTF-8 text. Every operation
//! that would grow it past its capacity fails and leaves it unchanged, which is
//! the contract the JSON, SSE, keyboard and provider code is built on.
use vstd::prelude::*;
use vstd::string::*;
use vstd::utf8::*;

verus! {

broadcast use vstd::seq_lib::group_seq_properties;

/// Number of UTF-8 bytes that encode `c`.
pub open spec fn char_len(c: char) -> nat {
    let v = c as u32;
    if v <= 0x7f {
        1
    } else if v <= 0x7ff {
        2
    } else if v <= 0xffff {
        3
    } else {
        4
    }
}

/// Number of UTF-8 bytes that encode the character sequence `s`.
pub open spec fn utf8_len(s: Seq<char>) -> nat {
    encode_utf8(s).len()
}

/// The UTF-8 encoding of one character is `char_len(c)` bytes long.
pub proof fn lemma_encode_scalar_len(c: char)
    ensures
        encode_scalar(c as u32).len() == char_len(c),
{
    char_is_scalar(c);
}

/// UTF-8 length distributes over concatenation.
pub proof fn lemma_utf8_len_concat(a: Seq<char>, b: Seq<char>)
    ensures
        utf8_len(a + b) == utf8_len(a) + utf8_len(b),
        encode_utf8(a + b) == encode_utf8(a) + encode_utf8(b),
    decreases a.len(),
{
    if a.len() == 0 {
        assert(a + b =~= b);
        assert(encode_utf8(a) =~= Seq::<u8>::empty());
        assert(encode_utf8(a) + encode_utf8(b) =~= encode_utf8(b));
    } else {
        assert((a + b).drop_first() =~= a.drop_first() + b);
        assert((a + b)[0] == a[0]);
        lemma_utf8_len_concat(a.drop_first(), b);
        assert(encode_utf8(a + b) =~= encode_scalar(a[0] as u32) + encode_utf8(a.drop_first() + b));
        assert(encode_utf8(a + b) =~= encode_utf8(a) + encode_utf8(b));
    }
}

/// UTF-8 length of a single character sequence.
pub proof fn lemma_utf8_len_single(c: char)
    ensures
        utf8_len(seq![c]) == char_len(c),
{
    lemma_encode_scalar_len(c);
    assert(seq![c].drop_first() =~= Seq::<char>::empty());
    assert(encode_utf8(seq![c]) =~= encode_scalar(c as u32) + encode_utf8(Seq::<char>::empty()));
}

/// Pushing a character adds its width to the UTF-8 length.
pub proof fn lemma_utf8_len_push(s: Seq<char>, c: char)
    ensures
        utf8_len(s.push(c)) == utf8_len(s) + char_len(c),
{
    lemma_utf8_len_concat(s, seq![c]);
    assert(s + seq![c] =~= s.push(c));
    lemma_utf8_len_single(c);
}

/// Every character takes at least one byte, so the UTF-8 length bounds the
/// character count.
pub proof fn lemma_utf8_len_ge_len(s: Seq<char>)
    ensures
        utf8_len(s) >= s.len(),
    decreases s.len(),
{
    if s.len() > 0 {
        lemma_utf8_len_concat(s.drop_last(), seq![s.last()]);
        assert(s.drop_last() + seq![s.last()] =~= s);
        lemma_utf8_len_single(s.last());
        lemma_utf8_len_ge_len(s.drop_last());
    }
}

/// A prefix is never longer, in bytes, than the whole.
pub proof fn lemma_utf8_len_prefix(s: Seq<char>, k: int)
    requires
        0 <= k <= s.len(),
    ensures
        utf8_len(s.subrange(0, k)) <= utf8_len(s),
{
    lemma_utf8_len_concat(s.subrange(0, k), s.subrange(k, s.len() as int));
    assert(s.subrange(0, k) + s.subrange(k, s.len() as int) =~= s);
}

/// An ASCII-only sequence has as many bytes as characters.
pub proof fn lemma_utf8_len_ascii(s: Seq<char>)
    requires
        forall|i: int| 0 <= i < s.len() ==> (s[i] as u32) < 0x80,
    ensures
        utf8_len(s) == s.len(),
    decreases s.len(),
{
    if s.len() > 0 {
        lemma_utf8_len_concat(s.drop_last(), seq![s.last()]);
        assert(s.drop_last() + seq![s.last()] =~= s);
        lemma_utf8_len_single(s.last());
        lemma_utf8_len_ascii(s.drop_last());
    }
}

/// Exec counterpart of `char_len`.
pub fn char_utf8_len(c: char) -> (n: usize)
    ensures
        n == char_len(c),
        1 <= n <= 4,
{
    let v = c as u32;
    if v <= 0x7f {
        1
    } else if v <= 0x7ff {
        2
    } else if v <= 0xffff {
        3
    } else {
        4
    }
}

/// `String::push`: appends one character.
#[verifier::external_body]
fn std_string_push(s: &mut String, c: char)
    ensures
        final(s)@ == old(s)@.push(c),
{
    s.push(c)
}

/// `String::pop`: removes and returns the last character, if any.
#[verifier::external_body]
fn std_string_pop(s: &mut String) -> (r: Option<char>)
    ensures
        old(s)@.len() == 0 ==> r is None && final(s)@ == old(s)@,
        old(s)@.len() > 0 ==> r == Some(old(s)@.last()) && final(s)@ == old(s)@.drop_last(),
{
    s.pop()
}

/// `core::str::from_utf8`: the bytes as a string slice when they are valid
/// UTF-8.
#[verifier::external_body]
pub(crate) fn std_str_from_utf8(b: &[u8]) -> (r: Option<&str>)
    ensures
        r is Some <==> valid_utf8(b@),
        r matches Some(s) ==> s.spec_bytes() == b@,
{
    core::str::from_utf8(b).ok()
}

/// Copies the characters of `s` into a vector.
pub fn chars_of(s: &str) -> (v: Vec<char>)
    ensures
        v@ == s@,
{
    broadcast use vstd::string::group_string_axioms;
    let mut v: Vec<char> = Vec::new();
    for c in it: s.chars()
        invariant
            it.seq() == s@,
            v@ == it.seq().take(it.index() as int),
    {
        v.push(c);
    }
    v
}

/// Byte length of the UTF-8 text `s`.
pub fn str_len(s: &str) -> (n: usize)
    ensures
        n == utf8_len(s@),
{
    s.as_bytes().len()
}

/// Builds an owned `String` from a character slice.
pub fn string_from_chars(v: &[char]) -> (r: String)
    ensures
        r@ == v@,
{
    let mut r = String::new();
    let mut i: usize = 0;
    while i < v.len()
        invariant
            i <= v@.len(),
            r@ == v@.subrange(0, i as int),
        decreases v@.len() - i,
    {
        std_string_push(&mut r, v[i]);
        i = i + 1;
        assert(r@ =~= v@.subrange(0, i as int));
    }
    assert(r@ =~= v@);
    r
}

/// Decimal digit character for `d < 10`.
pub open spec fn digit_char(d: nat) -> char {
    ((d + 48) as u32) as char
}

/// Decimal representation of `n`, most significant digit first.
pub open spec fn decimal(n: nat) -> Seq<char>
    decreases n,
{
    if n < 10 {
        seq![digit_char(n)]
    } else {
        decimal(n / 10).push(digit_char(n % 10))
    }
}

/// Every decimal digit is ASCII.
pub proof fn lemma_decimal_ascii(n: nat)
    ensures
        forall|i: int| 0 <= i < decimal(n).len() ==> (#[trigger] decimal(n)[i] as u32) < 0x80,
        decimal(n).len() >= 1,
    decreases n,
{
    if n >= 10 {
        lemma_decimal_ascii(n / 10);
    }
}

/// The decimal representation of `n` as an owned string (what `Display`
/// writes for an unsigned integer).
pub fn decimal_string(n: u64) -> (r: String)
    ensures
        r@ == decimal(n as nat),
{
    let mut digits: Vec<char> = Vec::new();
    let mut m: u64 = n;
    // digits holds the low-order digits of n, least significant first.
    while m >= 10
        invariant
            m <= n,
            decimal(n as nat) == decimal(m as nat) + digits@.reverse(),
        decreases m,
    {
        let d = (m % 10) as u32;
        let c = char_from_digit(d);
        proof {
            assert(decimal(m as nat) == decimal((m / 10) as nat).push(digit_char((m % 10) as nat)));
        }
        let ghost old_digits = digits@;
        digits.push(c);
        proof {
            assert(digits@.reverse() =~= seq![c] + old_digits.reverse()) by {
                assert(digits@ =~= old_digits.push(c));
            }
            assert(decimal(m as nat) + old_digits.reverse() =~= decimal((m / 10) as nat) + (
            seq![c] + old_digits.reverse()));
        }
        m = m / 10;
    }
    let first = char_from_digit(m as u32);
    let mut all: Vec<char> = Vec::new();
    all.push(first);
    let mut i: usize = digits.len();
    while i > 0
        invariant
            i <= digits@.len(),
            all@ == seq![first] + digits@.subrange(i as int, digits@.len() as int).reverse(),
        decreases i,
    {
        i = i - 1;
        let ghost prev = all@;
        all.push(digits[i]);
        proof {
            assert(digits@.subrange(i as int, digits@.len() as int) =~= seq![digits@[i as int]]
                + digits@.subrange(i + 1, digits@.len() as int));
            assert(all@ =~= seq![first] + digits@.subrange(i as int, digits@.len() as int).reverse());
        }
    }
    proof {
        assert(digits@.subrange(0, digits@.len() as int) =~= digits@);
        assert(decimal(m as nat) =~= seq![first]);
        assert(all@ =~= decimal(n as nat));
    }
    string_from_chars(all.as_slice())
}

/// The ASCII digit character for `d < 10`.
pub fn char_from_digit(d: u32) -> (c: char)
    requires
        d < 10,
    ensures
        c == digit_char(d as nat),
{
    match d {
        0 => '0',
        1 => '1',
        2 => '2',
        3 => '3',
        4 => '4',
        5 => '5',
        6 => '6',
        7 => '7',
        8 => '8',
        _ => '9',
    }
}

/// A string of at most `N` bytes of UTF-8 text.
pub struct BoundedString<const N: usize> {
    text: String,
}

impl<const N: usize> View for BoundedString<N> {
    type V = Seq<char>;

    closed spec fn view(&self) -> Seq<char> {
        self.text@
    }
}

impl<const N: usize> BoundedString<N> {
    #[verifier::type_invariant]
    spec fn fits(self) -> bool {
        utf8_len(self.text@) <= N
    }

    /// An empty string.
    pub fn new() -> (s: Self)
        ensures
            s@ == Seq::<char>::empty(),
    {
        BoundedString { text: String::new() }
    }

    /// The capacity in bytes.
    pub fn capacity(&self) -> (n: usize)
        ensures
            n == N,
    {
        N
    }

    /// Length in bytes of the UTF-8 text; never more than `N`.
    pub fn len(&self) -> (n: usize)
        ensures
            n == utf8_len(self@),
            n <= N,
    {
        proof {
            use_type_invariant(self);
        }
        self.text.as_str().len()
    }

    /// Whether the string holds no text.
    pub fn is_empty(&self) -> (b: bool)
        ensures
            b == (self@.len() == 0),
    {
        self.text.as_str().is_empty()
    }

    /// The text as a string slice.
    pub fn as_str(&self) -> (s: &str)
        ensures
            s@ == self@,
    {
        self.text.as_str()
    }

    /// Appends `c` when it fits; otherwise fails and changes nothing.
    pub fn push(&mut self, c: char) -> (r: Result<(), ()>)
        ensures
            r is Ok <==> utf8_len(old(self)@) + char_len(c) <= N,
            r is Ok ==> final(self)@ == old(self)@.push(c),
            r is Err ==> final(self)@ == old(self)@,
            utf8_len(final(self)@) <= N,
    {
        proof {
            use_type_invariant(&*self);
            lemma_utf8_len_push(self.text@, c);
        }
        let used = self.text.as_str().len();
        let w = char_utf8_len(c);
        if w > N - used {
            return Err(());
        }
        let mut t = String::new();
        std::mem::swap(&mut t, &mut self.text);
        std_string_push(&mut t, c);
        self.text = t;
        Ok(())
    }

    /// Appends all of `s` when it fits; otherwise fails and changes nothing.
    pub fn push_str(&mut self, s: &str) -> (r: Result<(), ()>)
        ensures
            r is Ok <==> utf8_len(old(self)@) + utf8_len(s@) <= N,
            r is Ok ==> final(self)@ == old(self)@ + s@,
            r is Err ==> final(self)@ == old(self)@,
            utf8_len(final(self)@) <= N,
    {
        proof {
            use_type_invariant(&*self);
            lemma_utf8_len_concat(self.text@, s@);
        }
        let used = self.text.as_str().len();
        let w = s.as_bytes().len();
        if w > N - used {
            return Err(());
        }
        let mut t = String::new();
        std::mem::swap(&mut t, &mut self.text);
        t.append(s);
        self.text = t;
        Ok(())
    }

    /// Removes the last character, if any.
    pub fn pop(&mut self) -> (r: Option<char>)
        ensures
            old(self)@.len() == 0 ==> r is None && final(self)@ == old(self)@,
            old(self)@.len() > 0 ==> r == Some(old(self)@.last()) && final(self)@ == old(
                self,
            )@.drop_last(),
            utf8_len(final(self)@) <= N,
    {
        proof {
            use_type_invariant(&*self);
            if self.text@.len() > 0 {
                lemma_utf8_len_prefix(self.text@, self.text@.len() - 1);
                assert(self.text@.subrange(0, self.text@.len() - 1) =~= self.text@.drop_last());
            }
        }
        let mut t = String::new();
        std::mem::swap(&mut t, &mut self.text);
        let r = std_string_pop(&mut t);
        self.text = t;
        r
    }

    /// Empties the string.
    pub fn clear(&mut self)
        ensures
            final(self)@ == Seq::<char>::empty(),
    {
        let t = String::new();
        proof {
            assert(encode_utf8(t@) =~= Seq::<u8>::empty());
        }
        self.text = t;
    }
}

} // verus!
