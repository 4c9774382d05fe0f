//! Minimal, allocation-bounded JSON helpers for the streaming path.
//!
//! * [`escape_into`] escapes a user prompt so it can sit inside a JSON string.
//! * [`extract_text_delta`] / [`extract_openai_delta`] pull the text of one
//!   streamed delta out of a provider's SSE payload, decoding JSON escapes.
//! * [`frame_type`] and [`extract_total_tokens`] read the event type and the
//!   token usage of a frame.
//!
//! Structural matching is sound for these payloads because a `"` inside a JSON
//! string value is always escaped as `\"`, so an unescaped `"key"` only appears
//! as a real key.
use vstd::prelude::*;
use crate::scan::{
    concat, find_at, find_from, lemma_concat_append, lemma_find_from, lemma_push_chars, lemma_push_pieces,
    lemma_push_pieces_append, lemma_skip_while, push_chars, push_piece, push_pieces, skip_seps,
    skip_while, is_sep,
};
use crate::text::{chars_of, lemma_utf8_len_concat, lemma_utf8_len_push, utf8_len, BoundedString};

verus! {

broadcast use vstd::seq_lib::group_seq_properties;

// ---------------------------------------------------------------------------
// Escaping
// ---------------------------------------------------------------------------
/// Lowercase hexadecimal digit (as an ASCII code) of a nibble.
pub open spec fn hex_digit_code(n: u32) -> u32 {
    if n < 10 {
        (48 + n) as u32
    } else {
        (97 + n - 10) as u32
    }
}

/// The `\uXXXX` pieces written for a control character with code `cp`: the
/// `\u` prefix, then four lowercase hex digits, most significant first.
pub open spec fn u_escape_pieces(cp: u32) -> Seq<Seq<char>> {
    seq![
        "\\u"@,
        seq![hex_digit_code((cp >> 12u32) & 0xf) as char],
        seq![hex_digit_code((cp >> 8u32) & 0xf) as char],
        seq![hex_digit_code((cp >> 4u32) & 0xf) as char],
        seq![hex_digit_code((cp >> 0u32) & 0xf) as char],
    ]
}

/// The pieces written for one character of the escaped text.
pub open spec fn escape_char_pieces(c: char) -> Seq<Seq<char>> {
    if c == '"' {
        seq!["\\\""@]
    } else if c == '\\' {
        seq!["\\\\"@]
    } else if c == '\n' {
        seq!["\\n"@]
    } else if c == '\r' {
        seq!["\\r"@]
    } else if c == '\t' {
        seq!["\\t"@]
    } else if (c as u32) < 0x20 {
        u_escape_pieces(c as u32)
    } else {
        seq![seq![c]]
    }
}

/// The pieces written, in order, when escaping `s`.
pub open spec fn escape_pieces(s: Seq<char>) -> Seq<Seq<char>>
    decreases s.len(),
{
    if s.len() == 0 {
        Seq::empty()
    } else {
        escape_pieces(s.drop_last()) + escape_char_pieces(s.last())
    }
}

/// The JSON string escaping of `s` (without surrounding quotes).
pub open spec fn escaped(s: Seq<char>) -> Seq<char> {
    concat(escape_pieces(s))
}

/// ASCII code of the lowercase hex digit for a nibble.
fn hex_nibble(n: u8) -> (c: u8)
    requires
        n < 16,
    ensures
        c as u32 == hex_digit_code(n as u32),
{
    if n < 10 {
        48 + n
    } else {
        97 + (n - 10)
    }
}

/// Appends one character as a whole piece.
fn push_one<const N: usize>(out: &mut BoundedString<N>, c: char) -> (r: Result<(), ()>)
    ensures
        final(out)@ == push_pieces(old(out)@, seq![seq![c]], N as nat).0,
        r is Ok <==> push_pieces(old(out)@, seq![seq![c]], N as nat).1,
{
    let ghost before = out@;
    let r = out.push(c);
    proof {
        let ps = seq![seq![c]];
        assert(ps.drop_first() =~= Seq::<Seq<char>>::empty());
        assert(ps[0] == seq![c]);
        lemma_utf8_len_push(before, c);
        assert(before + seq![c] =~= before.push(c));
        reveal_with_fuel(push_pieces, 2);
    }
    r
}

/// Appends `\uXXXX` for the code point `cp`.
fn push_u_escape<const N: usize>(out: &mut BoundedString<N>, cp: u32) -> (r: Result<(), ()>)
    ensures
        final(out)@ == push_pieces(old(out)@, u_escape_pieces(cp), N as nat).0,
        r is Ok <==> push_pieces(old(out)@, u_escape_pieces(cp), N as nat).1,
{
    let ghost base = out@;
    let ghost ps = u_escape_pieces(cp);
    let r0 = push_piece(out, "\\u");
    proof {
        assert(ps.take(1) =~= seq!["\\u"@]);
        lemma_push_pieces_append(base, ps.take(1), ps.skip(1), N as nat);
        assert(ps.take(1) + ps.skip(1) =~= ps);
    }
    if r0.is_err() {
        return Err(());
    }
    let mut k: usize = 0;
    while k < 4
        invariant
            k <= 4,
            base == old(out)@,
            ps == u_escape_pieces(cp),
            push_pieces(base, ps.take(1 + k as int), N as nat) == (out@, true),
        decreases 4 - k,
    {
        let shift: u32 = 12 - 4 * (k as u32);
        let masked = (cp >> shift) & 0xF;
        assert(masked < 16) by (bit_vector)
            requires
                masked == (cp >> shift) & 0xF,
        ;
        let nib = masked as u8;
        let code = hex_nibble(nib);
        let c = code as char;
        let ghost before = out@;
        let rk = push_one(out, c);
        proof {
            assert(c == hex_digit_code((cp >> shift) & 0xf) as char);
            if k == 0 {
                assert(shift == 12);
            } else if k == 1 {
                assert(shift == 8);
            } else if k == 2 {
                assert(shift == 4);
            } else {
                assert(shift == 0);
            }
            assert(ps[1 + k as int] == seq![c]);
            assert(ps.take(2 + k as int) =~= ps.take(1 + k as int) + seq![seq![c]]);
            lemma_push_pieces_append(base, ps.take(1 + k as int), seq![seq![c]], N as nat);
        }
        if rk.is_err() {
            proof {
                lemma_push_pieces_append(base, ps.take(2 + k as int), ps.skip(2 + k as int), N as nat);
                assert(ps.take(2 + k as int) + ps.skip(2 + k as int) =~= ps);
            }
            return Err(());
        }
        k = k + 1;
    }
    proof {
        assert(ps.take(5) =~= ps);
    }
    Ok(())
}

/// Appends the escape pieces of one character.
fn push_escaped_char<const N: usize>(out: &mut BoundedString<N>, c: char) -> (r: Result<(), ()>)
    ensures
        final(out)@ == push_pieces(old(out)@, escape_char_pieces(c), N as nat).0,
        r is Ok <==> push_pieces(old(out)@, escape_char_pieces(c), N as nat).1,
{
    if c == '"' {
        push_piece(out, "\\\"")
    } else if c == '\\' {
        push_piece(out, "\\\\")
    } else if c == '\n' {
        push_piece(out, "\\n")
    } else if c == '\r' {
        push_piece(out, "\\r")
    } else if c == '\t' {
        push_piece(out, "\\t")
    } else if (c as u32) < 0x20 {
        push_u_escape(out, c as u32)
    } else {
        push_one(out, c)
    }
}

/// Appends `s` to `out` with JSON string escaping (no surrounding quotes).
///
/// Fails when `out` runs out of capacity; the pieces written before the one
/// that did not fit stay in `out`.
pub fn escape_into<const N: usize>(s: &str, out: &mut BoundedString<N>) -> (r: Result<(), ()>)
    ensures
        final(out)@ == push_pieces(old(out)@, escape_pieces(s@), N as nat).0,
        r is Ok <==> push_pieces(old(out)@, escape_pieces(s@), N as nat).1,
        r is Ok <==> utf8_len(old(out)@ + escaped(s@)) <= N,
        r is Ok ==> final(out)@ == old(out)@ + escaped(s@),
        old(out)@.is_prefix_of(final(out)@),
{
    let v = chars_of(s);
    let ghost base = out@;
    let mut i: usize = 0;
    let _ = out.len();
    proof {
        assert(v@.take(0) =~= Seq::<char>::empty());
    }
    while i < v.len()
        invariant
            i <= v@.len(),
            v@ == s@,
            base == old(out)@,
            utf8_len(base) <= N,
            push_pieces(base, escape_pieces(v@.take(i as int)), N as nat) == (out@, true),
        decreases v@.len() - i,
    {
        let c = v[i];
        let ghost before = out@;
        let r = push_escaped_char(out, c);
        proof {
            let t = v@.take(i + 1);
            assert(t.drop_last() =~= v@.take(i as int));
            assert(t.last() == c);
            lemma_push_pieces_append(
                base,
                escape_pieces(v@.take(i as int)),
                escape_char_pieces(c),
                N as nat,
            );
        }
        if r.is_err() {
            proof {
                let t = v@.take(i + 1);
                assert(escape_pieces(t) == escape_pieces(v@.take(i as int)) + escape_char_pieces(c));
                assert(push_pieces(base, escape_pieces(t), N as nat) == (out@, false));
                lemma_escape_pieces_prefix(v@, i + 1);
                lemma_push_pieces_append(
                    base,
                    escape_pieces(t),
                    escape_tail(v@, i + 1),
                    N as nat,
                );
                lemma_push_pieces(base, escape_pieces(s@), N as nat);
            }
            return Err(());
        }
        proof {
            let t = v@.take(i + 1);
            assert(escape_pieces(t) == escape_pieces(v@.take(i as int)) + escape_char_pieces(c));
        }
        i = i + 1;
    }
    proof {
        assert(v@.take(v@.len() as int) =~= s@);
        lemma_push_pieces(base, escape_pieces(s@), N as nat);
    }
    Ok(())
}

/// The escape pieces of the characters of `s` from `k` on.
pub open spec fn escape_tail(s: Seq<char>, k: int) -> Seq<Seq<char>>
    decreases s.len() - k,
{
    if k < 0 || k >= s.len() {
        Seq::empty()
    } else {
        escape_char_pieces(s[k]) + escape_tail(s, k + 1)
    }
}

/// Escaping a prefix and then the rest is escaping the whole.
proof fn lemma_escape_pieces_prefix(s: Seq<char>, k: int)
    requires
        0 <= k <= s.len(),
    ensures
        escape_pieces(s) == escape_pieces(s.take(k)) + escape_tail(s, k),
    decreases s.len() - k,
{
    if k == s.len() {
        assert(s.take(k) =~= s);
        assert(escape_pieces(s) + Seq::<Seq<char>>::empty() =~= escape_pieces(s));
    } else {
        lemma_escape_pieces_prefix(s, k + 1);
        let t = s.take(k + 1);
        assert(t.drop_last() =~= s.take(k));
        assert(t.last() == s[k]);
        assert(escape_pieces(s.take(k)) + (escape_char_pieces(s[k]) + escape_tail(s, k + 1))
            =~= escape_pieces(s.take(k)) + escape_char_pieces(s[k]) + escape_tail(s, k + 1));
    }
}

// ---------------------------------------------------------------------------
// Decoding
// ---------------------------------------------------------------------------
/// Value of a hexadecimal digit (either case), as `char::to_digit(16)` reads it.
pub open spec fn hex_value(c: char) -> Option<u32> {
    let v = c as u32;
    if 48 <= v <= 57 {
        Some((v - 48) as u32)
    } else if 97 <= v <= 102 {
        Some((v - 87) as u32)
    } else if 65 <= v <= 70 {
        Some((v - 55) as u32)
    } else {
        None
    }
}

/// The value of the four hex digits at `i..i+4`, if all four are present.
pub open spec fn hex4(s: Seq<char>, i: int) -> Option<u32> {
    if 0 <= i && i + 4 <= s.len() && hex_value(s[i]) is Some && hex_value(s[i + 1]) is Some
        && hex_value(s[i + 2]) is Some && hex_value(s[i + 3]) is Some {
        Some(
            (hex_value(s[i])->0 * 4096 + hex_value(s[i + 1])->0 * 256 + hex_value(s[i + 2])->0 * 16
                + hex_value(s[i + 3])->0) as u32,
        )
    } else {
        None
    }
}

/// The replacement character substituted for an unpaired surrogate.
pub open spec fn replacement() -> char {
    '\u{FFFD}'
}

/// The character with code `v`, or the replacement character when `v` is not a
/// Unicode scalar value (`char::from_u32(v).unwrap_or('\u{FFFD}')`).
pub open spec fn char_or_replacement(v: u32) -> char {
    if v < 0xD800 || (0xE000 <= v && v <= 0x10FFFF) {
        v as char
    } else {
        replacement()
    }
}

/// Decoding of the four hex digits after a `\u` at `i`: the character and the
/// index after everything consumed, or `None` when the input is cut short or a
/// digit is malformed. A high surrogate followed by `\u` and a low surrogate
/// combines into one astral character.
pub open spec fn u_escape(s: Seq<char>, i: int) -> Option<(char, int)> {
    match hex4(s, i) {
        None => None,
        Some(hi) => if 0xD800 <= hi && hi <= 0xDBFF {
            let j = i + 4;
            if j >= s.len() {
                None
            } else if s[j] != '\\' {
                Some((replacement(), j + 1))
            } else if j + 1 >= s.len() {
                None
            } else if s[j + 1] != 'u' {
                Some((replacement(), j + 2))
            } else {
                match hex4(s, j + 2) {
                    None => None,
                    Some(lo) => if 0xDC00 <= lo && lo <= 0xDFFF {
                        Some(
                            (
                                ((0x10000 + (hi - 0xD800) * 1024 + (lo - 0xDC00)) as u32) as char,
                                j + 6,
                            ),
                        )
                    } else {
                        Some((replacement(), j + 6))
                    },
                }
            }
        } else {
            Some((char_or_replacement(hi), i + 4))
        },
    }
}

/// One step of decoding a string body at `i` (not at the closing quote): the
/// decoded character and where the next step starts, or `None` on malformed or
/// cut-short input.
pub open spec fn body_step(s: Seq<char>, i: int) -> Option<(char, int)> {
    if i < 0 || i >= s.len() {
        None
    } else if s[i] == '\\' {
        if i + 1 >= s.len() {
            None
        } else {
            let e = s[i + 1];
            if e == 'n' {
                Some(('\n', i + 2))
            } else if e == 'r' {
                Some(('\r', i + 2))
            } else if e == 't' {
                Some(('\t', i + 2))
            } else if e == 'b' {
                Some(('\u{08}', i + 2))
            } else if e == 'f' {
                Some(('\u{0C}', i + 2))
            } else if e == 'u' {
                u_escape(s, i + 2)
            } else {
                // `\"`, `\\`, `\/` and any other escaped character stand for themselves.
                Some((e, i + 2))
            }
        }
    } else {
        Some((s[i], i + 1))
    }
}

/// The text of the JSON string body starting at `i` (just after the opening
/// quote), up to the unescaped closing quote, and whether that quote was
/// reached. On malformed or cut-short input the text decoded so far is
/// returned with `false`.
pub open spec fn decode_from(s: Seq<char>, i: int) -> (Seq<char>, bool)
    decreases s.len() - i,
{
    if i < 0 || i >= s.len() {
        (Seq::empty(), false)
    } else if s[i] == '"' {
        (Seq::empty(), true)
    } else {
        match body_step(s, i) {
            None => (Seq::empty(), false),
            Some((c, j)) => if j <= i || j > s.len() {
                (Seq::empty(), false)
            } else {
                let r = decode_from(s, j);
                (seq![c] + r.0, r.1)
            },
        }
    }
}

/// Every decoding step makes progress and stays in bounds.
proof fn lemma_body_step_advances(s: Seq<char>, i: int)
    ensures
        body_step(s, i) matches Some((c, j)) ==> i < j <= s.len(),
{
}

/// Value of one hex digit.
fn hex_digit(c: char) -> (r: Option<u32>)
    ensures
        r == hex_value(c),
{
    let v = c as u32;
    if 48 <= v && v <= 57 {
        Some(v - 48)
    } else if 97 <= v && v <= 102 {
        Some(v - 87)
    } else if 65 <= v && v <= 70 {
        Some(v - 55)
    } else {
        None
    }
}

/// Reads exactly four hex digits at `i`.
fn read_hex4(s: &Vec<char>, i: usize) -> (r: Option<u32>)
    requires
        i <= s@.len(),
    ensures
        r == hex4(s@, i as int),
{
    if s.len() - i < 4 {
        return None;
    }
    let d0 = hex_digit(s[i]);
    let d1 = hex_digit(s[i + 1]);
    let d2 = hex_digit(s[i + 2]);
    let d3 = hex_digit(s[i + 3]);
    match (d0, d1, d2, d3) {
        (Some(a), Some(b), Some(c), Some(d)) => Some(a * 4096 + b * 256 + c * 16 + d),
        _ => None,
    }
}

/// `char::from_u32`: the character with scalar value `v`, if there is one.
#[verifier::external_body]
fn std_char_from_u32(v: u32) -> (r: Option<char>)
    ensures
        (v < 0xD800 || (0xE000 <= v && v <= 0x10FFFF)) ==> r == Some(v as char),
        !(v < 0xD800 || (0xE000 <= v && v <= 0x10FFFF)) ==> r is None,
{
    core::char::from_u32(v)
}

/// Decodes the hex digits after a `\u` at `i` (the `\u` already consumed).
fn decode_u_escape(s: &Vec<char>, i: usize) -> (r: Option<(char, usize)>)
    requires
        i <= s@.len(),
    ensures
        match r {
            Some((c, j)) => u_escape(s@, i as int) == Some((c, j as int)),
            None => u_escape(s@, i as int) is None,
        },
{
    let n = s.len();
    let hi = match read_hex4(s, i) {
        Some(h) => h,
        None => return None,
    };
    if 0xD800 <= hi && hi <= 0xDBFF {
        let j = i + 4;
        if j >= s.len() {
            return None;
        }
        if s[j] != '\\' {
            return Some(('\u{FFFD}', j + 1));
        }
        if j + 1 >= s.len() {
            return None;
        }
        if s[j + 1] != 'u' {
            return Some(('\u{FFFD}', j + 2));
        }
        let lo = match read_hex4(s, j + 2) {
            Some(l) => l,
            None => return None,
        };
        if 0xDC00 <= lo && lo <= 0xDFFF {
            let cp = 0x10000 + (hi - 0xD800) * 1024 + (lo - 0xDC00);
            match std_char_from_u32(cp) {
                Some(ch) => Some((ch, j + 6)),
                None => Some(('\u{FFFD}', j + 6)),
            }
        } else {
            Some(('\u{FFFD}', j + 6))
        }
    } else {
        match std_char_from_u32(hi) {
            Some(ch) => Some((ch, i + 4)),
            None => Some(('\u{FFFD}', i + 4)),
        }
    }
}

/// One decoding step at `p`, which is not at the closing quote.
fn decode_step(s: &Vec<char>, p: usize) -> (r: Option<(char, usize)>)
    requires
        p < s@.len(),
    ensures
        match r {
            Some((c, j)) => body_step(s@, p as int) == Some((c, j as int)) && p < j <= s@.len(),
            None => body_step(s@, p as int) is None,
        },
{
    let n = s.len();
    let c = s[p];
    if c == '\\' {
        if p + 1 >= n {
            None
        } else {
            let e = s[p + 1];
            if e == 'n' {
                Some(('\n', p + 2))
            } else if e == 'r' {
                Some(('\r', p + 2))
            } else if e == 't' {
                Some(('\t', p + 2))
            } else if e == 'b' {
                Some(('\u{08}', p + 2))
            } else if e == 'f' {
                Some(('\u{0C}', p + 2))
            } else if e == 'u' {
                let r = decode_u_escape(s, p + 2);
                proof {
                    lemma_body_step_advances(s@, p as int);
                }
                r
            } else {
                Some((e, p + 2))
            }
        }
    } else {
        Some((c, p + 1))
    }
}

/// Decodes the string body of `s` starting at `start` into `out`.
pub(crate) fn decode_body_at<const N: usize>(
    s: &Vec<char>,
    start: usize,
    out: &mut BoundedString<N>,
) -> (ok: bool)
    requires
        start <= s@.len(),
    ensures
        final(out)@ == push_chars(old(out)@, decode_from(s@, start as int).0, N as nat).0,
        ok == (decode_from(s@, start as int).1 && push_chars(
            old(out)@,
            decode_from(s@, start as int).0,
            N as nat,
        ).1),
{
    let ghost base = out@;
    let ghost d0 = decode_from(s@, start as int);
    let mut p = start;
    while p < s.len()
        invariant
            p <= s@.len(),
            base == old(out)@,
            d0 == decode_from(s@, start as int),
            push_chars(base, d0.0, N as nat) == push_chars(
                out@,
                decode_from(s@, p as int).0,
                N as nat,
            ),
            d0.1 == decode_from(s@, p as int).1,
        decreases s@.len() - p,
    {
        if s[p] == '"' {
            proof {
                assert(decode_from(s@, p as int) == (Seq::<char>::empty(), true));
                assert(push_chars(out@, Seq::<char>::empty(), N as nat) == (out@, true));
            }
            return true;
        }
        match decode_step(s, p) {
            None => {
                proof {
                    assert(decode_from(s@, p as int) == (Seq::<char>::empty(), false));
                    assert(push_chars(out@, Seq::<char>::empty(), N as nat) == (out@, true));
                }
                return false;
            },
            Some((ch, j)) => {
                let ghost rest = decode_from(s@, j as int);
                let ghost d = seq![ch] + rest.0;
                proof {
                    assert(decode_from(s@, p as int) == (d, rest.1));
                    assert(d[0] == ch);
                    assert(d.drop_first() =~= rest.0);
                    lemma_utf8_len_push(out@, ch);
                }
                let ghost before = out@;
                let r = out.push(ch);
                if r.is_err() {
                    proof {
                        assert(push_chars(before, d, N as nat) == (before, false));
                    }
                    return false;
                }
                proof {
                    assert(push_chars(before, d, N as nat) == push_chars(out@, rest.0, N as nat));
                }
                p = j;
            },
        }
    }
    proof {
        assert(decode_from(s@, p as int) == (Seq::<char>::empty(), false));
        assert(push_chars(out@, Seq::<char>::empty(), N as nat) == (out@, true));
    }
    false
}

/// Decodes a JSON string body (the characters after the opening quote) into
/// `out`, stopping at the unescaped closing quote. Returns `true` only when the
/// closing quote was reached and every decoded character fit.
///
/// Handles the standard escapes plus `\uXXXX`, including UTF-16 surrogate
/// pairs, so astral-plane characters survive.
pub fn decode_string_body<const N: usize>(s: &str, out: &mut BoundedString<N>) -> (ok: bool)
    ensures
        final(out)@ == push_chars(old(out)@, decode_from(s@, 0).0, N as nat).0,
        ok == (decode_from(s@, 0).1 && push_chars(old(out)@, decode_from(s@, 0).0, N as nat).1),
{
    let v = chars_of(s);
    decode_body_at(&v, 0, out)
}

// ---------------------------------------------------------------------------
// Escaping, then decoding
// ---------------------------------------------------------------------------
/// The escape of one character.
pub open spec fn escape_char(c: char) -> Seq<char> {
    concat(escape_char_pieces(c))
}

/// The hex digit written for a nibble reads back as that nibble.
proof fn lemma_hex_digit_roundtrip(n: u32)
    requires
        n < 16,
    ensures
        hex_value(hex_digit_code(n) as char) == Some(n),
{
}

/// The nibbles of a control character's code, read back in order, give
/// the code.
proof fn lemma_control_nibbles(cp: u32)
    requires
        cp < 0x20,
    ensures
        (cp >> 12u32) & 0xf == 0,
        (cp >> 8u32) & 0xf == 0,
        ((cp >> 4u32) & 0xf) * 16 + ((cp >> 0u32) & 0xf) == cp,
        (cp >> 4u32) & 0xf < 16,
        (cp >> 0u32) & 0xf < 16,
{
    assert((cp >> 12u32) & 0xf == 0 && (cp >> 8u32) & 0xf == 0 && ((cp >> 4u32) & 0xf) * 16 + ((
    cp >> 0u32) & 0xf) == cp && (cp >> 4u32) & 0xf < 16 && (cp >> 0u32) & 0xf < 16) by (bit_vector)
        requires
            cp < 0x20,
    ;
}

/// One decoding step at the escape of `c` reads back `c` and moves past its
/// escape; the escape never starts with a quote.
#[verifier::spinoff_prover]
#[verifier::rlimit(40)]
proof fn lemma_step_reads_escape(e: Seq<char>, p: int, c: char)
    requires
        0 <= p,
        p + escape_char(c).len() <= e.len(),
        forall|t: int| 0 <= t < escape_char(c).len() ==> e[p + t] == #[trigger] escape_char(c)[t],
    ensures
        escape_char(c).len() > 0,
        e[p] != '"',
        body_step(e, p) == Some((c, p + escape_char(c).len())),
{
    reveal_strlit("\\\"");
    reveal_strlit("\\\\");
    reveal_strlit("\\n");
    reveal_strlit("\\r");
    reveal_strlit("\\t");
    reveal_strlit("\\u");
    reveal_with_fuel(concat, 6);
    let x = escape_char(c);
    if c == '"' || c == '\\' || c == '\n' || c == '\r' || c == '\t' {
        assert(x.len() == 2);
        assert(e[p] == x[0] && e[p + 1] == x[1]);
    } else if (c as u32) < 0x20 {
        let cp = c as u32;
        lemma_control_nibbles(cp);
        let d1 = (cp >> 4u32) & 0xf;
        let d0 = (cp >> 0u32) & 0xf;
        lemma_hex_digit_roundtrip(0);
        lemma_hex_digit_roundtrip(d1);
        lemma_hex_digit_roundtrip(d0);
        assert(x =~= seq!['\\', 'u', hex_digit_code(0) as char, hex_digit_code(0) as char,
            hex_digit_code(d1) as char, hex_digit_code(d0) as char]);
        assert(e[p] == x[0] && e[p + 1] == x[1] && e[p + 2] == x[2] && e[p + 3] == x[3]
            && e[p + 4] == x[4] && e[p + 5] == x[5]);
        assert(hex4(e, p + 2) == Some(cp));
        vstd::utf8::char_u32_cast(c, cp);
    } else {
        assert(x =~= seq![c]);
        assert(e[p] == x[0]);
    }
}

/// Decoding from the escape of the `k`-th character of `s` on reads back
/// the rest of `s` and reaches the closing quote.
proof fn lemma_decode_escaped_from(s: Seq<char>, rest: Seq<char>, k: int)
    requires
        0 <= k <= s.len(),
    ensures
        decode_from(escaped(s) + seq!['"'] + rest, escaped(s.take(k)).len() as int) == (
            s.skip(k),
            true,
        ),
    decreases s.len() - k,
{
    let e = escaped(s) + seq!['"'] + rest;
    let p = escaped(s.take(k)).len() as int;
    lemma_escape_pieces_prefix(s, k);
    lemma_concat_append(escape_pieces(s.take(k)), escape_tail(s, k));
    if k == s.len() {
        assert(s.take(k) =~= s);
        assert(e[p] == '"');
        assert(s.skip(k) =~= Seq::<char>::empty());
    } else {
        let c = s[k];
        let x = escape_char(c);
        lemma_concat_append(escape_char_pieces(c), escape_tail(s, k + 1));
        assert(escaped(s) == escaped(s.take(k)) + x + concat(escape_tail(s, k + 1)));
        assert(s.take(k + 1).drop_last() =~= s.take(k));
        assert(s.take(k + 1).last() == c);
        lemma_concat_append(escape_pieces(s.take(k)), escape_char_pieces(c));
        assert(escaped(s.take(k + 1)) == escaped(s.take(k)) + x);
        assert forall|t: int| 0 <= t < x.len() implies e[p + t] == #[trigger] x[t] by {
            assert(escaped(s)[p + t] == (escaped(s.take(k)) + x + concat(escape_tail(s, k + 1)))[p
                + t]);
        }
        lemma_step_reads_escape(e, p, c);
        lemma_decode_escaped_from(s, rest, k + 1);
        assert(s.skip(k) =~= seq![c] + s.skip(k + 1));
    }
}

/// What is read back of an escaped text is the text: decoding the escape of
/// any `s`, closed by a quote, gives `s` and reaches the quote, whatever
/// follows it.
pub proof fn law_escape_then_decode(s: Seq<char>, rest: Seq<char>)
    ensures
        decode_from(escaped(s) + seq!['"'] + rest, 0) == (s, true),
{
    lemma_decode_escaped_from(s, rest, 0);
    assert(s.take(0) =~= Seq::<char>::empty());
    assert(escape_pieces(s.take(0)) =~= Seq::<Seq<char>>::empty());
    assert(s.skip(0) =~= s);
}

/// Escaping goes character by character: the escape of `a` followed by `b`
/// is the escape of `a` followed by the escape of `b`.
pub proof fn law_escape_per_char(a: Seq<char>, b: Seq<char>)
    ensures
        escaped(a + b) == escaped(a) + escaped(b),
    decreases b.len(),
{
    if b.len() == 0 {
        assert(a + b =~= a);
        assert(escaped(a) + escaped(b) =~= escaped(a));
    } else {
        let c = b.last();
        assert((a + b).drop_last() =~= a + b.drop_last());
        assert((a + b).last() == c);
        law_escape_per_char(a, b.drop_last());
        lemma_concat_append(escape_pieces(a + b.drop_last()), escape_char_pieces(c));
        lemma_concat_append(escape_pieces(b.drop_last()), escape_char_pieces(c));
        assert(escaped(a + b) =~= escaped(a) + escaped(b));
    }
}

/// The lowercase hex digit for `n`, taken from the digit alphabet.
proof fn lemma_hex_digit_char(n: u32)
    requires
        n < 16,
    ensures
        hex_digit_code(n) as char == "0123456789abcdef"@[n as int],
{
    reveal_strlit("0123456789abcdef");
}

/// What one character becomes in the escaped text: the quote, the backslash,
/// newline, carriage return and tab get their two-character escapes, the other
/// controls below 0x20 become `\u00` and two lowercase hex digits of their
/// code, and every other character is copied unchanged.
pub proof fn law_escape_char(c: char)
    ensures
        c == '"' ==> escaped(seq![c]) == seq!['\\', '"'],
        c == '\\' ==> escaped(seq![c]) == seq!['\\', '\\'],
        c == '\n' ==> escaped(seq![c]) == seq!['\\', 'n'],
        c == '\r' ==> escaped(seq![c]) == seq!['\\', 'r'],
        c == '\t' ==> escaped(seq![c]) == seq!['\\', 't'],
        (c as u32) < 0x20 && c != '\n' && c != '\r' && c != '\t' ==> escaped(seq![c]) == seq![
            '\\',
            'u',
            '0',
            '0',
            "0123456789abcdef"@[((c as u32) / 16) as int],
            "0123456789abcdef"@[((c as u32) % 16) as int],
        ],
        (c as u32) >= 0x20 && c != '"' && c != '\\' ==> escaped(seq![c]) == seq![c],
{
    reveal_strlit("\\\"");
    reveal_strlit("\\\\");
    reveal_strlit("\\n");
    reveal_strlit("\\r");
    reveal_strlit("\\t");
    reveal_strlit("\\u");
    reveal_with_fuel(concat, 6);
    let s = seq![c];
    assert(s.drop_last() =~= Seq::<char>::empty());
    assert(escape_pieces(s.drop_last()) =~= Seq::<Seq<char>>::empty());
    assert(escape_pieces(s) =~= escape_char_pieces(c));
    let x = escaped(s);
    if c == '"' || c == '\\' || c == '\n' || c == '\r' || c == '\t' {
        assert(x.len() == 2);
    } else if (c as u32) < 0x20 {
        let cp = c as u32;
        lemma_control_nibbles(cp);
        let d1 = (cp >> 4u32) & 0xf;
        let d0 = (cp >> 0u32) & 0xf;
        assert(d1 == cp / 16 && d0 == cp % 16);
        lemma_hex_digit_char(0);
        lemma_hex_digit_char(d1);
        lemma_hex_digit_char(d0);
        reveal_strlit("0123456789abcdef");
        assert(x =~= seq!['\\', 'u', '0', '0', "0123456789abcdef"@[(cp / 16) as int],
            "0123456789abcdef"@[(cp % 16) as int]]);
    } else {
        assert(x =~= seq![c]);
    }
}

// ---------------------------------------------------------------------------
// Frame inspection
// ---------------------------------------------------------------------------
/// The character range `(start, end)` of the value of the first `"type"` key,
/// or `None` when there is none.
pub open spec fn frame_type_range(s: Seq<char>) -> Option<(int, int)> {
    match find_from(s, "\"type\""@, 0) {
        None => None,
        Some(i) => match find_from(s, "\""@, i + "\"type\""@.len()) {
            None => None,
            Some(j) => match find_from(s, "\""@, j + 1) {
                None => None,
                Some(k) => Some((j + 1, k)),
            },
        },
    }
}

/// The value of the first `"type"` key: the text between the next two quotes
/// after it, or empty when absent.
pub open spec fn frame_type_of(s: Seq<char>) -> Seq<char> {
    match frame_type_range(s) {
        None => Seq::empty(),
        Some((b, e)) => s.subrange(b, e),
    }
}

/// Exec: the range of the value of the first `"type"` key in `s`.
pub(crate) fn frame_type_at(s: &Vec<char>) -> (r: Option<(usize, usize)>)
    ensures
        match r {
            Some((b, e)) => frame_type_range(s@) == Some((b as int, e as int)) && b <= e
                <= s@.len(),
            None => frame_type_range(s@) is None,
        },
{
    let key = chars_of("\"type\"");
    let quote = chars_of("\"");
    let i = match find_at(s, &key, 0) {
        Some(i) => i,
        None => return None,
    };
    proof {
        lemma_find_from(s@, key@, 0);
    }
    let j = match find_at(s, &quote, i + key.len()) {
        Some(j) => j,
        None => return None,
    };
    proof {
        lemma_find_from(s@, quote@, i + key@.len());
    }
    proof {
        reveal_strlit("\"");
    }
    let k = match find_at(s, &quote, j + 1) {
        Some(k) => k,
        None => return None,
    };
    proof {
        lemma_find_from(s@, quote@, j + 1);
    }
    Some((j + 1, k))
}

/// Value of the top-level `"type"` field of an SSE frame, or `""` if absent.
///
/// The first `"type"` in an Anthropic frame is always the top-level event type
/// (`content_block_delta`, `message_stop`, `error`, ...); these tokens contain
/// no escapes, so a plain slice is enough.
pub fn frame_type(json: &str) -> (r: &str)
    ensures
        r@ == frame_type_of(json@),
{
    let v = chars_of(json);
    match frame_type_at(&v) {
        Some((b, e)) => json.substring_char(b, e),
        None => json.substring_char(0, 0),
    }
}

/// Where the string body of `delta.text` starts in an Anthropic
/// `text_delta` payload.
pub open spec fn text_delta_body(s: Seq<char>) -> Option<int> {
    match find_from(s, "\"text_delta\""@, 0) {
        None => None,
        Some(i) => match find_from(s, "\"text\""@, i) {
            None => None,
            Some(k) => match find_from(s, "\""@, k + "\"text\""@.len()) {
                None => None,
                Some(q) => Some(q + 1),
            },
        },
    }
}

/// What decoding the string body at `b` into a cleared buffer of `cap` bytes
/// leaves there, and whether it succeeded.
pub open spec fn body_outcome(s: Seq<char>, b: int, cap: nat) -> (Seq<char>, bool) {
    (
        push_chars(Seq::empty(), decode_from(s, b).0, cap).0,
        decode_from(s, b).1 && push_chars(Seq::empty(), decode_from(s, b).0, cap).1,
    )
}

/// Buffer contents and result of `extract_text_delta` on `s` with the buffer
/// holding `old`: unchanged and `false` when `s` is no `text_delta`.
pub open spec fn text_delta_outcome(s: Seq<char>, old: Seq<char>, cap: nat) -> (Seq<char>, bool) {
    match text_delta_body(s) {
        None => (old, false),
        Some(b) => body_outcome(s, b, cap),
    }
}

/// Exec: where the `delta.text` body starts.
pub(crate) fn text_delta_body_at(s: &Vec<char>) -> (r: Option<usize>)
    ensures
        match r {
            Some(b) => text_delta_body(s@) == Some(b as int) && b <= s@.len(),
            None => text_delta_body(s@) is None,
        },
{
    let marker = chars_of("\"text_delta\"");
    let key = chars_of("\"text\"");
    let quote = chars_of("\"");
    let i = match find_at(s, &marker, 0) {
        Some(i) => i,
        None => return None,
    };
    proof {
        lemma_find_from(s@, marker@, 0);
    }
    let k = match find_at(s, &key, i) {
        Some(k) => k,
        None => return None,
    };
    proof {
        lemma_find_from(s@, key@, i as int);
    }
    let q = match find_at(s, &quote, k + key.len()) {
        Some(q) => q,
        None => return None,
    };
    proof {
        reveal_strlit("\"");
    }
    proof {
        lemma_find_from(s@, quote@, k + key@.len());
    }
    Some(q + 1)
}

/// Exec, over characters: `extract_text_delta`.
pub(crate) fn text_delta_into<const N: usize>(s: &Vec<char>, out: &mut BoundedString<N>) -> (ok:
    bool)
    ensures
        (final(out)@, ok) == text_delta_outcome(s@, old(out)@, N as nat),
{
    match text_delta_body_at(s) {
        None => false,
        Some(b) => {
            out.clear();
            decode_body_at(s, b, out)
        },
    }
}

/// Extracts `delta.text` from an Anthropic `content_block_delta` payload.
///
/// Returns `true` and fills `out` only when the payload is a `text_delta`
/// whose text decodes completely into `out`. Other delta types and non-delta
/// events return `false` and leave `out` as it was.
pub fn extract_text_delta<const N: usize>(json: &str, out: &mut BoundedString<N>) -> (ok: bool)
    ensures
        (final(out)@, ok) == text_delta_outcome(json@, old(out)@, N as nat),
{
    let v = chars_of(json);
    text_delta_into(&v, out)
}

/// Where the string body of `choices[0].delta.content` starts in an OpenAI /
/// OpenRouter chunk; `None` when there is no `"delta"` / `"content"` key or the
/// content is not a string (e.g. `null`).
pub open spec fn openai_delta_body(s: Seq<char>) -> Option<int> {
    match find_from(s, "\"delta\""@, 0) {
        None => None,
        Some(i) => match find_from(s, "\"content\""@, i) {
            None => None,
            Some(k) => {
                let r = skip_while(s, k + "\"content\""@.len(), |c: char| is_sep(c));
                if r < s.len() && s[r] == '"' {
                    Some(r + 1)
                } else {
                    None
                }
            },
        },
    }
}

/// Buffer contents and result of `extract_openai_delta` on `s` with the buffer
/// holding `old`: unchanged and `false` when `s` carries no string content.
pub open spec fn openai_delta_outcome(s: Seq<char>, old: Seq<char>, cap: nat) -> (Seq<char>, bool) {
    match openai_delta_body(s) {
        None => (old, false),
        Some(b) => body_outcome(s, b, cap),
    }
}

/// Exec: where the `delta.content` body starts.
pub(crate) fn openai_delta_body_at(s: &Vec<char>) -> (r: Option<usize>)
    ensures
        match r {
            Some(b) => openai_delta_body(s@) == Some(b as int) && b <= s@.len(),
            None => openai_delta_body(s@) is None,
        },
{
    let marker = chars_of("\"delta\"");
    let key = chars_of("\"content\"");
    let i = match find_at(s, &marker, 0) {
        Some(i) => i,
        None => return None,
    };
    proof {
        lemma_find_from(s@, marker@, 0);
    }
    let k = match find_at(s, &key, i) {
        Some(k) => k,
        None => return None,
    };
    proof {
        lemma_find_from(s@, key@, i as int);
    }
    let r = skip_seps(s, k + key.len());
    proof {
        lemma_skip_while(s@, k + key@.len(), |c: char| is_sep(c));
    }
    if r < s.len() && s[r] == '"' {
        Some(r + 1)
    } else {
        None
    }
}

/// Exec, over characters: `extract_openai_delta`.
pub(crate) fn openai_delta_into<const N: usize>(s: &Vec<char>, out: &mut BoundedString<N>) -> (ok:
    bool)
    ensures
        (final(out)@, ok) == openai_delta_outcome(s@, old(out)@, N as nat),
{
    match openai_delta_body_at(s) {
        None => false,
        Some(b) => {
            out.clear();
            decode_body_at(s, b, out)
        },
    }
}

/// Extracts `choices[0].delta.content` from an OpenAI / OpenRouter streaming
/// chunk. Returns `true` and fills `out` when the chunk carries text content;
/// `false` (leaving `out` as it was) for role-only, `content: null` and finish
/// chunks.
pub fn extract_openai_delta<const N: usize>(json: &str, out: &mut BoundedString<N>) -> (ok: bool)
    ensures
        (final(out)@, ok) == openai_delta_outcome(json@, old(out)@, N as nat),
{
    let v = chars_of(json);
    openai_delta_into(&v, out)
}

/// One saturating decimal accumulation step: `acc * 10 + d`, clamped to
/// `u32::MAX` at each operation.
pub open spec fn sat_digit(acc: u32, d: u32) -> u32 {
    let m: u32 = if acc * 10 > u32::MAX {
        u32::MAX
    } else {
        (acc * 10) as u32
    };
    if m + d > u32::MAX {
        u32::MAX
    } else {
        (m + d) as u32
    }
}

/// Value of a decimal digit, as `char::to_digit(10)` reads it.
pub open spec fn dec_value(c: char) -> Option<u32> {
    if 48 <= (c as u32) <= 57 {
        Some(((c as u32) - 48) as u32)
    } else {
        None
    }
}

/// The value of the run of decimal digits at `i` (accumulated onto `acc`);
/// `None` when there is no digit at all.
pub open spec fn digits_from(s: Seq<char>, i: int, acc: u32, seen: bool) -> Option<u32>
    decreases s.len() - i,
{
    if 0 <= i < s.len() && dec_value(s[i]) is Some {
        digits_from(s, i + 1, sat_digit(acc, dec_value(s[i])->0), true)
    } else if seen {
        Some(acc)
    } else {
        None
    }
}

/// `usage.total_tokens` of a chunk: the digits after the `"total_tokens"` key
/// that follows the first `"usage"` key.
pub open spec fn total_tokens_of(s: Seq<char>) -> Option<u32> {
    match find_from(s, "\"usage\""@, 0) {
        None => None,
        Some(u) => match find_from(s, "\"total_tokens\""@, u + "\"usage\""@.len()) {
            None => None,
            Some(t) => digits_from(
                s,
                skip_while(s, t + "\"total_tokens\""@.len(), |c: char| is_sep(c)),
                0,
                false,
            ),
        },
    }
}

/// Whether `c` is an ASCII decimal digit.
fn is_digit(c: char) -> (b: bool)
    ensures
        b == (dec_value(c) is Some),
{
    let v = c as u32;
    48 <= v && v <= 57
}

/// Exec, over characters: `extract_total_tokens`.
pub(crate) fn total_tokens_at(s: &Vec<char>) -> (r: Option<u32>)
    ensures
        r == total_tokens_of(s@),
{
    let usage = chars_of("\"usage\"");
    let key = chars_of("\"total_tokens\"");
    let u = match find_at(s, &usage, 0) {
        Some(u) => u,
        None => return None,
    };
    proof {
        lemma_find_from(s@, usage@, 0);
    }
    let t = match find_at(s, &key, u + usage.len()) {
        Some(t) => t,
        None => return None,
    };
    proof {
        lemma_find_from(s@, key@, u + usage@.len());
    }
    let start = skip_seps(s, t + key.len());
    proof {
        lemma_skip_while(s@, t + key@.len(), |c: char| is_sep(c));
    }
    let mut i = start;
    let mut value: u32 = 0;
    let mut seen = false;
    while i < s.len() && is_digit(s[i])
        invariant
            start <= i <= s@.len(),
            digits_from(s@, start as int, 0, false) == digits_from(s@, i as int, value, seen),
        decreases s@.len() - i,
    {
        let d = (s[i] as u32) - 48;
        let m = match value.checked_mul(10) {
            Some(m) => m,
            None => u32::MAX,
        };
        value = m.saturating_add(d);
        seen = true;
        i = i + 1;
    }
    if seen {
        Some(value)
    } else {
        None
    }
}

/// Extracts `usage.total_tokens` from an OpenAI / OpenRouter chunk.
///
/// Locates the `"usage"` key, then the `"total_tokens"` key after it, skips
/// `:`, spaces and tabs, and reads the decimal digits (saturating at
/// `u32::MAX`). Returns `None` when either key is absent or no digit follows.
pub fn extract_total_tokens(json: &str) -> (r: Option<u32>)
    ensures
        r == total_tokens_of(json@),
{
    let v = chars_of(json);
    total_tokens_at(&v)
}

} // verus!
