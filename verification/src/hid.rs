//! Typing text into a host over USB HID.
//!
//! Each character that a US keyboard layout can produce becomes a key-down
//! report (with Left-Shift where needed) followed by an empty key-up report;
//! the USB transfers and the pacing belong to the firmware. Characters the
//! layout cannot produce (anything non-ASCII, most control characters) are
//! skipped.
use vstd::prelude::*;
use crate::text::chars_of;

verus! {

/// Left-Shift bit of a boot-keyboard report's modifier byte.
pub const MOD_LSHIFT: u8 = 0x02;

/// The US-layout key of a character: its HID usage id and whether Shift is
/// held, for a-z, A-Z, 0-9, space, newline, tab and the ASCII punctuation.
pub open spec fn key_of(c: char) -> Option<(u8, bool)> {
    let v = c as u32;
    if 'a' <= c <= 'z' {
        Some(((0x04 + (v - 97)) as u8, false))
    } else if 'A' <= c <= 'Z' {
        Some(((0x04 + (v - 65)) as u8, true))
    } else if '1' <= c <= '9' {
        Some(((0x1E + (v - 49)) as u8, false))
    } else {
        match c {
            '0' => Some((0x27u8, false)),
            '!' => Some((0x1Eu8, true)),
            '@' => Some((0x1Fu8, true)),
            '#' => Some((0x20u8, true)),
            '$' => Some((0x21u8, true)),
            '%' => Some((0x22u8, true)),
            '^' => Some((0x23u8, true)),
            '&' => Some((0x24u8, true)),
            '*' => Some((0x25u8, true)),
            '(' => Some((0x26u8, true)),
            ')' => Some((0x27u8, true)),
            ' ' => Some((0x2Cu8, false)),
            '\n' => Some((0x28u8, false)),
            '\t' => Some((0x2Bu8, false)),
            '-' => Some((0x2Du8, false)),
            '_' => Some((0x2Du8, true)),
            '=' => Some((0x2Eu8, false)),
            '+' => Some((0x2Eu8, true)),
            '[' => Some((0x2Fu8, false)),
            '{' => Some((0x2Fu8, true)),
            ']' => Some((0x30u8, false)),
            '}' => Some((0x30u8, true)),
            '\\' => Some((0x31u8, false)),
            '|' => Some((0x31u8, true)),
            ';' => Some((0x33u8, false)),
            ':' => Some((0x33u8, true)),
            '\'' => Some((0x34u8, false)),
            '"' => Some((0x34u8, true)),
            '`' => Some((0x35u8, false)),
            '~' => Some((0x35u8, true)),
            ',' => Some((0x36u8, false)),
            '<' => Some((0x36u8, true)),
            '.' => Some((0x37u8, false)),
            '>' => Some((0x37u8, true)),
            '/' => Some((0x38u8, false)),
            '?' => Some((0x38u8, true)),
            _ => None,
        }
    }
}

/// Maps a character to its `(HID usage id, needs Shift)` on a US layout, or
/// `None` when the layout cannot type it.
pub fn char_to_key(c: char) -> (r: Option<(u8, bool)>)
    ensures
        r == key_of(c),
{
    if 'a' <= c && c <= 'z' {
        let k = 0x04 + ((c as u32) - 97) as u8;
        return Some((k, false));
    }
    if 'A' <= c && c <= 'Z' {
        let k = 0x04 + ((c as u32) - 65) as u8;
        return Some((k, true));
    }
    if '1' <= c && c <= '9' {
        let k = 0x1E + ((c as u32) - 49) as u8;
        return Some((k, false));
    }
    let pair: (u8, bool) = match c {
        '0' => (0x27, false),
        '!' => (0x1E, true),
        '@' => (0x1F, true),
        '#' => (0x20, true),
        '$' => (0x21, true),
        '%' => (0x22, true),
        '^' => (0x23, true),
        '&' => (0x24, true),
        '*' => (0x25, true),
        '(' => (0x26, true),
        ')' => (0x27, true),
        ' ' => (0x2C, false),
        '\n' => (0x28, false),
        '\t' => (0x2B, false),
        '-' => (0x2D, false),
        '_' => (0x2D, true),
        '=' => (0x2E, false),
        '+' => (0x2E, true),
        '[' => (0x2F, false),
        '{' => (0x2F, true),
        ']' => (0x30, false),
        '}' => (0x30, true),
        '\\' => (0x31, false),
        '|' => (0x31, true),
        ';' => (0x33, false),
        ':' => (0x33, true),
        '\'' => (0x34, false),
        '"' => (0x34, true),
        '`' => (0x35, false),
        '~' => (0x35, true),
        ',' => (0x36, false),
        '<' => (0x36, true),
        '.' => (0x37, false),
        '>' => (0x37, true),
        '/' => (0x38, false),
        '?' => (0x38, true),
        _ => {
            return None;
        },
    };
    Some(pair)
}

/// The modifier byte of a key-down report.
pub open spec fn modifier_of(shift: bool) -> u8 {
    if shift {
        MOD_LSHIFT
    } else {
        0
    }
}

/// The key-down reports for `text`, as `(modifier, usage id)` pairs in order,
/// skipping the characters that cannot be typed.
pub open spec fn presses_of(text: Seq<char>) -> Seq<(u8, u8)>
    decreases text.len(),
{
    if text.len() == 0 {
        Seq::empty()
    } else {
        let before = presses_of(text.drop_last());
        match key_of(text.last()) {
            Some((k, shift)) => before.push((modifier_of(shift), k)),
            None => before,
        }
    }
}

/// The key-down reports that type `text`: each `(modifier, usage id)` is sent
/// as a press and followed by an empty release.
pub fn key_presses(text: &str) -> (r: Vec<(u8, u8)>)
    ensures
        r@ == presses_of(text@),
{
    let mut r: Vec<(u8, u8)> = Vec::new();
    let mut i: usize = 0;
    let cs = chars_of(text);
    let n = cs.len();
    while i < n
        invariant
            n == text@.len(),
            cs@ == text@,
            i <= n,
            r@ == presses_of(text@.subrange(0, i as int)),
        decreases n - i,
    {
        let c = cs[i];
        proof {
            assert(text@.subrange(0, i + 1).drop_last() =~= text@.subrange(0, i as int));
        }
        match char_to_key(c) {
            Some((k, shift)) => {
                let m: u8 = if shift {
                    MOD_LSHIFT
                } else {
                    0
                };
                r.push((m, k));
            },
            None => {},
        }
        i = i + 1;
    }
    proof {
        assert(text@.subrange(0, n as int) =~= text@);
    }
    r
}

/// The symbols a US layout types with Shift held: those over the digit row
/// and over the punctuation keys.
pub open spec fn us_shifted_symbol(c: char) -> bool {
    c == '~' || c == '!' || c == '@' || c == '#' || c == '$' || c == '%' || c == '^' || c == '&'
        || c == '*' || c == '(' || c == ')' || c == '_' || c == '+' || c == '{' || c == '}'
        || c == '|' || c == ':' || c == '"' || c == '<' || c == '>' || c == '?'
}

/// Shift is held exactly for the uppercase letters and the shifted symbols:
/// every other character that can be typed is typed without it.
pub proof fn law_shift_only_where_needed(c: char)
    requires
        key_of(c) is Some,
    ensures
        key_of(c).unwrap().1 <==> ('A' <= c <= 'Z' || us_shifted_symbol(c)),
{
}

/// No two characters share a key and Shift state, so every report types back
/// the one character it was made for.
pub proof fn law_keys_are_distinct(c1: char, c2: char)
    requires
        key_of(c1) is Some,
        key_of(c1) == key_of(c2),
    ensures
        c1 == c2,
{
}

/// Every character of the US layout's printable ASCII range, and tab and
/// newline, can be typed.
pub proof fn law_printable_ascii_is_typeable(c: char)
    requires
        (' ' <= c <= '~') || c == '\n' || c == '\t',
    ensures
        key_of(c) is Some,
{
}

} // verus!
