//! The twin-pad keyboard layout.
//!
//! 26 letters and 2 punctuation marks are split across seven group buttons;
//! the eighth button (`L`) is the space / action key. Selecting a letter takes
//! two taps: the group button (one of [`GROUP_BUTTONS`]), then a left-pad
//! button ([`LETTER_BUTTONS`]) picking the letter within the group. In letter
//! state the right-pad buttons ([`PREDICT_BUTTONS`]) accept a predicted word.
use vstd::prelude::*;
use crate::button::Button;

verus! {

/// The seven letter groups, indexed to match [`GROUP_BUTTONS`]. Each holds up
/// to four entries, mapped onto the left pad in order.
pub const GROUPS: [&'static str; 7] = ["abcd", "efgh", "ijkl", "mnop", "qrst", "uvwx", "yz.,"];

/// Buttons that select a group in compose state (parallel to [`GROUPS`]).
pub const GROUP_BUTTONS: [Button; 7] = [
    Button::W,
    Button::A,
    Button::S,
    Button::D,
    Button::I,
    Button::J,
    Button::K,
];

/// Left-pad buttons that pick the letter within a group (index 0..4).
pub const LETTER_BUTTONS: [Button; 4] = [Button::W, Button::A, Button::S, Button::D];

/// Right-pad buttons that accept a predicted word (candidate 0..4).
pub const PREDICT_BUTTONS: [Button; 4] = [Button::I, Button::J, Button::K, Button::L];

/// Index of the first entry of `buttons` equal to `b`.
fn position(buttons: &[Button], b: Button) -> (r: Option<usize>)
    ensures
        match r {
            Some(i) => i < buttons@.len() && buttons@[i as int] == b && forall|j: int|
                0 <= j < i ==> buttons@[j] != b,
            None => forall|j: int| 0 <= j < buttons@.len() ==> buttons@[j] != b,
        },
{
    let mut i: usize = 0;
    while i < buttons.len()
        invariant
            i <= buttons@.len(),
            forall|j: int| 0 <= j < i ==> buttons@[j] != b,
        decreases buttons@.len() - i,
    {
        if buttons[i] == b {
            return Some(i);
        }
        i = i + 1;
    }
    None
}

/// Group selected by each button in compose state.
pub open spec fn group_of(b: Button) -> Option<int> {
    match b {
        Button::W => Some(0),
        Button::A => Some(1),
        Button::S => Some(2),
        Button::D => Some(3),
        Button::I => Some(4),
        Button::J => Some(5),
        Button::K => Some(6),
        Button::L => None,
    }
}

/// Letter slot picked by each left-pad button.
pub open spec fn letter_of(b: Button) -> Option<int> {
    match b {
        Button::W => Some(0),
        Button::A => Some(1),
        Button::S => Some(2),
        Button::D => Some(3),
        _ => None,
    }
}

/// Candidate slot accepted by each right-pad button.
pub open spec fn prediction_of(b: Button) -> Option<int> {
    match b {
        Button::I => Some(0),
        Button::J => Some(1),
        Button::K => Some(2),
        Button::L => Some(3),
        _ => None,
    }
}

/// Index of a group button within [`GROUP_BUTTONS`], if `b` selects a group.
pub fn group_index(b: Button) -> (r: Option<usize>)
    ensures
        match r {
            Some(i) => group_of(b) == Some(i as int),
            None => group_of(b) is None,
        },
{
    let r = position(&GROUP_BUTTONS, b);
    proof {
        if let Some(i) = r {
            assert(GROUP_BUTTONS@[i as int] == b);
        } else {
            assert(GROUP_BUTTONS@[0] != b);
            assert(GROUP_BUTTONS@[1] != b);
            assert(GROUP_BUTTONS@[2] != b);
            assert(GROUP_BUTTONS@[3] != b);
            assert(GROUP_BUTTONS@[4] != b);
            assert(GROUP_BUTTONS@[5] != b);
            assert(GROUP_BUTTONS@[6] != b);
        }
    }
    r
}

/// Index of a letter-selection button within [`LETTER_BUTTONS`].
pub fn letter_index(b: Button) -> (r: Option<usize>)
    ensures
        match r {
            Some(i) => letter_of(b) == Some(i as int),
            None => letter_of(b) is None,
        },
{
    let r = position(&LETTER_BUTTONS, b);
    proof {
        if let Some(i) = r {
            assert(LETTER_BUTTONS@[i as int] == b);
        } else {
            assert(LETTER_BUTTONS@[0] != b);
            assert(LETTER_BUTTONS@[1] != b);
            assert(LETTER_BUTTONS@[2] != b);
            assert(LETTER_BUTTONS@[3] != b);
        }
    }
    r
}

/// Index of a prediction-accept button within [`PREDICT_BUTTONS`].
pub fn predict_index(b: Button) -> (r: Option<usize>)
    ensures
        match r {
            Some(i) => prediction_of(b) == Some(i as int),
            None => prediction_of(b) is None,
        },
{
    let r = position(&PREDICT_BUTTONS, b);
    proof {
        if let Some(i) = r {
            assert(PREDICT_BUTTONS@[i as int] == b);
        } else {
            assert(PREDICT_BUTTONS@[0] != b);
            assert(PREDICT_BUTTONS@[1] != b);
            assert(PREDICT_BUTTONS@[2] != b);
            assert(PREDICT_BUTTONS@[3] != b);
        }
    }
    r
}

/// The letters of group `g`, in left-pad order.
pub open spec fn group_letters(g: int) -> Seq<char> {
    if g == 0 {
        seq!['a', 'b', 'c', 'd']
    } else if g == 1 {
        seq!['e', 'f', 'g', 'h']
    } else if g == 2 {
        seq!['i', 'j', 'k', 'l']
    } else if g == 3 {
        seq!['m', 'n', 'o', 'p']
    } else if g == 4 {
        seq!['q', 'r', 's', 't']
    } else if g == 5 {
        seq!['u', 'v', 'w', 'x']
    } else {
        seq!['y', 'z', '.', ',']
    }
}

/// The letters of group `g` as a string (the corresponding [`GROUPS`] entry;
/// indices past the last group read the last one).
pub fn group_str(g: usize) -> (s: &'static str)
    ensures
        s@ == group_letters(g as int),
{
    proof {
        reveal_strlit("abcd");
        reveal_strlit("efgh");
        reveal_strlit("ijkl");
        reveal_strlit("mnop");
        reveal_strlit("qrst");
        reveal_strlit("uvwx");
        reveal_strlit("yz.,");
    }
    match g {
        0 => "abcd",
        1 => "efgh",
        2 => "ijkl",
        3 => "mnop",
        4 => "qrst",
        5 => "uvwx",
        _ => "yz.,",
    }
}

/// Entry `i` of group `g`, if the group has one (indices past the last group
/// read the last one).
pub fn group_letter(g: usize, i: usize) -> (r: Option<char>)
    ensures
        r == (if i < group_letters(g as int).len() {
            Some(group_letters(g as int)[i as int])
        } else {
            None
        }),
{
    if i >= 4 {
        return None;
    }
    let letters: [char; 4] = match g {
        0 => ['a', 'b', 'c', 'd'],
        1 => ['e', 'f', 'g', 'h'],
        2 => ['i', 'j', 'k', 'l'],
        3 => ['m', 'n', 'o', 'p'],
        4 => ['q', 'r', 's', 't'],
        5 => ['u', 'v', 'w', 'x'],
        _ => ['y', 'z', '.', ','],
    };
    proof {
        assert(letters@ =~= group_letters(g as int));
    }
    Some(letters[i])
}

} // verus!
