//! The twin-pad keyboard state machine.
//!
//! Text entry is two taps per letter and fully deterministic:
//!
//! * **Compose** (default): the seven group buttons each open a letter group;
//!   `L` types a space; `Hold(L)` arms the action layer.
//! * **Letter**: the left pad picks the letter within the chosen group; the
//!   right pad accepts a predicted word.
//! * **Action layer** (after `Hold(L)`): the next button is Backspace / Send /
//!   Expand / Caps / Symbols / Newline / Clear / Cancel.
//!
//! After every change to the draft the keyboard asks the [`Predictor`] for
//! candidates for the word being typed.
use vstd::prelude::*;
use crate::button::{Button, KeyEvent};
use crate::layout::{
    GROUP_BUTTONS, LETTER_BUTTONS, group_index, group_letter, group_letters, group_of, group_str, letter_index, letter_of,
    predict_index, prediction_of,
};
use crate::predict::{cands_view, Candidates, Predictor, MAX_CANDIDATES};
use crate::text::{
    chars_of, lemma_utf8_len_concat, lemma_utf8_len_prefix, lemma_utf8_len_push, str_len,
    utf8_len, BoundedString,
};

verus! {

broadcast use vstd::seq_lib::group_seq_properties;

/// Maximum draft length (bytes).
pub const BUF: usize = 256;

/// Whether the keyboard is composing or picking a letter in a group.
#[derive(Clone, Copy, PartialEq, Eq, Debug, Structural)]
enum State {
    Compose,
    /// Picking a letter within the group at this index of the layout.
    Letter(usize),
}

/// What the app should do after a key event.
#[derive(Clone, Copy, PartialEq, Eq, Debug, Structural)]
pub enum Outcome {
    /// Nothing changed; no redraw needed.
    Idle,
    /// Visible state changed; redraw the screen.
    Redraw,
    /// User asked to send the draft to the LLM.
    Send,
    /// User asked to expand the draft shorthand via the LLM.
    Expand,
}

/// The abstract state of a [`Keyboard`].
pub struct KeyboardView {
    /// The draft text.
    pub text: Seq<char>,
    /// The group whose letter is being picked, or `None` while composing.
    pub group: Option<int>,
    /// Whether the next event is an action.
    pub armed: bool,
    /// Whether the next letter is capitalised.
    pub caps: bool,
    /// The current prediction candidates.
    pub cands: Seq<Seq<char>>,
}

/// The keyboard. Owns the draft buffer, caps state, and current candidates.
pub struct Keyboard {
    buf: BoundedString<BUF>,
    state: State,
    /// Set after `Hold(L)`; the next event is interpreted as an action.
    action_armed: bool,
    /// One-shot capitalization for the next typed letter.
    caps: bool,
    cands: Candidates,
}

impl View for Keyboard {
    type V = KeyboardView;

    closed spec fn view(&self) -> KeyboardView {
        KeyboardView {
            text: self.buf@,
            group: match self.state {
                State::Compose => None,
                State::Letter(g) => Some(g as int),
            },
            armed: self.action_armed,
            caps: self.caps,
            cands: cands_view(self.cands@),
        }
    }
}

/// Index where the word being typed starts: just after the last space or
/// newline, or 0.
pub open spec fn word_start(t: Seq<char>) -> int
    decreases t.len(),
{
    if t.len() == 0 {
        0
    } else if t.last() == ' ' || t.last() == '\n' {
        t.len() as int
    } else {
        word_start(t.drop_last())
    }
}

/// The word being typed: the text after the last space or newline.
pub open spec fn current_word(t: Seq<char>) -> Seq<char> {
    t.subrange(word_start(t), t.len() as int)
}

/// `word_start` lies within the text.
pub proof fn lemma_word_start(t: Seq<char>)
    ensures
        0 <= word_start(t) <= t.len(),
    decreases t.len(),
{
    if t.len() > 0 && !(t.last() == ' ' || t.last() == '\n') {
        lemma_word_start(t.drop_last());
    }
}

/// The word being typed is what follows the last space or newline of the
/// draft: it holds neither, and it starts the draft or follows one of them.
/// So a space or a newline ends the word: right after either, the word being
/// typed is empty, and any other character extends the word it follows.
pub proof fn law_current_word(t: Seq<char>, c: char)
    ensures
        0 <= word_start(t) <= t.len(),
        forall|i: int| word_start(t) <= i < t.len() ==> t[i] != ' ' && t[i] != '\n',
        word_start(t) > 0 ==> (t[word_start(t) - 1] == ' ' || t[word_start(t) - 1] == '\n'),
        (c == ' ' || c == '\n') ==> word_start(t.push(c)) == t.len() + 1 && current_word(
            t.push(c),
        ).len() == 0,
        (c != ' ' && c != '\n') ==> word_start(t.push(c)) == word_start(t) && current_word(
            t.push(c),
        ) == current_word(t).push(c),
    decreases t.len(),
{
    let u = t.push(c);
    assert(u.last() == c);
    assert(u.drop_last() =~= t);
    if t.len() > 0 {
        law_current_word(t.drop_last(), t.last());
        assert(t.drop_last().push(t.last()) =~= t);
    }
    lemma_word_start(t);
    if c != ' ' && c != '\n' {
        assert(current_word(u) =~= current_word(t).push(c));
    }
}

/// The draft after typing `c`: unchanged when it would not fit.
pub open spec fn typed(t: Seq<char>, c: char) -> Seq<char> {
    if utf8_len(t.push(c)) <= BUF {
        t.push(c)
    } else {
        t
    }
}

/// The draft after a backspace.
pub open spec fn backspaced(t: Seq<char>) -> Seq<char> {
    if t.len() == 0 {
        t
    } else {
        t.drop_last()
    }
}

/// The draft after accepting `w`: the partial word is replaced by `w` and a
/// space, unless that would not fit, in which case the draft is unchanged.
pub open spec fn accepted(t: Seq<char>, w: Seq<char>) -> Seq<char> {
    let st = word_start(t);
    if utf8_len(t.subrange(0, st)) + utf8_len(w) + 1 > BUF {
        t
    } else {
        t.subrange(0, st) + w + seq![' ']
    }
}

/// ASCII uppercase of `c` (`char::to_ascii_uppercase`).
pub open spec fn upper(c: char) -> char {
    if 97 <= (c as u32) <= 122 {
        ((c as u32) - 32) as char
    } else {
        c
    }
}

/// `v` with its candidates recomputed for the word being typed.
pub open spec fn repredicted<P: Predictor>(v: KeyboardView, p: &P) -> KeyboardView {
    KeyboardView {
        text: v.text,
        group: v.group,
        armed: v.armed,
        caps: v.caps,
        cands: p.predicted(current_word(v.text)),
    }
}

/// `v` with a new text.
pub open spec fn with_text(v: KeyboardView, t: Seq<char>) -> KeyboardView {
    KeyboardView { text: t, group: v.group, armed: v.armed, caps: v.caps, cands: v.cands }
}

/// `v` with a new group state.
pub open spec fn with_group(v: KeyboardView, g: Option<int>) -> KeyboardView {
    KeyboardView { text: v.text, group: g, armed: v.armed, caps: v.caps, cands: v.cands }
}

/// `v` with new flags.
pub open spec fn with_flags(v: KeyboardView, armed: bool, caps: bool) -> KeyboardView {
    KeyboardView { text: v.text, group: v.group, armed, caps, cands: v.cands }
}

/// Effect of tapping `b` (action layer not armed).
pub open spec fn tap_step<P: Predictor>(v: KeyboardView, b: Button, p: &P) -> (
    KeyboardView,
    Outcome,
) {
    match v.group {
        None => if b == Button::L {
            (repredicted(with_text(v, typed(v.text, ' ')), p), Outcome::Redraw)
        } else {
            match group_of(b) {
                Some(g) => (with_group(v, Some(g)), Outcome::Redraw),
                None => (v, Outcome::Idle),
            }
        },
        Some(g) => match letter_of(b) {
            Some(i) => if i < group_letters(g).len() {
                let ch = if v.caps {
                    upper(group_letters(g)[i])
                } else {
                    group_letters(g)[i]
                };
                (
                    repredicted(
                        with_group(with_flags(with_text(v, typed(v.text, ch)), v.armed, false), None),
                        p,
                    ),
                    Outcome::Redraw,
                )
            } else {
                (with_group(v, None), Outcome::Redraw)
            },
            None => match prediction_of(b) {
                Some(pi) => if pi < v.cands.len() {
                    (
                        repredicted(with_group(with_text(v, accepted(v.text, v.cands[pi])), None), p),
                        Outcome::Redraw,
                    )
                } else {
                    (with_group(v, None), Outcome::Redraw)
                },
                None => (v, Outcome::Idle),
            },
        },
    }
}

/// Effect of the event after `Hold(L)` (the action layer already disarmed).
pub open spec fn action_step<P: Predictor>(v: KeyboardView, b: Button, p: &P) -> (
    KeyboardView,
    Outcome,
) {
    match b {
        Button::W => (repredicted(with_text(v, backspaced(v.text)), p), Outcome::Redraw),
        Button::A => (v, Outcome::Send),
        Button::S => (v, Outcome::Expand),
        Button::D => (with_flags(v, v.armed, !v.caps), Outcome::Redraw),
        Button::J => (repredicted(with_text(v, typed(v.text, '\n')), p), Outcome::Redraw),
        Button::K => (repredicted(with_text(v, Seq::empty()), p), Outcome::Redraw),
        Button::I => (v, Outcome::Redraw),
        Button::L => (v, Outcome::Redraw),
    }
}

/// The button of an event.
pub open spec fn event_button(ev: KeyEvent) -> Button {
    match ev {
        KeyEvent::Tap(b) => b,
        KeyEvent::Hold(b) => b,
    }
}

/// Effect of one key event on the keyboard, and what the app should do.
pub open spec fn kb_step<P: Predictor>(v: KeyboardView, ev: KeyEvent, p: &P) -> (
    KeyboardView,
    Outcome,
) {
    if v.armed {
        action_step(with_flags(v, false, v.caps), event_button(ev), p)
    } else {
        match ev {
            KeyEvent::Hold(Button::L) => (with_flags(v, true, v.caps), Outcome::Redraw),
            KeyEvent::Hold(_) => (v, Outcome::Idle),
            KeyEvent::Tap(b) => tap_step(v, b, p),
        }
    }
}

/// The initial state: empty draft, composing, nothing armed, no candidates.
pub open spec fn initial_view() -> KeyboardView {
    KeyboardView {
        text: Seq::empty(),
        group: None,
        armed: false,
        caps: false,
        cands: Seq::empty(),
    }
}

/// Well-formedness of an abstract keyboard state: the draft fits, the group is
/// one of the seven, and at most four candidates are shown.
pub open spec fn view_wf(v: KeyboardView) -> bool {
    &&& utf8_len(v.text) <= BUF
    &&& (v.group matches Some(g) ==> 0 <= g < 7)
    &&& v.cands.len() <= MAX_CANDIDATES
}

impl Default for Keyboard {
    fn default() -> (k: Self)
        ensures
            k@ == initial_view(),
    {
        Self::new()
    }
}

impl Keyboard {
    /// A keyboard with an empty draft.
    pub fn new() -> (k: Self)
        ensures
            k@ == initial_view(),
    {
        let k = Self {
            buf: BoundedString::new(),
            state: State::Compose,
            action_armed: false,
            caps: false,
            cands: Vec::new(),
        };
        proof {
            assert(cands_view(k.cands@) =~= Seq::<Seq<char>>::empty());
        }
        k
    }

    /// Current draft text.
    pub fn text(&self) -> (s: &str)
        ensures
            s@ == self@.text,
    {
        self.buf.as_str()
    }

    /// Current prediction candidates.
    pub fn candidates(&self) -> (c: &Candidates)
        ensures
            cands_view(c@) == self@.cands,
    {
        &self.cands
    }

    /// Whether the next letter will be capitalized.
    pub fn caps(&self) -> (b: bool)
        ensures
            b == self@.caps,
    {
        self.caps
    }

    /// Whether the action layer is armed (for the renderer's hint row).
    pub fn action_armed(&self) -> (b: bool)
        ensures
            b == self@.armed,
    {
        self.action_armed
    }

    /// While picking a letter, the active group's letters mapped onto the left
    /// pad in order (index 0 → W, 1 → A, 2 → S, 3 → D). `None` in compose state.
    pub fn active_group(&self) -> (r: Option<&'static str>)
        ensures
            match self@.group {
                None => r is None,
                Some(g) => r matches Some(s) && s@ == group_letters(g),
            },
    {
        match self.state {
            State::Letter(g) => Some(group_str(g)),
            State::Compose => None,
        }
    }

    /// Processes one key event, returning what the app should do.
    pub fn process<P: Predictor>(&mut self, ev: KeyEvent, predictor: &P) -> (r: Outcome)
        ensures
            (final(self)@, r) == kb_step(old(self)@, ev, predictor),
    {
        if self.action_armed {
            return self.handle_action(ev, predictor);
        }
        match ev {
            KeyEvent::Hold(Button::L) => {
                self.action_armed = true;
                Outcome::Redraw
            },
            // Holds on other buttons are unused.
            KeyEvent::Hold(_) => Outcome::Idle,
            KeyEvent::Tap(b) => self.handle_tap(b, predictor),
        }
    }

    fn handle_tap<P: Predictor>(&mut self, b: Button, predictor: &P) -> (r: Outcome)
        requires
            !old(self)@.armed,
        ensures
            (final(self)@, r) == tap_step(old(self)@, b, predictor),
    {
        match self.state {
            State::Compose => {
                if b == Button::L {
                    self.push_char(' ');
                    self.repredict(predictor);
                    return Outcome::Redraw;
                }
                if let Some(g) = group_index(b) {
                    self.state = State::Letter(g);
                    return Outcome::Redraw;
                }
                Outcome::Idle
            },
            State::Letter(g) => {
                if let Some(i) = letter_index(b) {
                    if let Some(ch) = group_letter(g, i) {
                        let ch = if self.caps {
                            ascii_upper(ch)
                        } else {
                            ch
                        };
                        self.push_char(ch);
                        self.caps = false;  // one-shot
                        self.state = State::Compose;
                        self.repredict(predictor);
                        return Outcome::Redraw;
                    }
                    // The group has fewer entries than this slot.
                    self.state = State::Compose;
                    return Outcome::Redraw;
                }
                if let Some(pi) = predict_index(b) {
                    if pi < self.cands.len() {
                        let word: String = self.cands[pi].as_str().to_owned();
                        proof {
                            assert(cands_view(self.cands@)[pi as int] == self.cands@[pi as int]@);
                        }
                        self.accept_word(word.as_str());
                        self.state = State::Compose;
                        self.repredict(predictor);
                        return Outcome::Redraw;
                    }
                    // No candidate in that slot: cancel back to compose.
                    self.state = State::Compose;
                    return Outcome::Redraw;
                }
                Outcome::Idle
            },
        }
    }

    fn handle_action<P: Predictor>(&mut self, ev: KeyEvent, predictor: &P) -> (r: Outcome)
        requires
            old(self)@.armed,
        ensures
            (final(self)@, r) == action_step(
                with_flags(old(self)@, false, old(self)@.caps),
                event_button(ev),
                predictor,
            ),
    {
        self.action_armed = false;
        let b = match ev {
            KeyEvent::Tap(b) => b,
            KeyEvent::Hold(b) => b,
        };
        match b {
            Button::W => {
                self.backspace();
                self.repredict(predictor);
                Outcome::Redraw
            },
            Button::A => Outcome::Send,
            Button::S => Outcome::Expand,
            Button::D => {
                self.caps = !self.caps;
                Outcome::Redraw
            },
            Button::J => {
                self.push_char('\n');
                self.repredict(predictor);
                Outcome::Redraw
            },
            Button::K => {
                let mut b = self.take_buf();
                b.clear();
                self.buf = b;
                self.repredict(predictor);
                Outcome::Redraw
            },
            // I = symbols/numbers layer placeholder; L = cancel, which still
            // disarms the layer and so changes what is shown.
            Button::I => Outcome::Redraw,
            Button::L => Outcome::Redraw,
        }
    }

    /// Moves the draft out, leaving an empty one in its place.
    fn take_buf(&mut self) -> (b: BoundedString<BUF>)
        ensures
            b@ == old(self)@.text,
            final(self)@ == with_text(old(self)@, Seq::empty()),
    {
        let mut b = BoundedString::new();
        std::mem::swap(&mut b, &mut self.buf);
        b
    }

    fn push_char(&mut self, ch: char)
        ensures
            final(self)@ == with_text(old(self)@, typed(old(self)@.text, ch)),
    {
        proof {
            lemma_utf8_len_push(self.buf@, ch);
        }
        let mut b = self.take_buf();
        let _ = b.push(ch);
        self.buf = b;
    }

    fn backspace(&mut self)
        ensures
            final(self)@ == with_text(old(self)@, backspaced(old(self)@.text)),
    {
        let mut b = self.take_buf();
        let _ = b.pop();
        self.buf = b;
    }

    /// Character index where the word being typed begins.
    fn prefix_start(&self) -> (r: usize)
        ensures
            r == word_start(self@.text),
            r <= self@.text.len(),
    {
        let v = chars_of(self.buf.as_str());
        let mut i = v.len();
        proof {
            assert(v@.subrange(0, v@.len() as int) =~= v@);
        }
        while i > 0 && v[i - 1] != ' ' && v[i - 1] != '\n'
            invariant
                i <= v@.len(),
                word_start(v@) == word_start(v@.subrange(0, i as int)),
            decreases i,
        {
            proof {
                assert(v@.subrange(0, i as int).drop_last() =~= v@.subrange(0, i - 1));
            }
            i = i - 1;
        }
        proof {
            if i > 0 {
                assert(v@.subrange(0, i as int).last() == v@[i - 1]);
            }
            assert(v@.subrange(0, v@.len() as int) =~= v@);
        }
        i
    }

    fn repredict<P: Predictor>(&mut self, predictor: &P)
        ensures
            final(self)@ == repredicted(old(self)@, predictor),
    {
        let start = self.prefix_start();
        let n = self.buf.as_str().unicode_len();
        let word = self.buf.as_str().substring_char(start, n);
        let mut tmp: Candidates = Vec::new();
        predictor.predict(word, &mut tmp);
        self.cands = tmp;
    }

    /// Replaces the current partial word with `word` and a trailing space.
    ///
    /// If the replacement would not fit in the draft buffer, the draft is left
    /// unchanged rather than partially rewritten.
    fn accept_word(&mut self, word_str: &str)
        ensures
            final(self)@ == with_text(old(self)@, accepted(old(self)@.text, word_str@)),
    {
        let word = chars_of(word_str);
        let start = self.prefix_start();
        let kept_str = self.buf.as_str().substring_char(0, start);
        let kept = str_len(kept_str);
        let wlen = str_len(word_str);
        proof {
            lemma_word_start(self@.text);
            lemma_utf8_len_prefix(self@.text, start as int);
        }
        if wlen > BUF || kept > BUF - wlen || kept + wlen + 1 > BUF {
            return;
        }
        let ghost t = self@.text;
        let mut n = self.buf.as_str().unicode_len();
        proof {
            assert(t.subrange(0, t.len() as int) =~= t);
        }
        while n > start
            invariant
                start <= n <= t.len(),
                self@ == with_text(old(self)@, t.subrange(0, n as int)),
                t == old(self)@.text,
            decreases n,
        {
            let mut b = self.take_buf();
            let _ = b.pop();
            self.buf = b;
            n = n - 1;
            proof {
                assert(t.subrange(0, n + 1).drop_last() =~= t.subrange(0, n as int));
            }
        }
        let mut k: usize = 0;
        while k < word.len()
            invariant
                k <= word@.len(),
                utf8_len(t.subrange(0, start as int)) + utf8_len(word@) + 1 <= BUF,
                self@ == with_text(old(self)@, t.subrange(0, start as int) + word@.subrange(0, k as int)),
            decreases word@.len() - k,
        {
            proof {
                lemma_utf8_len_prefix(word@, k + 1);
                lemma_utf8_len_concat(t.subrange(0, start as int), word@.subrange(0, k + 1));
                assert(word@.subrange(0, k + 1) =~= word@.subrange(0, k as int).push(word@[k as int]));
                lemma_utf8_len_push(t.subrange(0, start as int) + word@.subrange(0, k as int), word@[k as int]);
                assert(t.subrange(0, start as int) + word@.subrange(0, k + 1) =~= (t.subrange(0, start as int) + word@.subrange(0, k as int)).push(word@[k as int]));
            }
            let mut b = self.take_buf();
            let _ = b.push(word[k]);
            self.buf = b;
            k = k + 1;
        }
        proof {
            assert(word@.subrange(0, word@.len() as int) =~= word@);
            lemma_utf8_len_concat(t.subrange(0, start as int), word@);
            lemma_utf8_len_push(t.subrange(0, start as int) + word@, ' ');
            assert(t.subrange(0, start as int) + word@ + seq![' '] =~= (t.subrange(0, start as int) + word@).push(' '));
            assert(crate::text::char_len(' ') == 1);
        }
        let mut b = self.take_buf();
        let _ = b.push(' ');
        self.buf = b;
    }
}

/// Every key event keeps the keyboard well formed: the draft stays within its
/// capacity, a picked group is one of the seven, and at most four candidates
/// are shown.
pub proof fn law_step_preserves_wf<P: Predictor>(v: KeyboardView, ev: KeyEvent, p: &P)
    requires
        view_wf(v),
    ensures
        view_wf(kb_step(v, ev, p).0),
{
    lemma_word_start(v.text);
    p.lemma_predicted_bounded(current_word(v.text));
    p.lemma_predicted_bounded(current_word(typed(v.text, ' ')));
    p.lemma_predicted_bounded(current_word(typed(v.text, '\n')));
    p.lemma_predicted_bounded(current_word(backspaced(v.text)));
    p.lemma_predicted_bounded(current_word(Seq::<char>::empty()));
    if v.text.len() > 0 {
        lemma_utf8_len_prefix(v.text, v.text.len() - 1);
        assert(v.text.subrange(0, v.text.len() - 1) =~= v.text.drop_last());
    }
    assert(utf8_len(Seq::<char>::empty()) == 0);
    match v.group {
        Some(g) => {
            let b = event_button(ev);
            if let Some(i) = letter_of(b) {
                if i < group_letters(g).len() {
                    let ch = if v.caps {
                        upper(group_letters(g)[i])
                    } else {
                        group_letters(g)[i]
                    };
                    p.lemma_predicted_bounded(current_word(typed(v.text, ch)));
                }
            }
            if let Some(pi) = prediction_of(b) {
                if pi < v.cands.len() {
                    let t = accepted(v.text, v.cands[pi]);
                    p.lemma_predicted_bounded(current_word(t));
                    lemma_utf8_len_concat(v.text.subrange(0, word_start(v.text)), v.cands[pi]);
                    lemma_utf8_len_push(v.text.subrange(0, word_start(v.text)) + v.cands[pi], ' ');
                    assert(v.text.subrange(0, word_start(v.text)) + v.cands[pi] + seq![' ']
                        =~= (v.text.subrange(0, word_start(v.text)) + v.cands[pi]).push(' '));
                }
            }
        },
        None => {},
    }
}

/// `Idle` means nothing changed: an event answered with `Idle` leaves the
/// whole keyboard state as it was, so no redraw is needed.
pub proof fn law_idle_changes_nothing<P: Predictor>(v: KeyboardView, ev: KeyEvent, p: &P)
    ensures
        kb_step(v, ev, p).1 == Outcome::Idle ==> kb_step(v, ev, p).0 == v,
{
}

/// The keyboard starts well formed.
pub proof fn law_initial_wf()
    ensures
        view_wf(initial_view()),
{
    assert(utf8_len(Seq::<char>::empty()) == 0);
}

/// The shown candidates always belong to the word being typed: if they did
/// before an event, they do after it.
pub proof fn law_candidates_track_current_word<P: Predictor>(
    v: KeyboardView,
    ev: KeyEvent,
    p: &P,
)
    requires
        v.cands == p.predicted(current_word(v.text)),
    ensures
        kb_step(v, ev, p).0.cands == p.predicted(current_word(kb_step(v, ev, p).0.text)),
{
}

/// Typing is two taps per letter: in compose state, the group button of group
/// `g` followed by the left-pad button of slot `i` types that letter
/// (capitalised once if caps was on), returns to compose state and turns caps
/// off.
pub proof fn law_two_taps_type_a_letter<P: Predictor>(v: KeyboardView, g: int, i: int, p: &P)
    requires
        !v.armed,
        v.group is None,
        0 <= g < 7,
        0 <= i < group_letters(g).len(),
    ensures
        ({
            let first = kb_step(v, KeyEvent::Tap(GROUP_BUTTONS@[g]), p);
            let second = kb_step(first.0, KeyEvent::Tap(LETTER_BUTTONS@[i]), p);
            let ch = if v.caps {
                upper(group_letters(g)[i])
            } else {
                group_letters(g)[i]
            };
            &&& first.1 == Outcome::Redraw
            &&& first.0.group == Some(g)
            &&& second.1 == Outcome::Redraw
            &&& second.0.text == typed(v.text, ch)
            &&& second.0.group is None
            &&& !second.0.caps
            &&& !second.0.armed
        }),
{
    assert(GROUP_BUTTONS@[g] != Button::L);
    assert(group_of(GROUP_BUTTONS@[g]) == Some(g));
    assert(letter_of(LETTER_BUTTONS@[i]) == Some(i));
}

/// `Hold(L)` arms the action layer without touching the draft, and the next
/// event, whatever it is, disarms it.
pub proof fn law_action_layer_is_one_event<P: Predictor>(
    v: KeyboardView,
    ev: KeyEvent,
    p: &P,
)
    requires
        !v.armed,
    ensures
        kb_step(v, KeyEvent::Hold(Button::L), p).0 == with_flags(v, true, v.caps),
        kb_step(v, KeyEvent::Hold(Button::L), p).1 == Outcome::Redraw,
        !kb_step(kb_step(v, KeyEvent::Hold(Button::L), p).0, ev, p).0.armed,
{
}

/// Backspace undoes typing: typing a character that fits and then
/// backspacing through the action layer restores the draft.
pub proof fn law_backspace_undoes_typing<P: Predictor>(v: KeyboardView, p: &P)
    requires
        !v.armed,
        v.group is None,
        utf8_len(v.text.push(' ')) <= BUF,
    ensures
        ({
            let typed_space = kb_step(v, KeyEvent::Tap(Button::L), p).0;
            let armed = kb_step(typed_space, KeyEvent::Hold(Button::L), p).0;
            kb_step(armed, KeyEvent::Tap(Button::W), p).0.text == v.text
        }),
{
    assert(v.text.push(' ').drop_last() =~= v.text);
}

/// Accepting a candidate that would overflow the draft leaves the draft
/// exactly as it was.
pub proof fn law_overflowing_accept_keeps_draft(t: Seq<char>, w: Seq<char>)
    requires
        utf8_len(t.subrange(0, word_start(t))) + utf8_len(w) + 1 > BUF,
    ensures
        accepted(t, w) == t,
{
}

/// Send and Expand only report the request; the keyboard state is unchanged
/// apart from disarming the action layer.
pub proof fn law_send_expand_keep_state<P: Predictor>(v: KeyboardView, p: &P)
    requires
        v.armed,
    ensures
        kb_step(v, KeyEvent::Tap(Button::A), p) == (with_flags(v, false, v.caps), Outcome::Send),
        kb_step(v, KeyEvent::Tap(Button::S), p) == (with_flags(v, false, v.caps), Outcome::Expand),
{
}

/// ASCII uppercase of `c`.
fn ascii_upper(c: char) -> (r: char)
    ensures
        r == upper(c),
{
    let v = c as u32;
    if 97 <= v && v <= 122 {
        ((v - 32) as u8) as char
    } else {
        c
    }
}

} // verus!
