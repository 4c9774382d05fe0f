//! Button debouncing and hold detection.
//!
//! Each button ties its pin to ground through a pull-up, so a pressed button
//! reads low. The firmware samples the eight pins every [`TICK_MS`] and hands
//! the levels to [`Buttons::poll`], which debounces each button by requiring
//! the level to be stable for [`DEBOUNCE_TICKS`] samples and turns the
//! debounced edges into [`KeyEvent`]s:
//!
//!   * **Tap** comes on *release*, provided the press did not cross the hold
//!     threshold;
//!   * **Hold** comes *once* while still pressed, when the button has been held
//!     for [`HOLD_TICKS`] samples; the release that ends such a press gives no
//!     `Tap`.
use vstd::prelude::*;
use crate::button::{Button, KeyEvent};

verus! {

/// Sampling period of the scan loop, in milliseconds.
pub const TICK_MS: u64 = 5;

/// Consecutive equal samples needed to accept a level change (15 ms).
pub const DEBOUNCE_TICKS: u8 = 3;

/// Samples a button must stay down before a `Hold` (about half a second).
pub const HOLD_TICKS: u16 = 100;

/// The eight buttons in scan order: the order of the levels handed to
/// [`Buttons::poll`].
pub const SCAN_ORDER: [Button; 8] = [
    Button::W,
    Button::A,
    Button::S,
    Button::D,
    Button::I,
    Button::J,
    Button::K,
    Button::L,
];

/// Debounce and hold state of one button.
#[derive(Clone, Copy, Debug, PartialEq, Eq, Structural)]
pub struct Debounced {
    /// Last debounced (stable) pressed state.
    pub pressed: bool,
    /// The raw level being counted toward stability.
    pub candidate: bool,
    /// Consecutive samples `candidate` has held.
    pub stable_for: u8,
    /// Samples the debounced press has lasted; 0 when released.
    pub held_ticks: u16,
    /// Whether the current press already gave its `Hold`.
    pub hold_fired: bool,
}

/// What one sample produced for one button.
#[derive(Clone, Copy, Debug, PartialEq, Eq, Structural)]
pub enum Edge {
    /// Nothing to report.
    Idle,
    /// A debounced release of a press that did not reach the hold threshold.
    Tap,
    /// The press crossed the hold threshold, for the first time.
    Hold,
}

/// The state after counting one raw sample toward stability.
pub open spec fn counted(d: Debounced, raw: bool) -> Debounced {
    if raw == d.candidate {
        Debounced {
            stable_for: if d.stable_for < DEBOUNCE_TICKS {
                (d.stable_for + 1) as u8
            } else {
                d.stable_for
            },
            ..d
        }
    } else {
        Debounced { candidate: raw, stable_for: 1, ..d }
    }
}

/// Advances the hold timer of a pressed button; the first time it reaches
/// [`HOLD_TICKS`] the press reports `Hold`.
pub open spec fn timed(d: Debounced) -> (Debounced, Edge) {
    if d.pressed {
        let h = if d.held_ticks < u16::MAX {
            (d.held_ticks + 1) as u16
        } else {
            d.held_ticks
        };
        if !d.hold_fired && h >= HOLD_TICKS {
            (Debounced { held_ticks: h, hold_fired: true, ..d }, Edge::Hold)
        } else {
            (Debounced { held_ticks: h, ..d }, Edge::Idle)
        }
    } else {
        (d, Edge::Idle)
    }
}

/// One sample of one button: the state afterwards and its edge.
pub open spec fn step_of(d: Debounced, raw: bool) -> (Debounced, Edge) {
    let s = counted(d, raw);
    if s.stable_for >= DEBOUNCE_TICKS && s.candidate != s.pressed {
        if s.candidate {
            timed(Debounced { pressed: true, held_ticks: 0, hold_fired: false, ..s })
        } else {
            (
                Debounced { pressed: false, held_ticks: 0, hold_fired: false, ..s },
                if s.hold_fired {
                    Edge::Idle
                } else {
                    Edge::Tap
                },
            )
        }
    } else {
        timed(s)
    }
}

/// The state of a button before any sample: released and settled.
pub open spec fn released() -> Debounced {
    Debounced { pressed: false, candidate: false, stable_for: 0, held_ticks: 0, hold_fired: false }
}

impl Debounced {
    /// A released button.
    pub fn new() -> (d: Self)
        ensures
            d == released(),
    {
        Debounced { pressed: false, candidate: false, stable_for: 0, held_ticks: 0, hold_fired: false }
    }

    /// Feeds one raw sample (`raw_pressed`: the pin reads low) and returns
    /// the edge it produced.
    pub fn step(&mut self, raw_pressed: bool) -> (e: Edge)
        ensures
            (*final(self), e) == step_of(*old(self), raw_pressed),
    {
        if raw_pressed == self.candidate {
            if self.stable_for < DEBOUNCE_TICKS {
                self.stable_for = self.stable_for + 1;
            }
        } else {
            self.candidate = raw_pressed;
            self.stable_for = 1;
        }
        if self.stable_for >= DEBOUNCE_TICKS && self.candidate != self.pressed {
            self.pressed = self.candidate;
            if self.pressed {
                self.held_ticks = 0;
                self.hold_fired = false;
            } else {
                let was_hold = self.hold_fired;
                self.held_ticks = 0;
                self.hold_fired = false;
                if !was_hold {
                    return Edge::Tap;
                }
                return Edge::Idle;
            }
        }
        if self.pressed {
            if self.held_ticks < u16::MAX {
                self.held_ticks = self.held_ticks + 1;
            }
            if !self.hold_fired && self.held_ticks >= HOLD_TICKS {
                self.hold_fired = true;
                return Edge::Hold;
            }
        }
        Edge::Idle
    }
}

/// The button at position `i` of the scan order.
pub open spec fn scan_button(i: int) -> Button {
    SCAN_ORDER@[i]
}

/// The key event an edge of button `b` becomes, if any.
pub open spec fn edge_event(e: Edge, b: Button) -> Option<KeyEvent> {
    match e {
        Edge::Idle => None,
        Edge::Tap => Some(KeyEvent::Tap(b)),
        Edge::Hold => Some(KeyEvent::Hold(b)),
    }
}

/// One poll over the first `n` buttons: their states afterwards (the others
/// unchanged) and the events produced, in scan order.
pub open spec fn poll_of(states: Seq<Debounced>, raw: Seq<bool>, n: nat) -> (
    Seq<Debounced>,
    Seq<KeyEvent>,
)
    decreases n,
{
    if n == 0 {
        (states, Seq::empty())
    } else {
        let before = poll_of(states, raw, (n - 1) as nat);
        let (d, e) = step_of(states[n - 1], raw[n - 1]);
        (
            before.0.update(n - 1, d),
            match edge_event(e, scan_button(n - 1)) {
                Some(k) => before.1.push(k),
                None => before.1,
            },
        )
    }
}

/// The debounce state of the eight buttons, in [`SCAN_ORDER`].
pub struct Buttons {
    state: [Debounced; 8],
}

impl View for Buttons {
    type V = Seq<Debounced>;

    closed spec fn view(&self) -> Seq<Debounced> {
        self.state@
    }
}

impl Buttons {
    /// All eight buttons released.
    pub fn new() -> (b: Self)
        ensures
            b@ == Seq::new(8, |i: int| released()),
    {
        let b = Buttons { state: [Debounced::new();8] };
        proof {
            assert(b@ =~= Seq::new(8, |i: int| released()));
        }
        b
    }

    /// Feeds one sample of all eight buttons (`raw[i]`: button
    /// `SCAN_ORDER[i]` reads pressed) and returns the events of this tick, in
    /// scan order.
    pub fn poll(&mut self, raw: [bool; 8]) -> (events: Vec<KeyEvent>)
        ensures
            (final(self)@, events@) == poll_of(old(self)@, raw@, 8),
    {
        let mut events: Vec<KeyEvent> = Vec::new();
        let mut idx: usize = 0;
        let ghost start = self.state@;
        while idx < 8
            invariant
                idx <= 8,
                start == old(self)@,
                self.state@.len() == 8,
                raw@.len() == 8,
                (self.state@, events@) == ({
                    let p = poll_of(start, raw@, idx as nat);
                    (p.0, p.1)
                }),
                forall|j: int| idx <= j < 8 ==> self.state@[j] == start[j],
            decreases 8 - idx,
        {
            let mut d = self.state[idx];
            let e = d.step(raw[idx]);
            self.state[idx] = d;
            let b = SCAN_ORDER[idx];
            match e {
                Edge::Idle => {},
                Edge::Tap => {
                    events.push(KeyEvent::Tap(b));
                },
                Edge::Hold => {
                    events.push(KeyEvent::Hold(b));
                },
            }
            idx = idx + 1;
            proof {
                assert(self.state@ =~= poll_of(start, raw@, idx as nat).0);
            }
        }
        (events)
    }
}

// ---------------------------------------------------------------------------
// Laws of one button.
// ---------------------------------------------------------------------------
/// A press gives at most one `Hold`: once it has fired, no sample gives
/// another, and the press keeps that mark until it is released.
pub proof fn law_hold_fires_once(d: Debounced, raw: bool)
    requires
        d.hold_fired,
        d.pressed,
    ensures
        step_of(d, raw).1 != Edge::Hold,
        step_of(d, raw).0.pressed ==> step_of(d, raw).0.hold_fired,
{
}

/// The release of a press that gave a `Hold` gives no `Tap`.
pub proof fn law_no_tap_after_hold(d: Debounced, raw: bool)
    requires
        d.hold_fired,
    ensures
        step_of(d, raw).1 != Edge::Tap,
{
}

/// A `Tap` is the debounced release of a press, and a `Hold` comes only while
/// pressed.
pub proof fn law_edges_follow_the_press(d: Debounced, raw: bool)
    ensures
        step_of(d, raw).1 == Edge::Tap ==> d.pressed && !step_of(d, raw).0.pressed,
        step_of(d, raw).1 == Edge::Hold ==> step_of(d, raw).0.pressed,
{
}

/// Bounce is ignored: a settled button whose level flips for one sample and
/// flips back keeps its debounced state.
pub proof fn law_glitch_ignored(d: Debounced)
    requires
        d.candidate == d.pressed,
    ensures
        step_of(step_of(d, !d.pressed).0, d.pressed).0.pressed == d.pressed,
        step_of(d, !d.pressed).1 != Edge::Tap,
        step_of(step_of(d, !d.pressed).0, d.pressed).1 != Edge::Tap,
{
}

/// A debounced press or release starts a fresh count: the hold timer restarts
/// and the mark of an earlier `Hold` is cleared, so every press can give its
/// own `Tap` or `Hold`.
pub proof fn law_edge_starts_fresh(d: Debounced, raw: bool)
    ensures
        !d.pressed && step_of(d, raw).0.pressed ==> step_of(d, raw).0.held_ticks == 1
            && !step_of(d, raw).0.hold_fired,
        d.pressed && !step_of(d, raw).0.pressed ==> step_of(d, raw).0.held_ticks == 0
            && !step_of(d, raw).0.hold_fired,
{
}

/// The state after `n` samples that all read `raw`, starting from `d`.
pub open spec fn after_samples(d: Debounced, raw: bool, n: nat) -> Debounced
    decreases n,
{
    if n == 0 {
        d
    } else {
        step_of(after_samples(d, raw, (n - 1) as nat), raw).0
    }
}

/// Whether none of `n` samples that all read `raw`, starting from `d`, gives
/// an edge.
pub open spec fn quiet(d: Debounced, raw: bool, n: nat) -> bool
    decreases n,
{
    if n == 0 {
        true
    } else {
        quiet(d, raw, (n - 1) as nat) && step_of(after_samples(d, raw, (n - 1) as nat), raw).1
            == Edge::Idle
    }
}

/// Holding a released, settled button down: no edge, the press is accepted
/// on the third sample, and from then on the timer counts the samples.
proof fn lemma_pressing(d: Debounced, k: nat)
    requires
        !d.pressed,
        !d.candidate,
        1 <= k < HOLD_TICKS + 2,
    ensures
        quiet(d, true, k),
        after_samples(d, true, k).candidate,
        k < DEBOUNCE_TICKS ==> !after_samples(d, true, k).pressed && after_samples(
            d,
            true,
            k,
        ).stable_for == k,
        k >= DEBOUNCE_TICKS ==> after_samples(d, true, k).pressed && after_samples(
            d,
            true,
            k,
        ).stable_for == DEBOUNCE_TICKS && after_samples(d, true, k).held_ticks == k - 2
            && !after_samples(d, true, k).hold_fired,
    decreases k,
{
    assert(after_samples(d, true, 0) == d);
    assert(quiet(d, true, 0));
    if k > 1 {
        lemma_pressing(d, (k - 1) as nat);
    }
    assert(step_of(after_samples(d, true, (k - 1) as nat), true).1 == Edge::Idle);
}

/// A short press of a released, settled button gives exactly one `Tap`, on
/// its debounced release, whatever the earlier presses of that button did:
/// `n` samples down (long enough to pass the debounce, too short to hold)
/// give no edge, the first two samples up give none either, and the third
/// gives the `Tap` and leaves the button released with a clear hold mark.
pub proof fn law_short_press_taps_once(d: Debounced, n: nat)
    requires
        !d.pressed,
        !d.candidate,
        DEBOUNCE_TICKS <= n < HOLD_TICKS,
    ensures
        quiet(d, true, n),
        quiet(after_samples(d, true, n), false, 2),
        step_of(after_samples(after_samples(d, true, n), false, 2), false).1 == Edge::Tap,
        !step_of(after_samples(after_samples(d, true, n), false, 2), false).0.pressed,
        !step_of(after_samples(after_samples(d, true, n), false, 2), false).0.hold_fired,
{
    lemma_pressing(d, n);
    let s0 = after_samples(d, true, n);
    let s1 = step_of(s0, false).0;
    let s2 = step_of(s1, false).0;
    assert(after_samples(s0, false, 0) == s0);
    assert(after_samples(s0, false, 1) == s1);
    assert(after_samples(s0, false, 2) == s2);
    assert(s1.pressed && !s1.candidate && s1.stable_for == 1 && s1.held_ticks == n - 1
        && !s1.hold_fired);
    assert(s2.pressed && !s2.candidate && s2.stable_for == 2 && s2.held_ticks == n
        && !s2.hold_fired);
    assert(quiet(s0, false, 0));
    assert(quiet(s0, false, 1));
}

} // verus!
