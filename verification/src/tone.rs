//! The samples of the UI sounds played on the I2S speaker.
//!
//! A sound is a square wave at a given pitch with a short linear fade-in and
//! fade-out, at [`SAMPLE_RATE`]. Each mono 16-bit sample goes out as one
//! 32-bit FIFO word carrying it in both stereo slots. The firmware streams the
//! words to the PIO state machine [`CHUNK`] frames at a time; this module
//! computes them.
use vstd::prelude::*;

verus! {

/// I2S sample rate (Hz).
pub const SAMPLE_RATE: u32 = 22_050;

/// PIO cycles per stereo frame (2 cycles per bit, 32 bits).
pub const CYCLES_PER_FRAME: u32 = 64;

/// Peak magnitude of a sample (about 18% of full scale).
pub const AMPLITUDE: i16 = 6000;

/// Frames per DMA transfer.
pub const CHUNK: usize = 256;

/// Pitch of the key click (Hz).
pub const CLICK_HZ: u32 = 1_000;

/// Length of the key click (ms).
pub const CLICK_MS: u32 = 14;

/// The "reply ready" chime: a rising A-major arpeggio (A5, C#6, E6).
pub const CHIME_NOTES_HZ: [u32; 3] = [880, 1109, 1319];

/// Length of each chime note (ms).
pub const CHIME_NOTE_MS: u32 = 70;

/// The FIFO word of a mono sample: its 16 bits in the high (left) and in
/// the low (right) half.
pub open spec fn word_of(sample: i16) -> u32 {
    ((sample as u16) as u32 * 65536 + (sample as u16) as u32) as u32
}

/// Packs a mono sample into one FIFO word: its 16 bits in the high (left)
/// and in the low (right) half.
pub fn stereo_word(sample: i16) -> (w: u32)
    ensures
        w == word_of(sample),
{
    let s = (sample as u16) as u32;
    proof {
        assert((s << 16u32) | s == s * 65536 + s) by (bit_vector)
            requires
                s < 65536,
        ;
    }
    (s << 16) | s
}

/// Whole frames in `ms` milliseconds, at least one.
pub open spec fn frames_in(ms: u32) -> u32 {
    let f = (SAMPLE_RATE * ms) / 1000;
    if f < 1 {
        1
    } else {
        f as u32
    }
}

/// Converts milliseconds to whole stereo frames (at least one).
pub fn ms_to_frames(ms: u32) -> (f: u32)
    requires
        SAMPLE_RATE * ms <= u32::MAX,
    ensures
        f == frames_in(ms),
{
    let f = SAMPLE_RATE * ms / 1000;
    if f < 1 {
        1
    } else {
        f
    }
}

/// Frames per half period of a square wave at `hz` (at least one).
pub open spec fn half_period_of(hz: u32) -> u32 {
    let h = (SAMPLE_RATE / (if hz < 1 { 1 } else { hz })) / 2;
    if h < 1 {
        1
    } else {
        h as u32
    }
}

/// Frames of the fade at each end of a tone of `frames` frames: about
/// 1.5 ms, at most a third of the tone, at least one.
pub open spec fn ramp_of(frames: u32) -> u32 {
    let r = if SAMPLE_RATE / 666 <= frames / 3 {
        SAMPLE_RATE / 666
    } else {
        frames / 3
    };
    if r < 1 {
        1
    } else {
        r as u32
    }
}

/// The fade gain numerator of frame `idx` (over [`ramp_of`]).
pub open spec fn gain_of(idx: u32, frames: u32, ramp: u32) -> int {
    if idx < ramp {
        idx + 1
    } else if idx >= frames - ramp {
        frames - idx
    } else {
        ramp as int
    }
}

/// Sample `idx` of a tone of `frames` frames at `hz`: `+AMPLITUDE` in the
/// first half of each period and `-AMPLITUDE` in the second, scaled by the
/// fade and rounded toward zero.
pub open spec fn sample_of(hz: u32, frames: u32, idx: u32) -> int {
    let ramp = ramp_of(frames);
    let magnitude = (AMPLITUDE * gain_of(idx, frames, ramp)) / (ramp as int);
    if (idx / half_period_of(hz)) % 2 == 0 {
        magnitude
    } else {
        -magnitude
    }
}

/// A sample never exceeds [`AMPLITUDE`] in magnitude, so it fits 16 bits.
pub proof fn law_sample_within_amplitude(hz: u32, frames: u32, idx: u32)
    requires
        idx < frames,
    ensures
        -6000 <= sample_of(hz, frames, idx) <= 6000,
{
    let ramp = ramp_of(frames);
    let g = gain_of(idx, frames, ramp);
    assert(1 <= ramp <= frames);
    assert(1 <= g <= ramp);
    assert((6000 * g) / (ramp as int) <= 6000) by (nonlinear_arith)
        requires
            1 <= g <= ramp,
    ;
    assert((6000 * g) / (ramp as int) >= 0) by (nonlinear_arith)
        requires
            1 <= g <= ramp,
    ;
}

/// Frames `emitted..` of a tone, at most [`CHUNK`] of them: how the firmware
/// gets the next DMA transfer.
pub fn tone_chunk(hz: u32, frames: u32, emitted: u32) -> (words: Vec<u32>)
    requires
        emitted < frames,
    ensures
        words@.len() == chunk_len(frames, emitted),
        forall|i: int|
            0 <= i < words@.len() ==> #[trigger] words@[i] == word_of(
                sample_of(hz, frames, (emitted + i) as u32) as i16,
            ),
{
    let hz1 = if hz < 1 {
        1
    } else {
        hz
    };
    let h = SAMPLE_RATE / hz1 / 2;
    let half_period = if h < 1 {
        1
    } else {
        h
    };
    let third = frames / 3;
    let r = if SAMPLE_RATE / 666 <= third {
        SAMPLE_RATE / 666
    } else {
        third
    };
    let ramp = if r < 1 {
        1
    } else {
        r
    };
    let left = frames - emitted;
    let n: u32 = if left < CHUNK as u32 {
        left
    } else {
        CHUNK as u32
    };
    let mut words: Vec<u32> = Vec::new();
    let mut i: u32 = 0;
    while i < n
        invariant
            emitted < frames,
            n <= frames - emitted,
            n <= CHUNK,
            i <= n,
            half_period == half_period_of(hz),
            ramp == ramp_of(frames),
            1 <= ramp <= frames,
            words@.len() == i,
            forall|j: int|
                0 <= j < i ==> #[trigger] words@[j] == word_of(
                    sample_of(hz, frames, (emitted + j) as u32) as i16,
                ),
        decreases n - i,
    {
        let idx = emitted + i;
        let gain: u32 = if idx < ramp {
            idx + 1
        } else if idx >= frames - ramp {
            frames - idx
        } else {
            ramp
        };
        proof {
            assert(1 <= gain <= ramp);
            assert(6000 * gain <= 6000 * ramp) by (nonlinear_arith)
                requires
                    gain <= ramp,
            ;
            assert((6000 * gain) / (ramp as int) <= 6000) by (nonlinear_arith)
                requires
                    6000 * gain <= 6000 * ramp,
                    ramp >= 1,
            ;
        }
        let magnitude: u32 = 6000 * gain / ramp;
        let sample: i16 = if (idx / half_period) % 2 == 0 {
            magnitude as i16
        } else {
            -(magnitude as i16)
        };
        let w = stereo_word(sample);
        words.push(w);
        proof {
            let s = sample_of(hz, frames, idx);
            assert(gain == gain_of(idx, frames, ramp));
            assert(s == sample as int);
            assert(s as i16 == sample);
            assert(idx == (emitted + i) as u32);
            assert(-6000 <= s <= 6000);
            assert(words@[i as int] == word_of(sample_of(hz, frames, (emitted + i) as u32) as i16));
        }
        i = i + 1;
    }
    words
}

/// Frames in the chunk that starts at frame `emitted` of a tone of `frames`.
pub open spec fn chunk_len(frames: u32, emitted: u32) -> nat {
    if frames - emitted < CHUNK {
        (frames - emitted) as nat
    } else {
        CHUNK as nat
    }
}

/// Where playing chunk after chunk from frame `emitted` ends: each step
/// moves on by the frames [`tone_chunk`] gives.
pub open spec fn chunks_end(frames: u32, emitted: u32) -> nat
    decreases frames - emitted,
{
    if emitted >= frames {
        emitted as nat
    } else {
        chunks_end(frames, (emitted + chunk_len(frames, emitted)) as u32)
    }
}

/// Playing a tone chunk by chunk from its start sends exactly its frames:
/// every chunk is non-empty, none runs past the end, and the last one ends
/// at the tone's last frame.
pub proof fn law_chunks_cover_tone(frames: u32, emitted: u32)
    requires
        emitted <= frames,
    ensures
        chunks_end(frames, emitted) == frames,
        emitted < frames ==> 0 < chunk_len(frames, emitted) && emitted + chunk_len(frames, emitted)
            <= frames,
    decreases frames - emitted,
{
    if emitted < frames {
        law_chunks_cover_tone(frames, (emitted + chunk_len(frames, emitted)) as u32);
    }
}

} // verus!
