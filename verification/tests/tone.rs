use sprig_llm_core::tone::{
    ms_to_frames, stereo_word, tone_chunk, AMPLITUDE, CHIME_NOTES_HZ, CHIME_NOTE_MS, CHUNK,
    CLICK_HZ, CLICK_MS,
};

#[test]
fn stereo_word_duplicates_the_sample() {
    assert_eq!(stereo_word(0), 0);
    assert_eq!(stereo_word(1), 0x0001_0001);
    assert_eq!(stereo_word(-1), 0xFFFF_FFFF);
    assert_eq!(stereo_word(6000), 0x1770_1770);
    assert_eq!(stereo_word(-6000), 0xE890_E890);
}

#[test]
fn milliseconds_to_frames() {
    assert_eq!(ms_to_frames(CLICK_MS), 308);
    assert_eq!(ms_to_frames(CHIME_NOTE_MS), 1543);
    assert_eq!(ms_to_frames(1000), 22_050);
    assert_eq!(ms_to_frames(0), 1);
}

fn sample(word: u32) -> i16 {
    (word & 0xFFFF) as u16 as i16
}

#[test]
fn click_tone_shape() {
    let frames = ms_to_frames(CLICK_MS);
    let first = tone_chunk(CLICK_HZ, frames, 0);
    assert_eq!(first.len(), CHUNK);
    // Half period 11 frames, fade over 33 frames.
    assert_eq!(sample(first[0]), 181);
    assert_eq!(sample(first[10]), 2000);
    assert_eq!(sample(first[11]), -2181);
    assert_eq!(sample(first[100]), -AMPLITUDE);
    assert_eq!(sample(first[88]), AMPLITUDE);
    for w in &first {
        assert_eq!(w >> 16, w & 0xFFFF);
    }
    let last = tone_chunk(CLICK_HZ, frames, CHUNK as u32);
    assert_eq!(last.len(), frames as usize - CHUNK);
    // Frame 307: fading out to gain 1, second half of its period.
    assert_eq!(sample(*last.last().unwrap()), -181);
}

#[test]
fn tiny_tone_still_fades() {
    let w = tone_chunk(CHIME_NOTES_HZ[0], 2, 0);
    assert_eq!(w.len(), 2);
    assert_eq!(sample(w[0]), AMPLITUDE);
    assert_eq!(sample(w[1]), AMPLITUDE);
    let z = tone_chunk(0, 1, 0);
    assert_eq!(sample(z[0]), AMPLITUDE);
}

#[test]
fn samples_stay_within_amplitude() {
    let frames = ms_to_frames(CHIME_NOTE_MS);
    let mut emitted = 0u32;
    while emitted < frames {
        let words = tone_chunk(CHIME_NOTES_HZ[1], frames, emitted);
        for w in &words {
            let s = sample(*w);
            assert!(-AMPLITUDE <= s && s <= AMPLITUDE);
        }
        emitted += words.len() as u32;
    }
    assert_eq!(emitted, frames);
}
