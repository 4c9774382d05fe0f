use sprig_llm_core::provider::Role;
use sprig_llm_core::storage::{
    crc32, decode_sector, encode_sector, role_from_u8, role_to_u8, Persisted, HEADER_LEN,
    SECTOR_SIZE, STORAGE_VERSION, TURN_CAP,
};
use sprig_llm_core::text::BoundedString;

fn text(s: &str) -> BoundedString<TURN_CAP> {
    let mut b: BoundedString<TURN_CAP> = BoundedString::new();
    assert_eq!(b.push_str(s), Ok(()));
    b
}

fn sample(n_turns: usize) -> Persisted {
    let mut turns = Vec::new();
    for i in 0..n_turns {
        let role = if i % 2 == 0 { role_to_u8(Role::User) } else { role_to_u8(Role::Assistant) };
        turns.push((role, text(&format!("turn {i} café"))));
    }
    Persisted { model: 2, persona: 1, max_tokens: 3, turns }
}

#[test]
fn crc32_check_value() {
    assert_eq!(crc32(b"123456789"), 0xCBF4_3926);
    assert_eq!(crc32(b""), 0);
    assert_eq!(crc32(b"a"), 0xE8B7_BE43);
}

#[test]
fn role_codes_roundtrip() {
    for r in [Role::System, Role::User, Role::Assistant] {
        assert_eq!(role_from_u8(role_to_u8(r)), r);
    }
    assert_eq!(role_to_u8(Role::System), 0);
    assert_eq!(role_to_u8(Role::User), 1);
    assert_eq!(role_to_u8(Role::Assistant), 2);
    assert_eq!(role_from_u8(7), Role::User);
}

#[test]
fn sector_image_layout() {
    let p = sample(1);
    let img = encode_sector(&p);
    assert_eq!(img.len(), SECTOR_SIZE);
    assert_eq!(&img[0..4], b"SPRG");
    assert_eq!(img[4], STORAGE_VERSION);
    let turn = "turn 0 café".as_bytes();
    let plen = 4 + 3 + turn.len();
    assert_eq!(u16::from_le_bytes([img[5], img[6]]) as usize, plen);
    let payload = &img[HEADER_LEN..HEADER_LEN + plen];
    assert_eq!(u32::from_le_bytes([img[7], img[8], img[9], img[10]]), crc32(payload));
    assert_eq!(&payload[0..4], &[2, 1, 3, 1]);
    assert_eq!(payload[4], 1);
    assert_eq!(u16::from_le_bytes([payload[5], payload[6]]) as usize, turn.len());
    assert_eq!(&payload[7..], turn);
    assert!(img[HEADER_LEN + plen..].iter().all(|&b| b == 0xFF));
}

#[test]
fn save_then_load_gives_the_record_back() {
    let p = sample(4);
    let back = decode_sector(&encode_sector(&p)).expect("a saved record loads");
    assert_eq!((back.model, back.persona, back.max_tokens), (2, 1, 3));
    assert_eq!(back.turns.len(), 4);
    for (a, b) in back.turns.iter().zip(p.turns.iter()) {
        assert_eq!(a.0, b.0);
        assert_eq!(a.1.as_str(), b.1.as_str());
    }
}

#[test]
fn only_the_first_six_turns_are_kept() {
    let p = sample(9);
    let back = decode_sector(&encode_sector(&p)).expect("a saved record loads");
    assert_eq!(back.turns.len(), 6);
    assert_eq!(back.turns[5].1.as_str(), "turn 5 café");
}

#[test]
fn empty_history_roundtrips() {
    let p = sample(0);
    let back = decode_sector(&encode_sector(&p)).expect("a saved record loads");
    assert!(back.turns.is_empty());
    assert_eq!(back.max_tokens, 3);
}

#[test]
fn blank_sector_is_no_state() {
    assert!(decode_sector(&vec![0xFFu8; SECTOR_SIZE]).is_none());
    assert!(decode_sector(&[]).is_none());
}

#[test]
fn wrong_version_is_no_state() {
    let mut img = encode_sector(&sample(2));
    img[4] = STORAGE_VERSION + 1;
    assert!(decode_sector(&img).is_none());
}

#[test]
fn corrupt_payload_fails_the_crc() {
    let mut img = encode_sector(&sample(2));
    img[HEADER_LEN + 8] ^= 0x01;
    assert!(decode_sector(&img).is_none());
}

#[test]
fn invalid_utf8_turn_is_rejected() {
    // A payload whose one turn holds a lone continuation byte, with a valid CRC.
    let payload = [0u8, 0, 0, 1, 1, 1, 0, 0x80];
    let mut img = vec![0xFFu8; SECTOR_SIZE];
    img[0..4].copy_from_slice(b"SPRG");
    img[4] = STORAGE_VERSION;
    img[5..7].copy_from_slice(&(payload.len() as u16).to_le_bytes());
    img[7..11].copy_from_slice(&crc32(&payload).to_le_bytes());
    img[HEADER_LEN..HEADER_LEN + payload.len()].copy_from_slice(&payload);
    assert!(decode_sector(&img).is_none());
}

#[test]
fn too_long_turn_is_rejected() {
    let len = (TURN_CAP + 1) as u16;
    let mut payload = vec![0u8, 0, 0, 1, 1];
    payload.extend_from_slice(&len.to_le_bytes());
    payload.extend(std::iter::repeat(b'a').take(TURN_CAP + 1));
    let mut img = vec![0xFFu8; SECTOR_SIZE];
    img[0..4].copy_from_slice(b"SPRG");
    img[4] = STORAGE_VERSION;
    img[5..7].copy_from_slice(&(payload.len() as u16).to_le_bytes());
    img[7..11].copy_from_slice(&crc32(&payload).to_le_bytes());
    img[HEADER_LEN..HEADER_LEN + payload.len()].copy_from_slice(&payload);
    assert!(decode_sector(&img).is_none());
}

#[test]
fn stored_turn_count_is_capped_at_six() {
    // A valid record claiming nine turns and holding nine: six are loaded.
    let mut payload = vec![1u8, 2, 3, 9];
    for i in 0..9u8 {
        payload.extend_from_slice(&[1, 1, 0, b'a' + i]);
    }
    let mut img = vec![0xFFu8; SECTOR_SIZE];
    img[0..4].copy_from_slice(b"SPRG");
    img[4] = STORAGE_VERSION;
    img[5..7].copy_from_slice(&(payload.len() as u16).to_le_bytes());
    img[7..11].copy_from_slice(&crc32(&payload).to_le_bytes());
    img[HEADER_LEN..HEADER_LEN + payload.len()].copy_from_slice(&payload);
    let back = decode_sector(&img).expect("a valid record loads");
    assert_eq!(back.turns.len(), 6);
    assert_eq!(back.turns[5].1.as_str(), "f");
}
