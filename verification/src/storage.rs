//! The on-flash record of settings and conversation history.
//!
//! The three setting indices (model / persona / max_tokens) and the bounded
//! chat history live in one 4 KiB flash sector. This module builds the sector
//! image written on save and parses the image read at boot; the flash access
//! itself belongs to the firmware.
//!
//! ## Sector format (versioned, CRC-checked, bounded)
//!
//! ```text
//!   offset  size  field
//!   0       4     magic   = b"SPRG"
//!   4       1     version = STORAGE_VERSION
//!   5       2     payload_len (u16 LE)
//!   7       4     crc32 (u32 LE) of payload[..payload_len]  (IEEE, reflected)
//!   11      ..    payload:
//!                   1  model index, 1  persona index, 1  max_tokens index
//!                   1  turn count
//!                   then per turn: 1 role, 2 text byte length (u16 LE), N UTF-8 bytes
//! ```
//!
//! The rest of the sector holds `0xFF`, as a freshly erased sector does. A
//! blank, wrong-version or corrupt sector decodes to `None`, meaning "no saved
//! state".
use vstd::prelude::*;
use vstd::utf8::{decode_utf8, encode_utf8, encode_utf8_decode_utf8, encode_utf8_valid_utf8, valid_utf8};
use vstd::string::StringSliceAdditionalSpecFns;
use crate::provider::Role;
use crate::text::{std_str_from_utf8, utf8_len, BoundedString};

verus! {

broadcast use vstd::seq_lib::group_seq_properties;

/// Physical QSPI flash size on the Pico WH (2 MiB).
pub const FLASH_CHIP_SIZE: usize = 0x0020_0000;

/// One flash sector: the erase granularity.
pub const SECTOR_SIZE: usize = 4096;

/// Offset of the storage sector from the start of flash: the last sector.
pub const STORAGE_OFFSET: u32 = 0x001F_F000;

/// Current record format version.
pub const STORAGE_VERSION: u8 = 1;

/// Bytes of header before the payload: magic, version, length, CRC.
pub const HEADER_LEN: usize = 11;

/// Per-turn text cap in bytes.
pub const TURN_CAP: usize = 256;

/// Most turns kept.
pub const MAX_TURNS: usize = 6;

/// Wire code of the system role.
pub const ROLE_SYSTEM: u8 = 0;

/// Wire code of the user role.
pub const ROLE_USER: u8 = 1;

/// Wire code of the assistant role.
pub const ROLE_ASSISTANT: u8 = 2;

/// Stable wire encoding of a chat role.
pub fn role_to_u8(role: Role) -> (b: u8)
    ensures
        b == role_code(role),
{
    match role {
        Role::System => ROLE_SYSTEM,
        Role::User => ROLE_USER,
        Role::Assistant => ROLE_ASSISTANT,
    }
}

/// Wire code of a role.
pub open spec fn role_code(r: Role) -> u8 {
    match r {
        Role::System => 0,
        Role::User => 1,
        Role::Assistant => 2,
    }
}

/// Role of a wire code; unknown codes read as `User`.
pub open spec fn role_of_code(b: u8) -> Role {
    if b == 0 {
        Role::System
    } else if b == 2 {
        Role::Assistant
    } else {
        Role::User
    }
}

/// Inverse of [`role_to_u8`]; unknown bytes decode to `User`, a harmless
/// always-valid default, so a slightly-off byte never wedges decoding.
pub fn role_from_u8(b: u8) -> (r: Role)
    ensures
        r == role_of_code(b),
{
    match b {
        ROLE_SYSTEM => Role::System,
        ROLE_ASSISTANT => Role::Assistant,
        _ => Role::User,
    }
}

/// Decoding a role's code gives the role back.
pub proof fn law_role_code_roundtrip(r: Role)
    ensures
        role_of_code(role_code(r)) == r,
{
}

// ---------------------------------------------------------------------------
// CRC-32 (IEEE 802.3, reflected, polynomial 0xEDB88320).
// ---------------------------------------------------------------------------
/// `n` rounds of the reflected CRC shift register.
pub open spec fn crc_rounds(crc: u32, n: nat) -> u32
    decreases n,
{
    if n == 0 {
        crc
    } else {
        crc_rounds(
            if crc & 1 == 1 {
                (crc >> 1u32) ^ 0xEDB8_8320
            } else {
                crc >> 1u32
            },
            (n - 1) as nat,
        )
    }
}

/// The CRC register after feeding `data` into the initial value
/// `0xFFFF_FFFF`.
pub open spec fn crc_register(data: Seq<u8>) -> u32
    decreases data.len(),
{
    if data.len() == 0 {
        0xFFFF_FFFF
    } else {
        crc_rounds(crc_register(data.drop_last()) ^ (data.last() as u32), 8)
    }
}

/// The CRC-32 of `data` (as zlib and PNG compute it).
pub open spec fn crc32_of(data: Seq<u8>) -> u32 {
    !crc_register(data)
}

/// CRC-32 (IEEE 802.3, reflected): the same checksum as zlib and PNG.
pub fn crc32(data: &[u8]) -> (c: u32)
    ensures
        c == crc32_of(data@),
{
    let mut crc: u32 = 0xFFFF_FFFF;
    let mut i: usize = 0;
    while i < data.len()
        invariant
            i <= data@.len(),
            crc == crc_register(data@.subrange(0, i as int)),
        decreases data@.len() - i,
    {
        crc = crc ^ (data[i] as u32);
        let ghost start = crc;
        let mut k: u32 = 0;
        while k < 8
            invariant
                k <= 8,
                crc_rounds(start, 8) == crc_rounds(crc, (8 - k) as nat),
            decreases 8 - k,
        {
            let mask: u32 = if crc & 1 == 1 {
                0xFFFF_FFFF
            } else {
                0
            };
            let next = (crc >> 1) ^ (0xEDB8_8320 & mask);
            proof {
                let expect = if crc & 1 == 1 {
                    (crc >> 1u32) ^ 0xEDB8_8320
                } else {
                    crc >> 1u32
                };
                assert(next == expect) by (bit_vector)
                    requires
                        next == (crc >> 1) ^ (0xEDB8_8320 & mask),
                        mask == (if crc & 1 == 1 { 0xFFFF_FFFFu32 } else { 0u32 }),
                        expect == (if crc & 1 == 1 { (crc >> 1u32) ^ 0xEDB8_8320 } else { crc >> 1u32 }),
                ;
            }
            crc = next;
            k = k + 1;
        }
        proof {
            assert(data@.subrange(0, i + 1).drop_last() =~= data@.subrange(0, i as int));
            assert(data@.subrange(0, i + 1).last() == data@[i as int]);
        }
        i = i + 1;
    }
    proof {
        assert(data@.subrange(0, data@.len() as int) =~= data@);
    }
    !crc
}

// ---------------------------------------------------------------------------
// The record.
// ---------------------------------------------------------------------------
/// A snapshot of what is persisted: the three setting indices plus the
/// conversation as `(role code, text)` pairs; map roles with
/// [`role_from_u8`] / [`role_to_u8`].
pub struct Persisted {
    pub model: u8,
    pub persona: u8,
    pub max_tokens: u8,
    pub turns: Vec<(u8, BoundedString<TURN_CAP>)>,
}

/// The abstract content of a [`Persisted`].
pub struct PersistedView {
    pub model: u8,
    pub persona: u8,
    pub max_tokens: u8,
    pub turns: Seq<(u8, Seq<char>)>,
}

/// The texts of a list of turns.
pub open spec fn turns_text(t: Seq<(u8, BoundedString<TURN_CAP>)>) -> Seq<(u8, Seq<char>)> {
    t.map_values(|x: (u8, BoundedString<TURN_CAP>)| (x.0, x.1@))
}

impl View for Persisted {
    type V = PersistedView;

    open spec fn view(&self) -> PersistedView {
        PersistedView {
            model: self.model,
            persona: self.persona,
            max_tokens: self.max_tokens,
            turns: turns_text(self.turns@),
        }
    }
}

/// Two little-endian bytes of `v < 65536`.
pub open spec fn le16(v: nat) -> Seq<u8> {
    seq![(v % 256) as u8, ((v / 256) % 256) as u8]
}

/// Four little-endian bytes of `v`.
pub open spec fn le32(v: u32) -> Seq<u8> {
    seq![
        (v % 256) as u8,
        ((v / 256) % 256) as u8,
        ((v / 65536) % 256) as u8,
        ((v / 16777216) % 256) as u8,
    ]
}

/// The record of one turn: role code, text length, text bytes.
pub open spec fn turn_record(role: u8, text: Seq<char>) -> Seq<u8> {
    seq![role] + le16(encode_utf8(text).len()) + encode_utf8(text)
}

/// The records of a list of turns, in order.
pub open spec fn turns_bytes(turns: Seq<(u8, Seq<char>)>) -> Seq<u8>
    decreases turns.len(),
{
    if turns.len() == 0 {
        Seq::empty()
    } else {
        turns_bytes(turns.drop_last()) + turn_record(turns.last().0, turns.last().1)
    }
}

/// The turns that are saved: the first [`MAX_TURNS`].
pub open spec fn kept_turns(turns: Seq<(u8, Seq<char>)>) -> Seq<(u8, Seq<char>)> {
    if turns.len() <= MAX_TURNS {
        turns
    } else {
        turns.take(MAX_TURNS as int)
    }
}

/// The payload of a record.
pub open spec fn payload_of(v: PersistedView) -> Seq<u8> {
    seq![v.model, v.persona, v.max_tokens, kept_turns(v.turns).len() as u8] + turns_bytes(
        kept_turns(v.turns),
    )
}

/// The magic bytes `b"SPRG"`.
pub open spec fn magic() -> Seq<u8> {
    seq![0x53u8, 0x50u8, 0x52u8, 0x47u8]
}

/// The full sector image of a record: header, payload, then `0xFF` up to
/// [`SECTOR_SIZE`].
pub open spec fn sector_of(v: PersistedView) -> Seq<u8> {
    let p = payload_of(v);
    magic() + seq![STORAGE_VERSION] + le16(p.len()) + le32(crc32_of(p)) + p + Seq::new(
        (SECTOR_SIZE - HEADER_LEN - p.len()) as nat,
        |i: int| 0xFFu8,
    )
}

/// Value of two little-endian bytes.
pub open spec fn read_le16(a: u8, b: u8) -> nat {
    (a as nat) + 256 * (b as nat)
}

/// Value of four little-endian bytes.
pub open spec fn read_le32(a: u8, b: u8, c: u8, d: u8) -> u32 {
    ((a as nat) + 256 * (b as nat) + 65536 * (c as nat) + 16777216 * (d as nat)) as u32
}

/// The turns parsed from `p` at `cur`, at most `left` more and never more than
/// [`MAX_TURNS`] in all; `None` when a turn is truncated, too long or not
/// UTF-8.
pub open spec fn parse_turns(p: Seq<u8>, cur: int, left: nat, acc: Seq<(u8, Seq<char>)>) -> Option<
    Seq<(u8, Seq<char>)>,
>
    decreases left,
{
    if left == 0 || acc.len() >= MAX_TURNS {
        Some(acc)
    } else if cur < 0 || cur + 3 > p.len() {
        None
    } else {
        let len = read_le16(p[cur + 1], p[cur + 2]);
        let c = cur + 3;
        if len > TURN_CAP || c + len > p.len() {
            None
        } else if !valid_utf8(p.subrange(c, c + len)) {
            None
        } else {
            parse_turns(
                p,
                c + len,
                (left - 1) as nat,
                acc.push((p[cur], decode_utf8(p.subrange(c, c + len)))),
            )
        }
    }
}

/// The record held by a payload whose checksum matched.
pub open spec fn record_of_payload(p: Seq<u8>) -> Option<PersistedView> {
    match parse_turns(p, 4, p[3] as nat, Seq::empty()) {
        None => None,
        Some(turns) => Some(PersistedView { model: p[0], persona: p[1], max_tokens: p[2], turns }),
    }
}

/// The record held by a sector image, or `None` for a blank, wrong-version,
/// malformed or corrupt one.
pub open spec fn record_of_sector(buf: Seq<u8>) -> Option<PersistedView> {
    if buf.len() < HEADER_LEN || buf.subrange(0, 4) != magic() {
        None
    } else if buf[4] != STORAGE_VERSION {
        None
    } else {
        let plen = read_le16(buf[5], buf[6]);
        if plen < 4 || HEADER_LEN + plen > SECTOR_SIZE || HEADER_LEN + plen > buf.len() {
            None
        } else {
            let p = buf.subrange(HEADER_LEN as int, HEADER_LEN + plen);
            if crc32_of(p) != read_le32(buf[7], buf[8], buf[9], buf[10]) {
                None
            } else {
                record_of_payload(p)
            }
        }
    }
}

// ---------------------------------------------------------------------------
// What a load gives back of a save.
// ---------------------------------------------------------------------------
/// Whether every turn text fits the per-turn cap, as the texts of a
/// [`Persisted`] always do.
pub open spec fn turns_fit(turns: Seq<(u8, Seq<char>)>) -> bool {
    forall|i: int| 0 <= i < turns.len() ==> utf8_len(#[trigger] turns[i].1) <= TURN_CAP
}

/// The records of two lists of turns, one after the other.
proof fn lemma_turns_bytes_append(a: Seq<(u8, Seq<char>)>, b: Seq<(u8, Seq<char>)>)
    ensures
        turns_bytes(a + b) == turns_bytes(a) + turns_bytes(b),
    decreases b.len(),
{
    if b.len() == 0 {
        assert(a + b =~= a);
        assert(turns_bytes(a) + turns_bytes(b) =~= turns_bytes(a));
    } else {
        lemma_turns_bytes_append(a, b.drop_last());
        assert((a + b).drop_last() =~= a + b.drop_last());
        assert((a + b).last() == b.last());
        assert(turns_bytes(a + b) =~= turns_bytes(a) + turns_bytes(b));
    }
}

/// Records of turns that fit take at most `3 + TURN_CAP` bytes each.
proof fn lemma_turns_bytes_len(t: Seq<(u8, Seq<char>)>)
    requires
        turns_fit(t),
    ensures
        turns_bytes(t).len() <= (3 + TURN_CAP) * t.len(),
    decreases t.len(),
{
    if t.len() > 0 {
        assert(turns_fit(t.drop_last())) by {
            assert forall|i: int| 0 <= i < t.drop_last().len() implies utf8_len(
                #[trigger] t.drop_last()[i].1,
            ) <= TURN_CAP by {
                assert(t.drop_last()[i] == t[i]);
            }
        }
        lemma_turns_bytes_len(t.drop_last());
        assert(utf8_len(t[t.len() - 1].1) <= TURN_CAP);
    }
}

/// Two little-endian bytes read back as the value they encode.
proof fn lemma_le16_roundtrip(n: nat)
    requires
        n < 65536,
    ensures
        read_le16(le16(n)[0], le16(n)[1]) == n,
{
    let q = n / 256;
    assert(n == 256 * q + n % 256);
    assert(q < 256);
}

/// Four little-endian bytes read back as the value they encode.
proof fn lemma_le32_roundtrip(v: u32)
    ensures
        read_le32(le32(v)[0], le32(v)[1], le32(v)[2], le32(v)[3]) == v,
{
    assert((v % 256) + 256 * ((v / 256) % 256) + 65536 * ((v / 65536) % 256) + 16777216 * ((v
        / 16777216) % 256) == v) by (bit_vector);
}

/// Parsing the records of `k` from the `j`-th on, after `j` were parsed,
/// gives all of `k`.
proof fn lemma_parse_turns_from(p: Seq<u8>, k: Seq<(u8, Seq<char>)>, j: int)
    requires
        k.len() <= MAX_TURNS,
        turns_fit(k),
        0 <= j <= k.len(),
        p.len() >= 4,
        p.subrange(4, p.len() as int) == turns_bytes(k),
    ensures
        parse_turns(p, 4 + turns_bytes(k.take(j)).len() as int, (k.len() - j) as nat, k.take(j)) == Some(
            k,
        ),
    decreases k.len() - j,
{
    if j == k.len() {
        assert(k.take(j) =~= k);
    } else {
        let cur: int = 4 + turns_bytes(k.take(j)).len() as int;
        let t = k[j];
        let rec = turn_record(t.0, t.1);
        let n: int = utf8_len(t.1) as int;
        assert(n <= TURN_CAP);
        assert(k.take(j + 1).drop_last() =~= k.take(j));
        assert(k.take(j + 1).last() == t);
        assert(turns_bytes(k.take(j + 1)) == turns_bytes(k.take(j)) + rec);
        assert(k =~= k.take(j + 1) + k.skip(j + 1));
        lemma_turns_bytes_append(k.take(j + 1), k.skip(j + 1));
        let pre = turns_bytes(k.take(j));
        let rest = turns_bytes(k.skip(j + 1));
        assert(turns_bytes(k) == pre + rec + rest);
        // The record of turn `j` sits at `cur` in `p`.
        assert forall|i: int| 0 <= i < rec.len() implies p[cur + i] == #[trigger] rec[i] by {
            assert(p.subrange(4, p.len() as int)[pre.len() + i] == (pre + rec + rest)[pre.len()
                + i]);
        }
        assert(p.len() == 4 + pre.len() + rec.len() + rest.len());
        lemma_le16_roundtrip(n as nat);
        assert(p[cur] == t.0);
        assert(p[cur + 1] == le16(n as nat)[0]);
        assert(p[cur + 2] == le16(n as nat)[1]);
        let c = cur + 3;
        assert(p.subrange(c, c + n) =~= encode_utf8(t.1)) by {
            assert forall|i: int| 0 <= i < n implies p.subrange(c, c + n)[i] == encode_utf8(
                t.1,
            )[i] by {
                assert(rec[3 + i] == encode_utf8(t.1)[i]);
                assert(p[cur + (3 + i)] == rec[3 + i]);
            }
        }
        encode_utf8_valid_utf8(t.1);
        encode_utf8_decode_utf8(t.1);
        assert(k.take(j).len() == j);
        assert(k.take(j).push(t) =~= k.take(j + 1));
        assert(c + n == 4 + turns_bytes(k.take(j + 1)).len());
        lemma_parse_turns_from(p, k, j + 1);
    }
}

/// What a load gives back of a save: decoding the sector image of a record
/// gives the record back, with the conversation cut to its first
/// [`MAX_TURNS`] turns.
pub proof fn law_sector_roundtrip(v: PersistedView)
    requires
        turns_fit(v.turns),
    ensures
        record_of_sector(sector_of(v)) == Some(
            PersistedView {
                model: v.model,
                persona: v.persona,
                max_tokens: v.max_tokens,
                turns: kept_turns(v.turns),
            },
        ),
{
    let k = kept_turns(v.turns);
    assert(turns_fit(k)) by {
        assert forall|i: int| 0 <= i < k.len() implies utf8_len(#[trigger] k[i].1) <= TURN_CAP by {
            assert(k[i] == v.turns[i]);
        }
    }
    lemma_turns_bytes_len(k);
    let p = payload_of(v);
    let hdr = seq![v.model, v.persona, v.max_tokens, k.len() as u8];
    assert(p == hdr + turns_bytes(k));
    assert(p.len() <= 4 + 259 * 6);
    let s = sector_of(v);
    let fill = Seq::new((SECTOR_SIZE - HEADER_LEN - p.len()) as nat, |i: int| 0xFFu8);
    let head = magic() + seq![STORAGE_VERSION] + le16(p.len()) + le32(crc32_of(p));
    assert(head.len() == HEADER_LEN);
    assert(s == head + p + fill);
    assert(s.subrange(0, 4) =~= magic());
    assert(s[4] == STORAGE_VERSION);
    lemma_le16_roundtrip(p.len());
    assert(s[5] == le16(p.len())[0] && s[6] == le16(p.len())[1]);
    lemma_le32_roundtrip(crc32_of(p));
    let c = le32(crc32_of(p));
    assert(s[7] == c[0] && s[8] == c[1] && s[9] == c[2] && s[10] == c[3]);
    assert(s.subrange(HEADER_LEN as int, HEADER_LEN + p.len()) =~= p);
    assert(p.subrange(4, p.len() as int) =~= turns_bytes(k));
    assert(p[3] == k.len() as u8);
    assert(k.take(0) =~= Seq::<(u8, Seq<char>)>::empty());
    assert(turns_bytes(k.take(0)) =~= Seq::<u8>::empty());
    lemma_parse_turns_from(p, k, 0);
    assert(p[0] == v.model && p[1] == v.persona && p[2] == v.max_tokens);
}

/// Parsing keeps at most [`MAX_TURNS`] turns, each within the per-turn cap.
proof fn lemma_parse_turns_bounded(p: Seq<u8>, cur: int, left: nat, acc: Seq<(u8, Seq<char>)>)
    requires
        acc.len() <= MAX_TURNS,
        turns_fit(acc),
    ensures
        parse_turns(p, cur, left, acc) matches Some(t) ==> t.len() <= MAX_TURNS && turns_fit(t),
    decreases left,
{
    if left == 0 || acc.len() >= MAX_TURNS {
    } else if cur < 0 || cur + 3 > p.len() {
    } else {
        let len = read_le16(p[cur + 1], p[cur + 2]);
        let c = cur + 3;
        if len > TURN_CAP || c + len > p.len() {
        } else if !valid_utf8(p.subrange(c, c + len)) {
        } else {
            let text = decode_utf8(p.subrange(c, c + len));
            vstd::utf8::decode_utf8_encode_utf8(p.subrange(c, c + len));
            let next = acc.push((p[cur], text));
            assert(turns_fit(next)) by {
                assert forall|i: int| 0 <= i < next.len() implies utf8_len(#[trigger] next[i].1)
                    <= TURN_CAP by {
                    if i < acc.len() {
                        assert(next[i] == acc[i]);
                    }
                }
            }
            lemma_parse_turns_bounded(p, c + len, (left - 1) as nat, next);
        }
    }
}

/// A loaded record is always one a save could write: whatever a sector
/// holds, what it decodes to has at most [`MAX_TURNS`] turns, each within the
/// per-turn cap.
pub proof fn law_decoded_record_bounded(buf: Seq<u8>)
    ensures
        record_of_sector(buf) matches Some(v) ==> v.turns.len() <= MAX_TURNS && turns_fit(v.turns),
{
    if buf.len() >= HEADER_LEN {
        let plen = read_le16(buf[5], buf[6]);
        let p = buf.subrange(HEADER_LEN as int, HEADER_LEN + plen);
        assert(turns_fit(Seq::<(u8, Seq<char>)>::empty()));
        lemma_parse_turns_bounded(p, 4, p[3] as nat, Seq::empty());
    }
}

// ---------------------------------------------------------------------------
// Building and parsing sector images.
// ---------------------------------------------------------------------------
/// Copy of `s[lo..hi]`.
fn byte_range(s: &[u8], lo: usize, hi: usize) -> (r: Vec<u8>)
    requires
        lo <= hi <= s@.len(),
    ensures
        r@ == s@.subrange(lo as int, hi as int),
{
    let mut r: Vec<u8> = Vec::new();
    let mut i = lo;
    while i < hi
        invariant
            lo <= i <= hi <= s@.len(),
            r@ == s@.subrange(lo as int, i as int),
        decreases hi - i,
    {
        r.push(s[i]);
        i = i + 1;
        assert(r@ =~= s@.subrange(lo as int, i as int));
    }
    r
}

/// Appends all of `b` to `out`.
fn push_bytes(out: &mut Vec<u8>, b: &[u8])
    ensures
        final(out)@ == old(out)@ + b@,
{
    let mut i: usize = 0;
    while i < b.len()
        invariant
            i <= b@.len(),
            out@ == old(out)@ + b@.subrange(0, i as int),
        decreases b@.len() - i,
    {
        out.push(b[i]);
        i = i + 1;
        assert(out@ =~= old(out)@ + b@.subrange(0, i as int));
    }
    assert(b@.subrange(0, b@.len() as int) =~= b@);
}

/// Builds the full sector image of `data` (what is written on save): header,
/// payload with at most [`MAX_TURNS`] turns, and `0xFF` fill.
pub fn encode_sector(data: &Persisted) -> (img: Vec<u8>)
    ensures
        img@ == sector_of(data@),
        img@.len() == SECTOR_SIZE,
{
    let total = data.turns.len();
    let count: usize = if total <= MAX_TURNS {
        total
    } else {
        MAX_TURNS
    };
    let ghost v = data@;
    let ghost kept = kept_turns(v.turns);
    proof {
        assert(kept.len() == count);
        assert(forall|j: int| 0 <= j < count ==> kept[j] == v.turns[j]);
    }
    let mut payload: Vec<u8> = Vec::new();
    payload.push(data.model);
    payload.push(data.persona);
    payload.push(data.max_tokens);
    payload.push(count as u8);
    let mut i: usize = 0;
    proof {
        assert(kept.take(0) =~= Seq::<(u8, Seq<char>)>::empty());
        assert(payload@ =~= seq![v.model, v.persona, v.max_tokens, count as u8] + turns_bytes(
            kept.take(0),
        ));
    }
    while i < count
        invariant
            count <= MAX_TURNS,
            count <= data.turns@.len(),
            v == data@,
            kept == kept_turns(v.turns),
            kept.len() == count,
            forall|j: int| 0 <= j < count ==> kept[j] == v.turns[j],
            i <= count,
            payload@ == seq![v.model, v.persona, v.max_tokens, count as u8] + turns_bytes(
                kept.take(i as int),
            ),
            payload@.len() <= 4 + 259 * i,
        decreases count - i,
    {
        let role = data.turns[i].0;
        let text = data.turns[i].1.as_str();
        let n = data.turns[i].1.len();
        let bytes = text.as_bytes();
        let ghost before = payload@;
        payload.push(role);
        payload.push((n % 256) as u8);
        payload.push((n / 256) as u8);
        push_bytes(&mut payload, bytes);
        proof {
            assert(kept[i as int] == (role, text@));
            assert(kept.take(i + 1).drop_last() =~= kept.take(i as int));
            assert(kept.take(i + 1).last() == kept[i as int]);
            assert(((n / 256) % 256) as u8 == (n / 256) as u8);
            assert(payload@ =~= before + turn_record(role, text@));
        }
        i = i + 1;
    }
    proof {
        assert(kept.take(count as int) =~= kept);
        assert(payload@ =~= payload_of(v));
    }
    let plen = payload.len();
    let crc = crc32(payload.as_slice());
    let mut img: Vec<u8> = Vec::new();
    img.push(0x53);
    img.push(0x50);
    img.push(0x52);
    img.push(0x47);
    img.push(STORAGE_VERSION);
    img.push((plen % 256) as u8);
    img.push((plen / 256) as u8);
    img.push((crc % 256) as u8);
    img.push(((crc / 256) % 256) as u8);
    img.push(((crc / 65536) % 256) as u8);
    img.push((crc / 16777216) as u8);
    proof {
        assert(((plen / 256) % 256) as u8 == (plen / 256) as u8);
        assert(((crc / 16777216) % 256) as u8 == (crc / 16777216) as u8);
        assert(img@ =~= magic() + seq![STORAGE_VERSION] + le16(plen as nat) + le32(crc));
    }
    push_bytes(&mut img, payload.as_slice());
    let ghost head = img@;
    while img.len() < SECTOR_SIZE
        invariant
            HEADER_LEN + plen <= img@.len() <= SECTOR_SIZE,
            img@.subrange(0, HEADER_LEN + plen) == head,
            head.len() == HEADER_LEN + plen,
            forall|j: int| HEADER_LEN + plen <= j < img@.len() ==> img@[j] == 0xFFu8,
        decreases SECTOR_SIZE - img@.len(),
    {
        img.push(0xFF);
        proof {
            assert(img@.subrange(0, HEADER_LEN + plen) =~= head);
        }
    }
    proof {
        assert(img@ =~= head + Seq::new((SECTOR_SIZE - HEADER_LEN - plen) as nat, |j: int| 0xFFu8));
    }
    img
}

/// Parses a sector image read from flash (what is restored at boot); `None`
/// for a blank, wrong-version, malformed or corrupt one.
pub fn decode_sector(buf: &[u8]) -> (r: Option<Persisted>)
    ensures
        match r {
            Some(p) => record_of_sector(buf@) == Some(p@),
            None => record_of_sector(buf@) is None,
        },
{
    if buf.len() < HEADER_LEN {
        return None;
    }
    if buf[0] != 0x53 || buf[1] != 0x50 || buf[2] != 0x52 || buf[3] != 0x47 {
        proof {
            if buf@.subrange(0, 4) == magic() {
                assert(buf@.subrange(0, 4)[0] == buf@[0]);
                assert(buf@.subrange(0, 4)[1] == buf@[1]);
                assert(buf@.subrange(0, 4)[2] == buf@[2]);
                assert(buf@.subrange(0, 4)[3] == buf@[3]);
            }
        }
        return None;
    }
    proof {
        assert(buf@.subrange(0, 4) =~= magic());
    }
    if buf[4] != STORAGE_VERSION {
        return None;
    }
    let plen = buf[5] as usize + 256 * (buf[6] as usize);
    let crc_stored = buf[7] as u32 + 256 * (buf[8] as u32) + 65536 * (buf[9] as u32) + 16777216 * (
    buf[10] as u32);
    if plen < 4 || HEADER_LEN + plen > SECTOR_SIZE || HEADER_LEN + plen > buf.len() {
        return None;
    }
    let payload = byte_range(buf, HEADER_LEN, HEADER_LEN + plen);
    if crc32(payload.as_slice()) != crc_stored {
        return None;
    }
    let count = payload[3];
    let ghost p = payload@;
    let mut turns: Vec<(u8, BoundedString<TURN_CAP>)> = Vec::new();
    let mut cur: usize = 4;
    let mut left: u8 = count;
    proof {
        assert(turns_text(turns@) =~= Seq::<(u8, Seq<char>)>::empty());
    }
    while left > 0 && turns.len() < MAX_TURNS
        invariant
            p == payload@,
            p.len() == plen,
            plen >= 4,
            count == p[3],
            record_of_sector(buf@) == record_of_payload(p),
            plen <= SECTOR_SIZE,
            cur <= p.len(),
            parse_turns(p, 4, count as nat, Seq::empty()) == parse_turns(
                p,
                cur as int,
                left as nat,
                turns_text(turns@),
            ),
        decreases left,
    {
        if cur + 3 > payload.len() {
            return None;
        }
        let role = payload[cur];
        let len = payload[cur + 1] as usize + 256 * (payload[cur + 2] as usize);
        let c = cur + 3;
        if len > TURN_CAP || c + len > payload.len() {
            return None;
        }
        let bytes = byte_range(payload.as_slice(), c, c + len);
        let text = match std_str_from_utf8(bytes.as_slice()) {
            Some(t) => t,
            None => return None,
        };
        proof {
            encode_utf8_decode_utf8(text@);
            assert(utf8_len(text@) == len);
        }
        let mut s: BoundedString<TURN_CAP> = BoundedString::new();
        let _ = s.push_str(text);
        let ghost before = turns_text(turns@);
        turns.push((role, s));
        proof {
            assert(turns_text(turns@) =~= before.push((role, decode_utf8(p.subrange(c as int, c + len)))));
        }
        cur = c + len;
        left = left - 1;
    }
    Some(Persisted { model: payload[0], persona: payload[1], max_tokens: payload[2], turns })
}

} // verus!
