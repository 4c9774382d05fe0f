//! Server-Sent Events line handling for the streamed LLM response.
//!
//! The network layer de-chunks the HTTP/1.1 body and feeds complete lines here.
//! [`process_line`] classifies each line and, for a text delta, decodes the new
//! text into the caller's buffer. Only one delta string is held at a time; the
//! full response is never buffered.
use vstd::prelude::*;
use crate::json::{
    frame_type_at, frame_type_of, frame_type_range, openai_delta_into, openai_delta_outcome,
    text_delta_into, text_delta_outcome, total_tokens_at, total_tokens_of,
};
use crate::scan::{
    find_at, find_from, has_prefix, is_ws, lemma_skip_while, same_chars, skip_while, skip_ws,
    slice_copy, starts_with, trim_cr, trim_cr_end,
};
use crate::text::{chars_of, BoundedString};

verus! {

/// Capacity, in bytes, of the buffer a decoded delta is written into.
pub const DELTA_CAP: usize = 256;

/// Result of classifying one SSE line.
#[derive(Debug, PartialEq, Eq, Structural, Clone, Copy)]
pub enum SseOut {
    /// Not a meaningful data line (comment, `event:` line, blank, other event).
    Ignored,
    /// A text delta was decoded into the caller's buffer.
    Delta,
    /// Terminal: the stream finished (`message_stop` / `[DONE]`).
    Stop,
    /// An error event was received.
    Error,
}

/// The payload of a `data:` line: the line without its trailing `'\r'`s and
/// its `data:` prefix, with leading whitespace trimmed. `None` for any other
/// line (`event:` lines, comments, blanks).
pub open spec fn data_payload(line: Seq<char>) -> Option<Seq<char>> {
    let l = line.subrange(0, trim_cr_end(line, line.len() as int));
    if starts_with(l, "data:"@) {
        Some(l.subrange(skip_while(l, "data:"@.len() as int, |c: char| is_ws(c)), l.len() as int))
    } else {
        None
    }
}

/// Classification of an Anthropic SSE line, and the delta buffer afterwards.
///
/// Control frames are recognised by their top-level `"type"` field, so reply
/// text that merely mentions `message_stop` or `error` is still a delta.
pub open spec fn anthropic_outcome(line: Seq<char>, old: Seq<char>) -> (SseOut, Seq<char>) {
    match data_payload(line) {
        None => (SseOut::Ignored, old),
        Some(p) => if p == "[DONE]"@ {
            (SseOut::Stop, old)
        } else if frame_type_of(p) == "error"@ {
            (SseOut::Error, old)
        } else if frame_type_of(p) == "message_stop"@ {
            (SseOut::Stop, old)
        } else {
            let r = text_delta_outcome(p, old, DELTA_CAP as nat);
            (if r.1 { SseOut::Delta } else { SseOut::Ignored }, r.0)
        },
    }
}

/// Classification of an OpenAI / OpenRouter SSE line, and the delta buffer
/// afterwards. A payload holding `"error":` anywhere is an error; since quotes
/// inside content are escaped, content that says "error" is not.
pub open spec fn openai_outcome(line: Seq<char>, old: Seq<char>) -> (SseOut, Seq<char>) {
    match data_payload(line) {
        None => (SseOut::Ignored, old),
        Some(p) => if p == "[DONE]"@ {
            (SseOut::Stop, old)
        } else if find_from(p, "\"error\":"@, 0) is Some {
            (SseOut::Error, old)
        } else {
            let r = openai_delta_outcome(p, old, DELTA_CAP as nat);
            (if r.1 { SseOut::Delta } else { SseOut::Ignored }, r.0)
        },
    }
}

/// Exec: the payload of a `data:` line, as characters.
fn data_payload_of(line: &Vec<char>) -> (r: Option<Vec<char>>)
    ensures
        match r {
            Some(p) => data_payload(line@) == Some(p@),
            None => data_payload(line@) is None,
        },
{
    let e = trim_cr(line);
    let l = slice_copy(line, 0, e);
    let prefix = chars_of("data:");
    if !has_prefix(&l, &prefix) {
        return None;
    }
    let st = skip_ws(&l, prefix.len());
    proof {
        lemma_skip_while(l@, prefix@.len() as int, |c: char| is_ws(c));
    }
    Some(slice_copy(&l, st, l.len()))
}

/// Whether `s[b..e]` is the text `pat`.
fn range_is(s: &Vec<char>, b: usize, e: usize, pat: &str) -> (r: bool)
    requires
        b <= e <= s@.len(),
    ensures
        r == (s@.subrange(b as int, e as int) == pat@),
{
    let part = slice_copy(s, b, e);
    let p = chars_of(pat);
    same_chars(&part, &p)
}

/// Classifies one SSE line. On [`SseOut::Delta`], `delta` holds the new text.
pub fn process_line(line: &str, delta: &mut BoundedString<DELTA_CAP>) -> (r: SseOut)
    ensures
        (r, final(delta)@) == anthropic_outcome(line@, old(delta)@),
{
    let v = chars_of(line);
    let rest = match data_payload_of(&v) {
        Some(p) => p,
        None => return SseOut::Ignored,
    };
    let done = chars_of("[DONE]");
    if same_chars(&rest, &done) {
        return SseOut::Stop;
    }
    match frame_type_at(&rest) {
        Some((b, e)) => {
            if range_is(&rest, b, e, "error") {
                return SseOut::Error;
            }
            if range_is(&rest, b, e, "message_stop") {
                return SseOut::Stop;
            }
        },
        None => {
            proof {
                reveal_strlit("error");
                reveal_strlit("message_stop");
                assert(frame_type_of(rest@) =~= Seq::<char>::empty());
            }
        },
    }
    if text_delta_into(&rest, delta) {
        SseOut::Delta
    } else {
        SseOut::Ignored
    }
}

/// Classifies one OpenAI / OpenRouter SSE line. On [`SseOut::Delta`], `delta`
/// holds the new `choices[0].delta.content` text. The stream ends with the
/// literal `data: [DONE]` line.
pub fn process_openai_line(line: &str, delta: &mut BoundedString<DELTA_CAP>) -> (r: SseOut)
    ensures
        (r, final(delta)@) == openai_outcome(line@, old(delta)@),
{
    let v = chars_of(line);
    let rest = match data_payload_of(&v) {
        Some(p) => p,
        None => return SseOut::Ignored,
    };
    let done = chars_of("[DONE]");
    if same_chars(&rest, &done) {
        return SseOut::Stop;
    }
    let err = chars_of("\"error\":");
    if find_at(&rest, &err, 0).is_some() {
        return SseOut::Error;
    }
    if openai_delta_into(&rest, delta) {
        SseOut::Delta
    } else {
        SseOut::Ignored
    }
}

/// `usage.total_tokens` of a line's data payload, if any.
pub open spec fn usage_of_line(line: Seq<char>) -> Option<u32> {
    match data_payload(line) {
        None => None,
        Some(p) => total_tokens_of(p),
    }
}

/// For an OpenAI / OpenRouter `data:` line, returns `usage.total_tokens` if the
/// chunk carries a usage object. Returns `None` for `event:`, comment and blank
/// lines and for ordinary delta chunks.
pub fn usage_total(line: &str) -> (r: Option<u32>)
    ensures
        r == usage_of_line(line@),
{
    let v = chars_of(line);
    match data_payload_of(&v) {
        Some(p) => total_tokens_at(&p),
        None => None,
    }
}

} // verus!
