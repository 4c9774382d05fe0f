//! The request framing and the reading of a streamed chat response.
//!
//! The transport (TLS, TCP, DNS, the HTTP exchange) belongs to the firmware.
//! What it needs from here is plain: the request URL and `Authorization`
//! value, the JSON body, the verdict on the HTTP status, and a line framer
//! that turns the raw `text/event-stream` bytes, read in chunks of any size,
//! into complete `'\n'`-delimited lines for the SSE classifier. The framer
//! keeps at most [`LINE_CAP`] bytes of a line; a longer line is dropped up to
//! its newline rather than misframed, and a line that is not UTF-8 is skipped.
use vstd::prelude::*;
use vstd::utf8::{decode_utf8, encode_utf8_decode_utf8, valid_utf8};
use crate::provider::{chat_body_pieces, system_view, turns_view, OpenRouter, Role};
use crate::scan::{concat, lemma_push_pieces, push_pieces};
use crate::sse::{openai_outcome, process_openai_line, usage_of_line, usage_total, SseOut, DELTA_CAP};
use crate::text::{lemma_utf8_len_concat, std_str_from_utf8, utf8_len, BoundedString};

verus! {

/// Most bytes of one response line that are kept.
pub const LINE_CAP: usize = 512;

/// Capacity of the request URL.
pub const URL_CAP: usize = 96;

/// Capacity of the `Authorization` header value.
pub const AUTH_CAP: usize = 128;

/// Capacity of the JSON request body.
pub const BODY_CAP: usize = 4096;

/// What can go wrong with a chat request, as the screen reports it.
#[derive(Debug, Clone, Copy, PartialEq, Eq, Structural)]
pub enum NetError {
    /// The request JSON did not fit the body buffer.
    BodyTooLarge,
    /// DNS, TCP, TLS or HTTP transport failure.
    Transport,
    /// A status outside `200..300` (a bad key, a rate limit, ...).
    Http(u16),
    /// The stream reported an error event.
    StreamError,
}

// ---------------------------------------------------------------------------
// The request.
// ---------------------------------------------------------------------------
/// Whether an HTTP status is a success (`200..300`).
pub open spec fn is_success(code: u16) -> bool {
    200 <= code < 300
}

/// Accepts a 2xx status; any other is reported with its code, since a
/// 401 or 429 arrives as a JSON error body rather than an event stream.
pub fn check_status(code: u16) -> (r: Result<(), NetError>)
    ensures
        r == (if is_success(code) {
            Ok(())
        } else {
            Err(NetError::Http(code))
        }),
{
    if 200 <= code && code < 300 {
        Ok(())
    } else {
        Err(NetError::Http(code))
    }
}

/// The request URL of `host` and `path`.
pub open spec fn url_text(host: Seq<char>, path: Seq<char>) -> Seq<char> {
    "https://"@ + host + path
}

/// `https://` + `host` + `path`, or [`NetError::Transport`] when it does not
/// fit [`URL_CAP`] bytes.
pub fn request_url(host: &str, path: &str) -> (r: Result<BoundedString<URL_CAP>, NetError>)
    ensures
        r is Ok <==> utf8_len(url_text(host@, path@)) <= URL_CAP,
        r matches Ok(u) ==> u@ == url_text(host@, path@),
        r matches Err(e) ==> e == NetError::Transport,
{
    let mut u: BoundedString<URL_CAP> = BoundedString::new();
    proof {
        lemma_utf8_len_concat(Seq::empty(), "https://"@);
        assert(Seq::<char>::empty() + "https://"@ =~= "https://"@);
        lemma_utf8_len_concat("https://"@, host@);
        lemma_utf8_len_concat("https://"@ + host@, path@);
    }
    if u.push_str("https://").is_err() {
        return Err(NetError::Transport);
    }
    if u.push_str(host).is_err() {
        return Err(NetError::Transport);
    }
    if u.push_str(path).is_err() {
        return Err(NetError::Transport);
    }
    Ok(u)
}

/// The `Authorization` value for an API key.
pub open spec fn bearer_text(key: Seq<char>) -> Seq<char> {
    "Bearer "@ + key
}

/// `Bearer ` + `key`, or [`NetError::Transport`] when it does not fit
/// [`AUTH_CAP`] bytes.
pub fn bearer_value(key: &str) -> (r: Result<BoundedString<AUTH_CAP>, NetError>)
    ensures
        r is Ok <==> utf8_len(bearer_text(key@)) <= AUTH_CAP,
        r matches Ok(a) ==> a@ == bearer_text(key@),
        r matches Err(e) ==> e == NetError::Transport,
{
    let mut a: BoundedString<AUTH_CAP> = BoundedString::new();
    proof {
        lemma_utf8_len_concat(Seq::empty(), "Bearer "@);
        assert(Seq::<char>::empty() + "Bearer "@ =~= "Bearer "@);
        lemma_utf8_len_concat("Bearer "@, key@);
    }
    if a.push_str("Bearer ").is_err() {
        return Err(NetError::Transport);
    }
    if a.push_str(key).is_err() {
        return Err(NetError::Transport);
    }
    Ok(a)
}

/// The JSON body of a streaming chat request.
pub open spec fn chat_body_text(
    model: Seq<char>,
    max_tokens: u32,
    system: Option<Seq<char>>,
    turns: Seq<(Role, Seq<char>)>,
) -> Seq<char> {
    concat(chat_body_pieces(model, max_tokens, system, turns))
}

/// Builds the body of a streaming chat request for `model` with `max_tokens`,
/// an optional system prompt and the ordered turns; [`NetError::BodyTooLarge`]
/// when it does not fit [`BODY_CAP`] bytes.
pub fn chat_body(model: &str, max_tokens: u32, system: Option<&str>, turns: &[(Role, &str)]) -> (r:
    Result<BoundedString<BODY_CAP>, NetError>)
    ensures
        r is Ok <==> utf8_len(
            chat_body_text(model@, max_tokens, system_view(system), turns_view(turns@)),
        ) <= BODY_CAP,
        r matches Ok(b) ==> b@ == chat_body_text(
            model@,
            max_tokens,
            system_view(system),
            turns_view(turns@),
        ),
        r matches Err(e) ==> e == NetError::BodyTooLarge,
{
    let mut provider = OpenRouter::new(model);
    provider.max_tokens = max_tokens;
    let mut body: BoundedString<BODY_CAP> = BoundedString::new();
    let built = provider.build_chat_body(system, turns, &mut body);
    proof {
        lemma_utf8_len_concat(Seq::empty(), Seq::empty());
        assert(Seq::<char>::empty() + Seq::<char>::empty() =~= Seq::<char>::empty());
        lemma_push_pieces(
            Seq::empty(),
            chat_body_pieces(model@, max_tokens, system_view(system), turns_view(turns@)),
            BODY_CAP as nat,
        );
        assert(Seq::<char>::empty() + chat_body_text(
            model@,
            max_tokens,
            system_view(system),
            turns_view(turns@),
        ) =~= chat_body_text(model@, max_tokens, system_view(system), turns_view(turns@)));
    }
    match built {
        Ok(()) => Ok(body),
        Err(()) => Err(NetError::BodyTooLarge),
    }
}

// ---------------------------------------------------------------------------
// The response.
// ---------------------------------------------------------------------------
/// The state of the line framer: the bytes of the line so far, whether the
/// rest of an over-long line is being dropped, the latest token total and
/// the last decoded delta.
pub struct StreamView {
    pub line: Seq<u8>,
    pub skipping: bool,
    pub total: u32,
    pub delta: Seq<char>,
}

/// What the framer reports after a byte.
#[derive(Debug, Clone, Copy, PartialEq, Eq, Structural)]
pub enum StreamEvent {
    /// Nothing to act on yet.
    Pending,
    /// A text delta is ready in [`SseStream::delta`].
    Delta,
    /// The stream ended cleanly, reporting this token total.
    Finished(u32),
    /// The stream failed.
    Failed(NetError),
}

/// The framer's state before any byte.
pub open spec fn stream_start() -> StreamView {
    StreamView { line: Seq::empty(), skipping: false, total: 0, delta: Seq::empty() }
}

/// What one complete line does: the event, then the token total and the
/// delta afterwards. A line that is not UTF-8 is skipped; a stop reports the
/// total seen before it; otherwise a usage object replaces the total.
pub open spec fn line_effect(line: Seq<u8>, total: u32, delta: Seq<char>) -> (
    StreamEvent,
    u32,
    Seq<char>,
) {
    if !valid_utf8(line) {
        (StreamEvent::Pending, total, delta)
    } else {
        let text = decode_utf8(line);
        let o = openai_outcome(text, delta);
        let t = match usage_of_line(text) {
            Some(n) => n,
            None => total,
        };
        match o.0 {
            SseOut::Stop => (StreamEvent::Finished(total), total, o.1),
            SseOut::Error => (StreamEvent::Failed(NetError::StreamError), total, o.1),
            SseOut::Delta => (StreamEvent::Delta, t, o.1),
            SseOut::Ignored => (StreamEvent::Pending, t, o.1),
        }
    }
}

/// The framer after one byte, and what it reports.
pub open spec fn byte_step(s: StreamView, b: u8) -> (StreamView, StreamEvent) {
    if b == 10 {
        let e = if s.skipping {
            (StreamEvent::Pending, s.total, s.delta)
        } else {
            line_effect(s.line, s.total, s.delta)
        };
        (StreamView { line: Seq::empty(), skipping: false, total: e.1, delta: e.2 }, e.0)
    } else if s.skipping {
        (s, StreamEvent::Pending)
    } else if s.line.len() < LINE_CAP {
        (
            StreamView { line: s.line.push(b), skipping: false, total: s.total, delta: s.delta },
            StreamEvent::Pending,
        )
    } else {
        (
            StreamView { line: Seq::empty(), skipping: true, total: s.total, delta: s.delta },
            StreamEvent::Pending,
        )
    }
}

/// The framer after a run of bytes.
pub open spec fn feed(s: StreamView, bytes: Seq<u8>) -> StreamView
    decreases bytes.len(),
{
    if bytes.len() == 0 {
        s
    } else {
        byte_step(feed(s, bytes.drop_last()), bytes.last()).0
    }
}

/// What the end of the body does with a last line that has no newline:
/// whether it gave a delta, the result of the stream, and the token total and
/// delta afterwards. Unlike a framed line, a stop here still lets a usage
/// object update the total.
pub open spec fn end_effect(s: StreamView) -> (bool, Result<u32, NetError>, u32, Seq<char>) {
    if s.skipping || s.line.len() == 0 || !valid_utf8(s.line) {
        (false, Ok(s.total), s.total, s.delta)
    } else {
        let text = decode_utf8(s.line);
        let o = openai_outcome(text, s.delta);
        let t = match usage_of_line(text) {
            Some(n) => n,
            None => s.total,
        };
        if o.0 == SseOut::Error {
            (false, Err(NetError::StreamError), s.total, o.1)
        } else {
            (o.0 == SseOut::Delta, Ok(t), t, o.1)
        }
    }
}

/// How the body ended: whether a last delta is ready in
/// [`SseStream::delta`], and the result of the whole stream.
pub struct StreamEnd {
    pub delta: bool,
    pub result: Result<u32, NetError>,
}

/// The line framer over a streamed response body.
pub struct SseStream {
    line: Vec<u8>,
    skipping: bool,
    total: u32,
    delta: BoundedString<DELTA_CAP>,
}

impl View for SseStream {
    type V = StreamView;

    closed spec fn view(&self) -> StreamView {
        StreamView {
            line: self.line@,
            skipping: self.skipping,
            total: self.total,
            delta: self.delta@,
        }
    }
}

impl SseStream {
    /// A framer before any byte.
    pub fn new() -> (s: Self)
        ensures
            s@ == stream_start(),
    {
        SseStream {
            line: Vec::new(),
            skipping: false,
            total: 0,
            delta: BoundedString::new(),
        }
    }

    /// The last decoded delta.
    pub fn delta(&self) -> (d: &str)
        ensures
            d@ == self@.delta,
    {
        self.delta.as_str()
    }

    /// The latest token total seen.
    pub fn total(&self) -> (t: u32)
        ensures
            t == self@.total,
    {
        self.total
    }

    /// Classifies the line held as a complete line.
    fn run_line(&mut self) -> (ev: StreamEvent)
        ensures
            (ev, final(self)@.total, final(self)@.delta) == line_effect(
                old(self)@.line,
                old(self)@.total,
                old(self)@.delta,
            ),
            final(self)@.line == old(self)@.line,
            final(self)@.skipping == old(self)@.skipping,
    {
        let text = match std_str_from_utf8(self.line.as_slice()) {
            Some(t) => t,
            None => return StreamEvent::Pending,
        };
        proof {
            encode_utf8_decode_utf8(text@);
        }
        let out = process_openai_line(text, &mut self.delta);
        match out {
            SseOut::Stop => {
                return StreamEvent::Finished(self.total);
            },
            SseOut::Error => {
                return StreamEvent::Failed(NetError::StreamError);
            },
            _ => {},
        }
        match usage_total(text) {
            Some(t) => {
                self.total = t;
            },
            None => {},
        }
        match out {
            SseOut::Delta => StreamEvent::Delta,
            _ => StreamEvent::Pending,
        }
    }

    /// Feeds one byte of the body; at a newline the line is classified.
    pub fn push_byte(&mut self, b: u8) -> (ev: StreamEvent)
        ensures
            (final(self)@, ev) == byte_step(old(self)@, b),
    {
        if b == 10 {
            let ev = if self.skipping {
                StreamEvent::Pending
            } else {
                self.run_line()
            };
            self.line.clear();
            self.skipping = false;
            ev
        } else if self.skipping {
            StreamEvent::Pending
        } else if self.line.len() < LINE_CAP {
            self.line.push(b);
            StreamEvent::Pending
        } else {
            self.line.clear();
            self.skipping = true;
            StreamEvent::Pending
        }
    }

    /// Ends the body: a last line without a newline is still classified.
    pub fn finish(&mut self) -> (r: StreamEnd)
        ensures
            r.delta == end_effect(old(self)@).0,
            r.result == end_effect(old(self)@).1,
            final(self)@ == (StreamView {
                line: Seq::empty(),
                skipping: false,
                total: end_effect(old(self)@).2,
                delta: end_effect(old(self)@).3,
            }),
    {
        let mut r = StreamEnd { delta: false, result: Ok(self.total) };
        if !self.skipping && self.line.len() > 0 {
            match std_str_from_utf8(self.line.as_slice()) {
                Some(text) => {
                    proof {
                        encode_utf8_decode_utf8(text@);
                    }
                    let out = process_openai_line(text, &mut self.delta);
                    match out {
                        SseOut::Error => {
                            r = StreamEnd { delta: false, result: Err(NetError::StreamError) };
                        },
                        _ => {
                            match usage_total(text) {
                                Some(t) => {
                                    self.total = t;
                                },
                                None => {},
                            }
                            r = StreamEnd {
                                delta: match out {
                                    SseOut::Delta => true,
                                    _ => false,
                                },
                                result: Ok(self.total),
                            };
                        },
                    }
                },
                None => {},
            }
        }
        self.line.clear();
        self.skipping = false;
        r
    }
}

// ---------------------------------------------------------------------------
// Laws of the framer.
// ---------------------------------------------------------------------------
/// Bytes without a newline fill the line up to [`LINE_CAP`]; past that the
/// line is dropped and the framer skips to the next newline.
proof fn lemma_feed_no_newline(s: StreamView, l: Seq<u8>)
    requires
        s.line.len() == 0,
        !s.skipping,
        forall|i: int| 0 <= i < l.len() ==> l[i] != 10,
    ensures
        l.len() <= LINE_CAP ==> feed(s, l) == (StreamView {
            line: l,
            skipping: false,
            total: s.total,
            delta: s.delta,
        }),
        l.len() > LINE_CAP ==> feed(s, l) == (StreamView {
            line: Seq::empty(),
            skipping: true,
            total: s.total,
            delta: s.delta,
        }),
    decreases l.len(),
{
    if l.len() == 0 {
        assert(s.line =~= l);
    } else {
        let p = l.drop_last();
        assert forall|i: int| 0 <= i < p.len() implies p[i] != 10 by {
            assert(p[i] == l[i]);
        }
        lemma_feed_no_newline(s, p);
        assert(l.last() != 10);
        if l.len() <= LINE_CAP {
            assert(p.push(l.last()) =~= l);
        }
    }
}

/// A line split across reads arrives whole: from a fresh line, feeding the
/// bytes of a line of at most [`LINE_CAP`] bytes and then its newline has
/// exactly the effect of that line.
pub proof fn law_line_framing(s: StreamView, l: Seq<u8>)
    requires
        s.line.len() == 0,
        !s.skipping,
        l.len() <= LINE_CAP,
        forall|i: int| 0 <= i < l.len() ==> l[i] != 10,
    ensures
        byte_step(feed(s, l), 10) == ({
            let e = line_effect(l, s.total, s.delta);
            (StreamView { line: Seq::empty(), skipping: false, total: e.1, delta: e.2 }, e.0)
        }),
{
    lemma_feed_no_newline(s, l);
}

/// An over-long line is dropped whole: from a fresh line, feeding more than
/// [`LINE_CAP`] bytes and then a newline reports nothing and leaves the total
/// and the delta as they were, ready for the next line.
pub proof fn law_overlong_line_dropped(s: StreamView, l: Seq<u8>)
    requires
        s.line.len() == 0,
        !s.skipping,
        l.len() > LINE_CAP,
        forall|i: int| 0 <= i < l.len() ==> l[i] != 10,
    ensures
        byte_step(feed(s, l), 10) == (
        StreamView { line: Seq::empty(), skipping: false, total: s.total, delta: s.delta },
        StreamEvent::Pending,
    ),
{
    lemma_feed_no_newline(s, l);
}

} // verus!
