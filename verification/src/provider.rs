//! LLM provider abstraction.
//!
//! The terminal speaks raw HTTPS. An [`LlmProvider`] knows its host and path,
//! how to build a streaming request body, and how to pull a text delta out of
//! one SSE `data:` payload. Swapping providers (Anthropic / OpenRouter) is one
//! impl.
use vstd::prelude::*;
use crate::json::{
    escape_into, escape_pieces, escaped, extract_openai_delta, extract_text_delta,
    openai_delta_outcome, text_delta_outcome,
};
use crate::scan::{
    concat, lemma_concat_append, lemma_push_pieces, lemma_push_pieces_append, push_piece,
    push_pieces,
};
use crate::text::{decimal, decimal_string, utf8_len, BoundedString};

verus! {

broadcast use vstd::seq_lib::group_seq_properties;

/// A chat message role for multi-turn requests.
#[derive(Clone, Copy, PartialEq, Eq, Debug, Structural)]
pub enum Role {
    System,
    User,
    Assistant,
}

/// The wire name of a role.
pub open spec fn role_name(r: Role) -> Seq<char> {
    match r {
        Role::System => "system"@,
        Role::User => "user"@,
        Role::Assistant => "assistant"@,
    }
}

impl Role {
    /// The wire name of the role.
    pub fn as_str(self) -> (s: &'static str)
        ensures
            s@ == role_name(self),
    {
        match self {
            Role::System => "system",
            Role::User => "user",
            Role::Assistant => "assistant",
        }
    }
}

/// Default `max_tokens` of a new provider.
pub const DEFAULT_MAX_TOKENS: u32 = 1024;

/// Capacity of the buffer a provider decodes a delta into.
pub const DELTA_BUF: usize = 256;

/// A hosted LLM the terminal can stream from.
pub trait LlmProvider {
    /// The API host.
    spec fn host_text(&self) -> Seq<char>;

    /// The request path.
    spec fn path_text(&self) -> Seq<char>;

    /// The pieces of the request body for `prompt`, in the order they are
    /// written.
    spec fn body_pieces(&self, prompt: Seq<char>) -> Seq<Seq<char>>;

    /// The delta buffer and result after reading the payload `data` with the
    /// buffer holding `old`.
    spec fn delta_outcome(&self, data: Seq<char>, old: Seq<char>) -> (Seq<char>, bool);

    /// API host, e.g. `api.anthropic.com`.
    fn host(&self) -> (r: &str)
        ensures
            r@ == self.host_text(),
    ;

    /// Request path, e.g. `/v1/messages`.
    fn path(&self) -> (r: &str)
        ensures
            r@ == self.path_text(),
    ;

    /// Builds the JSON request body for a streaming chat completion into `out`
    /// (which is cleared first). Fails when the body does not fit; the pieces
    /// written before the one that did not fit stay in `out`.
    fn build_body<const N: usize>(&self, prompt: &str, out: &mut BoundedString<N>) -> (r: Result<
        (),
        (),
    >)
        ensures
            (final(out)@, r is Ok) == push_pieces(Seq::empty(), self.body_pieces(prompt@), N as nat),
    ;

    /// Extracts a text delta from one SSE `data:` payload; `true` if one was
    /// found.
    fn extract_delta(&self, data_json: &str, out: &mut BoundedString<DELTA_BUF>) -> (ok: bool)
        ensures
            (final(out)@, ok) == self.delta_outcome(data_json@, old(out)@),
    ;
}

/// Appends each of `pieces` whole, stopping at the first that does not fit.
fn push_all<const N: usize>(out: &mut BoundedString<N>, pieces: &[&str]) -> (r: Result<(), ()>)
    ensures
        (final(out)@, r is Ok) == push_pieces(old(out)@, strs_view(pieces@), N as nat),
{
    let ghost base = out@;
    let ghost ps = strs_view(pieces@);
    let mut i: usize = 0;
    proof {
        assert(ps.take(0) =~= Seq::<Seq<char>>::empty());
    }
    while i < pieces.len()
        invariant
            i <= pieces@.len(),
            base == old(out)@,
            ps == strs_view(pieces@),
            push_pieces(base, ps.take(i as int), N as nat) == (out@, true),
        decreases pieces@.len() - i,
    {
        let r = push_piece(out, pieces[i]);
        proof {
            assert(ps.take(i + 1) =~= ps.take(i as int) + seq![pieces@[i as int]@]);
            lemma_push_pieces_append(base, ps.take(i as int), seq![pieces@[i as int]@], N as nat);
        }
        if r.is_err() {
            proof {
                lemma_push_pieces_append(base, ps.take(i + 1), ps.skip(i + 1), N as nat);
                assert(ps.take(i + 1) + ps.skip(i + 1) =~= ps);
            }
            return Err(());
        }
        i = i + 1;
    }
    proof {
        assert(ps.take(pieces@.len() as int) =~= ps);
    }
    Ok(())
}

/// The texts of a list of string slices.
pub open spec fn strs_view(s: Seq<&str>) -> Seq<Seq<char>> {
    s.map_values(|x: &str| x@)
}

/// Runs a second stage of appends only when the first succeeded.
proof fn lemma_then(base: Seq<char>, a: Seq<Seq<char>>, b: Seq<Seq<char>>, cap: nat)
    ensures
        push_pieces(base, a, cap).1 ==> push_pieces(base, a + b, cap) == push_pieces(
            push_pieces(base, a, cap).0,
            b,
            cap,
        ),
        !push_pieces(base, a, cap).1 ==> push_pieces(base, a + b, cap) == push_pieces(base, a, cap),
{
    lemma_push_pieces_append(base, a, b, cap);
}

/// Anthropic's Messages API.
pub struct Claude<'a> {
    pub model: &'a str,
    pub max_tokens: u32,
}

impl<'a> Claude<'a> {
    /// New Anthropic provider with the default `max_tokens` (1024).
    pub fn new(model: &'a str) -> (c: Self)
        ensures
            c.model == model,
            c.max_tokens == DEFAULT_MAX_TOKENS,
    {
        Self { model, max_tokens: DEFAULT_MAX_TOKENS }
    }

    /// The `anthropic-version` request header value. The API key is supplied
    /// separately by the network layer so it never lives in this struct.
    pub const ANTHROPIC_VERSION: &'static str = "2023-06-01";
}

/// The pieces of an Anthropic Messages API body: model, `max_tokens`, streaming
/// on, and one user message holding the escaped prompt.
pub open spec fn claude_body_pieces(model: Seq<char>, max_tokens: u32, prompt: Seq<char>) -> Seq<
    Seq<char>,
> {
    seq![
        "{\"model\":\""@,
        model,
        "\",\"max_tokens\":"@,
        decimal(max_tokens as nat),
        ",\"stream\":true,\"messages\":[{\"role\":\"user\",\"content\":\""@,
    ] + escape_pieces(prompt) + seq!["\"}]}"@]
}

impl<'a> LlmProvider for Claude<'a> {
    open spec fn host_text(&self) -> Seq<char> {
        "api.anthropic.com"@
    }

    open spec fn path_text(&self) -> Seq<char> {
        "/v1/messages"@
    }

    open spec fn body_pieces(&self, prompt: Seq<char>) -> Seq<Seq<char>> {
        claude_body_pieces(self.model@, self.max_tokens, prompt)
    }

    open spec fn delta_outcome(&self, data: Seq<char>, old: Seq<char>) -> (Seq<char>, bool) {
        text_delta_outcome(data, old, DELTA_BUF as nat)
    }

    fn host(&self) -> (r: &str) {
        "api.anthropic.com"
    }

    fn path(&self) -> (r: &str) {
        "/v1/messages"
    }

    fn build_body<const N: usize>(&self, prompt: &str, out: &mut BoundedString<N>) -> (r: Result<
        (),
        (),
    >) {
        out.clear();
        let max = decimal_string(self.max_tokens as u64);
        let head = [
            "{\"model\":\"",
            self.model,
            "\",\"max_tokens\":",
            max.as_str(),
            ",\"stream\":true,\"messages\":[{\"role\":\"user\",\"content\":\"",
        ];
        let ghost hp = strs_view(head@);
        let ghost ep = escape_pieces(prompt@);
        let ghost tp = seq!["\"}]}"@];
        proof {
            assert(hp =~= seq![
                "{\"model\":\""@,
                self.model@,
                "\",\"max_tokens\":"@,
                decimal(self.max_tokens as nat),
                ",\"stream\":true,\"messages\":[{\"role\":\"user\",\"content\":\""@,
            ]);
            assert(self.body_pieces(prompt@) == hp + ep + tp);
            lemma_then(Seq::empty(), hp, ep + tp, N as nat);
            assert(hp + ep + tp =~= hp + (ep + tp));
        }
        let r1 = push_all(out, &head);
        if r1.is_err() {
            return Err(());
        }
        let ghost after_head = out@;
        proof {
            lemma_then(after_head, ep, tp, N as nat);
        }
        let r2 = escape_into(prompt, out);
        if r2.is_err() {
            return Err(());
        }
        push_piece(out, "\"}]}")
    }

    fn extract_delta(&self, data_json: &str, out: &mut BoundedString<DELTA_BUF>) -> (ok: bool) {
        extract_text_delta(data_json, out)
    }
}

/// OpenRouter (OpenAI-compatible chat completions), reaching many models
/// through one endpoint. Auth is `Authorization: Bearer <key>`, set by the
/// network layer.
pub struct OpenRouter<'a> {
    pub model: &'a str,
    pub max_tokens: u32,
}

/// The pieces of one `{"role":..,"content":..}` message, preceded by a comma
/// unless it is the first.
pub open spec fn msg_pieces(role: Seq<char>, content: Seq<char>, first: bool) -> Seq<Seq<char>> {
    (if first {
        Seq::<Seq<char>>::empty()
    } else {
        seq![","@]
    }) + seq!["{\"role\":\""@, role, "\",\"content\":\""@] + escape_pieces(content) + seq![
        "\"}"@,
    ]
}

/// The pieces of the messages of a chat, `msgs[k]` being (role, content).
pub open spec fn messages_pieces(msgs: Seq<(Seq<char>, Seq<char>)>) -> Seq<Seq<char>>
    decreases msgs.len(),
{
    if msgs.len() == 0 {
        Seq::empty()
    } else {
        messages_pieces(msgs.drop_last()) + msg_pieces(
            msgs.last().0,
            msgs.last().1,
            msgs.len() == 1,
        )
    }
}

/// The (role, content) texts of the messages of a chat: the optional system
/// prompt first, then the turns in order.
pub open spec fn chat_messages(system: Option<Seq<char>>, turns: Seq<(Role, Seq<char>)>) -> Seq<
    (Seq<char>, Seq<char>),
> {
    (match system {
        Some(s) => seq![("system"@, s)],
        None => Seq::empty(),
    }) + turns.map_values(|t: (Role, Seq<char>)| (role_name(t.0), t.1))
}

/// The pieces of an OpenRouter chat-completions body: model, `max_tokens`,
/// streaming with a final usage chunk, and the messages.
pub open spec fn chat_body_pieces(
    model: Seq<char>,
    max_tokens: u32,
    system: Option<Seq<char>>,
    turns: Seq<(Role, Seq<char>)>,
) -> Seq<Seq<char>> {
    seq![
        "{\"model\":\""@,
        model,
        "\",\"max_tokens\":"@,
        decimal(max_tokens as nat),
        ",\"stream\":true,\"stream_options\":{\"include_usage\":true},\"messages\":["@,
    ] + messages_pieces(chat_messages(system, turns)) + seq!["]}"@]
}

/// The texts of a list of turns.
pub open spec fn turns_view(turns: Seq<(Role, &str)>) -> Seq<(Role, Seq<char>)> {
    turns.map_values(|t: (Role, &str)| (t.0, t.1@))
}

/// The text of an optional system prompt.
pub open spec fn system_view(system: Option<&str>) -> Option<Seq<char>> {
    match system {
        Some(s) => Some(s@),
        None => None,
    }
}

/// Appends one message, with a leading comma unless it is the first, and
/// clears `first`.
fn write_msg<const N: usize>(
    out: &mut BoundedString<N>,
    role: &str,
    content: &str,
    first: &mut bool,
) -> (r: Result<(), ()>)
    ensures
        (final(out)@, r is Ok) == push_pieces(
            old(out)@,
            msg_pieces(role@, content@, *old(first)),
            N as nat,
        ),
        !*final(first),
{
    let ghost was_first = *first;
    let ghost comma = if was_first {
        Seq::<Seq<char>>::empty()
    } else {
        seq![","@]
    };
    let ghost opening = seq!["{\"role\":\""@, role@, "\",\"content\":\""@];
    let ghost ep = escape_pieces(content@);
    let ghost close = seq!["\"}"@];
    let ghost base = out@;
    proof {
        assert(msg_pieces(role@, content@, was_first) == comma + opening + ep + close);
        assert(comma + opening + ep + close =~= comma + (opening + (ep + close)));
        lemma_then(base, comma, opening + (ep + close), N as nat);
    }
    if !*first {
        let r = push_piece(out, ",");
        if r.is_err() {
            *first = false;
            return Err(());
        }
    } else {
        proof {
            assert(push_pieces(base, comma, N as nat) == (base, true));
        }
    }
    *first = false;
    let ghost after_comma = out@;
    proof {
        lemma_then(after_comma, opening, ep + close, N as nat);
    }
    let opening_strs = ["{\"role\":\"", role, "\",\"content\":\""];
    proof {
        assert(strs_view(opening_strs@) =~= opening);
    }
    let r = push_all(out, &opening_strs);
    if r.is_err() {
        return Err(());
    }
    let ghost after_open = out@;
    proof {
        lemma_then(after_open, ep, close, N as nat);
    }
    let r = escape_into(content, out);
    if r.is_err() {
        return Err(());
    }
    push_piece(out, "\"}")
}

impl<'a> OpenRouter<'a> {
    /// New OpenRouter provider with the default `max_tokens` (1024).
    pub fn new(model: &'a str) -> (r: Self)
        ensures
            r.model == model,
            r.max_tokens == DEFAULT_MAX_TOKENS,
    {
        Self { model, max_tokens: DEFAULT_MAX_TOKENS }
    }

    /// Builds a streaming chat-completions body from an optional system prompt
    /// and an ordered list of conversation turns, into `out` (cleared first).
    /// Fails when the body does not fit; what was written before the piece that
    /// did not fit stays in `out`.
    pub fn build_chat_body<const N: usize>(
        &self,
        system: Option<&str>,
        turns: &[(Role, &str)],
        out: &mut BoundedString<N>,
    ) -> (r: Result<(), ()>)
        ensures
            (final(out)@, r is Ok) == push_pieces(
                Seq::empty(),
                chat_body_pieces(
                    self.model@,
                    self.max_tokens,
                    system_view(system),
                    turns_view(turns@),
                ),
                N as nat,
            ),
    {
        out.clear();
        let max = decimal_string(self.max_tokens as u64);
        let head = [
            "{\"model\":\"",
            self.model,
            "\",\"max_tokens\":",
            max.as_str(),
            ",\"stream\":true,\"stream_options\":{\"include_usage\":true},\"messages\":[",
        ];
        let ghost hp = strs_view(head@);
        let ghost msgs = chat_messages(system_view(system), turns_view(turns@));
        let ghost mp = messages_pieces(msgs);
        let ghost tp = seq!["]}"@];
        proof {
            assert(hp =~= seq![
                "{\"model\":\""@,
                self.model@,
                "\",\"max_tokens\":"@,
                decimal(self.max_tokens as nat),
                ",\"stream\":true,\"stream_options\":{\"include_usage\":true},\"messages\":["@,
            ]);
            assert(hp + mp + tp =~= hp + (mp + tp));
            assert(chat_body_pieces(
                self.model@,
                self.max_tokens,
                system_view(system),
                turns_view(turns@),
            ) == hp + (mp + tp));
            lemma_then(Seq::empty(), hp, mp + tp, N as nat);
        }
        let r = push_all(out, &head);
        if r.is_err() {
            return Err(());
        }
        let ghost after_head = out@;
        proof {
            lemma_then(after_head, mp, tp, N as nat);
        }
        // Messages written so far: the first `k` of `msgs`.
        let mut first = true;
        let ghost sys_count: int = if system.is_some() {
            1
        } else {
            0
        };
        if let Some(sys) = system {
            let ghost before = out@;
            proof {
                assert(msgs[0] == ("system"@, sys@));
                assert(msgs.take(1).drop_last() =~= Seq::<(Seq<char>, Seq<char>)>::empty());
                assert(msgs.take(1).last() == msgs[0]);
                assert(messages_pieces(msgs.take(1).drop_last()) =~= Seq::<Seq<char>>::empty());
                assert(Seq::<Seq<char>>::empty() + msg_pieces("system"@, sys@, true) =~= msg_pieces(
                    "system"@,
                    sys@,
                    true,
                ));
                assert(messages_pieces(msgs.take(1)) =~= msg_pieces("system"@, sys@, true));
            }
            let r = write_msg(out, "system", sys, &mut first);
            if r.is_err() {
                proof {
                    lemma_messages_prefix(msgs, 1);
                    lemma_then(after_head, messages_pieces(msgs.take(1)), messages_tail(msgs, 1), N as nat);
                }
                return Err(());
            }
        } else {
            proof {
                assert(msgs.take(0) =~= Seq::<(Seq<char>, Seq<char>)>::empty());
            }
        }
        let mut i: usize = 0;
        while i < turns.len()
            invariant
                i <= turns@.len(),
                msgs == chat_messages(system_view(system), turns_view(turns@)),
                msgs.len() == sys_count + turns@.len(),
                sys_count == (if system.is_some() { 1int } else { 0int }),
                first == (sys_count + i == 0),
                push_pieces(after_head, messages_pieces(msgs.take(sys_count + i)), N as nat) == (
                    out@,
                    true,
                ),
                mp == messages_pieces(msgs),
                chat_body_pieces(
                    self.model@,
                    self.max_tokens,
                    system_view(system),
                    turns_view(turns@),
                ) == hp + (mp + tp),
                push_pieces(Seq::empty(), hp + (mp + tp), N as nat) == push_pieces(
                    after_head,
                    mp + tp,
                    N as nat,
                ),
            decreases turns@.len() - i,
        {
            let (role, text) = turns[i];
            let k: Ghost<int> = Ghost(sys_count + i);
            proof {
                assert(msgs[k@] == (role_name(role), text@));
                assert(msgs.take(k@ + 1).drop_last() =~= msgs.take(k@));
                assert(msgs.take(k@ + 1).last() == msgs[k@]);
                lemma_then(
                    after_head,
                    messages_pieces(msgs.take(k@)),
                    msg_pieces(role_name(role), text@, k@ == 0),
                    N as nat,
                );
                assert(messages_pieces(msgs.take(k@ + 1)) == messages_pieces(msgs.take(k@))
                    + msg_pieces(role_name(role), text@, k@ == 0));
            }
            let r = write_msg(out, role.as_str(), text, &mut first);
            if r.is_err() {
                proof {
                    lemma_messages_prefix(msgs, k@ + 1);
                    lemma_then(
                        after_head,
                        messages_pieces(msgs.take(k@ + 1)),
                        messages_tail(msgs, k@ + 1),
                        N as nat,
                    );
                    lemma_then(after_head, mp, tp, N as nat);
                }
                return Err(());
            }
            i = i + 1;
        }
        proof {
            assert(msgs.take(msgs.len() as int) =~= msgs);
        }
        push_piece(out, "]}")
    }
}

/// The message pieces of `msgs` from index `k` on.
pub open spec fn messages_tail(msgs: Seq<(Seq<char>, Seq<char>)>, k: int) -> Seq<Seq<char>>
    decreases msgs.len() - k,
{
    if k < 0 || k >= msgs.len() {
        Seq::empty()
    } else {
        msg_pieces(msgs[k].0, msgs[k].1, k == 0) + messages_tail(msgs, k + 1)
    }
}

/// Writing a prefix of the messages and then the rest is writing them all.
proof fn lemma_messages_prefix(msgs: Seq<(Seq<char>, Seq<char>)>, k: int)
    requires
        0 <= k <= msgs.len(),
    ensures
        messages_pieces(msgs) == messages_pieces(msgs.take(k)) + messages_tail(msgs, k),
    decreases msgs.len() - k,
{
    if k == msgs.len() {
        assert(msgs.take(k) =~= msgs);
        assert(messages_pieces(msgs) + Seq::<Seq<char>>::empty() =~= messages_pieces(msgs));
    } else {
        lemma_messages_prefix(msgs, k + 1);
        let t = msgs.take(k + 1);
        assert(t.drop_last() =~= msgs.take(k));
        assert(t.last() == msgs[k]);
        assert(messages_pieces(msgs.take(k)) + (msg_pieces(msgs[k].0, msgs[k].1, k == 0)
            + messages_tail(msgs, k + 1)) =~= messages_pieces(msgs.take(k)) + msg_pieces(
            msgs[k].0,
            msgs[k].1,
            k == 0,
        ) + messages_tail(msgs, k + 1));
    }
}

/// The body pieces of a single-turn OpenRouter request for `prompt`.
pub open spec fn openrouter_body_pieces(model: Seq<char>, max_tokens: u32, prompt: Seq<char>) -> Seq<
    Seq<char>,
> {
    chat_body_pieces(model, max_tokens, None, seq![(Role::User, prompt)])
}

impl<'a> LlmProvider for OpenRouter<'a> {
    open spec fn host_text(&self) -> Seq<char> {
        "openrouter.ai"@
    }

    open spec fn path_text(&self) -> Seq<char> {
        "/api/v1/chat/completions"@
    }

    open spec fn body_pieces(&self, prompt: Seq<char>) -> Seq<Seq<char>> {
        openrouter_body_pieces(self.model@, self.max_tokens, prompt)
    }

    open spec fn delta_outcome(&self, data: Seq<char>, old: Seq<char>) -> (Seq<char>, bool) {
        openai_delta_outcome(data, old, DELTA_BUF as nat)
    }

    fn host(&self) -> (r: &str) {
        "openrouter.ai"
    }

    fn path(&self) -> (r: &str) {
        "/api/v1/chat/completions"
    }

    fn build_body<const N: usize>(&self, prompt: &str, out: &mut BoundedString<N>) -> (r: Result<
        (),
        (),
    >) {
        let turns = [(Role::User, prompt)];
        proof {
            assert(turns_view(turns@) =~= seq![(Role::User, prompt@)]);
        }
        self.build_chat_body(None, &turns, out)
    }

    fn extract_delta(&self, data_json: &str, out: &mut BoundedString<DELTA_BUF>) -> (ok: bool) {
        extract_openai_delta(data_json, out)
    }
}

} // verus!
