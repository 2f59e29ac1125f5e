//! The chat surface: how an agent's session is shown — its transcript, its
//! title, its token usage, its row in the session list — and the model a
//! stored session was last using.

use vstd::prelude::*;
use crate::error::StudioError;
use crate::json::{lemma_entries_view_ext, Json, JsonV};
use crate::sort::{sort_newest_first, stamped_view, time_sort};
use crate::text::{
    chars_of, has_prefix, is_empty_str, owned, push_char, push_str, starts_with, str_eq,
    string_of_range, trim, trim_str,
};

verus! {

broadcast use vstd::std_specs::vec::group_vec_axioms;

// ---------------------------------------------------------------------------
// The session vocabulary the projections read
// ---------------------------------------------------------------------------

/// A conversation role.
#[derive(Clone, Copy, PartialEq, Eq, Structural)]
pub enum Role {
    System,
    User,
    Assistant,
}

/// One typed content block of a message.
pub enum ContentBlock {
    /// Visible model output.
    Text(String),
    /// Reasoning, distinct from visible text.
    Reasoning(String),
    /// A model-requested tool invocation; `arguments` is the raw JSON text.
    ToolCall { id: String, name: String, arguments: String },
    /// A tool call's result, delivered back to the model.
    ToolResult { tool_call_id: String, content: Vec<ContentBlock>, is_error: Option<bool> },
}

/// One message of a session.
pub struct Message {
    pub role: Role,
    pub content: Vec<ContentBlock>,
}

/// Per-call token accounting, as a provider reported it.
#[derive(Clone, Copy)]
pub struct TokenUsage {
    pub input_tokens: u64,
    pub output_tokens: u64,
    pub cache_read_tokens: Option<u64>,
    pub cache_write_tokens: Option<u64>,
    pub reasoning_tokens: Option<u64>,
}

/// The model configuration a turn was requested with.
pub struct AgentOptions {
    pub provider: String,
    pub model: String,
    pub max_tokens: Option<u32>,
}

/// What a session event says, as far as the projections care.
pub enum SessionEventData {
    /// An assistant message, with the usage its call reported, if any.
    AssistantMessage { usage: Option<TokenUsage> },
    /// A turn's request header, carrying its model configuration.
    RequestHeader { config: AgentOptions },
    /// The model requested the tool call `call_id`.
    ToolCall { call_id: String },
    /// A tool call's result came back to the model, carried in `message`.
    ToolResult { message: Message },
    /// Any other event.
    Other,
}

/// One session event and when it happened (milliseconds).
pub struct SessionEvent {
    pub time: u64,
    pub data: SessionEventData,
}

/// A content block as plain values; a tool result is seen through the
/// text of its inner blocks.
pub enum BlockV {
    Text(Seq<char>),
    Reasoning(Seq<char>),
    ToolCall(Seq<char>, Seq<char>, Seq<char>),
    ToolResult(Seq<char>, Seq<char>, Option<bool>),
}

/// The text of the text blocks among `bs`, concatenated.
pub open spec fn inner_text(bs: Seq<ContentBlock>) -> Seq<char>
    decreases bs.len(),
{
    if bs.len() == 0 {
        Seq::empty()
    } else {
        inner_text(bs.drop_last()) + match bs.last() {
            ContentBlock::Text(t) => t@,
            _ => Seq::empty(),
        }
    }
}

impl ContentBlock {
    pub open spec fn view(&self) -> BlockV {
        match self {
            ContentBlock::Text(t) => BlockV::Text(t@),
            ContentBlock::Reasoning(t) => BlockV::Reasoning(t@),
            ContentBlock::ToolCall { id, name, arguments } => BlockV::ToolCall(
                id@,
                name@,
                arguments@,
            ),
            ContentBlock::ToolResult { tool_call_id, content, is_error } => BlockV::ToolResult(
                tool_call_id@,
                inner_text(content@),
                *is_error,
            ),
        }
    }
}

/// The views of a message's blocks.
pub open spec fn blocks_view(bs: Seq<ContentBlock>) -> Seq<BlockV> {
    bs.map_values(|b: ContentBlock| b.view())
}

// ---------------------------------------------------------------------------
// Transcript
// ---------------------------------------------------------------------------

/// A tool call as the transcript shows it.
pub struct ChatToolCall {
    pub id: String,
    pub name: String,
    /// Raw JSON string as the model produced it.
    pub arguments: String,
    /// When the model requested it: the time of its `tool/call` event.
    pub started_at: Option<u64>,
}

/// A tool result as the transcript shows it.
pub struct ChatToolResult {
    pub tool_call_id: String,
    pub content: String,
    pub is_error: bool,
    /// When the result came back: the time of its `tool/result` event.
    pub finished_at: Option<u64>,
}

/// One message in a chat transcript.
pub struct ChatMessage {
    /// `user` | `assistant` | `system`.
    pub role: String,
    /// Visible text (concatenated text blocks).
    pub text: String,
    /// Reasoning blocks, kept separate so the UI can collapse them.
    pub reasoning: String,
    /// Tool calls the assistant requested.
    pub tool_calls: Vec<ChatToolCall>,
    /// Tool results delivered back to the model.
    pub tool_results: Vec<ChatToolResult>,
}

/// A transcript message as plain values.
pub struct ChatMessageV {
    pub role: Seq<char>,
    pub text: Seq<char>,
    pub reasoning: Seq<char>,
    pub tool_calls: Seq<(Seq<char>, Seq<char>, Seq<char>, Option<u64>)>,
    pub tool_results: Seq<(Seq<char>, Seq<char>, bool, Option<u64>)>,
}

impl ChatMessage {
    pub open spec fn view(&self) -> ChatMessageV {
        ChatMessageV {
            role: self.role@,
            text: self.text@,
            reasoning: self.reasoning@,
            tool_calls: self.tool_calls@.map_values(|c: ChatToolCall| call_view(c)),
            tool_results: self.tool_results@.map_values(|r: ChatToolResult| result_view(r)),
        }
    }
}

pub open spec fn call_view(c: ChatToolCall) -> (Seq<char>, Seq<char>, Seq<char>, Option<u64>) {
    (c.id@, c.name@, c.arguments@, c.started_at)
}

pub open spec fn result_view(r: ChatToolResult) -> (Seq<char>, Seq<char>, bool, Option<u64>) {
    (r.tool_call_id@, r.content@, r.is_error, r.finished_at)
}

// ---------------------------------------------------------------------------
// Event times of tool calls and results
// ---------------------------------------------------------------------------

/// The first position in `es` where `p` holds.
pub open spec fn first_where(es: Seq<SessionEvent>, p: spec_fn(SessionEvent) -> bool) -> Option<int>
    decreases es.len(),
{
    if es.len() == 0 {
        None
    } else {
        match first_where(es.drop_last(), p) {
            Some(i) => Some(i),
            None => if p(es.last()) {
                Some(es.len() - 1)
            } else {
                None
            },
        }
    }
}

/// `bs` holds a result for the tool call `id`.
pub open spec fn answers(bs: Seq<BlockV>, id: Seq<char>) -> bool
    decreases bs.len(),
{
    if bs.len() == 0 {
        false
    } else {
        (match bs.last() {
            BlockV::ToolResult(t, _, _) => t == id,
            _ => false,
        }) || answers(bs.drop_last(), id)
    }
}

/// The event requesting the tool call `id`.
pub open spec fn is_call_of(id: Seq<char>) -> spec_fn(SessionEvent) -> bool {
    |e: SessionEvent|
        match e.data {
            SessionEventData::ToolCall { call_id } => call_id@ == id,
            _ => false,
        }
}

/// An event delivering the result of the tool call `id`.
pub open spec fn is_result_of(id: Seq<char>) -> spec_fn(SessionEvent) -> bool {
    |e: SessionEvent|
        match e.data {
            SessionEventData::ToolResult { message } => answers(blocks_view(message.content@), id),
            _ => false,
        }
}

/// The time of the event found at `i`, if one was.
pub open spec fn time_at(es: Seq<SessionEvent>, i: Option<int>) -> Option<u64> {
    match i {
        Some(k) => Some(es[k].time),
        None => None,
    }
}

/// When the tool call `id` was requested: its first `tool/call` event.
pub open spec fn call_time(es: Seq<SessionEvent>, id: Seq<char>) -> Option<u64> {
    time_at(es, first_where(es, is_call_of(id)))
}

/// When the result of the tool call `id` came back: the first `tool/result`
/// event carrying it.
pub open spec fn result_time(es: Seq<SessionEvent>, id: Seq<char>) -> Option<u64> {
    time_at(es, first_where(es, is_result_of(id)))
}

proof fn lemma_first_where_bounds(es: Seq<SessionEvent>, p: spec_fn(SessionEvent) -> bool)
    ensures
        first_where(es, p) matches Some(i) ==> 0 <= i < es.len() && p(es[i]),
    decreases es.len(),
{
    if es.len() > 0 {
        lemma_first_where_bounds(es.drop_last(), p);
    }
}

proof fn lemma_first_where_prefix(es: Seq<SessionEvent>, p: spec_fn(SessionEvent) -> bool, n: int)
    requires
        0 <= n <= es.len(),
        first_where(es.take(n), p) is Some,
    ensures
        first_where(es, p) == first_where(es.take(n), p),
    decreases es.len(),
{
    if n < es.len() {
        assert(es.drop_last().take(n) =~= es.take(n));
        lemma_first_where_prefix(es.drop_last(), p, n);
    } else {
        assert(es.take(n) =~= es);
    }
}

/// With event times in log order, a tool call's result is stamped no earlier
/// than the call, whenever its result event follows its call event.
pub proof fn lemma_result_not_before_call(es: Seq<SessionEvent>, id: Seq<char>)
    requires
        forall|i: int, j: int| 0 <= i <= j < es.len() ==> #[trigger] es[i].time <= #[trigger] es[j].time,
        first_where(es, is_call_of(id)) matches Some(i) && first_where(es, is_result_of(id)) matches Some(j)
            && i <= j,
    ensures
        call_time(es, id) matches Some(a) && result_time(es, id) matches Some(b) && a <= b,
{
    lemma_first_where_bounds(es, is_call_of(id));
    lemma_first_where_bounds(es, is_result_of(id));
}

fn answers_of(bs: &Vec<ContentBlock>, id: &str) -> (b: bool)
    ensures
        b == answers(blocks_view(bs@), id@),
{
    let ghost bv = blocks_view(bs@);
    let mut found = false;
    let mut i: usize = 0;
    while i < bs.len()
        invariant
            i <= bs.len(),
            bv == blocks_view(bs@),
            found == answers(bv.take(i as int), id@),
        decreases bs.len() - i,
    {
        assert(bv.take(i + 1).drop_last() =~= bv.take(i as int));
        assert(bv.take(i + 1).last() == bs@[i as int].view());
        match &bs[i] {
            ContentBlock::ToolResult { tool_call_id, .. } => {
                if str_eq(tool_call_id.as_str(), id) {
                    found = true;
                }
            },
            _ => {},
        }
        i += 1;
    }
    assert(bv.take(i as int) =~= bv);
    found
}

fn is_call_exec(e: &SessionEvent, id: &str) -> (b: bool)
    ensures
        b == is_call_of(id@)(*e),
{
    match &e.data {
        SessionEventData::ToolCall { call_id } => str_eq(call_id.as_str(), id),
        _ => false,
    }
}

fn is_result_exec(e: &SessionEvent, id: &str) -> (b: bool)
    ensures
        b == is_result_of(id@)(*e),
{
    match &e.data {
        SessionEventData::ToolResult { message } => answers_of(&message.content, id),
        _ => false,
    }
}

/// When the tool call `id` was requested, by the session's events.
pub fn call_time_of(events: &Vec<SessionEvent>, id: &str) -> (r: Option<u64>)
    ensures
        r == call_time(events@, id@),
{
    let ghost p = is_call_of(id@);
    let mut i: usize = 0;
    while i < events.len()
        invariant
            i <= events.len(),
            p == is_call_of(id@),
            first_where(events@.take(i as int), p) is None,
        decreases events.len() - i,
    {
        assert(events@.take(i + 1).drop_last() =~= events@.take(i as int));
        assert(events@.take(i + 1).last() == events@[i as int]);
        if is_call_exec(&events[i], id) {
            proof {
                lemma_first_where_prefix(events@, p, i + 1);
            }
            return Some(events[i].time);
        }
        i += 1;
    }
    assert(events@.take(i as int) =~= events@);
    None
}

/// When the result of the tool call `id` came back, by the session's events.
pub fn result_time_of(events: &Vec<SessionEvent>, id: &str) -> (r: Option<u64>)
    ensures
        r == result_time(events@, id@),
{
    let ghost p = is_result_of(id@);
    let mut i: usize = 0;
    while i < events.len()
        invariant
            i <= events.len(),
            p == is_result_of(id@),
            first_where(events@.take(i as int), p) is None,
        decreases events.len() - i,
    {
        assert(events@.take(i + 1).drop_last() =~= events@.take(i as int));
        assert(events@.take(i + 1).last() == events@[i as int]);
        if is_result_exec(&events[i], id) {
            proof {
                lemma_first_where_prefix(events@, p, i + 1);
            }
            return Some(events[i].time);
        }
        i += 1;
    }
    assert(events@.take(i as int) =~= events@);
    None
}

pub open spec fn role_name(r: Role) -> Seq<char> {
    match r {
        Role::User => "user"@,
        Role::Assistant => "assistant"@,
        Role::System => "system"@,
    }
}

/// The visible text of a message: its text blocks, concatenated.
pub open spec fn msg_text(bs: Seq<BlockV>) -> Seq<char>
    decreases bs.len(),
{
    if bs.len() == 0 {
        Seq::empty()
    } else {
        msg_text(bs.drop_last()) + match bs.last() {
            BlockV::Text(t) => t,
            _ => Seq::empty(),
        }
    }
}

/// The reasoning of a message: its reasoning blocks, concatenated.
pub open spec fn msg_reasoning(bs: Seq<BlockV>) -> Seq<char>
    decreases bs.len(),
{
    if bs.len() == 0 {
        Seq::empty()
    } else {
        msg_reasoning(bs.drop_last()) + match bs.last() {
            BlockV::Reasoning(t) => t,
            _ => Seq::empty(),
        }
    }
}

/// The tool calls of a message, in order, each with when it was requested.
pub open spec fn msg_calls(bs: Seq<BlockV>, es: Seq<SessionEvent>) -> Seq<(Seq<char>, Seq<char>, Seq<char>, Option<u64>)>
    decreases bs.len(),
{
    if bs.len() == 0 {
        Seq::empty()
    } else {
        match bs.last() {
            BlockV::ToolCall(id, name, args) => msg_calls(bs.drop_last(), es).push(
                (id, name, args, call_time(es, id)),
            ),
            _ => msg_calls(bs.drop_last(), es),
        }
    }
}

/// The tool results of a message, in order, each with when it came back;
/// an unreported error flag reads as no error.
pub open spec fn msg_results(bs: Seq<BlockV>, es: Seq<SessionEvent>) -> Seq<(Seq<char>, Seq<char>, bool, Option<u64>)>
    decreases bs.len(),
{
    if bs.len() == 0 {
        Seq::empty()
    } else {
        match bs.last() {
            BlockV::ToolResult(id, content, err) => msg_results(bs.drop_last(), es).push(
                (
                    id,
                    content,
                    match err {
                        Some(e) => e,
                        None => false,
                    },
                    result_time(es, id),
                ),
            ),
            _ => msg_results(bs.drop_last(), es),
        }
    }
}

/// A session message as the transcript shows it, its tool calls and results
/// stamped from the session's events `es`.
pub open spec fn chat_message(role: Role, bs: Seq<BlockV>, es: Seq<SessionEvent>) -> ChatMessageV {
    ChatMessageV {
        role: role_name(role),
        text: msg_text(bs),
        reasoning: msg_reasoning(bs),
        tool_calls: msg_calls(bs, es),
        tool_results: msg_results(bs, es),
    }
}

fn role_text(r: Role) -> (s: String)
    ensures
        s@ == role_name(r),
{
    match r {
        Role::User => owned("user"),
        Role::Assistant => owned("assistant"),
        Role::System => owned("system"),
    }
}

fn inner_text_of(bs: &Vec<ContentBlock>) -> (s: String)
    ensures
        s@ == inner_text(bs@),
{
    let mut s = String::new();
    let mut i: usize = 0;
    while i < bs.len()
        invariant
            i <= bs.len(),
            s@ == inner_text(bs@.take(i as int)),
        decreases bs.len() - i,
    {
        assert(bs@.take(i + 1).drop_last() =~= bs@.take(i as int));
        assert(bs@.take(i + 1).last() == bs@[i as int]);
        match &bs[i] {
            ContentBlock::Text(t) => push_str(&mut s, t.as_str()),
            _ => {
                assert(s@ + Seq::<char>::empty() =~= s@);
            },
        }
        i += 1;
    }
    assert(bs@.take(i as int) =~= bs@);
    s
}

/// A session message as the transcript shows it (`chat_message`), its tool
/// calls and results stamped from the session's `events`.
pub fn chat_message_of(m: &Message, events: &Vec<SessionEvent>) -> (r: ChatMessage)
    ensures
        r.view() == chat_message(m.role, blocks_view(m.content@), events@),
{
    let ghost es = events@;
    let ghost bv = blocks_view(m.content@);
    let mut text = String::new();
    let mut reasoning = String::new();
    let mut tool_calls: Vec<ChatToolCall> = Vec::new();
    let mut tool_results: Vec<ChatToolResult> = Vec::new();
    let mut i: usize = 0;
    while i < m.content.len()
        invariant
            i <= m.content.len(),
            bv == blocks_view(m.content@),
            text@ == msg_text(bv.take(i as int)),
            reasoning@ == msg_reasoning(bv.take(i as int)),
            es == events@,
            tool_calls@.map_values(|c: ChatToolCall| call_view(c)) == msg_calls(bv.take(i as int), es),
            tool_results@.map_values(|r: ChatToolResult| result_view(r)) == msg_results(
                bv.take(i as int),
                es,
            ),
        decreases m.content.len() - i,
    {
        assert(bv.take(i + 1).drop_last() =~= bv.take(i as int));
        assert(bv.take(i + 1).last() == m.content@[i as int].view());
        let ghost (c0, r0) = (tool_calls@, tool_results@);
        match &m.content[i] {
            ContentBlock::Text(t) => {
                push_str(&mut text, t.as_str());
                assert(reasoning@ + Seq::<char>::empty() =~= reasoning@);
            },
            ContentBlock::Reasoning(t) => {
                push_str(&mut reasoning, t.as_str());
                assert(text@ + Seq::<char>::empty() =~= text@);
            },
            ContentBlock::ToolCall { id, name, arguments } => {
                let started_at = call_time_of(events, id.as_str());
                tool_calls.push(
                    ChatToolCall { id: id.clone(), name: name.clone(), arguments: arguments.clone(), started_at },
                );
                assert(text@ + Seq::<char>::empty() =~= text@);
                assert(reasoning@ + Seq::<char>::empty() =~= reasoning@);
                assert(tool_calls@.map_values(|c: ChatToolCall| call_view(c)) =~= c0.map_values(
                    |c: ChatToolCall| call_view(c),
                ).push((id@, name@, arguments@, call_time(es, id@))));
            },
            ContentBlock::ToolResult { tool_call_id, content, is_error } => {
                let inner = inner_text_of(content);
                let err = match is_error {
                    Some(e) => *e,
                    None => false,
                };
                let finished_at = result_time_of(events, tool_call_id.as_str());
                tool_results.push(
                    ChatToolResult {
                        tool_call_id: tool_call_id.clone(),
                        content: inner,
                        is_error: err,
                        finished_at,
                    },
                );
                assert(text@ + Seq::<char>::empty() =~= text@);
                assert(reasoning@ + Seq::<char>::empty() =~= reasoning@);
                assert(tool_results@.map_values(|r: ChatToolResult| result_view(r)) =~= r0.map_values(
                    |r: ChatToolResult| result_view(r),
                ).push((tool_call_id@, inner_text(content@), err, result_time(es, tool_call_id@))));
            },
        }
        i += 1;
    }
    assert(bv.take(i as int) =~= bv);
    ChatMessage { role: role_text(m.role), text, reasoning, tool_calls, tool_results }
}

/// The views of a transcript.
pub open spec fn transcript_views(ms: Seq<ChatMessage>) -> Seq<ChatMessageV> {
    ms.map_values(|m: ChatMessage| m.view())
}

/// A session's messages as plain values: role and blocks.
pub open spec fn messages_view(ms: Seq<Message>) -> Seq<(Role, Seq<BlockV>)> {
    ms.map_values(|m: Message| (m.role, blocks_view(m.content@)))
}

/// The transcript of a session (`Studio::transcript`): its messages, the
/// tool calls and results stamped from the session's `events`.
pub fn transcript_of(ms: &Vec<Message>, events: &Vec<SessionEvent>) -> (r: Vec<ChatMessage>)
    ensures
        transcript_views(r@) == messages_view(ms@).map_values(
            |m: (Role, Seq<BlockV>)| chat_message(m.0, m.1, events@),
        ),
{
    let mut out: Vec<ChatMessage> = Vec::new();
    let mut i: usize = 0;
    while i < ms.len()
        invariant
            i <= ms.len(),
            out@.len() == i,
            forall|j: int|
                0 <= j < i ==> (#[trigger] out@[j]).view() == chat_message(
                    ms@[j].role,
                    blocks_view(ms@[j].content@),
                    events@,
                ),
        decreases ms.len() - i,
    {
        out.push(chat_message_of(&ms[i], events));
        i += 1;
    }
    assert(transcript_views(out@) =~= messages_view(ms@).map_values(
        |m: (Role, Seq<BlockV>)| chat_message(m.0, m.1, events@),
    ));
    out
}

// ---------------------------------------------------------------------------
// Title
// ---------------------------------------------------------------------------

/// The longest title kept, in characters.
pub open spec fn title_max() -> nat {
    60
}

/// The first user message, if any.
pub open spec fn first_user(ms: Seq<(Role, Seq<BlockV>)>) -> Option<Seq<BlockV>>
    decreases ms.len(),
{
    if ms.len() == 0 {
        None
    } else if ms[0].0 == Role::User {
        Some(ms[0].1)
    } else {
        first_user(ms.drop_first())
    }
}

/// A message's text blocks, each trimmed, joined by single spaces.
pub open spec fn joined_text(bs: Seq<BlockV>) -> Seq<char>
    decreases bs.len(),
{
    if bs.len() == 0 {
        Seq::empty()
    } else {
        let acc = joined_text(bs.drop_last());
        match bs.last() {
            BlockV::Text(t) => if acc.len() > 0 {
                acc + seq![' '] + trim(t)
            } else {
                acc + trim(t)
            },
            _ => acc,
        }
    }
}

/// A readable label for a session: its first user message, trimmed, cut to
/// 60 characters (not bytes) with an ellipsis; empty before the first one.
pub open spec fn session_title(ms: Seq<(Role, Seq<BlockV>)>) -> Seq<char> {
    match first_user(ms) {
        None => Seq::empty(),
        Some(bs) => {
            let t = trim(joined_text(bs));
            if t.len() <= title_max() {
                t
            } else {
                t.take(title_max() as int).push('…')
            }
        },
    }
}

/// The label of a session (`session_title`).
pub fn session_title_of(ms: &Vec<Message>) -> (r: String)
    ensures
        r@ == session_title(messages_view(ms@)),
{
    let ghost mv = messages_view(ms@);
    assert(mv.skip(0) =~= mv);
    let mut i: usize = 0;
    while i < ms.len() && ms[i].role != Role::User
        invariant
            i <= ms.len(),
            mv == messages_view(ms@),
            first_user(mv) == first_user(mv.skip(i as int)),
        decreases ms.len() - i,
    {
        assert(mv.skip(i as int)[0] == mv[i as int]);
        assert(mv[i as int] == (ms@[i as int].role, blocks_view(ms@[i as int].content@)));
        assert(mv.skip(i as int).drop_first() =~= mv.skip(i + 1));
        i += 1;
    }
    if i == ms.len() {
        assert(mv.skip(i as int).len() == 0);
        return String::new();
    }
    assert(mv.skip(i as int)[0] == mv[i as int]);
    assert(mv[i as int] == (ms@[i as int].role, blocks_view(ms@[i as int].content@)));
    let first = &ms[i];
    let ghost bv = blocks_view(first.content@);
    let mut text = String::new();
    let mut k: usize = 0;
    while k < first.content.len()
        invariant
            k <= first.content.len(),
            bv == blocks_view(first.content@),
            text@ == joined_text(bv.take(k as int)),
        decreases first.content.len() - k,
    {
        assert(bv.take(k + 1).drop_last() =~= bv.take(k as int));
        assert(bv.take(k + 1).last() == first.content@[k as int].view());
        match &first.content[k] {
            ContentBlock::Text(t) => {
                if !is_empty_str(text.as_str()) {
                    push_char(&mut text, ' ');
                }
                let tt = trim_str(t.as_str());
                push_str(&mut text, tt.as_str());
            },
            _ => {},
        }
        k += 1;
    }
    assert(bv.take(k as int) =~= bv);
    let t = trim_str(text.as_str());
    let cs = chars_of(t.as_str());
    if cs.len() <= 60 {
        return t;
    }
    let mut out = string_of_range(&cs, 0, 60);
    push_char(&mut out, '…');
    assert(cs@.subrange(0, 60) =~= cs@.take(60));
    out
}

// ---------------------------------------------------------------------------
// Token usage
// ---------------------------------------------------------------------------

/// Cumulative per-session token accounting. An absent figure means "the
/// provider did not report this", which is not the same as zero.
#[derive(Clone, Copy, Debug, PartialEq, Eq, Structural)]
pub struct TokenUsageRow {
    pub input: u64,
    pub output: u64,
    pub cache_read: Option<u64>,
    pub cache_write: Option<u64>,
    pub reasoning: Option<u64>,
    /// How many assistant messages carried usage.
    pub calls: usize,
}

/// The usages the session's assistant messages carried, in order.
pub open spec fn usages(es: Seq<SessionEvent>) -> Seq<TokenUsage>
    decreases es.len(),
{
    if es.len() == 0 {
        Seq::empty()
    } else {
        match es.last().data {
            SessionEventData::AssistantMessage { usage: Some(u) } => usages(es.drop_last()).push(u),
            _ => usages(es.drop_last()),
        }
    }
}

pub open spec fn sum_input(us: Seq<TokenUsage>) -> nat
    decreases us.len(),
{
    if us.len() == 0 {
        0
    } else {
        (sum_input(us.drop_last()) + us.last().input_tokens) as nat
    }
}

pub open spec fn sum_output(us: Seq<TokenUsage>) -> nat
    decreases us.len(),
{
    if us.len() == 0 {
        0
    } else {
        (sum_output(us.drop_last()) + us.last().output_tokens) as nat
    }
}

/// The sum of an optional figure: present only when every call reported it.
pub open spec fn sum_opt(xs: Seq<Option<u64>>) -> Option<nat>
    decreases xs.len(),
{
    if xs.len() == 0 {
        Some(0)
    } else {
        match (sum_opt(xs.drop_last()), xs.last()) {
            (Some(a), Some(v)) => Some((a + v) as nat),
            _ => None,
        }
    }
}

pub open spec fn cache_reads(us: Seq<TokenUsage>) -> Seq<Option<u64>> {
    us.map_values(|u: TokenUsage| u.cache_read_tokens)
}

pub open spec fn cache_writes(us: Seq<TokenUsage>) -> Seq<Option<u64>> {
    us.map_values(|u: TokenUsage| u.cache_write_tokens)
}

pub open spec fn reasonings(us: Seq<TokenUsage>) -> Seq<Option<u64>> {
    us.map_values(|u: TokenUsage| u.reasoning_tokens)
}

/// The running sums of these usages fit a `u64`.
pub open spec fn sums_fit(us: Seq<TokenUsage>) -> bool {
    &&& sum_input(us) <= u64::MAX
    &&& sum_output(us) <= u64::MAX
    &&& (sum_opt(cache_reads(us)) matches Some(s) ==> s <= u64::MAX)
    &&& (sum_opt(cache_writes(us)) matches Some(s) ==> s <= u64::MAX)
    &&& (sum_opt(reasonings(us)) matches Some(s) ==> s <= u64::MAX)
}

/// Every running sum fits a `u64` (the accounting adds in `u64`).
pub open spec fn usage_fits(us: Seq<TokenUsage>) -> bool {
    forall|n: int| 0 <= n <= us.len() ==> #[trigger] sums_fit(us.take(n))
}

/// An optional sum as a `u64` field, absent when no call reported usage.
pub open spec fn opt_field(calls: nat, s: Option<nat>) -> Option<u64> {
    if calls == 0 {
        None
    } else {
        match s {
            Some(v) => Some(v as u64),
            None => None,
        }
    }
}

/// The row's figures equal the sums over the session's reported usage.
pub open spec fn usage_row_is(r: TokenUsageRow, es: Seq<SessionEvent>) -> bool {
    let us = usages(es);
    &&& r.calls == us.len()
    &&& r.input == sum_input(us)
    &&& r.output == sum_output(us)
    &&& r.cache_read == opt_field(us.len(), sum_opt(cache_reads(us)))
    &&& r.cache_write == opt_field(us.len(), sum_opt(cache_writes(us)))
    &&& r.reasoning == opt_field(us.len(), sum_opt(reasonings(us)))
}

fn add_opt(acc: Option<u64>, v: Option<u64>) -> (r: Option<u64>)
    requires
        acc is Some && v is Some ==> acc->0 + v->0 <= u64::MAX,
    ensures
        r == match (acc, v) {
            (Some(a), Some(x)) => Some((a + x) as u64),
            _ => None::<u64>,
        },
{
    match (acc, v) {
        (Some(a), Some(x)) => Some(a + x),
        _ => None,
    }
}

/// Cumulative token usage across a session's assistant messages.
pub fn session_usage_of(es: &Vec<SessionEvent>) -> (r: TokenUsageRow)
    requires
        usage_fits(usages(es@)),
    ensures
        usage_row_is(r, es@),
{
    let ghost all = usages(es@);
    let mut input: u64 = 0;
    let mut output: u64 = 0;
    let mut calls: usize = 0;
    let mut cache_read: Option<u64> = Some(0);
    let mut cache_write: Option<u64> = Some(0);
    let mut reasoning: Option<u64> = Some(0);
    let mut i: usize = 0;
    assert(es@.take(0) =~= Seq::<SessionEvent>::empty());
    assert(all.take(0) =~= Seq::<TokenUsage>::empty());
    assert(all.take(0) == usages(es@.take(0)));
    while i < es.len()
        invariant
            i <= es.len(),
            all == usages(es@),
            usage_fits(all),
            calls == usages(es@.take(i as int)).len(),
            calls <= i,
            input == sum_input(usages(es@.take(i as int))),
            output == sum_output(usages(es@.take(i as int))),
            sum_opt(cache_reads(usages(es@.take(i as int)))) == match cache_read {
                Some(v) => Some(v as nat),
                None => None::<nat>,
            },
            sum_opt(cache_writes(usages(es@.take(i as int)))) == match cache_write {
                Some(v) => Some(v as nat),
                None => None::<nat>,
            },
            sum_opt(reasonings(usages(es@.take(i as int)))) == match reasoning {
                Some(v) => Some(v as nat),
                None => None::<nat>,
            },
            exists|n: int|
                0 <= n <= all.len() && #[trigger] all.take(n) == usages(es@.take(i as int)),
        decreases es.len() - i,
    {
        let ghost pre = usages(es@.take(i as int));
        assert(es@.take(i + 1).drop_last() =~= es@.take(i as int));
        assert(es@.take(i + 1).last() == es@[i as int]);
        match &es[i].data {
            SessionEventData::AssistantMessage { usage: Some(u) } => {
                let ghost post = pre.push(*u);
                assert(usages(es@.take(i + 1)) == post);
                proof {
                    lemma_usages_prefix(es@, i + 1);
                    let n = choose|n: int| 0 <= n <= all.len() && #[trigger] all.take(n) == post;
                    assert(sums_fit(all.take(n)));
                    assert(post.drop_last() =~= pre);
                    assert(cache_reads(post).drop_last() =~= cache_reads(pre));
                    assert(cache_writes(post).drop_last() =~= cache_writes(pre));
                    assert(reasonings(post).drop_last() =~= reasonings(pre));
                }
                input = input + u.input_tokens;
                output = output + u.output_tokens;
                calls = calls + 1;
                cache_read = add_opt(cache_read, u.cache_read_tokens);
                cache_write = add_opt(cache_write, u.cache_write_tokens);
                reasoning = add_opt(reasoning, u.reasoning_tokens);
                proof {
                    lemma_usages_prefix(es@, i + 1);
                }
            },
            _ => {
                assert(usages(es@.take(i + 1)) == pre);
            },
        }
        i += 1;
    }
    assert(es@.take(i as int) =~= es@);
    if calls == 0 {
        cache_read = None;
        cache_write = None;
        reasoning = None;
    }
    TokenUsageRow { input, output, cache_read, cache_write, reasoning, calls }
}

/// An optional running figure after one more optional value: absent as soon
/// as any call left it out.
pub open spec fn plus_opt(acc: Option<u64>, v: Option<u64>) -> Option<int> {
    match (acc, v) {
        (Some(a), Some(x)) => Some(a + x),
        _ => None,
    }
}

/// The view of an optional `u64` as an optional integer.
pub open spec fn opt_int(v: Option<u64>) -> Option<int> {
    match v {
        Some(x) => Some(x as int),
        None => None,
    }
}

/// A session with no reported usage has a zero row with every optional
/// figure absent.
pub proof fn lemma_usage_row_unreported(r: TokenUsageRow, es: Seq<SessionEvent>)
    requires
        usages(es).len() == 0,
        usage_row_is(r, es),
    ensures
        r.calls == 0,
        r.input == 0,
        r.output == 0,
        r.cache_read is None,
        r.cache_write is None,
        r.reasoning is None,
{
    assert(usages(es) =~= Seq::<TokenUsage>::empty());
}

/// An event that carries no usage leaves the row as it was.
pub proof fn lemma_usage_row_other_event(r1: TokenUsageRow, r2: TokenUsageRow, es: Seq<SessionEvent>, e: SessionEvent)
    requires
        !(e.data is AssistantMessage && e.data->usage is Some),
        usage_row_is(r1, es),
        usage_row_is(r2, es.push(e)),
    ensures
        r2 == r1,
{
    assert(es.push(e).drop_last() =~= es);
    assert(usages(es.push(e)) == usages(es));
}

/// One more call that reported usage `u` adds one call, adds its input and
/// output tokens, and adds each optional figure it reported to that figure
/// alone: the first call's figures are its own, and a figure becomes absent
/// once any call leaves it out. No figure is taken from another.
pub proof fn lemma_usage_row_step(
    r1: TokenUsageRow,
    r2: TokenUsageRow,
    es: Seq<SessionEvent>,
    e: SessionEvent,
    u: TokenUsage,
)
    requires
        e.data == (SessionEventData::AssistantMessage { usage: Some(u) }),
        usage_fits(usages(es.push(e))),
        usage_row_is(r1, es),
        usage_row_is(r2, es.push(e)),
    ensures
        r2.calls == r1.calls + 1,
        r2.input == r1.input + u.input_tokens,
        r2.output == r1.output + u.output_tokens,
        r1.calls == 0 ==> r2.cache_read == u.cache_read_tokens && r2.cache_write == u.cache_write_tokens
            && r2.reasoning == u.reasoning_tokens,
        r1.calls > 0 ==> opt_int(r2.cache_read) == plus_opt(r1.cache_read, u.cache_read_tokens)
            && opt_int(r2.cache_write) == plus_opt(r1.cache_write, u.cache_write_tokens) && opt_int(r2.reasoning)
            == plus_opt(r1.reasoning, u.reasoning_tokens),
{
    let us = usages(es);
    assert(es.push(e).drop_last() =~= es);
    assert(es.push(e).last() == e);
    let post = us.push(u);
    assert(usages(es.push(e)) == post);
    assert(post.drop_last() =~= us);
    assert(cache_reads(post).drop_last() =~= cache_reads(us));
    assert(cache_writes(post).drop_last() =~= cache_writes(us));
    assert(reasonings(post).drop_last() =~= reasonings(us));
    assert(cache_reads(post).last() == u.cache_read_tokens);
    assert(cache_writes(post).last() == u.cache_write_tokens);
    assert(reasonings(post).last() == u.reasoning_tokens);
    assert(post.take(us.len() as int) =~= us);
    assert(post.take(post.len() as int) =~= post);
    assert(sums_fit(post.take(us.len() as int)));
    assert(sums_fit(post.take(post.len() as int)));
    if us.len() == 0 {
        assert(cache_reads(us) =~= Seq::<Option<u64>>::empty());
        assert(cache_writes(us) =~= Seq::<Option<u64>>::empty());
        assert(reasonings(us) =~= Seq::<Option<u64>>::empty());
    }
}

/// An optional running sum with one more optional value, or `None` where
/// the two present values overflow a `u64`.
fn add_opt_checked(acc: Option<u64>, v: Option<u64>) -> (r: (bool, Option<u64>))
    ensures
        r.0 == !(acc is Some && v is Some && acc->0 + v->0 > u64::MAX),
        r.0 ==> r.1 == match (acc, v) {
            (Some(a), Some(x)) => Some((a + x) as u64),
            _ => None::<u64>,
        },
{
    match (acc, v) {
        (Some(a), Some(x)) => match a.checked_add(x) {
            Some(t) => (true, Some(t)),
            None => (false, None),
        },
        _ => (true, None),
    }
}

/// Whether every running sum of a session's reported usage fits a `u64`:
/// the condition `session_usage_of` and the rows built on it need.
pub fn usage_fits_of(es: &Vec<SessionEvent>) -> (b: bool)
    ensures
        b == usage_fits(usages(es@)),
{
    let ghost all = usages(es@);
    let mut input: u64 = 0;
    let mut output: u64 = 0;
    let mut cache_read: Option<u64> = Some(0);
    let mut cache_write: Option<u64> = Some(0);
    let mut reasoning: Option<u64> = Some(0);
    let mut i: usize = 0;
    assert(es@.take(0) =~= Seq::<SessionEvent>::empty());
    proof {
        let e = usages(es@.take(0));
        assert forall|n: int| 0 <= n <= e.len() implies #[trigger] sums_fit(e.take(n)) by {
            assert(e.take(n) =~= Seq::<TokenUsage>::empty());
        }
    }
    while i < es.len()
        invariant
            i <= es.len(),
            all == usages(es@),
            input == sum_input(usages(es@.take(i as int))),
            output == sum_output(usages(es@.take(i as int))),
            sum_opt(cache_reads(usages(es@.take(i as int)))) == match cache_read {
                Some(v) => Some(v as nat),
                None => None::<nat>,
            },
            sum_opt(cache_writes(usages(es@.take(i as int)))) == match cache_write {
                Some(v) => Some(v as nat),
                None => None::<nat>,
            },
            sum_opt(reasonings(usages(es@.take(i as int)))) == match reasoning {
                Some(v) => Some(v as nat),
                None => None::<nat>,
            },
            forall|n: int|
                0 <= n <= usages(es@.take(i as int)).len() ==> #[trigger] sums_fit(
                    usages(es@.take(i as int)).take(n),
                ),
        decreases es.len() - i,
    {
        let ghost pre = usages(es@.take(i as int));
        assert(es@.take(i + 1).drop_last() =~= es@.take(i as int));
        assert(es@.take(i + 1).last() == es@[i as int]);
        match &es[i].data {
            SessionEventData::AssistantMessage { usage: Some(u) } => {
                let ghost post = pre.push(*u);
                assert(usages(es@.take(i + 1)) == post);
                assert(post.drop_last() =~= pre);
                assert(cache_reads(post).drop_last() =~= cache_reads(pre));
                assert(cache_writes(post).drop_last() =~= cache_writes(pre));
                assert(reasonings(post).drop_last() =~= reasonings(pre));
                let ni = input.checked_add(u.input_tokens);
                let no = output.checked_add(u.output_tokens);
                let (okr, cr) = add_opt_checked(cache_read, u.cache_read_tokens);
                let (okw, cw) = add_opt_checked(cache_write, u.cache_write_tokens);
                let (okz, cz) = add_opt_checked(reasoning, u.reasoning_tokens);
                if ni.is_none() || no.is_none() || !okr || !okw || !okz {
                    proof {
                        assert(!sums_fit(post));
                        lemma_usages_prefix(es@, i + 1);
                        let n = choose|n: int| 0 <= n <= all.len() && #[trigger] all.take(n) == post;
                        assert(!sums_fit(all.take(n)));
                    }
                    return false;
                }
                input = ni.unwrap();
                output = no.unwrap();
                cache_read = cr;
                cache_write = cw;
                reasoning = cz;
                proof {
                    assert(sums_fit(post));
                    assert forall|n: int| 0 <= n <= post.len() implies #[trigger] sums_fit(post.take(n)) by {
                        if n < post.len() {
                            assert(post.take(n) =~= pre.take(n));
                        } else {
                            assert(post.take(n) =~= post);
                        }
                    }
                }
            },
            _ => {
                assert(usages(es@.take(i + 1)) == pre);
            },
        }
        i += 1;
    }
    assert(es@.take(i as int) =~= es@);
    true
}

/// The usages of a prefix are a prefix of the usages.
proof fn lemma_usages_prefix(es: Seq<SessionEvent>, i: int)
    requires
        0 <= i <= es.len(),
    ensures
        exists|n: int| 0 <= n <= usages(es).len() && #[trigger] usages(es).take(n) == usages(es.take(i)),
    decreases es.len() - i,
{
    if i == es.len() {
        assert(es.take(i) =~= es);
        assert(usages(es).take(usages(es).len() as int) =~= usages(es));
    } else {
        lemma_usages_prefix(es.drop_last(), i);
        assert(es.drop_last().take(i) =~= es.take(i));
        let n = choose|n: int|
            0 <= n <= usages(es.drop_last()).len() && #[trigger] usages(es.drop_last()).take(n)
                == usages(es.drop_last().take(i));
        assert(usages(es).take(n) =~= usages(es.drop_last()).take(n));
    }
}

// ---------------------------------------------------------------------------
// Resuming: the model a session was last using
// ---------------------------------------------------------------------------

/// The model configuration of the last request header, if any.
pub open spec fn last_header(es: Seq<SessionEvent>) -> Option<(Seq<char>, Seq<char>, Option<u32>)>
    decreases es.len(),
{
    if es.len() == 0 {
        None
    } else {
        match es.last().data {
            SessionEventData::RequestHeader { config } => Some(
                (config.provider@, config.model@, config.max_tokens),
            ),
            _ => last_header(es.drop_last()),
        }
    }
}

/// The model a resumed session runs on: the one its log last requested, or
/// the mock route when the log says nothing.
pub open spec fn resume_options(es: Seq<SessionEvent>) -> (Seq<char>, Seq<char>, Option<u32>) {
    match last_header(es) {
        Some(h) => h,
        None => ("mock"@, "mock-1"@, None),
    }
}

/// The model a stored session was last using (`last_request_options`).
pub fn last_request_options(es: &Vec<SessionEvent>) -> (r: AgentOptions)
    ensures
        (r.provider@, r.model@, r.max_tokens) == resume_options(es@),
{
    let mut i: usize = es.len();
    assert(es@.take(es.len() as int) =~= es@);
    while i > 0
        invariant
            i <= es.len(),
            last_header(es@) == last_header(es@.take(i as int)),
        decreases i,
    {
        assert(es@.take(i as int).drop_last() =~= es@.take(i - 1));
        assert(es@.take(i as int).last() == es@[i - 1]);
        match &es[i - 1].data {
            SessionEventData::RequestHeader { config } => {
                return AgentOptions {
                    provider: config.provider.clone(),
                    model: config.model.clone(),
                    max_tokens: config.max_tokens,
                };
            },
            _ => {},
        }
        i -= 1;
    }
    assert(es@.take(0) =~= Seq::<SessionEvent>::empty());
    AgentOptions { provider: owned("mock"), model: owned("mock-1"), max_tokens: None }
}

/// How a resume request starts (`resume_session`).
#[derive(Clone, Copy, PartialEq, Eq, Structural, Debug)]
pub enum ResumeStart {
    /// A driver resumed earlier serves the session: hand back its id.
    AlreadyResumed,
    /// The session is live in the registry, created this run: the in-memory
    /// session is newer than its file, so nothing is seeded.
    AlreadyLive,
    /// Load the stored log and seed a new driver from it.
    LoadStored,
}

/// How resuming a session starts: an agent resumed earlier wins, then one
/// live in the registry, and only otherwise is the stored log read.
pub fn resume_start(already_resumed: bool, live: bool) -> (r: ResumeStart)
    ensures
        already_resumed ==> r == ResumeStart::AlreadyResumed,
        !already_resumed && live ==> r == ResumeStart::AlreadyLive,
        !already_resumed && !live ==> r == ResumeStart::LoadStored,
{
    if already_resumed {
        ResumeStart::AlreadyResumed
    } else if live {
        ResumeStart::AlreadyLive
    } else {
        ResumeStart::LoadStored
    }
}

/// Whether a stored session can be resumed, and on which model
/// (`resume_session`): a session with no events cannot; otherwise it keeps
/// the model its log last requested.
pub fn resume_plan(id: &str, events: &Vec<SessionEvent>) -> (r: Result<AgentOptions, StudioError>)
    ensures
        events@.len() == 0 <==> r is Err,
        r matches Err(e) ==> e matches StudioError::EmptySession(s) && s@ == id@,
        r matches Ok(o) ==> (o.provider@, o.model@, o.max_tokens) == resume_options(events@),
{
    if events.len() == 0 {
        Err(StudioError::EmptySession(owned(id)))
    } else {
        Ok(last_request_options(events))
    }
}

// ---------------------------------------------------------------------------
// Session rows
// ---------------------------------------------------------------------------

/// Whether an agent's driver is working on a turn.
#[derive(Clone, Copy, PartialEq, Eq, Structural)]
pub enum AgentStatus {
    Idle,
    Running,
}

/// One agent, live or stored, as the session list shows it.
pub struct AgentRow {
    pub id: String,
    /// `idle` | `running` | `stored`. `stored` means the session is on disk
    /// but has no driver behind it yet.
    pub status: String,
    /// Whether a driver is behind this row right now.
    pub live: bool,
    pub messages: usize,
    /// Number of session events: a rough activity meter.
    pub turns: usize,
    pub busy: bool,
    /// The first user message, truncated; empty before there is one.
    pub title: String,
    /// Cumulative token usage across the session.
    pub usage: TokenUsageRow,
    /// When the session last changed: its latest event's time; none before
    /// its first event.
    pub updated_at: Option<u64>,
}

pub struct AgentRowV {
    pub id: Seq<char>,
    pub status: Seq<char>,
    pub live: bool,
    pub messages: nat,
    pub turns: nat,
    pub busy: bool,
    pub title: Seq<char>,
    pub usage: TokenUsageRow,
    pub updated_at: Option<u64>,
}

impl AgentRow {
    /// A copy.
    pub fn duplicate(&self) -> (r: AgentRow)
        ensures
            r@ == self@,
    {
        AgentRow {
            id: self.id.clone(),
            status: self.status.clone(),
            live: self.live,
            messages: self.messages,
            turns: self.turns,
            busy: self.busy,
            title: self.title.clone(),
            usage: self.usage,
            updated_at: self.updated_at,
        }
    }
}

impl View for AgentRow {
    type V = AgentRowV;

    open spec fn view(&self) -> AgentRowV {
        AgentRowV {
            id: self.id@,
            status: self.status@,
            live: self.live,
            messages: self.messages as nat,
            turns: self.turns as nat,
            busy: self.busy,
            title: self.title@,
            usage: self.usage,
            updated_at: self.updated_at,
        }
    }
}

pub open spec fn status_name(s: AgentStatus) -> Seq<char> {
    match s {
        AgentStatus::Idle => "idle"@,
        AgentStatus::Running => "running"@,
    }
}

/// When a stored session was last used: its newest event's time, or 0.
pub open spec fn last_used(es: Seq<SessionEvent>) -> u64
    decreases es.len(),
{
    if es.len() == 0 {
        0
    } else {
        let t = last_used(es.drop_last());
        if es.last().time > t {
            es.last().time
        } else {
            t
        }
    }
}

/// When a session last changed: its newest event's time, none without
/// events.
pub open spec fn updated_at(es: Seq<SessionEvent>) -> Option<u64> {
    if es.len() == 0 {
        None
    } else {
        Some(last_used(es))
    }
}

/// The newest event time, computed.
fn last_used_of(events: &Vec<SessionEvent>) -> (r: u64)
    ensures
        r == last_used(events@),
{
    let mut last: u64 = 0;
    let mut i: usize = 0;
    while i < events.len()
        invariant
            i <= events.len(),
            last == last_used(events@.take(i as int)),
        decreases events.len() - i,
    {
        assert(events@.take(i + 1).drop_last() =~= events@.take(i as int));
        if events[i].time > last {
            last = events[i].time;
        }
        i += 1;
    }
    assert(events@.take(i as int) =~= events@);
    last
}

fn updated_at_of(events: &Vec<SessionEvent>) -> (r: Option<u64>)
    ensures
        r == updated_at(events@),
{
    if events.len() == 0 {
        None
    } else {
        Some(last_used_of(events))
    }
}

/// A session's row: its counts, title and usage, with the given status.
pub open spec fn row_is(
    r: AgentRowV,
    id: Seq<char>,
    status: Seq<char>,
    live: bool,
    busy: bool,
    ms: Seq<Message>,
    es: Seq<SessionEvent>,
) -> bool {
    &&& r.id == id
    &&& r.status == status
    &&& r.live == live
    &&& r.busy == busy
    &&& r.messages == ms.len()
    &&& r.turns == es.len()
    &&& r.title == session_title(messages_view(ms))
    &&& usage_row_is(r.usage, es)
    &&& r.updated_at == updated_at(es)
}

/// A live agent's row (`agent_row`).
pub fn live_row(
    id: &str,
    status: AgentStatus,
    busy: bool,
    messages: &Vec<Message>,
    events: &Vec<SessionEvent>,
) -> (r: AgentRow)
    requires
        usage_fits(usages(events@)),
    ensures
        row_is(r@, id@, status_name(status), true, busy, messages@, events@),
{
    let status = match status {
        AgentStatus::Idle => owned("idle"),
        AgentStatus::Running => owned("running"),
    };
    AgentRow {
        live: true,
        id: owned(id),
        status,
        messages: messages.len(),
        turns: events.len(),
        busy,
        title: session_title_of(messages),
        usage: session_usage_of(events),
        updated_at: updated_at_of(events),
    }
}

/// A stored session's row, stamped with when it was last used.
pub fn stored_row(id: String, messages: &Vec<Message>, events: &Vec<SessionEvent>) -> (r: (u64, AgentRow))
    requires
        usage_fits(usages(events@)),
    ensures
        r.0 == last_used(events@),
        row_is(r.1@, id@, "stored"@, false, false, messages@, events@),
{
    let last = last_used_of(events);
    let row = AgentRow {
        live: false,
        id,
        status: owned("stored"),
        messages: messages.len(),
        turns: events.len(),
        busy: false,
        title: session_title_of(messages),
        usage: session_usage_of(events),
        updated_at: updated_at_of(events),
    };
    (last, row)
}

/// The stored rows newest first, ties in the order the store listed them.
pub open spec fn stored_order(rows: Seq<(u64, AgentRowV)>) -> Seq<AgentRowV> {
    time_sort(rows).map_values(|p: (u64, AgentRowV)| p.1)
}

/// Order stored sessions' rows newest first (`scan_stored_sessions`).
pub fn stored_rows(stamped: Vec<(u64, AgentRow)>) -> (r: Vec<AgentRow>)
    ensures
        r@.map_values(|x: AgentRow| x@) == stored_order(stamped_view(stamped@)),
{
    let sorted = sort_newest_first(stamped);
    let ghost sv = stamped_view(sorted@);
    let mut out: Vec<AgentRow> = Vec::new();
    let mut rest = sorted;
    let ghost all = rest@;
    let n = rest.len();
    assert(all.len() == n);
    let mut m: usize = 0;
    while rest.len() > 0
        invariant
            m + rest.len() == all.len(),
            all.len() <= usize::MAX,
            rest@ == all.skip(m as int),
            sv == stamped_view(all),
            out@.map_values(|x: AgentRow| x@) == sv.take(m as int).map_values(
                |p: (u64, AgentRowV)| p.1,
            ),
        decreases rest.len(),
    {
        let pair = rest.remove(0);
        assert(pair == all[m as int]);
        assert(rest@ =~= all.skip(m + 1));
        assert(sv[m as int] == (pair.0, pair.1@));
        let ghost before = out@.map_values(|x: AgentRow| x@);
        let (_, row) = pair;
        let ghost rv = row@;
        out.push(row);
        assert(out@.map_values(|x: AgentRow| x@) =~= before.push(rv));
        assert(sv.take(m + 1) =~= sv.take(m as int).push(sv[m as int]));
        m += 1;
    }
    assert(sv.take(m as int) =~= sv);
    out
}

/// The ids of some rows.
pub open spec fn row_ids(rows: Seq<AgentRowV>) -> Seq<Seq<char>> {
    rows.map_values(|r: AgentRowV| r.id)
}

/// The session list: live rows first, then each stored row whose session is
/// not live, marked not live.
pub open spec fn merged_sessions(live: Seq<AgentRowV>, stored: Seq<AgentRowV>) -> Seq<AgentRowV>
    decreases stored.len(),
{
    if stored.len() == 0 {
        live
    } else {
        let r = merged_sessions(live, stored.drop_last());
        let x = stored.last();
        if row_ids(live).contains(x.id) {
            r
        } else {
            r.push(AgentRowV { live: false, ..x })
        }
    }
}

/// Every session the sidebar shows (`list_sessions`): live agents first,
/// then the stored sessions that are not live.
pub fn merge_sessions(live: Vec<AgentRow>, stored: Vec<AgentRow>) -> (r: Vec<AgentRow>)
    ensures
        r@.map_values(|x: AgentRow| x@) == merged_sessions(
            live@.map_values(|x: AgentRow| x@),
            stored@.map_values(|x: AgentRow| x@),
        ),
{
    let ghost lv = live@.map_values(|x: AgentRow| x@);
    let ghost sv = stored@.map_values(|x: AgentRow| x@);
    let mut ids: Vec<String> = Vec::new();
    let mut i: usize = 0;
    while i < live.len()
        invariant
            i <= live.len(),
            lv == live@.map_values(|x: AgentRow| x@),
            ids@.map_values(|s: String| s@) == row_ids(lv.take(i as int)),
        decreases live.len() - i,
    {
        let ghost before = ids@.map_values(|s: String| s@);
        ids.push(live[i].id.clone());
        assert(ids@.map_values(|s: String| s@) =~= before.push(lv[i as int].id));
        assert(lv.take(i + 1) =~= lv.take(i as int).push(lv[i as int]));
        assert(row_ids(lv.take(i + 1)) =~= row_ids(lv.take(i as int)).push(lv[i as int].id));
        i += 1;
    }
    assert(lv.take(i as int) =~= lv);
    let ghost idv = row_ids(lv);
    let mut out = live;
    let mut rest = stored;
    let ghost all = rest@;
    let n = rest.len();
    assert(all.len() == n);
    let mut k: usize = 0;
    assert(sv.take(0) =~= Seq::<AgentRowV>::empty());
    while rest.len() > 0
        invariant
            k + rest.len() == all.len(),
            all.len() <= usize::MAX,
            rest@ == all.skip(k as int),
            sv == all.map_values(|x: AgentRow| x@),
            idv == ids@.map_values(|s: String| s@),
            idv == row_ids(lv),
            out@.map_values(|x: AgentRow| x@) == merged_sessions(lv, sv.take(k as int)),
        decreases rest.len(),
    {
        let row = rest.remove(0);
        assert(row == all[k as int]);
        assert(rest@ =~= all.skip(k + 1));
        assert(sv.take(k + 1).drop_last() =~= sv.take(k as int));
        assert(sv.take(k + 1).last() == row@);
        let mut taken = false;
        let mut j: usize = 0;
        while j < ids.len()
            invariant
                j <= ids.len(),
                idv == ids@.map_values(|s: String| s@),
                taken == idv.take(j as int).contains(row.id@),
            decreases ids.len() - j,
        {
            assert(idv.take(j + 1) =~= idv.take(j as int).push(idv[j as int]));
            if str_eq(ids[j].as_str(), row.id.as_str()) {
                assert(idv.take(j + 1)[j as int] == row.id@);
                taken = true;
            }
            j += 1;
        }
        assert(idv.take(j as int) =~= idv);
        if !taken {
            let mut row = row;
            let ghost rv = row@;
            row.live = false;
            let ghost before = out@.map_values(|x: AgentRow| x@);
            out.push(row);
            assert(out@.map_values(|x: AgentRow| x@) =~= before.push(AgentRowV { live: false, ..rv }));
        }
        k += 1;
    }
    assert(sv.take(k as int) =~= sv);
    out
}

/// The stored row `x` as the list shows it: not live.
pub open spec fn shown_stored(x: AgentRowV) -> AgentRowV {
    AgentRowV { live: false, ..x }
}

proof fn lemma_merged_prefix(live: Seq<AgentRowV>, stored: Seq<AgentRowV>)
    ensures
        merged_sessions(live, stored).len() >= live.len(),
        merged_sessions(live, stored).take(live.len() as int) == live,
        forall|j: int|
            0 <= j < stored.len() && !row_ids(live).contains(stored[j].id) ==> merged_sessions(
                live,
                stored,
            ).contains(#[trigger] shown_stored(stored[j])),
        forall|k: int|
            live.len() <= k < merged_sessions(live, stored).len() ==> exists|j: int|
                0 <= j < stored.len() && !row_ids(live).contains(stored[j].id) && #[trigger] merged_sessions(
                    live,
                    stored,
                )[k] == shown_stored(stored[j]),
        merged_sessions(live, stored).len() == live.len() + stored.filter(
            |x: AgentRowV| !row_ids(live).contains(x.id),
        ).len(),
    decreases stored.len(),
{
    let m = merged_sessions(live, stored);
    let p = |x: AgentRowV| !row_ids(live).contains(x.id);
    reveal_with_fuel(Seq::<_>::filter, 1);
    if stored.len() == 0 {
        assert(live.take(live.len() as int) =~= live);
    } else {
        let d = stored.drop_last();
        let r = merged_sessions(live, d);
        lemma_merged_prefix(live, d);
        let x = stored.last();
        assert(stored.filter(p) == if p(x) { d.filter(p).push(x) } else { d.filter(p) });
        if !p(x) {
            assert(m == r);
        } else {
            assert(m == r.push(shown_stored(x)));
            assert(m.take(live.len() as int) =~= r.take(live.len() as int));
        }
        assert forall|j: int|
            0 <= j < stored.len() && !row_ids(live).contains(stored[j].id) implies m.contains(
            #[trigger] shown_stored(stored[j]),
        ) by {
            if j < d.len() {
                assert(d[j] == stored[j]);
                assert(r.contains(shown_stored(d[j])));
                let t = choose|t: int| 0 <= t < r.len() && r[t] == shown_stored(d[j]);
                assert(m[t] == r[t]);
            } else {
                assert(m[m.len() - 1] == shown_stored(x));
            }
        }
        assert forall|k: int| live.len() <= k < m.len() implies exists|j: int|
            0 <= j < stored.len() && !row_ids(live).contains(stored[j].id) && #[trigger] m[k] == shown_stored(
                stored[j],
            ) by {
            if k < r.len() {
                assert(m[k] == r[k]);
                let j = choose|j: int|
                    0 <= j < d.len() && !row_ids(live).contains(d[j].id) && r[k] == shown_stored(d[j]);
                assert(d[j] == stored[j]);
            } else {
                assert(m[k] == shown_stored(stored[stored.len() - 1]));
            }
        }
    }
}

/// The session list holds the live rows first, unchanged, then every stored
/// session that is not live, marked not live, and nothing else: it is as long
/// as the live rows plus the stored rows whose id is no live row's.
pub proof fn lemma_merge_lists_every_stored_session(live: Seq<AgentRowV>, stored: Seq<AgentRowV>)
    ensures
        merged_sessions(live, stored).take(live.len() as int) == live,
        forall|j: int|
            0 <= j < stored.len() && !row_ids(live).contains(stored[j].id) ==> merged_sessions(
                live,
                stored,
            ).contains(#[trigger] shown_stored(stored[j])),
        forall|k: int|
            live.len() <= k < merged_sessions(live, stored).len() ==> exists|j: int|
                0 <= j < stored.len() && !row_ids(live).contains(stored[j].id) && #[trigger] merged_sessions(
                    live,
                    stored,
                )[k] == shown_stored(stored[j]),
        merged_sessions(live, stored).len() == live.len() + stored.filter(
            |x: AgentRowV| !row_ids(live).contains(x.id),
        ).len(),
{
    lemma_merged_prefix(live, stored);
}

/// With no id twice among the live rows and none twice among the stored
/// ones, the session list names no session twice: a stored session that is
/// live appears once, as its live row.
pub proof fn lemma_sessions_listed_once(live: Seq<AgentRowV>, stored: Seq<AgentRowV>)
    requires
        row_ids(live).no_duplicates(),
        row_ids(stored).no_duplicates(),
    ensures
        row_ids(merged_sessions(live, stored)).no_duplicates(),
        forall|i: int|
            0 <= i < live.len() ==> #[trigger] merged_sessions(live, stored)[i] == live[i],
        merged_sessions(live, stored).len() >= live.len(),
    decreases stored.len(),
{
    if stored.len() > 0 {
        let sd = stored.drop_last();
        assert(row_ids(sd) =~= row_ids(stored).drop_last());
        lemma_sessions_listed_once(live, sd);
        let r = merged_sessions(live, sd);
        let x = stored.last();
        if !row_ids(live).contains(x.id) {
            lemma_merged_ids(live, sd);
            let t = r.push(AgentRowV { live: false, ..x });
            assert(row_ids(t) =~= row_ids(r).push(x.id));
            assert forall|a: int| 0 <= a < row_ids(r).len() implies row_ids(r)[a] != x.id by {
                if a < live.len() {
                    assert(row_ids(r)[a] == row_ids(live)[a]);
                } else {
                    assert(row_ids(sd).contains(row_ids(r)[a]));
                    let b = choose|b: int| 0 <= b < sd.len() && row_ids(sd)[b] == row_ids(r)[a];
                    assert(row_ids(stored)[b] == row_ids(r)[a]);
                    assert(row_ids(stored)[stored.len() - 1] == x.id);
                }
            }
        }
    }
}

/// Every row after the live ones comes from the stored rows.
proof fn lemma_merged_ids(live: Seq<AgentRowV>, stored: Seq<AgentRowV>)
    ensures
        forall|a: int|
            live.len() <= a < merged_sessions(live, stored).len() ==> row_ids(stored).contains(
                #[trigger] row_ids(merged_sessions(live, stored))[a],
            ),
        merged_sessions(live, stored).len() >= live.len(),
        forall|a: int| 0 <= a < live.len() ==> #[trigger] merged_sessions(live, stored)[a] == live[a],
    decreases stored.len(),
{
    if stored.len() > 0 {
        let sd = stored.drop_last();
        lemma_merged_ids(live, sd);
        let r = merged_sessions(live, sd);
        assert forall|a: int|
            live.len() <= a < merged_sessions(live, stored).len() implies row_ids(stored).contains(
            #[trigger] row_ids(merged_sessions(live, stored))[a],
        ) by {
            if a < r.len() {
                assert(row_ids(merged_sessions(live, stored))[a] == row_ids(r)[a]);
                let b = choose|b: int| 0 <= b < sd.len() && row_ids(sd)[b] == row_ids(r)[a];
                assert(row_ids(stored)[b] == row_ids(sd)[b]);
            } else {
                assert(row_ids(stored)[stored.len() - 1] == stored.last().id);
            }
        }
    }
}

// ---------------------------------------------------------------------------
// Streaming a turn to the chat view
// ---------------------------------------------------------------------------

/// The last assistant message, if any.
pub open spec fn last_assistant(ms: Seq<ChatMessageV>) -> Option<ChatMessageV>
    decreases ms.len(),
{
    if ms.len() == 0 {
        None
    } else if ms.last().role == "assistant"@ {
        Some(ms.last())
    } else {
        last_assistant(ms.drop_last())
    }
}

/// What was streamed so far: the text and reasoning last reported.
pub struct StreamState {
    pub last_text: String,
    pub last_reasoning: String,
}

/// One streaming update: the whole text and reasoning so far, and what each
/// grew by since the last update (empty when it did not just grow).
pub struct StreamUpdate {
    pub text: String,
    pub reasoning: String,
    pub text_delta: String,
    pub reasoning_delta: String,
}

/// What `now` adds to `before`: the rest of it when it extends `before`,
/// nothing otherwise.
pub open spec fn delta(now: Seq<char>, before: Seq<char>) -> Seq<char> {
    if has_prefix(now, before) {
        now.skip(before.len() as int)
    } else {
        Seq::empty()
    }
}

/// The next update while a turn streams: from the newest assistant message
/// of this turn (after the first `baseline` messages), when its text or
/// reasoning changed since the last update.
pub open spec fn stream_step(
    rows: Seq<ChatMessageV>,
    baseline: nat,
    last_text: Seq<char>,
    last_reasoning: Seq<char>,
) -> Option<(Seq<char>, Seq<char>, Seq<char>, Seq<char>)> {
    match last_assistant(turn_of(rows, baseline)) {
        None => None,
        Some(m) => if m.text == last_text && m.reasoning == last_reasoning {
            None
        } else {
            Some((m.text, m.reasoning, delta(m.text, last_text), delta(m.reasoning, last_reasoning)))
        },
    }
}

/// A delta carries exactly what was added: when the text grew, what was
/// shown before followed by the delta is the text now.
pub proof fn lemma_delta_appends(now: Seq<char>, before: Seq<char>)
    requires
        has_prefix(now, before),
    ensures
        before + delta(now, before) == now,
{
    assert(before + now.skip(before.len() as int) =~= now);
}

fn delta_of(now: &String, before: &String) -> (r: String)
    ensures
        r@ == delta(now@, before@),
{
    if starts_with(now.as_str(), before.as_str()) {
        let cs = chars_of(now.as_str());
        let n = chars_of(before.as_str()).len();
        let r = string_of_range(&cs, n, cs.len());
        assert(cs@.subrange(n as int, cs@.len() as int) =~= now@.skip(before@.len() as int));
        r
    } else {
        String::new()
    }
}

/// The messages of the current turn: those after the first `baseline`.
pub open spec fn turn_of(rows: Seq<ChatMessageV>, baseline: nat) -> Seq<ChatMessageV> {
    if baseline <= rows.len() {
        rows.skip(baseline as int)
    } else {
        Seq::empty()
    }
}

fn last_assistant_at(rows: &Vec<ChatMessage>, baseline: usize) -> (r: Option<usize>)
    ensures
        match r {
            Some(k) => k < rows.len() && last_assistant(turn_of(transcript_views(rows@), baseline as nat))
                == Some(rows@[k as int].view()),
            None => last_assistant(turn_of(transcript_views(rows@), baseline as nat)) is None,
        },
{
    let ghost tv = transcript_views(rows@);
    let ghost turn = turn_of(tv, baseline as nat);
    if baseline > rows.len() {
        return None;
    }
    let mut i: usize = rows.len();
    assert(turn.take(turn.len() as int) =~= turn);
    proof {
        reveal_strlit("assistant");
    }
    while i > baseline
        invariant
            baseline <= i <= rows.len(),
            tv == transcript_views(rows@),
            turn == tv.skip(baseline as int),
            last_assistant(turn) == last_assistant(turn.take(i - baseline)),
        decreases i,
    {
        assert(turn.take(i - baseline).drop_last() =~= turn.take(i - 1 - baseline));
        assert(turn.take(i - baseline).last() == rows@[i - 1].view());
        if str_eq(rows[i - 1].role.as_str(), "assistant") {
            return Some(i - 1);
        }
        i -= 1;
    }
    assert(turn.take(0) =~= Seq::<ChatMessageV>::empty());
    None
}

/// One poll while a turn streams (`send_message`'s poller): the update to
/// emit, if the newest assistant message changed, remembering what it said.
/// A poll reports the newest assistant message of the turn (at or after
/// `baseline`), when it differs from what was last reported: its text and
/// reasoning, and what each adds to the last report.
pub proof fn lemma_stream_reports_newest_assistant(
    rows: Seq<ChatMessageV>,
    baseline: nat,
    last_text: Seq<char>,
    last_reasoning: Seq<char>,
    k: int,
)
    requires
        baseline <= k < rows.len(),
        rows[k].role == "assistant"@,
        forall|j: int| k < j < rows.len() ==> (#[trigger] rows[j]).role != "assistant"@,
    ensures
        rows[k].text == last_text && rows[k].reasoning == last_reasoning ==> stream_step(
            rows,
            baseline,
            last_text,
            last_reasoning,
        ) is None,
        !(rows[k].text == last_text && rows[k].reasoning == last_reasoning) ==> stream_step(
            rows,
            baseline,
            last_text,
            last_reasoning,
        ) == Some((
            rows[k].text,
            rows[k].reasoning,
            delta(rows[k].text, last_text),
            delta(rows[k].reasoning, last_reasoning),
        )),
{
    let turn = turn_of(rows, baseline);
    assert(turn == rows.skip(baseline as int));
    let n = rows.len() - baseline;
    let kk = k - baseline;
    assert forall|m: int| kk < m <= n implies last_assistant(turn.take(m)) == Some(rows[k]) by {
        lemma_last_assistant_tail(turn, kk, m, rows, baseline as int);
    }
    assert(turn.take(n) =~= turn);
}

proof fn lemma_last_assistant_tail(turn: Seq<ChatMessageV>, kk: int, m: int, rows: Seq<ChatMessageV>, b: int)
    requires
        0 <= b <= rows.len(),
        turn == rows.skip(b),
        0 <= kk < m <= turn.len(),
        turn[kk].role == "assistant"@,
        forall|j: int| b + kk < j < rows.len() ==> (#[trigger] rows[j]).role != "assistant"@,
    ensures
        last_assistant(turn.take(m)) == Some(rows[b + kk]),
    decreases m,
{
    assert(turn.take(m).last() == turn[m - 1]);
    assert(turn.take(m).drop_last() =~= turn.take(m - 1));
    assert(turn[kk] == rows[b + kk]);
    if m - 1 > kk {
        assert(turn[m - 1] == rows[b + m - 1]);
        lemma_last_assistant_tail(turn, kk, m - 1, rows, b);
    }
}

/// A turn with no assistant message at or after `baseline` reports nothing.
pub proof fn lemma_stream_quiet_without_assistant(
    rows: Seq<ChatMessageV>,
    baseline: nat,
    last_text: Seq<char>,
    last_reasoning: Seq<char>,
)
    requires
        forall|j: int| baseline <= j < rows.len() ==> (#[trigger] rows[j]).role != "assistant"@,
    ensures
        stream_step(rows, baseline, last_text, last_reasoning) is None,
{
    let turn = turn_of(rows, baseline);
    if baseline <= rows.len() {
        assert forall|m: int| 0 <= m <= turn.len() implies last_assistant(#[trigger] turn.take(m)) is None by {
            lemma_no_assistant_prefix(turn, m, rows, baseline as int);
        }
        assert(turn.take(turn.len() as int) =~= turn);
    }
}

proof fn lemma_no_assistant_prefix(turn: Seq<ChatMessageV>, m: int, rows: Seq<ChatMessageV>, b: int)
    requires
        0 <= b <= rows.len(),
        turn == rows.skip(b),
        0 <= m <= turn.len(),
        forall|j: int| b <= j < rows.len() ==> (#[trigger] rows[j]).role != "assistant"@,
    ensures
        last_assistant(turn.take(m)) is None,
    decreases m,
{
    if m > 0 {
        assert(turn.take(m).last() == turn[m - 1]);
        assert(turn[m - 1] == rows[b + m - 1]);
        assert(turn.take(m).drop_last() =~= turn.take(m - 1));
        lemma_no_assistant_prefix(turn, m - 1, rows, b);
    } else {
        assert(turn.take(0).len() == 0);
    }
}

pub fn stream_poll(rows: &Vec<ChatMessage>, baseline: usize, state: &mut StreamState) -> (r: Option<StreamUpdate>)
    ensures
        match stream_step(
            transcript_views(rows@),
            baseline as nat,
            old(state).last_text@,
            old(state).last_reasoning@,
        ) {
            None => r is None && final(state).last_text@ == old(state).last_text@
                && final(state).last_reasoning@ == old(state).last_reasoning@,
            Some((t, rs, td, rd)) => r matches Some(u) && u.text@ == t && u.reasoning@ == rs
                && u.text_delta@ == td && u.reasoning_delta@ == rd && final(state).last_text@ == t
                && final(state).last_reasoning@ == rs,
        },
{
    match last_assistant_at(rows, baseline) {
        None => None,
        Some(k) => {
            let m = &rows[k];
            if str_eq(m.text.as_str(), state.last_text.as_str()) && str_eq(
                m.reasoning.as_str(),
                state.last_reasoning.as_str(),
            ) {
                return None;
            }
            let text_delta = delta_of(&m.text, &state.last_text);
            let reasoning_delta = delta_of(&m.reasoning, &state.last_reasoning);
            state.last_text = m.text.clone();
            state.last_reasoning = m.reasoning.clone();
            Some(
                StreamUpdate {
                    text: m.text.clone(),
                    reasoning: m.reasoning.clone(),
                    text_delta,
                    reasoning_delta,
                },
            )
        },
    }
}

/// The `studio://chat-partial` payload for an update.
pub open spec fn stream_payload(agent_id: Seq<char>, t: Seq<char>, rs: Seq<char>, td: Seq<char>, rd: Seq<char>) -> JsonV {
    JsonV::Object(
        seq![
            ("agentId"@, JsonV::Str(agent_id)),
            ("reasoning"@, JsonV::Str(rs)),
            ("reasoningDelta"@, JsonV::Str(rd)),
            ("text"@, JsonV::Str(t)),
            ("textDelta"@, JsonV::Str(td)),
        ],
    )
}

/// The payload the chat view receives for an update, keys in order.
pub fn stream_payload_of(agent_id: &str, u: &StreamUpdate) -> (r: Json)
    ensures
        r.view() == stream_payload(agent_id@, u.text@, u.reasoning@, u.text_delta@, u.reasoning_delta@),
{
    let mut o: Vec<(String, Json)> = Vec::new();
    o.push((owned("agentId"), Json::Str(owned(agent_id))));
    o.push((owned("reasoning"), Json::Str(u.reasoning.clone())));
    o.push((owned("reasoningDelta"), Json::Str(u.reasoning_delta.clone())));
    o.push((owned("text"), Json::Str(u.text.clone())));
    o.push((owned("textDelta"), Json::Str(u.text_delta.clone())));
    proof {
        lemma_entries_view_ext(
            o@,
            seq![
                ("agentId"@, JsonV::Str(agent_id@)),
                ("reasoning"@, JsonV::Str(u.reasoning@)),
                ("reasoningDelta"@, JsonV::Str(u.reasoning_delta@)),
                ("text"@, JsonV::Str(u.text@)),
                ("textDelta"@, JsonV::Str(u.text_delta@)),
            ],
        );
    }
    Json::Object(o)
}

} // verus!
