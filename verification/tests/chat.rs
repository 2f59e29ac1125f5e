use dsh_wasm_studio::chat::{
    chat_message_of, last_request_options, live_row, merge_sessions, resume_plan, resume_start, ResumeStart, session_title_of,
    session_usage_of, stored_row, usage_fits_of, stored_rows, stream_payload_of, stream_poll, transcript_of, AgentOptions,
    AgentRow, AgentStatus, ChatMessage, ContentBlock, Message, Role, SessionEvent, SessionEventData,
    StreamState, TokenUsage, TokenUsageRow,
};
use dsh_wasm_studio::error::StudioError;
use dsh_wasm_studio::json::Json;

fn text(t: &str) -> ContentBlock {
    ContentBlock::Text(t.to_string())
}

fn user(t: &str) -> Message {
    Message { role: Role::User, content: vec![text(t)] }
}

fn usage(i: u64, o: u64, cr: Option<u64>) -> TokenUsage {
    TokenUsage { input_tokens: i, output_tokens: o, cache_read_tokens: cr, cache_write_tokens: None, reasoning_tokens: None }
}

fn assistant_event(time: u64, u: Option<TokenUsage>) -> SessionEvent {
    SessionEvent { time, data: SessionEventData::AssistantMessage { usage: u } }
}

fn header(time: u64, provider: &str, model: &str) -> SessionEvent {
    SessionEvent {
        time,
        data: SessionEventData::RequestHeader {
            config: AgentOptions { provider: provider.to_string(), model: model.to_string(), max_tokens: Some(512) },
        },
    }
}

#[test]
fn a_message_keeps_text_reasoning_tool_calls_and_results_apart() {
    let m = Message {
        role: Role::Assistant,
        content: vec![
            ContentBlock::Reasoning("think".to_string()),
            text("Hello "),
            ContentBlock::ToolCall { id: "c1".to_string(), name: "greet".to_string(), arguments: "{\"n\":1}".to_string() },
            text("world"),
            ContentBlock::ToolResult {
                tool_call_id: "c1".to_string(),
                content: vec![text("ok"), ContentBlock::Reasoning("hidden".to_string()), text("!")],
                is_error: None,
            },
        ],
    };
    let c = chat_message_of(&m, &vec![]);
    assert_eq!(c.role, "assistant");
    assert_eq!(c.text, "Hello world");
    assert_eq!(c.reasoning, "think");
    assert_eq!(c.tool_calls.len(), 1);
    assert_eq!(c.tool_calls[0].id, "c1");
    assert_eq!(c.tool_calls[0].name, "greet");
    assert_eq!(c.tool_calls[0].arguments, "{\"n\":1}");
    assert_eq!(c.tool_results.len(), 1);
    assert_eq!(c.tool_results[0].tool_call_id, "c1");
    assert_eq!(c.tool_results[0].content, "ok!");
    assert!(!c.tool_results[0].is_error, "an unreported error flag reads as no error");
    let t = transcript_of(&vec![user("hi"), m], &vec![]);
    assert_eq!(t.len(), 2);
    assert_eq!(t[0].role, "user");
    assert_eq!(t[0].text, "hi");
}

#[test]
fn a_long_first_message_is_truncated_by_characters_not_bytes() {
    let long: String = "汉".repeat(200);
    let title = session_title_of(&vec![user(&long)]);
    assert!(title.ends_with('…'), "a truncated title is marked: {title}");
    assert_eq!(title.chars().count(), 61, "60 chars + ellipsis: {title}");
    assert!(title.starts_with('汉'), "the kept prefix is intact: {title}");
}

#[test]
fn the_title_is_the_first_user_message_trimmed_and_joined() {
    let ms = vec![
        Message { role: Role::System, content: vec![text("system prompt")] },
        Message { role: Role::User, content: vec![text("  What is "), ContentBlock::Reasoning("x".to_string()), text(" Rust? ")] },
        user("second"),
    ];
    assert_eq!(session_title_of(&ms), "What is Rust?");
    assert_eq!(session_title_of(&vec![]), "", "empty before the first message");
    let exactly: String = "a".repeat(60);
    assert_eq!(session_title_of(&vec![user(&exactly)]), exactly, "60 characters are kept whole");
}

#[test]
fn usage_is_summed_over_the_calls_that_reported_it() {
    let es = vec![
        assistant_event(1, Some(usage(10, 5, Some(2)))),
        assistant_event(2, None),
        SessionEvent { time: 3, data: SessionEventData::Other },
        assistant_event(4, Some(usage(7, 1, Some(3)))),
    ];
    let u = session_usage_of(&es);
    assert_eq!(
        u,
        TokenUsageRow { input: 17, output: 6, cache_read: Some(5), cache_write: None, reasoning: None, calls: 2 }
    );
}

#[test]
fn usage_is_absent_when_the_provider_does_not_report_it() {
    let u = session_usage_of(&vec![assistant_event(1, None)]);
    assert_eq!(u, TokenUsageRow { input: 0, output: 0, cache_read: None, cache_write: None, reasoning: None, calls: 0 });
    let partial = session_usage_of(&vec![assistant_event(1, Some(usage(1, 1, Some(4)))), assistant_event(2, Some(usage(1, 1, None)))]);
    assert_eq!(partial.cache_read, None, "a figure one call did not report is not summed");
}

#[test]
fn a_resumed_session_keeps_the_model_it_last_used() {
    let es = vec![header(1, "deepseek", "chat-a"), assistant_event(2, None), header(3, "9router", "chat-b"), assistant_event(4, None)];
    let o = last_request_options(&es);
    assert_eq!(o.provider, "9router");
    assert_eq!(o.model, "chat-b");
    assert_eq!(o.max_tokens, Some(512));
    let d = last_request_options(&vec![assistant_event(1, None)]);
    assert_eq!((d.provider.as_str(), d.model.as_str(), d.max_tokens), ("mock", "mock-1", None));
    match resume_plan("s1", &es) {
        Ok(o) => assert_eq!(o.model, "chat-b"),
        Err(_) => panic!("a session with events resumes"),
    }
}

#[test]
fn resuming_an_empty_session_is_an_error() {
    match resume_plan("s0", &vec![]) {
        Err(e) => {
            assert!(matches!(e, StudioError::EmptySession(ref id) if id == "s0"));
            assert_eq!(e.message(), "session `s0` has no events");
        }
        Ok(_) => panic!("nothing to resume"),
    }
}

#[test]
fn the_agent_list_carries_a_readable_title_and_usage() {
    let ms = vec![user("hello there")];
    let es = vec![assistant_event(1, Some(usage(3, 4, None)))];
    let r = live_row("a1", AgentStatus::Running, true, &ms, &es);
    assert_eq!(r.id, "a1");
    assert_eq!(r.status, "running");
    assert!(r.live);
    assert!(r.busy);
    assert_eq!(r.messages, 1);
    assert_eq!(r.turns, 1);
    assert_eq!(r.title, "hello there");
    assert_eq!(r.usage.input, 3);
    assert_eq!(r.usage.output, 4);
    assert_eq!(live_row("a2", AgentStatus::Idle, false, &vec![], &vec![]).status, "idle");
}

fn row(id: &str, live: bool) -> AgentRow {
    AgentRow {
        id: id.to_string(),
        status: if live { "idle".to_string() } else { "stored".to_string() },
        live,
        messages: 0,
        turns: 0,
        busy: false,
        title: String::new(),
        usage: TokenUsageRow { input: 0, output: 0, cache_read: None, cache_write: None, reasoning: None, calls: 0 },
        updated_at: None,
    }
}

#[test]
fn stored_sessions_are_listed_newest_first() {
    let (t1, r1) = stored_row("old".to_string(), &vec![user("one")], &vec![assistant_event(5, None), assistant_event(9, None)]);
    let (t2, r2) = stored_row("new".to_string(), &vec![], &vec![assistant_event(20, None)]);
    let (t3, r3) = stored_row("tie".to_string(), &vec![], &vec![assistant_event(9, None), assistant_event(3, None)]);
    let (t0, r0) = stored_row("blank".to_string(), &vec![], &vec![]);
    assert_eq!((t1, t2, t3, t0), (9, 20, 9, 0));
    assert_eq!(r1.status, "stored");
    assert!(!r1.live);
    assert_eq!(r1.title, "one");
    let rows = stored_rows(vec![(t1, r1), (t2, r2), (t3, r3), (t0, r0)]);
    let ids: Vec<&str> = rows.iter().map(|r| r.id.as_str()).collect();
    assert_eq!(ids, vec!["new", "old", "tie", "blank"], "ties keep the store's order");
}

#[test]
fn a_stored_session_is_not_listed_twice_once_it_is_live() {
    let live = vec![row("b", true), row("a", true)];
    let mut stored = vec![row("a", false), row("c", false)];
    stored[1].live = true;
    let merged = merge_sessions(live, stored);
    let ids: Vec<(&str, bool)> = merged.iter().map(|r| (r.id.as_str(), r.live)).collect();
    assert_eq!(ids, vec![("b", true), ("a", true), ("c", false)]);
}

fn assistant_row(t: &str, r: &str) -> ChatMessage {
    ChatMessage { role: "assistant".to_string(), text: t.to_string(), reasoning: r.to_string(), tool_calls: vec![], tool_results: vec![] }
}

fn user_row(t: &str) -> ChatMessage {
    ChatMessage { role: "user".to_string(), text: t.to_string(), reasoning: String::new(), tool_calls: vec![], tool_results: vec![] }
}

#[test]
fn a_streaming_turn_sends_what_each_poll_added() {
    let mut st = StreamState { last_text: String::new(), last_reasoning: String::new() };
    // The previous turn's answer is before the baseline and is never streamed.
    let mut rows = vec![assistant_row("old answer", ""), user_row("hi")];
    assert!(stream_poll(&rows, 1, &mut st).is_none());
    rows.push(assistant_row("Hel", "hm"));
    let u = stream_poll(&rows, 1, &mut st).expect("new text");
    assert_eq!((u.text.as_str(), u.text_delta.as_str(), u.reasoning.as_str(), u.reasoning_delta.as_str()), ("Hel", "Hel", "hm", "hm"));
    assert!(stream_poll(&rows, 1, &mut st).is_none(), "nothing changed");
    rows[2] = assistant_row("Hello", "hm");
    let u = stream_poll(&rows, 1, &mut st).expect("grew");
    assert_eq!((u.text_delta.as_str(), u.reasoning_delta.as_str()), ("lo", ""));
    rows[2] = assistant_row("Bye", "hm");
    let u = stream_poll(&rows, 1, &mut st).expect("rewritten");
    assert_eq!((u.text.as_str(), u.text_delta.as_str()), ("Bye", ""), "a rewrite is no delta");
    assert_eq!(st.last_text, "Bye");
    assert!(stream_poll(&rows, 9, &mut st).is_none(), "a baseline past the end sees no turn");
}

#[test]
fn the_partial_payload_names_every_field() {
    let mut st = StreamState { last_text: String::new(), last_reasoning: String::new() };
    let u = stream_poll(&vec![assistant_row("t", "r")], 0, &mut st).unwrap();
    let p = stream_payload_of("a1", &u);
    let s = |x: &str| Json::Str(x.to_string());
    assert_eq!(
        p,
        Json::Object(vec![
            ("agentId".to_string(), s("a1")),
            ("reasoning".to_string(), s("r")),
            ("reasoningDelta".to_string(), s("r")),
            ("text".to_string(), s("t")),
            ("textDelta".to_string(), s("t")),
        ])
    );
}

#[test]
fn a_resume_prefers_a_resumed_driver_then_a_live_agent_then_the_log() {
    assert_eq!(resume_start(true, true), ResumeStart::AlreadyResumed);
    assert_eq!(resume_start(true, false), ResumeStart::AlreadyResumed);
    assert_eq!(resume_start(false, true), ResumeStart::AlreadyLive);
    assert_eq!(resume_start(false, false), ResumeStart::LoadStored);
}

#[test]
fn a_stored_row_carries_its_latest_event_time() {
    let es = vec![assistant_event(1, None), assistant_event(2, None), assistant_event(3, None)];
    let (t, r) = stored_row("old-1".to_string(), &vec![user("what did we decide about the parser")], &es);
    assert_eq!(t, 3);
    assert_eq!(r.updated_at, Some(3));
    assert!(!r.live);
    assert_eq!(r.status, "stored");
    assert_eq!(r.title, "what did we decide about the parser");
    assert_eq!(stored_row("e".to_string(), &vec![], &vec![]).1.updated_at, None);
    assert_eq!(live_row("a", AgentStatus::Idle, false, &vec![], &es).updated_at, Some(3));
}

#[test]
fn tool_calls_and_results_carry_their_event_times() {
    let call = ContentBlock::ToolCall { id: "call-1".to_string(), name: "alpha_tool".to_string(), arguments: "{}".to_string() };
    let result = ContentBlock::ToolResult {
        tool_call_id: "call-1".to_string(),
        content: vec![ContentBlock::Text("ran".to_string())],
        is_error: None,
    };
    let asked = Message { role: Role::Assistant, content: vec![call] };
    let answered = Message { role: Role::User, content: vec![result] };
    let events = vec![
        SessionEvent { time: 10, data: SessionEventData::Other },
        SessionEvent { time: 11, data: SessionEventData::ToolCall { call_id: "call-1".to_string() } },
        SessionEvent {
            time: 14,
            data: SessionEventData::ToolResult {
                message: Message {
                    role: Role::User,
                    content: vec![ContentBlock::ToolResult {
                        tool_call_id: "call-1".to_string(),
                        content: vec![ContentBlock::Text("ran".to_string())],
                        is_error: None,
                    }],
                },
            },
        },
    ];
    let t = transcript_of(&vec![asked, answered], &events);
    let c = &t[0].tool_calls[0];
    assert_eq!(c.id, "call-1");
    assert_eq!(c.started_at, Some(11));
    let r = &t[1].tool_results[0];
    assert_eq!(r.tool_call_id, "call-1");
    assert!(r.content.contains("ran"));
    assert_eq!(r.finished_at, Some(14));
    assert!(r.finished_at >= c.started_at);
    let bare = transcript_of(&vec![t_msg()], &vec![]);
    assert_eq!(bare[0].tool_calls[0].started_at, None);
}

fn t_msg() -> Message {
    Message {
        role: Role::Assistant,
        content: vec![ContentBlock::ToolCall { id: "x".to_string(), name: "n".to_string(), arguments: "{}".to_string() }],
    }
}

#[test]
fn usage_that_overflows_a_u64_is_detected() {
    let big = |t: u64| assistant_event(t, Some(TokenUsage {
        input_tokens: u64::MAX - 1,
        output_tokens: 0,
        cache_read_tokens: None,
        cache_write_tokens: None,
        reasoning_tokens: None,
    }));
    assert!(usage_fits_of(&vec![big(1)]));
    assert!(!usage_fits_of(&vec![big(1), big(2)]));
    assert!(usage_fits_of(&vec![]));
}
