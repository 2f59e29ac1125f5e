use dsh_wasm_studio::chat::{AgentRow, TokenUsageRow};
use dsh_wasm_studio::error::StudioError;
use dsh_wasm_studio::json::Json;
use dsh_wasm_studio::studio::{check_provider, settle_step, FiberState, Settle, Studio};
use dsh_wasm_studio::ui::{UiDecl, WindowContent, WindowDecl, WindowOpen};
use dsh_wasm_studio::windows::plugin_windows;

fn fresh() -> Studio<u32, &'static str> {
    Studio::new("/data/plugins".to_string(), "/data/studio.json".to_string())
}

#[test]
fn params_are_queued_until_the_window_opens() {
    let mut s = fresh();
    let params = Json::Object(vec![("sel".to_string(), Json::Str("x".to_string()))]);
    s.queue_window_params("plugin-p-panel", params);
    let want = Json::Object(vec![("sel".to_string(), Json::Str("x".to_string()))]);
    assert_eq!(s.peek_pending_params("plugin-p-panel"), Some(Json::Object(vec![("sel".to_string(), Json::Str("x".to_string()))])));
    assert_eq!(s.take_pending_params("plugin-p-panel"), Some(want));
    assert_eq!(s.take_pending_params("plugin-p-panel"), None);
}

#[test]
fn queued_params_replace_earlier_ones_and_stay_per_window() {
    let mut s = fresh();
    s.queue_window_params("w1", Json::Bool(false));
    s.queue_window_params("w2", Json::Null);
    s.queue_window_params("w1", Json::Bool(true));
    assert_eq!(s.take_pending_params("w1"), Some(Json::Bool(true)));
    assert_eq!(s.peek_pending_params("w2"), Some(Json::Null));
}

#[test]
fn auto_windows_are_attempted_at_mount_time_once_each() {
    let mut s = fresh();
    let w = |name: &str, open: WindowOpen| WindowDecl {
        name: name.to_string(),
        component: "C".to_string(),
        title: None,
        open,
        content: WindowContent::App,
        html: None,
    };
    let decls = vec![(
        "p".to_string(),
        UiDecl {
            provides: vec![],
            injects: vec![],
            assets: vec![],
            adjusts: vec![],
            routes: vec![],
            windows: vec![w("a", WindowOpen::Auto), w("m", WindowOpen::Manual), w("b", WindowOpen::Auto)],
        },
    )];
    let ws = plugin_windows(&decls);
    s.request_auto_windows(&ws, "p");
    s.request_auto_windows(&ws, "p");
    s.request_window("plugin-p-a");
    assert_eq!(s.windows_wanted_at_mount(), vec!["plugin-p-a".to_string(), "plugin-p-b".to_string()]);
    assert_eq!(s.take_wanted_windows(), vec!["plugin-p-a".to_string(), "plugin-p-b".to_string()]);
    assert!(s.windows_wanted_at_mount().is_empty());
}

#[test]
fn stopping_a_plugin_closes_only_its_windows() {
    let mut s = fresh();
    s.note_window_open("plugin-a-x".to_string(), "a".to_string());
    s.note_window_open("plugin-b-y".to_string(), "b".to_string());
    s.note_window_open("plugin-a-z".to_string(), "a".to_string());
    assert_eq!(s.take_windows_of("a"), vec!["plugin-a-x".to_string(), "plugin-a-z".to_string()]);
    assert!(s.take_windows_of("a").is_empty());
    s.forget_window("plugin-b-y");
    assert!(s.take_windows_of("b").is_empty());
}

#[test]
fn fibers_are_kept_by_slot_and_handed_back() {
    let mut s = fresh();
    assert!(!s.is_mounted("a"));
    s.add_fiber("a".to_string(), 1);
    s.add_fiber("b".to_string(), 2);
    assert!(s.is_mounted("a"));
    assert_eq!(s.take_fiber("a"), Some(1));
    assert_eq!(s.take_fiber("a"), None);
    assert!(!s.is_mounted("a"));
    s.add_fiber("c".to_string(), 3);
    let all = s.shutdown();
    assert_eq!(all, vec![("b".to_string(), 2), ("c".to_string(), 3)]);
    assert!(!s.is_mounted("b"));
}

#[test]
fn resumed_agents_are_held_by_id() {
    let mut s = fresh();
    s.insert_resumed("s1".to_string(), "first");
    s.insert_resumed("s2".to_string(), "second");
    s.insert_resumed("s1".to_string(), "again");
    assert_eq!(s.resumed("s1"), Some(&"again"));
    assert_eq!(s.resumed_agents().len(), 2);
    assert_eq!(s.remove_resumed("s1"), Some("again"));
    assert_eq!(s.resumed("s1"), None);
    assert_eq!(s.remove_resumed("s1"), None);
}

#[test]
fn the_stored_rows_cache_is_dropped_on_change() {
    let mut s = fresh();
    assert!(s.cached_stored_rows().is_none());
    let row = AgentRow {
        id: "s".to_string(),
        status: "stored".to_string(),
        live: false,
        messages: 1,
        turns: 2,
        busy: false,
        title: "t".to_string(),
        usage: TokenUsageRow { input: 0, output: 0, cache_read: None, cache_write: None, reasoning: None, calls: 0 },
        updated_at: None,
    };
    s.cache_stored_rows(vec![row]);
    assert_eq!(s.cached_stored_rows().map(|r| r[0].id.clone()), Some("s".to_string()));
    s.invalidate_stored_cache();
    assert!(s.cached_stored_rows().is_none());
}

#[test]
fn a_new_session_id_avoids_every_taken_id() {
    let mut s = fresh();
    let first = s.new_session_id(&vec![]);
    assert!(first.starts_with("session-"));
    assert!(first.ends_with("-0"), "the counter starts at zero: {first}");
    let taken = vec![first.clone()];
    let second = s.new_session_id(&taken);
    assert_ne!(second, first);
    assert!(second.ends_with("-1"), "{second}");
    let parts: Vec<&str> = second.split('-').collect();
    assert_eq!(parts.len(), 3);
    assert!(parts[1].chars().all(|c| c.is_ascii_digit()));
}

#[test]
fn status_always_reports_the_harness_tool_count_when_it_answers() {
    let s = fresh();
    let st = s.status(2, 5, Some(9), 1, true, vec!["mock".to_string()]);
    assert!(st.booted);
    assert_eq!(st.plugins_dir, "/data/plugins");
    assert_eq!(st.config_path, "/data/studio.json");
    assert_eq!((st.slot_count, st.wasm_tool_count, st.tool_count, st.service_count), (2, 5, 9, 1));
    assert!(st.watching);
    assert_eq!(st.providers, vec!["mock".to_string()]);
    assert_eq!(s.status(0, 5, None, 0, false, vec![]).tool_count, 5, "falls back to the WASM tools");
}

#[test]
fn an_agent_needs_a_registered_route_unless_it_is_mock() {
    let registered = vec!["deepseek".to_string()];
    assert!(check_provider(&"mock".to_string(), &vec![]).is_ok());
    assert!(check_provider(&"deepseek".to_string(), &registered).is_ok());
    match check_provider(&"9router".to_string(), &registered) {
        Err(e) => {
            assert!(matches!(e, StudioError::ProviderNotRegistered(ref p) if p == "9router"));
            assert_eq!(
                e.message(),
                "LLM provider `9router` is not registered. Check base_url/api_key in settings, then retry."
            );
        }
        Ok(()) => panic!("unknown route"),
    }
}

#[test]
fn a_slot_that_cannot_settle_still_loads() {
    assert_eq!(settle_step(FiberState::Pending, false), Settle::Proceed, "pending is a supported state");
    assert_eq!(settle_step(FiberState::Active, false), Settle::Proceed);
    assert_eq!(settle_step(FiberState::Loading, false), Settle::Wait);
    assert_eq!(settle_step(FiberState::Loading, true), Settle::Proceed, "a timeout is no failure");
    assert_eq!(settle_step(FiberState::Failed, true), Settle::Failed);
    assert_eq!(StudioError::FiberFailed("slot `p`".to_string()).message(), "slot `p` fiber failed to start");
}

#[test]
fn a_second_watcher_is_not_started_and_shutdown_stops_it() {
    let mut s = fresh();
    assert!(!s.is_watching());
    assert!(s.begin_watch());
    assert!(!s.begin_watch());
    assert!(s.is_watching());
    s.add_fiber("a".to_string(), 1);
    s.add_fiber("b".to_string(), 2);
    assert_eq!(s.shutdown(), vec![("a".to_string(), 1), ("b".to_string(), 2)]);
    assert!(!s.is_watching());
    assert!(!s.is_mounted("a") && !s.is_mounted("b"));
    assert!(s.shutdown().is_empty());
    assert!(!s.is_watching());
    s.end_watch();
    assert!(!s.is_watching());
}

#[test]
fn session_ids_carry_the_counter_and_advance_it() {
    let mut s = fresh();
    let first = s.new_session_id(&vec![]);
    assert!(first.starts_with("session-") && first.ends_with("-0"), "{first}");
    let second = s.new_session_id(&vec![]);
    assert!(second.ends_with("-1"), "{second}");
    assert_ne!(first, second);
}
