use dsh_wasm_studio::commands::{
    capabilities, err, logs_since, plugin_rows, reload_outcome, service_rows, tool_rows, tools_of,
    ui_contributions, HostPlugin, StudioEvent, ToolInfo,
};
use dsh_wasm_studio::error::StudioError;
use dsh_wasm_studio::json::Json;
use dsh_wasm_studio::plugins::{PluginEntry, RunningPlugin, StudioConfig};
use dsh_wasm_studio::studio::Studio;
use dsh_wasm_studio::ui::{Adjust, AdjustAction, RouteDecl, SlotDecl, SlotInject, UiDecl};

fn tool(name: &str, slot: &str) -> ToolInfo {
    ToolInfo {
        name: name.to_string(),
        description: format!("{name} tool"),
        slot: slot.to_string(),
        plugin: format!("{slot}-plugin"),
        parameters: Json::Null,
    }
}

#[test]
fn every_refusal_reads_as_its_message() {
    let cases = vec![
        (StudioError::MissingBaseUrl, "missing base_url".to_string()),
        (StudioError::SlotNotConfigured("a".into()), "slot `a` is not in the config".to_string()),
        (StudioError::SlotNotLoaded("a".into()), "slot `a` is not loaded".to_string()),
        (StudioError::NoAgent("x".into()), "no agent `x`".to_string()),
        (StudioError::Runtime("disk full".into()), "disk full".to_string()),
        (StudioError::StartupConflict(vec!["l1".into(), "l2".into(), "l3".into()]), "3 plugins declare a startup window (l1, l2, l3); only one may own the launch view — the winner would otherwise depend on load order".to_string()),
    ];
    for (e, want) in cases {
        assert_eq!(err(&e), want);
    }
}

#[test]
fn hot_reload_reports_the_slots_new_tool_surface() {
    let tools = vec![tool("a1", "a"), tool("b1", "b"), tool("a2", "a")];
    assert_eq!(tools_of(&tools, "a"), vec!["a1".to_string(), "a2".to_string()]);
    let (ev, res) = reload_outcome("a", Ok(()), &tools);
    match ev {
        StudioEvent::Reloaded { slot, tools } => {
            assert_eq!(slot, "a");
            assert_eq!(tools, vec!["a1".to_string(), "a2".to_string()]);
        }
        _ => panic!("reloaded"),
    }
    assert_eq!(res.unwrap(), vec!["a1".to_string(), "a2".to_string()]);
}

#[test]
fn a_broken_reload_leaves_the_running_plugin_intact() {
    let (ev, res) = reload_outcome("a", Err("bad magic".to_string()), &vec![tool("a1", "a")]);
    match ev {
        StudioEvent::ReloadFailed { slot, error } => {
            assert_eq!(slot, "a");
            assert_eq!(error, "bad magic");
        }
        _ => panic!("reload failed"),
    }
    match res {
        Err(StudioError::Runtime(m)) => assert_eq!(m, "bad magic"),
        _ => panic!("the error is returned"),
    }
}

#[test]
fn services_name_their_origin() {
    let rows = service_rows(vec![("tools".to_string(), None), ("greet".to_string(), Some("g".to_string()))]);
    assert_eq!(rows[0].name, "tools");
    assert_eq!(rows[0].origin, "dsh");
    assert_eq!(rows[0].provider, None);
    assert_eq!(rows[1].origin, "wasm");
    assert_eq!(rows[1].provider, Some("g".to_string()));
}

#[test]
fn the_tools_table_carries_every_field() {
    let rows = tool_rows(vec![tool("a1", "a")]);
    assert_eq!(rows.len(), 1);
    assert_eq!((rows[0].name.as_str(), rows[0].description.as_str(), rows[0].slot.as_str(), rows[0].plugin.as_str()), ("a1", "a1 tool", "a", "a-plugin"));
    assert_eq!(rows[0].parameters, Json::Null);
}

#[test]
fn capabilities_list_the_injectable_dsh_services() {
    let c = capabilities(vec!["tools/pre-execute".to_string()], true);
    assert_eq!(
        c.dsh_services,
        vec!["tools", "sessions", "llm", "agents", "systemPrompt", "manifest"].into_iter().map(String::from).collect::<Vec<_>>()
    );
    assert_eq!(c.flow_events, vec!["tools/pre-execute".to_string()]);
    assert!(c.disk_cache);
}

#[test]
fn logs_are_filtered_by_sequence() {
    let recs = vec![(1u64, "a"), (5, "b"), (3, "c")];
    assert_eq!(logs_since(recs.clone(), Some(2)), vec![(5, "b"), (3, "c")]);
    assert_eq!(logs_since(recs.clone(), None), recs);
}

fn ui() -> UiDecl {
    UiDecl {
        provides: vec![SlotDecl { name: "shell.main".to_string(), description: None }],
        injects: vec![SlotInject { slot: "sidebar.items".to_string(), priority: 5, component: Some("Nav".to_string()) }],
        assets: vec![("entry.js".to_string(), "export {}".to_string())],
        adjusts: vec![Adjust {
            slot: "sidebar.*".to_string(),
            from: None,
            action: AdjustAction::Replace,
            to: None,
            by: Some(2),
            component: Some("Mine".to_string()),
        }],
        routes: vec![RouteDecl {
            path: "usage".to_string(),
            component: "Usage".to_string(),
            title: Some("Usage".to_string()),
            icon: None,
            nav: true,
        }],
        windows: vec![],
    }
}

#[test]
fn list_plugins_surfaces_ui_metadata_for_the_management_page() {
    let mut studio: Studio = Studio::new("/d/plugins".to_string(), "/d/studio.json".to_string());
    let mut cfg = StudioConfig::first_boot("c".to_string());
    cfg.put(
        "p".to_string(),
        PluginEntry { path: "/x/p.wasm".to_string(), enabled: true, watch: None, config: None, restart_on_config: false },
    );
    studio.add_fiber("p".to_string(), ());
    let plugins = vec![
        HostPlugin {
            running: RunningPlugin { slot: "p".into(), plugin: "pp".into(), state: "active".into(), tool_count: 2, active: true },
            injects: vec!["tools".to_string()],
            provides: vec!["greet".to_string()],
            ui: Some(ui()),
        },
        HostPlugin {
            running: RunningPlugin { slot: "q".into(), plugin: "qq".into(), state: "pending".into(), tool_count: 0, active: false },
            injects: vec![],
            provides: vec![],
            ui: None,
        },
    ];
    let rows = plugin_rows(&studio, &cfg, &plugins);
    assert_eq!(rows.len(), 2);
    let p = &rows[0];
    assert_eq!((p.slot.as_str(), p.plugin.as_str(), p.state.as_str(), p.tool_count, p.active), ("p", "pp", "active", 2, true));
    assert!(p.mounted);
    assert!(p.enabled);
    assert_eq!(p.path, "/x/p.wasm");
    assert_eq!(p.injects, vec!["tools".to_string()]);
    assert_eq!(p.provides, vec!["greet".to_string()]);
    assert_eq!(p.provides_slots, vec!["shell.main".to_string()]);
    assert_eq!(p.injects_slots.len(), 1);
    assert_eq!((p.injects_slots[0].slot.as_str(), p.injects_slots[0].priority), ("sidebar.items", 5));
    assert_eq!(p.injects_slots[0].component, Some("Nav".to_string()));
    assert!(p.has_ui);
    let q = &rows[1];
    assert!(!q.mounted);
    assert!(!q.enabled, "not configured: not enabled");
    assert_eq!(q.path, "");
    assert!(q.provides_slots.is_empty() && q.injects_slots.is_empty() && !q.has_ui);
}

#[test]
fn a_plugins_declaration_reaches_the_frontend_ui_contract() {
    let decls = vec![("p".to_string(), ui())];
    let c = ui_contributions(&decls);
    assert_eq!(c.len(), 1);
    let u = &c[0];
    assert_eq!(u.slot, "p");
    assert_eq!(u.provides_slots, vec!["shell.main".to_string()]);
    assert_eq!(u.injects_slots[0].priority, 5);
    assert_eq!(u.assets, vec![("entry.js".to_string(), "export {}".to_string())]);
    assert_eq!(u.adjusts.len(), 1);
    assert_eq!(u.adjusts[0].action, "replace");
    assert_eq!(u.adjusts[0].by, Some(2));
    assert_eq!(u.adjusts[0].component, Some("Mine".to_string()));
    assert_eq!(u.routes[0].path, "usage");
    assert_eq!(u.routes[0].title, Some("Usage".to_string()));
    assert!(u.routes[0].nav);
}
