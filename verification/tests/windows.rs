use dsh_wasm_studio::error::StudioError;
use dsh_wasm_studio::json::Json;
use dsh_wasm_studio::studio::Studio;
use dsh_wasm_studio::ui::{UiDecl, WindowContent, WindowDecl, WindowOpen};
use dsh_wasm_studio::windows::{
    app_window_bootstrap, auto_window_labels, html_window_bootstrap, plugin_window_by_label,
    plugin_windows, startup_window, window_html, window_plan, window_url_of, InitScript,
};

fn window(name: &str, open: WindowOpen, content: WindowContent, html: Option<&str>) -> WindowDecl {
    WindowDecl {
        name: name.to_string(),
        component: "Panel".to_string(),
        title: None,
        open,
        content,
        html: html.map(|h| h.to_string()),
    }
}

fn ui_with(windows: Vec<WindowDecl>) -> UiDecl {
    UiDecl {
        provides: vec![],
        injects: vec![],
        assets: vec![],
        adjusts: vec![],
        routes: vec![],
        windows,
    }
}

#[test]
fn window_labels_are_sanitised_for_tauri() {
    assert_eq!(Studio::window_label("my.plugin", "a b/c"), "plugin-my-plugin-a-b-c");
}

#[test]
fn the_html_window_bootstrap_escapes_its_payload() {
    let nasty = "<div title=\"a\\\"b\">line1\nline2 \\ backslash</div>";
    let script = html_window_bootstrap(nasty, "plugin-x-y");
    let encoded = serde_json::to_string(nasty).unwrap();
    assert!(
        script.contains(&encoded),
        "the HTML must be JSON-encoded, not raw.\nexpected to find: {encoded}\nin: {script}"
    );
    let start = script.find(&encoded).unwrap();
    let payload = &script[start..start + encoded.len()];
    assert!(!payload.contains('\n'), "no raw newline may appear in the literal");
    assert!(script.contains("document.write"), "writes the document");
    assert!(script.contains("plugin-x-y"), "carries the label");
}

#[test]
fn the_app_window_bootstrap_carries_label_and_params() {
    let script = app_window_bootstrap("plugin-p-panel", r#"{"id":42}"#);
    assert!(script.contains("plugin-p-panel"));
    assert!(script.contains("42"));
    assert!(script.contains("__STUDIO_WINDOW__"));
}

#[test]
fn an_app_windows_url_targets_the_plugin_window_route() {
    let path = Studio::app_window_path("plugin-p-board");
    let route = path.split('?').next().unwrap();
    assert_eq!(route, "plugin-window", "the pathname must be the route that renders plugin components");
    assert!(!route.ends_with(".html"), "a file URL would be resolved by the static handler, not the router");
    assert!(path.contains("label=plugin-p-board"), "the window still needs its label: {path}");
}

#[test]
fn the_app_bootstrap_is_exactly_the_window_global() {
    assert_eq!(
        app_window_bootstrap("plugin-p-panel", r#"{"id":42}"#),
        r#"window.__STUDIO_WINDOW__ = { label: "plugin-p-panel", params: {"id":42} };"#
    );
}

#[test]
fn a_declared_window_is_listed_with_its_label_and_the_slot_as_title() {
    let decls = vec![(
        "p".to_string(),
        ui_with(vec![window("panel", WindowOpen::Manual, WindowContent::App, None)]),
    )];
    let ws = plugin_windows(&decls);
    assert_eq!(ws.len(), 1);
    assert_eq!(ws[0].label, "plugin-p-panel");
    assert_eq!(ws[0].slot, "p");
    assert_eq!(ws[0].name, "panel");
    assert_eq!(ws[0].component, "Panel");
    assert_eq!(ws[0].title, "p");
    assert_eq!(ws[0].open, "manual");
    assert_eq!(ws[0].content, "app");
    assert_eq!(window_url_of(&ws[0]), "plugin-window?label=plugin-p-panel");
}

#[test]
fn two_plugins_may_use_the_same_window_name_without_collision() {
    let decls = vec![
        ("a".to_string(), ui_with(vec![window("panel", WindowOpen::Manual, WindowContent::App, None)])),
        ("b".to_string(), ui_with(vec![window("panel", WindowOpen::Manual, WindowContent::App, None)])),
    ];
    let ws = plugin_windows(&decls);
    assert_eq!(ws.len(), 2);
    assert_ne!(ws[0].label, ws[1].label);
    assert_eq!(plugin_window_by_label(&decls, "plugin-b-panel").unwrap().slot, "b");
    assert!(plugin_window_by_label(&decls, "main").is_none());
}

#[test]
fn an_html_window_serves_its_declared_page_and_loads_the_shell() {
    let decls = vec![(
        "h".to_string(),
        ui_with(vec![window("page", WindowOpen::Manual, WindowContent::Html, Some("<b>hi</b>"))]),
    )];
    let ws = plugin_windows(&decls);
    assert_eq!(ws[0].content, "html");
    assert_eq!(window_url_of(&ws[0]), "plugin-window-shell.html");
    assert_eq!(window_html(&decls, "plugin-h-page"), Some("<b>hi</b>".to_string()));
    assert_eq!(window_html(&decls, "plugin-h-other"), None);
}

#[test]
fn two_plugins_cannot_both_own_the_startup_window() {
    let decls = vec![
        ("a".to_string(), ui_with(vec![window("main", WindowOpen::Startup, WindowContent::App, None)])),
        ("b".to_string(), ui_with(vec![window("main", WindowOpen::Startup, WindowContent::App, None)])),
    ];
    let ws = plugin_windows(&decls);
    match startup_window(&ws) {
        Err(e) => {
            assert_eq!(
                e.message(),
                "2 plugins declare a startup window (plugin-a-main, plugin-b-main); only one may own the launch view — the winner would otherwise depend on load order"
            );
            assert!(matches!(e, StudioError::StartupConflict(_)));
        }
        Ok(_) => panic!("two claimants must be an error"),
    }
}

#[test]
fn a_single_startup_window_owns_the_launch_view_and_auto_does_not() {
    let decls = vec![
        ("a".to_string(), ui_with(vec![window("w", WindowOpen::Auto, WindowContent::App, None)])),
        ("b".to_string(), ui_with(vec![window("shell", WindowOpen::Startup, WindowContent::App, None)])),
    ];
    let ws = plugin_windows(&decls);
    match startup_window(&ws) {
        Ok(Some(w)) => assert_eq!(w.label, "plugin-b-shell"),
        _ => panic!("one claimant owns the launch view"),
    }
    let only_auto = vec![("a".to_string(), ui_with(vec![window("w", WindowOpen::Auto, WindowContent::App, None)]))];
    assert!(matches!(startup_window(&plugin_windows(&only_auto)), Ok(None)));
    assert_eq!(auto_window_labels(&ws, "a"), vec!["plugin-a-w".to_string()]);
    assert!(auto_window_labels(&ws, "b").is_empty());
}

#[test]
fn opening_an_unknown_window_is_a_clear_error_not_a_panic() {
    let studio: Studio = Studio::new("/data/plugins".to_string(), "/data/studio.json".to_string());
    let decls: Vec<(String, UiDecl)> = vec![];
    match window_plan(&studio, &decls, "plugin-nope-x") {
        Err(StudioError::UnknownWindow(l)) => assert_eq!(l, "plugin-nope-x"),
        _ => panic!("unknown window must be refused"),
    }
    let e = StudioError::UnknownWindow("plugin-nope-x".to_string());
    assert_eq!(e.message(), "no plugin declares a window labelled `plugin-nope-x`");
}

#[test]
fn an_app_window_is_handed_its_queued_params_and_an_html_window_its_page() {
    let mut studio: Studio = Studio::new("/data/plugins".to_string(), "/data/studio.json".to_string());
    let decls = vec![(
        "p".to_string(),
        ui_with(vec![
            window("panel", WindowOpen::Manual, WindowContent::App, None),
            window("page", WindowOpen::Manual, WindowContent::Html, Some("<i>x</i>")),
        ]),
    )];
    match window_plan(&studio, &decls, "plugin-p-panel") {
        Ok(plan) => {
            assert_eq!(plan.url, "plugin-window?label=plugin-p-panel");
            assert!(matches!(plan.init, InitScript::Nothing));
        }
        Err(_) => panic!("declared window"),
    }
    studio.queue_window_params("plugin-p-panel", Json::Str("sel".to_string()));
    match window_plan(&studio, &decls, "plugin-p-panel") {
        Ok(plan) => match plan.init {
            InitScript::Params(j) => assert_eq!(j, Json::Str("sel".to_string())),
            _ => panic!("queued params are handed to the window"),
        },
        Err(_) => panic!("declared window"),
    }
    match window_plan(&studio, &decls, "plugin-p-page") {
        Ok(plan) => {
            assert_eq!(plan.url, "plugin-window-shell.html");
            match plan.init {
                InitScript::Page(script) => {
                    assert_eq!(script, html_window_bootstrap("<i>x</i>", "plugin-p-page"));
                }
                _ => panic!("an html window writes its page"),
            }
        }
        Err(_) => panic!("declared window"),
    }
}
