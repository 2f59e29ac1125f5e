use dsh_wasm_studio::error::StudioError;
use dsh_wasm_studio::json::Json;
use dsh_wasm_studio::plugins::{
    build_output_dirs, build_output_dirs_in, CacheConfig, build_output_rels, config_dir, discover_roots_at, resolve_path, Discovered,
    FileNames, PathFacts, PluginEntry, RootListing, RunningPlugin,
    StudioConfig,
};

fn entry(path: &str, enabled: bool) -> PluginEntry {
    PluginEntry { path: path.to_string(), enabled, watch: None, config: None, restart_on_config: false }
}

fn config_with(entries: Vec<(&str, PluginEntry)>) -> StudioConfig {
    let mut cfg = StudioConfig::first_boot("cwasm-cache".to_string());
    for (slot, e) in entries {
        cfg.put(slot.to_string(), e);
    }
    cfg
}

fn slots(cfg: &StudioConfig) -> Vec<String> {
    cfg.plugins().iter().map(|(k, _)| k.clone()).collect()
}

#[test]
fn paths_resolve_against_the_config_directory() {
    assert_eq!(config_dir("/data/studio.json"), "/data");
    assert_eq!(config_dir("studio.json"), "");
    assert_eq!(config_dir("/"), ".");
    assert_eq!(resolve_path("/data/studio.json", "p.wasm"), "/data/p.wasm");
    assert_eq!(resolve_path("/data/studio.json", "/abs/p.wasm"), "/abs/p.wasm");
    assert_eq!(resolve_path("studio.json", "p.wasm"), "p.wasm");
}

#[test]
fn first_boot_caches_compiled_plugins_and_configures_nothing() {
    let cfg = StudioConfig::first_boot("/data/cwasm-cache".to_string());
    assert!(cfg.plugins().is_empty());
    assert!(cfg.extra().is_none());
    assert_eq!(cfg.cache_dir("/data"), Some("/data/cwasm-cache".to_string()));
    let rel = StudioConfig::first_boot("cwasm-cache".to_string());
    assert_eq!(rel.cache_dir("/data"), Some("/data/cwasm-cache".to_string()));
    let mut off = StudioConfig::first_boot("cwasm-cache".to_string());
    off.set_cache(Some(CacheConfig { dir: "cwasm-cache".to_string(), enabled: false }));
    assert_eq!(off.cache_dir("/data"), None);
}

#[test]
fn loading_a_plugin_persists_it_to_the_config_file() {
    let mut cfg = config_with(vec![]);
    cfg.record_mount("greet".to_string(), "/abs/hello.wasm".to_string(), Json::Null);
    let e = cfg.get("greet").expect("persisted");
    assert_eq!(e.path, "/abs/hello.wasm");
    assert!(e.enabled);
    assert_eq!(e.watch, None);
    assert_eq!(e.config, None, "a null config is not persisted");
    cfg.record_mount("cfg".to_string(), "/abs/c.wasm".to_string(), Json::Str("Hi".to_string()));
    assert_eq!(cfg.get("cfg").unwrap().config, Some(Json::Str("Hi".to_string())));
}

#[test]
fn mounting_the_same_slot_twice_replaces_it() {
    let mut cfg = config_with(vec![("a", entry("/x/a.wasm", false)), ("b", entry("/x/b.wasm", true))]);
    cfg.record_mount("a".to_string(), "/y/a.wasm".to_string(), Json::Null);
    assert_eq!(slots(&cfg), vec!["a".to_string(), "b".to_string()], "replaced in place, not added");
    assert_eq!(cfg.get("a").unwrap().path, "/y/a.wasm");
    assert!(cfg.get("a").unwrap().enabled);
}

#[test]
fn stopping_keeps_a_plugin_configured_and_removing_forgets_it() {
    let mut cfg = config_with(vec![("a", entry("/x/a.wasm", true)), ("b", entry("/x/b.wasm", true))]);
    cfg.disable("a");
    let a = cfg.get("a").expect("a stopped plugin stays listed");
    assert!(!a.enabled);
    assert_eq!(a.path, "/x/a.wasm");
    cfg.disable("ghost");
    assert_eq!(slots(&cfg), vec!["a".to_string(), "b".to_string()]);
    cfg.remove("a");
    assert!(cfg.get("a").is_none());
    assert!(cfg.get("b").unwrap().enabled, "another slot is untouched");
}

#[test]
fn enabling_an_unconfigured_slot_is_refused() {
    let mut cfg = config_with(vec![("a", entry("/x/a.wasm", false))]);
    match cfg.set_enabled("ghost", true) {
        Err(e) => {
            assert!(matches!(e, StudioError::SlotNotConfigured(ref s) if s == "ghost"));
            assert_eq!(e.message(), "slot `ghost` is not in the config");
        }
        Ok(_) => panic!("not configured"),
    }
    match cfg.set_enabled("a", true) {
        Ok((path, config)) => {
            assert_eq!(path, "/x/a.wasm");
            assert_eq!(config, Json::Null);
        }
        Err(_) => panic!("configured"),
    }
    assert!(cfg.get("a").unwrap().enabled);
}

#[test]
fn a_config_change_is_persisted_and_null_clears_it() {
    let mut cfg = config_with(vec![("a", entry("/x/a.wasm", true))]);
    cfg.configure("a", Json::Bool(true));
    assert_eq!(cfg.get("a").unwrap().config, Some(Json::Bool(true)));
    cfg.configure("a", Json::Null);
    assert_eq!(cfg.get("a").unwrap().config, None);
    cfg.configure("ghost", Json::Bool(true));
    assert!(cfg.get("ghost").is_none());
}

#[test]
fn enabled_plugins_autoload_on_next_boot_and_disabled_ones_do_not() {
    let mut on = entry("p/a.wasm", true);
    on.config = Some(Json::Str("cfg".to_string()));
    let cfg = config_with(vec![("a", on), ("b", entry("/abs/b.wasm", false)), ("c", entry("/abs/c.wasm", true))]);
    let plan = cfg.autoload_plan("/data/studio.json");
    assert_eq!(plan.len(), 2);
    assert_eq!(plan[0].slot, "a");
    assert_eq!(plan[0].path, "/data/p/a.wasm");
    assert_eq!(plan[0].config, Json::Str("cfg".to_string()));
    assert_eq!(plan[1].slot, "c");
    assert_eq!(plan[1].path, "/abs/c.wasm");
    assert_eq!(plan[1].config, Json::Null);
}

#[test]
fn the_watcher_follows_enabled_plugins_unless_opted_out() {
    let mut quiet = entry("/abs/q.wasm", true);
    quiet.watch = Some(false);
    let mut loud = entry("/abs/l.wasm", true);
    loud.watch = Some(true);
    let cfg = config_with(vec![
        ("a", entry("a.wasm", true)),
        ("q", quiet),
        ("l", loud),
        ("off", entry("/abs/off.wasm", false)),
    ]);
    assert_eq!(
        cfg.watch_paths("/data/studio.json"),
        vec!["/data/a.wasm".to_string(), "/abs/l.wasm".to_string()]
    );
}

#[test]
fn a_changed_file_maps_to_its_slot_by_path_or_file_name() {
    let cfg = config_with(vec![("a", entry("/x/a.wasm", true)), ("b", entry("rel/b.wasm", true))]);
    assert_eq!(cfg.slot_for_path("/x/a.wasm"), Some("a".to_string()));
    assert_eq!(cfg.slot_for_path("/x//a.wasm"), Some("a".to_string()));
    assert_eq!(cfg.slot_for_path("/resolved/rel/b.wasm"), Some("b".to_string()));
    assert_eq!(cfg.slot_for_path("/x/c.wasm"), None);
}

#[test]
fn the_watcher_reloads_a_slot_once_per_change() {
    let cfg = config_with(vec![("a", entry("/x/a.wasm", true)), ("b", entry("/x/b.wasm", true))]);
    let mut mtimes: Vec<(String, u128)> = vec![];
    let now = vec![("/x/a.wasm".to_string(), 5u128), ("/x/b.wasm".to_string(), 7u128), ("/x/z.wasm".to_string(), 1u128)];
    assert_eq!(cfg.reload_plan(&mut mtimes, &now), vec!["a".to_string(), "b".to_string()]);
    assert_eq!(mtimes, vec![("a".to_string(), 5u128), ("b".to_string(), 7u128)]);
    // Nothing changed: nothing reloads.
    assert!(cfg.reload_plan(&mut mtimes, &now).is_empty());
    let later = vec![("/x/a.wasm".to_string(), 5u128), ("/x/b.wasm".to_string(), 9u128)];
    assert_eq!(cfg.reload_plan(&mut mtimes, &later), vec!["b".to_string()]);
    assert_eq!(mtimes, vec![("a".to_string(), 5u128), ("b".to_string(), 9u128)]);
}

fn running(slot: &str, state: &str, tools: usize, active: bool) -> RunningPlugin {
    RunningPlugin {
        slot: slot.to_string(),
        plugin: format!("{slot}-plugin"),
        state: state.to_string(),
        tool_count: tools,
        active,
    }
}

fn facts(path: &str, canon: &str, exists: bool) -> PathFacts {
    PathFacts { path: path.to_string(), canon: canon.to_string(), exists }
}

#[test]
fn catalog_lists_a_configured_but_stopped_plugin() {
    let cfg = config_with(vec![("stopped", entry("/x/s.wasm", false))]);
    let cat = cfg.catalog("/data/studio.json", &vec![], &vec![facts("/x/s.wasm", "/x/s.wasm", true)], &vec![]);
    assert_eq!(cat.len(), 1);
    let e = &cat[0];
    assert_eq!(e.slot, "stopped");
    assert_eq!(e.plugin, "stopped");
    assert_eq!(e.path, "/x/s.wasm");
    assert!(!e.running);
    assert!(!e.active);
    assert_eq!(e.state, "stopped");
    assert_eq!(e.tool_count, 0);
    assert!(e.in_config);
    assert!(!e.enabled);
    assert!(e.exists);
}

#[test]
fn a_running_plugin_reports_as_running_in_the_catalog() {
    let cfg = config_with(vec![("r", entry("/x/r.wasm", true))]);
    let cat = cfg.catalog("/data/studio.json", &vec![running("r", "active", 3, true)], &vec![], &vec![]);
    assert_eq!(cat[0].plugin, "r-plugin");
    assert!(cat[0].running);
    assert!(cat[0].active);
    assert_eq!(cat[0].state, "active");
    assert_eq!(cat[0].tool_count, 3);
    assert!(!cat[0].exists, "a path with no facts does not exist");
}

#[test]
fn catalog_includes_a_discovered_plugin_never_started_and_orders_by_slot() {
    let cfg = config_with(vec![("zeta", entry("/x/zeta.wasm", true))]);
    let found = vec![Discovered { slot: "alpha".to_string(), path: "/p/alpha.wasm".to_string() }];
    let cat = cfg.catalog("/data/studio.json", &vec![], &vec![], &found);
    assert_eq!(cat.len(), 2);
    assert_eq!(cat[0].slot, "alpha");
    assert_eq!(cat[0].state, "available");
    assert!(!cat[0].in_config);
    assert!(cat[0].exists);
    assert_eq!(cat[1].slot, "zeta");
}

#[test]
fn catalog_does_not_duplicate_a_running_plugin_that_is_also_discoverable() {
    let cfg = config_with(vec![("r", entry("/link/r.wasm", true))]);
    let f = vec![facts("/link/r.wasm", "/real/r.wasm", true), facts("/real/r.wasm", "/real/r.wasm", true)];
    let found = vec![Discovered { slot: "r".to_string(), path: "/real/r.wasm".to_string() }];
    let cat = cfg.catalog("/data/studio.json", &vec![running("r", "active", 1, true)], &f, &found);
    assert_eq!(cat.len(), 1, "the same file by canonical path is listed once");
    assert!(cat[0].running);
}

fn listing(dir: &str, label: &str, exists: bool, files: &[&str]) -> RootListing {
    RootListing {
        dir: dir.to_string(),
        label: label.to_string(),
        exists,
        files: files.iter().map(|f| f.to_string()).collect(),
    }
}

#[test]
fn discovery_looks_in_the_plugin_directory_each_configured_directory_and_build_outputs() {
    let cfg = config_with(vec![("a", entry("/x/a.wasm", true)), ("b", entry("rel/b.wasm", true))]);
    let roots = cfg.discover_roots("/data/plugins", "/data/studio.json", &vec!["/build/out".to_string()]);
    let want: Vec<(String, String)> = vec![
        ("/data/plugins".into(), "app plugin directory".into()),
        ("/x".into(), "configured plugin directory".into()),
        ("/data/rel".into(), "configured plugin directory".into()),
        ("/build/out".into(), "wasm-plugin-host build output".into()),
    ];
    assert_eq!(roots, want);
    assert_eq!(
        build_output_dirs("/data/plugins"),
        vec![
            "/data/../../../wasm-plugin-host/target/wasm32-wasip1/release".to_string(),
            "/data/../../wasm-plugin-host/target/wasm32-wasip1/release".to_string(),
            "/data/../wasm-plugin-host/target/wasm32-wasip1/release".to_string(),
        ]
    );
}

#[test]
fn discover_skips_already_configured_plugins_and_reports_every_location() {
    let cfg = config_with(vec![("known", entry("/link/known.wasm", true))]);
    let f = vec![facts("/link/known.wasm", "/p/known.wasm", true)];
    let listings = vec![
        listing("/p", "app plugin directory", true, &["/p/zed.wasm", "/p/known.wasm", "/p/notes.txt", "/p/alpha.wasm"]),
        listing("/missing", "wasm-plugin-host build output", false, &[]),
        listing("/q", "configured plugin directory", true, &["/p/zed.wasm", "/q/.wasm"]),
    ];
    let d = cfg.discover_scan(&listings, &f);
    let found: Vec<(String, String)> = d.plugins.iter().map(|q| (q.slot.clone(), q.path.clone())).collect();
    assert_eq!(
        found,
        vec![
            ("alpha".to_string(), "/p/alpha.wasm".to_string()),
            ("zed".to_string(), "/p/zed.wasm".to_string()),
        ]
    );
    assert_eq!(d.searched.len(), 3, "every location is reported, even when missing");
    assert_eq!(d.searched[0].path, "/p");
    assert_eq!(d.searched[0].wasm_count, 2);
    assert!(!d.searched[1].exists);
    assert_eq!(d.searched[1].wasm_count, 0);
    assert_eq!(d.searched[2].label, "configured plugin directory");
    assert_eq!(d.searched[2].wasm_count, 0, "a path already found is not counted again; `.wasm` has no extension");
}

fn strs(v: &[&str]) -> Vec<String> {
    v.iter().map(|x| x.to_string()).collect()
}

#[test]
fn resolved_paths_are_read_by_position() {
    let cfg = config_with(vec![("a", entry("a.wasm", true)), ("b", entry("/abs/b.wasm", false))]);
    assert_eq!(cfg.resolved_paths("/data/studio.json"), strs(&["/data/a.wasm", "/abs/b.wasm"]));
    let given = strs(&["R/a", "R/b"]);
    let plan = cfg.autoload_plan_at(&given);
    assert_eq!(plan.len(), 1);
    assert_eq!((plan[0].slot.as_str(), plan[0].path.as_str()), ("a", "R/a"));
    assert_eq!(cfg.watch_paths_at(&given), strs(&["R/a"]));
    let cat = cfg.catalog_at(&given, &vec![], &vec![], &vec![]);
    assert_eq!(cat.iter().map(|c| c.path.clone()).collect::<Vec<_>>(), strs(&["R/a", "R/b"]));
}

#[test]
fn a_changed_file_matches_by_the_given_path_facts() {
    let cfg = config_with(vec![("a", entry("/x/a.wasm", true)), ("b", entry("/y/b.wasm", true))]);
    let names = vec![Some("a.wasm".to_string()), Some("b.wasm".to_string())];
    assert_eq!(cfg.slot_matching(&vec![false, true], &names, &None), Some("b".to_string()));
    assert_eq!(cfg.slot_matching(&vec![false, false], &names, &Some("a.wasm".to_string())), Some("a".to_string()));
    assert_eq!(cfg.slot_matching(&vec![false, false], &names, &Some("c.wasm".to_string())), None);
}

#[test]
fn discovery_roots_and_build_outputs_from_given_directories() {
    let roots = discover_roots_at("/p", &vec![Some("/x".to_string()), None], &strs(&["/b"]));
    let want: Vec<(String, String)> = vec![
        ("/p".into(), "app plugin directory".into()),
        ("/x".into(), "configured plugin directory".into()),
        ("/b".into(), "wasm-plugin-host build output".into()),
    ];
    assert_eq!(roots, want);
    assert_eq!(build_output_rels().len(), 3);
    assert_eq!(build_output_dirs_in("/d")[2], "/d/../wasm-plugin-host/target/wasm32-wasip1/release");
    let cfg = StudioConfig::first_boot("cache".to_string());
    assert_eq!(cfg.cache_subdir(), Some(&"cache".to_string()));
}

#[test]
fn discovery_reads_extensions_and_stems_from_the_given_names() {
    let cfg = config_with(vec![]);
    let listings = vec![listing("/p", "app plugin directory", true, &["/p/one.bin", "/p/two.wasm"])];
    let names = vec![
        FileNames { path: "/p/one.bin".to_string(), extension: Some("wasm".to_string()), stem: Some("uno".to_string()) },
        FileNames { path: "/p/two.wasm".to_string(), extension: Some("wasm".to_string()), stem: None },
    ];
    let d = cfg.discover_scan_at(&listings, &vec![], &names);
    let found: Vec<(String, String)> = d.plugins.iter().map(|q| (q.slot.clone(), q.path.clone())).collect();
    assert_eq!(
        found,
        vec![("plugin".to_string(), "/p/two.wasm".to_string()), ("uno".to_string(), "/p/one.bin".to_string())]
    );
}

#[test]
fn a_seeded_watcher_does_not_reload_unchanged_files() {
    let cfg = config_with(vec![("a", entry("/x/a.wasm", true)), ("b", entry("/x/b.wasm", true))]);
    let now = vec![("/x/a.wasm".to_string(), 5u128), ("/x/b.wasm".to_string(), 7u128)];
    let mut mtimes = cfg.seed_stamps(&now);
    assert_eq!(mtimes, vec![("a".to_string(), 5u128), ("b".to_string(), 7u128)]);
    assert!(cfg.reload_plan(&mut mtimes, &now).is_empty());
    let later = vec![("/x/a.wasm".to_string(), 9u128), ("/x/b.wasm".to_string(), 7u128)];
    assert_eq!(cfg.reload_plan(&mut mtimes, &later), vec!["a".to_string()]);
}
