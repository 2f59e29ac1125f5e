use dsh_wasm_studio::error::StudioError;
use dsh_wasm_studio::json::Json;
use dsh_wasm_studio::llm::{
    adapter_routes_of, harness_adapters_of, http_failure_message, llm_reply_of, llm_settings_of, merged_llm_of,
    model_row_of, models_of_body, models_of_response, parse_body, models_reply, models_request_of, persona_text, with_discovered_of,
};

fn s(x: &str) -> Json {
    Json::Str(x.to_string())
}

fn obj(entries: Vec<(&str, Json)>) -> Json {
    let mut v: Vec<(String, Json)> = entries.into_iter().map(|(k, v)| (k.to_string(), v)).collect();
    v.sort_by(|a, b| a.0.cmp(&b.0));
    Json::Object(v)
}

fn extra_with_llm(llm: Json) -> Option<Json> {
    Some(obj(vec![("llm", llm)]))
}

#[test]
fn the_harness_gets_every_provider_with_a_base_url_but_never_mock() {
    let extra = extra_with_llm(obj(vec![(
        "providers",
        obj(vec![
            ("mock", obj(vec![])),
            ("blank", obj(vec![("base_url", s("   "))])),
            ("deepseek", obj(vec![("base_url", s("https://api.deepseek.com/v1")), ("api_key", s("k"))])),
            ("odd", s("not an object")),
        ]),
    )]));
    let adapters = harness_adapters_of(&extra).expect("one adapter");
    assert_eq!(
        adapters,
        obj(vec![("deepseek", obj(vec![("base_url", s("https://api.deepseek.com/v1")), ("api_key", s("k"))]))])
    );
    assert_eq!(harness_adapters_of(&None), None);
    let only_mock = extra_with_llm(obj(vec![("providers", obj(vec![("mock", obj(vec![]))]))]));
    assert_eq!(harness_adapters_of(&only_mock), None, "an empty adapter set is no adapter set");
}

#[test]
fn a_route_takes_its_model_from_the_entry_then_the_selection_then_the_list() {
    let extra = extra_with_llm(obj(vec![
        (
            "providers",
            obj(vec![
                ("a", obj(vec![("base_url", s(" https://a/v1// ")), ("model", s("explicit"))])),
                ("b", obj(vec![("base_url", s("https://b"))])),
                ("c", obj(vec![("base_url", s("https://c")), ("api_key", s("kc"))])),
            ]),
        ),
        ("current", obj(vec![("model", s("picked")), ("provider", s("b"))])),
        ("model_lists", obj(vec![("c", Json::Array(vec![obj(vec![("id", s("listed"))]), s("second")]))])),
    ]));
    let routes = adapter_routes_of(&extra);
    let got: Vec<(String, String, String, String)> =
        routes.iter().map(|r| (r.name.clone(), r.base_url.clone(), r.api_key.clone(), r.model.clone())).collect();
    assert_eq!(
        got,
        vec![
            ("a".into(), "https://a/v1".into(), "".into(), "explicit".into()),
            ("b".into(), "https://b".into(), "".into(), "picked".into()),
            ("c".into(), "https://c".into(), "kc".into(), "listed".into()),
        ]
    );
    assert_eq!(
        routes[2].adapter_config(),
        obj(vec![("api_key", s("kc")), ("base_url", s("https://c")), ("model", s("listed"))])
    );
}

#[test]
fn a_fresh_install_shows_mock_selected() {
    let got = llm_settings_of(&None, &vec!["mock".to_string()]);
    assert_eq!(
        got,
        obj(vec![
            ("current", obj(vec![("model", s("mock-1")), ("provider", s("mock"))])),
            ("default", s("mock")),
            ("discovered", obj(vec![])),
            ("model_lists", obj(vec![])),
            ("providers", obj(vec![("mock", obj(vec![("model", s("mock-1"))]))])),
            ("registered", Json::Array(vec![s("mock")])),
        ])
    );
}

#[test]
fn a_settings_patch_merges_providers_and_drops_mock_and_nulls() {
    let extra = extra_with_llm(obj(vec![
        ("providers", obj(vec![("old", obj(vec![("base_url", s("https://old")), ("model", s("m0"))]))])),
        ("model_lists", obj(vec![("old", Json::Array(vec![s("m0")]))])),
    ]));
    let patch = obj(vec![
        (
            "providers",
            obj(vec![
                ("mock", obj(vec![("model", s("x"))])),
                ("old", obj(vec![("apiKey", s("k2")), ("model", Json::Null)])),
                ("new", obj(vec![("baseUrl", s("https://new")), ("models", Json::Array(vec![s("new"), s("n1")]))])),
            ]),
        ),
        ("default", s("new")),
    ]);
    let merged = merged_llm_of(&extra, &patch);
    assert_eq!(
        merged,
        extra_with_llm(obj(vec![
            ("default", s("new")),
            ("model_lists", obj(vec![("new", Json::Array(vec![s("n1")])), ("old", Json::Array(vec![s("m0")]))])),
            (
                "providers",
                obj(vec![
                    ("new", obj(vec![("base_url", s("https://new"))])),
                    ("old", obj(vec![("api_key", s("k2")), ("base_url", s("https://old")), ("model", s("m0"))])),
                ]),
            ),
        ]))
        .unwrap()
    );
    let removed = merged_llm_of(&extra, &obj(vec![("providers", obj(vec![("old", Json::Null)]))]));
    assert_eq!(removed, extra_with_llm(obj(vec![("model_lists", obj(vec![])), ("providers", obj(vec![]))])).unwrap());
}

#[test]
fn the_settings_reply_says_when_a_restart_is_needed() {
    let extra = extra_with_llm(obj(vec![("providers", obj(vec![("deepseek", obj(vec![("base_url", s("https://d"))]))]))]));
    let reply = llm_reply_of(&extra, &vec!["mock".to_string()], Some("boom".to_string()));
    let Json::Object(o) = reply else { panic!("an object") };
    let get = |k: &str| o.iter().find(|(key, _)| key == k).map(|(_, v)| v);
    assert_eq!(get("restart_required"), Some(&Json::Bool(true)));
    assert_eq!(get("sync_error"), Some(&s("boom")));
    assert_eq!(get("registered"), Some(&Json::Array(vec![s("mock")])));
    let live = llm_reply_of(&extra, &vec!["deepseek".to_string(), "mock".to_string()], None);
    let Json::Object(o) = live else { panic!("an object") };
    assert!(o.iter().any(|(k, v)| k == "restart_required" && *v == Json::Bool(false)));
    assert!(!o.iter().any(|(k, _)| k == "sync_error"));
}

#[test]
fn the_persona_is_the_configured_prompt_or_the_default() {
    let custom = extra_with_llm(obj(vec![("system_prompt", s("  Be brief.  "))]));
    assert_eq!(persona_text(&custom), "Be brief.");
    let blank = extra_with_llm(obj(vec![("system_prompt", s("   "))]));
    let default = persona_text(&None);
    assert!(default.starts_with("你是 Studio 里的助手。"));
    assert_eq!(persona_text(&blank), default);
}

#[test]
fn a_models_request_prefers_arguments_and_needs_a_base_url() {
    let extra = extra_with_llm(obj(vec![(
        "providers",
        obj(vec![("p", obj(vec![("api_key", s("stored-key")), ("base_url", s("https://p/v1/"))]))]),
    )]));
    let q = models_request_of(&extra, Some("p".to_string()), None, None).expect("stored base url");
    assert_eq!((q.endpoint.as_str(), q.api_key.as_str(), q.provider.as_str()), ("https://p/v1/models", "stored-key", "p"));
    let q = models_request_of(&extra, Some("p".to_string()), Some("http://x".to_string()), Some("k".to_string())).unwrap();
    assert_eq!((q.endpoint.as_str(), q.api_key.as_str()), ("http://x/models", "k"));
    let raw = models_request_of(&None, None, Some("http://raw/".to_string()), None).unwrap();
    assert_eq!((raw.endpoint.as_str(), raw.provider.as_str()), ("http://raw/models", ""));
    match models_request_of(&extra, Some("absent".to_string()), None, None) {
        Err(e) => {
            assert!(matches!(e, StudioError::MissingBaseUrl));
            assert_eq!(e.message(), "missing base_url");
        }
        Ok(_) => panic!("no base url"),
    }
}

#[test]
fn a_failed_models_request_reports_at_most_300_characters_of_body() {
    let body = "x".repeat(400);
    let m = http_failure_message("http://p/models", "401 Unauthorized", &body);
    assert_eq!(m, format!("GET http://p/models -> 401 Unauthorized: {}", "x".repeat(300)));
    assert_eq!(http_failure_message("e", "500", "short"), "GET e -> 500: short");
}

#[test]
fn model_rows_are_normalised() {
    let item = obj(vec![
        ("id", s(" gpt ")),
        ("context_window", Json::Number("128000".to_string())),
        ("image", Json::Bool(true)),
        ("capabilities", obj(vec![("reasoning", Json::Bool(true))])),
        ("owned_by", s("me")),
    ]);
    let row = model_row_of(&item).expect("has an id");
    assert_eq!(
        row,
        obj(vec![
            ("capabilities", obj(vec![("reasoning", Json::Bool(true))])),
            ("context", Json::Number("128000".to_string())),
            ("contextWindow", Json::Number("128000".to_string())),
            ("context_window", Json::Number("128000".to_string())),
            ("id", s("gpt")),
            ("image", Json::Bool(true)),
            ("name", s("gpt")),
            ("owned_by", s("me")),
            ("reasoning", Json::Bool(true)),
            ("vision", Json::Bool(true)),
        ])
    );
    assert_eq!(model_row_of(&obj(vec![("id", s("  "))])), None);
    assert_eq!(model_row_of(&obj(vec![("name", s("n"))])), Some(obj(vec![("id", s("n")), ("name", s("n"))])));
}

#[test]
fn a_models_listing_reads_data_or_a_bare_array() {
    let listing = obj(vec![("data", Json::Array(vec![obj(vec![("id", s("a"))]), obj(vec![("id", s(""))])]))]);
    assert_eq!(models_of_response(&listing), vec![obj(vec![("id", s("a")), ("name", s("a"))])]);
    let bare = Json::Array(vec![obj(vec![("id", s("b"))])]);
    assert_eq!(models_of_response(&bare).len(), 1);
    assert!(models_of_response(&obj(vec![])).is_empty());
    let models = models_of_response(&listing);
    assert_eq!(
        models_reply(&models, &"p".to_string()),
        obj(vec![("models", Json::Array(vec![obj(vec![("id", s("a")), ("name", s("a"))])])), ("provider", s("p"))])
    );
}

#[test]
fn discovered_models_are_cached_under_their_provider() {
    let models = vec![obj(vec![("id", s("a")), ("name", s("a"))])];
    assert_eq!(with_discovered_of(&None, &String::new(), &models), None, "an unnamed listing is not cached");
    let got = with_discovered_of(&None, &"p".to_string(), &models).expect("cached");
    assert_eq!(
        got,
        obj(vec![(
            "llm",
            obj(vec![("discovered", obj(vec![("p", Json::Array(vec![obj(vec![("id", s("a")), ("name", s("a"))])]))]))]),
        )])
    );
}

#[test]
fn a_models_body_is_parsed_before_it_is_read() {
    let body = r#"{"object":"list","data":[{"id":"m1","context_window":8192},{"id":""}]}"#;
    assert_eq!(
        models_of_body(body),
        vec![obj(vec![
            ("context", Json::Number("8192".to_string())),
            ("contextWindow", Json::Number("8192".to_string())),
            ("context_window", Json::Number("8192".to_string())),
            ("id", s("m1")),
            ("name", s("m1")),
        ])]
    );
    assert_eq!(models_of_body(r#"[{"id":"x"}]"#), vec![obj(vec![("id", s("x")), ("name", s("x"))])]);
    assert!(models_of_body("not json").is_empty());
    assert!(models_of_body("").is_empty());
}

#[test]
fn a_body_parses_into_the_json_model_with_sorted_keys() {
    assert_eq!(
        parse_body(r#"{"b":[1,true,null],"a":"x"}"#),
        Some(obj(vec![
            ("a", s("x")),
            ("b", Json::Array(vec![Json::Number("1".to_string()), Json::Bool(true), Json::Null])),
        ]))
    );
    assert_eq!(parse_body("{"), None);
}

#[test]
fn a_settings_merge_leaves_providers_it_does_not_name() {
    let kept = obj(vec![("base_url", s("https://keep")), ("model", s("k"))]);
    let extra = extra_with_llm(obj(vec![
        ("providers", obj(vec![("keep", kept), ("touch", obj(vec![("model", s("t0"))]))])),
        ("model_lists", obj(vec![("keep", Json::Array(vec![s("k"), s("k2")]))])),
    ]));
    let patch = obj(vec![("providers", obj(vec![("touch", obj(vec![("model", s("t1"))]))]))]);
    let merged = merged_llm_of(&extra, &patch);
    let llm = merged.get("llm").unwrap();
    assert_eq!(
        llm.get("providers").unwrap().get("keep"),
        Some(&obj(vec![("base_url", s("https://keep")), ("model", s("k"))]))
    );
    assert_eq!(llm.get("model_lists").unwrap().get("keep"), Some(&Json::Array(vec![s("k"), s("k2")])));
    assert_eq!(llm.get("providers").unwrap().get("touch"), Some(&obj(vec![("model", s("t1"))])));
}
