//! The LLM settings kept under `extra.llm` in `studio.json`: which provider
//! routes exist, what the settings page shows, how a patch from the page is
//! merged, and what a `/models` listing becomes.

use vstd::prelude::*;
use crate::json::{
    as_array, as_object, as_str, entries_get, entries_insert, entries_remove, get_in, is_true,
    jget, lemma_entries_view, lemma_entries_view_ext, lemma_obj_get_insert, lemma_obj_get_remove, lemma_views,
    lemma_views_ext, obj_get,
    obj_insert, obj_keys, obj_or_insert, obj_remove, object_or_empty, oget, opt_json, opt_view,
    str_or_empty, Entries, Json, JsonV,
};
use crate::text::{
    is_empty_str, owned, push_str, str_eq, strip_trailing, strip_trailing_char, trim, trim_str,
};

verus! {

broadcast use vstd::std_specs::vec::group_vec_axioms;

// ---------------------------------------------------------------------------
// Shared shapes
// ---------------------------------------------------------------------------

/// `extra.llm`, when `extra` is present.
pub open spec fn llm_of(extra: Option<JsonV>) -> Option<JsonV> {
    oget(extra, "llm"@)
}

/// An object's entries, or none for any other value.
pub open spec fn norm_obj(j: Option<JsonV>) -> Entries {
    object_or_empty(j)
}

/// The view of a list of strings.
pub open spec fn str_views(v: Seq<String>) -> Seq<Seq<char>> {
    v.map_values(|s: String| s@)
}

/// The entries of an object, copied; none for any other value.
pub fn entries_or_empty(j: Option<&Json>) -> (r: Vec<(String, Json)>)
    ensures
        Json::entries_view(r@) == norm_obj(opt_view(j)),
{
    match j {
        Some(Json::Object(o)) => crate::json::dup_entries(o),
        _ => {
            let r: Vec<(String, Json)> = Vec::new();
            proof {
                lemma_entries_view(r@);
            }
            assert(Json::entries_view(r@) =~= Seq::<(Seq<char>, JsonV)>::empty());
            r
        },
    }
}

/// `Value::as_str().unwrap_or("")`, copied.
pub fn str_or_empty_of(j: Option<&Json>) -> (r: String)
    ensures
        r@ == str_or_empty(opt_view(j)),
{
    match j {
        Some(Json::Str(s)) => s.clone(),
        _ => String::new(),
    }
}

/// `extra.llm`, borrowed.
pub fn llm_section(extra: &Option<Json>) -> (r: Option<&Json>)
    ensures
        opt_view(r) == llm_of(opt_json(*extra)),
{
    match extra {
        Some(e) => e.get("llm"),
        None => None,
    }
}

/// Two strings as a JSON object `{a_key: a, b_key: b}`, keys given in order.
fn pair_object(k1: &str, v1: Json, k2: &str, v2: Json) -> (r: Json)
    ensures
        r.view() == JsonV::Object(seq![(k1@, v1.view()), (k2@, v2.view())]),
{
    let mut o: Vec<(String, Json)> = Vec::new();
    let ghost (a, b) = (v1.view(), v2.view());
    o.push((owned(k1), v1));
    o.push((owned(k2), v2));
    proof {
        lemma_entries_view_ext(o@, seq![(k1@, a), (k2@, b)]);
    }
    Json::Object(o)
}

// ---------------------------------------------------------------------------
// The harness's provider routes
// ---------------------------------------------------------------------------

/// A provider entry dsh can mount as a route: not the built-in `mock`, an
/// object, and with a non-blank `base_url`.
pub open spec fn is_adapter_entry(e: (Seq<char>, JsonV)) -> bool {
    &&& e.0 != "mock"@
    &&& e.1 is Object
    &&& trim(str_or_empty(jget(e.1, "base_url"@))).len() > 0
}

/// The provider entries dsh can mount, in order.
pub open spec fn adapter_entries(p: Entries) -> Entries
    decreases p.len(),
{
    if p.len() == 0 {
        Seq::empty()
    } else if is_adapter_entry(p.last()) {
        adapter_entries(p.drop_last()).push(p.last())
    } else {
        adapter_entries(p.drop_last())
    }
}

/// The `adapters` section handed to dsh's base bundle: the configured
/// providers it can mount, or nothing when there are none.
pub open spec fn harness_adapters(extra: Option<JsonV>) -> Option<JsonV> {
    match as_object(oget(llm_of(extra), "providers"@)) {
        Some(p) => if adapter_entries(p).len() > 0 {
            Some(JsonV::Object(adapter_entries(p)))
        } else {
            None
        },
        None => None,
    }
}

proof fn lemma_adapter_entries_mountable(p: Entries)
    ensures
        forall|i: int| 0 <= i < adapter_entries(p).len() ==> is_adapter_entry(#[trigger] adapter_entries(p)[i]),
    decreases p.len(),
{
    if p.len() > 0 {
        lemma_adapter_entries_mountable(p.drop_last());
        let r = adapter_entries(p.drop_last());
        assert forall|i: int| 0 <= i < adapter_entries(p).len() implies is_adapter_entry(
            #[trigger] adapter_entries(p)[i],
        ) by {
            if i < r.len() {
                assert(adapter_entries(p)[i] == r[i]);
            }
        }
    }
}

/// Every route handed to the harness is mountable: never the built-in
/// `mock` (which would conflict with dsh's own), always an object with a
/// non-blank base URL.
pub proof fn lemma_harness_adapters_never_mock(extra: Option<JsonV>)
    ensures
        harness_adapters(extra) matches Some(JsonV::Object(es)) ==> forall|i: int|
            0 <= i < es.len() ==> (#[trigger] es[i]).0 != "mock"@ && is_adapter_entry(es[i]),
{
    match as_object(oget(llm_of(extra), "providers"@)) {
        Some(p) => lemma_adapter_entries_mountable(p),
        None => {},
    }
}

fn is_adapter_entry_exec(e: &(String, Json)) -> (b: bool)
    ensures
        b == is_adapter_entry((e.0@, e.1.view())),
{
    if str_eq(e.0.as_str(), "mock") {
        return false;
    }
    if !e.1.is_object() {
        return false;
    }
    let base = str_or_empty_of(e.1.get("base_url"));
    let t = trim_str(base.as_str());
    !is_empty_str(t.as_str())
}

/// The providers section of `extra.llm` that dsh's base bundle mounts as
/// routes (`BaseConfig::adapters`).
pub fn harness_adapters_of(extra: &Option<Json>) -> (r: Option<Json>)
    ensures
        opt_json(r) == harness_adapters(opt_json(*extra)),
{
    let providers = get_in(llm_section(extra), "providers");
    let p = match providers {
        Some(Json::Object(p)) => p,
        _ => {
            return None;
        },
    };
    let ghost pv = Json::entries_view(p@);
    proof {
        lemma_entries_view(p@);
    }
    let mut out: Vec<(String, Json)> = Vec::new();
    let mut i: usize = 0;
    while i < p.len()
        invariant
            i <= p.len(),
            pv == Json::entries_view(p@),
            pv.len() == p@.len(),
            forall|j: int| 0 <= j < p@.len() ==> #[trigger] pv[j] == (p@[j].0@, p@[j].1.view()),
            Json::entries_view(out@) == adapter_entries(pv.take(i as int)),
        decreases p.len() - i,
    {
        let ghost before = out@;
        assert(pv.take(i + 1).drop_last() =~= pv.take(i as int));
        assert(pv.take(i + 1).last() == pv[i as int]);
        if is_adapter_entry_exec(&p[i]) {
            let k = p[i].0.clone();
            let v = p[i].1.duplicate();
            out.push((k, v));
            proof {
                lemma_entries_view(out@);
                lemma_entries_view(before);
                lemma_entries_view_ext(out@, Json::entries_view(before).push(pv[i as int]));
            }
        }
        i += 1;
    }
    assert(pv.take(i as int) =~= pv);
    proof {
        lemma_entries_view(out@);
    }
    if out.len() > 0 {
        Some(Json::Object(out))
    } else {
        None
    }
}

// ---------------------------------------------------------------------------
// Registering routes after boot
// ---------------------------------------------------------------------------

/// One OpenAI-compatible route to (re)register.
pub struct AdapterPlan {
    pub name: String,
    pub base_url: String,
    pub api_key: String,
    pub model: String,
}

/// An adapter plan as plain values: `(name, base_url, api_key, model)`.
pub type PlanV = (Seq<char>, Seq<char>, Seq<char>, Seq<char>);

impl AdapterPlan {
    pub open spec fn view(&self) -> PlanV {
        (self.name@, self.base_url@, self.api_key@, self.model@)
    }

    /// The adapter configuration dsh's OpenAI adapter reads:
    /// `{"api_key", "base_url", "model"}`.
    pub fn adapter_config(&self) -> (r: Json)
        ensures
            r.view() == JsonV::Object(
                seq![
                    ("api_key"@, JsonV::Str(self.api_key@)),
                    ("base_url"@, JsonV::Str(self.base_url@)),
                    ("model"@, JsonV::Str(self.model@)),
                ],
            ),
    {
        let mut o: Vec<(String, Json)> = Vec::new();
        o.push((owned("api_key"), Json::Str(self.api_key.clone())));
        o.push((owned("base_url"), Json::Str(self.base_url.clone())));
        o.push((owned("model"), Json::Str(self.model.clone())));
        proof {
            lemma_entries_view_ext(
                o@,
                seq![
                    ("api_key"@, JsonV::Str(self.api_key@)),
                    ("base_url"@, JsonV::Str(self.base_url@)),
                    ("model"@, JsonV::Str(self.model@)),
                ],
            );
        }
        Json::Object(o)
    }
}

/// The first model a `model_lists` entry names: a string item, or an
/// object item's `id`.
pub open spec fn first_listed(items: Seq<JsonV>) -> Seq<char>
    decreases items.len(),
{
    if items.len() == 0 {
        Seq::empty()
    } else {
        match items[0] {
            JsonV::Str(s) => s,
            other => match as_str(jget(other, "id"@)) {
                Some(id) => id,
                None => first_listed(items.drop_first()),
            },
        }
    }
}

/// The model a route is registered with: its own `model`, else the current
/// selection when it is for this provider, else the first entry of its
/// `model_lists`.
pub open spec fn route_model(extra: Option<JsonV>, name: Seq<char>, entry: JsonV) -> Seq<char> {
    let own = str_or_empty(jget(entry, "model"@));
    let current = oget(llm_of(extra), "current"@);
    let selected = if as_str(oget(current, "provider"@)) == Some(name) {
        str_or_empty(oget(current, "model"@))
    } else {
        Seq::empty()
    };
    if own.len() > 0 {
        own
    } else if selected.len() > 0 {
        selected
    } else {
        match as_array(oget(oget(llm_of(extra), "model_lists"@), name)) {
            Some(items) => first_listed(items),
            None => Seq::empty(),
        }
    }
}

/// The route a provider entry yields, if any.
pub open spec fn route_plan(extra: Option<JsonV>, e: (Seq<char>, JsonV)) -> Option<PlanV> {
    let base = strip_trailing(trim(str_or_empty(jget(e.1, "base_url"@))), '/');
    if e.0 == "mock"@ || !(e.1 is Object) || base.len() == 0 {
        None
    } else {
        Some((e.0, base, str_or_empty(jget(e.1, "api_key"@)), route_model(extra, e.0, e.1)))
    }
}

/// The routes of the given provider entries, in order.
pub open spec fn route_plans(extra: Option<JsonV>, p: Entries) -> Seq<PlanV>
    decreases p.len(),
{
    if p.len() == 0 {
        Seq::empty()
    } else {
        match route_plan(extra, p.last()) {
            Some(r) => route_plans(extra, p.drop_last()).push(r),
            None => route_plans(extra, p.drop_last()),
        }
    }
}

/// The routes to (re)register from `extra.llm.providers`.
pub open spec fn adapter_routes(extra: Option<JsonV>) -> Seq<PlanV> {
    route_plans(extra, norm_obj(oget(llm_of(extra), "providers"@)))
}

fn first_listed_exec(items: &Vec<Json>) -> (r: String)
    ensures
        r@ == first_listed(Json::views(items@)),
{
    let ghost iv = Json::views(items@);
    proof {
        lemma_views(items@);
    }
    assert(iv.skip(0) =~= iv);
    let mut i: usize = 0;
    while i < items.len()
        invariant
            i <= items.len(),
            iv == Json::views(items@),
            iv.len() == items@.len(),
            forall|j: int| 0 <= j < items@.len() ==> #[trigger] iv[j] == items@[j].view(),
            first_listed(iv) == first_listed(iv.skip(i as int)),
        decreases items.len() - i,
    {
        let ghost rest = iv.skip(i as int);
        assert(rest[0] == iv[i as int]);
        assert(rest.drop_first() =~= iv.skip(i + 1));
        if let Some(s) = items[i].as_str() {
            return s.clone();
        }
        let id = get_in(Some(&items[i]), "id");
        match id {
            Some(Json::Str(s)) => {
                return s.clone();
            },
            _ => {},
        }
        i += 1;
    }
    assert(iv.skip(i as int).len() == 0);
    String::new()
}

fn route_model_exec(extra: &Option<Json>, name: &String, entry: &Json) -> (r: String)
    ensures
        r@ == route_model(opt_json(*extra), name@, entry.view()),
{
    let own = str_or_empty_of(entry.get("model"));
    if !is_empty_str(own.as_str()) {
        return own;
    }
    let llm = llm_section(extra);
    let current = get_in(llm, "current");
    let provider = get_in(current, "provider");
    let selected = match provider {
        Some(Json::Str(p)) => if str_eq(p.as_str(), name.as_str()) {
            str_or_empty_of(get_in(current, "model"))
        } else {
            String::new()
        },
        _ => String::new(),
    };
    if !is_empty_str(selected.as_str()) {
        return selected;
    }
    let lists = get_in(llm, "model_lists");
    match get_in(lists, name.as_str()) {
        Some(Json::Array(items)) => first_listed_exec(items),
        _ => String::new(),
    }
}

fn route_plan_exec(extra: &Option<Json>, e: &(String, Json)) -> (r: Option<AdapterPlan>)
    ensures
        match r {
            Some(p) => route_plan(opt_json(*extra), (e.0@, e.1.view())) == Some(p.view()),
            None => route_plan(opt_json(*extra), (e.0@, e.1.view())) is None,
        },
{
    if str_eq(e.0.as_str(), "mock") || !e.1.is_object() {
        return None;
    }
    let raw = str_or_empty_of(e.1.get("base_url"));
    let trimmed = trim_str(raw.as_str());
    let base = strip_trailing_char(trimmed.as_str(), '/');
    if is_empty_str(base.as_str()) {
        return None;
    }
    let api_key = str_or_empty_of(e.1.get("api_key"));
    let model = route_model_exec(extra, &e.0, &e.1);
    Some(AdapterPlan { name: e.0.clone(), base_url: base, api_key, model })
}

/// The OpenAI-compatible routes to (re)register from `extra.llm.providers`
/// (`Studio::sync_llm_adapters` registers exactly these, in order).
pub fn adapter_routes_of(extra: &Option<Json>) -> (r: Vec<AdapterPlan>)
    ensures
        r@.map_values(|p: AdapterPlan| p.view()) == adapter_routes(opt_json(*extra)),
{
    let p = entries_or_empty(get_in(llm_section(extra), "providers"));
    let ghost pv = Json::entries_view(p@);
    proof {
        lemma_entries_view(p@);
    }
    let mut out: Vec<AdapterPlan> = Vec::new();
    let mut i: usize = 0;
    while i < p.len()
        invariant
            i <= p.len(),
            pv == Json::entries_view(p@),
            pv == norm_obj(oget(llm_of(opt_json(*extra)), "providers"@)),
            pv.len() == p@.len(),
            forall|j: int| 0 <= j < p@.len() ==> #[trigger] pv[j] == (p@[j].0@, p@[j].1.view()),
            out@.map_values(|q: AdapterPlan| q.view()) == route_plans(
                opt_json(*extra),
                pv.take(i as int),
            ),
        decreases p.len() - i,
    {
        let ghost before = out@;
        assert(pv.take(i + 1).drop_last() =~= pv.take(i as int));
        assert(pv.take(i + 1).last() == pv[i as int]);
        match route_plan_exec(extra, &p[i]) {
            Some(plan) => {
                out.push(plan);
                assert(out@.map_values(|q: AdapterPlan| q.view()) =~= before.map_values(
                    |q: AdapterPlan| q.view(),
                ).push(out@.last().view()));
            },
            None => {},
        }
        i += 1;
    }
    assert(pv.take(i as int) =~= pv);
    out
}

// ---------------------------------------------------------------------------
// What the settings page reads
// ---------------------------------------------------------------------------

/// The built-in route's entry as the page shows it: `{"model": "mock-1"}`.
pub open spec fn mock_entry() -> JsonV {
    JsonV::Object(seq![("model"@, JsonV::Str("mock-1"@))])
}

/// The selection shown before one is made: `{"model": "mock-1", "provider": "mock"}`.
pub open spec fn default_current() -> JsonV {
    JsonV::Object(seq![("model"@, JsonV::Str("mock-1"@)), ("provider"@, JsonV::Str("mock"@))])
}

/// A JSON array of strings.
pub open spec fn str_array(v: Seq<Seq<char>>) -> JsonV {
    JsonV::Array(v.map_values(|s: Seq<char>| JsonV::Str(s)))
}

/// `extra.llm` as the settings page reads it, with the routes that are live.
///
/// `mock` is always listed among the providers, so the picker is never empty.
pub open spec fn llm_settings(extra: Option<JsonV>, registered: Seq<Seq<char>>) -> JsonV {
    let llm = llm_of(extra);
    let providers = obj_or_insert(norm_obj(oget(llm, "providers"@)), "mock"@, mock_entry());
    let model_lists = match oget(llm, "model_lists"@) {
        Some(v) => v,
        None => JsonV::Object(Seq::empty()),
    };
    let discovered = match oget(llm, "discovered"@) {
        Some(v) => v,
        None => JsonV::Object(Seq::empty()),
    };
    let current = match oget(llm, "current"@) {
        Some(v) => v,
        None => default_current(),
    };
    let default = match as_str(oget(llm, "default"@)) {
        Some(d) => d,
        None => "mock"@,
    };
    JsonV::Object(
        seq![
            ("current"@, current),
            ("default"@, JsonV::Str(default)),
            ("discovered"@, discovered),
            ("model_lists"@, model_lists),
            ("providers"@, JsonV::Object(providers)),
            ("registered"@, str_array(registered)),
        ],
    )
}

/// A JSON array of the given strings.
pub fn string_array(v: &Vec<String>) -> (r: Json)
    ensures
        r.view() == str_array(str_views(v@)),
{
    let mut out: Vec<Json> = Vec::new();
    let mut i: usize = 0;
    while i < v.len()
        invariant
            i <= v.len(),
            out@.len() == i,
            forall|j: int| 0 <= j < i ==> (#[trigger] out@[j]).view() == JsonV::Str(v@[j]@),
        decreases v.len() - i,
    {
        out.push(Json::Str(v[i].clone()));
        i += 1;
    }
    proof {
        lemma_views_ext(out@, str_views(v@).map_values(|s: Seq<char>| JsonV::Str(s)));
    }
    Json::Array(out)
}

fn or_empty_object(j: Option<&Json>) -> (r: Json)
    ensures
        r.view() == match opt_view(j) {
            Some(v) => v,
            None => JsonV::Object(Seq::empty()),
        },
{
    match j {
        Some(v) => v.duplicate(),
        None => Json::empty_object(),
    }
}

/// `extra.llm` as the settings page reads it (`Studio::llm_config`).
pub fn llm_settings_of(extra: &Option<Json>, registered: &Vec<String>) -> (r: Json)
    ensures
        r.view() == llm_settings(opt_json(*extra), str_views(registered@)),
{
    let llm = llm_section(extra);
    let mut providers = entries_or_empty(get_in(llm, "providers"));
    if entries_get(&providers, "mock").is_none() {
        let model = pair_object_one("model", Json::str("mock-1"));
        entries_insert(&mut providers, owned("mock"), model);
    }
    let model_lists = or_empty_object(get_in(llm, "model_lists"));
    let discovered = or_empty_object(get_in(llm, "discovered"));
    let current = match get_in(llm, "current") {
        Some(v) => v.duplicate(),
        None => pair_object("model", Json::str("mock-1"), "provider", Json::str("mock")),
    };
    let default = match get_in(llm, "default") {
        Some(Json::Str(d)) => d.clone(),
        _ => owned("mock"),
    };
    let ghost (cv, dv, mv) = (current.view(), discovered.view(), model_lists.view());
    let ghost pv = Json::entries_view(providers@);
    let reg = string_array(registered);
    let ghost rv = reg.view();
    let mut o: Vec<(String, Json)> = Vec::new();
    o.push((owned("current"), current));
    o.push((owned("default"), Json::Str(default)));
    o.push((owned("discovered"), discovered));
    o.push((owned("model_lists"), model_lists));
    o.push((owned("providers"), Json::Object(providers)));
    o.push((owned("registered"), reg));
    proof {
        lemma_entries_view_ext(
            o@,
            seq![
                ("current"@, cv),
                ("default"@, JsonV::Str(default@)),
                ("discovered"@, dv),
                ("model_lists"@, mv),
                ("providers"@, JsonV::Object(pv)),
                ("registered"@, rv),
            ],
        );
    }
    Json::Object(o)
}

fn pair_object_one(k: &str, v: Json) -> (r: Json)
    ensures
        r.view() == JsonV::Object(seq![(k@, v.view())]),
{
    let mut o: Vec<(String, Json)> = Vec::new();
    let ghost a = v.view();
    o.push((owned(k), v));
    proof {
        lemma_entries_view_ext(o@, seq![(k@, a)]);
    }
    Json::Object(o)
}

// ---------------------------------------------------------------------------
// The persona section
// ---------------------------------------------------------------------------

/// The persona every Studio agent speaks in, unless `extra.llm.system_prompt`
/// overrides it.
pub open spec fn default_persona() -> Seq<char> {
    "你是 Studio 里的助手。用用户正在用的语言简洁回答。\n\n你可以读写文件、搜索代码、执行命令来完成任务；但用户只是闲聊、打招呼或问你是谁时，正常对话即可。不要自称「极简编程代理」，也不要主动要求用户「给任务」。"@
}

/// The persona text: a non-blank configured `system_prompt`, trimmed, or the
/// default.
pub open spec fn persona(extra: Option<JsonV>) -> Seq<char> {
    match as_str(oget(llm_of(extra), "system_prompt"@)) {
        Some(s) => if trim(s).len() > 0 {
            trim(s)
        } else {
            default_persona()
        },
        None => default_persona(),
    }
}

/// The system-prompt section the studio installs at order 0.
pub fn persona_text(extra: &Option<Json>) -> (r: String)
    ensures
        r@ == persona(opt_json(*extra)),
{
    match get_in(llm_section(extra), "system_prompt") {
        Some(Json::Str(s)) => {
            let t = trim_str(s.as_str());
            if !is_empty_str(t.as_str()) {
                return t;
            }
        },
        _ => {},
    }
    owned(
        "你是 Studio 里的助手。用用户正在用的语言简洁回答。\n\n你可以读写文件、搜索代码、执行命令来完成任务；但用户只是闲聊、打招呼或问你是谁时，正常对话即可。不要自称「极简编程代理」，也不要主动要求用户「给任务」。",
    )
}

// ---------------------------------------------------------------------------
// Merging a settings patch
// ---------------------------------------------------------------------------

/// `c` with `to` bound to `src[from]`, when that is present and not null.
pub open spec fn put_nonnull(c: Entries, src: Entries, from: Seq<char>, to: Seq<char>) -> Entries {
    match obj_get(src, from) {
        Some(v) => if v is Null {
            c
        } else {
            obj_insert(c, to, v)
        },
        None => c,
    }
}

/// The fields of a provider patch that are kept, under their snake_case
/// names: `base_url`/`baseUrl`, `api_key`/`apiKey`, `model`; nulls dropped.
pub open spec fn clean_fields(src: Entries) -> Entries {
    let c0 = Seq::<(Seq<char>, JsonV)>::empty();
    let c1 = put_nonnull(c0, src, "base_url"@, "base_url"@);
    let c2 = put_nonnull(c1, src, "baseUrl"@, "base_url"@);
    let c3 = put_nonnull(c2, src, "api_key"@, "api_key"@);
    let c4 = put_nonnull(c3, src, "apiKey"@, "api_key"@);
    put_nonnull(c4, src, "model"@, "model"@)
}

/// Every entry of `es` inserted into `t`, in order.
pub open spec fn insert_all(t: Entries, es: Entries) -> Entries
    decreases es.len(),
{
    if es.len() == 0 {
        t
    } else {
        obj_insert(insert_all(t, es.drop_last()), es.last().0, es.last().1)
    }
}

/// The model a `models` item names: itself if a string, else its `id`.
pub open spec fn model_id(m: JsonV) -> Option<Seq<char>> {
    match m {
        JsonV::Str(s) => Some(s),
        _ => as_str(jget(m, "id"@)),
    }
}

/// The items that do not name `name` (the model seeded with the provider's
/// own name is dropped).
pub open spec fn models_without(a: Seq<JsonV>, name: Seq<char>) -> Seq<JsonV>
    decreases a.len(),
{
    if a.len() == 0 {
        Seq::empty()
    } else if model_id(a.last()) != Some(name) {
        models_without(a.drop_last(), name).push(a.last())
    } else {
        models_without(a.drop_last(), name)
    }
}

/// A provider's `models` patch as stored in `model_lists`.
pub open spec fn cleaned_models(models: JsonV, name: Seq<char>) -> JsonV {
    match models {
        JsonV::Array(a) => JsonV::Array(models_without(a, name)),
        other => other,
    }
}

/// One provider patch applied to `(providers, model_lists)`.
///
/// `mock` is never stored; a `null` forgets the provider and its model list;
/// otherwise the kept fields are merged into the stored entry (replacing it
/// when it is not an object), and a `models` list replaces its model list.
pub open spec fn apply_provider_patch(prov: Entries, lists: Entries, e: (Seq<char>, JsonV)) -> (
    Entries,
    Entries,
) {
    let (name, value) = e;
    if name == "mock"@ {
        (obj_remove(prov, name), lists)
    } else if value is Null {
        (obj_remove(prov, name), obj_remove(lists, name))
    } else {
        let src = norm_obj(Some(value));
        let clean = clean_fields(src);
        let prov2 = match obj_get(prov, name) {
            Some(JsonV::Object(eo)) => obj_insert(prov, name, JsonV::Object(insert_all(eo, clean))),
            Some(_) => obj_insert(prov, name, JsonV::Object(clean)),
            None => obj_insert(prov, name, JsonV::Object(insert_all(Seq::empty(), clean))),
        };
        let lists2 = match obj_get(src, "models"@) {
            Some(models) => obj_insert(lists, name, cleaned_models(models, name)),
            None => lists,
        };
        (prov2, lists2)
    }
}

/// Every provider patch applied, in order.
pub open spec fn apply_provider_patches(prov: Entries, lists: Entries, pp: Entries) -> (
    Entries,
    Entries,
)
    decreases pp.len(),
{
    if pp.len() == 0 {
        (prov, lists)
    } else {
        let (p1, l1) = apply_provider_patches(prov, lists, pp.drop_last());
        apply_provider_patch(p1, l1, pp.last())
    }
}

/// `extra` after a settings patch is merged into `extra.llm`
/// (`Studio::set_llm_config`).
///
/// `providers` patches are applied one by one; `model_lists` entries replace
/// the stored ones; `current` and `default` replace theirs. Everything else in
/// `extra` and `extra.llm` is kept.
pub open spec fn merged_llm(extra: Option<JsonV>, patch: JsonV) -> JsonV {
    let ex = norm_obj(extra);
    let llm0 = norm_obj(obj_get(ex, "llm"@));
    let llm1 = match as_object(jget(patch, "providers"@)) {
        Some(pp) => {
            let (prov, lists) = apply_provider_patches(
                norm_obj(obj_get(llm0, "providers"@)),
                norm_obj(obj_get(llm0, "model_lists"@)),
                pp,
            );
            obj_insert(
                obj_insert(llm0, "providers"@, JsonV::Object(prov)),
                "model_lists"@,
                JsonV::Object(lists),
            )
        },
        None => llm0,
    };
    let llm2 = match as_object(jget(patch, "model_lists"@)) {
        Some(ml) => obj_insert(
            llm1,
            "model_lists"@,
            JsonV::Object(insert_all(norm_obj(obj_get(llm1, "model_lists"@)), ml)),
        ),
        None => llm1,
    };
    let llm3 = match jget(patch, "current"@) {
        Some(c) => obj_insert(llm2, "current"@, c),
        None => llm2,
    };
    let llm4 = match jget(patch, "default"@) {
        Some(d) => obj_insert(llm3, "default"@, d),
        None => llm3,
    };
    JsonV::Object(obj_insert(ex, "llm"@, JsonV::Object(llm4)))
}

/// `es` binds no entry to `q`.
pub open spec fn names_not(es: Entries, q: Seq<char>) -> bool {
    forall|i: int| 0 <= i < es.len() ==> #[trigger] es[i].0 != q
}

proof fn lemma_insert_all_other(t: Entries, es: Entries, q: Seq<char>)
    requires
        names_not(es, q),
    ensures
        obj_get(insert_all(t, es), q) == obj_get(t, q),
    decreases es.len(),
{
    if es.len() > 0 {
        let d = es.drop_last();
        assert forall|i: int| 0 <= i < d.len() implies #[trigger] d[i].0 != q by {
            assert(d[i] == es[i]);
        }
        lemma_insert_all_other(t, d, q);
        assert(es[es.len() - 1].0 != q);
        lemma_obj_get_insert(insert_all(t, d), es.last().0, es.last().1, q);
    }
}

proof fn lemma_patches_other(prov: Entries, lists: Entries, pp: Entries, q: Seq<char>)
    requires
        names_not(pp, q),
    ensures
        obj_get(apply_provider_patches(prov, lists, pp).0, q) == obj_get(prov, q),
        obj_get(apply_provider_patches(prov, lists, pp).1, q) == obj_get(lists, q),
    decreases pp.len(),
{
    if pp.len() > 0 {
        let d = pp.drop_last();
        assert forall|i: int| 0 <= i < d.len() implies #[trigger] d[i].0 != q by {
            assert(d[i] == pp[i]);
        }
        lemma_patches_other(prov, lists, d, q);
        let (p1, l1) = apply_provider_patches(prov, lists, d);
        let (name, value) = pp.last();
        assert(pp[pp.len() - 1].0 != q);
        lemma_obj_get_remove(p1, name, q);
        lemma_obj_get_remove(l1, name, q);
        let src = norm_obj(Some(value));
        let clean = clean_fields(src);
        lemma_obj_get_insert(p1, name, JsonV::Object(clean), q);
        lemma_obj_get_insert(p1, name, JsonV::Object(insert_all(Seq::empty(), clean)), q);
        match obj_get(p1, name) {
            Some(JsonV::Object(eo)) => {
                lemma_obj_get_insert(p1, name, JsonV::Object(insert_all(eo, clean)), q);
            },
            _ => {},
        }
        match obj_get(src, "models"@) {
            Some(models) => {
                lemma_obj_get_insert(l1, name, cleaned_models(models, name), q);
            },
            None => {},
        }
    }
}

/// The `llm` section of `extra`, as entries.
pub open spec fn llm_entries(extra: Option<JsonV>) -> Entries {
    norm_obj(obj_get(norm_obj(extra), "llm"@))
}

/// What an `llm` section holds under `section` (`providers` or
/// `model_lists`) for `q`.
pub open spec fn llm_entry(llm: Entries, section: Seq<char>, q: Seq<char>) -> Option<JsonV> {
    obj_get(norm_obj(obj_get(llm, section)), q)
}

/// A settings merge leaves every provider, and every model list, that the
/// patch does not name as it was.
pub proof fn lemma_merge_keeps_unnamed(extra: Option<JsonV>, patch: JsonV, q: Seq<char>)
    requires
        names_not(object_or_empty(jget(patch, "providers"@)), q),
        names_not(object_or_empty(jget(patch, "model_lists"@)), q),
    ensures
        llm_entry(llm_entries(Some(merged_llm(extra, patch))), "providers"@, q) == llm_entry(
            llm_entries(extra),
            "providers"@,
            q,
        ),
        llm_entry(llm_entries(Some(merged_llm(extra, patch))), "model_lists"@, q) == llm_entry(
            llm_entries(extra),
            "model_lists"@,
            q,
        ),
{
    reveal_strlit("providers");
    reveal_strlit("model_lists");
    reveal_strlit("current");
    reveal_strlit("default");
    reveal_strlit("llm");
    let ex = norm_obj(extra);
    let llm0 = norm_obj(obj_get(ex, "llm"@));
    let prov0 = norm_obj(obj_get(llm0, "providers"@));
    let lists0 = norm_obj(obj_get(llm0, "model_lists"@));
    assert("providers"@.len() == 9 && "model_lists"@.len() == 11);
    assert("current"@.len() == 7 && "default"@.len() == 7);
    assert("providers"@ != "model_lists"@);
    assert("current"@ != "providers"@ && "current"@ != "model_lists"@);
    assert("default"@ != "providers"@ && "default"@ != "model_lists"@);
    let llm1 = match as_object(jget(patch, "providers"@)) {
        Some(pp) => {
            let (prov, lists) = apply_provider_patches(prov0, lists0, pp);
            lemma_patches_other(prov0, lists0, pp, q);
            let a = obj_insert(llm0, "providers"@, JsonV::Object(prov));
            lemma_obj_get_insert(llm0, "providers"@, JsonV::Object(prov), "providers"@);
            lemma_obj_get_insert(a, "model_lists"@, JsonV::Object(lists), "providers"@);
            lemma_obj_get_insert(a, "model_lists"@, JsonV::Object(lists), "model_lists"@);
            obj_insert(a, "model_lists"@, JsonV::Object(lists))
        },
        None => llm0,
    };
    assert(llm_entry(llm1, "providers"@, q) == llm_entry(llm0, "providers"@, q));
    assert(llm_entry(llm1, "model_lists"@, q) == llm_entry(llm0, "model_lists"@, q));
    let llm2 = match as_object(jget(patch, "model_lists"@)) {
        Some(ml) => {
            let l1 = norm_obj(obj_get(llm1, "model_lists"@));
            lemma_insert_all_other(l1, ml, q);
            lemma_obj_get_insert(llm1, "model_lists"@, JsonV::Object(insert_all(l1, ml)), "model_lists"@);
            lemma_obj_get_insert(llm1, "model_lists"@, JsonV::Object(insert_all(l1, ml)), "providers"@);
            obj_insert(llm1, "model_lists"@, JsonV::Object(insert_all(l1, ml)))
        },
        None => llm1,
    };
    assert(llm_entry(llm2, "providers"@, q) == llm_entry(llm0, "providers"@, q));
    assert(llm_entry(llm2, "model_lists"@, q) == llm_entry(llm0, "model_lists"@, q));
    let llm3 = match jget(patch, "current"@) {
        Some(c) => {
            lemma_obj_get_insert(llm2, "current"@, c, "providers"@);
            lemma_obj_get_insert(llm2, "current"@, c, "model_lists"@);
            obj_insert(llm2, "current"@, c)
        },
        None => llm2,
    };
    let llm4 = match jget(patch, "default"@) {
        Some(d) => {
            lemma_obj_get_insert(llm3, "default"@, d, "providers"@);
            lemma_obj_get_insert(llm3, "default"@, d, "model_lists"@);
            obj_insert(llm3, "default"@, d)
        },
        None => llm3,
    };
    lemma_obj_get_insert(ex, "llm"@, JsonV::Object(llm4), "llm"@);
    assert(merged_llm(extra, patch) == JsonV::Object(obj_insert(ex, "llm"@, JsonV::Object(llm4))));
    assert(llm_entries(Some(merged_llm(extra, patch))) == llm4);
}

fn put_nonnull_exec(c: &mut Vec<(String, Json)>, src: &Vec<(String, Json)>, from: &str, to: &str)
    ensures
        Json::entries_view(final(c)@) == put_nonnull(
            Json::entries_view(old(c)@),
            Json::entries_view(src@),
            from@,
            to@,
        ),
{
    match entries_get(src, from) {
        Some(v) => {
            if !v.is_null() {
                entries_insert(c, owned(to), v.duplicate());
            }
        },
        None => {},
    }
}

fn clean_fields_exec(src: &Vec<(String, Json)>) -> (c: Vec<(String, Json)>)
    ensures
        Json::entries_view(c@) == clean_fields(Json::entries_view(src@)),
{
    let mut c: Vec<(String, Json)> = Vec::new();
    proof {
        lemma_entries_view(c@);
    }
    assert(Json::entries_view(c@) =~= Seq::<(Seq<char>, JsonV)>::empty());
    put_nonnull_exec(&mut c, src, "base_url", "base_url");
    put_nonnull_exec(&mut c, src, "baseUrl", "base_url");
    put_nonnull_exec(&mut c, src, "api_key", "api_key");
    put_nonnull_exec(&mut c, src, "apiKey", "api_key");
    put_nonnull_exec(&mut c, src, "model", "model");
    c
}

fn insert_all_exec(t: &mut Vec<(String, Json)>, es: &Vec<(String, Json)>)
    ensures
        Json::entries_view(final(t)@) == insert_all(
            Json::entries_view(old(t)@),
            Json::entries_view(es@),
        ),
{
    let ghost ev = Json::entries_view(es@);
    let ghost t0 = Json::entries_view(t@);
    proof {
        lemma_entries_view(es@);
    }
    assert(ev.take(0) =~= Seq::<(Seq<char>, JsonV)>::empty());
    let mut i: usize = 0;
    while i < es.len()
        invariant
            i <= es.len(),
            ev == Json::entries_view(es@),
            ev.len() == es@.len(),
            t0 == Json::entries_view(old(t)@),
            forall|j: int| 0 <= j < es@.len() ==> #[trigger] ev[j] == (es@[j].0@, es@[j].1.view()),
            Json::entries_view(t@) == insert_all(t0, ev.take(i as int)),
        decreases es.len() - i,
    {
        assert(ev.take(i + 1).drop_last() =~= ev.take(i as int));
        assert(ev.take(i + 1).last() == ev[i as int]);
        entries_insert(t, es[i].0.clone(), es[i].1.duplicate());
        i += 1;
    }
    assert(ev.take(i as int) =~= ev);
}

fn model_id_is(m: &Json, name: &String) -> (b: bool)
    ensures
        b == (model_id(m.view()) == Some(name@)),
{
    match m {
        Json::Str(s) => str_eq(s.as_str(), name.as_str()),
        _ => match m.get("id") {
            Some(Json::Str(s)) => str_eq(s.as_str(), name.as_str()),
            _ => false,
        },
    }
}

fn cleaned_models_exec(models: &Json, name: &String) -> (r: Json)
    ensures
        r.view() == cleaned_models(models.view(), name@),
{
    match models {
        Json::Array(a) => {
            let ghost av = Json::views(a@);
            proof {
                lemma_views(a@);
            }
            let mut out: Vec<Json> = Vec::new();
            let mut i: usize = 0;
            while i < a.len()
                invariant
                    i <= a.len(),
                    av == Json::views(a@),
                    av.len() == a@.len(),
                    forall|j: int| 0 <= j < a@.len() ==> #[trigger] av[j] == a@[j].view(),
                    Json::views(out@) == models_without(av.take(i as int), name@),
                decreases a.len() - i,
            {
                let ghost before = out@;
                assert(av.take(i + 1).drop_last() =~= av.take(i as int));
                assert(av.take(i + 1).last() == av[i as int]);
                if !model_id_is(&a[i], name) {
                    out.push(a[i].duplicate());
                    proof {
                        lemma_views(out@);
                        lemma_views(before);
                        lemma_views_ext(out@, Json::views(before).push(av[i as int]));
                    }
                }
                i += 1;
            }
            assert(av.take(i as int) =~= av);
            Json::Array(out)
        },
        other => other.duplicate(),
    }
}

fn apply_provider_patch_exec(
    prov: &mut Vec<(String, Json)>,
    lists: &mut Vec<(String, Json)>,
    e: &(String, Json),
)
    ensures
        (Json::entries_view(final(prov)@), Json::entries_view(final(lists)@))
            == apply_provider_patch(
            Json::entries_view(old(prov)@),
            Json::entries_view(old(lists)@),
            (e.0@, e.1.view()),
        ),
{
    let name = &e.0;
    let value = &e.1;
    if str_eq(name.as_str(), "mock") {
        entries_remove(prov, name.as_str());
        return;
    }
    if value.is_null() {
        entries_remove(prov, name.as_str());
        entries_remove(lists, name.as_str());
        return;
    }
    let src = entries_or_empty(Some(value));
    let clean = clean_fields_exec(&src);
    let stored = match entries_get(prov, name.as_str()) {
        Some(Json::Object(eo)) => {
            let mut merged = crate::json::dup_entries(eo);
            insert_all_exec(&mut merged, &clean);
            merged
        },
        Some(_) => crate::json::dup_entries(&clean),
        None => {
            let mut merged: Vec<(String, Json)> = Vec::new();
            proof {
                lemma_entries_view(merged@);
            }
            assert(Json::entries_view(merged@) =~= Seq::<(Seq<char>, JsonV)>::empty());
            insert_all_exec(&mut merged, &clean);
            merged
        },
    };
    entries_insert(prov, name.clone(), Json::Object(stored));
    match entries_get(&src, "models") {
        Some(models) => {
            let cleaned = cleaned_models_exec(models, name);
            entries_insert(lists, name.clone(), cleaned);
        },
        None => {},
    }
}

/// `extra` after a settings patch is merged into `extra.llm`
/// (`Studio::set_llm_config`).
pub fn merged_llm_of(extra: &Option<Json>, patch: &Json) -> (r: Json)
    ensures
        r.view() == merged_llm(opt_json(*extra), patch.view()),
{
    let mut ex = entries_or_empty(match extra {
        Some(e) => Some(e),
        None => None,
    });
    let mut llm = entries_or_empty(entries_get(&ex, "llm"));
    match patch.get("providers") {
        Some(Json::Object(pp)) => {
            let mut prov = entries_or_empty(entries_get(&llm, "providers"));
            let mut lists = entries_or_empty(entries_get(&llm, "model_lists"));
            let ghost ppv = Json::entries_view(pp@);
            let ghost (p0, l0) = (Json::entries_view(prov@), Json::entries_view(lists@));
            proof {
                lemma_entries_view(pp@);
            }
            assert(ppv.take(0) =~= Seq::<(Seq<char>, JsonV)>::empty());
            let mut i: usize = 0;
            while i < pp.len()
                invariant
                    i <= pp.len(),
                    ppv == Json::entries_view(pp@),
                    ppv.len() == pp@.len(),
                    forall|j: int|
                        0 <= j < pp@.len() ==> #[trigger] ppv[j] == (pp@[j].0@, pp@[j].1.view()),
                    (Json::entries_view(prov@), Json::entries_view(lists@))
                        == apply_provider_patches(p0, l0, ppv.take(i as int)),
                decreases pp.len() - i,
            {
                assert(ppv.take(i + 1).drop_last() =~= ppv.take(i as int));
                assert(ppv.take(i + 1).last() == ppv[i as int]);
                apply_provider_patch_exec(&mut prov, &mut lists, &pp[i]);
                i += 1;
            }
            assert(ppv.take(i as int) =~= ppv);
            entries_insert(&mut llm, owned("providers"), Json::Object(prov));
            entries_insert(&mut llm, owned("model_lists"), Json::Object(lists));
        },
        _ => {},
    }
    match patch.get("model_lists") {
        Some(Json::Object(ml)) => {
            let mut lists = entries_or_empty(entries_get(&llm, "model_lists"));
            insert_all_exec(&mut lists, ml);
            entries_insert(&mut llm, owned("model_lists"), Json::Object(lists));
        },
        _ => {},
    }
    match patch.get("current") {
        Some(c) => {
            entries_insert(&mut llm, owned("current"), c.duplicate());
        },
        None => {},
    }
    match patch.get("default") {
        Some(d) => {
            entries_insert(&mut llm, owned("default"), d.duplicate());
        },
        None => {},
    }
    entries_insert(&mut ex, owned("llm"), Json::Object(llm));
    Json::Object(ex)
}

// ---------------------------------------------------------------------------
// The reply to a settings patch
// ---------------------------------------------------------------------------

/// Some configured provider (other than `mock`) is not a live route yet.
pub open spec fn restart_needed(keys: Seq<Seq<char>>, registered: Seq<Seq<char>>) -> bool {
    exists|i: int| 0 <= i < keys.len() && keys[i] != "mock"@ && !registered.contains(#[trigger] keys[i])
}

/// The provider names the settings page lists.
pub open spec fn listed_providers(extra: Option<JsonV>) -> Seq<Seq<char>> {
    obj_keys(obj_or_insert(norm_obj(oget(llm_of(extra), "providers"@)), "mock"@, mock_entry()))
}

/// What `set_llm_config` answers: the settings as the page reads them, the
/// adapter-sync failure if there was one, whether a restart is needed for a
/// configured provider to become live, and the live routes.
pub open spec fn llm_reply(
    extra: Option<JsonV>,
    registered: Seq<Seq<char>>,
    sync_error: Option<Seq<char>>,
) -> JsonV {
    let o = match llm_settings(extra, registered) {
        JsonV::Object(o) => o,
        _ => Seq::empty(),
    };
    let o1 = match sync_error {
        Some(e) => obj_insert(o, "sync_error"@, JsonV::Str(e)),
        None => o,
    };
    let o2 = obj_insert(
        o1,
        "restart_required"@,
        JsonV::Bool(restart_needed(listed_providers(extra), registered)),
    );
    JsonV::Object(obj_insert(o2, "registered"@, str_array(registered)))
}

/// `s` is among `v`.
pub fn contains_str(v: &Vec<String>, s: &String) -> (b: bool)
    ensures
        b == str_views(v@).contains(s@),
{
    let ghost sv = str_views(v@);
    let mut i: usize = 0;
    while i < v.len()
        invariant
            i <= v.len(),
            sv == str_views(v@),
            forall|j: int| 0 <= j < i ==> sv[j] != s@,
        decreases v.len() - i,
    {
        if str_eq(v[i].as_str(), s.as_str()) {
            assert(sv[i as int] == s@);
            return true;
        }
        i += 1;
    }
    false
}

/// What `Studio::set_llm_config` answers, after the merged settings were
/// saved and the adapters synced.
pub fn llm_reply_of(extra: &Option<Json>, registered: &Vec<String>, sync_error: Option<String>) -> (r:
    Json)
    ensures
        r.view() == llm_reply(
            opt_json(*extra),
            str_views(registered@),
            match sync_error {
                Some(e) => Some(e@),
                None => None,
            },
        ),
{
    let settings = llm_settings_of(extra, registered);
    let mut o = match settings {
        Json::Object(o) => o,
        _ => Vec::new(),
    };
    match sync_error {
        Some(e) => {
            entries_insert(&mut o, owned("sync_error"), Json::Str(e));
        },
        None => {},
    }
    let mut providers = entries_or_empty(get_in(llm_section(extra), "providers"));
    if entries_get(&providers, "mock").is_none() {
        let model = pair_object_one("model", Json::str("mock-1"));
        entries_insert(&mut providers, owned("mock"), model);
    }
    let ghost keys = obj_keys(Json::entries_view(providers@));
    proof {
        lemma_entries_view(providers@);
    }
    let mut needs = false;
    let mut i: usize = 0;
    while i < providers.len()
        invariant
            i <= providers.len(),
            keys == obj_keys(Json::entries_view(providers@)),
            Json::entries_view(providers@).len() == providers@.len(),
            forall|j: int|
                0 <= j < providers@.len() ==> #[trigger] Json::entries_view(providers@)[j] == (
                providers@[j].0@,
                providers@[j].1.view(),
            ),
            needs == exists|j: int|
                0 <= j < i && keys[j] != "mock"@ && !str_views(registered@).contains(
                    #[trigger] keys[j],
                ),
        decreases providers.len() - i,
    {
        let key = &providers[i].0;
        assert(keys[i as int] == key@);
        if !str_eq(key.as_str(), "mock") && !contains_str(registered, key) {
            needs = true;
        }
        i += 1;
    }
    entries_insert(&mut o, owned("restart_required"), Json::Bool(needs));
    entries_insert(&mut o, owned("registered"), string_array(registered));
    Json::Object(o)
}

// ---------------------------------------------------------------------------
// Listing a provider's models
// ---------------------------------------------------------------------------

/// Where a `/models` listing is fetched from, with what key, and under which
/// provider name the result is cached (empty: not cached).
pub struct ModelsRequest {
    pub endpoint: String,
    pub api_key: String,
    pub provider: String,
}

/// `Option<String>` as plain characters.
pub open spec fn opt_str(o: Option<String>) -> Option<Seq<char>> {
    match o {
        Some(s) => Some(s@),
        None => None,
    }
}

/// The first of two optional strings that is present, else empty.
pub open spec fn first_or_empty(a: Option<Seq<char>>, b: Option<Seq<char>>) -> Seq<char> {
    match a {
        Some(x) => x,
        None => match b {
            Some(y) => y,
            None => Seq::empty(),
        },
    }
}

/// The stored entry of a named provider, when it is an object.
pub open spec fn provider_entry(extra: Option<JsonV>, name: Seq<char>) -> Option<JsonV> {
    match as_object(oget(llm_of(extra), "providers"@)) {
        Some(p) => match obj_get(p, name) {
            Some(JsonV::Object(e)) => Some(JsonV::Object(e)),
            _ => None,
        },
        None => None,
    }
}

/// The request `fetch_llm_models` makes: explicit arguments win over the
/// stored provider entry; the base URL is trimmed and loses trailing `/`;
/// a blank base URL is refused.
pub open spec fn models_request(
    extra: Option<JsonV>,
    provider: Option<Seq<char>>,
    base_url: Option<Seq<char>>,
    api_key: Option<Seq<char>>,
) -> Result<(Seq<char>, Seq<char>, Seq<char>), ()> {
    let (url, key, pname) = match provider {
        Some(name) => {
            let entry = provider_entry(extra, name);
            (
                first_or_empty(base_url, as_str(oget(entry, "base_url"@))),
                first_or_empty(api_key, as_str(oget(entry, "api_key"@))),
                name,
            )
        },
        None => (first_or_empty(base_url, None), first_or_empty(api_key, None), Seq::empty()),
    };
    let base = strip_trailing(trim(url), '/');
    if base.len() == 0 {
        Err(())
    } else {
        Ok((base + "/models"@, key, pname))
    }
}

fn first_or_empty_exec(a: Option<String>, b: Option<&Json>) -> (r: String)
    ensures
        r@ == first_or_empty(opt_str(a), as_str(opt_view(b))),
{
    match a {
        Some(x) => x,
        None => match b {
            Some(Json::Str(y)) => y.clone(),
            _ => String::new(),
        },
    }
}

/// The request `Studio::fetch_llm_models` makes, or `MissingBaseUrl`.
pub fn models_request_of(
    extra: &Option<Json>,
    provider: Option<String>,
    base_url: Option<String>,
    api_key: Option<String>,
) -> (r: Result<ModelsRequest, crate::error::StudioError>)
    ensures
        match models_request(opt_json(*extra), opt_str(provider), opt_str(base_url), opt_str(api_key)) {
            Ok((endpoint, key, pname)) => r matches Ok(q) && q.endpoint@ == endpoint && q.api_key@
                == key && q.provider@ == pname,
            Err(()) => r matches Err(crate::error::StudioError::MissingBaseUrl),
        },
{
    let (url, key, pname) = match provider {
        Some(name) => {
            let entry = match get_in(llm_section(extra), "providers") {
                Some(Json::Object(p)) => match entries_get(p, name.as_str()) {
                    Some(e) => if e.is_object() {
                        Some(e)
                    } else {
                        None
                    },
                    None => None,
                },
                _ => None,
            };
            let u = first_or_empty_exec(base_url, get_in(entry, "base_url"));
            let k = first_or_empty_exec(api_key, get_in(entry, "api_key"));
            (u, k, name)
        },
        None => (first_or_empty_exec(base_url, None), first_or_empty_exec(api_key, None), String::new()),
    };
    let trimmed = trim_str(url.as_str());
    let base = strip_trailing_char(trimmed.as_str(), '/');
    if is_empty_str(base.as_str()) {
        return Err(crate::error::StudioError::MissingBaseUrl);
    }
    let mut endpoint = base;
    push_str(&mut endpoint, "/models");
    Ok(ModelsRequest { endpoint, api_key: key, provider: pname })
}

/// The error a failed `/models` request reports: the endpoint, the status,
/// and at most the first 300 characters of the body.
pub open spec fn http_failure(endpoint: Seq<char>, status: Seq<char>, body: Seq<char>) -> Seq<char> {
    "GET "@ + endpoint + " -> "@ + status + ": "@ + if body.len() <= 300 {
        body
    } else {
        body.take(300)
    }
}

/// The message of a failed `/models` request.
pub fn http_failure_message(endpoint: &str, status: &str, body: &str) -> (m: String)
    ensures
        m@ == http_failure(endpoint@, status@, body@),
{
    let mut m = owned("GET ");
    push_str(&mut m, endpoint);
    push_str(&mut m, " -> ");
    push_str(&mut m, status);
    push_str(&mut m, ": ");
    let b = crate::text::chars_of(body);
    let n = if b.len() <= 300 {
        b.len()
    } else {
        300
    };
    let head = crate::text::string_of_range(&b, 0, n);
    push_str(&mut m, head.as_str());
    assert(b@.subrange(0, n as int) =~= if b@.len() <= 300 {
        b@
    } else {
        b@.take(300)
    });
    m
}

/// `row` with `item[key]` copied in, when `item` has it.
pub open spec fn copy_field(row: Entries, item: JsonV, key: Seq<char>) -> Entries {
    match jget(item, key) {
        Some(v) => obj_insert(row, key, v),
        None => row,
    }
}

/// The metadata fields passed through from an upstream model entry.
pub open spec fn passthrough(r0: Entries, item: JsonV) -> Entries {
    let r1 = copy_field(r0, item, "context"@);
    let r2 = copy_field(r1, item, "context_window"@);
    let r3 = copy_field(r2, item, "contextWindow"@);
    let r4 = copy_field(r3, item, "max_output"@);
    let r5 = copy_field(r4, item, "maxOutput"@);
    let r6 = copy_field(r5, item, "max_tokens"@);
    let r7 = copy_field(r6, item, "maxTokens"@);
    let r8 = copy_field(r7, item, "owned_by"@);
    let r9 = copy_field(r8, item, "type"@);
    let r10 = copy_field(r9, item, "reasoning"@);
    let r11 = copy_field(r10, item, "vision"@);
    let r12 = copy_field(r11, item, "image"@);
    let r13 = copy_field(r12, item, "video"@);
    let r14 = copy_field(r13, item, "audio"@);
    r14
}

/// `row` with `image` and `vision` set to `true`.
pub open spec fn with_vision(row: Entries) -> Entries {
    obj_insert(obj_insert(row, "image"@, JsonV::Bool(true)), "vision"@, JsonV::Bool(true))
}

/// The flags a router nests under `capabilities`, lifted to the row, and the
/// `capabilities` object itself kept.
pub open spec fn with_capabilities(row: Entries, caps: Entries, raw: JsonV) -> Entries {
    let r1 = if is_true(obj_get(caps, "vision"@)) {
        with_vision(row)
    } else {
        row
    };
    let r2 = if is_true(obj_get(caps, "reasoning"@)) {
        obj_insert(r1, "reasoning"@, JsonV::Bool(true))
    } else {
        r1
    };
    let r3 = if is_true(obj_get(caps, "audioInput"@)) || is_true(obj_get(caps, "audio"@)) {
        obj_insert(r2, "audio"@, JsonV::Bool(true))
    } else {
        r2
    };
    let r4 = if is_true(obj_get(caps, "videoInput"@)) {
        obj_insert(r3, "video"@, JsonV::Bool(true))
    } else {
        r3
    };
    obj_insert(r4, "capabilities"@, raw)
}

/// The row a `/models` entry becomes, or nothing when it names no model.
///
/// The id is `id` (else `name`), trimmed; `name` defaults to the id; known
/// metadata passes through; `context_window`/`contextWindow` also fill
/// `context` and `contextWindow`; a vision or image flag sets both.
pub open spec fn model_row(item: JsonV) -> Option<JsonV> {
    let idv = match jget(item, "id"@) {
        Some(v) => Some(v),
        None => jget(item, "name"@),
    };
    let id = trim(str_or_empty(idv));
    let name = match as_str(jget(item, "name"@)) {
        Some(n) => n,
        None => id,
    };
    if id.len() == 0 {
        None
    } else {
        let r0 = seq![("id"@, JsonV::Str(id)), ("name"@, JsonV::Str(name))];
        let r1 = passthrough(r0, item);
        let ctx = match jget(item, "context_window"@) {
            Some(c) => Some(c),
            None => jget(item, "contextWindow"@),
        };
        let r2 = match ctx {
            Some(c) => obj_insert(obj_insert(r1, "context"@, c), "contextWindow"@, c),
            None => r1,
        };
        let r3 = if is_true(jget(item, "vision"@)) || is_true(jget(item, "image"@)) {
            with_vision(r2)
        } else {
            r2
        };
        let r4 = match jget(item, "capabilities"@) {
            Some(JsonV::Object(caps)) => with_capabilities(r3, caps, JsonV::Object(caps)),
            _ => r3,
        };
        let r5 = match jget(item, "owned_by"@) {
            Some(o) => obj_insert(r4, "owned_by"@, o),
            None => r4,
        };
        Some(JsonV::Object(r5))
    }
}

/// The identity a `/models` entry names: its `id`, else its `name`, as
/// trimmed text (empty when neither is text).
pub open spec fn entry_id(item: JsonV) -> Seq<char> {
    trim(str_or_empty(
        match jget(item, "id"@) {
            Some(v) => Some(v),
            None => jget(item, "name"@),
        },
    ))
}

proof fn lemma_keep_name(r: Entries, k: Seq<char>, v: JsonV)
    requires
        k != "name"@ && k != "id"@,
    ensures
        obj_get(obj_insert(r, k, v), "name"@) == obj_get(r, "name"@),
        obj_get(obj_insert(r, k, v), "id"@) == obj_get(r, "id"@),
{
    lemma_obj_get_insert(r, k, v, "name"@);
    lemma_obj_get_insert(r, k, v, "id"@);
}

proof fn lemma_copy_keeps_name(r: Entries, item: JsonV, k: Seq<char>)
    requires
        k != "name"@ && k != "id"@,
    ensures
        obj_get(copy_field(r, item, k), "name"@) == obj_get(r, "name"@),
        obj_get(copy_field(r, item, k), "id"@) == obj_get(r, "id"@),
{
    match jget(item, k) {
        Some(v) => lemma_keep_name(r, k, v),
        None => {},
    }
}

proof fn lemma_names_differ()
    ensures
        "context"@ != "name"@ && "context"@ != "id"@,
        "context_window"@ != "name"@ && "context_window"@ != "id"@,
        "contextWindow"@ != "name"@ && "contextWindow"@ != "id"@,
        "max_output"@ != "name"@ && "max_output"@ != "id"@,
        "maxOutput"@ != "name"@ && "maxOutput"@ != "id"@,
        "max_tokens"@ != "name"@ && "max_tokens"@ != "id"@,
        "maxTokens"@ != "name"@ && "maxTokens"@ != "id"@,
        "owned_by"@ != "name"@ && "owned_by"@ != "id"@,
        "type"@ != "name"@ && "type"@ != "id"@,
        "reasoning"@ != "name"@ && "reasoning"@ != "id"@,
        "vision"@ != "name"@ && "vision"@ != "id"@,
        "image"@ != "name"@ && "image"@ != "id"@,
        "video"@ != "name"@ && "video"@ != "id"@,
        "audio"@ != "name"@ && "audio"@ != "id"@,
        "capabilities"@ != "name"@ && "capabilities"@ != "id"@,
        "id"@ != "name"@,
{
    reveal_strlit("name");
    reveal_strlit("id");
    reveal_strlit("context");
    reveal_strlit("context_window");
    reveal_strlit("contextWindow");
    reveal_strlit("max_output");
    reveal_strlit("maxOutput");
    reveal_strlit("max_tokens");
    reveal_strlit("maxTokens");
    reveal_strlit("owned_by");
    reveal_strlit("type");
    reveal_strlit("reasoning");
    reveal_strlit("vision");
    reveal_strlit("image");
    reveal_strlit("video");
    reveal_strlit("audio");
    reveal_strlit("capabilities");
    assert("name"@.len() == 4 && "id"@.len() == 2);
    assert("type"@[0] != "name"@[0]);
    assert("type"@.len() == 4);
}

/// A `/models` entry becomes a row exactly when it names a non-blank model;
/// the row's `id` is that identity, and its `name` is the entry's own `name`
/// when that is text, else the identity.
pub proof fn lemma_model_row_names(item: JsonV)
    ensures
        (model_row(item) is Some) == (entry_id(item).len() > 0),
        model_row(item) matches Some(row) ==> (row matches JsonV::Object(r) && obj_get(r, "id"@) == Some(
            JsonV::Str(entry_id(item)),
        ) && obj_get(r, "name"@) == Some(
            JsonV::Str(
                match as_str(jget(item, "name"@)) {
                    Some(n) => n,
                    None => entry_id(item),
                },
            ),
        )),
{
    lemma_names_differ();
    let id = entry_id(item);
    if id.len() > 0 {
        let name = match as_str(jget(item, "name"@)) {
            Some(n) => n,
            None => id,
        };
        let r0 = seq![("id"@, JsonV::Str(id)), ("name"@, JsonV::Str(name))];
        assert(r0[0] == ("id"@, JsonV::Str(id)));
        assert(r0.drop_first()[0] == ("name"@, JsonV::Str(name)));
        assert(obj_get(r0, "id"@) == Some(JsonV::Str(id)));
        assert(obj_get(r0.drop_first(), "name"@) == Some(JsonV::Str(name)));
        assert(obj_get(r0, "name"@) == Some(JsonV::Str(name)));
        let r1 = copy_field(r0, item, "context"@);
        lemma_copy_keeps_name(r0, item, "context"@);
        let r2 = copy_field(r1, item, "context_window"@);
        lemma_copy_keeps_name(r1, item, "context_window"@);
        let r3 = copy_field(r2, item, "contextWindow"@);
        lemma_copy_keeps_name(r2, item, "contextWindow"@);
        let r4 = copy_field(r3, item, "max_output"@);
        lemma_copy_keeps_name(r3, item, "max_output"@);
        let r5 = copy_field(r4, item, "maxOutput"@);
        lemma_copy_keeps_name(r4, item, "maxOutput"@);
        let r6 = copy_field(r5, item, "max_tokens"@);
        lemma_copy_keeps_name(r5, item, "max_tokens"@);
        let r7 = copy_field(r6, item, "maxTokens"@);
        lemma_copy_keeps_name(r6, item, "maxTokens"@);
        let r8 = copy_field(r7, item, "owned_by"@);
        lemma_copy_keeps_name(r7, item, "owned_by"@);
        let r9 = copy_field(r8, item, "type"@);
        lemma_copy_keeps_name(r8, item, "type"@);
        let r10 = copy_field(r9, item, "reasoning"@);
        lemma_copy_keeps_name(r9, item, "reasoning"@);
        let r11 = copy_field(r10, item, "vision"@);
        lemma_copy_keeps_name(r10, item, "vision"@);
        let r12 = copy_field(r11, item, "image"@);
        lemma_copy_keeps_name(r11, item, "image"@);
        let r13 = copy_field(r12, item, "video"@);
        lemma_copy_keeps_name(r12, item, "video"@);
        let p = copy_field(r13, item, "audio"@);
        lemma_copy_keeps_name(r13, item, "audio"@);
        assert(p == passthrough(r0, item));
        let ctx = match jget(item, "context_window"@) {
            Some(c) => Some(c),
            None => jget(item, "contextWindow"@),
        };
        let q2 = match ctx {
            Some(c) => {
                lemma_keep_name(p, "context"@, c);
                lemma_keep_name(obj_insert(p, "context"@, c), "contextWindow"@, c);
                obj_insert(obj_insert(p, "context"@, c), "contextWindow"@, c)
            },
            None => p,
        };
        let q3 = if is_true(jget(item, "vision"@)) || is_true(jget(item, "image"@)) {
            lemma_keep_name(q2, "image"@, JsonV::Bool(true));
            lemma_keep_name(obj_insert(q2, "image"@, JsonV::Bool(true)), "vision"@, JsonV::Bool(true));
            with_vision(q2)
        } else {
            q2
        };
        let q4 = match jget(item, "capabilities"@) {
            Some(JsonV::Object(caps)) => {
                let c1 = if is_true(obj_get(caps, "vision"@)) {
                    lemma_keep_name(q3, "image"@, JsonV::Bool(true));
                    lemma_keep_name(obj_insert(q3, "image"@, JsonV::Bool(true)), "vision"@, JsonV::Bool(true));
                    with_vision(q3)
                } else {
                    q3
                };
                let c2 = if is_true(obj_get(caps, "reasoning"@)) {
                    lemma_keep_name(c1, "reasoning"@, JsonV::Bool(true));
                    obj_insert(c1, "reasoning"@, JsonV::Bool(true))
                } else {
                    c1
                };
                let c3 = if is_true(obj_get(caps, "audioInput"@)) || is_true(obj_get(caps, "audio"@)) {
                    lemma_keep_name(c2, "audio"@, JsonV::Bool(true));
                    obj_insert(c2, "audio"@, JsonV::Bool(true))
                } else {
                    c2
                };
                let c4 = if is_true(obj_get(caps, "videoInput"@)) {
                    lemma_keep_name(c3, "video"@, JsonV::Bool(true));
                    obj_insert(c3, "video"@, JsonV::Bool(true))
                } else {
                    c3
                };
                lemma_keep_name(c4, "capabilities"@, JsonV::Object(caps));
                with_capabilities(q3, caps, JsonV::Object(caps))
            },
            _ => q3,
        };
        match jget(item, "owned_by"@) {
            Some(o) => lemma_keep_name(q4, "owned_by"@, o),
            None => {},
        }
    }
}

/// The rows of every entry that names a model, in order.
pub open spec fn model_rows(items: Seq<JsonV>) -> Seq<JsonV>
    decreases items.len(),
{
    if items.len() == 0 {
        Seq::empty()
    } else {
        match model_row(items.last()) {
            Some(r) => model_rows(items.drop_last()).push(r),
            None => model_rows(items.drop_last()),
        }
    }
}

/// The entries of a `/models` answer: its `data` array, or the answer itself
/// when it is an array.
pub open spec fn listed_models(parsed: JsonV) -> Seq<JsonV> {
    match as_array(jget(parsed, "data"@)) {
        Some(a) => a,
        None => match parsed {
            JsonV::Array(a) => a,
            _ => Seq::empty(),
        },
    }
}

/// The models a parsed `/models` answer lists, normalised for the picker.
pub open spec fn models_of(parsed: JsonV) -> Seq<JsonV> {
    model_rows(listed_models(parsed))
}

fn copy_field_exec(row: &mut Vec<(String, Json)>, item: &Json, key: &str)
    ensures
        Json::entries_view(final(row)@) == copy_field(Json::entries_view(old(row)@), item.view(), key@),
{
    match item.get(key) {
        Some(v) => entries_insert(row, owned(key), v.duplicate()),
        None => {},
    }
}

fn set_true(row: &mut Vec<(String, Json)>, key: &str)
    ensures
        Json::entries_view(final(row)@) == obj_insert(
            Json::entries_view(old(row)@),
            key@,
            JsonV::Bool(true),
        ),
{
    entries_insert(row, owned(key), Json::Bool(true));
}

fn is_true_in(o: &Vec<(String, Json)>, key: &str) -> (b: bool)
    ensures
        b == is_true(obj_get(Json::entries_view(o@), key@)),
{
    match entries_get(o, key) {
        Some(v) => v.is_true(),
        None => false,
    }
}

fn is_true_at(item: &Json, key: &str) -> (b: bool)
    ensures
        b == is_true(jget(item.view(), key@)),
{
    match item.get(key) {
        Some(v) => v.is_true(),
        None => false,
    }
}

/// The row a `/models` entry becomes, or nothing when it names no model.
pub fn model_row_of(item: &Json) -> (r: Option<Json>)
    ensures
        opt_json(r) == model_row(item.view()),
{
    let idv = match item.get("id") {
        Some(v) => Some(v),
        None => item.get("name"),
    };
    let raw_id = str_or_empty_of(idv);
    let id = trim_str(raw_id.as_str());
    if is_empty_str(id.as_str()) {
        return None;
    }
    let name = match item.get("name") {
        Some(Json::Str(n)) => n.clone(),
        _ => id.clone(),
    };
    let mut row: Vec<(String, Json)> = Vec::new();
    let ghost (iv, nv) = (id@, name@);
    row.push((owned("id"), Json::Str(id)));
    row.push((owned("name"), Json::Str(name)));
    proof {
        lemma_entries_view_ext(row@, seq![("id"@, JsonV::Str(iv)), ("name"@, JsonV::Str(nv))]);
    }
    copy_field_exec(&mut row, item, "context");
    copy_field_exec(&mut row, item, "context_window");
    copy_field_exec(&mut row, item, "contextWindow");
    copy_field_exec(&mut row, item, "max_output");
    copy_field_exec(&mut row, item, "maxOutput");
    copy_field_exec(&mut row, item, "max_tokens");
    copy_field_exec(&mut row, item, "maxTokens");
    copy_field_exec(&mut row, item, "owned_by");
    copy_field_exec(&mut row, item, "type");
    copy_field_exec(&mut row, item, "reasoning");
    copy_field_exec(&mut row, item, "vision");
    copy_field_exec(&mut row, item, "image");
    copy_field_exec(&mut row, item, "video");
    copy_field_exec(&mut row, item, "audio");
    let ctx = match item.get("context_window") {
        Some(c) => Some(c),
        None => item.get("contextWindow"),
    };
    match ctx {
        Some(c) => {
            entries_insert(&mut row, owned("context"), c.duplicate());
            entries_insert(&mut row, owned("contextWindow"), c.duplicate());
        },
        None => {},
    }
    if is_true_at(item, "vision") || is_true_at(item, "image") {
        set_true(&mut row, "image");
        set_true(&mut row, "vision");
    }
    match item.get("capabilities") {
        Some(Json::Object(caps)) => {
            if is_true_in(caps, "vision") {
                set_true(&mut row, "image");
                set_true(&mut row, "vision");
            }
            if is_true_in(caps, "reasoning") {
                set_true(&mut row, "reasoning");
            }
            if is_true_in(caps, "audioInput") || is_true_in(caps, "audio") {
                set_true(&mut row, "audio");
            }
            if is_true_in(caps, "videoInput") {
                set_true(&mut row, "video");
            }
            let raw = Json::Object(crate::json::dup_entries(caps));
            entries_insert(&mut row, owned("capabilities"), raw);
        },
        _ => {},
    }
    match item.get("owned_by") {
        Some(o) => entries_insert(&mut row, owned("owned_by"), o.duplicate()),
        None => {},
    }
    Some(Json::Object(row))
}

/// The models a parsed `/models` answer lists, normalised for the picker
/// (`Studio::fetch_llm_models`, after the request).
pub fn models_of_response(parsed: &Json) -> (r: Vec<Json>)
    ensures
        Json::views(r@) == models_of(parsed.view()),
{
    let items: &Vec<Json> = match parsed.get("data") {
        Some(Json::Array(a)) => a,
        _ => match parsed {
            Json::Array(a) => a,
            _ => {
                let r: Vec<Json> = Vec::new();
                proof {
                    lemma_views(r@);
                }
                assert(Json::views(r@) =~= Seq::<JsonV>::empty());
                return r;
            },
        },
    };
    let ghost av = Json::views(items@);
    proof {
        lemma_views(items@);
    }
    let mut out: Vec<Json> = Vec::new();
    let mut i: usize = 0;
    while i < items.len()
        invariant
            i <= items.len(),
            av == Json::views(items@),
            av == listed_models(parsed.view()),
            av.len() == items@.len(),
            forall|j: int| 0 <= j < items@.len() ==> #[trigger] av[j] == items@[j].view(),
            Json::views(out@) == model_rows(av.take(i as int)),
        decreases items.len() - i,
    {
        let ghost before = out@;
        assert(av.take(i + 1).drop_last() =~= av.take(i as int));
        assert(av.take(i + 1).last() == av[i as int]);
        match model_row_of(&items[i]) {
            Some(row) => {
                let ghost rv = row.view();
                out.push(row);
                proof {
                    lemma_views(out@);
                    lemma_views(before);
                    lemma_views_ext(out@, Json::views(before).push(rv));
                }
            },
            None => {},
        }
        i += 1;
    }
    assert(av.take(i as int) =~= av);
    out
}

/// `serde_json::Value`, the document `serde_json::from_str` builds; carried
/// only as far as its conversion into `Json`.
#[verifier::external_type_specification]
#[verifier::external_body]
pub struct ExJsonValue(serde_json::Value);

/// What `serde_json::from_str::<serde_json::Value>` makes of a text, as a
/// `Json`: `None` where the text is not one JSON document. Numbers are kept
/// by the text `serde_json::Number` prints, objects by key order.
pub uninterp spec fn parsed_body(body: Seq<char>) -> Option<JsonV>;

/// A `serde_json::Value` rewritten as a `Json`, variant for variant.
#[verifier::external_body]
fn json_of_value(v: serde_json::Value) -> Json {
    match v {
        serde_json::Value::Null => Json::Null,
        serde_json::Value::Bool(b) => Json::Bool(b),
        serde_json::Value::Number(n) => Json::Number(n.to_string()),
        serde_json::Value::String(s) => Json::Str(s),
        serde_json::Value::Array(a) => Json::Array(a.into_iter().map(json_of_value).collect()),
        serde_json::Value::Object(o) => Json::Object(
            o.into_iter().map(|(k, v)| (k, json_of_value(v))).collect(),
        ),
    }
}

/// Parses `body` with `serde_json::from_str::<serde_json::Value>`; the
/// contract claims only that the result is the named `parsed_body` of the
/// text, a function of the text alone. Which texts parse, and to what, is
/// serde_json's grammar and is not restated here.
#[verifier::external_body]
pub fn parse_body(body: &str) -> (r: Option<Json>)
    ensures
        opt_json(r) == parsed_body(body@),
{
    serde_json::from_str::<serde_json::Value>(body).ok().map(json_of_value)
}

/// The document a `/models` answer is read as: the parsed body, or an empty
/// object where the body does not parse.
pub open spec fn body_document(parsed: Option<JsonV>) -> JsonV {
    match parsed {
        Some(j) => j,
        None => JsonV::Object(Seq::empty()),
    }
}

/// The models the body of a `/models` answer lists, normalised for the
/// picker; a body that does not parse lists none.
pub fn models_of_body(body: &str) -> (r: Vec<Json>)
    ensures
        Json::views(r@) == models_of(body_document(parsed_body(body@))),
{
    let doc = match parse_body(body) {
        Some(j) => j,
        None => Json::Object(Vec::new()),
    };
    proof {
        lemma_entries_view(Seq::<(String, Json)>::empty());
    }
    assert(doc.view() == body_document(parsed_body(body@)));
    models_of_response(&doc)
}

/// `extra` with the listing cached under `extra.llm.discovered[provider]`.
pub open spec fn with_discovered(extra: Option<JsonV>, provider: Seq<char>, models: Seq<JsonV>) -> JsonV {
    let ex = norm_obj(extra);
    let llm = norm_obj(obj_get(ex, "llm"@));
    let disc = obj_insert(norm_obj(obj_get(llm, "discovered"@)), provider, JsonV::Array(models));
    JsonV::Object(obj_insert(ex, "llm"@, JsonV::Object(obj_insert(llm, "discovered"@, JsonV::Object(disc)))))
}

/// `extra` with a provider's listing cached; `None` when the listing was
/// for a raw endpoint (no provider name), which is not cached.
pub fn with_discovered_of(extra: &Option<Json>, provider: &String, models: &Vec<Json>) -> (r: Option<Json>)
    ensures
        provider@.len() == 0 ==> r is None,
        provider@.len() > 0 ==> opt_json(r) == Some(with_discovered(opt_json(*extra), provider@, Json::views(models@))),
{
    if is_empty_str(provider.as_str()) {
        return None;
    }
    let mut ex = entries_or_empty(match extra {
        Some(e) => Some(e),
        None => None,
    });
    let mut llm = entries_or_empty(entries_get(&ex, "llm"));
    let mut disc = entries_or_empty(entries_get(&llm, "discovered"));
    let list = Json::Array(models_copy(models));
    entries_insert(&mut disc, provider.clone(), list);
    entries_insert(&mut llm, owned("discovered"), Json::Object(disc));
    entries_insert(&mut ex, owned("llm"), Json::Object(llm));
    Some(Json::Object(ex))
}

/// Copies of every value.
pub fn models_copy(models: &Vec<Json>) -> (r: Vec<Json>)
    ensures
        Json::views(r@) == Json::views(models@),
{
    let mut out: Vec<Json> = Vec::new();
    let mut i: usize = 0;
    while i < models.len()
        invariant
            i <= models.len(),
            out@.len() == i,
            forall|j: int| 0 <= j < i ==> (#[trigger] out@[j]).view() == models@[j].view(),
        decreases models.len() - i,
    {
        out.push(models[i].duplicate());
        i += 1;
    }
    proof {
        lemma_views(models@);
        lemma_views_ext(out@, Json::views(models@));
    }
    out
}

/// What `fetch_llm_models` answers: `{"models": [...], "provider": name}`.
pub fn models_reply(models: &Vec<Json>, provider: &String) -> (r: Json)
    ensures
        r.view() == JsonV::Object(
            seq![("models"@, JsonV::Array(Json::views(models@))), ("provider"@, JsonV::Str(provider@))],
        ),
{
    pair_object("models", Json::Array(models_copy(models)), "provider", Json::Str(provider.clone()))
}

} // verus!
