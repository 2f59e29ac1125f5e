//! What the admin panel's commands answer: the rows of the plugins, UI
//! contributions, services and capabilities pages, the change events the
//! panel listens for, and the error text a refused command returns.

use vstd::prelude::*;
use crate::error::StudioError;
use crate::json::Json;
use crate::llm::str_views;
use crate::plugins::{lookup, RunningPlugin, RunningV, StudioConfig};
use crate::studio::Studio;
use crate::text::{owned, str_eq};
use crate::ui::{opt_chars, AdjustAction, UiDecl};

verus! {

broadcast use vstd::std_specs::vec::group_vec_axioms;

/// The text a refused command returns.
pub fn err(e: &StudioError) -> (r: String)
    ensures
        r@ == e.message_spec(),
{
    e.message()
}

// ---------------------------------------------------------------------------
// Change events
// ---------------------------------------------------------------------------

/// What the studio tells the panel changed.
pub enum StudioEvent {
    /// A plugin was hot-reloaded, with its new tool surface.
    Reloaded { slot: String, tools: Vec<String> },
    /// A rebuild was rejected; the old plugin kept running.
    ReloadFailed { slot: String, error: String },
    /// The plugin set or its state changed.
    Changed,
}

/// A tool the host serves: its name and the slot providing it.
pub struct ToolInfo {
    pub name: String,
    pub description: String,
    pub slot: String,
    pub plugin: String,
    pub parameters: Json,
}

/// The names of the tools `slot` provides, in the host's order.
pub open spec fn slot_tools(tools: Seq<ToolInfo>, slot: Seq<char>) -> Seq<Seq<char>> {
    tools.filter(|t: ToolInfo| t.slot@ == slot).map_values(|t: ToolInfo| t.name@)
}

/// The names of the tools `slot` provides.
pub fn tools_of(tools: &Vec<ToolInfo>, slot: &str) -> (r: Vec<String>)
    ensures
        str_views(r@) == slot_tools(tools@, slot@),
{
    let ghost pred = |t: ToolInfo| t.slot@ == slot@;
    let mut out: Vec<String> = Vec::new();
    let mut i: usize = 0;
    while i < tools.len()
        invariant
            i <= tools.len(),
            pred == (|t: ToolInfo| t.slot@ == slot@),
            str_views(out@) == tools@.take(i as int).filter(pred).map_values(|t: ToolInfo| t.name@),
        decreases tools.len() - i,
    {
        proof {
            reveal_with_fuel(Seq::<_>::filter, 1);
            assert(tools@.take(i + 1).drop_last() =~= tools@.take(i as int));
        }
        if str_eq(tools[i].slot.as_str(), slot) {
            let ghost before = str_views(out@);
            out.push(tools[i].name.clone());
            assert(str_views(out@) =~= before.push(tools@[i as int].name@));
            assert(tools@.take(i as int).filter(pred).push(tools@[i as int]).map_values(
                |t: ToolInfo| t.name@,
            ) =~= tools@.take(i as int).filter(pred).map_values(|t: ToolInfo| t.name@).push(
                tools@[i as int].name@,
            ));
        }
        i += 1;
    }
    assert(tools@.take(i as int) =~= tools@);
    out
}

/// What a hot reload reports once the fiber is back (`reload_slot`): the
/// slot's new tools when the new build was taken, the rejection otherwise
/// (the old build keeps running).
pub fn reload_outcome(slot: &str, swapped: Result<(), String>, tools: &Vec<ToolInfo>) -> (r: (
    StudioEvent,
    Result<Vec<String>, StudioError>,
))
    ensures
        match swapped {
            Ok(()) => {
                &&& (r.0 matches StudioEvent::Reloaded { slot: s, tools: ts } && s@ == slot@ && str_views(ts@)
                    == slot_tools(tools@, slot@))
                &&& (r.1 matches Ok(names) && str_views(names@) == slot_tools(tools@, slot@))
            },
            Err(e) => {
                &&& (r.0 matches StudioEvent::ReloadFailed { slot: s, error: m } && s@ == slot@ && m@
                    == e@)
                &&& (r.1 matches Err(StudioError::Runtime(m2)) && m2@ == e@)
            },
        },
{
    match swapped {
        Ok(()) => {
            let names = tools_of(tools, slot);
            let again = tools_of(tools, slot);
            (StudioEvent::Reloaded { slot: owned(slot), tools: names }, Ok(again))
        },
        Err(e) => {
            let m = e.clone();
            (StudioEvent::ReloadFailed { slot: owned(slot), error: e }, Err(StudioError::Runtime(m)))
        },
    }
}

// ---------------------------------------------------------------------------
// Plugins table
// ---------------------------------------------------------------------------

/// Where and how a plugin wants to render.
pub struct SlotInjectRow {
    pub slot: String,
    pub priority: i32,
    pub component: Option<String>,
}

/// One row of the plugins table.
pub struct PluginRow {
    pub slot: String,
    pub plugin: String,
    /// `active` | `pending` | ...
    pub state: String,
    pub tool_count: usize,
    pub active: bool,
    /// Whether a fiber is mounted for this slot.
    pub mounted: bool,
    /// Persisted desired state.
    pub enabled: bool,
    pub path: String,
    /// Services this slot declares it needs.
    pub injects: Vec<String>,
    /// Services this slot offers.
    pub provides: Vec<String>,
    /// Frontend slots this plugin opens for others.
    pub provides_slots: Vec<String>,
    /// Slots this plugin's UI mounts into.
    pub injects_slots: Vec<SlotInjectRow>,
    /// Whether this plugin ships frontend assets.
    pub has_ui: bool,
}

/// What the host reports of one running plugin.
pub struct HostPlugin {
    pub running: RunningPlugin,
    /// The services it injects and provides.
    pub injects: Vec<String>,
    pub provides: Vec<String>,
    /// Its frontend declaration, if it has one.
    pub ui: Option<UiDecl>,
}

pub struct InjectV {
    pub slot: Seq<char>,
    pub priority: i32,
    pub component: Option<Seq<char>>,
}

pub struct PluginRowV {
    pub running: RunningV,
    pub mounted: bool,
    pub enabled: bool,
    pub path: Seq<char>,
    pub injects: Seq<Seq<char>>,
    pub provides: Seq<Seq<char>>,
    pub provides_slots: Seq<Seq<char>>,
    pub injects_slots: Seq<InjectV>,
    pub has_ui: bool,
}

pub open spec fn inject_rows_v(rows: Seq<SlotInjectRow>) -> Seq<InjectV> {
    rows.map_values(|r: SlotInjectRow| InjectV { slot: r.slot@, priority: r.priority, component: opt_chars(r.component) })
}

impl PluginRow {
    pub open spec fn view(&self) -> PluginRowV {
        PluginRowV {
            running: RunningV {
                slot: self.slot@,
                plugin: self.plugin@,
                state: self.state@,
                tool_count: self.tool_count,
                active: self.active,
            },
            mounted: self.mounted,
            enabled: self.enabled,
            path: self.path@,
            injects: str_views(self.injects@),
            provides: str_views(self.provides@),
            provides_slots: str_views(self.provides_slots@),
            injects_slots: inject_rows_v(self.injects_slots@),
            has_ui: self.has_ui,
        }
    }
}

/// The slot names a declaration opens.
pub open spec fn provided_slots(ui: UiDecl) -> Seq<Seq<char>> {
    ui.provides@.map_values(|d: crate::ui::SlotDecl| d.name@)
}

/// The places a declaration claims.
pub open spec fn injected_slots(ui: UiDecl) -> Seq<InjectV> {
    ui.injects@.map_values(
        |i: crate::ui::SlotInject| InjectV { slot: i.slot@, priority: i.priority, component: opt_chars(i.component) },
    )
}

/// A plugin's row: the host's figures, whether a fiber is mounted, the
/// persisted state (not enabled and no path when it is not configured), and
/// what UI it brings.
pub open spec fn plugin_row(p: HostPlugin, mounted: Seq<Seq<char>>, cfg: crate::plugins::Plugins) -> PluginRowV {
    let slot = p.running.slot@;
    PluginRowV {
        running: p.running@,
        mounted: mounted.contains(slot),
        enabled: match lookup(cfg, slot) {
            Some(e) => e.enabled,
            None => false,
        },
        path: match lookup(cfg, slot) {
            Some(e) => e.path,
            None => Seq::empty(),
        },
        injects: str_views(p.injects@),
        provides: str_views(p.provides@),
        provides_slots: match p.ui {
            Some(u) => provided_slots(u),
            None => Seq::empty(),
        },
        injects_slots: match p.ui {
            Some(u) => injected_slots(u),
            None => Seq::empty(),
        },
        has_ui: match p.ui {
            Some(u) => u.assets@.len() > 0,
            None => false,
        },
    }
}

fn copy_strings(v: &Vec<String>) -> (r: Vec<String>)
    ensures
        str_views(r@) == str_views(v@),
{
    let mut out: Vec<String> = Vec::new();
    let mut i: usize = 0;
    while i < v.len()
        invariant
            i <= v.len(),
            str_views(out@) == str_views(v@).take(i as int),
        decreases v.len() - i,
    {
        let ghost before = str_views(out@);
        out.push(v[i].clone());
        assert(str_views(out@) =~= before.push(v@[i as int]@));
        assert(str_views(v@).take(i + 1) =~= str_views(v@).take(i as int).push(v@[i as int]@));
        i += 1;
    }
    assert(str_views(v@).take(i as int) =~= str_views(v@));
    out
}

fn slot_names(ui: &UiDecl) -> (r: Vec<String>)
    ensures
        str_views(r@) == provided_slots(*ui),
{
    let mut out: Vec<String> = Vec::new();
    let mut i: usize = 0;
    while i < ui.provides.len()
        invariant
            i <= ui.provides.len(),
            str_views(out@) == provided_slots(*ui).take(i as int),
        decreases ui.provides.len() - i,
    {
        let ghost before = str_views(out@);
        out.push(ui.provides[i].name.clone());
        assert(str_views(out@) =~= before.push(ui.provides@[i as int].name@));
        assert(provided_slots(*ui).take(i + 1) =~= provided_slots(*ui).take(i as int).push(
            ui.provides@[i as int].name@,
        ));
        i += 1;
    }
    assert(provided_slots(*ui).take(i as int) =~= provided_slots(*ui));
    out
}

fn inject_rows(ui: &UiDecl) -> (r: Vec<SlotInjectRow>)
    ensures
        inject_rows_v(r@) == injected_slots(*ui),
{
    let mut out: Vec<SlotInjectRow> = Vec::new();
    let mut i: usize = 0;
    while i < ui.injects.len()
        invariant
            i <= ui.injects.len(),
            inject_rows_v(out@) == injected_slots(*ui).take(i as int),
        decreases ui.injects.len() - i,
    {
        let x = &ui.injects[i];
        let ghost before = inject_rows_v(out@);
        out.push(
            SlotInjectRow {
                slot: x.slot.clone(),
                priority: x.priority,
                component: crate::ui::clone_opt(&x.component),
            },
        );
        let ghost xv = InjectV { slot: x.slot@, priority: x.priority, component: opt_chars(x.component) };
        assert(inject_rows_v(out@) =~= before.push(xv));
        assert(injected_slots(*ui).take(i + 1) =~= injected_slots(*ui).take(i as int).push(xv));
        i += 1;
    }
    assert(injected_slots(*ui).take(i as int) =~= injected_slots(*ui));
    out
}

/// The plugins table (`list_plugins`): one row per running plugin, in the
/// host's order.
pub fn plugin_rows<F, A>(studio: &Studio<F, A>, config: &StudioConfig, plugins: &Vec<HostPlugin>) -> (r: Vec<PluginRow>)
    ensures
        r@.len() == plugins@.len(),
        forall|i: int|
            0 <= i < r@.len() ==> (#[trigger] r@[i]).view() == plugin_row(
                plugins@[i],
                studio.mounted_slots(),
                config.plugins_v(),
            ),
{
    let mut out: Vec<PluginRow> = Vec::new();
    let mut i: usize = 0;
    while i < plugins.len()
        invariant
            i <= plugins.len(),
            out@.len() == i,
            forall|k: int|
                0 <= k < i ==> (#[trigger] out@[k]).view() == plugin_row(
                    plugins@[k],
                    studio.mounted_slots(),
                    config.plugins_v(),
                ),
        decreases plugins.len() - i,
    {
        let p = &plugins[i];
        let slot = &p.running.slot;
        let entry = config.get(slot.as_str());
        let (enabled, path) = match entry {
            Some(e) => (e.enabled, e.path.clone()),
            None => (false, String::new()),
        };
        let (provides_slots, injects_slots, has_ui) = match &p.ui {
            Some(u) => (slot_names(u), inject_rows(u), u.assets.len() > 0),
            None => (Vec::new(), Vec::new(), false),
        };
        let row = PluginRow {
            slot: slot.clone(),
            plugin: p.running.plugin.clone(),
            state: p.running.state.clone(),
            tool_count: p.running.tool_count,
            active: p.running.active,
            mounted: studio.is_mounted(slot.as_str()),
            enabled,
            path,
            injects: copy_strings(&p.injects),
            provides: copy_strings(&p.provides),
            provides_slots,
            injects_slots,
            has_ui,
        };
        assert(str_views(provides_slots@) == match p.ui {
            Some(u) => provided_slots(u),
            None => Seq::<Seq<char>>::empty(),
        }) by {
            if p.ui is None {
                assert(str_views(provides_slots@) =~= Seq::<Seq<char>>::empty());
            }
        }
        assert(inject_rows_v(injects_slots@) == match p.ui {
            Some(u) => injected_slots(u),
            None => Seq::<InjectV>::empty(),
        }) by {
            if p.ui is None {
                assert(inject_rows_v(injects_slots@) =~= Seq::<InjectV>::empty());
            }
        }
        out.push(row);
        i += 1;
    }
    out
}

// ---------------------------------------------------------------------------
// UI contributions
// ---------------------------------------------------------------------------

/// A contributed page, as the frontend receives it.
pub struct UiRouteRow {
    pub path: String,
    pub component: String,
    pub title: Option<String>,
    pub icon: Option<String>,
    pub nav: bool,
}

/// One adjustment, as the frontend receives it.
pub struct UiAdjustRow {
    pub slot: String,
    pub from: Option<String>,
    /// `hide` | `unhide` | `replace` | `priority`.
    pub action: String,
    pub to: Option<i32>,
    pub by: Option<i32>,
    pub component: Option<String>,
}

/// One plugin's frontend contribution, as the panel needs it.
pub struct UiPlugin {
    pub slot: String,
    pub provides_slots: Vec<String>,
    pub injects_slots: Vec<SlotInjectRow>,
    /// File name to contents, ordered by file name.
    pub assets: Vec<(String, String)>,
    pub adjusts: Vec<UiAdjustRow>,
    pub routes: Vec<UiRouteRow>,
}

pub open spec fn action_name(a: AdjustAction) -> Seq<char> {
    match a {
        AdjustAction::Hide => "hide"@,
        AdjustAction::Unhide => "unhide"@,
        AdjustAction::Replace => "replace"@,
        AdjustAction::Priority => "priority"@,
    }
}

pub struct AdjustV {
    pub slot: Seq<char>,
    pub from: Option<Seq<char>>,
    pub action: Seq<char>,
    pub to: Option<i32>,
    pub by: Option<i32>,
    pub component: Option<Seq<char>>,
}

pub struct RouteV {
    pub path: Seq<char>,
    pub component: Seq<char>,
    pub title: Option<Seq<char>>,
    pub icon: Option<Seq<char>>,
    pub nav: bool,
}

pub struct UiPluginV {
    pub slot: Seq<char>,
    pub provides_slots: Seq<Seq<char>>,
    pub injects_slots: Seq<InjectV>,
    pub assets: Seq<(Seq<char>, Seq<char>)>,
    pub adjusts: Seq<AdjustV>,
    pub routes: Seq<RouteV>,
}

impl UiPlugin {
    pub open spec fn view(&self) -> UiPluginV {
        UiPluginV {
            slot: self.slot@,
            provides_slots: str_views(self.provides_slots@),
            injects_slots: inject_rows_v(self.injects_slots@),
            assets: self.assets@.map_values(|a: (String, String)| (a.0@, a.1@)),
            adjusts: self.adjusts@.map_values(
                |a: UiAdjustRow| AdjustV {
                    slot: a.slot@,
                    from: opt_chars(a.from),
                    action: a.action@,
                    to: a.to,
                    by: a.by,
                    component: opt_chars(a.component),
                },
            ),
            routes: self.routes@.map_values(
                |r: UiRouteRow| RouteV {
                    path: r.path@,
                    component: r.component@,
                    title: opt_chars(r.title),
                    icon: opt_chars(r.icon),
                    nav: r.nav,
                },
            ),
        }
    }
}

/// A plugin's contribution, carried over from its declaration.
pub open spec fn contribution(slot: Seq<char>, ui: UiDecl) -> UiPluginV {
    UiPluginV {
        slot,
        provides_slots: provided_slots(ui),
        injects_slots: injected_slots(ui),
        assets: ui.assets@.map_values(|a: (String, String)| (a.0@, a.1@)),
        adjusts: ui.adjusts@.map_values(
            |a: crate::ui::Adjust| AdjustV {
                slot: a.slot@,
                from: opt_chars(a.from),
                action: action_name(a.action),
                to: a.to,
                by: a.by,
                component: opt_chars(a.component),
            },
        ),
        routes: ui.routes@.map_values(
            |r: crate::ui::RouteDecl| RouteV {
                path: r.path@,
                component: r.component@,
                title: opt_chars(r.title),
                icon: opt_chars(r.icon),
                nav: r.nav,
            },
        ),
    }
}

fn action_text(a: AdjustAction) -> (r: String)
    ensures
        r@ == action_name(a),
{
    match a {
        AdjustAction::Hide => owned("hide"),
        AdjustAction::Unhide => owned("unhide"),
        AdjustAction::Replace => owned("replace"),
        AdjustAction::Priority => owned("priority"),
    }
}

fn contribution_of(slot: &String, ui: &UiDecl) -> (r: UiPlugin)
    ensures
        r.view() == contribution(slot@, *ui),
{
    let mut assets: Vec<(String, String)> = Vec::new();
    let mut i: usize = 0;
    while i < ui.assets.len()
        invariant
            i <= ui.assets.len(),
            assets@.map_values(|a: (String, String)| (a.0@, a.1@)) == ui.assets@.map_values(
                |a: (String, String)| (a.0@, a.1@),
            ).take(i as int),
        decreases ui.assets.len() - i,
    {
        let ghost before = assets@.map_values(|a: (String, String)| (a.0@, a.1@));
        let ghost all = ui.assets@.map_values(|a: (String, String)| (a.0@, a.1@));
        assets.push((ui.assets[i].0.clone(), ui.assets[i].1.clone()));
        assert(assets@.map_values(|a: (String, String)| (a.0@, a.1@)) =~= before.push(all[i as int]));
        assert(all.take(i + 1) =~= all.take(i as int).push(all[i as int]));
        i += 1;
    }
    assert(ui.assets@.map_values(|a: (String, String)| (a.0@, a.1@)).take(i as int)
        =~= ui.assets@.map_values(|a: (String, String)| (a.0@, a.1@)));
    let mut adjusts: Vec<UiAdjustRow> = Vec::new();
    let ghost want_adj = contribution(slot@, *ui).adjusts;
    let mut j: usize = 0;
    while j < ui.adjusts.len()
        invariant
            j <= ui.adjusts.len(),
            want_adj == contribution(slot@, *ui).adjusts,
            want_adj.len() == ui.adjusts@.len(),
            adjusts@.len() == j,
            forall|k: int|
                0 <= k < j ==> {
                    let a = #[trigger] adjusts@[k];
                    AdjustV {
                        slot: a.slot@,
                        from: opt_chars(a.from),
                        action: a.action@,
                        to: a.to,
                        by: a.by,
                        component: opt_chars(a.component),
                    } == want_adj[k]
                },
        decreases ui.adjusts.len() - j,
    {
        let a = &ui.adjusts[j];
        adjusts.push(
            UiAdjustRow {
                slot: a.slot.clone(),
                from: crate::ui::clone_opt(&a.from),
                action: action_text(a.action),
                to: a.to,
                by: a.by,
                component: crate::ui::clone_opt(&a.component),
            },
        );
        j += 1;
    }
    let mut routes: Vec<UiRouteRow> = Vec::new();
    let ghost want_rt = contribution(slot@, *ui).routes;
    let mut k: usize = 0;
    while k < ui.routes.len()
        invariant
            k <= ui.routes.len(),
            want_rt == contribution(slot@, *ui).routes,
            want_rt.len() == ui.routes@.len(),
            routes@.len() == k,
            forall|m: int|
                0 <= m < k ==> {
                    let r = #[trigger] routes@[m];
                    RouteV {
                        path: r.path@,
                        component: r.component@,
                        title: opt_chars(r.title),
                        icon: opt_chars(r.icon),
                        nav: r.nav,
                    } == want_rt[m]
                },
        decreases ui.routes.len() - k,
    {
        let r = &ui.routes[k];
        routes.push(
            UiRouteRow {
                path: r.path.clone(),
                component: r.component.clone(),
                title: crate::ui::clone_opt(&r.title),
                icon: crate::ui::clone_opt(&r.icon),
                nav: r.nav,
            },
        );
        k += 1;
    }
    let r = UiPlugin {
        slot: slot.clone(),
        provides_slots: slot_names(ui),
        injects_slots: inject_rows(ui),
        assets,
        adjusts,
        routes,
    };
    assert(r.view().adjusts =~= want_adj);
    assert(r.view().routes =~= want_rt);
    r
}

/// Every loaded plugin's frontend contribution (`ui_contributions`), in the
/// host's order.
pub fn ui_contributions(decls: &Vec<(String, UiDecl)>) -> (r: Vec<UiPlugin>)
    ensures
        r@.len() == decls@.len(),
        forall|i: int|
            0 <= i < r@.len() ==> (#[trigger] r@[i]).view() == contribution(decls@[i].0@, decls@[i].1),
{
    let mut out: Vec<UiPlugin> = Vec::new();
    let mut i: usize = 0;
    while i < decls.len()
        invariant
            i <= decls.len(),
            out@.len() == i,
            forall|k: int|
                0 <= k < i ==> (#[trigger] out@[k]).view() == contribution(decls@[k].0@, decls@[k].1),
        decreases decls.len() - i,
    {
        out.push(contribution_of(&decls[i].0, &decls[i].1));
        i += 1;
    }
    out
}

// ---------------------------------------------------------------------------
// Services, tools and capabilities
// ---------------------------------------------------------------------------

/// One node of the service graph.
pub struct ServiceRow {
    pub name: String,
    /// `wasm` when a slot provides it, `dsh` when the host does.
    pub origin: String,
    /// The providing slot, when a slot provides it.
    pub provider: Option<String>,
}

/// The service graph (`list_services`): each service with the slot that
/// provides it, if any.
pub fn service_rows(services: Vec<(String, Option<String>)>) -> (r: Vec<ServiceRow>)
    ensures
        r@.len() == services@.len(),
        forall|i: int|
            0 <= i < r@.len() ==> {
                let row = #[trigger] r@[i];
                &&& row.name@ == services@[i].0@
                &&& opt_chars(row.provider) == opt_chars(services@[i].1)
                &&& row.origin@ == if services@[i].1 is Some {
                    "wasm"@
                } else {
                    "dsh"@
                }
            },
{
    let mut out: Vec<ServiceRow> = Vec::new();
    let mut rest = services;
    let ghost all = rest@;
    let n = rest.len();
    assert(all.len() == n);
    let mut i: usize = 0;
    while rest.len() > 0
        invariant
            i + rest.len() == all.len(),
            all.len() <= usize::MAX,
            rest@ == all.skip(i as int),
            out@.len() == i,
            forall|k: int|
                0 <= k < i ==> {
                    let row = #[trigger] out@[k];
                    &&& row.name@ == all[k].0@
                    &&& opt_chars(row.provider) == opt_chars(all[k].1)
                    &&& row.origin@ == if all[k].1 is Some {
                        "wasm"@
                    } else {
                        "dsh"@
                    }
                },
        decreases rest.len(),
    {
        let (name, provider) = rest.remove(0);
        assert(rest@ =~= all.skip(i + 1));
        let origin = if provider.is_some() {
            owned("wasm")
        } else {
            owned("dsh")
        };
        out.push(ServiceRow { name, origin, provider });
        i += 1;
    }
    out
}

/// One row of the tools table.
pub struct ToolRow {
    pub name: String,
    pub description: String,
    pub slot: String,
    pub plugin: String,
    pub parameters: Json,
}

/// The tools table (`list_tools`): each tool the host serves, in its order.
pub fn tool_rows(tools: Vec<ToolInfo>) -> (r: Vec<ToolRow>)
    ensures
        r@.len() == tools@.len(),
        forall|i: int|
            0 <= i < r@.len() ==> {
                let row = #[trigger] r@[i];
                &&& row.name@ == tools@[i].name@
                &&& row.description@ == tools@[i].description@
                &&& row.slot@ == tools@[i].slot@
                &&& row.plugin@ == tools@[i].plugin@
                &&& row.parameters.view() == tools@[i].parameters.view()
            },
{
    let mut out: Vec<ToolRow> = Vec::new();
    let mut rest = tools;
    let ghost all = rest@;
    let n = rest.len();
    assert(all.len() == n);
    let mut i: usize = 0;
    while rest.len() > 0
        invariant
            i + rest.len() == all.len(),
            all.len() <= usize::MAX,
            rest@ == all.skip(i as int),
            out@.len() == i,
            forall|k: int|
                0 <= k < i ==> {
                    let row = #[trigger] out@[k];
                    &&& row.name@ == all[k].name@
                    &&& row.description@ == all[k].description@
                    &&& row.slot@ == all[k].slot@
                    &&& row.plugin@ == all[k].plugin@
                    &&& row.parameters.view() == all[k].parameters.view()
                },
        decreases rest.len(),
    {
        let t = rest.remove(0);
        assert(rest@ =~= all.skip(i + 1));
        out.push(
            ToolRow {
                name: t.name,
                description: t.description,
                slot: t.slot,
                plugin: t.plugin,
                parameters: t.parameters,
            },
        );
        i += 1;
    }
    out
}

/// The dsh services a WASM plugin may inject across the boundary.
pub open spec fn dsh_service_names() -> Seq<Seq<char>> {
    seq!["tools"@, "sessions"@, "llm"@, "agents"@, "systemPrompt"@, "manifest"@]
}

/// dsh's service names (`dsh_rs::api::{TOOLS, SESSIONS, LLM, AGENTS,
/// SYSTEM_PROMPT, MANIFEST}_SERVICE`), whose values its source fixes as
/// `tools`, `sessions`, `llm`, `agents`, `systemPrompt` and `manifest`.
#[verifier::external_body]
fn dsh_service_consts() -> (r: Vec<String>)
    ensures
        str_views(r@) == dsh_service_names(),
{
    vec![
        dsh_rs::api::TOOLS_SERVICE.to_string(),
        dsh_rs::api::SESSIONS_SERVICE.to_string(),
        dsh_rs::api::LLM_SERVICE.to_string(),
        dsh_rs::api::AGENTS_SERVICE.to_string(),
        dsh_rs::api::SYSTEM_PROMPT_SERVICE.to_string(),
        dsh_rs::api::MANIFEST_SERVICE.to_string(),
    ]
}

/// The dsh services a WASM plugin may inject (`dsh_services`).
pub fn dsh_services() -> (r: Vec<String>)
    ensures
        str_views(r@) == dsh_service_names(),
{
    dsh_service_consts()
}

/// What the studio can do.
pub struct Capabilities {
    pub dsh_services: Vec<String>,
    /// The flow events WASM plugins may hook.
    pub flow_events: Vec<String>,
    /// Whether the disk compile cache is active.
    pub disk_cache: bool,
}

/// The capabilities page (`capabilities`): dsh's injectable services, the
/// host's flow events, and whether compiled plugins are cached on disk.
pub fn capabilities(flow_events: Vec<String>, disk_cache: bool) -> (r: Capabilities)
    ensures
        str_views(r.dsh_services@) == dsh_service_names(),
        r.flow_events@ == flow_events@,
        r.disk_cache == disk_cache,
{
    Capabilities { dsh_services: dsh_services(), flow_events, disk_cache }
}

/// Log records newer than `since` (all of them when unset), in order.
pub fn logs_since<T>(records: Vec<(u64, T)>, since: Option<u64>) -> (r: Vec<(u64, T)>)
    ensures
        r@ == match since {
            Some(s) => records@.filter(|x: (u64, T)| x.0 > s),
            None => records@,
        },
{
    match since {
        None => records,
        Some(s) => {
            let ghost pred = |x: (u64, T)| x.0 > s;
            let mut out: Vec<(u64, T)> = Vec::new();
            let mut rest = records;
            let ghost all = rest@;
            let n = rest.len();
            assert(all.len() == n);
            let mut i: usize = 0;
            assert(all.take(0) =~= Seq::<(u64, T)>::empty());
            while rest.len() > 0
                invariant
                    i + rest.len() == all.len(),
                    all.len() <= usize::MAX,
                    rest@ == all.skip(i as int),
                    pred == (|x: (u64, T)| x.0 > s),
                    out@ == all.take(i as int).filter(pred),
                decreases rest.len(),
            {
                let x = rest.remove(0);
                assert(x == all[i as int]);
                assert(rest@ =~= all.skip(i + 1));
                proof {
                    reveal_with_fuel(Seq::<_>::filter, 1);
                    assert(all.take(i + 1).drop_last() =~= all.take(i as int));
                }
                if x.0 > s {
                    out.push(x);
                }
                i += 1;
            }
            assert(all.take(i as int) =~= all);
            out
        },
    }
}

} // verus!
