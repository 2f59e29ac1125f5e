//! What a plugin declares about its frontend: the slots it opens, the slots
//! it renders into, its assets, its adjustments to others, its pages and its
//! windows. The host reads these from the guest's manifest; the studio turns
//! them into what the panel and the window manager need.

use vstd::prelude::*;

verus! {

/// A slot a plugin opens for others to fill.
pub struct SlotDecl {
    pub name: String,
    pub description: Option<String>,
}

/// A place a plugin's UI claims inside some slot.
pub struct SlotInject {
    pub slot: String,
    pub priority: i32,
    pub component: Option<String>,
}

/// What an adjustment does to a matching contribution.
#[derive(Clone, Copy, PartialEq, Eq, Structural)]
pub enum AdjustAction {
    Hide,
    Unhide,
    Replace,
    Priority,
}

/// An adjustment a plugin applies to other plugins' contributions.
pub struct Adjust {
    pub slot: String,
    pub from: Option<String>,
    pub action: AdjustAction,
    pub to: Option<i32>,
    pub by: Option<i32>,
    pub component: Option<String>,
}

/// A page a plugin contributes.
pub struct RouteDecl {
    pub path: String,
    pub component: String,
    pub title: Option<String>,
    pub icon: Option<String>,
    pub nav: bool,
}

/// When a declared window opens.
#[derive(Clone, Copy, PartialEq, Eq, Structural)]
pub enum WindowOpen {
    /// When the plugin activates.
    Auto,
    /// Only when asked.
    Manual,
    /// At launch, instead of the app's own window.
    Startup,
}

/// What a declared window shows.
#[derive(Clone, Copy, PartialEq, Eq, Structural)]
pub enum WindowContent {
    /// A self-contained page the plugin supplies.
    Html,
    /// The app, rendering one registered component.
    App,
}

/// A window a plugin declares. Its size is kept by the window manager.
pub struct WindowDecl {
    pub name: String,
    pub component: String,
    pub title: Option<String>,
    pub open: WindowOpen,
    pub content: WindowContent,
    pub html: Option<String>,
}

/// One plugin's frontend declaration.
pub struct UiDecl {
    pub provides: Vec<SlotDecl>,
    pub injects: Vec<SlotInject>,
    /// File name to contents, ordered by file name.
    pub assets: Vec<(String, String)>,
    pub adjusts: Vec<Adjust>,
    pub routes: Vec<RouteDecl>,
    pub windows: Vec<WindowDecl>,
}

/// A declared window as plain values.
pub struct WindowDeclV {
    pub name: Seq<char>,
    pub component: Seq<char>,
    pub title: Option<Seq<char>>,
    pub open: WindowOpen,
    pub content: WindowContent,
    pub html: Option<Seq<char>>,
}

/// `Option<String>` as plain characters.
pub open spec fn opt_chars(o: Option<String>) -> Option<Seq<char>> {
    match o {
        Some(s) => Some(s@),
        None => None,
    }
}

impl WindowDecl {
    pub open spec fn view(&self) -> WindowDeclV {
        WindowDeclV {
            name: self.name@,
            component: self.component@,
            title: opt_chars(self.title),
            open: self.open,
            content: self.content,
            html: opt_chars(self.html),
        }
    }
}

/// The windows of each declaring slot, as plain values.
pub open spec fn decl_windows(decls: Seq<(String, UiDecl)>) -> Seq<(Seq<char>, Seq<WindowDeclV>)> {
    decls.map_values(
        |d: (String, UiDecl)| (d.0@, d.1.windows@.map_values(|w: WindowDecl| w.view())),
    )
}

/// A copy of an optional string.
pub fn clone_opt(o: &Option<String>) -> (r: Option<String>)
    ensures
        opt_chars(r) == opt_chars(*o),
        r == *o,
{
    match o {
        Some(s) => Some(s.clone()),
        None => None,
    }
}

} // verus!
