//! Plugin windows: their labels, the URL and bootstrap script a window
//! loads, which declared windows exist, and which one owns the launch view.

use vstd::prelude::*;
use crate::error::StudioError;
use crate::json::Json;
use crate::studio::Studio;
use crate::text::{chars_of, owned, push_char, push_str, string_of};
use crate::ui::{clone_opt, decl_windows, opt_chars, UiDecl, WindowContent, WindowDecl, WindowDeclV, WindowOpen};

verus! {

broadcast use vstd::std_specs::vec::group_vec_axioms;

// ---------------------------------------------------------------------------
// Labels and URLs
// ---------------------------------------------------------------------------

/// Characters Tauri accepts in a label unchanged.
pub open spec fn label_safe(c: char) -> bool {
    let u = c as u32;
    ||| 0x30 <= u <= 0x39
    ||| 0x41 <= u <= 0x5A
    ||| 0x61 <= u <= 0x7A
    ||| c == '-'
    ||| c == '_'
}

/// `s` with every character Tauri would refuse replaced by `-`.
pub open spec fn sanitize(s: Seq<char>) -> Seq<char> {
    s.map_values(|c: char| if label_safe(c) { c } else { '-' })
}

/// The label of a plugin's window: namespaced by its slot.
pub open spec fn window_label(slot: Seq<char>, name: Seq<char>) -> Seq<char> {
    "plugin-"@ + sanitize(slot) + "-"@ + sanitize(name)
}

/// The route an `app` window loads: the plugin-window page, told its label.
pub open spec fn app_window_path(label: Seq<char>) -> Seq<char> {
    "plugin-window?label="@ + label
}

/// The page an `html` window loads before its bootstrap replaces it.
pub open spec fn shell_page() -> Seq<char> {
    "plugin-window-shell.html"@
}

fn push_sanitized(out: &mut String, s: &str)
    ensures
        final(out)@ == old(out)@ + sanitize(s@),
{
    let v = chars_of(s);
    let ghost start = out@;
    let mut i: usize = 0;
    while i < v.len()
        invariant
            i <= v.len(),
            v@ == s@,
            out@ == start + sanitize(v@.take(i as int)),
        decreases v.len() - i,
    {
        let c = v[i];
        let u = c as u32;
        let keep = (0x30 <= u && u <= 0x39) || (0x41 <= u && u <= 0x5A) || (0x61 <= u && u <= 0x7A)
            || c == '-' || c == '_';
        push_char(out, if keep { c } else { '-' });
        assert(sanitize(v@.take(i + 1)) =~= sanitize(v@.take(i as int)).push(
            if label_safe(c) { c } else { '-' },
        ));
        i += 1;
    }
    assert(v@.take(i as int) =~= v@);
}

/// Every character of a label is one Tauri accepts.
pub proof fn lemma_label_is_safe(slot: Seq<char>, name: Seq<char>)
    ensures
        forall|i: int|
            0 <= i < window_label(slot, name).len() ==> label_safe(
                #[trigger] window_label(slot, name)[i],
            ),
{
    let l = window_label(slot, name);
    let p = "plugin-"@;
    let d = "-"@;
    reveal_strlit("plugin-");
    reveal_strlit("-");
    assert forall|i: int| 0 <= i < l.len() implies label_safe(#[trigger] l[i]) by {
        if i < 7 {
            assert(l[i] == p[i]);
        } else if i < 7 + slot.len() {
            assert(l[i] == sanitize(slot)[i - 7]);
        } else if i == 7 + slot.len() {
            assert(l[i] == d[0]);
        } else {
            assert(l[i] == sanitize(name)[i - 8 - slot.len()]);
        }
    }
}

/// Two plugins may declare windows with the same name: unless their slots
/// sanitize to the same text, the labels differ.
pub proof fn lemma_labels_distinct_by_slot(a: Seq<char>, b: Seq<char>, name: Seq<char>)
    requires
        sanitize(a) != sanitize(b),
    ensures
        window_label(a, name) != window_label(b, name),
{
    let (la, lb) = (window_label(a, name), window_label(b, name));
    if a.len() == b.len() {
        assert(exists|i: int| 0 <= i < a.len() && sanitize(a)[i] != sanitize(b)[i]) by {
            if !(exists|i: int| 0 <= i < a.len() && sanitize(a)[i] != sanitize(b)[i]) {
                assert(sanitize(a) =~= sanitize(b));
            }
        }
        let i = choose|i: int| 0 <= i < a.len() && sanitize(a)[i] != sanitize(b)[i];
        reveal_strlit("plugin-");
        assert(la[7 + i] == sanitize(a)[i]);
        assert(lb[7 + i] == sanitize(b)[i]);
    } else {
        assert(la.len() != lb.len());
    }
}

impl Studio {
    /// The window label for one of a plugin's declared windows.
    pub fn window_label(slot: &str, name: &str) -> (r: String)
        ensures
            r@ == window_label(slot@, name@),
    {
        let mut r = owned("plugin-");
        push_sanitized(&mut r, slot);
        push_str(&mut r, "-");
        push_sanitized(&mut r, name);
        r
    }

    /// The route an `app` window loads.
    pub fn app_window_path(label: &str) -> (r: String)
        ensures
            r@ == app_window_path(label@),
    {
        let mut r = owned("plugin-window?label=");
        push_str(&mut r, label);
        r
    }
}


// ---------------------------------------------------------------------------
// JSON string literals
// ---------------------------------------------------------------------------

/// A lowercase hexadecimal digit.
pub open spec fn hex_digit(d: nat) -> char {
    if d < 10 {
        crate::text::digit_char(d)
    } else if d == 10 {
        'a'
    } else if d == 11 {
        'b'
    } else if d == 12 {
        'c'
    } else if d == 13 {
        'd'
    } else if d == 14 {
        'e'
    } else {
        'f'
    }
}

/// How one character appears inside a JSON string literal: quote and
/// backslash escaped, the named control characters by name, other control
/// characters as `\u00XX`.
pub open spec fn escape_char(c: char) -> Seq<char> {
    let u = c as u32;
    if c == '"' {
        seq!['\\', '"']
    } else if c == '\\' {
        seq!['\\', '\\']
    } else if u == 0x08 {
        seq!['\\', 'b']
    } else if u == 0x09 {
        seq!['\\', 't']
    } else if u == 0x0A {
        seq!['\\', 'n']
    } else if u == 0x0C {
        seq!['\\', 'f']
    } else if u == 0x0D {
        seq!['\\', 'r']
    } else if u < 0x20 {
        seq!['\\', 'u', '0', '0', hex_digit((u / 16) as nat), hex_digit((u % 16) as nat)]
    } else {
        seq![c]
    }
}

/// The escaped body of a JSON string literal.
pub open spec fn escape_all(s: Seq<char>) -> Seq<char>
    decreases s.len(),
{
    if s.len() == 0 {
        Seq::empty()
    } else {
        escape_all(s.drop_last()) + escape_char(s.last())
    }
}

/// `s` as a JSON string literal, as `serde_json` writes it.
pub open spec fn json_quote(s: Seq<char>) -> Seq<char> {
    seq!['"'] + escape_all(s) + seq!['"']
}

/// `serde_json::to_string` of a string slice: the JSON string literal for
/// `s`. Serialising a `str` into memory cannot fail.
#[verifier::external_body]
fn json_string(s: &str) -> (r: String)
    ensures
        r@ == json_quote(s@),
{
    serde_json::to_string(s).unwrap_or_else(|_| "\"\"".to_string())
}

/// No character of an escaped character is a control character.
pub proof fn lemma_escape_char_printable(c: char)
    ensures
        forall|i: int|
            0 <= i < escape_char(c).len() ==> (#[trigger] escape_char(c)[i] as u32) >= 0x20,
{
    let u = c as u32;
    if u < 0x20 && u != 0x08 && u != 0x09 && u != 0x0A && u != 0x0C && u != 0x0D {
        let e = escape_char(c);
        let (hi, lo) = ((u / 16) as nat, (u % 16) as nat);
        assert(hi < 2);
        assert(lo < 16);
        assert forall|i: int| 0 <= i < e.len() implies (#[trigger] e[i] as u32) >= 0x20 by {
            if i == 4 {
                assert(e[4] == hex_digit(hi));
            } else if i == 5 {
                assert(e[5] == hex_digit(lo));
            }
        }
    }
}

/// A JSON string literal holds no raw control character, so it can stand
/// inside a script on one line whatever the string held.
pub proof fn lemma_json_quote_printable(s: Seq<char>)
    ensures
        forall|i: int| 0 <= i < json_quote(s).len() ==> (#[trigger] json_quote(s)[i] as u32) >= 0x20,
    decreases s.len(),
{
    lemma_escape_all_printable(s);
    let q = json_quote(s);
    let e = escape_all(s);
    assert forall|i: int| 0 <= i < q.len() implies (#[trigger] q[i] as u32) >= 0x20 by {
        if 0 < i < q.len() - 1 {
            assert(q[i] == e[i - 1]);
        }
    }
}

proof fn lemma_escape_all_printable(s: Seq<char>)
    ensures
        forall|i: int| 0 <= i < escape_all(s).len() ==> (#[trigger] escape_all(s)[i] as u32) >= 0x20,
    decreases s.len(),
{
    if s.len() > 0 {
        lemma_escape_all_printable(s.drop_last());
        lemma_escape_char_printable(s.last());
        let a = escape_all(s.drop_last());
        let b = escape_char(s.last());
        assert forall|i: int| 0 <= i < escape_all(s).len() implies (#[trigger] escape_all(s)[i]
            as u32) >= 0x20 by {
            if i < a.len() {
                assert(escape_all(s)[i] == a[i]);
            } else {
                assert(escape_all(s)[i] == b[i - a.len()]);
            }
        }
    }
}

// ---------------------------------------------------------------------------
// Bootstrap scripts
// ---------------------------------------------------------------------------

/// The text of an `html` window's bootstrap before its two arguments.
pub open spec fn html_bootstrap_head() -> Seq<char> {
    "((html, label) => {\n           const write = () => {\n             document.open();\n             document.write('<!doctype html><html><head><meta charset=\"utf-8\"></head><body>' + html + '</body></html>');\n             document.close();\n             window.__STUDIO_WINDOW__ = { label };\n           };\n           if (document.readyState === 'loading') {\n             document.addEventListener('DOMContentLoaded', write, { once: true });\n             // document.write must happen before parsing ends; do it now.\n             write();\n           } else { write(); }\n         })("@
}

/// The bootstrap for an `html` window: replace the document with the
/// plugin's markup at document start. Both arguments are JSON string
/// literals, so nothing in the markup can break out of the script.
pub open spec fn html_bootstrap_text(html: Seq<char>, label: Seq<char>) -> Seq<char> {
    html_bootstrap_head() + json_quote(html) + ", "@ + json_quote(label) + ");"@
}

/// The bootstrap for an `app` window: its label and params, available
/// before the plugin's component mounts.
pub open spec fn app_bootstrap_text(label: Seq<char>, params_json: Seq<char>) -> Seq<char> {
    "window.__STUDIO_WINDOW__ = { label: "@ + json_quote(label) + ", params: "@ + params_json
        + " };"@
}

/// The bootstrap script for an `html` window.
pub fn html_window_bootstrap(html: &str, label: &str) -> (r: String)
    ensures
        r@ == html_bootstrap_text(html@, label@),
{
    let mut r = owned("((html, label) => {\n           const write = () => {\n             document.open();\n             document.write('<!doctype html><html><head><meta charset=\"utf-8\"></head><body>' + html + '</body></html>');\n             document.close();\n             window.__STUDIO_WINDOW__ = { label };\n           };\n           if (document.readyState === 'loading') {\n             document.addEventListener('DOMContentLoaded', write, { once: true });\n             // document.write must happen before parsing ends; do it now.\n             write();\n           } else { write(); }\n         })(");
    let payload = json_string(html);
    let label_json = json_string(label);
    push_str(&mut r, payload.as_str());
    push_str(&mut r, ", ");
    push_str(&mut r, label_json.as_str());
    push_str(&mut r, ");");
    r
}

/// The bootstrap script for an `app` window.
pub fn app_window_bootstrap(label: &str, params_json: &str) -> (r: String)
    ensures
        r@ == app_bootstrap_text(label@, params_json@),
{
    let mut r = owned("window.__STUDIO_WINDOW__ = { label: ");
    let label_json = json_string(label);
    push_str(&mut r, label_json.as_str());
    push_str(&mut r, ", params: ");
    push_str(&mut r, params_json);
    push_str(&mut r, " };");
    r
}

// ---------------------------------------------------------------------------
// Declared windows
// ---------------------------------------------------------------------------

/// One window a plugin declares, with its derived label, as the frontend
/// needs it. Its size travels beside it, with the window manager.
pub struct PluginWindow {
    /// The real window label (namespaced by the owning slot).
    pub label: String,
    /// The plugin slot that declares it.
    pub slot: String,
    /// The plugin-local name from the declaration.
    pub name: String,
    /// Which registered component to render in the window.
    pub component: String,
    pub title: String,
    /// `auto`, `manual` or `startup`.
    pub open: String,
    /// `app` or `html`.
    pub content: String,
}

/// A plugin window as plain values.
pub struct PluginWindowV {
    pub label: Seq<char>,
    pub slot: Seq<char>,
    pub name: Seq<char>,
    pub component: Seq<char>,
    pub title: Seq<char>,
    pub open: Seq<char>,
    pub content: Seq<char>,
}

impl PluginWindow {
    pub open spec fn view(&self) -> PluginWindowV {
        PluginWindowV {
            label: self.label@,
            slot: self.slot@,
            name: self.name@,
            component: self.component@,
            title: self.title@,
            open: self.open@,
            content: self.content@,
        }
    }

    /// A copy.
    pub fn duplicate(&self) -> (r: PluginWindow)
        ensures
            r.view() == self.view(),
    {
        PluginWindow {
            label: self.label.clone(),
            slot: self.slot.clone(),
            name: self.name.clone(),
            component: self.component.clone(),
            title: self.title.clone(),
            open: self.open.clone(),
            content: self.content.clone(),
        }
    }
}

/// The views of a list of windows.
pub open spec fn window_views(ws: Seq<PluginWindow>) -> Seq<PluginWindowV> {
    ws.map_values(|w: PluginWindow| w.view())
}

pub open spec fn open_name(o: WindowOpen) -> Seq<char> {
    match o {
        WindowOpen::Auto => "auto"@,
        WindowOpen::Manual => "manual"@,
        WindowOpen::Startup => "startup"@,
    }
}

pub open spec fn content_name(c: WindowContent) -> Seq<char> {
    match c {
        WindowContent::Html => "html"@,
        WindowContent::App => "app"@,
    }
}

/// The window a declaration yields: the title defaults to the slot.
pub open spec fn window_of(slot: Seq<char>, w: WindowDeclV) -> PluginWindowV {
    PluginWindowV {
        label: window_label(slot, w.name),
        slot: slot,
        name: w.name,
        component: w.component,
        title: match w.title {
            Some(t) => t,
            None => slot,
        },
        open: open_name(w.open),
        content: content_name(w.content),
    }
}

/// Every declared window with its slot, slot by slot, in declaration order.
pub open spec fn decl_pairs(ds: Seq<(Seq<char>, Seq<WindowDeclV>)>) -> Seq<(Seq<char>, WindowDeclV)>
    decreases ds.len(),
{
    if ds.len() == 0 {
        Seq::empty()
    } else {
        decl_pairs(ds.drop_last()) + ds.last().1.map_values(
            |w: WindowDeclV| (ds.last().0, w),
        )
    }
}

/// Every declared window, as the frontend sees it.
pub open spec fn all_windows(ds: Seq<(Seq<char>, Seq<WindowDeclV>)>) -> Seq<PluginWindowV> {
    decl_pairs(ds).map_values(|p: (Seq<char>, WindowDeclV)| window_of(p.0, p.1))
}

/// The first window with this label.
pub open spec fn find_window(ws: Seq<PluginWindowV>, label: Seq<char>) -> Option<PluginWindowV>
    decreases ws.len(),
{
    if ws.len() == 0 {
        None
    } else if ws[0].label == label {
        Some(ws[0])
    } else {
        find_window(ws.drop_first(), label)
    }
}

/// The html of the first declared window with this label.
pub open spec fn find_html(ps: Seq<(Seq<char>, WindowDeclV)>, label: Seq<char>) -> Option<Seq<char>>
    decreases ps.len(),
{
    if ps.len() == 0 {
        None
    } else if window_label(ps[0].0, ps[0].1.name) == label {
        ps[0].1.html
    } else {
        find_html(ps.drop_first(), label)
    }
}

fn open_text(o: WindowOpen) -> (r: String)
    ensures
        r@ == open_name(o),
{
    match o {
        WindowOpen::Auto => owned("auto"),
        WindowOpen::Manual => owned("manual"),
        WindowOpen::Startup => owned("startup"),
    }
}

fn content_text(c: WindowContent) -> (r: String)
    ensures
        r@ == content_name(c),
{
    match c {
        WindowContent::Html => owned("html"),
        WindowContent::App => owned("app"),
    }
}

fn window_from(slot: &String, w: &WindowDecl) -> (r: PluginWindow)
    ensures
        r.view() == window_of(slot@, w.view()),
{
    PluginWindow {
        label: Studio::window_label(slot.as_str(), w.name.as_str()),
        slot: slot.clone(),
        name: w.name.clone(),
        component: w.component.clone(),
        title: match &w.title {
            Some(t) => t.clone(),
            None => slot.clone(),
        },
        open: open_text(w.open),
        content: content_text(w.content),
    }
}

/// Every declared window, each beside its html.
fn declared(decls: &Vec<(String, UiDecl)>) -> (r: Vec<(PluginWindow, Option<String>)>)
    ensures
        r@.len() == decl_pairs(decl_windows(decls@)).len(),
        forall|k: int|
            0 <= k < r@.len() ==> {
                let p = #[trigger] decl_pairs(decl_windows(decls@))[k];
                &&& r@[k].0.view() == window_of(p.0, p.1)
                &&& opt_chars(r@[k].1) == p.1.html
            },
{
    let ghost ds = decl_windows(decls@);
    let mut out: Vec<(PluginWindow, Option<String>)> = Vec::new();
    let mut i: usize = 0;
    assert(ds.take(0) =~= Seq::<(Seq<char>, Seq<WindowDeclV>)>::empty());
    while i < decls.len()
        invariant
            i <= decls.len(),
            ds == decl_windows(decls@),
            ds.len() == decls@.len(),
            out@.len() == decl_pairs(ds.take(i as int)).len(),
            forall|k: int|
                0 <= k < out@.len() ==> {
                    let p = #[trigger] decl_pairs(ds.take(i as int))[k];
                    &&& out@[k].0.view() == window_of(p.0, p.1)
                    &&& opt_chars(out@[k].1) == p.1.html
                },
        decreases decls.len() - i,
    {
        let slot = &decls[i].0;
        let ws = &decls[i].1.windows;
        let ghost prev = decl_pairs(ds.take(i as int));
        let ghost mine = ds[i as int].1.map_values(|w: WindowDeclV| (ds[i as int].0, w));
        assert(ds.take(i + 1).drop_last() =~= ds.take(i as int));
        assert(ds.take(i + 1).last() == ds[i as int]);
        assert(decl_pairs(ds.take(i + 1)) == prev + mine);
        assert(ds[i as int].1 == ws@.map_values(|w: WindowDecl| w.view()));
        let mut j: usize = 0;
        while j < ws.len()
            invariant
                j <= ws.len(),
                i < decls.len(),
                slot == &decls@[i as int].0,
                ws == &decls@[i as int].1.windows,
                ds == decl_windows(decls@),
                ds[i as int].1 == ws@.map_values(|w: WindowDecl| w.view()),
                ds[i as int].0 == slot@,
                mine == ds[i as int].1.map_values(|w: WindowDeclV| (ds[i as int].0, w)),
                out@.len() == prev.len() + j,
                forall|k: int|
                    0 <= k < out@.len() ==> {
                        let p = #[trigger] (prev + mine)[k];
                        &&& out@[k].0.view() == window_of(p.0, p.1)
                        &&& opt_chars(out@[k].1) == p.1.html
                    },
            decreases ws.len() - j,
        {
            let w = &ws[j];
            let pw = window_from(slot, w);
            let html = clone_opt(&w.html);
            out.push((pw, html));
            proof {
                assert forall|k: int| 0 <= k < out@.len() implies {
                    let p = #[trigger] (prev + mine)[k];
                    &&& out@[k].0.view() == window_of(p.0, p.1)
                    &&& opt_chars(out@[k].1) == p.1.html
                } by {
                    if k == out@.len() - 1 {
                        assert((prev + mine)[k] == mine[j as int]);
                        assert(mine[j as int] == (slot@, w.view()));
                    }
                }
            }
            j += 1;
        }
        i += 1;
    }
    assert(ds.take(i as int) =~= ds);
    out
}

/// Every window the running plugins declare, with its derived label.
pub fn plugin_windows(decls: &Vec<(String, UiDecl)>) -> (r: Vec<PluginWindow>)
    ensures
        window_views(r@) == all_windows(decl_windows(decls@)),
{
    let d = declared(decls);
    let mut out: Vec<PluginWindow> = Vec::new();
    let mut i: usize = 0;
    while i < d.len()
        invariant
            i <= d.len(),
            out@.len() == i,
            forall|k: int| 0 <= k < i ==> (#[trigger] out@[k]).view() == d@[k].0.view(),
        decreases d.len() - i,
    {
        out.push(d[i].0.duplicate());
        i += 1;
    }
    assert(window_views(out@) =~= all_windows(decl_windows(decls@)));
    out
}

/// The first window with this label, in a list.
pub fn find_window_in(ws: &Vec<PluginWindow>, label: &str) -> (r: Option<PluginWindow>)
    ensures
        match r {
            Some(w) => find_window(window_views(ws@), label@) == Some(w.view()),
            None => find_window(window_views(ws@), label@) is None,
        },
{
    let ghost wv = window_views(ws@);
    assert(wv.skip(0) =~= wv);
    let mut i: usize = 0;
    while i < ws.len()
        invariant
            i <= ws.len(),
            wv == window_views(ws@),
            find_window(wv, label@) == find_window(wv.skip(i as int), label@),
        decreases ws.len() - i,
    {
        assert(wv.skip(i as int)[0] == wv[i as int]);
        assert(wv.skip(i as int).drop_first() =~= wv.skip(i + 1));
        if crate::text::str_eq(ws[i].label.as_str(), label) {
            return Some(ws[i].duplicate());
        }
        i += 1;
    }
    None
}

/// The declared window a label names; `None` for the app's own window.
pub fn plugin_window_by_label(decls: &Vec<(String, UiDecl)>, label: &str) -> (r: Option<PluginWindow>)
    ensures
        match r {
            Some(w) => find_window(all_windows(decl_windows(decls@)), label@) == Some(w.view()),
            None => find_window(all_windows(decl_windows(decls@)), label@) is None,
        },
{
    let ws = plugin_windows(decls);
    find_window_in(&ws, label)
}

/// The plugin-supplied html of the window a label names.
pub fn window_html(decls: &Vec<(String, UiDecl)>, label: &str) -> (r: Option<String>)
    ensures
        opt_chars(r) == find_html(decl_pairs(decl_windows(decls@)), label@),
{
    let d = declared(decls);
    let ghost ps = decl_pairs(decl_windows(decls@));
    assert(ps.skip(0) =~= ps);
    let mut i: usize = 0;
    while i < d.len()
        invariant
            i <= d.len(),
            d@.len() == ps.len(),
            ps == decl_pairs(decl_windows(decls@)),
            forall|k: int|
                0 <= k < d@.len() ==> {
                    let p = #[trigger] ps[k];
                    &&& d@[k].0.view() == window_of(p.0, p.1)
                    &&& opt_chars(d@[k].1) == p.1.html
                },
            find_html(ps, label@) == find_html(ps.skip(i as int), label@),
        decreases d.len() - i,
    {
        assert(ps.skip(i as int)[0] == ps[i as int]);
        assert(ps.skip(i as int).drop_first() =~= ps.skip(i + 1));
        assert(d@[i as int].0.view() == window_of(ps[i as int].0, ps[i as int].1));
        if crate::text::str_eq(d[i].0.label.as_str(), label) {
            return clone_opt(&d[i].1);
        }
        i += 1;
    }
    None
}

// ---------------------------------------------------------------------------
// The launch view and auto windows
// ---------------------------------------------------------------------------

/// The windows that claim the launch view, in order.
pub open spec fn startup_windows(ws: Seq<PluginWindowV>) -> Seq<PluginWindowV> {
    ws.filter(|w: PluginWindowV| w.open == "startup"@)
}

/// The window the app opens at launch instead of its own, if one claims it;
/// two or more claimants are an error naming every one.
pub open spec fn startup_choice(ws: Seq<PluginWindowV>) -> Result<Option<PluginWindowV>, Seq<Seq<char>>> {
    let s = startup_windows(ws);
    if s.len() == 0 {
        Ok(None)
    } else if s.len() == 1 {
        Ok(Some(s[0]))
    } else {
        Err(s.map_values(|w: PluginWindowV| w.label))
    }
}

/// Claiming the launch view is having `open` set to `startup`.
pub open spec fn claims_launch(w: PluginWindowV) -> bool {
    w.open == "startup"@
}

proof fn lemma_startup_step(s: Seq<PluginWindowV>)
    requires
        s.len() > 0,
    ensures
        startup_windows(s) == if claims_launch(s.last()) {
            startup_windows(s.drop_last()).push(s.last())
        } else {
            startup_windows(s.drop_last())
        },
{
    reveal_with_fuel(Seq::<_>::filter, 1);
}

proof fn lemma_startup_prefix_len(ws: Seq<PluginWindowV>, a: int, b: int)
    requires
        0 <= a <= b <= ws.len(),
    ensures
        startup_windows(ws.take(a)).len() <= startup_windows(ws.take(b)).len(),
    decreases b - a,
{
    if a < b {
        lemma_startup_prefix_len(ws, a, b - 1);
        assert(ws.take(b).drop_last() =~= ws.take(b - 1));
        lemma_startup_step(ws.take(b));
    }
}

proof fn lemma_startup_only(ws: Seq<PluginWindowV>, i: int, n: int)
    requires
        0 <= i < ws.len(),
        0 <= n <= ws.len(),
        forall|j: int| 0 <= j < ws.len() && j != i ==> !claims_launch(#[trigger] ws[j]),
        claims_launch(ws[i]),
    ensures
        startup_windows(ws.take(n)) == if i < n {
            seq![ws[i]]
        } else {
            Seq::<PluginWindowV>::empty()
        },
    decreases n,
{
    if n == 0 {
        reveal_with_fuel(Seq::<_>::filter, 1);
        assert(ws.take(0) =~= Seq::<PluginWindowV>::empty());
    } else {
        lemma_startup_only(ws, i, n - 1);
        assert(ws.take(n).drop_last() =~= ws.take(n - 1));
        assert(ws.take(n).last() == ws[n - 1]);
        lemma_startup_step(ws.take(n));
        if n - 1 == i {
            assert(Seq::<PluginWindowV>::empty().push(ws[i]) =~= seq![ws[i]]);
        }
    }
}

/// Exactly one window claiming the launch view owns it, whatever its
/// content kind.
pub proof fn lemma_single_claimant_owns_launch(ws: Seq<PluginWindowV>, i: int)
    requires
        0 <= i < ws.len(),
        ws[i].open == "startup"@,
        forall|j: int| 0 <= j < ws.len() && j != i ==> (#[trigger] ws[j]).open != "startup"@,
    ensures
        startup_choice(ws) == Ok::<Option<PluginWindowV>, Seq<Seq<char>>>(Some(ws[i])),
{
    assert forall|j: int| 0 <= j < ws.len() && j != i implies !claims_launch(#[trigger] ws[j]) by {}
    lemma_startup_only(ws, i, ws.len() as int);
    assert(ws.take(ws.len() as int) =~= ws);
}

/// With no window claiming the launch view, the app's own window opens.
pub proof fn lemma_no_claimant_keeps_app_window(ws: Seq<PluginWindowV>)
    requires
        forall|j: int| 0 <= j < ws.len() ==> (#[trigger] ws[j]).open != "startup"@,
    ensures
        startup_choice(ws) == Ok::<Option<PluginWindowV>, Seq<Seq<char>>>(None),
{
    if ws.len() == 0 {
        reveal_with_fuel(Seq::<_>::filter, 1);
    } else {
        let p = ws.push(PluginWindowV {
            label: Seq::empty(),
            slot: Seq::empty(),
            name: Seq::empty(),
            component: Seq::empty(),
            title: Seq::empty(),
            open: "startup"@,
            content: Seq::empty(),
        });
        assert forall|j: int| 0 <= j < p.len() && j != ws.len() implies !claims_launch(#[trigger] p[j]) by {
            assert(p[j] == ws[j]);
        }
        lemma_startup_only(p, ws.len() as int, ws.len() as int);
        assert(p.take(ws.len() as int) =~= ws);
    }
}

/// Two windows claiming the launch view are a conflict.
pub proof fn lemma_two_claimants_conflict(ws: Seq<PluginWindowV>, i: int, j: int)
    requires
        0 <= i < j < ws.len(),
        ws[i].open == "startup"@,
        ws[j].open == "startup"@,
    ensures
        startup_choice(ws) is Err,
{
    lemma_startup_prefix_len(ws, 0, i);
    lemma_startup_prefix_len(ws, i + 1, j);
    lemma_startup_prefix_len(ws, j + 1, ws.len() as int);
    assert(ws.take(i + 1).drop_last() =~= ws.take(i));
    assert(ws.take(i + 1).last() == ws[i]);
    lemma_startup_step(ws.take(i + 1));
    assert(ws.take(j + 1).drop_last() =~= ws.take(j));
    assert(ws.take(j + 1).last() == ws[j]);
    lemma_startup_step(ws.take(j + 1));
    assert(ws.take(ws.len() as int) =~= ws);
}

/// The window that owns the launch view (`Studio::startup_window`).
pub fn startup_window(ws: &Vec<PluginWindow>) -> (r: Result<Option<PluginWindow>, StudioError>)
    ensures
        match startup_choice(window_views(ws@)) {
            Ok(None) => r matches Ok(None),
            Ok(Some(w)) => r matches Ok(Some(x)) && x.view() == w,
            Err(labels) => r matches Err(StudioError::StartupConflict(ls)) && ls@.map_values(
                |s: String| s@,
            ) == labels,
        },
{
    let ghost wv = window_views(ws@);
    let ghost pred = |w: PluginWindowV| w.open == "startup"@;
    let mut found: Vec<PluginWindow> = Vec::new();
    let mut i: usize = 0;
    while i < ws.len()
        invariant
            i <= ws.len(),
            wv == window_views(ws@),
            pred == (|w: PluginWindowV| w.open == "startup"@),
            window_views(found@) == wv.take(i as int).filter(pred),
        decreases ws.len() - i,
    {
        proof {
            reveal_with_fuel(Seq::<_>::filter, 1);
            assert(wv.take(i + 1).drop_last() =~= wv.take(i as int));
            assert(wv.take(i + 1).last() == wv[i as int]);
        }
        if crate::text::str_eq(ws[i].open.as_str(), "startup") {
            found.push(ws[i].duplicate());
            assert(window_views(found@) =~= wv.take(i as int).filter(pred).push(wv[i as int]));
        }
        i += 1;
    }
    assert(wv.take(i as int) =~= wv);
    if found.len() == 0 {
        Ok(None)
    } else if found.len() == 1 {
        Ok(Some(found[0].duplicate()))
    } else {
        let mut labels: Vec<String> = Vec::new();
        let mut k: usize = 0;
        while k < found.len()
            invariant
                k <= found.len(),
                labels@.len() == k,
                forall|j: int| 0 <= j < k ==> (#[trigger] labels@[j])@ == found@[j].label@,
            decreases found.len() - k,
        {
            labels.push(found[k].label.clone());
            k += 1;
        }
        assert(labels@.map_values(|s: String| s@) =~= window_views(found@).map_values(
            |w: PluginWindowV| w.label,
        ));
        Err(StudioError::StartupConflict(labels))
    }
}

/// The labels of a slot's `auto` windows, in order.
pub open spec fn auto_labels(ws: Seq<PluginWindowV>, slot: Seq<char>) -> Seq<Seq<char>> {
    ws.filter(|w: PluginWindowV| w.slot == slot && w.open == "auto"@).map_values(
        |w: PluginWindowV| w.label,
    )
}

/// The windows to open when a slot activates (`Studio::open_auto_windows`).
pub fn auto_window_labels(ws: &Vec<PluginWindow>, slot: &str) -> (r: Vec<String>)
    ensures
        r@.map_values(|s: String| s@) == auto_labels(window_views(ws@), slot@),
{
    let ghost wv = window_views(ws@);
    let ghost pred = |w: PluginWindowV| w.slot == slot@ && w.open == "auto"@;
    let mut out: Vec<String> = Vec::new();
    let mut i: usize = 0;
    while i < ws.len()
        invariant
            i <= ws.len(),
            wv == window_views(ws@),
            pred == (|w: PluginWindowV| w.slot == slot@ && w.open == "auto"@),
            out@.map_values(|s: String| s@) == wv.take(i as int).filter(pred).map_values(
                |w: PluginWindowV| w.label,
            ),
        decreases ws.len() - i,
    {
        proof {
            reveal_with_fuel(Seq::<_>::filter, 1);
            assert(wv.take(i + 1).drop_last() =~= wv.take(i as int));
            assert(wv.take(i + 1).last() == wv[i as int]);
        }
        if crate::text::str_eq(ws[i].slot.as_str(), slot) && crate::text::str_eq(
            ws[i].open.as_str(),
            "auto",
        ) {
            let ghost before = out@;
            out.push(ws[i].label.clone());
            assert(out@.map_values(|s: String| s@) =~= before.map_values(|s: String| s@).push(
                wv[i as int].label,
            ));
            assert(wv.take(i as int).filter(pred).push(wv[i as int]).map_values(
                |w: PluginWindowV| w.label,
            ) =~= wv.take(i as int).filter(pred).map_values(|w: PluginWindowV| w.label).push(
                wv[i as int].label,
            ));
        }
        i += 1;
    }
    assert(wv.take(i as int) =~= wv);
    out
}

/// The page a window loads: the shell page for an `html` window, the
/// plugin-window route for an `app` window.
pub open spec fn window_url(w: PluginWindowV) -> Seq<char> {
    if w.content == "html"@ {
        shell_page()
    } else {
        app_window_path(w.label)
    }
}

/// The page a window loads.
pub fn window_url_of(w: &PluginWindow) -> (r: String)
    ensures
        r@ == window_url(w.view()),
{
    if crate::text::str_eq(w.content.as_str(), "html") {
        owned("plugin-window-shell.html")
    } else {
        Studio::app_window_path(w.label.as_str())
    }
}

// ---------------------------------------------------------------------------
// Opening a window
// ---------------------------------------------------------------------------

/// What a new window runs at document start.
pub enum InitScript {
    /// Nothing.
    Nothing,
    /// This script, which writes the plugin's own page.
    Page(String),
    /// The bootstrap that hands an `app` window these params (written with
    /// `app_window_bootstrap` once serialised).
    Params(Json),
}

/// How to build a plugin window that is not open yet.
pub struct WindowPlan {
    pub window: PluginWindow,
    /// The page it loads.
    pub url: String,
    pub init: InitScript,
}

/// How to open the window `label` names (`open_plugin_window`): refused
/// when no plugin declares it; an `html` window writes its declared page (if
/// it declares one), an `app` window gets the params queued for it (if any).
pub fn window_plan<F, A>(studio: &Studio<F, A>, decls: &Vec<(String, UiDecl)>, label: &str) -> (r: Result<WindowPlan, StudioError>)
    ensures
        match find_window(all_windows(decl_windows(decls@)), label@) {
            None => r matches Err(StudioError::UnknownWindow(l)) && l@ == label@,
            Some(w) => r matches Ok(p) && p.window.view() == w && p.url@ == window_url(w) && if w.content
                == "html"@ {
                match find_html(decl_pairs(decl_windows(decls@)), label@) {
                    Some(h) => p.init matches InitScript::Page(script) && script@ == html_bootstrap_text(
                        h,
                        label@,
                    ),
                    None => p.init is Nothing,
                }
            } else {
                match crate::plugins::lookup(studio.pending_v(), label@) {
                    Some(j) => p.init matches InitScript::Params(q) && q.view() == j,
                    None => p.init is Nothing,
                }
            },
        },
{
    match plugin_window_by_label(decls, label) {
        None => Err(StudioError::UnknownWindow(owned(label))),
        Some(w) => {
            let url = window_url_of(&w);
            let init = if crate::text::str_eq(w.content.as_str(), "html") {
                match window_html(decls, label) {
                    Some(h) => InitScript::Page(html_window_bootstrap(h.as_str(), label)),
                    None => InitScript::Nothing,
                }
            } else {
                match studio.peek_pending_params(label) {
                    Some(j) => InitScript::Params(j),
                    None => InitScript::Nothing,
                }
            };
            Ok(WindowPlan { window: w, url, init })
        },
    }
}

} // verus!
