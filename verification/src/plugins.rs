//! The desired plugin state (`studio.json`): which plugins are configured,
//! where their `.wasm` lives, whether they should run, and their config.
//!
//! Every mutation the studio makes to it is a function here, so what "stop",
//! "remove", "enable" and "configure" do to the persisted state is stated
//! once; the places that act on it (the autoload plan, the watch set, the
//! catalog, discovery) read it through the same model.

use vstd::prelude::*;
use crate::error::StudioError;
use crate::json::{Json, JsonV};
use crate::llm::{contains_str, str_views};
use crate::sort::{keyed_view, lemma_name_sort_same_entries, lemma_name_sort_sorted, name_sort, sort_by_name};
use crate::text::seq_lt;
use crate::text::{owned, str_eq};

verus! {

broadcast use vstd::std_specs::vec::group_vec_axioms;

// ---------------------------------------------------------------------------
// Paths, as the target platform's path rules define them
// ---------------------------------------------------------------------------

/// `rel` resolved against `base`: `rel` itself when it is absolute.
pub uninterp spec fn joined_path(base: Seq<char>, rel: Seq<char>) -> Seq<char>;

/// The directory a path sits in, if it has one.
pub uninterp spec fn parent_path(p: Seq<char>) -> Option<Seq<char>>;

/// The last component of a path, if it names one.
pub uninterp spec fn file_name_part(p: Seq<char>) -> Option<Seq<char>>;

/// The file name without its extension, if the path names a file.
pub uninterp spec fn file_stem_part(p: Seq<char>) -> Option<Seq<char>>;

/// The extension of the file name, without its dot, if it has one.
pub uninterp spec fn extension_part(p: Seq<char>) -> Option<Seq<char>>;

/// Two paths name the same components.
pub uninterp spec fn paths_equal(a: Seq<char>, b: Seq<char>) -> bool;

/// `Path::join` (then rendered with `Path::display`): the result is named
/// `joined_path` of the two arguments; nothing more is stated of it.
#[verifier::external_body]
pub(crate) fn join_path(base: &str, rel: &str) -> (r: String)
    ensures
        r@ == joined_path(base@, rel@),
{
    std::path::Path::new(base).join(rel).display().to_string()
}

/// `Path::parent` (rendered with `Path::display`): named `parent_path`.
#[verifier::external_body]
pub(crate) fn parent_dir(p: &str) -> (r: Option<String>)
    ensures
        match r {
            Some(d) => parent_path(p@) == Some(d@),
            None => parent_path(p@) == None::<Seq<char>>,
        },
{
    std::path::Path::new(p).parent().map(|d| d.display().to_string())
}

/// `Path::file_name`: named `file_name_part`. The input is UTF-8, so its
/// last component is too.
#[verifier::external_body]
fn file_name_of(p: &str) -> (r: Option<String>)
    ensures
        match r {
            Some(n) => file_name_part(p@) == Some(n@),
            None => file_name_part(p@) == None::<Seq<char>>,
        },
{
    std::path::Path::new(p).file_name().and_then(|n| n.to_str()).map(|n| n.to_string())
}

/// `Path::file_stem`: named `file_stem_part`.
#[verifier::external_body]
fn file_stem_of(p: &str) -> (r: Option<String>)
    ensures
        match r {
            Some(n) => file_stem_part(p@) == Some(n@),
            None => file_stem_part(p@) == None::<Seq<char>>,
        },
{
    std::path::Path::new(p).file_stem().and_then(|n| n.to_str()).map(|n| n.to_string())
}

/// `Path::extension`: named `extension_part`.
#[verifier::external_body]
fn extension_of(p: &str) -> (r: Option<String>)
    ensures
        match r {
            Some(n) => extension_part(p@) == Some(n@),
            None => extension_part(p@) == None::<Seq<char>>,
        },
{
    std::path::Path::new(p).extension().and_then(|n| n.to_str()).map(|n| n.to_string())
}

/// `Path`'s `==`, which compares components: named `paths_equal`.
#[verifier::external_body]
fn same_path(a: &str, b: &str) -> (r: bool)
    ensures
        r == paths_equal(a@, b@),
{
    std::path::Path::new(a) == std::path::Path::new(b)
}

/// The directory `studio.json` sits in, against which relative plugin paths
/// resolve; `.` when the config path has no parent.
pub open spec fn config_dir_spec(config_path: Seq<char>) -> Seq<char> {
    match parent_path(config_path) {
        Some(d) => d,
        None => "."@,
    }
}

/// The directory relative plugin paths resolve against.
pub fn config_dir(config_path: &str) -> (r: String)
    ensures
        r@ == config_dir_spec(config_path@),
{
    match parent_dir(config_path) {
        Some(d) => d,
        None => owned("."),
    }
}

/// A configured plugin path resolved against the config's directory; an
/// absolute path stays as it is.
pub fn resolve_path(config_path: &str, p: &str) -> (r: String)
    ensures
        r@ == joined_path(config_dir_spec(config_path@), p@),
{
    let dir = config_dir(config_path);
    join_path(dir.as_str(), p)
}

// ---------------------------------------------------------------------------
// The persisted config
// ---------------------------------------------------------------------------

/// Where compiled plugins are cached.
pub struct CacheConfig {
    pub dir: String,
    pub enabled: bool,
}

/// One configured plugin.
pub struct PluginEntry {
    /// The `.wasm` file, absolute or relative to the config's directory.
    pub path: String,
    /// Whether it should be running.
    pub enabled: bool,
    /// Whether the watcher reloads it on rebuild (unset means yes).
    pub watch: Option<bool>,
    /// The config pushed to the guest, if any.
    pub config: Option<Json>,
    pub restart_on_config: bool,
}

/// A configured plugin as plain values.
pub struct EntryV {
    pub path: Seq<char>,
    pub enabled: bool,
    pub watch: Option<bool>,
    pub config: Option<JsonV>,
    pub restart_on_config: bool,
}

pub open spec fn opt_json_view(o: Option<Json>) -> Option<JsonV> {
    match o {
        Some(j) => Some(j.view()),
        None => None,
    }
}

impl PluginEntry {
    pub open spec fn view(&self) -> EntryV {
        EntryV {
            path: self.path@,
            enabled: self.enabled,
            watch: self.watch,
            config: opt_json_view(self.config),
            restart_on_config: self.restart_on_config,
        }
    }

    /// A copy with the same contents.
    pub fn duplicate(&self) -> (r: PluginEntry)
        ensures
            r.view() == self.view(),
    {
        PluginEntry {
            path: self.path.clone(),
            enabled: self.enabled,
            watch: self.watch,
            config: match &self.config {
                Some(j) => Some(j.duplicate()),
                None => None,
            },
            restart_on_config: self.restart_on_config,
        }
    }
}

/// The entry `mount_slot` persists: enabled, with the config it was
/// mounted with (none when that was `null`).
pub open spec fn mounted_entry(path: Seq<char>, config: JsonV) -> EntryV {
    EntryV {
        path,
        enabled: true,
        watch: None,
        config: if config == JsonV::Null { None } else { Some(config) },
        restart_on_config: false,
    }
}

/// The persisted desired state.
pub struct StudioConfig {
    cache: Option<CacheConfig>,
    /// The configured plugins by slot, in the order they were added; no
    /// slot twice.
    plugins: Vec<(String, PluginEntry)>,
    /// Sections the studio keeps for itself (`extra.llm`).
    extra: Option<Json>,
}

/// Configured plugins as plain values.
pub type Plugins = Seq<(Seq<char>, EntryV)>;

pub open spec fn plugins_view(s: Seq<(String, PluginEntry)>) -> Plugins {
    s.map_values(|p: (String, PluginEntry)| (p.0@, p.1.view()))
}

/// No slot is configured twice.
pub open spec fn slots_unique<V>(s: Seq<(Seq<char>, V)>) -> bool {
    forall|i: int, j: int| 0 <= i < j < s.len() ==> #[trigger] s[i].0 != #[trigger] s[j].0
}

/// The position of `slot`'s entry, if it is configured.
pub open spec fn find<V>(s: Seq<(Seq<char>, V)>, slot: Seq<char>) -> Option<int>
    decreases s.len(),
{
    if s.len() == 0 {
        None
    } else if s[0].0 == slot {
        Some(0)
    } else {
        match find(s.drop_first(), slot) {
            Some(i) => Some(i + 1),
            None => None,
        }
    }
}

/// The entry configured for `slot`.
pub open spec fn lookup<V>(s: Seq<(Seq<char>, V)>, slot: Seq<char>) -> Option<V> {
    match find(s, slot) {
        Some(i) => Some(s[i].1),
        None => None,
    }
}

/// `slot` configured as `e`: replaced in place if it was there, added last
/// otherwise.
pub open spec fn put_spec<V>(s: Seq<(Seq<char>, V)>, slot: Seq<char>, e: V) -> Seq<(Seq<char>, V)> {
    match find(s, slot) {
        Some(i) => s.update(i, (slot, e)),
        None => s.push((slot, e)),
    }
}

/// `slot` kept but marked not to run.
pub open spec fn disable_spec(s: Plugins, slot: Seq<char>) -> Plugins {
    match find(s, slot) {
        Some(i) => s.update(i, (slot, EntryV { enabled: false, ..s[i].1 })),
        None => s,
    }
}

/// `slot` marked to run or not.
pub open spec fn enable_spec(s: Plugins, slot: Seq<char>, enabled: bool) -> Plugins {
    match find(s, slot) {
        Some(i) => s.update(i, (slot, EntryV { enabled, ..s[i].1 })),
        None => s,
    }
}

/// `slot` given a new config (none when `null`).
pub open spec fn configure_spec(s: Plugins, slot: Seq<char>, config: JsonV) -> Plugins {
    match find(s, slot) {
        Some(i) => s.update(
            i,
            (slot, EntryV { config: if config == JsonV::Null { None } else { Some(config) }, ..s[i].1 }),
        ),
        None => s,
    }
}

/// `slot` forgotten.
pub open spec fn remove_spec<V>(s: Seq<(Seq<char>, V)>, slot: Seq<char>) -> Seq<(Seq<char>, V)> {
    match find(s, slot) {
        Some(i) => s.remove(i),
        None => s,
    }
}

/// What `find` answers.
pub proof fn lemma_find<V>(s: Seq<(Seq<char>, V)>, slot: Seq<char>)
    ensures
        match find(s, slot) {
            Some(i) => 0 <= i < s.len() && s[i].0 == slot && forall|j: int|
                0 <= j < i ==> #[trigger] s[j].0 != slot,
            None => forall|j: int| 0 <= j < s.len() ==> #[trigger] s[j].0 != slot,
        },
    decreases s.len(),
{
    if s.len() > 0 && s[0].0 != slot {
        lemma_find(s.drop_first(), slot);
        match find(s.drop_first(), slot) {
            Some(i) => {
                assert forall|j: int| 0 <= j < i + 1 implies #[trigger] s[j].0 != slot by {
                    if j > 0 {
                        assert(s[j] == s.drop_first()[j - 1]);
                    }
                }
            },
            None => {
                assert forall|j: int| 0 <= j < s.len() implies #[trigger] s[j].0 != slot by {
                    if j > 0 {
                        assert(s[j] == s.drop_first()[j - 1]);
                    }
                }
            },
        }
    }
}

/// In a list with no slot twice, the entry at `i` is the one `find` finds.
pub proof fn lemma_find_at<V>(s: Seq<(Seq<char>, V)>, i: int)
    requires
        slots_unique(s),
        0 <= i < s.len(),
    ensures
        find(s, s[i].0) == Some(i),
{
    lemma_find(s, s[i].0);
    match find(s, s[i].0) {
        Some(k) => {
            if k < i {
                assert(s[k].0 != s[i].0);
            } else if k > i {
                assert(s[i].0 != s[i].0);
            }
        },
        None => {
            assert(s[i].0 != s[i].0);
        },
    }
}

/// Replacing the entry at `i` under its own slot keeps slots unique and
/// changes nothing about any other slot.
proof fn lemma_update_in_place<V>(s: Seq<(Seq<char>, V)>, i: int, e: V, other: Seq<char>)
    requires
        slots_unique(s),
        0 <= i < s.len(),
        other != s[i].0,
    ensures
        slots_unique(s.update(i, (s[i].0, e))),
        find(s.update(i, (s[i].0, e)), s[i].0) == Some(i),
        lookup(s.update(i, (s[i].0, e)), other) == lookup(s, other),
{
    let t = s.update(i, (s[i].0, e));
    assert forall|a: int, b: int| 0 <= a < b < t.len() implies #[trigger] t[a].0 != #[trigger] t[b].0 by {
        assert(t[a].0 == s[a].0 && t[b].0 == s[b].0);
    }
    lemma_find_at(t, i);
    lemma_find(s, other);
    lemma_find(t, other);
    match find(s, other) {
        Some(k) => {
            lemma_find_at(t, k);
        },
        None => {
            match find(t, other) {
                Some(k) => {
                    assert(t[k].0 == s[k].0);
                },
                None => {},
            }
        },
    }
}

proof fn lemma_put_other<V>(s: Seq<(Seq<char>, V)>, slot: Seq<char>, e: V, other: Seq<char>)
    requires
        slots_unique(s),
        other != slot,
    ensures
        slots_unique(put_spec(s, slot, e)),
        lookup(put_spec(s, slot, e), slot) == Some(e),
        lookup(put_spec(s, slot, e), other) == lookup(s, other),
{
    lemma_find(s, slot);
    match find(s, slot) {
        Some(i) => {
            lemma_update_in_place(s, i, e, other);
        },
        None => {
            let t = s.push((slot, e));
            assert forall|a: int, b: int| 0 <= a < b < t.len() implies #[trigger] t[a].0
                != #[trigger] t[b].0 by {
                if b < s.len() {
                    assert(t[a] == s[a] && t[b] == s[b]);
                } else {
                    assert(t[a] == s[a]);
                }
            }
            lemma_find_at(t, s.len() as int);
            lemma_find(s, other);
            lemma_find(t, other);
            match find(s, other) {
                Some(k) => {
                    lemma_find_at(t, k);
                },
                None => {
                    match find(t, other) {
                        Some(k) => {
                            assert(t[k] == s[k]);
                        },
                        None => {},
                    }
                },
            }
        },
    }
}

/// Putting `slot` makes it read back as put, and leaves every other slot.
pub proof fn lemma_put<V>(s: Seq<(Seq<char>, V)>, slot: Seq<char>, e: V)
    requires
        slots_unique(s),
    ensures
        slots_unique(put_spec(s, slot, e)),
        lookup(put_spec(s, slot, e), slot) == Some(e),
        forall|other: Seq<char>|
            other != slot ==> #[trigger] lookup(put_spec(s, slot, e), other) == lookup(s, other),
{
    assert(slot.push('x').len() == slot.len() + 1);
    lemma_put_other(s, slot, e, slot.push('x'));
    assert forall|other: Seq<char>| other != slot implies #[trigger] lookup(
        put_spec(s, slot, e),
        other,
    ) == lookup(s, other) by {
        lemma_put_other(s, slot, e, other);
    }
}

proof fn lemma_change_in_place_other(s: Plugins, slot: Seq<char>, other: Seq<char>)
    requires
        slots_unique(s),
        other != slot,
    ensures
        forall|enabled: bool|
            slots_unique(#[trigger] enable_spec(s, slot, enabled)) && lookup(
                enable_spec(s, slot, enabled),
                other,
            ) == lookup(s, other),
        slots_unique(disable_spec(s, slot)),
        lookup(disable_spec(s, slot), other) == lookup(s, other),
        forall|c: JsonV|
            slots_unique(#[trigger] configure_spec(s, slot, c)) && lookup(
                configure_spec(s, slot, c),
                other,
            ) == lookup(s, other),
{
    lemma_find(s, slot);
    match find(s, slot) {
        Some(i) => {
            lemma_update_in_place(s, i, EntryV { enabled: false, ..s[i].1 }, other);
            assert forall|enabled: bool|
                slots_unique(#[trigger] enable_spec(s, slot, enabled)) && lookup(
                    enable_spec(s, slot, enabled),
                    other,
                ) == lookup(s, other) by {
                lemma_update_in_place(s, i, EntryV { enabled, ..s[i].1 }, other);
            }
            assert forall|c: JsonV|
                slots_unique(#[trigger] configure_spec(s, slot, c)) && lookup(
                    configure_spec(s, slot, c),
                    other,
                ) == lookup(s, other) by {
                lemma_update_in_place(
                    s,
                    i,
                    EntryV { config: if c == JsonV::Null { None } else { Some(c) }, ..s[i].1 },
                    other,
                );
            }
        },
        None => {},
    }
}

/// Changing one slot's entry in place, as stop, enable and configure do,
/// keeps slots unique and leaves every other slot.
pub proof fn lemma_change_in_place(s: Plugins, slot: Seq<char>)
    requires
        slots_unique(s),
    ensures
        forall|enabled: bool| #[trigger] slots_unique(enable_spec(s, slot, enabled)),
        slots_unique(disable_spec(s, slot)),
        forall|c: JsonV| #[trigger] slots_unique(configure_spec(s, slot, c)),
        forall|other: Seq<char>, enabled: bool|
            other != slot ==> #[trigger] lookup(enable_spec(s, slot, enabled), other) == lookup(s, other),
        forall|other: Seq<char>|
            other != slot ==> #[trigger] lookup(disable_spec(s, slot), other) == lookup(s, other),
        forall|other: Seq<char>, c: JsonV|
            other != slot ==> #[trigger] lookup(configure_spec(s, slot, c), other) == lookup(s, other),
{
    assert(slot.push('x').len() == slot.len() + 1);
    lemma_change_in_place_other(s, slot, slot.push('x'));
    assert forall|other: Seq<char>, enabled: bool| other != slot implies #[trigger] lookup(
        enable_spec(s, slot, enabled),
        other,
    ) == lookup(s, other) by {
        lemma_change_in_place_other(s, slot, other);
    }
    assert forall|other: Seq<char>| other != slot implies #[trigger] lookup(
        disable_spec(s, slot),
        other,
    ) == lookup(s, other) by {
        lemma_change_in_place_other(s, slot, other);
    }
    assert forall|other: Seq<char>, c: JsonV| other != slot implies #[trigger] lookup(
        configure_spec(s, slot, c),
        other,
    ) == lookup(s, other) by {
        lemma_change_in_place_other(s, slot, other);
    }
}

proof fn lemma_remove_other<V>(s: Seq<(Seq<char>, V)>, slot: Seq<char>, other: Seq<char>)
    requires
        slots_unique(s),
        other != slot,
    ensures
        lookup(remove_spec(s, slot), slot) == None::<V>,
        slots_unique(remove_spec(s, slot)),
        lookup(remove_spec(s, slot), other) == lookup(s, other),
{
    lemma_find(s, slot);
    lemma_find(s, other);
    match find(s, slot) {
        Some(i) => {
            let t = s.remove(i);
            assert forall|a: int, b: int| 0 <= a < b < t.len() implies #[trigger] t[a].0
                != #[trigger] t[b].0 by {
                let a0 = if a < i { a } else { a + 1 };
                let b0 = if b < i { b } else { b + 1 };
                assert(t[a] == s[a0] && t[b] == s[b0]);
            }
            lemma_find(t, slot);
            match find(t, slot) {
                Some(k) => {
                    let k0 = if k < i { k } else { k + 1 };
                    assert(t[k] == s[k0]);
                },
                None => {},
            }
            lemma_find(t, other);
            match find(s, other) {
                Some(k) => {
                    let k1 = if k < i { k } else { k - 1 };
                    assert(t[k1] == s[k]);
                    lemma_find_at(t, k1);
                },
                None => {
                    match find(t, other) {
                        Some(k) => {
                            let k0 = if k < i { k } else { k + 1 };
                            assert(t[k] == s[k0]);
                        },
                        None => {},
                    }
                },
            }
        },
        None => {},
    }
}

/// Removing a key makes it read back as absent, and leaves every other key.
pub proof fn lemma_remove<V>(s: Seq<(Seq<char>, V)>, slot: Seq<char>)
    requires
        slots_unique(s),
    ensures
        lookup(remove_spec(s, slot), slot) == None::<V>,
        slots_unique(remove_spec(s, slot)),
        forall|other: Seq<char>|
            other != slot ==> #[trigger] lookup(remove_spec(s, slot), other) == lookup(s, other),
{
    assert(slot.push('x').len() == slot.len() + 1);
    lemma_remove_other(s, slot, slot.push('x'));
    assert forall|other: Seq<char>| other != slot implies #[trigger] lookup(
        remove_spec(s, slot),
        other,
    ) == lookup(s, other) by {
        lemma_remove_other(s, slot, other);
    }
}

/// Stopping a plugin is not forgetting it: after a stop the slot is still
/// configured, with everything but `enabled` as it was; after a remove it
/// is gone. Neither touches another slot.
pub proof fn lemma_stop_keeps_remove_forgets(s: Plugins, slot: Seq<char>)
    requires
        slots_unique(s),
    ensures
        lookup(disable_spec(s, slot), slot) == match lookup(s, slot) {
            Some(e) => Some(EntryV { enabled: false, ..e }),
            None => None,
        },
        lookup(remove_spec(s, slot), slot) == None::<EntryV>,
        slots_unique(remove_spec(s, slot)),
        forall|other: Seq<char>|
            other != slot ==> #[trigger] lookup(remove_spec(s, slot), other) == lookup(s, other),
{
    lemma_remove(s, slot);
    lemma_find(s, slot);
    match find(s, slot) {
        Some(i) => {
            assert(slot.push('x').len() == slot.len() + 1);
            lemma_update_in_place(s, i, EntryV { enabled: false, ..s[i].1 }, slot.push('x'));
        },
        None => {},
    }
}

/// The config's plugins as plain values.
impl StudioConfig {
    pub closed spec fn plugins_v(&self) -> Plugins {
        plugins_view(self.plugins@)
    }

    pub closed spec fn cache_v(&self) -> Option<CacheConfig> {
        self.cache
    }

    pub closed spec fn extra_v(&self) -> Option<Json> {
        self.extra
    }

    /// No slot is configured twice.
    #[verifier::type_invariant]
    spec fn wf(&self) -> bool {
        slots_unique(self.plugins_v())
    }

    /// A config with `cache` and `extra` and no plugin configured.
    pub fn empty(cache: Option<CacheConfig>, extra: Option<Json>) -> (r: StudioConfig)
        ensures
            r.plugins_v().len() == 0,
            r.cache_v() == cache,
            r.extra_v() == extra,
    {
        let r = StudioConfig { cache, plugins: Vec::new(), extra };
        assert(r.plugins_v() =~= Seq::<(Seq<char>, EntryV)>::empty());
        r
    }

    /// The configured plugins, in the order they were added.
    pub fn plugins(&self) -> (r: &Vec<(String, PluginEntry)>)
        ensures
            plugins_view(r@) == self.plugins_v(),
    {
        &self.plugins
    }

    /// Where compiled plugins are cached, if anywhere.
    pub fn cache(&self) -> (r: &Option<CacheConfig>)
        ensures
            *r == self.cache_v(),
    {
        &self.cache
    }

    /// The sections the studio keeps for itself.
    pub fn extra(&self) -> (r: &Option<Json>)
        ensures
            *r == self.extra_v(),
    {
        &self.extra
    }

    /// Replace the studio's own sections.
    pub fn set_extra(&mut self, extra: Option<Json>)
        ensures
            final(self).extra_v() == extra,
            final(self).plugins_v() == old(self).plugins_v(),
            final(self).cache_v() == old(self).cache_v(),
    {
        proof {
            use_type_invariant(&*self);
        }
        self.extra = extra;
    }

    /// Replace where compiled plugins are cached.
    pub fn set_cache(&mut self, cache: Option<CacheConfig>)
        ensures
            final(self).cache_v() == cache,
            final(self).plugins_v() == old(self).plugins_v(),
            final(self).extra_v() == old(self).extra_v(),
    {
        proof {
            use_type_invariant(&*self);
        }
        self.cache = cache;
    }

    /// The config written on first boot: caching compiled plugins under
    /// `cache_dir`, nothing configured yet.
    pub fn first_boot(cache_dir: String) -> (r: StudioConfig)
        ensures
            r.plugins_v().len() == 0,
            r.extra_v() is None,
            r.cache_v() matches Some(c) && c.dir@ == cache_dir@ && c.enabled,
    {
        let r = StudioConfig {
            cache: Some(CacheConfig { dir: cache_dir, enabled: true }),
            plugins: Vec::new(),
            extra: None,
        };
        assert(r.plugins_v() =~= Seq::<(Seq<char>, EntryV)>::empty());
        r
    }

    /// Where compiled plugins are cached (`with_hook`): the configured
    /// directory, resolved against the app-data directory, when caching is
    /// enabled.
    pub fn cache_dir(&self, app_data_dir: &str) -> (r: Option<String>)
        ensures
            match self.cache_v() {
                Some(c) => if c.enabled {
                    r matches Some(d) && d@ == joined_path(app_data_dir@, c.dir@)
                } else {
                    r is None
                },
                None => r is None,
            },
    {
        match self.cache_subdir() {
            Some(d) => Some(join_path(app_data_dir, d.as_str())),
            None => None,
        }
    }

    /// The configured cache directory, before it is resolved against the
    /// app-data directory: present only when caching is enabled.
    pub fn cache_subdir(&self) -> (r: Option<&String>)
        ensures
            match self.cache_v() {
                Some(c) => if c.enabled {
                    r == Some(&c.dir)
                } else {
                    r is None
                },
                None => r is None,
            },
    {
        match &self.cache {
            Some(c) => if c.enabled {
                Some(&c.dir)
            } else {
                None
            },
            None => None,
        }
    }

    /// Where `slot` is configured.
    fn index_of(&self, slot: &str) -> (r: Option<usize>)
        ensures
            match r {
                Some(i) => find(self.plugins_v(), slot@) == Some(i as int),
                None => find(self.plugins_v(), slot@) == None::<int>,
            },
    {
        let ghost s = self.plugins_v();
        let mut i: usize = 0;
        assert(s.skip(0) =~= s);
        while i < self.plugins.len()
            invariant
                i <= self.plugins.len(),
                s == self.plugins_v(),
                forall|j: int| 0 <= j < i ==> #[trigger] s[j].0 != slot@,
            decreases self.plugins.len() - i,
        {
            if str_eq(self.plugins[i].0.as_str(), slot) {
                proof {
                    lemma_find(s, slot@);
                    match find(s, slot@) {
                        Some(k) => {
                            if k > i {
                                assert(s[i as int].0 == slot@);
                            }
                        },
                        None => {
                            assert(s[i as int].0 == slot@);
                        },
                    }
                }
                return Some(i);
            }
            i += 1;
        }
        proof {
            lemma_find(s, slot@);
            match find(s, slot@) {
                Some(k) => {
                    assert(s[k].0 == slot@);
                },
                None => {},
            }
        }
        None
    }

    /// The entry configured for `slot`.
    pub fn get(&self, slot: &str) -> (r: Option<&PluginEntry>)
        ensures
            match r {
                Some(e) => lookup(self.plugins_v(), slot@) == Some(e.view()),
                None => lookup(self.plugins_v(), slot@) == None::<EntryV>,
            },
    {
        proof {
            lemma_find(self.plugins_v(), slot@);
        }
        match self.index_of(slot) {
            Some(i) => Some(&self.plugins[i].1),
            None => None,
        }
    }

    /// Configure `slot` as `entry`, replacing what it had.
    pub fn put(&mut self, slot: String, entry: PluginEntry)
        ensures
            final(self).plugins_v() == put_spec(old(self).plugins_v(), slot@, entry.view()),
            final(self).cache_v() == old(self).cache_v(),
            final(self).extra_v() == old(self).extra_v(),
    {
        proof {
            use_type_invariant(&*self);
        }
        let ghost s = self.plugins_v();
        let ghost e = entry.view();
        proof {
            lemma_find(s, slot@);
            lemma_put(s, slot@, e);
        }
        let found = self.index_of(slot.as_str());
        let mut ps: Vec<(String, PluginEntry)> = Vec::new();
        std::mem::swap(&mut ps, &mut self.plugins);
        let ghost k = slot@;
        match found {
            Some(i) => {
                ps.set(i, (slot, entry));
                assert(plugins_view(ps@) =~= s.update(i as int, (k, e)));
            },
            None => {
                ps.push((slot, entry));
                assert(plugins_view(ps@) =~= s.push((k, e)));
            },
        }
        self.plugins = ps;
    }

    /// Record a mounted plugin (`mount_slot`): enabled, at `path`, with
    /// `config` unless that is `null`.
    pub fn record_mount(&mut self, slot: String, path: String, config: Json)
        ensures
            final(self).plugins_v() == put_spec(
                old(self).plugins_v(),
                slot@,
                mounted_entry(path@, config.view()),
            ),
            final(self).cache_v() == old(self).cache_v(),
            final(self).extra_v() == old(self).extra_v(),
    {
        let ghost cv = config.view();
        let config = if config.is_null() {
            None
        } else {
            Some(config)
        };
        let entry = PluginEntry { path, enabled: true, watch: None, config, restart_on_config: false };
        self.put(slot, entry);
    }

    /// Mark `slot` not to run, keeping it configured (`unmount_slot`). A slot
    /// that is not configured is left alone.
    pub fn disable(&mut self, slot: &str)
        ensures
            final(self).plugins_v() == disable_spec(old(self).plugins_v(), slot@),
            final(self).cache_v() == old(self).cache_v(),
            final(self).extra_v() == old(self).extra_v(),
    {
        proof {
            use_type_invariant(&*self);
        }
        let ghost s = self.plugins_v();
        proof {
            lemma_find(s, slot@);
            lemma_change_in_place(s, slot@);
        }
        match self.index_of(slot) {
            Some(i) => {
                let mut ps: Vec<(String, PluginEntry)> = Vec::new();
                std::mem::swap(&mut ps, &mut self.plugins);
                ps[i].1.enabled = false;
                assert(plugins_view(ps@) =~= disable_spec(s, slot@));
                self.plugins = ps;
            },
            None => {},
        }
    }

    /// Mark `slot` to run or not (`set_enabled`), returning its path and the
    /// config it mounts with (`null` when it has none); refused for a slot
    /// that is not configured.
    pub fn set_enabled(&mut self, slot: &str, enabled: bool) -> (r: Result<(String, Json), StudioError>)
        ensures
            final(self).plugins_v() == enable_spec(old(self).plugins_v(), slot@, enabled),
            final(self).cache_v() == old(self).cache_v(),
            final(self).extra_v() == old(self).extra_v(),
            match lookup(old(self).plugins_v(), slot@) {
                Some(e) => r matches Ok((p, c)) && p@ == e.path && c.view() == match e.config {
                    Some(j) => j,
                    None => JsonV::Null,
                },
                None => r matches Err(StudioError::SlotNotConfigured(s)) && s@ == slot@,
            },
    {
        proof {
            use_type_invariant(&*self);
        }
        let ghost s = self.plugins_v();
        proof {
            lemma_find(s, slot@);
            lemma_change_in_place(s, slot@);
        }
        match self.index_of(slot) {
            Some(i) => {
                let mut ps: Vec<(String, PluginEntry)> = Vec::new();
                std::mem::swap(&mut ps, &mut self.plugins);
                ps[i].1.enabled = enabled;
                assert(plugins_view(ps@) =~= enable_spec(s, slot@, enabled));
                self.plugins = ps;
                let path = self.plugins[i].1.path.clone();
                let config = match &self.plugins[i].1.config {
                    Some(j) => j.duplicate(),
                    None => Json::Null,
                };
                Ok((path, config))
            },
            None => Err(StudioError::SlotNotConfigured(owned(slot))),
        }
    }

    /// Persist `slot`'s new config (`set_slot_config`); none when `null`.
    pub fn configure(&mut self, slot: &str, config: Json)
        ensures
            final(self).plugins_v() == configure_spec(old(self).plugins_v(), slot@, config.view()),
            final(self).cache_v() == old(self).cache_v(),
            final(self).extra_v() == old(self).extra_v(),
    {
        proof {
            use_type_invariant(&*self);
        }
        let ghost s = self.plugins_v();
        let ghost cv = config.view();
        proof {
            lemma_find(s, slot@);
            lemma_change_in_place(s, slot@);
        }
        match self.index_of(slot) {
            Some(i) => {
                let c = if config.is_null() {
                    None
                } else {
                    Some(config)
                };
                let mut ps: Vec<(String, PluginEntry)> = Vec::new();
                std::mem::swap(&mut ps, &mut self.plugins);
                ps[i].1.config = c;
                assert(plugins_view(ps@) =~= configure_spec(s, slot@, cv));
                self.plugins = ps;
            },
            None => {},
        }
    }

    /// Forget `slot` entirely (`remove_slot`).
    pub fn remove(&mut self, slot: &str)
        ensures
            final(self).plugins_v() == remove_spec(old(self).plugins_v(), slot@),
            final(self).cache_v() == old(self).cache_v(),
            final(self).extra_v() == old(self).extra_v(),
    {
        proof {
            use_type_invariant(&*self);
        }
        let ghost s = self.plugins_v();
        proof {
            lemma_find(s, slot@);
            lemma_stop_keeps_remove_forgets(s, slot@);
        }
        match self.index_of(slot) {
            Some(i) => {
                let mut ps: Vec<(String, PluginEntry)> = Vec::new();
                std::mem::swap(&mut ps, &mut self.plugins);
                let _ = ps.remove(i);
                assert(plugins_view(ps@) =~= s.remove(i as int));
                self.plugins = ps;
            },
            None => {},
        }
    }
}

// ---------------------------------------------------------------------------
// What the studio derives from the config: boot, watch, reload
// ---------------------------------------------------------------------------

/// The config a plugin mounts with: its own, or `null`.
pub open spec fn config_or_null(c: Option<JsonV>) -> JsonV {
    match c {
        Some(j) => j,
        None => JsonV::Null,
    }
}

/// Every enabled plugin, in config order, with its path resolved against
/// `dir` and the config it mounts with.
pub open spec fn autoload_spec(s: Plugins, dir: Seq<char>) -> Seq<(Seq<char>, Seq<char>, JsonV)>
    decreases s.len(),
{
    if s.len() == 0 {
        Seq::empty()
    } else {
        let r = autoload_spec(s.drop_last(), dir);
        let e = s.last().1;
        if e.enabled {
            r.push((s.last().0, joined_path(dir, e.path), config_or_null(e.config)))
        } else {
            r
        }
    }
}

/// The files the watcher follows: every enabled plugin not opted out of
/// watching, resolved against `dir`, in config order.
pub open spec fn watch_spec(s: Plugins, dir: Seq<char>) -> Seq<Seq<char>>
    decreases s.len(),
{
    if s.len() == 0 {
        Seq::empty()
    } else {
        let r = watch_spec(s.drop_last(), dir);
        let e = s.last().1;
        if e.enabled && e.watch != Some(false) {
            r.push(joined_path(dir, e.path))
        } else {
            r
        }
    }
}

/// `res` holds, for each configured plugin in order, its path resolved
/// against `dir`.
pub open spec fn resolves(s: Plugins, res: Seq<Seq<char>>, dir: Seq<char>) -> bool {
    &&& res.len() == s.len()
    &&& forall|i: int| 0 <= i < s.len() ==> #[trigger] res[i] == joined_path(dir, s[i].1.path)
}

/// `autoload_spec` with each plugin's resolved path read from `res`, by
/// position.
pub open spec fn autoload_at(s: Plugins, res: Seq<Seq<char>>) -> Seq<(Seq<char>, Seq<char>, JsonV)>
    decreases s.len(),
{
    if s.len() == 0 {
        Seq::empty()
    } else {
        let r = autoload_at(s.drop_last(), res);
        let e = s.last().1;
        if e.enabled {
            r.push((s.last().0, res[s.len() - 1], config_or_null(e.config)))
        } else {
            r
        }
    }
}

/// `watch_spec` with each plugin's resolved path read from `res`, by position.
pub open spec fn watch_at(s: Plugins, res: Seq<Seq<char>>) -> Seq<Seq<char>>
    decreases s.len(),
{
    if s.len() == 0 {
        Seq::empty()
    } else {
        let r = watch_at(s.drop_last(), res);
        let e = s.last().1;
        if e.enabled && e.watch != Some(false) {
            r.push(res[s.len() - 1])
        } else {
            r
        }
    }
}

proof fn lemma_autoload_at_prefix(s: Plugins, res: Seq<Seq<char>>, dir: Seq<char>)
    requires
        res.len() >= s.len(),
        forall|i: int| 0 <= i < s.len() ==> #[trigger] res[i] == joined_path(dir, s[i].1.path),
    ensures
        autoload_at(s, res) == autoload_spec(s, dir),
        watch_at(s, res) == watch_spec(s, dir),
    decreases s.len(),
{
    if s.len() > 0 {
        let d = s.drop_last();
        assert forall|i: int| 0 <= i < d.len() implies #[trigger] res[i] == joined_path(dir, d[i].1.path) by {
            assert(d[i] == s[i]);
        }
        lemma_autoload_at_prefix(d, res, dir);
        assert(res[s.len() - 1] == joined_path(dir, s[s.len() - 1].1.path));
    }
}

/// Read by position, resolved paths give what resolving against `dir` gives.
pub proof fn lemma_resolved_paths_agree(s: Plugins, res: Seq<Seq<char>>, dir: Seq<char>)
    requires
        resolves(s, res, dir),
    ensures
        autoload_at(s, res) == autoload_spec(s, dir),
        watch_at(s, res) == watch_spec(s, dir),
{
    lemma_autoload_at_prefix(s, res, dir);
}

/// The slot a changed file belongs to: the first configured plugin whose
/// path is that path, or has its file name.
pub open spec fn slot_for(s: Plugins, p: Seq<char>) -> Option<Seq<char>>
    decreases s.len(),
{
    if s.len() == 0 {
        None
    } else if paths_equal(s[0].1.path, p) || file_name_part(s[0].1.path) == file_name_part(p) {
        Some(s[0].0)
    } else {
        slot_for(s.drop_first(), p)
    }
}

/// The text of an optional string.
pub open spec fn opt_str_v(o: Option<String>) -> Option<Seq<char>> {
    match o {
        Some(t) => Some(t@),
        None => None,
    }
}

/// The texts of optional strings.
pub open spec fn opt_strs(v: Seq<Option<String>>) -> Seq<Option<Seq<char>>> {
    v.map_values(|o: Option<String>| opt_str_v(o))
}

/// `slot_for` given the path facts it reads: `same[i]` whether plugin `i`'s
/// path is the changed path, `names[i]` plugin `i`'s file name, and `name`
/// the changed path's file name.
pub open spec fn slot_by(
    s: Plugins,
    same: Seq<bool>,
    names: Seq<Option<Seq<char>>>,
    name: Option<Seq<char>>,
) -> Option<Seq<char>>
    decreases s.len(),
{
    if s.len() == 0 {
        None
    } else if same[0] || names[0] == name {
        Some(s[0].0)
    } else {
        slot_by(s.drop_first(), same.drop_first(), names.drop_first(), name)
    }
}

/// The facts `slot_for` reads, taken from the path rules.
pub open spec fn same_facts(s: Plugins, p: Seq<char>) -> Seq<bool> {
    s.map_values(|e: (Seq<char>, EntryV)| paths_equal(e.1.path, p))
}

pub open spec fn name_facts(s: Plugins) -> Seq<Option<Seq<char>>> {
    s.map_values(|e: (Seq<char>, EntryV)| file_name_part(e.1.path))
}

/// With the facts the path rules give, `slot_by` is `slot_for`.
pub proof fn lemma_slot_by_facts(s: Plugins, p: Seq<char>)
    ensures
        slot_by(s, same_facts(s, p), name_facts(s), file_name_part(p)) == slot_for(s, p),
    decreases s.len(),
{
    if s.len() > 0 {
        assert(same_facts(s, p).drop_first() =~= same_facts(s.drop_first(), p));
        assert(name_facts(s).drop_first() =~= name_facts(s.drop_first()));
        lemma_slot_by_facts(s.drop_first(), p);
    }
}

/// The modification time last seen under `key`.
pub open spec fn stamp_of(m: Seq<(Seq<char>, u128)>, key: Seq<char>) -> Option<u128>
    decreases m.len(),
{
    if m.len() == 0 {
        None
    } else if m[0].0 == key {
        Some(m[0].1)
    } else {
        stamp_of(m.drop_first(), key)
    }
}

/// `key`'s time recorded as `t`: replacing its first record, or added last.
pub open spec fn stamp_put(m: Seq<(Seq<char>, u128)>, key: Seq<char>, t: u128) -> Seq<(Seq<char>, u128)>
    decreases m.len(),
{
    if m.len() == 0 {
        seq![(key, t)]
    } else if m[0].0 == key {
        m.update(0, (key, t))
    } else {
        seq![m[0]] + stamp_put(m.drop_first(), key, t)
    }
}

/// After a watcher wake-up, which slots to reload, and the times then
/// recorded: a file whose slot's recorded time differs from its current one
/// is reloaded (once per change) and its time recorded.
pub open spec fn reload_spec(
    s: Plugins,
    m: Seq<(Seq<char>, u128)>,
    now: Seq<(Seq<char>, u128)>,
) -> (Seq<(Seq<char>, u128)>, Seq<Seq<char>>)
    decreases now.len(),
{
    if now.len() == 0 {
        (m, Seq::empty())
    } else {
        let (m1, r1) = reload_spec(s, m, now.drop_last());
        let (p, t) = now.last();
        match slot_for(s, p) {
            None => (m1, r1),
            Some(k) => if stamp_of(m1, k) == Some(t) {
                (m1, r1)
            } else {
                (stamp_put(m1, k, t), r1.push(k))
            },
        }
    }
}

proof fn lemma_stamp_put(m: Seq<(Seq<char>, u128)>, key: Seq<char>, t: u128, k: Seq<char>)
    ensures
        stamp_of(stamp_put(m, key, t), k) == if k == key {
            Some(t)
        } else {
            stamp_of(m, k)
        },
    decreases m.len(),
{
    if m.len() == 0 {
        assert(stamp_put(m, key, t) == seq![(key, t)]);
        assert(seq![(key, t)].drop_first() =~= Seq::<(Seq<char>, u128)>::empty());
        assert(stamp_of(Seq::<(Seq<char>, u128)>::empty(), k) is None);
        assert(stamp_of(m, k) is None);
    } else {
        if m[0].0 == key {
            assert(m.update(0, (key, t))[0] == (key, t));
            assert(m.update(0, (key, t)).drop_first() =~= m.drop_first());
            assert(stamp_put(m, key, t) == m.update(0, (key, t)));
            if k != key {
                assert(stamp_of(m.update(0, (key, t)), k) == stamp_of(m.drop_first(), k));
                assert(stamp_of(m, k) == stamp_of(m.drop_first(), k));
            }
        } else {
            assert((seq![m[0]] + stamp_put(m.drop_first(), key, t))[0] == m[0]);
            assert((seq![m[0]] + stamp_put(m.drop_first(), key, t)).drop_first() =~= stamp_put(
                m.drop_first(),
                key,
                t,
            ));
            lemma_stamp_put(m.drop_first(), key, t, k);
            assert(stamp_put(m, key, t) == seq![m[0]] + stamp_put(m.drop_first(), key, t));
        }
    }
}

/// Files that belong to one slot carry one time.
pub open spec fn times_consistent(s: Plugins, now: Seq<(Seq<char>, u128)>) -> bool {
    forall|i: int, j: int|
        0 <= i < now.len() && 0 <= j < now.len() && (#[trigger] slot_for(s, now[i].0)) is Some && slot_for(
            s,
            now[i].0,
        ) == #[trigger] slot_for(s, now[j].0) ==> now[i].1 == now[j].1
}

/// Every file's slot has the file's time recorded in `m`.
pub open spec fn stamps_current(s: Plugins, m: Seq<(Seq<char>, u128)>, now: Seq<(Seq<char>, u128)>) -> bool {
    forall|i: int|
        0 <= i < now.len() ==> match #[trigger] slot_for(s, now[i].0) {
            Some(k) => stamp_of(m, k) == Some(now[i].1),
            None => true,
        }
}

proof fn lemma_reload_records(s: Plugins, m: Seq<(Seq<char>, u128)>, now: Seq<(Seq<char>, u128)>)
    requires
        times_consistent(s, now),
    ensures
        stamps_current(s, reload_spec(s, m, now).0, now),
    decreases now.len(),
{
    if now.len() > 0 {
        let d = now.drop_last();
        assert forall|i: int, j: int|
            0 <= i < d.len() && 0 <= j < d.len() && (#[trigger] slot_for(s, d[i].0)) is Some && slot_for(s, d[i].0)
                == #[trigger] slot_for(s, d[j].0) implies d[i].1 == d[j].1 by {
            assert(d[i] == now[i] && d[j] == now[j]);
        }
        lemma_reload_records(s, m, d);
        let (m1, r1) = reload_spec(s, m, d);
        let (p, t) = now.last();
        let m2 = reload_spec(s, m, now).0;
        let n = now.len() - 1;
        assert forall|i: int| 0 <= i < now.len() implies match #[trigger] slot_for(s, now[i].0) {
            Some(k) => stamp_of(m2, k) == Some(now[i].1),
            None => true,
        } by {
            match slot_for(s, now[i].0) {
                Some(k) => {
                    match slot_for(s, p) {
                        Some(kl) => {
                            lemma_stamp_put(m1, kl, t, k);
                            assert(now[n] == (p, t));
                            if i < n {
                                assert(d[i] == now[i]);
                                assert(slot_for(s, d[i].0) == Some(k));
                                if k == kl {
                                    assert(slot_for(s, now[n].0) == Some(kl));
                                    assert(now[i].1 == now[n].1);
                                }
                            }
                        },
                        None => {
                            if i < n {
                                assert(d[i] == now[i]);
                                assert(slot_for(s, d[i].0) == Some(k));
                            } else {
                                assert(now[i] == (p, t));
                            }
                        },
                    }
                },
                None => {},
            }
        }
    }
}

proof fn lemma_reload_idle(s: Plugins, m: Seq<(Seq<char>, u128)>, now: Seq<(Seq<char>, u128)>)
    requires
        stamps_current(s, m, now),
    ensures
        reload_spec(s, m, now) == (m, Seq::<Seq<char>>::empty()),
    decreases now.len(),
{
    if now.len() > 0 {
        let d = now.drop_last();
        assert forall|i: int| 0 <= i < d.len() implies match #[trigger] slot_for(s, d[i].0) {
            Some(k) => stamp_of(m, k) == Some(d[i].1),
            None => true,
        } by {
            assert(d[i] == now[i]);
            assert(match slot_for(s, now[i].0) {
                Some(k) => stamp_of(m, k) == Some(now[i].1),
                None => true,
            });
        }
        lemma_reload_idle(s, m, d);
        let n = now.len() - 1;
        assert(match slot_for(s, now[n].0) {
            Some(k) => stamp_of(m, k) == Some(now[n].1),
            None => true,
        });
    }
}

proof fn lemma_reload_keeps_other_stamps(s: Plugins, m: Seq<(Seq<char>, u128)>, now: Seq<(Seq<char>, u128)>, k: Seq<char>)
    requires
        forall|i: int| 0 <= i < now.len() ==> #[trigger] slot_for(s, now[i].0) != Some(k),
    ensures
        stamp_of(reload_spec(s, m, now).0, k) == stamp_of(m, k),
    decreases now.len(),
{
    if now.len() > 0 {
        let d = now.drop_last();
        assert forall|i: int| 0 <= i < d.len() implies #[trigger] slot_for(s, d[i].0) != Some(k) by {
            assert(d[i] == now[i]);
        }
        lemma_reload_keeps_other_stamps(s, m, d, k);
        let (m1, r1) = reload_spec(s, m, d);
        let (p, t) = now.last();
        assert(slot_for(s, now[now.len() - 1].0) != Some(k));
        match slot_for(s, p) {
            Some(kl) => {
                lemma_stamp_put(m1, kl, t, k);
            },
            None => {},
        }
    }
}

proof fn lemma_reload_plan_grows(s: Plugins, m: Seq<(Seq<char>, u128)>, now: Seq<(Seq<char>, u128)>, k: Seq<char>)
    requires
        now.len() > 0,
        reload_spec(s, m, now.drop_last()).1.contains(k),
    ensures
        reload_spec(s, m, now).1.contains(k),
{
    let (m1, r1) = reload_spec(s, m, now.drop_last());
    let j = choose|j: int| 0 <= j < r1.len() && r1[j] == k;
    let (p, t) = now.last();
    match slot_for(s, p) {
        Some(kl) => {
            if stamp_of(m1, kl) != Some(t) {
                assert(r1.push(kl)[j] == k);
            }
        },
        None => {},
    }
}

/// A watched file whose time differs from the one recorded for its slot puts
/// that slot into the reload plan (so long as files of one slot carry one
/// time).
pub proof fn lemma_changed_file_is_reloaded(
    s: Plugins,
    m: Seq<(Seq<char>, u128)>,
    now: Seq<(Seq<char>, u128)>,
    i: int,
    k: Seq<char>,
)
    requires
        times_consistent(s, now),
        0 <= i < now.len(),
        slot_for(s, now[i].0) == Some(k),
        stamp_of(m, k) != Some(now[i].1),
    ensures
        reload_spec(s, m, now).1.contains(k),
    decreases now.len(),
{
    let d = now.drop_last();
    let n = now.len() - 1;
    if exists|j: int| 0 <= j < d.len() && #[trigger] slot_for(s, d[j].0) == Some(k) {
        let j = choose|j: int| 0 <= j < d.len() && #[trigger] slot_for(s, d[j].0) == Some(k);
        assert(d[j] == now[j]);
        assert(now[j].1 == now[i].1);
        assert forall|a: int, b: int|
            0 <= a < d.len() && 0 <= b < d.len() && (#[trigger] slot_for(s, d[a].0)) is Some && slot_for(s, d[a].0)
                == #[trigger] slot_for(s, d[b].0) implies d[a].1 == d[b].1 by {
            assert(d[a] == now[a] && d[b] == now[b]);
        }
        lemma_changed_file_is_reloaded(s, m, d, j, k);
        lemma_reload_plan_grows(s, m, now, k);
    } else {
        assert(i == n) by {
            if i < n {
                assert(d[i] == now[i]);
            }
        }
        lemma_reload_keeps_other_stamps(s, m, d, k);
        let (m1, r1) = reload_spec(s, m, d);
        assert(now.last() == now[n]);
        assert(reload_spec(s, m, now).1 == r1.push(k));
        assert(r1.push(k)[r1.len() as int] == k);
    }
}

/// A watcher seeded with the files' current times reloads nothing on a
/// wake where no file changed (so long as files of one slot carry one time).
pub proof fn lemma_seeded_wake_reloads_nothing(s: Plugins, now: Seq<(Seq<char>, u128)>)
    requires
        times_consistent(s, now),
    ensures
        reload_spec(s, reload_spec(s, Seq::empty(), now).0, now).1.len() == 0,
{
    let seed = reload_spec(s, Seq::empty(), now).0;
    lemma_reload_records(s, Seq::empty(), now);
    lemma_reload_idle(s, seed, now);
}

/// Stamps as plain values.
pub open spec fn stamps_view(m: Seq<(String, u128)>) -> Seq<(Seq<char>, u128)> {
    m.map_values(|p: (String, u128)| (p.0@, p.1))
}

/// One plugin to mount on boot.
pub struct MountPlan {
    pub slot: String,
    /// Resolved against the config's directory.
    pub path: String,
    /// What it mounts with: its config, or `null`.
    pub config: Json,
}

pub open spec fn plans_view(v: Seq<MountPlan>) -> Seq<(Seq<char>, Seq<char>, JsonV)> {
    v.map_values(|m: MountPlan| (m.slot@, m.path@, m.config.view()))
}

fn record_stamp(m: &mut Vec<(String, u128)>, key: &String, t: u128)
    ensures
        stamps_view(final(m)@) == stamp_put(stamps_view(old(m)@), key@, t),
{
    let ghost s0 = stamps_view(m@);
    let mut i: usize = 0;
    assert(s0.take(0) + s0.skip(0) =~= s0);
    assert(s0.take(0) + stamp_put(s0.skip(0), key@, t) =~= stamp_put(s0, key@, t)) by {
        assert(s0.skip(0) =~= s0);
    }
    while i < m.len()
        invariant
            i <= m.len(),
            s0 == stamps_view(m@),
            s0 == stamps_view(old(m)@),
            forall|j: int| 0 <= j < i ==> #[trigger] s0[j].0 != key@,
            stamp_put(s0, key@, t) == s0.take(i as int) + stamp_put(s0.skip(i as int), key@, t),
        decreases m.len() - i,
    {
        assert(s0.skip(i as int)[0] == s0[i as int]);
        if str_eq(m[i].0.as_str(), key.as_str()) {
            m.set(i, (key.clone(), t));
            assert(stamp_put(s0.skip(i as int), key@, t) == s0.skip(i as int).update(0, (key@, t)));
            assert(stamps_view(m@) =~= s0.take(i as int) + s0.skip(i as int).update(0, (key@, t)));
            assert(stamps_view(m@) == stamp_put(s0, key@, t));
            return;
        }
        assert(s0.skip(i as int).drop_first() =~= s0.skip(i + 1));
        assert(stamp_put(s0.skip(i as int), key@, t) == seq![s0[i as int]] + stamp_put(
            s0.skip(i + 1),
            key@,
            t,
        ));
        assert(s0.take(i + 1) =~= s0.take(i as int) + seq![s0[i as int]]);
        assert(s0.take(i as int) + (seq![s0[i as int]] + stamp_put(s0.skip(i + 1), key@, t))
            =~= s0.take(i + 1) + stamp_put(s0.skip(i + 1), key@, t));
        i += 1;
    }
    assert(s0.skip(i as int) =~= Seq::<(Seq<char>, u128)>::empty());
    m.push((key.clone(), t));
    assert(stamps_view(m@) =~= s0.take(i as int) + seq![(key@, t)]);
}

fn stamp_lookup(m: &Vec<(String, u128)>, key: &String) -> (r: Option<u128>)
    ensures
        r == stamp_of(stamps_view(m@), key@),
{
    let ghost s0 = stamps_view(m@);
    let mut i: usize = 0;
    assert(s0.skip(0) =~= s0);
    while i < m.len()
        invariant
            i <= m.len(),
            s0 == stamps_view(m@),
            stamp_of(s0, key@) == stamp_of(s0.skip(i as int), key@),
        decreases m.len() - i,
    {
        assert(s0.skip(i as int)[0] == s0[i as int]);
        if str_eq(m[i].0.as_str(), key.as_str()) {
            return Some(m[i].1);
        }
        assert(s0.skip(i as int).drop_first() =~= s0.skip(i + 1));
        i += 1;
    }
    None
}

impl StudioConfig {
    /// Each configured plugin's path resolved against the directory of
    /// `config_path`, in config order.
    pub fn resolved_paths(&self, config_path: &str) -> (r: Vec<String>)
        ensures
            resolves(self.plugins_v(), r@.map_values(|p: String| p@), config_dir_spec(config_path@)),
    {
        let dir = config_dir(config_path);
        let ghost s = self.plugins_v();
        let mut out: Vec<String> = Vec::new();
        let mut i: usize = 0;
        while i < self.plugins.len()
            invariant
                i <= self.plugins.len(),
                s == self.plugins_v(),
                dir@ == config_dir_spec(config_path@),
                out@.len() == i,
                forall|j: int| 0 <= j < i ==> #[trigger] out@[j]@ == joined_path(dir@, s[j].1.path),
            decreases self.plugins.len() - i,
        {
            out.push(join_path(dir.as_str(), self.plugins[i].1.path.as_str()));
            i += 1;
        }
        out
    }

    /// The plugins to mount on boot, given each plugin's resolved path by
    /// position in `resolved`: every enabled one, in config order.
    pub fn autoload_plan_at(&self, resolved: &Vec<String>) -> (r: Vec<MountPlan>)
        requires
            resolved.len() == self.plugins_v().len(),
        ensures
            plans_view(r@) == autoload_at(self.plugins_v(), resolved@.map_values(|p: String| p@)),
    {
        let ghost s = self.plugins_v();
        let ghost res = resolved@.map_values(|p: String| p@);
        let mut out: Vec<MountPlan> = Vec::new();
        let mut i: usize = 0;
        while i < self.plugins.len()
            invariant
                i <= self.plugins.len(),
                s == self.plugins_v(),
                resolved.len() == self.plugins.len(),
                res == resolved@.map_values(|p: String| p@),
                plans_view(out@) == autoload_at(s.take(i as int), res),
            decreases self.plugins.len() - i,
        {
            assert(s.take(i + 1).drop_last() =~= s.take(i as int));
            assert(s.take(i + 1).last() == s[i as int]);
            let e = &self.plugins[i].1;
            if e.enabled {
                let config = match &e.config {
                    Some(j) => j.duplicate(),
                    None => Json::Null,
                };
                let ghost before = plans_view(out@);
                out.push(MountPlan { slot: self.plugins[i].0.clone(), path: resolved[i].clone(), config });
                assert(plans_view(out@) =~= before.push(
                    (s[i as int].0, res[i as int], config_or_null(e.view().config)),
                ));
            }
            i += 1;
        }
        assert(s.take(i as int) =~= s);
        out
    }

    /// The plugins to mount on boot (`autoload`): every enabled one, in
    /// config order.
    pub fn autoload_plan(&self, config_path: &str) -> (r: Vec<MountPlan>)
        ensures
            plans_view(r@) == autoload_spec(self.plugins_v(), config_dir_spec(config_path@)),
    {
        let res = self.resolved_paths(config_path);
        proof {
            lemma_resolved_paths_agree(self.plugins_v(), res@.map_values(|p: String| p@), config_dir_spec(config_path@));
        }
        self.autoload_plan_at(&res)
    }

    /// The files the watcher follows, given each plugin's resolved path by
    /// position in `resolved`.
    pub fn watch_paths_at(&self, resolved: &Vec<String>) -> (r: Vec<String>)
        requires
            resolved.len() == self.plugins_v().len(),
        ensures
            r@.map_values(|p: String| p@) == watch_at(self.plugins_v(), resolved@.map_values(|p: String| p@)),
    {
        let ghost s = self.plugins_v();
        let ghost res = resolved@.map_values(|p: String| p@);
        let mut out: Vec<String> = Vec::new();
        let mut i: usize = 0;
        while i < self.plugins.len()
            invariant
                i <= self.plugins.len(),
                s == self.plugins_v(),
                resolved.len() == self.plugins.len(),
                res == resolved@.map_values(|p: String| p@),
                out@.map_values(|p: String| p@) == watch_at(s.take(i as int), res),
            decreases self.plugins.len() - i,
        {
            assert(s.take(i + 1).drop_last() =~= s.take(i as int));
            assert(s.take(i + 1).last() == s[i as int]);
            let e = &self.plugins[i].1;
            let watched = match e.watch {
                Some(w) => w,
                None => true,
            };
            if e.enabled && watched {
                let ghost before = out@.map_values(|p: String| p@);
                out.push(resolved[i].clone());
                assert(out@.map_values(|p: String| p@) =~= before.push(res[i as int]));
            }
            i += 1;
        }
        assert(s.take(i as int) =~= s);
        out
    }

    /// The files the watcher follows.
    pub fn watch_paths(&self, config_path: &str) -> (r: Vec<String>)
        ensures
            r@.map_values(|p: String| p@) == watch_spec(self.plugins_v(), config_dir_spec(config_path@)),
    {
        let res = self.resolved_paths(config_path);
        proof {
            lemma_resolved_paths_agree(self.plugins_v(), res@.map_values(|p: String| p@), config_dir_spec(config_path@));
        }
        self.watch_paths_at(&res)
    }

    /// The slot a changed file belongs to, given the path facts: `same[i]`
    /// whether plugin `i`'s path is the changed one, `names[i]` plugin `i`'s
    /// file name, `name` the changed file's name. The first plugin matching
    /// either way.
    pub fn slot_matching(&self, same: &Vec<bool>, names: &Vec<Option<String>>, name: &Option<String>) -> (r:
        Option<String>)
        requires
            same.len() == self.plugins_v().len(),
            names.len() == self.plugins_v().len(),
        ensures
            match r {
                Some(k) => slot_by(self.plugins_v(), same@, opt_strs(names@), opt_str_v(*name)) == Some(k@),
                None => slot_by(self.plugins_v(), same@, opt_strs(names@), opt_str_v(*name))
                    == None::<Seq<char>>,
            },
    {
        let ghost s = self.plugins_v();
        let ghost ns = opt_strs(names@);
        let ghost nm = opt_str_v(*name);
        let mut i: usize = 0;
        assert(s.skip(0) =~= s);
        assert(same@.skip(0) =~= same@);
        assert(ns.skip(0) =~= ns);
        while i < self.plugins.len()
            invariant
                i <= self.plugins.len(),
                s == self.plugins_v(),
                same.len() == self.plugins.len(),
                names.len() == self.plugins.len(),
                ns == opt_strs(names@),
                nm == opt_str_v(*name),
                slot_by(s, same@, ns, nm) == slot_by(s.skip(i as int), same@.skip(i as int), ns.skip(i as int), nm),
            decreases self.plugins.len() - i,
        {
            assert(s.skip(i as int)[0] == s[i as int]);
            assert(same@.skip(i as int)[0] == same@[i as int]);
            assert(ns.skip(i as int)[0] == ns[i as int]);
            let names_match = match (&names[i], name) {
                (Some(a), Some(b)) => str_eq(a.as_str(), b.as_str()),
                (None, None) => true,
                _ => false,
            };
            if same[i] || names_match {
                return Some(self.plugins[i].0.clone());
            }
            assert(s.skip(i as int).drop_first() =~= s.skip(i + 1));
            assert(same@.skip(i as int).drop_first() =~= same@.skip(i + 1));
            assert(ns.skip(i as int).drop_first() =~= ns.skip(i + 1));
            i += 1;
        }
        None
    }

    /// The slot a changed file belongs to (`slot_for_path`).
    pub fn slot_for_path(&self, path: &str) -> (r: Option<String>)
        ensures
            match r {
                Some(k) => slot_for(self.plugins_v(), path@) == Some(k@),
                None => slot_for(self.plugins_v(), path@) == None::<Seq<char>>,
            },
    {
        let ghost s = self.plugins_v();
        let name = file_name_of(path);
        let mut same: Vec<bool> = Vec::new();
        let mut names: Vec<Option<String>> = Vec::new();
        let mut i: usize = 0;
        while i < self.plugins.len()
            invariant
                i <= self.plugins.len(),
                s == self.plugins_v(),
                same.len() == i,
                names.len() == i,
                forall|j: int| 0 <= j < i ==> #[trigger] same@[j] == paths_equal(s[j].1.path, path@),
                forall|j: int| 0 <= j < i ==> #[trigger] opt_strs(names@)[j] == file_name_part(s[j].1.path),
            decreases self.plugins.len() - i,
        {
            let ghost before = names@;
            same.push(same_path(self.plugins[i].1.path.as_str(), path));
            let n = file_name_of(self.plugins[i].1.path.as_str());
            assert(opt_str_v(n) == file_name_part(s[i as int].1.path));
            names.push(n);
            proof {
                assert forall|j: int| 0 <= j <= i implies #[trigger] opt_strs(names@)[j] == file_name_part(s[j].1.path) by {
                    assert(opt_strs(names@)[j] == opt_str_v(names@[j]));
                    if j < i {
                        assert(names@[j] == before[j]);
                        assert(opt_strs(before)[j] == opt_str_v(before[j]));
                    } else {
                        assert(names@[j] == n);
                    }
                }
            }
            i += 1;
        }
        proof {
            assert(same@ =~= same_facts(s, path@));
            assert(opt_strs(names@) =~= name_facts(s));
            lemma_slot_by_facts(s, path@);
        }
        self.slot_matching(&same, &names, &name)
    }

    /// The times the watcher starts from (`start_watch`): each watched
    /// file's current time recorded under its slot, as a first wake would
    /// record it, so an existing file is not reloaded straight away.
    pub fn seed_stamps(&self, now: &Vec<(String, u128)>) -> (r: Vec<(String, u128)>)
        ensures
            stamps_view(r@) == reload_spec(self.plugins_v(), Seq::empty(), stamps_view(now@)).0,
    {
        let mut m: Vec<(String, u128)> = Vec::new();
        assert(stamps_view(m@) =~= Seq::<(Seq<char>, u128)>::empty());
        let _ = self.reload_plan(&mut m, now);
        m
    }

    /// After the watcher wakes with the current modification time of each
    /// watched file, the slots to reload (in the order their files came),
    /// recording the times seen.
    pub fn reload_plan(&self, mtimes: &mut Vec<(String, u128)>, now: &Vec<(String, u128)>) -> (r: Vec<String>)
        ensures
            (stamps_view(final(mtimes)@), r@.map_values(|k: String| k@)) == reload_spec(
                self.plugins_v(),
                stamps_view(old(mtimes)@),
                stamps_view(now@),
            ),
    {
        let ghost s = self.plugins_v();
        let ghost m0 = stamps_view(mtimes@);
        let ghost nv = stamps_view(now@);
        let mut out: Vec<String> = Vec::new();
        let mut i: usize = 0;
        while i < now.len()
            invariant
                i <= now.len(),
                s == self.plugins_v(),
                nv == stamps_view(now@),
                (stamps_view(mtimes@), out@.map_values(|k: String| k@)) == reload_spec(
                    s,
                    m0,
                    nv.take(i as int),
                ),
            decreases now.len() - i,
        {
            assert(nv.take(i + 1).drop_last() =~= nv.take(i as int));
            assert(nv.take(i + 1).last() == nv[i as int]);
            match self.slot_for_path(now[i].0.as_str()) {
                Some(k) => {
                    let t = now[i].1;
                    let seen = stamp_lookup(mtimes, &k);
                    if seen != Some(t) {
                        record_stamp(mtimes, &k, t);
                        let ghost before = out@.map_values(|x: String| x@);
                        out.push(k);
                        assert(out@.map_values(|x: String| x@) =~= before.push(k@));
                    }
                },
                None => {},
            }
            i += 1;
        }
        assert(nv.take(i as int) =~= nv);
        out
    }
}

// ---------------------------------------------------------------------------
// The catalog: every plugin the app knows about
// ---------------------------------------------------------------------------

/// A plugin the host is running, as `list_plugins` reports it.
pub struct RunningPlugin {
    pub slot: String,
    pub plugin: String,
    /// Its lifecycle state, lowercase (`active`, `pending`, ...).
    pub state: String,
    pub tool_count: usize,
    pub active: bool,
}

pub struct RunningV {
    pub slot: Seq<char>,
    pub plugin: Seq<char>,
    pub state: Seq<char>,
    pub tool_count: usize,
    pub active: bool,
}

impl View for RunningPlugin {
    type V = RunningV;

    open spec fn view(&self) -> RunningV {
        RunningV {
            slot: self.slot@,
            plugin: self.plugin@,
            state: self.state@,
            tool_count: self.tool_count,
            active: self.active,
        }
    }
}

/// What the file system says of a path: its canonical form and whether it
/// exists. A path with no facts is its own canonical form and does not exist.
pub struct PathFacts {
    pub path: String,
    pub canon: String,
    pub exists: bool,
}

pub struct FactsV {
    pub path: Seq<char>,
    pub canon: Seq<char>,
    pub exists: bool,
}

impl View for PathFacts {
    type V = FactsV;

    open spec fn view(&self) -> FactsV {
        FactsV { path: self.path@, canon: self.canon@, exists: self.exists }
    }
}

/// One row of the plugin catalog: known, and whether it is running.
pub struct CatalogEntry {
    pub slot: String,
    pub plugin: String,
    pub path: String,
    /// Is a guest instance loaded right now?
    pub running: bool,
    /// Is it active (injects satisfied)? `false` for a running-but-pending plugin.
    pub active: bool,
    /// `active` | `pending` | `stopped` | `available` | ...
    pub state: String,
    pub tool_count: usize,
    /// Is it part of the persisted config?
    pub in_config: bool,
    pub enabled: bool,
    /// Does the `.wasm` file actually exist?
    pub exists: bool,
    pub _canon: String,
}

pub struct CatalogEntryV {
    pub slot: Seq<char>,
    pub plugin: Seq<char>,
    pub path: Seq<char>,
    pub running: bool,
    pub active: bool,
    pub state: Seq<char>,
    pub tool_count: usize,
    pub in_config: bool,
    pub enabled: bool,
    pub exists: bool,
    pub canon: Seq<char>,
}

impl View for CatalogEntry {
    type V = CatalogEntryV;

    open spec fn view(&self) -> CatalogEntryV {
        CatalogEntryV {
            slot: self.slot@,
            plugin: self.plugin@,
            path: self.path@,
            running: self.running,
            active: self.active,
            state: self.state@,
            tool_count: self.tool_count,
            in_config: self.in_config,
            enabled: self.enabled,
            exists: self.exists,
            canon: self._canon@,
        }
    }
}

/// One `.wasm` found on disk that is not yet configured.
pub struct Discovered {
    pub slot: String,
    pub path: String,
}

impl View for Discovered {
    type V = (Seq<char>, Seq<char>);

    open spec fn view(&self) -> (Seq<char>, Seq<char>) {
        (self.slot@, self.path@)
    }
}

/// What the host reports for `slot` (the last report wins).
pub open spec fn running_of(rs: Seq<RunningV>, slot: Seq<char>) -> Option<RunningV>
    decreases rs.len(),
{
    if rs.len() == 0 {
        None
    } else if rs.last().slot == slot {
        Some(rs.last())
    } else {
        running_of(rs.drop_last(), slot)
    }
}

/// The facts known of `p`.
pub open spec fn facts_of(fs: Seq<FactsV>, p: Seq<char>) -> Option<FactsV>
    decreases fs.len(),
{
    if fs.len() == 0 {
        None
    } else if fs[0].path == p {
        Some(fs[0])
    } else {
        facts_of(fs.drop_first(), p)
    }
}

/// The canonical form of `p`, or `p` itself when it has none.
pub open spec fn canon_of(fs: Seq<FactsV>, p: Seq<char>) -> Seq<char> {
    match facts_of(fs, p) {
        Some(f) => f.canon,
        None => p,
    }
}

/// Whether `p` exists.
pub open spec fn exists_of(fs: Seq<FactsV>, p: Seq<char>) -> bool {
    match facts_of(fs, p) {
        Some(f) => f.exists,
        None => false,
    }
}

/// A configured plugin's row: running figures from the host when it runs,
/// `stopped` otherwise.
pub open spec fn config_row(
    slot: Seq<char>,
    e: EntryV,
    dir: Seq<char>,
    rs: Seq<RunningV>,
    fs: Seq<FactsV>,
) -> CatalogEntryV {
    config_row_at(slot, e, joined_path(dir, e.path), rs, fs)
}

/// A configured plugin's row, its path resolved to `path`.
pub open spec fn config_row_at(
    slot: Seq<char>,
    e: EntryV,
    path: Seq<char>,
    rs: Seq<RunningV>,
    fs: Seq<FactsV>,
) -> CatalogEntryV {
    let run = running_of(rs, slot);
    CatalogEntryV {
        slot,
        plugin: match run {
            Some(r) => r.plugin,
            None => slot,
        },
        path,
        running: run is Some,
        active: match run {
            Some(r) => r.active,
            None => false,
        },
        state: match run {
            Some(r) => r.state,
            None => "stopped"@,
        },
        tool_count: match run {
            Some(r) => r.tool_count,
            None => 0,
        },
        in_config: true,
        enabled: e.enabled,
        exists: exists_of(fs, path),
        canon: canon_of(fs, path),
    }
}

/// A discovered file's row: available, not started.
pub open spec fn available_row(q: (Seq<char>, Seq<char>)) -> CatalogEntryV {
    CatalogEntryV {
        slot: q.0,
        plugin: q.0,
        path: q.1,
        running: false,
        active: false,
        state: "available"@,
        tool_count: 0,
        in_config: false,
        enabled: false,
        exists: true,
        canon: Seq::empty(),
    }
}

/// Some row's path has canonical form `c`.
pub open spec fn has_canon(rows: Seq<CatalogEntryV>, fs: Seq<FactsV>, c: Seq<char>) -> bool {
    exists|i: int| 0 <= i < rows.len() && canon_of(fs, #[trigger] rows[i].path) == c
}

/// `rows`, then each discovered file whose canonical path no row has yet.
pub open spec fn with_available(
    rows: Seq<CatalogEntryV>,
    qs: Seq<(Seq<char>, Seq<char>)>,
    fs: Seq<FactsV>,
) -> Seq<CatalogEntryV>
    decreases qs.len(),
{
    if qs.len() == 0 {
        rows
    } else {
        let r = with_available(rows, qs.drop_last(), fs);
        if has_canon(r, fs, canon_of(fs, qs.last().1)) {
            r
        } else {
            r.push(available_row(qs.last()))
        }
    }
}

pub open spec fn config_rows(s: Plugins, dir: Seq<char>, rs: Seq<RunningV>, fs: Seq<FactsV>) -> Seq<
    CatalogEntryV,
> {
    s.map_values(|p: (Seq<char>, EntryV)| config_row(p.0, p.1, dir, rs, fs))
}

/// Rows keyed by their slot.
pub open spec fn by_slot(rows: Seq<CatalogEntryV>) -> Seq<(Seq<char>, CatalogEntryV)> {
    rows.map_values(|r: CatalogEntryV| (r.slot, r))
}

/// The catalog: every configured plugin (running or not) then every
/// discovered file not already configured, ordered by slot.
pub open spec fn catalog_spec(
    s: Plugins,
    dir: Seq<char>,
    rs: Seq<RunningV>,
    fs: Seq<FactsV>,
    qs: Seq<(Seq<char>, Seq<char>)>,
) -> Seq<CatalogEntryV> {
    name_sort(by_slot(with_available(config_rows(s, dir, rs, fs), qs, fs))).map_values(
        |p: (Seq<char>, CatalogEntryV)| p.1,
    )
}

/// The rows of the configured plugins, each plugin's resolved path read
/// from `res` by position.
pub open spec fn config_rows_at(s: Plugins, res: Seq<Seq<char>>, rs: Seq<RunningV>, fs: Seq<FactsV>) -> Seq<
    CatalogEntryV,
> {
    Seq::new(s.len(), |i: int| config_row_at(s[i].0, s[i].1, res[i], rs, fs))
}

/// `catalog_spec` with each configured plugin's resolved path read from
/// `res` by position.
pub open spec fn catalog_at(
    s: Plugins,
    res: Seq<Seq<char>>,
    rs: Seq<RunningV>,
    fs: Seq<FactsV>,
    qs: Seq<(Seq<char>, Seq<char>)>,
) -> Seq<CatalogEntryV> {
    name_sort(by_slot(with_available(config_rows_at(s, res, rs, fs), qs, fs))).map_values(
        |p: (Seq<char>, CatalogEntryV)| p.1,
    )
}

/// Read by position, resolved paths give the catalog resolving against
/// `dir` gives.
pub proof fn lemma_catalog_at(
    s: Plugins,
    res: Seq<Seq<char>>,
    dir: Seq<char>,
    rs: Seq<RunningV>,
    fs: Seq<FactsV>,
    qs: Seq<(Seq<char>, Seq<char>)>,
)
    requires
        resolves(s, res, dir),
    ensures
        catalog_at(s, res, rs, fs, qs) == catalog_spec(s, dir, rs, fs, qs),
{
    assert(config_rows_at(s, res, rs, fs) =~= config_rows(s, dir, rs, fs));
}

fn running_lookup<'a>(rs: &'a Vec<RunningPlugin>, slot: &String) -> (r: Option<&'a RunningPlugin>)
    ensures
        match r {
            Some(x) => running_of(rs@.map_values(|x: RunningPlugin| x@), slot@) == Some(x@),
            None => running_of(rs@.map_values(|x: RunningPlugin| x@), slot@) == None::<RunningV>,
        },
{
    let ghost v = rs@.map_values(|x: RunningPlugin| x@);
    let mut i: usize = rs.len();
    assert(v.take(rs.len() as int) =~= v);
    while i > 0
        invariant
            i <= rs.len(),
            v == rs@.map_values(|x: RunningPlugin| x@),
            running_of(v, slot@) == running_of(v.take(i as int), slot@),
        decreases i,
    {
        assert(v.take(i as int).drop_last() =~= v.take(i - 1));
        assert(v.take(i as int).last() == rs@[i - 1]@);
        if str_eq(rs[i - 1].slot.as_str(), slot.as_str()) {
            return Some(&rs[i - 1]);
        }
        i -= 1;
    }
    None
}

fn facts_lookup<'a>(fs: &'a Vec<PathFacts>, p: &str) -> (r: Option<&'a PathFacts>)
    ensures
        match r {
            Some(x) => facts_of(fs@.map_values(|x: PathFacts| x@), p@) == Some(x@),
            None => facts_of(fs@.map_values(|x: PathFacts| x@), p@) == None::<FactsV>,
        },
{
    let ghost v = fs@.map_values(|x: PathFacts| x@);
    let mut i: usize = 0;
    assert(v.skip(0) =~= v);
    while i < fs.len()
        invariant
            i <= fs.len(),
            v == fs@.map_values(|x: PathFacts| x@),
            facts_of(v, p@) == facts_of(v.skip(i as int), p@),
        decreases fs.len() - i,
    {
        assert(v.skip(i as int)[0] == fs@[i as int]@);
        if str_eq(fs[i].path.as_str(), p) {
            return Some(&fs[i]);
        }
        assert(v.skip(i as int).drop_first() =~= v.skip(i + 1));
        i += 1;
    }
    None
}

/// The canonical form of `p` as the facts give it.
pub fn canonical(fs: &Vec<PathFacts>, p: &str) -> (r: String)
    ensures
        r@ == canon_of(fs@.map_values(|x: PathFacts| x@), p@),
{
    match facts_lookup(fs, p) {
        Some(f) => f.canon.clone(),
        None => owned(p),
    }
}

fn path_exists(fs: &Vec<PathFacts>, p: &str) -> (r: bool)
    ensures
        r == exists_of(fs@.map_values(|x: PathFacts| x@), p@),
{
    match facts_lookup(fs, p) {
        Some(f) => f.exists,
        None => false,
    }
}

fn any_canon(rows: &Vec<CatalogEntry>, fs: &Vec<PathFacts>, c: &String) -> (r: bool)
    ensures
        r == has_canon(rows@.map_values(|x: CatalogEntry| x@), fs@.map_values(|x: PathFacts| x@), c@),
{
    let ghost rv = rows@.map_values(|x: CatalogEntry| x@);
    let ghost fv = fs@.map_values(|x: PathFacts| x@);
    let mut i: usize = 0;
    while i < rows.len()
        invariant
            i <= rows.len(),
            rv == rows@.map_values(|x: CatalogEntry| x@),
            fv == fs@.map_values(|x: PathFacts| x@),
            forall|j: int| 0 <= j < i ==> canon_of(fv, #[trigger] rv[j].path) != c@,
        decreases rows.len() - i,
    {
        let k = canonical(fs, rows[i].path.as_str());
        if str_eq(k.as_str(), c.as_str()) {
            assert(canon_of(fv, rv[i as int].path) == c@);
            return true;
        }
        i += 1;
    }
    false
}

impl StudioConfig {
    /// The plugin catalog (`catalog`): everything configured, running or
    /// not, then every discovered file not already configured (by canonical
    /// path), ordered by slot.
    pub fn catalog(
        &self,
        config_path: &str,
        running: &Vec<RunningPlugin>,
        facts: &Vec<PathFacts>,
        discovered: &Vec<Discovered>,
    ) -> (r: Vec<CatalogEntry>)
        ensures
            r@.map_values(|x: CatalogEntry| x@) == catalog_spec(
                self.plugins_v(),
                config_dir_spec(config_path@),
                running@.map_values(|x: RunningPlugin| x@),
                facts@.map_values(|x: PathFacts| x@),
                discovered@.map_values(|x: Discovered| x@),
            ),
    {
        let res = self.resolved_paths(config_path);
        proof {
            lemma_catalog_at(
                self.plugins_v(),
                res@.map_values(|p: String| p@),
                config_dir_spec(config_path@),
                running@.map_values(|x: RunningPlugin| x@),
                facts@.map_values(|x: PathFacts| x@),
                discovered@.map_values(|x: Discovered| x@),
            );
        }
        self.catalog_at(&res, running, facts, discovered)
    }

    /// The plugin catalog, given each configured plugin's resolved path by
    /// position in `resolved`.
    pub fn catalog_at(
        &self,
        resolved: &Vec<String>,
        running: &Vec<RunningPlugin>,
        facts: &Vec<PathFacts>,
        discovered: &Vec<Discovered>,
    ) -> (r: Vec<CatalogEntry>)
        requires
            resolved.len() == self.plugins_v().len(),
        ensures
            r@.map_values(|x: CatalogEntry| x@) == catalog_at(
                self.plugins_v(),
                resolved@.map_values(|p: String| p@),
                running@.map_values(|x: RunningPlugin| x@),
                facts@.map_values(|x: PathFacts| x@),
                discovered@.map_values(|x: Discovered| x@),
            ),
    {
        let ghost res = resolved@.map_values(|p: String| p@);
        let ghost s = self.plugins_v();
        let ghost rs = running@.map_values(|x: RunningPlugin| x@);
        let ghost fs = facts@.map_values(|x: PathFacts| x@);
        let ghost qs = discovered@.map_values(|x: Discovered| x@);
        let mut out: Vec<CatalogEntry> = Vec::new();
        let mut i: usize = 0;
        while i < self.plugins.len()
            invariant
                i <= self.plugins.len(),
                s == self.plugins_v(),
                rs == running@.map_values(|x: RunningPlugin| x@),
                fs == facts@.map_values(|x: PathFacts| x@),
                resolved.len() == self.plugins.len(),
                res == resolved@.map_values(|p: String| p@),
                out@.map_values(|x: CatalogEntry| x@) == config_rows_at(s.take(i as int), res, rs, fs),
            decreases self.plugins.len() - i,
        {
            let slot = &self.plugins[i].0;
            let e = &self.plugins[i].1;
            let path = resolved[i].clone();
            let canon = canonical(facts, path.as_str());
            let exists = path_exists(facts, path.as_str());
            let row = match running_lookup(running, slot) {
                Some(run) => CatalogEntry {
                    slot: slot.clone(),
                    plugin: run.plugin.clone(),
                    path,
                    running: true,
                    active: run.active,
                    state: run.state.clone(),
                    tool_count: run.tool_count,
                    in_config: true,
                    enabled: e.enabled,
                    exists,
                    _canon: canon,
                },
                None => CatalogEntry {
                    slot: slot.clone(),
                    plugin: slot.clone(),
                    path,
                    running: false,
                    active: false,
                    state: owned("stopped"),
                    tool_count: 0,
                    in_config: true,
                    enabled: e.enabled,
                    exists,
                    _canon: canon,
                },
            };
            assert(s[i as int] == (slot@, e.view()));
            assert(row@ == config_row_at(s[i as int].0, s[i as int].1, res[i as int], rs, fs));
            let ghost before = out@.map_values(|x: CatalogEntry| x@);
            let ghost rv = row@;
            out.push(row);
            assert(s.take(i + 1) =~= s.take(i as int).push(s[i as int]));
            assert(config_rows_at(s.take(i + 1), res, rs, fs) =~= config_rows_at(s.take(i as int), res, rs, fs).push(
                config_row_at(s[i as int].0, s[i as int].1, res[i as int], rs, fs),
            ));
            assert(out@.map_values(|x: CatalogEntry| x@) =~= before.push(rv));
            i += 1;
        }
        assert(s.take(i as int) =~= s);
        let ghost base = config_rows_at(s, res, rs, fs);
        let mut k: usize = 0;
        while k < discovered.len()
            invariant
                k <= discovered.len(),
                qs == discovered@.map_values(|x: Discovered| x@),
                fs == facts@.map_values(|x: PathFacts| x@),
                out@.map_values(|x: CatalogEntry| x@) == with_available(base, qs.take(k as int), fs),
            decreases discovered.len() - k,
        {
            assert(qs.take(k + 1).drop_last() =~= qs.take(k as int));
            assert(qs.take(k + 1).last() == discovered@[k as int]@);
            let q = &discovered[k];
            let c = canonical(facts, q.path.as_str());
            if !any_canon(&out, facts, &c) {
                let ghost before = out@.map_values(|x: CatalogEntry| x@);
                out.push(
                    CatalogEntry {
                        slot: q.slot.clone(),
                        plugin: q.slot.clone(),
                        path: q.path.clone(),
                        running: false,
                        active: false,
                        state: owned("available"),
                        tool_count: 0,
                        in_config: false,
                        enabled: false,
                        exists: true,
                        _canon: String::new(),
                    },
                );
                assert(out@.map_values(|x: CatalogEntry| x@) =~= before.push(available_row(q@)));
            }
            k += 1;
        }
        assert(qs.take(k as int) =~= qs);
        let ghost rows = out@.map_values(|x: CatalogEntry| x@);
        let mut keyed: Vec<(String, CatalogEntry)> = Vec::new();
        let mut rest = out;
        let ghost all = rest@;
        let n0 = rest.len();
        assert(all.len() == n0);
        let mut j: usize = 0;
        while rest.len() > 0
            invariant
                j + rest.len() == all.len(),
                all.len() <= usize::MAX,
                rest@ == all.skip(j as int),
                rows == all.map_values(|x: CatalogEntry| x@),
                keyed_view(keyed@) == by_slot(rows.take(j as int)),
            decreases rest.len(),
        {
            let row = rest.remove(0);
            assert(row == all[j as int]);
            assert(rest@ =~= all.skip(j + 1));
            assert(rows[j as int] == row@);
            let ghost kb = keyed_view(keyed@);
            let ghost rv = row@;
            let key = row.slot.clone();
            keyed.push((key, row));
            assert(keyed_view(keyed@) =~= kb.push((rv.slot, rv)));
            assert(rows.take(j + 1) =~= rows.take(j as int).push(rv));
            assert(by_slot(rows.take(j + 1)) =~= by_slot(rows.take(j as int)).push((rv.slot, rv)));
            j += 1;
        }
        assert(rows.take(j as int) =~= rows);
        let sorted = sort_by_name(keyed);
        let ghost sv = keyed_view(sorted@);
        let mut result: Vec<CatalogEntry> = Vec::new();
        let mut rest2 = sorted;
        let ghost all2 = rest2@;
        let n1 = rest2.len();
        assert(all2.len() == n1);
        let mut m: usize = 0;
        while rest2.len() > 0
            invariant
                m + rest2.len() == all2.len(),
                all2.len() <= usize::MAX,
                rest2@ == all2.skip(m as int),
                sv == keyed_view(all2),
                result@.map_values(|x: CatalogEntry| x@) == sv.take(m as int).map_values(
                    |p: (Seq<char>, CatalogEntryV)| p.1,
                ),
            decreases rest2.len(),
        {
            let pair = rest2.remove(0);
            assert(pair == all2[m as int]);
            assert(rest2@ =~= all2.skip(m + 1));
            assert(sv[m as int] == (pair.0@, pair.1@));
            let ghost before = result@.map_values(|x: CatalogEntry| x@);
            let (_, row) = pair;
            let ghost rv = row@;
            result.push(row);
            assert(result@.map_values(|x: CatalogEntry| x@) =~= before.push(rv));
            assert(sv.take(m + 1) =~= sv.take(m as int).push(sv[m as int]));
            assert(result@.map_values(|x: CatalogEntry| x@) =~= sv.take(m + 1).map_values(
                |p: (Seq<char>, CatalogEntryV)| p.1,
            ));
            m += 1;
        }
        assert(sv.take(m as int) =~= sv);
        result
    }
}

// ---------------------------------------------------------------------------
// Discovery: `.wasm` files on disk not yet configured
// ---------------------------------------------------------------------------

/// One directory consulted during discovery.
pub struct SearchedRoot {
    pub path: String,
    pub label: String,
    pub exists: bool,
    /// How many new `.wasm` files were found here.
    pub wasm_count: usize,
}

pub struct SearchedV {
    pub path: Seq<char>,
    pub label: Seq<char>,
    pub exists: bool,
    pub wasm_count: nat,
}

impl View for SearchedRoot {
    type V = SearchedV;

    open spec fn view(&self) -> SearchedV {
        SearchedV {
            path: self.path@,
            label: self.label@,
            exists: self.exists,
            wasm_count: self.wasm_count as nat,
        }
    }
}

/// The result of a discovery scan: what was found, and where we looked.
pub struct Discovery {
    pub plugins: Vec<Discovered>,
    /// Every directory consulted, so the UI can explain an empty result.
    pub searched: Vec<SearchedRoot>,
}

/// One directory as the file system showed it: its canonical path, whether
/// it is a directory, and the paths of its entries in listing order.
pub struct RootListing {
    pub dir: String,
    pub label: String,
    pub exists: bool,
    pub files: Vec<String>,
}

pub struct ListingV {
    pub dir: Seq<char>,
    pub label: Seq<char>,
    pub exists: bool,
    pub files: Seq<Seq<char>>,
}

impl View for RootListing {
    type V = ListingV;

    open spec fn view(&self) -> ListingV {
        ListingV { dir: self.dir@, label: self.label@, exists: self.exists, files: str_views(self.files@) }
    }
}

/// The build-output directories discovery also looks in, relative to the
/// app-data directory the plugin directory sits in.
pub open spec fn build_rels() -> Seq<Seq<char>> {
    seq![
        "../../../wasm-plugin-host/target/wasm32-wasip1/release"@,
        "../../wasm-plugin-host/target/wasm32-wasip1/release"@,
        "../wasm-plugin-host/target/wasm32-wasip1/release"@,
    ]
}

pub open spec fn build_dirs_spec(plugins_dir: Seq<char>) -> Seq<Seq<char>> {
    match parent_path(plugins_dir) {
        Some(base) => build_rels().map_values(|r: Seq<char>| joined_path(base, r)),
        None => Seq::empty(),
    }
}

/// Where discovery looks, with why: the app's plugin directory, each
/// configured plugin's directory, then each build output that exists.
pub open spec fn roots_spec(
    s: Plugins,
    plugins_dir: Seq<char>,
    dir: Seq<char>,
    builds: Seq<Seq<char>>,
) -> Seq<(Seq<char>, Seq<char>)> {
    seq![(plugins_dir, "app plugin directory"@)] + configured_dirs(s, dir) + builds.map_values(
        |b: Seq<char>| (b, "wasm-plugin-host build output"@),
    )
}

pub open spec fn configured_dirs(s: Plugins, dir: Seq<char>) -> Seq<(Seq<char>, Seq<char>)>
    decreases s.len(),
{
    if s.len() == 0 {
        Seq::empty()
    } else {
        let r = configured_dirs(s.drop_last(), dir);
        match parent_path(joined_path(dir, s.last().1.path)) {
            Some(d) => r.push((d, "configured plugin directory"@)),
            None => r,
        }
    }
}

/// The configured plugins' directories, each read from `parents` (the
/// parent of each resolved path, by position): those that have one.
pub open spec fn dirs_at(parents: Seq<Option<Seq<char>>>) -> Seq<(Seq<char>, Seq<char>)>
    decreases parents.len(),
{
    if parents.len() == 0 {
        Seq::empty()
    } else {
        let r = dirs_at(parents.drop_last());
        match parents.last() {
            Some(d) => r.push((d, "configured plugin directory"@)),
            None => r,
        }
    }
}

/// `roots_spec` with the configured plugins' directories given.
pub open spec fn roots_at(
    plugins_dir: Seq<char>,
    parents: Seq<Option<Seq<char>>>,
    builds: Seq<Seq<char>>,
) -> Seq<(Seq<char>, Seq<char>)> {
    seq![(plugins_dir, "app plugin directory"@)] + dirs_at(parents) + builds.map_values(
        |b: Seq<char>| (b, "wasm-plugin-host build output"@),
    )
}

/// The parent of each configured plugin's path resolved against `dir`.
pub open spec fn parents_spec(s: Plugins, dir: Seq<char>) -> Seq<Option<Seq<char>>> {
    s.map_values(|p: (Seq<char>, EntryV)| parent_path(joined_path(dir, p.1.path)))
}

/// With the parents the path rules give, `roots_at` is `roots_spec`.
pub proof fn lemma_roots_at(s: Plugins, plugins_dir: Seq<char>, dir: Seq<char>, builds: Seq<Seq<char>>)
    ensures
        roots_at(plugins_dir, parents_spec(s, dir), builds) == roots_spec(s, plugins_dir, dir, builds),
{
    lemma_dirs_at(s, dir);
}

proof fn lemma_dirs_at(s: Plugins, dir: Seq<char>)
    ensures
        dirs_at(parents_spec(s, dir)) == configured_dirs(s, dir),
    decreases s.len(),
{
    if s.len() > 0 {
        assert(parents_spec(s, dir).drop_last() =~= parents_spec(s.drop_last(), dir));
        lemma_dirs_at(s.drop_last(), dir);
    }
}

/// A scan in progress: what was found, the paths taken, and how many this
/// directory gave.
pub struct ScanV {
    pub found: Seq<(Seq<char>, Seq<char>)>,
    pub seen: Seq<Seq<char>>,
    pub count: nat,
}

/// A discovered file's slot: its file stem, or `plugin`.
pub open spec fn stem_or_plugin(f: Seq<char>) -> Seq<char> {
    match file_stem_part(f) {
        Some(n) => n,
        None => "plugin"@,
    }
}

/// A `.wasm` file that is neither configured (by canonical path) nor
/// already found.
pub open spec fn is_new_wasm(
    f: Seq<char>,
    configured: Seq<Seq<char>>,
    seen: Seq<Seq<char>>,
    fs: Seq<FactsV>,
) -> bool {
    &&& extension_part(f) == Some("wasm"@)
    &&& !configured.contains(canon_of(fs, f))
    &&& !seen.contains(f)
}

pub open spec fn scan_files(st: ScanV, files: Seq<Seq<char>>, configured: Seq<Seq<char>>, fs: Seq<FactsV>) -> ScanV
    decreases files.len(),
{
    if files.len() == 0 {
        st
    } else {
        let r = scan_files(st, files.drop_last(), configured, fs);
        let f = files.last();
        if is_new_wasm(f, configured, r.seen, fs) {
            ScanV { found: r.found.push((stem_or_plugin(f), f)), seen: r.seen.push(f), count: r.count + 1 }
        } else {
            r
        }
    }
}

pub open spec fn scan_roots(ls: Seq<ListingV>, configured: Seq<Seq<char>>, fs: Seq<FactsV>) -> (ScanV, Seq<SearchedV>)
    decreases ls.len(),
{
    if ls.len() == 0 {
        (ScanV { found: Seq::empty(), seen: Seq::empty(), count: 0 }, Seq::empty())
    } else {
        let (st, sr) = scan_roots(ls.drop_last(), configured, fs);
        let l = ls.last();
        let start = ScanV { found: st.found, seen: st.seen, count: 0 };
        let st2 = if l.exists {
            scan_files(start, l.files, configured, fs)
        } else {
            start
        };
        (st2, sr.push(SearchedV { path: l.dir, label: l.label, exists: l.exists, wasm_count: st2.count }))
    }
}

/// The name parts of a listed file, as the path rules give them: its
/// extension and its stem.
pub struct FileNames {
    pub path: String,
    pub extension: Option<String>,
    pub stem: Option<String>,
}

pub struct NamesV {
    pub path: Seq<char>,
    pub extension: Option<Seq<char>>,
    pub stem: Option<Seq<char>>,
}

impl View for FileNames {
    type V = NamesV;

    open spec fn view(&self) -> NamesV {
        NamesV { path: self.path@, extension: opt_str_v(self.extension), stem: opt_str_v(self.stem) }
    }
}

/// The first entry of `nv` about `f`.
pub open spec fn names_of(nv: Seq<NamesV>, f: Seq<char>) -> Option<NamesV>
    decreases nv.len(),
{
    if nv.len() == 0 {
        None
    } else if nv[0].path == f {
        Some(nv[0])
    } else {
        names_of(nv.drop_first(), f)
    }
}

/// The extension `nv` gives `f`: none where it says nothing of `f`.
pub open spec fn ext_in(nv: Seq<NamesV>) -> spec_fn(Seq<char>) -> Option<Seq<char>> {
    |f: Seq<char>|
        match names_of(nv, f) {
            Some(n) => n.extension,
            None => None,
        }
}

/// The stem `nv` gives `f`: none where it says nothing of `f`.
pub open spec fn stem_in(nv: Seq<NamesV>) -> spec_fn(Seq<char>) -> Option<Seq<char>> {
    |f: Seq<char>|
        match names_of(nv, f) {
            Some(n) => n.stem,
            None => None,
        }
}

/// The path rules' own extension and stem.
pub open spec fn ext_rule() -> spec_fn(Seq<char>) -> Option<Seq<char>> {
    |f: Seq<char>| extension_part(f)
}

pub open spec fn stem_rule() -> spec_fn(Seq<char>) -> Option<Seq<char>> {
    |f: Seq<char>| file_stem_part(f)
}

/// `scan_files` with the extension and stem of each file given by `ext` and
/// `stem`.
pub open spec fn scan_files_by(
    st: ScanV,
    files: Seq<Seq<char>>,
    configured: Seq<Seq<char>>,
    fs: Seq<FactsV>,
    ext: spec_fn(Seq<char>) -> Option<Seq<char>>,
    stem: spec_fn(Seq<char>) -> Option<Seq<char>>,
) -> ScanV
    decreases files.len(),
{
    if files.len() == 0 {
        st
    } else {
        let r = scan_files_by(st, files.drop_last(), configured, fs, ext, stem);
        let f = files.last();
        if ext(f) == Some("wasm"@) && !configured.contains(canon_of(fs, f)) && !r.seen.contains(f) {
            let slot = match stem(f) {
                Some(n) => n,
                None => "plugin"@,
            };
            ScanV { found: r.found.push((slot, f)), seen: r.seen.push(f), count: r.count + 1 }
        } else {
            r
        }
    }
}

/// `scan_roots` with the extension and stem of each file given.
pub open spec fn scan_roots_by(
    ls: Seq<ListingV>,
    configured: Seq<Seq<char>>,
    fs: Seq<FactsV>,
    ext: spec_fn(Seq<char>) -> Option<Seq<char>>,
    stem: spec_fn(Seq<char>) -> Option<Seq<char>>,
) -> (ScanV, Seq<SearchedV>)
    decreases ls.len(),
{
    if ls.len() == 0 {
        (ScanV { found: Seq::empty(), seen: Seq::empty(), count: 0 }, Seq::empty())
    } else {
        let (st, sr) = scan_roots_by(ls.drop_last(), configured, fs, ext, stem);
        let l = ls.last();
        let start = ScanV { found: st.found, seen: st.seen, count: 0 };
        let st2 = if l.exists {
            scan_files_by(start, l.files, configured, fs, ext, stem)
        } else {
            start
        };
        (st2, sr.push(SearchedV { path: l.dir, label: l.label, exists: l.exists, wasm_count: st2.count }))
    }
}

/// `discover_spec` with the extension and stem of each file given.
pub open spec fn discover_by(
    s: Plugins,
    ls: Seq<ListingV>,
    fs: Seq<FactsV>,
    ext: spec_fn(Seq<char>) -> Option<Seq<char>>,
    stem: spec_fn(Seq<char>) -> Option<Seq<char>>,
) -> (Seq<(Seq<char>, Seq<char>)>, Seq<SearchedV>) {
    let (st, sr) = scan_roots_by(ls, configured_canon(s, fs), fs, ext, stem);
    (
        name_sort(st.found.map_values(|q: (Seq<char>, Seq<char>)| (q.0, q))).map_values(
            |p: (Seq<char>, (Seq<char>, Seq<char>))| p.1,
        ),
        sr,
    )
}

/// `ext` and `stem` give what the path rules give for every listed file.
pub open spec fn names_agree(
    ls: Seq<ListingV>,
    ext: spec_fn(Seq<char>) -> Option<Seq<char>>,
    stem: spec_fn(Seq<char>) -> Option<Seq<char>>,
) -> bool {
    forall|i: int, k: int|
        0 <= i < ls.len() && 0 <= k < ls[i].files.len() ==> {
            &&& ext(#[trigger] ls[i].files[k]) == extension_part(ls[i].files[k])
            &&& stem(ls[i].files[k]) == file_stem_part(ls[i].files[k])
        }
}

proof fn lemma_scan_files_by(
    st: ScanV,
    files: Seq<Seq<char>>,
    configured: Seq<Seq<char>>,
    fs: Seq<FactsV>,
    ext: spec_fn(Seq<char>) -> Option<Seq<char>>,
    stem: spec_fn(Seq<char>) -> Option<Seq<char>>,
)
    requires
        forall|k: int| 0 <= k < files.len() ==> ext(#[trigger] files[k]) == extension_part(files[k]) && stem(
            files[k],
        ) == file_stem_part(files[k]),
    ensures
        scan_files_by(st, files, configured, fs, ext, stem) == scan_files(st, files, configured, fs),
    decreases files.len(),
{
    if files.len() > 0 {
        let d = files.drop_last();
        assert forall|k: int| 0 <= k < d.len() implies ext(#[trigger] d[k]) == extension_part(d[k]) && stem(d[k])
            == file_stem_part(d[k]) by {
            assert(d[k] == files[k]);
        }
        lemma_scan_files_by(st, d, configured, fs, ext, stem);
        assert(ext(files[files.len() - 1]) == extension_part(files.last()));
    }
}

proof fn lemma_scan_roots_by(
    ls: Seq<ListingV>,
    configured: Seq<Seq<char>>,
    fs: Seq<FactsV>,
    ext: spec_fn(Seq<char>) -> Option<Seq<char>>,
    stem: spec_fn(Seq<char>) -> Option<Seq<char>>,
)
    requires
        names_agree(ls, ext, stem),
    ensures
        scan_roots_by(ls, configured, fs, ext, stem) == scan_roots(ls, configured, fs),
    decreases ls.len(),
{
    if ls.len() > 0 {
        let d = ls.drop_last();
        assert forall|i: int, k: int| 0 <= i < d.len() && 0 <= k < d[i].files.len() implies {
            &&& ext(#[trigger] d[i].files[k]) == extension_part(d[i].files[k])
            &&& stem(d[i].files[k]) == file_stem_part(d[i].files[k])
        } by {
            assert(d[i] == ls[i]);
            assert(ext(ls[i].files[k]) == extension_part(ls[i].files[k]));
        }
        lemma_scan_roots_by(d, configured, fs, ext, stem);
        let l = ls.last();
        assert forall|k: int| 0 <= k < l.files.len() implies ext(#[trigger] l.files[k]) == extension_part(
            l.files[k],
        ) && stem(l.files[k]) == file_stem_part(l.files[k]) by {
            assert(ext(ls[ls.len() - 1].files[k]) == extension_part(ls[ls.len() - 1].files[k]));
        }
        let (st, sr) = scan_roots(d, configured, fs);
        let start = ScanV { found: st.found, seen: st.seen, count: 0 };
        lemma_scan_files_by(start, l.files, configured, fs, ext, stem);
    }
}

/// Where the given extensions and stems are the path rules' for every
/// listed file, discovery by them is discovery by the path rules.
pub proof fn lemma_discover_by(
    s: Plugins,
    ls: Seq<ListingV>,
    fs: Seq<FactsV>,
    ext: spec_fn(Seq<char>) -> Option<Seq<char>>,
    stem: spec_fn(Seq<char>) -> Option<Seq<char>>,
)
    requires
        names_agree(ls, ext, stem),
    ensures
        discover_by(s, ls, fs, ext, stem) == discover_spec(s, ls, fs),
{
    lemma_scan_roots_by(ls, configured_canon(s, fs), fs, ext, stem);
}

/// The canonical paths of the configured plugins (as configured, not
/// resolved).
pub open spec fn configured_canon(s: Plugins, fs: Seq<FactsV>) -> Seq<Seq<char>> {
    s.map_values(|p: (Seq<char>, EntryV)| canon_of(fs, p.1.path))
}

/// Discovery's answer: the new `.wasm` files ordered by slot, and every
/// directory consulted in order.
pub open spec fn discover_spec(s: Plugins, ls: Seq<ListingV>, fs: Seq<FactsV>) -> (
    Seq<(Seq<char>, Seq<char>)>,
    Seq<SearchedV>,
) {
    let (st, sr) = scan_roots(ls, configured_canon(s, fs), fs);
    (
        name_sort(st.found.map_values(|q: (Seq<char>, Seq<char>)| (q.0, q))).map_values(
            |p: (Seq<char>, (Seq<char>, Seq<char>))| p.1,
        ),
        sr,
    )
}

/// The build outputs discovery checks, relative to the app-data directory
/// the plugin directory sits in.
pub fn build_output_rels() -> (r: Vec<String>)
    ensures
        str_views(r@) == build_rels(),
{
    let mut v: Vec<String> = Vec::new();
    v.push(owned("../../../wasm-plugin-host/target/wasm32-wasip1/release"));
    v.push(owned("../../wasm-plugin-host/target/wasm32-wasip1/release"));
    v.push(owned("../wasm-plugin-host/target/wasm32-wasip1/release"));
    assert(str_views(v@) =~= build_rels());
    v
}

/// The build-output directories worth checking, given the directory the
/// plugin directory sits in: each of `build_output_rels` resolved against
/// it.
pub fn build_output_dirs_in(base: &str) -> (r: Vec<String>)
    ensures
        str_views(r@) == build_rels().map_values(|x: Seq<char>| joined_path(base@, x)),
{
    let rels = build_output_rels();
    let ghost rv = str_views(rels@);
    let mut v: Vec<String> = Vec::new();
    let mut i: usize = 0;
    while i < rels.len()
        invariant
            i <= rels.len(),
            rv == str_views(rels@),
            rv == build_rels(),
            str_views(v@) == rv.take(i as int).map_values(|x: Seq<char>| joined_path(base@, x)),
        decreases rels.len() - i,
    {
        let ghost before = str_views(v@);
        v.push(join_path(base, rels[i].as_str()));
        assert(str_views(v@) =~= before.push(joined_path(base@, rv[i as int])));
        assert(rv.take(i + 1) =~= rv.take(i as int).push(rv[i as int]));
        i += 1;
    }
    assert(rv.take(i as int) =~= rv);
    v
}

/// The build-output directories worth checking for freshly built plugins.
pub fn build_output_dirs(plugins_dir: &str) -> (r: Vec<String>)
    ensures
        str_views(r@) == build_dirs_spec(plugins_dir@),
{
    match parent_dir(plugins_dir) {
        Some(base) => build_output_dirs_in(base.as_str()),
        None => {
            let v: Vec<String> = Vec::new();
            assert(str_views(v@) =~= build_dirs_spec(plugins_dir@));
            v
        },
    }
}

/// Where discovery looks, given the parent directory of each configured
/// plugin's resolved path: the app's plugin directory, each configured
/// plugin's directory, then each build output.
pub fn discover_roots_at(plugins_dir: &str, parents: &Vec<Option<String>>, builds: &Vec<String>) -> (r: Vec<(
    String,
    String,
)>)
    ensures
        r@.map_values(|p: (String, String)| (p.0@, p.1@)) == roots_at(
            plugins_dir@,
            opt_strs(parents@),
            str_views(builds@),
        ),
{
    let ghost ps = opt_strs(parents@);
    let mut out: Vec<(String, String)> = Vec::new();
    out.push((owned(plugins_dir), owned("app plugin directory")));
    let ghost head = seq![(plugins_dir@, "app plugin directory"@)];
    assert(out@.map_values(|p: (String, String)| (p.0@, p.1@)) =~= head);
    let mut i: usize = 0;
    while i < parents.len()
        invariant
            i <= parents.len(),
            ps == opt_strs(parents@),
            head == seq![(plugins_dir@, "app plugin directory"@)],
            out@.map_values(|p: (String, String)| (p.0@, p.1@)) == head + dirs_at(ps.take(i as int)),
        decreases parents.len() - i,
    {
        assert(ps.take(i + 1).drop_last() =~= ps.take(i as int));
        assert(ps.take(i + 1).last() == opt_str_v(parents@[i as int]));
        match &parents[i] {
            Some(d) => {
                let ghost before = out@.map_values(|p: (String, String)| (p.0@, p.1@));
                out.push((d.clone(), owned("configured plugin directory")));
                assert(out@.map_values(|p: (String, String)| (p.0@, p.1@)) =~= before.push(
                    (d@, "configured plugin directory"@),
                ));
                assert(head + dirs_at(ps.take(i + 1)) =~= (head + dirs_at(ps.take(i as int))).push(
                    (d@, "configured plugin directory"@),
                ));
            },
            None => {},
        }
        i += 1;
    }
    assert(ps.take(i as int) =~= ps);
    let ghost mid = out@.map_values(|p: (String, String)| (p.0@, p.1@));
    let ghost bv = str_views(builds@);
    let mut k: usize = 0;
    while k < builds.len()
        invariant
            k <= builds.len(),
            bv == str_views(builds@),
            out@.map_values(|p: (String, String)| (p.0@, p.1@)) == mid + bv.take(k as int).map_values(
                |b: Seq<char>| (b, "wasm-plugin-host build output"@),
            ),
        decreases builds.len() - k,
    {
        let ghost before = out@.map_values(|p: (String, String)| (p.0@, p.1@));
        out.push((builds[k].clone(), owned("wasm-plugin-host build output")));
        assert(out@.map_values(|p: (String, String)| (p.0@, p.1@)) =~= before.push(
            (bv[k as int], "wasm-plugin-host build output"@),
        ));
        assert(bv.take(k + 1) =~= bv.take(k as int).push(bv[k as int]));
        assert(mid + bv.take(k + 1).map_values(|b: Seq<char>| (b, "wasm-plugin-host build output"@))
            =~= (mid + bv.take(k as int).map_values(
            |b: Seq<char>| (b, "wasm-plugin-host build output"@),
        )).push((bv[k as int], "wasm-plugin-host build output"@)));
        k += 1;
    }
    assert(bv.take(k as int) =~= bv);
    out
}

/// Each entry of `nv` gives the path rules' extension and stem of its path.
pub open spec fn names_by_rule(nv: Seq<NamesV>) -> bool {
    forall|i: int|
        0 <= i < nv.len() ==> (#[trigger] nv[i]).extension == extension_part(nv[i].path) && nv[i].stem
            == file_stem_part(nv[i].path)
}

proof fn lemma_names_of_sound(nv: Seq<NamesV>, f: Seq<char>)
    requires
        names_by_rule(nv),
    ensures
        names_of(nv, f) matches Some(e) ==> e.path == f && e.extension == extension_part(f) && e.stem
            == file_stem_part(f),
    decreases nv.len(),
{
    if nv.len() > 0 && nv[0].path != f {
        assert forall|i: int| 0 <= i < nv.drop_first().len() implies (#[trigger] nv.drop_first()[i]).extension
            == extension_part(nv.drop_first()[i].path) && nv.drop_first()[i].stem == file_stem_part(
            nv.drop_first()[i].path,
        ) by {
            assert(nv.drop_first()[i] == nv[i + 1]);
        }
        lemma_names_of_sound(nv.drop_first(), f);
    }
}

proof fn lemma_names_of_push(nv: Seq<NamesV>, e: NamesV, f: Seq<char>)
    ensures
        names_of(nv, f) is Some ==> names_of(nv.push(e), f) == names_of(nv, f),
        e.path == f ==> names_of(nv.push(e), f) is Some,
    decreases nv.len(),
{
    if nv.len() > 0 {
        assert(nv.push(e).drop_first() =~= nv.drop_first().push(e));
        lemma_names_of_push(nv.drop_first(), e, f);
    } else {
        assert(nv.push(e)[0] == e);
    }
}

/// The extension and stem of every file the listings hold, by the path
/// rules.
fn listed_names(listings: &Vec<RootListing>) -> (r: Vec<FileNames>)
    ensures
        names_agree(
            listings@.map_values(|x: RootListing| x@),
            ext_in(r@.map_values(|x: FileNames| x@)),
            stem_in(r@.map_values(|x: FileNames| x@)),
        ),
{
    let ghost ls = listings@.map_values(|x: RootListing| x@);
    let mut out: Vec<FileNames> = Vec::new();
    let mut j: usize = 0;
    while j < listings.len()
        invariant
            j <= listings.len(),
            ls == listings@.map_values(|x: RootListing| x@),
            names_by_rule(out@.map_values(|x: FileNames| x@)),
            forall|a: int, k: int|
                0 <= a < j && 0 <= k < ls[a].files.len() ==> names_of(
                    out@.map_values(|x: FileNames| x@),
                    #[trigger] ls[a].files[k],
                ) is Some,
        decreases listings.len() - j,
    {
        let files = &listings[j].files;
        assert(ls[j as int].files == str_views(files@));
        let mut k: usize = 0;
        while k < files.len()
            invariant
                j < listings.len(),
                k <= files.len(),
                files == &listings[j as int].files,
                ls == listings@.map_values(|x: RootListing| x@),
                ls[j as int].files == str_views(files@),
                names_by_rule(out@.map_values(|x: FileNames| x@)),
                forall|a: int, m: int|
                    0 <= a < j && 0 <= m < ls[a].files.len() ==> names_of(
                        out@.map_values(|x: FileNames| x@),
                        #[trigger] ls[a].files[m],
                    ) is Some,
                forall|m: int| 0 <= m < k ==> names_of(
                    out@.map_values(|x: FileNames| x@),
                    #[trigger] ls[j as int].files[m],
                ) is Some,
            decreases files.len() - k,
        {
            let f = &files[k];
            let ghost nb = out@.map_values(|x: FileNames| x@);
            let extension = extension_of(f.as_str());
            let stem = file_stem_of(f.as_str());
            let e = FileNames { path: f.clone(), extension, stem };
            let ghost ev = e@;
            assert(ev.extension == extension_part(f@));
            out.push(e);
            proof {
                let na = out@.map_values(|x: FileNames| x@);
                assert(na =~= nb.push(ev));
                assert forall|i: int| 0 <= i < na.len() implies (#[trigger] na[i]).extension == extension_part(
                    na[i].path,
                ) && na[i].stem == file_stem_part(na[i].path) by {
                    if i < nb.len() {
                        assert(na[i] == nb[i]);
                    }
                }
                assert forall|a: int, m: int|
                    0 <= a < j && 0 <= m < ls[a].files.len() implies names_of(
                    na,
                    #[trigger] ls[a].files[m],
                ) is Some by {
                    lemma_names_of_push(nb, ev, ls[a].files[m]);
                }
                assert forall|m: int| 0 <= m < k + 1 implies names_of(
                    na,
                    #[trigger] ls[j as int].files[m],
                ) is Some by {
                    lemma_names_of_push(nb, ev, ls[j as int].files[m]);
                    if m == k {
                        assert(ls[j as int].files[m] == f@);
                    }
                }
            }
            k += 1;
        }
        j += 1;
    }
    proof {
        let nv = out@.map_values(|x: FileNames| x@);
        assert forall|i: int, k: int| 0 <= i < ls.len() && 0 <= k < ls[i].files.len() implies {
            &&& ext_in(nv)(#[trigger] ls[i].files[k]) == extension_part(ls[i].files[k])
            &&& stem_in(nv)(ls[i].files[k]) == file_stem_part(ls[i].files[k])
        } by {
            lemma_names_of_sound(nv, ls[i].files[k]);
        }
    }
    out
}

fn names_lookup<'a>(names: &'a Vec<FileNames>, p: &str) -> (r: Option<&'a FileNames>)
    ensures
        match r {
            Some(x) => names_of(names@.map_values(|x: FileNames| x@), p@) == Some(x@),
            None => names_of(names@.map_values(|x: FileNames| x@), p@) == None::<NamesV>,
        },
{
    let ghost v = names@.map_values(|x: FileNames| x@);
    let mut i: usize = 0;
    assert(v.skip(0) =~= v);
    while i < names.len()
        invariant
            i <= names.len(),
            v == names@.map_values(|x: FileNames| x@),
            names_of(v, p@) == names_of(v.skip(i as int), p@),
        decreases names.len() - i,
    {
        assert(v.skip(i as int)[0] == names@[i as int]@);
        if str_eq(names[i].path.as_str(), p) {
            return Some(&names[i]);
        }
        assert(v.skip(i as int).drop_first() =~= v.skip(i + 1));
        i += 1;
    }
    None
}

/// The text of an optional borrowed string.
pub open spec fn opt_ref_v(o: Option<&String>) -> Option<Seq<char>> {
    match o {
        Some(t) => Some(t@),
        None => None,
    }
}

fn scan_listing(
    l: &RootListing,
    configured: &Vec<String>,
    facts: &Vec<PathFacts>,
    names: &Vec<FileNames>,
    found: &mut Vec<Discovered>,
    seen: &mut Vec<String>,
) -> (count: usize)
    requires
        l.exists,
    ensures
        ({
            let nv = names@.map_values(|x: FileNames| x@);
            let st = scan_files_by(
                ScanV {
                    found: old(found)@.map_values(|x: Discovered| x@),
                    seen: str_views(old(seen)@),
                    count: 0,
                },
                str_views(l.files@),
                str_views(configured@),
                facts@.map_values(|x: PathFacts| x@),
                ext_in(nv),
                stem_in(nv),
            );
            &&& final(found)@.map_values(|x: Discovered| x@) == st.found
            &&& str_views(final(seen)@) == st.seen
            &&& count == st.count
        }),
{
    let ghost files = str_views(l.files@);
    let ghost cfg = str_views(configured@);
    let ghost fs = facts@.map_values(|x: PathFacts| x@);
    let ghost nv = names@.map_values(|x: FileNames| x@);
    let ghost st0 = ScanV {
        found: found@.map_values(|x: Discovered| x@),
        seen: str_views(seen@),
        count: 0,
    };
    let mut count: usize = 0;
    let mut k: usize = 0;
    assert(files.take(0) =~= Seq::<Seq<char>>::empty());
    while k < l.files.len()
        invariant
            k <= l.files.len(),
            count <= k,
            files == str_views(l.files@),
            cfg == str_views(configured@),
            fs == facts@.map_values(|x: PathFacts| x@),
            nv == names@.map_values(|x: FileNames| x@),
            ({
                let st = scan_files_by(st0, files.take(k as int), cfg, fs, ext_in(nv), stem_in(nv));
                &&& found@.map_values(|x: Discovered| x@) == st.found
                &&& str_views(seen@) == st.seen
                &&& count == st.count
            }),
        decreases l.files.len() - k,
    {
        assert(files.take(k + 1).drop_last() =~= files.take(k as int));
        assert(files.take(k + 1).last() == l.files@[k as int]@);
        let f = &l.files[k];
        let entry = names_lookup(names, f.as_str());
        let ext: Option<&String> = match entry {
            Some(e) => match &e.extension {
                Some(x) => Some(x),
                None => None,
            },
            None => None,
        };
        assert(opt_ref_v(ext) == ext_in(nv)(f@));
        let is_wasm = match ext {
            Some(x) => {
                proof {
                    reveal_strlit("wasm");
                }
                str_eq(x.as_str(), "wasm")
            },
            None => false,
        };
        if is_wasm {
            let c = canonical(facts, f.as_str());
            if !contains_str(configured, &c) && !contains_str(seen, f) {
                let ghost fb = found@.map_values(|x: Discovered| x@);
                let ghost sb = str_views(seen@);
                seen.push(f.clone());
                count = count + 1;
                let slot = match entry {
                    Some(e) => match &e.stem {
                        Some(n) => n.clone(),
                        None => owned("plugin"),
                    },
                    None => owned("plugin"),
                };
                let ghost want = match stem_in(nv)(f@) {
                    Some(n) => n,
                    None => "plugin"@,
                };
                assert(slot@ == want);
                found.push(Discovered { slot, path: f.clone() });
                assert(found@.map_values(|x: Discovered| x@) =~= fb.push((want, f@)));
                assert(str_views(seen@) =~= sb.push(f@));
            }
        }
        k += 1;
    }
    assert(files.take(k as int) =~= files);
    count
}

impl StudioConfig {
    /// Where discovery looks (`discover`): the app's plugin directory, the
    /// directory of each configured plugin, and each build output found to
    /// exist (`build_output_dirs` lists the candidates).
    pub fn discover_roots(&self, plugins_dir: &str, config_path: &str, builds: &Vec<String>) -> (r: Vec<(String, String)>)
        ensures
            r@.map_values(|p: (String, String)| (p.0@, p.1@)) == roots_spec(
                self.plugins_v(),
                plugins_dir@,
                config_dir_spec(config_path@),
                str_views(builds@),
            ),
    {
        let res = self.resolved_paths(config_path);
        let ghost s = self.plugins_v();
        let ghost dir = config_dir_spec(config_path@);
        let mut parents: Vec<Option<String>> = Vec::new();
        let mut i: usize = 0;
        while i < res.len()
            invariant
                i <= res.len(),
                s == self.plugins_v(),
                resolves(s, res@.map_values(|p: String| p@), dir),
                parents.len() == i,
                forall|j: int| 0 <= j < i ==> #[trigger] opt_strs(parents@)[j] == parent_path(
                    joined_path(dir, s[j].1.path),
                ),
            decreases res.len() - i,
        {
            let ghost before = parents@;
            let d = parent_dir(res[i].as_str());
            assert(res@.map_values(|p: String| p@)[i as int] == res@[i as int]@);
            assert(opt_str_v(d) == parent_path(joined_path(dir, s[i as int].1.path)));
            parents.push(d);
            proof {
                assert forall|j: int| 0 <= j <= i implies #[trigger] opt_strs(parents@)[j] == parent_path(
                    joined_path(dir, s[j].1.path),
                ) by {
                    assert(opt_strs(parents@)[j] == opt_str_v(parents@[j]));
                    if j < i {
                        assert(parents@[j] == before[j]);
                        assert(opt_strs(before)[j] == opt_str_v(before[j]));
                    } else {
                        assert(parents@[j] == d);
                    }
                }
            }
            i += 1;
        }
        proof {
            assert(opt_strs(parents@) =~= parents_spec(s, dir));
            lemma_roots_at(s, plugins_dir@, dir, str_views(builds@));
        }
        discover_roots_at(plugins_dir, &parents, builds)
    }

    /// What discovery found in the listed directories (`discover`): every
    /// `.wasm` not configured (compared by canonical path) and not already
    /// found, ordered by slot; and every directory consulted, with how many
    /// new files it gave.
    pub fn discover_scan(&self, listings: &Vec<RootListing>, facts: &Vec<PathFacts>) -> (r: Discovery)
        ensures
            (r.plugins@.map_values(|x: Discovered| x@), r.searched@.map_values(|x: SearchedRoot| x@))
                == discover_spec(
                self.plugins_v(),
                listings@.map_values(|x: RootListing| x@),
                facts@.map_values(|x: PathFacts| x@),
            ),
    {
        let names = listed_names(listings);
        proof {
            lemma_discover_by(
                self.plugins_v(),
                listings@.map_values(|x: RootListing| x@),
                facts@.map_values(|x: PathFacts| x@),
                ext_in(names@.map_values(|x: FileNames| x@)),
                stem_in(names@.map_values(|x: FileNames| x@)),
            );
        }
        self.discover_scan_at(listings, facts, &names)
    }

    /// Discovery, given each listed file's extension and stem in `names`
    /// (a file `names` says nothing of has neither).
    pub fn discover_scan_at(&self, listings: &Vec<RootListing>, facts: &Vec<PathFacts>, names: &Vec<FileNames>) -> (r:
        Discovery)
        ensures
            (r.plugins@.map_values(|x: Discovered| x@), r.searched@.map_values(|x: SearchedRoot| x@))
                == discover_by(
                self.plugins_v(),
                listings@.map_values(|x: RootListing| x@),
                facts@.map_values(|x: PathFacts| x@),
                ext_in(names@.map_values(|x: FileNames| x@)),
                stem_in(names@.map_values(|x: FileNames| x@)),
            ),
    {
        let ghost nv = names@.map_values(|x: FileNames| x@);
        let ghost s = self.plugins_v();
        let ghost fs = facts@.map_values(|x: PathFacts| x@);
        let ghost ls = listings@.map_values(|x: RootListing| x@);
        let mut configured: Vec<String> = Vec::new();
        let mut i: usize = 0;
        while i < self.plugins.len()
            invariant
                i <= self.plugins.len(),
                s == self.plugins_v(),
                fs == facts@.map_values(|x: PathFacts| x@),
                str_views(configured@) == configured_canon(s.take(i as int), fs),
            decreases self.plugins.len() - i,
        {
            let ghost before = str_views(configured@);
            let c = canonical(facts, self.plugins[i].1.path.as_str());
            assert(s[i as int].1.path == self.plugins[i as int].1.path@);
            let ghost cv = c@;
            configured.push(c);
            assert(str_views(configured@) =~= before.push(cv));
            assert(s.take(i + 1) =~= s.take(i as int).push(s[i as int]));
            assert(configured_canon(s.take(i + 1), fs) =~= configured_canon(s.take(i as int), fs).push(
                canon_of(fs, s[i as int].1.path),
            ));
            assert(str_views(configured@) =~= configured_canon(s.take(i + 1), fs));
            i += 1;
        }
        assert(s.take(i as int) =~= s);
        let ghost cfg = str_views(configured@);
        let mut found: Vec<Discovered> = Vec::new();
        let mut seen: Vec<String> = Vec::new();
        let mut searched: Vec<SearchedRoot> = Vec::new();
        let mut j: usize = 0;
        assert(ls.take(0) =~= Seq::<ListingV>::empty());
        while j < listings.len()
            invariant
                j <= listings.len(),
                ls == listings@.map_values(|x: RootListing| x@),
                fs == facts@.map_values(|x: PathFacts| x@),
                cfg == str_views(configured@),
                nv == names@.map_values(|x: FileNames| x@),
                ({
                    let (st, sr) = scan_roots_by(ls.take(j as int), cfg, fs, ext_in(nv), stem_in(nv));
                    &&& found@.map_values(|x: Discovered| x@) == st.found
                    &&& str_views(seen@) == st.seen
                    &&& searched@.map_values(|x: SearchedRoot| x@) == sr
                }),
            decreases listings.len() - j,
        {
            assert(ls.take(j + 1).drop_last() =~= ls.take(j as int));
            assert(ls.take(j + 1).last() == listings@[j as int]@);
            let l = &listings[j];
            let count = if l.exists {
                scan_listing(l, &configured, facts, names, &mut found, &mut seen)
            } else {
                0
            };
            let ghost sb = searched@.map_values(|x: SearchedRoot| x@);
            searched.push(SearchedRoot { path: l.dir.clone(), label: l.label.clone(), exists: l.exists, wasm_count: count });
            assert(searched@.map_values(|x: SearchedRoot| x@) =~= sb.push(
                SearchedV { path: l.dir@, label: l.label@, exists: l.exists, wasm_count: count as nat },
            ));
            j += 1;
        }
        assert(ls.take(j as int) =~= ls);
        let ghost fv = found@.map_values(|x: Discovered| x@);
        let mut keyed: Vec<(String, Discovered)> = Vec::new();
        let mut rest = found;
        let ghost all = rest@;
        let n0 = rest.len();
        assert(all.len() == n0);
        let mut m: usize = 0;
        while rest.len() > 0
            invariant
                m + rest.len() == all.len(),
                all.len() <= usize::MAX,
                rest@ == all.skip(m as int),
                fv == all.map_values(|x: Discovered| x@),
                keyed_view(keyed@) == fv.take(m as int).map_values(
                    |q: (Seq<char>, Seq<char>)| (q.0, q),
                ),
            decreases rest.len(),
        {
            let q = rest.remove(0);
            assert(q == all[m as int]);
            assert(rest@ =~= all.skip(m + 1));
            let ghost kb = keyed_view(keyed@);
            let ghost qv = q@;
            let key = q.slot.clone();
            keyed.push((key, q));
            assert(keyed_view(keyed@) =~= kb.push((qv.0, qv)));
            assert(fv.take(m + 1) =~= fv.take(m as int).push(qv));
            m += 1;
        }
        assert(fv.take(m as int) =~= fv);
        let sorted = sort_by_name(keyed);
        let ghost sv = keyed_view(sorted@);
        let mut plugins: Vec<Discovered> = Vec::new();
        let mut rest2 = sorted;
        let ghost all2 = rest2@;
        let n1 = rest2.len();
        assert(all2.len() == n1);
        let mut t: usize = 0;
        while rest2.len() > 0
            invariant
                t + rest2.len() == all2.len(),
                all2.len() <= usize::MAX,
                rest2@ == all2.skip(t as int),
                sv == keyed_view(all2),
                plugins@.map_values(|x: Discovered| x@) == sv.take(t as int).map_values(
                    |p: (Seq<char>, (Seq<char>, Seq<char>))| p.1,
                ),
            decreases rest2.len(),
        {
            let pair = rest2.remove(0);
            assert(pair == all2[t as int]);
            assert(rest2@ =~= all2.skip(t + 1));
            assert(sv[t as int] == (pair.0@, pair.1@));
            let ghost before = plugins@.map_values(|x: Discovered| x@);
            let (_, q) = pair;
            let ghost qv = q@;
            plugins.push(q);
            assert(plugins@.map_values(|x: Discovered| x@) =~= before.push(qv));
            assert(sv.take(t + 1) =~= sv.take(t as int).push(sv[t as int]));
            t += 1;
        }
        assert(sv.take(t as int) =~= sv);
        Discovery { plugins, searched }
    }
}

// ---------------------------------------------------------------------------
// Laws
// ---------------------------------------------------------------------------

/// On boot exactly the enabled plugins mount: every planned mount is a
/// configured, enabled plugin, and every configured, enabled plugin is
/// planned.
#[verifier::spinoff_prover]
pub proof fn lemma_autoload_mounts_exactly_the_enabled(s: Plugins, dir: Seq<char>)
    ensures
        forall|i: int|
            0 <= i < autoload_spec(s, dir).len() ==> exists|j: int|
                0 <= j < s.len() && s[j].0 == (#[trigger] autoload_spec(s, dir)[i]).0 && s[j].1.enabled,
        forall|j: int|
            0 <= j < s.len() && (#[trigger] s[j]).1.enabled ==> exists|i: int|
                0 <= i < autoload_spec(s, dir).len() && autoload_spec(s, dir)[i].0 == s[j].0,
    decreases s.len(),
{
    if s.len() == 0 {
        assert(autoload_spec(s, dir).len() == 0);
    } else {
        let d = s.drop_last();
        lemma_autoload_mounts_exactly_the_enabled(d, dir);
        let r = autoload_spec(d, dir);
        let a = autoload_spec(s, dir);
        assert forall|i: int| 0 <= i < a.len() implies exists|j: int|
            0 <= j < s.len() && s[j].0 == (#[trigger] a[i]).0 && s[j].1.enabled by {
            if i < r.len() {
                assert(a[i] == r[i]);
                let j = choose|j: int| 0 <= j < d.len() && d[j].0 == r[i].0 && d[j].1.enabled;
                assert(s[j] == d[j]);
                assert(s[j].0 == a[i].0 && s[j].1.enabled);
            } else {
                assert(s.last().1.enabled);
                assert(a[i] == (s.last().0, joined_path(dir, s.last().1.path), config_or_null(s.last().1.config)));
                assert(s[s.len() - 1].0 == a[i].0 && s[s.len() - 1].1.enabled);
            }
        }
        assert forall|j: int| 0 <= j < s.len() && (#[trigger] s[j]).1.enabled implies exists|i: int|
            0 <= i < a.len() && a[i].0 == s[j].0 by {
            if j < d.len() {
                assert(d[j] == s[j]);
                let i = choose|i: int| 0 <= i < r.len() && r[i].0 == d[j].0;
                assert(a[i] == r[i]);
            } else {
                assert(a[a.len() - 1].0 == s[j].0);
            }
        }
    }
}

proof fn lemma_with_available_prefix(rows: Seq<CatalogEntryV>, qs: Seq<(Seq<char>, Seq<char>)>, fs: Seq<FactsV>)
    ensures
        with_available(rows, qs, fs).len() >= rows.len(),
        forall|i: int| 0 <= i < rows.len() ==> #[trigger] with_available(rows, qs, fs)[i] == rows[i],
        forall|i: int|
            rows.len() <= i < with_available(rows, qs, fs).len() ==> forall|k: int|
                0 <= k < rows.len() ==> canon_of(fs, #[trigger] rows[k].path) != canon_of(
                    fs,
                    #[trigger] with_available(rows, qs, fs)[i].path,
                ),
    decreases qs.len(),
{
    if qs.len() > 0 {
        lemma_with_available_prefix(rows, qs.drop_last(), fs);
        let r = with_available(rows, qs.drop_last(), fs);
        let w = with_available(rows, qs, fs);
        let q = qs.last();
        if !has_canon(r, fs, canon_of(fs, q.1)) {
            assert forall|i: int| rows.len() <= i < w.len() implies forall|k: int|
                0 <= k < rows.len() ==> canon_of(fs, #[trigger] rows[k].path) != canon_of(
                    fs,
                    #[trigger] w[i].path,
                ) by {
                if i == w.len() - 1 {
                    assert forall|k: int| 0 <= k < rows.len() implies canon_of(fs, #[trigger] rows[k].path)
                        != canon_of(fs, w[i].path) by {
                        assert(r[k] == rows[k]);
                        if canon_of(fs, rows[k].path) == canon_of(fs, q.1) {
                            assert(has_canon(r, fs, canon_of(fs, q.1)));
                        }
                    }
                } else {
                    assert(w[i] == r[i]);
                }
            }
        }
    }
}

/// The catalog lists every configured plugin, running or not: its row
/// reads `stopped` and shows the persisted `enabled` when it is not running.
pub proof fn lemma_catalog_lists_configured(
    s: Plugins,
    dir: Seq<char>,
    rs: Seq<RunningV>,
    fs: Seq<FactsV>,
    qs: Seq<(Seq<char>, Seq<char>)>,
    j: int,
)
    requires
        0 <= j < s.len(),
    ensures
        catalog_spec(s, dir, rs, fs, qs).contains(config_row(s[j].0, s[j].1, dir, rs, fs)),
{
    let rows = config_rows(s, dir, rs, fs);
    let w = with_available(rows, qs, fs);
    let b = by_slot(w);
    let n = name_sort(b);
    lemma_with_available_prefix(rows, qs, fs);
    lemma_name_sort_same_entries(b);
    let x = config_row(s[j].0, s[j].1, dir, rs, fs);
    assert(w[j] == x);
    assert(b[j] == (x.slot, x));
    assert(b.contains((x.slot, x)));
    assert(n.contains((x.slot, x)));
    let i = choose|i: int| 0 <= i < n.len() && n[i] == (x.slot, x);
    assert(catalog_spec(s, dir, rs, fs, qs)[i] == x);
}

/// A discovered file is listed as available only when no configured
/// plugin has the same canonical path: a plugin that is configured (and
/// perhaps running) is never listed twice.
pub proof fn lemma_catalog_available_rows_are_new(
    rows: Seq<CatalogEntryV>,
    qs: Seq<(Seq<char>, Seq<char>)>,
    fs: Seq<FactsV>,
    i: int,
    k: int,
)
    requires
        rows.len() <= i < with_available(rows, qs, fs).len(),
        0 <= k < rows.len(),
    ensures
        canon_of(fs, rows[k].path) != canon_of(fs, with_available(rows, qs, fs)[i].path),
{
    lemma_with_available_prefix(rows, qs, fs);
}

/// The catalog is ordered by slot.
pub proof fn lemma_catalog_sorted(
    s: Plugins,
    dir: Seq<char>,
    rs: Seq<RunningV>,
    fs: Seq<FactsV>,
    qs: Seq<(Seq<char>, Seq<char>)>,
)
    ensures
        forall|i: int, j: int|
            0 <= i < j < catalog_spec(s, dir, rs, fs, qs).len() ==> !seq_lt(
                #[trigger] catalog_spec(s, dir, rs, fs, qs)[j].slot,
                #[trigger] catalog_spec(s, dir, rs, fs, qs)[i].slot,
            ),
{
    let w = with_available(config_rows(s, dir, rs, fs), qs, fs);
    let b = by_slot(w);
    let n = name_sort(b);
    let c = catalog_spec(s, dir, rs, fs, qs);
    lemma_name_sort_sorted(b);
    lemma_name_sort_same_entries(b);
    assert forall|i: int| 0 <= i < n.len() implies (#[trigger] n[i]).0 == n[i].1.slot by {
        assert(n.contains(n[i]));
        assert(b.contains(n[i]));
        let k = choose|k: int| 0 <= k < b.len() && b[k] == n[i];
        assert(b[k] == (w[k].slot, w[k]));
    }
    assert forall|i: int, j: int| 0 <= i < j < c.len() implies !seq_lt(#[trigger] c[j].slot, #[trigger] c[i].slot) by {
        assert(c[i] == n[i].1 && c[j] == n[j].1);
        assert(n[i].0 == n[i].1.slot);
        assert(n[j].0 == n[j].1.slot);
    }
}

/// Every file a scan found is a `.wasm` that no configured plugin has (by
/// canonical path), and the paths it took are exactly those it found.
pub open spec fn scan_ok(st: ScanV, configured: Seq<Seq<char>>, fs: Seq<FactsV>) -> bool {
    &&& forall|i: int|
        0 <= i < st.found.len() ==> extension_part((#[trigger] st.found[i]).1) == Some("wasm"@)
            && !configured.contains(canon_of(fs, st.found[i].1))
    &&& st.seen == st.found.map_values(|q: (Seq<char>, Seq<char>)| q.1)
}

proof fn lemma_scan_files_ok(st: ScanV, files: Seq<Seq<char>>, configured: Seq<Seq<char>>, fs: Seq<FactsV>)
    requires
        scan_ok(st, configured, fs),
    ensures
        scan_ok(scan_files(st, files, configured, fs), configured, fs),
    decreases files.len(),
{
    if files.len() > 0 {
        lemma_scan_files_ok(st, files.drop_last(), configured, fs);
        let r = scan_files(st, files.drop_last(), configured, fs);
        let f = files.last();
        if is_new_wasm(f, configured, r.seen, fs) {
            let t = scan_files(st, files, configured, fs);
            assert(t.seen =~= t.found.map_values(|q: (Seq<char>, Seq<char>)| q.1));
            assert forall|i: int| 0 <= i < t.found.len() implies extension_part(
                (#[trigger] t.found[i]).1,
            ) == Some("wasm"@) && !configured.contains(canon_of(fs, t.found[i].1)) by {
                if i < r.found.len() {
                    assert(t.found[i] == r.found[i]);
                }
            }
        }
    }
}

proof fn lemma_scan_roots_ok(ls: Seq<ListingV>, configured: Seq<Seq<char>>, fs: Seq<FactsV>)
    ensures
        scan_ok(scan_roots(ls, configured, fs).0, configured, fs),
    decreases ls.len(),
{
    if ls.len() == 0 {
        let st = scan_roots(ls, configured, fs).0;
        assert(st.seen =~= st.found.map_values(|q: (Seq<char>, Seq<char>)| q.1));
    } else {
        lemma_scan_roots_ok(ls.drop_last(), configured, fs);
        let st = scan_roots(ls.drop_last(), configured, fs).0;
        let start = ScanV { found: st.found, seen: st.seen, count: 0 };
        if ls.last().exists {
            lemma_scan_files_ok(start, ls.last().files, configured, fs);
        }
    }
}

/// Discovery offers only `.wasm` files that no configured plugin already
/// has (compared by canonical path, so a symlinked path is no way around it).
pub proof fn lemma_discovered_are_new_wasm(s: Plugins, ls: Seq<ListingV>, fs: Seq<FactsV>)
    ensures
        forall|i: int|
            0 <= i < discover_spec(s, ls, fs).0.len() ==> {
                let q = #[trigger] discover_spec(s, ls, fs).0[i];
                &&& extension_part(q.1) == Some("wasm"@)
                &&& !configured_canon(s, fs).contains(canon_of(fs, q.1))
            },
{
    let cfg = configured_canon(s, fs);
    let st = scan_roots(ls, cfg, fs).0;
    lemma_scan_roots_ok(ls, cfg, fs);
    let k = st.found.map_values(|q: (Seq<char>, Seq<char>)| (q.0, q));
    let n = name_sort(k);
    lemma_name_sort_same_entries(k);
    let out = discover_spec(s, ls, fs).0;
    assert forall|i: int| 0 <= i < out.len() implies {
        let q = #[trigger] out[i];
        &&& extension_part(q.1) == Some("wasm"@)
        &&& !cfg.contains(canon_of(fs, q.1))
    } by {
        assert(out[i] == n[i].1);
        assert(n.contains(n[i]));
        assert(k.contains(n[i]));
        let m = choose|m: int| 0 <= m < k.len() && k[m] == n[i];
        assert(k[m] == (st.found[m].0, st.found[m]));
    }
}

} // verus!
