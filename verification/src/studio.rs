//! The studio's own state, beside the desired plugin config: which slots have a
//! fiber mounted, which windows are open for which plugin, the params waiting
//! for a window, the windows asked for before they could open, the resumed
//! agents, and the cached rows of the sessions on disk.
//!
//! The handles behind it (the fibers, the agents) are whatever the runtime
//! uses; the studio keeps them keyed and hands them back. Every change goes
//! through a method here, so the bookkeeping rules are stated once.

use vstd::prelude::*;
use crate::chat::{AgentRow, AgentRowV};
use crate::error::StudioError;
use crate::json::{Json, JsonV};
use crate::llm::{contains_str, str_views};
use crate::plugins::{find, lemma_find, lemma_put, lemma_remove, lookup, put_spec, remove_spec, slots_unique};
use crate::text::{decimal, digit_char, owned, push_decimal, push_str, str_eq};
use crate::windows::{auto_labels, auto_window_labels, window_views, PluginWindow};

verus! {

broadcast use vstd::std_specs::vec::group_vec_axioms;

/// Keyed entries as plain values.
pub open spec fn keyed_strs(s: Seq<(String, String)>) -> Seq<(Seq<char>, Seq<char>)> {
    s.map_values(|p: (String, String)| (p.0@, p.1@))
}

pub open spec fn keyed_json(s: Seq<(String, Json)>) -> Seq<(Seq<char>, JsonV)> {
    s.map_values(|p: (String, Json)| (p.0@, p.1.view()))
}

pub open spec fn keys_of<T>(s: Seq<(String, T)>) -> Seq<(Seq<char>, ())> {
    s.map_values(|p: (String, T)| (p.0@, ()))
}

/// The windows `slot` owns among the open ones, in the order they opened.
pub open spec fn owned_by(s: Seq<(Seq<char>, Seq<char>)>, slot: Seq<char>) -> Seq<Seq<char>> {
    s.filter(|p: (Seq<char>, Seq<char>)| p.1 == slot).map_values(|p: (Seq<char>, Seq<char>)| p.0)
}

/// The open windows `slot` does not own.
pub open spec fn not_owned_by(s: Seq<(Seq<char>, Seq<char>)>, slot: Seq<char>) -> Seq<(Seq<char>, Seq<char>)> {
    s.filter(|p: (Seq<char>, Seq<char>)| p.1 != slot)
}

/// Where `key` is first found among keyed entries.
fn key_index<T>(v: &Vec<(String, T)>, key: &str) -> (r: Option<usize>)
    ensures
        match r {
            Some(i) => i < v@.len() && v@[i as int].0@ == key@ && forall|j: int|
                0 <= j < i ==> (#[trigger] v@[j]).0@ != key@,
            None => forall|j: int| 0 <= j < v@.len() ==> (#[trigger] v@[j]).0@ != key@,
        },
{
    let mut i: usize = 0;
    while i < v.len()
        invariant
            i <= v.len(),
            forall|j: int| 0 <= j < i ==> (#[trigger] v@[j]).0@ != key@,
        decreases v.len() - i,
    {
        if str_eq(v[i].0.as_str(), key) {
            return Some(i);
        }
        i += 1;
    }
    None
}

/// `find` over keyed entries answers as `key_index` does.
proof fn lemma_find_index<V>(s: Seq<(Seq<char>, V)>, key: Seq<char>, r: Option<usize>)
    requires
        match r {
            Some(i) => i < s.len() && s[i as int].0 == key && forall|j: int|
                0 <= j < i ==> (#[trigger] s[j]).0 != key,
            None => forall|j: int| 0 <= j < s.len() ==> (#[trigger] s[j]).0 != key,
        },
    ensures
        match r {
            Some(i) => find(s, key) == Some(i as int),
            None => find(s, key) is None,
        },
{
    lemma_find(s, key);
    match (r, find(s, key)) {
        (Some(i), Some(k)) => {
            if k < i {
                assert(s[k].0 != key);
            } else if k > i {
                assert(s[i as int].0 != key);
            }
        },
        (Some(i), None) => {
            assert(s[i as int].0 != key);
        },
        (None, Some(k)) => {
            assert(s[k].0 != key);
        },
        (None, None) => {},
    }
}

/// The studio's state; `F` is a mounted fiber's handle, `A` a resumed
/// agent's.
pub struct Studio<F = (), A = ()> {
    plugins_dir: String,
    config_path: String,
    /// Each mounted slot with its fiber, in mount order.
    mounted: Vec<(String, F)>,
    /// Agents resumed from a stored session, by id; no id twice.
    resumed: Vec<(String, A)>,
    /// Windows open on behalf of plugins: label and owning slot; no label twice.
    open_windows: Vec<(String, String)>,
    /// Params waiting for a window to open or be focused; no label twice.
    pending_params: Vec<(String, Json)>,
    /// Windows asked for before they could open; no label twice.
    wanted_windows: Vec<String>,
    /// Cached rows of the sessions on disk; `None` until scanned.
    stored_cache: Option<Vec<AgentRow>>,
    /// Handed out to new session ids.
    id_seq: u64,
    /// Whether the auto-reload watcher runs.
    watching: bool,
}

impl<F, A> Studio<F, A> {
    /// The state keeps its keys unique.
    #[verifier::type_invariant]
    spec fn wf(&self) -> bool {
        &&& slots_unique(keys_of(self.resumed@))
        &&& slots_unique(keyed_strs(self.open_windows@))
        &&& slots_unique(keyed_json(self.pending_params@))
        &&& str_views(self.wanted_windows@).no_duplicates()
    }

    pub closed spec fn mounted_slots(&self) -> Seq<Seq<char>> {
        self.mounted@.map_values(|p: (String, F)| p.0@)
    }

    pub closed spec fn resumed_ids(&self) -> Seq<(Seq<char>, ())> {
        keys_of(self.resumed@)
    }

    pub closed spec fn resumed_at(&self, i: int) -> A {
        self.resumed@[i].1
    }

    pub closed spec fn fiber_at(&self, i: int) -> F {
        self.mounted@[i].1
    }

    pub closed spec fn open_v(&self) -> Seq<(Seq<char>, Seq<char>)> {
        keyed_strs(self.open_windows@)
    }

    pub closed spec fn pending_v(&self) -> Seq<(Seq<char>, JsonV)> {
        keyed_json(self.pending_params@)
    }

    pub closed spec fn wanted_v(&self) -> Seq<Seq<char>> {
        str_views(self.wanted_windows@)
    }

    pub closed spec fn cache_v(&self) -> Option<Seq<AgentRowV>> {
        match self.stored_cache {
            Some(rows) => Some(rows@.map_values(|r: AgentRow| r@)),
            None => None,
        }
    }

    pub closed spec fn seq_v(&self) -> u64 {
        self.id_seq
    }

    pub closed spec fn plugins_dir_v(&self) -> Seq<char> {
        self.plugins_dir@
    }

    pub closed spec fn config_path_v(&self) -> Seq<char> {
        self.config_path@
    }

    pub closed spec fn watching_v(&self) -> bool {
        self.watching
    }

    /// `self` is what shutting `before` down leaves: no watcher, nothing
    /// mounted, and the rest as it was.
    pub open spec fn shut_down_from(&self, before: &Self) -> bool {
        &&& !self.watching_v()
        &&& self.mounted_slots().len() == 0
        &&& self.open_v() == before.open_v()
        &&& self.pending_v() == before.pending_v()
        &&& self.wanted_v() == before.wanted_v()
        &&& self.resumed_ids() == before.resumed_ids()
        &&& self.cache_v() == before.cache_v()
        &&& self.seq_v() == before.seq_v()
        &&& self.plugins_dir_v() == before.plugins_dir_v()
        &&& self.config_path_v() == before.config_path_v()
    }

    /// A fresh studio: nothing mounted, open, pending,
    /// wanted, resumed or cached.
    pub fn new(plugins_dir: String, config_path: String) -> (r: Self)
        ensures
            r.plugins_dir_v() == plugins_dir@,
            r.config_path_v() == config_path@,
            r.mounted_slots().len() == 0,
            r.resumed_ids().len() == 0,
            r.open_v().len() == 0,
            r.pending_v().len() == 0,
            r.wanted_v().len() == 0,
            r.cache_v() is None,
            r.seq_v() == 0,
            !r.watching_v(),
    {
        let r = Studio {
            plugins_dir,
            config_path,
            mounted: Vec::new(),
            resumed: Vec::new(),
            open_windows: Vec::new(),
            pending_params: Vec::new(),
            wanted_windows: Vec::new(),
            stored_cache: None,
            id_seq: 0,
            watching: false,
        };
        assert(r.mounted_slots() =~= Seq::<Seq<char>>::empty());
        assert(keys_of(r.resumed@) =~= Seq::<(Seq<char>, ())>::empty());
        assert(keyed_strs(r.open_windows@) =~= Seq::<(Seq<char>, Seq<char>)>::empty());
        assert(keyed_json(r.pending_params@) =~= Seq::<(Seq<char>, JsonV)>::empty());
        assert(str_views(r.wanted_windows@) =~= Seq::<Seq<char>>::empty());
        r
    }

    /// The app-data plugin directory.
    pub fn plugins_dir(&self) -> (r: &String)
        ensures
            r@ == self.plugins_dir_v(),
    {
        &self.plugins_dir
    }

    /// Where `studio.json` lives.
    pub fn config_path(&self) -> (r: &String)
        ensures
            r@ == self.config_path_v(),
    {
        &self.config_path
    }

    // -----------------------------------------------------------------------
    // Fibers
    // -----------------------------------------------------------------------

    /// Whether `slot` has a fiber mounted.
    pub fn is_mounted(&self, slot: &str) -> (r: bool)
        ensures
            r == self.mounted_slots().contains(slot@),
    {
        let r = key_index(&self.mounted, slot);
        proof {
            let ms = self.mounted_slots();
            match r {
                Some(i) => {
                    assert(ms[i as int] == slot@);
                },
                None => {
                    assert forall|j: int| 0 <= j < ms.len() implies ms[j] != slot@ by {
                        assert(self.mounted@[j].0@ != slot@);
                    }
                },
            }
        }
        r.is_some()
    }

    /// Record `slot`'s newly mounted fiber, after the others.
    pub fn add_fiber(&mut self, slot: String, fiber: F)
        ensures
            final(self).mounted_slots() == old(self).mounted_slots().push(slot@),
            final(self).fiber_at(old(self).mounted_slots().len() as int) == fiber,
            forall|i: int|
                0 <= i < old(self).mounted_slots().len() ==> #[trigger] final(self).fiber_at(i)
                    == old(self).fiber_at(i),
            final(self).open_v() == old(self).open_v(),
            final(self).pending_v() == old(self).pending_v(),
            final(self).wanted_v() == old(self).wanted_v(),
            final(self).resumed_ids() == old(self).resumed_ids(),
    {
        proof {
            use_type_invariant(&*self);
        }
        let ghost before = self.mounted_slots();
        let ghost k = slot@;
        let mut v: Vec<(String, F)> = Vec::new();
        std::mem::swap(&mut v, &mut self.mounted);
        v.push((slot, fiber));
        self.mounted = v;
        assert(self.mounted_slots() =~= before.push(k));
    }

    /// Take `slot`'s fiber out (the first one mounted for it), to dispose of.
    pub fn take_fiber(&mut self, slot: &str) -> (r: Option<F>)
        ensures
            match r {
                Some(f) => exists|i: int|
                    0 <= i < old(self).mounted_slots().len() && old(self).mounted_slots()[i] == slot@
                        && (forall|j: int| 0 <= j < i ==> old(self).mounted_slots()[j] != slot@)
                        && old(self).fiber_at(i) == f && final(self).mounted_slots()
                        == old(self).mounted_slots().remove(i),
                None => !old(self).mounted_slots().contains(slot@) && final(self).mounted_slots()
                    == old(self).mounted_slots(),
            },
            final(self).open_v() == old(self).open_v(),
            final(self).pending_v() == old(self).pending_v(),
            final(self).wanted_v() == old(self).wanted_v(),
            final(self).resumed_ids() == old(self).resumed_ids(),
    {
        proof {
            use_type_invariant(&*self);
        }
        let ghost ms = self.mounted_slots();
        match key_index(&self.mounted, slot) {
            Some(i) => {
                assert forall|j: int| 0 <= j < i implies ms[j] != slot@ by {
                    assert(self.mounted@[j].0@ != slot@);
                }
                let ghost before = self.mounted@;
                let mut v: Vec<(String, F)> = Vec::new();
                std::mem::swap(&mut v, &mut self.mounted);
                let (_, f) = v.remove(i);
                self.mounted = v;
                assert(self.mounted_slots() =~= ms.remove(i as int));
                assert(before[i as int].1 == f);
                assert(old(self).fiber_at(i as int) == f);
                assert(old(self).mounted_slots() == ms);
                assert(0 <= i < old(self).mounted_slots().len() && old(self).mounted_slots()[i as int]
                    == slot@ && (forall|j: int|
                    0 <= j < i ==> old(self).mounted_slots()[j] != slot@) && old(self).fiber_at(
                    i as int,
                ) == f && self.mounted_slots() == old(self).mounted_slots().remove(i as int));
                Some(f)
            },
            None => {
                assert forall|j: int| 0 <= j < ms.len() implies ms[j] != slot@ by {
                    assert(self.mounted@[j].0@ != slot@);
                }
                None
            },
        }
    }

    // -----------------------------------------------------------------------
    // The watcher and shutdown
    // -----------------------------------------------------------------------

    /// Whether the auto-reload watcher runs.
    pub fn is_watching(&self) -> (r: bool)
        ensures
            r == self.watching_v(),
    {
        self.watching
    }

    /// Mark the watcher started (`start_watch`); `false` when it already
    /// runs, so no second watcher starts.
    pub fn begin_watch(&mut self) -> (started: bool)
        ensures
            started == !old(self).watching_v(),
            final(self).watching_v(),
            final(self).mounted_slots() == old(self).mounted_slots(),
            final(self).open_v() == old(self).open_v(),
            final(self).pending_v() == old(self).pending_v(),
            final(self).wanted_v() == old(self).wanted_v(),
            final(self).resumed_ids() == old(self).resumed_ids(),
    {
        proof {
            use_type_invariant(&*self);
        }
        let started = !self.watching;
        self.watching = true;
        started
    }

    /// Mark the watcher stopped (`stop_watch`).
    pub fn end_watch(&mut self)
        ensures
            !final(self).watching_v(),
            final(self).mounted_slots() == old(self).mounted_slots(),
            final(self).open_v() == old(self).open_v(),
            final(self).pending_v() == old(self).pending_v(),
            final(self).wanted_v() == old(self).wanted_v(),
            final(self).resumed_ids() == old(self).resumed_ids(),
    {
        proof {
            use_type_invariant(&*self);
        }
        self.watching = false;
    }

    /// Shut down (`shutdown`): stop the watcher and take every fiber out, in
    /// mount order, to dispose of.
    pub fn shutdown(&mut self) -> (r: Vec<(String, F)>)
        ensures
            final(self).shut_down_from(old(self)),
            r@.map_values(|p: (String, F)| p.0@) == old(self).mounted_slots(),
            forall|i: int| 0 <= i < r@.len() ==> #[trigger] r@[i].1 == old(self).fiber_at(i),
    {
        proof {
            use_type_invariant(&*self);
        }
        self.watching = false;
        let mut taken: Vec<(String, F)> = Vec::new();
        std::mem::swap(&mut taken, &mut self.mounted);
        assert(self.mounted_slots() =~= Seq::<Seq<char>>::empty());
        taken
    }

    // -----------------------------------------------------------------------
    // Resumed agents
    // -----------------------------------------------------------------------

    /// The agent resumed under `id`.
    pub fn resumed(&self, id: &str) -> (r: Option<&A>)
        ensures
            match r {
                Some(a) => find(self.resumed_ids(), id@) matches Some(i) && self.resumed_at(i) == *a,
                None => find(self.resumed_ids(), id@) is None,
            },
    {
        let r = key_index(&self.resumed, id);
        proof {
            lemma_find_index(self.resumed_ids(), id@, r);
        }
        match r {
            Some(i) => Some(&self.resumed[i].1),
            None => None,
        }
    }

    /// Every resumed agent, by id, in the order they were resumed.
    pub fn resumed_agents(&self) -> (r: &Vec<(String, A)>)
        ensures
            keys_of(r@) == self.resumed_ids(),
            forall|i: int| 0 <= i < r@.len() ==> #[trigger] r@[i].1 == self.resumed_at(i),
    {
        &self.resumed
    }

    /// Hold `agent` as resumed under `id`, replacing one held under it.
    pub fn insert_resumed(&mut self, id: String, agent: A)
        ensures
            final(self).resumed_ids() == put_spec(old(self).resumed_ids(), id@, ()),
            find(final(self).resumed_ids(), id@) matches Some(i) && final(self).resumed_at(i) == agent,
            final(self).mounted_slots() == old(self).mounted_slots(),
            final(self).open_v() == old(self).open_v(),
            final(self).pending_v() == old(self).pending_v(),
            final(self).wanted_v() == old(self).wanted_v(),
    {
        proof {
            use_type_invariant(&*self);
        }
        let ghost ks = self.resumed_ids();
        let ghost k = id@;
        let r = key_index(&self.resumed, id.as_str());
        proof {
            lemma_find_index(ks, k, r);
            lemma_put(ks, k, ());
        }
        match r {
            Some(i) => {
                let mut v: Vec<(String, A)> = Vec::new();
                std::mem::swap(&mut v, &mut self.resumed);
                v.set(i, (id, agent));
                assert(keys_of(v@) =~= ks.update(i as int, (k, ())));
                self.resumed = v;
                proof {
                    crate::plugins::lemma_find_at(keys_of(self.resumed@), i as int);
                }
            },
            None => {
                let mut v: Vec<(String, A)> = Vec::new();
                std::mem::swap(&mut v, &mut self.resumed);
                v.push((id, agent));
                assert(keys_of(v@) =~= ks.push((k, ())));
                self.resumed = v;
                proof {
                    crate::plugins::lemma_find_at(keys_of(self.resumed@), ks.len() as int);
                }
            },
        }
    }

    /// Let go of the agent resumed under `id`, handing it back.
    pub fn remove_resumed(&mut self, id: &str) -> (r: Option<A>)
        ensures
            final(self).resumed_ids() == remove_spec(old(self).resumed_ids(), id@),
            match r {
                Some(a) => find(old(self).resumed_ids(), id@) matches Some(i) && old(self).resumed_at(i)
                    == a,
                None => find(old(self).resumed_ids(), id@) is None,
            },
            final(self).mounted_slots() == old(self).mounted_slots(),
            final(self).open_v() == old(self).open_v(),
            final(self).pending_v() == old(self).pending_v(),
            final(self).wanted_v() == old(self).wanted_v(),
    {
        proof {
            use_type_invariant(&*self);
        }
        let ghost ks = self.resumed_ids();
        let r = key_index(&self.resumed, id);
        proof {
            lemma_find_index(ks, id@, r);
            lemma_remove(ks, id@);
        }
        match r {
            Some(i) => {
                let mut v: Vec<(String, A)> = Vec::new();
                std::mem::swap(&mut v, &mut self.resumed);
                let (_, a) = v.remove(i);
                assert(keys_of(v@) =~= ks.remove(i as int));
                self.resumed = v;
                Some(a)
            },
            None => None,
        }
    }

    // -----------------------------------------------------------------------
    // Plugin windows
    // -----------------------------------------------------------------------

    /// Record that `label` is open on behalf of `slot`.
    pub fn note_window_open(&mut self, label: String, slot: String)
        ensures
            final(self).open_v() == put_spec(old(self).open_v(), label@, slot@),
            final(self).mounted_slots() == old(self).mounted_slots(),
            final(self).pending_v() == old(self).pending_v(),
            final(self).wanted_v() == old(self).wanted_v(),
            final(self).resumed_ids() == old(self).resumed_ids(),
    {
        proof {
            use_type_invariant(&*self);
        }
        let ghost s = self.open_v();
        let ghost (k, v) = (label@, slot@);
        let r = key_index(&self.open_windows, label.as_str());
        proof {
            lemma_find_index(s, k, r);
            lemma_put(s, k, v);
        }
        match r {
            Some(i) => {
                let mut w: Vec<(String, String)> = Vec::new();
                std::mem::swap(&mut w, &mut self.open_windows);
                w.set(i, (label, slot));
                assert(keyed_strs(w@) =~= s.update(i as int, (k, v)));
                self.open_windows = w;
            },
            None => {
                let mut w: Vec<(String, String)> = Vec::new();
                std::mem::swap(&mut w, &mut self.open_windows);
                w.push((label, slot));
                assert(keyed_strs(w@) =~= s.push((k, v)));
                self.open_windows = w;
            },
        }
    }

    /// Forget that `label` is open (`close_plugin_window`).
    pub fn forget_window(&mut self, label: &str)
        ensures
            final(self).open_v() == remove_spec(old(self).open_v(), label@),
            final(self).mounted_slots() == old(self).mounted_slots(),
            final(self).pending_v() == old(self).pending_v(),
            final(self).wanted_v() == old(self).wanted_v(),
            final(self).resumed_ids() == old(self).resumed_ids(),
    {
        proof {
            use_type_invariant(&*self);
        }
        let ghost s = self.open_v();
        let r = key_index(&self.open_windows, label);
        proof {
            lemma_find_index(s, label@, r);
            lemma_remove(s, label@);
        }
        match r {
            Some(i) => {
                let mut w: Vec<(String, String)> = Vec::new();
                std::mem::swap(&mut w, &mut self.open_windows);
                let _ = w.remove(i);
                assert(keyed_strs(w@) =~= s.remove(i as int));
                self.open_windows = w;
            },
            None => {},
        }
    }

    /// Forget every window `slot` owns, returning their labels in the order
    /// they opened (`close_plugin_windows`, which then closes them).
    pub fn take_windows_of(&mut self, slot: &str) -> (r: Vec<String>)
        ensures
            str_views(r@) == owned_by(old(self).open_v(), slot@),
            final(self).open_v() == not_owned_by(old(self).open_v(), slot@),
            final(self).mounted_slots() == old(self).mounted_slots(),
            final(self).pending_v() == old(self).pending_v(),
            final(self).wanted_v() == old(self).wanted_v(),
            final(self).resumed_ids() == old(self).resumed_ids(),
    {
        proof {
            use_type_invariant(&*self);
        }
        let ghost s = self.open_v();
        let mut rest: Vec<(String, String)> = Vec::new();
        std::mem::swap(&mut rest, &mut self.open_windows);
        let (labels, kept) = split_owned(rest, slot);
        proof {
            let t = keyed_strs(kept@);
            let theirs = |p: (Seq<char>, Seq<char>)| p.1 != slot@;
            assert(t == s.filter(theirs));
            assert forall|a: int, b: int| 0 <= a < b < t.len() implies #[trigger] t[a].0
                != #[trigger] t[b].0 by {
                lemma_filter_keeps_order(s, theirs, a, b);
            }
        }
        self.open_windows = kept;
        labels
    }

    /// The params queued for `label`.
    pub fn peek_pending_params(&self, label: &str) -> (r: Option<Json>)
        ensures
            match r {
                Some(j) => lookup(self.pending_v(), label@) == Some(j.view()),
                None => lookup(self.pending_v(), label@) is None,
            },
    {
        let r = key_index(&self.pending_params, label);
        proof {
            lemma_find_index(self.pending_v(), label@, r);
        }
        match r {
            Some(i) => Some(self.pending_params[i].1.duplicate()),
            None => None,
        }
    }

    /// Queue `params` for `label`, replacing any queued before.
    pub fn queue_window_params(&mut self, label: &str, params: Json)
        ensures
            final(self).pending_v() == put_spec(old(self).pending_v(), label@, params.view()),
            final(self).mounted_slots() == old(self).mounted_slots(),
            final(self).open_v() == old(self).open_v(),
            final(self).wanted_v() == old(self).wanted_v(),
            final(self).resumed_ids() == old(self).resumed_ids(),
    {
        proof {
            use_type_invariant(&*self);
        }
        let ghost s = self.pending_v();
        let ghost (k, v) = (label@, params.view());
        let r = key_index(&self.pending_params, label);
        proof {
            lemma_find_index(s, k, r);
            lemma_put(s, k, v);
        }
        match r {
            Some(i) => {
                let mut w: Vec<(String, Json)> = Vec::new();
                std::mem::swap(&mut w, &mut self.pending_params);
                w.set(i, (owned(label), params));
                assert(keyed_json(w@) =~= s.update(i as int, (k, v)));
                self.pending_params = w;
            },
            None => {
                let mut w: Vec<(String, Json)> = Vec::new();
                std::mem::swap(&mut w, &mut self.pending_params);
                w.push((owned(label), params));
                assert(keyed_json(w@) =~= s.push((k, v)));
                self.pending_params = w;
            },
        }
    }

    /// Hand over the params queued for `label`, forgetting them.
    pub fn take_pending_params(&mut self, label: &str) -> (r: Option<Json>)
        ensures
            match r {
                Some(j) => lookup(old(self).pending_v(), label@) == Some(j.view()),
                None => lookup(old(self).pending_v(), label@) is None,
            },
            final(self).pending_v() == remove_spec(old(self).pending_v(), label@),
            final(self).mounted_slots() == old(self).mounted_slots(),
            final(self).open_v() == old(self).open_v(),
            final(self).wanted_v() == old(self).wanted_v(),
            final(self).resumed_ids() == old(self).resumed_ids(),
    {
        proof {
            use_type_invariant(&*self);
        }
        let ghost s = self.pending_v();
        let r = key_index(&self.pending_params, label);
        proof {
            lemma_find_index(s, label@, r);
            lemma_remove(s, label@);
        }
        match r {
            Some(i) => {
                let mut w: Vec<(String, Json)> = Vec::new();
                std::mem::swap(&mut w, &mut self.pending_params);
                let (_, j) = w.remove(i);
                assert(keyed_json(w@) =~= s.remove(i as int));
                self.pending_params = w;
                Some(j)
            },
            None => None,
        }
    }

    /// Record that `label` should open (`request_window`); asking twice
    /// records it once.
    pub fn request_window(&mut self, label: &str)
        ensures
            final(self).wanted_v() == if old(self).wanted_v().contains(label@) {
                old(self).wanted_v()
            } else {
                old(self).wanted_v().push(label@)
            },
            final(self).mounted_slots() == old(self).mounted_slots(),
            final(self).open_v() == old(self).open_v(),
            final(self).pending_v() == old(self).pending_v(),
            final(self).resumed_ids() == old(self).resumed_ids(),
    {
        proof {
            use_type_invariant(&*self);
        }
        let l = owned(label);
        if !contains_str(&self.wanted_windows, &l) {
            let ghost before = self.wanted_v();
            let mut w: Vec<String> = Vec::new();
            std::mem::swap(&mut w, &mut self.wanted_windows);
            w.push(l);
            assert(str_views(w@) =~= before.push(label@));
            proof {
                let after = str_views(w@);
                assert forall|a: int, b: int| 0 <= a < b < after.len() implies after[a] != after[b] by {
                    if b == before.len() {
                        assert(before[a] != label@);
                    } else {
                        assert(before[a] != before[b]);
                    }
                }
            }
            self.wanted_windows = w;
        }
    }

    /// Record every `auto` window `slot` declares as wanted, in declaration
    /// order (`open_auto_windows`).
    pub fn request_auto_windows(&mut self, windows: &Vec<PluginWindow>, slot: &str)
        ensures
            final(self).wanted_v() == wanted_after(
                old(self).wanted_v(),
                auto_labels(window_views(windows@), slot@),
            ),
            final(self).mounted_slots() == old(self).mounted_slots(),
            final(self).open_v() == old(self).open_v(),
            final(self).pending_v() == old(self).pending_v(),
            final(self).resumed_ids() == old(self).resumed_ids(),
    {
        let labels = auto_window_labels(windows, slot);
        let ghost lv = str_views(labels@);
        let ghost start = self.wanted_v();
        let mut i: usize = 0;
        assert(lv.take(0) =~= Seq::<Seq<char>>::empty());
        while i < labels.len()
            invariant
                i <= labels.len(),
                lv == str_views(labels@),
                self.wanted_v() == wanted_after(start, lv.take(i as int)),
                self.mounted_slots() == old(self).mounted_slots(),
                self.open_v() == old(self).open_v(),
                self.pending_v() == old(self).pending_v(),
                self.resumed_ids() == old(self).resumed_ids(),
            decreases labels.len() - i,
        {
            assert(lv.take(i + 1).drop_last() =~= lv.take(i as int));
            self.request_window(labels[i].as_str());
            i += 1;
        }
        assert(lv.take(i as int) =~= lv);
    }

    /// Hand over every wanted window, in the order asked, forgetting them
    /// (`drain_wanted_windows`, once windows can open).
    pub fn take_wanted_windows(&mut self) -> (r: Vec<String>)
        ensures
            str_views(r@) == old(self).wanted_v(),
            final(self).wanted_v().len() == 0,
            final(self).mounted_slots() == old(self).mounted_slots(),
            final(self).open_v() == old(self).open_v(),
            final(self).pending_v() == old(self).pending_v(),
            final(self).resumed_ids() == old(self).resumed_ids(),
    {
        proof {
            use_type_invariant(&*self);
        }
        let mut taken: Vec<String> = Vec::new();
        std::mem::swap(&mut taken, &mut self.wanted_windows);
        assert(self.wanted_v() =~= Seq::<Seq<char>>::empty());
        taken
    }

    /// The windows asked for that have not opened yet
    /// (`windows_wanted_at_mount`).
    pub fn windows_wanted_at_mount(&self) -> (r: Vec<String>)
        ensures
            str_views(r@) == self.wanted_v(),
    {
        let mut out: Vec<String> = Vec::new();
        let mut i: usize = 0;
        while i < self.wanted_windows.len()
            invariant
                i <= self.wanted_windows.len(),
                str_views(out@) == self.wanted_v().take(i as int),
            decreases self.wanted_windows.len() - i,
        {
            let ghost before = str_views(out@);
            out.push(self.wanted_windows[i].clone());
            assert(str_views(out@) =~= before.push(self.wanted_v()[i as int]));
            assert(self.wanted_v().take(i + 1) =~= self.wanted_v().take(i as int).push(
                self.wanted_v()[i as int],
            ));
            i += 1;
        }
        assert(self.wanted_v().take(i as int) =~= self.wanted_v());
        out
    }

    // -----------------------------------------------------------------------
    // Stored sessions and ids
    // -----------------------------------------------------------------------

    /// The cached rows of the sessions on disk, if scanned since the last
    /// change.
    pub fn cached_stored_rows(&self) -> (r: Option<Vec<AgentRow>>)
        ensures
            match r {
                Some(rows) => self.cache_v() == Some(rows@.map_values(|x: AgentRow| x@)),
                None => self.cache_v() is None,
            },
    {
        match &self.stored_cache {
            Some(rows) => {
                let mut out: Vec<AgentRow> = Vec::new();
                let mut i: usize = 0;
                while i < rows.len()
                    invariant
                        i <= rows.len(),
                        out@.map_values(|x: AgentRow| x@) == rows@.map_values(|x: AgentRow| x@).take(
                            i as int,
                        ),
                    decreases rows.len() - i,
                {
                    let ghost before = out@.map_values(|x: AgentRow| x@);
                    let ghost rv = rows@.map_values(|x: AgentRow| x@);
                    out.push(rows[i].duplicate());
                    assert(out@.map_values(|x: AgentRow| x@) =~= before.push(rv[i as int]));
                    assert(rv.take(i + 1) =~= rv.take(i as int).push(rv[i as int]));
                    i += 1;
                }
                assert(rows@.map_values(|x: AgentRow| x@).take(i as int) =~= rows@.map_values(
                    |x: AgentRow| x@,
                ));
                Some(out)
            },
            None => None,
        }
    }

    /// Cache the rows of the sessions on disk.
    pub fn cache_stored_rows(&mut self, rows: Vec<AgentRow>)
        ensures
            final(self).cache_v() == Some(rows@.map_values(|x: AgentRow| x@)),
            final(self).mounted_slots() == old(self).mounted_slots(),
            final(self).open_v() == old(self).open_v(),
            final(self).pending_v() == old(self).pending_v(),
            final(self).wanted_v() == old(self).wanted_v(),
            final(self).resumed_ids() == old(self).resumed_ids(),
    {
        proof {
            use_type_invariant(&*self);
        }
        self.stored_cache = Some(rows);
    }

    /// Drop the cached rows; the next listing rescans
    /// (`invalidate_stored_cache`).
    pub fn invalidate_stored_cache(&mut self)
        ensures
            final(self).cache_v() is None,
            final(self).mounted_slots() == old(self).mounted_slots(),
            final(self).open_v() == old(self).open_v(),
            final(self).pending_v() == old(self).pending_v(),
            final(self).wanted_v() == old(self).wanted_v(),
            final(self).resumed_ids() == old(self).resumed_ids(),
    {
        proof {
            use_type_invariant(&*self);
        }
        self.stored_cache = None;
    }

    /// The next number for a new session id (counting up, wrapping).
    pub fn next_seq(&mut self) -> (r: u64)
        ensures
            r == old(self).seq_v(),
            final(self).seq_v() == if r == u64::MAX {
                0
            } else {
                (r + 1) as u64
            },
            final(self).mounted_slots() == old(self).mounted_slots(),
            final(self).open_v() == old(self).open_v(),
            final(self).pending_v() == old(self).pending_v(),
            final(self).wanted_v() == old(self).wanted_v(),
            final(self).resumed_ids() == old(self).resumed_ids(),
    {
        proof {
            use_type_invariant(&*self);
        }
        let n = self.id_seq;
        self.id_seq = if n == u64::MAX {
            0
        } else {
            n + 1
        };
        n
    }
}

/// Split open windows into the labels `slot` owns and the entries it does
/// not, both in order.
fn split_owned(v: Vec<(String, String)>, slot: &str) -> (r: (Vec<String>, Vec<(String, String)>))
    ensures
        str_views(r.0@) == owned_by(keyed_strs(v@), slot@),
        keyed_strs(r.1@) == not_owned_by(keyed_strs(v@), slot@),
{
    let ghost s = keyed_strs(v@);
    let ghost mine = |p: (Seq<char>, Seq<char>)| p.1 == slot@;
    let ghost theirs = |p: (Seq<char>, Seq<char>)| p.1 != slot@;
    let mut labels: Vec<String> = Vec::new();
    let mut kept: Vec<(String, String)> = Vec::new();
    let mut rest = v;
    let ghost all = rest@;
    let n = rest.len();
    assert(all.len() == n);
    let mut i: usize = 0;
    assert(s.take(0) =~= Seq::<(Seq<char>, Seq<char>)>::empty());
    while rest.len() > 0
        invariant
            i + rest.len() == all.len(),
            all.len() <= usize::MAX,
            rest@ == all.skip(i as int),
            s == keyed_strs(all),
            mine == (|p: (Seq<char>, Seq<char>)| p.1 == slot@),
            theirs == (|p: (Seq<char>, Seq<char>)| p.1 != slot@),
            str_views(labels@) == s.take(i as int).filter(mine).map_values(
                |p: (Seq<char>, Seq<char>)| p.0,
            ),
            keyed_strs(kept@) == s.take(i as int).filter(theirs),
        decreases rest.len(),
    {
        let e = rest.remove(0);
        assert(e == all[i as int]);
        assert(rest@ =~= all.skip(i + 1));
        proof {
            reveal_with_fuel(Seq::<_>::filter, 1);
            assert(s.take(i + 1).drop_last() =~= s.take(i as int));
            assert(s.take(i + 1).last() == (e.0@, e.1@));
        }
        if str_eq(e.1.as_str(), slot) {
            let ghost before = str_views(labels@);
            let ghost k = e.0@;
            labels.push(e.0);
            assert(str_views(labels@) =~= before.push(k));
            assert(s.take(i as int).filter(mine).push(s[i as int]).map_values(
                |p: (Seq<char>, Seq<char>)| p.0,
            ) =~= s.take(i as int).filter(mine).map_values(|p: (Seq<char>, Seq<char>)| p.0).push(k));
        } else {
            let ghost before = keyed_strs(kept@);
            let ghost kv = (e.0@, e.1@);
            kept.push(e);
            assert(keyed_strs(kept@) =~= before.push(kv));
        }
        i += 1;
    }
    assert(s.take(i as int) =~= s);
    (labels, kept)
}

/// Queued params reach their window once: queued params read back as
/// queued, are handed over by the next take, and a second take finds
/// nothing; no other window's params are touched.
pub proof fn lemma_params_delivered_once(s: Seq<(Seq<char>, JsonV)>, label: Seq<char>, params: JsonV, other: Seq<char>)
    requires
        slots_unique(s),
        other != label,
    ensures
        lookup(put_spec(s, label, params), label) == Some(params),
        lookup(remove_spec(put_spec(s, label, params), label), label) is None,
        lookup(remove_spec(put_spec(s, label, params), label), other) == lookup(s, other),
{
    lemma_put(s, label, params);
    lemma_remove(put_spec(s, label, params), label);
}

/// `wanted` after asking for each of `labels` in turn.
pub open spec fn wanted_after(wanted: Seq<Seq<char>>, labels: Seq<Seq<char>>) -> Seq<Seq<char>>
    decreases labels.len(),
{
    if labels.len() == 0 {
        wanted
    } else {
        let w = wanted_after(wanted, labels.drop_last());
        if w.contains(labels.last()) {
            w
        } else {
            w.push(labels.last())
        }
    }
}

/// Filtering keeps entries in their order: two kept entries come from two
/// entries in the same order.
proof fn lemma_filter_keeps_order(
    s: Seq<(Seq<char>, Seq<char>)>,
    p: spec_fn((Seq<char>, Seq<char>)) -> bool,
    a: int,
    b: int,
)
    requires
        slots_unique(s),
        0 <= a < b < s.filter(p).len(),
    ensures
        s.filter(p)[a].0 != s.filter(p)[b].0,
    decreases s.len(),
{
    reveal_with_fuel(Seq::<_>::filter, 1);
    let d = s.drop_last();
    assert forall|x: int, y: int| 0 <= x < y < d.len() implies #[trigger] d[x].0 != #[trigger] d[y].0 by {
        assert(d[x] == s[x] && d[y] == s[y]);
    }
    if p(s.last()) {
        if b == s.filter(p).len() - 1 {
            assert(s.filter(p)[b] == s.last());
            let fa = s.filter(p)[a];
            assert(fa == d.filter(p)[a]);
            assert(d.filter(p).contains(fa));
            d.lemma_filter_contains_rev(p, fa);
            let k = choose|k: int| 0 <= k < d.len() && d[k] == fa;
            assert(s[k] == fa);
            assert(s[k].0 != s[s.len() - 1].0);
        } else {
            lemma_filter_keeps_order(d, p, a, b);
        }
    } else {
        lemma_filter_keeps_order(d, p, a, b);
    }
}

/// The studio's one-line summary: its counts and what it runs.
pub struct StudioStatus {
    pub booted: bool,
    pub plugins_dir: String,
    pub config_path: String,
    pub slot_count: usize,
    /// Tools contributed by WASM plugins.
    pub wasm_tool_count: usize,
    /// Total tools on the harness registry (WASM and built-in).
    pub tool_count: usize,
    pub service_count: usize,
    /// Whether the auto-reload watcher is running.
    pub watching: bool,
    /// Registered LLM route names.
    pub providers: Vec<String>,
}

impl<F, A> Studio<F, A> {
    /// The dashboard summary (`status`): the harness's tool count when its
    /// tool registry answers, the WASM tool count otherwise.
    pub fn status(
        &self,
        slot_count: usize,
        wasm_tool_count: usize,
        harness_tool_count: Option<usize>,
        service_count: usize,
        watching: bool,
        providers: Vec<String>,
    ) -> (r: StudioStatus)
        ensures
            r.booted,
            r.plugins_dir@ == self.plugins_dir_v(),
            r.config_path@ == self.config_path_v(),
            r.slot_count == slot_count,
            r.wasm_tool_count == wasm_tool_count,
            r.tool_count == match harness_tool_count {
                Some(n) => n,
                None => wasm_tool_count,
            },
            r.service_count == service_count,
            r.watching == watching,
            r.providers@ == providers@,
    {
        StudioStatus {
            booted: true,
            plugins_dir: self.plugins_dir.clone(),
            config_path: self.config_path.clone(),
            slot_count,
            wasm_tool_count,
            tool_count: match harness_tool_count {
                Some(n) => n,
                None => wasm_tool_count,
            },
            service_count,
            watching,
            providers,
        }
    }
}

/// Whether an agent can be created on `provider`: the built-in `mock`
/// route always can, another only once registered.
pub open spec fn route_known(provider: Seq<char>, registered: Seq<Seq<char>>) -> bool {
    provider == "mock"@ || registered.contains(provider)
}

/// Refuse an agent on a route the LLM seam does not know (`create_agent`).
pub fn check_provider(provider: &String, registered: &Vec<String>) -> (r: Result<(), StudioError>)
    ensures
        route_known(provider@, str_views(registered@)) <==> r is Ok,
        r matches Err(StudioError::ProviderNotRegistered(p)) ==> p@ == provider@,
        r is Err ==> r matches Err(StudioError::ProviderNotRegistered(_)),
{
    proof {
        reveal_strlit("mock");
    }
    if str_eq(provider.as_str(), "mock") || contains_str(registered, provider) {
        Ok(())
    } else {
        Err(StudioError::ProviderNotRegistered(provider.clone()))
    }
}

// ---------------------------------------------------------------------------
// Waiting for a fiber to settle
// ---------------------------------------------------------------------------

/// A fiber's lifecycle state.
#[derive(Clone, Copy, Debug, PartialEq, Eq, Structural)]
pub enum FiberState {
    Loading,
    Active,
    Pending,
    Unloading,
    Failed,
    Disposed,
}

/// What to do after looking at a fiber's state while waiting for it.
#[derive(Clone, Copy, Debug, PartialEq, Eq, Structural)]
pub enum Settle {
    /// Proceed: it is active, or pending on a service that is not up yet
    /// (a supported state), or the wait ran out (which is no failure).
    Proceed,
    /// Look again after a short sleep.
    Wait,
    /// It failed to start.
    Failed,
}

/// One look at a fiber while waiting for it to settle (`join_bounded`):
/// active or pending proceeds at once, failed is an error, anything else
/// waits until the deadline has passed.
pub open spec fn settle_spec(state: FiberState, deadline_passed: bool) -> Settle {
    match state {
        FiberState::Active | FiberState::Pending => Settle::Proceed,
        FiberState::Failed => Settle::Failed,
        _ => if deadline_passed {
            Settle::Proceed
        } else {
            Settle::Wait
        },
    }
}

/// One look at a fiber while waiting for it to settle.
pub fn settle_step(state: FiberState, deadline_passed: bool) -> (r: Settle)
    ensures
        r == settle_spec(state, deadline_passed),
{
    match state {
        FiberState::Active | FiberState::Pending => Settle::Proceed,
        FiberState::Failed => Settle::Failed,
        _ => if deadline_passed {
            Settle::Proceed
        } else {
            Settle::Wait
        },
    }
}

// ---------------------------------------------------------------------------
// New session ids
// ---------------------------------------------------------------------------

/// `dsh_rs::types::now_ms`: the wall clock in milliseconds. Nothing is
/// stated of the value; it is the time.
#[verifier::external_body]
fn now_ms() -> (r: u64) {
    dsh_rs::types::now_ms()
}

/// The counter `j` steps after `start`, wrapping as a `u64` does.
pub open spec fn counter_at(start: u64, j: int) -> u64 {
    wrapped(start + j)
}

/// Some id minted with counter value `c` is among `pool`.
pub open spec fn id_taken_at(pool: Seq<Seq<char>>, c: u64) -> bool {
    exists|ms: u64| #[trigger] pool.contains(session_id_text(ms, c))
}

/// `r` is what minting gives from counter `start` against `pool`: the first
/// `k` counter values were each found taken, `r` carries the next one, and
/// the counter stands one past it.
pub open spec fn minted(pool: Seq<Seq<char>>, start: u64, k: nat, ms: u64, r: Seq<char>, after: u64) -> bool {
    &&& k <= pool.len()
    &&& r == session_id_text(ms, counter_at(start, k as int))
    &&& after == counter_at(start, k + 1int)
    &&& forall|j: int| 0 <= j < k ==> id_taken_at(pool, #[trigger] counter_at(start, j))
}

/// A session id: when it was minted and a counter breaking ties.
pub open spec fn session_id_text(ms: u64, n: u64) -> Seq<char> {
    "session-"@ + decimal(ms as nat) + "-"@ + decimal(n as nat)
}

/// `x` counted in a `u64` that wraps.
pub open spec fn wrapped(x: int) -> u64 {
    if x <= u64::MAX {
        x as u64
    } else {
        (x - u64::MAX - 1) as u64
    }
}

proof fn lemma_digit_char(d: nat)
    ensures
        digit_char(d) != '-',
        d < 10 ==> (digit_char(d) as u32) == 48 + d,
{
}

proof fn lemma_decimal_no_dash(n: nat)
    ensures
        forall|i: int| 0 <= i < decimal(n).len() ==> #[trigger] decimal(n)[i] != '-',
        decimal(n).len() >= 1,
    decreases n,
{
    lemma_digit_char(n % 10);
    lemma_digit_char(n);
    if n >= 10 {
        lemma_decimal_no_dash(n / 10);
        assert forall|i: int| 0 <= i < decimal(n).len() implies #[trigger] decimal(n)[i] != '-' by {
            if i < decimal(n / 10).len() {
                assert(decimal(n)[i] == decimal(n / 10)[i]);
            }
        }
    }
}

/// Different numbers render differently.
proof fn lemma_decimal_injective(a: nat, b: nat)
    requires
        decimal(a) == decimal(b),
    ensures
        a == b,
    decreases a,
{
    lemma_digit_char(a % 10);
    lemma_digit_char(b % 10);
    lemma_digit_char(a);
    lemma_digit_char(b);
    if a >= 10 && b >= 10 {
        lemma_decimal_no_dash(a / 10);
        lemma_decimal_no_dash(b / 10);
        assert(decimal(a / 10) =~= decimal(a).drop_last());
        assert(decimal(b / 10) =~= decimal(b).drop_last());
        lemma_decimal_injective(a / 10, b / 10);
        assert(decimal(a).last() == digit_char(a % 10));
        assert(decimal(b).last() == digit_char(b % 10));
        vstd::utf8::char_u32_cast(digit_char(a % 10), (48 + a % 10) as u32);
    } else if a >= 10 {
        lemma_decimal_no_dash(a / 10);
        assert(decimal(a).len() >= 2);
    } else if b >= 10 {
        lemma_decimal_no_dash(b / 10);
        assert(decimal(b).len() >= 2);
    } else {
        assert(decimal(a)[0] == digit_char(a));
        assert(decimal(b)[0] == digit_char(b));
    }
}

/// Shutting down twice is safe: a studio already shut down is left as it
/// is by shutting it down again, and gives no fiber to dispose.
pub proof fn lemma_shutdown_settles<F, A>(before: Studio<F, A>, after: Studio<F, A>)
    requires
        after.shut_down_from(&before),
    ensures
        after.shut_down_from(&after),
        after.mounted_slots().len() == 0,
{
}

/// Two ids with different counters differ, whenever they were minted.
pub proof fn lemma_session_ids_differ(ms1: u64, n1: u64, ms2: u64, n2: u64)
    requires
        n1 != n2,
    ensures
        session_id_text(ms1, n1) != session_id_text(ms2, n2),
{
    let (t1, t2) = (session_id_text(ms1, n1), session_id_text(ms2, n2));
    let (d1, d2) = (decimal(ms1 as nat), decimal(ms2 as nat));
    lemma_decimal_no_dash(ms1 as nat);
    lemma_decimal_no_dash(ms2 as nat);
    lemma_decimal_no_dash(n1 as nat);
    lemma_decimal_no_dash(n2 as nat);
    reveal_strlit("session-");
    reveal_strlit("-");
    if t1 == t2 {
        let (p1, p2) = (8 + d1.len(), 8 + d2.len());
        assert(t1[p1 as int] == '-');
        assert(t2[p2 as int] == '-');
        if d1.len() < d2.len() {
            assert(t2[p1 as int] == d2[d1.len() as int]);
        } else if d2.len() < d1.len() {
            assert(t1[p2 as int] == d1[d2.len() as int]);
        } else {
            assert(t1.skip(p1 as int + 1) =~= decimal(n1 as nat));
            assert(t2.skip(p2 as int + 1) =~= decimal(n2 as nat));
            lemma_decimal_injective(n1 as nat, n2 as nat);
        }
    }
}

/// Distinct entries all drawn from `pool` number no more than `pool` does.
proof fn lemma_distinct_within(tried: Seq<Seq<char>>, pool: Seq<Seq<char>>)
    requires
        tried.no_duplicates(),
        forall|i: int| 0 <= i < tried.len() ==> pool.contains(#[trigger] tried[i]),
    ensures
        tried.len() <= pool.len(),
{
    tried.unique_seq_to_set();
    assert(tried.to_set().subset_of(pool.to_set())) by {
        assert forall|x: Seq<char>| tried.to_set().contains(x) implies pool.to_set().contains(x) by {
            let i = choose|i: int| 0 <= i < tried.len() && tried[i] == x;
            assert(pool.contains(tried[i]));
        }
    }
    vstd::seq_lib::seq_to_set_is_finite(pool);
    vstd::set_lib::lemma_len_subset(tried.to_set(), pool.to_set());
    pool.lemma_cardinality_of_set();
}

fn session_id(ms: u64, n: u64) -> (r: String)
    ensures
        r@ == session_id_text(ms, n),
{
    let mut r = owned("session-");
    push_decimal(&mut r, ms);
    push_str(&mut r, "-");
    push_decimal(&mut r, n);
    r
}

impl<F, A> Studio<F, A> {
    /// An id for a new session that none of `taken` (the live agents, the
    /// resumed ones, the sessions on disk) uses (`new_session_id`):
    /// `session-<ms>-<n>`, the time it was minted and the next counter value.
    pub fn new_session_id(&mut self, taken: &Vec<String>) -> (r: String)
        ensures
            !str_views(taken@).contains(r@),
            exists|k: nat, ms: u64|
                #[trigger] minted(str_views(taken@), old(self).seq_v(), k, ms, r@, final(self).seq_v()),
            final(self).mounted_slots() == old(self).mounted_slots(),
            final(self).open_v() == old(self).open_v(),
            final(self).pending_v() == old(self).pending_v(),
            final(self).wanted_v() == old(self).wanted_v(),
            final(self).resumed_ids() == old(self).resumed_ids(),
    {
        let ghost pool = str_views(taken@);
        let ghost start = self.seq_v();
        let ghost mut tried: Seq<Seq<char>> = Seq::empty();
        let ghost mut ns: Seq<u64> = Seq::empty();
        let ghost mut mss: Seq<u64> = Seq::empty();
        loop
            invariant
                pool == str_views(taken@),
                start == old(self).seq_v(),
                pool.len() == taken.len(),
                tried.len() == ns.len(),
                mss.len() == ns.len(),
                tried.no_duplicates(),
                tried.len() <= pool.len(),
                forall|i: int| 0 <= i < tried.len() ==> pool.contains(#[trigger] tried[i]),
                forall|i: int| 0 <= i < tried.len() ==> #[trigger] tried[i] == session_id_text(mss[i], ns[i]),
                forall|i: int| 0 <= i < ns.len() ==> #[trigger] ns[i] == wrapped(start + i),
                forall|j: int| 0 <= j < ns.len() ==> id_taken_at(pool, #[trigger] counter_at(start, j)),
                self.seq_v() == wrapped(start + ns.len()),
                self.mounted_slots() == old(self).mounted_slots(),
                self.open_v() == old(self).open_v(),
                self.pending_v() == old(self).pending_v(),
                self.wanted_v() == old(self).wanted_v(),
                self.resumed_ids() == old(self).resumed_ids(),
            decreases pool.len() - tried.len(),
        {
            let n = self.next_seq();
            let ms = now_ms();
            let cand = session_id(ms, n);
            if !contains_str(taken, &cand) {
                proof {
                    assert(ns.len() <= usize::MAX);
                    assert(n == counter_at(start, ns.len() as int));
                    assert(self.seq_v() == counter_at(start, ns.len() + 1int));
                    assert(minted(pool, start, ns.len(), ms, cand@, self.seq_v()));
                }
                return cand;
            }
            proof {
                assert forall|i: int| 0 <= i < tried.len() implies tried[i] != cand@ by {
                    assert(tried[i] == session_id_text(mss[i], ns[i]));
                    assert(ns[i] == wrapped(start + i));
                    assert(n == wrapped(start + ns.len()));
                    assert(ns.len() <= usize::MAX);
                    assert(ns[i] != n);
                    lemma_session_ids_differ(mss[i], ns[i], ms, n);
                }
                let t2 = tried.push(cand@);
                assert forall|a: int, b: int| 0 <= a < b < t2.len() implies t2[a] != t2[b] by {
                    if b == tried.len() {
                        assert(t2[a] == tried[a]);
                    } else {
                        assert(t2[a] == tried[a] && t2[b] == tried[b]);
                    }
                }
                assert forall|i: int| 0 <= i < t2.len() implies pool.contains(#[trigger] t2[i]) by {
                    if i < tried.len() {
                        assert(t2[i] == tried[i]);
                    }
                }
                lemma_distinct_within(t2, pool);
                assert(pool.contains(session_id_text(ms, n)));
                assert(n == counter_at(start, ns.len() as int));
                assert(self.seq_v() == wrapped(start + ns.len() + 1));
                mss = mss.push(ms);
                ns = ns.push(n);
                tried = t2;
            }
        }
    }
}

} // verus!
