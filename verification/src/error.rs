//! The studio's errors, and the message each one reads as.

use vstd::prelude::*;
use crate::text::{decimal, owned, push_decimal, push_str};

verus! {

/// Why a studio operation was refused.
#[derive(Debug)]
pub enum StudioError {
    /// A `/models` fetch with no base URL to fetch from.
    MissingBaseUrl,
    /// The slot has no entry in `studio.json`.
    SlotNotConfigured(String),
    /// The slot has no guest loaded.
    SlotNotLoaded(String),
    /// An agent was asked for on a route the LLM seam does not know.
    ProviderNotRegistered(String),
    /// No running plugin declares a window with this label.
    UnknownWindow(String),
    /// More than one window claims the launch view; the labels, in order.
    StartupConflict(Vec<String>),
    /// A stored session holds no events to resume from.
    EmptySession(String),
    /// No live agent has this id.
    NoAgent(String),
    /// A fiber (named by what it mounts) failed to start.
    FiberFailed(String),
    /// A failure reported by the runtime, the network or the file system,
    /// with its own message.
    Runtime(String),
}

/// `items` joined with `", "`.
pub open spec fn join_comma(items: Seq<Seq<char>>) -> Seq<char>
    decreases items.len(),
{
    if items.len() == 0 {
        Seq::empty()
    } else if items.len() == 1 {
        items[0]
    } else {
        join_comma(items.drop_last()) + ", "@ + items.last()
    }
}

impl StudioError {
    /// The message the error reads as.
    pub open spec fn message_spec(&self) -> Seq<char> {
        match self {
            StudioError::MissingBaseUrl => "missing base_url"@,
            StudioError::SlotNotConfigured(s) => "slot `"@ + s@ + "` is not in the config"@,
            StudioError::SlotNotLoaded(s) => "slot `"@ + s@ + "` is not loaded"@,
            StudioError::ProviderNotRegistered(p) => "LLM provider `"@ + p@
                + "` is not registered. Check base_url/api_key in settings, then retry."@,
            StudioError::UnknownWindow(l) => "no plugin declares a window labelled `"@ + l@ + "`"@,
            StudioError::StartupConflict(labels) => decimal(labels@.len())
                + " plugins declare a startup window ("@ + join_comma(
                labels@.map_values(|s: String| s@),
            )
                + "); only one may own the launch view — the winner would otherwise depend on load order"@,
            StudioError::EmptySession(id) => "session `"@ + id@ + "` has no events"@,
            StudioError::NoAgent(id) => "no agent `"@ + id@ + "`"@,
            StudioError::FiberFailed(what) => what@ + " fiber failed to start"@,
            StudioError::Runtime(m) => m@,
        }
    }

    /// The message the error reads as.
    pub fn message(&self) -> (m: String)
        ensures
            m@ == self.message_spec(),
    {
        match self {
            StudioError::MissingBaseUrl => owned("missing base_url"),
            StudioError::SlotNotConfigured(s) => wrap("slot `", s, "` is not in the config"),
            StudioError::SlotNotLoaded(s) => wrap("slot `", s, "` is not loaded"),
            StudioError::ProviderNotRegistered(p) => wrap(
                "LLM provider `",
                p,
                "` is not registered. Check base_url/api_key in settings, then retry.",
            ),
            StudioError::UnknownWindow(l) => wrap("no plugin declares a window labelled `", l, "`"),
            StudioError::StartupConflict(labels) => {
                let mut m = String::new();
                push_decimal(&mut m, labels.len() as u64);
                push_str(&mut m, " plugins declare a startup window (");
                let ghost views = labels@.map_values(|s: String| s@);
                let ghost start = m@;
                let mut i: usize = 0;
                while i < labels.len()
                    invariant
                        i <= labels.len(),
                        views == labels@.map_values(|s: String| s@),
                        m@ == start + join_comma(views.take(i as int)),
                    decreases labels.len() - i,
                {
                    assert(views.take(i + 1).drop_last() =~= views.take(i as int));
                    assert(views.take(i + 1).last() == labels@[i as int]@);
                    if i > 0 {
                        push_str(&mut m, ", ");
                    } else {
                        assert(views.take(0) =~= Seq::<Seq<char>>::empty());
                    }
                    push_str(&mut m, labels[i].as_str());
                    assert(m@ =~= start + join_comma(views.take(i + 1)));
                    i += 1;
                }
                assert(views.take(i as int) =~= views);
                push_str(
                    &mut m,
                    "); only one may own the launch view — the winner would otherwise depend on load order",
                );
                assert(Seq::<char>::empty() + decimal(labels@.len()) =~= decimal(labels@.len()));
                m
            },
            StudioError::EmptySession(id) => wrap("session `", id, "` has no events"),
            StudioError::NoAgent(id) => wrap("no agent `", id, "`"),
            StudioError::FiberFailed(what) => {
                let mut m = what.clone();
                push_str(&mut m, " fiber failed to start");
                m
            },
            StudioError::Runtime(m) => m.clone(),
        }
    }
}

/// `before + middle + after`.
pub fn wrap(before: &str, middle: &String, after: &str) -> (r: String)
    ensures
        r@ == before@ + middle@ + after@,
{
    let mut r = owned(before);
    push_str(&mut r, middle.as_str());
    push_str(&mut r, after);
    r
}

} // verus!
