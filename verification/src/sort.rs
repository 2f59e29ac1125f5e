//! Stable orderings the studio lists in: by name (ascending, as `String`
//! orders) and by time (newest first). Each keeps equal keys in the order
//! they came, as `sort_by` / `sort_by_key` do.

use vstd::prelude::*;
use crate::text::{lemma_seq_lt_asymmetric, lemma_seq_lt_transitive, seq_lt, str_lt};

verus! {

broadcast use vstd::std_specs::vec::group_vec_axioms;

// ---------------------------------------------------------------------------
// By name
// ---------------------------------------------------------------------------

/// Where an entry named `k` goes in `s`: before the first entry whose name
/// orders after `k`, so after every entry it ties with.
pub open spec fn name_pos<V>(s: Seq<(Seq<char>, V)>, k: Seq<char>) -> nat
    decreases s.len(),
{
    if s.len() == 0 {
        0
    } else if seq_lt(k, s[0].0) {
        0
    } else {
        1 + name_pos(s.drop_first(), k)
    }
}

/// `s` ordered by name, ties kept in the order they came.
pub open spec fn name_sort<V>(s: Seq<(Seq<char>, V)>) -> Seq<(Seq<char>, V)>
    decreases s.len(),
{
    if s.len() == 0 {
        s
    } else {
        let r = name_sort(s.drop_last());
        r.insert(name_pos(r, s.last().0) as int, s.last())
    }
}

/// No entry's name orders before an earlier one's.
pub open spec fn name_sorted<V>(s: Seq<(Seq<char>, V)>) -> bool {
    forall|i: int, j: int| 0 <= i < j < s.len() ==> !seq_lt(#[trigger] s[j].0, #[trigger] s[i].0)
}

/// Keyed entries as plain values.
pub open spec fn keyed_view<T: View>(s: Seq<(String, T)>) -> Seq<(Seq<char>, T::V)> {
    s.map_values(|p: (String, T)| (p.0@, p.1@))
}

proof fn lemma_name_pos<V>(s: Seq<(Seq<char>, V)>, k: Seq<char>)
    ensures
        name_pos(s, k) <= s.len(),
        forall|i: int| 0 <= i < name_pos(s, k) ==> !seq_lt(k, #[trigger] s[i].0),
        name_pos(s, k) < s.len() ==> seq_lt(k, s[name_pos(s, k) as int].0),
    decreases s.len(),
{
    if s.len() > 0 && !seq_lt(k, s[0].0) {
        lemma_name_pos(s.drop_first(), k);
        assert forall|i: int| 0 <= i < name_pos(s, k) implies !seq_lt(k, #[trigger] s[i].0) by {
            if i > 0 {
                assert(s[i] == s.drop_first()[i - 1]);
            }
        }
    }
}

proof fn lemma_name_pos_skip<V>(s: Seq<(Seq<char>, V)>, k: Seq<char>, j: int)
    requires
        0 <= j <= s.len(),
        forall|i: int| 0 <= i < j ==> !seq_lt(k, #[trigger] s[i].0),
    ensures
        name_pos(s, k) == j + name_pos(s.skip(j), k),
    decreases j,
{
    if j > 0 {
        assert(s.skip(1) =~= s.drop_first());
        lemma_name_pos_skip(s.drop_first(), k, j - 1);
        assert(s.drop_first().skip(j - 1) =~= s.skip(j));
    } else {
        assert(s.skip(0) =~= s);
    }
}

/// Putting an entry where `name_pos` says keeps a sorted list sorted.
proof fn lemma_name_insert_sorted<V>(r: Seq<(Seq<char>, V)>, x: (Seq<char>, V))
    requires
        name_sorted(r),
    ensures
        name_sorted(r.insert(name_pos(r, x.0) as int, x)),
{
    let p = name_pos(r, x.0) as int;
    lemma_name_pos(r, x.0);
    let t = r.insert(p, x);
    assert forall|i: int, j: int| 0 <= i < j < t.len() implies !seq_lt(
        #[trigger] t[j].0,
        #[trigger] t[i].0,
    ) by {
        if j < p {
            assert(t[i] == r[i] && t[j] == r[j]);
        } else if j == p {
            assert(t[i] == r[i]);
        } else if i == p {
            assert(t[j] == r[j - 1]);
            if seq_lt(r[j - 1].0, x.0) {
                if j - 1 == p {
                    lemma_seq_lt_asymmetric(x.0, r[p].0);
                } else {
                    assert(!seq_lt(r[j - 1].0, r[p].0));
                    lemma_seq_lt_transitive(r[j - 1].0, x.0, r[p].0);
                }
            }
        } else if i < p {
            assert(t[i] == r[i] && t[j] == r[j - 1]);
        } else {
            assert(t[i] == r[i - 1] && t[j] == r[j - 1]);
        }
    }
}

/// A list ordered by name is sorted: no name orders before an earlier one.
pub proof fn lemma_name_sort_sorted<V>(s: Seq<(Seq<char>, V)>)
    ensures
        name_sorted(name_sort(s)),
        name_sort(s).len() == s.len(),
    decreases s.len(),
{
    if s.len() > 0 {
        lemma_name_sort_sorted(s.drop_last());
        lemma_name_pos(name_sort(s.drop_last()), s.last().0);
        lemma_name_insert_sorted(name_sort(s.drop_last()), s.last());
    }
}

/// Ordering by name keeps exactly the entries it was given.
pub proof fn lemma_name_sort_same_entries<V>(s: Seq<(Seq<char>, V)>)
    ensures
        name_sort(s).len() == s.len(),
        forall|x: (Seq<char>, V)| #[trigger] name_sort(s).contains(x) <==> s.contains(x),
    decreases s.len(),
{
    if s.len() > 0 {
        let d = s.drop_last();
        lemma_name_sort_same_entries(d);
        let r = name_sort(d);
        let p = name_pos(r, s.last().0) as int;
        lemma_name_pos(r, s.last().0);
        let t = r.insert(p, s.last());
        r.insert_ensures(p, s.last());
        assert forall|x: (Seq<char>, V)| #[trigger] t.contains(x) <==> s.contains(x) by {
            if t.contains(x) {
                let i = choose|i: int| 0 <= i < t.len() && t[i] == x;
                if i < p {
                    assert(r[i] == x);
                    assert(r.contains(x));
                    let k = choose|k: int| 0 <= k < d.len() && d[k] == x;
                    assert(s[k] == x);
                } else if i == p {
                    assert(s[s.len() - 1] == x);
                } else {
                    assert(r[i - 1] == x);
                    assert(r.contains(x));
                    let k = choose|k: int| 0 <= k < d.len() && d[k] == x;
                    assert(s[k] == x);
                }
            }
            if s.contains(x) {
                let k = choose|k: int| 0 <= k < s.len() && s[k] == x;
                if k == s.len() - 1 {
                    assert(t[p] == x);
                } else {
                    assert(d[k] == x);
                    assert(d.contains(x));
                    assert(r.contains(x));
                    let i = choose|i: int| 0 <= i < r.len() && r[i] == x;
                    if i < p {
                        assert(t[i] == x);
                    } else {
                        assert(t[i + 1] == x);
                    }
                }
            }
        }
    }
}

/// Order keyed entries by name, stably.
pub fn sort_by_name<T: View>(v: Vec<(String, T)>) -> (r: Vec<(String, T)>)
    ensures
        keyed_view(r@) == name_sort(keyed_view(v@)),
{
    let ghost orig = v@;
    let mut rest = v;
    let mut out: Vec<(String, T)> = Vec::new();
    let mut i: usize = 0;
    let n = rest.len();
    assert(keyed_view(orig).take(0) =~= Seq::<(Seq<char>, T::V)>::empty());
    while rest.len() > 0
        invariant
            n == orig.len(),
            i + rest.len() == n,
            rest@ == orig.skip(i as int),
            keyed_view(out@) == name_sort(keyed_view(orig).take(i as int)),
        decreases rest.len(),
    {
        let x = rest.remove(0);
        assert(x == orig[i as int]);
        assert(rest@ =~= orig.skip(i + 1));
        let ghost kv = keyed_view(out@);
        let ghost k = x.0@;
        let mut j: usize = 0;
        while j < out.len() && !str_lt(x.0.as_str(), out[j].0.as_str())
            invariant
                j <= out.len(),
                kv == keyed_view(out@),
                k == x.0@,
                forall|m: int| 0 <= m < j ==> !seq_lt(k, #[trigger] kv[m].0),
            decreases out.len() - j,
        {
            j += 1;
        }
        proof {
            lemma_name_pos_skip(kv, k, j as int);
            if j < out.len() {
                assert(kv.skip(j as int)[0] == kv[j as int]);
            }
        }
        let ghost pushed = keyed_view(orig).take(i + 1);
        assert(pushed.drop_last() =~= keyed_view(orig).take(i as int));
        assert(pushed.last() == (x.0@, x.1@));
        out.insert(j, x);
        assert(keyed_view(out@) =~= kv.insert(j as int, (k, x.1@)));
        i += 1;
    }
    assert(keyed_view(orig).take(n as int) =~= keyed_view(orig));
    out
}

// ---------------------------------------------------------------------------
// Newest first
// ---------------------------------------------------------------------------

/// Where an entry stamped `t` goes in `s`: before the first entry that is
/// strictly older, so after every entry as new as it.
pub open spec fn time_pos<V>(s: Seq<(u64, V)>, t: u64) -> nat
    decreases s.len(),
{
    if s.len() == 0 {
        0
    } else if s[0].0 < t {
        0
    } else {
        1 + time_pos(s.drop_first(), t)
    }
}

/// `s` ordered newest first, ties kept in the order they came.
pub open spec fn time_sort<V>(s: Seq<(u64, V)>) -> Seq<(u64, V)>
    decreases s.len(),
{
    if s.len() == 0 {
        s
    } else {
        let r = time_sort(s.drop_last());
        r.insert(time_pos(r, s.last().0) as int, s.last())
    }
}

/// No entry is newer than an earlier one.
pub open spec fn newest_first<V>(s: Seq<(u64, V)>) -> bool {
    forall|i: int, j: int| 0 <= i < j < s.len() ==> #[trigger] s[j].0 <= #[trigger] s[i].0
}

/// Stamped entries as plain values.
pub open spec fn stamped_view<T: View>(s: Seq<(u64, T)>) -> Seq<(u64, T::V)> {
    s.map_values(|p: (u64, T)| (p.0, p.1@))
}

proof fn lemma_time_pos<V>(s: Seq<(u64, V)>, t: u64)
    ensures
        time_pos(s, t) <= s.len(),
        forall|i: int| 0 <= i < time_pos(s, t) ==> t <= #[trigger] s[i].0,
        time_pos(s, t) < s.len() ==> s[time_pos(s, t) as int].0 < t,
    decreases s.len(),
{
    if s.len() > 0 && !(s[0].0 < t) {
        lemma_time_pos(s.drop_first(), t);
        assert forall|i: int| 0 <= i < time_pos(s, t) implies t <= #[trigger] s[i].0 by {
            if i > 0 {
                assert(s[i] == s.drop_first()[i - 1]);
            }
        }
    }
}

proof fn lemma_time_pos_skip<V>(s: Seq<(u64, V)>, t: u64, j: int)
    requires
        0 <= j <= s.len(),
        forall|i: int| 0 <= i < j ==> t <= #[trigger] s[i].0,
    ensures
        time_pos(s, t) == j + time_pos(s.skip(j), t),
    decreases j,
{
    if j > 0 {
        assert(s.skip(1) =~= s.drop_first());
        lemma_time_pos_skip(s.drop_first(), t, j - 1);
        assert(s.drop_first().skip(j - 1) =~= s.skip(j));
    } else {
        assert(s.skip(0) =~= s);
    }
}

/// A list ordered newest first has no entry newer than an earlier one.
pub proof fn lemma_time_sort_newest_first<V>(s: Seq<(u64, V)>)
    ensures
        newest_first(time_sort(s)),
        time_sort(s).len() == s.len(),
    decreases s.len(),
{
    if s.len() > 0 {
        lemma_time_sort_newest_first(s.drop_last());
        let r = time_sort(s.drop_last());
        let x = s.last();
        let p = time_pos(r, x.0) as int;
        lemma_time_pos(r, x.0);
        let t = r.insert(p, x);
        assert forall|i: int, j: int| 0 <= i < j < t.len() implies #[trigger] t[j].0
            <= #[trigger] t[i].0 by {
            if j < p {
                assert(t[i] == r[i] && t[j] == r[j]);
            } else if j == p {
                assert(t[i] == r[i]);
            } else if i == p {
                assert(t[j] == r[j - 1]);
                assert(r[j - 1].0 <= r[p].0);
            } else if i < p {
                assert(t[i] == r[i] && t[j] == r[j - 1]);
            } else {
                assert(t[i] == r[i - 1] && t[j] == r[j - 1]);
            }
        }
    }
}

/// Order stamped entries newest first, stably.
pub fn sort_newest_first<T: View>(v: Vec<(u64, T)>) -> (r: Vec<(u64, T)>)
    ensures
        stamped_view(r@) == time_sort(stamped_view(v@)),
{
    let ghost orig = v@;
    let mut rest = v;
    let mut out: Vec<(u64, T)> = Vec::new();
    let mut i: usize = 0;
    let n = rest.len();
    assert(stamped_view(orig).take(0) =~= Seq::<(u64, T::V)>::empty());
    while rest.len() > 0
        invariant
            n == orig.len(),
            i + rest.len() == n,
            rest@ == orig.skip(i as int),
            stamped_view(out@) == time_sort(stamped_view(orig).take(i as int)),
        decreases rest.len(),
    {
        let x = rest.remove(0);
        assert(x == orig[i as int]);
        assert(rest@ =~= orig.skip(i + 1));
        let ghost sv = stamped_view(out@);
        let mut j: usize = 0;
        while j < out.len() && !(out[j].0 < x.0)
            invariant
                j <= out.len(),
                sv == stamped_view(out@),
                forall|m: int| 0 <= m < j ==> x.0 <= #[trigger] sv[m].0,
            decreases out.len() - j,
        {
            j += 1;
        }
        proof {
            lemma_time_pos_skip(sv, x.0, j as int);
            if j < out.len() {
                assert(sv.skip(j as int)[0] == sv[j as int]);
            }
        }
        let ghost pushed = stamped_view(orig).take(i + 1);
        assert(pushed.drop_last() =~= stamped_view(orig).take(i as int));
        assert(pushed.last() == (x.0, x.1@));
        out.insert(j, x);
        assert(stamped_view(out@) =~= sv.insert(j as int, (x.0, x.1@)));
        i += 1;
    }
    assert(stamped_view(orig).take(n as int) =~= stamped_view(orig));
    out
}

} // verus!
