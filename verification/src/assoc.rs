//! Small association lists (`(key, value)` sequences, first match wins),
//! used for per-tab and per-host state in the session folds.
use vstd::prelude::*;

verus! {

/// `i` is the first position holding key `k`.
pub open spec fn first_at<K, V>(s: Seq<(K, V)>, k: K, i: int) -> bool {
    0 <= i < s.len() && s[i].0 == k && forall|a: int| 0 <= a < i ==> s[a].0 != k
}

/// The position of the first entry with key `k`.
pub open spec fn a_index<K, V>(s: Seq<(K, V)>, k: K) -> Option<int> {
    if exists|i: int| 0 <= i < s.len() && s[i].0 == k {
        Some(choose|i: int| #[trigger] first_at(s, k, i))
    } else {
        None
    }
}

/// The value of the first entry with key `k`.
pub open spec fn a_get<K, V>(s: Seq<(K, V)>, k: K) -> Option<V> {
    match a_index(s, k) {
        Some(i) => Some(s[i].1),
        None => None,
    }
}

/// Set key `k` to `v`: in place when present, else appended.
pub open spec fn a_put<K, V>(s: Seq<(K, V)>, k: K, v: V) -> Seq<(K, V)> {
    match a_index(s, k) {
        Some(i) => s.update(i, (k, v)),
        None => s.push((k, v)),
    }
}

/// Drop the first entry with key `k`, if any.
pub open spec fn a_del<K, V>(s: Seq<(K, V)>, k: K) -> Seq<(K, V)> {
    match a_index(s, k) {
        Some(i) => s.remove(i),
        None => s,
    }
}

pub proof fn lemma_first<K, V>(s: Seq<(K, V)>, k: K, j: int)
    requires
        0 <= j < s.len(),
        s[j].0 == k,
        forall|a: int| 0 <= a < j ==> s[a].0 != k,
    ensures
        a_index(s, k) == Some(j),
{
    assert(first_at(s, k, j));
    let i = choose|i: int| #[trigger] first_at(s, k, i);
    assert(first_at(s, k, i));
    if i < j {
        assert(s[i].0 != k);
    }
    if j < i {
        assert(s[j].0 != k);
    }
}

/// Some entry has key `k`: the first one is at a valid position.
pub proof fn lemma_present<K, V>(s: Seq<(K, V)>, k: K, j: int)
    requires
        0 <= j < s.len(),
        s[j].0 == k,
    ensures
        a_index(s, k) is Some,
        first_at(s, k, a_index(s, k)->0),
        a_del(s, k).len() == s.len() - 1,
    decreases j,
{
    if exists|a: int| 0 <= a < j && s[a].0 == k {
        let a = choose|a: int| 0 <= a < j && s[a].0 == k;
        lemma_present(s, k, a);
    } else {
        lemma_first(s, k, j);
    }
}

/// A found index is the first position of its key.
pub proof fn lemma_index_valid<K, V>(s: Seq<(K, V)>, k: K)
    requires
        a_index(s, k) is Some,
    ensures
        first_at(s, k, a_index(s, k)->0),
        a_del(s, k).len() == s.len() - 1,
{
    let j = choose|j: int| 0 <= j < s.len() && s[j].0 == k;
    lemma_present(s, k, j);
}

/// Setting a key grows the list by at most one entry.
pub proof fn lemma_put_len<K, V>(s: Seq<(K, V)>, k: K)
    ensures
        forall|v: V| #[trigger] a_put(s, k, v).len() <= s.len() + 1,
        forall|v: V| #[trigger] a_put(s, k, v).len() >= s.len(),
{
    if a_index(s, k) is Some {
        lemma_index_valid(s, k);
    }
}

pub proof fn lemma_absent<K, V>(s: Seq<(K, V)>, k: K)
    requires
        forall|a: int| 0 <= a < s.len() ==> s[a].0 != k,
    ensures
        a_index(s, k) is None,
{
}

/// The values of `s` mapped through `f`, keys kept.
pub open spec fn vmap<K, V, W>(s: Seq<(K, V)>, f: spec_fn(V) -> W) -> Seq<(K, W)> {
    s.map_values(|e: (K, V)| (e.0, f(e.1)))
}

/// Lookups and updates commute with mapping the values.
pub proof fn lemma_vmap<K, V, W>(s: Seq<(K, V)>, f: spec_fn(V) -> W, k: K, v: V)
    ensures
        a_index(vmap(s, f), k) == a_index(s, k),
        a_put(vmap(s, f), k, f(v)) == vmap(a_put(s, k, v), f),
        a_del(vmap(s, f), k) == vmap(a_del(s, k), f),
        a_get(vmap(s, f), k) == match a_get(s, k) {
            Some(x) => Some(f(x)),
            None => None,
        },
{
    let m = vmap(s, f);
    if exists|j: int| 0 <= j < s.len() && s[j].0 == k {
        let j = choose|j: int| 0 <= j < s.len() && s[j].0 == k;
        lemma_present(s, k, j);
        let i = a_index(s, k)->0;
        assert forall|a: int| 0 <= a < i implies m[a].0 != k by {
            assert(s[a].0 != k);
        }
        lemma_first(m, k, i);
        assert(a_put(m, k, f(v)) =~= vmap(a_put(s, k, v), f));
        assert(a_del(m, k) =~= vmap(a_del(s, k), f));
    } else {
        assert forall|a: int| 0 <= a < m.len() implies m[a].0 != k by {
            assert(s[a].0 != k);
        }
        lemma_absent(m, k);
        lemma_absent(s, k);
        assert(a_put(m, k, f(v)) =~= vmap(a_put(s, k, v), f));
    }
}

/// The index of the first entry whose key is tab `t`.
pub fn tab_index<V>(s: &Vec<(i64, V)>, t: i64) -> (r: Option<usize>)
    ensures
        match r {
            Some(j) => j < s@.len() && s@[j as int].0 == t && a_index(s@, t) == Some(j as int),
            None => a_index(s@, t) is None,
        },
{
    let mut j: usize = 0;
    while j < s.len()
        invariant
            j <= s@.len(),
            forall|a: int| 0 <= a < j ==> s@[a].0 != t,
        decreases s.len() - j,
    {
        if s[j].0 == t {
            proof {
                lemma_first(s@, t, j as int);
            }
            return Some(j);
        }
        j += 1;
    }
    proof {
        lemma_absent(s@, t);
    }
    None
}

/// Set tab `t` to `v`.
pub fn tab_put<V>(s: &mut Vec<(i64, V)>, t: i64, v: V)
    ensures
        final(s)@ == a_put(old(s)@, t, v),
{
    match tab_index(s, t) {
        Some(j) => {
            s.set(j, (t, v));
        },
        None => {
            s.push((t, v));
        },
    }
}

/// Remove tab `t`, returning its value.
pub fn tab_take<V>(s: &mut Vec<(i64, V)>, t: i64) -> (r: Option<V>)
    ensures
        final(s)@ == a_del(old(s)@, t),
        r == a_get(old(s)@, t),
{
    match tab_index(s, t) {
        Some(j) => {
            let e = s.remove(j);
            Some(e.1)
        },
        None => None,
    }
}

/// The smallest tab key of a non-empty list.
pub fn min_tab<V>(s: &Vec<(i64, V)>) -> (t: i64)
    requires
        s@.len() > 0,
    ensures
        exists|i: int| 0 <= i < s@.len() && s@[i].0 == t,
        forall|i: int| 0 <= i < s@.len() ==> t <= #[trigger] s@[i].0,
{
    let mut m = s[0].0;
    let mut j: usize = 1;
    while j < s.len()
        invariant
            1 <= j <= s@.len(),
            exists|i: int| 0 <= i < s@.len() && s@[i].0 == m,
            forall|i: int| 0 <= i < j ==> m <= #[trigger] s@[i].0,
        decreases s.len() - j,
    {
        if s[j].0 < m {
            m = s[j].0;
        }
        j += 1;
    }
    m
}


/// Reading a key just set gives the value set.
pub proof fn lemma_get_put_same<K, V>(s: Seq<(K, V)>, k: K, v: V)
    ensures
        a_get(a_put(s, k, v), k) == Some(v),
{
    match a_index(s, k) {
        Some(i) => {
            lemma_index_valid(s, k);
            let t = s.update(i, (k, v));
            lemma_first(t, k, i);
        },
        None => {
            let t = s.push((k, v));
            assert forall|a: int| 0 <= a < s.len() implies t[a].0 != k by {
                assert(t[a] == s[a]);
                if s[a].0 == k {
                    lemma_present(s, k, a);
                }
            }
            lemma_first(t, k, s.len() as int);
        },
    }
}

} // verus!
