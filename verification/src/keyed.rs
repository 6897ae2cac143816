//! Small keyed collections: vectors of `(String, V)` entries with distinct
//! keys, read as maps from key to value.
use vstd::prelude::*;
use crate::text::str_eq;

verus! {

/// Keys of `es` are pairwise distinct.
pub open spec fn keys_distinct<V>(es: Seq<(String, V)>) -> bool {
    forall|i: int, j: int| 0 <= i < j < es.len() ==> (#[trigger] es[i]).0@ != (#[trigger] es[j]).0@
}

/// The value recorded for key `k`, if any (the first match).
pub open spec fn lookup<V>(es: Seq<(String, V)>, k: Seq<char>) -> Option<V>
    decreases es.len(),
{
    if es.len() == 0 {
        None
    } else if es[0].0@ == k {
        Some(es[0].1)
    } else {
        lookup(es.drop_first(), k)
    }
}

pub proof fn lemma_lookup_at<V>(es: Seq<(String, V)>, i: int)
    requires
        keys_distinct(es),
        0 <= i < es.len(),
    ensures
        lookup(es, es[i].0@) == Some(es[i].1),
    decreases i,
{
    if i > 0 {
        assert(es[0].0@ != es[i].0@);
        assert(keys_distinct(es.drop_first())) by {
            assert forall|a: int, b: int| 0 <= a < b < es.drop_first().len() implies (#[trigger] es.drop_first()[a]).0@
                != (#[trigger] es.drop_first()[b]).0@ by {
                assert(es.drop_first()[a] == es[a + 1] && es.drop_first()[b] == es[b + 1]);
            }
        }
        lemma_lookup_at(es.drop_first(), i - 1);
    }
}

pub proof fn lemma_lookup_none<V>(es: Seq<(String, V)>, k: Seq<char>)
    requires
        forall|i: int| 0 <= i < es.len() ==> (#[trigger] es[i]).0@ != k,
    ensures
        lookup(es, k) is None,
    decreases es.len(),
{
    if es.len() > 0 {
        assert(es[0].0@ != k);
        assert forall|i: int| 0 <= i < es.drop_first().len() implies (#[trigger] es.drop_first()[i]).0@ != k by {
            assert(es.drop_first()[i] == es[i + 1]);
        }
        lemma_lookup_none(es.drop_first(), k);
    }
}

pub proof fn lemma_lookup_some<V>(es: Seq<(String, V)>, k: Seq<char>)
    requires
        lookup(es, k) is Some,
    ensures
        exists|i: int| 0 <= i < es.len() && (#[trigger] es[i]).0@ == k && es[i].1 == lookup(es, k)->0,
    decreases es.len(),
{
    if es[0].0@ != k {
        lemma_lookup_some(es.drop_first(), k);
        let i = choose|i: int| 0 <= i < es.drop_first().len() && (#[trigger] es.drop_first()[i]).0@ == k
            && es.drop_first()[i].1 == lookup(es.drop_first(), k)->0;
        assert(es[i + 1] == es.drop_first()[i]);
    } else {
        assert(es[0].0@ == k);
    }
}

/// The index of the entry with key `k`, if any.
pub fn find_key<V>(es: &Vec<(String, V)>, k: &str) -> (pos: Option<usize>)
    ensures
        match pos {
            Some(j) => j < es@.len() && es@[j as int].0@ == k@,
            None => forall|a: int| 0 <= a < es@.len() ==> (#[trigger] es@[a]).0@ != k@,
        },
{
    let mut j: usize = 0;
    while j < es.len()
        invariant
            j <= es@.len(),
            forall|a: int| 0 <= a < j ==> (#[trigger] es@[a]).0@ != k@,
        decreases es.len() - j,
    {
        if str_eq(es[j].0.as_str(), k) {
            return Some(j);
        }
        j += 1;
    }
    None
}

} // verus!
