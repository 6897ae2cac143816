//! Deterministic ordering: a three-part rank key (number, then two texts)
//! and a stable sort of indices by it.
use vstd::prelude::*;
use crate::text::{chars_lt, lemma_lex_asymmetric, lemma_lex_irreflexive, lemma_lex_total,
    lemma_lex_transitive, lex_lt};

verus! {

/// A sort key: ordered by `major` ascending, then `first`, then `second`
/// lexicographically.
pub struct RankKey {
    pub major: i128,
    pub first: Vec<char>,
    pub second: Vec<char>,
}

pub type KeyView = (int, Seq<char>, Seq<char>);

impl View for RankKey {
    type V = KeyView;

    open spec fn view(&self) -> KeyView {
        (self.major as int, self.first@, self.second@)
    }
}

/// Strict order on rank keys.
pub open spec fn key_lt(a: KeyView, b: KeyView) -> bool {
    a.0 < b.0 || (a.0 == b.0 && (lex_lt(a.1, b.1) || (a.1 == b.1 && lex_lt(a.2, b.2))))
}

pub proof fn lemma_key_transitive(a: KeyView, b: KeyView, c: KeyView)
    requires
        key_lt(a, b),
        key_lt(b, c),
    ensures
        key_lt(a, c),
{
    if a.0 == b.0 && b.0 == c.0 {
        if lex_lt(a.1, b.1) && lex_lt(b.1, c.1) {
            lemma_lex_transitive(a.1, b.1, c.1);
        } else if lex_lt(a.1, b.1) {
        } else if lex_lt(b.1, c.1) {
        } else {
            lemma_lex_transitive(a.2, b.2, c.2);
        }
    }
}

pub proof fn lemma_key_irreflexive(a: KeyView)
    ensures
        !key_lt(a, a),
{
    lemma_lex_irreflexive(a.1);
    lemma_lex_irreflexive(a.2);
}

pub proof fn lemma_key_asymmetric(a: KeyView, b: KeyView)
    ensures
        !(key_lt(a, b) && key_lt(b, a)),
{
    lemma_lex_asymmetric(a.1, b.1);
    lemma_lex_asymmetric(a.2, b.2);
    lemma_lex_irreflexive(a.1);
}

pub proof fn lemma_key_total(a: KeyView, b: KeyView)
    ensures
        key_lt(a, b) || key_lt(b, a) || (a.0 == b.0 && a.1 =~= b.1 && a.2 =~= b.2),
{
    lemma_lex_total(a.1, b.1);
    lemma_lex_total(a.2, b.2);
}

/// Exec comparison of two rank keys.
pub fn rank_lt(a: &RankKey, b: &RankKey) -> (r: bool)
    ensures
        r == key_lt(a@, b@),
{
    if a.major < b.major {
        return true;
    }
    if a.major > b.major {
        return false;
    }
    if chars_lt(&a.first, &b.first) {
        return true;
    }
    if chars_lt(&b.first, &a.first) {
        proof {
            lemma_lex_asymmetric(a.first@, b.first@);
        }
        return false;
    }
    proof {
        lemma_lex_total(a.first@, b.first@);
    }
    chars_lt(&a.second, &b.second)
}

/// `p` lists the indices `0..n` each exactly once.
pub open spec fn is_index_perm(p: Seq<usize>, n: nat) -> bool {
    &&& p.len() == n
    &&& forall|i: int| 0 <= i < p.len() ==> (#[trigger] p[i]) < n
    &&& forall|i: int, j: int| 0 <= i < j < p.len() ==> #[trigger] p[i] != #[trigger] p[j]
}

/// `p` orders the keys non-decreasingly.
pub open spec fn orders_keys(keys: Seq<KeyView>, p: Seq<usize>) -> bool {
    forall|i: int, j: int|
        0 <= i < j < p.len() ==> !key_lt(#[trigger] keys[p[j] as int], #[trigger] keys[p[i] as int])
}

/// Among equal keys, `p` keeps the original index order (stability).
pub open spec fn stable_on(keys: Seq<KeyView>, p: Seq<usize>) -> bool {
    forall|i: int, j: int|
        0 <= i < j < p.len() && #[trigger] keys[p[i] as int] == #[trigger] keys[p[j] as int]
            ==> p[i] < p[j]
}

pub open spec fn key_views(keys: Seq<RankKey>) -> Seq<KeyView> {
    keys.map_values(|k: RankKey| k@)
}

/// A stable sort of the indices of `keys` by key.
pub fn sort_order(keys: &Vec<RankKey>) -> (ord: Vec<usize>)
    ensures
        is_index_perm(ord@, keys@.len()),
        orders_keys(key_views(keys@), ord@),
        stable_on(key_views(keys@), ord@),
{
    let ghost kv = key_views(keys@);
    let mut ord: Vec<usize> = Vec::new();
    let mut k: usize = 0;
    while k < keys.len()
        invariant
            k <= keys@.len(),
            kv == key_views(keys@),
            ord@.len() == k,
            forall|i: int| 0 <= i < ord@.len() ==> (#[trigger] ord@[i]) < k,
            forall|i: int, j: int| 0 <= i < j < ord@.len() ==> #[trigger] ord@[i] != #[trigger] ord@[j],
            orders_keys(kv, ord@),
            stable_on(kv, ord@),
        decreases keys.len() - k,
    {
        // Insert after every element not greater than keys[k] (stable).
        let mut p: usize = ord.len();
        while p > 0 && rank_lt(&keys[k], &keys[ord[p - 1]])
            invariant
                p <= ord@.len(),
                k < keys@.len(),
                kv == key_views(keys@),
                forall|i: int| 0 <= i < ord@.len() ==> (#[trigger] ord@[i]) < k,
                forall|i: int| p <= i < ord@.len() ==> key_lt(kv[k as int], #[trigger] kv[ord@[i] as int]),
            decreases p,
        {
            p -= 1;
        }
        proof {
            // Everything before p is not greater than the new key.
            assert forall|i: int| 0 <= i < p implies !key_lt(kv[k as int], #[trigger] kv[ord@[i] as int]) by {
                if p > 0 {
                    assert(!key_lt(kv[k as int], kv[ord@[p - 1] as int]));
                    if i < p - 1 && key_lt(kv[k as int], kv[ord@[i] as int]) {
                        // kv[ord[i]] <= kv[ord[p-1]] and kv[k] < kv[ord[i]]
                        assert(!key_lt(kv[ord@[p - 1] as int], kv[ord@[i] as int]));
                        lemma_key_total(kv[ord@[i] as int], kv[ord@[p - 1] as int]);
                        if key_lt(kv[ord@[i] as int], kv[ord@[p - 1] as int]) {
                            lemma_key_transitive(kv[k as int], kv[ord@[i] as int], kv[ord@[p - 1] as int]);
                        } else {
                            assert(kv[ord@[i] as int] =~= kv[ord@[p - 1] as int]);
                        }
                    }
                }
            }
        }
        let ghost old_ord = ord@;
        ord.insert(p, k);
        proof {
            assert(ord@ =~= old_ord.take(p as int).push(k).add(old_ord.skip(p as int)));
            assert forall|i: int, j: int| 0 <= i < j < ord@.len() implies !key_lt(
                #[trigger] kv[ord@[j] as int],
                #[trigger] kv[ord@[i] as int],
            ) by {
                if i < p && j < p {
                    assert(ord@[i] == old_ord[i] && ord@[j] == old_ord[j]);
                } else if i < p && j == p {
                } else if i < p && j > p {
                    assert(ord@[i] == old_ord[i] && ord@[j] == old_ord[j - 1]);
                } else if i == p {
                    assert(ord@[j] == old_ord[j - 1]);
                    lemma_key_asymmetric(kv[k as int], kv[old_ord[j - 1] as int]);
                } else {
                    assert(ord@[i] == old_ord[i - 1] && ord@[j] == old_ord[j - 1]);
                }
            }
            assert forall|i: int, j: int| 0 <= i < j < ord@.len() implies #[trigger] ord@[i]
                != #[trigger] ord@[j] by {
                if i < p && j < p {
                    assert(ord@[i] == old_ord[i] && ord@[j] == old_ord[j]);
                } else if i < p && j > p {
                    assert(ord@[i] == old_ord[i] && ord@[j] == old_ord[j - 1]);
                } else if i < p && j == p {
                    assert(ord@[i] == old_ord[i]);
                } else if i == p {
                    assert(ord@[j] == old_ord[j - 1]);
                } else {
                    assert(ord@[i] == old_ord[i - 1] && ord@[j] == old_ord[j - 1]);
                }
            }
            assert forall|i: int, j: int|
                0 <= i < j < ord@.len() && #[trigger] kv[ord@[i] as int] == #[trigger] kv[ord@[j] as int]
                implies ord@[i] < ord@[j] by {
                if i < p && j < p {
                    assert(ord@[i] == old_ord[i] && ord@[j] == old_ord[j]);
                } else if i < p && j > p {
                    assert(ord@[i] == old_ord[i] && ord@[j] == old_ord[j - 1]);
                } else if i < p && j == p {
                    assert(ord@[i] == old_ord[i]);
                } else if i == p {
                    assert(ord@[j] == old_ord[j - 1]);
                    lemma_key_irreflexive(kv[k as int]);
                } else {
                    assert(ord@[i] == old_ord[i - 1] && ord@[j] == old_ord[j - 1]);
                }
            }
            assert forall|i: int| 0 <= i < ord@.len() implies (#[trigger] ord@[i]) < k + 1 by {
                if i < p {
                    assert(ord@[i] == old_ord[i]);
                } else if i > p {
                    assert(ord@[i] == old_ord[i - 1]);
                }
            }
        }
        k += 1;
    }
    ord
}

/// `r` is `s` stably sorted by `key`.
pub open spec fn is_stable_sort<T>(r: Seq<T>, s: Seq<T>, key: spec_fn(T) -> KeyView) -> bool {
    exists|p: Seq<usize>|
        #![trigger is_index_perm(p, s.len())]
        is_index_perm(p, s.len()) && r.len() == s.len() && (forall|i: int|
            0 <= i < r.len() ==> #[trigger] r[i] == s[p[i] as int]) && (forall|i: int, j: int|
            0 <= i < j < r.len() ==> !key_lt(key(#[trigger] r[j]), key(#[trigger] r[i]))) && (
        forall|i: int, j: int|
            0 <= i < j < r.len() && key(#[trigger] r[i]) == key(#[trigger] r[j]) ==> p[i] < p[j])
}

/// Stably sort `items` by the given keys (`keys[i]` is the key of `items[i]`).
pub fn sort_by_keys<T>(items: Vec<T>, keys: &Vec<RankKey>, Ghost(key): Ghost<spec_fn(T) -> KeyView>) -> (r: Vec<T>)
    requires
        keys@.len() == items@.len(),
        forall|i: int| 0 <= i < keys@.len() ==> (#[trigger] keys@[i])@ == key(items@[i]),
    ensures
        is_stable_sort(r@, items@, key),
{
    let ghost s = items@;
    let ghost kv = key_views(keys@);
    let ord = sort_order(keys);
    let r = permute(items, &ord);
    proof {
        assert forall|i: int| 0 <= i < s.len() implies #[trigger] kv[i] == key(s[i]) by {}
        assert forall|i: int, j: int| 0 <= i < j < r@.len() implies !key_lt(key(#[trigger] r@[j]), key(#[trigger] r@[i])) by {
            assert(kv[ord@[i] as int] == key(s[ord@[i] as int]));
            assert(kv[ord@[j] as int] == key(s[ord@[j] as int]));
        }
        assert forall|i: int, j: int| 0 <= i < j < r@.len() && key(#[trigger] r@[i]) == key(#[trigger] r@[j]) implies ord@[i] < ord@[j] by {
            assert(kv[ord@[i] as int] == key(s[ord@[i] as int]));
            assert(kv[ord@[j] as int] == key(s[ord@[j] as int]));
        }
        assert(is_index_perm(ord@, s.len()));
    }
    r
}

/// `r` holds the elements of `items` in the order given by `ord`.
pub fn permute<T>(items: Vec<T>, ord: &Vec<usize>) -> (r: Vec<T>)
    requires
        is_index_perm(ord@, items@.len()),
    ensures
        r@.len() == items@.len(),
        forall|i: int| 0 <= i < r@.len() ==> #[trigger] r@[i] == items@[ord@[i] as int],
{
    let ghost orig = items@;
    let n = items.len();
    let mut slots: Vec<Option<T>> = Vec::new();
    for x in it: items
        invariant
            orig.len() == n,
            it.seq() == orig,
            slots@.len() == it.index(),
            forall|j: int| 0 <= j < slots@.len() ==> #[trigger] slots@[j] == Some(orig[j]),
    {
        slots.push(Some(x));
    }
    let mut r: Vec<T> = Vec::new();
    let mut i: usize = 0;
    while i < n
        invariant
            i <= n,
            n == orig.len(),
            slots@.len() == n,
            is_index_perm(ord@, n as nat),
            r@.len() == i,
            forall|a: int| 0 <= a < i ==> #[trigger] r@[a] == orig[ord@[a] as int],
            forall|a: int| i <= a < n ==> #[trigger] slots@[ord@[a] as int] == Some(orig[ord@[a] as int]),
        decreases n - i,
    {
        let j = ord[i];
        let taken = slots.remove(j);
        slots.insert(j, None);
        match taken {
            Some(x) => r.push(x),
            None => {
                assert(false);
            },
        }
        proof {
            assert forall|a: int| i + 1 <= a < n implies #[trigger] slots@[ord@[a] as int] == Some(orig[ord@[a] as int]) by {
                assert(ord@[a] != ord@[i as int]);
            }
        }
        i += 1;
    }
    r
}

} // verus!
