//! Tallies: summing `(key, amount)` items per key, and ranking `(key, count)`
//! rows by count (descending) then key (ascending).
use vstd::prelude::*;
use crate::sorting::{is_index_perm, key_lt, key_views, orders_keys, permute, sort_order, KeyView,
    RankKey, lemma_key_asymmetric, lemma_key_total};
use crate::text::{chars_of, str_eq};

verus! {

pub type Row = (Seq<char>, u32);

pub open spec fn row_view(r: (String, u32)) -> Row {
    (r.0@, r.1)
}

pub open spec fn rows_view(rs: Seq<(String, u32)>) -> Seq<Row> {
    rs.map_values(|r: (String, u32)| row_view(r))
}

/// Sum of the amounts recorded for key `k`.
pub open spec fn key_total(items: Seq<Row>, k: Seq<char>) -> int
    decreases items.len(),
{
    if items.len() == 0 {
        0
    } else {
        key_total(items.drop_last(), k) + if items.last().0 == k {
            items.last().1 as int
        } else {
            0
        }
    }
}

/// Whether key `k` occurs among `items`.
pub open spec fn key_present(items: Seq<Row>, k: Seq<char>) -> bool {
    exists|i: int| 0 <= i < items.len() && (#[trigger] items[i]).0 == k
}

/// Keys of `rs` are pairwise distinct.
pub open spec fn distinct_keys(rs: Seq<Row>) -> bool {
    forall|i: int, j: int| 0 <= i < j < rs.len() ==> (#[trigger] rs[i]).0 != (#[trigger] rs[j]).0
}

/// `r` holds, once each, every key present in `items` with its total.
pub open spec fn is_tally(r: Seq<Row>, items: Seq<Row>) -> bool {
    &&& distinct_keys(r)
    &&& forall|i: int| 0 <= i < r.len() ==> key_present(items, (#[trigger] r[i]).0)
        && r[i].1 == key_total(items, r[i].0)
    &&& forall|k: Seq<char>| key_present(items, k) ==> exists|i: int| 0 <= i < r.len() && (#[trigger] r[i]).0 == k
}

/// Every key's total fits in a `u32`.
pub open spec fn totals_fit(items: Seq<Row>) -> bool {
    forall|k: Seq<char>| key_total(items, k) <= u32::MAX
}

pub proof fn lemma_total_prefix_le(items: Seq<Row>, n: int, k: Seq<char>)
    requires
        0 <= n <= items.len(),
    ensures
        key_total(items.take(n), k) <= key_total(items, k),
    decreases items.len() - n,
{
    if n < items.len() {
        lemma_total_prefix_le(items, n + 1, k);
        assert(items.take(n + 1).drop_last() =~= items.take(n));
    } else {
        assert(items.take(n) =~= items);
    }
}

pub proof fn lemma_total_absent(items: Seq<Row>, k: Seq<char>)
    requires
        !key_present(items, k),
    ensures
        key_total(items, k) == 0,
    decreases items.len(),
{
    if items.len() > 0 {
        assert(!key_present(items.drop_last(), k)) by {
            if key_present(items.drop_last(), k) {
                let i = choose|i: int| 0 <= i < items.drop_last().len() && (#[trigger] items.drop_last()[i]).0 == k;
                assert(items[i].0 == k);
            }
        }
        lemma_total_absent(items.drop_last(), k);
        assert(items[items.len() - 1].0 != k);
    }
}

/// Sum the amounts of `items` per key; keys appear in first-seen order.
pub fn tally(items: &Vec<(String, u32)>) -> (r: Vec<(String, u32)>)
    requires
        totals_fit(rows_view(items@)),
    ensures
        is_tally(rows_view(r@), rows_view(items@)),
{
    let ghost iv = rows_view(items@);
    let mut r: Vec<(String, u32)> = Vec::new();
    let mut i: usize = 0;
    while i < items.len()
        invariant
            i <= items@.len(),
            iv == rows_view(items@),
            totals_fit(iv),
            is_tally(rows_view(r@), iv.take(i as int)),
        decreases items.len() - i,
    {
        let ghost pre = iv.take(i as int);
        let ghost post = iv.take(i + 1);
        assert(post.drop_last() =~= pre);
        assert(post.last() == iv[i as int]);
        let ghost rv0 = rows_view(r@);
        proof {
            lemma_total_prefix_le(iv, i + 1, iv[i as int].0);
        }
        let pos = find_row(&r, items[i].0.as_str());
        if pos.is_some() {
            let j = pos.unwrap();
            let (k, c) = (r[j].0.clone(), r[j].1);
            assert(rv0[j as int] == (k@, c));
            assert(c == key_total(pre, k@));
            assert(iv[i as int].0 == k@);
            assert(key_total(post, k@) == key_total(pre, k@) + iv[i as int].1);
            assert(c as int + items@[i as int].1 as int == key_total(post, k@));
            r.set(j, (k, c + items[i].1));
            proof {
                let rv = rows_view(r@);
                assert forall|a: int| 0 <= a < rv.len() implies key_present(post, (#[trigger] rv[a]).0)
                    && rv[a].1 == key_total(post, rv[a].0) by {
                    assert(rv0[a].0 == rv[a].0);
                    let w = choose|w: int| 0 <= w < pre.len() && (#[trigger] pre[w]).0 == rv0[a].0;
                    assert(post[w] == pre[w]);
                    if a != j {
                        assert(rv0[a].0 != rv0[j as int].0);
                    }
                }
                assert forall|kk: Seq<char>| key_present(post, kk) implies exists|a: int|
                    0 <= a < rv.len() && (#[trigger] rv[a]).0 == kk by {
                    let w = choose|w: int| 0 <= w < post.len() && (#[trigger] post[w]).0 == kk;
                    if w < pre.len() {
                        assert(pre[w] == post[w]);
                        assert(key_present(pre, kk));
                        let a = choose|a: int| 0 <= a < rv0.len() && (#[trigger] rv0[a]).0 == kk;
                        assert(rv[a].0 == kk);
                    } else {
                        assert(rv[j as int].0 == kk);
                    }
                }
                assert forall|a: int, b: int| 0 <= a < b < rv.len() implies (#[trigger] rv[a]).0
                    != (#[trigger] rv[b]).0 by {
                    assert(rv[a].0 == rv0[a].0 && rv[b].0 == rv0[b].0);
                }
            }
        } else {
            proof {
                assert(!key_present(pre, iv[i as int].0)) by {
                    if key_present(pre, iv[i as int].0) {
                        let a = choose|a: int| 0 <= a < rv0.len() && (#[trigger] rv0[a]).0 == iv[i as int].0;
                        assert(rv0[a].0 == r@[a].0@);
                    }
                }
                lemma_total_absent(pre, iv[i as int].0);
            }
            let k = items[i].0.clone();
            r.push((k, items[i].1));
            proof {
                let rv = rows_view(r@);
                assert(rv =~= rv0.push(iv[i as int]));
                assert forall|a: int| 0 <= a < rv.len() implies key_present(post, (#[trigger] rv[a]).0)
                    && rv[a].1 == key_total(post, rv[a].0) by {
                    if a < rv0.len() {
                        let w = choose|w: int| 0 <= w < pre.len() && (#[trigger] pre[w]).0 == rv0[a].0;
                        assert(post[w] == pre[w]);
                    } else {
                        assert(post[i as int] == iv[i as int]);
                    }
                }
                assert forall|kk: Seq<char>| key_present(post, kk) implies exists|a: int|
                    0 <= a < rv.len() && (#[trigger] rv[a]).0 == kk by {
                    let w = choose|w: int| 0 <= w < post.len() && (#[trigger] post[w]).0 == kk;
                    if w < pre.len() {
                        assert(pre[w] == post[w]);
                        assert(key_present(pre, kk));
                        let a = choose|a: int| 0 <= a < rv0.len() && (#[trigger] rv0[a]).0 == kk;
                        assert(rv[a].0 == kk);
                    } else {
                        assert(rv[rv0.len() as int].0 == kk);
                    }
                }
                assert forall|a: int, b: int| 0 <= a < b < rv.len() implies (#[trigger] rv[a]).0
                    != (#[trigger] rv[b]).0 by {
                    if b == rv0.len() {
                        if rv[a].0 == rv[b].0 {
                            assert(key_present(pre, iv[i as int].0)) by {
                                let w = choose|w: int| 0 <= w < pre.len() && (#[trigger] pre[w]).0 == rv0[a].0;
                            }
                        }
                    }
                }
            }
        }
        i += 1;
    }
    assert(iv.take(items@.len() as int) =~= iv);
    r
}

/// The index of the row whose key is `k`, if any.
pub fn find_row(r: &Vec<(String, u32)>, k: &str) -> (pos: Option<usize>)
    ensures
        match pos {
            Some(j) => j < r@.len() && r@[j as int].0@ == k@,
            None => forall|a: int| 0 <= a < r@.len() ==> (#[trigger] r@[a]).0@ != k@,
        },
{
    let mut j: usize = 0;
    while j < r.len()
        invariant
            j <= r@.len(),
            forall|a: int| 0 <= a < j ==> (#[trigger] r@[a]).0@ != k@,
        decreases r.len() - j,
    {
        if str_eq(r[j].0.as_str(), k) {
            return Some(j);
        }
        j += 1;
    }
    None
}

/// Rank key of a row: count descending, then key ascending.
pub open spec fn row_key(r: Row) -> KeyView {
    (-(r.1 as int), r.0, Seq::<char>::empty())
}

/// `r` is sorted by count descending, then key ascending.
pub open spec fn ranked(r: Seq<Row>) -> bool {
    forall|i: int, j: int| 0 <= i < j < r.len() ==> !key_lt(row_key(#[trigger] r[j]), row_key(#[trigger] r[i]))
}

/// `r` is a rearrangement of `s`.
pub open spec fn permutes<T>(r: Seq<T>, s: Seq<T>) -> bool {
    exists|p: Seq<usize>|
        is_index_perm(p, s.len()) && r.len() == s.len() && forall|i: int|
            0 <= i < r.len() ==> #[trigger] r[i] == s[p[i] as int]
}

/// Sort rows by count descending, then key ascending.
pub fn rank_rows(rows: Vec<(String, u32)>) -> (r: Vec<(String, u32)>)
    ensures
        permutes(rows_view(r@), rows_view(rows@)),
        ranked(rows_view(r@)),
{
    let ghost rv = rows_view(rows@);
    let mut keys: Vec<RankKey> = Vec::new();
    let mut i: usize = 0;
    while i < rows.len()
        invariant
            i <= rows@.len(),
            rv == rows_view(rows@),
            keys@.len() == i,
            forall|a: int| 0 <= a < i ==> (#[trigger] keys@[a])@ == row_key(rv[a]),
        decreases rows.len() - i,
    {
        let first = chars_of(rows[i].0.as_str());
        keys.push(RankKey { major: -(rows[i].1 as i128), first, second: Vec::new() });
        proof {
            assert(keys@[i as int]@.2 =~= Seq::<char>::empty());
        }
        i += 1;
    }
    let ord = sort_order(&keys);
    let ghost kv = key_views(keys@);
    let r = permute(rows, &ord);
    proof {
        let out = rows_view(r@);
        assert(is_index_perm(ord@, rv.len()));
        assert forall|a: int| 0 <= a < out.len() implies #[trigger] out[a] == rv[ord@[a] as int] by {}
        assert forall|a: int, b: int| 0 <= a < b < out.len() implies !key_lt(
            row_key(#[trigger] out[b]),
            row_key(#[trigger] out[a]),
        ) by {
            assert(kv[ord@[a] as int] == row_key(rv[ord@[a] as int]));
            assert(kv[ord@[b] as int] == row_key(rv[ord@[b] as int]));
        }
    }
    r
}

} // verus!

verus! {

/// A rearrangement of a tally is a tally.
pub proof fn lemma_tally_permute(r: Seq<Row>, s: Seq<Row>, items: Seq<Row>)
    requires
        is_tally(s, items),
        permutes(r, s),
        s.len() <= usize::MAX,
    ensures
        is_tally(r, items),
{
    let p = choose|p: Seq<usize>|
        is_index_perm(p, s.len()) && r.len() == s.len() && forall|i: int|
            0 <= i < r.len() ==> #[trigger] r[i] == s[p[i] as int];
    assert forall|i: int, j: int| 0 <= i < j < r.len() implies (#[trigger] r[i]).0 != (#[trigger] r[j]).0 by {
        assert(r[i] == s[p[i] as int] && r[j] == s[p[j] as int]);
        if p[i] < p[j] {
            assert(s[p[i] as int].0 != s[p[j] as int].0);
        } else {
            assert(s[p[j] as int].0 != s[p[i] as int].0);
        }
    }
    assert forall|i: int| 0 <= i < r.len() implies key_present(items, (#[trigger] r[i]).0)
        && r[i].1 == key_total(items, r[i].0) by {
        assert(r[i] == s[p[i] as int]);
    }
    assert forall|k: Seq<char>| key_present(items, k) implies exists|i: int| 0 <= i < r.len() && (#[trigger] r[i]).0 == k by {
        let a = choose|a: int| 0 <= a < s.len() && (#[trigger] s[a]).0 == k;
        // the index holding `a` in `p`
        lemma_perm_onto(p, s.len(), a);
        let i = choose|i: int| 0 <= i < p.len() && p[i] == a;
        assert(r[i] == s[a]);
    }
}

/// An index permutation hits every index.
pub proof fn lemma_perm_onto(p: Seq<usize>, n: nat, a: int)
    requires
        is_index_perm(p, n),
        0 <= a < n,
        n <= usize::MAX,
    ensures
        exists|i: int| 0 <= i < p.len() && p[i] == a,
{
    // p maps 0..n injectively into 0..n; count the values below n.
    let s = p.to_set();
    assert forall|x: usize| s.contains(x) implies x < n by {
        let i = choose|i: int| 0 <= i < p.len() && p[i] == x;
    }
    p.unique_seq_to_set();
    assert(s.len() == n) by {
        assert(p.no_duplicates()) by {
            assert forall|i: int, j: int| 0 <= i < p.len() && 0 <= j < p.len() && i != j implies p[i] != p[j] by {
                if i < j {
                } else {
                }
            }
        }
        p.unique_seq_to_set();
    }
    let full = Set::<usize>::new(|x: usize| x < n);
    assert(s.subset_of(full));
    lemma_range_set_len(n);
    assert(full.contains(a as usize));
    if !s.contains(a as usize) {
        assert(s.subset_of(full.remove(a as usize)));
        assert(full.remove(a as usize).len() == full.len() - 1);
        vstd::set_lib::lemma_len_subset(s, full.remove(a as usize));
        assert(false);
    }
    assert(p.contains(a as usize));
}

pub proof fn lemma_range_set_len(n: nat)
    ensures
        Set::<usize>::new(|x: usize| x < n).finite(),
        Set::<usize>::new(|x: usize| x < n).len() <= n,
    decreases n,
{
    let s = Set::<usize>::new(|x: usize| x < n);
    if n == 0 {
        assert(s =~= Set::<usize>::empty());
    } else {
        lemma_range_set_len((n - 1) as nat);
        let t = Set::<usize>::new(|x: usize| x < n - 1);
        if n - 1 <= usize::MAX {
            assert(s =~= t.insert((n - 1) as usize));
        } else {
            assert(s =~= t);
        }
    }
}

} // verus!
