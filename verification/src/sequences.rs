//! Frequent sequential patterns over per-tab chains (PrefixSpan): the
//! support of a pattern is the number of chains that contain it as a
//! subsequence.
use vstd::prelude::*;
use crate::flow::strs;
use crate::model::copy_strings;
use crate::project::contains_str;
use crate::text::{lemma_lex_irreflexive, lemma_lex_total, lemma_lex_transitive, lex_lt, str_eq, str_lt};

verus! {

/// A chain of hosts, as character sequences.
pub type Chain = Seq<Seq<char>>;

/// `p` occurs in `c` as a (not necessarily contiguous) subsequence.
pub open spec fn is_subseq(p: Chain, c: Chain) -> bool
    decreases c.len(),
{
    if p.len() == 0 {
        true
    } else if c.len() == 0 {
        false
    } else {
        is_subseq(p, c.drop_last()) || (c.last() == p.last() && is_subseq(p.drop_last(), c.drop_last()))
    }
}

/// Number of chains of `cv` that contain `p`.
pub open spec fn support(cv: Seq<Chain>, p: Chain) -> int
    decreases cv.len(),
{
    if cv.len() == 0 {
        0
    } else {
        support(cv.drop_last(), p) + if is_subseq(p, cv.last()) {
            1int
        } else {
            0
        }
    }
}

/// `e` is the shortest prefix length of `c` that contains `p`.
pub open spec fn is_gend(p: Chain, c: Chain, e: int) -> bool {
    &&& 0 <= e <= c.len()
    &&& is_subseq(p, c.take(e))
    &&& forall|k: int| 0 <= k < e ==> !is_subseq(p, #[trigger] c.take(k))
}

/// Extending a pattern by `x`: some occurrence of `x` follows an embedding
/// of the pattern.
pub proof fn lemma_subseq_push(p: Chain, x: Seq<char>, c: Chain, k: int)
    requires
        0 <= k <= c.len(),
    ensures
        is_subseq(p.push(x), c.take(k)) <==> exists|j: int| 0 <= j < k && c[j] == x && is_subseq(p, #[trigger] c.take(j)),
    decreases k,
{
    let q = p.push(x);
    assert(q.last() == x);
    assert(q.drop_last() =~= p);
    if k == 0 {
    } else {
        let d = c.take(k);
        assert(d.drop_last() =~= c.take(k - 1));
        assert(d.last() == c[k - 1]);
        lemma_subseq_push(p, x, c, k - 1);
        if is_subseq(q, d) {
            if is_subseq(q, c.take(k - 1)) {
                let j = choose|j: int| 0 <= j < k - 1 && c[j] == x && is_subseq(p, #[trigger] c.take(j));
            } else {
                assert(c[k - 1] == x && is_subseq(p, c.take(k - 1)));
            }
        }
        if exists|j: int| 0 <= j < k && c[j] == x && is_subseq(p, #[trigger] c.take(j)) {
            let j = choose|j: int| 0 <= j < k && c[j] == x && is_subseq(p, #[trigger] c.take(j));
            if j < k - 1 {
                assert(is_subseq(q, c.take(k - 1)));
            } else {
                assert(is_subseq(q, d));
            }
        }
    }
}

/// A longer prefix of the chain still contains the pattern.
pub proof fn lemma_subseq_mono(p: Chain, c: Chain, k: int, k2: int)
    requires
        0 <= k <= k2 <= c.len(),
        is_subseq(p, c.take(k)),
    ensures
        is_subseq(p, c.take(k2)),
    decreases k2 - k,
{
    if k < k2 {
        lemma_subseq_mono(p, c, k, k2 - 1);
        assert(c.take(k2).drop_last() =~= c.take(k2 - 1));
        if p.len() > 0 {
            assert(c.take(k2).len() > 0);
        }
    }
}

/// Dropping the last element of a pattern keeps it contained.
pub proof fn lemma_subseq_drop_last(p: Chain, x: Seq<char>, c: Chain)
    requires
        is_subseq(p.push(x), c),
    ensures
        is_subseq(p, c),
{
    assert(c.take(c.len() as int) =~= c);
    lemma_subseq_push(p, x, c, c.len() as int);
    let j = choose|j: int| 0 <= j < c.len() && c[j] == x && is_subseq(p, #[trigger] c.take(j));
    lemma_subseq_mono(p, c, j, c.len() as int);
}

/// The empty pattern ends at position 0.
pub proof fn lemma_gend_empty(c: Chain)
    ensures
        is_gend(Seq::empty(), c, 0),
{
}

/// From the shortest embedding end `e` of `p`: `p + [x]` is contained iff
/// `x` occurs at or after `e`, and it ends just after the first such `x`.
pub proof fn lemma_gend_step(p: Chain, c: Chain, e: int, x: Seq<char>)
    requires
        is_gend(p, c, e),
    ensures
        is_subseq(p.push(x), c) <==> exists|j: int| e <= j < c.len() && #[trigger] c[j] == x,
        forall|j: int| e <= j < c.len() && c[j] == x && (forall|i: int| e <= i < j ==> #[trigger] c[i] != x)
            ==> is_gend(p.push(x), c, j + 1),
{
    let n = c.len() as int;
    assert(c.take(n) =~= c);
    lemma_subseq_push(p, x, c, n);
    if is_subseq(p.push(x), c) {
        let j = choose|j: int| 0 <= j < n && c[j] == x && is_subseq(p, #[trigger] c.take(j));
        assert(j >= e);
        assert(c[j] == x);
    }
    if exists|j: int| e <= j < n && #[trigger] c[j] == x {
        let j = choose|j: int| e <= j < n && #[trigger] c[j] == x;
        lemma_subseq_mono(p, c, e, j);
        assert(is_subseq(p, c.take(j)));
    }
    assert forall|j: int| e <= j < n && c[j] == x && (forall|i: int| e <= i < j ==> #[trigger] c[i] != x)
        implies is_gend(p.push(x), c, j + 1) by {
        lemma_subseq_push(p, x, c, j + 1);
        lemma_subseq_mono(p, c, e, j);
        assert(is_subseq(p, c.take(j)));
        assert forall|k: int| 0 <= k < j + 1 implies !is_subseq(p.push(x), #[trigger] c.take(k)) by {
            lemma_subseq_push(p, x, c, k);
            if is_subseq(p.push(x), c.take(k)) {
                let i = choose|i: int| 0 <= i < k && c[i] == x && is_subseq(p, #[trigger] c.take(i));
                assert(i >= e);
                assert(c[i] != x);
            }
        }
    }
}

/// Each chain containing `p + [x]` contains `p`, so support never grows
/// with the pattern.
pub proof fn lemma_support_anti(cv: Seq<Chain>, p: Chain, x: Seq<char>)
    ensures
        support(cv, p.push(x)) <= support(cv, p),
        support(cv, p) >= 0,
    decreases cv.len(),
{
    if cv.len() > 0 {
        lemma_support_anti(cv.drop_last(), p, x);
        if is_subseq(p.push(x), cv.last()) {
            lemma_subseq_drop_last(p, x, cv.last());
        }
    }
}

/// A projected database for `p`: one entry per chain of `cv` that contains
/// `p`, in chain order, holding the shortest embedding end of `p` in it.
pub open spec fn db_ok(cv: Seq<Chain>, p: Chain, db: Seq<(usize, usize)>) -> bool {
    &&& forall|t: int| 0 <= t < db.len() ==> (#[trigger] db[t]).0 < cv.len() && is_gend(p, cv[db[t].0 as int], db[t].1 as int)
    &&& forall|t1: int, t2: int| 0 <= t1 < t2 < db.len() ==> (#[trigger] db[t1]).0 < (#[trigger] db[t2]).0
    &&& forall|ci: int| 0 <= ci < cv.len() && is_subseq(p, #[trigger] cv[ci]) ==> exists|t: int| 0 <= t < db.len() && (#[trigger] db[t]).0 == ci
}

pub proof fn lemma_gend_subseq(p: Chain, c: Chain, e: int)
    requires
        is_gend(p, c, e),
    ensures
        is_subseq(p, c),
{
    lemma_subseq_mono(p, c, e, c.len() as int);
    assert(c.take(c.len() as int) =~= c);
}

/// A projected database has one entry per supporting chain.
pub proof fn lemma_db_support(cv: Seq<Chain>, p: Chain, db: Seq<(usize, usize)>)
    requires
        db_ok(cv, p, db),
    ensures
        db.len() == support(cv, p),
    decreases cv.len(),
{
    if cv.len() == 0 {
        if db.len() > 0 {
            assert(db[0].0 < cv.len());
        }
    } else {
        let n = cv.len() - 1;
        let cv2 = cv.drop_last();
        if db.len() > 0 && db.last().0 == n {
            let db2 = db.drop_last();
            assert forall|t: int| 0 <= t < db2.len() implies (#[trigger] db2[t]).0 < cv2.len() && is_gend(p, cv2[db2[t].0 as int], db2[t].1 as int) by {
                assert(db2[t] == db[t]);
                assert(db[t].0 < db[db.len() - 1].0);
            }
            assert forall|t1: int, t2: int| 0 <= t1 < t2 < db2.len() implies (#[trigger] db2[t1]).0 < (#[trigger] db2[t2]).0 by {
                assert(db2[t1] == db[t1] && db2[t2] == db[t2]);
            }
            assert forall|ci: int| 0 <= ci < cv2.len() && is_subseq(p, #[trigger] cv2[ci]) implies exists|t: int| 0 <= t < db2.len() && (#[trigger] db2[t]).0 == ci by {
                assert(cv2[ci] == cv[ci]);
                let t = choose|t: int| 0 <= t < db.len() && (#[trigger] db[t]).0 == ci;
                assert(t != db.len() - 1);
                assert(db2[t] == db[t]);
            }
            lemma_db_support(cv2, p, db2);
            let e = db[db.len() - 1].1 as int;
            assert(is_gend(p, cv[n], e));
            lemma_gend_subseq(p, cv[n], e);
        } else {
            assert forall|t: int| 0 <= t < db.len() implies (#[trigger] db[t]).0 < cv2.len() && is_gend(p, cv2[db[t].0 as int], db[t].1 as int) by {
                if db[t].0 == n {
                    if t < db.len() - 1 {
                        assert(db[t].0 < db[db.len() - 1].0);
                    }
                }
            }
            assert forall|ci: int| 0 <= ci < cv2.len() && is_subseq(p, #[trigger] cv2[ci]) implies exists|t: int| 0 <= t < db.len() && (#[trigger] db[t]).0 == ci by {
                assert(cv2[ci] == cv[ci]);
            }
            if is_subseq(p, cv[n]) {
                let t = choose|t: int| 0 <= t < db.len() && (#[trigger] db[t]).0 == n;
                if t < db.len() - 1 {
                    assert(db[t].0 < db[db.len() - 1].0);
                }
            }
            lemma_db_support(cv2, p, db);
        }
    }
}

/// The chains as character-sequence views.
pub open spec fn chains_view(chains: Seq<Vec<String>>) -> Seq<Chain> {
    chains.map_values(|c: Vec<String>| strs(c@))
}

/// The first index at or after `pos` where `c` holds `x`.
fn find_from(c: &Vec<String>, x: &str, pos: usize) -> (r: Option<usize>)
    ensures
        match r {
            Some(j) => pos <= j < c@.len() && c@[j as int]@ == x@ && forall|i: int| pos <= i < j ==> (#[trigger] c@[i])@ != x@,
            None => forall|i: int| pos <= i < c@.len() ==> (#[trigger] c@[i])@ != x@,
        },
{
    let mut j = pos;
    while j < c.len()
        invariant
            pos <= j || j >= c@.len(),
            forall|i: int| pos <= i < j && i < c@.len() ==> (#[trigger] c@[i])@ != x@,
        decreases c.len() - j,
    {
        if str_eq(c[j].as_str(), x) {
            return Some(j);
        }
        j += 1;
    }
    None
}

/// The entries of `db` whose chain holds `x` after the entry's position,
/// each moved to just after the first such `x`.
fn project_item(chains: &[Vec<String>], db: &Vec<(usize, usize)>, x: &String, Ghost(p): Ghost<Chain>) -> (r: Vec<(usize, usize)>)
    requires
        db_ok(chains_view(chains@), p, db@),
    ensures
        db_ok(chains_view(chains@), p.push(x@), r@),
{
    let ghost cv = chains_view(chains@);
    let ghost q = p.push(x@);
    let mut r: Vec<(usize, usize)> = Vec::new();
    let mut t: usize = 0;
    while t < db.len()
        invariant
            t <= db@.len(),
            cv == chains_view(chains@),
            q == p.push(x@),
            db_ok(cv, p, db@),
            forall|u: int| 0 <= u < r@.len() ==> (#[trigger] r@[u]).0 < cv.len() && is_gend(q, cv[r@[u].0 as int], r@[u].1 as int),
            forall|u1: int, u2: int| 0 <= u1 < u2 < r@.len() ==> (#[trigger] r@[u1]).0 < (#[trigger] r@[u2]).0,
            forall|u: int| 0 <= u < r@.len() ==> t > 0 && (#[trigger] r@[u]).0 <= db@[t - 1].0,
            forall|s: int| 0 <= s < t && is_subseq(q, cv[(#[trigger] db@[s]).0 as int]) ==> exists|u: int| 0 <= u < r@.len() && (#[trigger] r@[u]).0 == db@[s].0,
        decreases db.len() - t,
    {
        let (ci, pos) = db[t];
        let ghost c = cv[ci as int];
        proof {
            assert(db@[t as int].0 < cv.len() && is_gend(p, c, pos as int));
            assert(c == strs(chains@[ci as int]@));
            lemma_gend_step(p, c, pos as int, x@);
        }
        let ghost r0 = r@;
        let n = chains[ci].len();
        match find_from(&chains[ci], x.as_str(), pos) {
            Some(j) => {
                assert(j < n);
                proof {
                    assert(c[j as int] == x@);
                    assert forall|i: int| pos <= i < j implies #[trigger] c[i] != x@ by {
                        assert(chains@[ci as int]@[i]@ != x@);
                    }
                    assert(is_gend(q, c, j + 1));
                }
                r.push((ci, j + 1));
                proof {
                    assert forall|u: int| 0 <= u < r@.len() implies (#[trigger] r@[u]).0 < cv.len() && is_gend(q, cv[r@[u].0 as int], r@[u].1 as int) by {
                        if u < r0.len() {
                            assert(r@[u] == r0[u]);
                        }
                    }
                    assert forall|u1: int, u2: int| 0 <= u1 < u2 < r@.len() implies (#[trigger] r@[u1]).0 < (#[trigger] r@[u2]).0 by {
                        if u2 == r0.len() {
                            assert(r@[u1] == r0[u1]);
                        } else {
                            assert(r@[u1] == r0[u1] && r@[u2] == r0[u2]);
                        }
                    }
                    assert forall|u: int| 0 <= u < r@.len() implies t + 1 > 0 && (#[trigger] r@[u]).0 <= db@[t as int].0 by {
                        if u < r0.len() {
                            assert(r@[u] == r0[u]);
                        }
                    }
                    assert forall|s: int| 0 <= s < t + 1 && is_subseq(q, cv[(#[trigger] db@[s]).0 as int]) implies exists|u: int| 0 <= u < r@.len() && (#[trigger] r@[u]).0 == db@[s].0 by {
                        if s < t {
                            let u = choose|u: int| 0 <= u < r0.len() && (#[trigger] r0[u]).0 == db@[s].0;
                            assert(r@[u] == r0[u]);
                        } else {
                            assert(r@[r0.len() as int].0 == db@[s].0);
                        }
                    }
                }
            },
            None => {
                proof {
                    assert(!is_subseq(q, c)) by {
                        if is_subseq(q, c) {
                            let j = choose|j: int| pos <= j < c.len() && #[trigger] c[j] == x@;
                            assert(chains@[ci as int]@[j]@ != x@);
                        }
                    }
                }
            },
        }
        t += 1;
    }
    proof {
        assert forall|ci: int| 0 <= ci < cv.len() && is_subseq(q, #[trigger] cv[ci]) implies exists|u: int| 0 <= u < r@.len() && (#[trigger] r@[u]).0 == ci by {
            lemma_subseq_drop_last(p, x@, cv[ci]);
            let s = choose|s: int| 0 <= s < db@.len() && (#[trigger] db@[s]).0 == ci;
            assert(is_subseq(q, cv[db@[s].0 as int]));
        }
    }
    r
}

/// Some chain of `cv` contains `p + [x]`.
pub open spec fn extends_some(cv: Seq<Chain>, p: Chain, x: Seq<char>) -> bool {
    exists|ci: int| 0 <= ci < cv.len() && #[trigger] is_subseq(p.push(x), cv[ci])
}

/// The distinct items that extend `p` in some chain.
fn extensions(chains: &[Vec<String>], db: &Vec<(usize, usize)>, Ghost(p): Ghost<Chain>) -> (r: Vec<String>)
    requires
        db_ok(chains_view(chains@), p, db@),
    ensures
        forall|w1: int, w2: int| 0 <= w1 < w2 < r@.len() ==> (#[trigger] r@[w1])@ != (#[trigger] r@[w2])@,
        forall|w: int| 0 <= w < r@.len() ==> extends_some(chains_view(chains@), p, (#[trigger] r@[w])@),
        forall|x: Seq<char>, ci: int| 0 <= ci < chains@.len() && #[trigger] is_subseq(p.push(x), chains_view(chains@)[ci]) ==> strs(r@).contains(x),
{
    let ghost cv = chains_view(chains@);
    let mut r: Vec<String> = Vec::new();
    let mut t: usize = 0;
    while t < db.len()
        invariant
            t <= db@.len(),
            cv == chains_view(chains@),
            db_ok(cv, p, db@),
            forall|w1: int, w2: int| 0 <= w1 < w2 < r@.len() ==> (#[trigger] r@[w1])@ != (#[trigger] r@[w2])@,
            forall|w: int| 0 <= w < r@.len() ==> extends_some(cv, p, (#[trigger] r@[w])@),
            forall|s: int, i: int| 0 <= s < t && (#[trigger] db@[s]).1 <= i < cv[db@[s].0 as int].len() ==> strs(r@).contains(#[trigger] cv[db@[s].0 as int][i]),
        decreases db.len() - t,
    {
        let (ci, pos) = db[t];
        let ghost c = cv[ci as int];
        proof {
            assert(db@[t as int].0 < cv.len() && is_gend(p, c, pos as int));
            assert(c == strs(chains@[ci as int]@));
        }
        let chain = &chains[ci];
        let mut j = pos;
        while j < chain.len()
            invariant
                t < db@.len(),
                cv == chains_view(chains@),
                db_ok(cv, p, db@),
                (ci, pos) == db@[t as int],
                ci < cv.len(),
                c == cv[ci as int],
                c == strs(chain@),
                is_gend(p, c, pos as int),
                pos <= j || j >= c.len(),
                forall|w1: int, w2: int| 0 <= w1 < w2 < r@.len() ==> (#[trigger] r@[w1])@ != (#[trigger] r@[w2])@,
                forall|w: int| 0 <= w < r@.len() ==> extends_some(cv, p, (#[trigger] r@[w])@),
                forall|s: int, i: int| 0 <= s < t && (#[trigger] db@[s]).1 <= i < cv[db@[s].0 as int].len() ==> strs(r@).contains(#[trigger] cv[db@[s].0 as int][i]),
                forall|i: int| pos <= i < j && i < c.len() ==> strs(r@).contains(#[trigger] c[i]),
            decreases chain.len() - j,
        {
            let ghost r0 = r@;
            if !contains_str(&r, chain[j].as_str()) {
                proof {
                    assert(c[j as int] == chain@[j as int]@);
                    lemma_gend_step(p, c, pos as int, c[j as int]);
                    assert(is_subseq(p.push(c[j as int]), cv[ci as int]));
                }
                r.push(chain[j].clone());
                proof {
                    let n = r0.len() as int;
                    assert(strs(r@) =~= strs(r0).push(c[j as int]));
                    assert forall|w1: int, w2: int| 0 <= w1 < w2 < r@.len() implies (#[trigger] r@[w1])@ != (#[trigger] r@[w2])@ by {
                        if w2 == n {
                            assert(r@[w1] == r0[w1]);
                            assert(strs(r0)[w1] == r0[w1]@);
                        } else {
                            assert(r@[w1] == r0[w1] && r@[w2] == r0[w2]);
                        }
                    }
                    assert forall|w: int| 0 <= w < r@.len() implies extends_some(cv, p, (#[trigger] r@[w])@) by {
                        if w < n {
                            assert(r@[w] == r0[w]);
                        } else {
                            assert(is_subseq(p.push(r@[w]@), cv[ci as int]));
                        }
                    }
                    assert forall|s: int, i: int| 0 <= s < t && (#[trigger] db@[s]).1 <= i < cv[db@[s].0 as int].len() implies strs(r@).contains(#[trigger] cv[db@[s].0 as int][i]) by {
                        assert(strs(r0).contains(cv[db@[s].0 as int][i]));
                        let w = choose|w: int| 0 <= w < strs(r0).len() && strs(r0)[w] == cv[db@[s].0 as int][i];
                        assert(strs(r@)[w] == strs(r0)[w]);
                    }
                    assert forall|i: int| pos <= i < j + 1 && i < c.len() implies strs(r@).contains(#[trigger] c[i]) by {
                        if i < j {
                            assert(strs(r0).contains(c[i]));
                            let w = choose|w: int| 0 <= w < strs(r0).len() && strs(r0)[w] == c[i];
                            assert(strs(r@)[w] == strs(r0)[w]);
                        } else {
                            assert(strs(r@)[n] == c[i]);
                        }
                    }
                }
            } else {
                proof {
                    assert(c[j as int] == chain@[j as int]@);
                }
            }
            j += 1;
        }
        t += 1;
    }
    proof {
        assert forall|x: Seq<char>, ci: int| 0 <= ci < chains@.len() && #[trigger] is_subseq(p.push(x), chains_view(chains@)[ci]) implies strs(r@).contains(x) by {
            lemma_subseq_drop_last(p, x, cv[ci]);
            let s = choose|s: int| 0 <= s < db@.len() && (#[trigger] db@[s]).0 == ci;
            lemma_gend_step(p, cv[ci], db@[s].1 as int, x);
            let i = choose|i: int| db@[s].1 <= i < cv[ci].len() && #[trigger] cv[ci][i] == x;
            assert(strs(r@).contains(cv[db@[s].0 as int][i]));
        }
    }
    r
}

/// Support is at most the number of chains, and positive exactly when
/// some chain contains the pattern.
pub proof fn lemma_support_bounds(cv: Seq<Chain>, q: Chain)
    ensures
        0 <= support(cv, q) <= cv.len(),
        support(cv, q) >= 1 <==> exists|ci: int| 0 <= ci < cv.len() && #[trigger] is_subseq(q, cv[ci]),
    decreases cv.len(),
{
    if cv.len() > 0 {
        let cv2 = cv.drop_last();
        lemma_support_bounds(cv2, q);
        if support(cv2, q) >= 1 {
            let ci = choose|ci: int| 0 <= ci < cv2.len() && #[trigger] is_subseq(q, cv2[ci]);
            assert(cv[ci] == cv2[ci]);
        }
        if exists|ci: int| 0 <= ci < cv.len() && #[trigger] is_subseq(q, cv[ci]) {
            let ci = choose|ci: int| 0 <= ci < cv.len() && #[trigger] is_subseq(q, cv[ci]);
            if ci < cv.len() - 1 {
                assert(cv2[ci] == cv[ci]);
            }
        }
    }
}

/// A prefix of a pattern is supported at least as often as the pattern.
pub proof fn lemma_support_prefix(cv: Seq<Chain>, q: Chain, m: int)
    requires
        0 <= m <= q.len(),
    ensures
        support(cv, q.take(m)) >= support(cv, q),
    decreases q.len() - m,
{
    if m < q.len() {
        lemma_support_prefix(cv, q, m + 1);
        assert(q.take(m + 1) =~= q.take(m).push(q[m]));
        lemma_support_anti(cv, q.take(m), q[m]);
    } else {
        assert(q.take(m) =~= q);
    }
}

/// The pattern of a mined entry.
pub open spec fn pat(e: (Vec<String>, u32)) -> Chain {
    strs(e.0@)
}

/// `q` is a frequent pattern extending `pv`: longer than `pv` and at most
/// `max_len` long, at least two items, starting with `pv`, and supported by
/// at least `min_support` chains (and at least one).
pub open spec fn mined(cv: Seq<Chain>, pv: Chain, min_support: u32, max_len: usize, q: Chain) -> bool {
    &&& pv.len() < q.len() <= max_len
    &&& q.len() >= 2
    &&& q.take(pv.len() as int) == pv
    &&& support(cv, q) >= min_support
    &&& support(cv, q) >= 1
}

/// `t` lists every frequent pattern extending `pv` once, with its support.
pub open spec fn mined_all(cv: Seq<Chain>, pv: Chain, min_support: u32, max_len: usize, t: Seq<(Vec<String>, u32)>) -> bool {
    &&& forall|k: int| 0 <= k < t.len() ==> mined(cv, pv, min_support, max_len, pat(#[trigger] t[k])) && t[k].1 == support(cv, pat(t[k]))
    &&& forall|q: Chain| #[trigger] mined(cv, pv, min_support, max_len, q) ==> exists|k: int| 0 <= k < t.len() && pat(#[trigger] t[k]) == q
    &&& forall|k1: int, k2: int| 0 <= k1 < k2 < t.len() ==> pat(#[trigger] t[k1]) != pat(#[trigger] t[k2])
}

/// The part of `t` whose pattern continues `pv` with one of `items[..u]`.
pub open spec fn mined_upto(cv: Seq<Chain>, pv: Chain, min_support: u32, max_len: usize, items: Seq<Seq<char>>, u: int, t: Seq<(Vec<String>, u32)>) -> bool {
    &&& forall|k: int| 0 <= k < t.len() ==> mined(cv, pv, min_support, max_len, pat(#[trigger] t[k])) && t[k].1 == support(cv, pat(t[k]))
        && exists|w: int| 0 <= w < u && pat(t[k])[pv.len() as int] == #[trigger] items[w]
    &&& forall|q: Chain, w: int| #[trigger] mined(cv, pv, min_support, max_len, q) && 0 <= w < u && q[pv.len() as int] == #[trigger] items[w]
        ==> exists|k: int| 0 <= k < t.len() && pat(#[trigger] t[k]) == q
    &&& forall|k1: int, k2: int| 0 <= k1 < k2 < t.len() ==> pat(#[trigger] t[k1]) != pat(#[trigger] t[k2])
}

/// An item whose extension is not frequent contributes no pattern.
proof fn lemma_step_skip(cv: Seq<Chain>, pv: Chain, ms: u32, ml: usize, items: Seq<Seq<char>>, u: int, t: Seq<(Vec<String>, u32)>)
    requires
        0 <= u < items.len(),
        mined_upto(cv, pv, ms, ml, items, u, t),
        support(cv, pv.push(items[u])) < ms,
    ensures
        mined_upto(cv, pv, ms, ml, items, u + 1, t),
{
    assert forall|k: int| 0 <= k < t.len() implies mined(cv, pv, ms, ml, pat(#[trigger] t[k])) && t[k].1 == support(cv, pat(t[k]))
        && exists|w: int| 0 <= w < u + 1 && pat(t[k])[pv.len() as int] == #[trigger] items[w] by {
        let w = choose|w: int| 0 <= w < u && pat(t[k])[pv.len() as int] == #[trigger] items[w];
    }
    assert forall|q: Chain, w: int| #[trigger] mined(cv, pv, ms, ml, q) && 0 <= w < u + 1 && q[pv.len() as int] == #[trigger] items[w]
        implies exists|k: int| 0 <= k < t.len() && pat(#[trigger] t[k]) == q by {
        if w == u {
            lemma_support_prefix(cv, q, pv.len() + 1int);
            assert(q.take(pv.len() + 1int) =~= pv.push(items[u]));
        }
    }
}

/// A frequent item contributes its own pattern (when at least two long)
/// and every frequent pattern continuing it.
proof fn lemma_step_take(
    cv: Seq<Chain>,
    pv: Chain,
    ms: u32,
    ml: usize,
    items: Seq<Seq<char>>,
    u: int,
    t: Seq<(Vec<String>, u32)>,
    d: Seq<(Vec<String>, u32)>,
    rec: Seq<(Vec<String>, u32)>,
)
    requires
        0 <= u < items.len(),
        pv.len() < ml,
        forall|w: int| 0 <= w < u ==> #[trigger] items[w] != items[u],
        mined_upto(cv, pv, ms, ml, items, u, t),
        support(cv, pv.push(items[u])) >= ms,
        support(cv, pv.push(items[u])) >= 1,
        pv.len() + 1 < 2 ==> d.len() == 0,
        pv.len() + 1 >= 2 ==> d.len() == 1 && pat(d[0]) == pv.push(items[u]) && d[0].1 == support(cv, pv.push(items[u])),
        mined_all(cv, pv.push(items[u]), ms, ml, rec),
    ensures
        mined_upto(cv, pv, ms, ml, items, u + 1, t + d + rec),
{
    let x = items[u];
    let q0 = pv.push(x);
    let n = t + d + rec;
    let a = t.len() as int;
    let b = a + d.len();
    assert forall|k: int| 0 <= k < n.len() implies mined(cv, pv, ms, ml, pat(#[trigger] n[k])) && n[k].1 == support(cv, pat(n[k]))
        && exists|w: int| 0 <= w < u + 1 && pat(n[k])[pv.len() as int] == #[trigger] items[w] by {
        if k < a {
            assert(n[k] == t[k]);
            let w = choose|w: int| 0 <= w < u && pat(t[k])[pv.len() as int] == #[trigger] items[w];
            assert(pat(n[k])[pv.len() as int] == items[w]);
        } else if k < b {
            assert(n[k] == d[0]);
            assert(q0.take(pv.len() as int) =~= pv);
            assert(pat(n[k]) == q0);
            assert(q0.len() == pv.len() + 1);
            assert(mined(cv, pv, ms, ml, q0));
            assert(pat(n[k])[pv.len() as int] == items[u]);
        } else {
            let r = rec[k - b];
            assert(n[k] == r);
            assert(mined(cv, q0, ms, ml, pat(r)));
            assert(q0.take(pv.len() as int) =~= pv);
            assert(pat(r).take(pv.len() as int) =~= pat(r).take(q0.len() as int).take(pv.len() as int));
            assert(pat(r)[pv.len() as int] == pat(r).take(q0.len() as int)[pv.len() as int]);
            assert(pat(r)[pv.len() as int] == items[u]);
            assert(mined(cv, pv, ms, ml, pat(n[k])));
        }
    }
    assert forall|q: Chain, w: int| #[trigger] mined(cv, pv, ms, ml, q) && 0 <= w < u + 1 && q[pv.len() as int] == #[trigger] items[w]
        implies exists|k: int| 0 <= k < n.len() && pat(#[trigger] n[k]) == q by {
        if w < u {
            let k = choose|k: int| 0 <= k < t.len() && pat(#[trigger] t[k]) == q;
            assert(n[k] == t[k]);
        } else {
            assert(q.take(pv.len() + 1int) =~= q0);
            if q.len() == pv.len() + 1 {
                assert(q =~= q0);
                assert(n[a] == d[0]);
            } else {
                assert(mined(cv, q0, ms, ml, q));
                let k = choose|k: int| 0 <= k < rec.len() && pat(#[trigger] rec[k]) == q;
                assert(n[b + k] == rec[k]);
            }
        }
    }
    assert forall|k1: int, k2: int| 0 <= k1 < k2 < n.len() implies pat(#[trigger] n[k1]) != pat(#[trigger] n[k2]) by {
        if k2 < a {
            assert(n[k1] == t[k1] && n[k2] == t[k2]);
        } else if k1 < a {
            assert(n[k1] == t[k1]);
            let w = choose|w: int| 0 <= w < u && pat(t[k1])[pv.len() as int] == #[trigger] items[w];
            if k2 < b {
                assert(n[k2] == d[0]);
                assert(pat(n[k2])[pv.len() as int] == items[u]);
            } else {
                let r = rec[k2 - b];
                assert(n[k2] == r);
                assert(mined(cv, q0, ms, ml, pat(r)));
                assert(pat(r)[pv.len() as int] == pat(r).take(q0.len() as int)[pv.len() as int]);
            }
        } else if k1 < b {
            assert(n[k1] == d[0]);
            let r = rec[k2 - b];
            assert(n[k2] == r);
            assert(mined(cv, q0, ms, ml, pat(r)));
        } else {
            assert(n[k1] == rec[k1 - b] && n[k2] == rec[k2 - b]);
        }
    }
}

proof fn lemma_upto_all(cv: Seq<Chain>, pv: Chain, ms: u32, ml: usize, items: Seq<Seq<char>>, t: Seq<(Vec<String>, u32)>)
    requires
        mined_upto(cv, pv, ms, ml, items, items.len() as int, t),
        forall|x: Seq<char>, ci: int| 0 <= ci < cv.len() && #[trigger] is_subseq(pv.push(x), cv[ci]) ==> items.contains(x),
    ensures
        mined_all(cv, pv, ms, ml, t),
{
    assert forall|q: Chain| #[trigger] mined(cv, pv, ms, ml, q) implies exists|k: int| 0 <= k < t.len() && pat(#[trigger] t[k]) == q by {
        let y = q[pv.len() as int];
        lemma_support_prefix(cv, q, pv.len() + 1int);
        assert(q.take(pv.len() + 1int) =~= pv.push(y));
        lemma_support_bounds(cv, pv.push(y));
        let ci = choose|ci: int| 0 <= ci < cv.len() && #[trigger] is_subseq(pv.push(y), cv[ci]);
        assert(items.contains(y));
        let w = choose|w: int| 0 <= w < items.len() && items[w] == y;
        assert(mined(cv, pv, ms, ml, q) && 0 <= w < items.len() && q[pv.len() as int] == items[w]);
    }
}

/// Append to `out` every frequent pattern extending `prefix` (whose
/// projected database is `db`), then give `prefix` back unchanged.
fn prefixspan(chains: &[Vec<String>], db: &Vec<(usize, usize)>, prefix: &mut Vec<String>, min_support: u32, max_len: usize, out: &mut Vec<(Vec<String>, u32)>)
    requires
        db_ok(chains_view(chains@), strs(old(prefix)@), db@),
        chains@.len() <= u32::MAX,
    ensures
        final(prefix)@ == old(prefix)@,
        old(out)@.len() <= final(out)@.len(),
        final(out)@.take(old(out)@.len() as int) == old(out)@,
        mined_all(chains_view(chains@), strs(old(prefix)@), min_support, max_len, final(out)@.skip(old(out)@.len() as int)),
    decreases max_len - old(prefix)@.len(),
{
    let ghost cv = chains_view(chains@);
    let ghost pre0 = prefix@;
    let ghost pv = strs(prefix@);
    let ghost out0 = out@;
    proof {
        assert(out@.skip(out0.len() as int) =~= Seq::<(Vec<String>, u32)>::empty());
        assert(out@.take(out0.len() as int) =~= out0);
    }
    if prefix.len() >= max_len {
        return;
    }
    let items = extensions(chains, db, Ghost(pv));
    let ghost iv = strs(items@);
    let mut u: usize = 0;
    while u < items.len()
        invariant
            u <= items@.len(),
            cv == chains_view(chains@),
            pv == strs(pre0),
            iv == strs(items@),
            prefix@ == pre0,
            old(prefix)@ == pre0,
            pre0.len() < max_len,
            forall|w: int| 0 <= w < items@.len() ==> extends_some(cv, pv, (#[trigger] items@[w])@),
            db_ok(cv, pv, db@),
            chains@.len() <= u32::MAX,
            out0.len() <= out@.len(),
            out@.take(out0.len() as int) == out0,
            mined_upto(cv, pv, min_support, max_len, iv, u as int, out@.skip(out0.len() as int)),
            forall|w1: int, w2: int| 0 <= w1 < w2 < items@.len() ==> (#[trigger] items@[w1])@ != (#[trigger] items@[w2])@,
            forall|x: Seq<char>, ci: int| 0 <= ci < chains@.len() && #[trigger] is_subseq(pv.push(x), chains_view(chains@)[ci]) ==> strs(items@).contains(x),
        decreases items.len() - u,
    {
        let x = &items[u];
        let proj = project_item(chains, db, x, Ghost(pv));
        proof {
            lemma_db_support(cv, pv.push(x@), proj@);
            lemma_support_bounds(cv, pv.push(x@));
            assert(iv[u as int] == x@);
            assert(extends_some(cv, pv, items@[u as int]@));
        }
        let ghost t0 = out@.skip(out0.len() as int);
        let sup = proj.len();
        if sup >= min_support as usize {
            prefix.push(x.clone());
            proof {
                assert(strs(prefix@) =~= pv.push(x@));
            }
            let ghost before = out@;
            if prefix.len() >= 2 {
                out.push((copy_strings(prefix), sup as u32));
            }
            let ghost mid = out@;
            let ghost d = mid.skip(before.len() as int);
            prefixspan(chains, &proj, prefix, min_support, max_len, out);
            let ghost rec = out@.skip(mid.len() as int);
            prefix.pop();
            proof {
                assert(prefix@ =~= pre0);
                assert(out@ =~= mid + rec) by {
                    assert(out@.take(mid.len() as int) == mid);
                }
                assert(mid =~= before + d);
                assert(before =~= out0 + t0) by {
                    assert(before.take(out0.len() as int) == out0);
                }
                assert(out@.take(out0.len() as int) =~= out0);
                assert(out@.skip(out0.len() as int) =~= t0 + d + rec);
                if pv.len() + 1 >= 2 {
                    assert(d.len() == 1);
                    assert(pat(d[0]) =~= pv.push(x@));
                } else {
                    assert(d.len() == 0);
                }
                assert forall|w: int| 0 <= w < u implies #[trigger] iv[w] != iv[u as int] by {
                    assert(items@[w]@ != items@[u as int]@);
                }
                lemma_step_take(cv, pv, min_support, max_len, iv, u as int, t0, d, rec);
            }
        } else {
            proof {
                lemma_step_skip(cv, pv, min_support, max_len, iv, u as int, t0);
            }
        }
        u += 1;
    }
    proof {
        lemma_upto_all(cv, pv, min_support, max_len, iv, out@.skip(out0.len() as int));
    }
}

/// Lexicographic order on patterns (item by item, a proper prefix first).
pub open spec fn pat_lt(a: Chain, b: Chain) -> bool
    decreases a.len(),
{
    if a.len() == 0 {
        b.len() > 0
    } else if b.len() == 0 {
        false
    } else if lex_lt(a[0], b[0]) {
        true
    } else if a[0] == b[0] {
        pat_lt(a.drop_first(), b.drop_first())
    } else {
        false
    }
}

pub proof fn lemma_pat_irreflexive(a: Chain)
    ensures
        !pat_lt(a, a),
    decreases a.len(),
{
    if a.len() > 0 {
        lemma_lex_irreflexive(a[0]);
        lemma_pat_irreflexive(a.drop_first());
    }
}

pub proof fn lemma_pat_transitive(a: Chain, b: Chain, c: Chain)
    requires
        pat_lt(a, b),
        pat_lt(b, c),
    ensures
        pat_lt(a, c),
    decreases a.len(),
{
    if a.len() > 0 {
        if lex_lt(a[0], b[0]) {
            if lex_lt(b[0], c[0]) {
                lemma_lex_transitive(a[0], b[0], c[0]);
            }
        } else {
            if a[0] == b[0] && b[0] == c[0] {
                lemma_pat_transitive(a.drop_first(), b.drop_first(), c.drop_first());
            }
        }
    }
}

pub proof fn lemma_pat_total(a: Chain, b: Chain)
    ensures
        a =~= b || pat_lt(a, b) || pat_lt(b, a),
    decreases a.len(),
{
    if a.len() > 0 && b.len() > 0 {
        lemma_lex_total(a[0], b[0]);
        if a[0] == b[0] {
            lemma_pat_total(a.drop_first(), b.drop_first());
            if a.drop_first() =~= b.drop_first() {
                assert(a =~= seq![a[0]] + a.drop_first());
                assert(b =~= seq![b[0]] + b.drop_first());
            }
        }
    }
}

/// Mined entries rank by support descending, then pattern.
pub open spec fn ent_lt(a: (Vec<String>, u32), b: (Vec<String>, u32)) -> bool {
    a.1 > b.1 || (a.1 == b.1 && pat_lt(pat(a), pat(b)))
}

proof fn lemma_ent_order(a: (Vec<String>, u32), b: (Vec<String>, u32), c: (Vec<String>, u32))
    ensures
        !ent_lt(a, a),
        ent_lt(a, b) && ent_lt(b, c) ==> ent_lt(a, c),
        pat(a) != pat(b) ==> ent_lt(a, b) || ent_lt(b, a),
{
    lemma_pat_irreflexive(pat(a));
    if ent_lt(a, b) && ent_lt(b, c) && a.1 == b.1 && b.1 == c.1 {
        lemma_pat_transitive(pat(a), pat(b), pat(c));
    }
    lemma_pat_total(pat(a), pat(b));
}

/// Exec pattern comparison.
fn pat_lt_exec(a: &Vec<String>, b: &Vec<String>) -> (r: bool)
    ensures
        r == pat_lt(strs(a@), strs(b@)),
{
    let ghost x = strs(a@);
    let ghost y = strs(b@);
    let mut i: usize = 0;
    proof {
        assert(x.skip(0) =~= x);
        assert(y.skip(0) =~= y);
    }
    while i < a.len() && i < b.len()
        invariant
            i <= a@.len(),
            i <= b@.len(),
            x == strs(a@),
            y == strs(b@),
            pat_lt(x.skip(i as int), y.skip(i as int)) == pat_lt(x, y),
        decreases a.len() - i,
    {
        let ghost xs = x.skip(i as int);
        let ghost ys = y.skip(i as int);
        assert(xs[0] == a@[i as int]@ && ys[0] == b@[i as int]@);
        if str_lt(a[i].as_str(), b[i].as_str()) {
            return true;
        }
        if !str_eq(a[i].as_str(), b[i].as_str()) {
            return false;
        }
        assert(xs.drop_first() =~= x.skip(i + 1));
        assert(ys.drop_first() =~= y.skip(i + 1));
        i += 1;
    }
    b.len() > i
}

fn ent_lt_exec(a: &(Vec<String>, u32), b: &(Vec<String>, u32)) -> (r: bool)
    ensures
        r == ent_lt(*a, *b),
{
    if a.1 != b.1 {
        a.1 > b.1
    } else {
        pat_lt_exec(&a.0, &b.0)
    }
}

/// Sort entries with distinct patterns by rank.
fn sort_mined(v: Vec<(Vec<String>, u32)>) -> (r: Vec<(Vec<String>, u32)>)
    requires
        forall|k1: int, k2: int| 0 <= k1 < k2 < v@.len() ==> pat(#[trigger] v@[k1]) != pat(#[trigger] v@[k2]),
    ensures
        forall|k: int| 0 <= k < r@.len() ==> v@.contains(#[trigger] r@[k]),
        forall|k: int| 0 <= k < v@.len() ==> r@.contains(#[trigger] v@[k]),
        forall|i: int, j: int| 0 <= i < j < r@.len() ==> ent_lt(#[trigger] r@[i], #[trigger] r@[j]),
{
    let ghost s = v@;
    let mut r: Vec<(Vec<String>, u32)> = Vec::new();
    let mut v = v;
    let mut i: usize = 0;
    let n = v.len();
    while i < n
        invariant
            n == s.len(),
            i <= n,
            v@.len() == n - i,
            forall|k: int| 0 <= k < v@.len() ==> #[trigger] v@[k] == s[i + k],
            forall|k1: int, k2: int| 0 <= k1 < k2 < s.len() ==> pat(#[trigger] s[k1]) != pat(#[trigger] s[k2]),
            forall|k: int| 0 <= k < r@.len() ==> s.take(i as int).contains(#[trigger] r@[k]),
            forall|k: int| 0 <= k < i ==> r@.contains(#[trigger] s[k]),
            forall|a: int, b: int| 0 <= a < b < r@.len() ==> ent_lt(#[trigger] r@[a], #[trigger] r@[b]),
        decreases n - i,
    {
        let e = v.remove(0);
        proof {
            assert(e == s[i as int]);
            assert forall|k: int| 0 <= k < v@.len() implies #[trigger] v@[k] == s[i + 1 + k] by {}
        }
        let mut pos: usize = 0;
        while pos < r.len() && !ent_lt_exec(&e, &r[pos])
            invariant
                pos <= r@.len(),
                forall|k: int| 0 <= k < pos ==> !ent_lt(e, #[trigger] r@[k]),
            decreases r.len() - pos,
        {
            pos += 1;
        }
        let ghost r0 = r@;
        proof {
            assert forall|k: int| 0 <= k < r0.len() implies pat(#[trigger] r0[k]) != pat(e) by {
                assert(s.take(i as int).contains(r0[k]));
                let a = choose|a: int| 0 <= a < s.take(i as int).len() && s.take(i as int)[a] == r0[k];
                assert(s[a] == r0[k]);
            }
            assert forall|k: int| 0 <= k < pos implies ent_lt(#[trigger] r0[k], e) by {
                lemma_ent_order(r0[k], e, e);
            }
            assert forall|k: int| pos <= k < r0.len() implies ent_lt(e, #[trigger] r0[k]) by {
                if k > pos {
                    lemma_ent_order(e, r0[pos as int], r0[k]);
                }
            }
        }
        r.insert(pos, e);
        proof {
            assert forall|a: int, b: int| 0 <= a < b < r@.len() implies ent_lt(#[trigger] r@[a], #[trigger] r@[b]) by {
                if b < pos {
                    assert(r@[a] == r0[a] && r@[b] == r0[b]);
                } else if b == pos {
                    assert(r@[a] == r0[a]);
                } else if a < pos {
                    assert(r@[a] == r0[a] && r@[b] == r0[b - 1]);
                    lemma_ent_order(r0[a], e, r0[b - 1]);
                } else if a == pos {
                    assert(r@[b] == r0[b - 1]);
                } else {
                    assert(r@[a] == r0[a - 1] && r@[b] == r0[b - 1]);
                }
            }
            assert forall|k: int| 0 <= k < r@.len() implies s.take(i + 1).contains(#[trigger] r@[k]) by {
                if k == pos {
                    assert(s.take(i + 1)[i as int] == e);
                } else {
                    let k0 = if k < pos { k } else { k - 1 };
                    assert(r@[k] == r0[k0]);
                    assert(s.take(i as int).contains(r0[k0]));
                    let a = choose|a: int| 0 <= a < s.take(i as int).len() && s.take(i as int)[a] == r0[k0];
                    assert(s.take(i + 1)[a] == r0[k0]);
                }
            }
            assert forall|k: int| 0 <= k < i + 1 implies r@.contains(#[trigger] s[k]) by {
                if k == i {
                    assert(r@[pos as int] == s[k]);
                } else {
                    assert(r0.contains(s[k]));
                    let a = choose|a: int| 0 <= a < r0.len() && r0[a] == s[k];
                    if a < pos {
                        assert(r@[a] == s[k]);
                    } else {
                        assert(r@[a + 1] == s[k]);
                    }
                }
            }
        }
        i += 1;
    }
    proof {
        assert(s.take(n as int) =~= s);
    }
    r
}

/// A pattern is frequent: two to `max_len` items long, and contained in at
/// least `min_support` chains (and in at least one).
pub open spec fn frequent(cv: Seq<Chain>, min_support: u32, max_len: usize, q: Chain) -> bool {
    mined(cv, Seq::empty(), min_support, max_len, q)
}

/// Mine the frequent sequential patterns (two to `max_len` items) of the
/// per-tab chains: each with its support, the number of chains containing
/// it as a subsequence; ordered by support descending, then pattern.
pub fn frequent_sequences(chains: &[Vec<String>], min_support: u32, max_len: usize) -> (r: Vec<(Vec<String>, u32)>)
    requires
        chains@.len() <= u32::MAX,
    ensures
        forall|k: int| 0 <= k < r@.len() ==> frequent(chains_view(chains@), min_support, max_len, pat(#[trigger] r@[k]))
            && r@[k].1 == support(chains_view(chains@), pat(r@[k])),
        forall|q: Chain| #[trigger] frequent(chains_view(chains@), min_support, max_len, q)
            ==> exists|k: int| 0 <= k < r@.len() && pat(#[trigger] r@[k]) == q,
        forall|i: int, j: int| 0 <= i < j < r@.len() ==> ent_lt(#[trigger] r@[i], #[trigger] r@[j]),
{
    let ghost cv = chains_view(chains@);
    let mut out: Vec<(Vec<String>, u32)> = Vec::new();
    if max_len == 0 {
        return out;
    }
    let mut db: Vec<(usize, usize)> = Vec::new();
    let mut i: usize = 0;
    while i < chains.len()
        invariant
            i <= chains@.len(),
            db@.len() == i,
            forall|t: int| 0 <= t < i ==> #[trigger] db@[t] == (t as usize, 0usize),
        decreases chains.len() - i,
    {
        db.push((i, 0));
        i += 1;
    }
    let mut prefix: Vec<String> = Vec::new();
    proof {
        assert(strs(prefix@) =~= Seq::<Seq<char>>::empty());
        assert forall|t: int| 0 <= t < db@.len() implies (#[trigger] db@[t]).0 < cv.len() && is_gend(Seq::empty(), cv[db@[t].0 as int], db@[t].1 as int) by {
            lemma_gend_empty(cv[t]);
        }
        assert forall|ci: int| 0 <= ci < cv.len() && is_subseq(Seq::empty(), #[trigger] cv[ci]) implies exists|t: int| 0 <= t < db@.len() && (#[trigger] db@[t]).0 == ci by {
            assert(db@[ci].0 == ci);
        }
    }
    prefixspan(chains, &db, &mut prefix, min_support, max_len, &mut out);
    proof {
        assert(out@.skip(0) =~= out@);
    }
    let ghost found = out@;
    let r = sort_mined(out);
    proof {
        assert forall|k: int| 0 <= k < r@.len() implies frequent(cv, min_support, max_len, pat(#[trigger] r@[k]))
            && r@[k].1 == support(cv, pat(r@[k])) by {
            let a = choose|a: int| 0 <= a < found.len() && found[a] == r@[k];
            assert(mined(cv, Seq::empty(), min_support, max_len, pat(found[a])));
        }
        assert forall|q: Chain| #[trigger] frequent(cv, min_support, max_len, q)
            implies exists|k: int| 0 <= k < r@.len() && pat(#[trigger] r@[k]) == q by {
            assert(mined(cv, Seq::empty(), min_support, max_len, q));
            let a = choose|a: int| 0 <= a < found.len() && pat(#[trigger] found[a]) == q;
            assert(r@.contains(found[a]));
            let k = choose|k: int| 0 <= k < r@.len() && r@[k] == found[a];
            assert(pat(r@[k]) == q);
        }
    }
    r
}

} // verus!
