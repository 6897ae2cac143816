//! Saved (named) views: a persisted list of view configurations the user can
//! name, re-apply and delete. Names match case-insensitively after trimming,
//! and the list is kept ordered by lower-cased name.
use vstd::prelude::*;
use crate::model::Granularity;
use crate::project::{Filters, TimeRange};
use crate::sorting::{is_stable_sort, sort_by_keys, KeyView, RankKey};
use crate::text::{chars_eq_ascii_ci, chars_of, decimal, eq_ascii_ci, push_decimal, push_str, string_of, trim_chars, trimmed};
use crate::urls::{lowercase_of, to_lower};

verus! {

/// Storage key the saved-views list is persisted under.
pub const STORAGE_KEY: &'static str = "savedViews";

/// One named snapshot of the dashboard's view controls.
#[derive(Clone, Debug, PartialEq)]
pub struct SavedView {
    pub name: String,
    pub range: TimeRange,
    pub gran: Granularity,
    pub filters: Filters,
    /// The in-app-navigations toggle the view was created against.
    pub spa_mode: bool,
}

/// Case-insensitive, trimmed name equality: the identity of a saved view.
pub open spec fn spec_same_name(a: Seq<char>, b: Seq<char>) -> bool {
    eq_ascii_ci(trimmed(a), trimmed(b))
}

/// Whether two names denote the same saved view.
pub fn same_name(a: &str, b: &str) -> (r: bool)
    ensures
        r == spec_same_name(a@, b@),
{
    let x = trim_chars(&chars_of(a));
    let y = trim_chars(&chars_of(b));
    chars_eq_ascii_ci(&x, &y)
}

/// The views whose name differs from `name`, in order.
pub open spec fn without_name(vs: Seq<SavedView>, name: Seq<char>) -> Seq<SavedView>
    decreases vs.len(),
{
    if vs.len() == 0 {
        Seq::<SavedView>::empty()
    } else {
        let prev = without_name(vs.drop_last(), name);
        if spec_same_name(vs.last().name@, name) {
            prev
        } else {
            prev.push(vs.last())
        }
    }
}

/// Drop every view named like `name`.
fn retain_other_names(views: Vec<SavedView>, name: &str) -> (r: Vec<SavedView>)
    ensures
        r@ == without_name(views@, name@),
{
    let ghost orig = views@;
    let mut out: Vec<SavedView> = Vec::new();
    for v in it: views
        invariant
            it.seq() == orig,
            out@ == without_name(orig.take(it.index() as int), name@),
    {
        let ghost i = it.index();
        assert(orig.take(i + 1).drop_last() =~= orig.take(i as int));
        assert(orig[i as int] == v);
        if !same_name(v.name.as_str(), name) {
            out.push(v);
        }
    }
    assert(orig.take(orig.len() as int) =~= orig);
    out
}

/// Sort key of a saved view: its lower-cased name.
pub open spec fn view_key(v: SavedView) -> KeyView {
    (0, lowercase_of(v.name@), Seq::<char>::empty())
}

/// Insert `view` (its name trimmed), replacing any view with the same name,
/// then order the list by lower-cased name (stably).
pub fn upsert(views: Vec<SavedView>, view: SavedView) -> (r: Vec<SavedView>)
    ensures
        exists|v: SavedView|
            v.name@ == trimmed(view.name@) && v.range == view.range && v.gran == view.gran
                && v.filters == view.filters && v.spa_mode == view.spa_mode && is_stable_sort(
                r@,
                without_name(views@, v.name@).push(v),
                |w: SavedView| view_key(w),
            ),
{
    let mut view = view;
    let ghost orig_view = view;
    view.name = string_of(&trim_chars(&chars_of(view.name.as_str())));
    let ghost nv = view;
    let mut rest = retain_other_names(views, view.name.as_str());
    rest.push(view);
    let ghost items = rest@;
    let mut keys: Vec<RankKey> = Vec::new();
    let mut i: usize = 0;
    while i < rest.len()
        invariant
            i <= rest@.len(),
            rest@ == items,
            keys@.len() == i,
            forall|a: int| 0 <= a < i ==> (#[trigger] keys@[a])@ == view_key(items[a]),
        decreases rest.len() - i,
    {
        let low = to_lower(rest[i].name.as_str());
        keys.push(RankKey { major: 0, first: chars_of(low.as_str()), second: Vec::new() });
        assert(keys@[i as int]@ =~= view_key(items[i as int]));
        i += 1;
    }
    let r = sort_by_keys(rest, &keys, Ghost(|w: SavedView| view_key(w)));
    assert(nv.name@ == trimmed(orig_view.name@));
    r
}

/// Remove every view whose name matches `name` (case-insensitively).
pub fn remove(views: Vec<SavedView>, name: &str) -> (r: Vec<SavedView>)
    ensures
        r@ == without_name(views@, name@),
{
    retain_other_names(views, name)
}

/// Look up a view by (case-insensitive, trimmed) name: the first match.
pub fn find<'a>(views: &'a [SavedView], name: &str) -> (r: Option<&'a SavedView>)
    ensures
        match r {
            Some(v) => exists|i: int|
                0 <= i < views@.len() && views@[i] == *v && spec_same_name(v.name@, name@) && forall|j: int|
                    0 <= j < i ==> !spec_same_name((#[trigger] views@[j]).name@, name@),
            None => forall|i: int| 0 <= i < views@.len() ==> !spec_same_name((#[trigger] views@[i]).name@, name@),
        },
{
    let mut i: usize = 0;
    while i < views.len()
        invariant
            i <= views@.len(),
            forall|j: int| 0 <= j < i ==> !spec_same_name((#[trigger] views@[j]).name@, name@),
        decreases views.len() - i,
    {
        if same_name(views[i].name.as_str(), name) {
            return Some(&views[i]);
        }
        i += 1;
    }
    None
}

/// The short label of a time range (as on the range control).
pub open spec fn spec_range_label(r: TimeRange) -> Seq<char> {
    match r {
        TimeRange::Session => "Session"@,
        TimeRange::Day => "Day"@,
        TimeRange::Week => "Week"@,
        TimeRange::Month => "Month"@,
        TimeRange::Year => "Year"@,
    }
}

/// The short label of a time range.
pub fn range_label(r: TimeRange) -> (s: &'static str)
    ensures
        s@ == spec_range_label(r),
{
    match r {
        TimeRange::Session => "Session",
        TimeRange::Day => "Day",
        TimeRange::Week => "Week",
        TimeRange::Month => "Month",
        TimeRange::Year => "Year",
    }
}

/// One-line summary of a saved view: its range, then each non-default knob,
/// joined by ` · `.
pub open spec fn spec_view_summary(v: SavedView) -> Seq<char> {
    let sep = " · "@;
    spec_range_label(v.range)
        + (if v.gran == Granularity::Registrable { sep + "domains"@ } else { Seq::empty() })
        + (if v.filters.min_visits > 1 { sep + "≥"@ + decimal(v.filters.min_visits as nat) + " visits"@ } else { Seq::empty() })
        + (if v.filters.hide_search_hubs { sep + "no search hubs"@ } else { Seq::empty() })
        + (if v.filters.hide_isolated { sep + "no isolated"@ } else { Seq::empty() })
        + (if v.spa_mode { sep + "in-app navs"@ } else { Seq::empty() })
}

/// One-line summary of a saved view's non-default knobs, for the list row.
pub fn view_summary(v: &SavedView) -> (r: String)
    ensures
        r@ == spec_view_summary(*v),
{
    let ghost sep = " · "@;
    let mut s = String::new();
    push_str(&mut s, range_label(v.range));
    let ghost s0 = s@;
    if matches!(v.gran, Granularity::Registrable) {
        push_str(&mut s, " · ");
        push_str(&mut s, "domains");
    }
    let ghost s1 = s@;
    proof {
        assert(s1 =~= s0 + (if v.gran == Granularity::Registrable { sep + "domains"@ } else { Seq::empty() }));
    }
    if v.filters.min_visits > 1 {
        push_str(&mut s, " · ");
        push_str(&mut s, "≥");
        push_decimal(&mut s, v.filters.min_visits as u64);
        push_str(&mut s, " visits");
    }
    let ghost s2 = s@;
    proof {
        assert(s2 =~= s1 + (if v.filters.min_visits > 1 { sep + "≥"@ + decimal(v.filters.min_visits as nat) + " visits"@ } else { Seq::empty() }));
    }
    if v.filters.hide_search_hubs {
        push_str(&mut s, " · ");
        push_str(&mut s, "no search hubs");
    }
    let ghost s3 = s@;
    proof {
        assert(s3 =~= s2 + (if v.filters.hide_search_hubs { sep + "no search hubs"@ } else { Seq::empty() }));
    }
    if v.filters.hide_isolated {
        push_str(&mut s, " · ");
        push_str(&mut s, "no isolated");
    }
    let ghost s4 = s@;
    proof {
        assert(s4 =~= s3 + (if v.filters.hide_isolated { sep + "no isolated"@ } else { Seq::empty() }));
    }
    if v.spa_mode {
        push_str(&mut s, " · ");
        push_str(&mut s, "in-app navs");
    }
    proof {
        assert(s@ =~= s4 + (if v.spa_mode { sep + "in-app navs"@ } else { Seq::empty() }));
        assert(s0 =~= spec_range_label(v.range));
    }
    s
}

} // verus!
