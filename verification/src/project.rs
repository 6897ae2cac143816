//! Range projection: time windows over day buckets, window navigation and
//! labels, bucket merging into a graph, display filters, activity summaries,
//! and drill-down subgraphs.
use vstd::prelude::*;
use crate::model::{copy_edge, copy_node, EdgeAgg, GraphProjection, Granularity, NodeAgg, ProvBreakdown, Provenance};
use crate::numparse::{parse_i64, spec_parse_i64};
use crate::flow::strs;
use crate::rollup::DayBucket;
pub use crate::projection::project;
pub use crate::period::{daily_series, period_delta, range_counts, rank_surges, surge_candidates, PeriodDelta, RangeCounts, Surge};
pub use crate::walk::{session_back, session_forward, session_order, SessionStep};
use crate::text::{chars_of, decimal, lemma_lex_asymmetric, lemma_lex_irreflexive, lemma_lex_total, lemma_lex_transitive, lex_lt, push_decimal, push_str, split_chars, split_on, str_eq};
use vstd::relations::{sorted_by, total_ordering};

verus! {

/// Display filters applied to the merged projection.
#[derive(Clone, Debug, PartialEq)]
pub struct Filters {
    pub min_visits: u32,
    pub hide_search_hubs: bool,
    /// Drop degree-0 nodes so the connected structure fills the frame.
    pub hide_isolated: bool,
    pub provenance_in: Option<Vec<Provenance>>,
}

impl Default for Filters {
    fn default() -> (r: Filters)
        ensures
            r.min_visits == 0,
            !r.hide_search_hubs,
            !r.hide_isolated,
            r.provenance_in is None,
    {
        Filters { min_visits: 0, hide_search_hubs: false, hide_isolated: false, provenance_in: None }
    }
}

/// Time window over the day-bucket history, measured back from its end.
#[derive(Clone, Copy, Debug, PartialEq, Eq, Structural)]
pub enum TimeRange {
    /// The most recent session, about the latest day with data.
    Session,
    Day,
    Week,
    Month,
    /// Default: effectively all recent history.
    Year,
}

impl Default for TimeRange {
    fn default() -> (r: TimeRange)
        ensures
            r == TimeRange::Year,
    {
        TimeRange::Year
    }
}

pub open spec fn range_days(r: TimeRange) -> int {
    match r {
        TimeRange::Session | TimeRange::Day => 1,
        TimeRange::Week => 7,
        TimeRange::Month => 30,
        TimeRange::Year => 365,
    }
}

impl TimeRange {
    /// Trailing window length in days (inclusive of the end day).
    pub fn days(self) -> (d: i64)
        ensures
            d == range_days(self),
    {
        match self {
            TimeRange::Session | TimeRange::Day => 1,
            TimeRange::Week => 7,
            TimeRange::Month => 30,
            TimeRange::Year => 365,
        }
    }
}

/// Largest year magnitude the day arithmetic is used on (beyond it the
/// civil-date arithmetic would overflow `i64`).
pub open spec fn year_ok(y: int) -> bool {
    -1_000_000_000_000_000 <= y <= 1_000_000_000_000_000
}

/// The `(year, month, day)` fields of a `YYYY-MM-DD` string, as parsed.
pub open spec fn date_fields(date: Seq<char>) -> Option<(int, int, int)> {
    let ps = split_on(date, '-');
    if ps.len() < 3 {
        None
    } else {
        match (spec_parse_i64(ps[0]), spec_parse_i64(ps[1]), spec_parse_i64(ps[2])) {
            (Some(y), Some(m), Some(d)) => Some((y, m, d)),
            _ => None,
        }
    }
}

/// Whether the day arithmetic on `date` stays within `i64`.
pub open spec fn date_ok(date: Seq<char>) -> bool {
    match date_fields(date) {
        Some((y, _m, _d)) => year_ok(y),
        None => true,
    }
}

/// Days since the Unix epoch of a proleptic Gregorian civil date.
pub open spec fn days_from_civil(y: int, m: int, d: int) -> int {
    let y = if m <= 2 {
        y - 1
    } else {
        y
    };
    let era = y / 400;
    let yoe = y - era * 400;
    let doy = (153 * (if m > 2 {
        m - 3
    } else {
        m + 9
    }) + 2) / 5 + d - 1;
    let doe = yoe * 365 + yoe / 4 - yoe / 100 + doy;
    era * 146097 + doe - 719468
}

/// The day number of a `YYYY-MM-DD` date; `None` when malformed.
pub open spec fn spec_day_number(date: Seq<char>) -> Option<int> {
    match date_fields(date) {
        Some((y, m, d)) => if 1 <= m <= 12 && 1 <= d <= 31 {
            Some(days_from_civil(y, m, d))
        } else {
            None
        },
        None => None,
    }
}

/// Days since the Unix epoch for a `YYYY-MM-DD` UTC date; `None` for a
/// malformed date.
#[verifier::spinoff_prover]
pub fn day_number(date: &str) -> (r: Option<i64>)
    requires
        date_ok(date@),
    ensures
        match spec_day_number(date@) {
            Some(n) => r == Some(n as i64) && n == r->0,
            None => r is None,
        },
{
    let cs = chars_of(date);
    let parts = split_chars(&cs, '-');
    if parts.len() < 3 {
        return None;
    }
    let y = parse_i64(&parts[0])?;
    let m = parse_i64(&parts[1])?;
    let d = parse_i64(&parts[2])?;
    if !(1 <= m && m <= 12) || !(1 <= d && d <= 31) {
        return None;
    }
    let y = if m <= 2 {
        y - 1
    } else {
        y
    };
    let era = (if y >= 0 {
        y
    } else {
        y - 399
    }) / 400;
    let yoe = y - era * 400;
    let doy = (153 * (if m > 2 {
        m - 3
    } else {
        m + 9
    }) + 2) / 5 + d - 1;
    let doe = yoe * 365 + yoe / 4 - yoe / 100 + doy;
    Some(era * 146097 + doe - 719468)
}

/// Whether the day arithmetic on `date` stays within `i64`.
pub fn date_in_range(date: &str) -> (r: bool)
    ensures
        r == date_ok(date@),
{
    let cs = chars_of(date);
    let parts = split_chars(&cs, '-');
    if parts.len() < 3 {
        return true;
    }
    match (parse_i64(&parts[0]), parse_i64(&parts[1]), parse_i64(&parts[2])) {
        (Some(y), Some(_), Some(_)) => -1_000_000_000_000_000 <= y && y <= 1_000_000_000_000_000,
        _ => true,
    }
}

/// Whether every bucket date is within the range the day arithmetic
/// supports.
pub fn dates_in_range(buckets: &[DayBucket]) -> (r: bool)
    ensures
        r == dates_ok(buckets@),
{
    let mut i: usize = 0;
    while i < buckets.len()
        invariant
            i <= buckets@.len(),
            forall|j: int| 0 <= j < i ==> date_ok((#[trigger] buckets@[j]).date@),
        decreases buckets.len() - i,
    {
        if !date_in_range(buckets[i].date.as_str()) {
            return false;
        }
        i += 1;
    }
    true
}

/// Day numbers the inverse conversion is used on.
pub open spec fn day_ok(z: int) -> bool {
    -100_000_000_000_000_000 <= z <= 100_000_000_000_000_000
}

/// The proleptic Gregorian `(year, month, day)` of a day number.
pub open spec fn spec_civil_from_days(z: int) -> (int, int, int) {
    let z = z + 719468;
    let era = z / 146097;
    let doe = z - era * 146097;
    let yoe = (doe - doe / 1460 + doe / 36524 - doe / 146096) / 365;
    let y = yoe + era * 400;
    let doy = doe - (365 * yoe + yoe / 4 - yoe / 100);
    let mp = (5 * doy + 2) / 153;
    let d = doy - (153 * mp + 2) / 5 + 1;
    let m = if mp < 10 {
        mp + 3
    } else {
        mp - 9
    };
    (if m <= 2 {
        y + 1
    } else {
        y
    }, m, d)
}

/// Inverse of [`day_number`]: the `(year, month, day)` UTC civil date of a
/// day number; month is 1-12, day 1-31.
pub fn civil_from_days(z: i64) -> (r: (i64, u32, u32))
    requires
        day_ok(z as int),
    ensures
        (r.0 as int, r.1 as int, r.2 as int) == spec_civil_from_days(z as int),
        1 <= r.1 <= 12,
        1 <= r.2 <= 31,
{
    let z = z + 719468;
    let era = (if z >= 0 {
        z
    } else {
        z - 146096
    }) / 146097;
    let doe = z - era * 146097;
    assert(0 <= doe < 146097) by (nonlinear_arith)
        requires
            era == z / 146097,
            doe == z - era * 146097,
    ;
    let yoe = (doe - doe / 1460 + doe / 36524 - doe / 146096) / 365;
    assert(0 <= yoe <= 399) by (nonlinear_arith)
        requires
            0 <= doe < 146097,
            yoe == (doe - doe / 1460 + doe / 36524 - doe / 146096) / 365,
    ;
    let y = yoe + era * 400;
    let doy = doe - (365 * yoe + yoe / 4 - yoe / 100);
    assert(0 <= doy <= 365) by (nonlinear_arith)
        requires
            0 <= doe < 146097,
            yoe == (doe - doe / 1460 + doe / 36524 - doe / 146096) / 365,
            doy == doe - (365 * yoe + yoe / 4 - yoe / 100),
    ;
    let mp = (5 * doy + 2) / 153;
    let d = (doy - (153 * mp + 2) / 5 + 1) as u32;
    let m = (if mp < 10 {
        mp + 3
    } else {
        mp - 9
    }) as u32;
    (if m <= 2 {
        y + 1
    } else {
        y
    }, m, d)
}

} // verus!

verus! {

/// Weekday index (Sun = 0 ... Sat = 6) of a day number; day 0 (1970-01-01)
/// is a Thursday.
pub fn weekday(z: i64) -> (w: usize)
    ensures
        w == (z + 4) % 7,
{
    let r = z % 7 + 4;
    let e = if r >= 7 {
        r - 7
    } else if r < 0 {
        r + 7
    } else {
        r
    };
    e as usize
}

/// Short month names, January first.
pub const MONTHS: [&'static str; 12] = [
    "Jan", "Feb", "Mar", "Apr", "May", "Jun", "Jul", "Aug", "Sep", "Oct", "Nov", "Dec",
];

/// Short weekday names, Sunday first.
pub const WDAYS: [&'static str; 7] = ["Sun", "Mon", "Tue", "Wed", "Thu", "Fri", "Sat"];

pub open spec fn month_name(m: int) -> Seq<char> {
    if m == 1 {
        "Jan"@
    } else if m == 2 {
        "Feb"@
    } else if m == 3 {
        "Mar"@
    } else if m == 4 {
        "Apr"@
    } else if m == 5 {
        "May"@
    } else if m == 6 {
        "Jun"@
    } else if m == 7 {
        "Jul"@
    } else if m == 8 {
        "Aug"@
    } else if m == 9 {
        "Sep"@
    } else if m == 10 {
        "Oct"@
    } else if m == 11 {
        "Nov"@
    } else {
        "Dec"@
    }
}

pub open spec fn wday_name(w: int) -> Seq<char> {
    if w == 0 {
        "Sun"@
    } else if w == 1 {
        "Mon"@
    } else if w == 2 {
        "Tue"@
    } else if w == 3 {
        "Wed"@
    } else if w == 4 {
        "Thu"@
    } else if w == 5 {
        "Fri"@
    } else {
        "Sat"@
    }
}

/// Short name of month `m` (1-12).
pub fn month_str(m: u32) -> (s: &'static str)
    ensures
        s@ == month_name(m as int),
{
    if m == 1 {
        "Jan"
    } else if m == 2 {
        "Feb"
    } else if m == 3 {
        "Mar"
    } else if m == 4 {
        "Apr"
    } else if m == 5 {
        "May"
    } else if m == 6 {
        "Jun"
    } else if m == 7 {
        "Jul"
    } else if m == 8 {
        "Aug"
    } else if m == 9 {
        "Sep"
    } else if m == 10 {
        "Oct"
    } else if m == 11 {
        "Nov"
    } else {
        "Dec"
    }
}

/// Short name of weekday `w` (Sun = 0).
pub fn wday_str(w: usize) -> (s: &'static str)
    ensures
        s@ == wday_name(w as int),
{
    if w == 0 {
        "Sun"
    } else if w == 1 {
        "Mon"
    } else if w == 2 {
        "Tue"
    } else if w == 3 {
        "Wed"
    } else if w == 4 {
        "Thu"
    } else if w == 5 {
        "Fri"
    } else {
        "Sat"
    }
}

pub open spec fn spec_window_label(range: TimeRange, start_day: int, end_day: int) -> Seq<char> {
    let e = spec_civil_from_days(end_day);
    if range == TimeRange::Day || range == TimeRange::Session {
        wday_name((end_day + 4) % 7) + ", "@ + month_name(e.1) + " "@ + decimal(e.2 as nat)
    } else {
        let s = spec_civil_from_days(start_day);
        if s.0 != e.0 {
            month_name(s.1) + " "@ + decimal(s.2 as nat) + ", "@ + crate::text::int_decimal(s.0)
                + " – "@ + month_name(e.1) + " "@ + decimal(e.2 as nat) + ", "@
                + crate::text::int_decimal(e.0)
        } else if s.1 == e.1 {
            month_name(s.1) + " "@ + decimal(s.2 as nat) + " – "@ + decimal(e.2 as nat)
        } else {
            month_name(s.1) + " "@ + decimal(s.2 as nat) + " – "@ + month_name(e.1) + " "@
                + decimal(e.2 as nat)
        }
    }
}

/// Human label for the window `[start_day, end_day]` under `range`: the end
/// day for `Day`/`Session` (`"Wed, Jul 1"`), else a start-end span
/// (`"Jun 23 – 29"`, `"Jun 30 – Jul 6"`, `"Jul 7, 2024 – Jul 6, 2025"`).
pub fn window_label(range: TimeRange, start_day: i64, end_day: i64) -> (r: String)
    requires
        day_ok(start_day as int),
        day_ok(end_day as int),
    ensures
        r@ == spec_window_label(range, start_day as int, end_day as int),
{
    let (ey, em, ed) = civil_from_days(end_day);
    let mut s = String::new();
    if matches!(range, TimeRange::Day | TimeRange::Session) {
        push_str(&mut s, wday_str(weekday(end_day)));
        push_str(&mut s, ", ");
        push_str(&mut s, month_str(em));
        push_str(&mut s, " ");
        push_decimal(&mut s, ed as u64);
        assert(s@ =~= spec_window_label(range, start_day as int, end_day as int));
        return s;
    }
    let (sy, sm, sd) = civil_from_days(start_day);
    push_str(&mut s, month_str(sm));
    push_str(&mut s, " ");
    push_decimal(&mut s, sd as u64);
    if sy != ey {
        push_str(&mut s, ", ");
        crate::text::push_int(&mut s, sy);
        push_str(&mut s, " – ");
        push_str(&mut s, month_str(em));
        push_str(&mut s, " ");
        push_decimal(&mut s, ed as u64);
        push_str(&mut s, ", ");
        crate::text::push_int(&mut s, ey);
    } else if sm == em {
        push_str(&mut s, " – ");
        push_decimal(&mut s, ed as u64);
    } else {
        push_str(&mut s, " – ");
        push_str(&mut s, month_str(em));
        push_str(&mut s, " ");
        push_decimal(&mut s, ed as u64);
    }
    assert(s@ =~= spec_window_label(range, start_day as int, end_day as int));
    s
}

/// Every bucket date is within the range the day arithmetic supports.
pub open spec fn dates_ok(bs: Seq<DayBucket>) -> bool {
    forall|i: int| 0 <= i < bs.len() ==> date_ok((#[trigger] bs[i]).date@)
}

pub open spec fn max_opt(a: Option<int>, b: Option<int>) -> Option<int> {
    match (a, b) {
        (Some(x), Some(y)) => Some(if x >= y { x } else { y }),
        (Some(x), None) => Some(x),
        (None, y) => y,
    }
}

pub open spec fn min_opt(a: Option<int>, b: Option<int>) -> Option<int> {
    match (a, b) {
        (Some(x), Some(y)) => Some(if x <= y { x } else { y }),
        (Some(x), None) => Some(x),
        (None, y) => y,
    }
}

/// The latest parsed bucket day, `None` when no date parses.
pub open spec fn spec_latest_day(bs: Seq<DayBucket>) -> Option<int>
    decreases bs.len(),
{
    if bs.len() == 0 {
        None
    } else {
        max_opt(spec_latest_day(bs.drop_last()), spec_day_number(bs.last().date@))
    }
}

/// The earliest parsed bucket day, `None` when no date parses.
pub open spec fn spec_earliest_day(bs: Seq<DayBucket>) -> Option<int>
    decreases bs.len(),
{
    if bs.len() == 0 {
        None
    } else {
        min_opt(spec_earliest_day(bs.drop_last()), spec_day_number(bs.last().date@))
    }
}

/// A parsed day number stays within `day_ok`.
pub proof fn lemma_day_number_bounds(date: Seq<char>)
    requires
        date_ok(date),
        spec_day_number(date) is Some,
    ensures
        -400_000_000_000_000_000 <= spec_day_number(date)->0 <= 400_000_000_000_000_000,
{
    let (y, m, d) = date_fields(date)->0;
    let y2 = if m <= 2 { y - 1 } else { y };
    let era = y2 / 400;
    let yoe = y2 - era * 400;
    assert(0 <= yoe < 400);
    assert(-2_600_000_000_000 <= era <= 2_600_000_000_000);
    assert(-400_000_000_000_000_000 <= era * 146097 <= 400_000_000_000_000_000) by (nonlinear_arith)
        requires -2_600_000_000_000 <= era <= 2_600_000_000_000;
}

/// The latest dated bucket's day number, or `None` when no date parses.
pub fn latest_day(buckets: &[DayBucket]) -> (r: Option<i64>)
    requires
        dates_ok(buckets@),
    ensures
        match spec_latest_day(buckets@) {
            Some(n) => r == Some(n as i64) && r->0 == n,
            None => r is None,
        },
{
    let mut best: Option<i64> = None;
    let mut i: usize = 0;
    while i < buckets.len()
        invariant
            i <= buckets@.len(),
            dates_ok(buckets@),
            match spec_latest_day(buckets@.take(i as int)) {
                Some(n) => best == Some(n as i64) && best->0 == n,
                None => best is None,
            },
        decreases buckets.len() - i,
    {
        assert(buckets@.take(i + 1).drop_last() =~= buckets@.take(i as int));
        match day_number(buckets[i].date.as_str()) {
            Some(d) => {
                best = match best {
                    Some(b) => Some(if b >= d {
                        b
                    } else {
                        d
                    }),
                    None => Some(d),
                };
            },
            None => {},
        }
        i += 1;
    }
    assert(buckets@.take(buckets@.len() as int) =~= buckets@);
    best
}

/// The earliest dated bucket's day number, or `None` when no date parses.
pub fn earliest_day(buckets: &[DayBucket]) -> (r: Option<i64>)
    requires
        dates_ok(buckets@),
    ensures
        match spec_earliest_day(buckets@) {
            Some(n) => r == Some(n as i64) && r->0 == n,
            None => r is None,
        },
{
    let mut best: Option<i64> = None;
    let mut i: usize = 0;
    while i < buckets.len()
        invariant
            i <= buckets@.len(),
            dates_ok(buckets@),
            match spec_earliest_day(buckets@.take(i as int)) {
                Some(n) => best == Some(n as i64) && best->0 == n,
                None => best is None,
            },
        decreases buckets.len() - i,
    {
        assert(buckets@.take(i + 1).drop_last() =~= buckets@.take(i as int));
        match day_number(buckets[i].date.as_str()) {
            Some(d) => {
                best = match best {
                    Some(b) => Some(if b <= d {
                        b
                    } else {
                        d
                    }),
                    None => Some(d),
                };
            },
            None => {},
        }
        i += 1;
    }
    assert(buckets@.take(buckets@.len() as int) =~= buckets@);
    best
}

} // verus!

verus! {

/// An explicit window end is far enough from the `i64` limits for the window
/// arithmetic (a year either side).
pub open spec fn anchor_ok(anchor_end: Option<i64>) -> bool {
    match anchor_end {
        Some(a) => -400_000_000_000_000_000 <= a <= 400_000_000_000_000_000,
        None => true,
    }
}

/// The window end: the explicit anchor when set, else the latest bucket day.
pub open spec fn spec_resolve_end(bs: Seq<DayBucket>, anchor_end: Option<i64>) -> Option<int> {
    match anchor_end {
        Some(a) => Some(a as int),
        None => spec_latest_day(bs),
    }
}

pub proof fn lemma_latest_bounds(bs: Seq<DayBucket>)
    requires
        dates_ok(bs),
    ensures
        spec_latest_day(bs) is Some ==> -400_000_000_000_000_000 <= spec_latest_day(bs)->0 <= 400_000_000_000_000_000,
        spec_earliest_day(bs) is Some ==> -400_000_000_000_000_000 <= spec_earliest_day(bs)->0 <= 400_000_000_000_000_000,
    decreases bs.len(),
{
    if bs.len() > 0 {
        assert(dates_ok(bs.drop_last())) by {
            assert forall|i: int| 0 <= i < bs.drop_last().len() implies date_ok((#[trigger] bs.drop_last()[i]).date@) by {
                assert(bs.drop_last()[i] == bs[i]);
            }
        }
        lemma_latest_bounds(bs.drop_last());
        assert(date_ok(bs[bs.len() - 1].date@));
        if spec_day_number(bs.last().date@) is Some {
            lemma_day_number_bounds(bs.last().date@);
        }
    }
}

/// Resolve a window's end day number.
pub fn resolve_end(buckets: &[DayBucket], anchor_end: Option<i64>) -> (r: Option<i64>)
    requires
        dates_ok(buckets@),
        anchor_ok(anchor_end),
    ensures
        match spec_resolve_end(buckets@, anchor_end) {
            Some(n) => r == Some(n as i64) && r->0 == n,
            None => r is None,
        },
        r is Some ==> -400_000_000_000_000_000 <= r->0 <= 400_000_000_000_000_000,
{
    proof {
        lemma_latest_bounds(buckets@);
    }
    match anchor_end {
        Some(a) => Some(a),
        None => latest_day(buckets),
    }
}

/// Whether a bucket lies in `[cutoff, end]` (an unparseable date always does).
pub open spec fn in_window(b: DayBucket, cutoff: int, end: int) -> bool {
    match spec_day_number(b.date@) {
        Some(d) => cutoff <= d <= end,
        None => true,
    }
}

/// The buckets within `[cutoff, end]`, in order.
pub open spec fn window_buckets(bs: Seq<DayBucket>, cutoff: int, end: int) -> Seq<DayBucket>
    decreases bs.len(),
{
    if bs.len() == 0 {
        Seq::<DayBucket>::empty()
    } else {
        let prev = window_buckets(bs.drop_last(), cutoff, end);
        if in_window(bs.last(), cutoff, end) {
            prev.push(bs.last())
        } else {
            prev
        }
    }
}

/// `r` matches `s` bucket for bucket.
pub open spec fn same_buckets(r: Seq<DayBucket>, s: Seq<DayBucket>) -> bool {
    r.len() == s.len() && forall|i: int| 0 <= i < r.len() ==> (#[trigger] r[i]).same(s[i])
}

pub open spec fn spec_select_window(bs: Seq<DayBucket>, range: TimeRange, anchor_end: Option<i64>) -> Seq<DayBucket> {
    match spec_resolve_end(bs, anchor_end) {
        Some(end) => window_buckets(bs, end - (range_days(range) - 1), end),
        None => bs,
    }
}

/// Keep only the buckets whose date falls in `range`'s window ending at
/// `anchor_end` (or at the latest dated bucket when `None`): the window is
/// `[end - (days - 1), end]`. Buckets with unparseable dates are kept, and
/// when no end resolves everything is passed through.
pub fn select_window(buckets: &[DayBucket], range: TimeRange, anchor_end: Option<i64>) -> (r: Vec<DayBucket>)
    requires
        dates_ok(buckets@),
        anchor_ok(anchor_end),
    ensures
        same_buckets(r@, spec_select_window(buckets@, range, anchor_end)),
{
    let end_opt = resolve_end(buckets, anchor_end);
    let mut out: Vec<DayBucket> = Vec::new();
    let mut i: usize = 0;
    match end_opt {
        None => {
            while i < buckets.len()
                invariant
                    i <= buckets@.len(),
                    same_buckets(out@, buckets@.take(i as int)),
                decreases buckets.len() - i,
            {
                out.push(crate::rollup::copy_bucket(&buckets[i]));
                i += 1;
            }
            assert(buckets@.take(buckets@.len() as int) =~= buckets@);
            out
        },
        Some(end) => {
            let cutoff = end - (range.days() - 1);
            while i < buckets.len()
                invariant
                    i <= buckets@.len(),
                    dates_ok(buckets@),
                    same_buckets(out@, window_buckets(buckets@.take(i as int), cutoff as int, end as int)),
                decreases buckets.len() - i,
            {
                assert(buckets@.take(i + 1).drop_last() =~= buckets@.take(i as int));
                let keep = match day_number(buckets[i].date.as_str()) {
                    Some(d) => d >= cutoff && d <= end,
                    None => true,
                };
                if keep {
                    out.push(crate::rollup::copy_bucket(&buckets[i]));
                }
                i += 1;
            }
            assert(buckets@.take(buckets@.len() as int) =~= buckets@);
            out
        },
    }
}

/// Inclusive `[start_day, end_day]` of the window for `range` ending at
/// `anchor_end` (or the latest dated bucket); `None` when neither exists.
pub fn window_day_bounds(buckets: &[DayBucket], range: TimeRange, anchor_end: Option<i64>) -> (r: Option<(i64, i64)>)
    requires
        dates_ok(buckets@),
        anchor_ok(anchor_end),
    ensures
        match spec_resolve_end(buckets@, anchor_end) {
            Some(end) => r matches Some((s, e)) && e == end && s == end - (range_days(range) - 1),
            None => r is None,
        },
{
    let end = resolve_end(buckets, anchor_end)?;
    Some((end - (range.days() - 1), end))
}

/// Whether stepping one range duration earlier is allowed: the window it
/// would land on must still start on or after the earliest recorded day.
/// Always false without dated buckets.
pub fn can_step_back(buckets: &[DayBucket], range: TimeRange, anchor_end: Option<i64>) -> (r: bool)
    requires
        dates_ok(buckets@),
        anchor_ok(anchor_end),
    ensures
        r == match (spec_resolve_end(buckets@, anchor_end), spec_earliest_day(buckets@)) {
            (Some(end), Some(earliest)) => (end - range_days(range)) - (range_days(range) - 1) >= earliest,
            _ => false,
        },
{
    proof {
        lemma_latest_bounds(buckets@);
    }
    let end = resolve_end(buckets, anchor_end);
    let earliest = earliest_day(buckets);
    match (end, earliest) {
        (Some(end), Some(earliest)) => {
            let days = range.days();
            let next_start = (end - days) - (days - 1);
            next_start >= earliest
        },
        _ => false,
    }
}

/// Whether stepping one range duration later is allowed: only when anchored
/// strictly before the latest data.
pub fn can_step_forward(buckets: &[DayBucket], _range: TimeRange, anchor_end: Option<i64>) -> (r: bool)
    requires
        dates_ok(buckets@),
    ensures
        r == match (anchor_end, spec_latest_day(buckets@)) {
            (Some(end), Some(latest)) => end < latest,
            _ => false,
        },
{
    match (anchor_end, latest_day(buckets)) {
        (Some(end), Some(latest)) => end < latest,
        _ => false,
    }
}

/// The anchor end after stepping back: exactly one range duration earlier.
pub fn back_end(buckets: &[DayBucket], range: TimeRange, anchor_end: Option<i64>) -> (r: Option<i64>)
    requires
        dates_ok(buckets@),
        anchor_ok(anchor_end),
    ensures
        match spec_resolve_end(buckets@, anchor_end) {
            Some(end) => r == Some((end - range_days(range)) as i64) && r->0 == end - range_days(range),
            None => r is None,
        },
{
    match resolve_end(buckets, anchor_end) {
        Some(end) => Some(end - range.days()),
        None => None,
    }
}

/// The anchor after stepping forward: one range duration later, or `None`
/// (back to the live view) when that reaches or passes the latest day.
pub fn forward_end(buckets: &[DayBucket], range: TimeRange, anchor_end: Option<i64>) -> (r: Option<i64>)
    requires
        dates_ok(buckets@),
        anchor_ok(anchor_end),
    ensures
        match spec_resolve_end(buckets@, anchor_end) {
            Some(end) => match spec_latest_day(buckets@) {
                Some(latest) => if end + range_days(range) >= latest {
                    r is None
                } else {
                    r == Some((end + range_days(range)) as i64) && r->0 == end + range_days(range)
                },
                None => r == Some((end + range_days(range)) as i64) && r->0 == end + range_days(range),
            },
            None => r is None,
        },
{
    let end = resolve_end(buckets, anchor_end)?;
    let next = end + range.days();
    match latest_day(buckets) {
        Some(latest) => if next >= latest {
            None
        } else {
            Some(next)
        },
        None => Some(next),
    }
}

} // verus!

verus! {

/// The 1-2-5 ladder of minimum-visit thresholds above "all".
pub open spec fn ladder() -> Seq<u32> {
    seq![2u32, 5, 10, 20, 50, 100, 200, 500, 1_000, 2_000, 5_000, 10_000, 20_000, 50_000, 100_000, 200_000]
}

/// How many ladder steps (from `i` on) do not exceed `max`.
pub open spec fn ladder_fit(max: u32, i: int) -> int
    decreases 16 - i,
{
    if i < 0 || i >= 16 {
        0
    } else if ladder()[i] > max {
        0
    } else {
        1 + ladder_fit(max, i + 1)
    }
}

pub open spec fn spec_visit_thresholds(max: u32) -> Seq<u32> {
    let all = seq![1u32] + ladder().take(ladder_fit(max, 0));
    if all.len() > 6 {
        seq![1u32] + all.skip(all.len() - 5)
    } else {
        all
    }
}

/// The threshold menu for the minimum-visits filter: always `1` ("all
/// sites"), then the 1-2-5 ladder up to `max_visits`, capped at six entries
/// by keeping "all" and the five largest cuts.
pub fn visit_thresholds(max_visits: u32) -> (r: Vec<u32>)
    ensures
        r@ == spec_visit_thresholds(max_visits),
{
    let lad: [u32; 16] = [2, 5, 10, 20, 50, 100, 200, 500, 1_000, 2_000, 5_000, 10_000, 20_000, 50_000, 100_000, 200_000];
    proof {
        assert(lad@ =~= ladder());
    }
    let mut out: Vec<u32> = Vec::new();
    out.push(1);
    let mut i: usize = 0;
    while i < 16 && lad[i] <= max_visits
        invariant
            i <= 16,
            lad@ == ladder(),
            out@ == seq![1u32] + ladder().take(i as int),
            forall|j: int| 0 <= j < i ==> ladder()[j] <= max_visits,
            ladder_fit(max_visits, 0) == i + ladder_fit(max_visits, i as int),
        decreases 16 - i,
    {
        out.push(lad[i]);
        proof {
            assert(ladder().take(i + 1) =~= ladder().take(i as int).push(ladder()[i as int]));
        }
        i += 1;
    }
    proof {
        assert(ladder_fit(max_visits, i as int) == 0);
    }
    if out.len() > 6 {
        let ghost all = out@;
        let mut capped: Vec<u32> = Vec::new();
        capped.push(1);
        let start = out.len() - 5;
        let mut j: usize = start;
        while j < out.len()
            invariant
                start <= j <= out@.len(),
                start == out@.len() - 5,
                capped@ == seq![1u32] + out@.subrange(start as int, j as int),
            decreases out.len() - j,
        {
            capped.push(out[j]);
            proof {
                assert(out@.subrange(start as int, j + 1) =~= out@.subrange(start as int, j as int).push(out@[j as int]));
            }
            j += 1;
        }
        proof {
            assert(out@.subrange(start as int, out@.len() as int) =~= all.skip(all.len() - 5));
        }
        capped
    } else {
        out
    }
}

/// Nodes of `ns` whose key satisfies `keep`, in order.
pub open spec fn keep_nodes(ns: Seq<NodeAgg>, keep: spec_fn(Seq<char>) -> bool) -> Seq<NodeAgg>
    decreases ns.len(),
{
    if ns.len() == 0 {
        Seq::empty()
    } else {
        let r = keep_nodes(ns.drop_last(), keep);
        if keep(ns.last().key@) {
            r.push(ns.last())
        } else {
            r
        }
    }
}

/// Edges of `es` whose endpoints both satisfy `keep`, in order.
pub open spec fn keep_edges(es: Seq<EdgeAgg>, keep: spec_fn(Seq<char>) -> bool) -> Seq<EdgeAgg>
    decreases es.len(),
{
    if es.len() == 0 {
        Seq::empty()
    } else {
        let r = keep_edges(es.drop_last(), keep);
        if keep(es.last().from@) && keep(es.last().to@) {
            r.push(es.last())
        } else {
            r
        }
    }
}

/// The sub-projection of the nodes and edges that `keep` admits.
fn restrict(p: &GraphProjection, keep: &Vec<String>, Ghost(sel): Ghost<spec_fn(Seq<char>) -> bool>) -> (r: GraphProjection)
    requires
        forall|k: Seq<char>| #[trigger] sel(k) == strs(keep@).contains(k),
    ensures
        r.nodes@ == keep_nodes(p.nodes@, sel),
        r.edges@ == keep_edges(p.edges@, sel),
{
    let mut nodes: Vec<NodeAgg> = Vec::new();
    let mut i: usize = 0;
    while i < p.nodes.len()
        invariant
            i <= p.nodes@.len(),
            forall|k: Seq<char>| #[trigger] sel(k) == strs(keep@).contains(k),
            nodes@ == keep_nodes(p.nodes@.take(i as int), sel),
        decreases p.nodes.len() - i,
    {
        proof {
            assert(p.nodes@.take(i + 1).drop_last() =~= p.nodes@.take(i as int));
        }
        if contains_str(keep, p.nodes[i].key.as_str()) {
            nodes.push(copy_node(&p.nodes[i]));
        }
        i += 1;
    }
    let mut edges: Vec<EdgeAgg> = Vec::new();
    let mut j: usize = 0;
    while j < p.edges.len()
        invariant
            j <= p.edges@.len(),
            forall|k: Seq<char>| #[trigger] sel(k) == strs(keep@).contains(k),
            edges@ == keep_edges(p.edges@.take(j as int), sel),
        decreases p.edges.len() - j,
    {
        proof {
            assert(p.edges@.take(j + 1).drop_last() =~= p.edges@.take(j as int));
        }
        if contains_str(keep, p.edges[j].from.as_str()) && contains_str(keep, p.edges[j].to.as_str()) {
            edges.push(copy_edge(&p.edges[j]));
        }
        j += 1;
    }
    proof {
        assert(p.nodes@.take(p.nodes@.len() as int) =~= p.nodes@);
        assert(p.edges@.take(p.edges@.len() as int) =~= p.edges@);
    }
    GraphProjection { nodes, edges }
}

/// Whether `k` is among `ks`.
pub fn contains_str(ks: &Vec<String>, k: &str) -> (r: bool)
    ensures
        r == strs(ks@).contains(k@),
{
    let mut i: usize = 0;
    while i < ks.len()
        invariant
            i <= ks@.len(),
            forall|a: int| 0 <= a < i ==> ks@[a]@ != k@,
        decreases ks.len() - i,
    {
        if str_eq(ks[i].as_str(), k) {
            proof {
                assert(strs(ks@)[i as int] == k@);
            }
            return true;
        }
        i += 1;
    }
    proof {
        if strs(ks@).contains(k@) {
            let a = choose|a: int| 0 <= a < ks@.len() && strs(ks@)[a] == k@;
            assert(ks@[a]@ == k@);
        }
    }
    false
}

/// `k` is the focus or one of its direct neighbors.
pub open spec fn in_ego(es: Seq<EdgeAgg>, focus: Seq<char>, k: Seq<char>) -> bool {
    k == focus || exists|i: int|
        0 <= i < es.len() && ((es[i].from@ == focus && es[i].to@ == k) || (es[i].to@ == focus && es[i].from@ == k))
}

/// The ego sub-graph of `focus`: the node, its direct neighbors, and the
/// edges among that set.
pub fn ego(p: &GraphProjection, focus: &str) -> (r: GraphProjection)
    ensures
        r.nodes@ == keep_nodes(p.nodes@, |k: Seq<char>| in_ego(p.edges@, focus@, k)),
        r.edges@ == keep_edges(p.edges@, |k: Seq<char>| in_ego(p.edges@, focus@, k)),
{
    let ghost es = p.edges@;
    let mut keep: Vec<String> = Vec::new();
    keep.push(focus.to_string());
    proof {
        assert forall|k: Seq<char>| strs(keep@).contains(k) <==> k == focus@ by {
            if k == focus@ {
                assert(strs(keep@)[0] == k);
            }
        }
    }
    let mut i: usize = 0;
    while i < p.edges.len()
        invariant
            i <= es.len(),
            es == p.edges@,
            forall|k: Seq<char>| strs(keep@).contains(k) <==> (k == focus@ || exists|j: int|
                0 <= j < i && ((es[j].from@ == focus@ && es[j].to@ == k) || (es[j].to@ == focus@ && es[j].from@ == k))),
        decreases p.edges.len() - i,
    {
        let ghost k0 = strs(keep@);
        if str_eq(p.edges[i].from.as_str(), focus) {
            keep.push(p.edges[i].to.clone());
            proof {
                assert(strs(keep@).drop_last() =~= k0);
            }
        }
        let ghost k1 = strs(keep@);
        if str_eq(p.edges[i].to.as_str(), focus) {
            keep.push(p.edges[i].from.clone());
            proof {
                assert(strs(keep@).drop_last() =~= k1);
            }
        }
        proof {
            let k2 = strs(keep@);
            assert forall|k: Seq<char>| k2.contains(k) <==> (k == focus@ || exists|j: int|
                0 <= j < i + 1 && ((es[j].from@ == focus@ && es[j].to@ == k) || (es[j].to@ == focus@ && es[j].from@ == k))) by {
                lemma_push_contains(k0, k1, k2, k);
                if exists|j: int| 0 <= j < i + 1 && ((es[j].from@ == focus@ && es[j].to@ == k) || (es[j].to@ == focus@ && es[j].from@ == k)) {
                    let j = choose|j: int| 0 <= j < i + 1 && ((es[j].from@ == focus@ && es[j].to@ == k) || (es[j].to@ == focus@ && es[j].from@ == k));
                    if j < i {
                        assert(k0.contains(k));
                    }
                }
            }
        }
        i += 1;
    }
    restrict(p, &keep, Ghost(|k: Seq<char>| in_ego(p.edges@, focus@, k)))
}

/// Membership across two optional pushes.
proof fn lemma_push_contains(k0: Seq<Seq<char>>, k1: Seq<Seq<char>>, k2: Seq<Seq<char>>, k: Seq<char>)
    requires
        k1 == k0 || (k1.len() == k0.len() + 1 && k1.drop_last() == k0),
        k2 == k1 || (k2.len() == k1.len() + 1 && k2.drop_last() == k1),
    ensures
        k2.contains(k) <==> (k0.contains(k) || (k1 != k0 && k1.last() == k) || (k2 != k1 && k2.last() == k)),
{
    if k2.contains(k) {
        let a = choose|a: int| 0 <= a < k2.len() && k2[a] == k;
        if k2 != k1 && a == k2.len() - 1 {
        } else {
            let b = a;
            assert(k1[b] == k);
            if k1 != k0 && b == k1.len() - 1 {
            } else {
                assert(k0[b] == k);
            }
        }
    }
    if k0.contains(k) {
        let a = choose|a: int| 0 <= a < k0.len() && k0[a] == k;
        assert(k1[a] == k);
        assert(k2[a] == k);
    }
    if k1 != k0 && k1.last() == k {
        assert(k2[k1.len() - 1] == k);
    }
    if k2 != k1 && k2.last() == k {
        assert(k2[k2.len() - 1] == k);
    }
}

} // verus!

verus! {

/// Some edge joins `a` and `b` (either direction).
pub open spec fn adjacent(es: Seq<EdgeAgg>, a: Seq<char>, b: Seq<char>) -> bool {
    exists|i: int| 0 <= i < es.len() && ((es[i].from@ == a && es[i].to@ == b) || (es[i].to@ == a && es[i].from@ == b))
}

/// Consecutive keys `w[i]`, `w[i + 1]` are adjacent.
pub open spec fn step_ok(es: Seq<EdgeAgg>, w: Seq<Seq<char>>, i: int) -> bool {
    adjacent(es, w[i], w[i + 1])
}

/// `b` is reachable from `a` through edges taken in either direction.
pub open spec fn reaches(es: Seq<EdgeAgg>, a: Seq<char>, b: Seq<char>) -> bool {
    exists|w: Seq<Seq<char>>|
        #![trigger w.len(), w[0]]
        w.len() > 0 && w[0] == a && w[w.len() - 1] == b && forall|i: int| 0 <= i < w.len() - 1 ==> #[trigger] step_ok(es, w, i)
}

/// `k` is in the connected network of `focus` (which must be a node).
pub open spec fn in_component(p: GraphProjection, focus: Seq<char>, k: Seq<char>) -> bool {
    (exists|i: int| 0 <= i < p.nodes@.len() && p.nodes@[i].key@ == focus) && reaches(p.edges@, focus, k)
}

/// The candidate keys of a component: the focus and every edge endpoint.
pub open spec fn candidates(es: Seq<EdgeAgg>, focus: Seq<char>) -> Seq<Seq<char>> {
    seq![focus] + es.map_values(|e: EdgeAgg| e.from@) + es.map_values(|e: EdgeAgg| e.to@)
}

proof fn lemma_distinct_len(keep: Seq<Seq<char>>, cand: Seq<Seq<char>>)
    requires
        keep.no_duplicates(),
        forall|k: Seq<char>| keep.contains(k) ==> cand.contains(k),
    ensures
        keep.len() <= cand.len(),
{
    keep.unique_seq_to_set();
    assert(keep.to_set().subset_of(cand.to_set()));
    vstd::set_lib::lemma_len_subset(keep.to_set(), cand.to_set());
    cand.lemma_cardinality_of_set();
}

/// Path extension: `a` reaches `b` and `b` is adjacent to `c`.
proof fn lemma_reach_step(es: Seq<EdgeAgg>, a: Seq<char>, b: Seq<char>, c: Seq<char>)
    requires
        reaches(es, a, b),
        adjacent(es, b, c),
    ensures
        reaches(es, a, c),
{
    let w = choose|w: Seq<Seq<char>>|
        #![trigger w.len(), w[0]]
        w.len() > 0 && w[0] == a && w[w.len() - 1] == b && forall|i: int| 0 <= i < w.len() - 1 ==> #[trigger] step_ok(es, w, i);
    let w2 = w.push(c);
    assert forall|i: int| 0 <= i < w2.len() - 1 implies #[trigger] step_ok(es, w2, i) by {
        if i < w.len() - 1 {
            assert(step_ok(es, w, i));
            assert(w2[i] == w[i] && w2[i + 1] == w[i + 1]);
        } else {
            assert(w2[i] == b && w2[i + 1] == c);
        }
    }
    assert(w2.len() > 0 && w2[0] == a && w2[w2.len() - 1] == c);
}

/// A key set closed under adjacency that holds `a` holds everything `a` reaches.
proof fn lemma_closed_reach(es: Seq<EdgeAgg>, keep: Seq<Seq<char>>, a: Seq<char>, b: Seq<char>)
    requires
        keep.contains(a),
        reaches(es, a, b),
        forall|x: Seq<char>, y: Seq<char>| keep.contains(x) && #[trigger] adjacent(es, x, y) ==> keep.contains(y),
    ensures
        keep.contains(b),
{
    let w = choose|w: Seq<Seq<char>>|
        #![trigger w.len(), w[0]]
        w.len() > 0 && w[0] == a && w[w.len() - 1] == b && forall|i: int| 0 <= i < w.len() - 1 ==> #[trigger] step_ok(es, w, i);
    lemma_closed_walk(es, keep, w, 0);
}

proof fn lemma_closed_walk(es: Seq<EdgeAgg>, keep: Seq<Seq<char>>, w: Seq<Seq<char>>, i: int)
    requires
        0 <= i < w.len(),
        keep.contains(w[i]),
        forall|j: int| 0 <= j < w.len() - 1 ==> #[trigger] step_ok(es, w, j),
        forall|x: Seq<char>, y: Seq<char>| keep.contains(x) && #[trigger] adjacent(es, x, y) ==> keep.contains(y),
    ensures
        keep.contains(w[w.len() - 1]),
    decreases w.len() - i,
{
    if i < w.len() - 1 {
        assert(step_ok(es, w, i));
        lemma_closed_walk(es, keep, w, i + 1);
    }
}

/// The whole connected network of `focus`: every node reachable through
/// edges taken in either direction, and the edges among that set (empty
/// when `focus` is not a node).
pub fn component(p: &GraphProjection, focus: &str) -> (r: GraphProjection)
    ensures
        r.nodes@ == keep_nodes(p.nodes@, |k: Seq<char>| in_component(*p, focus@, k)),
        r.edges@ == keep_edges(p.edges@, |k: Seq<char>| in_component(*p, focus@, k)),
{
    let ghost es = p.edges@;
    let ghost cand = candidates(es, focus@);
    let mut keep: Vec<String> = Vec::new();
    let mut seeded = false;
    let mut i: usize = 0;
    while i < p.nodes.len()
        invariant
            i <= p.nodes@.len(),
            seeded == exists|a: int| 0 <= a < i && p.nodes@[a].key@ == focus@,
        decreases p.nodes.len() - i,
    {
        if str_eq(p.nodes[i].key.as_str(), focus) {
            seeded = true;
        }
        i += 1;
    }
    let mut stack: Vec<String> = Vec::new();
    if seeded {
        keep.push(focus.to_string());
        stack.push(focus.to_string());
        proof {
            assert(strs(keep@)[0] == focus@);
            assert(strs(stack@)[0] == focus@);
            assert(strs(keep@) =~= seq![focus@]);
            assert(strs(stack@) =~= seq![focus@]);
            assert(cand[0] == focus@);
            let w = seq![focus@];
            assert(w.len() > 0 && w[0] == focus@ && w[w.len() - 1] == focus@);
            assert(reaches(es, focus@, focus@));
        }
    }
    while stack.len() > 0
        invariant
            es == p.edges@,
            cand == candidates(es, focus@),
            seeded ==> strs(keep@).contains(focus@),
            !seeded ==> keep@.len() == 0 && stack@.len() == 0,
            strs(keep@).no_duplicates(),
            forall|k: Seq<char>| strs(keep@).contains(k) ==> seeded && reaches(es, focus@, k),
            forall|k: Seq<char>| strs(keep@).contains(k) ==> cand.contains(k),
            forall|k: Seq<char>| strs(stack@).contains(k) ==> strs(keep@).contains(k),
            forall|x: Seq<char>, y: Seq<char>|
                strs(keep@).contains(x) && #[trigger] adjacent(es, x, y) ==> strs(stack@).contains(x) || strs(keep@).contains(y),
        decreases cand.len() - keep@.len(), stack@.len(),
    {
        proof {
            lemma_distinct_len(strs(keep@), cand);
        }
        let ghost sfull = strs(stack@);
        let u = stack.pop().unwrap();
        let ghost k0 = strs(keep@);
        let ghost s0 = strs(stack@);
        proof {
            assert(sfull[sfull.len() - 1] == u@);
            assert(sfull.contains(u@));
            assert(strs(keep@).contains(u@));
            assert(sfull =~= s0.push(u@));
            lemma_push_str(s0, sfull, u@);
        }
        let mut j: usize = 0;
        while j < p.edges.len()
            invariant
                j <= es.len(),
                es == p.edges@,
                cand == candidates(es, focus@),
                seeded,
                strs(keep@).contains(u@),
                strs(keep@).no_duplicates(),
                keep@.len() >= k0.len(),
                stack@.len() + k0.len() == s0.len() + keep@.len(),
                forall|k: Seq<char>| k0.contains(k) ==> strs(keep@).contains(k),
                forall|k: Seq<char>| strs(keep@).contains(k) ==> reaches(es, focus@, k),
                forall|k: Seq<char>| strs(keep@).contains(k) ==> cand.contains(k),
                forall|k: Seq<char>| strs(stack@).contains(k) ==> strs(keep@).contains(k),
                forall|k: Seq<char>| s0.contains(k) ==> strs(stack@).contains(k),
                forall|k: Seq<char>| strs(keep@).contains(k) && !k0.contains(k) ==> strs(stack@).contains(k),
                forall|a: int|
                    0 <= a < j ==> (es[a].from@ == u@ ==> strs(keep@).contains(#[trigger] es[a].to@)) && (es[a].to@ == u@
                        ==> strs(keep@).contains(es[a].from@)),
            decreases p.edges.len() - j,
        {
            let e_from = p.edges[j].from.as_str();
            let e_to = p.edges[j].to.as_str();
            if str_eq(e_from, u.as_str()) && !contains_str(&keep, e_to) {
                let ghost kb = strs(keep@);
                let ghost sb = strs(stack@);
                keep.push(e_to.to_string());
                stack.push(e_to.to_string());
                proof {
                    assert(strs(keep@) =~= kb.push(e_to@));
                    assert(strs(stack@) =~= sb.push(e_to@));
                    lemma_push_str(kb, strs(keep@), e_to@);
                    lemma_push_str(sb, strs(stack@), e_to@);
                    assert(adjacent(es, u@, e_to@)) by {
                        assert(es[j as int].from@ == u@ && es[j as int].to@ == e_to@);
                    }
                    lemma_reach_step(es, focus@, u@, e_to@);
                    assert(cand.contains(e_to@)) by {
                        let tos = es.map_values(|e: EdgeAgg| e.to@);
                        assert(tos[j as int] == e_to@);
                        let froms = es.map_values(|e: EdgeAgg| e.from@);
                        assert(cand[1 + froms.len() + j] == e_to@);
                    }
                }
            }
            if str_eq(e_to, u.as_str()) && !contains_str(&keep, e_from) {
                let ghost kb = strs(keep@);
                let ghost sb = strs(stack@);
                keep.push(e_from.to_string());
                stack.push(e_from.to_string());
                proof {
                    assert(strs(keep@) =~= kb.push(e_from@));
                    assert(strs(stack@) =~= sb.push(e_from@));
                    lemma_push_str(kb, strs(keep@), e_from@);
                    lemma_push_str(sb, strs(stack@), e_from@);
                    assert(adjacent(es, u@, e_from@)) by {
                        assert(es[j as int].to@ == u@ && es[j as int].from@ == e_from@);
                    }
                    lemma_reach_step(es, focus@, u@, e_from@);
                    assert(cand.contains(e_from@)) by {
                        let froms = es.map_values(|e: EdgeAgg| e.from@);
                        assert(froms[j as int] == e_from@);
                        assert(cand[1 + j] == e_from@);
                    }
                }
            }
            j += 1;
        }
        proof {
            // Every neighbour of `u` is now kept.
            assert forall|y: Seq<char>| #[trigger] adjacent(es, u@, y) implies strs(keep@).contains(y) by {
                let a = choose|a: int| 0 <= a < es.len() && ((es[a].from@ == u@ && es[a].to@ == y) || (es[a].to@ == u@ && es[a].from@ == y));
                assert(es[a].from@ == u@ ==> strs(keep@).contains(es[a].to@));
            }
            assert forall|x: Seq<char>, y: Seq<char>|
                strs(keep@).contains(x) && #[trigger] adjacent(es, x, y) implies strs(stack@).contains(x) || strs(keep@).contains(y) by {
                if !k0.contains(x) {
                } else if x == u@ {
                } else {
                    // `x` was closed, or sat lower on the stack.
                    if s0.contains(x) {
                    } else {
                        assert(k0.contains(y) || strs(stack@).contains(x) || s0.contains(x) || x == u@);
                    }
                }
            }
            lemma_distinct_len(strs(keep@), cand);
        }
    }
    proof {
        assert forall|k: Seq<char>| #[trigger] in_component(*p, focus@, k) == strs(keep@).contains(k) by {
            if in_component(*p, focus@, k) {
                assert(seeded);
                assert forall|x: Seq<char>, y: Seq<char>| strs(keep@).contains(x) && #[trigger] adjacent(es, x, y) implies strs(keep@).contains(y) by {
                    assert(!strs(stack@).contains(x));
                }
                lemma_closed_reach(es, strs(keep@), focus@, k);
            }
            if strs(keep@).contains(k) {
                assert(seeded);
            }
        }
    }
    restrict(p, &keep, Ghost(|k: Seq<char>| in_component(*p, focus@, k)))
}

/// Membership after a push.
proof fn lemma_push_str(before: Seq<Seq<char>>, after: Seq<Seq<char>>, x: Seq<char>)
    requires
        after == before.push(x),
    ensures
        forall|k: Seq<char>| after.contains(k) <==> (before.contains(k) || k == x),
        !before.contains(x) && before.no_duplicates() ==> after.no_duplicates(),
{
    assert forall|k: Seq<char>| after.contains(k) <==> (before.contains(k) || k == x) by {
        if after.contains(k) {
            let a = choose|a: int| 0 <= a < after.len() && after[a] == k;
            if a < before.len() {
                assert(before[a] == k);
            }
        }
        if before.contains(k) {
            let a = choose|a: int| 0 <= a < before.len() && before[a] == k;
            assert(after[a] == k);
        }
        if k == x {
            assert(after[before.len() as int] == k);
        }
    }
    if !before.contains(x) && before.no_duplicates() {
        assert forall|i: int, j: int| 0 <= i < after.len() && 0 <= j < after.len() && i != j implies after[i] != after[j] by {
            if i < before.len() && j < before.len() {
            } else if i == before.len() {
                assert(before[j] == after[j]);
            } else {
                assert(before[i] == after[i]);
            }
        }
    }
}

} // verus!

verus! {

/// Non-strict lexicographic order on keys.
pub open spec fn key_le(a: Seq<char>, b: Seq<char>) -> bool {
    !lex_lt(b, a)
}

/// Non-strict lexicographic order on `(from, to)` pairs.
pub open spec fn pair_le(a: (Seq<char>, Seq<char>), b: (Seq<char>, Seq<char>)) -> bool {
    lex_lt(a.0, b.0) || (a.0 == b.0 && !lex_lt(b.1, a.1))
}

pub proof fn lemma_key_le_total()
    ensures
        total_ordering(|a: Seq<char>, b: Seq<char>| key_le(a, b)),
{
    let r = |a: Seq<char>, b: Seq<char>| key_le(a, b);
    assert forall|x: Seq<char>| #[trigger] r(x, x) by {
        lemma_lex_irreflexive(x);
    }
    assert forall|x: Seq<char>, y: Seq<char>| #[trigger] r(x, y) && #[trigger] r(y, x) implies x == y by {
        lemma_lex_total(x, y);
    }
    assert forall|x: Seq<char>, y: Seq<char>, z: Seq<char>| #[trigger] r(x, y) && #[trigger] r(y, z) implies r(x, z) by {
        if lex_lt(z, x) {
            lemma_lex_total(x, y);
            lemma_lex_total(y, z);
            if lex_lt(x, y) {
                lemma_lex_transitive(z, x, y);
            } else if lex_lt(y, z) {
                lemma_lex_transitive(y, z, x);
            } else {
                assert(x =~= y);
                assert(y =~= z);
                lemma_lex_irreflexive(x);
            }
        }
    }
    assert forall|x: Seq<char>, y: Seq<char>| #[trigger] r(x, y) || #[trigger] r(y, x) by {
        lemma_lex_asymmetric(x, y);
    }
}

pub proof fn lemma_pair_le_total()
    ensures
        total_ordering(|a: (Seq<char>, Seq<char>), b: (Seq<char>, Seq<char>)| pair_le(a, b)),
{
    let r = |a: (Seq<char>, Seq<char>), b: (Seq<char>, Seq<char>)| pair_le(a, b);
    assert forall|x: (Seq<char>, Seq<char>)| #[trigger] r(x, x) by {
        lemma_lex_irreflexive(x.1);
    }
    assert forall|x: (Seq<char>, Seq<char>), y: (Seq<char>, Seq<char>)| #[trigger] r(x, y) && #[trigger] r(y, x) implies x == y by {
        lemma_lex_asymmetric(x.0, y.0);
        if x.0 == y.0 {
            lemma_lex_total(x.1, y.1);
            lemma_lex_irreflexive(x.0);
        } else {
            lemma_lex_irreflexive(x.0);
        }
    }
    assert forall|x: (Seq<char>, Seq<char>), y: (Seq<char>, Seq<char>), z: (Seq<char>, Seq<char>)|
        #[trigger] r(x, y) && #[trigger] r(y, z) implies r(x, z) by {
        if lex_lt(x.0, y.0) && lex_lt(y.0, z.0) {
            lemma_lex_transitive(x.0, y.0, z.0);
        } else if lex_lt(x.0, y.0) || lex_lt(y.0, z.0) {
        } else {
            if lex_lt(z.1, x.1) {
                lemma_lex_total(x.1, y.1);
                lemma_lex_total(y.1, z.1);
                if lex_lt(x.1, y.1) {
                    lemma_lex_transitive(z.1, x.1, y.1);
                } else if lex_lt(y.1, z.1) {
                    lemma_lex_transitive(y.1, z.1, x.1);
                } else {
                    assert(x.1 =~= y.1);
                    assert(y.1 =~= z.1);
                    lemma_lex_irreflexive(x.1);
                }
            }
        }
    }
    assert forall|x: (Seq<char>, Seq<char>), y: (Seq<char>, Seq<char>)| #[trigger] r(x, y) || #[trigger] r(y, x) by {
        lemma_lex_total(x.0, y.0);
        lemma_lex_asymmetric(x.1, y.1);
        if x.0 == y.0 {
        } else {
            lemma_lex_asymmetric(x.0, y.0);
        }
    }
}

/// The node keys of a projection.
pub open spec fn node_keys(p: GraphProjection) -> Seq<Seq<char>> {
    p.nodes@.map_values(|n: NodeAgg| n.key@)
}

/// The `(from, to)` pairs of a projection's edges.
pub open spec fn edge_pairs(p: GraphProjection) -> Seq<(Seq<char>, Seq<char>)> {
    p.edges@.map_values(|e: EdgeAgg| (e.from@, e.to@))
}

/// `std::hash::BuildHasher::hash_one` with `DefaultHasher` on the key list and
/// the pair list. Nothing is stated of the result: std documents that hashes
/// differ between platforms (integer width, byte order) and compiler releases.
#[verifier::external_body]
fn hash_shape(nodes: &Vec<String>, edges: &Vec<(String, String)>) -> u64 {
    std::hash::BuildHasher::hash_one(
        &std::hash::BuildHasherDefault::<std::collections::hash_map::DefaultHasher>::default(),
        (nodes, edges),
    )
}

/// The node keys sorted (insertion sort).
fn sorted_keys(p: &GraphProjection) -> (r: Vec<String>)
    ensures
        strs(r@) == node_keys(*p).sort_by(|a: Seq<char>, b: Seq<char>| key_le(a, b)),
{
    let ghost leq = |a: Seq<char>, b: Seq<char>| key_le(a, b);
    let ghost ks = node_keys(*p);
    let mut out: Vec<String> = Vec::new();
    let mut i: usize = 0;
    proof {
        lemma_key_le_total();
        assert(ks.take(0) =~= Seq::<Seq<char>>::empty());
        assert(strs(out@) =~= Seq::<Seq<char>>::empty());
    }
    while i < p.nodes.len()
        invariant
            i <= p.nodes@.len(),
            ks == node_keys(*p),
            leq == (|a: Seq<char>, b: Seq<char>| key_le(a, b)),
            total_ordering(leq),
            sorted_by(strs(out@), leq),
            strs(out@).to_multiset() == ks.take(i as int).to_multiset(),
        decreases p.nodes.len() - i,
    {
        let k = p.nodes[i].key.as_str();
        let ghost kv = k@;
        let ghost o = strs(out@);
        let mut pos: usize = 0;
        while pos < out.len() && !crate::text::str_lt(k, out[pos].as_str())
            invariant
                pos <= out@.len(),
                o == strs(out@),
                kv == k@,
                forall|a: int| 0 <= a < pos ==> !lex_lt(kv, #[trigger] o[a]),
            decreases out.len() - pos,
        {
            proof {
                assert(o[pos as int] == out@[pos as int]@);
            }
            pos += 1;
        }
        proof {
            if pos < out@.len() {
                assert(o[pos as int] == out@[pos as int]@);
                assert(lex_lt(kv, o[pos as int]));
            }
        }
        out.insert(pos, k.to_string());
        proof {
            let o2 = strs(out@);
            assert(o2 =~= o.insert(pos as int, kv));
            vstd::seq_lib::to_multiset_insert(o, pos as int, kv);
            assert(ks.take(i + 1) =~= ks.take(i as int).push(kv));
            vstd::seq_lib::to_multiset_build(ks.take(i as int), kv);
            assert forall|a: int, b: int| 0 <= a < b < o2.len() implies #[trigger] leq(o2[a], o2[b]) by {
                if a < pos && b < pos {
                    assert(o2[a] == o[a] && o2[b] == o[b]);
                    assert(leq(o[a], o[b]));
                    assert(leq(o2[a], o2[b]));
                } else if a < pos && b == pos {
                    assert(o2[a] == o[a] && o2[b] == kv);
                    assert(!lex_lt(kv, o[a]));
                    assert(leq(o2[a], o2[b]));
                } else if a < pos {
                    assert(o2[a] == o[a] && o2[b] == o[b - 1]);
                    assert(leq(o[a], o[b - 1]));
                    assert(leq(o2[a], o2[b]));
                } else if a == pos {
                    assert(o2[a] == kv && o2[b] == o[b - 1]);
                    assert(lex_lt(kv, o[pos as int]));
                    if b - 1 > pos {
                        assert(leq(o[pos as int], o[b - 1]));
                        if lex_lt(o[b - 1], kv) {
                            lemma_lex_transitive(o[b - 1], kv, o[pos as int]);
                        }
                        assert(leq(o2[a], o2[b]));
                    } else {
                        lemma_lex_asymmetric(kv, o[pos as int]);
                        assert(leq(o2[a], o2[b]));
                    }
                } else {
                    assert(o2[a] == o[a - 1] && o2[b] == o[b - 1]);
                    assert(leq(o[a - 1], o[b - 1]));
                    assert(leq(o2[a], o2[b]));
                }
            }
        }
        i += 1;
    }
    proof {
        assert(ks.take(ks.len() as int) =~= ks);
        ks.lemma_sort_by_ensures(leq);
        vstd::seq_lib::lemma_sorted_unique(strs(out@), ks.sort_by(leq), leq);
    }
    out
}


fn pair_le_exec(a: &str, b: &str, c: &str, d: &str) -> (r: bool)
    ensures
        r == pair_le((a@, b@), (c@, d@)),
{
    crate::text::str_lt(a, c) || (str_eq(a, c) && !crate::text::str_lt(d, b))
}

/// The edge pairs sorted (insertion sort).
fn sorted_pairs(p: &GraphProjection) -> (r: Vec<(String, String)>)
    ensures
        crate::flow::pairs_view(r@) == edge_pairs(*p).sort_by(|a: (Seq<char>, Seq<char>), b: (Seq<char>, Seq<char>)| pair_le(a, b)),
{
    let ghost leq = |a: (Seq<char>, Seq<char>), b: (Seq<char>, Seq<char>)| pair_le(a, b);
    let ghost ks = edge_pairs(*p);
    let mut out: Vec<(String, String)> = Vec::new();
    let mut i: usize = 0;
    proof {
        lemma_pair_le_total();
        assert(ks.take(0) =~= Seq::<(Seq<char>, Seq<char>)>::empty());
        assert(crate::flow::pairs_view(out@) =~= Seq::<(Seq<char>, Seq<char>)>::empty());
    }
    while i < p.edges.len()
        invariant
            i <= p.edges@.len(),
            ks == edge_pairs(*p),
            leq == (|a: (Seq<char>, Seq<char>), b: (Seq<char>, Seq<char>)| pair_le(a, b)),
            total_ordering(leq),
            sorted_by(crate::flow::pairs_view(out@), leq),
            crate::flow::pairs_view(out@).to_multiset() == ks.take(i as int).to_multiset(),
        decreases p.edges.len() - i,
    {
        let f = p.edges[i].from.as_str();
        let t = p.edges[i].to.as_str();
        let ghost kv = (f@, t@);
        let ghost o = crate::flow::pairs_view(out@);
        let mut pos: usize = 0;
        while pos < out.len() && pair_le_exec(out[pos].0.as_str(), out[pos].1.as_str(), f, t)
            invariant
                pos <= out@.len(),
                o == crate::flow::pairs_view(out@),
                kv == (f@, t@),
                leq == (|a: (Seq<char>, Seq<char>), b: (Seq<char>, Seq<char>)| pair_le(a, b)),
                forall|a: int| 0 <= a < pos ==> leq(#[trigger] o[a], kv),
            decreases out.len() - pos,
        {
            proof {
                assert(o[pos as int] == (out@[pos as int].0@, out@[pos as int].1@));
            }
            pos += 1;
        }
        proof {
            if pos < out@.len() {
                assert(o[pos as int] == (out@[pos as int].0@, out@[pos as int].1@));
                assert(!leq(o[pos as int], kv));
                assert(leq(o[pos as int], kv) || leq(kv, o[pos as int]));
            }
        }
        out.insert(pos, (f.to_string(), t.to_string()));
        proof {
            let o2 = crate::flow::pairs_view(out@);
            assert(o2 =~= o.insert(pos as int, kv));
            vstd::seq_lib::to_multiset_insert(o, pos as int, kv);
            assert(ks[i as int] == kv);
            assert(ks.take(i + 1) =~= ks.take(i as int).push(kv));
            vstd::seq_lib::to_multiset_build(ks.take(i as int), kv);
            assert forall|a: int, b: int| 0 <= a < b < o2.len() implies #[trigger] leq(o2[a], o2[b]) by {
                if a < pos && b < pos {
                    assert(o2[a] == o[a] && o2[b] == o[b]);
                    assert(leq(o[a], o[b]));
                } else if a < pos && b == pos {
                    assert(o2[a] == o[a] && o2[b] == kv);
                    assert(leq(o[a], kv));
                } else if a < pos {
                    assert(o2[a] == o[a] && o2[b] == o[b - 1]);
                    assert(leq(o[a], o[b - 1]));
                } else if a == pos {
                    assert(o2[a] == kv && o2[b] == o[b - 1]);
                    assert(leq(kv, o[pos as int]));
                    if b - 1 > pos {
                        assert(leq(o[pos as int], o[b - 1]));
                        assert(leq(kv, o[pos as int]) && leq(o[pos as int], o[b - 1]));
                    }
                } else {
                    assert(o2[a] == o[a - 1] && o2[b] == o[b - 1]);
                    assert(leq(o[a - 1], o[b - 1]));
                }
            }
        }
        i += 1;
    }
    proof {
        assert(ks.take(ks.len() as int) =~= ks);
        ks.lemma_sort_by_ensures(leq);
        vstd::seq_lib::lemma_sorted_unique(crate::flow::pairs_view(out@), ks.sort_by(leq), leq);
    }
    out
}

/// The layout-relevant shape of a projection: its node keys sorted, and its
/// edge pairs sorted. Visit counts and list order do not enter.
pub fn layout_shape(p: &GraphProjection) -> (r: (Vec<String>, Vec<(String, String)>))
    ensures
        strs(r.0@) == node_keys(*p).sort_by(|a: Seq<char>, b: Seq<char>| key_le(a, b)),
        crate::flow::pairs_view(r.1@) == edge_pairs(*p).sort_by(
            |a: (Seq<char>, Seq<char>), b: (Seq<char>, Seq<char>)| pair_le(a, b),
        ),
{
    (sorted_keys(p), sorted_pairs(p))
}

/// A fingerprint of a projection's layout shape ([`layout_shape`]), hashed.
/// The hash value itself is left unstated (see `hash_shape`).
pub fn layout_signature(p: &GraphProjection) -> u64 {
    let (nodes, edges) = layout_shape(p);
    hash_shape(&nodes, &edges)
}

/// Law: the shape that the layout signature hashes ([`layout_shape`]) depends
/// only on the multiset of node keys and the multiset of edge pairs, not on
/// their order or on any counts.
pub proof fn lemma_signature_shape_only(p: GraphProjection, q: GraphProjection)
    requires
        node_keys(p).to_multiset() == node_keys(q).to_multiset(),
        edge_pairs(p).to_multiset() == edge_pairs(q).to_multiset(),
    ensures
        node_keys(p).sort_by(|a: Seq<char>, b: Seq<char>| key_le(a, b)) == node_keys(q).sort_by(
            |a: Seq<char>, b: Seq<char>| key_le(a, b),
        ),
        edge_pairs(p).sort_by(|a: (Seq<char>, Seq<char>), b: (Seq<char>, Seq<char>)| pair_le(a, b)) == edge_pairs(
            q,
        ).sort_by(|a: (Seq<char>, Seq<char>), b: (Seq<char>, Seq<char>)| pair_le(a, b)),
{
    let kl = |a: Seq<char>, b: Seq<char>| key_le(a, b);
    let pl = |a: (Seq<char>, Seq<char>), b: (Seq<char>, Seq<char>)| pair_le(a, b);
    lemma_key_le_total();
    lemma_pair_le_total();
    node_keys(p).lemma_sort_by_ensures(kl);
    node_keys(q).lemma_sort_by_ensures(kl);
    vstd::seq_lib::lemma_sorted_unique(node_keys(p).sort_by(kl), node_keys(q).sort_by(kl), kl);
    edge_pairs(p).lemma_sort_by_ensures(pl);
    edge_pairs(q).lemma_sort_by_ensures(pl);
    vstd::seq_lib::lemma_sorted_unique(edge_pairs(p).sort_by(pl), edge_pairs(q).sort_by(pl), pl);
}

/// Total of `prov.count(p)` over every node entry of every bucket.
pub open spec fn prov_total(bs: Seq<DayBucket>, p: Provenance) -> int
    decreases bs.len(),
{
    if bs.len() == 0 {
        0
    } else {
        prov_total(bs.drop_last(), p) + entries_prov(bs.last().nodes@, p)
    }
}

pub open spec fn entries_prov(es: Seq<(String, crate::rollup::NodeStat)>, p: Provenance) -> int
    decreases es.len(),
{
    if es.len() == 0 {
        0
    } else {
        entries_prov(es.drop_last(), p) + es.last().1.prov.count(p)
    }
}

proof fn lemma_entries_prov_prefix(es: Seq<(String, crate::rollup::NodeStat)>, n: int, p: Provenance)
    requires
        0 <= n <= es.len(),
    ensures
        0 <= entries_prov(es.take(n), p) <= entries_prov(es, p),
    decreases es.len() - n,
{
    if n < es.len() {
        lemma_entries_prov_prefix(es, n + 1, p);
        assert(es.take(n + 1).drop_last() =~= es.take(n));
    } else {
        assert(es.take(n) =~= es);
    }
    lemma_entries_prov_nonneg(es.take(n), p);
}

proof fn lemma_entries_prov_nonneg(es: Seq<(String, crate::rollup::NodeStat)>, p: Provenance)
    ensures
        entries_prov(es, p) >= 0,
    decreases es.len(),
{
    if es.len() > 0 {
        lemma_entries_prov_nonneg(es.drop_last(), p);
    }
}

proof fn lemma_prov_total_prefix(bs: Seq<DayBucket>, n: int, p: Provenance)
    requires
        0 <= n <= bs.len(),
    ensures
        0 <= prov_total(bs.take(n), p) <= prov_total(bs, p),
    decreases bs.len() - n,
{
    if n < bs.len() {
        lemma_prov_total_prefix(bs, n + 1, p);
        assert(bs.take(n + 1).drop_last() =~= bs.take(n));
        lemma_entries_prov_nonneg(bs[n].nodes@, p);
    } else {
        assert(bs.take(n) =~= bs);
    }
    lemma_prov_total_nonneg(bs.take(n), p);
}

proof fn lemma_prov_total_nonneg(bs: Seq<DayBucket>, p: Provenance)
    ensures
        prov_total(bs, p) >= 0,
    decreases bs.len(),
{
    if bs.len() > 0 {
        lemma_prov_total_nonneg(bs.drop_last(), p);
        lemma_entries_prov_nonneg(bs.last().nodes@, p);
    }
}

/// The provenance breakdown summed over every node of every bucket.
pub fn origination(buckets: &[DayBucket]) -> (r: ProvBreakdown)
    requires
        forall|p: Provenance| prov_total(buckets@, p) <= u32::MAX,
    ensures
        forall|p: Provenance| r.count(p) == prov_total(buckets@, p),
{
    let mut acc = ProvBreakdown::default();
    let mut i: usize = 0;
    proof {
        assert(buckets@.take(0) =~= Seq::<DayBucket>::empty());
    }
    while i < buckets.len()
        invariant
            i <= buckets@.len(),
            forall|p: Provenance| prov_total(buckets@, p) <= u32::MAX,
            forall|p: Provenance| acc.count(p) == prov_total(buckets@.take(i as int), p),
        decreases buckets.len() - i,
    {
        let b = &buckets[i];
        let ghost base = acc;
        let mut j: usize = 0;
        proof {
            assert(b.nodes@.take(0) =~= Seq::<(String, crate::rollup::NodeStat)>::empty());
        }
        while j < b.nodes.len()
            invariant
                j <= b.nodes@.len(),
                i < buckets@.len(),
                *b == buckets@[i as int],
                forall|p: Provenance| prov_total(buckets@, p) <= u32::MAX,
                forall|p: Provenance| base.count(p) == prov_total(buckets@.take(i as int), p),
                forall|p: Provenance| acc.count(p) == base.count(p) + entries_prov(b.nodes@.take(j as int), p),
            decreases b.nodes.len() - j,
        {
            proof {
                assert(b.nodes@.take(j + 1).drop_last() =~= b.nodes@.take(j as int));
                assert forall|p: Provenance| acc.count(p) + b.nodes@[j as int].1.prov.count(p) <= u32::MAX by {
                    lemma_entries_prov_prefix(b.nodes@, j + 1, p);
                    lemma_prov_total_prefix(buckets@, i + 1, p);
                    assert(buckets@.take(i + 1).drop_last() =~= buckets@.take(i as int));
                }
            }
            acc.merge(&b.nodes[j].1.prov);
            j += 1;
        }
        proof {
            assert(b.nodes@.take(b.nodes@.len() as int) =~= b.nodes@);
            assert(buckets@.take(i + 1).drop_last() =~= buckets@.take(i as int));
        }
        i += 1;
    }
    proof {
        assert(buckets@.take(buckets@.len() as int) =~= buckets@);
    }
    acc
}

} // verus!
