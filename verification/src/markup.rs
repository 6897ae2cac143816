//! HTML fragments of the dashboard: escaping, counted nouns, table cells,
//! inspector lists, legend rows and the flow view's color keys.
use vstd::prelude::*;
use crate::text::{int_decimal, push_int, str_eq, chars_of, decimal, expand, lemma_expand_all, lemma_expand_step, push_char, push_decimal, push_str};
use crate::flow::{FlowGraph, FlowNode};
use crate::inspect::{NodeConnections, PageVisit};
use crate::model::{spec_event_id, spec_event_ts, spec_shape, spec_shape_css, EdgeKind, Event, KindBreakdown, NodeAgg, ProvBreakdown, Provenance};
use crate::search::SearchCount;
use crate::ui_text::{fmt_dwell, fmt_k, percentages, prov_dot, spec_fmt_dwell, spec_fmt_k, spec_percentages, spec_prov_dot};

verus! {

/// The pieces joined end to end.
pub open spec fn concat(parts: Seq<Seq<char>>) -> Seq<char>
    decreases parts.len(),
{
    if parts.len() == 0 {
        Seq::<char>::empty()
    } else {
        concat(parts.drop_last()) + parts.last()
    }
}

/// The HTML entity of a character that markup must not carry raw (`&`,
/// `<`, `>`, `"`); any other character stands for itself.
pub open spec fn html_entity(c: char) -> Seq<char> {
    if c == '&' {
        "&amp;"@
    } else if c == '<' {
        "&lt;"@
    } else if c == '>' {
        "&gt;"@
    } else if c == '"' {
        "&quot;"@
    } else {
        seq![c]
    }
}

/// `s` with each character replaced by its HTML entity.
pub open spec fn spec_esc(s: Seq<char>) -> Seq<char> {
    expand(s, |c: char| html_entity(c))
}

/// HTML-escape text for element content and attribute values.
pub fn esc(s: &str) -> (r: String)
    ensures
        r@ == spec_esc(s@),
{
    let cs = chars_of(s);
    let mut r = String::new();
    let mut i: usize = 0;
    while i < cs.len()
        invariant
            i <= cs@.len(),
            cs@ == s@,
            r@ == expand(s@.take(i as int), |c: char| html_entity(c)),
        decreases cs.len() - i,
    {
        proof {
            lemma_expand_step(s@, i as int, |c: char| html_entity(c));
        }
        let c = cs[i];
        if c == '&' {
            push_str(&mut r, "&amp;");
        } else if c == '<' {
            push_str(&mut r, "&lt;");
        } else if c == '>' {
            push_str(&mut r, "&gt;");
        } else if c == '"' {
            push_str(&mut r, "&quot;");
        } else {
            push_char(&mut r, c);
        }
        assert(r@ =~= expand(s@.take(i + 1), |c: char| html_entity(c)));
        i += 1;
    }
    proof {
        lemma_expand_all(s@, |c: char| html_entity(c));
    }
    r
}

/// `1 visit`, `2 visits`, `0 visits`: the count and the noun, with an `s`
/// unless the count is one.
pub open spec fn spec_plural(n: u64, noun: Seq<char>) -> Seq<char> {
    if n == 1 {
        "1 "@ + noun
    } else {
        decimal(n as nat) + " "@ + noun + "s"@
    }
}

/// Pluralize a regular count noun.
pub fn plural(n: u64, noun: &str) -> (r: String)
    ensures
        r@ == spec_plural(n, noun@),
{
    let mut out = String::new();
    if n == 1 {
        push_str(&mut out, "1 ");
        push_str(&mut out, noun);
        assert(out@ =~= "1 "@ + noun@);
    } else {
        push_decimal(&mut out, n);
        push_str(&mut out, " ");
        push_str(&mut out, noun);
        push_str(&mut out, "s");
        assert(out@ =~= decimal(n as nat) + " "@ + noun@ + "s"@);
    }
    out
}

/// A grid card around one analytic section; `span` widens it (`wide`,
/// `full`) and is left out when empty.
pub open spec fn spec_card(span: Seq<char>, inner: Seq<char>) -> Seq<char> {
    let cls = if span.len() == 0 {
        "tbl-card"@
    } else {
        "tbl-card "@ + span
    };
    "<section class=\""@ + cls + "\">"@ + inner + "</section>"@
}

/// Wrap one analytic section as a grid card.
pub fn card(span: &str, inner: &str) -> (r: String)
    ensures
        r@ == spec_card(span@, inner@),
{
    let mut out = String::new();
    push_str(&mut out, "<section class=\"");
    if span.is_empty() {
        push_str(&mut out, "tbl-card");
    } else {
        push_str(&mut out, "tbl-card ");
        push_str(&mut out, span);
    }
    push_str(&mut out, "\">");
    push_str(&mut out, inner);
    push_str(&mut out, "</section>");
    proof {
        let cls = if span@.len() == 0 {
            "tbl-card"@
        } else {
            "tbl-card "@ + span@
        };
        assert(out@ =~= "<section class=\""@ + cls + "\">"@ + inner@ + "</section>"@);
    }
    out
}

/// Below one second of attention the time column shows a dash.
pub open spec fn spec_time_spent_text(has_signal: bool, est_ms: u64, fg_ms: u64) -> Seq<char> {
    let ms = if has_signal { fg_ms } else { est_ms };
    if ms >= 1000 {
        (if has_signal { ""@ } else { "≈"@ }) + spec_fmt_dwell(ms)
    } else {
        "—"@
    }
}

/// The tooltip of the time column: which of the two measures is shown.
pub open spec fn spec_time_spent_title(has_signal: bool) -> Seq<char> {
    if has_signal {
        "Foreground time — how long this site's tab was the focused, active tab."@
    } else {
        "Estimated from the gaps between navigations (this window has no focus data), so it can include time a tab sat in the background."@
    }
}

/// The time-spent table cell: real foreground time when the window carries
/// a focus signal, else the gap estimate marked `≈`.
pub open spec fn spec_time_spent_cell(has_signal: bool, est_ms: u64, fg_ms: u64) -> Seq<char> {
    "<td class=\"num\" title=\""@ + spec_esc(spec_time_spent_title(has_signal)) + "\">"@
        + spec_esc(spec_time_spent_text(has_signal, est_ms, fg_ms)) + "</td>"@
}

/// The "Time spent" cell for a host.
pub fn time_spent_cell(has_signal: bool, est_ms: u64, fg_ms: u64) -> (r: String)
    ensures
        r@ == spec_time_spent_cell(has_signal, est_ms, fg_ms),
{
    let title = if has_signal {
        "Foreground time — how long this site's tab was the focused, active tab."
    } else {
        "Estimated from the gaps between navigations (this window has no focus data), so it can include time a tab sat in the background."
    };
    let ms = if has_signal { fg_ms } else { est_ms };
    let mut text = String::new();
    if ms >= 1000 {
        if !has_signal {
            push_str(&mut text, "≈");
        }
        let d = fmt_dwell(ms);
        push_str(&mut text, d.as_str());
        proof {
            reveal_strlit("");
            if has_signal {
                assert(text@ =~= ""@ + spec_fmt_dwell(ms));
            } else {
                assert(text@ =~= "≈"@ + spec_fmt_dwell(ms));
            }
        }
    } else {
        push_str(&mut text, "—");
        assert(text@ =~= "—"@);
    }
    let mut out = String::new();
    push_str(&mut out, "<td class=\"num\" title=\"");
    let t = esc(title);
    push_str(&mut out, t.as_str());
    push_str(&mut out, "\">");
    let x = esc(text.as_str());
    push_str(&mut out, x.as_str());
    push_str(&mut out, "</td>");
    out
}

/// One connection row of the inspector: a button naming the host, with the
/// edge weight.
pub open spec fn spec_conn_row(host: Seq<char>, w: u32) -> Seq<char> {
    let h = spec_esc(host);
    "<button type=\"button\" class=\"insp-conn\" data-host=\""@ + h + "\"><span class=\"insp-conn-host\">"@
        + h + "</span><span class=\"insp-conn-n\">"@ + decimal(w as nat) + "</span></button>"@
}

/// The connection rows, in order.
pub open spec fn spec_conn_rows(rows: Seq<(String, u32)>) -> Seq<char> {
    concat(Seq::new(rows.len(), |i: int| spec_conn_row(rows[i].0@, rows[i].1)))
}

/// The inspector's came-from / went-to rows.
pub fn conn_rows(rows: &[(String, u32)]) -> (r: String)
    ensures
        r@ == spec_conn_rows(rows@),
{
    let mut h = String::new();
    let mut i: usize = 0;
    while i < rows.len()
        invariant
            i <= rows@.len(),
            h@ == concat(Seq::new(i as nat, |k: int| spec_conn_row(rows@[k].0@, rows@[k].1))),
        decreases rows.len() - i,
    {
        let host_e = esc(rows[i].0.as_str());
        let ghost before = h@;
        push_str(&mut h, "<button type=\"button\" class=\"insp-conn\" data-host=\"");
        push_str(&mut h, host_e.as_str());
        push_str(&mut h, "\"><span class=\"insp-conn-host\">");
        push_str(&mut h, host_e.as_str());
        push_str(&mut h, "</span><span class=\"insp-conn-n\">");
        push_decimal(&mut h, rows[i].1 as u64);
        push_str(&mut h, "</span></button>");
        proof {
            let f = |k: int| spec_conn_row(rows@[k].0@, rows@[k].1);
            assert(Seq::new((i + 1) as nat, f).drop_last() =~= Seq::new(i as nat, f));
            assert(h@ =~= before + spec_conn_row(rows@[i as int].0@, rows@[i as int].1));
        }
        i += 1;
    }
    proof {
        assert(Seq::new(rows@.len(), |k: int| spec_conn_row(rows@[k].0@, rows@[k].1)) =~= Seq::new(
            i as nat,
            |k: int| spec_conn_row(rows@[k].0@, rows@[k].1),
        ));
    }
    h
}


/// How many of the most recent in-range sessions the journey miner reads.
pub const JOURNEY_SESSION_CAP: usize = 150;

/// How many of the newest events the inspector's page scan covers.
pub const SCAN_BUDGET: u32 = 20_000;

/// The pieces joined with `sep` between neighbours.
pub open spec fn join_sep(parts: Seq<Seq<char>>, sep: Seq<char>) -> Seq<char>
    decreases parts.len(),
{
    if parts.len() == 0 {
        Seq::<char>::empty()
    } else if parts.len() == 1 {
        parts[0]
    } else {
        join_sep(parts.drop_last(), sep) + sep + parts.last()
    }
}

/// A journey's hosts, escaped and joined by arrows.
pub open spec fn spec_trail(path: Seq<String>) -> Seq<char> {
    join_sep(Seq::new(path.len(), |k: int| spec_esc(path[k]@)), " → "@)
}

/// One journey row: the trail and how many times it was taken.
pub open spec fn spec_journey_row(path: Seq<String>, sup: u32) -> Seq<char> {
    "<tr><td>"@ + spec_trail(path) + "</td><td class=\"num\">"@ + decimal(sup as nat) + "×</td></tr>"@
}

/// The journeys table: a note when there are none, otherwise a caption
/// (naming the session cap when it was reached) and the first fifteen rows.
pub open spec fn spec_journeys_html(journeys: Seq<(Vec<String>, u32)>, capped: bool, total: usize) -> Seq<char> {
    let head = "<h3>Your common journeys</h3>"@;
    if journeys.len() == 0 {
        head + "<p class=\"muted\">No repeated multi-step paths yet — they appear once you retrace the same link trail more than once.</p>"@
    } else {
        let sub = if capped {
            "<p class=\"muted tbl-sub\">from your "@ + decimal(JOURNEY_SESSION_CAP as nat) + " most recent sessions (of "@
                + decimal(total as nat) + " in range)</p>"@
        } else {
            "<p class=\"muted tbl-sub\">paths you retrace, by how often</p>"@
        };
        let shown = if journeys.len() < 15 { journeys.len() } else { 15 };
        head + sub + "<table class=\"tbl\"><tr><th>Journey</th><th class=\"num\">Times</th></tr>"@
            + concat(Seq::new(shown, |i: int| spec_journey_row(journeys[i].0@, journeys[i].1)))
            + "</table>"@
    }
}

fn push_trail(h: &mut String, path: &Vec<String>)
    ensures
        final(h)@ == old(h)@ + spec_trail(path@),
{
    let ghost start = h@;
    let ghost f = |k: int| spec_esc(path@[k]@);
    let mut k: usize = 0;
    while k < path.len()
        invariant
            k <= path@.len(),
            f == (|k: int| spec_esc(path@[k]@)),
            h@ == start + join_sep(Seq::new(k as nat, f), " → "@),
        decreases path.len() - k,
    {
        let ghost before = h@;
        if k > 0 {
            push_str(h, " → ");
        }
        let e = esc(path[k].as_str());
        push_str(h, e.as_str());
        proof {
            let next = Seq::new((k + 1) as nat, f);
            assert(next.drop_last() =~= Seq::new(k as nat, f));
            if k == 0 {
                assert(join_sep(next, " → "@) == next[0]);
                assert(h@ =~= start + join_sep(next, " → "@));
            } else {
                assert(h@ =~= start + join_sep(next, " → "@));
            }
        }
        k += 1;
    }
    proof {
        assert(Seq::new(k as nat, f) =~= Seq::new(path@.len(), |k: int| spec_esc(path@[k]@)));
    }
}

/// The "common journeys" table of repeated multi-step paths.
pub fn journeys_html(journeys: &[(Vec<String>, u32)], capped: bool, total: usize) -> (r: String)
    ensures
        r@ == spec_journeys_html(journeys@, capped, total),
{
    let mut h = String::new();
    push_str(&mut h, "<h3>Your common journeys</h3>");
    if journeys.len() == 0 {
        push_str(
            &mut h,
            "<p class=\"muted\">No repeated multi-step paths yet — they appear once you retrace the same link trail more than once.</p>",
        );
        return h;
    }
    let ghost head = h@;
    if capped {
        push_str(&mut h, "<p class=\"muted tbl-sub\">from your ");
        push_decimal(&mut h, JOURNEY_SESSION_CAP as u64);
        push_str(&mut h, " most recent sessions (of ");
        push_decimal(&mut h, total as u64);
        push_str(&mut h, " in range)</p>");
    } else {
        push_str(&mut h, "<p class=\"muted tbl-sub\">paths you retrace, by how often</p>");
    }
    push_str(&mut h, "<table class=\"tbl\"><tr><th>Journey</th><th class=\"num\">Times</th></tr>");
    let ghost top = h@;
    let ghost g = |i: int| spec_journey_row(journeys@[i].0@, journeys@[i].1);
    let shown: usize = if journeys.len() < 15 { journeys.len() } else { 15 };
    let mut i: usize = 0;
    while i < shown
        invariant
            i <= shown <= journeys@.len(),
            g == (|i: int| spec_journey_row(journeys@[i].0@, journeys@[i].1)),
            h@ == top + concat(Seq::new(i as nat, g)),
        decreases shown - i,
    {
        let ghost before = h@;
        push_str(&mut h, "<tr><td>");
        push_trail(&mut h, &journeys[i].0);
        push_str(&mut h, "</td><td class=\"num\">");
        push_decimal(&mut h, journeys[i].1 as u64);
        push_str(&mut h, "×</td></tr>");
        proof {
            assert(Seq::new((i + 1) as nat, g).drop_last() =~= Seq::new(i as nat, g));
            assert(h@ =~= before + g(i as int));
        }
        i += 1;
    }
    push_str(&mut h, "</table>");
    h
}

/// One line of the inspector's top pages or top searches: the escaped
/// label (also its tooltip) and its count.
pub open spec fn spec_page_row(label: Seq<char>, n: u32) -> Seq<char> {
    let e = spec_esc(label);
    "<div class=\"insp-page\"><span class=\"insp-page-path\" title=\""@ + e + "\">"@ + e
        + "</span><span class=\"insp-page-n\">"@ + decimal(n as nat) + "</span></div>"@
}

/// The inspector's async region: the top pages (or why there are none, the
/// scan cap noted when reached) and, when opted in and present, the top
/// searches.
pub open spec fn spec_async_region_html(
    pages: Seq<PageVisit>,
    capped: bool,
    searches: Seq<SearchCount>,
    show_searches: bool,
) -> Seq<char> {
    let top = "<h4 class=\"insp-h\">Top pages</h4>"@;
    let body = if pages.len() == 0 {
        if capped {
            "<p class=\"insp-muted\">None found — this window is beyond the "@ + spec_fmt_k(SCAN_BUDGET)
                + " most recent events the scan covers.</p>"@
        } else {
            "<p class=\"insp-muted\">No page-level detail for this site in the window.</p>"@
        }
    } else {
        concat(Seq::new(pages.len(), |i: int| spec_page_row(pages[i].path_query@, pages[i].visits))) + if capped {
            "<p class=\"insp-cap\">from the "@ + spec_fmt_k(SCAN_BUDGET) + " most recent events in this window</p>"@
        } else {
            Seq::<char>::empty()
        }
    };
    let tail = if show_searches && searches.len() > 0 {
        "<h4 class=\"insp-h\">Top searches</h4>"@ + concat(
            Seq::new(searches.len(), |i: int| spec_page_row(searches[i].terms@, searches[i].count)),
        )
    } else {
        Seq::<char>::empty()
    };
    top + body + tail
}

fn push_page_row(h: &mut String, label: &str, n: u32)
    ensures
        final(h)@ == old(h)@ + spec_page_row(label@, n),
{
    let e = esc(label);
    push_str(h, "<div class=\"insp-page\"><span class=\"insp-page-path\" title=\"");
    push_str(h, e.as_str());
    push_str(h, "\">");
    push_str(h, e.as_str());
    push_str(h, "</span><span class=\"insp-page-n\">");
    push_decimal(h, n as u64);
    push_str(h, "</span></div>");
}

/// The inspector's top pages and top searches.
pub fn async_region_html(pages: &[PageVisit], capped: bool, searches: &[SearchCount], show_searches: bool) -> (r: String)
    ensures
        r@ == spec_async_region_html(pages@, capped, searches@, show_searches),
{
    let mut h = String::new();
    push_str(&mut h, "<h4 class=\"insp-h\">Top pages</h4>");
    let ghost top = h@;
    if pages.len() == 0 {
        if capped {
            push_str(&mut h, "<p class=\"insp-muted\">None found — this window is beyond the ");
            let k = fmt_k(SCAN_BUDGET);
            push_str(&mut h, k.as_str());
            push_str(&mut h, " most recent events the scan covers.</p>");
        } else {
            push_str(&mut h, "<p class=\"insp-muted\">No page-level detail for this site in the window.</p>");
        }
    } else {
        let ghost g = |i: int| spec_page_row(pages@[i].path_query@, pages@[i].visits);
        let mut i: usize = 0;
        while i < pages.len()
            invariant
                i <= pages@.len(),
                g == (|i: int| spec_page_row(pages@[i].path_query@, pages@[i].visits)),
                h@ == top + concat(Seq::new(i as nat, g)),
            decreases pages.len() - i,
        {
            let ghost before = h@;
            push_page_row(&mut h, pages[i].path_query.as_str(), pages[i].visits);
            proof {
                assert(Seq::new((i + 1) as nat, g).drop_last() =~= Seq::new(i as nat, g));
            }
            i += 1;
        }
        proof {
            assert(Seq::new(i as nat, g) =~= Seq::new(pages@.len(), g));
        }
        if capped {
            push_str(&mut h, "<p class=\"insp-cap\">from the ");
            let k = fmt_k(SCAN_BUDGET);
            push_str(&mut h, k.as_str());
            push_str(&mut h, " most recent events in this window</p>");
        }
    }
    let ghost mid = h@;
    if show_searches && searches.len() > 0 {
        push_str(&mut h, "<h4 class=\"insp-h\">Top searches</h4>");
        let ghost sh = h@;
        let ghost g = |i: int| spec_page_row(searches@[i].terms@, searches@[i].count);
        let mut i: usize = 0;
        while i < searches.len()
            invariant
                i <= searches@.len(),
                g == (|i: int| spec_page_row(searches@[i].terms@, searches@[i].count)),
                h@ == sh + concat(Seq::new(i as nat, g)),
            decreases searches.len() - i,
        {
            push_page_row(&mut h, searches[i].terms.as_str(), searches[i].count);
            proof {
                assert(Seq::new((i + 1) as nat, g).drop_last() =~= Seq::new(i as nat, g));
            }
            i += 1;
        }
        proof {
            assert(Seq::new(i as nat, g) =~= Seq::new(searches@.len(), g));
        }
    }
    proof {
        let body = if pages@.len() == 0 {
            if capped {
                "<p class=\"insp-muted\">None found — this window is beyond the "@ + spec_fmt_k(SCAN_BUDGET)
                    + " most recent events the scan covers.</p>"@
            } else {
                "<p class=\"insp-muted\">No page-level detail for this site in the window.</p>"@
            }
        } else {
            concat(Seq::new(pages@.len(), |i: int| spec_page_row(pages@[i].path_query@, pages@[i].visits))) + if capped {
                "<p class=\"insp-cap\">from the "@ + spec_fmt_k(SCAN_BUDGET) + " most recent events in this window</p>"@
            } else {
                Seq::<char>::empty()
            }
        };
        assert(mid =~= top + body);
    }
    h
}


/// The positive counts among the first `n`, in order.
pub open spec fn positive_counts(c: Seq<u32>, n: int) -> Seq<u32>
    decreases n,
{
    if n <= 0 {
        Seq::<u32>::empty()
    } else {
        positive_counts(c, n - 1) + if c[n - 1] > 0 {
            seq![c[n - 1]]
        } else {
            Seq::<u32>::empty()
        }
    }
}

/// The rows of the first `n` legend entries: each entry whose count is
/// positive, rendered by `row` with its percentage among the positive
/// counts; the others are left out.
pub open spec fn shown_rows(c: Seq<u32>, pcts: Seq<u32>, row: spec_fn(int, u32) -> Seq<char>, n: int) -> Seq<char>
    decreases n,
{
    if n <= 0 {
        Seq::<char>::empty()
    } else {
        shown_rows(c, pcts, row, n - 1) + if c[n - 1] > 0 {
            row(n - 1, pcts[positive_counts(c, n - 1).len() as int])
        } else {
            Seq::<char>::empty()
        }
    }
}

proof fn lemma_positive_counts_grow(c: Seq<u32>, m: int, n: int)
    requires
        0 <= m <= n <= c.len(),
    ensures
        positive_counts(c, m).len() <= positive_counts(c, n).len(),
        m < n && c[m] > 0 ==> positive_counts(c, m).len() < positive_counts(c, n).len(),
    decreases n - m,
{
    if m < n {
        lemma_positive_counts_grow(c, m + 1, n);
    }
}

/// The edge-kind entries of the legend: (count, label, swatch class).
pub open spec fn edge_key_entry(k: KindBreakdown, i: int) -> (u32, Seq<char>, Seq<char>) {
    if i == 0 {
        (k.link, "Link"@, "edge-link"@)
    } else if i == 1 {
        (k.form, "Form"@, "edge-form"@)
    } else {
        (k.search_link, "Search-link"@, "edge-search"@)
    }
}

pub open spec fn edge_key_counts(k: KindBreakdown) -> Seq<u32> {
    seq![k.link, k.form, k.search_link]
}

/// One edge-kind legend row: the line swatch, the label and the share.
pub open spec fn spec_edge_key_row(label: Seq<char>, swatch: Seq<char>, pct: u32) -> Seq<char> {
    "<div class=\"legend-row is-key\"><span class=\"edge-swatch "@ + swatch + "\"></span><span class=\"legend-label\">"@
        + label + "</span><span class=\"legend-pct\">"@ + decimal(pct as nat) + "%</span></div>"@
}

/// The edge-kind legend: the kinds present, in key order, with shares that
/// add up to a hundred.
pub open spec fn spec_edge_legend_html(k: KindBreakdown) -> Seq<char> {
    let c = edge_key_counts(k);
    shown_rows(
        c,
        spec_percentages(positive_counts(c, 3)),
        |i: int, pct: u32| spec_edge_key_row(edge_key_entry(k, i).1, edge_key_entry(k, i).2, pct),
        3,
    )
}

fn edge_key_entry_at(k: &KindBreakdown, i: usize) -> (r: (u32, &'static str, &'static str))
    requires
        i < 3,
    ensures
        r.0 == edge_key_entry(*k, i as int).0,
        r.1@ == edge_key_entry(*k, i as int).1,
        r.2@ == edge_key_entry(*k, i as int).2,
{
    if i == 0 {
        (k.link, "Link", "edge-link")
    } else if i == 1 {
        (k.form, "Form", "edge-form")
    } else {
        (k.search_link, "Search-link", "edge-search")
    }
}

/// The edge-type key rows of the legend.
pub fn edge_legend_html(k: &KindBreakdown) -> (r: String)
    ensures
        r@ == spec_edge_legend_html(*k),
{
    let ghost c = edge_key_counts(*k);
    let mut counts: Vec<u32> = Vec::new();
    let mut i: usize = 0;
    while i < 3
        invariant
            i <= 3,
            c == edge_key_counts(*k),
            counts@ == positive_counts(c, i as int),
            counts@.len() <= i,
        decreases 3 - i,
    {
        let e = edge_key_entry_at(k, i);
        if e.0 > 0 {
            counts.push(e.0);
        }
        assert(counts@ =~= positive_counts(c, i + 1));
        i += 1;
    }
    let pcts = percentages(&counts);
    let ghost row = |i: int, pct: u32| spec_edge_key_row(edge_key_entry(*k, i).1, edge_key_entry(*k, i).2, pct);
    let mut html = String::new();
    let mut j: usize = 0;
    let mut i: usize = 0;
    while i < 3
        invariant
            i <= 3,
            c == edge_key_counts(*k),
            pcts@ == spec_percentages(positive_counts(c, 3)),
            row == (|i: int, pct: u32| spec_edge_key_row(edge_key_entry(*k, i).1, edge_key_entry(*k, i).2, pct)),
            j == positive_counts(c, i as int).len(),
            j <= i,
            html@ == shown_rows(c, pcts@, row, i as int),
        decreases 3 - i,
    {
        let e = edge_key_entry_at(k, i);
        proof {
            lemma_positive_counts_grow(c, i as int, 3);
        }
        if e.0 > 0 {
            let pct = pcts[j];
            push_str(&mut html, "<div class=\"legend-row is-key\"><span class=\"edge-swatch ");
            push_str(&mut html, e.2);
            push_str(&mut html, "\"></span><span class=\"legend-label\">");
            push_str(&mut html, e.1);
            push_str(&mut html, "</span><span class=\"legend-pct\">");
            push_decimal(&mut html, pct as u64);
            push_str(&mut html, "%</span></div>");
            j += 1;
        }
        assert(html@ =~= shown_rows(c, pcts@, row, i + 1));
        i += 1;
    }
    html
}

/// The provenance entries of the legend: (count, label, dot class,
/// provenance, key); reloads count as Other.
pub open spec fn legend_entry(b: ProvBreakdown, i: int) -> (u32, Seq<char>, Seq<char>, Provenance, Seq<char>) {
    if i == 0 {
        (b.search_origin, "Search"@, "dot-search"@, Provenance::SearchOrigin, "search"@)
    } else if i == 1 {
        (b.link, "Link"@, "dot-link"@, Provenance::Link, "link"@)
    } else if i == 2 {
        (b.typed_url, "Typed URL"@, "dot-typed"@, Provenance::TypedUrl, "typed"@)
    } else if i == 3 {
        (b.bookmark, "Bookmark"@, "dot-bookmark"@, Provenance::Bookmark, "bookmark"@)
    } else if i == 4 {
        (b.form, "Form"@, "dot-form"@, Provenance::Form, "form"@)
    } else if i == 5 {
        (b.start, "External"@, "dot-external"@, Provenance::Start, "external"@)
    } else {
        ((b.other + b.reload) as u32, "Other"@, "dot-other"@, Provenance::Other, "other"@)
    }
}

pub open spec fn legend_counts(b: ProvBreakdown) -> Seq<u32> {
    Seq::new(7, |i: int| legend_entry(b, i).0)
}

/// The state class of a legend row under a provenance filter: the filtered
/// provenance is active, the others dimmed.
pub open spec fn legend_state(filter: Option<Provenance>, p: Provenance) -> Seq<char> {
    match filter {
        Some(f) => if f == p {
            " is-active"@
        } else {
            " is-dim"@
        },
        None => ""@,
    }
}

/// One provenance legend row: a button carrying the key, the shaped dot,
/// the label and the share.
pub open spec fn spec_legend_row(
    e: (u32, Seq<char>, Seq<char>, Provenance, Seq<char>),
    filter: Option<Provenance>,
    pct: u32,
) -> Seq<char> {
    "<button type=\"button\" class=\"legend-row"@ + legend_state(filter, e.3) + "\" data-prov=\""@ + e.4
        + "\"><span class=\"dot "@ + e.2 + " "@ + spec_shape_css(spec_shape(e.3))
        + "\"></span><span class=\"legend-label\">"@ + e.1 + "</span><span class=\"legend-pct\">"@
        + decimal(pct as nat) + "%</span></button>"@
}

/// The provenance legend: the categories present, in legend order, with
/// shares that add up to a hundred.
pub open spec fn spec_legend_html(b: ProvBreakdown, filter: Option<Provenance>) -> Seq<char> {
    let c = legend_counts(b);
    shown_rows(
        c,
        spec_percentages(positive_counts(c, 7)),
        |i: int, pct: u32| spec_legend_row(legend_entry(b, i), filter, pct),
        7,
    )
}

fn legend_entry_at(b: &ProvBreakdown, i: usize) -> (r: (u32, &'static str, &'static str, Provenance, &'static str))
    requires
        i < 7,
        b.other + b.reload <= u32::MAX,
    ensures
        r.0 == legend_entry(*b, i as int).0,
        r.1@ == legend_entry(*b, i as int).1,
        r.2@ == legend_entry(*b, i as int).2,
        r.3 == legend_entry(*b, i as int).3,
        r.4@ == legend_entry(*b, i as int).4,
{
    if i == 0 {
        (b.search_origin, "Search", "dot-search", Provenance::SearchOrigin, "search")
    } else if i == 1 {
        (b.link, "Link", "dot-link", Provenance::Link, "link")
    } else if i == 2 {
        (b.typed_url, "Typed URL", "dot-typed", Provenance::TypedUrl, "typed")
    } else if i == 3 {
        (b.bookmark, "Bookmark", "dot-bookmark", Provenance::Bookmark, "bookmark")
    } else if i == 4 {
        (b.form, "Form", "dot-form", Provenance::Form, "form")
    } else if i == 5 {
        (b.start, "External", "dot-external", Provenance::Start, "external")
    } else {
        (b.other + b.reload, "Other", "dot-other", Provenance::Other, "other")
    }
}

fn push_legend_row(
    html: &mut String,
    e: (u32, &'static str, &'static str, Provenance, &'static str),
    filter: Option<Provenance>,
    pct: u32,
)
    ensures
        final(html)@ == old(html)@ + spec_legend_row((e.0, e.1@, e.2@, e.3, e.4@), filter, pct),
{
    let state = match filter {
        Some(f) => if f == e.3 {
            " is-active"
        } else {
            " is-dim"
        },
        None => "",
    };
    push_str(html, "<button type=\"button\" class=\"legend-row");
    push_str(html, state);
    push_str(html, "\" data-prov=\"");
    push_str(html, e.4);
    push_str(html, "\"><span class=\"dot ");
    push_str(html, e.2);
    push_str(html, " ");
    push_str(html, e.3.shape().css());
    push_str(html, "\"></span><span class=\"legend-label\">");
    push_str(html, e.1);
    push_str(html, "</span><span class=\"legend-pct\">");
    push_decimal(html, pct as u64);
    push_str(html, "%</span></button>");
}

/// The provenance legend rows, as buttons that filter the graph.
pub fn legend_html(b: &ProvBreakdown, filter: Option<Provenance>) -> (r: String)
    requires
        b.other + b.reload <= u32::MAX,
    ensures
        r@ == spec_legend_html(*b, filter),
{
    let ghost c = legend_counts(*b);
    let mut counts: Vec<u32> = Vec::new();
    let mut i: usize = 0;
    while i < 7
        invariant
            i <= 7,
            b.other + b.reload <= u32::MAX,
            c == legend_counts(*b),
            counts@ == positive_counts(c, i as int),
            counts@.len() <= i,
        decreases 7 - i,
    {
        let e = legend_entry_at(b, i);
        if e.0 > 0 {
            counts.push(e.0);
        }
        assert(counts@ =~= positive_counts(c, i + 1));
        i += 1;
    }
    let pcts = percentages(&counts);
    let ghost row = |i: int, pct: u32| spec_legend_row(legend_entry(*b, i), filter, pct);
    let mut html = String::new();
    let mut j: usize = 0;
    let mut i: usize = 0;
    while i < 7
        invariant
            i <= 7,
            b.other + b.reload <= u32::MAX,
            c == legend_counts(*b),
            pcts@ == spec_percentages(positive_counts(c, 7)),
            row == (|i: int, pct: u32| spec_legend_row(legend_entry(*b, i), filter, pct)),
            j == positive_counts(c, i as int).len(),
            j <= i,
            html@ == shown_rows(c, pcts@, row, i as int),
        decreases 7 - i,
    {
        let e = legend_entry_at(b, i);
        proof {
            lemma_positive_counts_grow(c, i as int, 7);
        }
        if e.0 > 0 {
            let pct = pcts[j];
            push_legend_row(&mut html, e, filter, pct);
            assert((e.0, e.1@, e.2@, e.3, e.4@) == legend_entry(*b, i as int));
            j += 1;
        }
        assert(html@ =~= shown_rows(c, pcts@, row, i + 1));
        i += 1;
    }
    html
}


/// Some node of the flow has provenance `p`.
pub open spec fn flow_has_prov(fg: FlowGraph, p: Provenance) -> bool {
    exists|i: int| 0 <= i < fg.nodes@.len() && (#[trigger] fg.nodes@[i]).prov == p
}

/// Some link of the flow has kind `k`.
pub open spec fn flow_has_kind(fg: FlowGraph, k: EdgeKind) -> bool {
    exists|i: int| 0 <= i < fg.links@.len() && (#[trigger] fg.links@[i]).kind == k
}

/// The provenance entries of the flow key: (label, dot class, provenance).
pub open spec fn bar_key_entry(i: int) -> (Seq<char>, Seq<char>, Provenance) {
    if i == 0 {
        ("Search"@, "dot-search"@, Provenance::SearchOrigin)
    } else if i == 1 {
        ("Link"@, "dot-link"@, Provenance::Link)
    } else if i == 2 {
        ("Typed URL"@, "dot-typed"@, Provenance::TypedUrl)
    } else if i == 3 {
        ("Bookmark"@, "dot-bookmark"@, Provenance::Bookmark)
    } else if i == 4 {
        ("Form"@, "dot-form"@, Provenance::Form)
    } else if i == 5 {
        ("External"@, "dot-external"@, Provenance::Start)
    } else {
        ("Other"@, "dot-other"@, Provenance::Other)
    }
}

/// The edge-kind entries of the flow key: (label, dot class, kind).
pub open spec fn ribbon_key_entry(i: int) -> (Seq<char>, Seq<char>, EdgeKind) {
    if i == 0 {
        ("Link"@, "dot-edge-link"@, EdgeKind::Link)
    } else if i == 1 {
        ("Form"@, "dot-edge-form"@, EdgeKind::Form)
    } else {
        ("Search-link"@, "dot-edge-search"@, EdgeKind::SearchLink)
    }
}

/// The items of the first `n` entries that are present.
pub open spec fn present_items(present: spec_fn(int) -> bool, item: spec_fn(int) -> Seq<char>, n: int) -> Seq<char>
    decreases n,
{
    if n <= 0 {
        Seq::<char>::empty()
    } else {
        present_items(present, item, n - 1) + if present(n - 1) {
            item(n - 1)
        } else {
            Seq::<char>::empty()
        }
    }
}

/// A provenance key item: the shaped dot and the label.
pub open spec fn spec_bar_key_item(i: int) -> Seq<char> {
    let e = bar_key_entry(i);
    "<span class=\"key-item\"><span class=\"dot "@ + e.1 + " "@ + spec_shape_css(spec_shape(e.2)) + "\"></span>"@ + e.0
        + "</span>"@
}

/// An edge-kind key item: the dot and the label.
pub open spec fn spec_ribbon_key_item(i: int) -> Seq<char> {
    let e = ribbon_key_entry(i);
    "<span class=\"key-item\"><span class=\"dot "@ + e.1 + "\"></span>"@ + e.0 + "</span>"@
}

pub open spec fn any_bar_key(fg: FlowGraph) -> bool {
    exists|i: int| 0 <= i < 7 && #[trigger] flow_has_prov(fg, bar_key_entry(i).2)
}

pub open spec fn any_ribbon_key(fg: FlowGraph) -> bool {
    exists|i: int| 0 <= i < 3 && #[trigger] flow_has_kind(fg, ribbon_key_entry(i).2)
}

/// The flow view's two color keys, bar provenance and ribbon link type, each
/// listing only the categories present; nothing when neither has any.
pub open spec fn spec_keys_html(fg: FlowGraph) -> Seq<char> {
    let bars = any_bar_key(fg);
    let ribbons = any_ribbon_key(fg);
    if !bars && !ribbons {
        Seq::<char>::empty()
    } else {
        "<div class=\"sankey-keys\">"@ + (if bars {
            "<div class=\"sankey-key\"><span class=\"sankey-key-title\">Bars · provenance</span>"@ + present_items(
                |i: int| flow_has_prov(fg, bar_key_entry(i).2),
                |i: int| spec_bar_key_item(i),
                7,
            ) + "</div>"@
        } else {
            Seq::<char>::empty()
        }) + (if ribbons {
            "<div class=\"sankey-key\"><span class=\"sankey-key-title\">Ribbons · link type</span>"@ + present_items(
                |i: int| flow_has_kind(fg, ribbon_key_entry(i).2),
                |i: int| spec_ribbon_key_item(i),
                3,
            ) + "</div>"@
        } else {
            Seq::<char>::empty()
        }) + "</div>"@
    }
}

fn has_prov(fg: &FlowGraph, p: Provenance) -> (r: bool)
    ensures
        r == flow_has_prov(*fg, p),
{
    let mut i: usize = 0;
    while i < fg.nodes.len()
        invariant
            i <= fg.nodes@.len(),
            forall|t: int| 0 <= t < i ==> (#[trigger] fg.nodes@[t]).prov != p,
        decreases fg.nodes.len() - i,
    {
        if fg.nodes[i].prov == p {
            return true;
        }
        i += 1;
    }
    false
}

fn has_kind(fg: &FlowGraph, k: EdgeKind) -> (r: bool)
    ensures
        r == flow_has_kind(*fg, k),
{
    let mut i: usize = 0;
    while i < fg.links.len()
        invariant
            i <= fg.links@.len(),
            forall|t: int| 0 <= t < i ==> (#[trigger] fg.links@[t]).kind != k,
        decreases fg.links.len() - i,
    {
        if fg.links[i].kind == k {
            return true;
        }
        i += 1;
    }
    false
}

fn bar_key_entry_at(i: usize) -> (r: (&'static str, &'static str, Provenance))
    requires
        i < 7,
    ensures
        r.0@ == bar_key_entry(i as int).0,
        r.1@ == bar_key_entry(i as int).1,
        r.2 == bar_key_entry(i as int).2,
{
    if i == 0 {
        ("Search", "dot-search", Provenance::SearchOrigin)
    } else if i == 1 {
        ("Link", "dot-link", Provenance::Link)
    } else if i == 2 {
        ("Typed URL", "dot-typed", Provenance::TypedUrl)
    } else if i == 3 {
        ("Bookmark", "dot-bookmark", Provenance::Bookmark)
    } else if i == 4 {
        ("Form", "dot-form", Provenance::Form)
    } else if i == 5 {
        ("External", "dot-external", Provenance::Start)
    } else {
        ("Other", "dot-other", Provenance::Other)
    }
}

fn ribbon_key_entry_at(i: usize) -> (r: (&'static str, &'static str, EdgeKind))
    requires
        i < 3,
    ensures
        r.0@ == ribbon_key_entry(i as int).0,
        r.1@ == ribbon_key_entry(i as int).1,
        r.2 == ribbon_key_entry(i as int).2,
{
    if i == 0 {
        ("Link", "dot-edge-link", EdgeKind::Link)
    } else if i == 1 {
        ("Form", "dot-edge-form", EdgeKind::Form)
    } else {
        ("Search-link", "dot-edge-search", EdgeKind::SearchLink)
    }
}

/// The Sankey page's color keys: bar provenance and ribbon edge kind.
pub fn keys_html(fg: &FlowGraph) -> (r: String)
    ensures
        r@ == spec_keys_html(*fg),
{
    let ghost pp = |i: int| flow_has_prov(*fg, bar_key_entry(i).2);
    let ghost pi = |i: int| spec_bar_key_item(i);
    let ghost kp = |i: int| flow_has_kind(*fg, ribbon_key_entry(i).2);
    let ghost ki = |i: int| spec_ribbon_key_item(i);
    let mut bars = false;
    let mut i: usize = 0;
    while i < 7
        invariant
            i <= 7,
            bars <==> exists|t: int| 0 <= t < i && #[trigger] flow_has_prov(*fg, bar_key_entry(t).2),
        decreases 7 - i,
    {
        let e = bar_key_entry_at(i);
        if has_prov(fg, e.2) {
            bars = true;
        }
        i += 1;
    }
    let mut ribbons = false;
    let mut i: usize = 0;
    while i < 3
        invariant
            i <= 3,
            ribbons <==> exists|t: int| 0 <= t < i && #[trigger] flow_has_kind(*fg, ribbon_key_entry(t).2),
        decreases 3 - i,
    {
        let e = ribbon_key_entry_at(i);
        if has_kind(fg, e.2) {
            ribbons = true;
        }
        i += 1;
    }
    let mut h = String::new();
    if !bars && !ribbons {
        return h;
    }
    push_str(&mut h, "<div class=\"sankey-keys\">");
    let ghost start = h@;
    if bars {
        push_str(&mut h, "<div class=\"sankey-key\"><span class=\"sankey-key-title\">Bars · provenance</span>");
        let ghost head = h@;
        let mut i: usize = 0;
        while i < 7
            invariant
                i <= 7,
                pp == (|i: int| flow_has_prov(*fg, bar_key_entry(i).2)),
                pi == (|i: int| spec_bar_key_item(i)),
                h@ == head + present_items(pp, pi, i as int),
            decreases 7 - i,
        {
            let e = bar_key_entry_at(i);
            if has_prov(fg, e.2) {
                push_str(&mut h, "<span class=\"key-item\"><span class=\"dot ");
                push_str(&mut h, e.1);
                push_str(&mut h, " ");
                push_str(&mut h, e.2.shape().css());
                push_str(&mut h, "\"></span>");
                push_str(&mut h, e.0);
                push_str(&mut h, "</span>");
            }
            assert(h@ =~= head + present_items(pp, pi, i + 1));
            i += 1;
        }
        push_str(&mut h, "</div>");
    }
    let ghost mid = h@;
    if ribbons {
        push_str(&mut h, "<div class=\"sankey-key\"><span class=\"sankey-key-title\">Ribbons · link type</span>");
        let ghost head = h@;
        let mut i: usize = 0;
        while i < 3
            invariant
                i <= 3,
                kp == (|i: int| flow_has_kind(*fg, ribbon_key_entry(i).2)),
                ki == (|i: int| spec_ribbon_key_item(i)),
                h@ == head + present_items(kp, ki, i as int),
            decreases 3 - i,
        {
            let e = ribbon_key_entry_at(i);
            if has_kind(fg, e.2) {
                push_str(&mut h, "<span class=\"key-item\"><span class=\"dot ");
                push_str(&mut h, e.1);
                push_str(&mut h, "\"></span>");
                push_str(&mut h, e.0);
                push_str(&mut h, "</span>");
            }
            assert(h@ =~= head + present_items(kp, ki, i + 1));
            i += 1;
        }
        push_str(&mut h, "</div>");
    }
    push_str(&mut h, "</div>");
    h
}

/// The provenance of the last flow node keyed `key`; Other when none is.
pub open spec fn node_prov_of(nodes: Seq<FlowNode>, key: Seq<char>) -> Provenance
    decreases nodes.len(),
{
    if nodes.len() == 0 {
        Provenance::Other
    } else if nodes.last().key@ == key {
        nodes.last().prov
    } else {
        node_prov_of(nodes.drop_last(), key)
    }
}

/// One direct-visit chip: the host's provenance dot and glyph, its name,
/// and `×count` when visited more than once.
pub open spec fn spec_dv_chip(host: Seq<char>, count: u32, p: Provenance) -> Seq<char> {
    "<span class=\"dv-chip\"><span class=\"dot "@ + spec_prov_dot(p) + " "@ + spec_shape_css(spec_shape(p)) + "\"></span>"@
        + spec_esc(host) + (if count > 1 {
        " ×"@ + decimal(count as nat)
    } else {
        Seq::<char>::empty()
    }) + "</span>"@
}

/// The "Direct visits" list of orphan hosts as chips; nothing when there
/// are none.
pub open spec fn spec_direct_visits_html(orphans: Seq<(String, u32)>, fg: FlowGraph) -> Seq<char> {
    if orphans.len() == 0 {
        Seq::<char>::empty()
    } else {
        "<div class=\"direct-visits\"><h4>Direct visits</h4><div class=\"dv-chips\">"@ + concat(
            Seq::new(
                orphans.len(),
                |i: int| spec_dv_chip(orphans[i].0@, orphans[i].1, node_prov_of(fg.nodes@, orphans[i].0@)),
            ),
        ) + "</div></div>"@
    }
}

fn prov_of_host(nodes: &Vec<FlowNode>, host: &str) -> (r: Provenance)
    ensures
        r == node_prov_of(nodes@, host@),
{
    let mut found = Provenance::Other;
    let mut i: usize = 0;
    while i < nodes.len()
        invariant
            i <= nodes@.len(),
            found == node_prov_of(nodes@.take(i as int), host@),
        decreases nodes.len() - i,
    {
        assert(nodes@.take(i + 1).drop_last() =~= nodes@.take(i as int));
        if str_eq(nodes[i].key.as_str(), host) {
            found = nodes[i].prov;
        }
        i += 1;
    }
    assert(nodes@.take(i as int) =~= nodes@);
    found
}

fn push_dv_chip(h: &mut String, host: &str, count: u32, p: Provenance)
    ensures
        final(h)@ == old(h)@ + spec_dv_chip(host@, count, p),
{
    push_str(h, "<span class=\"dv-chip\"><span class=\"dot ");
    push_str(h, prov_dot(p));
    push_str(h, " ");
    push_str(h, p.shape().css());
    push_str(h, "\"></span>");
    let e = esc(host);
    push_str(h, e.as_str());
    let ghost mid = h@;
    if count > 1 {
        push_str(h, " ×");
        push_decimal(h, count as u64);
    }
    push_str(h, "</span>");
    proof {
        let suffix = if count > 1 {
            " ×"@ + decimal(count as nat)
        } else {
            Seq::<char>::empty()
        };
        assert(h@ =~= mid + suffix + "</span>"@);
    }
}

/// The "Direct visits" chips of the orphan hosts.
pub fn direct_visits_html(orphans: &[(String, u32)], fg: &FlowGraph) -> (r: String)
    ensures
        r@ == spec_direct_visits_html(orphans@, *fg),
{
    let mut h = String::new();
    if orphans.len() == 0 {
        return h;
    }
    push_str(&mut h, "<div class=\"direct-visits\"><h4>Direct visits</h4><div class=\"dv-chips\">");
    let ghost head = h@;
    let ghost g = |i: int| spec_dv_chip(orphans@[i].0@, orphans@[i].1, node_prov_of(fg.nodes@, orphans@[i].0@));
    let mut i: usize = 0;
    while i < orphans.len()
        invariant
            i <= orphans@.len(),
            g == (|i: int| spec_dv_chip(orphans@[i].0@, orphans@[i].1, node_prov_of(fg.nodes@, orphans@[i].0@))),
            h@ == head + concat(Seq::new(i as nat, g)),
        decreases orphans.len() - i,
    {
        let p = prov_of_host(&fg.nodes, orphans[i].0.as_str());
        push_dv_chip(&mut h, orphans[i].0.as_str(), orphans[i].1, p);
        proof {
            assert(Seq::new((i + 1) as nat, g).drop_last() =~= Seq::new(i as nat, g));
        }
        i += 1;
    }
    proof {
        assert(Seq::new(i as nat, g) =~= Seq::new(orphans@.len(), g));
    }
    push_str(&mut h, "</div></div>");
    h
}


/// The short kind name of an event.
pub open spec fn event_kind(e: Event) -> Seq<char> {
    match e {
        Event::Nav { .. } => "nav"@,
        Event::Link { .. } => "link"@,
        Event::Close { .. } => "close"@,
        Event::Focus { .. } => "focus"@,
        Event::Wfocus { .. } => "wfocus"@,
        Event::Start { .. } => "start"@,
        Event::Unknown => "unknown"@,
    }
}

/// A navigation's qualifiers after a space, comma-separated; nothing when
/// there are none.
pub open spec fn qualifier_suffix(qualifiers: Seq<String>) -> Seq<char> {
    if qualifiers.len() == 0 {
        Seq::<char>::empty()
    } else {
        " "@ + join_sep(Seq::new(qualifiers.len(), |k: int| qualifiers[k]@), ","@)
    }
}

/// The one-line detail of an event in the raw stream view.
pub open spec fn spec_event_detail(e: Event) -> Seq<char> {
    match e {
        Event::Nav { tab_id, to_url, transition_type, qualifiers, .. } => "tab "@ + int_decimal(tab_id as int) + " → "@
            + to_url@ + " ["@ + transition_type@ + qualifier_suffix(qualifiers@) + "]"@,
        Event::Link { new_tab_id, source_tab_id, .. } => "tab "@ + int_decimal(source_tab_id as int) + " → new tab "@
            + int_decimal(new_tab_id as int),
        Event::Close { tab_id, .. } => "tab "@ + int_decimal(tab_id as int),
        Event::Focus { tab_id, window_id, .. } => "tab "@ + int_decimal(tab_id as int) + " active in window "@
            + int_decimal(window_id as int),
        Event::Wfocus { window_id, .. } => if window_id < 0 {
            "browser blurred"@
        } else {
            "window "@ + int_decimal(window_id as int) + " focused"@
        },
        Event::Start { .. } => "browser start"@,
        Event::Unknown => Seq::<char>::empty(),
    }
}

fn push_qualifiers(h: &mut String, qualifiers: &Vec<String>)
    ensures
        final(h)@ == old(h)@ + qualifier_suffix(qualifiers@),
{
    if qualifiers.len() == 0 {
        return;
    }
    push_str(h, " ");
    let ghost start = h@;
    let ghost f = |k: int| qualifiers@[k]@;
    let mut k: usize = 0;
    while k < qualifiers.len()
        invariant
            k <= qualifiers@.len(),
            f == (|k: int| qualifiers@[k]@),
            h@ == start + join_sep(Seq::new(k as nat, f), ","@),
        decreases qualifiers.len() - k,
    {
        if k > 0 {
            push_str(h, ",");
        }
        push_str(h, qualifiers[k].as_str());
        proof {
            let next = Seq::new((k + 1) as nat, f);
            assert(next.drop_last() =~= Seq::new(k as nat, f));
            if k == 0 {
                assert(join_sep(next, ","@) == next[0]);
            }
            assert(h@ =~= start + join_sep(next, ","@));
        }
        k += 1;
    }
    proof {
        assert(Seq::new(k as nat, f) =~= Seq::new(qualifiers@.len(), |k: int| qualifiers@[k]@));
    }
}

/// An event as the raw stream shows it: its id, kind, timestamp and a
/// one-line detail (no id or timestamp for an unrecognized kind).
pub fn describe(ev: &Event) -> (r: (Option<i64>, &'static str, Option<i64>, String))
    ensures
        r.0 == spec_event_id(*ev),
        r.1@ == event_kind(*ev),
        r.2 == spec_event_ts(*ev),
        r.3@ == spec_event_detail(*ev),
{
    let mut d = String::new();
    match ev {
        Event::Nav { id, ts, tab_id, to_url, transition_type, qualifiers, .. } => {
            push_str(&mut d, "tab ");
            push_int(&mut d, *tab_id);
            push_str(&mut d, " → ");
            push_str(&mut d, to_url.as_str());
            push_str(&mut d, " [");
            push_str(&mut d, transition_type.as_str());
            push_qualifiers(&mut d, qualifiers);
            push_str(&mut d, "]");
            (Some(*id), "nav", Some(*ts), d)
        },
        Event::Link { id, ts, new_tab_id, source_tab_id } => {
            push_str(&mut d, "tab ");
            push_int(&mut d, *source_tab_id);
            push_str(&mut d, " → new tab ");
            push_int(&mut d, *new_tab_id);
            (Some(*id), "link", Some(*ts), d)
        },
        Event::Close { id, ts, tab_id } => {
            push_str(&mut d, "tab ");
            push_int(&mut d, *tab_id);
            (Some(*id), "close", Some(*ts), d)
        },
        Event::Focus { id, ts, tab_id, window_id } => {
            push_str(&mut d, "tab ");
            push_int(&mut d, *tab_id);
            push_str(&mut d, " active in window ");
            push_int(&mut d, *window_id);
            (Some(*id), "focus", Some(*ts), d)
        },
        Event::Wfocus { id, ts, window_id } => {
            if *window_id < 0 {
                push_str(&mut d, "browser blurred");
            } else {
                push_str(&mut d, "window ");
                push_int(&mut d, *window_id);
                push_str(&mut d, " focused");
            }
            (Some(*id), "wfocus", Some(*ts), d)
        },
        Event::Start { id, ts } => {
            push_str(&mut d, "browser start");
            (Some(*id), "start", Some(*ts), d)
        },
        Event::Unknown => (None, "unknown", None, d),
    }
}

/// The position of a known event kind in the breakdown order (nav, link,
/// close, focus, wfocus, start); 6 for an unrecognized kind.
pub open spec fn kind_slot(e: Event) -> int {
    match e {
        Event::Nav { .. } => 0,
        Event::Link { .. } => 1,
        Event::Close { .. } => 2,
        Event::Focus { .. } => 3,
        Event::Wfocus { .. } => 4,
        Event::Start { .. } => 5,
        Event::Unknown => 6,
    }
}

/// The kind name of breakdown slot `k`.
pub open spec fn slot_name(k: int) -> Seq<char> {
    if k == 0 {
        "nav"@
    } else if k == 1 {
        "link"@
    } else if k == 2 {
        "close"@
    } else if k == 3 {
        "focus"@
    } else if k == 4 {
        "wfocus"@
    } else {
        "start"@
    }
}

/// How many of the events fall in slot `k`.
pub open spec fn slot_count(evs: Seq<Event>, k: int) -> nat
    decreases evs.len(),
{
    if evs.len() == 0 {
        0
    } else {
        slot_count(evs.drop_last(), k) + if kind_slot(evs.last()) == k {
            1nat
        } else {
            0
        }
    }
}

/// `kind count` for each of the first `n` slots that occurs.
pub open spec fn slot_parts(evs: Seq<Event>, n: int) -> Seq<Seq<char>>
    decreases n,
{
    if n <= 0 {
        Seq::<Seq<char>>::empty()
    } else {
        slot_parts(evs, n - 1) + if slot_count(evs, n - 1) > 0 {
            seq![slot_name(n - 1) + " "@ + decimal(slot_count(evs, n - 1))]
        } else {
            Seq::<Seq<char>>::empty()
        }
    }
}

/// The per-kind breakdown of the events, kinds in a fixed order, absent
/// kinds left out: `nav 412 · link 8 · close 51`.
pub open spec fn spec_kind_counts_line(evs: Seq<Event>) -> Seq<char> {
    join_sep(slot_parts(evs, 6), " · "@)
}

fn slot_name_at(k: usize) -> (r: &'static str)
    requires
        k < 6,
    ensures
        r@ == slot_name(k as int),
{
    if k == 0 {
        "nav"
    } else if k == 1 {
        "link"
    } else if k == 2 {
        "close"
    } else if k == 3 {
        "focus"
    } else if k == 4 {
        "wfocus"
    } else {
        "start"
    }
}

fn slot_of(e: &Event) -> (r: usize)
    ensures
        r == kind_slot(*e),
{
    match e {
        Event::Nav { .. } => 0,
        Event::Link { .. } => 1,
        Event::Close { .. } => 2,
        Event::Focus { .. } => 3,
        Event::Wfocus { .. } => 4,
        Event::Start { .. } => 5,
        Event::Unknown => 6,
    }
}

/// One-line per-kind breakdown of the shown events.
pub fn kind_counts_line(events: &[Event]) -> (r: String)
    ensures
        r@ == spec_kind_counts_line(events@),
{
    let mut counts: Vec<u64> = vec![0, 0, 0, 0, 0, 0, 0];
    let mut i: usize = 0;
    while i < events.len()
        invariant
            i <= events@.len(),
            counts@.len() == 7,
            forall|k: int| 0 <= k < 7 ==> #[trigger] counts@[k] == slot_count(events@.take(i as int), k),
            forall|k: int| 0 <= k < 7 ==> #[trigger] counts@[k] <= i,
        decreases events.len() - i,
    {
        let k = slot_of(&events[i]);
        let c = counts[k] + 1;
        counts.set(k, c);
        proof {
            assert(events@.take(i + 1).drop_last() =~= events@.take(i as int));
        }
        i += 1;
    }
    proof {
        assert(events@.take(i as int) =~= events@);
    }
    let mut h = String::new();
    let mut n: usize = 0;
    let mut k: usize = 0;
    while k < 6
        invariant
            k <= 6,
            counts@.len() == 7,
            forall|t: int| 0 <= t < 7 ==> #[trigger] counts@[t] == slot_count(events@, t),
            n == slot_parts(events@, k as int).len(),
            n <= k,
            h@ == join_sep(slot_parts(events@, k as int), " · "@),
        decreases 6 - k,
    {
        let c = counts[k];
        if c > 0 {
            let ghost before = slot_parts(events@, k as int);
            if n > 0 {
                push_str(&mut h, " · ");
            }
            push_str(&mut h, slot_name_at(k));
            push_str(&mut h, " ");
            push_decimal(&mut h, c);
            proof {
                let next = slot_parts(events@, k + 1);
                assert(next.drop_last() =~= before);
                if n == 0 {
                    assert(before.len() == 0);
                    assert(join_sep(next, " · "@) == next[0]);
                }
                assert(h@ =~= join_sep(next, " · "@));
            }
            n += 1;
        } else {
            assert(slot_parts(events@, k + 1) =~= slot_parts(events@, k as int));
        }
        k += 1;
    }
    h
}


/// The inspector header: the provenance dot, the favicon markup, the host
/// (also its tooltip) and the close button.
pub open spec fn spec_insp_head(host: Seq<char>, prov: Provenance, icon_html: Seq<char>) -> Seq<char> {
    let host_e = spec_esc(host);
    "<div class=\"insp-head\"><span class=\"dot "@ + spec_prov_dot(prov) + " "@ + spec_shape_css(spec_shape(prov))
        + "\"></span>"@ + icon_html + "<span class=\"insp-host\" title=\""@ + host_e + "\">"@ + host_e
        + "</span><button type=\"button\" class=\"insp-x\" aria-label=\"Close inspector\">✕</button></div>"@
}

/// The note on how many hostnames a registrable-domain node aggregates.
pub open spec fn spec_domain_note(domain_note: Option<usize>) -> Seq<char> {
    match domain_note {
        Some(n) => "<div class=\"insp-note\">aggregating "@ + spec_plural(n as u64, "hostname"@) + "</div>"@,
        None => Seq::<char>::empty(),
    }
}

/// The three headline figures: visits, time spent (with its tooltip) and
/// share of visits.
pub open spec fn spec_insp_stats(visits: u32, dwell_text: Seq<char>, dwell_title: Seq<char>, share: Seq<char>) -> Seq<char> {
    "<div class=\"insp-stats\"><div class=\"insp-stat\"><div class=\"insp-stat-v\">"@ + decimal(visits as nat)
        + "</div><div class=\"insp-stat-l\">visits</div></div><div class=\"insp-stat\"><div class=\"insp-stat-v\" title=\""@
        + spec_esc(dwell_title) + "\">"@ + spec_esc(dwell_text)
        + "</div><div class=\"insp-stat-l\">time spent</div></div><div class=\"insp-stat\"><div class=\"insp-stat-v\">"@
        + spec_esc(share) + "</div><div class=\"insp-stat-l\">of visits</div></div></div>"@
}

/// First and last seen, when known.
pub open spec fn spec_insp_seen(seen: Option<(String, String)>) -> Seq<char> {
    match seen {
        Some((first, last)) => "<div class=\"insp-seen\"><span class=\"insp-muted\">First seen</span><span>"@
            + spec_esc(first@) + "</span></div><div class=\"insp-seen\"><span class=\"insp-muted\">Last seen</span><span>"@
            + spec_esc(last@) + "</span></div>"@,
        None => Seq::<char>::empty(),
    }
}

/// Where visits came from and went to, or a note that there are no links.
pub open spec fn spec_insp_conns(conns: NodeConnections) -> Seq<char> {
    if conns.came_from@.len() == 0 && conns.went_to@.len() == 0 {
        "<p class=\"insp-muted\">No links to or from this site in view.</p>"@
    } else {
        (if conns.came_from@.len() > 0 {
            "<h4 class=\"insp-h\">Came from</h4>"@ + spec_conn_rows(conns.came_from@)
        } else {
            Seq::<char>::empty()
        }) + (if conns.went_to@.len() > 0 {
            "<h4 class=\"insp-h\">Went to</h4>"@ + spec_conn_rows(conns.went_to@)
        } else {
            Seq::<char>::empty()
        })
    }
}

/// The inspector's synchronous part: header, aggregation note, figures,
/// first/last seen, the daily sparkline markup, connections, the async
/// region's current content and the forget button.
pub open spec fn spec_static_html(
    host: Seq<char>,
    prov: Provenance,
    domain_note: Option<usize>,
    node: NodeAgg,
    dwell_text: Seq<char>,
    dwell_title: Seq<char>,
    share: Seq<char>,
    seen: Option<(String, String)>,
    sparkline: Seq<char>,
    conns: NodeConnections,
    icon_html: Seq<char>,
    async_inner: Seq<char>,
) -> Seq<char> {
    spec_insp_head(host, prov, icon_html) + spec_domain_note(domain_note) + spec_insp_stats(
        node.visits,
        dwell_text,
        dwell_title,
        share,
    ) + spec_insp_seen(seen) + sparkline + spec_insp_conns(conns) + "<div class=\"insp-async\" id=\"bg-insp-async\">"@
        + async_inner + "</div>"@
        + "<div class=\"insp-foot\"><button type=\"button\" class=\"insp-forget\">Forget this site…</button></div>"@
}

fn push_insp_head(h: &mut String, host: &str, prov: Provenance, icon_html: &str)
    ensures
        final(h)@ == old(h)@ + spec_insp_head(host@, prov, icon_html@),
{
    let host_e = esc(host);
    push_str(h, "<div class=\"insp-head\"><span class=\"dot ");
    push_str(h, prov_dot(prov));
    push_str(h, " ");
    push_str(h, prov.shape().css());
    push_str(h, "\"></span>");
    push_str(h, icon_html);
    push_str(h, "<span class=\"insp-host\" title=\"");
    push_str(h, host_e.as_str());
    push_str(h, "\">");
    push_str(h, host_e.as_str());
    push_str(h, "</span><button type=\"button\" class=\"insp-x\" aria-label=\"Close inspector\">✕</button></div>");
}

fn push_insp_stats(h: &mut String, visits: u32, dwell_text: &str, dwell_title: &str, share: &str)
    ensures
        final(h)@ == old(h)@ + spec_insp_stats(visits, dwell_text@, dwell_title@, share@),
{
    push_str(h, "<div class=\"insp-stats\"><div class=\"insp-stat\"><div class=\"insp-stat-v\">");
    push_decimal(h, visits as u64);
    push_str(
        h,
        "</div><div class=\"insp-stat-l\">visits</div></div><div class=\"insp-stat\"><div class=\"insp-stat-v\" title=\"",
    );
    let t = esc(dwell_title);
    push_str(h, t.as_str());
    push_str(h, "\">");
    let d = esc(dwell_text);
    push_str(h, d.as_str());
    push_str(
        h,
        "</div><div class=\"insp-stat-l\">time spent</div></div><div class=\"insp-stat\"><div class=\"insp-stat-v\">",
    );
    let s = esc(share);
    push_str(h, s.as_str());
    push_str(h, "</div><div class=\"insp-stat-l\">of visits</div></div></div>");
}

fn push_insp_seen(h: &mut String, seen: &Option<(String, String)>)
    ensures
        final(h)@ == old(h)@ + spec_insp_seen(*seen),
{
    match seen {
        Some((first, last)) => {
            push_str(h, "<div class=\"insp-seen\"><span class=\"insp-muted\">First seen</span><span>");
            let f = esc(first.as_str());
            push_str(h, f.as_str());
            push_str(h, "</span></div><div class=\"insp-seen\"><span class=\"insp-muted\">Last seen</span><span>");
            let l = esc(last.as_str());
            push_str(h, l.as_str());
            push_str(h, "</span></div>");
        },
        None => {
            assert(spec_insp_seen(*seen) =~= Seq::<char>::empty());
        },
    }
}

fn push_insp_conns(h: &mut String, conns: &NodeConnections)
    ensures
        final(h)@ == old(h)@ + spec_insp_conns(*conns),
{
    let ghost start = h@;
    if conns.came_from.len() == 0 && conns.went_to.len() == 0 {
        push_str(h, "<p class=\"insp-muted\">No links to or from this site in view.</p>");
    } else {
        if conns.came_from.len() > 0 {
            push_str(h, "<h4 class=\"insp-h\">Came from</h4>");
            let r = conn_rows(conns.came_from.as_slice());
            push_str(h, r.as_str());
        }
        let ghost mid = h@;
        if conns.went_to.len() > 0 {
            push_str(h, "<h4 class=\"insp-h\">Went to</h4>");
            let r = conn_rows(conns.went_to.as_slice());
            push_str(h, r.as_str());
        }
        proof {
            let a = if conns.came_from@.len() > 0 {
                "<h4 class=\"insp-h\">Came from</h4>"@ + spec_conn_rows(conns.came_from@)
            } else {
                Seq::<char>::empty()
            };
            let b = if conns.went_to@.len() > 0 {
                "<h4 class=\"insp-h\">Went to</h4>"@ + spec_conn_rows(conns.went_to@)
            } else {
                Seq::<char>::empty()
            };
            assert(mid =~= start + a);
            assert(h@ =~= start + (a + b));
        }
    }
}

/// The inspector's static part for one host; `sparkline` is the host's
/// rendered daily sparkline.
pub fn static_html(
    host: &str,
    prov: Provenance,
    domain_note: Option<usize>,
    node: &NodeAgg,
    dwell_text: &str,
    dwell_title: &str,
    share: &str,
    seen: &Option<(String, String)>,
    sparkline: &str,
    conns: &NodeConnections,
    icon_html: &str,
    async_inner: &str,
) -> (r: String)
    ensures
        r@ == spec_static_html(
            host@,
            prov,
            domain_note,
            *node,
            dwell_text@,
            dwell_title@,
            share@,
            *seen,
            sparkline@,
            *conns,
            icon_html@,
            async_inner@,
        ),
{
    let mut h = String::new();
    push_insp_head(&mut h, host, prov, icon_html);
    let ghost a = h@;
    match domain_note {
        Some(n) => {
            push_str(&mut h, "<div class=\"insp-note\">aggregating ");
            let p = plural(n as u64, "hostname");
            push_str(&mut h, p.as_str());
            push_str(&mut h, "</div>");
        },
        None => {},
    }
    assert(h@ =~= a + spec_domain_note(domain_note));
    push_insp_stats(&mut h, node.visits, dwell_text, dwell_title, share);
    push_insp_seen(&mut h, seen);
    push_str(&mut h, sparkline);
    push_insp_conns(&mut h, conns);
    push_str(&mut h, "<div class=\"insp-async\" id=\"bg-insp-async\">");
    push_str(&mut h, async_inner);
    push_str(&mut h, "</div>");
    push_str(&mut h, "<div class=\"insp-foot\"><button type=\"button\" class=\"insp-forget\">Forget this site…</button></div>");
    h
}

/// The display name of a provenance.
pub open spec fn spec_prov_label(p: Provenance) -> Seq<char> {
    match p {
        Provenance::Link => "Link"@,
        Provenance::Form => "Form"@,
        Provenance::TypedUrl => "Typed URL"@,
        Provenance::SearchOrigin => "Search"@,
        Provenance::Bookmark => "Bookmark"@,
        Provenance::Start => "External"@,
        Provenance::Reload => "Reload"@,
        Provenance::Other => "Other"@,
    }
}

/// The display name of a provenance.
pub fn prov_label(p: Provenance) -> (r: &'static str)
    ensures
        r@ == spec_prov_label(p),
{
    match p {
        Provenance::Link => "Link",
        Provenance::Form => "Form",
        Provenance::TypedUrl => "Typed URL",
        Provenance::SearchOrigin => "Search",
        Provenance::Bookmark => "Bookmark",
        Provenance::Start => "External",
        Provenance::Reload => "Reload",
        Provenance::Other => "Other",
    }
}

} // verus!
