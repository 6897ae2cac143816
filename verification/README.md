# outdegree

The verified core of a browsing-graph dashboard: it turns a browser's
append-only event stream (navigations, new-tab links, closes, restarts) into
per-day node and edge statistics and session records, and projects, filters
and ranks them for display.

Layout:

- `src/` — the library, verified with Verus.
  - `derive.rs`, `rollup.rs` — the read-time derivation pass over the event
    stream (tab origins, redirect collapse, sessions), its checkpoint, UTC-day
    bucketing and bucket merging; a fold resumed from a checkpoint continues
    exactly as a from-scratch pass (`lemma_fold_resumes_exactly`,
    `lemma_day_totals_split`, and over two `fold` calls,
    `lemma_fold_in_two_calls`).
  - `interpret.rs`, `urls.rs`, `model.rs` — transition classification, hosts
    and registrable domains, the provenance and edge-kind taxonomy.
  - `project.rs`, `projection.rs`, `period.rs`, `walk.rs` — bucket windows,
    the graph projection with its filters, period-over-period comparisons,
    the sessions of the Session range and the ‹ / › walk over them.
  - `graph.rs`, `hubs.rs`, `sequences.rs`, `inspect.rs`, `search.rs`,
    `flow.rs`, `sessions.rs` — rankings, hubs, frequent journeys, per-host
    detail, search terms and the per-session flow (its columns come from a
    depth-first search that sets cycle-closing links aside, stated as
    `dfs_back`).
  - `privacy.rs` — which stored events forgetting a domain or deleting a
    span removes.
  - `markup.rs`, `ui_text.rs`, `views.rs`, `ui_prefs.rs`, `svg.rs`,
    `export.rs` — text and HTML fragments, preferences and saved views.
  - `laws.rs` — properties relating several operations.
- `tests/` — tests run against the compiled library.
- `app/` — the parts around the library: JSON persistence, and the
  floating-point geometry and statistics (layout, communities, SVG, rates,
  percentage changes, and the growth factor by which surges are ranked).
