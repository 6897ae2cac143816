//! Persisted dashboard preferences: the subset of view controls that
//! survive a reload.
use vstd::prelude::*;
use crate::model::Granularity;
use crate::project::TimeRange;

verus! {

/// Storage key the preferences document is persisted under.
pub const STORAGE_KEY: &'static str = "uiPrefs";

/// The persistable view (the raw-events view is deliberately excluded).
#[derive(Clone, Copy, Debug, PartialEq, Eq, Structural)]
pub enum PrefView {
    Graph,
    Sankey,
    Tables,
}

impl Default for PrefView {
    fn default() -> (r: PrefView)
        ensures
            r == PrefView::Graph,
    {
        PrefView::Graph
    }
}

/// The persisted view controls.
#[derive(Clone, Debug, PartialEq, Eq, Structural)]
pub struct UiPrefs {
    pub view: PrefView,
    pub time_range: TimeRange,
    pub granularity: Granularity,
    pub min_visits: u32,
    pub hide_search_hubs: bool,
    pub hide_isolated: bool,
    pub spa_mode: bool,
    pub locked: bool,
    /// Show site favicons across the dashboard (on by default).
    pub site_icons: bool,
    /// Render the graph in 3-D (off by default).
    pub three_d: bool,
}

impl Default for UiPrefs {
    /// The zero-config landing state: Graph, Year, Hostname, no filters,
    /// site icons on, 2-D.
    fn default() -> (r: UiPrefs)
        ensures
            r == (UiPrefs {
                view: PrefView::Graph,
                time_range: TimeRange::Year,
                granularity: Granularity::Hostname,
                min_visits: 0,
                hide_search_hubs: false,
                hide_isolated: false,
                spa_mode: false,
                locked: false,
                site_icons: true,
                three_d: false,
            }),
    {
        UiPrefs {
            view: PrefView::default(),
            time_range: TimeRange::default(),
            granularity: Granularity::default(),
            min_visits: 0,
            hide_search_hubs: false,
            hide_isolated: false,
            spa_mode: false,
            locked: false,
            site_icons: true,
            three_d: false,
        }
    }
}

} // verus!
