//! Outdegree core: browsing-graph derivation, projection and analysis.
pub mod assoc;
pub mod derive;
pub mod export;
pub mod favicon;
pub mod flow;
pub mod graph;
pub mod hubs;
pub mod inspect;
pub mod interpret;
pub mod keyed;
pub mod laws;
pub mod markup;
pub mod model;
pub mod numparse;
pub mod privacy;
pub mod period;
pub mod project;
pub mod projection;
pub mod render;
pub mod rollup;
pub mod sample;
pub mod sessions;
pub mod search;
pub mod sequences;
pub mod sorting;
pub mod svg;
pub mod tally;
pub mod stewardship;
pub mod text;
pub mod ui_prefs;
pub mod ui_text;
pub mod urls;
pub mod views;
pub mod walk;
