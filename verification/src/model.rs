//! Core data model: the provenance / edge-kind taxonomy, their per-node and
//! per-edge histograms, and the projected graph aggregates.
use vstd::prelude::*;

verus! {

/// How a page was arrived at (derived from a navigation's `transitionType`).
#[derive(Clone, Copy, Debug, PartialEq, Eq, Structural, Hash)]
pub enum Provenance {
    Link,
    Form,
    TypedUrl,
    SearchOrigin,
    Bookmark,
    Start,
    Reload,
    Other,
}

/// Declaration rank of a provenance (the tie-break order of `dominant`).
pub open spec fn prov_rank(p: Provenance) -> int {
    match p {
        Provenance::Link => 0,
        Provenance::Form => 1,
        Provenance::TypedUrl => 2,
        Provenance::SearchOrigin => 3,
        Provenance::Bookmark => 4,
        Provenance::Start => 5,
        Provenance::Reload => 6,
        Provenance::Other => 7,
    }
}

pub open spec fn spec_prov_color(p: Provenance) -> Seq<char> {
    match p {
        Provenance::SearchOrigin => "oklch(0.64 0.205 264)"@,
        Provenance::Start => "oklch(0.64 0.205 210)"@,
        Provenance::Link => "oklch(0.64 0.205 288)"@,
        Provenance::TypedUrl => "oklch(0.64 0.205 312)"@,
        Provenance::Bookmark => "oklch(0.64 0.205 340)"@,
        Provenance::Reload => "oklch(0.64 0.205 350)"@,
        Provenance::Form => "oklch(0.64 0.205 8)"@,
        Provenance::Other => "oklch(0.64 0.205 30)"@,
    }
}

pub open spec fn spec_display(p: Provenance) -> Provenance {
    match p {
        Provenance::Reload => Provenance::Other,
        _ => p,
    }
}

pub open spec fn spec_shape(p: Provenance) -> Shape {
    match spec_display(p) {
        Provenance::Link => Shape::Circle,
        Provenance::SearchOrigin => Shape::Triangle,
        Provenance::TypedUrl => Shape::Square,
        Provenance::Bookmark => Shape::Diamond,
        Provenance::Form => Shape::Hexagon,
        Provenance::Start => Shape::Star,
        _ => Shape::Cross,
    }
}

impl Provenance {
    /// `Reload`/`Other` produce no node, edge, or per-tab state change.
    pub fn is_ignored(self) -> (r: bool)
        ensures
            r == (self == Provenance::Reload || self == Provenance::Other),
    {
        matches!(self, Provenance::Reload | Provenance::Other)
    }

    /// Only `Link`/`Form` traversals produce a graph edge.
    pub fn is_edge(self) -> (r: bool)
        ensures
            r == (self == Provenance::Link || self == Provenance::Form),
    {
        matches!(self, Provenance::Link | Provenance::Form)
    }

    /// "Rootless" provenances emit a node visit but no edge and reset the
    /// per-tab chain (typed/search/bookmark/start).
    pub fn is_rootless(self) -> (r: bool)
        ensures
            r == (self == Provenance::TypedUrl || self == Provenance::SearchOrigin
                || self == Provenance::Bookmark || self == Provenance::Start),
    {
        matches!(
            self,
            Provenance::TypedUrl | Provenance::SearchOrigin | Provenance::Bookmark
                | Provenance::Start
        )
    }

    /// Node fill color: one OKLCH hue ramp with constant lightness and chroma.
    pub fn color(self) -> (r: &'static str)
        ensures
            r@ == spec_prov_color(self),
    {
        match self {
            Provenance::SearchOrigin => "oklch(0.64 0.205 264)",
            Provenance::Start => "oklch(0.64 0.205 210)",
            Provenance::Link => "oklch(0.64 0.205 288)",
            Provenance::TypedUrl => "oklch(0.64 0.205 312)",
            Provenance::Bookmark => "oklch(0.64 0.205 340)",
            Provenance::Reload => "oklch(0.64 0.205 350)",
            Provenance::Form => "oklch(0.64 0.205 8)",
            Provenance::Other => "oklch(0.64 0.205 30)",
        }
    }

    /// Fold `Reload` into `Other` for display (color, glyph, legend).
    pub fn display(self) -> (r: Provenance)
        ensures
            r == spec_display(self),
    {
        match self {
            Provenance::Reload => Provenance::Other,
            p => p,
        }
    }

    /// Marker shape encoding provenance without relying on color.
    pub fn shape(self) -> (r: Shape)
        ensures
            r == spec_shape(self),
    {
        match self.display() {
            Provenance::Link => Shape::Circle,
            Provenance::SearchOrigin => Shape::Triangle,
            Provenance::TypedUrl => Shape::Square,
            Provenance::Bookmark => Shape::Diamond,
            Provenance::Form => Shape::Hexagon,
            Provenance::Start => Shape::Star,
            _ => Shape::Cross,
        }
    }
}

/// A node-marker shape (redundant with hue, so the encoding survives
/// color-vision deficiency).
#[derive(Clone, Copy, Debug, PartialEq, Eq, Structural)]
pub enum Shape {
    Circle,
    Square,
    Triangle,
    Diamond,
    Hexagon,
    Cross,
    Star,
}

pub open spec fn spec_shape_css(s: Shape) -> Seq<char> {
    match s {
        Shape::Circle => "glyph-circle"@,
        Shape::Square => "glyph-square"@,
        Shape::Triangle => "glyph-triangle"@,
        Shape::Diamond => "glyph-diamond"@,
        Shape::Hexagon => "glyph-hexagon"@,
        Shape::Cross => "glyph-cross"@,
        Shape::Star => "glyph-star"@,
    }
}

impl Shape {
    /// CSS class used to clip a legend swatch into this shape.
    pub fn css(self) -> (r: &'static str)
        ensures
            r@ == spec_shape_css(self),
    {
        match self {
            Shape::Circle => "glyph-circle",
            Shape::Square => "glyph-square",
            Shape::Triangle => "glyph-triangle",
            Shape::Diamond => "glyph-diamond",
            Shape::Hexagon => "glyph-hexagon",
            Shape::Cross => "glyph-cross",
            Shape::Star => "glyph-star",
        }
    }
}

/// The kind of a traversal edge; coloring is aggregated to the dominant kind.
#[derive(Clone, Copy, Debug, PartialEq, Eq, Structural, Hash)]
pub enum EdgeKind {
    Link,
    SearchLink,
    Form,
}

pub open spec fn kind_rank(k: EdgeKind) -> int {
    match k {
        EdgeKind::Link => 0,
        EdgeKind::SearchLink => 1,
        EdgeKind::Form => 2,
    }
}

pub open spec fn spec_kind_color(k: EdgeKind) -> Seq<char> {
    match k {
        EdgeKind::SearchLink => "oklch(0.6 0.14 264)"@,
        EdgeKind::Link => "oklch(0.6 0.14 288)"@,
        EdgeKind::Form => "oklch(0.6 0.14 8)"@,
    }
}

impl EdgeKind {
    /// Edge stroke color: the node spectrum, slightly desaturated.
    pub fn color(self) -> (r: &'static str)
        ensures
            r@ == spec_kind_color(self),
    {
        match self {
            EdgeKind::SearchLink => "oklch(0.6 0.14 264)",
            EdgeKind::Link => "oklch(0.6 0.14 288)",
            EdgeKind::Form => "oklch(0.6 0.14 8)",
        }
    }
}

/// Per-node provenance histogram; `dominant()` drives node fill.
#[derive(Clone, Copy, Debug, PartialEq, Eq, Structural)]
pub struct ProvBreakdown {
    pub link: u32,
    pub form: u32,
    pub typed_url: u32,
    pub search_origin: u32,
    pub bookmark: u32,
    pub start: u32,
    pub reload: u32,
    pub other: u32,
}

impl Default for ProvBreakdown {
    fn default() -> (r: ProvBreakdown)
        ensures
            forall|p: Provenance| r.count(p) == 0,
    {
        ProvBreakdown {
            link: 0,
            form: 0,
            typed_url: 0,
            search_origin: 0,
            bookmark: 0,
            start: 0,
            reload: 0,
            other: 0,
        }
    }
}

impl ProvBreakdown {
    /// The count recorded for provenance `p`.
    pub open spec fn count(self, p: Provenance) -> u32 {
        match p {
            Provenance::Link => self.link,
            Provenance::Form => self.form,
            Provenance::TypedUrl => self.typed_url,
            Provenance::SearchOrigin => self.search_origin,
            Provenance::Bookmark => self.bookmark,
            Provenance::Start => self.start,
            Provenance::Reload => self.reload,
            Provenance::Other => self.other,
        }
    }

    /// Whether adding `o` to this histogram stays within `u32`.
    pub open spec fn can_merge(self, o: ProvBreakdown) -> bool {
        forall|p: Provenance| self.count(p) + o.count(p) <= u32::MAX
    }

    /// The histogram holding the field-wise sum (for `can_merge` pairs).
    pub open spec fn sum(self, o: ProvBreakdown) -> ProvBreakdown {
        ProvBreakdown {
            link: (self.link + o.link) as u32,
            form: (self.form + o.form) as u32,
            typed_url: (self.typed_url + o.typed_url) as u32,
            search_origin: (self.search_origin + o.search_origin) as u32,
            bookmark: (self.bookmark + o.bookmark) as u32,
            start: (self.start + o.start) as u32,
            reload: (self.reload + o.reload) as u32,
            other: (self.other + o.other) as u32,
        }
    }

    /// `p` is the dominant provenance: its count is maximal, and every
    /// provenance declared before it has a strictly smaller count.
    pub open spec fn is_dominant(self, p: Provenance) -> bool {
        &&& forall|q: Provenance| self.count(q) <= self.count(p)
        &&& forall|q: Provenance| prov_rank(q) < prov_rank(p) ==> self.count(q) < self.count(p)
    }

    pub fn add(&mut self, p: Provenance)
        requires
            old(self).count(p) < u32::MAX,
        ensures
            final(self).count(p) == old(self).count(p) + 1,
            forall|q: Provenance| q != p ==> final(self).count(q) == old(self).count(q),
    {
        match p {
            Provenance::Link => self.link += 1,
            Provenance::Form => self.form += 1,
            Provenance::TypedUrl => self.typed_url += 1,
            Provenance::SearchOrigin => self.search_origin += 1,
            Provenance::Bookmark => self.bookmark += 1,
            Provenance::Start => self.start += 1,
            Provenance::Reload => self.reload += 1,
            Provenance::Other => self.other += 1,
        }
    }

    pub fn merge(&mut self, o: &ProvBreakdown)
        requires
            old(self).can_merge(*o),
        ensures
            *final(self) == old(self).sum(*o),
            forall|q: Provenance| final(self).count(q) == old(self).count(q) + o.count(q),
    {
        assert(self.count(Provenance::Link) + o.count(Provenance::Link) <= u32::MAX);
        assert(self.count(Provenance::Form) + o.count(Provenance::Form) <= u32::MAX);
        assert(self.count(Provenance::TypedUrl) + o.count(Provenance::TypedUrl) <= u32::MAX);
        assert(self.count(Provenance::SearchOrigin) + o.count(Provenance::SearchOrigin)
            <= u32::MAX);
        assert(self.count(Provenance::Bookmark) + o.count(Provenance::Bookmark) <= u32::MAX);
        assert(self.count(Provenance::Start) + o.count(Provenance::Start) <= u32::MAX);
        assert(self.count(Provenance::Reload) + o.count(Provenance::Reload) <= u32::MAX);
        assert(self.count(Provenance::Other) + o.count(Provenance::Other) <= u32::MAX);
        self.link += o.link;
        self.form += o.form;
        self.typed_url += o.typed_url;
        self.search_origin += o.search_origin;
        self.bookmark += o.bookmark;
        self.start += o.start;
        self.reload += o.reload;
        self.other += o.other;
    }

    /// Dominant provenance; ties broken by declaration order.
    pub fn dominant(&self) -> (r: Provenance)
        ensures
            self.is_dominant(r),
    {
        let mut best = Provenance::Link;
        let mut bc = self.link;
        if self.form > bc {
            best = Provenance::Form;
            bc = self.form;
        }
        if self.typed_url > bc {
            best = Provenance::TypedUrl;
            bc = self.typed_url;
        }
        if self.search_origin > bc {
            best = Provenance::SearchOrigin;
            bc = self.search_origin;
        }
        if self.bookmark > bc {
            best = Provenance::Bookmark;
            bc = self.bookmark;
        }
        if self.start > bc {
            best = Provenance::Start;
            bc = self.start;
        }
        if self.reload > bc {
            best = Provenance::Reload;
            bc = self.reload;
        }
        if self.other > bc {
            best = Provenance::Other;
        }
        best
    }
}

/// Per-edge kind histogram; `dominant()` drives edge color.
#[derive(Clone, Copy, Debug, PartialEq, Eq, Structural)]
pub struct KindBreakdown {
    pub link: u32,
    pub search_link: u32,
    pub form: u32,
}

impl Default for KindBreakdown {
    fn default() -> (r: KindBreakdown)
        ensures
            forall|k: EdgeKind| r.count(k) == 0,
    {
        KindBreakdown { link: 0, search_link: 0, form: 0 }
    }
}

impl KindBreakdown {
    pub open spec fn count(self, k: EdgeKind) -> u32 {
        match k {
            EdgeKind::Link => self.link,
            EdgeKind::SearchLink => self.search_link,
            EdgeKind::Form => self.form,
        }
    }

    pub open spec fn can_merge(self, o: KindBreakdown) -> bool {
        forall|k: EdgeKind| self.count(k) + o.count(k) <= u32::MAX
    }

    pub open spec fn sum(self, o: KindBreakdown) -> KindBreakdown {
        KindBreakdown {
            link: (self.link + o.link) as u32,
            search_link: (self.search_link + o.search_link) as u32,
            form: (self.form + o.form) as u32,
        }
    }

    pub open spec fn is_dominant(self, k: EdgeKind) -> bool {
        &&& forall|q: EdgeKind| self.count(q) <= self.count(k)
        &&& forall|q: EdgeKind| kind_rank(q) < kind_rank(k) ==> self.count(q) < self.count(k)
    }

    pub fn add(&mut self, k: EdgeKind)
        requires
            old(self).count(k) < u32::MAX,
        ensures
            final(self).count(k) == old(self).count(k) + 1,
            forall|q: EdgeKind| q != k ==> final(self).count(q) == old(self).count(q),
    {
        match k {
            EdgeKind::Link => self.link += 1,
            EdgeKind::SearchLink => self.search_link += 1,
            EdgeKind::Form => self.form += 1,
        }
    }

    pub fn merge(&mut self, o: &KindBreakdown)
        requires
            old(self).can_merge(*o),
        ensures
            *final(self) == old(self).sum(*o),
            forall|q: EdgeKind| final(self).count(q) == old(self).count(q) + o.count(q),
    {
        assert(self.count(EdgeKind::Link) + o.count(EdgeKind::Link) <= u32::MAX);
        assert(self.count(EdgeKind::SearchLink) + o.count(EdgeKind::SearchLink) <= u32::MAX);
        assert(self.count(EdgeKind::Form) + o.count(EdgeKind::Form) <= u32::MAX);
        self.link += o.link;
        self.search_link += o.search_link;
        self.form += o.form;
    }

    pub fn dominant(&self) -> (r: EdgeKind)
        ensures
            self.is_dominant(r),
    {
        let mut best = EdgeKind::Link;
        let mut bc = self.link;
        if self.search_link > bc {
            best = EdgeKind::SearchLink;
            bc = self.search_link;
        }
        if self.form > bc {
            best = EdgeKind::Form;
        }
        best
    }
}

/// A node in a projected graph view.
#[derive(Clone, Debug, PartialEq, Eq)]
pub struct NodeAgg {
    pub key: String,
    pub visits: u32,
    pub prov: ProvBreakdown,
    /// Total time the page was the active page across all visits, in ms.
    pub dwell_ms: u64,
    /// Total foreground time (focused window's active tab), in ms.
    pub fg_dwell_ms: u64,
}

impl Default for NodeAgg {
    fn default() -> (r: NodeAgg)
        ensures
            r.key@ == Seq::<char>::empty(),
            r.visits == 0,
            forall|p: Provenance| r.prov.count(p) == 0,
            r.dwell_ms == 0,
            r.fg_dwell_ms == 0,
    {
        NodeAgg {
            key: String::new(),
            visits: 0,
            prov: ProvBreakdown::default(),
            dwell_ms: 0,
            fg_dwell_ms: 0,
        }
    }
}

/// An edge in a projected graph view.
#[derive(Clone, Debug, PartialEq, Eq)]
pub struct EdgeAgg {
    pub from: String,
    pub to: String,
    pub weight: u32,
    pub kinds: KindBreakdown,
}

/// A fully merged and filtered graph ready for layout and render.
#[derive(Clone, Debug, PartialEq, Eq)]
pub struct GraphProjection {
    pub nodes: Vec<NodeAgg>,
    pub edges: Vec<EdgeAgg>,
}

impl Default for GraphProjection {
    fn default() -> (r: GraphProjection)
        ensures
            r.nodes@.len() == 0,
            r.edges@.len() == 0,
    {
        GraphProjection { nodes: Vec::new(), edges: Vec::new() }
    }
}

/// Node-key granularity: `Hostname` is the storage and default granularity;
/// `Registrable` (eTLD+1) is regrouped at merge time.
#[derive(Clone, Copy, Debug, PartialEq, Eq, Structural)]
pub enum Granularity {
    Hostname,
    Registrable,
}

impl Default for Granularity {
    fn default() -> (r: Granularity)
        ensures
            r == Granularity::Hostname,
    {
        Granularity::Hostname
    }
}

} // verus!

verus! {

/// An equal copy of a node.
pub fn copy_node(n: &NodeAgg) -> (r: NodeAgg)
    ensures
        r == *n,
{
    NodeAgg {
        key: n.key.clone(),
        visits: n.visits,
        prov: n.prov,
        dwell_ms: n.dwell_ms,
        fg_dwell_ms: n.fg_dwell_ms,
    }
}

/// An equal copy of an edge.
pub fn copy_edge(e: &EdgeAgg) -> (r: EdgeAgg)
    ensures
        r == *e,
{
    EdgeAgg { from: e.from.clone(), to: e.to.clone(), weight: e.weight, kinds: e.kinds }
}

} // verus!

verus! {

/// The unified, globally ordered capture stream. Ids, timestamps (epoch
/// milliseconds) and tab/window ids are integers.
#[derive(Clone, Debug, PartialEq)]
pub enum Event {
    Nav {
        id: i64,
        ts: i64,
        tab_id: i64,
        window_id: i64,
        to_url: String,
        transition_type: String,
        qualifiers: Vec<String>,
    },
    Link { id: i64, ts: i64, new_tab_id: i64, source_tab_id: i64 },
    Close { id: i64, ts: i64, tab_id: i64 },
    /// Tab activation: which tab became active in a window.
    Focus { id: i64, ts: i64, tab_id: i64, window_id: i64 },
    /// Window focus change; `window_id == -1` when the browser is blurred.
    Wfocus { id: i64, ts: i64, window_id: i64 },
    Start { id: i64, ts: i64 },
    /// An event kind this build does not recognize (forward compatibility);
    /// it carries no id or timestamp and is skipped.
    Unknown,
}

pub open spec fn spec_event_id(e: Event) -> Option<i64> {
    match e {
        Event::Nav { id, .. } => Some(id),
        Event::Link { id, .. } => Some(id),
        Event::Close { id, .. } => Some(id),
        Event::Focus { id, .. } => Some(id),
        Event::Wfocus { id, .. } => Some(id),
        Event::Start { id, .. } => Some(id),
        Event::Unknown => None,
    }
}

pub open spec fn spec_event_ts(e: Event) -> Option<i64> {
    match e {
        Event::Nav { ts, .. } => Some(ts),
        Event::Link { ts, .. } => Some(ts),
        Event::Close { ts, .. } => Some(ts),
        Event::Focus { ts, .. } => Some(ts),
        Event::Wfocus { ts, .. } => Some(ts),
        Event::Start { ts, .. } => Some(ts),
        Event::Unknown => None,
    }
}

impl Event {
    /// Global ordering key; `None` for an unrecognized kind.
    pub fn id(&self) -> (r: Option<i64>)
        ensures
            r == spec_event_id(*self),
    {
        match self {
            Event::Nav { id, .. } => Some(*id),
            Event::Link { id, .. } => Some(*id),
            Event::Close { id, .. } => Some(*id),
            Event::Focus { id, .. } => Some(*id),
            Event::Wfocus { id, .. } => Some(*id),
            Event::Start { id, .. } => Some(*id),
            Event::Unknown => None,
        }
    }

    /// Timestamp (epoch ms); `None` for an unrecognized kind.
    pub fn ts(&self) -> (r: Option<i64>)
        ensures
            r == spec_event_ts(*self),
    {
        match self {
            Event::Nav { ts, .. } => Some(*ts),
            Event::Link { ts, .. } => Some(*ts),
            Event::Close { ts, .. } => Some(*ts),
            Event::Focus { ts, .. } => Some(*ts),
            Event::Wfocus { ts, .. } => Some(*ts),
            Event::Start { ts, .. } => Some(*ts),
            Event::Unknown => None,
        }
    }
}

/// An equal copy of a list of strings.
pub fn copy_strings(v: &Vec<String>) -> (r: Vec<String>)
    ensures
        r@ == v@,
{
    let mut r: Vec<String> = Vec::new();
    let mut i: usize = 0;
    while i < v.len()
        invariant
            i <= v@.len(),
            r@ == v@.take(i as int),
        decreases v.len() - i,
    {
        r.push(v[i].clone());
        assert(v@.take(i + 1) =~= v@.take(i as int).push(v@[i as int]));
        i += 1;
    }
    assert(v@.take(v@.len() as int) =~= v@);
    r
}

/// Two events carry the same data (lists compared by their contents).
pub open spec fn same_event(a: Event, b: Event) -> bool {
    match (a, b) {
        (
            Event::Nav { id: i1, ts: t1, tab_id: b1, window_id: w1, to_url: u1, transition_type: k1, qualifiers: q1 },
            Event::Nav { id: i2, ts: t2, tab_id: b2, window_id: w2, to_url: u2, transition_type: k2, qualifiers: q2 },
        ) => i1 == i2 && t1 == t2 && b1 == b2 && w1 == w2 && u1 == u2 && k1 == k2 && q1@ == q2@,
        (Event::Nav { .. }, _) => false,
        (_, _) => a == b,
    }
}

/// An equal copy of an event.
pub fn copy_event(e: &Event) -> (r: Event)
    ensures
        same_event(r, *e),
{
    match e {
        Event::Nav { id, ts, tab_id, window_id, to_url, transition_type, qualifiers } => Event::Nav {
            id: *id,
            ts: *ts,
            tab_id: *tab_id,
            window_id: *window_id,
            to_url: to_url.clone(),
            transition_type: transition_type.clone(),
            qualifiers: copy_strings(qualifiers),
        },
        Event::Link { id, ts, new_tab_id, source_tab_id } => Event::Link {
            id: *id,
            ts: *ts,
            new_tab_id: *new_tab_id,
            source_tab_id: *source_tab_id,
        },
        Event::Close { id, ts, tab_id } => Event::Close { id: *id, ts: *ts, tab_id: *tab_id },
        Event::Focus { id, ts, tab_id, window_id } => Event::Focus {
            id: *id,
            ts: *ts,
            tab_id: *tab_id,
            window_id: *window_id,
        },
        Event::Wfocus { id, ts, window_id } => Event::Wfocus { id: *id, ts: *ts, window_id: *window_id },
        Event::Start { id, ts } => Event::Start { id: *id, ts: *ts },
        Event::Unknown => Event::Unknown,
    }
}

} // verus!
