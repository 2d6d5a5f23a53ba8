//! The tagged-element model: nodes (points) and ways (ordered polylines),
//! each carrying free-form key/value tags, plus the polygon classifier
//! that decides whether a way represents an area.

use std::sync::Arc;

use vstd::prelude::*;

verus! {

/// Compares two string slices by their character sequences.
pub fn str_eq(a: &str, b: &str) -> (r: bool)
    ensures
        r == (a@ == b@),
{
    let sa: String = a.to_owned();
    let sb: String = b.to_owned();
    sa == sb
}

/// First-match lookup of `key` in an association list of tags.
pub open spec fn spec_get_tag(tags: Seq<(Seq<char>, Seq<char>)>, key: Seq<char>) -> Option<
    Seq<char>,
>
    decreases tags.len(),
{
    if tags.len() == 0 {
        None
    } else if tags[0].0 == key {
        Some(tags[0].1)
    } else {
        spec_get_tag(tags.drop_first(), key)
    }
}

/// Clones a tag list; the clone's entries equal the original's.
pub(crate) fn clone_tags(tags: &Vec<(String, String)>) -> (r: Vec<(String, String)>)
    ensures
        r@ == tags@,
{
    let mut r: Vec<(String, String)> = Vec::new();
    for i in 0..tags.len()
        invariant
            r@ == tags@.take(i as int),
    {
        r.push((tags[i].0.clone(), tags[i].1.clone()));
        proof {
            assert(tags@.take(i as int).push(tags@[i as int]) =~= tags@.take(i as int + 1));
        }
    }
    proof {
        assert(tags@.take(tags@.len() as int) =~= tags@);
    }
    r
}

/// A geographic point with coordinates and tags.
///
/// Coordinates are stored as fixed-point integers in ten-millionths of a
/// degree (the native precision of the source data), so that edge weights
/// can be derived from them deterministically.
#[derive(Debug, PartialEq)]
pub struct Node {
    pub id: i64,
    /// Latitude in units of 1e-7 degree.
    pub lat: i64,
    /// Longitude in units of 1e-7 degree.
    pub lon: i64,
    pub tags: Vec<(String, String)>,
}

pub struct NodeView {
    pub id: i64,
    pub lat: i64,
    pub lon: i64,
    pub tags: Seq<(Seq<char>, Seq<char>)>,
}

impl View for Node {
    type V = NodeView;

    open spec fn view(&self) -> NodeView {
        NodeView {
            id: self.id,
            lat: self.lat,
            lon: self.lon,
            tags: self.tags@.map_values(|p: (String, String)| (p.0@, p.1@)),
        }
    }
}

impl Clone for Node {
    fn clone(&self) -> (res: Self)
        ensures
            res@ == self@,
    {
        Node { id: self.id, lat: self.lat, lon: self.lon, tags: clone_tags(&self.tags) }
    }
}

/// An ordered polyline of node references with tags. The node id sequence
/// may contain duplicates and ids that resolve to no known node; its order
/// is meaningful and is never reordered or deduplicated.
#[derive(Debug, PartialEq)]
pub struct Way {
    pub id: i64,
    pub tags: Vec<(String, String)>,
    pub nodes: Vec<i64>,
}

pub struct WayView {
    pub id: i64,
    pub tags: Seq<(Seq<char>, Seq<char>)>,
    pub nodes: Seq<i64>,
}

impl View for Way {
    type V = WayView;

    open spec fn view(&self) -> WayView {
        WayView {
            id: self.id,
            tags: self.tags@.map_values(|p: (String, String)| (p.0@, p.1@)),
            nodes: self.nodes@,
        }
    }
}

impl Clone for Way {
    fn clone(&self) -> (res: Self)
        ensures
            res@ == self@,
    {
        Way { id: self.id, tags: clone_tags(&self.tags), nodes: self.nodes.clone() }
    }
}

/// Map-level bounds, purely informational. Same fixed-point coordinate
/// representation as `Node`.
#[derive(Clone, Copy, Debug, PartialEq, Eq, Structural)]
pub struct Bounds {
    pub minlat: i64,
    pub minlon: i64,
    pub maxlat: i64,
    pub maxlon: i64,
}

/// The one invariant bounds carry: each minimum is at most its maximum.
pub open spec fn bounds_ok(b: Option<Bounds>) -> bool {
    match b {
        Some(b) => b.minlat <= b.maxlat && b.minlon <= b.maxlon,
        None => true,
    }
}

/// Looks `key` up in a tag list, returning the value of its first match.
pub(crate) fn tags_lookup<'a>(tags: &'a Vec<(String, String)>, key: &str) -> (r: Option<&'a str>)
    ensures
        (match spec_get_tag(tags@.map_values(|p: (String, String)| (p.0@, p.1@)), key@) {
            Some(v) => r matches Some(s) && s@ == v,
            None => r is None,
        }),
{
    let ghost tseq = tags@.map_values(|p: (String, String)| (p.0@, p.1@));
    proof {
        assert(tseq.skip(0) =~= tseq);
    }
    for i in 0..tags.len()
        invariant
            spec_get_tag(tseq, key@) == spec_get_tag(tseq.skip(i as int), key@),
            tseq == tags@.map_values(|p: (String, String)| (p.0@, p.1@)),
    {
        if str_eq(tags[i].0.as_str(), key) {
            assert(tseq.skip(i as int)[0] == (tags@[i as int].0@, tags@[i as int].1@));
            return Some(tags[i].1.as_str());
        }
        proof {
            assert(tseq.skip(i as int)[0] == (tags@[i as int].0@, tags@[i as int].1@));
            assert(tseq.skip(i as int).drop_first() =~= tseq.skip(i as int + 1));
        }
    }
    proof {
        assert(tseq.skip(tags@.len() as int) =~= Seq::<(Seq<char>, Seq<char>)>::empty());
    }
    None
}

/// How a rule of the area-tag table treats the values of its key.
///
/// `All`: presence of the key makes the way a polygon, whatever the value.
/// `Whitelist`: polygon iff the value is one of the listed ones (an empty
/// string entry is a sentinel and never matches).
/// `Blacklist`: polygon unless the value is one of the listed ones.
#[derive(Clone, Copy, Debug, PartialEq, Eq, Structural)]
pub enum RuleType {
    All,
    Blacklist,
    Whitelist,
}

/// One entry of the fixed area-tag rule table.
pub struct Rule {
    pub key: &'static str,
    pub polygon: RuleType,
    pub values: [&'static str; 6],
}

pub struct RuleView {
    pub key: Seq<char>,
    pub polygon: RuleType,
    pub values: Seq<Seq<char>>,
}

impl View for Rule {
    type V = RuleView;

    open spec fn view(&self) -> RuleView {
        RuleView {
            key: self.key@,
            polygon: self.polygon,
            values: self.values@.map_values(|v: &'static str| v@),
        }
    }
}

/// Six empty value slots, for rules whose mode ignores values.
pub open spec fn no_values() -> Seq<Seq<char>> {
    seq![""@, ""@, ""@, ""@, ""@, ""@]
}

/// The fixed area-tag rule table, mirroring the de-facto convention for
/// deciding which tagged ways enclose a region.
pub open spec fn spec_rules() -> Seq<RuleView> {
    seq![
        RuleView { key: "building"@, polygon: RuleType::All, values: no_values() },
        RuleView {
            key: "highway"@,
            polygon: RuleType::Whitelist,
            values: seq!["services"@, "rest_area"@, "escape"@, "elevator"@, ""@, ""@],
        },
        RuleView {
            key: "natural"@,
            polygon: RuleType::Blacklist,
            values: seq!["coastline"@, "cliff"@, "ridge"@, "arete"@, "tree_row"@, ""@],
        },
        RuleView { key: "landuse"@, polygon: RuleType::All, values: no_values() },
        RuleView {
            key: "waterway"@,
            polygon: RuleType::Whitelist,
            values: seq!["riverbank"@, "dock"@, "boatyard"@, "dam"@, ""@, ""@],
        },
        RuleView { key: "amenity"@, polygon: RuleType::All, values: no_values() },
        RuleView { key: "leisure"@, polygon: RuleType::All, values: no_values() },
        RuleView {
            key: "barrier"@,
            polygon: RuleType::Whitelist,
            values: seq![
                "city_wall"@,
                "ditch"@,
                "hedge"@,
                "retaining_wall"@,
                "wall"@,
                "spikes"@,
            ],
        },
        RuleView {
            key: "railway"@,
            polygon: RuleType::Whitelist,
            values: seq!["station"@, "turntable"@, "roundhouse"@, "platform"@, ""@, ""@],
        },
        RuleView { key: "area"@, polygon: RuleType::All, values: no_values() },
        RuleView { key: "boundary"@, polygon: RuleType::All, values: no_values() },
        RuleView {
            key: "man_made"@,
            polygon: RuleType::Blacklist,
            values: seq!["cutline"@, "embankment"@, "pipeline"@, ""@, ""@, ""@],
        },
        RuleView {
            key: "power"@,
            polygon: RuleType::Whitelist,
            values: seq!["plant"@, "substation"@, "generator"@, "transformer"@, ""@, ""@],
        },
        RuleView { key: "place"@, polygon: RuleType::All, values: no_values() },
        RuleView { key: "shop"@, polygon: RuleType::All, values: no_values() },
        RuleView {
            key: "aeroway"@,
            polygon: RuleType::Blacklist,
            values: seq!["taxiway"@, ""@, ""@, ""@, ""@, ""@],
        },
        RuleView { key: "tourism"@, polygon: RuleType::All, values: no_values() },
        RuleView { key: "historic"@, polygon: RuleType::All, values: no_values() },
        RuleView { key: "public_transport"@, polygon: RuleType::All, values: no_values() },
        RuleView { key: "office"@, polygon: RuleType::All, values: no_values() },
        RuleView { key: "building:part"@, polygon: RuleType::All, values: no_values() },
        RuleView { key: "military"@, polygon: RuleType::All, values: no_values() },
        RuleView { key: "ruins"@, polygon: RuleType::All, values: no_values() },
        RuleView { key: "area:highway"@, polygon: RuleType::All, values: no_values() },
        RuleView { key: "craft"@, polygon: RuleType::All, values: no_values() },
        RuleView { key: "golf"@, polygon: RuleType::All, values: no_values() },
    ]
}

/// Whether a tag value `tval` satisfies rule `r`'s mode.
pub open spec fn spec_rule_matches(r: RuleView, tval: Seq<char>) -> bool {
    match r.polygon {
        RuleType::All => true,
        RuleType::Whitelist => exists|i: int|
            0 <= i < r.values.len() && r.values[i].len() > 0 && r.values[i] == tval,
        RuleType::Blacklist => forall|i: int| 0 <= i < r.values.len() ==> r.values[i] != tval,
    }
}

impl Rule {
    /// Evaluates this rule's mode against a tag value.
    pub fn has_matching_value(&self, tval: &str) -> (r: bool)
        ensures
            r == spec_rule_matches(self@, tval@),
    {
        assert(self@.values.len() == 6);
        let p: RuleType = self.polygon;
        match p {
            RuleType::All => true,
            RuleType::Whitelist => {
                for i in 0..6
                    invariant
                        self.polygon == RuleType::Whitelist,
                        self@.values.len() == 6,
                        forall|j: int|
                            0 <= j < i ==> !(self@.values[j].len() > 0 && self@.values[j]
                                == tval@),
                {
                    if !self.values[i].is_empty() && str_eq(self.values[i], tval) {
                        assert(self@.values[i as int].len() > 0 && self@.values[i as int]
                            == tval@);
                        return true;
                    }
                }
                false
            },
            RuleType::Blacklist => {
                for i in 0..6
                    invariant
                        self.polygon == RuleType::Blacklist,
                        self@.values.len() == 6,
                        forall|j: int| 0 <= j < i ==> self@.values[j] != tval@,
                {
                    if str_eq(self.values[i], tval) {
                        assert(self@.values[i as int] == tval@);
                        return false;
                    }
                }
                true
            },
        }
    }
}

/// The rule table as runtime data; its entries are exactly `spec_rules()`.
pub fn polygon_rules() -> (r: Vec<Rule>)
    ensures
        r@.len() == spec_rules().len(),
        forall|i: int| 0 <= i < r@.len() ==> #[trigger] r@[i]@ == spec_rules()[i],
{
    let e: [&'static str; 6] = ["", "", "", "", "", ""];
    let r: Vec<Rule> = vec![
        Rule { key: "building", polygon: RuleType::All, values: e },
        Rule {
            key: "highway",
            polygon: RuleType::Whitelist,
            values: ["services", "rest_area", "escape", "elevator", "", ""],
        },
        Rule {
            key: "natural",
            polygon: RuleType::Blacklist,
            values: ["coastline", "cliff", "ridge", "arete", "tree_row", ""],
        },
        Rule { key: "landuse", polygon: RuleType::All, values: e },
        Rule {
            key: "waterway",
            polygon: RuleType::Whitelist,
            values: ["riverbank", "dock", "boatyard", "dam", "", ""],
        },
        Rule { key: "amenity", polygon: RuleType::All, values: e },
        Rule { key: "leisure", polygon: RuleType::All, values: e },
        Rule {
            key: "barrier",
            polygon: RuleType::Whitelist,
            values: ["city_wall", "ditch", "hedge", "retaining_wall", "wall", "spikes"],
        },
        Rule {
            key: "railway",
            polygon: RuleType::Whitelist,
            values: ["station", "turntable", "roundhouse", "platform", "", ""],
        },
        Rule { key: "area", polygon: RuleType::All, values: e },
        Rule { key: "boundary", polygon: RuleType::All, values: e },
        Rule {
            key: "man_made",
            polygon: RuleType::Blacklist,
            values: ["cutline", "embankment", "pipeline", "", "", ""],
        },
        Rule {
            key: "power",
            polygon: RuleType::Whitelist,
            values: ["plant", "substation", "generator", "transformer", "", ""],
        },
        Rule { key: "place", polygon: RuleType::All, values: e },
        Rule { key: "shop", polygon: RuleType::All, values: e },
        Rule {
            key: "aeroway",
            polygon: RuleType::Blacklist,
            values: ["taxiway", "", "", "", "", ""],
        },
        Rule { key: "tourism", polygon: RuleType::All, values: e },
        Rule { key: "historic", polygon: RuleType::All, values: e },
        Rule { key: "public_transport", polygon: RuleType::All, values: e },
        Rule { key: "office", polygon: RuleType::All, values: e },
        Rule { key: "building:part", polygon: RuleType::All, values: e },
        Rule { key: "military", polygon: RuleType::All, values: e },
        Rule { key: "ruins", polygon: RuleType::All, values: e },
        Rule { key: "area:highway", polygon: RuleType::All, values: e },
        Rule { key: "craft", polygon: RuleType::All, values: e },
        Rule { key: "golf", polygon: RuleType::All, values: e },
    ];
    proof {
        assert forall|i: int| 0 <= i < r@.len() implies #[trigger] r@[i]@ == spec_rules()[i] by {
            assert(r@[i]@.values =~= spec_rules()[i].values);
        }
    }
    r
}

/// A way's node sequence forms a closed ring: non-empty, first id equal
/// to last id.
pub open spec fn closed_ring(nodes: Seq<i64>) -> bool {
    nodes.len() > 0 && nodes[0] == nodes[nodes.len() - 1]
}

/// Whether rule `r` fires on a tag list: its key must be present and the
/// value must satisfy the rule's mode.
pub open spec fn rule_applies(r: RuleView, tags: Seq<(Seq<char>, Seq<char>)>) -> bool {
    match spec_get_tag(tags, r.key) {
        Some(v) => spec_rule_matches(r, v),
        None => false,
    }
}

/// A way represents an area iff its node sequence is a closed ring, or
/// some rule of the fixed table fires on its tags.
pub open spec fn spec_way_is_polygon(w: WayView) -> bool {
    closed_ring(w.nodes) || exists|i: int|
        0 <= i < spec_rules().len() && #[trigger] rule_applies(spec_rules()[i], w.tags)
}

impl Way {
    /// A copy of the way's node id sequence, in order.
    pub fn nodes(&self) -> (r: Vec<i64>)
        ensures
            r@ == self@.nodes,
    {
        let mut r: Vec<i64> = Vec::new();
        for i in 0..self.nodes.len()
            invariant
                r@ == self.nodes@.take(i as int),
        {
            r.push(self.nodes[i]);
            proof {
                assert(self.nodes@.take(i as int).push(self.nodes@[i as int]) =~= self.nodes@.take(
                    i as int + 1,
                ));
            }
        }
        proof {
            assert(self.nodes@.take(self.nodes@.len() as int) =~= self.nodes@);
        }
        r
    }

    /// Decides whether this way represents an area (polygon): a closed
    /// node ring short-circuits; otherwise the fixed rule table decides.
    pub fn is_polygon(&self) -> (r: bool)
        ensures
            r == spec_way_is_polygon(self@),
    {
        if self.nodes.len() > 0 && self.nodes[0] == self.nodes[self.nodes.len() - 1] {
            return true;
        }
        let rules = polygon_rules();
        for i in 0..rules.len()
            invariant
                rules@.len() == spec_rules().len(),
                forall|j: int| 0 <= j < rules@.len() ==> #[trigger] rules@[j]@ == spec_rules()[j],
                forall|j: int| 0 <= j < i ==> !rule_applies(#[trigger] spec_rules()[j], self@.tags),
        {
            let rule = &rules[i];
            assert(rule@ == spec_rules()[i as int]);
            match tags_lookup(&self.tags, rule.key) {
                Some(tv) => {
                    assert(spec_get_tag(self@.tags, rule@.key) == Some(tv@));
                    if rule.has_matching_value(tv) {
                        assert(rule_applies(spec_rules()[i as int], self@.tags));
                        return true;
                    }
                    assert(!rule_applies(spec_rules()[i as int], self@.tags));
                },
                None => {
                    assert(!rule_applies(spec_rules()[i as int], self@.tags));
                },
            }
        }
        false
    }
}

/// The in-memory map: shared, read-only collections of nodes and ways,
/// handed out to query builders, plus optional bounds.
///
/// The collections are reference-counted; every builder chain derived
/// from this map shares them without copying.
pub struct OsmMap {
    pub(crate) nodes: Arc<crate::queries::Snapshot<Node>>,
    pub(crate) ways: Arc<crate::queries::Snapshot<Way>>,
    pub(crate) bounds: Option<Bounds>,
}

impl OsmMap {
    /// The node values this map holds, in storage order.
    pub open(crate) spec fn spec_nodes(&self) -> Seq<NodeView> {
        (*self.nodes).spec_items()
    }

    /// The way values this map holds, in storage order.
    pub open(crate) spec fn spec_ways(&self) -> Seq<WayView> {
        (*self.ways).spec_items()
    }

    pub open(crate) spec fn spec_bounds(&self) -> Option<Bounds> {
        self.bounds
    }

    pub open(crate) spec fn wf(&self) -> bool {
        (*self.nodes).wf() && (*self.ways).wf() && bounds_ok(self.bounds)
    }

    /// Builds a map from parsed collections. Elements sharing an id are
    /// deduplicated, the later one winning; with all ids distinct the
    /// collections are stored as given. Bounds, when present, must be
    /// ordered: each minimum at most its maximum.
    pub fn new(nodes: Vec<Node>, ways: Vec<Way>, bounds: Option<Bounds>) -> (r: OsmMap)
        requires
            bounds_ok(bounds),
        ensures
            r.wf(),
            r.spec_bounds() == bounds,
            crate::queries::unique_ids::<Node>(crate::queries::views_of(nodes@))
                ==> r.spec_nodes() == crate::queries::views_of(nodes@),
            crate::queries::unique_ids::<Way>(crate::queries::views_of(ways@)) ==> r.spec_ways()
                == crate::queries::views_of(ways@),
            forall|i: int|
                0 <= i < r.spec_nodes().len() ==> crate::queries::views_of(nodes@).contains(
                    #[trigger] r.spec_nodes()[i],
                ),
            forall|i: int|
                0 <= i < r.spec_ways().len() ==> crate::queries::views_of(ways@).contains(
                    #[trigger] r.spec_ways()[i],
                ),
            forall|j: int|
                0 <= j < nodes@.len() ==> crate::queries::find_by_id::<Node>(
                    r.spec_nodes(),
                    (#[trigger] crate::queries::views_of(nodes@)[j]).id,
                ) is Some,
            forall|j: int|
                0 <= j < ways@.len() ==> crate::queries::find_by_id::<Way>(
                    r.spec_ways(),
                    (#[trigger] crate::queries::views_of(ways@)[j]).id,
                ) is Some,
    {
        OsmMap {
            nodes: Arc::new(crate::queries::Snapshot::from_items(nodes)),
            ways: Arc::new(crate::queries::Snapshot::from_items(ways)),
            bounds,
        }
    }

    /// A query builder over the way collection, with no filters yet.
    pub fn ways(&self) -> (r: crate::queries::Builder<Way>)
        requires
            self.wf(),
        ensures
            r.wf(),
            r.spec_conditions() == Seq::<crate::queries::FilterQueryView>::empty(),
            r.spec_items() == self.spec_ways(),
    {
        crate::queries::Builder::from_shared(&self.ways)
    }

    /// A query builder over the node collection, with no filters yet.
    pub fn nodes(&self) -> (r: crate::queries::Builder<Node>)
        requires
            self.wf(),
        ensures
            r.wf(),
            r.spec_conditions() == Seq::<crate::queries::FilterQueryView>::empty(),
            r.spec_items() == self.spec_nodes(),
    {
        crate::queries::Builder::from_shared(&self.nodes)
    }

    /// The map-level bounds, if the source data carried any.
    pub fn bounds(&self) -> (r: Option<Bounds>)
        ensures
            r == self.spec_bounds(),
    {
        self.bounds
    }
}

impl Clone for OsmMap {
    fn clone(&self) -> (res: Self)
        ensures
            res == *self,
    {
        OsmMap {
            nodes: crate::queries::arc_clone(&self.nodes),
            ways: crate::queries::arc_clone(&self.ways),
            bounds: self.bounds,
        }
    }
}

} // verus!
