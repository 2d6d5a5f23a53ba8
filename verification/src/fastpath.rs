//! The trusted boundary around the external shortest-path primitive
//! (the `fast_paths` crate): a weighted directed edge list is prepared
//! once into a query-optimized graph, which then answers shortest-path
//! queries between internal node indices.
//!
//! The primitive is deterministic: preparation and path queries depend
//! only on the frozen edge list and node count handed to them, so their
//! results are named as functions of those.

use vstd::prelude::*;

verus! {

#[verifier::external_type_specification]
#[verifier::external_body]
pub struct ExInputGraph(fast_paths::InputGraph);

#[verifier::external_type_specification]
#[verifier::external_body]
pub struct ExFastGraph(fast_paths::FastGraph);

/// The directed weighted edges `(from, to, weight)` an input graph holds,
/// in insertion order.
pub uninterp spec fn ig_edges(g: fast_paths::InputGraph) -> Seq<(usize, usize, usize)>;

/// The node count an input graph was grown to: one past the largest
/// node index of any accepted edge.
pub uninterp spec fn ig_num_nodes(g: fast_paths::InputGraph) -> usize;

/// Whether the input graph has been frozen.
pub uninterp spec fn ig_frozen(g: fast_paths::InputGraph) -> bool;

/// The edges a prepared graph answers queries over.
pub uninterp spec fn fg_edges(g: fast_paths::FastGraph) -> Seq<(usize, usize, usize)>;

/// The node count of a prepared graph.
pub uninterp spec fn fg_num_nodes(g: fast_paths::FastGraph) -> usize;

/// What freezing makes of an edge list (it sorts, then drops all but the
/// lightest of parallel edges); a function of the list alone.
pub uninterp spec fn frozen_form(edges: Seq<(usize, usize, usize)>) -> Seq<
    (usize, usize, usize),
>;

/// The node sequence of a shortest path from `a` to `b` over a frozen
/// edge list with the given node count, or nothing when unreachable.
/// A function of its arguments alone: the primitive's preparation and
/// query are deterministic in them.
pub uninterp spec fn path_query(
    edges: Seq<(usize, usize, usize)>,
    num_nodes: usize,
    a: usize,
    b: usize,
) -> Option<Seq<usize>>;

/// Relies on `fast_paths::InputGraph::new`: a fresh graph is empty,
/// unfrozen, with no nodes.
#[verifier::external_body]
pub(crate) fn new_input_graph() -> (r: fast_paths::InputGraph)
    ensures
        ig_edges(r) == Seq::<(usize, usize, usize)>::empty(),
        ig_num_nodes(r) == 0,
        !ig_frozen(r),
{
    fast_paths::InputGraph::new()
}

/// Relies on `fast_paths::InputGraph::add_edge_bidir`: it panics on a
/// frozen graph; it skips self-loops and zero weights entirely; otherwise
/// it appends the edge in both directions and grows the node count to
/// cover both endpoints.
#[verifier::external_body]
pub(crate) fn add_edge_bidir(g: &mut fast_paths::InputGraph, a: usize, b: usize, w: usize)
    requires
        !ig_frozen(*old(g)),
        a < usize::MAX,
        b < usize::MAX,
    ensures
        !ig_frozen(*final(g)),
        (if a == b || w == 0 {
            ig_edges(*final(g)) == ig_edges(*old(g)) && ig_num_nodes(*final(g)) == ig_num_nodes(
                *old(g),
            )
        } else {
            ig_edges(*final(g)) == ig_edges(*old(g)).push((a, b, w)).push((b, a, w))
                && ig_num_nodes(*final(g)) == (if ig_num_nodes(*old(g)) > (if a > b {
                a
            } else {
                b
            }) + 1 {
                ig_num_nodes(*old(g))
            } else {
                ((if a > b {
                    a
                } else {
                    b
                }) + 1) as usize
            })
        }),
{
    g.add_edge_bidir(a, b, w);
}

/// Relies on `fast_paths::InputGraph::freeze`: it panics on a frozen
/// graph; otherwise it sorts the edges and drops duplicates, leaving
/// a form determined by the edge list alone, and marks the graph frozen.
#[verifier::external_body]
pub(crate) fn freeze(g: &mut fast_paths::InputGraph)
    requires
        !ig_frozen(*old(g)),
    ensures
        ig_frozen(*final(g)),
        ig_edges(*final(g)) == frozen_form(ig_edges(*old(g))),
        ig_num_nodes(*final(g)) == ig_num_nodes(*old(g)),
{
    g.freeze();
}

/// Relies on `fast_paths::prepare`: it reads the edges (panicking on an
/// unfrozen graph, which the precondition rules out) and the node
/// count, and its preprocessing is determined by them.
#[verifier::external_body]
pub(crate) fn prepare(g: &fast_paths::InputGraph) -> (r: fast_paths::FastGraph)
    requires
        ig_frozen(*g),
    ensures
        fg_edges(r) == ig_edges(*g),
        fg_num_nodes(r) == ig_num_nodes(*g),
{
    fast_paths::prepare(g)
}

/// Relies on `fast_paths::calc_path`: it panics when an endpoint is not
/// below the graph's node count; otherwise it returns the shortest path's
/// node sequence, or nothing when the target is unreachable. Every node
/// of a returned path is a node of the graph.
#[verifier::external_body]
pub(crate) fn calc_path_nodes(g: &fast_paths::FastGraph, a: usize, b: usize) -> (r: Option<
    Vec<usize>,
>)
    requires
        a < fg_num_nodes(*g),
        b < fg_num_nodes(*g),
    ensures
        (match r {
            Some(v) => path_query(fg_edges(*g), fg_num_nodes(*g), a, b) == Some(v@) && forall|
                i: int,
            |
                0 <= i < v@.len() ==> #[trigger] v@[i] < fg_num_nodes(*g),
            None => path_query(fg_edges(*g), fg_num_nodes(*g), a, b) is None,
        }),
{
    match fast_paths::calc_path(g, a, b) {
        Some(p) => Some(p.get_nodes().clone()),
        None => None,
    }
}

} // verus!
