//! The static dependence graph with adjacency lists in both directions.

use std::rc::Rc;

use vstd::prelude::*;

use crate::lists::{filter_keeps, filter_origin};
use crate::pdg_spec::{PDGSpecEdge, PDGSpecNode};

verus! {

/// A statement with its edges.
#[derive(Debug)]
pub struct PDGNode {
    pub inner: Rc<PDGSpecNode>,
    /// Edges from the statements that this one provides data or control to.
    pub provides: Vec<Rc<PDGSpecEdge>>,
    /// Edges to the statements that this one depends on.
    pub dependencies: Vec<Rc<PDGSpecEdge>>,
}

/// The edges behind a list of shared references.
pub open spec fn edge_values(list: Seq<Rc<PDGSpecEdge>>) -> Seq<PDGSpecEdge> {
    Seq::new(list.len(), |i: int| *list[i])
}

/// The edges that leave a statement, in the order of the graph.
pub open spec fn edges_from(edges: Seq<PDGSpecEdge>, node: int) -> Seq<PDGSpecEdge> {
    edges.filter(|e: PDGSpecEdge| e.from == node)
}

/// The edges that end in a statement, in the order of the graph.
pub open spec fn edges_to(edges: Seq<PDGSpecEdge>, node: int) -> Seq<PDGSpecEdge> {
    edges.filter(|e: PDGSpecEdge| e.to == node)
}

/// Whether no edge joins a statement of the graph with one that does not exist.
pub open spec fn edges_join(edges: Seq<PDGSpecEdge>, nodes: nat) -> bool {
    forall|i: int|
        0 <= i < edges.len() ==> ((#[trigger] edges[i]).from < nodes <==> edges[i].to < nodes)
}

/// Whether `linked` holds the statements of a graph, each with exactly its own edges.
pub open spec fn is_linked(
    linked: Seq<PDGNode>,
    vertices: Seq<PDGSpecNode>,
    edges: Seq<PDGSpecEdge>,
) -> bool {
    &&& linked.len() == vertices.len()
    &&& forall|i: int|
        0 <= i < linked.len() ==> {
            &&& *(#[trigger] linked[i]).inner == vertices[i]
            &&& edge_values(linked[i].dependencies@) == edges_from(edges, i)
            &&& edge_values(linked[i].provides@) == edges_to(edges, i)
        }
}

/// Wraps the statements of a graph, without edges yet.
fn wrap_nodes(vertices: Vec<PDGSpecNode>) -> (r: Vec<PDGNode>)
    ensures
        is_linked(r@, vertices@, Seq::empty()),
{
    let ghost all = vertices@;
    let mut linked: Vec<PDGNode> = Vec::new();
    for vertex in it: vertices
        invariant
            it.seq() == all,
            linked.len() == it.index(),
            forall|i: int|
                0 <= i < linked.len() ==> *(#[trigger] linked@[i]).inner == all[i]
                    && linked@[i].dependencies@.len() == 0 && linked@[i].provides@.len() == 0,
    {
        linked.push(
            PDGNode { inner: Rc::new(vertex), provides: Vec::new(), dependencies: Vec::new() },
        );
    }
    assert forall|i: int| 0 <= i < linked.len() implies {
        &&& *(#[trigger] linked@[i]).inner == all[i]
        &&& edge_values(linked@[i].dependencies@) == edges_from(Seq::empty(), i)
        &&& edge_values(linked@[i].provides@) == edges_to(Seq::empty(), i)
    } by {
        reveal(Seq::filter);
        assert(edge_values(linked@[i].dependencies@) =~= Seq::empty());
        assert(edge_values(linked@[i].provides@) =~= Seq::empty());
    }
    linked
}

/// Adding an edge at the end of a graph.
pub proof fn edges_after_push(edges: Seq<PDGSpecEdge>, e: PDGSpecEdge, node: int)
    ensures
        edges_from(edges.push(e), node) == (if e.from == node {
            edges_from(edges, node).push(e)
        } else {
            edges_from(edges, node)
        }),
        edges_to(edges.push(e), node) == (if e.to == node {
            edges_to(edges, node).push(e)
        } else {
            edges_to(edges, node)
        }),
{
    reveal(Seq::filter);
    assert(edges.push(e).drop_last() =~= edges);
}

/// Creates the adjacency lists of a graph.
pub fn link(vertices: Vec<PDGSpecNode>, edges: Vec<PDGSpecEdge>) -> (r: Vec<PDGNode>)
    requires
        vertices@.len() <= 0x1_0000_0000,
        edges_join(edges@, vertices@.len()),
    ensures
        is_linked(r@, vertices@, edges@),
{
    let ghost all = edges@;
    let ghost statements = vertices@;
    let mut linked: Vec<PDGNode> = wrap_nodes(vertices);
    assert(all.take(0) =~= Seq::empty());
    for edge in it: edges
        invariant
            it.seq() == all,
            edges_join(all, statements.len()),
            is_linked(linked@, statements, all.take(it.index())),
    {
        let ghost k = it.index();
        let ghost before = linked@;
        let ghost e = edge;
        assert(e == all[k]);
        let from: usize = edge.from as usize;
        let to: usize = edge.to as usize;
        let edge: Rc<PDGSpecEdge> = Rc::new(edge);
        if from < linked.len() {
            linked[from].dependencies.push(edge.clone());
            linked[to].provides.push(edge);
        }
        proof {
            assert(all.take(k + 1) =~= all.take(k).push(e));
            assert forall|i: int| 0 <= i < linked.len() implies {
                &&& *(#[trigger] linked@[i]).inner == statements[i]
                &&& edge_values(linked@[i].dependencies@) == edges_from(all.take(k + 1), i)
                &&& edge_values(linked@[i].provides@) == edges_to(all.take(k + 1), i)
            } by {
                edges_after_push(all.take(k), e, i);
                assert(*before[i].inner == statements[i]);
                assert(edge_values(linked@[i].dependencies@) =~= edges_from(all.take(k + 1), i));
                assert(edge_values(linked@[i].provides@) =~= edges_to(all.take(k + 1), i));
            }
        }
    }
    assert(all.take(all.len() as int) =~= all);
    linked
}

/// The two directions agree: an edge is among those that leave a statement for another exactly
/// where it is among those that reach the other from the one.
pub proof fn both_directions_agree(
    linked: Seq<PDGNode>,
    vertices: Seq<PDGSpecNode>,
    edges: Seq<PDGSpecEdge>,
    i: int,
    j: int,
    e: PDGSpecEdge,
)
    requires
        is_linked(linked, vertices, edges),
        0 <= i < linked.len(),
        0 <= j < linked.len(),
    ensures
        (edge_values(linked[i].dependencies@).contains(e) && e.to == j) <==> (edge_values(
            linked[j].provides@,
        ).contains(e) && e.from == i),
        (edge_values(linked[i].dependencies@).contains(e) && e.to == j) <==> (edges.contains(e)
            && e.from == i && e.to == j),
{
    let leaves = |x: PDGSpecEdge| x.from == i;
    let enters = |x: PDGSpecEdge| x.to == j;
    filter_origin(edges, leaves);
    filter_origin(edges, enters);
    assert(*linked[i].inner == vertices[i]);
    assert(*linked[j].inner == vertices[j]);
    let out = edges.filter(leaves);
    let back = edges.filter(enters);
    assert(edge_values(linked[i].dependencies@) == out);
    assert(edge_values(linked[j].provides@) == back);
    if out.contains(e) {
        let k = choose|k: int| 0 <= k < out.len() && out[k] == e;
        assert(leaves(out[k]) && edges.contains(out[k]));
    }
    if back.contains(e) {
        let k = choose|k: int| 0 <= k < back.len() && back[k] == e;
        assert(enters(back[k]) && edges.contains(back[k]));
    }
    if edges.contains(e) && e.from == i && e.to == j {
        filter_keeps(edges, leaves, e);
        filter_keeps(edges, enters, e);
    }
}

} // verus!
