//! The graph that is shown when some groups are collapsed.

use std::collections::HashMap;

use vstd::prelude::*;

use crate::groups::{
    get_highest_hier_node, group_models, highest_collapsed, parents_first, GroupModel,
};
use crate::hierarchy::NodeHierarchy;
use crate::index::{add_place, is_index, places, places_hold_the_key};
use crate::pdg_spec::{
    node_models, ExportableNodeModel, ExportablePDG, ExportablePDGEdge, ExportablePDGNode,
};

verus! {

broadcast use vstd::std_specs::hash::group_hash_axioms;

/// A graph in which collapsed groups stand for their nodes.
pub struct HierarchicalGraph {
    pub dpdg: ExportablePDG,
    /// For each node that stands for a group, the group of the node that it was shown for first.
    pub group_ids: HashMap<usize, usize>,
    /// For each node the number by which it is known to the outside.
    pub original_ids: Vec<usize>,
    /// The nodes of each point in time.
    pub time_to_nodes: HashMap<i64, Vec<usize>>,
    /// The edges that leave each node.
    pub dep_to_edges: HashMap<u32, Vec<usize>>,
    /// The edges that enter each node.
    pub prov_to_edges: HashMap<u32, Vec<usize>>,
}

/// Content of a [`HierarchicalGraph`], its tables aside.
#[verifier::ext_equal]
pub struct HierModel {
    pub vertices: Seq<ExportableNodeModel>,
    pub edges: Seq<ExportablePDGEdge>,
    pub group_ids: Map<usize, usize>,
    pub original_ids: Seq<usize>,
}

impl View for HierarchicalGraph {
    type V = HierModel;

    open spec fn view(&self) -> HierModel {
        HierModel {
            vertices: node_models(self.dpdg.vertices@),
            edges: self.dpdg.edges@,
            group_ids: self.group_ids@,
            original_ids: self.original_ids@,
        }
    }
}

/// The points in time of nodes.
pub open spec fn times_of(nodes: Seq<ExportableNodeModel>) -> Seq<i64> {
    Seq::new(nodes.len(), |i: int| nodes[i].timestamp)
}

/// The nodes that edges leave.
pub open spec fn sources_of(edges: Seq<ExportablePDGEdge>) -> Seq<u32> {
    Seq::new(edges.len(), |i: int| edges[i].from)
}

/// The nodes that edges enter.
pub open spec fn targets_of(edges: Seq<ExportablePDGEdge>) -> Seq<u32> {
    Seq::new(edges.len(), |i: int| edges[i].to)
}

/// What a node of the full graph is shown as.
#[verifier::ext_equal]
pub struct Shown {
    pub node: ExportableNodeModel,
    pub id: usize,
    pub group: Option<usize>,
}

/// A node is shown as the outermost collapsed group around it, or as itself where all the groups
/// around it are expanded.
pub open spec fn shown(
    groups: Seq<GroupModel>,
    lookup: Map<usize, usize>,
    nodes: Seq<ExportableNodeModel>,
    v: u32,
) -> Shown {
    let own = lookup[v as usize];
    match highest_collapsed(groups, own as int) {
        Some(g) => Shown {
            node: groups[g].pdg_node,
            id: groups[own as int].group_id,
            group: Some(own),
        },
        None => Shown { node: nodes[v as int], id: v as usize, group: None },
    }
}

/// The graph with one more node, unless it has the node already.
pub open spec fn with_node(graph: HierModel, shown: Shown) -> HierModel {
    if graph.vertices.contains(shown.node) {
        graph
    } else {
        HierModel {
            vertices: graph.vertices.push(shown.node),
            original_ids: graph.original_ids.push(shown.id),
            group_ids: match shown.group {
                Some(group) => graph.group_ids.insert(graph.vertices.len() as usize, group),
                None => graph.group_ids,
            },
            ..graph
        }
    }
}

/// The graph with an edge between two of its nodes, unless it has the edge already or the two are
/// the same node.
pub open spec fn with_edge(
    graph: HierModel,
    from: ExportableNodeModel,
    to: ExportableNodeModel,
    edge: ExportablePDGEdge,
) -> HierModel {
    let moved = ExportablePDGEdge {
        from: graph.vertices.index_of(from) as u32,
        to: graph.vertices.index_of(to) as u32,
        ..edge
    };
    if from == to || graph.edges.contains(moved) {
        graph
    } else {
        HierModel { edges: graph.edges.push(moved), ..graph }
    }
}

/// The graph with an edge of the full graph between what its ends are shown as.
pub open spec fn with_shown_edge(
    graph: HierModel,
    groups: Seq<GroupModel>,
    lookup: Map<usize, usize>,
    nodes: Seq<ExportableNodeModel>,
    edge: ExportablePDGEdge,
) -> HierModel {
    let from = shown(groups, lookup, nodes, edge.from);
    let to = shown(groups, lookup, nodes, edge.to);
    with_edge(with_node(with_node(graph, from), to), from.node, to.node, edge)
}

/// The graph that is shown for the edges of the full graph.
pub open spec fn regrouped(
    groups: Seq<GroupModel>,
    lookup: Map<usize, usize>,
    nodes: Seq<ExportableNodeModel>,
    edges: Seq<ExportablePDGEdge>,
) -> HierModel
    decreases edges.len(),
{
    if edges.len() == 0 {
        HierModel {
            vertices: Seq::empty(),
            edges: Seq::empty(),
            group_ids: Map::empty(),
            original_ids: Seq::empty(),
        }
    } else {
        with_shown_edge(
            regrouped(groups, lookup, nodes, edges.drop_last()),
            groups,
            lookup,
            nodes,
            edges.last(),
        )
    }
}

impl NodeHierarchy {
    /// Every group comes after the group it lies in, and the table points to groups.
    pub open spec fn wf(self) -> bool {
        &&& parents_first(group_models(self.groups@))
        &&& forall|v: usize| #[trigger]
            self.lookup@.contains_key(v) ==> self.lookup@[v] < self.groups@.len()
    }

    /// Whether a node can be shown.
    pub open spec fn covers(self, node_count: nat, v: u32) -> bool {
        v < node_count && v as usize as int == v && self.lookup@.contains_key(v as usize)
    }

    /// Whether the ends of all edges can be shown.
    pub open spec fn covers_edges(
        self,
        node_count: nat,
        edges: Seq<ExportablePDGEdge>,
    ) -> bool {
        forall|i: int|
            0 <= i < edges.len() ==> self.covers(node_count, (#[trigger] edges[i]).from)
                && self.covers(node_count, edges[i].to)
    }
}

impl HierarchicalGraph {
    /// The tables list the nodes and edges of the graph, and no node occurs twice.
    pub open spec fn wf(self) -> bool {
        &&& is_index(self.time_to_nodes@, times_of(self@.vertices))
        &&& is_index(self.dep_to_edges@, sources_of(self@.edges))
        &&& is_index(self.prov_to_edges@, targets_of(self@.edges))
        &&& self@.vertices.no_duplicates()
    }

    /// Makes a graph without nodes.
    fn new() -> (r: HierarchicalGraph)
        ensures
            r.wf(),
            r@ == (HierModel {
                vertices: Seq::empty(),
                edges: Seq::empty(),
                group_ids: Map::empty(),
                original_ids: Seq::empty(),
            }),
    {
        let graph = HierarchicalGraph {
            dpdg: ExportablePDG { vertices: Vec::new(), edges: Vec::new() },
            group_ids: HashMap::new(),
            original_ids: Vec::new(),
            time_to_nodes: HashMap::new(),
            dep_to_edges: HashMap::new(),
            prov_to_edges: HashMap::new(),
        };
        graph
    }

    /// Finds a node with a given content.
    fn find_node(&self, node: &ExportablePDGNode) -> (r: Option<usize>)
        requires
            self.wf(),
        ensures
            match r {
                Some(i) => i < self@.vertices.len() && self@.vertices[i as int] == node@
                    && self@.vertices.index_of(node@) == i,
                None => !self@.vertices.contains(node@),
            },
    {
        let ghost all = self@.vertices;
        let ghost times = times_of(all);
        proof {
            assert(all.len() == self.dpdg.vertices.len());
            places_hold_the_key(times, node.timestamp);
        }
        match self.time_to_nodes.get(&node.timestamp) {
            None => {
                assert forall|i: int| 0 <= i < all.len() implies all[i] != node@ by {
                    if all[i] == node@ {
                        assert(times[i] == node.timestamp);
                        assert(self.time_to_nodes@.contains_key(node.timestamp));
                    }
                }
                None
            },
            Some(list) => {
                let ghost at = places(times, node.timestamp);
                let mut k: usize = 0;
                while k < list.len()
                    invariant
                        k <= list.len(),
                        list@ == at,
                        all == self@.vertices,
                        all.no_duplicates(),
                        times == times_of(all),
                        all.len() <= usize::MAX,
                        forall|i: int|
                            0 <= i < times.len() && #[trigger] times[i] == node.timestamp
                                ==> at.contains(i as usize),
                        forall|j: int| 0 <= j < at.len() ==> (#[trigger] at[j]) < times.len(),
                        forall|j: int| 0 <= j < k ==> all[(#[trigger] at[j]) as int] != node@,
                    decreases list.len() - k,
                {
                    let place: usize = list[k];
                    assert(at[k as int] < times.len());
                    assert(all[place as int] == self.dpdg.vertices@[place as int]@);
                    if self.dpdg.vertices[place].same_content(node) {
                        return Some(place);
                    }
                    k = k + 1;
                }
                proof {
                    assert forall|i: int| 0 <= i < all.len() implies all[i] != node@ by {
                        if all[i] == node@ {
                            assert(times[i] == node.timestamp);
                            assert(at.contains(i as usize));
                            let j = choose|j: int| 0 <= j < at.len() && at[j] == i as usize;
                            assert(all[at[j] as int] != node@);
                        }
                    }
                }
                None
            },
        }
    }

    /// Adds a node unless there is one with the same content, and returns its place.
    fn intern(&mut self, node: ExportablePDGNode, id: usize, group: Option<usize>) -> (r: usize)
        requires
            old(self).wf(),
        ensures
            final(self).wf(),
            final(self)@ == with_node(old(self)@, Shown { node: node@, id, group }),
            r < final(self)@.vertices.len(),
            final(self)@.vertices[r as int] == node@,
            final(self)@.vertices.index_of(node@) == r,
    {
        let ghost before = self@;
        match self.find_node(&node) {
            Some(place) => place,
            None => {
                let place: usize = self.dpdg.vertices.len();
                let ghost times = times_of(before.vertices);
                let ghost content = node@;
                add_place(&mut self.time_to_nodes, node.timestamp, place, Ghost(times));
                self.dpdg.vertices.push(node);
                self.original_ids.push(id);
                match group {
                    Some(own) => {
                        self.group_ids.insert(place, own);
                    },
                    None => {},
                }
                proof {
                    assert(self@.vertices =~= before.vertices.push(content));
                    assert(times_of(self@.vertices) =~= times.push(content.timestamp));
                    assert(self@.vertices.no_duplicates());
                    assert(self@.vertices[place as int] == content);
                    assert(self@.vertices.contains(content));
                }
                place
            },
        }
    }

    /// Tells whether there is an edge.
    fn has_edge(&self, edge: &ExportablePDGEdge) -> (r: bool)
        requires
            self.wf(),
        ensures
            r == self@.edges.contains(*edge),
    {
        let ghost all = self@.edges;
        let ghost sources = sources_of(all);
        proof {
            assert(all.len() == self.dpdg.edges.len());
            places_hold_the_key(sources, edge.from);
        }
        match self.dep_to_edges.get(&edge.from) {
            None => {
                assert forall|i: int| 0 <= i < all.len() implies all[i] != *edge by {
                    if all[i] == *edge {
                        assert(sources[i] == edge.from);
                        assert(self.dep_to_edges@.contains_key(edge.from));
                    }
                }
                false
            },
            Some(list) => {
                let ghost at = places(sources, edge.from);
                let mut k: usize = 0;
                while k < list.len()
                    invariant
                        k <= list.len(),
                        list@ == at,
                        all == self@.edges,
                        sources == sources_of(all),
                        all.len() <= usize::MAX,
                        forall|i: int|
                            0 <= i < sources.len() && #[trigger] sources[i] == edge.from
                                ==> at.contains(i as usize),
                        forall|j: int| 0 <= j < at.len() ==> (#[trigger] at[j]) < sources.len(),
                        forall|j: int| 0 <= j < k ==> all[(#[trigger] at[j]) as int] != *edge,
                    decreases list.len() - k,
                {
                    let place: usize = list[k];
                    assert(at[k as int] < sources.len());
                    if self.dpdg.edges[place] == *edge {
                        assert(all[place as int] == *edge);
                        return true;
                    }
                    k = k + 1;
                }
                proof {
                    assert forall|i: int| 0 <= i < all.len() implies all[i] != *edge by {
                        if all[i] == *edge {
                            assert(sources[i] == edge.from);
                            assert(at.contains(i as usize));
                            let j = choose|j: int| 0 <= j < at.len() && at[j] == i as usize;
                            assert(all[at[j] as int] != *edge);
                        }
                    }
                }
                false
            },
        }
    }

    /// Adds an edge between two places, unless it is there already or they are the same place.
    fn join(&mut self, from: usize, to: usize, edge: &ExportablePDGEdge)
        requires
            old(self).wf(),
            from < old(self)@.vertices.len(),
            to < old(self)@.vertices.len(),
        ensures
            final(self).wf(),
            final(self)@ == with_edge(
                old(self)@,
                old(self)@.vertices[from as int],
                old(self)@.vertices[to as int],
                *edge,
            ),
    {
        let ghost before = self@;
        proof {
            let a = before.vertices[from as int];
            let b = before.vertices[to as int];
            assert(before.vertices.contains(a));
            assert(before.vertices.contains(b));
            assert(before.vertices.index_of(a) == from);
            assert(before.vertices.index_of(b) == to);
        }
        if from == to {
            return ;
        }
        let moved = ExportablePDGEdge {
            from: from as u32,
            to: to as u32,
            kind: edge.kind,
            clocked: edge.clocked,
        };
        if !self.has_edge(&moved) {
            let place: usize = self.dpdg.edges.len();
            let ghost sources = sources_of(before.edges);
            let ghost targets = targets_of(before.edges);
            add_place(&mut self.dep_to_edges, moved.from, place, Ghost(sources));
            add_place(&mut self.prov_to_edges, moved.to, place, Ghost(targets));
            self.dpdg.edges.push(moved);
            assert(sources_of(self@.edges) =~= sources.push(moved.from));
            assert(targets_of(self@.edges) =~= targets.push(moved.to));
            assert(self@.vertices =~= before.vertices);
        }
    }
}

/// What a node of the full graph is shown as.
fn show(hierarchy: &NodeHierarchy, dpdg: &ExportablePDG, v: u32) -> (r: (
    ExportablePDGNode,
    usize,
    Option<usize>,
))
    requires
        hierarchy.wf(),
        hierarchy.covers(dpdg.vertices@.len(), v),
    ensures
        (Shown { node: r.0@, id: r.1, group: r.2 }) == shown(
            group_models(hierarchy.groups@),
            hierarchy.lookup@,
            node_models(dpdg.vertices@),
            v,
        ),
{
    let own: usize = match hierarchy.lookup.get(&(v as usize)) {
        Some(own) => *own,
        None => 0,
    };
    assert(group_models(hierarchy.groups@)[own as int] == hierarchy.groups@[own as int]@);
    match get_highest_hier_node(&hierarchy.groups, own) {
        Some(node) => (node, hierarchy.groups[own].group_id, Some(own)),
        None => (dpdg.vertices[v as usize].clone(), v as usize, None),
    }
}

/// Builds the graph that is shown: the edges of the full graph between what their ends are shown
/// as, without edges inside one shown node and without repetitions.
pub fn regroup(hierarchy: &NodeHierarchy, dpdg: &ExportablePDG) -> (r: HierarchicalGraph)
    requires
        hierarchy.wf(),
        hierarchy.covers_edges(dpdg.vertices@.len(), dpdg.edges@),
    ensures
        r.wf(),
        r@ == regrouped(
            group_models(hierarchy.groups@),
            hierarchy.lookup@,
            node_models(dpdg.vertices@),
            dpdg.edges@,
        ),
{
    let ghost groups = group_models(hierarchy.groups@);
    let ghost lookup = hierarchy.lookup@;
    let ghost nodes = node_models(dpdg.vertices@);
    let mut graph = HierarchicalGraph::new();
    let mut k: usize = 0;
    while k < dpdg.edges.len()
        invariant
            k <= dpdg.edges.len(),
            groups == group_models(hierarchy.groups@),
            lookup == hierarchy.lookup@,
            nodes == node_models(dpdg.vertices@),
            hierarchy.wf(),
            hierarchy.covers_edges(dpdg.vertices@.len(), dpdg.edges@),
            graph.wf(),
            graph@ == regrouped(groups, lookup, nodes, dpdg.edges@.take(k as int)),
        decreases dpdg.edges.len() - k,
    {
        let ghost before = graph@;
        let edge: &ExportablePDGEdge = &dpdg.edges[k];
        assert(dpdg.edges@[k as int] == *edge);
        assert(dpdg.edges@.take(k + 1).drop_last() =~= dpdg.edges@.take(k as int));
        let (from_node, from_id, from_group) = show(hierarchy, dpdg, edge.from);
        let (to_node, to_id, to_group) = show(hierarchy, dpdg, edge.to);
        let from: usize = graph.intern(from_node, from_id, from_group);
        let ghost middle = graph@;
        let to: usize = graph.intern(to_node, to_id, to_group);
        assert(graph@.vertices[from as int] == middle.vertices[from as int]);
        graph.join(from, to, edge);
        k = k + 1;
    }
    assert(dpdg.edges@.take(k as int) =~= dpdg.edges@);
    graph
}

} // verus!
