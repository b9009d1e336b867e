//! What holds of the groups of a graph and of the graph that is shown for them.

use vstd::prelude::*;

use crate::groups::{
    group_ok, groups_are_distinct, has_group, highest_collapsed, parents_first, path_of, stands_for,
    time_of, trees_ok, GroupModel,
};
use crate::hierarchy::{belongs, is_hierarchy_of, members};
use crate::pdg_spec::{ExportableNodeModel, ExportablePDGEdge};
use crate::regroup::{regrouped, shown, with_node, HierModel, Shown};

verus! {

/// Whether a group is another one or lies around it.
pub open spec fn encloses(groups: Seq<GroupModel>, outer: int, inner: int) -> bool
    decreases inner,
{
    outer == inner || (groups[inner].parent matches Some(p) && 0 <= p < inner && encloses(
        groups,
        outer,
        p as int,
    ))
}

/// The group that stands for its contents is the outermost one that is collapsed: it is collapsed
/// and lies around the contents, and all groups around it are expanded. There is none exactly where
/// all groups are expanded.
pub proof fn the_outermost_collapsed_group_is_shown(groups: Seq<GroupModel>, group: int)
    requires
        parents_first(groups),
        0 <= group < groups.len(),
    ensures
        match highest_collapsed(groups, group) {
            Some(g) => {
                &&& 0 <= g <= group
                &&& encloses(groups, g, group)
                &&& !groups[g].expanded
                &&& forall|h: int| #[trigger] encloses(groups, h, g) && h != g ==> groups[h].expanded
            },
            None => forall|h: int| #[trigger] encloses(groups, h, group) ==> groups[h].expanded,
        },
    decreases group,
{
    assert(groups[group].parent matches Some(p) ==> p < group);
    if let Some(p) = groups[group].parent {
        the_outermost_collapsed_group_is_shown(groups, p as int);
        assert forall|h: int| #[trigger] encloses(groups, h, group) && h != group implies encloses(
            groups,
            h,
            p as int,
        ) by {}
        if let Some(g) = highest_collapsed(groups, p as int) {
            assert(encloses(groups, g, group));
        }
    } else {
        assert forall|h: int| #[trigger] encloses(groups, h, group) implies h == group by {}
    }
    assert(encloses(groups, group, group));
}

/// No group has the number of another group or of a node.
pub proof fn group_numbers_are_their_own(
    groups: Seq<GroupModel>,
    roots: Seq<usize>,
    lookup: Map<usize, usize>,
    nodes: Seq<ExportableNodeModel>,
    i: int,
    j: int,
)
    requires
        is_hierarchy_of(groups, roots, lookup, nodes),
        0 <= i < groups.len(),
        0 <= j < groups.len(),
    ensures
        groups[i].group_id >= nodes.len(),
        groups[i].group_id == groups[j].group_id ==> i == j,
{
    assert(group_ok(groups, 5 * nodes.len() as int, i));
    assert(group_ok(groups, 5 * nodes.len() as int, j));
}

/// The outermost group around a group comes no later in the list.
proof fn root_comes_first(groups: Seq<GroupModel>, offset: int, root: int, i: int)
    requires
        trees_ok(groups, offset),
        0 <= root < groups.len(),
        0 <= i < groups.len(),
        groups[root].parent is None,
        time_of(groups[root]) == time_of(groups[i]),
    ensures
        root <= i,
    decreases i,
{
    assert(group_ok(groups, offset, i));
    assert(group_ok(groups, offset, root));
    match groups[i].parent {
        Some(p) => {
            root_comes_first(groups, offset, root, p as int);
        },
        None => {
            assert(path_of(groups[root]) =~= path_of(groups[i]));
            groups_are_distinct(groups, offset, root, i);
        },
    }
}

/// The groups are numbered one after the other, from five times the number of nodes on: those of a
/// point in time before those of the next, and the outermost group of each point in time first.
pub proof fn groups_are_numbered_by_time(
    groups: Seq<GroupModel>,
    roots: Seq<usize>,
    lookup: Map<usize, usize>,
    nodes: Seq<ExportableNodeModel>,
    i: int,
    j: int,
)
    requires
        is_hierarchy_of(groups, roots, lookup, nodes),
        0 <= i < groups.len(),
        0 <= j < groups.len(),
    ensures
        groups[i].group_id == 5 * nodes.len() + i,
        time_of(groups[i]) < time_of(groups[j]) ==> groups[i].group_id < groups[j].group_id,
        groups[i].parent is None && time_of(groups[i]) == time_of(groups[j])
            ==> groups[i].group_id <= groups[j].group_id,
{
    let offset = 5 * nodes.len() as int;
    assert(group_ok(groups, offset, i));
    assert(group_ok(groups, offset, j));
    if j < i {
        assert(time_of(groups[j]) <= time_of(groups[i]));
    }
    if groups[i].parent is None && time_of(groups[i]) == time_of(groups[j]) {
        root_comes_first(groups, offset, i, j);
    }
}

/// The nodes that are listed are those that belong to the group.
proof fn members_belong(
    nodes: Seq<ExportableNodeModel>,
    n: nat,
    time: int,
    path: Seq<Seq<char>>,
    v: usize,
)
    requires
        n <= nodes.len() <= usize::MAX,
    ensures
        members(nodes, n, time, path).contains(v) <==> v < n && belongs(
            nodes[v as int],
            time,
            path,
        ),
    decreases n,
{
    if n > 0 {
        let rest = members(nodes, (n - 1) as nat, time, path);
        let all = members(nodes, n, time, path);
        members_belong(nodes, (n - 1) as nat, time, path, v);
        if rest.contains(v) {
            let k = choose|k: int| 0 <= k < rest.len() && rest[k] == v;
            assert(all[k] == v);
        }
        if belongs(nodes[n - 1], time, path) {
            assert(all[rest.len() as int] == (n - 1) as usize);
            if all.contains(v) {
                let k = choose|k: int| 0 <= k < all.len() && all[k] == v;
                if k < rest.len() {
                    assert(rest[k] == v);
                }
            }
        }
    }
}

/// A group lists exactly the nodes that the table gives the group for; so no node is listed in two
/// groups.
pub proof fn lists_and_table_agree(
    groups: Seq<GroupModel>,
    roots: Seq<usize>,
    lookup: Map<usize, usize>,
    nodes: Seq<ExportableNodeModel>,
    g: int,
    v: usize,
)
    requires
        is_hierarchy_of(groups, roots, lookup, nodes),
        nodes.len() <= usize::MAX,
        0 <= g < groups.len(),
    ensures
        groups[g].node_indices.contains(v) <==> lookup.contains_key(v) && lookup[v] == g,
{
    let time = time_of(groups[g]) as int;
    let path = path_of(groups[g]);
    assert(groups[g].node_indices == members(nodes, nodes.len(), time, path));
    members_belong(nodes, nodes.len(), time, path, v);
    if groups[g].node_indices.contains(v) {
        assert(has_group(groups, time, path)) by {
            assert(stands_for(groups[g], time, path));
        }
        assert(lookup.contains_key(v));
        groups_are_distinct(groups, 5 * nodes.len() as int, g, lookup[v] as int);
    }
}

/// In a new hierarchy only the outermost groups are expanded, so each node is shown as the module
/// instance that its path begins with, and as itself where its path is empty.
pub proof fn a_new_hierarchy_shows_outer_instances(
    groups: Seq<GroupModel>,
    offset: int,
    group: int,
)
    requires
        trees_ok(groups, offset),
        0 <= group < groups.len(),
    ensures
        match highest_collapsed(groups, group) {
            Some(g) => {
                &&& 0 <= g <= group
                &&& time_of(groups[g]) == time_of(groups[group])
                &&& path_of(groups[group]).len() > 0
                &&& path_of(groups[g]) == path_of(groups[group]).take(1)
            },
            None => path_of(groups[group]).len() == 0,
        },
    decreases group,
{
    assert(group_ok(groups, offset, group));
    if let Some(p) = groups[group].parent {
        a_new_hierarchy_shows_outer_instances(groups, offset, p as int);
        let path = path_of(groups[group]);
        let outer = path_of(groups[p as int]);
        if outer.len() == 0 {
            assert(path.take(1) =~= path);
        } else {
            assert(path.take(1) =~= outer.take(1));
        }
    }
}

/// Whether an edge of a shown graph stands for an edge of the full graph.
pub open spec fn stands_for_edge(
    graph: HierModel,
    groups: Seq<GroupModel>,
    lookup: Map<usize, usize>,
    nodes: Seq<ExportableNodeModel>,
    new_edge: ExportablePDGEdge,
    edge: ExportablePDGEdge,
) -> bool {
    &&& new_edge.kind == edge.kind
    &&& new_edge.clocked == edge.clocked
    &&& new_edge.from != new_edge.to
    &&& new_edge.from < graph.vertices.len()
    &&& new_edge.to < graph.vertices.len()
    &&& graph.vertices[new_edge.from as int] == shown(groups, lookup, nodes, edge.from).node
    &&& graph.vertices[new_edge.to as int] == shown(groups, lookup, nodes, edge.to).node
}

/// Whether an edge of a shown graph stands for one of the edges of the full graph.
pub open spec fn has_original(
    graph: HierModel,
    groups: Seq<GroupModel>,
    lookup: Map<usize, usize>,
    nodes: Seq<ExportableNodeModel>,
    new_edge: ExportablePDGEdge,
    edges: Seq<ExportablePDGEdge>,
) -> bool {
    exists|i: int|
        0 <= i < edges.len() && stands_for_edge(
            graph,
            groups,
            lookup,
            nodes,
            new_edge,
            #[trigger] edges[i],
        )
}

/// Whether one of the edges of a shown graph stands for an edge of the full graph.
pub open spec fn has_stand_in(
    graph: HierModel,
    groups: Seq<GroupModel>,
    lookup: Map<usize, usize>,
    nodes: Seq<ExportableNodeModel>,
    edge: ExportablePDGEdge,
) -> bool {
    exists|k: int|
        0 <= k < graph.edges.len() && stands_for_edge(
            graph,
            groups,
            lookup,
            nodes,
            #[trigger] graph.edges[k],
            edge,
        )
}

/// Whether a node of a shown graph is what a node of the full graph is shown as, with its number
/// and its group.
pub open spec fn is_shown_at(graph: HierModel, k: int, shown: Shown) -> bool {
    &&& graph.vertices[k] == shown.node
    &&& graph.original_ids[k] == shown.id
    &&& match shown.group {
        Some(group) => graph.group_ids.contains_key(k as usize) && graph.group_ids[k as usize]
            == group,
        None => !graph.group_ids.contains_key(k as usize),
    }
}

/// Whether a node of a shown graph is what an end of one of the edges is shown as.
pub open spec fn comes_from_an_end(
    graph: HierModel,
    groups: Seq<GroupModel>,
    lookup: Map<usize, usize>,
    nodes: Seq<ExportableNodeModel>,
    edges: Seq<ExportablePDGEdge>,
    k: int,
) -> bool {
    exists|i: int|
        0 <= i < edges.len() && (is_shown_at(
            graph,
            k,
            shown(groups, lookup, nodes, (#[trigger] edges[i]).from),
        ) || is_shown_at(graph, k, shown(groups, lookup, nodes, edges[i].to)))
}

/// Whether the ends of an edge are shown as different nodes.
pub open spec fn shown_apart(
    groups: Seq<GroupModel>,
    lookup: Map<usize, usize>,
    nodes: Seq<ExportableNodeModel>,
    edge: ExportablePDGEdge,
) -> bool {
    shown(groups, lookup, nodes, edge.from).node != shown(groups, lookup, nodes, edge.to).node
}

/// Whether a shown graph is that of the edges of a full graph: no node and no edge occurs twice,
/// every node is what an end of an edge is shown as, every edge stands for one of the full graph,
/// and every edge of the full graph whose ends are shown apart has one that stands for it.
pub open spec fn faithful(
    graph: HierModel,
    groups: Seq<GroupModel>,
    lookup: Map<usize, usize>,
    nodes: Seq<ExportableNodeModel>,
    edges: Seq<ExportablePDGEdge>,
) -> bool {
    &&& graph.vertices.no_duplicates()
    &&& graph.edges.no_duplicates()
    &&& graph.original_ids.len() == graph.vertices.len()
    &&& forall|k: int|
        0 <= k < graph.vertices.len() ==> #[trigger] comes_from_an_end(
            graph,
            groups,
            lookup,
            nodes,
            edges,
            k,
        )
    &&& forall|k: int|
        0 <= k < graph.edges.len() ==> has_original(
            graph,
            groups,
            lookup,
            nodes,
            #[trigger] graph.edges[k],
            edges,
        )
    &&& forall|i: int|
        0 <= i < edges.len() && #[trigger] shown_apart(groups, lookup, nodes, edges[i])
            ==> has_stand_in(graph, groups, lookup, nodes, edges[i])
}

/// Whether groups are known for nodes of the graph only.
spec fn keys_below(graph: HierModel) -> bool {
    forall|k: usize| #[trigger] graph.group_ids.contains_key(k) ==> k < graph.vertices.len()
}

/// Adding a node keeps what was there.
proof fn with_node_keeps(graph: HierModel, new: Shown)
    requires
        graph.vertices.no_duplicates(),
        graph.original_ids.len() == graph.vertices.len(),
        with_node(graph, new).vertices.len() <= 0x1_0000_0000,
        keys_below(graph),
    ensures
        keys_below(with_node(graph, new)),
        forall|k: int, s: Shown|
            0 <= k < graph.vertices.len() && #[trigger] is_shown_at(graph, k, s) ==> is_shown_at(
                with_node(graph, new),
                k,
                s,
            ),
        with_node(graph, new).vertices.len() > graph.vertices.len() ==> is_shown_at(
            with_node(graph, new),
            graph.vertices.len() as int,
            new,
        ),
        with_node(graph, new).vertices.no_duplicates(),
        with_node(graph, new).original_ids.len() == with_node(graph, new).vertices.len(),
        with_node(graph, new).edges == graph.edges,
        with_node(graph, new).vertices.contains(new.node),
        graph.vertices.len() <= with_node(graph, new).vertices.len(),
        with_node(graph, new).vertices.len() <= graph.vertices.len() + 1,
        forall|i: int|
            0 <= i < graph.vertices.len() ==> #[trigger] with_node(graph, new).vertices[i]
                == graph.vertices[i],
{
    let after = with_node(graph, new);
    if !graph.vertices.contains(new.node) {
        assert(after.vertices[graph.vertices.len() as int] == new.node);
    }
}

/// The shown graph never gets smaller.
proof fn regrouped_grows(
    groups: Seq<GroupModel>,
    lookup: Map<usize, usize>,
    nodes: Seq<ExportableNodeModel>,
    edges: Seq<ExportablePDGEdge>,
)
    requires
        edges.len() > 0,
    ensures
        regrouped(groups, lookup, nodes, edges.drop_last()).vertices.len() <= regrouped(
            groups,
            lookup,
            nodes,
            edges,
        ).vertices.len(),
{
}

/// The graph that is shown is faithful to the full graph.
pub proof fn the_shown_graph_is_faithful(
    groups: Seq<GroupModel>,
    lookup: Map<usize, usize>,
    nodes: Seq<ExportableNodeModel>,
    edges: Seq<ExportablePDGEdge>,
)
    requires
        regrouped(groups, lookup, nodes, edges).vertices.len() <= 0x1_0000_0000,
    ensures
        faithful(regrouped(groups, lookup, nodes, edges), groups, lookup, nodes, edges),
{
    shown_graph_faithful(groups, lookup, nodes, edges);
}

proof fn shown_graph_faithful(
    groups: Seq<GroupModel>,
    lookup: Map<usize, usize>,
    nodes: Seq<ExportableNodeModel>,
    edges: Seq<ExportablePDGEdge>,
)
    requires
        regrouped(groups, lookup, nodes, edges).vertices.len() <= 0x1_0000_0000,
    ensures
        faithful(regrouped(groups, lookup, nodes, edges), groups, lookup, nodes, edges),
        keys_below(regrouped(groups, lookup, nodes, edges)),
    decreases edges.len(),
{
    let graph = regrouped(groups, lookup, nodes, edges);
    if edges.len() > 0 {
        let head = edges.drop_last();
        let edge = edges.last();
        let before = regrouped(groups, lookup, nodes, head);
        let from = shown(groups, lookup, nodes, edge.from);
        let to = shown(groups, lookup, nodes, edge.to);
        let first = with_node(before, from);
        let both = with_node(first, to);
        regrouped_grows(groups, lookup, nodes, edges);
        shown_graph_faithful(groups, lookup, nodes, head);
        with_node_keeps(before, from);
        with_node_keeps(first, to);
        assert(graph.vertices == both.vertices);
        let a = both.vertices.index_of(from.node);
        let b = both.vertices.index_of(to.node);
        assert(both.vertices.contains(from.node)) by {
            let i = choose|i: int| 0 <= i < first.vertices.len() && first.vertices[i] == from.node;
            assert(both.vertices[i] == from.node);
        }
        let moved = ExportablePDGEdge { from: a as u32, to: b as u32, ..edge };
        assert(0 <= a < both.vertices.len() && both.vertices[a] == from.node);
        assert(0 <= b < both.vertices.len() && both.vertices[b] == to.node);
        assert forall|x: ExportablePDGEdge, y: ExportablePDGEdge| #[trigger]
            stands_for_edge(before, groups, lookup, nodes, x, y) implies stands_for_edge(
            graph,
            groups,
            lookup,
            nodes,
            x,
            y,
        ) by {
            assert(first.vertices[x.from as int] == before.vertices[x.from as int]);
            assert(both.vertices[x.from as int] == first.vertices[x.from as int]);
            assert(first.vertices[x.to as int] == before.vertices[x.to as int]);
            assert(both.vertices[x.to as int] == first.vertices[x.to as int]);
        }
        if from.node != to.node {
            assert(stands_for_edge(graph, groups, lookup, nodes, moved, edge));
            assert(graph.edges.contains(moved)) by {
                if !both.edges.contains(moved) {
                    assert(graph.edges[both.edges.len() as int] == moved);
                }
            }
        }
        assert forall|k: int| 0 <= k < graph.vertices.len() implies #[trigger] comes_from_an_end(
            graph,
            groups,
            lookup,
            nodes,
            edges,
            k,
        ) by {
            if k < before.vertices.len() {
                assert(comes_from_an_end(before, groups, lookup, nodes, head, k));
                let i = choose|i: int|
                    0 <= i < head.len() && (is_shown_at(
                        before,
                        k,
                        shown(groups, lookup, nodes, (#[trigger] head[i]).from),
                    ) || is_shown_at(before, k, shown(groups, lookup, nodes, head[i].to)));
                assert(edges[i] == head[i]);
                let end = if is_shown_at(
                    before,
                    k,
                    shown(groups, lookup, nodes, head[i].from),
                ) {
                    shown(groups, lookup, nodes, head[i].from)
                } else {
                    shown(groups, lookup, nodes, head[i].to)
                };
                assert(is_shown_at(first, k, end));
                assert(is_shown_at(both, k, end));
                assert(is_shown_at(graph, k, end));
            } else if k < first.vertices.len() {
                assert(is_shown_at(first, k, from));
                assert(is_shown_at(both, k, from));
                assert(edges[edges.len() - 1] == edge);
                assert(is_shown_at(graph, k, from));
            } else {
                assert(is_shown_at(both, k, to));
                assert(edges[edges.len() - 1] == edge);
                assert(is_shown_at(graph, k, to));
            }
        }
        assert(graph.edges.no_duplicates());
        assert(graph.original_ids.len() == graph.vertices.len());
        assert forall|k: int| 0 <= k < graph.edges.len() implies has_original(
            graph,
            groups,
            lookup,
            nodes,
            #[trigger] graph.edges[k],
            edges,
        ) by {
            if k < before.edges.len() {
                assert(graph.edges[k] == before.edges[k]);
                let i = choose|i: int|
                    0 <= i < head.len() && stands_for_edge(
                        before,
                        groups,
                        lookup,
                        nodes,
                        before.edges[k],
                        #[trigger] head[i],
                    );
                assert(stands_for_edge(graph, groups, lookup, nodes, graph.edges[k], edges[i]));
            } else {
                assert(graph.edges[k] == moved);
                let i = edges.len() - 1;
                assert(stands_for_edge(graph, groups, lookup, nodes, graph.edges[k], edges[i]));
            }
        }
        assert forall|i: int|
            0 <= i < edges.len() && #[trigger] shown_apart(
                groups,
                lookup,
                nodes,
                edges[i],
            ) implies has_stand_in(graph, groups, lookup, nodes, edges[i]) by {
            if i < head.len() {
                assert(shown_apart(groups, lookup, nodes, head[i]));
                let k = choose|k: int|
                    0 <= k < before.edges.len() && stands_for_edge(
                        before,
                        groups,
                        lookup,
                        nodes,
                        #[trigger] before.edges[k],
                        head[i],
                    );
                assert(graph.edges[k] == before.edges[k]);
            } else {
                let k = choose|k: int| 0 <= k < graph.edges.len() && graph.edges[k] == moved;
                assert(stands_for_edge(graph, groups, lookup, nodes, graph.edges[k], edges[i]));
            }
        }
    }
}

/// Where all groups are expanded, every node is shown as itself.
pub proof fn expanding_everything_shows_the_nodes(
    groups: Seq<GroupModel>,
    lookup: Map<usize, usize>,
    nodes: Seq<ExportableNodeModel>,
    v: u32,
)
    requires
        parents_first(groups),
        forall|g: int| 0 <= g < groups.len() ==> (#[trigger] groups[g]).expanded,
        lookup[v as usize] < groups.len(),
    ensures
        shown(groups, lookup, nodes, v) == (Shown {
            node: nodes[v as int],
            id: v as usize,
            group: None,
        }),
{
    the_outermost_collapsed_group_is_shown(groups, lookup[v as usize] as int);
}

/// Whether a node is an end of one of the edges.
pub open spec fn is_end(edges: Seq<ExportablePDGEdge>, v: int) -> bool {
    exists|i: int| 0 <= i < edges.len() && ((#[trigger] edges[i]).from == v || edges[i].to == v)
}

/// An edge of a shown graph between the numbers of its ends.
pub open spec fn numbered(graph: HierModel, edge: ExportablePDGEdge) -> ExportablePDGEdge {
    ExportablePDGEdge {
        from: graph.original_ids[edge.from as int] as u32,
        to: graph.original_ids[edge.to as int] as u32,
        ..edge
    }
}

/// Whether one of the edges of a shown graph is, by the numbers of its ends, a given edge.
pub open spec fn shows_edge(graph: HierModel, edge: ExportablePDGEdge) -> bool {
    exists|k: int|
        0 <= k < graph.edges.len() && numbered(graph, #[trigger] graph.edges[k]) == edge
}

/// Whether a graph with all groups expanded can be told from its edges: no node occurs twice, no
/// edge leads from a node to itself, and the ends of the edges are nodes in groups.
pub open spec fn plainly_shown(
    groups: Seq<GroupModel>,
    lookup: Map<usize, usize>,
    nodes: Seq<ExportableNodeModel>,
    edges: Seq<ExportablePDGEdge>,
) -> bool {
    &&& parents_first(groups)
    &&& forall|g: int| 0 <= g < groups.len() ==> (#[trigger] groups[g]).expanded
    &&& nodes.no_duplicates()
    &&& nodes.len() <= usize::MAX
    &&& forall|i: int|
        0 <= i < edges.len() ==> {
            &&& (#[trigger] edges[i]).from != edges[i].to
            &&& edges[i].from < nodes.len()
            &&& edges[i].to < nodes.len()
            &&& lookup[edges[i].from as usize] < groups.len()
            &&& lookup[edges[i].to as usize] < groups.len()
        }
}

/// Whether the nodes of a shown graph are nodes of the full graph, by their numbers.
spec fn plain_nodes(graph: HierModel, nodes: Seq<ExportableNodeModel>) -> bool {
    &&& graph.group_ids == Map::<usize, usize>::empty()
    &&& graph.original_ids.len() == graph.vertices.len()
    &&& graph.original_ids.no_duplicates()
    &&& forall|k: int|
        0 <= k < graph.vertices.len() ==> {
            &&& (#[trigger] graph.original_ids[k]) < nodes.len()
            &&& graph.original_ids[k] <= u32::MAX
            &&& graph.vertices[k] == nodes[graph.original_ids[k] as int]
        }
}

/// Adding a node of the full graph under its number.
proof fn with_plain_node(graph: HierModel, nodes: Seq<ExportableNodeModel>, v: u32)
    requires
        plain_nodes(graph, nodes),
        nodes.no_duplicates(),
        v < nodes.len() <= usize::MAX,
    ensures
        ({
            let new = Shown { node: nodes[v as int], id: v as usize, group: None };
            let after = with_node(graph, new);
            &&& plain_nodes(after, nodes)
            &&& after.edges == graph.edges
            &&& graph.vertices.len() <= after.vertices.len()
            &&& forall|k: int|
                0 <= k < graph.vertices.len() ==> #[trigger] after.original_ids[k]
                    == graph.original_ids[k]
            &&& forall|w: usize| #[trigger]
                after.original_ids.contains(w) <==> graph.original_ids.contains(w) || w == v
            &&& after.vertices.contains(nodes[v as int])
            &&& 0 <= after.vertices.index_of(nodes[v as int]) < after.vertices.len()
            &&& after.original_ids[after.vertices.index_of(nodes[v as int])] == v
        }),
{
    let new = Shown { node: nodes[v as int], id: v as usize, group: None };
    let after = with_node(graph, new);
    let n = graph.vertices.len() as int;
    if graph.vertices.contains(new.node) {
        let k = choose|k: int| 0 <= k < n && graph.vertices[k] == new.node;
        assert(graph.original_ids[k] < nodes.len());
        assert(graph.original_ids[k] == v);
        assert(graph.original_ids.contains(v as usize));
    } else {
        assert forall|k: int| 0 <= k < n implies graph.original_ids[k] != v as usize by {
            if graph.original_ids[k] == v as usize {
                assert(graph.vertices[k] == new.node);
            }
        }
        assert forall|k: int| 0 <= k < after.vertices.len() implies {
            &&& (#[trigger] after.original_ids[k]) < nodes.len()
            &&& after.original_ids[k] <= u32::MAX
            &&& after.vertices[k] == nodes[after.original_ids[k] as int]
        } by {
            if k < n {
                assert(after.original_ids[k] == graph.original_ids[k]);
            }
        }
        assert(after.vertices[n] == new.node);
        assert(after.original_ids[n] == v as usize);
        assert forall|w: usize| #[trigger]
            after.original_ids.contains(w) <==> graph.original_ids.contains(w) || w == v by {
            if graph.original_ids.contains(w) {
                let k = choose|k: int| 0 <= k < n && graph.original_ids[k] == w;
                assert(after.original_ids[k] == w);
            }
            if after.original_ids.contains(w) {
                let k = choose|k: int|
                    0 <= k < after.original_ids.len() && after.original_ids[k] == w;
                if k < n {
                    assert(graph.original_ids[k] == w);
                }
            }
        }
    }
    let i = after.vertices.index_of(new.node);
    assert(0 <= i < after.vertices.len() && after.vertices[i] == new.node);
    assert(after.original_ids[i] < nodes.len());
    assert(nodes[after.original_ids[i] as int] == nodes[v as int]);
}

/// Numbers of 32 bits that differ are no more than there are numbers of 32 bits.
proof fn few_numbers(ids: Seq<usize>)
    requires
        ids.no_duplicates(),
        forall|k: int| 0 <= k < ids.len() ==> (#[trigger] ids[k]) <= u32::MAX,
    ensures
        ids.len() <= 0x1_0000_0000,
{
    let values = ids.map_values(|id: usize| id as int);
    assert(values.no_duplicates());
    let range = vstd::set_lib::set_int_range(0, 0x1_0000_0000);
    vstd::set_lib::lemma_int_range(0, 0x1_0000_0000);
    values.unique_seq_to_set();
    assert forall|x: int| values.to_set().contains(x) implies range.contains(x) by {
        let k = choose|k: int| 0 <= k < values.len() && values[k] == x;
        assert(ids[k] <= u32::MAX);
    }
    vstd::set_lib::lemma_len_subset(values.to_set(), range);
}

/// Where all groups are expanded and nodes and edges are plain, the shown graph is the full graph
/// without the nodes that no edge joins: no group is shown, each end of an edge is shown once under
/// its number, and the numbers turn the shown edges into exactly the edges of the full graph.
pub proof fn expanding_everything_shows_the_graph(
    groups: Seq<GroupModel>,
    lookup: Map<usize, usize>,
    nodes: Seq<ExportableNodeModel>,
    edges: Seq<ExportablePDGEdge>,
)
    requires
        plainly_shown(groups, lookup, nodes, edges),
    ensures
        ({
            let graph = regrouped(groups, lookup, nodes, edges);
            &&& graph.group_ids == Map::<usize, usize>::empty()
            &&& graph.original_ids.len() == graph.vertices.len()
            &&& graph.original_ids.no_duplicates()
            &&& forall|v: usize| #[trigger]
                graph.original_ids.contains(v) <==> is_end(edges, v as int)
            &&& forall|k: int|
                0 <= k < graph.vertices.len() ==> #[trigger] graph.vertices[k]
                    == nodes[graph.original_ids[k] as int]
            &&& forall|k: int|
                0 <= k < graph.edges.len() ==> (#[trigger] graph.edges[k]).from
                    < graph.vertices.len() && graph.edges[k].to < graph.vertices.len()
            &&& forall|e: ExportablePDGEdge| #[trigger]
                shows_edge(graph, e) <==> edges.contains(e)
        }),
{
    plain_regrouped(groups, lookup, nodes, edges);
    let graph = regrouped(groups, lookup, nodes, edges);
    assert forall|k: int| 0 <= k < graph.vertices.len() implies #[trigger] graph.vertices[k]
        == nodes[graph.original_ids[k] as int] by {
        assert(graph.original_ids[k] < nodes.len());
    }
}

proof fn plain_regrouped(
    groups: Seq<GroupModel>,
    lookup: Map<usize, usize>,
    nodes: Seq<ExportableNodeModel>,
    edges: Seq<ExportablePDGEdge>,
)
    requires
        plainly_shown(groups, lookup, nodes, edges),
    ensures
        ({
            let graph = regrouped(groups, lookup, nodes, edges);
            &&& plain_nodes(graph, nodes)
            &&& forall|v: usize| #[trigger]
                graph.original_ids.contains(v) <==> is_end(edges, v as int)
            &&& forall|k: int|
                0 <= k < graph.edges.len() ==> (#[trigger] graph.edges[k]).from
                    < graph.vertices.len() && graph.edges[k].to < graph.vertices.len()
            &&& forall|e: ExportablePDGEdge| #[trigger]
                shows_edge(graph, e) <==> edges.contains(e)
        }),
    decreases edges.len(),
{
    let graph = regrouped(groups, lookup, nodes, edges);
    if edges.len() > 0 {
        let head = edges.drop_last();
        let edge = edges.last();
        let last = edges.len() - 1;
        assert(edges[last] == edge);
        assert(plainly_shown(groups, lookup, nodes, head)) by {
            assert forall|i: int| 0 <= i < head.len() implies {
                &&& (#[trigger] head[i]).from != head[i].to
                &&& head[i].from < nodes.len()
                &&& head[i].to < nodes.len()
                &&& lookup[head[i].from as usize] < groups.len()
                &&& lookup[head[i].to as usize] < groups.len()
            } by {
                assert(head[i] == edges[i]);
            }
        }
        plain_regrouped(groups, lookup, nodes, head);
        expanding_everything_shows_the_nodes(groups, lookup, nodes, edge.from);
        expanding_everything_shows_the_nodes(groups, lookup, nodes, edge.to);
        let before = regrouped(groups, lookup, nodes, head);
        let from = shown(groups, lookup, nodes, edge.from);
        let to = shown(groups, lookup, nodes, edge.to);
        let first = with_node(before, from);
        let both = with_node(first, to);
        with_plain_node(before, nodes, edge.from);
        with_plain_node(first, nodes, edge.to);
        let a = both.vertices.index_of(from.node);
        let b = both.vertices.index_of(to.node);
        assert(both.original_ids.contains(edge.from as usize));
        let at = choose|k: int|
            0 <= k < both.original_ids.len() && both.original_ids[k] == edge.from as usize;
        assert(both.vertices[at] == from.node);
        assert(0 <= a < both.vertices.len() && both.vertices[a] == from.node);
        assert(both.original_ids[a] < nodes.len());
        assert(both.original_ids[a] == edge.from);
        assert(both.original_ids[b] == edge.to);
        assert(from.node != to.node);
        assert forall|k: int| 0 <= k < both.original_ids.len() implies (
        #[trigger] both.original_ids[k]) <= u32::MAX by {
            assert(both.original_ids[k] < nodes.len());
        }
        few_numbers(both.original_ids);
        let moved = ExportablePDGEdge { from: a as u32, to: b as u32, ..edge };
        assert(numbered(both, moved) == edge);
        assert(graph.original_ids == both.original_ids);
        assert(graph.vertices == both.vertices);
        assert forall|k: int| 0 <= k < before.edges.len() implies numbered(
            graph,
            #[trigger] graph.edges[k],
        ) == numbered(before, before.edges[k]) by {
            let e = before.edges[k];
            assert(graph.edges[k] == e);
            assert(first.original_ids[e.from as int] == before.original_ids[e.from as int]);
            assert(first.original_ids[e.to as int] == before.original_ids[e.to as int]);
            assert(both.original_ids[e.from as int] == first.original_ids[e.from as int]);
            assert(both.original_ids[e.to as int] == first.original_ids[e.to as int]);
        }
        assert(graph.edges.contains(moved)) by {
            if !both.edges.contains(moved) {
                assert(graph.edges[both.edges.len() as int] == moved);
            }
        }
        assert forall|k: int| 0 <= k < graph.edges.len() implies (#[trigger] graph.edges[k]).from
            < graph.vertices.len() && graph.edges[k].to < graph.vertices.len() by {
            if k < before.edges.len() {
                assert(graph.edges[k] == before.edges[k]);
            } else {
                assert(graph.edges[k] == moved);
            }
        }
        assert forall|e: ExportablePDGEdge| #[trigger]
            shows_edge(graph, e) <==> edges.contains(e) by {
            if shows_edge(graph, e) {
                let k = choose|k: int|
                    0 <= k < graph.edges.len() && numbered(graph, #[trigger] graph.edges[k]) == e;
                if k < before.edges.len() {
                    assert(numbered(before, before.edges[k]) == e);
                    assert(shows_edge(before, e));
                    let i = choose|i: int| 0 <= i < head.len() && head[i] == e;
                    assert(edges[i] == e);
                } else {
                    assert(graph.edges[k] == moved);
                    assert(edges[last] == e);
                }
            }
            if edges.contains(e) {
                let i = choose|i: int| 0 <= i < edges.len() && edges[i] == e;
                if i < head.len() {
                    assert(head[i] == e);
                    assert(shows_edge(before, e));
                    let k = choose|k: int|
                        0 <= k < before.edges.len() && numbered(
                            before,
                            #[trigger] before.edges[k],
                        ) == e;
                    assert(numbered(graph, graph.edges[k]) == e);
                } else {
                    let k = choose|k: int| 0 <= k < graph.edges.len() && graph.edges[k] == moved;
                    assert(numbered(graph, graph.edges[k]) == e);
                }
            }
        }
        assert forall|v: usize| #[trigger] graph.original_ids.contains(v) <==> is_end(
            edges,
            v as int,
        ) by {
            if is_end(edges, v as int) {
                let i = choose|i: int|
                    0 <= i < edges.len() && ((#[trigger] edges[i]).from == v || edges[i].to == v);
                if i < head.len() {
                    assert(head[i] == edges[i]);
                    assert(is_end(head, v as int));
                    assert(before.original_ids.contains(v));
                    assert(first.original_ids.contains(v));
                } else {
                    assert(first.original_ids.contains(edge.from as usize));
                }
            }
            if graph.original_ids.contains(v) {
                if v == edge.from || v == edge.to {
                    assert(edges[last].from == v || edges[last].to == v);
                } else {
                    assert(first.original_ids.contains(v));
                    assert(before.original_ids.contains(v));
                    let i = choose|i: int|
                        0 <= i < head.len() && ((#[trigger] head[i]).from == v || head[i].to == v);
                    assert(edges[i].from == v || edges[i].to == v);
                }
            }
        }
    }
}

} // verus!
