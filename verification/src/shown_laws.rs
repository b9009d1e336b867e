//! What the views of a graph show of it.

use vstd::prelude::*;

use crate::app_state::{default_scopes, ViewableGraph};
use crate::dynamic_graph::GraphProcessingType;
use crate::graph_building::{
    distinct, each_text_is_listed_once, files_of, is_view_of, last_time, limit_of, mode_of,
    no_node_is_later_than_the_last_time, one_later, read_path_of, shown_graph,
};
use crate::groups::{
    children_ok, group_models, group_ok, has_group, hier_node, highest_collapsed, lies_in,
    parents_first, path_of, stands_for, time_of, without_empty, GroupModel,
};
use crate::hierarchy::{
    is_hierarchy_of, latest_of, members, node_wants, wanted, wanted_as_soon, wanted_within,
    NodeHierarchy,
};
use crate::index::{is_index, places, places_hold_the_key};
use crate::pdg_spec::{node_models, ExportableNodeModel, ExportablePDGEdge, PDGSpecNodeKind};
use crate::regroup::{regrouped, shown, sources_of, targets_of, times_of, with_node, Shown};
use crate::text_laws::a_beginning_is_followed_by_the_rest;
use crate::vcd_reader::LanguageMode;
use crate::view_laws::{
    encloses, lists_and_table_agree, the_outermost_collapsed_group_is_shown,
    the_shown_graph_is_faithful,
};

verus! {

/// Of two groups around a third one lies around the other.
proof fn groups_around_are_nested(groups: Seq<GroupModel>, a: int, b: int, inner: int)
    requires
        encloses(groups, a, inner),
        encloses(groups, b, inner),
    ensures
        encloses(groups, a, b) || encloses(groups, b, a),
    decreases inner,
{
    if a != inner && b != inner {
        groups_around_are_nested(groups, a, b, groups[inner].parent->0 as int);
    }
}

/// A node is shown as the collapsed group around it that lies in no other collapsed one, under the
/// number of its own group.
pub proof fn a_node_is_shown_as_its_outermost_collapsed_group(
    groups: Seq<GroupModel>,
    lookup: Map<usize, usize>,
    nodes: Seq<ExportableNodeModel>,
    v: u32,
    g: int,
)
    requires
        parents_first(groups),
        lookup[v as usize] < groups.len(),
        encloses(groups, g, lookup[v as usize] as int),
        !groups[g].expanded,
        forall|h: int| #[trigger] encloses(groups, h, g) && h != g ==> groups[h].expanded,
    ensures
        shown(groups, lookup, nodes, v) == (Shown {
            node: groups[g].pdg_node,
            id: groups[lookup[v as usize] as int].group_id,
            group: Some(lookup[v as usize]),
        }),
{
    let own = lookup[v as usize] as int;
    the_outermost_collapsed_group_is_shown(groups, own);
    if let Some(h) = highest_collapsed(groups, own) {
        groups_around_are_nested(groups, g, h, own);
        assert(g == h);
    }
}

/// The graph that is shown for a view is that of its own groups, nodes and edges.
pub proof fn a_view_is_shown_by_its_own_groups(view: ViewableGraph, h: NodeHierarchy)
    ensures
        shown_graph(view, h) == regrouped(
            group_models(h.groups@),
            h.lookup@,
            node_models(view.dpdg.vertices@),
            view.dpdg.edges@,
        ),
{
}

/// Whether a list of nodes holds a node at a place.
pub open spec fn stands_at(
    vertices: Seq<ExportableNodeModel>,
    i: int,
    node: ExportableNodeModel,
) -> bool {
    0 <= i < vertices.len() && vertices[i] == node
}

/// A further edge adds what its ends are shown as, the end that it leaves first, where these are
/// not there yet, with their numbers and groups.
pub proof fn an_edge_brings_its_ends(
    groups: Seq<GroupModel>,
    lookup: Map<usize, usize>,
    nodes: Seq<ExportableNodeModel>,
    edges: Seq<ExportablePDGEdge>,
    edge: ExportablePDGEdge,
)
    ensures
        ({
            let empty = regrouped(groups, lookup, nodes, Seq::empty());
            let before = regrouped(groups, lookup, nodes, edges);
            let after = regrouped(groups, lookup, nodes, edges.push(edge));
            let a = shown(groups, lookup, nodes, edge.from);
            let b = shown(groups, lookup, nodes, edge.to);
            let new_a = !before.vertices.contains(a.node);
            let new_b = !before.vertices.contains(b.node) && a.node != b.node;
            &&& empty.vertices.len() == 0 && empty.edges.len() == 0 && empty.original_ids.len() == 0
            &&& forall|k: usize| !#[trigger] empty.group_ids.contains_key(k)
            &&& after.vertices == before.vertices + (if new_a {
                seq![a.node]
            } else {
                Seq::empty()
            }) + (if new_b {
                seq![b.node]
            } else {
                Seq::empty()
            })
            &&& after.original_ids == before.original_ids + (if new_a {
                seq![a.id]
            } else {
                Seq::empty()
            }) + (if new_b {
                seq![b.id]
            } else {
                Seq::empty()
            })
        }),
{
    let before = regrouped(groups, lookup, nodes, edges);
    let after = regrouped(groups, lookup, nodes, edges.push(edge));
    let a = shown(groups, lookup, nodes, edge.from);
    let b = shown(groups, lookup, nodes, edge.to);
    assert(edges.push(edge).drop_last() =~= edges);
    let once = with_node(before, a);
    if before.vertices.contains(a.node) {
        assert(once == before);
        if a.node == b.node {
            assert(once.vertices.contains(b.node));
        }
    } else {
        assert(once.vertices == before.vertices.push(a.node));
        assert(once.vertices[before.vertices.len() as int] == a.node);
        if before.vertices.contains(b.node) {
            let k = choose|k: int| 0 <= k < before.vertices.len() && before.vertices[k] == b.node;
            assert(once.vertices[k] == b.node);
        } else if once.vertices.contains(b.node) {
            let k = choose|k: int| 0 <= k < once.vertices.len() && once.vertices[k] == b.node;
            if k < before.vertices.len() {
                assert(before.vertices[k] == b.node);
            }
        }
    }
    let new_a = !before.vertices.contains(a.node);
    let new_b = !before.vertices.contains(b.node) && a.node != b.node;
    assert(once.vertices.contains(b.node) == !new_b);
    assert(after.vertices =~= before.vertices + (if new_a {
        seq![a.node]
    } else {
        Seq::empty()
    }) + (if new_b {
        seq![b.node]
    } else {
        Seq::empty()
    }));
    assert(after.original_ids =~= before.original_ids + (if new_a {
        seq![a.id]
    } else {
        Seq::empty()
    }) + (if new_b {
        seq![b.id]
    } else {
        Seq::empty()
    }));
}

/// A node that stands for a group is kept with the group of the node that brought it; the groups
/// that are kept for other nodes stay as they are.
pub proof fn a_node_is_kept_with_the_group_that_brought_it(
    groups: Seq<GroupModel>,
    lookup: Map<usize, usize>,
    nodes: Seq<ExportableNodeModel>,
    edges: Seq<ExportablePDGEdge>,
    edge: ExportablePDGEdge,
    k: usize,
)
    requires
        regrouped(groups, lookup, nodes, edges.push(edge)).vertices.len() <= usize::MAX,
    ensures
        ({
            let before = regrouped(groups, lookup, nodes, edges);
            let after = regrouped(groups, lookup, nodes, edges.push(edge));
            let a = shown(groups, lookup, nodes, edge.from);
            let b = shown(groups, lookup, nodes, edge.to);
            let new_a = !before.vertices.contains(a.node);
            let new_b = !before.vertices.contains(b.node) && a.node != b.node;
            let first = before.vertices.len();
            let second = first + (if new_a {
                1nat
            } else {
                0
            });
            &&& new_a && a.group is Some ==> after.group_ids.contains_pair(
                first as usize,
                a.group->0,
            )
            &&& new_b && b.group is Some ==> after.group_ids.contains_pair(
                second as usize,
                b.group->0,
            )
            &&& !(new_a && a.group is Some && k == first) && !(new_b && b.group is Some && k
                == second) ==> after.group_ids.contains_key(k) == before.group_ids.contains_key(k)
                && after.group_ids[k] == before.group_ids[k]
        }),
{
    let before = regrouped(groups, lookup, nodes, edges);
    let after = regrouped(groups, lookup, nodes, edges.push(edge));
    let a = shown(groups, lookup, nodes, edge.from);
    let b = shown(groups, lookup, nodes, edge.to);
    assert(edges.push(edge).drop_last() =~= edges);
    an_edge_brings_its_ends(groups, lookup, nodes, edges, edge);
    let once = with_node(before, a);
    let twice = with_node(once, b);
    assert(after.group_ids == twice.group_ids);
    assert(after.vertices == twice.vertices);
    let new_a = !before.vertices.contains(a.node);
    let new_b = !before.vertices.contains(b.node) && a.node != b.node;
    if new_a {
        assert(once.vertices[before.vertices.len() as int] == a.node);
        if once.vertices.contains(b.node) && a.node != b.node {
            let i = choose|i: int| 0 <= i < once.vertices.len() && once.vertices[i] == b.node;
            assert(before.vertices[i] == b.node);
        }
        if before.vertices.contains(b.node) {
            let i = choose|i: int| 0 <= i < before.vertices.len() && before.vertices[i] == b.node;
            assert(once.vertices[i] == b.node);
        }
    }
    assert(once.vertices.contains(b.node) == !new_b);
}

/// A further edge is the last one between what its ends are shown as, with its kind and its clock,
/// unless the two are shown as one or such an edge is there already.
pub proof fn an_edge_joins_what_its_ends_are_shown_as(
    groups: Seq<GroupModel>,
    lookup: Map<usize, usize>,
    nodes: Seq<ExportableNodeModel>,
    edges: Seq<ExportablePDGEdge>,
    edge: ExportablePDGEdge,
    i: int,
    j: int,
)
    requires
        ({
            let after = regrouped(groups, lookup, nodes, edges.push(edge));
            &&& stands_at(after.vertices, i, shown(groups, lookup, nodes, edge.from).node)
            &&& stands_at(after.vertices, j, shown(groups, lookup, nodes, edge.to).node)
            &&& after.vertices.len() <= u32::MAX
        }),
    ensures
        ({
            let before = regrouped(groups, lookup, nodes, edges);
            let after = regrouped(groups, lookup, nodes, edges.push(edge));
            let joined = ExportablePDGEdge {
                from: i as u32,
                to: j as u32,
                kind: edge.kind,
                clocked: edge.clocked,
            };
            after.edges == if i == j || before.edges.contains(joined) {
                before.edges
            } else {
                before.edges + seq![joined]
            }
        }),
{
    let before = regrouped(groups, lookup, nodes, edges);
    let after = regrouped(groups, lookup, nodes, edges.push(edge));
    let a = shown(groups, lookup, nodes, edge.from).node;
    let b = shown(groups, lookup, nodes, edge.to).node;
    assert(edges.push(edge).drop_last() =~= edges);
    the_shown_graph_is_faithful(groups, lookup, nodes, edges.push(edge));
    assert(after.vertices.no_duplicates());
    assert(after.vertices.contains(a) && after.vertices.contains(b));
    assert(after.vertices.index_of(a) == i);
    assert(after.vertices.index_of(b) == j);
    let joined = ExportablePDGEdge {
        from: i as u32,
        to: j as u32,
        kind: edge.kind,
        clocked: edge.clocked,
    };
    assert(i == j <==> a == b);
    assert(before.edges.push(joined) =~= before.edges + seq![joined]);
}

proof fn dropping_empty_parts(path: Seq<Seq<char>>)
    ensures
        without_empty(path) == path.filter(|part: Seq<char>| part.len() > 0),
    decreases path.len(),
{
    reveal(Seq::filter);
    if path.len() > 0 {
        dropping_empty_parts(path.drop_last());
    }
}

proof fn members_in_order(nodes: Seq<ExportableNodeModel>, n: nat, time: int, path: Seq<Seq<char>>)
    requires
        n <= nodes.len() <= usize::MAX,
    ensures
        forall|j: int|
            0 <= j < members(nodes, n, time, path).len() ==> (#[trigger] members(
                nodes,
                n,
                time,
                path,
            )[j]) < n,
        forall|j: int, k: int|
            0 <= j < k < members(nodes, n, time, path).len() ==> (#[trigger] members(
                nodes,
                n,
                time,
                path,
            )[j]) < (#[trigger] members(nodes, n, time, path)[k]),
    decreases n,
{
    if n > 0 {
        members_in_order(nodes, (n - 1) as nat, time, path);
        let rest = members(nodes, (n - 1) as nat, time, path);
        let all = members(nodes, n, time, path);
        assert(forall|j: int| 0 <= j < rest.len() ==> #[trigger] all[j] == rest[j]);
    }
}

/// A node is in the group of its own point in time and of its path, whose empty parts do not count;
/// a group lists its nodes, and no others, in their order.
pub proof fn a_node_is_in_the_group_of_its_path(
    groups: Seq<GroupModel>,
    roots: Seq<usize>,
    lookup: Map<usize, usize>,
    nodes: Seq<ExportableNodeModel>,
    g: int,
    v: usize,
)
    requires
        is_hierarchy_of(groups, roots, lookup, nodes),
        nodes.len() <= usize::MAX,
        0 <= g < groups.len(),
    ensures
        ({
            let node = nodes[v as int];
            let parts = node.instance_path.filter(|part: Seq<char>| part.len() > 0);
            let listed = groups[g].node_indices;
            &&& lookup.contains_key(v) <==> v < nodes.len() && node.timestamp >= 0
            &&& lookup.contains_key(v) ==> lookup[v] < groups.len()
                && groups[lookup[v] as int].pdg_node.timestamp == node.timestamp
                && groups[lookup[v] as int].pdg_node.instance_path == parts
            &&& listed.contains(v) <==> lookup.contains_key(v) && lookup[v] == g
            &&& forall|j: int, k: int|
                0 <= j < k < listed.len() ==> (#[trigger] listed[j]) < (#[trigger] listed[k])
        }),
{
    dropping_empty_parts(nodes[v as int].instance_path);
    lists_and_table_agree(groups, roots, lookup, nodes, g, v);
    members_in_order(nodes, nodes.len(), time_of(groups[g]) as int, path_of(groups[g]));
}

/// Whether a node calls for a group: its path, whose last part is not empty, begins with the path
/// of the group.
pub open spec fn asks_for(node: ExportableNodeModel, time: int, path: Seq<Seq<char>>) -> bool {
    &&& node.timestamp == time
    &&& node.instance_path.len() > 0
    &&& node.instance_path.last().len() > 0
    &&& exists|rest: Seq<Seq<char>>| node.instance_path == #[trigger] (path + rest)
}

proof fn what_nodes_ask_for(node: ExportableNodeModel, time: int, path: Seq<Seq<char>>)
    ensures
        asks_for(node, time, path) == node_wants(node, time, path),
{
    let whole = node.instance_path;
    if node_wants(node, time, path) {
        assert(whole =~= path + whole.skip(path.len() as int));
    }
    if asks_for(node, time, path) {
        let rest = choose|rest: Seq<Seq<char>>| whole == #[trigger] (path + rest);
        assert(whole.take(path.len() as int) =~= path);
    }
}

/// There is a group for the whole of every point in time, and one for each path at a point in time
/// that a node asks for; there are no others.
pub proof fn the_groups_are_those_that_nodes_ask_for(
    groups: Seq<GroupModel>,
    roots: Seq<usize>,
    lookup: Map<usize, usize>,
    nodes: Seq<ExportableNodeModel>,
    time: int,
    path: Seq<Seq<char>>,
)
    requires
        is_hierarchy_of(groups, roots, lookup, nodes),
    ensures
        (exists|i: int|
            0 <= i < groups.len() && (#[trigger] groups[i]).pdg_node.timestamp == time
                && groups[i].pdg_node.instance_path == path) <==> (0 <= time < roots.len() && (
        path.len() == 0 || exists|v: int|
            0 <= v < nodes.len() && #[trigger] asks_for(nodes[v], time, path))),
{
    assert(has_group(groups, time, path) == (exists|i: int|
        0 <= i < groups.len() && (#[trigger] groups[i]).pdg_node.timestamp == time
            && groups[i].pdg_node.instance_path == path)) by {
        assert forall|i: int| 0 <= i < groups.len() implies #[trigger] stands_for(
            groups[i],
            time,
            path,
        ) == (groups[i].pdg_node.timestamp == time && groups[i].pdg_node.instance_path
            == path) by {}
        if has_group(groups, time, path) {
            let i = choose|i: int|
                0 <= i < groups.len() && stands_for(#[trigger] groups[i], time, path);
            assert(groups[i].pdg_node.timestamp == time);
        }
        if exists|i: int|
            0 <= i < groups.len() && (#[trigger] groups[i]).pdg_node.timestamp == time
                && groups[i].pdg_node.instance_path == path {
            let i = choose|i: int|
                0 <= i < groups.len() && (#[trigger] groups[i]).pdg_node.timestamp == time
                    && groups[i].pdg_node.instance_path == path;
            assert(stands_for(groups[i], time, path));
        }
    }
    if wanted(nodes, time, path) {
        let v = choose|v: int| 0 <= v < nodes.len() && node_wants(#[trigger] nodes[v], time, path);
        what_nodes_ask_for(nodes[v], time, path);
        assert(asks_for(nodes[v], time, path));
    }
    if exists|v: int| 0 <= v < nodes.len() && #[trigger] asks_for(nodes[v], time, path) {
        let v = choose|v: int| 0 <= v < nodes.len() && #[trigger] asks_for(nodes[v], time, path);
        what_nodes_ask_for(nodes[v], time, path);
        assert(node_wants(nodes[v], time, path));
    }
}

proof fn the_latest_is_a_time(nodes: Seq<ExportableNodeModel>, n: nat)
    requires
        0 < n <= nodes.len(),
    ensures
        exists|v: int|
            0 <= v < n && (#[trigger] nodes[v]).timestamp == latest_of(nodes, n),
        forall|v: int| 0 <= v < n ==> (#[trigger] nodes[v]).timestamp <= latest_of(nodes, n),
    decreases n,
{
    if n > 1 {
        the_latest_is_a_time(nodes, (n - 1) as nat);
        let v = choose|v: int|
            0 <= v < n - 1 && (#[trigger] nodes[v]).timestamp == latest_of(nodes, (n - 1) as nat);
        assert(nodes[v].timestamp == latest_of(nodes, n) || nodes[n - 1].timestamp == latest_of(
            nodes,
            n,
        ));
    } else {
        assert(nodes[0].timestamp == latest_of(nodes, n));
    }
}

/// There are as many outermost groups as points in time, from zero to that of the latest node, each
/// at the place of its time.
pub proof fn every_point_in_time_has_its_outermost_group(
    groups: Seq<GroupModel>,
    roots: Seq<usize>,
    lookup: Map<usize, usize>,
    nodes: Seq<ExportableNodeModel>,
    t: int,
)
    requires
        is_hierarchy_of(groups, roots, lookup, nodes),
        nodes.len() > 0,
    ensures
        forall|v: int| 0 <= v < nodes.len() ==> (#[trigger] nodes[v]).timestamp < roots.len(),
        roots.len() > 0 ==> exists|v: int|
            0 <= v < nodes.len() && (#[trigger] nodes[v]).timestamp == roots.len() - 1,
        0 <= t < roots.len() ==> {
            let root = groups[roots[t] as int].pdg_node;
            roots[t] < groups.len() && root.timestamp == t && root.instance_path.len() == 0
        },
{
    the_latest_is_a_time(nodes, nodes.len());
    let v = choose|v: int|
        0 <= v < nodes.len() && (#[trigger] nodes[v]).timestamp == latest_of(nodes, nodes.len());
    assert(nodes[v].timestamp == latest_of(nodes, nodes.len()));
    if 0 <= t < roots.len() {
        assert(stands_for(groups[roots[t] as int], t, Seq::empty()));
    }
}

/// A group lies in the group of the path without its last part, at the same point in time, and has
/// the name of that part; it starts collapsed. The outermost groups are called `top` and start
/// expanded.
pub proof fn a_group_lies_in_that_of_the_shorter_path(
    groups: Seq<GroupModel>,
    roots: Seq<usize>,
    lookup: Map<usize, usize>,
    nodes: Seq<ExportableNodeModel>,
    i: int,
)
    requires
        is_hierarchy_of(groups, roots, lookup, nodes),
        0 <= i < groups.len(),
    ensures
        ({
            let group = groups[i];
            let path = group.pdg_node.instance_path;
            &&& group.group_id == 5 * nodes.len() + i
            &&& path.len() == 0 ==> {
                &&& group.parent is None
                &&& group.expanded
                &&& group.instance_name == "top"@
                &&& group.pdg_node.name == "module_top"@
            }
            &&& path.len() > 0 ==> {
                &&& group.parent matches Some(p) && p < i && {
                    &&& groups[p as int].pdg_node.timestamp == group.pdg_node.timestamp
                    &&& groups[p as int].pdg_node.instance_path + seq![path.last()] == path
                    &&& groups[p as int].children.contains(i as usize)
                }
                &&& !group.expanded
                &&& group.instance_name == path.last()
                &&& group.pdg_node.name == "module_"@ + path.last()
            }
        }),
{
    assert(group_ok(groups, 5 * nodes.len() as int, i));
    if let Some(p) = groups[i].parent {
        let outer = groups[p as int].pdg_node.instance_path;
        let name = groups[i].instance_name;
        assert(outer.push(name) =~= outer + seq![name]);
        assert(children_ok(groups, p as int));
        assert(lies_in(groups, i, p as int));
    }
}

/// Of the groups of a point in time, one comes before another only where, for every node that asks
/// for the later one, a node with a path that is no longer asks for the earlier one.
pub proof fn groups_come_as_short_paths_ask_for_them(
    groups: Seq<GroupModel>,
    roots: Seq<usize>,
    lookup: Map<usize, usize>,
    nodes: Seq<ExportableNodeModel>,
    i: int,
    j: int,
    v: int,
)
    requires
        is_hierarchy_of(groups, roots, lookup, nodes),
        0 <= i < j < groups.len(),
        groups[i].pdg_node.timestamp == groups[j].pdg_node.timestamp,
        groups[i].pdg_node.instance_path.len() > 0,
        groups[j].pdg_node.instance_path.len() > 0,
        0 <= v < nodes.len(),
        asks_for(
            nodes[v],
            groups[j].pdg_node.timestamp as int,
            groups[j].pdg_node.instance_path,
        ),
    ensures
        exists|u: int|
            0 <= u < nodes.len() && #[trigger] asks_for(
                nodes[u],
                groups[i].pdg_node.timestamp as int,
                groups[i].pdg_node.instance_path,
            ) && nodes[u].instance_path.len() <= nodes[v].instance_path.len(),
{
    let a = groups[i];
    let b = groups[j];
    let depth = nodes[v].instance_path.len() as int;
    assert(time_of(a) == time_of(b));
    assert(wanted_as_soon(nodes, a, b));
    what_nodes_ask_for(nodes[v], time_of(b) as int, path_of(b));
    assert(node_wants(nodes[v], time_of(b) as int, path_of(b)));
    assert(wanted_within(nodes, time_of(b) as int, path_of(b), depth));
    assert(wanted_within(nodes, time_of(a) as int, path_of(a), depth));
    let u = choose|u: int|
        0 <= u < nodes.len() && node_wants(#[trigger] nodes[u], time_of(a) as int, path_of(a))
            && nodes[u].instance_path.len() <= depth;
    what_nodes_ask_for(nodes[u], time_of(a) as int, path_of(a));
    assert(asks_for(nodes[u], a.pdg_node.timestamp as int, a.pdg_node.instance_path));
}

/// The node that stands for a group has its name, its point in time and its path, and nothing else.
pub proof fn a_group_is_a_bare_definition(name: Seq<char>, time: i64, path: Seq<Seq<char>>)
    ensures
        ({
            let node = hier_node(name, time, path);
            &&& node.name == name
            &&& node.timestamp == time
            &&& node.instance_path == path
            &&& node.kind == PDGSpecNodeKind::Definition
            &&& !node.clocked
            &&& !node.is_chisel_assignment
            &&& node.file.len() == 0
            &&& node.line == 0
            &&& node.char == 0
            &&& node.related_signal is None
            &&& node.sim_data is None
        }),
{
}

proof fn the_last_time_is_a_time(nodes: Seq<ExportableNodeModel>, n: nat)
    requires
        n <= nodes.len(),
    ensures
        last_time(nodes, n) >= 0,
        last_time(nodes, n) > 0 ==> exists|v: int|
            0 <= v < n && (#[trigger] nodes[v]).timestamp == last_time(nodes, n),
    decreases n,
{
    if n > 0 {
        the_last_time_is_a_time(nodes, (n - 1) as nat);
        assert(nodes[n - 1].timestamp == nodes[n - 1].timestamp);
    }
}

/// A table of places lists, for each key that the sequence holds and for no other, all its places
/// and nothing else, in increasing order.
pub proof fn a_table_lists_all_places<K>(table: Map<K, Vec<usize>>, keys: Seq<K>, key: K)
    requires
        is_index(table, keys),
        keys.len() <= usize::MAX,
    ensures
        table.contains_key(key) <==> exists|i: int| 0 <= i < keys.len() && #[trigger] keys[i] == key,
        table.contains_key(key) ==> {
            &&& forall|i: int|
                0 <= i < keys.len() && #[trigger] keys[i] == key ==> table[key]@.contains(
                    i as usize,
                )
            &&& forall|j: int|
                0 <= j < table[key]@.len() ==> (#[trigger] table[key]@[j]) < keys.len()
                    && keys[table[key]@[j] as int] == key
            &&& forall|j: int, k: int|
                0 <= j < k < table[key]@.len() ==> (#[trigger] table[key]@[j]) < (
                #[trigger] table[key]@[k])
        },
{
    places_hold_the_key(keys, key);
    assert(table.contains_key(key) <==> keys.contains(key));
    if table.contains_key(key) {
        assert(table[key]@ == places(keys, key));
        assert forall|j: int| 0 <= j < table[key]@.len() implies (#[trigger] table[key]@[j])
            < keys.len() && keys[table[key]@[j] as int] == key by {
            assert(places(keys, key)[j] == table[key]@[j]);
        }
        assert forall|j: int, k: int| 0 <= j < k < table[key]@.len() implies (
        #[trigger] table[key]@[j]) < (#[trigger] table[key]@[k]) by {
            assert(places(keys, key)[j] == table[key]@[j]);
            assert(places(keys, key)[k] == table[key]@[k]);
        }
    }
}

/// A view shows every node under its own place; it counts the points in time up to the last one of
/// a node, and its tables list, in order, the nodes of each point in time and the edges that leave
/// and enter each node.
pub proof fn a_view_lists_what_it_shows(
    view: ViewableGraph,
    nodes: Seq<ExportableNodeModel>,
    edges: Seq<ExportablePDGEdge>,
    sources: Map<Seq<char>, Seq<Seq<char>>>,
    group_nodes: bool,
    v: int,
    e: int,
)
    requires
        is_view_of(view, nodes, edges, sources, group_nodes),
        nodes.len() <= usize::MAX,
        edges.len() <= usize::MAX,
        0 <= v < nodes.len(),
    ensures
        node_models(view.dpdg.vertices@) == nodes,
        view.dpdg.edges@ == edges,
        view.source_files@ == sources,
        view.shown_ids@.len() == nodes.len(),
        view.shown_ids@[v] == v,
        view.n_timestamps >= nodes[v].timestamp,
        view.n_timestamps > 0 ==> exists|u: int|
            0 <= u < nodes.len() && (#[trigger] nodes[u]).timestamp == view.n_timestamps,
        view.time_to_nodes@.contains_key(nodes[v].timestamp),
        view.time_to_nodes@[nodes[v].timestamp]@.contains(v as usize),
        0 <= e < edges.len() ==> {
            &&& view.dep_to_edges@.contains_key(edges[e].from)
            &&& view.dep_to_edges@[edges[e].from]@.contains(e as usize)
            &&& view.prov_to_edges@.contains_key(edges[e].to)
            &&& view.prov_to_edges@[edges[e].to]@.contains(e as usize)
        },
        is_index(view.time_to_nodes@, Seq::new(nodes.len(), |i: int| nodes[i].timestamp)),
        is_index(view.dep_to_edges@, Seq::new(edges.len(), |i: int| edges[i].from)),
        is_index(view.prov_to_edges@, Seq::new(edges.len(), |i: int| edges[i].to)),
        view.should_group_nodes == group_nodes,
        (view.node_hierarchy is Some) == group_nodes,
{
    let time = nodes[v].timestamp;
    let times = times_of(nodes);
    no_node_is_later_than_the_last_time(nodes, nodes.len(), v);
    the_last_time_is_a_time(nodes, nodes.len());
    assert(times[v] == time);
    a_table_lists_all_places(view.time_to_nodes@, times, time);
    assert(times =~= Seq::new(nodes.len(), |i: int| nodes[i].timestamp));
    assert(sources_of(edges) =~= Seq::new(edges.len(), |i: int| edges[i].from));
    assert(targets_of(edges) =~= Seq::new(edges.len(), |i: int| edges[i].to));
    if 0 <= e < edges.len() {
        assert(sources_of(edges)[e] == edges[e].from);
        assert(targets_of(edges)[e] == edges[e].to);
        a_table_lists_all_places(view.dep_to_edges@, sources_of(edges), edges[e].from);
        a_table_lists_all_places(view.prov_to_edges@, targets_of(edges), edges[e].to);
    }
}

/// A view counts the times of a graph from one step earlier, and changes nothing else of its nodes.
pub proof fn times_move_on_by_one(nodes: Seq<ExportableNodeModel>, i: int)
    requires
        0 <= i < nodes.len(),
        nodes[i].timestamp < i64::MAX,
    ensures
        one_later(nodes).len() == nodes.len(),
        one_later(nodes)[i].timestamp == nodes[i].timestamp + 1,
        (ExportableNodeModel { timestamp: nodes[i].timestamp, ..one_later(nodes)[i] }) == nodes[i],
{
}

/// Source files are listed in the order in which nodes refer to them first.
pub proof fn files_are_listed_as_nodes_refer_to_them(
    nodes: Seq<ExportableNodeModel>,
    node: ExportableNodeModel,
)
    ensures
        distinct(files_of(Seq::empty())).len() == 0,
        distinct(files_of(nodes.push(node))) == if exists|i: int|
            0 <= i < nodes.len() && (#[trigger] nodes[i]).file == node.file {
            distinct(files_of(nodes))
        } else {
            distinct(files_of(nodes)) + seq![node.file]
        },
{
    let files = files_of(nodes);
    let all = files_of(nodes.push(node));
    assert(all.drop_last() =~= files);
    assert(all.last() == node.file);
    assert(files_of(Seq::empty()) =~= Seq::empty());
    each_text_is_listed_once(files);
    assert(distinct(files).contains(node.file) == files.contains(node.file));
    if exists|i: int| 0 <= i < nodes.len() && (#[trigger] nodes[i]).file == node.file {
        let i = choose|i: int| 0 <= i < nodes.len() && (#[trigger] nodes[i]).file == node.file;
        assert(files[i] == node.file);
    }
    if files.contains(node.file) {
        let i = choose|i: int| 0 <= i < files.len() && files[i] == node.file;
        assert(nodes[i].file == node.file);
    }
    assert(distinct(files).push(node.file) =~= distinct(files) + seq![node.file]);
}

/// A path that begins with `home` is read from the root; every other path is read as it is.
pub proof fn home_paths_are_read_from_the_root(path: Seq<char>)
    ensures
        (exists|rest: Seq<char>| path == #[trigger] ("home"@ + rest)) ==> read_path_of(path)
            == seq!['/'] + path,
        !(exists|rest: Seq<char>| path == #[trigger] ("home"@ + rest)) ==> read_path_of(path)
            == path,
{
    a_beginning_is_followed_by_the_rest(path, "home"@);
}

/// A configuration asks for data dependencies only or for the normal graph, never for the full one;
/// a limit that fits is taken as it is.
pub proof fn a_configuration_is_taken_at_its_word(data_only: bool, max: u64)
    ensures
        mode_of(data_only) == GraphProcessingType::DataOnly <==> data_only,
        mode_of(data_only) == GraphProcessingType::Normal <==> !data_only,
        limit_of(None) is None,
        limit_of(Some(max)) is Some,
        max <= i64::MAX ==> limit_of(Some(max))->0 == max,
{
}

/// The design under test is usually found below the test bench, and with SpinalHDL under the name
/// of the top module.
pub proof fn the_usual_scopes(mode: LanguageMode, top_module: Seq<char>)
    ensures
        default_scopes(mode, top_module)[0] == "TOP"@,
        mode == LanguageMode::SpinalHDL ==> default_scopes(mode, top_module).len() == 2
            && default_scopes(mode, top_module)[1] == top_module,
        mode != LanguageMode::SpinalHDL ==> default_scopes(mode, top_module).len() == 3
            && default_scopes(mode, top_module)[1] == "svsimTestbench"@ && default_scopes(
            mode,
            top_module,
        )[2] == "dut"@,
{
}

} // verus!
