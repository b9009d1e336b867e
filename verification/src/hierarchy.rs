//! Groups the nodes of an exported graph by time and module instance.

use std::collections::HashMap;

use vstd::prelude::*;

use crate::groups::{
    add_root, added_for, beginnings_have_groups, descend_path, ensure_path, group_models,
    groups_are_distinct, grows_to, has_group, path_begins, path_of, same_trees, stands_for, time_of,
    trees_ok, trees_stay_ok, with_root, without_empty, GraphNodeHierarchy, GroupModel,
};
use crate::pdg_spec::{node_models, ExportableNodeModel, ExportablePDG, ExportablePDGNode};

verus! {

broadcast use vstd::std_specs::hash::group_hash_axioms;

/// The groups of a graph.
pub struct NodeHierarchy {
    pub groups: Vec<GraphNodeHierarchy>,
    /// The outermost group of each point in time.
    pub roots: Vec<usize>,
    /// The group that each node of the graph belongs to directly.
    pub lookup: HashMap<usize, usize>,
}

/// Whether a path calls for groups: it has parts, and the last one is not empty.
pub open spec fn calls_for_groups(path: Seq<Seq<char>>) -> bool {
    path.len() > 0 && path.last().len() > 0
}

/// Whether a node calls for a group for a path at a point in time.
pub open spec fn node_wants(
    node: ExportableNodeModel,
    time: int,
    path: Seq<Seq<char>>,
) -> bool {
    &&& node.timestamp == time
    &&& calls_for_groups(node.instance_path)
    &&& path_begins(path, node.instance_path)
}

/// Whether some node calls for a group for a path at a point in time.
pub open spec fn wanted(
    nodes: Seq<ExportableNodeModel>,
    time: int,
    path: Seq<Seq<char>>,
) -> bool {
    exists|v: int| 0 <= v < nodes.len() && node_wants(#[trigger] nodes[v], time, path)
}

/// Whether some node whose path has at most `depth` parts calls for a group for a path at a point
/// in time.
pub open spec fn wanted_within(
    nodes: Seq<ExportableNodeModel>,
    time: int,
    path: Seq<Seq<char>>,
    depth: int,
) -> bool {
    exists|v: int|
        0 <= v < nodes.len() && node_wants(#[trigger] nodes[v], time, path)
            && nodes[v].instance_path.len() <= depth
}

/// Whether a node as short as those that call for `b` calls for `a`.
pub open spec fn wanted_as_soon(
    nodes: Seq<ExportableNodeModel>,
    a: GroupModel,
    b: GroupModel,
) -> bool {
    forall|depth: int|
        #[trigger] wanted_within(nodes, time_of(b) as int, path_of(b), depth) ==> wanted_within(
            nodes,
            time_of(a) as int,
            path_of(a),
            depth,
        )
}

/// Whether the groups of each point in time come in the order in which the paths of the nodes,
/// taken from the shortest to the longest, call for them.
pub open spec fn shortest_first(
    groups: Seq<GroupModel>,
    nodes: Seq<ExportableNodeModel>,
) -> bool {
    forall|i: int, j: int|
        0 <= i < j < groups.len() && time_of(#[trigger] groups[i]) == time_of(#[trigger] groups[j])
            && path_of(groups[i]).len() > 0 && path_of(groups[j]).len() > 0 ==> wanted_as_soon(
            nodes,
            groups[i],
            groups[j],
        )
}

/// Whether a node belongs to a group.
pub open spec fn belongs(node: ExportableNodeModel, time: int, path: Seq<Seq<char>>) -> bool {
    node.timestamp == time && without_empty(node.instance_path) == path
}

/// The places of those of the first `n` nodes that belong to the group of a path at a point in
/// time.
pub open spec fn members(
    nodes: Seq<ExportableNodeModel>,
    n: nat,
    time: int,
    path: Seq<Seq<char>>,
) -> Seq<usize>
    decreases n,
{
    if n == 0 {
        Seq::empty()
    } else {
        let rest = members(nodes, (n - 1) as nat, time, path);
        if belongs(nodes[n - 1], time, path) {
            rest.push((n - 1) as usize)
        } else {
            rest
        }
    }
}

/// The latest point in time of the first `n` nodes.
pub open spec fn latest_of(nodes: Seq<ExportableNodeModel>, n: nat) -> i64
    decreases n,
{
    if n <= 1 {
        nodes[0].timestamp
    } else {
        let rest = latest_of(nodes, (n - 1) as nat);
        if nodes[n - 1].timestamp > rest {
            nodes[n - 1].timestamp
        } else {
            rest
        }
    }
}

/// The number of points in time from 0 to the latest of the nodes.
pub open spec fn time_count(nodes: Seq<ExportableNodeModel>) -> int {
    if latest_of(nodes, nodes.len()) < 0 {
        0
    } else {
        latest_of(nodes, nodes.len()) + 1
    }
}

/// The number of parts of the paths of the first `n` nodes.
pub open spec fn path_parts(nodes: Seq<ExportableNodeModel>, n: nat) -> nat
    decreases n,
{
    if n == 0 {
        0
    } else {
        path_parts(nodes, (n - 1) as nat) + nodes[n - 1].instance_path.len()
    }
}

/// Whether each node belongs to a group that some node calls for.
pub open spec fn paths_lead_to_groups(nodes: Seq<ExportableNodeModel>) -> bool {
    forall|v: int|
        0 <= v < nodes.len() && (#[trigger] nodes[v]).timestamp >= 0 ==> {
            let path = without_empty(nodes[v].instance_path);
            path.len() == 0 || wanted(nodes, nodes[v].timestamp as int, path)
        }
}

/// Whether the outermost groups are listed, one for each point in time.
pub open spec fn roots_ok(groups: Seq<GroupModel>, roots: Seq<usize>) -> bool {
    forall|t: int|
        0 <= t < roots.len() ==> (#[trigger] roots[t]) < groups.len() && stands_for(
            groups[roots[t] as int],
            t,
            Seq::empty(),
        )
}

/// Whether the groups of each point in time come before those of the next.
pub open spec fn times_in_order(groups: Seq<GroupModel>) -> bool {
    forall|i: int, j: int|
        0 <= i < j < groups.len() ==> time_of(#[trigger] groups[i]) <= time_of(
            #[trigger] groups[j],
        )
}

/// Whether a hierarchy is that of a list of nodes.
pub open spec fn is_hierarchy_of(
    groups: Seq<GroupModel>,
    roots: Seq<usize>,
    lookup: Map<usize, usize>,
    nodes: Seq<ExportableNodeModel>,
) -> bool {
    &&& trees_ok(groups, 5 * nodes.len() as int)
    &&& roots.len() == time_count(nodes)
    &&& roots_ok(groups, roots)
    &&& forall|time: int, path: Seq<Seq<char>>| #[trigger]
        has_group(groups, time, path) <==> 0 <= time < roots.len() && (path.len() == 0 || wanted(
            nodes,
            time,
            path,
        ))
    &&& times_in_order(groups)
    &&& shortest_first(groups, nodes)
    &&& forall|i: int|
        0 <= i < groups.len() ==> (#[trigger] groups[i]).node_indices == members(
            nodes,
            nodes.len(),
            time_of(groups[i]) as int,
            path_of(groups[i]),
        )
    &&& forall|v: usize| #[trigger]
        lookup.contains_key(v) <==> v < nodes.len() && nodes[v as int].timestamp >= 0
    &&& forall|v: usize| #[trigger]
        lookup.contains_key(v) ==> lookup[v] < groups.len() && stands_for(
            groups[lookup[v] as int],
            nodes[v as int].timestamp as int,
            without_empty(nodes[v as int].instance_path),
        )
}

/// Whether a node has been seen by the time the nodes with paths shorter than `depth` at `time`,
/// and the first `k` of those with `depth` parts, have been gone through.
spec fn seen(node: ExportableNodeModel, v: int, time: int, depth: int, k: int) -> bool {
    ||| 0 <= node.timestamp < time
    ||| node.timestamp == time && (node.instance_path.len() < depth || (node.instance_path.len()
        == depth && v < k))
}

/// The number of parts of the paths of those of the first `n` nodes that have been seen.
spec fn seen_parts(
    nodes: Seq<ExportableNodeModel>,
    time: int,
    depth: int,
    k: int,
    n: nat,
) -> nat
    decreases n,
{
    if n == 0 {
        0
    } else {
        seen_parts(nodes, time, depth, k, (n - 1) as nat) + (if seen(
            nodes[n - 1],
            n - 1,
            time,
            depth,
            k,
        ) {
            nodes[n - 1].instance_path.len()
        } else {
            0
        })
    }
}

proof fn seen_parts_step(nodes: Seq<ExportableNodeModel>, time: int, depth: int, k: int, n: nat)
    requires
        0 <= k < nodes.len(),
        n <= nodes.len(),
    ensures
        seen_parts(nodes, time, depth, k + 1, n) == seen_parts(nodes, time, depth, k, n) + (if k
            < n && nodes[k].timestamp == time && nodes[k].instance_path.len() == depth && !(0
            <= nodes[k].timestamp < time) {
            nodes[k].instance_path.len()
        } else {
            0
        }),
    decreases n,
{
    if n > 0 {
        seen_parts_step(nodes, time, depth, k, (n - 1) as nat);
    }
}

proof fn seen_parts_same(
    nodes: Seq<ExportableNodeModel>,
    time: int,
    depth: int,
    k: int,
    time2: int,
    depth2: int,
    k2: int,
    n: nat,
)
    requires
        n <= nodes.len(),
        forall|v: int|
            0 <= v < n ==> seen(#[trigger] nodes[v], v, time, depth, k) == seen(
                nodes[v],
                v,
                time2,
                depth2,
                k2,
            ),
    ensures
        seen_parts(nodes, time, depth, k, n) == seen_parts(nodes, time2, depth2, k2, n),
    decreases n,
{
    if n > 0 {
        seen_parts_same(nodes, time, depth, k, time2, depth2, k2, (n - 1) as nat);
        assert(seen(nodes[n - 1], n - 1, time, depth, k) == seen(
            nodes[n - 1],
            n - 1,
            time2,
            depth2,
            k2,
        ));
    }
}

proof fn seen_parts_bound(nodes: Seq<ExportableNodeModel>, time: int, depth: int, k: int, n: nat)
    requires
        n <= nodes.len(),
    ensures
        seen_parts(nodes, time, depth, k, n) <= path_parts(nodes, n),
    decreases n,
{
    if n > 0 {
        seen_parts_bound(nodes, time, depth, k, (n - 1) as nat);
    }
}

/// What holds of a group while the groups of `time` are made.
spec fn grown_ok(
    group: GroupModel,
    nodes: Seq<ExportableNodeModel>,
    time: int,
    depth: int,
) -> bool {
    &&& 0 <= time_of(group) <= time
    &&& path_of(group).len() == 0 || wanted(nodes, time_of(group) as int, path_of(group))
    &&& time_of(group) == time && path_of(group).len() > 0 ==> wanted_within(
        nodes,
        time,
        path_of(group),
        depth,
    )
}

/// What holds of the groups while those of `time` are made.
spec fn growing(
    groups: Seq<GroupModel>,
    nodes: Seq<ExportableNodeModel>,
    offset: int,
    time: int,
    depth: int,
    k: int,
    roots: int,
) -> bool {
    &&& trees_ok(groups, offset)
    &&& groups.len() <= roots + seen_parts(nodes, time, depth, k, nodes.len())
    &&& forall|i: int| 0 <= i < groups.len() ==> grown_ok(#[trigger] groups[i], nodes, time, depth)
    &&& forall|v: int|
        0 <= v < nodes.len() && seen(#[trigger] nodes[v], v, time, depth, k) && calls_for_groups(
            nodes[v].instance_path,
        ) ==> has_group(groups, nodes[v].timestamp as int, nodes[v].instance_path)
    &&& times_in_order(groups)
    &&& shortest_first(groups, nodes)
}

/// What holds of the nodes listed in the groups once the first `k` nodes of `time` are listed.
spec fn filed(
    groups: Seq<GroupModel>,
    nodes: Seq<ExportableNodeModel>,
    time: int,
    k: int,
) -> bool {
    forall|i: int|
        0 <= i < groups.len() ==> (#[trigger] groups[i]).node_indices == members(
            nodes,
            (if time_of(groups[i]) < time {
                nodes.len()
            } else {
                k as nat
            }),
            time_of(groups[i]) as int,
            path_of(groups[i]),
        )
}

/// Growing a list of groups keeps the groups that it had.
proof fn growth_keeps_groups(
    before: Seq<GroupModel>,
    after: Seq<GroupModel>,
    time: int,
    path: Seq<Seq<char>>,
)
    requires
        grows_to(before, after),
        has_group(before, time, path),
    ensures
        has_group(after, time, path),
{
    let i = choose|i: int| 0 <= i < before.len() && stands_for(#[trigger] before[i], time, path);
    assert(after[i] == (GroupModel { children: after[i].children, ..before[i] }));
    assert(stands_for(after[i], time, path));
}

/// A path that a node calls for by then has a group.
proof fn wanted_has_group(
    groups: Seq<GroupModel>,
    nodes: Seq<ExportableNodeModel>,
    offset: int,
    time: int,
    depth: int,
    k: int,
    roots: int,
    v: int,
    path: Seq<Seq<char>>,
)
    requires
        growing(groups, nodes, offset, time, depth, k, roots),
        0 <= v < nodes.len(),
        seen(nodes[v], v, time, depth, k),
        node_wants(nodes[v], nodes[v].timestamp as int, path),
    ensures
        has_group(groups, nodes[v].timestamp as int, path),
{
    let at = nodes[v].timestamp as int;
    let i = choose|i: int|
        0 <= i < groups.len() && stands_for(#[trigger] groups[i], at, nodes[v].instance_path);
    beginnings_have_groups(groups, offset, i, path.len() as int);
}

/// Adding the groups that a node calls for keeps what holds while groups are made.
proof fn growing_continues(
    before: Seq<GroupModel>,
    after: Seq<GroupModel>,
    nodes: Seq<ExportableNodeModel>,
    offset: int,
    time: int,
    k: int,
    roots: int,
    place: int,
)
    requires
        0 <= k < nodes.len(),
        nodes[k].timestamp == time,
        time >= 0,
        calls_for_groups(nodes[k].instance_path),
        growing(before, nodes, offset, time, nodes[k].instance_path.len() as int, k, roots),
        trees_ok(after, offset),
        grows_to(before, after),
        added_for(after, before.len() as int, time, nodes[k].instance_path),
        after.len() <= before.len() + nodes[k].instance_path.len(),
        0 <= place < after.len(),
        stands_for(after[place], time, nodes[k].instance_path),
    ensures
        growing(after, nodes, offset, time, nodes[k].instance_path.len() as int, k + 1, roots),
{
    let depth = nodes[k].instance_path.len() as int;
    let path = nodes[k].instance_path;
    seen_parts_step(nodes, time, depth, k, nodes.len());
    assert forall|i: int| 0 <= i < after.len() implies grown_ok(
        #[trigger] after[i],
        nodes,
        time,
        depth,
    ) by {
        if i < before.len() {
            assert(after[i] == (GroupModel { children: after[i].children, ..before[i] }));
            assert(grown_ok(before[i], nodes, time, depth));
        } else {
            assert(time_of(after[i]) == time);
            assert(node_wants(nodes[k], time, path_of(after[i])));
        }
    }
    assert forall|v: int|
        0 <= v < nodes.len() && seen(#[trigger] nodes[v], v, time, depth, k + 1)
            && calls_for_groups(nodes[v].instance_path) implies has_group(
        after,
        nodes[v].timestamp as int,
        nodes[v].instance_path,
    ) by {
        if seen(nodes[v], v, time, depth, k) {
            growth_keeps_groups(
                before,
                after,
                nodes[v].timestamp as int,
                nodes[v].instance_path,
            );
        } else {
            assert(v == k);
        }
    }
    assert forall|i: int, j: int|
        0 <= i < j < after.len() && time_of(#[trigger] after[i]) == time_of(#[trigger] after[j])
            && path_of(after[i]).len() > 0 && path_of(after[j]).len() > 0 implies wanted_as_soon(
        nodes,
        after[i],
        after[j],
    ) by {
        if i < before.len() {
            assert(after[i] == (GroupModel { children: after[i].children, ..before[i] }));
            assert(grown_ok(before[i], nodes, time, depth));
        }
        if j < before.len() {
            assert(after[j] == (GroupModel { children: after[j].children, ..before[j] }));
            assert(wanted_as_soon(nodes, before[i], before[j]));
        } else {
            assert forall|limit: int| #[trigger]
                wanted_within(nodes, time_of(after[j]) as int, path_of(after[j]), limit) implies wanted_within(
                nodes,
                time_of(after[i]) as int,
                path_of(after[i]),
                limit,
            ) by {
                let v = choose|v: int|
                    0 <= v < nodes.len() && node_wants(
                        #[trigger] nodes[v],
                        time,
                        path_of(after[j]),
                    ) && nodes[v].instance_path.len() <= limit;
                if nodes[v].instance_path.len() < depth {
                    wanted_has_group(
                        before,
                        nodes,
                        offset,
                        time,
                        depth,
                        k,
                        roots,
                        v,
                        path_of(after[j]),
                    );
                    let e = choose|e: int|
                        0 <= e < before.len() && stands_for(
                            #[trigger] before[e],
                            time,
                            path_of(after[j]),
                        );
                    assert(after[e] == (GroupModel { children: after[e].children, ..before[e] }));
                    groups_are_distinct(after, offset, e, j);
                }
                if i >= before.len() {
                    assert(node_wants(nodes[k], time, path_of(after[i])));
                } else {
                    let w = choose|w: int|
                        0 <= w < nodes.len() && node_wants(
                            #[trigger] nodes[w],
                            time,
                            path_of(after[i]),
                        ) && nodes[w].instance_path.len() <= depth;
                    assert(node_wants(nodes[w], time, path_of(after[i])));
                }
            }
        }
    }
}

/// Once all nodes with `depth` parts have been gone through, those with one part more follow.
proof fn growing_deeper(
    groups: Seq<GroupModel>,
    nodes: Seq<ExportableNodeModel>,
    offset: int,
    time: int,
    depth: int,
    roots: int,
)
    requires
        growing(groups, nodes, offset, time, depth, nodes.len() as int, roots),
    ensures
        growing(groups, nodes, offset, time, depth + 1, 0, roots),
{
    seen_parts_same(
        nodes,
        time,
        depth,
        nodes.len() as int,
        time,
        depth + 1,
        0,
        nodes.len(),
    );
    assert forall|i: int| 0 <= i < groups.len() implies grown_ok(
        #[trigger] groups[i],
        nodes,
        time,
        depth + 1,
    ) by {
        assert(grown_ok(groups[i], nodes, time, depth));
        if time_of(groups[i]) == time && path_of(groups[i]).len() > 0 {
            let v = choose|v: int|
                0 <= v < nodes.len() && node_wants(#[trigger] nodes[v], time, path_of(groups[i]))
                    && nodes[v].instance_path.len() <= depth;
            assert(node_wants(nodes[v], time, path_of(groups[i])));
        }
    }
    assert forall|v: int|
        0 <= v < nodes.len() && seen(#[trigger] nodes[v], v, time, depth + 1, 0)
            && calls_for_groups(nodes[v].instance_path) implies has_group(
        groups,
        nodes[v].timestamp as int,
        nodes[v].instance_path,
    ) by {
        assert(seen(nodes[v], v, time, depth, nodes.len() as int));
    }
}

/// Makes the groups of a point in time, whose outermost group is there already.
fn grow_time(
    groups: &mut Vec<GraphNodeHierarchy>,
    nodes: &Vec<ExportablePDGNode>,
    root: usize,
    time: i64,
    longest: usize,
    offset: usize,
    Ghost(roots): Ghost<int>,
)
    requires
        growing(
            group_models(old(groups)@),
            node_models(nodes@),
            offset as int,
            time as int,
            0,
            0,
            roots,
        ),
        filed(group_models(old(groups)@), node_models(nodes@), time as int, 0),
        root < old(groups).len(),
        stands_for(old(groups)@[root as int]@, time as int, Seq::empty()),
        time >= 0,
        offset + roots + path_parts(node_models(nodes@), nodes@.len()) <= usize::MAX,
        longest < usize::MAX,
    ensures
        growing(
            group_models(final(groups)@),
            node_models(nodes@),
            offset as int,
            time as int,
            longest + 1,
            0,
            roots,
        ),
        filed(group_models(final(groups)@), node_models(nodes@), time as int, 0),
        grows_to(group_models(old(groups)@), group_models(final(groups)@)),
{
    let ghost start = group_models(groups@);
    let ghost models = node_models(nodes@);
    let mut depth: usize = 0;
    while depth <= longest
        invariant
            depth <= longest + 1,
            longest < usize::MAX,
            start == group_models(old(groups)@),
            models == node_models(nodes@),
            growing(
                group_models(groups@),
                models,
                offset as int,
                time as int,
                depth as int,
                0,
                roots,
            ),
            filed(group_models(groups@), models, time as int, 0),
            grows_to(start, group_models(groups@)),
            root < start.len(),
            stands_for(start[root as int], time as int, Seq::empty()),
            time >= 0,
            offset + roots + path_parts(models, nodes@.len()) <= usize::MAX,
        decreases longest + 1 - depth,
    {
        let mut k: usize = 0;
        while k < nodes.len()
            invariant
                k <= nodes.len(),
                start == group_models(old(groups)@),
                models == node_models(nodes@),
                growing(
                    group_models(groups@),
                    models,
                    offset as int,
                    time as int,
                    depth as int,
                    k as int,
                    roots,
                ),
                filed(group_models(groups@), models, time as int, 0),
                grows_to(start, group_models(groups@)),
                root < start.len(),
                stands_for(start[root as int], time as int, Seq::empty()),
                time >= 0,
                offset + roots + path_parts(models, nodes@.len()) <= usize::MAX,
            decreases nodes.len() - k,
        {
            let ghost here = group_models(groups@);
            let node: &ExportablePDGNode = &nodes[k];
            assert(models[k as int] == node@);
            proof {
                seen_parts_step(models, time as int, depth as int, k as int, models.len());
                seen_parts_bound(models, time as int, depth as int, k + 1, models.len());
            }
            let parts: usize = node.instance_path.len();
            if node.timestamp == time && parts == depth && parts > 0
                && node.instance_path[parts - 1].as_str().unicode_len() > 0 {
                assert(here[root as int] == (GroupModel {
                    children: here[root as int].children,
                    ..start[root as int]
                }));
                assert(here[root as int] == groups@[root as int]@);
                let place: usize = ensure_path(groups, root, &node.instance_path, offset);
                proof {
                    let now = group_models(groups@);
                    assert(now[place as int] == groups@[place as int]@);
                    growing_continues(
                        here,
                        now,
                        models,
                        offset as int,
                        time as int,
                        k as int,
                        roots,
                        place as int,
                    );
                    assert forall|i: int| 0 <= i < now.len() implies (
                    #[trigger] now[i]).node_indices == members(
                        models,
                        (if time_of(now[i]) < time {
                            models.len()
                        } else {
                            0
                        }),
                        time_of(now[i]) as int,
                        path_of(now[i]),
                    ) by {
                        if i < here.len() {
                            assert(now[i] == (GroupModel { children: now[i].children, ..here[i] }));
                            assert(here[i].node_indices == members(
                                models,
                                (if time_of(here[i]) < time {
                                    models.len()
                                } else {
                                    0
                                }),
                                time_of(here[i]) as int,
                                path_of(here[i]),
                            ));
                        }
                    }
                    assert forall|i: int| 0 <= i < start.len() implies (#[trigger] now[i]) == (
                    GroupModel { children: now[i].children, ..start[i] }) by {
                        assert(now[i] == (GroupModel { children: now[i].children, ..here[i] }));
                        assert(here[i] == (GroupModel { children: here[i].children, ..start[i] }));
                    }
                }
            } else {
                proof {
                    assert forall|v: int|
                        0 <= v < models.len() && seen(
                            #[trigger] models[v],
                            v,
                            time as int,
                            depth as int,
                            k + 1,
                        ) && calls_for_groups(models[v].instance_path) implies has_group(
                        here,
                        models[v].timestamp as int,
                        models[v].instance_path,
                    ) by {
                        if v == k {
                            assert(seen(models[v], v, time as int, depth as int, k as int));
                        }
                    }
                }
            }
            k = k + 1;
        }
        proof {
            growing_deeper(
                group_models(groups@),
                models,
                offset as int,
                time as int,
                depth as int,
                roots,
            );
        }
        depth = depth + 1;
    }
}

/// What holds of the table of groups once the first `k` nodes of `time` are in it.
spec fn tabled(
    lookup: Map<usize, usize>,
    groups: Seq<GroupModel>,
    nodes: Seq<ExportableNodeModel>,
    time: int,
    k: int,
) -> bool {
    &&& forall|v: usize| #[trigger]
        lookup.contains_key(v) <==> v < nodes.len() && (0 <= nodes[v as int].timestamp < time || (
        nodes[v as int].timestamp == time && v < k))
    &&& forall|v: usize| #[trigger]
        lookup.contains_key(v) ==> lookup[v] < groups.len() && stands_for(
            groups[lookup[v] as int],
            nodes[v as int].timestamp as int,
            without_empty(nodes[v as int].instance_path),
        )
}

/// Lists the nodes of a point in time in their groups.
fn file_time(
    groups: &mut Vec<GraphNodeHierarchy>,
    lookup: &mut HashMap<usize, usize>,
    nodes: &Vec<ExportablePDGNode>,
    root: usize,
    time: i64,
    Ghost(offset): Ghost<int>,
)
    requires
        trees_ok(group_models(old(groups)@), offset),
        filed(group_models(old(groups)@), node_models(nodes@), time as int, 0),
        tabled(
            old(lookup)@,
            group_models(old(groups)@),
            node_models(nodes@),
            time as int,
            0,
        ),
        root < old(groups).len(),
        stands_for(old(groups)@[root as int]@, time as int, Seq::empty()),
        time >= 0,
        forall|i: int|
            0 <= i < old(groups).len() ==> time_of((#[trigger] group_models(old(groups)@)[i]))
                <= time,
        forall|v: int|
            0 <= v < nodes.len() && (#[trigger] node_models(nodes@)[v]).timestamp == time
                ==> has_group(
                group_models(old(groups)@),
                time as int,
                without_empty(node_models(nodes@)[v].instance_path),
            ),
    ensures
        same_trees(group_models(old(groups)@), group_models(final(groups)@)),
        trees_ok(group_models(final(groups)@), offset),
        filed(
            group_models(final(groups)@),
            node_models(nodes@),
            time as int,
            nodes.len() as int,
        ),
        tabled(
            final(lookup)@,
            group_models(final(groups)@),
            node_models(nodes@),
            time as int,
            nodes.len() as int,
        ),
{
    let ghost start = group_models(groups@);
    let ghost models = node_models(nodes@);
    let mut k: usize = 0;
    while k < nodes.len()
        invariant
            k <= nodes.len(),
            start == group_models(old(groups)@),
            models == node_models(nodes@),
            same_trees(start, group_models(groups@)),
            trees_ok(group_models(groups@), offset),
            filed(group_models(groups@), models, time as int, k as int),
            tabled(lookup@, group_models(groups@), models, time as int, k as int),
            root < start.len(),
            stands_for(start[root as int], time as int, Seq::empty()),
            time >= 0,
            forall|i: int| 0 <= i < start.len() ==> time_of((#[trigger] start[i])) <= time,
            forall|v: int|
                0 <= v < models.len() && (#[trigger] models[v]).timestamp == time ==> has_group(
                    start,
                    time as int,
                    without_empty(models[v].instance_path),
                ),
        decreases nodes.len() - k,
    {
        let ghost here = group_models(groups@);
        let ghost table = lookup@;
        assert(models[k as int] == nodes@[k as int]@);
        if nodes[k].timestamp == time {
            let ghost path = without_empty(models[k as int].instance_path);
            proof {
                assert(here[root as int] == groups@[root as int]@);
                let i = choose|i: int|
                    0 <= i < start.len() && stands_for(#[trigger] start[i], time as int, path);
                assert(here[i] == (GroupModel { node_indices: here[i].node_indices, ..start[i] }));
                assert(stands_for(here[i], time as int, path));
            }
            let place: usize = descend_path(
                groups,
                root,
                &nodes[k].instance_path,
                Ghost(offset),
            );
            assert(here[place as int] == groups@[place as int]@);
            groups[place].node_indices.push(k);
            lookup.insert(k, place);
            proof {
                let now = group_models(groups@);
                assert forall|i: int| 0 <= i < here.len() implies (#[trigger] now[i]) == (
                GroupModel { node_indices: now[i].node_indices, ..here[i] }) by {
                    if i != place {
                        assert(now[i] == here[i]);
                    }
                }
                assert(same_trees(here, now));
                trees_stay_ok(here, now, offset);
                assert forall|i: int| 0 <= i < start.len() implies (#[trigger] now[i]) == (
                GroupModel { node_indices: now[i].node_indices, ..start[i] }) by {
                    assert(now[i] == (GroupModel { node_indices: now[i].node_indices, ..here[i] }));
                }
                assert forall|i: int| 0 <= i < now.len() implies (#[trigger] now[i]).node_indices
                    == members(
                    models,
                    (if time_of(now[i]) < time {
                        models.len()
                    } else {
                        (k + 1) as nat
                    }),
                    time_of(now[i]) as int,
                    path_of(now[i]),
                ) by {
                    assert(now[i] == (GroupModel { node_indices: now[i].node_indices, ..here[i] }));
                    assert(time_of(start[i]) <= time);
                    assert(here[i].node_indices == members(
                        models,
                        (if time_of(here[i]) < time {
                            models.len()
                        } else {
                            k as nat
                        }),
                        time_of(here[i]) as int,
                        path_of(here[i]),
                    ));
                    if i == place {
                        assert(now[i].node_indices == here[i].node_indices.push(k));
                    } else {
                        assert(now[i] == here[i]);
                        if time_of(now[i]) == time && belongs(
                            models[k as int],
                            time as int,
                            path_of(now[i]),
                        ) {
                            groups_are_distinct(here, offset, i, place as int);
                        }
                    }
                }
                assert forall|v: usize| #[trigger] lookup@.contains_key(v) implies lookup@[v]
                    < now.len() && stands_for(
                    now[lookup@[v] as int],
                    models[v as int].timestamp as int,
                    without_empty(models[v as int].instance_path),
                ) by {
                    if v == k {
                        assert(now[place as int].pdg_node == here[place as int].pdg_node);
                    } else {
                        assert(table.contains_key(v));
                        let g = table[v] as int;
                        assert(now[g] == (GroupModel {
                            node_indices: now[g].node_indices,
                            ..here[g]
                        }));
                    }
                }
            }
        } else {
            proof {
                assert forall|i: int| 0 <= i < here.len() implies (#[trigger] here[i]).node_indices
                    == members(
                    models,
                    (if time_of(here[i]) < time {
                        models.len()
                    } else {
                        (k + 1) as nat
                    }),
                    time_of(here[i]) as int,
                    path_of(here[i]),
                ) by {
                    assert(here[i] == (GroupModel {
                        node_indices: here[i].node_indices,
                        ..start[i]
                    }));
                    assert(time_of(start[i]) <= time);
                }
            }
        }
        k = k + 1;
    }
}

/// Once the groups of a point in time are made and its nodes are listed in them, those of the next
/// point in time follow.
proof fn growing_later(
    made: Seq<GroupModel>,
    listed: Seq<GroupModel>,
    nodes: Seq<ExportableNodeModel>,
    offset: int,
    time: int,
    depth: int,
    roots: int,
)
    requires
        growing(made, nodes, offset, time, depth, 0, roots),
        same_trees(made, listed),
        trees_ok(listed, offset),
        time >= 0,
        forall|v: int|
            0 <= v < nodes.len() ==> (#[trigger] nodes[v]).instance_path.len() < depth,
    ensures
        growing(listed, nodes, offset, time + 1, 0, 0, roots),
        forall|i: int| 0 <= i < listed.len() ==> time_of(#[trigger] listed[i]) <= time,
{
    assert forall|v: int| 0 <= v < nodes.len() implies seen(#[trigger] nodes[v], v, time, depth, 0)
        == seen(nodes[v], v, time + 1, 0, 0) by {}
    seen_parts_same(nodes, time, depth, 0, time + 1, 0, 0, nodes.len());
    assert forall|i: int| 0 <= i < listed.len() implies grown_ok(
        #[trigger] listed[i],
        nodes,
        time + 1,
        0,
    ) && time_of(listed[i]) <= time by {
        assert(listed[i] == (GroupModel { node_indices: listed[i].node_indices, ..made[i] }));
        assert(grown_ok(made[i], nodes, time, depth));
    }
    assert forall|v: int|
        0 <= v < nodes.len() && seen(#[trigger] nodes[v], v, time + 1, 0, 0) && calls_for_groups(
            nodes[v].instance_path,
        ) implies has_group(listed, nodes[v].timestamp as int, nodes[v].instance_path) by {
        let at = nodes[v].timestamp as int;
        let path = nodes[v].instance_path;
        assert(seen(nodes[v], v, time, depth, 0));
        let i = choose|i: int| 0 <= i < made.len() && stands_for(#[trigger] made[i], at, path);
        assert(listed[i] == (GroupModel { node_indices: listed[i].node_indices, ..made[i] }));
        assert(stands_for(listed[i], at, path));
    }
    assert forall|i: int, j: int|
        0 <= i < j < listed.len() && time_of(#[trigger] listed[i]) == time_of(#[trigger] listed[j])
            && path_of(listed[i]).len() > 0 && path_of(listed[j]).len() > 0 implies wanted_as_soon(
        nodes,
        listed[i],
        listed[j],
    ) by {
        assert(listed[i] == (GroupModel { node_indices: listed[i].node_indices, ..made[i] }));
        assert(listed[j] == (GroupModel { node_indices: listed[j].node_indices, ..made[j] }));
        assert(wanted_as_soon(nodes, made[i], made[j]));
    }
}

/// No node is later than the latest.
proof fn latest_is_last(nodes: Seq<ExportableNodeModel>, n: nat, v: int)
    requires
        0 <= v < n <= nodes.len(),
    ensures
        nodes[v].timestamp <= latest_of(nodes, n),
    decreases n,
{
    if n > 1 && v < n - 1 {
        latest_is_last(nodes, (n - 1) as nat, v);
    }
}

/// The latest point in time of the nodes.
pub(crate) fn latest_time(nodes: &Vec<ExportablePDGNode>) -> (r: i64)
    requires
        nodes.len() > 0,
    ensures
        r == latest_of(node_models(nodes@), nodes@.len()),
{
    let ghost models = node_models(nodes@);
    let mut latest: i64 = nodes[0].timestamp;
    let mut k: usize = 1;
    while k < nodes.len()
        invariant
            1 <= k <= nodes.len(),
            models == node_models(nodes@),
            latest == latest_of(models, k as nat),
        decreases nodes.len() - k,
    {
        assert(models[k as int] == nodes@[k as int]@);
        if nodes[k].timestamp > latest {
            latest = nodes[k].timestamp;
        }
        k = k + 1;
    }
    latest
}

/// The number of parts of the longest path of the nodes.
fn longest_path(nodes: &Vec<ExportablePDGNode>) -> (r: usize)
    ensures
        forall|v: int|
            0 <= v < nodes.len() ==> (#[trigger] node_models(nodes@)[v]).instance_path.len() <= r,
        r <= path_parts(node_models(nodes@), nodes@.len()),
{
    let ghost models = node_models(nodes@);
    let mut longest: usize = 0;
    let mut k: usize = 0;
    while k < nodes.len()
        invariant
            k <= nodes.len(),
            models == node_models(nodes@),
            forall|v: int| 0 <= v < k ==> (#[trigger] models[v]).instance_path.len() <= longest,
            longest <= path_parts(models, k as nat),
        decreases nodes.len() - k,
    {
        assert(models[k as int] == nodes@[k as int]@);
        let parts: usize = nodes[k].instance_path.len();
        if parts > longest {
            longest = parts;
        }
        k = k + 1;
    }
    longest
}

/// What holds once the groups before `time` are made and their nodes are listed.
spec fn built(
    groups: Seq<GroupModel>,
    roots: Seq<usize>,
    lookup: Map<usize, usize>,
    nodes: Seq<ExportableNodeModel>,
    offset: int,
    time: int,
) -> bool {
    &&& growing(groups, nodes, offset, time, 0, 0, time)
    &&& forall|i: int| 0 <= i < groups.len() ==> time_of(#[trigger] groups[i]) < time
    &&& filed(groups, nodes, time, 0)
    &&& tabled(lookup, groups, nodes, time, 0)
    &&& roots.len() == time
    &&& roots_ok(groups, roots)
}

/// The outermost group of a point in time is where its groups start.
proof fn root_starts_time(
    before: Seq<GroupModel>,
    roots: Seq<usize>,
    lookup: Map<usize, usize>,
    nodes: Seq<ExportableNodeModel>,
    offset: int,
    time: i64,
)
    requires
        built(before, roots, lookup, nodes, offset, time as int),
        trees_ok(with_root(before, time, offset), offset),
        time >= 0,
    ensures
        growing(with_root(before, time, offset), nodes, offset, time as int, 0, 0, time + 1),
        filed(with_root(before, time, offset), nodes, time as int, 0),
        tabled(lookup, with_root(before, time, offset), nodes, time as int, 0),
        roots_ok(with_root(before, time, offset), roots.push(before.len() as usize)),
        stands_for(with_root(before, time, offset)[before.len() as int], time as int, Seq::empty()),
{
    let rooted = with_root(before, time, offset);
    let all = roots.push(before.len() as usize);
    assert forall|i: int| 0 <= i < before.len() implies #[trigger] rooted[i] == before[i] by {}
    assert forall|i: int| 0 <= i < rooted.len() implies grown_ok(
        #[trigger] rooted[i],
        nodes,
        time as int,
        0,
    ) by {
        if i < before.len() {
            assert(grown_ok(before[i], nodes, time as int, 0));
        }
    }
    assert(grows_to(before, rooted));
    assert forall|v: int|
        0 <= v < nodes.len() && seen(#[trigger] nodes[v], v, time as int, 0, 0)
            && calls_for_groups(nodes[v].instance_path) implies has_group(
        rooted,
        nodes[v].timestamp as int,
        nodes[v].instance_path,
    ) by {
        growth_keeps_groups(
            before,
            rooted,
            nodes[v].timestamp as int,
            nodes[v].instance_path,
        );
    }
    assert forall|t: int| 0 <= t < all.len() implies (#[trigger] all[t]) < rooted.len()
        && stands_for(rooted[all[t] as int], t, Seq::empty()) by {
        if t < roots.len() {
            assert(all[t] == roots[t]);
        }
    }
}

/// Growing a list of groups keeps the tables that point into it.
proof fn growth_keeps_tables(
    before: Seq<GroupModel>,
    after: Seq<GroupModel>,
    roots: Seq<usize>,
    lookup: Map<usize, usize>,
    nodes: Seq<ExportableNodeModel>,
    time: int,
)
    requires
        grows_to(before, after),
        roots_ok(before, roots),
        tabled(lookup, before, nodes, time, 0),
    ensures
        roots_ok(after, roots),
        tabled(lookup, after, nodes, time, 0),
        forall|i: int|
            0 <= i < before.len() ==> (#[trigger] after[i]).pdg_node == before[i].pdg_node,
{
    assert forall|i: int| 0 <= i < before.len() implies (#[trigger] after[i]).pdg_node
        == before[i].pdg_node by {
        assert(after[i] == (GroupModel { children: after[i].children, ..before[i] }));
    }
    assert forall|v: usize| #[trigger] lookup.contains_key(v) implies lookup[v] < after.len()
        && stands_for(
        after[lookup[v] as int],
        nodes[v as int].timestamp as int,
        without_empty(nodes[v as int].instance_path),
    ) by {}
}

/// Every node of a point in time has its group once the groups are made.
proof fn nodes_have_groups(
    made: Seq<GroupModel>,
    nodes: Seq<ExportableNodeModel>,
    offset: int,
    time: int,
    depth: int,
    roots: int,
    root: int,
)
    requires
        growing(made, nodes, offset, time, depth, 0, roots),
        paths_lead_to_groups(nodes),
        time >= 0,
        forall|v: int|
            0 <= v < nodes.len() ==> (#[trigger] nodes[v]).instance_path.len() < depth,
        0 <= root < made.len(),
        stands_for(made[root], time, Seq::empty()),
    ensures
        forall|i: int| 0 <= i < made.len() ==> time_of(#[trigger] made[i]) <= time,
        forall|v: int|
            0 <= v < nodes.len() && (#[trigger] nodes[v]).timestamp == time ==> has_group(
                made,
                time,
                without_empty(nodes[v].instance_path),
            ),
{
    assert forall|i: int| 0 <= i < made.len() implies time_of(#[trigger] made[i]) <= time by {
        assert(grown_ok(made[i], nodes, time, depth));
    }
    assert forall|v: int|
        0 <= v < nodes.len() && (#[trigger] nodes[v]).timestamp == time implies has_group(
        made,
        time,
        without_empty(nodes[v].instance_path),
    ) by {
        let path = without_empty(nodes[v].instance_path);
        if path.len() == 0 {
            assert(path =~= Seq::empty());
            assert(stands_for(made[root], time, path));
        } else {
            let w = choose|w: int|
                0 <= w < nodes.len() && node_wants(#[trigger] nodes[w], time, path);
            wanted_has_group(made, nodes, offset, time, depth, 0, roots, w, path);
        }
    }
}

/// Listing nodes in groups keeps the outermost groups.
proof fn listing_keeps_roots(made: Seq<GroupModel>, listed: Seq<GroupModel>, roots: Seq<usize>)
    requires
        same_trees(made, listed),
        roots_ok(made, roots),
    ensures
        roots_ok(listed, roots),
{
    assert forall|t: int| 0 <= t < roots.len() implies (#[trigger] roots[t]) < listed.len()
        && stands_for(listed[roots[t] as int], t, Seq::empty()) by {
        let g = roots[t] as int;
        assert(listed[g] == (GroupModel { node_indices: listed[g].node_indices, ..made[g] }));
    }
}

/// Builds the groups of a graph.
///
/// For each point in time from 0 to the latest, there is an outermost group, `top`, which is
/// expanded, and below it a collapsed group for each module instance on the way down the paths
/// of the nodes. A node belongs to the group that its path leads to, empty parts left out.
pub fn build_node_hierarchy(dpdg: &ExportablePDG) -> (r: NodeHierarchy)
    requires
        dpdg.vertices.len() > 0,
        paths_lead_to_groups(node_models(dpdg.vertices@)),
        5 * dpdg.vertices.len() + time_count(node_models(dpdg.vertices@)) + path_parts(
            node_models(dpdg.vertices@),
            dpdg.vertices@.len(),
        ) <= usize::MAX,
    ensures
        is_hierarchy_of(
            group_models(r.groups@),
            r.roots@,
            r.lookup@,
            node_models(dpdg.vertices@),
        ),
{
    let ghost models = node_models(dpdg.vertices@);
    let latest: i64 = latest_time(&dpdg.vertices);
    let longest: usize = longest_path(&dpdg.vertices);
    let offset: usize = dpdg.vertices.len() * 5;
    let count: usize = if latest < 0 {
        0
    } else {
        latest as usize + 1
    };
    let mut groups: Vec<GraphNodeHierarchy> = Vec::new();
    let mut roots: Vec<usize> = Vec::new();
    let mut lookup: HashMap<usize, usize> = HashMap::new();
    proof {
        assert forall|v: int| 0 <= v < models.len() implies !seen(
            #[trigger] models[v],
            v,
            0,
            0,
            0,
        ) by {}
        assert(lookup@ =~= Map::empty());
    }
    let mut time: usize = 0;
    while time < count
        invariant
            time <= count,
            count == time_count(models),
            count <= i64::MAX + 1,
            models == node_models(dpdg.vertices@),
            offset == 5 * dpdg.vertices.len(),
            offset > 0,
            paths_lead_to_groups(models),
            offset + count + path_parts(models, models.len()) <= usize::MAX,
            forall|v: int|
                0 <= v < models.len() ==> (#[trigger] models[v]).instance_path.len() <= longest,
            longest <= path_parts(models, models.len()),
            built(
                group_models(groups@),
                roots@,
                lookup@,
                models,
                offset as int,
                time as int,
            ),
        decreases count - time,
    {
        let ghost before = group_models(groups@);
        let now: i64 = time as i64;
        proof {
            seen_parts_bound(models, time as int, 0, 0, models.len());
        }
        let root: usize = groups.len();
        add_root(&mut groups, now, offset);
        roots.push(root);
        proof {
            root_starts_time(before, roots@.drop_last(), lookup@, models, offset as int, now);
            assert(roots@ =~= roots@.drop_last().push(root));
        }
        let ghost rooted = group_models(groups@);
        assert(rooted[root as int] == groups@[root as int]@);
        grow_time(&mut groups, &dpdg.vertices, root, now, longest, offset, Ghost(time + 1));
        let ghost made = group_models(groups@);
        assert(made[root as int] == groups@[root as int]@);
        proof {
            growth_keeps_tables(rooted, made, roots@, lookup@, models, time as int);
            nodes_have_groups(
                made,
                models,
                offset as int,
                time as int,
                longest + 1,
                time + 1,
                root as int,
            );
        }
        file_time(&mut groups, &mut lookup, &dpdg.vertices, root, now, Ghost(offset as int));
        proof {
            let listed = group_models(groups@);
            growing_later(
                made,
                listed,
                models,
                offset as int,
                time as int,
                longest + 1,
                time + 1,
            );
            listing_keeps_roots(made, listed, roots@);
            assert forall|i: int| 0 <= i < listed.len() implies (#[trigger] listed[i]).node_indices
                == members(
                models,
                (if time_of(listed[i]) < time + 1 {
                    models.len()
                } else {
                    0
                }),
                time_of(listed[i]) as int,
                path_of(listed[i]),
            ) by {
                assert(time_of(listed[i]) <= time);
            }
        }
        time = time + 1;
    }
    proof {
        let all = group_models(groups@);
        assert forall|v: int| 0 <= v < models.len() implies (#[trigger] models[v]).timestamp
            < count by {
            latest_is_last(models, models.len(), v);
        }
        assert forall|at: int, path: Seq<Seq<char>>| #[trigger] has_group(all, at, path) <==> 0
            <= at < roots.len() && (path.len() == 0 || wanted(models, at, path)) by {
            if has_group(all, at, path) {
                let i = choose|i: int| 0 <= i < all.len() && stands_for(#[trigger] all[i], at, path);
                assert(grown_ok(all[i], models, time as int, 0));
            }
            if 0 <= at < roots.len() && path.len() == 0 {
                assert(path =~= Seq::empty());
                assert(stands_for(all[roots@[at] as int], at, path));
            }
            if 0 <= at < roots.len() && wanted(models, at, path) {
                let w = choose|w: int|
                    0 <= w < models.len() && node_wants(#[trigger] models[w], at, path);
                wanted_has_group(
                    all,
                    models,
                    offset as int,
                    time as int,
                    0,
                    0,
                    time as int,
                    w,
                    path,
                );
            }
        }
    }
    NodeHierarchy { groups, roots, lookup }
}

} // verus!
