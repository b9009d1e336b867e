//! Tells whether data from outside is what the library asks for.

use vstd::prelude::*;

use crate::activation::{branch_refs_ok, node_refs_ok, refs_ok};
use crate::graph_building::{can_be_grouped, one_later};
use crate::groups::{path_begins, without_empty};
use crate::hierarchy::{
    latest_of, latest_time, node_wants, path_parts, paths_lead_to_groups, time_count, wanted,
};
use crate::pdg_spec::{
    node_models, CFGSpecBranch, CFGSpecNode, ExportableNodeModel, ExportablePDG, ExportablePDGNode,
    PDGSpec,
};
use crate::static_graph::edges_join;
use crate::text::texts;

verus! {

/// Whether a static graph is in order: its edges join statements, and its control flow refers to
/// statements and predicates that exist.
pub open spec fn pdg_ok(pdg: PDGSpec) -> bool {
    &&& pdg.vertices@.len() <= 0x1_0000_0000
    &&& edges_join(pdg.edges@, pdg.vertices@.len())
    &&& refs_ok(pdg.cfg@, pdg.vertices@.len(), pdg.predicates@.len())
}

/// Whether a graph can be shown, with or without groups.
pub open spec fn viewable(dpdg: ExportablePDG, group_nodes: bool) -> bool {
    &&& forall|i: int|
        0 <= i < dpdg.vertices@.len() ==> (#[trigger] dpdg.vertices@[i]).timestamp < i64::MAX
    &&& group_nodes ==> can_be_grouped(one_later(node_models(dpdg.vertices@)), dpdg.edges@)
}

/// Tells whether what a list of control flow nodes refers to exists.
fn check_refs(nodes: &Vec<CFGSpecNode>, stmts: usize, preds: usize) -> (r: bool)
    ensures
        r == refs_ok(nodes@, stmts as nat, preds as nat),
    decreases nodes,
{
    let mut i: usize = 0;
    while i < nodes.len()
        invariant
            i <= nodes.len(),
            forall|k: int|
                0 <= k < i ==> node_refs_ok(#[trigger] nodes@[k], stmts as nat, preds as nat),
        decreases nodes.len() - i,
    {
        assert(decreases_to!(nodes => nodes@[i as int]));
        if !check_node_refs(&nodes[i], stmts, preds) {
            assert(!node_refs_ok(nodes@[i as int], stmts as nat, preds as nat));
            return false;
        }
        i = i + 1;
    }
    true
}

/// Tells whether what a control flow node refers to exists.
fn check_node_refs(node: &CFGSpecNode, stmts: usize, preds: usize) -> (r: bool)
    ensures
        r == node_refs_ok(*node, stmts as nat, preds as nat),
    decreases node,
{
    if node.stmt_ref as u64 >= stmts as u64 {
        return false;
    }
    if let Some(p) = node.pred_stmt_ref {
        if p as u64 >= preds as u64 {
            return false;
        }
    }
    if let Some(inner) = &node.true_branch {
        if !check_refs(inner, stmts, preds) {
            return false;
        }
    }
    if let Some(inner) = &node.false_branch {
        if !check_refs(inner, stmts, preds) {
            return false;
        }
    }
    if let Some(inner) = &node.default_branch {
        if !check_refs(inner, stmts, preds) {
            return false;
        }
    }
    if let Some(branches) = &node.branches {
        return check_branch_refs(branches, stmts, preds);
    }
    true
}

/// Tells whether what a list of branches refers to exists.
fn check_branch_refs(branches: &Vec<CFGSpecBranch>, stmts: usize, preds: usize) -> (r: bool)
    ensures
        r == branch_refs_ok(branches@, stmts as nat, preds as nat),
    decreases branches,
{
    let mut i: usize = 0;
    while i < branches.len()
        invariant
            i <= branches.len(),
            forall|k: int|
                0 <= k < i ==> refs_ok((#[trigger] branches@[k]).stmts@, stmts as nat, preds as nat),
        decreases branches.len() - i,
    {
        assert(decreases_to!(branches => branches@[i as int]));
        assert(decreases_to!(branches@[i as int] => branches@[i as int].stmts));
        if !check_refs(&branches[i].stmts, stmts, preds) {
            assert(!refs_ok(branches@[i as int].stmts@, stmts as nat, preds as nat));
            return false;
        }
        i = i + 1;
    }
    true
}

/// Tells whether a static graph is in order.
pub fn check_pdg(pdg: &PDGSpec) -> (r: bool)
    ensures
        r == pdg_ok(*pdg),
{
    let count: usize = pdg.vertices.len();
    if count as u64 > 0x1_0000_0000 {
        return false;
    }
    let mut i: usize = 0;
    while i < pdg.edges.len()
        invariant
            i <= pdg.edges.len(),
            count == pdg.vertices@.len(),
            forall|k: int|
                0 <= k < i ==> ((#[trigger] pdg.edges@[k]).from < count <==> pdg.edges@[k].to
                    < count),
        decreases pdg.edges.len() - i,
    {
        let leaves: bool = (pdg.edges[i].from as u64) < count as u64;
        let enters: bool = (pdg.edges[i].to as u64) < count as u64;
        if leaves != enters {
            assert(!(pdg.edges@[i as int].from < count <==> pdg.edges@[i as int].to < count));
            return false;
        }
        i = i + 1;
    }
    check_refs(&pdg.cfg, count, pdg.predicates.len())
}

/// Leaves out the empty parts of a path.
fn strip_empty(path: &Vec<String>) -> (r: Vec<String>)
    ensures
        texts(r@) == without_empty(texts(path@)),
{
    let ghost whole = texts(path@);
    let mut parts: Vec<String> = Vec::new();
    let mut i: usize = 0;
    assert(texts(parts@) =~= without_empty(whole.take(0)));
    while i < path.len()
        invariant
            i <= path.len(),
            whole == texts(path@),
            texts(parts@) == without_empty(whole.take(i as int)),
        decreases path.len() - i,
    {
        let ghost before = texts(parts@);
        assert(whole.take(i + 1).drop_last() =~= whole.take(i as int));
        assert(whole.take(i + 1).last() == path@[i as int]@);
        if path[i].as_str().unicode_len() != 0 {
            parts.push(path[i].clone());
            assert(texts(parts@) =~= before.push(path@[i as int]@));
        }
        i = i + 1;
    }
    assert(whole.take(i as int) =~= whole);
    parts
}

/// Tells whether one path begins another.
fn begins(path: &Vec<String>, whole: &Vec<String>) -> (r: bool)
    ensures
        r == path_begins(texts(path@), texts(whole@)),
{
    if path.len() > whole.len() {
        return false;
    }
    let ghost short = texts(path@);
    let ghost head = texts(whole@).take(short.len() as int);
    let mut i: usize = 0;
    while i < path.len()
        invariant
            i <= path.len() <= whole.len(),
            short == texts(path@),
            head == texts(whole@).take(short.len() as int),
            forall|k: int| 0 <= k < i ==> #[trigger] short[k] == head[k],
        decreases path.len() - i,
    {
        assert(short[i as int] == path@[i as int]@);
        assert(head[i as int] == whole@[i as int]@);
        if !(path[i] == whole[i]) {
            return false;
        }
        i = i + 1;
    }
    assert(short =~= head);
    true
}

/// Tells whether a node calls for a group for a path at the time of another node.
fn check_wants(node: &ExportablePDGNode, other: &ExportablePDGNode, path: &Vec<String>) -> (r: bool)
    ensures
        r == node_wants(node@, other.timestamp as int, texts(path@)),
{
    let parts: usize = node.instance_path.len();
    if node.timestamp != other.timestamp || parts == 0 {
        return false;
    }
    assert(node@.instance_path.last() == node.instance_path@[parts - 1]@);
    node.instance_path[parts - 1].as_str().unicode_len() > 0 && begins(path, &node.instance_path)
}

/// Counting times from one step earlier does not change which node calls for a group.
proof fn wants_one_later(nodes: Seq<ExportableNodeModel>, v: int, time: int, path: Seq<Seq<char>>)
    requires
        0 <= v < nodes.len(),
        nodes[v].timestamp < i64::MAX,
    ensures
        node_wants(one_later(nodes)[v], time + 1, path) == node_wants(nodes[v], time, path),
{
}

/// Tells whether each node belongs to a group that some node calls for, times counted from one step
/// earlier.
fn check_paths(nodes: &Vec<ExportablePDGNode>) -> (r: bool)
    requires
        forall|i: int| 0 <= i < nodes@.len() ==> (#[trigger] nodes@[i]).timestamp < i64::MAX,
    ensures
        r == paths_lead_to_groups(one_later(node_models(nodes@))),
{
    let ghost models = node_models(nodes@);
    let ghost later = one_later(models);
    let mut v: usize = 0;
    while v < nodes.len()
        invariant
            v <= nodes.len(),
            models == node_models(nodes@),
            later == one_later(models),
            forall|i: int| 0 <= i < nodes@.len() ==> (#[trigger] nodes@[i]).timestamp < i64::MAX,
            forall|i: int|
                0 <= i < v && (#[trigger] later[i]).timestamp >= 0 ==> {
                    let path = without_empty(later[i].instance_path);
                    path.len() == 0 || wanted(later, later[i].timestamp as int, path)
                },
        decreases nodes.len() - v,
    {
        let node: &ExportablePDGNode = &nodes[v];
        assert(node.timestamp < i64::MAX);
        assert(models[v as int] == node@);
        if node.timestamp >= -1 {
            let path: Vec<String> = strip_empty(&node.instance_path);
            let ghost part = texts(path@);
            let ghost time = later[v as int].timestamp as int;
            if path.len() > 0 {
                let mut found: bool = check_wants(node, node, &path);
                proof {
                    wants_one_later(models, v as int, node.timestamp as int, part);
                    if found {
                        assert(node_wants(later[v as int], time, part));
                    }
                }
                let mut w: usize = 0;
                while w < nodes.len() && !found
                    invariant
                        w <= nodes.len(),
                        v < nodes.len(),
                        models == node_models(nodes@),
                        later == one_later(models),
                        *node == nodes@[v as int],
                        part == texts(path@),
                        time == node.timestamp + 1,
                        forall|i: int|
                            0 <= i < nodes@.len() ==> (#[trigger] nodes@[i]).timestamp < i64::MAX,
                        found ==> wanted(later, time, part),
                        !found ==> forall|i: int|
                            0 <= i < w ==> !node_wants(#[trigger] later[i], time, part),
                    decreases nodes.len() - w,
                {
                    found = check_wants(&nodes[w], node, &path);
                    proof {
                        assert(nodes@[w as int].timestamp < i64::MAX);
                        assert(models[w as int] == nodes@[w as int]@);
                        wants_one_later(models, w as int, node.timestamp as int, part);
                        if found {
                            assert(node_wants(later[w as int], time, part));
                        }
                    }
                    w = w + 1;
                }
                if !found {
                    assert(!wanted(later, time, part));
                    assert(!paths_lead_to_groups(later)) by {
                        assert(later[v as int].timestamp >= 0);
                    }
                    return false;
                }
            }
        }
        v = v + 1;
    }
    true
}

/// The latest time of nodes whose times are counted from one step earlier.
proof fn latest_one_later(nodes: Seq<ExportableNodeModel>, n: nat)
    requires
        0 < n <= nodes.len(),
        forall|i: int| 0 <= i < nodes.len() ==> (#[trigger] nodes[i]).timestamp < i64::MAX,
    ensures
        latest_of(one_later(nodes), n) == latest_of(nodes, n) + 1,
        latest_of(nodes, n) < i64::MAX,
    decreases n,
{
    assert(nodes[n - 1].timestamp < i64::MAX);
    assert(nodes[0].timestamp < i64::MAX);
    if n > 1 {
        latest_one_later(nodes, (n - 1) as nat);
    }
}

/// The number of parts of paths does not depend on times, and more nodes have no fewer of them.
proof fn parts_one_later(nodes: Seq<ExportableNodeModel>, k: nat, n: nat)
    requires
        k <= n <= nodes.len(),
    ensures
        path_parts(one_later(nodes), n) == path_parts(nodes, n),
        path_parts(nodes, k) <= path_parts(nodes, n),
    decreases n,
{
    if n > 0 {
        parts_one_later(
            nodes,
            if k < n {
                k
            } else {
                (n - 1) as nat
            },
            (n - 1) as nat,
        );
    }
}

/// Tells whether the numbers of the groups of a graph fit, times counted from one step earlier.
fn check_group_numbers(nodes: &Vec<ExportablePDGNode>) -> (r: bool)
    requires
        nodes.len() > 0,
        forall|i: int| 0 <= i < nodes@.len() ==> (#[trigger] nodes@[i]).timestamp < i64::MAX,
    ensures
        r == (5 * nodes@.len() + time_count(one_later(node_models(nodes@))) + path_parts(
            one_later(node_models(nodes@)),
            nodes@.len(),
        ) <= usize::MAX),
{
    let ghost models = node_models(nodes@);
    let ghost later = one_later(models);
    let n: usize = nodes.len();
    proof {
        assert forall|i: int| 0 <= i < models.len() implies (#[trigger] models[i]).timestamp
            < i64::MAX by {
            assert(nodes@[i].timestamp < i64::MAX);
        }
        latest_one_later(models, models.len());
        parts_one_later(models, 0, models.len());
    }
    let latest: i64 = latest_time(nodes);
    let times: u128 = if latest < -1 {
        0
    } else {
        (latest + 1) as u128 + 1
    };
    assert(times == time_count(later));
    let limit: u128 = usize::MAX as u128;
    let mut sum: u128 = 5 * (n as u128) + times;
    let mut k: usize = 0;
    while k < n
        invariant
            k <= n == nodes.len(),
            models == node_models(nodes@),
            later == one_later(models),
            times == time_count(later),
            times <= i64::MAX + 1,
            path_parts(later, n as nat) == path_parts(models, n as nat),
            limit == usize::MAX,
            k > 0 ==> sum <= limit,
            sum <= 6 * 0xffff_ffff_ffff_ffff,
            sum == 5 * n + times + path_parts(models, k as nat),
        decreases n - k,
    {
        proof {
            parts_one_later(models, (k + 1) as nat, n as nat);
        }
        assert(models[k as int] == nodes@[k as int]@);
        sum = sum + nodes[k].instance_path.len() as u128;
        k = k + 1;
        if sum > limit {
            return false;
        }
    }
    sum <= limit
}

/// Tells whether a graph can be shown, with or without groups.
pub fn check_view(dpdg: &ExportablePDG, group_nodes: bool) -> (r: bool)
    ensures
        r == viewable(*dpdg, group_nodes),
{
    let ghost later = one_later(node_models(dpdg.vertices@));
    let n: usize = dpdg.vertices.len();
    let mut k: usize = 0;
    while k < n
        invariant
            k <= n == dpdg.vertices.len(),
            forall|i: int| 0 <= i < k ==> (#[trigger] dpdg.vertices@[i]).timestamp < i64::MAX,
        decreases n - k,
    {
        if dpdg.vertices[k].timestamp == i64::MAX {
            assert(!(dpdg.vertices@[k as int].timestamp < i64::MAX));
            return false;
        }
        k = k + 1;
    }
    if !group_nodes {
        return true;
    }
    if n == 0 {
        return false;
    }
    let mut k: usize = 0;
    while k < dpdg.edges.len()
        invariant
            k <= dpdg.edges.len(),
            n == dpdg.vertices.len(),
            group_nodes,
            later == one_later(node_models(dpdg.vertices@)),
            forall|i: int| 0 <= i < n ==> (#[trigger] dpdg.vertices@[i]).timestamp < i64::MAX,
            forall|i: int|
                0 <= i < k ==> {
                    &&& (#[trigger] dpdg.edges@[i]).from < later.len()
                    &&& dpdg.edges@[i].to < later.len()
                    &&& later[dpdg.edges@[i].from as int].timestamp >= 0
                    &&& later[dpdg.edges@[i].to as int].timestamp >= 0
                },
        decreases dpdg.edges.len() - k,
    {
        let edge = &dpdg.edges[k];
        assert(dpdg.edges@[k as int] == *edge);
        if edge.from as u64 >= n as u64 || edge.to as u64 >= n as u64 {
            return false;
        }
        assert(dpdg.vertices@[edge.from as int].timestamp < i64::MAX);
        assert(dpdg.vertices@[edge.to as int].timestamp < i64::MAX);
        if dpdg.vertices[edge.from as usize].timestamp < -1
            || dpdg.vertices[edge.to as usize].timestamp < -1 {
            return false;
        }
        k = k + 1;
    }
    check_paths(&dpdg.vertices) && check_group_numbers(&dpdg.vertices)
}

} // verus!
