//! What an executed statement depends on, and what takes effect when.

use vstd::prelude::*;

use crate::assignment_laws::{
    conditions_hold_where_they_are_met, guards, met, none_at_once, sets_at_once, targets,
    the_last_guard_counts, the_last_statement_counts_at_once, what_is_not_set_at_once_stays,
};
use crate::dynamic_graph::{
    at_other_time, at_time, context_of, cycle, due, edge_live, effective, immediate, nodes_after,
    not_due, passed_over, postponed, resolve_edges, schedule, settled, settles, state_after,
    target_signal, CriterionType, CycleInput, DynModel, GraphProcessingType, ResolveContext,
    Resolved, Snapshot, StaticModel, TraceModel,
};
use crate::lists::filter_push;
use crate::pdg_spec::{PDGSpecEdge, PDGSpecEdgeKind};

verus! {

/// Whether an edge counts: the mode asks for its kind, and its condition is met by the probes.
pub open spec fn counts(
    edge: PDGSpecEdge,
    mode: GraphProcessingType,
    probes: Map<Seq<char>, u64>,
) -> bool {
    &&& mode != GraphProcessingType::DataOnly || edge.kind == PDGSpecEdgeKind::Data
    &&& met(edge.condition, probes)
}

/// Whether two edges lead to statements that assign to the same signal.
pub open spec fn same_signal(graph: Seq<StaticModel>, a: PDGSpecEdge, b: PDGSpecEdge) -> bool {
    graph[a.to as int].inner.assigns_to matches Some(name) && targets(
        graph[b.to as int].inner,
        name@,
    )
}

/// Whether an edge is one on the value of a signal.
pub open spec fn on_a_value(edge: PDGSpecEdge) -> bool {
    edge.kind == PDGSpecEdgeKind::Data || edge.kind == PDGSpecEdgeKind::Index
}

/// Whether one of the first edges counts, is one on a value and leads to the same signal as an
/// edge.
pub open spec fn anticipated(
    graph: Seq<StaticModel>,
    edges: Seq<PDGSpecEdge>,
    n: int,
    edge: PDGSpecEdge,
    mode: GraphProcessingType,
    probes: Map<Seq<char>, u64>,
) -> bool {
    exists|j: int|
        0 <= j < n && counts(#[trigger] edges[j], mode, probes) && on_a_value(edges[j])
            && same_signal(graph, edges[j], edge)
}

proof fn what_is_passed_over(cx: ResolveContext, earlier: Seq<PDGSpecEdge>, edge: PDGSpecEdge)
    ensures
        passed_over(cx, earlier, edge) == (!counts(edge, cx.input.mode, cx.origin.probes)
            || anticipated(
            cx.graph,
            earlier,
            earlier.len() as int,
            edge,
            cx.input.mode,
            cx.origin.probes,
        )),
{
    let mode = cx.input.mode;
    let probes = cx.origin.probes;
    conditions_hold_where_they_are_met(edge.condition, probes);
    assert forall|j: int| 0 <= j < earlier.len() implies #[trigger] edge_live(cx, earlier[j])
        == counts(earlier[j], mode, probes) by {
        conditions_hold_where_they_are_met(earlier[j].condition, probes);
    }
    if anticipated(cx.graph, earlier, earlier.len() as int, edge, mode, probes) {
        let j = choose|j: int|
            0 <= j < earlier.len() && counts(#[trigger] earlier[j], mode, probes) && on_a_value(
                earlier[j],
            ) && same_signal(cx.graph, earlier[j], edge);
        assert(edge_live(cx, earlier[j]));
        assert(settles(cx, earlier[j], target_signal(cx, edge)->0));
    }
    if let Some(signal) = target_signal(cx, edge) {
        if settled(cx, earlier, signal) {
            let j = choose|j: int|
                0 <= j < earlier.len() && settles(cx, #[trigger] earlier[j], signal);
            assert(edge_live(cx, earlier[j]));
            assert(same_signal(cx.graph, earlier[j], edge));
        }
    }
}

/// Without edges there are no dependencies.
pub proof fn no_edges_give_nothing(cx: ResolveContext)
    ensures
        resolve_edges(cx, Seq::empty()).links.len() == 0,
        resolve_edges(cx, Seq::empty()).declared.len() == 0,
{
}

/// An edge adds nothing where it does not count, where an earlier one that counts leads to the same
/// signal by value, or where it leads to no known node.
pub proof fn an_edge_may_add_nothing(cx: ResolveContext, edges: Seq<PDGSpecEdge>, edge: PDGSpecEdge)
    ensures
        ({
            let target = cx.graph[edge.to as int].inner;
            let known = if edge.kind == PDGSpecEdgeKind::Data {
                cx.state
            } else {
                cx.origin.state
            };
            ||| !counts(edge, cx.input.mode, cx.origin.probes)
            ||| anticipated(
                cx.graph,
                edges,
                edges.len() as int,
                edge,
                cx.input.mode,
                cx.origin.probes,
            )
            ||| edge.kind == PDGSpecEdgeKind::Other
            ||| edge.kind == PDGSpecEdgeKind::Declaration && cx.input.mode
                != GraphProcessingType::Full
            ||| on_a_value(edge) && (target.assigns_to is None || !known.contains_key(
                target.assigns_to->0@,
            ))
            ||| edge.kind == PDGSpecEdgeKind::Conditional && forall|j: int|
                0 <= j < cx.stmts.len() ==> !guards(
                    cx.graph[#[trigger] cx.stmts[j] as int].inner,
                    cx.input,
                    target@,
                )
        }) ==> resolve_edges(cx, edges.push(edge)) == resolve_edges(cx, edges),
{
    let all = edges.push(edge);
    assert(all.drop_last() =~= edges);
    what_is_passed_over(cx, edges, edge);
    the_last_guard_counts(
        cx.graph,
        cx.stmts,
        cx.base,
        cx.input,
        cx.graph[edge.to as int].inner@,
        0,
    );
}

/// An edge that counts, and whose signal no earlier one gives, adds one dependency after those that
/// are there: a data edge on the node that is known for the signal now, an index edge on the one
/// that was known when the statement was initiated, an edge on control flow on the last execution
/// of the condition, and a declaration edge, in the full graph, on a node of its own.
pub proof fn an_edge_that_counts_adds_one_dependency(
    cx: ResolveContext,
    edges: Seq<PDGSpecEdge>,
    edge: PDGSpecEdge,
    i: int,
)
    requires
        counts(edge, cx.input.mode, cx.origin.probes),
        !anticipated(
            cx.graph,
            edges,
            edges.len() as int,
            edge,
            cx.input.mode,
            cx.origin.probes,
        ),
    ensures
        ({
            let target = cx.graph[edge.to as int].inner;
            let before = resolve_edges(cx, edges);
            let after = resolve_edges(cx, edges.push(edge));
            &&& edge.kind == PDGSpecEdgeKind::Data ==> (target.assigns_to matches Some(name)
                ==> cx.state.contains_key(name@) ==> after.links == before.links + seq![
                (cx.state[name@], PDGSpecEdgeKind::Data),
            ] && after.declared == before.declared)
            &&& edge.kind == PDGSpecEdgeKind::Index ==> (target.assigns_to matches Some(name)
                ==> cx.origin.state.contains_key(name@) ==> after.links == before.links + seq![
                (cx.origin.state[name@], PDGSpecEdgeKind::Index),
            ] && after.declared == before.declared)
            &&& edge.kind == PDGSpecEdgeKind::Conditional && 0 <= i < cx.stmts.len() && guards(
                cx.graph[cx.stmts[i] as int].inner,
                cx.input,
                target@,
            ) && (forall|j: int|
                i < j < cx.stmts.len() ==> !guards(
                    cx.graph[#[trigger] cx.stmts[j] as int].inner,
                    cx.input,
                    target@,
                )) ==> after.links == before.links + seq![
                ((cx.base + i) as usize, PDGSpecEdgeKind::Conditional),
            ] && after.declared == before.declared
            &&& edge.kind == PDGSpecEdgeKind::Declaration && cx.input.mode
                == GraphProcessingType::Full ==> after.links == before.links + seq![
                ((cx.next + before.declared.len()) as usize, PDGSpecEdgeKind::Declaration),
            ] && after.declared == before.declared + seq![
                DynModel {
                    inner: target,
                    timestamp: cx.input.time - 1,
                    dependencies: Seq::empty(),
                },
            ]
        }),
{
    let all = edges.push(edge);
    assert(all.drop_last() =~= edges);
    what_is_passed_over(cx, edges, edge);
    the_last_guard_counts(
        cx.graph,
        cx.stmts,
        cx.base,
        cx.input,
        cx.graph[edge.to as int].inner@,
        i,
    );
}

proof fn later_edges_remove_nothing(cx: ResolveContext, edges: Seq<PDGSpecEdge>, n: int)
    requires
        0 <= n <= edges.len(),
    ensures
        forall|link: (usize, PDGSpecEdgeKind)| #[trigger]
            resolve_edges(cx, edges.take(n)).links.contains(link) ==> resolve_edges(
                cx,
                edges,
            ).links.contains(link),
    decreases edges.len() - n,
{
    if n == edges.len() {
        assert(edges.take(n) =~= edges);
    } else {
        later_edges_remove_nothing(cx, edges, n + 1);
        let more = edges.take(n + 1);
        assert(more.drop_last() =~= edges.take(n));
        let before = resolve_edges(cx, edges.take(n)).links;
        let after = resolve_edges(cx, more).links;
        assert forall|link: (usize, PDGSpecEdgeKind)| #[trigger]
            before.contains(link) implies resolve_edges(cx, edges).links.contains(link) by {
            let k = choose|k: int| 0 <= k < before.len() && before[k] == link;
            assert(after[k] == link);
            assert(after.contains(link));
        }
    }
}

/// An edge of a list that counts, and whose signal no earlier one gives, gives its dependency,
/// whatever the other edges are. So edges on values that count and lead to different signals all
/// do.
pub proof fn every_edge_that_counts_is_followed(
    cx: ResolveContext,
    edges: Seq<PDGSpecEdge>,
    e: int,
    i: int,
)
    requires
        0 <= e < edges.len(),
        counts(edges[e], cx.input.mode, cx.origin.probes),
        !anticipated(cx.graph, edges, e, edges[e], cx.input.mode, cx.origin.probes),
    ensures
        ({
            let target = cx.graph[edges[e].to as int].inner;
            let links = resolve_edges(cx, edges).links;
            &&& edges[e].kind == PDGSpecEdgeKind::Data ==> (target.assigns_to matches Some(name)
                ==> cx.state.contains_key(name@) ==> links.contains(
                (cx.state[name@], PDGSpecEdgeKind::Data),
            ))
            &&& edges[e].kind == PDGSpecEdgeKind::Index ==> (target.assigns_to matches Some(name)
                ==> cx.origin.state.contains_key(name@) ==> links.contains(
                (cx.origin.state[name@], PDGSpecEdgeKind::Index),
            ))
            &&& edges[e].kind == PDGSpecEdgeKind::Conditional && 0 <= i < cx.stmts.len() && guards(
                cx.graph[cx.stmts[i] as int].inner,
                cx.input,
                target@,
            ) && (forall|j: int|
                i < j < cx.stmts.len() ==> !guards(
                    cx.graph[#[trigger] cx.stmts[j] as int].inner,
                    cx.input,
                    target@,
                )) ==> links.contains(((cx.base + i) as usize, PDGSpecEdgeKind::Conditional))
        }),
{
    let head = edges.take(e);
    let more = edges.take(e + 1);
    let mode = cx.input.mode;
    let probes = cx.origin.probes;
    assert(more =~= head.push(edges[e]));
    if anticipated(cx.graph, head, e, edges[e], mode, probes) {
        let j = choose|j: int|
            0 <= j < e && counts(#[trigger] head[j], mode, probes) && on_a_value(head[j])
                && same_signal(cx.graph, head[j], edges[e]);
        assert(edges[j] == head[j]);
        assert(counts(edges[j], mode, probes));
    }
    an_edge_that_counts_adds_one_dependency(cx, head, edges[e], i);
    let before = resolve_edges(cx, head).links;
    let after = resolve_edges(cx, more).links;
    if after.len() > before.len() {
        assert(after.contains(after[before.len() as int]));
    }
    later_edges_remove_nothing(cx, edges, e + 1);
}

/// What was known when a statement of a cycle was initiated: in the cycle itself, or, with a delay,
/// in the earlier cycle.
pub open spec fn initiated_with(
    graph: Seq<StaticModel>,
    trace: TraceModel,
    stmts: Seq<u32>,
    input: CycleInput,
    k: int,
) -> Snapshot {
    let delay = graph[stmts[k] as int].inner.assign_delay;
    if delay == 0 {
        Snapshot {
            state: state_after(graph, stmts, trace.nodes.len() as int, input, trace.state),
            probes: input.probes,
        }
    } else {
        trace.snapshots[(input.time - delay) as i64]
    }
}

/// What the dependencies of the `k`-th statement of a cycle come from.
pub open spec fn surroundings(
    graph: Seq<StaticModel>,
    trace: TraceModel,
    stmts: Seq<u32>,
    input: CycleInput,
    k: nat,
) -> ResolveContext
    decreases k, 0int,
{
    ResolveContext {
        graph,
        stmts,
        base: trace.nodes.len() as int,
        input,
        state: state_after(graph, stmts, trace.nodes.len() as int, input, trace.state),
        origin: initiated_with(graph, trace, stmts, input, k as int),
        next: if k == 0 {
            (trace.nodes.len() + stmts.len()) as int
        } else {
            let earlier = surroundings(graph, trace, stmts, input, (k - 1) as nat);
            (earlier.next + resolve_edges(
                earlier,
                graph[stmts[k - 1] as int].dependencies,
            ).declared.len()) as int
        },
    }
}

/// What the edges of the `k`-th statement of a cycle give.
pub open spec fn given_by_edges(
    graph: Seq<StaticModel>,
    trace: TraceModel,
    stmts: Seq<u32>,
    input: CycleInput,
    k: nat,
) -> Resolved {
    resolve_edges(
        surroundings(graph, trace, stmts, input, k),
        graph[stmts[k as int] as int].dependencies,
    )
}

proof fn nodes_so_far(
    graph: Seq<StaticModel>,
    trace: TraceModel,
    stmts: Seq<u32>,
    input: CycleInput,
    n: nat,
)
    requires
        n <= stmts.len(),
    ensures
        ({
            let nodes = nodes_after(graph, trace, stmts, input, n);
            &&& nodes.len() == surroundings(graph, trace, stmts, input, n).next
            &&& nodes.len() >= trace.nodes.len() + stmts.len()
            &&& forall|i: int| 0 <= i < trace.nodes.len() ==> #[trigger] nodes[i] == trace.nodes[i]
            &&& n < stmts.len() ==> context_of(
                graph,
                trace,
                stmts,
                input,
                n as int,
                nodes.len() as int,
            ) == surroundings(graph, trace, stmts, input, n)
        }),
    decreases n,
{
    if n > 0 {
        nodes_so_far(graph, trace, stmts, input, (n - 1) as nat);
    }
}

proof fn nodes_stay(
    graph: Seq<StaticModel>,
    trace: TraceModel,
    stmts: Seq<u32>,
    input: CycleInput,
    k: nat,
    n: nat,
)
    requires
        k < n <= stmts.len(),
    ensures
        ({
            let given = given_by_edges(graph, trace, stmts, input, k);
            let free = surroundings(graph, trace, stmts, input, k).next;
            let nodes = nodes_after(graph, trace, stmts, input, n);
            &&& nodes[(trace.nodes.len() + k) as int].dependencies == given.links
            &&& free + given.declared.len() <= nodes.len()
            &&& forall|d: int|
                0 <= d < given.declared.len() ==> nodes[free + d] == #[trigger] given.declared[d]
        }),
    decreases n,
{
    let given = given_by_edges(graph, trace, stmts, input, k);
    let free = surroundings(graph, trace, stmts, input, k).next;
    let nodes = nodes_after(graph, trace, stmts, input, n);
    let before = nodes_after(graph, trace, stmts, input, (n - 1) as nat);
    nodes_so_far(graph, trace, stmts, input, k);
    nodes_so_far(graph, trace, stmts, input, (n - 1) as nat);
    if k + 1 < n {
        nodes_stay(graph, trace, stmts, input, k, (n - 1) as nat);
        assert forall|d: int| 0 <= d < given.declared.len() implies nodes[free + d]
            == #[trigger] given.declared[d] by {
            assert(before[free + d] == given.declared[d]);
        }
    } else {
        assert(before.len() == free);
    }
}

/// A cycle leaves the nodes that are there as they are. Each of its statements depends on what its
/// edges give; the nodes that these make for declarations come after the executions, those of an
/// earlier statement first, and there are no others.
pub proof fn a_statement_depends_on_what_its_edges_give(
    graph: Seq<StaticModel>,
    trace: TraceModel,
    activated: Seq<u32>,
    input: CycleInput,
    criterion: CriterionType,
    k: nat,
)
    ensures
        ({
            let stmts = effective(graph, trace, activated, input.time);
            let nodes = cycle(graph, trace, activated, input, criterion).nodes;
            let given = given_by_edges(graph, trace, stmts, input, k);
            let free = surroundings(graph, trace, stmts, input, k).next;
            &&& nodes.len() == surroundings(graph, trace, stmts, input, stmts.len()).next
            &&& nodes.len() >= trace.nodes.len() + stmts.len()
            &&& forall|i: int| 0 <= i < trace.nodes.len() ==> #[trigger] nodes[i] == trace.nodes[i]
            &&& k < stmts.len() ==> nodes[(trace.nodes.len() + k) as int].dependencies == given.links
            &&& k < stmts.len() ==> free + given.declared.len() <= nodes.len()
            &&& k < stmts.len() ==> forall|d: int|
                0 <= d < given.declared.len() ==> nodes[free + d] == #[trigger] given.declared[d]
        }),
{
    let stmts = effective(graph, trace, activated, input.time);
    nodes_so_far(graph, trace, stmts, input, stmts.len());
    if k < stmts.len() {
        nodes_stay(graph, trace, stmts, input, k, stmts.len());
    }
}

proof fn only_the_full_graph_declares(cx: ResolveContext, edges: Seq<PDGSpecEdge>)
    requires
        cx.input.mode != GraphProcessingType::Full,
    ensures
        resolve_edges(cx, edges).declared.len() == 0,
    decreases edges.len(),
{
    if edges.len() > 0 {
        only_the_full_graph_declares(cx, edges.drop_last());
    }
}

/// Outside of the full graph a cycle adds one node for each statement that takes effect, and no
/// more.
pub proof fn one_node_for_each_statement(
    graph: Seq<StaticModel>,
    trace: TraceModel,
    activated: Seq<u32>,
    input: CycleInput,
    criterion: CriterionType,
)
    requires
        input.mode != GraphProcessingType::Full,
    ensures
        cycle(graph, trace, activated, input, criterion).nodes.len() == trace.nodes.len()
            + effective(graph, trace, activated, input.time).len(),
{
    let stmts = effective(graph, trace, activated, input.time);
    nodes_so_far(graph, trace, stmts, input, stmts.len());
    nothing_declared_so_far(graph, trace, stmts, input, stmts.len());
}

proof fn nothing_declared_so_far(
    graph: Seq<StaticModel>,
    trace: TraceModel,
    stmts: Seq<u32>,
    input: CycleInput,
    n: nat,
)
    requires
        input.mode != GraphProcessingType::Full,
    ensures
        surroundings(graph, trace, stmts, input, n).next == trace.nodes.len() + stmts.len(),
    decreases n,
{
    if n > 0 {
        let k = (n - 1) as nat;
        nothing_declared_so_far(graph, trace, stmts, input, k);
        only_the_full_graph_declares(
            surroundings(graph, trace, stmts, input, k),
            graph[stmts[n - 1] as int].dependencies,
        );
    }
}

/// Whether an edge of a statement of a cycle counts and gives its signal first.
pub open spec fn leads(
    graph: Seq<StaticModel>,
    trace: TraceModel,
    stmts: Seq<u32>,
    input: CycleInput,
    k: int,
    e: int,
) -> bool {
    let edges = graph[stmts[k] as int].dependencies;
    let probes = initiated_with(graph, trace, stmts, input, k).probes;
    &&& 0 <= k < stmts.len()
    &&& 0 <= e < edges.len()
    &&& counts(edges[e], input.mode, probes)
    &&& !anticipated(graph, edges, e, edges[e], input.mode, probes)
}

/// A data dependency leads to the last statement of the cycle that gives the signal its value
/// within the cycle, or else to the node that was known for the signal.
pub proof fn data_comes_from_the_last_assignment(
    graph: Seq<StaticModel>,
    trace: TraceModel,
    activated: Seq<u32>,
    input: CycleInput,
    criterion: CriterionType,
    k: int,
    e: int,
    signal: Seq<char>,
    i: int,
)
    requires
        leads(graph, trace, effective(graph, trace, activated, input.time), input, k, e),
    ensures
        ({
            let stmts = effective(graph, trace, activated, input.time);
            let edge = graph[stmts[k] as int].dependencies[e];
            let links = cycle(graph, trace, activated, input, criterion).nodes[trace.nodes.len()
                + k].dependencies;
            edge.kind == PDGSpecEdgeKind::Data && targets(graph[edge.to as int].inner, signal) ==> {
                &&& 0 <= i < stmts.len() && sets_at_once(graph[stmts[i] as int].inner, input, signal)
                    && none_at_once(graph, stmts, i + 1, input, signal) ==> links.contains(
                    ((trace.nodes.len() + i) as usize, PDGSpecEdgeKind::Data),
                )
                &&& none_at_once(graph, stmts, 0, input, signal) && trace.state.contains_key(signal)
                    ==> links.contains((trace.state[signal], PDGSpecEdgeKind::Data))
            }
        }),
{
    let stmts = effective(graph, trace, activated, input.time);
    let edges = graph[stmts[k] as int].dependencies;
    let cx = surroundings(graph, trace, stmts, input, k as nat);
    a_statement_depends_on_what_its_edges_give(graph, trace, activated, input, criterion, k as nat);
    every_edge_that_counts_is_followed(cx, edges, e, 0);
    known_within(graph, trace, stmts, input, signal, i);
}

/// An index dependency of a statement leads to the node that was known for the signal when the
/// statement was initiated: without a delay the last statement of the cycle that gives it a value,
/// or else what was known before; with a delay what the earlier cycle knew.
pub proof fn an_index_comes_from_when_the_statement_was_initiated(
    graph: Seq<StaticModel>,
    trace: TraceModel,
    activated: Seq<u32>,
    input: CycleInput,
    criterion: CriterionType,
    k: int,
    e: int,
    signal: Seq<char>,
    i: int,
)
    requires
        leads(graph, trace, effective(graph, trace, activated, input.time), input, k, e),
    ensures
        ({
            let stmts = effective(graph, trace, activated, input.time);
            let delay = graph[stmts[k] as int].inner.assign_delay;
            let edge = graph[stmts[k] as int].dependencies[e];
            let links = cycle(graph, trace, activated, input, criterion).nodes[trace.nodes.len()
                + k].dependencies;
            let kept = trace.snapshots[(input.time - delay) as i64].state;
            edge.kind == PDGSpecEdgeKind::Index && targets(graph[edge.to as int].inner, signal)
                ==> {
                &&& delay == 0 && 0 <= i < stmts.len() && sets_at_once(
                    graph[stmts[i] as int].inner,
                    input,
                    signal,
                ) && none_at_once(graph, stmts, i + 1, input, signal) ==> links.contains(
                    ((trace.nodes.len() + i) as usize, PDGSpecEdgeKind::Index),
                )
                &&& delay == 0 && none_at_once(graph, stmts, 0, input, signal)
                    && trace.state.contains_key(signal) ==> links.contains(
                    (trace.state[signal], PDGSpecEdgeKind::Index),
                )
                &&& delay > 0 && kept.contains_key(signal) ==> links.contains(
                    (kept[signal], PDGSpecEdgeKind::Index),
                )
            }
        }),
{
    let stmts = effective(graph, trace, activated, input.time);
    let edges = graph[stmts[k] as int].dependencies;
    let cx = surroundings(graph, trace, stmts, input, k as nat);
    a_statement_depends_on_what_its_edges_give(graph, trace, activated, input, criterion, k as nat);
    every_edge_that_counts_is_followed(cx, edges, e, 0);
    known_within(graph, trace, stmts, input, signal, i);
}

proof fn known_within(
    graph: Seq<StaticModel>,
    trace: TraceModel,
    stmts: Seq<u32>,
    input: CycleInput,
    signal: Seq<char>,
    i: int,
)
    ensures
        ({
            let base = trace.nodes.len() as int;
            let known = state_after(graph, stmts, base, input, trace.state);
            &&& 0 <= i < stmts.len() && sets_at_once(graph[stmts[i] as int].inner, input, signal)
                && none_at_once(graph, stmts, i + 1, input, signal) ==> known.contains_key(signal)
                && known[signal] == (base + i) as usize
            &&& none_at_once(graph, stmts, 0, input, signal) ==> known.contains_key(signal)
                == trace.state.contains_key(signal) && known[signal] == trace.state[signal]
        }),
{
    let base = trace.nodes.len() as int;
    if 0 <= i < stmts.len() && sets_at_once(graph[stmts[i] as int].inner, input, signal)
        && none_at_once(graph, stmts, i + 1, input, signal) {
        the_last_statement_counts_at_once(graph, stmts, base, input, trace.state, signal, i);
    }
    if none_at_once(graph, stmts, 0, input, signal) {
        what_is_not_set_at_once_stays(graph, stmts, base, input, trace.state, signal);
    }
}

/// A dependency on control flow leads to the last execution of the condition in the cycle.
pub proof fn control_flow_comes_from_the_last_condition(
    graph: Seq<StaticModel>,
    trace: TraceModel,
    activated: Seq<u32>,
    input: CycleInput,
    criterion: CriterionType,
    k: int,
    e: int,
    i: int,
)
    requires
        leads(graph, trace, effective(graph, trace, activated, input.time), input, k, e),
    ensures
        ({
            let stmts = effective(graph, trace, activated, input.time);
            let edge = graph[stmts[k] as int].dependencies[e];
            let content = graph[edge.to as int].inner@;
            let links = cycle(graph, trace, activated, input, criterion).nodes[trace.nodes.len()
                + k].dependencies;
            edge.kind == PDGSpecEdgeKind::Conditional && 0 <= i < stmts.len() && guards(
                graph[stmts[i] as int].inner,
                input,
                content,
            ) && (forall|j: int|
                i < j < stmts.len() ==> !guards(
                    graph[#[trigger] stmts[j] as int].inner,
                    input,
                    content,
                )) ==> links.contains(
                ((trace.nodes.len() + i) as usize, PDGSpecEdgeKind::Conditional),
            )
        }),
{
    let stmts = effective(graph, trace, activated, input.time);
    let edges = graph[stmts[k] as int].dependencies;
    let cx = surroundings(graph, trace, stmts, input, k as nat);
    a_statement_depends_on_what_its_edges_give(graph, trace, activated, input, criterion, k as nat);
    every_edge_that_counts_is_followed(cx, edges, e, i);
}

/// A trace in which nothing waits.
pub open spec fn nothing_waits(trace: TraceModel) -> TraceModel {
    TraceModel { delayed: Seq::empty(), ..trace }
}

/// A trace in which one more statement waits.
pub open spec fn one_more_waits(trace: TraceModel, entry: (i64, u32)) -> TraceModel {
    TraceModel { delayed: trace.delayed.push(entry), ..trace }
}

/// The activated statements take effect before those that waited.
pub proof fn activated_statements_come_first(
    graph: Seq<StaticModel>,
    trace: TraceModel,
    activated: Seq<u32>,
    time: int,
)
    ensures
        effective(graph, trace, activated, time) == effective(
            graph,
            nothing_waits(trace),
            activated,
            time,
        ) + effective(graph, trace, Seq::empty(), time),
        effective(graph, nothing_waits(trace), Seq::empty(), time).len() == 0,
{
    reveal(Seq::filter);
    let none = Seq::<u32>::empty();
    assert(immediate(graph, none) =~= none);
    assert(due(nothing_waits(trace).delayed, time) =~= none);
    assert(effective(graph, nothing_waits(trace), activated, time) =~= immediate(graph, activated));
    assert(effective(graph, trace, none, time) =~= due(trace.delayed, time));
}

/// A further activated statement takes effect after the others where it has no delay, and not at
/// all in this cycle where it has one.
pub proof fn a_statement_without_delay_takes_effect(
    graph: Seq<StaticModel>,
    trace: TraceModel,
    activated: Seq<u32>,
    time: int,
    stmt: u32,
)
    ensures
        effective(graph, nothing_waits(trace), activated.push(stmt), time) == if (
        graph[stmt as int].inner.assign_delay == 0) {
            effective(graph, nothing_waits(trace), activated, time).push(stmt)
        } else {
            effective(graph, nothing_waits(trace), activated, time)
        },
{
    reveal(Seq::filter);
    let none = Seq::<u32>::empty();
    filter_push(activated, stmt, |s: u32| graph[s as int].inner.assign_delay == 0);
    assert(due(nothing_waits(trace).delayed, time) =~= none);
    assert(immediate(graph, activated) + none =~= immediate(graph, activated));
    assert(immediate(graph, activated.push(stmt)) + none =~= immediate(
        graph,
        activated.push(stmt),
    ));
}

/// A further waiting statement takes effect after the others at its own time, and at no other.
pub proof fn a_waiting_statement_takes_effect_at_its_time(
    graph: Seq<StaticModel>,
    trace: TraceModel,
    time: int,
    entry: (i64, u32),
)
    ensures
        effective(graph, one_more_waits(trace, entry), Seq::empty(), time) == if entry.0 == time {
            effective(graph, trace, Seq::empty(), time).push(entry.1)
        } else {
            effective(graph, trace, Seq::empty(), time)
        },
{
    reveal(Seq::filter);
    let none = Seq::<u32>::empty();
    filter_push(trace.delayed, entry, at_time(time));
    assert(immediate(graph, none) =~= none);
    assert(effective(graph, trace, none, time) =~= due(trace.delayed, time));
    assert(effective(graph, one_more_waits(trace, entry), none, time) =~= due(
        trace.delayed.push(entry),
        time,
    ));
    if entry.0 == time {
        assert(due(trace.delayed.push(entry), time) =~= due(trace.delayed, time).push(entry.1));
    }
}

/// After a cycle those wait that waited before and were not due, followed by those that the cycle
/// postpones; where neither is there, nothing waits.
pub proof fn those_who_wait_go_on_waiting(
    graph: Seq<StaticModel>,
    trace: TraceModel,
    activated: Seq<u32>,
    input: CycleInput,
    criterion: CriterionType,
)
    ensures
        cycle(graph, trace, activated, input, criterion).delayed == cycle(
            graph,
            trace,
            Seq::empty(),
            input,
            criterion,
        ).delayed + cycle(graph, nothing_waits(trace), activated, input, criterion).delayed,
        cycle(graph, nothing_waits(trace), Seq::empty(), input, criterion).delayed.len() == 0,
{
    reveal(Seq::filter);
    let none = Seq::<u32>::empty();
    assert(postponed(graph, none) =~= none);
    assert(schedule(graph, postponed(graph, none), input.time) =~= Seq::empty());
    assert(not_due(nothing_waits(trace).delayed, input.time) =~= Seq::empty());
    assert(cycle(graph, trace, none, input, criterion).delayed =~= not_due(
        trace.delayed,
        input.time,
    ));
    assert(cycle(graph, nothing_waits(trace), activated, input, criterion).delayed =~= schedule(
        graph,
        postponed(graph, activated),
        input.time,
    ));
}

/// A further activated statement joins those that wait, for as many cycles as its delay has, where
/// it has one.
pub proof fn a_delayed_statement_joins_those_who_wait(
    graph: Seq<StaticModel>,
    trace: TraceModel,
    activated: Seq<u32>,
    input: CycleInput,
    criterion: CriterionType,
    stmt: u32,
)
    ensures
        ({
            let delay = graph[stmt as int].inner.assign_delay;
            let before = cycle(graph, trace, activated, input, criterion).delayed;
            let after = cycle(graph, trace, activated.push(stmt), input, criterion).delayed;
            &&& delay == 0 ==> after == before
            &&& delay > 0 ==> after == before.push(((input.time + delay) as i64, stmt))
        }),
{
    filter_push(activated, stmt, |s: u32| graph[s as int].inner.assign_delay != 0);
    let later = postponed(graph, activated);
    let before = cycle(graph, trace, activated, input, criterion).delayed;
    let delay = graph[stmt as int].inner.assign_delay;
    if delay > 0 {
        assert(schedule(graph, later.push(stmt), input.time) =~= schedule(
            graph,
            later,
            input.time,
        ).push(((input.time + delay) as i64, stmt)));
        assert(cycle(graph, trace, activated.push(stmt), input, criterion).delayed =~= before.push(
            ((input.time + delay) as i64, stmt),
        ));
    }
}

/// A further waiting statement is gone after the cycle of its time, and goes on waiting otherwise.
pub proof fn a_waiting_statement_leaves_at_its_time(
    graph: Seq<StaticModel>,
    trace: TraceModel,
    input: CycleInput,
    criterion: CriterionType,
    entry: (i64, u32),
)
    ensures
        cycle(
            graph,
            one_more_waits(trace, entry),
            Seq::empty(),
            input,
            criterion,
        ).delayed == if entry.0 == input.time {
            cycle(graph, trace, Seq::empty(), input, criterion).delayed
        } else {
            cycle(graph, trace, Seq::empty(), input, criterion).delayed.push(entry)
        },
{
    reveal(Seq::filter);
    let none = Seq::<u32>::empty();
    filter_push(trace.delayed, entry, at_other_time(input.time));
    assert(postponed(graph, none) =~= none);
    assert(schedule(graph, postponed(graph, none), input.time) =~= Seq::empty());
    assert(cycle(graph, trace, none, input, criterion).delayed =~= not_due(
        trace.delayed,
        input.time,
    ));
    assert(cycle(graph, one_more_waits(trace, entry), none, input, criterion).delayed =~= not_due(
        trace.delayed.push(entry),
        input.time,
    ));
}

} // verus!
