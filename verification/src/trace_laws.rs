//! What holds of every dynamic graph.

use vstd::prelude::*;

use crate::dynamic_graph::{
    at_other_time, at_time, context_of, cycle, effective, executed, execution_time, immediate,
    latest_guard, latest_named, nodes_after, not_due, passed_over, postponed, provider,
    resolve_edge, resolve_edges, settled, settles, state_after, target_signal, updates_after,
    writes_now, CriterionType, CycleInput, DynModel, GraphProcessingType, ResolveContext, Resolved,
    SignalState, StaticModel, TraceModel,
};
use crate::lists::{filter_keeps, filter_origin};
use crate::pdg_spec::{PDGSpecEdge, PDGSpecEdgeKind, PDGSpecNode, PDGSpecNodeKind};
use crate::text::text_of;
use crate::tracer::{
    delayed_ok, effective_in_order, graph_ok, nodes_only_grow, origins_kept, stmts_ok,
};
use crate::vcd_input::Value;

verus! {

/// Whether a statement is one of a graph.
pub open spec fn is_statement(graph: Seq<StaticModel>, stmt: PDGSpecNode) -> bool {
    exists|i: int| 0 <= i < graph.len() && (#[trigger] graph[i]).inner == stmt
}

/// Whether a dependency is one on the value of a signal.
pub open spec fn on_signal(link: (usize, PDGSpecEdgeKind)) -> bool {
    link.1 == PDGSpecEdgeKind::Data || link.1 == PDGSpecEdgeKind::Index
}

/// Whether a node is an execution of a register update: a clocked statement that is no definition.
pub open spec fn is_update(stmt: PDGSpecNode) -> bool {
    stmt.clocked && stmt.kind != PDGSpecNodeKind::DataDefinition
}

/// Whether a dependency leads to a node of the graph; where it is not one on control flow, to a
/// node that is not later; where it is one on a signal, to a node that assigns to a signal and, for
/// a register update, is strictly earlier; where it is one on a declaration, to a node without
/// dependencies.
pub open spec fn link_ok(nodes: Seq<DynModel>, n: int, link: (usize, PDGSpecEdgeKind)) -> bool {
    &&& link.0 < nodes.len()
    &&& link.1 != PDGSpecEdgeKind::Conditional ==> nodes[link.0 as int].timestamp
        <= nodes[n].timestamp
    &&& on_signal(link) ==> nodes[link.0 as int].inner.assigns_to is Some
    &&& on_signal(link) && is_update(nodes[n].inner) ==> nodes[link.0 as int].timestamp
        < nodes[n].timestamp
    &&& link.1 == PDGSpecEdgeKind::Declaration ==> nodes[link.0 as int].dependencies.len() == 0
}

/// Whether no two of the dependencies of a node are on the same signal.
pub open spec fn signals_differ(nodes: Seq<DynModel>, n: int) -> bool {
    let links = nodes[n].dependencies;
    forall|j: int, k: int|
        0 <= j < k < links.len() && on_signal(#[trigger] links[j]) && on_signal(#[trigger] links[k])
            ==> text_of(nodes[links[j].0 as int].inner.assigns_to) != text_of(
            nodes[links[k].0 as int].inner.assigns_to,
        )
}

/// Whether a node is an execution of a statement of the static graph, no later than `latest`, whose
/// dependencies are in order.
pub open spec fn node_ok(
    graph: Seq<StaticModel>,
    nodes: Seq<DynModel>,
    latest: int,
    n: int,
) -> bool {
    &&& is_statement(graph, nodes[n].inner)
    &&& -1 <= nodes[n].timestamp <= latest
    &&& forall|k: int|
        0 <= k < nodes[n].dependencies.len() ==> link_ok(
            nodes,
            n,
            #[trigger] nodes[n].dependencies[k],
        )
    &&& signals_differ(nodes, n)
}

/// Whether a node assigns to a signal, no later than `latest`.
pub open spec fn assigns(
    nodes: Seq<DynModel>,
    node: usize,
    signal: Seq<char>,
    latest: int,
) -> bool {
    &&& node < nodes.len()
    &&& text_of(nodes[node as int].inner.assigns_to) == Some(signal)
    &&& nodes[node as int].timestamp <= latest
}

/// Whether the node that is known for each signal assigns to it, no later than `latest`.
pub open spec fn state_ok(nodes: Seq<DynModel>, state: SignalState, latest: int) -> bool {
    forall|signal: Seq<char>| #[trigger]
        state.contains_key(signal) ==> assigns(nodes, state[signal], signal, latest)
}

/// Whether a trace is in order: its nodes, the node that is known for each signal, now and when a
/// snapshot was taken, and the node that was found.
pub open spec fn trace_ok(graph: Seq<StaticModel>, trace: TraceModel, latest: int) -> bool {
    &&& forall|n: int| 0 <= n < trace.nodes.len() ==> #[trigger] node_ok(
        graph,
        trace.nodes,
        latest,
        n,
    )
    &&& state_ok(trace.nodes, trace.state, latest)
    &&& forall|t: i64| #[trigger]
        trace.snapshots.contains_key(t) ==> state_ok(
            trace.nodes,
            trace.snapshots[t].state,
            latest,
        )
    &&& trace.found matches Some(n) ==> n < trace.nodes.len()
}

/// Whether a find is an execution of the statement that is looked for.
pub open spec fn find_ok(trace: TraceModel, criterion: CriterionType) -> bool {
    criterion matches CriterionType::Statement(name) ==> (trace.found matches Some(n)
        ==> trace.nodes[n as int].inner.name@ == name@)
}

/// Whether a node is what a criterion asks for: an execution of the statement, or a node that
/// assigns to the signal.
pub open spec fn is_asked_for(nodes: Seq<DynModel>, n: usize, criterion: CriterionType) -> bool {
    &&& n < nodes.len()
    &&& match criterion {
        CriterionType::Statement(name) => nodes[n as int].inner.name@ == name@,
        CriterionType::Signal(signal) => text_of(nodes[n as int].inner.assigns_to) == Some(
            signal@,
        ),
    }
}

/// Whether the dependencies of the nodes from a place on are among those that a mode asks for.
pub open spec fn mode_ok(nodes: Seq<DynModel>, from: int, mode: GraphProcessingType) -> bool {
    forall|n: int, k: int|
        from <= n < nodes.len() && 0 <= k < nodes[n].dependencies.len() ==> {
            let kind = (#[trigger] nodes[n].dependencies[k]).1;
            &&& mode == GraphProcessingType::DataOnly ==> kind == PDGSpecEdgeKind::Data
            &&& kind == PDGSpecEdgeKind::Declaration ==> mode == GraphProcessingType::Full
            &&& kind != PDGSpecEdgeKind::Other
        }
}

/// The signals that the dependencies along a list of edges are on.
spec fn link_signals(cx: ResolveContext, edges: Seq<PDGSpecEdge>) -> Seq<Option<Seq<char>>>
    decreases edges.len(),
{
    if edges.len() == 0 {
        Seq::empty()
    } else {
        let before = link_signals(cx, edges.drop_last());
        let resolved = resolve_edges(cx, edges.drop_last());
        let edge = edges.last();
        if passed_over(cx, edges.drop_last(), edge) {
            before
        } else if resolve_edge(cx, resolved, edge).links.len() == resolved.links.len() {
            before
        } else if edge.kind == PDGSpecEdgeKind::Data || edge.kind == PDGSpecEdgeKind::Index {
            before.push(target_signal(cx, edge))
        } else {
            before.push(None)
        }
    }
}

/// Where a dependency comes from.
spec fn link_origin(
    cx: ResolveContext,
    declared: nat,
    link: (usize, PDGSpecEdgeKind),
    signal: Option<Seq<char>>,
) -> bool {
    &&& cx.input.mode == GraphProcessingType::DataOnly ==> link.1 == PDGSpecEdgeKind::Data
    &&& match link.1 {
        PDGSpecEdgeKind::Declaration => {
            &&& cx.input.mode == GraphProcessingType::Full
            &&& cx.next <= link.0 < cx.next + declared
            &&& signal is None
        },
        PDGSpecEdgeKind::Data | PDGSpecEdgeKind::Index => {
            &&& signal matches Some(s)
            &&& provider(cx, link.1, s) == Some(link.0)
        },
        PDGSpecEdgeKind::Conditional => {
            &&& cx.base <= link.0 < cx.base + cx.stmts.len()
            &&& signal is None
        },
        PDGSpecEdgeKind::Other => false,
    }
}

/// The last control flow statement with a given content is one of the cycle.
proof fn guard_is_of_the_cycle(cx: ResolveContext, stmts: Seq<u32>, edge: PDGSpecEdge)
    requires
        cx.base >= 0,
        cx.base + stmts.len() <= usize::MAX,
    ensures
        latest_guard(
            cx.graph,
            stmts,
            cx.base,
            cx.input,
            cx.graph[edge.to as int].inner@,
        ) matches Some(node) ==> cx.base <= node < cx.base + stmts.len(),
    decreases stmts.len(),
{
    if stmts.len() > 0 {
        guard_is_of_the_cycle(cx, stmts.drop_last(), edge);
    }
}

/// Every dependency has its origin, and no two are on the same signal.
proof fn links_have_origins(cx: ResolveContext, edges: Seq<PDGSpecEdge>)
    requires
        cx.base >= 0,
        cx.next >= 0,
        cx.base + cx.stmts.len() <= usize::MAX,
        cx.next + resolve_edges(cx, edges).declared.len() <= usize::MAX,
    ensures
        link_signals(cx, edges).len() == resolve_edges(cx, edges).links.len(),
        forall|k: int|
            0 <= k < resolve_edges(cx, edges).links.len() ==> link_origin(
                cx,
                resolve_edges(cx, edges).declared.len(),
                #[trigger] resolve_edges(cx, edges).links[k],
                link_signals(cx, edges)[k],
            ),
        forall|k: int|
            0 <= k < link_signals(cx, edges).len() ==> ((
            #[trigger] link_signals(cx, edges)[k]) matches Some(s) ==> settled(cx, edges, s)),
        forall|j: int, k: int|
            0 <= j < k < link_signals(cx, edges).len() && (
            #[trigger] link_signals(cx, edges)[j]) is Some ==> link_signals(cx, edges)[j] != (
            #[trigger] link_signals(cx, edges)[k]),
    decreases edges.len(),
{
    if edges.len() > 0 {
        let head = edges.drop_last();
        let edge = edges.last();
        let before = resolve_edges(cx, head);
        let after = resolve_edges(cx, edges);
        let old_signals = link_signals(cx, head);
        let signals = link_signals(cx, edges);
        assert(before.declared.len() <= after.declared.len());
        links_have_origins(cx, head);
        guard_is_of_the_cycle(cx, cx.stmts, edge);
        assert forall|s: Seq<char>| settled(cx, head, s) implies settled(cx, edges, s) by {
            let i = choose|i: int| 0 <= i < head.len() && settles(cx, #[trigger] head[i], s);
            assert(settles(cx, edges[i], s));
        }
        if after.links.len() == before.links.len() {
            assert(signals == old_signals);
            assert(after.links == before.links);
            assert forall|k: int| 0 <= k < after.links.len() implies link_origin(
                cx,
                after.declared.len(),
                #[trigger] after.links[k],
                signals[k],
            ) by {
                assert(link_origin(cx, before.declared.len(), before.links[k], old_signals[k]));
            }
        } else {
            assert(!passed_over(cx, head, edge));
            assert(after.links.drop_last() =~= before.links);
            assert(signals.drop_last() =~= old_signals);
            assert(edges[edges.len() - 1] == edge);
            assert forall|k: int| 0 <= k < after.links.len() implies link_origin(
                cx,
                after.declared.len(),
                #[trigger] after.links[k],
                signals[k],
            ) by {
                if k < before.links.len() {
                    assert(after.links[k] == before.links[k]);
                    assert(signals[k] == old_signals[k]);
                    assert(link_origin(
                        cx,
                        before.declared.len(),
                        before.links[k],
                        old_signals[k],
                    ));
                }
            }
            assert forall|k: int| 0 <= k < signals.len() implies ((
            #[trigger] signals[k]) matches Some(s) ==> settled(cx, edges, s)) by {
                if k < old_signals.len() {
                    assert(signals[k] == old_signals[k]);
                } else if let Some(s) = signals[k] {
                    assert(settles(cx, edges[edges.len() - 1], s));
                }
            }
            assert forall|j: int, k: int|
                0 <= j < k < signals.len() && (#[trigger] signals[j]) is Some implies signals[j]
                != (#[trigger] signals[k]) by {
                assert(signals[j] == old_signals[j]);
                if k < old_signals.len() {
                    assert(signals[k] == old_signals[k]);
                }
            }
        }
    }
}

/// Whether nodes are those of a trace, followed by the executions of a cycle and nodes for
/// declarations; dependencies of the executions aside.
spec fn shaped(
    nodes: Seq<DynModel>,
    graph: Seq<StaticModel>,
    earlier: Seq<DynModel>,
    stmts: Seq<u32>,
    input: CycleInput,
) -> bool {
    let base = earlier.len();
    &&& nodes.len() >= base + stmts.len()
    &&& forall|i: int| 0 <= i < base ==> #[trigger] nodes[i] == earlier[i]
    &&& forall|i: int|
        base <= i < base + stmts.len() ==> {
            let stmt = graph[stmts[i - base] as int].inner;
            (#[trigger] nodes[i]).inner == stmt && nodes[i].timestamp == execution_time(stmt, input)
        }
    &&& forall|i: int|
        base + stmts.len() <= i < nodes.len() ==> {
            &&& is_statement(graph, (#[trigger] nodes[i]).inner)
            &&& nodes[i].timestamp == input.time - 1
            &&& nodes[i].dependencies.len() == 0
        }
}

/// The nodes that are made for declarations are statements of the graph.
proof fn declared_are_statements(cx: ResolveContext, edges: Seq<PDGSpecEdge>)
    requires
        forall|k: int| 0 <= k < edges.len() ==> (#[trigger] edges[k]).to < cx.graph.len(),
    ensures
        forall|k: int|
            0 <= k < resolve_edges(cx, edges).declared.len() ==> {
                let node = #[trigger] resolve_edges(cx, edges).declared[k];
                &&& is_statement(cx.graph, node.inner)
                &&& node.timestamp == cx.input.time - 1
                &&& node.dependencies.len() == 0
            },
    decreases edges.len(),
{
    if edges.len() > 0 {
        let head = edges.drop_last();
        assert forall|k: int| 0 <= k < head.len() implies (#[trigger] head[k]).to
            < cx.graph.len() by {
            assert(edges[k].to < cx.graph.len());
        }
        declared_are_statements(cx, head);
        let before = resolve_edges(cx, head).declared;
        let after = resolve_edges(cx, edges).declared;
        assert(edges[edges.len() - 1].to < cx.graph.len());
        assert forall|k: int| 0 <= k < after.len() implies {
            let node = #[trigger] after[k];
            &&& is_statement(cx.graph, node.inner)
            &&& node.timestamp == cx.input.time - 1
            &&& node.dependencies.len() == 0
        } by {
            if k < before.len() {
                assert(after[k] == before[k]);
            } else {
                assert(after[k].inner == cx.graph[edges.last().to as int].inner);
            }
        }
    }
}

/// The context in which the dependencies of an execution are resolved.
spec fn context_at(
    graph: Seq<StaticModel>,
    trace: TraceModel,
    stmts: Seq<u32>,
    input: CycleInput,
    k: int,
) -> ResolveContext {
    context_of(
        graph,
        trace,
        stmts,
        input,
        k,
        nodes_after(graph, trace, stmts, input, k as nat).len() as int,
    )
}

/// The dependencies of an execution.
spec fn resolved_at(
    graph: Seq<StaticModel>,
    trace: TraceModel,
    stmts: Seq<u32>,
    input: CycleInput,
    k: int,
) -> Resolved {
    resolve_edges(
        context_at(graph, trace, stmts, input, k),
        graph[stmts[k] as int].dependencies,
    )
}

/// What the nodes look like when the dependencies of the first `n` executions are resolved.
proof fn nodes_keep_their_shape(
    graph: Seq<StaticModel>,
    trace: TraceModel,
    stmts: Seq<u32>,
    input: CycleInput,
    n: nat,
)
    requires
        graph_ok(graph),
        stmts_ok(graph, stmts),
        n <= stmts.len(),
    ensures
        shaped(nodes_after(graph, trace, stmts, input, n), graph, trace.nodes, stmts, input),
        forall|k: int|
            0 <= k < n ==> (#[trigger] nodes_after(graph, trace, stmts, input, n)[trace.nodes.len()
                + k]).dependencies == resolved_at(graph, trace, stmts, input, k).links,
        forall|k: int|
            n <= k < stmts.len() ==> (#[trigger] nodes_after(
                graph,
                trace,
                stmts,
                input,
                n,
            )[trace.nodes.len() + k]).dependencies.len() == 0,
    decreases n,
{
    let base = trace.nodes.len() as int;
    let nodes = nodes_after(graph, trace, stmts, input, n);
    if n > 0 {
        let k = n - 1;
        nodes_keep_their_shape(graph, trace, stmts, input, k as nat);
        let before = nodes_after(graph, trace, stmts, input, k as nat);
        let edges = graph[stmts[k] as int].dependencies;
        let cx = context_at(graph, trace, stmts, input, k);
        let resolved = resolve_edges(cx, edges);
        assert(stmts[k] < graph.len());
        assert forall|j: int| 0 <= j < edges.len() implies (#[trigger] edges[j]).to
            < cx.graph.len() by {
            assert(graph[stmts[k] as int].dependencies[j].to < graph.len());
        }
        declared_are_statements(cx, edges);
        assert forall|i: int| 0 <= i < before.len() && i != base + k implies #[trigger] nodes[i]
            == before[i] by {}
        assert(nodes[base + k].dependencies == resolved.links);
        assert forall|i: int| base + stmts.len() <= i < nodes.len() implies {
            &&& is_statement(graph, (#[trigger] nodes[i]).inner)
            &&& nodes[i].timestamp == input.time - 1
            &&& nodes[i].dependencies.len() == 0
        } by {
            if i < before.len() {
                assert(nodes[i] == before[i]);
            } else {
                assert(nodes[i] == resolved.declared[i - before.len()]);
            }
        }
        assert forall|i: int| base <= i < base + stmts.len() implies {
            let stmt = graph[stmts[i - base] as int].inner;
            (#[trigger] nodes[i]).inner == stmt && nodes[i].timestamp == execution_time(stmt, input)
        } by {
            assert(before[i].inner == graph[stmts[i - base] as int].inner);
        }
        assert forall|j: int| 0 <= j < n implies (#[trigger] nodes[base + j]).dependencies
            == resolved_at(graph, trace, stmts, input, j).links by {
            if j < k {
                assert(nodes[base + j] == before[base + j]);
            }
        }
        assert forall|j: int| n <= j < stmts.len() implies (
        #[trigger] nodes[base + j]).dependencies.len() == 0 by {
            assert(nodes[base + j] == before[base + j]);
        }
    } else {
        assert forall|i: int| base <= i < base + stmts.len() implies {
            let stmt = graph[stmts[i - base] as int].inner;
            &&& (#[trigger] nodes[i]).inner == stmt
            &&& nodes[i].timestamp == execution_time(stmt, input)
            &&& nodes[i].dependencies.len() == 0
        } by {
            assert(nodes[i] == executed(graph[stmts[i - base] as int].inner, input));
        }
    }
}

/// Resolving the dependencies of more executions adds nodes and removes none.
proof fn later_nodes_are_more(
    graph: Seq<StaticModel>,
    trace: TraceModel,
    stmts: Seq<u32>,
    input: CycleInput,
    k: nat,
    n: nat,
)
    requires
        k < n <= stmts.len(),
    ensures
        nodes_after(graph, trace, stmts, input, k).len() + resolved_at(
            graph,
            trace,
            stmts,
            input,
            k as int,
        ).declared.len() <= nodes_after(graph, trace, stmts, input, n).len(),
    decreases n,
{
    nodes_only_grow(graph, trace, stmts, input, (n - 1) as nat);
    if k < n - 1 {
        later_nodes_are_more(graph, trace, stmts, input, k, (n - 1) as nat);
    }
}

/// What is known of signals stays true when nodes are added.
proof fn state_stays_ok(a: Seq<DynModel>, b: Seq<DynModel>, state: SignalState, from: int, to: int)
    requires
        state_ok(a, state, from),
        from <= to,
        a.len() <= b.len(),
        forall|i: int|
            0 <= i < a.len() ==> (#[trigger] b[i]).inner == a[i].inner && b[i].timestamp
                == a[i].timestamp,
    ensures
        state_ok(b, state, to),
{
    assert forall|signal: Seq<char>| #[trigger] state.contains_key(signal) implies assigns(
        b,
        state[signal],
        signal,
        to,
    ) by {
        assert(assigns(a, state[signal], signal, from));
        assert(b[state[signal] as int].inner == a[state[signal] as int].inner);
    }
}

/// The states of signals within a cycle are those of nodes that assign to them, before the end of
/// the cycle.
proof fn state_within_cycle_ok(
    graph: Seq<StaticModel>,
    stmts: Seq<u32>,
    earlier: Seq<DynModel>,
    nodes: Seq<DynModel>,
    all: Seq<u32>,
    input: CycleInput,
    state: SignalState,
)
    requires
        shaped(nodes, graph, earlier, all, input),
        stmts.len() <= all.len(),
        stmts == all.take(stmts.len() as int),
        nodes.len() <= usize::MAX,
        state_ok(earlier, state, input.time - 1),
    ensures
        state_ok(
            nodes,
            state_after(graph, stmts, earlier.len() as int, input, state),
            input.time - 1,
        ),
        state_ok(
            nodes,
            updates_after(graph, stmts, earlier.len() as int, input),
            input.time,
        ),
    decreases stmts.len(),
{
    let base = earlier.len() as int;
    if stmts.len() > 0 {
        let head = stmts.drop_last();
        assert(head =~= all.take(head.len() as int));
        state_within_cycle_ok(graph, head, earlier, nodes, all, input, state);
        let place = base + stmts.len() - 1;
        let stmt = graph[stmts.last() as int].inner;
        assert(nodes[place].inner == graph[all[place - base] as int].inner);
        assert(nodes[place].inner == stmt);
    } else {
        state_stays_ok(earlier, nodes, state, input.time - 1, input.time - 1);
    }
}

/// The last execution of a statement with a name is an execution of a statement with that name.
proof fn named_is_of_the_cycle(
    graph: Seq<StaticModel>,
    stmts: Seq<u32>,
    base: int,
    name: Seq<char>,
)
    requires
        base >= 0,
        base + stmts.len() <= usize::MAX,
    ensures
        latest_named(graph, stmts, base, name) matches Some(node) ==> base <= node < base
            + stmts.len() && graph[stmts[node - base] as int].inner.name@ == name,
    decreases stmts.len(),
{
    if stmts.len() > 0 {
        named_is_of_the_cycle(graph, stmts.drop_last(), base, name);
    }
}

/// The node of an execution is in order.
proof fn execution_ok(
    graph: Seq<StaticModel>,
    trace: TraceModel,
    stmts: Seq<u32>,
    input: CycleInput,
    k: int,
)
    requires
        graph_ok(graph),
        stmts_ok(graph, stmts),
        origins_kept(graph, trace.snapshots, stmts, input.time),
        trace_ok(graph, trace, input.time - 1),
        input.time >= 0,
        nodes_after(graph, trace, stmts, input, stmts.len()).len() <= usize::MAX,
        0 <= k < stmts.len(),
    ensures
        node_ok(
            graph,
            nodes_after(graph, trace, stmts, input, stmts.len()),
            input.time,
            trace.nodes.len() + k,
        ),
        forall|j: int|
            0 <= j < resolved_at(graph, trace, stmts, input, k).links.len() ==> {
                let kind = (#[trigger] resolved_at(graph, trace, stmts, input, k).links[j]).1;
                &&& input.mode == GraphProcessingType::DataOnly ==> kind == PDGSpecEdgeKind::Data
                &&& kind == PDGSpecEdgeKind::Declaration ==> input.mode == GraphProcessingType::Full
                &&& kind != PDGSpecEdgeKind::Other
            },
{
    let base = trace.nodes.len() as int;
    let nodes = nodes_after(graph, trace, stmts, input, stmts.len());
    let place = base + k;
    let cx = context_at(graph, trace, stmts, input, k);
    let edges = graph[stmts[k] as int].dependencies;
    let resolved = resolved_at(graph, trace, stmts, input, k);
    let signals = link_signals(cx, edges);
    let latest = input.time - 1;
    nodes_keep_their_shape(graph, trace, stmts, input, stmts.len());
    nodes_keep_their_shape(graph, trace, stmts, input, k as nat);
    later_nodes_are_more(graph, trace, stmts, input, k as nat, stmts.len());
    links_have_origins(cx, edges);
    assert(stmts.take(stmts.len() as int) =~= stmts);
    state_within_cycle_ok(graph, stmts, trace.nodes, nodes, stmts, input, trace.state);
    assert(stmts[k] < graph.len());
    assert(nodes[place].inner == graph[stmts[k] as int].inner);
    assert(is_statement(graph, nodes[place].inner));
    assert(nodes[base + k].dependencies == resolved.links);
    assert(state_ok(nodes, cx.state, latest));
    assert(state_ok(nodes, cx.origin.state, latest)) by {
        let delay = graph[stmts[k] as int].inner.assign_delay;
        if delay > 0 {
            let t = (input.time - delay) as i64;
            assert(trace.snapshots.contains_key(t));
            state_stays_ok(trace.nodes, nodes, trace.snapshots[t].state, latest, latest);
        }
    }
    assert forall|j: int| 0 <= j < resolved.links.len() implies {
        &&& link_ok(nodes, place, #[trigger] resolved.links[j])
        &&& on_signal(resolved.links[j]) ==> signals[j] == text_of(
            nodes[resolved.links[j].0 as int].inner.assigns_to,
        ) && signals[j] is Some
    } by {
        let link = resolved.links[j];
        assert(link_origin(cx, resolved.declared.len(), link, signals[j]));
        if link.1 == PDGSpecEdgeKind::Declaration {
            assert(nodes[link.0 as int].timestamp == input.time - 1);
        }
        if on_signal(link) {
            let s = signals[j]->0;
            let state = if link.1 == PDGSpecEdgeKind::Data {
                cx.state
            } else {
                cx.origin.state
            };
            assert(state.contains_key(s));
            assert(assigns(nodes, state[s], s, latest));
        }
    }
    assert forall|j: int| 0 <= j < nodes[place].dependencies.len() implies link_ok(
        nodes,
        place,
        #[trigger] nodes[place].dependencies[j],
    ) by {
        assert(nodes[place].dependencies[j] == resolved.links[j]);
    }
    assert forall|j: int, m: int|
        0 <= j < m < nodes[place].dependencies.len() && on_signal(
            #[trigger] nodes[place].dependencies[j],
        ) && on_signal(#[trigger] nodes[place].dependencies[m]) implies text_of(
        nodes[nodes[place].dependencies[j].0 as int].inner.assigns_to,
    ) != text_of(nodes[nodes[place].dependencies[m].0 as int].inner.assigns_to) by {
        assert(nodes[place].dependencies[j] == resolved.links[j]);
        assert(nodes[place].dependencies[m] == resolved.links[m]);
        assert(signals[j] != signals[m]);
    }
    assert forall|j: int| 0 <= j < resolved.links.len() implies {
        let kind = (#[trigger] resolved.links[j]).1;
        &&& input.mode == GraphProcessingType::DataOnly ==> kind == PDGSpecEdgeKind::Data
        &&& kind == PDGSpecEdgeKind::Declaration ==> input.mode == GraphProcessingType::Full
        &&& kind != PDGSpecEdgeKind::Other
    } by {
        assert(link_origin(cx, resolved.declared.len(), resolved.links[j], signals[j]));
    }
}

/// A node that is in order stays so when nodes are added after it.
proof fn earlier_node_ok(
    graph: Seq<StaticModel>,
    earlier: Seq<DynModel>,
    nodes: Seq<DynModel>,
    from: int,
    to: int,
    n: int,
)
    requires
        node_ok(graph, earlier, from, n),
        0 <= n < earlier.len() <= nodes.len(),
        from <= to,
        forall|i: int| 0 <= i < earlier.len() ==> #[trigger] nodes[i] == earlier[i],
    ensures
        node_ok(graph, nodes, to, n),
{
    assert(nodes[n] == earlier[n]);
    let links = nodes[n].dependencies;
    assert forall|k: int| 0 <= k < links.len() implies link_ok(nodes, n, #[trigger] links[k]) by {
        assert(link_ok(earlier, n, earlier[n].dependencies[k]));
        assert(nodes[links[k].0 as int] == earlier[links[k].0 as int]);
    }
    assert forall|j: int, k: int|
        0 <= j < k < links.len() && on_signal(#[trigger] links[j]) && on_signal(
            #[trigger] links[k],
        ) implies text_of(nodes[links[j].0 as int].inner.assigns_to) != text_of(
        nodes[links[k].0 as int].inner.assigns_to,
    ) by {
        assert(link_ok(earlier, n, earlier[n].dependencies[j]));
        assert(link_ok(earlier, n, earlier[n].dependencies[k]));
        assert(nodes[links[j].0 as int] == earlier[links[j].0 as int]);
        assert(nodes[links[k].0 as int] == earlier[links[k].0 as int]);
    }
}

/// A clock cycle keeps the trace in order: it leaves the nodes that are there as they are and adds
/// executions of statements whose dependencies lead to nodes of the graph, are among those that
/// the mode asks for, are on each signal at most once and, control flow aside, never lead to a
/// later node. The node that is known for a signal assigns to it, and what is found is an execution
/// of the statement that is looked for.
pub proof fn a_cycle_keeps_the_trace_in_order(
    graph: Seq<StaticModel>,
    trace: TraceModel,
    activated: Seq<u32>,
    input: CycleInput,
    criterion: CriterionType,
)
    requires
        graph_ok(graph),
        stmts_ok(graph, activated),
        delayed_ok(graph, trace),
        trace_ok(graph, trace, input.time - 1),
        find_ok(trace, criterion),
        input.time >= 0,
        cycle(graph, trace, activated, input, criterion).nodes.len() <= usize::MAX,
    ensures
        trace_ok(graph, cycle(graph, trace, activated, input, criterion), input.time),
        find_ok(cycle(graph, trace, activated, input, criterion), criterion),
        trace.nodes.len() <= cycle(graph, trace, activated, input, criterion).nodes.len(),
        forall|n: int|
            0 <= n < trace.nodes.len() ==> #[trigger] cycle(
                graph,
                trace,
                activated,
                input,
                criterion,
            ).nodes[n] == trace.nodes[n],
        mode_ok(
            cycle(graph, trace, activated, input, criterion).nodes,
            trace.nodes.len() as int,
            input.mode,
        ),
{
    let after = cycle(graph, trace, activated, input, criterion);
    let stmts = effective(graph, trace, activated, input.time);
    let base = trace.nodes.len() as int;
    let nodes = after.nodes;
    let time = input.time;
    effective_in_order(graph, trace, activated, time);
    nodes_keep_their_shape(graph, trace, stmts, input, stmts.len());
    assert forall|n: int| 0 <= n < nodes.len() implies #[trigger] node_ok(
        graph,
        nodes,
        time,
        n,
    ) by {
        if n < base {
            assert(node_ok(graph, trace.nodes, time - 1, n));
            earlier_node_ok(graph, trace.nodes, nodes, time - 1, time, n);
        } else if n < base + stmts.len() {
            execution_ok(graph, trace, stmts, input, n - base);
        } else {
            assert(nodes[n].dependencies.len() == 0);
        }
    }
    assert(stmts.take(stmts.len() as int) =~= stmts);
    state_within_cycle_ok(graph, stmts, trace.nodes, nodes, stmts, input, trace.state);
    let state = state_after(graph, stmts, base, input, trace.state);
    let updates = updates_after(graph, stmts, base, input);
    assert forall|signal: Seq<char>| #[trigger] after.state.contains_key(signal) implies assigns(
        nodes,
        after.state[signal],
        signal,
        time,
    ) by {
        if updates.contains_key(signal) {
            assert(assigns(nodes, updates[signal], signal, time));
        } else {
            assert(state.contains_key(signal));
            assert(assigns(nodes, state[signal], signal, time - 1));
        }
    }
    assert forall|t: i64| #[trigger] after.snapshots.contains_key(t) implies state_ok(
        nodes,
        after.snapshots[t].state,
        time,
    ) by {
        if postponed(graph, activated).len() > 0 && t == time as i64 {
            state_stays_ok(nodes, nodes, state, time - 1, time);
        } else {
            assert(trace.snapshots.contains_key(t));
            state_stays_ok(trace.nodes, nodes, trace.snapshots[t].state, time - 1, time);
        }
    }
    if let CriterionType::Statement(name) = criterion {
        named_is_of_the_cycle(graph, stmts, base, name@);
        if let Some(n) = latest_named(graph, stmts, base, name@) {
            assert(nodes[n as int].inner == graph[stmts[n - base] as int].inner);
        }
    }
    assert forall|n: int, k: int|
        base <= n < nodes.len() && 0 <= k < nodes[n].dependencies.len() implies {
        let kind = (#[trigger] nodes[n].dependencies[k]).1;
        &&& input.mode == GraphProcessingType::DataOnly ==> kind == PDGSpecEdgeKind::Data
        &&& kind == PDGSpecEdgeKind::Declaration ==> input.mode == GraphProcessingType::Full
        &&& kind != PDGSpecEdgeKind::Other
    } by {
        if n < base + stmts.len() {
            execution_ok(graph, trace, stmts, input, n - base);
            assert(nodes[base + (n - base)].dependencies == resolved_at(
                graph,
                trace,
                stmts,
                input,
                n - base,
            ).links);
        }
    }
}

/// Every statement that takes effect in a cycle gets a node of its own, in order, at the time at
/// which it executes, with the dependencies that its static edges give.
pub proof fn every_execution_gets_its_node(
    graph: Seq<StaticModel>,
    trace: TraceModel,
    activated: Seq<u32>,
    input: CycleInput,
    criterion: CriterionType,
    k: int,
)
    requires
        graph_ok(graph),
        stmts_ok(graph, activated),
        delayed_ok(graph, trace),
        0 <= k < effective(graph, trace, activated, input.time).len(),
    ensures
        ({
            let stmt = graph[effective(graph, trace, activated, input.time)[k] as int].inner;
            let nodes = cycle(graph, trace, activated, input, criterion).nodes;
            let place = trace.nodes.len() + k;
            &&& place < nodes.len()
            &&& nodes[place].inner == stmt
            &&& nodes[place].timestamp == execution_time(stmt, input)
            &&& exists|next: int|
                nodes[place].dependencies == (#[trigger] resolve_edges(
                    context_of(
                        graph,
                        trace,
                        effective(graph, trace, activated, input.time),
                        input,
                        k,
                        next,
                    ),
                    graph[effective(graph, trace, activated, input.time)[k] as int].dependencies,
                )).links
        }),
{
    let stmts = effective(graph, trace, activated, input.time);
    effective_in_order(graph, trace, activated, input.time);
    nodes_keep_their_shape(graph, trace, stmts, input, stmts.len());
    let nodes = cycle(graph, trace, activated, input, criterion).nodes;
    assert(nodes[trace.nodes.len() + k].inner == graph[stmts[k] as int].inner);
    assert(nodes[trace.nodes.len() + k].dependencies == resolved_at(
        graph,
        trace,
        stmts,
        input,
        k,
    ).links);
}

/// An edge that is not passed over is followed: a dependency on a signal leads to the node that is
/// known for the signal, and one on control flow to the last execution of the condition.
pub proof fn edges_are_followed(cx: ResolveContext, edges: Seq<PDGSpecEdge>, i: int)
    requires
        0 <= i < edges.len(),
        !passed_over(cx, edges.take(i), edges[i]),
    ensures
        edges[i].kind == PDGSpecEdgeKind::Data || edges[i].kind == PDGSpecEdgeKind::Index ==> (
        target_signal(cx, edges[i]) matches Some(signal) ==> (provider(
            cx,
            edges[i].kind,
            signal,
        ) matches Some(node) ==> resolve_edges(cx, edges).links.contains((node, edges[i].kind)))),
        edges[i].kind == PDGSpecEdgeKind::Conditional ==> (latest_guard(
            cx.graph,
            cx.stmts,
            cx.base,
            cx.input,
            cx.graph[edges[i].to as int].inner@,
        ) matches Some(node) ==> resolve_edges(cx, edges).links.contains((node, edges[i].kind))),
    decreases edges.len(),
{
    let head = edges.drop_last();
    let before = resolve_edges(cx, head).links;
    let after = resolve_edges(cx, edges).links;
    if i < head.len() {
        assert(head.take(i) =~= edges.take(i));
        edges_are_followed(cx, head, i);
        assert forall|link: (usize, PDGSpecEdgeKind)| #[trigger]
            before.contains(link) implies after.contains(link) by {
            let k = choose|k: int| 0 <= k < before.len() && before[k] == link;
            assert(after[k] == link);
        }
    } else {
        assert(edges.take(i) =~= head);
        if after.len() > before.len() {
            assert(after[before.len() as int] == after.last());
        }
    }
}

/// Whether a statement assigns to a signal within the cycle.
pub open spec fn writes_signal_now(
    graph: Seq<StaticModel>,
    stmt: u32,
    input: CycleInput,
    signal: Seq<char>,
) -> bool {
    writes_now(graph[stmt as int].inner, input) && text_of(graph[stmt as int].inner.assigns_to)
        == Some(signal)
}

/// Whether no statement from a place on assigns to a signal within the cycle.
pub open spec fn unwritten_from(
    graph: Seq<StaticModel>,
    stmts: Seq<u32>,
    from: int,
    input: CycleInput,
    signal: Seq<char>,
) -> bool {
    forall|j: int|
        from <= j < stmts.len() ==> !writes_signal_now(graph, #[trigger] stmts[j], input, signal)
}

/// A signal to which nothing is assigned within a cycle keeps the node that was known for it.
pub proof fn an_unassigned_signal_keeps_its_node(
    graph: Seq<StaticModel>,
    stmts: Seq<u32>,
    base: int,
    input: CycleInput,
    state: SignalState,
    signal: Seq<char>,
)
    requires
        unwritten_from(graph, stmts, 0, input, signal),
    ensures
        state_after(graph, stmts, base, input, state).contains_key(signal) == state.contains_key(
            signal,
        ),
        state_after(graph, stmts, base, input, state)[signal] == state[signal],
    decreases stmts.len(),
{
    if stmts.len() > 0 {
        let head = stmts.drop_last();
        assert(unwritten_from(graph, head, 0, input, signal)) by {
            assert forall|j: int| 0 <= j < head.len() implies !writes_signal_now(
                graph,
                #[trigger] head[j],
                input,
                signal,
            ) by {
                assert(head[j] == stmts[j]);
            }
        }
        an_unassigned_signal_keeps_its_node(graph, head, base, input, state, signal);
        assert(!writes_signal_now(graph, stmts[stmts.len() - 1], input, signal));
    }
}

/// The last assignment to a signal within a cycle counts.
pub proof fn the_last_assignment_counts(
    graph: Seq<StaticModel>,
    stmts: Seq<u32>,
    base: int,
    input: CycleInput,
    state: SignalState,
    signal: Seq<char>,
    i: int,
)
    requires
        0 <= i < stmts.len(),
        writes_signal_now(graph, stmts[i], input, signal),
        unwritten_from(graph, stmts, i + 1, input, signal),
    ensures
        state_after(graph, stmts, base, input, state).contains_key(signal),
        state_after(graph, stmts, base, input, state)[signal] == (base + i) as usize,
    decreases stmts.len(),
{
    let head = stmts.drop_last();
    if i < stmts.len() - 1 {
        assert(unwritten_from(graph, head, i + 1, input, signal)) by {
            assert forall|j: int| i + 1 <= j < head.len() implies !writes_signal_now(
                graph,
                #[trigger] head[j],
                input,
                signal,
            ) by {
                assert(head[j] == stmts[j]);
            }
        }
        the_last_assignment_counts(graph, head, base, input, state, signal, i);
        assert(!writes_signal_now(graph, stmts[stmts.len() - 1], input, signal));
    }
}

/// Register updates take effect at the end of a cycle only: where all statements of a cycle are
/// clocked and none is a register definition that takes effect, signals keep their nodes within
/// the cycle.
pub proof fn registers_hold_within_a_cycle(
    graph: Seq<StaticModel>,
    stmts: Seq<u32>,
    base: int,
    input: CycleInput,
    state: SignalState,
)
    requires
        forall|i: int|
            0 <= i < stmts.len() ==> graph[(#[trigger] stmts[i]) as int].inner.clocked
                && !writes_now(graph[stmts[i] as int].inner, input),
    ensures
        state_after(graph, stmts, base, input, state) == state,
    decreases stmts.len(),
{
    if stmts.len() > 0 {
        let head = stmts.drop_last();
        assert forall|i: int| 0 <= i < head.len() implies graph[(
        #[trigger] head[i]) as int].inner.clocked && !writes_now(
            graph[head[i] as int].inner,
            input,
        ) by {
            assert(graph[stmts[i] as int].inner.clocked);
        }
        registers_hold_within_a_cycle(graph, head, base, input, state);
        assert(!writes_now(graph[stmts[stmts.len() - 1] as int].inner, input));
    }
}

/// Whether all delayed statements take effect after a time.
pub open spec fn all_after(delayed: Seq<(i64, u32)>, time: int) -> bool {
    forall|i: int| 0 <= i < delayed.len() ==> (#[trigger] delayed[i]).0 > time
}

/// A delayed statement takes effect in the cycle of its time and waits in every other cycle; a
/// statement that is postponed joins those that wait. None of them is ever overdue.
pub proof fn delayed_statements_wait_for_their_time(
    graph: Seq<StaticModel>,
    trace: TraceModel,
    activated: Seq<u32>,
    input: CycleInput,
    criterion: CriterionType,
)
    requires
        stmts_ok(graph, activated),
        all_after(trace.delayed, input.time - 1),
        0 <= input.time,
        input.time + u32::MAX <= i64::MAX,
    ensures
        all_after(cycle(graph, trace, activated, input, criterion).delayed, input.time),
        forall|i: int|
            0 <= i < trace.delayed.len() && (#[trigger] trace.delayed[i]).0 == input.time
                ==> effective(graph, trace, activated, input.time).contains(trace.delayed[i].1),
        forall|i: int|
            0 <= i < trace.delayed.len() && (#[trigger] trace.delayed[i]).0 != input.time
                ==> cycle(graph, trace, activated, input, criterion).delayed.contains(
                trace.delayed[i],
            ),
        forall|i: int|
            0 <= i < activated.len() && graph[(
            #[trigger] activated[i]) as int].inner.assign_delay > 0 ==> cycle(
                graph,
                trace,
                activated,
                input,
                criterion,
            ).delayed.contains(
                (
                    (input.time + graph[activated[i] as int].inner.assign_delay) as i64,
                    activated[i],
                ),
            ),
{
    let after = cycle(graph, trace, activated, input, criterion);
    let time = input.time;
    let waiting = not_due(trace.delayed, time);
    let later = postponed(graph, activated);
    let is_later = |s: u32| graph[s as int].inner.assign_delay != 0;
    let now = immediate(graph, activated);
    let ready = trace.delayed.filter(at_time(time));
    filter_origin(trace.delayed, at_other_time(time));
    filter_origin(activated, is_later);
    assert forall|i: int| 0 <= i < after.delayed.len() implies (#[trigger] after.delayed[i]).0
        > time by {
        if i < waiting.len() {
            assert(after.delayed[i] == waiting[i]);
            let k = choose|k: int| 0 <= k < trace.delayed.len() && trace.delayed[k] == waiting[i];
            assert(trace.delayed[k].0 > time - 1);
        } else {
            let stmt = later[i - waiting.len()];
            assert(is_later(stmt));
            assert(after.delayed[i].0 == (time + graph[stmt as int].inner.assign_delay) as i64);
        }
    }
    assert forall|i: int|
        0 <= i < trace.delayed.len() && (#[trigger] trace.delayed[i]).0 == time implies effective(
        graph,
        trace,
        activated,
        time,
    ).contains(trace.delayed[i].1) by {
        filter_keeps(trace.delayed, at_time(time), trace.delayed[i]);
        let k = choose|k: int| 0 <= k < ready.len() && ready[k] == trace.delayed[i];
        assert(effective(graph, trace, activated, time)[now.len() + k] == trace.delayed[i].1);
    }
    assert forall|i: int|
        0 <= i < trace.delayed.len() && (
        #[trigger] trace.delayed[i]).0 != time implies after.delayed.contains(trace.delayed[i]) by {
        filter_keeps(trace.delayed, at_other_time(time), trace.delayed[i]);
        let k = choose|k: int| 0 <= k < waiting.len() && waiting[k] == trace.delayed[i];
        assert(after.delayed[k] == trace.delayed[i]);
    }
    assert forall|i: int|
        0 <= i < activated.len() && graph[(
        #[trigger] activated[i]) as int].inner.assign_delay > 0 implies after.delayed.contains(
        ((time + graph[activated[i] as int].inner.assign_delay) as i64, activated[i]),
    ) by {
        filter_keeps(activated, is_later, activated[i]);
        let k = choose|k: int| 0 <= k < later.len() && later[k] == activated[i];
        assert(after.delayed[waiting.len() + k] == (
            (time + graph[activated[i] as int].inner.assign_delay) as i64,
            activated[i],
        ));
    }
}

/// Whether a node, where it is the definition of a register, was made in the first cycle or in one
/// during reset; `resets` gives the level of the reset in each cycle.
pub open spec fn definition_ok(node: DynModel, resets: spec_fn(int) -> Value) -> bool {
    node.inner.clocked && node.inner.kind == PDGSpecNodeKind::DataDefinition ==> node.timestamp
        == -1 || resets(node.timestamp + 1) == Value::V1
}

/// Whether the definitions of registers among the nodes that are known for signals were made in
/// the first cycle or during reset.
pub open spec fn state_defined(
    nodes: Seq<DynModel>,
    state: SignalState,
    resets: spec_fn(int) -> Value,
) -> bool {
    forall|signal: Seq<char>| #[trigger]
        state.contains_key(signal) ==> definition_ok(nodes[state[signal] as int], resets)
}

/// Whether the definitions of registers that other nodes depend on for a signal, or may depend on
/// later, were made in the first cycle or during reset.
pub open spec fn defined_ok(trace: TraceModel, resets: spec_fn(int) -> Value) -> bool {
    &&& state_defined(trace.nodes, trace.state, resets)
    &&& forall|t: i64| #[trigger]
        trace.snapshots.contains_key(t) ==> state_defined(
            trace.nodes,
            trace.snapshots[t].state,
            resets,
        )
    &&& forall|n: int, k: int|
        0 <= n < trace.nodes.len() && 0 <= k < trace.nodes[n].dependencies.len() && on_signal(
            #[trigger] trace.nodes[n].dependencies[k],
        ) ==> definition_ok(trace.nodes[trace.nodes[n].dependencies[k].0 as int], resets)
}

/// Whether definitions were made at the right time does not change when nodes are added.
proof fn state_stays_defined(
    earlier: Seq<DynModel>,
    nodes: Seq<DynModel>,
    state: SignalState,
    latest: int,
    resets: spec_fn(int) -> Value,
)
    requires
        state_ok(earlier, state, latest),
        state_defined(earlier, state, resets),
        earlier.len() <= nodes.len(),
        forall|i: int| 0 <= i < earlier.len() ==> #[trigger] nodes[i] == earlier[i],
    ensures
        state_defined(nodes, state, resets),
{
    assert forall|signal: Seq<char>| #[trigger] state.contains_key(signal) implies definition_ok(
        nodes[state[signal] as int],
        resets,
    ) by {
        assert(assigns(earlier, state[signal], signal, latest));
        assert(nodes[state[signal] as int] == earlier[state[signal] as int]);
    }
}

/// Within a cycle a register definition becomes known for its signal only where it takes effect.
proof fn state_within_cycle_defined(
    graph: Seq<StaticModel>,
    stmts: Seq<u32>,
    earlier: Seq<DynModel>,
    nodes: Seq<DynModel>,
    all: Seq<u32>,
    input: CycleInput,
    state: SignalState,
    resets: spec_fn(int) -> Value,
)
    requires
        shaped(nodes, graph, earlier, all, input),
        stmts.len() <= all.len(),
        stmts == all.take(stmts.len() as int),
        nodes.len() <= usize::MAX,
        state_ok(earlier, state, input.time - 1),
        state_defined(earlier, state, resets),
        resets(input.time) == input.reset,
    ensures
        state_defined(
            nodes,
            state_after(graph, stmts, earlier.len() as int, input, state),
            resets,
        ),
        state_defined(nodes, updates_after(graph, stmts, earlier.len() as int, input), resets),
    decreases stmts.len(),
{
    let base = earlier.len() as int;
    if stmts.len() > 0 {
        let head = stmts.drop_last();
        assert(head =~= all.take(head.len() as int));
        state_within_cycle_defined(graph, head, earlier, nodes, all, input, state, resets);
        let place = base + stmts.len() - 1;
        let stmt = graph[stmts.last() as int].inner;
        assert(nodes[place].inner == graph[all[place - base] as int].inner);
        assert(nodes[place].inner == stmt);
        if writes_now(stmt, input) {
            assert(definition_ok(nodes[place], resets));
        }
    } else {
        state_stays_defined(earlier, nodes, state, input.time - 1, resets);
    }
}

/// A register definition provides its value only in the first cycle and during reset: a clock cycle
/// keeps it so that a definition on which a node depends for a signal was made then.
pub proof fn definitions_provide_at_the_start_or_during_reset(
    graph: Seq<StaticModel>,
    trace: TraceModel,
    activated: Seq<u32>,
    input: CycleInput,
    criterion: CriterionType,
    resets: spec_fn(int) -> Value,
)
    requires
        graph_ok(graph),
        stmts_ok(graph, activated),
        delayed_ok(graph, trace),
        trace_ok(graph, trace, input.time - 1),
        defined_ok(trace, resets),
        resets(input.time) == input.reset,
        input.time >= 0,
        cycle(graph, trace, activated, input, criterion).nodes.len() <= usize::MAX,
    ensures
        defined_ok(cycle(graph, trace, activated, input, criterion), resets),
{
    let after = cycle(graph, trace, activated, input, criterion);
    let stmts = effective(graph, trace, activated, input.time);
    let base = trace.nodes.len() as int;
    let nodes = after.nodes;
    let latest = input.time - 1;
    let state = state_after(graph, stmts, base, input, trace.state);
    let updates = updates_after(graph, stmts, base, input);
    effective_in_order(graph, trace, activated, input.time);
    nodes_keep_their_shape(graph, trace, stmts, input, stmts.len());
    assert(stmts.take(stmts.len() as int) =~= stmts);
    state_within_cycle_defined(
        graph,
        stmts,
        trace.nodes,
        nodes,
        stmts,
        input,
        trace.state,
        resets,
    );
    assert(state_defined(nodes, after.state, resets)) by {
        assert forall|signal: Seq<char>| #[trigger]
            after.state.contains_key(signal) implies definition_ok(
            nodes[after.state[signal] as int],
            resets,
        ) by {
            if updates.contains_key(signal) {
                assert(definition_ok(nodes[updates[signal] as int], resets));
            } else {
                assert(state.contains_key(signal));
            }
        }
    }
    assert forall|t: i64| #[trigger] trace.snapshots.contains_key(t) implies state_defined(
        nodes,
        trace.snapshots[t].state,
        resets,
    ) by {
        state_stays_defined(trace.nodes, nodes, trace.snapshots[t].state, latest, resets);
    }
    assert forall|t: i64| #[trigger] after.snapshots.contains_key(t) implies state_defined(
        nodes,
        after.snapshots[t].state,
        resets,
    ) by {
        if !(postponed(graph, activated).len() > 0 && t == input.time as i64) {
            assert(trace.snapshots.contains_key(t));
        }
    }
    assert forall|n: int, k: int|
        0 <= n < nodes.len() && 0 <= k < nodes[n].dependencies.len() && on_signal(
            #[trigger] nodes[n].dependencies[k],
        ) implies definition_ok(nodes[nodes[n].dependencies[k].0 as int], resets) by {
        let link = nodes[n].dependencies[k];
        if n < base {
            assert(nodes[n] == trace.nodes[n]);
            assert(node_ok(graph, trace.nodes, latest, n));
            assert(link_ok(trace.nodes, n, trace.nodes[n].dependencies[k]));
            assert(nodes[link.0 as int] == trace.nodes[link.0 as int]);
        } else {
            assert(n < base + stmts.len());
            links_are_defined(graph, trace, stmts, input, resets, n - base, k);
        }
    }
}

/// A dependency of an execution on a register definition is one on a definition that takes effect.
proof fn links_are_defined(
    graph: Seq<StaticModel>,
    trace: TraceModel,
    stmts: Seq<u32>,
    input: CycleInput,
    resets: spec_fn(int) -> Value,
    i: int,
    k: int,
)
    requires
        graph_ok(graph),
        stmts_ok(graph, stmts),
        origins_kept(graph, trace.snapshots, stmts, input.time),
        nodes_after(graph, trace, stmts, input, stmts.len()).len() <= usize::MAX,
        0 <= i < stmts.len(),
        0 <= k < nodes_after(graph, trace, stmts, input, stmts.len())[trace.nodes.len()
            + i].dependencies.len(),
        on_signal(
            nodes_after(graph, trace, stmts, input, stmts.len())[trace.nodes.len()
                + i].dependencies[k],
        ),
        state_defined(
            nodes_after(graph, trace, stmts, input, stmts.len()),
            state_after(graph, stmts, trace.nodes.len() as int, input, trace.state),
            resets,
        ),
        forall|t: i64| #[trigger]
            trace.snapshots.contains_key(t) ==> state_defined(
                nodes_after(graph, trace, stmts, input, stmts.len()),
                trace.snapshots[t].state,
                resets,
            ),
    ensures
        ({
            let nodes = nodes_after(graph, trace, stmts, input, stmts.len());
            definition_ok(
                nodes[nodes[trace.nodes.len() + i].dependencies[k].0 as int],
                resets,
            )
        }),
{
    let base = trace.nodes.len() as int;
    let nodes = nodes_after(graph, trace, stmts, input, stmts.len());
    let cx = context_at(graph, trace, stmts, input, i);
    let edges = graph[stmts[i] as int].dependencies;
    let resolved = resolved_at(graph, trace, stmts, input, i);
    let signals = link_signals(cx, edges);
    nodes_keep_their_shape(graph, trace, stmts, input, stmts.len());
    nodes_keep_their_shape(graph, trace, stmts, input, i as nat);
    later_nodes_are_more(graph, trace, stmts, input, i as nat, stmts.len());
    links_have_origins(cx, edges);
    assert(nodes[base + i].dependencies == resolved.links);
    let link = resolved.links[k];
    assert(link_origin(cx, resolved.declared.len(), link, signals[k]));
    let signal = signals[k]->0;
    let delay = graph[stmts[i] as int].inner.assign_delay;
    if delay > 0 {
        assert(trace.snapshots.contains_key((input.time - delay) as i64));
    }
    if link.1 == PDGSpecEdgeKind::Data {
        assert(cx.state.contains_key(signal));
    } else {
        assert(cx.origin.state.contains_key(signal));
        assert(state_defined(nodes, cx.origin.state, resets));
    }
}

} // verus!
