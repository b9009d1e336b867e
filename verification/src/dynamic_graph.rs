//! The dynamic dependence graph: what one clock cycle adds to it.

use std::rc::Rc;

use vstd::prelude::*;

use crate::pdg_spec::{
    PDGSpecCondition, PDGSpecEdge, PDGSpecEdgeKind, PDGSpecNode, PDGSpecNodeKind, SpecNodeModel,
};
use crate::static_graph::{edge_values, PDGNode};
use crate::text::text_of;
use crate::vcd_input::Value;

verus! {

/// A node of the dynamic graph: an executed statement.
#[derive(Debug)]
pub struct DynPDGNode {
    pub inner: Rc<PDGSpecNode>,
    /// Simulation time when this statement executed.
    pub timestamp: i64,
    /// Dynamic dependencies on other executed statements, by their place in the graph.
    pub dependencies: Vec<(usize, PDGSpecEdgeKind)>,
}

/// Specifies what to trace in the simulation.
#[derive(Debug, PartialEq, Eq)]
pub enum CriterionType {
    /// Trace back from a specific statement by name.
    Statement(String),
    /// Trace back from a specific signal by name.
    Signal(String),
}

impl Clone for CriterionType {
    fn clone(&self) -> (r: CriterionType)
        ensures
            r == *self,
    {
        match self {
            CriterionType::Statement(name) => CriterionType::Statement(name.clone()),
            CriterionType::Signal(name) => CriterionType::Signal(name.clone()),
        }
    }
}

/// Controls which types of dependencies to include in the dynamic graph.
#[derive(Debug, Clone, Copy, PartialEq, Eq, Structural)]
pub enum GraphProcessingType {
    /// Data, control flow and index dependencies.
    Normal,
    /// Data dependencies only, for smaller graphs.
    DataOnly,
    /// Statement definitions as well, for full dynamic program slicing.
    Full,
}

/// Content of a [`DynPDGNode`].
#[verifier::ext_equal]
pub struct DynModel {
    pub inner: PDGSpecNode,
    pub timestamp: int,
    pub dependencies: Seq<(usize, PDGSpecEdgeKind)>,
}

/// A statement of the static graph with the edges to what it depends on and from what it provides
/// for.
#[verifier::ext_equal]
pub struct StaticModel {
    pub inner: PDGSpecNode,
    pub dependencies: Seq<PDGSpecEdge>,
    pub provides: Seq<PDGSpecEdge>,
}

impl View for DynPDGNode {
    type V = DynModel;

    open spec fn view(&self) -> DynModel {
        DynModel {
            inner: *self.inner,
            timestamp: self.timestamp as int,
            dependencies: self.dependencies@,
        }
    }
}

/// Contents of a list of nodes.
pub open spec fn dyn_models(nodes: Seq<DynPDGNode>) -> Seq<DynModel> {
    Seq::new(nodes.len(), |i: int| nodes[i]@)
}

/// The static graph behind a list of linked statements.
pub open spec fn static_models(nodes: Seq<PDGNode>) -> Seq<StaticModel> {
    Seq::new(
        nodes.len(),
        |i: int|
            StaticModel {
                inner: *nodes[i].inner,
                dependencies: edge_values(nodes[i].dependencies@),
                provides: edge_values(nodes[i].provides@),
            },
    )
}

/// For each signal the node that assigned to it last.
pub type SignalState = Map<Seq<char>, usize>;

/// What a clock cycle is processed with.
#[verifier::ext_equal]
pub struct CycleInput {
    pub time: int,
    pub reset: Value,
    pub probes: Map<Seq<char>, u64>,
    pub mode: GraphProcessingType,
}

/// The state at the end of an earlier cycle, for assignments that were initiated then.
#[verifier::ext_equal]
pub struct Snapshot {
    pub state: SignalState,
    pub probes: Map<Seq<char>, u64>,
}

/// Whether the `i`-th probe of a condition has the value that the condition asks for.
pub open spec fn probe_agrees(
    condition: PDGSpecCondition,
    probes: Map<Seq<char>, u64>,
    i: int,
) -> bool {
    let name = condition.probe_name@[i]@;
    probes.contains_key(name) && probes[name] == condition.probe_value@[i]
}

/// Whether every probe that a condition names has the value that it asks for.
pub open spec fn probes_agree(
    condition: PDGSpecCondition,
    probes: Map<Seq<char>, u64>,
) -> bool {
    forall|i: int|
        0 <= i < condition.probe_name@.len() && i < condition.probe_value@.len()
            ==> #[trigger] probe_agrees(condition, probes, i)
}

/// Whether a condition is met; what has no condition always takes effect.
pub open spec fn holds(
    condition: Option<PDGSpecCondition>,
    probes: Map<Seq<char>, u64>,
) -> bool {
    match condition {
        None => true,
        Some(c) => probes_agree(c, probes),
    }
}

/// Whether a register definition takes effect: at the start of the trace and during reset.
pub open spec fn initializes(input: CycleInput) -> bool {
    input.time == 0 || input.reset == Value::V1
}

/// Whether a statement assigns to its signal within the cycle: combinational logic does, and a
/// register definition where it takes effect.
pub open spec fn writes_now(stmt: PDGSpecNode, input: CycleInput) -> bool {
    &&& holds(stmt.condition, input.probes)
    &&& stmt.assigns_to is Some
    &&& !stmt.clocked || (stmt.kind == PDGSpecNodeKind::DataDefinition && initializes(input))
}

/// Whether a statement assigns to its signal at the end of the cycle: register updates do.
pub open spec fn writes_at_end(stmt: PDGSpecNode, input: CycleInput) -> bool {
    &&& holds(stmt.condition, input.probes)
    &&& stmt.assigns_to is Some
    &&& stmt.clocked
    &&& stmt.kind != PDGSpecNodeKind::DataDefinition
}

/// Whether a statement decides control flow in the cycle.
pub open spec fn is_guard(stmt: PDGSpecNode, input: CycleInput) -> bool {
    holds(stmt.condition, input.probes) && stmt.kind == PDGSpecNodeKind::ControlFlow
}

/// The time of an executed statement: clocked statements execute at the cycle boundary and
/// combinational logic before it, as does a register definition that takes effect.
pub open spec fn execution_time(stmt: PDGSpecNode, input: CycleInput) -> int {
    if stmt.clocked && !writes_now(stmt, input) {
        input.time
    } else {
        input.time - 1
    }
}

/// The node of an executed statement before its dependencies are known.
pub open spec fn executed(stmt: PDGSpecNode, input: CycleInput) -> DynModel {
    DynModel { inner: stmt, timestamp: execution_time(stmt, input), dependencies: Seq::empty() }
}

/// The signal states after the statements have executed, the `i`-th as node `base + i`; the last
/// assignment to a signal counts.
pub open spec fn state_after(
    graph: Seq<StaticModel>,
    stmts: Seq<u32>,
    base: int,
    input: CycleInput,
    state: SignalState,
) -> SignalState
    decreases stmts.len(),
{
    if stmts.len() == 0 {
        state
    } else {
        let before = state_after(graph, stmts.drop_last(), base, input, state);
        let stmt = graph[stmts.last() as int].inner;
        if writes_now(stmt, input) {
            before.insert(stmt.assigns_to->0@, (base + stmts.len() - 1) as usize)
        } else {
            before
        }
    }
}

/// The register updates that the statements buffer for the end of the cycle.
pub open spec fn updates_after(
    graph: Seq<StaticModel>,
    stmts: Seq<u32>,
    base: int,
    input: CycleInput,
) -> SignalState
    decreases stmts.len(),
{
    if stmts.len() == 0 {
        Map::empty()
    } else {
        let before = updates_after(graph, stmts.drop_last(), base, input);
        let stmt = graph[stmts.last() as int].inner;
        if writes_at_end(stmt, input) {
            before.insert(stmt.assigns_to->0@, (base + stmts.len() - 1) as usize)
        } else {
            before
        }
    }
}

/// The node of the last control flow statement with a given content.
pub open spec fn latest_guard(
    graph: Seq<StaticModel>,
    stmts: Seq<u32>,
    base: int,
    input: CycleInput,
    wanted: SpecNodeModel,
) -> Option<usize>
    decreases stmts.len(),
{
    if stmts.len() == 0 {
        None
    } else {
        let stmt = graph[stmts.last() as int].inner;
        if is_guard(stmt, input) && stmt@ == wanted {
            Some((base + stmts.len() - 1) as usize)
        } else {
            latest_guard(graph, stmts.drop_last(), base, input, wanted)
        }
    }
}

/// What the dependencies of a node are resolved with.
#[verifier::ext_equal]
pub struct ResolveContext {
    pub graph: Seq<StaticModel>,
    /// The statements of the cycle and the node of the first of them.
    pub stmts: Seq<u32>,
    pub base: int,
    pub input: CycleInput,
    /// The current signal states, for data dependencies.
    pub state: SignalState,
    /// The signal states and probe values when the statement was initiated.
    pub origin: Snapshot,
    /// The place of the next new node.
    pub next: int,
}

/// Whether an edge counts in the cycle.
pub open spec fn edge_live(cx: ResolveContext, edge: PDGSpecEdge) -> bool {
    &&& cx.input.mode == GraphProcessingType::DataOnly ==> edge.kind == PDGSpecEdgeKind::Data
    &&& holds(edge.condition, cx.origin.probes)
}

/// The signal that the target of an edge assigns to.
pub open spec fn target_signal(cx: ResolveContext, edge: PDGSpecEdge) -> Option<Seq<char>> {
    text_of(cx.graph[edge.to as int].inner.assigns_to)
}

/// Whether an edge settles which node provides a signal.
pub open spec fn settles(cx: ResolveContext, edge: PDGSpecEdge, signal: Seq<char>) -> bool {
    &&& edge_live(cx, edge)
    &&& edge.kind == PDGSpecEdgeKind::Data || edge.kind == PDGSpecEdgeKind::Index
    &&& target_signal(cx, edge) == Some(signal)
}

/// Whether one of the edges settles which node provides a signal.
pub open spec fn settled(
    cx: ResolveContext,
    edges: Seq<PDGSpecEdge>,
    signal: Seq<char>,
) -> bool {
    exists|i: int| 0 <= i < edges.len() && settles(cx, #[trigger] edges[i], signal)
}

/// The dependencies of a node and the declaration nodes that are made for them.
#[verifier::ext_equal]
pub struct Resolved {
    pub links: Seq<(usize, PDGSpecEdgeKind)>,
    pub declared: Seq<DynModel>,
}

/// The node that provides a signal for a data or index dependency.
pub open spec fn provider(cx: ResolveContext, kind: PDGSpecEdgeKind, signal: Seq<char>) -> Option<
    usize,
> {
    let state = if kind == PDGSpecEdgeKind::Data {
        cx.state
    } else {
        cx.origin.state
    };
    if state.contains_key(signal) {
        Some(state[signal])
    } else {
        None
    }
}

/// What an edge adds to the dependencies that the edges before it gave.
pub open spec fn resolve_edge(cx: ResolveContext, before: Resolved, edge: PDGSpecEdge) -> Resolved {
    match edge.kind {
        PDGSpecEdgeKind::Declaration => if cx.input.mode == GraphProcessingType::Full {
            Resolved {
                links: before.links.push(
                    (
                        (cx.next + before.declared.len()) as usize,
                        PDGSpecEdgeKind::Declaration,
                    ),
                ),
                declared: before.declared.push(
                    DynModel {
                        inner: cx.graph[edge.to as int].inner,
                        timestamp: cx.input.time - 1,
                        dependencies: Seq::empty(),
                    },
                ),
            }
        } else {
            before
        },
        PDGSpecEdgeKind::Data | PDGSpecEdgeKind::Index => match target_signal(cx, edge) {
            Some(signal) => match provider(cx, edge.kind, signal) {
                Some(node) => Resolved { links: before.links.push((node, edge.kind)), ..before },
                None => before,
            },
            None => before,
        },
        PDGSpecEdgeKind::Conditional => match latest_guard(
            cx.graph,
            cx.stmts,
            cx.base,
            cx.input,
            cx.graph[edge.to as int].inner@,
        ) {
            Some(node) => Resolved { links: before.links.push((node, edge.kind)), ..before },
            None => before,
        },
        PDGSpecEdgeKind::Other => before,
    }
}

/// Whether an edge is passed over, because it does not count in the cycle or because an edge
/// before it has settled the signal of its target.
pub open spec fn passed_over(
    cx: ResolveContext,
    earlier: Seq<PDGSpecEdge>,
    edge: PDGSpecEdge,
) -> bool {
    ||| !edge_live(cx, edge)
    ||| target_signal(cx, edge) matches Some(signal) && settled(cx, earlier, signal)
}

/// The dynamic dependencies that a list of static edges gives.
pub open spec fn resolve_edges(cx: ResolveContext, edges: Seq<PDGSpecEdge>) -> Resolved
    decreases edges.len(),
{
    if edges.len() == 0 {
        Resolved { links: Seq::empty(), declared: Seq::empty() }
    } else {
        let before = resolve_edges(cx, edges.drop_last());
        if passed_over(cx, edges.drop_last(), edges.last()) {
            before
        } else {
            resolve_edge(cx, before, edges.last())
        }
    }
}

/// The state of the trace between clock cycles.
#[verifier::ext_equal]
pub struct TraceModel {
    /// All nodes of the dynamic graph.
    pub nodes: Seq<DynModel>,
    pub state: SignalState,
    /// Statements whose assignments are still to come, with the time at which they do.
    pub delayed: Seq<(i64, u32)>,
    pub snapshots: Map<i64, Snapshot>,
    /// The node of the last execution of the statement that is looked for.
    pub found: Option<usize>,
}

/// What the dependencies of an executed statement are resolved with. A delayed statement is
/// resolved with what held when it was initiated.
pub open spec fn context_of(
    graph: Seq<StaticModel>,
    trace: TraceModel,
    stmts: Seq<u32>,
    input: CycleInput,
    index: int,
    next: int,
) -> ResolveContext {
    let base = trace.nodes.len() as int;
    let state = state_after(graph, stmts, base, input, trace.state);
    let delay = graph[stmts[index] as int].inner.assign_delay;
    ResolveContext {
        graph,
        stmts,
        base,
        input,
        state,
        origin: if delay > 0 {
            trace.snapshots[(input.time - delay) as i64]
        } else {
            Snapshot { state, probes: input.probes }
        },
        next,
    }
}

/// The nodes of the graph when the dependencies of the first `n` executed statements are resolved.
pub open spec fn nodes_after(
    graph: Seq<StaticModel>,
    trace: TraceModel,
    stmts: Seq<u32>,
    input: CycleInput,
    n: nat,
) -> Seq<DynModel>
    decreases n,
{
    if n == 0 {
        trace.nodes + Seq::new(stmts.len(), |i: int| executed(graph[stmts[i] as int].inner, input))
    } else {
        let before = nodes_after(graph, trace, stmts, input, (n - 1) as nat);
        let place = trace.nodes.len() + n - 1;
        let cx = context_of(graph, trace, stmts, input, n - 1, before.len() as int);
        let resolved = resolve_edges(cx, graph[stmts[n - 1] as int].dependencies);
        before.update(
            place,
            DynModel { dependencies: resolved.links, ..before[place] },
        ) + resolved.declared
    }
}

/// The node of the last executed statement with a given name.
pub open spec fn latest_named(
    graph: Seq<StaticModel>,
    stmts: Seq<u32>,
    base: int,
    name: Seq<char>,
) -> Option<usize>
    decreases stmts.len(),
{
    if stmts.len() == 0 {
        None
    } else if graph[stmts.last() as int].inner.name@ == name {
        Some((base + stmts.len() - 1) as usize)
    } else {
        latest_named(graph, stmts.drop_last(), base, name)
    }
}

/// The statements among `stmts` that take effect in the cycle that executes them.
pub open spec fn immediate(graph: Seq<StaticModel>, stmts: Seq<u32>) -> Seq<u32> {
    stmts.filter(|s: u32| graph[s as int].inner.assign_delay == 0)
}

/// The statements among `stmts` that take effect later.
pub open spec fn postponed(graph: Seq<StaticModel>, stmts: Seq<u32>) -> Seq<u32> {
    stmts.filter(|s: u32| graph[s as int].inner.assign_delay != 0)
}

/// Takes effect at a time.
pub open spec fn at_time(time: int) -> spec_fn((i64, u32)) -> bool {
    |d: (i64, u32)| d.0 == time
}

/// Takes effect at another time.
pub open spec fn at_other_time(time: int) -> spec_fn((i64, u32)) -> bool {
    |d: (i64, u32)| d.0 != time
}

/// The delayed statements that take effect at a time.
pub open spec fn due(delayed: Seq<(i64, u32)>, time: int) -> Seq<u32> {
    delayed.filter(at_time(time)).map_values(|d: (i64, u32)| d.1)
}

/// The delayed statements that do not take effect at a time.
pub open spec fn not_due(delayed: Seq<(i64, u32)>, time: int) -> Seq<(i64, u32)> {
    delayed.filter(at_other_time(time))
}

/// The statements that take effect in a cycle: the activated ones without a delay, then the
/// delayed ones that are due.
pub open spec fn effective(
    graph: Seq<StaticModel>,
    trace: TraceModel,
    activated: Seq<u32>,
    time: int,
) -> Seq<u32> {
    immediate(graph, activated) + due(trace.delayed, time)
}

/// A delayed statement with the time at which it takes effect.
pub open spec fn schedule(graph: Seq<StaticModel>, stmts: Seq<u32>, time: int) -> Seq<(i64, u32)> {
    Seq::new(
        stmts.len(),
        |i: int| ((time + graph[stmts[i] as int].inner.assign_delay) as i64, stmts[i]),
    )
}

/// The trace after one more clock cycle, in which control flow activated some statements.
pub open spec fn cycle(
    graph: Seq<StaticModel>,
    trace: TraceModel,
    activated: Seq<u32>,
    input: CycleInput,
    criterion: CriterionType,
) -> TraceModel {
    let stmts = effective(graph, trace, activated, input.time);
    let base = trace.nodes.len() as int;
    let later = postponed(graph, activated);
    let state = state_after(graph, stmts, base, input, trace.state);
    TraceModel {
        nodes: nodes_after(graph, trace, stmts, input, stmts.len()),
        state: state.union_prefer_right(updates_after(graph, stmts, base, input)),
        delayed: not_due(trace.delayed, input.time) + schedule(graph, later, input.time),
        snapshots: if later.len() > 0 {
            trace.snapshots.insert(
                input.time as i64,
                Snapshot { state, probes: input.probes },
            )
        } else {
            trace.snapshots
        },
        found: match criterion {
            CriterionType::Statement(name) => match latest_named(graph, stmts, base, name@) {
                Some(node) => Some(node),
                None => trace.found,
            },
            CriterionType::Signal(_) => trace.found,
        },
    }
}

/// The trace without delayed statements and without a find.
pub open spec fn restarted(trace: TraceModel) -> TraceModel {
    TraceModel { delayed: Seq::empty(), snapshots: Map::empty(), found: None, ..trace }
}

/// The node that a criterion selects: the last execution of a statement, or the node that assigned
/// to a signal last.
pub open spec fn selection(trace: TraceModel, criterion: CriterionType) -> Option<usize> {
    match criterion {
        CriterionType::Statement(_) => trace.found,
        CriterionType::Signal(signal) => if trace.state.contains_key(signal@) {
            Some(trace.state[signal@])
        } else {
            None
        },
    }
}

} // verus!
