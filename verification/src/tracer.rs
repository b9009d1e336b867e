//! Builds the dynamic dependence graph cycle by cycle.

use std::collections::HashMap;
use std::rc::Rc;

use vstd::hash_map::StringHashMap;
use vstd::prelude::*;

use crate::dynamic_graph::{
    at_other_time, at_time, context_of, cycle, due, dyn_models, edge_live, effective, executed,
    holds, immediate, is_guard, latest_guard, latest_named, nodes_after, not_due, passed_over,
    postponed, probe_agrees, resolve_edge, resolve_edges, restarted, schedule, selection, settled,
    settles, state_after, static_models, updates_after, CriterionType, CycleInput, DynModel,
    DynPDGNode, GraphProcessingType, ResolveContext, Snapshot, StaticModel, TraceModel,
};
use crate::lists::{filter_origin, filter_push};
use crate::name_map::NameMap;
use crate::pdg_spec::{
    PDGSpecCondition, PDGSpecEdge, PDGSpecEdgeKind, PDGSpecNode, PDGSpecNodeKind, SpecNodeModel,
};
use crate::static_graph::{edge_values, PDGNode};
use crate::vcd_input::Value;

verus! {

broadcast use vstd::std_specs::hash::group_hash_axioms;

/// Tells whether a condition is met.
pub fn condition_holds(condition: &Option<PDGSpecCondition>, probes: &NameMap<u64>) -> (r: bool)
    ensures
        r == holds(*condition, probes@),
{
    match condition {
        None => true,
        Some(c) => {
            let mut i: usize = 0;
            while i < c.probe_name.len() && i < c.probe_value.len()
                invariant
                    *condition == Some(*c),
                    i <= c.probe_name.len(),
                    i <= c.probe_value.len(),
                    forall|k: int| 0 <= k < i ==> #[trigger] probe_agrees(*c, probes@, k),
                decreases c.probe_name.len() - i,
            {
                let agrees: bool = match probes.get(c.probe_name[i].as_str()) {
                    Some(value) => value == c.probe_value[i],
                    None => false,
                };
                assert(agrees == probe_agrees(*c, probes@, i as int));
                if !agrees {
                    return false;
                }
                i = i + 1;
            }
            true
        },
    }
}

/// The signal states and probe values at the end of a cycle.
pub struct SnapshotMaps {
    state: NameMap<usize>,
    probes: NameMap<u64>,
}

impl SnapshotMaps {
    spec fn model(self) -> Snapshot {
        Snapshot { state: self.state@, probes: self.probes@ }
    }
}

/// What a clock cycle is processed with.
pub struct CycleInputs<'a> {
    pub graph: &'a Vec<PDGNode>,
    /// Number of clock cycles before this one.
    pub time: i64,
    pub reset: Value,
    pub probes: &'a NameMap<u64>,
    pub mode: GraphProcessingType,
}

impl<'a> CycleInputs<'a> {
    /// The static graph.
    pub open spec fn statics(self) -> Seq<StaticModel> {
        static_models(self.graph@)
    }

    /// The inputs of the cycle.
    pub open spec fn input(self) -> CycleInput {
        CycleInput {
            time: self.time as int,
            reset: self.reset,
            probes: self.probes@,
            mode: self.mode,
        }
    }

    /// The edges of the graph lead to its statements, and time is within bounds.
    pub open spec fn wf(self) -> bool {
        &&& graph_ok(self.statics())
        &&& self.probes.wf()
        &&& 0 <= self.time
        &&& self.time + u32::MAX <= i64::MAX
    }
}

/// Whether the edges of a graph lead to its statements.
pub open spec fn graph_ok(graph: Seq<StaticModel>) -> bool {
    forall|i: int, k: int|
        0 <= i < graph.len() && 0 <= k < graph[i].dependencies.len() ==> (
        #[trigger] graph[i].dependencies[k]).to < graph.len()
}

/// Whether statements are statements of a graph.
pub open spec fn stmts_ok(graph: Seq<StaticModel>, stmts: Seq<u32>) -> bool {
    forall|i: int| 0 <= i < stmts.len() ==> (#[trigger] stmts[i]) < graph.len()
}

/// Whether a delayed statement is one of the graph, and the state of the cycle that initiated it
/// has been kept.
pub open spec fn entry_ok(
    graph: Seq<StaticModel>,
    snapshots: Map<i64, Snapshot>,
    entry: (i64, u32),
) -> bool {
    &&& entry.1 < graph.len()
    &&& graph[entry.1 as int].inner.assign_delay > 0
    &&& 0 <= entry.0 - graph[entry.1 as int].inner.assign_delay
    &&& snapshots.contains_key((entry.0 - graph[entry.1 as int].inner.assign_delay) as i64)
}

/// Whether all delayed statements are in order.
pub open spec fn delayed_ok(graph: Seq<StaticModel>, trace: TraceModel) -> bool {
    forall|i: int|
        0 <= i < trace.delayed.len() ==> entry_ok(graph, trace.snapshots, #[trigger] trace.delayed[i])
}

/// The control flow statements of a cycle with their nodes.
spec fn guards_of(
    graph: Seq<StaticModel>,
    stmts: Seq<u32>,
    base: int,
    input: CycleInput,
) -> Seq<(u32, usize)>
    decreases stmts.len(),
{
    if stmts.len() == 0 {
        Seq::empty()
    } else {
        let before = guards_of(graph, stmts.drop_last(), base, input);
        if is_guard(graph[stmts.last() as int].inner, input) {
            before.push((stmts.last(), (base + stmts.len() - 1) as usize))
        } else {
            before
        }
    }
}

/// The last entry of a list of control flow statements with a given content.
spec fn last_guard(
    graph: Seq<StaticModel>,
    guards: Seq<(u32, usize)>,
    wanted: SpecNodeModel,
) -> Option<usize>
    decreases guards.len(),
{
    if guards.len() == 0 {
        None
    } else if graph[guards.last().0 as int].inner@ == wanted {
        Some(guards.last().1)
    } else {
        last_guard(graph, guards.drop_last(), wanted)
    }
}

/// The list of control flow statements suffices to find the last one with a given content.
proof fn guards_suffice(
    graph: Seq<StaticModel>,
    stmts: Seq<u32>,
    base: int,
    input: CycleInput,
    wanted: SpecNodeModel,
)
    ensures
        last_guard(graph, guards_of(graph, stmts, base, input), wanted) == latest_guard(
            graph,
            stmts,
            base,
            input,
            wanted,
        ),
    decreases stmts.len(),
{
    if stmts.len() > 0 {
        guards_suffice(graph, stmts.drop_last(), base, input, wanted);
        let before = guards_of(graph, stmts.drop_last(), base, input);
        let all = guards_of(graph, stmts, base, input);
        if is_guard(graph[stmts.last() as int].inner, input) {
            assert(all.drop_last() =~= before);
        }
    }
}

/// The control flow statements of a cycle are statements of the graph.
proof fn guards_in_graph(graph: Seq<StaticModel>, stmts: Seq<u32>, base: int, input: CycleInput)
    requires
        stmts_ok(graph, stmts),
    ensures
        forall|i: int|
            0 <= i < guards_of(graph, stmts, base, input).len() ==> (#[trigger] guards_of(
                graph,
                stmts,
                base,
                input,
            )[i]).0 < graph.len(),
    decreases stmts.len(),
{
    if stmts.len() > 0 {
        assert(stmts_ok(graph, stmts.drop_last())) by {
            assert forall|i: int| 0 <= i < stmts.drop_last().len() implies (
            #[trigger] stmts.drop_last()[i]) < graph.len() by {
                assert(stmts[i] < graph.len());
            }
        }
        guards_in_graph(graph, stmts.drop_last(), base, input);
        assert(stmts[stmts.len() - 1] < graph.len());
        let before = guards_of(graph, stmts.drop_last(), base, input);
        let all = guards_of(graph, stmts, base, input);
        assert forall|i: int| 0 <= i < all.len() implies (#[trigger] all[i]).0 < graph.len() by {
            if i < before.len() {
                assert(all[i] == before[i]);
            }
        }
    }
}

/// Finds the node of the last control flow statement with a given content.
fn find_guard(graph: &Vec<PDGNode>, guards: &Vec<(u32, usize)>, wanted: &PDGSpecNode) -> (r: Option<
    usize,
>)
    requires
        forall|i: int| 0 <= i < guards.len() ==> (#[trigger] guards@[i]).0 < graph.len(),
    ensures
        r == last_guard(static_models(graph@), guards@, wanted@),
{
    let mut i: usize = guards.len();
    assert(guards@.take(i as int) =~= guards@);
    while i > 0
        invariant
            i <= guards.len(),
            forall|k: int| 0 <= k < guards.len() ==> (#[trigger] guards@[k]).0 < graph.len(),
            last_guard(static_models(graph@), guards@, wanted@) == last_guard(
                static_models(graph@),
                guards@.take(i as int),
                wanted@,
            ),
        decreases i,
    {
        let ghost head = guards@.take(i as int);
        i = i - 1;
        assert(head.drop_last() =~= guards@.take(i as int));
        assert(head.last() == guards@[i as int]);
        assert(guards@[i as int].0 < graph.len());
        if graph[guards[i].0 as usize].inner.same_content(wanted) {
            return Some(guards[i].1);
        }
    }
    assert(guards@.take(0) =~= Seq::empty());
    None
}

/// Resolves the dependencies of a node along its static edges; nodes for declarations are added
/// to the graph.
fn resolve(
    nodes: &mut Vec<DynPDGNode>,
    inputs: &CycleInputs,
    guards: &Vec<(u32, usize)>,
    state: &NameMap<usize>,
    origin_state: &NameMap<usize>,
    origin_probes: &NameMap<u64>,
    stmt: u32,
    Ghost(cx): Ghost<ResolveContext>,
) -> (r: Vec<(usize, PDGSpecEdgeKind)>)
    requires
        inputs.wf(),
        cx.graph == inputs.statics(),
        cx.input == inputs.input(),
        cx.state == state@,
        cx.origin == (Snapshot { state: origin_state@, probes: origin_probes@ }),
        cx.next == old(nodes)@.len(),
        guards@ == guards_of(cx.graph, cx.stmts, cx.base, cx.input),
        stmts_ok(cx.graph, cx.stmts),
        stmt < cx.graph.len(),
    ensures
        r@ == resolve_edges(cx, cx.graph[stmt as int].dependencies).links,
        dyn_models(final(nodes)@) == dyn_models(old(nodes)@) + resolve_edges(
            cx,
            cx.graph[stmt as int].dependencies,
        ).declared,
{
    let mut links: Vec<(usize, PDGSpecEdgeKind)> = Vec::new();
    let mut done: StringHashMap<bool> = StringHashMap::new();
    let edges: &Vec<Rc<PDGSpecEdge>> = &inputs.graph[stmt as usize].dependencies;
    let ghost all = cx.graph[stmt as int].dependencies;
    let ghost before = dyn_models(nodes@);
    let mut k: usize = 0;
    assert(all =~= edge_values(edges@));
    assert(all.take(0) =~= Seq::empty());
    assert(before + Seq::<DynModel>::empty() =~= before);
    while k < edges.len()
        invariant
            k <= edges.len(),
            inputs.wf(),
            cx.graph == inputs.statics(),
            cx.input == inputs.input(),
            cx.state == state@,
            cx.origin == (Snapshot { state: origin_state@, probes: origin_probes@ }),
            cx.next == before.len(),
            guards@ == guards_of(cx.graph, cx.stmts, cx.base, cx.input),
            stmts_ok(cx.graph, cx.stmts),
            stmt < cx.graph.len(),
            all == cx.graph[stmt as int].dependencies,
            all == edge_values(edges@),
            links@ == resolve_edges(cx, all.take(k as int)).links,
            dyn_models(nodes@) == before + resolve_edges(cx, all.take(k as int)).declared,
            forall|signal: Seq<char>| #[trigger]
                done@.contains_key(signal) == settled(cx, all.take(k as int), signal),
        decreases edges.len() - k,
    {
        let edge: &PDGSpecEdge = &edges[k];
        let ghost head = all.take(k as int);
        let ghost known = resolve_edges(cx, head);
        let ghost was_done = done@;
        proof {
            assert(all.take(k + 1).drop_last() =~= head);
            assert(all.take(k + 1).last() == *edge);
            assert(cx.graph[stmt as int].dependencies[k as int].to < cx.graph.len());
            assert forall|signal: Seq<char>| settled(cx, all.take(k + 1), signal) == (settled(
                cx,
                head,
                signal,
            ) || settles(cx, *edge, signal)) by {
                let next = all.take(k + 1);
                if settled(cx, head, signal) {
                    let i = choose|i: int|
                        0 <= i < head.len() && settles(cx, #[trigger] head[i], signal);
                    assert(next[i] == head[i]);
                    assert(settles(cx, next[i], signal));
                }
                if settles(cx, *edge, signal) {
                    assert(settles(cx, next[k as int], signal));
                }
                if settled(cx, next, signal) {
                    let i = choose|i: int|
                        0 <= i < next.len() && settles(cx, #[trigger] next[i], signal);
                    if i < k {
                        assert(head[i] == next[i]);
                        assert(settles(cx, head[i], signal));
                    }
                }
            }
        }
        let target: &PDGNode = &inputs.graph[edge.to as usize];
        let already: bool = match &target.inner.assigns_to {
            Some(signal) => done.contains_key(signal.as_str()),
            None => false,
        };
        let excluded: bool = inputs.mode == GraphProcessingType::DataOnly && edge.kind
            != PDGSpecEdgeKind::Data;
        if !already && !excluded && condition_holds(&edge.condition, origin_probes) {
            assert(edge_live(cx, *edge));
            assert(!passed_over(cx, head, *edge));
            match edge.kind {
                PDGSpecEdgeKind::Declaration => {
                    if inputs.mode == GraphProcessingType::Full {
                        let ghost listed = dyn_models(nodes@);
                        links.push((nodes.len(), PDGSpecEdgeKind::Declaration));
                        let node = DynPDGNode {
                            inner: target.inner.clone(),
                            timestamp: inputs.time - 1,
                            dependencies: Vec::new(),
                        };
                        nodes.push(node);
                        assert(node@ =~= DynModel {
                            inner: cx.graph[edge.to as int].inner,
                            timestamp: cx.input.time - 1,
                            dependencies: Seq::empty(),
                        });
                        assert(dyn_models(nodes@) =~= listed.push(node@));
                        assert(dyn_models(nodes@) =~= before + known.declared.push(node@));
                    }
                },
                PDGSpecEdgeKind::Data => {
                    match &target.inner.assigns_to {
                        Some(signal) => {
                            match state.get(signal.as_str()) {
                                Some(node) => links.push((node, edge.kind)),
                                None => {},
                            }
                            done.insert(signal.clone(), true);
                        },
                        None => {},
                    }
                },
                PDGSpecEdgeKind::Index => {
                    match &target.inner.assigns_to {
                        Some(signal) => {
                            match origin_state.get(signal.as_str()) {
                                Some(node) => links.push((node, edge.kind)),
                                None => {},
                            }
                            done.insert(signal.clone(), true);
                        },
                        None => {},
                    }
                },
                PDGSpecEdgeKind::Conditional => {
                    proof {
                        guards_in_graph(cx.graph, cx.stmts, cx.base, cx.input);
                        guards_suffice(
                            cx.graph,
                            cx.stmts,
                            cx.base,
                            cx.input,
                            cx.graph[edge.to as int].inner@,
                        );
                    }
                    match find_guard(inputs.graph, guards, &target.inner) {
                        Some(node) => links.push((node, PDGSpecEdgeKind::Conditional)),
                        None => {},
                    }
                },
                PDGSpecEdgeKind::Other => {},
            }
            assert(resolve_edges(cx, all.take(k + 1)) == resolve_edge(cx, known, *edge));
        } else {
            assert(passed_over(cx, head, *edge));
        }
        proof {
            assert forall|signal: Seq<char>| #[trigger]
                done@.contains_key(signal) == settled(cx, all.take(k + 1), signal) by {
                assert(was_done.contains_key(signal) == settled(cx, head, signal));
            }
        }
        k = k + 1;
    }
    assert(all.take(k as int) =~= all);
    links
}

/// The dynamic graph under construction.
pub struct DynamicTrace {
    nodes: Vec<DynPDGNode>,
    /// The node that assigned to each signal last.
    dependency_state: NameMap<usize>,
    /// Statements whose assignments are still to come, with the time at which they do.
    delayed: Vec<(i64, u32)>,
    /// The state at the end of the cycles in which delayed statements were initiated.
    snapshots: HashMap<i64, SnapshotMaps>,
    found: Option<usize>,
}

/// Contents of a table of snapshots.
spec fn snapshot_models(table: Map<i64, SnapshotMaps>) -> Map<i64, Snapshot> {
    table.map_values(|s: SnapshotMaps| s.model())
}

impl View for DynamicTrace {
    type V = TraceModel;

    closed spec fn view(&self) -> TraceModel {
        TraceModel {
            nodes: dyn_models(self.nodes@),
            state: self.dependency_state@,
            delayed: self.delayed@,
            snapshots: snapshot_models(self.snapshots@),
            found: self.found,
        }
    }
}

/// Splits the activated statements into those that take effect at once and those that do later.
fn split_by_delay(graph: &Vec<PDGNode>, activated: &Vec<u32>) -> (r: (Vec<u32>, Vec<u32>))
    requires
        stmts_ok(static_models(graph@), activated@),
    ensures
        r.0@ == immediate(static_models(graph@), activated@),
        r.1@ == postponed(static_models(graph@), activated@),
{
    let ghost statics = static_models(graph@);
    let mut now: Vec<u32> = Vec::new();
    let mut later: Vec<u32> = Vec::new();
    let mut i: usize = 0;
    proof {
        reveal(Seq::filter);
        assert(activated@.take(0) =~= Seq::empty());
    }
    while i < activated.len()
        invariant
            i <= activated.len(),
            statics == static_models(graph@),
            stmts_ok(statics, activated@),
            now@ == immediate(statics, activated@.take(i as int)),
            later@ == postponed(statics, activated@.take(i as int)),
        decreases activated.len() - i,
    {
        let stmt: u32 = activated[i];
        assert(activated@[i as int] < statics.len());
        proof {
            let head = activated@.take(i as int);
            assert(activated@.take(i + 1) =~= head.push(stmt));
            filter_push(head, stmt, |s: u32| statics[s as int].inner.assign_delay == 0);
            filter_push(head, stmt, |s: u32| statics[s as int].inner.assign_delay != 0);
        }
        if graph[stmt as usize].inner.assign_delay == 0 {
            now.push(stmt);
        } else {
            later.push(stmt);
        }
        i = i + 1;
    }
    assert(activated@.take(i as int) =~= activated@);
    (now, later)
}

/// Splits the delayed statements into those that take effect at a time and the others.
fn split_by_time(delayed: &Vec<(i64, u32)>, time: i64) -> (r: (Vec<u32>, Vec<(i64, u32)>))
    ensures
        r.0@ == due(delayed@, time as int),
        r.1@ == not_due(delayed@, time as int),
{
    let mut ready: Vec<u32> = Vec::new();
    let mut rest: Vec<(i64, u32)> = Vec::new();
    let mut i: usize = 0;
    proof {
        reveal(Seq::filter);
        assert(delayed@.take(0) =~= Seq::empty());
        assert(due(delayed@.take(0), time as int) =~= Seq::empty());
    }
    while i < delayed.len()
        invariant
            i <= delayed.len(),
            ready@ == due(delayed@.take(i as int), time as int),
            rest@ == not_due(delayed@.take(i as int), time as int),
        decreases delayed.len() - i,
    {
        let entry: (i64, u32) = delayed[i];
        proof {
            let head = delayed@.take(i as int);
            let t = time as int;
            assert(delayed@.take(i + 1) =~= head.push(entry));
            filter_push(head, entry, at_time(t));
            filter_push(head, entry, at_other_time(t));
            let hits = head.filter(at_time(t));
            assert(hits.push(entry).map_values(|d: (i64, u32)| d.1) =~= hits.map_values(
                |d: (i64, u32)| d.1,
            ).push(entry.1));
        }
        if entry.0 == time {
            ready.push(entry.1);
        } else {
            rest.push(entry);
        }
        i = i + 1;
    }
    assert(delayed@.take(i as int) =~= delayed@);
    (ready, rest)
}

/// Whether the state of the cycle that initiated each delayed statement has been kept.
pub open spec fn origins_kept(
    graph: Seq<StaticModel>,
    snapshots: Map<i64, Snapshot>,
    stmts: Seq<u32>,
    time: int,
) -> bool {
    forall|i: int|
        0 <= i < stmts.len() && graph[#[trigger] stmts[i] as int].inner.assign_delay > 0
            ==> snapshots.contains_key(
            (time - graph[stmts[i] as int].inner.assign_delay) as i64,
        )
}

/// Resolving dependencies adds nodes and removes none.
pub proof fn nodes_only_grow(
    graph: Seq<StaticModel>,
    trace: TraceModel,
    stmts: Seq<u32>,
    input: CycleInput,
    n: nat,
)
    requires
        n <= stmts.len(),
    ensures
        nodes_after(graph, trace, stmts, input, n).len() >= trace.nodes.len() + stmts.len(),
    decreases n,
{
    if n > 0 {
        nodes_only_grow(graph, trace, stmts, input, (n - 1) as nat);
    }
}

/// The statements that take effect in a cycle are statements of the graph, and the delayed ones
/// among them find the state that they need.
pub proof fn effective_in_order(
    graph: Seq<StaticModel>,
    trace: TraceModel,
    activated: Seq<u32>,
    time: int,
)
    requires
        stmts_ok(graph, activated),
        delayed_ok(graph, trace),
    ensures
        stmts_ok(graph, effective(graph, trace, activated, time)),
        stmts_ok(graph, postponed(graph, activated)),
        origins_kept(graph, trace.snapshots, effective(graph, trace, activated, time), time),
{
    let now = immediate(graph, activated);
    let later = postponed(graph, activated);
    let entries = trace.delayed.filter(at_time(time));
    let ready = due(trace.delayed, time);
    filter_origin(activated, |s: u32| graph[s as int].inner.assign_delay == 0);
    filter_origin(activated, |s: u32| graph[s as int].inner.assign_delay != 0);
    filter_origin(trace.delayed, at_time(time));
    let stmts = effective(graph, trace, activated, time);
    assert forall|i: int| 0 <= i < stmts.len() implies (#[trigger] stmts[i]) < graph.len() && (
    graph[stmts[i] as int].inner.assign_delay > 0 ==> trace.snapshots.contains_key(
        (time - graph[stmts[i] as int].inner.assign_delay) as i64,
    )) by {
        if i < now.len() {
            assert(stmts[i] == now[i]);
            let k = choose|k: int| 0 <= k < activated.len() && activated[k] == now[i];
            assert(activated[k] < graph.len());
        } else {
            let j = i - now.len();
            assert(stmts[i] == ready[j]);
            assert(ready[j] == entries[j].1);
            let k = choose|k: int|
                0 <= k < trace.delayed.len() && trace.delayed[k] == entries[j];
            assert(entry_ok(graph, trace.snapshots, trace.delayed[k]));
        }
    }
    assert forall|i: int| 0 <= i < later.len() implies (#[trigger] later[i]) < graph.len() by {
        let k = choose|k: int| 0 <= k < activated.len() && activated[k] == later[i];
        assert(activated[k] < graph.len());
    }
}

/// A clock cycle keeps the state that the delayed statements need.
pub proof fn delayed_stay_in_order(
    graph: Seq<StaticModel>,
    trace: TraceModel,
    activated: Seq<u32>,
    input: CycleInput,
    criterion: CriterionType,
)
    requires
        stmts_ok(graph, activated),
        delayed_ok(graph, trace),
        0 <= input.time,
        input.time + u32::MAX <= i64::MAX,
    ensures
        delayed_ok(graph, cycle(graph, trace, activated, input, criterion)),
{
    let after = cycle(graph, trace, activated, input, criterion);
    let rest = not_due(trace.delayed, input.time);
    let later = postponed(graph, activated);
    filter_origin(trace.delayed, at_other_time(input.time));
    filter_origin(activated, |s: u32| graph[s as int].inner.assign_delay != 0);
    effective_in_order(graph, trace, activated, input.time);
    assert forall|i: int| 0 <= i < after.delayed.len() implies entry_ok(
        graph,
        after.snapshots,
        #[trigger] after.delayed[i],
    ) by {
        if i < rest.len() {
            let k = choose|k: int| 0 <= k < trace.delayed.len() && trace.delayed[k] == rest[i];
            assert(entry_ok(graph, trace.snapshots, trace.delayed[k]));
            assert(after.delayed[i] == trace.delayed[k]);
        } else {
            let stmt = later[i - rest.len()];
            assert(stmt < graph.len());
            assert(after.delayed[i] == (
                (input.time + graph[stmt as int].inner.assign_delay) as i64,
                stmt,
            ));
        }
    }
}

/// Finds the node of the last executed statement with a given name.
fn find_named(graph: &Vec<PDGNode>, stmts: &Vec<u32>, base: usize, name: &String) -> (r: Option<
    usize,
>)
    requires
        stmts_ok(static_models(graph@), stmts@),
        base + stmts@.len() <= usize::MAX,
    ensures
        r == latest_named(static_models(graph@), stmts@, base as int, name@),
{
    let mut i: usize = stmts.len();
    assert(stmts@.take(i as int) =~= stmts@);
    while i > 0
        invariant
            i <= stmts.len(),
            stmts_ok(static_models(graph@), stmts@),
            base + stmts@.len() <= usize::MAX,
            latest_named(static_models(graph@), stmts@, base as int, name@) == latest_named(
                static_models(graph@),
                stmts@.take(i as int),
                base as int,
                name@,
            ),
        decreases i,
    {
        let ghost head = stmts@.take(i as int);
        i = i - 1;
        assert(head.drop_last() =~= stmts@.take(i as int));
        assert(head.last() == stmts@[i as int]);
        assert(stmts@[i as int] < static_models(graph@).len());
        if graph[stmts[i] as usize].inner.name == *name {
            return Some(base + i);
        }
    }
    assert(stmts@.take(0) =~= Seq::empty());
    None
}

impl DynamicTrace {
    /// The tables can be copied.
    pub closed spec fn wf(self) -> bool {
        &&& self.dependency_state.wf()
        &&& forall|t: i64| #[trigger]
            self.snapshots@.contains_key(t) ==> self.snapshots@[t].state.wf()
                && self.snapshots@[t].probes.wf()
    }

    /// The nodes are few enough to be counted.
    pub proof fn nodes_can_be_counted(&self)
        ensures
            self@.nodes.len() <= usize::MAX,
    {
        assert(self.nodes.len() == self@.nodes.len());
    }

    /// Starts with an empty graph.
    pub fn new() -> (r: DynamicTrace)
        ensures
            r.wf(),
            r@ == (TraceModel {
                nodes: Seq::empty(),
                state: Map::empty(),
                delayed: Seq::empty(),
                snapshots: Map::empty(),
                found: None,
            }),
    {
        let r = DynamicTrace {
            nodes: Vec::new(),
            dependency_state: NameMap::new(),
            delayed: Vec::new(),
            snapshots: HashMap::new(),
            found: None,
        };
        assert(r@.nodes =~= Seq::empty());
        assert(r@.snapshots =~= Map::empty());
        r
    }

    /// Forgets the delayed statements and what was found; the graph stays.
    pub fn restart(&mut self)
        requires
            old(self).wf(),
        ensures
            final(self).wf(),
            final(self)@ == restarted(old(self)@),
    {
        self.delayed = Vec::new();
        self.snapshots = HashMap::new();
        self.found = None;
        assert(self@.snapshots =~= Map::empty());
    }

    /// All nodes of the graph.
    pub fn nodes(&self) -> (r: &Vec<DynPDGNode>)
        ensures
            dyn_models(r@) == self@.nodes,
    {
        &self.nodes
    }

    /// The node that the criterion selects, if there is one.
    pub fn selected(&self, criterion: &CriterionType) -> (r: Option<usize>)
        ensures
            r == selection(self@, *criterion),
    {
        match criterion {
            CriterionType::Statement(_) => self.found,
            CriterionType::Signal(signal) => self.dependency_state.get(signal.as_str()),
        }
    }

    /// Adds the nodes of the executed statements and takes note of what they assign to.
    ///
    /// Returns the register updates that are left to the end of the cycle and the control flow
    /// statements.
    fn execute(&mut self, inputs: &CycleInputs, stmts: &Vec<u32>) -> (r: (
        NameMap<usize>,
        Vec<(u32, usize)>,
    ))
        requires
            old(self).wf(),
            inputs.wf(),
            stmts_ok(inputs.statics(), stmts@),
        ensures
            final(self).wf(),
            r.0.wf(),
            ({
                let graph = inputs.statics();
                let input = inputs.input();
                let base = old(self)@.nodes.len() as int;
                &&& final(self)@ == (TraceModel {
                    nodes: old(self)@.nodes + Seq::new(
                        stmts@.len(),
                        |i: int| executed(graph[stmts@[i] as int].inner, input),
                    ),
                    state: state_after(graph, stmts@, base, input, old(self)@.state),
                    ..old(self)@
                })
                &&& r.0@ == updates_after(graph, stmts@, base, input)
                &&& r.1@ == guards_of(graph, stmts@, base, input)
            }),
    {
        let ghost graph = inputs.statics();
        let ghost input = inputs.input();
        let ghost start = self@;
        let ghost base = start.nodes.len() as int;
        let mut updates: NameMap<usize> = NameMap::new();
        let mut guards: Vec<(u32, usize)> = Vec::new();
        let mut i: usize = 0;
        assert(stmts@.take(0) =~= Seq::empty());
        assert(start.nodes + Seq::new(
            0,
            |k: int| executed(graph[stmts@[k] as int].inner, input),
        ) =~= start.nodes);
        while i < stmts.len()
            invariant
                i <= stmts.len(),
                self.wf(),
                updates.wf(),
                inputs.wf(),
                graph == inputs.statics(),
                input == inputs.input(),
                base == start.nodes.len(),
                stmts_ok(graph, stmts@),
                self@ == (TraceModel {
                    nodes: start.nodes + Seq::new(
                        i as nat,
                        |k: int| executed(graph[stmts@[k] as int].inner, input),
                    ),
                    state: state_after(graph, stmts@.take(i as int), base, input, start.state),
                    ..start
                }),
                updates@ == updates_after(graph, stmts@.take(i as int), base, input),
                guards@ == guards_of(graph, stmts@.take(i as int), base, input),
            decreases stmts.len() - i,
        {
            let stmt: u32 = stmts[i];
            assert(stmts@[i as int] < graph.len());
            let node: &PDGNode = &inputs.graph[stmt as usize];
            let inner: &PDGSpecNode = &node.inner;
            let ghost before = self@;
            proof {
                assert(stmts@.take(i + 1).drop_last() =~= stmts@.take(i as int));
                assert(stmts@.take(i + 1).last() == stmt);
                assert(graph[stmt as int].inner == *inner);
            }
            let place: usize = self.nodes.len();
            let mut timestamp: i64 = if inner.clocked {
                inputs.time
            } else {
                inputs.time - 1
            };
            if condition_holds(&inner.condition, inputs.probes) {
                match &inner.assigns_to {
                    Some(signal) => {
                        if inner.clocked {
                            if inner.kind == PDGSpecNodeKind::DataDefinition {
                                if inputs.time == 0 || inputs.reset == Value::V1 {
                                    timestamp = timestamp - 1;
                                    self.dependency_state.insert(signal.clone(), place);
                                }
                            } else {
                                updates.insert(signal.clone(), place);
                            }
                        } else {
                            self.dependency_state.insert(signal.clone(), place);
                        }
                    },
                    None => {},
                }
                if inner.kind == PDGSpecNodeKind::ControlFlow {
                    guards.push((stmt, place));
                }
            }
            let dyn_node = DynPDGNode {
                inner: node.inner.clone(),
                timestamp,
                dependencies: Vec::new(),
            };
            assert(dyn_node@ =~= executed(*inner, input));
            self.nodes.push(dyn_node);
            proof {
                assert(dyn_models(self.nodes@) =~= before.nodes.push(dyn_node@));
                assert(before.nodes.push(dyn_node@) =~= start.nodes + Seq::new(
                    (i + 1) as nat,
                    |k: int| executed(graph[stmts@[k] as int].inner, input),
                ));
            }
            i = i + 1;
        }
        assert(stmts@.take(i as int) =~= stmts@);
        (updates, guards)
    }

    /// Resolves the dependencies of the executed statements, whose nodes start at `base`.
    fn link_executed(
        &mut self,
        inputs: &CycleInputs,
        stmts: &Vec<u32>,
        guards: &Vec<(u32, usize)>,
        base: usize,
        Ghost(start): Ghost<TraceModel>,
    )
        requires
            old(self).wf(),
            inputs.wf(),
            stmts_ok(inputs.statics(), stmts@),
            origins_kept(inputs.statics(), start.snapshots, stmts@, inputs.time as int),
            base == start.nodes.len(),
            guards@ == guards_of(inputs.statics(), stmts@, base as int, inputs.input()),
            old(self)@ == (TraceModel {
                nodes: nodes_after(inputs.statics(), start, stmts@, inputs.input(), 0),
                state: state_after(
                    inputs.statics(),
                    stmts@,
                    base as int,
                    inputs.input(),
                    start.state,
                ),
                ..start
            }),
        ensures
            final(self).wf(),
            final(self)@ == (TraceModel {
                nodes: nodes_after(
                    inputs.statics(),
                    start,
                    stmts@,
                    inputs.input(),
                    stmts@.len(),
                ),
                ..old(self)@
            }),
    {
        let ghost graph = inputs.statics();
        let ghost input = inputs.input();
        let ghost executed_trace = self@;
        let mut i: usize = 0;
        while i < stmts.len()
            invariant
                i <= stmts.len(),
                self.wf(),
                inputs.wf(),
                graph == inputs.statics(),
                input == inputs.input(),
                stmts_ok(graph, stmts@),
                origins_kept(graph, start.snapshots, stmts@, inputs.time as int),
                base == start.nodes.len(),
                guards@ == guards_of(graph, stmts@, base as int, input),
                executed_trace.snapshots == start.snapshots,
                executed_trace.state == state_after(
                    graph,
                    stmts@,
                    base as int,
                    input,
                    start.state,
                ),
                self@ == (TraceModel {
                    nodes: nodes_after(graph, start, stmts@, input, i as nat),
                    ..executed_trace
                }),
            decreases stmts.len() - i,
        {
            let stmt: u32 = stmts[i];
            assert(stmts@[i as int] < graph.len());
            let ghost before = self@.nodes;
            let ghost cx = context_of(graph, start, stmts@, input, i as int, before.len() as int);
            proof {
                nodes_only_grow(graph, start, stmts@, input, i as nat);
                assert(graph[stmt as int].inner == *inputs.graph@[stmt as int].inner);
            }
            let delay: u32 = inputs.graph[stmt as usize].inner.assign_delay;
            let links: Vec<(usize, PDGSpecEdgeKind)> = if delay > 0 {
                let initiated: i64 = inputs.time - delay as i64;
                assert(start.snapshots.contains_key((input.time - delay) as i64));
                match self.snapshots.get(&initiated) {
                    Some(snapshot) => resolve(
                        &mut self.nodes,
                        inputs,
                        guards,
                        &self.dependency_state,
                        &snapshot.state,
                        &snapshot.probes,
                        stmt,
                        Ghost(cx),
                    ),
                    None => {
                        assert(false);
                        Vec::new()
                    },
                }
            } else {
                resolve(
                    &mut self.nodes,
                    inputs,
                    guards,
                    &self.dependency_state,
                    &self.dependency_state,
                    inputs.probes,
                    stmt,
                    Ghost(cx),
                )
            };
            let ghost resolved = resolve_edges(cx, graph[stmt as int].dependencies);
            let ghost grown = self@.nodes;
            assert(grown == before + resolved.declared);
            assert(self.nodes.len() == grown.len());
            let place: usize = base + i;
            assert(grown[place as int] == before[place as int]);
            self.nodes[place].dependencies = links;
            proof {
                let done = DynModel { dependencies: resolved.links, ..before[place as int] };
                assert(self@.nodes =~= grown.update(place as int, done));
                assert(grown.update(place as int, done) =~= before.update(place as int, done)
                    + resolved.declared);
            }
            i = i + 1;
        }
    }

    /// Adds a clock cycle to the graph, in which control flow activated some statements.
    pub fn process_cycle(
        &mut self,
        inputs: &CycleInputs,
        activated: &Vec<u32>,
        criterion: &CriterionType,
    )
        requires
            old(self).wf(),
            inputs.wf(),
            stmts_ok(inputs.statics(), activated@),
            delayed_ok(inputs.statics(), old(self)@),
        ensures
            final(self).wf(),
            final(self)@ == cycle(
                inputs.statics(),
                old(self)@,
                activated@,
                inputs.input(),
                *criterion,
            ),
            delayed_ok(inputs.statics(), final(self)@),
    {
        let ghost graph = inputs.statics();
        let ghost input = inputs.input();
        let ghost start = self@;
        let base: usize = self.nodes.len();
        let (mut stmts, later) = split_by_delay(inputs.graph, activated);
        let (mut ready, mut delayed) = split_by_time(&self.delayed, inputs.time);
        proof {
            delayed_stay_in_order(graph, start, activated@, input, *criterion);
            effective_in_order(graph, start, activated@, input.time);
        }
        stmts.append(&mut ready);
        assert(stmts@ == effective(graph, start, activated@, input.time));
        let ghost kept = delayed@;
        let mut i: usize = 0;
        assert(kept + schedule(graph, later@.take(0), input.time) =~= kept);
        while i < later.len()
            invariant
                i <= later.len(),
                inputs.wf(),
                graph == inputs.statics(),
                input == inputs.input(),
                stmts_ok(graph, later@),
                delayed@ == kept + schedule(graph, later@.take(i as int), input.time),
            decreases later.len() - i,
        {
            let stmt: u32 = later[i];
            assert(later@[i as int] < graph.len());
            let delay: u32 = inputs.graph[stmt as usize].inner.assign_delay;
            delayed.push((inputs.time + delay as i64, stmt));
            assert(delayed@ =~= kept + schedule(graph, later@.take(i + 1), input.time));
            i = i + 1;
        }
        assert(later@.take(i as int) =~= later@);
        let (updates, guards) = self.execute(inputs, &stmts);
        self.link_executed(inputs, &stmts, &guards, base, Ghost(start));
        proof {
            nodes_only_grow(graph, start, stmts@, input, stmts@.len());
            assert(self.nodes.len() == self@.nodes.len());
        }
        if later.len() > 0 {
            let snapshot = SnapshotMaps {
                state: self.dependency_state.copy(),
                probes: inputs.probes.copy(),
            };
            let ghost before = self.snapshots@;
            self.snapshots.insert(inputs.time, snapshot);
            assert(snapshot_models(self.snapshots@) =~= snapshot_models(before).insert(
                inputs.time,
                snapshot.model(),
            ));
        }
        self.delayed = delayed;
        match criterion {
            CriterionType::Statement(name) => {
                match find_named(inputs.graph, &stmts, base, name) {
                    Some(node) => {
                        self.found = Some(node);
                    },
                    None => {},
                }
            },
            CriterionType::Signal(_) => {},
        }
        self.dependency_state.update_from(&updates);
    }
}

} // verus!
