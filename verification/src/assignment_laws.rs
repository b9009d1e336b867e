//! When a condition is met, when a statement takes effect and which execution assigned to a signal.

use vstd::prelude::*;

use crate::dynamic_graph::{
    cycle, effective, holds, latest_guard, latest_named, postponed, probe_agrees, restarted,
    selection, state_after, updates_after, CriterionType, CycleInput, SignalState, StaticModel,
    TraceModel,
};
use crate::lists::{filter_keeps, filter_origin};
use crate::pdg_spec::{PDGSpecCondition, PDGSpecNode, PDGSpecNodeKind, SpecNodeModel};
use crate::trace_laws::every_execution_gets_its_node;
use crate::tracer::{delayed_ok, graph_ok, stmts_ok};
use crate::vcd_input::Value;

verus! {

/// Whether the probe that a condition names at a place has the value that stands beside it.
pub open spec fn probe_has(
    condition: PDGSpecCondition,
    probes: Map<Seq<char>, u64>,
    i: int,
) -> bool {
    probes.contains_pair(condition.probe_name@[i]@, condition.probe_value@[i])
}

/// A probe that has another value than the one asked for, or none, rules a condition out, whatever
/// the other probes are.
pub proof fn a_probe_that_differs_rules_a_condition_out(
    condition: PDGSpecCondition,
    probes: Map<Seq<char>, u64>,
    i: int,
)
    requires
        0 <= i < condition.probe_name@.len(),
        i < condition.probe_value@.len(),
        !probes.contains_pair(condition.probe_name@[i]@, condition.probe_value@[i]),
    ensures
        !holds(Some(condition), probes),
{
    assert(!probe_agrees(condition, probes, i));
}

/// A condition is met where every probe that it names has the value that it asks for.
pub proof fn probes_that_agree_meet_a_condition(
    condition: PDGSpecCondition,
    probes: Map<Seq<char>, u64>,
)
    requires
        forall|i: int|
            0 <= i < condition.probe_name@.len() && i < condition.probe_value@.len()
                ==> #[trigger] probe_has(condition, probes, i),
    ensures
        holds(Some(condition), probes),
{
    assert forall|i: int|
        0 <= i < condition.probe_name@.len() && i
            < condition.probe_value@.len() implies #[trigger] probe_agrees(
        condition,
        probes,
        i,
    ) by {
        assert(probe_has(condition, probes, i));
    }
}

/// What has no condition always takes effect.
pub proof fn no_condition_is_always_met(probes: Map<Seq<char>, u64>)
    ensures
        holds(None, probes),
{
}

/// Whether a condition is met: every probe that it names has the value that stands beside it.
pub open spec fn met(condition: Option<PDGSpecCondition>, probes: Map<Seq<char>, u64>) -> bool {
    condition matches Some(c) ==> forall|i: int|
        0 <= i < c.probe_name@.len() && i < c.probe_value@.len() ==> #[trigger] probe_has(
            c,
            probes,
            i,
        )
}

/// A condition holds exactly where it is met.
pub proof fn conditions_hold_where_they_are_met(
    condition: Option<PDGSpecCondition>,
    probes: Map<Seq<char>, u64>,
)
    ensures
        holds(condition, probes) == met(condition, probes),
{
    if let Some(c) = condition {
        if met(condition, probes) {
            probes_that_agree_meet_a_condition(c, probes);
        } else {
            let i = choose|i: int|
                0 <= i < c.probe_name@.len() && i < c.probe_value@.len() && !(
                #[trigger] probe_has(c, probes, i));
            a_probe_that_differs_rules_a_condition_out(c, probes, i);
        }
    } else {
        no_condition_is_always_met(probes);
    }
}

/// Whether a statement is one that assigns to a signal.
pub open spec fn targets(stmt: PDGSpecNode, signal: Seq<char>) -> bool {
    stmt.assigns_to matches Some(name) && name@ == signal
}

/// Whether a statement gives a signal its value within the cycle: its condition is met, and it is
/// combinational or the definition of a register at the start of the trace or during reset.
pub open spec fn sets_at_once(stmt: PDGSpecNode, input: CycleInput, signal: Seq<char>) -> bool {
    &&& targets(stmt, signal)
    &&& met(stmt.condition, input.probes)
    &&& !stmt.clocked || (stmt.kind == PDGSpecNodeKind::DataDefinition && (input.time == 0
        || input.reset == Value::V1))
}

/// Whether a statement gives a signal its value at the end of the cycle: its condition is met, and
/// it is clocked and no definition.
pub open spec fn sets_at_end(stmt: PDGSpecNode, input: CycleInput, signal: Seq<char>) -> bool {
    &&& targets(stmt, signal)
    &&& met(stmt.condition, input.probes)
    &&& stmt.clocked
    &&& stmt.kind != PDGSpecNodeKind::DataDefinition
}

/// Whether no statement from a place on gives a signal its value within the cycle.
pub open spec fn none_at_once(
    graph: Seq<StaticModel>,
    stmts: Seq<u32>,
    from: int,
    input: CycleInput,
    signal: Seq<char>,
) -> bool {
    forall|j: int|
        from <= j < stmts.len() ==> !sets_at_once(
            graph[#[trigger] stmts[j] as int].inner,
            input,
            signal,
        )
}

/// Whether no statement from a place on gives a signal its value at the end of the cycle.
pub open spec fn none_at_end(
    graph: Seq<StaticModel>,
    stmts: Seq<u32>,
    from: int,
    input: CycleInput,
    signal: Seq<char>,
) -> bool {
    forall|j: int|
        from <= j < stmts.len() ==> !sets_at_end(
            graph[#[trigger] stmts[j] as int].inner,
            input,
            signal,
        )
}

/// Within a cycle the last statement that gives a signal its value counts.
pub proof fn the_last_statement_counts_at_once(
    graph: Seq<StaticModel>,
    stmts: Seq<u32>,
    base: int,
    input: CycleInput,
    state: SignalState,
    signal: Seq<char>,
    i: int,
)
    requires
        0 <= i < stmts.len(),
        sets_at_once(graph[stmts[i] as int].inner, input, signal),
        none_at_once(graph, stmts, i + 1, input, signal),
    ensures
        state_after(graph, stmts, base, input, state).contains_key(signal),
        state_after(graph, stmts, base, input, state)[signal] == (base + i) as usize,
    decreases stmts.len(),
{
    let head = stmts.drop_last();
    let stmt = graph[stmts.last() as int].inner;
    conditions_hold_where_they_are_met(stmt.condition, input.probes);
    if i < stmts.len() - 1 {
        assert(!sets_at_once(graph[stmts[stmts.len() - 1] as int].inner, input, signal));
        assert forall|j: int| i + 1 <= j < head.len() implies !sets_at_once(
            graph[#[trigger] head[j] as int].inner,
            input,
            signal,
        ) by {
            assert(head[j] == stmts[j]);
        }
        the_last_statement_counts_at_once(graph, head, base, input, state, signal, i);
    }
}

/// A signal to which no statement gives a value within a cycle keeps the node that was known.
pub proof fn what_is_not_set_at_once_stays(
    graph: Seq<StaticModel>,
    stmts: Seq<u32>,
    base: int,
    input: CycleInput,
    state: SignalState,
    signal: Seq<char>,
)
    requires
        none_at_once(graph, stmts, 0, input, signal),
    ensures
        state_after(graph, stmts, base, input, state).contains_key(signal) == state.contains_key(
            signal,
        ),
        state_after(graph, stmts, base, input, state)[signal] == state[signal],
    decreases stmts.len(),
{
    if stmts.len() > 0 {
        let head = stmts.drop_last();
        let stmt = graph[stmts.last() as int].inner;
        conditions_hold_where_they_are_met(stmt.condition, input.probes);
        assert(!sets_at_once(graph[stmts[stmts.len() - 1] as int].inner, input, signal));
        assert forall|j: int| 0 <= j < head.len() implies !sets_at_once(
            graph[#[trigger] head[j] as int].inner,
            input,
            signal,
        ) by {
            assert(head[j] == stmts[j]);
        }
        what_is_not_set_at_once_stays(graph, head, base, input, state, signal);
    }
}

/// Of the register updates of a cycle the last one counts.
proof fn the_last_update_counts(
    graph: Seq<StaticModel>,
    stmts: Seq<u32>,
    base: int,
    input: CycleInput,
    signal: Seq<char>,
    i: int,
)
    requires
        0 <= i < stmts.len(),
        sets_at_end(graph[stmts[i] as int].inner, input, signal),
        none_at_end(graph, stmts, i + 1, input, signal),
    ensures
        updates_after(graph, stmts, base, input).contains_key(signal),
        updates_after(graph, stmts, base, input)[signal] == (base + i) as usize,
    decreases stmts.len(),
{
    let head = stmts.drop_last();
    let stmt = graph[stmts.last() as int].inner;
    conditions_hold_where_they_are_met(stmt.condition, input.probes);
    if i < stmts.len() - 1 {
        assert(!sets_at_end(graph[stmts[stmts.len() - 1] as int].inner, input, signal));
        assert forall|j: int| i + 1 <= j < head.len() implies !sets_at_end(
            graph[#[trigger] head[j] as int].inner,
            input,
            signal,
        ) by {
            assert(head[j] == stmts[j]);
        }
        the_last_update_counts(graph, head, base, input, signal, i);
    }
}

proof fn what_is_not_updated_is_not_buffered(
    graph: Seq<StaticModel>,
    stmts: Seq<u32>,
    base: int,
    input: CycleInput,
    signal: Seq<char>,
)
    requires
        none_at_end(graph, stmts, 0, input, signal),
    ensures
        !updates_after(graph, stmts, base, input).contains_key(signal),
    decreases stmts.len(),
{
    if stmts.len() > 0 {
        let head = stmts.drop_last();
        let stmt = graph[stmts.last() as int].inner;
        conditions_hold_where_they_are_met(stmt.condition, input.probes);
        assert(!sets_at_end(graph[stmts[stmts.len() - 1] as int].inner, input, signal));
        assert forall|j: int| 0 <= j < head.len() implies !sets_at_end(
            graph[#[trigger] head[j] as int].inner,
            input,
            signal,
        ) by {
            assert(head[j] == stmts[j]);
        }
        what_is_not_updated_is_not_buffered(graph, head, base, input, signal);
    }
}

/// After a cycle the node known for a register that is updated in it is that of its last update.
pub proof fn the_last_register_update_counts(
    graph: Seq<StaticModel>,
    trace: TraceModel,
    activated: Seq<u32>,
    input: CycleInput,
    criterion: CriterionType,
    signal: Seq<char>,
    i: int,
)
    requires
        0 <= i < effective(graph, trace, activated, input.time).len(),
        sets_at_end(
            graph[effective(graph, trace, activated, input.time)[i] as int].inner,
            input,
            signal,
        ),
        none_at_end(graph, effective(graph, trace, activated, input.time), i + 1, input, signal),
    ensures
        cycle(graph, trace, activated, input, criterion).state.contains_key(signal),
        cycle(graph, trace, activated, input, criterion).state[signal] == (trace.nodes.len()
            + i) as usize,
{
    let stmts = effective(graph, trace, activated, input.time);
    the_last_update_counts(graph, stmts, trace.nodes.len() as int, input, signal, i);
}

/// After a cycle that updates a signal only within it, the node known for the signal is that of the
/// last statement that gave it a value.
pub proof fn the_last_wire_assignment_counts(
    graph: Seq<StaticModel>,
    trace: TraceModel,
    activated: Seq<u32>,
    input: CycleInput,
    criterion: CriterionType,
    signal: Seq<char>,
    i: int,
)
    requires
        0 <= i < effective(graph, trace, activated, input.time).len(),
        sets_at_once(
            graph[effective(graph, trace, activated, input.time)[i] as int].inner,
            input,
            signal,
        ),
        none_at_once(graph, effective(graph, trace, activated, input.time), i + 1, input, signal),
        none_at_end(graph, effective(graph, trace, activated, input.time), 0, input, signal),
    ensures
        cycle(graph, trace, activated, input, criterion).state.contains_key(signal),
        cycle(graph, trace, activated, input, criterion).state[signal] == (trace.nodes.len()
            + i) as usize,
{
    let stmts = effective(graph, trace, activated, input.time);
    let base = trace.nodes.len() as int;
    the_last_statement_counts_at_once(graph, stmts, base, input, trace.state, signal, i);
    what_is_not_updated_is_not_buffered(graph, stmts, base, input, signal);
}

/// A signal that a cycle does not touch keeps the node that was known for it.
pub proof fn an_untouched_signal_keeps_its_node(
    graph: Seq<StaticModel>,
    trace: TraceModel,
    activated: Seq<u32>,
    input: CycleInput,
    criterion: CriterionType,
    signal: Seq<char>,
)
    requires
        none_at_once(graph, effective(graph, trace, activated, input.time), 0, input, signal),
        none_at_end(graph, effective(graph, trace, activated, input.time), 0, input, signal),
    ensures
        cycle(graph, trace, activated, input, criterion).state.contains_key(signal)
            == trace.state.contains_key(signal),
        trace.state.contains_key(signal) ==> cycle(
            graph,
            trace,
            activated,
            input,
            criterion,
        ).state[signal] == trace.state[signal],
{
    let stmts = effective(graph, trace, activated, input.time);
    let base = trace.nodes.len() as int;
    what_is_not_set_at_once_stays(graph, stmts, base, input, trace.state, signal);
    what_is_not_updated_is_not_buffered(graph, stmts, base, input, signal);
}

/// Where a cycle postpones a statement, it keeps what is known of signals before registers change,
/// with the probe values of the cycle; what earlier cycles kept stays as it is.
pub proof fn a_postponing_cycle_keeps_its_state(
    graph: Seq<StaticModel>,
    trace: TraceModel,
    activated: Seq<u32>,
    input: CycleInput,
    criterion: CriterionType,
    signal: Seq<char>,
    k: int,
    i: int,
)
    requires
        0 <= k < activated.len(),
        graph[activated[k] as int].inner.assign_delay > 0,
    ensures
        ({
            let after = cycle(graph, trace, activated, input, criterion).snapshots;
            let kept = after[input.time as i64];
            let stmts = effective(graph, trace, activated, input.time);
            &&& after.contains_key(input.time as i64)
            &&& kept.probes == input.probes
            &&& 0 <= i < stmts.len() && sets_at_once(graph[stmts[i] as int].inner, input, signal)
                && none_at_once(graph, stmts, i + 1, input, signal) ==> kept.state.contains_key(
                signal,
            ) && kept.state[signal] == (trace.nodes.len() + i) as usize
            &&& none_at_once(graph, stmts, 0, input, signal) ==> kept.state.contains_key(signal)
                == trace.state.contains_key(signal) && kept.state[signal] == trace.state[signal]
            &&& forall|t: i64|
                t != input.time as i64 ==> (#[trigger] after.contains_key(t)
                    == trace.snapshots.contains_key(t) && after[t] == trace.snapshots[t])
        }),
{
    let stmts = effective(graph, trace, activated, input.time);
    let base = trace.nodes.len() as int;
    let is_later = |s: u32| graph[s as int].inner.assign_delay != 0;
    filter_keeps(activated, is_later, activated[k]);
    assert(postponed(graph, activated).contains(activated[k]));
    if 0 <= i < stmts.len() && sets_at_once(graph[stmts[i] as int].inner, input, signal)
        && none_at_once(graph, stmts, i + 1, input, signal) {
        the_last_statement_counts_at_once(graph, stmts, base, input, trace.state, signal, i);
    }
    if none_at_once(graph, stmts, 0, input, signal) {
        what_is_not_set_at_once_stays(graph, stmts, base, input, trace.state, signal);
    }
}

/// A cycle that postpones nothing keeps nothing new.
pub proof fn a_cycle_without_delays_keeps_nothing(
    graph: Seq<StaticModel>,
    trace: TraceModel,
    activated: Seq<u32>,
    input: CycleInput,
    criterion: CriterionType,
)
    requires
        forall|k: int|
            0 <= k < activated.len() ==> graph[(
            #[trigger] activated[k]) as int].inner.assign_delay == 0,
    ensures
        cycle(graph, trace, activated, input, criterion).snapshots == trace.snapshots,
{
    let is_later = |s: u32| graph[s as int].inner.assign_delay != 0;
    filter_origin(activated, is_later);
    let later = postponed(graph, activated);
    if later.len() > 0 {
        assert(is_later(activated.filter(is_later)[0]));
        let k = choose|k: int| 0 <= k < activated.len() && activated[k] == later[0];
        assert(graph[activated[k] as int].inner.assign_delay == 0);
    }
}

/// Combinational logic executes before the cycle boundary and clocked statements at it; a register
/// definition that takes effect executes before it as well.
pub proof fn statements_execute_at_their_time(
    graph: Seq<StaticModel>,
    trace: TraceModel,
    activated: Seq<u32>,
    input: CycleInput,
    criterion: CriterionType,
    k: int,
)
    requires
        graph_ok(graph),
        stmts_ok(graph, activated),
        delayed_ok(graph, trace),
        0 <= k < effective(graph, trace, activated, input.time).len(),
    ensures
        ({
            let stmt = graph[effective(graph, trace, activated, input.time)[k] as int].inner;
            let node = cycle(graph, trace, activated, input, criterion).nodes[trace.nodes.len()
                + k];
            &&& node.inner == stmt
            &&& !stmt.clocked ==> node.timestamp == input.time - 1
            &&& stmt.clocked && stmt.kind != PDGSpecNodeKind::DataDefinition ==> node.timestamp
                == input.time
            &&& stmt.clocked && stmt.kind == PDGSpecNodeKind::DataDefinition ==> {
                let takes_effect = stmt.assigns_to is Some && met(stmt.condition, input.probes) && (
                input.time == 0 || input.reset == Value::V1);
                node.timestamp == input.time - (if takes_effect {
                    1int
                } else {
                    0
                })
            }
        }),
{
    let stmt = graph[effective(graph, trace, activated, input.time)[k] as int].inner;
    conditions_hold_where_they_are_met(stmt.condition, input.probes);
    every_execution_gets_its_node(graph, trace, activated, input, criterion, k);
}

/// Whether a statement is a condition of control flow with a given content that is met.
pub open spec fn guards(stmt: PDGSpecNode, input: CycleInput, content: SpecNodeModel) -> bool {
    &&& stmt.kind == PDGSpecNodeKind::ControlFlow
    &&& met(stmt.condition, input.probes)
    &&& stmt@ == content
}

/// The execution that stands for a condition of control flow is the last one of the cycle, if there
/// is any.
pub proof fn the_last_guard_counts(
    graph: Seq<StaticModel>,
    stmts: Seq<u32>,
    base: int,
    input: CycleInput,
    content: SpecNodeModel,
    i: int,
)
    ensures
        0 <= i < stmts.len() && guards(graph[stmts[i] as int].inner, input, content) && (forall|
            j: int,
        |
            i < j < stmts.len() ==> !guards(
                graph[#[trigger] stmts[j] as int].inner,
                input,
                content,
            )) ==> latest_guard(graph, stmts, base, input, content) == Some((base + i) as usize),
        (forall|j: int|
            0 <= j < stmts.len() ==> !guards(
                graph[#[trigger] stmts[j] as int].inner,
                input,
                content,
            )) ==> latest_guard(graph, stmts, base, input, content) is None,
    decreases stmts.len(),
{
    if stmts.len() > 0 {
        let head = stmts.drop_last();
        let stmt = graph[stmts.last() as int].inner;
        conditions_hold_where_they_are_met(stmt.condition, input.probes);
        the_last_guard_counts(graph, head, base, input, content, i);
        let last = stmts.len() - 1;
        assert(stmts[last] == stmts.last());
        assert(forall|j: int| 0 <= j < head.len() ==> #[trigger] head[j] == stmts[j]);
    }
}

/// A statement is found where it executed last: in this cycle, or else where it was found before.
pub proof fn a_statement_is_found_where_it_executed_last(
    graph: Seq<StaticModel>,
    trace: TraceModel,
    activated: Seq<u32>,
    input: CycleInput,
    name: String,
    i: int,
)
    ensures
        ({
            let stmts = effective(graph, trace, activated, input.time);
            let after = cycle(graph, trace, activated, input, CriterionType::Statement(name));
            let found = selection(after, CriterionType::Statement(name));
            &&& 0 <= i < stmts.len() && graph[stmts[i] as int].inner.name@ == name@ && (forall|
                j: int,
            |
                i < j < stmts.len() ==> graph[#[trigger] stmts[j] as int].inner.name@ != name@)
                ==> found == Some((trace.nodes.len() + i) as usize)
            &&& (forall|j: int|
                0 <= j < stmts.len() ==> graph[#[trigger] stmts[j] as int].inner.name@ != name@)
                ==> found == trace.found
        }),
{
    let stmts = effective(graph, trace, activated, input.time);
    last_of_a_name(graph, stmts, trace.nodes.len() as int, name@, i);
}

proof fn last_of_a_name(
    graph: Seq<StaticModel>,
    stmts: Seq<u32>,
    base: int,
    name: Seq<char>,
    i: int,
)
    ensures
        0 <= i < stmts.len() && graph[stmts[i] as int].inner.name@ == name && (forall|j: int|
            i < j < stmts.len() ==> graph[#[trigger] stmts[j] as int].inner.name@ != name)
            ==> latest_named(graph, stmts, base, name) == Some((base + i) as usize),
        (forall|j: int|
            0 <= j < stmts.len() ==> graph[#[trigger] stmts[j] as int].inner.name@ != name)
            ==> latest_named(graph, stmts, base, name) is None,
    decreases stmts.len(),
{
    if stmts.len() > 0 {
        let head = stmts.drop_last();
        last_of_a_name(graph, head, base, name, i);
        let last = stmts.len() - 1;
        assert(stmts[last] == stmts.last());
        assert(forall|j: int| 0 <= j < head.len() ==> #[trigger] head[j] == stmts[j]);
    }
}

/// A signal is found where it was assigned to last; looking for it is looking for no statement.
pub proof fn a_signal_is_found_where_it_was_assigned_last(
    graph: Seq<StaticModel>,
    trace: TraceModel,
    activated: Seq<u32>,
    input: CycleInput,
    name: String,
)
    ensures
        cycle(graph, trace, activated, input, CriterionType::Signal(name)).found == trace.found,
        trace.state.contains_key(name@) ==> selection(trace, CriterionType::Signal(name)) == Some(
            trace.state[name@],
        ),
        !trace.state.contains_key(name@) ==> selection(trace, CriterionType::Signal(name)) is None,
{
}

/// Processing again keeps the graph and what is known of signals, and forgets what waits and what
/// was found.
pub proof fn starting_again_keeps_the_graph(trace: TraceModel)
    ensures
        restarted(trace).nodes == trace.nodes,
        restarted(trace).state == trace.state,
        restarted(trace).delayed.len() == 0,
        forall|t: i64| !#[trigger] restarted(trace).snapshots.contains_key(t),
        restarted(trace).found is None,
{
}

} // verus!
