//! What holds of a graph once a trace has been processed.

use vstd::prelude::*;

use crate::activation::{activated, activated_statements_exist, refs_ok};
use crate::dynamic_graph::{
    cycle, effective, selection, CriterionType, GraphProcessingType, StaticModel, TraceModel,
};
use crate::graphbuilder::{
    first_run, initial_builder, input_after, predicate_names, registering_adds_predicates,
    registration, run_cycle, run_trace, static_graph, static_graph_ok, within_limit, RunModel,
};
use crate::pdg_spec::{CFGSpecNode, PDGSpec, PDGSpecEdgeKind};
use crate::simulation::ChangeModel;
use crate::static_graph::edges_join;

use crate::trace_laws::{
    a_cycle_keeps_the_trace_in_order, assigns, defined_ok, definition_ok,
    definitions_provide_at_the_start_or_during_reset, find_ok, is_asked_for, mode_ok, node_ok,
    on_signal, state_ok, trace_ok,
};
use crate::tracer::{delayed_ok, delayed_stay_in_order, graph_ok, nodes_only_grow, stmts_ok};
use crate::vcd_input::Value;
use crate::vcd_reader::{
    a_cycle_takes_one_step, a_cycle_uses_up_commands, after_cycle, fresh_cycle, read_cycle,
    ReaderModel,
};

verus! {

/// Whether a run is in order: its trace, the statements that wait and what control flow refers to.
pub open spec fn run_ok(graph: Seq<StaticModel>, cfg: Seq<CFGSpecNode>, run: RunModel) -> bool {
    &&& graph_ok(graph)
    &&& refs_ok(cfg, graph.len(), run.preds.ids.len())
    &&& run.reader.collector.current_time >= 0
    &&& trace_ok(graph, run.trace, run.reader.collector.current_time - 1)
    &&& delayed_ok(graph, run.trace)
}

/// The number of nodes never goes down.
proof fn a_run_only_adds_nodes(
    graph: Seq<StaticModel>,
    cfg: Seq<CFGSpecNode>,
    run: RunModel,
    limit: Option<i64>,
    mode: GraphProcessingType,
    criterion: CriterionType,
)
    ensures
        run.trace.nodes.len() <= run_trace(
            graph,
            cfg,
            run,
            limit,
            mode,
            criterion,
        ).run.trace.nodes.len(),
    decreases run.reader.pending.len(),
{
    if within_limit(run.reader.collector.current_time, limit) {
        if let Ok((changes, eof)) = read_cycle(
            fresh_cycle(run.reader.collector),
            run.reader.pending,
        ).outcome {
            let next = run_cycle(graph, cfg, run, changes, mode, criterion);
            a_step_only_adds_nodes(graph, cfg, run, changes, mode, criterion);
            if !eof {
                a_cycle_uses_up_commands(fresh_cycle(run.reader.collector), run.reader.pending);
                a_run_only_adds_nodes(graph, cfg, next, limit, mode, criterion);
            }
        }
    }
}

/// A clock cycle removes no nodes.
proof fn a_step_only_adds_nodes(
    graph: Seq<StaticModel>,
    cfg: Seq<CFGSpecNode>,
    run: RunModel,
    changes: Seq<ChangeModel>,
    mode: GraphProcessingType,
    criterion: CriterionType,
)
    ensures
        run.trace.nodes.len() <= run_cycle(
            graph,
            cfg,
            run,
            changes,
            mode,
            criterion,
        ).trace.nodes.len(),
{
    let next = run_cycle(graph, cfg, run, changes, mode, criterion);
    let input = input_after(next.reader, mode);
    let stmts = effective(graph, run.trace, activated(cfg, next.preds), input.time);
    nodes_only_grow(graph, run.trace, stmts, input, stmts.len());
}

/// A clock cycle keeps a run in order.
proof fn a_step_keeps_the_run_in_order(
    graph: Seq<StaticModel>,
    cfg: Seq<CFGSpecNode>,
    run: RunModel,
    changes: Seq<ChangeModel>,
    eof: bool,
    limit: Option<i64>,
    mode: GraphProcessingType,
    criterion: CriterionType,
)
    requires
        run_ok(graph, cfg, run),
        find_ok(run.trace, criterion),
        within_limit(run.reader.collector.current_time, limit),
        read_cycle(fresh_cycle(run.reader.collector), run.reader.pending).outcome == Ok::<
            (Seq<ChangeModel>, bool),
            Seq<char>,
        >((changes, eof)),
        run_cycle(graph, cfg, run, changes, mode, criterion).trace.nodes.len() <= usize::MAX,
    ensures
        run_ok(graph, cfg, run_cycle(graph, cfg, run, changes, mode, criterion)),
        find_ok(run_cycle(graph, cfg, run, changes, mode, criterion).trace, criterion),
        mode_ok(
            run_cycle(graph, cfg, run, changes, mode, criterion).trace.nodes,
            run.trace.nodes.len() as int,
            mode,
        ),
        run.trace.nodes.len() <= run_cycle(
            graph,
            cfg,
            run,
            changes,
            mode,
            criterion,
        ).trace.nodes.len(),
        forall|n: int|
            0 <= n < run.trace.nodes.len() ==> #[trigger] run_cycle(
                graph,
                cfg,
                run,
                changes,
                mode,
                criterion,
            ).trace.nodes[n] == run.trace.nodes[n],
{
    let next = run_cycle(graph, cfg, run, changes, mode, criterion);
    let input = input_after(next.reader, mode);
    let stmts = activated(cfg, next.preds);
    a_cycle_takes_one_step(fresh_cycle(run.reader.collector), run.reader.pending);
    assert(input.time == run.reader.collector.current_time);
    assert(next.preds.ids == run.preds.ids);
    activated_statements_exist(cfg, next.preds, graph.len());
    assert(stmts_ok(graph, stmts));
    a_cycle_keeps_the_trace_in_order(graph, run.trace, stmts, input, criterion);
    delayed_stay_in_order(graph, run.trace, stmts, input, criterion);
}

/// Processing a trace keeps a run in order: the nodes that were there stay as they were, and the
/// nodes that are added are in order and have the dependencies that the mode asks for.
pub proof fn a_run_stays_in_order(
    graph: Seq<StaticModel>,
    cfg: Seq<CFGSpecNode>,
    run: RunModel,
    limit: Option<i64>,
    mode: GraphProcessingType,
    criterion: CriterionType,
)
    requires
        run_ok(graph, cfg, run),
        find_ok(run.trace, criterion),
        run_trace(graph, cfg, run, limit, mode, criterion).run.trace.nodes.len() <= usize::MAX,
    ensures
        run_ok(graph, cfg, run_trace(graph, cfg, run, limit, mode, criterion).run),
        find_ok(run_trace(graph, cfg, run, limit, mode, criterion).run.trace, criterion),
        mode_ok(
            run_trace(graph, cfg, run, limit, mode, criterion).run.trace.nodes,
            run.trace.nodes.len() as int,
            mode,
        ),
        forall|n: int|
            0 <= n < run.trace.nodes.len() ==> #[trigger] run_trace(
                graph,
                cfg,
                run,
                limit,
                mode,
                criterion,
            ).run.trace.nodes[n] == run.trace.nodes[n],
    decreases run.reader.pending.len(),
{
    let end = run_trace(graph, cfg, run, limit, mode, criterion);
    if within_limit(run.reader.collector.current_time, limit) {
        match read_cycle(fresh_cycle(run.reader.collector), run.reader.pending).outcome {
            Ok((changes, eof)) => {
                let next = run_cycle(graph, cfg, run, changes, mode, criterion);
                if !eof {
                    a_cycle_uses_up_commands(
                        fresh_cycle(run.reader.collector),
                        run.reader.pending,
                    );
                    a_run_only_adds_nodes(graph, cfg, next, limit, mode, criterion);
                }
                a_step_keeps_the_run_in_order(
                    graph,
                    cfg,
                    run,
                    changes,
                    eof,
                    limit,
                    mode,
                    criterion,
                );
                if !eof {
                    a_run_stays_in_order(graph, cfg, next, limit, mode, criterion);
                    assert forall|n: int|
                        0 <= n < run.trace.nodes.len() implies #[trigger] end.run.trace.nodes[n]
                        == run.trace.nodes[n] by {
                        assert(next.trace.nodes[n] == run.trace.nodes[n]);
                    }
                    let first = run.trace.nodes.len() as int;
                    let nodes = end.run.trace.nodes;
                    assert forall|n: int, k: int|
                        first <= n < nodes.len() && 0 <= k < nodes[n].dependencies.len() implies {
                        let kind = (#[trigger] nodes[n].dependencies[k]).1;
                        &&& mode == GraphProcessingType::DataOnly ==> kind
                            == PDGSpecEdgeKind::Data
                        &&& kind == PDGSpecEdgeKind::Declaration ==> mode
                            == GraphProcessingType::Full
                        &&& kind != PDGSpecEdgeKind::Other
                    } by {
                        if n < next.trace.nodes.len() {
                            assert(nodes[n] == next.trace.nodes[n]);
                            assert(nodes[n].dependencies[k]
                                == next.trace.nodes[n].dependencies[k]);
                        }
                    }
                }
            },
            Err(_) => {
                a_cycle_takes_one_step(fresh_cycle(run.reader.collector), run.reader.pending);
            },
        }
    }
}

/// A reader after it has read `n` clock cycles.
pub open spec fn reader_after(reader: ReaderModel, n: nat) -> ReaderModel
    decreases n,
{
    if n == 0 {
        reader
    } else {
        after_cycle(reader_after(reader, (n - 1) as nat))
    }
}

/// The level of the reset in each clock cycle: what has been read of it by the end of the cycle.
pub open spec fn resets_of(reader: ReaderModel) -> spec_fn(int) -> Value {
    |cycle: int| reader_after(reader, (cycle + 1) as nat).collector.reset_val
}

/// Processing a trace keeps it so that a register definition on which a node depends for a signal
/// was made in the first cycle or in one during reset.
pub proof fn a_run_keeps_definitions(
    graph: Seq<StaticModel>,
    cfg: Seq<CFGSpecNode>,
    run: RunModel,
    limit: Option<i64>,
    mode: GraphProcessingType,
    criterion: CriterionType,
    reader: ReaderModel,
)
    requires
        run_ok(graph, cfg, run),
        find_ok(run.trace, criterion),
        run.reader == reader_after(reader, run.reader.collector.current_time as nat),
        defined_ok(run.trace, resets_of(reader)),
        run_trace(graph, cfg, run, limit, mode, criterion).run.trace.nodes.len() <= usize::MAX,
    ensures
        defined_ok(
            run_trace(graph, cfg, run, limit, mode, criterion).run.trace,
            resets_of(reader),
        ),
    decreases run.reader.pending.len(),
{
    if within_limit(run.reader.collector.current_time, limit) {
        let time = run.reader.collector.current_time;
        a_cycle_takes_one_step(fresh_cycle(run.reader.collector), run.reader.pending);
        a_cycle_uses_up_commands(fresh_cycle(run.reader.collector), run.reader.pending);
        if let Ok((changes, eof)) = read_cycle(
            fresh_cycle(run.reader.collector),
            run.reader.pending,
        ).outcome {
            let next = run_cycle(graph, cfg, run, changes, mode, criterion);
            let input = input_after(next.reader, mode);
            let stmts = activated(cfg, next.preds);
            if !eof {
                a_run_only_adds_nodes(graph, cfg, next, limit, mode, criterion);
            }
            a_step_keeps_the_run_in_order(graph, cfg, run, changes, eof, limit, mode, criterion);
            activated_statements_exist(cfg, next.preds, graph.len());
            assert(stmts_ok(graph, stmts));
            assert(next.reader == reader_after(reader, (time + 1) as nat));
            assert(resets_of(reader)(time) == input.reset);
            definitions_provide_at_the_start_or_during_reset(
                graph,
                run.trace,
                stmts,
                input,
                criterion,
                resets_of(reader),
            );
            if !eof {
                a_run_keeps_definitions(graph, cfg, next, limit, mode, criterion, reader);
            }
        }
    }
}

/// What a criterion selects is what it asks for: an execution of the statement, or the node that
/// assigned to the signal last.
pub proof fn the_criterion_is_met(
    graph: Seq<StaticModel>,
    trace: TraceModel,
    latest: int,
    criterion: CriterionType,
)
    requires
        trace_ok(graph, trace, latest),
        find_ok(trace, criterion),
    ensures
        selection(trace, criterion) matches Some(n) ==> is_asked_for(trace.nodes, n, criterion),
{
    if let CriterionType::Signal(signal) = criterion {
        if trace.state.contains_key(signal@) {
            assert(assigns(trace.nodes, trace.state[signal@], signal@, latest));
        }
    }
}

/// The graph that a new builder makes is in order: every node is an execution of a statement of
/// the static graph, every dependency leads to a node of the graph and is among those that the mode
/// asks for, a register definition that is depended on was made in the first cycle or during reset,
/// and the node that is selected is what the criterion asks for.
pub proof fn a_built_graph_is_in_order(
    reader: ReaderModel,
    pdg: PDGSpec,
    limit: Option<i64>,
    mode: GraphProcessingType,
    criterion: CriterionType,
)
    requires
        reader.collector.current_time == 0,
        edges_join(pdg.edges@, pdg.vertices@.len()),
        refs_ok(pdg.cfg@, pdg.vertices@.len(), pdg.predicates@.len()),
        registration(initial_builder(reader, pdg)).1 is None,
        run_trace(
            initial_builder(reader, pdg).graph,
            pdg.cfg@,
            first_run(initial_builder(reader, pdg)),
            limit,
            mode,
            criterion,
        ).run.trace.nodes.len() <= usize::MAX,
    ensures
        ({
            let graph = static_graph(pdg.vertices@, pdg.edges@);
            let end = run_trace(
                graph,
                pdg.cfg@,
                first_run(initial_builder(reader, pdg)),
                limit,
                mode,
                criterion,
            ).run;
            &&& forall|n: int|
                0 <= n < end.trace.nodes.len() ==> #[trigger] node_ok(
                    graph,
                    end.trace.nodes,
                    end.reader.collector.current_time - 1,
                    n,
                )
            &&& mode_ok(end.trace.nodes, 0, mode)
            &&& selection(end.trace, criterion) matches Some(n) ==> is_asked_for(
                end.trace.nodes,
                n,
                criterion,
            )
            &&& forall|n: int, k: int|
                0 <= n < end.trace.nodes.len() && 0 <= k < end.trace.nodes[n].dependencies.len()
                    && on_signal(#[trigger] end.trace.nodes[n].dependencies[k]) ==> definition_ok(
                    end.trace.nodes[end.trace.nodes[n].dependencies[k].0 as int],
                    resets_of(reader),
                )
        }),
{
    let start = initial_builder(reader, pdg);
    let graph = start.graph;
    let run = first_run(start);
    static_graph_ok(pdg.vertices@, pdg.edges@);
    registering_adds_predicates(reader, start.preds, predicate_names(start.predicates));
    assert(run.preds.ids.len() == pdg.predicates@.len());
    assert(graph.len() == pdg.vertices@.len());
    assert(state_ok(run.trace.nodes, run.trace.state, -1));
    assert(run_ok(graph, pdg.cfg@, run));
    a_run_stays_in_order(graph, pdg.cfg@, run, limit, mode, criterion);
    a_run_keeps_definitions(graph, pdg.cfg@, run, limit, mode, criterion, reader);
    let end = run_trace(graph, pdg.cfg@, run, limit, mode, criterion).run;
    the_criterion_is_met(
        graph,
        end.trace,
        end.reader.collector.current_time - 1,
        criterion,
    );
}

/// A run goes on to the end of the trace unless the trace cannot be read or the limit is reached,
/// and time never runs backwards.
pub proof fn a_run_ends_with_the_trace_or_the_limit(
    graph: Seq<StaticModel>,
    cfg: Seq<CFGSpecNode>,
    run: RunModel,
    limit: Option<i64>,
    mode: GraphProcessingType,
    criterion: CriterionType,
)
    ensures
        ({
            let end = run_trace(graph, cfg, run, limit, mode, criterion);
            &&& end.error is None ==> end.run.reader.pending.len() == 0 || !within_limit(
                end.run.reader.collector.current_time,
                limit,
            )
            &&& end.run.reader.collector.current_time >= run.reader.collector.current_time
            &&& end.run.reader.pending.len() <= run.reader.pending.len()
        }),
    decreases run.reader.pending.len(),
{
    if within_limit(run.reader.collector.current_time, limit) {
        a_cycle_takes_one_step(fresh_cycle(run.reader.collector), run.reader.pending);
        a_cycle_uses_up_commands(fresh_cycle(run.reader.collector), run.reader.pending);
        if let Ok((changes, eof)) = read_cycle(
            fresh_cycle(run.reader.collector),
            run.reader.pending,
        ).outcome {
            if !eof {
                let next = run_cycle(graph, cfg, run, changes, mode, criterion);
                a_run_ends_with_the_trace_or_the_limit(graph, cfg, next, limit, mode, criterion);
            }
        }
    }
}

} // verus!
