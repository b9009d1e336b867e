//! How a trace is processed: where a builder starts, and what a clock cycle passes on to the next.

use vstd::prelude::*;

use crate::activation::{
    activated, apply_changes, node_refs_ok, refs_ok, with_predicate, PredicatesModel,
};
use crate::dynamic_graph::{
    cycle, restarted, CriterionType, CycleInput, GraphProcessingType, StaticModel,
};
use crate::graphbuilder::{
    first_run, initial_builder, predicate_names, registered, registration, run_trace, static_graph,
    BuilderModel, RunEnd, RunModel,
};
use crate::pdg_spec::{
    CFGSpecNode, ExportablePDGNode, PDGSpec, PDGSpecCondition, PDGSpecEdge, PDGSpecNode,
};
use crate::probes::{paths_by_code, probes_in};
use crate::simulation::ValueModel;
use crate::static_graph::{edges_after_push, edges_from, edges_to};
use crate::text::{join_with, split_on, texts};
use crate::validation::pdg_ok;
use crate::vcd_input::{lookup_scope, lookup_var, CommandModel, ItemModel, Value};
use crate::vcd_reader::{
    a_cycle_takes_one_step, after_cycle, fresh_cycle, initial_reader, read_cycle, CycleEnd,
    CycleModel, LanguageMode, ReaderModel,
};

verus! {

/// The static graph has the statements in their order; an edge is the last dependency of the
/// statement that it leaves and the last provision of the statement that it enters, and leaves the
/// others alone.
pub proof fn an_edge_joins_two_statements(
    vertices: Seq<PDGSpecNode>,
    edges: Seq<PDGSpecEdge>,
    edge: PDGSpecEdge,
    i: int,
)
    requires
        0 <= i < vertices.len(),
    ensures
        static_graph(vertices, edges).len() == vertices.len(),
        static_graph(vertices, edges)[i].inner == vertices[i],
        static_graph(vertices, Seq::empty())[i].dependencies.len() == 0,
        static_graph(vertices, Seq::empty())[i].provides.len() == 0,
        static_graph(vertices, edges.push(edge))[i].dependencies == static_graph(
            vertices,
            edges,
        )[i].dependencies + (if edge.from == i {
            seq![edge]
        } else {
            Seq::empty()
        }),
        static_graph(vertices, edges.push(edge))[i].provides == static_graph(
            vertices,
            edges,
        )[i].provides + (if edge.to == i {
            seq![edge]
        } else {
            Seq::empty()
        }),
{
    reveal(Seq::filter);
    edges_after_push(edges, edge, i);
    let out = edges_from(edges, i);
    let back = edges_to(edges, i);
    assert(out + seq![edge] =~= out.push(edge));
    assert(out + Seq::empty() =~= out);
    assert(back + seq![edge] =~= back.push(edge));
    assert(back + Seq::empty() =~= back);
}

/// Where a signal is declared, its path given below the scopes of the design.
pub open spec fn declared_as(reader: ReaderModel, name: Seq<char>) -> Option<Seq<char>> {
    lookup_var(reader.header, reader.scopes + split_on(name, '.'))
}

/// Predicates are registered in order, each with the code of the signal that is declared at its
/// path below the scopes of the design. The first one without a signal ends this: its full path is
/// told.
pub proof fn predicates_are_registered_in_order(
    reader: ReaderModel,
    preds: PredicatesModel,
    names: Seq<Seq<char>>,
    n: int,
)
    requires
        0 <= n <= names.len(),
        forall|i: int| 0 <= i < n ==> declared_as(reader, #[trigger] names[i]) is Some,
        n < names.len() ==> declared_as(reader, names[n]) is None,
    ensures
        ({
            let (after, missing) = registered(reader, preds, names);
            &&& after.ids.len() == preds.ids.len() + n
            &&& forall|i: int| 0 <= i < preds.ids.len() ==> #[trigger] after.ids[i] == preds.ids[i]
            &&& forall|i: int|
                0 <= i < n ==> after.ids[preds.ids.len() + i] == (declared_as(
                    reader,
                    #[trigger] names[i],
                )->0)
            &&& missing == if n < names.len() {
                Some(join_with(reader.scopes + split_on(names[n], '.'), '.'))
            } else {
                None
            }
        }),
    decreases names.len(),
{
    if n > 0 {
        assert(declared_as(reader, names[0]) is Some);
        let rest = names.drop_first();
        let more = with_predicate(preds, declared_as(reader, names[0])->0);
        assert forall|i: int| 0 <= i < n - 1 implies declared_as(
            reader,
            #[trigger] rest[i],
        ) is Some by {
            assert(rest[i] == names[i + 1]);
        }
        assert(n < names.len() ==> rest[n - 1] == names[n]);
        predicates_are_registered_in_order(reader, more, rest, n - 1);
        let after = registered(reader, preds, names).0;
        assert forall|i: int| 0 <= i < n implies after.ids[preds.ids.len() + i] == (declared_as(
            reader,
            #[trigger] names[i],
        )->0) by {
            if i > 0 {
                assert(rest[i - 1] == names[i]);
                assert(after.ids[more.ids.len() + (i - 1)] == declared_as(reader, rest[i - 1])->0);
            } else {
                assert(after.ids[preds.ids.len() as int] == more.ids[preds.ids.len() as int]);
            }
        }
        assert forall|i: int| 0 <= i < preds.ids.len() implies #[trigger] after.ids[i]
            == preds.ids[i] by {
            assert(after.ids[i] == more.ids[i]);
        }
    }
}

/// A signal that a predicate is registered for is unknown afterwards; the others keep their values.
pub proof fn registered_signals_are_unknown(
    reader: ReaderModel,
    preds: PredicatesModel,
    names: Seq<Seq<char>>,
    n: int,
    code: Seq<char>,
)
    requires
        0 <= n <= names.len(),
        forall|i: int| 0 <= i < n ==> declared_as(reader, #[trigger] names[i]) is Some,
        n < names.len() ==> declared_as(reader, names[n]) is None,
    ensures
        ({
            let after = registered(reader, preds, names).0;
            &&& (exists|i: int| 0 <= i < n && declared_as(reader, #[trigger] names[i]) == Some(code))
                ==> after.values.contains_key(code) && after.values[code] == ValueModel::Scalar(
                Value::X,
            )
            &&& (forall|i: int|
                0 <= i < n ==> declared_as(reader, #[trigger] names[i]) != Some(code))
                ==> after.values.contains_key(code) == preds.values.contains_key(code)
                && after.values[code] == preds.values[code]
        }),
    decreases names.len(),
{
    if n > 0 {
        assert(declared_as(reader, names[0]) is Some);
        let rest = names.drop_first();
        let more = with_predicate(preds, declared_as(reader, names[0])->0);
        assert forall|i: int| 0 <= i < n - 1 implies declared_as(
            reader,
            #[trigger] rest[i],
        ) is Some by {
            assert(rest[i] == names[i + 1]);
        }
        assert(n < names.len() ==> rest[n - 1] == names[n]);
        registered_signals_are_unknown(reader, more, rest, n - 1, code);
        assert(forall|i: int| 0 <= i < n - 1 ==> #[trigger] rest[i] == names[i + 1]);
        if exists|i: int| 0 <= i < n && declared_as(reader, #[trigger] names[i]) == Some(code) {
            let i = choose|i: int|
                0 <= i < n && declared_as(reader, #[trigger] names[i]) == Some(code);
            if i > 0 {
                assert(declared_as(reader, rest[i - 1]) == Some(code));
            }
        }
    }
}

/// A builder registers the predicates of its static graph by their names.
pub proof fn a_builder_registers_its_predicates(b: BuilderModel, i: int)
    ensures
        registration(b) == registered(b.reader, b.preds, predicate_names(b.predicates)),
        predicate_names(b.predicates).len() == b.predicates.len(),
        0 <= i < b.predicates.len() ==> predicate_names(b.predicates)[i] == b.predicates[i].name@,
{
}

/// A new builder has the static graph, the control flow and the predicates that it was given, and
/// nothing else: no predicate is registered, the dynamic graph is empty and nothing waits.
pub proof fn a_new_builder_has_done_nothing(reader: ReaderModel, pdg: PDGSpec)
    ensures
        ({
            let b = initial_builder(reader, pdg);
            &&& b.reader == reader
            &&& b.predicates == pdg.predicates@
            &&& b.cfg == pdg.cfg@
            &&& b.graph == static_graph(pdg.vertices@, pdg.edges@)
            &&& b.preds.ids.len() == 0
            &&& b.trace.nodes.len() == 0
            &&& b.trace.delayed.len() == 0
            &&& b.trace.found is None
            &&& forall|s: Seq<char>| !#[trigger] b.preds.values.contains_key(s)
            &&& forall|s: Seq<char>| !#[trigger] b.trace.state.contains_key(s)
            &&& forall|t: i64| !#[trigger] b.trace.snapshots.contains_key(t)
        }),
{
}

/// Processing starts with the reader as it is, with the predicates registered and with the graph
/// that is there.
pub proof fn processing_starts_where_it_stopped(b: BuilderModel)
    ensures
        first_run(b).reader == b.reader,
        first_run(b).preds == registration(b).0,
        first_run(b).trace == restarted(b.trace),
{
}

/// The reader at the start of a trace finds the clock and the reset below the scopes of the design,
/// the clock under the name that the source language gives it, and the probes in the scope of the
/// design. It fails where the clock or the reset is not declared. Nothing is known of levels and
/// probe values, and nothing has been read.
pub proof fn a_trace_starts_unknown(
    header: Seq<ItemModel>,
    commands: Seq<CommandModel>,
    scopes: Seq<Seq<char>>,
    mode: LanguageMode,
)
    ensures
        ({
            let clock = lookup_var(
                header,
                scopes + seq![
                    if mode == LanguageMode::SpinalHDL {
                        "clk"@
                    } else {
                        "clock"@
                    },
                ],
            );
            let reset = lookup_var(header, scopes + seq!["reset"@]);
            match initial_reader(header, commands, scopes, mode) {
                None => clock is None || reset is None,
                Some(reader) => {
                    let k = reader.collector;
                    &&& reader.header == header
                    &&& reader.scopes == scopes
                    &&& reader.pending == commands
                    &&& clock == Some(k.clock)
                    &&& reset == Some(k.reset)
                    &&& k.clock_val == Value::X
                    &&& k.reset_val == Value::X
                    &&& k.current_time == 0
                    &&& k.held_changes.len() == 0
                    &&& k.held_probes.len() == 0
                    &&& forall|p: Seq<char>| !#[trigger] k.probe_values.contains_key(p)
                    &&& match lookup_scope(header, scopes) {
                        Some(items) => k.probes == paths_by_code(probes_in(items, Seq::empty())),
                        None => forall|code: Seq<char>| !#[trigger] k.probes.contains_key(code),
                    }
                },
            }
        }),
{
    let name = if mode == LanguageMode::SpinalHDL {
        "clk"@
    } else {
        "clock"@
    };
    assert(scopes + seq![name] =~= scopes.push(name));
    assert(scopes + seq!["reset"@] =~= scopes.push("reset"@));
}

/// What a run reads next.
pub open spec fn next_read(run: RunModel) -> CycleEnd {
    read_cycle(
        CycleModel { collector: run.reader.collector, rising: false, changes: Seq::empty() },
        run.reader.pending,
    )
}

/// A run after it has read a clock cycle and before it processes it.
pub open spec fn having_read(run: RunModel) -> ReaderModel {
    ReaderModel {
        collector: next_read(run).collector,
        pending: next_read(run).pending,
        ..run.reader
    }
}

/// A run ends, with everything as it is, before a clock cycle that comes after the limit; a cycle
/// takes two steps.
pub proof fn the_limit_ends_a_run(
    graph: Seq<StaticModel>,
    cfg: Seq<CFGSpecNode>,
    run: RunModel,
    limit: i64,
    mode: GraphProcessingType,
    criterion: CriterionType,
)
    requires
        2 * run.reader.collector.current_time > limit,
    ensures
        run_trace(graph, cfg, run, Some(limit), mode, criterion) == (RunEnd { run, error: None }),
{
}

/// Whether a clock cycle that starts now comes before the limit, if there is one.
pub open spec fn has_time(run: RunModel, limit: Option<i64>) -> bool {
    &&& 2 * run.reader.collector.current_time <= i64::MAX
    &&& limit matches Some(max) ==> 2 * run.reader.collector.current_time <= max
}

/// What cannot be read ends a run with a message; the graph and the predicates stay as they are.
pub proof fn what_cannot_be_read_ends_a_run(
    graph: Seq<StaticModel>,
    cfg: Seq<CFGSpecNode>,
    run: RunModel,
    limit: Option<i64>,
    mode: GraphProcessingType,
    criterion: CriterionType,
)
    requires
        has_time(run, limit),
        next_read(run).outcome is Err,
    ensures
        ({
            let end = run_trace(graph, cfg, run, limit, mode, criterion);
            &&& end.error == Some(next_read(run).outcome->Err_0)
            &&& end.run == (RunModel { reader: having_read(run), ..run })
        }),
{
}

/// A run processes a clock cycle with the predicates as the changes of the cycle leave them, at the
/// time before the reader moves on, and with the level of the reset and the values of the probes
/// after the cycle. It goes on with the next cycle unless the trace has ended.
pub proof fn a_run_takes_one_cycle_after_the_other(
    graph: Seq<StaticModel>,
    cfg: Seq<CFGSpecNode>,
    run: RunModel,
    limit: Option<i64>,
    mode: GraphProcessingType,
    criterion: CriterionType,
    next: RunModel,
)
    requires
        has_time(run, limit),
        next_read(run).outcome is Ok,
        next.reader == having_read(run),
        next.preds.ids == run.preds.ids,
        next.preds.values == apply_changes(run.preds.values, next_read(run).outcome->Ok_0.0),
        next.trace == cycle(
            graph,
            run.trace,
            activated(cfg, next.preds),
            (CycleInput {
                time: run.reader.collector.current_time,
                reset: next_read(run).collector.reset_val,
                probes: next_read(run).collector.probe_values,
                mode,
            }),
            criterion,
        ),
    ensures
        next_read(run).outcome->Ok_0.1 ==> run_trace(graph, cfg, run, limit, mode, criterion) == (
        RunEnd { run: next, error: None }),
        !next_read(run).outcome->Ok_0.1 ==> run_trace(graph, cfg, run, limit, mode, criterion)
            == run_trace(graph, cfg, next, limit, mode, criterion),
{
    a_cycle_takes_one_step(fresh_cycle(run.reader.collector), run.reader.pending);
    assert(after_cycle(run.reader) == having_read(run));
    assert(next.preds == (PredicatesModel {
        values: apply_changes(run.preds.values, next_read(run).outcome->Ok_0.0),
        ..run.preds
    }));
}

/// Whether what a node of the control flow graph names exists, and what the nodes in its branches
/// refer to.
pub open spec fn exists_at_this_level(node: CFGSpecNode, stmts: nat, preds: nat) -> bool {
    &&& node.stmt_ref < stmts
    &&& node.pred_stmt_ref matches Some(p) ==> p < preds
    &&& node.true_branch matches Some(list) ==> refs_ok(list@, stmts, preds)
    &&& node.false_branch matches Some(list) ==> refs_ok(list@, stmts, preds)
    &&& node.default_branch matches Some(list) ==> refs_ok(list@, stmts, preds)
    &&& node.branches matches Some(list) ==> forall|j: int|
        0 <= j < list@.len() ==> refs_ok((#[trigger] list@[j]).stmts@, stmts, preds)
}

/// Control flow refers to what exists exactly where each of its nodes does, with the nodes in all
/// of its branches.
pub proof fn references_exist_at_every_level(nodes: Seq<CFGSpecNode>, stmts: nat, preds: nat)
    ensures
        refs_ok(nodes, stmts, preds) <==> forall|i: int|
            0 <= i < nodes.len() ==> #[trigger] exists_at_this_level(nodes[i], stmts, preds),
{
    assert forall|i: int| 0 <= i < nodes.len() implies #[trigger] node_refs_ok(
        nodes[i],
        stmts,
        preds,
    ) == exists_at_this_level(nodes[i], stmts, preds) by {}
    if refs_ok(nodes, stmts, preds) {
        assert forall|i: int| 0 <= i < nodes.len() implies #[trigger] exists_at_this_level(
            nodes[i],
            stmts,
            preds,
        ) by {
            assert(node_refs_ok(nodes[i], stmts, preds));
        }
    }
    if forall|i: int|
        0 <= i < nodes.len() ==> #[trigger] exists_at_this_level(nodes[i], stmts, preds) {
        assert forall|i: int| 0 <= i < nodes.len() implies node_refs_ok(
            #[trigger] nodes[i],
            stmts,
            preds,
        ) by {
            assert(exists_at_this_level(nodes[i], stmts, preds));
            assert(node_refs_ok(nodes[i], stmts, preds) == exists_at_this_level(
                nodes[i],
                stmts,
                preds,
            ));
        }
        assert(refs_ok(nodes, stmts, preds));
    }
}

/// A static graph is in order where no edge joins a statement with one that is not there, and its
/// control flow refers to its statements and predicates.
pub proof fn a_static_graph_joins_what_exists(pdg: PDGSpec)
    ensures
        pdg_ok(pdg) <==> {
            &&& pdg.vertices@.len() <= u32::MAX + 1
            &&& forall|i: int|
                0 <= i < pdg.edges@.len() ==> ((#[trigger] pdg.edges@[i]).from
                    >= pdg.vertices@.len()) == (pdg.edges@[i].to >= pdg.vertices@.len())
            &&& refs_ok(pdg.cfg@, pdg.vertices@.len(), pdg.predicates@.len())
        },
{
}

/// Whether two conditions ask for the same values of the same probes, in the same order.
pub open spec fn same_asked(a: PDGSpecCondition, b: PDGSpecCondition) -> bool {
    &&& texts(a.probe_name@) == texts(b.probe_name@)
    &&& a.probe_value@ == b.probe_value@
}

/// Two statements have the same content exactly where they agree in every field.
pub proof fn content_tells_statements_apart(a: PDGSpecNode, b: PDGSpecNode)
    ensures
        a@ == b@ <==> {
            &&& a.file@ == b.file@
            &&& a.line == b.line
            &&& a.char == b.char
            &&& a.name@ == b.name@
            &&& a.kind == b.kind
            &&& a.clocked == b.clocked
            &&& texts(a.instance_path@) == texts(b.instance_path@)
            &&& (a.related_signal is Some) == (b.related_signal is Some)
            &&& a.related_signal is Some ==> a.related_signal->0.signal_path@
                == b.related_signal->0.signal_path@ && a.related_signal->0.field_path@
                == b.related_signal->0.field_path@
            &&& a.is_chisel_assignment == b.is_chisel_assignment
            &&& (a.assigns_to is Some) == (b.assigns_to is Some)
            &&& a.assigns_to is Some ==> a.assigns_to->0@ == b.assigns_to->0@
            &&& a.assign_delay == b.assign_delay
            &&& (a.condition is Some) == (b.condition is Some)
            &&& a.condition is Some ==> same_asked(a.condition->0, b.condition->0)
        },
{
}

/// Two nodes of an exported graph have the same content exactly where they agree in every field.
pub proof fn content_tells_nodes_apart(a: ExportablePDGNode, b: ExportablePDGNode)
    ensures
        a@ == b@ <==> {
            &&& a.file@ == b.file@
            &&& a.line == b.line
            &&& a.char == b.char
            &&& a.name@ == b.name@
            &&& a.kind == b.kind
            &&& a.clocked == b.clocked
            &&& texts(a.instance_path@) == texts(b.instance_path@)
            &&& (a.related_signal is Some) == (b.related_signal is Some)
            &&& a.related_signal is Some ==> a.related_signal->0.signal_path@
                == b.related_signal->0.signal_path@ && a.related_signal->0.field_path@
                == b.related_signal->0.field_path@
            &&& (a.sim_data is Some) == (b.sim_data is Some)
            &&& a.sim_data is Some ==> a.sim_data->0@ == b.sim_data->0@
            &&& a.timestamp == b.timestamp
            &&& a.is_chisel_assignment == b.is_chisel_assignment
        },
{
}

/// Two lists of texts are the same exactly where they have the same texts in the same places.
pub proof fn lists_of_texts_agree_place_by_place(a: Seq<String>, b: Seq<String>)
    ensures
        texts(a) == texts(b) <==> a.len() == b.len() && forall|i: int|
            0 <= i < a.len() ==> (#[trigger] a[i])@ == b[i]@,
{
    if texts(a) == texts(b) {
        assert(texts(a).len() == texts(b).len());
        assert forall|i: int| 0 <= i < a.len() implies (#[trigger] a[i])@ == b[i]@ by {
            assert(texts(a)[i] == texts(b)[i]);
        }
    }
    if a.len() == b.len() && forall|i: int| 0 <= i < a.len() ==> (#[trigger] a[i])@ == b[i]@ {
        assert(texts(a) =~= texts(b));
    }
}

} // verus!
