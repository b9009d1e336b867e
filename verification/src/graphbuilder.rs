//! Builds dynamic program dependence graphs from traces.

use vstd::prelude::*;

use crate::activation::{
    activated, activated_statements_exist, apply_changes, refs_ok, refs_stay_ok, with_predicate,
    Predicates, PredicatesModel,
};
use crate::dynamic_graph::{
    cycle, dyn_models, restarted, selection, static_models, CycleInput, StaticModel, TraceModel,
};
pub use crate::dynamic_graph::{CriterionType, DynPDGNode, GraphProcessingType};
use crate::errors::Error;
use crate::lists::filter_origin;
use crate::pdg_spec::{CFGSpecNode, PDGSpec, PDGSpecEdge, PDGSpecNode, PDGSpecPredicate};
use crate::run_laws::{a_run_stays_in_order, run_ok, the_criterion_is_met};
use crate::simulation::{change_models, ChangeModel, ValueChange};
use crate::static_graph::{edges_from, edges_join, edges_to, link, PDGNode};
use crate::text::{join_with, texts};
use crate::trace_laws::{is_asked_for, mode_ok, trace_ok};
use crate::tracer::{delayed_ok, graph_ok, stmts_ok, CycleInputs, DynamicTrace};
use crate::vcd_input::{lookup_var, vcd_body, vcd_header};
use crate::vcd_reader::{
    a_cycle_takes_one_step, a_cycle_uses_up_commands, after_cycle, fresh_cycle, full_path,
    initial_reader, read_cycle, ReaderModel, VcdReader,
};
pub use crate::vcd_reader::LanguageMode;

verus! {

/// Main structure for building dynamic program dependence graphs from traces.
///
/// It processes a static dependence graph along with simulation data to produce a dynamic graph
/// that shows the actual dependencies during execution.
pub struct GraphBuilder {
    reader: VcdReader,
    predicates: Vec<PDGSpecPredicate>,
    cfg: Vec<CFGSpecNode>,
    /// Statements with adjacency lists in both directions.
    linked_nodes: Vec<PDGNode>,
    /// Current values of the predicates.
    pred_values: Predicates,
    trace: DynamicTrace,
}

/// Content of a [`GraphBuilder`].
#[verifier::ext_equal]
pub struct BuilderModel {
    pub reader: ReaderModel,
    pub predicates: Seq<PDGSpecPredicate>,
    pub cfg: Seq<CFGSpecNode>,
    pub graph: Seq<StaticModel>,
    pub preds: PredicatesModel,
    pub trace: TraceModel,
}

/// What changes from clock cycle to clock cycle.
#[verifier::ext_equal]
pub struct RunModel {
    pub reader: ReaderModel,
    pub preds: PredicatesModel,
    pub trace: TraceModel,
}

/// Where a run ends, with a message if the trace cannot be read any further.
#[verifier::ext_equal]
pub struct RunEnd {
    pub run: RunModel,
    pub error: Option<Seq<char>>,
}

/// The paths of a list of predicates.
pub open spec fn predicate_names(predicates: Seq<PDGSpecPredicate>) -> Seq<Seq<char>> {
    Seq::new(predicates.len(), |i: int| predicates[i].name@)
}

/// The static graph with the edges that leave and that enter each statement.
pub open spec fn static_graph(
    vertices: Seq<PDGSpecNode>,
    edges: Seq<PDGSpecEdge>,
) -> Seq<StaticModel> {
    Seq::new(
        vertices.len(),
        |i: int|
            StaticModel {
                inner: vertices[i],
                dependencies: edges_from(edges, i),
                provides: edges_to(edges, i),
            },
    )
}

/// A builder that has not processed anything.
pub open spec fn initial_builder(reader: ReaderModel, pdg: PDGSpec) -> BuilderModel {
    BuilderModel {
        reader,
        predicates: pdg.predicates@,
        cfg: pdg.cfg@,
        graph: static_graph(pdg.vertices@, pdg.edges@),
        preds: PredicatesModel { ids: Seq::empty(), values: Map::empty() },
        trace: TraceModel {
            nodes: Seq::empty(),
            state: Map::empty(),
            delayed: Seq::empty(),
            snapshots: Map::empty(),
            found: None,
        },
    }
}

/// The predicates after their signals have been looked up in order, and the full path of the first
/// signal that is not declared.
pub open spec fn registered(
    reader: ReaderModel,
    preds: PredicatesModel,
    names: Seq<Seq<char>>,
) -> (PredicatesModel, Option<Seq<char>>)
    decreases names.len(),
{
    if names.len() == 0 {
        (preds, None)
    } else {
        let path = full_path(reader.scopes, names[0]);
        match lookup_var(reader.header, path) {
            Some(code) => registered(reader, with_predicate(preds, code), names.drop_first()),
            None => (preds, Some(join_with(path, '.'))),
        }
    }
}

/// What registering the predicates of a builder gives.
pub open spec fn registration(b: BuilderModel) -> (PredicatesModel, Option<Seq<char>>) {
    registered(b.reader, b.preds, predicate_names(b.predicates))
}

/// Whether a time is within the limit; a clock cycle takes two time steps.
pub open spec fn within_limit(time: int, limit: Option<i64>) -> bool {
    time * 2 <= match limit {
        Some(max) => max as int,
        None => i64::MAX as int,
    }
}

/// What a clock cycle is processed with, once the reader has read it.
pub open spec fn input_after(reader: ReaderModel, mode: GraphProcessingType) -> CycleInput {
    CycleInput {
        time: reader.collector.current_time - 1,
        reset: reader.collector.reset_val,
        probes: reader.collector.probe_values,
        mode,
    }
}

/// A run after one more clock cycle, which the reader has read.
pub open spec fn run_cycle(
    graph: Seq<StaticModel>,
    cfg: Seq<CFGSpecNode>,
    run: RunModel,
    changes: Seq<ChangeModel>,
    mode: GraphProcessingType,
    criterion: CriterionType,
) -> RunModel {
    let reader = after_cycle(run.reader);
    let preds = PredicatesModel { values: apply_changes(run.preds.values, changes), ..run.preds };
    RunModel {
        reader,
        preds,
        trace: cycle(
            graph,
            run.trace,
            activated(cfg, preds),
            input_after(reader, mode),
            criterion,
        ),
    }
}

/// Processes the trace cycle by cycle until it ends, cannot be read or reaches the limit.
pub open spec fn run_trace(
    graph: Seq<StaticModel>,
    cfg: Seq<CFGSpecNode>,
    run: RunModel,
    limit: Option<i64>,
    mode: GraphProcessingType,
    criterion: CriterionType,
) -> RunEnd
    decreases run.reader.pending.len(),
{
    if !within_limit(run.reader.collector.current_time, limit) {
        RunEnd { run, error: None }
    } else {
        match read_cycle(fresh_cycle(run.reader.collector), run.reader.pending).outcome {
            Err(message) => RunEnd {
                run: RunModel { reader: after_cycle(run.reader), ..run },
                error: Some(message),
            },
            Ok((changes, eof)) => {
                let next = run_cycle(graph, cfg, run, changes, mode, criterion);
                if eof {
                    RunEnd { run: next, error: None }
                } else {
                    proof {
                        a_cycle_uses_up_commands(
                            fresh_cycle(run.reader.collector),
                            run.reader.pending,
                        );
                    }
                    run_trace(graph, cfg, next, limit, mode, criterion)
                }
            },
        }
    }
}

/// The run that processing starts with, once the predicates are registered.
pub open spec fn first_run(b: BuilderModel) -> RunModel {
    RunModel {
        reader: b.reader,
        preds: registration(b).0,
        trace: restarted(b.trace),
    }
}

/// The part of a builder that changes from clock cycle to clock cycle.
pub open spec fn run_of(b: BuilderModel) -> RunModel {
    RunModel { reader: b.reader, preds: b.preds, trace: b.trace }
}

/// Where all signals are declared, each predicate is registered once more.
pub proof fn registering_adds_predicates(
    reader: ReaderModel,
    preds: PredicatesModel,
    names: Seq<Seq<char>>,
)
    ensures
        registered(reader, preds, names).1 is None ==> registered(reader, preds, names).0.ids.len()
            == preds.ids.len() + names.len(),
    decreases names.len(),
{
    if names.len() > 0 {
        match lookup_var(reader.header, full_path(reader.scopes, names[0])) {
            Some(code) => registering_adds_predicates(
                reader,
                with_predicate(preds, code),
                names.drop_first(),
            ),
            None => {},
        }
    }
}

/// Whether the time of the trace stays within bounds.
pub open spec fn time_fits(reader: ReaderModel) -> bool {
    &&& 0 <= reader.collector.current_time
    &&& 2 * (reader.collector.current_time + reader.pending.len() + 1) <= i64::MAX
}

impl View for GraphBuilder {
    type V = BuilderModel;

    closed spec fn view(&self) -> BuilderModel {
        BuilderModel {
            reader: self.reader@,
            predicates: self.predicates@,
            cfg: self.cfg@,
            graph: static_models(self.linked_nodes@),
            preds: self.pred_values@,
            trace: self.trace@,
        }
    }
}

/// Whether the graph of a builder is in order: every node is an execution of a statement of the
/// static graph with dependencies in order, and the node that is known for a signal assigns to it.
pub open spec fn builder_ok(b: BuilderModel) -> bool {
    &&& graph_ok(b.graph)
    &&& b.reader.collector.current_time >= 0
    &&& trace_ok(b.graph, b.trace, b.reader.collector.current_time - 1)
}

/// The edges of a static graph lead to its statements.
pub proof fn static_graph_ok(vertices: Seq<PDGSpecNode>, edges: Seq<PDGSpecEdge>)
    requires
        edges_join(edges, vertices.len()),
    ensures
        graph_ok(static_graph(vertices, edges)),
{
    let graph = static_graph(vertices, edges);
    assert forall|i: int, k: int|
        0 <= i < graph.len() && 0 <= k < graph[i].dependencies.len() implies (
    #[trigger] graph[i].dependencies[k]).to < graph.len() by {
        let p = |e: PDGSpecEdge| e.from == i;
        filter_origin(edges, p);
        let e = edges_from(edges, i)[k];
        assert(e == edges.filter(p)[k]);
        let j = choose|j: int| 0 <= j < edges.len() && edges[j] == e;
        assert(edges[j].from < vertices.len());
    }
}

impl GraphBuilder {
    /// The parts are in order, and so is the graph.
    pub closed spec fn wf(self) -> bool {
        self.parts_ok() && builder_ok(self@)
    }

    /// The parts are in order.
    closed spec fn parts_ok(self) -> bool {
        &&& self.reader.wf()
        &&& self.pred_values.wf()
        &&& self.trace.wf()
        &&& graph_ok(static_models(self.linked_nodes@))
    }

    /// Creates a builder from the bytes of a value change dump and a static dependence graph.
    pub fn new(
        vcd: Vec<u8>,
        extra_scopes: Vec<String>,
        pdg: PDGSpec,
        language_mode: LanguageMode,
    ) -> (r: Result<GraphBuilder, Error>)
        requires
            pdg.vertices@.len() <= 0x1_0000_0000,
            edges_join(pdg.edges@, pdg.vertices@.len()),
        ensures
            match vcd_header(vcd@) {
                Err(message) => r matches Err(Error::TraceError(text)) && text@ == message,
                Ok(header) => match initial_reader(
                    header,
                    vcd_body(vcd@),
                    texts(extra_scopes@),
                    language_mode,
                ) {
                    None => r matches Err(Error::ClockNotFoundError),
                    Some(reader) => {
                        &&& r matches Ok(builder)
                        &&& builder.wf()
                        &&& builder_ok(builder@)
                        &&& builder@ == initial_builder(reader, pdg)
                        &&& reader.pending.len() <= vcd@.len()
                    },
                },
            },
    {
        let reader: VcdReader = match VcdReader::new(vcd, extra_scopes, language_mode) {
            Ok(reader) => reader,
            Err(error) => {
                return Err(error);
            },
        };
        let PDGSpec { vertices, edges, predicates, cfg } = pdg;
        proof {
            static_graph_ok(vertices@, edges@);
        }
        let linked_nodes: Vec<PDGNode> = link(vertices, edges);
        assert(static_models(linked_nodes@) =~= static_graph(vertices@, edges@)) by {
            assert forall|i: int| 0 <= i < linked_nodes@.len() implies static_models(
                linked_nodes@,
            )[i] == static_graph(vertices@, edges@)[i] by {
                assert(*linked_nodes@[i].inner == vertices@[i]);
            }
        }
        Ok(
            GraphBuilder {
                reader,
                predicates,
                cfg,
                linked_nodes,
                pred_values: Predicates::new(),
                trace: DynamicTrace::new(),
            },
        )
    }

    /// All nodes of the dynamic graph; dependencies refer to them by their place.
    pub fn nodes(&self) -> (r: &Vec<DynPDGNode>)
        ensures
            dyn_models(r@) == self@.trace.nodes,
    {
        self.trace.nodes()
    }

    /// Looks up the signals of the predicates; their values are unknown at first.
    fn init_predicates(&mut self) -> (r: Result<(), Error>)
        requires
            old(self).parts_ok(),
        ensures
            final(self).parts_ok(),
            final(self)@ == (BuilderModel {
                preds: registration(old(self)@).0,
                ..old(self)@
            }),
            match registration(old(self)@).1 {
                None => r is Ok,
                Some(path) => r matches Err(Error::VariableNotFoundError(text)) && text@ == path,
            },
    {
        let ghost start = self@;
        let ghost names = predicate_names(start.predicates);
        let mut i: usize = 0;
        assert(names.skip(0) =~= names);
        while i < self.predicates.len()
            invariant
                i <= self.predicates.len(),
                self.parts_ok(),
                start == old(self)@,
                names == predicate_names(start.predicates),
                self.predicates@ == start.predicates,
                names.len() == self.predicates.len(),
                self@ == (BuilderModel { preds: self@.preds, ..start }),
                registered(start.reader, start.preds, names) == registered(
                    start.reader,
                    self@.preds,
                    names.skip(i as int),
                ),
            decreases self.predicates.len() - i,
        {
            let ghost now = self@;
            assert(names[i as int] == self.predicates@[i as int].name@);
            assert(names.skip(i as int)[0] == names[i as int]);
            assert(names.skip(i as int).drop_first() =~= names.skip(i + 1));
            match self.reader.find_var(self.predicates[i].name.as_str()) {
                Ok(code) => {
                    self.pred_values.register(code);
                },
                Err(error) => {
                    return Err(error);
                },
            }
            assert(self@ =~= BuilderModel { preds: self@.preds, ..start });
            i = i + 1;
        }
        assert(names.skip(i as int) =~= Seq::empty());
        Ok(())
    }

    /// Takes in the changes of a clock cycle and tells which statements it executes.
    fn get_activated_statements(&mut self, changes: &Vec<ValueChange>) -> (r: Vec<u32>)
        requires
            old(self).parts_ok(),
            refs_ok(old(self)@.cfg, old(self)@.graph.len(), old(self)@.preds.ids.len()),
        ensures
            final(self).parts_ok(),
            final(self)@ == (BuilderModel {
                preds: PredicatesModel {
                    values: apply_changes(old(self)@.preds.values, change_models(changes@)),
                    ..old(self)@.preds
                },
                ..old(self)@
            }),
            r@ == activated(final(self)@.cfg, final(self)@.preds),
    {
        let ghost count = self@.graph.len();
        self.pred_values.update(changes);
        assert(refs_ok(self.cfg@, count, self.pred_values@.ids.len()));
        self.pred_values.activated_statements(&self.cfg)
    }

    /// Processes the trace and builds the dynamic graph up to a criterion.
    ///
    /// The trace is read clock cycle by clock cycle. Control flow selects the statements that a
    /// cycle executes, and their dependencies are resolved to nodes of the graph. Returns the place
    /// of the node that matches the criterion. A builder that has processed part of a trace goes on
    /// where it stopped, and keeps the graph that it has.
    pub fn process(
        &mut self,
        criterion: &CriterionType,
        max_timesteps: Option<i64>,
        processing_type: GraphProcessingType,
    ) -> (r: Result<usize, Error>)
        requires
            old(self).wf(),
            time_fits(old(self)@.reader),
            refs_ok(old(self)@.cfg, old(self)@.graph.len(), old(self)@.predicates.len()),
        ensures
            final(self).wf(),
            builder_ok(final(self)@),
            mode_ok(
                final(self)@.trace.nodes,
                old(self)@.trace.nodes.len() as int,
                processing_type,
            ),
            r matches Ok(n) ==> is_asked_for(final(self)@.trace.nodes, n, *criterion),
            match registration(old(self)@).1 {
                Some(path) => {
                    &&& r matches Err(Error::VariableNotFoundError(text))
                    &&& text@ == path
                    &&& final(self)@ == (BuilderModel {
                        preds: registration(old(self)@).0,
                        ..old(self)@
                    })
                },
                None => {
                    let end = run_trace(
                        old(self)@.graph,
                        old(self)@.cfg,
                        first_run(old(self)@),
                        max_timesteps,
                        processing_type,
                        *criterion,
                    );
                    &&& final(self)@ == (BuilderModel {
                        reader: end.run.reader,
                        preds: end.run.preds,
                        trace: end.run.trace,
                        ..old(self)@
                    })
                    &&& match end.error {
                        Some(message) => r matches Err(Error::TraceError(text)) && text@ == message,
                        None => match selection(end.run.trace, *criterion) {
                            Some(node) => r == Ok::<usize, Error>(node),
                            None => r matches Err(Error::StatementLookupError(text)) && text@
                                == "Criterion not found in DPDG"@,
                        },
                    }
                },
            },
    {
        let ghost start = self@;
        let r: Result<usize, Error> = self.process_cycles(
            criterion,
            max_timesteps,
            processing_type,
        );
        proof {
            if registration(start).1 is None {
                let first = first_run(start);
                registering_adds_predicates(
                    start.reader,
                    start.preds,
                    predicate_names(start.predicates),
                );
                refs_stay_ok(
                    start.cfg,
                    start.graph.len(),
                    start.predicates.len(),
                    first.preds.ids.len(),
                );
                self.trace.nodes_can_be_counted();
                assert(run_ok(start.graph, start.cfg, first));
                a_run_stays_in_order(
                    start.graph,
                    start.cfg,
                    first,
                    max_timesteps,
                    processing_type,
                    *criterion,
                );
                the_criterion_is_met(
                    start.graph,
                    self@.trace,
                    self@.reader.collector.current_time - 1,
                    *criterion,
                );
            }
        }
        r
    }

    /// Processes the trace clock cycle by clock cycle.
    fn process_cycles(
        &mut self,
        criterion: &CriterionType,
        max_timesteps: Option<i64>,
        processing_type: GraphProcessingType,
    ) -> (r: Result<usize, Error>)
        requires
            old(self).parts_ok(),
            time_fits(old(self)@.reader),
            refs_ok(old(self)@.cfg, old(self)@.graph.len(), old(self)@.predicates.len()),
        ensures
            final(self).parts_ok(),
            match registration(old(self)@).1 {
                Some(path) => {
                    &&& r matches Err(Error::VariableNotFoundError(text))
                    &&& text@ == path
                    &&& final(self)@ == (BuilderModel {
                        preds: registration(old(self)@).0,
                        ..old(self)@
                    })
                },
                None => {
                    let end = run_trace(
                        old(self)@.graph,
                        old(self)@.cfg,
                        first_run(old(self)@),
                        max_timesteps,
                        processing_type,
                        *criterion,
                    );
                    &&& final(self)@ == (BuilderModel {
                        reader: end.run.reader,
                        preds: end.run.preds,
                        trace: end.run.trace,
                        ..old(self)@
                    })
                    &&& match end.error {
                        Some(message) => r matches Err(Error::TraceError(text)) && text@ == message,
                        None => match selection(end.run.trace, *criterion) {
                            Some(node) => r == Ok::<usize, Error>(node),
                            None => r matches Err(Error::StatementLookupError(text)) && text@
                                == "Criterion not found in DPDG"@,
                        },
                    }
                },
            },
    {
        let ghost start = self@;
        match self.init_predicates() {
            Ok(()) => {},
            Err(error) => {
                return Err(error);
            },
        }
        self.trace.restart();
        let limit: i64 = match max_timesteps {
            Some(max) => max,
            None => i64::MAX,
        };
        let ghost graph = start.graph;
        let ghost cfg = start.cfg;
        let ghost goal = run_trace(
            graph,
            cfg,
            first_run(start),
            max_timesteps,
            processing_type,
            *criterion,
        );
        proof {
            registering_adds_predicates(
                start.reader,
                start.preds,
                predicate_names(start.predicates),
            );
            refs_stay_ok(cfg, graph.len(), start.predicates.len(), self@.preds.ids.len());
        }
        let mut eof_reached: bool = false;
        while !eof_reached && self.reader.collector().current_time() * 2 <= limit
            invariant
                self.parts_ok(),
                start == old(self)@,
                graph == start.graph,
                cfg == start.cfg,
                goal == run_trace(
                    graph,
                    cfg,
                    first_run(start),
                    max_timesteps,
                    processing_type,
                    *criterion,
                ),
                registration(start).1 is None,
                limit == (match max_timesteps {
                    Some(max) => max,
                    None => i64::MAX,
                }),
                refs_ok(cfg, graph.len(), self@.preds.ids.len()),
                self@ == (BuilderModel {
                    reader: self@.reader,
                    preds: self@.preds,
                    trace: self@.trace,
                    ..start
                }),
                0 <= self@.reader.collector.current_time,
                2 * self@.reader.collector.current_time <= i64::MAX,
                !eof_reached ==> {
                    &&& time_fits(self@.reader)
                    &&& delayed_ok(graph, self@.trace)
                    &&& goal == run_trace(
                        graph,
                        cfg,
                        run_of(self@),
                        max_timesteps,
                        processing_type,
                        *criterion,
                    )
                },
                eof_reached ==> goal == (RunEnd { run: run_of(self@), error: None }),
            decreases
                    self@.reader.pending.len(),
                    if eof_reached {
                        0int
                    } else {
                        1
                    },
        {
            let ghost before = self@;
            proof {
                a_cycle_takes_one_step(
                    fresh_cycle(before.reader.collector),
                    before.reader.pending,
                );
                a_cycle_uses_up_commands(
                    fresh_cycle(before.reader.collector),
                    before.reader.pending,
                );
            }
            let (changes, eof) = match self.reader.read_cycle_changes() {
                Ok(cycle_read) => cycle_read,
                Err(error) => {
                    assert(self@ =~= BuilderModel {
                        reader: goal.run.reader,
                        preds: goal.run.preds,
                        trace: goal.run.trace,
                        ..start
                    });
                    return Err(error);
                },
            };
            eof_reached = eof;
            let activated_statements: Vec<u32> = self.get_activated_statements(&changes);
            proof {
                activated_statements_exist(cfg, self@.preds, graph.len());
                assert(stmts_ok(graph, activated_statements@));
            }
            let inputs = CycleInputs {
                graph: &self.linked_nodes,
                time: self.reader.collector().current_time() - 1,
                reset: self.reader.collector().reset_val(),
                probes: self.reader.collector().probe_values(),
                mode: processing_type,
            };
            self.trace.process_cycle(&inputs, &activated_statements, criterion);
        }
        assert(goal == (RunEnd { run: run_of(self@), error: None }));
        match self.trace.selected(criterion) {
            Some(node) => Ok(node),
            None => Err(Error::StatementLookupError("Criterion not found in DPDG".to_string())),
        }
    }
}

} // verus!
