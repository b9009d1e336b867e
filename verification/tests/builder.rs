use sigtrail::activation::Predicates;
use sigtrail::app_state::{AppState, Options};
use sigtrail::dynamic_graph::{CriterionType, DynPDGNode, GraphProcessingType};
use sigtrail::errors::Error;
use sigtrail::graph_building::build_dpdg;
use sigtrail::graphbuilder::GraphBuilder;
use sigtrail::pdg_spec::{
    CFGSpecBranch, CFGSpecNode, PDGSpec, PDGSpecCondition, PDGSpecEdge, PDGSpecEdgeKind,
    PDGSpecNode, PDGSpecNodeKind, PDGSpecPredicate,
};
use sigtrail::simulation::{SimulationValue, ValueChange};
use sigtrail::static_graph::link;
use sigtrail::validation::check_pdg;
use sigtrail::vcd_input::Value;
use sigtrail::vcd_reader::LanguageMode;

const HEADER: &str = "$scope module TOP $end
$var wire 1 ! clock $end
$var wire 1 \" reset $end
$var wire 1 # en $end
$var wire 2 $ probe_sel $end
$var wire 2 % state $end
$upscope $end
$enddefinitions $end
0!
0\"
";

fn trace(body: &str) -> Vec<u8> {
    let mut text = HEADER.to_string();
    text.push_str(body);
    text.into_bytes()
}

fn top() -> Vec<String> {
    vec!["TOP".to_string()]
}

fn stmt(name: &str, kind: PDGSpecNodeKind, clocked: bool, signal: Option<&str>) -> PDGSpecNode {
    PDGSpecNode {
        file: "design.scala".to_string(),
        line: 1,
        char: 2,
        name: name.to_string(),
        kind,
        clocked,
        instance_path: vec![],
        related_signal: None,
        is_chisel_assignment: false,
        assigns_to: signal.map(|s| s.to_string()),
        assign_delay: 0,
        condition: None,
    }
}

fn edge(from: u32, to: u32, kind: PDGSpecEdgeKind) -> PDGSpecEdge {
    PDGSpecEdge { from, to, kind, clocked: false, condition: None }
}

fn cfg(stmt_ref: u32) -> CFGSpecNode {
    CFGSpecNode {
        stmt_ref,
        pred_stmt_ref: None,
        true_branch: None,
        false_branch: None,
        branches: None,
        default_branch: None,
    }
}

fn predicate(name: &str) -> PDGSpecPredicate {
    PDGSpecPredicate { name: name.to_string(), file: "design.scala".to_string(), line: 7 }
}

/// A register that takes the value of a wire where `en` is high; the wire follows the register.
fn counter() -> PDGSpec {
    PDGSpec {
        vertices: vec![
            stmt("def r", PDGSpecNodeKind::DataDefinition, true, Some("r")),
            stmt("conn w", PDGSpecNodeKind::Connection, false, Some("w")),
            stmt("update r", PDGSpecNodeKind::Connection, true, Some("r")),
            stmt("when", PDGSpecNodeKind::ControlFlow, false, None),
        ],
        edges: vec![
            edge(1, 0, PDGSpecEdgeKind::Declaration),
            edge(1, 0, PDGSpecEdgeKind::Data),
            edge(2, 1, PDGSpecEdgeKind::Data),
            edge(2, 3, PDGSpecEdgeKind::Conditional),
        ],
        predicates: vec![predicate("en")],
        cfg: vec![
            cfg(0),
            cfg(1),
            CFGSpecNode {
                pred_stmt_ref: Some(0),
                true_branch: Some(vec![cfg(2)]),
                ..cfg(3)
            },
        ],
    }
}

const COUNTING: &str = "0#\n#0\n#5\n1!\n1#\n#10\n0!\n#15\n1!\n#20\n0!\n#25\n";

fn builder(body: &str, pdg: PDGSpec) -> GraphBuilder {
    match GraphBuilder::new(trace(body), top(), pdg, LanguageMode::Chisel) {
        Ok(builder) => builder,
        Err(error) => panic!("{:?}", error),
    }
}

fn summary(nodes: &Vec<DynPDGNode>) -> Vec<(String, i64, Vec<(usize, PDGSpecEdgeKind)>)> {
    nodes
        .iter()
        .map(|n| (n.inner.name.clone(), n.timestamp, n.dependencies.clone()))
        .collect()
}

fn row(
    name: &str,
    time: i64,
    links: Vec<(usize, PDGSpecEdgeKind)>,
) -> (String, i64, Vec<(usize, PDGSpecEdgeKind)>) {
    (name.to_string(), time, links)
}

use PDGSpecEdgeKind::{Conditional, Data, Declaration, Index};

#[test]
fn a_register_feeds_the_wire_of_the_next_cycle() {
    let mut builder = builder(COUNTING, counter());
    let criterion = CriterionType::Signal("r".to_string());
    let node = builder.process(&criterion, None, GraphProcessingType::Normal);
    assert_eq!(node, Ok(10));
    assert_eq!(
        summary(builder.nodes()),
        vec![
            row("def r", -1, vec![]),
            row("conn w", -1, vec![(0, Data)]),
            row("when", -1, vec![]),
            row("def r", 1, vec![]),
            row("conn w", 0, vec![(0, Data)]),
            row("when", 0, vec![]),
            row("update r", 1, vec![(4, Data), (5, Conditional)]),
            row("def r", 2, vec![]),
            row("conn w", 1, vec![(6, Data)]),
            row("when", 1, vec![]),
            row("update r", 2, vec![(8, Data), (9, Conditional)]),
        ]
    );
}

#[test]
fn a_statement_is_found_where_it_executed_last() {
    let mut builder = builder(COUNTING, counter());
    let criterion = CriterionType::Statement("conn w".to_string());
    let node = builder.process(&criterion, None, GraphProcessingType::Normal);
    assert_eq!(node, Ok(8));
    assert_eq!(builder.nodes()[8].inner.name, "conn w");
}

#[test]
fn data_only_graphs_hold_data_dependencies_only() {
    let mut builder = builder(COUNTING, counter());
    let criterion = CriterionType::Signal("r".to_string());
    let node = builder.process(&criterion, None, GraphProcessingType::DataOnly);
    assert_eq!(node, Ok(10));
    for node in builder.nodes() {
        for link in &node.dependencies {
            assert_eq!(link.1, Data);
        }
    }
    assert_eq!(builder.nodes()[10].dependencies, vec![(8, Data)]);
}

#[test]
fn full_graphs_hold_declarations() {
    let mut builder = builder(COUNTING, counter());
    let criterion = CriterionType::Signal("w".to_string());
    let node = builder.process(&criterion, Some(0), GraphProcessingType::Full);
    assert_eq!(node, Ok(1));
    assert_eq!(
        summary(builder.nodes()),
        vec![
            row("def r", -1, vec![]),
            row("conn w", -1, vec![(3, Declaration), (0, Data)]),
            row("when", -1, vec![]),
            row("def r", -1, vec![]),
        ]
    );
}

#[test]
fn a_limit_stops_the_trace() {
    let criterion = CriterionType::Signal("r".to_string());
    let mut short = builder(COUNTING, counter());
    assert_eq!(short.process(&criterion, Some(1), GraphProcessingType::Normal), Ok(0));
    assert_eq!(short.nodes().len(), 3);
    let mut longer = builder(COUNTING, counter());
    assert_eq!(longer.process(&criterion, Some(2), GraphProcessingType::Normal), Ok(6));
    assert_eq!(longer.nodes().len(), 7);
    let mut none = builder(COUNTING, counter());
    assert_eq!(
        none.process(&criterion, Some(-1), GraphProcessingType::Normal),
        Err(Error::StatementLookupError("Criterion not found in DPDG".to_string()))
    );
}

#[test]
fn a_register_is_defined_again_during_reset() {
    let body = "1\"\n0#\n#0\n#5\n1!\n1#\n#10\n0!\n#15\n1!\n#20\n0!\n#25\n";
    let mut builder = builder(body, counter());
    let criterion = CriterionType::Signal("r".to_string());
    assert_eq!(builder.process(&criterion, Some(2), GraphProcessingType::Normal), Ok(6));
    let nodes = summary(builder.nodes());
    assert_eq!(nodes[3], row("def r", 0, vec![]));
    assert_eq!(nodes[4], row("conn w", 0, vec![(3, Data)]));
}

#[test]
fn processing_again_goes_on_where_it_ended() {
    let mut builder = builder(COUNTING, counter());
    let criterion = CriterionType::Signal("r".to_string());
    assert_eq!(builder.process(&criterion, Some(0), GraphProcessingType::Normal), Ok(0));
    let before = summary(builder.nodes());
    assert_eq!(builder.process(&criterion, Some(2), GraphProcessingType::Normal), Ok(6));
    assert_eq!(summary(builder.nodes())[..3], before[..]);
}

#[test]
fn what_is_not_there_is_an_error() {
    let mut found = builder(COUNTING, counter());
    assert_eq!(
        found.process(
            &CriterionType::Statement("no such statement".to_string()),
            None,
            GraphProcessingType::Normal
        ),
        Err(Error::StatementLookupError("Criterion not found in DPDG".to_string()))
    );
    let mut pdg = counter();
    pdg.predicates = vec![predicate("part.nothing")];
    let mut lost = builder(COUNTING, pdg);
    assert_eq!(
        lost.process(&CriterionType::Signal("r".to_string()), None, GraphProcessingType::Normal),
        Err(Error::VariableNotFoundError("TOP.part.nothing".to_string()))
    );
    let mut broken = builder("#0\n?\n", counter());
    match broken.process(&CriterionType::Signal("r".to_string()), None, GraphProcessingType::Normal)
    {
        Err(Error::TraceError(message)) => assert!(message.contains("unexpected character")),
        other => panic!("{:?}", other),
    }
    match GraphBuilder::new(trace(""), vec![], counter(), LanguageMode::Chisel) {
        Err(error) => assert_eq!(error, Error::ClockNotFoundError),
        Ok(_) => panic!("there is no clock at the top"),
    }
    match GraphBuilder::new(b"?".to_vec(), top(), counter(), LanguageMode::Chisel) {
        Err(Error::TraceError(message)) => assert!(message.contains("line 1")),
        _ => panic!("that is no trace"),
    }
}

#[test]
fn conditions_are_read_from_the_probes() {
    let when = |value: u64| {
        Some(PDGSpecCondition {
            probe_name: vec!["probe_sel".to_string()],
            probe_value: vec![value],
        })
    };
    let mut pdg = counter();
    pdg.vertices = vec![
        stmt("a", PDGSpecNodeKind::Connection, false, Some("a")),
        PDGSpecNode {
            condition: when(2),
            ..stmt("b if 2", PDGSpecNodeKind::Connection, false, Some("b"))
        },
        PDGSpecNode {
            condition: when(3),
            ..stmt("b if 3", PDGSpecNodeKind::Connection, false, Some("b"))
        },
        stmt("c", PDGSpecNodeKind::Connection, false, Some("c")),
    ];
    pdg.edges = vec![
        PDGSpecEdge { condition: when(3), ..edge(3, 0, Data) },
        PDGSpecEdge { condition: when(2), ..edge(3, 1, Data) },
        edge(3, 2, Data),
        edge(3, 0, Index),
    ];
    pdg.predicates = vec![];
    pdg.cfg = vec![cfg(0), cfg(1), cfg(2), cfg(3)];
    let mut builder = builder("b10 $\n#0\n#1\n1!\n#2\n", pdg);
    let criterion = CriterionType::Statement("c".to_string());
    assert_eq!(builder.process(&criterion, Some(0), GraphProcessingType::Normal), Ok(3));
    assert_eq!(builder.nodes()[3].dependencies, vec![(1, Data), (0, Index)]);
}

#[test]
fn delayed_statements_take_effect_later() {
    let mut pdg = counter();
    pdg.vertices = vec![
        stmt("addr", PDGSpecNodeKind::Connection, true, Some("addr")),
        PDGSpecNode {
            assign_delay: 1,
            ..stmt("read", PDGSpecNodeKind::Connection, false, Some("data"))
        },
        stmt("use", PDGSpecNodeKind::Connection, false, Some("use")),
    ];
    pdg.edges = vec![edge(1, 0, Index), edge(2, 1, Data)];
    pdg.predicates = vec![];
    pdg.cfg = vec![cfg(0), cfg(1), cfg(2)];
    let mut builder = builder("#0\n#1\n1!\n#2\n0!\n#3\n1!\n#4\n0!\n#5\n1!\n#6\n", pdg);
    let criterion = CriterionType::Signal("use".to_string());
    assert!(builder.process(&criterion, Some(4), GraphProcessingType::Normal).is_ok());
    assert_eq!(
        summary(builder.nodes()),
        vec![
            row("addr", 0, vec![]),
            row("use", -1, vec![]),
            row("addr", 1, vec![]),
            row("use", 0, vec![(4, Data)]),
            row("read", 0, vec![]),
            row("addr", 2, vec![]),
            row("use", 1, vec![(7, Data)]),
            row("read", 1, vec![(0, Index)]),
        ]
    );
}

#[test]
fn dependencies_never_lead_to_later_nodes() {
    let mut builder = builder(COUNTING, counter());
    let criterion = CriterionType::Signal("r".to_string());
    assert!(builder.process(&criterion, None, GraphProcessingType::Full).is_ok());
    let nodes = builder.nodes();
    for node in nodes {
        for link in &node.dependencies {
            assert!(link.0 < nodes.len());
            assert!(nodes[link.0].timestamp <= node.timestamp);
        }
    }
}

fn change(id: &str, value: SimulationValue) -> ValueChange {
    ValueChange { id: id.to_string(), value }
}

fn branch(values: Vec<&str>, stmts: Vec<CFGSpecNode>) -> CFGSpecBranch {
    CFGSpecBranch { match_values: values.iter().map(|v| v.to_string()).collect(), stmts }
}

#[test]
fn only_a_definite_high_takes_the_true_branch() {
    let nodes = vec![
        CFGSpecNode {
            pred_stmt_ref: Some(0),
            true_branch: Some(vec![cfg(1), cfg(2)]),
            false_branch: Some(vec![cfg(3)]),
            ..cfg(0)
        },
        cfg(4),
    ];
    let mut preds = Predicates::new();
    preds.register("p".to_string());
    assert_eq!(preds.activated_statements(&nodes), vec![0, 3, 4]);
    preds.update(&vec![change("p", SimulationValue::Scalar(Value::V1))]);
    assert_eq!(preds.activated_statements(&nodes), vec![0, 1, 2, 4]);
    preds.update(&vec![change("other", SimulationValue::Scalar(Value::V0))]);
    assert_eq!(preds.activated_statements(&nodes), vec![0, 1, 2, 4]);
    preds.update(&vec![change("p", SimulationValue::Vector(vec![Value::V1]))]);
    assert_eq!(preds.activated_statements(&nodes), vec![0, 3, 4]);
}

#[test]
fn branches_are_taken_by_printed_value() {
    let nodes = vec![CFGSpecNode {
        pred_stmt_ref: Some(0),
        branches: Some(vec![
            branch(vec!["00", "01"], vec![cfg(1)]),
            branch(vec!["01"], vec![cfg(2), cfg(3)]),
        ]),
        default_branch: Some(vec![cfg(4)]),
        false_branch: Some(vec![cfg(5)]),
        ..cfg(0)
    }];
    let mut preds = Predicates::new();
    preds.register("s".to_string());
    assert_eq!(preds.activated_statements(&nodes), vec![0, 4, 5]);
    preds.update(&vec![change("s", SimulationValue::Vector(vec![Value::V0, Value::V1]))]);
    assert_eq!(preds.activated_statements(&nodes), vec![0, 2, 3, 1, 5]);
    preds.update(&vec![change("s", SimulationValue::Vector(vec![Value::V0, Value::V0]))]);
    assert_eq!(preds.activated_statements(&nodes), vec![0, 1, 5]);
    preds.update(&vec![change("s", SimulationValue::Vector(vec![Value::V1, Value::V1]))]);
    assert_eq!(preds.activated_statements(&nodes), vec![0, 4, 5]);
}

#[test]
fn adjacency_lists_agree_in_both_directions() {
    let pdg = counter();
    let linked = link(pdg.vertices, pdg.edges);
    assert_eq!(linked.len(), 4);
    assert_eq!(linked[1].dependencies.len(), 2);
    assert_eq!(linked[0].provides.len(), 2);
    assert_eq!(linked[0].provides[1], linked[1].dependencies[1]);
    assert_eq!(linked[2].dependencies[0].to, 1);
    assert_eq!(linked[1].provides[0].from, 2);
    assert_eq!(linked[3].provides[0].kind, Conditional);
}

#[test]
fn edges_between_unknown_statements_are_left_out() {
    let pdg = counter();
    let mut edges = pdg.edges;
    edges.push(edge(9, 8, Data));
    let linked = link(pdg.vertices, edges);
    let count: usize = linked.iter().map(|n| n.dependencies.len()).sum();
    assert_eq!(count, 4);
}

fn options() -> Options {
    Options {
        slice_criterion: CriterionType::Signal("r".to_string()),
        pdg_path: "pdg.json".to_string(),
        vcd_path: "trace.vcd".to_string(),
        hgldd_path: "hgldd".to_string(),
        top_module: "Counter".to_string(),
        extra_scopes: None,
        max_timesteps: None,
        data_only: None,
        hier_grouping: None,
        language: LanguageMode::Chisel,
    }
}

#[test]
fn scopes_have_defaults_for_each_language() {
    let state = AppState::configured(options());
    assert!(state.graph.is_none());
    let config = state.pdg_config.unwrap();
    assert_eq!(config.extra_scopes, vec!["TOP", "svsimTestbench", "dut"]);
    assert_eq!(config.data_only, false);
    assert_eq!(config.group_nodes, false);
    let fir = AppState::configured(Options { language: LanguageMode::FIR, ..options() });
    assert_eq!(fir.pdg_config.unwrap().extra_scopes, vec!["TOP", "svsimTestbench", "dut"]);
    let spinal = AppState::configured(Options {
        language: LanguageMode::SpinalHDL,
        data_only: Some(true),
        hier_grouping: Some(true),
        ..options()
    });
    let config = spinal.pdg_config.unwrap();
    assert_eq!(config.extra_scopes, vec!["TOP", "Counter"]);
    assert_eq!(config.data_only, true);
    assert_eq!(config.group_nodes, true);
    let given = AppState::configured(Options { extra_scopes: Some(vec![]), ..options() });
    assert_eq!(given.pdg_config.unwrap().extra_scopes, Vec::<String>::new());
}

#[test]
fn a_configuration_builds_its_graph() {
    let state = AppState::configured(Options { extra_scopes: Some(top()), ..options() });
    let config = state.pdg_config.unwrap();
    let copy = config.clone();
    assert_eq!(copy.extra_scopes, config.extra_scopes);
    match build_dpdg(&config, trace(COUNTING), counter()) {
        Ok((builder, place)) => {
            assert_eq!(place, 10);
            assert_eq!(builder.nodes()[10].dependencies, vec![(8, Data), (9, Conditional)]);
        }
        Err(error) => panic!("{:?}", error),
    }
    let limited = AppState::configured(Options {
        extra_scopes: Some(top()),
        max_timesteps: Some(2),
        data_only: Some(true),
        ..options()
    });
    match build_dpdg(&limited.pdg_config.unwrap(), trace(COUNTING), counter()) {
        Ok((builder, place)) => {
            assert_eq!(place, 6);
            assert_eq!(builder.nodes()[6].dependencies, vec![(4, Data)]);
        }
        Err(error) => panic!("{:?}", error),
    }
    match build_dpdg(&config, b"?".to_vec(), counter()) {
        Err(Error::TraceError(_)) => {}
        _ => panic!("that is no trace"),
    }
}

#[test]
fn the_last_assignment_in_a_cycle_counts() {
    let mut pdg = counter();
    pdg.vertices = vec![
        stmt("first", PDGSpecNodeKind::Connection, false, Some("s")),
        stmt("second", PDGSpecNodeKind::Connection, false, Some("s")),
        stmt("reader", PDGSpecNodeKind::Connection, false, Some("t")),
    ];
    pdg.edges = vec![edge(2, 0, Data), edge(2, 1, Data)];
    pdg.predicates = vec![];
    pdg.cfg = vec![cfg(2), cfg(0), cfg(1)];
    let mut builder = builder("#0\n", pdg);
    let criterion = CriterionType::Signal("s".to_string());
    assert_eq!(builder.process(&criterion, None, GraphProcessingType::Normal), Ok(2));
    assert_eq!(builder.nodes()[0].dependencies, vec![(2, Data)]);
}

#[test]
fn statements_alike_in_content_share_their_guard() {
    let mut pdg = counter();
    pdg.vertices.push(stmt("when", PDGSpecNodeKind::ControlFlow, false, None));
    pdg.cfg.insert(2, cfg(4));
    let mut builder = builder(COUNTING, pdg);
    let criterion = CriterionType::Signal("r".to_string());
    assert_eq!(builder.process(&criterion, Some(2), GraphProcessingType::Normal), Ok(8));
    assert_eq!(builder.nodes()[8].dependencies, vec![(5, Data), (7, Conditional)]);
}

#[test]
fn static_graphs_are_checked() {
    assert!(check_pdg(&counter()));
    let mut outside = counter();
    outside.edges.push(edge(9, 8, Data));
    assert!(check_pdg(&outside));
    outside.edges.push(edge(0, 8, Data));
    assert!(!check_pdg(&outside));
    let mut no_statement = counter();
    no_statement.cfg.push(cfg(4));
    assert!(!check_pdg(&no_statement));
    let mut no_predicate = counter();
    no_predicate.predicates = vec![];
    assert!(!check_pdg(&no_predicate));
    let mut deep = counter();
    deep.cfg.push(CFGSpecNode {
        branches: Some(vec![branch(vec![], vec![cfg(7)])]),
        ..cfg(0)
    });
    assert!(!check_pdg(&deep));
}

#[test]
fn the_last_cycle_is_processed_with_what_came_with_the_edge() {
    let mut builder = builder("0#\n#0\n#5\n1!\n1#\n#10\n0!\n", counter());
    let criterion = CriterionType::Signal("r".to_string());
    assert_eq!(builder.process(&criterion, None, GraphProcessingType::Normal), Ok(6));
    assert_eq!(builder.nodes()[6].inner.name, "update r");
}

#[test]
fn register_updates_depend_on_strictly_earlier_nodes() {
    let mut builder = builder(COUNTING, counter());
    let criterion = CriterionType::Signal("r".to_string());
    assert!(builder.process(&criterion, None, GraphProcessingType::Full).is_ok());
    let nodes = builder.nodes();
    for node in nodes.iter().filter(|n| n.inner.name == "update r") {
        for link in node.dependencies.iter().filter(|l| l.1 == Data || l.1 == Index) {
            assert!(nodes[link.0].timestamp < node.timestamp);
        }
    }
}

#[test]
fn definitions_provide_values_at_the_start_and_during_reset_only() {
    let body = "#0\n#1\n1!\n#2\n0!\n1\"\n#3\n1!\n#4\n0!\n0\"\n#5\n1!\n#6\n";
    let mut pdg = counter();
    pdg.predicates = vec![];
    pdg.cfg = vec![cfg(0), cfg(1)];
    let mut builder = builder(body, pdg);
    let criterion = CriterionType::Signal("w".to_string());
    assert!(builder.process(&criterion, Some(4), GraphProcessingType::Normal).is_ok());
    assert_eq!(
        summary(builder.nodes()),
        vec![
            row("def r", -1, vec![]),
            row("conn w", -1, vec![(0, Data)]),
            row("def r", 0, vec![]),
            row("conn w", 0, vec![(2, Data)]),
            row("def r", 2, vec![]),
            row("conn w", 1, vec![(2, Data)]),
        ]
    );
}

#[test]
fn no_signal_is_depended_on_twice_after_a_second_run() {
    let mut pdg = counter();
    pdg.edges.push(edge(1, 2, Data));
    let mut builder = builder(COUNTING, pdg);
    let criterion = CriterionType::Signal("w".to_string());
    assert!(builder.process(&criterion, Some(0), GraphProcessingType::Normal).is_ok());
    assert!(builder.process(&criterion, None, GraphProcessingType::Normal).is_ok());
    for node in builder.nodes().iter().filter(|n| n.inner.name == "conn w") {
        assert_eq!(node.dependencies.len(), 1);
    }
}
