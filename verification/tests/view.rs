use std::collections::HashMap;

use sigtrail::app_state::{get_initial_route, AppState, Options, SourceFiles};
use sigtrail::dynamic_graph::CriterionType;
use sigtrail::errors::Error;
use sigtrail::graph_building::{
    converts_to_source, make_dpdg, read_path, rebuild_hier_graph, source_paths,
};
use sigtrail::groups::{create_hier_pdg_node, get_highest_hier_node};
use sigtrail::hierarchy::{build_node_hierarchy, NodeHierarchy};
use sigtrail::pdg_spec::{
    ExportablePDG, ExportablePDGEdge, ExportablePDGNode, PDGSpecEdgeKind, PDGSpecNodeKind,
    PDGSpecRelatedSignal,
};
use sigtrail::regroup::regroup;
use sigtrail::validation::check_view;
use sigtrail::vcd_reader::LanguageMode;

fn node(name: &str, path: Vec<&str>, timestamp: i64) -> ExportablePDGNode {
    ExportablePDGNode {
        file: "home/me/design.scala".to_string(),
        line: 3,
        char: 4,
        name: name.to_string(),
        kind: PDGSpecNodeKind::Connection,
        clocked: true,
        instance_path: path.iter().map(|p| p.to_string()).collect(),
        related_signal: Some(PDGSpecRelatedSignal {
            signal_path: "s".to_string(),
            field_path: "f".to_string(),
        }),
        sim_data: Some("1".to_string()),
        timestamp,
        is_chisel_assignment: true,
    }
}

fn edge(from: u32, to: u32, kind: PDGSpecEdgeKind) -> ExportablePDGEdge {
    ExportablePDGEdge { from, to, kind, clocked: false }
}

use PDGSpecEdgeKind::{Conditional, Data};

/// Two instances, one inside the other, and a node at the top, at time 0; one node at time 2.
fn graph() -> ExportablePDG {
    ExportablePDG {
        vertices: vec![
            node("top", vec![""], 0),
            node("deep", vec!["a", "b"], 0),
            node("mid", vec!["a"], 0),
            node("deep too", vec!["", "a", "", "b"], 0),
            node("later", vec!["c", "d"], 2),
        ],
        edges: vec![
            edge(1, 2, Data),
            edge(1, 0, Data),
            edge(2, 0, Data),
            edge(3, 0, Conditional),
            edge(4, 1, Data),
        ],
    }
}

fn find(h: &NodeHierarchy, time: i64, path: Vec<&str>) -> usize {
    let path: Vec<String> = path.iter().map(|p| p.to_string()).collect();
    let found: Vec<usize> = (0..h.groups.len())
        .filter(|g| {
            h.groups[*g].pdg_node.timestamp == time && h.groups[*g].pdg_node.instance_path == path
        })
        .collect();
    assert_eq!(found.len(), 1);
    found[0]
}

#[test]
fn a_group_stands_for_each_instance_at_each_time() {
    let h = build_node_hierarchy(&graph());
    assert_eq!(h.roots.len(), 3);
    for time in 0..3 {
        let root = &h.groups[h.roots[time]];
        assert_eq!(root.instance_name, "top");
        assert!(root.expanded);
        assert_eq!(root.parent, None);
        let shown = create_hier_pdg_node("module_top".to_string(), time as i64, vec![]);
        assert_eq!(root.pdg_node, shown);
    }
    let a = find(&h, 0, vec!["a"]);
    let b = find(&h, 0, vec!["a", "b"]);
    let c = find(&h, 2, vec!["c"]);
    let d = find(&h, 2, vec!["c", "d"]);
    assert_eq!(h.groups[a].instance_name, "a");
    assert_eq!(h.groups[a].expanded, false);
    assert_eq!(h.groups[a].parent, Some(h.roots[0]));
    assert_eq!(h.groups[a].pdg_node.name, "module_a");
    assert_eq!(h.groups[b].parent, Some(a));
    assert_eq!(h.groups[d].parent, Some(c));
    assert_eq!(h.groups[h.roots[0]].children.contains(&a), true);
    assert_eq!(h.groups[a].children, vec![b]);
    assert_eq!(h.groups[h.roots[1]].children, Vec::<usize>::new());
    for (g, group) in h.groups.iter().enumerate() {
        assert_eq!(group.group_id, 25 + g);
    }
}

#[test]
fn nodes_belong_to_the_group_that_their_path_leads_to() {
    let h = build_node_hierarchy(&graph());
    let b = find(&h, 0, vec!["a", "b"]);
    let a = find(&h, 0, vec!["a"]);
    let d = find(&h, 2, vec!["c", "d"]);
    assert_eq!(h.groups[b].node_indices, vec![1, 3]);
    assert_eq!(h.groups[a].node_indices, vec![2]);
    assert_eq!(h.groups[h.roots[0]].node_indices, vec![0]);
    assert_eq!(h.groups[d].node_indices, vec![4]);
    let table: Vec<Option<&usize>> = (0..6).map(|v| h.lookup.get(&v)).collect();
    assert_eq!(table, vec![Some(&h.roots[0]), Some(&b), Some(&a), Some(&b), Some(&d), None]);
}

#[test]
fn shorter_paths_get_their_groups_first() {
    let pdg = ExportablePDG {
        vertices: vec![node("x", vec!["p", "q", "r"], 0), node("y", vec!["s"], 0)],
        edges: vec![],
    };
    let h = build_node_hierarchy(&pdg);
    let names: Vec<&str> = h.groups.iter().map(|g| g.instance_name.as_str()).collect();
    assert_eq!(names, vec!["top", "s", "p", "q", "r"]);
}

#[test]
fn nodes_before_time_zero_belong_to_no_group() {
    let pdg = ExportablePDG {
        vertices: vec![node("early", vec!["a"], -1), node("x", vec!["a"], 0)],
        edges: vec![],
    };
    let h = build_node_hierarchy(&pdg);
    assert_eq!(h.roots.len(), 1);
    assert_eq!(h.lookup.get(&0), None);
    assert!(h.lookup.get(&1).is_some());
    let only_early =
        ExportablePDG { vertices: vec![node("early", vec!["a"], -1)], edges: vec![] };
    assert_eq!(build_node_hierarchy(&only_early).groups.len(), 0);
}

#[test]
fn the_outermost_collapsed_group_hides_the_others() {
    let mut h = build_node_hierarchy(&graph());
    let a = find(&h, 0, vec!["a"]);
    let b = find(&h, 0, vec!["a", "b"]);
    assert_eq!(get_highest_hier_node(&h.groups, b).unwrap().name, "module_a");
    h.groups[a].expanded = true;
    assert_eq!(get_highest_hier_node(&h.groups, b).unwrap().name, "module_b");
    h.groups[b].expanded = true;
    assert_eq!(get_highest_hier_node(&h.groups, b), None);
    h.groups[a].expanded = false;
    assert_eq!(get_highest_hier_node(&h.groups, b).unwrap().name, "module_a");
    assert_eq!(get_highest_hier_node(&h.groups, h.roots[0]), None);
}

#[test]
fn collapsed_groups_stand_for_their_nodes() {
    let pdg = graph();
    let h = build_node_hierarchy(&pdg);
    let b = find(&h, 0, vec!["a", "b"]);
    let d = find(&h, 2, vec!["c", "d"]);
    let g = regroup(&h, &pdg);
    let names: Vec<&str> = g.dpdg.vertices.iter().map(|v| v.name.as_str()).collect();
    assert_eq!(names, vec!["module_a", "top", "module_c"]);
    assert_eq!(
        g.dpdg.edges,
        vec![edge(0, 1, Data), edge(0, 1, Conditional), edge(2, 0, Data)]
    );
    assert_eq!(g.original_ids, vec![h.groups[b].group_id, 0, h.groups[d].group_id]);
    let mut groups = HashMap::new();
    groups.insert(0, b);
    groups.insert(2, d);
    assert_eq!(g.group_ids, groups);
    assert_eq!(g.time_to_nodes.get(&0), Some(&vec![0, 1]));
    assert_eq!(g.time_to_nodes.get(&1), None);
    assert_eq!(g.time_to_nodes.get(&2), Some(&vec![2]));
    assert_eq!(g.dep_to_edges.get(&0), Some(&vec![0, 1]));
    assert_eq!(g.dep_to_edges.get(&1), None);
    assert_eq!(g.dep_to_edges.get(&2), Some(&vec![2]));
    assert_eq!(g.prov_to_edges.get(&1), Some(&vec![0, 1]));
    assert_eq!(g.prov_to_edges.get(&0), Some(&vec![2]));
}

#[test]
fn expanded_groups_show_their_nodes() {
    let pdg = graph();
    let mut h = build_node_hierarchy(&pdg);
    for group in h.groups.iter_mut() {
        group.expanded = true;
    }
    let g = regroup(&h, &pdg);
    let names: Vec<&str> = g.dpdg.vertices.iter().map(|v| v.name.as_str()).collect();
    assert_eq!(names, vec!["deep", "mid", "top", "deep too", "later"]);
    assert_eq!(g.original_ids, vec![1, 2, 0, 3, 4]);
    assert_eq!(g.group_ids, HashMap::new());
    assert_eq!(
        g.dpdg.edges,
        vec![
            edge(0, 1, Data),
            edge(0, 2, Data),
            edge(1, 2, Data),
            edge(3, 2, Conditional),
            edge(4, 0, Data)
        ]
    );
}

#[test]
fn equal_nodes_are_shown_once() {
    let pdg = ExportablePDG {
        vertices: vec![node("x", vec![], 0), node("x", vec![], 0), node("y", vec![], 0)],
        edges: vec![edge(0, 1, Data), edge(0, 2, Data), edge(1, 2, Data)],
    };
    let h = build_node_hierarchy(&pdg);
    let g = regroup(&h, &pdg);
    assert_eq!(g.dpdg.vertices.len(), 2);
    assert_eq!(g.dpdg.edges, vec![edge(0, 1, Data)]);
    assert_eq!(g.original_ids, vec![0, 2]);
}

fn options(group: Option<bool>) -> Options {
    Options {
        slice_criterion: CriterionType::Statement("s".to_string()),
        pdg_path: "p".to_string(),
        vcd_path: "v".to_string(),
        hgldd_path: "h".to_string(),
        top_module: "T".to_string(),
        extra_scopes: None,
        max_timesteps: Some(9),
        data_only: None,
        hier_grouping: group,
        language: LanguageMode::Chisel,
    }
}

#[test]
fn a_view_counts_times_from_one() {
    let mut state = AppState::configured(options(None));
    let mut sources = SourceFiles::new();
    sources.insert("a.scala".to_string(), "one\r\ntwo\n\nfour");
    assert_eq!(make_dpdg(&mut state, graph(), sources), Ok(()));
    let view = state.graph.unwrap();
    let times: Vec<i64> = view.dpdg.vertices.iter().map(|v| v.timestamp).collect();
    assert_eq!(times, vec![1, 1, 1, 1, 3]);
    assert_eq!(view.n_timestamps, 3);
    assert_eq!(view.shown_ids, vec![0, 1, 2, 3, 4]);
    assert_eq!(view.time_to_nodes.get(&1), Some(&vec![0, 1, 2, 3]));
    assert_eq!(view.time_to_nodes.get(&3), Some(&vec![4]));
    assert_eq!(view.time_to_nodes.len(), 2);
    assert_eq!(view.dep_to_edges.get(&1), Some(&vec![0, 1]));
    assert_eq!(view.prov_to_edges.get(&0), Some(&vec![1, 2, 3]));
    assert_eq!(view.should_group_nodes, false);
    assert!(view.node_hierarchy.is_none());
    assert!(view.current_hier_dpdg.is_none());
    let lines = vec!["one".to_string(), "two".to_string(), "".to_string(), "four".to_string()];
    assert_eq!(view.source_files.lines(&"a.scala".to_string()), Some(&lines));
    assert_eq!(view.source_files.lines(&"b.scala".to_string()), None);
}

#[test]
fn a_grouped_view_is_rebuilt_when_groups_change() {
    let mut state = AppState::configured(options(Some(true)));
    assert_eq!(make_dpdg(&mut state, graph(), SourceFiles::new()), Ok(()));
    let view = state.graph.as_mut().unwrap();
    assert_eq!(view.should_group_nodes, true);
    assert_eq!(view.current_hier_dpdg.as_ref().unwrap().dpdg.vertices.len(), 3);
    let hierarchy = view.node_hierarchy.as_mut().unwrap();
    assert_eq!(hierarchy.roots.len(), 4);
    let a = find(hierarchy, 1, vec!["a"]);
    hierarchy.groups[a].expanded = true;
    assert_eq!(rebuild_hier_graph(&mut state), Ok(()));
    let view = state.graph.as_ref().unwrap();
    let shown = view.current_hier_dpdg.as_ref().unwrap();
    let names: Vec<&str> = shown.dpdg.vertices.iter().map(|v| v.name.as_str()).collect();
    assert_eq!(names, vec!["module_b", "mid", "top", "module_c"]);
}

#[test]
fn what_has_not_been_made_is_an_error() {
    let mut state = AppState::new();
    assert_eq!(
        make_dpdg(&mut state, graph(), SourceFiles::new()),
        Err(Error::StateError("Tried building PDG before config was known.".to_string()))
    );
    assert_eq!(
        rebuild_hier_graph(&mut state),
        Err(Error::StateError("Uninitialized graph!".to_string()))
    );
    let mut state = AppState::configured(options(Some(false)));
    assert_eq!(make_dpdg(&mut state, graph(), SourceFiles::new()), Ok(()));
    assert_eq!(
        rebuild_hier_graph(&mut state),
        Err(Error::StateError("Uninitialized reverse hierarchy lookup!".to_string()))
    );
}

#[test]
fn an_empty_graph_has_a_view_without_groups() {
    let mut state = AppState::configured(options(None));
    let empty = ExportablePDG { vertices: vec![], edges: vec![] };
    assert_eq!(make_dpdg(&mut state, empty, SourceFiles::new()), Ok(()));
    let view = state.graph.unwrap();
    assert_eq!(view.n_timestamps, 0);
    assert_eq!(view.shown_ids, Vec::<usize>::new());
}

#[test]
fn source_files_are_listed_once() {
    let mut pdg = graph();
    pdg.vertices[2].file = "src/other.scala".to_string();
    assert_eq!(source_paths(&pdg), vec!["home/me/design.scala", "src/other.scala"]);
}

#[test]
fn home_directories_get_their_slash_back() {
    assert_eq!(read_path(&"home/me/a.scala".to_string()), "/home/me/a.scala");
    assert_eq!(read_path(&"/home/me/a.scala".to_string()), "/home/me/a.scala");
    assert_eq!(read_path(&"src/home".to_string()), "src/home");
    assert_eq!(read_path(&"hom".to_string()), "hom");
}

#[test]
fn only_chisel_graphs_are_converted() {
    assert!(converts_to_source(LanguageMode::Chisel));
    assert!(!converts_to_source(LanguageMode::FIR));
    assert!(!converts_to_source(LanguageMode::SpinalHDL));
}

#[test]
fn the_viewer_starts_with_its_loading_screen() {
    assert_eq!(get_initial_route(), "/loading_screen");
}

#[test]
fn a_group_is_shown_by_a_plain_node() {
    let made = create_hier_pdg_node("module_x".to_string(), 7, vec!["x".to_string()]);
    assert_eq!(made.name, "module_x");
    assert_eq!(made.timestamp, 7);
    assert_eq!(made.instance_path, vec!["x"]);
    assert_eq!(made.kind, PDGSpecNodeKind::Definition);
    assert_eq!(made.file, "");
    assert_eq!((made.line, made.char, made.clocked), (0, 0, false));
    assert_eq!(made.related_signal, None);
    assert_eq!(made.sim_data, None);
    assert_eq!(made.is_chisel_assignment, false);
    assert!(made.same_content(&made.clone()));
    assert!(!made.same_content(&node("module_x", vec!["x"], 7)));
}

#[test]
fn graphs_are_checked_before_they_are_shown() {
    assert!(check_view(&graph(), true));
    assert!(check_view(&graph(), false));
    let empty = ExportablePDG { vertices: vec![], edges: vec![] };
    assert!(check_view(&empty, false));
    assert!(!check_view(&empty, true));
    let mut dangling = graph();
    dangling.edges.push(edge(5, 0, Data));
    assert!(check_view(&dangling, false));
    assert!(!check_view(&dangling, true));
    let mut early = graph();
    early.vertices[0].timestamp = -2;
    assert!(check_view(&early, false));
    assert!(!check_view(&early, true));
    let mut late = graph();
    late.vertices[0].timestamp = i64::MAX;
    assert!(!check_view(&late, false));
    let mut lost = graph();
    lost.vertices[0].instance_path = vec!["z".to_string(), "".to_string()];
    assert!(!check_view(&lost, true));
}

fn plain(name: &str, time: i64, path: Vec<&str>) -> ExportablePDGNode {
    let path = path.iter().map(|p| p.to_string()).collect();
    create_hier_pdg_node(name.to_string(), time, path)
}

#[test]
fn groups_are_numbered_time_by_time() {
    let pdg = ExportablePDG {
        vertices: vec![
            plain("x", 0, vec![]),
            plain("y", 1, vec!["a", "b"]),
            plain("z", 1, vec!["a"]),
        ],
        edges: vec![],
    };
    let h = build_node_hierarchy(&pdg);
    assert_eq!(h.roots.len(), 2);
    let first = &h.groups[h.roots[0]];
    assert_eq!((first.group_id, &first.node_indices, &first.children), (15, &vec![0], &vec![]));
    let a = find(&h, 1, vec!["a"]);
    let b = find(&h, 1, vec!["a", "b"]);
    let second = &h.groups[h.roots[1]];
    assert_eq!((second.group_id, &second.node_indices, &second.children), (16, &vec![], &vec![a]));
    assert_eq!((h.groups[a].group_id, &h.groups[a].node_indices), (17, &vec![2]));
    assert_eq!((h.groups[b].group_id, &h.groups[b].node_indices), (18, &vec![1]));
    assert_eq!(h.groups[a].children, vec![b]);
    assert_eq!(h.lookup.get(&0), Some(&h.roots[0]));
    assert_eq!(h.lookup.get(&1), Some(&b));
    assert_eq!(h.lookup.get(&2), Some(&a));
}

#[test]
fn a_shown_group_has_its_number() {
    let pdg = ExportablePDG {
        vertices: vec![
            plain("A", 1, vec!["m"]),
            plain("B", 1, vec!["m"]),
            plain("C", 1, vec![]),
        ],
        edges: vec![edge(0, 1, Data), edge(0, 2, Data), edge(1, 2, Data)],
    };
    let h = build_node_hierarchy(&pdg);
    let g = regroup(&h, &pdg);
    assert_eq!(
        g.dpdg.vertices,
        vec![plain("module_m", 1, vec!["m"]), plain("C", 1, vec![])]
    );
    assert_eq!(g.dpdg.edges, vec![edge(0, 1, Data)]);
    assert_eq!(g.original_ids, vec![17, 2]);
    assert_eq!(g.group_ids.keys().collect::<Vec<_>>(), vec![&0]);
    assert_eq!(g.time_to_nodes.get(&1), Some(&vec![0, 1]));
    assert_eq!(g.dep_to_edges.get(&0), Some(&vec![0]));
    assert_eq!(g.prov_to_edges.get(&1), Some(&vec![0]));
}

#[test]
fn numbers_turn_shown_edges_back_into_those_of_the_graph() {
    let pdg = graph();
    let mut h = build_node_hierarchy(&pdg);
    for group in h.groups.iter_mut() {
        group.expanded = true;
    }
    let g = regroup(&h, &pdg);
    let back: Vec<ExportablePDGEdge> = g
        .dpdg
        .edges
        .iter()
        .map(|e| ExportablePDGEdge {
            from: g.original_ids[e.from as usize] as u32,
            to: g.original_ids[e.to as usize] as u32,
            ..*e
        })
        .collect();
    assert_eq!(back, pdg.edges);
}
