//! Makes the graph that the viewer shows from what was read and simulated.

use std::collections::HashMap;

use vstd::prelude::*;

use crate::activation::refs_ok;
use crate::app_state::{AppState, PDGConfig, SourceFiles, ViewableGraph};
use crate::dynamic_graph::{selection, CriterionType, GraphProcessingType};
use crate::errors::Error;
use crate::graphbuilder::{
    first_run, initial_builder, registration, run_trace, time_fits, BuilderModel, GraphBuilder,
};
use crate::groups::{group_models, group_ok, parents_first, trees_ok};
use crate::hierarchy::{
    build_node_hierarchy, is_hierarchy_of, path_parts, paths_lead_to_groups, time_count,
    NodeHierarchy,
};
use crate::index::{add_place, is_index};
use crate::pdg_spec::{
    node_models, ExportableNodeModel, ExportablePDG, ExportablePDGEdge, ExportablePDGNode, PDGSpec,
};
use crate::regroup::{
    regroup, regrouped, sources_of, targets_of, times_of, HierModel, HierarchicalGraph,
};
use crate::static_graph::edges_join;
use crate::text::{begins_with, copy_texts, has_prefix, list_has, texts};
use crate::vcd_input::{vcd_body, vcd_header};
use crate::vcd_reader::{initial_reader, LanguageMode};

verus! {

broadcast use vstd::std_specs::hash::group_hash_axioms;

/// Which dependencies a configuration asks for.
pub open spec fn mode_of(data_only: bool) -> GraphProcessingType {
    if data_only {
        GraphProcessingType::DataOnly
    } else {
        GraphProcessingType::Normal
    }
}

/// The limit on the length of the trace as a time of the trace.
pub open spec fn limit_of(max_timesteps: Option<u64>) -> Option<i64> {
    match max_timesteps {
        Some(max) => Some(max as i64),
        None => None,
    }
}

/// The nodes of an exported graph with their times counted from one step earlier.
pub open spec fn one_later(nodes: Seq<ExportableNodeModel>) -> Seq<ExportableNodeModel> {
    Seq::new(
        nodes.len(),
        |i: int| ExportableNodeModel { timestamp: (nodes[i].timestamp + 1) as i64, ..nodes[i] },
    )
}

/// The last point in time of the first `n` nodes; 0 where there is none after it.
pub open spec fn last_time(nodes: Seq<ExportableNodeModel>, n: nat) -> i64
    decreases n,
{
    if n == 0 {
        0
    } else {
        let rest = last_time(nodes, (n - 1) as nat);
        if nodes[n - 1].timestamp > rest {
            nodes[n - 1].timestamp
        } else {
            rest
        }
    }
}

/// The files of nodes.
pub open spec fn files_of(nodes: Seq<ExportableNodeModel>) -> Seq<Seq<char>> {
    Seq::new(nodes.len(), |i: int| nodes[i].file)
}

/// The texts of a list without repetitions, in the order in which they come first.
pub open spec fn distinct(list: Seq<Seq<char>>) -> Seq<Seq<char>>
    decreases list.len(),
{
    if list.len() == 0 {
        list
    } else {
        let rest = distinct(list.drop_last());
        if rest.contains(list.last()) {
            rest
        } else {
            rest.push(list.last())
        }
    }
}

/// Where a source file is read from: paths below a home directory may lack their leading slash.
pub open spec fn read_path_of(path: Seq<char>) -> Seq<char> {
    if begins_with(path, "home"@) {
        seq!['/'] + path
    } else {
        path
    }
}

/// A list without repetitions holds what the list holds, each text once.
pub proof fn each_text_is_listed_once(list: Seq<Seq<char>>)
    ensures
        distinct(list).no_duplicates(),
        forall|text: Seq<char>| #[trigger] distinct(list).contains(text) <==> list.contains(text),
    decreases list.len(),
{
    if list.len() > 0 {
        let head = list.drop_last();
        let rest = distinct(head);
        each_text_is_listed_once(head);
        assert forall|text: Seq<char>| #[trigger]
            distinct(list).contains(text) <==> list.contains(text) by {
            if list.contains(text) {
                let i = choose|i: int| 0 <= i < list.len() && list[i] == text;
                if i < head.len() {
                    assert(head[i] == text);
                    assert(distinct(head).contains(text));
                    let k = choose|k: int| 0 <= k < rest.len() && rest[k] == text;
                    assert(distinct(list)[k] == text);
                } else if !rest.contains(text) {
                    assert(distinct(list)[rest.len() as int] == text);
                }
            }
            if distinct(list).contains(text) {
                let k = choose|k: int| 0 <= k < distinct(list).len() && distinct(list)[k] == text;
                if k < rest.len() {
                    assert(rest[k] == text);
                    assert(distinct(head).contains(text));
                    let i = choose|i: int| 0 <= i < head.len() && head[i] == text;
                    assert(list[i] == text);
                } else {
                    assert(list[list.len() - 1] == text);
                }
            }
        }
    }
}

/// No node is later than the last point in time.
pub proof fn no_node_is_later_than_the_last_time(
    nodes: Seq<ExportableNodeModel>,
    n: nat,
    v: int,
)
    requires
        0 <= v < n <= nodes.len(),
    ensures
        nodes[v].timestamp <= last_time(nodes, n),
    decreases n,
{
    if v < n - 1 {
        no_node_is_later_than_the_last_time(nodes, (n - 1) as nat, v);
    }
}

/// Lists the source files that a graph refers to, each once.
pub fn source_paths(dpdg: &ExportablePDG) -> (r: Vec<String>)
    ensures
        texts(r@) == distinct(files_of(node_models(dpdg.vertices@))),
{
    let ghost files = files_of(node_models(dpdg.vertices@));
    let mut paths: Vec<String> = Vec::new();
    assert(texts(paths@) =~= distinct(files.take(0)));
    let mut k: usize = 0;
    while k < dpdg.vertices.len()
        invariant
            k <= dpdg.vertices.len(),
            files == files_of(node_models(dpdg.vertices@)),
            texts(paths@) == distinct(files.take(k as int)),
        decreases dpdg.vertices.len() - k,
    {
        let file: &String = &dpdg.vertices[k].file;
        assert(files[k as int] == file@);
        assert(files.take(k + 1).drop_last() =~= files.take(k as int));
        let ghost before = texts(paths@);
        if !list_has(&paths, file) {
            paths.push(file.clone());
            assert(texts(paths@) =~= before.push(file@));
        }
        k = k + 1;
    }
    assert(files.take(k as int) =~= files);
    paths
}

/// Tells where to read a source file from.
pub fn read_path(path: &String) -> (r: String)
    ensures
        r@ == read_path_of(path@),
{
    if has_prefix(path.as_str(), "home") {
        proof {
            reveal_strlit("/");
        }
        let mut absolute: String = "/".to_string();
        absolute.append(path.as_str());
        assert(absolute@ =~= seq!['/'] + path@);
        absolute
    } else {
        path.clone()
    }
}

/// Tells whether a graph is converted to the source language of the circuit.
pub fn converts_to_source(language_mode: LanguageMode) -> (r: bool)
    ensures
        r == (language_mode == LanguageMode::Chisel),
{
    match language_mode {
        LanguageMode::Chisel => true,
        _ => false,
    }
}

/// Counts the times of a graph from one step earlier.
fn shift_times(dpdg: &mut ExportablePDG)
    requires
        forall|i: int|
            0 <= i < old(dpdg).vertices@.len() ==> (#[trigger] old(dpdg).vertices@[i]).timestamp
                < i64::MAX,
    ensures
        node_models(final(dpdg).vertices@) == one_later(node_models(old(dpdg).vertices@)),
        final(dpdg).edges == old(dpdg).edges,
{
    let ghost before = node_models(dpdg.vertices@);
    let ghost nodes = dpdg.vertices@;
    let n: usize = dpdg.vertices.len();
    let mut k: usize = 0;
    while k < n
        invariant
            k <= n == dpdg.vertices.len() == nodes.len(),
            before == node_models(nodes),
            dpdg.edges == old(dpdg).edges,
            nodes == old(dpdg).vertices@,
            forall|i: int| 0 <= i < nodes.len() ==> (#[trigger] nodes[i]).timestamp < i64::MAX,
            forall|i: int| k <= i < n ==> #[trigger] dpdg.vertices@[i] == nodes[i],
            forall|i: int|
                0 <= i < k ==> (#[trigger] node_models(dpdg.vertices@)[i]) == one_later(before)[i],
        decreases n - k,
    {
        let ghost here = node_models(dpdg.vertices@);
        assert(dpdg.vertices@[k as int] == nodes[k as int]);
        dpdg.vertices[k].timestamp = dpdg.vertices[k].timestamp + 1;
        assert forall|i: int| 0 <= i < k + 1 implies (#[trigger] node_models(dpdg.vertices@)[i])
            == one_later(before)[i] by {
            if i < k {
                assert(node_models(dpdg.vertices@)[i] == here[i]);
            }
        }
        k = k + 1;
    }
    assert(node_models(dpdg.vertices@) =~= one_later(before));
}

/// Lists the nodes of each point in time.
fn index_times(nodes: &Vec<ExportablePDGNode>) -> (r: HashMap<i64, Vec<usize>>)
    ensures
        is_index(r@, times_of(node_models(nodes@))),
{
    let ghost times = times_of(node_models(nodes@));
    let mut table: HashMap<i64, Vec<usize>> = HashMap::new();
    let mut k: usize = 0;
    while k < nodes.len()
        invariant
            k <= nodes.len(),
            times == times_of(node_models(nodes@)),
            is_index(table@, times.take(k as int)),
        decreases nodes.len() - k,
    {
        add_place(&mut table, nodes[k].timestamp, k, Ghost(times.take(k as int)));
        assert(times.take(k as int).push(times[k as int]) =~= times.take(k + 1));
        k = k + 1;
    }
    assert(times.take(k as int) =~= times);
    table
}

/// Lists the edges that leave each node.
fn index_sources(edges: &Vec<ExportablePDGEdge>) -> (r: HashMap<u32, Vec<usize>>)
    ensures
        is_index(r@, sources_of(edges@)),
{
    let ghost sources = sources_of(edges@);
    let mut table: HashMap<u32, Vec<usize>> = HashMap::new();
    let mut k: usize = 0;
    while k < edges.len()
        invariant
            k <= edges.len(),
            sources == sources_of(edges@),
            is_index(table@, sources.take(k as int)),
        decreases edges.len() - k,
    {
        add_place(&mut table, edges[k].from, k, Ghost(sources.take(k as int)));
        assert(sources.take(k as int).push(sources[k as int]) =~= sources.take(k + 1));
        k = k + 1;
    }
    assert(sources.take(k as int) =~= sources);
    table
}

/// Lists the edges that enter each node.
fn index_targets(edges: &Vec<ExportablePDGEdge>) -> (r: HashMap<u32, Vec<usize>>)
    ensures
        is_index(r@, targets_of(edges@)),
{
    let ghost targets = targets_of(edges@);
    let mut table: HashMap<u32, Vec<usize>> = HashMap::new();
    let mut k: usize = 0;
    while k < edges.len()
        invariant
            k <= edges.len(),
            targets == targets_of(edges@),
            is_index(table@, targets.take(k as int)),
        decreases edges.len() - k,
    {
        add_place(&mut table, edges[k].to, k, Ghost(targets.take(k as int)));
        assert(targets.take(k as int).push(targets[k as int]) =~= targets.take(k + 1));
        k = k + 1;
    }
    assert(targets.take(k as int) =~= targets);
    table
}

/// The last point in time of a graph, but no less than 0.
fn count_times(nodes: &Vec<ExportablePDGNode>) -> (r: u64)
    ensures
        r == last_time(node_models(nodes@), nodes@.len()),
{
    let ghost models = node_models(nodes@);
    let mut last: i64 = 0;
    let mut k: usize = 0;
    while k < nodes.len()
        invariant
            k <= nodes.len(),
            models == node_models(nodes@),
            last >= 0,
            last == last_time(models, k as nat),
        decreases nodes.len() - k,
    {
        assert(models[k as int] == nodes@[k as int]@);
        if nodes[k].timestamp > last {
            last = nodes[k].timestamp;
        }
        k = k + 1;
    }
    last as u64
}

/// Whether a view shows the given nodes and edges.
pub open spec fn is_view_of(
    view: ViewableGraph,
    nodes: Seq<ExportableNodeModel>,
    edges: Seq<ExportablePDGEdge>,
    sources: Map<Seq<char>, Seq<Seq<char>>>,
    group_nodes: bool,
) -> bool {
    &&& node_models(view.dpdg.vertices@) == nodes
    &&& view.dpdg.edges@ == edges
    &&& view.shown_ids@ == Seq::new(nodes.len(), |i: int| i as usize)
    &&& is_index(view.time_to_nodes@, times_of(nodes))
    &&& is_index(view.dep_to_edges@, sources_of(edges))
    &&& is_index(view.prov_to_edges@, targets_of(edges))
    &&& view.n_timestamps == last_time(nodes, nodes.len())
    &&& view.source_files@ == sources
    &&& view.should_group_nodes == group_nodes
    &&& match view.node_hierarchy {
        Some(h) => group_nodes && is_hierarchy_of(
            group_models(h.groups@),
            h.roots@,
            h.lookup@,
            nodes,
        ),
        None => !group_nodes,
    }
}

/// Whether the nodes of a graph can be grouped.
pub open spec fn can_be_grouped(
    nodes: Seq<ExportableNodeModel>,
    edges: Seq<ExportablePDGEdge>,
) -> bool {
    &&& nodes.len() > 0
    &&& paths_lead_to_groups(nodes)
    &&& 5 * nodes.len() + time_count(nodes) + path_parts(nodes, nodes.len()) <= usize::MAX
    &&& forall|i: int|
        0 <= i < edges.len() ==> {
            &&& (#[trigger] edges[i]).from < nodes.len()
            &&& edges[i].to < nodes.len()
            &&& nodes[edges[i].from as int].timestamp >= 0
            &&& nodes[edges[i].to as int].timestamp >= 0
        }
}

/// Makes a view of a graph: the tables by which it is walked and, if asked for, the groups of its
/// nodes.
fn view_graph(dpdg: ExportablePDG, sources: SourceFiles, group_nodes: bool) -> (r: ViewableGraph)
    requires
        group_nodes ==> can_be_grouped(node_models(dpdg.vertices@), dpdg.edges@),
    ensures
        is_view_of(r, node_models(dpdg.vertices@), dpdg.edges@, sources@, group_nodes),
        r.current_hier_dpdg is None,
{
    let ghost nodes = node_models(dpdg.vertices@);
    let node_hierarchy: Option<NodeHierarchy> = if group_nodes {
        Some(build_node_hierarchy(&dpdg))
    } else {
        None
    };
    let time_to_nodes: HashMap<i64, Vec<usize>> = index_times(&dpdg.vertices);
    let dep_to_edges: HashMap<u32, Vec<usize>> = index_sources(&dpdg.edges);
    let prov_to_edges: HashMap<u32, Vec<usize>> = index_targets(&dpdg.edges);
    let n_timestamps: u64 = count_times(&dpdg.vertices);
    let mut shown_ids: Vec<usize> = Vec::new();
    let n: usize = dpdg.vertices.len();
    let mut k: usize = 0;
    while k < n
        invariant
            k <= n,
            shown_ids@ == Seq::new(k as nat, |i: int| i as usize),
        decreases n - k,
    {
        shown_ids.push(k);
        k = k + 1;
    }
    ViewableGraph {
        dpdg,
        shown_ids,
        time_to_nodes,
        dep_to_edges,
        prov_to_edges,
        n_timestamps,
        source_files: sources,
        should_group_nodes: group_nodes,
        node_hierarchy,
        current_hier_dpdg: None,
    }
}

/// Whether the ends of the edges of a state's graph can be shown, where its nodes are grouped.
pub open spec fn groups_in_order(state: AppState) -> bool {
    state.graph matches Some(view) ==> (view.node_hierarchy matches Some(h) ==> {
        &&& h.wf()
        &&& h.covers_edges(view.dpdg.vertices@.len(), view.dpdg.edges@)
    })
}

/// The graph that is shown where the nodes of a view are grouped.
pub open spec fn shown_graph(view: ViewableGraph, h: NodeHierarchy) -> HierModel {
    regrouped(
        group_models(h.groups@),
        h.lookup@,
        node_models(view.dpdg.vertices@),
        view.dpdg.edges@,
    )
}

/// Builds the graph that is shown anew, after groups have been expanded or collapsed.
pub fn rebuild_hier_graph(state: &mut AppState) -> (r: Result<(), Error>)
    requires
        groups_in_order(*old(state)),
    ensures
        final(state).pdg_config == old(state).pdg_config,
        groups_in_order(*final(state)),
        match old(state).graph {
            None => {
                &&& r matches Err(Error::StateError(text))
                &&& text@ == "Uninitialized graph!"@
                &&& final(state).graph == old(state).graph
            },
            Some(view) => match view.node_hierarchy {
                None => {
                    &&& r matches Err(Error::StateError(text))
                    &&& text@ == "Uninitialized reverse hierarchy lookup!"@
                    &&& final(state).graph == old(state).graph
                },
                Some(h) => {
                    &&& r is Ok
                    &&& final(state).graph matches Some(after)
                    &&& after == (ViewableGraph {
                        current_hier_dpdg: after.current_hier_dpdg,
                        ..view
                    })
                    &&& after.current_hier_dpdg matches Some(graph)
                    &&& graph.wf()
                    &&& graph@ == shown_graph(view, h)
                },
            },
        },
{
    match &mut state.graph {
        None => Err(Error::StateError("Uninitialized graph!".to_string())),
        Some(view) => {
            let graph: HierarchicalGraph = match &view.node_hierarchy {
                None => {
                    return Err(
                        Error::StateError("Uninitialized reverse hierarchy lookup!".to_string()),
                    );
                },
                Some(hierarchy) => regroup(hierarchy, &view.dpdg),
            };
            view.current_hier_dpdg = Some(graph);
            Ok(())
        },
    }
}

/// The groups of a graph are in order and hold every node that an edge joins.
pub proof fn a_hierarchy_is_in_order(
    h: NodeHierarchy,
    nodes: Seq<ExportableNodeModel>,
    edges: Seq<ExportablePDGEdge>,
)
    requires
        is_hierarchy_of(group_models(h.groups@), h.roots@, h.lookup@, nodes),
        can_be_grouped(nodes, edges),
    ensures
        h.wf(),
        h.covers_edges(nodes.len(), edges),
{
    let groups = group_models(h.groups@);
    assert(trees_ok(groups, 5 * nodes.len() as int));
    assert forall|i: int| 0 <= i < groups.len() implies ((#[trigger] groups[i]).parent matches Some(
        p,
    ) ==> p < i) by {
        assert(group_ok(groups, 5 * nodes.len() as int, i));
    }
    assert(parents_first(groups));
    assert forall|i: int| 0 <= i < edges.len() implies h.covers(
        nodes.len(),
        (#[trigger] edges[i]).from,
    ) && h.covers(nodes.len(), edges[i].to) by {
        let from = edges[i].from as usize;
        let to = edges[i].to as usize;
        assert(h.lookup@.contains_key(from));
        assert(h.lookup@.contains_key(to));
    }
}

/// Makes the view of a graph that has been built, converted and filled with simulated values, and
/// keeps it in the state. Its times count from 1 where those of the trace count from 0.
pub fn make_dpdg(state: &mut AppState, dpdg: ExportablePDG, sources: SourceFiles) -> (r: Result<
    (),
    Error,
>)
    requires
        forall|i: int|
            0 <= i < dpdg.vertices@.len() ==> (#[trigger] dpdg.vertices@[i]).timestamp < i64::MAX,
        old(state).pdg_config matches Some(config) && config.group_nodes ==> can_be_grouped(
            one_later(node_models(dpdg.vertices@)),
            dpdg.edges@,
        ),
    ensures
        final(state).pdg_config == old(state).pdg_config,
        match old(state).pdg_config {
            None => {
                &&& r matches Err(Error::StateError(text))
                &&& text@ == "Tried building PDG before config was known."@
                &&& final(state).graph == old(state).graph
            },
            Some(config) => {
                &&& r is Ok
                &&& groups_in_order(*final(state))
                &&& final(state).graph matches Some(view)
                &&& is_view_of(
                    view,
                    one_later(node_models(dpdg.vertices@)),
                    dpdg.edges@,
                    sources@,
                    config.group_nodes,
                )
                &&& match view.node_hierarchy {
                    Some(h) => {
                        &&& view.current_hier_dpdg matches Some(graph)
                        &&& graph.wf()
                        &&& graph@ == shown_graph(view, h)
                    },
                    None => view.current_hier_dpdg is None,
                }
            },
        },
{
    let group_nodes: bool = match &state.pdg_config {
        Some(config) => config.group_nodes,
        None => {
            return Err(
                Error::StateError("Tried building PDG before config was known.".to_string()),
            );
        },
    };
    let mut dpdg: ExportablePDG = dpdg;
    shift_times(&mut dpdg);
    let view = view_graph(dpdg, sources, group_nodes);
    proof {
        if group_nodes {
            a_hierarchy_is_in_order(
                view.node_hierarchy->0,
                node_models(view.dpdg.vertices@),
                view.dpdg.edges@,
            );
        }
    }
    state.graph = Some(view);
    if group_nodes {
        return rebuild_hier_graph(state);
    }
    Ok(())
}

/// How building a dynamic graph ends: with the nodes of the graph and the place of the one that
/// matches the criterion, or with an error.
pub open spec fn is_built(
    r: Result<(GraphBuilder, usize), Error>,
    start: BuilderModel,
    limit: Option<i64>,
    mode: GraphProcessingType,
    criterion: CriterionType,
) -> bool {
    match registration(start).1 {
        Some(path) => r matches Err(Error::VariableNotFoundError(text)) && text@ == path,
        None => {
            let end = run_trace(start.graph, start.cfg, first_run(start), limit, mode, criterion);
            match end.error {
                Some(message) => r matches Err(Error::TraceError(text)) && text@ == message,
                None => match selection(end.run.trace, criterion) {
                    Some(node) => r matches Ok((builder, place)) && builder@.trace == end.run.trace
                        && place == node,
                    None => r matches Err(Error::StatementLookupError(text)) && text@
                        == "Criterion not found in DPDG"@,
                },
            }
        },
    }
}

/// Builds the dynamic graph that a configuration asks for from the bytes of a value change dump
/// and a static dependence graph.
pub fn build_dpdg(config: &PDGConfig, vcd: Vec<u8>, pdg: PDGSpec) -> (r: Result<
    (GraphBuilder, usize),
    Error,
>)
    requires
        pdg.vertices@.len() <= 0x1_0000_0000,
        edges_join(pdg.edges@, pdg.vertices@.len()),
        refs_ok(pdg.cfg@, pdg.vertices@.len(), pdg.predicates@.len()),
        2 * (vcd@.len() + 1) <= i64::MAX,
    ensures
        match vcd_header(vcd@) {
            Err(message) => r matches Err(Error::TraceError(text)) && text@ == message,
            Ok(header) => match initial_reader(
                header,
                vcd_body(vcd@),
                texts(config.extra_scopes@),
                config.language_mode,
            ) {
                None => r matches Err(Error::ClockNotFoundError),
                Some(reader) => is_built(
                    r,
                    initial_builder(reader, pdg),
                    limit_of(config.max_timesteps),
                    mode_of(config.data_only),
                    config.criterion,
                ),
            },
        },
{
    let ghost bytes = vcd@;
    let scopes: Vec<String> = copy_texts(&config.extra_scopes);
    let mut builder: GraphBuilder = match GraphBuilder::new(
        vcd,
        scopes,
        pdg,
        config.language_mode,
    ) {
        Ok(builder) => builder,
        Err(error) => {
            return Err(error);
        },
    };
    let processing_type: GraphProcessingType = if config.data_only {
        GraphProcessingType::DataOnly
    } else {
        GraphProcessingType::Normal
    };
    let limit: Option<i64> = match config.max_timesteps {
        Some(max) => Some(max as i64),
        None => None,
    };
    assert(time_fits(builder@.reader));
    match builder.process(&config.criterion, limit, processing_type) {
        Ok(place) => Ok((builder, place)),
        Err(error) => Err(error),
    }
}

} // verus!
