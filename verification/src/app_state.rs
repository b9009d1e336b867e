//! What the viewer keeps between requests.

use std::collections::HashMap;

use vstd::hash_map::StringHashMap;
use vstd::prelude::*;

use crate::dynamic_graph::CriterionType;
use crate::hierarchy::NodeHierarchy;
use crate::pdg_spec::ExportablePDG;
use crate::regroup::HierarchicalGraph;
use crate::text::{copy_texts, lines_of, source_lines, texts};
use crate::vcd_reader::LanguageMode;

verus! {

/// The options that the viewer is started with.
#[derive(Debug)]
pub struct Options {
    pub slice_criterion: CriterionType,
    pub pdg_path: String,
    pub vcd_path: String,
    pub hgldd_path: String,
    pub top_module: String,
    pub extra_scopes: Option<Vec<String>>,
    pub max_timesteps: Option<u64>,
    pub data_only: Option<bool>,
    pub hier_grouping: Option<bool>,
    pub language: LanguageMode,
}

/// How the graph is built.
#[derive(Debug)]
pub struct PDGConfig {
    pub criterion: CriterionType,
    pub pdg_path: String,
    pub vcd_path: String,
    pub hgldd_path: String,
    pub top_module: String,
    /// The scopes of the trace that lead to the design under test.
    pub extra_scopes: Vec<String>,
    pub max_timesteps: Option<u64>,
    pub data_only: bool,
    pub group_nodes: bool,
    pub language_mode: LanguageMode,
}

impl Clone for PDGConfig {
    fn clone(&self) -> (r: PDGConfig)
        ensures
            texts(r.extra_scopes@) == texts(self.extra_scopes@),
            r == (PDGConfig { extra_scopes: r.extra_scopes, ..*self }),
    {
        PDGConfig {
            criterion: self.criterion.clone(),
            pdg_path: self.pdg_path.clone(),
            vcd_path: self.vcd_path.clone(),
            hgldd_path: self.hgldd_path.clone(),
            top_module: self.top_module.clone(),
            extra_scopes: copy_texts(&self.extra_scopes),
            max_timesteps: self.max_timesteps,
            data_only: self.data_only,
            group_nodes: self.group_nodes,
            language_mode: self.language_mode,
        }
    }
}

/// The lines of the source files that a graph refers to.
pub struct SourceFiles {
    files: StringHashMap<Vec<String>>,
}

/// A graph with what is needed to show it.
pub struct ViewableGraph {
    pub dpdg: ExportablePDG,
    pub shown_ids: Vec<usize>,
    /// The nodes of each point in time.
    pub time_to_nodes: HashMap<i64, Vec<usize>>,
    /// The edges that leave each node.
    pub dep_to_edges: HashMap<u32, Vec<usize>>,
    /// The edges that enter each node.
    pub prov_to_edges: HashMap<u32, Vec<usize>>,
    pub n_timestamps: u64,
    pub source_files: SourceFiles,
    pub should_group_nodes: bool,
    pub node_hierarchy: Option<NodeHierarchy>,
    pub current_hier_dpdg: Option<HierarchicalGraph>,
}

/// What the viewer keeps between requests.
pub struct AppState {
    pub pdg_config: Option<PDGConfig>,
    pub graph: Option<ViewableGraph>,
}

impl View for SourceFiles {
    type V = Map<Seq<char>, Seq<Seq<char>>>;

    closed spec fn view(&self) -> Map<Seq<char>, Seq<Seq<char>>> {
        self.files@.map_values(|lines: Vec<String>| texts(lines@))
    }
}

impl SourceFiles {
    /// Makes a collection without files.
    pub fn new() -> (r: SourceFiles)
        ensures
            r@ == Map::<Seq<char>, Seq<Seq<char>>>::empty(),
    {
        let sources = SourceFiles { files: StringHashMap::new() };
        assert(sources@ =~= Map::empty());
        sources
    }

    /// Adds the contents of a file.
    pub fn insert(&mut self, path: String, contents: &str)
        ensures
            final(self)@ == old(self)@.insert(path@, lines_of(contents@)),
    {
        let ghost before = self@;
        let ghost name = path@;
        self.files.insert(path, source_lines(contents));
        assert(self@ =~= before.insert(name, lines_of(contents@)));
    }

    /// The lines of a file.
    pub fn lines(&self, path: &String) -> (r: Option<&Vec<String>>)
        ensures
            match r {
                Some(lines) => self@.contains_key(path@) && texts(lines@) == self@[path@],
                None => !self@.contains_key(path@),
            },
    {
        self.files.get(path.as_str())
    }
}

/// The scopes that lead to the design under test where none are given.
pub open spec fn default_scopes(mode: LanguageMode, top_module: Seq<char>) -> Seq<Seq<char>> {
    match mode {
        LanguageMode::Chisel => seq!["TOP"@, "svsimTestbench"@, "dut"@],
        LanguageMode::FIR => seq!["TOP"@, "svsimTestbench"@, "dut"@],
        LanguageMode::SpinalHDL => seq!["TOP"@, top_module],
    }
}

/// Writes the scopes that lead to the design under test where none are given.
fn usual_scopes(mode: &LanguageMode, top_module: &String) -> (r: Vec<String>)
    ensures
        texts(r@) == default_scopes(*mode, top_module@),
{
    let mut scopes: Vec<String> = Vec::new();
    scopes.push("TOP".to_string());
    match mode {
        LanguageMode::Chisel | LanguageMode::FIR => {
            scopes.push("svsimTestbench".to_string());
            scopes.push("dut".to_string());
        },
        LanguageMode::SpinalHDL => {
            scopes.push(top_module.clone());
        },
    }
    assert(texts(scopes@) =~= default_scopes(*mode, top_module@));
    scopes
}

impl AppState {
    /// Makes a state without a configuration and without a graph.
    pub fn new() -> (r: AppState)
        ensures
            r.pdg_config is None,
            r.graph is None,
    {
        AppState { pdg_config: None, graph: None }
    }

    /// Makes the state that the viewer starts with: the given options, with the usual scopes where
    /// none are given and without data-only graphs and grouping where nothing is said of them.
    pub fn configured(options: Options) -> (r: AppState)
        ensures
            r.graph is None,
            r.pdg_config matches Some(config) && {
                &&& config.criterion == options.slice_criterion
                &&& config.pdg_path == options.pdg_path
                &&& config.vcd_path == options.vcd_path
                &&& config.hgldd_path == options.hgldd_path
                &&& config.top_module == options.top_module
                &&& texts(config.extra_scopes@) == (match options.extra_scopes {
                    Some(scopes) => texts(scopes@),
                    None => default_scopes(options.language, options.top_module@),
                })
                &&& config.max_timesteps == options.max_timesteps
                &&& config.data_only == (options.data_only == Some(true))
                &&& config.group_nodes == (options.hier_grouping == Some(true))
                &&& config.language_mode == options.language
            },
    {
        let mut state = AppState::new();
        let extra_scopes: Vec<String> = match options.extra_scopes {
            Some(scopes) => scopes,
            None => usual_scopes(&options.language, &options.top_module),
        };
        state.pdg_config = Some(
            PDGConfig {
                criterion: options.slice_criterion,
                pdg_path: options.pdg_path,
                vcd_path: options.vcd_path,
                hgldd_path: options.hgldd_path,
                top_module: options.top_module,
                extra_scopes,
                max_timesteps: options.max_timesteps,
                data_only: options.data_only.unwrap_or(false),
                group_nodes: options.hier_grouping.unwrap_or(false),
                language_mode: options.language,
            },
        );
        state
    }
}

/// The view that the viewer shows first.
pub fn get_initial_route() -> (r: String)
    ensures
        r@ == "/loading_screen"@,
{
    "/loading_screen".to_string()
}

} // verus!
