//! Dynamic program dependence graphs from simulation traces.

pub mod activation;
pub mod activation_laws;
pub mod app_state;
pub mod assignment_laws;
pub mod cycle_laws;
pub mod dependency_laws;
pub mod dynamic_graph;
pub mod errors;
pub mod graph_building;
pub mod graphbuilder;
pub mod groups;
pub mod hierarchy;
pub mod index;
pub mod lists;
pub mod name_map;
pub mod pdg_spec;
pub mod probes;
pub mod process_laws;
pub mod reader_laws;
pub mod regroup;
pub mod run_laws;
pub mod shown_laws;
pub mod simulation;
pub mod static_graph;
pub mod text;
pub mod text_laws;
pub mod trace_laws;
pub mod tracer;
pub mod validation;
pub mod vcd_input;
pub mod vcd_reader;
pub mod view_laws;
