//! Static and exported program dependence graphs.

use vstd::prelude::*;

use crate::text::{copy_texts, same_option, same_texts, text_of, texts};

verus! {

/// What a statement of the circuit does.
#[derive(Debug, Clone, Copy, PartialEq, Eq, Hash, Structural)]
pub enum PDGSpecNodeKind {
    DataDefinition,
    Definition,
    IO,
    Connection,
    ControlFlow,
}

/// Why one statement depends on another.
#[derive(Debug, Clone, Copy, PartialEq, Eq, Hash, Structural)]
pub enum PDGSpecEdgeKind {
    Data,
    Conditional,
    Declaration,
    Index,
    Other,
}

/// Probe values under which a statement or an edge takes effect.
///
/// The two lists are read in step; what one of them has beyond the other is ignored.
#[derive(Debug, PartialEq, Eq, Hash)]
pub struct PDGSpecCondition {
    pub probe_name: Vec<String>,
    pub probe_value: Vec<u64>,
}

/// The simulated signal that a statement is shown with.
#[derive(Debug, PartialEq, Eq, Hash)]
pub struct PDGSpecRelatedSignal {
    pub signal_path: String,
    pub field_path: String,
}

/// A statement of the static program dependence graph.
#[derive(Debug, PartialEq, Eq, Hash)]
pub struct PDGSpecNode {
    pub file: String,
    pub line: u32,
    pub char: u32,
    pub name: String,
    pub kind: PDGSpecNodeKind,
    pub clocked: bool,
    pub instance_path: Vec<String>,
    pub related_signal: Option<PDGSpecRelatedSignal>,
    pub is_chisel_assignment: bool,
    /// The signal that the statement assigns to, if any.
    pub assigns_to: Option<String>,
    /// Clock cycles between the statement and the moment its assignment is seen.
    pub assign_delay: u32,
    pub condition: Option<PDGSpecCondition>,
}

/// A dependency of the statement `from` on the statement `to`.
#[derive(Debug, PartialEq, Eq, Hash)]
pub struct PDGSpecEdge {
    pub from: u32,
    pub to: u32,
    pub kind: PDGSpecEdgeKind,
    pub clocked: bool,
    pub condition: Option<PDGSpecCondition>,
}

/// A control flow condition and the signal that carries its value.
#[derive(Debug, PartialEq, Eq, Hash)]
pub struct PDGSpecPredicate {
    pub name: String,
    pub file: String,
    pub line: u32,
}

/// A statement of the control flow graph with the branches below it.
#[derive(Debug, PartialEq, Eq, Hash)]
pub struct CFGSpecNode {
    pub stmt_ref: u32,
    pub pred_stmt_ref: Option<u32>,
    pub true_branch: Option<Vec<CFGSpecNode>>,
    pub false_branch: Option<Vec<CFGSpecNode>>,
    pub branches: Option<Vec<CFGSpecBranch>>,
    pub default_branch: Option<Vec<CFGSpecNode>>,
}

/// A branch that is taken for some values of a predicate.
#[derive(Debug, PartialEq, Eq, Hash)]
pub struct CFGSpecBranch {
    pub match_values: Vec<String>,
    pub stmts: Vec<CFGSpecNode>,
}

/// A static program dependence graph with the control flow that selects its statements.
#[derive(Debug, PartialEq, Eq, Hash)]
pub struct PDGSpec {
    pub vertices: Vec<PDGSpecNode>,
    pub edges: Vec<PDGSpecEdge>,
    pub predicates: Vec<PDGSpecPredicate>,
    pub cfg: Vec<CFGSpecNode>,
}

/// A node of an exported graph.
#[derive(Debug, PartialEq, Eq, Hash)]
pub struct ExportablePDGNode {
    pub file: String,
    pub line: u32,
    pub char: u32,
    pub name: String,
    pub kind: PDGSpecNodeKind,
    pub clocked: bool,
    pub instance_path: Vec<String>,
    pub related_signal: Option<PDGSpecRelatedSignal>,
    pub sim_data: Option<String>,
    pub timestamp: i64,
    pub is_chisel_assignment: bool,
}

/// An edge of an exported graph.
#[derive(Debug, Clone, Copy, PartialEq, Eq, Hash, Structural)]
pub struct ExportablePDGEdge {
    pub from: u32,
    pub to: u32,
    pub kind: PDGSpecEdgeKind,
    pub clocked: bool,
}

/// A dependence graph in the form that is shown and stored.
#[derive(Debug, PartialEq, Eq, Hash)]
pub struct ExportablePDG {
    pub vertices: Vec<ExportablePDGNode>,
    pub edges: Vec<ExportablePDGEdge>,
}

/// Content of a [`PDGSpecCondition`].
#[verifier::ext_equal]
pub struct ConditionModel {
    pub probe_name: Seq<Seq<char>>,
    pub probe_value: Seq<u64>,
}

/// Content of a [`PDGSpecRelatedSignal`].
#[verifier::ext_equal]
pub struct RelatedSignalModel {
    pub signal_path: Seq<char>,
    pub field_path: Seq<char>,
}

/// Content of a [`PDGSpecNode`].
#[verifier::ext_equal]
pub struct SpecNodeModel {
    pub file: Seq<char>,
    pub line: u32,
    pub char: u32,
    pub name: Seq<char>,
    pub kind: PDGSpecNodeKind,
    pub clocked: bool,
    pub instance_path: Seq<Seq<char>>,
    pub related_signal: Option<RelatedSignalModel>,
    pub is_chisel_assignment: bool,
    pub assigns_to: Option<Seq<char>>,
    pub assign_delay: u32,
    pub condition: Option<ConditionModel>,
}

/// Content of an [`ExportablePDGNode`].
#[verifier::ext_equal]
pub struct ExportableNodeModel {
    pub file: Seq<char>,
    pub line: u32,
    pub char: u32,
    pub name: Seq<char>,
    pub kind: PDGSpecNodeKind,
    pub clocked: bool,
    pub instance_path: Seq<Seq<char>>,
    pub related_signal: Option<RelatedSignalModel>,
    pub sim_data: Option<Seq<char>>,
    pub timestamp: i64,
    pub is_chisel_assignment: bool,
}

impl View for PDGSpecCondition {
    type V = ConditionModel;

    open spec fn view(&self) -> ConditionModel {
        ConditionModel { probe_name: texts(self.probe_name@), probe_value: self.probe_value@ }
    }
}

impl View for PDGSpecRelatedSignal {
    type V = RelatedSignalModel;

    open spec fn view(&self) -> RelatedSignalModel {
        RelatedSignalModel { signal_path: self.signal_path@, field_path: self.field_path@ }
    }
}

/// Content of an optional condition.
pub open spec fn condition_of(condition: Option<PDGSpecCondition>) -> Option<ConditionModel> {
    match condition {
        Some(c) => Some(c@),
        None => None,
    }
}

/// Content of an optional related signal.
pub open spec fn related_of(signal: Option<PDGSpecRelatedSignal>) -> Option<RelatedSignalModel> {
    match signal {
        Some(s) => Some(s@),
        None => None,
    }
}

impl View for PDGSpecNode {
    type V = SpecNodeModel;

    open spec fn view(&self) -> SpecNodeModel {
        SpecNodeModel {
            file: self.file@,
            line: self.line,
            char: self.char,
            name: self.name@,
            kind: self.kind,
            clocked: self.clocked,
            instance_path: texts(self.instance_path@),
            related_signal: related_of(self.related_signal),
            is_chisel_assignment: self.is_chisel_assignment,
            assigns_to: text_of(self.assigns_to),
            assign_delay: self.assign_delay,
            condition: condition_of(self.condition),
        }
    }
}

impl View for ExportablePDGNode {
    type V = ExportableNodeModel;

    open spec fn view(&self) -> ExportableNodeModel {
        ExportableNodeModel {
            file: self.file@,
            line: self.line,
            char: self.char,
            name: self.name@,
            kind: self.kind,
            clocked: self.clocked,
            instance_path: texts(self.instance_path@),
            related_signal: related_of(self.related_signal),
            sim_data: text_of(self.sim_data),
            timestamp: self.timestamp,
            is_chisel_assignment: self.is_chisel_assignment,
        }
    }
}

/// Contents of the nodes of an exported graph.
pub open spec fn node_models(nodes: Seq<ExportablePDGNode>) -> Seq<ExportableNodeModel> {
    Seq::new(nodes.len(), |i: int| nodes[i]@)
}

/// Tells whether two lists hold the same numbers in the same order.
fn same_numbers(a: &Vec<u64>, b: &Vec<u64>) -> (r: bool)
    ensures
        r == (a@ == b@),
{
    if a.len() != b.len() {
        return false;
    }
    let mut i: usize = 0;
    while i < a.len()
        invariant
            i <= a.len() == b.len(),
            forall|k: int| 0 <= k < i ==> a@[k] == b@[k],
        decreases a.len() - i,
    {
        if a[i] != b[i] {
            return false;
        }
        i = i + 1;
    }
    assert(a@ =~= b@);
    true
}

/// Tells whether two optional conditions have the same content.
fn same_condition(a: &Option<PDGSpecCondition>, b: &Option<PDGSpecCondition>) -> (r: bool)
    ensures
        r == (condition_of(*a) == condition_of(*b)),
{
    match (a, b) {
        (Some(x), Some(y)) => same_texts(&x.probe_name, &y.probe_name) && same_numbers(
            &x.probe_value,
            &y.probe_value,
        ),
        (None, None) => true,
        _ => false,
    }
}

/// Tells whether two optional related signals have the same content.
fn same_related(a: &Option<PDGSpecRelatedSignal>, b: &Option<PDGSpecRelatedSignal>) -> (r: bool)
    ensures
        r == (related_of(*a) == related_of(*b)),
{
    match (a, b) {
        (Some(x), Some(y)) => x.signal_path == y.signal_path && x.field_path == y.field_path,
        (None, None) => true,
        _ => false,
    }
}

impl PDGSpecNode {
    /// Tells whether two statements agree in every field.
    pub fn same_content(&self, other: &PDGSpecNode) -> (r: bool)
        ensures
            r == (self@ == other@),
    {
        self.line == other.line && self.char == other.char && self.kind == other.kind
            && self.clocked == other.clocked && self.is_chisel_assignment
            == other.is_chisel_assignment && self.assign_delay == other.assign_delay && self.name
            == other.name && self.file == other.file && same_option(
            &self.assigns_to,
            &other.assigns_to,
        ) && same_texts(&self.instance_path, &other.instance_path) && same_related(
            &self.related_signal,
            &other.related_signal,
        ) && same_condition(&self.condition, &other.condition)
    }
}

impl ExportablePDGNode {
    /// Tells whether two nodes agree in every field.
    pub fn same_content(&self, other: &ExportablePDGNode) -> (r: bool)
        ensures
            r == (self@ == other@),
    {
        self.timestamp == other.timestamp && self.line == other.line && self.char == other.char
            && self.kind == other.kind && self.clocked == other.clocked
            && self.is_chisel_assignment == other.is_chisel_assignment && self.name == other.name
            && self.file == other.file && same_texts(&self.instance_path, &other.instance_path)
            && same_related(&self.related_signal, &other.related_signal) && same_option(
            &self.sim_data,
            &other.sim_data,
        )
    }
}

impl Clone for PDGSpecRelatedSignal {
    fn clone(&self) -> (r: PDGSpecRelatedSignal)
        ensures
            r@ == self@,
    {
        PDGSpecRelatedSignal {
            signal_path: self.signal_path.clone(),
            field_path: self.field_path.clone(),
        }
    }
}

impl Clone for ExportablePDGNode {
    fn clone(&self) -> (r: ExportablePDGNode)
        ensures
            r@ == self@,
    {
        ExportablePDGNode {
            file: self.file.clone(),
            line: self.line,
            char: self.char,
            name: self.name.clone(),
            kind: self.kind,
            clocked: self.clocked,
            instance_path: copy_texts(&self.instance_path),
            related_signal: match &self.related_signal {
                Some(signal) => Some(signal.clone()),
                None => None,
            },
            sim_data: match &self.sim_data {
                Some(data) => Some(data.clone()),
                None => None,
            },
            timestamp: self.timestamp,
            is_chisel_assignment: self.is_chisel_assignment,
        }
    }
}

} // verus!
