//! Which statements a clock cycle executes.

use vstd::hash_map::StringHashMap;
use vstd::prelude::*;

use crate::pdg_spec::{CFGSpecBranch, CFGSpecNode};
use crate::simulation::{
    change_models, value_text, ChangeModel, SimulationValue, ValueChange, ValueModel,
};
use crate::text::{list_has, texts};
use crate::vcd_input::Value;

verus! {

/// The signals that carry the predicates of the control flow graph, and their values.
pub struct Predicates {
    /// Identifier code of the signal of each predicate.
    ids: Vec<String>,
    values: StringHashMap<SimulationValue>,
}

/// Content of [`Predicates`].
#[verifier::ext_equal]
pub struct PredicatesModel {
    pub ids: Seq<Seq<char>>,
    pub values: Map<Seq<char>, ValueModel>,
}

impl PredicatesModel {
    /// The value of a predicate.
    pub open spec fn value_of(self, predicate: int) -> ValueModel {
        self.values[self.ids[predicate]]
    }

    /// Every predicate has a value.
    pub open spec fn wf(self) -> bool {
        forall|i: int| 0 <= i < self.ids.len() ==> self.values.contains_key(#[trigger] self.ids[i])
    }
}

impl View for Predicates {
    type V = PredicatesModel;

    closed spec fn view(&self) -> PredicatesModel {
        PredicatesModel {
            ids: texts(self.ids@),
            values: self.values@.map_values(|v: SimulationValue| v@),
        }
    }
}

/// The predicates with one more, whose value is unknown.
pub open spec fn with_predicate(p: PredicatesModel, code: Seq<char>) -> PredicatesModel {
    PredicatesModel {
        ids: p.ids.push(code),
        values: p.values.insert(code, ValueModel::Scalar(Value::X)),
    }
}

/// The values of the tracked signals after a list of changes; other signals are ignored.
pub open spec fn apply_changes(
    values: Map<Seq<char>, ValueModel>,
    changes: Seq<ChangeModel>,
) -> Map<Seq<char>, ValueModel>
    decreases changes.len(),
{
    if changes.len() == 0 {
        values
    } else {
        let before = apply_changes(values, changes.drop_last());
        if before.contains_key(changes.last().id) {
            before.insert(changes.last().id, changes.last().value)
        } else {
            before
        }
    }
}

/// Changes give tracked signals new values; they neither add nor drop signals.
pub proof fn changes_keep_the_tracked_signals(
    values: Map<Seq<char>, ValueModel>,
    changes: Seq<ChangeModel>,
)
    ensures
        apply_changes(values, changes).dom() == values.dom(),
    decreases changes.len(),
{
    if changes.len() > 0 {
        changes_keep_the_tracked_signals(values, changes.drop_last());
        assert(apply_changes(values, changes).dom() =~= values.dom());
    }
}

/// Whether a branch is taken for the printed value of its predicate.
pub open spec fn branch_matches(branch: CFGSpecBranch, value: Seq<char>) -> bool {
    texts(branch.match_values@).contains(value)
}

/// Whether some branch is taken for the printed value of the predicate.
pub open spec fn any_branch_matches(branches: Seq<CFGSpecBranch>, value: Seq<char>) -> bool {
    exists|i: int| 0 <= i < branches.len() && branch_matches(#[trigger] branches[i], value)
}

/// The statements of an optional branch.
pub open spec fn optional_stmts(
    branch: Option<Vec<CFGSpecNode>>,
    preds: PredicatesModel,
) -> Seq<u32>
    decreases branch,
{
    match branch {
        Some(nodes) => activated(nodes@, preds),
        None => Seq::empty(),
    }
}

/// The statements of the branches that are taken, the last branch first.
pub open spec fn taken_stmts(
    branches: Seq<CFGSpecBranch>,
    value: Seq<char>,
    preds: PredicatesModel,
) -> Seq<u32>
    decreases branches,
{
    if branches.len() == 0 {
        Seq::empty()
    } else {
        (if branch_matches(branches.last(), value) {
            activated(branches.last().stmts@, preds)
        } else {
            Seq::empty()
        }) + taken_stmts(branches.drop_last(), value, preds)
    }
}

/// The statements that a node of the control flow graph executes: itself, then the branches that
/// match the value of its predicate (or the default branch where none does), then the branch for
/// its truth, where only a definite high is true.
pub open spec fn activated_by(node: CFGSpecNode, preds: PredicatesModel) -> Seq<u32>
    decreases node,
{
    seq![node.stmt_ref] + match node.pred_stmt_ref {
        Some(p) => {
            let value = preds.value_of(p as int);
            (match node.branches {
                Some(branches) => if any_branch_matches(branches@, value_text(value)) {
                    taken_stmts(branches@, value_text(value), preds)
                } else {
                    optional_stmts(node.default_branch, preds)
                },
                None => Seq::empty(),
            }) + (if value == ValueModel::Scalar(Value::V1) {
                optional_stmts(node.true_branch, preds)
            } else {
                optional_stmts(node.false_branch, preds)
            })
        },
        None => Seq::empty(),
    }
}

/// The statements that a list of nodes executes, in order.
pub open spec fn activated(nodes: Seq<CFGSpecNode>, preds: PredicatesModel) -> Seq<u32>
    decreases nodes,
{
    if nodes.len() == 0 {
        Seq::empty()
    } else {
        activated_by(nodes[0], preds) + activated(nodes.subrange(1, nodes.len() as int), preds)
    }
}

/// Whether every statement and predicate that a node refers to exists.
pub open spec fn node_refs_ok(node: CFGSpecNode, stmts: nat, preds: nat) -> bool
    decreases node,
{
    &&& node.stmt_ref < stmts
    &&& node.pred_stmt_ref matches Some(p) ==> p < preds
    &&& node.true_branch matches Some(nodes) ==> refs_ok(nodes@, stmts, preds)
    &&& node.false_branch matches Some(nodes) ==> refs_ok(nodes@, stmts, preds)
    &&& node.default_branch matches Some(nodes) ==> refs_ok(nodes@, stmts, preds)
    &&& node.branches matches Some(branches) ==> branch_refs_ok(branches@, stmts, preds)
}

/// Whether every statement and predicate that a list of branches refers to exists.
pub open spec fn branch_refs_ok(branches: Seq<CFGSpecBranch>, stmts: nat, preds: nat) -> bool
    decreases branches,
{
    forall|i: int|
        0 <= i < branches.len() ==> refs_ok((#[trigger] branches[i]).stmts@, stmts, preds)
}

/// Whether every statement and predicate that a list of nodes refers to exists.
pub open spec fn refs_ok(nodes: Seq<CFGSpecNode>, stmts: nat, preds: nat) -> bool
    decreases nodes,
{
    forall|i: int| 0 <= i < nodes.len() ==> node_refs_ok(#[trigger] nodes[i], stmts, preds)
}

/// References to existing predicates stay valid when predicates are added.
pub proof fn refs_stay_ok(nodes: Seq<CFGSpecNode>, stmts: nat, preds: nat, more: nat)
    requires
        refs_ok(nodes, stmts, preds),
        preds <= more,
    ensures
        refs_ok(nodes, stmts, more),
    decreases nodes,
{
    assert forall|i: int| 0 <= i < nodes.len() implies node_refs_ok(
        #[trigger] nodes[i],
        stmts,
        more,
    ) by {
        assert(node_refs_ok(nodes[i], stmts, preds));
        node_refs_stay_ok(nodes[i], stmts, preds, more);
    }
}

proof fn node_refs_stay_ok(node: CFGSpecNode, stmts: nat, preds: nat, more: nat)
    requires
        node_refs_ok(node, stmts, preds),
        preds <= more,
    ensures
        node_refs_ok(node, stmts, more),
    decreases node,
{
    if let Some(nodes) = node.true_branch {
        refs_stay_ok(nodes@, stmts, preds, more);
    }
    if let Some(nodes) = node.false_branch {
        refs_stay_ok(nodes@, stmts, preds, more);
    }
    if let Some(nodes) = node.default_branch {
        refs_stay_ok(nodes@, stmts, preds, more);
    }
    if let Some(branches) = node.branches {
        branch_refs_stay_ok(branches@, stmts, preds, more);
    }
}

proof fn branch_refs_stay_ok(branches: Seq<CFGSpecBranch>, stmts: nat, preds: nat, more: nat)
    requires
        branch_refs_ok(branches, stmts, preds),
        preds <= more,
    ensures
        branch_refs_ok(branches, stmts, more),
    decreases branches,
{
    assert forall|i: int| 0 <= i < branches.len() implies refs_ok(
        (#[trigger] branches[i]).stmts@,
        stmts,
        more,
    ) by {
        refs_stay_ok(branches[i].stmts@, stmts, preds, more);
    }
}

/// Whether every statement of a list exists.
pub open spec fn all_below(list: Seq<u32>, stmts: nat) -> bool {
    forall|i: int| 0 <= i < list.len() ==> (#[trigger] list[i]) < stmts
}

proof fn concat_below(a: Seq<u32>, b: Seq<u32>, stmts: nat)
    requires
        all_below(a, stmts),
        all_below(b, stmts),
    ensures
        all_below(a + b, stmts),
{
    assert forall|i: int| 0 <= i < (a + b).len() implies (#[trigger] (a + b)[i]) < stmts by {
        if i < a.len() {
            assert(a[i] < stmts);
        } else {
            assert(b[i - a.len()] < stmts);
        }
    }
}

/// Only statements that exist are activated.
pub proof fn activated_statements_exist(
    nodes: Seq<CFGSpecNode>,
    preds: PredicatesModel,
    stmts: nat,
)
    requires
        refs_ok(nodes, stmts, preds.ids.len()),
    ensures
        all_below(activated(nodes, preds), stmts),
    decreases nodes,
{
    if nodes.len() > 0 {
        let rest = nodes.subrange(1, nodes.len() as int);
        assert(refs_ok(rest, stmts, preds.ids.len())) by {
            assert forall|i: int| 0 <= i < rest.len() implies node_refs_ok(
                #[trigger] rest[i],
                stmts,
                preds.ids.len(),
            ) by {
                assert(node_refs_ok(nodes[i + 1], stmts, preds.ids.len()));
            }
        }
        assert(node_refs_ok(nodes[0], stmts, preds.ids.len()));
        activated_by_exist(nodes[0], preds, stmts);
        activated_statements_exist(rest, preds, stmts);
        concat_below(activated_by(nodes[0], preds), activated(rest, preds), stmts);
    }
}

proof fn activated_by_exist(node: CFGSpecNode, preds: PredicatesModel, stmts: nat)
    requires
        node_refs_ok(node, stmts, preds.ids.len()),
    ensures
        all_below(activated_by(node, preds), stmts),
    decreases node,
{
    assert(all_below(seq![node.stmt_ref], stmts));
    assert(all_below(Seq::<u32>::empty(), stmts));
    if let Some(p) = node.pred_stmt_ref {
        if let Some(nodes) = node.true_branch {
            activated_statements_exist(nodes@, preds, stmts);
        }
        if let Some(nodes) = node.false_branch {
            activated_statements_exist(nodes@, preds, stmts);
        }
        if let Some(nodes) = node.default_branch {
            activated_statements_exist(nodes@, preds, stmts);
        }
        let value = preds.value_of(p as int);
        let by_match = match node.branches {
            Some(branches) => if any_branch_matches(branches@, value_text(value)) {
                taken_stmts(branches@, value_text(value), preds)
            } else {
                optional_stmts(node.default_branch, preds)
            },
            None => Seq::empty(),
        };
        if let Some(branches) = node.branches {
            taken_exist(branches@, value_text(value), preds, stmts);
        }
        let by_truth = if value == ValueModel::Scalar(Value::V1) {
            optional_stmts(node.true_branch, preds)
        } else {
            optional_stmts(node.false_branch, preds)
        };
        concat_below(by_match, by_truth, stmts);
        concat_below(seq![node.stmt_ref], by_match + by_truth, stmts);
    } else {
        concat_below(seq![node.stmt_ref], Seq::empty(), stmts);
    }
}

proof fn taken_exist(
    branches: Seq<CFGSpecBranch>,
    value: Seq<char>,
    preds: PredicatesModel,
    stmts: nat,
)
    requires
        branch_refs_ok(branches, stmts, preds.ids.len()),
    ensures
        all_below(taken_stmts(branches, value, preds), stmts),
    decreases branches,
{
    if branches.len() > 0 {
        let rest = branches.drop_last();
        assert(branch_refs_ok(rest, stmts, preds.ids.len())) by {
            assert forall|i: int| 0 <= i < rest.len() implies refs_ok(
                (#[trigger] rest[i]).stmts@,
                stmts,
                preds.ids.len(),
            ) by {
                assert(refs_ok(branches[i].stmts@, stmts, preds.ids.len()));
            }
        }
        taken_exist(rest, value, preds, stmts);
        assert(refs_ok(branches[branches.len() - 1].stmts@, stmts, preds.ids.len()));
        activated_statements_exist(branches.last().stmts@, preds, stmts);
        assert(all_below(Seq::<u32>::empty(), stmts));
        concat_below(
            if branch_matches(branches.last(), value) {
                activated(branches.last().stmts@, preds)
            } else {
                Seq::empty()
            },
            taken_stmts(rest, value, preds),
            stmts,
        );
    }
}

/// The statements at the top of the control flow graph execute in every cycle.
pub proof fn top_statements_always_execute(
    nodes: Seq<CFGSpecNode>,
    preds: PredicatesModel,
    i: int,
)
    requires
        0 <= i < nodes.len(),
    ensures
        activated(nodes, preds).contains(nodes[i].stmt_ref),
    decreases nodes,
{
    let rest = nodes.subrange(1, nodes.len() as int);
    let first = activated_by(nodes[0], preds);
    let all = activated(nodes, preds);
    if i == 0 {
        assert(first[0] == nodes[0].stmt_ref);
        assert(all[0] == nodes[0].stmt_ref);
    } else {
        top_statements_always_execute(rest, preds, i - 1);
        let later = activated(rest, preds);
        let k = choose|k: int| 0 <= k < later.len() && later[k] == nodes[i].stmt_ref;
        assert(all[first.len() + k] == nodes[i].stmt_ref);
    }
}

/// Number of nodes in a tree of the control flow graph.
spec fn node_size(node: CFGSpecNode) -> nat
    decreases node,
{
    1 + optional_size(node.true_branch) + optional_size(node.false_branch) + optional_size(
        node.default_branch,
    ) + match node.branches {
        Some(branches) => branches_size(branches@),
        None => 0,
    }
}

/// Number of nodes in an optional branch.
spec fn optional_size(branch: Option<Vec<CFGSpecNode>>) -> nat
    decreases branch,
{
    match branch {
        Some(nodes) => nodes_size(nodes@),
        None => 0,
    }
}

/// Number of nodes in a list of branches.
spec fn branches_size(branches: Seq<CFGSpecBranch>) -> nat
    decreases branches,
{
    if branches.len() == 0 {
        0
    } else {
        branches_size(branches.drop_last()) + nodes_size(branches.last().stmts@)
    }
}

/// Number of nodes in a list of trees.
spec fn nodes_size(nodes: Seq<CFGSpecNode>) -> nat
    decreases nodes,
{
    if nodes.len() == 0 {
        0
    } else {
        node_size(nodes[0]) + nodes_size(nodes.subrange(1, nodes.len() as int))
    }
}

/// The statements of the nodes on a stack, the top first.
spec fn stack_stmts(stack: Seq<&CFGSpecNode>, preds: PredicatesModel) -> Seq<u32>
    decreases stack.len(),
{
    if stack.len() == 0 {
        Seq::empty()
    } else {
        activated_by(*stack.last(), preds) + stack_stmts(stack.drop_last(), preds)
    }
}

/// Number of nodes on a stack and below them.
spec fn stack_size(stack: Seq<&CFGSpecNode>) -> nat
    decreases stack.len(),
{
    if stack.len() == 0 {
        0
    } else {
        node_size(*stack.last()) + stack_size(stack.drop_last())
    }
}

/// Whether every node on a stack refers to statements and predicates that exist.
spec fn stack_ok(stack: Seq<&CFGSpecNode>, stmts: nat, preds: nat) -> bool {
    forall|i: int| 0 <= i < stack.len() ==> node_refs_ok(*(#[trigger] stack[i]), stmts, preds)
}

/// Puts a list of nodes on the stack, the first node on top.
fn push_nodes<'a>(
    stack: &mut Vec<&'a CFGSpecNode>,
    nodes: &'a Vec<CFGSpecNode>,
    Ghost(preds): Ghost<PredicatesModel>,
    Ghost(stmts): Ghost<nat>,
)
    requires
        stack_ok(old(stack)@, stmts, preds.ids.len()),
        refs_ok(nodes@, stmts, preds.ids.len()),
    ensures
        stack_ok(final(stack)@, stmts, preds.ids.len()),
        stack_stmts(final(stack)@, preds) == activated(nodes@, preds) + stack_stmts(
            old(stack)@,
            preds,
        ),
        stack_size(final(stack)@) == nodes_size(nodes@) + stack_size(old(stack)@),
{
    let ghost before = stack@;
    let mut i: usize = nodes.len();
    assert(nodes@.skip(i as int) =~= Seq::empty());
    assert(activated(nodes@.skip(i as int), preds) + stack_stmts(before, preds) =~= stack_stmts(
        before,
        preds,
    ));
    while i > 0
        invariant
            i <= nodes.len(),
            refs_ok(nodes@, stmts, preds.ids.len()),
            stack_ok(stack@, stmts, preds.ids.len()),
            stack_stmts(stack@, preds) == activated(nodes@.skip(i as int), preds) + stack_stmts(
                before,
                preds,
            ),
            stack_size(stack@) == nodes_size(nodes@.skip(i as int)) + stack_size(before),
        decreases i,
    {
        i = i - 1;
        let ghost now = stack@;
        stack.push(&nodes[i]);
        proof {
            let tail = nodes@.skip(i as int);
            assert(stack@.drop_last() =~= now);
            assert(tail[0] == nodes@[i as int]);
            assert(tail.subrange(1, tail.len() as int) =~= nodes@.skip(i + 1));
            let own = activated_by(nodes@[i as int], preds);
            let rest = activated(nodes@.skip(i + 1), preds);
            assert(own + (rest + stack_stmts(before, preds)) =~= (own + rest) + stack_stmts(
                before,
                preds,
            ));
        }
    }
    assert(nodes@.skip(0) =~= nodes@);
}

impl Predicates {
    /// Every predicate has a value.
    pub open spec fn wf(self) -> bool {
        self@.wf()
    }

    /// Starts without predicates.
    pub fn new() -> (r: Predicates)
        ensures
            r.wf(),
            r@ == (PredicatesModel { ids: Seq::empty(), values: Map::empty() }),
    {
        let r = Predicates { ids: Vec::new(), values: StringHashMap::new() };
        assert(r@.ids =~= Seq::empty());
        assert(r@.values =~= Map::empty());
        r
    }

    /// Adds a predicate that the signal with this code carries; its value is unknown.
    pub fn register(&mut self, code: String)
        requires
            old(self).wf(),
        ensures
            final(self).wf(),
            final(self)@ == with_predicate(old(self)@, code@),
    {
        let ghost before = self@;
        self.values.insert(code.clone(), SimulationValue::Scalar(Value::X));
        self.ids.push(code);
        assert(self@.ids =~= before.ids.push(code@));
        assert(self@.values =~= before.values.insert(code@, ValueModel::Scalar(Value::X)));
        assert forall|i: int| 0 <= i < self@.ids.len() implies self@.values.contains_key(
            #[trigger] self@.ids[i],
        ) by {
            if i < before.ids.len() {
                assert(before.values.contains_key(before.ids[i]));
            }
        }
    }

    /// Takes over the changes of the signals that carry predicates.
    pub fn update(&mut self, changes: &Vec<ValueChange>)
        requires
            old(self).wf(),
        ensures
            final(self).wf(),
            final(self)@ == (PredicatesModel {
                values: apply_changes(old(self)@.values, change_models(changes@)),
                ..old(self)@
            }),
    {
        let ghost before = self@;
        let ghost all = change_models(changes@);
        let mut i: usize = 0;
        assert(all.take(0) =~= Seq::empty());
        while i < changes.len()
            invariant
                i <= changes.len(),
                all == change_models(changes@),
                self@ == (PredicatesModel {
                    values: apply_changes(before.values, all.take(i as int)),
                    ..before
                }),
            decreases changes.len() - i,
        {
            let ghost now = self@;
            assert(all.take(i + 1).drop_last() =~= all.take(i as int));
            assert(all.take(i + 1).last() == changes@[i as int]@);
            if self.values.contains_key(changes[i].id.as_str()) {
                let value: SimulationValue = changes[i].value.clone();
                self.values.insert(changes[i].id.clone(), value);
                assert(self@.values =~= now.values.insert(changes@[i as int].id@, value@));
            }
            i = i + 1;
        }
        assert(all.take(i as int) =~= all);
        proof {
            changes_keep_the_tracked_signals(before.values, all);
        }
    }

    /// Puts the branches that match a value on the stack, or the default branch where none does.
    fn push_branches<'a>(
        &self,
        stack: &mut Vec<&'a CFGSpecNode>,
        branches: &'a Vec<CFGSpecBranch>,
        default_branch: &'a Option<Vec<CFGSpecNode>>,
        value: &String,
        Ghost(stmts): Ghost<nat>,
    )
        requires
            stack_ok(old(stack)@, stmts, self@.ids.len()),
            branch_refs_ok(branches@, stmts, self@.ids.len()),
            default_branch matches Some(nodes) ==> refs_ok(nodes@, stmts, self@.ids.len()),
        ensures
            stack_ok(final(stack)@, stmts, self@.ids.len()),
            stack_stmts(final(stack)@, self@) == (if any_branch_matches(branches@, value@) {
                taken_stmts(branches@, value@, self@)
            } else {
                optional_stmts(*default_branch, self@)
            }) + stack_stmts(old(stack)@, self@),
            stack_size(final(stack)@) <= branches_size(branches@) + optional_size(*default_branch)
                + stack_size(old(stack)@),
    {
        let ghost before = stack@;
        let ghost below = stack_stmts(before, self@);
        let mut has_active_branch: bool = false;
        let mut i: usize = 0;
        assert(branches@.take(0) =~= Seq::empty());
        assert(taken_stmts(branches@.take(0), value@, self@) + below =~= below);
        while i < branches.len()
            invariant
                i <= branches.len(),
                branch_refs_ok(branches@, stmts, self@.ids.len()),
                stack_ok(stack@, stmts, self@.ids.len()),
                has_active_branch == exists|k: int|
                    0 <= k < i && branch_matches(#[trigger] branches@[k], value@),
                stack_stmts(stack@, self@) == taken_stmts(
                    branches@.take(i as int),
                    value@,
                    self@,
                ) + below,
                stack_size(stack@) <= branches_size(branches@.take(i as int)) + stack_size(before),
                !has_active_branch ==> stack@ == before,
            decreases branches.len() - i,
        {
            let ghost head = branches@.take(i + 1);
            assert(head.drop_last() =~= branches@.take(i as int));
            assert(head.last() == branches@[i as int]);
            if list_has(&branches[i].match_values, value) {
                let ghost now = stack@;
                push_nodes(stack, &branches[i].stmts, Ghost(self@), Ghost(stmts));
                has_active_branch = true;
                proof {
                    let own = activated(branches@[i as int].stmts@, self@);
                    let rest = taken_stmts(branches@.take(i as int), value@, self@);
                    assert(branch_matches(branches@[i as int], value@));
                    assert(own + (rest + below) =~= (own + rest) + below);
                }
            } else {
                assert(taken_stmts(head, value@, self@) =~= taken_stmts(
                    branches@.take(i as int),
                    value@,
                    self@,
                ));
            }
            i = i + 1;
        }
        assert(branches@.take(i as int) =~= branches@);
        if !has_active_branch {
            match default_branch {
                Some(nodes) => push_nodes(stack, nodes, Ghost(self@), Ghost(stmts)),
                None => {
                    assert(Seq::<u32>::empty() + below =~= below);
                },
            }
        }
    }

    /// Determines which statements a clock cycle executes, by following the control flow graph
    /// along the values of its predicates.
    pub fn activated_statements(&self, cfg: &Vec<CFGSpecNode>) -> (r: Vec<u32>)
        requires
            self.wf(),
            exists|stmts: nat| #[trigger] refs_ok(cfg@, stmts, self@.ids.len()),
        ensures
            r@ == activated(cfg@, self@),
    {
        let ghost stmts = choose|stmts: nat| #[trigger] refs_ok(cfg@, stmts, self@.ids.len());
        let mut activated_list: Vec<u32> = Vec::new();
        let mut stack: Vec<&CFGSpecNode> = Vec::new();
        push_nodes(&mut stack, cfg, Ghost(self@), Ghost(stmts));
        let ghost total = activated(cfg@, self@);
        assert(activated_list@ + stack_stmts(stack@, self@) =~= total);
        loop
            invariant
                self.wf(),
                stack_ok(stack@, stmts, self@.ids.len()),
                activated_list@ + stack_stmts(stack@, self@) == total,
            ensures
                activated_list@ == total,
            decreases stack_size(stack@),
        {
            let ghost todo = stack@;
            let node: &CFGSpecNode = match stack.pop() {
                Some(node) => node,
                None => {
                    assert(activated_list@ =~= total);
                    break ;
                },
            };
            let ghost done = activated_list@;
            let ghost rest = stack_stmts(todo.drop_last(), self@);
            assert(stack@ =~= todo.drop_last());
            assert(*todo.last() == *node);
            assert(node_refs_ok(*todo[todo.len() - 1], stmts, self@.ids.len()));
            activated_list.push(node.stmt_ref);
            match node.pred_stmt_ref {
                Some(pred) => {
                    assert(self@.values.contains_key(self@.ids[pred as int]));
                    let pred_value: SimulationValue = match self.values.get(
                        self.ids[pred as usize].as_str(),
                    ) {
                        Some(value) => value.clone(),
                        None => SimulationValue::Scalar(Value::X),
                    };
                    let ghost value = self@.value_of(pred as int);
                    assert(pred_value@ == value);
                    let pred_active: bool = match &pred_value {
                        SimulationValue::Scalar(v) => *v == Value::V1,
                        _ => false,
                    };
                    let ghost by_truth = if value == ValueModel::Scalar(Value::V1) {
                        optional_stmts(node.true_branch, self@)
                    } else {
                        optional_stmts(node.false_branch, self@)
                    };
                    if pred_active {
                        match &node.true_branch {
                            Some(nodes) => push_nodes(
                                &mut stack,
                                nodes,
                                Ghost(self@),
                                Ghost(stmts),
                            ),
                            None => {},
                        }
                    } else {
                        match &node.false_branch {
                            Some(nodes) => push_nodes(
                                &mut stack,
                                nodes,
                                Ghost(self@),
                                Ghost(stmts),
                            ),
                            None => {},
                        }
                    }
                    assert(stack_stmts(stack@, self@) =~= by_truth + rest);
                    let ghost mut by_match: Seq<u32> = Seq::empty();
                    match &node.branches {
                        Some(branches) => {
                            let text: String = pred_value.text();
                            self.push_branches(
                                &mut stack,
                                branches,
                                &node.default_branch,
                                &text,
                                Ghost(stmts),
                            );
                            proof {
                                by_match = if any_branch_matches(branches@, value_text(value)) {
                                    taken_stmts(branches@, value_text(value), self@)
                                } else {
                                    optional_stmts(node.default_branch, self@)
                                };
                            }
                        },
                        None => {},
                    }
                    assert(stack_stmts(stack@, self@) =~= by_match + (by_truth + rest));
                    assert(activated_by(*node, self@) == seq![node.stmt_ref] + (by_match
                        + by_truth));
                    assert(done + (seq![node.stmt_ref] + (by_match + by_truth) + rest)
                        =~= activated_list@ + (by_match + (by_truth + rest)));
                },
                None => {
                    assert(done + (seq![node.stmt_ref] + Seq::<u32>::empty() + rest)
                        =~= activated_list@ + rest);
                },
            }
        }
        activated_list
    }
}

} // verus!
