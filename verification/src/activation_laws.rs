//! What a clock cycle executes, by the values of the predicates.

use vstd::prelude::*;

use crate::activation::{
    activated, activated_by, any_branch_matches, apply_changes, branch_matches, optional_stmts,
    taken_stmts, top_statements_always_execute, with_predicate, PredicatesModel,
};
use crate::pdg_spec::{CFGSpecBranch, CFGSpecNode};
use crate::simulation::{value_text, ChangeModel, ValueModel};
use crate::text::texts;
use crate::vcd_input::Value;

verus! {

/// Whether no change from a place on is one of a signal.
pub open spec fn unchanged_from(changes: Seq<ChangeModel>, from: int, id: Seq<char>) -> bool {
    forall|j: int| from <= j < changes.len() ==> (#[trigger] changes[j]).id != id
}

/// Of several changes of a tracked signal the last one counts; what does not change keeps its
/// value, and what is not tracked stays so.
pub proof fn the_last_change_counts(
    values: Map<Seq<char>, ValueModel>,
    changes: Seq<ChangeModel>,
    id: Seq<char>,
    i: int,
)
    ensures
        apply_changes(values, changes).contains_key(id) == values.contains_key(id),
        values.contains_key(id) && 0 <= i < changes.len() && changes[i].id == id && unchanged_from(
            changes,
            i + 1,
            id,
        ) ==> apply_changes(values, changes)[id] == changes[i].value,
        values.contains_key(id) && unchanged_from(changes, 0, id) ==> apply_changes(
            values,
            changes,
        )[id] == values[id],
    decreases changes.len(),
{
    if changes.len() > 0 {
        let head = changes.drop_last();
        the_last_change_counts(values, head, id, i);
        let last = changes.len() - 1;
        assert(changes[last] == changes.last());
        assert(forall|j: int| 0 <= j < head.len() ==> #[trigger] head[j] == changes[j]);
    }
}

/// A new predicate comes after those that are there; its signal is unknown, and the others keep
/// their values.
pub proof fn a_new_predicate_is_unknown(p: PredicatesModel, code: Seq<char>, other: Seq<char>)
    ensures
        with_predicate(p, code).ids == p.ids + seq![code],
        with_predicate(p, code).value_of(p.ids.len() as int) == ValueModel::Scalar(Value::X),
        other != code ==> with_predicate(p, code).values.contains_key(other)
            == p.values.contains_key(other) && with_predicate(p, code).values[other]
            == p.values[other],
{
    assert(with_predicate(p, code).ids =~= p.ids + seq![code]);
}

/// Lists of nodes execute one after the other.
pub proof fn lists_execute_one_after_the_other(
    a: Seq<CFGSpecNode>,
    b: Seq<CFGSpecNode>,
    preds: PredicatesModel,
)
    ensures
        activated(Seq::empty(), preds).len() == 0,
        activated(a + b, preds) == activated(a, preds) + activated(b, preds),
    decreases a.len(),
{
    if a.len() == 0 {
        assert(a + b =~= b);
        assert(activated(a, preds) + activated(b, preds) =~= activated(b, preds));
    } else {
        let rest = a.subrange(1, a.len() as int);
        let all = a + b;
        assert(all.subrange(1, all.len() as int) =~= rest + b);
        lists_execute_one_after_the_other(rest, b, preds);
        let own = activated_by(a[0], preds);
        assert(own + (activated(rest, preds) + activated(b, preds)) =~= own + activated(rest, preds)
            + activated(b, preds));
    }
}

proof fn one_node(node: CFGSpecNode, preds: PredicatesModel)
    ensures
        activated(seq![node], preds) == activated_by(node, preds),
{
    let list = seq![node];
    assert(list.subrange(1, 1) =~= Seq::empty());
    assert(activated(list.subrange(1, list.len() as int), preds) =~= Seq::empty());
    assert(activated(list, preds) =~= activated_by(node, preds));
}

/// The value of the predicate of a node.
pub open spec fn predicate_value(node: CFGSpecNode, preds: PredicatesModel) -> ValueModel {
    preds.values[preds.ids[node.pred_stmt_ref->0 as int]]
}

/// A node without a predicate executes its own statement and nothing else.
pub proof fn a_plain_node_executes_alone(node: CFGSpecNode, preds: PredicatesModel)
    requires
        node.pred_stmt_ref is None,
    ensures
        activated(seq![node], preds) == seq![node.stmt_ref],
{
    one_node(node, preds);
    assert(activated_by(node, preds) =~= seq![node.stmt_ref]);
}

/// Of the two branches of a condition exactly one executes, after the statement of the condition:
/// the true branch where the predicate is a definite high, and the false branch for every other
/// value.
pub proof fn one_of_two_branches_executes(node: CFGSpecNode, preds: PredicatesModel)
    requires
        node.pred_stmt_ref is Some,
        node.branches is None,
    ensures
        predicate_value(node, preds) == ValueModel::Scalar(Value::V1) ==> activated(
            seq![node],
            preds,
        ) == seq![node.stmt_ref] + (if node.true_branch is Some {
            activated(node.true_branch->0@, preds)
        } else {
            Seq::empty()
        }),
        predicate_value(node, preds) != ValueModel::Scalar(Value::V1) ==> activated(
            seq![node],
            preds,
        ) == seq![node.stmt_ref] + (if node.false_branch is Some {
            activated(node.false_branch->0@, preds)
        } else {
            Seq::empty()
        }),
{
    one_node(node, preds);
    let value = predicate_value(node, preds);
    let by_truth = if value == ValueModel::Scalar(Value::V1) {
        optional_stmts(node.true_branch, preds)
    } else {
        optional_stmts(node.false_branch, preds)
    };
    assert(Seq::<u32>::empty() + by_truth =~= by_truth);
    assert(activated_by(node, preds) == seq![node.stmt_ref] + (Seq::<u32>::empty() + by_truth));
}

/// Whether a branch is meant for the value of a predicate, as it prints.
pub open spec fn meant_for(branch: CFGSpecBranch, value: ValueModel) -> bool {
    exists|j: int|
        0 <= j < branch.match_values@.len() && (#[trigger] branch.match_values@[j])@ == value_text(
            value,
        )
}

/// Whether one of the branches is meant for the value of a predicate.
pub open spec fn some_meant_for(branches: Seq<CFGSpecBranch>, value: ValueModel) -> bool {
    exists|i: int| 0 <= i < branches.len() && #[trigger] meant_for(branches[i], value)
}

proof fn branches_match_what_they_are_meant_for(branch: CFGSpecBranch, value: ValueModel)
    ensures
        meant_for(branch, value) == branch_matches(branch, value_text(value)),
{
    let names = texts(branch.match_values@);
    if meant_for(branch, value) {
        let j = choose|j: int|
            0 <= j < branch.match_values@.len() && (#[trigger] branch.match_values@[j])@
                == value_text(value);
        assert(names[j] == value_text(value));
    }
    if branch_matches(branch, value_text(value)) {
        let j = choose|j: int| 0 <= j < names.len() && names[j] == value_text(value);
        assert(branch.match_values@[j]@ == value_text(value));
    }
}

proof fn some_branch_matches(branches: Seq<CFGSpecBranch>, value: ValueModel)
    ensures
        some_meant_for(branches, value) == any_branch_matches(branches, value_text(value)),
{
    if some_meant_for(branches, value) {
        let i = choose|i: int| 0 <= i < branches.len() && #[trigger] meant_for(branches[i], value);
        branches_match_what_they_are_meant_for(branches[i], value);
        assert(branch_matches(branches[i], value_text(value)));
    }
    if any_branch_matches(branches, value_text(value)) {
        let i = choose|i: int|
            0 <= i < branches.len() && branch_matches(#[trigger] branches[i], value_text(value));
        branches_match_what_they_are_meant_for(branches[i], value);
        assert(meant_for(branches[i], value));
    }
}

/// A node as it is without a choice of branches.
pub open spec fn without_branches(node: CFGSpecNode) -> CFGSpecNode {
    CFGSpecNode { branches: None, ..node }
}

/// Where no branch is meant for the value of the predicate, the default branch executes, after the
/// statement of the choice and before what else the node executes.
pub proof fn the_default_branch_executes_where_none_is_meant(
    node: CFGSpecNode,
    preds: PredicatesModel,
)
    requires
        node.pred_stmt_ref is Some,
        node.branches is Some,
        !some_meant_for(node.branches->0@, predicate_value(node, preds)),
    ensures
        activated(seq![node], preds) == seq![node.stmt_ref] + (if node.default_branch is Some {
            activated(node.default_branch->0@, preds)
        } else {
            Seq::empty()
        }) + activated(seq![without_branches(node)], preds).skip(1),
{
    let value = predicate_value(node, preds);
    let plain = without_branches(node);
    one_node(node, preds);
    one_node(plain, preds);
    some_branch_matches(node.branches->0@, value);
    let by_truth = if value == ValueModel::Scalar(Value::V1) {
        optional_stmts(node.true_branch, preds)
    } else {
        optional_stmts(node.false_branch, preds)
    };
    let other = optional_stmts(node.default_branch, preds);
    assert(activated_by(plain, preds) == seq![node.stmt_ref] + (Seq::<u32>::empty() + by_truth));
    assert(activated_by(plain, preds).skip(1) =~= by_truth);
    assert(activated_by(node, preds) == seq![node.stmt_ref] + (other + by_truth));
    assert(activated_by(node, preds) =~= seq![node.stmt_ref] + other + by_truth);
}

/// A further branch at the end of a choice: it executes before the others where it is meant for the
/// value of the predicate, and changes nothing where it is not. The default branch does not execute
/// where it is.
pub proof fn a_branch_executes_where_it_is_meant(
    node: CFGSpecNode,
    shorter: CFGSpecNode,
    preds: PredicatesModel,
)
    requires
        node.pred_stmt_ref is Some,
        node.branches is Some,
        shorter.branches is Some,
        node.branches->0@.len() > 0,
        shorter.branches->0@ == node.branches->0@.drop_last(),
        without_branches(node) == without_branches(shorter),
    ensures
        ({
            let value = predicate_value(node, preds);
            let branch = node.branches->0@.last();
            let all = activated(seq![node], preds);
            let own = seq![node.stmt_ref] + activated(branch.stmts@, preds);
            &&& !meant_for(branch, value) ==> all == activated(seq![shorter], preds)
            &&& meant_for(branch, value) && some_meant_for(shorter.branches->0@, value) ==> all
                == own + activated(seq![shorter], preds).skip(1)
            &&& meant_for(branch, value) && !some_meant_for(shorter.branches->0@, value) ==> all
                == own + activated(seq![without_branches(node)], preds).skip(1)
        }),
{
    let value = predicate_value(node, preds);
    let text = value_text(value);
    let plain = without_branches(node);
    let longer = node.branches->0@;
    let before = shorter.branches->0@;
    let branch = longer.last();
    assert(plain.pred_stmt_ref == node.pred_stmt_ref && plain.stmt_ref == node.stmt_ref);
    assert(without_branches(shorter).pred_stmt_ref == shorter.pred_stmt_ref);
    assert(without_branches(shorter).stmt_ref == shorter.stmt_ref);
    assert(without_branches(shorter).true_branch == shorter.true_branch);
    assert(without_branches(shorter).false_branch == shorter.false_branch);
    assert(without_branches(shorter).default_branch == shorter.default_branch);
    one_node(node, preds);
    one_node(shorter, preds);
    one_node(plain, preds);
    some_branch_matches(longer, value);
    some_branch_matches(before, value);
    branches_match_what_they_are_meant_for(branch, value);
    let by_truth = if value == ValueModel::Scalar(Value::V1) {
        optional_stmts(node.true_branch, preds)
    } else {
        optional_stmts(node.false_branch, preds)
    };
    assert(activated_by(plain, preds) == seq![node.stmt_ref] + (Seq::<u32>::empty() + by_truth));
    assert(activated_by(plain, preds).skip(1) =~= by_truth);
    let rest = taken_stmts(before, text, preds);
    let others = if any_branch_matches(before, text) {
        rest
    } else {
        optional_stmts(node.default_branch, preds)
    };
    assert(activated_by(shorter, preds) == seq![node.stmt_ref] + (others + by_truth));
    assert(activated_by(shorter, preds).skip(1) =~= others + by_truth);
    if any_branch_matches(before, text) {
        let i = choose|i: int|
            0 <= i < before.len() && branch_matches(#[trigger] before[i], text);
        assert(longer[i] == before[i]);
        assert(any_branch_matches(longer, text));
    } else {
        nothing_is_taken(before, text, preds);
    }
    if branch_matches(branch, text) {
        assert(longer[longer.len() - 1] == branch);
        assert(any_branch_matches(longer, text));
        let mine = activated(branch.stmts@, preds);
        assert(taken_stmts(longer, text, preds) == mine + rest);
        assert(activated_by(node, preds) == seq![node.stmt_ref] + ((mine + rest) + by_truth));
        assert(activated_by(node, preds) =~= seq![node.stmt_ref] + mine + (rest + by_truth));
        assert(!any_branch_matches(before, text) ==> rest + by_truth =~= by_truth);
    } else {
        assert(taken_stmts(longer, text, preds) =~= rest);
        if any_branch_matches(longer, text) {
            let i = choose|i: int|
                0 <= i < longer.len() && branch_matches(#[trigger] longer[i], text);
            assert(before[i] == longer[i]);
        }
        assert(activated_by(node, preds) == seq![node.stmt_ref] + (others + by_truth));
    }
}

proof fn nothing_is_taken(branches: Seq<CFGSpecBranch>, text: Seq<char>, preds: PredicatesModel)
    requires
        !any_branch_matches(branches, text),
    ensures
        taken_stmts(branches, text, preds).len() == 0,
    decreases branches.len(),
{
    if branches.len() > 0 {
        let head = branches.drop_last();
        assert(!branch_matches(branches[branches.len() - 1], text));
        if any_branch_matches(head, text) {
            let i = choose|i: int|
                0 <= i < head.len() && branch_matches(#[trigger] head[i], text);
            assert(branch_matches(branches[i], text));
        }
        nothing_is_taken(head, text, preds);
    }
}

proof fn what_a_node_executes_is_executed(
    nodes: Seq<CFGSpecNode>,
    preds: PredicatesModel,
    i: int,
    stmt: u32,
)
    requires
        0 <= i < nodes.len(),
        activated(seq![nodes[i]], preds).contains(stmt),
    ensures
        activated(nodes, preds).contains(stmt),
{
    let head = nodes.take(i);
    let own = seq![nodes[i]];
    let tail = nodes.skip(i + 1);
    lists_execute_one_after_the_other(head, own, preds);
    lists_execute_one_after_the_other(head + own, tail, preds);
    assert(head + own + tail =~= nodes);
    let mine = activated(own, preds);
    let k = choose|k: int| 0 <= k < mine.len() && mine[k] == stmt;
    let all = activated(nodes, preds);
    assert(all == activated(head, preds) + mine + activated(tail, preds));
    assert(all[activated(head, preds).len() + k] == stmt);
}

/// The statements at the top of the branch that the predicate of a node selects execute: those of
/// the true branch where it is a definite high, and those of the false branch for every other
/// value.
pub proof fn the_selected_branch_executes(
    nodes: Seq<CFGSpecNode>,
    preds: PredicatesModel,
    i: int,
    j: int,
)
    requires
        0 <= i < nodes.len(),
        nodes[i].pred_stmt_ref is Some,
    ensures
        ({
            let node = nodes[i];
            let high = predicate_value(node, preds) == ValueModel::Scalar(Value::V1);
            &&& high && node.true_branch is Some && 0 <= j < node.true_branch->0@.len()
                ==> activated(nodes, preds).contains(node.true_branch->0@[j].stmt_ref)
            &&& !high && node.false_branch is Some && 0 <= j < node.false_branch->0@.len()
                ==> activated(nodes, preds).contains(node.false_branch->0@[j].stmt_ref)
        }),
{
    let node = nodes[i];
    let high = predicate_value(node, preds) == ValueModel::Scalar(Value::V1);
    let branch = if high {
        node.true_branch
    } else {
        node.false_branch
    };
    if let Some(list) = branch {
        if 0 <= j < list@.len() {
            let stmt = list@[j].stmt_ref;
            top_statements_always_execute(list@, preds, j);
            one_node(node, preds);
            let own = activated_by(node, preds);
            let chosen = activated(list@, preds);
            let k = choose|k: int| 0 <= k < chosen.len() && chosen[k] == stmt;
            assert(optional_stmts(branch, preds) == chosen);
            assert(own[own.len() - chosen.len() + k] == stmt);
            what_a_node_executes_is_executed(nodes, preds, i, stmt);
        }
    }
}

} // verus!
