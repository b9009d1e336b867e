//! What holds of texts that are cut and put together, and of what is found by its name or path.

use vstd::prelude::*;

use crate::probes::{paths_by_code, probes_in, probes_of, ProbeModel};
use crate::text::{
    begins_with, below, join_with, lines_of, split_is_never_empty, split_on, without_return,
};
use crate::vcd_input::{descend, lookup_scope, lookup_var, scope_named, var_named, ItemModel};

verus! {

/// Parts are joined in order, with one separator between neighbours.
pub proof fn parts_are_joined_in_order(parts: Seq<Seq<char>>, part: Seq<char>, sep: char)
    ensures
        join_with(Seq::empty(), sep).len() == 0,
        join_with(seq![part], sep) == part,
        parts.len() > 0 ==> join_with(parts.push(part), sep) == join_with(parts, sep) + seq![sep]
            + part,
{
    let all = parts.push(part);
    assert(all.drop_last() =~= parts);
    if parts.len() > 0 {
        assert(join_with(parts, sep).push(sep) =~= join_with(parts, sep) + seq![sep]);
    }
}

/// A text that holds a separator splits into the pieces before it and those after it.
pub proof fn a_separator_splits(a: Seq<char>, b: Seq<char>, sep: char)
    ensures
        split_on(a + seq![sep] + b, sep) == split_on(a, sep) + split_on(b, sep),
    decreases b.len(),
{
    let left = split_on(a, sep);
    let all = a + seq![sep] + b;
    if b.len() == 0 {
        assert(all.drop_last() =~= a);
        assert(split_on(b, sep) =~= seq![Seq::<char>::empty()]);
        assert(split_on(all, sep) =~= left + split_on(b, sep));
    } else {
        let head = b.drop_last();
        let right = split_on(head, sep);
        assert(all.drop_last() =~= a + seq![sep] + head);
        a_separator_splits(a, head, sep);
        split_is_never_empty(head, sep);
        let pieces = left + right;
        if b.last() == sep {
            assert(split_on(all, sep) =~= left + split_on(b, sep));
        } else {
            assert(pieces.drop_last() =~= left + right.drop_last());
            assert(split_on(all, sep) =~= left + split_on(b, sep));
        }
    }
}

/// A text without a separator is its only piece.
pub proof fn a_text_without_separator_stays_whole(s: Seq<char>, sep: char)
    requires
        !s.contains(sep),
    ensures
        split_on(s, sep) == seq![s],
    decreases s.len(),
{
    if s.len() > 0 {
        let head = s.drop_last();
        assert(s[s.len() - 1] == s.last());
        assert(s.contains(s.last()));
        if head.contains(sep) {
            let i = choose|i: int| 0 <= i < head.len() && head[i] == sep;
            assert(s[i] == sep);
        }
        a_text_without_separator_stays_whole(head, sep);
        assert(head.push(s.last()) =~= s);
        assert(split_on(s, sep) =~= seq![s]);
    } else {
        assert(s =~= Seq::empty());
    }
}

/// Joining parts that hold no separator and splitting the result gives the parts back.
pub proof fn split_undoes_join(parts: Seq<Seq<char>>, sep: char)
    requires
        parts.len() > 0,
        forall|i: int| 0 <= i < parts.len() ==> !(#[trigger] parts[i]).contains(sep),
    ensures
        split_on(join_with(parts, sep), sep) == parts,
    decreases parts.len(),
{
    if parts.len() == 1 {
        a_text_without_separator_stays_whole(parts[0], sep);
        assert(parts =~= seq![parts[0]]);
    } else {
        let head = parts.drop_last();
        assert forall|i: int| 0 <= i < head.len() implies !(#[trigger] head[i]).contains(sep) by {
            assert(head[i] == parts[i]);
        }
        split_undoes_join(head, sep);
        assert(!parts[parts.len() - 1].contains(sep));
        a_text_without_separator_stays_whole(parts.last(), sep);
        parts_are_joined_in_order(head, parts.last(), sep);
        assert(head.push(parts.last()) =~= parts);
        a_separator_splits(join_with(head, sep), parts.last(), sep);
        assert(head + seq![parts.last()] =~= parts);
    }
}

/// A name stands below a path with one dot between them, and by itself below the empty path.
pub proof fn a_name_stands_below_its_path(prefix: Seq<char>, name: Seq<char>)
    ensures
        below(Seq::empty(), name) == name,
        prefix.len() > 0 ==> below(prefix, name) == prefix + seq!['.'] + name,
{
    assert(prefix.push('.') =~= prefix + seq!['.']);
}

/// A text begins with another exactly where it is the other followed by something.
pub proof fn a_beginning_is_followed_by_the_rest(s: Seq<char>, prefix: Seq<char>)
    ensures
        begins_with(s, prefix) <==> exists|rest: Seq<char>| s == #[trigger] (prefix + rest),
{
    if begins_with(s, prefix) {
        assert(s =~= prefix + s.skip(prefix.len() as int));
    }
    if exists|rest: Seq<char>| s == #[trigger] (prefix + rest) {
        let rest = choose|rest: Seq<char>| s == #[trigger] (prefix + rest);
        assert(s.take(prefix.len() as int) =~= prefix);
    }
}

/// A line ends at its line feed, without the carriage return that may stand before it; what comes
/// after are the other lines.
pub proof fn a_line_ends_at_its_line_feed(line: Seq<char>, rest: Seq<char>)
    requires
        !line.contains('\n'),
    ensures
        line.len() == 0 || line.last() != '\r' ==> lines_of(line + seq!['\n'] + rest) == seq![line]
            + lines_of(rest),
        lines_of(line + seq!['\r'] + seq!['\n'] + rest) == seq![line] + lines_of(rest),
{
    one_line(line, rest);
    let returned = line + seq!['\r'];
    assert forall|i: int| 0 <= i < returned.len() implies returned[i] != '\n' by {
        if i < line.len() {
            assert(line.contains(line[i]));
        }
    }
    one_line(returned, rest);
    assert(returned.drop_last() =~= line);
}

proof fn one_line(line: Seq<char>, rest: Seq<char>)
    requires
        !line.contains('\n'),
    ensures
        lines_of(line + seq!['\n'] + rest) == seq![without_return(line)] + lines_of(rest),
{
    let all = line + seq!['\n'] + rest;
    let others = split_on(rest, '\n');
    let cut = |l: Seq<char>| without_return(l);
    a_separator_splits(line, rest, '\n');
    a_text_without_separator_stays_whole(line, '\n');
    split_is_never_empty(rest, '\n');
    let pieces = split_on(all, '\n');
    assert(pieces =~= seq![line] + others);
    assert(pieces.last() == others.last());
    assert(pieces.drop_last() =~= seq![line] + others.drop_last());
    assert(pieces.drop_last().map_values(cut) =~= seq![without_return(line)]
        + others.drop_last().map_values(cut));
    assert(lines_of(all) =~= seq![without_return(line)] + lines_of(rest));
}

/// What follows the last line feed is a line of its own, as it is, unless it is empty.
pub proof fn the_last_line_needs_no_ending(line: Seq<char>)
    requires
        !line.contains('\n'),
    ensures
        line.len() == 0 ==> lines_of(line).len() == 0,
        line.len() > 0 ==> lines_of(line) == seq![line],
{
    a_text_without_separator_stays_whole(line, '\n');
    let cut = |l: Seq<char>| without_return(l);
    assert(seq![line].drop_last() =~= Seq::empty());
    assert(seq![line].drop_last().map_values(cut) =~= Seq::empty());
    assert(lines_of(line) =~= if line.len() == 0 {
        Seq::empty()
    } else {
        seq![line]
    });
}

/// Whether a variable is declared under a path of scopes.
pub open spec fn declared_at(items: Seq<ItemModel>, path: Seq<Seq<char>>, code: Seq<char>) -> bool
    decreases path.len(),
{
    if path.len() == 0 {
        false
    } else if path.len() == 1 {
        items.contains(ItemModel::Var { reference: path[0], code })
    } else {
        exists|i: int|
            0 <= i < items.len() && #[trigger] is_scope(items[i], path[0]) && declared_at(
                items[i]->Scope_items,
                path.drop_first(),
                code,
            )
    }
}

/// Whether an entry is a scope with a given name.
pub open spec fn is_scope(item: ItemModel, name: Seq<char>) -> bool {
    item is Scope && item->Scope_identifier == name
}

/// A path of scopes and a name, written below another path.
pub open spec fn written_below(prefix: Seq<char>, path: Seq<Seq<char>>) -> Seq<char>
    decreases path.len(),
{
    if path.len() == 0 {
        prefix
    } else {
        written_below(below(prefix, path[0]), path.drop_first())
    }
}

/// Of several variables of a scope with the same name the first one is found, and none where the
/// scope declares none of that name.
pub proof fn the_first_variable_of_a_name_is_found(items: Seq<ItemModel>, name: Seq<char>, i: int)
    ensures
        0 <= i < items.len() && items[i] is Var && items[i]->Var_reference == name && (forall|
            j: int,
        |
            0 <= j < i ==> !(#[trigger] items[j] is Var && items[j]->Var_reference == name))
            ==> lookup_var(items, seq![name]) == Some(items[i]->Var_code),
        (forall|j: int|
            0 <= j < items.len() ==> !(#[trigger] items[j] is Var && items[j]->Var_reference
                == name)) ==> lookup_var(items, seq![name]) is None,
{
    assert(seq![name].drop_last() =~= Seq::empty());
    assert(descend(items, seq![name].drop_last()) == Some(items));
    first_of_a_name(items, name, i);
}

proof fn first_of_a_name(items: Seq<ItemModel>, name: Seq<char>, i: int)
    ensures
        0 <= i < items.len() && items[i] is Var && items[i]->Var_reference == name && (forall|
            j: int,
        |
            0 <= j < i ==> !(#[trigger] items[j] is Var && items[j]->Var_reference == name))
            ==> var_named(items, name) == Some(items[i]->Var_code),
        (forall|j: int|
            0 <= j < items.len() ==> !(#[trigger] items[j] is Var && items[j]->Var_reference
                == name)) ==> var_named(items, name) is None,
    decreases items.len(),
{
    if items.len() > 0 {
        let rest = items.drop_first();
        first_of_a_name(rest, name, i - 1);
        assert(forall|j: int| 0 <= j < rest.len() ==> #[trigger] rest[j] == items[j + 1]);
        assert(items[0] == items.first());
    }
}

/// A path leads through the first scope of its first name: what it finds there by the rest of the
/// path is what it finds. Where there is no such scope, it finds nothing.
pub proof fn a_path_leads_through_the_first_scope(
    items: Seq<ItemModel>,
    path: Seq<Seq<char>>,
    i: int,
)
    requires
        path.len() > 1,
    ensures
        0 <= i < items.len() && is_scope(items[i], path[0]) && (forall|j: int|
            0 <= j < i ==> !(#[trigger] is_scope(items[j], path[0]))) ==> {
            &&& lookup_var(items, path) == lookup_var(items[i]->Scope_items, path.drop_first())
            &&& lookup_scope(items, path) == lookup_scope(items[i]->Scope_items, path.drop_first())
        },
        (forall|j: int| 0 <= j < items.len() ==> !(#[trigger] is_scope(items[j], path[0]))) ==> {
            &&& lookup_var(items, path) is None
            &&& lookup_scope(items, path) is None
        },
{
    first_scope_of_a_name(items, path[0], i);
    assert(path.drop_last().drop_first() =~= path.drop_first().drop_last());
    assert(path.drop_first().last() == path.last());
}

proof fn first_scope_of_a_name(items: Seq<ItemModel>, name: Seq<char>, i: int)
    ensures
        0 <= i < items.len() && is_scope(items[i], name) && (forall|j: int|
            0 <= j < i ==> !(#[trigger] is_scope(items[j], name))) ==> scope_named(items, name)
            == Some(items[i]->Scope_items),
        (forall|j: int| 0 <= j < items.len() ==> !(#[trigger] is_scope(items[j], name)))
            ==> scope_named(items, name) is None,
    decreases items.len(),
{
    if items.len() > 0 {
        let rest = items.drop_first();
        first_scope_of_a_name(rest, name, i - 1);
        assert(forall|j: int| 0 <= j < rest.len() ==> #[trigger] rest[j] == items[j + 1]);
        if i < items.len() && forall|j: int|
            0 <= j < i ==> !(#[trigger] is_scope(items[j], name)) {
            assert forall|j: int| 0 <= j < i - 1 implies !(#[trigger] is_scope(rest[j], name)) by {
                assert(!is_scope(items[j + 1], name));
            }
            assert(i > 0 ==> !is_scope(items[0], name));
        }
        if forall|j: int| 0 <= j < items.len() ==> !(#[trigger] is_scope(items[j], name)) {
            assert forall|j: int| 0 <= j < rest.len() implies !(#[trigger] is_scope(
                rest[j],
                name,
            )) by {
                assert(!is_scope(items[j + 1], name));
            }
            assert(!is_scope(items[0], name));
        }
    }
}

/// A single name leads to the entries of the first scope of that name; the empty path leads nowhere.
pub proof fn a_single_name_leads_to_its_scope(items: Seq<ItemModel>, name: Seq<char>, i: int)
    ensures
        lookup_scope(items, Seq::empty()) is None,
        lookup_var(items, Seq::empty()) is None,
        0 <= i < items.len() && is_scope(items[i], name) && (forall|j: int|
            0 <= j < i ==> !(#[trigger] is_scope(items[j], name))) ==> lookup_scope(
            items,
            seq![name],
        ) == Some(items[i]->Scope_items),
        (forall|j: int| 0 <= j < items.len() ==> !(#[trigger] is_scope(items[j], name)))
            ==> lookup_scope(items, seq![name]) is None,
{
    first_scope_of_a_name(items, name, i);
    assert(seq![name].drop_first() =~= Seq::empty());
    if let Some(inner) = scope_named(items, name) {
        assert(descend(inner, seq![name].drop_first()) == Some(inner));
    }
}

/// Every variable of a design whose name begins with `probe_` is found as a probe, in whatever
/// scope it is declared, with its path below the design.
pub proof fn every_probe_is_found(
    items: Seq<ItemModel>,
    prefix: Seq<char>,
    path: Seq<Seq<char>>,
    code: Seq<char>,
)
    requires
        path.len() > 0,
        begins_with(path.last(), "probe_"@),
        declared_at(items, path, code),
    ensures
        probes_in(items, prefix).contains(ProbeModel { code, path: written_below(prefix, path) }),
    decreases path.len(),
{
    let wanted = ProbeModel { code, path: written_below(prefix, path) };
    if path.len() == 1 {
        let item = ItemModel::Var { reference: path[0], code };
        let i = choose|i: int| 0 <= i < items.len() && items[i] == item;
        assert(written_below(below(prefix, path[0]), path.drop_first()) == below(prefix, path[0]));
        assert(probes_of(item, prefix)[0] == wanted);
        assert(probes_of(items[i], prefix).contains(wanted));
        probes_of_an_entry_are_found(items, prefix, i, wanted);
    } else {
        let i = choose|i: int|
            0 <= i < items.len() && #[trigger] is_scope(items[i], path[0]) && declared_at(
                items[i]->Scope_items,
                path.drop_first(),
                code,
            );
        assert(path.drop_first().last() == path.last());
        every_probe_is_found(
            items[i]->Scope_items,
            below(prefix, path[0]),
            path.drop_first(),
            code,
        );
        assert(probes_of(items[i], prefix).contains(wanted));
        probes_of_an_entry_are_found(items, prefix, i, wanted);
    }
}

proof fn probes_of_an_entry_are_found(
    items: Seq<ItemModel>,
    prefix: Seq<char>,
    i: int,
    probe: ProbeModel,
)
    requires
        0 <= i < items.len(),
        probes_of(items[i], prefix).contains(probe),
    ensures
        probes_in(items, prefix).contains(probe),
    decreases items.len(),
{
    let last = probes_of(items.last(), prefix);
    let others = probes_in(items.drop_last(), prefix);
    let all = probes_in(items, prefix);
    if i == items.len() - 1 {
        let k = choose|k: int| 0 <= k < last.len() && last[k] == probe;
        assert(all[k] == probe);
    } else {
        assert(items.drop_last()[i] == items[i]);
        probes_of_an_entry_are_found(items.drop_last(), prefix, i, probe);
        let k = choose|k: int| 0 <= k < others.len() && others[k] == probe;
        assert(all[last.len() + k] == probe);
    }
}

/// The probes of the last entry come first; a scope has the probes of its entries, a variable is
/// one probe at most, and a comment is none.
pub proof fn later_entries_come_first(
    items: Seq<ItemModel>,
    item: ItemModel,
    prefix: Seq<char>,
)
    ensures
        probes_in(Seq::empty(), prefix).len() == 0,
        probes_in(items.push(item), prefix) == probes_in(seq![item], prefix) + probes_in(
            items,
            prefix,
        ),
        match item {
            ItemModel::Scope { identifier, items } => probes_in(seq![item], prefix) == probes_in(
                items,
                below(prefix, identifier),
            ),
            ItemModel::Var { reference, code } => probes_in(seq![item], prefix) == if begins_with(
                reference,
                "probe_"@,
            ) {
                seq![ProbeModel { code, path: below(prefix, reference) }]
            } else {
                Seq::empty()
            },
            ItemModel::Comment => probes_in(seq![item], prefix).len() == 0,
        },
{
    assert(items.push(item).drop_last() =~= items);
    assert(seq![item].drop_last() =~= Seq::empty());
    assert(probes_in(seq![item].drop_last(), prefix) =~= Seq::empty());
    assert(probes_in(seq![item], prefix) =~= probes_of(item, prefix));
}

/// The paths of a code are listed in the order in which its probes were found.
pub proof fn paths_are_listed_as_they_are_found(
    found: Seq<ProbeModel>,
    probe: ProbeModel,
    code: Seq<char>,
)
    ensures
        ({
            let before = paths_by_code(found);
            let after = paths_by_code(found.push(probe));
            &&& !paths_by_code(Seq::empty()).contains_key(code)
            &&& after.contains_key(probe.code)
            &&& before.contains_key(probe.code) ==> after[probe.code] == before[probe.code]
                + seq![probe.path]
            &&& !before.contains_key(probe.code) ==> after[probe.code] == seq![probe.path]
            &&& code != probe.code ==> after.contains_key(code) == before.contains_key(code)
                && after[code] == before[code]
        }),
{
    assert(found.push(probe).drop_last() =~= found);
    let before = paths_by_code(found);
    if before.contains_key(probe.code) {
        assert(before[probe.code].push(probe.path) =~= before[probe.code] + seq![probe.path]);
    } else {
        assert(Seq::<Seq<char>>::empty().push(probe.path) =~= seq![probe.path]);
    }
}

} // verus!
