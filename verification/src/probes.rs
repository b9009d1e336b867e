//! Probe signals: the signals of the design that record which branch of an expression is live.

use vstd::hash_map::StringHashMap;
use vstd::prelude::*;

use crate::text::{begins_with, below, copy_texts, has_prefix, path_below, texts};
use crate::vcd_input::{item_content, item_contents, HeaderItem, ItemModel};

verus! {

/// A probe: the identifier code of its signal and its path below the design.
pub struct ProbeModel {
    pub code: Seq<char>,
    pub path: Seq<char>,
}

/// The probes that an entry declares, `prefix` being the path of the scope it stands in.
pub open spec fn probes_of(item: ItemModel, prefix: Seq<char>) -> Seq<ProbeModel>
    decreases item,
{
    match item {
        ItemModel::Scope { identifier, items } => probes_in(items, below(prefix, identifier)),
        ItemModel::Var { reference, code } => if begins_with(reference, "probe_"@) {
            seq![ProbeModel { code, path: below(prefix, reference) }]
        } else {
            Seq::empty()
        },
        ItemModel::Comment => Seq::empty(),
    }
}

/// The probes that a list of entries declares, the last entry first.
pub open spec fn probes_in(items: Seq<ItemModel>, prefix: Seq<char>) -> Seq<ProbeModel>
    decreases items,
{
    if items.len() == 0 {
        Seq::empty()
    } else {
        probes_of(items.last(), prefix) + probes_in(items.drop_last(), prefix)
    }
}

/// The paths of the probes of each code, in the order in which they were found.
pub open spec fn paths_by_code(found: Seq<ProbeModel>) -> Map<Seq<char>, Seq<Seq<char>>>
    decreases found.len(),
{
    if found.len() == 0 {
        Map::empty()
    } else {
        let before = paths_by_code(found.drop_last());
        let probe = found.last();
        let known = if before.contains_key(probe.code) {
            before[probe.code]
        } else {
            Seq::empty()
        };
        before.insert(probe.code, known.push(probe.path))
    }
}

/// Content of a table of probes.
pub open spec fn probe_table(table: Map<Seq<char>, Vec<String>>) -> Map<
    Seq<char>,
    Seq<Seq<char>>,
> {
    table.map_values(|paths: Vec<String>| texts(paths@))
}

/// Number of entries in a tree of scopes.
spec fn item_size(item: ItemModel) -> nat
    decreases item,
{
    match item {
        ItemModel::Scope { items, .. } => 1 + items_size(items),
        _ => 1,
    }
}

/// Number of entries in a list of trees of scopes.
spec fn items_size(items: Seq<ItemModel>) -> nat
    decreases items,
{
    if items.len() == 0 {
        0
    } else {
        items_size(items.drop_last()) + item_size(items.last())
    }
}

/// The entries that are still to be visited, each with the path of its scope.
spec fn agenda(stack: Seq<(String, &HeaderItem)>) -> Seq<(Seq<char>, ItemModel)> {
    Seq::new(stack.len(), |i: int| (stack[i].0@, item_content(*stack[i].1)))
}

/// The probes on the agenda, the last entry first.
spec fn agenda_probes(todo: Seq<(Seq<char>, ItemModel)>) -> Seq<ProbeModel>
    decreases todo.len(),
{
    if todo.len() == 0 {
        Seq::empty()
    } else {
        probes_of(todo.last().1, todo.last().0) + agenda_probes(todo.drop_last())
    }
}

/// Number of entries on the agenda and below it.
spec fn agenda_size(todo: Seq<(Seq<char>, ItemModel)>) -> nat
    decreases todo.len(),
{
    if todo.len() == 0 {
        0
    } else {
        item_size(todo.last().1) + agenda_size(todo.drop_last())
    }
}

/// An entry of a list keeps its place in the list of contents.
pub proof fn contents_keep_places(items: Seq<HeaderItem>)
    ensures
        item_contents(items).len() == items.len(),
        forall|i: int|
            0 <= i < items.len() ==> #[trigger] item_contents(items)[i] == item_content(items[i]),
    decreases items.len(),
{
    if items.len() > 0 {
        contents_keep_places(items.drop_last());
        assert forall|i: int| 0 <= i < items.len() implies #[trigger] item_contents(items)[i]
            == item_content(items[i]) by {
            if i < items.len() - 1 {
                assert(items.drop_last()[i] == items[i]);
            }
        }
    }
}

/// Tables that agree on what they hold for every code have the same content.
proof fn table_after_insert(
    table: Map<Seq<char>, Vec<String>>,
    code: Seq<char>,
    paths: Vec<String>,
)
    ensures
        probe_table(table.insert(code, paths)) == probe_table(table).insert(code, texts(paths@)),
{
    assert(probe_table(table.insert(code, paths)) =~= probe_table(table).insert(
        code,
        texts(paths@),
    ));
}

/// Adds a probe to a table.
fn record_probe(table: &mut StringHashMap<Vec<String>>, code: &String, path: String)
    ensures
        probe_table(final(table)@) == probe_table(old(table)@).insert(
            code@,
            (if probe_table(old(table)@).contains_key(code@) {
                probe_table(old(table)@)[code@]
            } else {
                Seq::empty()
            }).push(path@),
        ),
{
    let mut paths: Vec<String> = match table.get(code.as_str()) {
        Some(known) => copy_texts(known),
        None => Vec::new(),
    };
    let ghost known = texts(paths@);
    assert(!table@.contains_key(code@) ==> known =~= Seq::empty());
    paths.push(path);
    assert(texts(paths@) =~= known.push(path@));
    proof {
        table_after_insert(table@, code@, paths);
    }
    table.insert(code.clone(), paths);
}

/// Puts the entries of a scope on the agenda.
fn push_items<'a>(
    stack: &mut Vec<(String, &'a HeaderItem)>,
    prefix: &String,
    items: &'a Vec<HeaderItem>,
)
    ensures
        agenda_probes(agenda(final(stack)@)) == probes_in(item_contents(items@), prefix@)
            + agenda_probes(agenda(old(stack)@)),
        agenda_size(agenda(final(stack)@)) == items_size(item_contents(items@)) + agenda_size(
            agenda(old(stack)@),
        ),
{
    let ghost before = agenda(stack@);
    let ghost all = item_contents(items@);
    proof {
        contents_keep_places(items@);
        assert(all.take(0) =~= Seq::empty());
    }
    let mut i: usize = 0;
    while i < items.len()
        invariant
            i <= items.len(),
            all == item_contents(items@),
            all.len() == items.len(),
            forall|k: int| 0 <= k < items.len() ==> #[trigger] all[k] == item_content(items@[k]),
            agenda_probes(agenda(stack@)) == probes_in(all.take(i as int), prefix@)
                + agenda_probes(before),
            agenda_size(agenda(stack@)) == items_size(all.take(i as int)) + agenda_size(before),
        decreases items.len() - i,
    {
        let ghost now = agenda(stack@);
        stack.push((prefix.clone(), &items[i]));
        proof {
            assert(agenda(stack@).drop_last() =~= now);
            assert(agenda(stack@).last() == (prefix@, all[i as int]));
            assert(all.take(i + 1).drop_last() =~= all.take(i as int));
            assert(all.take(i + 1).last() == all[i as int]);
            assert(probes_of(all[i as int], prefix@) + (probes_in(all.take(i as int), prefix@)
                + agenda_probes(before)) =~= (probes_of(all[i as int], prefix@) + probes_in(
                all.take(i as int),
                prefix@,
            )) + agenda_probes(before));
        }
        i = i + 1;
    }
    assert(all.take(i as int) =~= all);
}

/// Searches the scope of the design and everything below it for probes, that is for variables
/// whose name starts with `probe_`.
///
/// Several probes can share a code; the table lists the paths of each code.
pub fn find_probes(design: &Vec<HeaderItem>) -> (r: StringHashMap<Vec<String>>)
    ensures
        probe_table(r@) == paths_by_code(probes_in(item_contents(design@), Seq::empty())),
{
    let mut table: StringHashMap<Vec<String>> = StringHashMap::new();
    let mut stack: Vec<(String, &HeaderItem)> = Vec::new();
    let ghost mut found: Seq<ProbeModel> = Seq::empty();
    let ghost total = probes_in(item_contents(design@), Seq::empty());
    assert(agenda(stack@) =~= Seq::empty());
    push_items(&mut stack, &String::new(), design);
    assert(probe_table(table@) =~= Map::empty());
    assert(found + agenda_probes(agenda(stack@)) =~= total);
    loop
        invariant
            found + agenda_probes(agenda(stack@)) == total,
            probe_table(table@) == paths_by_code(found),
        ensures
            found == total,
            probe_table(table@) == paths_by_code(found),
        decreases agenda_size(agenda(stack@)),
    {
        let ghost todo = agenda(stack@);
        let (prefix, item) = match stack.pop() {
            Some(top) => top,
            None => {
                assert(found =~= total);
                break ;
            },
        };
        proof {
            assert(agenda(stack@) =~= todo.drop_last());
            assert(todo.last() == (prefix@, item_content(*item)));
        }
        let ghost rest = agenda_probes(todo.drop_last());
        let ghost own = probes_of(item_content(*item), prefix@);
        assert(found + (own + rest) =~= (found + own) + rest);
        match item {
            HeaderItem::Scope { identifier, items } => {
                let inner: String = path_below(&prefix, identifier);
                push_items(&mut stack, &inner, items);
            },
            HeaderItem::Var { reference, code } => {
                if has_prefix(reference.as_str(), "probe_") {
                    record_probe(&mut table, code, path_below(&prefix, reference));
                    proof {
                        let probe = ProbeModel { code: code@, path: below(prefix@, reference@) };
                        assert(own == seq![probe]);
                        assert((found + own).drop_last() =~= found);
                        assert((found + own).last() == probe);
                        found = found + own;
                    }
                } else {
                    assert(found + own =~= found);
                }
            },
            HeaderItem::Comment => {
                assert(found + own =~= found);
            },
        }
    }
    table
}

} // verus!
