//! What holds of every clock cycle that is read, and of the probes of a design.

use vstd::prelude::*;

use crate::probes::{paths_by_code, probes_in, probes_of, ProbeModel};
use crate::simulation::{bits_value, ChangeModel, ValueModel};
use crate::text::{begins_with, below};
use crate::vcd_input::{CommandModel, ItemModel, Value};
use crate::vcd_reader::{
    absorb_model, apply_probes, completes, fresh_cycle, read_cycle, CollectorModel, CycleModel,
};

verus! {

/// The change of an ordinary signal that a command carries: the clock, the reset and the probes are
/// not ordinary.
pub open spec fn signal_change(k: CollectorModel, command: CommandModel) -> Seq<ChangeModel> {
    match command {
        CommandModel::ChangeScalar(id, v) => if id == k.clock || id == k.reset
            || k.probes.contains_key(id) {
            Seq::empty()
        } else {
            seq![ChangeModel { id, value: ValueModel::Scalar(v) }]
        },
        CommandModel::ChangeVector(id, bits) => if k.probes.contains_key(id) {
            Seq::empty()
        } else {
            seq![ChangeModel { id, value: ValueModel::Vector(bits) }]
        },
        _ => Seq::empty(),
    }
}

/// The changes of ordinary signals that commands carry, in order.
pub open spec fn signal_changes(k: CollectorModel, commands: Seq<CommandModel>) -> Seq<ChangeModel>
    decreases commands.len(),
{
    if commands.len() == 0 {
        Seq::empty()
    } else {
        signal_change(k, commands[0]) + signal_changes(k, commands.drop_first())
    }
}

/// Which changes are those of ordinary signals depends on the clock, the reset and the probes only.
proof fn same_signals(a: CollectorModel, b: CollectorModel, commands: Seq<CommandModel>)
    requires
        a.clock == b.clock,
        a.reset == b.reset,
        a.probes == b.probes,
    ensures
        signal_changes(a, commands) == signal_changes(b, commands),
    decreases commands.len(),
{
    if commands.len() > 0 {
        same_signals(a, b, commands.drop_first());
    }
}

/// The commands that reading a clock cycle uses up.
pub open spec fn used_up(c: CycleModel, commands: Seq<CommandModel>) -> Seq<CommandModel> {
    commands.take(commands.len() - read_cycle(c, commands).pending.len())
}

/// No change of an ordinary signal is lost, repeated or moved before another: what a cycle
/// delivers, followed by what is held back after it, is what was there before, followed by what
/// was read.
pub proof fn no_change_is_lost(c: CycleModel, commands: Seq<CommandModel>)
    ensures
        read_cycle(c, commands).pending.len() <= commands.len(),
        read_cycle(c, commands).outcome matches Ok((changes, _)) ==> changes + read_cycle(
            c,
            commands,
        ).collector.held_changes == c.changes + c.collector.held_changes + signal_changes(
            c.collector,
            used_up(c, commands),
        ),
    decreases commands.len(),
{
    let end = read_cycle(c, commands);
    if commands.len() > 0 {
        let command = commands[0];
        let rest = commands.drop_first();
        let next = absorb_model(c, command);
        let own = signal_change(c.collector, command);
        assert(next.changes + next.collector.held_changes =~= c.changes + c.collector.held_changes
            + own);
        no_change_is_lost(next, rest);
        let used = used_up(c, commands);
        if command is Malformed {
        } else if completes(c.rising, command) {
            assert(used.len() == 1);
            assert(used.drop_first() =~= Seq::empty());
            assert(signal_changes(c.collector, used.drop_first()) =~= Seq::empty());
            assert(signal_changes(c.collector, used) =~= own);
        } else {
            assert(used.drop_first() =~= used_up(next, rest));
            assert(used[0] == command);
            same_signals(c.collector, next.collector, used_up(next, rest));
            assert(c.changes + c.collector.held_changes + signal_changes(c.collector, used)
                =~= c.changes + c.collector.held_changes + own + signal_changes(
                c.collector,
                used_up(next, rest),
            ));
        }
    } else {
        assert(used_up(c, commands) =~= Seq::empty());
        assert(c.changes + c.collector.held_changes =~= c.changes + c.collector.held_changes
            + Seq::<ChangeModel>::empty());
    }
}

/// Once the clock has risen, a cycle delivers nothing more and gives no probe a new value: what
/// comes with the edge is left to the next cycle.
pub proof fn the_edge_ends_what_is_delivered(c: CycleModel, commands: Seq<CommandModel>)
    requires
        c.rising,
    ensures
        read_cycle(c, commands).outcome matches Ok((changes, _)) ==> changes == c.changes,
        read_cycle(c, commands).collector.probe_values == c.collector.probe_values,
    decreases commands.len(),
{
    if commands.len() > 0 {
        let next = absorb_model(c, commands[0]);
        if !completes(c.rising, commands[0]) && !(commands[0] is Malformed) {
            the_edge_ends_what_is_delivered(next, commands.drop_first());
        }
    }
}

/// A cycle that is complete before the trace ends has seen the clock go high.
pub proof fn a_complete_cycle_saw_the_clock_rise(c: CycleModel, commands: Seq<CommandModel>)
    requires
        !c.rising,
        read_cycle(c, commands).outcome matches Ok((_, eof)) && !eof,
    ensures
        used_up(c, commands).contains(CommandModel::ChangeScalar(c.collector.clock, Value::V1)),
    decreases commands.len(),
{
    let wanted = CommandModel::ChangeScalar(c.collector.clock, Value::V1);
    let command = commands[0];
    let rest = commands.drop_first();
    let next = absorb_model(c, command);
    let used = used_up(c, commands);
    no_change_is_lost(next, rest);
    if next.rising {
        assert(used[0] == wanted);
    } else {
        a_complete_cycle_saw_the_clock_rise(next, rest);
        let later = used_up(next, rest);
        let i = choose|i: int| 0 <= i < later.len() && later[i] == wanted;
        assert(used[i + 1] == wanted);
    }
}

/// Whether the clock has risen once the commands are taken in.
pub open spec fn has_risen(c: CycleModel, commands: Seq<CommandModel>) -> bool
    decreases commands.len(),
{
    if commands.len() == 0 {
        c.rising
    } else {
        has_risen(absorb_model(c, commands[0]), commands.drop_first())
    }
}

/// A last cycle in which the clock does not rise delivers everything: nothing is held back when the
/// trace ends.
pub proof fn the_last_cycle_delivers_everything(c: CycleModel, commands: Seq<CommandModel>)
    requires
        read_cycle(c, commands).outcome matches Ok((_, eof)) && eof,
        !has_risen(c, commands),
    ensures
        read_cycle(c, commands).collector.held_changes.len() == 0,
        read_cycle(c, commands).collector.held_probes.len() == 0,
    decreases commands.len(),
{
    if commands.len() > 0 {
        the_last_cycle_delivers_everything(absorb_model(c, commands[0]), commands.drop_first());
    }
}

/// What was held back when an edge ended a cycle is delivered by the next one, also where no command
/// is left for it.
pub proof fn the_next_cycle_delivers_what_was_held_back(collector: CollectorModel)
    ensures
        ({
            let end = read_cycle(fresh_cycle(collector), Seq::empty());
            &&& end.outcome == Ok::<(Seq<ChangeModel>, bool), Seq<char>>(
                (collector.held_changes, true),
            )
            &&& end.collector.probe_values == apply_probes(
                collector.probe_values,
                collector.held_probes,
            )
        }),
{
    assert(Seq::<ChangeModel>::empty() + collector.held_changes =~= collector.held_changes);
}

/// A bit vector writes a number that fits its width.
pub proof fn a_vector_fits_its_width(bits: Seq<Value>)
    ensures
        bits_value(bits) < vstd::arithmetic::power2::pow2(bits.len()),
    decreases bits.len(),
{
    vstd::arithmetic::power2::lemma2_to64();
    if bits.len() > 0 {
        a_vector_fits_its_width(bits.drop_last());
        vstd::arithmetic::power2::lemma_pow2_unfold(bits.len());
    }
}

/// A probe is read without loss from a signal of up to 64 bits.
pub proof fn a_word_is_read_without_loss(bits: Seq<Value>)
    requires
        bits.len() <= 64,
    ensures
        bits_value(bits) % 0x1_0000_0000_0000_0000 == bits_value(bits),
{
    a_vector_fits_its_width(bits);
    vstd::arithmetic::power2::lemma2_to64();
    if bits.len() < 64 {
        vstd::arithmetic::power2::lemma_pow2_strictly_increases(bits.len(), 64);
    }
    assert(bits_value(bits) < 0x1_0000_0000_0000_0000);
}

/// Whether a path ends in the name of a probe.
pub open spec fn ends_in_probe(path: Seq<char>) -> bool {
    exists|prefix: Seq<char>, name: Seq<char>|
        path == #[trigger] below(prefix, name) && begins_with(name, "probe_"@)
}

/// Only signals whose names begin with `probe_` are probes.
pub proof fn probes_are_named_so(items: Seq<ItemModel>, prefix: Seq<char>)
    ensures
        forall|i: int|
            0 <= i < probes_in(items, prefix).len() ==> ends_in_probe(
                (#[trigger] probes_in(items, prefix)[i]).path,
            ),
    decreases items,
{
    if items.len() > 0 {
        let last = probes_of(items.last(), prefix);
        let others = probes_in(items.drop_last(), prefix);
        probes_of_an_item_are_named_so(items.last(), prefix);
        probes_are_named_so(items.drop_last(), prefix);
        let all = probes_in(items, prefix);
        assert forall|i: int| 0 <= i < all.len() implies ends_in_probe(
            (#[trigger] all[i]).path,
        ) by {
            if i < last.len() {
                assert(all[i] == last[i]);
            } else {
                assert(all[i] == others[i - last.len()]);
            }
        }
    }
}

proof fn probes_of_an_item_are_named_so(item: ItemModel, prefix: Seq<char>)
    ensures
        forall|i: int|
            0 <= i < probes_of(item, prefix).len() ==> ends_in_probe(
                (#[trigger] probes_of(item, prefix)[i]).path,
            ),
    decreases item,
{
    match item {
        ItemModel::Scope { identifier, items } => {
            probes_are_named_so(items, below(prefix, identifier));
            assert(probes_of(item, prefix) == probes_in(items, below(prefix, identifier)));
        },
        ItemModel::Var { reference, code } => {
            assert(below(prefix, reference) == below(prefix, reference));
        },
        ItemModel::Comment => {},
    }
}

/// The table of probes lists every probe that was found under its code, and nothing else.
pub proof fn the_table_lists_the_probes(found: Seq<ProbeModel>, code: Seq<char>, path: Seq<char>)
    ensures
        found.contains(ProbeModel { code, path }) <==> (paths_by_code(found).contains_key(code)
            && paths_by_code(found)[code].contains(path)),
    decreases found.len(),
{
    let wanted = ProbeModel { code, path };
    if found.len() > 0 {
        let head = found.drop_last();
        let probe = found.last();
        let before = paths_by_code(head);
        let after = paths_by_code(found);
        the_table_lists_the_probes(head, code, path);
        if found.contains(wanted) {
            let i = choose|i: int| 0 <= i < found.len() && found[i] == wanted;
            if i < head.len() {
                assert(head[i] == wanted);
                if probe.code == code {
                    let k = choose|k: int| 0 <= k < before[code].len() && before[code][k] == path;
                    assert(after[code][k] == path);
                }
            } else {
                assert(after[code].last() == path);
                assert(after[code][after[code].len() - 1] == path);
            }
        }
        if after.contains_key(code) && after[code].contains(path) {
            let k = choose|k: int| 0 <= k < after[code].len() && after[code][k] == path;
            if probe.code == code {
                if k < after[code].len() - 1 {
                    assert(before[code][k] == path);
                    let i = choose|i: int| 0 <= i < head.len() && head[i] == wanted;
                    assert(found[i] == wanted);
                } else {
                    assert(found[found.len() - 1] == wanted);
                }
            } else {
                let i = choose|i: int| 0 <= i < head.len() && head[i] == wanted;
                assert(found[i] == wanted);
            }
        }
    }
}

} // verus!
