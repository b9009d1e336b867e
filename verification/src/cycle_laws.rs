//! Where a clock cycle ends in a trace, and what has happened by that time.

use vstd::prelude::*;

use crate::reader_laws::{signal_change, signal_changes};
use crate::simulation::{bits_value, value_text, ChangeModel, ValueModel};
use crate::vcd_input::{CommandModel, Value};
use crate::vcd_reader::{
    absorb_model, apply_probes, completes, read_cycle, CollectorModel, CycleModel, ProbeChangeModel,
};

verus! {

/// Whether no change from a place on names a probe.
pub open spec fn unnamed_from(
    changes: Seq<ProbeChangeModel>,
    from: int,
    path: Seq<char>,
) -> bool {
    forall|j: int| from <= j < changes.len() ==> (#[trigger] changes[j]).path != path
}

/// Of several changes of a probe the last one counts.
pub proof fn the_last_probe_change_counts(
    values: Map<Seq<char>, u64>,
    changes: Seq<ProbeChangeModel>,
    i: int,
)
    requires
        0 <= i < changes.len(),
        unnamed_from(changes, i + 1, changes[i].path),
    ensures
        apply_probes(values, changes).contains_key(changes[i].path),
        apply_probes(values, changes)[changes[i].path] == changes[i].value,
    decreases changes.len(),
{
    if i < changes.len() - 1 {
        let head = changes.drop_last();
        assert(changes[changes.len() - 1].path != changes[i].path);
        assert forall|j: int| i + 1 <= j < head.len() implies (#[trigger] head[j]).path
            != head[i].path by {
            assert(head[j] == changes[j]);
        }
        the_last_probe_change_counts(values, head, i);
    }
}

/// A probe that no change names keeps its value.
pub proof fn an_unnamed_probe_keeps_its_value(
    values: Map<Seq<char>, u64>,
    changes: Seq<ProbeChangeModel>,
    path: Seq<char>,
)
    requires
        unnamed_from(changes, 0, path),
    ensures
        apply_probes(values, changes).contains_key(path) == values.contains_key(path),
        values.contains_key(path) ==> apply_probes(values, changes)[path] == values[path],
    decreases changes.len(),
{
    if changes.len() > 0 {
        let head = changes.drop_last();
        assert(changes[changes.len() - 1].path != path);
        assert forall|j: int| 0 <= j < head.len() implies (#[trigger] head[j]).path != path by {
            assert(head[j] == changes[j]);
        }
        an_unnamed_probe_keeps_its_value(values, head, path);
    }
}

/// The probe values after two lists of changes, one after the other.
proof fn probe_changes_add_up(
    values: Map<Seq<char>, u64>,
    a: Seq<ProbeChangeModel>,
    b: Seq<ProbeChangeModel>,
)
    ensures
        apply_probes(values, a + b) == apply_probes(apply_probes(values, a), b),
    decreases b.len(),
{
    if b.len() == 0 {
        assert(a + b =~= a);
    } else {
        assert((a + b).drop_last() =~= a + b.drop_last());
        probe_changes_add_up(values, a, b.drop_last());
    }
}

/// The new values of probes that a command carries: a scalar is one where it is a definite high, a
/// vector is the number that it writes.
pub open spec fn probe_change(k: CollectorModel, command: CommandModel) -> Seq<ProbeChangeModel> {
    match command {
        CommandModel::ChangeScalar(id, v) => if id != k.clock && id != k.reset
            && k.probes.contains_key(id) {
            Seq::new(
                k.probes[id].len(),
                |i: int|
                    ProbeChangeModel {
                        path: k.probes[id][i],
                        value: if v == Value::V1 {
                            1
                        } else {
                            0
                        },
                    },
            )
        } else {
            Seq::empty()
        },
        CommandModel::ChangeVector(id, bits) => if k.probes.contains_key(id) {
            Seq::new(
                k.probes[id].len(),
                |i: int|
                    ProbeChangeModel {
                        path: k.probes[id][i],
                        value: (bits_value(bits) % 0x1_0000_0000_0000_0000) as u64,
                    },
            )
        } else {
            Seq::empty()
        },
        _ => Seq::empty(),
    }
}

/// The new values of probes that commands carry, in order.
pub open spec fn probe_changes(k: CollectorModel, commands: Seq<CommandModel>) -> Seq<
    ProbeChangeModel,
>
    decreases commands.len(),
{
    if commands.len() == 0 {
        Seq::empty()
    } else {
        probe_change(k, commands[0]) + probe_changes(k, commands.drop_first())
    }
}

/// The level that commands leave a signal at, given the level before them.
pub open spec fn level_after(
    signal: Seq<char>,
    start: Value,
    commands: Seq<CommandModel>,
) -> Value
    decreases commands.len(),
{
    if commands.len() == 0 {
        start
    } else {
        match commands.last() {
            CommandModel::ChangeScalar(id, v) => if id == signal {
                v
            } else {
                level_after(signal, start, commands.drop_last())
            },
            _ => level_after(signal, start, commands.drop_last()),
        }
    }
}

/// Whether a command takes the clock from low to high.
pub open spec fn rises_at(k: CollectorModel, commands: Seq<CommandModel>, i: int) -> bool {
    &&& 0 <= i < commands.len()
    &&& commands[i] == CommandModel::ChangeScalar(k.clock, Value::V1)
    &&& level_after(k.clock, k.clock_val, commands.take(i)) == Value::V0
}

/// Whether the clock has risen in the cycle before a command.
pub open spec fn risen_before(c: CycleModel, commands: Seq<CommandModel>, n: int) -> bool {
    c.rising || exists|i: int| 0 <= i < n && #[trigger] rises_at(c.collector, commands, i)
}

/// Whether the cycle goes on after a command: it can be read, and it is no timestamp after a rising
/// edge.
pub open spec fn goes_on(c: CycleModel, commands: Seq<CommandModel>, m: int) -> bool {
    &&& !(commands[m] is Malformed)
    &&& commands[m] is Timestamp ==> !risen_before(c, commands, m)
}

/// Whether the cycle goes on after each of the first commands.
pub open spec fn reads_on(c: CycleModel, commands: Seq<CommandModel>, n: int) -> bool {
    &&& 0 <= n <= commands.len()
    &&& forall|m: int| 0 <= m < n ==> #[trigger] goes_on(c, commands, m)
}

/// Whether reading the cycle stops at a command, or at the end of the trace.
pub open spec fn stops_at(c: CycleModel, commands: Seq<CommandModel>, n: int) -> bool {
    &&& reads_on(c, commands, n)
    &&& n == commands.len() || !goes_on(c, commands, n)
}

/// The cycle after a list of commands that it takes in.
spec fn taken_in(c: CycleModel, commands: Seq<CommandModel>) -> CycleModel
    decreases commands.len(),
{
    if commands.len() == 0 {
        c
    } else {
        taken_in(absorb_model(c, commands[0]), commands.drop_first())
    }
}

/// The level after a list of commands, counted from after the first of them.
proof fn level_from_the_second(
    signal: Seq<char>,
    start: Value,
    next: Value,
    commands: Seq<CommandModel>,
)
    requires
        commands.len() > 0,
        next == level_after(signal, start, commands.take(1)),
    ensures
        level_after(signal, start, commands) == level_after(signal, next, commands.drop_first()),
    decreases commands.len(),
{
    let rest = commands.drop_first();
    if commands.len() == 1 {
        assert(commands.take(1) =~= commands);
    } else {
        let head = commands.drop_last();
        assert(head.take(1) =~= commands.take(1));
        level_from_the_second(signal, start, next, head);
        assert(head.drop_first() =~= rest.drop_last());
        assert(rest.last() == commands.last());
    }
}

proof fn level_of_one(signal: Seq<char>, start: Value, command: CommandModel)
    ensures
        level_after(signal, start, seq![command]) == (match command {
            CommandModel::ChangeScalar(id, v) => if id == signal {
                v
            } else {
                start
            },
            _ => start,
        }),
{
    assert(seq![command].drop_last() =~= Seq::empty());
    assert(level_after(signal, start, seq![command].drop_last()) == start);
}

proof fn rises_from_the_second(c: CycleModel, commands: Seq<CommandModel>, i: int)
    requires
        0 < i < commands.len(),
    ensures
        rises_at(c.collector, commands, i) == rises_at(
            absorb_model(c, commands[0]).collector,
            commands.drop_first(),
            i - 1,
        ),
{
    let k = c.collector;
    let next = absorb_model(c, commands[0]).collector;
    let prefix = commands.take(i);
    assert(prefix.take(1) =~= seq![commands[0]]);
    level_of_one(k.clock, k.clock_val, commands[0]);
    level_from_the_second(k.clock, k.clock_val, next.clock_val, prefix);
    assert(prefix.drop_first() =~= commands.drop_first().take(i - 1));
}

proof fn risen_from_the_second(c: CycleModel, commands: Seq<CommandModel>, n: int)
    requires
        0 < n <= commands.len(),
    ensures
        risen_before(c, commands, n) == risen_before(
            absorb_model(c, commands[0]),
            commands.drop_first(),
            n - 1,
        ),
{
    let k = c.collector;
    let next = absorb_model(c, commands[0]);
    let rest = commands.drop_first();
    assert(commands.take(0) =~= Seq::empty());
    assert(level_after(k.clock, k.clock_val, commands.take(0)) == k.clock_val);
    assert(next.rising == (c.rising || rises_at(k, commands, 0)));
    if risen_before(c, commands, n) && !c.rising {
        let i = choose|i: int| 0 <= i < n && #[trigger] rises_at(k, commands, i);
        if i > 0 {
            rises_from_the_second(c, commands, i);
            assert(rises_at(next.collector, rest, i - 1));
        }
    }
    if risen_before(next, rest, n - 1) && !next.rising {
        let i = choose|i: int| 0 <= i < n - 1 && #[trigger] rises_at(next.collector, rest, i);
        rises_from_the_second(c, commands, i + 1);
        assert(rises_at(k, commands, i + 1));
    }
}

proof fn reads_on_from_the_second(c: CycleModel, commands: Seq<CommandModel>, n: int)
    requires
        reads_on(c, commands, n),
        n > 0,
    ensures
        reads_on(absorb_model(c, commands[0]), commands.drop_first(), n - 1),
        !(commands[0] is Malformed),
        !completes(c.rising, commands[0]),
{
    let next = absorb_model(c, commands[0]);
    let rest = commands.drop_first();
    assert(goes_on(c, commands, 0));
    assert(c.rising ==> risen_before(c, commands, 0));
    assert forall|m: int| 0 <= m < n - 1 implies #[trigger] goes_on(next, rest, m) by {
        assert(goes_on(c, commands, m + 1));
        risen_from_the_second(c, commands, m + 1);
    }
}

/// Reading on past commands is reading from what they lead to.
proof fn reading_goes_on(c: CycleModel, commands: Seq<CommandModel>, n: int)
    requires
        reads_on(c, commands, n),
    ensures
        read_cycle(c, commands) == read_cycle(taken_in(c, commands.take(n)), commands.skip(n)),
        taken_in(c, commands.take(n)).rising == risen_before(c, commands, n),
        taken_in(c, commands.take(n)).collector.clock_val == level_after(
            c.collector.clock,
            c.collector.clock_val,
            commands.take(n),
        ),
        c.collector.clock != c.collector.reset ==> taken_in(
            c,
            commands.take(n),
        ).collector.reset_val == level_after(
            c.collector.reset,
            c.collector.reset_val,
            commands.take(n),
        ),
        taken_in(c, commands.take(n)).collector.current_time == c.collector.current_time,
    decreases n,
{
    if n == 0 {
        assert(commands.take(0) =~= Seq::empty());
        assert(commands.skip(0) =~= commands);
    } else {
        let next = absorb_model(c, commands[0]);
        let rest = commands.drop_first();
        let prefix = commands.take(n);
        reads_on_from_the_second(c, commands, n);
        reading_goes_on(next, rest, n - 1);
        assert(prefix.drop_first() =~= rest.take(n - 1));
        assert(rest.skip(n - 1) =~= commands.skip(n));
        risen_from_the_second(c, commands, n);
        assert(prefix.take(1) =~= seq![commands[0]]);
        level_of_one(c.collector.clock, c.collector.clock_val, commands[0]);
        level_of_one(c.collector.reset, c.collector.reset_val, commands[0]);
        level_from_the_second(
            c.collector.clock,
            c.collector.clock_val,
            next.collector.clock_val,
            prefix,
        );
        if c.collector.clock != c.collector.reset {
            level_from_the_second(
                c.collector.reset,
                c.collector.reset_val,
                next.collector.reset_val,
                prefix,
            );
        }
    }
}

/// A cycle ends with the first timestamp after the clock has gone from low to high, with the trace,
/// or at what cannot be read. What comes after the end is left unread.
pub proof fn how_a_cycle_ends(c: CycleModel, commands: Seq<CommandModel>, n: int)
    requires
        stops_at(c, commands, n),
    ensures
        n == commands.len() ==> read_cycle(c, commands).outcome is Ok && read_cycle(
            c,
            commands,
        ).outcome->Ok_0.1 && read_cycle(c, commands).pending.len() == 0,
        n < commands.len() && commands[n] is Timestamp ==> read_cycle(c, commands).outcome is Ok
            && !read_cycle(c, commands).outcome->Ok_0.1 && read_cycle(c, commands).pending
            == commands.skip(n + 1),
        n < commands.len() ==> (commands[n] matches CommandModel::Malformed(message) ==> read_cycle(
            c,
            commands,
        ).outcome == Err::<(Seq<ChangeModel>, bool), Seq<char>>(message) && read_cycle(
            c,
            commands,
        ).pending == commands.skip(n + 1)),
{
    reading_goes_on(c, commands, n);
    let rest = commands.skip(n);
    if n < commands.len() {
        assert(!goes_on(c, commands, n));
        assert(rest[0] == commands[n]);
        assert(rest.drop_first() =~= commands.skip(n + 1));
    }
}

/// After a cycle the clock and the reset are at the levels that the commands of the cycle gave them
/// last.
pub proof fn levels_are_the_last_ones(c: CycleModel, commands: Seq<CommandModel>, n: int)
    requires
        stops_at(c, commands, n),
    ensures
        read_cycle(c, commands).collector.clock_val == level_after(
            c.collector.clock,
            c.collector.clock_val,
            commands.take(n),
        ),
        c.collector.clock != c.collector.reset ==> read_cycle(c, commands).collector.reset_val
            == level_after(c.collector.reset, c.collector.reset_val, commands.take(n)),
{
    reading_goes_on(c, commands, n);
    let rest = commands.skip(n);
    if n < commands.len() {
        assert(!goes_on(c, commands, n));
        assert(rest[0] == commands[n]);
    }
}

/// Reading leaves alone which signals are the clock, the reset and the probes.
pub proof fn a_cycle_keeps_what_it_watches(c: CycleModel, commands: Seq<CommandModel>)
    ensures
        read_cycle(c, commands).collector.clock == c.collector.clock,
        read_cycle(c, commands).collector.reset == c.collector.reset,
        read_cycle(c, commands).collector.probes == c.collector.probes,
    decreases commands.len(),
{
    if commands.len() > 0 {
        a_cycle_keeps_what_it_watches(absorb_model(c, commands[0]), commands.drop_first());
    }
}

proof fn same_changes(a: CollectorModel, b: CollectorModel, commands: Seq<CommandModel>)
    requires
        a.clock == b.clock,
        a.reset == b.reset,
        a.probes == b.probes,
    ensures
        signal_changes(a, commands) == signal_changes(b, commands),
        probe_changes(a, commands) == probe_changes(b, commands),
    decreases commands.len(),
{
    if commands.len() > 0 {
        same_changes(a, b, commands.drop_first());
    }
}

/// Commands without a timestamp are held back.
proof fn without_a_timestamp(c: CycleModel, commands: Seq<CommandModel>)
    requires
        forall|m: int|
            0 <= m < commands.len() ==> !((#[trigger] commands[m]) is Timestamp)
                && !(commands[m] is Malformed),
    ensures
        taken_in(c, commands).changes == c.changes,
        taken_in(c, commands).collector.held_changes == c.collector.held_changes + signal_changes(
            c.collector,
            commands,
        ),
        taken_in(c, commands).collector.probe_values == c.collector.probe_values,
        taken_in(c, commands).collector.held_probes == c.collector.held_probes + probe_changes(
            c.collector,
            commands,
        ),
    decreases commands.len(),
{
    let k = c.collector;
    if commands.len() > 0 {
        let command = commands[0];
        let rest = commands.drop_first();
        let next = absorb_model(c, command);
        assert forall|m: int| 0 <= m < rest.len() implies !((#[trigger] rest[m]) is Timestamp)
            && !(rest[m] is Malformed) by {
            assert(rest[m] == commands[m + 1]);
        }
        without_a_timestamp(next, rest);
        same_changes(k, next.collector, rest);
        assert(next.collector.held_changes =~= k.held_changes + signal_change(k, command));
        assert(next.collector.held_probes =~= k.held_probes + probe_change(k, command));
        assert(k.held_changes + signal_change(k, command) + signal_changes(k, rest)
            =~= k.held_changes + (signal_change(k, command) + signal_changes(k, rest)));
        assert(k.held_probes + probe_change(k, command) + probe_changes(k, rest) =~= k.held_probes
            + (probe_change(k, command) + probe_changes(k, rest)));
    } else {
        assert(k.held_changes + signal_changes(k, commands) =~= k.held_changes);
        assert(k.held_probes + probe_changes(k, commands) =~= k.held_probes);
    }
}

/// Before the clock rises, what was released and what is held back make up what was read.
proof fn before_the_edge(c: CycleModel, commands: Seq<CommandModel>, n: int)
    requires
        reads_on(c, commands, n),
        !risen_before(c, commands, n),
    ensures
        ({
            let k = c.collector;
            let after = taken_in(c, commands.take(n));
            &&& after.changes + after.collector.held_changes == c.changes + k.held_changes
                + signal_changes(k, commands.take(n))
            &&& apply_probes(after.collector.probe_values, after.collector.held_probes)
                == apply_probes(k.probe_values, k.held_probes + probe_changes(k, commands.take(n)))
            &&& after.collector.clock == k.clock
            &&& after.collector.reset == k.reset
            &&& after.collector.probes == k.probes
        }),
    decreases n,
{
    let k = c.collector;
    let prefix = commands.take(n);
    if n == 0 {
        assert(c.changes + k.held_changes + signal_changes(k, prefix) =~= c.changes
            + k.held_changes);
        assert(k.held_probes + probe_changes(k, prefix) =~= k.held_probes);
    } else {
        let command = commands[0];
        let rest = commands.drop_first();
        let next = absorb_model(c, command);
        reads_on_from_the_second(c, commands, n);
        risen_from_the_second(c, commands, n);
        before_the_edge(next, rest, n - 1);
        assert(prefix.drop_first() =~= rest.take(n - 1));
        let later = rest.take(n - 1);
        same_changes(k, next.collector, later);
        assert(next.changes + next.collector.held_changes =~= c.changes + k.held_changes
            + signal_change(k, command));
        assert(c.changes + k.held_changes + signal_change(k, command) + signal_changes(k, later)
            =~= c.changes + k.held_changes + signal_changes(k, prefix));
        let own = probe_change(k, command);
        let others = probe_changes(k, later);
        assert(apply_probes(next.collector.probe_values, next.collector.held_probes + others)
            == apply_probes(k.probe_values, k.held_probes + own + others)) by {
            if command is Timestamp {
                assert(next.collector.held_probes + others =~= others);
                probe_changes_add_up(k.probe_values, k.held_probes, others);
                assert(k.held_probes + own + others =~= k.held_probes + others);
            } else {
                assert(next.collector.held_probes =~= k.held_probes + own);
            }
        }
        assert(k.held_probes + own + others =~= k.held_probes + probe_changes(k, prefix));
    }
}

/// Whether a command is the last timestamp before a place.
pub open spec fn last_timestamp_before(commands: Seq<CommandModel>, t: int, n: int) -> bool {
    &&& 0 <= t < n
    &&& commands[t] is Timestamp
    &&& forall|m: int| t < m < n ==> !((#[trigger] commands[m]) is Timestamp)
}

/// Whether no timestamp stands before a place.
pub open spec fn no_timestamp_before(commands: Seq<CommandModel>, n: int) -> bool {
    forall|m: int| 0 <= m < n ==> !((#[trigger] commands[m]) is Timestamp)
}

/// Whether the trace ends before the clock rises.
pub open spec fn ends_unrisen(c: CycleModel, commands: Seq<CommandModel>, n: int) -> bool {
    n == commands.len() && !risen_before(c, commands, n)
}

/// A cycle delivers what came before the last timestamp in it, and that is what the probes show;
/// what came since that timestamp is held back.
pub proof fn a_cycle_delivers_up_to_its_last_timestamp(
    c: CycleModel,
    commands: Seq<CommandModel>,
    n: int,
    t: int,
)
    requires
        stops_at(c, commands, n),
        !ends_unrisen(c, commands, n),
        last_timestamp_before(commands, t, n),
    ensures
        ({
            let k = c.collector;
            let end = read_cycle(c, commands);
            &&& end.outcome matches Ok((changes, _)) ==> changes == c.changes + k.held_changes
                + signal_changes(k, commands.take(t))
            &&& end.collector.probe_values == apply_probes(
                k.probe_values,
                k.held_probes + probe_changes(k, commands.take(t)),
            )
            &&& end.collector.held_changes == signal_changes(k, commands.subrange(t + 1, n))
            &&& end.collector.held_probes == probe_changes(k, commands.subrange(t + 1, n))
        }),
{
    let k = c.collector;
    let between = commands.subrange(t + 1, n);
    let first = taken_in(c, commands.take(t));
    let second = absorb_model(first, commands[t]);
    assert(goes_on(c, commands, t));
    assert(reads_on(c, commands, t));
    assert(reads_on(c, commands, t + 1));
    reading_goes_on(c, commands, t);
    before_the_edge(c, commands, t);
    assert(!first.rising);
    assert forall|m: int| 0 <= m < between.len() implies !((#[trigger] between[m]) is Timestamp)
        && !(between[m] is Malformed) by {
        assert(between[m] == commands[m + t + 1]);
        assert(goes_on(c, commands, m + t + 1));
    }
    without_a_timestamp(second, between);
    same_changes(k, second.collector, between);
    taken_in_parts(c, commands.take(t), seq![commands[t]] + between);
    assert(commands.take(t) + (seq![commands[t]] + between) =~= commands.take(n));
    assert((seq![commands[t]] + between).drop_first() =~= between);
    assert((seq![commands[t]] + between)[0] == commands[t]);
    let last = taken_in(c, commands.take(n));
    assert(last == taken_in(second, between));
    assert(Seq::<ChangeModel>::empty() + signal_changes(k, between) =~= signal_changes(k, between));
    assert(Seq::<ProbeChangeModel>::empty() + probe_changes(k, between) =~= probe_changes(
        k,
        between,
    ));
    reading_goes_on(c, commands, n);
    stopping_changes_nothing(c, commands, n);
}

/// A cycle without a timestamp before its end delivers nothing more and leaves the probes alone.
pub proof fn a_cycle_without_a_timestamp_delivers_nothing(
    c: CycleModel,
    commands: Seq<CommandModel>,
    n: int,
)
    requires
        stops_at(c, commands, n),
        !ends_unrisen(c, commands, n),
        no_timestamp_before(commands, n),
    ensures
        ({
            let k = c.collector;
            let end = read_cycle(c, commands);
            &&& end.outcome matches Ok((changes, _)) ==> changes == c.changes
            &&& end.collector.probe_values == k.probe_values
            &&& end.collector.held_changes == k.held_changes + signal_changes(k, commands.take(n))
            &&& end.collector.held_probes == k.held_probes + probe_changes(k, commands.take(n))
        }),
{
    let prefix = commands.take(n);
    assert forall|m: int| 0 <= m < prefix.len() implies !((#[trigger] prefix[m]) is Timestamp)
        && !(prefix[m] is Malformed) by {
        assert(prefix[m] == commands[m]);
        assert(goes_on(c, commands, m));
    }
    without_a_timestamp(c, prefix);
    stopping_changes_nothing(c, commands, n);
}

/// Where the trace ends before the clock rises, the cycle delivers all of it, and that is what the
/// probes show.
pub proof fn the_end_of_the_trace_delivers_all(c: CycleModel, commands: Seq<CommandModel>)
    requires
        stops_at(c, commands, commands.len() as int),
        ends_unrisen(c, commands, commands.len() as int),
    ensures
        ({
            let k = c.collector;
            let end = read_cycle(c, commands);
            &&& end.outcome == Ok::<(Seq<ChangeModel>, bool), Seq<char>>(
                (c.changes + k.held_changes + signal_changes(k, commands), true),
            )
            &&& end.collector.probe_values == apply_probes(
                k.probe_values,
                k.held_probes + probe_changes(k, commands),
            )
            &&& end.collector.held_changes.len() == 0
            &&& end.collector.held_probes.len() == 0
        }),
{
    let n = commands.len() as int;
    reading_goes_on(c, commands, n);
    before_the_edge(c, commands, n);
    assert(commands.take(n) =~= commands);
    assert(commands.skip(n) =~= Seq::empty());
}

proof fn taken_in_parts(c: CycleModel, a: Seq<CommandModel>, b: Seq<CommandModel>)
    ensures
        taken_in(c, a + b) == taken_in(taken_in(c, a), b),
    decreases a.len(),
{
    if a.len() == 0 {
        assert(a + b =~= b);
    } else {
        assert((a + b).drop_first() =~= a.drop_first() + b);
        taken_in_parts(absorb_model(c, a[0]), a.drop_first(), b);
    }
}

/// Where reading stops otherwise than with an unrisen end, nothing is released.
proof fn stopping_changes_nothing(c: CycleModel, commands: Seq<CommandModel>, n: int)
    requires
        stops_at(c, commands, n),
        !ends_unrisen(c, commands, n),
    ensures
        ({
            let last = taken_in(c, commands.take(n));
            let end = read_cycle(c, commands);
            &&& end.outcome matches Ok((changes, _)) ==> changes == last.changes
            &&& end.collector.probe_values == last.collector.probe_values
            &&& end.collector.held_changes == last.collector.held_changes
            &&& end.collector.held_probes == last.collector.held_probes
        }),
{
    reading_goes_on(c, commands, n);
    let rest = commands.skip(n);
    if n < commands.len() {
        assert(!goes_on(c, commands, n));
        assert(rest[0] == commands[n]);
    }
}

/// After a cycle a probe has the last value that the trace gave it before the last timestamp of the
/// cycle; a probe that was given none keeps its value.
pub proof fn a_probe_shows_its_last_value_before_the_edge(
    c: CycleModel,
    commands: Seq<CommandModel>,
    n: int,
    t: int,
    path: Seq<char>,
    i: int,
)
    requires
        stops_at(c, commands, n),
        !ends_unrisen(c, commands, n),
        last_timestamp_before(commands, t, n),
    ensures
        ({
            let k = c.collector;
            let given = k.held_probes + probe_changes(k, commands.take(t));
            let values = read_cycle(c, commands).collector.probe_values;
            &&& 0 <= i < given.len() && given[i].path == path && unnamed_from(given, i + 1, path)
                ==> values.contains_key(path) && values[path] == given[i].value
            &&& unnamed_from(given, 0, path) ==> values.contains_key(path)
                == k.probe_values.contains_key(path) && (k.probe_values.contains_key(path)
                ==> values[path] == k.probe_values[path])
        }),
{
    let k = c.collector;
    let given = k.held_probes + probe_changes(k, commands.take(t));
    a_cycle_delivers_up_to_its_last_timestamp(c, commands, n, t);
    if 0 <= i < given.len() && given[i].path == path && unnamed_from(given, i + 1, path) {
        the_last_probe_change_counts(k.probe_values, given, i);
    }
    if unnamed_from(given, 0, path) {
        an_unnamed_probe_keeps_its_value(k.probe_values, given, path);
    }
}

/// A further bit doubles the number that a vector writes, and counts as one where it is a definite
/// high.
pub proof fn a_further_bit_doubles(bits: Seq<Value>, bit: Value)
    ensures
        bits_value(Seq::empty()) == 0,
        bits_value(bits.push(bit)) == 2 * bits_value(bits) + if bit == Value::V1 {
            1nat
        } else {
            0
        },
{
    assert(bits.push(bit).drop_last() =~= bits);
}

/// A value prints as the characters of its levels, the first level first; a text prints as itself.
pub proof fn values_print_their_levels(bits: Seq<Value>, v: Value, text: Seq<char>, i: int)
    ensures
        value_text(ValueModel::String(text)) == text,
        value_text(ValueModel::Scalar(v)).len() == 1,
        value_text(ValueModel::Scalar(v))[0] == value_text(ValueModel::Vector(seq![v]))[0],
        value_text(ValueModel::Vector(bits)).len() == bits.len(),
        0 <= i < bits.len() ==> ({
            let printed = value_text(ValueModel::Vector(bits))[i];
            &&& bits[i] == Value::V0 <==> printed == '0'
            &&& bits[i] == Value::V1 <==> printed == '1'
            &&& bits[i] == Value::X <==> printed == 'x'
            &&& bits[i] == Value::Z <==> printed == 'z'
        }),
{
}

} // verus!
