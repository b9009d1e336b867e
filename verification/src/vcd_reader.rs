//! Reads a trace clock cycle by clock cycle.

use std::collections::VecDeque;

use vstd::hash_map::StringHashMap;
use vstd::prelude::*;

use crate::errors::Error;
use crate::name_map::NameMap;
use crate::probes::{find_probes, paths_by_code, probe_table, probes_in};
use crate::simulation::{
    bit_of, bits_value, bitvector_to_unsigned, change_models, ChangeModel, SimulationValue,
    ValueChange, ValueModel,
};
use crate::text::{copy_texts, join_dots, join_with, split_dots, split_on, texts};
use crate::vcd_input::{
    find_scope, find_var, header_items, item_contents, lookup_scope, lookup_var, next_command,
    open_trace, pending, scope_items, vcd_body, vcd_header, Command, CommandModel, HeaderItem,
    ItemModel, Value,
};

verus! {

/// Used to configure behaviour and expected paths based on the source language of the circuit.
#[derive(Debug, Clone, Copy, PartialEq, Eq, Structural)]
pub enum LanguageMode {
    Chisel,
    FIR,
    SpinalHDL,
}

/// What is known of the clock, the reset and the probes, and the changes that are held back.
pub struct CycleCollector {
    clock: String,
    reset: String,
    reset_val: Value,
    clock_val: Value,
    current_time: i64,
    /// Changes since the last timestamp.
    changes_buffer: Vec<ValueChange>,
    /// Paths of the probes of each identifier code.
    probes: StringHashMap<Vec<String>>,
    /// Current values of all probe signals.
    probe_values: NameMap<u64>,
    /// Probe changes since the last timestamp.
    probe_change_buffer: Vec<(String, u64)>,
}

/// What has been read of a clock cycle that has not ended yet.
pub struct OpenCycle {
    pub rising_edge_found: bool,
    pub changes: Vec<ValueChange>,
}

/// What a command means for the clock cycle that is being read.
pub enum CycleStep {
    /// The cycle goes on.
    Continue,
    /// The cycle is complete.
    Complete,
    /// The trace cannot be read any further.
    Failed(String),
}

/// A new value of a probe.
pub struct ProbeChangeModel {
    pub path: Seq<char>,
    pub value: u64,
}

/// Content of a [`CycleCollector`].
#[verifier::ext_equal]
pub struct CollectorModel {
    pub clock: Seq<char>,
    pub reset: Seq<char>,
    pub reset_val: Value,
    pub clock_val: Value,
    pub current_time: int,
    pub held_changes: Seq<ChangeModel>,
    pub probes: Map<Seq<char>, Seq<Seq<char>>>,
    pub probe_values: Map<Seq<char>, u64>,
    pub held_probes: Seq<ProbeChangeModel>,
}

/// A clock cycle in the making: the collector and what has been read of the cycle.
#[verifier::ext_equal]
pub struct CycleModel {
    pub collector: CollectorModel,
    pub rising: bool,
    pub changes: Seq<ChangeModel>,
}

/// What reading a clock cycle leaves behind.
#[verifier::ext_equal]
pub struct CycleEnd {
    pub collector: CollectorModel,
    /// The commands that have not been read.
    pub pending: Seq<CommandModel>,
    /// The changes of the cycle and whether the trace ended, or a message.
    pub outcome: Result<(Seq<ChangeModel>, bool), Seq<char>>,
}

/// Contents of a list of probe changes.
pub open spec fn probe_change_models(list: Seq<(String, u64)>) -> Seq<ProbeChangeModel> {
    Seq::new(list.len(), |i: int| ProbeChangeModel { path: list[i].0@, value: list[i].1 })
}

/// The probe values after a list of changes.
pub open spec fn apply_probes(
    values: Map<Seq<char>, u64>,
    changes: Seq<ProbeChangeModel>,
) -> Map<Seq<char>, u64>
    decreases changes.len(),
{
    if changes.len() == 0 {
        values
    } else {
        apply_probes(values, changes.drop_last()).insert(
            changes.last().path,
            changes.last().value,
        )
    }
}

/// The same new value for every probe of a list.
pub open spec fn set_probes(paths: Seq<Seq<char>>, value: u64) -> Seq<ProbeChangeModel> {
    Seq::new(paths.len(), |i: int| ProbeChangeModel { path: paths[i], value })
}

/// Whether a command completes the clock cycle: the first timestamp after a rising clock edge.
pub open spec fn completes(rising: bool, command: CommandModel) -> bool {
    rising && command is Timestamp
}

/// A clock cycle in the making after one more command.
///
/// A timestamp releases what was held back since the one before, unless the clock has risen: then
/// the cycle is complete, and what came with the edge is left to the next cycle.
pub open spec fn absorb_model(c: CycleModel, command: CommandModel) -> CycleModel {
    let k = c.collector;
    match command {
        CommandModel::Timestamp(_) => if c.rising {
            CycleModel {
                collector: CollectorModel { current_time: k.current_time + 1, ..k },
                ..c
            }
        } else {
            CycleModel {
                collector: CollectorModel {
                    held_changes: Seq::empty(),
                    probe_values: apply_probes(k.probe_values, k.held_probes),
                    held_probes: Seq::empty(),
                    ..k
                },
                changes: c.changes + k.held_changes,
                ..c
            }
        },
        CommandModel::ChangeScalar(id, v) => if id == k.clock {
            CycleModel {
                collector: CollectorModel { clock_val: v, ..k },
                rising: c.rising || (k.clock_val == Value::V0 && v == Value::V1),
                ..c
            }
        } else if id == k.reset {
            CycleModel { collector: CollectorModel { reset_val: v, ..k }, ..c }
        } else if k.probes.contains_key(id) {
            CycleModel {
                collector: CollectorModel {
                    held_probes: k.held_probes + set_probes(k.probes[id], bit_of(v) as u64),
                    ..k
                },
                ..c
            }
        } else {
            CycleModel {
                collector: CollectorModel {
                    held_changes: k.held_changes.push(
                        ChangeModel { id, value: ValueModel::Scalar(v) },
                    ),
                    ..k
                },
                ..c
            }
        },
        CommandModel::ChangeVector(id, bits) => if k.probes.contains_key(id) {
            CycleModel {
                collector: CollectorModel {
                    held_probes: k.held_probes + set_probes(
                        k.probes[id],
                        (bits_value(bits) % 0x1_0000_0000_0000_0000) as u64,
                    ),
                    ..k
                },
                ..c
            }
        } else {
            CycleModel {
                collector: CollectorModel {
                    held_changes: k.held_changes.push(
                        ChangeModel { id, value: ValueModel::Vector(bits) },
                    ),
                    ..k
                },
                ..c
            }
        },
        CommandModel::Other => c,
        CommandModel::Malformed(_) => c,
    }
}

/// A clock cycle in the making when the trace ends: what was held back is released as by a
/// timestamp, unless the clock has risen.
pub open spec fn end_model(c: CycleModel) -> CycleModel {
    if c.rising {
        c
    } else {
        absorb_model(c, CommandModel::Timestamp(0))
    }
}

/// Reads commands until the clock cycle is complete, the trace ends or it cannot be read.
pub open spec fn read_cycle(c: CycleModel, commands: Seq<CommandModel>) -> CycleEnd
    decreases commands.len(),
{
    if commands.len() == 0 {
        let last = end_model(c);
        CycleEnd {
            collector: CollectorModel {
                current_time: last.collector.current_time + 1,
                ..last.collector
            },
            pending: commands,
            outcome: Ok((last.changes, true)),
        }
    } else {
        let next = absorb_model(c, commands[0]);
        let rest = commands.drop_first();
        match commands[0] {
            CommandModel::Malformed(message) => CycleEnd {
                collector: next.collector,
                pending: rest,
                outcome: Err(message),
            },
            _ => if completes(c.rising, commands[0]) {
                CycleEnd {
                    collector: next.collector,
                    pending: rest,
                    outcome: Ok((next.changes, false)),
                }
            } else {
                read_cycle(next, rest)
            },
        }
    }
}

/// Reading a clock cycle moves time on by exactly one, unless the trace cannot be read; then it
/// leaves time alone.
pub proof fn a_cycle_takes_one_step(c: CycleModel, commands: Seq<CommandModel>)
    ensures
        read_cycle(c, commands).collector.current_time == c.collector.current_time + (
        if read_cycle(c, commands).outcome is Ok {
            1int
        } else {
            0
        }),
    decreases commands.len(),
{
    if commands.len() > 0 {
        a_cycle_takes_one_step(absorb_model(c, commands[0]), commands.drop_first());
    }
}

/// Reading a clock cycle uses up commands from the front of the trace: all of them where the trace
/// ends, and at least one otherwise.
pub proof fn a_cycle_uses_up_commands(c: CycleModel, commands: Seq<CommandModel>)
    ensures
        read_cycle(c, commands).pending.len() <= commands.len(),
        read_cycle(c, commands).pending == commands.skip(
            commands.len() - read_cycle(c, commands).pending.len(),
        ),
        match read_cycle(c, commands).outcome {
            Ok((_, true)) => read_cycle(c, commands).pending.len() == 0,
            _ => read_cycle(c, commands).pending.len() < commands.len(),
        },
    decreases commands.len(),
{
    let end = read_cycle(c, commands);
    if commands.len() > 0 {
        let rest = commands.drop_first();
        a_cycle_uses_up_commands(absorb_model(c, commands[0]), rest);
        assert(end.pending =~= commands.skip(commands.len() - end.pending.len()));
    } else {
        assert(end.pending =~= commands.skip(0));
    }
}

/// A clock cycle of which nothing has been read.
pub open spec fn fresh_cycle(collector: CollectorModel) -> CycleModel {
    CycleModel { collector, rising: false, changes: Seq::empty() }
}

/// The collector at the start of a trace.
pub open spec fn initial_collector(
    clock: Seq<char>,
    reset: Seq<char>,
    design: Option<Seq<ItemModel>>,
) -> CollectorModel {
    CollectorModel {
        clock,
        reset,
        reset_val: Value::X,
        clock_val: Value::X,
        current_time: 0,
        held_changes: Seq::empty(),
        probes: match design {
            Some(items) => paths_by_code(probes_in(items, Seq::empty())),
            None => Map::empty(),
        },
        probe_values: Map::empty(),
        held_probes: Seq::empty(),
    }
}

impl View for CycleCollector {
    type V = CollectorModel;

    closed spec fn view(&self) -> CollectorModel {
        CollectorModel {
            clock: self.clock@,
            reset: self.reset@,
            reset_val: self.reset_val,
            clock_val: self.clock_val,
            current_time: self.current_time as int,
            held_changes: change_models(self.changes_buffer@),
            probes: probe_table(self.probes@),
            probe_values: self.probe_values@,
            held_probes: probe_change_models(self.probe_change_buffer@),
        }
    }
}

/// Content of an open cycle with its collector.
pub open spec fn cycle_of(collector: CycleCollector, cycle: OpenCycle) -> CycleModel {
    CycleModel {
        collector: collector@,
        rising: cycle.rising_edge_found,
        changes: change_models(cycle.changes@),
    }
}

/// The contents of two lists one after the other.
proof fn changes_concat(a: Seq<ValueChange>, b: Seq<ValueChange>)
    ensures
        change_models(a + b) == change_models(a) + change_models(b),
{
    assert(change_models(a + b) =~= change_models(a) + change_models(b));
}

impl CycleCollector {
    /// The table of probe values can be copied.
    pub closed spec fn wf(self) -> bool {
        self.probe_values.wf()
    }

    /// Starts at time zero with unknown levels, given where the clock and the reset were found
    /// and what the scope of the design declares.
    pub fn new(clock: Option<String>, reset: Option<String>, design: Option<Vec<HeaderItem>>) -> (r:
        Result<CycleCollector, Error>)
        ensures
            match r {
                Ok(collector) => {
                    &&& clock matches Some(c)
                    &&& reset matches Some(d)
                    &&& collector.wf()
                    &&& collector@ == initial_collector(
                        c@,
                        d@,
                        match design {
                            Some(items) => Some(item_contents(items@)),
                            None => None,
                        },
                    )
                },
                Err(error) => error == Error::ClockNotFoundError && (clock is None || reset is None),
            },
    {
        let clock: String = match clock {
            Some(code) => code,
            None => {
                return Err(Error::ClockNotFoundError);
            },
        };
        let reset: String = match reset {
            Some(code) => code,
            None => {
                return Err(Error::ClockNotFoundError);
            },
        };
        let probes: StringHashMap<Vec<String>> = match &design {
            Some(items) => find_probes(items),
            None => StringHashMap::new(),
        };
        assert(design is None ==> probe_table(probes@) =~= Map::empty());
        let collector = CycleCollector {
            clock,
            reset,
            reset_val: Value::X,
            clock_val: Value::X,
            current_time: 0,
            changes_buffer: Vec::new(),
            probes,
            probe_values: NameMap::new(),
            probe_change_buffer: Vec::new(),
        };
        assert(change_models(collector.changes_buffer@) =~= Seq::empty());
        assert(probe_change_models(collector.probe_change_buffer@) =~= Seq::empty());
        Ok(collector)
    }

    /// The number of clock cycles that have been read.
    pub fn current_time(&self) -> (r: i64)
        ensures
            r == self@.current_time,
    {
        self.current_time
    }

    /// The level of the reset signal.
    pub fn reset_val(&self) -> (r: Value)
        ensures
            r == self@.reset_val,
    {
        self.reset_val
    }

    /// The current values of the probes.
    pub fn probe_values(&self) -> (r: &NameMap<u64>)
        requires
            self.wf(),
        ensures
            r@ == self@.probe_values,
            r.wf(),
    {
        &self.probe_values
    }

    /// Holds back a new value for each probe of a list.
    fn hold_probes(&mut self, paths: &Vec<String>, value: u64)
        requires
            old(self).wf(),
        ensures
            final(self).wf(),
            final(self)@ == (CollectorModel {
                held_probes: old(self)@.held_probes + set_probes(texts(paths@), value),
                ..old(self)@
            }),
    {
        let ghost before = probe_change_models(self.probe_change_buffer@);
        let ghost start = self@;
        let mut i: usize = 0;
        assert(before + set_probes(texts(paths@).take(0), value) =~= before);
        while i < paths.len()
            invariant
                i <= paths.len(),
                self.wf(),
                self@ == (CollectorModel {
                    held_probes: before + set_probes(texts(paths@).take(i as int), value),
                    ..start
                }),
            decreases paths.len() - i,
        {
            let ghost now = probe_change_models(self.probe_change_buffer@);
            self.probe_change_buffer.push((paths[i].clone(), value));
            assert(probe_change_models(self.probe_change_buffer@) =~= now.push(
                ProbeChangeModel { path: paths@[i as int]@, value },
            ));
            assert(set_probes(texts(paths@).take(i + 1), value) =~= set_probes(
                texts(paths@).take(i as int),
                value,
            ).push(ProbeChangeModel { path: paths@[i as int]@, value }));
            assert(now.push(ProbeChangeModel { path: paths@[i as int]@, value }) =~= before
                + set_probes(texts(paths@).take(i + 1), value));
            i = i + 1;
        }
        assert(texts(paths@).take(i as int) =~= texts(paths@));
    }

    /// Gives the probes the values that were held back.
    fn release_probes(&mut self)
        requires
            old(self).wf(),
        ensures
            final(self).wf(),
            final(self)@ == (CollectorModel {
                probe_values: apply_probes(old(self)@.probe_values, old(self)@.held_probes),
                held_probes: Seq::empty(),
                ..old(self)@
            }),
    {
        let ghost start = self@;
        let ghost held = probe_change_models(self.probe_change_buffer@);
        let mut i: usize = 0;
        assert(held.take(0) =~= Seq::empty());
        while i < self.probe_change_buffer.len()
            invariant
                i <= self.probe_change_buffer.len(),
                self.wf(),
                held == probe_change_models(self.probe_change_buffer@),
                self@ == (CollectorModel {
                    probe_values: apply_probes(start.probe_values, held.take(i as int)),
                    ..start
                }),
            decreases self.probe_change_buffer.len() - i,
        {
            let name: String = self.probe_change_buffer[i].0.clone();
            let value: u64 = self.probe_change_buffer[i].1;
            self.probe_values.insert(name, value);
            assert(held.take(i + 1).drop_last() =~= held.take(i as int));
            i = i + 1;
        }
        assert(held.take(i as int) =~= held);
        self.probe_change_buffer.clear();
        assert(probe_change_models(self.probe_change_buffer@) =~= Seq::empty());
    }

    /// Hands the changes that were held back to the cycle and gives the probes their new values.
    fn release(&mut self, cycle: &mut OpenCycle)
        requires
            old(self).wf(),
        ensures
            final(self).wf(),
            final(cycle).rising_edge_found == old(cycle).rising_edge_found,
            change_models(final(cycle).changes@) == change_models(old(cycle).changes@)
                + old(self)@.held_changes,
            final(self)@ == (CollectorModel {
                held_changes: Seq::empty(),
                probe_values: apply_probes(old(self)@.probe_values, old(self)@.held_probes),
                held_probes: Seq::empty(),
                ..old(self)@
            }),
    {
        let ghost read = cycle.changes@;
        let ghost held = self.changes_buffer@;
        cycle.changes.append(&mut self.changes_buffer);
        proof {
            changes_concat(read, held);
            assert(change_models(self.changes_buffer@) =~= Seq::empty());
        }
        self.release_probes();
    }

    /// Takes in one command of the trace.
    pub fn absorb(&mut self, cycle: &mut OpenCycle, command: Command) -> (r: CycleStep)
        requires
            old(self).wf(),
            old(self)@.current_time < i64::MAX,
        ensures
            final(self).wf(),
            cycle_of(*final(self), *final(cycle)) == absorb_model(
                cycle_of(*old(self), *old(cycle)),
                command@,
            ),
            match r {
                CycleStep::Failed(message) => command@ == CommandModel::Malformed(message@),
                CycleStep::Complete => completes(old(cycle).rising_edge_found, command@),
                CycleStep::Continue => !(command is Malformed) && !completes(
                    old(cycle).rising_edge_found,
                    command@,
                ),
            },
    {
        let ghost start = cycle_of(*self, *cycle);
        match command {
            Command::Timestamp(_) => {
                if cycle.rising_edge_found {
                    self.current_time = self.current_time + 1;
                    CycleStep::Complete
                } else {
                    self.release(cycle);
                    CycleStep::Continue
                }
            },
            Command::ChangeScalar(id, v) => {
                if id == self.clock {
                    if self.clock_val == Value::V0 && v == Value::V1 {
                        cycle.rising_edge_found = true;
                    }
                    self.clock_val = v;
                } else if id == self.reset {
                    self.reset_val = v;
                } else {
                    match self.probes.get(id.as_str()) {
                        Some(paths) => {
                            let paths: Vec<String> = copy_texts(paths);
                            let bit: u64 = if v == Value::V1 {
                                1
                            } else {
                                0
                            };
                            self.hold_probes(&paths, bit);
                        },
                        None => {
                            let ghost held = change_models(self.changes_buffer@);
                            let change = ValueChange { id, value: SimulationValue::Scalar(v) };
                            self.changes_buffer.push(change);
                            assert(change_models(self.changes_buffer@) =~= held.push(change@));
                        },
                    }
                }
                CycleStep::Continue
            },
            Command::ChangeVector(id, bits) => {
                match self.probes.get(id.as_str()) {
                    Some(paths) => {
                        let paths: Vec<String> = copy_texts(paths);
                        let value: u64 = bitvector_to_unsigned(&bits);
                        self.hold_probes(&paths, value);
                    },
                    None => {
                        let ghost held = change_models(self.changes_buffer@);
                        let change = ValueChange { id, value: SimulationValue::Vector(bits) };
                        self.changes_buffer.push(change);
                        assert(change_models(self.changes_buffer@) =~= held.push(change@));
                    },
                }
                CycleStep::Continue
            },
            Command::Other => CycleStep::Continue,
            Command::Malformed(message) => CycleStep::Failed(message),
        }
    }

    /// Ends the last clock cycle where the trace ends. What was held back belongs to it, unless it
    /// came with a rising edge of this cycle.
    pub fn end_of_trace(&mut self, cycle: &mut OpenCycle)
        requires
            old(self).wf(),
            old(self)@.current_time < i64::MAX,
        ensures
            final(self).wf(),
            ({
                let last = end_model(cycle_of(*old(self), *old(cycle)));
                cycle_of(*final(self), *final(cycle)) == (CycleModel {
                    collector: CollectorModel {
                        current_time: last.collector.current_time + 1,
                        ..last.collector
                    },
                    ..last
                })
            }),
    {
        if !cycle.rising_edge_found {
            self.release(cycle);
        }
        self.current_time = self.current_time + 1;
    }
}

/// Reads and parses a value change dump, tracking signal changes and clock edges.
pub struct VcdReader {
    parser: vcd::Parser<VecDeque<u8>>,
    /// Scopes that lead to the design under test.
    extra_scopes: Vec<String>,
    header: vcd::Header,
    collector: CycleCollector,
}

/// Content of a [`VcdReader`].
#[verifier::ext_equal]
pub struct ReaderModel {
    pub header: Seq<ItemModel>,
    pub scopes: Seq<Seq<char>>,
    pub pending: Seq<CommandModel>,
    pub collector: CollectorModel,
}

impl View for VcdReader {
    type V = ReaderModel;

    closed spec fn view(&self) -> ReaderModel {
        ReaderModel {
            header: header_items(self.header),
            scopes: texts(self.extra_scopes@),
            pending: pending(self.parser),
            collector: self.collector@,
        }
    }
}

/// What the clock is called in the source language.
pub open spec fn clock_name(mode: LanguageMode) -> Seq<char> {
    if mode == LanguageMode::SpinalHDL {
        "clk"@
    } else {
        "clock"@
    }
}

/// A reader at the start of a trace, or `None` where the header lacks the clock or the reset.
pub open spec fn initial_reader(
    header: Seq<ItemModel>,
    commands: Seq<CommandModel>,
    scopes: Seq<Seq<char>>,
    mode: LanguageMode,
) -> Option<ReaderModel> {
    match (
        lookup_var(header, scopes.push(clock_name(mode))),
        lookup_var(header, scopes.push("reset"@)),
    ) {
        (Some(clock), Some(reset)) => Some(
            ReaderModel {
                header,
                scopes,
                pending: commands,
                collector: initial_collector(clock, reset, lookup_scope(header, scopes)),
            },
        ),
        _ => None,
    }
}

/// The path in the header that a dotted path below the design stands for.
pub open spec fn full_path(scopes: Seq<Seq<char>>, hierarchy: Seq<char>) -> Seq<Seq<char>> {
    scopes + split_on(hierarchy, '.')
}

/// A reader after it has read a clock cycle.
pub open spec fn after_cycle(reader: ReaderModel) -> ReaderModel {
    let end = read_cycle(fresh_cycle(reader.collector), reader.pending);
    ReaderModel { collector: end.collector, pending: end.pending, ..reader }
}

impl VcdReader {
    /// The collector is in order.
    pub closed spec fn wf(self) -> bool {
        self.collector.wf()
    }

    /// Opens a trace and locates the clock, the reset and the probes in its header.
    pub fn new(bytes: Vec<u8>, extra_scopes: Vec<String>, language_mode: LanguageMode) -> (r: Result<
        VcdReader,
        Error,
    >)
        ensures
            match vcd_header(bytes@) {
                Err(message) => r matches Err(Error::TraceError(text)) && text@ == message,
                Ok(header) => match initial_reader(
                    header,
                    vcd_body(bytes@),
                    texts(extra_scopes@),
                    language_mode,
                ) {
                    None => r == Err::<VcdReader, Error>(Error::ClockNotFoundError),
                    Some(model) => {
                        &&& r matches Ok(reader)
                        &&& reader.wf()
                        &&& reader@ == model
                        &&& model.pending.len() <= bytes@.len()
                    },
                },
            },
    {
        let (header, parser) = match open_trace(bytes) {
            Ok(parts) => parts,
            Err(message) => {
                return Err(Error::TraceError(message));
            },
        };
        let ghost scopes = texts(extra_scopes@);
        let clock: String = match language_mode {
            LanguageMode::SpinalHDL => "clk".to_string(),
            _ => "clock".to_string(),
        };
        let mut clock_path: Vec<String> = copy_texts(&extra_scopes);
        clock_path.push(clock);
        assert(texts(clock_path@) =~= scopes.push(clock_name(language_mode)));
        let mut reset_path: Vec<String> = copy_texts(&extra_scopes);
        reset_path.push("reset".to_string());
        assert(texts(reset_path@) =~= scopes.push("reset"@));
        let design: Option<Vec<HeaderItem>> = match find_scope(&header, &extra_scopes) {
            Some(items) => Some(scope_items(items)),
            None => None,
        };
        let collector: CycleCollector = match CycleCollector::new(
            find_var(&header, &clock_path),
            find_var(&header, &reset_path),
            design,
        ) {
            Ok(collector) => collector,
            Err(error) => {
                return Err(error);
            },
        };
        Ok(VcdReader { parser, extra_scopes, header, collector })
    }

    /// The state of the clock, the reset and the probes.
    pub fn collector(&self) -> (r: &CycleCollector)
        requires
            self.wf(),
        ensures
            r@ == self@.collector,
            r.wf(),
    {
        &self.collector
    }

    /// Finds a variable of the design given a dot-separated path.
    pub fn find_var(&self, hierarchy: &str) -> (r: Result<String, Error>)
        ensures
            match lookup_var(self@.header, full_path(self@.scopes, hierarchy@)) {
                Some(code) => r matches Ok(found) && found@ == code,
                None => r matches Err(Error::VariableNotFoundError(path)) && path@ == join_with(
                    full_path(self@.scopes, hierarchy@),
                    '.',
                ),
            },
    {
        let mut path: Vec<String> = copy_texts(&self.extra_scopes);
        let mut parts: Vec<String> = split_dots(hierarchy);
        let ghost scopes = path@;
        let ghost names = parts@;
        path.append(&mut parts);
        assert(texts(path@) =~= texts(scopes) + texts(names));
        match find_var(&self.header, &path) {
            Some(code) => Ok(code),
            None => Err(Error::VariableNotFoundError(join_dots(&path))),
        }
    }

    /// Reads the trace until the next rising clock edge.
    ///
    /// Returns all changes of the clock cycle and whether the trace ended. Changes at the same
    /// timestamp as the edge are held back for the next cycle, also where that cycle ends with the
    /// trace.
    pub fn read_cycle_changes(&mut self) -> (r: Result<(Vec<ValueChange>, bool), Error>)
        requires
            old(self).wf(),
            old(self)@.collector.current_time < i64::MAX,
        ensures
            final(self).wf(),
            final(self)@ == after_cycle(old(self)@),
            match read_cycle(fresh_cycle(old(self)@.collector), old(self)@.pending).outcome {
                Ok(cycle) => r matches Ok(read) && change_models(read.0@) == cycle.0 && read.1
                    == cycle.1,
                Err(message) => r matches Err(Error::TraceError(text)) && text@ == message,
            },
    {
        let ghost start = self@;
        let mut cycle = OpenCycle { rising_edge_found: false, changes: Vec::new() };
        assert(change_models(cycle.changes@) =~= Seq::empty());
        let ghost end = read_cycle(fresh_cycle(start.collector), start.pending);
        loop
            invariant
                self.wf(),
                start == old(self)@,
                self@.header == start.header,
                self@.scopes == start.scopes,
                self@.collector.current_time < i64::MAX,
                end == read_cycle(fresh_cycle(start.collector), start.pending),
                end == read_cycle(cycle_of(self.collector, cycle), self@.pending),
            decreases self@.pending.len(),
        {
            let ghost before = self@;
            match next_command(&mut self.parser) {
                None => {
                    self.collector.end_of_trace(&mut cycle);
                    assert(self@.pending =~= before.pending);
                    return Ok((cycle.changes, true));
                },
                Some(command) => {
                    match self.collector.absorb(&mut cycle, command) {
                        CycleStep::Continue => {},
                        CycleStep::Complete => {
                            return Ok((cycle.changes, false));
                        },
                        CycleStep::Failed(message) => {
                            return Err(Error::TraceError(message));
                        },
                    }
                },
            }
        }
    }
}

} // verus!
