use sigtrail::errors::Error;
use sigtrail::name_map::NameMap;
use sigtrail::probes::find_probes;
use sigtrail::simulation::{bitvector_to_unsigned, SimulationValue, ValueChange};
use sigtrail::vcd_input::{Command, HeaderItem, Value};
use sigtrail::vcd_reader::{CycleCollector, CycleStep, LanguageMode, OpenCycle, VcdReader};

fn scopes() -> Vec<String> {
    vec!["TOP".to_string(), "svsimTestbench".to_string(), "dut".to_string()]
}

const HEADER: &str = "$scope module TOP $end
$scope module svsimTestbench $end
$scope module dut $end
$var wire 1 ! clock $end
$var wire 1 \" reset $end
$var wire 1 # en $end
$var wire 4 $ probe_sel $end
$comment wires of the part $end
$scope module part $end
$var wire 1 % probe_x $end
$var wire 1 & probe_y $end
$var wire 1 & y $end
$upscope $end
$upscope $end
$upscope $end
$upscope $end
$enddefinitions $end
";

fn trace(body: &str) -> Vec<u8> {
    let mut text = HEADER.to_string();
    text.push_str(body);
    text.into_bytes()
}

fn open(body: &str) -> VcdReader {
    match VcdReader::new(trace(body), scopes(), LanguageMode::Chisel) {
        Ok(reader) => reader,
        Err(error) => panic!("{:?}", error),
    }
}

fn scalar(id: &str, value: Value) -> ValueChange {
    ValueChange { id: id.to_string(), value: SimulationValue::Scalar(value) }
}

const BODY: &str = "$dumpvars
0!
1\"
0#
b0000 $
0%
$end
#0
#5
1!
1#
b1x01 '
#10
0!
#15
1!
b0011 $
1&
#20
0\"
";

#[test]
fn cycles_hold_back_what_comes_with_the_edge() {
    let mut reader = open(BODY);
    assert_eq!(reader.collector().current_time(), 0);
    assert_eq!(reader.collector().reset_val(), Value::X);

    let (changes, eof) = reader.read_cycle_changes().unwrap();
    assert!(!eof);
    assert_eq!(changes, vec![scalar("#", Value::V0)]);
    assert_eq!(reader.collector().current_time(), 1);
    assert_eq!(reader.collector().reset_val(), Value::V1);
    assert_eq!(reader.collector().probe_values().get("probe_sel"), Some(0));
    assert_eq!(reader.collector().probe_values().get("part.probe_x"), Some(0));
    assert_eq!(reader.collector().probe_values().get("part.probe_y"), None);

    let (changes, eof) = reader.read_cycle_changes().unwrap();
    assert!(!eof);
    let vector = SimulationValue::Vector(vec![Value::V1, Value::X, Value::V0, Value::V1]);
    assert_eq!(
        changes,
        vec![scalar("#", Value::V1), ValueChange { id: "'".to_string(), value: vector }]
    );
    assert_eq!(reader.collector().current_time(), 2);
    assert_eq!(reader.collector().probe_values().get("probe_sel"), Some(0));

    let (changes, eof) = reader.read_cycle_changes().unwrap();
    assert!(eof);
    assert_eq!(changes, vec![]);
    assert_eq!(reader.collector().current_time(), 3);
    assert_eq!(reader.collector().reset_val(), Value::V0);
    assert_eq!(reader.collector().probe_values().get("probe_sel"), Some(3));
    assert_eq!(reader.collector().probe_values().get("part.probe_y"), Some(1));
}

#[test]
fn the_last_cycle_gets_what_came_with_the_edge() {
    let text = "$scope module t $end $var wire 1 ! clock $end $var wire 1 % reset $end
$var wire 1 & x $end $upscope $end $enddefinitions $end #0 0! 0& #1 1! 1& #2 0!\n";
    let top = vec!["t".to_string()];
    let mut reader =
        match VcdReader::new(text.as_bytes().to_vec(), top, LanguageMode::Chisel) {
            Ok(reader) => reader,
            Err(error) => panic!("{:?}", error),
        };
    assert_eq!(reader.read_cycle_changes(), Ok((vec![scalar("&", Value::V0)], false)));
    assert_eq!(reader.read_cycle_changes(), Ok((vec![scalar("&", Value::V1)], true)));
    assert_eq!(reader.read_cycle_changes(), Ok((vec![], true)));
}

#[test]
fn a_trace_that_ends_with_an_edge_leaves_the_rest_to_the_next_cycle() {
    let mut reader = open("0!\n0#\n#0\n#1\n1!\n1#\nb0101 $\n");
    assert_eq!(reader.read_cycle_changes(), Ok((vec![scalar("#", Value::V0)], true)));
    assert_eq!(reader.collector().current_time(), 1);
    assert_eq!(reader.collector().probe_values().get("probe_sel"), None);
    assert_eq!(reader.read_cycle_changes(), Ok((vec![scalar("#", Value::V1)], true)));
    assert_eq!(reader.collector().current_time(), 2);
    assert_eq!(reader.collector().probe_values().get("probe_sel"), Some(5));
}

#[test]
fn the_collector_releases_what_it_holds_at_the_end() {
    let mut collector = match CycleCollector::new(Some("c".to_string()), Some("r".to_string()), None)
    {
        Ok(collector) => collector,
        Err(error) => panic!("{:?}", error),
    };
    let mut cycle = OpenCycle { rising_edge_found: false, changes: vec![] };
    collector.absorb(&mut cycle, Command::ChangeScalar("s".to_string(), Value::V1));
    collector.end_of_trace(&mut cycle);
    assert_eq!(cycle.changes, vec![scalar("s", Value::V1)]);
    assert_eq!(collector.current_time(), 1);
}

#[test]
fn probe_values_are_released_at_the_next_timestamp() {
    let mut reader = open("0!\n#0\nb1010 $\n1&\n#1\n1!\n#2\n");
    let (changes, eof) = reader.read_cycle_changes().unwrap();
    assert!(!eof);
    assert_eq!(changes, vec![]);
    assert_eq!(reader.collector().probe_values().get("probe_sel"), Some(10));
    assert_eq!(reader.collector().probe_values().get("part.probe_y"), Some(1));
    assert_eq!(reader.collector().probe_values().get("part.y"), None);
}

#[test]
fn a_clock_that_starts_high_does_not_rise() {
    let mut reader = open("#0\n1!\n#1\n0!\n#2\n1!\n#3\n#4\n");
    let (_, eof) = reader.read_cycle_changes().unwrap();
    assert!(!eof);
    let (_, eof) = reader.read_cycle_changes().unwrap();
    assert!(eof);
    assert_eq!(reader.collector().current_time(), 2);
}

#[test]
fn an_empty_body_is_one_cycle() {
    let mut reader = open("");
    let (changes, eof) = reader.read_cycle_changes().unwrap();
    assert!(eof);
    assert_eq!(changes, vec![]);
    assert_eq!(reader.collector().current_time(), 1);
}

#[test]
fn no_change_is_lost_between_cycles() {
    let mut reader = open("0!\n1#\n#0\n0#\n#1\n1!\nx#\n#2\n0!\nz#\n#3\n1!\n#4\n1#\n#5\n");
    let (first, _) = reader.read_cycle_changes().unwrap();
    let (second, _) = reader.read_cycle_changes().unwrap();
    let (third, eof) = reader.read_cycle_changes().unwrap();
    assert!(eof);
    assert_eq!(first, vec![scalar("#", Value::V1), scalar("#", Value::V0)]);
    assert_eq!(second, vec![scalar("#", Value::X), scalar("#", Value::Z)]);
    assert_eq!(third, vec![scalar("#", Value::V1)]);
}

#[test]
fn variables_are_found_by_their_path() {
    let reader = open("");
    assert_eq!(reader.find_var("en"), Ok("#".to_string()));
    assert_eq!(reader.find_var("part.probe_x"), Ok("%".to_string()));
    assert_eq!(
        reader.find_var("part.nothing"),
        Err(Error::VariableNotFoundError("TOP.svsimTestbench.dut.part.nothing".to_string()))
    );
}

#[test]
fn a_trace_needs_its_clock_and_reset() {
    let text = "$scope module TOP $end
$var wire 1 ! clk $end
$var wire 1 \" reset $end
$upscope $end
$enddefinitions $end
";
    let top = vec!["TOP".to_string()];
    let bytes = text.as_bytes().to_vec();
    match VcdReader::new(bytes.clone(), top.clone(), LanguageMode::Chisel) {
        Err(error) => assert_eq!(error, Error::ClockNotFoundError),
        Ok(_) => panic!("there is no clock"),
    }
    match VcdReader::new(bytes.clone(), top.clone(), LanguageMode::FIR) {
        Err(error) => assert_eq!(error, Error::ClockNotFoundError),
        Ok(_) => panic!("there is no clock"),
    }
    assert!(VcdReader::new(bytes.clone(), top, LanguageMode::SpinalHDL).is_ok());
    match VcdReader::new(bytes, vec!["OTHER".to_string()], LanguageMode::SpinalHDL) {
        Err(error) => assert_eq!(error, Error::ClockNotFoundError),
        Ok(_) => panic!("there is no such scope"),
    }
    let no_reset = "$scope module TOP $end $var wire 1 ! clk $end $upscope $end
$enddefinitions $end
";
    match VcdReader::new(
        no_reset.as_bytes().to_vec(),
        vec!["TOP".to_string()],
        LanguageMode::SpinalHDL,
    ) {
        Err(error) => assert_eq!(error, Error::ClockNotFoundError),
        Ok(_) => panic!("there is no reset"),
    }
}

#[test]
fn a_bad_header_is_an_error() {
    match VcdReader::new(b"AAAAA".to_vec(), scopes(), LanguageMode::Chisel) {
        Err(error) => assert_eq!(
            error,
            Error::TraceError("unexpected character at start of command at line 1".to_string())
        ),
        Ok(_) => panic!("that is no header"),
    }
}

#[test]
fn a_bad_command_is_an_error_and_takes_no_time() {
    let mut reader = open("0!\n#0\n?\n#1\n1!\n#2\n");
    match reader.read_cycle_changes() {
        Err(Error::TraceError(message)) => {
            assert!(message.contains("unexpected character at start of command"))
        }
        _ => panic!("that is no command"),
    }
    assert_eq!(reader.collector().current_time(), 0);
    let (_, eof) = reader.read_cycle_changes().unwrap();
    assert!(!eof);
    assert_eq!(reader.collector().current_time(), 1);
}

#[test]
fn the_collector_takes_commands_one_by_one() {
    let design = vec![HeaderItem::Var {
        reference: "probe_a".to_string(),
        code: "p".to_string(),
    }];
    let mut collector =
        match CycleCollector::new(Some("c".to_string()), Some("r".to_string()), Some(design)) {
            Ok(collector) => collector,
            Err(error) => panic!("{:?}", error),
        };
    let mut cycle = OpenCycle { rising_edge_found: false, changes: vec![] };
    let steps = vec![
        Command::ChangeScalar("c".to_string(), Value::V0),
        Command::ChangeScalar("r".to_string(), Value::V1),
        Command::ChangeScalar("p".to_string(), Value::V1),
        Command::ChangeVector("s".to_string(), vec![Value::V1, Value::V0]),
        Command::Other,
        Command::Timestamp(3),
        Command::ChangeScalar("c".to_string(), Value::V1),
    ];
    for step in steps {
        assert!(matches!(collector.absorb(&mut cycle, step), CycleStep::Continue));
    }
    assert!(cycle.rising_edge_found);
    assert_eq!(cycle.changes.len(), 1);
    assert_eq!(collector.probe_values().get("probe_a"), Some(1));
    assert!(matches!(collector.absorb(&mut cycle, Command::Timestamp(4)), CycleStep::Complete));
    assert_eq!(collector.current_time(), 1);
    match collector.absorb(&mut cycle, Command::Malformed("why".to_string())) {
        CycleStep::Failed(message) => assert_eq!(message, "why"),
        _ => panic!("the command is malformed"),
    }
}

#[test]
fn probes_are_grouped_by_code() {
    let design = vec![
        HeaderItem::Var { reference: "probe_a".to_string(), code: "1".to_string() },
        HeaderItem::Var { reference: "a".to_string(), code: "2".to_string() },
        HeaderItem::Comment,
        HeaderItem::Scope {
            identifier: "inner".to_string(),
            items: vec![
                HeaderItem::Var { reference: "probe_b".to_string(), code: "1".to_string() },
                HeaderItem::Var { reference: "my_probe_".to_string(), code: "3".to_string() },
                HeaderItem::Scope {
                    identifier: "deep".to_string(),
                    items: vec![HeaderItem::Var {
                        reference: "probe_".to_string(),
                        code: "4".to_string(),
                    }],
                },
            ],
        },
    ];
    let table = find_probes(&design);
    assert_eq!(
        table.get("1"),
        Some(&vec!["inner.probe_b".to_string(), "probe_a".to_string()])
    );
    assert_eq!(table.get("4"), Some(&vec!["inner.deep.probe_".to_string()]));
    assert_eq!(table.get("2"), None);
    assert_eq!(table.get("3"), None);
}

#[test]
fn vectors_are_read_as_numbers() {
    assert_eq!(bitvector_to_unsigned(&vec![]), 0);
    assert_eq!(bitvector_to_unsigned(&vec![Value::V1, Value::V1, Value::V0, Value::V1]), 13);
    assert_eq!(bitvector_to_unsigned(&vec![Value::V1, Value::X, Value::Z, Value::V1]), 9);
    assert_eq!(bitvector_to_unsigned(&vec![Value::V1; 64]), u64::MAX);
    assert_eq!(bitvector_to_unsigned(&vec![Value::V1; 70]), u64::MAX);
    let mut wide = vec![Value::V1];
    wide.extend(vec![Value::V0; 64]);
    assert_eq!(bitvector_to_unsigned(&wide), 0);
}

#[test]
fn values_are_printed_as_in_a_dump() {
    assert_eq!(SimulationValue::Scalar(Value::V0).text(), "0");
    assert_eq!(SimulationValue::Scalar(Value::V1).text(), "1");
    assert_eq!(SimulationValue::Scalar(Value::X).text(), "x");
    assert_eq!(SimulationValue::Scalar(Value::Z).text(), "z");
    assert_eq!(
        SimulationValue::Vector(vec![Value::V0, Value::V1, Value::X, Value::Z]).text(),
        "01xz"
    );
    assert_eq!(SimulationValue::String("IDLE".to_string()).text(), "IDLE");
    let value = SimulationValue::Vector(vec![Value::Z]);
    assert_eq!(value.clone(), value);
}

#[test]
fn printed_values_are_those_of_the_dump_reader() {
    let bits = "01xz".parse::<vcd::Vector>().unwrap();
    let own = SimulationValue::Vector(vec![Value::V0, Value::V1, Value::X, Value::Z]);
    assert_eq!(own.text(), bits.to_string());
}

#[test]
fn name_maps_are_copied_and_updated() {
    let mut map: NameMap<u64> = NameMap::new();
    assert_eq!(map.get("a"), None);
    map.insert("a".to_string(), 1);
    map.insert("b".to_string(), 2);
    map.insert("a".to_string(), 3);
    let copy = map.copy();
    let mut other: NameMap<u64> = NameMap::new();
    other.insert("b".to_string(), 4);
    other.insert("c".to_string(), 5);
    map.update_from(&other);
    assert_eq!(map.get("a"), Some(3));
    assert_eq!(map.get("b"), Some(4));
    assert_eq!(map.get("c"), Some(5));
    assert_eq!(copy.get("b"), Some(2));
    assert_eq!(copy.get("c"), None);
}
