use logic_gates::logic_gate::{Connection, ConnectionPoint};
use logic_gates::logic_gate_map::LogicGateMap;
use logic_gates::parse::{parse_text, LogicGateMapParseError};
use logic_gates::render::{MapRenderSavedState, Position};

fn read(text: &str) -> Vec<(LogicGateMap, Option<MapRenderSavedState>)> {
    match parse_text(text) {
        Ok(list) => list,
        Err(error) => panic!("unexpected error {:?}", error),
    }
}

fn fail(text: &str) -> LogicGateMapParseError {
    match parse_text(text) {
        Ok(_) => panic!("the document was read"),
        Err(error) => error,
    }
}

const NAND_DOCUMENT: &str = "version 0
define_gate nand2
inputs a b
nands n
outputs q
connections a => n in 0, b => n in 1, n out 0 => q
render_nand_gate n 300 200 the nand
";

#[test]
fn well_formed_document_gives_one_renderable_circuit() {
    let list = read(NAND_DOCUMENT);
    assert_eq!(list.len(), 1);
    let (circuit, layout) = &list[0];
    assert!(layout.is_some());
    assert_eq!(circuit.inputs().len(), 2);
    assert_eq!(circuit.outputs().len(), 1);
    assert_eq!(circuit.gates().len(), 1);
    assert_eq!(circuit.connections().len(), 3);
    assert!(circuit.is_steppable());
}

#[test]
fn parsed_circuit_is_wired_as_written() {
    let list = read(NAND_DOCUMENT);
    let circuit = &list[0].0;
    let inputs = circuit.inputs();
    let outputs = circuit.outputs();
    let gate = circuit.gates()[0];
    let slots = circuit.gate_by_id(gate).inputs();
    let out = circuit.gate_by_id(gate).outputs()[0].0;
    assert_eq!(inputs[0].0.number(), 0);
    assert_eq!(inputs[1].0.number(), 1);
    assert_eq!(gate.number(), 2);
    assert_eq!(outputs[0].0.number(), 6);
    let wires: Vec<Connection> = circuit.connections().iter().map(|entry| entry.1).collect();
    assert_eq!(
        wires,
        vec![
            Connection {
                start: ConnectionPoint::Input(inputs[0].0),
                end: ConnectionPoint::GateInput { gate, input: slots[0].0 }
            },
            Connection {
                start: ConnectionPoint::Input(inputs[1].0),
                end: ConnectionPoint::GateInput { gate, input: slots[1].0 }
            },
            Connection {
                start: ConnectionPoint::GateOutput { gate, output: out },
                end: ConnectionPoint::Output(outputs[0].0)
            },
        ]
    );
}

#[test]
fn parsed_circuit_computes_nand() {
    for (a, b, want) in [(false, false, true), (true, false, true), (false, true, true), (true, true, false)] {
        let mut list = read(NAND_DOCUMENT);
        let (mut circuit, _) = list.remove(0);
        let inputs = circuit.inputs();
        circuit.set_input(inputs[0].0, a);
        circuit.set_input(inputs[1].0, b);
        for _ in 0..5 {
            circuit = circuit.step();
        }
        assert_eq!(circuit.outputs()[0].1, want);
    }
}

#[test]
fn layout_records_what_the_render_line_says() {
    let list = read(NAND_DOCUMENT);
    let (circuit, layout) = &list[0];
    let layout = layout.as_ref().unwrap();
    let gate = circuit.gates()[0];
    assert!(layout.has_gate(gate));
    let entry = layout.gate_record(gate).unwrap();
    assert_eq!(entry.position, Position { x: 300, y: 200 });
    assert_eq!(entry.name, "the nand");
    assert!(layout.can_render(circuit));
}

#[test]
fn empty_document_misses_the_version_line() {
    assert!(matches!(fail(""), LogicGateMapParseError::MissingVersionLine));
    assert!(matches!(fail("\n  \n\t\n"), LogicGateMapParseError::MissingVersionLine));
}

#[test]
fn version_line_alone_gives_no_circuit() {
    assert!(read("version 0").is_empty());
    assert!(read("\n\nversion 0\n\n").is_empty());
    assert!(read("version 0\r\n").is_empty());
}

#[test]
fn first_line_must_name_version_zero() {
    for text in ["version 1\n", "version\n", "version x\n", "Version 0\n", "define_gate a\nversion 0\n", "version 0 \n", " version 0\n", "version  0\n", "version -0\n"] {
        match fail(text) {
            LogicGateMapParseError::InvalidVersionLine(line) => {
                assert_eq!(line, text.lines().next().unwrap());
            }
            other => panic!("unexpected error {:?} for {:?}", other, text),
        }
    }
}

#[test]
fn version_number_is_read_as_a_number() {
    assert!(read("version 00\n").is_empty());
    assert!(read("version +0\n").is_empty());
}

#[test]
fn directive_before_define_gate_has_no_current_gate() {
    for line in [
        "inputs a",
        "outputs q",
        "nands n",
        "custom_gates a = b",
        "connections a => b",
        "render_nand_gate n 1 2 name",
        "render_custom_gate n 1 2 name",
    ] {
        let text = format!("version 0\n{}\n", line);
        match fail(&text) {
            LogicGateMapParseError::NoCurrentGate(number, text) => {
                assert_eq!(number, 0);
                assert_eq!(text, line);
            }
            other => panic!("unexpected error {:?} for {:?}", other, line),
        }
    }
}

#[test]
fn error_carries_the_number_of_its_line() {
    let text = "version 0\n\ndefine_gate a\n\ninputs x\n   \nnot a directive\n";
    match fail(text) {
        LogicGateMapParseError::UnrecognisedCommand(number, line) => {
            assert_eq!(number, 2);
            assert_eq!(line, "not a directive");
        }
        other => panic!("unexpected error {:?}", other),
    }
}

#[test]
fn keyword_needs_its_space() {
    for line in ["inputs", "define_gate", "nands", "connections", "inputsa"] {
        let text = format!("version 0\ndefine_gate a\n{}\n", line);
        match fail(&text) {
            LogicGateMapParseError::UnrecognisedCommand(number, found) => {
                assert_eq!(number, 1);
                assert_eq!(found, line);
            }
            other => panic!("unexpected error {:?} for {:?}", other, line),
        }
    }
    let list = read("version 0\ndefine_gate a\ninputs \n");
    assert!(list[0].0.inputs().is_empty());
}

#[test]
fn undeclared_name_is_no_connection_point() {
    let text = "version 0\ndefine_gate a\ninputs x\noutputs q\nconnections x => q, x => nowhere\n";
    match fail(text) {
        LogicGateMapParseError::InvalidConnectionPoint(number, line, part) => {
            assert_eq!(number, 3);
            assert_eq!(line, "connections x => q, x => nowhere");
            assert_eq!(part, "nowhere");
        }
        other => panic!("unexpected error {:?}", other),
    }
}

#[test]
fn connection_points_are_checked() {
    let head = "version 0\ndefine_gate a\ninputs x\noutputs q\nnands n\n";
    for (entry, part) in [
        ("n in 2 => q", "n in 2"),
        ("n out 1 => q", "n out 1"),
        ("n inn 0 => q", "n inn 0"),
        ("n in x => q", "n in x"),
        ("n in => q", "n in"),
        ("m in 0 => q", "m in 0"),
        ("x => n in 0 1", "n in 0 1"),
        ("x => n out -1", "n out -1"),
    ] {
        let text = format!("{}connections {}\n", head, entry);
        match fail(&text) {
            LogicGateMapParseError::InvalidConnectionPoint(number, line, found) => {
                assert_eq!(number, 4);
                assert_eq!(line, format!("connections {}", entry));
                assert_eq!(found, part);
            }
            other => panic!("unexpected error {:?} for {:?}", other, entry),
        }
    }
}

#[test]
fn input_name_is_found_before_output_name() {
    let list = read("version 0\ndefine_gate a\ninputs x\noutputs x y\nconnections x => y\n");
    let circuit = &list[0].0;
    assert_eq!(
        circuit.connections()[0].1,
        Connection {
            start: ConnectionPoint::Input(circuit.inputs()[0].0),
            end: ConnectionPoint::Output(circuit.outputs()[1].0)
        }
    );
}

#[test]
fn nand_name_is_found_before_custom_gate_name() {
    let text = "version 0\ndefine_gate inner\ninputs i\noutputs o\ndefine_gate outer\nnands g\ncustom_gates g = inner\noutputs q\nconnections g out 0 => q\n";
    let list = read(text);
    let circuit = &list[1].0;
    let nand = circuit.gates()[0];
    assert_eq!(
        circuit.connections()[0].1.start,
        ConnectionPoint::GateOutput { gate: nand, output: circuit.gate_by_id(nand).outputs()[0].0 }
    );
}

#[test]
fn entry_with_wrong_number_of_parts_is_reported_with_its_parts() {
    let head = "version 0\ndefine_gate a\ninputs x\noutputs q\n";
    for (line, parts) in [
        ("connections x", vec!["x"]),
        ("connections x => q => q", vec!["x", "q", "q"]),
        ("connections x => q, =>", vec![]),
        ("custom_gates g", vec!["g"]),
        ("custom_gates g = a = b", vec!["g", "a", "b"]),
    ] {
        let text = format!("{}{}\n", head, line);
        match fail(&text) {
            LogicGateMapParseError::InvalidCustomGate(number, found, text) => {
                assert_eq!(number, 3);
                assert_eq!(found, parts);
                assert_eq!(text, line);
            }
            other => panic!("unexpected error {:?} for {:?}", other, line),
        }
    }
}

#[test]
fn empty_entries_are_skipped() {
    let list = read("version 0\ndefine_gate a\ninputs x\noutputs q\nconnections , x => q,   , \n");
    assert_eq!(list[0].0.connections().len(), 1);
}

#[test]
fn custom_gate_needs_a_defined_circuit() {
    let text = "version 0\ndefine_gate a\ncustom_gates g = missing\n";
    match fail(text) {
        LogicGateMapParseError::InvalidCustomGate(number, parts, line) => {
            assert_eq!(number, 1);
            assert_eq!(parts, vec!["g", "missing"]);
            assert_eq!(line, "custom_gates g = missing");
        }
        other => panic!("unexpected error {:?}", other),
    }
}

#[test]
fn custom_gate_cannot_use_the_circuit_being_defined() {
    let text = "version 0\ndefine_gate a\ninputs x\ncustom_gates g = a\n";
    assert!(matches!(fail(text), LogicGateMapParseError::InvalidCustomGate(2, _, _)));
}

const NOT_AND_DOCUMENT: &str = "version 0
define_gate not
inputs i
nands n
outputs q
connections i => n in 0, i => n in 1, n out 0 => q

define_gate and
inputs a b
nands n
custom_gates inv = not
outputs q
connections a => n in 0, b => n in 1, n out 0 => inv in 0, inv out 0 => q
render_nand_gate n 200 100 nand
render_custom_gate inv 400 100 not gate
";

#[test]
fn custom_gate_is_a_copy_of_the_defined_circuit() {
    let list = read(NOT_AND_DOCUMENT);
    assert_eq!(list.len(), 2);
    let (and, layout) = &list[1];
    assert!(layout.is_some());
    assert_eq!(and.gates().len(), 2);
    let custom = and.gate_by_id(and.gates()[1]);
    assert_eq!(custom.inputs(), list[0].0.inputs());
    assert_eq!(custom.outputs(), list[0].0.outputs());
    for (a, b) in [(false, false), (false, true), (true, false), (true, true)] {
        let mut circuit = and.clone();
        let inputs = circuit.inputs();
        circuit.set_input(inputs[0].0, a);
        circuit.set_input(inputs[1].0, b);
        for _ in 0..20 {
            assert!(circuit.is_steppable());
            circuit = circuit.step();
        }
        assert_eq!(circuit.outputs()[0].1, a && b);
    }
}

#[test]
fn circuits_come_in_the_order_of_the_document() {
    let list = read(NOT_AND_DOCUMENT);
    assert_eq!(list[0].0.inputs().len(), 1);
    assert_eq!(list[1].0.inputs().len(), 2);
}

#[test]
fn layout_is_absent_unless_every_gate_has_a_position() {
    let list = read(NOT_AND_DOCUMENT);
    assert!(list[0].1.is_none());
    assert!(list[1].1.is_some());
    let partly = NOT_AND_DOCUMENT.replace("render_custom_gate inv 400 100 not gate\n", "");
    let list = read(&partly);
    assert!(list[1].1.is_none());
    let without_gates = read("version 0\ndefine_gate wires\ninputs a\noutputs q\nconnections a => q\n");
    assert!(without_gates[0].1.is_some());
}

#[test]
fn custom_gate_name_starts_with_the_second_coordinate() {
    let list = read(NOT_AND_DOCUMENT);
    let (circuit, layout) = &list[1];
    let layout = layout.as_ref().unwrap();
    let gates = circuit.gates();
    let nand = layout.gate_record(gates[0]).unwrap();
    let custom = layout.gate_record(gates[1]).unwrap();
    assert_eq!(nand.name, "nand");
    assert_eq!(nand.position, Position { x: 200, y: 100 });
    assert_eq!(custom.name, "100 not gate");
    assert_eq!(custom.position, Position { x: 400, y: 100 });
}

#[test]
fn render_line_with_few_words_changes_nothing() {
    let text = "version 0\ndefine_gate a\nnands n\nrender_nand_gate n 1 2\nrender_nand_gate \t\nrender_custom_gate zzz\n";
    let list = read(text);
    assert!(list[0].1.is_none());
}

#[test]
fn render_line_is_checked() {
    let head = "version 0\ndefine_gate inner\ndefine_gate a\nnands n\ncustom_gates c = inner\n";
    for line in [
        "render_nand_gate m 1 2 name",
        "render_nand_gate c 1 2 name",
        "render_nand_gate n x 2 name",
        "render_nand_gate n 1 y name",
        "render_nand_gate n 1 -2 name",
        "render_nand_gate n 1 99999999999999999999999999 name",
        "render_custom_gate n 1 2 name",
        "render_custom_gate c 1.5 2 name",
    ] {
        let text = format!("{}{}\n", head, line);
        match fail(&text) {
            LogicGateMapParseError::InvalidRenderLine(number, found) => {
                assert_eq!(number, 4);
                assert_eq!(found, line);
            }
            other => panic!("unexpected error {:?} for {:?}", other, line),
        }
    }
}

#[test]
fn names_stay_bound_in_later_blocks() {
    let text = "version 0\ndefine_gate first\ninputs a\ndefine_gate second\noutputs q\nconnections a => q\n";
    let list = read(text);
    let first_input = list[0].0.inputs()[0].0;
    let second = &list[1].0;
    assert!(second.inputs().is_empty());
    assert_eq!(
        second.connections()[0].1,
        Connection {
            start: ConnectionPoint::Input(first_input),
            end: ConnectionPoint::Output(second.outputs()[0].0)
        }
    );
    assert!(!second.is_steppable());
}

#[test]
fn later_binding_of_a_name_replaces_the_earlier_one() {
    let text = "version 0\ndefine_gate a\ninputs x y x\noutputs q\nconnections x => q\n";
    let list = read(text);
    let circuit = &list[0].0;
    assert_eq!(circuit.connections()[0].1.start, ConnectionPoint::Input(circuit.inputs()[2].0));
}

#[test]
fn blocks_with_the_same_name_are_all_kept() {
    let text = "version 0\ndefine_gate a\ninputs x\ndefine_gate a\ninputs x y\ndefine_gate b\ncustom_gates g = a\n";
    let list = read(text);
    assert_eq!(list.len(), 3);
    assert_eq!(list[0].0.inputs().len(), 1);
    assert_eq!(list[1].0.inputs().len(), 2);
    let custom = list[2].0.gate_by_id(list[2].0.gates()[0]);
    assert_eq!(custom.input_count(), 2);
}

#[test]
fn lines_may_end_with_carriage_returns() {
    let text = NAND_DOCUMENT.replace('\n', "\r\n");
    let list = read(&text);
    let layout = list[0].1.as_ref().unwrap();
    let entry = layout.gate_record(list[0].0.gates()[0]).unwrap();
    assert_eq!(entry.name, "the nand");
}

#[test]
fn name_of_a_block_is_the_rest_of_its_line() {
    let text = "version 0\ndefine_gate two words \ndefine_gate b\ncustom_gates g = two words\n";
    assert!(matches!(fail(text), LogicGateMapParseError::InvalidCustomGate(2, _, _)));
    let text = "version 0\ndefine_gate two words\ndefine_gate b\ncustom_gates g = two words\n";
    assert_eq!(read(text).len(), 2);
}

#[test]
fn words_are_split_at_any_white_space() {
    let list = read("version 0\ndefine_gate a\ninputs  x\ty\u{2003}z \n");
    assert_eq!(list[0].0.inputs().len(), 3);
}

#[test]
fn numbers_may_carry_a_plus_sign() {
    let list = read("version 0\ndefine_gate a\nnands n\noutputs q\nconnections n out +0 => q\nrender_nand_gate n +10 020 name\n");
    let layout = list[0].1.as_ref().unwrap();
    let entry = layout.gate_record(list[0].0.gates()[0]).unwrap();
    assert_eq!(entry.position, Position { x: 10, y: 20 });
}

#[test]
fn large_coordinates_are_kept() {
    let list = read("version 0\ndefine_gate a\nnands n\nrender_nand_gate n 18446744073709551615 0 name\n");
    let layout = list[0].1.as_ref().unwrap();
    let entry = layout.gate_record(list[0].0.gates()[0]).unwrap();
    assert_eq!(entry.position, Position { x: 18446744073709551615, y: 0 });
    assert!(matches!(
        fail("version 0\ndefine_gate a\nnands n\nrender_nand_gate n 18446744073709551616 0 name\n"),
        LogicGateMapParseError::InvalidRenderLine(2, _)
    ));
}

#[test]
fn first_error_is_reported() {
    let text = "version 0\ndefine_gate a\nconnections zzz => yyy\nbad line\n";
    assert!(matches!(fail(text), LogicGateMapParseError::InvalidConnectionPoint(1, _, _)));
}
