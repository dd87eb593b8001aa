use logic_gates::id::{Id, IdGenerator};
use logic_gates::logic_gate::{Connection, ConnectionPoint, GateCreationInfo, LogicGate};
use logic_gates::logic_gate_map::LogicGateMap;

fn settle(map: LogicGateMap, steps: usize) -> LogicGateMap {
    let mut current = map;
    for _ in 0..steps {
        assert!(current.is_steppable());
        current = current.step();
    }
    current
}

fn only_output(map: &LogicGateMap) -> bool {
    let outputs = map.outputs();
    assert_eq!(outputs.len(), 1);
    outputs[0].1
}

fn drive(map: &mut LogicGateMap, values: &[bool]) {
    let inputs = map.inputs();
    assert_eq!(inputs.len(), values.len());
    for (entry, value) in inputs.iter().zip(values.iter()) {
        map.set_input(entry.0, *value);
    }
}

fn truth_table(make: fn() -> LogicGateMap, expected: [bool; 4]) {
    let cases = [(false, false), (false, true), (true, false), (true, true)];
    for (case, want) in cases.iter().zip(expected.iter()) {
        let mut map = make();
        drive(&mut map, &[case.0, case.1]);
        let settled = settle(map, 20);
        assert_eq!(only_output(&settled), *want, "inputs {:?}", case);
    }
}

#[test]
fn generator_starts_at_zero() {
    let mut generator = IdGenerator::new();
    assert_eq!(generator.generate().number(), 0);
    assert_eq!(generator.generate().number(), 1);
    assert_eq!(generator.generate().number(), 2);
}

#[test]
fn generated_ids_are_distinct_and_increasing() {
    let mut generator = IdGenerator::new();
    let ids: Vec<Id> = (0..100).map(|_| generator.generate()).collect();
    for pair in ids.windows(2) {
        assert!(pair[0] < pair[1]);
        assert_ne!(pair[0], pair[1]);
    }
    for (i, a) in ids.iter().enumerate() {
        for b in ids.iter().skip(i + 1) {
            assert_ne!(a, b);
        }
    }
}

#[test]
fn generators_are_independent() {
    let mut first = IdGenerator::new();
    let mut second = IdGenerator::new();
    first.generate();
    first.generate();
    assert_eq!(second.generate().number(), 0);
    assert_eq!(first.clone().generate().number(), 2);
}

#[test]
fn nand_truth_table() {
    let cases = [
        (true, true, false),
        (true, false, true),
        (false, true, true),
        (false, false, true),
    ];
    for (a, b, want) in cases {
        let mut map = LogicGateMap::empty();
        let info = map.create_nand_gate();
        let (first, second, out) = match (info.input_connection(0), info.input_connection(1), info.output_connection(0)) {
            (
                ConnectionPoint::GateInput { input: first, .. },
                ConnectionPoint::GateInput { input: second, .. },
                ConnectionPoint::GateOutput { output, .. },
            ) => (first, second, output),
            other => panic!("unexpected points {:?}", other),
        };
        let mut gate = map.gate_by_id(info.gate_id()).clone();
        gate.set_input(first, a);
        gate.set_input(second, b);
        let stepped = gate.step();
        assert_eq!(stepped.get_output(out), Some(want));
        assert_eq!(stepped.get_input(first), Some(a));
        assert_eq!(stepped.get_input(second), Some(b));
    }
}

#[test]
fn fresh_nand_gate_has_false_inputs_and_true_output() {
    let mut map = LogicGateMap::empty();
    let info = map.create_nand_gate();
    assert_eq!(info.gate_id().number(), 0);
    assert_eq!(info.input_count(), 2);
    assert_eq!(info.output_count(), 1);
    let gate = map.gate_by_id(info.gate_id());
    let inputs = gate.inputs();
    let outputs = gate.outputs();
    assert_eq!(inputs.len(), 2);
    assert_eq!(inputs[0].0.number(), 1);
    assert_eq!(inputs[1].0.number(), 2);
    assert!(!inputs[0].1 && !inputs[1].1);
    assert_eq!(outputs.len(), 1);
    assert_eq!(outputs[0].0.number(), 3);
    assert!(outputs[0].1);
    assert_eq!(gate.input_count(), 2);
    assert_eq!(gate.output_count(), 1);
    assert_eq!(gate.get_input_index(inputs[0].0), 0);
    assert_eq!(gate.get_input_index(inputs[1].0), 1);
    assert_eq!(gate.get_output_index(outputs[0].0), 0);
}

#[test]
fn nand_slots_are_listed_in_ascending_order_and_indexed_as_declared() {
    let mut generator = IdGenerator::new();
    let low = generator.generate();
    let high = generator.generate();
    let out = generator.generate();
    let gate = LogicGate::Nand { inputs: [(high, true), (low, false)], output: (out, true) };
    let listed = gate.inputs();
    assert_eq!(listed, vec![(low, false), (high, true)]);
    assert_eq!(gate.get_input_index(high), 0);
    assert_eq!(gate.get_input_index(low), 1);
}

#[test]
fn gate_ignores_unknown_slots() {
    let mut map = LogicGateMap::empty();
    let info = map.create_nand_gate();
    let unknown = map.create_input();
    let mut gate = map.gate_by_id(info.gate_id()).clone();
    assert_eq!(gate.get_input(unknown), None);
    assert_eq!(gate.get_output(unknown), None);
    gate.set_input(unknown, true);
    gate.set_output(unknown, false);
    assert_eq!(gate.inputs(), map.gate_by_id(info.gate_id()).inputs());
    assert_eq!(gate.outputs(), map.gate_by_id(info.gate_id()).outputs());

    let mut custom = LogicGate::Custom(LogicGateMap::not_gate());
    let before_inputs = custom.inputs();
    let before_outputs = custom.outputs();
    let mut far = IdGenerator::new();
    let mut stranger = far.generate();
    for _ in 0..50 {
        stranger = far.generate();
    }
    assert_eq!(custom.get_input(stranger), None);
    assert_eq!(custom.get_output(stranger), None);
    custom.set_input(stranger, true);
    custom.set_output(stranger, true);
    assert_eq!(custom.inputs(), before_inputs);
    assert_eq!(custom.outputs(), before_outputs);
}

#[test]
fn custom_gate_slots_follow_the_inner_circuit() {
    let custom = LogicGate::Custom(LogicGateMap::and_gate());
    assert_eq!(custom.input_count(), 2);
    assert_eq!(custom.output_count(), 1);
    let inputs = custom.inputs();
    let outputs = custom.outputs();
    assert_eq!(inputs[0].0.number(), 0);
    assert_eq!(inputs[1].0.number(), 1);
    assert_eq!(outputs[0].0.number(), 10);
    assert_eq!(custom.get_input_index(inputs[0].0), 0);
    assert_eq!(custom.get_input_index(inputs[1].0), 1);
    assert_eq!(custom.get_output_index(outputs[0].0), 0);
    assert_eq!(custom.get_input(inputs[1].0), Some(false));
    let mut changed = custom.clone();
    changed.set_input(inputs[1].0, true);
    assert_eq!(changed.get_input(inputs[1].0), Some(true));
    assert_eq!(changed.get_input(inputs[0].0), Some(false));
}

#[test]
fn gate_creation_info_sorts_its_lists() {
    let mut generator = IdGenerator::new();
    let ids: Vec<Id> = (0..5).map(|_| generator.generate()).collect();
    let info = GateCreationInfo::new(ids[4], vec![ids[3], ids[1], ids[2]], vec![ids[2], ids[0]]);
    assert_eq!(info.gate_id(), ids[4]);
    assert_eq!(info.input_count(), 3);
    assert_eq!(info.output_count(), 2);
    assert_eq!(
        info.input_connection(0),
        ConnectionPoint::GateInput { gate: ids[4], input: ids[1] }
    );
    assert_eq!(
        info.input_connection(1),
        ConnectionPoint::GateInput { gate: ids[4], input: ids[2] }
    );
    assert_eq!(
        info.input_connection(2),
        ConnectionPoint::GateInput { gate: ids[4], input: ids[3] }
    );
    assert_eq!(
        info.output_connection(0),
        ConnectionPoint::GateOutput { gate: ids[4], output: ids[0] }
    );
    assert_eq!(
        info.output_connection(1),
        ConnectionPoint::GateOutput { gate: ids[4], output: ids[2] }
    );
    let copy = info.clone();
    assert_eq!(copy.input_connection(2), info.input_connection(2));
}

#[test]
fn connection_from_pair() {
    let mut generator = IdGenerator::new();
    let a = ConnectionPoint::Input(generator.generate());
    let b = ConnectionPoint::Output(generator.generate());
    let connection = Connection::from((a, b));
    assert_eq!(connection, Connection { start: a, end: b });
}

#[test]
fn empty_circuit_has_nothing() {
    let map = LogicGateMap::empty();
    assert!(map.inputs().is_empty());
    assert!(map.outputs().is_empty());
    assert!(map.middle_signals().is_empty());
    assert!(map.connections().is_empty());
    assert!(map.gates().is_empty());
    assert!(map.is_steppable());
    let next = map.step();
    assert!(next.inputs().is_empty());
    assert!(next.gates().is_empty());
}

#[test]
fn creation_allocates_identifiers_in_a_row() {
    let mut map = LogicGateMap::empty();
    let input = map.create_input();
    let output = map.create_output();
    let nand = map.create_nand_gate();
    let custom = map.create_custom_gate(LogicGateMap::not_gate());
    let wire = map.create_connection((ConnectionPoint::Input(input), ConnectionPoint::Output(output)));
    assert_eq!(input.number(), 0);
    assert_eq!(output.number(), 1);
    assert_eq!(nand.gate_id().number(), 2);
    assert_eq!(custom.gate_id().number(), 6);
    assert_eq!(wire.number(), 7);
    assert_eq!(map.inputs(), vec![(input, false)]);
    assert_eq!(map.outputs(), vec![(output, false)]);
    assert_eq!(map.gates(), vec![nand.gate_id(), custom.gate_id()]);
    assert_eq!(
        map.connections(),
        vec![(
            wire,
            Connection { start: ConnectionPoint::Input(input), end: ConnectionPoint::Output(output) }
        )]
    );
    assert!(map.has_gate(nand.gate_id()));
    assert!(!map.has_gate(input));
    assert_eq!(map.input_by_id(input), false);
    assert_eq!(map.output_by_id(output), false);
}

#[test]
fn custom_gate_record_uses_the_inner_identifiers() {
    let mut map = LogicGateMap::empty();
    map.create_input();
    map.create_input();
    map.create_input();
    let custom = map.create_custom_gate(LogicGateMap::sr_latch());
    assert_eq!(custom.input_count(), 2);
    assert_eq!(custom.output_count(), 2);
    let inner = LogicGateMap::sr_latch();
    let inner_inputs = inner.inputs();
    let inner_outputs = inner.outputs();
    assert_eq!(
        custom.input_connection(1),
        ConnectionPoint::GateInput { gate: custom.gate_id(), input: inner_inputs[1].0 }
    );
    assert_eq!(
        custom.output_connection(1),
        ConnectionPoint::GateOutput { gate: custom.gate_id(), output: inner_outputs[1].0 }
    );
}

#[test]
fn set_input_and_set_output_overwrite_or_add() {
    let mut map = LogicGateMap::empty();
    let a = map.create_input();
    let q = map.create_output();
    map.set_input(a, true);
    map.set_output(q, true);
    assert_eq!(map.input_by_id(a), true);
    assert_eq!(map.output_by_id(q), true);
    let mut other = IdGenerator::new();
    let mut far = other.generate();
    for _ in 0..9 {
        far = other.generate();
    }
    map.set_input(far, true);
    assert_eq!(map.inputs(), vec![(a, false).0].iter().map(|id| (*id, true)).chain([(far, true)]).collect::<Vec<_>>());
    assert_eq!(map.input_by_id(far), true);
}

#[test]
fn connection_point_values_are_read_from_the_right_table() {
    let mut map = LogicGateMap::empty();
    let a = map.create_input();
    let q = map.create_output();
    let nand = map.create_nand_gate();
    map.set_input(a, true);
    assert!(map.connection_point_value(&ConnectionPoint::Input(a)));
    assert!(!map.connection_point_value(&ConnectionPoint::Output(q)));
    assert!(!map.connection_point_value(&nand.input_connection(0)));
    assert!(map.connection_point_value(&nand.output_connection(0)));
    assert!(map.has_connection_point(&ConnectionPoint::Input(a)));
    assert!(!map.has_connection_point(&ConnectionPoint::Output(a)));
    assert!(!map.has_connection_point(&ConnectionPoint::MiddleSignal(a)));
    assert!(!map.has_connection_point(&ConnectionPoint::GateInput { gate: nand.gate_id(), input: a }));
}

#[test]
fn step_leaves_the_receiver_unchanged() {
    let mut map = LogicGateMap::not_gate();
    let input = map.inputs()[0].0;
    map.set_input(input, true);
    let before_inputs = map.inputs();
    let before_outputs = map.outputs();
    let _next = map.step();
    assert_eq!(map.inputs(), before_inputs);
    assert_eq!(map.outputs(), before_outputs);
}

#[test]
fn step_reads_the_state_of_before_the_step() {
    // a -> b -> c as a chain of outputs: one step moves each value one link on.
    let mut map = LogicGateMap::empty();
    let a = map.create_input();
    let b = map.create_output();
    let c = map.create_output();
    map.create_connection((ConnectionPoint::Input(a), ConnectionPoint::Output(b)));
    map.create_connection((ConnectionPoint::Output(b), ConnectionPoint::Output(c)));
    map.set_input(a, true);
    let one = map.step();
    assert_eq!(one.output_by_id(b), true);
    assert_eq!(one.output_by_id(c), false);
    let two = one.step();
    assert_eq!(two.output_by_id(c), true);
}

#[test]
fn later_connection_wins_on_a_shared_end() {
    let mut map = LogicGateMap::empty();
    let low = map.create_input();
    let high = map.create_input();
    let q = map.create_output();
    map.set_input(high, true);
    map.create_connection((ConnectionPoint::Input(high), ConnectionPoint::Output(q)));
    map.create_connection((ConnectionPoint::Input(low), ConnectionPoint::Output(q)));
    assert_eq!(map.step().output_by_id(q), false);

    let mut other = LogicGateMap::empty();
    let low = other.create_input();
    let high = other.create_input();
    let q = other.create_output();
    other.set_input(high, true);
    other.create_connection((ConnectionPoint::Input(low), ConnectionPoint::Output(q)));
    other.create_connection((ConnectionPoint::Input(high), ConnectionPoint::Output(q)));
    assert_eq!(other.step().output_by_id(q), true);
}

#[test]
fn connection_to_gate_output_overrides_the_gate() {
    // Two NAND gates with false inputs would each compute true. A connection
    // carries a false input to the output of the second gate.
    let mut map = LogicGateMap::empty();
    let source = map.create_input();
    let first = map.create_nand_gate();
    let second = map.create_nand_gate();
    map.create_connection((ConnectionPoint::Input(source), second.output_connection(0)));
    assert!(map.is_steppable());
    let next = map.step();
    assert!(next.connection_point_value(&first.output_connection(0)));
    assert!(!next.connection_point_value(&second.output_connection(0)));

    map.set_input(source, true);
    let mut gate_inputs = map.clone();
    gate_inputs.create_connection((ConnectionPoint::Input(source), second.input_connection(0)));
    gate_inputs.create_connection((ConnectionPoint::Input(source), second.input_connection(1)));
    let settled = gate_inputs.step().step();
    // this gate itself would now compute false, the connection still writes true
    assert!(settled.connection_point_value(&second.output_connection(0)));
}

#[test]
fn step_needs_existing_points() {
    let mut map = LogicGateMap::empty();
    let a = map.create_input();
    let nand = map.create_nand_gate();
    map.create_connection((ConnectionPoint::Output(a), ConnectionPoint::Input(a)));
    assert!(!map.is_steppable());

    let mut map = LogicGateMap::empty();
    let a = map.create_input();
    map.create_connection((ConnectionPoint::Input(a), ConnectionPoint::GateInput { gate: a, input: a }));
    assert!(!map.is_steppable());

    let mut map = LogicGateMap::empty();
    let a = map.create_input();
    map.create_connection((ConnectionPoint::Input(a), ConnectionPoint::MiddleSignal(a)));
    assert!(map.is_steppable());
    let next = map.step();
    assert_eq!(next.middle_signals(), vec![(a, false)]);
    assert_eq!(next.middle_signal_by_id(a), false);
    let _ = nand;
}

#[test]
fn nested_circuits_are_checked_for_stepping() {
    let mut inner = LogicGateMap::empty();
    let a = inner.create_input();
    inner.create_connection((ConnectionPoint::Output(a), ConnectionPoint::Input(a)));
    let mut outer = LogicGateMap::empty();
    outer.create_custom_gate(inner);
    assert!(!outer.is_steppable());
}

#[test]
fn standard_circuits_have_the_expected_shape() {
    let shapes: [(fn() -> LogicGateMap, usize, usize, usize, usize); 6] = [
        (LogicGateMap::not_gate, 1, 1, 1, 3),
        (LogicGateMap::and_gate, 2, 1, 2, 5),
        (LogicGateMap::or_gate, 2, 1, 3, 5),
        (LogicGateMap::nor_gate, 2, 1, 3, 5),
        (LogicGateMap::sr_latch, 2, 2, 2, 6),
        (LogicGateMap::d_latch, 2, 1, 4, 8),
    ];
    for (make, inputs, outputs, gates, connections) in shapes {
        let map = make();
        assert_eq!(map.inputs().len(), inputs);
        assert_eq!(map.outputs().len(), outputs);
        assert_eq!(map.gates().len(), gates);
        assert_eq!(map.connections().len(), connections);
        assert!(map.middle_signals().is_empty());
        assert!(map.is_steppable());
        assert!(map.inputs().iter().all(|entry| !entry.1));
        assert!(map.outputs().iter().all(|entry| !entry.1));
    }
}

#[test]
fn not_gate_wiring() {
    let map = LogicGateMap::not_gate();
    let input = map.inputs()[0].0;
    let output = map.outputs()[0].0;
    let gate = map.gates()[0];
    let slots = map.gate_by_id(gate).inputs();
    let out = map.gate_by_id(gate).outputs()[0].0;
    let wires: Vec<Connection> = map.connections().iter().map(|entry| entry.1).collect();
    assert_eq!(
        wires,
        vec![
            Connection {
                start: ConnectionPoint::Input(input),
                end: ConnectionPoint::GateInput { gate, input: slots[0].0 }
            },
            Connection {
                start: ConnectionPoint::Input(input),
                end: ConnectionPoint::GateInput { gate, input: slots[1].0 }
            },
            Connection {
                start: ConnectionPoint::GateOutput { gate, output: out },
                end: ConnectionPoint::Output(output)
            },
        ]
    );
}

#[test]
fn not_gate_end_to_end() {
    for value in [true, false] {
        let mut map = LogicGateMap::not_gate();
        drive(&mut map, &[value]);
        let settled = settle(map, 10);
        assert_eq!(only_output(&settled), !value);
    }
}

#[test]
fn not_gate_settles_in_three_steps() {
    let mut map = LogicGateMap::not_gate();
    drive(&mut map, &[true]);
    // the NAND gate starts with a true output, so the output first goes true
    let one = map.step();
    assert_eq!(only_output(&one), true);
    let two = one.step();
    assert_eq!(only_output(&two), true);
    let three = two.step();
    assert_eq!(only_output(&three), false);
}

#[test]
fn and_gate_truth_table() {
    truth_table(LogicGateMap::and_gate, [false, false, false, true]);
}

#[test]
fn or_gate_truth_table() {
    truth_table(LogicGateMap::or_gate, [false, true, true, true]);
}

#[test]
fn nor_gate_truth_table() {
    truth_table(LogicGateMap::nor_gate, [true, false, false, false]);
}

fn latch_outputs(map: &LogicGateMap) -> (bool, bool) {
    let outputs = map.outputs();
    assert_eq!(outputs.len(), 2);
    (outputs[0].1, outputs[1].1)
}

#[test]
fn sr_latch_keeps_its_state_after_a_pulse() {
    let mut map = LogicGateMap::sr_latch();
    // pulse the first input
    drive(&mut map, &[true, false]);
    let mut map = settle(map, 40);
    let pulsed = latch_outputs(&map);
    drive(&mut map, &[false, false]);
    let mut map = settle(map, 40);
    let held = latch_outputs(&map);
    assert_eq!(held, pulsed);
    assert_ne!(held.0, held.1);
    // pulse the second input: the latch flips, and holds again
    drive(&mut map, &[false, true]);
    let mut map = settle(map, 40);
    let flipped = latch_outputs(&map);
    assert_eq!(flipped, (held.1, held.0));
    drive(&mut map, &[false, false]);
    let map = settle(map, 40);
    assert_eq!(latch_outputs(&map), flipped);
}

#[test]
fn sr_latch_first_input_clears_the_first_output() {
    // The first output is the NOR of the first input and the second output,
    // so a pulse on the first input leaves the first output false.
    let mut map = LogicGateMap::sr_latch();
    drive(&mut map, &[true, false]);
    let mut map = settle(map, 40);
    drive(&mut map, &[false, false]);
    let map = settle(map, 40);
    assert_eq!(latch_outputs(&map), (false, true));
}

#[test]
fn sr_latch_second_input_sets_the_first_output() {
    let mut map = LogicGateMap::sr_latch();
    drive(&mut map, &[false, true]);
    let mut map = settle(map, 40);
    drive(&mut map, &[false, false]);
    let map = settle(map, 40);
    assert_eq!(latch_outputs(&map), (true, false));
}

#[test]
fn d_latch_follows_data_while_enabled_and_holds_otherwise() {
    let mut map = LogicGateMap::d_latch();
    drive(&mut map, &[true, true]);
    let mut map = settle(map, 60);
    let with_one = only_output(&map);
    drive(&mut map, &[true, false]);
    let mut map = settle(map, 60);
    assert_eq!(only_output(&map), with_one);
    drive(&mut map, &[false, false]);
    let mut map = settle(map, 60);
    assert_eq!(only_output(&map), with_one);
    drive(&mut map, &[false, true]);
    let mut map = settle(map, 60);
    let with_zero = only_output(&map);
    assert_ne!(with_zero, with_one);
    drive(&mut map, &[true, false]);
    let map = settle(map, 60);
    assert_eq!(only_output(&map), with_zero);
}

#[test]
fn clone_is_independent() {
    let mut map = LogicGateMap::and_gate();
    let copy = map.clone();
    let input = map.inputs()[0].0;
    map.set_input(input, true);
    assert_eq!(copy.input_by_id(input), false);
    assert_eq!(map.input_by_id(input), true);
}

#[test]
fn inputs_can_be_changed_in_place() {
    let mut map = LogicGateMap::and_gate();
    assert_eq!(*map.inputs_mut(1), false);
    *map.inputs_mut(1) = true;
    let inputs = map.inputs();
    assert_eq!(inputs[0].1, false);
    assert_eq!(inputs[1].1, true);
    let toggled = !*map.inputs_mut(1);
    *map.inputs_mut(1) = toggled;
    assert_eq!(map.inputs()[1].1, false);
}

#[test]
fn circuit_counts_its_identifiers() {
    assert_eq!(LogicGateMap::empty().identifiers_used(), 0);
    assert_eq!(LogicGateMap::not_gate().identifiers_used(), 9);
    assert_eq!(LogicGateMap::and_gate().identifiers_used(), 16);
    assert_eq!(LogicGateMap::or_gate().identifiers_used(), 14);
    assert_eq!(LogicGateMap::nor_gate().identifiers_used(), 11);
    assert_eq!(LogicGateMap::sr_latch().identifiers_used(), 12);
    assert_eq!(LogicGateMap::d_latch().identifiers_used(), 15);
    let mut generator = IdGenerator::new();
    generator.generate();
    assert_eq!(generator.issued_count(), 1);
}

#[test]
fn step_keeps_elements_and_connections() {
    let mut map = LogicGateMap::d_latch();
    drive(&mut map, &[true, true]);
    let next = settle(map.clone(), 7);
    assert_eq!(next.gates(), map.gates());
    assert_eq!(next.connections(), map.connections());
    assert_eq!(next.inputs(), map.inputs());
    assert_eq!(next.identifiers_used(), map.identifiers_used());
    assert!(next.is_steppable());
}

fn settles_within(make: fn() -> LogicGateMap, steps: usize, expected: fn(bool, bool) -> bool) {
    let cases = [(false, false), (false, true), (true, false), (true, true)];
    // from every settled state to every other input pair
    for before in cases {
        for after in cases {
            let mut map = make();
            drive(&mut map, &[before.0, before.1]);
            let mut map = settle(map, 40);
            drive(&mut map, &[after.0, after.1]);
            let map = settle(map, steps);
            assert_eq!(only_output(&map), expected(after.0, after.1), "{:?} -> {:?}", before, after);
            let later = settle(map.clone(), 1);
            assert_eq!(later.outputs(), map.outputs());
            assert_eq!(later.inputs(), map.inputs());
        }
    }
}

#[test]
fn and_gate_settles_within_five_steps() {
    settles_within(LogicGateMap::and_gate, 5, |a, b| a && b);
}

#[test]
fn or_gate_settles_within_seven_steps() {
    settles_within(LogicGateMap::or_gate, 7, |a, b| a || b);
}

#[test]
fn nor_gate_settles_within_eleven_steps() {
    settles_within(LogicGateMap::nor_gate, 11, |a, b| !(a || b));
}

#[test]
fn sr_latch_settles_within_thirty_six_steps() {
    for (set, reset) in [(true, false), (false, true)] {
        for (old_set, old_reset) in [(true, false), (false, true), (false, false), (true, true)] {
            let mut map = LogicGateMap::sr_latch();
            drive(&mut map, &[old_set, old_reset]);
            let mut map = settle(map, 50);
            drive(&mut map, &[set, reset]);
            let mut map = settle(map, 36);
            assert_eq!(latch_outputs(&map), (reset, set));
            drive(&mut map, &[false, false]);
            for _ in 0..60 {
                map = map.step();
                assert_eq!(latch_outputs(&map), (reset, set));
            }
        }
    }
}
