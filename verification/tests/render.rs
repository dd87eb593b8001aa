use logic_gates::id::{Id, IdGenerator};
use logic_gates::logic_gate::ConnectionPoint;
use logic_gates::logic_gate_map::LogicGateMap;
use logic_gates::parse::parse_text;
use logic_gates::render::{
    colour_of, CircleCollider, Colour, MapRenderSavedState, Position, Shape, GATE_WIDTH,
    PORT_RADIUS, PORT_SPACING,
    REACH, STROKE_WIDTH,
};

fn at(x: i128, y: i128) -> Position {
    Position { x, y }
}

fn circle(center: Position, on: bool) -> Shape {
    Shape::Circle { center, radius: 20, colour: if on { Colour::Green } else { Colour::Red } }
}

fn line(from: Position, to: Position, on: bool) -> Shape {
    Shape::Line { from, to, width: 3, colour: if on { Colour::Green } else { Colour::Red } }
}

fn frame(center: Position, height: i128) -> Shape {
    Shape::Frame { center, width: 100, height, stroke: 3, colour: Colour::LightGray }
}

fn ids(count: usize) -> Vec<Id> {
    let mut generator = IdGenerator::new();
    (0..count).map(|_| generator.generate()).collect()
}

const DOCUMENT: &str = "version 0
define_gate not
inputs i
nands n
outputs q
connections i => n in 0, i => n in 1, n out 0 => q
define_gate shown
inputs a b
nands n
custom_gates inv = not
outputs q
connections a => n in 0, b => n in 1, n out 0 => inv in 0, inv out 0 => q
render_nand_gate n 200 100 nand
render_custom_gate inv 400 300 not
";

fn shown() -> (LogicGateMap, MapRenderSavedState) {
    let mut list = parse_text(DOCUMENT).unwrap();
    let (circuit, layout) = list.remove(1);
    (circuit, layout.unwrap())
}

#[test]
fn true_is_green_and_false_is_red() {
    assert_eq!(colour_of(true), Colour::Green);
    assert_eq!(colour_of(false), Colour::Red);
}

#[test]
fn constants() {
    assert_eq!(PORT_RADIUS, 20);
    assert_eq!(GATE_WIDTH, 100);
    assert_eq!(STROKE_WIDTH, 3);
    assert_eq!(PORT_SPACING, 70);
    assert_eq!(REACH, 1i128 << 100);
}

#[test]
fn new_layout_is_empty() {
    let layout = MapRenderSavedState::new();
    let id = ids(1)[0];
    assert!(!layout.has_gate(id));
    assert!(layout.gate_record(id).is_none());
    assert!(layout.can_render(&LogicGateMap::empty()));
    let other = MapRenderSavedState::default();
    assert!(!other.has_gate(id));
}

#[test]
fn inputs_are_stacked_on_the_left() {
    let ids = ids(3);
    let mut layout = MapRenderSavedState::new();
    layout.add_input(ids[2]);
    layout.add_input(ids[0]);
    layout.add_input(ids[1]);
    assert_eq!(layout.input_position(ids[2]), at(30, 30));
    assert_eq!(layout.input_position(ids[0]), at(30, 100));
    assert_eq!(layout.input_position(ids[1]), at(30, 170));
}

#[test]
fn outputs_are_stacked_on_the_right() {
    let ids = ids(3);
    let mut layout = MapRenderSavedState::new();
    layout.add_output(ids[1]);
    layout.add_output(ids[2]);
    assert_eq!(layout.output_position(ids[1], 600), at(570, 30));
    assert_eq!(layout.output_position(ids[2], 600), at(570, 100));
    assert_eq!(layout.output_position(ids[2], 0), at(-30, 100));
}

#[test]
fn first_listing_of_a_port_counts() {
    let ids = ids(2);
    let mut layout = MapRenderSavedState::new();
    layout.add_input(ids[0]);
    layout.add_input(ids[1]);
    layout.add_input(ids[0]);
    assert_eq!(layout.input_position(ids[0]), at(30, 30));
}

#[test]
fn gate_records_are_replaced() {
    let ids = ids(2);
    let mut layout = MapRenderSavedState::new();
    layout.add_gate(ids[1], at(5, 6), "first".to_string());
    layout.add_gate(ids[0], at(1, 2), "other".to_string());
    layout.add_gate(ids[1], at(7, 8), "second".to_string());
    assert!(layout.has_gate(ids[0]) && layout.has_gate(ids[1]));
    let entry = layout.gate_record(ids[1]).unwrap();
    assert_eq!(entry.position, at(7, 8));
    assert_eq!(entry.name, "second");
    let copy = layout.clone();
    assert_eq!(copy.gate_record(ids[0]).unwrap().name, "other");
}

#[test]
fn nand_pins() {
    let (circuit, layout) = shown();
    let nand = circuit.gates()[0];
    let gate = circuit.gate_by_id(nand);
    let inputs = gate.inputs();
    let outputs = gate.outputs();
    // two inputs: a band of height 80 around y = 100
    assert_eq!(layout.gate_input_position(&circuit, nand, inputs[0].0), at(150, 80));
    assert_eq!(layout.gate_input_position(&circuit, nand, inputs[1].0), at(150, 120));
    // one output: a band of height 40
    assert_eq!(layout.gate_output_position(&circuit, nand, outputs[0].0), at(250, 100));
}

#[test]
fn custom_gate_pins() {
    let (circuit, layout) = shown();
    let custom = circuit.gates()[1];
    let gate = circuit.gate_by_id(custom);
    assert_eq!(layout.gate_input_position(&circuit, custom, gate.inputs()[0].0), at(350, 300));
    assert_eq!(layout.gate_output_position(&circuit, custom, gate.outputs()[0].0), at(450, 300));
}

#[test]
fn connection_points_have_positions() {
    let (circuit, layout) = shown();
    let inputs = circuit.inputs();
    let outputs = circuit.outputs();
    let nand = circuit.gates()[0];
    let slot = circuit.gate_by_id(nand).inputs()[1].0;
    assert_eq!(
        layout.connection_point_position(&circuit, 600, ConnectionPoint::Input(inputs[1].0)),
        at(30, 100)
    );
    assert_eq!(
        layout.connection_point_position(&circuit, 600, ConnectionPoint::Output(outputs[0].0)),
        at(570, 30)
    );
    assert_eq!(
        layout.connection_point_position(
            &circuit,
            600,
            ConnectionPoint::GateInput { gate: nand, input: slot }
        ),
        at(150, 120)
    );
    let mut with_signal = layout.clone();
    with_signal.add_middle_signal(inputs[0].0, at(11, 12));
    with_signal.add_middle_signal(inputs[0].0, at(13, 14));
    assert_eq!(
        with_signal.connection_point_position(
            &circuit,
            600,
            ConnectionPoint::MiddleSignal(inputs[0].0)
        ),
        at(13, 14)
    );
}

#[test]
fn circle_contains_its_rim() {
    let circle = CircleCollider::new(at(30, 100), 20);
    assert_eq!(circle.position(), at(30, 100));
    assert_eq!(circle.radius(), 20);
    assert!(circle.intersects_point(at(30, 100)));
    assert!(circle.intersects_point(at(50, 100)));
    assert!(circle.intersects_point(at(30, 80)));
    assert!(circle.intersects_point(at(42, 116)));
    assert!(!circle.intersects_point(at(51, 100)));
    assert!(!circle.intersects_point(at(43, 116)));
    assert!(!circle.intersects_point(at(45, 115)));
    assert!(!circle.intersects_point(at(i128::MAX, 100)));
    assert!(!circle.intersects_point(at(30, i128::MIN)));
    let far = CircleCollider::new(at(i128::MIN, i128::MAX), u32::MAX);
    assert!(far.intersects_point(at(i128::MIN + 4294967295, i128::MAX)));
    assert!(!far.intersects_point(at(i128::MIN + 4294967295, i128::MAX - 1)));
    assert!(!far.intersects_point(at(0, 0)));
}

#[test]
fn click_on_an_input_toggles_it() {
    let (mut circuit, layout) = shown();
    let inputs = circuit.inputs();
    let second = layout.input_position(inputs[1].0);
    layout.toggle_clicked(&mut circuit, Some(second));
    assert_eq!(circuit.input_by_id(inputs[0].0), false);
    assert_eq!(circuit.input_by_id(inputs[1].0), true);
    layout.toggle_clicked(&mut circuit, Some(second));
    assert_eq!(circuit.input_by_id(inputs[1].0), false);
}

#[test]
fn click_outside_the_circle_changes_nothing() {
    let (mut circuit, layout) = shown();
    let inputs = circuit.inputs();
    for click in [at(30, 51), at(51, 30), at(45, 45), at(30, 65), at(570, 30), at(-100, -100)] {
        layout.toggle_clicked(&mut circuit, Some(click));
        assert_eq!(circuit.inputs(), inputs, "{:?}", click);
    }
    layout.toggle_clicked(&mut circuit, None);
    assert_eq!(circuit.inputs(), inputs);
    layout.toggle_clicked(&mut circuit, Some(at(30, 50)));
    assert_eq!(circuit.input_by_id(inputs[0].0), true);
    assert_eq!(circuit.input_by_id(inputs[1].0), false);
}

#[test]
fn only_inputs_react_to_clicks() {
    let (mut circuit, layout) = shown();
    let outputs = circuit.outputs();
    let gates = circuit.gates();
    let before = circuit.gate_by_id(gates[0]).inputs();
    layout.toggle_clicked(&mut circuit, Some(at(570, 30)));
    layout.toggle_clicked(&mut circuit, Some(at(150, 80)));
    layout.toggle_clicked(&mut circuit, Some(at(200, 100)));
    assert_eq!(circuit.outputs(), outputs);
    assert_eq!(circuit.gate_by_id(gates[0]).inputs(), before);
}

#[test]
fn scene_lists_everything_in_drawing_order() {
    let (circuit, layout) = shown();
    assert!(layout.can_render(&circuit));
    let scene = layout.scene(&circuit, 600);
    let expected = vec![
        // inputs
        circle(at(30, 30), false),
        circle(at(30, 100), false),
        // outputs
        circle(at(570, 30), false),
        // connections
        line(at(30, 30), at(150, 80), false),
        line(at(30, 100), at(150, 120), false),
        line(at(250, 100), at(350, 300), true),
        line(at(450, 300), at(570, 30), false),
        // the NAND gate
        frame(at(200, 100), 80),
        circle(at(150, 80), false),
        circle(at(150, 120), false),
        circle(at(250, 100), true),
        // the custom gate
        frame(at(400, 300), 40),
        circle(at(350, 300), false),
        circle(at(450, 300), false),
    ];
    assert_eq!(scene, expected);
}

#[test]
fn click_is_applied_before_drawing() {
    let (mut circuit, layout) = shown();
    let scene = layout.process_input_and_render(&mut circuit, Some(at(30, 30)), 600);
    assert_eq!(scene[0], circle(at(30, 30), true));
    assert_eq!(scene[3], line(at(30, 30), at(150, 80), true));
    assert_eq!(circuit.inputs()[0].1, true);
    let again = layout.process_input_and_render(&mut circuit, None, 600);
    assert_eq!(again, scene);
}

#[test]
fn layout_must_cover_what_it_draws() {
    let (circuit, layout) = shown();
    assert!(layout.can_render(&circuit));
    // a layout without the outputs
    let mut bare = MapRenderSavedState::new();
    for entry in circuit.inputs() {
        bare.add_input(entry.0);
    }
    assert!(!bare.can_render(&circuit));
    // a gate of the layout that the circuit lacks
    let mut extra = layout.clone();
    let stranger = ids(100)[99];
    extra.add_gate(stranger, at(0, 0), "stranger".to_string());
    assert!(!extra.can_render(&circuit));
    // a gate out of reach
    let mut far = layout.clone();
    far.add_gate(circuit.gates()[0], at(REACH + 1, 0), "far".to_string());
    assert!(!far.can_render(&circuit));
    let mut near = layout.clone();
    near.add_gate(circuit.gates()[0], at(REACH, -REACH), "near".to_string());
    assert!(near.can_render(&circuit));
    // a connection that ends at a middle signal without a position
    let mut wired = circuit.clone();
    let input = wired.inputs()[0].0;
    wired.create_connection((ConnectionPoint::Input(input), ConnectionPoint::MiddleSignal(input)));
    assert!(!layout.can_render(&wired));
    let mut placed = layout.clone();
    placed.add_middle_signal(input, at(1, 1));
    assert!(placed.can_render(&wired));
    let stepped = wired.step();
    let scene = placed.scene(&stepped, 600);
    assert!(scene.contains(&circle(at(1, 1), false)));
}
