//! The layout of a circuit on the screen: where its elements stand, what is
//! drawn for them, and which input a click toggles.
//!
//! Positions are whole screen units. `LayoutModel` is the mathematical model
//! of a layout record; the contracts of `MapRenderSavedState` are stated
//! over it.

use vstd::prelude::*;
use crate::id::Id;
use crate::logic_gate::ConnectionPoint;
use crate::logic_gate_map::{CircuitModel, LogicGateMap};
use crate::table::{
    ascending, find, get, lemma_same_keys, lemma_slot, lemma_store, lemma_store_mapped, mapped,
    present, put, slot, store,
};

verus! {

/// A point of the screen, in whole units.
#[derive(Debug, Clone, Copy, PartialEq, Eq, Structural)]
pub struct Position {
    pub x: i128,
    pub y: i128,
}

/// Where a gate stands and what it is called.
#[derive(Debug)]
pub struct GateRenderSavedState {
    pub position: Position,
    pub name: String,
}

/// The mathematical model of a gate's layout entry.
pub struct GateLayout {
    pub position: Position,
    pub name: Seq<char>,
}

impl View for GateRenderSavedState {
    type V = GateLayout;

    open spec fn view(&self) -> GateLayout {
        GateLayout { position: self.position, name: self.name@ }
    }
}

impl Clone for GateRenderSavedState {
    fn clone(&self) -> (copy: Self)
        ensures
            copy@ == self@,
    {
        GateRenderSavedState { position: self.position, name: self.name.clone() }
    }
}

/// The function that takes a gate's layout entry to its model.
pub open spec fn gate_layout() -> spec_fn(GateRenderSavedState) -> GateLayout {
    |entry: GateRenderSavedState| entry@
}

/// The mathematical model of a layout record. The inputs and outputs are
/// listed in the order in which they are stacked; the middle signals and the
/// gates are tables in ascending identifier order.
pub struct LayoutModel {
    pub inputs: Seq<Id>,
    pub outputs: Seq<Id>,
    pub middle_signals: Seq<(Id, Position)>,
    pub gates: Seq<(Id, GateLayout)>,
}

impl LayoutModel {
    /// The layout that records nothing.
    pub open spec fn empty() -> LayoutModel {
        LayoutModel {
            inputs: Seq::empty(),
            outputs: Seq::empty(),
            middle_signals: Seq::empty(),
            gates: Seq::empty(),
        }
    }

    /// Both tables are in ascending identifier order.
    pub open spec fn wf(self) -> bool {
        ascending(self.middle_signals) && ascending(self.gates)
    }

    /// The layout with the input `id` added below the inputs it has.
    pub open spec fn with_input(self, id: Id) -> LayoutModel {
        LayoutModel { inputs: self.inputs.push(id), ..self }
    }

    /// The layout with the output `id` added below the outputs it has.
    pub open spec fn with_output(self, id: Id) -> LayoutModel {
        LayoutModel { outputs: self.outputs.push(id), ..self }
    }

    /// The layout with the middle signal `id` recorded at `position`.
    pub open spec fn with_middle_signal(self, id: Id, position: Position) -> LayoutModel {
        LayoutModel { middle_signals: store(self.middle_signals, id, position), ..self }
    }

    /// The layout with a gate `id` recorded at `position` under `name`.
    pub open spec fn with_gate(self, id: Id, position: Position, name: Seq<char>) -> LayoutModel {
        LayoutModel { gates: store(self.gates, id, GateLayout { position, name }), ..self }
    }
}

/// The layout record of one circuit.
#[derive(Debug)]
pub struct MapRenderSavedState {
    inputs: Vec<Id>,
    outputs: Vec<Id>,
    middle_signals: Vec<(Id, Position)>,
    gates: Vec<(Id, GateRenderSavedState)>,
}

impl View for MapRenderSavedState {
    type V = LayoutModel;

    closed spec fn view(&self) -> LayoutModel {
        LayoutModel {
            inputs: self.inputs@,
            outputs: self.outputs@,
            middle_signals: self.middle_signals@,
            gates: mapped(self.gates@, gate_layout()),
        }
    }
}

impl Clone for MapRenderSavedState {
    fn clone(&self) -> (copy: Self)
        ensures
            copy@ == self@,
    {
        let mut inputs: Vec<Id> = Vec::new();
        let mut i: usize = 0;
        while i < self.inputs.len()
            invariant
                i <= self.inputs.len(),
                inputs@ == self.inputs@.take(i as int),
            decreases self.inputs.len() - i,
        {
            inputs.push(self.inputs[i]);
            assert(self.inputs@.take(i + 1) =~= self.inputs@.take(i as int).push(
                self.inputs@[i as int],
            ));
            i += 1;
        }
        let mut outputs: Vec<Id> = Vec::new();
        let mut j: usize = 0;
        while j < self.outputs.len()
            invariant
                j <= self.outputs.len(),
                outputs@ == self.outputs@.take(j as int),
            decreases self.outputs.len() - j,
        {
            outputs.push(self.outputs[j]);
            assert(self.outputs@.take(j + 1) =~= self.outputs@.take(j as int).push(
                self.outputs@[j as int],
            ));
            j += 1;
        }
        let mut gates: Vec<(Id, GateRenderSavedState)> = Vec::new();
        let mut k: usize = 0;
        while k < self.gates.len()
            invariant
                k <= self.gates.len(),
                gates@.len() == k,
                forall|n: int|
                    0 <= n < k ==> (#[trigger] gates@[n]).0 == self.gates@[n].0 && gates@[n].1@
                        == self.gates@[n].1@,
            decreases self.gates.len() - k,
        {
            let entry = self.gates[k].1.clone();
            gates.push((self.gates[k].0, entry));
            k += 1;
        }
        assert(self.inputs@.take(self.inputs.len() as int) =~= self.inputs@);
        assert(self.outputs@.take(self.outputs.len() as int) =~= self.outputs@);
        let copy = MapRenderSavedState {
            inputs,
            outputs,
            middle_signals: crate::table::copy_of(&self.middle_signals),
            gates,
        };
        assert(copy@.gates =~= self@.gates);
        copy
    }
}

impl Default for MapRenderSavedState {
    fn default() -> (layout: Self)
        ensures
            layout@ == LayoutModel::empty(),
            layout.wf(),
    {
        let layout = MapRenderSavedState {
            inputs: Vec::new(),
            outputs: Vec::new(),
            middle_signals: Vec::new(),
            gates: Vec::new(),
        };
        assert(layout@.gates =~= LayoutModel::empty().gates);
        layout
    }
}

impl MapRenderSavedState {
    /// Both tables of the layout are in ascending identifier order.
    pub open spec fn wf(&self) -> bool {
        self@.wf()
    }

    /// A layout that records nothing.
    pub fn new() -> (layout: Self)
        ensures
            layout@ == LayoutModel::empty(),
            layout.wf(),
    {
        let layout = MapRenderSavedState {
            inputs: Vec::new(),
            outputs: Vec::new(),
            middle_signals: Vec::new(),
            gates: Vec::new(),
        };
        assert(layout@.gates =~= LayoutModel::empty().gates);
        layout
    }

    /// Whether the layout records a position for a gate `gate_id`.
    pub fn has_gate(&self, gate_id: Id) -> (recorded: bool)
        requires
            self.wf(),
        ensures
            recorded == present(self@.gates, gate_id),
    {
        proof {
            lemma_same_keys(self.gates@, self@.gates, gate_id);
        }
        find(&self.gates, gate_id).is_some()
    }

    /// What the layout records for a gate `gate_id`, if it records it.
    pub fn gate_record(&self, gate_id: Id) -> (entry: Option<GateRenderSavedState>)
        requires
            self.wf(),
        ensures
            entry is Some == present(self@.gates, gate_id),
            entry is Some ==> entry->0@ == get(self@.gates, gate_id),
    {
        proof {
            lemma_same_keys(self.gates@, self@.gates, gate_id);
        }
        match find(&self.gates, gate_id) {
            Some(k) => Some(self.gates[k].1.clone()),
            None => None,
        }
    }

    /// Lists the input `id` below the inputs listed so far.
    pub fn add_input(&mut self, id: Id)
        ensures
            final(self)@ == old(self)@.with_input(id),
    {
        self.inputs.push(id);
        assert(self@.gates =~= old(self)@.gates);
    }

    /// Lists the output `id` below the outputs listed so far.
    pub fn add_output(&mut self, id: Id)
        ensures
            final(self)@ == old(self)@.with_output(id),
    {
        self.outputs.push(id);
        assert(self@.gates =~= old(self)@.gates);
    }

    /// Records the middle signal `id` at `position`; an earlier record of it
    /// is replaced.
    pub fn add_middle_signal(&mut self, id: Id, position: Position)
        ensures
            final(self)@ == old(self)@.with_middle_signal(id, position),
            old(self).wf() ==> final(self).wf(),
    {
        put(&mut self.middle_signals, id, position);
        proof {
            assert(self@.gates =~= old(self)@.gates);
            if old(self).wf() {
                lemma_store(old(self)@.middle_signals, id, position);
            }
        }
    }

    /// Records a gate `id` at `position` under `name`; an earlier record of
    /// it is replaced.
    pub fn add_gate(&mut self, id: Id, position: Position, name: String)
        ensures
            final(self)@ == old(self)@.with_gate(id, position, name@),
            old(self).wf() ==> final(self).wf(),
    {
        let entry = GateRenderSavedState { position, name };
        let ghost model = entry@;
        let ghost added = entry;
        put(&mut self.gates, id, entry);
        proof {
            lemma_store_mapped(old(self).gates@, gate_layout(), id, added);
            if old(self).wf() {
                lemma_store(old(self)@.gates, id, model);
            }
        }
    }
}

/// A point of the plane.
pub struct Point {
    pub x: int,
    pub y: int,
}

impl View for Position {
    type V = Point;

    open spec fn view(&self) -> Point {
        Point { x: self.x as int, y: self.y as int }
    }
}

/// The radius of the circle of a port or pin, for drawing and for clicks.
pub const PORT_RADIUS: u32 = 20;

/// The width of the frame of a gate.
pub const GATE_WIDTH: i128 = 100;

/// The width of the stroke of a line or frame.
pub const STROKE_WIDTH: i128 = 3;

/// The distance between two neighbours in a stack of ports.
pub const PORT_SPACING: i128 = 70;

/// The greatest distance from the origin, along either axis, at which a
/// gate can be drawn, and the greatest width of the screen.
pub const REACH: i128 = 1267650600228229401496703205376;

/// The place of `id` in a stack of ports: the number of identifiers that
/// stand before its first occurrence.
pub open spec fn stack_index(ids: Seq<Id>, id: Id) -> nat
    decreases ids.len(),
{
    if ids.len() == 0 || ids[0] == id {
        0
    } else {
        1 + stack_index(ids.skip(1), id)
    }
}

/// A place before which `id` does not stand, and at which it stands or the
/// stack ends, is the stack index of `id`.
pub proof fn lemma_stack_index(ids: Seq<Id>, id: Id, n: int)
    requires
        0 <= n <= ids.len(),
        forall|k: int| 0 <= k < n ==> #[trigger] ids[k] != id,
        n == ids.len() || ids[n] == id,
    ensures
        stack_index(ids, id) == n,
    decreases ids.len(),
{
    if n > 0 {
        let rest = ids.skip(1);
        assert forall|k: int| 0 <= k < n - 1 implies #[trigger] rest[k] != id by {
            assert(rest[k] == ids[k + 1]);
        }
        lemma_stack_index(rest, id, n - 1);
    }
}

/// The point lies in the circle around `center`, the rim included.
pub open spec fn hit(point: Point, center: Point, radius: int) -> bool {
    (point.x - center.x) * (point.x - center.x) + (point.y - center.y) * (point.y - center.y)
        <= radius * radius
}

/// The colours of a drawing.
#[derive(Debug, Clone, Copy, PartialEq, Eq, Structural)]
pub enum Colour {
    Green,
    Red,
    LightGray,
}

/// The colour of a value: green for true, red for false.
pub open spec fn signal_colour(on: bool) -> Colour {
    if on {
        Colour::Green
    } else {
        Colour::Red
    }
}

/// One thing to draw.
#[derive(Debug, Clone, Copy, PartialEq, Eq, Structural)]
pub enum Shape {
    /// A filled circle.
    Circle { center: Position, radius: i128, colour: Colour },
    /// A straight line of the given width.
    Line { from: Position, to: Position, width: i128, colour: Colour },
    /// The outline of a rectangle, drawn with a stroke of the given width.
    Frame { center: Position, width: i128, height: i128, stroke: i128, colour: Colour },
}

/// The mathematical model of a shape.
pub enum ShapeModel {
    Circle { center: Point, radius: int, colour: Colour },
    Line { from: Point, to: Point, width: int, colour: Colour },
    Frame { center: Point, width: int, height: int, stroke: int, colour: Colour },
}

impl View for Shape {
    type V = ShapeModel;

    open spec fn view(&self) -> ShapeModel {
        match self {
            Shape::Circle { center, radius, colour } => ShapeModel::Circle {
                center: center@,
                radius: *radius as int,
                colour: *colour,
            },
            Shape::Line { from, to, width, colour } => ShapeModel::Line {
                from: from@,
                to: to@,
                width: *width as int,
                colour: *colour,
            },
            Shape::Frame { center, width, height, stroke, colour } => ShapeModel::Frame {
                center: center@,
                width: *width as int,
                height: *height as int,
                stroke: *stroke as int,
                colour: *colour,
            },
        }
    }
}

/// The circle of an input, an output, a middle signal or a pin with the
/// value `on`: it has the radius 20 and the colour of the value.
pub open spec fn port_circle(center: Point, on: bool) -> ShapeModel {
    ShapeModel::Circle { center, radius: 20, colour: signal_colour(on) }
}

/// The line of a connection whose start has the value `on`: it has the
/// width 3 and the colour of the value.
pub open spec fn wire_line(from: Point, to: Point, on: bool) -> ShapeModel {
    ShapeModel::Line { from, to, width: 3, colour: signal_colour(on) }
}

/// The frame of a gate with `rows` slots on its longer side: it is 100
/// wide and 40 high for each slot, and drawn light gray with a stroke of
/// width 3.
pub open spec fn gate_frame(center: Point, rows: int) -> ShapeModel {
    ShapeModel::Frame {
        center,
        width: 100,
        height: 40 * rows,
        stroke: 3,
        colour: Colour::LightGray,
    }
}

/// The colour of a value.
pub fn colour_of(on: bool) -> (colour: Colour)
    ensures
        colour == signal_colour(on),
{
    if on {
        Colour::Green
    } else {
        Colour::Red
    }
}

/// The circle of a point with the value `on`.
fn circle_shape(center: Position, on: bool) -> (shape: Shape)
    ensures
        shape@ == port_circle(center@, on),
{
    Shape::Circle { center, radius: PORT_RADIUS as i128, colour: colour_of(on) }
}

/// The line of a connection whose start has the value `on`.
fn line_shape(from: Position, to: Position, on: bool) -> (shape: Shape)
    ensures
        shape@ == wire_line(from@, to@, on),
{
    Shape::Line { from, to, width: STROKE_WIDTH, colour: colour_of(on) }
}

/// The frame of a gate with `rows` slots on its longer side.
fn frame_shape(center: Position, rows: usize) -> (shape: Shape)
    ensures
        shape@ == gate_frame(center@, rows as int),
{
    Shape::Frame {
        center,
        width: GATE_WIDTH,
        height: 40 * (rows as i128),
        stroke: STROKE_WIDTH,
        colour: Colour::LightGray,
    }
}

/// The models of a list of shapes.
pub open spec fn shapes(list: Seq<Shape>) -> Seq<ShapeModel> {
    Seq::new(list.len(), |i: int| list[i]@)
}

/// The greater of two numbers.
pub open spec fn greater(a: int, b: int) -> int {
    if a >= b {
        a
    } else {
        b
    }
}

impl LayoutModel {
    /// Every gate stands within `REACH` of the origin.
    pub open spec fn in_reach(self) -> bool {
        forall|k: int|
            0 <= k < self.gates.len() ==> {
                &&& -REACH <= (#[trigger] self.gates[k]).1.position.x <= REACH
                &&& -REACH <= self.gates[k].1.position.y <= REACH
            }
    }

    /// Where the input `id` stands: on the left edge, by its place in the
    /// stack of inputs.
    pub open spec fn input_position(self, id: Id) -> Point {
        Point { x: 30, y: 30 + 70 * (stack_index(self.inputs, id) as int) }
    }

    /// Where the output `id` stands: on the right edge of a screen of the
    /// given width, by its place in the stack of outputs.
    pub open spec fn output_position(self, id: Id, width: int) -> Point {
        Point { x: width - 30, y: 30 + 70 * (stack_index(self.outputs, id) as int) }
    }

    /// Where the pin of the input slot `input` of a gate `gate` stands: on
    /// the left side of this gate, in a band of height 40 for each input that
    /// is centred on this gate.
    pub open spec fn gate_input_position(self, circuit: CircuitModel, gate: Id, input: Id) -> Point {
        let at = get(self.gates, gate).position;
        let model = get(circuit.gates, gate);
        Point {
            x: at.x - 50,
            y: at.y - 20 * model.inputs().len() + 40 * model.input_index(input) + 20,
        }
    }

    /// Where the pin of the output slot `output` of a gate `gate` stands:
    /// on the right side of this gate, in a band of height 40 for each output
    /// that is centred on this gate.
    pub open spec fn gate_output_position(
        self,
        circuit: CircuitModel,
        gate: Id,
        output: Id,
    ) -> Point {
        let at = get(self.gates, gate).position;
        let model = get(circuit.gates, gate);
        Point {
            x: at.x + 50,
            y: at.y - 20 * model.outputs().len() + 40 * model.output_index(output) + 20,
        }
    }

    /// The layout and the circuit say where the point `p` stands.
    pub open spec fn locates(self, circuit: CircuitModel, p: ConnectionPoint) -> bool {
        match p {
            ConnectionPoint::Input(id) => self.inputs.contains(id),
            ConnectionPoint::Output(id) => self.outputs.contains(id),
            ConnectionPoint::MiddleSignal(id) => present(self.middle_signals, id),
            ConnectionPoint::GateInput { gate, input } => present(self.gates, gate) && present(
                circuit.gates,
                gate,
            ) && get(circuit.gates, gate).input(input) is Some,
            ConnectionPoint::GateOutput { gate, output } => present(self.gates, gate) && present(
                circuit.gates,
                gate,
            ) && get(circuit.gates, gate).output(output) is Some,
        }
    }

    /// Where the point `p` stands on a screen of the given width.
    pub open spec fn point_position(self, circuit: CircuitModel, p: ConnectionPoint, width: int)
        -> Point {
        match p {
            ConnectionPoint::Input(id) => self.input_position(id),
            ConnectionPoint::Output(id) => self.output_position(id, width),
            ConnectionPoint::MiddleSignal(id) => get(self.middle_signals, id)@,
            ConnectionPoint::GateInput { gate, input } => self.gate_input_position(
                circuit,
                gate,
                input,
            ),
            ConnectionPoint::GateOutput { gate, output } => self.gate_output_position(
                circuit,
                gate,
                output,
            ),
        }
    }

    /// The layout can show the circuit: it lists every input and output,
    /// records every middle signal, says where both ends of every connection
    /// stand, records only gates that the circuit has, and every gate is in
    /// reach.
    pub open spec fn shows(self, circuit: CircuitModel) -> bool {
        &&& forall|i: int|
            0 <= i < circuit.inputs.len() ==> self.inputs.contains((#[trigger] circuit.inputs[i]).0)
        &&& forall|i: int|
            0 <= i < circuit.outputs.len() ==> self.outputs.contains(
                (#[trigger] circuit.outputs[i]).0,
            )
        &&& forall|i: int|
            0 <= i < circuit.middle_signals.len() ==> present(
                self.middle_signals,
                (#[trigger] circuit.middle_signals[i]).0,
            )
        &&& forall|i: int|
            0 <= i < circuit.connections.len() ==> {
                &&& self.locates(circuit, (#[trigger] circuit.connections[i]).1.start)
                &&& self.locates(circuit, circuit.connections[i].1.end)
                &&& circuit.has_point(circuit.connections[i].1.start)
            }
        &&& forall|k: int|
            0 <= k < self.gates.len() ==> present(circuit.gates, (#[trigger] self.gates[k]).0)
        &&& self.in_reach()
    }

    /// The circuit after a click: every input whose circle the click hits
    /// has changed its value.
    pub open spec fn clicked(self, circuit: CircuitModel, click: Option<Position>) -> CircuitModel {
        match click {
            None => circuit,
            Some(at) => CircuitModel {
                inputs: Seq::new(
                    circuit.inputs.len(),
                    |i: int|
                        (
                            circuit.inputs[i].0,
                            if hit(at@, self.input_position(circuit.inputs[i].0), 20) {
                                !circuit.inputs[i].1
                            } else {
                                circuit.inputs[i].1
                            },
                        ),
                ),
                ..circuit
            },
        }
    }

    /// The circles of the inputs, in ascending identifier order.
    pub open spec fn input_circles(self, circuit: CircuitModel) -> Seq<ShapeModel> {
        Seq::new(
            circuit.inputs.len(),
            |i: int|
                port_circle(self.input_position(circuit.inputs[i].0), circuit.inputs[i].1),
        )
    }

    /// The circles of the outputs, in ascending identifier order.
    pub open spec fn output_circles(self, circuit: CircuitModel, width: int) -> Seq<ShapeModel> {
        Seq::new(
            circuit.outputs.len(),
            |i: int|
                port_circle(
                    self.output_position(circuit.outputs[i].0, width),
                    circuit.outputs[i].1,
                ),
        )
    }

    /// The circles of the middle signals, in ascending identifier order.
    pub open spec fn signal_circles(self, circuit: CircuitModel) -> Seq<ShapeModel> {
        Seq::new(
            circuit.middle_signals.len(),
            |i: int|
                port_circle(
                    get(self.middle_signals, circuit.middle_signals[i].0)@,
                    circuit.middle_signals[i].1,
                ),
        )
    }

    /// The lines of the connections, in ascending identifier order, each in
    /// the colour of the value at its start.
    pub open spec fn connection_lines(self, circuit: CircuitModel, width: int) -> Seq<ShapeModel> {
        Seq::new(
            circuit.connections.len(),
            |i: int|
                wire_line(
                    self.point_position(circuit, circuit.connections[i].1.start, width),
                    self.point_position(circuit, circuit.connections[i].1.end, width),
                    circuit.point_value(circuit.connections[i].1.start),
                ),
        )
    }

    /// What is drawn for a gate at place `k` of the layout: its frame,
    /// then the pins of its inputs and the pins of its outputs, each list in
    /// ascending identifier order.
    pub open spec fn gate_drawing(self, circuit: CircuitModel, k: int) -> Seq<ShapeModel> {
        let id = self.gates[k].0;
        let model = get(circuit.gates, id);
        let ins = model.inputs();
        let outs = model.outputs();
        seq![
            gate_frame(self.gates[k].1.position@, greater(ins.len() as int, outs.len() as int)),
        ] + Seq::new(
            ins.len(),
            |j: int|
                port_circle(self.gate_input_position(circuit, id, ins[j].0), ins[j].1),
        ) + Seq::new(
            outs.len(),
            |j: int|
                port_circle(self.gate_output_position(circuit, id, outs[j].0), outs[j].1),
        )
    }

    /// What is drawn for the first `n` gates of the layout.
    pub open spec fn gates_drawn(self, circuit: CircuitModel, n: nat) -> Seq<ShapeModel>
        decreases n,
    {
        if n == 0 {
            Seq::empty()
        } else {
            self.gates_drawn(circuit, (n - 1) as nat) + self.gate_drawing(circuit, n - 1)
        }
    }

    /// Everything that is drawn for the circuit on a screen of the given
    /// width, in drawing order: inputs, outputs, middle signals,
    /// connections, gates.
    pub open spec fn scene(self, circuit: CircuitModel, width: int) -> Seq<ShapeModel> {
        self.input_circles(circuit) + self.output_circles(circuit, width) + self.signal_circles(
            circuit,
        ) + self.connection_lines(circuit, width) + self.gates_drawn(circuit, self.gates.len())
    }

    /// A click changes values of inputs only, so the layout shows the
    /// circuit after the click as it showed it before.
    pub proof fn lemma_clicked_shows(self, circuit: CircuitModel, click: Option<Position>)
        requires
            circuit.wf(),
            self.shows(circuit),
        ensures
            self.clicked(circuit, click).wf(),
            self.shows(self.clicked(circuit, click)),
            circuit.steppable() ==> self.clicked(circuit, click).steppable(),
    {
        let after = self.clicked(circuit, click);
        if click is Some {
            lemma_same_keys(circuit.inputs, after.inputs, arbitrary());
            assert forall|id: Id| present(circuit.inputs, id) implies present(after.inputs, id) by {
                lemma_same_keys(circuit.inputs, after.inputs, id);
            }
            assert forall|i: int| 0 <= i < after.connections.len() implies {
                &&& self.locates(after, (#[trigger] after.connections[i]).1.start)
                &&& self.locates(after, after.connections[i].1.end)
                &&& after.has_point(after.connections[i].1.start)
            } by {
                let c = circuit.connections[i].1;
                assert(self.locates(circuit, c.start) && self.locates(circuit, c.end));
                assert(circuit.has_point(c.start));
            }
            assert forall|i: int| 0 <= i < after.inputs.len() implies self.inputs.contains(
                (#[trigger] after.inputs[i]).0,
            ) by {
                assert(after.inputs[i].0 == circuit.inputs[i].0);
            }
            if circuit.steppable() {
                circuit.lemma_same_points(after);
            }
        }
    }

    /// A click at the very place of an input of the circuit changes that
    /// input; a click outside the circle of an input leaves that input as it
    /// is; and without a click the circuit stays as it is.
    pub proof fn lemma_click(self, circuit: CircuitModel, i: int, click: Position)
        requires
            0 <= i < circuit.inputs.len(),
        ensures
            click@ == self.input_position(circuit.inputs[i].0) ==> self.clicked(
                circuit,
                Some(click),
            ).inputs[i] == (circuit.inputs[i].0, !circuit.inputs[i].1),
            !hit(click@, self.input_position(circuit.inputs[i].0), 20) ==> self.clicked(
                circuit,
                Some(click),
            ).inputs[i] == circuit.inputs[i],
            self.clicked(circuit, None) == circuit,
    {
    }
}

/// A circle that tells whether a point lies in it.
#[derive(Debug, Clone, Copy)]
pub struct CircleCollider {
    position: Position,
    radius: u32,
}

/// The mathematical model of a circle: its centre and its radius.
pub struct Circle {
    pub position: Position,
    pub radius: u32,
}

impl View for CircleCollider {
    type V = Circle;

    closed spec fn view(&self) -> Circle {
        Circle { position: self.position, radius: self.radius }
    }
}

impl CircleCollider {
    /// The circle around `position` with the given radius.
    pub fn new(position: Position, radius: u32) -> (circle: Self)
        ensures
            circle@ == (Circle { position, radius }),
    {
        Self { position, radius }
    }

    /// The centre of the circle.
    pub fn position(&self) -> (position: Position)
        ensures
            position == self@.position,
    {
        self.position
    }

    /// The radius of the circle.
    pub fn radius(&self) -> (radius: u32)
        ensures
            radius == self@.radius,
    {
        self.radius
    }

    /// Whether `point` lies in the circle, the rim included.
    pub fn intersects_point(&self, point: Position) -> (inside: bool)
        ensures
            inside == hit(point@, self@.position@, self@.radius as int),
    {
        let r: i128 = self.radius as i128;
        let dx: i128 = match point.x.checked_sub(self.position.x) {
            Some(dx) => dx,
            None => {
                assert(!hit(point@, self.position@, r as int)) by (nonlinear_arith)
                    requires
                        (point.x - self.position.x > r || point.x - self.position.x < -r),
                        r >= 0,
                ;
                return false;
            },
        };
        let dy: i128 = match point.y.checked_sub(self.position.y) {
            Some(dy) => dy,
            None => {
                assert(!hit(point@, self.position@, r as int)) by (nonlinear_arith)
                    requires
                        (point.y - self.position.y > r || point.y - self.position.y < -r),
                        r >= 0,
                ;
                return false;
            },
        };
        if dx > r || dx < -r || dy > r || dy < -r {
            assert(!hit(point@, self.position@, r as int)) by (nonlinear_arith)
                requires
                    dx == point.x - self.position.x,
                    dy == point.y - self.position.y,
                    dx > r || dx < -r || dy > r || dy < -r,
                    r >= 0,
            ;
            return false;
        }
        assert(0 <= dx * dx <= r * r && 0 <= dy * dy <= r * r && r * r <= 0xFFFF_FFFF
            * 0xFFFF_FFFF) by (nonlinear_arith)
            requires
                -r <= dx <= r,
                -r <= dy <= r,
                0 <= r <= 0xFFFF_FFFF,
        ;
        dx * dx + dy * dy <= r * r
    }
}

/// The place of `id` in a stack of ports, if it stands there.
fn place_in(ids: &Vec<Id>, id: Id) -> (index: Option<usize>)
    ensures
        index is Some == ids@.contains(id),
        index is Some ==> index->0 == stack_index(ids@, id) && index->0 < ids.len(),
{
    let mut i: usize = 0;
    while i < ids.len()
        invariant
            i <= ids.len(),
            forall|k: int| 0 <= k < i ==> #[trigger] ids@[k] != id,
        decreases ids.len() - i,
    {
        if ids[i] == id {
            proof {
                lemma_stack_index(ids@, id, i as int);
            }
            return Some(i);
        }
        i += 1;
    }
    None
}

impl MapRenderSavedState {
    /// How the model follows from the fields.
    proof fn lemma_view(&self)
        ensures
            self@.inputs == self.inputs@,
            self@.outputs == self.outputs@,
            self@.middle_signals == self.middle_signals@,
            self@.gates.len() == self.gates@.len(),
            forall|k: int|
                0 <= k < self.gates@.len() ==> #[trigger] self@.gates[k] == (
                    self.gates@[k].0,
                    self.gates@[k].1@,
                ),
    {
    }

    /// Where the input `id` stands.
    pub fn input_position(&self, id: Id) -> (at: Position)
        requires
            self@.inputs.contains(id),
        ensures
            at@ == self@.input_position(id),
    {
        match place_in(&self.inputs, id) {
            Some(index) => Position { x: 30, y: 30 + PORT_SPACING * (index as i128) },
            None => unreached(),
        }
    }

    /// Where the output `id` stands on a screen of width `screen_width`.
    pub fn output_position(&self, id: Id, screen_width: i128) -> (at: Position)
        requires
            self@.outputs.contains(id),
            -REACH <= screen_width <= REACH,
        ensures
            at@ == self@.output_position(id, screen_width as int),
    {
        match place_in(&self.outputs, id) {
            Some(index) => Position { x: screen_width - 30, y: 30 + PORT_SPACING * (index as i128) },
            None => unreached(),
        }
    }

    /// Where a gate `gate_id` stands.
    fn gate_position(&self, gate_id: Id) -> (at: Position)
        requires
            self.wf(),
            present(self@.gates, gate_id),
        ensures
            at == get(self@.gates, gate_id).position,
    {
        proof {
            self.lemma_view();
            lemma_same_keys(self.gates@, self@.gates, gate_id);
        }
        match find(&self.gates, gate_id) {
            Some(k) => self.gates[k].1.position,
            None => unreached(),
        }
    }

    /// Where the pin of the input slot `input_id` of a gate `gate_id`
    /// stands.
    pub fn gate_input_position(&self, map: &LogicGateMap, gate_id: Id, input_id: Id) -> (at:
        Position)
        requires
            self.wf(),
            map.wf(),
            self@.in_reach(),
            self@.locates(map@, ConnectionPoint::GateInput { gate: gate_id, input: input_id }),
        ensures
            at@ == self@.gate_input_position(map@, gate_id, input_id),
    {
        let gate_position = self.gate_position(gate_id);
        let gate = map.gate_by_id(gate_id);
        let input_index = gate.get_input_index(input_id);
        let input_count = gate.input_count();
        assert(-REACH <= gate_position.x <= REACH && -REACH <= gate_position.y <= REACH) by {
            let k = slot(self@.gates, gate_id);
            assert(self@.gates[k].1.position == gate_position);
        }
        Position {
            x: gate_position.x - 50,
            y: gate_position.y - 20 * (input_count as i128) + 40 * (input_index as i128) + 20,
        }
    }

    /// Where the pin of the output slot `output_id` of a gate `gate_id`
    /// stands.
    pub fn gate_output_position(&self, map: &LogicGateMap, gate_id: Id, output_id: Id) -> (at:
        Position)
        requires
            self.wf(),
            map.wf(),
            self@.in_reach(),
            self@.locates(map@, ConnectionPoint::GateOutput { gate: gate_id, output: output_id }),
        ensures
            at@ == self@.gate_output_position(map@, gate_id, output_id),
    {
        let gate_position = self.gate_position(gate_id);
        let gate = map.gate_by_id(gate_id);
        let output_index = gate.get_output_index(output_id);
        let output_count = gate.output_count();
        assert(-REACH <= gate_position.x <= REACH && -REACH <= gate_position.y <= REACH) by {
            let k = slot(self@.gates, gate_id);
            assert(self@.gates[k].1.position == gate_position);
        }
        Position {
            x: gate_position.x + 50,
            y: gate_position.y - 20 * (output_count as i128) + 40 * (output_index as i128) + 20,
        }
    }

    /// Where the point `connection_point` stands on a screen of width
    /// `screen_width`.
    pub fn connection_point_position(
        &self,
        map: &LogicGateMap,
        screen_width: i128,
        connection_point: ConnectionPoint,
    ) -> (at: Position)
        requires
            self.wf(),
            map.wf(),
            self@.in_reach(),
            self@.locates(map@, connection_point),
            -REACH <= screen_width <= REACH,
        ensures
            at@ == self@.point_position(map@, connection_point, screen_width as int),
    {
        match connection_point {
            ConnectionPoint::Input(id) => self.input_position(id),
            ConnectionPoint::Output(id) => self.output_position(id, screen_width),
            ConnectionPoint::MiddleSignal(id) => {
                proof {
                    self.lemma_view();
                }
                match find(&self.middle_signals, id) {
                    Some(k) => self.middle_signals[k].1,
                    None => unreached(),
                }
            },
            ConnectionPoint::GateInput { gate, input } => self.gate_input_position(
                map,
                gate,
                input,
            ),
            ConnectionPoint::GateOutput { gate, output } => self.gate_output_position(
                map,
                gate,
                output,
            ),
        }
    }

    /// Whether the layout and the circuit say where the point `p` stands.
    fn can_locate(&self, map: &LogicGateMap, p: ConnectionPoint) -> (ok: bool)
        requires
            self.wf(),
            map.wf(),
        ensures
            ok == self@.locates(map@, p),
    {
        proof {
            self.lemma_view();
        }
        match p {
            ConnectionPoint::Input(id) => place_in(&self.inputs, id).is_some(),
            ConnectionPoint::Output(id) => place_in(&self.outputs, id).is_some(),
            ConnectionPoint::MiddleSignal(id) => find(&self.middle_signals, id).is_some(),
            ConnectionPoint::GateInput { gate, .. } => self.has_gate(gate)
                && map.has_connection_point(&p),
            ConnectionPoint::GateOutput { gate, .. } => self.has_gate(gate)
                && map.has_connection_point(&p),
        }
    }

    /// Whether the layout can show the circuit.
    pub fn can_render(&self, map: &LogicGateMap) -> (ok: bool)
        requires
            self.wf(),
            map.wf(),
        ensures
            ok == self@.shows(map@),
    {
        proof {
            self.lemma_view();
        }
        let inputs = map.inputs();
        let mut i: usize = 0;
        while i < inputs.len()
            invariant
                i <= inputs.len(),
                inputs@ == map@.inputs,
                self@.inputs == self.inputs@,
                forall|k: int| 0 <= k < i ==> self@.inputs.contains((#[trigger] map@.inputs[k]).0),
            decreases inputs.len() - i,
        {
            if place_in(&self.inputs, inputs[i].0).is_none() {
                return false;
            }
            i += 1;
        }
        let outputs = map.outputs();
        let mut i: usize = 0;
        while i < outputs.len()
            invariant
                i <= outputs.len(),
                outputs@ == map@.outputs,
                self@.outputs == self.outputs@,
                forall|k: int|
                    0 <= k < i ==> self@.outputs.contains((#[trigger] map@.outputs[k]).0),
            decreases outputs.len() - i,
        {
            if place_in(&self.outputs, outputs[i].0).is_none() {
                return false;
            }
            i += 1;
        }
        let signals = map.middle_signals();
        let mut i: usize = 0;
        while i < signals.len()
            invariant
                i <= signals.len(),
                self.wf(),
                signals@ == map@.middle_signals,
                self@.middle_signals == self.middle_signals@,
                forall|k: int|
                    0 <= k < i ==> present(
                        self@.middle_signals,
                        (#[trigger] map@.middle_signals[k]).0,
                    ),
            decreases signals.len() - i,
        {
            if find(&self.middle_signals, signals[i].0).is_none() {
                return false;
            }
            i += 1;
        }
        let connections = map.connections();
        let mut i: usize = 0;
        while i < connections.len()
            invariant
                i <= connections.len(),
                self.wf(),
                map.wf(),
                connections@ == map@.connections,
                forall|k: int|
                    0 <= k < i ==> {
                        &&& self@.locates(map@, (#[trigger] map@.connections[k]).1.start)
                        &&& self@.locates(map@, map@.connections[k].1.end)
                        &&& map@.has_point(map@.connections[k].1.start)
                    },
            decreases connections.len() - i,
        {
            let connection = connections[i].1;
            if !self.can_locate(map, connection.start) || !self.can_locate(map, connection.end)
                || !map.has_connection_point(&connection.start) {
                return false;
            }
            i += 1;
        }
        let mut k: usize = 0;
        while k < self.gates.len()
            invariant
                k <= self.gates.len(),
                self.wf(),
                map.wf(),
                self@.gates.len() == self.gates@.len(),
                forall|n: int|
                    0 <= n < self.gates@.len() ==> #[trigger] self@.gates[n] == (
                        self.gates@[n].0,
                        self.gates@[n].1@,
                    ),
                forall|n: int|
                    0 <= n < k ==> {
                        &&& present(map@.gates, (#[trigger] self@.gates[n]).0)
                        &&& -REACH <= self@.gates[n].1.position.x <= REACH
                        &&& -REACH <= self@.gates[n].1.position.y <= REACH
                    },
            decreases self.gates.len() - k,
        {
            let at = self.gates[k].1.position;
            assert(self@.gates[k as int].1.position == at);
            if !map.has_gate(self.gates[k].0) || at.x < -REACH || at.x > REACH || at.y < -REACH
                || at.y > REACH {
                return false;
            }
            k += 1;
        }
        true
    }

    /// Changes the value of every input whose circle the click hits.
    pub fn toggle_clicked(&self, map: &mut LogicGateMap, click_position: Option<Position>)
        requires
            self.wf(),
            old(map).wf(),
            self@.shows(old(map)@),
        ensures
            final(map)@ == self@.clicked(old(map)@, click_position),
            final(map).wf(),
            self@.shows(final(map)@),
            old(map)@.steppable() ==> final(map)@.steppable(),
    {
        proof {
            self@.lemma_clicked_shows(old(map)@, click_position);
        }
        let click = match click_position {
            Some(click) => click,
            None => {
                return ;
            },
        };
        let inputs = map.inputs();
        let ghost goal = self@.clicked(old(map)@, click_position);
        let mut i: usize = 0;
        while i < inputs.len()
            invariant
                i <= inputs.len(),
                self.wf(),
                map.wf(),
                inputs@ == old(map)@.inputs,
                self@.shows(old(map)@),
                goal == self@.clicked(old(map)@, Some(click)),
                map@ == (CircuitModel { inputs: map@.inputs, ..old(map)@ }),
                map@.inputs.len() == inputs.len(),
                forall|k: int| 0 <= k < i ==> #[trigger] map@.inputs[k] == goal.inputs[k],
                forall|k: int| i <= k < inputs.len() ==> #[trigger] map@.inputs[k] == inputs@[k],
            decreases inputs.len() - i,
        {
            let id = inputs[i].0;
            let shape = CircleCollider::new(self.input_position(id), PORT_RADIUS);
            if shape.intersects_point(click) {
                proof {
                    lemma_store(map@.inputs, id, !inputs@[i as int].1);
                    lemma_slot(map@.inputs, id, i as int);
                }
                map.set_input(id, !inputs[i].1);
            }
            i += 1;
        }
        assert(map@.inputs =~= goal.inputs);
    }

    /// Pushes the circles of the inputs.
    fn draw_inputs(&self, map: &LogicGateMap, scene: &mut Vec<Shape>)
        requires
            self@.shows(map@),
        ensures
            shapes(final(scene)@) == shapes(old(scene)@) + self@.input_circles(map@),
    {
        let inputs = map.inputs();
        let ghost part = self@.input_circles(map@);
        let mut i: usize = 0;
        assert(shapes(scene@) =~= shapes(old(scene)@) + part.take(0));
        while i < inputs.len()
            invariant
                i <= inputs.len(),
                inputs@ == map@.inputs,
                self@.shows(map@),
                part == self@.input_circles(map@),
                shapes(scene@) == shapes(old(scene)@) + part.take(i as int),
            decreases inputs.len() - i,
        {
            let ghost before = scene@;
            let center = self.input_position(inputs[i].0);
            scene.push(circle_shape(center, inputs[i].1));
            assert(shapes(scene@) =~= shapes(before).push(part[i as int]));
            assert(part.take(i + 1) =~= part.take(i as int).push(part[i as int]));
            assert(shapes(old(scene)@) + part.take(i as int).push(part[i as int]) =~= (shapes(
                old(scene)@,
            ) + part.take(i as int)).push(part[i as int]));
            i += 1;
        }
        assert(part.take(inputs.len() as int) =~= part);
    }

    /// Pushes the circles of the outputs.
    fn draw_outputs(&self, map: &LogicGateMap, screen_width: i128, scene: &mut Vec<Shape>)
        requires
            self@.shows(map@),
            -REACH <= screen_width <= REACH,
        ensures
            shapes(final(scene)@) == shapes(old(scene)@) + self@.output_circles(
                map@,
                screen_width as int,
            ),
    {
        let outputs = map.outputs();
        let ghost part = self@.output_circles(map@, screen_width as int);
        let mut i: usize = 0;
        assert(shapes(scene@) =~= shapes(old(scene)@) + part.take(0));
        while i < outputs.len()
            invariant
                i <= outputs.len(),
                outputs@ == map@.outputs,
                self@.shows(map@),
                -REACH <= screen_width <= REACH,
                part == self@.output_circles(map@, screen_width as int),
                shapes(scene@) == shapes(old(scene)@) + part.take(i as int),
            decreases outputs.len() - i,
        {
            let ghost before = scene@;
            let center = self.output_position(outputs[i].0, screen_width);
            scene.push(circle_shape(center, outputs[i].1));
            assert(shapes(scene@) =~= shapes(before).push(part[i as int]));
            assert(part.take(i + 1) =~= part.take(i as int).push(part[i as int]));
            assert(shapes(old(scene)@) + part.take(i as int).push(part[i as int]) =~= (shapes(
                old(scene)@,
            ) + part.take(i as int)).push(part[i as int]));
            i += 1;
        }
        assert(part.take(outputs.len() as int) =~= part);
    }

    /// Pushes the circles of the middle signals.
    fn draw_signals(&self, map: &LogicGateMap, scene: &mut Vec<Shape>)
        requires
            self.wf(),
            map.wf(),
            self@.shows(map@),
        ensures
            shapes(final(scene)@) == shapes(old(scene)@) + self@.signal_circles(map@),
    {
        let signals = map.middle_signals();
        let ghost part = self@.signal_circles(map@);
        let mut i: usize = 0;
        assert(shapes(scene@) =~= shapes(old(scene)@) + part.take(0));
        while i < signals.len()
            invariant
                i <= signals.len(),
                signals@ == map@.middle_signals,
                self.wf(),
                map.wf(),
                self@.shows(map@),
                part == self@.signal_circles(map@),
                shapes(scene@) == shapes(old(scene)@) + part.take(i as int),
            decreases signals.len() - i,
        {
            let ghost before = scene@;
            let center = self.connection_point_position(
                map,
                0,
                ConnectionPoint::MiddleSignal(signals[i].0),
            );
            scene.push(circle_shape(center, signals[i].1));
            assert(shapes(scene@) =~= shapes(before).push(part[i as int]));
            assert(part.take(i + 1) =~= part.take(i as int).push(part[i as int]));
            assert(shapes(old(scene)@) + part.take(i as int).push(part[i as int]) =~= (shapes(
                old(scene)@,
            ) + part.take(i as int)).push(part[i as int]));
            i += 1;
        }
        assert(part.take(signals.len() as int) =~= part);
    }

    /// Pushes the lines of the connections.
    fn draw_connections(&self, map: &LogicGateMap, screen_width: i128, scene: &mut Vec<Shape>)
        requires
            self.wf(),
            map.wf(),
            self@.shows(map@),
            -REACH <= screen_width <= REACH,
        ensures
            shapes(final(scene)@) == shapes(old(scene)@) + self@.connection_lines(
                map@,
                screen_width as int,
            ),
    {
        let connections = map.connections();
        let ghost part = self@.connection_lines(map@, screen_width as int);
        let mut i: usize = 0;
        assert(shapes(scene@) =~= shapes(old(scene)@) + part.take(0));
        while i < connections.len()
            invariant
                i <= connections.len(),
                connections@ == map@.connections,
                self.wf(),
                map.wf(),
                self@.shows(map@),
                -REACH <= screen_width <= REACH,
                part == self@.connection_lines(map@, screen_width as int),
                shapes(scene@) == shapes(old(scene)@) + part.take(i as int),
            decreases connections.len() - i,
        {
            let ghost before = scene@;
            let connection = connections[i].1;
            assert(self@.locates(map@, map@.connections[i as int].1.start));
            let from = self.connection_point_position(map, screen_width, connection.start);
            let to = self.connection_point_position(map, screen_width, connection.end);
            let on = map.connection_point_value(&connection.start);
            scene.push(line_shape(from, to, on));
            assert(shapes(scene@) =~= shapes(before).push(part[i as int]));
            assert(part.take(i + 1) =~= part.take(i as int).push(part[i as int]));
            assert(shapes(old(scene)@) + part.take(i as int).push(part[i as int]) =~= (shapes(
                old(scene)@,
            ) + part.take(i as int)).push(part[i as int]));
            i += 1;
        }
        assert(part.take(connections.len() as int) =~= part);
    }

    /// Pushes what is drawn for a gate at place `k` of the layout.
    fn draw_gate(&self, map: &LogicGateMap, k: usize, scene: &mut Vec<Shape>)
        requires
            self.wf(),
            map.wf(),
            self@.shows(map@),
            k < self@.gates.len(),
        ensures
            shapes(final(scene)@) == shapes(old(scene)@) + self@.gate_drawing(map@, k as int),
    {
        proof {
            self.lemma_view();
            lemma_slot(self@.gates, self@.gates[k as int].0, k as int);
        }
        let id = self.gates[k].0;
        let at = self.gates[k].1.position;
        let gate = map.gate_by_id(id);
        let input_count = gate.input_count();
        let output_count = gate.output_count();
        let rows: usize = if input_count >= output_count {
            input_count
        } else {
            output_count
        };
        let ghost model = gate@;
        let ghost frame = seq![
            gate_frame(at@, greater(model.inputs().len() as int, model.outputs().len() as int)),
        ];
        let ghost in_pins = Seq::new(
            model.inputs().len(),
            |j: int|
                port_circle(
                    self@.gate_input_position(map@, id, model.inputs()[j].0),
                    model.inputs()[j].1,
                ),
        );
        let ghost out_pins = Seq::new(
            model.outputs().len(),
            |j: int|
                port_circle(
                    self@.gate_output_position(map@, id, model.outputs()[j].0),
                    model.outputs()[j].1,
                ),
        );
        scene.push(frame_shape(at, rows));
        assert(shapes(scene@) =~= shapes(old(scene)@) + frame);
        let inputs = gate.inputs();
        let mut j: usize = 0;
        assert(shapes(scene@) =~= shapes(old(scene)@) + frame + in_pins.take(0));
        while j < inputs.len()
            invariant
                j <= inputs.len(),
                inputs@ == model.inputs(),
                model == get(map@.gates, id),
                present(map@.gates, id),
                present(self@.gates, id),
                self.wf(),
                map.wf(),
                self@.shows(map@),
                in_pins == Seq::new(
                    model.inputs().len(),
                    |j: int|
                        port_circle(
                            self@.gate_input_position(map@, id, model.inputs()[j].0),
                            model.inputs()[j].1,
                        ),
                ),
                shapes(scene@) == shapes(old(scene)@) + frame + in_pins.take(j as int),
            decreases inputs.len() - j,
        {
            let ghost before = scene@;
            proof {
                model.lemma_listed_input(j as int);
            }
            let center = self.gate_input_position(map, id, inputs[j].0);
            scene.push(circle_shape(center, inputs[j].1));
            assert(shapes(scene@) =~= shapes(before).push(in_pins[j as int]));
            assert(in_pins.take(j + 1) =~= in_pins.take(j as int).push(in_pins[j as int]));
            assert(shapes(old(scene)@) + frame + in_pins.take(j as int).push(in_pins[j as int])
                =~= (shapes(old(scene)@) + frame + in_pins.take(j as int)).push(
                in_pins[j as int],
            ));
            j += 1;
        }
        assert(in_pins.take(inputs.len() as int) =~= in_pins);
        let outputs = gate.outputs();
        let mut j: usize = 0;
        assert(shapes(scene@) =~= shapes(old(scene)@) + frame + in_pins + out_pins.take(0));
        while j < outputs.len()
            invariant
                j <= outputs.len(),
                outputs@ == model.outputs(),
                model == get(map@.gates, id),
                present(map@.gates, id),
                present(self@.gates, id),
                self.wf(),
                map.wf(),
                self@.shows(map@),
                out_pins == Seq::new(
                    model.outputs().len(),
                    |j: int|
                        port_circle(
                            self@.gate_output_position(map@, id, model.outputs()[j].0),
                            model.outputs()[j].1,
                        ),
                ),
                shapes(scene@) == shapes(old(scene)@) + frame + in_pins + out_pins.take(j as int),
            decreases outputs.len() - j,
        {
            let ghost before = scene@;
            proof {
                model.lemma_listed_output(j as int);
            }
            let center = self.gate_output_position(map, id, outputs[j].0);
            scene.push(circle_shape(center, outputs[j].1));
            assert(shapes(scene@) =~= shapes(before).push(out_pins[j as int]));
            assert(out_pins.take(j + 1) =~= out_pins.take(j as int).push(out_pins[j as int]));
            assert(shapes(old(scene)@) + frame + in_pins + out_pins.take(j as int).push(
                out_pins[j as int],
            ) =~= (shapes(old(scene)@) + frame + in_pins + out_pins.take(j as int)).push(
                out_pins[j as int],
            ));
            j += 1;
        }
        assert(out_pins.take(outputs.len() as int) =~= out_pins);
        assert(shapes(old(scene)@) + frame + in_pins + out_pins =~= shapes(old(scene)@) + (frame
            + in_pins + out_pins));
    }

    /// Everything that is drawn for the circuit on a screen of width
    /// `screen_width`, in drawing order.
    pub fn scene(&self, map: &LogicGateMap, screen_width: i128) -> (scene: Vec<Shape>)
        requires
            self.wf(),
            map.wf(),
            self@.shows(map@),
            -REACH <= screen_width <= REACH,
        ensures
            shapes(scene@) == self@.scene(map@, screen_width as int),
    {
        let mut scene: Vec<Shape> = Vec::new();
        assert(shapes(scene@) =~= Seq::<ShapeModel>::empty());
        self.draw_inputs(map, &mut scene);
        self.draw_outputs(map, screen_width, &mut scene);
        self.draw_signals(map, &mut scene);
        self.draw_connections(map, screen_width, &mut scene);
        let ghost fixed = shapes(scene@);
        assert(fixed =~= self@.input_circles(map@) + self@.output_circles(
            map@,
            screen_width as int,
        ) + self@.signal_circles(map@) + self@.connection_lines(map@, screen_width as int));
        proof {
            self.lemma_view();
        }
        let mut k: usize = 0;
        assert(shapes(scene@) =~= fixed + self@.gates_drawn(map@, 0));
        while k < self.gates.len()
            invariant
                k <= self.gates.len(),
                self@.gates.len() == self.gates@.len(),
                self.wf(),
                map.wf(),
                self@.shows(map@),
                shapes(scene@) == fixed + self@.gates_drawn(map@, k as nat),
            decreases self.gates.len() - k,
        {
            self.draw_gate(map, k, &mut scene);
            assert(fixed + self@.gates_drawn(map@, k as nat) + self@.gate_drawing(map@, k as int)
                =~= fixed + self@.gates_drawn(map@, (k + 1) as nat));
            k += 1;
        }
        scene
    }

    /// Takes the click of this frame, if there is one, and returns what is
    /// to be drawn: the click changes the value of every input whose circle
    /// it hits, and the circuit is drawn with the values it has after that.
    pub fn process_input_and_render(
        &self,
        map: &mut LogicGateMap,
        click_position: Option<Position>,
        screen_width: i128,
    ) -> (scene: Vec<Shape>)
        requires
            self.wf(),
            old(map).wf(),
            self@.shows(old(map)@),
            -REACH <= screen_width <= REACH,
        ensures
            final(map)@ == self@.clicked(old(map)@, click_position),
            final(map).wf(),
            self@.shows(final(map)@),
            old(map)@.steppable() ==> final(map)@.steppable(),
            shapes(scene@) == self@.scene(final(map)@, screen_width as int),
    {
        self.toggle_clicked(map, click_position);
        self.scene(map, screen_width)
    }
}

} // verus!
