//! What a step does to the value of each point, and what the standard
//! circuits compute.

use vstd::prelude::*;
use crate::id::Id;
use crate::logic_gate::{ConnectionPoint, GateModel};
use crate::logic_gate_map::{
    and_gate_model, custom_entry, custom_in, custom_out, input_point, nand_entry, nand_in,
    nand_out, nor_gate_model, not_gate_model, or_gate_model, output_point, sr_latch_model,
    CircuitModel,
};
use crate::table::{get, lemma_same_keys, lemma_slot, lemma_store, present, slot};

verus! {

impl GateModel {
    /// Writing an input slot changes the value of that slot and of no other.
    pub proof fn lemma_input_written(self, id: Id, value: bool)
        requires
            self.wf(),
        ensures
            forall|other: Id| self.with_input(id, value).output(other) == self.output(other),
            forall|other: Id|
                other != id ==> self.with_input(id, value).input(other) == self.input(other),
            self.input(id) is Some ==> self.with_input(id, value).input(id) == Some(value),
            self.input(id) is None ==> self.with_input(id, value) == self,
    {
        match self {
            GateModel::Nand { .. } => {},
            GateModel::Custom(inner) => {
                if present(inner.inputs, id) {
                    lemma_store(inner.inputs, id, value);
                }
            },
        }
    }

    /// Writing an output slot changes the value of that slot and of no
    /// other.
    pub proof fn lemma_output_written(self, id: Id, value: bool)
        requires
            self.wf(),
        ensures
            forall|other: Id| self.with_output(id, value).input(other) == self.input(other),
            forall|other: Id|
                other != id ==> self.with_output(id, value).output(other) == self.output(other),
            self.output(id) is Some ==> self.with_output(id, value).output(id) == Some(value),
            self.output(id) is None ==> self.with_output(id, value) == self,
    {
        match self {
            GateModel::Nand { .. } => {},
            GateModel::Custom(inner) => {
                if present(inner.outputs, id) {
                    lemma_store(inner.outputs, id, value);
                }
            },
        }
    }
}

impl CircuitModel {
    /// The place of the last of the first `n` connections that end at the
    /// point `q`.
    pub open spec fn driver(self, q: ConnectionPoint, n: nat) -> Option<int>
        decreases n,
    {
        if n == 0 || n > self.connections.len() {
            None
        } else if self.connections[n - 1].1.end == q {
            Some(n - 1)
        } else {
            self.driver(q, (n - 1) as nat)
        }
    }

    /// The value that the point `q` has after a step in which no connection
    /// ends at it: a slot of a gate has what its gate makes of it, every
    /// other point keeps its value.
    pub open spec fn undriven(self, q: ConnectionPoint) -> bool {
        match q {
            ConnectionPoint::GateInput { gate, input } => get(self.gates, gate).step().input(
                input,
            )->0,
            ConnectionPoint::GateOutput { gate, output } => get(self.gates, gate).step().output(
                output,
            )->0,
            _ => self.point_value(q),
        }
    }

    /// A write changes the value of the point it writes and of no other.
    pub proof fn lemma_write_value(self, p: ConnectionPoint, value: bool, q: ConnectionPoint)
        requires
            self.wf(),
            self.has_point(q),
        ensures
            self.write(p, value).has_point(q),
            self.write(p, value).point_value(q) == if p == q {
                value
            } else {
                self.point_value(q)
            },
    {
        let after = self.write(p, value);
        match p {
            ConnectionPoint::Input(id) => {
                lemma_store(self.inputs, id, value);
            },
            ConnectionPoint::Output(id) => {
                lemma_store(self.outputs, id, value);
            },
            ConnectionPoint::MiddleSignal(id) => {
                lemma_store(self.middle_signals, id, value);
            },
            ConnectionPoint::GateInput { gate, input } => {
                if present(self.gates, gate) {
                    let k = slot(self.gates, gate);
                    self.gates[k].1.lemma_input_written(input, value);
                    lemma_same_keys(self.gates, after.gates, gate);
                    lemma_slot(after.gates, gate, k);
                    match q {
                        ConnectionPoint::GateInput { gate: other, .. } => {
                            lemma_same_keys(self.gates, after.gates, other);
                            let o = slot(self.gates, other);
                            lemma_slot(self.gates, other, o);
                            lemma_slot(after.gates, other, o);
                        },
                        ConnectionPoint::GateOutput { gate: other, .. } => {
                            lemma_same_keys(self.gates, after.gates, other);
                            let o = slot(self.gates, other);
                            lemma_slot(self.gates, other, o);
                            lemma_slot(after.gates, other, o);
                        },
                        _ => {},
                    }
                }
            },
            ConnectionPoint::GateOutput { gate, output } => {
                if present(self.gates, gate) {
                    let k = slot(self.gates, gate);
                    self.gates[k].1.lemma_output_written(output, value);
                    lemma_same_keys(self.gates, after.gates, gate);
                    lemma_slot(after.gates, gate, k);
                    match q {
                        ConnectionPoint::GateInput { gate: other, .. } => {
                            lemma_same_keys(self.gates, after.gates, other);
                            let o = slot(self.gates, other);
                            lemma_slot(self.gates, other, o);
                            lemma_slot(after.gates, other, o);
                        },
                        ConnectionPoint::GateOutput { gate: other, .. } => {
                            lemma_same_keys(self.gates, after.gates, other);
                            let o = slot(self.gates, other);
                            lemma_slot(self.gates, other, o);
                            lemma_slot(after.gates, other, o);
                        },
                        _ => {},
                    }
                }
            },
        }
    }

    /// The value of the point `q` once the gates have stepped and the first
    /// `n` connections have carried their values.
    proof fn lemma_propagated_value(self, q: ConnectionPoint, n: nat)
        requires
            self.wf(),
            self.steppable(),
            self.has_point(q),
            n <= self.connections.len(),
        ensures
            self.propagate(CircuitModel { gates: self.stepped_gates(), ..self }, n).has_point(q),
            self.propagate(CircuitModel { gates: self.stepped_gates(), ..self }, n).point_value(q)
                == match self.driver(q, n) {
                Some(k) => self.point_value(self.connections[k].1.start),
                None => self.undriven(q),
            },
        decreases n,
    {
        let base = CircuitModel { gates: self.stepped_gates(), ..self };
        if n == 0 {
            match q {
                ConnectionPoint::GateInput { gate, .. } => {
                    let k = slot(self.gates, gate);
                    lemma_slot(self.gates, gate, k);
                    lemma_same_keys(self.gates, base.gates, gate);
                    lemma_slot(base.gates, gate, k);
                    self.gates[k].1.lemma_step();
                },
                ConnectionPoint::GateOutput { gate, .. } => {
                    let k = slot(self.gates, gate);
                    lemma_slot(self.gates, gate, k);
                    lemma_same_keys(self.gates, base.gates, gate);
                    lemma_slot(base.gates, gate, k);
                    self.gates[k].1.lemma_step();
                },
                _ => {},
            }
        } else {
            self.lemma_propagated_value(q, (n - 1) as nat);
            self.lemma_propagate((n - 1) as nat);
            let before = self.propagate(base, (n - 1) as nat);
            let connection = self.connections[n - 1].1;
            before.lemma_write_value(connection.end, self.point_value(connection.start), q);
        }
    }

    /// The value of a point after a step. Where connections end at the
    /// point, it has the value that the start of the last of them had before
    /// the step. Otherwise a slot of a gate has what its gate makes of it
    /// in the step, and every other point keeps its value.
    pub proof fn lemma_step_value(self, q: ConnectionPoint)
        requires
            self.wf(),
            self.steppable(),
            self.has_point(q),
        ensures
            self.step().has_point(q),
            self.step().point_value(q) == match self.driver(q, self.connections.len()) {
                Some(k) => self.point_value(self.connections[k].1.start),
                None => self.undriven(q),
            },
    {
        self.lemma_propagated_value(q, self.connections.len());
    }
}

impl CircuitModel {
    /// Where connection `k` ends at the point `q` and no connection after it
    /// does, connection `k` is the driver of `q`.
    pub proof fn lemma_driver_is(self, q: ConnectionPoint, k: int, n: nat)
        requires
            0 <= k < n <= self.connections.len(),
            self.connections[k].1.end == q,
            forall|j: int| k < j < n ==> (#[trigger] self.connections[j]).1.end != q,
        ensures
            self.driver(q, n) == Some(k),
        decreases n,
    {
        if n - 1 > k {
            self.lemma_driver_is(q, k, (n - 1) as nat);
        }
    }

    /// The last connection that ends at a point decides its value: after a
    /// step the point has the value that the start of that connection had
    /// before the step.
    pub proof fn lemma_last_connection_decides(self, k: int, q: ConnectionPoint)
        requires
            self.wf(),
            self.steppable(),
            self.has_point(q),
            0 <= k < self.connections.len(),
            self.connections[k].1.end == q,
            forall|j: int|
                k < j < self.connections.len() ==> (#[trigger] self.connections[j]).1.end != q,
        ensures
            self.step().has_point(q),
            self.step().point_value(q) == self.point_value(self.connections[k].1.start),
    {
        self.lemma_driver_is(q, k, self.connections.len());
        self.lemma_step_value(q);
    }

    /// A connection that ends at the output slot of a gate overrides what
    /// that gate computes: after the step the slot holds the value that the
    /// connection's start had before the step, unless a connection with a
    /// greater identifier ends at the same slot.
    pub proof fn lemma_connection_overrides_output(self, k: int, gate: Id, output: Id)
        requires
            self.wf(),
            self.steppable(),
            0 <= k < self.connections.len(),
            self.connections[k].1.end == (ConnectionPoint::GateOutput { gate, output }),
            get(self.gates, gate).output(output) is Some,
            forall|j: int|
                k < j < self.connections.len() ==> (#[trigger] self.connections[j]).1.end != (
                    ConnectionPoint::GateOutput { gate, output }),
        ensures
            present(self.step().gates, gate),
            get(self.step().gates, gate).output(output) == Some(
                self.point_value(self.connections[k].1.start),
            ),
    {
        assert(self.accepts(self.connections[k].1.end));
        self.lemma_last_connection_decides(k, ConnectionPoint::GateOutput { gate, output });
    }
}

impl GateModel {
    /// A gate offers every slot that it offers.
    pub proof fn lemma_covers_self(self)
        ensures
            self.covers(self),
        decreases self, 0nat,
    {
        match self {
            GateModel::Nand { .. } => {},
            GateModel::Custom(inner) => inner.lemma_covers_self(),
        }
    }

    /// A gate that covers a gate that covers a third one covers the third.
    pub proof fn lemma_covers_trans(self, middle: GateModel, before: GateModel)
        requires
            self.covers(middle),
            middle.covers(before),
        ensures
            self.covers(before),
        decreases self, 0nat,
    {
        match self {
            GateModel::Nand { .. } => {},
            GateModel::Custom(inner) => {
                inner.lemma_covers_trans(middle->Custom_0, before->Custom_0);
            },
        }
    }
}

impl CircuitModel {
    /// A circuit has every point that it has.
    pub proof fn lemma_covers_self(self)
        ensures
            self.covers(self),
        decreases self, 1nat,
    {
        assert forall|i: int| 0 <= i < self.gates.len() implies (#[trigger] self.gates[i]).1.covers(
            self.gates[i].1,
        ) by {
            self.gates[i].1.lemma_covers_self();
        }
    }

    /// A circuit that covers a circuit that covers a third one covers the
    /// third.
    pub proof fn lemma_covers_trans(self, middle: CircuitModel, before: CircuitModel)
        requires
            self.covers(middle),
            middle.covers(before),
        ensures
            self.covers(before),
        decreases self, 1nat,
    {
        assert forall|i: int| 0 <= i < self.gates.len() implies (#[trigger] self.gates[i]).0
            == before.gates[i].0 && self.gates[i].1.covers(before.gates[i].1) by {
            assert(self.gates[i].0 == middle.gates[i].0);
            assert(middle.gates[i].0 == before.gates[i].0);
            self.gates[i].1.lemma_covers_trans(middle.gates[i].1, before.gates[i].1);
        }
    }

    /// The circuit is a state of the circuit `model`: it is well formed, it
    /// can be stepped, and it has the points, gates and connections of
    /// `model`.
    pub open spec fn runs_as(self, model: CircuitModel) -> bool {
        self.wf() && self.steppable() && self.covers(model)
    }

    /// The circuit `n` steps later.
    pub open spec fn steps(self, n: nat) -> CircuitModel
        decreases n,
    {
        if n == 0 {
            self
        } else {
            self.steps((n - 1) as nat).step()
        }
    }

    /// A state of a circuit stays a state of that circuit in a step.
    pub proof fn lemma_runs_on(self, model: CircuitModel)
        requires
            self.runs_as(model),
        ensures
            self.step().runs_as(model),
    {
        self.lemma_step();
        self.step().lemma_covers_trans(self, model);
    }
}

impl CircuitModel {
    /// Circuits with the same connections have the same drivers.
    pub proof fn lemma_driver_same(self, other: CircuitModel, q: ConnectionPoint, n: nat)
        requires
            self.connections == other.connections,
        ensures
            self.driver(q, n) == other.driver(q, n),
        decreases n,
    {
        if n > 0 && n <= self.connections.len() {
            self.lemma_driver_same(other, q, (n - 1) as nat);
        }
    }

    /// The value of a point of `model` in a state of `model` after a step,
    /// by the connections of `model`.
    pub proof fn lemma_state_point(self, model: CircuitModel, q: ConnectionPoint)
        requires
            self.runs_as(model),
            model.wf(),
            model.has_point(q),
        ensures
            self.has_point(q),
            self.step().has_point(q),
            self.step().point_value(q) == match model.driver(q, model.connections.len()) {
                Some(k) => self.point_value(model.connections[k].1.start),
                None => self.undriven(q),
            },
    {
        self.lemma_covers_points(model, q);
        self.lemma_step_value(q);
        self.lemma_driver_same(model, q, model.connections.len());
    }

    /// What a NAND gate of `model`, which stands at place `k` of its gates
    /// and has the identifiers from `n` on, makes of its slots in a state of
    /// `model`: the inputs stay, the output becomes the NAND of the inputs.
    pub proof fn lemma_state_nand(self, model: CircuitModel, k: int, n: nat)
        requires
            self.runs_as(model),
            model.wf(),
            0 <= k < model.gates.len(),
            model.gates[k] == nand_entry(n),
            n + 3 <= usize::MAX,
        ensures
            self.undriven(nand_in(n, 0)) == self.point_value(nand_in(n, 0)),
            self.undriven(nand_in(n, 1)) == self.point_value(nand_in(n, 1)),
            self.undriven(nand_out(n)) == !(self.point_value(nand_in(n, 0)) && self.point_value(
                nand_in(n, 1),
            )),
    {
        broadcast use Id::of_number;

        assert(self.gates[k].0 == Id::of(n));
        lemma_slot(self.gates, Id::of(n), k);
        assert(self.gates[k].1.covers(model.gates[k].1));
    }
}

/// Two gates differ at most in the values of their slots: NAND gates have
/// the same slots, and custom gates wrap circuits with the same gates,
/// connections and middle signals.
pub open spec fn same_inside(a: GateModel, b: GateModel) -> bool {
    match a {
        GateModel::Nand { first, second, output } => match b {
            GateModel::Nand { first: f, second: s, output: o } => first.0 == f.0 && second.0 == s.0
                && output.0 == o.0,
            GateModel::Custom(_) => false,
        },
        GateModel::Custom(x) => match b {
            GateModel::Nand { .. } => false,
            GateModel::Custom(y) => x.gates == y.gates && x.connections == y.connections
                && x.middle_signals == y.middle_signals && x.next_id == y.next_id,
        },
    }
}

impl CircuitModel {
    /// The circuit that the custom gate with the number `g` wraps.
    pub open spec fn nested(self, g: nat) -> CircuitModel {
        get(self.gates, Id::of(g))->Custom_0
    }

    /// The connections of a circuit change a gate at most in the values of
    /// its slots: once the gates have stepped and the first `n` connections
    /// have carried their values, the inside of a gate `g` is what the
    /// step of that gate has made of it.
    proof fn lemma_propagated_gate(self, g: Id, n: nat)
        requires
            self.wf(),
            self.steppable(),
            present(self.gates, g),
            n <= self.connections.len(),
        ensures
            present(self.propagate(CircuitModel { gates: self.stepped_gates(), ..self }, n).gates, g),
            same_inside(
                get(self.propagate(CircuitModel { gates: self.stepped_gates(), ..self }, n).gates, g),
                get(self.gates, g).step(),
            ),
        decreases n,
    {
        let base = CircuitModel { gates: self.stepped_gates(), ..self };
        let k = slot(self.gates, g);
        lemma_slot(self.gates, g, k);
        self.lemma_propagate(n);
        let state = self.propagate(base, n);
        assert(state.gates[k].0 == g);
        lemma_slot(state.gates, g, k);
        if n == 0 {
        } else {
            self.lemma_propagated_gate(g, (n - 1) as nat);
            self.lemma_propagate((n - 1) as nat);
            let before = self.propagate(base, (n - 1) as nat);
            assert(before.gates[k].0 == g);
            lemma_slot(before.gates, g, k);
            let connection = self.connections[n - 1].1;
            match connection.end {
                ConnectionPoint::GateInput { gate, .. } => {
                    if present(before.gates, gate) {
                        let o = slot(before.gates, gate);
                        lemma_slot(before.gates, gate, o);
                    }
                },
                ConnectionPoint::GateOutput { gate, .. } => {
                    if present(before.gates, gate) {
                        let o = slot(before.gates, gate);
                        lemma_slot(before.gates, gate, o);
                    }
                },
                _ => {},
            }
        }
    }

    /// After a step of a circuit, the inside of each of its gates is what
    /// the step of that gate has made of it; the connections of the circuit
    /// have changed at most the values of the slots.
    pub proof fn lemma_step_gate(self, g: Id)
        requires
            self.wf(),
            self.steppable(),
            present(self.gates, g),
        ensures
            present(self.step().gates, g),
            same_inside(get(self.step().gates, g), get(self.gates, g).step()),
    {
        self.lemma_propagated_gate(g, self.connections.len());
    }

    /// A custom gate of `model`, which stands at place `k` of its gates, has
    /// the number `g` and wraps `inner`, in a state of `model`: the circuit
    /// it wraps is a state of `inner` before and after a step; after the
    /// step the points inside it have the values that a step of its own
    /// gives them; and its inputs and outputs are the slots of that gate.
    pub proof fn lemma_state_custom(self, model: CircuitModel, k: int, g: nat, inner: CircuitModel)
        requires
            self.runs_as(model),
            model.wf(),
            0 <= k < model.gates.len(),
            model.gates[k] == custom_entry(g, inner),
        ensures
            self.nested(g).runs_as(inner),
            self.step().nested(g).runs_as(inner),
            self.step().nested(g).gates == self.nested(g).step().gates,
            forall|i: Id| #![trigger self.nested(g).point_value(ConnectionPoint::Input(i))]
                present(inner.inputs, i) ==> {
                    &&& self.nested(g).point_value(ConnectionPoint::Input(i)) == self.point_value(
                        ConnectionPoint::GateInput { gate: Id::of(g), input: i },
                    )
                    &&& self.step().nested(g).point_value(ConnectionPoint::Input(i))
                        == self.step().point_value(
                        ConnectionPoint::GateInput { gate: Id::of(g), input: i },
                    )
                    &&& self.nested(g).step().point_value(ConnectionPoint::Input(i))
                        == self.undriven(ConnectionPoint::GateInput { gate: Id::of(g), input: i })
                },
            forall|o: Id| #![trigger self.nested(g).point_value(ConnectionPoint::Output(o))]
                present(inner.outputs, o) ==> {
                    &&& self.nested(g).point_value(ConnectionPoint::Output(o)) == self.point_value(
                        ConnectionPoint::GateOutput { gate: Id::of(g), output: o },
                    )
                    &&& self.step().nested(g).point_value(ConnectionPoint::Output(o))
                        == self.step().point_value(
                        ConnectionPoint::GateOutput { gate: Id::of(g), output: o },
                    )
                    &&& self.nested(g).step().point_value(ConnectionPoint::Output(o))
                        == self.undriven(ConnectionPoint::GateOutput { gate: Id::of(g), output: o })
                },
    {
        let id = Id::of(g);
        assert(self.gates[k].0 == id);
        lemma_slot(self.gates, id, k);
        assert(self.gates[k].1.covers(model.gates[k].1));
        let before = self.nested(g);
        assert(before.wf());
        assert(before.steppable());
        self.lemma_runs_on(model);
        let next = self.step();
        assert(next.gates[k].0 == id);
        lemma_slot(next.gates, id, k);
        assert(next.gates[k].1.covers(model.gates[k].1));
        self.lemma_step_gate(id);
        before.lemma_step();
    }
}

/// The values of the points of a NOT circuit: its input, the two inputs and
/// the output of its NAND gate, and its output.
pub struct NotState {
    pub input: bool,
    pub first: bool,
    pub second: bool,
    pub nand: bool,
    pub output: bool,
}

/// The values of the points of a state of the NOT circuit.
pub open spec fn not_state(c: CircuitModel) -> NotState {
    NotState {
        input: c.point_value(input_point(0)),
        first: c.point_value(nand_in(1, 0)),
        second: c.point_value(nand_in(1, 1)),
        nand: c.point_value(nand_out(1)),
        output: c.point_value(output_point(5)),
    }
}

/// What a step makes of the values of a NOT circuit.
pub open spec fn not_next(x: NotState) -> NotState {
    NotState {
        input: x.input,
        first: x.input,
        second: x.input,
        nand: !(x.first && x.second),
        output: x.nand,
    }
}

/// The NOT circuit is well formed, can be stepped and has its five points.
pub proof fn lemma_not_model()
    ensures
        not_gate_model().wf(),
        not_gate_model().steppable(),
        not_gate_model().has_point(input_point(0)),
        not_gate_model().has_point(nand_in(1, 0)),
        not_gate_model().has_point(nand_in(1, 1)),
        not_gate_model().has_point(nand_out(1)),
        not_gate_model().has_point(output_point(5)),
{
    broadcast use Id::of_number;

    let m = not_gate_model();
    lemma_slot(m.gates, Id::of(1), 0);
    assert(m.inputs[0].0 == Id::of(0));
    assert(m.outputs[0].0 == Id::of(5));
}

/// One step of a state of the NOT circuit.
pub proof fn lemma_not_step(c: CircuitModel)
    requires
        c.runs_as(not_gate_model()),
    ensures
        c.step().runs_as(not_gate_model()),
        not_state(c.step()) == not_next(not_state(c)),
{
    broadcast use Id::of_number;

    let m = not_gate_model();
    lemma_not_model();
    c.lemma_runs_on(m);
    c.lemma_covers_points(m, input_point(0));
    c.lemma_covers_points(m, nand_in(1, 0));
    c.lemma_covers_points(m, nand_in(1, 1));
    c.lemma_covers_points(m, nand_out(1));
    c.lemma_covers_points(m, output_point(5));
    c.lemma_step_value(input_point(0));
    c.lemma_step_value(nand_in(1, 0));
    c.lemma_step_value(nand_in(1, 1));
    c.lemma_step_value(nand_out(1));
    c.lemma_step_value(output_point(5));
    reveal_with_fuel(CircuitModel::driver, 4);
    assert(c.gates[0].0 == Id::of(1));
    lemma_slot(c.gates, Id::of(1), 0);
    assert(c.gates[0].1.covers(m.gates[0].1));
}

/// The NOT circuit inverts: from three steps on, its output is the opposite
/// of its input, whatever values its points had at first. The input keeps
/// its value.
pub proof fn lemma_not_gate_inverts(c: CircuitModel, n: nat)
    requires
        c.runs_as(not_gate_model()),
        n >= 3,
    ensures
        c.steps(n).runs_as(not_gate_model()),
        not_state(c.steps(n)).input == not_state(c).input,
        not_state(c.steps(n)).output == !not_state(c).input,
    decreases n,
{
    if n == 3 {
        reveal_with_fuel(CircuitModel::steps, 4);
        lemma_not_step(c);
        lemma_not_step(c.step());
        lemma_not_step(c.step().step());
    } else {
        lemma_not_gate_inverts(c, (n - 1) as nat);
        lemma_not_settled(c, (n - 1) as nat);
        lemma_not_step(c.steps((n - 1) as nat));
    }
}

/// From two steps on, the NAND gate of the NOT circuit shows the opposite
/// of the input.
proof fn lemma_not_settled(c: CircuitModel, n: nat)
    requires
        c.runs_as(not_gate_model()),
        n >= 2,
    ensures
        c.steps(n).runs_as(not_gate_model()),
        not_state(c.steps(n)).input == not_state(c).input,
        not_state(c.steps(n)).first == not_state(c).input,
        not_state(c.steps(n)).second == not_state(c).input,
        not_state(c.steps(n)).nand == !not_state(c).input,
    decreases n,
{
    if n == 2 {
        reveal_with_fuel(CircuitModel::steps, 3);
        lemma_not_step(c);
        lemma_not_step(c.step());
    } else {
        lemma_not_settled(c, (n - 1) as nat);
        lemma_not_step(c.steps((n - 1) as nat));
    }
}

/// The values of the points of an AND circuit: its two inputs, the inputs
/// and the output of its first NAND gate, those of its second NAND gate, and
/// its output.
pub struct AndState {
    pub first: bool,
    pub second: bool,
    pub nand_first: bool,
    pub nand_second: bool,
    pub nand: bool,
    pub inverter_first: bool,
    pub inverter_second: bool,
    pub inverter: bool,
    pub output: bool,
}

/// The values of the points of a state of the AND circuit.
pub open spec fn and_state(c: CircuitModel) -> AndState {
    AndState {
        first: c.point_value(input_point(0)),
        second: c.point_value(input_point(1)),
        nand_first: c.point_value(nand_in(2, 0)),
        nand_second: c.point_value(nand_in(2, 1)),
        nand: c.point_value(nand_out(2)),
        inverter_first: c.point_value(nand_in(6, 0)),
        inverter_second: c.point_value(nand_in(6, 1)),
        inverter: c.point_value(nand_out(6)),
        output: c.point_value(output_point(10)),
    }
}

/// What a step makes of the values of an AND circuit.
pub open spec fn and_next(x: AndState) -> AndState {
    AndState {
        first: x.first,
        second: x.second,
        nand_first: x.first,
        nand_second: x.second,
        nand: !(x.nand_first && x.nand_second),
        inverter_first: x.nand,
        inverter_second: x.nand,
        inverter: !(x.inverter_first && x.inverter_second),
        output: x.inverter,
    }
}

/// The values of an AND circuit that has come to rest.
pub open spec fn and_at_rest(x: AndState) -> bool {
    x == and_next(x)
}

/// The AND circuit is well formed, can be stepped and has its nine points.
pub proof fn lemma_and_model()
    ensures
        and_gate_model().wf(),
        and_gate_model().steppable(),
        and_gate_model().has_point(input_point(0)),
        and_gate_model().has_point(input_point(1)),
        and_gate_model().has_point(nand_in(2, 0)),
        and_gate_model().has_point(nand_in(2, 1)),
        and_gate_model().has_point(nand_out(2)),
        and_gate_model().has_point(nand_in(6, 0)),
        and_gate_model().has_point(nand_in(6, 1)),
        and_gate_model().has_point(nand_out(6)),
        and_gate_model().has_point(output_point(10)),
{
    broadcast use Id::of_number;

    let m = and_gate_model();
    lemma_slot(m.gates, Id::of(2), 0);
    lemma_slot(m.gates, Id::of(6), 1);
    assert(m.inputs[0].0 == Id::of(0));
    assert(m.inputs[1].0 == Id::of(1));
    assert(m.outputs[0].0 == Id::of(10));
}

/// Which connection of the AND circuit drives each of its points.
proof fn lemma_and_wiring()
    ensures
        and_gate_model().driver(input_point(0), 5) is None,
        and_gate_model().driver(input_point(1), 5) is None,
        and_gate_model().driver(nand_in(2, 0), 5) == Some(0int),
        and_gate_model().driver(nand_in(2, 1), 5) == Some(1int),
        and_gate_model().driver(nand_out(2), 5) is None,
        and_gate_model().driver(nand_in(6, 0), 5) == Some(2int),
        and_gate_model().driver(nand_in(6, 1), 5) == Some(3int),
        and_gate_model().driver(nand_out(6), 5) is None,
        and_gate_model().driver(output_point(10), 5) == Some(4int),
{
    broadcast use Id::of_number;

    reveal_with_fuel(CircuitModel::driver, 6);
}

/// One step of a state of the AND circuit.
pub proof fn lemma_and_step(c: CircuitModel)
    requires
        c.runs_as(and_gate_model()),
    ensures
        c.step().runs_as(and_gate_model()),
        and_state(c.step()) == and_next(and_state(c)),
{
    let m = and_gate_model();
    lemma_and_model();
    lemma_and_wiring();
    c.lemma_runs_on(m);
    c.lemma_state_point(m, input_point(0));
    c.lemma_state_point(m, input_point(1));
    c.lemma_state_point(m, nand_in(2, 0));
    c.lemma_state_point(m, nand_in(2, 1));
    c.lemma_state_point(m, nand_out(2));
    c.lemma_state_point(m, nand_in(6, 0));
    c.lemma_state_point(m, nand_in(6, 1));
    c.lemma_state_point(m, nand_out(6));
    c.lemma_state_point(m, output_point(10));
    c.lemma_state_nand(m, 0, 2);
    c.lemma_state_nand(m, 1, 6);
}

/// Five steps bring the values of an AND circuit to rest, with the
/// conjunction of the inputs at the output.
pub proof fn lemma_and_rests(x: AndState)
    ensures
        and_at_rest(and_next(and_next(and_next(and_next(and_next(x)))))),
        and_next(and_next(and_next(and_next(and_next(x))))).output == (x.first && x.second),
        and_next(and_next(and_next(and_next(and_next(x))))).first == x.first,
        and_next(and_next(and_next(and_next(and_next(x))))).second == x.second,
{
}

/// The AND circuit computes the conjunction: from five steps on, its output
/// is true exactly if both inputs are, whatever values its points had at
/// first. The inputs keep their values, and the circuit is at rest.
pub proof fn lemma_and_gate_computes(c: CircuitModel, n: nat)
    requires
        c.runs_as(and_gate_model()),
        n >= 5,
    ensures
        c.steps(n).runs_as(and_gate_model()),
        and_at_rest(and_state(c.steps(n))),
        and_state(c.steps(n)).first == and_state(c).first,
        and_state(c.steps(n)).second == and_state(c).second,
        and_state(c.steps(n)).output == (and_state(c).first && and_state(c).second),
    decreases n,
{
    if n == 5 {
        reveal_with_fuel(CircuitModel::steps, 6);
        let c1 = c.step();
        let c2 = c1.step();
        let c3 = c2.step();
        let c4 = c3.step();
        lemma_and_step(c);
        lemma_and_step(c1);
        lemma_and_step(c2);
        lemma_and_step(c3);
        lemma_and_step(c4);
        lemma_and_rests(and_state(c));
    } else {
        lemma_and_gate_computes(c, (n - 1) as nat);
        lemma_and_step(c.steps((n - 1) as nat));
    }
}

/// The values of the points of an OR circuit: its two inputs, the points of
/// the NOT circuits on them, the inputs and the output of its NAND gate, and
/// its output.
pub struct OrState {
    pub first: bool,
    pub second: bool,
    pub not_first: NotState,
    pub not_second: NotState,
    pub nand_first: bool,
    pub nand_second: bool,
    pub nand: bool,
    pub output: bool,
}

/// The values of the points of a state of the OR circuit.
pub open spec fn or_state(c: CircuitModel) -> OrState {
    OrState {
        first: c.point_value(input_point(0)),
        second: c.point_value(input_point(1)),
        not_first: not_state(c.nested(6)),
        not_second: not_state(c.nested(7)),
        nand_first: c.point_value(nand_in(2, 0)),
        nand_second: c.point_value(nand_in(2, 1)),
        nand: c.point_value(nand_out(2)),
        output: c.point_value(output_point(8)),
    }
}

/// What a step makes of the values of an OR circuit.
pub open spec fn or_next(x: OrState) -> OrState {
    OrState {
        first: x.first,
        second: x.second,
        not_first: NotState { input: x.first, ..not_next(x.not_first) },
        not_second: NotState { input: x.second, ..not_next(x.not_second) },
        nand_first: x.not_first.output,
        nand_second: x.not_second.output,
        nand: !(x.nand_first && x.nand_second),
        output: x.nand,
    }
}

/// What `n` steps make of the values of an OR circuit.
pub open spec fn or_after(x: OrState, n: nat) -> OrState
    decreases n,
{
    if n == 0 {
        x
    } else {
        or_next(or_after(x, (n - 1) as nat))
    }
}

/// The OR circuit is well formed, can be stepped and has its points.
pub proof fn lemma_or_model()
    ensures
        or_gate_model().wf(),
        or_gate_model().steppable(),
        or_gate_model().has_point(input_point(0)),
        or_gate_model().has_point(input_point(1)),
        or_gate_model().has_point(nand_in(2, 0)),
        or_gate_model().has_point(nand_in(2, 1)),
        or_gate_model().has_point(nand_out(2)),
        or_gate_model().has_point(custom_in(6, not_gate_model(), 0)),
        or_gate_model().has_point(custom_out(6, not_gate_model(), 0)),
        or_gate_model().has_point(custom_in(7, not_gate_model(), 0)),
        or_gate_model().has_point(custom_out(7, not_gate_model(), 0)),
        or_gate_model().has_point(output_point(8)),
{
    broadcast use Id::of_number;

    let m = or_gate_model();
    let not = not_gate_model();
    lemma_not_model();
    lemma_slot(m.gates, Id::of(2), 0);
    lemma_slot(m.gates, Id::of(6), 1);
    lemma_slot(m.gates, Id::of(7), 2);
    assert(m.inputs[0].0 == Id::of(0));
    assert(m.inputs[1].0 == Id::of(1));
    assert(m.outputs[0].0 == Id::of(8));
    assert(not.inputs[0].0 == Id::of(0));
    assert(not.outputs[0].0 == Id::of(5));
    assert forall|i: int| 0 <= i < m.gates.len() implies (#[trigger] m.gates[i]).1.wf()
        && m.gates[i].1.steppable() by {
        if i == 0 {
        } else if i == 1 {
        } else {
        }
    }
}

/// Which connection of the OR circuit drives each of its points.
proof fn lemma_or_wiring()
    ensures
        or_gate_model().driver(input_point(0), 5) is None,
        or_gate_model().driver(input_point(1), 5) is None,
        or_gate_model().driver(custom_in(6, not_gate_model(), 0), 5) == Some(0int),
        or_gate_model().driver(custom_in(7, not_gate_model(), 0), 5) == Some(1int),
        or_gate_model().driver(nand_in(2, 0), 5) == Some(2int),
        or_gate_model().driver(nand_in(2, 1), 5) == Some(3int),
        or_gate_model().driver(nand_out(2), 5) is None,
        or_gate_model().driver(custom_out(6, not_gate_model(), 0), 5) is None,
        or_gate_model().driver(custom_out(7, not_gate_model(), 0), 5) is None,
        or_gate_model().driver(output_point(8), 5) == Some(4int),
{
    broadcast use Id::of_number;

    reveal_with_fuel(CircuitModel::driver, 6);
}

/// The values of the points of the OR circuit itself after a step.
proof fn lemma_or_points(c: CircuitModel)
    requires
        c.runs_as(or_gate_model()),
    ensures
        c.step().point_value(input_point(0)) == c.point_value(input_point(0)),
        c.step().point_value(input_point(1)) == c.point_value(input_point(1)),
        c.step().point_value(custom_in(6, not_gate_model(), 0)) == c.point_value(input_point(0)),
        c.step().point_value(custom_in(7, not_gate_model(), 0)) == c.point_value(input_point(1)),
        c.step().point_value(nand_in(2, 0)) == c.point_value(
            custom_out(6, not_gate_model(), 0),
        ),
        c.step().point_value(nand_in(2, 1)) == c.point_value(
            custom_out(7, not_gate_model(), 0),
        ),
        c.step().point_value(nand_out(2)) == !(c.point_value(nand_in(2, 0)) && c.point_value(
            nand_in(2, 1),
        )),
        c.step().point_value(custom_out(6, not_gate_model(), 0)) == c.undriven(
            custom_out(6, not_gate_model(), 0),
        ),
        c.step().point_value(custom_out(7, not_gate_model(), 0)) == c.undriven(
            custom_out(7, not_gate_model(), 0),
        ),
        c.step().point_value(output_point(8)) == c.point_value(nand_out(2)),
{
    let m = or_gate_model();
    let not = not_gate_model();
    lemma_or_model();
    lemma_or_wiring();
    c.lemma_state_point(m, input_point(0));
    c.lemma_state_point(m, input_point(1));
    c.lemma_state_point(m, nand_in(2, 0));
    c.lemma_state_point(m, nand_in(2, 1));
    c.lemma_state_point(m, nand_out(2));
    c.lemma_state_point(m, custom_in(6, not, 0));
    c.lemma_state_point(m, custom_out(6, not, 0));
    c.lemma_state_point(m, custom_in(7, not, 0));
    c.lemma_state_point(m, custom_out(7, not, 0));
    c.lemma_state_point(m, output_point(8));
    c.lemma_state_nand(m, 0, 2);
}

/// One step of a state of the OR circuit.
pub proof fn lemma_or_step(c: CircuitModel)
    requires
        c.runs_as(or_gate_model()),
    ensures
        c.step().runs_as(or_gate_model()),
        or_state(c.step()) == or_next(or_state(c)),
{
    lemma_or_model();
    c.lemma_runs_on(or_gate_model());
    lemma_or_points(c);
    lemma_inverter(c, or_gate_model(), 1, 6);
    lemma_inverter(c, or_gate_model(), 2, 7);
}

/// A NOT circuit that is the custom gate with the number `g`, at place `k`
/// of the gates of `model`, in a step of a state of `model`: what stands
/// inside it steps on its own, and its input and its output are the slots
/// of its gate.
pub proof fn lemma_inverter(c: CircuitModel, model: CircuitModel, k: int, g: nat)
    requires
        c.runs_as(model),
        model.wf(),
        0 <= k < model.gates.len(),
        model.gates[k] == custom_entry(g, not_gate_model()),
    ensures
        not_state(c.step().nested(g)) == (NotState {
            input: c.step().point_value(custom_in(g, not_gate_model(), 0)),
            output: c.step().point_value(custom_out(g, not_gate_model(), 0)),
            ..not_next(not_state(c.nested(g)))
        }),
        not_state(c.nested(g)).input == c.point_value(custom_in(g, not_gate_model(), 0)),
        not_state(c.nested(g)).output == c.point_value(custom_out(g, not_gate_model(), 0)),
        c.undriven(custom_out(g, not_gate_model(), 0)) == not_next(not_state(c.nested(g))).output,
{
    broadcast use Id::of_number;

    let not = not_gate_model();
    lemma_not_model();
    c.lemma_state_custom(model, k, g, not);
    lemma_not_step(c.nested(g));
    assert(not.inputs[0].0 == Id::of(0));
    assert(not.outputs[0].0 == Id::of(5));
    let before = c.nested(g);
    let after = c.step().nested(g);
    let stepped = before.step();
    assert(before.point_value(ConnectionPoint::Input(Id::of(0))) == c.point_value(
        ConnectionPoint::GateInput { gate: Id::of(g), input: Id::of(0) },
    ));
    assert(before.point_value(ConnectionPoint::Output(Id::of(5))) == c.point_value(
        ConnectionPoint::GateOutput { gate: Id::of(g), output: Id::of(5) },
    ));
    assert(after.point_value(nand_in(1, 0)) == stepped.point_value(nand_in(1, 0)));
    assert(after.point_value(nand_in(1, 1)) == stepped.point_value(nand_in(1, 1)));
    assert(after.point_value(nand_out(1)) == stepped.point_value(nand_out(1)));
}

/// Seven steps bring the values of an OR circuit to rest, with the
/// disjunction of the inputs at the output.
pub proof fn lemma_or_rests(x: OrState)
    ensures
        or_after(x, 7) == or_next(or_after(x, 7)),
        or_after(x, 7).output == (x.first || x.second),
        or_after(x, 7).first == x.first,
        or_after(x, 7).second == x.second,
{
    reveal_with_fuel(or_after, 8);
}

/// The OR circuit computes the disjunction: from seven steps on, its output
/// is true exactly if one of its inputs is, whatever values its points had
/// at first. The inputs keep their values, and the circuit is at rest.
pub proof fn lemma_or_gate_computes(c: CircuitModel, n: nat)
    requires
        c.runs_as(or_gate_model()),
        n >= 7,
    ensures
        c.steps(n).runs_as(or_gate_model()),
        or_state(c.steps(n)) == or_after(or_state(c), 7),
        or_state(c.steps(n)).first == or_state(c).first,
        or_state(c.steps(n)).second == or_state(c).second,
        or_state(c.steps(n)).output == (or_state(c).first || or_state(c).second),
    decreases n,
{
    lemma_or_rests(or_state(c));
    if n == 7 {
        lemma_or_runs(c, 7);
    } else {
        lemma_or_gate_computes(c, (n - 1) as nat);
        lemma_or_step(c.steps((n - 1) as nat));
    }
}

/// The values of a state of the OR circuit after `n` steps.
pub proof fn lemma_or_runs(c: CircuitModel, n: nat)
    requires
        c.runs_as(or_gate_model()),
    ensures
        c.steps(n).runs_as(or_gate_model()),
        or_state(c.steps(n)) == or_after(or_state(c), n),
    decreases n,
{
    if n > 0 {
        lemma_or_runs(c, (n - 1) as nat);
        lemma_or_step(c.steps((n - 1) as nat));
    }
}

/// An AND circuit that is the custom gate with the number `g`, at place `k`
/// of the gates of `model`, in a step of a state of `model`: what stands
/// inside it steps on its own, and its inputs and its output are the slots
/// of its gate.
pub proof fn lemma_conjunction(c: CircuitModel, model: CircuitModel, k: int, g: nat)
    requires
        c.runs_as(model),
        model.wf(),
        0 <= k < model.gates.len(),
        model.gates[k] == custom_entry(g, and_gate_model()),
    ensures
        and_state(c.step().nested(g)) == (AndState {
            first: c.step().point_value(custom_in(g, and_gate_model(), 0)),
            second: c.step().point_value(custom_in(g, and_gate_model(), 1)),
            output: c.step().point_value(custom_out(g, and_gate_model(), 0)),
            ..and_next(and_state(c.nested(g)))
        }),
        and_state(c.nested(g)).first == c.point_value(custom_in(g, and_gate_model(), 0)),
        and_state(c.nested(g)).second == c.point_value(custom_in(g, and_gate_model(), 1)),
        and_state(c.nested(g)).output == c.point_value(custom_out(g, and_gate_model(), 0)),
        c.undriven(custom_out(g, and_gate_model(), 0)) == and_next(
            and_state(c.nested(g)),
        ).output,
{
    broadcast use Id::of_number;

    let and = and_gate_model();
    lemma_and_model();
    c.lemma_state_custom(model, k, g, and);
    lemma_and_step(c.nested(g));
    assert(and.inputs[0].0 == Id::of(0));
    assert(and.inputs[1].0 == Id::of(1));
    assert(and.outputs[0].0 == Id::of(10));
    let before = c.nested(g);
    let after = c.step().nested(g);
    let stepped = before.step();
    assert(before.point_value(ConnectionPoint::Input(Id::of(0))) == c.point_value(
        ConnectionPoint::GateInput { gate: Id::of(g), input: Id::of(0) },
    ));
    assert(before.point_value(ConnectionPoint::Input(Id::of(1))) == c.point_value(
        ConnectionPoint::GateInput { gate: Id::of(g), input: Id::of(1) },
    ));
    assert(before.point_value(ConnectionPoint::Output(Id::of(10))) == c.point_value(
        ConnectionPoint::GateOutput { gate: Id::of(g), output: Id::of(10) },
    ));
    assert(after.point_value(nand_in(2, 0)) == stepped.point_value(nand_in(2, 0)));
    assert(after.point_value(nand_in(2, 1)) == stepped.point_value(nand_in(2, 1)));
    assert(after.point_value(nand_out(2)) == stepped.point_value(nand_out(2)));
    assert(after.point_value(nand_in(6, 0)) == stepped.point_value(nand_in(6, 0)));
    assert(after.point_value(nand_in(6, 1)) == stepped.point_value(nand_in(6, 1)));
    assert(after.point_value(nand_out(6)) == stepped.point_value(nand_out(6)));
}

/// The values of the points of a NOR circuit: its two inputs, the points of
/// the NOT circuits on them, the points of the AND circuit that joins
/// these, and its output.
pub struct NorState {
    pub first: bool,
    pub second: bool,
    pub not_first: NotState,
    pub not_second: NotState,
    pub and: AndState,
    pub output: bool,
}

/// The values of the points of a state of the NOR circuit.
pub open spec fn nor_state(c: CircuitModel) -> NorState {
    NorState {
        first: c.point_value(input_point(0)),
        second: c.point_value(input_point(1)),
        not_first: not_state(c.nested(2)),
        not_second: not_state(c.nested(3)),
        and: and_state(c.nested(4)),
        output: c.point_value(output_point(5)),
    }
}

/// What a step makes of the values of a NOR circuit.
pub open spec fn nor_next(x: NorState) -> NorState {
    NorState {
        first: x.first,
        second: x.second,
        not_first: NotState { input: x.first, ..not_next(x.not_first) },
        not_second: NotState { input: x.second, ..not_next(x.not_second) },
        and: AndState {
            first: x.not_first.output,
            second: x.not_second.output,
            ..and_next(x.and)
        },
        output: x.and.output,
    }
}

/// What `n` steps make of the values of a NOR circuit.
pub open spec fn nor_after(x: NorState, n: nat) -> NorState
    decreases n,
{
    if n == 0 {
        x
    } else {
        nor_next(nor_after(x, (n - 1) as nat))
    }
}

/// The NOR circuit is well formed, can be stepped and has its points.
pub proof fn lemma_nor_model()
    ensures
        nor_gate_model().wf(),
        nor_gate_model().steppable(),
        nor_gate_model().has_point(input_point(0)),
        nor_gate_model().has_point(input_point(1)),
        nor_gate_model().has_point(custom_in(2, not_gate_model(), 0)),
        nor_gate_model().has_point(custom_out(2, not_gate_model(), 0)),
        nor_gate_model().has_point(custom_in(3, not_gate_model(), 0)),
        nor_gate_model().has_point(custom_out(3, not_gate_model(), 0)),
        nor_gate_model().has_point(custom_in(4, and_gate_model(), 0)),
        nor_gate_model().has_point(custom_in(4, and_gate_model(), 1)),
        nor_gate_model().has_point(custom_out(4, and_gate_model(), 0)),
        nor_gate_model().has_point(output_point(5)),
{
    broadcast use Id::of_number;

    let m = nor_gate_model();
    let not = not_gate_model();
    let and = and_gate_model();
    lemma_not_model();
    lemma_and_model();
    lemma_slot(m.gates, Id::of(2), 0);
    lemma_slot(m.gates, Id::of(3), 1);
    lemma_slot(m.gates, Id::of(4), 2);
    assert(m.inputs[0].0 == Id::of(0));
    assert(m.inputs[1].0 == Id::of(1));
    assert(m.outputs[0].0 == Id::of(5));
    assert(not.inputs[0].0 == Id::of(0));
    assert(not.outputs[0].0 == Id::of(5));
    assert(and.inputs[0].0 == Id::of(0));
    assert(and.inputs[1].0 == Id::of(1));
    assert(and.outputs[0].0 == Id::of(10));
    assert forall|i: int| 0 <= i < m.gates.len() implies (#[trigger] m.gates[i]).1.wf()
        && m.gates[i].1.steppable() by {
        if i == 0 {
        } else if i == 1 {
        } else {
        }
    }
}

/// Which connection of the NOR circuit drives each of its points.
proof fn lemma_nor_wiring()
    ensures
        nor_gate_model().driver(input_point(0), 5) is None,
        nor_gate_model().driver(input_point(1), 5) is None,
        nor_gate_model().driver(custom_in(2, not_gate_model(), 0), 5) == Some(0int),
        nor_gate_model().driver(custom_in(3, not_gate_model(), 0), 5) == Some(1int),
        nor_gate_model().driver(custom_in(4, and_gate_model(), 0), 5) == Some(2int),
        nor_gate_model().driver(custom_in(4, and_gate_model(), 1), 5) == Some(3int),
        nor_gate_model().driver(custom_out(2, not_gate_model(), 0), 5) is None,
        nor_gate_model().driver(custom_out(3, not_gate_model(), 0), 5) is None,
        nor_gate_model().driver(custom_out(4, and_gate_model(), 0), 5) is None,
        nor_gate_model().driver(output_point(5), 5) == Some(4int),
{
    broadcast use Id::of_number;

    reveal_with_fuel(CircuitModel::driver, 6);
}

/// The values of the points of the NOR circuit itself after a step.
proof fn lemma_nor_points(c: CircuitModel)
    requires
        c.runs_as(nor_gate_model()),
    ensures
        c.step().point_value(input_point(0)) == c.point_value(input_point(0)),
        c.step().point_value(input_point(1)) == c.point_value(input_point(1)),
        c.step().point_value(custom_in(2, not_gate_model(), 0)) == c.point_value(input_point(0)),
        c.step().point_value(custom_in(3, not_gate_model(), 0)) == c.point_value(input_point(1)),
        c.step().point_value(custom_in(4, and_gate_model(), 0)) == c.point_value(
            custom_out(2, not_gate_model(), 0),
        ),
        c.step().point_value(custom_in(4, and_gate_model(), 1)) == c.point_value(
            custom_out(3, not_gate_model(), 0),
        ),
        c.step().point_value(custom_out(2, not_gate_model(), 0)) == c.undriven(
            custom_out(2, not_gate_model(), 0),
        ),
        c.step().point_value(custom_out(3, not_gate_model(), 0)) == c.undriven(
            custom_out(3, not_gate_model(), 0),
        ),
        c.step().point_value(custom_out(4, and_gate_model(), 0)) == c.undriven(
            custom_out(4, and_gate_model(), 0),
        ),
        c.step().point_value(output_point(5)) == c.point_value(
            custom_out(4, and_gate_model(), 0),
        ),
{
    let m = nor_gate_model();
    let not = not_gate_model();
    let and = and_gate_model();
    lemma_nor_model();
    lemma_nor_wiring();
    c.lemma_state_point(m, input_point(0));
    c.lemma_state_point(m, input_point(1));
    c.lemma_state_point(m, custom_in(2, not, 0));
    c.lemma_state_point(m, custom_out(2, not, 0));
    c.lemma_state_point(m, custom_in(3, not, 0));
    c.lemma_state_point(m, custom_out(3, not, 0));
    c.lemma_state_point(m, custom_in(4, and, 0));
    c.lemma_state_point(m, custom_in(4, and, 1));
    c.lemma_state_point(m, custom_out(4, and, 0));
    c.lemma_state_point(m, output_point(5));
}

/// One step of a state of the NOR circuit.
pub proof fn lemma_nor_step(c: CircuitModel)
    requires
        c.runs_as(nor_gate_model()),
    ensures
        c.step().runs_as(nor_gate_model()),
        nor_state(c.step()) == nor_next(nor_state(c)),
{
    lemma_nor_model();
    c.lemma_runs_on(nor_gate_model());
    lemma_nor_points(c);
    lemma_inverter(c, nor_gate_model(), 0, 2);
    lemma_inverter(c, nor_gate_model(), 1, 3);
    lemma_conjunction(c, nor_gate_model(), 2, 4);
}

/// Eleven steps bring the values of a NOR circuit to rest, with the
/// opposite of the disjunction of the inputs at the output.
pub proof fn lemma_nor_rests(x: NorState)
    ensures
        nor_after(x, 11) == nor_next(nor_after(x, 11)),
        nor_after(x, 11).output == !(x.first || x.second),
        nor_after(x, 11).first == x.first,
        nor_after(x, 11).second == x.second,
{
    reveal_with_fuel(nor_after, 12);
}

/// The values of a state of the NOR circuit after `n` steps.
pub proof fn lemma_nor_runs(c: CircuitModel, n: nat)
    requires
        c.runs_as(nor_gate_model()),
    ensures
        c.steps(n).runs_as(nor_gate_model()),
        nor_state(c.steps(n)) == nor_after(nor_state(c), n),
    decreases n,
{
    if n > 0 {
        lemma_nor_runs(c, (n - 1) as nat);
        lemma_nor_step(c.steps((n - 1) as nat));
    }
}

/// The NOR circuit computes the opposite of the disjunction: from eleven
/// steps on, its output is true exactly if none of its inputs is, whatever
/// values its points had at first. The inputs keep their values, and the
/// circuit is at rest.
pub proof fn lemma_nor_gate_computes(c: CircuitModel, n: nat)
    requires
        c.runs_as(nor_gate_model()),
        n >= 11,
    ensures
        c.steps(n).runs_as(nor_gate_model()),
        nor_state(c.steps(n)) == nor_after(nor_state(c), 11),
        nor_state(c.steps(n)).first == nor_state(c).first,
        nor_state(c.steps(n)).second == nor_state(c).second,
        nor_state(c.steps(n)).output == !(nor_state(c).first || nor_state(c).second),
    decreases n,
{
    lemma_nor_rests(nor_state(c));
    if n == 11 {
        lemma_nor_runs(c, 11);
    } else {
        lemma_nor_gate_computes(c, (n - 1) as nat);
        lemma_nor_step(c.steps((n - 1) as nat));
    }
}

/// A NOR circuit that is the custom gate with the number `g`, at place `k`
/// of the gates of `model`, in a step of a state of `model`: what stands
/// inside it steps on its own, and its inputs and its output are the slots
/// of its gate.
pub proof fn lemma_nor_nested(c: CircuitModel, model: CircuitModel, k: int, g: nat)
    requires
        c.runs_as(model),
        model.wf(),
        0 <= k < model.gates.len(),
        model.gates[k] == custom_entry(g, nor_gate_model()),
    ensures
        nor_state(c.step().nested(g)) == (NorState {
            first: c.step().point_value(custom_in(g, nor_gate_model(), 0)),
            second: c.step().point_value(custom_in(g, nor_gate_model(), 1)),
            output: c.step().point_value(custom_out(g, nor_gate_model(), 0)),
            ..nor_next(nor_state(c.nested(g)))
        }),
        nor_state(c.nested(g)).first == c.point_value(custom_in(g, nor_gate_model(), 0)),
        nor_state(c.nested(g)).second == c.point_value(custom_in(g, nor_gate_model(), 1)),
        nor_state(c.nested(g)).output == c.point_value(custom_out(g, nor_gate_model(), 0)),
        c.undriven(custom_out(g, nor_gate_model(), 0)) == nor_next(
            nor_state(c.nested(g)),
        ).output,
{
    broadcast use Id::of_number;

    let nor = nor_gate_model();
    lemma_nor_model();
    c.lemma_state_custom(model, k, g, nor);
    lemma_nor_step(c.nested(g));
    assert(nor.inputs[0].0 == Id::of(0));
    assert(nor.inputs[1].0 == Id::of(1));
    assert(nor.outputs[0].0 == Id::of(5));
    let before = c.nested(g);
    let after = c.step().nested(g);
    let stepped = before.step();
    assert(before.point_value(ConnectionPoint::Input(Id::of(0))) == c.point_value(
        ConnectionPoint::GateInput { gate: Id::of(g), input: Id::of(0) },
    ));
    assert(before.point_value(ConnectionPoint::Input(Id::of(1))) == c.point_value(
        ConnectionPoint::GateInput { gate: Id::of(g), input: Id::of(1) },
    ));
    assert(before.point_value(ConnectionPoint::Output(Id::of(5))) == c.point_value(
        ConnectionPoint::GateOutput { gate: Id::of(g), output: Id::of(5) },
    ));
    assert(after.nested(2) == stepped.nested(2));
    assert(after.nested(3) == stepped.nested(3));
    assert(after.nested(4) == stepped.nested(4));
}

/// The values of the points of an SR latch: its two inputs, the points of
/// its two NOR circuits, and its two outputs.
pub struct LatchState {
    pub set: bool,
    pub reset: bool,
    pub nor_first: NorState,
    pub nor_second: NorState,
    pub q: bool,
    pub not_q: bool,
}

/// The values of the points of a state of the SR latch.
pub open spec fn latch_state(c: CircuitModel) -> LatchState {
    LatchState {
        set: c.point_value(input_point(0)),
        reset: c.point_value(input_point(1)),
        nor_first: nor_state(c.nested(2)),
        nor_second: nor_state(c.nested(3)),
        q: c.point_value(output_point(4)),
        not_q: c.point_value(output_point(5)),
    }
}

/// What a step makes of the values of an SR latch.
pub open spec fn latch_next(x: LatchState) -> LatchState {
    LatchState {
        set: x.set,
        reset: x.reset,
        nor_first: NorState {
            first: x.set,
            second: x.nor_second.output,
            ..nor_next(x.nor_first)
        },
        nor_second: NorState {
            first: x.nor_first.output,
            second: x.reset,
            ..nor_next(x.nor_second)
        },
        q: x.nor_first.output,
        not_q: x.nor_second.output,
    }
}

/// What `n` steps make of the values of an SR latch.
pub open spec fn latch_after(x: LatchState, n: nat) -> LatchState
    decreases n,
{
    if n == 0 {
        x
    } else {
        latch_next(latch_after(x, (n - 1) as nat))
    }
}

/// The SR latch is well formed, can be stepped and has its points.
pub proof fn lemma_latch_model()
    ensures
        sr_latch_model().wf(),
        sr_latch_model().steppable(),
        sr_latch_model().has_point(input_point(0)),
        sr_latch_model().has_point(input_point(1)),
        sr_latch_model().has_point(custom_in(2, nor_gate_model(), 0)),
        sr_latch_model().has_point(custom_in(2, nor_gate_model(), 1)),
        sr_latch_model().has_point(custom_out(2, nor_gate_model(), 0)),
        sr_latch_model().has_point(custom_in(3, nor_gate_model(), 0)),
        sr_latch_model().has_point(custom_in(3, nor_gate_model(), 1)),
        sr_latch_model().has_point(custom_out(3, nor_gate_model(), 0)),
        sr_latch_model().has_point(output_point(4)),
        sr_latch_model().has_point(output_point(5)),
{
    broadcast use Id::of_number;

    let m = sr_latch_model();
    let nor = nor_gate_model();
    lemma_nor_model();
    lemma_slot(m.gates, Id::of(2), 0);
    lemma_slot(m.gates, Id::of(3), 1);
    assert(m.inputs[0].0 == Id::of(0));
    assert(m.inputs[1].0 == Id::of(1));
    assert(m.outputs[0].0 == Id::of(4));
    assert(m.outputs[1].0 == Id::of(5));
    assert(nor.inputs[0].0 == Id::of(0));
    assert(nor.inputs[1].0 == Id::of(1));
    assert(nor.outputs[0].0 == Id::of(5));
    assert forall|i: int| 0 <= i < m.gates.len() implies (#[trigger] m.gates[i]).1.wf()
        && m.gates[i].1.steppable() by {
        if i == 0 {
        } else {
        }
    }
}

/// Which connection of the SR latch drives each of its points.
proof fn lemma_latch_wiring()
    ensures
        sr_latch_model().driver(input_point(0), 6) is None,
        sr_latch_model().driver(input_point(1), 6) is None,
        sr_latch_model().driver(custom_in(2, nor_gate_model(), 0), 6) == Some(0int),
        sr_latch_model().driver(custom_in(3, nor_gate_model(), 1), 6) == Some(1int),
        sr_latch_model().driver(custom_in(3, nor_gate_model(), 0), 6) == Some(2int),
        sr_latch_model().driver(custom_in(2, nor_gate_model(), 1), 6) == Some(3int),
        sr_latch_model().driver(custom_out(2, nor_gate_model(), 0), 6) is None,
        sr_latch_model().driver(custom_out(3, nor_gate_model(), 0), 6) is None,
        sr_latch_model().driver(output_point(4), 6) == Some(4int),
        sr_latch_model().driver(output_point(5), 6) == Some(5int),
{
    broadcast use Id::of_number;

    reveal_with_fuel(CircuitModel::driver, 7);
}

/// The values of the points of the SR latch itself after a step.
proof fn lemma_latch_points(c: CircuitModel)
    requires
        c.runs_as(sr_latch_model()),
    ensures
        c.step().point_value(input_point(0)) == c.point_value(input_point(0)),
        c.step().point_value(input_point(1)) == c.point_value(input_point(1)),
        c.step().point_value(custom_in(2, nor_gate_model(), 0)) == c.point_value(input_point(0)),
        c.step().point_value(custom_in(3, nor_gate_model(), 1)) == c.point_value(input_point(1)),
        c.step().point_value(custom_in(3, nor_gate_model(), 0)) == c.point_value(
            custom_out(2, nor_gate_model(), 0),
        ),
        c.step().point_value(custom_in(2, nor_gate_model(), 1)) == c.point_value(
            custom_out(3, nor_gate_model(), 0),
        ),
        c.step().point_value(custom_out(2, nor_gate_model(), 0)) == c.undriven(
            custom_out(2, nor_gate_model(), 0),
        ),
        c.step().point_value(custom_out(3, nor_gate_model(), 0)) == c.undriven(
            custom_out(3, nor_gate_model(), 0),
        ),
        c.step().point_value(output_point(4)) == c.point_value(
            custom_out(2, nor_gate_model(), 0),
        ),
        c.step().point_value(output_point(5)) == c.point_value(
            custom_out(3, nor_gate_model(), 0),
        ),
{
    let m = sr_latch_model();
    let nor = nor_gate_model();
    lemma_latch_model();
    lemma_latch_wiring();
    c.lemma_state_point(m, input_point(0));
    c.lemma_state_point(m, input_point(1));
    c.lemma_state_point(m, custom_in(2, nor, 0));
    c.lemma_state_point(m, custom_in(2, nor, 1));
    c.lemma_state_point(m, custom_out(2, nor, 0));
    c.lemma_state_point(m, custom_in(3, nor, 0));
    c.lemma_state_point(m, custom_in(3, nor, 1));
    c.lemma_state_point(m, custom_out(3, nor, 0));
    c.lemma_state_point(m, output_point(4));
    c.lemma_state_point(m, output_point(5));
}

/// One step of a state of the SR latch.
pub proof fn lemma_latch_step(c: CircuitModel)
    requires
        c.runs_as(sr_latch_model()),
    ensures
        c.step().runs_as(sr_latch_model()),
        latch_state(c.step()) == latch_next(latch_state(c)),
{
    lemma_latch_model();
    c.lemma_runs_on(sr_latch_model());
    lemma_latch_points(c);
    lemma_nor_nested(c, sr_latch_model(), 0, 2);
    lemma_nor_nested(c, sr_latch_model(), 1, 3);
}

/// The values of a state of the SR latch after `n` steps.
pub proof fn lemma_latch_runs(c: CircuitModel, n: nat)
    requires
        c.runs_as(sr_latch_model()),
    ensures
        c.steps(n).runs_as(sr_latch_model()),
        latch_state(c.steps(n)) == latch_after(latch_state(c), n),
    decreases n,
{
    if n > 0 {
        lemma_latch_runs(c, (n - 1) as nat);
        lemma_latch_step(c.steps((n - 1) as nat));
    }
}

/// The values of a NOT circuit at rest with the input `v`.
pub open spec fn not_at(v: bool) -> NotState {
    NotState { input: v, first: v, second: v, nand: !v, output: !v }
}

/// The values of an AND circuit at rest with the inputs `a` and `b`.
pub open spec fn and_at(a: bool, b: bool) -> AndState {
    AndState {
        first: a,
        second: b,
        nand_first: a,
        nand_second: b,
        nand: !(a && b),
        inverter_first: !(a && b),
        inverter_second: !(a && b),
        inverter: a && b,
        output: a && b,
    }
}

/// The values of a NOR circuit at rest with the inputs `a` and `b`.
pub open spec fn nor_at(a: bool, b: bool) -> NorState {
    NorState {
        first: a,
        second: b,
        not_first: not_at(a),
        not_second: not_at(b),
        and: and_at(!a, !b),
        output: !(a || b),
    }
}

/// The first input of the NOR circuit is true and has reached the output,
/// which is false whatever the second input does.
pub open spec fn held_by_first(x: NorState) -> bool {
    &&& x.first
    &&& x.not_first == not_at(true)
    &&& !x.and.first
    &&& !x.and.nand_first
    &&& x.and.nand
    &&& x.and.inverter_first
    &&& x.and.inverter_second
    &&& !x.and.inverter
    &&& !x.and.output
    &&& !x.output
}

/// The second input of the NOR circuit is true and has reached the output,
/// which is false whatever the first input does.
pub open spec fn held_by_second(x: NorState) -> bool {
    &&& x.second
    &&& x.not_second == not_at(true)
    &&& !x.and.second
    &&& !x.and.nand_second
    &&& x.and.nand
    &&& x.and.inverter_first
    &&& x.and.inverter_second
    &&& !x.and.inverter
    &&& !x.and.output
    &&& !x.output
}

/// The values of an SR latch at rest after its first input was true and its
/// second false: the first output is false and the second true.
pub open spec fn latch_set(set: bool) -> LatchState {
    LatchState {
        set,
        reset: false,
        nor_first: nor_at(set, true),
        nor_second: nor_at(false, false),
        q: false,
        not_q: true,
    }
}

/// The values of an SR latch at rest after its second input was true and
/// its first false: the first output is true and the second false.
pub open spec fn latch_reset(reset: bool) -> LatchState {
    LatchState {
        set: false,
        reset,
        nor_first: nor_at(false, false),
        nor_second: nor_at(true, reset),
        q: true,
        not_q: false,
    }
}

/// Twelve steps with the first input true carry it through the first NOR
/// circuit.
proof fn lemma_latch_set_first(x: LatchState)
    requires
        x.set,
        !x.reset,
    ensures
        latch_after(x, 12).set,
        !latch_after(x, 12).reset,
        held_by_first(latch_after(x, 12).nor_first),
{
    reveal_with_fuel(latch_after, 13);
}

/// Twelve more steps bring the second NOR circuit to rest.
proof fn lemma_latch_set_second(x: LatchState)
    requires
        x.set,
        !x.reset,
        held_by_first(x.nor_first),
    ensures
        latch_after(x, 12).set,
        !latch_after(x, 12).reset,
        held_by_first(latch_after(x, 12).nor_first),
        latch_after(x, 12).nor_second == nor_at(false, false),
{
    reveal_with_fuel(latch_after, 13);
}

/// Twelve more steps bring the whole latch to rest.
proof fn lemma_latch_set_third(x: LatchState)
    requires
        x.set,
        !x.reset,
        held_by_first(x.nor_first),
        x.nor_second == nor_at(false, false),
    ensures
        latch_after(x, 12) == latch_set(true),
{
    reveal_with_fuel(latch_after, 13);
}

/// Twelve steps with the second input true carry it through the second NOR
/// circuit.
proof fn lemma_latch_reset_first(x: LatchState)
    requires
        !x.set,
        x.reset,
    ensures
        !latch_after(x, 12).set,
        latch_after(x, 12).reset,
        held_by_second(latch_after(x, 12).nor_second),
{
    reveal_with_fuel(latch_after, 13);
}

/// Twelve more steps bring the first NOR circuit to rest.
proof fn lemma_latch_reset_second(x: LatchState)
    requires
        !x.set,
        x.reset,
        held_by_second(x.nor_second),
    ensures
        !latch_after(x, 12).set,
        latch_after(x, 12).reset,
        held_by_second(latch_after(x, 12).nor_second),
        latch_after(x, 12).nor_first == nor_at(false, false),
{
    reveal_with_fuel(latch_after, 13);
}

/// Twelve more steps bring the whole latch to rest.
proof fn lemma_latch_reset_third(x: LatchState)
    requires
        !x.set,
        x.reset,
        held_by_second(x.nor_second),
        x.nor_first == nor_at(false, false),
    ensures
        latch_after(x, 12) == latch_reset(true),
{
    reveal_with_fuel(latch_after, 13);
}

/// The values `latch_set` and `latch_reset` are at rest.
pub proof fn lemma_latch_at_rest(v: bool)
    ensures
        latch_next(latch_set(v)) == latch_set(v),
        latch_next(latch_reset(v)) == latch_reset(v),
{
}

/// Values at rest stay as they are.
pub proof fn lemma_latch_stays(x: LatchState, n: nat)
    requires
        latch_next(x) == x,
    ensures
        latch_after(x, n) == x,
    decreases n,
{
    if n > 0 {
        lemma_latch_stays(x, (n - 1) as nat);
    }
}

/// Stepping `m` times and then `n` times is stepping `m + n` times.
pub proof fn lemma_latch_after_add(x: LatchState, m: nat, n: nat)
    ensures
        latch_after(latch_after(x, m), n) == latch_after(x, m + n),
    decreases n,
{
    if n > 0 {
        lemma_latch_after_add(x, m, (n - 1) as nat);
    }
}

/// With one input true and the other false, thirty-six steps bring the
/// values of an SR latch to rest, whatever they were at first.
pub proof fn lemma_latch_rests(x: LatchState, n: nat)
    requires
        x.set != x.reset,
        n >= 36,
    ensures
        latch_after(x, n) == if x.set {
            latch_set(true)
        } else {
            latch_reset(true)
        },
{
    let a = latch_after(x, 12);
    let b = latch_after(a, 12);
    let c = latch_after(b, 12);
    if x.set {
        lemma_latch_set_first(x);
        lemma_latch_set_second(a);
        lemma_latch_set_third(b);
    } else {
        lemma_latch_reset_first(x);
        lemma_latch_reset_second(a);
        lemma_latch_reset_third(b);
    }
    lemma_latch_after_add(x, 12, 12);
    lemma_latch_after_add(x, 24, 12);
    lemma_latch_at_rest(true);
    lemma_latch_stays(c, (n - 36) as nat);
    lemma_latch_after_add(x, 36, (n - 36) as nat);
}

/// The values of a latch with both inputs made false.
pub open spec fn released(x: LatchState) -> LatchState {
    LatchState { set: false, reset: false, ..x }
}

/// The outputs have the values `q` and `not_q` now and after each of the
/// next `n` steps.
pub open spec fn outputs_kept(x: LatchState, n: nat, q: bool, not_q: bool) -> bool
    decreases n,
{
    x.q == q && x.not_q == not_q && (n == 0 || outputs_kept(
        latch_next(x),
        (n - 1) as nat,
        q,
        not_q,
    ))
}

/// Stepping once and then `n` times is stepping `n + 1` times.
pub proof fn lemma_latch_after_next(x: LatchState, n: nat)
    ensures
        latch_after(latch_next(x), n) == latch_after(x, n + 1),
    decreases n,
{
    reveal_with_fuel(latch_after, 2);
    if n > 0 {
        lemma_latch_after_next(x, (n - 1) as nat);
    }
}

/// Outputs that are kept for `n` steps have their values after each of
/// them.
pub proof fn lemma_outputs_kept(x: LatchState, n: nat, q: bool, not_q: bool, m: nat)
    requires
        outputs_kept(x, n, q, not_q),
        m <= n,
    ensures
        latch_after(x, m).q == q,
        latch_after(x, m).not_q == not_q,
    decreases m,
{
    if m > 0 {
        lemma_outputs_kept(latch_next(x), (n - 1) as nat, q, not_q, (m - 1) as nat);
        lemma_latch_after_next(x, (m - 1) as nat);
    }
}

/// The eight steps after the first input of a set latch has gone false.
proof fn lemma_latch_release_set()
    ensures
        outputs_kept(released(latch_set(true)), 8, false, true),
        latch_after(released(latch_set(true)), 8) == latch_set(false),
{
    let y0 = released(latch_set(true));
    let y1 = latch_next(y0);
    let y2 = latch_next(y1);
    let y3 = latch_next(y2);
    let y4 = latch_next(y3);
    let y5 = latch_next(y4);
    let y6 = latch_next(y5);
    let y7 = latch_next(y6);
    let y8 = latch_next(y7);
    assert(!y1.q && y1.not_q);
    assert(!y2.q && y2.not_q);
    assert(!y3.q && y3.not_q);
    assert(!y4.q && y4.not_q);
    assert(!y5.q && y5.not_q);
    assert(!y6.q && y6.not_q);
    assert(!y7.q && y7.not_q);
    assert(y8 == latch_set(false));
    reveal_with_fuel(outputs_kept, 9);
    reveal_with_fuel(latch_after, 9);
}

/// The eight steps after the second input of a reset latch has gone false.
proof fn lemma_latch_release_reset()
    ensures
        outputs_kept(released(latch_reset(true)), 8, true, false),
        latch_after(released(latch_reset(true)), 8) == latch_reset(false),
{
    let y0 = released(latch_reset(true));
    let y1 = latch_next(y0);
    let y2 = latch_next(y1);
    let y3 = latch_next(y2);
    let y4 = latch_next(y3);
    let y5 = latch_next(y4);
    let y6 = latch_next(y5);
    let y7 = latch_next(y6);
    let y8 = latch_next(y7);
    assert(y1.q && !y1.not_q);
    assert(y2.q && !y2.not_q);
    assert(y3.q && !y3.not_q);
    assert(y4.q && !y4.not_q);
    assert(y5.q && !y5.not_q);
    assert(y6.q && !y6.not_q);
    assert(y7.q && !y7.not_q);
    assert(y8 == latch_reset(false));
    reveal_with_fuel(outputs_kept, 9);
    reveal_with_fuel(latch_after, 9);
}

/// Once a latch at rest has both inputs false, its outputs stay as they
/// are at every step.
pub proof fn lemma_latch_released(m: nat)
    ensures
        latch_after(released(latch_set(true)), m).q == false,
        latch_after(released(latch_set(true)), m).not_q == true,
        latch_after(released(latch_reset(true)), m).q == true,
        latch_after(released(latch_reset(true)), m).not_q == false,
{
    let y = released(latch_set(true));
    let z = released(latch_reset(true));
    lemma_latch_release_set();
    lemma_latch_release_reset();
    if m <= 8 {
        lemma_outputs_kept(y, 8, false, true, m);
        lemma_outputs_kept(z, 8, true, false, m);
    } else {
        lemma_latch_at_rest(false);
        lemma_latch_stays(latch_set(false), (m - 8) as nat);
        lemma_latch_stays(latch_reset(false), (m - 8) as nat);
        lemma_latch_after_add(y, 8, (m - 8) as nat);
        lemma_latch_after_add(z, 8, (m - 8) as nat);
    }
}

impl CircuitModel {
    /// Setting an input of a state of `model` gives a state of `model`, in
    /// which that input has the new value, every other point has its old
    /// one, and the gates are as they were.
    pub proof fn lemma_input_set(self, model: CircuitModel, input: nat, value: bool)
        requires
            self.runs_as(model),
            self.has_point(input_point(input)),
        ensures
            self.write(input_point(input), value).runs_as(model),
            self.write(input_point(input), value).gates == self.gates,
            self.write(input_point(input), value).point_value(input_point(input)) == value,
            forall|q: ConnectionPoint|
                self.has_point(q) && q != input_point(input) ==> #[trigger] self.write(
                    input_point(input),
                    value,
                ).point_value(q) == self.point_value(q),
    {
        let after = self.write(input_point(input), value);
        lemma_store(self.inputs, Id::of(input), value);
        self.lemma_same_points(after);
        self.lemma_covers_self();
        assert(after.covers(self)) by {
            assert forall|i: int| 0 <= i < after.gates.len() implies (#[trigger] after.gates[i]).0
                == self.gates[i].0 && after.gates[i].1.covers(self.gates[i].1) by {
            }
        }
        after.lemma_covers_trans(self, model);
        self.lemma_write_value(input_point(input), value, input_point(input));
        assert forall|q: ConnectionPoint|
            self.has_point(q) && q != input_point(input) implies #[trigger] after.point_value(q)
            == self.point_value(q) by {
            self.lemma_write_value(input_point(input), value, q);
        }
    }
}

/// The SR latch remembers. Let one of its inputs be true and the other
/// false for thirty-six steps or more, whatever values its points had at
/// first: then the first output is true exactly if the second input was,
/// and the second output exactly if the first input was. Let then both
/// inputs be false: the outputs keep these values at every later step.
pub proof fn lemma_latch_remembers(c: CircuitModel, n: nat, m: nat)
    requires
        c.runs_as(sr_latch_model()),
        latch_state(c).set != latch_state(c).reset,
        n >= 36,
    ensures
        c.steps(n).runs_as(sr_latch_model()),
        latch_state(c.steps(n)).q == latch_state(c).reset,
        latch_state(c.steps(n)).not_q == latch_state(c).set,
        c.steps(n).write(input_point(0), false).write(input_point(1), false).runs_as(
            sr_latch_model(),
        ),
        latch_state(
            c.steps(n).write(input_point(0), false).write(input_point(1), false).steps(m),
        ).q == latch_state(c).reset,
        latch_state(
            c.steps(n).write(input_point(0), false).write(input_point(1), false).steps(m),
        ).not_q == latch_state(c).set,
{
    let model = sr_latch_model();
    let x = latch_state(c);
    let pulsed = c.steps(n);
    lemma_latch_model();
    lemma_latch_runs(c, n);
    lemma_latch_rests(x, n);
    pulsed.lemma_covers_points(model, input_point(0));
    pulsed.lemma_covers_points(model, input_point(1));
    pulsed.lemma_covers_points(model, output_point(4));
    pulsed.lemma_covers_points(model, output_point(5));
    pulsed.lemma_input_set(model, 0, false);
    let half = pulsed.write(input_point(0), false);
    half.lemma_input_set(model, 1, false);
    let free = half.write(input_point(1), false);
    assert(latch_state(free) == released(latch_state(pulsed))) by {
        broadcast use Id::of_number;

        assert(half.point_value(input_point(1)) == pulsed.point_value(input_point(1)));
        assert(half.point_value(output_point(4)) == pulsed.point_value(output_point(4)));
        assert(half.point_value(output_point(5)) == pulsed.point_value(output_point(5)));
        assert(free.point_value(input_point(0)) == half.point_value(input_point(0)));
        assert(free.point_value(output_point(4)) == half.point_value(output_point(4)));
        assert(free.point_value(output_point(5)) == half.point_value(output_point(5)));
    }
    lemma_latch_runs(free, m);
    lemma_latch_released(m);
}

} // verus!
