//! The circuit: inputs, outputs, middle signals, gates and connections, and
//! the synchronous step that advances them.
//!
//! `CircuitModel` is the mathematical model of a circuit. Each of its tables
//! lists its entries in ascending identifier order; wherever the elements of
//! a circuit are walked, they are walked in that order. In particular the
//! connections of a step are applied in ascending order of their identifiers,
//! so where two connections drive one point, the one with the greater
//! identifier decides.

use vstd::prelude::*;
use vstd::std_specs::convert::IntoSpec;
use crate::id::{Id, IdGenerator};
use crate::logic_gate::{
    id_order, lemma_sorted_ids_of_sorted, sorted_ids, Connection, ConnectionPoint,
    GateCreationInfo, GateModel, GateRecord, LogicGate,
};
use crate::table::{
    ascending, below, copy_of, find, get, keys, keys_of, lemma_same_keys, lemma_slot,
    lemma_store, lemma_store_fresh, present, put, slot, store,
};

verus! {

/// The mathematical model of a circuit.
pub struct CircuitModel {
    pub inputs: Seq<(Id, bool)>,
    pub outputs: Seq<(Id, bool)>,
    pub middle_signals: Seq<(Id, bool)>,
    pub gates: Seq<(Id, GateModel)>,
    pub connections: Seq<(Id, Connection)>,
    /// The number of the identifier that the circuit hands out next.
    pub next_id: nat,
}

impl CircuitModel {
    /// The circuit without any element.
    pub open spec fn empty() -> CircuitModel {
        CircuitModel {
            inputs: Seq::empty(),
            outputs: Seq::empty(),
            middle_signals: Seq::empty(),
            gates: Seq::empty(),
            connections: Seq::empty(),
            next_id: 0,
        }
    }

    /// Every table is in ascending identifier order, here and in every
    /// nested circuit.
    pub open spec fn wf(self) -> bool
        decreases self,
    {
        &&& ascending(self.inputs)
        &&& ascending(self.outputs)
        &&& ascending(self.middle_signals)
        &&& ascending(self.gates)
        &&& ascending(self.connections)
        &&& below(self.gates, self.next_id)
        &&& below(self.connections, self.next_id)
        &&& self.next_id <= usize::MAX
        &&& forall|i: int| 0 <= i < self.gates.len() ==> (#[trigger] self.gates[i]).1.wf()
    }

    /// The circuit has the point `p`, so its value can be read.
    pub open spec fn has_point(self, p: ConnectionPoint) -> bool {
        match p {
            ConnectionPoint::Input(id) => present(self.inputs, id),
            ConnectionPoint::Output(id) => present(self.outputs, id),
            ConnectionPoint::MiddleSignal(id) => present(self.middle_signals, id),
            ConnectionPoint::GateInput { gate, input } => present(self.gates, gate) && get(
                self.gates,
                gate,
            ).input(input) is Some,
            ConnectionPoint::GateOutput { gate, output } => present(self.gates, gate) && get(
                self.gates,
                gate,
            ).output(output) is Some,
        }
    }

    /// The value at the point `p`.
    pub open spec fn point_value(self, p: ConnectionPoint) -> bool {
        match p {
            ConnectionPoint::Input(id) => get(self.inputs, id),
            ConnectionPoint::Output(id) => get(self.outputs, id),
            ConnectionPoint::MiddleSignal(id) => get(self.middle_signals, id),
            ConnectionPoint::GateInput { gate, input } => get(self.gates, gate).input(input)->0,
            ConnectionPoint::GateOutput { gate, output } => get(self.gates, gate).output(
                output,
            )->0,
        }
    }

    /// A value can be written to the point `p`: a slot of a gate needs its
    /// gate, every other point is created where it is missing.
    pub open spec fn accepts(self, p: ConnectionPoint) -> bool {
        match p {
            ConnectionPoint::GateInput { gate, .. } => present(self.gates, gate),
            ConnectionPoint::GateOutput { gate, .. } => present(self.gates, gate),
            _ => true,
        }
    }

    /// The circuit with `value` written to the point `p`.
    pub open spec fn write(self, p: ConnectionPoint, value: bool) -> CircuitModel {
        match p {
            ConnectionPoint::Input(id) => CircuitModel {
                inputs: store(self.inputs, id, value),
                ..self
            },
            ConnectionPoint::Output(id) => CircuitModel {
                outputs: store(self.outputs, id, value),
                ..self
            },
            ConnectionPoint::MiddleSignal(id) => CircuitModel {
                middle_signals: store(self.middle_signals, id, value),
                ..self
            },
            ConnectionPoint::GateInput { gate, input } => if present(self.gates, gate) {
                CircuitModel {
                    gates: self.gates.update(
                        slot(self.gates, gate),
                        (gate, get(self.gates, gate).with_input(input, value)),
                    ),
                    ..self
                }
            } else {
                self
            },
            ConnectionPoint::GateOutput { gate, output } => if present(self.gates, gate) {
                CircuitModel {
                    gates: self.gates.update(
                        slot(self.gates, gate),
                        (gate, get(self.gates, gate).with_output(output, value)),
                    ),
                    ..self
                }
            } else {
                self
            },
        }
    }

    /// A step of the circuit reads and writes only points that exist: the
    /// start of every connection can be read, the end of every connection
    /// can be written, and the same holds in every nested circuit.
    pub open spec fn steppable(self) -> bool
        decreases self,
    {
        &&& forall|i: int|
            0 <= i < self.connections.len() ==> self.has_point(
                (#[trigger] self.connections[i]).1.start,
            ) && self.accepts(self.connections[i].1.end)
        &&& forall|i: int| 0 <= i < self.gates.len() ==> (#[trigger] self.gates[i]).1.steppable()
    }

    /// `self` has every point that `before` has, the same gates at every
    /// depth, and the same connections.
    pub open spec fn covers(self, before: CircuitModel) -> bool
        decreases self,
    {
        &&& forall|id: Id| present(before.inputs, id) ==> present(self.inputs, id)
        &&& forall|id: Id| present(before.outputs, id) ==> present(self.outputs, id)
        &&& forall|id: Id| present(before.middle_signals, id) ==> present(self.middle_signals, id)
        &&& self.gates.len() == before.gates.len()
        &&& forall|i: int|
            0 <= i < self.gates.len() ==> (#[trigger] self.gates[i]).0 == before.gates[i].0
                && self.gates[i].1.covers(before.gates[i].1)
        &&& self.connections == before.connections
        &&& self.next_id == before.next_id
    }

    /// All gates of the circuit, each one step later.
    pub open spec fn stepped_gates(self) -> Seq<(Id, GateModel)>
        decreases self, 0nat,
    {
        Seq::new(
            self.gates.len(),
            |i: int|
                if 0 <= i < self.gates.len() {
                    (self.gates[i].0, self.gates[i].1.step())
                } else {
                    arbitrary()
                },
        )
    }

    /// `state` after the first `n` connections of `self` have carried their
    /// values: each reads its start in `self` and writes its end in `state`.
    pub open spec fn propagate(self, state: CircuitModel, n: nat) -> CircuitModel
        decreases n,
    {
        if n == 0 || n > self.connections.len() {
            state
        } else {
            let connection = self.connections[n - 1].1;
            self.propagate(state, (n - 1) as nat).write(
                connection.end,
                self.point_value(connection.start),
            )
        }
    }

    /// The circuit one step later. Every gate advances on its own values of
    /// before the step. Then every connection, in ascending order of the
    /// connection identifiers, reads its start from the circuit of before
    /// the step and writes that value to its end; a value written to a slot
    /// of a gate replaces what this gate has just computed for it.
    pub open spec fn step(self) -> CircuitModel
        decreases self, 1nat,
    {
        self.propagate(
            CircuitModel { gates: self.stepped_gates(), ..self },
            self.connections.len(),
        )
    }

    /// `self` has every point of `before`, and takes a value wherever
    /// `before` takes one.
    pub open spec fn extends(self, before: CircuitModel) -> bool {
        &&& forall|p: ConnectionPoint| #[trigger] before.has_point(p) ==> self.has_point(p)
        &&& forall|p: ConnectionPoint| #[trigger] before.accepts(p) ==> self.accepts(p)
    }

    /// Once its gates have stepped, and after any number of its connections
    /// have carried their values, a circuit is well formed, has every point
    /// it had, and its gates can be stepped.
    pub proof fn lemma_propagate(self, n: nat)
        requires
            self.wf(),
            self.steppable(),
            n <= self.connections.len(),
        ensures
            self.propagate(CircuitModel { gates: self.stepped_gates(), ..self }, n).wf(),
            self.propagate(CircuitModel { gates: self.stepped_gates(), ..self }, n).covers(self),
            forall|i: int|
                0 <= i < self.gates.len() ==> (#[trigger] self.propagate(
                    CircuitModel { gates: self.stepped_gates(), ..self },
                    n,
                ).gates[i]).1.steppable(),
        decreases self, n,
    {
        let base = CircuitModel { gates: self.stepped_gates(), ..self };
        if n == 0 {
            assert forall|i: int| 0 <= i < base.gates.len() implies (#[trigger] base.gates[i]).1.wf()
                && base.gates[i].1.steppable() && base.gates[i].0 == self.gates[i].0
                && base.gates[i].1.covers(self.gates[i].1) by {
                self.gates[i].1.lemma_step();
            }
            lemma_same_keys(self.gates, base.gates, arbitrary());
            assert(below(base.gates, base.next_id)) by {
                assert forall|i: int| 0 <= i < base.gates.len() implies (#[trigger] base.gates[i]).0@
                    < base.next_id by {
                    assert(self.gates[i].0@ < self.next_id);
                }
            }
        } else {
            self.lemma_propagate((n - 1) as nat);
            let connection = self.connections[n - 1].1;
            self.propagate(base, (n - 1) as nat).lemma_write(
                connection.end,
                self.point_value(connection.start),
                self,
            );
        }
    }

    /// A step keeps a circuit well formed and steppable, and keeps every
    /// point, gate and connection of the circuit.
    pub proof fn lemma_step(self)
        requires
            self.wf(),
            self.steppable(),
        ensures
            self.step().wf(),
            self.step().steppable(),
            self.step().covers(self),
        decreases self, self.connections.len() + 1,
    {
        self.lemma_propagate(self.connections.len());
        self.step().lemma_covering_steppable(self);
    }

    /// The circuit with a new input `id`, which starts false.
    pub open spec fn with_input(self, id: Id) -> CircuitModel {
        CircuitModel { inputs: store(self.inputs, id, false), next_id: self.next_id + 1, ..self }
    }

    /// The circuit with a new output `id`, which starts false.
    pub open spec fn with_output(self, id: Id) -> CircuitModel {
        CircuitModel {
            outputs: store(self.outputs, id, false),
            next_id: self.next_id + 1,
            ..self
        }
    }

    /// The circuit with a new NAND gate `gate`: its inputs `first` and
    /// `second` start false and its output starts true.
    pub open spec fn with_nand(self, gate: Id, first: Id, second: Id, output: Id) -> CircuitModel {
        CircuitModel {
            gates: store(
                self.gates,
                gate,
                GateModel::Nand {
                    first: (first, false),
                    second: (second, false),
                    output: (output, true),
                },
            ),
            next_id: self.next_id + 4,
            ..self
        }
    }

    /// The circuit with the circuit `inner` as a new custom gate `gate`.
    pub open spec fn with_custom(self, gate: Id, inner: CircuitModel) -> CircuitModel {
        CircuitModel {
            gates: store(self.gates, gate, GateModel::Custom(inner)),
            next_id: self.next_id + 1,
            ..self
        }
    }

    /// The circuit with the new connection `id`.
    pub open spec fn with_connection(self, id: Id, connection: Connection) -> CircuitModel {
        CircuitModel {
            connections: store(self.connections, id, connection),
            next_id: self.next_id + 1,
            ..self
        }
    }

    /// A circuit that differs from a steppable one only in the values of its
    /// points, and in points that it has in addition, is steppable.
    pub proof fn lemma_same_points(self, after: CircuitModel)
        requires
            self.steppable(),
            forall|id: Id| present(self.inputs, id) ==> present(after.inputs, id),
            forall|id: Id| present(self.outputs, id) ==> present(after.outputs, id),
            forall|id: Id| present(self.middle_signals, id) ==> present(after.middle_signals, id),
            after.gates == self.gates,
            after.connections == self.connections,
        ensures
            after.steppable(),
            forall|p: ConnectionPoint| self.has_point(p) ==> after.has_point(p),
    {
        assert forall|i: int| 0 <= i < after.connections.len() implies after.has_point(
            (#[trigger] after.connections[i]).1.start,
        ) && after.accepts(after.connections[i].1.end) by {
            assert(self.has_point(self.connections[i].1.start));
            assert(self.accepts(self.connections[i].1.end));
        }
    }

    /// A circuit that covers another has every point of the other.
    pub proof fn lemma_covers_points(self, before: CircuitModel, p: ConnectionPoint)
        requires
            self.wf(),
            before.wf(),
            self.covers(before),
            before.has_point(p),
        ensures
            self.has_point(p),
    {
        match p {
            ConnectionPoint::GateInput { gate, input } => {
                let i = slot(before.gates, gate);
                assert(self.gates[i].0 == gate);
                lemma_slot(self.gates, gate, i);
                lemma_slot(before.gates, gate, i);
                assert(self.gates[i].1.covers(before.gates[i].1));
            },
            ConnectionPoint::GateOutput { gate, output } => {
                let i = slot(before.gates, gate);
                assert(self.gates[i].0 == gate);
                lemma_slot(self.gates, gate, i);
                lemma_slot(before.gates, gate, i);
                assert(self.gates[i].1.covers(before.gates[i].1));
            },
            _ => {},
        }
    }

    /// A write keeps the circuit well formed and keeps every point.
    pub proof fn lemma_write(self, p: ConnectionPoint, value: bool, before: CircuitModel)
        requires
            self.wf(),
            self.covers(before),
            forall|i: int| 0 <= i < self.gates.len() ==> (#[trigger] self.gates[i]).1.steppable(),
        ensures
            self.write(p, value).wf(),
            self.write(p, value).covers(before),
            forall|i: int|
                0 <= i < self.write(p, value).gates.len() ==> (#[trigger] self.write(
                    p,
                    value,
                ).gates[i]).1.steppable(),
    {
        let after = self.write(p, value);
        match p {
            ConnectionPoint::Input(id) => {
                lemma_store(self.inputs, id, value);
            },
            ConnectionPoint::Output(id) => {
                lemma_store(self.outputs, id, value);
            },
            ConnectionPoint::MiddleSignal(id) => {
                lemma_store(self.middle_signals, id, value);
            },
            ConnectionPoint::GateInput { gate, input } => {
                if present(self.gates, gate) {
                    let k = slot(self.gates, gate);
                    self.gates[k].1.lemma_with_input(input, value, before.gates[k].1);
                    lemma_same_keys(self.gates, after.gates, gate);
                    assert forall|i: int| 0 <= i < after.gates.len() implies (
                    #[trigger] after.gates[i]).1.wf() && after.gates[i].1.steppable()
                        && after.gates[i].0 == before.gates[i].0 && after.gates[i].1.covers(
                        before.gates[i].1,
                    ) by {
                        if i != k {
                            assert(after.gates[i] == self.gates[i]);
                        }
                    }
                }
            },
            ConnectionPoint::GateOutput { gate, output } => {
                if present(self.gates, gate) {
                    let k = slot(self.gates, gate);
                    self.gates[k].1.lemma_with_output(output, value, before.gates[k].1);
                    lemma_same_keys(self.gates, after.gates, gate);
                    assert forall|i: int| 0 <= i < after.gates.len() implies (
                    #[trigger] after.gates[i]).1.wf() && after.gates[i].1.steppable()
                        && after.gates[i].0 == before.gates[i].0 && after.gates[i].1.covers(
                        before.gates[i].1,
                    ) by {
                        if i != k {
                            assert(after.gates[i] == self.gates[i]);
                        }
                    }
                }
            },
        }
    }

    /// A well-formed circuit that covers a steppable one, and whose gates
    /// are steppable, is steppable.
    pub proof fn lemma_covering_steppable(self, before: CircuitModel)
        requires
            self.wf(),
            before.wf(),
            before.steppable(),
            self.covers(before),
            forall|i: int| 0 <= i < self.gates.len() ==> (#[trigger] self.gates[i]).1.steppable(),
        ensures
            self.steppable(),
    {
        assert forall|i: int| 0 <= i < self.connections.len() implies self.has_point(
            (#[trigger] self.connections[i]).1.start,
        ) && self.accepts(self.connections[i].1.end) by {
            let c = before.connections[i].1;
            assert(before.has_point(c.start) && before.accepts(c.end));
            self.lemma_covers_points(before, c.start);
            match c.end {
                ConnectionPoint::GateInput { gate, .. } => {
                    lemma_same_keys(before.gates, self.gates, gate);
                },
                ConnectionPoint::GateOutput { gate, .. } => {
                    lemma_same_keys(before.gates, self.gates, gate);
                },
                _ => {},
            }
        }
    }
}

/// A circuit: its elements with their current values, and the allocator of
/// its identifiers.
#[derive(Debug)]
pub struct LogicGateMap {
    inputs: Vec<(Id, bool)>,
    outputs: Vec<(Id, bool)>,
    middle_signals: Vec<(Id, bool)>,
    gates: Vec<(Id, LogicGate)>,
    connections: Vec<(Id, Connection)>,
    id_generator: IdGenerator,
}

impl LogicGateMap {
    /// The model of the circuit.
    pub closed spec fn view(&self) -> CircuitModel
        decreases self,
    {
        CircuitModel {
            inputs: self.inputs@,
            outputs: self.outputs@,
            middle_signals: self.middle_signals@,
            gates: Seq::new(
                self.gates@.len(),
                |i: int|
                    if 0 <= i < self.gates@.len() {
                        (self.gates@[i].0, self.gates@[i].1@)
                    } else {
                        arbitrary()
                    },
            ),
            connections: self.connections@,
            next_id: self.id_generator@,
        }
    }
}

impl Clone for LogicGateMap {
    fn clone(&self) -> (copy: Self)
        ensures
            copy@ == self@,
        decreases self,
    {
        let mut gates: Vec<(Id, LogicGate)> = Vec::new();
        let mut i: usize = 0;
        while i < self.gates.len()
            invariant
                i <= self.gates.len(),
                gates@.len() == i,
                forall|j: int|
                    0 <= j < i ==> (#[trigger] gates@[j]).0 == self.gates@[j].0 && gates@[j].1@
                        == self.gates@[j].1@,
            decreases self.gates.len() - i,
        {
            let gate = self.gates[i].1.clone();
            gates.push((self.gates[i].0, gate));
            i += 1;
        }
        let copy = LogicGateMap {
            inputs: copy_of(&self.inputs),
            outputs: copy_of(&self.outputs),
            middle_signals: copy_of(&self.middle_signals),
            gates,
            connections: copy_of(&self.connections),
            id_generator: self.id_generator.clone(),
        };
        assert(copy@.gates =~= self@.gates);
        copy
    }
}

impl LogicGateMap {
    /// Every table of the circuit is in ascending identifier order, here and
    /// in every nested circuit.
    pub open spec fn wf(&self) -> bool {
        self@.wf()
    }

    /// How the model follows from the fields.
    proof fn lemma_view(&self)
        ensures
            self@.inputs == self.inputs@,
            self@.outputs == self.outputs@,
            self@.middle_signals == self.middle_signals@,
            self@.connections == self.connections@,
            self@.next_id == self.id_generator@,
            self@.gates.len() == self.gates@.len(),
            forall|i: int|
                0 <= i < self.gates@.len() ==> #[trigger] self@.gates[i] == (
                    self.gates@[i].0,
                    self.gates@[i].1@,
                ),
    {
    }

    /// The circuit without any element. Its identifiers start at zero.
    pub fn empty() -> (map: Self)
        ensures
            map@ == CircuitModel::empty(),
            map.wf(),
    {
        let map = Self {
            inputs: Vec::new(),
            outputs: Vec::new(),
            middle_signals: Vec::new(),
            gates: Vec::new(),
            connections: Vec::new(),
            id_generator: IdGenerator::new(),
        };
        assert(map@.gates =~= CircuitModel::empty().gates);
        map
    }

    /// Writes `value` to the point `p`.
    fn write(&mut self, p: ConnectionPoint, value: bool)
        requires
            old(self).wf(),
        ensures
            final(self)@ == old(self)@.write(p, value),
    {
        match p {
            ConnectionPoint::Input(id) => {
                put(&mut self.inputs, id, value);
                assert(self@.gates =~= old(self)@.gates);
            },
            ConnectionPoint::Output(id) => {
                put(&mut self.outputs, id, value);
                assert(self@.gates =~= old(self)@.gates);
            },
            ConnectionPoint::MiddleSignal(id) => {
                put(&mut self.middle_signals, id, value);
                assert(self@.gates =~= old(self)@.gates);
            },
            ConnectionPoint::GateInput { gate, input } => {
                proof {
                    lemma_same_keys(self.gates@, self@.gates, gate);
                }
                match find(&self.gates, gate) {
                    Some(i) => {
                        assert(self.gates@[i as int].1@ == self@.gates[i as int].1);
                        self.gates[i].1.set_input(input, value);
                        assert(self@.gates =~= old(self)@.write(p, value).gates);
                    },
                    None => {},
                }
            },
            ConnectionPoint::GateOutput { gate, output } => {
                proof {
                    lemma_same_keys(self.gates@, self@.gates, gate);
                }
                match find(&self.gates, gate) {
                    Some(i) => {
                        assert(self.gates@[i as int].1@ == self@.gates[i as int].1);
                        self.gates[i].1.set_output(output, value);
                        assert(self@.gates =~= old(self)@.write(p, value).gates);
                    },
                    None => {},
                }
            },
        }
    }

    /// The circuit one step later. The receiver is left as it is.
    pub fn step(&self) -> (next: Self)
        requires
            self.wf(),
            self@.steppable(),
        ensures
            next@ == self@.step(),
            next.wf(),
            next@.steppable(),
            next@.covers(self@),
        decreases self,
    {
        let mut gates: Vec<(Id, LogicGate)> = Vec::new();
        let mut i: usize = 0;
        while i < self.gates.len()
            invariant
                i <= self.gates.len(),
                self.wf(),
                self@.steppable(),
                gates@.len() == i,
                forall|j: int|
                    0 <= j < i ==> {
                        &&& (#[trigger] gates@[j]).0 == self.gates@[j].0
                        &&& gates@[j].1@ == self.gates@[j].1@.step()
                        &&& gates@[j].1@.wf()
                        &&& gates@[j].1@.steppable()
                        &&& gates@[j].1@.covers(self.gates@[j].1@)
                    },
            decreases self.gates.len() - i,
        {
            assert(self@.gates[i as int].1 == self.gates@[i as int].1@);
            let gate = self.gates[i].1.step();
            gates.push((self.gates[i].0, gate));
            i += 1;
        }
        let mut next = LogicGateMap {
            inputs: copy_of(&self.inputs),
            outputs: copy_of(&self.outputs),
            middle_signals: copy_of(&self.middle_signals),
            gates,
            connections: copy_of(&self.connections),
            id_generator: self.id_generator.clone(),
        };
        let ghost base = CircuitModel { gates: self@.stepped_gates(), ..self@ };
        proof {
            assert(next@.gates =~= base.gates);
            assert(next@ == base);
            lemma_same_keys(self@.gates, base.gates, arbitrary());
            assert forall|j: int| 0 <= j < base.gates.len() implies (#[trigger] base.gates[j]).1.wf()
                && base.gates[j].1.steppable() && base.gates[j].0 == self@.gates[j].0
                && base.gates[j].1.covers(self@.gates[j].1) by {
                assert(gates@[j].1@ == base.gates[j].1);
            }
        }
        let mut k: usize = 0;
        while k < self.connections.len()
            invariant
                k <= self.connections.len(),
                self.wf(),
                self@.steppable(),
                self@.connections == self.connections@,
                next@ == self@.propagate(base, k as nat),
                next.wf(),
                next@.covers(self@),
                forall|j: int|
                    0 <= j < next@.gates.len() ==> (#[trigger] next@.gates[j]).1.steppable(),
            decreases self.connections.len() - k,
        {
            let connection = self.connections[k].1;
            assert(self@.has_point(self@.connections[k as int].1.start));
            let value = self.connection_point_value(&connection.start);
            proof {
                next@.lemma_write(connection.end, value, self@);
            }
            next.write(connection.end, value);
            k += 1;
        }
        proof {
            next@.lemma_covering_steppable(self@);
        }
        next
    }

    /// Whether the circuit can be stepped: whether every connection starts
    /// at a point that the circuit has and ends at a point that can be
    /// written, here and in every nested circuit.
    pub fn is_steppable(&self) -> (ok: bool)
        requires
            self.wf(),
        ensures
            ok == self@.steppable(),
        decreases self,
    {
        let mut k: usize = 0;
        while k < self.connections.len()
            invariant
                k <= self.connections.len(),
                self.wf(),
                self@.connections == self.connections@,
                forall|j: int|
                    0 <= j < k ==> self@.has_point((#[trigger] self@.connections[j]).1.start)
                        && self@.accepts(self@.connections[j].1.end),
            decreases self.connections.len() - k,
        {
            let connection = self.connections[k].1;
            if !self.has_connection_point(&connection.start) || !self.accepts_value(
                &connection.end,
            ) {
                assert(!(self@.has_point(self@.connections[k as int].1.start) && self@.accepts(
                    self@.connections[k as int].1.end,
                )));
                return false;
            }
            k += 1;
        }
        let mut i: usize = 0;
        while i < self.gates.len()
            invariant
                i <= self.gates.len(),
                self.wf(),
                self@.gates.len() == self.gates@.len(),
                forall|j: int| 0 <= j < i ==> (#[trigger] self@.gates[j]).1.steppable(),
            decreases self.gates.len() - i,
        {
            assert(self@.gates[i as int].1 == self.gates@[i as int].1@);
            if !self.gates[i].1.is_steppable() {
                return false;
            }
            i += 1;
        }
        true
    }

    /// Whether the circuit has the point `p`.
    pub fn has_connection_point(&self, p: &ConnectionPoint) -> (ok: bool)
        requires
            self.wf(),
        ensures
            ok == self@.has_point(*p),
    {
        match *p {
            ConnectionPoint::Input(id) => find(&self.inputs, id).is_some(),
            ConnectionPoint::Output(id) => find(&self.outputs, id).is_some(),
            ConnectionPoint::MiddleSignal(id) => find(&self.middle_signals, id).is_some(),
            ConnectionPoint::GateInput { gate, input } => {
                proof {
                    lemma_same_keys(self.gates@, self@.gates, gate);
                }
                match find(&self.gates, gate) {
                    Some(i) => {
                        assert(self.gates@[i as int].1@ == self@.gates[i as int].1);
                        self.gates[i].1.get_input(input).is_some()
                    },
                    None => false,
                }
            },
            ConnectionPoint::GateOutput { gate, output } => {
                proof {
                    lemma_same_keys(self.gates@, self@.gates, gate);
                }
                match find(&self.gates, gate) {
                    Some(i) => {
                        assert(self.gates@[i as int].1@ == self@.gates[i as int].1);
                        self.gates[i].1.get_output(output).is_some()
                    },
                    None => false,
                }
            },
        }
    }

    /// Whether a value can be written to the point `p`.
    fn accepts_value(&self, p: &ConnectionPoint) -> (ok: bool)
        requires
            self.wf(),
        ensures
            ok == self@.accepts(*p),
    {
        match *p {
            ConnectionPoint::GateInput { gate, .. } => {
                proof {
                    lemma_same_keys(self.gates@, self@.gates, gate);
                }
                find(&self.gates, gate).is_some()
            },
            ConnectionPoint::GateOutput { gate, .. } => {
                proof {
                    lemma_same_keys(self.gates@, self@.gates, gate);
                }
                find(&self.gates, gate).is_some()
            },
            _ => true,
        }
    }

    /// The value at the point `connection_point`.
    pub fn connection_point_value(&self, connection_point: &ConnectionPoint) -> (value: bool)
        requires
            self.wf(),
            self@.has_point(*connection_point),
        ensures
            value == self@.point_value(*connection_point),
    {
        match *connection_point {
            ConnectionPoint::GateInput { gate, input } => {
                let g = self.gate_by_id(gate);
                match g.get_input(input) {
                    Some(value) => value,
                    None => unreached(),
                }
            },
            ConnectionPoint::GateOutput { gate, output } => {
                let g = self.gate_by_id(gate);
                match g.get_output(output) {
                    Some(value) => value,
                    None => unreached(),
                }
            },
            ConnectionPoint::Input(id) => self.input_by_id(id),
            ConnectionPoint::Output(id) => self.output_by_id(id),
            ConnectionPoint::MiddleSignal(id) => self.middle_signal_by_id(id),
        }
    }
}

impl LogicGateMap {
    /// The inputs with their values, in ascending identifier order.
    pub fn inputs(&self) -> (entries: Vec<(Id, bool)>)
        ensures
            entries@ == self@.inputs,
    {
        copy_of(&self.inputs)
    }

    /// The value of the input at place `index` of `inputs()`, to be read
    /// and to be written in place.
    pub fn inputs_mut(&mut self, index: usize) -> (value: &mut bool)
        requires
            index < old(self)@.inputs.len(),
        ensures
            *value == old(self)@.inputs[index as int].1,
            final(self)@ == (CircuitModel {
                inputs: old(self)@.inputs.update(
                    index as int,
                    (old(self)@.inputs[index as int].0, *final(value)),
                ),
                ..old(self)@
            }),
            old(self).wf() ==> final(self).wf(),
    {
        proof {
            self.lemma_view();
        }
        &mut self.inputs[index].1
    }

    /// The value of the input `id`, which the circuit has to have.
    pub fn input_by_id(&self, id: Id) -> (value: bool)
        requires
            self.wf(),
            present(self@.inputs, id),
        ensures
            value == get(self@.inputs, id),
    {
        match find(&self.inputs, id) {
            Some(i) => self.inputs[i].1,
            None => unreached(),
        }
    }

    /// Sets the input `id` to `initial_value`; an input that the circuit
    /// does not have yet is added.
    pub fn set_input(&mut self, id: Id, initial_value: bool)
        requires
            old(self).wf(),
        ensures
            final(self)@ == (CircuitModel {
                inputs: store(old(self)@.inputs, id, initial_value),
                ..old(self)@
            }),
            final(self).wf(),
    {
        proof {
            lemma_store(self.inputs@, id, initial_value);
        }
        put(&mut self.inputs, id, initial_value);
        assert(self@.gates =~= old(self)@.gates);
    }

    /// The outputs with their values, in ascending identifier order.
    pub fn outputs(&self) -> (entries: Vec<(Id, bool)>)
        ensures
            entries@ == self@.outputs,
    {
        copy_of(&self.outputs)
    }

    /// The value of the output `id`, which the circuit has to have.
    pub fn output_by_id(&self, id: Id) -> (value: bool)
        requires
            self.wf(),
            present(self@.outputs, id),
        ensures
            value == get(self@.outputs, id),
    {
        match find(&self.outputs, id) {
            Some(i) => self.outputs[i].1,
            None => unreached(),
        }
    }

    /// Sets the output `id` to `initial_value`; an output that the circuit
    /// does not have yet is added.
    pub fn set_output(&mut self, id: Id, initial_value: bool)
        requires
            old(self).wf(),
        ensures
            final(self)@ == (CircuitModel {
                outputs: store(old(self)@.outputs, id, initial_value),
                ..old(self)@
            }),
            final(self).wf(),
    {
        proof {
            lemma_store(self.outputs@, id, initial_value);
        }
        put(&mut self.outputs, id, initial_value);
        assert(self@.gates =~= old(self)@.gates);
    }

    /// The middle signals with their values, in ascending identifier order.
    pub fn middle_signals(&self) -> (entries: Vec<(Id, bool)>)
        ensures
            entries@ == self@.middle_signals,
    {
        copy_of(&self.middle_signals)
    }

    /// The value of the middle signal `id`, which the circuit has to have.
    pub fn middle_signal_by_id(&self, id: Id) -> (value: bool)
        requires
            self.wf(),
            present(self@.middle_signals, id),
        ensures
            value == get(self@.middle_signals, id),
    {
        match find(&self.middle_signals, id) {
            Some(i) => self.middle_signals[i].1,
            None => unreached(),
        }
    }

    /// The connections, in ascending identifier order.
    pub fn connections(&self) -> (entries: Vec<(Id, Connection)>)
        ensures
            entries@ == self@.connections,
    {
        copy_of(&self.connections)
    }

    /// A gate of the circuit, by its identifier `id`, which the circuit has
    /// to have.
    pub fn gate_by_id(&self, id: Id) -> (gate: &LogicGate)
        requires
            self.wf(),
            present(self@.gates, id),
        ensures
            gate@ == get(self@.gates, id),
            gate.wf(),
    {
        proof {
            lemma_same_keys(self.gates@, self@.gates, id);
        }
        match find(&self.gates, id) {
            Some(i) => {
                assert(self.gates@[i as int].1@ == self@.gates[i as int].1);
                &self.gates[i].1
            },
            None => unreached(),
        }
    }

    /// The number of identifiers that the circuit has handed out.
    pub fn identifiers_used(&self) -> (count: usize)
        ensures
            count == self@.next_id,
    {
        self.id_generator.issued_count()
    }

    /// Whether the circuit has a gate `id`.
    pub fn has_gate(&self, id: Id) -> (found: bool)
        requires
            self.wf(),
        ensures
            found == present(self@.gates, id),
    {
        proof {
            lemma_same_keys(self.gates@, self@.gates, id);
        }
        find(&self.gates, id).is_some()
    }

    /// The identifiers of all gates, in ascending order.
    pub fn gates(&self) -> (ids: Vec<Id>)
        ensures
            ids@ == keys(self@.gates),
    {
        let ids = keys_of(&self.gates);
        assert(ids@ =~= keys(self@.gates));
        ids
    }

    /// The value of the input `id`, if the circuit has it.
    pub(crate) fn find_input(&self, id: Id) -> (value: Option<bool>)
        requires
            self.wf(),
        ensures
            value == GateModel::Custom(self@).input(id),
    {
        match find(&self.inputs, id) {
            Some(i) => Some(self.inputs[i].1),
            None => None,
        }
    }

    /// The value of the output `id`, if the circuit has it.
    pub(crate) fn find_output(&self, id: Id) -> (value: Option<bool>)
        requires
            self.wf(),
        ensures
            value == GateModel::Custom(self@).output(id),
    {
        match find(&self.outputs, id) {
            Some(i) => Some(self.outputs[i].1),
            None => None,
        }
    }

    /// Sets the input `id`, if the circuit has it.
    pub(crate) fn overwrite_input(&mut self, id: Id, value: bool)
        requires
            old(self).wf(),
        ensures
            GateModel::Custom(final(self)@) == GateModel::Custom(old(self)@).with_input(id, value),
            final(self).wf(),
    {
        if find(&self.inputs, id).is_some() {
            self.set_input(id, value);
        }
    }

    /// Sets the output `id`, if the circuit has it.
    pub(crate) fn overwrite_output(&mut self, id: Id, value: bool)
        requires
            old(self).wf(),
        ensures
            GateModel::Custom(final(self)@) == GateModel::Custom(old(self)@).with_output(
                id,
                value,
            ),
            final(self).wf(),
    {
        if find(&self.outputs, id).is_some() {
            self.set_output(id, value);
        }
    }

    /// The place of the input `id` among the inputs in ascending order.
    pub(crate) fn input_position(&self, id: Id) -> (index: usize)
        requires
            self.wf(),
            present(self@.inputs, id),
        ensures
            index == slot(self@.inputs, id),
            index < self@.inputs.len(),
    {
        match find(&self.inputs, id) {
            Some(i) => i,
            None => unreached(),
        }
    }

    /// The place of the output `id` among the outputs in ascending order.
    pub(crate) fn output_position(&self, id: Id) -> (index: usize)
        requires
            self.wf(),
            present(self@.outputs, id),
        ensures
            index == slot(self@.outputs, id),
            index < self@.outputs.len(),
    {
        match find(&self.outputs, id) {
            Some(i) => i,
            None => unreached(),
        }
    }

    /// The number of inputs.
    pub(crate) fn input_count(&self) -> (count: usize)
        ensures
            count == self@.inputs.len(),
    {
        self.inputs.len()
    }

    /// The number of outputs.
    pub(crate) fn output_count(&self) -> (count: usize)
        ensures
            count == self@.outputs.len(),
    {
        self.outputs.len()
    }
}

/// The record of a NAND gate whose four identifiers start at the number `n`:
/// the new gate, its two inputs and its output.
pub open spec fn nand_record(n: nat) -> GateRecord {
    GateRecord {
        gate_id: Id::of(n),
        inputs: seq![Id::of(n + 1), Id::of(n + 2)],
        outputs: seq![Id::of(n + 3)],
    }
}

/// The record of the custom gate `gate` that wraps `inner`: its slots are
/// the inputs and outputs of `inner`, under the identifiers they have there.
pub open spec fn custom_record(gate: Id, inner: CircuitModel) -> GateRecord {
    GateRecord { gate_id: gate, inputs: keys(inner.inputs), outputs: keys(inner.outputs) }
}

impl LogicGateMap {
    /// Adds an input, which starts false.
    pub fn create_input(&mut self) -> (id: Id)
        requires
            old(self).wf(),
            old(self)@.next_id < usize::MAX,
        ensures
            id == Id::of(old(self)@.next_id),
            final(self)@ == old(self)@.with_input(id),
            final(self).wf(),
            final(self)@.extends(old(self)@),
            final(self)@.has_point(ConnectionPoint::Input(id)),
            old(self)@.steppable() ==> final(self)@.steppable(),
            below(old(self)@.inputs, id@) ==> final(self)@.inputs == old(self)@.inputs.push(
                (id, false),
            ),
    {
        proof {
            self.lemma_view();
        }
        let id = self.id_generator.generate();
        put(&mut self.inputs, id, false);
        proof {
            self.lemma_view();
            assert(self@.gates =~= old(self)@.gates);
            lemma_store(old(self)@.inputs, id, false);
            if below(old(self)@.inputs, id@) {
                lemma_store_fresh(old(self)@.inputs, id, false);
            }
            if old(self)@.steppable() {
                old(self)@.lemma_same_points(self@);
            }
        }
        id
    }

    /// Adds an output, which starts false.
    pub fn create_output(&mut self) -> (id: Id)
        requires
            old(self).wf(),
            old(self)@.next_id < usize::MAX,
        ensures
            id == Id::of(old(self)@.next_id),
            final(self)@ == old(self)@.with_output(id),
            final(self).wf(),
            final(self)@.extends(old(self)@),
            final(self)@.has_point(ConnectionPoint::Output(id)),
            old(self)@.steppable() ==> final(self)@.steppable(),
            below(old(self)@.outputs, id@) ==> final(self)@.outputs == old(self)@.outputs.push(
                (id, false),
            ),
    {
        proof {
            self.lemma_view();
        }
        let id = self.id_generator.generate();
        put(&mut self.outputs, id, false);
        proof {
            self.lemma_view();
            assert(self@.gates =~= old(self)@.gates);
            lemma_store(old(self)@.outputs, id, false);
            if below(old(self)@.outputs, id@) {
                lemma_store_fresh(old(self)@.outputs, id, false);
            }
            if old(self)@.steppable() {
                old(self)@.lemma_same_points(self@);
            }
        }
        id
    }

    /// A gate stored under the next identifier goes to the end of the table of gates.
    proof fn lemma_fresh_gate(&self, id: Id, gate: LogicGate)
        requires
            self.wf(),
            id@ == self@.next_id,
        ensures
            store(self.gates@, id, gate) == self.gates@.push((id, gate)),
            store(self@.gates, id, gate@) == self@.gates.push((id, gate@)),
    {
        self.lemma_view();
        assert forall|i: int| 0 <= i < self.gates@.len() implies (#[trigger] self.gates@[i]).0@
            < id@ by {
            assert(self@.gates[i].0 == self.gates@[i].0);
        }
        lemma_store_fresh(self.gates@, id, gate);
        lemma_store_fresh(self@.gates, id, gate@);
    }

    /// What a circuit gains when `gate` is stored under the next identifier
    /// `id` and the allocator's count moves on.
    proof fn lemma_new_gate(before: CircuitModel, after: CircuitModel, id: Id, gate: GateModel)
        requires
            before.wf(),
            gate.wf(),
            id@ == before.next_id,
            after == (CircuitModel {
                gates: store(before.gates, id, gate),
                next_id: after.next_id,
                ..before
            }),
            before.next_id < after.next_id <= usize::MAX,
        ensures
            after.wf(),
            after.gates == before.gates.push((id, gate)),
            after.extends(before),
            present(after.gates, id),
            get(after.gates, id) == gate,
            before.steppable() && gate.steppable() ==> after.steppable(),
    {
        lemma_store_fresh(before.gates, id, gate);
        lemma_store(before.gates, id, gate);
        assert forall|p: ConnectionPoint| #[trigger] before.has_point(p) implies after.has_point(
            p,
        ) by {
            match p {
                ConnectionPoint::GateInput { gate: g, .. } => {
                    assert(g != id);
                },
                ConnectionPoint::GateOutput { gate: g, .. } => {
                    assert(g != id);
                },
                _ => {},
            }
        }
        assert forall|p: ConnectionPoint| #[trigger] before.accepts(p) implies after.accepts(
            p,
        ) by {
            match p {
                ConnectionPoint::GateInput { gate: g, .. } => {
                    assert(g != id);
                },
                ConnectionPoint::GateOutput { gate: g, .. } => {
                    assert(g != id);
                },
                _ => {},
            }
        }
        assert forall|i: int| 0 <= i < after.gates.len() implies (#[trigger] after.gates[i]).1.wf()
            && (before.steppable() && gate.steppable() ==> after.gates[i].1.steppable()) by {
            if i < before.gates.len() {
                assert(after.gates[i] == before.gates[i]);
            }
        }
        if before.steppable() && gate.steppable() {
            assert forall|i: int| 0 <= i < after.connections.len() implies after.has_point(
                (#[trigger] after.connections[i]).1.start,
            ) && after.accepts(after.connections[i].1.end) by {
                assert(before.has_point(before.connections[i].1.start));
                assert(before.accepts(before.connections[i].1.end));
            }
        }
    }

    /// Adds a NAND gate: both inputs start false, the output starts true.
    /// This gate takes four identifiers in a row: its own, those of its two
    /// inputs and that of its output.
    pub fn create_nand_gate(&mut self) -> (info: GateCreationInfo)
        requires
            old(self).wf(),
            old(self)@.next_id + 3 < usize::MAX,
        ensures
            info@ == nand_record(old(self)@.next_id),
            final(self)@ == old(self)@.with_nand(
                info@.gate_id,
                info@.inputs[0],
                info@.inputs[1],
                info@.outputs[0],
            ),
            final(self)@.gates == old(self)@.gates.push(
                (
                    info@.gate_id,
                    GateModel::Nand {
                        first: (info@.inputs[0], false),
                        second: (info@.inputs[1], false),
                        output: (info@.outputs[0], true),
                    },
                ),
            ),
            final(self).wf(),
            final(self)@.extends(old(self)@),
            present(final(self)@.gates, info@.gate_id),
            get(final(self)@.gates, info@.gate_id) == (GateModel::Nand {
                first: (info@.inputs[0], false),
                second: (info@.inputs[1], false),
                output: (info@.outputs[0], true),
            }),
            final(self)@.has_point(
                ConnectionPoint::GateInput { gate: info@.gate_id, input: info@.inputs[0] },
            ),
            final(self)@.has_point(
                ConnectionPoint::GateInput { gate: info@.gate_id, input: info@.inputs[1] },
            ),
            final(self)@.has_point(
                ConnectionPoint::GateOutput { gate: info@.gate_id, output: info@.outputs[0] },
            ),
            old(self)@.steppable() ==> final(self)@.steppable(),
    {
        broadcast use Id::of_number;

        proof {
            self.lemma_view();
        }
        let id = self.id_generator.generate();
        let i1 = self.id_generator.generate();
        let i2 = self.id_generator.generate();
        let q = self.id_generator.generate();
        let nand = LogicGate::Nand { inputs: [(i1, false), (i2, false)], output: (q, true) };
        let ghost gate = nand;
        let ghost model = nand@;
        put(&mut self.gates, id, nand);
        let inputs = vec![i1, i2];
        let outputs = vec![q];
        proof {
            self.lemma_view();
            old(self).lemma_fresh_gate(id, gate);
            assert(self@.gates =~= old(self)@.gates.push((id, model)));
            Self::lemma_new_gate(old(self)@, self@, id, model);
            assert(inputs@ =~= seq![i1, i2]);
            assert(outputs@ =~= seq![q]);
            lemma_sorted_ids_of_sorted(inputs@);
            lemma_sorted_ids_of_sorted(outputs@);
        }
        GateCreationInfo::new(id, inputs, outputs)
    }

    /// Adds the circuit `gate` as a custom gate. The slots of the new gate
    /// carry the identifiers that the inputs and outputs have inside `gate`.
    pub fn create_custom_gate(&mut self, gate: LogicGateMap) -> (info: GateCreationInfo)
        requires
            old(self).wf(),
            gate.wf(),
            old(self)@.next_id < usize::MAX,
        ensures
            info@ == custom_record(Id::of(old(self)@.next_id), gate@),
            final(self)@ == old(self)@.with_custom(info@.gate_id, gate@),
            final(self)@.gates == old(self)@.gates.push((info@.gate_id, GateModel::Custom(gate@))),
            final(self).wf(),
            final(self)@.extends(old(self)@),
            present(final(self)@.gates, info@.gate_id),
            get(final(self)@.gates, info@.gate_id) == GateModel::Custom(gate@),
            forall|k: int|
                0 <= k < gate@.inputs.len() ==> final(self)@.has_point(
                    ConnectionPoint::GateInput {
                        gate: info@.gate_id,
                        input: #[trigger] info@.inputs[k],
                    },
                ),
            forall|k: int|
                0 <= k < gate@.outputs.len() ==> final(self)@.has_point(
                    ConnectionPoint::GateOutput {
                        gate: info@.gate_id,
                        output: #[trigger] info@.outputs[k],
                    },
                ),
            old(self)@.steppable() && gate@.steppable() ==> final(self)@.steppable(),
    {
        proof {
            self.lemma_view();
            gate.lemma_view();
        }
        let id = self.id_generator.generate();
        let inputs = keys_of(&gate.inputs);
        let outputs = keys_of(&gate.outputs);
        let ghost inner = gate@;
        let wrapped = LogicGate::Custom(gate);
        let ghost custom = wrapped;
        put(&mut self.gates, id, wrapped);
        proof {
            self.lemma_view();
            old(self).lemma_fresh_gate(id, custom);
            assert(self@.gates =~= old(self)@.gates.push((id, GateModel::Custom(inner))));
            Self::lemma_new_gate(old(self)@, self@, id, GateModel::Custom(inner));
            lemma_keys_sorted(inner.inputs);
            lemma_keys_sorted(inner.outputs);
            assert forall|k: int| 0 <= k < inner.inputs.len() implies GateModel::Custom(
                inner,
            ).input(#[trigger] keys(inner.inputs)[k]) is Some by {
                assert(inner.inputs[k].0 == keys(inner.inputs)[k]);
            }
            assert forall|k: int| 0 <= k < inner.outputs.len() implies GateModel::Custom(
                inner,
            ).output(#[trigger] keys(inner.outputs)[k]) is Some by {
                assert(inner.outputs[k].0 == keys(inner.outputs)[k]);
            }
        }
        GateCreationInfo::new(id, inputs, outputs)
    }

    /// Adds the connection from `start` to `end`.
    pub fn connect(&mut self, start: ConnectionPoint, end: ConnectionPoint) -> (id: Id)
        requires
            old(self).wf(),
            old(self)@.next_id < usize::MAX,
        ensures
            id == Id::of(old(self)@.next_id),
            final(self)@ == old(self)@.with_connection(id, Connection { start, end }),
            final(self)@.connections == old(self)@.connections.push(
                (id, Connection { start, end }),
            ),
            final(self).wf(),
            final(self)@.extends(old(self)@),
            old(self)@.steppable() && old(self)@.has_point(start) && old(self)@.accepts(end)
                ==> final(self)@.steppable(),
    {
        proof {
            self.lemma_view();
        }
        let id = self.id_generator.generate();
        put(&mut self.connections, id, Connection { start, end });
        proof {
            self.lemma_view();
            assert(self@.gates =~= old(self)@.gates);
            lemma_store_fresh(old(self)@.connections, id, Connection { start, end });
            lemma_store(old(self)@.connections, id, Connection { start, end });
            if old(self)@.steppable() && old(self)@.has_point(start) && old(self)@.accepts(end) {
                assert forall|i: int| 0 <= i < self@.connections.len() implies self@.has_point(
                    (#[trigger] self@.connections[i]).1.start,
                ) && self@.accepts(self@.connections[i].1.end) by {
                    if i < old(self)@.connections.len() {
                        assert(old(self)@.has_point(old(self)@.connections[i].1.start));
                        assert(old(self)@.accepts(old(self)@.connections[i].1.end));
                    }
                }
            }
        }
        id
    }

    /// Adds a connection, given as anything that converts into one, such as
    /// the pair of its start and its end.
    pub fn create_connection<C: Into<Connection>>(&mut self, connection: C) -> (id: Id)
        requires
            old(self).wf(),
            old(self)@.next_id < usize::MAX,
        ensures
            id == Id::of(old(self)@.next_id),
            final(self).wf(),
            final(self)@.extends(old(self)@),
            exists|c: Connection|
                {
                    &&& final(self)@ == #[trigger] old(self)@.with_connection(id, c)
                    &&& C::obeys_into_spec() ==> c == connection.into_spec()
                },
    {
        let c: Connection = connection.into();
        let id = self.connect(c.start, c.end);
        assert(self@ == old(self)@.with_connection(id, c));
        id
    }
}

/// The identifiers of an ascending table are in ascending order.
pub proof fn lemma_keys_sorted<V>(t: Seq<(Id, V)>)
    requires
        ascending(t),
    ensures
        sorted_ids(keys(t)) == keys(t),
{
    let ids = keys(t);
    let leq = id_order();
    assert forall|i: int, j: int| 0 <= i < j < ids.len() implies #[trigger] leq(ids[i], ids[j]) by {
        assert(t[i].0@ < t[j].0@);
    }
    lemma_sorted_ids_of_sorted(ids);
}

/// The entry of a NAND gate as `create_nand_gate` makes it, with its four
/// identifiers starting at the number `n`.
pub open spec fn nand_entry(n: nat) -> (Id, GateModel) {
    (
        Id::of(n),
        GateModel::Nand {
            first: (Id::of(n + 1), false),
            second: (Id::of(n + 2), false),
            output: (Id::of(n + 3), true),
        },
    )
}

/// Input number `k` of the NAND gate whose identifiers start at `n`.
pub open spec fn nand_in(n: nat, k: nat) -> ConnectionPoint {
    ConnectionPoint::GateInput { gate: Id::of(n), input: Id::of(n + 1 + k) }
}

/// The output of the NAND gate whose identifiers start at `n`.
pub open spec fn nand_out(n: nat) -> ConnectionPoint {
    ConnectionPoint::GateOutput { gate: Id::of(n), output: Id::of(n + 3) }
}

/// Input number `k` of the custom gate `n` that wraps `inner`.
pub open spec fn custom_in(n: nat, inner: CircuitModel, k: int) -> ConnectionPoint {
    ConnectionPoint::GateInput { gate: Id::of(n), input: inner.inputs[k].0 }
}

/// Output number `k` of the custom gate `n` that wraps `inner`.
pub open spec fn custom_out(n: nat, inner: CircuitModel, k: int) -> ConnectionPoint {
    ConnectionPoint::GateOutput { gate: Id::of(n), output: inner.outputs[k].0 }
}

/// The connection `n` from `start` to `end`.
pub open spec fn wire(n: nat, start: ConnectionPoint, end: ConnectionPoint) -> (Id, Connection) {
    (Id::of(n), Connection { start, end })
}

/// The input `n`.
pub open spec fn input_point(n: nat) -> ConnectionPoint {
    ConnectionPoint::Input(Id::of(n))
}

/// The output `n`.
pub open spec fn output_point(n: nat) -> ConnectionPoint {
    ConnectionPoint::Output(Id::of(n))
}

/// The NOT circuit: the input drives both inputs of one NAND gate, whose
/// output drives the output.
pub open spec fn not_gate_model() -> CircuitModel {
    CircuitModel {
        inputs: seq![(Id::of(0), false)],
        outputs: seq![(Id::of(5), false)],
        middle_signals: seq![],
        gates: seq![nand_entry(1)],
        connections: seq![
            wire(6, input_point(0), nand_in(1, 0)),
            wire(7, input_point(0), nand_in(1, 1)),
            wire(8, nand_out(1), output_point(5)),
        ],
        next_id: 9,
    }
}

/// The AND circuit: a NAND gate on the two inputs, followed by a NAND gate
/// that inverts it.
pub open spec fn and_gate_model() -> CircuitModel {
    CircuitModel {
        inputs: seq![(Id::of(0), false), (Id::of(1), false)],
        outputs: seq![(Id::of(10), false)],
        middle_signals: seq![],
        gates: seq![nand_entry(2), nand_entry(6)],
        connections: seq![
            wire(11, input_point(0), nand_in(2, 0)),
            wire(12, input_point(1), nand_in(2, 1)),
            wire(13, nand_out(2), nand_in(6, 0)),
            wire(14, nand_out(2), nand_in(6, 1)),
            wire(15, nand_out(6), output_point(10)),
        ],
        next_id: 16,
    }
}

/// The entry of the custom gate `n` that wraps `inner`.
pub open spec fn custom_entry(n: nat, inner: CircuitModel) -> (Id, GateModel) {
    (Id::of(n), GateModel::Custom(inner))
}

/// The OR circuit: a NAND gate on the two inverted inputs.
pub open spec fn or_gate_model() -> CircuitModel {
    let not = not_gate_model();
    CircuitModel {
        inputs: seq![(Id::of(0), false), (Id::of(1), false)],
        outputs: seq![(Id::of(8), false)],
        middle_signals: seq![],
        gates: seq![nand_entry(2), custom_entry(6, not), custom_entry(7, not)],
        connections: seq![
            wire(9, input_point(0), custom_in(6, not, 0)),
            wire(10, input_point(1), custom_in(7, not, 0)),
            wire(11, custom_out(6, not, 0), nand_in(2, 0)),
            wire(12, custom_out(7, not, 0), nand_in(2, 1)),
            wire(13, nand_out(2), output_point(8)),
        ],
        next_id: 14,
    }
}

/// The NOR circuit: an AND circuit on the two inverted inputs.
pub open spec fn nor_gate_model() -> CircuitModel {
    let not = not_gate_model();
    let and = and_gate_model();
    CircuitModel {
        inputs: seq![(Id::of(0), false), (Id::of(1), false)],
        outputs: seq![(Id::of(5), false)],
        middle_signals: seq![],
        gates: seq![custom_entry(2, not), custom_entry(3, not), custom_entry(4, and)],
        connections: seq![
            wire(6, input_point(0), custom_in(2, not, 0)),
            wire(7, input_point(1), custom_in(3, not, 0)),
            wire(8, custom_out(2, not, 0), custom_in(4, and, 0)),
            wire(9, custom_out(3, not, 0), custom_in(4, and, 1)),
            wire(10, custom_out(4, and, 0), output_point(5)),
        ],
        next_id: 11,
    }
}

/// The SR latch: two NOR circuits, each fed with one input and with the
/// output of the other. The first input is `set`, the second `reset`; the
/// first output is `q`, the second `not_q`.
pub open spec fn sr_latch_model() -> CircuitModel {
    let nor = nor_gate_model();
    CircuitModel {
        inputs: seq![(Id::of(0), false), (Id::of(1), false)],
        outputs: seq![(Id::of(4), false), (Id::of(5), false)],
        middle_signals: seq![],
        gates: seq![custom_entry(2, nor), custom_entry(3, nor)],
        connections: seq![
            wire(6, input_point(0), custom_in(2, nor, 0)),
            wire(7, input_point(1), custom_in(3, nor, 1)),
            wire(8, custom_out(2, nor, 0), custom_in(3, nor, 0)),
            wire(9, custom_out(3, nor, 0), custom_in(2, nor, 1)),
            wire(10, custom_out(2, nor, 0), output_point(4)),
            wire(11, custom_out(3, nor, 0), output_point(5)),
        ],
        next_id: 12,
    }
}

/// The D latch. The first input is `data`, the second `enable`. Its gates
/// are, in this order, the AND circuit `reset_and`, the AND circuit
/// `set_and`, the NOT circuit `reset_not` and an SR latch. `reset_and` joins
/// the inverted data with `enable` and drives the first input of the latch;
/// `set_and` joins the data with `enable` and drives the second. The output
/// is the first output of the latch.
pub open spec fn d_latch_model() -> CircuitModel {
    let not = not_gate_model();
    let and = and_gate_model();
    let latch = sr_latch_model();
    CircuitModel {
        inputs: seq![(Id::of(0), false), (Id::of(1), false)],
        outputs: seq![(Id::of(6), false)],
        middle_signals: seq![],
        gates: seq![
            custom_entry(2, and),
            custom_entry(3, and),
            custom_entry(4, not),
            custom_entry(5, latch),
        ],
        connections: seq![
            wire(7, input_point(0), custom_in(4, not, 0)),
            wire(8, custom_out(4, not, 0), custom_in(2, and, 0)),
            wire(9, input_point(0), custom_in(3, and, 0)),
            wire(10, input_point(1), custom_in(2, and, 1)),
            wire(11, input_point(1), custom_in(3, and, 1)),
            wire(12, custom_out(2, and, 0), custom_in(5, latch, 0)),
            wire(13, custom_out(3, and, 0), custom_in(5, latch, 1)),
            wire(14, custom_out(5, latch, 0), output_point(6)),
        ],
        next_id: 15,
    }
}

impl LogicGateMap {
    /// The NOT circuit.
    pub fn not_gate() -> (gate: Self)
        ensures
            gate@ == not_gate_model(),
            gate.wf(),
            gate@.steppable(),
    {
        broadcast use Id::of_number;

        let mut result = LogicGateMap::empty();
        let i = ConnectionPoint::Input(result.create_input());
        let nand = result.create_nand_gate();
        let q = ConnectionPoint::Output(result.create_output());
        result.connect(i, nand.input_connection(0));
        result.connect(i, nand.input_connection(1));
        result.connect(nand.output_connection(0), q);
        proof {
            let model = not_gate_model();
            assert(result@.inputs =~= model.inputs);
            assert(result@.outputs =~= model.outputs);
            assert(result@.middle_signals =~= model.middle_signals);
            assert(result@.gates =~= model.gates);
            assert(result@.connections =~= model.connections);
        }
        result
    }

    /// The AND circuit.
    pub fn and_gate() -> (gate: Self)
        ensures
            gate@ == and_gate_model(),
            gate.wf(),
            gate@.steppable(),
    {
        broadcast use Id::of_number;

        let mut result = LogicGateMap::empty();
        let i1 = ConnectionPoint::Input(result.create_input());
        let i2 = ConnectionPoint::Input(result.create_input());
        let nand = result.create_nand_gate();
        let not = result.create_nand_gate();
        let q = ConnectionPoint::Output(result.create_output());
        result.connect(i1, nand.input_connection(0));
        result.connect(i2, nand.input_connection(1));
        result.connect(nand.output_connection(0), not.input_connection(0));
        result.connect(nand.output_connection(0), not.input_connection(1));
        result.connect(not.output_connection(0), q);
        proof {
            let model = and_gate_model();
            assert(result@.inputs =~= model.inputs);
            assert(result@.outputs =~= model.outputs);
            assert(result@.middle_signals =~= model.middle_signals);
            assert(result@.gates =~= model.gates);
            assert(result@.connections =~= model.connections);
        }
        result
    }

    /// The OR circuit.
    pub fn or_gate() -> (gate: Self)
        ensures
            gate@ == or_gate_model(),
            gate.wf(),
            gate@.steppable(),
    {
        broadcast use Id::of_number;

        let mut result = LogicGateMap::empty();
        let a = ConnectionPoint::Input(result.create_input());
        let b = ConnectionPoint::Input(result.create_input());
        let nand = result.create_nand_gate();
        let not_a = result.create_custom_gate(Self::not_gate());
        let not_b = result.create_custom_gate(Self::not_gate());
        let q = ConnectionPoint::Output(result.create_output());
        result.connect(a, not_a.input_connection(0));
        result.connect(b, not_b.input_connection(0));
        result.connect(not_a.output_connection(0), nand.input_connection(0));
        result.connect(not_b.output_connection(0), nand.input_connection(1));
        result.connect(nand.output_connection(0), q);
        proof {
            let model = or_gate_model();
            assert(result@.inputs =~= model.inputs);
            assert(result@.outputs =~= model.outputs);
            assert(result@.middle_signals =~= model.middle_signals);
            assert(result@.gates =~= model.gates);
            assert(result@.connections =~= model.connections);
        }
        result
    }

    /// The NOR circuit.
    pub fn nor_gate() -> (gate: Self)
        ensures
            gate@ == nor_gate_model(),
            gate.wf(),
            gate@.steppable(),
    {
        broadcast use Id::of_number;

        let mut result = LogicGateMap::empty();
        let a = ConnectionPoint::Input(result.create_input());
        let b = ConnectionPoint::Input(result.create_input());
        let not_a = result.create_custom_gate(Self::not_gate());
        let not_b = result.create_custom_gate(Self::not_gate());
        let and = result.create_custom_gate(Self::and_gate());
        let q = ConnectionPoint::Output(result.create_output());
        result.connect(a, not_a.input_connection(0));
        result.connect(b, not_b.input_connection(0));
        result.connect(not_a.output_connection(0), and.input_connection(0));
        result.connect(not_b.output_connection(0), and.input_connection(1));
        result.connect(and.output_connection(0), q);
        proof {
            let model = nor_gate_model();
            assert(result@.inputs =~= model.inputs);
            assert(result@.outputs =~= model.outputs);
            assert(result@.middle_signals =~= model.middle_signals);
            assert(result@.gates =~= model.gates);
            assert(result@.connections =~= model.connections);
        }
        result
    }

    /// The SR latch.
    pub fn sr_latch() -> (gate: Self)
        ensures
            gate@ == sr_latch_model(),
            gate.wf(),
            gate@.steppable(),
    {
        broadcast use Id::of_number;

        let mut result = LogicGateMap::empty();
        let set = ConnectionPoint::Input(result.create_input());
        let reset = ConnectionPoint::Input(result.create_input());
        let nor_a = result.create_custom_gate(Self::nor_gate());
        let nor_b = result.create_custom_gate(Self::nor_gate());
        let q = ConnectionPoint::Output(result.create_output());
        let not_q = ConnectionPoint::Output(result.create_output());
        result.connect(set, nor_a.input_connection(0));
        result.connect(reset, nor_b.input_connection(1));
        result.connect(nor_a.output_connection(0), nor_b.input_connection(0));
        result.connect(nor_b.output_connection(0), nor_a.input_connection(1));
        result.connect(nor_a.output_connection(0), q);
        result.connect(nor_b.output_connection(0), not_q);
        proof {
            let model = sr_latch_model();
            assert(result@.inputs =~= model.inputs);
            assert(result@.outputs =~= model.outputs);
            assert(result@.middle_signals =~= model.middle_signals);
            assert(result@.gates =~= model.gates);
            assert(result@.connections =~= model.connections);
        }
        result
    }

    /// The D latch.
    #[verifier::rlimit(60)]
    pub fn d_latch() -> (gate: Self)
        ensures
            gate@ == d_latch_model(),
            gate.wf(),
            gate@.steppable(),
    {
        broadcast use Id::of_number;

        let mut result = LogicGateMap::empty();
        let data = ConnectionPoint::Input(result.create_input());
        let enable = ConnectionPoint::Input(result.create_input());
        let reset_and = result.create_custom_gate(Self::and_gate());
        let set_and = result.create_custom_gate(Self::and_gate());
        let reset_not = result.create_custom_gate(Self::not_gate());
        let sr_latch = result.create_custom_gate(Self::sr_latch());
        let q = ConnectionPoint::Output(result.create_output());
        result.connect(data, reset_not.input_connection(0));
        result.connect(reset_not.output_connection(0), reset_and.input_connection(0));
        result.connect(data, set_and.input_connection(0));
        result.connect(enable, reset_and.input_connection(1));
        result.connect(enable, set_and.input_connection(1));
        result.connect(reset_and.output_connection(0), sr_latch.input_connection(0));
        result.connect(set_and.output_connection(0), sr_latch.input_connection(1));
        result.connect(sr_latch.output_connection(0), q);
        proof {
            let model = d_latch_model();
            assert(result@.inputs =~= model.inputs);
            assert(result@.outputs =~= model.outputs);
            assert(result@.middle_signals =~= model.middle_signals);
            assert(result@.gates =~= model.gates);
            assert(result@.connections =~= model.connections);
        }
        result
    }
}

} // verus!
