//! Gates, connection points and connections.
//!
//! A gate is a primitive NAND or a custom gate that wraps a whole circuit.
//! `GateModel` is the mathematical model of a gate; the contracts of
//! `LogicGate` are stated over it.

use vstd::prelude::*;
use vstd::relations::{sorted_by, total_ordering};
use vstd::seq_lib::lemma_sorted_unique;
use vstd::std_specs::convert::FromSpecImpl;
use crate::id::Id;
use crate::logic_gate_map::{CircuitModel, LogicGateMap};
use crate::table::{get, lemma_store, present, slot, store};

verus! {

/// One addressable point of a circuit that carries a boolean value.
#[derive(Debug, Clone, Copy, PartialEq, Eq, Structural)]
#[allow(unused)]
pub enum ConnectionPoint {
    Input(Id),
    Output(Id),
    MiddleSignal(Id),
    GateInput { gate: Id, input: Id },
    GateOutput { gate: Id, output: Id },
}

/// A directed link: each step carries the value at `start` to `end`.
#[derive(Debug, Clone, Copy, PartialEq, Eq, Structural)]
pub struct Connection {
    pub start: ConnectionPoint,
    pub end: ConnectionPoint,
}

impl From<(ConnectionPoint, ConnectionPoint)> for Connection {
    fn from(ends: (ConnectionPoint, ConnectionPoint)) -> (connection: Self) {
        Connection { start: ends.0, end: ends.1 }
    }
}

impl FromSpecImpl<(ConnectionPoint, ConnectionPoint)> for Connection {
    open spec fn obeys_from_spec() -> bool {
        true
    }

    open spec fn from_spec(ends: (ConnectionPoint, ConnectionPoint)) -> Self {
        Connection { start: ends.0, end: ends.1 }
    }
}

/// A gate of a circuit.
#[derive(Debug)]
pub enum LogicGate {
    /// Two input slots and one output slot, each with its identifier.
    Nand { inputs: [(Id, bool); 2], output: (Id, bool) },
    /// A whole circuit used as one gate.
    Custom(LogicGateMap),
}

/// The mathematical model of a gate.
pub enum GateModel {
    Nand { first: (Id, bool), second: (Id, bool), output: (Id, bool) },
    Custom(CircuitModel),
}

impl GateModel {
    /// Every circuit nested in this gate is well formed.
    pub open spec fn wf(self) -> bool
        decreases self,
    {
        match self {
            GateModel::Nand { .. } => true,
            GateModel::Custom(inner) => inner.wf(),
        }
    }

    /// Every circuit nested in this gate can be stepped.
    pub open spec fn steppable(self) -> bool
        decreases self,
    {
        match self {
            GateModel::Nand { .. } => true,
            GateModel::Custom(inner) => inner.steppable(),
        }
    }

    /// This gate after one step: a NAND recomputes its output from its
    /// inputs, a custom gate steps the circuit it wraps.
    pub open spec fn step(self) -> GateModel
        decreases self,
    {
        match self {
            GateModel::Nand { first, second, output } => GateModel::Nand {
                first,
                second,
                output: (output.0, !(first.1 && second.1)),
            },
            GateModel::Custom(inner) => GateModel::Custom(inner.step()),
        }
    }

    /// `self` offers every slot that `before` offers, at every depth.
    pub open spec fn covers(self, before: GateModel) -> bool
        decreases self,
    {
        match self {
            GateModel::Nand { first, second, output } => match before {
                GateModel::Nand { first: f, second: s, output: o } => first.0 == f.0 && second.0
                    == s.0 && output.0 == o.0,
                GateModel::Custom(_) => false,
            },
            GateModel::Custom(inner) => match before {
                GateModel::Nand { .. } => false,
                GateModel::Custom(b) => inner.covers(b),
            },
        }
    }

    /// The value of the input slot `id`, if this gate has that slot.
    pub open spec fn input(self, id: Id) -> Option<bool> {
        match self {
            GateModel::Nand { first, second, .. } => if id == first.0 {
                Some(first.1)
            } else if id == second.0 {
                Some(second.1)
            } else {
                None
            },
            GateModel::Custom(inner) => if present(inner.inputs, id) {
                Some(get(inner.inputs, id))
            } else {
                None
            },
        }
    }

    /// The value of the output slot `id`, if this gate has that slot.
    pub open spec fn output(self, id: Id) -> Option<bool> {
        match self {
            GateModel::Nand { output, .. } => if id == output.0 {
                Some(output.1)
            } else {
                None
            },
            GateModel::Custom(inner) => if present(inner.outputs, id) {
                Some(get(inner.outputs, id))
            } else {
                None
            },
        }
    }

    /// This gate with `value` in the input slot `id`; this gate itself where it
    /// has no such slot.
    pub open spec fn with_input(self, id: Id, value: bool) -> GateModel {
        match self {
            GateModel::Nand { first, second, output } => if id == first.0 {
                GateModel::Nand { first: (first.0, value), second, output }
            } else if id == second.0 {
                GateModel::Nand { first, second: (second.0, value), output }
            } else {
                self
            },
            GateModel::Custom(inner) => if present(inner.inputs, id) {
                GateModel::Custom(CircuitModel { inputs: store(inner.inputs, id, value), ..inner })
            } else {
                self
            },
        }
    }

    /// This gate with `value` in the output slot `id`; this gate itself where
    /// it has no such slot.
    pub open spec fn with_output(self, id: Id, value: bool) -> GateModel {
        match self {
            GateModel::Nand { first, second, output } => if id == output.0 {
                GateModel::Nand { first, second, output: (output.0, value) }
            } else {
                self
            },
            GateModel::Custom(inner) => if present(inner.outputs, id) {
                GateModel::Custom(
                    CircuitModel { outputs: store(inner.outputs, id, value), ..inner },
                )
            } else {
                self
            },
        }
    }

    /// The input slots in ascending identifier order.
    pub open spec fn inputs(self) -> Seq<(Id, bool)> {
        match self {
            GateModel::Nand { first, second, .. } => if second.0@ < first.0@ {
                seq![second, first]
            } else {
                seq![first, second]
            },
            GateModel::Custom(inner) => inner.inputs,
        }
    }

    /// The output slots in ascending identifier order.
    pub open spec fn outputs(self) -> Seq<(Id, bool)> {
        match self {
            GateModel::Nand { output, .. } => seq![output],
            GateModel::Custom(inner) => inner.outputs,
        }
    }

    /// The index of the input slot `id`: for a NAND the place at which the
    /// slot was declared, for a custom gate its place in ascending order.
    pub open spec fn input_index(self, id: Id) -> int {
        match self {
            GateModel::Nand { first, .. } => if id == first.0 {
                0
            } else {
                1
            },
            GateModel::Custom(inner) => slot(inner.inputs, id),
        }
    }

    /// The index of the output slot `id`.
    pub open spec fn output_index(self, id: Id) -> int {
        match self {
            GateModel::Nand { .. } => 0,
            GateModel::Custom(inner) => slot(inner.outputs, id),
        }
    }

    /// Every listed input is an input slot of this gate.
    pub proof fn lemma_listed_input(self, j: int)
        requires
            0 <= j < self.inputs().len(),
        ensures
            self.input(self.inputs()[j].0) is Some,
    {
        match self {
            GateModel::Nand { .. } => {},
            GateModel::Custom(inner) => {
                assert(inner.inputs[j].0 == self.inputs()[j].0);
            },
        }
    }

    /// Every listed output is an output slot of this gate.
    pub proof fn lemma_listed_output(self, j: int)
        requires
            0 <= j < self.outputs().len(),
        ensures
            self.output(self.outputs()[j].0) is Some,
    {
        match self {
            GateModel::Nand { .. } => {},
            GateModel::Custom(inner) => {
                assert(inner.outputs[j].0 == self.outputs()[j].0);
            },
        }
    }

    /// A step keeps a gate well formed and steppable, and keeps its slots.
    pub proof fn lemma_step(self)
        requires
            self.wf(),
            self.steppable(),
        ensures
            self.step().wf(),
            self.step().steppable(),
            self.step().covers(self),
        decreases self, 0nat,
    {
        match self {
            GateModel::Nand { .. } => {},
            GateModel::Custom(inner) => inner.lemma_step(),
        }
    }

    /// The NAND truth table: a NAND gate whose inputs are set to `a` and `b`
    /// shows `!(a && b)` at its output after one step.
    pub proof fn lemma_nand_truth_table(self, a: bool, b: bool)
        requires
            self is Nand,
            self->first.0 != self->second.0,
        ensures
            self.with_input(self->first.0, a).with_input(self->second.0, b).step().output(
                self->output.0,
            ) == Some(!(a && b)),
    {
    }

    /// Writing an input keeps what `covers` and `steppable` ask for.
    pub proof fn lemma_with_input(self, id: Id, value: bool, before: GateModel)
        requires
            self.wf(),
            self.steppable(),
            self.covers(before),
        ensures
            self.with_input(id, value).wf(),
            self.with_input(id, value).steppable(),
            self.with_input(id, value).covers(before),
            forall|other: Id| self.output(other) == self.with_input(id, value).output(other),
            forall|other: Id|
                other != id ==> self.input(other) == self.with_input(id, value).input(other),
            self.input(id) is Some ==> self.with_input(id, value).input(id) == Some(value),
    {
        match self {
            GateModel::Nand { .. } => {},
            GateModel::Custom(inner) => {
                if present(inner.inputs, id) {
                    lemma_store(inner.inputs, id, value);
                    let after = CircuitModel { inputs: store(inner.inputs, id, value), ..inner };
                    inner.lemma_same_points(after);
                    let b = before->Custom_0;
                    assert(after.covers(b));
                }
            },
        }
    }

    /// Writing an output keeps what `covers` and `steppable` ask for.
    pub proof fn lemma_with_output(self, id: Id, value: bool, before: GateModel)
        requires
            self.wf(),
            self.steppable(),
            self.covers(before),
        ensures
            self.with_output(id, value).wf(),
            self.with_output(id, value).steppable(),
            self.with_output(id, value).covers(before),
            forall|other: Id| self.input(other) == self.with_output(id, value).input(other),
            forall|other: Id|
                other != id ==> self.output(other) == self.with_output(id, value).output(other),
            self.output(id) is Some ==> self.with_output(id, value).output(id) == Some(value),
    {
        match self {
            GateModel::Nand { .. } => {},
            GateModel::Custom(inner) => {
                if present(inner.outputs, id) {
                    lemma_store(inner.outputs, id, value);
                    let after = CircuitModel { outputs: store(inner.outputs, id, value), ..inner };
                    inner.lemma_same_points(after);
                    let b = before->Custom_0;
                    assert(after.covers(b));
                }
            },
        }
    }
}

impl LogicGate {
    /// The model of this gate.
    pub open spec fn view(&self) -> GateModel
        decreases self,
    {
        match self {
            LogicGate::Nand { inputs, output } => GateModel::Nand {
                first: inputs[0],
                second: inputs[1],
                output: *output,
            },
            LogicGate::Custom(inner) => GateModel::Custom(inner@),
        }
    }
}

impl Clone for LogicGate {
    fn clone(&self) -> (copy: Self)
        ensures
            copy@ == self@,
        decreases self,
    {
        match self {
            LogicGate::Nand { inputs, output } => LogicGate::Nand {
                inputs: [inputs[0], inputs[1]],
                output: *output,
            },
            LogicGate::Custom(inner) => LogicGate::Custom(inner.clone()),
        }
    }
}

impl LogicGate {
    /// Every circuit nested in this gate is well formed.
    pub open spec fn wf(&self) -> bool {
        self@.wf()
    }

    /// This gate one step later.
    pub fn step(&self) -> (next: Self)
        requires
            self.wf(),
            self@.steppable(),
        ensures
            next@ == self@.step(),
            next.wf(),
            next@.steppable(),
            next@.covers(self@),
        decreases self,
    {
        match self {
            LogicGate::Nand { inputs, output } => {
                let first = inputs[0];
                let second = inputs[1];
                LogicGate::Nand { inputs: [first, second], output: (output.0, !(first.1 && second.1)) }
            },
            LogicGate::Custom(inner) => LogicGate::Custom(inner.step()),
        }
    }

    /// Whether every circuit nested in this gate can be stepped.
    pub fn is_steppable(&self) -> (ok: bool)
        requires
            self.wf(),
        ensures
            ok == self@.steppable(),
        decreases self,
    {
        match self {
            LogicGate::Nand { .. } => true,
            LogicGate::Custom(inner) => inner.is_steppable(),
        }
    }

    /// The value of the input slot `id`; `None` where this gate has no such
    /// slot.
    pub fn get_input(&self, id: Id) -> (value: Option<bool>)
        requires
            self.wf(),
        ensures
            value == self@.input(id),
    {
        match self {
            LogicGate::Nand { inputs, .. } => {
                if id == inputs[0].0 {
                    Some(inputs[0].1)
                } else if id == inputs[1].0 {
                    Some(inputs[1].1)
                } else {
                    None
                }
            },
            LogicGate::Custom(inner) => inner.find_input(id),
        }
    }

    /// The value of the output slot `id`; `None` where this gate has no such
    /// slot.
    pub fn get_output(&self, id: Id) -> (value: Option<bool>)
        requires
            self.wf(),
        ensures
            value == self@.output(id),
    {
        match self {
            LogicGate::Nand { output, .. } => {
                if id == output.0 {
                    Some(output.1)
                } else {
                    None
                }
            },
            LogicGate::Custom(inner) => inner.find_output(id),
        }
    }

    /// Overwrites the input slot `id`; changes nothing where this gate has no
    /// such slot.
    pub fn set_input(&mut self, id: Id, new_value: bool)
        requires
            old(self).wf(),
        ensures
            final(self)@ == old(self)@.with_input(id, new_value),
            final(self).wf(),
    {
        match self {
            LogicGate::Nand { inputs, .. } => {
                if id == inputs[0].0 {
                    *inputs = [(inputs[0].0, new_value), inputs[1]];
                } else if id == inputs[1].0 {
                    *inputs = [inputs[0], (inputs[1].0, new_value)];
                }
            },
            LogicGate::Custom(inner) => {
                inner.overwrite_input(id, new_value);
            },
        }
    }

    /// Overwrites the output slot `id`; changes nothing where this gate has
    /// no such slot.
    pub fn set_output(&mut self, id: Id, new_value: bool)
        requires
            old(self).wf(),
        ensures
            final(self)@ == old(self)@.with_output(id, new_value),
            final(self).wf(),
    {
        match self {
            LogicGate::Nand { output, .. } => {
                if id == output.0 {
                    *output = (output.0, new_value);
                }
            },
            LogicGate::Custom(inner) => {
                inner.overwrite_output(id, new_value);
            },
        }
    }

    /// The index of the input slot `id`, which has to be a slot of this
    /// gate: for a NAND 0 for the slot declared first and 1 for the other,
    /// for a custom gate the place of `id` among the inputs in ascending
    /// order.
    pub fn get_input_index(&self, id: Id) -> (index: usize)
        requires
            self.wf(),
            self@.input(id) is Some,
        ensures
            index == self@.input_index(id),
            index < self@.inputs().len(),
    {
        match self {
            LogicGate::Nand { inputs, .. } => {
                if id == inputs[0].0 {
                    0
                } else {
                    1
                }
            },
            LogicGate::Custom(inner) => inner.input_position(id),
        }
    }

    /// The number of input slots.
    pub fn input_count(&self) -> (count: usize)
        ensures
            count == self@.inputs().len(),
    {
        match self {
            LogicGate::Nand { .. } => 2,
            LogicGate::Custom(inner) => inner.input_count(),
        }
    }

    /// The index of the output slot `id`, which has to be a slot of this
    /// gate: the place of `id` among the outputs in ascending order.
    pub fn get_output_index(&self, id: Id) -> (index: usize)
        requires
            self.wf(),
            self@.output(id) is Some,
        ensures
            index == self@.output_index(id),
            index < self@.outputs().len(),
    {
        match self {
            LogicGate::Nand { .. } => 0,
            LogicGate::Custom(inner) => inner.output_position(id),
        }
    }

    /// The number of output slots.
    pub fn output_count(&self) -> (count: usize)
        ensures
            count == self@.outputs().len(),
    {
        match self {
            LogicGate::Nand { .. } => 1,
            LogicGate::Custom(inner) => inner.output_count(),
        }
    }

    /// The input slots with their values, in ascending identifier order.
    pub fn inputs(&self) -> (slots: Vec<(Id, bool)>)
        ensures
            slots@ == self@.inputs(),
    {
        match self {
            LogicGate::Nand { inputs, .. } => {
                let mut slots: Vec<(Id, bool)> = Vec::new();
                if inputs[1].0.number() < inputs[0].0.number() {
                    slots.push(inputs[1]);
                    slots.push(inputs[0]);
                } else {
                    slots.push(inputs[0]);
                    slots.push(inputs[1]);
                }
                assert(slots@ =~= self@.inputs());
                slots
            },
            LogicGate::Custom(inner) => inner.inputs(),
        }
    }

    /// The output slots with their values, in ascending identifier order.
    pub fn outputs(&self) -> (slots: Vec<(Id, bool)>)
        ensures
            slots@ == self@.outputs(),
    {
        match self {
            LogicGate::Nand { output, .. } => {
                let mut slots: Vec<(Id, bool)> = Vec::new();
                slots.push(*output);
                assert(slots@ =~= self@.outputs());
                slots
            },
            LogicGate::Custom(inner) => inner.outputs(),
        }
    }
}

/// The order in which identifiers are sorted: by their numbers.
pub open spec fn id_order() -> spec_fn(Id, Id) -> bool {
    |a: Id, b: Id| a@ <= b@
}

/// The identifiers of `ids` in ascending order.
pub open spec fn sorted_ids(ids: Seq<Id>) -> Seq<Id> {
    ids.sort_by(id_order())
}

/// The order of identifiers is a total order.
pub proof fn lemma_id_order_total()
    ensures
        total_ordering(id_order()),
{
    broadcast use Id::same_number;

    let leq = id_order();
    assert forall|a: Id, b: Id| #[trigger] leq(a, b) && #[trigger] leq(b, a) implies a == b by {
        assert(a@ == b@);
    }
}

/// A sequence that is already in ascending order is its own sorting.
pub proof fn lemma_sorted_ids_of_sorted(ids: Seq<Id>)
    requires
        sorted_by(ids, id_order()),
    ensures
        sorted_ids(ids) == ids,
{
    lemma_id_order_total();
    ids.lemma_sort_by_ensures(id_order());
    lemma_sorted_unique(sorted_ids(ids), ids, id_order());
}

/// The identifiers in ascending order.
fn sort_ids(ids: Vec<Id>) -> (sorted: Vec<Id>)
    ensures
        sorted@ == sorted_ids(ids@),
{
    broadcast use vstd::seq_lib::group_to_multiset_ensures;

    let mut sorted: Vec<Id> = Vec::new();
    let mut i: usize = 0;
    while i < ids.len()
        invariant
            i <= ids.len(),
            sorted_by(sorted@, id_order()),
            sorted@.to_multiset() == ids@.take(i as int).to_multiset(),
        decreases ids.len() - i,
    {
        let id = ids[i];
        let mut k: usize = 0;
        while k < sorted.len() && sorted[k].number() <= id.number()
            invariant
                k <= sorted.len(),
                forall|j: int| 0 <= j < k ==> (#[trigger] sorted@[j])@ <= id@,
            decreases sorted.len() - k,
        {
            k += 1;
        }
        let ghost before = sorted@;
        sorted.insert(k, id);
        proof {
            let leq = id_order();
            assert forall|a: int, b: int| 0 <= a < b < sorted@.len() implies #[trigger] leq(
                sorted@[a],
                sorted@[b],
            ) by {
                if b < k {
                    assert(leq(before[a], before[b]));
                } else if b == k {
                    assert(before[a]@ <= id@);
                } else if a < k {
                    assert(leq(before[a], before[b - 1]));
                } else if a == k {
                    assert(before[k as int]@ > id@);
                    if b - 1 > k {
                        assert(leq(before[k as int], before[b - 1]));
                    }
                } else {
                    assert(leq(before[a - 1], before[b - 1]));
                }
            }
            assert(ids@.take(i + 1) =~= ids@.take(i as int).push(id));
            vstd::seq_lib::to_multiset_insert(before, k as int, id);
            vstd::seq_lib::to_multiset_build(ids@.take(i as int), id);
            assert(sorted@ == before.insert(k as int, id));
        }
        i += 1;
    }
    proof {
        assert(ids@.take(ids.len() as int) =~= ids@);
        lemma_id_order_total();
        ids@.lemma_sort_by_ensures(id_order());
        lemma_sorted_unique(sorted@, sorted_ids(ids@), id_order());
    }
    sorted
}

/// What a circuit hands back when a gate is added to it.
#[derive(Debug)]
pub struct GateCreationInfo {
    gate_id: Id,
    inputs: Vec<Id>,
    outputs: Vec<Id>,
}

/// The mathematical model of a gate creation record: this gate's identifier
/// and its input and output identifiers, each list in ascending order.
pub struct GateRecord {
    pub gate_id: Id,
    pub inputs: Seq<Id>,
    pub outputs: Seq<Id>,
}

impl View for GateCreationInfo {
    type V = GateRecord;

    closed spec fn view(&self) -> GateRecord {
        GateRecord { gate_id: self.gate_id, inputs: self.inputs@, outputs: self.outputs@ }
    }
}

impl Clone for GateCreationInfo {
    fn clone(&self) -> (copy: Self)
        ensures
            copy@ == self@,
    {
        let mut inputs: Vec<Id> = Vec::new();
        let mut i: usize = 0;
        while i < self.inputs.len()
            invariant
                i <= self.inputs.len(),
                inputs@ == self.inputs@.take(i as int),
            decreases self.inputs.len() - i,
        {
            inputs.push(self.inputs[i]);
            assert(self.inputs@.take(i + 1) =~= self.inputs@.take(i as int).push(
                self.inputs@[i as int],
            ));
            i += 1;
        }
        let mut outputs: Vec<Id> = Vec::new();
        let mut j: usize = 0;
        while j < self.outputs.len()
            invariant
                j <= self.outputs.len(),
                outputs@ == self.outputs@.take(j as int),
            decreases self.outputs.len() - j,
        {
            outputs.push(self.outputs[j]);
            assert(self.outputs@.take(j + 1) =~= self.outputs@.take(j as int).push(
                self.outputs@[j as int],
            ));
            j += 1;
        }
        assert(self.inputs@.take(self.inputs.len() as int) =~= self.inputs@);
        assert(self.outputs@.take(self.outputs.len() as int) =~= self.outputs@);
        Self { gate_id: self.gate_id, inputs, outputs }
    }
}

impl GateCreationInfo {
    /// Records a gate with its slots; both lists are sorted into ascending
    /// identifier order.
    pub fn new(gate_id: Id, inputs: Vec<Id>, outputs: Vec<Id>) -> (info: Self)
        ensures
            info@ == (GateRecord {
                gate_id,
                inputs: sorted_ids(inputs@),
                outputs: sorted_ids(outputs@),
            }),
    {
        let inputs = sort_ids(inputs);
        let outputs = sort_ids(outputs);
        Self { gate_id, inputs, outputs }
    }

    /// The identifier of the recorded gate.
    pub fn gate_id(&self) -> (id: Id)
        ensures
            id == self@.gate_id,
    {
        self.gate_id
    }

    /// The connection point of this gate's input slot number `index`.
    pub fn input_connection(&self, index: usize) -> (point: ConnectionPoint)
        requires
            index < self@.inputs.len(),
        ensures
            point == (ConnectionPoint::GateInput {
                gate: self@.gate_id,
                input: self@.inputs[index as int],
            }),
    {
        ConnectionPoint::GateInput { gate: self.gate_id, input: self.inputs[index] }
    }

    /// The number of input slots.
    pub fn input_count(&self) -> (count: usize)
        ensures
            count == self@.inputs.len(),
    {
        self.inputs.len()
    }

    /// The connection point of this gate's output slot number `index`.
    pub fn output_connection(&self, index: usize) -> (point: ConnectionPoint)
        requires
            index < self@.outputs.len(),
        ensures
            point == (ConnectionPoint::GateOutput {
                gate: self@.gate_id,
                output: self@.outputs[index as int],
            }),
    {
        ConnectionPoint::GateOutput { gate: self.gate_id, output: self.outputs[index] }
    }

    /// The number of output slots.
    pub fn output_count(&self) -> (count: usize)
        ensures
            count == self@.outputs.len(),
    {
        self.outputs.len()
    }
}

} // verus!
