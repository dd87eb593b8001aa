//! The reader of circuit definition documents.
//!
//! A document is a list of lines; blank lines do not count. The first line
//! names the version of the format, each further line is one directive. The
//! lines after the version line are numbered from zero, and an error carries
//! the number and the text of the line it was found on.
//!
//! `parse` says for every text what reading it gives; `parse_text` computes
//! it. The names that a document binds (inputs, outputs, NAND gates, custom
//! gates) are kept for the whole document, not for one `define_gate` block:
//! a later block sees the names of the earlier ones.

use vstd::prelude::*;
use crate::id::Id;
use crate::logic_gate::{ConnectionPoint, GateCreationInfo, GateRecord};
use crate::logic_gate_map::{custom_record, nand_record, CircuitModel, LogicGateMap};
use crate::render::{LayoutModel, MapRenderSavedState, Position};
use crate::table::present;
use crate::text::{
    after_prefix, chars_of, fields, join_words, joined, lines, number, parse_number, same_text,
    split_fields, split_lines, split_words, strip_prefix, text_of, texts, total, words,
};

verus! {

/// Why a document could not be read.
#[derive(Debug, Clone)]
#[allow(unused)]
pub enum LogicGateMapParseError {
    /// The document has no line that is not blank.
    MissingVersionLine,
    /// The first line, given here, does not name a known version.
    InvalidVersionLine(String),
    /// A directive other than `define_gate` came before any `define_gate`.
    NoCurrentGate(usize, String),
    /// An entry of a `custom_gates` or `connections` line does not have two
    /// parts, given here, or names a circuit that is not defined.
    InvalidCustomGate(usize, Vec<String>, String),
    /// The line begins with no known directive.
    UnrecognisedCommand(usize, String),
    /// An end of a connection, given last, names no point.
    InvalidConnectionPoint(usize, String, String),
    /// A layout line names no gate, or a coordinate is no number.
    InvalidRenderLine(usize, String),
}

/// The mathematical model of `LogicGateMapParseError`.
pub enum ParseError {
    MissingVersionLine,
    InvalidVersionLine(Seq<char>),
    NoCurrentGate(nat, Seq<char>),
    InvalidCustomGate(nat, Seq<Seq<char>>, Seq<char>),
    UnrecognisedCommand(nat, Seq<char>),
    InvalidConnectionPoint(nat, Seq<char>, Seq<char>),
    InvalidRenderLine(nat, Seq<char>),
}

/// The texts that a sequence of strings holds.
pub open spec fn strings(parts: Seq<String>) -> Seq<Seq<char>> {
    Seq::new(parts.len(), |i: int| parts[i]@)
}

impl View for LogicGateMapParseError {
    type V = ParseError;

    open spec fn view(&self) -> ParseError {
        match self {
            LogicGateMapParseError::MissingVersionLine => ParseError::MissingVersionLine,
            LogicGateMapParseError::InvalidVersionLine(line) => ParseError::InvalidVersionLine(
                line@,
            ),
            LogicGateMapParseError::NoCurrentGate(n, line) => ParseError::NoCurrentGate(
                *n as nat,
                line@,
            ),
            LogicGateMapParseError::InvalidCustomGate(n, parts, line) => {
                ParseError::InvalidCustomGate(*n as nat, strings(parts@), line@)
            },
            LogicGateMapParseError::UnrecognisedCommand(n, line) => {
                ParseError::UnrecognisedCommand(*n as nat, line@)
            },
            LogicGateMapParseError::InvalidConnectionPoint(n, line, text) => {
                ParseError::InvalidConnectionPoint(*n as nat, line@, text@)
            },
            LogicGateMapParseError::InvalidRenderLine(n, line) => ParseError::InvalidRenderLine(
                *n as nat,
                line@,
            ),
        }
    }
}

/// One `define_gate` block: its name, the circuit built so far and the
/// layout recorded so far.
pub struct Definition {
    pub name: Seq<char>,
    pub circuit: CircuitModel,
    pub layout: LayoutModel,
}

/// What the reader knows after some lines: the blocks in the order of the
/// document, of which the last one is the current one, and the names bound
/// so far, each list in the order of binding.
pub struct ParseState {
    pub definitions: Seq<Definition>,
    pub inputs: Seq<(Seq<char>, Id)>,
    pub outputs: Seq<(Seq<char>, Id)>,
    pub nands: Seq<(Seq<char>, GateRecord)>,
    pub custom_gates: Seq<(Seq<char>, GateRecord)>,
}

/// The position of the last of `names` that equals `name`.
pub open spec fn latest(names: Seq<Seq<char>>, name: Seq<char>) -> Option<int>
    decreases names.len(),
{
    if names.len() == 0 {
        None
    } else if names.last() == name {
        Some(names.len() - 1)
    } else {
        latest(names.drop_last(), name)
    }
}

/// The names of a list of bindings.
pub open spec fn names_of<V>(bindings: Seq<(Seq<char>, V)>) -> Seq<Seq<char>> {
    Seq::new(bindings.len(), |i: int| bindings[i].0)
}

/// What `name` is bound to: the value of its last binding.
pub open spec fn bound<V>(bindings: Seq<(Seq<char>, V)>, name: Seq<char>) -> Option<V> {
    match latest(names_of(bindings), name) {
        Some(i) => Some(bindings[i].1),
        None => None,
    }
}

/// The names of the blocks.
pub open spec fn block_names(definitions: Seq<Definition>) -> Seq<Seq<char>> {
    Seq::new(definitions.len(), |i: int| definitions[i].name)
}

/// Every gate of the circuit has a position in the layout.
pub open spec fn complete(layout: LayoutModel, circuit: CircuitModel) -> bool {
    forall|i: int|
        0 <= i < circuit.gates.len() ==> present(layout.gates, (#[trigger] circuit.gates[i]).0)
}

impl ParseState {
    /// The state before the first line.
    pub open spec fn initial() -> ParseState {
        ParseState {
            definitions: Seq::empty(),
            inputs: Seq::empty(),
            outputs: Seq::empty(),
            nands: Seq::empty(),
            custom_gates: Seq::empty(),
        }
    }

    /// The current block.
    pub open spec fn current(self) -> Definition {
        self.definitions.last()
    }

    /// The state with `block` in place of the current block.
    pub open spec fn with_current(self, block: Definition) -> ParseState {
        ParseState {
            definitions: self.definitions.update(self.definitions.len() - 1, block),
            ..self
        }
    }

    /// `define_gate`: a new block with an empty circuit and an empty layout
    /// becomes the current block.
    pub open spec fn define(self, name: Seq<char>) -> ParseState {
        ParseState {
            definitions: self.definitions.push(
                Definition { name, circuit: CircuitModel::empty(), layout: LayoutModel::empty() },
            ),
            ..self
        }
    }

    /// One name of an `inputs` line: the current circuit gets a new input,
    /// the layout lists it, and the name is bound to it.
    pub open spec fn add_input(self, name: Seq<char>) -> ParseState {
        let block = self.current();
        let id = Id::of(block.circuit.next_id);
        ParseState {
            inputs: self.inputs.push((name, id)),
            ..self.with_current(
                Definition {
                    circuit: block.circuit.with_input(id),
                    layout: block.layout.with_input(id),
                    ..block
                },
            )
        }
    }

    /// The names of an `inputs` line, from left to right.
    pub open spec fn add_inputs(self, names: Seq<Seq<char>>) -> ParseState
        decreases names.len(),
    {
        if names.len() == 0 {
            self
        } else {
            self.add_inputs(names.drop_last()).add_input(names.last())
        }
    }

    /// One name of an `outputs` line: the current circuit gets a new output,
    /// the layout lists it, and the name is bound to it.
    pub open spec fn add_output(self, name: Seq<char>) -> ParseState {
        let block = self.current();
        let id = Id::of(block.circuit.next_id);
        ParseState {
            outputs: self.outputs.push((name, id)),
            ..self.with_current(
                Definition {
                    circuit: block.circuit.with_output(id),
                    layout: block.layout.with_output(id),
                    ..block
                },
            )
        }
    }

    /// The names of an `outputs` line, from left to right.
    pub open spec fn add_outputs(self, names: Seq<Seq<char>>) -> ParseState
        decreases names.len(),
    {
        if names.len() == 0 {
            self
        } else {
            self.add_outputs(names.drop_last()).add_output(names.last())
        }
    }

    /// One name of a `nands` line: the current circuit gets a new NAND gate,
    /// and the name is bound to its record.
    pub open spec fn add_nand(self, name: Seq<char>) -> ParseState {
        let block = self.current();
        let record = nand_record(block.circuit.next_id);
        ParseState {
            nands: self.nands.push((name, record)),
            ..self.with_current(
                Definition {
                    circuit: block.circuit.with_nand(
                        record.gate_id,
                        record.inputs[0],
                        record.inputs[1],
                        record.outputs[0],
                    ),
                    ..block
                },
            )
        }
    }

    /// The names of a `nands` line, from left to right.
    pub open spec fn add_nands(self, names: Seq<Seq<char>>) -> ParseState
        decreases names.len(),
    {
        if names.len() == 0 {
            self
        } else {
            self.add_nands(names.drop_last()).add_nand(names.last())
        }
    }

    /// One entry `name = source` of a `custom_gates` line. The entry must
    /// have two parts, and `source` must name a block that is completed,
    /// which is any block but the current one; of several blocks with that
    /// name the last one counts. The current circuit gets a copy of that
    /// block's circuit as a custom gate, and `name` is bound to its record.
    pub open spec fn add_custom(self, entry: Seq<char>, n: nat, line: Seq<char>) -> Result<
        ParseState,
        ParseError,
    > {
        let parts = fields(entry, "="@);
        if parts.len() != 2 {
            Err(ParseError::InvalidCustomGate(n, parts, line))
        } else {
            match latest(block_names(self.definitions.drop_last()), parts[1]) {
                None => Err(ParseError::InvalidCustomGate(n, parts, line)),
                Some(i) => {
                    let block = self.current();
                    let inner = self.definitions[i].circuit;
                    let id = Id::of(block.circuit.next_id);
                    Ok(
                        ParseState {
                            custom_gates: self.custom_gates.push(
                                (parts[0], custom_record(id, inner)),
                            ),
                            ..self.with_current(
                                Definition {
                                    circuit: block.circuit.with_custom(id, inner),
                                    ..block
                                },
                            )
                        },
                    )
                },
            }
        }
    }

    /// The entries of a `custom_gates` line, from left to right, up to the
    /// first one that fails.
    pub open spec fn add_customs(self, entries: Seq<Seq<char>>, n: nat, line: Seq<char>) -> Result<
        ParseState,
        ParseError,
    >
        decreases entries.len(),
    {
        if entries.len() == 0 {
            Ok(self)
        } else {
            match self.add_customs(entries.drop_last(), n, line) {
                Ok(state) => state.add_custom(entries.last(), n, line),
                Err(error) => Err(error),
            }
        }
    }

    /// The point that the text of one end of a connection names. One word
    /// is the name of an input or, if no input has it, of an output. Three
    /// words `gate in k` or `gate out k` name slot number `k` of the NAND
    /// gate or, if no NAND gate has the name, of the custom gate `gate`.
    pub open spec fn resolve(self, text: Seq<char>, n: nat, line: Seq<char>) -> Result<
        ConnectionPoint,
        ParseError,
    > {
        let parts = words(text);
        let failure = Err(ParseError::InvalidConnectionPoint(n, line, text));
        if parts.len() == 1 {
            match bound(self.inputs, parts[0]) {
                Some(id) => Ok(ConnectionPoint::Input(id)),
                None => match bound(self.outputs, parts[0]) {
                    Some(id) => Ok(ConnectionPoint::Output(id)),
                    None => failure,
                },
            }
        } else if parts.len() == 3 {
            let gate = match bound(self.nands, parts[0]) {
                Some(record) => Some(record),
                None => bound(self.custom_gates, parts[0]),
            };
            match (gate, number(parts[2])) {
                (Some(record), Some(index)) => {
                    if parts[1] == "in"@ && index < record.inputs.len() {
                        Ok(
                            ConnectionPoint::GateInput {
                                gate: record.gate_id,
                                input: record.inputs[index as int],
                            },
                        )
                    } else if parts[1] == "out"@ && index < record.outputs.len() {
                        Ok(
                            ConnectionPoint::GateOutput {
                                gate: record.gate_id,
                                output: record.outputs[index as int],
                            },
                        )
                    } else {
                        failure
                    }
                },
                _ => failure,
            }
        } else {
            failure
        }
    }

    /// One entry `start => end` of a `connections` line. The entry must
    /// have two parts, and each must name a point; the current circuit gets
    /// the connection between them.
    pub open spec fn add_connection(self, entry: Seq<char>, n: nat, line: Seq<char>) -> Result<
        ParseState,
        ParseError,
    > {
        let parts = fields(entry, "=>"@);
        if parts.len() != 2 {
            Err(ParseError::InvalidCustomGate(n, parts, line))
        } else {
            match self.resolve(parts[0], n, line) {
                Err(error) => Err(error),
                Ok(start) => match self.resolve(parts[1], n, line) {
                    Err(error) => Err(error),
                    Ok(end) => {
                        let block = self.current();
                        let id = Id::of(block.circuit.next_id);
                        Ok(
                            self.with_current(
                                Definition {
                                    circuit: block.circuit.with_connection(
                                        id,
                                        crate::logic_gate::Connection { start, end },
                                    ),
                                    ..block
                                },
                            ),
                        )
                    },
                },
            }
        }
    }

    /// The entries of a `connections` line, from left to right, up to the
    /// first one that fails.
    pub open spec fn add_connections(
        self,
        entries: Seq<Seq<char>>,
        n: nat,
        line: Seq<char>,
    ) -> Result<ParseState, ParseError>
        decreases entries.len(),
    {
        if entries.len() == 0 {
            Ok(self)
        } else {
            match self.add_connections(entries.drop_last(), n, line) {
                Ok(state) => state.add_connection(entries.last(), n, line),
                Err(error) => Err(error),
            }
        }
    }

    /// A layout line `gate x y name...` for a gate bound in `gates`. With
    /// fewer than four words the line changes nothing. Otherwise the first
    /// word must name a gate and the next two must be numbers; the layout
    /// records this gate there, under the words from number `from` on, joined
    /// by single spaces.
    pub open spec fn place(
        self,
        gates: Seq<(Seq<char>, GateRecord)>,
        operands: Seq<char>,
        from: int,
        n: nat,
        line: Seq<char>,
    ) -> Result<ParseState, ParseError> {
        let parts = words(operands);
        if parts.len() < 4 {
            Ok(self)
        } else {
            match (bound(gates, parts[0]), number(parts[1]), number(parts[2])) {
                (Some(record), Some(x), Some(y)) => {
                    let block = self.current();
                    Ok(
                        self.with_current(
                            Definition {
                                layout: block.layout.with_gate(
                                    record.gate_id,
                                    Position { x: x as i128, y: y as i128 },
                                    joined(parts.skip(from)),
                                ),
                                ..block
                            },
                        ),
                    )
                },
                _ => Err(ParseError::InvalidRenderLine(n, line)),
            }
        }
    }

    /// A directive other than `define_gate`, given by its keyword's place in
    /// the list of `directive` and by its operands. It needs a current
    /// block.
    pub open spec fn apply(self, directive: Directive, operands: Seq<char>, n: nat, line: Seq<char>)
        -> Result<ParseState, ParseError> {
        if self.definitions.len() == 0 {
            Err(ParseError::NoCurrentGate(n, line))
        } else {
            match directive {
                Directive::Inputs => Ok(self.add_inputs(words(operands))),
                Directive::Outputs => Ok(self.add_outputs(words(operands))),
                Directive::Nands => Ok(self.add_nands(words(operands))),
                Directive::CustomGates => self.add_customs(fields(operands, ", "@), n, line),
                Directive::Connections => self.add_connections(fields(operands, ", "@), n, line),
                Directive::RenderNandGate => self.place(self.nands, operands, 3, n, line),
                Directive::RenderCustomGate => self.place(self.custom_gates, operands, 2, n, line),
            }
        }
    }

    /// One line of the document, with its number.
    pub open spec fn run_line(self, n: nat, line: Seq<char>) -> Result<ParseState, ParseError> {
        match after_prefix(line, "define_gate "@) {
            Some(name) => Ok(self.define(name)),
            None => match directive(line) {
                Some((kind, operands)) => self.apply(kind, operands, n, line),
                None => Err(ParseError::UnrecognisedCommand(n, line)),
            },
        }
    }

    /// The first `count` of the lines, numbered from zero, up to the first
    /// one that fails.
    pub open spec fn run_lines(self, lines: Seq<Seq<char>>, count: nat) -> Result<
        ParseState,
        ParseError,
    >
        decreases count,
    {
        if count == 0 || count > lines.len() {
            Ok(self)
        } else {
            match self.run_lines(lines, (count - 1) as nat) {
                Ok(state) => state.run_line((count - 1) as nat, lines[count - 1]),
                Err(error) => Err(error),
            }
        }
    }

    /// What the blocks give: each circuit, in the order of the document,
    /// with its layout if that is complete and with none if it is not.
    pub open spec fn results(self) -> Seq<(CircuitModel, Option<LayoutModel>)> {
        Seq::new(
            self.definitions.len(),
            |i: int|
                {
                    let block = self.definitions[i];
                    (
                        block.circuit,
                        if complete(block.layout, block.circuit) {
                            Some(block.layout)
                        } else {
                            None
                        },
                    )
                },
        )
    }
}

/// The directives that work on the current block.
pub enum Directive {
    Inputs,
    Outputs,
    Nands,
    CustomGates,
    Connections,
    RenderNandGate,
    RenderCustomGate,
}

/// The directive that a line begins with, and the operands that follow its
/// keyword. The keyword ends with one space.
pub open spec fn directive(line: Seq<char>) -> Option<(Directive, Seq<char>)> {
    if let Some(operands) = after_prefix(line, "inputs "@) {
        Some((Directive::Inputs, operands))
    } else if let Some(operands) = after_prefix(line, "outputs "@) {
        Some((Directive::Outputs, operands))
    } else if let Some(operands) = after_prefix(line, "nands "@) {
        Some((Directive::Nands, operands))
    } else if let Some(operands) = after_prefix(line, "custom_gates "@) {
        Some((Directive::CustomGates, operands))
    } else if let Some(operands) = after_prefix(line, "connections "@) {
        Some((Directive::Connections, operands))
    } else if let Some(operands) = after_prefix(line, "render_nand_gate "@) {
        Some((Directive::RenderNandGate, operands))
    } else if let Some(operands) = after_prefix(line, "render_custom_gate "@) {
        Some((Directive::RenderCustomGate, operands))
    } else {
        None
    }
}

/// The first line names version 0: it is `version `, followed by a number
/// that is zero.
pub open spec fn names_version_0(line: Seq<char>) -> bool {
    match after_prefix(line, "version "@) {
        Some(rest) => number(rest) == Some(0nat),
        None => false,
    }
}

/// What the lines that follow the version line give in version 0 of the
/// format.
pub open spec fn version_0(lines: Seq<Seq<char>>) -> Result<
    Seq<(CircuitModel, Option<LayoutModel>)>,
    ParseError,
> {
    match ParseState::initial().run_lines(lines, lines.len()) {
        Ok(state) => Ok(state.results()),
        Err(error) => Err(error),
    }
}

/// What reading the document `text` gives.
pub open spec fn parse(text: Seq<char>) -> Result<
    Seq<(CircuitModel, Option<LayoutModel>)>,
    ParseError,
> {
    let all = lines(text);
    if all.len() == 0 {
        Err(ParseError::MissingVersionLine)
    } else if !names_version_0(all[0]) {
        Err(ParseError::InvalidVersionLine(all[0]))
    } else {
        version_0(all.skip(1))
    }
}

/// A layout that reading a document hands out is complete: a block whose
/// gates do not all have a position comes without a layout.
pub proof fn lemma_layouts_complete(text: Seq<char>, i: int)
    requires
        parse(text) is Ok,
        0 <= i < parse(text)->Ok_0.len(),
        parse(text)->Ok_0[i].1 is Some,
    ensures
        complete(parse(text)->Ok_0[i].1->0, parse(text)->Ok_0[i].0),
{
}

/// A document without a line that is not blank misses its version line, and
/// a document whose first line does not name version 0 fails with that line.
pub proof fn lemma_version_line(text: Seq<char>)
    ensures
        lines(text).len() == 0 ==> parse(text) == Err::<
            Seq<(CircuitModel, Option<LayoutModel>)>,
            ParseError,
        >(ParseError::MissingVersionLine),
        lines(text).len() > 0 && !names_version_0(lines(text)[0]) ==> parse(text) == Err::<
            Seq<(CircuitModel, Option<LayoutModel>)>,
            ParseError,
        >(ParseError::InvalidVersionLine(lines(text)[0])),
{
}

/// Before the first `define_gate`, every other directive fails for want of
/// a current block, with the number and the text of its line.
pub proof fn lemma_needs_current_gate(
    state: ParseState,
    kind: Directive,
    operands: Seq<char>,
    n: nat,
    line: Seq<char>,
)
    requires
        state.definitions.len() == 0,
    ensures
        state.apply(kind, operands, n, line) == Err::<ParseState, ParseError>(
            ParseError::NoCurrentGate(n, line),
        ),
{
}

/// An end of a connection that is one word, bound neither as an input nor
/// as an output, names no point: resolving it fails with the number and the
/// text of its line and with the text of that end.
pub proof fn lemma_unbound_name(state: ParseState, text: Seq<char>, n: nat, line: Seq<char>)
    requires
        words(text).len() == 1,
        bound(state.inputs, words(text)[0]) is None,
        bound(state.outputs, words(text)[0]) is None,
    ensures
        state.resolve(text, n, line) == Err::<ConnectionPoint, ParseError>(
            ParseError::InvalidConnectionPoint(n, line, text),
        ),
{
}

/// The first line that fails decides: where the lines before line `k` are
/// read and line `k` fails, reading all lines fails with the error of line
/// `k`, which that line gets under its own number `k`.
pub proof fn lemma_first_failure(state: ParseState, lines: Seq<Seq<char>>, k: nat)
    requires
        k < lines.len(),
        state.run_lines(lines, k) is Ok,
        state.run_lines(lines, k)->Ok_0.run_line(k, lines[k as int]) is Err,
    ensures
        state.run_lines(lines, lines.len()) == Err::<ParseState, ParseError>(
            state.run_lines(lines, k)->Ok_0.run_line(k, lines[k as int])->Err_0,
        ),
{
    assert(state.run_lines(lines, k + 1) is Err);
    lemma_lines_fail(state, lines, k + 1);
}

/// The names of a list of bindings as it is held while reading.
spec fn key_texts<V>(bindings: Seq<(Vec<char>, V)>) -> Seq<Seq<char>> {
    Seq::new(bindings.len(), |i: int| bindings[i].0@)
}

/// The bindings of names to identifiers as the model lists them.
spec fn id_bindings(bindings: Seq<(Vec<char>, Id)>) -> Seq<(Seq<char>, Id)> {
    Seq::new(bindings.len(), |i: int| (bindings[i].0@, bindings[i].1))
}

/// The bindings of names to gates as the model lists them.
spec fn gate_bindings(bindings: Seq<(Vec<char>, GateCreationInfo)>) -> Seq<(Seq<char>, GateRecord)> {
    Seq::new(bindings.len(), |i: int| (bindings[i].0@, bindings[i].1@))
}

/// A `define_gate` block while the document is read.
struct Block {
    name: Vec<char>,
    circuit: LogicGateMap,
    layout: MapRenderSavedState,
}

impl Block {
    spec fn view(&self) -> Definition {
        Definition { name: self.name@, circuit: self.circuit@, layout: self.layout@ }
    }
}

/// The blocks as the model lists them.
spec fn blocks(definitions: Seq<Block>) -> Seq<Definition> {
    Seq::new(definitions.len(), |i: int| definitions[i]@)
}

/// What the reader holds between two lines.
struct Reader {
    definitions: Vec<Block>,
    inputs: Vec<(Vec<char>, Id)>,
    outputs: Vec<(Vec<char>, Id)>,
    nands: Vec<(Vec<char>, GateCreationInfo)>,
    custom_gates: Vec<(Vec<char>, GateCreationInfo)>,
}

/// The position of the last of the first `upto` bindings that has the name
/// `name`.
fn find_latest<V>(bindings: &Vec<(Vec<char>, V)>, name: &Vec<char>) -> (found: Option<usize>)
    ensures
        match latest(key_texts(bindings@), name@) {
            Some(i) => found == Some(i as usize) && 0 <= i < bindings.len(),
            None => found is None,
        },
{
    let ghost keys = key_texts(bindings@);
    let mut j: usize = bindings.len();
    assert(keys.take(j as int) =~= keys);
    while j > 0
        invariant
            j <= bindings.len(),
            keys == key_texts(bindings@),
            latest(keys, name@) == latest(keys.take(j as int), name@),
        decreases j,
    {
        assert(keys.take(j as int).last() == bindings@[j - 1].0@);
        assert(keys.take(j as int).drop_last() =~= keys.take(j - 1));
        if same_text(&bindings[j - 1].0, name) {
            return Some(j - 1);
        }
        j -= 1;
    }
    None
}

/// The position of the last of the first `upto` blocks that has the name
/// `name`.
fn find_block(definitions: &Vec<Block>, upto: usize, name: &Vec<char>) -> (found: Option<usize>)
    requires
        upto <= definitions.len(),
    ensures
        match latest(block_names(blocks(definitions@).take(upto as int)), name@) {
            Some(i) => found == Some(i as usize) && 0 <= i < upto,
            None => found is None,
        },
{
    let ghost keys = block_names(blocks(definitions@).take(upto as int));
    let mut j: usize = upto;
    assert(keys.take(j as int) =~= keys);
    while j > 0
        invariant
            j <= upto <= definitions.len(),
            keys == block_names(blocks(definitions@).take(upto as int)),
            latest(keys, name@) == latest(keys.take(j as int), name@),
        decreases j,
    {
        assert(keys.take(j as int).last() == definitions@[j - 1].name@);
        assert(keys.take(j as int).drop_last() =~= keys.take(j - 1));
        if same_text(&definitions[j - 1].name, name) {
            return Some(j - 1);
        }
        j -= 1;
    }
    None
}

/// A copy of the text.
fn copy_text(v: &Vec<char>) -> (copy: Vec<char>)
    ensures
        copy@ == v@,
{
    let copy = crate::text::slice(v, 0, v.len());
    assert(v@.subrange(0, v.len() as int) =~= v@);
    copy
}

/// The texts as strings.
fn strings_of(parts: &Vec<Vec<char>>) -> (list: Vec<String>)
    ensures
        strings(list@) == texts(parts@),
{
    let mut list: Vec<String> = Vec::new();
    let mut i: usize = 0;
    while i < parts.len()
        invariant
            i <= parts.len(),
            list@.len() == i,
            forall|k: int| 0 <= k < i ==> (#[trigger] list@[k])@ == parts@[k]@,
        decreases parts.len() - i,
    {
        list.push(text_of(&parts[i]));
        i += 1;
    }
    assert(strings(list@) =~= texts(parts@));
    list
}

/// Whether every gate of the circuit has a position in the layout.
fn is_complete(layout: &MapRenderSavedState, circuit: &LogicGateMap) -> (all: bool)
    requires
        layout.wf(),
    ensures
        all == complete(layout@, circuit@),
{
    let ids = circuit.gates();
    let mut i: usize = 0;
    while i < ids.len()
        invariant
            i <= ids.len(),
            layout.wf(),
            ids@ == crate::table::keys(circuit@.gates),
            forall|k: int| 0 <= k < i ==> present(layout@.gates, (#[trigger] circuit@.gates[k]).0),
        decreases ids.len() - i,
    {
        assert(ids@[i as int] == circuit@.gates[i as int].0);
        if !layout.has_gate(ids[i]) {
            return false;
        }
        i += 1;
    }
    true
}

impl Reader {
    spec fn view(&self) -> ParseState {
        ParseState {
            definitions: blocks(self.definitions@),
            inputs: id_bindings(self.inputs@),
            outputs: id_bindings(self.outputs@),
            nands: gate_bindings(self.nands@),
            custom_gates: gate_bindings(self.custom_gates@),
        }
    }

    /// Every circuit and every layout is well formed.
    spec fn wf(&self) -> bool {
        forall|i: int|
            0 <= i < self.definitions@.len() ==> (#[trigger] self.definitions@[i]).circuit.wf()
                && self.definitions@[i].layout.wf()
    }

    /// No circuit has handed out more than four identifiers for each of
    /// `used` characters.
    spec fn within(&self, used: int) -> bool {
        forall|i: int|
            0 <= i < self.definitions@.len() ==> (#[trigger] self.definitions@[i]).circuit@.next_id
                <= 4 * used
    }

    fn new() -> (reader: Self)
        ensures
            reader@ == ParseState::initial(),
            reader.wf(),
            reader.within(0),
    {
        let reader = Reader {
            definitions: Vec::new(),
            inputs: Vec::new(),
            outputs: Vec::new(),
            nands: Vec::new(),
            custom_gates: Vec::new(),
        };
        assert(reader@.definitions =~= ParseState::initial().definitions);
        assert(reader@.inputs =~= ParseState::initial().inputs);
        assert(reader@.outputs =~= ParseState::initial().outputs);
        assert(reader@.nands =~= ParseState::initial().nands);
        assert(reader@.custom_gates =~= ParseState::initial().custom_gates);
        reader
    }

    fn define(&mut self, name: Vec<char>, Ghost(used): Ghost<int>)
        requires
            old(self).wf(),
            old(self).within(used),
            0 <= used,
        ensures
            final(self)@ == old(self)@.define(name@),
            final(self).wf(),
            final(self).within(used),
    {
        let block = Block {
            name,
            circuit: LogicGateMap::empty(),
            layout: MapRenderSavedState::new(),
        };
        self.definitions.push(block);
        assert(self@.definitions =~= old(self)@.define(name@).definitions);
    }

    fn add_input(&mut self, name: Vec<char>, Ghost(used): Ghost<int>)
        requires
            old(self).wf(),
            old(self).within(used),
            old(self)@.definitions.len() > 0,
            4 * (used + 1) <= usize::MAX,
        ensures
            final(self)@ == old(self)@.add_input(name@),
            final(self).wf(),
            final(self).within(used + 1),
    {
        let ghost before = self.definitions@;
        let mut block = self.definitions.pop().unwrap();
        let id = block.circuit.create_input();
        block.layout.add_input(id);
        self.definitions.push(block);
        self.inputs.push((name, id));
        proof {
            assert(self@.definitions =~= old(self)@.add_input(name@).definitions);
            assert(self@.inputs =~= old(self)@.add_input(name@).inputs);
            assert forall|i: int| 0 <= i < self.definitions@.len() implies (
            #[trigger] self.definitions@[i]).circuit.wf() && self.definitions@[i].layout.wf()
                && self.definitions@[i].circuit@.next_id <= 4 * (used + 1) by {
                if i < self.definitions@.len() - 1 {
                    assert(self.definitions@[i] == before[i]);
                }
            }
        }
    }

    fn add_inputs(&mut self, names: &Vec<Vec<char>>, Ghost(used): Ghost<int>)
        requires
            old(self).wf(),
            old(self).within(used),
            old(self)@.definitions.len() > 0,
            4 * (used + names.len()) <= usize::MAX,
        ensures
            final(self)@ == old(self)@.add_inputs(texts(names@)),
            final(self).wf(),
            final(self).within(used + names.len()),
    {
        let ghost all = texts(names@);
        let mut i: usize = 0;
        assert(all.take(0) =~= Seq::<Seq<char>>::empty());
        while i < names.len()
            invariant
                i <= names.len(),
                all == texts(names@),
                4 * (used + names.len()) <= usize::MAX,
                self@ == old(self)@.add_inputs(all.take(i as int)),
                self@.definitions.len() > 0,
                self.wf(),
                self.within(used + i),
            decreases names.len() - i,
        {
            assert(all.take(i + 1).drop_last() =~= all.take(i as int));
            self.add_input(copy_text(&names[i]), Ghost(used + i));
            i += 1;
        }
        assert(all.take(names.len() as int) =~= all);
    }

    fn add_output(&mut self, name: Vec<char>, Ghost(used): Ghost<int>)
        requires
            old(self).wf(),
            old(self).within(used),
            old(self)@.definitions.len() > 0,
            4 * (used + 1) <= usize::MAX,
        ensures
            final(self)@ == old(self)@.add_output(name@),
            final(self).wf(),
            final(self).within(used + 1),
    {
        let ghost before = self.definitions@;
        let mut block = self.definitions.pop().unwrap();
        let id = block.circuit.create_output();
        block.layout.add_output(id);
        self.definitions.push(block);
        self.outputs.push((name, id));
        proof {
            assert(self@.definitions =~= old(self)@.add_output(name@).definitions);
            assert(self@.outputs =~= old(self)@.add_output(name@).outputs);
            assert forall|i: int| 0 <= i < self.definitions@.len() implies (
            #[trigger] self.definitions@[i]).circuit.wf() && self.definitions@[i].layout.wf()
                && self.definitions@[i].circuit@.next_id <= 4 * (used + 1) by {
                if i < self.definitions@.len() - 1 {
                    assert(self.definitions@[i] == before[i]);
                }
            }
        }
    }

    fn add_outputs(&mut self, names: &Vec<Vec<char>>, Ghost(used): Ghost<int>)
        requires
            old(self).wf(),
            old(self).within(used),
            old(self)@.definitions.len() > 0,
            4 * (used + names.len()) <= usize::MAX,
        ensures
            final(self)@ == old(self)@.add_outputs(texts(names@)),
            final(self).wf(),
            final(self).within(used + names.len()),
    {
        let ghost all = texts(names@);
        let mut i: usize = 0;
        assert(all.take(0) =~= Seq::<Seq<char>>::empty());
        while i < names.len()
            invariant
                i <= names.len(),
                all == texts(names@),
                4 * (used + names.len()) <= usize::MAX,
                self@ == old(self)@.add_outputs(all.take(i as int)),
                self@.definitions.len() > 0,
                self.wf(),
                self.within(used + i),
            decreases names.len() - i,
        {
            assert(all.take(i + 1).drop_last() =~= all.take(i as int));
            self.add_output(copy_text(&names[i]), Ghost(used + i));
            i += 1;
        }
        assert(all.take(names.len() as int) =~= all);
    }

    fn add_nand(&mut self, name: Vec<char>, Ghost(used): Ghost<int>)
        requires
            old(self).wf(),
            old(self).within(used),
            old(self)@.definitions.len() > 0,
            4 * (used + 1) <= usize::MAX,
        ensures
            final(self)@ == old(self)@.add_nand(name@),
            final(self).wf(),
            final(self).within(used + 1),
    {
        let ghost before = self.definitions@;
        let mut block = self.definitions.pop().unwrap();
        let info = block.circuit.create_nand_gate();
        self.definitions.push(block);
        self.nands.push((name, info));
        proof {
            assert(self@.definitions =~= old(self)@.add_nand(name@).definitions);
            assert(self@.nands =~= old(self)@.add_nand(name@).nands);
            assert forall|i: int| 0 <= i < self.definitions@.len() implies (
            #[trigger] self.definitions@[i]).circuit.wf() && self.definitions@[i].layout.wf()
                && self.definitions@[i].circuit@.next_id <= 4 * (used + 1) by {
                if i < self.definitions@.len() - 1 {
                    assert(self.definitions@[i] == before[i]);
                }
            }
        }
    }

    fn add_nands(&mut self, names: &Vec<Vec<char>>, Ghost(used): Ghost<int>)
        requires
            old(self).wf(),
            old(self).within(used),
            old(self)@.definitions.len() > 0,
            4 * (used + names.len()) <= usize::MAX,
        ensures
            final(self)@ == old(self)@.add_nands(texts(names@)),
            final(self).wf(),
            final(self).within(used + names.len()),
    {
        let ghost all = texts(names@);
        let mut i: usize = 0;
        assert(all.take(0) =~= Seq::<Seq<char>>::empty());
        while i < names.len()
            invariant
                i <= names.len(),
                all == texts(names@),
                4 * (used + names.len()) <= usize::MAX,
                self@ == old(self)@.add_nands(all.take(i as int)),
                self@.definitions.len() > 0,
                self.wf(),
                self.within(used + i),
            decreases names.len() - i,
        {
            assert(all.take(i + 1).drop_last() =~= all.take(i as int));
            self.add_nand(copy_text(&names[i]), Ghost(used + i));
            i += 1;
        }
        assert(all.take(names.len() as int) =~= all);
    }

    fn add_custom(&mut self, entry: &Vec<char>, n: usize, line: &Vec<char>, Ghost(used): Ghost<int>)
        -> (done: Result<(), LogicGateMapParseError>)
        requires
            old(self).wf(),
            old(self).within(used),
            old(self)@.definitions.len() > 0,
            4 * (used + 1) <= usize::MAX,
        ensures
            match done {
                Ok(_) => old(self)@.add_custom(entry@, n as nat, line@) == Ok::<
                    ParseState,
                    ParseError,
                >(final(self)@) && final(self).wf() && final(self).within(used + 1),
                Err(error) => old(self)@.add_custom(entry@, n as nat, line@) == Err::<
                    ParseState,
                    ParseError,
                >(error@),
            },
    {
        proof {
            reveal_strlit("=");
        }
        let separator = chars_of("=");
        let parts = split_fields(entry, &separator);
        if parts.len() != 2 {
            return Err(
                LogicGateMapParseError::InvalidCustomGate(n, strings_of(&parts), text_of(line)),
            );
        }
        let upto = self.definitions.len() - 1;
        assert(blocks(self.definitions@).take(upto as int) =~= self@.definitions.drop_last());
        match find_block(&self.definitions, upto, &parts[1]) {
            None => Err(
                LogicGateMapParseError::InvalidCustomGate(n, strings_of(&parts), text_of(line)),
            ),
            Some(i) => {
                let ghost before = self.definitions@;
                let inner = self.definitions[i].circuit.clone();
                let mut block = self.definitions.pop().unwrap();
                let info = block.circuit.create_custom_gate(inner);
                self.definitions.push(block);
                self.custom_gates.push((copy_text(&parts[0]), info));
                proof {
                    let goal = old(self)@.add_custom(entry@, n as nat, line@)->Ok_0;
                    assert(self@.definitions =~= goal.definitions);
                    assert(self@.custom_gates =~= goal.custom_gates);
                    assert forall|k: int| 0 <= k < self.definitions@.len() implies (
                    #[trigger] self.definitions@[k]).circuit.wf()
                        && self.definitions@[k].layout.wf()
                        && self.definitions@[k].circuit@.next_id <= 4 * (used + 1) by {
                        if k < self.definitions@.len() - 1 {
                            assert(self.definitions@[k] == before[k]);
                        }
                    }
                }
                Ok(())
            },
        }
    }

    fn add_customs(
        &mut self,
        entries: &Vec<Vec<char>>,
        n: usize,
        line: &Vec<char>,
        Ghost(used): Ghost<int>,
    ) -> (done: Result<(), LogicGateMapParseError>)
        requires
            old(self).wf(),
            old(self).within(used),
            old(self)@.definitions.len() > 0,
            4 * (used + entries.len()) <= usize::MAX,
        ensures
            match done {
                Ok(_) => old(self)@.add_customs(texts(entries@), n as nat, line@) == Ok::<
                    ParseState,
                    ParseError,
                >(final(self)@) && final(self).wf() && final(self).within(used + entries.len()),
                Err(error) => old(self)@.add_customs(texts(entries@), n as nat, line@) == Err::<
                    ParseState,
                    ParseError,
                >(error@),
            },
    {
        let ghost all = texts(entries@);
        let mut i: usize = 0;
        assert(all.take(0) =~= Seq::<Seq<char>>::empty());
        while i < entries.len()
            invariant
                i <= entries.len(),
                all == texts(entries@),
                4 * (used + entries.len()) <= usize::MAX,
                old(self)@.add_customs(all.take(i as int), n as nat, line@) == Ok::<
                    ParseState,
                    ParseError,
                >(self@),
                self@.definitions.len() > 0,
                self.wf(),
                self.within(used + i),
            decreases entries.len() - i,
        {
            assert(all.take(i + 1).drop_last() =~= all.take(i as int));
            assert(all.take(i + 1).last() == entries@[i as int]@);
            let ghost sofar = self@;
            match self.add_custom(&entries[i], n, line, Ghost(used + i)) {
                Ok(_) => {},
                Err(error) => {
                    proof {
                        lemma_customs_fail(old(self)@, all, i + 1, n as nat, line@);
                    }
                    return Err(error);
                },
            }
            i += 1;
        }
        assert(all.take(entries.len() as int) =~= all);
        Ok(())
    }

    fn parse_version_0_connection_point(&self, text: &Vec<char>, n: usize, line: &Vec<char>) -> (point:
        Result<
        ConnectionPoint,
        LogicGateMapParseError,
    >)
        ensures
            match point {
                Ok(p) => self@.resolve(text@, n as nat, line@) == Ok::<ConnectionPoint, ParseError>(
                    p,
                ),
                Err(error) => self@.resolve(text@, n as nat, line@) == Err::<
                    ConnectionPoint,
                    ParseError,
                >(error@),
            },
    {
        let parts = split_words(text);
        proof {
            assert(names_of(self@.inputs) =~= key_texts(self.inputs@));
            assert(names_of(self@.outputs) =~= key_texts(self.outputs@));
            assert(names_of(self@.nands) =~= key_texts(self.nands@));
            assert(names_of(self@.custom_gates) =~= key_texts(self.custom_gates@));
        }
        if parts.len() == 1 {
            assert(words(text@)[0] == parts@[0]@);
            match find_latest(&self.inputs, &parts[0]) {
                Some(i) => {
                    return Ok(ConnectionPoint::Input(self.inputs[i].1));
                },
                None => match find_latest(&self.outputs, &parts[0]) {
                    Some(i) => {
                        return Ok(ConnectionPoint::Output(self.outputs[i].1));
                    },
                    None => {},
                },
            }
        } else if parts.len() == 3 {
            assert(words(text@)[0] == parts@[0]@);
            assert(words(text@)[1] == parts@[1]@);
            assert(words(text@)[2] == parts@[2]@);
            let gate: Option<&GateCreationInfo> = match find_latest(&self.nands, &parts[0]) {
                Some(i) => Some(&self.nands[i].1),
                None => match find_latest(&self.custom_gates, &parts[0]) {
                    Some(i) => Some(&self.custom_gates[i].1),
                    None => None,
                },
            };
            match gate {
                Some(record) => match parse_number(&parts[2]) {
                    Some(index) => {
                        if same_text(&parts[1], &chars_of("in")) && index < record.input_count() {
                            return Ok(record.input_connection(index));
                        } else if same_text(&parts[1], &chars_of("out")) && index
                            < record.output_count() {
                            return Ok(record.output_connection(index));
                        }
                    },
                    None => {},
                },
                None => {},
            }
        }
        Err(LogicGateMapParseError::InvalidConnectionPoint(n, text_of(line), text_of(text)))
    }

    fn add_connection(
        &mut self,
        entry: &Vec<char>,
        n: usize,
        line: &Vec<char>,
        Ghost(used): Ghost<int>,
    ) -> (done: Result<(), LogicGateMapParseError>)
        requires
            old(self).wf(),
            old(self).within(used),
            old(self)@.definitions.len() > 0,
            4 * (used + 1) <= usize::MAX,
        ensures
            match done {
                Ok(_) => old(self)@.add_connection(entry@, n as nat, line@) == Ok::<
                    ParseState,
                    ParseError,
                >(final(self)@) && final(self).wf() && final(self).within(used + 1),
                Err(error) => old(self)@.add_connection(entry@, n as nat, line@) == Err::<
                    ParseState,
                    ParseError,
                >(error@),
            },
    {
        proof {
            reveal_strlit("=>");
        }
        let separator = chars_of("=>");
        let parts = split_fields(entry, &separator);
        if parts.len() != 2 {
            return Err(
                LogicGateMapParseError::InvalidCustomGate(n, strings_of(&parts), text_of(line)),
            );
        }
        assert(fields(entry@, "=>"@)[0] == parts@[0]@);
        assert(fields(entry@, "=>"@)[1] == parts@[1]@);
        let start = match self.parse_version_0_connection_point(&parts[0], n, line) {
            Ok(point) => point,
            Err(error) => {
                return Err(error);
            },
        };
        let end = match self.parse_version_0_connection_point(&parts[1], n, line) {
            Ok(point) => point,
            Err(error) => {
                return Err(error);
            },
        };
        let ghost before = self.definitions@;
        let mut block = self.definitions.pop().unwrap();
        block.circuit.connect(start, end);
        self.definitions.push(block);
        proof {
            let goal = old(self)@.add_connection(entry@, n as nat, line@)->Ok_0;
            assert(self@.definitions =~= goal.definitions);
            assert forall|k: int| 0 <= k < self.definitions@.len() implies (
            #[trigger] self.definitions@[k]).circuit.wf() && self.definitions@[k].layout.wf()
                && self.definitions@[k].circuit@.next_id <= 4 * (used + 1) by {
                if k < self.definitions@.len() - 1 {
                    assert(self.definitions@[k] == before[k]);
                }
            }
        }
        Ok(())
    }

    fn add_connections(
        &mut self,
        entries: &Vec<Vec<char>>,
        n: usize,
        line: &Vec<char>,
        Ghost(used): Ghost<int>,
    ) -> (done: Result<(), LogicGateMapParseError>)
        requires
            old(self).wf(),
            old(self).within(used),
            old(self)@.definitions.len() > 0,
            4 * (used + entries.len()) <= usize::MAX,
        ensures
            match done {
                Ok(_) => old(self)@.add_connections(texts(entries@), n as nat, line@) == Ok::<
                    ParseState,
                    ParseError,
                >(final(self)@) && final(self).wf() && final(self).within(used + entries.len()),
                Err(error) => old(self)@.add_connections(texts(entries@), n as nat, line@) == Err::<
                    ParseState,
                    ParseError,
                >(error@),
            },
    {
        let ghost all = texts(entries@);
        let mut i: usize = 0;
        assert(all.take(0) =~= Seq::<Seq<char>>::empty());
        while i < entries.len()
            invariant
                i <= entries.len(),
                all == texts(entries@),
                4 * (used + entries.len()) <= usize::MAX,
                old(self)@.add_connections(all.take(i as int), n as nat, line@) == Ok::<
                    ParseState,
                    ParseError,
                >(self@),
                self@.definitions.len() > 0,
                self.wf(),
                self.within(used + i),
            decreases entries.len() - i,
        {
            assert(all.take(i + 1).drop_last() =~= all.take(i as int));
            assert(all.take(i + 1).last() == entries@[i as int]@);
            match self.add_connection(&entries[i], n, line, Ghost(used + i)) {
                Ok(_) => {},
                Err(error) => {
                    proof {
                        lemma_connections_fail(old(self)@, all, i + 1, n as nat, line@);
                    }
                    return Err(error);
                },
            }
            i += 1;
        }
        assert(all.take(entries.len() as int) =~= all);
        Ok(())
    }

    fn place(
        &mut self,
        nand: bool,
        operands: &Vec<char>,
        n: usize,
        line: &Vec<char>,
        Ghost(used): Ghost<int>,
    ) -> (done: Result<(), LogicGateMapParseError>)
        requires
            old(self).wf(),
            old(self).within(used),
            old(self)@.definitions.len() > 0,
        ensures
            match done {
                Ok(_) => old(self)@.place(
                    if nand {
                        old(self)@.nands
                    } else {
                        old(self)@.custom_gates
                    },
                    operands@,
                    if nand {
                        3
                    } else {
                        2
                    },
                    n as nat,
                    line@,
                ) == Ok::<ParseState, ParseError>(final(self)@) && final(self).wf()
                    && final(self).within(used),
                Err(error) => old(self)@.place(
                    if nand {
                        old(self)@.nands
                    } else {
                        old(self)@.custom_gates
                    },
                    operands@,
                    if nand {
                        3
                    } else {
                        2
                    },
                    n as nat,
                    line@,
                ) == Err::<ParseState, ParseError>(error@),
            },
    {
        let parts = split_words(operands);
        if parts.len() < 4 {
            return Ok(());
        }
        proof {
            assert(names_of(self@.nands) =~= key_texts(self.nands@));
            assert(names_of(self@.custom_gates) =~= key_texts(self.custom_gates@));
            assert(words(operands@)[0] == parts@[0]@);
            assert(words(operands@)[1] == parts@[1]@);
            assert(words(operands@)[2] == parts@[2]@);
        }
        let found = if nand {
            match find_latest(&self.nands, &parts[0]) {
                Some(i) => Some(self.nands[i].1.gate_id()),
                None => None,
            }
        } else {
            match find_latest(&self.custom_gates, &parts[0]) {
                Some(i) => Some(self.custom_gates[i].1.gate_id()),
                None => None,
            }
        };
        let id = match found {
            Some(id) => id,
            None => {
                return Err(LogicGateMapParseError::InvalidRenderLine(n, text_of(line)));
            },
        };
        let x = match parse_number(&parts[1]) {
            Some(x) => x,
            None => {
                return Err(LogicGateMapParseError::InvalidRenderLine(n, text_of(line)));
            },
        };
        let y = match parse_number(&parts[2]) {
            Some(y) => y,
            None => {
                return Err(LogicGateMapParseError::InvalidRenderLine(n, text_of(line)));
            },
        };
        let from: usize = if nand {
            3
        } else {
            2
        };
        let name = text_of(&join_words(&parts, from));
        let ghost before = self.definitions@;
        let mut block = self.definitions.pop().unwrap();
        block.layout.add_gate(id, Position { x: x as i128, y: y as i128 }, name);
        self.definitions.push(block);
        proof {
            let goal = old(self)@.place(
                if nand {
                    old(self)@.nands
                } else {
                    old(self)@.custom_gates
                },
                operands@,
                from as int,
                n as nat,
                line@,
            )->Ok_0;
            assert(self@.definitions =~= goal.definitions);
            assert forall|k: int| 0 <= k < self.definitions@.len() implies (
            #[trigger] self.definitions@[k]).circuit.wf() && self.definitions@[k].layout.wf()
                && self.definitions@[k].circuit@.next_id <= 4 * used by {
                if k < self.definitions@.len() - 1 {
                    assert(self.definitions@[k] == before[k]);
                }
            }
        }
        Ok(())
    }

    fn apply(
        &mut self,
        kind: Directive,
        operands: &Vec<char>,
        n: usize,
        line: &Vec<char>,
        Ghost(used): Ghost<int>,
    ) -> (done: Result<(), LogicGateMapParseError>)
        requires
            old(self).wf(),
            old(self).within(used),
            0 <= used,
            4 * (used + operands.len()) <= usize::MAX,
        ensures
            match done {
                Ok(_) => old(self)@.apply(kind, operands@, n as nat, line@) == Ok::<
                    ParseState,
                    ParseError,
                >(final(self)@) && final(self).wf() && final(self).within(used + operands.len()),
                Err(error) => old(self)@.apply(kind, operands@, n as nat, line@) == Err::<
                    ParseState,
                    ParseError,
                >(error@),
            },
    {
        if self.definitions.len() == 0 {
            return Err(LogicGateMapParseError::NoCurrentGate(n, text_of(line)));
        }
        proof {
            reveal_strlit(", ");
        }
        match kind {
            Directive::Inputs => {
                let names = split_words(operands);
                self.add_inputs(&names, Ghost(used));
                Ok(())
            },
            Directive::Outputs => {
                let names = split_words(operands);
                self.add_outputs(&names, Ghost(used));
                Ok(())
            },
            Directive::Nands => {
                let names = split_words(operands);
                self.add_nands(&names, Ghost(used));
                Ok(())
            },
            Directive::CustomGates => {
                let entries = split_fields(operands, &chars_of(", "));
                self.add_customs(&entries, n, line, Ghost(used))
            },
            Directive::Connections => {
                let entries = split_fields(operands, &chars_of(", "));
                self.add_connections(&entries, n, line, Ghost(used))
            },
            Directive::RenderNandGate => self.place(true, operands, n, line, Ghost(used)),
            Directive::RenderCustomGate => self.place(false, operands, n, line, Ghost(used)),
        }
    }

    fn run_line(&mut self, n: usize, line: &Vec<char>, Ghost(used): Ghost<int>) -> (done: Result<
        (),
        LogicGateMapParseError,
    >)
        requires
            old(self).wf(),
            old(self).within(used),
            0 <= used,
            4 * (used + line.len()) <= usize::MAX,
        ensures
            match done {
                Ok(_) => old(self)@.run_line(n as nat, line@) == Ok::<ParseState, ParseError>(
                    final(self)@,
                ) && final(self).wf() && final(self).within(used + line.len()),
                Err(error) => old(self)@.run_line(n as nat, line@) == Err::<
                    ParseState,
                    ParseError,
                >(error@),
            },
    {
        match strip_prefix(line, "define_gate ") {
            Some(name) => {
                self.define(name, Ghost(used));
                Ok(())
            },
            None => match read_directive(line) {
                Some((kind, operands)) => self.apply(kind, &operands, n, line, Ghost(used)),
                None => Err(LogicGateMapParseError::UnrecognisedCommand(n, text_of(line))),
            },
        }
    }

    /// The circuits read, each with its layout if that is complete.
    fn results(&self) -> (list: Vec<(LogicGateMap, Option<MapRenderSavedState>)>)
        requires
            self.wf(),
        ensures
            pairs(list@) == self@.results(),
            well_formed(list@),
    {
        let mut list: Vec<(LogicGateMap, Option<MapRenderSavedState>)> = Vec::new();
        let mut i: usize = 0;
        while i < self.definitions.len()
            invariant
                i <= self.definitions.len(),
                self.wf(),
                list@.len() == i,
                well_formed(list@),
                forall|k: int| 0 <= k < i ==> #[trigger] pairs(list@)[k] == self@.results()[k],
            decreases self.definitions.len() - i,
        {
            let block = &self.definitions[i];
            let layout = if is_complete(&block.layout, &block.circuit) {
                Some(block.layout.clone())
            } else {
                None
            };
            let ghost before = list@;
            list.push((block.circuit.clone(), layout));
            proof {
                assert forall|k: int| 0 <= k < i + 1 implies #[trigger] pairs(list@)[k]
                    == self@.results()[k] by {
                    if k < i {
                        assert(list@[k] == before[k]);
                        assert(pairs(before)[k] == self@.results()[k]);
                    }
                }
                assert forall|k: int| 0 <= k < list@.len() implies (#[trigger] list@[k]).0.wf() && (
                list@[k].1 is Some ==> list@[k].1->0.wf()) by {
                    if k < i {
                        assert(list@[k] == before[k]);
                    }
                }
            }
            i += 1;
        }
        assert(pairs(list@) =~= self@.results());
        list
    }
}

/// Once an entry of a `custom_gates` line has failed, the line fails with
/// that error.
proof fn lemma_customs_fail(
    state: ParseState,
    entries: Seq<Seq<char>>,
    count: int,
    n: nat,
    line: Seq<char>,
)
    requires
        0 <= count <= entries.len(),
        state.add_customs(entries.take(count), n, line) is Err,
    ensures
        state.add_customs(entries, n, line) == state.add_customs(entries.take(count), n, line),
    decreases entries.len() - count,
{
    if count < entries.len() {
        assert(entries.take(count + 1).drop_last() =~= entries.take(count));
        lemma_customs_fail(state, entries, count + 1, n, line);
    } else {
        assert(entries.take(count) =~= entries);
    }
}

/// Once an entry of a `connections` line has failed, the line fails with
/// that error.
proof fn lemma_connections_fail(
    state: ParseState,
    entries: Seq<Seq<char>>,
    count: int,
    n: nat,
    line: Seq<char>,
)
    requires
        0 <= count <= entries.len(),
        state.add_connections(entries.take(count), n, line) is Err,
    ensures
        state.add_connections(entries, n, line) == state.add_connections(
            entries.take(count),
            n,
            line,
        ),
    decreases entries.len() - count,
{
    if count < entries.len() {
        assert(entries.take(count + 1).drop_last() =~= entries.take(count));
        lemma_connections_fail(state, entries, count + 1, n, line);
    } else {
        assert(entries.take(count) =~= entries);
    }
}

/// Once a line has failed, the document fails with that error.
proof fn lemma_lines_fail(state: ParseState, lines: Seq<Seq<char>>, count: nat)
    requires
        count <= lines.len(),
        state.run_lines(lines, count) is Err,
    ensures
        state.run_lines(lines, lines.len()) == state.run_lines(lines, count),
    decreases lines.len() - count,
{
    if count < lines.len() {
        lemma_lines_fail(state, lines, count + 1);
    }
}

/// The directive that the line begins with, and its operands.
fn read_directive(line: &Vec<char>) -> (found: Option<(Directive, Vec<char>)>)
    ensures
        match directive(line@) {
            Some((kind, operands)) => found matches Some(pair) && pair.0 == kind && pair.1@
                == operands && operands.len() <= line.len(),
            None => found is None,
        },
{
    if let Some(operands) = strip_prefix(line, "inputs ") {
        Some((Directive::Inputs, operands))
    } else if let Some(operands) = strip_prefix(line, "outputs ") {
        Some((Directive::Outputs, operands))
    } else if let Some(operands) = strip_prefix(line, "nands ") {
        Some((Directive::Nands, operands))
    } else if let Some(operands) = strip_prefix(line, "custom_gates ") {
        Some((Directive::CustomGates, operands))
    } else if let Some(operands) = strip_prefix(line, "connections ") {
        Some((Directive::Connections, operands))
    } else if let Some(operands) = strip_prefix(line, "render_nand_gate ") {
        Some((Directive::RenderNandGate, operands))
    } else if let Some(operands) = strip_prefix(line, "render_custom_gate ") {
        Some((Directive::RenderCustomGate, operands))
    } else {
        None
    }
}

/// The models of the circuits and layouts of a result.
pub open spec fn pairs(list: Seq<(LogicGateMap, Option<MapRenderSavedState>)>) -> Seq<
    (CircuitModel, Option<LayoutModel>),
> {
    Seq::new(
        list.len(),
        |i: int|
            (
                list[i].0@,
                match list[i].1 {
                    Some(layout) => Some(layout@),
                    None => None,
                },
            ),
    )
}

/// Every circuit and every layout of a result is well formed.
pub open spec fn well_formed(list: Seq<(LogicGateMap, Option<MapRenderSavedState>)>) -> bool {
    forall|i: int|
        0 <= i < list.len() ==> (#[trigger] list[i]).0.wf() && (list[i].1 is Some
            ==> list[i].1->0.wf())
}

/// The model of what `parse_text` returns.
pub open spec fn outcome(
    result: Result<Vec<(LogicGateMap, Option<MapRenderSavedState>)>, LogicGateMapParseError>,
) -> Result<Seq<(CircuitModel, Option<LayoutModel>)>, ParseError> {
    match result {
        Ok(list) => Ok(pairs(list@)),
        Err(error) => Err(error@),
    }
}

/// Reads a document. The result lists the circuits of the document in the
/// order of their `define_gate` lines, each with its layout if every gate of
/// the circuit has a position in it.
///
/// A circuit takes at most four identifiers for each character of the
/// document, so four times the length of the document has to fit the
/// machine word.
pub fn parse_text(value: &str) -> (result: Result<
    Vec<(LogicGateMap, Option<MapRenderSavedState>)>,
    LogicGateMapParseError,
>)
    requires
        4 * value@.len() <= usize::MAX,
    ensures
        outcome(result) == parse(value@),
        result is Ok ==> well_formed(result->Ok_0@),
{
    let text = chars_of(value);
    let all = split_lines(&text);
    if all.len() == 0 {
        return Err(LogicGateMapParseError::MissingVersionLine);
    }
    assert(lines(value@)[0] == all@[0]@);
    let version = match strip_prefix(&all[0], "version ") {
        Some(rest) => parse_number(&rest),
        None => None,
    };
    match version {
        Some(0) => {},
        _ => {
            return Err(LogicGateMapParseError::InvalidVersionLine(text_of(&all[0])));
        },
    }
    parse_version_0(&all)
}

/// Reads the lines that follow the version line, which stands first in
/// `all`, as version 0 of the format asks.
fn parse_version_0(all: &Vec<Vec<char>>) -> (result: Result<
    Vec<(LogicGateMap, Option<MapRenderSavedState>)>,
    LogicGateMapParseError,
>)
    requires
        all.len() >= 1,
        4 * total(texts(all@)) <= usize::MAX,
    ensures
        outcome(result) == version_0(texts(all@).skip(1)),
        result is Ok ==> well_formed(result->Ok_0@),
{
    let ghost rest = texts(all@).skip(1);
    let mut reader = Reader::new();
    let mut i: usize = 1;
    proof {
        assert(texts(all@).take(1).drop_last() =~= Seq::<Seq<char>>::empty());
    }
    while i < all.len()
        invariant
            1 <= i <= all.len(),
            rest == texts(all@).skip(1),
            4 * total(texts(all@)) <= usize::MAX,
            ParseState::initial().run_lines(rest, (i - 1) as nat) == Ok::<ParseState, ParseError>(
                reader@,
            ),
            reader.wf(),
            reader.within(total(texts(all@).take(i as int)) as int),
        decreases all.len() - i,
    {
        proof {
            lemma_total_take(texts(all@), i as int);
            assert(rest[i - 1] == all@[i as int]@);
        }
        match reader.run_line(
            i - 1,
            &all[i],
            Ghost(total(texts(all@).take(i as int)) as int),
        ) {
            Ok(_) => {},
            Err(error) => {
                proof {
                    assert(rest.len() == all.len() - 1);
                    assert(ParseState::initial().run_lines(rest, i as nat) == Err::<
                        ParseState,
                        ParseError,
                    >(error@));
                    lemma_lines_fail(ParseState::initial(), rest, i as nat);
                }
                return Err(error);
            },
        }
        i += 1;
    }
    Ok(reader.results())
}

/// The total of the first `count + 1` texts is the total of the first
/// `count` plus the next, and no total of a beginning exceeds the total of
/// all.
proof fn lemma_total_take(parts: Seq<Seq<char>>, count: int)
    requires
        0 <= count < parts.len(),
    ensures
        total(parts.take(count + 1)) == total(parts.take(count)) + parts[count].len(),
        total(parts.take(count + 1)) <= total(parts),
    decreases parts.len() - count,
{
    assert(parts.take(count + 1).drop_last() =~= parts.take(count));
    if count + 1 < parts.len() {
        lemma_total_take(parts, count + 1);
    } else {
        assert(parts.take(count + 1) =~= parts);
    }
}

} // verus!
