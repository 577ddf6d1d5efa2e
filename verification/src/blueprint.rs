//! The ROM of combinators that holds a program, as a blueprint, and the string
//! under which a blueprint is exchanged.

use std::io::Write;
use base64::Engine;
use deflate::write::ZlibEncoder;
use deflate::Compression;
use vstd::prelude::*;
use vstd::string::{StringExecFns, StringSliceAdditionalSpecFns};
use crate::assembly::Instruction;

verus! {

/// A blueprint as it is written to JSON.
#[derive(Debug)]
pub struct SerializedBlueprint {
    pub blueprint: Blueprint,
}

/// A set of entities that can be placed together.
#[derive(Debug)]
pub struct Blueprint {
    pub item: String,
    pub label: String,
    pub entities: Vec<Entity>,
    pub version: u32,
}

/// A combinator in a blueprint.
#[derive(Debug)]
pub struct Entity {
    pub entity_number: u32,
    pub name: String,
    pub position: Position,
    pub direction: u32,
    pub connections: Option<Connection>,
    pub control_behavior: Option<ControlBehaviour>,
}

/// The wires at the two connection points of an entity: `a` is the first (the
/// input of a decider), `b` the second (its output).
#[derive(Debug)]
pub struct Connection {
    pub a: Option<ConnectionPoint>,
    pub b: Option<ConnectionPoint>,
}

/// What a combinator computes.
#[derive(Debug)]
pub struct ControlBehaviour {
    pub decider_conditions: Option<DeciderCombinatorParameters>,
    pub filters: Option<Vec<ConstantCombinatorParameter>>,
}

/// The red and green wires at one connection point.
#[derive(Debug)]
pub struct ConnectionPoint {
    pub red: Vec<ConnectionData>,
    pub green: Vec<ConnectionData>,
}

/// The other end of a wire.
#[derive(Copy, Clone, Debug, PartialEq, Eq, Structural)]
pub struct ConnectionData {
    pub entity_id: u32,
    pub circuit_id: u32,
}

/// The place of an entity on the grid of tiles.
#[derive(Copy, Clone, Debug, PartialEq, Eq, Structural)]
pub struct Position {
    pub x: i64,
    pub y: i64,
}

/// The condition and the output of a decider combinator.
#[derive(Debug)]
pub struct DeciderCombinatorParameters {
    pub comparator: char,
    pub first_signal: Option<SignalId>,
    pub second_signal: Option<SignalId>,
    pub constant: Option<i32>,
    pub output_signal: Option<SignalId>,
    pub copy_count_from_input: bool,
}

/// One signal that a constant combinator puts out.
#[derive(Debug)]
pub struct ConstantCombinatorParameter {
    pub signal: SignalId,
    pub count: i32,
    pub index: u32,
}

/// The name of a signal on a circuit wire.
#[derive(Debug)]
pub struct SignalId {
    pub signal_type: String,
    pub name: String,
}

/// A signal's type and name as characters.
pub struct SignalIdView {
    pub signal_type: Seq<char>,
    pub name: Seq<char>,
}

/// A constant combinator's signal with its name as characters.
pub struct ConstantCombinatorParameterView {
    pub signal: SignalIdView,
    pub count: i32,
    pub index: u32,
}

/// A decider's parameters with the names of the signals as characters.
pub struct DeciderCombinatorParametersView {
    pub comparator: char,
    pub first_signal: Option<SignalIdView>,
    pub second_signal: Option<SignalIdView>,
    pub constant: Option<i32>,
    pub output_signal: Option<SignalIdView>,
    pub copy_count_from_input: bool,
}

/// A connection point with its wires as sequences.
pub struct ConnectionPointView {
    pub red: Seq<ConnectionData>,
    pub green: Seq<ConnectionData>,
}

/// The connections of an entity with the wires as sequences.
pub struct ConnectionView {
    pub a: Option<ConnectionPointView>,
    pub b: Option<ConnectionPointView>,
}

/// What a combinator computes, with names as characters and filters as a sequence.
pub struct ControlBehaviourView {
    pub decider_conditions: Option<DeciderCombinatorParametersView>,
    pub filters: Option<Seq<ConstantCombinatorParameterView>>,
}

/// An entity with its name as characters.
pub struct EntityView {
    pub entity_number: u32,
    pub name: Seq<char>,
    pub position: Position,
    pub direction: u32,
    pub connections: Option<ConnectionView>,
    pub control_behavior: Option<ControlBehaviourView>,
}

/// A blueprint with names as characters and the entities as a sequence.
pub struct BlueprintView {
    pub item: Seq<char>,
    pub label: Seq<char>,
    pub entities: Seq<EntityView>,
    pub version: u32,
}

/// The view of a signal that may be absent.
pub open spec fn signal_view(signal: Option<SignalId>) -> Option<SignalIdView> {
    match signal {
        Some(id) => Some(id@),
        None => None,
    }
}

impl View for SignalId {
    type V = SignalIdView;

    open spec fn view(&self) -> SignalIdView {
        SignalIdView { signal_type: self.signal_type@, name: self.name@ }
    }
}

impl Clone for SignalId {
    fn clone(&self) -> (res: Self)
        ensures
            res@ == self@,
    {
        SignalId { signal_type: self.signal_type.clone(), name: self.name.clone() }
    }
}

impl View for ConstantCombinatorParameter {
    type V = ConstantCombinatorParameterView;

    open spec fn view(&self) -> ConstantCombinatorParameterView {
        ConstantCombinatorParameterView {
            signal: self.signal@,
            count: self.count,
            index: self.index,
        }
    }
}

impl View for DeciderCombinatorParameters {
    type V = DeciderCombinatorParametersView;

    open spec fn view(&self) -> DeciderCombinatorParametersView {
        DeciderCombinatorParametersView {
            comparator: self.comparator,
            first_signal: signal_view(self.first_signal),
            second_signal: signal_view(self.second_signal),
            constant: self.constant,
            output_signal: signal_view(self.output_signal),
            copy_count_from_input: self.copy_count_from_input,
        }
    }
}

impl View for ConnectionPoint {
    type V = ConnectionPointView;

    open spec fn view(&self) -> ConnectionPointView {
        ConnectionPointView { red: self.red@, green: self.green@ }
    }
}

/// The view of a connection point that may be absent.
pub open spec fn point_view(point: Option<ConnectionPoint>) -> Option<ConnectionPointView> {
    match point {
        Some(p) => Some(p@),
        None => None,
    }
}

impl View for Connection {
    type V = ConnectionView;

    open spec fn view(&self) -> ConnectionView {
        ConnectionView { a: point_view(self.a), b: point_view(self.b) }
    }
}

impl View for ControlBehaviour {
    type V = ControlBehaviourView;

    open spec fn view(&self) -> ControlBehaviourView {
        ControlBehaviourView {
            decider_conditions: match self.decider_conditions {
                Some(d) => Some(d@),
                None => None,
            },
            filters: match self.filters {
                Some(f) => Some(f@.map_values(|p: ConstantCombinatorParameter| p@)),
                None => None,
            },
        }
    }
}

impl View for Entity {
    type V = EntityView;

    open spec fn view(&self) -> EntityView {
        EntityView {
            entity_number: self.entity_number,
            name: self.name@,
            position: self.position,
            direction: self.direction,
            connections: match self.connections {
                Some(c) => Some(c@),
                None => None,
            },
            control_behavior: match self.control_behavior {
                Some(c) => Some(c@),
                None => None,
            },
        }
    }
}

/// The views of a sequence of entities, in order.
pub open spec fn entities_view(entities: Seq<Entity>) -> Seq<EntityView> {
    entities.map_values(|e: Entity| e@)
}

impl View for Blueprint {
    type V = BlueprintView;

    open spec fn view(&self) -> BlueprintView {
        BlueprintView {
            item: self.item@,
            label: self.label@,
            entities: entities_view(self.entities@),
            version: self.version,
        }
    }
}

/// The virtual signal called `name`.
pub open spec fn virtual_signal(name: Seq<char>) -> SignalIdView {
    SignalIdView { signal_type: "virtual"@, name }
}

/// One red wire to the connection point `circuit_id` of the entity `entity_id`.
pub open spec fn red_wire(entity_id: u32, circuit_id: u32) -> ConnectionPointView {
    ConnectionPointView { red: seq![ConnectionData { entity_id, circuit_id }], green: seq![] }
}

/// One green wire to the connection point `circuit_id` of the entity `entity_id`.
pub open spec fn green_wire(entity_id: u32, circuit_id: u32) -> ConnectionPointView {
    ConnectionPointView { red: seq![], green: seq![ConnectionData { entity_id, circuit_id }] }
}

/// The decider of the instruction at `idx`: it lets the signals of its constant
/// combinator through while the program address is `idx + 1`. Its input and its
/// output are wired in red to those of the decider before it.
pub open spec fn rom_decider(idx: int) -> EntityView {
    EntityView {
        entity_number: (2 * idx + 1) as u32,
        name: "decider-combinator"@,
        position: Position { x: 0i64, y: (-idx) as i64 },
        direction: 2,
        connections: if idx == 0 {
            None
        } else {
            Some(
                ConnectionView {
                    a: Some(red_wire((2 * idx - 1) as u32, 1)),
                    b: Some(red_wire((2 * idx - 1) as u32, 2)),
                },
            )
        },
        control_behavior: Some(
            ControlBehaviourView {
                decider_conditions: Some(
                    DeciderCombinatorParametersView {
                        comparator: '=',
                        first_signal: Some(virtual_signal("signal-P"@)),
                        second_signal: None,
                        constant: Some((idx + 1) as i32),
                        output_signal: Some(virtual_signal("signal-everything"@)),
                        copy_count_from_input: true,
                    },
                ),
                filters: None,
            },
        ),
    }
}

/// The signals that stand for an instruction: its opcode and, if there is one,
/// its argument.
pub open spec fn rom_filters(instruction: Instruction) -> Seq<ConstantCombinatorParameterView> {
    let opcode = ConstantCombinatorParameterView {
        signal: virtual_signal("signal-O"@),
        count: instruction.opcode() as i32,
        index: 1,
    };
    match instruction.argument_signal() {
        Some((signal, count)) => seq![
            opcode,
            ConstantCombinatorParameterView { signal, count, index: 2 },
        ],
        None => seq![opcode],
    }
}

/// The constant combinator of the instruction at `idx`, wired in green to the
/// input of its decider.
pub open spec fn rom_constant(idx: int, instruction: Instruction) -> EntityView {
    EntityView {
        entity_number: (2 * idx + 2) as u32,
        name: "constant-combinator"@,
        position: Position { x: -2i64, y: (-idx) as i64 },
        direction: 1,
        connections: Some(
            ConnectionView { a: Some(green_wire((2 * idx + 1) as u32, 1)), b: None },
        ),
        control_behavior: Some(
            ControlBehaviourView {
                decider_conditions: None,
                filters: Some(rom_filters(instruction)),
            },
        ),
    }
}

/// The entities of the ROM of a program: for each instruction a decider and a
/// constant combinator, one row per instruction. The numbers of the entities and
/// the addresses of the instructions are kept in 32 bits.
pub open spec fn rom_entities(instructions: Seq<Instruction>) -> Seq<EntityView> {
    Seq::new(
        2 * instructions.len(),
        |k: int|
            if k % 2 == 0 {
                rom_decider(k / 2)
            } else {
                rom_constant(k / 2, instructions[k / 2])
            },
    )
}

/// The blueprint of the ROM of a program.
pub open spec fn rom_blueprint(instructions: Seq<Instruction>) -> BlueprintView {
    BlueprintView {
        item: "blueprint"@,
        label: "Program"@,
        entities: rom_entities(instructions),
        version: 0,
    }
}

fn virtual_signal_id(name: &str) -> (id: SignalId)
    ensures
        id@ == virtual_signal(name@),
{
    SignalId { signal_type: "virtual".to_owned(), name: name.to_owned() }
}

fn one_wire(entity_id: u32, circuit_id: u32) -> (wires: Vec<ConnectionData>)
    ensures
        wires@ == seq![ConnectionData { entity_id, circuit_id }],
{
    let mut wires: Vec<ConnectionData> = Vec::new();
    wires.push(ConnectionData { entity_id, circuit_id });
    assert(wires@ =~= seq![ConnectionData { entity_id, circuit_id }]);
    wires
}

fn rom_decider_entity(idx: usize) -> (entity: Entity)
    ensures
        entity@ == rom_decider(idx as int),
{
    let place = idx as u128;
    Entity {
        entity_number: #[verifier::truncate]
        ((2 * place + 1) as u32),
        name: "decider-combinator".to_owned(),
        position: Position { x: 0, y: #[verifier::truncate]
        ((-(idx as i128)) as i64) },
        direction: 2,
        connections: if idx == 0 {
            None
        } else {
            let previous = #[verifier::truncate]
            ((2 * place - 1) as u32);
            Some(
                Connection {
                    b: Some(ConnectionPoint { red: one_wire(previous, 2), green: Vec::new() }),
                    a: Some(ConnectionPoint { red: one_wire(previous, 1), green: Vec::new() }),
                },
            )
        },
        control_behavior: Some(
            ControlBehaviour {
                decider_conditions: Some(
                    DeciderCombinatorParameters {
                        comparator: '=',
                        first_signal: Some(virtual_signal_id("signal-P")),
                        second_signal: None,
                        // The first instruction has the address 1.
                        constant: Some(#[verifier::truncate]
                        ((place + 1) as i32)),
                        output_signal: Some(virtual_signal_id("signal-everything")),
                        copy_count_from_input: true,
                    },
                ),
                filters: None,
            },
        ),
    }
}

fn rom_constant_entity(idx: usize, instruction: &Instruction) -> (entity: Entity)
    ensures
        entity@ == rom_constant(idx as int, *instruction),
{
    let mut filters: Vec<ConstantCombinatorParameter> = Vec::new();
    let opcode = ConstantCombinatorParameter {
        signal: virtual_signal_id("signal-O"),
        count: instruction.get_opcode(),
        index: 1,
    };
    filters.push(opcode);

    match instruction.get_argument_signal() {
        Some((signal, count)) => {
            let argument = ConstantCombinatorParameter { signal, count, index: 2 };
            filters.push(argument);
            assert(filters@.map_values(|p: ConstantCombinatorParameter| p@) =~= seq![
                opcode@,
                argument@,
            ]);
        },
        None => {
            assert(filters@.map_values(|p: ConstantCombinatorParameter| p@) =~= seq![opcode@]);
        },
    }

    let place = idx as u128;
    Entity {
        entity_number: #[verifier::truncate]
        ((2 * place + 2) as u32),
        name: "constant-combinator".to_owned(),
        position: Position { x: -2, y: #[verifier::truncate]
        ((-(idx as i128)) as i64) },
        direction: 1,
        connections: Some(
            Connection {
                b: None,
                a: Some(
                    ConnectionPoint {
                        green: one_wire(#[verifier::truncate]
                        ((2 * place + 1) as u32), 1),
                        red: Vec::new(),
                    },
                ),
            },
        ),
        control_behavior: Some(
            ControlBehaviour { decider_conditions: None, filters: Some(filters) },
        ),
    }
}

/// Generates a blueprint containing a program ROM with the given instructions.
pub fn generate_rom_blueprint(instructions: &[Instruction]) -> (blueprint: Blueprint)
    ensures
        blueprint@ == rom_blueprint(instructions@),
{
    let mut entities: Vec<Entity> = Vec::new();
    let ghost expected = rom_entities(instructions@);
    let mut idx: usize = 0;
    while idx < instructions.len()
        invariant
            idx <= instructions@.len(),
            expected == rom_entities(instructions@),
            entities_view(entities@) == expected.take(2 * idx as int),
        decreases instructions@.len() - idx,
    {
        let decider = rom_decider_entity(idx);
        let constant = rom_constant_entity(idx, &instructions[idx]);
        proof {
            let k = 2 * idx as int;
            assert(k % 2 == 0 && k / 2 == idx);
            assert((k + 1) % 2 == 1 && (k + 1) / 2 == idx);
            assert(expected[k] == decider@);
            assert(expected[k + 1] == constant@);
            assert(entities_view(entities@.push(decider).push(constant)) =~= entities_view(
                entities@,
            ).push(decider@).push(constant@));
            assert(expected.take(k + 2) =~= expected.take(k).push(expected[k]).push(
                expected[k + 1],
            ));
        }
        entities.push(decider);
        entities.push(constant);
        idx += 1;
    }
    assert(expected.take(2 * idx as int) =~= expected);

    Blueprint {
        item: "blueprint".to_owned(),
        label: "Program".to_owned(),
        entities,
        version: 0,
    }
}

/// What the zlib encoder of the crate `deflate` makes of `input` at the best
/// level of compression.
pub uninterp spec fn zlib_compressed(input: Seq<u8>) -> Seq<u8>;

/// The character that stands for six bits in the standard alphabet of base64.
pub open spec fn base64_char(sextet: int) -> char {
    if sextet < 26 {
        ('A' as int + sextet) as char
    } else if sextet < 52 {
        ('a' as int + sextet - 26) as char
    } else if sextet < 62 {
        ('0' as int + sextet - 52) as char
    } else if sextet == 62 {
        '+'
    } else {
        '/'
    }
}

/// The bytes in base64 with the standard alphabet and without padding: each
/// three bytes make four characters, one last byte two, two last bytes three.
pub open spec fn base64_no_pad(bytes: Seq<u8>) -> Seq<char>
    decreases bytes.len(),
{
    if bytes.len() == 0 {
        seq![]
    } else if bytes.len() == 1 {
        seq![base64_char(bytes[0] as int / 4), base64_char((bytes[0] as int % 4) * 16)]
    } else if bytes.len() == 2 {
        seq![
            base64_char(bytes[0] as int / 4),
            base64_char((bytes[0] as int % 4) * 16 + bytes[1] as int / 16),
            base64_char((bytes[1] as int % 16) * 4),
        ]
    } else {
        seq![
            base64_char(bytes[0] as int / 4),
            base64_char((bytes[0] as int % 4) * 16 + bytes[1] as int / 16),
            base64_char((bytes[1] as int % 16) * 4 + bytes[2] as int / 64),
            base64_char(bytes[2] as int % 64),
        ] + base64_no_pad(bytes.subrange(3, bytes.len() as int))
    }
}

/// The number of characters that `count` bytes make in base64 without padding.
pub open spec fn base64_length(count: nat) -> nat {
    (count / 3) * 4 + if count % 3 == 0 {
        0nat
    } else {
        count % 3 + 1
    }
}

/// `ZlibEncoder` of the crate `deflate`, with `Compression::Best`, fed with the
/// whole input and finished: the compressed bytes depend on the input alone.
#[verifier::external_body]
fn compress_zlib(input: &[u8]) -> (output: Vec<u8>)
    ensures
        output@ == zlib_compressed(input@),
{
    let mut encoder = ZlibEncoder::new(Vec::new(), Compression::Best);
    encoder.write_all(input).unwrap();
    encoder.finish().unwrap()
}

/// `Engine::encode` of the crate `base64` on the engine `STANDARD_NO_PAD`: the
/// input in base64 with the standard alphabet and no padding. The crate panics
/// where the length of the result does not fit `usize`.
#[verifier::external_body]
fn encode_base64(input: &[u8]) -> (output: String)
    requires
        base64_length(input@.len()) <= usize::MAX,
    ensures
        output@ == base64_no_pad(input@),
{
    base64::engine::general_purpose::STANDARD_NO_PAD.encode(input)
}

/// The bytes in base64 with the standard alphabet and without padding, or `None`
/// where the text would be too long to have a length.
pub fn to_base64(bytes: &[u8]) -> (text: Option<String>)
    ensures
        match text {
            Some(encoded) => base64_length(bytes@.len()) <= usize::MAX && encoded@
                == base64_no_pad(bytes@),
            None => base64_length(bytes@.len()) > usize::MAX,
        },
{
    let length = bytes.len();
    let last = if length % 3 == 0 {
        0
    } else {
        length % 3 + 1
    };
    if length / 3 > (usize::MAX - last) / 4 {
        None
    } else {
        Some(encode_base64(bytes))
    }
}

/// The string under which a blueprint is exchanged: the version digit `0`, then
/// the base64 of the zlib-compressed JSON.
pub open spec fn blueprint_string(json: Seq<u8>) -> Seq<char> {
    seq!['0'] + base64_no_pad(zlib_compressed(json))
}

/// Whether the blueprint string of the JSON can be made: the compressed JSON
/// must be short enough for its base64 to have a length.
pub open spec fn can_encode(json: Seq<u8>) -> bool {
    base64_length(zlib_compressed(json).len()) <= usize::MAX
}

/// Makes the string under which the blueprint that `json` describes is
/// exchanged, or `None` where it would be too long to have a length.
pub fn encode_blueprint_string(json: &str) -> (encoded: Option<String>)
    ensures
        match encoded {
            Some(text) => can_encode(json.spec_bytes()) && text@ == blueprint_string(
                json.spec_bytes(),
            ),
            None => !can_encode(json.spec_bytes()),
        },
{
    let compressed_data = compress_zlib(json.as_bytes());
    let encoded = match to_base64(compressed_data.as_slice()) {
        Some(encoded) => encoded,
        None => {
            return None;
        },
    };
    let mut text = String::from_str("0");
    proof {
        reveal_strlit("0");
    }
    text.append(encoded.as_str());
    assert(text@ =~= blueprint_string(json.spec_bytes()));
    Some(text)
}

} // verus!
