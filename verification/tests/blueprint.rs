use base64::Engine;
use circuit_compiler::assembly::Instruction;
use circuit_compiler::blueprint::{encode_blueprint_string, generate_rom_blueprint};

#[test]
fn rom_has_two_entities_for_each_instruction() {
    let program = [Instruction::JumpSubRoutine(3), Instruction::Jump(-1), Instruction::Return];
    let blueprint = generate_rom_blueprint(&program);
    assert_eq!(blueprint.item, "blueprint");
    assert_eq!(blueprint.label, "Program");
    assert_eq!(blueprint.version, 0);
    assert_eq!(blueprint.entities.len(), 6);

    let first = &blueprint.entities[0];
    assert_eq!(first.entity_number, 1);
    assert_eq!(first.name, "decider-combinator");
    assert_eq!((first.position.x, first.position.y), (0, 0));
    assert_eq!(first.direction, 2);
    assert!(first.connections.is_none());
    let decider = first.control_behavior.as_ref().unwrap().decider_conditions.as_ref().unwrap();
    assert_eq!(decider.comparator, '=');
    assert_eq!(decider.first_signal.as_ref().unwrap().name, "signal-P");
    assert_eq!(decider.first_signal.as_ref().unwrap().signal_type, "virtual");
    assert!(decider.second_signal.is_none());
    assert_eq!(decider.constant, Some(1));
    assert_eq!(decider.output_signal.as_ref().unwrap().name, "signal-everything");
    assert!(decider.copy_count_from_input);

    let second = &blueprint.entities[1];
    assert_eq!(second.entity_number, 2);
    assert_eq!(second.name, "constant-combinator");
    assert_eq!((second.position.x, second.position.y), (-2, 0));
    assert_eq!(second.direction, 1);
    let wires = second.connections.as_ref().unwrap();
    assert!(wires.b.is_none());
    let point = wires.a.as_ref().unwrap();
    assert!(point.red.is_empty());
    assert_eq!((point.green[0].entity_id, point.green[0].circuit_id), (1, 1));
    let filters = second.control_behavior.as_ref().unwrap().filters.as_ref().unwrap();
    assert_eq!(filters.len(), 2);
    assert_eq!((filters[0].signal.name.as_str(), filters[0].count, filters[0].index), ("signal-O", 26, 1));
    assert_eq!((filters[1].signal.name.as_str(), filters[1].count, filters[1].index), ("signal-A", 3, 2));

    let third = &blueprint.entities[2];
    assert_eq!(third.entity_number, 3);
    assert_eq!((third.position.x, third.position.y), (0, -1));
    let wires = third.connections.as_ref().unwrap();
    let input = wires.a.as_ref().unwrap();
    let output = wires.b.as_ref().unwrap();
    assert_eq!((input.red[0].entity_id, input.red[0].circuit_id), (1, 1));
    assert_eq!((output.red[0].entity_id, output.red[0].circuit_id), (1, 2));
    assert!(input.green.is_empty() && output.green.is_empty());
    let decider = third.control_behavior.as_ref().unwrap().decider_conditions.as_ref().unwrap();
    assert_eq!(decider.constant, Some(2));

    let last = &blueprint.entities[5];
    assert_eq!(last.entity_number, 6);
    assert_eq!((last.position.x, last.position.y), (-2, -2));
    let filters = last.control_behavior.as_ref().unwrap().filters.as_ref().unwrap();
    assert_eq!(filters.len(), 1);
    assert_eq!((filters[0].signal.name.as_str(), filters[0].count, filters[0].index), ("signal-O", 27, 1));
}

#[test]
fn constants_use_the_data_signal() {
    let blueprint = generate_rom_blueprint(&[Instruction::Constant(-7)]);
    let filters = blueprint.entities[1].control_behavior.as_ref().unwrap().filters.as_ref().unwrap();
    assert_eq!((filters[1].signal.name.as_str(), filters[1].count), ("signal-D", -7));
    assert_eq!(filters[1].signal.signal_type, "virtual");
}

#[test]
fn empty_program_has_an_empty_rom() {
    assert!(generate_rom_blueprint(&[]).entities.is_empty());
}

#[test]
fn blueprint_string_is_version_digit_and_base64_of_zlib() {
    let json = "{\"blueprint\": {\"item\": \"blueprint\"}}";
    let text = encode_blueprint_string(json).unwrap();
    assert!(text.starts_with('0'));
    assert!(!text.ends_with('='));
    let compressed = base64::engine::general_purpose::STANDARD_NO_PAD.decode(&text[1..]).unwrap();
    // A zlib stream: the header of deflate with a 32K window, the data, and the
    // Adler-32 checksum of the input at the end.
    assert_eq!(compressed[0], 0x78);
    let mut a: u32 = 1;
    let mut b: u32 = 0;
    for byte in json.bytes() {
        a = (a + byte as u32) % 65521;
        b = (b + a) % 65521;
    }
    let checksum = ((b << 16) | a).to_be_bytes();
    assert_eq!(&compressed[compressed.len() - 4..], &checksum);
    assert_ne!(text, json);
}
