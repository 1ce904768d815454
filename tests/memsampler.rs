use ocdscope::gdbremote::Response;
use ocdscope::memsampler::{
    classify_read_response, elf_symbol_signal, memory_word_bits, parse_hex_value, ReadOutcome, STT_OBJECT,
};

#[test]
fn hex_values() {
    assert_eq!(parse_hex_value(b"0000803f"), Some(0x0000803f));
    assert_eq!(parse_hex_value(b"FFFFFFFF"), Some(u32::MAX));
    assert_eq!(parse_hex_value(b"+1a"), Some(0x1a));
    assert_eq!(parse_hex_value(b"100000000"), None);
    assert_eq!(parse_hex_value(b""), None);
    assert_eq!(parse_hex_value(b"+"), None);
    assert_eq!(parse_hex_value(b"E01"), Some(0xe01));
    assert_eq!(parse_hex_value(b"x1"), None);
}

#[test]
fn memory_word_is_little_endian_float() {
    // GDB prints the bytes 00 00 80 3f of 1.0f32 in memory order
    let v = parse_hex_value(b"0000803f").unwrap();
    assert_eq!(f32::from_bits(memory_word_bits(v)), 1.0);
    assert_eq!(memory_word_bits(0x11223344), 0x44332211);
}

#[test]
fn read_responses() {
    assert_eq!(classify_read_response(&Response::Packet(b"O".to_vec())), ReadOutcome::KeepAlive);
    assert_eq!(
        classify_read_response(&Response::Packet(b"0000803f".to_vec())),
        ReadOutcome::Value(0x0000803f)
    );
    assert_eq!(classify_read_response(&Response::Packet(b"E01x".to_vec())), ReadOutcome::Unexpected);
    assert_eq!(classify_read_response(&Response::ACK), ReadOutcome::Unexpected);
}

#[test]
fn elf_symbols() {
    assert_eq!(
        elf_symbol_signal("counter", STT_OBJECT, 0x2000_0010, 4),
        Some((0x2000_0010, "counter (0x20000010)".to_string()))
    );
    assert_eq!(elf_symbol_signal("x", 5, 0x10, 4), Some((0x10, "x (0x00000010)".to_string())));
    assert_eq!(elf_symbol_signal("main", 2, 0x800, 4), None);
    assert_eq!(elf_symbol_signal("wide", STT_OBJECT, 0x10, 8), None);
    assert_eq!(elf_symbol_signal("far", STT_OBJECT, 0x1_0000_0000, 4), None);
}
