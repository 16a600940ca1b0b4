use rlox::chunk::{Chunk, OpCode};

#[test]
fn opcode_bytes_round_trip() {
    let ops = [
        OpCode::LoadConstant,
        OpCode::Add,
        OpCode::Subtract,
        OpCode::Multiply,
        OpCode::Divide,
        OpCode::Negate,
        OpCode::Return,
    ];
    for op in ops {
        assert_eq!(OpCode::from_byte(op.as_byte()), Some(op));
    }
    assert_eq!(OpCode::from_byte(7), None);
    assert_eq!(OpCode::from_byte(255), None);
}

#[test]
fn new_chunk_is_empty() {
    let c = Chunk::new();
    assert_eq!(c.code.len(), 0);
    assert_eq!(c.constants.len(), 0);
    assert_eq!(c.constant_texts.len(), 0);
    assert_eq!(c.lines.len(), 0);
}

#[test]
fn push_constant_returns_positions_in_order() {
    let mut c = Chunk::new();
    let a = c.push_constant(1u64, String::from("1"));
    let b = c.push_constant(2u64, String::from("2"));
    assert_eq!(a, 0);
    assert_eq!(b, 1);
    assert_eq!(c.constants, vec![1u64, 2u64]);
    assert_eq!(c.constant_texts, vec![String::from("1"), String::from("2")]);
}

#[test]
fn push_line_merges_repeated_lines() {
    let mut c = Chunk::new();
    c.push_line(1);
    c.push_line(1);
    c.push_line(2);
    c.push_line(2);
    c.push_line(2);
    c.push_line(1);
    assert_eq!(c.lines, vec![(1, 2), (2, 3), (1, 1)]);
}

#[test]
fn get_line_walks_runs_and_ends() {
    let mut c = Chunk::new();
    c.push_line(1);
    c.push_line(1);
    c.push_line(3);
    assert_eq!(c.get_line(0), Some(1));
    assert_eq!(c.get_line(1), Some(1));
    assert_eq!(c.get_line(2), Some(3));
    assert_eq!(c.get_line(3), None);
    assert_eq!(c.get_line(1000), None);
}

#[test]
fn const_opcode_encoding_and_lookup() {
    let mut c = Chunk::new();
    let v = 4.2f64.to_bits();
    c.push_const_opcode(v, String::from("4.2"), 1);
    // One tag byte and four little-endian operand bytes.
    assert_eq!(c.code, vec![0u8, 0, 0, 0, 0]);
    assert_eq!(c.get_constant(1), Some((0, v)));
    // An operand cut short by the stream's end resolves to nothing.
    assert_eq!(c.get_constant(2), None);
    // Every operand byte records the instruction's line.
    assert_eq!(c.get_line(0), Some(1));
    assert_eq!(c.get_line(4), Some(1));
    assert_eq!(c.get_line(5), None);
}

#[test]
fn operand_bytes_are_little_endian() {
    let mut c = Chunk::new();
    for i in 0..300 {
        c.push_constant(i as u64, format!("{}", i));
    }
    c.push_const_opcode(300, String::from("300"), 1);
    // Position 300 is 0x012c.
    assert_eq!(c.code, vec![0u8, 0x2c, 0x01, 0, 0]);
    assert_eq!(c.get_constant(1), Some((300, 300u64)));
}

#[test]
fn get_constant_refuses_index_past_pool() {
    let mut c = Chunk::new();
    c.push_opcode(OpCode::LoadConstant, 1);
    c.code.extend_from_slice(&[9, 0, 0, 0]);
    assert_eq!(c.get_constant(1), None);
}

#[test]
fn disassemble_single_constant_and_return() {
    let mut c = Chunk::new();
    c.push_const_opcode(4.2f64.to_bits(), format!("{}", 4.2f64), 1);
    c.push_opcode(OpCode::Return, 1);
    let line0 = c.disassemble_instruction(0).expect("load renders");
    let line5 = c.disassemble_instruction(5).expect("return renders");
    assert_eq!(line0, "0000    1 LoadConstant 0: 4.2\n");
    assert_eq!(line5, "0005    1 Return\n");
    // The dump shows exactly the two instruction lines.
    let dump = c.disassemble();
    assert_eq!(dump, "0000    1 LoadConstant 0: 4.2\n0005    1 Return\n");
    assert_eq!(dump.lines().count(), 2);
    // Past the stream's end nothing renders.
    assert_eq!(c.disassemble_instruction(6), None);
}

#[test]
fn disassemble_every_mnemonic() {
    let mut c = Chunk::new();
    c.push_opcode(OpCode::Add, 2);
    c.push_opcode(OpCode::Subtract, 2);
    c.push_opcode(OpCode::Multiply, 2);
    c.push_opcode(OpCode::Divide, 2);
    c.push_opcode(OpCode::Negate, 2);
    c.push_opcode(OpCode::Return, 2);
    assert_eq!(
        c.disassemble(),
        "0000    2 Add\n0001    2 Subtract\n0002    2 Multiply\n0003    2 Divide\n0004    2 Negate\n0005    2 Return\n"
    );
}

#[test]
fn disassemble_pads_wide_indices_and_lines() {
    let mut c = Chunk::new();
    for _ in 0..1200 {
        c.push_opcode(OpCode::Add, 34);
    }
    assert_eq!(
        c.disassemble_instruction(7).expect("renders"),
        "0007   34 Add\n"
    );
    assert_eq!(
        c.disassemble_instruction(1100).expect("renders"),
        "1100   34 Add\n"
    );
}

#[test]
fn disassemble_refuses_invalid_opcode_byte() {
    let mut c = Chunk::new();
    c.code.push(200);
    c.push_line(1);
    assert_eq!(c.disassemble_instruction(0), None);
    assert_eq!(c.disassemble(), "");
}
