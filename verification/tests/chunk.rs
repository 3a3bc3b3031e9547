use rlox::chunk::{operand_count, Chunk, Instruction, OpCode, OPCODE_COUNT};
use rlox::value::Value;

const ALL: [OpCode; 37] = [
    OpCode::Constant,
    OpCode::Nil,
    OpCode::True,
    OpCode::False,
    OpCode::Pop,
    OpCode::GetLocal,
    OpCode::SetLocal,
    OpCode::GetGlobal,
    OpCode::DefineGlobal,
    OpCode::SetGlobal,
    OpCode::GetUpValue,
    OpCode::SetUpValue,
    OpCode::SetProperty,
    OpCode::GetProperty,
    OpCode::GetSuper,
    OpCode::Equal,
    OpCode::Greater,
    OpCode::Less,
    OpCode::Add,
    OpCode::Subtract,
    OpCode::Multiply,
    OpCode::Divide,
    OpCode::Not,
    OpCode::Negate,
    OpCode::Print,
    OpCode::Jump,
    OpCode::JumpIfFalse,
    OpCode::Loop,
    OpCode::Call,
    OpCode::Invoke,
    OpCode::SuperInvoke,
    OpCode::Closure,
    OpCode::CloseUpvalue,
    OpCode::Return,
    OpCode::Class,
    OpCode::Inherit,
    OpCode::Method,
];

#[test]
fn opcodes_are_numbered_in_order() {
    assert_eq!(ALL.len(), OPCODE_COUNT as usize);
    for (i, op) in ALL.iter().enumerate() {
        assert_eq!(u8::from(*op) as usize, i);
    }
}

#[test]
fn opcode_byte_round_trip() {
    for op in ALL {
        assert_eq!(OpCode::from(u8::from(op)), op);
    }
    for b in 0..OPCODE_COUNT {
        assert_eq!(u8::from(OpCode::from(b)), b);
    }
}

#[test]
fn write_chunk_records_byte_and_line() {
    let mut chunk = Chunk::default();
    chunk.write_chunk(u8::from(OpCode::Nil), 3);
    chunk.write_chunk(u8::from(OpCode::Return), 4);
    assert_eq!(chunk.codes, vec![1, 33]);
    assert_eq!(chunk.lines, vec![3, 4]);
    assert!(chunk.constants.is_empty());
}

#[test]
fn add_constant_returns_indices_in_order() {
    let mut chunk = Chunk::default();
    assert_eq!(chunk.add_constant(Value::nil()), 0);
    assert_eq!(chunk.add_constant(Value::from_bool(true)), 1);
    assert_eq!(chunk.add_constant(Value::from_obj(9)), 2);
    assert_eq!(chunk.constants.len(), 3);
    assert_eq!(chunk.constants[2].as_obj(), 9);
    assert!(chunk.codes.is_empty());
}

#[test]
fn a_chunk_holds_256_constants() {
    let mut chunk = Chunk::default();
    for i in 0..256u64 {
        assert_eq!(chunk.add_constant(Value::from_obj(i)) as u64, i);
    }
    assert_eq!(chunk.constants.len(), 256);
}

fn chunk_of(codes: Vec<u8>) -> Chunk {
    let mut chunk = Chunk::default();
    for (i, b) in codes.into_iter().enumerate() {
        chunk.write_chunk(b, i + 1);
    }
    chunk
}

#[test]
fn decode_reads_operands() {
    let chunk = chunk_of(vec![
        u8::from(OpCode::Constant), 7,
        u8::from(OpCode::Add),
        u8::from(OpCode::GetLocal), 2,
        u8::from(OpCode::JumpIfFalse), 0x01, 0x02,
        u8::from(OpCode::Loop), 0, 9,
        u8::from(OpCode::Invoke), 3, 4,
        u8::from(OpCode::Closure), 5, 1, 2, 0, 6,
    ]);
    assert_eq!(chunk.decode(0), (Instruction::Constant(OpCode::Constant, 7), 2));
    assert_eq!(chunk.decode(2), (Instruction::Simple(OpCode::Add), 3));
    assert_eq!(chunk.decode(3), (Instruction::Byte(OpCode::GetLocal, 2), 5));
    assert_eq!(chunk.decode(5), (Instruction::Jump(OpCode::JumpIfFalse, 0x0102), 8));
    assert_eq!(chunk.decode(8), (Instruction::Jump(OpCode::Loop, 9), 11));
    assert_eq!(chunk.decode(11), (Instruction::Invoke(OpCode::Invoke, 3, 4), 14));
    assert_eq!(chunk.decode(14), (Instruction::Closure(5), 16));
    assert_eq!(chunk.upvalue_operands(14, 2), vec![(true, 2), (false, 6)]);
    assert_eq!(chunk.upvalue_operands(14, 0), vec![]);
}

#[test]
fn operand_counts() {
    assert_eq!(operand_count(OpCode::Return), 0);
    assert_eq!(operand_count(OpCode::Constant), 1);
    assert_eq!(operand_count(OpCode::Call), 1);
    assert_eq!(operand_count(OpCode::Jump), 2);
    assert_eq!(operand_count(OpCode::SuperInvoke), 2);
    assert_eq!(operand_count(OpCode::Closure), 1);
}

#[test]
fn jump_distances_read_back() {
    for d in [0usize, 1, 255, 256, 4660, 65535] {
        let chunk = chunk_of(vec![u8::from(OpCode::Jump), (d >> 8) as u8, d as u8]);
        assert_eq!(chunk.decode(0), (Instruction::Jump(OpCode::Jump, d as u16), 3));
    }
}

#[test]
fn instruction_end_counts_closure_pairs() {
    let mut chunk = Chunk::default();
    for b in [u8::from(OpCode::Closure), 0, 1, 2, 0, 3, u8::from(OpCode::Pop), u8::from(OpCode::Jump), 0, 1] {
        chunk.write_chunk(b, 1);
    }
    assert_eq!(chunk.instruction_end(0, 2), 6);
    assert_eq!(chunk.instruction_end(0, 0), 2);
    assert_eq!(chunk.instruction_end(6, 5), 7);
    assert_eq!(chunk.instruction_end(7, 5), 10);
}
