//! Bytecode: the instruction set and the chunks that hold compiled code.
use crate::value::Value;
use vstd::prelude::*;

verus! {

/// The instructions of the virtual machine. Each is encoded as one byte,
/// its position in this list.
#[derive(Debug, Clone, Copy, PartialEq, Eq, Structural)]
pub enum OpCode {
    Constant,
    Nil,
    True,
    False,
    Pop,
    GetLocal,
    SetLocal,
    GetGlobal,
    DefineGlobal,
    SetGlobal,
    GetUpValue,
    SetUpValue,
    SetProperty,
    GetProperty,
    GetSuper,
    Equal,
    Greater,
    Less,
    Add,
    Subtract,
    Multiply,
    Divide,
    Not,
    Negate,
    Print,
    Jump,
    JumpIfFalse,
    Loop,
    Call,
    Invoke,
    SuperInvoke,
    Closure,
    CloseUpvalue,
    Return,
    Class,
    Inherit,
    Method,
}

/// The number of instructions; every byte below it encodes one.
pub const OPCODE_COUNT: u8 = 37;

/// The byte that encodes `op`.
pub open spec fn opcode_byte(op: OpCode) -> u8 {
    match op {
        OpCode::Constant => 0u8,
        OpCode::Nil => 1u8,
        OpCode::True => 2u8,
        OpCode::False => 3u8,
        OpCode::Pop => 4u8,
        OpCode::GetLocal => 5u8,
        OpCode::SetLocal => 6u8,
        OpCode::GetGlobal => 7u8,
        OpCode::DefineGlobal => 8u8,
        OpCode::SetGlobal => 9u8,
        OpCode::GetUpValue => 10u8,
        OpCode::SetUpValue => 11u8,
        OpCode::SetProperty => 12u8,
        OpCode::GetProperty => 13u8,
        OpCode::GetSuper => 14u8,
        OpCode::Equal => 15u8,
        OpCode::Greater => 16u8,
        OpCode::Less => 17u8,
        OpCode::Add => 18u8,
        OpCode::Subtract => 19u8,
        OpCode::Multiply => 20u8,
        OpCode::Divide => 21u8,
        OpCode::Not => 22u8,
        OpCode::Negate => 23u8,
        OpCode::Print => 24u8,
        OpCode::Jump => 25u8,
        OpCode::JumpIfFalse => 26u8,
        OpCode::Loop => 27u8,
        OpCode::Call => 28u8,
        OpCode::Invoke => 29u8,
        OpCode::SuperInvoke => 30u8,
        OpCode::Closure => 31u8,
        OpCode::CloseUpvalue => 32u8,
        OpCode::Return => 33u8,
        OpCode::Class => 34u8,
        OpCode::Inherit => 35u8,
        OpCode::Method => 36u8,
    }
}

/// The instruction that byte `b` encodes. Bytes from [`OPCODE_COUNT`] up
/// encode no instruction; they decode to `Return`.
pub open spec fn byte_opcode(b: u8) -> OpCode {
    if b == 0u8 {
        OpCode::Constant
    } else if b == 1u8 {
        OpCode::Nil
    } else if b == 2u8 {
        OpCode::True
    } else if b == 3u8 {
        OpCode::False
    } else if b == 4u8 {
        OpCode::Pop
    } else if b == 5u8 {
        OpCode::GetLocal
    } else if b == 6u8 {
        OpCode::SetLocal
    } else if b == 7u8 {
        OpCode::GetGlobal
    } else if b == 8u8 {
        OpCode::DefineGlobal
    } else if b == 9u8 {
        OpCode::SetGlobal
    } else if b == 10u8 {
        OpCode::GetUpValue
    } else if b == 11u8 {
        OpCode::SetUpValue
    } else if b == 12u8 {
        OpCode::SetProperty
    } else if b == 13u8 {
        OpCode::GetProperty
    } else if b == 14u8 {
        OpCode::GetSuper
    } else if b == 15u8 {
        OpCode::Equal
    } else if b == 16u8 {
        OpCode::Greater
    } else if b == 17u8 {
        OpCode::Less
    } else if b == 18u8 {
        OpCode::Add
    } else if b == 19u8 {
        OpCode::Subtract
    } else if b == 20u8 {
        OpCode::Multiply
    } else if b == 21u8 {
        OpCode::Divide
    } else if b == 22u8 {
        OpCode::Not
    } else if b == 23u8 {
        OpCode::Negate
    } else if b == 24u8 {
        OpCode::Print
    } else if b == 25u8 {
        OpCode::Jump
    } else if b == 26u8 {
        OpCode::JumpIfFalse
    } else if b == 27u8 {
        OpCode::Loop
    } else if b == 28u8 {
        OpCode::Call
    } else if b == 29u8 {
        OpCode::Invoke
    } else if b == 30u8 {
        OpCode::SuperInvoke
    } else if b == 31u8 {
        OpCode::Closure
    } else if b == 32u8 {
        OpCode::CloseUpvalue
    } else if b == 33u8 {
        OpCode::Return
    } else if b == 34u8 {
        OpCode::Class
    } else if b == 35u8 {
        OpCode::Inherit
    } else if b == 36u8 {
        OpCode::Method
    } else {
        OpCode::Return
    }
}

impl From<OpCode> for u8 {
    fn from(value: OpCode) -> (b: u8) {
        match value {
            OpCode::Constant => 0u8,
            OpCode::Nil => 1u8,
            OpCode::True => 2u8,
            OpCode::False => 3u8,
            OpCode::Pop => 4u8,
            OpCode::GetLocal => 5u8,
            OpCode::SetLocal => 6u8,
            OpCode::GetGlobal => 7u8,
            OpCode::DefineGlobal => 8u8,
            OpCode::SetGlobal => 9u8,
            OpCode::GetUpValue => 10u8,
            OpCode::SetUpValue => 11u8,
            OpCode::SetProperty => 12u8,
            OpCode::GetProperty => 13u8,
            OpCode::GetSuper => 14u8,
            OpCode::Equal => 15u8,
            OpCode::Greater => 16u8,
            OpCode::Less => 17u8,
            OpCode::Add => 18u8,
            OpCode::Subtract => 19u8,
            OpCode::Multiply => 20u8,
            OpCode::Divide => 21u8,
            OpCode::Not => 22u8,
            OpCode::Negate => 23u8,
            OpCode::Print => 24u8,
            OpCode::Jump => 25u8,
            OpCode::JumpIfFalse => 26u8,
            OpCode::Loop => 27u8,
            OpCode::Call => 28u8,
            OpCode::Invoke => 29u8,
            OpCode::SuperInvoke => 30u8,
            OpCode::Closure => 31u8,
            OpCode::CloseUpvalue => 32u8,
            OpCode::Return => 33u8,
            OpCode::Class => 34u8,
            OpCode::Inherit => 35u8,
            OpCode::Method => 36u8,
        }
    }
}

impl vstd::std_specs::convert::FromSpecImpl<OpCode> for u8 {
    open spec fn obeys_from_spec() -> bool {
        true
    }

    open spec fn from_spec(v: OpCode) -> u8 {
        opcode_byte(v)
    }
}

impl From<u8> for OpCode {
    fn from(value: u8) -> (op: OpCode) {
        match value {
            0 => OpCode::Constant,
            1 => OpCode::Nil,
            2 => OpCode::True,
            3 => OpCode::False,
            4 => OpCode::Pop,
            5 => OpCode::GetLocal,
            6 => OpCode::SetLocal,
            7 => OpCode::GetGlobal,
            8 => OpCode::DefineGlobal,
            9 => OpCode::SetGlobal,
            10 => OpCode::GetUpValue,
            11 => OpCode::SetUpValue,
            12 => OpCode::SetProperty,
            13 => OpCode::GetProperty,
            14 => OpCode::GetSuper,
            15 => OpCode::Equal,
            16 => OpCode::Greater,
            17 => OpCode::Less,
            18 => OpCode::Add,
            19 => OpCode::Subtract,
            20 => OpCode::Multiply,
            21 => OpCode::Divide,
            22 => OpCode::Not,
            23 => OpCode::Negate,
            24 => OpCode::Print,
            25 => OpCode::Jump,
            26 => OpCode::JumpIfFalse,
            27 => OpCode::Loop,
            28 => OpCode::Call,
            29 => OpCode::Invoke,
            30 => OpCode::SuperInvoke,
            31 => OpCode::Closure,
            32 => OpCode::CloseUpvalue,
            33 => OpCode::Return,
            34 => OpCode::Class,
            35 => OpCode::Inherit,
            36 => OpCode::Method,
            _ => OpCode::Return,
        }
    }
}

impl vstd::std_specs::convert::FromSpecImpl<u8> for OpCode {
    open spec fn obeys_from_spec() -> bool {
        true
    }

    open spec fn from_spec(v: u8) -> OpCode {
        byte_opcode(v)
    }
}

/// Decoding undoes encoding: every instruction comes back from its byte,
/// and every byte below [`OPCODE_COUNT`] comes back from its instruction.
pub proof fn lemma_opcode_roundtrip(op: OpCode, b: u8)
    ensures
        byte_opcode(opcode_byte(op)) == op,
        opcode_byte(op) < OPCODE_COUNT,
        b < OPCODE_COUNT ==> opcode_byte(byte_opcode(b)) == b,
{
}

/// A chunk of bytecode: the instruction bytes, the source line of each
/// byte, and the constants that instructions refer to by index.
#[derive(Debug, Clone)]
pub struct Chunk {
    pub codes: Vec<u8>,
    pub constants: Vec<Value>,
    pub lines: Vec<usize>,
}

impl Default for Chunk {
    /// An empty chunk.
    fn default() -> (c: Chunk)
        ensures
            c.codes@.len() == 0,
            c.constants@.len() == 0,
            c.lines@.len() == 0,
    {
        Chunk { codes: Vec::new(), constants: Vec::new(), lines: Vec::new() }
    }
}

impl Chunk {
    /// Every byte of the chunk has a line.
    pub open spec fn wf(&self) -> bool {
        self.codes@.len() == self.lines@.len()
    }

    /// Appends the byte `code`, written on source line `line`.
    pub fn write_chunk(&mut self, code: u8, line: usize)
        ensures
            final(self).codes@ == old(self).codes@.push(code),
            final(self).lines@ == old(self).lines@.push(line),
            final(self).constants@ == old(self).constants@,
            old(self).wf() ==> final(self).wf(),
    {
        self.lines.push(line);
        self.codes.push(code)
    }

    /// Appends `constant` to the constant table and returns its index. A
    /// chunk holds at most 256 constants, the most that a one-byte operand
    /// can name.
    pub fn add_constant(&mut self, constant: Value) -> (i: u8)
        requires
            old(self).constants@.len() <= u8::MAX,
        ensures
            i == old(self).constants@.len(),
            final(self).constants@ == old(self).constants@.push(constant),
            final(self).codes@ == old(self).codes@,
            final(self).lines@ == old(self).lines@,
    {
        let i = self.constants.len() as u8;
        self.constants.push(constant);
        i
    }
}

/// An instruction with its operands, as the disassembler shows it.
#[derive(Debug, Clone, Copy, PartialEq, Eq, Structural)]
pub enum Instruction {
    /// An instruction without operands.
    Simple(OpCode),
    /// An instruction whose operand is an index into the constant table.
    Constant(OpCode, u8),
    /// An instruction whose operand is a stack slot, an upvalue index or an
    /// argument count.
    Byte(OpCode, u8),
    /// A jump by a two-byte big-endian distance: forward for `Jump` and
    /// `JumpIfFalse`, backward for `Loop`.
    Jump(OpCode, u16),
    /// A method call: the constant that names the method, and the argument
    /// count.
    Invoke(OpCode, u8, u8),
    /// A closure over the function named by a constant; one (is_local,
    /// index) byte pair per captured variable follows.
    Closure(u8),
}

/// The number of operand bytes that follow `op`, not counting the upvalue
/// pairs of a closure.
pub open spec fn operand_len(op: OpCode) -> int {
    match op {
        OpCode::Constant | OpCode::DefineGlobal | OpCode::GetGlobal | OpCode::SetGlobal
        | OpCode::GetProperty | OpCode::SetProperty | OpCode::Class | OpCode::Method
        | OpCode::GetSuper => 1,
        OpCode::GetLocal | OpCode::SetLocal | OpCode::Call | OpCode::GetUpValue
        | OpCode::SetUpValue => 1,
        OpCode::Jump | OpCode::JumpIfFalse | OpCode::Loop => 2,
        OpCode::Invoke | OpCode::SuperInvoke => 2,
        OpCode::Closure => 1,
        _ => 0,
    }
}

/// The number of operand bytes that follow `op`, not counting the upvalue
/// pairs of a closure.
pub fn operand_count(op: OpCode) -> (n: usize)
    ensures
        n == operand_len(op),
{
    match op {
        OpCode::Constant | OpCode::DefineGlobal | OpCode::GetGlobal | OpCode::SetGlobal
        | OpCode::GetProperty | OpCode::SetProperty | OpCode::Class | OpCode::Method
        | OpCode::GetSuper => 1,
        OpCode::GetLocal | OpCode::SetLocal | OpCode::Call | OpCode::GetUpValue
        | OpCode::SetUpValue => 1,
        OpCode::Jump | OpCode::JumpIfFalse | OpCode::Loop => 2,
        OpCode::Invoke | OpCode::SuperInvoke => 2,
        OpCode::Closure => 1,
        _ => 0,
    }
}

/// The two-byte big-endian number at `i` in `codes`.
pub open spec fn short_at(codes: Seq<u8>, i: int) -> u16 {
    (codes[i] as int * 256 + codes[i + 1] as int) as u16
}

/// A distance that fits in two bytes, written high byte first as the
/// compiler writes jump operands, reads back as itself.
pub proof fn lemma_short_roundtrip(v: usize)
    requires
        v <= 0xffff,
    ensures
        short_at(seq![(v >> 8) as u8, v as u8], 0) == v,
{
    let hi = (v >> 8) as u8;
    let lo = v as u8;
    assert(hi as int * 256 + lo as int == v) by (bit_vector)
        requires
            v <= 0xffff,
            hi == (v >> 8) as u8,
            lo == v as u8,
    ;
}

/// The instruction whose opcode byte is at `offset` in `codes`.
pub open spec fn decoded(codes: Seq<u8>, offset: int) -> Instruction {
    let op = byte_opcode(codes[offset]);
    match op {
        OpCode::Constant | OpCode::DefineGlobal | OpCode::GetGlobal | OpCode::SetGlobal
        | OpCode::GetProperty | OpCode::SetProperty | OpCode::Class | OpCode::Method
        | OpCode::GetSuper => Instruction::Constant(op, codes[offset + 1]),
        OpCode::GetLocal | OpCode::SetLocal | OpCode::Call | OpCode::GetUpValue
        | OpCode::SetUpValue => Instruction::Byte(op, codes[offset + 1]),
        OpCode::Jump | OpCode::JumpIfFalse | OpCode::Loop => Instruction::Jump(
            op,
            short_at(codes, offset + 1),
        ),
        OpCode::Invoke | OpCode::SuperInvoke => Instruction::Invoke(
            op,
            codes[offset + 1],
            codes[offset + 2],
        ),
        OpCode::Closure => Instruction::Closure(codes[offset + 1]),
        _ => Instruction::Simple(op),
    }
}

impl Chunk {
    /// The instruction at `offset`, and the offset just after its operands
    /// (for a closure, before its upvalue pairs).
    pub fn decode(&self, offset: usize) -> (r: (Instruction, usize))
        requires
            offset < self.codes@.len(),
            offset + operand_len(byte_opcode(self.codes@[offset as int])) < self.codes@.len(),
        ensures
            r.0 == decoded(self.codes@, offset as int),
            r.1 == offset + 1 + operand_len(byte_opcode(self.codes@[offset as int])),
    {
        let op = OpCode::from(self.codes[offset]);
        let n = self.codes.len();
        proof {
            assert(op == byte_opcode(self.codes@[offset as int]));
            assert(n == self.codes@.len());
        }
        match op {
            OpCode::Constant | OpCode::DefineGlobal | OpCode::GetGlobal | OpCode::SetGlobal
            | OpCode::GetProperty | OpCode::SetProperty | OpCode::Class | OpCode::Method
            | OpCode::GetSuper => (Instruction::Constant(op, self.codes[offset + 1]), offset + 2),
            OpCode::GetLocal | OpCode::SetLocal | OpCode::Call | OpCode::GetUpValue
            | OpCode::SetUpValue => (Instruction::Byte(op, self.codes[offset + 1]), offset + 2),
            OpCode::Jump | OpCode::JumpIfFalse | OpCode::Loop => (
                Instruction::Jump(op, self.read_short(offset + 1)),
                offset + 3,
            ),
            OpCode::Invoke | OpCode::SuperInvoke => (
                Instruction::Invoke(op, self.codes[offset + 1], self.codes[offset + 2]),
                offset + 3,
            ),
            OpCode::Closure => (Instruction::Closure(self.codes[offset + 1]), offset + 2),
            _ => (Instruction::Simple(op), offset + 1),
        }
    }

    /// The two-byte big-endian operand at `at`: a jump distance.
    pub fn read_short(&self, at: usize) -> (v: u16)
        requires
            at + 1 < self.codes@.len(),
        ensures
            v == short_at(self.codes@, at as int),
    {
        let n = self.codes.len();
        proof {
            assert(n == self.codes@.len());
        }
        let hi = self.codes[at] as u16;
        let lo = self.codes[at + 1] as u16;
        proof {
            assert(hi * 256 + lo <= 0xffff) by (nonlinear_arith)
                requires
                    hi <= 0xff,
                    lo <= 0xff,
            ;
        }
        hi * 256 + lo
    }

    /// The offset just after the whole instruction at `offset`: after its
    /// operands and, for a closure whose function captures `upvalue_count`
    /// variables, after its (is_local, index) pairs.
    pub fn instruction_end(&self, offset: usize, upvalue_count: usize) -> (r: usize)
        requires
            offset < self.codes@.len(),
            offset + 3 + 2 * upvalue_count <= usize::MAX,
        ensures
            r == offset + 1 + operand_len(byte_opcode(self.codes@[offset as int])) + if byte_opcode(
                self.codes@[offset as int],
            ) == OpCode::Closure {
                2 * upvalue_count
            } else {
                0
            },
    {
        let op = OpCode::from(self.codes[offset]);
        let n = operand_count(op);
        match op {
            OpCode::Closure => offset + 1 + n + 2 * upvalue_count,
            _ => offset + 1 + n,
        }
    }

    /// The `count` (is_local, index) pairs that follow the closure
    /// instruction at `offset`.
    pub fn upvalue_operands(&self, offset: usize, count: usize) -> (r: Vec<(bool, u8)>)
        requires
            offset + 2 + 2 * count <= self.codes@.len(),
        ensures
            r@.len() == count,
            forall|i: int|
                0 <= i < count ==> #[trigger] r@[i] == (
                    self.codes@[offset + 2 + 2 * i] != 0,
                    self.codes@[offset + 3 + 2 * i],
                ),
    {
        let mut r = Vec::new();
        let mut i: usize = 0;
        let n = self.codes.len();
        while i < count
            invariant
                n == self.codes@.len(),
                i <= count,
                offset + 2 + 2 * count <= self.codes@.len(),
                r@.len() == i,
                forall|j: int|
                    0 <= j < i ==> #[trigger] r@[j] == (
                        self.codes@[offset + 2 + 2 * j] != 0,
                        self.codes@[offset + 3 + 2 * j],
                    ),
            decreases count - i,
        {
            let base = offset + 2 + 2 * i;
            r.push((self.codes[base] != 0, self.codes[base + 1]));
            i = i + 1;
        }
        r
    }
}

} // verus!
