//! The instruction set and its byte encoding.
use vstd::prelude::*;

verus! {

/// An instruction mnemonic. Only `Const` takes an operand: one byte, an
/// index into the constant pool.
#[derive(Clone, Copy, Debug, PartialEq, Eq, Structural)]
pub enum OpCode {
    Const,
    Neg,
    Return,
    Nil,
    True,
    False,
    Not,
    Add,
    Sub,
    Mul,
    Div,
    Equal,
    NotEqual,
    Greater,
    GreaterEqual,
    Less,
    LessEqual,
    Pop,
}

/// The byte that encodes `op`.
pub open spec fn byte_of(op: OpCode) -> u8 {
    match op {
        OpCode::Const => 0,
        OpCode::Neg => 1,
        OpCode::Return => 2,
        OpCode::Nil => 3,
        OpCode::True => 4,
        OpCode::False => 5,
        OpCode::Not => 6,
        OpCode::Add => 7,
        OpCode::Sub => 8,
        OpCode::Mul => 9,
        OpCode::Div => 10,
        OpCode::Equal => 11,
        OpCode::NotEqual => 12,
        OpCode::Greater => 13,
        OpCode::GreaterEqual => 14,
        OpCode::Less => 15,
        OpCode::LessEqual => 16,
        OpCode::Pop => 17,
    }
}

/// The mnemonic that `b` encodes, if any.
pub open spec fn op_of(b: u8) -> Option<OpCode> {
    if b == 0 { Some(OpCode::Const) }
    else if b == 1 { Some(OpCode::Neg) }
    else if b == 2 { Some(OpCode::Return) }
    else if b == 3 { Some(OpCode::Nil) }
    else if b == 4 { Some(OpCode::True) }
    else if b == 5 { Some(OpCode::False) }
    else if b == 6 { Some(OpCode::Not) }
    else if b == 7 { Some(OpCode::Add) }
    else if b == 8 { Some(OpCode::Sub) }
    else if b == 9 { Some(OpCode::Mul) }
    else if b == 10 { Some(OpCode::Div) }
    else if b == 11 { Some(OpCode::Equal) }
    else if b == 12 { Some(OpCode::NotEqual) }
    else if b == 13 { Some(OpCode::Greater) }
    else if b == 14 { Some(OpCode::GreaterEqual) }
    else if b == 15 { Some(OpCode::Less) }
    else if b == 16 { Some(OpCode::LessEqual) }
    else if b == 17 { Some(OpCode::Pop) }
    else { None }
}

/// The number of operand bytes that follow the opcode byte.
pub open spec fn operand_width(op: OpCode) -> nat {
    if op == OpCode::Const { 1 } else { 0 }
}

impl OpCode {
    pub fn to_byte(&self) -> (r: u8)
        ensures
            r == byte_of(*self),
    {
        match self {
            OpCode::Const => 0,
            OpCode::Neg => 1,
            OpCode::Return => 2,
            OpCode::Nil => 3,
            OpCode::True => 4,
            OpCode::False => 5,
            OpCode::Not => 6,
            OpCode::Add => 7,
            OpCode::Sub => 8,
            OpCode::Mul => 9,
            OpCode::Div => 10,
            OpCode::Equal => 11,
            OpCode::NotEqual => 12,
            OpCode::Greater => 13,
            OpCode::GreaterEqual => 14,
            OpCode::Less => 15,
            OpCode::LessEqual => 16,
            OpCode::Pop => 17,
        }
    }

    /// Decodes a byte; `None` for a byte that no mnemonic uses.
    pub fn from_byte(b: u8) -> (r: Option<OpCode>)
        ensures
            r == op_of(b),
    {
        match b {
            0 => Some(OpCode::Const),
            1 => Some(OpCode::Neg),
            2 => Some(OpCode::Return),
            3 => Some(OpCode::Nil),
            4 => Some(OpCode::True),
            5 => Some(OpCode::False),
            6 => Some(OpCode::Not),
            7 => Some(OpCode::Add),
            8 => Some(OpCode::Sub),
            9 => Some(OpCode::Mul),
            10 => Some(OpCode::Div),
            11 => Some(OpCode::Equal),
            12 => Some(OpCode::NotEqual),
            13 => Some(OpCode::Greater),
            14 => Some(OpCode::GreaterEqual),
            15 => Some(OpCode::Less),
            16 => Some(OpCode::LessEqual),
            17 => Some(OpCode::Pop),
            _ => None,
        }
    }

    pub fn has_operand(&self) -> (r: bool)
        ensures
            r == (operand_width(*self) == 1),
    {
        match self {
            OpCode::Const => true,
            _ => false,
        }
    }
}

/// The encoding is a bijection between the mnemonics and the bytes that
/// decode: decoding the byte of a mnemonic gives it back, and a byte that
/// decodes is the byte of what it decodes to.
pub proof fn lemma_opcode_bijection(op: OpCode, b: u8)
    ensures
        op_of(byte_of(op)) == Some(op),
        op_of(b) matches Some(o) ==> byte_of(o) == b,
{
}

} // verus!
