//! Bytecode chunks: code, constant pool and line table, and their listing.
use crate::opcode::{byte_of, op_of, operand_width, OpCode};
use crate::value::Value;
use vstd::prelude::*;

verus! {

/// Code bytes, a constant pool and one source line per code byte.
#[derive(Clone, Debug, PartialEq)]
pub struct Chunk {
    code: Vec<u8>,
    constants: Vec<Value>,
    lines: Vec<u32>,
}

/// One decoded instruction of a listing, with its byte offset.
#[derive(Clone, Copy, Debug, PartialEq)]
pub enum Instruction {
    /// An instruction without operand.
    Simple { offset: usize, op: OpCode },
    /// A constant load; `value` is `None` when `index` lies outside the pool.
    Constant { offset: usize, index: u8, value: Option<Value> },
    /// An instruction whose operand byte is missing at the end of the code.
    Truncated { offset: usize, op: OpCode },
    /// A byte that encodes no mnemonic.
    Unknown { offset: usize, byte: u8 },
}

/// The instruction that starts at `at`, which lies inside `code`.
pub open spec fn decode_at(code: Seq<u8>, constants: Seq<Value>, at: int) -> Instruction {
    let offset = at as usize;
    match op_of(code[at]) {
        None => Instruction::Unknown { offset, byte: code[at] },
        Some(OpCode::Const) => if at + 1 < code.len() {
            let index = code[at + 1];
            Instruction::Constant {
                offset,
                index,
                value: if index < constants.len() { Some(constants[index as int]) } else { None },
            }
        } else {
            Instruction::Truncated { offset, op: OpCode::Const }
        },
        Some(op) => Instruction::Simple { offset, op },
    }
}

/// How many bytes an instruction takes.
pub open spec fn width(i: Instruction) -> int {
    match i {
        Instruction::Constant { .. } => 2,
        _ => 1,
    }
}

/// The listing of `code` from offset `at` to its end.
pub open spec fn listing_from(code: Seq<u8>, constants: Seq<Value>, at: int) -> Seq<Instruction>
    decreases code.len() - at,
{
    if at < 0 || at >= code.len() {
        Seq::empty()
    } else {
        let i = decode_at(code, constants, at);
        seq![i].add(listing_from(code, constants, at + width(i)))
    }
}

/// The code from `at` on is a sequence of whole, known instructions whose
/// constant operands lie below `n`.
pub open spec fn clean_from(code: Seq<u8>, n: int, at: int) -> bool
    decreases code.len() - at,
{
    if at < 0 || at > code.len() {
        false
    } else if at == code.len() {
        true
    } else {
        match op_of(code[at]) {
            None => false,
            Some(OpCode::Const) => at + 1 < code.len() && (code[at + 1] as int) < n
                && clean_from(code, n, at + 2),
            Some(_) => clean_from(code, n, at + 1),
        }
    }
}

impl Chunk {
    pub closed spec fn code_seq(&self) -> Seq<u8> {
        self.code@
    }

    pub closed spec fn constants_seq(&self) -> Seq<Value> {
        self.constants@
    }

    pub closed spec fn lines_seq(&self) -> Seq<u32> {
        self.lines@
    }

    /// How a run of this chunk from its first byte with an empty stack ends.
    pub open spec fn pending_from_start(&self) -> crate::vm::Outcome {
        crate::vm::outcome(
            self.code_seq(),
            self.constants_seq(),
            self.lines_seq(),
            0,
            Seq::empty(),
        )
    }

    /// Each code byte has its line.
    pub open spec fn wf(&self) -> bool {
        self.lines_seq().len() == self.code_seq().len()
    }

    pub fn new() -> (r: Self)
        ensures
            r.code_seq() == Seq::<u8>::empty(),
            r.constants_seq() == Seq::<Value>::empty(),
            r.lines_seq() == Seq::<u32>::empty(),
            r.wf(),
    {
        Self { code: Vec::new(), constants: Vec::new(), lines: Vec::new() }
    }

    /// Appends one byte and the source line it came from.
    pub fn write(&mut self, byte: u8, line: u32)
        ensures
            final(self).code_seq() == old(self).code_seq().push(byte),
            final(self).lines_seq() == old(self).lines_seq().push(line),
            final(self).constants_seq() == old(self).constants_seq(),
    {
        self.code.push(byte);
        self.lines.push(line);
    }

    /// Appends a constant and returns its index in the pool.
    pub fn add_constant(&mut self, value: Value) -> (r: usize)
        ensures
            r == old(self).constants_seq().len(),
            final(self).constants_seq() == old(self).constants_seq().push(value),
            final(self).code_seq() == old(self).code_seq(),
            final(self).lines_seq() == old(self).lines_seq(),
    {
        self.constants.push(value);
        self.constants.len() - 1
    }

    pub fn code(&self) -> (r: &Vec<u8>)
        ensures
            r@ == self.code_seq(),
    {
        &self.code
    }

    pub fn constants(&self) -> (r: &Vec<Value>)
        ensures
            r@ == self.constants_seq(),
    {
        &self.constants
    }

    pub fn lines(&self) -> (r: &Vec<u32>)
        ensures
            r@ == self.lines_seq(),
    {
        &self.lines
    }

    /// The listing of the whole code, one entry per instruction, in order.
    /// A byte that encodes no mnemonic is listed as `Unknown` and the walk
    /// goes on after it.
    pub fn disassemble(&self) -> (r: Vec<Instruction>)
        ensures
            r@ == listing_from(self.code_seq(), self.constants_seq(), 0),
    {
        let mut out: Vec<Instruction> = Vec::new();
        let mut offset: usize = 0;
        while offset < self.code.len()
            invariant
                offset <= self.code@.len(),
                out@ + listing_from(self.code@, self.constants@, offset as int)
                    == listing_from(self.code@, self.constants@, 0),
            decreases self.code@.len() - offset,
        {
            let (instr, next) = self.disassemble_instr(offset);
            assert(listing_from(self.code@, self.constants@, offset as int)
                == seq![instr] + listing_from(self.code@, self.constants@, next as int));
            out.push(instr);
            assert(out@ + listing_from(self.code@, self.constants@, next as int)
                =~= listing_from(self.code@, self.constants@, 0));
            offset = next;
        }
        out
    }

    /// Decodes the instruction at `offset` and returns it with the offset of
    /// the next one.
    pub fn disassemble_instr(&self, offset: usize) -> (r: (Instruction, usize))
        requires
            offset < self.code_seq().len(),
        ensures
            r.0 == decode_at(self.code_seq(), self.constants_seq(), offset as int),
            r.1 == offset + width(r.0),
            r.1 <= self.code_seq().len(),
    {
        let len = self.code.len();
        assert(offset + 1 <= len);
        match OpCode::from_byte(self.code[offset]) {
            None => (Instruction::Unknown { offset, byte: self.code[offset] }, offset + 1),
            Some(OpCode::Const) => self.const_instr(offset),
            Some(op) => self.simple_instr(op, offset),
        }
    }

    fn const_instr(&self, offset: usize) -> (r: (Instruction, usize))
        requires
            offset < self.code@.len(),
            op_of(self.code@[offset as int]) == Some(OpCode::Const),
        ensures
            r.0 == decode_at(self.code@, self.constants@, offset as int),
            r.1 == offset + width(r.0),
            r.1 <= self.code@.len(),
    {
        let len = self.code.len();
        assert(offset + 1 <= len);
        if offset + 1 < len {
            let index = self.code[offset + 1];
            let value = if (index as usize) < self.constants.len() {
                Some(self.constants[index as usize])
            } else {
                None
            };
            (Instruction::Constant { offset, index, value }, offset + 2)
        } else {
            (Instruction::Truncated { offset, op: OpCode::Const }, offset + 1)
        }
    }

    fn simple_instr(&self, op: OpCode, offset: usize) -> (r: (Instruction, usize))
        requires
            offset < self.code@.len(),
            op_of(self.code@[offset as int]) == Some(op),
            op != OpCode::Const,
        ensures
            r.0 == decode_at(self.code@, self.constants@, offset as int),
            r.1 == offset + 1,
    {
        let len = self.code.len();
        assert(offset + 1 <= len);
        (Instruction::Simple { offset, op }, offset + 1)
    }
}

/// Appending bytes after a clean stretch of code leaves its decoding alone
/// and decodes the new bytes on their own.
pub proof fn lemma_listing_append(
    code: Seq<u8>,
    extra: Seq<u8>,
    constants: Seq<Value>,
    at: int,
)
    requires
        clean_from(code, constants.len() as int, at),
    ensures
        listing_from(code + extra, constants, at) == listing_from(code, constants, at)
            + listing_from(code + extra, constants, code.len() as int),
    decreases code.len() - at,
{
    let all = code + extra;
    if at < code.len() {
        assert(all[at] == code[at]);
        if op_of(code[at]) == Some(OpCode::Const) {
            assert(all[at + 1] == code[at + 1]);
        }
        let i = decode_at(code, constants, at);
        assert(decode_at(all, constants, at) == i);
        lemma_listing_append(code, extra, constants, at + width(i));
        assert(listing_from(all, constants, at) =~= listing_from(code, constants, at)
            + listing_from(all, constants, code.len() as int));
    } else {
        assert(listing_from(code, constants, at) =~= Seq::<Instruction>::empty());
        assert(listing_from(all, constants, at) =~= listing_from(code, constants, at)
            + listing_from(all, constants, code.len() as int));
    }
}

/// An instruction with an operand, written after a clean stretch of code,
/// is listed with the mnemonic and the operand that were written.
pub proof fn lemma_operand_round_trip(
    code: Seq<u8>,
    constants: Seq<Value>,
    op: OpCode,
    operand: u8,
)
    requires
        operand_width(op) == 1,
        clean_from(code, constants.len() as int, 0),
    ensures
        listing_from(code.push(byte_of(op)).push(operand), constants, 0)
            == listing_from(code, constants, 0).push(
            Instruction::Constant {
                offset: code.len() as usize,
                index: operand,
                value: if (operand as int) < constants.len() {
                    Some(constants[operand as int])
                } else {
                    None
                },
            },
        ),
{
    let extra = seq![byte_of(op), operand];
    let all = code + extra;
    assert(code.push(byte_of(op)).push(operand) =~= all);
    lemma_listing_append(code, extra, constants, 0);
    let n = code.len() as int;
    assert(all[n] == byte_of(op));
    assert(all[n + 1] == operand);
    assert(listing_from(all, constants, n + 2) =~= Seq::<Instruction>::empty());
    assert(listing_from(all, constants, n) =~= seq![decode_at(all, constants, n)]);
}

/// Appending a whole instruction without operand keeps the code clean.
pub proof fn lemma_clean_push_simple(code: Seq<u8>, n: int, at: int, b: u8)
    requires
        clean_from(code, n, at),
        op_of(b) is Some,
        op_of(b) != Some(OpCode::Const),
    ensures
        clean_from(code.push(b), n, at),
    decreases code.len() - at,
{
    let all = code.push(b);
    if at < code.len() {
        assert(all[at] == code[at]);
        if op_of(code[at]) == Some(OpCode::Const) {
            assert(all[at + 1] == code[at + 1]);
            lemma_clean_push_simple(code, n, at + 2, b);
        } else {
            lemma_clean_push_simple(code, n, at + 1, b);
        }
    } else {
        assert(all[at] == b);
        assert(clean_from(all, n, at + 1));
    }
}

/// Appending a constant load whose index lies below `n` keeps the code clean.
pub proof fn lemma_clean_push_const(code: Seq<u8>, n: int, at: int, index: u8)
    requires
        clean_from(code, n, at),
        (index as int) < n,
    ensures
        clean_from(code.push(byte_of(OpCode::Const)).push(index), n, at),
    decreases code.len() - at,
{
    let all = code.push(byte_of(OpCode::Const)).push(index);
    if at < code.len() {
        assert(all[at] == code[at]);
        if op_of(code[at]) == Some(OpCode::Const) {
            assert(all[at + 1] == code[at + 1]);
            lemma_clean_push_const(code, n, at + 2, index);
        } else {
            lemma_clean_push_const(code, n, at + 1, index);
        }
    } else {
        assert(all[at] == byte_of(OpCode::Const));
        assert(all[at + 1] == index);
        assert(clean_from(all, n, at + 2));
    }
}

/// A larger pool keeps clean code clean.
pub proof fn lemma_clean_grow(code: Seq<u8>, n: int, m: int, at: int)
    requires
        clean_from(code, n, at),
        n <= m,
    ensures
        clean_from(code, m, at),
    decreases code.len() - at,
{
    if at < code.len() {
        if op_of(code[at]) == Some(OpCode::Const) {
            lemma_clean_grow(code, n, m, at + 2);
        } else {
            lemma_clean_grow(code, n, m, at + 1);
        }
    }
}

/// How many values an instruction takes from the stack.
pub open spec fn pops(op: OpCode) -> int {
    match op {
        OpCode::Const | OpCode::Nil | OpCode::True | OpCode::False | OpCode::Return => 0,
        OpCode::Neg | OpCode::Not | OpCode::Pop => 1,
        _ => 2,
    }
}

/// How many values an instruction leaves on the stack.
pub open spec fn pushes(op: OpCode) -> int {
    match op {
        OpCode::Pop | OpCode::Return => 0,
        _ => 1,
    }
}

/// The stack depth after the instructions from `at` to `end`, started at
/// depth `d`; `None` where one of them is unknown, is a return, would take
/// more values than the stack holds, or runs past `end`.
pub open spec fn depth_walk(code: Seq<u8>, at: int, end: int, d: int) -> Option<int>
    decreases end - at,
{
    if at < 0 || end > code.len() || at > end {
        None
    } else if at == end {
        Some(d)
    } else {
        match op_of(code[at]) {
            None => None,
            Some(op) => if op == OpCode::Return || pops(op) > d || at + 1 + operand_width(op) > end {
                None
            } else {
                depth_walk(code, at + 1 + operand_width(op), end, d - pops(op) + pushes(op))
            },
        }
    }
}

/// A deeper start leaves a deeper end.
pub proof fn lemma_walk_shift(code: Seq<u8>, at: int, end: int, d: int, k: int)
    requires
        depth_walk(code, at, end, d) is Some,
        k >= 0,
    ensures
        depth_walk(code, at, end, d + k) == Some(depth_walk(code, at, end, d).unwrap() + k),
    decreases end - at,
{
    if at < end {
        let op = op_of(code[at]).unwrap();
        lemma_walk_shift(code, at + 1 + operand_width(op), end, d - pops(op) + pushes(op), k);
    }
}

/// A walk through `mid` goes on from where it stood there.
pub proof fn lemma_walk_compose(code: Seq<u8>, at: int, mid: int, end: int, d: int)
    requires
        depth_walk(code, at, mid, d) is Some,
        mid <= end <= code.len(),
    ensures
        depth_walk(code, at, end, d) == depth_walk(code, mid, end, depth_walk(code, at, mid, d).unwrap()),
    decreases mid - at,
{
    if at < mid {
        let op = op_of(code[at]).unwrap();
        lemma_walk_compose(code, at + 1 + operand_width(op), mid, end, d - pops(op) + pushes(op));
    }
}

/// A walk reads only the bytes before `end`.
pub proof fn lemma_walk_extend(code: Seq<u8>, longer: Seq<u8>, at: int, end: int, d: int)
    requires
        end <= code.len() <= longer.len(),
        forall|i: int| 0 <= i < code.len() ==> longer[i] == code[i],
    ensures
        depth_walk(longer, at, end, d) == depth_walk(code, at, end, d),
    decreases end - at,
{
    if 0 <= at < end {
        assert(longer[at] == code[at]);
        match op_of(code[at]) {
            None => {},
            Some(op) => {
                if !(op == OpCode::Return || pops(op) > d || at + 1 + operand_width(op) > end) {
                    lemma_walk_extend(code, longer, at + 1 + operand_width(op), end,
                        d - pops(op) + pushes(op));
                }
            },
        }
    }
}

} // verus!
