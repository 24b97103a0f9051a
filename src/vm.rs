//! The virtual machine: runs a chunk on an operand stack.
use crate::chunk::{clean_from, depth_walk, pops, pushes, Chunk};
use crate::number::{
    difference_bits, num_eq, num_lt, num_neg, number_add, number_div, number_equal, number_less,
    number_mul, number_negate, number_sub, product_bits, quotient_bits, sum_bits,
};
use crate::opcode::{byte_of, op_of, operand_width, OpCode};
use crate::value::{truthy, values_equal, Value};
use vstd::prelude::*;

verus! {

/// How a whole interpretation ended.
#[derive(Clone, Copy, Debug, PartialEq, Eq)]
pub enum InterpretResult {
    Success,
    CompileError,
    RuntimeError,
}

/// What went wrong while running a chunk.
#[derive(Clone, Copy, Debug, PartialEq, Eq)]
pub enum RuntimeErrorKind {
    /// A unary number operator met a value that is not a number.
    OperandMustBeNumber,
    /// A binary number operator met a value that is not a number.
    OperandsMustBeNumbers,
    /// An instruction needed more values than the stack held.
    StackUnderflow,
    /// A code byte that encodes no mnemonic.
    UnknownOpcode(u8),
    /// A constant load at the very end of the code, without its operand.
    MissingOperand,
    /// A constant load whose index lies outside the pool.
    ConstantOutOfRange(u8),
    /// The code ended without a return.
    EndOfCode,
}

/// A runtime error and the source line of the instruction that raised it.
#[derive(Clone, Copy, Debug, PartialEq, Eq)]
pub struct RuntimeError {
    pub line: u32,
    pub kind: RuntimeErrorKind,
}

/// The end of a run: a return, with the value on top of the stack if there
/// is one, or an error.
#[derive(Clone, Copy, Debug, PartialEq)]
pub enum Outcome {
    Finished(Option<Value>),
    Failed(RuntimeError),
}

impl RuntimeErrorKind {
    /// Whether this error shows a malformed chunk rather than a type error
    /// of the running program.
    pub fn is_internal(&self) -> (r: bool)
        ensures
            r == !(*self is OperandMustBeNumber || *self is OperandsMustBeNumbers),
    {
        match self {
            RuntimeErrorKind::OperandMustBeNumber => false,
            RuntimeErrorKind::OperandsMustBeNumbers => false,
            _ => true,
        }
    }
}

/// The line recorded for code offset `at`, or 0 where none is recorded.
pub open spec fn line_at(lines: Seq<u32>, at: int) -> u32 {
    if 0 <= at < lines.len() {
        lines[at]
    } else {
        0
    }
}

pub open spec fn fail(kind: RuntimeErrorKind, line: u32) -> Outcome {
    Outcome::Failed(RuntimeError { line, kind })
}

/// The result of a binary operator that takes two numbers.
pub open spec fn number_op(op: OpCode, a: u64, b: u64) -> Value {
    match op {
        OpCode::Add => Value::Number(sum_bits(a, b)),
        OpCode::Sub => Value::Number(difference_bits(a, b)),
        OpCode::Mul => Value::Number(product_bits(a, b)),
        OpCode::Div => Value::Number(quotient_bits(a, b)),
        OpCode::Greater => Value::Bool(num_lt(b, a)),
        OpCode::GreaterEqual => Value::Bool(num_lt(b, a) || num_eq(a, b)),
        OpCode::Less => Value::Bool(num_lt(a, b)),
        _ => Value::Bool(num_lt(a, b) || num_eq(a, b)),
    }
}

pub open spec fn is_number_op(op: OpCode) -> bool {
    op == OpCode::Add || op == OpCode::Sub || op == OpCode::Mul || op == OpCode::Div
        || op == OpCode::Greater || op == OpCode::GreaterEqual || op == OpCode::Less
        || op == OpCode::LessEqual
}

/// How a run of `code` that starts at `ip` with `stack` ends. Every error
/// carries the line of the instruction that raised it.
pub open spec fn outcome(
    code: Seq<u8>,
    constants: Seq<Value>,
    lines: Seq<u32>,
    ip: int,
    stack: Seq<Value>,
) -> Outcome
    decreases code.len() - ip,
{
    if ip < 0 || ip >= code.len() {
        fail(RuntimeErrorKind::EndOfCode, line_at(lines, code.len() - 1))
    } else {
        let line = line_at(lines, ip);
        let n = stack.len();
        match op_of(code[ip]) {
            None => fail(RuntimeErrorKind::UnknownOpcode(code[ip]), line),
            Some(OpCode::Const) => if ip + 1 >= code.len() {
                fail(RuntimeErrorKind::MissingOperand, line)
            } else if code[ip + 1] >= constants.len() {
                fail(RuntimeErrorKind::ConstantOutOfRange(code[ip + 1]), line)
            } else {
                outcome(code, constants, lines, ip + 2, stack.push(constants[code[ip + 1] as int]))
            },
            Some(OpCode::Return) => Outcome::Finished(
                if n > 0 { Some(stack.last()) } else { None },
            ),
            Some(OpCode::Nil) => outcome(code, constants, lines, ip + 1, stack.push(Value::Nil)),
            Some(OpCode::True) => outcome(code, constants, lines, ip + 1, stack.push(Value::Bool(true))),
            Some(OpCode::False) => outcome(code, constants, lines, ip + 1, stack.push(Value::Bool(false))),
            Some(op) => if op == OpCode::Pop || op == OpCode::Neg || op == OpCode::Not {
                if n == 0 {
                    fail(RuntimeErrorKind::StackUnderflow, line)
                } else {
                    let rest = stack.drop_last();
                    let top = stack.last();
                    if op == OpCode::Pop {
                        outcome(code, constants, lines, ip + 1, rest)
                    } else if op == OpCode::Not {
                        outcome(code, constants, lines, ip + 1, rest.push(Value::Bool(!truthy(top))))
                    } else {
                        match top {
                            Value::Number(x) => outcome(
                                code, constants, lines, ip + 1, rest.push(Value::Number(num_neg(x))),
                            ),
                            _ => fail(RuntimeErrorKind::OperandMustBeNumber, line),
                        }
                    }
                }
            } else if n < 2 {
                fail(RuntimeErrorKind::StackUnderflow, line)
            } else {
                let a = stack[n - 2];
                let b = stack[n - 1];
                let rest = stack.subrange(0, n - 2);
                if op == OpCode::Equal {
                    outcome(code, constants, lines, ip + 1, rest.push(Value::Bool(values_equal(a, b))))
                } else if op == OpCode::NotEqual {
                    outcome(code, constants, lines, ip + 1, rest.push(Value::Bool(!values_equal(a, b))))
                } else {
                    match (a, b) {
                        (Value::Number(x), Value::Number(y)) => outcome(
                            code, constants, lines, ip + 1, rest.push(number_op(op, x, y)),
                        ),
                        _ => fail(RuntimeErrorKind::OperandsMustBeNumbers, line),
                    }
                }
            },
        }
    }
}

/// Maps the end of a run to the result of the whole interpretation.
pub open spec fn result_of(o: Outcome) -> InterpretResult {
    match o {
        Outcome::Finished(_) => InterpretResult::Success,
        Outcome::Failed(_) => InterpretResult::RuntimeError,
    }
}

/// A machine around one chunk: an instruction pointer and an operand stack.
#[derive(Clone, Debug, PartialEq)]
pub struct VM {
    chunk: Chunk,
    ip: usize,
    stack: Vec<Value>,
}

impl VM {
    pub closed spec fn chunk_spec(&self) -> Chunk {
        self.chunk
    }

    pub closed spec fn ip_spec(&self) -> int {
        self.ip as int
    }

    pub closed spec fn stack_spec(&self) -> Seq<Value> {
        self.stack@
    }

    /// How a run from the machine's present state ends.
    pub open spec fn pending(&self) -> Outcome {
        outcome(
            self.chunk_spec().code_seq(),
            self.chunk_spec().constants_seq(),
            self.chunk_spec().lines_seq(),
            self.ip_spec(),
            self.stack_spec(),
        )
    }

    pub fn new(chunk: Chunk) -> (r: Self)
        ensures
            r.chunk_spec() == chunk,
            r.ip_spec() == 0,
            r.stack_spec() == Seq::<Value>::empty(),
    {
        Self { chunk, ip: 0, stack: Vec::new() }
    }

    /// Runs to a return or to the first error.
    pub fn run(&mut self) -> (r: InterpretResult)
        ensures
            r == result_of(old(self).pending()),
            final(self).chunk_spec() == old(self).chunk_spec(),
    {
        let o = self.execute();
        match o {
            Outcome::Finished(_) => InterpretResult::Success,
            Outcome::Failed(_) => InterpretResult::RuntimeError,
        }
    }

    /// Runs to a return or to the first error and says how the run ended.
    pub fn execute(&mut self) -> (r: Outcome)
        ensures
            r == old(self).pending(),
            final(self).chunk_spec() == old(self).chunk_spec(),
    {
        loop
            invariant
                self.pending() == old(self).pending(),
                self.chunk == old(self).chunk,
            decreases self.chunk.code_seq().len() + 1 - self.ip,
        {
            match self.step() {
                Some(o) => return o,
                None => {},
            }
        }
    }

    fn line(&self, at: usize) -> (r: u32)
        ensures
            r == line_at(self.chunk.lines_seq(), at as int),
    {
        let lines = self.chunk.lines();
        if at < lines.len() {
            lines[at]
        } else {
            0
        }
    }

    /// Executes one instruction: `Some` where the run ends there.
    fn step(&mut self) -> (r: Option<Outcome>)
        ensures
            final(self).chunk == old(self).chunk,
            match r {
                Some(o) => o == old(self).pending(),
                None => final(self).pending() == old(self).pending()
                    && old(self).ip < final(self).ip <= old(self).chunk.code_seq().len(),
            },
    {
        let code = self.chunk.code();
        let len = code.len();
        if self.ip >= len {
            let line = if len > 0 { self.line(len - 1) } else { 0 };
            return Some(Outcome::Failed(RuntimeError { line, kind: RuntimeErrorKind::EndOfCode }));
        }
        let at = self.ip;
        let line = self.line(at);
        let byte = code[at];
        let op = match self.read_instr() {
            Some(op) => op,
            None => {
                return Some(Outcome::Failed(RuntimeError { line, kind: RuntimeErrorKind::UnknownOpcode(byte) }));
            },
        };
        match op {
            OpCode::Const => {
                return match self.read_constant() {
                    Ok(v) => {
                        self.stack.push(v);
                        None
                    },
                    Err(kind) => Some(Outcome::Failed(RuntimeError { line, kind })),
                };
            },
            OpCode::Return => {
                let n = self.stack.len();
                return Some(Outcome::Finished(if n > 0 { Some(self.stack[n - 1]) } else { None }));
            },
            OpCode::Nil => {
                self.stack.push(Value::Nil);
                return None;
            },
            OpCode::True => {
                self.stack.push(Value::Bool(true));
                return None;
            },
            OpCode::False => {
                self.stack.push(Value::Bool(false));
                return None;
            },
            _ => {},
        }
        if op == OpCode::Pop || op == OpCode::Neg || op == OpCode::Not {
            let top = match self.stack.pop() {
                Some(v) => v,
                None => {
                    return Some(Outcome::Failed(RuntimeError { line, kind: RuntimeErrorKind::StackUnderflow }));
                },
            };
            if op == OpCode::Not {
                self.stack.push(Value::Bool(!top.is_truthy()));
            } else if op == OpCode::Neg {
                match top {
                    Value::Number(x) => self.stack.push(Value::Number(number_negate(x))),
                    _ => {
                        return Some(Outcome::Failed(RuntimeError { line, kind: RuntimeErrorKind::OperandMustBeNumber }));
                    },
                }
            }
            return None;
        }
        if self.stack.len() < 2 {
            return Some(Outcome::Failed(RuntimeError { line, kind: RuntimeErrorKind::StackUnderflow }));
        }
        let ghost before = self.stack@;
        let b = self.stack.pop().unwrap();
        let a = self.stack.pop().unwrap();
        assert(self.stack@ =~= before.subrange(0, before.len() - 2));
        let result = if op == OpCode::Equal {
            Value::Bool(a.equals(&b))
        } else if op == OpCode::NotEqual {
            Value::Bool(!a.equals(&b))
        } else {
            match (a, b) {
                (Value::Number(x), Value::Number(y)) => number_binary(op, x, y),
                _ => {
                    return Some(Outcome::Failed(RuntimeError { line, kind: RuntimeErrorKind::OperandsMustBeNumbers }));
                },
            }
        };
        self.stack.push(result);
        None
    }

    /// Reads the opcode at the instruction pointer and moves past it.
    fn read_instr(&mut self) -> (r: Option<OpCode>)
        requires
            old(self).ip < old(self).chunk.code_seq().len(),
        ensures
            r == op_of(old(self).chunk.code_seq()[old(self).ip as int]),
            final(self).ip == old(self).ip + 1,
            final(self).chunk == old(self).chunk,
            final(self).stack == old(self).stack,
    {
        let code = self.chunk.code();
        let len = code.len();
        let instr = code[self.ip];
        assert(self.ip + 1 <= len);
        self.ip = self.ip + 1;
        OpCode::from_byte(instr)
    }

    /// Reads a constant operand and moves past it.
    fn read_constant(&mut self) -> (r: Result<Value, RuntimeErrorKind>)
        requires
            old(self).ip <= old(self).chunk.code_seq().len(),
        ensures
            final(self).chunk == old(self).chunk,
            final(self).stack == old(self).stack,
            ({
                let code = old(self).chunk.code_seq();
                let consts = old(self).chunk.constants_seq();
                let ip = old(self).ip as int;
                if ip >= code.len() {
                    r == Err::<Value, RuntimeErrorKind>(RuntimeErrorKind::MissingOperand)
                } else if code[ip] >= consts.len() {
                    r == Err::<Value, RuntimeErrorKind>(RuntimeErrorKind::ConstantOutOfRange(code[ip]))
                } else {
                    r == Ok::<Value, RuntimeErrorKind>(consts[code[ip] as int]) && final(self).ip == ip + 1
                }
            }),
    {
        let code = self.chunk.code();
        if self.ip >= code.len() {
            return Err(RuntimeErrorKind::MissingOperand);
        }
        let index = code[self.ip];
        let constants = self.chunk.constants();
        if (index as usize) >= constants.len() {
            return Err(RuntimeErrorKind::ConstantOutOfRange(index));
        }
        self.ip = self.ip + 1;
        Ok(constants[index as usize])
    }
}

/// Applies a binary operator that takes two numbers.
fn number_binary(op: OpCode, a: u64, b: u64) -> (r: Value)
    ensures
        r == number_op(op, a, b),
{
    match op {
        OpCode::Add => Value::Number(number_add(a, b)),
        OpCode::Sub => Value::Number(number_sub(a, b)),
        OpCode::Mul => Value::Number(number_mul(a, b)),
        OpCode::Div => Value::Number(number_div(a, b)),
        OpCode::Greater => Value::Bool(number_less(b, a)),
        OpCode::GreaterEqual => Value::Bool(number_less(b, a) || number_equal(a, b)),
        OpCode::Less => Value::Bool(number_less(a, b)),
        _ => Value::Bool(number_less(a, b) || number_equal(a, b)),
    }
}

/// A number operator applied to a value that is not a number halts the
/// run at once with a type error, which carries the line written for that
/// instruction and leaves no result value.
pub proof fn lemma_type_error_halts(
    code: Seq<u8>,
    constants: Seq<Value>,
    lines: Seq<u32>,
    ip: int,
    stack: Seq<Value>,
)
    requires
        0 <= ip < code.len(),
        lines.len() == code.len(),
        op_of(code[ip]) matches Some(op) && (is_number_op(op) || op == OpCode::Neg),
    ensures
        ({
            let op = op_of(code[ip]).unwrap();
            let n = stack.len();
            &&& (is_number_op(op) && n >= 2 && !(stack[n - 2] is Number && stack[n - 1] is Number))
                ==> outcome(code, constants, lines, ip, stack) == fail(
                RuntimeErrorKind::OperandsMustBeNumbers,
                lines[ip],
            )
            &&& (op == OpCode::Neg && n >= 1 && !(stack[n - 1] is Number)) ==> outcome(
                code,
                constants,
                lines,
                ip,
                stack,
            ) == fail(RuntimeErrorKind::OperandMustBeNumber, lines[ip])
        }),
{
}

/// A run ends with a return, with a value where `with_value` holds, or with
/// a type error of the running program: never with an error that shows a
/// malformed chunk.
pub open spec fn ends_well(o: Outcome, with_value: bool) -> bool {
    match o {
        Outcome::Finished(v) => with_value ==> v is Some,
        Outcome::Failed(e) => e.kind is OperandMustBeNumber || e.kind is OperandsMustBeNumbers,
    }
}

/// Code that is clean, ends with its only return, and never takes more
/// values than the stack holds, runs without an internal error; it returns
/// a value where its static depth at the return is positive.
pub proof fn lemma_balanced_code_runs_cleanly(
    code: Seq<u8>,
    constants: Seq<Value>,
    lines: Seq<u32>,
    ip: int,
    stack: Seq<Value>,
)
    requires
        code.len() > 0,
        code.last() == byte_of(OpCode::Return),
        clean_from(code, constants.len() as int, ip),
        depth_walk(code, ip, code.len() - 1, stack.len() as int) is Some,
    ensures
        ends_well(
            outcome(code, constants, lines, ip, stack),
            depth_walk(code, ip, code.len() - 1, stack.len() as int).unwrap() > 0,
        ),
    decreases code.len() - ip,
{
    let end = code.len() - 1;
    let n = stack.len() as int;
    if ip < end {
        let op = op_of(code[ip]).unwrap();
        let next = ip + 1 + operand_width(op);
        let e = depth_walk(code, ip, end, n).unwrap();
        assert(depth_walk(code, next, end, n - pops(op) + pushes(op)) == Some(e));
        if op == OpCode::Const {
            let c = constants[code[ip + 1] as int];
            assert(stack.push(c).len() == n + 1);
            lemma_balanced_code_runs_cleanly(code, constants, lines, next, stack.push(c));
        } else if op == OpCode::Nil {
            lemma_balanced_code_runs_cleanly(code, constants, lines, next, stack.push(Value::Nil));
        } else if op == OpCode::True {
            lemma_balanced_code_runs_cleanly(code, constants, lines, next, stack.push(Value::Bool(true)));
        } else if op == OpCode::False {
            lemma_balanced_code_runs_cleanly(code, constants, lines, next, stack.push(Value::Bool(false)));
        } else if op == OpCode::Pop {
            lemma_balanced_code_runs_cleanly(code, constants, lines, next, stack.drop_last());
        } else if op == OpCode::Not {
            let s2 = stack.drop_last().push(Value::Bool(!truthy(stack.last())));
            lemma_balanced_code_runs_cleanly(code, constants, lines, next, s2);
        } else if op == OpCode::Neg {
            if let Value::Number(x) = stack.last() {
                let s2 = stack.drop_last().push(Value::Number(num_neg(x)));
                lemma_balanced_code_runs_cleanly(code, constants, lines, next, s2);
            }
        } else {
            let a = stack[n - 2];
            let b = stack[n - 1];
            let rest = stack.subrange(0, n - 2);
            if op == OpCode::Equal {
                lemma_balanced_code_runs_cleanly(code, constants, lines, next,
                    rest.push(Value::Bool(values_equal(a, b))));
            } else if op == OpCode::NotEqual {
                lemma_balanced_code_runs_cleanly(code, constants, lines, next,
                    rest.push(Value::Bool(!values_equal(a, b))));
            } else if let (Value::Number(x), Value::Number(y)) = (a, b) {
                lemma_balanced_code_runs_cleanly(code, constants, lines, next,
                    rest.push(number_op(op, x, y)));
            }
        }
    }
}

} // verus!
