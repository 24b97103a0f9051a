//! The single-pass compiler: a precedence-climbing parser that emits
//! bytecode as soon as each subexpression is parsed.
use crate::chunk::{
    clean_from, depth_walk, lemma_clean_grow, lemma_clean_push_const, lemma_clean_push_simple,
    lemma_walk_compose, lemma_walk_extend, lemma_walk_shift, Chunk,
};
use crate::number::{decimal_reading, parse_decimal};
use crate::opcode::{byte_of, OpCode};
use crate::token::{Span, Token, TokenKind};
use crate::vm::{ends_well, lemma_balanced_code_runs_cleanly};
use crate::value::Value;
use vstd::prelude::*;

verus! {

/// What a compile error is about.
#[derive(Clone, Copy, Debug, PartialEq, Eq)]
pub enum CompileErrorKind {
    /// A token that cannot start an expression.
    ExpectExpression,
    /// A group without its closing parenthesis.
    ExpectRightParen,
    /// An expression followed by neither `;` nor the end of input.
    ExpectStatementEnd,
    /// A character that the lexer could not classify.
    UnexpectedCharacter,
    /// A number literal that does not read as a number, or whose span
    /// lies outside the source.
    InvalidNumber,
    /// A constant whose pool index does not fit in one byte.
    TooManyConstants,
}

/// A compile error, with the token's span and source line.
#[derive(Clone, Copy, Debug, PartialEq, Eq)]
pub struct CompileError {
    pub kind: CompileErrorKind,
    pub span: Span,
    pub line: u32,
}

pub const PREC_ASSIGNMENT: u8 = 1;
pub const PREC_EQUALITY: u8 = 4;
pub const PREC_COMPARISON: u8 = 5;
pub const PREC_TERM: u8 = 6;
pub const PREC_FACTOR: u8 = 7;
pub const PREC_UNARY: u8 = 8;

/// The binding precedence of a token used as a binary operator; 0 for a
/// token that is none.
pub open spec fn infix_precedence(kind: TokenKind) -> u8 {
    match kind {
        TokenKind::Eq | TokenKind::Neq => PREC_EQUALITY,
        TokenKind::Gt | TokenKind::Gte | TokenKind::Lt | TokenKind::Lte => PREC_COMPARISON,
        TokenKind::Add | TokenKind::Sub => PREC_TERM,
        TokenKind::Mul | TokenKind::Div => PREC_FACTOR,
        _ => 0,
    }
}

/// The instruction that a binary operator token compiles to.
pub open spec fn infix_op(kind: TokenKind) -> OpCode {
    match kind {
        TokenKind::Eq => OpCode::Equal,
        TokenKind::Neq => OpCode::NotEqual,
        TokenKind::Gt => OpCode::Greater,
        TokenKind::Gte => OpCode::GreaterEqual,
        TokenKind::Lt => OpCode::Less,
        TokenKind::Lte => OpCode::LessEqual,
        TokenKind::Add => OpCode::Add,
        TokenKind::Sub => OpCode::Sub,
        TokenKind::Mul => OpCode::Mul,
        _ => OpCode::Div,
    }
}

/// The number of newline bytes among the first `end` bytes of `src`.
pub open spec fn newlines(src: Seq<u8>, end: int) -> nat
    decreases end,
{
    if end <= 0 || src.len() == 0 {
        0
    } else if end > src.len() {
        newlines(src, src.len() as int)
    } else {
        newlines(src, end - 1) + if src[end - 1] == 10 { 1nat } else { 0nat }
    }
}

/// The 1-based line on which byte `offset` of `src` stands, held at
/// `u32::MAX`.
pub open spec fn line_number(src: Seq<u8>, offset: int) -> u32 {
    if newlines(src, offset) + 1 >= u32::MAX {
        u32::MAX
    } else {
        (newlines(src, offset) + 1) as u32
    }
}

pub open spec fn extends<T>(long: Seq<T>, short: Seq<T>) -> bool {
    short.len() <= long.len() && forall|i: int| 0 <= i < short.len() ==> long[i] == short[i]
}

/// `after` is `before` with bytes, their lines and constants appended.
pub open spec fn appended(before: Chunk, after: Chunk) -> bool {
    &&& extends(after.code_seq(), before.code_seq())
    &&& extends(after.constants_seq(), before.constants_seq())
    &&& extends(after.lines_seq(), before.lines_seq())
    &&& after.lines_seq().len() - after.code_seq().len() == before.lines_seq().len()
        - before.code_seq().len()
}

/// The code bytes and the lines that `after` adds to `before`.
pub open spec fn added(before: Chunk, after: Chunk) -> (Seq<u8>, Seq<u32>) {
    (
        after.code_seq().subrange(before.code_seq().len() as int, after.code_seq().len() as int),
        after.lines_seq().subrange(before.lines_seq().len() as int, after.lines_seq().len() as int),
    )
}

/// Without a new error, the code that `after` adds to `before` leaves one
/// value more on the stack, and never takes more than it has pushed.
pub open spec fn pushes_one(before: Chunk, after: Chunk) -> bool {
    depth_walk(after.code_seq(), before.code_seq().len() as int, after.code_seq().len() as int, 0)
        == Some(1int)
}

/// The code from `start` on is whole, known instructions with constant
/// indices inside the pool.
pub open spec fn clean(c: Chunk, start: int) -> bool {
    clean_from(c.code_seq(), c.constants_seq().len() as int, start)
}

/// The kind of token `pos`; the end of the sequence reads as `Eof`.
pub open spec fn kind_of(tokens: Seq<Token>, pos: int) -> TokenKind {
    if 0 <= pos < tokens.len() {
        tokens[pos].kind
    } else {
        TokenKind::Eof
    }
}

/// What the recognizer expects next.
#[derive(Clone, Copy, Debug, PartialEq, Eq, Structural)]
pub enum Expecting {
    /// The start of a statement, or the end of input.
    Statement,
    /// An operand: a literal, a group, or a prefix operator.
    Operand,
    /// A binary operator, a `)` that closes a group, or the end of a
    /// statement.
    Operator,
}

/// A number literal whose span lies in `src` and whose text reads as a
/// number.
pub open spec fn literal_ok(src: Seq<u8>, t: Token) -> bool {
    &&& t.span.start <= t.span.end <= src.len()
    &&& decimal_reading(src.subrange(t.span.start as int, t.span.end as int)) is Some
}

/// Whether the tokens from `pos` on, up to the first `Eof`, complete a
/// program, starting in state `mode` inside `depth` open groups with `n`
/// constants in the pool: statements are expressions separated by `;`,
/// every number literal reads, and every constant index fits in one byte.
pub open spec fn accepts(
    tokens: Seq<Token>,
    src: Seq<u8>,
    pos: int,
    mode: Expecting,
    depth: int,
    n: int,
) -> bool
    decreases tokens.len() - pos,
{
    let t = kind_of(tokens, pos);
    if pos < 0 || depth < 0 {
        false
    } else if pos >= tokens.len() || t == TokenKind::Eof {
        mode != Expecting::Operand && depth == 0
    } else if mode == Expecting::Operator {
        if infix_precedence(t) > 0 {
            accepts(tokens, src, pos + 1, Expecting::Operand, depth, n)
        } else if t == TokenKind::RParen && depth > 0 {
            accepts(tokens, src, pos + 1, Expecting::Operator, depth - 1, n)
        } else if t == TokenKind::Semicolon && depth == 0 {
            accepts(tokens, src, pos + 1, Expecting::Statement, 0, n)
        } else {
            false
        }
    } else {
        if t == TokenKind::Sub || t == TokenKind::Not {
            accepts(tokens, src, pos + 1, Expecting::Operand, depth, n)
        } else if t == TokenKind::LParen {
            accepts(tokens, src, pos + 1, Expecting::Operand, depth + 1, n)
        } else if t == TokenKind::True || t == TokenKind::False || t == TokenKind::Nil {
            accepts(tokens, src, pos + 1, Expecting::Operator, depth, n)
        } else if t == TokenKind::Number {
            literal_ok(src, tokens[pos]) && n < 256 && accepts(
                tokens,
                src,
                pos + 1,
                Expecting::Operator,
                depth,
                n + 1,
            )
        } else {
            false
        }
    }
}

/// The values of the number literals among tokens `a` to `b`, in order.
pub open spec fn literals(tokens: Seq<Token>, src: Seq<u8>, a: int, b: int) -> Seq<Value>
    decreases b - a,
{
    if b <= a {
        Seq::empty()
    } else {
        let before = literals(tokens, src, a, b - 1);
        let t = tokens[b - 1];
        if kind_of(tokens, b - 1) == TokenKind::Number {
            before.push(
                Value::Number(
                    decimal_reading(src.subrange(t.span.start as int, t.span.end as int)).unwrap(),
                ),
            )
        } else {
            before
        }
    }
}

/// The position of the first `Eof` token at or after `pos`, or the length
/// of the sequence where there is none.
pub open spec fn end_of_input(tokens: Seq<Token>, pos: int) -> int
    decreases tokens.len() - pos,
{
    if pos < 0 || pos >= tokens.len() || tokens[pos].kind == TokenKind::Eof {
        pos
    } else {
        end_of_input(tokens, pos + 1)
    }
}

/// The literals of `a` to `b` followed by those of `b` to `c` are those of
/// `a` to `c`.
pub proof fn lemma_literals_concat(tokens: Seq<Token>, src: Seq<u8>, a: int, b: int, c: int)
    requires
        a <= b <= c,
    ensures
        literals(tokens, src, a, b) + literals(tokens, src, b, c) == literals(tokens, src, a, c),
    decreases c - b,
{
    if b == c {
        assert(literals(tokens, src, a, b) + literals(tokens, src, b, c) =~= literals(tokens, src, a, c));
    } else {
        lemma_literals_concat(tokens, src, a, b, c - 1);
        assert(literals(tokens, src, a, b) + literals(tokens, src, b, c) =~= literals(tokens, src, a, c));
    }
}

/// The source line of token `pos`.
pub open spec fn token_line(tokens: Seq<Token>, src: Seq<u8>, pos: int) -> u32 {
    line_number(src, tokens[pos].span.start as int)
}

/// The length of `src` as a 32-bit offset, held at `u32::MAX`.
pub open spec fn end_offset_of(src: Seq<u8>) -> u32 {
    if src.len() > u32::MAX {
        u32::MAX
    } else {
        src.len() as u32
    }
}

/// The line given to the final return: that of the token at `pos`, or of
/// the end of the source.
pub open spec fn end_line(tokens: Seq<Token>, src: Seq<u8>, pos: int) -> u32 {
    if 0 <= pos < tokens.len() {
        token_line(tokens, src, pos)
    } else {
        line_number(src, end_offset_of(src) as int)
    }
}

/// The instruction of a prefix token: `-` negates, `!` inverts truthiness,
/// a literal keyword loads its value.
pub open spec fn prefix_op(kind: TokenKind) -> OpCode {
    match kind {
        TokenKind::True => OpCode::True,
        TokenKind::False => OpCode::False,
        TokenKind::Nil => OpCode::Nil,
        TokenKind::Sub => OpCode::Neg,
        _ => OpCode::Not,
    }
}

/// Parsing the expression that starts at token `pos`, whose binary
/// operators bind at least as tightly as `min`, with the pool holding `n`
/// constants: the position after it, its code bytes in postfix order, the
/// line of each byte, the pool size after it, and whether it held no
/// error. An operand is emitted before the operator that uses it, and each
/// binary operator after both of its operands, so that tighter operators
/// come first and equal ones group to the left. After an error the parse
/// goes on as far as it would have; the code is then of no account.
pub open spec fn expr_code(tokens: Seq<Token>, src: Seq<u8>, pos: int, min: int, n: int) -> (
    int,
    Seq<u8>,
    Seq<u32>,
    int,
    bool,
)
    decreases tokens.len() - pos, 1int,
{
    if pos < 0 || pos >= tokens.len() || tokens[pos].kind == TokenKind::Eof {
        (pos, Seq::empty(), Seq::empty(), n, false)
    } else {
        let t = tokens[pos].kind;
        let line = token_line(tokens, src, pos);
        if t == TokenKind::Number {
            if !literal_ok(src, tokens[pos]) {
                operator_chain(tokens, src, (pos + 1, Seq::empty(), Seq::empty(), n, false), min)
            } else if n >= 256 {
                operator_chain(tokens, src, (pos + 1, Seq::empty(), Seq::empty(), n + 1, false), min)
            } else {
                operator_chain(
                    tokens,
                    src,
                    (pos + 1, seq![byte_of(OpCode::Const), n as u8], seq![line, line], n + 1, true),
                    min,
                )
            }
        } else if t == TokenKind::True || t == TokenKind::False || t == TokenKind::Nil {
            operator_chain(tokens, src, (pos + 1, seq![byte_of(prefix_op(t))], seq![line], n, true), min)
        } else if t == TokenKind::Sub || t == TokenKind::Not {
            let inner = expr_code(tokens, src, pos + 1, PREC_UNARY as int, n);
            if inner.0 <= pos || inner.0 > tokens.len() {
                (pos, Seq::empty(), Seq::empty(), n, false)
            } else {
                operator_chain(
                    tokens,
                    src,
                    (inner.0, inner.1.push(byte_of(prefix_op(t))), inner.2.push(line), inner.3, inner.4),
                    min,
                )
            }
        } else if t == TokenKind::LParen {
            let inner = expr_code(tokens, src, pos + 1, PREC_ASSIGNMENT as int, n);
            if inner.0 <= pos || inner.0 > tokens.len() {
                (pos, Seq::empty(), Seq::empty(), n, false)
            } else if kind_of(tokens, inner.0) == TokenKind::RParen {
                operator_chain(tokens, src, (inner.0 + 1, inner.1, inner.2, inner.3, inner.4), min)
            } else {
                operator_chain(tokens, src, (inner.0, inner.1, inner.2, inner.3, false), min)
            }
        } else {
            (pos + 1, Seq::empty(), Seq::empty(), n, false)
        }
    }
}

/// Extends the parse of a left operand, `left`, with each following binary
/// operator that binds at least as tightly as `min`: its right operand,
/// parsed one level tighter, then the operator.
pub open spec fn operator_chain(
    tokens: Seq<Token>,
    src: Seq<u8>,
    left: (int, Seq<u8>, Seq<u32>, int, bool),
    min: int,
) -> (int, Seq<u8>, Seq<u32>, int, bool)
    decreases tokens.len() - left.0, 0int,
{
    let t = kind_of(tokens, left.0);
    let p = infix_precedence(t) as int;
    if left.0 < 0 || left.0 >= tokens.len() || p == 0 || p < min {
        left
    } else {
        let rhs = expr_code(tokens, src, left.0 + 1, p + 1, left.3);
        if rhs.0 <= left.0 || rhs.0 > tokens.len() {
            left
        } else {
            operator_chain(
                tokens,
                src,
                (
                    rhs.0,
                    left.1 + rhs.1.push(byte_of(infix_op(t))),
                    left.2 + rhs.2.push(token_line(tokens, src, left.0)),
                    rhs.3,
                    left.4 && rhs.4,
                ),
                min,
            )
        }
    }
}

/// Where recovery after an error resumes: just after a `;`, at a keyword
/// that starts a statement, or at the end of input.
pub open spec fn sync_from(tokens: Seq<Token>, pos: int) -> int
    decreases tokens.len() - pos,
{
    if pos < 0 || pos >= tokens.len() {
        pos
    } else if pos > 0 && tokens[pos - 1].kind == TokenKind::Semicolon {
        pos
    } else if starts_clause(tokens[pos].kind) {
        pos
    } else {
        sync_from(tokens, pos + 1)
    }
}

/// A keyword that starts a statement, or the end of input.
pub open spec fn starts_clause(kind: TokenKind) -> bool {
    kind == TokenKind::Class || kind == TokenKind::Fun || kind == TokenKind::Var || kind
        == TokenKind::For || kind == TokenKind::If || kind == TokenKind::While || kind
        == TokenKind::Print || kind == TokenKind::Return || kind == TokenKind::Eof
}

/// The number of compile errors from token `pos` on: one for each
/// statement that fails, after which parsing resumes where `sync_from`
/// says.
pub open spec fn error_count(tokens: Seq<Token>, src: Seq<u8>, pos: int, n: int) -> nat
    decreases tokens.len() - pos,
{
    if pos < 0 || pos >= tokens.len() || tokens[pos].kind == TokenKind::Eof {
        0
    } else {
        let e = expr_code(tokens, src, pos, PREC_ASSIGNMENT as int, n);
        let t = kind_of(tokens, e.0);
        let after = if t == TokenKind::Semicolon { e.0 + 1 } else { e.0 };
        let bad = !e.4 || !(t == TokenKind::Semicolon || t == TokenKind::Eof);
        let next = if bad { sync_from(tokens, after) } else { after };
        if next <= pos || next > tokens.len() {
            0
        } else {
            (if bad { 1nat } else { 0nat }) + error_count(tokens, src, next, e.3)
        }
    }
}

/// The code and lines of the statements from token `pos` on, with the pool
/// holding `n` constants: each expression, a `Pop` before every statement
/// but the first, and a final `Return`.
pub open spec fn statements_code(tokens: Seq<Token>, src: Seq<u8>, pos: int, n: int, first: bool) -> (
    Seq<u8>,
    Seq<u32>,
)
    decreases tokens.len() - pos,
{
    if pos < 0 || pos >= tokens.len() || tokens[pos].kind == TokenKind::Eof {
        (seq![byte_of(OpCode::Return)], seq![end_line(tokens, src, pos)])
    } else {
        let e = expr_code(tokens, src, pos, PREC_ASSIGNMENT as int, n);
        let next = if kind_of(tokens, e.0) == TokenKind::Semicolon { e.0 + 1 } else { e.0 };
        let pop: Seq<u8> = if first { Seq::empty() } else { seq![byte_of(OpCode::Pop)] };
        let pop_line: Seq<u32> = if first { Seq::empty() } else { seq![token_line(tokens, src, pos)] };
        if next <= pos || next > tokens.len() {
            (seq![byte_of(OpCode::Return)], seq![end_line(tokens, src, pos)])
        } else {
            let rest = statements_code(tokens, src, next, e.3, false);
            (pop + e.1 + rest.0, pop_line + e.2 + rest.1)
        }
    }
}

/// The code bytes and their lines that a program compiles to, with
/// constant indices numbered from `n` in literal order.
pub open spec fn emitted(tokens: Seq<Token>, src: Seq<u8>, n: int) -> (Seq<u8>, Seq<u32>) {
    statements_code(tokens, src, 0, n, true)
}

/// The tokens form a program that compiles into a pool that already holds
/// `n` constants.
pub open spec fn valid_program(tokens: Seq<Token>, src: Seq<u8>, n: int) -> bool {
    accepts(tokens, src, 0, Expecting::Statement, 0, n)
}

fn kind_at(tokens: &[Token], pos: usize) -> (r: TokenKind)
    ensures
        r == kind_of(tokens@, pos as int),
{
    if pos < tokens.len() {
        tokens[pos].kind
    } else {
        TokenKind::Eof
    }
}

/// The source line of byte `offset`.
pub fn line_of(src: &[u8], offset: u32) -> (r: u32)
    ensures
        r == line_number(src@, offset as int),
{
    let end: usize = if (offset as usize) < src.len() { offset as usize } else { src.len() };
    let mut count: usize = 0;
    let mut i: usize = 0;
    while i < end
        invariant
            end <= src@.len(),
            i <= end,
            count == newlines(src@, i as int),
            count <= i,
        decreases end - i,
    {
        if src[i] == 10 {
            count = count + 1;
        }
        i = i + 1;
    }
    assert(newlines(src@, offset as int) == newlines(src@, end as int));
    if count >= (u32::MAX - 1) as usize {
        u32::MAX
    } else {
        (count + 1) as u32
    }
}

/// The length of `src` as a 32-bit offset, held at `u32::MAX`.
fn end_offset(src: &[u8]) -> (r: u32)
    ensures
        r == end_offset_of(src@),
{
    if src.len() > u32::MAX as usize {
        u32::MAX
    } else {
        src.len() as u32
    }
}

struct Parser {
    pos: usize,
    errors: Vec<CompileError>,
    panic_mode: bool,
}

impl Parser {
    /// Moves past the current token.
    fn advance(&mut self, tokens: &[Token])
        requires
            old(self).pos < tokens@.len(),
        ensures
            final(self).pos == old(self).pos + 1,
            final(self).errors == old(self).errors,
            final(self).panic_mode == old(self).panic_mode,
    {
        let count = tokens.len();
        assert(self.pos < count);
        self.pos = self.pos + 1;
    }

    /// Records an error at token `at`, unless an earlier error has not yet
    /// been recovered from.
    fn error_at(&mut self, tokens: &[Token], src: &[u8], at: usize, kind: CompileErrorKind)
        ensures
            final(self).pos == old(self).pos,
            final(self).panic_mode,
            !old(self).panic_mode ==> final(self).errors@.len() == old(self).errors@.len() + 1,
            final(self).errors@.len() >= old(self).errors@.len(),
            old(self).panic_mode ==> final(self).errors == old(self).errors,
            !old(self).panic_mode ==> final(self).errors@.last().kind == kind,
    {
        if self.panic_mode {
            return;
        }
        self.panic_mode = true;
        let span = if at < tokens.len() {
            tokens[at].span
        } else {
            let end = end_offset(src);
            Span { start: end, end }
        };
        let line = line_of(src, span.start);
        self.errors.push(CompileError { kind, span, line });
    }

    fn emit_op(chunk: &mut Chunk, op: OpCode, line: u32, start: Ghost<int>)
        requires
            clean(*old(chunk), start@),
            op != OpCode::Const,
        ensures
            clean(*final(chunk), start@),
            appended(*old(chunk), *final(chunk)),
            final(chunk).code_seq() == old(chunk).code_seq().push(byte_of(op)),
            final(chunk).lines_seq() == old(chunk).lines_seq().push(line),
            final(chunk).constants_seq() == old(chunk).constants_seq(),
    {
        proof {
            lemma_clean_push_simple(chunk.code_seq(), chunk.constants_seq().len() as int, start@, byte_of(op));
        }
        chunk.write(op.to_byte(), line);
    }

    /// Compiles a number literal: its constant and a load of it.
    fn number(
        &mut self,
        tokens: &[Token],
        src: &[u8],
        chunk: &mut Chunk,
        at: usize,
        start: Ghost<int>,
        depth: Ghost<int>,
    )
        requires
            at < tokens@.len(),
            tokens@[at as int].kind == TokenKind::Number,
            depth@ >= 0,
            clean(*old(chunk), start@),
        ensures
            !final(self).panic_mode ==> accepts(
                tokens@,
                src@,
                at as int,
                Expecting::Operand,
                depth@,
                old(chunk).constants_seq().len() as int,
            ) == accepts(
                tokens@,
                src@,
                at + 1,
                Expecting::Operator,
                depth@,
                final(chunk).constants_seq().len() as int,
            ),
            final(self).panic_mode && !old(self).panic_mode ==> !accepts(
                tokens@,
                src@,
                at as int,
                Expecting::Operand,
                depth@,
                old(chunk).constants_seq().len() as int,
            ),
            clean(*final(chunk), start@),
            appended(*old(chunk), *final(chunk)),
            final(self).pos == old(self).pos,
            final(self).errors@.len() >= old(self).errors@.len(),
            !final(self).panic_mode ==> pushes_one(*old(chunk), *final(chunk)),
            old(self).panic_mode ==> final(self).panic_mode,
            final(self).panic_mode && !old(self).panic_mode ==> final(self).errors@.len() == old(
                self,
            ).errors@.len() + 1,
            old(self).panic_mode ==> final(self).errors@.len() == old(self).errors@.len(),
            !final(self).panic_mode ==> final(self).errors@.len() == old(self).errors@.len(),
            !final(self).panic_mode ==> final(chunk).constants_seq() == old(chunk).constants_seq()
                + literals(tokens@, src@, at as int, at + 1),
            literal_ok(src@, tokens@[at as int]) && old(chunk).constants_seq().len() < 256
                ==> final(chunk).code_seq() == old(chunk).code_seq().push(
                byte_of(OpCode::Const),
            ).push(old(chunk).constants_seq().len() as u8),
            literal_ok(src@, tokens@[at as int]) && old(chunk).constants_seq().len() < 256
                ==> final(chunk).lines_seq() == old(chunk).lines_seq().push(
                token_line(tokens@, src@, at as int),
            ).push(token_line(tokens@, src@, at as int)),
            final(chunk).constants_seq().len() as int == if literal_ok(src@, tokens@[at as int]) {
                old(chunk).constants_seq().len() + 1int
            } else {
                old(chunk).constants_seq().len() as int
            },
            !old(self).panic_mode ==> (final(self).panic_mode <==> !(literal_ok(src@, tokens@[at as int])
                && old(chunk).constants_seq().len() < 256)),
    {
        let token = tokens[at];
        let line = line_of(src, token.span.start);
        if !(token.span.start <= token.span.end && (token.span.end as usize) <= src.len()) {
            self.error_at(tokens, src, at, CompileErrorKind::InvalidNumber);
            return;
        }
        let bits = match parse_decimal(token.lit(src)) {
            Some(b) => b,
            None => {
                self.error_at(tokens, src, at, CompileErrorKind::InvalidNumber);
                return;
            },
        };
        let ghost before = *chunk;
        let index = chunk.add_constant(Value::Number(bits));
        proof {
            lemma_clean_grow(before.code_seq(), before.constants_seq().len() as int,
                chunk.constants_seq().len() as int, start@);
        }
        if index > 255 {
            self.error_at(tokens, src, at, CompileErrorKind::TooManyConstants);
            return;
        }
        let ghost mid = *chunk;
        proof {
            lemma_clean_push_const(chunk.code_seq(), chunk.constants_seq().len() as int, start@, index as u8);
        }
        chunk.write(OpCode::Const.to_byte(), line);
        chunk.write(index as u8, line);
        assert(chunk.code_seq() == mid.code_seq().push(byte_of(OpCode::Const)).push(index as u8));
        assert(chunk.code_seq()[mid.code_seq().len() as int] == byte_of(OpCode::Const));
        let ghost l = mid.code_seq().len() as int;
        assert(depth_walk(chunk.code_seq(), l + 2, l + 2, 1) == Some(1int));
        assert(literals(tokens@, src@, at as int, at as int) =~= Seq::<Value>::empty());
        assert(literals(tokens@, src@, at as int, at + 1) =~= seq![Value::Number(bits)]);
        assert(chunk.constants_seq() =~= before.constants_seq() + literals(tokens@, src@, at as int, at + 1));
    }

    /// Parses an expression whose operators bind at least as tightly as
    /// `min`, emitting its code. Without a new error, the code emitted
    /// leaves exactly one value more on the stack.
    fn parse_precedence(
        &mut self,
        tokens: &[Token],
        src: &[u8],
        chunk: &mut Chunk,
        min: u8,
        start: Ghost<int>,
        depth: Ghost<int>,
    )
        requires
            old(self).pos <= tokens@.len(),
            min >= 1,
            depth@ >= 0,
            clean(*old(chunk), start@),
        ensures
            !final(self).panic_mode ==> accepts(
                tokens@,
                src@,
                old(self).pos as int,
                Expecting::Operand,
                depth@,
                old(chunk).constants_seq().len() as int,
            ) == accepts(
                tokens@,
                src@,
                final(self).pos as int,
                Expecting::Operator,
                depth@,
                final(chunk).constants_seq().len() as int,
            ),
            !final(self).panic_mode ==> final(chunk).constants_seq() == old(chunk).constants_seq()
                + literals(tokens@, src@, old(self).pos as int, final(self).pos as int),
            !final(self).panic_mode ==> end_of_input(tokens@, old(self).pos as int) == end_of_input(
                tokens@,
                final(self).pos as int,
            ),
            final(self).pos == expr_code(
                tokens@,
                src@,
                old(self).pos as int,
                min as int,
                old(chunk).constants_seq().len() as int,
            ).0,
            final(chunk).constants_seq().len() == expr_code(
                tokens@,
                src@,
                old(self).pos as int,
                min as int,
                old(chunk).constants_seq().len() as int,
            ).3,
            expr_code(tokens@, src@, old(self).pos as int, min as int, old(chunk).constants_seq().len() as int).4
                ==> added(*old(chunk), *final(chunk)) == (
                expr_code(tokens@, src@, old(self).pos as int, min as int, old(chunk).constants_seq().len() as int).1,
                expr_code(tokens@, src@, old(self).pos as int, min as int, old(chunk).constants_seq().len() as int).2,
            ),
            !old(self).panic_mode ==> (final(self).panic_mode <==> !expr_code(
                tokens@,
                src@,
                old(self).pos as int,
                min as int,
                old(chunk).constants_seq().len() as int,
            ).4),
            !final(self).panic_mode ==> infix_precedence(kind_of(tokens@, final(self).pos as int)) == 0
                || infix_precedence(kind_of(tokens@, final(self).pos as int)) < min,
            final(self).panic_mode && !old(self).panic_mode ==> !accepts(
                tokens@,
                src@,
                old(self).pos as int,
                Expecting::Operand,
                depth@,
                old(chunk).constants_seq().len() as int,
            ),
            old(self).pos <= final(self).pos <= tokens@.len(),
            (if old(self).pos < tokens@.len() { tokens@[old(self).pos as int].kind } else { TokenKind::Eof })
                != TokenKind::Eof ==> old(self).pos < final(self).pos,
            clean(*final(chunk), start@),
            appended(*old(chunk), *final(chunk)),
            final(self).errors@.len() >= old(self).errors@.len(),
            !final(self).panic_mode ==> pushes_one(*old(chunk), *final(chunk)),
            old(self).panic_mode ==> final(self).panic_mode,
            final(self).panic_mode && !old(self).panic_mode ==> final(self).errors@.len() == old(
                self,
            ).errors@.len() + 1,
            old(self).panic_mode ==> final(self).errors@.len() == old(self).errors@.len(),
            !final(self).panic_mode ==> final(self).errors@.len() == old(self).errors@.len(),
        decreases tokens@.len() - old(self).pos,
    {
        let at = self.pos;
        let kind = kind_at(tokens, at);
        if kind == TokenKind::Eof {
            assert(!accepts(tokens@, src@, at as int, Expecting::Operand, depth@,
                chunk.constants_seq().len() as int));
            self.error_at(tokens, src, at, CompileErrorKind::ExpectExpression);
            return;
        }
        self.advance(tokens);
        let line = line_of(src, tokens[at].span.start);
        let ghost c0 = *chunk;
        let ghost l0 = c0.code_seq().len() as int;
        let ghost n0 = c0.constants_seq().len() as int;
        let ghost k = tokens@;
        let ghost text = src@;
        let ghost mut left: (int, Seq<u8>, Seq<u32>, int, bool) = (at as int, Seq::empty(), Seq::empty(), n0, false);
        assert(kind_of(k, at as int) == kind);
        assert(end_of_input(k, at as int) == end_of_input(k, at + 1));
        assert(literals(k, text, at as int, at as int) =~= Seq::<Value>::empty());
        assert(kind != TokenKind::Number ==> literals(k, text, at as int, at + 1) =~= Seq::<Value>::empty());
        match kind {
            TokenKind::Number => {
                self.number(tokens, src, chunk, at, start, depth);
                proof {
                    if !literal_ok(text, k[at as int]) {
                        left = (at + 1, Seq::empty(), Seq::empty(), n0, false);
                    } else if n0 >= 256 {
                        left = (at + 1, Seq::empty(), Seq::empty(), n0 + 1, false);
                    } else {
                        assert(added(c0, *chunk).0 =~= seq![byte_of(OpCode::Const), n0 as u8]);
                        assert(added(c0, *chunk).1 =~= seq![line, line]);
                        left = (at + 1, seq![byte_of(OpCode::Const), n0 as u8], seq![line, line], n0 + 1, true);
                    }
                }
            },
            TokenKind::LParen => {
                assert(accepts(k, text, at as int, Expecting::Operand, depth@, n0) == accepts(
                    k, text, at + 1, Expecting::Operand, depth@ + 1, n0));
                let ghost inner = expr_code(k, text, at + 1, PREC_ASSIGNMENT as int, n0);
                self.parse_precedence(tokens, src, chunk, PREC_ASSIGNMENT, start, Ghost(depth@ + 1));
                let ghost p = self.pos as int;
                let ghost n1 = chunk.constants_seq().len() as int;
                assert(accepts(k, text, p, Expecting::Operator, depth@ + 1, n1) == if kind_of(k, p)
                    == TokenKind::RParen {
                    accepts(k, text, p + 1, Expecting::Operator, depth@, n1)
                } else {
                    infix_precedence(kind_of(k, p)) > 0 && accepts(k, text, p + 1, Expecting::Operand,
                        depth@ + 1, n1)
                });
                if kind_at(tokens, self.pos) == TokenKind::RParen {
                    assert(end_of_input(k, p) == end_of_input(k, p + 1));
                    assert(literals(k, text, p, p) =~= Seq::<Value>::empty());
                    assert(literals(k, text, p, p + 1) =~= Seq::<Value>::empty());
                    proof {
                        if !self.panic_mode {
                            lemma_literals_concat(k, text, at as int, at + 1, p);
                            lemma_literals_concat(k, text, at as int, p, p + 1);
                            assert(chunk.constants_seq() =~= c0.constants_seq() + literals(k, text,
                                at as int, p + 1));
                            assert(p < k.len());
                        }
                        left = (inner.0 + 1, inner.1, inner.2, inner.3, inner.4);
                    }
                    self.advance(tokens);
                } else {
                    let here = self.pos;
                    self.error_at(tokens, src, here, CompileErrorKind::ExpectRightParen);
                    proof {
                        left = (inner.0, inner.1, inner.2, inner.3, false);
                    }
                }
            },
            TokenKind::Sub | TokenKind::Not => {
                assert(accepts(k, text, at as int, Expecting::Operand, depth@, n0) == accepts(
                    k, text, at + 1, Expecting::Operand, depth@, n0));
                let ghost inner = expr_code(k, text, at + 1, PREC_UNARY as int, n0);
                self.parse_precedence(tokens, src, chunk, PREC_UNARY, start, depth);
                let op = if kind == TokenKind::Sub { OpCode::Neg } else { OpCode::Not };
                let ghost c1 = *chunk;
                Self::emit_op(chunk, op, line, start);
                proof {
                    if !self.panic_mode {
                        lemma_literals_concat(k, text, at as int, at + 1, self.pos as int);
                        assert(chunk.constants_seq() =~= c0.constants_seq() + literals(k, text, at as int,
                            self.pos as int));
                        let l1 = c1.code_seq().len() as int;
                        lemma_walk_extend(c1.code_seq(), chunk.code_seq(), l0, l1, 0);
                        lemma_walk_compose(chunk.code_seq(), l0, l1, l1 + 1, 0);
                        assert(chunk.code_seq()[l1] == byte_of(op));
                        assert(depth_walk(chunk.code_seq(), l1 + 1, l1 + 1, 1) == Some(1int));
                    }
                    assert(op == prefix_op(kind));
                    if inner.4 {
                        assert(added(c0, *chunk).0 =~= added(c0, c1).0.push(byte_of(op)));
                        assert(added(c0, *chunk).1 =~= added(c0, c1).1.push(line));
                    }
                    left = (inner.0, inner.1.push(byte_of(op)), inner.2.push(line), inner.3, inner.4);
                }
            },
            TokenKind::True | TokenKind::False | TokenKind::Nil => {
                let op = if kind == TokenKind::True {
                    OpCode::True
                } else if kind == TokenKind::False {
                    OpCode::False
                } else {
                    OpCode::Nil
                };
                assert(accepts(k, text, at as int, Expecting::Operand, depth@, n0) == accepts(
                    k, text, at + 1, Expecting::Operator, depth@, n0));
                Self::emit_op(chunk, op, line, start);
                assert(chunk.code_seq()[l0] == byte_of(op));
                assert(chunk.constants_seq() =~= c0.constants_seq() + literals(k, text, at as int, at + 1));
                assert(depth_walk(chunk.code_seq(), l0 + 1, l0 + 1, 1) == Some(1int));
                assert(op == prefix_op(kind));
                assert(added(c0, *chunk).0 =~= seq![byte_of(op)]);
                assert(added(c0, *chunk).1 =~= seq![line]);
                proof {
                    left = (at + 1, seq![byte_of(op)], seq![line], n0, true);
                }
            },
            TokenKind::Error => {
                assert(!accepts(k, text, at as int, Expecting::Operand, depth@, n0));
                self.error_at(tokens, src, at, CompileErrorKind::UnexpectedCharacter);
                return;
            },
            _ => {
                assert(!accepts(k, text, at as int, Expecting::Operand, depth@, n0));
                self.error_at(tokens, src, at, CompileErrorKind::ExpectExpression);
                return;
            },
        }
        loop
            invariant
                at < self.pos <= tokens@.len(),
                old(self).pos == at,
                l0 == old(chunk).code_seq().len(),
                n0 == old(chunk).constants_seq().len(),
                k == tokens@,
                text == src@,
                depth@ >= 0,
                !self.panic_mode ==> accepts(
                    tokens@,
                    src@,
                    at as int,
                    Expecting::Operand,
                    depth@,
                    old(chunk).constants_seq().len() as int,
                ) == accepts(
                    tokens@,
                    src@,
                    self.pos as int,
                    Expecting::Operator,
                    depth@,
                    chunk.constants_seq().len() as int,
                ),
                self.panic_mode && !old(self).panic_mode ==> !accepts(
                    tokens@,
                    src@,
                    at as int,
                    Expecting::Operand,
                    depth@,
                    old(chunk).constants_seq().len() as int,
                ),
                min >= 1,
                clean(*chunk, start@),
                appended(*old(chunk), *chunk),
                self.errors@.len() >= old(self).errors@.len(),
                !self.panic_mode ==> pushes_one(*old(chunk), *chunk),
                old(self).panic_mode ==> self.panic_mode,
                self.panic_mode && !old(self).panic_mode ==> self.errors@.len() == old(self).errors@.len() + 1,
                old(self).panic_mode ==> self.errors@.len() == old(self).errors@.len(),
                !self.panic_mode ==> self.errors@.len() == old(self).errors@.len(),
                !self.panic_mode ==> chunk.constants_seq() == old(chunk).constants_seq() + literals(
                    tokens@,
                    src@,
                    at as int,
                    self.pos as int,
                ),
                !self.panic_mode ==> end_of_input(tokens@, at as int) == end_of_input(
                    tokens@,
                    self.pos as int,
                ),
                left.0 == self.pos,
                left.3 == chunk.constants_seq().len(),
                expr_code(k, text, at as int, min as int, n0) == operator_chain(k, text, left, min as int),
                left.4 ==> added(*old(chunk), *chunk) == (left.1, left.2),
                !old(self).panic_mode ==> (self.panic_mode <==> !left.4),
                old(self).panic_mode ==> self.panic_mode,
            ensures
                expr_code(k, text, at as int, min as int, n0) == left,
                infix_precedence(kind_of(tokens@, self.pos as int)) == 0 || infix_precedence(
                    kind_of(tokens@, self.pos as int),
                ) < min,
            decreases tokens@.len() - self.pos,
        {
            let next = kind_at(tokens, self.pos);
            let prec = infix_precedence_of(next);
            if prec == 0 || prec < min {
                assert(operator_chain(k, text, left, min as int) == left);
                break;
            }
            let op_at = self.pos;
            assert(end_of_input(k, op_at as int) == end_of_input(k, op_at + 1));
            assert(literals(k, text, op_at as int, op_at as int) =~= Seq::<Value>::empty());
            assert(literals(k, text, op_at as int, op_at + 1) =~= Seq::<Value>::empty());
            assert(accepts(k, text, op_at as int, Expecting::Operator, depth@,
                chunk.constants_seq().len() as int) == accepts(k, text, op_at + 1, Expecting::Operand,
                depth@, chunk.constants_seq().len() as int));
            self.advance(tokens);
            let op_line = line_of(src, tokens[op_at].span.start);
            let ghost cb = *chunk;
            let ghost rhs = expr_code(k, text, op_at + 1, prec + 1, left.3);
            let ghost before_left = left;
            self.parse_precedence(tokens, src, chunk, prec + 1, start, depth);
            let ghost cr = *chunk;
            let op = infix_op_of(next);
            Self::emit_op(chunk, op, op_line, start);
            proof {
                if before_left.4 && rhs.4 {
                    assert(added(*old(chunk), *chunk).0 =~= added(*old(chunk), cb).0 + added(cb, cr).0.push(
                        byte_of(op)));
                    assert(added(*old(chunk), *chunk).1 =~= added(*old(chunk), cb).1 + added(cb, cr).1.push(
                        op_line));
                }
                left = (rhs.0, before_left.1 + rhs.1.push(byte_of(op)), before_left.2 + rhs.2.push(op_line),
                    rhs.3, before_left.4 && rhs.4);
                if !self.panic_mode {
                    lemma_literals_concat(k, text, at as int, op_at as int, op_at + 1);
                    lemma_literals_concat(k, text, at as int, op_at + 1, self.pos as int);
                    assert(chunk.constants_seq() =~= old(chunk).constants_seq() + literals(k, text,
                        at as int, self.pos as int));
                    let m = cb.code_seq().len() as int;
                    let r = cr.code_seq().len() as int;
                    let c = chunk.code_seq();
                    lemma_walk_extend(cb.code_seq(), c, l0, m, 0);
                    lemma_walk_compose(c, l0, m, r + 1, 0);
                    lemma_walk_extend(cr.code_seq(), c, m, r, 0);
                    lemma_walk_shift(c, m, r, 0, 1);
                    lemma_walk_compose(c, m, r, r + 1, 1);
                    assert(c[r] == byte_of(op));
                    assert(depth_walk(c, r + 1, r + 1, 1) == Some(1int));
                }
            }
        }
    }

    /// Skips tokens to a statement boundary: just after a `;`, or before a
    /// keyword that starts a statement, or at the end of input.
    fn synchronize(&mut self, tokens: &[Token])
        requires
            old(self).pos <= tokens@.len(),
        ensures
            old(self).pos <= final(self).pos <= tokens@.len(),
            !final(self).panic_mode,
            final(self).errors == old(self).errors,
            final(self).pos == sync_from(tokens@, old(self).pos as int),
    {
        self.panic_mode = false;
        while self.pos < tokens.len()
            invariant
                old(self).pos <= self.pos <= tokens@.len(),
                sync_from(tokens@, old(self).pos as int) == sync_from(tokens@, self.pos as int),
                !self.panic_mode,
                self.errors == old(self).errors,
            decreases tokens@.len() - self.pos,
        {
            if self.pos > 0 && tokens[self.pos - 1].kind == TokenKind::Semicolon {
                return;
            }
            match tokens[self.pos].kind {
                TokenKind::Class | TokenKind::Fun | TokenKind::Var | TokenKind::For | TokenKind::If
                | TokenKind::While | TokenKind::Print | TokenKind::Return | TokenKind::Eof => return,
                _ => {},
            }
            assert(sync_from(tokens@, self.pos as int) == sync_from(tokens@, self.pos + 1));
            self.advance(tokens);
        }
    }
}

fn infix_precedence_of(kind: TokenKind) -> (r: u8)
    ensures
        r == infix_precedence(kind),
        r <= PREC_FACTOR,
{
    match kind {
        TokenKind::Eq | TokenKind::Neq => PREC_EQUALITY,
        TokenKind::Gt | TokenKind::Gte | TokenKind::Lt | TokenKind::Lte => PREC_COMPARISON,
        TokenKind::Add | TokenKind::Sub => PREC_TERM,
        TokenKind::Mul | TokenKind::Div => PREC_FACTOR,
        _ => 0,
    }
}

fn infix_op_of(kind: TokenKind) -> (r: OpCode)
    ensures
        r == infix_op(kind),
        r != OpCode::Const,
{
    match kind {
        TokenKind::Eq => OpCode::Equal,
        TokenKind::Neq => OpCode::NotEqual,
        TokenKind::Gt => OpCode::Greater,
        TokenKind::Gte => OpCode::GreaterEqual,
        TokenKind::Lt => OpCode::Less,
        TokenKind::Lte => OpCode::LessEqual,
        TokenKind::Add => OpCode::Add,
        TokenKind::Sub => OpCode::Sub,
        TokenKind::Mul => OpCode::Mul,
        _ => OpCode::Div,
    }
}

/// Compiles a program of expression statements, each ended by `;` or by
/// the end of input, appending its code to `chunk`, and returns the errors
/// found. The value of each statement but the last is popped, and the code
/// ends with a return. Each statement that fails gives exactly one error,
/// after which parsing resumes at the next statement boundary
/// (`error_count`). Without errors the code added is exactly `emitted`,
/// each byte tagged with the line of the token that caused it, and a chunk
/// that held no code before runs without an internal error and returns a
/// value where the program holds a statement.
pub fn compile_with_errors(src: &[u8], tokens: &[Token], chunk: &mut Chunk) -> (r: Vec<CompileError>)
    ensures
        appended(*old(chunk), *final(chunk)),
        clean(*final(chunk), old(chunk).code_seq().len() as int),
        final(chunk).code_seq().len() > old(chunk).code_seq().len(),
        final(chunk).code_seq().last() == byte_of(OpCode::Return),
        r@.len() == 0 <==> valid_program(tokens@, src@, old(chunk).constants_seq().len() as int),
        r@.len() == error_count(tokens@, src@, 0, old(chunk).constants_seq().len() as int),
        r@.len() == 0 ==> final(chunk).code_seq() == old(chunk).code_seq() + emitted(
            tokens@,
            src@,
            old(chunk).constants_seq().len() as int,
        ).0,
        r@.len() == 0 ==> final(chunk).lines_seq() == old(chunk).lines_seq() + emitted(
            tokens@,
            src@,
            old(chunk).constants_seq().len() as int,
        ).1,
        r@.len() == 0 ==> final(chunk).constants_seq() == old(chunk).constants_seq() + literals(
            tokens@,
            src@,
            0,
            end_of_input(tokens@, 0),
        ),
        r@.len() == 0 ==> depth_walk(
            final(chunk).code_seq(),
            old(chunk).code_seq().len() as int,
            final(chunk).code_seq().len() - 1,
            0,
        ) == Some(if starts_statement(tokens@) { 1int } else { 0int }),
        r@.len() == 0 && old(chunk).code_seq().len() == 0 ==> ends_well(
            final(chunk).pending_from_start(),
            starts_statement(tokens@),
        ),
{
    let ghost start = chunk.code_seq().len() as int;
    let ghost initial = *chunk;
    let ghost n0 = chunk.constants_seq().len() as int;
    let mut parser = Parser { pos: 0, errors: Vec::new(), panic_mode: false };
    let mut first = true;
    assert(literals(tokens@, src@, 0, 0) =~= Seq::<Value>::empty());
    assert(initial.constants_seq() + literals(tokens@, src@, 0, 0) =~= initial.constants_seq());
    while kind_at(tokens, parser.pos) != TokenKind::Eof
        invariant
            parser.pos <= tokens@.len(),
            clean(*chunk, start),
            appended(initial, *chunk),
            initial == *old(chunk),
            start == old(chunk).code_seq().len(),
            !parser.panic_mode,
            first ==> parser.pos == 0,
            !first ==> starts_statement(tokens@),
            n0 == old(chunk).constants_seq().len(),
            parser.errors@.len() == 0 ==> valid_program(tokens@, src@, n0) == accepts(
                tokens@,
                src@,
                parser.pos as int,
                Expecting::Statement,
                0,
                chunk.constants_seq().len() as int,
            ),
            parser.errors@.len() > 0 ==> !valid_program(tokens@, src@, n0),
            parser.errors@.len() == 0 ==> chunk.constants_seq() == initial.constants_seq() + literals(
                tokens@,
                src@,
                0,
                parser.pos as int,
            ),
            parser.errors@.len() == 0 ==> end_of_input(tokens@, 0) == end_of_input(
                tokens@,
                parser.pos as int,
            ),
            parser.errors@.len() + error_count(tokens@, src@, parser.pos as int, chunk.constants_seq().len() as int)
                == error_count(tokens@, src@, 0, n0),
            parser.errors@.len() == 0 ==> initial.code_seq() + emitted(tokens@, src@, n0).0
                == chunk.code_seq() + statements_code(
                tokens@,
                src@,
                parser.pos as int,
                chunk.constants_seq().len() as int,
                first,
            ).0,
            parser.errors@.len() == 0 ==> initial.lines_seq() + emitted(tokens@, src@, n0).1
                == chunk.lines_seq() + statements_code(
                tokens@,
                src@,
                parser.pos as int,
                chunk.constants_seq().len() as int,
                first,
            ).1,
            parser.errors@.len() == 0 ==> depth_walk(chunk.code_seq(), start, chunk.code_seq().len() as int, 0)
                == Some(if first { 0int } else { 1int }),
        decreases tokens@.len() - parser.pos,
    {
        let ghost c0 = *chunk;
        let ghost stmt_pos = parser.pos as int;
        let ghost e0 = parser.errors@.len();
        let ghost was_first = first;
        let ghost e = expr_code(tokens@, src@, stmt_pos, PREC_ASSIGNMENT as int, c0.constants_seq().len() as int);
        let ghost pop: Seq<u8> = if first { Seq::empty() } else { seq![byte_of(OpCode::Pop)] };
        let ghost pop_line: Seq<u32> = if first { Seq::empty() } else { seq![token_line(tokens@, src@, stmt_pos)] };
        assert(accepts(tokens@, src@, stmt_pos, Expecting::Statement, 0, c0.constants_seq().len() as int)
            == accepts(tokens@, src@, stmt_pos, Expecting::Operand, 0, c0.constants_seq().len() as int));
        if !first {
            let line = line_of(src, tokens[parser.pos].span.start);
            Parser::emit_op(chunk, OpCode::Pop, line, Ghost(start));
            proof {
                let l = c0.code_seq().len() as int;
                if parser.errors@.len() == 0 {
                    lemma_walk_extend(c0.code_seq(), chunk.code_seq(), start, l, 0);
                    lemma_walk_compose(chunk.code_seq(), start, l, l + 1, 0);
                    assert(chunk.code_seq()[l] == byte_of(OpCode::Pop));
                    assert(depth_walk(chunk.code_seq(), l + 1, l + 1, 0) == Some(0int));
                }
            }
        }
        let ghost c1 = *chunk;
        assert(c1.constants_seq() == c0.constants_seq());
        assert(parser.pos == stmt_pos);
        parser.parse_precedence(tokens, src, chunk, PREC_ASSIGNMENT, Ghost(start), Ghost(0int));
        proof {
            if parser.errors@.len() == 0 {
                lemma_literals_concat(tokens@, src@, 0, stmt_pos, parser.pos as int);
                assert(chunk.constants_seq() =~= initial.constants_seq() + literals(tokens@, src@, 0,
                    parser.pos as int));
                let l = c1.code_seq().len() as int;
                lemma_walk_extend(c1.code_seq(), chunk.code_seq(), start, l, 0);
                lemma_walk_compose(chunk.code_seq(), start, l, chunk.code_seq().len() as int, 0);
            }
        }
        first = false;
        let next = kind_at(tokens, parser.pos);
        let ghost end_pos = parser.pos as int;
        let ghost n1 = chunk.constants_seq().len() as int;
        assert(accepts(tokens@, src@, end_pos, Expecting::Operator, 0, n1) == if next == TokenKind::Eof {
            true
        } else if next == TokenKind::Semicolon {
            accepts(tokens@, src@, end_pos + 1, Expecting::Statement, 0, n1)
        } else {
            infix_precedence(next) > 0 && accepts(tokens@, src@, end_pos + 1, Expecting::Operand, 0, n1)
        });
        assert(next == TokenKind::Eof ==> accepts(tokens@, src@, end_pos, Expecting::Statement, 0, n1));
        if next == TokenKind::Semicolon {
            proof {
                if parser.errors@.len() == 0 {
                    assert(end_of_input(tokens@, end_pos) == end_of_input(tokens@, end_pos + 1));
                    assert(literals(tokens@, src@, end_pos, end_pos) =~= Seq::<Value>::empty());
                    assert(literals(tokens@, src@, end_pos, end_pos + 1) =~= Seq::<Value>::empty());
                    lemma_literals_concat(tokens@, src@, 0, end_pos, end_pos + 1);
                    assert(chunk.constants_seq() =~= initial.constants_seq() + literals(tokens@, src@, 0,
                        end_pos + 1));
                }
            }
            parser.advance(tokens);
        } else if next != TokenKind::Eof {
            let here = parser.pos;
            parser.error_at(tokens, src, here, CompileErrorKind::ExpectStatementEnd);
        }
        assert(parser.errors@.len() > e0 ==> !accepts(tokens@, src@, stmt_pos, Expecting::Operand, 0,
            c0.constants_seq().len() as int));
        proof {
            if parser.errors@.len() == 0 {
                let next = parser.pos as int;
                assert(e.0 == end_pos);
                assert(next == if kind_of(tokens@, e.0) == TokenKind::Semicolon { e.0 + 1 } else { e.0 });
                let rest = statements_code(tokens@, src@, next, chunk.constants_seq().len() as int, false);
                assert(statements_code(tokens@, src@, stmt_pos, c0.constants_seq().len() as int, was_first)
                    == (pop + e.1 + rest.0, pop_line + e.2 + rest.1));
                assert(chunk.code_seq() =~= c0.code_seq() + pop + e.1);
                assert(chunk.lines_seq() =~= c0.lines_seq() + pop_line + e.2);
                assert(initial.code_seq() + emitted(tokens@, src@, n0).0 =~= chunk.code_seq() + rest.0);
                assert(initial.lines_seq() + emitted(tokens@, src@, n0).1 =~= chunk.lines_seq() + rest.1);
            }
        }
        let ghost after = parser.pos as int;
        if parser.panic_mode {
            parser.synchronize(tokens);
        }
        proof {
            let t = kind_of(tokens@, e.0);
            let bad = !e.4 || !(t == TokenKind::Semicolon || t == TokenKind::Eof);
            assert(after == if t == TokenKind::Semicolon { e.0 + 1 } else { e.0 });
            assert(parser.pos as int == if bad { sync_from(tokens@, after) } else { after });
            assert(error_count(tokens@, src@, stmt_pos, c0.constants_seq().len() as int) == (if bad {
                1nat
            } else {
                0nat
            }) + error_count(tokens@, src@, parser.pos as int, e.3));
        }
    }
    let end_line = if parser.pos < tokens.len() {
        line_of(src, tokens[parser.pos].span.start)
    } else {
        line_of(src, end_offset(src))
    };
    let ghost c2 = *chunk;
    Parser::emit_op(chunk, OpCode::Return, end_line, Ghost(start));
    proof {
        let l = c2.code_seq().len() as int;
        lemma_walk_extend(c2.code_seq(), chunk.code_seq(), start, l, 0);
        assert(first <==> !starts_statement(tokens@));
        assert(end_of_input(tokens@, parser.pos as int) == parser.pos);
        if parser.errors@.len() == 0 {
            assert(statements_code(tokens@, src@, parser.pos as int, c2.constants_seq().len() as int, first)
                == (seq![byte_of(OpCode::Return)], seq![end_line]));
            assert(chunk.code_seq() =~= initial.code_seq() + emitted(tokens@, src@, n0).0);
            assert(chunk.lines_seq() =~= initial.lines_seq() + emitted(tokens@, src@, n0).1);
        }
        if parser.errors@.len() == 0 && start == 0 {
            assert(Seq::<Value>::empty().len() == 0);
            lemma_balanced_code_runs_cleanly(
                chunk.code_seq(),
                chunk.constants_seq(),
                chunk.lines_seq(),
                0,
                Seq::<Value>::empty(),
            );
        }
    }
    parser.errors
}

/// Whether the tokens hold a statement: the first one is not the end of
/// input.
pub open spec fn starts_statement(tokens: Seq<Token>) -> bool {
    tokens.len() > 0 && tokens[0].kind != TokenKind::Eof
}

/// Compiles a program into `chunk`; true exactly when it is a valid
/// program. On success the code gains exactly the bytes of `emitted`, each
/// tagged with the line of the token that caused it, the pool gains the values of the number literals in
/// order, and a chunk that held no code before runs without an internal
/// error and returns a value where the program holds a statement.
pub fn compile(src: &[u8], tokens: &[Token], chunk: &mut Chunk) -> (r: bool)
    ensures
        r == valid_program(tokens@, src@, old(chunk).constants_seq().len() as int),
        r ==> final(chunk).code_seq() == old(chunk).code_seq() + emitted(
            tokens@,
            src@,
            old(chunk).constants_seq().len() as int,
        ).0,
        r ==> final(chunk).lines_seq() == old(chunk).lines_seq() + emitted(
            tokens@,
            src@,
            old(chunk).constants_seq().len() as int,
        ).1,
        r ==> final(chunk).constants_seq() == old(chunk).constants_seq() + literals(
            tokens@,
            src@,
            0,
            end_of_input(tokens@, 0),
        ),
        appended(*old(chunk), *final(chunk)),
        clean(*final(chunk), old(chunk).code_seq().len() as int),
        final(chunk).code_seq().last() == byte_of(OpCode::Return),
        r && old(chunk).code_seq().len() == 0 ==> ends_well(
            final(chunk).pending_from_start(),
            starts_statement(tokens@),
        ),
{
    let errors = compile_with_errors(src, tokens, chunk);
    errors.len() == 0
}

} // verus!
