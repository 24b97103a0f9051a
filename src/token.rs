//! Tokens: what the lexer hands to the compiler.
use core::ops::Range;
use vstd::prelude::*;

verus! {

/// The classes of tokens of the language.
#[derive(Clone, Copy, Debug, PartialEq, Eq, Structural)]
pub enum TokenKind {
    LParen,
    RParen,
    LBrace,
    RBrace,
    Comma,
    Dot,
    Add,
    Sub,
    Mul,
    Div,
    Semicolon,
    Not,
    Neq,
    Assign,
    Eq,
    Gt,
    Gte,
    Lt,
    Lte,
    Number,
    String,
    Ident,
    And,
    Class,
    Else,
    False,
    For,
    Fun,
    If,
    Nil,
    Or,
    Print,
    Return,
    Super,
    This,
    True,
    Var,
    While,
    Error,
    Eof,
}

/// A byte range `start..end` of the source text.
#[derive(Clone, Copy, Debug, PartialEq, Eq, Structural)]
pub struct Span {
    pub start: u32,
    pub end: u32,
}

impl Span {
    pub fn new(start: u32, end: u32) -> (r: Self)
        ensures
            r.start == start,
            r.end == end,
    {
        Self { start, end }
    }
}

impl From<Range<usize>> for Span {
    /// Offsets are kept to their low 32 bits.
    fn from(range: Range<usize>) -> (r: Self) {
        Self { start: range.start as u32, end: range.end as u32 }
    }
}

impl vstd::std_specs::convert::FromSpecImpl<Range<usize>> for Span {
    open spec fn obeys_from_spec() -> bool {
        true
    }

    open spec fn from_spec(range: Range<usize>) -> Span {
        Span { start: range.start as u32, end: range.end as u32 }
    }
}

impl From<Span> for Range<usize> {
    fn from(span: Span) -> (r: Self) {
        Range { start: span.start as usize, end: span.end as usize }
    }
}

impl vstd::std_specs::convert::FromSpecImpl<Span> for Range<usize> {
    open spec fn obeys_from_spec() -> bool {
        true
    }

    open spec fn from_spec(span: Span) -> Range<usize> {
        Range { start: span.start as usize, end: span.end as usize }
    }
}

/// A token: its class and where its text lies in the source.
#[derive(Clone, Copy, Debug, PartialEq, Eq, Structural)]
pub struct Token {
    pub kind: TokenKind,
    pub span: Span,
}

impl Token {
    pub fn new(kind: TokenKind, span: Span) -> (r: Self)
        ensures
            r.kind == kind,
            r.span == span,
    {
        Self { kind, span }
    }

    /// The token's text in `src`.
    pub fn lit<'a>(&self, src: &'a [u8]) -> (r: &'a [u8])
        requires
            self.span.start <= self.span.end <= src@.len(),
        ensures
            r@ == src@.subrange(self.span.start as int, self.span.end as int),
    {
        vstd::slice::slice_subrange(src, self.span.start as usize, self.span.end as usize)
    }
}

} // verus!
