//! Runtime values of the language.
use crate::number::{num_eq, number_equal};
use vstd::prelude::*;

verus! {

/// A value of the language: exactly one tag at a time.
#[derive(Clone, Copy, Debug, PartialEq)]
pub enum Value {
    Nil,
    Bool(bool),
    /// A binary64 number, held as its IEEE-754 bit pattern.
    Number(u64),
}

/// Falsiness: `nil` and `false` are falsy, every other value is truthy.
pub open spec fn truthy(v: Value) -> bool {
    match v {
        Value::Nil => false,
        Value::Bool(b) => b,
        Value::Number(_) => true,
    }
}

/// The language's `==`: values of different tags are never equal, and
/// numbers compare as IEEE-754 floats.
pub open spec fn values_equal(a: Value, b: Value) -> bool {
    match (a, b) {
        (Value::Nil, Value::Nil) => true,
        (Value::Bool(x), Value::Bool(y)) => x == y,
        (Value::Number(x), Value::Number(y)) => num_eq(x, y),
        _ => false,
    }
}

impl Value {
    pub fn is_truthy(&self) -> (r: bool)
        ensures
            r == truthy(*self),
    {
        match self {
            Value::Nil => false,
            Value::Bool(b) => *b,
            Value::Number(_) => true,
        }
    }

    pub fn equals(&self, other: &Value) -> (r: bool)
        ensures
            r == values_equal(*self, *other),
    {
        match (self, other) {
            (Value::Nil, Value::Nil) => true,
            (Value::Bool(x), Value::Bool(y)) => *x == *y,
            (Value::Number(x), Value::Number(y)) => number_equal(*x, *y),
            _ => false,
        }
    }
}

/// `nil` equals `nil`, no value of one tag equals a value of another, and
/// exactly `nil` and `false` are falsy (every number, zero included, is
/// truthy).
pub proof fn lemma_equality_and_truthiness(a: Value, b: Value)
    ensures
        values_equal(Value::Nil, Value::Nil),
        (a is Nil && !(b is Nil)) ==> !values_equal(a, b),
        (a is Bool && !(b is Bool)) ==> !values_equal(a, b),
        (a is Number && !(b is Number)) ==> !values_equal(a, b),
        !truthy(a) <==> (a == Value::Nil || a == Value::Bool(false)),
        a is Number ==> truthy(a),
{
}

} // verus!
