//! Runtime values of signals and the operations on them.

use vstd::prelude::*;
use crate::ast::Constant;
use crate::span::Span;
use vstd::std_specs::convert::FromSpecImpl;

verus! {

/// Operands whose kinds do not fit the operation applied to them.
#[derive(Debug, Clone, Copy, PartialEq, Eq, Structural)]
pub struct TypeMismatch {
    pub span: Option<Span>,
}

/// A failure of the value algebra.
#[derive(Debug, Clone, Copy, PartialEq, Eq, Structural)]
pub enum ValueError {
    TypeMismatch(TypeMismatch),
}

/// The current value of one signal.
#[derive(Debug, Clone, Copy, PartialEq, Eq, Structural)]
pub enum Value {
    Bit(bool),
}

impl Value {
    /// The bit that this value holds.
    pub open spec fn bit(self) -> bool {
        match self {
            Value::Bit(b) => b,
        }
    }

    /// The value of a bit literal.
    pub fn from(c: Constant) -> (r: Value)
        requires
            c is Bit,
        ensures
            r == Value::Bit(c->Bit_0),
    {
        match c {
            Constant::Bit(n) => Value::Bit(n),
            Constant::Number(_) => vstd::pervasive::unreached(),
        }
    }

    /// What a literal written at `span` evaluates to.
    pub open spec fn of_constant(c: Constant, span: Option<Span>) -> Result<Value, ValueError> {
        match c {
            Constant::Bit(n) => Ok(Value::Bit(n)),
            Constant::Number(_) => Err(ValueError::TypeMismatch(TypeMismatch { span })),
        }
    }

    /// The value of a literal; a numeric literal has no single-bit value and
    /// is a type mismatch at `span`.
    pub fn try_from_constant(c: Constant, span: Option<Span>) -> (r: Result<Value, ValueError>)
        ensures
            r == Value::of_constant(c, span),
    {
        match c {
            Constant::Bit(_) => Ok(Value::from(c)),
            Constant::Number(_) => Err(ValueError::TypeMismatch(TypeMismatch { span })),
        }
    }

    pub fn bitxor(self, rhs: Value) -> (r: Result<Value, ValueError>)
        ensures
            r == Ok::<Value, ValueError>(Value::Bit(self.bit() != rhs.bit())),
    {
        match (self, rhs) {
            (Value::Bit(a), Value::Bit(b)) => Ok(Value::Bit(a != b)),
        }
    }

    pub fn bitand(self, rhs: Value) -> (r: Result<Value, ValueError>)
        ensures
            r == Ok::<Value, ValueError>(Value::Bit(self.bit() && rhs.bit())),
    {
        match (self, rhs) {
            (Value::Bit(a), Value::Bit(b)) => Ok(Value::Bit(a && b)),
        }
    }

    pub fn bitor(self, rhs: Value) -> (r: Result<Value, ValueError>)
        ensures
            r == Ok::<Value, ValueError>(Value::Bit(self.bit() || rhs.bit())),
    {
        match (self, rhs) {
            (Value::Bit(a), Value::Bit(b)) => Ok(Value::Bit(a || b)),
        }
    }

    pub fn not(self) -> (r: Result<Value, ValueError>)
        ensures
            r == Ok::<Value, ValueError>(Value::Bit(!self.bit())),
    {
        match self {
            Value::Bit(a) => Ok(Value::Bit(!a)),
        }
    }
}

impl From<bool> for Value {
    fn from(b: bool) -> (r: Value) {
        Value::Bit(b)
    }
}

impl FromSpecImpl<bool> for Value {
    open spec fn obeys_from_spec() -> bool {
        true
    }

    open spec fn from_spec(b: bool) -> Value {
        Value::Bit(b)
    }
}

impl From<TypeMismatch> for ValueError {
    fn from(m: TypeMismatch) -> (r: ValueError) {
        ValueError::TypeMismatch(m)
    }
}

impl FromSpecImpl<TypeMismatch> for ValueError {
    open spec fn obeys_from_spec() -> bool {
        true
    }

    open spec fn from_spec(m: TypeMismatch) -> ValueError {
        ValueError::TypeMismatch(m)
    }
}

} // verus!
