//! The abstract syntax tree that the simulator consumes.

use vstd::prelude::*;
use vstd::std_specs::cmp::PartialEqSpecImpl;
use crate::span::Span;
use crate::time::{Duration, Instant};
use crate::instantiate::{LocalizedVariable, PathId};

verus! {

/// A symbolic name, with the place where it was written. The place serves
/// diagnostics only: two names are the same when their text is the same.
#[derive(Debug)]
pub struct Variable(pub String, pub Option<Span>);

impl Variable {
    /// A name without a source location.
    pub fn new(name: &str) -> (r: Variable)
        ensures
            r.0@ == name@,
            r.1 is None,
    {
        Variable(name.to_owned(), None)
    }

    /// A name written at `span`.
    pub fn with_span(name: &str, span: Span) -> (r: Variable)
        ensures
            r.0@ == name@,
            r.1 == Some(span),
    {
        Variable(name.to_owned(), Some(span))
    }

    /// The text of the name.
    pub open spec fn name(&self) -> Seq<char> {
        self.0@
    }

    /// Whether both names have the same text, wherever each was written.
    pub fn same_name(&self, other: &Variable) -> (r: bool)
        ensures
            r == (self.name() == other.name()),
    {
        self.0 == other.0
    }

    /// Places this name in the invocation identified by `path`.
    #[must_use]
    pub fn localize(&self, path: PathId) -> (r: LocalizedVariable)
        ensures
            r.variable == *self,
            r.path == path,
    {
        LocalizedVariable { variable: self.clone(), path }
    }
}

impl Clone for Variable {
    fn clone(&self) -> (r: Variable)
        ensures
            r == *self,
    {
        Variable(self.0.clone(), self.1)
    }
}

impl PartialEq for Variable {
    fn eq(&self, other: &Variable) -> (r: bool) {
        self.0 == other.0
    }
}

impl Eq for Variable {}

impl PartialEqSpecImpl for Variable {
    open spec fn obeys_eq_spec() -> bool {
        true
    }

    open spec fn eq_spec(&self, other: &Variable) -> bool {
        self.0@ == other.0@
    }
}

/// A literal value.
#[derive(Debug, Clone, Copy, PartialEq, Eq, Structural, Hash)]
pub enum Constant {
    Bit(bool),
    Number(u64),
}

#[derive(Debug, PartialEq, Eq)]
pub enum Atom {
    Variable(Variable),
    Constant(Constant),
    Expr(Box<Expr>),
}

#[derive(Debug, PartialEq, Eq)]
pub enum BinaryAction {
    And,
    Or,
    Nand,
    Nor,
    Xor,
    Xnor,
    Custom(Variable),
}

#[derive(Debug, PartialEq, Eq, Hash)]
pub enum UnaryAction {
    Not,
}

#[derive(Debug, PartialEq, Eq)]
pub enum NaryAction {
    UnaryAction(UnaryAction),
    BinaryAction(BinaryAction),
    Custom(Variable),
}

/// An expression: operations over atoms.
#[derive(Debug, PartialEq, Eq)]
#[allow(inconsistent_fields)]
pub enum Expr {
    BinaryOp { a: Box<Expr>, b: Box<Expr>, action: BinaryAction },
    NaryOp { params: Vec<Expr>, action: NaryAction },
    Atom(Atom),
}

/// One or more targets bound to the value of one expression.
#[derive(Debug, PartialEq, Eq)]
pub struct Assignment {
    pub into: Vec<Variable>,
    pub expr: Expr,
}

/// An assignment or a check.
#[derive(Debug, PartialEq, Eq)]
pub enum Statement {
    Assignment(Assignment),
    /// A check that `expr` has the value `expected` when it is evaluated.
    Assert { expr: Expr, expected: Constant, span: Span },
}

/// A time directive: relative to the instant before it, or absolute.
#[derive(Debug, Clone, Copy, PartialEq, Eq, Structural, Hash)]
pub enum TimeSpec {
    After(Duration),
    At(Instant),
}

/// One line of a process body.
#[derive(Debug, PartialEq, Eq)]
pub enum StatementOrTime {
    Statement(Statement),
    Time(TimeSpec),
}

/// A named combinational unit.
#[derive(Debug, PartialEq, Eq)]
pub struct Circuit {
    pub name: Variable,
    pub inputs: Vec<Variable>,
    pub outputs: Vec<Variable>,
    pub body: Vec<Statement>,
}

/// A named unit whose body may hold time directives.
pub struct Process {
    pub name: Variable,
    pub inputs: Vec<Variable>,
    pub outputs: Vec<Variable>,
    pub body: Vec<StatementOrTime>,
}

/// A top-level process without inputs or outputs: the unit of execution.
pub struct Test {
    pub name: Variable,
    pub body: Vec<StatementOrTime>,
}

/// The circuits, processes and tests of one source.
pub struct Program {
    pub circuits: Vec<Circuit>,
    pub processes: Vec<Process>,
    pub tests: Vec<Test>,
}

} // verus!
