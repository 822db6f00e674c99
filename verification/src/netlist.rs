//! The linked netlist: signals by canonical index, one driver per driven
//! signal, and a schedule of events at absolute instants.

use vstd::prelude::*;
use crate::ast::Constant;
use crate::instantiate::LocalizedVariable;
use crate::span::Span;
use crate::value::{Value, ValueError};

verus! {

/// A primitive two-input gate.
#[derive(Debug, Clone, Copy, PartialEq, Eq, Structural)]
pub enum Gate {
    And,
    Or,
    Nand,
    Nor,
    Xor,
    Xnor,
}

/// An expression over canonical signal indices.
#[derive(Debug)]
pub enum LinkedExpr {
    Signal(usize),
    Constant(Constant),
    Not(Box<LinkedExpr>),
    Gate(Gate, Box<LinkedExpr>, Box<LinkedExpr>),
}

/// The combinational assignment that drives `target`; `source` is the
/// position of the assignment in the elaborated items.
#[derive(Debug)]
pub struct Driver {
    pub target: usize,
    pub expr: LinkedExpr,
    pub source: usize,
}

/// Something that happens at a scheduled instant; `source` is the position
/// of the statement in the elaborated items.
#[derive(Debug)]
pub enum Event {
    /// Overwrites `target` with the value of `expr`.
    Stimulus { target: usize, expr: LinkedExpr, source: usize },
    /// Checks that `expr` has the value of `expected`.
    Assert { expr: LinkedExpr, expected: Constant, span: Span, source: usize },
}

/// The events of one instant, in declaration order.
#[derive(Debug)]
pub struct Entry {
    pub instant: u64,
    pub events: Vec<Event>,
}

/// A linked test: the signal table, the combinational drivers and the
/// schedule. Indices into the table are the canonical identities of signals.
#[derive(Debug)]
pub struct Netlist {
    pub signals: Vec<LocalizedVariable>,
    pub drivers: Vec<Driver>,
    pub schedule: Vec<Entry>,
}

/// The output of a gate on two bits.
pub open spec fn gate_bit(g: Gate, a: bool, b: bool) -> bool {
    match g {
        Gate::And => a && b,
        Gate::Or => a || b,
        Gate::Nand => !(a && b),
        Gate::Nor => !(a || b),
        Gate::Xor => a != b,
        Gate::Xnor => a == b,
    }
}

/// Whether `e` reads the signal `s`.
pub open spec fn reads(e: LinkedExpr, s: usize) -> bool
    decreases e,
{
    match e {
        LinkedExpr::Signal(i) => i == s,
        LinkedExpr::Constant(_) => false,
        LinkedExpr::Not(a) => reads(*a, s),
        LinkedExpr::Gate(_, a, b) => reads(*a, s) || reads(*b, s),
    }
}

/// Whether every signal that `e` reads is below `n`.
pub open spec fn in_range(e: LinkedExpr, n: nat) -> bool
    decreases e,
{
    match e {
        LinkedExpr::Signal(i) => i < n,
        LinkedExpr::Constant(_) => true,
        LinkedExpr::Not(a) => in_range(*a, n),
        LinkedExpr::Gate(_, a, b) => in_range(*a, n) && in_range(*b, n),
    }
}

/// The value of `e` under `vals`. A numeric literal is a type mismatch,
/// reported at `span`. The left operand of a gate is evaluated first.
pub open spec fn eval(e: LinkedExpr, vals: Seq<Value>, span: Option<Span>) -> Result<
    Value,
    ValueError,
>
    decreases e,
{
    match e {
        LinkedExpr::Signal(i) => Ok(vals[i as int]),
        LinkedExpr::Constant(c) => Value::of_constant(c, span),
        LinkedExpr::Not(a) => match eval(*a, vals, span) {
            Ok(v) => Ok(Value::Bit(!v.bit())),
            Err(e) => Err(e),
        },
        LinkedExpr::Gate(g, a, b) => match eval(*a, vals, span) {
            Ok(x) => match eval(*b, vals, span) {
                Ok(y) => Ok(Value::Bit(gate_bit(g, x.bit(), y.bit()))),
                Err(e) => Err(e),
            },
            Err(e) => Err(e),
        },
    }
}

pub open spec fn event_expr(ev: Event) -> LinkedExpr {
    match ev {
        Event::Stimulus { expr, .. } => expr,
        Event::Assert { expr, .. } => expr,
    }
}

pub open spec fn event_source(ev: Event) -> usize {
    match ev {
        Event::Stimulus { source, .. } => source,
        Event::Assert { source, .. } => source,
    }
}

pub open spec fn event_wf(ev: Event, n: nat) -> bool {
    &&& in_range(event_expr(ev), n)
    &&& ev matches Event::Stimulus { target, .. } ==> target < n
}

pub open spec fn entry_wf(entry: Entry, n: nat) -> bool {
    forall|j: int| 0 <= j < entry.events@.len() ==> event_wf(#[trigger] entry.events@[j], n)
}

pub open spec fn driver_wf(d: Driver, n: nat) -> bool {
    d.target < n && in_range(d.expr, n)
}

pub open spec fn drivers_wf(drivers: Seq<Driver>, n: nat) -> bool {
    forall|k: int| 0 <= k < drivers.len() ==> driver_wf(#[trigger] drivers[k], n)
}

/// No two drivers have the same target.
pub open spec fn distinct_targets(drivers: Seq<Driver>) -> bool {
    forall|i: int, j: int|
        0 <= i < j < drivers.len() ==> (#[trigger] drivers[i]).target != (#[trigger] drivers[j]).target
}

impl Netlist {
    /// Every index names a signal of the table.
    pub open spec fn indices_wf(&self) -> bool {
        &&& drivers_wf(self.drivers@, self.signals@.len())
        &&& forall|i: int|
            0 <= i < self.schedule@.len() ==> entry_wf(#[trigger] self.schedule@[i], self.signals@.len())
    }

    /// No signal has more than one driver.
    pub open spec fn single_driver(&self) -> bool {
        distinct_targets(self.drivers@)
    }

    /// The schedule is strictly ascending in time.
    pub open spec fn ascending(&self) -> bool {
        forall|i: int, j: int|
            0 <= i < j < self.schedule@.len() ==> (#[trigger] self.schedule@[i]).instant < (
            #[trigger] self.schedule@[j]).instant
    }

    /// What linking establishes and the engine relies on.
    pub open spec fn wf(&self) -> bool {
        &&& self.indices_wf()
        &&& self.single_driver()
        &&& self.ascending()
    }
}

/// Applies a gate to two values.
pub fn apply_gate(g: Gate, a: Value, b: Value) -> (r: Result<Value, ValueError>)
    ensures
        r == Ok::<Value, ValueError>(Value::Bit(gate_bit(g, a.bit(), b.bit()))),
{
    match g {
        Gate::And => a.bitand(b),
        Gate::Or => a.bitor(b),
        Gate::Xor => a.bitxor(b),
        Gate::Nand => match a.bitand(b) {
            Ok(v) => v.not(),
            Err(e) => Err(e),
        },
        Gate::Nor => match a.bitor(b) {
            Ok(v) => v.not(),
            Err(e) => Err(e),
        },
        Gate::Xnor => match a.bitxor(b) {
            Ok(v) => v.not(),
            Err(e) => Err(e),
        },
    }
}

/// Evaluates `e` under the current values.
pub fn eval_expr(e: &LinkedExpr, vals: &Vec<Value>, span: Option<Span>) -> (r: Result<
    Value,
    ValueError,
>)
    requires
        in_range(*e, vals@.len()),
    ensures
        r == eval(*e, vals@, span),
    decreases *e,
{
    match e {
        LinkedExpr::Signal(i) => Ok(vals[*i]),
        LinkedExpr::Constant(c) => Value::try_from_constant(*c, span),
        LinkedExpr::Not(a) => match eval_expr(a, vals, span) {
            Ok(v) => v.not(),
            Err(e) => Err(e),
        },
        LinkedExpr::Gate(g, a, b) => match eval_expr(a, vals, span) {
            Ok(x) => match eval_expr(b, vals, span) {
                Ok(y) => apply_gate(*g, x, y),
                Err(e) => Err(e),
            },
            Err(e) => Err(e),
        },
    }
}

/// Whether every signal that `e` reads is below `n`.
pub fn expr_in_range(e: &LinkedExpr, n: usize) -> (r: bool)
    ensures
        r == in_range(*e, n as nat),
    decreases *e,
{
    match e {
        LinkedExpr::Signal(i) => *i < n,
        LinkedExpr::Constant(_) => true,
        LinkedExpr::Not(a) => expr_in_range(a, n),
        LinkedExpr::Gate(_, a, b) => expr_in_range(a, n) && expr_in_range(b, n),
    }
}

fn events_in_range(events: &Vec<Event>, n: usize) -> (r: bool)
    ensures
        r == forall|j: int| 0 <= j < events@.len() ==> event_wf(#[trigger] events@[j], n as nat),
{
    let mut j: usize = 0;
    while j < events.len()
        invariant
            j <= events@.len(),
            forall|x: int| 0 <= x < j ==> event_wf(#[trigger] events@[x], n as nat),
        decreases events@.len() - j,
    {
        let ok = match &events[j] {
            Event::Stimulus { target, expr, .. } => *target < n && expr_in_range(expr, n),
            Event::Assert { expr, .. } => expr_in_range(expr, n),
        };
        if !ok {
            assert(!event_wf(events@[j as int], n as nat));
            return false;
        }
        j += 1;
    }
    true
}

impl Netlist {
    /// Tests whether this netlist is well formed, as a linked one is.
    pub fn is_well_formed(&self) -> (r: bool)
        ensures
            r == self.wf(),
    {
        let n = self.signals.len();
        let mut k: usize = 0;
        while k < self.drivers.len()
            invariant
                k <= self.drivers@.len(),
                n == self.signals@.len(),
                forall|x: int| 0 <= x < k ==> driver_wf(#[trigger] self.drivers@[x], n as nat),
                forall|x: int, y: int|
                    0 <= x < y < k ==> (#[trigger] self.drivers@[x]).target != (
                    #[trigger] self.drivers@[y]).target,
            decreases self.drivers@.len() - k,
        {
            let d = &self.drivers[k];
            if !(d.target < n && expr_in_range(&d.expr, n)) {
                assert(!driver_wf(self.drivers@[k as int], n as nat));
                return false;
            }
            let mut x: usize = 0;
            while x < k
                invariant
                    x <= k < self.drivers@.len(),
                    *d == self.drivers@[k as int],
                    forall|y: int| 0 <= y < x ==> (#[trigger] self.drivers@[y]).target != d.target,
                decreases k - x,
            {
                if self.drivers[x].target == d.target {
                    assert(self.drivers@[x as int].target == self.drivers@[k as int].target);
                    return false;
                }
                x += 1;
            }
            k += 1;
        }
        let mut i: usize = 0;
        while i < self.schedule.len()
            invariant
                i <= self.schedule@.len(),
                n == self.signals@.len(),
                drivers_wf(self.drivers@, n as nat),
                distinct_targets(self.drivers@),
                forall|x: int| 0 <= x < i ==> entry_wf(#[trigger] self.schedule@[x], n as nat),
                forall|x: int, y: int|
                    0 <= x < y < i ==> (#[trigger] self.schedule@[x]).instant < (
                    #[trigger] self.schedule@[y]).instant,
            decreases self.schedule@.len() - i,
        {
            if !events_in_range(&self.schedule[i].events, n) {
                assert(!entry_wf(self.schedule@[i as int], n as nat));
                return false;
            }
            if i > 0 && self.schedule[i - 1].instant >= self.schedule[i].instant {
                assert(!(self.schedule@[i - 1].instant < self.schedule@[i as int].instant));
                return false;
            }
            assert forall|x: int, y: int| 0 <= x < y < i + 1 implies (#[trigger] self.schedule@[x]).instant
                < (#[trigger] self.schedule@[y]).instant by {
                if y == i && x < i - 1 {
                    assert(self.schedule@[x].instant < self.schedule@[i - 1].instant);
                }
            }
            i += 1;
        }
        true
    }
}

} // verus!
