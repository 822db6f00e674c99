//! Elaboration: nested invocations are expanded into a flat list of
//! assignments and checks over localized signals.

use vstd::prelude::*;
use vstd::std_specs::cmp::PartialEqSpecImpl;
use crate::ast::{Atom, BinaryAction, Constant, Expr, NaryAction, TimeSpec, UnaryAction, Variable};
use crate::ast::{Program, Statement, StatementOrTime, Test};
use crate::netlist::Gate;
use crate::span::Span;

verus! {

/// A handle to an instantiation path: 0 is the empty path of the root, and
/// `k + 1` is the path that ends in frame `k` of the elaboration's frames.
pub type PathId = usize;

/// One frame of an instantiation path: the invoked unit, under the name
/// written at the call site, and the path of the caller.
#[derive(Debug)]
pub struct Package {
    pub unit: Variable,
    pub parent: PathId,
}

/// A signal name together with the invocation it belongs to.
#[derive(Debug)]
pub struct LocalizedVariable {
    pub variable: Variable,
    pub path: PathId,
}

impl LocalizedVariable {
    /// Whether both stand for the same signal: the same name under the same
    /// path, wherever each was written.
    pub open spec fn same(&self, other: &LocalizedVariable) -> bool {
        self.variable.name() == other.variable.name() && self.path == other.path
    }

    pub fn same_signal(&self, other: &LocalizedVariable) -> (r: bool)
        ensures
            r == self.same(other),
    {
        self.path == other.path && self.variable.same_name(&other.variable)
    }
}

impl PartialEq for LocalizedVariable {
    fn eq(&self, other: &LocalizedVariable) -> (r: bool) {
        self.same_signal(other)
    }
}

impl Eq for LocalizedVariable {}

impl PartialEqSpecImpl for LocalizedVariable {
    open spec fn obeys_eq_spec() -> bool {
        true
    }

    open spec fn eq_spec(&self, other: &LocalizedVariable) -> bool {
        self.same(other)
    }
}

impl Clone for LocalizedVariable {
    fn clone(&self) -> (r: LocalizedVariable)
        ensures
            r == *self,
    {
        LocalizedVariable { variable: self.variable.clone(), path: self.path }
    }
}

/// An expression over localized signals and primitive gates.
#[derive(Debug)]
pub enum LocalExpr {
    Signal(LocalizedVariable),
    Constant(Constant),
    Not(Box<LocalExpr>),
    Gate(Gate, Box<LocalExpr>, Box<LocalExpr>),
}

/// One item of the elaborated list.
#[derive(Debug)]
pub enum ElabItem {
    Assign { into: LocalizedVariable, expr: LocalExpr },
    Assert { expr: LocalExpr, expected: Constant, span: Span },
    Time(TimeSpec),
}

/// The flat result of elaboration: the frames of all instantiation paths
/// and the items in order.
#[derive(Debug)]
pub struct Elaborated {
    pub frames: Vec<Package>,
    pub items: Vec<ElabItem>,
}

/// Whether `e` reads the signal `v`.
pub open spec fn local_reads(e: LocalExpr, v: LocalizedVariable) -> bool
    decreases e,
{
    match e {
        LocalExpr::Signal(w) => w.same(&v),
        LocalExpr::Constant(_) => false,
        LocalExpr::Not(a) => local_reads(*a, v),
        LocalExpr::Gate(_, a, b) => local_reads(*a, v) || local_reads(*b, v),
    }
}

/// Why a test cannot be elaborated.
#[derive(Debug)]
pub enum ElabError {
    /// An invocation names a unit that the program does not define.
    UnknownUnit(Variable),
    /// A unit is invoked, directly or through others, from its own body.
    InvocationCycle(Variable),
    /// The invocation would nest deeper than `MAX_DEPTH`, or the frames would
    /// outgrow their handles.
    DepthExceeded(Variable),
    /// The counts of arguments or targets do not fit the invoked unit; for a
    /// primitive operation no unit is named.
    ArityMismatch { unit: Option<Variable> },
    /// An invocation stands where a single value is wanted: inside another
    /// expression or in a check.
    NestedInvocation(Variable),
}

/// The primitive gate of an action; a custom action has none.
pub open spec fn gate_of(action: BinaryAction) -> Option<Gate> {
    match action {
        BinaryAction::And => Some(Gate::And),
        BinaryAction::Or => Some(Gate::Or),
        BinaryAction::Nand => Some(Gate::Nand),
        BinaryAction::Nor => Some(Gate::Nor),
        BinaryAction::Xor => Some(Gate::Xor),
        BinaryAction::Xnor => Some(Gate::Xnor),
        BinaryAction::Custom(_) => None,
    }
}

/// The unit that an expression invokes at its top, by the name written at
/// the call.
pub open spec fn call_name(e: Expr) -> Option<Variable> {
    match e {
        Expr::BinaryOp { action: BinaryAction::Custom(name), .. } => Some(name),
        Expr::NaryOp { action: NaryAction::Custom(name), .. } => Some(name),
        Expr::NaryOp { action: NaryAction::BinaryAction(BinaryAction::Custom(name)), .. } => Some(
            name,
        ),
        _ => None,
    }
}

/// The operands of the operation at the top of an expression.
pub open spec fn operands(e: Expr) -> Seq<Expr> {
    match e {
        Expr::BinaryOp { a, b, .. } => seq![*a, *b],
        Expr::NaryOp { params, .. } => params@,
        Expr::Atom(_) => Seq::empty(),
    }
}

/// An expression of primitive operations with every name placed under
/// `path`. Operands are taken left to right; the first failure is the
/// result.
pub open spec fn localize(e: Expr, path: PathId) -> Result<LocalExpr, ElabError>
    decreases e,
{
    match e {
        Expr::BinaryOp { a, b, action } => match action {
            BinaryAction::Custom(name) => Err(ElabError::NestedInvocation(name)),
            _ => match localize(*a, path) {
                Err(err) => Err(err),
                Ok(la) => match localize(*b, path) {
                    Err(err) => Err(err),
                    Ok(lb) => Ok(
                        LocalExpr::Gate(gate_of(action)->Some_0, Box::new(la), Box::new(lb)),
                    ),
                },
            },
        },
        Expr::NaryOp { params, action } => match action {
            NaryAction::Custom(name) => Err(ElabError::NestedInvocation(name)),
            NaryAction::BinaryAction(BinaryAction::Custom(name)) => Err(
                ElabError::NestedInvocation(name),
            ),
            NaryAction::UnaryAction(UnaryAction::Not) => if params@.len() != 1 {
                Err(ElabError::ArityMismatch { unit: None })
            } else {
                match localize(params@[0], path) {
                    Err(err) => Err(err),
                    Ok(la) => Ok(LocalExpr::Not(Box::new(la))),
                }
            },
            NaryAction::BinaryAction(action) => if params@.len() != 2 {
                Err(ElabError::ArityMismatch { unit: None })
            } else {
                match localize(params@[0], path) {
                    Err(err) => Err(err),
                    Ok(la) => match localize(params@[1], path) {
                        Err(err) => Err(err),
                        Ok(lb) => Ok(
                            LocalExpr::Gate(gate_of(action)->Some_0, Box::new(la), Box::new(lb)),
                        ),
                    },
                }
            },
        },
        Expr::Atom(Atom::Variable(v)) => Ok(
            LocalExpr::Signal(LocalizedVariable { variable: v, path }),
        ),
        Expr::Atom(Atom::Constant(c)) => Ok(LocalExpr::Constant(c)),
        Expr::Atom(Atom::Expr(inner)) => localize(*inner, path),
    }
}

fn primitive_gate(action: &BinaryAction) -> (r: Option<Gate>)
    ensures
        r == gate_of(*action),
{
    match action {
        BinaryAction::And => Some(Gate::And),
        BinaryAction::Or => Some(Gate::Or),
        BinaryAction::Nand => Some(Gate::Nand),
        BinaryAction::Nor => Some(Gate::Nor),
        BinaryAction::Xor => Some(Gate::Xor),
        BinaryAction::Xnor => Some(Gate::Xnor),
        BinaryAction::Custom(_) => None,
    }
}

/// Places every name of a primitive expression under `path`.
pub fn localize_expr(e: &Expr, path: PathId) -> (r: Result<LocalExpr, ElabError>)
    ensures
        r == localize(*e, path),
    decreases *e,
{
    match e {
        Expr::BinaryOp { a, b, action } => match primitive_gate(action) {
            None => match action {
                BinaryAction::Custom(name) => Err(ElabError::NestedInvocation(name.clone())),
                _ => vstd::pervasive::unreached(),
            },
            Some(gate) => match localize_expr(a, path) {
                Err(err) => Err(err),
                Ok(la) => match localize_expr(b, path) {
                    Err(err) => Err(err),
                    Ok(lb) => Ok(LocalExpr::Gate(gate, Box::new(la), Box::new(lb))),
                },
            },
        },
        Expr::NaryOp { params, action } => match action {
            NaryAction::Custom(name) => Err(ElabError::NestedInvocation(name.clone())),
            NaryAction::UnaryAction(UnaryAction::Not) => {
                if params.len() != 1 {
                    Err(ElabError::ArityMismatch { unit: None })
                } else {
                    match localize_expr(&params[0], path) {
                        Err(err) => Err(err),
                        Ok(la) => Ok(LocalExpr::Not(Box::new(la))),
                    }
                }
            },
            NaryAction::BinaryAction(binary) => match primitive_gate(binary) {
                None => match binary {
                    BinaryAction::Custom(name) => Err(ElabError::NestedInvocation(name.clone())),
                    _ => vstd::pervasive::unreached(),
                },
                Some(gate) => {
                    if params.len() != 2 {
                        Err(ElabError::ArityMismatch { unit: None })
                    } else {
                        match localize_expr(&params[0], path) {
                            Err(err) => Err(err),
                            Ok(la) => match localize_expr(&params[1], path) {
                                Err(err) => Err(err),
                                Ok(lb) => Ok(LocalExpr::Gate(gate, Box::new(la), Box::new(lb))),
                            },
                        }
                    }
                },
            },
        },
        Expr::Atom(Atom::Variable(v)) => Ok(LocalExpr::Signal(v.localize(path))),
        Expr::Atom(Atom::Constant(c)) => Ok(LocalExpr::Constant(*c)),
        Expr::Atom(Atom::Expr(inner)) => localize_expr(inner, path),
    }
}

/// How deep invocations may nest.
pub const MAX_DEPTH: usize = 256;

/// A unit of a program, by its position among the circuits or processes.
#[derive(Debug, Clone, Copy, PartialEq, Eq, Structural)]
pub enum UnitRef {
    Circuit(usize),
    Process(usize),
}

/// The frames and items produced so far.
pub struct Flat {
    pub frames: Seq<Package>,
    pub items: Seq<ElabItem>,
}

impl Flat {
    pub open spec fn with_item(self, item: ElabItem) -> Flat {
        Flat { frames: self.frames, items: self.items.push(item) }
    }

    pub open spec fn with_frame(self, frame: Package) -> Flat {
        Flat { frames: self.frames.push(frame), items: self.items }
    }
}

impl Elaborated {
    pub open spec fn flat(&self) -> Flat {
        Flat { frames: self.frames@, items: self.items@ }
    }
}

/// The first circuit from position `k` on that has the name `name`.
pub open spec fn find_circuit(p: Program, name: Seq<char>, k: nat) -> Option<usize>
    decreases p.circuits@.len() - k,
{
    if k >= p.circuits@.len() {
        None
    } else if p.circuits@[k as int].name.name() == name {
        Some(k as usize)
    } else {
        find_circuit(p, name, k + 1)
    }
}

/// The first process from position `k` on that has the name `name`.
pub open spec fn find_process(p: Program, name: Seq<char>, k: nat) -> Option<usize>
    decreases p.processes@.len() - k,
{
    if k >= p.processes@.len() {
        None
    } else if p.processes@[k as int].name.name() == name {
        Some(k as usize)
    } else {
        find_process(p, name, k + 1)
    }
}

/// The unit that `name` stands for: a circuit before a process, the first
/// of each.
pub open spec fn find_unit(p: Program, name: Seq<char>) -> Option<UnitRef> {
    match find_circuit(p, name, 0) {
        Some(i) => Some(UnitRef::Circuit(i)),
        None => match find_process(p, name, 0) {
            Some(i) => Some(UnitRef::Process(i)),
            None => None,
        },
    }
}

pub open spec fn unit_inputs(p: Program, u: UnitRef) -> Seq<Variable> {
    match u {
        UnitRef::Circuit(i) => p.circuits@[i as int].inputs@,
        UnitRef::Process(i) => p.processes@[i as int].inputs@,
    }
}

pub open spec fn unit_outputs(p: Program, u: UnitRef) -> Seq<Variable> {
    match u {
        UnitRef::Circuit(i) => p.circuits@[i as int].outputs@,
        UnitRef::Process(i) => p.processes@[i as int].outputs@,
    }
}

pub open spec fn unit_in_program(p: Program, u: UnitRef) -> bool {
    match u {
        UnitRef::Circuit(i) => i < p.circuits@.len(),
        UnitRef::Process(i) => i < p.processes@.len(),
    }
}

/// Whether a frame on the way from `path` up to the root invokes the unit
/// named `name`.
pub open spec fn on_path(frames: Seq<Package>, path: PathId, name: Seq<char>) -> bool
    decreases path,
{
    if path == 0 || path > frames.len() {
        false
    } else {
        let frame = frames[path - 1];
        frame.unit.name() == name || (frame.parent < path && on_path(frames, frame.parent, name))
    }
}

/// The inputs of an invoked unit from position `k` on, each bound under the
/// callee's path to its argument, which is read under the caller's path.
pub open spec fn bind_inputs(
    inputs: Seq<Variable>,
    args: Seq<Expr>,
    callee: PathId,
    caller: PathId,
    st: Flat,
    k: nat,
) -> Result<Flat, ElabError>
    decreases inputs.len() - k,
{
    if k >= inputs.len() || k >= args.len() {
        Ok(st)
    } else {
        match localize(args[k as int], caller) {
            Err(err) => Err(err),
            Ok(expr) => bind_inputs(
                inputs,
                args,
                callee,
                caller,
                st.with_item(
                    ElabItem::Assign {
                        into: LocalizedVariable { variable: inputs[k as int], path: callee },
                        expr,
                    },
                ),
                k + 1,
            ),
        }
    }
}

/// The targets of an invocation from position `k` on, each bound under the
/// caller's path to the output of the same position under the callee's.
pub open spec fn bind_outputs(
    outputs: Seq<Variable>,
    into: Seq<Variable>,
    callee: PathId,
    caller: PathId,
    st: Flat,
    k: nat,
) -> Flat
    decreases outputs.len() - k,
{
    if k >= outputs.len() || k >= into.len() {
        st
    } else {
        bind_outputs(
            outputs,
            into,
            callee,
            caller,
            st.with_item(
                ElabItem::Assign {
                    into: LocalizedVariable { variable: into[k as int], path: caller },
                    expr: LocalExpr::Signal(
                        LocalizedVariable { variable: outputs[k as int], path: callee },
                    ),
                },
            ),
            k + 1,
        )
    }
}

/// One statement under `path`. An assignment whose expression invokes a
/// unit is expanded: a new frame, the unit's inputs bound to the arguments,
/// its body under the new path, the targets bound to its outputs. Any other
/// assignment has one target and a primitive expression.
pub open spec fn elab_statement(p: Program, stmt: Statement, path: PathId, depth: nat, st: Flat) -> Result<
    Flat,
    ElabError,
>
    decreases depth, 0nat, 0nat,
{
    match stmt {
        Statement::Assert { expr, expected, span } => match localize(expr, path) {
            Err(err) => Err(err),
            Ok(le) => Ok(st.with_item(ElabItem::Assert { expr: le, expected, span })),
        },
        Statement::Assignment(asg) => match call_name(asg.expr) {
            None => if asg.into@.len() != 1 {
                Err(ElabError::ArityMismatch { unit: None })
            } else {
                match localize(asg.expr, path) {
                    Err(err) => Err(err),
                    Ok(le) => Ok(
                        st.with_item(
                            ElabItem::Assign {
                                into: LocalizedVariable { variable: asg.into@[0], path },
                                expr: le,
                            },
                        ),
                    ),
                }
            },
            Some(name) => match find_unit(p, name.name()) {
                None => Err(ElabError::UnknownUnit(name)),
                Some(unit) => if on_path(st.frames, path, name.name()) {
                    Err(ElabError::InvocationCycle(name))
                } else if depth == 0 || st.frames.len() >= usize::MAX {
                    Err(ElabError::DepthExceeded(name))
                } else if operands(asg.expr).len() != unit_inputs(p, unit).len() || asg.into@.len()
                    != unit_outputs(p, unit).len() {
                    Err(ElabError::ArityMismatch { unit: Some(name) })
                } else {
                    let callee = (st.frames.len() + 1) as usize;
                    let st1 = st.with_frame(Package { unit: name, parent: path });
                    match bind_inputs(unit_inputs(p, unit), operands(asg.expr), callee, path, st1, 0) {
                        Err(err) => Err(err),
                        Ok(st2) => match elab_unit(p, unit, callee, (depth - 1) as nat, st2) {
                            Err(err) => Err(err),
                            Ok(st3) => Ok(
                                bind_outputs(unit_outputs(p, unit), asg.into@, callee, path, st3, 0),
                            ),
                        },
                    }
                },
            },
        },
    }
}

/// The body of a unit under `path`.
pub open spec fn elab_unit(p: Program, unit: UnitRef, path: PathId, depth: nat, st: Flat) -> Result<
    Flat,
    ElabError,
>
    decreases depth, 2nat, 0nat,
{
    match unit {
        UnitRef::Circuit(i) => elab_statements(p, p.circuits@[i as int].body@, path, depth, st, 0),
        UnitRef::Process(i) => elab_body(p, p.processes@[i as int].body@, path, depth, st, 0),
    }
}

/// The statements of a circuit from position `k` on, in order.
pub open spec fn elab_statements(
    p: Program,
    body: Seq<Statement>,
    path: PathId,
    depth: nat,
    st: Flat,
    k: nat,
) -> Result<Flat, ElabError>
    decreases depth, 1nat, body.len() - k,
{
    if k >= body.len() {
        Ok(st)
    } else {
        match elab_statement(p, body[k as int], path, depth, st) {
            Err(err) => Err(err),
            Ok(st1) => elab_statements(p, body, path, depth, st1, k + 1),
        }
    }
}

/// The statements and time directives of a process or test from position
/// `k` on, in order; a directive is kept as it is.
pub open spec fn elab_body(
    p: Program,
    body: Seq<StatementOrTime>,
    path: PathId,
    depth: nat,
    st: Flat,
    k: nat,
) -> Result<Flat, ElabError>
    decreases depth, 1nat, body.len() - k,
{
    if k >= body.len() {
        Ok(st)
    } else {
        match body[k as int] {
            StatementOrTime::Time(t) => elab_body(
                p,
                body,
                path,
                depth,
                st.with_item(ElabItem::Time(t)),
                k + 1,
            ),
            StatementOrTime::Statement(stmt) => match elab_statement(p, stmt, path, depth, st) {
                Err(err) => Err(err),
                Ok(st1) => elab_body(p, body, path, depth, st1, k + 1),
            },
        }
    }
}

/// The elaboration of a test: its body under the empty path, from nothing.
pub open spec fn elaborate(p: Program, test: Test) -> Result<Flat, ElabError> {
    elab_body(
        p,
        test.body@,
        0,
        MAX_DEPTH as nat,
        Flat { frames: Seq::empty(), items: Seq::empty() },
        0,
    )
}

fn lookup_unit(p: &Program, name: &Variable) -> (r: Option<UnitRef>)
    ensures
        r == find_unit(*p, name.name()),
        r matches Some(u) ==> unit_in_program(*p, u),
{
    let mut i: usize = 0;
    while i < p.circuits.len()
        invariant
            i <= p.circuits@.len(),
            find_circuit(*p, name.name(), i as nat) == find_circuit(*p, name.name(), 0),
        decreases p.circuits@.len() - i,
    {
        if p.circuits[i].name.same_name(name) {
            return Some(UnitRef::Circuit(i));
        }
        i += 1;
    }
    let mut j: usize = 0;
    while j < p.processes.len()
        invariant
            j <= p.processes@.len(),
            find_circuit(*p, name.name(), 0) is None,
            find_process(*p, name.name(), j as nat) == find_process(*p, name.name(), 0),
        decreases p.processes@.len() - j,
    {
        if p.processes[j].name.same_name(name) {
            return Some(UnitRef::Process(j));
        }
        j += 1;
    }
    None
}

fn is_on_path(frames: &Vec<Package>, path: PathId, name: &Variable) -> (r: bool)
    ensures
        r == on_path(frames@, path, name.name()),
{
    let mut cur: usize = path;
    while cur != 0 && cur <= frames.len()
        invariant
            on_path(frames@, cur, name.name()) == on_path(frames@, path, name.name()),
        decreases cur,
    {
        let frame = &frames[cur - 1];
        if frame.unit.same_name(name) {
            return true;
        }
        if frame.parent >= cur {
            return false;
        }
        cur = frame.parent;
    }
    false
}

fn called_unit(e: &Expr) -> (r: Option<&Variable>)
    ensures
        r matches Some(v) ==> call_name(*e) == Some(*v),
        r is None ==> call_name(*e) is None,
{
    match e {
        Expr::BinaryOp { action: BinaryAction::Custom(name), .. } => Some(name),
        Expr::NaryOp { action: NaryAction::Custom(name), .. } => Some(name),
        Expr::NaryOp { action: NaryAction::BinaryAction(BinaryAction::Custom(name)), .. } => Some(
            name,
        ),
        _ => None,
    }
}

fn operand_count(e: &Expr) -> (r: usize)
    ensures
        r == operands(*e).len(),
{
    match e {
        Expr::BinaryOp { .. } => 2,
        Expr::NaryOp { params, .. } => params.len(),
        Expr::Atom(_) => 0,
    }
}

fn operand_at(e: &Expr, k: usize) -> (r: &Expr)
    requires
        k < operands(*e).len(),
    ensures
        *r == operands(*e)[k as int],
{
    match e {
        Expr::BinaryOp { a, b, .. } => if k == 0 {
            a
        } else {
            b
        },
        Expr::NaryOp { params, .. } => &params[k],
        Expr::Atom(_) => vstd::pervasive::unreached(),
    }
}

fn inputs_of<'a>(p: &'a Program, u: UnitRef) -> (r: &'a Vec<Variable>)
    requires
        unit_in_program(*p, u),
    ensures
        r@ == unit_inputs(*p, u),
{
    match u {
        UnitRef::Circuit(i) => &p.circuits[i].inputs,
        UnitRef::Process(i) => &p.processes[i].inputs,
    }
}

fn outputs_of<'a>(p: &'a Program, u: UnitRef) -> (r: &'a Vec<Variable>)
    requires
        unit_in_program(*p, u),
    ensures
        r@ == unit_outputs(*p, u),
{
    match u {
        UnitRef::Circuit(i) => &p.circuits[i].outputs,
        UnitRef::Process(i) => &p.processes[i].outputs,
    }
}

fn bind_unit_inputs(inputs: &Vec<Variable>, call: &Expr, callee: PathId, caller: PathId, out: &mut Elaborated) -> (r:
    Result<(), ElabError>)
    requires
        inputs@.len() == operands(*call).len(),
    ensures
        match bind_inputs(inputs@, operands(*call), callee, caller, old(out).flat(), 0) {
            Err(err) => r == Err::<(), ElabError>(err),
            Ok(st) => r is Ok && final(out).flat() == st,
        },
{
    let mut k: usize = 0;
    while k < inputs.len()
        invariant
            k <= inputs@.len(),
            inputs@.len() == operands(*call).len(),
            bind_inputs(inputs@, operands(*call), callee, caller, out.flat(), k as nat)
                == bind_inputs(inputs@, operands(*call), callee, caller, old(out).flat(), 0),
        decreases inputs@.len() - k,
    {
        match localize_expr(operand_at(call, k), caller) {
            Err(err) => {
                return Err(err);
            },
            Ok(expr) => {
                out.items.push(ElabItem::Assign { into: inputs[k].localize(callee), expr });
            },
        }
        k += 1;
    }
    Ok(())
}

fn bind_unit_outputs(outputs: &Vec<Variable>, into: &Vec<Variable>, callee: PathId, caller: PathId, out: &mut Elaborated)
    requires
        outputs@.len() == into@.len(),
    ensures
        final(out).flat() == bind_outputs(outputs@, into@, callee, caller, old(out).flat(), 0),
{
    let mut k: usize = 0;
    while k < outputs.len()
        invariant
            k <= outputs@.len(),
            outputs@.len() == into@.len(),
            bind_outputs(outputs@, into@, callee, caller, out.flat(), k as nat) == bind_outputs(
                outputs@,
                into@,
                callee,
                caller,
                old(out).flat(),
                0,
            ),
        decreases outputs@.len() - k,
    {
        out.items.push(
            ElabItem::Assign {
                into: into[k].localize(caller),
                expr: LocalExpr::Signal(outputs[k].localize(callee)),
            },
        );
        k += 1;
    }
}

fn elaborate_statement(p: &Program, stmt: &Statement, path: PathId, depth: usize, out: &mut Elaborated) -> (r:
    Result<(), ElabError>)
    ensures
        match elab_statement(*p, *stmt, path, depth as nat, old(out).flat()) {
            Err(err) => r == Err::<(), ElabError>(err),
            Ok(st) => r is Ok && final(out).flat() == st,
        },
    decreases depth, 0nat, 0nat,
{
    match stmt {
        Statement::Assert { expr, expected, span } => match localize_expr(expr, path) {
            Err(err) => Err(err),
            Ok(le) => {
                out.items.push(ElabItem::Assert { expr: le, expected: *expected, span: *span });
                Ok(())
            },
        },
        Statement::Assignment(asg) => match called_unit(&asg.expr) {
            None => {
                if asg.into.len() != 1 {
                    Err(ElabError::ArityMismatch { unit: None })
                } else {
                    match localize_expr(&asg.expr, path) {
                        Err(err) => Err(err),
                        Ok(le) => {
                            out.items.push(
                                ElabItem::Assign { into: asg.into[0].localize(path), expr: le },
                            );
                            Ok(())
                        },
                    }
                }
            },
            Some(name) => match lookup_unit(p, name) {
                None => Err(ElabError::UnknownUnit(name.clone())),
                Some(unit) => {
                    if is_on_path(&out.frames, path, name) {
                        return Err(ElabError::InvocationCycle(name.clone()));
                    }
                    if depth == 0 || out.frames.len() >= usize::MAX {
                        return Err(ElabError::DepthExceeded(name.clone()));
                    }
                    let inputs = inputs_of(p, unit);
                    let outputs = outputs_of(p, unit);
                    if operand_count(&asg.expr) != inputs.len() || asg.into.len() != outputs.len() {
                        return Err(ElabError::ArityMismatch { unit: Some(name.clone()) });
                    }
                    let callee: usize = out.frames.len() + 1;
                    out.frames.push(Package { unit: name.clone(), parent: path });
                    match bind_unit_inputs(inputs, &asg.expr, callee, path, out) {
                        Err(err) => {
                            return Err(err);
                        },
                        Ok(_) => {},
                    }
                    match elaborate_unit(p, unit, callee, depth - 1, out) {
                        Err(err) => {
                            return Err(err);
                        },
                        Ok(_) => {},
                    }
                    bind_unit_outputs(outputs, &asg.into, callee, path, out);
                    Ok(())
                },
            },
        },
    }
}

fn elaborate_unit(p: &Program, unit: UnitRef, path: PathId, depth: usize, out: &mut Elaborated) -> (r: Result<
    (),
    ElabError,
>)
    requires
        unit_in_program(*p, unit),
    ensures
        match elab_unit(*p, unit, path, depth as nat, old(out).flat()) {
            Err(err) => r == Err::<(), ElabError>(err),
            Ok(st) => r is Ok && final(out).flat() == st,
        },
    decreases depth, 2nat, 0nat,
{
    match unit {
        UnitRef::Circuit(i) => {
            let body = &p.circuits[i].body;
            let mut k: usize = 0;
            while k < body.len()
                invariant
                    k <= body@.len(),
                    elab_statements(*p, body@, path, depth as nat, out.flat(), k as nat)
                        == elab_unit(*p, unit, path, depth as nat, old(out).flat()),
                decreases depth, 1nat, body@.len() - k,
            {
                match elaborate_statement(p, &body[k], path, depth, out) {
                    Err(err) => {
                        return Err(err);
                    },
                    Ok(_) => {},
                }
                k += 1;
            }
            Ok(())
        },
        UnitRef::Process(i) => elaborate_body(p, &p.processes[i].body, path, depth, out),
    }
}

fn elaborate_body(p: &Program, body: &Vec<StatementOrTime>, path: PathId, depth: usize, out: &mut Elaborated) -> (r:
    Result<(), ElabError>)
    ensures
        match elab_body(*p, body@, path, depth as nat, old(out).flat(), 0) {
            Err(err) => r == Err::<(), ElabError>(err),
            Ok(st) => r is Ok && final(out).flat() == st,
        },
    decreases depth, 1nat, body@.len() + 1,
{
    let mut k: usize = 0;
    while k < body.len()
        invariant
            k <= body@.len(),
            elab_body(*p, body@, path, depth as nat, out.flat(), k as nat) == elab_body(
                *p,
                body@,
                path,
                depth as nat,
                old(out).flat(),
                0,
            ),
        decreases depth, 1nat, body@.len() - k,
    {
        match &body[k] {
            StatementOrTime::Time(t) => {
                out.items.push(ElabItem::Time(*t));
            },
            StatementOrTime::Statement(stmt) => {
                match elaborate_statement(p, stmt, path, depth, out) {
                    Err(err) => {
                        return Err(err);
                    },
                    Ok(_) => {},
                }
            },
        }
        k += 1;
    }
    Ok(())
}

/// Elaborates a test of `program` into a flat list of items.
pub fn instantiate_program(program: &Program, test: &Test) -> (r: Result<Elaborated, ElabError>)
    ensures
        match elaborate(*program, *test) {
            Err(err) => r == Err::<Elaborated, ElabError>(err),
            Ok(st) => r is Ok && r->Ok_0.flat() == st,
        },
{
    let mut out = Elaborated { frames: Vec::new(), items: Vec::new() };
    match elaborate_body(program, &test.body, 0, MAX_DEPTH, &mut out) {
        Err(err) => Err(err),
        Ok(_) => Ok(out),
    }
}

} // verus!
