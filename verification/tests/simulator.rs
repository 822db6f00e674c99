use hithlain::ast::{
    Assignment, Atom, BinaryAction, Circuit, Constant, Expr, NaryAction, Process, Program,
    Statement, StatementOrTime, Test, TimeSpec, UnaryAction, Variable,
};
use hithlain::instantiate::{instantiate_program, ElabError, ElabItem, LocalExpr};
use hithlain::link::{find_conflict, find_undriven, link_process, LinkError};
use hithlain::netlist::{apply_gate, eval_expr, Driver, Entry, Event, Gate, LinkedExpr, Netlist};
use hithlain::sim::{SimulationConfig, SimulationError, Simulator, TimeUnit};
use hithlain::simulation::{simulate, Change, Simulation, SimulationState, StepError};
use hithlain::span::Span;
use hithlain::time::{Duration, Instant};
use hithlain::value::{TypeMismatch, Value, ValueError};
use std::collections::hash_map::DefaultHasher;
use std::collections::HashSet;
use std::hash::{Hash, Hasher};

fn var(name: &str) -> Expr {
    Expr::Atom(Atom::Variable(Variable::new(name)))
}

fn bit(b: bool) -> Expr {
    Expr::Atom(Atom::Constant(Constant::Bit(b)))
}

fn op(action: BinaryAction, a: Expr, b: Expr) -> Expr {
    Expr::BinaryOp { a: Box::new(a), b: Box::new(b), action }
}

fn not(a: Expr) -> Expr {
    Expr::NaryOp { params: vec![a], action: NaryAction::UnaryAction(UnaryAction::Not) }
}

fn call(name: &str, params: Vec<Expr>) -> Expr {
    Expr::NaryOp { params, action: NaryAction::Custom(Variable::new(name)) }
}

fn assign(into: &[&str], expr: Expr) -> Statement {
    Statement::Assignment(Assignment {
        into: into.iter().map(|n| Variable::new(n)).collect(),
        expr,
    })
}

fn check(name: &str, expected: bool, at: usize) -> Statement {
    Statement::Assert { expr: var(name), expected: Constant::Bit(expected), span: Span::new(at, 1) }
}

fn st(s: Statement) -> StatementOrTime {
    StatementOrTime::Statement(s)
}

fn at(t: u64) -> StatementOrTime {
    StatementOrTime::Time(TimeSpec::At(Instant(t)))
}

fn after(d: u64) -> StatementOrTime {
    StatementOrTime::Time(TimeSpec::After(Duration(d)))
}

fn names(ns: &[&str]) -> Vec<Variable> {
    ns.iter().map(|n| Variable::new(n)).collect()
}

fn and_or_circuit() -> Circuit {
    Circuit {
        name: Variable::new("something"),
        inputs: names(&["a", "b", "c"]),
        outputs: names(&["d", "e"]),
        body: vec![
            assign(&["d"], op(BinaryAction::And, var("a"), var("b"))),
            assign(&["e"], op(BinaryAction::Or, var("b"), var("c"))),
        ],
    }
}

fn adder_circuit() -> Circuit {
    Circuit {
        name: Variable::new("add"),
        inputs: names(&["a", "b", "c_in"]),
        outputs: names(&["o", "c_out"]),
        body: vec![
            assign(
                &["o"],
                op(BinaryAction::Xor, op(BinaryAction::Xor, var("a"), var("b")), var("c_in")),
            ),
            assign(
                &["c_out"],
                op(
                    BinaryAction::Or,
                    Expr::Atom(Atom::Expr(Box::new(op(BinaryAction::And, var("a"), var("b"))))),
                    Expr::Atom(Atom::Expr(Box::new(op(
                        BinaryAction::And,
                        Expr::Atom(Atom::Expr(Box::new(op(BinaryAction::Xor, var("a"), var("b"))))),
                        var("c_in"),
                    )))),
                ),
            ),
        ],
    }
}

fn program(circuits: Vec<Circuit>, body: Vec<StatementOrTime>) -> Program {
    Program { circuits, processes: vec![], tests: vec![Test { name: Variable::new("main"), body }] }
}

fn adder_program(first_expected: bool) -> Program {
    program(
        vec![adder_circuit()],
        vec![
            st(assign(&["o", "c_out"], call("add", vec![var("a"), var("b"), bit(false)]))),
            at(0),
            st(assign(&["a"], bit(true))),
            st(assign(&["b"], bit(true))),
            st(check("o", first_expected, 100)),
            st(check("c_out", true, 110)),
            after(5),
            st(assign(&["a"], bit(false))),
            st(assign(&["b"], bit(false))),
            st(check("o", false, 120)),
            st(check("c_out", false, 130)),
            after(5),
            st(assign(&["a"], bit(true))),
            st(assign(&["b"], bit(false))),
            st(check("o", true, 140)),
            st(check("c_out", false, 150)),
        ],
    )
}

fn simulator(p: Program) -> Simulator {
    Simulator::new(p, SimulationConfig::default()).unwrap()
}

#[test]
fn test_smoke() {
    let p = program(
        vec![and_or_circuit()],
        vec![
            st(assign(&["x", "y"], call("something", vec![var("a"), var("b"), bit(false)]))),
            at(0),
            st(assign(&["a"], bit(true))),
            st(assign(&["b"], bit(true))),
            st(check("x", true, 10)),
            after(5),
            st(assign(&["a"], bit(true))),
            st(assign(&["b"], bit(false))),
            st(check("x", false, 20)),
        ],
    );
    let s = simulator(p);
    s.run_all_tests().unwrap();
}

#[test]
fn test_add() {
    let s = simulator(adder_program(false));
    s.run_all_tests().unwrap();
}

#[test]
fn and_or_outputs_follow_their_inputs() {
    let p = program(
        vec![and_or_circuit()],
        vec![
            st(assign(&["d", "e"], call("something", vec![var("a"), var("b"), var("c")]))),
            at(0),
            st(assign(&["a"], bit(true))),
            st(assign(&["b"], bit(true))),
            st(assign(&["c"], bit(false))),
            st(check("d", true, 10)),
            after(5),
            st(assign(&["b"], bit(false))),
            st(assign(&["c"], bit(true))),
            st(check("e", true, 20)),
        ],
    );
    let s = simulator(p);
    assert!(s.run_test("main").is_ok());
    assert!(s.run_all_tests().is_ok());
}

#[test]
fn full_adder_wrong_expectation_is_reported() {
    let s = simulator(adder_program(true));
    match s.run_all_tests() {
        Err(SimulationError::AssertionError(e)) => {
            assert_eq!(e.expected, Value::Bit(true));
            assert_eq!(e.actual, Value::Bit(false));
            assert_eq!(e.span, Span::new(100, 1));
        }
        other => panic!("unexpected outcome: {:?}", other),
    }
    assert!(matches!(s.run_test("main"), Err(SimulationError::AssertionError(_))));
    assert!(s.run_test("other").is_ok());
}

#[test]
fn two_drivers_of_one_signal_are_refused() {
    let p = program(
        vec![],
        vec![
            st(assign(&["x"], var("a"))),
            st(assign(&["y"], var("a"))),
            st(assign(&["x"], var("b"))),
            at(0),
            st(assign(&["a"], bit(true))),
            st(assign(&["b"], bit(true))),
        ],
    );
    let e = instantiate_program(&p, &p.tests[0]).unwrap();
    assert_eq!(find_conflict(&e.items), Some((0, 2)));
    match link_process(&e) {
        Err(LinkError::MultipleDrivers { signal, first, second }) => {
            assert_eq!(signal.variable.0, "x");
            assert_eq!(signal.path, 0);
            assert_eq!((first, second), (0, 2));
        }
        other => panic!("unexpected outcome: {:?}", other),
    }
    assert!(matches!(
        simulator(p).run_all_tests(),
        Err(SimulationError::Link(LinkError::MultipleDrivers { .. }))
    ));
}

#[test]
fn a_signal_read_and_never_assigned_is_refused() {
    let p = program(
        vec![],
        vec![st(assign(&["x"], op(BinaryAction::And, var("a"), var("ghost")))), at(0), st(assign(&["a"], bit(true)))],
    );
    let e = instantiate_program(&p, &p.tests[0]).unwrap();
    assert_eq!(find_undriven(&e.items).map(|v| v.variable.0), Some("ghost".to_string()));
    match link_process(&e) {
        Err(LinkError::UndrivenSignal { signal }) => assert_eq!(signal.variable.0, "ghost"),
        other => panic!("unexpected outcome: {:?}", other),
    }
}

#[test]
fn a_check_of_an_unassigned_signal_is_refused() {
    let p = program(vec![], vec![at(0), st(check("z", false, 1))]);
    assert!(matches!(
        simulator(p).run_all_tests(),
        Err(SimulationError::Link(LinkError::UndrivenSignal { .. }))
    ));
}

#[test]
fn same_name_under_different_paths_is_not_a_conflict() {
    let p = program(
        vec![and_or_circuit()],
        vec![
            st(assign(&["d", "e"], call("something", vec![var("a"), var("a"), var("a")]))),
            st(assign(&["f", "g"], call("something", vec![var("a"), var("a"), var("a")]))),
            at(0),
            st(assign(&["a"], bit(true))),
            st(check("d", true, 1)),
            st(check("g", true, 2)),
        ],
    );
    let e = instantiate_program(&p, &p.tests[0]).unwrap();
    assert_eq!(e.frames.len(), 2);
    assert_eq!(e.frames[0].parent, 0);
    assert_eq!(e.frames[1].unit.0, "something");
    assert_eq!(find_conflict(&e.items), None);
    assert!(simulator(p).run_all_tests().is_ok());
}

#[test]
fn elaboration_flattens_an_invocation() {
    let p = program(
        vec![and_or_circuit()],
        vec![st(assign(&["x", "y"], call("something", vec![var("a"), var("b"), bit(false)]))), at(3)],
    );
    let e = instantiate_program(&p, &p.tests[0]).unwrap();
    assert_eq!(e.items.len(), 8);
    match &e.items[0] {
        ElabItem::Assign { into, expr: LocalExpr::Signal(from) } => {
            assert_eq!((into.variable.0.as_str(), into.path), ("a", 1));
            assert_eq!((from.variable.0.as_str(), from.path), ("a", 0));
        }
        other => panic!("unexpected item: {:?}", other),
    }
    assert!(matches!(&e.items[2], ElabItem::Assign { expr: LocalExpr::Constant(Constant::Bit(false)), .. }));
    match &e.items[3] {
        ElabItem::Assign { into, expr: LocalExpr::Gate(Gate::And, _, _) } => {
            assert_eq!((into.variable.0.as_str(), into.path), ("d", 1));
        }
        other => panic!("unexpected item: {:?}", other),
    }
    match &e.items[6] {
        ElabItem::Assign { into, expr: LocalExpr::Signal(from) } => {
            assert_eq!((into.variable.0.as_str(), into.path), ("y", 0));
            assert_eq!((from.variable.0.as_str(), from.path), ("e", 1));
        }
        other => panic!("unexpected item: {:?}", other),
    }
    assert!(matches!(&e.items[7], ElabItem::Time(TimeSpec::At(Instant(3)))));
}

#[test]
fn unknown_unit_is_refused() {
    let p = program(vec![], vec![st(assign(&["x"], call("nothing", vec![bit(true)])))]);
    match instantiate_program(&p, &p.tests[0]) {
        Err(ElabError::UnknownUnit(v)) => assert_eq!(v.0, "nothing"),
        other => panic!("unexpected outcome: {:?}", other),
    }
    assert!(matches!(
        simulator(p).run_all_tests(),
        Err(SimulationError::Instantiation(ElabError::UnknownUnit(_)))
    ));
}

#[test]
fn self_invocation_is_refused() {
    let looping = Circuit {
        name: Variable::new("loop"),
        inputs: names(&["i"]),
        outputs: names(&["o"]),
        body: vec![assign(&["o"], call("loop", vec![var("i")]))],
    };
    let p = program(vec![looping], vec![st(assign(&["x"], call("loop", vec![bit(true)])))]);
    match instantiate_program(&p, &p.tests[0]) {
        Err(ElabError::InvocationCycle(v)) => assert_eq!(v.0, "loop"),
        other => panic!("unexpected outcome: {:?}", other),
    }
}

#[test]
fn indirect_invocation_cycle_is_refused() {
    let ping = Circuit {
        name: Variable::new("ping"),
        inputs: names(&["i"]),
        outputs: names(&["o"]),
        body: vec![assign(&["o"], call("pong", vec![var("i")]))],
    };
    let pong = Process {
        name: Variable::new("pong"),
        inputs: names(&["i"]),
        outputs: names(&["o"]),
        body: vec![st(assign(&["o"], call("ping", vec![var("i")])))],
    };
    let p = Program {
        circuits: vec![ping],
        processes: vec![pong],
        tests: vec![Test {
            name: Variable::new("main"),
            body: vec![st(assign(&["x"], call("ping", vec![bit(true)])))],
        }],
    };
    match instantiate_program(&p, &p.tests[0]) {
        Err(ElabError::InvocationCycle(v)) => assert_eq!(v.0, "ping"),
        other => panic!("unexpected outcome: {:?}", other),
    }
}

#[test]
fn argument_counts_must_fit() {
    let p = program(
        vec![and_or_circuit()],
        vec![st(assign(&["x", "y"], call("something", vec![var("a"), var("b")])))],
    );
    match instantiate_program(&p, &p.tests[0]) {
        Err(ElabError::ArityMismatch { unit: Some(v) }) => assert_eq!(v.0, "something"),
        other => panic!("unexpected outcome: {:?}", other),
    }
    let q = program(
        vec![and_or_circuit()],
        vec![st(assign(&["x"], call("something", vec![var("a"), var("b"), var("c")])))],
    );
    assert!(matches!(
        instantiate_program(&q, &q.tests[0]),
        Err(ElabError::ArityMismatch { unit: Some(_) })
    ));
    let r = program(vec![], vec![st(assign(&["x", "y"], var("a")))]);
    assert!(matches!(
        instantiate_program(&r, &r.tests[0]),
        Err(ElabError::ArityMismatch { unit: None })
    ));
    let bad_not = Expr::NaryOp {
        params: vec![var("a"), var("b")],
        action: NaryAction::UnaryAction(UnaryAction::Not),
    };
    let s = program(vec![], vec![st(assign(&["x"], bad_not))]);
    assert!(matches!(
        instantiate_program(&s, &s.tests[0]),
        Err(ElabError::ArityMismatch { unit: None })
    ));
}

#[test]
fn invocation_inside_an_expression_is_refused() {
    let p = program(
        vec![and_or_circuit()],
        vec![st(assign(&["x"], not(call("something", vec![var("a"), var("b"), var("c")]))))],
    );
    match instantiate_program(&p, &p.tests[0]) {
        Err(ElabError::NestedInvocation(v)) => assert_eq!(v.0, "something"),
        other => panic!("unexpected outcome: {:?}", other),
    }
}

#[test]
fn a_signal_driven_by_its_own_negation_does_not_settle() {
    let p = program(vec![], vec![st(assign(&["x"], not(var("x")))), at(7), st(check("x", true, 1))]);
    match simulator(p).run_all_tests() {
        Err(SimulationError::NonConvergence(n)) => {
            assert_eq!(n.signal, 0);
            assert_eq!(n.instant, 7);
        }
        other => panic!("unexpected outcome: {:?}", other),
    }
}

#[test]
fn a_chain_against_declaration_order_settles() {
    let p = program(
        vec![],
        vec![
            st(assign(&["z"], not(var("y")))),
            st(assign(&["y"], not(var("x")))),
            st(assign(&["x"], not(var("a")))),
            at(0),
            st(assign(&["a"], bit(false))),
            st(check("x", true, 1)),
            st(check("y", false, 2)),
            st(check("z", true, 3)),
        ],
    );
    assert!(simulator(p).run_all_tests().is_ok());
}

#[test]
fn a_numeric_literal_is_a_type_mismatch() {
    let p = program(
        vec![],
        vec![
            at(0),
            st(assign(&["a"], bit(true))),
            st(Statement::Assert {
                expr: var("a"),
                expected: Constant::Number(3),
                span: Span::new(5, 2),
            }),
        ],
    );
    match simulator(p).run_all_tests() {
        Err(SimulationError::ValueError(ValueError::TypeMismatch(m))) => {
            assert_eq!(m.span, Some(Span::new(5, 2)));
        }
        other => panic!("unexpected outcome: {:?}", other),
    }
    assert_eq!(
        Value::try_from_constant(Constant::Number(1), None),
        Err(ValueError::TypeMismatch(TypeMismatch { span: None }))
    );
    assert_eq!(Value::try_from_constant(Constant::Bit(true), None), Ok(Value::Bit(true)));
    assert_eq!(Value::from(Constant::Bit(false)), Value::Bit(false));
}

#[test]
fn value_operations() {
    let t = Value::Bit(true);
    let f = Value::Bit(false);
    assert_eq!(t.bitand(f), Ok(f));
    assert_eq!(t.bitand(t), Ok(t));
    assert_eq!(f.bitor(f), Ok(f));
    assert_eq!(t.bitor(f), Ok(t));
    assert_eq!(t.bitxor(t), Ok(f));
    assert_eq!(t.bitxor(f), Ok(t));
    assert_eq!(t.not(), Ok(f));
    assert_eq!(f.not(), Ok(t));
    assert_eq!(apply_gate(Gate::Nand, t, t), Ok(f));
    assert_eq!(apply_gate(Gate::Nand, t, f), Ok(t));
    assert_eq!(apply_gate(Gate::Nor, f, f), Ok(t));
    assert_eq!(apply_gate(Gate::Nor, t, f), Ok(f));
    assert_eq!(apply_gate(Gate::Xnor, t, t), Ok(t));
    assert_eq!(apply_gate(Gate::Xnor, t, f), Ok(f));
    assert_eq!(apply_gate(Gate::And, t, t), Ok(t));
    assert_eq!(apply_gate(Gate::Or, f, t), Ok(t));
    assert_eq!(apply_gate(Gate::Xor, f, t), Ok(t));
}

#[test]
fn expressions_are_evaluated_over_the_value_table() {
    let e = LinkedExpr::Gate(
        Gate::Xor,
        Box::new(LinkedExpr::Signal(0)),
        Box::new(LinkedExpr::Not(Box::new(LinkedExpr::Signal(1)))),
    );
    let vals = vec![Value::Bit(true), Value::Bit(true)];
    assert_eq!(eval_expr(&e, &vals, None), Ok(Value::Bit(true)));
    let n = LinkedExpr::Not(Box::new(LinkedExpr::Constant(Constant::Number(2))));
    assert_eq!(
        eval_expr(&n, &vals, Some(Span::new(1, 1))),
        Err(ValueError::TypeMismatch(TypeMismatch { span: Some(Span::new(1, 1)) }))
    );
}

#[test]
fn names_are_equal_wherever_they_were_written() {
    let a = Variable::with_span("clk", Span::new(3, 3));
    let b = Variable::new("clk");
    assert!(a == b);
    assert!(a.same_name(&b));
    assert!(!(a == Variable::new("rst")));
    let l = a.localize(4);
    assert_eq!(l.path, 4);
    assert_eq!(l.variable.1, Some(Span::new(3, 3)));
    assert!(l.same_signal(&b.localize(4)));
    assert!(!l.same_signal(&b.localize(5)));
    assert!(l == b.localize(4));
    assert!(l != b.localize(5));
    assert!(l != Variable::new("rst").localize(4));
}

#[test]
fn time_saturates_at_the_last_instant() {
    assert_eq!(Instant(5).after(Duration(7)), Instant(12));
    assert_eq!(Instant(u64::MAX - 1).after(Duration(7)), Instant(u64::MAX));
    assert_eq!(Instant(0).after(Duration(0)), Instant(0));
}

#[test]
fn schedule_is_ascending_and_merges_equal_instants() {
    let p = program(
        vec![],
        vec![
            at(10),
            st(assign(&["a"], bit(true))),
            at(5),
            st(assign(&["a"], bit(false))),
            after(5),
            st(check("a", true, 1)),
            at(0),
            st(check("a", false, 2)),
        ],
    );
    let e = instantiate_program(&p, &p.tests[0]).unwrap();
    let net = link_process(&e).unwrap();
    let instants: Vec<u64> = net.schedule.iter().map(|x| x.instant).collect();
    assert_eq!(instants, vec![0, 5, 10]);
    assert_eq!(net.schedule[2].events.len(), 2);
    assert!(matches!(net.schedule[2].events[0], Event::Stimulus { source: 1, .. }));
    assert!(matches!(net.schedule[2].events[1], Event::Assert { source: 5, .. }));
    assert!(matches!(net.schedule[0].events[0], Event::Assert { source: 7, .. }));
    assert_eq!(net.signals.len(), 1);
    assert!(simulate(net).is_ok());
}

#[test]
fn checks_before_any_directive_happen_at_time_zero() {
    let p = program(vec![], vec![st(assign(&["x"], bit(true))), st(check("x", true, 1))]);
    let e = instantiate_program(&p, &p.tests[0]).unwrap();
    let net = link_process(&e).unwrap();
    assert_eq!(net.drivers.len(), 1);
    assert_eq!(net.drivers[0].source, 0);
    assert_eq!(net.schedule.len(), 1);
    assert_eq!(net.schedule[0].instant, 0);
    let trace = simulate(net).unwrap();
    assert_eq!(trace, vec![Change { instant: 0, signal: 0, value: Value::Bit(true) }]);
}

#[test]
fn stepping_goes_from_continue_to_halted() {
    let p = program(
        vec![],
        vec![
            st(assign(&["y"], not(var("a")))),
            at(2),
            st(assign(&["a"], bit(true))),
            st(check("y", false, 1)),
            after(3),
            st(assign(&["a"], bit(false))),
            st(check("y", true, 2)),
        ],
    );
    let e = instantiate_program(&p, &p.tests[0]).unwrap();
    let net = link_process(&e).unwrap();
    let mut sim = Simulation::new(net);
    assert_eq!(sim.time, 0);
    assert_eq!(sim.values, vec![Value::Bit(false), Value::Bit(false)]);
    assert_eq!(sim.state(), SimulationState::Continue);
    assert_eq!(sim.step(), Ok(SimulationState::Continue));
    assert_eq!(sim.time, 2);
    assert_eq!(sim.values, vec![Value::Bit(false), Value::Bit(true)]);
    assert_eq!(sim.step(), Ok(SimulationState::Halted));
    assert_eq!(sim.time, 5);
    assert_eq!(sim.values, vec![Value::Bit(true), Value::Bit(false)]);
    assert_eq!(sim.step(), Ok(SimulationState::Halted));
    assert_eq!(sim.position, 2);
    assert_eq!(
        sim.trace,
        vec![
            Change { instant: 2, signal: 1, value: Value::Bit(true) },
            Change { instant: 5, signal: 1, value: Value::Bit(false) },
            Change { instant: 5, signal: 0, value: Value::Bit(true) },
        ]
    );
}

#[test]
fn a_failed_check_stops_the_step() {
    let p = program(vec![], vec![at(1), st(assign(&["a"], bit(true))), st(check("a", false, 9))]);
    let e = instantiate_program(&p, &p.tests[0]).unwrap();
    let net = link_process(&e).unwrap();
    let mut sim = Simulation::new(net);
    match sim.step() {
        Err(StepError::Assertion(a)) => {
            assert_eq!(a.span, Span::new(9, 1));
            assert_eq!(a.expected, Value::Bit(false));
            assert_eq!(a.actual, Value::Bit(true));
        }
        other => panic!("unexpected outcome: {:?}", other),
    }
}

#[test]
fn running_a_test_twice_gives_the_same_trace() {
    let s = simulator(adder_program(false));
    let first = s.execute_process(&s.program.tests[0]).unwrap();
    let second = s.execute_process(&s.program.tests[0]).unwrap();
    assert!(!first.is_empty());
    assert_eq!(first, second);
    let failing = simulator(adder_program(true));
    let a = failing.execute_process(&failing.program.tests[0]);
    let b = failing.execute_process(&failing.program.tests[0]);
    assert_eq!(format!("{:?}", a), format!("{:?}", b));
}

#[test]
fn the_first_failing_test_ends_the_run() {
    let mut p = adder_program(true);
    p.tests.insert(0, Test { name: Variable::new("fine"), body: vec![at(0), st(assign(&["a"], bit(true))), st(check("a", true, 1))] });
    p.tests.push(Test { name: Variable::new("broken"), body: vec![st(assign(&["x"], call("nothing", vec![])))] });
    let s = simulator(p);
    assert!(s.run_test("fine").is_ok());
    assert!(matches!(s.run_test("main"), Err(SimulationError::AssertionError(_))));
    assert!(matches!(s.run_test("broken"), Err(SimulationError::Instantiation(_))));
    assert!(matches!(s.run_all_tests(), Err(SimulationError::AssertionError(_))));
    assert!(s._run_test(&s.program.tests[0]).is_ok());
}

#[test]
fn default_configuration_exports_nothing() {
    let c = SimulationConfig::default();
    assert!(!c.create_vcd);
    assert_eq!(c.unit, TimeUnit::Nanoseconds);
}

#[test]
fn errors_convert_into_the_wider_kinds() {
    let v: Value = true.into();
    assert_eq!(v, Value::Bit(true));
    let m = TypeMismatch { span: Some(Span::new(2, 3)) };
    let e: ValueError = m.into();
    assert_eq!(e, ValueError::TypeMismatch(m));
    assert!(matches!(SimulationError::from(e), SimulationError::ValueError(ValueError::TypeMismatch(_))));
    assert!(matches!(
        SimulationError::from_step(StepError::Value(e)),
        SimulationError::ValueError(_)
    ));
    assert!(matches!(
        SimulationError::from(ElabError::UnknownUnit(Variable::new("u"))),
        SimulationError::Instantiation(ElabError::UnknownUnit(_))
    ));
}

#[test]
fn signals_are_numbered_by_first_appearance() {
    let p = program(
        vec![],
        vec![
            st(assign(&["x"], op(BinaryAction::Nand, var("a"), var("b")))),
            st(assign(&["y"], op(BinaryAction::Xnor, var("b"), var("x")))),
            at(0),
            st(assign(&["b"], bit(true))),
            st(assign(&["a"], bit(true))),
            st(check("x", false, 1)),
            st(check("y", false, 2)),
        ],
    );
    let e = instantiate_program(&p, &p.tests[0]).unwrap();
    let net = link_process(&e).unwrap();
    let table: Vec<&str> = net.signals.iter().map(|s| s.variable.0.as_str()).collect();
    assert_eq!(table, vec!["x", "a", "b", "y"]);
    assert_eq!(net.drivers[1].target, 3);
    assert!(matches!(net.schedule[0].events[0], Event::Stimulus { target: 2, source: 3, .. }));
    let trace = simulate(net).unwrap();
    assert_eq!(
        trace,
        vec![
            Change { instant: 0, signal: 2, value: Value::Bit(true) },
            Change { instant: 0, signal: 1, value: Value::Bit(true) },
        ]
    );
}

#[test]
fn the_earliest_conflict_and_the_first_missing_signal_are_named() {
    let p = program(
        vec![],
        vec![
            st(assign(&["x"], var("p"))),
            st(assign(&["y"], var("q"))),
            st(assign(&["y"], var("q"))),
            st(assign(&["x"], var("q"))),
        ],
    );
    let e = instantiate_program(&p, &p.tests[0]).unwrap();
    assert_eq!(find_conflict(&e.items), Some((1, 2)));
    assert_eq!(find_undriven(&e.items).map(|v| v.variable.0), Some("p".to_string()));
    assert!(matches!(
        link_process(&e),
        Err(LinkError::MultipleDrivers { first: 1, second: 2, .. })
    ));
}

#[test]
fn a_process_is_expanded_with_its_directives() {
    let pulse = Process {
        name: Variable::new("pulse"),
        inputs: names(&["i"]),
        outputs: names(&["o"]),
        body: vec![st(assign(&["o"], not(var("i")))), after(4), st(check("o", true, 3))],
    };
    let p = Program {
        circuits: vec![],
        processes: vec![pulse],
        tests: vec![Test {
            name: Variable::new("main"),
            body: vec![st(assign(&["x"], call("pulse", vec![bit(false)])))],
        }],
    };
    let e = instantiate_program(&p, &p.tests[0]).unwrap();
    assert_eq!(e.items.len(), 5);
    assert!(matches!(&e.items[2], ElabItem::Time(TimeSpec::After(Duration(4)))));
    let net = link_process(&e).unwrap();
    assert_eq!(net.drivers.len(), 2);
    assert_eq!(net.schedule.len(), 1);
    assert_eq!(net.schedule[0].instant, 4);
    assert_eq!(net.schedule[0].events.len(), 2);
    assert!(matches!(net.schedule[0].events[0], Event::Assert { source: 3, .. }));
    assert!(matches!(net.schedule[0].events[1], Event::Stimulus { source: 4, .. }));
    assert!(simulator(p).run_all_tests().is_ok());
}

fn chain(n: usize) -> Program {
    let mut circuits = Vec::new();
    for i in 0..n {
        let body = if i + 1 < n {
            vec![assign(&["o"], call(&format!("c{}", i + 1), vec![var("i")]))]
        } else {
            vec![assign(&["o"], not(var("i")))]
        };
        circuits.push(Circuit {
            name: Variable::new(&format!("c{}", i)),
            inputs: names(&["i"]),
            outputs: names(&["o"]),
            body,
        });
    }
    program(
        circuits,
        vec![st(assign(&["x"], call("c0", vec![var("a")]))), at(0), st(assign(&["a"], bit(false))), st(check("x", true, 1))],
    )
}

#[test]
fn invocations_nest_up_to_the_depth_bound() {
    let fits = chain(256);
    let e = instantiate_program(&fits, &fits.tests[0]).unwrap();
    assert_eq!(e.frames.len(), 256);
    assert_eq!(e.frames[255].parent, 255);
    assert!(simulator(fits).run_all_tests().is_ok());
    let deep = chain(257);
    match instantiate_program(&deep, &deep.tests[0]) {
        Err(ElabError::DepthExceeded(v)) => assert_eq!(v.0, "c256"),
        other => panic!("unexpected outcome: {:?}", other.map(|e| e.items.len())),
    }
}

#[test]
fn a_netlist_built_by_hand_is_tested_before_it_runs() {
    let signal = |name: &str| Variable::new(name).localize(0);
    let good = Netlist {
        signals: vec![signal("a"), signal("y")],
        drivers: vec![Driver { target: 1, expr: LinkedExpr::Not(Box::new(LinkedExpr::Signal(0))), source: 0 }],
        schedule: vec![Entry {
            instant: 3,
            events: vec![Event::Assert {
                expr: LinkedExpr::Signal(1),
                expected: Constant::Bit(true),
                span: Span::new(0, 1),
                source: 1,
            }],
        }],
    };
    assert!(good.is_well_formed());
    let fresh = Simulation::try_new(Netlist {
        signals: vec![signal("a")],
        drivers: vec![],
        schedule: vec![],
    })
    .unwrap();
    assert_eq!(fresh.values, vec![Value::Bit(false)]);
    assert_eq!(fresh.state(), SimulationState::Halted);
    assert_eq!(
        simulate(good),
        Ok(vec![Change { instant: 3, signal: 1, value: Value::Bit(true) }])
    );
    let out_of_range = Netlist {
        signals: vec![signal("a")],
        drivers: vec![Driver { target: 0, expr: LinkedExpr::Signal(1), source: 0 }],
        schedule: vec![],
    };
    assert!(!out_of_range.is_well_formed());
    assert!(Simulation::try_new(out_of_range).is_none());
    let twice = Netlist {
        signals: vec![signal("a")],
        drivers: vec![
            Driver { target: 0, expr: LinkedExpr::Constant(Constant::Bit(true)), source: 0 },
            Driver { target: 0, expr: LinkedExpr::Constant(Constant::Bit(false)), source: 1 },
        ],
        schedule: vec![],
    };
    assert!(!twice.is_well_formed());
    let backwards = Netlist {
        signals: vec![],
        drivers: vec![],
        schedule: vec![Entry { instant: 2, events: vec![] }, Entry { instant: 2, events: vec![] }],
    };
    assert!(!backwards.is_well_formed());
}

fn hash_of<T: Hash>(value: &T) -> u64 {
    let mut hasher = DefaultHasher::new();
    value.hash(&mut hasher);
    hasher.finish()
}

#[test]
fn literals_and_times_can_be_hashed() {
    assert_eq!(hash_of(&Constant::Bit(true)), hash_of(&Constant::Bit(true)));
    assert_ne!(hash_of(&Constant::Bit(true)), hash_of(&Constant::Number(1)));
    let mut seen = HashSet::new();
    assert!(seen.insert(TimeSpec::At(Instant(5))));
    assert!(!seen.insert(TimeSpec::At(Instant(5))));
    assert!(seen.insert(TimeSpec::After(Duration(5))));
    assert_eq!(hash_of(&Span::new(1, 2)), hash_of(&Span::new(1, 2)));
}
