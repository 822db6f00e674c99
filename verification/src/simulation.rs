//! The simulation engine: applies the schedule entry by entry, settles the
//! combinational logic after each stimulus and checks the assertions.

use vstd::prelude::*;
use crate::netlist::{Netlist, Driver, Event, Entry, eval, eval_expr, driver_wf, entry_wf, event_wf};
use crate::netlist::LinkedExpr;
use crate::span::Span;
use crate::value::{Value, ValueError};

verus! {

/// A check found another value than the one it expects.
#[derive(Debug, Clone, Copy, PartialEq, Eq, Structural)]
pub struct AssertionError {
    pub span: Span,
    pub expected: Value,
    pub actual: Value,
}

/// The logic did not settle within the allowed number of passes; `signal`
/// is the last signal that changed in the last pass.
#[derive(Debug, Clone, Copy, PartialEq, Eq, Structural)]
pub struct NonConvergence {
    pub signal: usize,
    pub instant: u64,
}

/// What stops a run of the engine.
#[derive(Debug, Clone, Copy, PartialEq, Eq, Structural)]
pub enum StepError {
    Assertion(AssertionError),
    Value(ValueError),
    NonConvergence(NonConvergence),
}

/// Whether the schedule has entries left.
#[derive(Debug, Clone, Copy, PartialEq, Eq, Structural)]
pub enum SimulationState {
    Continue,
    Halted,
}

/// One entry of the value-change trace.
#[derive(Debug, Clone, Copy, PartialEq, Eq, Structural)]
pub struct Change {
    pub instant: u64,
    pub signal: usize,
    pub value: Value,
}

/// The values of all signals and the changes recorded so far.
pub struct Signals {
    pub values: Seq<Value>,
    pub trace: Seq<Change>,
}

/// Gives `target` the value `v` at `instant`; a change of value is recorded.
pub open spec fn assign(s: Signals, instant: u64, target: usize, v: Value) -> Signals {
    if s.values[target as int] == v {
        s
    } else {
        Signals {
            values: s.values.update(target as int, v),
            trace: s.trace.push(Change { instant, signal: target, value: v }),
        }
    }
}

/// One propagation pass from driver `k` on: each driver in turn recomputes
/// its target from the current values. `changed` is the last target whose
/// value a driver before `k` changed; the result holds the last one of the
/// whole pass.
pub open spec fn pass_from(
    drivers: Seq<Driver>,
    instant: u64,
    s: Signals,
    changed: Option<usize>,
    k: nat,
) -> Result<(Signals, Option<usize>), ValueError>
    decreases drivers.len() - k,
{
    if k >= drivers.len() {
        Ok((s, changed))
    } else {
        let d = drivers[k as int];
        match eval(d.expr, s.values, None) {
            Err(e) => Err(e),
            Ok(v) => pass_from(
                drivers,
                instant,
                assign(s, instant, d.target, v),
                if s.values[d.target as int] == v {
                    changed
                } else {
                    Some(d.target)
                },
                k + 1,
            ),
        }
    }
}

/// A whole propagation pass.
pub open spec fn pass(drivers: Seq<Driver>, instant: u64, s: Signals) -> Result<
    (Signals, Option<usize>),
    ValueError,
> {
    pass_from(drivers, instant, s, None, 0)
}

/// Whether a pass over `drivers` leaves `values` as they are.
pub open spec fn stable(drivers: Seq<Driver>, values: Seq<Value>) -> bool {
    forall|k: int|
        0 <= k < drivers.len() ==> eval((#[trigger] drivers[k]).expr, values, None) == Ok::<
            Value,
            ValueError,
        >(values[drivers[k].target as int])
}

/// Passes are repeated until one changes nothing. After `done` passes that
/// changed something, at most `drivers.len() - done` more may do so; the
/// pass after those must change nothing.
pub open spec fn settle_from(drivers: Seq<Driver>, instant: u64, s: Signals, done: nat) -> Result<
    Signals,
    StepError,
>
    decreases drivers.len() - done,
{
    match pass(drivers, instant, s) {
        Err(e) => Err(StepError::Value(e)),
        Ok((s2, None)) => Ok(s2),
        Ok((s2, Some(t))) => if done >= drivers.len() {
            Err(StepError::NonConvergence(NonConvergence { signal: t, instant }))
        } else {
            settle_from(drivers, instant, s2, done + 1)
        },
    }
}

/// Propagation to a fixed point within `drivers.len() + 1` passes.
pub open spec fn settle(drivers: Seq<Driver>, instant: u64, s: Signals) -> Result<
    Signals,
    StepError,
> {
    settle_from(drivers, instant, s, 0)
}

/// The stimuli among `events` from position `k` on, applied in order.
pub open spec fn stimuli_from(events: Seq<Event>, instant: u64, s: Signals, k: nat) -> Result<
    Signals,
    ValueError,
>
    decreases events.len() - k,
{
    if k >= events.len() {
        Ok(s)
    } else {
        match events[k as int] {
            Event::Stimulus { target, expr, .. } => match eval(expr, s.values, None) {
                Err(e) => Err(e),
                Ok(v) => stimuli_from(events, instant, assign(s, instant, target, v), k + 1),
            },
            Event::Assert { .. } => stimuli_from(events, instant, s, k + 1),
        }
    }
}

/// The outcome of one check under `values`.
pub open spec fn check_one(ev: Event, values: Seq<Value>) -> Result<(), StepError> {
    match ev {
        Event::Stimulus { .. } => Ok(()),
        Event::Assert { expr, expected, span, .. } => match Value::of_constant(expected, Some(span)) {
            Err(e) => Err(StepError::Value(e)),
            Ok(want) => match eval(expr, values, Some(span)) {
                Err(e) => Err(StepError::Value(e)),
                Ok(got) => if got == want {
                    Ok(())
                } else {
                    Err(StepError::Assertion(AssertionError { span, expected: want, actual: got }))
                },
            },
        },
    }
}

/// The checks among `events` from position `k` on: the first failure, if
/// there is one.
pub open spec fn checks_from(events: Seq<Event>, values: Seq<Value>, k: nat) -> Result<
    (),
    StepError,
>
    decreases events.len() - k,
{
    if k >= events.len() {
        Ok(())
    } else {
        match check_one(events[k as int], values) {
            Err(e) => Err(e),
            Ok(_) => checks_from(events, values, k + 1),
        }
    }
}

/// One schedule entry: its stimuli, then propagation to a fixed point, then
/// its checks.
pub open spec fn run_entry(drivers: Seq<Driver>, entry: Entry, s: Signals) -> Result<
    Signals,
    StepError,
> {
    match stimuli_from(entry.events@, entry.instant, s, 0) {
        Err(e) => Err(StepError::Value(e)),
        Ok(s1) => match settle(drivers, entry.instant, s1) {
            Err(e) => Err(e),
            Ok(s2) => match checks_from(entry.events@, s2.values, 0) {
                Err(e) => Err(e),
                Ok(_) => Ok(s2),
            },
        },
    }
}

/// The run of the schedule from entry `k` on: the signals at the end, or
/// the first failure.
pub open spec fn run_from(net: Netlist, s: Signals, k: nat) -> Result<Signals, StepError>
    decreases net.schedule@.len() - k,
{
    if k >= net.schedule@.len() {
        Ok(s)
    } else {
        match run_entry(net.drivers@, net.schedule@[k as int], s) {
            Err(e) => Err(e),
            Ok(s2) => run_from(net, s2, k + 1),
        }
    }
}

/// The signals before the first stimulus: every value is the bit false.
pub open spec fn initial(n: nat) -> Signals {
    Signals { values: Seq::new(n, |i: int| Value::Bit(false)), trace: Seq::empty() }
}

/// A pass that reports no change has changed nothing, and every driver
/// from `k` on already agrees with the value of its target.
pub proof fn lemma_quiet_pass(drivers: Seq<Driver>, instant: u64, s: Signals, changed: Option<usize>, k: nat)
    requires
        pass_from(drivers, instant, s, changed, k) is Ok,
        pass_from(drivers, instant, s, changed, k)->Ok_0.1 is None,
    ensures
        changed is None,
        pass_from(drivers, instant, s, changed, k)->Ok_0.0 == s,
        forall|j: int|
            k <= j < drivers.len() ==> eval((#[trigger] drivers[j]).expr, s.values, None) == Ok::<
                Value,
                ValueError,
            >(s.values[drivers[j].target as int]),
    decreases drivers.len() - k,
{
    if k < drivers.len() {
        let d = drivers[k as int];
        let v = eval(d.expr, s.values, None)->Ok_0;
        let next = if s.values[d.target as int] == v {
            changed
        } else {
            Some(d.target)
        };
        lemma_quiet_pass(drivers, instant, assign(s, instant, d.target, v), next, k + 1);
    }
}

/// Fixed point: where propagation succeeds, a further pass over the
/// resulting values would change none of them.
pub proof fn lemma_settle_is_fixed_point(drivers: Seq<Driver>, instant: u64, s: Signals, done: nat)
    requires
        settle_from(drivers, instant, s, done) is Ok,
    ensures
        stable(drivers, settle_from(drivers, instant, s, done)->Ok_0.values),
    decreases drivers.len() - done,
{
    match pass(drivers, instant, s) {
        Err(e) => {},
        Ok((s2, None)) => {
            lemma_quiet_pass(drivers, instant, s, None, 0);
        },
        Ok((s2, Some(t))) => {
            if done < drivers.len() {
                lemma_settle_is_fixed_point(drivers, instant, s2, done + 1);
            }
        },
    }
}

/// A signal that is driven by its own negation never settles: propagation
/// fails, whatever the values it starts from and whatever else is driven.
pub proof fn lemma_self_negation_fails(drivers: Seq<Driver>, instant: u64, s: Signals, k: int)
    requires
        0 <= k < drivers.len(),
        drivers[k].expr == LinkedExpr::Not(Box::new(LinkedExpr::Signal(drivers[k].target))),
    ensures
        settle(drivers, instant, s) is Err,
{
    if settle(drivers, instant, s) is Ok {
        lemma_settle_is_fixed_point(drivers, instant, s, 0);
        let vals = settle(drivers, instant, s)->Ok_0.values;
        assert(eval(drivers[k].expr, vals, None) == Ok::<Value, ValueError>(
            vals[drivers[k].target as int],
        ));
        assert(eval(drivers[k].expr, vals, None) == Ok::<Value, ValueError>(
            Value::Bit(!vals[drivers[k].target as int].bit()),
        )) by {
            reveal_with_fuel(eval, 3);
        }
    }
}

fn store(values: &mut Vec<Value>, trace: &mut Vec<Change>, instant: u64, target: usize, v: Value) -> (changed: bool)
    requires
        target < old(values)@.len(),
    ensures
        changed == (old(values)@[target as int] != v),
        (Signals { values: final(values)@, trace: final(trace)@ }) == assign(
            (Signals { values: old(values)@, trace: old(trace)@ }),
            instant,
            target,
            v,
        ),
        final(values)@.len() == old(values)@.len(),
{
    if values[target] == v {
        false
    } else {
        values.set(target, v);
        trace.push(Change { instant, signal: target, value: v });
        true
    }
}

fn run_pass(drivers: &Vec<Driver>, values: &mut Vec<Value>, trace: &mut Vec<Change>, instant: u64) -> (r: Result<
    Option<usize>,
    ValueError,
>)
    requires
        forall|k: int| 0 <= k < drivers@.len() ==> driver_wf(#[trigger] drivers@[k], old(values)@.len()),
    ensures
        final(values)@.len() == old(values)@.len(),
        match pass(drivers@, instant, (Signals { values: old(values)@, trace: old(trace)@ })) {
            Err(e) => r == Err::<Option<usize>, ValueError>(e),
            Ok((s, changed)) => r == Ok::<Option<usize>, ValueError>(changed) && s == (Signals {
                values: final(values)@,
                trace: final(trace)@,
            }),
        },
{
    let mut changed: Option<usize> = None;
    let mut k: usize = 0;
    while k < drivers.len()
        invariant
            k <= drivers@.len(),
            values@.len() == old(values)@.len(),
            forall|j: int| 0 <= j < drivers@.len() ==> driver_wf(#[trigger] drivers@[j], values@.len()),
            pass_from(drivers@, instant, (Signals { values: values@, trace: trace@ }), changed, k as nat)
                == pass(drivers@, instant, (Signals { values: old(values)@, trace: old(trace)@ })),
        decreases drivers@.len() - k,
    {
        let d = &drivers[k];
        assert(driver_wf(drivers@[k as int], values@.len()));
        match eval_expr(&d.expr, values, None) {
            Err(e) => {
                return Err(e);
            },
            Ok(v) => {
                if store(values, trace, instant, d.target, v) {
                    changed = Some(d.target);
                }
            },
        }
        k += 1;
    }
    Ok(changed)
}

fn run_settle(drivers: &Vec<Driver>, values: &mut Vec<Value>, trace: &mut Vec<Change>, instant: u64) -> (r: Result<
    (),
    StepError,
>)
    requires
        forall|k: int| 0 <= k < drivers@.len() ==> driver_wf(#[trigger] drivers@[k], old(values)@.len()),
    ensures
        final(values)@.len() == old(values)@.len(),
        match settle(drivers@, instant, (Signals { values: old(values)@, trace: old(trace)@ })) {
            Err(e) => r == Err::<(), StepError>(e),
            Ok(s) => r is Ok && s == (Signals { values: final(values)@, trace: final(trace)@ }),
        },
{
    let mut done: usize = 0;
    loop
        invariant
            done <= drivers@.len(),
            values@.len() == old(values)@.len(),
            forall|j: int| 0 <= j < drivers@.len() ==> driver_wf(#[trigger] drivers@[j], values@.len()),
            settle_from(drivers@, instant, (Signals { values: values@, trace: trace@ }), done as nat)
                == settle(drivers@, instant, (Signals { values: old(values)@, trace: old(trace)@ })),
        decreases drivers@.len() - done,
    {
        match run_pass(drivers, values, trace, instant) {
            Err(e) => {
                return Err(StepError::Value(e));
            },
            Ok(None) => {
                return Ok(());
            },
            Ok(Some(t)) => {
                if done >= drivers.len() {
                    return Err(StepError::NonConvergence(NonConvergence { signal: t, instant }));
                }
            },
        }
        done += 1;
    }
}

fn run_stimuli(events: &Vec<Event>, values: &mut Vec<Value>, trace: &mut Vec<Change>, instant: u64) -> (r: Result<
    (),
    ValueError,
>)
    requires
        forall|j: int| 0 <= j < events@.len() ==> event_wf(#[trigger] events@[j], old(values)@.len()),
    ensures
        final(values)@.len() == old(values)@.len(),
        match stimuli_from(events@, instant, (Signals { values: old(values)@, trace: old(trace)@ }), 0) {
            Err(e) => r == Err::<(), ValueError>(e),
            Ok(s) => r is Ok && s == (Signals { values: final(values)@, trace: final(trace)@ }),
        },
{
    let mut k: usize = 0;
    while k < events.len()
        invariant
            k <= events@.len(),
            values@.len() == old(values)@.len(),
            forall|j: int| 0 <= j < events@.len() ==> event_wf(#[trigger] events@[j], values@.len()),
            stimuli_from(events@, instant, (Signals { values: values@, trace: trace@ }), k as nat)
                == stimuli_from(
                events@,
                instant,
                (Signals { values: old(values)@, trace: old(trace)@ }),
                0,
            ),
        decreases events@.len() - k,
    {
        assert(event_wf(events@[k as int], values@.len()));
        match &events[k] {
            Event::Stimulus { target, expr, .. } => {
                match eval_expr(expr, values, None) {
                    Err(e) => {
                        return Err(e);
                    },
                    Ok(v) => {
                        store(values, trace, instant, *target, v);
                    },
                }
            },
            Event::Assert { .. } => {},
        }
        k += 1;
    }
    Ok(())
}

fn run_checks(events: &Vec<Event>, values: &Vec<Value>) -> (r: Result<(), StepError>)
    requires
        forall|j: int| 0 <= j < events@.len() ==> event_wf(#[trigger] events@[j], values@.len()),
    ensures
        r == checks_from(events@, values@, 0),
{
    let mut k: usize = 0;
    while k < events.len()
        invariant
            k <= events@.len(),
            forall|j: int| 0 <= j < events@.len() ==> event_wf(#[trigger] events@[j], values@.len()),
            checks_from(events@, values@, k as nat) == checks_from(events@, values@, 0),
        decreases events@.len() - k,
    {
        assert(event_wf(events@[k as int], values@.len()));
        match &events[k] {
            Event::Stimulus { .. } => {},
            Event::Assert { expr, expected, span, .. } => {
                match Value::try_from_constant(*expected, Some(*span)) {
                    Err(e) => {
                        return Err(StepError::Value(e));
                    },
                    Ok(want) => match eval_expr(expr, values, Some(*span)) {
                        Err(e) => {
                            return Err(StepError::Value(e));
                        },
                        Ok(got) => {
                            if got != want {
                                return Err(
                                    StepError::Assertion(
                                        AssertionError { span: *span, expected: want, actual: got },
                                    ),
                                );
                            }
                        },
                    },
                }
            },
        }
        k += 1;
    }
    Ok(())
}

/// The engine's state between steps.
pub struct Simulation {
    pub netlist: Netlist,
    pub values: Vec<Value>,
    pub trace: Vec<Change>,
    /// The instant of the entry applied last; zero before the first.
    pub time: u64,
    /// How many entries of the schedule have been applied.
    pub position: usize,
}

impl Simulation {
    pub open spec fn wf(&self) -> bool {
        &&& self.netlist.wf()
        &&& self.values@.len() == self.netlist.signals@.len()
        &&& self.position <= self.netlist.schedule@.len()
    }

    pub open spec fn signals(&self) -> Signals {
        Signals { values: self.values@, trace: self.trace@ }
    }

    /// Continue while the schedule has entries left.
    pub open spec fn state_spec(&self) -> SimulationState {
        if self.position < self.netlist.schedule@.len() {
            SimulationState::Continue
        } else {
            SimulationState::Halted
        }
    }

    /// An engine at time zero, with every signal at the bit false and no
    /// entry applied.
    pub fn new(netlist: Netlist) -> (r: Simulation)
        requires
            netlist.wf(),
        ensures
            r.wf(),
            r.netlist == netlist,
            r.signals() == initial(netlist.signals@.len()),
            r.time == 0,
            r.position == 0,
    {
        let mut values: Vec<Value> = Vec::new();
        let mut i: usize = 0;
        while i < netlist.signals.len()
            invariant
                i <= netlist.signals@.len(),
                values@.len() == i,
                forall|j: int| 0 <= j < i ==> values@[j] == Value::Bit(false),
            decreases netlist.signals@.len() - i,
        {
            values.push(Value::Bit(false));
            i += 1;
        }
        let trace: Vec<Change> = Vec::new();
        assert(values@ =~= initial(netlist.signals@.len()).values);
        assert(trace@ =~= initial(netlist.signals@.len()).trace);
        Simulation { netlist, values, trace, time: 0, position: 0 }
    }

    /// An engine over `netlist` where it is well formed.
    pub fn try_new(netlist: Netlist) -> (r: Option<Simulation>)
        ensures
            r is Some <==> netlist.wf(),
            r matches Some(sim) ==> {
                &&& sim.wf()
                &&& sim.netlist == netlist
                &&& sim.signals() == initial(netlist.signals@.len())
                &&& sim.time == 0
                &&& sim.position == 0
            },
    {
        if netlist.is_well_formed() {
            Some(Simulation::new(netlist))
        } else {
            None
        }
    }

    /// Whether the schedule has entries left.
    pub fn state(&self) -> (r: SimulationState)
        ensures
            r == self.state_spec(),
    {
        if self.position < self.netlist.schedule.len() {
            SimulationState::Continue
        } else {
            SimulationState::Halted
        }
    }

    /// Applies the next entry of the schedule: its stimuli, propagation to a
    /// fixed point, its checks. With no entry left nothing changes. On a
    /// failure the entry is not consumed and the clock stays where it was.
    pub fn step(&mut self) -> (r: Result<SimulationState, StepError>)
        requires
            old(self).wf(),
        ensures
            final(self).wf(),
            final(self).netlist == old(self).netlist,
            old(self).position >= old(self).netlist.schedule@.len() ==> r == Ok::<
                SimulationState,
                StepError,
            >(SimulationState::Halted) && *final(self) == *old(self),
            old(self).position < old(self).netlist.schedule@.len() ==> match run_entry(
                old(self).netlist.drivers@,
                old(self).netlist.schedule@[old(self).position as int],
                old(self).signals(),
            ) {
                Err(e) => {
                    &&& r == Err::<SimulationState, StepError>(e)
                    &&& final(self).position == old(self).position
                    &&& final(self).time == old(self).time
                },
                Ok(s) => {
                    &&& r == Ok::<SimulationState, StepError>(final(self).state_spec())
                    &&& final(self).signals() == s
                    &&& final(self).position == old(self).position + 1
                    &&& final(self).time == old(self).netlist.schedule@[old(self).position as int].instant
                },
            },
    {
        if self.position >= self.netlist.schedule.len() {
            return Ok(SimulationState::Halted);
        }
        assert(entry_wf(self.netlist.schedule@[self.position as int], self.values@.len()));
        let instant = self.netlist.schedule[self.position].instant;
        match run_stimuli(
            &self.netlist.schedule[self.position].events,
            &mut self.values,
            &mut self.trace,
            instant,
        ) {
            Err(e) => {
                return Err(StepError::Value(e));
            },
            Ok(_) => {},
        }
        match run_settle(&self.netlist.drivers, &mut self.values, &mut self.trace, instant) {
            Err(e) => {
                return Err(e);
            },
            Ok(_) => {},
        }
        match run_checks(&self.netlist.schedule[self.position].events, &self.values) {
            Err(e) => {
                return Err(e);
            },
            Ok(_) => {},
        }
        self.time = instant;
        self.position = self.position + 1;
        Ok(self.state())
    }
}

/// Runs the whole schedule of `netlist` from the initial state: the signals
/// and the trace at the end, or the first failure.
pub open spec fn run(netlist: Netlist) -> Result<Signals, StepError> {
    run_from(netlist, initial(netlist.signals@.len()), 0)
}

/// Drives an engine over `netlist` until it halts or fails, and returns the
/// value-change trace.
pub fn simulate(netlist: Netlist) -> (r: Result<Vec<Change>, StepError>)
    requires
        netlist.wf(),
    ensures
        match run(netlist) {
            Err(e) => r == Err::<Vec<Change>, StepError>(e),
            Ok(s) => r is Ok && r->Ok_0@ == s.trace,
        },
{
    let mut sim = Simulation::new(netlist);
    while sim.position < sim.netlist.schedule.len()
        invariant
            sim.wf(),
            sim.netlist == netlist,
            run_from(netlist, sim.signals(), sim.position as nat) == run(netlist),
        decreases sim.netlist.schedule@.len() - sim.position,
    {
        match sim.step() {
            Err(e) => {
                return Err(e);
            },
            Ok(_) => {},
        }
    }
    Ok(sim.trace)
}

} // verus!
