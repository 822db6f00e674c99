//! Running the tests of a program: elaboration, linking and simulation of
//! each, with the first failure as the result.

use vstd::prelude::*;
use crate::ast::{Program, Test, Variable};
use crate::instantiate::{elaborate, instantiate_program, ElabError, LocalizedVariable};
use crate::link::{conflict, earliest_conflict, first_undriven_from, has_conflict, link_process, links, target_of, undriven, LinkError};
use crate::netlist::Netlist;
use crate::simulation::{run, simulate, AssertionError, Change, NonConvergence, StepError};
use crate::value::ValueError;
use vstd::std_specs::convert::FromSpecImpl;

verus! {

/// Why a test did not pass.
#[derive(Debug)]
pub enum SimulationError {
    AssertionError(AssertionError),
    ValueError(ValueError),
    NonConvergence(NonConvergence),
    Instantiation(ElabError),
    Link(LinkError),
}

impl SimulationError {
    pub open spec fn of_step(e: StepError) -> SimulationError {
        match e {
            StepError::Assertion(a) => SimulationError::AssertionError(a),
            StepError::Value(v) => SimulationError::ValueError(v),
            StepError::NonConvergence(n) => SimulationError::NonConvergence(n),
        }
    }

    /// The failure of a test whose run stopped on `e`.
    pub fn from_step(e: StepError) -> (r: SimulationError)
        ensures
            r == SimulationError::of_step(e),
    {
        match e {
            StepError::Assertion(a) => SimulationError::from(a),
            StepError::Value(v) => SimulationError::from(v),
            StepError::NonConvergence(n) => SimulationError::from(n),
        }
    }
}

impl From<AssertionError> for SimulationError {
    fn from(e: AssertionError) -> (r: SimulationError) {
        SimulationError::AssertionError(e)
    }
}

impl FromSpecImpl<AssertionError> for SimulationError {
    open spec fn obeys_from_spec() -> bool {
        true
    }

    open spec fn from_spec(e: AssertionError) -> SimulationError {
        SimulationError::AssertionError(e)
    }
}

impl From<ValueError> for SimulationError {
    fn from(e: ValueError) -> (r: SimulationError) {
        SimulationError::ValueError(e)
    }
}

impl FromSpecImpl<ValueError> for SimulationError {
    open spec fn obeys_from_spec() -> bool {
        true
    }

    open spec fn from_spec(e: ValueError) -> SimulationError {
        SimulationError::ValueError(e)
    }
}

impl From<NonConvergence> for SimulationError {
    fn from(e: NonConvergence) -> (r: SimulationError) {
        SimulationError::NonConvergence(e)
    }
}

impl FromSpecImpl<NonConvergence> for SimulationError {
    open spec fn obeys_from_spec() -> bool {
        true
    }

    open spec fn from_spec(e: NonConvergence) -> SimulationError {
        SimulationError::NonConvergence(e)
    }
}

impl From<ElabError> for SimulationError {
    fn from(e: ElabError) -> (r: SimulationError) {
        SimulationError::Instantiation(e)
    }
}

impl FromSpecImpl<ElabError> for SimulationError {
    open spec fn obeys_from_spec() -> bool {
        true
    }

    open spec fn from_spec(e: ElabError) -> SimulationError {
        SimulationError::Instantiation(e)
    }
}

impl From<LinkError> for SimulationError {
    fn from(e: LinkError) -> (r: SimulationError) {
        SimulationError::Link(e)
    }
}

impl FromSpecImpl<LinkError> for SimulationError {
    open spec fn obeys_from_spec() -> bool {
        true
    }

    open spec fn from_spec(e: LinkError) -> SimulationError {
        SimulationError::Link(e)
    }
}

/// The unit in which the durations of a program are counted.
#[derive(Debug, Clone, Copy, PartialEq, Eq, Structural)]
pub enum TimeUnit {
    Nanoseconds,
}

/// How tests are run.
#[derive(Debug, Clone, Copy, PartialEq, Eq, Structural)]
pub struct SimulationConfig {
    /// Whether the value-change trace of each test is to be exported.
    pub create_vcd: bool,
    pub unit: TimeUnit,
}

impl Default for SimulationConfig {
    fn default() -> (r: SimulationConfig)
        ensures
            !r.create_vcd,
            r.unit == TimeUnit::Nanoseconds,
    {
        SimulationConfig { create_vcd: false, unit: TimeUnit::Nanoseconds }
    }
}

/// Runs the tests of one program.
pub struct Simulator {
    pub program: Program,
    pub config: SimulationConfig,
}

/// Whether `r` is the outcome of `test`: the failure of elaboration; else
/// the failure of linking, the earliest pair of conflicting drivers before
/// the first signal that is read and never assigned; else the outcome of
/// the run of the linked netlist, with its trace.
pub open spec fn outcome_is(p: Program, test: Test, r: Result<Seq<Change>, SimulationError>) -> bool {
    match elaborate(p, test) {
        Err(err) => r == Err::<Seq<Change>, SimulationError>(SimulationError::Instantiation(err)),
        Ok(flat) => if has_conflict(flat.items) {
            match r {
                Err(SimulationError::Link(LinkError::MultipleDrivers { signal, first, second })) => {
                    &&& conflict(flat.items, first as int, second as int)
                    &&& earliest_conflict(flat.items, first as int, second as int)
                    &&& Some(signal) == target_of(flat.items[second as int])
                },
                _ => false,
            }
        } else if exists|v: LocalizedVariable| undriven(flat.items, v) {
            match r {
                Err(SimulationError::Link(LinkError::UndrivenSignal { signal })) => Some(signal)
                    == first_undriven_from(flat.items, 0),
                _ => false,
            }
        } else {
            exists|net: Netlist| #[trigger]
                links(net, flat.items) && net.wf() && r == match run(net) {
                    Err(e) => Err::<Seq<Change>, SimulationError>(SimulationError::of_step(e)),
                    Ok(s) => Ok(s.trace),
                }
        },
    }
}

/// Whether `test` runs to the end of its schedule without a failure.
pub open spec fn passes(p: Program, test: Test) -> bool {
    exists|trace: Seq<Change>| #[trigger]
        outcome_is(p, test, Ok::<Seq<Change>, SimulationError>(trace))
}

/// Whether `test` stops on the failure `e`.
pub open spec fn fails_with(p: Program, test: Test, e: SimulationError) -> bool {
    outcome_is(p, test, Err::<Seq<Change>, SimulationError>(e))
}

pub open spec fn trace_view(r: Result<Vec<Change>, SimulationError>) -> Result<
    Seq<Change>,
    SimulationError,
> {
    match r {
        Ok(t) => Ok(t@),
        Err(e) => Err(e),
    }
}

impl Simulator {
    pub fn new(program: Program, config: SimulationConfig) -> (r: Result<Simulator, SimulationError>)
        ensures
            r == Ok::<Simulator, SimulationError>(Simulator { program, config }),
    {
        Ok(Simulator { program, config })
    }

    /// Whether the test at position `i` has the name `name`.
    pub open spec fn named(&self, i: int, name: Seq<char>) -> bool {
        0 <= i < self.program.tests@.len() && self.program.tests@[i].name.name() == name
    }

    /// Runs every test named `name`, in declaration order, up to the first
    /// that fails.
    pub fn run_test(&self, name: &str) -> (r: Result<(), SimulationError>)
        ensures
            match r {
                Ok(_) => forall|i: int| #[trigger]
                    self.named(i, name@) ==> passes(self.program, self.program.tests@[i]),
                Err(e) => exists|i: int| #[trigger]
                    self.named(i, name@) && fails_with(self.program, self.program.tests@[i], e) && (
                    forall|j: int|
                        j < i && #[trigger] self.named(j, name@) ==> passes(
                            self.program,
                            self.program.tests@[j],
                        )),
            },
    {
        let wanted = Variable::new(name);
        let mut k: usize = 0;
        while k < self.program.tests.len()
            invariant
                k <= self.program.tests@.len(),
                wanted.name() == name@,
                forall|j: int|
                    j < k && #[trigger] self.named(j, name@) ==> passes(
                        self.program,
                        self.program.tests@[j],
                    ),
            decreases self.program.tests@.len() - k,
        {
            if self.program.tests[k].name.same_name(&wanted) {
                match self._run_test(&self.program.tests[k]) {
                    Err(e) => {
                        assert(self.named(k as int, name@));
                        return Err(e);
                    },
                    Ok(_) => {},
                }
            }
            k += 1;
        }
        Ok(())
    }

    /// Runs one test and drops its trace.
    pub fn _run_test(&self, test: &Test) -> (r: Result<(), SimulationError>)
        ensures
            match r {
                Ok(_) => passes(self.program, *test),
                Err(e) => fails_with(self.program, *test, e),
            },
    {
        match self.execute_process(test) {
            Err(e) => Err(e),
            Ok(trace) => {
                assert(outcome_is(self.program, *test, Ok::<Seq<Change>, SimulationError>(trace@)));
                Ok(())
            },
        }
    }

    /// Runs every test in declaration order, up to the first that fails.
    pub fn run_all_tests(&self) -> (r: Result<(), SimulationError>)
        ensures
            match r {
                Ok(_) => forall|i: int|
                    0 <= i < self.program.tests@.len() ==> passes(
                        self.program,
                        #[trigger] self.program.tests@[i],
                    ),
                Err(e) => exists|i: int|
                    0 <= i < self.program.tests@.len() && fails_with(
                        self.program,
                        #[trigger] self.program.tests@[i],
                        e,
                    ) && (forall|j: int|
                        0 <= j < i ==> passes(self.program, #[trigger] self.program.tests@[j])),
            },
    {
        let mut k: usize = 0;
        while k < self.program.tests.len()
            invariant
                k <= self.program.tests@.len(),
                forall|j: int|
                    0 <= j < k ==> passes(self.program, #[trigger] self.program.tests@[j]),
            decreases self.program.tests@.len() - k,
        {
            match self._run_test(&self.program.tests[k]) {
                Err(e) => {
                    return Err(e);
                },
                Ok(_) => {},
            }
            k += 1;
        }
        Ok(())
    }

    /// Elaborates, links and simulates one test, and returns its
    /// value-change trace.
    pub fn execute_process(&self, test: &Test) -> (r: Result<Vec<Change>, SimulationError>)
        ensures
            outcome_is(self.program, *test, trace_view(r)),
    {
        let elaborated = match instantiate_program(&self.program, test) {
            Err(err) => {
                return Err(SimulationError::from(err));
            },
            Ok(elaborated) => elaborated,
        };
        let netlist = match link_process(&elaborated) {
            Err(err) => {
                return Err(SimulationError::from(err));
            },
            Ok(netlist) => netlist,
        };
        let ghost net = netlist;
        match simulate(netlist) {
            Err(e) => {
                let r = Err(SimulationError::from_step(e));
                assert(links(net, elaborated.items@));
                r
            },
            Ok(trace) => {
                assert(links(net, elaborated.items@));
                Ok(trace)
            },
        }
    }
}

} // verus!
