//! Propagation over an acyclic netlist reaches a fixed point within the
//! engine's bound on passes.

use vstd::prelude::*;
use crate::netlist::{distinct_targets, driver_wf, drivers_wf, eval, in_range, reads, Driver, LinkedExpr};
use crate::simulation::{assign, lemma_self_negation_fails, pass, pass_from, settle, settle_from, Signals, StepError};
use crate::span::Span;
use crate::value::{Value, ValueError};

verus! {

/// The drivers form no cycle: `level` ranks the signals so that every
/// driven signal has a level from 1 to the number of drivers, above the
/// level of each signal that its driver reads.
pub open spec fn acyclic(drivers: Seq<Driver>, level: spec_fn(usize) -> nat) -> bool {
    forall|k: int|
        0 <= k < drivers.len() ==> {
            &&& 1 <= level((#[trigger] drivers[k]).target) <= drivers.len()
            &&& forall|s: usize| #[trigger]
                reads(drivers[k].expr, s) ==> level(s) < level(drivers[k].target)
        }
}

/// Every driver whose target has a level up to `bound` agrees with the
/// value of its target.
pub open spec fn settled_upto(
    drivers: Seq<Driver>,
    values: Seq<Value>,
    level: spec_fn(usize) -> nat,
    bound: nat,
) -> bool {
    forall|k: int|
        0 <= k < drivers.len() && level((#[trigger] drivers[k]).target) <= bound ==> eval(
            drivers[k].expr,
            values,
            None,
        ) == Ok::<Value, ValueError>(values[drivers[k].target as int])
}

/// `a` and `b` hold the same value for every signal of a level up to
/// `bound`.
pub open spec fn agree_upto(a: Seq<Value>, b: Seq<Value>, level: spec_fn(usize) -> nat, bound: nat) -> bool {
    &&& a.len() == b.len()
    &&& forall|s: usize| s < a.len() && #[trigger] level(s) <= bound ==> a[s as int] == b[s as int]
}

/// Of the drivers before `k`, each whose target has the level `bound + 1`
/// has given its target the value that it has under `base`.
pub open spec fn fresh_upto(
    drivers: Seq<Driver>,
    values: Seq<Value>,
    base: Seq<Value>,
    level: spec_fn(usize) -> nat,
    bound: nat,
    k: nat,
) -> bool {
    forall|j: int|
        0 <= j < k && j < drivers.len() && level((#[trigger] drivers[j]).target) == bound + 1 ==> eval(
            drivers[j].expr,
            base,
            None,
        ) == Ok::<Value, ValueError>(values[drivers[j].target as int])
}

/// An expression within range reads only signals of the table.
pub proof fn lemma_reads_in_range(e: LinkedExpr, n: nat, s: usize)
    requires
        in_range(e, n),
        reads(e, s),
    ensures
        s < n,
    decreases e,
{
    match e {
        LinkedExpr::Signal(_) => {},
        LinkedExpr::Constant(_) => {},
        LinkedExpr::Not(a) => {
            lemma_reads_in_range(*a, n, s);
        },
        LinkedExpr::Gate(_, a, b) => {
            if reads(*a, s) {
                lemma_reads_in_range(*a, n, s);
            } else {
                lemma_reads_in_range(*b, n, s);
            }
        },
    }
}

/// The value of an expression depends only on the signals that it reads.
pub proof fn lemma_eval_frame(e: LinkedExpr, a: Seq<Value>, b: Seq<Value>, span: Option<Span>)
    requires
        forall|s: usize| #[trigger] reads(e, s) ==> a[s as int] == b[s as int],
    ensures
        eval(e, a, span) == eval(e, b, span),
    decreases e,
{
    match e {
        LinkedExpr::Signal(i) => {
            assert(reads(e, i));
        },
        LinkedExpr::Constant(_) => {},
        LinkedExpr::Not(x) => {
            assert forall|s: usize| #[trigger] reads(*x, s) implies a[s as int] == b[s as int] by {
                assert(reads(e, s));
            }
            lemma_eval_frame(*x, a, b, span);
        },
        LinkedExpr::Gate(_, x, y) => {
            assert forall|s: usize| #[trigger] reads(*x, s) implies a[s as int] == b[s as int] by {
                assert(reads(e, s));
            }
            assert forall|s: usize| #[trigger] reads(*y, s) implies a[s as int] == b[s as int] by {
                assert(reads(e, s));
            }
            lemma_eval_frame(*x, a, b, span);
            lemma_eval_frame(*y, a, b, span);
        },
    }
}

/// A driver whose target has a level up to `bound + 1` has the same value
/// under any values that agree with `base` up to `bound`.
proof fn lemma_driver_frame(
    drivers: Seq<Driver>,
    level: spec_fn(usize) -> nat,
    bound: nat,
    base: Seq<Value>,
    values: Seq<Value>,
    k: int,
)
    requires
        0 <= k < drivers.len(),
        drivers_wf(drivers, base.len()),
        acyclic(drivers, level),
        agree_upto(values, base, level, bound),
        level(drivers[k].target) <= bound + 1,
    ensures
        eval(drivers[k].expr, values, None) == eval(drivers[k].expr, base, None),
{
    let d = drivers[k];
    assert(driver_wf(d, base.len()));
    assert forall|s: usize| #[trigger] reads(d.expr, s) implies values[s as int] == base[s as int] by {
        lemma_reads_in_range(d.expr, base.len(), s);
        assert(level(s) < level(d.target));
        assert(level(s) <= bound);
    }
    lemma_eval_frame(d.expr, values, base, None);
}

/// During a pass that starts from values settled up to `bound`, no signal
/// of such a level changes, and every driver of the next level gives its
/// target the value it has under the values at the start.
proof fn lemma_pass_level(
    drivers: Seq<Driver>,
    instant: u64,
    level: spec_fn(usize) -> nat,
    bound: nat,
    base: Seq<Value>,
    cur: Signals,
    changed: Option<usize>,
    k: nat,
)
    requires
        k <= drivers.len(),
        drivers_wf(drivers, base.len()),
        distinct_targets(drivers),
        acyclic(drivers, level),
        settled_upto(drivers, base, level, bound),
        agree_upto(cur.values, base, level, bound),
        fresh_upto(drivers, cur.values, base, level, bound, k),
    ensures
        pass_from(drivers, instant, cur, changed, k) matches Ok(r) ==> agree_upto(
            r.0.values,
            base,
            level,
            bound,
        ) && fresh_upto(drivers, r.0.values, base, level, bound, drivers.len()),
    decreases drivers.len() - k,
{
    if k < drivers.len() {
        let d = drivers[k as int];
        assert(driver_wf(d, base.len()));
        match eval(d.expr, cur.values, None) {
            Err(_) => {},
            Ok(v) => {
                let next = assign(cur, instant, d.target, v);
                let flag = if cur.values[d.target as int] == v {
                    changed
                } else {
                    Some(d.target)
                };
                if level(d.target) <= bound + 1 {
                    lemma_driver_frame(drivers, level, bound, base, cur.values, k as int);
                }
                assert(agree_upto(next.values, base, level, bound));
                assert forall|j: int|
                    0 <= j < k + 1 && j < drivers.len() && level((#[trigger] drivers[j]).target)
                        == bound + 1 implies eval(drivers[j].expr, base, None) == Ok::<
                    Value,
                    ValueError,
                >(next.values[drivers[j].target as int]) by {
                    if j < k {
                        assert(drivers[j].target != drivers[k as int].target);
                        assert(driver_wf(drivers[j], base.len()));
                    }
                }
                lemma_pass_level(drivers, instant, level, bound, base, next, flag, k + 1);
            },
        }
    }
}

/// A pass from values settled up to `bound` leaves values settled up to
/// `bound + 1`.
proof fn lemma_pass_settles_next(
    drivers: Seq<Driver>,
    instant: u64,
    level: spec_fn(usize) -> nat,
    bound: nat,
    s: Signals,
)
    requires
        drivers_wf(drivers, s.values.len()),
        distinct_targets(drivers),
        acyclic(drivers, level),
        settled_upto(drivers, s.values, level, bound),
    ensures
        pass(drivers, instant, s) matches Ok(r) ==> r.0.values.len() == s.values.len() && settled_upto(
            drivers,
            r.0.values,
            level,
            (bound + 1) as nat,
        ),
{
    let base = s.values;
    lemma_pass_level(drivers, instant, level, bound, base, s, None, 0);
    if let Ok(r) = pass(drivers, instant, s) {
        let fin = r.0.values;
        assert forall|k: int|
            0 <= k < drivers.len() && level((#[trigger] drivers[k]).target) <= bound + 1 implies eval(
            drivers[k].expr,
            fin,
            None,
        ) == Ok::<Value, ValueError>(fin[drivers[k].target as int]) by {
            lemma_driver_frame(drivers, level, bound, base, fin, k);
            assert(driver_wf(drivers[k], base.len()));
        }
    }
}

/// A pass over stable values changes nothing.
pub proof fn lemma_stable_pass(drivers: Seq<Driver>, instant: u64, s: Signals, changed: Option<usize>, k: nat)
    requires
        forall|j: int|
            k <= j < drivers.len() ==> eval((#[trigger] drivers[j]).expr, s.values, None) == Ok::<
                Value,
                ValueError,
            >(s.values[drivers[j].target as int]),
    ensures
        pass_from(drivers, instant, s, changed, k) == Ok::<(Signals, Option<usize>), ValueError>(
            (s, changed),
        ),
    decreases drivers.len() - k,
{
    if k < drivers.len() {
        assert(assign(s, instant, drivers[k as int].target, s.values[drivers[k as int].target as int]) == s);
        lemma_stable_pass(drivers, instant, s, changed, k + 1);
    }
}

proof fn lemma_settle_from_level(
    drivers: Seq<Driver>,
    instant: u64,
    level: spec_fn(usize) -> nat,
    s: Signals,
    done: nat,
)
    requires
        done <= drivers.len(),
        drivers_wf(drivers, s.values.len()),
        distinct_targets(drivers),
        acyclic(drivers, level),
        settled_upto(drivers, s.values, level, done),
    ensures
        !(settle_from(drivers, instant, s, done) matches Err(StepError::NonConvergence(_))),
    decreases drivers.len() - done,
{
    if done >= drivers.len() {
        lemma_stable_pass(drivers, instant, s, None, 0);
    } else {
        lemma_pass_settles_next(drivers, instant, level, done, s);
        match pass(drivers, instant, s) {
            Ok((s2, Some(_))) => {
                lemma_settle_from_level(drivers, instant, level, s2, done + 1);
            },
            _ => {},
        }
    }
}

/// Fixed-point termination: over drivers that form no cycle, propagation
/// never runs out of passes, whatever the values it starts from. It ends in
/// stable values, or on a value error of one of the expressions.
pub proof fn lemma_acyclic_settles(
    drivers: Seq<Driver>,
    instant: u64,
    level: spec_fn(usize) -> nat,
    s: Signals,
)
    requires
        drivers_wf(drivers, s.values.len()),
        distinct_targets(drivers),
        acyclic(drivers, level),
    ensures
        !(settle(drivers, instant, s) matches Err(StepError::NonConvergence(_))),
{
    lemma_settle_from_level(drivers, instant, level, s, 0);
}

/// Whether `e` holds no numeric literal.
pub open spec fn bits_only(e: LinkedExpr) -> bool
    decreases e,
{
    match e {
        LinkedExpr::Signal(_) => true,
        LinkedExpr::Constant(c) => c is Bit,
        LinkedExpr::Not(a) => bits_only(*a),
        LinkedExpr::Gate(_, a, b) => bits_only(*a) && bits_only(*b),
    }
}

pub open spec fn all_bits_only(drivers: Seq<Driver>) -> bool {
    forall|k: int| 0 <= k < drivers.len() ==> bits_only((#[trigger] drivers[k]).expr)
}

/// An expression without numeric literals has a value.
pub proof fn lemma_bits_only_eval(e: LinkedExpr, values: Seq<Value>, span: Option<Span>)
    requires
        bits_only(e),
    ensures
        eval(e, values, span) is Ok,
    decreases e,
{
    match e {
        LinkedExpr::Signal(_) => {},
        LinkedExpr::Constant(_) => {},
        LinkedExpr::Not(a) => {
            lemma_bits_only_eval(*a, values, span);
        },
        LinkedExpr::Gate(_, a, b) => {
            lemma_bits_only_eval(*a, values, span);
            lemma_bits_only_eval(*b, values, span);
        },
    }
}

/// A pass over drivers without numeric literals does not fail.
pub proof fn lemma_bits_only_pass(drivers: Seq<Driver>, instant: u64, s: Signals, changed: Option<usize>, k: nat)
    requires
        all_bits_only(drivers),
    ensures
        pass_from(drivers, instant, s, changed, k) is Ok,
    decreases drivers.len() - k,
{
    if k < drivers.len() {
        let d = drivers[k as int];
        lemma_bits_only_eval(d.expr, s.values, None);
        let v = eval(d.expr, s.values, None)->Ok_0;
        lemma_bits_only_pass(
            drivers,
            instant,
            assign(s, instant, d.target, v),
            if s.values[d.target as int] == v {
                changed
            } else {
                Some(d.target)
            },
            k + 1,
        );
    }
}

/// Over drivers without numeric literals propagation fails only by
/// running out of passes.
pub proof fn lemma_bits_only_settle(drivers: Seq<Driver>, instant: u64, s: Signals, done: nat)
    requires
        all_bits_only(drivers),
    ensures
        settle_from(drivers, instant, s, done) is Err ==> settle_from(drivers, instant, s, done)
            matches Err(StepError::NonConvergence(_)),
    decreases drivers.len() - done,
{
    lemma_bits_only_pass(drivers, instant, s, None, 0);
    match pass(drivers, instant, s) {
        Ok((s2, Some(_))) => {
            if done < drivers.len() {
                lemma_bits_only_settle(drivers, instant, s2, done + 1);
            }
        },
        _ => {},
    }
}

/// Over drivers that form no cycle and hold no numeric literal,
/// propagation ends in stable values.
pub proof fn lemma_acyclic_bits_settle(
    drivers: Seq<Driver>,
    instant: u64,
    level: spec_fn(usize) -> nat,
    s: Signals,
)
    requires
        drivers_wf(drivers, s.values.len()),
        distinct_targets(drivers),
        acyclic(drivers, level),
        all_bits_only(drivers),
    ensures
        settle(drivers, instant, s) is Ok,
        crate::simulation::stable(drivers, settle(drivers, instant, s)->Ok_0.values),
{
    lemma_acyclic_settles(drivers, instant, level, s);
    lemma_bits_only_settle(drivers, instant, s, 0);
    crate::simulation::lemma_settle_is_fixed_point(drivers, instant, s, 0);
}

/// Where a signal is driven by its own negation and no driver holds a
/// numeric literal, propagation is reported as not converging.
pub proof fn lemma_self_negation_is_non_convergence(drivers: Seq<Driver>, instant: u64, s: Signals, k: int)
    requires
        0 <= k < drivers.len(),
        drivers[k].expr == LinkedExpr::Not(Box::new(LinkedExpr::Signal(drivers[k].target))),
        all_bits_only(drivers),
    ensures
        settle(drivers, instant, s) matches Err(StepError::NonConvergence(_)),
{
    lemma_self_negation_fails(drivers, instant, s, k);
    lemma_bits_only_settle(drivers, instant, s, 0);
}

} // verus!
