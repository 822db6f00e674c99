//! The outcome of a test is a function of the program and the test.

use vstd::prelude::*;
use crate::ast::{Program, Test};
use crate::instantiate::{elaborate, ElabItem, LocalExpr, LocalizedVariable};
use crate::link::{
    distinct, driver_ok, event_ok, expr_of, has_conflict, holds, is_driver_item, is_event_item, links,
    resolves, target_of,
};
use crate::netlist::{event_expr, event_source, Entry, Event, LinkedExpr, Netlist};
use crate::sim::{outcome_is, SimulationError};
use crate::simulation::{run, run_entry, run_from, Change, Signals};

verus! {

pub open spec fn increasing(a: Seq<int>) -> bool {
    forall|i: int, j: int| 0 <= i < j < a.len() ==> a[i] < a[j]
}

/// Two strictly increasing sequences with the same elements are equal.
pub proof fn lemma_increasing_unique(a: Seq<int>, b: Seq<int>)
    requires
        increasing(a),
        increasing(b),
        forall|i: int| 0 <= i < a.len() ==> b.contains(#[trigger] a[i]),
        forall|j: int| 0 <= j < b.len() ==> a.contains(#[trigger] b[j]),
    ensures
        a == b,
    decreases a.len(),
{
    if a.len() == 0 {
        if b.len() > 0 {
            assert(a.contains(b[0]));
        }
        assert(a =~= b);
    } else {
        assert(b.contains(a[0]));
        let la = a.last();
        let lb = b.last();
        assert(b.contains(a[a.len() - 1]));
        assert(a.contains(b[b.len() - 1]));
        let j = choose|j: int| 0 <= j < b.len() && b[j] == la;
        let i = choose|i: int| 0 <= i < a.len() && a[i] == lb;
        assert(la <= lb) by {
            if j < b.len() - 1 {
                assert(b[j] < b[b.len() - 1]);
            }
        }
        assert(lb <= la) by {
            if i < a.len() - 1 {
                assert(a[i] < a[a.len() - 1]);
            }
        }
        let a1 = a.drop_last();
        let b1 = b.drop_last();
        assert forall|x: int| 0 <= x < a1.len() implies b1.contains(#[trigger] a1[x]) by {
            assert(a1[x] == a[x]);
            assert(a[x] < a[a.len() - 1]);
            assert(b.contains(a[x]));
            let y = choose|y: int| 0 <= y < b.len() && b[y] == a[x];
            assert(y < b.len() - 1);
            assert(b1[y] == a1[x]);
        }
        assert forall|y: int| 0 <= y < b1.len() implies a1.contains(#[trigger] b1[y]) by {
            assert(b1[y] == b[y]);
            assert(b[y] < b[b.len() - 1]);
            assert(a.contains(b[y]));
            let x = choose|x: int| 0 <= x < a.len() && a[x] == b[y];
            assert(x < a.len() - 1);
            assert(a1[x] == b1[y]);
        }
        assert(increasing(a1)) by {
            assert forall|x: int, y: int| 0 <= x < y < a1.len() implies a1[x] < a1[y] by {
                assert(a[x] < a[y]);
            }
        }
        assert(increasing(b1)) by {
            assert forall|x: int, y: int| 0 <= x < y < b1.len() implies b1[x] < b1[y] by {
                assert(b[x] < b[y]);
            }
        }
        lemma_increasing_unique(a1, b1);
        assert(a =~= a1.push(la));
        assert(b =~= b1.push(lb));
    }
}

/// Over a table without repeated signals an expression resolves in one way
/// only.
pub proof fn lemma_resolves_unique(
    l1: LinkedExpr,
    l2: LinkedExpr,
    e: LocalExpr,
    signals: Seq<LocalizedVariable>,
)
    requires
        resolves(l1, e, signals),
        resolves(l2, e, signals),
        distinct(signals),
    ensures
        l1 == l2,
    decreases e,
{
    match e {
        LocalExpr::Signal(v) => {
            let i = l1->Signal_0;
            let j = l2->Signal_0;
            lemma_index_unique(signals, v, i as int, j as int);
        },
        LocalExpr::Constant(_) => {},
        LocalExpr::Not(a) => {
            lemma_resolves_unique(*l1->Not_0, *l2->Not_0, *a, signals);
        },
        LocalExpr::Gate(_, a, b) => {
            lemma_resolves_unique(*l1->Gate_1, *l2->Gate_1, *a, signals);
            lemma_resolves_unique(*l1->Gate_2, *l2->Gate_2, *b, signals);
        },
    }
}

/// A signal has one index in a table without repeated signals.
pub proof fn lemma_index_unique(signals: Seq<LocalizedVariable>, v: LocalizedVariable, i: int, j: int)
    requires
        distinct(signals),
        0 <= i < signals.len(),
        0 <= j < signals.len(),
        signals[i].same(&v),
        signals[j].same(&v),
    ensures
        i == j,
{
    if i < j {
        assert(signals[i].same(&signals[j]));
    } else if j < i {
        assert(signals[j].same(&signals[i]));
    }
}

/// Two netlists that link the same items have the same drivers.
pub proof fn lemma_drivers_unique(n1: Netlist, n2: Netlist, items: Seq<ElabItem>)
    requires
        links(n1, items),
        links(n2, items),
    ensures
        n1.drivers@ == n2.drivers@,
{
    let d1 = n1.drivers@;
    let d2 = n2.drivers@;
    let a = Seq::new(d1.len(), |x: int| d1[x].source as int);
    let b = Seq::new(d2.len(), |x: int| d2[x].source as int);
    assert forall|i: int| 0 <= i < a.len() implies b.contains(#[trigger] a[i]) by {
        assert(driver_ok(d1[i], items, n1.signals@));
        assert(is_driver_item(items, a[i]));
        let y = choose|y: int| 0 <= y < d2.len() && (#[trigger] d2[y]).source == a[i];
        assert(b[y] == a[i]);
    }
    assert forall|j: int| 0 <= j < b.len() implies a.contains(#[trigger] b[j]) by {
        assert(driver_ok(d2[j], items, n2.signals@));
        assert(is_driver_item(items, b[j]));
        let y = choose|y: int| 0 <= y < d1.len() && (#[trigger] d1[y]).source == b[j];
        assert(a[y] == b[j]);
    }
    assert(increasing(a)) by {
        assert forall|x: int, y: int| 0 <= x < y < a.len() implies a[x] < a[y] by {
            assert(d1[x].source < d1[y].source);
        }
    }
    assert(increasing(b)) by {
        assert forall|x: int, y: int| 0 <= x < y < b.len() implies b[x] < b[y] by {
            assert(d2[x].source < d2[y].source);
        }
    }
    lemma_increasing_unique(a, b);
    assert(d1.len() == d2.len());
    assert forall|x: int| 0 <= x < d1.len() implies d1[x] == d2[x] by {
        assert(a[x] == b[x]);
        assert(driver_ok(d1[x], items, n1.signals@));
        assert(driver_ok(d2[x], items, n2.signals@));
        let k = d1[x].source as int;
        lemma_index_unique(
            n1.signals@,
            target_of(items[k])->Some_0,
            d1[x].target as int,
            d2[x].target as int,
        );
        lemma_resolves_unique(d1[x].expr, d2[x].expr, expr_of(items[k])->Some_0, n1.signals@);
    }
    assert(d1 =~= d2);
}

/// An event that links an item at an instant is the only one that does.
proof fn lemma_event_unique(
    e1: Event,
    e2: Event,
    t1: u64,
    t2: u64,
    items: Seq<ElabItem>,
    signals: Seq<LocalizedVariable>,
)
    requires
        distinct(signals),
        event_ok(e1, t1, items, signals),
        event_ok(e2, t2, items, signals),
        event_source(e1) == event_source(e2),
    ensures
        e1 == e2,
        t1 == t2,
{
    let k = event_source(e1) as int;
    lemma_resolves_unique(event_expr(e1), event_expr(e2), expr_of(items[k])->Some_0, signals);
    match e1 {
        Event::Stimulus { target, .. } => {
            lemma_index_unique(
                signals,
                target_of(items[k])->Some_0,
                target as int,
                e2->Stimulus_target as int,
            );
        },
        Event::Assert { .. } => {},
    }
}

/// Whether two schedules have the same entries: the same instants with
/// the same events.
pub open spec fn same_schedule(s1: Seq<Entry>, s2: Seq<Entry>) -> bool {
    &&& s1.len() == s2.len()
    &&& forall|i: int|
        0 <= i < s1.len() ==> (#[trigger] s1[i]).instant == s2[i].instant && s1[i].events@
            == s2[i].events@
}

/// Every event of the first schedule is in the second, at the same
/// instant.
proof fn lemma_events_carry_over(n1: Netlist, n2: Netlist, items: Seq<ElabItem>, a: int, b: int)
    requires
        links(n1, items),
        links(n2, items),
        0 <= a < n1.schedule@.len(),
        0 <= b < n1.schedule@[a].events@.len(),
    ensures
        holds(n2.schedule@, n1.schedule@[a].instant, n1.schedule@[a].events@[b]),
{
    let t = n1.schedule@[a].instant;
    let e = n1.schedule@[a].events@[b];
    assert(holds(n1.schedule@, t, e));
    assert(event_ok(e, t, items, n1.signals@));
    let k = event_source(e) as int;
    assert(is_event_item(items, k));
    let (t2, e2) = choose|t2: u64, e2: Event| #[trigger]
        holds(n2.schedule@, t2, e2) && event_source(e2) == k;
    assert(event_ok(e2, t2, items, n2.signals@));
    lemma_event_unique(e, e2, t, t2, items, n1.signals@);
}

proof fn lemma_instants_unique(n1: Netlist, n2: Netlist, items: Seq<ElabItem>)
    requires
        links(n1, items),
        links(n2, items),
    ensures
        n1.schedule@.len() == n2.schedule@.len(),
        forall|i: int|
            0 <= i < n1.schedule@.len() ==> (#[trigger] n1.schedule@[i]).instant
                == n2.schedule@[i].instant,
{
    let s1 = n1.schedule@;
    let s2 = n2.schedule@;
    let a = Seq::new(s1.len(), |x: int| s1[x].instant as int);
    let b = Seq::new(s2.len(), |x: int| s2[x].instant as int);
    assert forall|i: int| 0 <= i < a.len() implies b.contains(#[trigger] a[i]) by {
        assert(s1[i].events@.len() > 0);
        lemma_events_carry_over(n1, n2, items, i, 0);
        let (x, y) = choose|x: int, y: int|
            0 <= x < s2.len() && 0 <= y < s2[x].events@.len() && s2[x].instant == s1[i].instant
                && #[trigger] s2[x].events@[y] == s1[i].events@[0];
        assert(b[x] == a[i]);
    }
    assert forall|j: int| 0 <= j < b.len() implies a.contains(#[trigger] b[j]) by {
        assert(s2[j].events@.len() > 0);
        lemma_events_carry_over(n2, n1, items, j, 0);
        let (x, y) = choose|x: int, y: int|
            0 <= x < s1.len() && 0 <= y < s1[x].events@.len() && s1[x].instant == s2[j].instant
                && #[trigger] s1[x].events@[y] == s2[j].events@[0];
        assert(a[x] == b[j]);
    }
    assert(increasing(a)) by {
        assert forall|x: int, y: int| 0 <= x < y < a.len() implies a[x] < a[y] by {
            assert(s1[x].instant < s1[y].instant);
        }
    }
    assert(increasing(b)) by {
        assert forall|x: int, y: int| 0 <= x < y < b.len() implies b[x] < b[y] by {
            assert(s2[x].instant < s2[y].instant);
        }
    }
    lemma_increasing_unique(a, b);
    assert forall|i: int| 0 <= i < s1.len() implies (#[trigger] s1[i]).instant == s2[i].instant by {
        assert(a[i] == b[i]);
    }
}

/// Every event of entry `i` of the first schedule is in entry `i` of the
/// second.
proof fn lemma_entry_carries_over(n1: Netlist, n2: Netlist, items: Seq<ElabItem>, i: int, j: int) -> (y: int)
    requires
        links(n1, items),
        links(n2, items),
        n1.schedule@.len() == n2.schedule@.len(),
        forall|i: int|
            0 <= i < n1.schedule@.len() ==> (#[trigger] n1.schedule@[i]).instant
                == n2.schedule@[i].instant,
        0 <= i < n1.schedule@.len(),
        0 <= j < n1.schedule@[i].events@.len(),
    ensures
        0 <= y < n2.schedule@[i].events@.len(),
        n2.schedule@[i].events@[y] == n1.schedule@[i].events@[j],
{
    let s1 = n1.schedule@;
    let s2 = n2.schedule@;
    lemma_events_carry_over(n1, n2, items, i, j);
    let (x, y) = choose|x: int, y: int|
        0 <= x < s2.len() && 0 <= y < s2[x].events@.len() && s2[x].instant == s1[i].instant
            && #[trigger] s2[x].events@[y] == s1[i].events@[j];
    assert(s1[i].instant == s2[i].instant);
    if x < i {
        assert(s2[x].instant < s2[i].instant);
    } else if i < x {
        assert(s2[i].instant < s2[x].instant);
    }
    y
}

/// Two netlists that link the same items have the same schedule.
pub proof fn lemma_schedule_unique(n1: Netlist, n2: Netlist, items: Seq<ElabItem>)
    requires
        links(n1, items),
        links(n2, items),
    ensures
        same_schedule(n1.schedule@, n2.schedule@),
{
    let s1 = n1.schedule@;
    let s2 = n2.schedule@;
    lemma_instants_unique(n1, n2, items);
    lemma_instants_unique(n2, n1, items);
    assert forall|i: int| 0 <= i < s1.len() implies (#[trigger] s1[i]).instant == s2[i].instant
        && s1[i].events@ == s2[i].events@ by {
        let v1 = s1[i].events@;
        let v2 = s2[i].events@;
        let a = Seq::new(v1.len(), |x: int| event_source(v1[x]) as int);
        let b = Seq::new(v2.len(), |x: int| event_source(v2[x]) as int);
        assert forall|j: int| 0 <= j < a.len() implies b.contains(#[trigger] a[j]) by {
            let y = lemma_entry_carries_over(n1, n2, items, i, j);
            assert(b[y] == a[j]);
        }
        assert forall|j: int| 0 <= j < b.len() implies a.contains(#[trigger] b[j]) by {
            let y = lemma_entry_carries_over(n2, n1, items, i, j);
            assert(a[y] == b[j]);
        }
        assert(crate::link::ordered(s1[i]));
        assert(crate::link::ordered(s2[i]));
        assert(increasing(a)) by {
            assert forall|x: int, y: int| 0 <= x < y < a.len() implies a[x] < a[y] by {
                assert(event_source(v1[x]) < event_source(v1[y]));
            }
        }
        assert(increasing(b)) by {
            assert forall|x: int, y: int| 0 <= x < y < b.len() implies b[x] < b[y] by {
                assert(event_source(v2[x]) < event_source(v2[y]));
            }
        }
        lemma_increasing_unique(a, b);
        assert(v1.len() == v2.len());
        assert forall|j: int| 0 <= j < v1.len() implies v1[j] == v2[j] by {
            assert(a[j] == b[j]);
            assert(s1[i].events@[j] == v1[j]);
            assert(s2[i].events@[j] == v2[j]);
            assert(holds(s1, s1[i].instant, v1[j]));
            assert(holds(s2, s2[i].instant, v2[j]));
            lemma_event_unique(v1[j], v2[j], s1[i].instant, s2[i].instant, items, n1.signals@);
        }
        assert(v1 =~= v2);
    }
}

/// The run of a schedule depends on the drivers and on the instants and
/// events of the entries only.
pub proof fn lemma_run_from_same(n1: Netlist, n2: Netlist, s: Signals, k: nat)
    requires
        n1.drivers@ == n2.drivers@,
        same_schedule(n1.schedule@, n2.schedule@),
    ensures
        run_from(n1, s, k) == run_from(n2, s, k),
    decreases n1.schedule@.len() - k,
{
    if k < n1.schedule@.len() {
        let e1 = n1.schedule@[k as int];
        let e2 = n2.schedule@[k as int];
        assert(e1.instant == e2.instant && e1.events@ == e2.events@);
        assert(run_entry(n1.drivers@, e1, s) == run_entry(n2.drivers@, e2, s));
        match run_entry(n1.drivers@, e1, s) {
            Err(_) => {},
            Ok(s2) => {
                lemma_run_from_same(n1, n2, s2, k + 1);
            },
        }
    }
}

/// Two netlists that link the same items run alike.
pub proof fn lemma_linked_run_unique(n1: Netlist, n2: Netlist, items: Seq<ElabItem>)
    requires
        links(n1, items),
        links(n2, items),
    ensures
        run(n1) == run(n2),
{
    lemma_drivers_unique(n1, n2, items);
    lemma_schedule_unique(n1, n2, items);
    lemma_run_from_same(n1, n2, crate::simulation::initial(n1.signals@.len()), 0);
}

/// Determinism: a test of a program has one outcome. Whatever two runs of
/// it return, the same failure or the same value-change trace, they return
/// the same.
pub proof fn lemma_outcome_unique(
    p: Program,
    test: Test,
    r1: Result<Seq<Change>, SimulationError>,
    r2: Result<Seq<Change>, SimulationError>,
)
    requires
        outcome_is(p, test, r1),
        outcome_is(p, test, r2),
    ensures
        r1 == r2,
{
    match elaborate(p, test) {
        Err(_) => {},
        Ok(flat) => {
            if has_conflict(flat.items) {
            } else if exists|v: LocalizedVariable| crate::link::undriven(flat.items, v) {
            } else {
                let n1 = choose|net: Netlist| #[trigger]
                    links(net, flat.items) && net.wf() && r1 == match run(net) {
                        Err(e) => Err::<Seq<Change>, SimulationError>(SimulationError::of_step(e)),
                        Ok(s) => Ok(s.trace),
                    };
                let n2 = choose|net: Netlist| #[trigger]
                    links(net, flat.items) && net.wf() && r2 == match run(net) {
                        Err(e) => Err::<Seq<Change>, SimulationError>(SimulationError::of_step(e)),
                        Ok(s) => Ok(s.trace),
                    };
                lemma_linked_run_unique(n1, n2, flat.items);
            }
        },
    }
}

} // verus!
