//! Linking: the elaborated items are checked for conflicting and missing
//! drivers and flattened into a netlist over canonical signal indices.

use vstd::prelude::*;
use crate::ast::TimeSpec;
use crate::instantiate::{ElabItem, Elaborated, LocalExpr, LocalizedVariable, local_reads};
use crate::netlist::{Driver, Entry, Event, LinkedExpr, Netlist, in_range, event_wf, event_source, event_expr};
use crate::time::{advance, Instant};

verus! {

/// Why elaborated items cannot be linked.
#[derive(Debug)]
pub enum LinkError {
    /// The items at `first` and `second` both drive `signal`.
    MultipleDrivers { signal: LocalizedVariable, first: usize, second: usize },
    /// `signal` is read, and nothing ever gives it a value.
    UndrivenSignal { signal: LocalizedVariable },
}

/// No two entries of the table stand for the same signal.
pub open spec fn distinct(signals: Seq<LocalizedVariable>) -> bool {
    forall|i: int, j: int|
        0 <= i < j < signals.len() ==> !(#[trigger] signals[i].same(&signals[j]))
}

/// Whether `l` is `e` with each signal replaced by its index in `signals`.
pub open spec fn resolves(l: LinkedExpr, e: LocalExpr, signals: Seq<LocalizedVariable>) -> bool
    decreases e,
{
    match e {
        LocalExpr::Signal(v) => l matches LinkedExpr::Signal(i) && i < signals.len() && signals[i as int].same(
            &v,
        ),
        LocalExpr::Constant(c) => l matches LinkedExpr::Constant(d) && c == d,
        LocalExpr::Not(a) => l matches LinkedExpr::Not(b) && resolves(*b, *a, signals),
        LocalExpr::Gate(g, a, b) => l matches LinkedExpr::Gate(h, c, d) && g == h && resolves(
            *c,
            *a,
            signals,
        ) && resolves(*d, *b, signals),
    }
}

/// `a` is the beginning of `b`.
pub open spec fn extends(a: Seq<LocalizedVariable>, b: Seq<LocalizedVariable>) -> bool {
    a.len() <= b.len() && forall|i: int| 0 <= i < a.len() ==> a[i] == b[i]
}

/// A resolved expression stays resolved, and within range, when the table
/// grows.
pub proof fn lemma_resolves_extends(
    l: LinkedExpr,
    e: LocalExpr,
    a: Seq<LocalizedVariable>,
    b: Seq<LocalizedVariable>,
)
    requires
        resolves(l, e, a),
        extends(a, b),
    ensures
        resolves(l, e, b),
        in_range(l, b.len()),
    decreases e,
{
    match e {
        LocalExpr::Signal(v) => {},
        LocalExpr::Constant(c) => {},
        LocalExpr::Not(x) => {
            lemma_resolves_extends(*l->Not_0, *x, a, b);
        },
        LocalExpr::Gate(g, x, y) => {
            lemma_resolves_extends(*l->Gate_1, *x, a, b);
            lemma_resolves_extends(*l->Gate_2, *y, a, b);
        },
    }
}

/// The table with `v` in it: as it is where it holds `v` already, else with
/// `v` as its new last entry.
pub open spec fn intern_table(s: Seq<LocalizedVariable>, v: LocalizedVariable) -> Seq<LocalizedVariable> {
    if exists|i: int| 0 <= i < s.len() && (#[trigger] s[i]).same(&v) {
        s
    } else {
        s.push(v)
    }
}

/// The table after the signals of `e` have been entered, left to right.
pub open spec fn expr_table(e: LocalExpr, s: Seq<LocalizedVariable>) -> Seq<LocalizedVariable>
    decreases e,
{
    match e {
        LocalExpr::Signal(v) => intern_table(s, v),
        LocalExpr::Constant(_) => s,
        LocalExpr::Not(a) => expr_table(*a, s),
        LocalExpr::Gate(_, a, b) => expr_table(*b, expr_table(*a, s)),
    }
}

/// The table after an item: its target first, then the signals it reads.
pub open spec fn item_table(item: ElabItem, s: Seq<LocalizedVariable>) -> Seq<LocalizedVariable> {
    match item {
        ElabItem::Assign { into, expr } => expr_table(expr, intern_table(s, into)),
        ElabItem::Assert { expr, .. } => expr_table(expr, s),
        ElabItem::Time(_) => s,
    }
}

/// The signal table after the first `k` items: every signal once, in the
/// order of first appearance.
pub open spec fn table_upto(items: Seq<ElabItem>, k: nat) -> Seq<LocalizedVariable>
    decreases k,
{
    if k == 0 || k > items.len() {
        Seq::empty()
    } else {
        item_table(items[k - 1], table_upto(items, (k - 1) as nat))
    }
}

/// The index of `v` in the table, which gets a new last entry where `v` is
/// not in it yet.
fn intern(signals: &mut Vec<LocalizedVariable>, v: &LocalizedVariable) -> (r: usize)
    requires
        distinct(old(signals)@),
    ensures
        distinct(final(signals)@),
        extends(old(signals)@, final(signals)@),
        r < final(signals)@.len(),
        final(signals)@[r as int].same(v),
        final(signals)@ == intern_table(old(signals)@, *v),
{
    let mut i: usize = 0;
    while i < signals.len()
        invariant
            i <= signals@.len(),
            signals@ == old(signals)@,
            distinct(signals@),
            forall|j: int| 0 <= j < i ==> !(#[trigger] signals@[j]).same(v),
        decreases signals@.len() - i,
    {
        if signals[i].same_signal(v) {
            assert(signals@[i as int].same(v));
            return i;
        }
        i += 1;
    }
    signals.push(v.clone());
    i
}

/// Resolves every signal of `e`, left to right.
fn link_expr(e: &LocalExpr, signals: &mut Vec<LocalizedVariable>) -> (r: LinkedExpr)
    requires
        distinct(old(signals)@),
    ensures
        distinct(final(signals)@),
        extends(old(signals)@, final(signals)@),
        resolves(r, *e, final(signals)@),
        final(signals)@ == expr_table(*e, old(signals)@),
    decreases *e,
{
    match e {
        LocalExpr::Signal(v) => LinkedExpr::Signal(intern(signals, v)),
        LocalExpr::Constant(c) => LinkedExpr::Constant(*c),
        LocalExpr::Not(a) => LinkedExpr::Not(Box::new(link_expr(a, signals))),
        LocalExpr::Gate(g, a, b) => {
            let la = link_expr(a, signals);
            let ghost mid = signals@;
            let lb = link_expr(b, signals);
            proof {
                lemma_resolves_extends(la, **a, mid, signals@);
            }
            LinkedExpr::Gate(*g, Box::new(la), Box::new(lb))
        },
    }
}

/// The signal that an item assigns to.
pub open spec fn target_of(item: ElabItem) -> Option<LocalizedVariable> {
    match item {
        ElabItem::Assign { into, .. } => Some(into),
        _ => None,
    }
}

/// The expression that an item evaluates.
pub open spec fn expr_of(item: ElabItem) -> Option<LocalExpr> {
    match item {
        ElabItem::Assign { expr, .. } => Some(expr),
        ElabItem::Assert { expr, .. } => Some(expr),
        ElabItem::Time(_) => None,
    }
}

/// Whether a time directive stands before position `k`.
pub open spec fn timed_before(items: Seq<ElabItem>, k: int) -> bool {
    exists|j: int| 0 <= j < k && j < items.len() && (#[trigger] items[j]) is Time
}

/// Whether item `k` is a combinational assignment: one that stands before
/// every time directive.
pub open spec fn is_driver_item(items: Seq<ElabItem>, k: int) -> bool {
    0 <= k < items.len() && items[k] is Assign && !timed_before(items, k)
}

/// Whether item `k` is scheduled: a check, or an assignment under a time
/// directive.
pub open spec fn is_event_item(items: Seq<ElabItem>, k: int) -> bool {
    0 <= k < items.len() && (items[k] is Assert || (items[k] is Assign && timed_before(items, k)))
}

/// The absolute instant that holds at position `k`: zero at the start, moved
/// on by each relative directive and set by each absolute one.
pub open spec fn clock_at(items: Seq<ElabItem>, k: nat) -> u64
    decreases k,
{
    if k == 0 || k > items.len() {
        0
    } else {
        match items[k - 1] {
            ElabItem::Time(TimeSpec::After(d)) => advance(clock_at(items, (k - 1) as nat), d.0),
            ElabItem::Time(TimeSpec::At(t)) => t.0,
            _ => clock_at(items, (k - 1) as nat),
        }
    }
}

/// Whether the combinational assignments at `i` and `j` drive one signal.
pub open spec fn conflict(items: Seq<ElabItem>, i: int, j: int) -> bool {
    &&& i < j
    &&& is_driver_item(items, i)
    &&& is_driver_item(items, j)
    &&& target_of(items[i])->Some_0.same(&target_of(items[j])->Some_0)
}

/// No conflict ends before `j`, and none that ends at `j` begins before
/// `i`.
pub open spec fn earliest_conflict(items: Seq<ElabItem>, i: int, j: int) -> bool {
    forall|a: int, b: int| #[trigger] conflict(items, a, b) ==> j < b || (j == b && i <= a)
}

pub open spec fn has_conflict(items: Seq<ElabItem>) -> bool {
    exists|i: int, j: int| #[trigger] conflict(items, i, j)
}

/// Whether item `k` assigns to `v`, as a driver or as a stimulus.
pub open spec fn drives_at(items: Seq<ElabItem>, k: int, v: LocalizedVariable) -> bool {
    0 <= k < items.len() && items[k] is Assign && target_of(items[k])->Some_0.same(&v)
}

pub open spec fn item_drives(items: Seq<ElabItem>, v: LocalizedVariable) -> bool {
    exists|k: int| #[trigger] drives_at(items, k, v)
}

/// Whether the expression of item `k` reads `v`.
pub open spec fn reads_at(items: Seq<ElabItem>, k: int, v: LocalizedVariable) -> bool {
    0 <= k < items.len() && expr_of(items[k]) is Some && local_reads(expr_of(items[k])->Some_0, v)
}

/// Whether `v` is read somewhere and assigned nowhere.
pub open spec fn undriven(items: Seq<ElabItem>, v: LocalizedVariable) -> bool {
    (exists|k: int| #[trigger] reads_at(items, k, v)) && !item_drives(items, v)
}

/// The leftmost signal that `e` reads and no item assigns to.
pub open spec fn first_undriven_in(e: LocalExpr, items: Seq<ElabItem>) -> Option<LocalizedVariable>
    decreases e,
{
    match e {
        LocalExpr::Signal(w) => if item_drives(items, w) {
            None
        } else {
            Some(w)
        },
        LocalExpr::Constant(_) => None,
        LocalExpr::Not(a) => first_undriven_in(*a, items),
        LocalExpr::Gate(_, a, b) => match first_undriven_in(*a, items) {
            Some(v) => Some(v),
            None => first_undriven_in(*b, items),
        },
    }
}

/// The first signal, from item `k` on, that is read and never assigned.
pub open spec fn first_undriven_from(items: Seq<ElabItem>, k: nat) -> Option<LocalizedVariable>
    decreases items.len() - k,
{
    if k >= items.len() {
        None
    } else {
        match expr_of(items[k as int]) {
            None => first_undriven_from(items, k + 1),
            Some(e) => match first_undriven_in(e, items) {
                Some(v) => Some(v),
                None => first_undriven_from(items, k + 1),
            },
        }
    }
}

/// The first pair of combinational assignments to one signal, by the later
/// of the two.
pub fn find_conflict(items: &Vec<ElabItem>) -> (r: Option<(usize, usize)>)
    ensures
        r matches Some(p) ==> conflict(items@, p.0 as int, p.1 as int) && earliest_conflict(
            items@,
            p.0 as int,
            p.1 as int,
        ),
        r is None ==> !has_conflict(items@),
{
    let mut j: usize = 0;
    while j < items.len()
        invariant
            j <= items@.len(),
            forall|t: int| 0 <= t < j ==> !((#[trigger] items@[t]) is Time),
            forall|a: int, b: int| b < j ==> !(#[trigger] conflict(items@, a, b)),
        decreases items@.len() - j,
    {
        match &items[j] {
            ElabItem::Time(_) => {
                assert forall|a: int, b: int| !(#[trigger] conflict(items@, a, b)) by {
                    if b > j {
                        assert(items@[j as int] is Time);
                        assert(timed_before(items@, b) || b >= items@.len());
                    }
                }
                return None;
            },
            ElabItem::Assert { .. } => {},
            ElabItem::Assign { into, .. } => {
                let mut i: usize = 0;
                while i < j
                    invariant
                        i <= j < items@.len(),
                        items@[j as int] is Assign,
                        target_of(items@[j as int]) == Some(*into),
                        forall|t: int| 0 <= t < j ==> !((#[trigger] items@[t]) is Time),
                        forall|a: int| a < i ==> !(#[trigger] conflict(items@, a, j as int)),
                        forall|a: int, b: int| b < j ==> !(#[trigger] conflict(items@, a, b)),
                    decreases j - i,
                {
                    match &items[i] {
                        ElabItem::Assign { into: earlier, .. } => {
                            if earlier.same_signal(into) {
                                return Some((i, j));
                            }
                        },
                        _ => {},
                    }
                    i += 1;
                }
            },
        }
        j += 1;
    }
    None
}

/// Whether some item assigns to `v`.
pub fn is_driven(items: &Vec<ElabItem>, v: &LocalizedVariable) -> (r: bool)
    ensures
        r == item_drives(items@, *v),
{
    let mut k: usize = 0;
    while k < items.len()
        invariant
            k <= items@.len(),
            forall|t: int| t < k ==> !(#[trigger] drives_at(items@, t, *v)),
        decreases items@.len() - k,
    {
        match &items[k] {
            ElabItem::Assign { into, .. } => {
                if into.same_signal(v) {
                    assert(drives_at(items@, k as int, *v));
                    return true;
                }
            },
            _ => {},
        }
        k += 1;
    }
    false
}

/// A signal that `e` reads and that no item assigns to: the leftmost one.
fn find_undriven_in(e: &LocalExpr, items: &Vec<ElabItem>) -> (r: Option<LocalizedVariable>)
    ensures
        r == first_undriven_in(*e, items@),
        r matches Some(v) ==> local_reads(*e, v) && !item_drives(items@, v),
        r is None ==> forall|v: LocalizedVariable| #[trigger]
            local_reads(*e, v) ==> item_drives(items@, v),
    decreases *e,
{
    match e {
        LocalExpr::Signal(w) => {
            if is_driven(items, w) {
                assert forall|v: LocalizedVariable| #[trigger]
                    local_reads(*e, v) implies item_drives(items@, v) by {
                    let k = choose|k: int| drives_at(items@, k, *w);
                    assert(drives_at(items@, k, v));
                }
                None
            } else {
                Some(w.clone())
            }
        },
        LocalExpr::Constant(_) => None,
        LocalExpr::Not(a) => {
            let r = find_undriven_in(a, items);
            assert forall|v: LocalizedVariable| #[trigger] local_reads(*e, v) implies local_reads(
                **a,
                v,
            ) by {}
            r
        },
        LocalExpr::Gate(_, a, b) => {
            assert forall|v: LocalizedVariable| #[trigger] local_reads(*e, v) implies local_reads(
                **a,
                v,
            ) || local_reads(**b, v) by {}
            match find_undriven_in(a, items) {
                Some(v) => Some(v),
                None => find_undriven_in(b, items),
            }
        },
    }
}

/// A signal that is read and never assigned, if there is one: the first in
/// reading order.
pub fn find_undriven(items: &Vec<ElabItem>) -> (r: Option<LocalizedVariable>)
    ensures
        r == first_undriven_from(items@, 0),
        r matches Some(v) ==> undriven(items@, v),
        r is None ==> forall|v: LocalizedVariable| !undriven(items@, v),
{
    let mut k: usize = 0;
    while k < items.len()
        invariant
            k <= items@.len(),
            forall|t: int, v: LocalizedVariable|
                t < k && #[trigger] reads_at(items@, t, v) ==> item_drives(items@, v),
            first_undriven_from(items@, k as nat) == first_undriven_from(items@, 0),
        decreases items@.len() - k,
    {
        let found = match &items[k] {
            ElabItem::Assign { expr, .. } => find_undriven_in(expr, items),
            ElabItem::Assert { expr, .. } => find_undriven_in(expr, items),
            ElabItem::Time(_) => None,
        };
        match found {
            Some(v) => {
                assert(reads_at(items@, k as int, v));
                return Some(v);
            },
            None => {},
        }
        k += 1;
    }
    None
}

/// Whether `d` is the combinational assignment at its source, resolved.
pub open spec fn driver_ok(d: Driver, items: Seq<ElabItem>, signals: Seq<LocalizedVariable>) -> bool {
    &&& is_driver_item(items, d.source as int)
    &&& d.target < signals.len()
    &&& signals[d.target as int].same(&target_of(items[d.source as int])->Some_0)
    &&& resolves(d.expr, expr_of(items[d.source as int])->Some_0, signals)
}

/// Whether `ev`, scheduled at `instant`, is the item at its source,
/// resolved, at the instant that holds there.
pub open spec fn event_ok(
    ev: Event,
    instant: u64,
    items: Seq<ElabItem>,
    signals: Seq<LocalizedVariable>,
) -> bool {
    let k = event_source(ev) as int;
    &&& is_event_item(items, k)
    &&& instant == clock_at(items, k as nat)
    &&& resolves(event_expr(ev), expr_of(items[k])->Some_0, signals)
    &&& match ev {
        Event::Stimulus { target, .. } => items[k] is Assign && target < signals.len()
            && signals[target as int].same(&target_of(items[k])->Some_0),
        Event::Assert { expected, span, .. } => match items[k] {
            ElabItem::Assert { expected: e2, span: s2, .. } => e2 == expected && s2 == span,
            _ => false,
        },
    }
}

/// Whether the schedule holds `ev` in its entry for `instant`.
pub open spec fn holds(schedule: Seq<Entry>, instant: u64, ev: Event) -> bool {
    exists|a: int, b: int|
        0 <= a < schedule.len() && 0 <= b < schedule[a].events@.len() && schedule[a].instant
            == instant && #[trigger] schedule[a].events@[b] == ev
}

pub open spec fn sorted(schedule: Seq<Entry>) -> bool {
    forall|i: int, j: int|
        0 <= i < j < schedule.len() ==> (#[trigger] schedule[i]).instant < (
        #[trigger] schedule[j]).instant
}

/// The events of an entry stand in the order of their sources; in a
/// schedule every entry has an event.
pub open spec fn ordered(entry: Entry) -> bool {
    forall|b: int, c: int|
        0 <= b < c < entry.events@.len() ==> event_source(#[trigger] entry.events@[b])
            < event_source(#[trigger] entry.events@[c])
}

pub open spec fn all_ordered(schedule: Seq<Entry>) -> bool {
    forall|a: int|
        0 <= a < schedule.len() ==> ordered(#[trigger] schedule[a]) && schedule[a].events@.len() > 0
}

/// Puts `ev` at the end of the entry for `instant`, which is made at its
/// place in time where the schedule has none yet.
fn add_event(schedule: &mut Vec<Entry>, instant: u64, ev: Event)
    requires
        sorted(old(schedule)@),
        all_ordered(old(schedule)@),
        forall|t: u64, e: Event| #[trigger]
            holds(old(schedule)@, t, e) ==> event_source(e) < event_source(ev),
    ensures
        sorted(final(schedule)@),
        all_ordered(final(schedule)@),
        forall|t: u64, e: Event| #[trigger]
            holds(final(schedule)@, t, e) <==> (holds(old(schedule)@, t, e) || (t == instant && e
                == ev)),
{
    let mut p: usize = 0;
    while p < schedule.len() && schedule[p].instant < instant
        invariant
            p <= schedule@.len(),
            schedule@ == old(schedule)@,
            forall|a: int| 0 <= a < p ==> (#[trigger] schedule@[a]).instant < instant,
        decreases schedule@.len() - p,
    {
        p += 1;
    }
    let ghost before = schedule@;
    if p < schedule.len() && schedule[p].instant == instant {
        let mut entry = schedule.remove(p);
        let ghost n = entry.events@.len() as int;
        entry.events.push(ev);
        schedule.insert(p, entry);
        let ghost after = schedule@;
        assert(after.len() == before.len());
        assert(forall|a: int| 0 <= a < after.len() && a != p ==> after[a] == before[a]);
        assert(after[p as int].instant == instant);
        assert(after[p as int].events@ == before[p as int].events@.push(ev));
        assert forall|t: u64, e: Event| #[trigger]
            holds(after, t, e) <==> (holds(before, t, e) || (t == instant && e == ev)) by {
            if holds(after, t, e) {
                let (a, b) = choose|a: int, b: int|
                    0 <= a < after.len() && 0 <= b < after[a].events@.len() && after[a].instant
                        == t && #[trigger] after[a].events@[b] == e;
                if a == p && b == n {
                } else {
                    assert(before[a].events@[b] == e);
                }
            }
            if holds(before, t, e) {
                let (a, b) = choose|a: int, b: int|
                    0 <= a < before.len() && 0 <= b < before[a].events@.len() && before[a].instant
                        == t && #[trigger] before[a].events@[b] == e;
                assert(after[a].events@[b] == e);
            }
            if t == instant && e == ev {
                assert(after[p as int].events@[n] == e);
            }
        }
        assert forall|a: int| 0 <= a < after.len() implies ordered(#[trigger] after[a])
            && after[a].events@.len() > 0 by {
            if a == p {
                assert forall|b: int, c: int| 0 <= b < c < after[a].events@.len() implies event_source(
                    #[trigger] after[a].events@[b],
                ) < event_source(#[trigger] after[a].events@[c]) by {
                    assert(ordered(before[a]));
                    if c == n {
                        assert(before[a].events@[b] == after[a].events@[b]);
                        assert(holds(before, instant, before[a].events@[b]));
                    }
                }
            } else {
                assert(ordered(before[a]));
            }
        }
        assert forall|i: int, j: int| 0 <= i < j < after.len() implies (#[trigger] after[i]).instant < (
        #[trigger] after[j]).instant by {
            assert(before[i].instant < before[j].instant);
        }
    } else {
        let mut events: Vec<Event> = Vec::new();
        events.push(ev);
        schedule.insert(p, Entry { instant, events });
        let ghost after = schedule@;
        assert(after.len() == before.len() + 1);
        assert(forall|a: int| 0 <= a < p ==> after[a] == before[a]);
        assert(forall|a: int| p < a < after.len() ==> after[a] == before[a - 1]);
        assert(after[p as int].instant == instant);
        assert(after[p as int].events@ =~= seq![ev]);
        assert forall|t: u64, e: Event| #[trigger]
            holds(after, t, e) <==> (holds(before, t, e) || (t == instant && e == ev)) by {
            if holds(after, t, e) {
                let (a, b) = choose|a: int, b: int|
                    0 <= a < after.len() && 0 <= b < after[a].events@.len() && after[a].instant
                        == t && #[trigger] after[a].events@[b] == e;
                if a < p {
                    assert(before[a].events@[b] == e);
                } else if a > p {
                    assert(before[a - 1].events@[b] == e);
                }
            }
            if holds(before, t, e) {
                let (a, b) = choose|a: int, b: int|
                    0 <= a < before.len() && 0 <= b < before[a].events@.len() && before[a].instant
                        == t && #[trigger] before[a].events@[b] == e;
                if a < p {
                    assert(after[a].events@[b] == e);
                } else {
                    assert(after[a + 1].events@[b] == e);
                }
            }
            if t == instant && e == ev {
                assert(after[p as int].events@[0] == e);
            }
        }
        assert forall|a: int| 0 <= a < after.len() implies ordered(#[trigger] after[a])
            && after[a].events@.len() > 0 by {
            if a < p {
                assert(ordered(before[a]));
            } else if a > p {
                assert(ordered(before[a - 1]));
            }
        }
        assert forall|i: int, j: int| 0 <= i < j < after.len() implies (#[trigger] after[i]).instant < (
        #[trigger] after[j]).instant by {
            let i0 = if i < p { i } else { i - 1 };
            let j0 = if j < p { j } else { j - 1 };
            if i != p && j != p {
                assert(before[i0].instant < before[j0].instant);
            } else if i == p {
                assert(before[j0].instant >= instant);
                if j0 > p {
                    assert(before[p as int].instant < before[j0].instant);
                }
            } else {
                assert(before[i0].instant < instant);
            }
        }
    }
}

/// Whether `net` is `items` linked: every combinational assignment is a
/// driver and every scheduled item an event at its instant, each once, in
/// declaration order, over a table without repeated signals.
pub open spec fn links(net: Netlist, items: Seq<ElabItem>) -> bool {
    &&& net.signals@ == table_upto(items, items.len())
    &&& distinct(net.signals@)
    &&& forall|x: int|
        0 <= x < net.drivers@.len() ==> driver_ok(#[trigger] net.drivers@[x], items, net.signals@)
    &&& forall|x: int, y: int|
        0 <= x < y < net.drivers@.len() ==> (#[trigger] net.drivers@[x]).source < (
        #[trigger] net.drivers@[y]).source
    &&& forall|j: int| #[trigger]
        is_driver_item(items, j) ==> exists|x: int|
            0 <= x < net.drivers@.len() && (#[trigger] net.drivers@[x]).source == j
    &&& sorted(net.schedule@)
    &&& all_ordered(net.schedule@)
    &&& forall|t: u64, e: Event| #[trigger]
        holds(net.schedule@, t, e) ==> event_ok(e, t, items, net.signals@)
    &&& forall|j: int| #[trigger]
        is_event_item(items, j) ==> exists|t: u64, e: Event| #[trigger]
            holds(net.schedule@, t, e) && event_source(e) == j
}

/// Flattens items without conflicting drivers into a netlist.
fn build(items: &Vec<ElabItem>) -> (net: Netlist)
    requires
        !has_conflict(items@),
    ensures
        links(net, items@),
        net.wf(),
{
    let mut signals: Vec<LocalizedVariable> = Vec::new();
    let mut drivers: Vec<Driver> = Vec::new();
    let mut schedule: Vec<Entry> = Vec::new();
    let mut clock: u64 = 0;
    let mut timed = false;
    let mut k: usize = 0;
    while k < items.len()
        invariant
            k <= items@.len(),
            !has_conflict(items@),
            distinct(signals@),
            signals@ == table_upto(items@, k as nat),
            clock == clock_at(items@, k as nat),
            timed == timed_before(items@, k as int),
            forall|x: int|
                0 <= x < drivers@.len() ==> driver_ok(#[trigger] drivers@[x], items@, signals@)
                    && drivers@[x].source < k,
            forall|x: int, y: int|
                0 <= x < y < drivers@.len() ==> (#[trigger] drivers@[x]).source < (
                #[trigger] drivers@[y]).source,
            forall|j: int|
                j < k && #[trigger] is_driver_item(items@, j) ==> exists|x: int|
                    0 <= x < drivers@.len() && (#[trigger] drivers@[x]).source == j,
            sorted(schedule@),
            all_ordered(schedule@),
            forall|t: u64, e: Event| #[trigger]
                holds(schedule@, t, e) ==> event_ok(e, t, items@, signals@) && event_source(e) < k,
            forall|j: int|
                j < k && #[trigger] is_event_item(items@, j) ==> exists|t: u64, e: Event| #[trigger]
                    holds(schedule@, t, e) && event_source(e) == j,
        decreases items@.len() - k,
    {
        let ghost signals0 = signals@;
        let ghost drivers0 = drivers@;
        let ghost schedule0 = schedule@;
        match &items[k] {
            ElabItem::Time(spec) => {
                match spec {
                    TimeSpec::After(d) => {
                        clock = Instant(clock).after(*d).0;
                    },
                    TimeSpec::At(t) => {
                        clock = t.0;
                    },
                }
                timed = true;
                assert(timed_before(items@, k + 1)) by {
                    assert(items@[k as int] is Time);
                }
            },
            ElabItem::Assign { into, expr } => {
                let target = intern(&mut signals, into);
                let ghost signals1 = signals@;
                let linked = link_expr(expr, &mut signals);
                proof {
                    lemma_grow(items@, drivers0, schedule0, signals0, signals@);
                    lemma_timed_step(items@, k as int);
                }
                if !timed {
                    drivers.push(Driver { target, expr: linked, source: k });
                    assert(is_driver_item(items@, k as int));
                    assert(driver_ok(drivers@[drivers@.len() - 1], items@, signals@));
                    assert forall|j: int| j < k + 1 && #[trigger] is_driver_item(items@, j) implies exists|
                        x: int,
                    |
                        0 <= x < drivers@.len() && (#[trigger] drivers@[x]).source == j by {
                        if j < k {
                            let x = choose|x: int|
                                0 <= x < drivers0.len() && (#[trigger] drivers0[x]).source == j;
                            assert(drivers@[x].source == j);
                        } else {
                            assert(drivers@[drivers@.len() - 1].source == j);
                        }
                    }
                    assert forall|j: int| j < k + 1 && #[trigger] is_event_item(items@, j) implies exists|
                        t: u64,
                        e: Event,
                    | #[trigger]
                        holds(schedule@, t, e) && event_source(e) == j by {
                        assert(j < k);
                    }
                } else {
                    let ev = Event::Stimulus { target, expr: linked, source: k };
                    add_event(&mut schedule, clock, ev);
                    assert(is_event_item(items@, k as int));
                    assert(event_ok(ev, clock, items@, signals@));
                    assert(holds(schedule@, clock, ev));
                    assert forall|j: int| j < k + 1 && #[trigger] is_event_item(items@, j) implies exists|
                        t: u64,
                        e: Event,
                    | #[trigger]
                        holds(schedule@, t, e) && event_source(e) == j by {
                        if j < k {
                            let (t, e) = choose|t: u64, e: Event| #[trigger]
                                holds(schedule0, t, e) && event_source(e) == j;
                            assert(holds(schedule@, t, e));
                        }
                    }
                }
            },
            ElabItem::Assert { expr, expected, span } => {
                let linked = link_expr(expr, &mut signals);
                proof {
                    lemma_grow(items@, drivers0, schedule0, signals0, signals@);
                    lemma_timed_step(items@, k as int);
                }
                let ev = Event::Assert { expr: linked, expected: *expected, span: *span, source: k };
                add_event(&mut schedule, clock, ev);
                assert(is_event_item(items@, k as int));
                assert(event_ok(ev, clock, items@, signals@));
                assert(holds(schedule@, clock, ev));
                assert forall|j: int| j < k + 1 && #[trigger] is_event_item(items@, j) implies exists|
                    t: u64,
                    e: Event,
                | #[trigger]
                    holds(schedule@, t, e) && event_source(e) == j by {
                    if j < k {
                        let (t, e) = choose|t: u64, e: Event| #[trigger]
                            holds(schedule0, t, e) && event_source(e) == j;
                        assert(holds(schedule@, t, e));
                    }
                }
            },
        }
        k += 1;
    }
    let net = Netlist { signals, drivers, schedule };
    proof {
        lemma_links_wf(net, items@);
    }
    net
}

/// A time directive stands before `k + 1` exactly if one stands before `k`
/// or at `k`.
proof fn lemma_timed_step(items: Seq<ElabItem>, k: int)
    requires
        0 <= k < items.len(),
        !(items[k] is Time),
    ensures
        timed_before(items, k + 1) == timed_before(items, k),
{
    if timed_before(items, k + 1) {
        let j = choose|j: int| 0 <= j < k + 1 && j < items.len() && (#[trigger] items[j]) is Time;
        assert(j < k);
    }
    if timed_before(items, k) {
        let j = choose|j: int| 0 <= j < k && j < items.len() && (#[trigger] items[j]) is Time;
        assert(j < k + 1);
    }
}

/// Drivers and events that were resolved against a table remain so when
/// the table grows.
proof fn lemma_grow(
    items: Seq<ElabItem>,
    drivers: Seq<Driver>,
    schedule: Seq<Entry>,
    a: Seq<LocalizedVariable>,
    b: Seq<LocalizedVariable>,
)
    requires
        extends(a, b),
    ensures
        forall|x: int|
            0 <= x < drivers.len() && driver_ok(#[trigger] drivers[x], items, a) ==> driver_ok(
                drivers[x],
                items,
                b,
            ),
        forall|t: u64, e: Event| #[trigger]
            holds(schedule, t, e) && event_ok(e, t, items, a) ==> event_ok(e, t, items, b),
{
    assert forall|x: int|
        0 <= x < drivers.len() && driver_ok(#[trigger] drivers[x], items, a) implies driver_ok(
        drivers[x],
        items,
        b,
    ) by {
        lemma_resolves_extends(drivers[x].expr, expr_of(items[drivers[x].source as int])->Some_0, a, b);
    }
    assert forall|t: u64, e: Event| #[trigger]
        holds(schedule, t, e) && event_ok(e, t, items, a) implies event_ok(e, t, items, b) by {
        lemma_resolves_extends(event_expr(e), expr_of(items[event_source(e) as int])->Some_0, a, b);
    }
}

/// A netlist that is the linked form of items without conflicting drivers
/// is well formed.
pub proof fn lemma_links_wf(net: Netlist, items: Seq<ElabItem>)
    requires
        links(net, items),
        !has_conflict(items),
    ensures
        net.wf(),
{
    let n = net.signals@;
    assert forall|k: int| 0 <= k < net.drivers@.len() implies crate::netlist::driver_wf(
        #[trigger] net.drivers@[k],
        n.len(),
    ) by {
        let d = net.drivers@[k];
        assert(driver_ok(d, items, n));
        lemma_resolves_extends(d.expr, expr_of(items[d.source as int])->Some_0, n, n);
    }
    assert forall|i: int| 0 <= i < net.schedule@.len() implies crate::netlist::entry_wf(
        #[trigger] net.schedule@[i],
        n.len(),
    ) by {
        let entry = net.schedule@[i];
        assert forall|j: int| 0 <= j < entry.events@.len() implies event_wf(
            #[trigger] entry.events@[j],
            n.len(),
        ) by {
            let e = entry.events@[j];
            assert(net.schedule@[i].events@[j] == e);
            assert(holds(net.schedule@, entry.instant, e));
            assert(event_ok(e, entry.instant, items, n));
            lemma_resolves_extends(event_expr(e), expr_of(items[event_source(e) as int])->Some_0, n, n);
        }
    }
    assert forall|i: int, j: int| 0 <= i < j < net.drivers@.len() implies (
    #[trigger] net.drivers@[i]).target != (#[trigger] net.drivers@[j]).target by {
        let a = net.drivers@[i];
        let b = net.drivers@[j];
        assert(driver_ok(a, items, n));
        assert(driver_ok(b, items, n));
        if a.target == b.target {
            assert(conflict(items, a.source as int, b.source as int));
        }
    }
}

/// Links elaborated items into a netlist. Two combinational assignments to
/// one signal are refused first; then a signal that is read and never
/// assigned.
pub fn link_process(elaborated: &Elaborated) -> (r: Result<Netlist, LinkError>)
    ensures
        has_conflict(elaborated.items@) <==> r matches Err(LinkError::MultipleDrivers { .. }),
        !has_conflict(elaborated.items@) && (exists|v: LocalizedVariable|
            undriven(elaborated.items@, v)) <==> r matches Err(LinkError::UndrivenSignal { .. }),
        match r {
            Ok(net) => {
                &&& !has_conflict(elaborated.items@)
                &&& forall|v: LocalizedVariable| !undriven(elaborated.items@, v)
                &&& links(net, elaborated.items@)
                &&& net.wf()
            },
            Err(LinkError::MultipleDrivers { signal, first, second }) => {
                &&& conflict(elaborated.items@, first as int, second as int)
                &&& earliest_conflict(elaborated.items@, first as int, second as int)
                &&& Some(signal) == target_of(elaborated.items@[second as int])
            },
            Err(LinkError::UndrivenSignal { signal }) => {
                &&& !has_conflict(elaborated.items@)
                &&& undriven(elaborated.items@, signal)
                &&& Some(signal) == first_undriven_from(elaborated.items@, 0)
            },
        },
{
    let items = &elaborated.items;
    match find_conflict(items) {
        Some((first, second)) => {
            match &items[second] {
                ElabItem::Assign { into, .. } => {
                    return Err(LinkError::MultipleDrivers { signal: into.clone(), first, second });
                },
                _ => vstd::pervasive::unreached(),
            }
        },
        None => {},
    }
    match find_undriven(items) {
        Some(signal) => {
            return Err(LinkError::UndrivenSignal { signal });
        },
        None => {},
    }
    Ok(build(items))
}

} // verus!
