//! The cells that the processes of a module stand for.

use super::rtl::{RtlAssignKind, RtlExpr, RtlModule, RtlProcess, RtlSensitivity, RtlSignalRef, RtlStmt};
use super::synth_laws::{netlist_does_what_the_module_does, netlist_implements};
use vstd::prelude::*;

verus! {

/// The cells of a module.
#[derive(Debug, PartialEq, Eq)]
pub struct SynthNetlist {
    pub cells: Vec<SynthCell>,
}

/// Which edge of the clock a cell reacts to.
#[derive(Clone, Copy, Debug, PartialEq, Eq, Structural)]
pub enum SynthEdge {
    Posedge,
    Negedge,
}

/// A cell that drives a signal.
#[derive(Debug, PartialEq, Eq)]
pub enum SynthCell {
    DLatch { output: RtlSignalRef, data: RtlSignalRef, enable: RtlSignalRef },
    Dff { output: RtlSignalRef, data: RtlExpr, clock: RtlSignalRef, edge: SynthEdge },
    Register { output: RtlSignalRef, data: RtlExpr, clock: RtlSignalRef, edge: SynthEdge },
    /// A signal that is driven by logic, without a state.
    Combinational { output: RtlSignalRef, data: RtlExpr },
}

/// Why a process stands for no cells.
#[derive(Clone, Copy, Debug, PartialEq, Eq, Structural)]
pub enum SynthError {
    /// A signal is assigned at once.
    Blocking,
    /// A latch is not a single statement.
    LatchNotSingle,
    /// A latch is not a condition.
    LatchNotConditional,
    /// The condition of a latch has an else branch.
    LatchWithElse,
    /// The branch of a latch is not a single statement.
    LatchBranchNotSingle,
    /// The branch of a latch is not an assignment.
    LatchNotAssigned,
    /// The condition of a latch is not a signal.
    LatchEnable,
    /// The data of a latch is not a signal.
    LatchData,
    /// A signal is not one of the module.
    UnknownSignal { signal: RtlSignalRef },
}

impl SynthError {
    /// The error in words.
    pub fn message(&self) -> (text: &'static str)
        ensures
            text@ == (match *self {
                SynthError::Blocking => "only nonblocking sequential assignments are supported"@,
                SynthError::LatchNotSingle => "latch inference currently supports a single conditional assignment; fully assign the signal with an else branch or a default case arm"@,
                SynthError::LatchNotConditional => "unsupported combinational process shape"@,
                SynthError::LatchWithElse => "if/else procedural lowering is not implemented yet"@,
                SynthError::LatchBranchNotSingle => "expected a single if-then statement"@,
                SynthError::LatchNotAssigned => "expected assignment inside if branch"@,
                SynthError::LatchEnable => "latch enable must be a signal"@,
                SynthError::LatchData => "latch data must be a signal"@,
                SynthError::UnknownSignal { .. } => "unknown signal"@,
            }),
    {
        match self {
            SynthError::Blocking => "only nonblocking sequential assignments are supported",
            SynthError::LatchNotSingle => "latch inference currently supports a single conditional assignment; fully assign the signal with an else branch or a default case arm",
            SynthError::LatchNotConditional => "unsupported combinational process shape",
            SynthError::LatchWithElse => "if/else procedural lowering is not implemented yet",
            SynthError::LatchBranchNotSingle => "expected a single if-then statement",
            SynthError::LatchNotAssigned => "expected assignment inside if branch",
            SynthError::LatchEnable => "latch enable must be a signal",
            SynthError::LatchData => "latch data must be a signal",
            SynthError::UnknownSignal { .. } => "unknown signal",
        }
    }
}

// ---------------------------------------------------------------------------
// Next values
// ---------------------------------------------------------------------------
/// The value that each signal is assigned, if it is.
pub type Values = spec_fn(RtlSignalRef) -> Option<RtlExpr>;

/// No signal is assigned.
pub open spec fn no_values() -> Values {
    |signal: RtlSignalRef| None
}

/// The value of a signal, which holds where it is not assigned.
pub open spec fn value_or_hold(value: Option<RtlExpr>, signal: RtlSignalRef) -> RtlExpr {
    match value {
        Some(value) => value,
        None => RtlExpr::Signal(signal),
    }
}

/// The value of a signal behind a condition: a choice where one of the branches
/// changes it.
pub open spec fn merged_value(
    condition: RtlExpr,
    signal: RtlSignalRef,
    before: Option<RtlExpr>,
    when_true: Option<RtlExpr>,
    when_false: Option<RtlExpr>,
) -> Option<RtlExpr> {
    if when_true != before || when_false != before {
        Some(
            RtlExpr::Mux {
                select: Box::new(condition),
                when_true: Box::new(value_or_hold(when_true, signal)),
                when_false: Box::new(value_or_hold(when_false, signal)),
            },
        )
    } else {
        before
    }
}

/// The values behind a condition.
pub open spec fn merged(condition: RtlExpr, before: Values, when_true: Values, when_false: Values) -> Values {
    |signal: RtlSignalRef| merged_value(condition, signal, before(signal), when_true(signal), when_false(signal))
}

/// The values behind an assignment.
pub open spec fn assigned(before: Values, lhs: RtlSignalRef, rhs: RtlExpr) -> Values {
    |signal: RtlSignalRef|
        if signal == lhs {
            Some(rhs)
        } else {
            before(signal)
        }
}

/// The values behind a statement, where nothing is assigned at once.
pub open spec fn after_statement(statement: RtlStmt, before: Values) -> Option<Values>
    decreases statement, 0nat,
{
    match statement {
        RtlStmt::Assign { kind, lhs, rhs } => if kind == RtlAssignKind::NonBlocking {
            Some(assigned(before, lhs, rhs))
        } else {
            None
        },
        RtlStmt::If { condition, then_branch, else_branch } => match (
            after_statements(then_branch, then_branch@.len(), before),
            after_statements(else_branch, else_branch@.len(), before),
        ) {
            (Some(when_true), Some(when_false)) => Some(merged(condition, before, when_true, when_false)),
            _ => None,
        },
    }
}

/// The values behind the first `count` statements.
pub open spec fn after_statements(statements: Vec<RtlStmt>, count: nat, before: Values) -> Option<Values>
    decreases statements, count,
{
    if count == 0 || count > statements@.len() {
        Some(before)
    } else {
        match after_statements(statements, (count - 1) as nat, before) {
            None => None,
            Some(values) => after_statement(statements@[count - 1], values),
        }
    }
}

/// A signal with its value.
pub type Entry = (RtlSignalRef, RtlExpr);

/// Whether signals are in order, each of them once.
pub open spec fn in_order(entries: Seq<Entry>) -> bool {
    forall|i: int, j: int| 0 <= i < j < entries.len() ==> (#[trigger] entries[i]).0.0 < (#[trigger] entries[j]).0.0
}

/// Whether entries list the signals that are assigned, with their values.
pub open spec fn lists(entries: Seq<Entry>, values: Values) -> bool {
    &&& in_order(entries)
    &&& forall|i: int| 0 <= i < entries.len() ==> values((#[trigger] entries[i]).0) == Some(entries[i].1)
    &&& forall|signal: RtlSignalRef| (#[trigger] values(signal)) is Some ==> has_entry(entries, signal)
}

/// Whether there is an entry for a signal.
pub open spec fn has_entry(entries: Seq<Entry>, signal: RtlSignalRef) -> bool {
    exists|i: int| 0 <= i < entries.len() && (#[trigger] entries[i]).0 == signal
}

fn find_place(entries: &Vec<Entry>, signal: RtlSignalRef) -> (place: usize)
    requires
        in_order(entries@),
    ensures
        place <= entries.len(),
        forall|i: int| 0 <= i < place ==> (#[trigger] entries@[i]).0.0 < signal.0,
        forall|i: int| place <= i < entries.len() ==> (#[trigger] entries@[i]).0.0 >= signal.0,
{
    let mut place: usize = 0;
    while place < entries.len() && entries[place].0.0 < signal.0
        invariant
            place <= entries.len(),
            forall|i: int| 0 <= i < place ==> (#[trigger] entries@[i]).0.0 < signal.0,
        decreases entries.len() - place,
    {
        place += 1;
    }
    assert forall|i: int| place <= i < entries.len() implies (#[trigger] entries@[i]).0.0 >= signal.0 by {
        if i > place {
            assert(entries@[place as int].0.0 < entries@[i].0.0);
        }
    }
    place
}

fn find_value(entries: &Vec<Entry>, signal: RtlSignalRef, Ghost(values): Ghost<Values>) -> (found: Option<RtlExpr>)
    requires
        lists(entries@, values),
    ensures
        found == values(signal),
{
    let place: usize = find_place(entries, signal);
    if place < entries.len() && entries[place].0.0 == signal.0 {
        assert(entries@[place as int].0 == signal);
        return Some(entries[place].1.copy());
    }
    proof {
        if values(signal) is Some {
            assert(has_entry(entries@, signal));
            let i = choose|i: int| 0 <= i < entries@.len() && (#[trigger] entries@[i]).0 == signal;
            assert(entries@[i].0.0 == signal.0);
            if i > place {
                assert(entries@[place as int].0.0 < entries@[i].0.0);
            }
        }
    }
    None
}

fn set_value(entries: &mut Vec<Entry>, signal: RtlSignalRef, value: RtlExpr, Ghost(values): Ghost<Values>)
    requires
        lists(old(entries)@, values),
    ensures
        lists(final(entries)@, assigned(values, signal, value)),
{
    let ghost before = entries@;
    let ghost after = assigned(values, signal, value);
    let place: usize = find_place(entries, signal);
    if place < entries.len() && entries[place].0.0 == signal.0 {
        entries.set(place, (signal, value));
        proof {
            assert forall|i: int, j: int| 0 <= i < j < entries@.len() implies (#[trigger] entries@[i]).0.0 < (
            #[trigger] entries@[j]).0.0 by {
                assert(before[i].0.0 < before[j].0.0);
            }
            assert forall|i: int| 0 <= i < entries@.len() implies after((#[trigger] entries@[i]).0) == Some(
                entries@[i].1,
            ) by {
                if i != place {
                    assert(entries@[i] == before[i]);
                    if before[i].0 == signal {
                        assert(before[i].0.0 == before[place as int].0.0);
                    }
                }
            }
            assert forall|other: RtlSignalRef| (#[trigger] after(other)) is Some implies has_entry(entries@, other) by {
                if other == signal {
                    assert(entries@[place as int].0 == signal);
                } else {
                    assert(values(other) is Some);
                    let i = choose|i: int| 0 <= i < before.len() && (#[trigger] before[i]).0 == other;
                    assert(entries@[i].0 == other);
                }
            }
        }
    } else {
        entries.insert(place, (signal, value));
        proof {
            assert(entries@ == before.insert(place as int, (signal, value)));
            assert forall|i: int| 0 <= i < entries@.len() implies #[trigger] entries@[i] == (if i < place {
                before[i]
            } else if i == place {
                (signal, value)
            } else {
                before[i - 1]
            }) by {}
            assert forall|i: int, j: int| 0 <= i < j < entries@.len() implies (#[trigger] entries@[i]).0.0 < (
            #[trigger] entries@[j]).0.0 by {
                if i < place && j > place {
                    assert(before[i].0.0 < before[j - 1].0.0);
                } else if i < place && j < place {
                    assert(before[i].0.0 < before[j].0.0);
                } else if i > place {
                    assert(before[i - 1].0.0 < before[j - 1].0.0);
                } else if i == place {
                    assert(before[j - 1].0.0 >= signal.0);
                    if before[j - 1].0.0 == signal.0 && j - 1 > place {
                        assert(before[place as int].0.0 < before[j - 1].0.0);
                    }
                }
            }
            assert forall|i: int| 0 <= i < entries@.len() implies after((#[trigger] entries@[i]).0) == Some(
                entries@[i].1,
            ) by {
                if i < place {
                    assert(before[i].0.0 < signal.0);
                    assert(values(before[i].0) == Some(before[i].1));
                } else if i > place {
                    assert(entries@[place as int].0.0 < entries@[i].0.0);
                    assert(values(before[i - 1].0) == Some(before[i - 1].1));
                }
            }
            assert forall|other: RtlSignalRef| (#[trigger] after(other)) is Some implies has_entry(entries@, other) by {
                if other == signal {
                    assert(entries@[place as int].0 == signal);
                } else {
                    assert(values(other) is Some);
                    let i = choose|i: int| 0 <= i < before.len() && (#[trigger] before[i]).0 == other;
                    if i < place {
                        assert(entries@[i].0 == other);
                    } else {
                        assert(entries@[i + 1].0 == other);
                    }
                }
            }
        }
    }
}

fn copy_entries(entries: &Vec<Entry>) -> (copy: Vec<Entry>)
    ensures
        copy@ == entries@,
{
    let mut copy: Vec<Entry> = Vec::new();
    let mut index: usize = 0;
    while index < entries.len()
        invariant
            index <= entries.len(),
            copy.len() == index,
            forall|i: int| 0 <= i < index ==> #[trigger] copy@[i] == entries@[i],
        decreases entries.len() - index,
    {
        copy.push((entries[index].0, entries[index].1.copy()));
        index += 1;
    }
    assert(copy@ =~= entries@);
    copy
}

fn same_value(left: &Option<RtlExpr>, right: &Option<RtlExpr>) -> (same: bool)
    ensures
        same == (*left == *right),
{
    match (left, right) {
        (Some(left), Some(right)) => left.same(right),
        (None, None) => true,
        _ => false,
    }
}

/// Values where those of the first `count` signals of a list were merged.
pub open spec fn partly_merged(
    condition: RtlExpr,
    before: Values,
    when_true: Values,
    when_false: Values,
    signals: Seq<RtlSignalRef>,
    count: nat,
) -> Values {
    |signal: RtlSignalRef|
        if signals.take(count as int).contains(signal) {
            merged_value(condition, signal, before(signal), when_true(signal), when_false(signal))
        } else {
            before(signal)
        }
}

fn merge(
    condition: &RtlExpr,
    entries: &mut Vec<Entry>,
    when_true: &Vec<Entry>,
    when_false: &Vec<Entry>,
    Ghost(values): Ghost<Values>,
    Ghost(true_values): Ghost<Values>,
    Ghost(false_values): Ghost<Values>,
)
    requires
        lists(old(entries)@, values),
        lists(when_true@, true_values),
        lists(when_false@, false_values),
        forall|signal: RtlSignalRef| (#[trigger] values(signal)) is Some ==> true_values(signal) is Some,
    ensures
        lists(final(entries)@, merged(*condition, values, true_values, false_values)),
{
    let mut signals: Vec<RtlSignalRef> = Vec::new();
    let mut index: usize = 0;
    while index < when_true.len()
        invariant
            index <= when_true.len(),
            signals.len() == index,
            forall|i: int| 0 <= i < index ==> #[trigger] signals@[i] == when_true@[i].0,
        decreases when_true.len() - index,
    {
        signals.push(when_true[index].0);
        index += 1;
    }
    let mut index: usize = 0;
    while index < when_false.len()
        invariant
            index <= when_false.len(),
            signals.len() == when_true.len() + index,
            forall|i: int| 0 <= i < when_true.len() ==> #[trigger] signals@[i] == when_true@[i].0,
            forall|i: int| 0 <= i < index ==> #[trigger] signals@[when_true.len() + i] == when_false@[i].0,
        decreases when_false.len() - index,
    {
        signals.push(when_false[index].0);
        index += 1;
    }
    let start = copy_entries(entries);
    assert(signals@.take(0) =~= Seq::<RtlSignalRef>::empty());
    let ghost mut current = partly_merged(*condition, values, true_values, false_values, signals@, 0);
    assert(current =~= values);
    let mut index: usize = 0;
    while index < signals.len()
        invariant
            index <= signals.len(),
            lists(start@, values),
            lists(when_true@, true_values),
            lists(when_false@, false_values),
            current == partly_merged(*condition, values, true_values, false_values, signals@, index as nat),
            lists(entries@, current),
        decreases signals.len() - index,
    {
        let signal = signals[index];
        let before = find_value(&start, signal, Ghost(values));
        let own = find_value(when_true, signal, Ghost(true_values));
        let other = find_value(when_false, signal, Ghost(false_values));
        let ghost shown = merged_value(*condition, signal, before, own, other);
        let ghost next = partly_merged(*condition, values, true_values, false_values, signals@, (index + 1) as nat);
        let changed = !same_value(&own, &before) || !same_value(&other, &before);
        proof {
            assert forall|asked: RtlSignalRef| signals@.take(index + 1).contains(asked) <==> signals@.take(
                index as int,
            ).contains(asked) || asked == signal by {
                taking_one_more(signals@, index as int, asked);
            }
        }
        if changed {
            let when_true_value = match own {
                Some(value) => value,
                None => RtlExpr::Signal(signal),
            };
            let when_false_value = match other {
                Some(value) => value,
                None => RtlExpr::Signal(signal),
            };
            let value = RtlExpr::Mux {
                select: Box::new(condition.copy()),
                when_true: Box::new(when_true_value),
                when_false: Box::new(when_false_value),
            };
            assert(shown == Some(value));
            let ghost given = value;
            set_value(entries, signal, value, Ghost(current));
            assert(assigned(current, signal, given) =~= next);
        } else {
            assert(current =~= next);
        }
        proof {
            current = next;
        }
        index += 1;
    }
    proof {
        let whole = merged(*condition, values, true_values, false_values);
        assert(signals@.take(index as int) =~= signals@);
        assert forall|signal: RtlSignalRef| #[trigger] current(signal) == whole(signal) by {
            if !signals@.contains(signal) {
                if true_values(signal) is Some {
                    assert(has_entry(when_true@, signal));
                    let i = choose|i: int| 0 <= i < when_true@.len() && (#[trigger] when_true@[i]).0 == signal;
                    assert(signals@[i] == signal);
                }
                if false_values(signal) is Some {
                    assert(has_entry(when_false@, signal));
                    let i = choose|i: int| 0 <= i < when_false@.len() && (#[trigger] when_false@[i]).0 == signal;
                    assert(signals@[when_true.len() + i] == signal);
                }
                assert(values(signal) is None);
            }
        }
        assert(current =~= whole);
    }
}

proof fn taking_one_more(signals: Seq<RtlSignalRef>, count: int, asked: RtlSignalRef)
    requires
        0 <= count < signals.len(),
    ensures
        signals.take(count + 1).contains(asked) <==> signals.take(count).contains(asked) || asked == signals[count],
{
    let more = signals.take(count + 1);
    let less = signals.take(count);
    if more.contains(asked) {
        let i = choose|i: int| 0 <= i < more.len() && more[i] == asked;
        if i < count {
            assert(less[i] == asked);
        }
    }
    if less.contains(asked) {
        let i = choose|i: int| 0 <= i < less.len() && less[i] == asked;
        assert(more[i] == asked);
    }
    if asked == signals[count] {
        assert(more[count] == asked);
    }
}

/// What was assigned stays assigned.
proof fn statement_keeps(statement: RtlStmt, before: Values, signal: RtlSignalRef)
    requires
        before(signal) is Some,
    ensures
        after_statement(statement, before) matches Some(after) ==> after(signal) is Some,
    decreases statement, 0nat,
{
    match statement {
        RtlStmt::Assign { .. } => {},
        RtlStmt::If { condition, then_branch, else_branch } => {},
    }
}

proof fn statements_keep(statements: Vec<RtlStmt>, count: nat, before: Values, signal: RtlSignalRef)
    requires
        before(signal) is Some,
    ensures
        after_statements(statements, count, before) matches Some(after) ==> after(signal) is Some,
    decreases statements, count,
{
    if count > 0 && count <= statements@.len() {
        statements_keep(statements, (count - 1) as nat, before, signal);
        if let Some(values) = after_statements(statements, (count - 1) as nat, before) {
            statement_keeps(statements@[count - 1], values, signal);
        }
    }
}

proof fn statements_fail(statements: Vec<RtlStmt>, low: nat, high: nat, before: Values)
    requires
        low <= high <= statements@.len(),
        after_statements(statements, low, before) is None,
    ensures
        after_statements(statements, high, before) is None,
    decreases high,
{
    if low < high {
        statements_fail(statements, low, (high - 1) as nat, before);
    }
}

/// Carries statements out, on the values that are given.
fn apply_statements(
    statements: &Vec<RtlStmt>,
    entries: Vec<Entry>,
    Ghost(values): Ghost<Values>,
) -> (result: Result<Vec<Entry>, SynthError>)
    requires
        lists(entries@, values),
    ensures
        match after_statements(*statements, statements@.len(), values) {
            Some(after) => result matches Ok(entries) && lists(entries@, after),
            None => result == Err::<Vec<Entry>, SynthError>(SynthError::Blocking),
        },
    decreases statements,
{
    let mut entries = entries;
    let ghost mut current = values;
    let mut index: usize = 0;
    while index < statements.len()
        invariant
            index <= statements.len(),
            lists(entries@, current),
            after_statements(*statements, index as nat, values) == Some(current),
        decreases statements.len() - index,
    {
        assert(decreases_to!(statements => statements@[index as int]));
        assert(after_statements(*statements, (index + 1) as nat, values) == after_statement(
            statements@[index as int],
            current,
        ));
        match &statements[index] {
            RtlStmt::Assign { kind, lhs, rhs } => {
                if *kind != RtlAssignKind::NonBlocking {
                    proof {
                        statements_fail(*statements, (index + 1) as nat, statements@.len(), values);
                    }
                    return Err(SynthError::Blocking);
                }
                set_value(&mut entries, *lhs, rhs.copy(), Ghost(current));
                proof {
                    current = assigned(current, *lhs, *rhs);
                }
            },
            RtlStmt::If { condition, then_branch, else_branch } => {
                let when_true = match apply_statements(then_branch, copy_entries(&entries), Ghost(current)) {
                    Err(error) => {
                        proof {
                            statements_fail(*statements, (index + 1) as nat, statements@.len(), values);
                        }
                        return Err(error);
                    },
                    Ok(when_true) => when_true,
                };
                let when_false = match apply_statements(else_branch, copy_entries(&entries), Ghost(current)) {
                    Err(error) => {
                        proof {
                            statements_fail(*statements, (index + 1) as nat, statements@.len(), values);
                        }
                        return Err(error);
                    },
                    Ok(when_false) => when_false,
                };
                let ghost true_values = after_statements(*then_branch, then_branch@.len(), current)->0;
                let ghost false_values = after_statements(*else_branch, else_branch@.len(), current)->0;
                proof {
                    assert forall|signal: RtlSignalRef| (#[trigger] current(signal)) is Some implies true_values(
                        signal,
                    ) is Some by {
                        statements_keep(*then_branch, then_branch@.len(), current, signal);
                    }
                }
                merge(
                    condition,
                    &mut entries,
                    &when_true,
                    &when_false,
                    Ghost(current),
                    Ghost(true_values),
                    Ghost(false_values),
                );
                proof {
                    current = merged(*condition, current, true_values, false_values);
                }
            },
        }
        index += 1;
    }
    Ok(entries)
}

/// The signals that statements assign, each with its value.
fn process_next_values(statements: &Vec<RtlStmt>) -> (result: Result<Vec<Entry>, SynthError>)
    ensures
        match after_statements(*statements, statements@.len(), no_values()) {
            Some(after) => result matches Ok(entries) && lists(entries@, after),
            None => result == Err::<Vec<Entry>, SynthError>(SynthError::Blocking),
        },
{
    let none: Vec<Entry> = Vec::new();
    apply_statements(statements, none, Ghost(no_values()))
}

// ---------------------------------------------------------------------------
// Full assignment
// ---------------------------------------------------------------------------
/// Whether a statement assigns a signal on every path.
pub open spec fn assigns(statement: RtlStmt, target: RtlSignalRef) -> bool
    decreases statement, 0nat,
{
    match statement {
        RtlStmt::Assign { lhs, .. } => lhs == target,
        RtlStmt::If { then_branch, else_branch, .. } => {
            &&& else_branch@.len() > 0
            &&& some_assigns(then_branch, then_branch@.len(), target)
            &&& some_assigns(else_branch, else_branch@.len(), target)
        },
    }
}

/// Whether one of the first `count` statements assigns a signal on every path.
pub open spec fn some_assigns(statements: Vec<RtlStmt>, count: nat, target: RtlSignalRef) -> bool
    decreases statements, count,
{
    if count == 0 || count > statements@.len() {
        false
    } else {
        some_assigns(statements, (count - 1) as nat, target) || assigns(statements@[count - 1], target)
    }
}

/// Whether every path through statements assigns a signal.
fn fully_assigned(statements: &Vec<RtlStmt>, target: RtlSignalRef) -> (assigned: bool)
    ensures
        assigned == some_assigns(*statements, statements@.len(), target),
    decreases statements,
{
    let mut found = false;
    let mut index: usize = 0;
    while index < statements.len()
        invariant
            index <= statements.len(),
            found == some_assigns(*statements, index as nat, target),
        decreases statements.len() - index,
    {
        assert(decreases_to!(statements => statements@[index as int]));
        let own = match &statements[index] {
            RtlStmt::Assign { lhs, .. } => lhs.0 == target.0,
            RtlStmt::If { then_branch, else_branch, .. } => {
                let both = fully_assigned(then_branch, target);
                let other = fully_assigned(else_branch, target);
                else_branch.len() > 0 && both && other
            },
        };
        assert(own == assigns(statements@[index as int], target));
        if own {
            found = true;
        }
        index += 1;
    }
    found
}

/// A signal that every path assigns has a value.
pub proof fn full_assignment_gives_value(statements: Vec<RtlStmt>, count: nat, before: Values, target: RtlSignalRef)
    requires
        count <= statements@.len(),
        some_assigns(statements, count, target),
    ensures
        after_statements(statements, count, before) matches Some(after) ==> after(target) is Some,
    decreases statements, count,
{
    if let Some(values) = after_statements(statements, (count - 1) as nat, before) {
        let statement = statements@[count - 1];
        assert(after_statements(statements, count, before) == after_statement(statement, values));
        assert(some_assigns(statements, count, target) == (some_assigns(statements, (count - 1) as nat, target)
            || assigns(statement, target)));
        if assigns(statement, target) {
            match statement {
                RtlStmt::Assign { .. } => {},
                RtlStmt::If { condition, then_branch, else_branch } => {
                    full_assignment_gives_value(then_branch, then_branch@.len(), values, target);
                },
            }
        } else {
            full_assignment_gives_value(statements, (count - 1) as nat, before, target);
            statement_keeps(statement, values, target);
        }
    }
}

// ---------------------------------------------------------------------------
// Cells
// ---------------------------------------------------------------------------
/// The latch that a process stands for: a single condition on a signal, with a
/// single assignment of another.
pub open spec fn latch_of(statements: Seq<RtlStmt>) -> Result<SynthCell, SynthError> {
    if statements.len() != 1 {
        Err(SynthError::LatchNotSingle)
    } else {
        match statements[0] {
            RtlStmt::Assign { .. } => Err(SynthError::LatchNotConditional),
            RtlStmt::If { condition, then_branch, else_branch } => if else_branch@.len() > 0 {
                Err(SynthError::LatchWithElse)
            } else if then_branch@.len() != 1 {
                Err(SynthError::LatchBranchNotSingle)
            } else {
                match then_branch@[0] {
                    RtlStmt::If { .. } => Err(SynthError::LatchNotAssigned),
                    RtlStmt::Assign { kind, lhs, rhs } => if kind != RtlAssignKind::NonBlocking {
                        Err(SynthError::Blocking)
                    } else {
                        match (condition, rhs) {
                            (RtlExpr::Signal(enable), RtlExpr::Signal(data)) => Ok(
                                SynthCell::DLatch { output: lhs, data, enable },
                            ),
                            (RtlExpr::Signal(_), _) => Err(SynthError::LatchData),
                            _ => Err(SynthError::LatchEnable),
                        }
                    },
                }
            },
        }
    }
}

fn synthesize_latch_process(process: &RtlProcess) -> (result: Result<SynthCell, SynthError>)
    ensures
        result == latch_of(process.statements@),
{
    if process.statements.len() != 1 {
        return Err(SynthError::LatchNotSingle);
    }
    match &process.statements[0] {
        RtlStmt::Assign { .. } => Err(SynthError::LatchNotConditional),
        RtlStmt::If { condition, then_branch, else_branch } => {
            if else_branch.len() > 0 {
                return Err(SynthError::LatchWithElse);
            }
            if then_branch.len() != 1 {
                return Err(SynthError::LatchBranchNotSingle);
            }
            match &then_branch[0] {
                RtlStmt::If { .. } => Err(SynthError::LatchNotAssigned),
                RtlStmt::Assign { kind, lhs, rhs } => {
                    if *kind != RtlAssignKind::NonBlocking {
                        return Err(SynthError::Blocking);
                    }
                    match (condition, rhs) {
                        (RtlExpr::Signal(enable), RtlExpr::Signal(data)) => Ok(
                            SynthCell::DLatch { output: *lhs, data: *data, enable: *enable },
                        ),
                        (RtlExpr::Signal(_), _) => Err(SynthError::LatchData),
                        _ => Err(SynthError::LatchEnable),
                    }
                },
            }
        },
    }
}

/// The cells of logic that drive signals.
pub open spec fn logic_cells(entries: Seq<Entry>) -> Seq<SynthCell> {
    entries.map_values(|entry: Entry| SynthCell::Combinational { output: entry.0, data: entry.1 })
}

/// What a process without a clock stands for: logic, where every path assigns
/// all its signals, and else a latch.
pub open spec fn combinational_result(statements: Vec<RtlStmt>, entries: Seq<Entry>) -> Result<
    Seq<SynthCell>,
    SynthError,
> {
    if forall|i: int|
        0 <= i < entries.len() ==> some_assigns(statements, statements@.len(), (#[trigger] entries[i]).0) {
        Ok(logic_cells(entries))
    } else {
        match latch_of(statements@) {
            Ok(cell) => Ok(seq![cell]),
            Err(error) => Err(error),
        }
    }
}

/// The first signal from `start` on that is not one of a module.
pub open spec fn unknown_from(module: RtlModule, entries: Seq<Entry>, start: nat) -> Option<RtlSignalRef>
    decreases entries.len() - start,
{
    if start >= entries.len() {
        None
    } else if entries[start as int].0.0 >= module.signals@.len() {
        Some(entries[start as int].0)
    } else {
        unknown_from(module, entries, start + 1)
    }
}

/// The cell that holds a signal.
pub open spec fn state_cell(module: RtlModule, entry: Entry, clock: RtlSignalRef, edge: SynthEdge) -> SynthCell {
    if module.signals@[entry.0.0 as int].width == 1 {
        SynthCell::Dff { output: entry.0, data: entry.1, clock, edge }
    } else {
        SynthCell::Register { output: entry.0, data: entry.1, clock, edge }
    }
}

/// What a process with a clock stands for: a flip-flop for each signal of one
/// bit, and a register for each other.
pub open spec fn clocked_result(
    module: RtlModule,
    entries: Seq<Entry>,
    clock: RtlSignalRef,
    edge: SynthEdge,
) -> Result<Seq<SynthCell>, SynthError> {
    match unknown_from(module, entries, 0) {
        Some(signal) => Err(SynthError::UnknownSignal { signal }),
        None => Ok(entries.map_values(|entry: Entry| state_cell(module, entry, clock, edge))),
    }
}

/// What a process stands for, by the values that it gives to its signals.
pub open spec fn process_result(module: RtlModule, process: RtlProcess, entries: Seq<Entry>) -> Result<
    Seq<SynthCell>,
    SynthError,
> {
    match process.sensitivity {
        RtlSensitivity::Combinational => combinational_result(process.statements, entries),
        RtlSensitivity::Posedge(clock) => clocked_result(module, entries, clock, SynthEdge::Posedge),
        RtlSensitivity::Negedge(clock) => clocked_result(module, entries, clock, SynthEdge::Negedge),
    }
}

/// The cells of a result.
pub open spec fn cells_of(result: Result<Vec<SynthCell>, SynthError>) -> Result<Seq<SynthCell>, SynthError> {
    match result {
        Ok(cells) => Ok(cells@),
        Err(error) => Err(error),
    }
}

/// Whether a result is what a process stands for.
pub open spec fn is_synthesized(
    module: RtlModule,
    process: RtlProcess,
    result: Result<Seq<SynthCell>, SynthError>,
) -> bool {
    match after_statements(process.statements, process.statements@.len(), no_values()) {
        None => result == Err::<Seq<SynthCell>, SynthError>(SynthError::Blocking),
        Some(values) => exists|entries: Seq<Entry>| #[trigger]
            lists(entries, values) && result == process_result(module, process, entries),
    }
}

/// Entries that list the same values are the same.
pub proof fn listing_is_unique(left: Seq<Entry>, right: Seq<Entry>, values: Values)
    requires
        lists(left, values),
        lists(right, values),
    ensures
        left == right,
    decreases left.len(),
{
    if left.len() == 0 {
        if right.len() > 0 {
            assert(values(right[0].0) is Some);
            assert(has_entry(left, right[0].0));
        }
        assert(left =~= right);
    } else {
        let last = left.last();
        assert(values(left[left.len() - 1].0) is Some);
        assert(has_entry(right, last.0));
        assert(right.len() > 0);
        assert(values(right[right.len() - 1].0) is Some);
        assert(has_entry(left, right.last().0));
        let i = choose|i: int| 0 <= i < right.len() && (#[trigger] right[i]).0 == last.0;
        let j = choose|j: int| 0 <= j < left.len() && (#[trigger] left[j]).0 == right.last().0;
        if j < left.len() - 1 {
            assert(left[j].0.0 < left[left.len() - 1].0.0);
        }
        if i < right.len() - 1 {
            assert(right[i].0.0 < right[right.len() - 1].0.0);
        }
        assert(last == right.last());
        let fewer: Values = |signal: RtlSignalRef|
            if signal == last.0 {
                None
            } else {
                values(signal)
            };
        dropping_lists(left, values, fewer);
        dropping_lists(right, values, fewer);
        listing_is_unique(left.drop_last(), right.drop_last(), fewer);
        assert(left =~= left.drop_last().push(last));
        assert(right =~= right.drop_last().push(last));
    }
}

proof fn dropping_lists(entries: Seq<Entry>, values: Values, fewer: Values)
    requires
        lists(entries, values),
        entries.len() > 0,
        forall|signal: RtlSignalRef| #[trigger]
            fewer(signal) == (if signal == entries.last().0 {
                None
            } else {
                values(signal)
            }),
    ensures
        lists(entries.drop_last(), fewer),
{
    let rest = entries.drop_last();
    assert forall|i: int| 0 <= i < rest.len() implies fewer((#[trigger] rest[i]).0) == Some(rest[i].1) by {
        assert(entries[i].0.0 < entries[entries.len() - 1].0.0);
    }
    assert forall|signal: RtlSignalRef| (#[trigger] fewer(signal)) is Some implies has_entry(rest, signal) by {
        assert(values(signal) is Some);
        let i = choose|i: int| 0 <= i < entries.len() && (#[trigger] entries[i]).0 == signal;
        assert(rest[i].0 == signal);
    }
}

fn synthesize_combinational_process(process: &RtlProcess, entries: Vec<Entry>) -> (result: Result<
    Vec<SynthCell>,
    SynthError,
>)
    ensures
        cells_of(result) == combinational_result(process.statements, entries@),
{
    let ghost all = entries@;
    let mut full = true;
    let mut index: usize = 0;
    while index < entries.len()
        invariant
            index <= entries.len(),
            all == entries@,
            full == forall|i: int|
                0 <= i < index ==> some_assigns(
                    process.statements,
                    process.statements@.len(),
                    (#[trigger] all[i]).0,
                ),
        decreases entries.len() - index,
    {
        let own = fully_assigned(&process.statements, entries[index].0);
        assert(own == some_assigns(process.statements, process.statements@.len(), all[index as int].0));
        if !own {
            full = false;
        }
        index += 1;
    }
    if full {
        let mut cells: Vec<SynthCell> = Vec::new();
        let mut index: usize = 0;
        while index < entries.len()
            invariant
                index <= entries.len(),
                all == entries@,
                cells.len() == index,
                forall|i: int| 0 <= i < index ==> #[trigger] cells@[i] == logic_cells(all)[i],
            decreases entries.len() - index,
        {
            cells.push(SynthCell::Combinational { output: entries[index].0, data: entries[index].1.copy() });
            index += 1;
        }
        assert(cells@ =~= logic_cells(all));
        return Ok(cells);
    }
    match synthesize_latch_process(process) {
        Err(error) => Err(error),
        Ok(cell) => {
            let mut cells: Vec<SynthCell> = Vec::new();
            let ghost own = cell;
            cells.push(cell);
            assert(cells@ =~= seq![own]);
            Ok(cells)
        },
    }
}

fn synthesize_clocked_process(
    module: &RtlModule,
    entries: Vec<Entry>,
    clock: RtlSignalRef,
    edge: SynthEdge,
) -> (result: Result<Vec<SynthCell>, SynthError>)
    ensures
        cells_of(result) == clocked_result(*module, entries@, clock, edge),
{
    let ghost all = entries@;
    let ghost wanted = all.map_values(|entry: Entry| state_cell(*module, entry, clock, edge));
    let mut cells: Vec<SynthCell> = Vec::new();
    let mut index: usize = 0;
    while index < entries.len()
        invariant
            index <= entries.len(),
            all == entries@,
            wanted == all.map_values(|entry: Entry| state_cell(*module, entry, clock, edge)),
            unknown_from(*module, all, 0) == unknown_from(*module, all, index as nat),
            cells.len() == index,
            forall|i: int| 0 <= i < index ==> #[trigger] cells@[i] == wanted[i],
        decreases entries.len() - index,
    {
        let output = entries[index].0;
        let data = entries[index].1.copy();
        match module.signal_width(output) {
            None => return Err(SynthError::UnknownSignal { signal: output }),
            Some(width) => {
                let cell = if width == 1 {
                    SynthCell::Dff { output, data, clock, edge }
                } else {
                    SynthCell::Register { output, data, clock, edge }
                };
                assert(cell == wanted[index as int]);
                cells.push(cell);
            },
        }
        index += 1;
    }
    assert(cells@ =~= wanted);
    Ok(cells)
}

fn synthesize_process(module: &RtlModule, process: &RtlProcess) -> (result: Result<Vec<SynthCell>, SynthError>)
    ensures
        is_synthesized(*module, *process, cells_of(result)),
{
    let entries = match process_next_values(&process.statements) {
        Err(error) => return Err(error),
        Ok(entries) => entries,
    };
    let ghost values = after_statements(process.statements, process.statements@.len(), no_values())->0;
    let ghost listed = entries@;
    assert(lists(listed, values));
    let result = match process.sensitivity {
        RtlSensitivity::Combinational => synthesize_combinational_process(process, entries),
        RtlSensitivity::Posedge(clock) => synthesize_clocked_process(module, entries, clock, SynthEdge::Posedge),
        RtlSensitivity::Negedge(clock) => synthesize_clocked_process(module, entries, clock, SynthEdge::Negedge),
    };
    assert(cells_of(result) == process_result(*module, *process, listed));
    result
}

/// Whether results are what the first processes of a module stand for.
pub open spec fn are_synthesized(module: RtlModule, results: Seq<Result<Seq<SynthCell>, SynthError>>) -> bool {
    &&& results.len() <= module.processes@.len()
    &&& forall|i: int|
        0 <= i < results.len() ==> is_synthesized(module, module.processes@[i], #[trigger] results[i])
}

/// The cells of results, one after the other.
pub open spec fn all_cells(results: Seq<Result<Seq<SynthCell>, SynthError>>) -> Seq<SynthCell>
    decreases results.len(),
{
    if results.len() == 0 {
        Seq::empty()
    } else {
        match results.last() {
            Ok(cells) => all_cells(results.drop_last()) + cells,
            Err(_) => all_cells(results.drop_last()),
        }
    }
}

/// Whether a result is what a module stands for: the cells of its processes, or
/// why the first of them that stands for none does not.
pub open spec fn is_netlist(module: RtlModule, result: Result<SynthNetlist, SynthError>) -> bool {
    exists|results: Seq<Result<Seq<SynthCell>, SynthError>>|
        {
            &&& #[trigger] are_synthesized(module, results)
            &&& match result {
                Ok(netlist) => {
                    &&& results.len() == module.processes@.len()
                    &&& forall|i: int| 0 <= i < results.len() ==> #[trigger] results[i] is Ok
                    &&& netlist.cells@ == all_cells(results)
                },
                Err(error) => {
                    &&& results.len() > 0
                    &&& forall|i: int| 0 <= i < results.len() - 1 ==> #[trigger] results[i] is Ok
                    &&& results.last() == Err::<Seq<SynthCell>, SynthError>(error)
                },
            }
        }
}

/// The cells that a module stands for.
pub fn synthesize_module(module: &RtlModule) -> (result: Result<SynthNetlist, SynthError>)
    ensures
        is_netlist(*module, result),
        result matches Ok(netlist) ==> netlist_implements(*module, netlist),
{
    let mut cells: Vec<SynthCell> = Vec::new();
    let ghost mut results = Seq::<Result<Seq<SynthCell>, SynthError>>::empty();
    assert(cells@ =~= all_cells(results));
    let mut index: usize = 0;
    while index < module.processes.len()
        invariant
            index <= module.processes.len(),
            results.len() == index,
            are_synthesized(*module, results),
            forall|i: int| 0 <= i < results.len() ==> #[trigger] results[i] is Ok,
            cells@ == all_cells(results),
        decreases module.processes.len() - index,
    {
        let outcome = synthesize_process(module, &module.processes[index]);
        let ghost before = results;
        proof {
            results = results.push(cells_of(outcome));
            assert(results.drop_last() =~= before);
            assert forall|i: int| 0 <= i < results.len() implies is_synthesized(
                *module,
                module.processes@[i],
                #[trigger] results[i],
            ) by {
                if i < before.len() {
                    assert(results[i] == before[i]);
                }
            }
            assert forall|i: int| 0 <= i < before.len() implies #[trigger] results[i] is Ok by {
                assert(before[i] is Ok);
            }
            assert(are_synthesized(*module, results));
        }
        match outcome {
            Err(error) => return Err(error),
            Ok(own) => {
                let mut own = own;
                cells.append(&mut own);
            },
        }
        index += 1;
    }
    let result: Result<SynthNetlist, SynthError> = Ok(SynthNetlist { cells });
    assert(are_synthesized(*module, results));
    proof {
        netlist_does_what_the_module_does(*module, result->Ok_0);
    }
    result
}

} // verus!
