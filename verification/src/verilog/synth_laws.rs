//! What the cells of a process do: what running its statements does.

use super::rtl::{RtlAssignKind, RtlExpr, RtlModule, RtlProcess, RtlSensitivity, RtlSignalRef, RtlStmt};
use super::synth::{
    after_statement, after_statements, all_cells, are_synthesized, has_entry, is_netlist, is_synthesized, latch_of,
    lists, merged, no_values, some_assigns, assigns, unknown_from, value_or_hold, Entry, SynthCell, SynthEdge,
    SynthError, SynthNetlist, Values,
};
use vstd::prelude::*;

verus! {

/// The values of all signals.
pub type State = spec_fn(RtlSignalRef) -> nat;

/// What the operators of expressions compute.
pub ghost struct Operators {
    pub bit: spec_fn(nat, usize) -> nat,
    pub constant: spec_fn(u128, usize) -> nat,
    pub not: spec_fn(nat) -> nat,
    pub and: spec_fn(nat, nat) -> nat,
    pub or: spec_fn(nat, nat) -> nat,
    pub xor: spec_fn(nat, nat) -> nat,
    pub eq: spec_fn(nat, nat) -> nat,
    pub plus: spec_fn(nat, nat) -> nat,
}

/// The value of an expression. A choice goes by whether its condition is zero.
pub open spec fn value(ops: Operators, expr: RtlExpr, state: State) -> nat
    decreases expr,
{
    match expr {
        RtlExpr::Signal(signal) => state(signal),
        RtlExpr::Bit { signal, bit } => (ops.bit)(state(signal), bit),
        RtlExpr::Const { value, width } => (ops.constant)(value, width),
        RtlExpr::Not(inner) => (ops.not)(value(ops, *inner, state)),
        RtlExpr::And(left, right) => (ops.and)(value(ops, *left, state), value(ops, *right, state)),
        RtlExpr::Or(left, right) => (ops.or)(value(ops, *left, state), value(ops, *right, state)),
        RtlExpr::Xor(left, right) => (ops.xor)(value(ops, *left, state), value(ops, *right, state)),
        RtlExpr::Eq(left, right) => (ops.eq)(value(ops, *left, state), value(ops, *right, state)),
        RtlExpr::Add(left, right) => (ops.plus)(value(ops, *left, state), value(ops, *right, state)),
        RtlExpr::Mux { select, when_true, when_false } => if value(ops, *select, state) != 0 {
            value(ops, *when_true, state)
        } else {
            value(ops, *when_false, state)
        },
    }
}

/// What a statement makes of the values to come: conditions and values are those
/// before the process runs.
pub open spec fn run_statement(ops: Operators, statement: RtlStmt, state: State, next: State) -> State
    decreases statement, 0nat,
{
    match statement {
        RtlStmt::Assign { lhs, rhs, .. } => |signal: RtlSignalRef|
            if signal == lhs {
                value(ops, rhs, state)
            } else {
                next(signal)
            },
        RtlStmt::If { condition, then_branch, else_branch } => if value(ops, condition, state) != 0 {
            run_statements(ops, then_branch, then_branch@.len(), state, next)
        } else {
            run_statements(ops, else_branch, else_branch@.len(), state, next)
        },
    }
}

/// What the first `count` statements make of the values to come, one after the
/// other.
pub open spec fn run_statements(
    ops: Operators,
    statements: Vec<RtlStmt>,
    count: nat,
    state: State,
    next: State,
) -> State
    decreases statements, count,
{
    if count == 0 || count > statements@.len() {
        next
    } else {
        run_statement(
            ops,
            statements@[count - 1],
            state,
            run_statements(ops, statements, (count - 1) as nat, state, next),
        )
    }
}

/// The values of the signals after a process has run. What it does not assign keeps
/// its value.
pub open spec fn run_process(ops: Operators, process: RtlProcess, state: State) -> State {
    run_statements(ops, process.statements, process.statements@.len(), state, state)
}

/// Whether an assignment of a signal occurs in a statement.
pub open spec fn occurs(statement: RtlStmt, signal: RtlSignalRef) -> bool
    decreases statement, 0nat,
{
    match statement {
        RtlStmt::Assign { lhs, .. } => lhs == signal,
        RtlStmt::If { then_branch, else_branch, .. } => occurs_in(then_branch, then_branch@.len(), signal) || occurs_in(
            else_branch,
            else_branch@.len(),
            signal,
        ),
    }
}

/// Whether an assignment of a signal occurs in the first `count` statements.
pub open spec fn occurs_in(statements: Vec<RtlStmt>, count: nat, signal: RtlSignalRef) -> bool
    decreases statements, count,
{
    if count == 0 || count > statements@.len() {
        false
    } else {
        occurs_in(statements, (count - 1) as nat, signal) || occurs(statements@[count - 1], signal)
    }
}

/// Whether a process assigns a signal somewhere.
pub open spec fn is_target(process: RtlProcess, signal: RtlSignalRef) -> bool {
    occurs_in(process.statements, process.statements@.len(), signal)
}

/// Whether there is a way through a statement that does not assign a signal.
pub open spec fn may_skip(statement: RtlStmt, signal: RtlSignalRef) -> bool
    decreases statement, 0nat,
{
    match statement {
        RtlStmt::Assign { lhs, .. } => lhs != signal,
        RtlStmt::If { then_branch, else_branch, .. } => may_skip_all(then_branch, then_branch@.len(), signal)
            || may_skip_all(else_branch, else_branch@.len(), signal),
    }
}

/// Whether there is a way through the first `count` statements that does not assign
/// a signal.
pub open spec fn may_skip_all(statements: Vec<RtlStmt>, count: nat, signal: RtlSignalRef) -> bool
    decreases statements, count,
{
    if count == 0 || count > statements@.len() {
        true
    } else {
        may_skip_all(statements, (count - 1) as nat, signal) && may_skip(statements@[count - 1], signal)
    }
}

/// Whether a process assigns all its signals whatever way it takes.
pub open spec fn always_assigns(process: RtlProcess) -> bool {
    forall|signal: RtlSignalRef| #[trigger]
        is_target(process, signal) ==> !may_skip_all(process.statements, process.statements@.len(), signal)
}

/// Whether something is assigned at once in a statement.
pub open spec fn is_blocking(statement: RtlStmt) -> bool
    decreases statement, 0nat,
{
    match statement {
        RtlStmt::Assign { kind, .. } => kind == RtlAssignKind::Blocking,
        RtlStmt::If { then_branch, else_branch, .. } => some_blocking(then_branch, then_branch@.len()) || some_blocking(
            else_branch,
            else_branch@.len(),
        ),
    }
}

/// Whether something is assigned at once in the first `count` statements.
pub open spec fn some_blocking(statements: Vec<RtlStmt>, count: nat) -> bool
    decreases statements, count,
{
    if count == 0 || count > statements@.len() {
        false
    } else {
        some_blocking(statements, (count - 1) as nat) || is_blocking(statements@[count - 1])
    }
}

/// Whether something is assigned at once in a process.
pub open spec fn has_blocking(process: RtlProcess) -> bool {
    some_blocking(process.statements, process.statements@.len())
}

/// The signal that a cell drives.
pub open spec fn output_of(cell: SynthCell) -> RtlSignalRef {
    match cell {
        SynthCell::DLatch { output, .. } => output,
        SynthCell::Dff { output, .. } => output,
        SynthCell::Register { output, .. } => output,
        SynthCell::Combinational { output, .. } => output,
    }
}

/// What a cell makes of its signal when it acts: a latch that is not enabled holds
/// it, and every other cell gives it its data.
pub open spec fn cell_next(ops: Operators, cell: SynthCell, state: State) -> nat {
    match cell {
        SynthCell::DLatch { output, data, enable } => if state(enable) != 0 {
            state(data)
        } else {
            state(output)
        },
        SynthCell::Dff { data, .. } => value(ops, data, state),
        SynthCell::Register { data, .. } => value(ops, data, state),
        SynthCell::Combinational { data, .. } => value(ops, data, state),
    }
}

/// Whether cells do what a process does, whatever the values of the signals and
/// whatever the operators compute.
pub open spec fn cells_run(process: RtlProcess, cells: Seq<SynthCell>) -> bool {
    forall|ops: Operators, state: State, i: int|
        #![trigger cell_next(ops, cells[i], state)]
        0 <= i < cells.len() ==> run_process(ops, process, state)(output_of(cells[i])) == cell_next(
            ops,
            cells[i],
            state,
        )
}

/// Whether a process leaves the signals alone that no cell drives.
pub open spec fn others_hold(process: RtlProcess, cells: Seq<SynthCell>) -> bool {
    forall|ops: Operators, state: State, signal: RtlSignalRef|
        #![trigger run_process(ops, process, state)(signal)]
        !is_driven(cells, signal) ==> run_process(ops, process, state)(signal) == state(signal)
}

/// Whether a cell drives a signal.
pub open spec fn is_driven(cells: Seq<SynthCell>, signal: RtlSignalRef) -> bool {
    exists|i: int| 0 <= i < cells.len() && output_of(#[trigger] cells[i]) == signal
}

/// Whether a cell acts when a process runs: at its edge of its clock, as a flip-flop
/// where the signal has one bit, or always.
pub open spec fn acts_with(module: RtlModule, process: RtlProcess, cell: SynthCell) -> bool {
    let width = module.signals@[output_of(cell).0 as int].width;
    match process.sensitivity {
        RtlSensitivity::Combinational => cell is Combinational || cell is DLatch,
        RtlSensitivity::Posedge(wanted) => output_of(cell).0 < module.signals@.len() && match cell {
            SynthCell::Dff { clock, edge, .. } => clock == wanted && edge == SynthEdge::Posedge && width == 1,
            SynthCell::Register { clock, edge, .. } => clock == wanted && edge == SynthEdge::Posedge && width != 1,
            _ => false,
        },
        RtlSensitivity::Negedge(wanted) => output_of(cell).0 < module.signals@.len() && match cell {
            SynthCell::Dff { clock, edge, .. } => clock == wanted && edge == SynthEdge::Negedge && width == 1,
            SynthCell::Register { clock, edge, .. } => clock == wanted && edge == SynthEdge::Negedge && width != 1,
            _ => false,
        },
    }
}

/// Whether cells stand for a process: one drives each signal that the process
/// assigns, in the order of the signals, when the process runs and as it does. Logic
/// drives only what the process assigns whatever way it takes.
pub open spec fn implements(module: RtlModule, process: RtlProcess, cells: Seq<SynthCell>) -> bool {
    &&& cells_run(process, cells)
    &&& others_hold(process, cells)
    &&& forall|signal: RtlSignalRef| #[trigger] is_driven(cells, signal) <==> is_target(process, signal)
    &&& forall|i: int, j: int|
        0 <= i < j < cells.len() ==> output_of(#[trigger] cells[i]).0 < output_of(#[trigger] cells[j]).0
    &&& forall|i: int| 0 <= i < cells.len() ==> acts_with(module, process, #[trigger] cells[i])
    &&& forall|i: int|
        0 <= i < cells.len() ==> (#[trigger] cells[i] is Combinational <==> process.sensitivity is Combinational
            && always_assigns(process))
}

// ---------------------------------------------------------------------------
// Values that statements give are those of running them
// ---------------------------------------------------------------------------
/// Whether expressions have the values to come.
spec fn stand_for(ops: Operators, values: Values, state: State, next: State) -> bool {
    forall|signal: RtlSignalRef| value(ops, value_or_hold(values(signal), signal), state) == #[trigger] next(signal)
}

proof fn statement_runs(ops: Operators, statement: RtlStmt, before: Values, state: State, next: State)
    requires
        stand_for(ops, before, state, next),
        after_statement(statement, before) is Some,
    ensures
        stand_for(ops, after_statement(statement, before)->0, state, run_statement(ops, statement, state, next)),
    decreases statement, 0nat,
{
    let after = after_statement(statement, before)->0;
    let ran = run_statement(ops, statement, state, next);
    match statement {
        RtlStmt::Assign { kind, lhs, rhs } => {
            assert forall|signal: RtlSignalRef| value(ops, value_or_hold(after(signal), signal), state)
                == #[trigger] ran(signal) by {
                assert(value(ops, value_or_hold(before(signal), signal), state) == next(signal));
            }
        },
        RtlStmt::If { condition, then_branch, else_branch } => {
            let when_true = after_statements(then_branch, then_branch@.len(), before)->0;
            let when_false = after_statements(else_branch, else_branch@.len(), before)->0;
            statements_run(ops, then_branch, then_branch@.len(), before, state, next);
            statements_run(ops, else_branch, else_branch@.len(), before, state, next);
            assert forall|signal: RtlSignalRef| value(ops, value_or_hold(after(signal), signal), state)
                == #[trigger] ran(signal) by {
                let held_true = value_or_hold(when_true(signal), signal);
                let held_false = value_or_hold(when_false(signal), signal);
                assert(after == merged(condition, before, when_true, when_false));
                if value(ops, condition, state) != 0 {
                    assert(value(ops, held_true, state) == ran(signal));
                } else {
                    assert(value(ops, held_false, state) == ran(signal));
                }
                if when_true(signal) != before(signal) || when_false(signal) != before(signal) {
                    let choice = RtlExpr::Mux {
                        select: Box::new(condition),
                        when_true: Box::new(held_true),
                        when_false: Box::new(held_false),
                    };
                    assert(after(signal) == Some(choice));
                    assert(value(ops, choice, state) == if value(ops, condition, state) != 0 {
                        value(ops, held_true, state)
                    } else {
                        value(ops, held_false, state)
                    });
                }
            }
        },
    }
}

proof fn statements_run(
    ops: Operators,
    statements: Vec<RtlStmt>,
    count: nat,
    before: Values,
    state: State,
    next: State,
)
    requires
        stand_for(ops, before, state, next),
        after_statements(statements, count, before) is Some,
    ensures
        stand_for(
            ops,
            after_statements(statements, count, before)->0,
            state,
            run_statements(ops, statements, count, state, next),
        ),
    decreases statements, count,
{
    if count > 0 && count <= statements@.len() {
        statements_run(ops, statements, (count - 1) as nat, before, state, next);
        let values = after_statements(statements, (count - 1) as nat, before)->0;
        let ran = run_statements(ops, statements, (count - 1) as nat, state, next);
        assert(decreases_to!(statements => statements@[count - 1]));
        statement_runs(ops, statements@[count - 1], values, state, ran);
    }
}

proof fn statement_assigns(statement: RtlStmt, before: Values, signal: RtlSignalRef)
    requires
        after_statement(statement, before) is Some,
    ensures
        after_statement(statement, before)->0(signal) is Some <==> before(signal) is Some || occurs(statement, signal),
    decreases statement, 0nat,
{
    match statement {
        RtlStmt::Assign { .. } => {},
        RtlStmt::If { condition, then_branch, else_branch } => {
            statements_assign(then_branch, then_branch@.len(), before, signal);
            statements_assign(else_branch, else_branch@.len(), before, signal);
        },
    }
}

proof fn statements_assign(statements: Vec<RtlStmt>, count: nat, before: Values, signal: RtlSignalRef)
    requires
        after_statements(statements, count, before) is Some,
    ensures
        after_statements(statements, count, before)->0(signal) is Some <==> before(signal) is Some || occurs_in(
            statements,
            count,
            signal,
        ),
    decreases statements, count,
{
    if count > 0 && count <= statements@.len() {
        statements_assign(statements, (count - 1) as nat, before, signal);
        let values = after_statements(statements, (count - 1) as nat, before)->0;
        assert(decreases_to!(statements => statements@[count - 1]));
        statement_assigns(statements@[count - 1], values, signal);
    }
}

proof fn statement_blocks(statement: RtlStmt, before: Values)
    ensures
        after_statement(statement, before) is None <==> is_blocking(statement),
    decreases statement, 0nat,
{
    match statement {
        RtlStmt::Assign { .. } => {},
        RtlStmt::If { condition, then_branch, else_branch } => {
            statements_block(then_branch, then_branch@.len(), before);
            statements_block(else_branch, else_branch@.len(), before);
        },
    }
}

proof fn statements_block(statements: Vec<RtlStmt>, count: nat, before: Values)
    ensures
        after_statements(statements, count, before) is None <==> some_blocking(statements, count),
    decreases statements, count,
{
    if count > 0 && count <= statements@.len() {
        statements_block(statements, (count - 1) as nat, before);
        if let Some(values) = after_statements(statements, (count - 1) as nat, before) {
            assert(decreases_to!(statements => statements@[count - 1]));
            statement_blocks(statements@[count - 1], values);
        }
    }
}

proof fn statement_covers(statement: RtlStmt, signal: RtlSignalRef)
    ensures
        assigns(statement, signal) <==> !may_skip(statement, signal),
    decreases statement, 0nat,
{
    match statement {
        RtlStmt::Assign { .. } => {},
        RtlStmt::If { condition, then_branch, else_branch } => {
            statements_cover(then_branch, then_branch@.len(), signal);
            statements_cover(else_branch, else_branch@.len(), signal);
        },
    }
}

proof fn statements_cover(statements: Vec<RtlStmt>, count: nat, signal: RtlSignalRef)
    ensures
        some_assigns(statements, count, signal) <==> !may_skip_all(statements, count, signal),
    decreases statements, count,
{
    if count > 0 && count <= statements@.len() {
        statements_cover(statements, (count - 1) as nat, signal);
        assert(decreases_to!(statements => statements@[count - 1]));
        statement_covers(statements@[count - 1], signal);
    }
}

// ---------------------------------------------------------------------------
// Processes
// ---------------------------------------------------------------------------
/// Whether entries hold what a process makes of the signals that it assigns.
spec fn entries_run(process: RtlProcess, entries: Seq<Entry>) -> bool {
    &&& forall|ops: Operators, state: State, i: int|
        #![trigger value(ops, entries[i].1, state)]
        0 <= i < entries.len() ==> run_process(ops, process, state)(entries[i].0) == value(ops, entries[i].1, state)
    &&& forall|signal: RtlSignalRef| #[trigger] has_entry(entries, signal) <==> is_target(process, signal)
    &&& forall|ops: Operators, state: State, signal: RtlSignalRef|
        #![trigger run_process(ops, process, state)(signal)]
        !has_entry(entries, signal) ==> run_process(ops, process, state)(signal) == state(signal)
}

proof fn listed_values_run(process: RtlProcess, entries: Seq<Entry>)
    requires
        after_statements(process.statements, process.statements@.len(), no_values()) matches Some(values) && lists(
            entries,
            values,
        ),
    ensures
        entries_run(process, entries),
{
    let statements = process.statements;
    let count = statements@.len();
    let values = after_statements(statements, count, no_values())->0;
    assert forall|ops: Operators, state: State, signal: RtlSignalRef|
        #![trigger run_process(ops, process, state)(signal)]
        value(ops, value_or_hold(values(signal), signal), state) == run_process(ops, process, state)(signal) by {
        assert(stand_for(ops, no_values(), state, state));
        statements_run(ops, statements, count, no_values(), state, state);
        assert(run_statements(ops, statements, count, state, state)(signal) == value(
            ops,
            value_or_hold(values(signal), signal),
            state,
        ));
    }
    assert forall|ops: Operators, state: State, i: int|
        #![trigger value(ops, entries[i].1, state)]
        0 <= i < entries.len() implies run_process(ops, process, state)(entries[i].0) == value(
        ops,
        entries[i].1,
        state,
    ) by {
        assert(values(entries[i].0) == Some(entries[i].1));
        let ran = run_process(ops, process, state)(entries[i].0);
        assert(ran == value(ops, value_or_hold(values(entries[i].0), entries[i].0), state));
    }
    assert forall|signal: RtlSignalRef| #[trigger] has_entry(entries, signal) <==> is_target(process, signal) by {
        statements_assign(statements, count, no_values(), signal);
        if has_entry(entries, signal) {
            let i = choose|i: int| 0 <= i < entries.len() && (#[trigger] entries[i]).0 == signal;
            assert(values(entries[i].0) is Some);
        }
    }
    assert forall|ops: Operators, state: State, signal: RtlSignalRef|
        #![trigger run_process(ops, process, state)(signal)]
        !has_entry(entries, signal) implies run_process(ops, process, state)(signal) == state(signal) by {
        assert(values(signal) is None);
    }
}

/// The entries behind what a process was synthesised into.
proof fn entries_of(module: RtlModule, process: RtlProcess, result: Result<Seq<SynthCell>, SynthError>) -> (entries: Seq<
    Entry,
>)
    requires
        is_synthesized(module, process, result),
        !has_blocking(process),
    ensures
        after_statements(process.statements, process.statements@.len(), no_values()) matches Some(values) && lists(
            entries,
            values,
        ),
        result == super::synth::process_result(module, process, entries),
        entries_run(process, entries),
{
    statements_block(process.statements, process.statements@.len(), no_values());
    let values = after_statements(process.statements, process.statements@.len(), no_values())->0;
    let entries = choose|entries: Seq<Entry>| #[trigger]
        lists(entries, values) && result == super::synth::process_result(module, process, entries);
    listed_values_run(process, entries);
    entries
}

/// Cells that drive the signals of entries with their values.
proof fn copied_entries_run(process: RtlProcess, entries: Seq<Entry>, cells: Seq<SynthCell>)
    requires
        entries_run(process, entries),
        super::synth::in_order(entries),
        cells.len() == entries.len(),
        forall|i: int|
            0 <= i < cells.len() ==> output_of(#[trigger] cells[i]) == entries[i].0 && match cells[i] {
                SynthCell::DLatch { .. } => false,
                SynthCell::Dff { data, .. } => data == entries[i].1,
                SynthCell::Register { data, .. } => data == entries[i].1,
                SynthCell::Combinational { data, .. } => data == entries[i].1,
            },
    ensures
        cells_run(process, cells),
        others_hold(process, cells),
        forall|signal: RtlSignalRef| #[trigger] is_driven(cells, signal) <==> is_target(process, signal),
        forall|i: int, j: int|
            0 <= i < j < cells.len() ==> output_of(#[trigger] cells[i]).0 < output_of(#[trigger] cells[j]).0,
{
    assert forall|ops: Operators, state: State, i: int|
        #![trigger cell_next(ops, cells[i], state)]
        0 <= i < cells.len() implies run_process(ops, process, state)(output_of(cells[i])) == cell_next(
        ops,
        cells[i],
        state,
    ) by {
        assert(value(ops, entries[i].1, state) == run_process(ops, process, state)(entries[i].0));
    }
    assert forall|signal: RtlSignalRef| #[trigger] is_driven(cells, signal) <==> has_entry(entries, signal) by {
        if is_driven(cells, signal) {
            let i = choose|i: int| 0 <= i < cells.len() && output_of(#[trigger] cells[i]) == signal;
            assert(entries[i].0 == signal);
        }
        if has_entry(entries, signal) {
            let i = choose|i: int| 0 <= i < entries.len() && (#[trigger] entries[i]).0 == signal;
            assert(output_of(cells[i]) == signal);
        }
    }
    assert forall|i: int, j: int| 0 <= i < j < cells.len() implies output_of(#[trigger] cells[i]).0 < output_of(
        #[trigger] cells[j],
    ).0 by {
        assert(entries[i].0.0 < entries[j].0.0);
    }
}

/// A condition with one assignment is what a latch does.
proof fn latch_runs(process: RtlProcess)
    requires
        latch_of(process.statements@) is Ok,
    ensures
        cells_run(process, seq![latch_of(process.statements@)->Ok_0]),
        forall|signal: RtlSignalRef| #[trigger]
            is_target(process, signal) <==> signal == output_of(latch_of(process.statements@)->Ok_0),
        latch_of(process.statements@)->Ok_0 is DLatch,
{
    let cell = latch_of(process.statements@)->Ok_0;
    let cells = seq![cell];
    let statements = process.statements;
    match statements@[0] {
        RtlStmt::If { condition, then_branch, else_branch } => {
            assert forall|ops: Operators, state: State, i: int|
                #![trigger cell_next(ops, cells[i], state)]
                0 <= i < cells.len() implies run_process(ops, process, state)(output_of(cells[i])) == cell_next(
                ops,
                cells[i],
                state,
            ) by {
                assert(run_statements(ops, statements, 0, state, state) == state);
                assert(run_statements(ops, statements, 1, state, state) == run_statement(
                    ops,
                    statements@[0],
                    state,
                    state,
                ));
                assert(run_statements(ops, then_branch, 0, state, state) == state);
                assert(run_statements(ops, then_branch, 1, state, state) == run_statement(
                    ops,
                    then_branch@[0],
                    state,
                    state,
                ));
                assert(run_statements(ops, else_branch, 0, state, state) == state);
            }
            assert forall|signal: RtlSignalRef| #[trigger] is_target(process, signal) <==> signal == output_of(cell) by {
                assert(!occurs_in(statements, 0, signal));
                assert(occurs_in(statements, 1, signal) == occurs(statements@[0], signal));
                assert(!occurs_in(then_branch, 0, signal));
                assert(occurs_in(then_branch, 1, signal) == occurs(then_branch@[0], signal));
                assert(!occurs_in(else_branch, 0, signal));
            }
        },
        RtlStmt::Assign { .. } => {},
    }
}

/// The cells of a process do what running its statements does: the data of each has
/// the value of the last assignment on the way that the conditions take, and the
/// signal's own value where that way does not assign it.
pub proof fn cells_do_what_their_process_does(module: RtlModule, process: RtlProcess, cells: Seq<SynthCell>)
    requires
        is_synthesized(module, process, Ok(cells)),
    ensures
        implements(module, process, cells),
{
    statements_block(process.statements, process.statements@.len(), no_values());
    let result = Ok::<Seq<SynthCell>, SynthError>(cells);
    let entries = entries_of(module, process, result);
    let full = always_assigns(process);
    assert(full <==> forall|i: int|
        0 <= i < entries.len() ==> some_assigns(
            process.statements,
            process.statements@.len(),
            (#[trigger] entries[i]).0,
        )) by {
        assert forall|signal: RtlSignalRef|
            some_assigns(process.statements, process.statements@.len(), signal) <==> !#[trigger] may_skip_all(
                process.statements,
                process.statements@.len(),
                signal,
            ) by {
            statements_cover(process.statements, process.statements@.len(), signal);
        }
        if full {
            assert forall|i: int| 0 <= i < entries.len() implies some_assigns(
                process.statements,
                process.statements@.len(),
                (#[trigger] entries[i]).0,
            ) by {
                assert(has_entry(entries, entries[i].0));
                assert(is_target(process, entries[i].0));
                assert(!may_skip_all(process.statements, process.statements@.len(), entries[i].0));
            }
        } else {
            let signal = choose|signal: RtlSignalRef| #[trigger]
                is_target(process, signal) && may_skip_all(process.statements, process.statements@.len(), signal);
            assert(has_entry(entries, signal));
            let i = choose|i: int| 0 <= i < entries.len() && (#[trigger] entries[i]).0 == signal;
            assert(!some_assigns(process.statements, process.statements@.len(), entries[i].0));
        }
    }
    match process.sensitivity {
        RtlSensitivity::Combinational => {
            if full {
                copied_entries_run(process, entries, cells);
            } else {
                latch_runs(process);
                let cell = latch_of(process.statements@)->Ok_0;
                assert(cells == seq![cell]);
                assert forall|signal: RtlSignalRef| #[trigger] is_driven(cells, signal) <==> is_target(process, signal) by {
                    if signal == output_of(cell) {
                        assert(output_of(cells[0]) == signal);
                    }
                }
                assert forall|ops: Operators, state: State, signal: RtlSignalRef|
                    #![trigger run_process(ops, process, state)(signal)]
                    !is_driven(cells, signal) implies run_process(ops, process, state)(signal) == state(signal) by {
                    assert(!is_target(process, signal));
                    assert(!has_entry(entries, signal));
                }
            }
        },
        RtlSensitivity::Posedge(clock) => {
            all_known(module, entries, 0);
            copied_entries_run(process, entries, cells);
        },
        RtlSensitivity::Negedge(clock) => {
            all_known(module, entries, 0);
            copied_entries_run(process, entries, cells);
        },
    }
}

proof fn all_known(module: RtlModule, entries: Seq<Entry>, start: nat)
    ensures
        match unknown_from(module, entries, start) {
            None => forall|i: int| start <= i < entries.len() ==> (#[trigger] entries[i]).0.0 < module.signals@.len(),
            Some(signal) => exists|i: int|
                {
                    &&& start <= i < entries.len()
                    &&& (#[trigger] entries[i]).0 == signal
                    &&& signal.0 >= module.signals@.len()
                    &&& forall|j: int| start <= j < i ==> (#[trigger] entries[j]).0.0 < module.signals@.len()
                },
        },
    decreases entries.len() - start,
{
    if start < entries.len() {
        if entries[start as int].0.0 < module.signals@.len() {
            all_known(module, entries, start + 1);
            if let Some(signal) = unknown_from(module, entries, start + 1) {
                let i = choose|i: int|
                    {
                        &&& start + 1 <= i < entries.len()
                        &&& (#[trigger] entries[i]).0 == signal
                        &&& signal.0 >= module.signals@.len()
                        &&& forall|j: int|
                            start + 1 <= j < i ==> (#[trigger] entries[j]).0.0 < module.signals@.len()
                    };
                assert(entries[i].0 == signal);
            }
        } else {
            assert(entries[start as int].0 == unknown_from(module, entries, start)->0);
        }
    }
}

/// A process is refused for an assignment at once if it has one, and for nothing else
/// if it has a clock and assigns signals of the module only, or has none and assigns
/// its signals whatever way it takes. Of the signals that the module does not have,
/// the first is told.
pub proof fn sound_processes_are_synthesised(
    module: RtlModule,
    process: RtlProcess,
    result: Result<Seq<SynthCell>, SynthError>,
)
    requires
        is_synthesized(module, process, result),
    ensures
        has_blocking(process) <==> result == Err::<Seq<SynthCell>, SynthError>(SynthError::Blocking),
        !has_blocking(process) && process.sensitivity is Combinational && always_assigns(process) ==> result is Ok,
        !has_blocking(process) && !(process.sensitivity is Combinational) ==> match result {
            Ok(_) => forall|signal: RtlSignalRef| #[trigger]
                is_target(process, signal) ==> signal.0 < module.signals@.len(),
            Err(error) => error matches SynthError::UnknownSignal { signal } && is_target(process, signal) && signal.0
                >= module.signals@.len() && forall|other: RtlSignalRef| #[trigger]
                is_target(process, other) && other.0 < signal.0 ==> other.0 < module.signals@.len(),
        },
{
    let count = process.statements@.len();
    statements_block(process.statements, count, no_values());
    if !has_blocking(process) {
        let entries = entries_of(module, process, result);
        if process.sensitivity is Combinational {
            if always_assigns(process) {
                assert forall|i: int| 0 <= i < entries.len() implies some_assigns(
                    process.statements,
                    count,
                    (#[trigger] entries[i]).0,
                ) by {
                    assert(has_entry(entries, entries[i].0));
                    assert(is_target(process, entries[i].0));
                    statements_cover(process.statements, count, entries[i].0);
                }
            } else if result == Err::<Seq<SynthCell>, SynthError>(SynthError::Blocking) {
                let statements = process.statements;
                match statements@[0] {
                    RtlStmt::If { condition, then_branch, else_branch } => {
                        assert(latch_of(statements@) == Err::<SynthCell, SynthError>(SynthError::Blocking));
                        assert(then_branch@.len() == 1 && statements@.len() == 1);
                        assert(is_blocking(then_branch@[0]));
                        assert(some_blocking(then_branch, 1));
                        assert(is_blocking(statements@[0]));
                        assert(some_blocking(statements, 1));
                    },
                    RtlStmt::Assign { .. } => {},
                }
            }
        } else {
            all_known(module, entries, 0);
            match unknown_from(module, entries, 0) {
                None => {
                    assert forall|signal: RtlSignalRef| #[trigger] is_target(process, signal) implies signal.0
                        < module.signals@.len() by {
                        assert(has_entry(entries, signal));
                        let i = choose|i: int| 0 <= i < entries.len() && (#[trigger] entries[i]).0 == signal;
                        assert(entries[i].0.0 < module.signals@.len());
                    }
                },
                Some(signal) => {
                    let i = choose|i: int|
                        {
                            &&& 0 <= i < entries.len()
                            &&& (#[trigger] entries[i]).0 == signal
                            &&& signal.0 >= module.signals@.len()
                            &&& forall|j: int| 0 <= j < i ==> (#[trigger] entries[j]).0.0 < module.signals@.len()
                        };
                    assert(has_entry(entries, signal));
                    assert forall|other: RtlSignalRef| #[trigger]
                        is_target(process, other) && other.0 < signal.0 implies other.0 < module.signals@.len() by {
                        assert(has_entry(entries, other));
                        let j = choose|j: int| 0 <= j < entries.len() && (#[trigger] entries[j]).0 == other;
                        if j > i {
                            assert(entries[i].0.0 < entries[j].0.0);
                        }
                    }
                },
            }
        }
    }
}

// ---------------------------------------------------------------------------
// Modules
// ---------------------------------------------------------------------------
/// Whether the cells of a netlist are those of the processes of a module, one after
/// the other, and those of each process stand for it.
pub open spec fn netlist_implements(module: RtlModule, netlist: SynthNetlist) -> bool {
    exists|parts: Seq<Seq<SynthCell>>|
        {
            &&& parts.len() == module.processes@.len()
            &&& netlist.cells@ == #[trigger] parts.flatten()
            &&& forall|i: int|
                0 <= i < parts.len() ==> implements(module, module.processes@[i], #[trigger] parts[i])
        }
}

proof fn cells_are_joined(results: Seq<Result<Seq<SynthCell>, SynthError>>)
    requires
        forall|i: int| 0 <= i < results.len() ==> #[trigger] results[i] is Ok,
    ensures
        all_cells(results) == results.map_values(
            |result: Result<Seq<SynthCell>, SynthError>| result->Ok_0,
        ).flatten_alt(),
    decreases results.len(),
{
    let parts = results.map_values(|result: Result<Seq<SynthCell>, SynthError>| result->Ok_0);
    if results.len() > 0 {
        let fewer = results.drop_last();
        assert forall|i: int| 0 <= i < fewer.len() implies #[trigger] fewer[i] is Ok by {
            assert(results[i] is Ok);
        }
        cells_are_joined(fewer);
        assert(parts.drop_last() =~= fewer.map_values(
            |result: Result<Seq<SynthCell>, SynthError>| result->Ok_0,
        ));
        assert(results[results.len() - 1] is Ok);
        assert(parts.last() == results.last()->Ok_0);
    }
}

/// The cells of a module do what its processes do.
pub proof fn netlist_does_what_the_module_does(module: RtlModule, netlist: SynthNetlist)
    requires
        is_netlist(module, Ok(netlist)),
    ensures
        netlist_implements(module, netlist),
{
    let results = choose|results: Seq<Result<Seq<SynthCell>, SynthError>>|
        {
            &&& #[trigger] are_synthesized(module, results)
            &&& results.len() == module.processes@.len()
            &&& forall|i: int| 0 <= i < results.len() ==> #[trigger] results[i] is Ok
            &&& netlist.cells@ == all_cells(results)
        };
    let parts = results.map_values(|result: Result<Seq<SynthCell>, SynthError>| result->Ok_0);
    cells_are_joined(results);
    parts.lemma_flatten_and_flatten_alt_are_equivalent();
    assert forall|i: int| 0 <= i < parts.len() implies implements(module, module.processes@[i], #[trigger] parts[i]) by {
        assert(results[i] is Ok);
        assert(is_synthesized(module, module.processes@[i], results[i]));
        cells_do_what_their_process_does(module, module.processes@[i], parts[i]);
    }
    assert(netlist.cells@ == parts.flatten());
}

/// Synthesis of a module fails with the error of a process, where the ones before it
/// stand for cells.
pub proof fn first_refused_process_is_told(module: RtlModule, error: SynthError)
    requires
        is_netlist(module, Err(error)),
    ensures
        exists|index: int|
            {
                &&& 0 <= index < module.processes@.len()
                &&& #[trigger] is_synthesized(module, module.processes@[index], Err(error))
                &&& forall|earlier: int|
                    0 <= earlier < index ==> !has_blocking(#[trigger] module.processes@[earlier])
            },
{
    let results = choose|results: Seq<Result<Seq<SynthCell>, SynthError>>|
        {
            &&& #[trigger] are_synthesized(module, results)
            &&& results.len() > 0
            &&& forall|i: int| 0 <= i < results.len() - 1 ==> #[trigger] results[i] is Ok
            &&& results.last() == Err::<Seq<SynthCell>, SynthError>(error)
        };
    let index = results.len() - 1;
    assert(is_synthesized(module, module.processes@[index], results[index]));
    assert forall|earlier: int| 0 <= earlier < index implies !has_blocking(#[trigger] module.processes@[earlier]) by {
        assert(results[earlier] is Ok);
        sound_processes_are_synthesised(module, module.processes@[earlier], results[earlier]);
    }
}

} // verus!
