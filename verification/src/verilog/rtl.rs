//! Modules of processes that assign signals.

use crate::text::same_text;
use vstd::prelude::*;

verus! {

/// A signal of a module, by its index.
#[derive(Clone, Copy, Debug, PartialEq, Eq, PartialOrd, Ord, Structural)]
pub struct RtlSignalRef(pub usize);

/// An expression over signals.
#[derive(Debug, PartialEq, Eq)]
pub enum RtlExpr {
    Signal(RtlSignalRef),
    Bit { signal: RtlSignalRef, bit: usize },
    Const { value: u128, width: usize },
    Not(Box<RtlExpr>),
    And(Box<RtlExpr>, Box<RtlExpr>),
    Or(Box<RtlExpr>, Box<RtlExpr>),
    Xor(Box<RtlExpr>, Box<RtlExpr>),
    Eq(Box<RtlExpr>, Box<RtlExpr>),
    Add(Box<RtlExpr>, Box<RtlExpr>),
    Mux { select: Box<RtlExpr>, when_true: Box<RtlExpr>, when_false: Box<RtlExpr> },
}

impl RtlExpr {
    /// An equal expression.
    pub fn copy(&self) -> (copy: RtlExpr)
        ensures
            copy == *self,
        decreases self,
    {
        match self {
            RtlExpr::Signal(signal) => RtlExpr::Signal(*signal),
            RtlExpr::Bit { signal, bit } => RtlExpr::Bit { signal: *signal, bit: *bit },
            RtlExpr::Const { value, width } => RtlExpr::Const { value: *value, width: *width },
            RtlExpr::Not(inner) => RtlExpr::Not(Box::new(inner.copy())),
            RtlExpr::And(left, right) => RtlExpr::And(Box::new(left.copy()), Box::new(right.copy())),
            RtlExpr::Or(left, right) => RtlExpr::Or(Box::new(left.copy()), Box::new(right.copy())),
            RtlExpr::Xor(left, right) => RtlExpr::Xor(Box::new(left.copy()), Box::new(right.copy())),
            RtlExpr::Eq(left, right) => RtlExpr::Eq(Box::new(left.copy()), Box::new(right.copy())),
            RtlExpr::Add(left, right) => RtlExpr::Add(Box::new(left.copy()), Box::new(right.copy())),
            RtlExpr::Mux { select, when_true, when_false } => RtlExpr::Mux {
                select: Box::new(select.copy()),
                when_true: Box::new(when_true.copy()),
                when_false: Box::new(when_false.copy()),
            },
        }
    }

    /// Whether an expression equals another.
    pub fn same(&self, other: &RtlExpr) -> (same: bool)
        ensures
            same == (*self == *other),
        decreases self,
    {
        match (self, other) {
            (RtlExpr::Signal(own), RtlExpr::Signal(signal)) => own.0 == signal.0,
            (RtlExpr::Bit { signal: own, bit: at }, RtlExpr::Bit { signal, bit }) => own.0 == signal.0 && at == bit,
            (RtlExpr::Const { value: own, width: wide }, RtlExpr::Const { value, width }) => own == value && wide
                == width,
            (RtlExpr::Not(own), RtlExpr::Not(inner)) => own.same(inner),
            (RtlExpr::And(first, second), RtlExpr::And(left, right)) => first.same(left) && second.same(right),
            (RtlExpr::Or(first, second), RtlExpr::Or(left, right)) => first.same(left) && second.same(right),
            (RtlExpr::Xor(first, second), RtlExpr::Xor(left, right)) => first.same(left) && second.same(right),
            (RtlExpr::Eq(first, second), RtlExpr::Eq(left, right)) => first.same(left) && second.same(right),
            (RtlExpr::Add(first, second), RtlExpr::Add(left, right)) => first.same(left) && second.same(right),
            (
                RtlExpr::Mux { select: first, when_true: second, when_false: third },
                RtlExpr::Mux { select, when_true, when_false },
            ) => first.same(select) && second.same(when_true) && third.same(when_false),
            _ => false,
        }
    }
}

/// How a signal is assigned.
#[derive(Clone, Copy, Debug, PartialEq, Eq, Structural)]
pub enum RtlAssignKind {
    Blocking,
    NonBlocking,
}

/// A statement of a process.
#[derive(Debug)]
pub enum RtlStmt {
    Assign { kind: RtlAssignKind, lhs: RtlSignalRef, rhs: RtlExpr },
    If { condition: RtlExpr, then_branch: Vec<RtlStmt>, else_branch: Vec<RtlStmt> },
}

/// When a process runs.
#[derive(Clone, Copy, Debug, PartialEq, Eq, Structural)]
pub enum RtlSensitivity {
    Combinational,
    Posedge(RtlSignalRef),
    Negedge(RtlSignalRef),
}

/// A process.
#[derive(Debug)]
pub struct RtlProcess {
    pub sensitivity: RtlSensitivity,
    pub statements: Vec<RtlStmt>,
}

/// A signal.
#[derive(Debug)]
pub struct RtlSignal {
    pub name: String,
    pub width: usize,
}

/// A module.
#[derive(Debug)]
pub struct RtlModule {
    pub signals: Vec<RtlSignal>,
    pub processes: Vec<RtlProcess>,
}

/// The index of the first signal of a name, from `start` on.
pub open spec fn signal_from(signals: Seq<RtlSignal>, name: Seq<char>, start: nat) -> Option<RtlSignalRef>
    decreases signals.len() - start,
{
    if start >= signals.len() {
        None
    } else if signals[start as int].name@ == name {
        Some(RtlSignalRef(start as usize))
    } else {
        signal_from(signals, name, start + 1)
    }
}

impl RtlModule {
    /// The signal of a name.
    pub fn signal_ref(&self, name: &str) -> (found: Option<RtlSignalRef>)
        ensures
            found == signal_from(self.signals@, name@, 0),
    {
        let mut index: usize = 0;
        while index < self.signals.len() && !same_text(self.signals[index].name.as_str(), name)
            invariant
                index <= self.signals.len(),
                signal_from(self.signals@, name@, 0) == signal_from(self.signals@, name@, index as nat),
            decreases self.signals.len() - index,
        {
            index += 1;
        }
        if index < self.signals.len() {
            Some(RtlSignalRef(index))
        } else {
            None
        }
    }

    /// The expression of the signal of a name.
    pub fn signal_expr(&self, name: &str) -> (found: Option<RtlExpr>)
        ensures
            found == (match signal_from(self.signals@, name@, 0) {
                Some(signal) => Some(RtlExpr::Signal(signal)),
                None => None,
            }),
    {
        match self.signal_ref(name) {
            Some(signal) => Some(RtlExpr::Signal(signal)),
            None => None,
        }
    }

    /// The width of a signal.
    pub fn signal_width(&self, signal: RtlSignalRef) -> (width: Option<usize>)
        ensures
            width == (if signal.0 < self.signals@.len() {
                Some(self.signals@[signal.0 as int].width)
            } else {
                None
            }),
    {
        if signal.0 < self.signals.len() {
            Some(self.signals[signal.0].width)
        } else {
            None
        }
    }
}

} // verus!
