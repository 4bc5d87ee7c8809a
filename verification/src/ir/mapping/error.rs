//! What can go wrong while lowering a module.

use crate::ir::target::{TargetOp, UnsupportedOp};
use crate::text::texts;
use vstd::prelude::*;

verus! {

/// A module that cannot be lowered.
#[derive(Clone, Debug)]
pub enum LowerError {
    /// The target lacks an operation.
    Unsupported(UnsupportedOp),
    /// A net that the module does not declare.
    UnknownNet(String),
    /// A bit that its net does not have.
    BitOutOfRange { net: String, bit: usize, width: usize },
    /// A cell without an input pin that its kind needs.
    MissingInput { cell: String, pin: String },
    /// A cell without an output pin that its kind needs.
    MissingOutput { cell: String, pin: String },
    /// A cell that drives nothing.
    NoOutput(String),
    /// A multiplexer whose select is not one bit.
    SelectWidth(String),
    /// A comparison whose result is not one bit.
    CompareResultWidth(String),
    /// A comparison of nothing.
    CompareZeroWidth(String),
    /// A state cell where only logic can stand.
    SequentialCell(String),
    /// Cells that wait for each other or for nets that nothing drives.
    Unresolved(Vec<String>),
    /// An output port that nothing drives.
    NoProducer(String),
    /// A net that nothing drives.
    NoDriver(String),
    /// A cell whose inputs could not be produced.
    NotEmitted(String),
    /// A pin that must be fed by a whole net.
    NotANet(String),
    /// A scalar net that is neither an input nor a state output.
    UnresolvedSource(String),
    /// An output port behind a state cell that was removed.
    StateNotLowered(String),
    /// A bit that its own driver does not drive.
    LostNet(String),
    /// A port of a net that the module does not declare.
    MissingPortNet { port: String, net: String },
    /// A leaf node that is not resolved yet.
    UnresolvedNode,
    /// A physical block where only logic can stand.
    PhysicalNode,
    /// A cluster where only logic can stand.
    ClusteredNode,
    /// A leaf could not be prepared for placement.
    NotPlaceable(String),
    /// A design that is not valid.
    Invalid(String),
}

/// The contents of a [`LowerError`].
pub enum ErrorView {
    Unsupported(Seq<char>, TargetOp),
    UnknownNet(Seq<char>),
    BitOutOfRange(Seq<char>, usize, usize),
    MissingInput(Seq<char>, Seq<char>),
    MissingOutput(Seq<char>, Seq<char>),
    NoOutput(Seq<char>),
    SelectWidth(Seq<char>),
    CompareResultWidth(Seq<char>),
    CompareZeroWidth(Seq<char>),
    SequentialCell(Seq<char>),
    Unresolved(Seq<Seq<char>>),
    NoProducer(Seq<char>),
    NoDriver(Seq<char>),
    NotEmitted(Seq<char>),
    NotANet(Seq<char>),
    UnresolvedSource(Seq<char>),
    StateNotLowered(Seq<char>),
    LostNet(Seq<char>),
    MissingPortNet(Seq<char>, Seq<char>),
    UnresolvedNode,
    PhysicalNode,
    ClusteredNode,
    NotPlaceable(Seq<char>),
    Invalid(Seq<char>),
}

impl View for LowerError {
    type V = ErrorView;

    open spec fn view(&self) -> ErrorView {
        match self {
            LowerError::Unsupported(error) => ErrorView::Unsupported(error.target@, error.op),
            LowerError::UnknownNet(net) => ErrorView::UnknownNet(net@),
            LowerError::BitOutOfRange { net, bit, width } => ErrorView::BitOutOfRange(net@, *bit, *width),
            LowerError::MissingInput { cell, pin } => ErrorView::MissingInput(cell@, pin@),
            LowerError::MissingOutput { cell, pin } => ErrorView::MissingOutput(cell@, pin@),
            LowerError::NoOutput(cell) => ErrorView::NoOutput(cell@),
            LowerError::SelectWidth(cell) => ErrorView::SelectWidth(cell@),
            LowerError::CompareResultWidth(cell) => ErrorView::CompareResultWidth(cell@),
            LowerError::CompareZeroWidth(cell) => ErrorView::CompareZeroWidth(cell@),
            LowerError::SequentialCell(cell) => ErrorView::SequentialCell(cell@),
            LowerError::Unresolved(cells) => ErrorView::Unresolved(texts(cells@)),
            LowerError::NoProducer(port) => ErrorView::NoProducer(port@),
            LowerError::NoDriver(net) => ErrorView::NoDriver(net@),
            LowerError::NotEmitted(cell) => ErrorView::NotEmitted(cell@),
            LowerError::NotANet(role) => ErrorView::NotANet(role@),
            LowerError::UnresolvedSource(net) => ErrorView::UnresolvedSource(net@),
            LowerError::StateNotLowered(port) => ErrorView::StateNotLowered(port@),
            LowerError::LostNet(net) => ErrorView::LostNet(net@),
            LowerError::MissingPortNet { port, net } => ErrorView::MissingPortNet(port@, net@),
            LowerError::UnresolvedNode => ErrorView::UnresolvedNode,
            LowerError::PhysicalNode => ErrorView::PhysicalNode,
            LowerError::ClusteredNode => ErrorView::ClusteredNode,
            LowerError::NotPlaceable(leaf) => ErrorView::NotPlaceable(leaf@),
            LowerError::Invalid(reason) => ErrorView::Invalid(reason@),
        }
    }
}

} // verus!
