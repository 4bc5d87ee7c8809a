//! What can go wrong while placing macros.

use super::placement_ir::MacroRotation;
use crate::text::{decimal, decimal_text, join2, join3};
use crate::world::position::{DimSize, Position};
use vstd::prelude::*;

verus! {

/// An axis of the world.
#[derive(Clone, Copy, Debug, PartialEq, Eq, Structural)]
pub enum Axis {
    X,
    Y,
    Z,
}

/// A placement that cannot be built or measured.
#[derive(Clone, Debug)]
pub enum PlacementError {
    /// An instance that the problem does not have.
    UnknownInstance(usize),
    /// An instance of a macro that is not in the library.
    MissingMacro(String),
    /// A macro that was asked for and is not in the library.
    UnknownMacro(String),
    /// A pin that its macro does not have.
    MissingPin { template: String, pin: String },
    /// A rotation that a macro cannot be placed in.
    UnsupportedRotation { template: String, rotation: MacroRotation },
    /// A block beyond the last coordinate of an axis.
    BlockOverflow(Axis),
    /// A block outside the world.
    OutOfBounds { instance: usize, position: Position },
    /// A block in a cell that is taken.
    Overlap { instance: usize, position: Position },
    /// An instance without a cell.
    EmptyFootprint(usize),
    /// An instance that is larger than the world.
    TooLarge { instance: usize, size: DimSize, world: DimSize },
    /// More instances than the world has room for.
    WorldFull { count: usize, world: DimSize },
    /// Instances that could not be moved apart.
    Inseparable { pairs: usize, world: DimSize },
}

/// The contents of a [`PlacementError`].
pub ghost enum PlacementErrorView {
    UnknownInstance(usize),
    MissingMacro(Seq<char>),
    UnknownMacro(Seq<char>),
    MissingPin { template: Seq<char>, pin: Seq<char> },
    UnsupportedRotation { template: Seq<char>, rotation: MacroRotation },
    BlockOverflow(Axis),
    OutOfBounds { instance: usize, position: Position },
    Overlap { instance: usize, position: Position },
    EmptyFootprint(usize),
    TooLarge { instance: usize, size: DimSize, world: DimSize },
    WorldFull { count: usize, world: DimSize },
    Inseparable { pairs: usize, world: DimSize },
}

impl View for PlacementError {
    type V = PlacementErrorView;

    open spec fn view(&self) -> PlacementErrorView {
        match *self {
            PlacementError::UnknownInstance(instance) => PlacementErrorView::UnknownInstance(instance),
            PlacementError::MissingMacro(name) => PlacementErrorView::MissingMacro(name@),
            PlacementError::UnknownMacro(name) => PlacementErrorView::UnknownMacro(name@),
            PlacementError::MissingPin { template, pin } => PlacementErrorView::MissingPin {
                template: template@,
                pin: pin@,
            },
            PlacementError::UnsupportedRotation { template, rotation } => PlacementErrorView::UnsupportedRotation {
                template: template@,
                rotation,
            },
            PlacementError::BlockOverflow(axis) => PlacementErrorView::BlockOverflow(axis),
            PlacementError::OutOfBounds { instance, position } => PlacementErrorView::OutOfBounds {
                instance,
                position,
            },
            PlacementError::Overlap { instance, position } => PlacementErrorView::Overlap { instance, position },
            PlacementError::EmptyFootprint(instance) => PlacementErrorView::EmptyFootprint(instance),
            PlacementError::TooLarge { instance, size, world } => PlacementErrorView::TooLarge {
                instance,
                size,
                world,
            },
            PlacementError::WorldFull { count, world } => PlacementErrorView::WorldFull { count, world },
            PlacementError::Inseparable { pairs, world } => PlacementErrorView::Inseparable { pairs, world },
        }
    }
}

/// Whether a result is the expected value, or an error with the expected
/// contents.
pub open spec fn agrees<T>(result: Result<T, PlacementError>, expected: Result<T, PlacementErrorView>) -> bool {
    match result {
        Ok(value) => expected == Ok::<T, PlacementErrorView>(value),
        Err(error) => expected == Err::<T, PlacementErrorView>(error@),
    }
}

/// Three numbers in round brackets behind a name.
pub open spec fn triple_chars(name: Seq<char>, first: usize, second: usize, third: usize) -> Seq<char> {
    name + "("@ + decimal(first as nat) + ", "@ + decimal(second as nat) + ", "@ + decimal(third as nat) + ")"@
}

fn triple_text(name: &str, first: usize, second: usize, third: usize) -> (text: String)
    ensures
        text@ == triple_chars(name@, first, second, third),
{
    let head = join3(name, "(", decimal_text(first).as_str());
    let middle = join3(head.as_str(), ", ", decimal_text(second).as_str());
    let body = join3(middle.as_str(), ", ", decimal_text(third).as_str());
    join2(body.as_str(), ")")
}

pub open spec fn position_chars(position: Position) -> Seq<char> {
    triple_chars("Position"@, position.0, position.1, position.2)
}

pub open spec fn size_chars(size: DimSize) -> Seq<char> {
    triple_chars("DimSize"@, size.0, size.1, size.2)
}

/// A cell in words.
pub fn position_text(position: Position) -> (text: String)
    ensures
        text@ == position_chars(position),
{
    triple_text("Position", position.0, position.1, position.2)
}

/// A size in words.
pub fn size_text(size: DimSize) -> (text: String)
    ensures
        text@ == size_chars(size),
{
    triple_text("DimSize", size.0, size.1, size.2)
}

pub open spec fn rotation_chars(rotation: MacroRotation) -> Seq<char> {
    match rotation {
        MacroRotation::Unrotated => "Unrotated"@,
        MacroRotation::Yaw90 => "Yaw90"@,
        MacroRotation::Yaw180 => "Yaw180"@,
        MacroRotation::Yaw270 => "Yaw270"@,
    }
}

fn rotation_text(rotation: MacroRotation) -> (text: &'static str)
    ensures
        text@ == rotation_chars(rotation),
{
    match rotation {
        MacroRotation::Unrotated => "Unrotated",
        MacroRotation::Yaw90 => "Yaw90",
        MacroRotation::Yaw180 => "Yaw180",
        MacroRotation::Yaw270 => "Yaw270",
    }
}

/// The message of an error.
pub open spec fn error_chars(error: PlacementErrorView) -> Seq<char> {
    match error {
        PlacementErrorView::UnknownInstance(instance) => "unknown macro instance "@ + decimal(instance as nat),
        PlacementErrorView::MissingMacro(name) => "missing macro `"@ + name + "`"@,
        PlacementErrorView::UnknownMacro(name) => "unknown macro `"@ + name + "`"@,
        PlacementErrorView::MissingPin { template, pin } => "macro `"@ + template + "` has no pin `"@ + pin + "`"@,
        PlacementErrorView::UnsupportedRotation { template, rotation } => "macro `"@ + template
            + "` does not support rotation "@ + rotation_chars(rotation) + " yet"@,
        PlacementErrorView::BlockOverflow(axis) => match axis {
            Axis::X => "macro block x overflow"@,
            Axis::Y => "macro block y overflow"@,
            Axis::Z => "macro block z overflow"@,
        },
        PlacementErrorView::OutOfBounds { instance, position } => "macro instance "@ + decimal(instance as nat)
            + " block "@ + position_chars(position) + " is out of bounds"@,
        PlacementErrorView::Overlap { instance, position } => "macro instance "@ + decimal(instance as nat)
            + " block "@ + position_chars(position) + " overlaps an existing block"@,
        PlacementErrorView::EmptyFootprint(instance) => "macro instance "@ + decimal(instance as nat)
            + " has an empty footprint"@,
        PlacementErrorView::TooLarge { instance, size, world } => "macro instance "@ + decimal(instance as nat) + " ("@
            + size_chars(size) + ") does not fit in world "@ + size_chars(world),
        PlacementErrorView::WorldFull { count, world } => "initial placement of "@ + decimal(count as nat)
            + " instance(s) does not fit in world "@ + size_chars(world),
        PlacementErrorView::Inseparable { pairs, world } => "could not separate "@ + decimal(pairs as nat)
            + " macro pair(s) within world "@ + size_chars(world),
    }
}

impl PlacementError {
    /// The error in words.
    pub fn message(&self) -> (text: String)
        ensures
            text@ == error_chars(self@),
    {
        match self {
            PlacementError::UnknownInstance(instance) => join2(
                "unknown macro instance ",
                decimal_text(*instance).as_str(),
            ),
            PlacementError::MissingMacro(name) => join3("missing macro `", name.as_str(), "`"),
            PlacementError::UnknownMacro(name) => join3("unknown macro `", name.as_str(), "`"),
            PlacementError::MissingPin { template, pin } => {
                let head = join3("macro `", template.as_str(), "` has no pin `");
                join3(head.as_str(), pin.as_str(), "`")
            },
            PlacementError::UnsupportedRotation { template, rotation } => {
                let head = join3("macro `", template.as_str(), "` does not support rotation ");
                join3(head.as_str(), rotation_text(*rotation), " yet")
            },
            PlacementError::BlockOverflow(axis) => match axis {
                Axis::X => "macro block x overflow".to_string(),
                Axis::Y => "macro block y overflow".to_string(),
                Axis::Z => "macro block z overflow".to_string(),
            },
            PlacementError::OutOfBounds { instance, position } => {
                let head = join3("macro instance ", decimal_text(*instance).as_str(), " block ");
                join3(head.as_str(), position_text(*position).as_str(), " is out of bounds")
            },
            PlacementError::Overlap { instance, position } => {
                let head = join3("macro instance ", decimal_text(*instance).as_str(), " block ");
                join3(head.as_str(), position_text(*position).as_str(), " overlaps an existing block")
            },
            PlacementError::EmptyFootprint(instance) => join3(
                "macro instance ",
                decimal_text(*instance).as_str(),
                " has an empty footprint",
            ),
            PlacementError::TooLarge { instance, size, world } => {
                let head = join3("macro instance ", decimal_text(*instance).as_str(), " (");
                let body = join3(head.as_str(), size_text(*size).as_str(), ") does not fit in world ");
                join2(body.as_str(), size_text(*world).as_str())
            },
            PlacementError::WorldFull { count, world } => {
                let head = join3(
                    "initial placement of ",
                    decimal_text(*count).as_str(),
                    " instance(s) does not fit in world ",
                );
                join2(head.as_str(), size_text(*world).as_str())
            },
            PlacementError::Inseparable { pairs, world } => {
                let head = join3(
                    "could not separate ",
                    decimal_text(*pairs).as_str(),
                    " macro pair(s) within world ",
                );
                join2(head.as_str(), size_text(*world).as_str())
            },
        }
    }
}

} // verus!
