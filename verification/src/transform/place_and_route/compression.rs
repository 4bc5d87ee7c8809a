//! Shrinking a layout: boxes are tried from the largest to the smallest, and
//! the first one that works is kept.

use super::placement_error::{size_chars, size_text};
use crate::ir::routable::{routable_named, RoutableDesign, RoutableInstance, RoutableModuleBody};
use crate::text::{decimal, decimal_text, join2, join3};
use crate::world::position::DimSize;
use vstd::prelude::*;

verus! {

/// One box that was tried.
#[derive(Clone, Debug)]
pub struct CompressionAttempt {
    pub box_size: DimSize,
    pub accepted: bool,
    pub error: Option<String>,
}

/// What came of the first box that worked, and the boxes that were tried.
#[derive(Clone, Debug)]
pub struct CompressionResult<T> {
    pub value: T,
    pub box_size: DimSize,
    pub attempts: Vec<CompressionAttempt>,
}

/// Why no box was found.
#[derive(Clone, Debug)]
pub enum CompressionError {
    /// There is no box to try.
    EmptyLadder,
    /// A box is not smaller than the one before.
    NotShrinking { from: DimSize, to: DimSize },
    /// No box worked; this is what the last one failed with.
    Failed(String),
}

/// The message of an error.
pub open spec fn compression_chars(error: CompressionError) -> Seq<char> {
    match error {
        CompressionError::EmptyLadder => "compression ladder is empty"@,
        CompressionError::NotShrinking { from, to } => "compression ladder must shrink monotonically: "@ + size_chars(
            from,
        ) + " -> "@ + size_chars(to),
        CompressionError::Failed(text) => text@,
    }
}

impl CompressionError {
    /// The error in words.
    pub fn message(&self) -> (text: String)
        ensures
            text@ == compression_chars(*self),
    {
        match self {
            CompressionError::EmptyLadder => "compression ladder is empty".to_string(),
            CompressionError::NotShrinking { from, to } => {
                let head = join3(
                    "compression ladder must shrink monotonically: ",
                    size_text(*from).as_str(),
                    " -> ",
                );
                join2(head.as_str(), size_text(*to).as_str())
            },
            CompressionError::Failed(text) => text.clone(),
        }
    }
}

/// The number of cells of a box.
pub open spec fn cells_of(size: DimSize) -> int {
    size.0 * size.1 * size.2
}

/// Whether the number of cells of a box is in range.
pub open spec fn volume_fits(size: DimSize) -> bool {
    size.0 * size.1 <= usize::MAX && cells_of(size) <= usize::MAX
}

/// The number of cells of a box.
pub fn volume(size: DimSize) -> (cells: usize)
    requires
        volume_fits(size),
    ensures
        cells == cells_of(size),
{
    size.0 * size.1 * size.2
}

/// Whether each of the first `count` boxes is smaller than the one before.
pub open spec fn shrinks(ladder: Seq<DimSize>, count: int) -> bool {
    forall|i: int| 0 < i < count ==> #[trigger] shrinks_at(ladder, i)
}

pub open spec fn shrinks_at(ladder: Seq<DimSize>, i: int) -> bool {
    cells_of(ladder[i]) < cells_of(ladder[i - 1])
}

/// The boxes that are tried by default.
pub fn default_ladder() -> (ladder: Vec<DimSize>)
    ensures
        ladder@ == seq![
            DimSize(64, 64, 16),
            DimSize(56, 56, 14),
            DimSize(48, 48, 12),
            DimSize(40, 40, 10),
            DimSize(32, 32, 8),
            DimSize(24, 24, 6),
        ],
        shrinks(ladder@, ladder@.len() as int),
        forall|i: int| 0 <= i < ladder.len() ==> volume_fits(#[trigger] ladder[i]),
{
    let ladder = vec![
        DimSize(64, 64, 16),
        DimSize(56, 56, 14),
        DimSize(48, 48, 12),
        DimSize(40, 40, 10),
        DimSize(32, 32, 8),
        DimSize(24, 24, 6),
    ];
    proof {
        let sizes = seq![
            DimSize(64, 64, 16),
            DimSize(56, 56, 14),
            DimSize(48, 48, 12),
            DimSize(40, 40, 10),
            DimSize(32, 32, 8),
            DimSize(24, 24, 6),
        ];
        assert(ladder@ =~= sizes);
        assert(64 * 64 * 16 == 65536 && 56 * 56 * 14 == 43904 && 48 * 48 * 12 == 27648 && 40 * 40 * 10 == 16000 && 32 * 32
            * 8 == 8192 && 24 * 24 * 6 == 3456) by (nonlinear_arith);
    }
    ladder
}

/// Whether outcomes are those of the first boxes of a ladder.
pub open spec fn are_outcomes<T, F: Fn(DimSize) -> Result<T, String>>(
    attempt: F,
    ladder: Seq<DimSize>,
    outcomes: Seq<Result<T, String>>,
) -> bool {
    &&& outcomes.len() <= ladder.len()
    &&& forall|i: int|
        0 <= i < outcomes.len() ==> call_ensures(attempt, (ladder[i],), #[trigger] outcomes[i])
}

/// Whether the attempts record outcomes, all of which but the last failed.
pub open spec fn records<T>(
    attempts: Seq<CompressionAttempt>,
    ladder: Seq<DimSize>,
    outcomes: Seq<Result<T, String>>,
) -> bool {
    &&& attempts.len() == outcomes.len()
    &&& forall|i: int|
        0 <= i < attempts.len() ==> {
            let attempt = #[trigger] attempts[i];
            &&& attempt.box_size == ladder[i]
            &&& attempt.accepted == (outcomes[i] is Ok)
            &&& match outcomes[i] {
                Ok(_) => attempt.error is None,
                Err(error) => attempt.error matches Some(text) && text@ == error@,
            }
        }
}

/// What trying boxes comes to: the first that works, or the last failure.
pub open spec fn is_first_success<T>(
    result: Result<CompressionResult<T>, CompressionError>,
    ladder: Seq<DimSize>,
    outcomes: Seq<Result<T, String>>,
) -> bool {
    &&& outcomes.len() > 0
    &&& forall|i: int| 0 <= i < outcomes.len() - 1 ==> (#[trigger] outcomes[i]) is Err
    &&& match result {
        Ok(found) => {
            &&& outcomes.last() == Ok::<T, String>(found.value)
            &&& found.box_size == ladder[outcomes.len() - 1]
            &&& records(found.attempts@, ladder, outcomes)
        },
        Err(error) => {
            &&& outcomes.len() == ladder.len()
            &&& outcomes.last() matches Err(text) && error == CompressionError::Failed(text)
        },
    }
}

/// Tries boxes from the largest to the smallest and returns what came of the
/// first that works. A ladder that is empty or does not shrink is refused
/// before anything is tried.
pub fn compress<T, F: Fn(DimSize) -> Result<T, String>>(ladder: &Vec<DimSize>, attempt: F) -> (result: Result<
    CompressionResult<T>,
    CompressionError,
>)
    requires
        forall|i: int| 0 <= i < ladder.len() ==> volume_fits(#[trigger] ladder[i]),
        forall|size: DimSize| #[trigger] call_requires(attempt, (size,)),
    ensures
        ladder@.len() == 0 ==> result == Err::<CompressionResult<T>, CompressionError>(CompressionError::EmptyLadder),
        !shrinks(ladder@, ladder@.len() as int) ==> exists|i: int|
            0 < i < ladder.len() && !(#[trigger] shrinks_at(ladder@, i)) && shrinks(ladder@, i) && result == Err::<
                CompressionResult<T>,
                CompressionError,
            >(CompressionError::NotShrinking { from: ladder[i - 1], to: ladder[i] }),
        ladder@.len() > 0 && shrinks(ladder@, ladder@.len() as int) ==> exists|outcomes: Seq<Result<T, String>>| #[trigger]
            are_outcomes(attempt, ladder@, outcomes) && is_first_success(result, ladder@, outcomes),
{
    if ladder.len() == 0 {
        return Err(CompressionError::EmptyLadder);
    }
    let mut index: usize = 1;
    while index < ladder.len()
        invariant
            1 <= index <= ladder.len(),
            forall|i: int| 0 <= i < ladder.len() ==> volume_fits(#[trigger] ladder[i]),
            shrinks(ladder@, index as int),
        decreases ladder.len() - index,
    {
        let previous: usize = volume(ladder[index - 1]);
        let next: usize = volume(ladder[index]);
        if next >= previous {
            assert(!shrinks_at(ladder@, index as int));
            return Err(CompressionError::NotShrinking { from: ladder[index - 1], to: ladder[index] });
        }
        index += 1;
    }
    let mut attempts: Vec<CompressionAttempt> = Vec::new();
    let mut last_error: Option<String> = None;
    let ghost mut outcomes = Seq::<Result<T, String>>::empty();
    let mut index: usize = 0;
    while index < ladder.len()
        invariant
            index <= ladder.len(),
            forall|size: DimSize| #[trigger] call_requires(attempt, (size,)),
            shrinks(ladder@, ladder@.len() as int),
            outcomes.len() == index,
            are_outcomes(attempt, ladder@, outcomes),
            records(attempts@, ladder@, outcomes),
            forall|i: int| 0 <= i < outcomes.len() ==> (#[trigger] outcomes[i]) is Err,
            index > 0 ==> (outcomes.last() matches Err(text) && last_error == Some(text)),
        decreases ladder.len() - index,
    {
        let box_size = ladder[index];
        let ghost before = outcomes;
        let ghost tried = attempts@;
        let outcome = attempt(box_size);
        proof {
            outcomes = before.push(outcome);
            assert forall|i: int| 0 <= i < outcomes.len() implies call_ensures(
                attempt,
                (ladder@[i],),
                #[trigger] outcomes[i],
            ) by {
                if i < before.len() {
                    assert(outcomes[i] == before[i]);
                }
            }
        }
        match outcome {
            Ok(value) => {
                attempts.push(CompressionAttempt { box_size, accepted: true, error: None });
                proof {
                    assert forall|i: int| 0 <= i < attempts@.len() implies {
                        let attempt = #[trigger] attempts@[i];
                        &&& attempt.box_size == ladder@[i]
                        &&& attempt.accepted == (outcomes[i] is Ok)
                        &&& match outcomes[i] {
                            Ok(_) => attempt.error is None,
                            Err(error) => attempt.error matches Some(text) && text@ == error@,
                        }
                    } by {
                        if i < tried.len() {
                            assert(attempts@[i] == tried[i]);
                            assert(outcomes[i] == before[i]);
                        }
                    }
                }
                let result = Ok(CompressionResult { value, box_size, attempts });
                assert(are_outcomes(attempt, ladder@, outcomes));
                assert(is_first_success(result, ladder@, outcomes));
                return result;
            },
            Err(error) => {
                attempts.push(CompressionAttempt { box_size, accepted: false, error: Some(error.clone()) });
                proof {
                    assert forall|i: int| 0 <= i < attempts@.len() implies {
                        let attempt = #[trigger] attempts@[i];
                        &&& attempt.box_size == ladder@[i]
                        &&& attempt.accepted == (outcomes[i] is Ok)
                        &&& match outcomes[i] {
                            Ok(_) => attempt.error is None,
                            Err(error) => attempt.error matches Some(text) && text@ == error@,
                        }
                    } by {
                        if i < tried.len() {
                            assert(attempts@[i] == tried[i]);
                            assert(outcomes[i] == before[i]);
                        }
                    }
                }
                last_error = Some(error);
            },
        }
        index += 1;
    }
    let result = match last_error {
        Some(error) => Err(CompressionError::Failed(error)),
        None => Err(CompressionError::EmptyLadder),
    };
    assert(is_first_success(result, ladder@, outcomes));
    result
}

// ---------------------------------------------------------------------------
// Intents
// ---------------------------------------------------------------------------
/// A region of the world, with its first and last cells.
#[derive(Clone, Copy, Debug)]
pub struct IntentRegion {
    pub min: [usize; 3],
    pub max: [usize; 3],
}

/// A wish about where something stands.
#[derive(Clone, Debug)]
pub enum PhysicalConstraint {
    /// An instance stands inside a region.
    Inside { id: String, instance: String, region: String },
}

/// Wishes about the layout of a design.
#[derive(Clone, Debug)]
pub struct PhysicalIntent {
    pub design: String,
    /// The regions and their names.
    pub regions: Vec<(String, IntentRegion)>,
    pub constraints: Vec<PhysicalConstraint>,
}

/// The last index of a number of cells.
pub open spec fn last_of(count: usize) -> usize {
    if count == 0 {
        0
    } else {
        (count - 1) as usize
    }
}

/// Whether a constraint keeps an instance inside the box.
pub open spec fn keeps_inside(constraint: PhysicalConstraint, index: int, instance: RoutableInstance) -> bool {
    match constraint {
        PhysicalConstraint::Inside { id, instance: name, region } => {
            &&& id@ == "compression-"@ + decimal(index as nat)
            &&& name@ == instance.name@
            &&& region@ == "compression-box"@
        },
    }
}

/// Whether wishes are that every instance of a design stands inside a box.
pub open spec fn is_box_intent(
    intent: PhysicalIntent,
    instances: Seq<RoutableInstance>,
    box_size: DimSize,
    design: Seq<char>,
) -> bool {
    &&& intent.design@ == design
    &&& intent.regions.len() == 1
    &&& intent.regions[0].0@ == "compression-box"@
    &&& intent.regions[0].1.min@ == seq![0usize, 0, 0]
    &&& intent.regions[0].1.max@ == seq![last_of(box_size.0), last_of(box_size.1), last_of(box_size.2)]
    &&& intent.constraints.len() == instances.len()
    &&& forall|i: int| 0 <= i < instances.len() ==> keeps_inside(#[trigger] intent.constraints[i], i, instances[i])
}

/// The wish that every instance of a design stands inside a box.
pub fn compression_intent(instances: &Vec<RoutableInstance>, box_size: DimSize, top_name: &str) -> (intent:
    PhysicalIntent)
    ensures
        is_box_intent(intent, instances@, box_size, top_name@),
{
    let region = IntentRegion {
        min: [0, 0, 0],
        max: [box_size.0.saturating_sub(1), box_size.1.saturating_sub(1), box_size.2.saturating_sub(1)],
    };
    assert(region.min@ =~= seq![0usize, 0, 0]);
    assert(region.max@ =~= seq![last_of(box_size.0), last_of(box_size.1), last_of(box_size.2)]);
    let mut constraints: Vec<PhysicalConstraint> = Vec::new();
    let mut index: usize = 0;
    while index < instances.len()
        invariant
            index <= instances.len(),
            constraints.len() == index,
            forall|i: int| 0 <= i < index ==> keeps_inside(#[trigger] constraints[i], i, instances[i]),
        decreases instances.len() - index,
    {
        constraints.push(
            PhysicalConstraint::Inside {
                id: join2("compression-", decimal_text(index).as_str()),
                instance: instances[index].name.clone(),
                region: "compression-box".to_string(),
            },
        );
        index += 1;
    }
    let regions = vec![("compression-box".to_string(), region)];
    PhysicalIntent { design: top_name.to_string(), regions, constraints }
}

// ---------------------------------------------------------------------------
// Designs
// ---------------------------------------------------------------------------
/// Why a design could not be shrunk.
#[derive(Clone, Debug)]
pub enum DesignCompressionError {
    /// The design has no such module.
    MissingTop(String),
    /// The top module is not made of instances.
    NotComposite,
    /// No box was found.
    Ladder(CompressionError),
}

impl DesignCompressionError {
    /// The error in words.
    pub fn message(&self) -> (text: String)
        ensures
            text@ == match *self {
                DesignCompressionError::MissingTop(name) => "missing top Routable module `"@ + name@ + "`"@,
                DesignCompressionError::NotComposite => "compression requires a composite top module"@,
                DesignCompressionError::Ladder(error) => compression_chars(error),
            },
    {
        match self {
            DesignCompressionError::MissingTop(name) => join3("missing top Routable module `", name.as_str(), "`"),
            DesignCompressionError::NotComposite => "compression requires a composite top module".to_string(),
            DesignCompressionError::Ladder(error) => error.message(),
        }
    }
}

/// Whether an outcome came of trying to lay out a design inside a box.
pub open spec fn is_box_outcome<T, F: Fn(&PhysicalIntent) -> Result<T, String>>(
    attempt: &F,
    instances: Seq<RoutableInstance>,
    name: Seq<char>,
    size: DimSize,
    outcome: Result<T, String>,
) -> bool {
    exists|intent: PhysicalIntent| #[trigger]
        is_box_intent(intent, instances, size, name) && call_ensures(*attempt, (&intent,), outcome)
}

/// Whether outcomes came of trying to lay out a design inside the first boxes
/// of a ladder.
pub open spec fn are_box_outcomes<T, F: Fn(&PhysicalIntent) -> Result<T, String>>(
    attempt: &F,
    instances: Seq<RoutableInstance>,
    name: Seq<char>,
    ladder: Seq<DimSize>,
    outcomes: Seq<Result<T, String>>,
) -> bool {
    &&& outcomes.len() <= ladder.len()
    &&& forall|i: int|
        0 <= i < outcomes.len() ==> is_box_outcome(attempt, instances, name, ladder[i], #[trigger] outcomes[i])
}

/// Tries to lay out a design inside each box of a ladder, with every instance
/// of its top module kept inside, and returns what came of the first box that
/// works.
pub fn place_and_route_with_compression<T, F: Fn(&PhysicalIntent) -> Result<T, String>>(
    design: &RoutableDesign,
    ladder: &Vec<DimSize>,
    top_name: &str,
    attempt: &F,
) -> (result: Result<CompressionResult<T>, DesignCompressionError>)
    requires
        forall|i: int| 0 <= i < ladder.len() ==> volume_fits(#[trigger] ladder[i]),
        forall|intent: PhysicalIntent| #[trigger] call_requires(*attempt, (&intent,)),
    ensures
        match routable_named(design.modules@, design.top@) {
            None => result matches Err(DesignCompressionError::MissingTop(name)) && name@ == design.top@,
            Some(top) => match top.body {
                RoutableModuleBody::Leaf { .. } => result == Err::<CompressionResult<T>, DesignCompressionError>(
                    DesignCompressionError::NotComposite,
                ),
                RoutableModuleBody::Composite { instances, .. } => {
                    let ladder_result = match result {
                        Ok(found) => Ok(found),
                        Err(DesignCompressionError::Ladder(error)) => Err(error),
                        _ => Err(CompressionError::EmptyLadder),
                    };
                    &&& result matches Err(error) ==> error is Ladder
                    &&& ladder@.len() > 0 && shrinks(ladder@, ladder@.len() as int) ==> exists|
                        outcomes: Seq<Result<T, String>>,
                    | #[trigger]
                        are_box_outcomes(attempt, instances@, top_name@, ladder@, outcomes) && is_first_success(
                            ladder_result,
                            ladder@,
                            outcomes,
                        )
                    &&& ladder@.len() == 0 ==> result == Err::<CompressionResult<T>, DesignCompressionError>(
                        DesignCompressionError::Ladder(CompressionError::EmptyLadder),
                    )
                    &&& !shrinks(ladder@, ladder@.len() as int) ==> exists|i: int|
                        0 < i < ladder.len() && !(#[trigger] shrinks_at(ladder@, i)) && shrinks(ladder@, i) && result
                            == Err::<CompressionResult<T>, DesignCompressionError>(
                            DesignCompressionError::Ladder(
                                CompressionError::NotShrinking { from: ladder[i - 1], to: ladder[i] },
                            ),
                        )
                },
            },
        },
{
    let top = match design.module(design.top.as_str()) {
        None => return Err(DesignCompressionError::MissingTop(design.top.clone())),
        Some(top) => top,
    };
    let instances = match &top.body {
        RoutableModuleBody::Leaf { .. } => return Err(DesignCompressionError::NotComposite),
        RoutableModuleBody::Composite { instances, .. } => instances,
    };
    let try_box = |size: DimSize| -> (outcome: Result<T, String>)
        ensures
            is_box_outcome(attempt, instances@, top_name@, size, outcome),
        {
            let intent = compression_intent(instances, size, top_name);
            attempt(&intent)
        };
    let result = compress(ladder, try_box);
    proof {
        if ladder@.len() > 0 && shrinks(ladder@, ladder@.len() as int) {
            let outcomes = choose|outcomes: Seq<Result<T, String>>| #[trigger]
                are_outcomes(try_box, ladder@, outcomes) && is_first_success(result, ladder@, outcomes);
            assert forall|i: int| 0 <= i < outcomes.len() implies is_box_outcome(
                attempt,
                instances@,
                top_name@,
                ladder@[i],
                #[trigger] outcomes[i],
            ) by {
                assert(call_ensures(try_box, (ladder@[i],), outcomes[i]));
            }
            assert(are_box_outcomes(attempt, instances@, top_name@, ladder@, outcomes));
        }
    }
    match result {
        Ok(found) => Ok(found),
        Err(error) => Err(DesignCompressionError::Ladder(error)),
    }
}

} // verus!
