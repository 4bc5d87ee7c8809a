//! Reusable cells: named implementations of definitions, each with the policy
//! that its layouts are searched by and a physical contract.

use super::policy::UnitCandidateConfig;
use crate::ir::target::ROUTABLE_IR_TARGET;
use crate::text::{join3, same_text, text_before, texts};
use crate::text::{chars_before, chars_before_asymmetric, chars_before_total, chars_before_transitive};
use vstd::prelude::*;

verus! {

/// The format of a library document.
pub const CELL_LIBRARY_FORMAT: &'static str = "redstone-compiler.cell-library.v1";

/// A transform under which a layout may be reused.
#[derive(Clone, Copy, Debug, PartialEq, Eq, Structural)]
pub enum CellTransform {
    Translation,
    Yaw,
}

/// What a layout promises to those around it.
#[derive(Clone, Debug)]
pub struct CellPhysicalContract {
    /// How many cells around the layout stay free.
    pub halo: usize,
    pub requires_input_isolation: bool,
    pub requires_output_isolation: bool,
    pub allowed_transforms: Vec<CellTransform>,
    pub max_delay: Option<usize>,
}

/// Whether two contracts promise the same.
pub open spec fn contract_is(left: CellPhysicalContract, right: CellPhysicalContract) -> bool {
    &&& left.halo == right.halo
    &&& left.requires_input_isolation == right.requires_input_isolation
    &&& left.requires_output_isolation == right.requires_output_isolation
    &&& left.allowed_transforms@ == right.allowed_transforms@
    &&& left.max_delay == right.max_delay
}

impl Default for CellPhysicalContract {
    fn default() -> (contract: Self)
        ensures
            contract.halo == 0,
            !contract.requires_input_isolation,
            !contract.requires_output_isolation,
            contract.allowed_transforms@ == seq![CellTransform::Translation],
            contract.max_delay is None,
    {
        let allowed_transforms = vec![CellTransform::Translation];
        assert(allowed_transforms@ =~= seq![CellTransform::Translation]);
        CellPhysicalContract {
            halo: 0,
            requires_input_isolation: false,
            requires_output_isolation: false,
            allowed_transforms,
            max_delay: None,
        }
    }
}

impl CellPhysicalContract {
    /// An equal contract.
    pub fn copy(&self) -> (copy: Self)
        ensures
            contract_is(copy, *self),
    {
        let allowed_transforms = self.allowed_transforms.clone();
        assert(allowed_transforms@ =~= self.allowed_transforms@);
        CellPhysicalContract {
            halo: self.halo,
            requires_input_isolation: self.requires_input_isolation,
            requires_output_isolation: self.requires_output_isolation,
            allowed_transforms,
            max_delay: self.max_delay,
        }
    }
}

/// A named implementation of some definitions.
#[derive(Clone, Debug)]
pub struct CellImplementation {
    pub name: String,
    /// The definitions that this implements.
    pub definitions: Vec<String>,
    pub candidate: UnitCandidateConfig,
    pub contract: CellPhysicalContract,
    /// The higher one wins where several implement a definition.
    pub priority: i32,
}

/// Implementations for a target.
#[derive(Clone, Debug)]
pub struct CellLibrary {
    pub format: String,
    pub name: String,
    pub target: String,
    pub implementations: Vec<CellImplementation>,
}

/// Whether a library is the built-in one, which is empty.
pub open spec fn is_built_in(library: CellLibrary) -> bool {
    &&& library.format@ == CELL_LIBRARY_FORMAT@
    &&& library.name@ == "redstone-v1-default"@
    &&& library.target@ == ROUTABLE_IR_TARGET@
    &&& library.implementations@.len() == 0
}

impl Default for CellLibrary {
    fn default() -> (library: Self)
        ensures
            is_built_in(library),
    {
        CellLibrary::redstone_v1()
    }
}

/// Whether an implementation is one of a definition.
pub open spec fn implements(implementation: CellImplementation, definition: Seq<char>) -> bool {
    texts(implementation.definitions@).contains(definition)
}

/// Whether an implementation is preferred to another: it has a higher priority,
/// or the same and the name that comes first.
pub open spec fn is_preferred(left: CellImplementation, right: CellImplementation) -> bool {
    left.priority > right.priority || left.priority == right.priority && chars_before(left.name@, right.name@)
}

/// Whether an implementation is the one for a definition: of those that are,
/// none is preferred to it, and none behind it has its priority and name.
pub open spec fn is_best(implementations: Seq<CellImplementation>, definition: Seq<char>, index: int) -> bool {
    &&& 0 <= index < implementations.len()
    &&& implements(implementations[index], definition)
    &&& forall|i: int|
        0 <= i < implementations.len() && i != index && implements(#[trigger] implementations[i], definition) ==> {
            ||| is_preferred(implementations[index], implementations[i])
            ||| i < index && !is_preferred(implementations[i], implementations[index])
        }
}

/// There is one implementation for a definition.
pub proof fn best_is_unique(implementations: Seq<CellImplementation>, definition: Seq<char>, left: int, right: int)
    requires
        is_best(implementations, definition, left),
        is_best(implementations, definition, right),
    ensures
        left == right,
{
    if left != right {
        chars_before_asymmetric(implementations[left].name@, implementations[right].name@);
    }
}

/// A library document in a format that is not known.
#[derive(Clone, Debug)]
pub struct UnsupportedLibraryFormat(pub String);

impl UnsupportedLibraryFormat {
    /// The error in words.
    pub fn message(&self) -> (text: String)
        ensures
            text@ == "unsupported cell library format `"@ + self.0@ + "`, expected `"@ + CELL_LIBRARY_FORMAT@ + "`"@,
    {
        let head = join3("unsupported cell library format `", self.0.as_str(), "`, expected `");
        join3(head.as_str(), CELL_LIBRARY_FORMAT, "`")
    }
}

fn names_definition(definitions: &Vec<String>, definition: &str) -> (found: bool)
    ensures
        found == texts(definitions@).contains(definition@),
{
    let mut index: usize = 0;
    while index < definitions.len()
        invariant
            index <= definitions.len(),
            forall|i: int| 0 <= i < index ==> #[trigger] texts(definitions@)[i] != definition@,
        decreases definitions.len() - index,
    {
        if same_text(definitions[index].as_str(), definition) {
            assert(texts(definitions@)[index as int] == definition@);
            return true;
        }
        index += 1;
    }
    false
}

fn preferred(left: &CellImplementation, right: &CellImplementation) -> (better: bool)
    ensures
        better == is_preferred(*left, *right),
{
    left.priority > right.priority || left.priority == right.priority && text_before(
        left.name.as_str(),
        right.name.as_str(),
    )
}

/// An implementation that is not preferred to the best one keeps behind the one
/// that takes its place.
proof fn preference_chains(first: CellImplementation, second: CellImplementation, third: CellImplementation)
    ensures
        is_preferred(first, second) && !is_preferred(third, second) ==> is_preferred(first, third),
        !is_preferred(second, first) && is_preferred(second, third) ==> is_preferred(first, third),
        !is_preferred(second, first) && !is_preferred(third, second) ==> !is_preferred(third, first),
{
    chars_before_total(first.name@, second.name@);
    chars_before_total(second.name@, third.name@);
    chars_before_total(first.name@, third.name@);
    chars_before_asymmetric(first.name@, second.name@);
    chars_before_asymmetric(second.name@, third.name@);
    chars_before_asymmetric(first.name@, third.name@);
    if chars_before(first.name@, second.name@) && chars_before(second.name@, third.name@) {
        chars_before_transitive(first.name@, second.name@, third.name@);
    }
    if chars_before(third.name@, first.name@) && chars_before(first.name@, second.name@) {
        chars_before_transitive(third.name@, first.name@, second.name@);
    }
    if chars_before(second.name@, third.name@) && chars_before(third.name@, first.name@) {
        chars_before_transitive(second.name@, third.name@, first.name@);
    }
    if chars_before(third.name@, second.name@) && chars_before(second.name@, first.name@) {
        chars_before_transitive(third.name@, second.name@, first.name@);
    }
}

impl CellLibrary {
    /// The built-in library, which has no implementations.
    pub fn redstone_v1() -> (library: Self)
        ensures
            is_built_in(library),
    {
        CellLibrary {
            format: CELL_LIBRARY_FORMAT.to_string(),
            name: "redstone-v1-default".to_string(),
            target: ROUTABLE_IR_TARGET.to_string(),
            implementations: Vec::new(),
        }
    }

    /// Whether the library's format is the known one.
    pub fn check_format(&self) -> (result: Result<(), UnsupportedLibraryFormat>)
        ensures
            match result {
                Ok(_) => self.format@ == CELL_LIBRARY_FORMAT@,
                Err(error) => self.format@ != CELL_LIBRARY_FORMAT@ && error.0@ == self.format@,
            },
    {
        if same_text(self.format.as_str(), CELL_LIBRARY_FORMAT) {
            Ok(())
        } else {
            Err(UnsupportedLibraryFormat(self.format.clone()))
        }
    }

    /// The implementation for a definition: the one with the highest priority,
    /// and of those the one whose name comes first.
    pub fn implementation_for_definition(&self, definition: &str) -> (found: Option<&CellImplementation>)
        ensures
            match found {
                Some(implementation) => exists|index: int| #[trigger]
                    is_best(self.implementations@, definition@, index) && *implementation
                        == self.implementations@[index],
                None => forall|i: int|
                    0 <= i < self.implementations@.len() ==> !implements(
                        #[trigger] self.implementations@[i],
                        definition@,
                    ),
            },
    {
        let ghost all = self.implementations@;
        let mut best: Option<usize> = None;
        let mut index: usize = 0;
        while index < self.implementations.len()
            invariant
                index <= self.implementations.len(),
                all == self.implementations@,
                match best {
                    Some(best) => best < index && is_best(all.take(index as int), definition@, best as int),
                    None => forall|i: int| 0 <= i < index ==> !implements(#[trigger] all[i], definition@),
                },
            decreases self.implementations.len() - index,
        {
            let ghost seen = all.take(index as int);
            let ghost now = all.take(index + 1);
            let ghost known = best;
            if names_definition(&self.implementations[index].definitions, definition) {
                let wins = match best {
                    None => true,
                    Some(held) => !preferred(&self.implementations[held], &self.implementations[index]),
                };
                if wins {
                    best = Some(index);
                }
            }
            proof {
                assert forall|i: int| 0 <= i < index implies #[trigger] now[i] == seen[i] && seen[i] == all[i] by {}
                assert(now[index as int] == all[index as int]);
                if best is Some {
                    let pick = best->0 as int;
                    assert forall|i: int|
                        0 <= i < now.len() && i != pick && implements(#[trigger] now[i], definition@) implies {
                        ||| is_preferred(now[pick], now[i])
                        ||| i < pick && !is_preferred(now[i], now[pick])
                    } by {
                        if known is Some {
                            let held = known->0 as int;
                            assert(now[held] == seen[held]);
                            if i < index {
                                assert(implements(seen[i], definition@));
                                preference_chains(now[pick], seen[held], seen[i]);
                            }
                        } else if i < index {
                            assert(!implements(all[i], definition@));
                        }
                    }
                    assert(is_best(now, definition@, pick));
                }
            }
            index += 1;
        }
        assert(all.take(index as int) =~= all);
        match best {
            Some(best) => {
                assert(is_best(self.implementations@, definition@, best as int));
                Some(&self.implementations[best])
            },
            None => None,
        }
    }
}

} // verus!
