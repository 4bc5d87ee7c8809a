//! How layouts of a definition are searched.

use super::cell_library::{contract_is, implements, is_best, is_built_in, CellLibrary, CellPhysicalContract};
use crate::text::same_text;
use crate::world::position::{DimSize, Position};
use vstd::prelude::*;

verus! {

/// The places that an input may have.
#[derive(Clone, Debug)]
pub struct InputPositions {
    pub name: String,
    pub positions: Vec<Position>,
}

/// The places that inputs may have, one entry for each name.
#[derive(Clone, Debug)]
pub struct LocalPlacerInputConstraints {
    pub entries: Vec<InputPositions>,
}

/// The places under a name, from entry `start` on.
pub open spec fn places_from(entries: Seq<InputPositions>, name: Seq<char>, start: nat) -> Option<Seq<Position>>
    decreases entries.len() - start,
{
    if start >= entries.len() {
        None
    } else if entries[start as int].name@ == name {
        Some(entries[start as int].positions@)
    } else {
        places_from(entries, name, start + 1)
    }
}

/// The places under a name.
pub open spec fn places_named(constraints: LocalPlacerInputConstraints, name: Seq<char>) -> Option<Seq<Position>> {
    places_from(constraints.entries@, name, 0)
}

/// Whether two lists of places are the same under every name.
pub open spec fn places_are(left: LocalPlacerInputConstraints, right: LocalPlacerInputConstraints) -> bool {
    forall|name: Seq<char>| #[trigger] places_named(left, name) == places_named(right, name)
}

proof fn places_from_index(entries: Seq<InputPositions>, name: Seq<char>, start: nat, index: nat)
    requires
        start <= index <= entries.len(),
        forall|i: int| start <= i < index ==> (#[trigger] entries[i]).name@ != name,
        index < entries.len() ==> entries[index as int].name@ == name,
    ensures
        places_from(entries, name, start) == (if index < entries.len() {
            Some(entries[index as int].positions@)
        } else {
            None
        }),
    decreases index - start,
{
    if start < index {
        places_from_index(entries, name, start + 1, index);
    }
}

proof fn places_from_same(left: Seq<InputPositions>, right: Seq<InputPositions>, name: Seq<char>, start: nat)
    requires
        left.len() == right.len(),
        forall|i: int|
            0 <= i < left.len() ==> (#[trigger] left[i]).name@ == right[i].name@ && left[i].positions@
                == right[i].positions@,
    ensures
        places_from(left, name, start) == places_from(right, name, start),
    decreases left.len() - start,
{
    if start < left.len() {
        places_from_same(left, right, name, start + 1);
        assert(left[start as int].name@ == right[start as int].name@);
    }
}

proof fn places_from_other(left: Seq<InputPositions>, right: Seq<InputPositions>, name: Seq<char>, start: nat, at: int)
    requires
        left.len() <= right.len() <= left.len() + 1,
        0 <= at < right.len(),
        right.len() > left.len() ==> at == left.len(),
        right[at].name@ != name,
        at < left.len() ==> left[at].name@ != name,
        forall|i: int| 0 <= i < left.len() && i != at ==> #[trigger] left[i] == right[i],
    ensures
        places_from(left, name, start) == places_from(right, name, start),
    decreases right.len() - start,
{
    if start < right.len() {
        places_from_other(left, right, name, start + 1, at);
        if start != at {
            assert(left[start as int] == right[start as int]);
        }
    }
}

fn copy_positions(positions: &Vec<Position>) -> (copy: Vec<Position>)
    ensures
        copy@ == positions@,
{
    let copy = positions.clone();
    assert(copy@ =~= positions@);
    copy
}

impl Default for LocalPlacerInputConstraints {
    fn default() -> (constraints: Self)
        ensures
            constraints.entries@.len() == 0,
            forall|name: Seq<char>| #[trigger] places_named(constraints, name) is None,
    {
        LocalPlacerInputConstraints { entries: Vec::new() }
    }
}

impl LocalPlacerInputConstraints {
    /// No constraints.
    pub fn new() -> (constraints: Self)
        ensures
            constraints.entries@.len() == 0,
            forall|name: Seq<char>| #[trigger] places_named(constraints, name) is None,
    {
        LocalPlacerInputConstraints { entries: Vec::new() }
    }

    /// Sets the places that an input may have.
    pub fn with_input_positions(self, name: String, positions: Vec<Position>) -> (constraints: Self)
        ensures
            forall|other: Seq<char>| #[trigger]
                places_named(constraints, other) == (if other == name@ {
                    Some(positions@)
                } else {
                    places_named(self, other)
                }),
    {
        let mut entries = self.entries;
        let ghost before = entries@;
        let ghost wanted = name@;
        let mut index: usize = 0;
        while index < entries.len() && !same_text(entries[index].name.as_str(), name.as_str())
            invariant
                index <= entries.len(),
                entries@ == before,
                wanted == name@,
                forall|i: int| 0 <= i < index ==> (#[trigger] before[i]).name@ != wanted,
            decreases entries.len() - index,
        {
            index += 1;
        }
        let entry = InputPositions { name, positions };
        if index < entries.len() {
            entries[index] = entry;
        } else {
            entries.push(entry);
        }
        proof {
            let after = entries@;
            assert(after[index as int].name@ == wanted);
            places_from_index(after, wanted, 0, index as nat);
            assert forall|other: Seq<char>| other != wanted implies #[trigger] places_from(after, other, 0)
                == places_from(before, other, 0) by {
                places_from_other(before, after, other, 0, index as int);
            }
        }
        LocalPlacerInputConstraints { entries }
    }

    /// The places that an input may have.
    pub fn positions_for_input_name(&self, name: &str) -> (positions: Option<Vec<Position>>)
        ensures
            match positions {
                Some(positions) => places_named(*self, name@) == Some(positions@),
                None => places_named(*self, name@) is None,
            },
    {
        let mut index: usize = 0;
        while index < self.entries.len()
            invariant
                index <= self.entries.len(),
                places_named(*self, name@) == places_from(self.entries@, name@, index as nat),
            decreases self.entries.len() - index,
        {
            if same_text(self.entries[index].name.as_str(), name) {
                return Some(copy_positions(&self.entries[index].positions));
            }
            index += 1;
        }
        None
    }

    /// Equal constraints.
    pub fn copy(&self) -> (copy: Self)
        ensures
            places_are(copy, *self),
    {
        let mut entries: Vec<InputPositions> = Vec::new();
        let mut index: usize = 0;
        while index < self.entries.len()
            invariant
                index <= self.entries.len(),
                entries.len() == index,
                forall|i: int|
                    0 <= i < index ==> (#[trigger] entries[i]).name@ == self.entries[i].name@ && entries[i].positions@
                        == self.entries[i].positions@,
            decreases self.entries.len() - index,
        {
            entries.push(
                InputPositions {
                    name: self.entries[index].name.clone(),
                    positions: copy_positions(&self.entries[index].positions),
                },
            );
            index += 1;
        }
        let copy = LocalPlacerInputConstraints { entries };
        proof {
            assert forall|name: Seq<char>| #[trigger] places_named(copy, name) == places_named(*self, name) by {
                places_from_same(copy.entries@, self.entries@, name, 0);
            }
        }
        copy
    }
}

/// How layouts of one definition are searched.
#[derive(Clone, Debug)]
pub struct UnitCandidateConfig {
    pub dim: DimSize,
    pub input_constraints: LocalPlacerInputConstraints,
    pub max_candidates: usize,
    pub combinational_sampling_limit: Option<usize>,
}

/// Whether two policies search alike, but for the places of inputs.
pub open spec fn limits_are(left: UnitCandidateConfig, right: UnitCandidateConfig) -> bool {
    &&& left.dim == right.dim
    &&& left.max_candidates == right.max_candidates
    &&& left.combinational_sampling_limit == right.combinational_sampling_limit
}

/// Whether two policies search alike.
pub open spec fn config_is(left: UnitCandidateConfig, right: UnitCandidateConfig) -> bool {
    limits_are(left, right) && places_are(left.input_constraints, right.input_constraints)
}

/// Whether a policy is the one that is used where none is given.
pub open spec fn is_default_config(config: UnitCandidateConfig) -> bool {
    &&& config.dim == DimSize(16, 16, 6)
    &&& config.input_constraints.entries@.len() == 0
    &&& config.max_candidates == 16
    &&& config.combinational_sampling_limit == Some(32usize)
}

impl Default for UnitCandidateConfig {
    fn default() -> (config: Self)
        ensures
            is_default_config(config),
            forall|name: Seq<char>| #[trigger] places_named(config.input_constraints, name) is None,
    {
        UnitCandidateConfig {
            dim: DimSize(16, 16, 6),
            input_constraints: LocalPlacerInputConstraints::new(),
            max_candidates: 16,
            combinational_sampling_limit: Some(32),
        }
    }
}

impl UnitCandidateConfig {
    /// An equal policy.
    pub fn copy(&self) -> (copy: Self)
        ensures
            config_is(copy, *self),
    {
        UnitCandidateConfig {
            dim: self.dim,
            input_constraints: self.input_constraints.copy(),
            max_candidates: self.max_candidates,
            combinational_sampling_limit: self.combinational_sampling_limit,
        }
    }
}

/// The policy of a latch inside a larger module.
pub fn d_latch_child_candidate_config() -> (config: UnitCandidateConfig)
    ensures
        config.dim == DimSize(14, 10, 6),
        places_named(config.input_constraints, "d"@) == Some(seq![Position(0, 2, 1)]),
        places_named(config.input_constraints, "en"@) == Some(seq![Position(0, 6, 1)]),
        forall|name: Seq<char>|
            name != "d"@ && name != "en"@ ==> #[trigger] places_named(config.input_constraints, name) is None,
        config.max_candidates == 1,
        config.combinational_sampling_limit is None,
{
    let data = vec![Position(0, 2, 1)];
    let enable = vec![Position(0, 6, 1)];
    proof {
        assert(data@ =~= seq![Position(0, 2, 1)]);
        assert(enable@ =~= seq![Position(0, 6, 1)]);
        reveal_strlit("d");
        reveal_strlit("en");
        assert("d"@.len() != "en"@.len());
    }
    let constraints = LocalPlacerInputConstraints::new().with_input_positions(
        "d".to_string(),
        data,
    ).with_input_positions("en".to_string(), enable);
    UnitCandidateConfig {
        dim: DimSize(14, 10, 6),
        input_constraints: constraints,
        max_candidates: 1,
        combinational_sampling_limit: None,
    }
}

// ---------------------------------------------------------------------------
// Policies by definition
// ---------------------------------------------------------------------------
/// The policy of one definition.
#[derive(Clone, Debug)]
pub struct DefinitionOverride {
    pub definition: String,
    pub policy: UnitCandidateConfig,
}

/// The places of one port of one definition.
#[derive(Clone, Debug)]
pub struct PinSearch {
    pub definition: String,
    pub port: String,
    pub positions: Vec<Position>,
}

/// How layouts are searched: by default, for single definitions, and for the
/// cells of a library. An override wins over the library, and the library over
/// the default.
#[derive(Clone, Debug)]
pub struct CandidatePolicySet {
    pub default: UnitCandidateConfig,
    /// One entry for each definition.
    pub definition_overrides: Vec<DefinitionOverride>,
    /// One entry for each port of a definition.
    pub pin_search: Vec<PinSearch>,
    pub cell_library: CellLibrary,
}

/// The override of a definition, from entry `start` on.
pub open spec fn override_from(
    overrides: Seq<DefinitionOverride>,
    definition: Seq<char>,
    start: nat,
) -> Option<UnitCandidateConfig>
    decreases overrides.len() - start,
{
    if start >= overrides.len() {
        None
    } else if overrides[start as int].definition@ == definition {
        Some(overrides[start as int].policy)
    } else {
        override_from(overrides, definition, start + 1)
    }
}

/// The override of a definition.
pub open spec fn override_of(policies: CandidatePolicySet, definition: Seq<char>) -> Option<UnitCandidateConfig> {
    override_from(policies.definition_overrides@, definition, 0)
}

/// The places of a port, from entry `start` on.
pub open spec fn search_from(
    entries: Seq<PinSearch>,
    definition: Seq<char>,
    port: Seq<char>,
    start: nat,
) -> Option<Seq<Position>>
    decreases entries.len() - start,
{
    if start >= entries.len() {
        None
    } else if entries[start as int].definition@ == definition && entries[start as int].port@ == port {
        Some(entries[start as int].positions@)
    } else {
        search_from(entries, definition, port, start + 1)
    }
}

/// The places of a port of a definition.
pub open spec fn search_of(
    policies: CandidatePolicySet,
    definition: Seq<char>,
    port: Seq<char>,
) -> Option<Seq<Position>> {
    search_from(policies.pin_search@, definition, port, 0)
}

/// Whether each port of a definition has one entry.
pub open spec fn is_search(entries: Seq<PinSearch>) -> bool {
    forall|i: int, j: int|
        0 <= i < j < entries.len() ==> !((#[trigger] entries[i]).definition@ == (#[trigger] entries[j]).definition@
            && entries[i].port@ == entries[j].port@)
}

/// Whether a policy is the one for a definition before its pins are searched.
pub open spec fn is_base(policies: CandidatePolicySet, definition: Seq<char>, base: UnitCandidateConfig) -> bool {
    match override_of(policies, definition) {
        Some(policy) => config_is(base, policy),
        None => {
            ||| exists|index: int| #[trigger]
                is_best(policies.cell_library.implementations@, definition, index) && config_is(
                    base,
                    policies.cell_library.implementations@[index].candidate,
                )
            ||| {
                &&& config_is(base, policies.default)
                &&& forall|i: int|
                    0 <= i < policies.cell_library.implementations@.len() ==> !implements(
                        #[trigger] policies.cell_library.implementations@[i],
                        definition,
                    )
            }
        },
    }
}

/// Whether a policy is another with the places of some ports of a definition.
pub open spec fn is_narrowed(
    policy: UnitCandidateConfig,
    base: UnitCandidateConfig,
    entries: Seq<PinSearch>,
    definition: Seq<char>,
) -> bool {
    &&& limits_are(policy, base)
    &&& forall|port: Seq<char>| #[trigger]
        places_named(policy.input_constraints, port) == (match search_from(entries, definition, port, 0) {
            Some(positions) => Some(positions),
            None => places_named(base.input_constraints, port),
        })
}

/// Whether a policy is the one for a definition.
pub open spec fn is_effective(policies: CandidatePolicySet, definition: Seq<char>, policy: UnitCandidateConfig) -> bool {
    exists|base: UnitCandidateConfig| #[trigger]
        is_base(policies, definition, base) && is_narrowed(policy, base, policies.pin_search@, definition)
}

proof fn override_from_index(overrides: Seq<DefinitionOverride>, definition: Seq<char>, start: nat, index: nat)
    requires
        start <= index < overrides.len(),
        forall|i: int| start <= i < index ==> (#[trigger] overrides[i]).definition@ != definition,
        overrides[index as int].definition@ == definition,
    ensures
        override_from(overrides, definition, start) == Some(overrides[index as int].policy),
    decreases index - start,
{
    if start < index {
        override_from_index(overrides, definition, start + 1, index);
    }
}

proof fn override_from_other(
    left: Seq<DefinitionOverride>,
    right: Seq<DefinitionOverride>,
    definition: Seq<char>,
    start: nat,
    at: int,
)
    requires
        left.len() <= right.len() <= left.len() + 1,
        0 <= at < right.len(),
        right.len() > left.len() ==> at == left.len(),
        right[at].definition@ != definition,
        at < left.len() ==> left[at].definition@ != definition,
        forall|i: int| 0 <= i < left.len() && i != at ==> #[trigger] left[i] == right[i],
    ensures
        override_from(left, definition, start) == override_from(right, definition, start),
    decreases right.len() - start,
{
    if start < right.len() {
        override_from_other(left, right, definition, start + 1, at);
        if start != at {
            assert(left[start as int] == right[start as int]);
        }
    }
}

proof fn search_from_index(entries: Seq<PinSearch>, definition: Seq<char>, port: Seq<char>, start: nat, index: nat)
    requires
        start <= index < entries.len(),
        forall|i: int|
            start <= i < index ==> !((#[trigger] entries[i]).definition@ == definition && entries[i].port@ == port),
        entries[index as int].definition@ == definition,
        entries[index as int].port@ == port,
    ensures
        search_from(entries, definition, port, start) == Some(entries[index as int].positions@),
    decreases index - start,
{
    if start < index {
        search_from_index(entries, definition, port, start + 1, index);
    }
}

proof fn search_from_other(
    left: Seq<PinSearch>,
    right: Seq<PinSearch>,
    definition: Seq<char>,
    port: Seq<char>,
    start: nat,
    at: int,
)
    requires
        left.len() <= right.len() <= left.len() + 1,
        0 <= at < right.len(),
        right.len() > left.len() ==> at == left.len(),
        !(right[at].definition@ == definition && right[at].port@ == port),
        at < left.len() ==> !(left[at].definition@ == definition && left[at].port@ == port),
        forall|i: int| 0 <= i < left.len() && i != at ==> #[trigger] left[i] == right[i],
    ensures
        search_from(left, definition, port, start) == search_from(right, definition, port, start),
    decreases right.len() - start,
{
    if start < right.len() {
        search_from_other(left, right, definition, port, start + 1, at);
        if start != at {
            assert(left[start as int] == right[start as int]);
        }
    }
}

/// One more entry adds its own places.
proof fn search_grows(entries: Seq<PinSearch>, definition: Seq<char>, port: Seq<char>, count: int, start: nat)
    requires
        is_search(entries),
        0 <= count < entries.len(),
        start <= count,
    ensures
        search_from(entries.take(count + 1), definition, port, start) == (if entries[count].definition@ == definition
            && entries[count].port@ == port {
            Some(entries[count].positions@)
        } else {
            search_from(entries.take(count), definition, port, start)
        }),
    decreases count - start,
{
    let now = entries.take(count + 1);
    if start < count {
        search_grows(entries, definition, port, count, start + 1);
        assert(now[start as int] == entries[start as int]);
        assert(entries.take(count)[start as int] == entries[start as int]);
        assert(!(entries[start as int].definition@ == entries[count].definition@ && entries[start as int].port@
            == entries[count].port@));
    } else {
        assert(now[count] == entries[count]);
        reveal_with_fuel(search_from, 2);
    }
}

impl Default for CandidatePolicySet {
    fn default() -> (policies: Self)
        ensures
            is_default_config(policies.default),
            policies.definition_overrides@.len() == 0,
            policies.pin_search@.len() == 0,
            is_built_in(policies.cell_library),
    {
        CandidatePolicySet::new(UnitCandidateConfig::default())
    }
}

impl From<UnitCandidateConfig> for CandidatePolicySet {
    fn from(default: UnitCandidateConfig) -> (policies: Self)
        ensures
            policies.default == default,
            policies.definition_overrides@.len() == 0,
            policies.pin_search@.len() == 0,
            is_built_in(policies.cell_library),
    {
        CandidatePolicySet::new(default)
    }
}

impl vstd::std_specs::convert::FromSpecImpl<UnitCandidateConfig> for CandidatePolicySet {
    open spec fn obeys_from_spec() -> bool {
        false
    }

    open spec fn from_spec(default: UnitCandidateConfig) -> Self {
        arbitrary()
    }
}

impl std::ops::Deref for CandidatePolicySet {
    type Target = UnitCandidateConfig;

    fn deref(&self) -> (config: &UnitCandidateConfig)
        ensures
            *config == self.default,
    {
        &self.default
    }
}

impl std::ops::DerefMut for CandidatePolicySet {
    fn deref_mut(&mut self) -> (config: &mut UnitCandidateConfig)
        ensures
            *config == old(self).default,
            *final(self) == (CandidatePolicySet { default: *final(config), ..*old(self) }),
    {
        &mut self.default
    }
}

impl CandidatePolicySet {
    /// One policy for every definition.
    pub fn new(default: UnitCandidateConfig) -> (policies: Self)
        ensures
            policies.default == default,
            policies.definition_overrides@.len() == 0,
            policies.pin_search@.len() == 0,
            is_built_in(policies.cell_library),
    {
        CandidatePolicySet {
            default,
            definition_overrides: Vec::new(),
            pin_search: Vec::new(),
            cell_library: CellLibrary::redstone_v1(),
        }
    }

    /// Takes another library.
    pub fn with_cell_library(self, library: CellLibrary) -> (policies: Self)
        ensures
            policies.default == self.default,
            policies.definition_overrides@ == self.definition_overrides@,
            policies.pin_search@ == self.pin_search@,
            policies.cell_library == library,
    {
        CandidatePolicySet {
            default: self.default,
            definition_overrides: self.definition_overrides,
            pin_search: self.pin_search,
            cell_library: library,
        }
    }

    /// Sets the policy of one definition.
    pub fn with_definition_override(self, definition: String, policy: UnitCandidateConfig) -> (policies: Self)
        ensures
            policies.default == self.default,
            policies.pin_search@ == self.pin_search@,
            policies.cell_library == self.cell_library,
            forall|other: Seq<char>| #[trigger]
                override_of(policies, other) == (if other == definition@ {
                    Some(policy)
                } else {
                    override_of(self, other)
                }),
    {
        let mut overrides = self.definition_overrides;
        let ghost before = overrides@;
        let ghost wanted = definition@;
        let mut index: usize = 0;
        while index < overrides.len() && !same_text(overrides[index].definition.as_str(), definition.as_str())
            invariant
                index <= overrides.len(),
                overrides@ == before,
                wanted == definition@,
                forall|i: int| 0 <= i < index ==> (#[trigger] before[i]).definition@ != wanted,
            decreases overrides.len() - index,
        {
            index += 1;
        }
        let entry = DefinitionOverride { definition, policy };
        if index < overrides.len() {
            overrides[index] = entry;
        } else {
            overrides.push(entry);
        }
        proof {
            let after = overrides@;
            assert(after[index as int].definition@ == wanted);
            override_from_index(after, wanted, 0, index as nat);
            assert forall|other: Seq<char>| other != wanted implies #[trigger] override_from(after, other, 0)
                == override_from(before, other, 0) by {
                override_from_other(before, after, other, 0, index as int);
            }
        }
        CandidatePolicySet {
            default: self.default,
            definition_overrides: overrides,
            pin_search: self.pin_search,
            cell_library: self.cell_library,
        }
    }

    /// Sets the places of one port of one definition.
    pub fn with_pin_search(self, definition: String, port: String, positions: Vec<Position>) -> (policies: Self)
        ensures
            policies.default == self.default,
            policies.definition_overrides@ == self.definition_overrides@,
            policies.cell_library == self.cell_library,
            is_search(self.pin_search@) ==> is_search(policies.pin_search@),
            forall|owner: Seq<char>, name: Seq<char>| #[trigger]
                search_of(policies, owner, name) == (if owner == definition@ && name == port@ {
                    Some(positions@)
                } else {
                    search_of(self, owner, name)
                }),
    {
        let mut entries = self.pin_search;
        let ghost before = entries@;
        let ghost wanted = definition@;
        let ghost wanted_port = port@;
        let mut index: usize = 0;
        while index < entries.len() && !(same_text(entries[index].definition.as_str(), definition.as_str())
            && same_text(entries[index].port.as_str(), port.as_str()))
            invariant
                index <= entries.len(),
                entries@ == before,
                wanted == definition@,
                wanted_port == port@,
                forall|i: int|
                    0 <= i < index ==> !((#[trigger] before[i]).definition@ == wanted && before[i].port@ == wanted_port),
            decreases entries.len() - index,
        {
            index += 1;
        }
        let entry = PinSearch { definition, port, positions };
        if index < entries.len() {
            entries[index] = entry;
        } else {
            entries.push(entry);
        }
        proof {
            let after = entries@;
            assert(after[index as int].definition@ == wanted);
            search_from_index(after, wanted, wanted_port, 0, index as nat);
            assert forall|owner: Seq<char>, name: Seq<char>| !(owner == wanted && name == wanted_port) implies #[trigger]
                search_from(after, owner, name, 0) == search_from(before, owner, name, 0) by {
                search_from_other(before, after, owner, name, 0, index as int);
            }
            if is_search(before) {
                assert forall|i: int, j: int| 0 <= i < j < after.len() implies !((#[trigger] after[i]).definition@ == (
                #[trigger] after[j]).definition@ && after[i].port@ == after[j].port@) by {
                    assert(i != index ==> after[i] == before[i]);
                    assert(j != index ==> after[j] == before[j]);
                    if index < before.len() {
                        assert(before[index as int].definition@ == wanted && before[index as int].port@ == wanted_port);
                    }
                }
            }
        }
        CandidatePolicySet {
            default: self.default,
            definition_overrides: self.definition_overrides,
            pin_search: entries,
            cell_library: self.cell_library,
        }
    }

    fn base_for(&self, definition: &str) -> (base: UnitCandidateConfig)
        ensures
            is_base(*self, definition@, base),
    {
        let mut index: usize = 0;
        while index < self.definition_overrides.len()
            invariant
                index <= self.definition_overrides.len(),
                override_of(*self, definition@) == override_from(
                    self.definition_overrides@,
                    definition@,
                    index as nat,
                ),
            decreases self.definition_overrides.len() - index,
        {
            if same_text(self.definition_overrides[index].definition.as_str(), definition) {
                return self.definition_overrides[index].policy.copy();
            }
            index += 1;
        }
        match self.cell_library.implementation_for_definition(definition) {
            Some(implementation) => {
                let ghost at = choose|index: int| #[trigger]
                    is_best(self.cell_library.implementations@, definition@, index) && *implementation
                        == self.cell_library.implementations@[index];
                let base = implementation.candidate.copy();
                assert(is_best(self.cell_library.implementations@, definition@, at) && config_is(
                    base,
                    self.cell_library.implementations@[at].candidate,
                ));
                base
            },
            None => self.default.copy(),
        }
    }

    /// The policy for a definition: its override, or else the one of its cell,
    /// or else the default, with the places that were set for its ports.
    pub fn effective_for_definition(&self, definition: &str) -> (policy: UnitCandidateConfig)
        requires
            is_search(self.pin_search@),
        ensures
            is_effective(*self, definition@, policy),
    {
        let base = self.base_for(definition);
        let ghost start = base;
        let mut policy = base;
        let ghost entries = self.pin_search@;
        let mut index: usize = 0;
        while index < self.pin_search.len()
            invariant
                index <= self.pin_search.len(),
                entries == self.pin_search@,
                is_search(entries),
                is_narrowed(policy, start, entries.take(index as int), definition@),
            decreases self.pin_search.len() - index,
        {
            let ghost before = policy;
            proof {
                assert forall|port: Seq<char>| #[trigger]
                    search_from(entries.take(index + 1), definition@, port, 0) == (if entries[index as int].definition@
                        == definition@ && entries[index as int].port@ == port {
                        Some(entries[index as int].positions@)
                    } else {
                        search_from(entries.take(index as int), definition@, port, 0)
                    }) by {
                    search_grows(entries, definition@, port, index as int, 0);
                }
            }
            if same_text(self.pin_search[index].definition.as_str(), definition) {
                policy =
                UnitCandidateConfig {
                    dim: policy.dim,
                    input_constraints: policy.input_constraints.with_input_positions(
                        self.pin_search[index].port.clone(),
                        copy_positions(&self.pin_search[index].positions),
                    ),
                    max_candidates: policy.max_candidates,
                    combinational_sampling_limit: policy.combinational_sampling_limit,
                };
            }
            proof {
                assert forall|port: Seq<char>| #[trigger]
                    places_named(policy.input_constraints, port) == (match search_from(
                        entries.take(index + 1),
                        definition@,
                        port,
                        0,
                    ) {
                        Some(positions) => Some(positions),
                        None => places_named(start.input_constraints, port),
                    }) by {
                    let known = places_named(before.input_constraints, port);
                    assert(search_from(entries.take(index + 1), definition@, port, 0) == (if entries[index as int].definition@
                        == definition@ && entries[index as int].port@ == port {
                        Some(entries[index as int].positions@)
                    } else {
                        search_from(entries.take(index as int), definition@, port, 0)
                    }));
                }
            }
            index += 1;
        }
        assert(entries.take(index as int) =~= entries);
        assert(is_base(*self, definition@, start));
        policy
    }

    /// The contract of the cell for a definition, if there is one.
    pub fn effective_contract_for_definition(&self, definition: &str) -> (contract: Option<CellPhysicalContract>)
        ensures
            match contract {
                Some(contract) => exists|index: int| #[trigger]
                    is_best(self.cell_library.implementations@, definition@, index) && contract_is(
                        contract,
                        self.cell_library.implementations@[index].contract,
                    ),
                None => forall|i: int|
                    0 <= i < self.cell_library.implementations@.len() ==> !implements(
                        #[trigger] self.cell_library.implementations@[i],
                        definition@,
                    ),
            },
    {
        match self.cell_library.implementation_for_definition(definition) {
            Some(implementation) => {
                let ghost at = choose|index: int| #[trigger]
                    is_best(self.cell_library.implementations@, definition@, index) && *implementation
                        == self.cell_library.implementations@[index];
                let contract = implementation.contract.copy();
                assert(is_best(self.cell_library.implementations@, definition@, at) && contract_is(
                    contract,
                    self.cell_library.implementations@[at].contract,
                ));
                Some(contract)
            },
            None => None,
        }
    }
}

} // verus!
