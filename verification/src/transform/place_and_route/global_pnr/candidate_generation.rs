//! Making layouts of a module out of the ways in which it was placed.

use super::candidate_check::{
    candidate_matches_truth_table, check_error_chars, is_check, is_complete, is_simulation, CheckError, TruthTable,
};
use super::candidate_layout::{is_layout, port_rules, switchless_candidate_layout, CandidatePort, PlacedWorld};
use super::cell_library::CellPhysicalContract;
use super::dust::{distances_fit, is_rule};
use super::ir::{describes, is_cut_frontier, pareto_frontier, LayoutCandidate, PhysicalPort, PhysicalPortDirection};
use super::policy::{LocalPlacerInputConstraints, UnitCandidateConfig};
use crate::graph::{GraphNode, GraphNodeKind};
use crate::ir::routable::{RoutableModule, RoutablePortDirection};
use crate::perf::{after_check, is_over, over_budget_chars, BudgetExceeded, PerfCounters};
use crate::text::{decimal, decimal_text, join3, same_text};
use crate::world::grid::World3D;
use crate::world::position::Position;
use vstd::prelude::*;

verus! {

/// Why layouts could not be made.
#[derive(Clone, Debug)]
pub enum GenerationError {
    /// A placed module could not be checked.
    Check(CheckError),
    /// A layout has no block.
    Empty,
    /// More memory was used than the budget has before placing began.
    Budget(BudgetExceeded),
    /// More memory was used than the budget has while a module was placed.
    OverBudget { module: String },
    /// Placing a module took more work than is allowed.
    OverWork { module: String, clone_limit: usize, work_limit: usize },
}

/// The message of an error.
pub open spec fn generation_chars(error: GenerationError) -> Seq<char> {
    match error {
        GenerationError::Check(cause) => check_error_chars(cause),
        GenerationError::Empty => "layout candidate world has no blocks"@,
        GenerationError::Budget(cause) => over_budget_chars(cause),
        GenerationError::OverBudget { module } => "memory budget exceeded during local candidate generation for `"@
            + module@ + "`"@,
        GenerationError::OverWork { module, clone_limit, work_limit } => "local candidate generation for `"@ + module@
            + ("` exceeded its work limit (clone budget "@ + decimal(clone_limit as nat) + (" / placement budget "@
            + decimal(work_limit as nat) + "); the design is too dense for the current local placer"@)),
    }
}

impl GenerationError {
    /// The error in words.
    pub fn message(&self) -> (text: String)
        ensures
            text@ == generation_chars(*self),
    {
        match self {
            GenerationError::Check(cause) => cause.message(),
            GenerationError::Empty => "layout candidate world has no blocks".to_string(),
            GenerationError::Budget(cause) => cause.message(),
            GenerationError::OverBudget { module } => join3(
                "memory budget exceeded during local candidate generation for `",
                module.as_str(),
                "`",
            ),
            GenerationError::OverWork { module, clone_limit, work_limit } => {
                let work = decimal_text(*work_limit);
                let clones = decimal_text(*clone_limit);
                let end = join3(
                    " / placement budget ",
                    work.as_str(),
                    "); the design is too dense for the current local placer",
                );
                let middle = join3("` exceeded its work limit (clone budget ", clones.as_str(), end.as_str());
                join3("local candidate generation for `", module.as_str(), middle.as_str())
            },
        }
    }
}

/// The stage in which layouts of a module are made.
pub const GENERATION_STAGE: &'static str = "local candidate generation";

/// How much work placing may take, and whether it took more.
#[derive(Clone, Copy, Debug, PartialEq, Eq, Structural)]
pub struct PlacingWork {
    pub exceeded: bool,
    pub clone_limit: usize,
    pub work_limit: usize,
}

/// Which limit stops layouts from being made.
pub ghost enum Limit {
    /// The budget was used up before placing began.
    Start,
    /// The budget was used up since.
    Memory,
    /// Placing took too much work.
    Work,
}

/// Which limit stops layouts from being made, if one does.
pub open spec fn limit_of(counters: PerfCounters, rss: Option<usize>, work: PlacingWork) -> Option<Limit> {
    if is_over(counters, rss) {
        Some(Limit::Start)
    } else if counters.budget_exceeded {
        Some(Limit::Memory)
    } else if work.exceeded {
        Some(Limit::Work)
    } else {
        None
    }
}

/// Whether an error tells of a limit.
pub open spec fn tells_limit(
    error: GenerationError,
    limit: Limit,
    counters: PerfCounters,
    rss: Option<usize>,
    work: PlacingWork,
    name: Seq<char>,
) -> bool {
    match limit {
        Limit::Start => error matches GenerationError::Budget(cause) && cause.stage@ == GENERATION_STAGE@ && cause.rss
            == rss->0 && cause.budget == counters.budget_bytes,
        Limit::Memory => error matches GenerationError::OverBudget { module } && module@ == name,
        Limit::Work => error matches GenerationError::OverWork { module, clone_limit, work_limit } && module@ == name
            && clone_limit == work.clone_limit && work_limit == work.work_limit,
    }
}

/// Fails where a limit stops layouts from being made.
fn check_limits(
    counters: &mut PerfCounters,
    rss: Option<usize>,
    work: &PlacingWork,
    module_name: &str,
) -> (result: Result<(), GenerationError>)
    ensures
        *final(counters) == after_check(*old(counters), rss),
        match limit_of(*old(counters), rss, *work) {
            Some(limit) => result matches Err(error) && tells_limit(
                error,
                limit,
                *old(counters),
                rss,
                *work,
                module_name@,
            ),
            None => result is Ok,
        },
{
    if let Err(error) = counters.check_budget(GENERATION_STAGE, rss) {
        return Err(GenerationError::Budget(error));
    }
    if counters.budget_exceeded() {
        return Err(GenerationError::OverBudget { module: module_name.to_owned() });
    }
    if work.exceeded {
        return Err(
            GenerationError::OverWork {
                module: module_name.to_owned(),
                clone_limit: work.clone_limit,
                work_limit: work.work_limit,
            },
        );
    }
    Ok(())
}

/// Whether a module holds state.
pub open spec fn holds_state(nodes: Seq<GraphNode>) -> bool {
    exists|i: int| 0 <= i < nodes.len() && (#[trigger] nodes[i]).kind is Sequential
}

/// Whether a module holds state.
pub fn contains_sequential(nodes: &Vec<GraphNode>) -> (found: bool)
    ensures
        found == holds_state(nodes@),
{
    let mut index: usize = 0;
    while index < nodes.len()
        invariant
            index <= nodes.len(),
            forall|i: int| 0 <= i < index ==> !((#[trigger] nodes@[i]).kind is Sequential),
        decreases nodes.len() - index,
    {
        if matches!(nodes[index].kind, GraphNodeKind::Sequential(_)) {
            assert(nodes@[index as int].kind is Sequential);
            return true;
        }
        index += 1;
    }
    false
}

/// The ports that the layouts of a module are to have.
pub open spec fn are_module_ports(ports: Seq<CandidatePort>, module: RoutableModule) -> bool {
    &&& ports.len() == module.ports@.len()
    &&& forall|i: int|
        0 <= i < ports.len() ==> {
            &&& (#[trigger] ports[i]).name@ == module.ports@[i].name@
            &&& ports[i].target@ == module.ports@[i].name@
            &&& ports[i].direction == (match module.ports@[i].direction {
                RoutablePortDirection::Input => PhysicalPortDirection::Input,
                RoutablePortDirection::Output => PhysicalPortDirection::Output,
            })
        }
}

/// The ports that the layouts of a module are to have.
pub fn module_ports(module: &RoutableModule) -> (ports: Vec<CandidatePort>)
    ensures
        are_module_ports(ports@, *module),
{
    let mut ports: Vec<CandidatePort> = Vec::new();
    let mut index: usize = 0;
    while index < module.ports.len()
        invariant
            index <= module.ports.len(),
            ports.len() == index,
            forall|i: int|
                0 <= i < index ==> {
                    &&& (#[trigger] ports@[i]).name@ == module.ports@[i].name@
                    &&& ports@[i].target@ == module.ports@[i].name@
                    &&& ports@[i].direction == (match module.ports@[i].direction {
                        RoutablePortDirection::Input => PhysicalPortDirection::Input,
                        RoutablePortDirection::Output => PhysicalPortDirection::Output,
                    })
                },
        decreases module.ports.len() - index,
    {
        let port = &module.ports[index];
        let direction = match port.direction {
            RoutablePortDirection::Input => PhysicalPortDirection::Input,
            RoutablePortDirection::Output => PhysicalPortDirection::Output,
        };
        ports.push(CandidatePort::new(port.name.as_str(), port.name.as_str(), direction));
        index += 1;
    }
    ports
}

/// Whether every port that is wanted was made.
pub open spec fn cover(wanted: Seq<CandidatePort>, made: Seq<PhysicalPort>) -> bool {
    forall|i: int| 0 <= i < wanted.len() ==> #[trigger] has_port(made, wanted[i].name@)
}

/// Whether there is a port of a name.
pub open spec fn has_port(ports: Seq<PhysicalPort>, name: Seq<char>) -> bool {
    exists|i: int| 0 <= i < ports.len() && (#[trigger] ports[i]).name@ == name
}

fn finds_port(ports: &Vec<PhysicalPort>, name: &str) -> (found: bool)
    ensures
        found == has_port(ports@, name@),
{
    let mut index: usize = 0;
    while index < ports.len()
        invariant
            index <= ports.len(),
            forall|i: int| 0 <= i < index ==> (#[trigger] ports@[i]).name@ != name@,
        decreases ports.len() - index,
    {
        if same_text(ports[index].name.as_str(), name) {
            assert(ports@[index as int].name@ == name@);
            return true;
        }
        index += 1;
    }
    false
}

/// Whether every port that is wanted was made.
pub fn candidate_ports_cover_module_ports(wanted: &Vec<CandidatePort>, made: &Vec<PhysicalPort>) -> (covered: bool)
    ensures
        covered == cover(wanted@, made@),
{
    let mut index: usize = 0;
    while index < wanted.len()
        invariant
            index <= wanted.len(),
            forall|i: int| 0 <= i < index ==> #[trigger] has_port(made@, wanted@[i].name@),
        decreases wanted.len() - index,
    {
        if !finds_port(made, wanted[index].name.as_str()) {
            assert(!has_port(made@, wanted@[index as int].name@));
            return false;
        }
        index += 1;
    }
    true
}

/// What is asked of a layout.
pub ghost struct LayoutTask {
    pub name: Seq<char>,
    pub ports: Seq<CandidatePort>,
    pub table: Option<TruthTable>,
    pub contract: Option<CellPhysicalContract>,
    pub constraints: LocalPlacerInputConstraints,
}

/// What became of a placed module.
pub ghost enum Fate {
    /// It does not compute its table.
    Unmatched,
    /// Its layout lacks a port.
    Uncovered,
    Kept(LayoutCandidate),
}

/// Whether a placed module computes its table, where it has one.
pub open spec fn is_matched<
    O: Fn(&World3D, &Vec<Vec<(Position, bool)>>, &Vec<Position>, bool) -> Result<Vec<bool>, String>,
>(observe: &O, task: LayoutTask, placed: PlacedWorld) -> bool {
    match task.table {
        Some(table) => is_check(&table, placed, observe, Ok(true)),
        None => true,
    }
}

/// Whether a world and ports are the layout of a placed module for a task.
pub open spec fn is_task_layout<F: Fn(&World3D, Position, Position) -> bool>(
    rule: &F,
    task: LayoutTask,
    placed: PlacedWorld,
    world: World3D,
    ports: Seq<PhysicalPort>,
) -> bool {
    is_layout(
        rule,
        placed,
        task.constraints,
        port_rules(task.ports, task.table is None, task.contract),
        task.ports,
        world,
        ports,
    )
}

/// Whether a fate is that of a placed module.
pub open spec fn is_fate<
    F: Fn(&World3D, Position, Position) -> bool,
    O: Fn(&World3D, &Vec<Vec<(Position, bool)>>, &Vec<Position>, bool) -> Result<Vec<bool>, String>,
>(rule: &F, observe: &O, task: LayoutTask, placed: PlacedWorld, fate: Fate) -> bool {
    match fate {
        Fate::Unmatched => task.table matches Some(table) && is_check(&table, placed, observe, Ok(false)),
        Fate::Uncovered => is_matched(observe, task, placed) && exists|world: World3D, ports: Seq<PhysicalPort>| #[trigger]
            is_task_layout(rule, task, placed, world, ports) && !cover(task.ports, ports),
        Fate::Kept(candidate) => {
            &&& is_matched(observe, task, placed)
            &&& is_task_layout(rule, task, placed, candidate.world, candidate.ports@)
            &&& cover(task.ports, candidate.ports@)
            &&& describes(candidate, task.name)
            &&& candidate.halo == (match task.contract {
                Some(contract) => contract.halo,
                None => 0,
            })
        },
    }
}

/// The layouts that were kept.
pub open spec fn kept(fates: Seq<Fate>) -> Seq<LayoutCandidate>
    decreases fates.len(),
{
    if fates.len() == 0 {
        Seq::empty()
    } else {
        let rest = kept(fates.drop_last());
        match fates.last() {
            Fate::Kept(candidate) => rest.push(candidate),
            _ => rest,
        }
    }
}

/// Whether fates are those of the first placed modules, as many as it takes to
/// fill the pool.
pub open spec fn are_fates<
    F: Fn(&World3D, Position, Position) -> bool,
    O: Fn(&World3D, &Vec<Vec<(Position, bool)>>, &Vec<Position>, bool) -> Result<Vec<bool>, String>,
>(rule: &F, observe: &O, task: LayoutTask, placed: Seq<PlacedWorld>, limit: int, fates: Seq<Fate>) -> bool {
    &&& fates.len() <= placed.len()
    &&& forall|i: int| 0 <= i < fates.len() ==> is_fate(rule, observe, task, placed[i], #[trigger] fates[i])
    &&& forall|i: int| 0 <= i < fates.len() ==> #[trigger] kept(fates.take(i)).len() < limit
}

/// How many layouts are kept before the frontier is drawn.
pub open spec fn pool_limit(max_candidates: usize) -> int {
    if max_candidates == 0 {
        1
    } else if 4 * max_candidates > 64 {
        64
    } else {
        4 * max_candidates
    }
}

fn pool_size(max_candidates: usize) -> (limit: usize)
    ensures
        limit == pool_limit(max_candidates),
{
    if max_candidates == 0 {
        1
    } else if max_candidates > 16 {
        64
    } else {
        4 * max_candidates
    }
}

/// Whether an error is that of a placed module.
pub open spec fn is_failure<
    F: Fn(&World3D, Position, Position) -> bool,
    O: Fn(&World3D, &Vec<Vec<(Position, bool)>>, &Vec<Position>, bool) -> Result<Vec<bool>, String>,
>(rule: &F, observe: &O, task: LayoutTask, placed: PlacedWorld, error: GenerationError) -> bool {
    match error {
        GenerationError::Check(cause) => task.table matches Some(table) && is_check(
            &table,
            placed,
            observe,
            Err(cause),
        ),
        GenerationError::Empty => is_matched(observe, task, placed) && exists|
            world: World3D,
            ports: Seq<PhysicalPort>,
        | #[trigger]
            is_task_layout(rule, task, placed, world, ports) && cover(task.ports, ports) && world.listed().len() == 0,
        _ => false,
    }
}

/// Whether a placed module can be made into a layout.
pub open spec fn placed_fits(placed: PlacedWorld) -> bool {
    &&& placed.world.wf()
    &&& distances_fit(placed.world)
    &&& placed.world.size.0 * placed.world.size.1 * placed.world.size.2 <= usize::MAX
}

/// What is made of one placed module: a layout, nothing, or an error.
fn make_candidate<
    F: Fn(&World3D, Position, Position) -> bool,
    O: Fn(&World3D, &Vec<Vec<(Position, bool)>>, &Vec<Position>, bool) -> Result<Vec<bool>, String>,
>(
    module_name: &str,
    ports: &Vec<CandidatePort>,
    table: Option<&TruthTable>,
    placed: PlacedWorld,
    config: &UnitCandidateConfig,
    contract: Option<&CellPhysicalContract>,
    rule: &F,
    observe: &O,
    Ghost(task): Ghost<LayoutTask>,
) -> (result: (Result<Option<LayoutCandidate>, GenerationError>, Ghost<Fate>))
    requires
        is_rule(rule),
        is_simulation(observe),
        placed_fits(placed),
        is_task(task, module_name@, ports@, table, contract, *config),
        table matches Some(table) ==> is_complete(*table),
    ensures
        match result.0 {
            Ok(None) => is_fate(rule, observe, task, placed, result.1@) && !(result.1@ is Kept),
            Ok(Some(candidate)) => is_fate(rule, observe, task, placed, result.1@) && result.1@ == Fate::Kept(
                candidate,
            ),
            Err(error) => is_failure(rule, observe, task, placed, error),
        },
{
    if let Some(table) = table {
        match candidate_matches_truth_table(table, &placed, observe) {
            Err(error) => return (Err(GenerationError::Check(error)), Ghost(Fate::Unmatched)),
            Ok(matched) => {
                if !matched {
                    return (Ok(None), Ghost(Fate::Unmatched));
                }
            },
        }
    }
    let ghost given = placed;
    assert(is_matched(observe, task, given));
    let (world, physical) = switchless_candidate_layout(
        rule,
        ports,
        table.is_none(),
        contract,
        &config.input_constraints,
        placed,
    );
    assert(is_task_layout(rule, task, given, world, physical@));
    if !candidate_ports_cover_module_ports(ports, &physical) {
        return (Ok(None), Ghost(Fate::Uncovered));
    }
    let ghost made = physical@;
    let ghost made_world = world;
    match LayoutCandidate::from_world(module_name.to_string(), world, physical) {
        Err(_) => {
            assert(is_task_layout(rule, task, given, made_world, made) && cover(task.ports, made));
            (Err(GenerationError::Empty), Ghost(Fate::Uncovered))
        },
        Ok(found) => {
            let mut candidate = found;
            if let Some(contract) = contract {
                candidate.halo = contract.halo;
            }
            let ghost fate = Fate::Kept(candidate);
            (Ok(Some(candidate)), Ghost(fate))
        },
    }
}

/// Whether a task is what the arguments ask for.
pub open spec fn is_task(
    task: LayoutTask,
    name: Seq<char>,
    ports: Seq<CandidatePort>,
    table: Option<&TruthTable>,
    contract: Option<&CellPhysicalContract>,
    config: UnitCandidateConfig,
) -> bool {
    &&& task.name == name
    &&& task.ports == ports
    &&& task.table == (match table {
        Some(table) => Some(*table),
        None => None,
    })
    &&& task.contract == (match contract {
        Some(contract) => Some(*contract),
        None => None,
    })
    &&& task.constraints == config.input_constraints
}

/// The task that the arguments ask for.
pub open spec fn the_task(
    name: Seq<char>,
    ports: Seq<CandidatePort>,
    table: Option<TruthTable>,
    contract: Option<&CellPhysicalContract>,
    config: UnitCandidateConfig,
) -> LayoutTask {
    LayoutTask {
        name,
        ports,
        table,
        contract: match contract {
            Some(contract) => Some(*contract),
            None => None,
        },
        constraints: config.input_constraints,
    }
}

/// What making layouts comes to: the frontier of those that were kept, or the
/// first error.
pub open spec fn is_generated<
    F: Fn(&World3D, Position, Position) -> bool,
    O: Fn(&World3D, &Vec<Vec<(Position, bool)>>, &Vec<Position>, bool) -> Result<Vec<bool>, String>,
>(
    rule: &F,
    observe: &O,
    task: LayoutTask,
    placed: Seq<PlacedWorld>,
    max_candidates: usize,
    fates: Seq<Fate>,
    result: Result<Vec<LayoutCandidate>, GenerationError>,
) -> bool {
    &&& are_fates(rule, observe, task, placed, pool_limit(max_candidates), fates)
    &&& match result {
        Ok(frontier) => {
            &&& fates.len() == placed.len() || kept(fates).len() >= pool_limit(max_candidates)
            &&& is_cut_frontier(kept(fates), max_candidates, frontier@)
        },
        Err(error) => {
            &&& fates.len() < placed.len()
            &&& kept(fates).len() < pool_limit(max_candidates)
            &&& is_failure(rule, observe, task, placed[fates.len() as int], error)
        },
    }
}

/// The table that is referred to, if there is one.
pub open spec fn table_of(table: Option<&TruthTable>) -> Option<TruthTable> {
    match table {
        Some(table) => Some(*table),
        None => None,
    }
}

/// Makes layouts of a module out of the ways in which it was placed, unless that
/// took more memory or work than is allowed. A module with a table keeps those that compute it, and a pool of them is cut to its
/// frontier. A module without one holds state and is not checked.
pub fn generate_unit_candidates<
    F: Fn(&World3D, Position, Position) -> bool,
    O: Fn(&World3D, &Vec<Vec<(Position, bool)>>, &Vec<Position>, bool) -> Result<Vec<bool>, String>,
>(
    counters: &mut PerfCounters,
    rss: Option<usize>,
    work: &PlacingWork,
    module_name: &str,
    ports: &Vec<CandidatePort>,
    table: Option<&TruthTable>,
    placed: Vec<PlacedWorld>,
    config: &UnitCandidateConfig,
    contract: Option<&CellPhysicalContract>,
    rule: &F,
    observe: &O,
) -> (result: Result<Vec<LayoutCandidate>, GenerationError>)
    requires
        is_rule(rule),
        is_simulation(observe),
        forall|i: int| 0 <= i < placed.len() ==> placed_fits(#[trigger] placed[i]),
        table matches Some(table) ==> is_complete(*table),
    ensures
        *final(counters) == after_check(*old(counters), rss),
        match limit_of(*old(counters), rss, *work) {
            Some(limit) => result matches Err(error) && tells_limit(
                error,
                limit,
                *old(counters),
                rss,
                *work,
                module_name@,
            ),
            None => exists|fates: Seq<Fate>| #[trigger]
                is_generated(
                    rule,
                    observe,
                    the_task(module_name@, ports@, table_of(table), contract, *config),
                    placed@,
                    config.max_candidates,
                    fates,
                    result,
                ),
        },
{
    if let Err(error) = check_limits(counters, rss, work, module_name) {
        return Err(error);
    }
    let ghost task = the_task(module_name@, ports@, table_of(table), contract, *config);
    let ghost given = placed@;
    let limit: usize = pool_size(config.max_candidates);
    let mut waiting = placed;
    let mut candidates: Vec<LayoutCandidate> = Vec::new();
    let ghost mut fates = Seq::<Fate>::empty();
    assert(kept(fates) =~= candidates@);
    while waiting.len() > 0 && candidates.len() < limit
        invariant
            is_rule(rule),
            is_simulation(observe),
            limit == pool_limit(config.max_candidates),
            is_task(task, module_name@, ports@, table, contract, *config),
            table matches Some(table) ==> is_complete(*table),
            forall|i: int| 0 <= i < given.len() ==> placed_fits(#[trigger] given[i]),
            task == the_task(module_name@, ports@, table_of(table), contract, *config),
            given == placed@,
            waiting@ == given.skip(fates.len() as int),
            fates.len() <= given.len(),
            are_fates(rule, observe, task, given, limit as int, fates),
            candidates@ == kept(fates),
            *counters == after_check(*old(counters), rss),
            limit_of(*old(counters), rss, *work) is None,
        decreases waiting.len(),
    {
        let ghost before = fates;
        let ghost at = fates.len() as int;
        assert(waiting@[0] == given[at]);
        let next = waiting.remove(0);
        assert(waiting@ =~= given.skip(at + 1));
        let (made, fate) = make_candidate(
            module_name,
            ports,
            table,
            next,
            config,
            contract,
            rule,
            observe,
            Ghost(task),
        );
        match made {
            Err(error) => {
                let result = Err(error);
                assert(is_generated(rule, observe, task, given, config.max_candidates, before, result));
                return result;
            },
            Ok(found) => {
                proof {
                    fates = before.push(fate@);
                    assert(fates.drop_last() =~= before);
                    assert forall|i: int| 0 <= i < fates.len() implies is_fate(
                        rule,
                        observe,
                        task,
                        given[i],
                        #[trigger] fates[i],
                    ) by {
                        if i < at {
                            assert(fates[i] == before[i]);
                        }
                    }
                    assert forall|i: int| 0 <= i < fates.len() implies #[trigger] kept(fates.take(i)).len() < limit by {
                        if i < at {
                            assert(fates.take(i) =~= before.take(i));
                            assert(kept(before.take(i)).len() < limit);
                        } else {
                            assert(fates.take(i) =~= before);
                        }
                    }
                }
                if let Some(candidate) = found {
                    candidates.push(candidate);
                }
            },
        }
    }
    let frontier = pareto_frontier(candidates, config.max_candidates);
    let result = Ok(frontier);
    assert(is_generated(rule, observe, task, given, config.max_candidates, fates, result));
    result
}

/// Whether tables can be made of modules without state, and are complete.
pub open spec fn is_tabulator<T: Fn(&Vec<GraphNode>) -> TruthTable>(tabulate: &T) -> bool {
    &&& forall|nodes: Vec<GraphNode>| !holds_state(nodes@) ==> #[trigger] call_requires(*tabulate, (&nodes,))
    &&& forall|nodes: Vec<GraphNode>, table: TruthTable| #[trigger]
        call_ensures(*tabulate, (&nodes,), table) ==> is_complete(table)
}

/// Whether a module without state has its table, and one with state none.
pub open spec fn is_module_table<T: Fn(&Vec<GraphNode>) -> TruthTable>(
    tabulate: &T,
    nodes: Vec<GraphNode>,
    table: Option<TruthTable>,
) -> bool {
    match table {
        Some(table) => !holds_state(nodes@) && call_ensures(*tabulate, (&nodes,), table),
        None => holds_state(nodes@),
    }
}

/// Makes layouts of a module, whose ports they have, out of the ways in which it
/// was placed. A module without state is checked against its table.
pub fn generate_routable_module_candidates_with_progress_label<
    T: Fn(&Vec<GraphNode>) -> TruthTable,
    F: Fn(&World3D, Position, Position) -> bool,
    O: Fn(&World3D, &Vec<Vec<(Position, bool)>>, &Vec<Position>, bool) -> Result<Vec<bool>, String>,
>(
    counters: &mut PerfCounters,
    rss: Option<usize>,
    work: &PlacingWork,
    module: &RoutableModule,
    nodes: &Vec<GraphNode>,
    tabulate: &T,
    placed: Vec<PlacedWorld>,
    config: &UnitCandidateConfig,
    contract: Option<&CellPhysicalContract>,
    rule: &F,
    observe: &O,
) -> (result: Result<Vec<LayoutCandidate>, GenerationError>)
    requires
        is_tabulator(tabulate),
        is_rule(rule),
        is_simulation(observe),
        forall|i: int| 0 <= i < placed.len() ==> placed_fits(#[trigger] placed[i]),
    ensures
        *final(counters) == after_check(*old(counters), rss),
        match limit_of(*old(counters), rss, *work) {
            Some(limit) => result matches Err(error) && tells_limit(
                error,
                limit,
                *old(counters),
                rss,
                *work,
                module.name@,
            ),
            None => exists|ports: Seq<CandidatePort>, table: Option<TruthTable>, fates: Seq<Fate>|
                {
                    &&& #[trigger] are_module_ports(ports, *module)
                    &&& #[trigger] is_module_table(tabulate, *nodes, table)
                    &&& #[trigger] is_generated(
                        rule,
                        observe,
                        the_task(module.name@, ports, table, contract, *config),
                        placed@,
                        config.max_candidates,
                        fates,
                        result,
                    )
                },
        },
{
    let ports = module_ports(module);
    let ghost given = placed@;
    let table = if contains_sequential(nodes) {
        None
    } else {
        Some(tabulate(nodes))
    };
    assert(is_module_table(tabulate, *nodes, table));
    let result = generate_unit_candidates(
        counters,
        rss,
        work,
        module.name.as_str(),
        &ports,
        table.as_ref(),
        placed,
        config,
        contract,
        rule,
        observe,
    );
    proof {
        assert(are_module_ports(ports@, *module));
        let fates = choose|fates: Seq<Fate>| #[trigger]
            is_generated(
                rule,
                observe,
                the_task(module.name@, ports@, table, contract, *config),
                given,
                config.max_candidates,
                fates,
                result,
            );
    }
    result
}

} // verus!
