//! Annealing of a placement: moves are proposed one after the other, and kept or
//! not. What a placement costs and how warm it is, others decide.

use super::anneal_laws::all_blocks_inside;
use super::initial::{
    collect_positions, initial_positions, move_to, moved_to, place_initial, problem_fits, repair_error, repair_overlaps,
    sizes_are_sizes, sizes_of, PlacementSolution,
};
use super::known::{measure_is_known, proposal_is_known, wires_fail_alike};
use super::legal::{all_inside, initial_places_are_apart, repair_stays_inside};
use super::measure::{measure_fits, measured, placement_measure, PlacementMeasure};
use super::moves::{
    away_from, crowd_around, draw, drawn, moves_fit, next_number, other_index, proposal, proposal_draws, propose_move,
    random_steps, stepped, DeterministicRng,
};
use super::relax::nudged;
use super::repair::{clamped, have_room, repaired};
use super::seed::{is_numbered, positions_of, size_of_instance, stands_inside, InitialPlacementConfig};
use crate::transform::place_and_route::placement_error::{PlacementError, PlacementErrorView};
use crate::transform::place_and_route::placement_ir::{MacroInstance, MacroTemplate, PlacementLegality};
use crate::transform::place_and_route::placement_problem::{
    footprints, footprints_fit, lists_overlaps, nets_fit, template_of, wire_length, wire_length_of, PlacementProblem,
};
use crate::transform::place_and_route::placement_world::{legality_of, lists_outside};
use crate::world::position::{DimSize, Position};
use vstd::prelude::*;

verus! {

/// The distance between the seeds of restarts.
pub const RESTART_STEP: u64 = 0x9E37_79B9_7F4A_7C15;

/// How long a placement is annealed.
#[derive(Clone, Copy, Debug, PartialEq, Eq, Structural)]
pub struct AnnealingPlan {
    pub initial: InitialPlacementConfig,
    pub seed: u64,
    pub iterations: usize,
    pub moves_per_temperature: usize,
    pub max_translate_step: usize,
    pub restarts: usize,
}

/// What decides about moves.
pub struct AnnealingRules<T, E, A> {
    /// Whether it is too cold for an iteration.
    pub cooled: T,
    /// Whether a placement costs less than another.
    pub cheaper: E,
    /// Whether a placement that costs more is kept in an iteration, by a number
    /// that was drawn.
    pub accept: A,
}

/// The best placement so far.
pub type Best = Option<(Seq<Position>, PlacementMeasure)>;

/// A placement that is being annealed.
pub ghost struct WalkView {
    pub positions: Seq<Position>,
    pub measure: PlacementMeasure,
    pub best_legal: Best,
    pub best_overall: Best,
    pub state: u64,
}

/// A placement that is being annealed.
pub struct Walk {
    pub instances: Vec<MacroInstance>,
    pub measure: PlacementMeasure,
    pub best_legal: Option<(Vec<MacroInstance>, PlacementMeasure)>,
    pub best_overall: Option<(Vec<MacroInstance>, PlacementMeasure)>,
    pub rng: DeterministicRng,
}

/// A best placement by its places.
pub open spec fn best_view(best: Option<(Vec<MacroInstance>, PlacementMeasure)>) -> Best {
    match best {
        Some((instances, measure)) => Some((positions_of(instances@), measure)),
        None => None,
    }
}

impl Walk {
    /// A placement by its places.
    pub open spec fn by_places(&self) -> WalkView {
        WalkView {
            positions: positions_of(self.instances@),
            measure: self.measure,
            best_legal: best_view(self.best_legal),
            best_overall: best_view(self.best_overall),
            state: self.rng.state,
        }
    }

    /// Whether all placements are those of a problem, inside a world.
    pub open spec fn holds(&self, instances: Seq<MacroInstance>, sizes: Seq<DimSize>, world: DimSize) -> bool {
        &&& is_placed(self.instances@, instances, sizes, world)
        &&& self.best_legal matches Some((own, _)) ==> is_placed(own@, instances, sizes, world)
        &&& self.best_overall matches Some((own, _)) ==> is_placed(own@, instances, sizes, world)
    }
}

/// Whether instances are those of a problem in places inside a world.
pub open spec fn is_placed(
    placed: Seq<MacroInstance>,
    instances: Seq<MacroInstance>,
    sizes: Seq<DimSize>,
    world: DimSize,
) -> bool {
    &&& placed == moved_to(instances, positions_of(placed))
    &&& placed.len() == instances.len()
    &&& all_inside(sizes, positions_of(placed), world)
}

/// Whether all moves and costs are in range, wherever the instances stand inside
/// the world.
pub open spec fn annealing_fits(problem: PlacementProblem, plan: AnnealingPlan) -> bool {
    &&& problem_fits(problem.macros@, problem.nets@, plan.initial)
    &&& is_numbered(problem.instances@)
    &&& match sizes_of(problem.macros@, problem.instances@, problem.instances@.len()) {
        Ok(sizes) => all_places_fit(problem, plan, sizes),
        Err(_) => true,
    }
}

/// Whether moves and costs of all placements inside the world are in range.
pub open spec fn all_places_fit(problem: PlacementProblem, plan: AnnealingPlan, sizes: Seq<DimSize>) -> bool {
    forall|positions: Seq<Position>| #[trigger]
        all_inside(sizes, positions, plan.initial.world) ==> places_fit(problem, plan, sizes, positions)
}

/// Whether moves and costs of a placement are in range.
pub open spec fn places_fit(
    problem: PlacementProblem,
    plan: AnnealingPlan,
    sizes: Seq<DimSize>,
    positions: Seq<Position>,
) -> bool {
    let placed = moved_to(problem.instances@, positions);
    &&& moves_fit(problem.macros@, problem.instances@, positions, plan.max_translate_step)
    &&& measure_fits(problem.macros@, problem.instances@, problem.nets@, placed)
    &&& nets_fit(problem.macros@, placed, problem.nets@)
    &&& footprints_fit(problem.macros@, placed)
    &&& have_room(sizes, positions, plan.initial.world)
}

// ---------------------------------------------------------------------------
// Moves stay inside
// ---------------------------------------------------------------------------
proof fn step_stays_inside(
    macros: Seq<MacroTemplate>,
    library: Seq<MacroInstance>,
    sizes: Seq<DimSize>,
    positions: Seq<Position>,
    world: DimSize,
    index: int,
    place: Position,
)
    requires
        all_inside(sizes, positions, world),
        0 <= index < positions.len(),
    ensures
        all_inside(sizes, positions.update(index, clamped(place, sizes[index], world)), world),
{
    let after = positions.update(index, clamped(place, sizes[index], world));
    assert forall|i: int| 0 <= i < sizes.len() implies stands_inside(#[trigger] after[i], sizes[i], world) by {
        assert(stands_inside(positions[i], sizes[i], world));
        assert(stands_inside(positions[index], sizes[index], world));
    }
}

/// A proposed move keeps every instance inside the world.
pub proof fn proposal_stays_inside(
    macros: Seq<MacroTemplate>,
    library: Seq<MacroInstance>,
    sizes: Seq<DimSize>,
    positions: Seq<Position>,
    config: InitialPlacementConfig,
    max_step: usize,
    state: u64,
)
    requires
        sizes_of(macros, library, library.len()) == Ok::<Seq<DimSize>, PlacementErrorView>(sizes),
        all_inside(sizes, positions, config.world),
        library.len() == positions.len() <= usize::MAX,
        proposal(macros, library, positions, config, max_step, state) is Ok,
    ensures
        all_inside(sizes, proposal(macros, library, positions, config, max_step, state)->Ok_0, config.world),
{
    let choice = draw(state, 1, 100);
    let world = config.world;
    sizes_are_sizes(macros, library, library.len());
    if positions.len() > 0 {
        let index = draw(state, 2, positions.len() as int);
        assert(0 <= index < positions.len());
        assert(sizes[index] == size_of_instance(macros, library, index));
        if choice < 60 || positions.len() < 2 {
            let step = random_steps(state, 3, max_step);
            step_stays_inside(
                macros,
                library,
                sizes,
                positions,
                world,
                index,
                nudged(positions[index], step),
            );
        } else if choice < 80 {
            let picked = draw(state, 3, positions.len() - 1);
            let second = other_index(index, picked);
            assert(0 <= picked < positions.len() - 1);
            assert(sizes[second] == size_of_instance(macros, library, second));
            step_stays_inside(macros, library, sizes, positions, world, index, positions[second]);
            let once = positions.update(index, clamped(positions[second], sizes[index], world));
            step_stays_inside(macros, library, sizes, once, world, second, positions[index]);
        } else {
            let after = proposal(macros, library, positions, config, max_step, state)->Ok_0;
            let size = template_of(macros, library, index as usize)->Ok_0.size;
            let crowd = crowd_around(
                macros,
                library,
                positions,
                config.spacing,
                index,
                size,
                positions.len(),
            )->Ok_0;
            let step = if crowd.count == 0 {
                random_steps(state, 3, max_step)
            } else {
                away_from(crowd, positions[index], size)
            };
            step_stays_inside(
                macros,
                library,
                sizes,
                positions,
                world,
                index,
                nudged(positions[index], step),
            );
            assert(after == stepped(positions, index, step, size, world));
        }
    }
}

proof fn moving_twice(instances: Seq<MacroInstance>, first: Seq<Position>, second: Seq<Position>)
    requires
        first.len() == instances.len(),
        second.len() == instances.len(),
    ensures
        moved_to(moved_to(instances, first), second) == moved_to(instances, second),
        positions_of(moved_to(instances, second)) == second,
{
    assert(moved_to(moved_to(instances, first), second) =~= moved_to(instances, second));
    assert(positions_of(moved_to(instances, second)) =~= second);
}

// ---------------------------------------------------------------------------
// What a walk is
// ---------------------------------------------------------------------------
impl<
    T: Fn(usize) -> bool,
    E: Fn(&PlacementMeasure, &PlacementMeasure) -> bool,
    A: Fn(usize, &PlacementMeasure, &PlacementMeasure, u64) -> bool,
> AnnealingRules<T, E, A> {
    /// Whether every question is answered.
    pub open spec fn valid(&self) -> bool {
        &&& forall|iteration: usize| #[trigger] call_requires(self.cooled, (iteration,))
        &&& forall|left: PlacementMeasure, right: PlacementMeasure| #[trigger]
            call_requires(self.cheaper, (&left, &right))
        &&& forall|iteration: usize, left: PlacementMeasure, right: PlacementMeasure, number: u64| #[trigger]
            call_requires(self.accept, (iteration, &left, &right, number))
    }

    /// What becomes of the best placement: another takes its place where it costs
    /// less, or where there is none.
    pub open spec fn is_recorded(
        &self,
        best: Best,
        positions: Seq<Position>,
        measure: PlacementMeasure,
        after: Best,
    ) -> bool {
        match best {
            None => after == Some((positions, measure)),
            Some(own) => exists|less: bool| #[trigger]
                call_ensures(self.cheaper, (&measure, &own.1), less) && after == (if less {
                    Some((positions, measure))
                } else {
                    best
                }),
        }
    }

    /// Whether bests were recorded: of placements without overlaps, and of all.
    pub open spec fn are_recorded(&self, before: WalkView, after: WalkView) -> bool {
        &&& if after.measure.overlapping_pairs == 0 {
            self.is_recorded(before.best_legal, after.positions, after.measure, after.best_legal)
        } else {
            after.best_legal == before.best_legal
        }
        &&& self.is_recorded(before.best_overall, after.positions, after.measure, after.best_overall)
    }

    /// Whether a move that was proposed is kept: where it does not cost more, or
    /// where a number that is drawn says so.
    pub open spec fn is_decided(
        &self,
        iteration: usize,
        current: PlacementMeasure,
        candidate: PlacementMeasure,
        state: u64,
        kept: bool,
        after: u64,
    ) -> bool {
        exists|worse: bool| #[trigger]
            call_ensures(self.cheaper, (&current, &candidate), worse) && if worse {
                after == next_number(state) && call_ensures(
                    self.accept,
                    (iteration, &current, &candidate, after),
                    kept,
                )
            } else {
                kept && after == state
            }
    }

    /// Whether one move leads from a placement to the next.
    pub open spec fn move_follows(
        &self,
        problem: PlacementProblem,
        plan: AnnealingPlan,
        iteration: usize,
        before: WalkView,
        after: WalkView,
    ) -> bool {
        let proposed = proposal(
            problem.macros@,
            problem.instances@,
            before.positions,
            plan.initial,
            plan.max_translate_step,
            before.state,
        );
        let drawn_state = drawn(
            before.state,
            proposal_draws(problem.macros@, problem.instances@, before.positions, plan.initial, before.state),
        );
        &&& proposed is Ok
        &&& measure_at(problem, plan, proposed->Ok_0) is Ok
        &&& self.move_is_taken(
            iteration,
            before,
            proposed->Ok_0,
            measure_at(problem, plan, proposed->Ok_0)->Ok_0,
            drawn_state,
            after,
        )
        &&& self.are_recorded(before, after)
    }

    /// Whether a placement is the one that was proposed, where it is kept, and
    /// else the one before.
    pub open spec fn move_is_taken(
        &self,
        iteration: usize,
        before: WalkView,
        positions: Seq<Position>,
        measure: PlacementMeasure,
        state: u64,
        after: WalkView,
    ) -> bool {
        exists|kept: bool| #[trigger]
            self.is_decided(iteration, before.measure, measure, state, kept, after.state) && if kept {
                after.positions == positions && after.measure == measure
            } else {
                after.positions == before.positions && after.measure == before.measure
            }
    }

    /// Whether a move of a run follows from the one before.
    pub open spec fn move_follows_at(
        &self,
        problem: PlacementProblem,
        plan: AnnealingPlan,
        iteration: usize,
        run: Seq<WalkView>,
        k: int,
    ) -> bool {
        self.move_follows(problem, plan, iteration, run[k - 1], run[k])
    }

    /// Whether a run is made of moves of one iteration.
    pub open spec fn is_move_run(
        &self,
        problem: PlacementProblem,
        plan: AnnealingPlan,
        iteration: usize,
        run: Seq<WalkView>,
    ) -> bool {
        &&& run.len() > 0
        &&& forall|k: int| 0 < k < run.len() ==> self.move_follows_at(problem, plan, iteration, run, k)
    }

    /// Whether the moves of one iteration lead from a placement to another.
    pub open spec fn iteration_follows(
        &self,
        problem: PlacementProblem,
        plan: AnnealingPlan,
        iteration: usize,
        before: WalkView,
        after: WalkView,
    ) -> bool {
        exists|run: Seq<WalkView>|
            {
                &&& #[trigger] self.is_move_run(problem, plan, iteration, run)
                &&& run.len() == plan.moves_per_temperature + 1
                &&& run[0] == before
                &&& run.last() == after
            }
    }

    /// Whether an iteration of a run follows from the one before.
    pub open spec fn iteration_follows_at(
        &self,
        problem: PlacementProblem,
        plan: AnnealingPlan,
        run: Seq<WalkView>,
        k: int,
    ) -> bool {
        &&& call_ensures(self.cooled, ((k - 1) as usize,), false)
        &&& self.iteration_follows(problem, plan, (k - 1) as usize, run[k - 1], run[k])
    }

    /// Whether a run is made of iterations that it was warm enough for.
    pub open spec fn is_iteration_run(
        &self,
        problem: PlacementProblem,
        plan: AnnealingPlan,
        run: Seq<WalkView>,
    ) -> bool {
        &&& 0 < run.len() <= plan.iterations + 1
        &&& forall|k: int| 0 < k < run.len() ==> self.iteration_follows_at(problem, plan, run, k)
    }

    /// Whether cooling down leads from a placement to another.
    pub open spec fn cooling_follows(
        &self,
        problem: PlacementProblem,
        plan: AnnealingPlan,
        before: WalkView,
        after: WalkView,
    ) -> bool {
        exists|run: Seq<WalkView>|
            {
                &&& #[trigger] self.is_iteration_run(problem, plan, run)
                &&& run[0] == before
                &&& run.last() == after
                &&& run.len() == plan.iterations + 1 || call_ensures(self.cooled, ((run.len() - 1) as usize,), true)
            }
    }

    /// Whether a restart of a run follows from the one before.
    pub open spec fn restart_follows_at(
        &self,
        problem: PlacementProblem,
        plan: AnnealingPlan,
        run: Seq<WalkView>,
        k: int,
    ) -> bool {
        self.cooling_follows(
            problem,
            plan,
            WalkView { state: restart_state(plan.seed, (k - 1) as u64), ..run[k - 1] },
            run[k],
        )
    }

    /// Whether a run is made of restarts.
    pub open spec fn is_restart_run(&self, problem: PlacementProblem, plan: AnnealingPlan, run: Seq<WalkView>) -> bool {
        &&& run.len() > 0
        &&& forall|k: int| 0 < k < run.len() ==> self.restart_follows_at(problem, plan, run, k)
    }

    /// Whether annealing leads from the initial placement to another.
    pub open spec fn is_annealed(
        &self,
        problem: PlacementProblem,
        plan: AnnealingPlan,
        initial: Seq<Position>,
        last: WalkView,
    ) -> bool {
        exists|run: Seq<WalkView>|
            {
                &&& #[trigger] self.is_restart_run(problem, plan, run)
                &&& run.len() == restart_count(plan.restarts) + 1
                &&& measure_at(problem, plan, initial) is Ok
                &&& is_start(initial, measure_at(problem, plan, initial)->Ok_0, run[0])
                &&& run.last() == last
            }
    }
}

/// What a placement is measured as.
pub open spec fn measure_at(problem: PlacementProblem, plan: AnnealingPlan, positions: Seq<Position>) -> Result<
    PlacementMeasure,
    PlacementErrorView,
> {
    measured(
        problem.macros@,
        problem.instances@,
        problem.nets@,
        moved_to(problem.instances@, positions),
        plan.initial.spacing,
        plan.initial.world,
    )
}

/// Whether a walk has not begun: its placement is the best, and the best legal
/// one where it has no overlaps.
pub open spec fn is_start(initial: Seq<Position>, measure: PlacementMeasure, first: WalkView) -> bool {
    &&& first.positions == initial
    &&& first.measure == measure
    &&& first.best_overall == Some((initial, measure))
    &&& first.best_legal == (if measure.overlapping_pairs == 0 {
        Some((initial, measure))
    } else {
        None
    })
}

/// How often annealing is begun.
pub open spec fn restart_count(restarts: usize) -> nat {
    if restarts < 1 {
        1
    } else {
        restarts as nat
    }
}

/// The state of the generator of a restart.
pub open spec fn restart_state(seed: u64, restart: u64) -> u64 {
    seed.wrapping_add(restart.wrapping_mul(RESTART_STEP)) | 1
}

/// The placement that annealing ends with, before what is in the way is moved.
pub open spec fn chosen_places(initial: Seq<Position>, last: WalkView) -> Seq<Position> {
    match last.best_legal {
        Some((positions, _)) => positions,
        None => match last.best_overall {
            Some((positions, _)) => positions,
            None => initial,
        },
    }
}

/// Whether a placement is legal.
pub open spec fn is_legal_at(problem: PlacementProblem, plan: AnnealingPlan, positions: Seq<Position>) -> bool {
    let placed = moved_to(problem.instances@, positions);
    &&& lists_overlaps(Seq::empty(), footprints(problem.macros@, placed, placed.len()))
    &&& lists_outside(Seq::empty(), problem.macros@, placed, plan.initial.world)
}

/// The placement that annealing ends with: the best one, repaired where it is not
/// legal, or the initial one where it cannot be repaired.
pub open spec fn final_places(
    problem: PlacementProblem,
    plan: AnnealingPlan,
    initial: Seq<Position>,
    last: WalkView,
) -> Seq<Position> {
    let chosen = chosen_places(initial, last);
    let sizes = sizes_of(problem.macros@, problem.instances@, problem.instances@.len())->Ok_0;
    let after = repaired(sizes, chosen, plan.initial.world, plan.initial.repair_iterations as nat);
    if is_legal_at(problem, plan, chosen) {
        chosen
    } else if repair_error(sizes, after, plan.initial.world) is None {
        after
    } else {
        initial
    }
}

/// Whether a solution is a placement with its wire length and legality.
pub open spec fn is_solution(
    problem: PlacementProblem,
    plan: AnnealingPlan,
    positions: Seq<Position>,
    solution: PlacementSolution,
) -> bool {
    let placed = moved_to(problem.instances@, positions);
    &&& positions.len() == problem.instances@.len()
    &&& solution.instances@ == placed
    &&& wire_length(problem.macros@, placed, problem.nets@, problem.nets@.len()) == Ok::<int, PlacementErrorView>(
        solution.wire_length as int,
    )
    &&& lists_overlaps(solution.legality.overlaps@, footprints(problem.macros@, placed, placed.len()))
    &&& lists_outside(solution.legality.out_of_bounds@, problem.macros@, placed, plan.initial.world)
}

/// Whether a solution has all instances of a problem inside the world.
pub open spec fn stays_inside(problem: PlacementProblem, plan: AnnealingPlan, solution: PlacementSolution) -> bool {
    let sizes = sizes_of(problem.macros@, problem.instances@, problem.instances@.len());
    &&& sizes is Ok
    &&& is_placed(solution.instances@, problem.instances@, sizes->Ok_0, plan.initial.world)
}

/// Whether an error is one of a placement inside the world: of a move of it, its
/// costs, or its wires.
spec fn is_walk_error(
    problem: PlacementProblem,
    plan: AnnealingPlan,
    sizes: Seq<DimSize>,
    error: PlacementErrorView,
) -> bool {
    exists|positions: Seq<Position>, state: u64| #[trigger]
        is_error_at(problem, plan, positions, state, error) && all_inside(sizes, positions, plan.initial.world)
}

/// Whether an error is one of a placement.
spec fn is_error_at(
    problem: PlacementProblem,
    plan: AnnealingPlan,
    positions: Seq<Position>,
    state: u64,
    error: PlacementErrorView,
) -> bool {
    let placed = moved_to(problem.instances@, positions);
    ||| proposal(
        problem.macros@,
        problem.instances@,
        positions,
        plan.initial,
        plan.max_translate_step,
        state,
    ) == Err::<Seq<Position>, PlacementErrorView>(error)
    ||| measure_at(problem, plan, positions) == Err::<PlacementMeasure, PlacementErrorView>(error)
    ||| wire_length(problem.macros@, placed, problem.nets@, problem.nets@.len()) == Err::<int, PlacementErrorView>(
        error,
    )
}

fn copy_instances(instances: &Vec<MacroInstance>) -> (copy: Vec<MacroInstance>)
    ensures
        copy@ == instances@,
{
    let positions = collect_positions(instances);
    let copy = move_to(instances, &positions);
    assert(copy@ =~= instances@);
    copy
}

/// What a walk needs to know of a problem.
spec fn is_sized(problem: PlacementProblem, sizes: Seq<DimSize>) -> bool {
    sizes_of(problem.macros@, problem.instances@, problem.instances@.len()) == Ok::<Seq<DimSize>, PlacementErrorView>(
        sizes,
    )
}

impl<
    T: Fn(usize) -> bool,
    E: Fn(&PlacementMeasure, &PlacementMeasure) -> bool,
    A: Fn(usize, &PlacementMeasure, &PlacementMeasure, u64) -> bool,
> AnnealingRules<T, E, A> {
    fn record(
        &self,
        best: Option<(Vec<MacroInstance>, PlacementMeasure)>,
        instances: &Vec<MacroInstance>,
        measure: &PlacementMeasure,
    ) -> (after: Option<(Vec<MacroInstance>, PlacementMeasure)>)
        requires
            self.valid(),
        ensures
            self.is_recorded(best_view(best), positions_of(instances@), *measure, best_view(after)),
            after == best || after is Some && (after->0).0@ == instances@,
    {
        match best {
            None => Some((copy_instances(instances), *measure)),
            Some((own, cost)) => {
                let cheaper = &self.cheaper;
                let less = cheaper(measure, &cost);
                assert(call_ensures(self.cheaper, (measure, &cost), less));
                if less {
                    Some((copy_instances(instances), *measure))
                } else {
                    Some((own, cost))
                }
            },
        }
    }

    fn walk_move(
        &self,
        problem: &PlacementProblem,
        plan: &AnnealingPlan,
        iteration: usize,
        walk: Walk,
        Ghost(sizes): Ghost<Seq<DimSize>>,
    ) -> (result: Result<Walk, PlacementError>)
        requires
            self.valid(),
            annealing_fits(*problem, *plan),
            is_sized(*problem, sizes),
            walk.holds(problem.instances@, sizes, plan.initial.world),
        ensures
            match result {
                Ok(next) => {
                    &&& self.move_follows(*problem, *plan, iteration, walk.by_places(), next.by_places())
                    &&& next.holds(problem.instances@, sizes, plan.initial.world)
                },
                Err(error) => is_walk_error(*problem, *plan, sizes, error@),
            },
    {
        let ghost before = walk.by_places();
        let ghost library = problem.instances@;
        let ghost total = library.len();
        let Walk { instances, measure, best_legal, best_overall, rng } = walk;
        let mut rng = rng;
        let count: usize = instances.len();
        assert(all_places_fit(*problem, *plan, sizes));
        assert(places_fit(*problem, *plan, sizes, before.positions));
        let proposed = propose_move(problem, &instances, &mut rng, &plan.initial, plan.max_translate_step);
        let candidate = match proposed {
            Err(error) => {
                assert(is_error_at(*problem, *plan, before.positions, before.state, error@));
                return Err(error);
            },
            Ok(candidate) => candidate,
        };
        let ghost wanted = proposal(
            problem.macros@,
            library,
            before.positions,
            plan.initial,
            plan.max_translate_step,
            before.state,
        )->Ok_0;
        proof {
            assert(count == total);
            proposal_stays_inside(
                problem.macros@,
                library,
                sizes,
                before.positions,
                plan.initial,
                plan.max_translate_step,
                before.state,
            );
            moving_twice(library, before.positions, wanted);
            assert(candidate@ == moved_to(library, wanted));
            assert(positions_of(candidate@) == wanted);
            assert(all_inside(sizes, wanted, plan.initial.world));
            assert(places_fit(*problem, *plan, sizes, wanted));
        }
        let cost = match placement_measure(problem, &candidate, plan.initial.spacing, plan.initial.world) {
            Err(error) => {
                assert(is_error_at(*problem, *plan, wanted, before.state, error@));
                return Err(error);
            },
            Ok(cost) => cost,
        };
        let ghost middle = rng.state;
        let cheaper = &self.cheaper;
        let worse = cheaper(&measure, &cost);
        let mut kept = true;
        if worse {
            let number: u64 = rng.next_u64();
            let accept = &self.accept;
            kept = accept(iteration, &measure, &cost, number);
        }
        assert(self.is_decided(iteration, before.measure, cost, middle, kept, rng.state)) by {
            assert(call_ensures(self.cheaper, (&before.measure, &cost), worse));
        }
        let ghost old_legal = best_legal;
        let ghost old_overall = best_overall;
        let (own, own_cost) = if kept {
            (candidate, cost)
        } else {
            (instances, measure)
        };
        let legal = if own_cost.overlapping_pairs == 0 {
            self.record(best_legal, &own, &own_cost)
        } else {
            best_legal
        };
        let overall = self.record(best_overall, &own, &own_cost);
        let next = Walk { instances: own, measure: own_cost, best_legal: legal, best_overall: overall, rng };
        proof {
            assert(is_placed(own@, library, sizes, plan.initial.world));
            assert(self.are_recorded(before, next.by_places()));
            assert(measure_at(*problem, *plan, wanted) == Ok::<PlacementMeasure, PlacementErrorView>(cost));
            assert(self.is_decided(iteration, before.measure, cost, middle, kept, next.by_places().state));
            assert(self.move_is_taken(iteration, before, wanted, cost, middle, next.by_places()));
            assert(self.move_follows(*problem, *plan, iteration, before, next.by_places()));
        }
        Ok(next)
    }

    fn walk_iteration(
        &self,
        problem: &PlacementProblem,
        plan: &AnnealingPlan,
        iteration: usize,
        walk: Walk,
        Ghost(sizes): Ghost<Seq<DimSize>>,
    ) -> (result: Result<Walk, PlacementError>)
        requires
            self.valid(),
            annealing_fits(*problem, *plan),
            is_sized(*problem, sizes),
            walk.holds(problem.instances@, sizes, plan.initial.world),
        ensures
            match result {
                Ok(next) => {
                    &&& self.iteration_follows(*problem, *plan, iteration, walk.by_places(), next.by_places())
                    &&& next.holds(problem.instances@, sizes, plan.initial.world)
                },
                Err(error) => is_walk_error(*problem, *plan, sizes, error@),
            },
    {
        let ghost first = walk.by_places();
        let ghost mut run = seq![first];
        let mut current = walk;
        let mut index: usize = 0;
        while index < plan.moves_per_temperature
            invariant
                index <= plan.moves_per_temperature,
                self.valid(),
                annealing_fits(*problem, *plan),
                is_sized(*problem, sizes),
                current.holds(problem.instances@, sizes, plan.initial.world),
                first == walk.by_places(),
                run.len() == index + 1,
                run[0] == first,
                run.last() == current.by_places(),
                self.is_move_run(*problem, *plan, iteration, run),
            decreases plan.moves_per_temperature - index,
        {
            match self.walk_move(problem, plan, iteration, current, Ghost(sizes)) {
                Err(error) => return Err(error),
                Ok(next) => {
                    current = next;
                    let ghost after = current.by_places();
                    proof {
                        let before = run;
                        run = run.push(after);
                        assert forall|k: int| 0 < k < run.len() implies self.move_follows_at(
                            *problem,
                            *plan,
                            iteration,
                            run,
                            k,
                        ) by {
                            assert(run[k - 1] == before[k - 1]);
                            if k < before.len() {
                                assert(self.move_follows_at(*problem, *plan, iteration, before, k));
                                assert(run[k] == before[k]);
                            }
                        }
                        assert(run[0] == before[0]);
                    }
                },
            }
            index += 1;
        }
        assert(self.is_move_run(*problem, *plan, iteration, run));
        assert(self.iteration_follows(*problem, *plan, iteration, first, current.by_places()));
        Ok(current)
    }

    fn walk_cooling(
        &self,
        problem: &PlacementProblem,
        plan: &AnnealingPlan,
        walk: Walk,
        Ghost(sizes): Ghost<Seq<DimSize>>,
    ) -> (result: Result<Walk, PlacementError>)
        requires
            self.valid(),
            annealing_fits(*problem, *plan),
            is_sized(*problem, sizes),
            walk.holds(problem.instances@, sizes, plan.initial.world),
        ensures
            match result {
                Ok(next) => {
                    &&& self.cooling_follows(*problem, *plan, walk.by_places(), next.by_places())
                    &&& next.holds(problem.instances@, sizes, plan.initial.world)
                },
                Err(error) => is_walk_error(*problem, *plan, sizes, error@),
            },
    {
        let ghost first = walk.by_places();
        let ghost mut run = seq![first];
        let mut current = walk;
        let mut cold = false;
        let mut index: usize = 0;
        while index < plan.iterations && !cold
            invariant
                index <= plan.iterations,
                self.valid(),
                annealing_fits(*problem, *plan),
                is_sized(*problem, sizes),
                current.holds(problem.instances@, sizes, plan.initial.world),
                first == walk.by_places(),
                run.len() == index + 1,
                run[0] == first,
                run.last() == current.by_places(),
                self.is_iteration_run(*problem, *plan, run),
                cold ==> call_ensures(self.cooled, (index,), true),
            decreases plan.iterations - index, (if cold { 0int } else { 1int }),
        {
            let cooled = &self.cooled;
            if cooled(index) {
                cold = true;
            } else {
                assert(call_ensures(self.cooled, (index,), false));
                match self.walk_iteration(problem, plan, index, current, Ghost(sizes)) {
                    Err(error) => return Err(error),
                    Ok(next) => {
                        current = next;
                        let ghost after = current.by_places();
                        proof {
                            let before = run;
                            run = run.push(after);
                            assert forall|k: int| 0 < k < run.len() implies self.iteration_follows_at(
                                *problem,
                                *plan,
                                run,
                                k,
                            ) by {
                                assert(run[k - 1] == before[k - 1]);
                                if k < before.len() {
                                    assert(self.iteration_follows_at(*problem, *plan, before, k));
                                    assert(run[k] == before[k]);
                                }
                            }
                            assert(run[0] == before[0]);
                        }
                    },
                }
                index += 1;
            }
        }
        assert(self.is_iteration_run(*problem, *plan, run));
        assert(self.cooling_follows(*problem, *plan, first, current.by_places()));
        Ok(current)
    }

    fn walk_restarts(
        &self,
        problem: &PlacementProblem,
        plan: &AnnealingPlan,
        walk: Walk,
        Ghost(sizes): Ghost<Seq<DimSize>>,
        Ghost(initial): Ghost<Seq<Position>>,
    ) -> (result: Result<Walk, PlacementError>)
        requires
            self.valid(),
            annealing_fits(*problem, *plan),
            is_sized(*problem, sizes),
            walk.holds(problem.instances@, sizes, plan.initial.world),
            measure_at(*problem, *plan, initial) is Ok,
            is_start(initial, measure_at(*problem, *plan, initial)->Ok_0, walk.by_places()),
        ensures
            match result {
                Ok(next) => {
                    &&& self.is_annealed(*problem, *plan, initial, next.by_places())
                    &&& next.holds(problem.instances@, sizes, plan.initial.world)
                },
                Err(error) => is_walk_error(*problem, *plan, sizes, error@),
            },
    {
        let ghost first = walk.by_places();
        let ghost mut run = seq![first];
        let mut current = walk;
        let restarts: usize = if plan.restarts < 1 {
            1
        } else {
            plan.restarts
        };
        let mut index: usize = 0;
        while index < restarts
            invariant
                index <= restarts,
                restarts == restart_count(plan.restarts),
                self.valid(),
                annealing_fits(*problem, *plan),
                is_sized(*problem, sizes),
                current.holds(problem.instances@, sizes, plan.initial.world),
                first == walk.by_places(),
                run.len() == index + 1,
                run[0] == first,
                run.last() == current.by_places(),
                self.is_restart_run(*problem, *plan, run),
            decreases restarts - index,
        {
            let number: u64 = index as u64;
            let seed: u64 = plan.seed.wrapping_add(number.wrapping_mul(RESTART_STEP));
            current.rng = DeterministicRng::new(seed);
            let ghost begun = current.by_places();
            assert(begun == (WalkView { state: restart_state(plan.seed, number), ..run.last() }));
            match self.walk_cooling(problem, plan, current, Ghost(sizes)) {
                Err(error) => return Err(error),
                Ok(next) => {
                    current = next;
                    let ghost after = current.by_places();
                    proof {
                        let before = run;
                        run = run.push(after);
                        assert forall|k: int| 0 < k < run.len() implies self.restart_follows_at(
                            *problem,
                            *plan,
                            run,
                            k,
                        ) by {
                            assert(run[k - 1] == before[k - 1]);
                            if k < before.len() {
                                assert(self.restart_follows_at(*problem, *plan, before, k));
                                assert(run[k] == before[k]);
                            } else {
                                assert(k - 1 == index);
                            }
                        }
                        assert(run[0] == before[0]);
                    }
                },
            }
            index += 1;
        }
        assert(self.is_restart_run(*problem, *plan, run));
        assert(self.is_annealed(*problem, *plan, initial, current.by_places()));
        Ok(current)
    }

    /// Whether a result is what annealing a problem comes to. It has an error where
    /// the initial placement has one, and only there.
    pub open spec fn is_placed_annealed(
        &self,
        problem: PlacementProblem,
        plan: AnnealingPlan,
        result: Result<PlacementSolution, PlacementError>,
    ) -> bool {
        match initial_positions(problem.macros@, problem.instances@, problem.nets@, plan.initial) {
            Err(expected) => result matches Err(error) && error@ == expected,
            Ok(initial) => {
                let placed = moved_to(problem.instances@, initial);
                match wire_length(problem.macros@, placed, problem.nets@, problem.nets@.len()) {
                    Err(expected) => result matches Err(error) && error@ == expected,
                    Ok(_) => result matches Ok(solution) && self.is_result(problem, plan, initial, solution),
                }
            },
        }
    }

    /// Whether a solution is what annealing from an initial placement ends with.
    pub open spec fn is_result(
        &self,
        problem: PlacementProblem,
        plan: AnnealingPlan,
        initial: Seq<Position>,
        solution: PlacementSolution,
    ) -> bool {
        exists|last: WalkView| #[trigger]
            self.is_annealed(problem, plan, initial, last) && is_solution(
                problem,
                plan,
                final_places(problem, plan, initial, last),
                solution,
            )
    }

    /// Anneals the initial placement of a problem. The best placement without
    /// overlaps is kept, and repaired where it is not legal.
    pub fn place_annealed(&self, problem: &PlacementProblem, plan: &AnnealingPlan) -> (result: Result<
        PlacementSolution,
        PlacementError,
    >)
        requires
            self.valid(),
            annealing_fits(*problem, *plan),
        ensures
            self.is_placed_annealed(*problem, *plan, result),
            result matches Ok(solution) ==> {
                &&& stays_inside(*problem, *plan, solution)
                &&& solution.legality.overlaps@.len() == 0
                &&& all_blocks_inside(*problem) ==> solution.legality.out_of_bounds@.len() == 0
            },
    {
        let ghost library = problem.instances@;
        let count: usize = problem.instances.len();
        let initial = match place_initial(problem, &plan.initial) {
            Err(error) => return Err(error),
            Ok(initial) => initial,
        };
        let ghost begun = initial_positions(problem.macros@, library, problem.nets@, plan.initial)->Ok_0;
        let ghost sizes = sizes_of(problem.macros@, library, library.len())->Ok_0;
        proof {
            initial_places_are_apart(problem.macros@, library, problem.nets@, plan.initial);
            moving_twice(library, begun, begun);
            assert(places_fit(*problem, *plan, sizes, begun));
            assert(is_sized(*problem, sizes));
            assert(is_placed(initial.instances@, library, sizes, plan.initial.world));
        }
        let measure = match placement_measure(
            problem,
            &initial.instances,
            plan.initial.spacing,
            plan.initial.world,
        ) {
            Err(error) => {
                proof {
                    assert(is_error_at(*problem, *plan, begun, 0, error@));
                    assert(is_walk_error(*problem, *plan, sizes, error@));
                    walk_has_no_error(*problem, *plan, sizes, begun, error@);
                }
                return Err(error);
            },
            Ok(measure) => measure,
        };
        let best_legal = if measure.overlapping_pairs == 0 {
            Some((copy_instances(&initial.instances), measure))
        } else {
            None
        };
        let best_overall = Some((copy_instances(&initial.instances), measure));
        let walk = Walk {
            instances: copy_instances(&initial.instances),
            measure,
            best_legal,
            best_overall,
            rng: DeterministicRng::new(plan.seed),
        };
        assert(is_start(begun, measure, walk.by_places()));
        let last = match self.walk_restarts(problem, plan, walk, Ghost(sizes), Ghost(begun)) {
            Err(error) => {
                proof {
                    walk_has_no_error(*problem, *plan, sizes, begun, error@);
                }
                return Err(error);
            },
            Ok(last) => last,
        };
        let ghost ended = last.by_places();
        let chosen = match last.best_legal {
            Some((own, _)) => own,
            None => match last.best_overall {
                Some((own, _)) => own,
                None => copy_instances(&initial.instances),
            },
        };
        assert(positions_of(chosen@) == chosen_places(begun, ended));
        let result = finish_annealing(problem, plan, chosen, &initial.instances, Ghost(sizes), Ghost(begun));
        proof {
            assert(self.is_annealed(*problem, *plan, begun, ended));
            if result is Ok {
                assert(self.is_result(*problem, *plan, begun, result->Ok_0));
                assert(library.len() == count);
                self.annealed_placement_has_no_overlaps(*problem, *plan, result->Ok_0);
                if all_blocks_inside(*problem) {
                    self.annealed_placement_is_legal(*problem, *plan, result->Ok_0);
                }
            } else {
                walk_has_no_error(*problem, *plan, sizes, begun, result->Err_0@);
            }
        }
        result
    }
}

/// Where the wires of one placement have no error, no walk meets one.
proof fn walk_has_no_error(
    problem: PlacementProblem,
    plan: AnnealingPlan,
    sizes: Seq<DimSize>,
    begun: Seq<Position>,
    error: PlacementErrorView,
)
    requires
        is_sized(problem, sizes),
        is_numbered(problem.instances@),
        problem.instances@.len() <= usize::MAX,
        wire_length(problem.macros@, moved_to(problem.instances@, begun), problem.nets@, problem.nets@.len()) is Ok,
    ensures
        !is_walk_error(problem, plan, sizes, error),
{
    let macros = problem.macros@;
    let library = problem.instances@;
    let nets = problem.nets@;
    sizes_are_sizes(macros, library, library.len());
    assert forall|positions: Seq<Position>, state: u64| #[trigger]
        is_error_at(problem, plan, positions, state, error) && all_inside(
            sizes,
            positions,
            plan.initial.world,
        ) implies false by {
        wires_fail_alike(macros, library, begun, positions, nets, nets.len());
        measure_is_known(macros, library, nets, positions, plan.initial.spacing, plan.initial.world);
        proposal_is_known(macros, library, positions, plan.initial, plan.max_translate_step, state);
    }
}

fn finish_annealing(
    problem: &PlacementProblem,
    plan: &AnnealingPlan,
    chosen: Vec<MacroInstance>,
    initial: &Vec<MacroInstance>,
    Ghost(sizes): Ghost<Seq<DimSize>>,
    Ghost(begun): Ghost<Seq<Position>>,
) -> (result: Result<PlacementSolution, PlacementError>)
    requires
        annealing_fits(*problem, *plan),
        is_sized(*problem, sizes),
        is_placed(chosen@, problem.instances@, sizes, plan.initial.world),
        is_placed(initial@, problem.instances@, sizes, plan.initial.world),
        positions_of(initial@) == begun,
    ensures
        match result {
            Ok(solution) => {
                &&& stays_inside(*problem, *plan, solution)
                &&& forall|last: WalkView|
                    chosen_places(begun, last) == positions_of(chosen@) ==> is_solution(
                        *problem,
                        *plan,
                        #[trigger] final_places(*problem, *plan, begun, last),
                        solution,
                    )
            },
            Err(error) => is_walk_error(*problem, *plan, sizes, error@),
        },
{
    let ghost library = problem.instances@;
    let ghost world = plan.initial.world;
    let ghost best = positions_of(chosen@);
    let count: usize = chosen.len();
    assert(all_places_fit(*problem, *plan, sizes));
    assert(places_fit(*problem, *plan, sizes, best));
    let legality = legality_of(&problem.macros, &chosen, plan.initial.world);
    let legal = legality.is_legal();
    proof {
        legality_is_told(*problem, *plan, best, legality);
    }
    let mut instances = chosen;
    if !legal {
        let repair = repair_overlaps(problem, &mut instances, &plan.initial);
        let ghost after = repaired(sizes, best, world, plan.initial.repair_iterations as nat);
        proof {
            repair_stays_inside(sizes, best, world, plan.initial.repair_iterations as nat);
            assert(after.len() == library.len());
            moving_twice(library, best, after);
        }
        if repair.is_err() {
            instances = copy_instances(initial);
        }
    }
    let ghost places = positions_of(instances@);
    proof {
        assert(is_placed(instances@, library, sizes, world));
        assert(places_fit(*problem, *plan, sizes, places));
        assert forall|last: WalkView| chosen_places(begun, last) == best implies #[trigger] final_places(
            *problem,
            *plan,
            begun,
            last,
        ) == places by {}
    }
    let length: usize = match wire_length_of(&problem.macros, &instances, &problem.nets) {
        Err(error) => {
            assert(is_error_at(*problem, *plan, places, 0, error@));
            return Err(error);
        },
        Ok(length) => length,
    };
    let legality = legality_of(&problem.macros, &instances, plan.initial.world);
    Ok(PlacementSolution { instances, wire_length: length, legality })
}

proof fn legality_is_told(
    problem: PlacementProblem,
    plan: AnnealingPlan,
    positions: Seq<Position>,
    legality: PlacementLegality,
)
    requires
        ({
            let placed = moved_to(problem.instances@, positions);
            &&& lists_overlaps(legality.overlaps@, footprints(problem.macros@, placed, placed.len()))
            &&& lists_outside(legality.out_of_bounds@, problem.macros@, placed, plan.initial.world)
        }),
    ensures
        is_legal_at(problem, plan, positions) == (legality.overlaps@.len() == 0 && legality.out_of_bounds@.len() == 0),
{
    let none_pairs = Seq::<(usize, usize)>::empty();
    let none_cells = Seq::<(usize, Position)>::empty();
    if legality.overlaps@.len() == 0 {
        assert(legality.overlaps@ =~= none_pairs);
    } else {
        assert(legality.overlaps@.contains(legality.overlaps@[0]));
        assert(!none_pairs.contains(legality.overlaps@[0]));
    }
    if legality.out_of_bounds@.len() == 0 {
        assert(legality.out_of_bounds@ =~= none_cells);
    } else {
        assert(legality.out_of_bounds@.contains(legality.out_of_bounds@[0]));
        assert(!none_cells.contains(legality.out_of_bounds@[0]));
    }
}

} // verus!
