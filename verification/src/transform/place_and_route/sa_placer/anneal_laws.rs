//! What annealing promises: a placement without conflicts, that costs no more than
//! the one it began with, and the same one every time.

use super::anneal::{
    annealing_fits, chosen_places, final_places, is_legal_at, is_solution, is_start, measure_at, places_fit,
    proposal_stays_inside, restart_count, restart_state, stays_inside, AnnealingPlan, AnnealingRules, Best, WalkView,
};
use super::initial::{has_template, initial_positions, moved_to, sizes_are_sizes, sizes_of, PlacementSolution};
use super::legal::{
    all_inside, blocks_inside, blocks_stay_inside, boxes_stay_apart, footprints_stay_apart, initial_places_are_apart,
};
use super::measure::{overlap_set, PlacementMeasure};
use super::repair::repaired;
use super::seed::{is_numbered, positions_of, size_of_instance, stand_apart};
use crate::transform::place_and_route::placement_error::PlacementErrorView;
use crate::transform::place_and_route::placement_problem::{
    footprints, is_overlap, lists_overlaps, template_of, PlacementProblem,
};
use crate::world::position::{DimSize, Position};
use vstd::prelude::*;

verus! {

/// Whether the blocks of every macro that is placed stand inside its box.
pub open spec fn all_blocks_inside(problem: PlacementProblem) -> bool {
    forall|i: int|
        0 <= i < problem.instances@.len() && #[trigger] has_template(problem.macros@, problem.instances@, i)
            ==> blocks_inside(template_of(problem.macros@, problem.instances@, i as usize)->Ok_0)
}

impl<
    T: Fn(usize) -> bool,
    E: Fn(&PlacementMeasure, &PlacementMeasure) -> bool,
    A: Fn(usize, &PlacementMeasure, &PlacementMeasure, u64) -> bool,
> AnnealingRules<T, E, A> {
    /// No footprints of an annealed placement meet, and the boxes of its macros
    /// stand apart.
    pub proof fn annealed_placement_has_no_overlaps(
        &self,
        problem: PlacementProblem,
        plan: AnnealingPlan,
        solution: PlacementSolution,
    )
        requires
            annealing_fits(problem, plan),
            problem.instances@.len() <= usize::MAX,
            self.is_placed_annealed(problem, plan, Ok(solution)),
            stays_inside(problem, plan, solution),
        ensures
            solution.legality.overlaps@.len() == 0,
            forall|i: int, j: int|
                0 <= i < j < solution.instances@.len() ==> #[trigger] stand_apart(
                    solution.instances@[i].position,
                    size_of_instance(problem.macros@, problem.instances@, i),
                    solution.instances@[j].position,
                    size_of_instance(problem.macros@, problem.instances@, j),
                ),
    {
        let macros = problem.macros@;
        let library = problem.instances@;
        let world = plan.initial.world;
        let initial = initial_positions(macros, library, problem.nets@, plan.initial)->Ok_0;
        let sizes = sizes_of(macros, library, library.len())->Ok_0;
        let last = choose|last: WalkView| #[trigger]
            self.is_annealed(problem, plan, initial, last) && is_solution(
                problem,
                plan,
                final_places(problem, plan, initial, last),
                solution,
            );
        let places = final_places(problem, plan, initial, last);
        let placed = moved_to(library, places);
        let pairs = solution.legality.overlaps@;
        let list = footprints(macros, placed, placed.len());
        assert(positions_of(placed) =~= places);
        sizes_are_sizes(macros, library, library.len());
        if is_legal_at(problem, plan, chosen_places(initial, last)) {
            assert forall|i: int, j: int, pair: (usize, usize)| !(#[trigger] is_overlap(list, i, j, pair)) by {
                assert(!Seq::<(usize, usize)>::empty().contains(pair));
            }
        } else {
            initial_places_are_apart(macros, library, problem.nets@, plan.initial);
            footprints_stay_apart(macros, library, places, world);
        }
        if pairs.len() > 0 {
            assert(pairs.contains(pairs[0]));
        }
        boxes_stay_apart(macros, library, places, world);
        assert forall|i: int, j: int| 0 <= i < j < solution.instances@.len() implies #[trigger] stand_apart(
            solution.instances@[i].position,
            size_of_instance(macros, library, i),
            solution.instances@[j].position,
            size_of_instance(macros, library, j),
        ) by {
            assert(stand_apart(places[i], sizes[i], places[j], sizes[j]));
        }
    }

    /// An annealed placement of macros whose blocks stand inside their boxes has no
    /// conflict: no footprints that meet, and no block outside the world.
    pub proof fn annealed_placement_is_legal(
        &self,
        problem: PlacementProblem,
        plan: AnnealingPlan,
        solution: PlacementSolution,
    )
        requires
            annealing_fits(problem, plan),
            problem.instances@.len() <= usize::MAX,
            all_blocks_inside(problem),
            self.is_placed_annealed(problem, plan, Ok(solution)),
            stays_inside(problem, plan, solution),
        ensures
            solution.legality.overlaps@.len() == 0,
            solution.legality.out_of_bounds@.len() == 0,
    {
        let macros = problem.macros@;
        let library = problem.instances@;
        let initial = initial_positions(macros, library, problem.nets@, plan.initial)->Ok_0;
        let last = choose|last: WalkView| #[trigger]
            self.is_annealed(problem, plan, initial, last) && is_solution(
                problem,
                plan,
                final_places(problem, plan, initial, last),
                solution,
            );
        let places = final_places(problem, plan, initial, last);
        let cells = solution.legality.out_of_bounds@;
        self.annealed_placement_has_no_overlaps(problem, plan, solution);
        assert(positions_of(moved_to(library, places)) =~= places);
        blocks_stay_inside(macros, library, places, plan.initial.world);
        if cells.len() > 0 {
            assert(cells.contains(cells[0]));
        }
    }

    /// Whether the rules answer the same question the same way.
    pub open spec fn answer_alike(&self) -> bool {
        &&& forall|iteration: usize, left: bool, right: bool|
            #![trigger call_ensures(self.cooled, (iteration,), left), call_ensures(self.cooled, (iteration,), right)]
            call_ensures(self.cooled, (iteration,), left) && call_ensures(self.cooled, (iteration,), right) ==> left
                == right
        &&& forall|first: PlacementMeasure, second: PlacementMeasure, left: bool, right: bool|
            #![trigger call_ensures(self.cheaper, (&first, &second), left), call_ensures(self.cheaper, (&first, &second), right)]
            call_ensures(self.cheaper, (&first, &second), left) && call_ensures(self.cheaper, (&first, &second), right)
                ==> left == right
        &&& forall|
            iteration: usize,
            first: PlacementMeasure,
            second: PlacementMeasure,
            number: u64,
            left: bool,
            right: bool,
        |
            #![trigger call_ensures(self.accept, (iteration, &first, &second, number), left), call_ensures(self.accept, (iteration, &first, &second, number), right)]
            call_ensures(self.accept, (iteration, &first, &second, number), left) && call_ensures(
                self.accept,
                (iteration, &first, &second, number),
                right,
            ) ==> left == right
    }

    proof fn record_is_unique(
        &self,
        best: Best,
        positions: Seq<Position>,
        measure: PlacementMeasure,
        left: Best,
        right: Best,
    )
        requires
            self.answer_alike(),
            self.is_recorded(best, positions, measure, left),
            self.is_recorded(best, positions, measure, right),
        ensures
            left == right,
    {
        if let Some(own) = best {
            let left_less = choose|less: bool| #[trigger]
                call_ensures(self.cheaper, (&measure, &own.1), less) && left == (if less {
                    Some((positions, measure))
                } else {
                    best
                });
            let right_less = choose|less: bool| #[trigger]
                call_ensures(self.cheaper, (&measure, &own.1), less) && right == (if less {
                    Some((positions, measure))
                } else {
                    best
                });
            assert(left_less == right_less);
        }
    }

    proof fn move_is_unique(
        &self,
        problem: PlacementProblem,
        plan: AnnealingPlan,
        iteration: usize,
        before: WalkView,
        left: WalkView,
        right: WalkView,
    )
        requires
            self.answer_alike(),
            self.move_follows(problem, plan, iteration, before, left),
            self.move_follows(problem, plan, iteration, before, right),
        ensures
            left == right,
    {
        assert(left.positions == right.positions && left.measure == right.measure && left.state == right.state);
        if left.measure.overlapping_pairs == 0 {
            self.record_is_unique(
                before.best_legal,
                left.positions,
                left.measure,
                left.best_legal,
                right.best_legal,
            );
        }
        self.record_is_unique(
            before.best_overall,
            left.positions,
            left.measure,
            left.best_overall,
            right.best_overall,
        );
    }

    proof fn moves_are_unique(
        &self,
        problem: PlacementProblem,
        plan: AnnealingPlan,
        iteration: usize,
        left: Seq<WalkView>,
        right: Seq<WalkView>,
        count: int,
    )
        requires
            self.answer_alike(),
            self.is_move_run(problem, plan, iteration, left),
            self.is_move_run(problem, plan, iteration, right),
            left[0] == right[0],
            0 <= count < left.len(),
            count < right.len(),
        ensures
            left[count] == right[count],
        decreases count,
    {
        if count > 0 {
            self.moves_are_unique(problem, plan, iteration, left, right, count - 1);
            assert(self.move_follows_at(problem, plan, iteration, left, count));
            assert(self.move_follows_at(problem, plan, iteration, right, count));
            self.move_is_unique(problem, plan, iteration, left[count - 1], left[count], right[count]);
        }
    }

    proof fn iteration_is_unique(
        &self,
        problem: PlacementProblem,
        plan: AnnealingPlan,
        iteration: usize,
        before: WalkView,
        left: WalkView,
        right: WalkView,
    )
        requires
            self.answer_alike(),
            self.iteration_follows(problem, plan, iteration, before, left),
            self.iteration_follows(problem, plan, iteration, before, right),
        ensures
            left == right,
    {
        let first = choose|run: Seq<WalkView>|
            {
                &&& #[trigger] self.is_move_run(problem, plan, iteration, run)
                &&& run.len() == plan.moves_per_temperature + 1
                &&& run[0] == before
                &&& run.last() == left
            };
        let second = choose|run: Seq<WalkView>|
            {
                &&& #[trigger] self.is_move_run(problem, plan, iteration, run)
                &&& run.len() == plan.moves_per_temperature + 1
                &&& run[0] == before
                &&& run.last() == right
            };
        self.moves_are_unique(problem, plan, iteration, first, second, first.len() - 1);
    }

    proof fn iterations_are_unique(
        &self,
        problem: PlacementProblem,
        plan: AnnealingPlan,
        left: Seq<WalkView>,
        right: Seq<WalkView>,
        count: int,
    )
        requires
            self.answer_alike(),
            self.is_iteration_run(problem, plan, left),
            self.is_iteration_run(problem, plan, right),
            left[0] == right[0],
            0 <= count < left.len(),
            count < right.len(),
        ensures
            left[count] == right[count],
        decreases count,
    {
        if count > 0 {
            self.iterations_are_unique(problem, plan, left, right, count - 1);
            assert(self.iteration_follows_at(problem, plan, left, count));
            assert(self.iteration_follows_at(problem, plan, right, count));
            self.iteration_is_unique(
                problem,
                plan,
                (count - 1) as usize,
                left[count - 1],
                left[count],
                right[count],
            );
        }
    }

    proof fn cooling_is_unique(
        &self,
        problem: PlacementProblem,
        plan: AnnealingPlan,
        before: WalkView,
        left: WalkView,
        right: WalkView,
    )
        requires
            self.answer_alike(),
            self.cooling_follows(problem, plan, before, left),
            self.cooling_follows(problem, plan, before, right),
        ensures
            left == right,
    {
        let first = choose|run: Seq<WalkView>|
            {
                &&& #[trigger] self.is_iteration_run(problem, plan, run)
                &&& run[0] == before
                &&& run.last() == left
                &&& run.len() == plan.iterations + 1 || call_ensures(self.cooled, ((run.len() - 1) as usize,), true)
            };
        let second = choose|run: Seq<WalkView>|
            {
                &&& #[trigger] self.is_iteration_run(problem, plan, run)
                &&& run[0] == before
                &&& run.last() == right
                &&& run.len() == plan.iterations + 1 || call_ensures(self.cooled, ((run.len() - 1) as usize,), true)
            };
        if first.len() < second.len() {
            assert(self.iteration_follows_at(problem, plan, second, first.len() as int));
        }
        if second.len() < first.len() {
            assert(self.iteration_follows_at(problem, plan, first, second.len() as int));
        }
        self.iterations_are_unique(problem, plan, first, second, first.len() - 1);
    }

    proof fn restarts_are_unique(
        &self,
        problem: PlacementProblem,
        plan: AnnealingPlan,
        left: Seq<WalkView>,
        right: Seq<WalkView>,
        count: int,
    )
        requires
            self.answer_alike(),
            self.is_restart_run(problem, plan, left),
            self.is_restart_run(problem, plan, right),
            left[0].positions == right[0].positions,
            left[0].measure == right[0].measure,
            left[0].best_legal == right[0].best_legal,
            left[0].best_overall == right[0].best_overall,
            1 <= count < left.len(),
            count < right.len(),
        ensures
            left[count] == right[count],
        decreases count,
    {
        if count > 1 {
            self.restarts_are_unique(problem, plan, left, right, count - 1);
        }
        assert(self.restart_follows_at(problem, plan, left, count));
        assert(self.restart_follows_at(problem, plan, right, count));
        let state = restart_state(plan.seed, (count - 1) as u64);
        let before = WalkView { state, ..left[count - 1] };
        assert(before == (WalkView { state, ..right[count - 1] }));
        self.cooling_is_unique(problem, plan, before, left[count], right[count]);
    }

    proof fn annealing_is_unique(
        &self,
        problem: PlacementProblem,
        plan: AnnealingPlan,
        initial: Seq<Position>,
        left: WalkView,
        right: WalkView,
    )
        requires
            self.answer_alike(),
            self.is_annealed(problem, plan, initial, left),
            self.is_annealed(problem, plan, initial, right),
        ensures
            left == right,
    {
        let first = choose|run: Seq<WalkView>|
            {
                &&& #[trigger] self.is_restart_run(problem, plan, run)
                &&& run.len() == restart_count(plan.restarts) + 1
                &&& measure_at(problem, plan, initial) is Ok
                &&& is_start(initial, measure_at(problem, plan, initial)->Ok_0, run[0])
                &&& run.last() == left
            };
        let second = choose|run: Seq<WalkView>|
            {
                &&& #[trigger] self.is_restart_run(problem, plan, run)
                &&& run.len() == restart_count(plan.restarts) + 1
                &&& measure_at(problem, plan, initial) is Ok
                &&& is_start(initial, measure_at(problem, plan, initial)->Ok_0, run[0])
                &&& run.last() == right
            };
        self.restarts_are_unique(problem, plan, first, second, first.len() - 1);
    }

    /// Annealing the same problem twice, by rules that answer the same question the
    /// same way, gives the same placement.
    pub proof fn annealing_is_deterministic(
        &self,
        problem: PlacementProblem,
        plan: AnnealingPlan,
        left: PlacementSolution,
        right: PlacementSolution,
    )
        requires
            self.answer_alike(),
            self.is_placed_annealed(problem, plan, Ok(left)),
            self.is_placed_annealed(problem, plan, Ok(right)),
        ensures
            left.instances@ == right.instances@,
            left.wire_length == right.wire_length,
    {
        let initial = initial_positions(
            problem.macros@,
            problem.instances@,
            problem.nets@,
            plan.initial,
        )->Ok_0;
        let first = choose|last: WalkView| #[trigger]
            self.is_annealed(problem, plan, initial, last) && is_solution(
                problem,
                plan,
                final_places(problem, plan, initial, last),
                left,
            );
        let second = choose|last: WalkView| #[trigger]
            self.is_annealed(problem, plan, initial, last) && is_solution(
                problem,
                plan,
                final_places(problem, plan, initial, last),
                right,
            );
        self.annealing_is_unique(problem, plan, initial, first, second);
    }
}

// ---------------------------------------------------------------------------
// Costs
// ---------------------------------------------------------------------------
proof fn row_is_bounded(pairs: Set<(usize, usize)>, first: usize, bound: nat)
    requires
        forall|pair: (usize, usize)| #[trigger] pairs.contains(pair) ==> pair.0 == first && pair.1 < bound,
        bound <= usize::MAX,
    ensures
        pairs.finite(),
        pairs.len() <= bound,
    decreases bound,
{
    if bound == 0 {
        assert(pairs =~= Set::empty());
    } else {
        let top = (first, (bound - 1) as usize);
        let rest = pairs.remove(top);
        row_is_bounded(rest, first, (bound - 1) as nat);
        if pairs.contains(top) {
            assert(pairs =~= rest.insert(top));
        } else {
            assert(pairs =~= rest);
        }
    }
}

/// There are no more pairs of numbers below a bound than its square.
proof fn pairs_are_bounded(pairs: Set<(usize, usize)>, rows: nat, bound: nat)
    requires
        forall|pair: (usize, usize)| #[trigger] pairs.contains(pair) ==> pair.0 < rows && pair.1 < bound,
        rows <= usize::MAX,
        bound <= usize::MAX,
    ensures
        pairs.finite(),
        pairs.len() <= rows * bound,
    decreases rows,
{
    if rows == 0 {
        assert(pairs =~= Set::empty());
    } else {
        let first = (rows - 1) as usize;
        let row = pairs.filter(|pair: (usize, usize)| pair.0 == first);
        let rest = pairs.filter(|pair: (usize, usize)| pair.0 != first);
        row_is_bounded(row, first, bound);
        pairs_are_bounded(rest, (rows - 1) as nat, bound);
        assert(pairs =~= row.union(rest));
        vstd::set_lib::lemma_len_union(row, rest);
        assert(rows * bound == (rows - 1) * bound + bound) by (nonlinear_arith);
    }
}

/// A placement in which no pairs are counted has no footprints that meet.
proof fn uncounted_is_apart(problem: PlacementProblem, plan: AnnealingPlan, positions: Seq<Position>)
    requires
        is_numbered(problem.instances@),
        problem.instances@.len() * problem.instances@.len() <= usize::MAX,
        problem.instances@.len() <= usize::MAX,
        measure_at(problem, plan, positions) is Ok,
        measure_at(problem, plan, positions)->Ok_0.overlapping_pairs == 0,
    ensures
        ({
            let placed = moved_to(problem.instances@, positions);
            lists_overlaps(Seq::empty(), footprints(problem.macros@, placed, placed.len()))
        }),
{
    let count = problem.instances@.len();
    let placed = moved_to(problem.instances@, positions);
    let list = footprints(problem.macros@, placed, placed.len());
    let pairs = overlap_set(list);
    footprints_are_numbered(problem, positions, count);
    assert forall|pair: (usize, usize)| #[trigger] pairs.contains(pair) implies pair.0 < count && pair.1 < count by {
        let (i, j) = choose|i: int, j: int| #[trigger] is_overlap(list, i, j, pair);
        assert(list[i].id < count);
        assert(list[j].id < count);
    }
    pairs_are_bounded(pairs, count, count);
    assert(pairs.len() == 0);
    let none = Seq::<(usize, usize)>::empty();
    assert forall|pair: (usize, usize)| #[trigger] none.contains(pair) <==> exists|i: int, j: int| #[trigger]
        is_overlap(list, i, j, pair) by {
        if exists|i: int, j: int| #[trigger] is_overlap(list, i, j, pair) {
            assert(pairs.contains(pair));
            assert(pairs.len() > 0) by {
                if pairs.len() == 0 {
                    pairs.lemma_len0_is_empty();
                }
            }
        }
    }
}

proof fn footprints_are_numbered(problem: PlacementProblem, positions: Seq<Position>, count: nat)
    requires
        is_numbered(problem.instances@),
        problem.instances@.len() <= usize::MAX,
        count <= problem.instances@.len(),
    ensures
        forall|i: int|
            0 <= i < footprints(problem.macros@, moved_to(problem.instances@, positions), count).len() ==> (
            #[trigger] footprints(problem.macros@, moved_to(problem.instances@, positions), count)[i]).id < count,
    decreases count,
{
    if count > 0 {
        footprints_are_numbered(problem, positions, (count - 1) as nat);
        assert(problem.instances@[count - 1].id == count - 1);
        let placed = moved_to(problem.instances@, positions);
        let rest = footprints(problem.macros@, placed, (count - 1) as nat);
        let list = footprints(problem.macros@, placed, count);
        assert forall|i: int| 0 <= i < list.len() implies (#[trigger] list[i]).id < count by {
            if i < rest.len() {
                assert(list[i] == rest[i]);
            }
        }
    }
}

/// Whether a best placement is measured as it says, stands inside the world
/// without overlaps, and costs no more than another.
spec fn is_no_dearer(
    cost: spec_fn(PlacementMeasure) -> int,
    problem: PlacementProblem,
    plan: AnnealingPlan,
    sizes: Seq<DimSize>,
    start: PlacementMeasure,
    best: Best,
) -> bool {
    match best {
        Some((positions, measure)) => {
            &&& measure_at(problem, plan, positions) == Ok::<PlacementMeasure, PlacementErrorView>(measure)
            &&& all_inside(sizes, positions, plan.initial.world)
            &&& measure.overlapping_pairs == 0
            &&& cost(measure) <= cost(start)
        },
        None => false,
    }
}

spec fn fares_well(
    cost: spec_fn(PlacementMeasure) -> int,
    problem: PlacementProblem,
    plan: AnnealingPlan,
    sizes: Seq<DimSize>,
    start: PlacementMeasure,
    walk: WalkView,
) -> bool {
    &&& measure_at(problem, plan, walk.positions) == Ok::<PlacementMeasure, PlacementErrorView>(walk.measure)
    &&& all_inside(sizes, walk.positions, plan.initial.world)
    &&& is_no_dearer(cost, problem, plan, sizes, start, walk.best_legal)
}

impl<
    T: Fn(usize) -> bool,
    E: Fn(&PlacementMeasure, &PlacementMeasure) -> bool,
    A: Fn(usize, &PlacementMeasure, &PlacementMeasure, u64) -> bool,
> AnnealingRules<T, E, A> {
    /// Whether placements are compared by a cost.
    pub open spec fn compares_by(&self, cost: spec_fn(PlacementMeasure) -> int) -> bool {
        forall|left: PlacementMeasure, right: PlacementMeasure, less: bool| #[trigger]
            call_ensures(self.cheaper, (&left, &right), less) ==> less == (cost(left) < cost(right))
    }

    proof fn move_fares_well(
        &self,
        cost: spec_fn(PlacementMeasure) -> int,
        problem: PlacementProblem,
        plan: AnnealingPlan,
        sizes: Seq<DimSize>,
        start: PlacementMeasure,
        iteration: usize,
        before: WalkView,
        after: WalkView,
    )
        requires
            self.compares_by(cost),
            sizes_of(problem.macros@, problem.instances@, problem.instances@.len()) == Ok::<
                Seq<DimSize>,
                PlacementErrorView,
            >(sizes),
            problem.instances@.len() <= usize::MAX,
            self.move_follows(problem, plan, iteration, before, after),
            fares_well(cost, problem, plan, sizes, start, before),
        ensures
            fares_well(cost, problem, plan, sizes, start, after),
    {
        sizes_are_sizes(problem.macros@, problem.instances@, problem.instances@.len());
        proposal_stays_inside(
            problem.macros@,
            problem.instances@,
            sizes,
            before.positions,
            plan.initial,
            plan.max_translate_step,
            before.state,
        );
        if after.measure.overlapping_pairs == 0 {
            let own = before.best_legal->0;
            let less = choose|less: bool| #[trigger]
                call_ensures(self.cheaper, (&after.measure, &own.1), less) && after.best_legal == (if less {
                    Some((after.positions, after.measure))
                } else {
                    before.best_legal
                });
            assert(less == (cost(after.measure) < cost(own.1)));
        }
    }

    proof fn moves_fare_well(
        &self,
        cost: spec_fn(PlacementMeasure) -> int,
        problem: PlacementProblem,
        plan: AnnealingPlan,
        sizes: Seq<DimSize>,
        start: PlacementMeasure,
        iteration: usize,
        run: Seq<WalkView>,
        count: int,
    )
        requires
            self.compares_by(cost),
            sizes_of(problem.macros@, problem.instances@, problem.instances@.len()) == Ok::<
                Seq<DimSize>,
                PlacementErrorView,
            >(sizes),
            problem.instances@.len() <= usize::MAX,
            self.is_move_run(problem, plan, iteration, run),
            fares_well(cost, problem, plan, sizes, start, run[0]),
            0 <= count < run.len(),
        ensures
            fares_well(cost, problem, plan, sizes, start, run[count]),
        decreases count,
    {
        if count > 0 {
            self.moves_fare_well(cost, problem, plan, sizes, start, iteration, run, count - 1);
            assert(self.move_follows_at(problem, plan, iteration, run, count));
            self.move_fares_well(cost, problem, plan, sizes, start, iteration, run[count - 1], run[count]);
        }
    }

    proof fn iterations_fare_well(
        &self,
        cost: spec_fn(PlacementMeasure) -> int,
        problem: PlacementProblem,
        plan: AnnealingPlan,
        sizes: Seq<DimSize>,
        start: PlacementMeasure,
        run: Seq<WalkView>,
        count: int,
    )
        requires
            self.compares_by(cost),
            sizes_of(problem.macros@, problem.instances@, problem.instances@.len()) == Ok::<
                Seq<DimSize>,
                PlacementErrorView,
            >(sizes),
            problem.instances@.len() <= usize::MAX,
            self.is_iteration_run(problem, plan, run),
            fares_well(cost, problem, plan, sizes, start, run[0]),
            0 <= count < run.len(),
        ensures
            fares_well(cost, problem, plan, sizes, start, run[count]),
        decreases count,
    {
        if count > 0 {
            self.iterations_fare_well(cost, problem, plan, sizes, start, run, count - 1);
            assert(self.iteration_follows_at(problem, plan, run, count));
            let iteration = (count - 1) as usize;
            let moves = choose|moves: Seq<WalkView>|
                {
                    &&& #[trigger] self.is_move_run(problem, plan, iteration, moves)
                    &&& moves.len() == plan.moves_per_temperature + 1
                    &&& moves[0] == run[count - 1]
                    &&& moves.last() == run[count]
                };
            self.moves_fare_well(cost, problem, plan, sizes, start, iteration, moves, moves.len() - 1);
        }
    }

    proof fn restarts_fare_well(
        &self,
        cost: spec_fn(PlacementMeasure) -> int,
        problem: PlacementProblem,
        plan: AnnealingPlan,
        sizes: Seq<DimSize>,
        start: PlacementMeasure,
        run: Seq<WalkView>,
        count: int,
    )
        requires
            self.compares_by(cost),
            sizes_of(problem.macros@, problem.instances@, problem.instances@.len()) == Ok::<
                Seq<DimSize>,
                PlacementErrorView,
            >(sizes),
            problem.instances@.len() <= usize::MAX,
            self.is_restart_run(problem, plan, run),
            fares_well(cost, problem, plan, sizes, start, run[0]),
            0 <= count < run.len(),
        ensures
            fares_well(cost, problem, plan, sizes, start, run[count]),
        decreases count,
    {
        if count > 0 {
            self.restarts_fare_well(cost, problem, plan, sizes, start, run, count - 1);
            assert(self.restart_follows_at(problem, plan, run, count));
            let before = WalkView { state: restart_state(plan.seed, (count - 1) as u64), ..run[count - 1] };
            let cooling = choose|cooling: Seq<WalkView>|
                {
                    &&& #[trigger] self.is_iteration_run(problem, plan, cooling)
                    &&& cooling[0] == before
                    &&& cooling.last() == run[count]
                    &&& cooling.len() == plan.iterations + 1 || call_ensures(
                        self.cooled,
                        ((cooling.len() - 1) as usize,),
                        true,
                    )
                };
            self.iterations_fare_well(cost, problem, plan, sizes, start, cooling, cooling.len() - 1);
        }
    }

    /// Annealing keeps or improves the cost: where placements are compared by a cost,
    /// the placement that annealing ends with costs no more than the initial one.
    pub proof fn annealing_keeps_or_improves_the_initial_cost(
        &self,
        cost: spec_fn(PlacementMeasure) -> int,
        problem: PlacementProblem,
        plan: AnnealingPlan,
        solution: PlacementSolution,
    )
        requires
            self.compares_by(cost),
            annealing_fits(problem, plan),
            problem.instances@.len() <= usize::MAX,
            self.is_placed_annealed(problem, plan, Ok(solution)),
        ensures
            ({
                let initial = initial_positions(
                    problem.macros@,
                    problem.instances@,
                    problem.nets@,
                    plan.initial,
                )->Ok_0;
                let before = measure_at(problem, plan, initial);
                let after = measure_at(problem, plan, positions_of(solution.instances@));
                &&& before is Ok
                &&& after is Ok
                &&& cost(after->Ok_0) <= cost(before->Ok_0)
            }),
    {
        let macros = problem.macros@;
        let library = problem.instances@;
        let initial = initial_positions(macros, library, problem.nets@, plan.initial)->Ok_0;
        let sizes = sizes_of(macros, library, library.len())->Ok_0;
        let last = choose|last: WalkView| #[trigger]
            self.is_annealed(problem, plan, initial, last) && is_solution(
                problem,
                plan,
                final_places(problem, plan, initial, last),
                solution,
            );
        let run = choose|run: Seq<WalkView>|
            {
                &&& #[trigger] self.is_restart_run(problem, plan, run)
                &&& run.len() == restart_count(plan.restarts) + 1
                &&& measure_at(problem, plan, initial) is Ok
                &&& is_start(initial, measure_at(problem, plan, initial)->Ok_0, run[0])
                &&& run.last() == last
            };
        let start = measure_at(problem, plan, initial)->Ok_0;
        initial_places_are_apart(macros, library, problem.nets@, plan.initial);
        footprints_stay_apart(macros, library, initial, plan.initial.world);
        let placed = moved_to(library, initial);
        assert(overlap_set(footprints(macros, placed, placed.len())) =~= Set::empty());
        self.restarts_fare_well(cost, problem, plan, sizes, start, run, run.len() - 1);
        let chosen = chosen_places(initial, last);
        assert(places_fit(problem, plan, sizes, initial));
        assert(library.len() * library.len() <= (library.len() + 1) * library.len()) by (nonlinear_arith);
        uncounted_is_apart(problem, plan, chosen);
        let list = footprints(macros, moved_to(library, chosen), library.len());
        assert forall|i: int, j: int, pair: (usize, usize)| !(#[trigger] is_overlap(list, i, j, pair)) by {
            assert(!Seq::<(usize, usize)>::empty().contains(pair));
        }
        boxes_stay_apart(macros, library, chosen, plan.initial.world);
        assert(repaired(sizes, chosen, plan.initial.world, plan.initial.repair_iterations as nat) == chosen);
        assert(positions_of(solution.instances@) =~= chosen);
    }
}

} // verus!
