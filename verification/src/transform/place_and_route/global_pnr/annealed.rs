//! Placements of a design that come from annealing.

use super::annealed_range::{attempts_are_in_range, selected_in_range, shape_in_range};
use super::ir::LayoutCandidate;
use super::placement_nets::{all_unrouted, nets_between, physical_nets, pin_nets};
use super::router::ports::PlacedModule;
use super::router::topology::ResolvedPnrTopology;
use crate::number::{capped, capped_product, capped_sum, cube_root, is_cube_root};
use crate::text::texts;
use crate::transform::place_and_route::placement_error::PlacementError;
use crate::transform::place_and_route::placement_ir::{
    box_size, candidate_fits, is_above, is_template_of, local, MacroInstance, MacroRotation, MacroTemplate,
    PlacementLegality,
};
use crate::transform::place_and_route::placement_problem::{macro_named, template_of, PlacementProblem};
use crate::transform::place_and_route::sa_placer::anneal::{stays_inside, AnnealingPlan, AnnealingRules};
use crate::transform::place_and_route::sa_placer::initial::{has_template, sizes_of, PlacementSolution};
use crate::transform::place_and_route::sa_placer::legal::blocks_inside;
use crate::transform::place_and_route::sa_placer::measure::PlacementMeasure;
use crate::transform::place_and_route::sa_placer::range::{
    is_in_range, is_reach, numbers_fit, range_is_enough,
};
use crate::transform::place_and_route::sa_placer::seed::{
    pin_total, positions_of, size_of_instance, stand_apart, stands_inside, InitialPlacementConfig,
};
use crate::world::grid::box_extent;
use crate::world::position::{in_bounds, DimSize, Position};
use vstd::prelude::*;

verus! {

/// How many seeds are tried for a design.
pub const ANNEALED_SEEDS: u64 = 4;

/// How many worlds are tried for a seed, each twice as large as the last.
pub const ANNEALED_ATTEMPTS: usize = 3;

/// The smallest gap between macros.
pub const ANNEALED_MIN_SPACING: usize = 6;

/// How many cells stay free in front of all macros.
pub const PLACEMENT_MARGIN: usize = 4;

/// The distance between seeds.
pub const SEED_STEP: u64 = 0x9E37_79B9_7F4A_7C15;

/// An instance with the layout that was selected for it.
pub type Selected = (String, LayoutCandidate);

/// The names of instances.
pub open spec fn names_of(selected: Seq<Selected>) -> Seq<Seq<char>> {
    selected.map_values(|own: Selected| own.0@)
}

/// Whether all layouts are well formed.
pub open spec fn selected_fit(selected: Seq<Selected>) -> bool {
    forall|i: int| 0 <= i < selected.len() ==> candidate_fits((#[trigger] selected[i]).1)
}

/// Whether a macro is that of a layout, under the name of an instance.
pub open spec fn is_selected_macro(template: MacroTemplate, own: Selected) -> bool {
    &&& template.name@ == own.0@
    &&& template.variant@ == own.1.module_name@
    &&& exists|plain: MacroTemplate| #[trigger]
        is_template_of(plain, own.1, own.1.module_name@) && template == (MacroTemplate {
            name: template.name,
            variant: template.variant,
            ..plain
        })
}

/// Whether no later instance has the same name.
pub open spec fn is_last_of_name(selected: Seq<Selected>, index: int) -> bool {
    forall|j: int| index < j < selected.len() ==> (#[trigger] selected[j]).0@ != selected[index].0@
}

/// Whether an instance stands at the origin, under its name.
pub open spec fn is_plain_instance(instance: MacroInstance, index: int, name: Seq<char>) -> bool {
    &&& instance.id == index
    &&& instance.macro_name@ == name
    &&& instance.position == Position(0, 0, 0)
    &&& instance.rotation == MacroRotation::Unrotated
}

/// Whether a macro is that of one of some layouts.
pub open spec fn is_macro_of(template: MacroTemplate, selected: Seq<Selected>) -> bool {
    exists|i: int| 0 <= i < selected.len() && is_selected_macro(template, #[trigger] selected[i])
}

/// Whether a problem has a macro and an instance for each of some layouts, and no
/// other macro.
pub open spec fn holds_selected(problem: PlacementProblem, selected: Seq<Selected>) -> bool {
    &&& forall|m: int| 0 <= m < problem.macros@.len() ==> is_macro_of(#[trigger] problem.macros@[m], selected)
    &&& problem.instances@.len() == selected.len()
    &&& forall|i: int|
        0 <= i < selected.len() ==> is_plain_instance(#[trigger] problem.instances@[i], i, selected[i].0@)
    &&& forall|i: int|
        0 <= i < selected.len() && is_last_of_name(selected, i) ==> {
            let found = macro_named(problem.macros@, (#[trigger] selected[i]).0@);
            found is Some && is_selected_macro(found->0, selected[i])
        }
}

/// Whether a problem is that of placing the instances of a design.
pub open spec fn is_annealed_problem(
    problem: PlacementProblem,
    topology: ResolvedPnrTopology,
    selected: Seq<Selected>,
) -> bool {
    &&& holds_selected(problem, selected)
    &&& pin_nets(problem.nets@) == nets_between(topology, names_of(selected), topology.nets@.len())
    &&& all_unrouted(problem.nets@)
}

fn add_selected(problem: &mut PlacementProblem, own: &Selected, Ghost(before): Ghost<Seq<Selected>>)
    requires
        candidate_fits(own.1),
        holds_selected(*old(problem), before),
        old(problem).nets@.len() == 0,
    ensures
        holds_selected(*final(problem), before.push(*own)),
        final(problem).nets@.len() == 0,
{
    let ghost had = problem.instances@;
    let ghost macros = problem.macros@;
    let mut template = MacroTemplate::from_candidate(&own.1, own.1.module_name.as_str());
    let ghost plain = template;
    template.name = own.0.clone();
    template.variant = own.1.module_name.clone();
    let ghost made = template;
    assert(is_selected_macro(made, *own)) by {
        assert(is_template_of(plain, own.1, own.1.module_name@));
    }
    problem.add_macro(template);
    let ghost with = problem.macros@;
    assert(macro_named(with, own.0@) == Some(made));
    let added = problem.add_instance(own.0.as_str(), Position(0, 0, 0), MacroRotation::Unrotated);
    proof {
        let all = before.push(*own);
        assert forall|m: int| 0 <= m < problem.macros@.len() implies is_macro_of(#[trigger] problem.macros@[m], all) by {
            let template = problem.macros@[m];
            assert(with[m] == template);
            if template == made {
                assert(is_selected_macro(template, all[before.len() as int]));
            } else {
                let k = choose|k: int| 0 <= k < macros.len() && macros[k] == template;
                assert(is_macro_of(macros[k], before));
                let i = choose|i: int| 0 <= i < before.len() && is_selected_macro(template, #[trigger] before[i]);
                assert(all[i] == before[i]);
            }
        }
        assert(added is Ok);
        assert forall|i: int| 0 <= i < all.len() implies is_plain_instance(
            #[trigger] problem.instances@[i],
            i,
            all[i].0@,
        ) by {
            if i < before.len() {
                assert(problem.instances@[i] == problem.instances@.drop_last()[i]);
                assert(is_plain_instance(had[i], i, before[i].0@));
            }
        }
        assert forall|i: int| 0 <= i < all.len() && is_last_of_name(all, i) implies {
            let found = macro_named(problem.macros@, (#[trigger] all[i]).0@);
            found is Some && is_selected_macro(found->0, all[i])
        } by {
            if i < before.len() {
                assert(all[before.len() as int].0@ != all[i].0@);
                assert forall|j: int| i < j < before.len() implies (#[trigger] before[j]).0@ != before[i].0@ by {
                    assert(all[j].0@ != all[i].0@);
                }
                assert(is_last_of_name(before, i));
                assert(before[i] == all[i]);
            }
        }
    }
}

/// The problem of placing the instances of a design.
pub fn annealed_problem(topology: &ResolvedPnrTopology, selected: &Vec<Selected>) -> (problem: PlacementProblem)
    requires
        selected_fit(selected@),
    ensures
        is_annealed_problem(problem, *topology, selected@),
{
    let mut problem = PlacementProblem::new();
    let mut names: Vec<String> = Vec::new();
    let mut index: usize = 0;
    while index < selected.len()
        invariant
            index <= selected.len(),
            selected_fit(selected@),
            holds_selected(problem, selected@.take(index as int)),
            problem.nets@.len() == 0,
            names.len() == index,
            forall|i: int| 0 <= i < index ==> (#[trigger] names@[i])@ == selected@[i].0@,
        decreases selected.len() - index,
    {
        assert(candidate_fits(selected@[index as int].1));
        add_selected(&mut problem, &selected[index], Ghost(selected@.take(index as int)));
        assert(selected@.take(index as int).push(selected@[index as int]) =~= selected@.take(index + 1));
        names.push(selected[index].0.clone());
        index += 1;
    }
    assert(selected@.take(index as int) =~= selected@);
    assert(texts(names@) =~= names_of(selected@));
    problem.nets = physical_nets(topology, &names);
    problem
}

// ---------------------------------------------------------------------------
// Worlds
// ---------------------------------------------------------------------------
/// The number of cells of the boxes of the first `count` layouts.
pub open spec fn total_volume(selected: Seq<Selected>, count: nat) -> nat
    decreases count,
{
    if count == 0 {
        0
    } else {
        let extent = box_extent(selected[count - 1].1.bbox);
        capped(
            total_volume(selected, (count - 1) as nat) + capped(
                capped((extent.0 * extent.1) as nat) * extent.2 as nat,
            ),
        )
    }
}

/// The widest side of the boxes of the first `count` layouts.
pub open spec fn widest(selected: Seq<Selected>, count: nat) -> int
    decreases count,
{
    if count == 0 {
        0
    } else {
        let rest = widest(selected, (count - 1) as nat);
        let extent = box_extent(selected[count - 1].1.bbox);
        let own = if extent.0 > extent.1 {
            extent.0
        } else {
            extent.1
        };
        if own > rest {
            own
        } else {
            rest
        }
    }
}

/// The height of the boxes of the first `count` layouts.
pub open spec fn tallest(selected: Seq<Selected>, count: nat) -> int
    decreases count,
{
    if count == 0 {
        0
    } else {
        let rest = tallest(selected, (count - 1) as nat);
        let own = box_extent(selected[count - 1].1.bbox).2;
        if own > rest {
            own
        } else {
            rest
        }
    }
}

/// How large the world of a design is at first: its sides and its height.
pub open spec fn is_world_shape(selected: Seq<Selected>, side: usize, height: usize) -> bool {
    let wide = widest(selected, selected.len());
    let tall = tallest(selected, selected.len());
    &&& exists|root: nat| #[trigger]
        is_cube_root(total_volume(selected, selected.len()), root) && side == at_least(
            at_least(capped(root * 2) as int, wide),
            4,
        )
    &&& height == capped((at_least(tall, 4) + 4) as nat)
}

/// The larger of two numbers.
pub open spec fn at_least(number: int, least: int) -> int {
    if number < least {
        least
    } else {
        number
    }
}

/// How large the world of a design is at first: its sides and its height.
pub fn world_shape(selected: &Vec<Selected>) -> (shape: (usize, usize))
    requires
        selected_fit(selected@),
    ensures
        is_world_shape(selected@, shape.0, shape.1),
{
    let mut volume: usize = 0;
    let mut wide: usize = 0;
    let mut tall: usize = 0;
    let mut index: usize = 0;
    while index < selected.len()
        invariant
            index <= selected.len(),
            selected_fit(selected@),
            volume == total_volume(selected@, index as nat),
            wide == widest(selected@, index as nat),
            tall == tallest(selected@, index as nat),
        decreases selected.len() - index,
    {
        assert(candidate_fits(selected@[index as int].1));
        let bbox = selected[index].1.bbox;
        let width: usize = bbox.width();
        let depth: usize = bbox.depth();
        let height: usize = bbox.height();
        volume = capped_sum(volume, capped_product(capped_product(width, depth), height));
        let own: usize = if width > depth {
            width
        } else {
            depth
        };
        if own > wide {
            wide = own;
        }
        if height > tall {
            tall = height;
        }
        index += 1;
    }
    let root: usize = cube_root(volume);
    assert(is_cube_root(total_volume(selected@, selected@.len()), root as nat));
    let mut side: usize = capped_product(root, 2);
    if side < wide {
        side = wide;
    }
    if side < 4 {
        side = 4;
    }
    if tall < 4 {
        tall = 4;
    }
    (side, capped_sum(tall, 4))
}

/// How much larger the world of an attempt is.
pub open spec fn attempt_scale(attempt: nat) -> nat {
    if attempt == 0 {
        1
    } else if attempt == 1 {
        2
    } else {
        4
    }
}

/// The seed of a number.
pub open spec fn seed_of(number: u64) -> u64 {
    7u64.wrapping_add(number.wrapping_mul(SEED_STEP))
}

/// How an attempt is placed.
pub open spec fn attempt_config(side: usize, height: usize, spacing: usize, attempt: nat) -> InitialPlacementConfig {
    let scale = attempt_scale(attempt);
    InitialPlacementConfig {
        world: DimSize(
            capped((side * scale) as nat) as usize,
            capped((side * scale) as nat) as usize,
            capped((height * scale) as nat) as usize,
        ),
        spacing: if spacing < ANNEALED_MIN_SPACING {
            ANNEALED_MIN_SPACING
        } else {
            spacing
        },
        barycenter_iterations: 32,
        max_step: 4,
        repair_iterations: 64,
    }
}

fn make_config(side: usize, height: usize, spacing: usize, attempt: usize) -> (config: InitialPlacementConfig)
    ensures
        config == attempt_config(side, height, spacing, attempt as nat),
{
    let scale: usize = if attempt == 0 {
        1
    } else if attempt == 1 {
        2
    } else {
        4
    };
    let plain = InitialPlacementConfig::default();
    InitialPlacementConfig {
        world: DimSize(capped_product(side, scale), capped_product(side, scale), capped_product(height, scale)),
        spacing: if spacing < ANNEALED_MIN_SPACING {
            ANNEALED_MIN_SPACING
        } else {
            spacing
        },
        barycenter_iterations: plain.barycenter_iterations,
        max_step: plain.max_step,
        repair_iterations: plain.repair_iterations,
    }
}

// ---------------------------------------------------------------------------
// Attempts
// ---------------------------------------------------------------------------
/// Why there is no placement.
#[derive(Clone, Debug)]
pub enum AnnealedError {
    /// The last placement was not legal.
    Illegal { legality: PlacementLegality },
    /// The last placement failed.
    Failed { error: PlacementError },
}

/// A legal placement, or why there is none.
pub type AnnealedResult = Result<PlacementSolution, AnnealedError>;

/// How an attempt is annealed.
pub open spec fn attempt_plan(side: usize, height: usize, spacing: usize, seed: u64, attempt: nat) -> AnnealingPlan {
    AnnealingPlan {
        initial: attempt_config(side, height, spacing, attempt),
        seed,
        iterations: 2000,
        moves_per_temperature: 64,
        max_translate_step: 2,
        restarts: 1,
    }
}

/// Whether a placement is legal.
pub open spec fn is_good(solution: PlacementSolution) -> bool {
    solution.legality.overlaps@.len() == 0 && solution.legality.out_of_bounds@.len() == 0
}

/// What an attempt comes to: a legal placement, or why there is none.
pub open spec fn judged(outcome: Result<PlacementSolution, PlacementError>) -> AnnealedResult {
    match outcome {
        Ok(solution) => if is_good(solution) {
            Ok(solution)
        } else {
            Err(AnnealedError::Illegal { legality: solution.legality })
        },
        Err(error) => Err(AnnealedError::Failed { error }),
    }
}

/// Whether a placement has a place for each of some layouts, with room behind it.
pub open spec fn fits_selected(solution: PlacementSolution, selected: Seq<Selected>) -> bool {
    &&& solution.instances@.len() == selected.len()
    &&& forall|i: int|
        0 <= i < solution.instances@.len() ==> has_margin((#[trigger] solution.instances@[i]).position)
}

/// Whether a place has room behind it.
pub open spec fn has_margin(place: Position) -> bool {
    &&& place.0 + PLACEMENT_MARGIN <= usize::MAX
    &&& place.1 + PLACEMENT_MARGIN <= usize::MAX
    &&& place.2 + PLACEMENT_MARGIN <= usize::MAX
}

/// Whether no two instances have one name.
pub open spec fn names_differ(selected: Seq<Selected>) -> bool {
    forall|i: int, j: int| 0 <= i < j < selected.len() ==> (#[trigger] selected[i]).0@ != (#[trigger] selected[j]).0@
}

/// Whether no two layouts have a cell in common where a placement puts them.
pub open spec fn layouts_apart(solution: PlacementSolution, selected: Seq<Selected>) -> bool {
    forall|i: int, j: int|
        0 <= i < j < selected.len() ==> #[trigger] stand_apart(
            solution.instances@[i].position,
            box_size(selected[i].1.bbox),
            solution.instances@[j].position,
            box_size(selected[j].1.bbox),
        )
}

/// Whether the blocks of all layouts stand inside their boxes.
pub open spec fn selected_hold_blocks(selected: Seq<Selected>) -> bool {
    forall|i: int, b: int|
        0 <= i < selected.len() && 0 <= b < selected[i].1.world.listed().len() ==> {
            let cell = (#[trigger] selected[i].1.world.listed()[b]).0;
            let last = selected[i].1.bbox.max;
            cell.0 <= last.0 && cell.1 <= last.1 && cell.2 <= last.2
        }
}

proof fn instances_have_macros(
    problem: PlacementProblem,
    topology: ResolvedPnrTopology,
    selected: Seq<Selected>,
    index: int,
)
    requires
        is_annealed_problem(problem, topology, selected),
        selected_fit(selected),
        names_differ(selected),
        0 <= index < selected.len(),
        selected.len() <= usize::MAX,
    ensures
        has_template(problem.macros@, problem.instances@, index),
        size_of_instance(problem.macros@, problem.instances@, index) == box_size(selected[index].1.bbox),
        selected_hold_blocks(selected) ==> blocks_inside(
            template_of(problem.macros@, problem.instances@, index as usize)->Ok_0,
        ),
{
    assert(is_last_of_name(selected, index));
    assert(is_plain_instance(problem.instances@[index], index, selected[index].0@));
    let template = macro_named(problem.macros@, selected[index].0@)->0;
    assert(is_selected_macro(template, selected[index]));
    let plain = choose|plain: MacroTemplate| #[trigger]
        is_template_of(plain, selected[index].1, selected[index].1.module_name@) && template == (MacroTemplate {
            name: template.name,
            variant: template.variant,
            ..plain
        });
    let bbox = selected[index].1.bbox;
    assert(template.size == plain.size);
    assert(template.blocks == plain.blocks);
    if selected_hold_blocks(selected) {
        let listed = selected[index].1.world.listed();
        assert(candidate_fits(selected[index].1));
        assert forall|b: int| 0 <= b < template.blocks@.len() implies in_bounds(
            template.size,
            (#[trigger] template.blocks@[b]).0,
        ) by {
            assert(template.blocks@[b].0 == local(bbox.min, listed[b].0));
            assert(is_above(bbox.min, listed[b].0));
            let cell = selected[index].1.world.listed()[b].0;
            assert(cell.0 <= bbox.max.0 && cell.1 <= bbox.max.1 && cell.2 <= bbox.max.2);
        }
    }
}

/// What holds of a result: a placement has a place for each layout, and no two
/// layouts with a cell in common; and layouts that hold their blocks are not placed
/// illegally.
pub open spec fn is_sound_result(selected: Seq<Selected>, result: AnnealedResult) -> bool {
    &&& result matches Ok(solution) ==> fits_apart(solution, selected)
    &&& names_differ(selected) && selected_hold_blocks(selected) ==> !(result matches Err(AnnealedError::Illegal { .. }))
}

/// Whether results are what attempts for a seed come to, in turn, up to the first
/// legal one.
pub open spec fn ends_attempts(tried: Seq<AnnealedResult>) -> bool {
    &&& 0 < tried.len() <= ANNEALED_ATTEMPTS
    &&& forall|k: int| 0 <= k < tried.len() - 1 ==> (#[trigger] tried[k]) is Err
    &&& tried.last() is Ok || tried.len() == ANNEALED_ATTEMPTS
}

impl<
    T: Fn(usize) -> bool,
    E: Fn(&PlacementMeasure, &PlacementMeasure) -> bool,
    A: Fn(usize, &PlacementMeasure, &PlacementMeasure, u64) -> bool,
> AnnealingRules<T, E, A> {
    /// Whether a result is what an attempt comes to.
    pub open spec fn is_attempt(
        &self,
        problem: PlacementProblem,
        plan: AnnealingPlan,
        result: AnnealedResult,
    ) -> bool {
        exists|outcome: Result<PlacementSolution, PlacementError>| #[trigger]
            self.is_placed_annealed(problem, plan, outcome) && (outcome matches Ok(solution) ==> stays_inside(
                problem,
                plan,
                solution,
            )) && result == judged(outcome)
    }

    /// Whether results are those of attempts for a seed.
    pub open spec fn are_attempts(
        &self,
        problem: PlacementProblem,
        side: usize,
        height: usize,
        spacing: usize,
        seed: u64,
        tried: Seq<AnnealedResult>,
    ) -> bool {
        forall|k: int|
            0 <= k < tried.len() ==> self.is_attempt(
                problem,
                attempt_plan(side, height, spacing, seed, k as nat),
                #[trigger] tried[k],
            )
    }

    /// What trying a seed comes to: the first legal placement, or why the last one
    /// is not.
    pub open spec fn is_seed_result(
        &self,
        problem: PlacementProblem,
        side: usize,
        height: usize,
        spacing: usize,
        seed: u64,
        result: AnnealedResult,
    ) -> bool {
        exists|tried: Seq<AnnealedResult>| #[trigger]
            self.are_attempts(problem, side, height, spacing, seed, tried) && ends_attempts(tried) && result
                == tried.last()
    }

    /// Whether results are those of the first seeds.
    pub open spec fn are_seed_results(
        &self,
        problem: PlacementProblem,
        side: usize,
        height: usize,
        spacing: usize,
        results: Seq<AnnealedResult>,
    ) -> bool {
        forall|k: int|
            0 <= k < results.len() ==> self.is_seed_result(
                problem,
                side,
                height,
                spacing,
                seed_of(k as u64),
                #[trigger] results[k],
            )
    }

    proof fn attempt_is_sound(
        &self,
        problem: PlacementProblem,
        plan: AnnealingPlan,
        topology: ResolvedPnrTopology,
        selected: Seq<Selected>,
        outcome: Result<PlacementSolution, PlacementError>,
    )
        requires
            is_annealed_problem(problem, topology, selected),
            selected_fit(selected),
            selected.len() <= usize::MAX,
            is_in_range(problem, plan),
            self.is_placed_annealed(problem, plan, outcome),
            outcome matches Ok(solution) ==> stays_inside(problem, plan, solution),
        ensures
            outcome matches Ok(solution) ==> fits_selected(solution, selected) && (names_differ(selected)
                ==> layouts_apart(solution, selected)),
            names_differ(selected) && selected_hold_blocks(selected) ==> !(judged(outcome) matches Err(
                AnnealedError::Illegal { .. },
            )),
    {
        range_is_enough(problem, plan);
        if let Ok(solution) = outcome {
            let world = plan.initial.world;
            let sizes = sizes_of(problem.macros@, problem.instances@, problem.instances@.len())->Ok_0;
            let bound = choose|bound: int| #[trigger]
                is_reach(problem, world, bound) && numbers_fit(problem, plan, bound);
            let pins = pin_total(problem.nets@, problem.nets@.len());
            assert((pins + 1) * bound >= bound) by (nonlinear_arith)
                requires
                    bound >= 1,
                    pins >= 0,
            ;
            assert forall|i: int| 0 <= i < solution.instances@.len() implies has_margin(
                (#[trigger] solution.instances@[i]).position,
            ) by {
                let places = positions_of(solution.instances@);
                assert(stands_inside(places[i], sizes[i], world));
            }
            self.annealed_placement_has_no_overlaps(problem, plan, solution);
            if names_differ(selected) {
                assert forall|i: int, j: int| 0 <= i < j < selected.len() implies #[trigger] stand_apart(
                    solution.instances@[i].position,
                    box_size(selected[i].1.bbox),
                    solution.instances@[j].position,
                    box_size(selected[j].1.bbox),
                ) by {
                    instances_have_macros(problem, topology, selected, i);
                    instances_have_macros(problem, topology, selected, j);
                    assert(stand_apart(
                        solution.instances@[i].position,
                        size_of_instance(problem.macros@, problem.instances@, i),
                        solution.instances@[j].position,
                        size_of_instance(problem.macros@, problem.instances@, j),
                    ));
                }
                if selected_hold_blocks(selected) {
                    assert forall|i: int|
                        0 <= i < problem.instances@.len() && #[trigger] has_template(
                            problem.macros@,
                            problem.instances@,
                            i,
                        ) implies blocks_inside(template_of(problem.macros@, problem.instances@, i as usize)->Ok_0) by {
                        instances_have_macros(problem, topology, selected, i);
                    }
                    self.annealed_placement_is_legal(problem, plan, solution);
                }
            }
        }
    }

    fn try_attempt(
        &self,
        problem: &PlacementProblem,
        side: usize,
        height: usize,
        spacing: usize,
        seed: u64,
        attempt: usize,
        Ghost(topology): Ghost<ResolvedPnrTopology>,
        Ghost(selected): Ghost<Seq<Selected>>,
    ) -> (result: AnnealedResult)
        requires
            self.valid(),
            is_annealed_problem(*problem, topology, selected),
            selected_fit(selected),
            shape_in_range(topology, selected, spacing, side, height),
        ensures
            self.is_attempt(*problem, attempt_plan(side, height, spacing, seed, attempt as nat), result),
            is_sound_result(selected, result),
    {
        let plan = AnnealingPlan {
            initial: make_config(side, height, spacing, attempt),
            seed,
            iterations: 2000,
            moves_per_temperature: 64,
            max_translate_step: 2,
            restarts: 1,
        };
        let count: usize = problem.instances.len();
        proof {
            assert(selected.len() == count);
            assert(plan == attempt_plan(side, height, spacing, seed, attempt as nat));
            attempts_are_in_range(*problem, topology, selected, spacing, side, height, seed, attempt as nat);
            range_is_enough(*problem, plan);
        }
        let outcome = self.place_annealed(problem, &plan);
        proof {
            self.attempt_is_sound(*problem, plan, topology, selected, outcome);
            assert(self.is_placed_annealed(*problem, plan, outcome));
            assert(self.is_attempt(*problem, plan, judged(outcome)));
        }
        match outcome {
            Ok(solution) => if solution.is_legal() {
                Ok(solution)
            } else {
                Err(AnnealedError::Illegal { legality: solution.legality })
            },
            Err(error) => Err(AnnealedError::Failed { error }),
        }
    }

    fn try_seed(
        &self,
        problem: &PlacementProblem,
        side: usize,
        height: usize,
        spacing: usize,
        seed: u64,
        Ghost(topology): Ghost<ResolvedPnrTopology>,
        Ghost(selected): Ghost<Seq<Selected>>,
    ) -> (result: AnnealedResult)
        requires
            self.valid(),
            is_annealed_problem(*problem, topology, selected),
            selected_fit(selected),
            shape_in_range(topology, selected, spacing, side, height),
        ensures
            self.is_seed_result(*problem, side, height, spacing, seed, result),
            is_sound_result(selected, result),
    {
        let mut last = self.try_attempt(
            problem,
            side,
            height,
            spacing,
            seed,
            0,
            Ghost(topology),
            Ghost(selected),
        );
        let ghost mut tried = seq![last];
        let mut attempt: usize = 1;
        while attempt < ANNEALED_ATTEMPTS && last.is_err()
            invariant
                1 <= attempt <= ANNEALED_ATTEMPTS,
                self.valid(),
                is_annealed_problem(*problem, topology, selected),
                selected_fit(selected),
                shape_in_range(topology, selected, spacing, side, height),
                tried.len() == attempt,
                self.are_attempts(*problem, side, height, spacing, seed, tried),
                forall|k: int| 0 <= k < tried.len() - 1 ==> (#[trigger] tried[k]) is Err,
                last == tried.last(),
                is_sound_result(selected, last),
            decreases ANNEALED_ATTEMPTS - attempt,
        {
            let ghost before = tried;
            let ghost earlier = last;
            last = self.try_attempt(
                problem,
                side,
                height,
                spacing,
                seed,
                attempt,
                Ghost(topology),
                Ghost(selected),
            );
            proof {
                tried = tried.push(last);
                assert forall|k: int| 0 <= k < tried.len() implies self.is_attempt(
                    *problem,
                    attempt_plan(side, height, spacing, seed, k as nat),
                    #[trigger] tried[k],
                ) by {
                    if k < before.len() {
                        assert(tried[k] == before[k]);
                    }
                }
                assert forall|k: int| 0 <= k < tried.len() - 1 implies (#[trigger] tried[k]) is Err by {
                    assert(tried[k] == before[k]);
                    if k == before.len() - 1 {
                        assert(before[k] == earlier);
                    }
                }
            }
            attempt += 1;
        }
        assert(ends_attempts(tried));
        last
    }

    /// What placing a design by annealing comes to: the legal placements of all
    /// seeds, each of them once; or, where there is none, why the last one is not
    /// legal.
    pub open spec fn is_annealed_design(
        &self,
        topology: ResolvedPnrTopology,
        selected: Seq<Selected>,
        spacing: usize,
        result: Result<Vec<Vec<PlacedModule>>, AnnealedError>,
    ) -> bool {
        exists|problem: PlacementProblem, side: usize, height: usize, results: Seq<AnnealedResult>|
            {
                &&& is_annealed_problem(problem, topology, selected)
                &&& is_world_shape(selected, side, height)
                &&& #[trigger] self.are_seed_results(problem, side, height, spacing, results)
                &&& results.len() == ANNEALED_SEEDS
                &&& match result {
                    Ok(attempts) => {
                        let solutions = solutions_of(results);
                        &&& solutions.len() > 0
                        &&& are_placements(selected, solutions, attempts@, solutions.len())
                    },
                    Err(error) => {
                        &&& solutions_of(results).len() == 0
                        &&& results.last() == Err::<PlacementSolution, AnnealedError>(error)
                    },
                }
            }
    }
}

/// The placements among results.
pub open spec fn solutions_of(results: Seq<AnnealedResult>) -> Seq<PlacementSolution>
    decreases results.len(),
{
    if results.len() == 0 {
        Seq::empty()
    } else {
        match results.last() {
            Ok(solution) => solutions_of(results.drop_last()).push(solution),
            Err(_) => solutions_of(results.drop_last()),
        }
    }
}

/// Where instances stand.
pub open spec fn origins(solution: PlacementSolution) -> Seq<Position> {
    solution.instances@.map_values(|instance: MacroInstance| instance.position)
}

/// The modules of a placement.
pub open spec fn are_modules(selected: Seq<Selected>, solution: PlacementSolution, placed: Seq<PlacedModule>) -> bool {
    &&& placed.len() == selected.len()
    &&& forall|i: int|
        0 <= i < placed.len() ==> is_module_at(
            #[trigger] placed[i],
            selected[i].1,
            i,
            solution.instances@[i].position,
        )
}

/// Whether a module is a layout that stands at a place, behind the margin.
pub open spec fn is_module_at(placed: PlacedModule, candidate: LayoutCandidate, index: int, place: Position) -> bool {
    &&& placed.module_name@ == candidate.module_name@
    &&& placed.candidate_index == index
    &&& placed.origin == Position(
        (place.0 + PLACEMENT_MARGIN) as usize,
        (place.1 + PLACEMENT_MARGIN) as usize,
        (place.2 + PLACEMENT_MARGIN) as usize,
    )
    &&& placed.bbox == candidate.bbox
}

/// Whether an earlier placement has all instances in the same places.
pub open spec fn was_seen(solutions: Seq<PlacementSolution>, index: int) -> bool {
    exists|j: int| 0 <= j < index && origins(#[trigger] solutions[j]) == origins(solutions[index])
}

/// The indices of placements that no earlier one equals.
pub open spec fn fresh_ones(solutions: Seq<PlacementSolution>, count: nat) -> Seq<int>
    decreases count,
{
    if count == 0 {
        Seq::empty()
    } else {
        let rest = fresh_ones(solutions, (count - 1) as nat);
        if was_seen(solutions, count - 1) {
            rest
        } else {
            rest.push(count - 1)
        }
    }
}

/// Whether attempts are the modules of the placements, each of them once.
pub open spec fn are_placements(
    selected: Seq<Selected>,
    solutions: Seq<PlacementSolution>,
    attempts: Seq<Vec<PlacedModule>>,
    count: nat,
) -> bool {
    let fresh = fresh_ones(solutions, count);
    &&& attempts.len() == fresh.len()
    &&& forall|k: int| 0 <= k < attempts.len() ==> are_modules(selected, solutions[fresh[k]], (#[trigger] attempts[k])@)
}

fn same_origins(left: &PlacementSolution, right: &PlacementSolution) -> (same: bool)
    ensures
        same == (origins(*left) == origins(*right)),
{
    if left.instances.len() != right.instances.len() {
        assert(origins(*left).len() != origins(*right).len());
        return false;
    }
    let mut index: usize = 0;
    while index < left.instances.len()
        invariant
            index <= left.instances.len(),
            left.instances.len() == right.instances.len(),
            forall|i: int| 0 <= i < index ==> #[trigger] origins(*left)[i] == origins(*right)[i],
        decreases left.instances.len() - index,
    {
        if left.instances[index].position != right.instances[index].position {
            assert(origins(*left)[index as int] != origins(*right)[index as int]);
            return false;
        }
        index += 1;
    }
    assert(origins(*left) =~= origins(*right));
    true
}

fn place_modules(selected: &Vec<Selected>, solution: &PlacementSolution) -> (placed: Vec<PlacedModule>)
    requires
        selected_fit(selected@),
        solution.instances@.len() == selected@.len(),
        forall|i: int|
            0 <= i < solution.instances@.len() ==> has_margin((#[trigger] solution.instances@[i]).position),
    ensures
        are_modules(selected@, *solution, placed@),
{
    let mut placed: Vec<PlacedModule> = Vec::new();
    let mut index: usize = 0;
    while index < selected.len()
        invariant
            index <= selected.len(),
            solution.instances@.len() == selected@.len(),
            forall|i: int|
                0 <= i < solution.instances@.len() ==> has_margin((#[trigger] solution.instances@[i]).position),
            placed.len() == index,
            forall|i: int|
                0 <= i < index ==> is_module_at(
                    #[trigger] placed@[i],
                    selected@[i].1,
                    i,
                    solution.instances@[i].position,
                ),
        decreases selected.len() - index,
    {
        let place = solution.instances[index].position;
        assert(has_margin(solution.instances@[index as int].position));
        let ghost before = placed@;
        placed.push(
            PlacedModule {
                module_name: selected[index].1.module_name.clone(),
                candidate_index: index,
                origin: Position(
                    place.0 + PLACEMENT_MARGIN,
                    place.1 + PLACEMENT_MARGIN,
                    place.2 + PLACEMENT_MARGIN,
                ),
                bbox: selected[index].1.bbox,
            },
        );
        assert forall|i: int| 0 <= i < index + 1 implies is_module_at(
            #[trigger] placed@[i],
            selected@[i].1,
            i,
            solution.instances@[i].position,
        ) by {
            if i < index {
                assert(placed@[i] == before[i]);
            }
        }
        index += 1;
    }
    placed
}

fn distinct_placements(selected: &Vec<Selected>, solutions: &Vec<PlacementSolution>) -> (attempts: Vec<
    Vec<PlacedModule>,
>)
    requires
        selected_fit(selected@),
        forall|k: int| 0 <= k < solutions@.len() ==> fits_selected(#[trigger] solutions@[k], selected@),
    ensures
        are_placements(selected@, solutions@, attempts@, solutions@.len()),
{
    let mut attempts: Vec<Vec<PlacedModule>> = Vec::new();
    let mut index: usize = 0;
    while index < solutions.len()
        invariant
            index <= solutions.len(),
            selected_fit(selected@),
            forall|k: int| 0 <= k < solutions@.len() ==> fits_selected(#[trigger] solutions@[k], selected@),
            are_placements(selected@, solutions@, attempts@, index as nat),
        decreases solutions.len() - index,
    {
        let mut seen = false;
        let mut earlier: usize = 0;
        while earlier < index
            invariant
                earlier <= index,
                index < solutions.len(),
                seen == exists|j: int|
                    0 <= j < earlier && origins(#[trigger] solutions@[j]) == origins(solutions@[index as int]),
            decreases index - earlier,
        {
            if same_origins(&solutions[earlier], &solutions[index]) {
                assert(origins(solutions@[earlier as int]) == origins(solutions@[index as int]));
                seen = true;
            }
            earlier += 1;
        }
        assert(seen == was_seen(solutions@, index as int));
        if !seen {
            assert(fits_selected(solutions@[index as int], selected@));
            let ghost before = attempts@;
            let ghost fresh = fresh_ones(solutions@, index as nat);
            let placed = place_modules(selected, &solutions[index]);
            attempts.push(placed);
            proof {
                let now = fresh_ones(solutions@, (index + 1) as nat);
                assert(now == fresh.push(index as int));
                assert forall|k: int| 0 <= k < attempts@.len() implies are_modules(
                    selected@,
                    solutions@[now[k]],
                    (#[trigger] attempts@[k])@,
                ) by {
                    if k < before.len() {
                        assert(attempts@[k] == before[k]);
                    }
                }
            }
        }
        index += 1;
    }
    attempts
}

// ---------------------------------------------------------------------------
// What placements promise
// ---------------------------------------------------------------------------
/// Where modules stand.
pub open spec fn module_origins(placed: Seq<PlacedModule>) -> Seq<Position> {
    placed.map_values(|module: PlacedModule| module.origin)
}

/// Whether a placement has a module for each layout, behind the margin, and no two
/// of them with a cell in common.
pub open spec fn is_sound_placement(selected: Seq<Selected>, placed: Seq<PlacedModule>) -> bool {
    &&& placed.len() == selected.len()
    &&& forall|i: int| 0 <= i < placed.len() ==> is_module_of(#[trigger] placed[i], selected[i].1, i)
    &&& names_differ(selected) ==> forall|i: int, j: int|
        0 <= i < j < placed.len() ==> #[trigger] stand_apart(
            placed[i].origin,
            box_size(placed[i].bbox),
            placed[j].origin,
            box_size(placed[j].bbox),
        )
}

/// Whether a module is a layout behind the margin.
pub open spec fn is_module_of(placed: PlacedModule, candidate: LayoutCandidate, index: int) -> bool {
    &&& placed.module_name@ == candidate.module_name@
    &&& placed.candidate_index == index
    &&& placed.bbox == candidate.bbox
    &&& placed.origin.0 >= PLACEMENT_MARGIN
    &&& placed.origin.1 >= PLACEMENT_MARGIN
    &&& placed.origin.2 >= PLACEMENT_MARGIN
}

/// Whether there are placements, one for each seed at most, all sound, and no two
/// with all modules in the same places.
pub open spec fn are_sound_placements(selected: Seq<Selected>, attempts: Seq<Vec<PlacedModule>>) -> bool {
    &&& 1 <= attempts.len() <= ANNEALED_SEEDS
    &&& forall|k: int| 0 <= k < attempts.len() ==> is_sound_placement(selected, (#[trigger] attempts[k])@)
    &&& forall|k: int, l: int|
        0 <= k < l < attempts.len() ==> module_origins((#[trigger] attempts[k])@) != module_origins(
            (#[trigger] attempts[l])@,
        )
}

proof fn fresh_ones_are_fresh(solutions: Seq<PlacementSolution>, count: nat)
    requires
        count <= solutions.len(),
    ensures
        fresh_ones(solutions, count).len() <= count,
        count > 0 ==> fresh_ones(solutions, count).len() > 0,
        forall|k: int|
            0 <= k < fresh_ones(solutions, count).len() ==> 0 <= #[trigger] fresh_ones(solutions, count)[k] < count
                && !was_seen(solutions, fresh_ones(solutions, count)[k]),
        forall|k: int, l: int|
            0 <= k < l < fresh_ones(solutions, count).len() ==> #[trigger] fresh_ones(solutions, count)[k]
                < #[trigger] fresh_ones(solutions, count)[l],
    decreases count,
{
    if count > 0 {
        fresh_ones_are_fresh(solutions, (count - 1) as nat);
    }
}

proof fn solutions_are_few(results: Seq<AnnealedResult>)
    ensures
        solutions_of(results).len() <= results.len(),
    decreases results.len(),
{
    if results.len() > 0 {
        solutions_are_few(results.drop_last());
    }
}

/// What is asked of each of some placements.
pub open spec fn all_fit(solutions: Seq<PlacementSolution>, selected: Seq<Selected>) -> bool {
    forall|k: int| 0 <= k < solutions.len() ==> fits_apart(#[trigger] solutions[k], selected)
}

/// Whether a placement has a place for each layout, and no two layouts with a cell
/// in common.
pub open spec fn fits_apart(solution: PlacementSolution, selected: Seq<Selected>) -> bool {
    &&& fits_selected(solution, selected)
    &&& names_differ(selected) ==> layouts_apart(solution, selected)
}

proof fn placements_are_sound(
    selected: Seq<Selected>,
    solutions: Seq<PlacementSolution>,
    attempts: Seq<Vec<PlacedModule>>,
)
    requires
        all_fit(solutions, selected),
        0 < solutions.len() <= ANNEALED_SEEDS,
        are_placements(selected, solutions, attempts, solutions.len()),
    ensures
        are_sound_placements(selected, attempts),
{
    let fresh = fresh_ones(solutions, solutions.len());
    fresh_ones_are_fresh(solutions, solutions.len());
    assert forall|k: int| 0 <= k < attempts.len() implies is_sound_placement(selected, (#[trigger] attempts[k])@) by {
        let placed = attempts[k]@;
        let solution = solutions[fresh[k]];
        assert(are_modules(selected, solution, placed));
        assert(fits_apart(solution, selected));
        assert forall|i: int| 0 <= i < placed.len() implies is_module_of(#[trigger] placed[i], selected[i].1, i) by {
            assert(is_module_at(placed[i], selected[i].1, i, solution.instances@[i].position));
            assert(has_margin(solution.instances@[i].position));
        }
        if names_differ(selected) {
            assert forall|i: int, j: int| 0 <= i < j < placed.len() implies #[trigger] stand_apart(
                placed[i].origin,
                box_size(placed[i].bbox),
                placed[j].origin,
                box_size(placed[j].bbox),
            ) by {
                assert(is_module_at(placed[i], selected[i].1, i, solution.instances@[i].position));
                assert(is_module_at(placed[j], selected[j].1, j, solution.instances@[j].position));
                assert(has_margin(solution.instances@[i].position));
                assert(has_margin(solution.instances@[j].position));
                assert(stand_apart(
                    solution.instances@[i].position,
                    box_size(selected[i].1.bbox),
                    solution.instances@[j].position,
                    box_size(selected[j].1.bbox),
                ));
            }
        }
    }
    assert forall|k: int, l: int| 0 <= k < l < attempts.len() implies module_origins((#[trigger] attempts[k])@)
        != module_origins((#[trigger] attempts[l])@) by {
        let left = solutions[fresh[k]];
        let right = solutions[fresh[l]];
        assert(are_modules(selected, left, attempts[k]@));
        assert(are_modules(selected, right, attempts[l]@));
        assert(fits_apart(left, selected));
        assert(fits_apart(right, selected));
        assert(fresh[k] < fresh[l]);
        assert(!was_seen(solutions, fresh[l]));
        assert(origins(left) != origins(right));
        if module_origins(attempts[k]@) == module_origins(attempts[l]@) {
            assert forall|i: int| 0 <= i < selected.len() implies #[trigger] origins(left)[i] == origins(right)[i] by {
                assert(is_module_at(attempts[k]@[i], selected[i].1, i, left.instances@[i].position));
                assert(is_module_at(attempts[l]@[i], selected[i].1, i, right.instances@[i].position));
                assert(has_margin(left.instances@[i].position));
                assert(has_margin(right.instances@[i].position));
                assert(module_origins(attempts[k]@)[i] == module_origins(attempts[l]@)[i]);
            }
            assert(origins(left) =~= origins(right));
        }
    }
}

/// The placements of a design by annealing: for each seed the first legal one, in
/// worlds that grow.
pub fn placement_candidates_annealed<
    T: Fn(usize) -> bool,
    E: Fn(&PlacementMeasure, &PlacementMeasure) -> bool,
    A: Fn(usize, &PlacementMeasure, &PlacementMeasure, u64) -> bool,
>(
    rules: &AnnealingRules<T, E, A>,
    topology: &ResolvedPnrTopology,
    selected: &Vec<Selected>,
    spacing: usize,
) -> (result: Result<Vec<Vec<PlacedModule>>, AnnealedError>)
    requires
        rules.valid(),
        selected_fit(selected@),
        selected_in_range(*topology, selected@, spacing),
    ensures
        rules.is_annealed_design(*topology, selected@, spacing, result),
        result matches Ok(attempts) ==> are_sound_placements(selected@, attempts@),
        names_differ(selected@) && selected_hold_blocks(selected@) ==> !(result matches Err(
            AnnealedError::Illegal { .. },
        )),
{
    let problem = annealed_problem(topology, selected);
    let (side, height) = world_shape(selected);
    let ghost mut results = Seq::<AnnealedResult>::empty();
    let mut solutions: Vec<PlacementSolution> = Vec::new();
    let mut last: Option<AnnealedError> = None;
    assert(solutions@ =~= solutions_of(results));
    let mut number: u64 = 0;
    while number < ANNEALED_SEEDS
        invariant
            number <= ANNEALED_SEEDS,
            rules.valid(),
            is_annealed_problem(problem, *topology, selected@),
            selected_fit(selected@),
            shape_in_range(*topology, selected@, spacing, side, height),
            results.len() == number,
            rules.are_seed_results(problem, side, height, spacing, results),
            solutions@ == solutions_of(results),
            all_fit(solutions@, selected@),
            number > 0 && solutions@.len() == 0 ==> last is Some && results.last() == Err::<
                PlacementSolution,
                AnnealedError,
            >(last->0),
            names_differ(selected@) && selected_hold_blocks(selected@) ==> !(last matches Some(
                AnnealedError::Illegal { .. },
            )),
        decreases ANNEALED_SEEDS - number,
    {
        let seed: u64 = 7u64.wrapping_add(number.wrapping_mul(SEED_STEP));
        let outcome = rules.try_seed(&problem, side, height, spacing, seed, Ghost(*topology), Ghost(selected@));
        let ghost before = results;
        let ghost had = solutions@;
        proof {
            results = results.push(outcome);
            assert(results.drop_last() =~= before);
            assert forall|k: int| 0 <= k < results.len() implies rules.is_seed_result(
                problem,
                side,
                height,
                spacing,
                seed_of(k as u64),
                #[trigger] results[k],
            ) by {
                if k < before.len() {
                    assert(results[k] == before[k]);
                }
            }
        }
        match outcome {
            Ok(solution) => {
                assert(fits_apart(solution, selected@));
                solutions.push(solution);
                assert forall|k: int| 0 <= k < solutions@.len() implies fits_apart(
                    #[trigger] solutions@[k],
                    selected@,
                ) by {
                    if k < had.len() {
                        assert(solutions@[k] == had[k]);
                    }
                }
            },
            Err(error) => {
                last = Some(error);
            },
        }
        number += 1;
    }
    proof {
        solutions_are_few(results);
        assert(rules.are_seed_results(problem, side, height, spacing, results));
    }
    if let Some(error) = last {
        if solutions.len() == 0 {
            return Err(error);
        }
    }
    assert forall|k: int| 0 <= k < solutions@.len() implies fits_selected(#[trigger] solutions@[k], selected@) by {
        assert(fits_apart(solutions@[k], selected@));
    }
    let attempts = distinct_placements(selected, &solutions);
    proof {
        placements_are_sound(selected@, solutions@, attempts@);
    }
    Ok(attempts)
}

} // verus!
