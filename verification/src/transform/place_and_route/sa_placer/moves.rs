//! Proposing moves of a placement, with a deterministic generator of numbers.

use super::initial::{collect_positions, move_to, moved_to};
use super::relax::{apply_delta, nudged};
use super::repair::{clamp_origin, clamped, last_cell, middle};
use super::seed::{positions_of, InitialPlacementConfig};
use crate::transform::place_and_route::placement_error::{PlacementError, PlacementErrorView};
use crate::transform::place_and_route::placement_ir::{MacroInstance, MacroTemplate};
use crate::transform::place_and_route::placement_problem::{
    aabb_intersects, boxes_meet, coordinate, instance_template, template_of, PlacementProblem,
};
use crate::world::position::{DimSize, Position};
use vstd::prelude::*;

verus! {

// ---------------------------------------------------------------------------
// Numbers
// ---------------------------------------------------------------------------
/// A generator of numbers that depend on its seed alone.
pub struct DeterministicRng {
    pub state: u64,
}

/// The number after another.
pub open spec fn next_number(state: u64) -> u64 {
    let first = state ^ (state << 13);
    let second = first ^ (first >> 7);
    second ^ (second << 17)
}

/// The state after a number of draws.
pub open spec fn drawn(state: u64, count: nat) -> u64
    decreases count,
{
    if count == 0 {
        state
    } else {
        next_number(drawn(state, (count - 1) as nat))
    }
}

/// The draw of a number below a bound.
pub open spec fn draw(state: u64, count: nat, bound: int) -> int {
    drawn(state, count) as int % bound
}

/// A generator that is not at zero never comes to zero.
pub proof fn numbers_stay_nonzero(state: u64)
    requires
        state != 0,
    ensures
        next_number(state) != 0,
{
    let first = state ^ (state << 13);
    let second = first ^ (first >> 7);
    assert(state ^ (state << 13) != 0) by (bit_vector)
        requires
            state != 0,
    ;
    assert(first ^ (first >> 7) != 0) by (bit_vector)
        requires
            first != 0,
    ;
    assert(second ^ (second << 17) != 0) by (bit_vector)
        requires
            second != 0,
    ;
}

impl DeterministicRng {
    /// A generator with a seed, made odd.
    pub fn new(seed: u64) -> (rng: Self)
        ensures
            rng.state == seed | 1,
            rng.state != 0,
    {
        assert(seed | 1 != 0) by (bit_vector);
        DeterministicRng { state: seed | 1 }
    }

    /// The next number.
    pub fn next_u64(&mut self) -> (number: u64)
        ensures
            number == next_number(old(self).state),
            final(self).state == number,
            old(self).state != 0 ==> final(self).state != 0,
    {
        proof {
            if self.state != 0 {
                numbers_stay_nonzero(self.state);
            }
        }
        let mut x: u64 = self.state;
        x = x ^ (x << 13);
        x = x ^ (x >> 7);
        x = x ^ (x << 17);
        self.state = x;
        x
    }

    /// The next number, below a bound, or zero where there is no such number.
    pub fn below(&mut self, bound: usize) -> (number: usize)
        ensures
            bound == 0 ==> number == 0 && final(self).state == old(self).state,
            bound > 0 ==> {
                &&& final(self).state == next_number(old(self).state)
                &&& number == next_number(old(self).state) as int % bound as int
                &&& number < bound
            },
            old(self).state != 0 ==> final(self).state != 0,
    {
        if bound == 0 {
            0
        } else {
            let number: u64 = self.next_u64();
            let rest: u64 = number % (bound as u64);
            rest as usize
        }
    }
}

/// How far a random step goes at most.
pub open spec fn reach_of(step: usize) -> int {
    if step == 0 {
        1
    } else {
        step as int
    }
}

/// The random step of a draw.
pub open spec fn random_step(state: u64, count: nat, step: usize) -> int {
    draw(state, count, 2 * reach_of(step) + 1) - reach_of(step)
}

/// A random step along an axis, between a limit backward and forward.
pub fn random_delta(rng: &mut DeterministicRng, step: usize) -> (delta: i64)
    requires
        2 * step + 1 <= usize::MAX,
        2 * step + 1 <= i64::MAX,
    ensures
        final(rng).state == next_number(old(rng).state),
        delta == next_number(old(rng).state) as int % (2 * reach_of(step) + 1) - reach_of(step),
        -reach_of(step) <= delta <= reach_of(step),
{
    let limit: usize = if step == 0 {
        1
    } else {
        step
    };
    let number: usize = rng.below(2 * limit + 1);
    number as i64 - limit as i64
}

// ---------------------------------------------------------------------------
// Spreading
// ---------------------------------------------------------------------------
/// A number less another, but not below zero.
pub open spec fn less(value: usize, amount: usize) -> usize {
    if value >= amount {
        (value - amount) as usize
    } else {
        0
    }
}

/// A number and another, but not beyond the last number.
pub open spec fn more(value: usize, amount: usize) -> usize {
    if value + amount <= usize::MAX {
        (value + amount) as usize
    } else {
        usize::MAX
    }
}

fn widen_low(cell: Position, amount: usize) -> (low: Position)
    ensures
        low == Position(less(cell.0, amount), less(cell.1, amount), less(cell.2, amount)),
{
    Position(cell.0.saturating_sub(amount), cell.1.saturating_sub(amount), cell.2.saturating_sub(amount))
}

fn widen_high(cell: Position, amount: usize) -> (high: Position)
    ensures
        high == Position(more(cell.0, amount), more(cell.1, amount), more(cell.2, amount)),
{
    Position(cell.0.saturating_add(amount), cell.1.saturating_add(amount), cell.2.saturating_add(amount))
}

/// Whether a box comes within a spacing of another.
pub open spec fn is_near(min: Position, max: Position, spacing: usize, other_min: Position, other_max: Position) -> bool {
    boxes_meet(
        Position(less(min.0, spacing), less(min.1, spacing), less(min.2, spacing)),
        Position(more(max.0, spacing), more(max.1, spacing), more(max.2, spacing)),
        other_min,
        other_max,
    )
}

/// The middle of a box along an axis.
pub open spec fn box_middle(position: Position, size: DimSize, axis: int) -> int {
    middle(coordinate(position, axis), coordinate(last_cell(position, size), axis))
}

/// How many instances are near one, and the sums of their middles.
pub ghost struct Crowd {
    pub count: nat,
    pub x: nat,
    pub y: nat,
    pub z: nat,
}

/// Those of the first `count` instances that are near one, or the first error.
pub open spec fn crowd_around(
    macros: Seq<MacroTemplate>,
    library: Seq<MacroInstance>,
    positions: Seq<Position>,
    spacing: usize,
    index: int,
    size: DimSize,
    count: nat,
) -> Result<Crowd, PlacementErrorView>
    decreases count,
{
    if count == 0 {
        Ok(Crowd { count: 0, x: 0, y: 0, z: 0 })
    } else {
        match crowd_around(macros, library, positions, spacing, index, size, (count - 1) as nat) {
            Err(error) => Err(error),
            Ok(crowd) => if count - 1 == index {
                Ok(crowd)
            } else {
                match template_of(macros, library, (count - 1) as usize) {
                    Err(error) => Err(error),
                    Ok(template) => {
                        let other = positions[count - 1];
                        if is_near(
                            positions[index],
                            last_cell(positions[index], size),
                            spacing,
                            other,
                            last_cell(other, template.size),
                        ) {
                            Ok(
                                Crowd {
                                    count: crowd.count + 1,
                                    x: (crowd.x + box_middle(other, template.size, 0)) as nat,
                                    y: (crowd.y + box_middle(other, template.size, 1)) as nat,
                                    z: (crowd.z + box_middle(other, template.size, 2)) as nat,
                                },
                            )
                        } else {
                            Ok(crowd)
                        }
                    },
                }
            },
        }
    }
}

proof fn crowd_fails(
    macros: Seq<MacroTemplate>,
    library: Seq<MacroInstance>,
    positions: Seq<Position>,
    spacing: usize,
    index: int,
    size: DimSize,
    low: nat,
    high: nat,
)
    requires
        low <= high,
        crowd_around(macros, library, positions, spacing, index, size, low) is Err,
    ensures
        crowd_around(macros, library, positions, spacing, index, size, high) == crowd_around(
            macros,
            library,
            positions,
            spacing,
            index,
            size,
            low,
        ),
    decreases high,
{
    if low < high {
        crowd_fails(macros, library, positions, spacing, index, size, low, (high - 1) as nat);
    }
}

/// The sign of a number.
pub open spec fn sign_of(value: int) -> int {
    if value > 0 {
        1
    } else if value < 0 {
        -1
    } else {
        0
    }
}

fn sign(value: i64) -> (unit: i64)
    ensures
        unit == sign_of(value as int),
{
    if value > 0 {
        1
    } else if value < 0 {
        -1
    } else {
        0
    }
}

/// The step away from a crowd: one cell along each axis on which the own middle
/// is not the crowd's, or forward along x where it is the crowd's on all.
pub open spec fn away_from(crowd: Crowd, position: Position, size: DimSize) -> (int, int, int) {
    let step = (
        sign_of(box_middle(position, size, 0) - crowd.x as int / crowd.count as int),
        sign_of(box_middle(position, size, 1) - crowd.y as int / crowd.count as int),
        sign_of(box_middle(position, size, 2) - crowd.z as int / crowd.count as int),
    );
    if step == (0int, 0int, 0int) {
        (1int, 0int, 0int)
    } else {
        step
    }
}

/// The random step of three draws.
pub open spec fn random_steps(state: u64, count: nat, step: usize) -> (int, int, int) {
    (random_step(state, count, step), random_step(state, count + 1, step), random_step(state, count + 2, step))
}

// ---------------------------------------------------------------------------
// Proposals
// ---------------------------------------------------------------------------
/// The places after one instance took a step and was put back into the world.
pub open spec fn stepped(
    positions: Seq<Position>,
    index: int,
    step: (int, int, int),
    size: DimSize,
    world: DimSize,
) -> Seq<Position> {
    positions.update(index, clamped(nudged(positions[index], step), size, world))
}

/// The second of two different indices, from a draw among one fewer.
pub open spec fn other_index(first: int, picked: int) -> int {
    if picked >= first {
        picked + 1
    } else {
        picked
    }
}

/// A move of one instance by a random step.
pub open spec fn translation(
    macros: Seq<MacroTemplate>,
    library: Seq<MacroInstance>,
    positions: Seq<Position>,
    world: DimSize,
    max_step: usize,
    state: u64,
) -> Result<Seq<Position>, PlacementErrorView> {
    let index = draw(state, 2, positions.len() as int);
    match template_of(macros, library, index as usize) {
        Err(error) => Err(error),
        Ok(template) => Ok(stepped(positions, index, random_steps(state, 3, max_step), template.size, world)),
    }
}

/// A move that swaps two instances.
pub open spec fn exchange(
    macros: Seq<MacroTemplate>,
    library: Seq<MacroInstance>,
    positions: Seq<Position>,
    world: DimSize,
    state: u64,
) -> Result<Seq<Position>, PlacementErrorView> {
    let first = draw(state, 2, positions.len() as int);
    let second = other_index(first, draw(state, 3, positions.len() - 1));
    match template_of(macros, library, first as usize) {
        Err(error) => Err(error),
        Ok(first_template) => match template_of(macros, library, second as usize) {
            Err(error) => Err(error),
            Ok(second_template) => Ok(
                positions.update(first, clamped(positions[second], first_template.size, world)).update(
                    second,
                    clamped(positions[first], second_template.size, world),
                ),
            ),
        },
    }
}

/// A move of one instance away from those near it.
pub open spec fn spread(
    macros: Seq<MacroTemplate>,
    library: Seq<MacroInstance>,
    positions: Seq<Position>,
    world: DimSize,
    spacing: usize,
    max_step: usize,
    state: u64,
) -> Result<Seq<Position>, PlacementErrorView> {
    let index = draw(state, 2, positions.len() as int);
    match template_of(macros, library, index as usize) {
        Err(error) => Err(error),
        Ok(template) => match crowd_around(
            macros,
            library,
            positions,
            spacing,
            index,
            template.size,
            positions.len(),
        ) {
            Err(error) => Err(error),
            Ok(crowd) => {
                let step = if crowd.count == 0 {
                    random_steps(state, 3, max_step)
                } else {
                    away_from(crowd, positions[index], template.size)
                };
                Ok(stepped(positions, index, step, template.size, world))
            },
        },
    }
}

/// The move that a generator proposes: sixty times in a hundred, or where there
/// is one instance, a random step; twenty times an exchange; else a spread.
pub open spec fn proposal(
    macros: Seq<MacroTemplate>,
    library: Seq<MacroInstance>,
    positions: Seq<Position>,
    config: InitialPlacementConfig,
    max_step: usize,
    state: u64,
) -> Result<Seq<Position>, PlacementErrorView> {
    let choice = draw(state, 1, 100);
    if positions.len() == 0 {
        Ok(positions)
    } else if choice < 60 || positions.len() < 2 {
        translation(macros, library, positions, config.world, max_step, state)
    } else if choice < 80 {
        exchange(macros, library, positions, config.world, state)
    } else {
        spread(macros, library, positions, config.world, config.spacing, max_step, state)
    }
}

/// How many numbers a generator draws for the move that it proposes.
pub open spec fn proposal_draws(
    macros: Seq<MacroTemplate>,
    library: Seq<MacroInstance>,
    positions: Seq<Position>,
    config: InitialPlacementConfig,
    state: u64,
) -> nat {
    let choice = draw(state, 1, 100);
    if positions.len() == 0 {
        0
    } else if choice < 60 || positions.len() < 2 {
        5
    } else if choice < 80 {
        3
    } else {
        spread_draws(macros, library, positions, config.spacing, state)
    }
}

/// How many numbers a generator draws for a move away from others.
pub open spec fn spread_draws(
    macros: Seq<MacroTemplate>,
    library: Seq<MacroInstance>,
    positions: Seq<Position>,
    spacing: usize,
    state: u64,
) -> nat {
    let index = draw(state, 2, positions.len() as int);
    let size = template_of(macros, library, index as usize)->Ok_0.size;
    let crowd = crowd_around(macros, library, positions, spacing, index, size, positions.len())->Ok_0;
    if crowd.count == 0 {
        5
    } else {
        2
    }
}

/// Whether places and sizes within a bound leave moves in range.
pub open spec fn moves_bounded(
    macros: Seq<MacroTemplate>,
    library: Seq<MacroInstance>,
    positions: Seq<Position>,
    max_step: usize,
    bound: int,
) -> bool {
    &&& bound >= 1
    &&& 4 * ((positions.len() + 1) * bound) + 2 * max_step + 1 <= usize::MAX
    &&& 4 * ((positions.len() + 1) * bound) + 2 * max_step + 1 <= i64::MAX
    &&& forall|i: int|
        0 <= i < positions.len() ==> place_bounded(macros, library, #[trigger] positions[i], i, bound)
}

/// Whether an instance's place and size are within a bound.
pub open spec fn place_bounded(
    macros: Seq<MacroTemplate>,
    library: Seq<MacroInstance>,
    position: Position,
    index: int,
    bound: int,
) -> bool {
    &&& position.0 <= bound && position.1 <= bound && position.2 <= bound
    &&& match template_of(macros, library, index as usize) {
        Ok(template) => {
            &&& 0 < template.size.0 <= bound
            &&& 0 < template.size.1 <= bound
            &&& 0 < template.size.2 <= bound
        },
        Err(_) => true,
    }
}

/// Whether moves are in range.
pub open spec fn moves_fit(
    macros: Seq<MacroTemplate>,
    library: Seq<MacroInstance>,
    positions: Seq<Position>,
    max_step: usize,
) -> bool {
    exists|bound: int| #[trigger] moves_bounded(macros, library, positions, max_step, bound)
}

fn last_cell_at(position: Position, size: DimSize) -> (last: Position)
    requires
        size.0 > 0 && position.0 + size.0 <= usize::MAX,
        size.1 > 0 && position.1 + size.1 <= usize::MAX,
        size.2 > 0 && position.2 + size.2 <= usize::MAX,
    ensures
        last == last_cell(position, size),
{
    Position(position.0 + size.0 - 1, position.1 + size.1 - 1, position.2 + size.2 - 1)
}

fn random_deltas(rng: &mut DeterministicRng, step: usize, Ghost(start): Ghost<u64>, Ghost(count): Ghost<nat>) -> (delta: (
    i64,
    i64,
    i64,
))
    requires
        2 * step + 1 <= usize::MAX,
        2 * step + 1 <= i64::MAX,
        old(rng).state == drawn(start, count),
    ensures
        (delta.0 as int, delta.1 as int, delta.2 as int) == random_steps(start, count + 1, step),
        -reach_of(step) <= delta.0 <= reach_of(step),
        -reach_of(step) <= delta.1 <= reach_of(step),
        -reach_of(step) <= delta.2 <= reach_of(step),
        final(rng).state == drawn(start, count + 3),
{
    proof {
        reveal_with_fuel(drawn, 4);
    }
    let x: i64 = random_delta(rng, step);
    let y: i64 = random_delta(rng, step);
    let z: i64 = random_delta(rng, step);
    (x, y, z)
}

/// Moves one instance away from those near it.
#[verifier::spinoff_prover]
#[verifier::rlimit(60)]
fn spread_move(
    problem: &PlacementProblem,
    positions: &mut Vec<Position>,
    rng: &mut DeterministicRng,
    config: &InitialPlacementConfig,
    max_step: usize,
    Ghost(start): Ghost<u64>,
    Ghost(bound): Ghost<int>,
) -> (result: Result<(), PlacementError>)
    requires
        moves_bounded(problem.macros@, problem.instances@, old(positions)@, max_step, bound),
        old(positions)@.len() > 0,
        old(rng).state == drawn(start, 1),
    ensures
        match result {
            Ok(_) => spread(
                problem.macros@,
                problem.instances@,
                old(positions)@,
                config.world,
                config.spacing,
                max_step,
                start,
            ) == Ok::<Seq<Position>, PlacementErrorView>(final(positions)@),
            Err(error) => spread(
                problem.macros@,
                problem.instances@,
                old(positions)@,
                config.world,
                config.spacing,
                max_step,
                start,
            ) == Err::<Seq<Position>, PlacementErrorView>(error@),
        },
        final(positions)@.len() == old(positions)@.len(),
        result is Ok ==> final(rng).state == drawn(
            start,
            spread_draws(problem.macros@, problem.instances@, old(positions)@, config.spacing, start),
        ),
{
    let ghost m = problem.macros@;
    let ghost library = problem.instances@;
    let ghost before = positions@;
    let count: usize = positions.len();
    proof {
        reveal_with_fuel(drawn, 3);
        assert((count + 1) * bound >= bound) by (nonlinear_arith)
            requires
                count >= 0,
                bound >= 1,
        ;
    }
    let index: usize = rng.below(count);
    let ghost at = index as int;
    assert(place_bounded(m, library, before[at], at, bound));
    let size = match instance_template(&problem.macros, &problem.instances, index) {
        Err(error) => return Err(error),
        Ok(template) => template.size,
    };
    let min = positions[index];
    let max = last_cell_at(min, size);
    let spacing: usize = config.spacing;
    let low = widen_low(min, spacing);
    let high = widen_high(max, spacing);
    let mut x: usize = 0;
    let mut y: usize = 0;
    let mut z: usize = 0;
    let mut neighbors: usize = 0;
    let mut other: usize = 0;
    while other < count
        invariant
            other <= count,
            count == before.len(),
            m == problem.macros@,
            library == problem.instances@,
            before == positions@,
            before == old(positions)@,
            at == index,
            index < count,
            spacing == config.spacing,
            at == draw(start, 2, before.len() as int),
            rng.state == drawn(start, 2),
            template_of(m, library, index) is Ok,
            template_of(m, library, index)->Ok_0.size == size,
            moves_bounded(m, library, before, max_step, bound),
            min == before[at],
            max == last_cell(min, size),
            low == Position(less(min.0, spacing), less(min.1, spacing), less(min.2, spacing)),
            high == Position(more(max.0, spacing), more(max.1, spacing), more(max.2, spacing)),
            crowd_around(m, library, before, spacing, at, size, other as nat) == Ok::<Crowd, PlacementErrorView>(
                Crowd { count: neighbors as nat, x: x as nat, y: y as nat, z: z as nat },
            ),
            neighbors <= other,
            x <= neighbors * (2 * bound),
            y <= neighbors * (2 * bound),
            z <= neighbors * (2 * bound),
        decreases count - other,
    {
        if other != index {
            assert(place_bounded(m, library, before[other as int], other as int, bound));
            proof {
                assert((count + 1) * bound >= bound) by (nonlinear_arith)
                    requires
                        count >= 0,
                        bound >= 1,
                ;
                assert((neighbors + 1) * (2 * bound) <= 4 * ((count + 1) * bound)) by (nonlinear_arith)
                    requires
                        neighbors < count,
                        bound >= 1,
                ;
                assert((neighbors + 1) * (2 * bound) == neighbors * (2 * bound) + 2 * bound) by (nonlinear_arith);
            }
            match instance_template(&problem.macros, &problem.instances, other) {
                Err(error) => {
                    proof {
                        crowd_fails(m, library, before, spacing, at, size, (other + 1) as nat, count as nat);
                    }
                    return Err(error);
                },
                Ok(template) => {
                    let other_min = positions[other];
                    let other_max = last_cell_at(other_min, template.size);
                    if aabb_intersects((low, high), (other_min, other_max)) {
                        x += (other_min.0 + other_max.0) / 2;
                        y += (other_min.1 + other_max.1) / 2;
                        z += (other_min.2 + other_max.2) / 2;
                        neighbors += 1;
                    }
                },
            }
        }
        other += 1;
    }
    assert(place_bounded(m, library, before[at], at, bound));
    let delta: (i64, i64, i64) = if neighbors == 0 {
        random_deltas(rng, max_step, Ghost(start), Ghost(2nat))
    } else {
        proof {
            let ghost count_int = neighbors as int;
            assert(0 <= x as int / count_int <= 2 * bound) by (nonlinear_arith)
                requires
                    0 <= x <= count_int * (2 * bound),
                    count_int > 0,
            ;
            assert(0 <= y as int / count_int <= 2 * bound) by (nonlinear_arith)
                requires
                    0 <= y <= count_int * (2 * bound),
                    count_int > 0,
            ;
            assert(0 <= z as int / count_int <= 2 * bound) by (nonlinear_arith)
                requires
                    0 <= z <= count_int * (2 * bound),
                    count_int > 0,
            ;
        }
        let step_x: i64 = sign(((min.0 + max.0) / 2) as i64 - (x / neighbors) as i64);
        let step_y: i64 = sign(((min.1 + max.1) / 2) as i64 - (y / neighbors) as i64);
        let step_z: i64 = sign(((min.2 + max.2) / 2) as i64 - (z / neighbors) as i64);
        if step_x == 0 && step_y == 0 && step_z == 0 {
            (1, 0, 0)
        } else {
            (step_x, step_y, step_z)
        }
    };
    positions[index] = clamp_origin(apply_delta(min, delta), size, config.world);
    Ok(())
}

/// Proposes a move of a placement: a random step of one instance, an exchange
/// of two, or a step away from the instances near one.
pub fn propose_move(
    problem: &PlacementProblem,
    instances: &Vec<MacroInstance>,
    rng: &mut DeterministicRng,
    config: &InitialPlacementConfig,
    max_translate_step: usize,
) -> (result: Result<Vec<MacroInstance>, PlacementError>)
    requires
        moves_fit(problem.macros@, problem.instances@, positions_of(instances@), max_translate_step),
    ensures
        match proposal(
            problem.macros@,
            problem.instances@,
            positions_of(instances@),
            *config,
            max_translate_step,
            old(rng).state,
        ) {
            Ok(positions) => result matches Ok(candidate) && candidate@ == moved_to(instances@, positions),
            Err(expected) => result matches Err(error) && error@ == expected,
        },
        result is Ok ==> final(rng).state == drawn(
            old(rng).state,
            proposal_draws(problem.macros@, problem.instances@, positions_of(instances@), *config, old(rng).state),
        ),
{
    let ghost m = problem.macros@;
    let ghost library = problem.instances@;
    let ghost before = positions_of(instances@);
    let ghost start = rng.state;
    let ghost bound = choose|bound: int| #[trigger] moves_bounded(m, library, before, max_translate_step, bound);
    let mut positions = collect_positions(instances);
    let count: usize = positions.len();
    if count == 0 {
        return Ok(move_to(instances, &positions));
    }
    proof {
        reveal_with_fuel(drawn, 4);
        assert((count + 1) * bound >= bound) by (nonlinear_arith)
            requires
                count >= 0,
                bound >= 1,
        ;
    }
    let choice: usize = rng.below(100);
    if choice < 60 || count < 2 {
        let index: usize = rng.below(count);
        let ghost at = index as int;
        assert(place_bounded(m, library, before[at], at, bound));
        let size = match instance_template(&problem.macros, &problem.instances, index) {
            Err(error) => return Err(error),
            Ok(template) => template.size,
        };
        let delta = random_deltas(rng, max_translate_step, Ghost(start), Ghost(2nat));
        positions[index] = clamp_origin(apply_delta(positions[index], delta), size, config.world);
        return Ok(move_to(instances, &positions));
    }
    if choice < 80 {
        let first: usize = rng.below(count);
        let picked: usize = rng.below(count - 1);
        let second: usize = if picked >= first {
            picked + 1
        } else {
            picked
        };
        let first_place = positions[first];
        let second_place = positions[second];
        let first_size = match instance_template(&problem.macros, &problem.instances, first) {
            Err(error) => return Err(error),
            Ok(template) => template.size,
        };
        let second_size = match instance_template(&problem.macros, &problem.instances, second) {
            Err(error) => return Err(error),
            Ok(template) => template.size,
        };
        positions[first] = clamp_origin(second_place, first_size, config.world);
        positions[second] = clamp_origin(first_place, second_size, config.world);
        return Ok(move_to(instances, &positions));
    }
    match spread_move(problem, &mut positions, rng, config, max_translate_step, Ghost(start), Ghost(bound)) {
        Err(error) => Err(error),
        Ok(_) => Ok(move_to(instances, &positions)),
    }
}

/// A proposed move keeps the number of instances and moves at most two of them.
pub proof fn proposal_moves_two(
    macros: Seq<MacroTemplate>,
    library: Seq<MacroInstance>,
    positions: Seq<Position>,
    config: InitialPlacementConfig,
    max_step: usize,
    state: u64,
) -> (moved: (int, int))
    requires
        proposal(macros, library, positions, config, max_step, state) is Ok,
    ensures
        ({
            let after = proposal(macros, library, positions, config, max_step, state)->Ok_0;
            &&& after.len() == positions.len()
            &&& forall|i: int|
                0 <= i < positions.len() && i != moved.0 && i != moved.1 ==> #[trigger] after[i] == positions[i]
        }),
{
    let count = positions.len() as int;
    if count == 0 {
        (0, 0)
    } else {
        let first = draw(state, 2, count);
        let second = if count < 2 {
            first
        } else {
            other_index(first, draw(state, 3, count - 1))
        };
        assert(0 <= first < count) by (nonlinear_arith)
            requires
                first == drawn(state, 2) as int % count,
                count > 0,
        ;
        if count >= 2 {
            let picked = draw(state, 3, count - 1);
            assert(0 <= picked < count - 1) by (nonlinear_arith)
                requires
                    picked == drawn(state, 3) as int % (count - 1),
                    count - 1 > 0,
            ;
        }
        (first, second)
    }
}

} // verus!
