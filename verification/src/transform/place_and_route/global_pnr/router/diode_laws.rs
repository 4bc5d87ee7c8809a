//! How the adapters in front of an input stand.

use super::diode::{are_sides, clamped_delay, kept, sink_and_repeater, touches_only, whole_adapter, InputDiodeAdapter, InputSite};
use super::tools::RouteTools;
use crate::transform::place_and_route::global_pnr::candidate::plain_dust;
use crate::transform::place_and_route::global_pnr::dust::says;
use crate::transform::place_and_route::global_pnr::route_engine::adapter::{is_put, is_supported, just, plain_repeater};
use crate::transform::place_and_route::global_pnr::route_engine::adapter_laws::in_a_row;
use crate::transform::place_and_route::global_pnr::route_engine::search::PlaceRequest;
use crate::transform::place_and_route::global_pnr::route_engine::state::{is_signal, PlaceBound};
use crate::world::block::{Block, BlockKind};
use crate::world::grid::{same_world, World3D};
use crate::world::position::{in_bounds, is_beside, neighbour, opposite, step_towards, Direction, Position};
use vstd::prelude::*;

verus! {

/// Whether a block is a repeater that gives its signal away from a cell, with a
/// delay between one and four that is as near as can be to another.
pub open spec fn is_delaying(block: Block, repeater: Position, driver: Position, delay: usize) -> bool {
    &&& neighbour(repeater, block.direction) == Some(driver)
    &&& block.kind matches BlockKind::Repeater { delay: own, .. } && 1 <= own <= 4 && (1 <= delay <= 4 ==> own == delay) && (
    delay > 4 ==> own == 4)
}

/// Whether a block touches no signal of a world but those in cells that it may
/// touch.
pub open spec fn is_clear_of_others<F: Fn(&World3D, Position, Position) -> bool>(
    rule: &F,
    world: World3D,
    after: World3D,
    cell: Position,
    additional: Seq<Position>,
    row: Seq<Position>,
) -> bool {
    forall|i: int|
        {
            &&& 0 <= i < world.listed().len()
            &&& is_signal((#[trigger] world.listed()[i]).1.kind)
            &&& !additional.contains(world.listed()[i].0)
            &&& !row.contains(world.listed()[i].0)
        } ==> !says(rule, after, cell, world.listed()[i].0) && !says(rule, after, world.listed()[i].0, cell)
}

proof fn touching_only_is_clear<F: Fn(&World3D, Position, Position) -> bool>(
    rule: &F,
    world: World3D,
    after: World3D,
    cell: Position,
    additional: Seq<Position>,
    local: Seq<Position>,
)
    requires
        touches_only(rule, world, after, cell, additional, local),
    ensures
        is_clear_of_others(rule, world, after, cell, additional, local),
{
    let allowed = choose|allowed: Seq<Position>| #[trigger]
        super::diode::are_both(allowed, additional, local)
            && !crate::transform::place_and_route::global_pnr::route_engine::contacts::touches_other_signal(
            rule,
            world,
            after,
            cell,
            allowed,
        );
    let blocks = world.listed();
    assert forall|i: int|
        {
            &&& 0 <= i < blocks.len()
            &&& is_signal((#[trigger] blocks[i]).1.kind)
            &&& !additional.contains(blocks[i].0)
            &&& !local.contains(blocks[i].0)
        } implies !says(rule, after, cell, blocks[i].0) && !says(rule, after, blocks[i].0, cell) by {
        assert(!allowed.contains(blocks[i].0));
    }
}

proof fn kept_was_tried(outcomes: Seq<Option<InputDiodeAdapter>>, k: int) -> (at: int)
    requires
        0 <= k < kept(outcomes).len(),
    ensures
        0 <= at < outcomes.len(),
        outcomes[at] == Some(kept(outcomes)[k]),
    decreases outcomes.len(),
{
    let rest = kept(outcomes.drop_last());
    if k < rest.len() {
        let at = kept_was_tried(outcomes.drop_last(), k);
        assert(outcomes.drop_last()[at] == outcomes[at]);
        at
    } else {
        outcomes.len() - 1
    }
}

impl<
    F: Fn(&World3D, Position, Position) -> bool,
    C: Fn(&World3D, Position, Position) -> bool,
    B: Fn(&World3D, Position) -> Vec<PlaceBound>,
    L: Fn(&World3D, &PlaceRequest) -> Option<(World3D, Position)>,
    P: Fn(&World3D, Position, Block, &Vec<Position>) -> Option<World3D>,
    S: Fn(&World3D, Position, Option<bool>, &Vec<Position>) -> Option<Vec<bool>>,
> RouteTools<F, C, B, L, P, S> {
    /// Whether an adapter stands in front of an input, as it was built: a repeater
    /// beside the input and dust before it, in a row, both in cells that were free,
    /// and clear of what they may not touch. The dust powers the repeater, and that
    /// the input.
    pub open spec fn stands_before(
        &self,
        world: World3D,
        sink: Position,
        delay: usize,
        additional: Seq<Position>,
        adapter: InputDiodeAdapter,
    ) -> bool {
        &&& adapter.target == sink
        &&& in_a_row(sink, adapter.repeater, adapter.driver)
        &&& in_bounds(world.size, adapter.repeater)
        &&& in_bounds(world.size, adapter.driver)
        &&& world.at(adapter.repeater).kind is Air
        &&& world.at(adapter.driver).kind is Air
        &&& says(&self.rule, adapter.world, adapter.driver, adapter.repeater)
        &&& says(&self.rule, adapter.world, adapter.repeater, sink)
        &&& is_clear_of_others(
            &self.rule,
            world,
            adapter.world,
            adapter.driver,
            additional,
            seq![sink, adapter.repeater, adapter.driver],
        )
        &&& exists|ready: World3D, halfway: World3D| #[trigger]
            self.is_built(world, sink, delay, additional, adapter, ready, halfway)
    }

    /// Whether the repeater of an adapter was built, and then its dust.
    pub open spec fn is_built(
        &self,
        world: World3D,
        sink: Position,
        delay: usize,
        additional: Seq<Position>,
        adapter: InputDiodeAdapter,
        ready: World3D,
        halfway: World3D,
    ) -> bool {
        &&& exists|block: Block, allowed: Vec<Position>| #[trigger]
            call_ensures(self.put, (&ready, adapter.repeater, block, &allowed), Some(halfway)) && is_delaying(
                block,
                adapter.repeater,
                adapter.driver,
                delay,
            )
        &&& is_clear_of_others(&self.rule, world, halfway, adapter.repeater, additional, seq![sink, adapter.repeater])
        &&& exists|block: Block, allowed: Vec<Position>| #[trigger]
            call_ensures(self.put, (&halfway, adapter.driver, block, &allowed), Some(adapter.world))
                && block.kind is Redstone
    }

    proof fn input_adapter_stands(
        &self,
        world: World3D,
        sink: Position,
        cell: Position,
        delay: usize,
        additional: Seq<Position>,
        adapter: InputDiodeAdapter,
    )
        requires
            is_beside(sink, cell),
            self.is_input_adapter(
                world,
                sink,
                cell,
                opposite(step_towards(cell, sink)),
                delay,
                additional,
                Some(adapter),
            ),
        ensures
            self.stands_before(world, sink, delay, additional, adapter),
    {
        let result = Some(adapter);
        let direction = opposite(step_towards(cell, sink));
        let driver = neighbour(cell, direction)->0;
        let first = neighbour(cell, Direction::Bottom)->0;
        let second = neighbour(driver, Direction::Bottom)->0;
        let site = InputSite { world, sink, repeater: cell, driver, direction, delay, additional };
        assert(self.input_support_part(site, first, second, result));
        let (start, one) = choose|start: World3D, one: Option<World3D>| #[trigger]
            is_supported(&self.put, start, first, one) && same_world(start, site.world) && match one {
                None => result is None,
                Some(world) => self.input_second_part(site, world, second, result),
            };
        assert(self.input_second_part(site, one->0, second, result));
        let two = choose|two: Option<World3D>| #[trigger]
            is_supported(&self.put, one->0, second, two) && match two {
                None => result is None,
                Some(world) => self.input_repeater_part(site, world, result),
            };
        let ready = two->0;
        assert(self.input_repeater_part(site, ready, result));
        let block = plain_repeater(site.direction, clamped_delay(site.delay));
        let half = choose|after: Option<World3D>| #[trigger]
            is_put(&self.put, ready, site.repeater, block, just(site.sink), after) && match after {
                None => result is None,
                Some(built) => touches_only(
                    &self.rule,
                    site.world,
                    built,
                    site.repeater,
                    site.additional,
                    sink_and_repeater(site),
                ) && self.input_driver_part(site, built, result),
            };
        let halfway = half->0;
        assert(self.input_driver_part(site, halfway, result));
        let after = choose|after: Option<World3D>| #[trigger]
            is_put(&self.put, halfway, site.driver, plain_dust(), just(site.repeater), after) && after is Some && {
                let built = after->0;
                &&& touches_only(&self.rule, site.world, built, site.driver, site.additional, whole_adapter(site))
                &&& says(&self.rule, built, site.driver, site.repeater)
                &&& says(&self.rule, built, site.repeater, site.sink)
                &&& adapter == (InputDiodeAdapter {
                    world: built,
                    driver: site.driver,
                    repeater: site.repeater,
                    target: site.sink,
                })
            };
        touching_only_is_clear(&self.rule, world, halfway, cell, additional, sink_and_repeater(site));
        touching_only_is_clear(&self.rule, world, adapter.world, driver, additional, whole_adapter(site));
        let one_list = choose|cells: Vec<Position>| #[trigger]
            call_ensures(self.put, (&ready, site.repeater, block, &cells), half);
        let other_list = choose|cells: Vec<Position>| #[trigger]
            call_ensures(self.put, (&halfway, site.driver, plain_dust(), &cells), after);
        assert(is_delaying(block, cell, driver, delay));
        assert(call_ensures(self.put, (&ready, adapter.repeater, block, &one_list), Some(halfway)));
        assert(call_ensures(self.put, (&halfway, adapter.driver, plain_dust(), &other_list), Some(adapter.world)));
        assert(self.is_built(world, sink, delay, additional, adapter, ready, halfway));
    }

    /// Each of the adapters that can be built in front of an input leads to it: its
    /// dust powers its repeater, and that the input, in a row.
    pub proof fn input_adapters_lead_to_the_input(
        &self,
        world: World3D,
        sink: Position,
        delay: usize,
        additional: Seq<Position>,
        adapters: Seq<InputDiodeAdapter>,
    )
        requires
            self.are_input_adapters(world, sink, delay, additional, adapters),
        ensures
            forall|k: int|
                0 <= k < adapters.len() ==> self.stands_before(world, sink, delay, additional, #[trigger] adapters[k]),
    {
        let (cells, outcomes) = choose|cells: Seq<Position>, outcomes: Seq<Option<InputDiodeAdapter>>|
            {
                &&& #[trigger] are_sides(sink, cells)
                &&& #[trigger] self.are_input_outcomes(world, sink, delay, additional, cells, outcomes)
                &&& adapters == kept(outcomes)
            };
        assert forall|k: int| 0 <= k < adapters.len() implies self.stands_before(
            world,
            sink,
            delay,
            additional,
            #[trigger] adapters[k],
        ) by {
            let at = kept_was_tried(outcomes, k);
            assert(outcomes[at] == Some(adapters[k]));
            self.input_adapter_stands(world, sink, cells[at], delay, additional, adapters[k]);
        }
    }
}

} // verus!
