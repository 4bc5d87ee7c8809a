//! Repeaters in front of inputs that may not be powered back from.

use super::tools::RouteTools;
use crate::transform::place_and_route::global_pnr::candidate::{new_redstone, plain_dust};
use crate::transform::place_and_route::global_pnr::dust::{is_rule, says};
use crate::transform::place_and_route::global_pnr::route_engine::adapter::{
    is_put, is_supported, just, new_repeater, place_support_cobble_if_needed, plain_repeater, put_touching,
};
use crate::transform::place_and_route::global_pnr::route_engine::contacts::{
    adapter_allowed_contacts, adapter_touches_forbidden_existing_signal, touches_other_signal,
};
use crate::transform::place_and_route::global_pnr::route_engine::search::PlaceRequest;
use crate::transform::place_and_route::global_pnr::route_engine::state::PlaceBound;
use crate::world::block::Block;
use crate::world::grid::{same_world, World3D};
use crate::world::position::{
    in_bounds, is_beside, is_sorted, neighbour, opposite, step_towards, Direction, Position,
};
use vstd::prelude::*;

verus! {

/// A repeater in front of an input, with the dust that drives it.
#[derive(Debug)]
pub struct InputDiodeAdapter {
    pub world: World3D,
    pub driver: Position,
    pub repeater: Position,
    pub target: Position,
}

/// Where an adapter in front of an input is built.
pub ghost struct InputSite {
    pub world: World3D,
    pub sink: Position,
    pub repeater: Position,
    pub driver: Position,
    pub direction: Direction,
    pub delay: usize,
    pub additional: Seq<Position>,
}

/// The delay of the repeater of an adapter.
pub open spec fn clamped_delay(delay: usize) -> usize {
    if delay < 1 {
        1
    } else if delay > 4 {
        4
    } else {
        delay
    }
}

/// Whether a part of an adapter touches none but the cells that it may touch.
pub open spec fn touches_only<F: Fn(&World3D, Position, Position) -> bool>(
    rule: &F,
    world: World3D,
    built: World3D,
    cell: Position,
    additional: Seq<Position>,
    local: Seq<Position>,
) -> bool {
    exists|allowed: Seq<Position>| #[trigger]
        are_both(allowed, additional, local) && !touches_other_signal(rule, world, built, cell, allowed)
}

/// Whether cells are those of two lists together.
pub open spec fn are_both(cells: Seq<Position>, left: Seq<Position>, right: Seq<Position>) -> bool {
    &&& is_sorted(cells)
    &&& forall|cell: Position| #[trigger] cells.contains(cell) <==> left.contains(cell) || right.contains(cell)
}

/// What the repeater of an adapter may touch.
pub open spec fn sink_and_repeater(site: InputSite) -> Seq<Position> {
    seq![site.sink, site.repeater]
}

/// What the dust of an adapter may touch.
pub open spec fn whole_adapter(site: InputSite) -> Seq<Position> {
    seq![site.sink, site.repeater, site.driver]
}

impl<
    F: Fn(&World3D, Position, Position) -> bool,
    C: Fn(&World3D, Position, Position) -> bool,
    B: Fn(&World3D, Position) -> Vec<PlaceBound>,
    L: Fn(&World3D, &PlaceRequest) -> Option<(World3D, Position)>,
    P: Fn(&World3D, Position, Block, &Vec<Position>) -> Option<World3D>,
    S: Fn(&World3D, Position, Option<bool>, &Vec<Position>) -> Option<Vec<bool>>,
> RouteTools<F, C, B, L, P, S> {
    /// What becomes of an adapter once its repeater stands: the dust that drives
    /// it is put in front of it, and has to power it, as it has to power the
    /// input.
    pub open spec fn input_driver_part(
        &self,
        site: InputSite,
        ready: World3D,
        result: Option<InputDiodeAdapter>,
    ) -> bool {
        exists|after: Option<World3D>| #[trigger]
            is_put(&self.put, ready, site.driver, plain_dust(), just(site.repeater), after) && match after {
                None => result is None,
                Some(built) => {
                    let stands = {
                        &&& touches_only(
                            &self.rule,
                            site.world,
                            built,
                            site.driver,
                            site.additional,
                            whole_adapter(site),
                        )
                        &&& says(&self.rule, built, site.driver, site.repeater)
                        &&& says(&self.rule, built, site.repeater, site.sink)
                    };
                    match result {
                        Some(adapter) => {
                            &&& stands
                            &&& adapter == (InputDiodeAdapter {
                                world: built,
                                driver: site.driver,
                                repeater: site.repeater,
                                target: site.sink,
                            })
                        },
                        None => !stands,
                    }
                },
            }
    }

    /// What becomes of an adapter once its supports stand: its repeater is put
    /// in front of the input.
    pub open spec fn input_repeater_part(
        &self,
        site: InputSite,
        ready: World3D,
        result: Option<InputDiodeAdapter>,
    ) -> bool {
        exists|after: Option<World3D>| #[trigger]
            is_put(
                &self.put,
                ready,
                site.repeater,
                plain_repeater(site.direction, clamped_delay(site.delay)),
                just(site.sink),
                after,
            ) && match after {
                None => result is None,
                Some(built) => if touches_only(
                    &self.rule,
                    site.world,
                    built,
                    site.repeater,
                    site.additional,
                    sink_and_repeater(site),
                ) {
                    self.input_driver_part(site, built, result)
                } else {
                    result is None
                },
            }
    }

    /// What becomes of an adapter: its supports are put below it first.
    pub open spec fn input_support_part(
        &self,
        site: InputSite,
        first: Position,
        second: Position,
        result: Option<InputDiodeAdapter>,
    ) -> bool {
        exists|start: World3D, one: Option<World3D>| #[trigger]
            is_supported(&self.put, start, first, one) && same_world(start, site.world) && match one {
                None => result is None,
                Some(world) => self.input_second_part(site, world, second, result),
            }
    }

    /// What becomes of an adapter once its first support stands.
    pub open spec fn input_second_part(
        &self,
        site: InputSite,
        ready: World3D,
        second: Position,
        result: Option<InputDiodeAdapter>,
    ) -> bool {
        exists|two: Option<World3D>| #[trigger]
            is_supported(&self.put, ready, second, two) && match two {
                None => result is None,
                Some(world) => self.input_repeater_part(site, world, result),
            }
    }

    /// What building an adapter in front of an input comes to.
    pub open spec fn is_input_adapter(
        &self,
        world: World3D,
        sink: Position,
        repeater: Position,
        direction: Direction,
        delay: usize,
        additional: Seq<Position>,
        result: Option<InputDiodeAdapter>,
    ) -> bool {
        if !in_bounds(world.size, repeater) || !(world.at(repeater).kind is Air) {
            result is None
        } else {
            match neighbour(repeater, direction) {
                None => result is None,
                Some(driver) => if !in_bounds(world.size, driver) || !(world.at(driver).kind is Air) {
                    result is None
                } else {
                    match (neighbour(repeater, Direction::Bottom), neighbour(driver, Direction::Bottom)) {
                        (Some(first), Some(second)) => self.input_support_part(
                            InputSite { world, sink, repeater, driver, direction, delay, additional },
                            first,
                            second,
                            result,
                        ),
                        _ => result is None,
                    }
                },
            }
        }
    }

    /// Builds an adapter in front of an input: a repeater, and dust that drives
    /// it.
    pub fn input_repeater_adapter_world(
        &self,
        world: &World3D,
        sink: Position,
        repeater: Position,
        direction: Direction,
        delay: usize,
        additional: &Vec<Position>,
    ) -> (result: Option<InputDiodeAdapter>)
        requires
            self.valid(),
            world.wf(),
        ensures
            self.is_input_adapter(*world, sink, repeater, direction, delay, additional@, result),
            result matches Some(adapter) ==> adapter.world.wf(),
    {
        if !world.size.bound_on(repeater) || !world.get(repeater).kind.is_air() {
            return None;
        }
        let driver = match repeater.walk(direction) {
            None => return None,
            Some(driver) => driver,
        };
        if !world.size.bound_on(driver) || !world.get(driver).kind.is_air() {
            return None;
        }
        let first = match repeater.down() {
            None => return None,
            Some(first) => first,
        };
        let second = match driver.down() {
            None => return None,
            Some(second) => second,
        };
        let ghost site = InputSite {
            world: *world,
            sink,
            repeater,
            driver,
            direction,
            delay,
            additional: additional@,
        };
        let start = world.copy();
        let ghost begun = start;
        let one = place_support_cobble_if_needed(&self.put, start, first);
        assert(is_supported(&self.put, begun, first, one) && same_world(begun, site.world));
        let supported = match one {
            None => {
                assert(self.input_support_part(site, first, second, None));
                return None;
            },
            Some(supported) => supported,
        };
        let ghost once = supported;
        let two = place_support_cobble_if_needed(&self.put, supported, second);
        assert(is_supported(&self.put, once, second, two));
        let ready = match two {
            None => {
                assert(self.input_second_part(site, once, second, None));
                assert(self.input_support_part(site, first, second, None));
                return None;
            },
            Some(ready) => ready,
        };
        let result = self.build_input_adapter(world, sink, repeater, driver, direction, delay, additional, &ready);
        assert(self.input_repeater_part(site, ready, result));
        assert(self.input_second_part(site, once, second, result));
        assert(self.input_support_part(site, first, second, result));
        result
    }

    fn build_input_adapter(
        &self,
        world: &World3D,
        sink: Position,
        repeater: Position,
        driver: Position,
        direction: Direction,
        delay: usize,
        additional: &Vec<Position>,
        ready: &World3D,
    ) -> (result: Option<InputDiodeAdapter>)
        requires
            self.valid(),
            world.wf(),
        ensures
            self.input_repeater_part(
                InputSite { world: *world, sink, repeater, driver, direction, delay, additional: additional@ },
                *ready,
                result,
            ),
            result matches Some(adapter) ==> adapter.world.wf(),
    {
        let ghost site = InputSite {
            world: *world,
            sink,
            repeater,
            driver,
            direction,
            delay,
            additional: additional@,
        };
        let clamped: usize = if delay < 1 {
            1
        } else if delay > 4 {
            4
        } else {
            delay
        };
        let after = put_touching(&self.put, ready, repeater, new_repeater(direction, clamped), sink);
        assert(is_put(
            &self.put,
            *ready,
            site.repeater,
            plain_repeater(site.direction, clamped_delay(site.delay)),
            just(site.sink),
            after,
        ));
        let built = match after {
            None => return None,
            Some(built) => built,
        };
        let local = vec![sink, repeater];
        assert(local@ =~= sink_and_repeater(site));
        if !touches_nothing_else(&self.rule, world, &built, repeater, additional, &local) {
            return None;
        }
        let result = self.build_input_driver(world, sink, repeater, driver, additional, &built, Ghost(site));
        assert(self.input_driver_part(site, built, result));
        result
    }

    fn build_input_driver(
        &self,
        world: &World3D,
        sink: Position,
        repeater: Position,
        driver: Position,
        additional: &Vec<Position>,
        ready: &World3D,
        Ghost(site): Ghost<InputSite>,
    ) -> (result: Option<InputDiodeAdapter>)
        requires
            self.valid(),
            world.wf(),
            site.world == *world,
            site.sink == sink,
            site.repeater == repeater,
            site.driver == driver,
            site.additional == additional@,
        ensures
            self.input_driver_part(site, *ready, result),
            result matches Some(adapter) ==> adapter.world.wf(),
    {
        let after = put_touching(&self.put, ready, driver, new_redstone(), repeater);
        assert(is_put(&self.put, *ready, site.driver, plain_dust(), just(site.repeater), after));
        let built = match after {
            None => return None,
            Some(built) => built,
        };
        let local = vec![sink, repeater, driver];
        assert(local@ =~= whole_adapter(site));
        if !touches_nothing_else(&self.rule, world, &built, driver, additional, &local) {
            return None;
        }
        let rule = &self.rule;
        if !rule(&built, driver, repeater) {
            return None;
        }
        if !rule(&built, repeater, sink) {
            return None;
        }
        Some(InputDiodeAdapter { world: built, driver, repeater, target: sink })
    }

    /// Whether adapters are those that can be built in front of an input.
    pub open spec fn are_input_adapters(
        &self,
        world: World3D,
        sink: Position,
        delay: usize,
        additional: Seq<Position>,
        adapters: Seq<InputDiodeAdapter>,
    ) -> bool {
        exists|cells: Seq<Position>, outcomes: Seq<Option<InputDiodeAdapter>>|
            {
                &&& #[trigger] are_sides(sink, cells)
                &&& #[trigger] self.are_input_outcomes(world, sink, delay, additional, cells, outcomes)
                &&& adapters == kept(outcomes)
            }
    }

    /// Whether outcomes are what building an adapter in each cell comes to.
    pub open spec fn are_input_outcomes(
        &self,
        world: World3D,
        sink: Position,
        delay: usize,
        additional: Seq<Position>,
        cells: Seq<Position>,
        outcomes: Seq<Option<InputDiodeAdapter>>,
    ) -> bool {
        &&& outcomes.len() == cells.len()
        &&& forall|i: int|
            0 <= i < cells.len() ==> self.is_input_adapter(
                world,
                sink,
                cells[i],
                opposite(step_towards(cells[i], sink)),
                delay,
                additional,
                #[trigger] outcomes[i],
            )
    }

    /// The adapters that can be built in front of an input.
    pub fn redstone_input_repeater_adapters(
        &self,
        world: &World3D,
        sink: Position,
        delay: usize,
        additional: &Vec<Position>,
    ) -> (adapters: Vec<InputDiodeAdapter>)
        requires
            self.valid(),
            world.wf(),
        ensures
            self.are_input_adapters(*world, sink, delay, additional@, adapters@),
            forall|i: int| 0 <= i < adapters@.len() ==> (#[trigger] adapters@[i]).world.wf(),
    {
        let cells = sink.cardinal();
        let mut adapters: Vec<InputDiodeAdapter> = Vec::new();
        let ghost mut outcomes = Seq::<Option<InputDiodeAdapter>>::empty();
        let mut index: usize = 0;
        while index < cells.len()
            invariant
                index <= cells.len(),
                self.valid(),
                world.wf(),
                outcomes.len() == index,
                adapters@ == kept(outcomes),
                forall|i: int| 0 <= i < adapters@.len() ==> (#[trigger] adapters@[i]).world.wf(),
                forall|i: int|
                    0 <= i < index ==> self.is_input_adapter(
                        *world,
                        sink,
                        cells@[i],
                        opposite(step_towards(cells@[i], sink)),
                        delay,
                        additional@,
                        #[trigger] outcomes[i],
                    ),
            decreases cells.len() - index,
        {
            let cell = cells[index];
            let direction = cell.diff(sink).inverse();
            let outcome = self.input_repeater_adapter_world(world, sink, cell, direction, delay, additional);
            let ghost before = outcomes;
            let ghost had = adapters@;
            proof {
                outcomes = outcomes.push(outcome);
                assert(outcomes.drop_last() =~= before);
            }
            if let Some(adapter) = outcome {
                adapters.push(adapter);
                assert forall|i: int| 0 <= i < adapters@.len() implies (#[trigger] adapters@[i]).world.wf() by {
                    if i < had.len() {
                        assert(adapters@[i] == had[i]);
                    }
                }
            }
            assert(adapters@ =~= kept(outcomes));
            index += 1;
        }
        assert(are_sides(sink, cells@));
        assert(self.are_input_outcomes(*world, sink, delay, additional@, cells@, outcomes));
        adapters
    }
}

/// Whether a part of an adapter touches none but the cells that it may touch.
fn touches_nothing_else<F: Fn(&World3D, Position, Position) -> bool>(
    rule: &F,
    world: &World3D,
    built: &World3D,
    cell: Position,
    additional: &Vec<Position>,
    local: &Vec<Position>,
) -> (clear: bool)
    requires
        is_rule(rule),
        world.wf(),
    ensures
        clear == touches_only(rule, *world, *built, cell, additional@, local@),
{
    let allowed = adapter_allowed_contacts(additional, local);
    let touches = adapter_touches_forbidden_existing_signal(rule, world, built, cell, &allowed);
    proof {
        assert(are_both(allowed@, additional@, local@));
        assert forall|other: Seq<Position>| #[trigger] are_both(other, additional@, local@) implies touches_other_signal(
            rule,
            *world,
            *built,
            cell,
            other,
        ) == touches by {
            assert forall|i: Position| other.contains(i) == allowed@.contains(i) by {}
        }
    }
    !touches
}

/// Whether cells are those beside another, each of them once.
pub open spec fn are_sides(cell: Position, cells: Seq<Position>) -> bool {
    &&& forall|i: int| 0 <= i < cells.len() ==> is_beside(cell, #[trigger] cells[i])
    &&& forall|other: Position| is_beside(cell, other) ==> #[trigger] cells.contains(other)
    &&& forall|i: int, j: int| 0 <= i < j < cells.len() ==> cells[i] != cells[j]
}

/// What attempts came to, without those that came to nothing.
pub open spec fn kept(outcomes: Seq<Option<InputDiodeAdapter>>) -> Seq<InputDiodeAdapter>
    decreases outcomes.len(),
{
    if outcomes.len() == 0 {
        Seq::empty()
    } else {
        match outcomes.last() {
            Some(adapter) => kept(outcomes.drop_last()).push(adapter),
            None => kept(outcomes.drop_last()),
        }
    }
}

} // verus!
