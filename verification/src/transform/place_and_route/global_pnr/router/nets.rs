//! Routing the connections between placed modules.

use super::input_ports::InputMoment;
use super::inputs::{
    all_failed, are_contacts, dotted, grow_sources, grown_sources, is_labelled, is_selected, GlobalRoutingConfig,
    SinkFailure, SinkOutcome, UnroutedSink,
};
use super::plan::{
    are_group_ends, end_fits, feedback_order, group_start, group_vars_by_source_ordered, register_next_target_bit_order,
    RoutingConnection,
};
use super::ports::{
    are_access_cells, found_port, placed_cell, port_targets, ports_fit, resolve_port, resolve_port_targets,
    translate_candidate_position, translate_port_access_positions, FoundPort, PlacedModule, ResolvedPortTarget,
};
use super::sources::{
    internal_sink_keys, same_net_contact_positions, sort_internal_sink_targets_by_current_tree, InternalSink,
};
use super::tools::{RouteResult, RouteTools};
use crate::order::{is_stable_order, the_stable_order};
use crate::transform::place_and_route::global_pnr::ir::{LayoutCandidate, PhysicalPort};
use crate::transform::place_and_route::global_pnr::route_engine::route::{RouteFailure, RoutedNet};
use crate::transform::place_and_route::global_pnr::route_engine::search::PlaceRequest;
use crate::transform::place_and_route::global_pnr::route_engine::state::{
    initial_signal_strength, is_signal, powered_route_source, starting_strength, PlaceBound, PoweredRouteSource,
};
use crate::world::block::Block;
use crate::world::grid::World3D;
use crate::world::position::{in_bounds, Position};
use vstd::prelude::*;

verus! {

/// Why a connection was not routed. Connections are told by their index.
#[derive(Clone, Copy, Debug, PartialEq, Eq, Structural)]
pub enum NetFailure {
    /// Its source is not a port of a placed module.
    SourceNotPlaced { var: usize },
    /// Its target is not a port of a placed module.
    TargetNotPlaced { var: usize },
    /// None of the sinks that are left was routed; this was the last one tried.
    Unrouted { var: usize, sink: UnroutedSink },
}

/// What stays the same while connections are routed.
pub ghost struct NetTask {
    pub vars: Seq<RoutingConnection>,
    pub candidates: Seq<LayoutCandidate>,
    pub placed: Seq<PlacedModule>,
    pub config: GlobalRoutingConfig,
}

/// The target of a connection, if it was placed.
pub open spec fn targets_of(task: NetTask, var: int) -> Seq<ResolvedPortTarget> {
    port_targets(task.candidates, task.placed, task.vars[var].target.0@, task.vars[var].target.1@)
}

/// The source of a connection, if it was placed.
pub open spec fn source_of(task: NetTask, var: int) -> Option<FoundPort> {
    found_port(task.candidates, task.placed, task.vars[var].source.0@, task.vars[var].source.1@)
}

/// The sinks of a group of connections, or the first whose target is not placed.
pub open spec fn group_sinks(task: NetTask, low: nat, high: nat) -> Result<Seq<InternalSink>, usize>
    decreases high - low,
{
    if high <= low {
        Ok(Seq::empty())
    } else {
        let var = (high - 1) as nat;
        match group_sinks(task, low, var) {
            Err(index) => Err(index),
            Ok(sinks) => if targets_of(task, var as int).len() == 0 {
                Err(var as usize)
            } else {
                Ok(
                    sinks.push(
                        InternalSink {
                            var: var as usize,
                            target: targets_of(task, var as int)[0],
                            bit_order: feedback_order(task.vars[var as int].target.0@) as usize,
                        },
                    ),
                )
            },
        }
    }
}

proof fn group_sinks_fail(task: NetTask, low: nat, middle: nat, high: nat)
    requires
        low <= middle <= high,
        group_sinks(task, low, middle) is Err,
    ensures
        group_sinks(task, low, high) == group_sinks(task, low, middle),
    decreases high,
{
    if middle < high {
        group_sinks_fail(task, low, middle, (high - 1) as nat);
    }
}

/// The targets of sinks.
pub open spec fn sink_targets(sinks: Seq<InternalSink>) -> Seq<ResolvedPortTarget> {
    sinks.map_values(|sink: InternalSink| sink.target)
}

/// The signals in the first `count` of some cells.
pub open spec fn signals_in(world: World3D, cells: Seq<Position>, count: nat) -> Seq<PoweredRouteSource>
    decreases count,
{
    if count == 0 {
        Seq::empty()
    } else {
        let rest = signals_in(world, cells, (count - 1) as nat);
        let cell = cells[count - 1];
        if in_bounds(world.size, cell) && is_signal(world.at(cell).kind) {
            rest.push(PoweredRouteSource { position: cell, strength: starting_strength(world.at(cell).kind) })
        } else {
            rest
        }
    }
}

/// From where the net of a port starts.
pub open spec fn first_sources(world: World3D, access: Seq<Position>, logical: Position) -> Seq<PoweredRouteSource> {
    let cells = access.push(logical);
    let found = signals_in(world, cells, cells.len());
    if found.len() == 0 {
        seq![PoweredRouteSource { position: access[0], strength: starting_strength(world.at(access[0]).kind) }]
    } else {
        found
    }
}

fn find_first_sources(world: &World3D, access: &Vec<Position>, logical: Position) -> (sources: Vec<PoweredRouteSource>)
    requires
        world.wf(),
        access.len() > 0,
    ensures
        sources@ == first_sources(*world, access@, logical),
{
    let mut cells = super::tools::copy_cells(access);
    cells.push(logical);
    let mut sources: Vec<PoweredRouteSource> = Vec::new();
    assert(sources@ =~= signals_in(*world, cells@, 0));
    let mut index: usize = 0;
    while index < cells.len()
        invariant
            index <= cells.len(),
            world.wf(),
            sources@ == signals_in(*world, cells@, index as nat),
        decreases cells.len() - index,
    {
        if let Some(source) = powered_route_source(world, cells[index]) {
            sources.push(source);
        }
        index += 1;
    }
    if sources.len() == 0 {
        let source = access[0];
        sources.push(PoweredRouteSource { position: source, strength: initial_signal_strength(world, source) });
        assert(sources@ =~= first_sources(*world, access@, logical));
    }
    sources
}

/// A net that is being routed.
pub ghost struct NetMoment {
    pub world: World3D,
    pub sources: Seq<PoweredRouteSource>,
    pub sinks: Seq<InternalSink>,
    pub routes: Seq<RoutedNet>,
    /// Whether a sink was routed.
    pub begun: bool,
}

/// What stays the same while a net is routed.
pub ghost struct GroupTask {
    pub task: NetTask,
    pub found: FoundPort,
    pub access: Seq<Position>,
    pub logical: Position,
    pub all: Seq<ResolvedPortTarget>,
    pub contacts: Seq<Position>,
    /// The first connection of the net.
    pub low: int,
}

/// The sinks of a net in the order in which they are tried.
pub open spec fn net_sinks_in_order(moment: NetMoment) -> Seq<InternalSink> {
    let order = the_stable_order(internal_sink_keys(moment.sinks, moment.sources));
    Seq::new(moment.sinks.len(), |i: int| moment.sinks[order[i] as int])
}

fn sort_net_sinks(sinks: &Vec<InternalSink>, sources: &Vec<PoweredRouteSource>, Ghost(moment): Ghost<NetMoment>) -> (sorted:
    Vec<InternalSink>)
    requires
        moment.sinks == sinks@,
        moment.sources == sources@,
    ensures
        sorted@ == net_sinks_in_order(moment),
        forall|i: int| 0 <= i < sorted.len() ==> sinks@.contains(#[trigger] sorted@[i]),
{
    let order = sort_internal_sink_targets_by_current_tree(sinks, sources);
    let mut sorted: Vec<InternalSink> = Vec::new();
    let mut index: usize = 0;
    while index < order.len()
        invariant
            index <= order.len(),
            order.len() == sinks.len(),
            is_stable_order(internal_sink_keys(sinks@, sources@), order@),
            forall|i: int| 0 <= i < order.len() ==> #[trigger] order@[i] < sinks.len(),
            sorted.len() == index,
            forall|i: int| 0 <= i < index ==> #[trigger] sorted@[i] == sinks@[order@[i] as int],
        decreases order.len() - index,
    {
        let at: usize = order[index];
        assert(order@[index as int] < sinks.len());
        sorted.push(sinks[at]);
        index += 1;
    }
    assert(sorted@ =~= net_sinks_in_order(moment));
    assert forall|i: int| 0 <= i < sorted.len() implies sinks@.contains(#[trigger] sorted@[i]) by {
        assert(order@[i] < sinks.len());
        assert(sinks@[order@[i] as int] == sorted@[i]);
    }
    sorted
}

/// The label of an end of a connection.
pub open spec fn end_label(end: (String, String)) -> Seq<char> {
    end.0@ + seq!['.'] + end.1@
}

impl<
    F: Fn(&World3D, Position, Position) -> bool,
    C: Fn(&World3D, Position, Position) -> bool,
    B: Fn(&World3D, Position) -> Vec<PlaceBound>,
    L: Fn(&World3D, &PlaceRequest) -> Option<(World3D, Position)>,
    P: Fn(&World3D, Position, Block, &Vec<Position>) -> Option<World3D>,
    S: Fn(&World3D, Position, Option<bool>, &Vec<Position>) -> Option<Vec<bool>>,
> RouteTools<F, C, B, L, P, S> {
    /// What asking for a route to one sink comes to: from the port, and once
    /// there are routes, from them.
    pub open spec fn is_net_route(
        &self,
        group: GroupTask,
        moment: NetMoment,
        sink: InternalSink,
        tried: RouteResult,
    ) -> bool {
        if moment.begun {
            self.is_powered_route(
                moment.world,
                moment.sources,
                sink.target,
                group.task.config.strategy,
                group.contacts,
                tried,
            )
        } else {
            self.is_access_route(
                moment.world,
                group.found.port,
                group.logical,
                group.access,
                sink.target,
                group.task.config.strategy,
                group.contacts,
                tried,
            )
        }
    }

    /// What routing a net to one sink comes to.
    pub open spec fn routes_net_sink(
        &self,
        group: GroupTask,
        moment: NetMoment,
        sink: InternalSink,
        outcome: SinkOutcome,
    ) -> bool {
        exists|tried: RouteResult| #[trigger]
            self.is_net_route(group, moment, sink, tried) && self.is_settled(
                moment.world,
                tried,
                group.task.config.validation,
                outcome,
            )
    }

    fn route_net_sink(
        &self,
        port: &PhysicalPort,
        logical: Position,
        access: &Vec<Position>,
        contacts: &Vec<Position>,
        config: GlobalRoutingConfig,
        world: &World3D,
        sources: &Vec<PoweredRouteSource>,
        begun: bool,
        sink: InternalSink,
        Ghost(group): Ghost<GroupTask>,
        Ghost(moment): Ghost<NetMoment>,
    ) -> (outcome: SinkOutcome)
        requires
            self.valid(),
            world.wf(),
            group.task.config == config,
            group.found.port == *port,
            group.access == access@,
            group.logical == logical,
            group.contacts == contacts@,
            moment.world == *world,
            moment.sources == sources@,
            moment.begun == begun,
        ensures
            self.routes_net_sink(group, moment, sink, outcome),
            outcome matches Ok((_, after)) ==> after.wf(),
    {
        let tried = if begun {
            self.route_to_target_from_powered_network(world, sources, sink.target, config.strategy, contacts)
        } else {
            self.route_source_to_target_from_access_points(
                world,
                port,
                logical,
                access,
                sink.target,
                config.strategy,
                contacts,
            )
        };
        assert(self.is_net_route(group, moment, sink, tried));
        self.settle_route(world, tried, config.validation)
    }

    /// Whether the first sinks of a net were tried in turn.
    pub open spec fn are_net_sinks_tried(
        &self,
        group: GroupTask,
        moment: NetMoment,
        outcomes: Seq<SinkOutcome>,
    ) -> bool {
        &&& outcomes.len() <= net_sinks_in_order(moment).len()
        &&& forall|i: int|
            0 <= i < outcomes.len() ==> self.routes_net_sink(
                group,
                moment,
                net_sinks_in_order(moment)[i],
                #[trigger] outcomes[i],
            )
    }

    /// Whether a net is routed to one more sink: the first that it can be routed
    /// to.
    pub open spec fn net_grows(&self, group: GroupTask, moment: NetMoment, next: NetMoment) -> bool {
        exists|outcomes: Seq<SinkOutcome>, route: RoutedNet|
            {
                &&& #[trigger] self.are_net_sinks_tried(group, moment, outcomes)
                &&& #[trigger] is_selected(outcomes, route, next.world)
                &&& net_takes(group, moment, next, outcomes.len() - 1, route)
            }
    }

    /// Whether a net cannot be routed to any of the sinks that are left.
    pub open spec fn net_is_stuck(&self, group: GroupTask, moment: NetMoment, var: usize, error: UnroutedSink) -> bool {
        exists|outcomes: Seq<SinkOutcome>| #[trigger]
            self.are_net_sinks_tried(group, moment, outcomes) && outcomes.len() == net_sinks_in_order(moment).len()
                && all_failed(outcomes, error.failure) && var == net_sinks_in_order(moment).last().var && error.sink
                == net_sinks_in_order(moment).last().target.position
    }

    /// Whether a moment of a run follows from the one before.
    pub open spec fn net_grows_at(&self, group: GroupTask, run: Seq<NetMoment>, k: int) -> bool {
        self.net_grows(group, run[k - 1], run[k])
    }

    /// Whether each moment of a run follows from the one before.
    pub open spec fn is_net_run(&self, group: GroupTask, run: Seq<NetMoment>) -> bool {
        &&& run.len() > 0
        &&& forall|k: int| 0 < k < run.len() ==> self.net_grows_at(group, run, k)
    }

    /// What routing a net whose ports are placed comes to.
    pub open spec fn is_net(
        &self,
        task: NetTask,
        low: int,
        found: FoundPort,
        sinks: Seq<InternalSink>,
        before: InputMoment,
        routes: Seq<RoutedNet>,
        result: Result<World3D, NetFailure>,
    ) -> bool {
        exists|group: GroupTask, run: Seq<NetMoment>|
            {
                &&& #[trigger] self.is_net_run(group, run)
                &&& is_group_task(group, task, low, found, sinks)
                &&& run[0] == (NetMoment {
                    world: before.world,
                    sources: first_sources(before.world, group.access, group.logical),
                    sinks,
                    routes: before.routes,
                    begun: false,
                })
                &&& routes == run.last().routes
                &&& match result {
                    Ok(world) => run.last().sinks.len() == 0 && world == run.last().world,
                    Err(NetFailure::Unrouted { var, sink }) => {
                        &&& run.last().sinks.len() > 0
                        &&& self.net_is_stuck(group, run.last(), var, sink)
                    },
                    Err(_) => false,
                }
            }
    }

    /// What routing a group of connections with one source comes to.
    pub open spec fn is_group(
        &self,
        task: NetTask,
        low: int,
        high: int,
        before: InputMoment,
        routes: Seq<RoutedNet>,
        result: Result<World3D, NetFailure>,
    ) -> bool {
        match source_of(task, low) {
            None => routes == before.routes && result == Err::<World3D, NetFailure>(
                NetFailure::SourceNotPlaced { var: low as usize },
            ),
            Some(found) => match group_sinks(task, low as nat, high as nat) {
                Err(var) => routes == before.routes && result == Err::<World3D, NetFailure>(
                    NetFailure::TargetNotPlaced { var },
                ),
                Ok(sinks) => self.is_net(task, low, found, sinks, before, routes, result),
            },
        }
    }

    fn grow_net(
        &self,
        port: &PhysicalPort,
        logical: Position,
        access: &Vec<Position>,
        contacts: &Vec<Position>,
        config: GlobalRoutingConfig,
        world: &World3D,
        sources: &Vec<PoweredRouteSource>,
        begun: bool,
        sorted: &Vec<InternalSink>,
        Ghost(group): Ghost<GroupTask>,
        Ghost(moment): Ghost<NetMoment>,
    ) -> (result: Result<(usize, RoutedNet, World3D), (usize, UnroutedSink)>)
        requires
            self.valid(),
            world.wf(),
            group.task.config == config,
            group.found.port == *port,
            group.access == access@,
            group.logical == logical,
            group.contacts == contacts@,
            moment.world == *world,
            moment.sources == sources@,
            moment.begun == begun,
            sorted@ == net_sinks_in_order(moment),
            sorted.len() > 0,
        ensures
            match result {
                Ok((index, route, after)) => {
                    &&& index < sorted.len()
                    &&& after.wf()
                    &&& exists|outcomes: Seq<SinkOutcome>| #[trigger]
                        self.are_net_sinks_tried(group, moment, outcomes) && is_selected(outcomes, route, after)
                            && outcomes.len() == index + 1
                },
                Err((var, error)) => self.net_is_stuck(group, moment, var, error),
            },
    {
        let ghost mut outcomes = Seq::<SinkOutcome>::empty();
        let mut last: (usize, UnroutedSink) = (
            0,
            UnroutedSink {
                sink: logical,
                failure: SinkFailure::Unreachable {
                    failure: RouteFailure::Unreachable { source: logical, sink: logical },
                },
            },
        );
        let mut chosen: Option<(usize, RoutedNet, World3D)> = None;
        let mut index: usize = 0;
        while index < sorted.len() && chosen.is_none()
            invariant
                index <= sorted.len(),
                self.valid(),
                world.wf(),
                group.task.config == config,
                group.found.port == *port,
                group.access == access@,
                group.logical == logical,
                group.contacts == contacts@,
                moment.world == *world,
                moment.sources == sources@,
                moment.begun == begun,
                sorted@ == net_sinks_in_order(moment),
                outcomes.len() == index,
                self.are_net_sinks_tried(group, moment, outcomes),
                match chosen {
                    Some((at, route, after)) => at + 1 == index && after.wf() && is_selected(outcomes, route, after),
                    None => index > 0 ==> all_failed(outcomes, last.1.failure) && last.0 == sorted@[index - 1].var
                        && last.1.sink == sorted@[index - 1].target.position,
                },
            decreases sorted.len() - index,
        {
            let sink = sorted[index];
            let outcome = self.route_net_sink(
                port,
                logical,
                access,
                contacts,
                config,
                world,
                sources,
                begun,
                sink,
                Ghost(group),
                Ghost(moment),
            );
            let ghost before = outcomes;
            proof {
                outcomes = outcomes.push(outcome);
                assert forall|i: int| 0 <= i < outcomes.len() implies self.routes_net_sink(
                    group,
                    moment,
                    net_sinks_in_order(moment)[i],
                    #[trigger] outcomes[i],
                ) by {
                    if i < before.len() {
                        assert(outcomes[i] == before[i]);
                    }
                }
                assert forall|i: int| 0 <= i < before.len() implies #[trigger] outcomes[i] is Err by {
                    assert(before[i] is Err);
                }
            }
            match outcome {
                Ok((route, after)) => {
                    chosen = Some((index, route, after));
                },
                Err(failure) => {
                    last = (sink.var, UnroutedSink { sink: sink.target.position, failure });
                },
            }
            index += 1;
        }
        match chosen {
            Some(found) => Ok(found),
            None => {
                assert(self.are_net_sinks_tried(group, moment, outcomes));
                Err(last)
            },
        }
    }

    fn route_net(
        &self,
        vars: &Vec<RoutingConnection>,
        low: usize,
        port: &PhysicalPort,
        logical: Position,
        access: &Vec<Position>,
        sinks: Vec<InternalSink>,
        all: &Vec<ResolvedPortTarget>,
        config: GlobalRoutingConfig,
        world: World3D,
        routes: &mut Vec<RoutedNet>,
        Ghost(task): Ghost<NetTask>,
        Ghost(found): Ghost<FoundPort>,
    ) -> (result: Result<World3D, NetFailure>)
        requires
            self.valid(),
            world.wf(),
            task.vars == vars@,
            task.config == config,
            low < vars.len(),
            found.port == *port,
            access.len() > 0,
            are_access_cells(found, access@),
            logical == placed_cell(found.port.position, found.candidate, found.placed),
            all@ == sink_targets(sinks@),
            forall|i: int| 0 <= i < sinks.len() ==> (#[trigger] sinks@[i]).var < vars.len(),
        ensures
            self.is_net(
                task,
                low as int,
                found,
                sinks@,
                InputMoment { world, routes: old(routes)@ },
                final(routes)@,
                result,
            ),
            result matches Ok(after) ==> after.wf(),
    {
        let contacts = same_net_contact_positions(all);
        let ghost given = sinks@;
        let ghost group = GroupTask {
            task,
            found,
            access: access@,
            logical,
            all: all@,
            contacts: contacts@,
            low: low as int,
        };
        assert(is_group_task(group, task, low as int, found, given));
        let ghost before = InputMoment { world, routes: routes@ };
        let mut world = world;
        let mut sources = find_first_sources(&world, access, logical);
        let mut left = sinks;
        let mut begun = false;
        let ghost first = NetMoment { world, sources: sources@, sinks: left@, routes: routes@, begun: false };
        let ghost mut run = seq![first];
        let mut failed: Option<NetFailure> = None;
        while left.len() > 0 && failed.is_none()
            invariant
                self.valid(),
                world.wf(),
                task.vars == vars@,
                task.config == config,
                low < vars.len(),
                found.port == *port,
                all@ == group.all,
                group == (GroupTask {
                    task,
                    found,
                    access: access@,
                    logical,
                    all: all@,
                    contacts: contacts@,
                    low: low as int,
                }),
                forall|i: int| 0 <= i < left@.len() ==> (#[trigger] left@[i]).var < vars.len(),
                self.is_net_run(group, run),
                run[0] == first,
                run.last() == (NetMoment { world, sources: sources@, sinks: left@, routes: routes@, begun }),
                match failed {
                    None => true,
                    Some(NetFailure::Unrouted { var, sink }) => left@.len() > 0 && self.net_is_stuck(
                        group,
                        run.last(),
                        var,
                        sink,
                    ),
                    Some(_) => false,
                },
            decreases left.len(), (if failed is None { 1int } else { 0int }),
        {
            let ghost moment = run.last();
            let sorted = sort_net_sinks(&left, &sources, Ghost(moment));
            match self.grow_net(
                port,
                logical,
                access,
                &contacts,
                config,
                &world,
                &sources,
                begun,
                &sorted,
                Ghost(group),
                Ghost(moment),
            ) {
                Err((var, sink)) => {
                    failed = Some(NetFailure::Unrouted { var, sink });
                },
                Ok((index, route, after)) => {
                    let ghost outcomes = choose|outcomes: Seq<SinkOutcome>| #[trigger]
                        self.are_net_sinks_tried(group, moment, outcomes) && is_selected(outcomes, route, after)
                            && outcomes.len() == index + 1;
                    let taken = sorted[index];
                    let ghost ordered = sorted@;
                    let ghost had = left@;
                    proof {
                        assert forall|i: int| 0 <= i < ordered.len() implies (#[trigger] ordered[i]).var
                            < vars.len() by {
                            assert(had.contains(ordered[i]));
                            let j = choose|j: int| 0 <= j < had.len() && had[j] == ordered[i];
                            assert(had[j].var < vars.len());
                        }
                        assert(ordered[index as int].var < vars.len());
                    }
                    let ghost plain = route;
                    let labelled = route.with_labels(
                        dotted(vars[low].source.0.as_str(), vars[low].source.1.as_str()),
                        dotted(vars[taken.var].target.0.as_str(), vars[taken.var].target.1.as_str()),
                    );
                    let ghost shown = labelled;
                    sources = grow_sources(sources, &after, &labelled, taken.target.position, all);
                    left = sorted;
                    left.remove(index);
                    assert(left@ =~= ordered.remove(index as int));
                    proof {
                        assert forall|i: int| 0 <= i < left@.len() implies (#[trigger] left@[i]).var < vars.len() by {
                            assert(left@[i] == (if i < index {
                                ordered[i]
                            } else {
                                ordered[i + 1]
                            }));
                        }
                    }
                    world = after;
                    routes.push(labelled);
                    begun = true;
                    let ghost next = NetMoment { world, sources: sources@, sinks: left@, routes: routes@, begun };
                    proof {
                        assert(is_labelled(
                            shown,
                            plain,
                            end_label(task.vars[low as int].source),
                            end_label(task.vars[taken.var as int].target),
                        ));
                        assert(net_sinks_in_order(moment)[index as int] == taken);
                        assert(next.sinks == net_sinks_in_order(moment).remove(index as int));
                        assert(next.routes == moment.routes.push(shown));
                        assert(next.sources == grown_sources(
                            moment.sources,
                            next.world,
                            shown,
                            taken.target.position,
                            group.all,
                        ));
                        assert(group.task.vars[group.low] == task.vars[low as int]);
                        assert(net_takes(group, moment, next, index as int, plain));
                        assert(is_selected(outcomes, plain, next.world));
                        assert(self.net_grows(group, moment, next));
                        let earlier = run;
                        run = run.push(next);
                        assert forall|k: int| 0 < k < run.len() implies self.net_grows_at(group, run, k) by {
                            if k < earlier.len() {
                                assert(self.net_grows_at(group, earlier, k));
                                assert(run[k] == earlier[k]);
                            }
                            assert(run[k - 1] == earlier[k - 1]);
                        }
                        assert(run[0] == earlier[0]);
                    }
                },
            }
        }
        let result: Result<World3D, NetFailure> = match failed {
            Some(failure) => Err(failure),
            None => Ok(world),
        };
        assert(self.is_net_run(group, run));
        assert(self.is_net(task, low as int, found, given, before, routes@, result));
        result
    }

    fn route_group(
        &self,
        vars: &Vec<RoutingConnection>,
        low: usize,
        high: usize,
        candidates: &Vec<LayoutCandidate>,
        placed: &Vec<PlacedModule>,
        config: GlobalRoutingConfig,
        world: World3D,
        routes: &mut Vec<RoutedNet>,
        Ghost(task): Ghost<NetTask>,
    ) -> (result: Result<World3D, NetFailure>)
        requires
            self.valid(),
            world.wf(),
            low < high <= vars.len(),
            task == (NetTask { vars: vars@, candidates: candidates@, placed: placed@, config }),
            vars_fit(task),
        ensures
            self.is_group(
                task,
                low as int,
                high as int,
                InputMoment { world, routes: old(routes)@ },
                final(routes)@,
                result,
            ),
            result matches Ok(after) ==> after.wf(),
    {
        assert(var_fits(task, low as int));
        let (port, candidate, module) = match resolve_port(
            candidates,
            placed,
            vars[low].source.0.as_str(),
            vars[low].source.1.as_str(),
        ) {
            None => return Err(NetFailure::SourceNotPlaced { var: low }),
            Some(found) => found,
        };
        let ghost found = FoundPort { port: *port, candidate: *candidate, placed: *module };
        assert(source_of(task, low as int) == Some(found));
        let access = translate_port_access_positions(port, candidate, module);
        let logical = translate_candidate_position(port.position, candidate, module);
        let mut sinks: Vec<InternalSink> = Vec::new();
        let mut all: Vec<ResolvedPortTarget> = Vec::new();
        assert(all@ =~= sink_targets(sinks@));
        let mut missing: Option<usize> = None;
        let mut index: usize = low;
        while index < high && missing.is_none()
            invariant
                low <= index <= high <= vars.len(),
                task == (NetTask { vars: vars@, candidates: candidates@, placed: placed@, config }),
                vars_fit(task),
                all@ == sink_targets(sinks@),
                forall|i: int| 0 <= i < sinks.len() ==> (#[trigger] sinks@[i]).var < vars.len(),
                match missing {
                    None => group_sinks(task, low as nat, index as nat) == Ok::<Seq<InternalSink>, usize>(sinks@),
                    Some(var) => group_sinks(task, low as nat, index as nat) == Err::<Seq<InternalSink>, usize>(var),
                },
            decreases high - index,
        {
            assert(var_fits(task, index as int));
            let targets = resolve_port_targets(
                candidates,
                placed,
                vars[index].target.0.as_str(),
                vars[index].target.1.as_str(),
            );
            if targets.len() == 0 {
                missing = Some(index);
            } else {
                let ghost had = sinks@;
                let bit_order: usize = register_next_target_bit_order(vars[index].target.0.as_str());
                sinks.push(InternalSink { var: index, target: targets[0], bit_order });
                all.push(targets[0]);
                assert(all@ =~= sink_targets(sinks@));
                assert forall|i: int| 0 <= i < sinks.len() implies (#[trigger] sinks@[i]).var < vars.len() by {
                    if i < had.len() {
                        assert(sinks@[i] == had[i]);
                    }
                }
            }
            index += 1;
        }
        if let Some(var) = missing {
            proof {
                group_sinks_fail(task, low as nat, index as nat, high as nat);
            }
            return Err(NetFailure::TargetNotPlaced { var });
        }
        self.route_net(
            vars,
            low,
            port,
            logical,
            &access,
            sinks,
            &all,
            config,
            world,
            routes,
            Ghost(task),
            Ghost(found),
        )
    }

    /// Whether routing one group leads from a moment to the next.
    pub open spec fn group_follows_at(
        &self,
        task: NetTask,
        ends: Seq<usize>,
        run: Seq<InputMoment>,
        k: int,
    ) -> bool {
        self.is_group(
            task,
            group_start(ends, k - 1),
            ends[k - 1] as int,
            run[k - 1],
            run[k].routes,
            Ok(run[k].world),
        )
    }

    /// Whether each moment of a run follows from the one before.
    pub open spec fn is_group_run(&self, task: NetTask, ends: Seq<usize>, run: Seq<InputMoment>) -> bool {
        &&& 0 < run.len() <= ends.len() + 1
        &&& forall|k: int| 0 < k < run.len() ==> self.group_follows_at(task, ends, run, k)
    }

    /// What routing all connections comes to: net by net, up to the first that
    /// cannot be routed; what was routed stays.
    pub open spec fn are_routed_nets(
        &self,
        task: NetTask,
        first: InputMoment,
        routes: Seq<RoutedNet>,
        result: Result<World3D, NetFailure>,
    ) -> bool {
        exists|ends: Seq<usize>, run: Seq<InputMoment>|
            {
                &&& are_group_ends(task.vars, ends)
                &&& #[trigger] self.is_group_run(task, ends, run)
                &&& run[0] == first
                &&& match result {
                    Ok(world) => {
                        &&& run.len() == ends.len() + 1
                        &&& world == run.last().world
                        &&& routes == run.last().routes
                    },
                    Err(_) => {
                        &&& run.len() <= ends.len()
                        &&& self.is_group(
                            task,
                            group_start(ends, run.len() - 1),
                            ends[run.len() - 1] as int,
                            run.last(),
                            routes,
                            result,
                        )
                    },
                }
            }
    }

    /// Routes all connections between placed modules, net by net.
    pub fn route_internal_module_nets(
        &self,
        vars: &Vec<RoutingConnection>,
        candidates: &Vec<LayoutCandidate>,
        placed: &Vec<PlacedModule>,
        config: GlobalRoutingConfig,
        world: World3D,
        routes: &mut Vec<RoutedNet>,
    ) -> (result: Result<World3D, NetFailure>)
        requires
            self.valid(),
            world.wf(),
            vars_fit(NetTask { vars: vars@, candidates: candidates@, placed: placed@, config }),
        ensures
            self.are_routed_nets(
                NetTask { vars: vars@, candidates: candidates@, placed: placed@, config },
                InputMoment { world, routes: old(routes)@ },
                final(routes)@,
                result,
            ),
            result matches Ok(after) ==> after.wf(),
    {
        let ghost task = NetTask { vars: vars@, candidates: candidates@, placed: placed@, config };
        let ends = group_vars_by_source_ordered(vars);
        let ghost first = InputMoment { world, routes: routes@ };
        let ghost mut run = seq![first];
        let mut current = world;
        let mut index: usize = 0;
        while index < ends.len()
            invariant
                index <= ends.len(),
                self.valid(),
                current.wf(),
                task == (NetTask { vars: vars@, candidates: candidates@, placed: placed@, config }),
                vars_fit(task),
                run.len() == index + 1,
                run[0] == first,
                first == (InputMoment { world, routes: old(routes)@ }),
                self.is_group_run(task, ends@, run),
                are_group_ends(vars@, ends@),
                run.last() == (InputMoment { world: current, routes: routes@ }),
            decreases ends.len() - index,
        {
            let low: usize = if index == 0 {
                0
            } else {
                ends[index - 1]
            };
            let ghost group = index as int;
            assert(low == group_start(ends@, group));
            assert(end_fits(vars@.len(), ends@, group));
            match self.route_group(
                vars,
                low,
                ends[index],
                candidates,
                placed,
                config,
                current,
                routes,
                Ghost(task),
            ) {
                Err(failure) => {
                    let result: Result<World3D, NetFailure> = Err(failure);
                    proof {
                        self.failed_run(task, ends@, run, routes@, failure);
                    }
                    return result;
                },
                Ok(after) => {
                    current = after;
                    proof {
                        run = self.longer_run(task, ends@, run, InputMoment { world: current, routes: routes@ });
                    }
                    index += 1;
                },
            }
        }
        let result: Result<World3D, NetFailure> = Ok(current);
        proof {
            assert(self.is_group_run(task, ends@, run));
            assert(self.are_routed_nets(task, first, routes@, result));
        }
        result
    }

    proof fn failed_run(
        &self,
        task: NetTask,
        ends: Seq<usize>,
        run: Seq<InputMoment>,
        routes: Seq<RoutedNet>,
        failure: NetFailure,
    )
        requires
            are_group_ends(task.vars, ends),
            self.is_group_run(task, ends, run),
            run.len() <= ends.len(),
            self.group_fails(task, ends, run, routes, failure),
        ensures
            self.are_routed_nets(task, run[0], routes, Err(failure)),
    {
        assert(self.is_group_run(task, ends, run));
    }

    /// Whether the group behind a run cannot be routed.
    spec fn group_fails(
        &self,
        task: NetTask,
        ends: Seq<usize>,
        run: Seq<InputMoment>,
        routes: Seq<RoutedNet>,
        failure: NetFailure,
    ) -> bool {
        self.is_group(
            task,
            group_start(ends, run.len() - 1),
            ends[run.len() - 1] as int,
            run.last(),
            routes,
            Err(failure),
        )
    }

    proof fn longer_run(&self, task: NetTask, ends: Seq<usize>, run: Seq<InputMoment>, next: InputMoment) -> (longer: Seq<
        InputMoment,
    >)
        requires
            self.is_group_run(task, ends, run),
            run.len() <= ends.len(),
            self.is_group(
                task,
                group_start(ends, run.len() - 1),
                ends[run.len() - 1] as int,
                run.last(),
                next.routes,
                Ok(next.world),
            ),
        ensures
            longer == run.push(next),
            self.is_group_run(task, ends, longer),
    {
        let longer = run.push(next);
        assert forall|k: int| 0 < k < longer.len() implies self.group_follows_at(task, ends, longer, k) by {
            assert(longer[k - 1] == run[k - 1]);
            if k < run.len() {
                assert(self.group_follows_at(task, ends, run, k));
                assert(longer[k] == run[k]);
            }
        }
        longer
    }
}

/// Whether the cells of the ends of a connection stay in range.
pub open spec fn var_fits(task: NetTask, var: int) -> bool {
    &&& ports_fit(task.candidates, task.placed, task.vars[var].source.0@, task.vars[var].source.1@)
    &&& ports_fit(task.candidates, task.placed, task.vars[var].target.0@, task.vars[var].target.1@)
}

/// Whether the cells of the ends of all connections stay in range.
pub open spec fn vars_fit(task: NetTask) -> bool {
    forall|i: int| 0 <= i < task.vars.len() ==> #[trigger] var_fits(task, i)
}

/// Whether a net is that of a source and its sinks.
pub open spec fn is_group_task(
    group: GroupTask,
    task: NetTask,
    low: int,
    found: FoundPort,
    sinks: Seq<InternalSink>,
) -> bool {
    &&& group.task == task
    &&& group.low == low
    &&& group.found == found
    &&& are_access_cells(found, group.access)
    &&& group.access.len() > 0
    &&& group.logical == placed_cell(found.port.position, found.candidate, found.placed)
    &&& group.all == sink_targets(sinks)
    &&& are_contacts(group.all, group.contacts)
}

/// Whether taking the route to a sink leads from a moment of a net to the next.
pub open spec fn net_takes(group: GroupTask, moment: NetMoment, next: NetMoment, index: int, route: RoutedNet) -> bool {
    let sinks = net_sinks_in_order(moment);
    let taken = sinks[index];
    exists|labelled: RoutedNet| #[trigger]
        is_labelled(
            labelled,
            route,
            end_label(group.task.vars[group.low].source),
            end_label(group.task.vars[taken.var as int].target),
        ) && next.sinks == sinks.remove(index) && next.sources == grown_sources(
            moment.sources,
            next.world,
            labelled,
            taken.target.position,
            group.all,
        ) && next.routes == moment.routes.push(labelled) && next.begun
}

} // verus!
