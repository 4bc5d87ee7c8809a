//! Routing the inputs of a design.

use super::external::ExternalInputSource;
use super::ports::ResolvedPortTarget;
use super::sources::{
    branch_keys, branch_taps, first_ranked, in_rank_order, is_sink_contact, prune_keys, prune_powered_route_sources,
    route_branch_sources, same_net_contact_positions, sort_top_input_sinks_by_current_tree, top_sink_keys,
    FANOUT_ROUTE_TERMINAL_LIMIT,
};
use super::tools::{RouteResult, RouteTools};
use crate::text::{join2, join3};
use crate::transform::place_and_route::global_pnr::route_engine::route::{
    is_plain_route, same_course, GlobalRoutingStrategy, RouteFailure, RoutedNet,
};
use crate::transform::place_and_route::global_pnr::route_engine::search::PlaceRequest;
use crate::transform::place_and_route::global_pnr::route_engine::state::{
    PlaceBound, PoweredRouteSource, MAX_REDSTONE_STRENGTH,
};
use crate::transform::place_and_route::global_pnr::route_engine::validation::{
    eager_route_failure_reason, is_fault_check, RouteFault, RouteValidationMode,
};
use crate::world::block::Block;
use crate::world::grid::{copy_placed, World3D};
use crate::world::position::Position;
use vstd::prelude::*;

verus! {

/// How nets are routed.
#[derive(Clone, Copy, Debug, PartialEq, Eq, Structural)]
pub struct GlobalRoutingConfig {
    pub strategy: GlobalRoutingStrategy,
    pub validation: RouteValidationMode,
}

impl Default for GlobalRoutingConfig {
    fn default() -> (config: Self)
        ensures
            config.strategy == GlobalRoutingStrategy::AStar,
            config.validation == RouteValidationMode::Incremental,
    {
        GlobalRoutingConfig {
            strategy: GlobalRoutingStrategy::AStar,
            validation: RouteValidationMode::Incremental,
        }
    }
}

/// Why a sink was not routed.
#[derive(Clone, Copy, Debug, PartialEq, Eq, Structural)]
pub enum SinkFailure {
    /// There is no route.
    Unreachable { failure: RouteFailure },
    /// There is a route, which does not do what it is to do.
    Faulty { fault: RouteFault },
}

/// A sink that was not routed.
#[derive(Clone, Copy, Debug, PartialEq, Eq, Structural)]
pub struct UnroutedSink {
    pub sink: Position,
    pub failure: SinkFailure,
}

/// What routing a sink comes to.
pub type SinkOutcome = Result<(RoutedNet, World3D), SinkFailure>;

/// Whether cells are those that the routes of a net may touch.
pub open spec fn are_contacts(sinks: Seq<ResolvedPortTarget>, cells: Seq<Position>) -> bool {
    forall|cell: Position| #[trigger]
        cells.contains(cell) <==> exists|k: int| 0 <= k < sinks.len() && is_sink_contact(#[trigger] sinks[k], cell)
}

// ---------------------------------------------------------------------------
// The tree of a net
// ---------------------------------------------------------------------------
/// Whether one of the sources is in a cell.
pub open spec fn has_source(sources: Seq<PoweredRouteSource>, cell: Position) -> bool {
    exists|k: int| 0 <= k < sources.len() && (#[trigger] sources[k]).position == cell
}

/// Sources with the first `count` of others, but for those in a cell that there
/// is a source in.
pub open spec fn with_branches(
    sources: Seq<PoweredRouteSource>,
    branches: Seq<PoweredRouteSource>,
    count: nat,
) -> Seq<PoweredRouteSource>
    decreases count,
{
    if count == 0 {
        sources
    } else {
        let rest = with_branches(sources, branches, (count - 1) as nat);
        let branch = branches[count - 1];
        if has_source(rest, branch.position) {
            rest
        } else {
            rest.push(branch)
        }
    }
}

/// The cells of a route from which a net branches off.
pub open spec fn branches_of(world: World3D, route: RoutedNet, sink: Position) -> Seq<PoweredRouteSource> {
    let taps = branch_taps(world, route, route.powered_taps@.len());
    first_ranked(taps, branch_keys(taps, sink))
}

/// The sources of a net once a route was added.
pub open spec fn grown_sources(
    sources: Seq<PoweredRouteSource>,
    world: World3D,
    route: RoutedNet,
    sink: Position,
    sinks: Seq<ResolvedPortTarget>,
) -> Seq<PoweredRouteSource> {
    let branches = branches_of(world, route, sink);
    let grown = with_branches(sources, branches, branches.len());
    if grown.len() <= FANOUT_ROUTE_TERMINAL_LIMIT {
        grown
    } else {
        first_ranked(grown, prune_keys(grown, sinks))
    }
}

/// Adds the cells of a route to the sources of a net.
pub fn grow_sources(
    sources: Vec<PoweredRouteSource>,
    world: &World3D,
    route: &RoutedNet,
    sink: Position,
    sinks: &Vec<ResolvedPortTarget>,
) -> (grown: Vec<PoweredRouteSource>)
    requires
        world.wf(),
    ensures
        grown@ == grown_sources(sources@, *world, *route, sink, sinks@),
{
    let ghost start = sources@;
    let branches = route_branch_sources(world, route, sink);
    let mut grown = sources;
    let mut index: usize = 0;
    while index < branches.len()
        invariant
            index <= branches.len(),
            grown@ == with_branches(start, branches@, index as nat),
        decreases branches.len() - index,
    {
        let mut found = false;
        let mut at: usize = 0;
        while at < grown.len()
            invariant
                at <= grown.len(),
                index < branches.len(),
                found == exists|k: int|
                    0 <= k < at && (#[trigger] grown@[k]).position == branches@[index as int].position,
            decreases grown.len() - at,
        {
            if grown[at].position == branches[index].position {
                assert(grown@[at as int].position == branches@[index as int].position);
                found = true;
            }
            at += 1;
        }
        if !found {
            grown.push(branches[index]);
        }
        index += 1;
    }
    prune_powered_route_sources(grown, sinks)
}

/// Whether the last of some outcomes is the first success, at an index.
pub open spec fn is_selected(outcomes: Seq<SinkOutcome>, route: RoutedNet, world: World3D) -> bool {
    &&& outcomes.len() > 0
    &&& outcomes.last() == Ok::<(RoutedNet, World3D), SinkFailure>((route, world))
    &&& forall|i: int| 0 <= i < outcomes.len() - 1 ==> #[trigger] outcomes[i] is Err
}

/// Whether all of some outcomes are failures, the last of them this one.
pub open spec fn all_failed(outcomes: Seq<SinkOutcome>, failure: SinkFailure) -> bool {
    &&& outcomes.len() > 0
    &&& outcomes.last() == Err::<(RoutedNet, World3D), SinkFailure>(failure)
    &&& forall|i: int| 0 <= i < outcomes.len() ==> #[trigger] outcomes[i] is Err
}

// ---------------------------------------------------------------------------
// Fanout
// ---------------------------------------------------------------------------
/// An input that is being routed.
pub ghost struct FanoutMoment {
    pub world: World3D,
    pub sources: Seq<PoweredRouteSource>,
    pub sinks: Seq<ResolvedPortTarget>,
    /// The routes of the input.
    pub routes: Seq<RoutedNet>,
}

/// What stays the same while an input is routed.
pub ghost struct FanoutTask {
    pub name: Seq<char>,
    pub switch: Position,
    pub contacts: Seq<Position>,
    pub config: GlobalRoutingConfig,
}

/// Whether a route is another with labels.
pub open spec fn is_labelled(route: RoutedNet, plain: RoutedNet, source: Seq<char>, sink: Seq<char>) -> bool {
    &&& same_course(route, plain)
    &&& route.net_id == plain.net_id
    &&& route.source_endpoint == plain.source_endpoint
    &&& route.sink_endpoint == plain.sink_endpoint
    &&& route.source_label is Some
    &&& route.source_label->0@ == source
    &&& route.sink_label is Some
    &&& route.sink_label->0@ == sink
}

/// The sinks of an input in the order in which they are tried.
pub open spec fn sinks_in_order(moment: FanoutMoment) -> Seq<ResolvedPortTarget> {
    in_rank_order(moment.sinks, top_sink_keys(moment.sinks, moment.sources))
}

/// Whether the first route of an input is its switch and the dust beside it.
pub open spec fn is_switch_route(route: RoutedNet, source: ExternalInputSource, name: Seq<char>) -> bool {
    &&& exists|plain: RoutedNet| #[trigger]
        is_labelled(route, plain, name, name + ".switch"@) && is_plain_route(
            plain,
            source.switch,
            source.switch,
            source.blocks@,
            seq![source.route_source],
        ) && plain.powered_taps@ == seq![(source.route_source, MAX_REDSTONE_STRENGTH)]
}

/// A label with a dot and another word.
pub fn dotted(left: &str, right: &str) -> (label: String)
    ensures
        label@ == left@ + seq!['.'] + right@,
{
    proof {
        reveal_strlit(".");
        assert("."@ =~= seq!['.']);
    }
    join3(left, ".", right)
}

impl<
    F: Fn(&World3D, Position, Position) -> bool,
    C: Fn(&World3D, Position, Position) -> bool,
    B: Fn(&World3D, Position) -> Vec<PlaceBound>,
    L: Fn(&World3D, &PlaceRequest) -> Option<(World3D, Position)>,
    P: Fn(&World3D, Position, Block, &Vec<Position>) -> Option<World3D>,
    S: Fn(&World3D, Position, Option<bool>, &Vec<Position>) -> Option<Vec<bool>>,
> RouteTools<F, C, B, L, P, S> {
    /// What becomes of a route that was found: it is kept where it has no fault.
    pub open spec fn is_settled(
        &self,
        world: World3D,
        tried: RouteResult,
        validation: RouteValidationMode,
        outcome: SinkOutcome,
    ) -> bool {
        match tried {
            Err(failure) => outcome == Err::<(RoutedNet, World3D), SinkFailure>(SinkFailure::Unreachable { failure }),
            Ok(found) => self.is_judged(world, found, validation, outcome),
        }
    }

    /// What looking for the fault of a route comes to.
    pub open spec fn is_judged(
        &self,
        world: World3D,
        found: (RoutedNet, World3D),
        validation: RouteValidationMode,
        outcome: SinkOutcome,
    ) -> bool {
        exists|fault: Option<RouteFault>| #[trigger]
            is_fault_check(&self.rule, &self.settle, validation, world, found.1, found.0, fault) && match fault {
                None => outcome == Ok::<(RoutedNet, World3D), SinkFailure>(found),
                Some(fault) => outcome == Err::<(RoutedNet, World3D), SinkFailure>(SinkFailure::Faulty { fault }),
            }
    }

    /// Keeps a route that was found where it has no fault.
    pub fn settle_route(&self, world: &World3D, tried: RouteResult, validation: RouteValidationMode) -> (outcome:
        SinkOutcome)
        requires
            self.valid(),
            world.wf(),
            tried matches Ok((_, after)) ==> after.wf(),
        ensures
            self.is_settled(*world, tried, validation, outcome),
            outcome matches Ok((_, after)) ==> after.wf(),
    {
        match tried {
            Err(failure) => Err(SinkFailure::Unreachable { failure }),
            Ok((route, after)) => {
                let fault = eager_route_failure_reason(&self.rule, &self.settle, validation, world, &after, &route);
                assert(is_fault_check(&self.rule, &self.settle, validation, *world, after, route, fault));
                match fault {
                    None => Ok((route, after)),
                    Some(fault) => Err(SinkFailure::Faulty { fault }),
                }
            },
        }
    }

    /// What routing an input to one sink comes to.
    pub open spec fn routes_input_sink(
        &self,
        task: FanoutTask,
        moment: FanoutMoment,
        sink: ResolvedPortTarget,
        outcome: SinkOutcome,
    ) -> bool {
        exists|tried: RouteResult, owned: RouteResult|
            {
                &&& #[trigger] self.is_input_route(
                    moment.world,
                    task.switch,
                    moment.sources,
                    sink,
                    task.config.strategy,
                    task.contacts,
                    tried,
                )
                &&& is_owned_by(tried, task.switch, owned)
                &&& #[trigger] self.is_settled(moment.world, owned, task.config.validation, outcome)
            }
    }

    fn route_input_sink(
        &self,
        switch: Position,
        contacts: &Vec<Position>,
        config: GlobalRoutingConfig,
        world: &World3D,
        sources: &Vec<PoweredRouteSource>,
        sink: ResolvedPortTarget,
        Ghost(task): Ghost<FanoutTask>,
        Ghost(moment): Ghost<FanoutMoment>,
    ) -> (outcome: SinkOutcome)
        requires
            self.valid(),
            world.wf(),
            task.switch == switch,
            task.contacts == contacts@,
            task.config == config,
            moment.world == *world,
            moment.sources == sources@,
        ensures
            self.routes_input_sink(task, moment, sink, outcome),
            outcome matches Ok((_, after)) ==> after.wf(),
    {
        let tried = self.route_top_input_to_target_from_network(
            world,
            switch,
            sources,
            sink,
            config.strategy,
            contacts,
        );
        let ghost given = tried;
        assert(self.is_input_route(
            moment.world,
            task.switch,
            moment.sources,
            sink,
            task.config.strategy,
            task.contacts,
            given,
        ));
        let owned: RouteResult = match tried {
            Err(failure) => Err(failure),
            Ok((route, after)) => {
                let mut route = route;
                route.source = switch;
                Ok((route, after))
            },
        };
        let ghost known = owned;
        assert(is_owned_by(given, switch, known));
        let outcome = self.settle_route(world, owned, config.validation);
        assert(self.is_settled(moment.world, known, task.config.validation, outcome));
        outcome
    }

    /// Whether the first sinks of an input were tried in turn.
    pub open spec fn are_input_sinks_tried(
        &self,
        task: FanoutTask,
        moment: FanoutMoment,
        outcomes: Seq<SinkOutcome>,
    ) -> bool {
        &&& outcomes.len() <= sinks_in_order(moment).len()
        &&& forall|i: int|
            0 <= i < outcomes.len() ==> self.routes_input_sink(
                task,
                moment,
                sinks_in_order(moment)[i],
                #[trigger] outcomes[i],
            )
    }

    /// Whether an input is routed to one more sink: the first that it can be
    /// routed to.
    pub open spec fn input_grows(&self, task: FanoutTask, moment: FanoutMoment, next: FanoutMoment) -> bool {
        exists|outcomes: Seq<SinkOutcome>, route: RoutedNet, labelled: RoutedNet|
            {
                let sinks = sinks_in_order(moment);
                let index = outcomes.len() - 1;
                &&& #[trigger] self.are_input_sinks_tried(task, moment, outcomes)
                &&& #[trigger] is_selected(outcomes, route, next.world)
                &&& #[trigger] is_labelled(labelled, route, task.name, task.name + ".sink"@)
                &&& next.sinks == sinks.remove(index)
                &&& next.sources == grown_sources(
                    moment.sources,
                    next.world,
                    route,
                    sinks[index].position,
                    next.sinks,
                )
                &&& next.routes == moment.routes.push(labelled)
            }
    }

    /// Whether an input cannot be routed to any of the sinks that are left.
    pub open spec fn input_is_stuck(&self, task: FanoutTask, moment: FanoutMoment, error: UnroutedSink) -> bool {
        exists|outcomes: Seq<SinkOutcome>| #[trigger]
            self.are_input_sinks_tried(task, moment, outcomes) && outcomes.len() == sinks_in_order(moment).len()
                && all_failed(outcomes, error.failure) && error.sink == sinks_in_order(moment).last().position
    }

    /// Whether each moment of a run follows from the one before.
    pub open spec fn is_fanout_run(&self, task: FanoutTask, run: Seq<FanoutMoment>) -> bool {
        &&& run.len() > 0
        &&& forall|k: int| 0 < k < run.len() ==> self.input_grows_at(task, run, k)
    }

    /// Whether a moment of a run follows from the one before.
    pub open spec fn input_grows_at(&self, task: FanoutTask, run: Seq<FanoutMoment>, k: int) -> bool {
        self.input_grows(task, run[k - 1], run[k])
    }

    /// Whether a run is that of an input from its switch on.
    pub open spec fn starts_fanout(
        &self,
        task: FanoutTask,
        source: ExternalInputSource,
        sinks: Seq<ResolvedPortTarget>,
        first: FanoutMoment,
    ) -> bool {
        &&& first.world == source.world
        &&& first.sources == seq![
            PoweredRouteSource { position: source.route_source, strength: MAX_REDSTONE_STRENGTH },
        ]
        &&& first.sinks == sinks
        &&& first.routes.len() == 1
        &&& is_switch_route(first.routes[0], source, task.name)
    }

    /// What routing an input from its switch to all its sinks comes to.
    pub open spec fn is_fanout(
        &self,
        name: Seq<char>,
        source: ExternalInputSource,
        sinks: Seq<ResolvedPortTarget>,
        config: GlobalRoutingConfig,
        result: Result<(World3D, Vec<RoutedNet>), UnroutedSink>,
    ) -> bool {
        exists|task: FanoutTask, run: Seq<FanoutMoment>|
            {
                &&& #[trigger] self.is_fanout_run(task, run)
                &&& task.name == name
                &&& task.switch == source.switch
                &&& task.config == config
                &&& are_contacts(sinks, task.contacts)
                &&& self.starts_fanout(task, source, sinks, run[0])
                &&& match result {
                    Ok((world, routes)) => {
                        &&& run.last().sinks.len() == 0
                        &&& world == run.last().world
                        &&& routes@ == run.last().routes
                    },
                    Err(error) => run.last().sinks.len() > 0 && self.input_is_stuck(task, run.last(), error),
                }
            }
    }

    fn grow_input(
        &self,
        name: &str,
        switch: Position,
        contacts: &Vec<Position>,
        config: GlobalRoutingConfig,
        world: &World3D,
        sources: &Vec<PoweredRouteSource>,
        sorted: &Vec<ResolvedPortTarget>,
        Ghost(task): Ghost<FanoutTask>,
        Ghost(moment): Ghost<FanoutMoment>,
    ) -> (result: Result<(usize, RoutedNet, World3D), UnroutedSink>)
        requires
            self.valid(),
            world.wf(),
            task.switch == switch,
            task.contacts == contacts@,
            task.config == config,
            moment.world == *world,
            moment.sources == sources@,
            sorted@ == sinks_in_order(moment),
            sorted.len() > 0,
        ensures
            match result {
                Ok((index, route, after)) => {
                    &&& index < sorted.len()
                    &&& after.wf()
                    &&& exists|outcomes: Seq<SinkOutcome>| #[trigger]
                        self.are_input_sinks_tried(task, moment, outcomes) && is_selected(outcomes, route, after)
                            && outcomes.len() == index + 1
                },
                Err(error) => self.input_is_stuck(task, moment, error),
            },
    {
        let ghost mut outcomes = Seq::<SinkOutcome>::empty();
        let mut last: Option<UnroutedSink> = None;
        let mut chosen: Option<(usize, RoutedNet, World3D)> = None;
        let mut index: usize = 0;
        while index < sorted.len() && chosen.is_none()
            invariant
                index <= sorted.len(),
                self.valid(),
                world.wf(),
                task.switch == switch,
                task.contacts == contacts@,
                task.config == config,
                moment.world == *world,
                moment.sources == sources@,
                sorted@ == sinks_in_order(moment),
                outcomes.len() == index,
                self.are_input_sinks_tried(task, moment, outcomes),
                match chosen {
                    Some((at, route, after)) => at + 1 == index && after.wf() && is_selected(outcomes, route, after),
                    None => if index == 0 {
                        last is None
                    } else {
                        last is Some && all_failed(outcomes, last->0.failure) && last->0.sink == sorted@[index
                            - 1].position
                    },
                },
            decreases sorted.len() - index,
        {
            let sink = sorted[index];
            let outcome = self.route_input_sink(
                switch,
                contacts,
                config,
                world,
                sources,
                sink,
                Ghost(task),
                Ghost(moment),
            );
            let ghost before = outcomes;
            proof {
                outcomes = outcomes.push(outcome);
                assert forall|i: int| 0 <= i < outcomes.len() implies self.routes_input_sink(
                    task,
                    moment,
                    sinks_in_order(moment)[i],
                    #[trigger] outcomes[i],
                ) by {
                    if i < before.len() {
                        assert(outcomes[i] == before[i]);
                    }
                }
                assert forall|i: int| 0 <= i < before.len() implies #[trigger] outcomes[i] is Err by {
                    assert(before[i] is Err);
                }
            }
            match outcome {
                Ok((route, after)) => {
                    chosen = Some((index, route, after));
                },
                Err(failure) => {
                    last = Some(UnroutedSink { sink: sink.position, failure });
                },
            }
            index += 1;
        }
        match chosen {
            Some(found) => Ok(found),
            None => match last {
                Some(error) => {
                    assert(self.are_input_sinks_tried(task, moment, outcomes));
                    Err(error)
                },
                None => {
                    assert(false);
                    Err(
                        UnroutedSink {
                            sink: switch,
                            failure: SinkFailure::Unreachable {
                                failure: RouteFailure::Unreachable { source: switch, sink: switch },
                            },
                        },
                    )
                },
            },
        }
    }

    /// Routes an input from its switch to all its sinks, the nearest first; and
    /// where a sink cannot be routed, the next one first.
    pub fn route_top_input_fanout(
        &self,
        name: &str,
        source: ExternalInputSource,
        sinks: &Vec<ResolvedPortTarget>,
        config: GlobalRoutingConfig,
    ) -> (result: Result<(World3D, Vec<RoutedNet>), UnroutedSink>)
        requires
            self.valid(),
            source.world.wf(),
        ensures
            self.is_fanout(name@, source, sinks@, config, result),
            result matches Ok((world, _)) ==> world.wf(),
    {
        let ghost given = sinks@;
        let contacts = same_net_contact_positions(sinks);
        assert(are_contacts(given, contacts@));
        let ghost begun = source;
        let switch = source.switch;
        let dust = source.route_source;
        let ghost task = FanoutTask { name: name@, switch, contacts: contacts@, config };
        let first = switch_route(name, &source);
        let mut world = source.world;
        let mut routes: Vec<RoutedNet> = Vec::new();
        routes.push(first);
        let mut sources: Vec<PoweredRouteSource> = Vec::new();
        sources.push(PoweredRouteSource { position: dust, strength: MAX_REDSTONE_STRENGTH });
        let mut left = sinks.clone();
        assert(left@ =~= sinks@);
        let ghost mut run = seq![
            FanoutMoment { world, sources: sources@, sinks: left@, routes: routes@ },
        ];
        proof {
            assert(sources@ =~= seq![
                PoweredRouteSource { position: dust, strength: MAX_REDSTONE_STRENGTH },
            ]);
            assert(is_switch_route(first, begun, name@));
            assert(self.starts_fanout(task, begun, given, run[0]));
            assert(self.is_fanout_run(task, run));
        }
        let mut failed: Option<UnroutedSink> = None;
        while left.len() > 0 && failed.is_none()
            invariant
                self.valid(),
                world.wf(),
                are_contacts(given, contacts@),
                task == (FanoutTask { name: name@, switch, contacts: contacts@, config }),
                self.is_fanout_run(task, run),
                self.starts_fanout(task, begun, given, run[0]),
                run.last() == (FanoutMoment { world, sources: sources@, sinks: left@, routes: routes@ }),
                failed matches Some(error) ==> left@.len() > 0 && self.input_is_stuck(task, run.last(), error),
            decreases left.len(), (if failed is None { 1int } else { 0int }),
        {
            let ghost moment = run.last();
            let sorted = sort_top_input_sinks_by_current_tree(&left, &sources);
            match self.grow_input(
                name,
                switch,
                &contacts,
                config,
                &world,
                &sources,
                &sorted,
                Ghost(task),
                Ghost(moment),
            ) {
                Err(error) => {
                    failed = Some(error);
                },
                Ok((index, route, after)) => {
                    let ghost outcomes = choose|outcomes: Seq<SinkOutcome>| #[trigger]
                        self.are_input_sinks_tried(task, moment, outcomes) && is_selected(outcomes, route, after)
                            && outcomes.len() == index + 1;
                    let cell = sorted[index].position;
                    let ghost ordered = sorted@;
                    left = sorted;
                    left.remove(index);
                    assert(left@ =~= ordered.remove(index as int));
                    sources = grow_sources(sources, &after, &route, cell, &left);
                    let ghost plain = route;
                    let labelled = label_input_sink(route, name);
                    let ghost shown = labelled;
                    assert(is_labelled(shown, plain, task.name, task.name + ".sink"@));
                    world = after;
                    routes.push(labelled);
                    let ghost next = FanoutMoment { world, sources: sources@, sinks: left@, routes: routes@ };
                    proof {
                        assert(is_selected(outcomes, plain, next.world));
                        assert(self.input_grows(task, moment, next));
                        let before = run;
                        run = run.push(next);
                        assert forall|k: int| 0 < k < run.len() implies self.input_grows_at(task, run, k) by {
                            if k < before.len() {
                                assert(self.input_grows_at(task, before, k));
                                assert(run[k] == before[k]);
                                assert(run[k - 1] == before[k - 1]);
                            }
                        }
                        assert(run[0] == before[0]);
                    }
                },
            }
        }
        let result: Result<(World3D, Vec<RoutedNet>), UnroutedSink> = match failed {
            Some(error) => Err(error),
            None => Ok((world, routes)),
        };
        assert(self.is_fanout(name@, begun, given, config, result));
        result
    }
}

/// Whether a result is another that starts at a switch.
pub open spec fn is_owned_by(tried: RouteResult, switch: Position, owned: RouteResult) -> bool {
    match tried {
        Err(failure) => owned == Err::<(RoutedNet, World3D), RouteFailure>(failure),
        Ok((route, world)) => owned == Ok::<(RoutedNet, World3D), RouteFailure>(
            (RoutedNet { source: switch, ..route }, world),
        ),
    }
}

fn switch_route(name: &str, source: &ExternalInputSource) -> (route: RoutedNet)
    ensures
        is_switch_route(route, *source, name@),
{
    let path = vec![source.route_source];
    assert(path@ =~= seq![source.route_source]);
    let blocks = copy_placed(&source.blocks);
    let plain = RoutedNet::new(source.switch, source.switch, blocks, path);
    let ghost known = plain;
    let route = plain.with_labels(name.to_owned(), join2(name, ".switch"));
    assert(is_labelled(route, known, name@, name@ + ".switch"@));
    route
}

fn label_input_sink(route: RoutedNet, name: &str) -> (labelled: RoutedNet)
    ensures
        is_labelled(labelled, route, name@, name@ + ".sink"@),
{
    route.with_labels(name.to_owned(), join2(name, ".sink"))
}

} // verus!
