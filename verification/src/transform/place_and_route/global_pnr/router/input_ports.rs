//! Routing all inputs of a design.

use super::external::ExternalInputSource;
use super::inputs::{GlobalRoutingConfig, UnroutedSink};
use super::plan::RoutingTopInput;
use super::ports::{port_targets, ports_fit, resolve_port_targets, PlacedModule, ResolvedPortTarget};
use super::tools::RouteTools;
use crate::text::same_text;
use crate::transform::place_and_route::global_pnr::ir::LayoutCandidate;
use crate::transform::place_and_route::global_pnr::route_engine::route::RoutedNet;
use crate::transform::place_and_route::global_pnr::route_engine::search::PlaceRequest;
use crate::transform::place_and_route::global_pnr::route_engine::state::PlaceBound;
use crate::world::block::Block;
use crate::world::grid::World3D;
use crate::world::position::Position;
use vstd::prelude::*;

verus! {

/// Why an input was not routed.
#[derive(Clone, Copy, Debug, PartialEq, Eq, Structural)]
pub enum InputFailure {
    /// There is no room for its switch.
    NoSwitch,
    /// One of its sinks was not routed.
    Unrouted { sink: UnroutedSink },
}

/// What routing an input from one switch comes to.
pub type FanoutResult = Result<(World3D, Vec<RoutedNet>), UnroutedSink>;

/// The sinks of the first `count` targets of an input.
pub open spec fn input_sinks(
    candidates: Seq<LayoutCandidate>,
    placed: Seq<PlacedModule>,
    targets: Seq<(String, String)>,
    count: nat,
) -> Seq<ResolvedPortTarget>
    decreases count,
{
    if count == 0 {
        Seq::empty()
    } else {
        input_sinks(candidates, placed, targets, (count - 1) as nat) + port_targets(
            candidates,
            placed,
            targets[count - 1].0@,
            targets[count - 1].1@,
        )
    }
}

/// All sinks of an input.
pub open spec fn sinks_of_input(
    candidates: Seq<LayoutCandidate>,
    placed: Seq<PlacedModule>,
    input: RoutingTopInput,
) -> Seq<ResolvedPortTarget> {
    input_sinks(candidates, placed, input.targets@, input.targets@.len())
}

/// Whether the cells of all targets of an input stay in range.
pub open spec fn input_fits(
    candidates: Seq<LayoutCandidate>,
    placed: Seq<PlacedModule>,
    input: RoutingTopInput,
) -> bool {
    forall|k: int|
        0 <= k < input.targets@.len() ==> ports_fit(
            candidates,
            placed,
            (#[trigger] input.targets@[k]).0@,
            input.targets@[k].1@,
        )
}

fn find_input_sinks(
    candidates: &Vec<LayoutCandidate>,
    placed: &Vec<PlacedModule>,
    input: &RoutingTopInput,
) -> (sinks: Vec<ResolvedPortTarget>)
    requires
        input_fits(candidates@, placed@, *input),
    ensures
        sinks@ == sinks_of_input(candidates@, placed@, *input),
{
    let mut sinks: Vec<ResolvedPortTarget> = Vec::new();
    assert(sinks@ =~= input_sinks(candidates@, placed@, input.targets@, 0));
    let mut index: usize = 0;
    while index < input.targets.len()
        invariant
            index <= input.targets.len(),
            input_fits(candidates@, placed@, *input),
            sinks@ == input_sinks(candidates@, placed@, input.targets@, index as nat),
        decreases input.targets.len() - index,
    {
        let target = &input.targets[index];
        assert(ports_fit(candidates@, placed@, input.targets@[index as int].0@, input.targets@[index as int].1@));
        let mut more = resolve_port_targets(candidates, placed, target.0.as_str(), target.1.as_str());
        sinks.append(&mut more);
        index += 1;
    }
    sinks
}

/// The number of inputs with sinks among the first `count`.
pub open spec fn input_number(
    candidates: Seq<LayoutCandidate>,
    placed: Seq<PlacedModule>,
    inputs: Seq<RoutingTopInput>,
    count: nat,
) -> nat
    decreases count,
{
    if count == 0 {
        0
    } else {
        let rest = input_number(candidates, placed, inputs, (count - 1) as nat);
        if sinks_of_input(candidates, placed, inputs[count - 1]).len() > 0 {
            rest + 1
        } else {
            rest
        }
    }
}

/// Whether a name is among those of routed inputs.
pub open spec fn is_completed(completed: Seq<String>, name: Seq<char>) -> bool {
    exists|k: int| 0 <= k < completed.len() && (#[trigger] completed[k])@ == name
}

fn completes(completed: &Vec<String>, name: &str) -> (found: bool)
    ensures
        found == is_completed(completed@, name@),
{
    let mut found = false;
    let mut index: usize = 0;
    while index < completed.len()
        invariant
            index <= completed.len(),
            found == exists|k: int| 0 <= k < index && (#[trigger] completed@[k])@ == name@,
        decreases completed.len() - index,
    {
        if same_text(completed[index].as_str(), name) {
            assert(completed@[index as int]@ == name@);
            found = true;
        }
        index += 1;
    }
    found
}

/// A design whose inputs are being routed.
pub ghost struct InputMoment {
    pub world: World3D,
    pub routes: Seq<RoutedNet>,
}

/// What stays the same while the inputs of a design are routed.
pub ghost struct InputTask {
    pub candidates: Seq<LayoutCandidate>,
    pub placed: Seq<PlacedModule>,
    pub inputs: Seq<RoutingTopInput>,
    pub config: GlobalRoutingConfig,
    pub completed: Seq<String>,
}

impl<
    F: Fn(&World3D, Position, Position) -> bool,
    C: Fn(&World3D, Position, Position) -> bool,
    B: Fn(&World3D, Position) -> Vec<PlaceBound>,
    L: Fn(&World3D, &PlaceRequest) -> Option<(World3D, Position)>,
    P: Fn(&World3D, Position, Block, &Vec<Position>) -> Option<World3D>,
    S: Fn(&World3D, Position, Option<bool>, &Vec<Position>) -> Option<Vec<bool>>,
> RouteTools<F, C, B, L, P, S> {
    /// Whether the switches of an input were tried in turn.
    pub open spec fn are_fanouts(
        &self,
        name: Seq<char>,
        sinks: Seq<ResolvedPortTarget>,
        config: GlobalRoutingConfig,
        sources: Seq<ExternalInputSource>,
        tried: Seq<FanoutResult>,
    ) -> bool {
        &&& tried.len() <= sources.len()
        &&& forall|i: int|
            0 <= i < tried.len() ==> self.is_fanout(name, sources[i], sinks, config, #[trigger] tried[i])
    }

    /// What routing an input comes to: from the first switch from which all its
    /// sinks can be routed.
    pub open spec fn is_routed_input(
        &self,
        world: World3D,
        name: Seq<char>,
        number: nat,
        sinks: Seq<ResolvedPortTarget>,
        config: GlobalRoutingConfig,
        result: Result<(World3D, Vec<RoutedNet>), InputFailure>,
    ) -> bool {
        exists|sources: Seq<ExternalInputSource>, tried: Seq<FanoutResult>|
            {
                &&& #[trigger] self.are_external_sources(world, number, sinks, sources)
                &&& #[trigger] self.are_fanouts(name, sinks, config, sources, tried)
                &&& forall|i: int| 0 <= i < tried.len() - 1 ==> #[trigger] tried[i] is Err
                &&& match result {
                    Ok(found) => tried.len() > 0 && tried.last() == Ok::<(World3D, Vec<RoutedNet>), UnroutedSink>(
                        found,
                    ),
                    Err(InputFailure::NoSwitch) => sources.len() == 0,
                    Err(InputFailure::Unrouted { sink }) => sources.len() > 0 && tried.len() == sources.len()
                        && tried.last() == Err::<(World3D, Vec<RoutedNet>), UnroutedSink>(sink),
                }
            }
    }

    fn route_one_input(
        &self,
        world: &World3D,
        name: &str,
        number: usize,
        sinks: &Vec<ResolvedPortTarget>,
        config: GlobalRoutingConfig,
    ) -> (result: Result<(World3D, Vec<RoutedNet>), InputFailure>)
        requires
            self.valid(),
            world.wf(),
        ensures
            self.is_routed_input(*world, name@, number as nat, sinks@, config, result),
            result matches Ok((after, _)) ==> after.wf(),
    {
        let mut left = self.external_input_sources(world, number, sinks);
        let ghost sources = left@;
        let ghost mut tried = Seq::<FanoutResult>::empty();
        assert(self.are_external_sources(*world, number as nat, sinks@, sources));
        assert(sources.skip(0) =~= sources);
        let mut found: Option<(World3D, Vec<RoutedNet>)> = None;
        let mut last: Option<UnroutedSink> = None;
        while left.len() > 0 && found.is_none()
            invariant
                self.valid(),
                tried.len() <= sources.len(),
                left@ == sources.skip(tried.len() as int),
                forall|i: int| 0 <= i < left@.len() ==> (#[trigger] left@[i]).world.wf(),
                self.are_fanouts(name@, sinks@, config, sources, tried),
                forall|i: int| 0 <= i < tried.len() - 1 ==> #[trigger] tried[i] is Err,
                match found {
                    Some(found) => found.0.wf() && tried.len() > 0 && tried.last() == Ok::<
                        (World3D, Vec<RoutedNet>),
                        UnroutedSink,
                    >(found),
                    None => if tried.len() == 0 {
                        last is None
                    } else {
                        last is Some && tried.last() == Err::<(World3D, Vec<RoutedNet>), UnroutedSink>(last->0)
                    },
                },
            decreases left.len(),
        {
            assert(left@[0].world.wf());
            let ghost rest = left@;
            let source = left.remove(0);
            let ghost used = source;
            let outcome = self.route_top_input_fanout(name, source, sinks, config);
            let ghost before = tried;
            proof {
                assert(used == sources[tried.len() as int]);
                tried = tried.push(outcome);
                assert(left@ =~= sources.skip(tried.len() as int));
                assert forall|i: int| 0 <= i < left@.len() implies (#[trigger] left@[i]).world.wf() by {
                    assert(left@[i] == rest[i + 1]);
                }
                assert forall|i: int| 0 <= i < tried.len() implies self.is_fanout(
                    name@,
                    sources[i],
                    sinks@,
                    config,
                    #[trigger] tried[i],
                ) by {
                    if i < before.len() {
                        assert(tried[i] == before[i]);
                    }
                }
                assert forall|i: int| 0 <= i < tried.len() - 1 implies #[trigger] tried[i] is Err by {
                    assert(tried[i] == before[i]);
                    if i == before.len() - 1 {
                        assert(before.last() is Err);
                    }
                }
            }
            match outcome {
                Ok(routed) => {
                    found = Some(routed);
                },
                Err(error) => {
                    last = Some(error);
                },
            }
        }
        let result: Result<(World3D, Vec<RoutedNet>), InputFailure> = match found {
            Some(found) => Ok(found),
            None => match last {
                None => Err(InputFailure::NoSwitch),
                Some(sink) => Err(InputFailure::Unrouted { sink }),
            },
        };
        assert(self.are_fanouts(name@, sinks@, config, sources, tried));
        result
    }

    /// Whether an input is passed over: it has no sinks, or was routed before.
    pub open spec fn passes_over(&self, task: InputTask, index: int) -> bool {
        ||| sinks_of_input(task.candidates, task.placed, task.inputs[index]).len() == 0
        ||| is_completed(task.completed, task.inputs[index].name@)
    }

    /// Whether routing one input leads from a moment to the next.
    pub open spec fn input_follows(
        &self,
        task: InputTask,
        index: int,
        moment: InputMoment,
        next: InputMoment,
    ) -> bool {
        if self.passes_over(task, index) {
            next == moment
        } else {
            self.input_adds(task, index, moment, next)
        }
    }

    /// Whether routing one input adds routes.
    pub open spec fn input_adds(&self, task: InputTask, index: int, moment: InputMoment, next: InputMoment) -> bool {
        exists|result: Result<(World3D, Vec<RoutedNet>), InputFailure>| #[trigger]
            self.is_input_result(task, index, moment, result) && result is Ok && next.world == result->Ok_0.0
                && next.routes == moment.routes + result->Ok_0.1@
    }

    /// What routing one input comes to.
    pub open spec fn is_input_result(
        &self,
        task: InputTask,
        index: int,
        moment: InputMoment,
        result: Result<(World3D, Vec<RoutedNet>), InputFailure>,
    ) -> bool {
        self.is_routed_input(
            moment.world,
            task.inputs[index].name@,
            input_number(task.candidates, task.placed, task.inputs, index as nat),
            sinks_of_input(task.candidates, task.placed, task.inputs[index]),
            task.config,
            result,
        )
    }

    /// Whether a moment of a run follows from the one before.
    pub open spec fn input_follows_at(&self, task: InputTask, run: Seq<InputMoment>, k: int) -> bool {
        self.input_follows(task, k - 1, run[k - 1], run[k])
    }

    /// Whether each moment of a run follows from the one before.
    pub open spec fn is_input_run(&self, task: InputTask, run: Seq<InputMoment>) -> bool {
        &&& 0 < run.len() <= task.inputs.len() + 1
        &&& forall|k: int| 0 < k < run.len() ==> self.input_follows_at(task, run, k)
    }

    /// What routing all inputs comes to: they are routed one after the other,
    /// up to the first that cannot be.
    pub open spec fn are_routed_inputs(
        &self,
        task: InputTask,
        first: InputMoment,
        routes: Seq<RoutedNet>,
        result: Result<World3D, (usize, InputFailure)>,
    ) -> bool {
        exists|run: Seq<InputMoment>|
            {
                &&& #[trigger] self.is_input_run(task, run)
                &&& run[0] == first
                &&& routes == run.last().routes
                &&& match result {
                    Ok(world) => run.len() == task.inputs.len() + 1 && world == run.last().world,
                    Err((index, failure)) => {
                        &&& run.len() == index + 1 <= task.inputs.len()
                        &&& !self.passes_over(task, index as int)
                        &&& self.is_input_result(task, index as int, run.last(), Err(failure))
                    },
                }
            }
    }

    /// Routes all inputs of a design.
    pub fn route_top_input_ports(
        &self,
        inputs: &Vec<RoutingTopInput>,
        candidates: &Vec<LayoutCandidate>,
        placed: &Vec<PlacedModule>,
        config: GlobalRoutingConfig,
        completed: &Vec<String>,
        world: World3D,
        routes: &mut Vec<RoutedNet>,
    ) -> (result: Result<World3D, (usize, InputFailure)>)
        requires
            self.valid(),
            world.wf(),
            forall|i: int| 0 <= i < inputs.len() ==> input_fits(candidates@, placed@, #[trigger] inputs@[i]),
        ensures
            self.are_routed_inputs(
                InputTask {
                    candidates: candidates@,
                    placed: placed@,
                    inputs: inputs@,
                    config,
                    completed: completed@,
                },
                InputMoment { world, routes: old(routes)@ },
                final(routes)@,
                result,
            ),
            result matches Ok(after) ==> after.wf(),
    {
        let ghost task = InputTask {
            candidates: candidates@,
            placed: placed@,
            inputs: inputs@,
            config,
            completed: completed@,
        };
        let ghost first = InputMoment { world, routes: routes@ };
        let ghost mut run = seq![first];
        let mut world = world;
        let mut number: usize = 0;
        let mut failed: Option<InputFailure> = None;
        let mut index: usize = 0;
        while index < inputs.len() && failed.is_none()
            invariant
                index <= inputs.len(),
                self.valid(),
                world.wf(),
                forall|i: int| 0 <= i < inputs.len() ==> input_fits(candidates@, placed@, #[trigger] inputs@[i]),
                task == (InputTask {
                    candidates: candidates@,
                    placed: placed@,
                    inputs: inputs@,
                    config,
                    completed: completed@,
                }),
                number == input_number(candidates@, placed@, inputs@, index as nat),
                number <= index,
                run.len() == index + 1,
                run[0] == first,
                run.last() == (InputMoment { world, routes: routes@ }),
                self.is_input_run(task, run),
                failed matches Some(failure) ==> index < inputs.len() && !self.passes_over(task, index as int)
                    && self.is_input_result(task, index as int, run.last(), Err(failure)),
            decreases inputs.len() - index, (if failed is None { 1int } else { 0int }),
        {
            let input = &inputs[index];
            assert(input_fits(candidates@, placed@, inputs@[index as int]));
            let sinks = find_input_sinks(candidates, placed, input);
            let done = completes(completed, input.name.as_str());
            let mut advance = true;
            if sinks.len() > 0 && !done {
                let ghost moment = run.last();
                let outcome = self.route_one_input(&world, input.name.as_str(), number, &sinks, config);
                let ghost known = outcome;
                assert(self.is_input_result(task, index as int, moment, known));
                match outcome {
                    Err(failure) => {
                        failed = Some(failure);
                        advance = false;
                    },
                    Ok((after, more)) => {
                        let mut more = more;
                        let ghost added = more;
                        let ghost had = routes@;
                        world = after;
                        routes.append(&mut more);
                        assert(routes@ == had + added@);
                        assert(known->Ok_0.1@ == added@);
                        assert(self.input_adds(
                            task,
                            index as int,
                            moment,
                            InputMoment { world, routes: routes@ },
                        ));
                    },
                }
            }
            if advance {
                let ghost next = InputMoment { world, routes: routes@ };
                proof {
                    assert(self.input_follows(task, index as int, run.last(), next));
                    let before = run;
                    run = run.push(next);
                    assert forall|k: int| 0 < k < run.len() implies self.input_follows_at(task, run, k) by {
                        if k < before.len() {
                            assert(self.input_follows_at(task, before, k));
                            assert(run[k] == before[k]);
                        }
                        assert(run[k - 1] == before[k - 1]);
                    }
                    assert(run[0] == before[0]);
                }
                if sinks.len() > 0 {
                    number += 1;
                }
                index += 1;
            }
        }
        let result: Result<World3D, (usize, InputFailure)> = match failed {
            Some(failure) => Err((index, failure)),
            None => Ok(world),
        };
        assert(self.is_input_run(task, run));
        result
    }
}

} // verus!
