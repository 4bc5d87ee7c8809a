//! What holds of all routes of a design.

use super::input_ports::{InputFailure, InputMoment, InputTask};
use super::nets::{group_sinks, source_of, GroupTask, NetFailure, NetMoment, NetTask};
use super::plan::{are_group_ends, group_start};
use super::tools::RouteTools;
use crate::transform::place_and_route::global_pnr::route_engine::route::RoutedNet;
use crate::transform::place_and_route::global_pnr::route_engine::search::PlaceRequest;
use crate::transform::place_and_route::global_pnr::route_engine::state::PlaceBound;
use crate::world::block::Block;
use crate::world::grid::World3D;
use crate::world::position::Position;
use vstd::prelude::*;

verus! {

/// Whether routes begin with others.
pub open spec fn begins_with(routes: Seq<RoutedNet>, first: Seq<RoutedNet>) -> bool {
    &&& first.len() <= routes.len()
    &&& forall|i: int| 0 <= i < first.len() ==> #[trigger] routes[i] == first[i]
}

impl<
    F: Fn(&World3D, Position, Position) -> bool,
    C: Fn(&World3D, Position, Position) -> bool,
    B: Fn(&World3D, Position) -> Vec<PlaceBound>,
    L: Fn(&World3D, &PlaceRequest) -> Option<(World3D, Position)>,
    P: Fn(&World3D, Position, Block, &Vec<Position>) -> Option<World3D>,
    S: Fn(&World3D, Position, Option<bool>, &Vec<Position>) -> Option<Vec<bool>>,
> RouteTools<F, C, B, L, P, S> {
    proof fn input_run_keeps(&self, task: InputTask, run: Seq<InputMoment>, count: nat)
        requires
            self.is_input_run(task, run),
            0 < count <= run.len(),
        ensures
            begins_with(run[count - 1].routes, run[0].routes),
        decreases count,
    {
        if count > 1 {
            self.input_run_keeps(task, run, (count - 1) as nat);
            assert(self.input_follows_at(task, run, count - 1));
            assert(run[count - 1 - 1] == run[count - 2]);
        }
    }

    /// Routing the inputs of a design, all of them or some, keeps the routes that
    /// there were.
    pub proof fn inputs_keep_routes(
        &self,
        task: InputTask,
        first: InputMoment,
        routes: Seq<RoutedNet>,
        result: Result<World3D, (usize, InputFailure)>,
    )
        requires
            self.are_routed_inputs(task, first, routes, result),
        ensures
            begins_with(routes, first.routes),
    {
        let run = choose|run: Seq<InputMoment>|
            {
                &&& #[trigger] self.is_input_run(task, run)
                &&& run[0] == first
                &&& routes == run.last().routes
                &&& match result {
                    Ok(world) => run.len() == task.inputs.len() + 1 && world == run.last().world,
                    Err((index, failure)) => {
                        &&& run.len() == index + 1 <= task.inputs.len()
                        &&& !self.passes_over(task, index as int)
                        &&& self.is_input_result(task, index as int, run.last(), Err(failure))
                    },
                }
            };
        self.input_run_keeps(task, run, run.len());
    }

    proof fn net_run_keeps(&self, group: GroupTask, run: Seq<NetMoment>, count: nat)
        requires
            self.is_net_run(group, run),
            0 < count <= run.len(),
        ensures
            begins_with(run[count - 1].routes, run[0].routes),
        decreases count,
    {
        if count > 1 {
            self.net_run_keeps(group, run, (count - 1) as nat);
            assert(self.net_grows_at(group, run, count - 1));
            assert(run[count - 1 - 1] == run[count - 2]);
        }
    }

    proof fn group_keeps(
        &self,
        task: NetTask,
        low: int,
        high: int,
        before: InputMoment,
        routes: Seq<RoutedNet>,
        result: Result<World3D, NetFailure>,
    )
        requires
            self.is_group(task, low, high, before, routes, result),
        ensures
            begins_with(routes, before.routes),
    {
        if let Some(found) = source_of(task, low) {
            if let Ok(sinks) = group_sinks(task, low as nat, high as nat) {
                assert(self.is_net(task, low, found, sinks, before, routes, result));
                let (group, run) = choose|group: GroupTask, run: Seq<NetMoment>|
                    (#[trigger] self.is_net_run(group, run)) && run[0].routes == before.routes && routes
                        == run.last().routes;
                self.net_run_keeps(group, run, run.len());
            }
        }
    }

    proof fn group_run_keeps(&self, task: NetTask, ends: Seq<usize>, run: Seq<InputMoment>, count: nat)
        requires
            self.is_group_run(task, ends, run),
            0 < count <= run.len(),
        ensures
            begins_with(run[count - 1].routes, run[0].routes),
        decreases count,
    {
        if count > 1 {
            self.group_run_keeps(task, ends, run, (count - 1) as nat);
            let k = count - 1;
            assert(self.group_follows_at(task, ends, run, k));
            self.group_keeps(
                task,
                group_start(ends, k - 1),
                ends[k - 1] as int,
                run[k - 1],
                run[k].routes,
                Ok(run[k].world),
            );
            assert(run[k - 1] == run[count - 2]);
        }
    }

    /// Routing the connections of a design, all of them or some, keeps the routes
    /// that there were.
    pub proof fn nets_keep_routes(
        &self,
        task: NetTask,
        first: InputMoment,
        routes: Seq<RoutedNet>,
        result: Result<World3D, NetFailure>,
    )
        requires
            self.are_routed_nets(task, first, routes, result),
        ensures
            begins_with(routes, first.routes),
    {
        let (ends, run) = choose|ends: Seq<usize>, run: Seq<InputMoment>|
            {
                &&& are_group_ends(task.vars, ends)
                &&& #[trigger] self.is_group_run(task, ends, run)
                &&& run[0] == first
                &&& match result {
                    Ok(world) => {
                        &&& run.len() == ends.len() + 1
                        &&& world == run.last().world
                        &&& routes == run.last().routes
                    },
                    Err(_) => {
                        &&& run.len() <= ends.len()
                        &&& self.is_group(
                            task,
                            group_start(ends, run.len() - 1),
                            ends[run.len() - 1] as int,
                            run.last(),
                            routes,
                            result,
                        )
                    },
                }
            };
        self.group_run_keeps(task, ends, run, run.len());
        if result is Err {
            self.group_keeps(
                task,
                group_start(ends, run.len() - 1),
                ends[run.len() - 1] as int,
                run.last(),
                routes,
                result,
            );
        }
    }
}

} // verus!
