//! From where the branches of a net start, and in what order its sinks are
//! routed.

use super::ports::ResolvedPortTarget;
use crate::number::capped;
use crate::order::{is_stable_order, stable_order, stable_order_is_unique, the_stable_order, RankKey, SortKey};
use crate::transform::place_and_route::global_pnr::route_engine::route::RoutedNet;
use crate::transform::place_and_route::global_pnr::route_engine::state::{
    is_route_terminal, is_signal, PoweredRouteSource,
};
use crate::world::grid::World3D;
use crate::world::position::{distance, in_bounds, is_beside, neighbour, Direction, Position};
use vstd::prelude::*;

verus! {

/// How many sources a net is routed from at most.
pub const FANOUT_ROUTE_SOURCE_LIMIT: usize = 8;

/// How many cells are kept for a net to branch off from at most.
pub const FANOUT_ROUTE_TERMINAL_LIMIT: usize = 24;

/// The distance of a cell from the nearest of the first `count` sources.
pub open spec fn nearest_source(sources: Seq<PoweredRouteSource>, cell: Position, count: nat) -> nat
    decreases count,
{
    if count == 0 {
        usize::MAX as nat
    } else {
        let rest = nearest_source(sources, cell, (count - 1) as nat);
        let here = capped(distance(sources[count - 1].position, cell));
        if here < rest {
            here
        } else {
            rest
        }
    }
}

fn nearest_to(sources: &Vec<PoweredRouteSource>, cell: Position) -> (steps: usize)
    ensures
        steps == nearest_source(sources@, cell, sources@.len()),
{
    let mut steps: usize = usize::MAX;
    let mut index: usize = 0;
    while index < sources.len()
        invariant
            index <= sources.len(),
            steps == nearest_source(sources@, cell, index as nat),
        decreases sources.len() - index,
    {
        let here: usize = sources[index].position.capped_distance(&cell);
        if here < steps {
            steps = here;
        }
        index += 1;
    }
    steps
}

/// By what the sinks of an input are ordered: the nearest to the sources first.
pub open spec fn top_sink_keys(sinks: Seq<ResolvedPortTarget>, sources: Seq<PoweredRouteSource>) -> Seq<RankKey> {
    sinks.map_values(
        |sink: ResolvedPortTarget|
            RankKey(
                nearest_source(sources, sink.position, sources.len()) as usize,
                sink.position.0,
                sink.position.1,
                sink.position.2,
                0,
            ),
    )
}

/// Targets in a stable order.
pub open spec fn in_rank_order(sinks: Seq<ResolvedPortTarget>, keys: Seq<RankKey>) -> Seq<ResolvedPortTarget> {
    let order = the_stable_order(keys);
    Seq::new(sinks.len(), |i: int| sinks[order[i] as int])
}

/// Orders the sinks of an input: the nearest to the sources first.
pub fn sort_top_input_sinks_by_current_tree(
    sinks: &Vec<ResolvedPortTarget>,
    sources: &Vec<PoweredRouteSource>,
) -> (sorted: Vec<ResolvedPortTarget>)
    ensures
        sorted@ == in_rank_order(sinks@, top_sink_keys(sinks@, sources@)),
        sorted.len() == sinks.len(),
{
    let mut keys: Vec<RankKey> = Vec::new();
    let mut index: usize = 0;
    while index < sinks.len()
        invariant
            index <= sinks.len(),
            keys.len() == index,
            forall|i: int| 0 <= i < index ==> #[trigger] keys@[i] == top_sink_keys(sinks@, sources@)[i],
        decreases sinks.len() - index,
    {
        let cell = sinks[index].position;
        keys.push(RankKey(nearest_to(sources, cell), cell.0, cell.1, cell.2, 0));
        index += 1;
    }
    assert(keys@ =~= top_sink_keys(sinks@, sources@));
    let order = stable_order(&keys);
    proof {
        stable_order_is_unique(keys@, order@);
    }
    let mut sorted: Vec<ResolvedPortTarget> = Vec::new();
    let mut index: usize = 0;
    while index < order.len()
        invariant
            index <= order.len(),
            order.len() == sinks.len(),
            order@ == the_stable_order(top_sink_keys(sinks@, sources@)),
            forall|i: int| 0 <= i < order.len() ==> #[trigger] order@[i] < sinks.len(),
            sorted.len() == index,
            forall|i: int| 0 <= i < index ==> #[trigger] sorted@[i] == sinks@[order@[i] as int],
        decreases order.len() - index,
    {
        let at: usize = order[index];
        assert(order@[index as int] < sinks.len());
        sorted.push(sinks[at]);
        index += 1;
    }
    assert(sorted@ =~= in_rank_order(sinks@, top_sink_keys(sinks@, sources@)));
    sorted
}

/// A sink of a connection inside the design: the number of its connection, its
/// target, and the bit that it feeds.
#[derive(Clone, Copy, Debug, PartialEq, Eq, Structural)]
pub struct InternalSink {
    pub var: usize,
    pub target: ResolvedPortTarget,
    /// What connections into the logic of a register are ordered by.
    pub bit_order: usize,
}

/// By what the sinks of a connection are ordered: the highest bit first, and of
/// those the farthest from the sources.
pub open spec fn internal_sink_keys(sinks: Seq<InternalSink>, sources: Seq<PoweredRouteSource>) -> Seq<RankKey> {
    sinks.map_values(
        |sink: InternalSink|
            RankKey(
                sink.bit_order,
                (usize::MAX - nearest_source(sources, sink.target.position, sources.len())) as usize,
                sink.target.position.0,
                sink.target.position.1,
                sink.target.position.2,
            ),
    )
}

/// Orders the sinks of a connection: the highest bit first, and of those the
/// farthest from the sources.
pub fn sort_internal_sink_targets_by_current_tree(
    sinks: &Vec<InternalSink>,
    sources: &Vec<PoweredRouteSource>,
) -> (order: Vec<usize>)
    ensures
        order@ == the_stable_order(internal_sink_keys(sinks@, sources@)),
        is_stable_order(internal_sink_keys(sinks@, sources@), order@),
        order.len() == sinks.len(),
{
    let mut keys: Vec<RankKey> = Vec::new();
    let mut index: usize = 0;
    while index < sinks.len()
        invariant
            index <= sinks.len(),
            keys.len() == index,
            forall|i: int| 0 <= i < index ==> #[trigger] keys@[i] == internal_sink_keys(sinks@, sources@)[i],
        decreases sinks.len() - index,
    {
        let cell = sinks[index].target.position;
        let near: usize = nearest_to(sources, cell);
        keys.push(RankKey(sinks[index].bit_order, usize::MAX - near, cell.0, cell.1, cell.2));
        index += 1;
    }
    assert(keys@ =~= internal_sink_keys(sinks@, sources@));
    let order = stable_order(&keys);
    proof {
        stable_order_is_unique(keys@, order@);
    }
    order
}

// ---------------------------------------------------------------------------
// Contacts
// ---------------------------------------------------------------------------
/// Whether a cell belongs to a sink: its own, those beside it, and the one
/// above.
pub open spec fn is_sink_contact(sink: ResolvedPortTarget, cell: Position) -> bool {
    cell == sink.position || is_beside(sink.position, cell) || neighbour(sink.position, Direction::Top) == Some(cell)
}

/// The cells that the routes of a net may touch: those of its sinks.
pub fn same_net_contact_positions(sinks: &Vec<ResolvedPortTarget>) -> (cells: Vec<Position>)
    ensures
        forall|cell: Position| #[trigger]
            cells@.contains(cell) <==> exists|k: int|
                0 <= k < sinks.len() && is_sink_contact(#[trigger] sinks@[k], cell),
{
    let mut cells: Vec<Position> = Vec::new();
    let mut index: usize = 0;
    while index < sinks.len()
        invariant
            index <= sinks.len(),
            forall|cell: Position| #[trigger]
                cells@.contains(cell) <==> exists|k: int|
                    0 <= k < index && is_sink_contact(#[trigger] sinks@[k], cell),
        decreases sinks.len() - index,
    {
        let ghost before = cells@;
        let own = sinks[index].position;
        let mut more = own.cardinal();
        let ghost beside = more@;
        more.push(own);
        if let Some(above) = own.walk(Direction::Top) {
            more.push(above);
        }
        let ghost added = more@;
        cells.append(&mut more);
        proof {
            assert(cells@ == before + added);
            contact_list(own, beside, added);
            assert forall|cell: Position| #[trigger] cells@.contains(cell) <==> exists|k: int|
                0 <= k < index + 1 && is_sink_contact(#[trigger] sinks@[k], cell) by {
                assert(added.contains(cell) <==> is_sink_contact(sinks@[index as int], cell));
                if cells@.contains(cell) {
                    let i = choose|i: int| 0 <= i < cells@.len() && cells@[i] == cell;
                    if i < before.len() {
                        assert(before[i] == cell);
                        assert(before.contains(cell));
                        let k = choose|k: int| 0 <= k < index && is_sink_contact(#[trigger] sinks@[k], cell);
                        assert(is_sink_contact(sinks@[k], cell));
                    } else {
                        assert(added[i - before.len()] == cell);
                        assert(is_sink_contact(sinks@[index as int], cell));
                    }
                }
                if exists|k: int| 0 <= k < index + 1 && is_sink_contact(#[trigger] sinks@[k], cell) {
                    let k = choose|k: int| 0 <= k < index + 1 && is_sink_contact(#[trigger] sinks@[k], cell);
                    if k < index {
                        assert(before.contains(cell));
                        let i = choose|i: int| 0 <= i < before.len() && before[i] == cell;
                        assert(cells@[i] == cell);
                    } else {
                        assert(added.contains(cell));
                        let i = choose|i: int| 0 <= i < added.len() && added[i] == cell;
                        assert(cells@[before.len() + i] == cell);
                    }
                }
            }
        }
        index += 1;
    }
    cells
}

proof fn contact_list(own: Position, beside: Seq<Position>, added: Seq<Position>)
    requires
        forall|i: int| 0 <= i < beside.len() ==> is_beside(own, #[trigger] beside[i]),
        forall|cell: Position| is_beside(own, cell) ==> #[trigger] beside.contains(cell),
        match neighbour(own, Direction::Top) {
            Some(above) => added == beside.push(own).push(above),
            None => added == beside.push(own),
        },
    ensures
        forall|cell: Position| #[trigger]
            added.contains(cell) <==> cell == own || is_beside(own, cell) || neighbour(own, Direction::Top) == Some(
                cell,
            ),
{
    assert forall|cell: Position| #[trigger] added.contains(cell) <==> cell == own || is_beside(own, cell) || neighbour(
        own,
        Direction::Top,
    ) == Some(cell) by {
        if added.contains(cell) {
            let i = choose|i: int| 0 <= i < added.len() && added[i] == cell;
            if i < beside.len() {
                assert(added[i] == beside[i]);
            }
        }
        if is_beside(own, cell) {
            assert(beside.contains(cell));
            let i = choose|i: int| 0 <= i < beside.len() && beside[i] == cell;
            assert(added[i] == cell);
        }
        if cell == own {
            assert(added[beside.len() as int] == own);
        }
        if neighbour(own, Direction::Top) == Some(cell) {
            assert(added[(beside.len() + 1) as int] == cell);
        }
    }
}

// ---------------------------------------------------------------------------
// Branches
// ---------------------------------------------------------------------------
/// The taps of a route from which a branch can start: those with a signal that
/// is strong enough.
pub open spec fn branch_taps(world: World3D, route: RoutedNet, count: nat) -> Seq<PoweredRouteSource>
    decreases count,
{
    if count == 0 {
        Seq::empty()
    } else {
        let rest = branch_taps(world, route, (count - 1) as nat);
        let (position, strength) = route.powered_taps@[count - 1];
        if strength > 1 && in_bounds(world.size, position) && is_signal(world.at(position).kind) {
            rest.push(PoweredRouteSource { position, strength })
        } else {
            rest
        }
    }
}

/// By what branch taps are ordered: the nearest to the sink first, and of those
/// the strongest.
pub open spec fn branch_keys(taps: Seq<PoweredRouteSource>, sink: Position) -> Seq<RankKey> {
    taps.map_values(
        |tap: PoweredRouteSource|
            RankKey(
                capped(distance(tap.position, sink)) as usize,
                (usize::MAX - tap.strength) as usize,
                (usize::MAX - tap.position.0) as usize,
                tap.position.1,
                tap.position.2,
            ),
    )
}

/// The first of some sources in a stable order, as many as are kept.
pub open spec fn first_ranked(sources: Seq<PoweredRouteSource>, keys: Seq<RankKey>) -> Seq<PoweredRouteSource> {
    let order = the_stable_order(keys);
    let count = if sources.len() > FANOUT_ROUTE_TERMINAL_LIMIT {
        FANOUT_ROUTE_TERMINAL_LIMIT as nat
    } else {
        sources.len()
    };
    Seq::new(count, |i: int| sources[order[i] as int])
}

fn keep_first(sources: &Vec<PoweredRouteSource>, keys: &Vec<RankKey>) -> (kept: Vec<PoweredRouteSource>)
    requires
        keys.len() == sources.len(),
    ensures
        kept@ == first_ranked(sources@, keys@),
{
    let order = stable_order(keys);
    proof {
        stable_order_is_unique(keys@, order@);
    }
    let count: usize = if sources.len() > FANOUT_ROUTE_TERMINAL_LIMIT {
        FANOUT_ROUTE_TERMINAL_LIMIT
    } else {
        sources.len()
    };
    let mut kept: Vec<PoweredRouteSource> = Vec::new();
    let mut index: usize = 0;
    while index < count
        invariant
            index <= count,
            count <= order.len(),
            order.len() == sources.len(),
            order@ == the_stable_order(keys@),
            forall|i: int| 0 <= i < order.len() ==> #[trigger] order@[i] < sources.len(),
            kept.len() == index,
            forall|i: int| 0 <= i < index ==> #[trigger] kept@[i] == sources@[order@[i] as int],
        decreases count - index,
    {
        let at: usize = order[index];
        assert(order@[index as int] < sources.len());
        kept.push(sources[at]);
        index += 1;
    }
    assert(kept@ =~= first_ranked(sources@, keys@));
    kept
}

/// The cells of a route from which a branch can start.
pub fn route_branch_sources(world: &World3D, route: &RoutedNet, sink: Position) -> (sources: Vec<PoweredRouteSource>)
    requires
        world.wf(),
    ensures
        ({
            let taps = branch_taps(*world, *route, route.powered_taps@.len());
            sources@ == first_ranked(taps, branch_keys(taps, sink))
        }),
{
    let mut taps: Vec<PoweredRouteSource> = Vec::new();
    let mut keys: Vec<RankKey> = Vec::new();
    assert(taps@ =~= branch_taps(*world, *route, 0));
    let mut index: usize = 0;
    while index < route.powered_taps.len()
        invariant
            index <= route.powered_taps.len(),
            world.wf(),
            taps@ == branch_taps(*world, *route, index as nat),
            keys.len() == taps.len(),
            forall|i: int| 0 <= i < keys.len() ==> #[trigger] keys@[i] == branch_keys(taps@, sink)[i],
        decreases route.powered_taps.len() - index,
    {
        let (position, strength) = route.powered_taps[index];
        if strength > 1 && world.size.bound_on(position) && is_route_terminal(world, position) {
            let ghost before = taps@;
            let ghost known = keys@;
            taps.push(PoweredRouteSource { position, strength });
            keys.push(
                RankKey(
                    position.capped_distance(&sink),
                    usize::MAX - strength,
                    usize::MAX - position.0,
                    position.1,
                    position.2,
                ),
            );
            proof {
                assert forall|i: int| 0 <= i < keys.len() implies #[trigger] keys@[i] == branch_keys(taps@, sink)[i] by {
                    if i < known.len() {
                        assert(keys@[i] == known[i]);
                        assert(taps@[i] == before[i]);
                    }
                }
            }
        }
        index += 1;
    }
    assert(keys@ =~= branch_keys(taps@, sink));
    keep_first(&taps, &keys)
}

/// The distance of a cell from the nearest of some sinks, or zero where there is
/// none.
pub open spec fn nearest_sink(sinks: Seq<ResolvedPortTarget>, cell: Position, count: nat) -> nat
    decreases count,
{
    if count == 0 {
        0
    } else {
        let here = capped(distance(cell, sinks[count - 1].position));
        if count == 1 {
            here
        } else {
            let rest = nearest_sink(sinks, cell, (count - 1) as nat);
            if here < rest {
                here
            } else {
                rest
            }
        }
    }
}

fn nearest_of(sinks: &Vec<ResolvedPortTarget>, cell: Position) -> (steps: usize)
    ensures
        steps == nearest_sink(sinks@, cell, sinks@.len()),
{
    let mut steps: usize = 0;
    let mut index: usize = 0;
    while index < sinks.len()
        invariant
            index <= sinks.len(),
            steps == nearest_sink(sinks@, cell, index as nat),
        decreases sinks.len() - index,
    {
        let here: usize = cell.capped_distance(&sinks[index].position);
        if index == 0 || here < steps {
            steps = here;
        }
        index += 1;
    }
    steps
}

/// By what sources are ordered before some are dropped: the nearest to a sink
/// first, and of those the strongest.
pub open spec fn prune_keys(sources: Seq<PoweredRouteSource>, sinks: Seq<ResolvedPortTarget>) -> Seq<RankKey> {
    sources.map_values(
        |source: PoweredRouteSource|
            RankKey(
                nearest_sink(sinks, source.position, sinks.len()) as usize,
                (usize::MAX - source.strength) as usize,
                source.position.0,
                source.position.1,
                source.position.2,
            ),
    )
}

/// Drops sources where there are too many.
pub fn prune_powered_route_sources(sources: Vec<PoweredRouteSource>, sinks: &Vec<ResolvedPortTarget>) -> (kept: Vec<
    PoweredRouteSource,
>)
    ensures
        kept@ == (if sources@.len() <= FANOUT_ROUTE_TERMINAL_LIMIT {
            sources@
        } else {
            first_ranked(sources@, prune_keys(sources@, sinks@))
        }),
{
    if sources.len() <= FANOUT_ROUTE_TERMINAL_LIMIT {
        return sources;
    }
    let mut keys: Vec<RankKey> = Vec::new();
    let mut index: usize = 0;
    while index < sources.len()
        invariant
            index <= sources.len(),
            keys.len() == index,
            forall|i: int| 0 <= i < index ==> #[trigger] keys@[i] == prune_keys(sources@, sinks@)[i],
        decreases sources.len() - index,
    {
        let source = sources[index];
        keys.push(
            RankKey(
                nearest_of(sinks, source.position),
                usize::MAX - source.strength,
                source.position.0,
                source.position.1,
                source.position.2,
            ),
        );
        index += 1;
    }
    assert(keys@ =~= prune_keys(sources@, sinks@));
    keep_first(&sources, &keys)
}

} // verus!
