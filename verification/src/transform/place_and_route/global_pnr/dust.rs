//! Which dust of a layout a block powers, and where a signal is best taken
//! from it.

use crate::order::{distinct_below, SortKey};
use crate::world::grid::World3D;
use crate::world::position::Position;
use vstd::prelude::*;

verus! {

/// Whether a rule says that the block of one cell powers that of another.
pub open spec fn says<F: Fn(&World3D, Position, Position) -> bool>(
    rule: &F,
    world: World3D,
    from: Position,
    to: Position,
) -> bool {
    call_ensures(*rule, (&world, from, to), true)
}

/// Whether a rule answers every question, and always in the same way.
pub open spec fn is_rule<F: Fn(&World3D, Position, Position) -> bool>(rule: &F) -> bool {
    &&& forall|world: World3D, from: Position, to: Position| #[trigger] call_requires(*rule, (&world, from, to))
    &&& forall|world: World3D, from: Position, to: Position| #[trigger]
        call_ensures(*rule, (&world, from, to), false) ==> !says(rule, world, from, to)
}

/// Whether distances within a world are in range.
pub open spec fn distances_fit(world: World3D) -> bool {
    world.size.0 + world.size.1 + world.size.2 <= usize::MAX
}

/// Whether a listed block is dust that a cell powers.
pub open spec fn is_powered_dust<F: Fn(&World3D, Position, Position) -> bool>(
    rule: &F,
    world: World3D,
    source: Position,
    index: int,
) -> bool {
    &&& 0 <= index < world.listed().len()
    &&& world.listed()[index].1.kind is Redstone
    &&& says(rule, world, source, world.listed()[index].0)
}

/// Whether a cell holds dust that another powers.
pub open spec fn powers_dust<F: Fn(&World3D, Position, Position) -> bool>(
    rule: &F,
    world: World3D,
    source: Position,
    cell: Position,
) -> bool {
    exists|index: int| #[trigger] is_powered_dust(rule, world, source, index) && world.listed()[index].0 == cell
}

/// The indices of the dust that a cell powers.
pub fn powered_dust<F: Fn(&World3D, Position, Position) -> bool>(rule: &F, world: &World3D, source: Position) -> (found:
    Vec<usize>)
    requires
        is_rule(rule),
    ensures
        forall|k: int| 0 <= k < found.len() ==> is_powered_dust(rule, *world, source, #[trigger] found[k] as int),
        forall|i: int| #[trigger] is_powered_dust(rule, *world, source, i) ==> found@.contains(i as usize),
        forall|a: int, b: int| 0 <= a < b < found.len() ==> found[a] < found[b],
{
    let mut found: Vec<usize> = Vec::new();
    let mut index: usize = 0;
    while index < world.blocks.len()
        invariant
            index <= world.blocks.len(),
            is_rule(rule),
            forall|k: int| 0 <= k < found.len() ==> is_powered_dust(rule, *world, source, #[trigger] found[k] as int),
            forall|k: int| 0 <= k < found.len() ==> #[trigger] found[k] < index,
            forall|i: int|
                0 <= i < index && #[trigger] is_powered_dust(rule, *world, source, i) ==> found@.contains(i as usize),
            forall|a: int, b: int| 0 <= a < b < found.len() ==> found[a] < found[b],
        decreases world.blocks.len() - index,
    {
        let ghost before = found@;
        let placed = world.blocks[index];
        if placed.1.kind.is_redstone() {
            let powered = rule(world, source, placed.0);
            if powered {
                found.push(index);
                proof {
                    assert(found@[before.len() as int] == index);
                    assert forall|i: int|
                        0 <= i < index + 1 && #[trigger] is_powered_dust(rule, *world, source, i) implies found@.contains(
                        i as usize,
                    ) by {
                        if i < index {
                            let k = choose|k: int| 0 <= k < before.len() && before[k] == i as usize;
                            assert(found@[k] == i as usize);
                        }
                    }
                }
            }
        }
        index += 1;
    }
    found
}

/// Whether a cell powers any dust.
pub fn powers_any_dust<F: Fn(&World3D, Position, Position) -> bool>(rule: &F, world: &World3D, source: Position) -> (any:
    bool)
    requires
        is_rule(rule),
    ensures
        any == exists|i: int| is_powered_dust(rule, *world, source, i),
{
    let found = powered_dust(rule, world, source);
    proof {
        if found.len() > 0 {
            assert(is_powered_dust(rule, *world, source, found@[0] as int));
        }
    }
    found.len() > 0
}

// ---------------------------------------------------------------------------
// Consumers
// ---------------------------------------------------------------------------
/// Whether a listed block is one, other than dust, that a cell powers.
pub open spec fn is_consumer<F: Fn(&World3D, Position, Position) -> bool>(
    rule: &F,
    world: World3D,
    source: Position,
    index: int,
) -> bool {
    &&& world.listed()[index].0 != source
    &&& !(world.listed()[index].1.kind is Redstone)
    &&& says(rule, world, source, world.listed()[index].0)
}

/// How many of the first `count` listed blocks, other than dust, a cell powers.
pub open spec fn consumers<F: Fn(&World3D, Position, Position) -> bool>(
    rule: &F,
    world: World3D,
    source: Position,
    count: nat,
) -> nat
    decreases count,
{
    if count == 0 {
        0
    } else {
        consumers(rule, world, source, (count - 1) as nat) + if is_consumer(rule, world, source, count - 1) {
            1nat
        } else {
            0
        }
    }
}

/// How many blocks other than dust a cell powers.
pub fn downstream_consumer_count<F: Fn(&World3D, Position, Position) -> bool>(
    rule: &F,
    world: &World3D,
    source: Position,
) -> (count: usize)
    requires
        is_rule(rule),
    ensures
        count == consumers(rule, *world, source, world.listed().len()),
{
    let mut count: usize = 0;
    let mut index: usize = 0;
    while index < world.blocks.len()
        invariant
            index <= world.blocks.len(),
            is_rule(rule),
            count <= index,
            count == consumers(rule, *world, source, index as nat),
        decreases world.blocks.len() - index,
    {
        let placed = world.blocks[index];
        if placed.0 != source && !placed.1.kind.is_redstone() {
            let powered = rule(world, source, placed.0);
            if powered {
                count += 1;
            }
        }
        index += 1;
    }
    count
}

// ---------------------------------------------------------------------------
// Networks
// ---------------------------------------------------------------------------
/// Whether two dust blocks are joined: one powers the other.
pub open spec fn is_joined<F: Fn(&World3D, Position, Position) -> bool>(
    rule: &F,
    world: World3D,
    left: int,
    right: int,
) -> bool {
    let blocks = world.listed();
    &&& 0 <= left < blocks.len()
    &&& 0 <= right < blocks.len()
    &&& blocks[right].1.kind is Redstone
    &&& says(rule, world, blocks[left].0, blocks[right].0) || says(rule, world, blocks[right].0, blocks[left].0)
}

pub open spec fn joins_along<F: Fn(&World3D, Position, Position) -> bool>(
    rule: &F,
    world: World3D,
    path: Seq<int>,
    k: int,
) -> bool {
    is_joined(rule, world, path[k - 1], path[k])
}

/// Whether blocks form a chain of joined dust.
pub open spec fn is_chain<F: Fn(&World3D, Position, Position) -> bool>(rule: &F, world: World3D, path: Seq<int>) -> bool {
    &&& path.len() > 0
    &&& forall|k: int| 0 < k < path.len() ==> joins_along(rule, world, path, k)
}

/// Whether dust is in the network of some blocks.
pub open spec fn is_linked<F: Fn(&World3D, Position, Position) -> bool>(
    rule: &F,
    world: World3D,
    seeds: Seq<usize>,
    index: int,
) -> bool {
    exists|path: Seq<int>| #[trigger]
        is_chain(rule, world, path) && 0 <= path[0] < world.listed().len() && seeds.contains(path[0] as usize)
            && path.last() == index
}

/// Whether dust is in the network of the dust that a cell powers.
pub open spec fn is_in_network<F: Fn(&World3D, Position, Position) -> bool>(
    rule: &F,
    world: World3D,
    source: Position,
    index: int,
) -> bool {
    exists|path: Seq<int>| #[trigger]
        is_chain(rule, world, path) && is_powered_dust(rule, world, source, path[0]) && path.last() == index
}

proof fn network_grows<F: Fn(&World3D, Position, Position) -> bool>(
    rule: &F,
    world: World3D,
    seeds: Seq<usize>,
    from: int,
    to: int,
)
    requires
        is_linked(rule, world, seeds, from),
        is_joined(rule, world, from, to),
    ensures
        is_linked(rule, world, seeds, to),
{
    let path = choose|path: Seq<int>| #[trigger]
        is_chain(rule, world, path) && 0 <= path[0] < world.listed().len() && seeds.contains(path[0] as usize)
            && path.last() == from;
    let longer = path.push(to);
    assert forall|k: int| 0 < k < longer.len() implies joins_along(rule, world, longer, k) by {
        if k < path.len() {
            assert(joins_along(rule, world, path, k));
            assert(longer[k] == path[k]);
        }
        assert(longer[k - 1] == path[k - 1]);
    }
    assert(is_chain(rule, world, longer));
    assert(longer[0] == path[0]);
}

proof fn closed_holds_chain<F: Fn(&World3D, Position, Position) -> bool>(
    rule: &F,
    world: World3D,
    members: Seq<usize>,
    path: Seq<int>,
    count: int,
)
    requires
        is_chain(rule, world, path),
        0 < count <= path.len(),
        members.contains(path[0] as usize),
        0 <= path[0] <= usize::MAX,
        world.listed().len() <= usize::MAX,
        forall|from: int, to: int|
            #![trigger is_joined(rule, world, from, to)]
            0 <= from <= usize::MAX && members.contains(from as usize) && is_joined(rule, world, from, to)
                ==> members.contains(to as usize),
    ensures
        0 <= path[count - 1] <= usize::MAX,
        members.contains(path[count - 1] as usize),
    decreases count,
{
    if count > 1 {
        closed_holds_chain(rule, world, members, path, count - 1);
        assert(joins_along(rule, world, path, count - 1));
        assert(is_joined(rule, world, path[count - 2], path[count - 1]));
    }
}

/// The indices of the blocks in the network of some blocks.
pub fn joined_network<F: Fn(&World3D, Position, Position) -> bool>(rule: &F, world: &World3D, seeds: Vec<usize>) -> (members:
    Vec<usize>)
    requires
        is_rule(rule),
        seeds@.no_duplicates(),
        forall|k: int| 0 <= k < seeds.len() ==> #[trigger] seeds@[k] < world.listed().len(),
    ensures
        forall|k: int|
            0 <= k < members.len() ==> (#[trigger] members[k]) < world.listed().len() && is_linked(
                rule,
                *world,
                seeds@,
                members[k] as int,
            ) && (seeds@.contains(members[k]) || world.listed()[members[k] as int].1.kind is Redstone),
        members@.no_duplicates(),
        forall|i: int| #[trigger] is_linked(rule, *world, seeds@, i) ==> members@.contains(i as usize),
{
    let count: usize = world.blocks.len();
    let ghost start_seeds = seeds@;
    let mut members = seeds;
    proof {
        assert forall|k: int| 0 <= k < members.len() implies (#[trigger] members@[k]) < world.listed().len()
            && is_linked(rule, *world, start_seeds, members@[k] as int) && start_seeds.contains(members@[k]) by {
            let path = seq![members@[k] as int];
            assert(start_seeds.contains(start_seeds[k]));
            assert(is_chain(rule, *world, path));
            assert(path.last() == members@[k] as int);
        }
    }
    let mut head: usize = 0;
    while head < members.len()
        invariant
            count == world.listed().len(),
            is_rule(rule),
            head <= members.len(),
            members@.no_duplicates(),
            forall|k: int|
                0 <= k < members.len() ==> (#[trigger] members@[k]) < count && is_linked(rule, *world, start_seeds, members@[k] as int) && (start_seeds.contains(members@[k]) || world.listed()[members@[k] as int].1.kind is Redstone),
            forall|i: usize| #[trigger] start_seeds.contains(i) ==> members@.contains(i),
            forall|k: int, to: int|
                #![trigger is_joined(rule, *world, members@[k] as int, to)]
                0 <= k < head && is_joined(rule, *world, members@[k] as int, to) ==> members@.contains(to as usize),
        decreases count - head,
    {
        proof {
            distinct_below(members@, count as nat);
        }
        let from: usize = members[head];
        let ghost start = members@;
        let mut next: usize = 0;
        while next < count
            invariant
                count == world.listed().len(),
                is_rule(rule),
                next <= count,
                head < start.len() <= members.len(),
                from == start[head as int],
                members@.take(start.len() as int) == start,
                from < count,
                members@.no_duplicates(),
                forall|k: int|
                    0 <= k < members.len() ==> (#[trigger] members@[k]) < count && is_linked(rule, *world, start_seeds, members@[k] as int) && (start_seeds.contains(members@[k]) || world.listed()[members@[k] as int].1.kind is Redstone),
                forall|i: usize| #[trigger] start.contains(i) ==> members@.contains(i),
                forall|to: int|
                    #![trigger is_joined(rule, *world, from as int, to)]
                    0 <= to < next && is_joined(rule, *world, from as int, to) ==> members@.contains(to as usize),
            decreases count - next,
        {
            let ghost before = members@;
            let mut joined = false;
            if world.blocks[next].1.kind.is_redstone() && !holds(&members, next) {
                let forth = rule(world, world.blocks[from].0, world.blocks[next].0);
                joined = forth || rule(world, world.blocks[next].0, world.blocks[from].0);
            }
            if joined {
                proof {
                    assert(members@[head as int] == members@.take(start.len() as int)[head as int]);
                    assert(is_joined(rule, *world, from as int, next as int));
                    network_grows(rule, *world, start_seeds, from as int, next as int);
                }
                members.push(next);
                proof {
                    assert(members@.take(start.len() as int) =~= before.take(start.len() as int));
                    assert(members@[before.len() as int] == next);
                    assert forall|i: usize| #[trigger] before.contains(i) implies members@.contains(i) by {
                        let k = choose|k: int| 0 <= k < before.len() && before[k] == i;
                        assert(members@[k] == i);
                    }
                    assert(members@.no_duplicates()) by {
                        assert forall|a: int, b: int| 0 <= a < members.len() && 0 <= b < members.len() && a != b implies
                            members@[a] != members@[b] by {
                            if a == before.len() {
                                assert(before[b] == members@[b]);
                                assert(before.contains(before[b]));
                            } else if b == before.len() {
                                assert(before[a] == members@[a]);
                                assert(before.contains(before[a]));
                            }
                        }
                    }
                }
            }
            proof {
                assert forall|to: int|
                    #![trigger is_joined(rule, *world, from as int, to)]
                    0 <= to < next + 1 && is_joined(rule, *world, from as int, to) implies members@.contains(
                    to as usize,
                ) by {
                    if to < next {
                        assert(before.contains(to as usize));
                    } else if !joined {
                        assert(before.contains(next));
                    }
                }
            }
            next += 1;
        }
        proof {
            assert forall|k: int, to: int|
                #![trigger is_joined(rule, *world, members@[k] as int, to)]
                0 <= k < head + 1 && is_joined(rule, *world, members@[k] as int, to) implies members@.contains(
                to as usize,
            ) by {
                assert(members@[k] == members@.take(start.len() as int)[k]);
                if k < head {
                    assert(is_joined(rule, *world, start[k] as int, to));
                    assert(start.contains(to as usize));
                }
            }
        }
        head += 1;
    }
    proof {
        assert forall|i: int| #[trigger] is_linked(rule, *world, start_seeds, i) implies members@.contains(i as usize) by {
            let path = choose|path: Seq<int>| #[trigger]
                is_chain(rule, *world, path) && 0 <= path[0] < world.listed().len() && start_seeds.contains(
                    path[0] as usize,
                ) && path.last() == i;
            assert forall|from: int, to: int|
                #![trigger is_joined(rule, *world, from, to)]
                0 <= from <= usize::MAX && members@.contains(from as usize) && is_joined(rule, *world, from, to) implies
                members@.contains(to as usize) by {
                let k = choose|k: int| 0 <= k < members.len() && members@[k] == from as usize;
                assert(is_joined(rule, *world, members@[k] as int, to));
            }
            closed_holds_chain(rule, *world, members@, path, path.len() as int);
        }
    }
    members
}

/// The indices of the dust in the network of the dust that a cell powers.
pub fn redstone_network<F: Fn(&World3D, Position, Position) -> bool>(rule: &F, world: &World3D, source: Position) -> (members:
    Vec<usize>)
    requires
        is_rule(rule),
    ensures
        forall|k: int|
            0 <= k < members.len() ==> (#[trigger] members[k]) < world.listed().len() && is_in_network(
                rule,
                *world,
                source,
                members[k] as int,
            ) && world.listed()[members[k] as int].1.kind is Redstone,
        forall|i: int| #[trigger] is_in_network(rule, *world, source, i) ==> members@.contains(i as usize),
{
    let total: usize = world.blocks.len();
    let seeds = powered_dust(rule, world, source);
    let ghost powered = seeds@;
    proof {
        assert forall|k: int| 0 <= k < seeds.len() implies #[trigger] seeds@[k] < world.listed().len() by {
            assert(is_powered_dust(rule, *world, source, seeds@[k] as int));
        }
    }
    let members = joined_network(rule, world, seeds);
    proof {
        assert forall|k: int| 0 <= k < members.len() implies (#[trigger] members@[k]) < world.listed().len()
            && is_in_network(rule, *world, source, members@[k] as int)
            && world.listed()[members@[k] as int].1.kind is Redstone by {
            assert(is_linked(rule, *world, powered, members@[k] as int));
            let path = choose|path: Seq<int>| #[trigger]
                is_chain(rule, *world, path) && 0 <= path[0] < world.listed().len() && powered.contains(
                    path[0] as usize,
                ) && path.last() == members@[k] as int;
            assert(path[0] < total);
            let at = choose|at: int| 0 <= at < powered.len() && powered[at] == path[0] as usize;
            assert(is_powered_dust(rule, *world, source, powered[at] as int));
            if powered.contains(members@[k]) {
                let own = choose|own: int| 0 <= own < powered.len() && powered[own] == members@[k];
                assert(is_powered_dust(rule, *world, source, powered[own] as int));
            }
        }
        assert forall|i: int| #[trigger] is_in_network(rule, *world, source, i) implies members@.contains(i as usize) by {
            let path = choose|path: Seq<int>| #[trigger]
                is_chain(rule, *world, path) && is_powered_dust(rule, *world, source, path[0]) && path.last() == i;
            assert(powered.contains(path[0] as usize));
            assert(is_linked(rule, *world, powered, i));
        }
    }
    members
}

fn holds(members: &Vec<usize>, index: usize) -> (found: bool)
    ensures
        found == members@.contains(index),
{
    let mut at: usize = 0;
    while at < members.len()
        invariant
            at <= members.len(),
            forall|k: int| 0 <= k < at ==> #[trigger] members@[k] != index,
        decreases members.len() - at,
    {
        if members[at] == index {
            assert(members@[at as int] == index);
            return true;
        }
        at += 1;
    }
    false
}

} // verus!
