//! Which dust of a world belongs together.

use crate::world::grid::{is_listing, listed_block, lists_cell, Placed, World3D};
use crate::world::position::{position_before, Position};
use vstd::prelude::*;

verus! {

/// A cell and the cells that something in it acts on, or that act on it.
#[derive(Clone, Debug)]
pub struct CellLinks {
    pub cell: Position,
    pub targets: Vec<Position>,
}

/// What acts on what in a world, by the rules of redstone.
#[derive(Clone, Debug)]
pub struct ElectricalFacts {
    /// The cells to which the dust of a cell passes its power.
    pub dust_targets: Vec<CellLinks>,
    /// The cells that the terminal of a cell powers.
    pub power_targets: Vec<CellLinks>,
    /// The cells that can power the support block of a cell.
    pub cobble_sources: Vec<CellLinks>,
}

/// The links of a cell, from entry `start` of a list on.
pub open spec fn links_from(list: Seq<CellLinks>, cell: Position, start: nat) -> Seq<Position>
    decreases list.len() - start,
{
    if start >= list.len() {
        Seq::empty()
    } else if list[start as int].cell == cell {
        list[start as int].targets@
    } else {
        links_from(list, cell, start + 1)
    }
}

/// The links of a cell.
pub open spec fn links_of(list: Seq<CellLinks>, cell: Position) -> Seq<Position> {
    links_from(list, cell, 0)
}

/// The links of a cell.
pub fn find_links(list: &Vec<CellLinks>, cell: Position) -> (targets: Vec<Position>)
    ensures
        targets@ == links_of(list@, cell),
{
    let mut index: usize = 0;
    while index < list.len()
        invariant
            index <= list.len(),
            links_of(list@, cell) == links_from(list@, cell, index as nat),
        decreases list.len() - index,
    {
        if list[index].cell == cell {
            let targets = list[index].targets.clone();
            assert(targets@ =~= list[index as int].targets@);
            return targets;
        }
        index += 1;
    }
    let targets: Vec<Position> = Vec::new();
    assert(targets@ =~= Seq::<Position>::empty());
    targets
}

/// The index of the block in a cell.
pub fn block_index(world: &World3D, position: Position) -> (found: Option<usize>)
    ensures
        match found {
            Some(index) => index < world.listed().len() && world.listed()[index as int].0 == position,
            None => !lists_cell(world.listed(), position),
        },
{
    let mut index: usize = 0;
    while index < world.blocks.len()
        invariant
            index <= world.blocks.len(),
            forall|i: int| 0 <= i < index ==> (#[trigger] world.listed()[i]).0 != position,
        decreases world.blocks.len() - index,
    {
        if world.blocks[index].0 == position {
            return Some(index);
        }
        index += 1;
    }
    None
}

/// Whether a listed block is dust.
pub open spec fn is_dust(world: World3D, index: int) -> bool {
    0 <= index < world.listed().len() && world.listed()[index].1.kind is Redstone
}

/// Whether dust passes its power to other dust.
pub open spec fn passes(world: World3D, facts: ElectricalFacts, from: int, to: int) -> bool {
    &&& is_dust(world, from)
    &&& is_dust(world, to)
    &&& links_of(facts.dust_targets@, world.listed()[from].0).contains(world.listed()[to].0)
}

/// The component of each listed block that is in one.
pub type Labels = Seq<Option<usize>>;

/// Whether blocks lie on a path of dust that is in no component yet.
pub open spec fn is_dust_path(world: World3D, facts: ElectricalFacts, labels: Labels, path: Seq<int>) -> bool {
    &&& path.len() > 0
    &&& forall|k: int| 0 <= k < path.len() ==> is_dust(world, #[trigger] path[k]) && labels[path[k]] is None
    &&& forall|k: int| 0 < k < path.len() ==> passes_along(world, facts, path, k)
}

/// Whether power is passed from the block before `k` on a path to block `k`.
pub open spec fn passes_along(world: World3D, facts: ElectricalFacts, path: Seq<int>, k: int) -> bool {
    passes(world, facts, path[k - 1], path[k])
}

/// Whether power reaches a block from another through dust that is in no
/// component yet.
pub open spec fn reaches(world: World3D, facts: ElectricalFacts, labels: Labels, from: int, to: int) -> bool {
    exists|path: Seq<int>| #[trigger] is_dust_path(world, facts, labels, path) && path[0] == from && path.last() == to
}

/// Components after one was grown from a block.
pub open spec fn grown(world: World3D, facts: ElectricalFacts, labels: Labels, seed: int, id: usize) -> Labels {
    Seq::new(
        labels.len(),
        |i: int|
            if labels[i] is None && reaches(world, facts, labels, seed, i) {
                Some(id)
            } else {
                labels[i]
            },
    )
}

/// The components of the first `count` blocks, and how many there are.
pub open spec fn components(world: World3D, facts: ElectricalFacts, count: nat) -> (Labels, nat)
    decreases count,
{
    if count == 0 {
        (Seq::new(world.listed().len(), |i: int| None), 0)
    } else {
        let (labels, next) = components(world, facts, (count - 1) as nat);
        if is_dust(world, count - 1) && labels[count - 1] is None {
            (grown(world, facts, labels, count - 1, next as usize), next + 1)
        } else {
            (labels, next)
        }
    }
}

/// The components of a world's dust.
pub open spec fn all_components(world: World3D, facts: ElectricalFacts) -> (Labels, nat) {
    components(world, facts, world.listed().len())
}

/// How many of the first `count` blocks are in no component.
spec fn unlabelled(labels: Labels, count: nat) -> nat
    decreases count,
{
    if count == 0 {
        0
    } else {
        unlabelled(labels, (count - 1) as nat) + if labels[count - 1] is None {
            1nat
        } else {
            0
        }
    }
}

proof fn labelling_counts(before: Labels, at: int, id: usize, count: nat)
    requires
        0 <= at < before.len(),
        count <= before.len(),
        before[at] is None,
    ensures
        unlabelled(before.update(at, Some(id)), count) == unlabelled(before, count) - (if at < count {
            1int
        } else {
            0
        }),
    decreases count,
{
    if count > 0 {
        labelling_counts(before, at, id, (count - 1) as nat);
    }
}

/// A path can be lengthened by one block.
proof fn reaches_further(world: World3D, facts: ElectricalFacts, labels: Labels, seed: int, from: int, to: int)
    requires
        reaches(world, facts, labels, seed, from),
        passes(world, facts, from, to),
        labels[to] is None,
    ensures
        reaches(world, facts, labels, seed, to),
{
    let path = choose|path: Seq<int>| #[trigger]
        is_dust_path(world, facts, labels, path) && path[0] == seed && path.last() == from;
    let longer = path.push(to);
    assert forall|k: int| 0 <= k < longer.len() implies is_dust(world, #[trigger] longer[k]) && labels[longer[k]] is None by {
        if k < path.len() {
            assert(longer[k] == path[k]);
        }
    }
    assert forall|k: int| 0 < k < longer.len() implies passes_along(world, facts, longer, k) by {
        if k < path.len() {
            assert(passes_along(world, facts, path, k));
            assert(longer[k] == path[k]);
        }
        assert(longer[k - 1] == path[k - 1]);
    }
    assert(is_dust_path(world, facts, labels, longer));
}

/// Whether all dust that a block passes power to is in a component.
spec fn is_closed_at(world: World3D, facts: ElectricalFacts, labels: Labels, at: int) -> bool {
    forall|to: int| #[trigger] passes(world, facts, at, to) ==> labels[to] is Some
}

/// Where the new component is closed, it holds everything that is reached.
proof fn closure_holds(
    world: World3D,
    facts: ElectricalFacts,
    before: Labels,
    labels: Labels,
    id: usize,
    path: Seq<int>,
    count: int,
)
    requires
        is_dust_path(world, facts, before, path),
        labels.len() == before.len() == world.listed().len(),
        0 < count <= path.len(),
        labels[path[0]] == Some(id),
        forall|i: int|
            0 <= i < labels.len() ==> #[trigger] labels[i] == before[i] || before[i] is None && labels[i] == Some(id),
        forall|i: int|
            0 <= i < labels.len() && before[i] is None && labels[i] is Some ==> #[trigger] is_closed_at(
                world,
                facts,
                labels,
                i,
            ),
    ensures
        labels[path[count - 1]] == Some(id),
    decreases count,
{
    if count > 1 {
        closure_holds(world, facts, before, labels, id, path, count - 1);
        let from = path[count - 2];
        let to = path[count - 1];
        assert(is_dust(world, from));
        assert(is_dust(world, to));
        assert(passes_along(world, facts, path, count - 1));
        assert(is_closed_at(world, facts, labels, from));
        assert(passes(world, facts, from, to));
        assert(labels[to] == before[to] || before[to] is None && labels[to] == Some(id));
    }
}

/// Puts the dust that is reached from a block into a component.
fn flood(world: &World3D, facts: &ElectricalFacts, labels: &mut Vec<Option<usize>>, seed: usize, id: usize)
    requires
        world.wf(),
        old(labels)@.len() == world.listed().len(),
        is_dust(*world, seed as int),
        old(labels)@[seed as int] is None,
    ensures
        final(labels)@ == grown(*world, *facts, old(labels)@, seed as int, id),
{
    let ghost before = labels@;
    let ghost w = *world;
    let ghost f = *facts;
    labels[seed] = Some(id);
    let mut stack: Vec<usize> = vec![seed];
    proof {
        let path = seq![seed as int];
        assert(is_dust_path(w, f, before, path));
        assert(path.last() == seed as int);
        assert(reaches(w, f, before, seed as int, seed as int));
        assert(stack@ =~= seq![seed]);
        assert(stack@.contains(stack@[0]));
    }
    while stack.len() > 0
        invariant
            w == *world,
            f == *facts,
            w.wf(),
            before == old(labels)@,
            before.len() == w.listed().len(),
            labels.len() == before.len(),
            seed < before.len(),
            labels@[seed as int] == Some(id),
            forall|i: int|
                0 <= i < labels@.len() ==> #[trigger] labels@[i] == before[i] || before[i] is None && labels@[i] == Some(
                    id,
                ) && reaches(w, f, before, seed as int, i),
            forall|k: int|
                0 <= k < stack.len() ==> (#[trigger] stack@[k]) < before.len() && before[stack@[k] as int] is None
                    && labels@[stack@[k] as int] is Some,
            forall|i: int|
                0 <= i < labels@.len() && before[i] is None && labels@[i] is Some && !stack@.contains(i as usize)
                    ==> #[trigger] is_closed_at(w, f, labels@, i),
        decreases unlabelled(labels@, labels@.len()), stack.len(),
    {
        let ghost tall = stack@;
        let ghost start = labels@;
        let at: usize = match stack.pop() {
            Some(at) => at,
            None => 0,
        };
        proof {
            assert(tall.last() == at);
            assert(tall[tall.len() - 1] == at);
            assert(labels@[at as int] == before[at as int] || before[at as int] is None && labels@[at as int] == Some(
                id,
            ) && reaches(w, f, before, seed as int, at as int));
        }
        let targets = find_links(&facts.dust_targets, world.blocks[at].0);
        let height: usize = stack.len();
        proof {
            assert forall|i: int|
                0 <= i < labels@.len() && before[i] is None && labels@[i] is Some && !stack@.contains(i as usize) && i
                    != at implies #[trigger] is_closed_at(w, f, labels@, i) by {
                if tall.contains(i as usize) {
                    let k = choose|k: int| 0 <= k < tall.len() && tall[k] == i as usize;
                    assert(stack@[k] == i as usize);
                }
            }
        }
        assert(targets@.skip(0) =~= targets@);
        let mut next: usize = 0;
        while next < targets.len()
            invariant
                w == *world,
                f == *facts,
                w.wf(),
                before.len() == w.listed().len(),
                labels.len() == before.len(),
                seed < before.len(),
                at < before.len(),
                is_dust(w, at as int),
                reaches(w, f, before, seed as int, at as int),
                labels@[seed as int] == Some(id),
                labels@[at as int] is Some,
                before[at as int] is None,
                targets@ == links_of(f.dust_targets@, w.listed()[at as int].0),
                next <= targets.len(),
                start.len() == labels@.len(),
                unlabelled(labels@, labels@.len()) < unlabelled(start, start.len()) || unlabelled(
                    labels@,
                    labels@.len(),
                ) == unlabelled(start, start.len()) && stack.len() == height,
                forall|i: int|
                    0 <= i < labels@.len() ==> #[trigger] labels@[i] == before[i] || before[i] is None && labels@[i]
                        == Some(id) && reaches(w, f, before, seed as int, i),
                forall|k: int|
                    0 <= k < stack.len() ==> (#[trigger] stack@[k]) < before.len() && before[stack@[k] as int] is None
                        && labels@[stack@[k] as int] is Some,
                forall|i: int|
                    0 <= i < labels@.len() && before[i] is None && labels@[i] is Some && !stack@.contains(i as usize)
                        && i != at ==> #[trigger] is_closed_at(w, f, labels@, i),
                forall|to: int| #[trigger]
                    passes(w, f, at as int, to) ==> labels@[to] is Some || targets@.skip(next as int).contains(
                        w.listed()[to].0,
                    ),
            decreases targets.len() - next,
        {
            let target = targets[next];
            let ghost rest = targets@.skip(next as int);
            let ghost now = labels@;
            let ghost low = stack@;
            let found = block_index(world, target);
            let mut fresh: Option<usize> = None;
            if let Some(slot) = found {
                if world.blocks[slot].1.kind.is_redstone() && labels[slot].is_none() {
                    fresh = Some(slot);
                }
            }
            if let Some(slot) = fresh {
                proof {
                    assert(rest[0] == target);
                    assert(targets@[next as int] == target);
                    assert(targets@.contains(target));
                    assert(passes(w, f, at as int, slot as int));
                    assert(now[slot as int] == before[slot as int]);
                    reaches_further(w, f, before, seed as int, at as int, slot as int);
                    labelling_counts(now, slot as int, id, now.len());
                }
                labels[slot] = Some(id);
                stack.push(slot);
                proof {
                    assert(labels@ =~= now.update(slot as int, Some(id)));
                    assert forall|i: int|
                        0 <= i < labels@.len() && before[i] is None && labels@[i] is Some && !stack@.contains(
                            i as usize,
                        ) && i != at implies #[trigger] is_closed_at(w, f, labels@, i) by {
                        if i == slot {
                            assert(stack@[low.len() as int] == slot);
                        } else {
                            if low.contains(i as usize) {
                                let k = choose|k: int| 0 <= k < low.len() && low[k] == i as usize;
                                assert(stack@[k] == i as usize);
                            }
                            assert(is_closed_at(w, f, now, i));
                        }
                    }
                    assert forall|k: int| 0 <= k < stack.len() implies (#[trigger] stack@[k]) < before.len()
                        && before[stack@[k] as int] is None && labels@[stack@[k] as int] is Some by {
                        if k < low.len() {
                            assert(stack@[k] == low[k]);
                        }
                    }
                }
            }
            proof {
                let after = targets@.skip(next + 1);
                assert forall|to: int| #[trigger] passes(w, f, at as int, to) implies labels@[to] is Some
                    || after.contains(w.listed()[to].0) by {
                    assert(now[to] is Some || rest.contains(w.listed()[to].0));
                    if now[to] is None && labels@[to] is None {
                        let k = choose|k: int| 0 <= k < rest.len() && rest[k] == w.listed()[to].0;
                        if k == 0 {
                            // The block was found, and it is dust in no component.
                            assert(lists_cell(w.listed(), target));
                            let slot = found->0 as int;
                            listed_block(w.listed(), to);
                            listed_block(w.listed(), slot);
                            same_slot(w.listed(), slot, to);
                            assert(false);
                        } else {
                            assert(after[k - 1] == w.listed()[to].0);
                        }
                    }
                }
            }
            next += 1;
        }
        proof {
            assert(targets@.skip(next as int) =~= Seq::<Position>::empty());
            assert(is_closed_at(w, f, labels@, at as int)) by {
                assert forall|to: int| #[trigger] passes(w, f, at as int, to) implies labels@[to] is Some by {}
            }
            assert forall|i: int|
                0 <= i < labels@.len() && before[i] is None && labels@[i] is Some && !stack@.contains(i as usize)
                implies #[trigger] is_closed_at(w, f, labels@, i) by {}
        }
    }
    proof {
        let target = grown(w, f, before, seed as int, id);
        assert forall|i: int| 0 <= i < labels@.len() implies #[trigger] labels@[i] == target[i] by {
            if before[i] is None && reaches(w, f, before, seed as int, i) {
                let path = choose|path: Seq<int>| #[trigger]
                    is_dust_path(w, f, before, path) && path[0] == seed as int && path.last() == i;
                closure_holds(w, f, before, labels@, id, path, path.len() as int);
            }
        }
        assert(labels@ =~= target);
    }
}

/// A cell is listed once.
proof fn same_slot(blocks: Seq<Placed>, left: int, right: int)
    requires
        is_listing(blocks),
        0 <= left < blocks.len(),
        0 <= right < blocks.len(),
        blocks[left].0 == blocks[right].0,
    ensures
        left == right,
{
    if left < right {
        assert(position_before(blocks[left].0, blocks[right].0));
    } else if right < left {
        assert(position_before(blocks[right].0, blocks[left].0));
    }
}

/// The components of a world's dust: of each listed block the component that it
/// is in, and how many components there are.
pub fn electrical_components(world: &World3D, facts: &ElectricalFacts) -> (result: (Vec<Option<usize>>, usize))
    requires
        world.wf(),
    ensures
        (result.0@, result.1 as nat) == all_components(*world, *facts),
        result.0.len() == world.listed().len(),
{
    let mut labels: Vec<Option<usize>> = Vec::new();
    let count: usize = world.blocks.len();
    let mut index: usize = 0;
    while index < count
        invariant
            index <= count,
            count == world.listed().len(),
            labels.len() == index,
            forall|i: int| 0 <= i < index ==> #[trigger] labels@[i] is None,
        decreases count - index,
    {
        labels.push(None);
        index += 1;
    }
    assert(labels@ =~= components(*world, *facts, 0).0);
    let mut next: usize = 0;
    let mut index: usize = 0;
    while index < count
        invariant
            index <= count,
            world.wf(),
            count == world.listed().len(),
            labels.len() == count,
            next <= index,
            (labels@, next as nat) == components(*world, *facts, index as nat),
        decreases count - index,
    {
        if world.blocks[index].1.kind.is_redstone() && labels[index].is_none() {
            flood(world, facts, &mut labels, index, next);
            next += 1;
        }
        index += 1;
    }
    (labels, next)
}

} // verus!
