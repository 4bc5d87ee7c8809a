//! Topological order of a combinational cone.

use crate::graph::{node_views, reads_backward, GraphNode, NodeView};
use crate::ir::mapping::scalar::is_cone_node;
use crate::order::distinct_below;
use vstd::prelude::*;

verus! {

/// How often `item` occurs in `items`.
pub open spec fn occurrences(items: Seq<usize>, item: usize) -> nat
    decreases items.len(),
{
    if items.len() == 0 {
        0
    } else {
        occurrences(items.drop_last(), item) + (if items.last() == item { 1nat } else { 0 })
    }
}

/// What occurs is contained, and the other way round.
pub proof fn occurrences_contains(items: Seq<usize>, item: usize)
    ensures
        occurrences(items, item) > 0 <==> items.contains(item),
    decreases items.len(),
{
    if items.len() > 0 {
        occurrences_contains(items.drop_last(), item);
        if items.contains(item) {
            let place = choose|i: int| 0 <= i < items.len() && items[i] == item;
            if place < items.len() - 1 {
                assert(items.drop_last()[place] == item);
            }
        } else {
            assert(items.last() != item);
            if items.drop_last().contains(item) {
                let place = choose|i: int| 0 <= i < items.len() - 1 && items.drop_last()[i] == item;
                assert(items[place] == item);
            }
        }
        if items.last() == item {
            assert(items[items.len() - 1] == item);
        }
    }
}

/// A prefix holds an item at most as often as the whole.
proof fn occurrences_prefix(items: Seq<usize>, item: usize, count: int)
    requires
        0 <= count <= items.len(),
    ensures
        occurrences(items.take(count), item) <= occurrences(items, item),
    decreases items.len() - count,
{
    if count < items.len() {
        occurrences_prefix(items, item, count + 1);
        assert(items.take(count + 1).drop_last() =~= items.take(count));
    } else {
        assert(items.take(count) =~= items);
    }
}

/// How many pins read gates that are not done yet.
pub open spec fn pending(nodes: Seq<NodeView>, inputs: Seq<usize>, done: Set<usize>) -> nat
    decreases inputs.len(),
{
    if inputs.len() == 0 {
        0
    } else {
        let last = inputs.last();
        pending(nodes, inputs.drop_last(), done) + (if !(nodes[last as int].kind is Input) && !done.contains(last) {
            1nat
        } else {
            0
        })
    }
}

proof fn pending_insert(nodes: Seq<NodeView>, inputs: Seq<usize>, done: Set<usize>, id: usize)
    requires
        !done.contains(id),
        !(nodes[id as int].kind is Input),
    ensures
        pending(nodes, inputs, done.insert(id)) + occurrences(inputs, id) == pending(nodes, inputs, done),
    decreases inputs.len(),
{
    if inputs.len() > 0 {
        pending_insert(nodes, inputs.drop_last(), done, id);
    }
}

proof fn pending_zero(nodes: Seq<NodeView>, inputs: Seq<usize>, done: Set<usize>)
    ensures
        pending(nodes, inputs, done) == 0 <==> forall|pin: int|
            0 <= pin < inputs.len() ==> nodes[(#[trigger] inputs[pin]) as int].kind is Input || done.contains(
                inputs[pin],
            ),
    decreases inputs.len(),
{
    if inputs.len() > 0 {
        let shorter = inputs.drop_last();
        pending_zero(nodes, shorter, done);
        assert forall|pin: int| 0 <= pin < shorter.len() implies #[trigger] shorter[pin] == inputs[pin] by {}
        if pending(nodes, inputs, done) == 0 {
            assert forall|pin: int| 0 <= pin < inputs.len() implies nodes[(#[trigger] inputs[pin]) as int].kind is Input
                || done.contains(inputs[pin]) by {
                if pin < shorter.len() {
                    assert(shorter[pin] == inputs[pin]);
                }
            }
        } else {
            if pending(nodes, shorter, done) != 0 {
                let pin = choose|pin: int|
                    0 <= pin < shorter.len() && !(nodes[(#[trigger] shorter[pin]) as int].kind is Input
                        || done.contains(shorter[pin]));
                assert(inputs[pin] == shorter[pin]);
            } else {
                assert(inputs[inputs.len() - 1] == inputs.last());
            }
        }
    }
}

/// `order` lists every gate and constant once, `place` gives the place of each
/// in it, and each stands behind everything that it reads.
pub open spec fn is_cone_order(nodes: Seq<NodeView>, order: Seq<usize>, place: Seq<usize>) -> bool {
    &&& place.len() == nodes.len()
    &&& forall|i: int|
        0 <= i < order.len() ==> {
            &&& (#[trigger] order[i]) < nodes.len()
            &&& !(nodes[order[i] as int].kind is Input)
            &&& place[order[i] as int] == i
        }
    &&& forall|id: int|
        0 <= id < nodes.len() ==> if nodes[id].kind is Input {
            (#[trigger] place[id]) == usize::MAX
        } else {
            place[id] < order.len() && order[place[id] as int] == id
        }
    &&& forall|i: int, pin: int|
        0 <= i < order.len() && 0 <= pin < nodes[order[i] as int].inputs.len() ==> {
            let source = (#[trigger] nodes[order[i] as int].inputs[pin]) as int;
            nodes[source].kind is Input || place[source] < i
        }
}

/// When a gate with some inputs becomes ready: behind the last gate that it
/// reads.
pub open spec fn ready_at(nodes: Seq<NodeView>, place: Seq<usize>, inputs: Seq<usize>) -> int
    decreases inputs.len(),
{
    if inputs.len() == 0 {
        0
    } else {
        let before = ready_at(nodes, place, inputs.drop_last());
        let source = inputs.last() as int;
        let own = if nodes[source].kind is Input {
            0
        } else {
            place[source] + 1
        };
        if own > before {
            own
        } else {
            before
        }
    }
}

/// Whether a gate is ready before another, or with it and has the lower number.
pub open spec fn comes_first(nodes: Seq<NodeView>, place: Seq<usize>, left: usize, right: usize) -> bool {
    let left_ready = ready_at(nodes, place, nodes[left as int].inputs);
    let right_ready = ready_at(nodes, place, nodes[right as int].inputs);
    left_ready < right_ready || left_ready == right_ready && left < right
}

/// Whether gates are listed in the order in which they become ready.
pub open spec fn is_queue_order(nodes: Seq<NodeView>, order: Seq<usize>, place: Seq<usize>) -> bool {
    forall|i: int, j: int|
        0 <= i < j < order.len() ==> comes_first(nodes, place, #[trigger] order[i], #[trigger] order[j])
}

/// Whether every gate that is read stands before a time, the last just before it.
spec fn is_ready(nodes: Seq<NodeView>, place: Seq<usize>, inputs: Seq<usize>, time: int) -> bool {
    &&& time >= 0
    &&& forall|pin: int|
        0 <= pin < inputs.len() ==> nodes[(#[trigger] inputs[pin]) as int].kind is Input || place[inputs[pin] as int]
            < time
    &&& time > 0 ==> exists|pin: int|
        0 <= pin < inputs.len() && !(nodes[(#[trigger] inputs[pin]) as int].kind is Input)
            && place[inputs[pin] as int] == time - 1
}

proof fn ready_at_bounds(nodes: Seq<NodeView>, place: Seq<usize>, inputs: Seq<usize>)
    ensures
        ready_at(nodes, place, inputs) >= 0,
        is_ready(nodes, place, inputs, ready_at(nodes, place, inputs)),
    decreases inputs.len(),
{
    if inputs.len() > 0 {
        let shorter = inputs.drop_last();
        ready_at_bounds(nodes, place, shorter);
        let time = ready_at(nodes, place, inputs);
        let earlier = ready_at(nodes, place, shorter);
        assert forall|pin: int| 0 <= pin < inputs.len() implies nodes[(#[trigger] inputs[pin]) as int].kind is Input
            || place[inputs[pin] as int] < time by {
            if pin < shorter.len() {
                assert(shorter[pin] == inputs[pin]);
            }
        }
        if time > 0 {
            if time == earlier {
                let pin = choose|pin: int|
                    0 <= pin < shorter.len() && !(nodes[(#[trigger] shorter[pin]) as int].kind is Input)
                        && place[shorter[pin] as int] == time - 1;
                assert(inputs[pin] == shorter[pin]);
            } else {
                assert(inputs[inputs.len() - 1] == inputs.last());
            }
        }
    }
}

proof fn ready_is_ready_at(nodes: Seq<NodeView>, place: Seq<usize>, inputs: Seq<usize>, time: int)
    requires
        is_ready(nodes, place, inputs, time),
    ensures
        ready_at(nodes, place, inputs) == time,
{
    ready_at_bounds(nodes, place, inputs);
    let own = ready_at(nodes, place, inputs);
    if own > 0 {
        let pin = choose|pin: int|
            0 <= pin < inputs.len() && !(nodes[(#[trigger] inputs[pin]) as int].kind is Input)
                && place[inputs[pin] as int] == own - 1;
        assert(place[inputs[pin] as int] < time);
    }
    if time > 0 {
        let pin = choose|pin: int|
            0 <= pin < inputs.len() && !(nodes[(#[trigger] inputs[pin]) as int].kind is Input)
                && place[inputs[pin] as int] == time - 1;
        assert(place[inputs[pin] as int] < own);
    }
}

/// What is ready stays ready when another gate, which it does not read, gets its
/// place.
proof fn ready_stays(
    nodes: Seq<NodeView>,
    before: Seq<usize>,
    after: Seq<usize>,
    inputs: Seq<usize>,
    time: int,
    placed: usize,
)
    requires
        is_ready(nodes, before, inputs, time),
        placed < before.len(),
        before[placed as int] == usize::MAX,
        after == before.update(placed as int, after[placed as int]),
        time <= usize::MAX,
        !(nodes[placed as int].kind is Input),
        forall|pin: int| 0 <= pin < inputs.len() ==> (#[trigger] inputs[pin]) < before.len(),
    ensures
        is_ready(nodes, after, inputs, time),
{
    assert forall|pin: int| 0 <= pin < inputs.len() implies nodes[(#[trigger] inputs[pin]) as int].kind is Input
        || after[inputs[pin] as int] < time by {
        assert(nodes[inputs[pin] as int].kind is Input || before[inputs[pin] as int] < time);
    }
    if time > 0 {
        let pin = choose|pin: int|
            0 <= pin < inputs.len() && !(nodes[(#[trigger] inputs[pin]) as int].kind is Input)
                && before[inputs[pin] as int] == time - 1;
        assert(after[inputs[pin] as int] == time - 1);
    }
}

/// Whether times are those at which gates become ready, and gates are listed by
/// them.
spec fn are_times(nodes: Seq<NodeView>, place: Seq<usize>, order: Seq<usize>, times: Seq<int>) -> bool {
    &&& times.len() == order.len()
    &&& forall|i: int|
        0 <= i < order.len() ==> is_ready(nodes, place, nodes[(#[trigger] order[i]) as int].inputs, times[i])
    &&& forall|i: int, j: int| 0 <= i < j < order.len() ==> #[trigger] is_listed_before(order, times, i, j)
}

/// Whether a gate is listed for an earlier time than another, or for the same and
/// has the lower number.
spec fn is_listed_before(order: Seq<usize>, times: Seq<int>, i: int, j: int) -> bool {
    times[i] < times[j] || times[i] == times[j] && order[i] < order[j]
}

/// Whether each list is in ascending order.
spec fn are_ascending(lists: Seq<Vec<usize>>) -> bool {
    forall|source: int, i: int, j: int|
        0 <= source < lists.len() && 0 <= i <= j < lists[source]@.len() ==> (#[trigger] lists[source]@[i])
            <= (#[trigger] lists[source]@[j])
}

spec fn are_below(lists: Seq<Vec<usize>>, bound: int) -> bool {
    forall|source: int, i: int|
        0 <= source < lists.len() && 0 <= i < lists[source]@.len() ==> (#[trigger] lists[source]@[i]) < bound
}

/// `consumers` lists for each node the nodes that read it, once for each pin.
pub open spec fn lists_consumers(nodes: Seq<NodeView>, consumers: Seq<Vec<usize>>) -> bool {
    &&& consumers.len() == nodes.len()
    &&& forall|source: usize, id: usize|
        source < nodes.len() && id < nodes.len() ==> #[trigger] occurrences(consumers[source as int]@, id)
            == occurrences(nodes[id as int].inputs, source)
    &&& forall|source: int, i: int|
        0 <= source < nodes.len() && 0 <= i < consumers[source].len() ==> (#[trigger] consumers[source][i])
            < nodes.len()
}

/// Lists for each node the nodes that read it.
fn list_consumers(nodes: &Vec<GraphNode>) -> (consumers: Vec<Vec<usize>>)
    requires
        reads_backward(node_views(nodes@)),
    ensures
        lists_consumers(node_views(nodes@), consumers@),
        are_ascending(consumers@),
{
    let ghost views = node_views(nodes@);
    let mut consumers: Vec<Vec<usize>> = Vec::new();
    for index in 0..nodes.len()
        invariant
            consumers.len() == index,
            forall|i: int| 0 <= i < index ==> (#[trigger] consumers[i])@ == Seq::<usize>::empty(),
    {
        consumers.push(Vec::new());
    }
    for id in 0..nodes.len()
        invariant
            views == node_views(nodes@),
            reads_backward(views),
            consumers.len() == nodes.len(),
            are_ascending(consumers@),
            are_below(consumers@, id as int),
            forall|source: usize, other: usize|
                source < nodes.len() && other < nodes.len() ==> #[trigger] occurrences(
                    consumers[source as int]@,
                    other,
                ) == (if other < id {
                    occurrences(views[other as int].inputs, source)
                } else {
                    0
                }),
            forall|source: int, i: int|
                0 <= source < nodes.len() && 0 <= i < consumers[source].len() ==> (#[trigger] consumers[source][i])
                    < nodes.len(),
    {
        let ghost inputs = views[id as int].inputs;
        assert(inputs == nodes[id as int].inputs@);
        let pins: usize = nodes[id].inputs.len();
        for pin in 0..pins
            invariant
                pins == inputs.len(),
                views == node_views(nodes@),
                reads_backward(views),
                id < nodes.len(),
                inputs == views[id as int].inputs,
                inputs == nodes[id as int].inputs@,
                consumers.len() == nodes.len(),
                are_ascending(consumers@),
                are_below(consumers@, id + 1),
                forall|source: usize, other: usize|
                    source < nodes.len() && other < nodes.len() ==> #[trigger] occurrences(
                        consumers[source as int]@,
                        other,
                    ) == (if other < id {
                        occurrences(views[other as int].inputs, source)
                    } else if other == id {
                        occurrences(inputs.take(pin as int), source)
                    } else {
                        0
                    }),
                forall|source: int, i: int|
                    0 <= source < nodes.len() && 0 <= i < consumers[source].len() ==> (#[trigger] consumers[source][i])
                        < nodes.len(),
        {
            let source: usize = nodes[id].inputs[pin];
            assert(views[id as int].inputs[pin as int] < id);
            let ghost before = consumers@;
            consumers[source].push(id);
            proof {
                let longer = inputs.take(pin + 1);
                assert(longer.drop_last() =~= inputs.take(pin as int));
                assert(longer.last() == source);
                assert(consumers@[source as int]@ == before[source as int]@.push(id));
                assert(consumers@[source as int]@.drop_last() =~= before[source as int]@);
                assert forall|other: int, i: int, j: int|
                    0 <= other < consumers@.len() && 0 <= i <= j < consumers@[other]@.len() implies (
                #[trigger] consumers@[other]@[i]) <= (#[trigger] consumers@[other]@[j]) by {
                    if other != source {
                        assert(consumers@[other] == before[other]);
                    } else if j < before[other]@.len() {
                        assert(before[other]@[i] <= before[other]@[j]);
                    } else if i < before[other]@.len() {
                        assert(before[other]@[i] < id + 1);
                    }
                }
                assert forall|other: int, i: int|
                    0 <= other < consumers@.len() && 0 <= i < consumers@[other]@.len() implies (
                #[trigger] consumers@[other]@[i]) < id + 1 by {
                    if other != source {
                        assert(consumers@[other] == before[other]);
                    } else if i < before[other]@.len() {
                        assert(before[other]@[i] < id + 1);
                    }
                }
                assert forall|other_source: usize, other: usize|
                    other_source < nodes.len() && other < nodes.len() implies #[trigger] occurrences(
                    consumers@[other_source as int]@,
                    other,
                ) == (if other < id {
                    occurrences(views[other as int].inputs, other_source)
                } else if other == id {
                    occurrences(longer, other_source)
                } else {
                    0
                }) by {
                    assert(occurrences(before[other_source as int]@, other) == (if other < id {
                        occurrences(views[other as int].inputs, other_source)
                    } else if other == id {
                        occurrences(inputs.take(pin as int), other_source)
                    } else {
                        0
                    }));
                    if other_source != source {
                        assert(consumers@[other_source as int] == before[other_source as int]);
                    }
                }
                assert forall|other_source: int, i: int|
                    0 <= other_source < nodes.len() && 0 <= i < consumers@[other_source].len() implies (
                #[trigger] consumers@[other_source][i]) < nodes.len() by {
                    if other_source != source {
                        assert(consumers@[other_source] == before[other_source]);
                    } else if i < before[other_source].len() {
                        assert(consumers@[other_source][i] == before[other_source][i]);
                    }
                }
            }
        }
        proof {
            assert(inputs.take(inputs.len() as int) =~= inputs);
        }
    }
    assert(lists_consumers(views, consumers@));
    consumers
}

/// Lists the gates and constants of a cone so that each stands behind what it
/// reads: a queue of ready nodes, lowest number first at the start.
pub fn cone_order(nodes: &Vec<GraphNode>) -> (result: (Vec<usize>, Vec<usize>, Vec<Vec<usize>>))
    requires
        reads_backward(node_views(nodes@)),
        forall|i: int| 0 <= i < nodes.len() ==> is_cone_node(#[trigger] node_views(nodes@)[i]),
    ensures
        is_cone_order(node_views(nodes@), result.0@, result.1@),
        is_queue_order(node_views(nodes@), result.0@, result.1@),
        lists_consumers(node_views(nodes@), result.2@),
{
    let ghost views = node_views(nodes@);
    let consumers = list_consumers(nodes);
    let mut degree: Vec<usize> = Vec::new();
    let mut place: Vec<usize> = Vec::new();
    let mut order: Vec<usize> = Vec::new();
    let ghost nothing = Set::<usize>::empty();
    for id in 0..nodes.len()
        invariant
            views == node_views(nodes@),
            reads_backward(views),
            nothing == Set::<usize>::empty(),
            degree.len() == id,
            place.len() == id,
            order.len() <= id,
            forall|i: int, j: int| 0 <= i < j < order.len() ==> #[trigger] order[i] < #[trigger] order[j],
            forall|i: int|
                0 <= i < id ==> (#[trigger] degree[i]) == (if views[i].kind is Input {
                    0
                } else {
                    pending(views, views[i].inputs, nothing)
                }),
            forall|i: int|
                0 <= i < id ==> if views[i].kind is Input || degree[i] != 0 {
                    (#[trigger] place[i]) == usize::MAX
                } else {
                    place[i] < order.len() && order[place[i] as int] == i
                },
            forall|i: int|
                0 <= i < order.len() ==> (#[trigger] order[i]) < id && !(views[order[i] as int].kind is Input)
                    && place[order[i] as int] == i && degree[order[i] as int] == 0,
    {
        if nodes[id].kind.is_input() {
            degree.push(0);
            place.push(usize::MAX);
        } else {
            let ghost inputs = views[id as int].inputs;
            let mut count: usize = 0;
            let pins: usize = nodes[id].inputs.len();
            for pin in 0..pins
                invariant
                    pins == inputs.len(),
                    views == node_views(nodes@),
                    reads_backward(views),
                    id < nodes.len(),
                    inputs == views[id as int].inputs,
                    inputs == nodes[id as int].inputs@,
                    count <= pin,
                    count == pending(views, inputs.take(pin as int), nothing),
                    nothing == Set::<usize>::empty(),
            {
                let source: usize = nodes[id].inputs[pin];
                assert(views[id as int].inputs[pin as int] < id);
                proof {
                    let longer = inputs.take(pin + 1);
                    assert(longer.drop_last() =~= inputs.take(pin as int));
                    assert(longer.last() == source);
                }
                assert(views[source as int] == nodes[source as int]@);
                if !nodes[source].kind.is_input() {
                    count += 1;
                }
            }
            assert(inputs.take(inputs.len() as int) =~= inputs);
            degree.push(count);
            if count == 0 {
                place.push(order.len());
                order.push(id);
            } else {
                place.push(usize::MAX);
            }
        }
    }
    proof {
        assert forall|i: int, pin: int|
            0 <= i < order@.len() && 0 <= pin < views[order@[i] as int].inputs.len() implies {
            let source = (#[trigger] views[order@[i] as int].inputs[pin]) as int;
            views[source].kind is Input
        } by {
            pending_zero(views, views[order@[i] as int].inputs, nothing);
            assert(degree[order@[i] as int] == 0);
        }
    }
    let mut head: usize = 0;
    let ghost mut done = Set::<usize>::empty();
    let ghost mut times: Seq<int> = Seq::new(order@.len(), |i: int| 0int);
    while head < order.len()
        invariant
            are_ascending(consumers@),
            are_times(views, place@, order@, times),
            forall|i: int| 0 <= i < times.len() ==> #[trigger] times[i] <= head,
            views == node_views(nodes@),
            reads_backward(views),
            forall|i: int| 0 <= i < nodes.len() ==> is_cone_node(#[trigger] views[i]),
            lists_consumers(views, consumers@),
            degree.len() == nodes.len(),
            place.len() == nodes.len(),
            head <= order.len(),
            forall|id: usize| #[trigger]
                done.contains(id) <==> id < nodes.len() && !(views[id as int].kind is Input) && place[id as int] < head,
            forall|i: int|
                0 <= i < nodes.len() && !(views[i].kind is Input) ==> (#[trigger] degree[i]) == pending(
                    views,
                    views[i].inputs,
                    done,
                ),
            forall|i: int|
                0 <= i < nodes.len() ==> if views[i].kind is Input || degree[i] != 0 {
                    (#[trigger] place[i]) == usize::MAX
                } else {
                    place[i] < order.len() && order[place[i] as int] == i
                },
            forall|i: int|
                0 <= i < order.len() ==> (#[trigger] order[i]) < nodes.len() && !(views[order[i] as int].kind is Input)
                    && place[order[i] as int] == i,
            forall|i: int, pin: int|
                0 <= i < order.len() && 0 <= pin < views[order[i] as int].inputs.len() ==> {
                    let source = (#[trigger] views[order[i] as int].inputs[pin]) as int;
                    views[source].kind is Input || place[source] < i && place[source] < head
                },
        decreases nodes.len() - head,
    {
        proof {
            assert forall|i: int, j: int| 0 <= i < j < order@.len() implies order@[i] != order@[j] by {
                assert(place[order@[i] as int] == i);
                assert(place[order@[j] as int] == j);
            }
            distinct_below(order@, nodes@.len());
        }
        let id: usize = order[head];
        let ghost listed = consumers@[id as int]@;
        let ghost next_done = done.insert(id);
        assert(!done.contains(id));
        assert forall|i: int, j: int| 0 <= i <= j < listed.len() implies #[trigger] listed[i] <= #[trigger] listed[j] by {
            assert(consumers@[id as int]@[i] <= consumers@[id as int]@[j]);
        }
        let readers: usize = consumers[id].len();
        for index in 0..readers
            invariant
                forall|i: int, j: int| 0 <= i <= j < listed.len() ==> #[trigger] listed[i] <= #[trigger] listed[j],
                are_times(views, place@, order@, times),
                forall|i: int| 0 <= i < times.len() ==> #[trigger] times[i] <= head + 1,
                forall|i: int, t: int|
                    0 <= i < times.len() && #[trigger] times[i] == head + 1 && index <= t < listed.len() ==> order[i]
                        <= #[trigger] listed[t],
                readers == listed.len(),
                views == node_views(nodes@),
                reads_backward(views),
                forall|i: int| 0 <= i < nodes.len() ==> is_cone_node(#[trigger] views[i]),
                lists_consumers(views, consumers@),
                id < nodes.len(),
                listed == consumers@[id as int]@,
                next_done == done.insert(id),
                !done.contains(id),
                !(views[id as int].kind is Input),
                degree.len() == nodes.len(),
                place.len() == nodes.len(),
                head < order.len(),
                place[id as int] == head,
                forall|other: usize| #[trigger]
                    done.contains(other) <==> other < nodes.len() && !(views[other as int].kind is Input)
                        && place[other as int] < head,
                forall|i: int|
                    0 <= i < nodes.len() && !(views[i].kind is Input) ==> (#[trigger] degree[i]) + occurrences(
                        listed.take(index as int),
                        i as usize,
                    ) == pending(views, views[i].inputs, done),
                forall|i: int|
                    0 <= i < nodes.len() ==> if views[i].kind is Input || degree[i] != 0 {
                        (#[trigger] place[i]) == usize::MAX
                    } else {
                        place[i] < order.len() && order[place[i] as int] == i
                    },
                forall|i: int|
                    0 <= i < order.len() ==> (#[trigger] order[i]) < nodes.len() && !(views[order[i] as int].kind is Input)
                        && place[order[i] as int] == i,
                forall|i: int, pin: int|
                    0 <= i < order.len() && 0 <= pin < views[order[i] as int].inputs.len() ==> {
                        let source = (#[trigger] views[order[i] as int].inputs[pin]) as int;
                        views[source].kind is Input || place[source] < i && place[source] <= head
                    },
        {
            let consumer: usize = consumers[id][index];
            let ghost inputs = views[consumer as int].inputs;
            proof {
                let longer = listed.take(index + 1);
                assert(longer.drop_last() =~= listed.take(index as int));
                assert(longer.last() == consumer);
                occurrences_prefix(listed, consumer, index + 1);
                assert(occurrences(listed, consumer) == occurrences(inputs, id));
                pending_insert(views, inputs, done, id);
                occurrences_contains(inputs, id);
                assert(is_cone_node(views[consumer as int]));
                assert(degree[consumer as int] + occurrences(listed.take(index as int), consumer) == pending(
                    views,
                    inputs,
                    done,
                ));
                assert(degree[consumer as int] > 0);
                assert(place[consumer as int] == usize::MAX);
            }
            let ghost place_before = place@;
            let ghost order_before = order@;
            let ghost degree_before = degree@;
            let left: usize = degree[consumer] - 1;
            degree[consumer] = left;
            if left == 0 {
                place[consumer] = order.len();
                order.push(consumer);
                proof {
                    assert(order.len() <= usize::MAX);
                    pending_zero(views, inputs, next_done);
                    let more = times.push(head + 1);
                    assert forall|i: int| 0 <= i < order@.len() implies is_ready(
                        views,
                        place@,
                        views[(#[trigger] order@[i]) as int].inputs,
                        more[i],
                    ) by {
                        if i < order_before.len() {
                            let old_inputs = views[order_before[i] as int].inputs;
                            assert(order@[i] == order_before[i]);
                            assert(is_ready(views, place_before, old_inputs, times[i]));
                            assert forall|pin: int| 0 <= pin < old_inputs.len() implies (#[trigger] old_inputs[pin])
                                < place_before.len() by {
                                assert(views[order_before[i] as int].inputs[pin] < order_before[i]);
                            }
                            ready_stays(views, place_before, place@, old_inputs, times[i], consumer);
                        } else {
                            assert forall|pin: int| 0 <= pin < inputs.len() implies views[(
                            #[trigger] inputs[pin]) as int].kind is Input || place@[inputs[pin] as int] < head + 1 by {
                                assert(views[consumer as int].inputs[pin] < consumer);
                                if !(views[inputs[pin] as int].kind is Input) {
                                    assert(next_done.contains(inputs[pin]));
                                    assert(place_before[inputs[pin] as int] <= head);
                                }
                            }
                            assert(inputs.contains(id));
                            let pin = choose|pin: int| 0 <= pin < inputs.len() && inputs[pin] == id;
                            assert(views[consumer as int].inputs[pin] < consumer);
                            assert(place@[inputs[pin] as int] == head);
                        }
                    }
                    assert forall|i: int, j: int| 0 <= i < j < order@.len() implies #[trigger] is_listed_before(
                        order@,
                        more,
                        i,
                        j,
                    ) by {
                        if j < order_before.len() {
                            assert(order_before[i] == order@[i] && order_before[j] == order@[j]);
                            assert(is_listed_before(order_before, times, i, j));
                        } else {
                            assert(order@[i] == order_before[i]);
                            assert(more[i] == times[i] && more[j] == head + 1);
                            assert(times[i] <= head + 1);
                            if times[i] == head + 1 {
                                assert(order_before[i] <= listed[index as int]);
                                assert(place_before[order_before[i] as int] == i);
                            }
                        }
                    }
                    assert(are_times(views, place@, order@, more));
                    times = more;
                }
            }
            proof {
                let longer = listed.take(index + 1);
                assert forall|i: int|
                    0 <= i < nodes.len() && !(views[i].kind is Input) implies (#[trigger] degree@[i]) + occurrences(
                    longer,
                    i as usize,
                ) == pending(views, views[i].inputs, done) by {
                    assert(degree_before[i] + occurrences(listed.take(index as int), i as usize) == pending(
                        views,
                        views[i].inputs,
                        done,
                    ));
                }
                assert forall|i: int|
                    0 <= i < order.len() implies (#[trigger] order@[i]) < nodes.len() && !(views[order@[i] as int].kind is Input)
                        && place@[order@[i] as int] == i by {
                    if i < order_before.len() {
                        assert(order_before[i] == order@[i]);
                        assert(place_before[order_before[i] as int] == i);
                        assert(order_before[i] != consumer);
                    }
                }
                assert forall|i: int|
                    0 <= i < nodes.len() implies if views[i].kind is Input || degree@[i] != 0 {
                    (#[trigger] place@[i]) == usize::MAX
                } else {
                    place@[i] < order.len() && order@[place@[i] as int] == i
                } by {
                    if i != consumer {
                        assert(place_before[i] == place@[i]);
                    }
                }
                assert forall|i: int, pin: int|
                    0 <= i < order.len() && 0 <= pin < views[order@[i] as int].inputs.len() implies {
                    let source = (#[trigger] views[order@[i] as int].inputs[pin]) as int;
                    views[source].kind is Input || place@[source] < i && place@[source] <= head
                } by {
                    let source = views[order@[i] as int].inputs[pin];
                    assert(source < nodes.len()) by {
                        assert(views[order@[i] as int].inputs[pin] < order@[i]);
                    }
                    if i < order_before.len() {
                        assert(order_before[i] == order@[i]);
                        assert(views[order_before[i] as int].inputs[pin] == source);
                    } else {
                        assert(inputs[pin] == source);
                        if !(views[source as int].kind is Input) {
                            assert(next_done.contains(source));
                            assert(source != consumer);
                        }
                    }
                }
                assert forall|other: usize| #[trigger]
                    done.contains(other) <==> other < nodes.len() && !(views[other as int].kind is Input)
                        && place@[other as int] < head by {
                    if other < nodes.len() && other != consumer {
                        assert(place_before[other as int] == place@[other as int]);
                    }
                }
            }
        }
        proof {
            assert(listed.take(listed.len() as int) =~= listed);
            assert forall|i: int|
                0 <= i < nodes.len() && !(views[i].kind is Input) implies (#[trigger] degree@[i]) == pending(
                views,
                views[i].inputs,
                next_done,
            ) by {
                pending_insert(views, views[i].inputs, done, id);
                assert(occurrences(listed, i as usize) == occurrences(views[i].inputs, id));
            }
            assert forall|other: usize| #[trigger]
                next_done.contains(other) <==> other < nodes.len() && !(views[other as int].kind is Input)
                    && place@[other as int] < head + 1 by {
                if other < nodes.len() && !(views[other as int].kind is Input) && place@[other as int] == head {
                    assert(order@[place@[other as int] as int] == other);
                }
            }
            done = next_done;
        }
        head += 1;
    }
    proof {
        assert forall|i: int, j: int| 0 <= i < j < order@.len() implies comes_first(
            views,
            place@,
            #[trigger] order@[i],
            #[trigger] order@[j],
        ) by {
            ready_is_ready_at(views, place@, views[order@[i] as int].inputs, times[i]);
            ready_is_ready_at(views, place@, views[order@[j] as int].inputs, times[j]);
            assert(is_listed_before(order@, times, i, j));
        }
        assert forall|id: int| 0 <= id < nodes.len() implies if views[id].kind is Input {
            (#[trigger] place@[id]) == usize::MAX
        } else {
            place@[id] < order@.len() && order@[place@[id] as int] == id
        } by {
            if !(views[id].kind is Input) {
                all_ready(views, degree@, place@, done, head as int, id);
            }
        }
    }
    (order, place, consumers)
}

/// Once every ready node is done, every node is.
proof fn all_ready(
    nodes: Seq<NodeView>,
    degree: Seq<usize>,
    place: Seq<usize>,
    done: Set<usize>,
    head: int,
    id: int,
)
    requires
        reads_backward(nodes),
        degree.len() == nodes.len(),
        place.len() == nodes.len(),
        nodes.len() <= usize::MAX,
        forall|other: usize| #[trigger]
            done.contains(other) <==> other < nodes.len() && !(nodes[other as int].kind is Input) && place[other as int]
                < head,
        forall|i: int|
            0 <= i < nodes.len() && !(nodes[i].kind is Input) ==> (#[trigger] degree[i]) == pending(
                nodes,
                nodes[i].inputs,
                done,
            ),
        forall|i: int|
            0 <= i < nodes.len() && !(nodes[i].kind is Input) && degree[i] == 0 ==> (#[trigger] place[i]) < head,
        0 <= id < nodes.len(),
        !(nodes[id].kind is Input),
    ensures
        degree[id] == 0,
    decreases id,
{
    let inputs = nodes[id].inputs;
    assert forall|pin: int| 0 <= pin < inputs.len() implies nodes[(#[trigger] inputs[pin]) as int].kind is Input
        || done.contains(inputs[pin]) by {
        assert(nodes[id].inputs[pin] < id);
        if !(nodes[inputs[pin] as int].kind is Input) {
            all_ready(nodes, degree, place, done, head, inputs[pin] as int);
            assert(place[inputs[pin] as int] < head);
        }
    }
    pending_zero(nodes, inputs, done);
}

} // verus!
