//! Drivers of nets, and what they make reachable.

use crate::ir::logical::{
    kind_is_sequential, pin_value, CellView, LogicalModule, LogicalPortDirection, LogicalValue, ModuleView, PortView,
    ValueView,
};
use crate::text::{copy_texts, texts};
use vstd::hash_map::StringHashMap;
use vstd::hash_set::StringHashSet;
use vstd::prelude::*;

verus! {

/// The last cell whose first output drives `net`.
pub open spec fn driver_index(cells: Seq<CellView>, net: Seq<char>) -> Option<int>
    decreases cells.len(),
{
    if cells.len() == 0 {
        None
    } else if cells.last().outputs.len() > 0 && cells.last().outputs[0].net == net {
        Some(cells.len() - 1)
    } else {
        driver_index(cells.drop_last(), net)
    }
}

/// A driver is a cell whose first output is the net.
pub proof fn driver_index_drives(cells: Seq<CellView>, net: Seq<char>)
    ensures
        match driver_index(cells, net) {
            Some(index) => 0 <= index < cells.len() && cells[index].outputs.len() > 0 && cells[index].outputs[0].net
                == net,
            None => true,
        },
    decreases cells.len(),
{
    if cells.len() > 0 {
        driver_index_drives(cells.drop_last(), net);
    }
}

/// The driver of each net.
pub fn drivers_of(module: &LogicalModule) -> (driver_of: StringHashMap<usize>)
    ensures
        lists_drivers(module@.cells, driver_of@),
{
    let ghost cells = module@.cells;
    let mut driver_of: StringHashMap<usize> = StringHashMap::new();
    assert(cells.take(0) =~= Seq::<CellView>::empty());
    let mut index: usize = 0;
    while index < module.cells.len()
        invariant
            cells == module@.cells,
            index <= module.cells.len(),
            lists_drivers(cells.take(index as int), driver_of@),
        decreases module.cells.len() - index,
    {
        let cell = &module.cells[index];
        proof {
            let longer = cells.take(index + 1);
            assert(longer.drop_last() =~= cells.take(index as int));
            assert(longer.last() == cell@);
        }
        if cell.outputs.len() > 0 {
            assert(cell@.outputs[0].net == cell.outputs[0].net@);
            driver_of.insert(cell.outputs[0].net.clone(), index);
        }
        index += 1;
    }
    assert(cells.take(cells.len() as int) =~= cells);
    driver_of
}

/// Whether a value is read from a net: from all of it, or, where `deep` holds, from
/// one of its bits.
pub open spec fn is_read_from(value: ValueView, deep: bool, source: Seq<char>) -> bool {
    match value {
        ValueView::Net(net) => net == source,
        ValueView::Slice(net, _) => deep && net == source,
        ValueView::Constant(_, _) => false,
    }
}

/// Whether `cell` passes need on from the net it drives to `source`: any logic
/// cell to the nets that it reads, and, where `deep` holds, a state cell to the
/// net of its data. Bits of nets count only where `deep` holds.
pub open spec fn needs_net(cell: CellView, deep: bool, source: Seq<char>) -> bool {
    if kind_is_sequential(cell.kind) {
        deep && pin_value(cell.inputs, "d"@) is Some && is_read_from(pin_value(cell.inputs, "d"@)->0, deep, source)
    } else {
        exists|i: int| 0 <= i < cell.inputs.len() && is_read_from((#[trigger] cell.inputs[i]).value, deep, source)
    }
}

/// The net that a value is read from, if it is read from one.
fn source_of(value: &LogicalValue, deep: bool) -> (source: Option<String>)
    ensures
        match source {
            Some(source) => forall|net: Seq<char>| #[trigger]
                is_read_from(value@, deep, net) <==> net == source@,
            None => forall|net: Seq<char>| !(#[trigger] is_read_from(value@, deep, net)),
        },
{
    match value {
        LogicalValue::Net { net } => Some(net.clone()),
        LogicalValue::Slice { net, .. } => if deep {
            Some(net.clone())
        } else {
            None
        },
        LogicalValue::Constant { .. } => None,
    }
}

/// Whether need for `net` leads to need for `source`.
pub open spec fn need_step(cells: Seq<CellView>, deep: bool, net: Seq<char>, source: Seq<char>) -> bool {
    match driver_index(cells, net) {
        Some(index) => needs_net(cells[index], deep, source),
        None => false,
    }
}

/// A chain of need from one of the nets `starts` to `net`.
pub open spec fn is_need_path(
    cells: Seq<CellView>,
    deep: bool,
    starts: Seq<Seq<char>>,
    path: Seq<Seq<char>>,
    net: Seq<char>,
) -> bool {
    &&& path.len() > 0
    &&& path.last() == net
    &&& starts.contains(path[0])
    &&& forall|i: int|
        0 <= i < path.len() - 1 ==> #[trigger] need_step(cells, deep, path[i], path[i + 1])
}

/// Whether one of the nets `starts` needs `net`.
pub open spec fn is_needed(
    cells: Seq<CellView>,
    deep: bool,
    starts: Seq<Seq<char>>,
    net: Seq<char>,
) -> bool {
    exists|path: Seq<Seq<char>>| is_need_path(cells, deep, starts, path, net)
}

/// Need of a start is need.
proof fn needed_start(cells: Seq<CellView>, deep: bool, starts: Seq<Seq<char>>, net: Seq<char>)
    requires
        starts.contains(net),
    ensures
        is_needed(cells, deep, starts, net),
{
    let path = seq![net];
    assert(is_need_path(cells, deep, starts, path, net));
}

/// Need leads to need.
proof fn needed_step(
    cells: Seq<CellView>,
    deep: bool,
    starts: Seq<Seq<char>>,
    net: Seq<char>,
    source: Seq<char>,
)
    requires
        is_needed(cells, deep, starts, net),
        need_step(cells, deep, net, source),
    ensures
        is_needed(cells, deep, starts, source),
{
    let path = choose|path: Seq<Seq<char>>| is_need_path(cells, deep, starts, path, net);
    let longer = path.push(source);
    assert forall|i: int| 0 <= i < longer.len() - 1 implies #[trigger] need_step(
        cells,
        deep,
        longer[i],
        longer[i + 1],
    ) by {
        if i < path.len() - 1 {
            assert(longer[i] == path[i] && longer[i + 1] == path[i + 1]);
            assert(need_step(cells, deep, path[i], path[i + 1]));
        } else {
            assert(longer[i] == path.last());
        }
    }
    assert(is_need_path(cells, deep, starts, longer, source));
}

/// What is closed under need and holds the starts holds everything needed.
proof fn closed_set_has_needed(
    cells: Seq<CellView>,
    deep: bool,
    starts: Seq<Seq<char>>,
    closed: Set<Seq<char>>,
    path: Seq<Seq<char>>,
    net: Seq<char>,
)
    requires
        is_need_path(cells, deep, starts, path, net),
        forall|other: Seq<char>| #[trigger] starts.contains(other) ==> closed.contains(other),
        forall|other: Seq<char>, source: Seq<char>|
            closed.contains(other) && #[trigger] need_step(cells, deep, other, source) ==> closed.contains(
                source,
            ),
    ensures
        closed.contains(net),
    decreases path.len(),
{
    if path.len() > 1 {
        let shorter = path.drop_last();
        assert forall|i: int| 0 <= i < shorter.len() - 1 implies #[trigger] need_step(
            cells,
            deep,
            shorter[i],
            shorter[i + 1],
        ) by {
            assert(shorter[i] == path[i] && shorter[i + 1] == path[i + 1]);
            assert(need_step(cells, deep, path[i], path[i + 1]));
        }
        closed_set_has_needed(cells, deep, starts, closed, shorter, shorter.last());
        assert(need_step(cells, deep, path[path.len() - 2], path[path.len() - 2 + 1]));
    }
}

/// Everything on the stack or visited is needed, and need from a visited net is
/// on the stack or visited.
spec fn search_inv(
    cells: Seq<CellView>,
    deep: bool,
    starts: Seq<Seq<char>>,
    visited: Set<Seq<char>>,
    stack: Seq<Seq<char>>,
) -> bool {
    &&& forall|net: Seq<char>| #[trigger] visited.contains(net) ==> is_needed(cells, deep, starts, net)
    &&& forall|i: int| 0 <= i < stack.len() ==> is_needed(cells, deep, starts, #[trigger] stack[i])
    &&& forall|net: Seq<char>| #[trigger] starts.contains(net) ==> visited.contains(net) || stack.contains(net)
    &&& forall|net: Seq<char>, source: Seq<char>|
        visited.contains(net) && #[trigger] need_step(cells, deep, net, source) ==> visited.contains(source)
            || stack.contains(source)
}

/// How many flags are not set.
spec fn unset(flags: Seq<bool>) -> nat
    decreases flags.len(),
{
    if flags.len() == 0 {
        0
    } else {
        unset(flags.drop_last()) + (if flags.last() { 0nat } else { 1 })
    }
}

proof fn unset_decreases(flags: Seq<bool>, index: int)
    requires
        0 <= index < flags.len(),
        !flags[index],
    ensures
        unset(flags.update(index, true)) < unset(flags),
    decreases flags.len(),
{
    let after = flags.update(index, true);
    if index == flags.len() - 1 {
        assert(after.drop_last() =~= flags.drop_last());
    } else {
        unset_decreases(flags.drop_last(), index);
        assert(after.drop_last() =~= flags.drop_last().update(index, true));
    }
}

/// Whether `driver_of` gives each net its driver.
pub open spec fn lists_drivers(cells: Seq<CellView>, driver_of: Map<Seq<char>, usize>) -> bool {
    forall|net: Seq<char>|
        match driver_index(cells, net) {
            Some(index) => #[trigger] driver_of.contains_key(net) && driver_of[net] == index,
            None => !driver_of.contains_key(net),
        }
}

/// All nets that the starts need.
pub fn needed_nets(
    module: &LogicalModule,
    driver_of: &StringHashMap<usize>,
    starts: &Vec<String>,
    deep: bool,
) -> (needed: StringHashSet)
    requires
        lists_drivers(module@.cells, driver_of@),
    ensures
        forall|net: Seq<char>| #[trigger]
            needed@.contains(net) <==> is_needed(module@.cells, deep, texts(starts@), net),
{
    let ghost cells = module@.cells;
    let ghost begin = texts(starts@);
    let mut visited = StringHashSet::new();
    let mut stack: Vec<String> = copy_texts(starts);
    let mut seen: Vec<bool> = Vec::new();
    let mut index: usize = 0;
    while index < module.cells.len()
        invariant
            index <= module.cells.len(),
            seen.len() == index,
            forall|i: int| 0 <= i < index ==> !(#[trigger] seen[i]),
        decreases module.cells.len() - index,
    {
        seen.push(false);
        index += 1;
    }
    proof {
        assert forall|i: int| 0 <= i < stack.len() implies is_needed(
            cells,
            deep,
            begin,
            #[trigger] texts(stack@)[i],
        ) by {
            assert(begin[i] == texts(stack@)[i]);
            needed_start(cells, deep, begin, begin[i]);
        }
    }
    while stack.len() > 0
        invariant
            cells == module@.cells,
            begin == texts(starts@),
            seen.len() == cells.len(),
            lists_drivers(cells, driver_of@),
            forall|i: int|
                0 <= i < cells.len() && #[trigger] seen[i] ==> cells[i].outputs.len() > 0 && visited@.contains(
                    cells[i].outputs[0].net,
                ),
            search_inv(cells, deep, begin, visited@, texts(stack@)),
        decreases unset(seen@), stack.len(),
    {
        let ghost old_stack = texts(stack@);
        let ghost old_visited = visited@;
        let net = match stack.pop() {
            Some(net) => net,
            None => return visited,
        };
        let ghost rest = texts(stack@);
        proof {
            assert(old_stack =~= rest.push(net@));
            assert(old_stack.last() == net@);
            assert(is_needed(cells, deep, begin, old_stack[old_stack.len() - 1]));
            assert forall|other: Seq<char>| old_stack.contains(other) && other != net@ implies #[trigger] rest.contains(
                other,
            ) by {
                let i = choose|i: int| 0 <= i < old_stack.len() && old_stack[i] == other;
                assert(rest[i] == other);
            }
            assert forall|i: int| 0 <= i < rest.len() implies is_needed(
                cells,
                deep,
                begin,
                #[trigger] rest[i],
            ) by {
                assert(old_stack[i] == rest[i]);
            }
        }
        if !visited.insert(net.clone()) {
            assert(visited@ =~= old_visited);
            continue;
        }
        proof {
            driver_index_drives(cells, net@);
        }
        match driver_of.get(net.as_str()) {
            None => {},
            Some(driver) => {
                let driver: usize = *driver;
                let cell = &module.cells[driver];
                assert(cells[driver as int] == cell@);
                assert(!seen[driver as int]);
                proof {
                    unset_decreases(seen@, driver as int);
                }
                seen[driver] = true;
                if cell.kind.is_sequential() {
                    if deep {
                        if let Some(value) = cell.input_value("d") {
                            if let Some(source) = source_of(value, deep) {
                                let ghost read = source@;
                                proof {
                                    assert(is_read_from(value@, deep, read));
                                    assert(need_step(cells, deep, net@, read));
                                    needed_step(cells, deep, begin, net@, read);
                                }
                                stack.push(source);
                                proof {
                                    assert(texts(stack@) =~= rest.push(read));
                                    assert(texts(stack@).last() == read);
                                }
                            }
                        }
                    }
                } else {
                    let mut input: usize = 0;
                    while input < cell.inputs.len()
                        invariant
                            cells == module@.cells,
                            input <= cell.inputs.len(),
                            cell@ == cells[driver as int],
                            driver_index(cells, net@) == Some(driver as int),
                            !kind_is_sequential(cell.kind),
                            is_needed(cells, deep, begin, net@),
                            forall|other: Seq<char>| #[trigger] rest.contains(other) ==> texts(stack@).contains(other),
                            forall|i: int|
                                0 <= i < stack.len() ==> is_needed(
                                    cells,
                                    deep,
                                    begin,
                                    #[trigger] texts(stack@)[i],
                                ),
                            forall|i: int, source: Seq<char>|
                                0 <= i < input && #[trigger] is_read_from(cell@.inputs[i].value, deep, source)
                                    ==> texts(stack@).contains(source),
                        decreases cell.inputs.len() - input,
                    {
                        assert(cell@.inputs[input as int] == cell.inputs[input as int]@);
                        let ghost shorter = texts(stack@);
                        if let Some(source) = source_of(&cell.inputs[input].value, deep) {
                            let ghost read = source@;
                            proof {
                                assert(is_read_from(cell@.inputs[input as int].value, deep, read));
                                assert(needs_net(cell@, deep, read));
                                assert(need_step(cells, deep, net@, read));
                                needed_step(cells, deep, begin, net@, read);
                            }
                            stack.push(source);
                            proof {
                                let longer = texts(stack@);
                                assert(longer =~= shorter.push(read));
                                assert(longer.last() == read);
                                assert forall|other: Seq<char>| shorter.contains(other) implies longer.contains(other) by {
                                    let i = choose|i: int| 0 <= i < shorter.len() && shorter[i] == other;
                                    assert(longer[i] == other);
                                }
                            }
                        }
                        input += 1;
                    }
                    proof {
                        assert forall|source: Seq<char>| need_step(cells, deep, net@, source) implies #[trigger] texts(
                            stack@,
                        ).contains(source) by {
                            let i = choose|i: int|
                                0 <= i < cell@.inputs.len() && is_read_from(
                                    (#[trigger] cell@.inputs[i]).value,
                                    deep,
                                    source,
                                );
                            assert(is_read_from(cell@.inputs[i].value, deep, source));
                        }
                    }
                }
                proof {
                    let now = texts(stack@);
                    assert forall|other: Seq<char>| rest.contains(other) implies now.contains(other) by {
                        let i = choose|i: int| 0 <= i < rest.len() && rest[i] == other;
                        if kind_is_sequential(cell.kind) {
                            assert(now[i] == other);
                        }
                    }
                    assert forall|source: Seq<char>| #[trigger] need_step(cells, deep, net@, source) implies now.contains(
                        source,
                    ) by {}
                    assert forall|other: Seq<char>, source: Seq<char>|
                        visited@.contains(other) && #[trigger] need_step(cells, deep, other, source)
                        implies visited@.contains(source) || now.contains(source) by {
                        if other != net@ {
                            assert(old_visited.contains(other));
                            assert(old_visited.contains(source) || old_stack.contains(source));
                            if source != net@ && !old_visited.contains(source) {
                                assert(rest.contains(source));
                            }
                        }
                    }
                    assert forall|other: Seq<char>| #[trigger] begin.contains(other) implies visited@.contains(other)
                        || now.contains(other) by {
                        assert(old_visited.contains(other) || old_stack.contains(other));
                        if other != net@ && !old_visited.contains(other) {
                            assert(rest.contains(other));
                        }
                    }
                }
            },
        }
    }
    proof {
        assert(texts(stack@) =~= Seq::<Seq<char>>::empty());
        assert forall|net: Seq<char>| #[trigger] visited@.contains(net) <==> is_needed(
            cells,
            deep,
            begin,
            net,
        ) by {
            if is_needed(cells, deep, begin, net) {
                let path = choose|path: Seq<Seq<char>>| is_need_path(cells, deep, begin, path, net);
                closed_set_has_needed(cells, deep, begin, visited@, path, net);
            }
        }
    }
    visited
}

/// The nets of the output ports among the first `count` ports, in order.
pub open spec fn output_nets(ports: Seq<PortView>, count: nat) -> Seq<Seq<char>>
    decreases count,
{
    if count == 0 {
        Seq::empty()
    } else {
        let before = output_nets(ports, (count - 1) as nat);
        if ports[count - 1].direction == LogicalPortDirection::Output {
            before.push(ports[count - 1].net)
        } else {
            before
        }
    }
}

/// Whether the state cell called `name` can reach an output port.
pub open spec fn is_live_name(module: ModuleView, name: Seq<char>) -> bool {
    exists|net: Seq<char>|
        {
            &&& #[trigger] is_needed(module.cells, true, output_nets(module.ports, module.ports.len()), net)
            &&& drives_state(module, net, name)
        }
}

/// Whether a state cell called `name` drives `net`.
pub open spec fn drives_state(module: ModuleView, net: Seq<char>, name: Seq<char>) -> bool {
    match driver_index(module.cells, net) {
        Some(index) => kind_is_sequential(module.cells[index].kind) && module.cells[index].name == name,
        None => false,
    }
}

/// The names of the state cells that can reach a module output. Need runs from
/// the output ports through logic, and on through the data of state cells that
/// are reached, so that chains of state cells are followed to their start.
pub fn live_state_cells(module: &LogicalModule, driver_of: &StringHashMap<usize>) -> (live: StringHashSet)
    requires
        lists_drivers(module@.cells, driver_of@),
    ensures
        forall|name: Seq<char>| #[trigger] live@.contains(name) <==> is_live_name(module@, name),
{
    let ghost view = module@;
    let ghost cells = module@.cells;
    let mut starts: Vec<String> = Vec::new();
    let mut port: usize = 0;
    assert(texts(starts@) =~= output_nets(view.ports, 0));
    while port < module.ports.len()
        invariant
            view == module@,
            port <= module.ports.len(),
            texts(starts@) == output_nets(view.ports, port as nat),
        decreases module.ports.len() - port,
    {
        assert(view.ports[port as int] == module.ports[port as int]@);
        let ghost before = texts(starts@);
        if matches!(module.ports[port].direction, LogicalPortDirection::Output) {
            starts.push(module.ports[port].net.clone());
            assert(texts(starts@) =~= before.push(view.ports[port as int].net));
        }
        port += 1;
    }
    let needed = needed_nets(module, driver_of, &starts, true);
    let mut live = StringHashSet::new();
    let mut index: usize = 0;
    while index < module.cells.len()
        invariant
            view == module@,
            cells == module@.cells,
            lists_drivers(cells, driver_of@),
            index <= module.cells.len(),
            forall|name: Seq<char>| #[trigger]
                live@.contains(name) <==> exists|i: int|
                    0 <= i < index && #[trigger] is_live_driver(cells, needed@, i) && cells[i].name == name,
        decreases module.cells.len() - index,
    {
        let cell = &module.cells[index];
        assert(cells[index as int] == cell@);
        let ghost before = live@;
        if cell.kind.is_sequential() && cell.outputs.len() > 0 && needed.contains(cell.outputs[0].net.as_str()) {
            assert(cell@.outputs[0].net == cell.outputs[0].net@);
            if let Some(driver) = driver_of.get(cell.outputs[0].net.as_str()) {
                if *driver == index {
                    live.insert(cell.name.clone());
                    assert(is_live_driver(cells, needed@, index as int));
                }
            }
        }
        proof {
            assert(cell.outputs.len() > 0 ==> cell@.outputs[0].net == cell.outputs[0].net@);
            assert forall|name: Seq<char>| #[trigger] live@.contains(name) <==> exists|i: int|
                0 <= i < index + 1 && #[trigger] is_live_driver(cells, needed@, i) && cells[i].name == name by {
                if before.contains(name) {
                    let i = choose|i: int|
                        0 <= i < index && #[trigger] is_live_driver(cells, needed@, i) && cells[i].name == name;
                    assert(is_live_driver(cells, needed@, i));
                }
            }
        }
        index += 1;
    }
    proof {
        assert forall|name: Seq<char>| #[trigger] live@.contains(name) <==> is_live_name(view, name) by {
            if live@.contains(name) {
                let i = choose|i: int|
                    0 <= i < cells.len() && #[trigger] is_live_driver(cells, needed@, i) && cells[i].name == name;
                let net = cells[i].outputs[0].net;
                assert(needed@.contains(net));
                assert(drives_state(view, net, name));
            }
            if is_live_name(view, name) {
                let net = choose|net: Seq<char>|
                    {
                        &&& #[trigger] is_needed(cells, true, output_nets(view.ports, view.ports.len()), net)
                        &&& drives_state(view, net, name)
                    };
                driver_index_drives(cells, net);
                let i = driver_index(cells, net)->0;
                assert(needed@.contains(net));
                assert(is_live_driver(cells, needed@, i));
            }
        }
    }
    live
}

/// Whether cell `index` is a state cell and drives a needed net.
spec fn is_live_driver(cells: Seq<CellView>, needed: Set<Seq<char>>, index: int) -> bool {
    &&& kind_is_sequential(cells[index].kind)
    &&& cells[index].outputs.len() > 0
    &&& needed.contains(cells[index].outputs[0].net)
    &&& driver_index(cells, cells[index].outputs[0].net) == Some(index)
}

} // verus!
