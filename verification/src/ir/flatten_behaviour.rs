//! Flattening keeps what a design computes.
//!
//! Nets carry bits over time, and cells tie those of their pins to each other. What
//! a cell of some kind asks of its pins is left open: the laws hold whatever it is.

use super::flatten::{
    below, bound_to, flattened, flattened_instances, has_net, inlined_bindings, inlined_inputs, inlined_outputs,
    is_inlined, resolved, width_from, with_cells, with_instances, with_module, Flat, Frame, Place, Scope,
};
use super::flatten_laws::{instances_grow, module_grows, tied, untied_net_is_new};
use super::logical::{
    module_named, BindingView, CellView, InputView, InstanceView, LogicalCellKind, LogicalDesign, LogicalModule,
    ModuleView, NetView, OutputView, ValueView,
};
use vstd::prelude::*;

verus! {

// ---------------------------------------------------------------------------
// What designs compute
// ---------------------------------------------------------------------------
/// The bits of a net over time: at a moment, of a number.
pub type History = spec_fn(nat, nat) -> bool;

/// What each net carries.
pub type Nets = spec_fn(Seq<char>) -> History;

/// What an input pin reads: a net, a bit of a net, or a constant.
pub ghost enum Reading {
    Whole(History),
    Bit(History, nat),
    Constant(u128, usize),
}

/// What a cell of a kind asks of what its input pins read and its output pins drive.
pub type Meaning = spec_fn(LogicalCellKind, Seq<(Seq<char>, Reading)>, Seq<(Seq<char>, History)>) -> bool;

/// What a value reads.
pub open spec fn reading(value: ValueView, nets: Nets) -> Reading {
    match value {
        ValueView::Net(net) => Reading::Whole(nets(net)),
        ValueView::Slice(net, bit) => Reading::Bit(nets(net), bit as nat),
        ValueView::Constant(value, width) => Reading::Constant(value, width),
    }
}

/// What the input pins of a cell read, in order.
pub open spec fn read_pins(cell: CellView, nets: Nets) -> Seq<(Seq<char>, Reading)> {
    Seq::new(cell.inputs.len(), |i: int| (cell.inputs[i].pin, reading(cell.inputs[i].value, nets)))
}

/// What the output pins of a cell drive, in order.
pub open spec fn driven_pins(cell: CellView, nets: Nets) -> Seq<(Seq<char>, History)> {
    Seq::new(cell.outputs.len(), |i: int| (cell.outputs[i].pin, nets(cell.outputs[i].net)))
}

/// Whether a cell has what it asks for.
pub open spec fn cell_works(meaning: Meaning, cell: CellView, nets: Nets) -> bool {
    meaning(cell.kind, read_pins(cell, nets), driven_pins(cell, nets))
}

/// Whether all cells have what they ask for.
pub open spec fn cells_work(meaning: Meaning, cells: Seq<CellView>, nets: Nets) -> bool {
    forall|i: int| 0 <= i < cells.len() ==> cell_works(meaning, #[trigger] cells[i], nets)
}

/// What each net of each instance carries. An instance is named by the places of the
/// instances that lead to it.
pub type Values = spec_fn(Seq<int>, Seq<char>) -> History;

/// What the nets of an instance carry.
pub open spec fn at_node(values: Values, node: Seq<int>) -> Nets {
    |net: Seq<char>| values(node, net)
}

/// The module of an instance.
pub open spec fn module_at(modules: Seq<LogicalModule>, top: ModuleView, node: Seq<int>) -> Option<ModuleView>
    decreases node.len(),
{
    if node.len() == 0 {
        Some(top)
    } else {
        match module_at(modules, top, node.drop_last()) {
            None => None,
            Some(module) => if 0 <= node.last() < module.instances.len() {
                match module_named(modules, module.instances[node.last()].module) {
                    None => None,
                    Some(inner) => Some(inner@),
                }
            } else {
                None
            },
        }
    }
}

/// Whether bindings tie a port to a net. The last binding of a port counts.
pub open spec fn ties(bindings: Seq<BindingView>, port: Seq<char>, net: Seq<char>) -> bool {
    exists|b: int|
        {
            &&& 0 <= b < bindings.len()
            &&& #[trigger] bindings[b] == (BindingView { port, net })
            &&& forall|later: int| b < later < bindings.len() ==> (#[trigger] bindings[later]).port != port
        }
}

/// Whether an instance carries what its bindings ask for: each port the same as the
/// net that it is tied to.
pub open spec fn instance_works(
    modules: Seq<LogicalModule>,
    instance: InstanceView,
    values: Values,
    node: Seq<int>,
    place: int,
) -> bool {
    &&& module_named(modules, instance.module) is Some
    &&& forall|port: Seq<char>, net: Seq<char>| #[trigger]
        ties(instance.bindings, port, net) ==> values(node.push(place), port) == values(node, net)
}

/// Whether the cells and instances of one instance have what they ask for.
pub open spec fn node_works(
    modules: Seq<LogicalModule>,
    module: ModuleView,
    meaning: Meaning,
    values: Values,
    node: Seq<int>,
) -> bool {
    &&& cells_work(meaning, module.cells, at_node(values, node))
    &&& forall|k: int|
        0 <= k < module.instances.len() ==> instance_works(
            modules,
            #[trigger] module.instances[k],
            values,
            node,
            k,
        )
}

/// Whether a module and everything in it has what it asks for.
pub open spec fn hierarchy_works(
    modules: Seq<LogicalModule>,
    top: ModuleView,
    meaning: Meaning,
    values: Values,
) -> bool {
    forall|node: Seq<int>|
        (#[trigger] module_at(modules, top, node)) matches Some(module) ==> node_works(
            modules,
            module,
            meaning,
            values,
            node,
        )
}

/// Whether a module declares the nets that its cells and bindings name.
pub open spec fn declares_its_nets(module: ModuleView) -> bool {
    &&& forall|i: int| 0 <= i < module.cells.len() ==> names_known(#[trigger] module.cells[i], module.nets)
    &&& forall|k: int, b: int|
        0 <= k < module.instances.len() && 0 <= b < module.instances[k].bindings.len() ==> has_net(
            module.nets,
            (#[trigger] module.instances[k].bindings[b]).net,
        )
}

/// Whether the nets that a cell names are there.
pub open spec fn names_known(cell: CellView, nets: Seq<NetView>) -> bool {
    &&& forall|i: int|
        0 <= i < cell.inputs.len() ==> match (#[trigger] cell.inputs[i]).value {
            ValueView::Net(net) => has_net(nets, net),
            ValueView::Slice(net, _) => has_net(nets, net),
            ValueView::Constant(_, _) => true,
        }
    &&& forall|i: int| 0 <= i < cell.outputs.len() ==> has_net(nets, (#[trigger] cell.outputs[i]).net)
}

// ---------------------------------------------------------------------------
// Copies of cells
// ---------------------------------------------------------------------------
/// Whether what was tied stays tied to the same.
spec fn keeps(before: Scope, after: Scope) -> bool {
    forall|local: Seq<char>| (#[trigger] tied(before, local)) is Some ==> tied(after, local) == tied(before, local)
}

/// Whether a value of the flat module stands for one of an inlined module.
spec fn stands_for(scope: Scope, local: ValueView, flat: ValueView) -> bool {
    match local {
        ValueView::Net(net) => flat matches ValueView::Net(name) && tied(scope, net) == Some(name),
        ValueView::Slice(net, bit) => flat matches ValueView::Slice(name, same) && tied(scope, net) == Some(name)
            && same == bit,
        ValueView::Constant(_, _) => flat == local,
    }
}

spec fn inputs_stand(scope: Scope, inputs: Seq<InputView>, copies: Seq<InputView>, count: nat) -> bool {
    &&& copies.len() == count
    &&& forall|i: int|
        0 <= i < count ==> (#[trigger] copies[i]).pin == inputs[i].pin && stands_for(
            scope,
            inputs[i].value,
            copies[i].value,
        )
}

spec fn outputs_stand(scope: Scope, outputs: Seq<OutputView>, copies: Seq<OutputView>, count: nat) -> bool {
    &&& copies.len() == count
    &&& forall|i: int|
        0 <= i < count ==> (#[trigger] copies[i]).pin == outputs[i].pin && tied(scope, outputs[i].net) == Some(
            copies[i].net,
        )
}

spec fn bindings_stand(scope: Scope, bindings: Seq<BindingView>, copies: Seq<BindingView>, count: nat) -> bool {
    &&& copies.len() == count
    &&& forall|i: int|
        0 <= i < count ==> (#[trigger] copies[i]).port == bindings[i].port && tied(scope, bindings[i].net) == Some(
            copies[i].net,
        )
}

spec fn is_copy(scope: Scope, cell: CellView, copy: CellView) -> bool {
    &&& copy.kind == cell.kind
    &&& inputs_stand(scope, cell.inputs, copy.inputs, cell.inputs.len())
    &&& outputs_stand(scope, cell.outputs, copy.outputs, cell.outputs.len())
}

spec fn are_copies(scope: Scope, cells: Seq<CellView>, all: Seq<CellView>, start: int, count: nat) -> bool {
    &&& all.len() == start + count
    &&& forall|i: int| 0 <= i < count ==> is_copy(scope, cells[i], #[trigger] all[start + i])
}

proof fn net_stands(place: Place, scope: Scope, local: Seq<char>)
    ensures
        resolved(place, scope, local) matches Ok((name, after)) ==> keeps(scope, after) && tied(after, local) == Some(
            name,
        ),
{
    if let Ok((name, after)) = resolved(place, scope, local) {
        untied_net_is_new(place, scope, local);
        if tied(scope, local) is None {
            assert forall|other: Seq<char>| (#[trigger] tied(scope, other)) is Some implies tied(after, other) == tied(
                scope,
                other,
            ) by {
                bound_before(scope.bindings, after.bindings, other, scope.bindings.len());
            }
        }
    }
}

proof fn bound_before(old: Seq<BindingView>, now: Seq<BindingView>, port: Seq<char>, count: nat)
    requires
        count <= old.len() <= now.len(),
        forall|i: int| 0 <= i < old.len() ==> #[trigger] old[i] == now[i],
    ensures
        bound_to(old, port, count) == bound_to(now, port, count),
    decreases count,
{
    if count > 0 {
        bound_before(old, now, port, (count - 1) as nat);
        assert(old[count - 1] == now[count - 1]);
    }
}

proof fn inputs_are_copied(place: Place, scope: Scope, inputs: Seq<InputView>, count: nat)
    requires
        count <= inputs.len(),
    ensures
        inlined_inputs(place, scope, inputs, count) matches Ok((done, after)) ==> keeps(scope, after) && inputs_stand(
            after,
            inputs,
            done,
            count,
        ),
    decreases count,
{
    if count > 0 {
        inputs_are_copied(place, scope, inputs, (count - 1) as nat);
        if let Ok((before, middle)) = inlined_inputs(place, scope, inputs, (count - 1) as nat) {
            match inputs[count - 1].value {
                ValueView::Net(net) => {
                    net_stands(place, middle, net);
                },
                ValueView::Slice(net, _) => {
                    net_stands(place, middle, net);
                },
                ValueView::Constant(_, _) => {},
            }
            if let Ok((done, after)) = inlined_inputs(place, scope, inputs, count) {
                assert forall|i: int| 0 <= i < count implies (#[trigger] done[i]).pin == inputs[i].pin && stands_for(
                    after,
                    inputs[i].value,
                    done[i].value,
                ) by {
                    if i < count - 1 {
                        assert(done[i] == before[i]);
                        assert(stands_for(middle, inputs[i].value, before[i].value));
                    }
                }
            }
        }
    }
}

proof fn outputs_are_copied(place: Place, scope: Scope, outputs: Seq<OutputView>, count: nat)
    requires
        count <= outputs.len(),
    ensures
        inlined_outputs(place, scope, outputs, count) matches Ok((done, after)) ==> keeps(scope, after)
            && outputs_stand(after, outputs, done, count),
    decreases count,
{
    if count > 0 {
        outputs_are_copied(place, scope, outputs, (count - 1) as nat);
        if let Ok((before, middle)) = inlined_outputs(place, scope, outputs, (count - 1) as nat) {
            net_stands(place, middle, outputs[count - 1].net);
            if let Ok((done, after)) = inlined_outputs(place, scope, outputs, count) {
                assert forall|i: int| 0 <= i < count implies (#[trigger] done[i]).pin == outputs[i].pin && tied(
                    after,
                    outputs[i].net,
                ) == Some(done[i].net) by {
                    if i < count - 1 {
                        assert(done[i] == before[i]);
                        assert(tied(middle, outputs[i].net) == Some(before[i].net));
                    }
                }
            }
        }
    }
}

proof fn bindings_are_copied(place: Place, scope: Scope, bindings: Seq<BindingView>, count: nat)
    requires
        count <= bindings.len(),
    ensures
        inlined_bindings(place, scope, bindings, count) matches Ok((done, after)) ==> keeps(scope, after)
            && bindings_stand(after, bindings, done, count),
    decreases count,
{
    if count > 0 {
        bindings_are_copied(place, scope, bindings, (count - 1) as nat);
        if let Ok((before, middle)) = inlined_bindings(place, scope, bindings, (count - 1) as nat) {
            net_stands(place, middle, bindings[count - 1].net);
            if let Ok((done, after)) = inlined_bindings(place, scope, bindings, count) {
                assert forall|i: int| 0 <= i < count implies (#[trigger] done[i]).port == bindings[i].port && tied(
                    after,
                    bindings[i].net,
                ) == Some(done[i].net) by {
                    if i < count - 1 {
                        assert(done[i] == before[i]);
                        assert(tied(middle, bindings[i].net) == Some(before[i].net));
                    }
                }
            }
        }
    }
}

proof fn copy_stays(before: Scope, after: Scope, cell: CellView, copy: CellView)
    requires
        keeps(before, after),
        is_copy(before, cell, copy),
    ensures
        is_copy(after, cell, copy),
{
    assert forall|i: int| 0 <= i < cell.inputs.len() implies (#[trigger] copy.inputs[i]).pin == cell.inputs[i].pin
        && stands_for(after, cell.inputs[i].value, copy.inputs[i].value) by {
        assert(stands_for(before, cell.inputs[i].value, copy.inputs[i].value));
    }
    assert forall|i: int| 0 <= i < cell.outputs.len() implies (#[trigger] copy.outputs[i]).pin == cell.outputs[i].pin
        && tied(after, cell.outputs[i].net) == Some(copy.outputs[i].net) by {
        assert(tied(before, cell.outputs[i].net) == Some(copy.outputs[i].net));
    }
}

proof fn cells_are_copied(place: Place, frame: Frame, count: nat)
    requires
        count <= place.module.cells.len(),
    ensures
        with_cells(place, frame, count) matches Ok(after) ==> {
            &&& keeps(frame.scope, after.scope)
            &&& are_copies(after.scope, place.module.cells, after.cells, frame.cells.len() as int, count)
            &&& forall|i: int| 0 <= i < frame.cells.len() ==> #[trigger] after.cells[i] == frame.cells[i]
        },
    decreases count,
{
    if count > 0 {
        cells_are_copied(place, frame, (count - 1) as nat);
        if let Ok(before) = with_cells(place, frame, (count - 1) as nat) {
            let cell = place.module.cells[count - 1];
            inputs_are_copied(place, before.scope, cell.inputs, cell.inputs.len());
            if let Ok((inputs, middle)) = inlined_inputs(place, before.scope, cell.inputs, cell.inputs.len()) {
                outputs_are_copied(place, middle, cell.outputs, cell.outputs.len());
                if let Ok(after) = with_cells(place, frame, count) {
                    let start = frame.cells.len() as int;
                    let copy = after.cells[start + count - 1];
                    assert forall|i: int| 0 <= i < cell.inputs.len() implies (#[trigger] copy.inputs[i]).pin
                        == cell.inputs[i].pin && stands_for(after.scope, cell.inputs[i].value, copy.inputs[i].value) by {
                        assert(inputs[i] == copy.inputs[i]);
                        assert(stands_for(middle, cell.inputs[i].value, inputs[i].value));
                    }
                    assert(is_copy(after.scope, cell, copy));
                    assert forall|i: int| 0 <= i < count implies is_copy(
                        after.scope,
                        place.module.cells[i],
                        #[trigger] after.cells[start + i],
                    ) by {
                        if i < count - 1 {
                            assert(after.cells[start + i] == before.cells[start + i]);
                            copy_stays(before.scope, after.scope, place.module.cells[i], before.cells[start + i]);
                        }
                    }
                    assert forall|i: int| 0 <= i < frame.cells.len() implies #[trigger] after.cells[i] == frame.cells[i] by {
                        assert(before.cells[i] == frame.cells[i]);
                    }
                }
            }
        }
    }
}

/// Whether local nets carry what the nets that they are tied to do.
spec fn carries(scope: Scope, own: Nets, nets: Nets) -> bool {
    forall|local: Seq<char>| (#[trigger] tied(scope, local)) matches Some(name) ==> own(local) == nets(name)
}

/// A copy works where its original does.
proof fn copy_works(meaning: Meaning, scope: Scope, cell: CellView, copy: CellView, own: Nets, nets: Nets)
    requires
        is_copy(scope, cell, copy),
        carries(scope, own, nets),
    ensures
        cell_works(meaning, copy, nets) == cell_works(meaning, cell, own),
{
    assert forall|i: int| 0 <= i < cell.inputs.len() implies #[trigger] read_pins(copy, nets)[i] == read_pins(cell, own)[i] by {
        assert(copy.inputs[i].pin == cell.inputs[i].pin);
        assert(stands_for(scope, cell.inputs[i].value, copy.inputs[i].value));
        match cell.inputs[i].value {
            ValueView::Net(net) => {
                assert(tied(scope, net) is Some);
            },
            ValueView::Slice(net, _) => {
                assert(tied(scope, net) is Some);
            },
            ValueView::Constant(_, _) => {},
        }
    }
    assert(read_pins(copy, nets) =~= read_pins(cell, own));
    assert forall|i: int| 0 <= i < cell.outputs.len() implies #[trigger] driven_pins(copy, nets)[i] == driven_pins(cell, own)[i] by {
        assert(copy.outputs[i].pin == cell.outputs[i].pin);
        assert(tied(scope, cell.outputs[i].net) == Some(copy.outputs[i].net));
    }
    assert(driven_pins(copy, nets) =~= driven_pins(cell, own));
}

// ---------------------------------------------------------------------------
// Instances in instances
// ---------------------------------------------------------------------------
/// What an instance and those in it carry.
pub open spec fn inside(values: Values, k: int) -> Values {
    |node: Seq<int>, net: Seq<char>| values(seq![k] + node, net)
}

proof fn module_inside(modules: Seq<LogicalModule>, top: ModuleView, node: Seq<int>)
    requires
        node.len() > 0,
    ensures
        module_at(modules, top, node) == (if 0 <= node[0] < top.instances.len() {
            match module_named(modules, top.instances[node[0]].module) {
                None => None,
                Some(inner) => module_at(modules, inner@, node.skip(1)),
            }
        } else {
            None
        }),
    decreases node.len(),
{
    if node.len() == 1 {
        assert(node.drop_last() =~= Seq::empty());
        assert(module_at(modules, top, node.drop_last()) == Some(top));
        assert(node.skip(1) =~= Seq::empty());
        assert(node.last() == node[0]);
    } else {
        module_inside(modules, top, node.drop_last());
        assert(node.drop_last()[0] == node[0]);
        assert(node.drop_last().skip(1) =~= node.skip(1).drop_last());
        assert(node.skip(1).last() == node.last());
    }
}

/// What holds of a module holds of its instances.
proof fn works_inside(modules: Seq<LogicalModule>, top: ModuleView, meaning: Meaning, values: Values, k: int)
    requires
        hierarchy_works(modules, top, meaning, values),
        0 <= k < top.instances.len(),
        module_named(modules, top.instances[k].module) is Some,
    ensures
        hierarchy_works(modules, module_named(modules, top.instances[k].module)->0@, meaning, inside(values, k)),
{
    let inner = module_named(modules, top.instances[k].module)->0@;
    assert forall|node: Seq<int>|
        (#[trigger] module_at(modules, inner, node)) matches Some(module) implies node_works(
        modules,
        module_at(modules, inner, node)->0,
        meaning,
        inside(values, k),
        node,
    ) by {
        let module = module_at(modules, inner, node)->0;
        let outer = seq![k] + node;
        module_inside(modules, top, outer);
        assert(outer.skip(1) =~= node);
        assert(module_at(modules, top, outer) == Some(module));
        assert(node_works(modules, module, meaning, values, outer));
        assert(at_node(inside(values, k), node) =~= at_node(values, outer));
        assert forall|i: int| 0 <= i < module.instances.len() implies instance_works(
            modules,
            #[trigger] module.instances[i],
            inside(values, k),
            node,
            i,
        ) by {
            assert(instance_works(modules, module.instances[i], values, outer, i));
            assert(seq![k] + node.push(i) =~= outer.push(i));
        }
    }
}

/// Values of a module made of those of its nets and of its instances.
spec fn joined(own: Nets, parts: spec_fn(int) -> Values) -> Values {
    |node: Seq<int>, net: Seq<char>|
        if node.len() == 0 {
            own(net)
        } else {
            parts(node[0])(node.skip(1), net)
        }
}

/// Whether the first `count` instances of a module work, each by itself.
spec fn parts_work(
    modules: Seq<LogicalModule>,
    module: ModuleView,
    meaning: Meaning,
    parts: spec_fn(int) -> Values,
    count: nat,
) -> bool {
    forall|k: int|
        #![trigger module.instances[k]]
        0 <= k < count ==> (module_named(modules, module.instances[k].module) matches Some(inner) && hierarchy_works(
            modules,
            inner@,
            meaning,
            parts(k),
        ))
}

/// Whether the ports of the first `count` instances carry what their nets do.
spec fn parts_tied(module: ModuleView, own: Nets, parts: spec_fn(int) -> Values, count: nat) -> bool {
    forall|k: int, port: Seq<char>, net: Seq<char>|
        0 <= k < count && #[trigger] ties(module.instances[k].bindings, port, net) ==> parts(k)(Seq::empty(), port)
            == own(net)
}

proof fn parts_make_a_whole(
    modules: Seq<LogicalModule>,
    module: ModuleView,
    meaning: Meaning,
    own: Nets,
    parts: spec_fn(int) -> Values,
)
    requires
        cells_work(meaning, module.cells, own),
        parts_work(modules, module, meaning, parts, module.instances.len()),
        parts_tied(module, own, parts, module.instances.len()),
    ensures
        hierarchy_works(modules, module, meaning, joined(own, parts)),
{
    let values = joined(own, parts);
    assert forall|node: Seq<int>|
        (#[trigger] module_at(modules, module, node)) matches Some(found) implies node_works(
        modules,
        module_at(modules, module, node)->0,
        meaning,
        values,
        node,
    ) by {
        let found = module_at(modules, module, node)->0;
        if node.len() == 0 {
            assert(at_node(values, node) =~= own);
            assert forall|k: int| 0 <= k < module.instances.len() implies instance_works(
                modules,
                #[trigger] module.instances[k],
                values,
                node,
                k,
            ) by {
                assert forall|port: Seq<char>, net: Seq<char>| #[trigger]
                    ties(module.instances[k].bindings, port, net) implies values(node.push(k), port) == values(
                    node,
                    net,
                ) by {
                    assert(node.push(k)[0] == k);
                    assert(node.push(k).skip(1) =~= Seq::empty());
                    assert(parts(k)(Seq::empty(), port) == own(net));
                }
            }
        } else {
            module_inside(modules, module, node);
            let k = node[0];
            let inner = module_named(modules, module.instances[k].module)->0@;
            let rest = node.skip(1);
            assert(module_at(modules, inner, rest) == Some(found));
            assert(hierarchy_works(modules, inner, meaning, parts(k)));
            assert(node_works(modules, found, meaning, parts(k), rest));
            assert(at_node(values, node) =~= at_node(parts(k), rest));
            assert forall|i: int| 0 <= i < found.instances.len() implies instance_works(
                modules,
                #[trigger] found.instances[i],
                values,
                node,
                i,
            ) by {
                assert(instance_works(modules, found.instances[i], parts(k), rest, i));
                assert(node.push(i)[0] == k);
                assert(node.push(i).skip(1) =~= rest.push(i));
            }
        }
    }
}

/// The last binding of a port is the one that counts.
proof fn last_is_bound(bindings: Seq<BindingView>, port: Seq<char>, b: int, count: nat)
    requires
        0 <= b < count <= bindings.len(),
        bindings[b].port == port,
        forall|later: int| b < later < count ==> (#[trigger] bindings[later]).port != port,
    ensures
        bound_to(bindings, port, count) == Some(bindings[b].net),
    decreases count,
{
    if b < count - 1 {
        assert(bindings[count - 1].port != port);
        last_is_bound(bindings, port, b, (count - 1) as nat);
    }
}

proof fn bound_is_last(bindings: Seq<BindingView>, port: Seq<char>, count: nat) -> (b: int)
    requires
        count <= bindings.len(),
        bound_to(bindings, port, count) is Some,
    ensures
        0 <= b < count,
        bindings[b].port == port,
        bound_to(bindings, port, count) == Some(bindings[b].net),
        forall|later: int| b < later < count ==> (#[trigger] bindings[later]).port != port,
    decreases count,
{
    if bindings[count - 1].port == port {
        count - 1
    } else {
        bound_is_last(bindings, port, (count - 1) as nat)
    }
}

/// What ties a port to a net of an instance ties it to what the net stands for.
proof fn tie_is_copied(
    scope: Scope,
    bindings: Seq<BindingView>,
    copies: Seq<BindingView>,
    port: Seq<char>,
    net: Seq<char>,
)
    requires
        bindings_stand(scope, bindings, copies, bindings.len()),
        ties(bindings, port, net),
    ensures
        bound_to(copies, port, copies.len()) is Some,
        bound_to(copies, port, copies.len()) == tied(scope, net),
{
    let b = choose|b: int|
        {
            &&& 0 <= b < bindings.len()
            &&& #[trigger] bindings[b] == (BindingView { port, net })
            &&& forall|later: int| b < later < bindings.len() ==> (#[trigger] bindings[later]).port != port
        };
    assert(copies[b].port == port);
    assert forall|later: int| b < later < copies.len() implies (#[trigger] copies[later]).port != port by {
        assert(bindings[later].port != port);
    }
    last_is_bound(copies, port, b, copies.len());
}

// ---------------------------------------------------------------------------
// What the flat module does, the hierarchy does
// ---------------------------------------------------------------------------
/// Whether cells from a place on work.
spec fn works_from(meaning: Meaning, cells: Seq<CellView>, start: int, nets: Nets) -> bool {
    forall|i: int| start <= i < cells.len() ==> cell_works(meaning, #[trigger] cells[i], nets)
}

/// What the local nets of an inlined module carry.
spec fn local_nets(scope: Scope, nets: Nets) -> Nets {
    |local: Seq<char>|
        match tied(scope, local) {
            Some(name) => nets(name),
            None => nets(local),
        }
}

proof fn inlined_module_works(
    modules: Seq<LogicalModule>,
    place: Place,
    bindings: Seq<BindingView>,
    flat: Flat,
    depth: nat,
    meaning: Meaning,
    nets: Nets,
) -> (values: Values)
    requires
        with_module(modules, place, bindings, flat, depth) matches Ok(after) && works_from(
            meaning,
            after.cells,
            flat.cells.len() as int,
            nets,
        ),
    ensures
        hierarchy_works(modules, place.module, meaning, values),
        forall|port: Seq<char>|
            (#[trigger] bound_to(bindings, port, bindings.len())) matches Some(name) ==> values(Seq::empty(), port)
                == nets(name),
    decreases depth, place.module.instances.len() + 1,
{
    let frame = Frame { scope: Scope { bindings, nets: flat.nets }, cells: flat.cells };
    let count = place.module.cells.len();
    let total = place.module.instances.len();
    let start = flat.cells.len() as int;
    let middle = with_cells(place, frame, count)->Ok_0;
    let after = with_instances(modules, place, middle, depth, total)->Ok_0;
    cells_are_copied(place, frame, count);
    instances_grow(modules, place, middle, depth, total);
    assert(forall|i: int| 0 <= i < middle.cells.len() ==> #[trigger] after.cells[i] == middle.cells[i]) by {
        assert(after.cells.take(middle.cells.len() as int) == middle.cells);
        assert forall|i: int| 0 <= i < middle.cells.len() implies #[trigger] after.cells[i] == middle.cells[i] by {
            assert(after.cells.take(middle.cells.len() as int)[i] == middle.cells[i]);
        }
    }
    let parts = inlined_instances_work(modules, place, middle, depth, total, meaning, nets);
    let own = local_nets(after.scope, nets);
    assert(carries(after.scope, own, nets));
    assert forall|i: int| 0 <= i < count implies cell_works(meaning, #[trigger] place.module.cells[i], own) by {
        let copy = middle.cells[start + i];
        assert(after.cells[start + i] == copy);
        assert(is_copy(middle.scope, place.module.cells[i], middle.cells[start + i]));
        copy_stays(middle.scope, after.scope, place.module.cells[i], copy);
        copy_works(meaning, after.scope, place.module.cells[i], copy, own, nets);
    }
    assert forall|k: int, port: Seq<char>, net: Seq<char>|
        0 <= k < total && #[trigger] ties(place.module.instances[k].bindings, port, net) implies parts(k)(
        Seq::empty(),
        port,
    ) == own(net) by {
        assert(tied(after.scope, net) is Some);
    }
    parts_make_a_whole(modules, place.module, meaning, own, parts);
    let values = joined(own, parts);
    assert forall|port: Seq<char>|
        (#[trigger] bound_to(bindings, port, bindings.len())) matches Some(name) implies values(Seq::empty(), port)
        == nets(bound_to(bindings, port, bindings.len())->0) by {
        assert(tied(frame.scope, port) is Some);
        assert(tied(middle.scope, port) == tied(frame.scope, port));
        assert(tied(after.scope, port) == tied(middle.scope, port));
    }
    values
}

proof fn inlined_instances_work(
    modules: Seq<LogicalModule>,
    place: Place,
    frame: Frame,
    depth: nat,
    count: nat,
    meaning: Meaning,
    nets: Nets,
) -> (parts: spec_fn(int) -> Values)
    requires
        depth > 0,
        count <= place.module.instances.len(),
        with_instances(modules, place, frame, depth, count) matches Ok(after) && works_from(
            meaning,
            after.cells,
            frame.cells.len() as int,
            nets,
        ),
    ensures
        keeps(frame.scope, with_instances(modules, place, frame, depth, count)->Ok_0.scope),
        parts_work(modules, place.module, meaning, parts, count),
        forall|k: int, port: Seq<char>, net: Seq<char>|
            0 <= k < count && #[trigger] ties(place.module.instances[k].bindings, port, net) ==> (tied(
                with_instances(modules, place, frame, depth, count)->Ok_0.scope,
                net,
            ) matches Some(name) && parts(k)(Seq::empty(), port) == nets(name)),
    decreases depth, count,
{
    if count == 0 {
        let parts = |k: int| |node: Seq<int>, net: Seq<char>| nets(net);
        parts
    } else {
        let before = with_instances(modules, place, frame, depth, (count - 1) as nat)->Ok_0;
        let after = with_instances(modules, place, frame, depth, count)->Ok_0;
        let instance = place.module.instances[count - 1];
        let inner = module_named(modules, instance.module)->0@;
        let (own, scope) = inlined_bindings(place, before.scope, instance.bindings, instance.bindings.len())->Ok_0;
        let spot = Place { module: inner, path: below(place.path, instance.name) };
        let flat = Flat { nets: scope.nets, cells: before.cells };
        instances_grow(modules, place, frame, depth, (count - 1) as nat);
        module_grows(modules, spot, own, flat, (depth - 1) as nat);
        assert(after.cells.take(before.cells.len() as int) == before.cells);
        assert(before.cells.len() >= frame.cells.len());
        assert forall|i: int| frame.cells.len() <= i < before.cells.len() implies cell_works(
            meaning,
            #[trigger] before.cells[i],
            nets,
        ) by {
            assert(after.cells.take(before.cells.len() as int)[i] == before.cells[i]);
            assert(cell_works(meaning, after.cells[i], nets));
        }
        let fewer = inlined_instances_work(modules, place, frame, depth, (count - 1) as nat, meaning, nets);
        bindings_are_copied(place, before.scope, instance.bindings, instance.bindings.len());
        let last = inlined_module_works(modules, spot, own, flat, (depth - 1) as nat, meaning, nets);
        let parts = |k: int|
            if k == count - 1 {
                last
            } else {
                fewer(k)
            };
        assert(after.scope.bindings == scope.bindings);
        assert forall|local: Seq<char>| #[trigger] tied(after.scope, local) == tied(scope, local) by {}
        assert forall|k: int|
            #![trigger place.module.instances[k]]
            0 <= k < count implies (module_named(modules, place.module.instances[k].module) matches Some(found)
            && hierarchy_works(modules, found@, meaning, parts(k))) by {
            if k < count - 1 {
                assert(parts(k) == fewer(k));
            }
        }
        assert forall|k: int, port: Seq<char>, net: Seq<char>|
            0 <= k < count && #[trigger] ties(place.module.instances[k].bindings, port, net) implies (tied(
            after.scope,
            net,
        ) matches Some(name) && parts(k)(Seq::empty(), port) == nets(name)) by {
            if k < count - 1 {
                assert(tied(before.scope, net) is Some);
                assert(tied(scope, net) == tied(before.scope, net));
            } else {
                tie_is_copied(scope, instance.bindings, own, port, net);
                assert(bound_to(own, port, own.len()) is Some);
            }
        }
        parts
    }
}

proof fn top_instances_work(
    modules: Seq<LogicalModule>,
    top: ModuleView,
    count: nat,
    meaning: Meaning,
    nets: Nets,
) -> (parts: spec_fn(int) -> Values)
    requires
        count <= top.instances.len(),
        flattened_instances(modules, top, count) matches Ok(flat) && cells_work(meaning, flat.cells, nets),
    ensures
        cells_work(meaning, top.cells, nets),
        parts_work(modules, top, meaning, parts, count),
        parts_tied(top, nets, parts, count),
    decreases count,
{
    if count == 0 {
        let parts = |k: int| |node: Seq<int>, net: Seq<char>| nets(net);
        parts
    } else {
        let before = flattened_instances(modules, top, (count - 1) as nat)->Ok_0;
        let after = flattened_instances(modules, top, count)->Ok_0;
        let instance = top.instances[count - 1];
        let inner = module_named(modules, instance.module)->0@;
        let spot = Place { module: inner, path: instance.name };
        module_grows(modules, spot, instance.bindings, before, modules.len());
        assert(after.cells.take(before.cells.len() as int) == before.cells);
        assert forall|i: int| 0 <= i < before.cells.len() implies cell_works(meaning, #[trigger] before.cells[i], nets) by {
            assert(after.cells.take(before.cells.len() as int)[i] == before.cells[i]);
            assert(cell_works(meaning, after.cells[i], nets));
        }
        let fewer = top_instances_work(modules, top, (count - 1) as nat, meaning, nets);
        let last = inlined_module_works(modules, spot, instance.bindings, before, modules.len(), meaning, nets);
        let parts = |k: int|
            if k == count - 1 {
                last
            } else {
                fewer(k)
            };
        assert forall|k: int|
            #![trigger top.instances[k]]
            0 <= k < count implies (module_named(modules, top.instances[k].module) matches Some(found)
            && hierarchy_works(modules, found@, meaning, parts(k))) by {
            if k < count - 1 {
                assert(parts(k) == fewer(k));
            }
        }
        assert forall|k: int, port: Seq<char>, net: Seq<char>|
            0 <= k < count && #[trigger] ties(top.instances[k].bindings, port, net) implies parts(k)(
            Seq::empty(),
            port,
        ) == nets(net) by {
            if k == count - 1 {
                let bindings = instance.bindings;
                let b = choose|b: int|
                    {
                        &&& 0 <= b < bindings.len()
                        &&& #[trigger] bindings[b] == (BindingView { port, net })
                        &&& forall|later: int| b < later < bindings.len() ==> (#[trigger] bindings[later]).port != port
                    };
                last_is_bound(bindings, port, b, bindings.len());
            } else {
                assert(parts(k) == fewer(k));
            }
        }
        parts
    }
}

/// What a flat module does, the hierarchy does that it was flattened from: wherever
/// all cells of the flat module have what they ask for, the nets of all instances can
/// carry something so that all cells of the hierarchy have what they ask for, every
/// port carries the same as the net that it is tied to, and the nets of the top module
/// carry the same as in the flat module.
pub proof fn flat_module_does_what_the_hierarchy_does(
    design: LogicalDesign,
    flat: LogicalDesign,
    meaning: Meaning,
    nets: Nets,
)
    requires
        is_inlined(design, Ok(flat)),
        cells_work(meaning, flat.modules@[0]@.cells, nets),
    ensures
        exists|top: ModuleView, values: Values|
            {
                &&& module_named(design.modules@, design.top@) matches Some(found) && found@ == top
                &&& #[trigger] hierarchy_works(design.modules@, top, meaning, values)
                &&& forall|net: Seq<char>| #[trigger] values(Seq::empty(), net) == nets(net)
                &&& flat.modules@[0]@.ports == top.ports
            },
{
    let top = module_named(design.modules@, design.top@)->0@;
    let parts = top_instances_work(design.modules@, top, top.instances.len(), meaning, nets);
    parts_make_a_whole(design.modules@, top, meaning, nets, parts);
    let values = joined(nets, parts);
    assert(hierarchy_works(design.modules@, top, meaning, values));
}

// ---------------------------------------------------------------------------
// What the hierarchy does, the flat module does
// ---------------------------------------------------------------------------
/// Whether nets that were there are still there and carry the same.
spec fn extends(before: Seq<NetView>, nets: Nets, after: Seq<NetView>, more: Nets) -> bool {
    forall|name: Seq<char>| #[trigger] has_net(before, name) ==> has_net(after, name) && more(name) == nets(name)
}

/// Whether local nets carry what the nets that they are tied to do, and those are there.
spec fn fits(scope: Scope, own: Nets, nets: Nets) -> bool {
    forall|local: Seq<char>|
        (#[trigger] tied(scope, local)) matches Some(name) ==> own(local) == nets(name) && has_net(scope.nets, name)
}

proof fn net_fits(place: Place, scope: Scope, local: Seq<char>, own: Nets, nets: Nets) -> (more: Nets)
    requires
        resolved(place, scope, local) is Ok,
        fits(scope, own, nets),
    ensures
        fits(resolved(place, scope, local)->Ok_0.1, own, more),
        extends(scope.nets, nets, resolved(place, scope, local)->Ok_0.1.nets, more),
{
    let (name, after) = resolved(place, scope, local)->Ok_0;
    untied_net_is_new(place, scope, local);
    net_stands(place, scope, local);
    if tied(scope, local) is Some {
        nets
    } else {
        let more = |other: Seq<char>|
            if other == name {
                own(local)
            } else {
                nets(other)
            };
        assert forall|other: Seq<char>| #[trigger] has_net(scope.nets, other) implies has_net(after.nets, other) && more(
            other,
        ) == nets(other) by {
            let i = choose|i: int| 0 <= i < scope.nets.len() && (#[trigger] scope.nets[i]).name == other;
            assert(after.nets[i] == scope.nets[i]);
        }
        assert(has_net(after.nets, name)) by {
            assert(after.nets[after.nets.len() - 1].name == name);
        }
        assert forall|other: Seq<char>|
            (#[trigger] tied(after, other)) matches Some(found) implies own(other) == more(
            tied(after, other)->0,
        ) && has_net(after.nets, tied(after, other)->0) by {
            let found = tied(after, other)->0;
            if other != local {
                bound_before(scope.bindings, after.bindings, other, scope.bindings.len());
                assert(tied(after, other) == tied(scope, other));
                assert(has_net(scope.nets, found));
            }
        }
        more
    }
}

proof fn inputs_fit(place: Place, scope: Scope, inputs: Seq<InputView>, count: nat, own: Nets, nets: Nets) -> (more: Nets)
    requires
        count <= inputs.len(),
        inlined_inputs(place, scope, inputs, count) is Ok,
        fits(scope, own, nets),
    ensures
        fits(inlined_inputs(place, scope, inputs, count)->Ok_0.1, own, more),
        extends(scope.nets, nets, inlined_inputs(place, scope, inputs, count)->Ok_0.1.nets, more),
    decreases count,
{
    if count == 0 {
        nets
    } else {
        let between = inputs_fit(place, scope, inputs, (count - 1) as nat, own, nets);
        let middle = inlined_inputs(place, scope, inputs, (count - 1) as nat)->Ok_0.1;
        match inputs[count - 1].value {
            ValueView::Net(net) => net_fits(place, middle, net, own, between),
            ValueView::Slice(net, _) => net_fits(place, middle, net, own, between),
            ValueView::Constant(_, _) => between,
        }
    }
}

proof fn outputs_fit(place: Place, scope: Scope, outputs: Seq<OutputView>, count: nat, own: Nets, nets: Nets) -> (more: Nets)
    requires
        count <= outputs.len(),
        inlined_outputs(place, scope, outputs, count) is Ok,
        fits(scope, own, nets),
    ensures
        fits(inlined_outputs(place, scope, outputs, count)->Ok_0.1, own, more),
        extends(scope.nets, nets, inlined_outputs(place, scope, outputs, count)->Ok_0.1.nets, more),
    decreases count,
{
    if count == 0 {
        nets
    } else {
        let between = outputs_fit(place, scope, outputs, (count - 1) as nat, own, nets);
        let middle = inlined_outputs(place, scope, outputs, (count - 1) as nat)->Ok_0.1;
        net_fits(place, middle, outputs[count - 1].net, own, between)
    }
}

proof fn bindings_fit(place: Place, scope: Scope, bindings: Seq<BindingView>, count: nat, own: Nets, nets: Nets) -> (more:
    Nets)
    requires
        count <= bindings.len(),
        inlined_bindings(place, scope, bindings, count) is Ok,
        fits(scope, own, nets),
    ensures
        fits(inlined_bindings(place, scope, bindings, count)->Ok_0.1, own, more),
        extends(scope.nets, nets, inlined_bindings(place, scope, bindings, count)->Ok_0.1.nets, more),
    decreases count,
{
    if count == 0 {
        nets
    } else {
        let between = bindings_fit(place, scope, bindings, (count - 1) as nat, own, nets);
        let middle = inlined_bindings(place, scope, bindings, (count - 1) as nat)->Ok_0.1;
        net_fits(place, middle, bindings[count - 1].net, own, between)
    }
}

proof fn cells_fit(place: Place, frame: Frame, count: nat, own: Nets, nets: Nets) -> (more: Nets)
    requires
        count <= place.module.cells.len(),
        with_cells(place, frame, count) is Ok,
        fits(frame.scope, own, nets),
    ensures
        fits(with_cells(place, frame, count)->Ok_0.scope, own, more),
        extends(frame.scope.nets, nets, with_cells(place, frame, count)->Ok_0.scope.nets, more),
    decreases count,
{
    if count == 0 {
        nets
    } else {
        let first = cells_fit(place, frame, (count - 1) as nat, own, nets);
        let before = with_cells(place, frame, (count - 1) as nat)->Ok_0;
        let cell = place.module.cells[count - 1];
        let middle = inlined_inputs(place, before.scope, cell.inputs, cell.inputs.len())->Ok_0.1;
        let second = inputs_fit(place, before.scope, cell.inputs, cell.inputs.len(), own, first);
        outputs_fit(place, middle, cell.outputs, cell.outputs.len(), own, second)
    }
}

/// Whether cells from a place on work, on nets that are there.
spec fn works_on(meaning: Meaning, cells: Seq<CellView>, start: int, list: Seq<NetView>, nets: Nets) -> bool {
    forall|i: int|
        start <= i < cells.len() ==> cell_works(meaning, #[trigger] cells[i], nets) && names_known(cells[i], list)
}

/// A cell goes on working where its nets carry the same.
proof fn cell_goes_on(meaning: Meaning, cell: CellView, before: Seq<NetView>, nets: Nets, after: Seq<NetView>, more: Nets)
    requires
        extends(before, nets, after, more),
        names_known(cell, before),
        cell_works(meaning, cell, nets),
    ensures
        names_known(cell, after),
        cell_works(meaning, cell, more),
{
    assert forall|i: int| 0 <= i < cell.inputs.len() implies #[trigger] read_pins(cell, nets)[i] == read_pins(cell, more)[i] by {
        match cell.inputs[i].value {
            ValueView::Net(net) => {
                assert(has_net(before, net));
            },
            ValueView::Slice(net, _) => {
                assert(has_net(before, net));
            },
            ValueView::Constant(_, _) => {},
        }
    }
    assert(read_pins(cell, nets) =~= read_pins(cell, more));
    assert forall|i: int| 0 <= i < cell.outputs.len() implies #[trigger] driven_pins(cell, nets)[i] == driven_pins(cell, more)[i] by {
        assert(has_net(before, cell.outputs[i].net));
    }
    assert(driven_pins(cell, nets) =~= driven_pins(cell, more));
}

proof fn copy_is_known(scope: Scope, cell: CellView, copy: CellView, own: Nets, nets: Nets)
    requires
        is_copy(scope, cell, copy),
        fits(scope, own, nets),
    ensures
        names_known(copy, scope.nets),
{
    assert forall|i: int| 0 <= i < copy.inputs.len() implies match (#[trigger] copy.inputs[i]).value {
        ValueView::Net(net) => has_net(scope.nets, net),
        ValueView::Slice(net, _) => has_net(scope.nets, net),
        ValueView::Constant(_, _) => true,
    } by {
        assert(stands_for(scope, cell.inputs[i].value, copy.inputs[i].value));
        match cell.inputs[i].value {
            ValueView::Net(net) => {
                assert(tied(scope, net) is Some);
            },
            ValueView::Slice(net, _) => {
                assert(tied(scope, net) is Some);
            },
            ValueView::Constant(_, _) => {},
        }
    }
    assert forall|i: int| 0 <= i < copy.outputs.len() implies has_net(scope.nets, (#[trigger] copy.outputs[i]).net) by {
        assert(tied(scope, cell.outputs[i].net) == Some(copy.outputs[i].net));
    }
}

proof fn hierarchy_is_inlined(
    modules: Seq<LogicalModule>,
    place: Place,
    bindings: Seq<BindingView>,
    flat: Flat,
    depth: nat,
    meaning: Meaning,
    values: Values,
    nets: Nets,
) -> (more: Nets)
    requires
        with_module(modules, place, bindings, flat, depth) is Ok,
        hierarchy_works(modules, place.module, meaning, values),
        forall|port: Seq<char>|
            (#[trigger] bound_to(bindings, port, bindings.len())) matches Some(name) ==> values(Seq::empty(), port)
                == nets(name) && has_net(flat.nets, name),
    ensures
        ({
            let after = with_module(modules, place, bindings, flat, depth)->Ok_0;
            &&& extends(flat.nets, nets, after.nets, more)
            &&& works_on(meaning, after.cells, flat.cells.len() as int, after.nets, more)
        }),
    decreases depth, place.module.instances.len() + 1,
{
    let frame = Frame { scope: Scope { bindings, nets: flat.nets }, cells: flat.cells };
    let count = place.module.cells.len();
    let total = place.module.instances.len();
    let start = flat.cells.len() as int;
    let own = at_node(values, Seq::empty());
    assert(fits(frame.scope, own, nets)) by {
        assert forall|local: Seq<char>|
            (#[trigger] tied(frame.scope, local)) matches Some(name) implies own(local) == nets(
            tied(frame.scope, local)->0,
        ) && has_net(frame.scope.nets, tied(frame.scope, local)->0) by {
            assert(bound_to(bindings, local, bindings.len()) is Some);
        }
    }
    let middle = with_cells(place, frame, count)->Ok_0;
    let first = cells_fit(place, frame, count, own, nets);
    cells_are_copied(place, frame, count);
    assert(module_at(modules, place.module, Seq::empty()) == Some(place.module));
    assert(node_works(modules, place.module, meaning, values, Seq::empty()));
    assert(carries(middle.scope, own, first));
    assert forall|i: int| start <= i < middle.cells.len() implies cell_works(meaning, #[trigger] middle.cells[i], first)
        && names_known(middle.cells[i], middle.scope.nets) by {
        let at = i - start;
        assert(is_copy(middle.scope, place.module.cells[at], middle.cells[start + at]));
        copy_works(meaning, middle.scope, place.module.cells[at], middle.cells[i], own, first);
        assert(cell_works(meaning, place.module.cells[at], own));
        copy_is_known(middle.scope, place.module.cells[at], middle.cells[i], own, first);
    }
    let after = with_instances(modules, place, middle, depth, total)->Ok_0;
    let second = instances_are_inlined(modules, place, middle, depth, total, meaning, values, first);
    instances_grow(modules, place, middle, depth, total);
    assert forall|i: int| start <= i < after.cells.len() implies cell_works(meaning, #[trigger] after.cells[i], second)
        && names_known(after.cells[i], after.scope.nets) by {
        if i < middle.cells.len() {
            assert(after.cells.take(middle.cells.len() as int)[i] == middle.cells[i]);
            cell_goes_on(meaning, middle.cells[i], middle.scope.nets, first, after.scope.nets, second);
        }
    }
    second
}

proof fn instances_are_inlined(
    modules: Seq<LogicalModule>,
    place: Place,
    frame: Frame,
    depth: nat,
    count: nat,
    meaning: Meaning,
    values: Values,
    nets: Nets,
) -> (more: Nets)
    requires
        depth > 0,
        count <= place.module.instances.len(),
        with_instances(modules, place, frame, depth, count) is Ok,
        hierarchy_works(modules, place.module, meaning, values),
        fits(frame.scope, at_node(values, Seq::empty()), nets),
    ensures
        ({
            let after = with_instances(modules, place, frame, depth, count)->Ok_0;
            &&& fits(after.scope, at_node(values, Seq::empty()), more)
            &&& extends(frame.scope.nets, nets, after.scope.nets, more)
            &&& works_on(meaning, after.cells, frame.cells.len() as int, after.scope.nets, more)
        }),
    decreases depth, count,
{
    if count == 0 {
        nets
    } else {
        let own = at_node(values, Seq::empty());
        let before = with_instances(modules, place, frame, depth, (count - 1) as nat)->Ok_0;
        let after = with_instances(modules, place, frame, depth, count)->Ok_0;
        let first = instances_are_inlined(modules, place, frame, depth, (count - 1) as nat, meaning, values, nets);
        let k = count - 1;
        let instance = place.module.instances[k];
        let inner = module_named(modules, instance.module)->0@;
        let (copies, scope) = inlined_bindings(place, before.scope, instance.bindings, instance.bindings.len())->Ok_0;
        let second = bindings_fit(place, before.scope, instance.bindings, instance.bindings.len(), own, first);
        bindings_are_copied(place, before.scope, instance.bindings, instance.bindings.len());
        let spot = Place { module: inner, path: below(place.path, instance.name) };
        let flat = Flat { nets: scope.nets, cells: before.cells };
        let child = inside(values, k);
        works_inside(modules, place.module, meaning, values, k);
        assert(module_at(modules, place.module, Seq::empty()) == Some(place.module));
        assert(node_works(modules, place.module, meaning, values, Seq::empty()));
        assert(instance_works(modules, place.module.instances[k], values, Seq::empty(), k));
        assert forall|port: Seq<char>|
            (#[trigger] bound_to(copies, port, copies.len())) matches Some(name) implies child(Seq::empty(), port)
            == second(bound_to(copies, port, copies.len())->0) && has_net(
            flat.nets,
            bound_to(copies, port, copies.len())->0,
        ) by {
            let b = bound_is_last(copies, port, copies.len());
            let net = instance.bindings[b].net;
            assert(instance.bindings[b].port == port);
            assert(instance.bindings[b] == (BindingView { port, net }));
            assert forall|later: int| b < later < instance.bindings.len() implies (
            #[trigger] instance.bindings[later]).port != port by {
                assert(copies[later].port != port);
            }
            assert(ties(instance.bindings, port, net));
            assert(values(Seq::<int>::empty().push(k), port) == values(Seq::empty(), net));
            assert(seq![k] + Seq::<int>::empty() =~= Seq::<int>::empty().push(k));
            assert(tied(scope, net) == Some(copies[b].net));
        }
        let third = hierarchy_is_inlined(modules, spot, copies, flat, (depth - 1) as nat, meaning, child, second);
        instances_grow(modules, place, frame, depth, (count - 1) as nat);
        module_grows(modules, spot, copies, flat, (depth - 1) as nat);
        assert forall|local: Seq<char>|
            (#[trigger] tied(after.scope, local)) matches Some(name) implies own(local) == third(
            tied(after.scope, local)->0,
        ) && has_net(after.scope.nets, tied(after.scope, local)->0) by {
            assert(tied(scope, local) == tied(after.scope, local));
            assert(has_net(scope.nets, tied(scope, local)->0));
        }
        assert forall|i: int| frame.cells.len() <= i < after.cells.len() implies cell_works(
            meaning,
            #[trigger] after.cells[i],
            third,
        ) && names_known(after.cells[i], after.scope.nets) by {
            if i < before.cells.len() {
                assert(after.cells.take(before.cells.len() as int)[i] == before.cells[i]);
                cell_goes_on(meaning, before.cells[i], before.scope.nets, first, scope.nets, second);
                cell_goes_on(meaning, before.cells[i], scope.nets, second, after.scope.nets, third);
            }
        }
        third
    }
}

proof fn top_is_inlined(
    modules: Seq<LogicalModule>,
    top: ModuleView,
    count: nat,
    meaning: Meaning,
    values: Values,
) -> (nets: Nets)
    requires
        count <= top.instances.len(),
        flattened_instances(modules, top, count) is Ok,
        hierarchy_works(modules, top, meaning, values),
        declares_its_nets(top),
    ensures
        ({
            let flat = flattened_instances(modules, top, count)->Ok_0;
            &&& extends(top.nets, at_node(values, Seq::empty()), flat.nets, nets)
            &&& works_on(meaning, flat.cells, 0, flat.nets, nets)
        }),
    decreases count,
{
    let own = at_node(values, Seq::empty());
    assert(module_at(modules, top, Seq::empty()) == Some(top));
    assert(node_works(modules, top, meaning, values, Seq::empty()));
    if count == 0 {
        own
    } else {
        let first = top_is_inlined(modules, top, (count - 1) as nat, meaning, values);
        let before = flattened_instances(modules, top, (count - 1) as nat)->Ok_0;
        let after = flattened_instances(modules, top, count)->Ok_0;
        let k = count - 1;
        let instance = top.instances[k];
        let inner = module_named(modules, instance.module)->0@;
        let spot = Place { module: inner, path: instance.name };
        let child = inside(values, k);
        works_inside(modules, top, meaning, values, k);
        assert(instance_works(modules, top.instances[k], values, Seq::empty(), k));
        assert forall|port: Seq<char>|
            (#[trigger] bound_to(instance.bindings, port, instance.bindings.len())) matches Some(name) implies child(
            Seq::empty(),
            port,
        ) == first(bound_to(instance.bindings, port, instance.bindings.len())->0) && has_net(
            before.nets,
            bound_to(instance.bindings, port, instance.bindings.len())->0,
        ) by {
            let b = bound_is_last(instance.bindings, port, instance.bindings.len());
            let net = top.instances[k].bindings[b].net;
            assert(instance.bindings[b] == (BindingView { port, net }));
            assert(ties(instance.bindings, port, net));
            assert(values(Seq::<int>::empty().push(k), port) == values(Seq::empty(), net));
            assert(seq![k] + Seq::<int>::empty() =~= Seq::<int>::empty().push(k));
            assert(has_net(top.nets, net));
        }
        let second = hierarchy_is_inlined(
            modules,
            spot,
            instance.bindings,
            before,
            modules.len(),
            meaning,
            child,
            first,
        );
        module_grows(modules, spot, instance.bindings, before, modules.len());
        assert forall|i: int| 0 <= i < after.cells.len() implies cell_works(meaning, #[trigger] after.cells[i], second)
            && names_known(after.cells[i], after.nets) by {
            if i < before.cells.len() {
                assert(after.cells.take(before.cells.len() as int)[i] == before.cells[i]);
                cell_goes_on(meaning, before.cells[i], before.nets, first, after.nets, second);
            }
        }
        second
    }
}

/// What a hierarchy does, the flat module does that it is flattened into: wherever all
/// cells of the hierarchy have what they ask for and every port carries the same as the
/// net that it is tied to, the nets of the flat module can carry something so that all
/// its cells have what they ask for, and those of the top module carry the same.
pub proof fn hierarchy_does_what_the_flat_module_does(
    design: LogicalDesign,
    flat: LogicalDesign,
    top: LogicalModule,
    meaning: Meaning,
    values: Values,
)
    requires
        is_inlined(design, Ok(flat)),
        module_named(design.modules@, design.top@) == Some(top),
        declares_its_nets(top@),
        hierarchy_works(design.modules@, top@, meaning, values),
    ensures
        exists|nets: Nets|
            {
                &&& #[trigger] cells_work(meaning, flat.modules@[0]@.cells, nets)
                &&& forall|net: Seq<char>| #[trigger]
                    has_net(top@.nets, net) ==> nets(net) == values(Seq::empty(), net)
            },
{
    let nets = top_is_inlined(design.modules@, top@, top@.instances.len(), meaning, values);
    assert(cells_work(meaning, flat.modules@[0]@.cells, nets));
}

// ---------------------------------------------------------------------------
// Nets that are added
// ---------------------------------------------------------------------------
/// Whether a net is a copy of net `j` of a module: as wide as that, and said to come
/// from it.
pub open spec fn is_net_copy(module: ModuleView, j: int, net: NetView) -> bool {
    &&& 0 <= j < module.nets.len()
    &&& net.width == module.nets[j].width
    &&& exists|path: Seq<char>| net.origin == Some(#[trigger] origin_text(path, module.nets[j].name))
    &&& forall|earlier: int| 0 <= earlier < j ==> (#[trigger] module.nets[earlier]).name != module.nets[j].name
}

/// What is said of where a net of an inlined module comes from.
pub open spec fn origin_text(path: Seq<char>, local: Seq<char>) -> Seq<char> {
    "flattened."@ + path + ("."@ + local)
}

/// Whether a net is a copy of a net of an instance of a module, or of the module.
pub open spec fn is_copied(modules: Seq<LogicalModule>, top: ModuleView, net: NetView) -> bool {
    exists|node: Seq<int>, j: int|
        module_at(modules, top, node) is Some && #[trigger] is_net_copy(module_at(modules, top, node)->0, j, net)
}

/// Whether nets begin with others, and each that follows is a copy of a net of a module
/// or of an instance of it.
spec fn adds_copies(modules: Seq<LogicalModule>, top: ModuleView, before: Seq<NetView>, after: Seq<NetView>) -> bool {
    &&& before.len() <= after.len()
    &&& forall|i: int| 0 <= i < before.len() ==> #[trigger] after[i] == before[i]
    &&& forall|i: int| before.len() <= i < after.len() ==> is_copied(modules, top, #[trigger] after[i])
}

proof fn copies_go_on(
    modules: Seq<LogicalModule>,
    top: ModuleView,
    first: Seq<NetView>,
    second: Seq<NetView>,
    third: Seq<NetView>,
)
    requires
        adds_copies(modules, top, first, second),
        adds_copies(modules, top, second, third),
    ensures
        adds_copies(modules, top, first, third),
{
    assert forall|i: int| 0 <= i < first.len() implies #[trigger] third[i] == first[i] by {
        assert(second[i] == first[i]);
    }
    assert forall|i: int| first.len() <= i < third.len() implies is_copied(modules, top, #[trigger] third[i]) by {
        if i < second.len() {
            assert(third[i] == second[i]);
        }
    }
}

proof fn width_is_found(nets: Seq<NetView>, name: Seq<char>, start: nat) -> (j: int)
    requires
        width_from(nets, name, start) is Some,
        forall|earlier: int| 0 <= earlier < start ==> (#[trigger] nets[earlier]).name != name,
    ensures
        0 <= j < nets.len(),
        nets[j].name == name,
        nets[j].width == width_from(nets, name, start)->0,
        forall|earlier: int| 0 <= earlier < j ==> (#[trigger] nets[earlier]).name != name,
    decreases nets.len() - start,
{
    if nets[start as int].name == name {
        start as int
    } else {
        width_is_found(nets, name, start + 1)
    }
}

proof fn net_adds_copy(modules: Seq<LogicalModule>, place: Place, scope: Scope, local: Seq<char>)
    requires
        resolved(place, scope, local) is Ok,
    ensures
        adds_copies(modules, place.module, scope.nets, resolved(place, scope, local)->Ok_0.1.nets),
{
    let after = resolved(place, scope, local)->Ok_0.1;
    if tied(scope, local) is None {
        let net = after.nets[scope.nets.len() as int];
        let j = width_is_found(place.module.nets, local, 0);
        assert(net.origin == Some(origin_text(place.path, local)));
        assert(is_net_copy(place.module, j, net));
        assert(module_at(modules, place.module, Seq::empty()) == Some(place.module));
        assert(is_net_copy(module_at(modules, place.module, Seq::empty())->0, j, net));
        assert(is_copied(modules, place.module, net));
    }
}

proof fn inputs_add_copies(modules: Seq<LogicalModule>, place: Place, scope: Scope, inputs: Seq<InputView>, count: nat)
    requires
        count <= inputs.len(),
        inlined_inputs(place, scope, inputs, count) is Ok,
    ensures
        adds_copies(modules, place.module, scope.nets, inlined_inputs(place, scope, inputs, count)->Ok_0.1.nets),
    decreases count,
{
    if count > 0 {
        inputs_add_copies(modules, place, scope, inputs, (count - 1) as nat);
        let middle = inlined_inputs(place, scope, inputs, (count - 1) as nat)->Ok_0.1;
        let after = inlined_inputs(place, scope, inputs, count)->Ok_0.1;
        match inputs[count - 1].value {
            ValueView::Net(net) => {
                net_adds_copy(modules, place, middle, net);
            },
            ValueView::Slice(net, _) => {
                net_adds_copy(modules, place, middle, net);
            },
            ValueView::Constant(_, _) => {},
        }
        copies_go_on(modules, place.module, scope.nets, middle.nets, after.nets);
    }
}

proof fn outputs_add_copies(modules: Seq<LogicalModule>, place: Place, scope: Scope, outputs: Seq<OutputView>, count: nat)
    requires
        count <= outputs.len(),
        inlined_outputs(place, scope, outputs, count) is Ok,
    ensures
        adds_copies(modules, place.module, scope.nets, inlined_outputs(place, scope, outputs, count)->Ok_0.1.nets),
    decreases count,
{
    if count > 0 {
        outputs_add_copies(modules, place, scope, outputs, (count - 1) as nat);
        let middle = inlined_outputs(place, scope, outputs, (count - 1) as nat)->Ok_0.1;
        let after = inlined_outputs(place, scope, outputs, count)->Ok_0.1;
        net_adds_copy(modules, place, middle, outputs[count - 1].net);
        copies_go_on(modules, place.module, scope.nets, middle.nets, after.nets);
    }
}

proof fn bindings_add_copies(
    modules: Seq<LogicalModule>,
    place: Place,
    scope: Scope,
    bindings: Seq<BindingView>,
    count: nat,
)
    requires
        count <= bindings.len(),
        inlined_bindings(place, scope, bindings, count) is Ok,
    ensures
        adds_copies(modules, place.module, scope.nets, inlined_bindings(place, scope, bindings, count)->Ok_0.1.nets),
    decreases count,
{
    if count > 0 {
        bindings_add_copies(modules, place, scope, bindings, (count - 1) as nat);
        let middle = inlined_bindings(place, scope, bindings, (count - 1) as nat)->Ok_0.1;
        let after = inlined_bindings(place, scope, bindings, count)->Ok_0.1;
        net_adds_copy(modules, place, middle, bindings[count - 1].net);
        copies_go_on(modules, place.module, scope.nets, middle.nets, after.nets);
    }
}

proof fn cells_add_copies(modules: Seq<LogicalModule>, place: Place, frame: Frame, count: nat)
    requires
        count <= place.module.cells.len(),
        with_cells(place, frame, count) is Ok,
    ensures
        adds_copies(modules, place.module, frame.scope.nets, with_cells(place, frame, count)->Ok_0.scope.nets),
    decreases count,
{
    if count > 0 {
        cells_add_copies(modules, place, frame, (count - 1) as nat);
        let before = with_cells(place, frame, (count - 1) as nat)->Ok_0;
        let after = with_cells(place, frame, count)->Ok_0;
        let cell = place.module.cells[count - 1];
        let middle = inlined_inputs(place, before.scope, cell.inputs, cell.inputs.len())->Ok_0.1;
        inputs_add_copies(modules, place, before.scope, cell.inputs, cell.inputs.len());
        outputs_add_copies(modules, place, middle, cell.outputs, cell.outputs.len());
        copies_go_on(modules, place.module, before.scope.nets, middle.nets, after.scope.nets);
        copies_go_on(modules, place.module, frame.scope.nets, before.scope.nets, after.scope.nets);
    }
}

/// Copies of nets of an instance are copies of nets of an instance of the module that
/// holds it.
proof fn copies_inside(modules: Seq<LogicalModule>, top: ModuleView, k: int, before: Seq<NetView>, after: Seq<NetView>)
    requires
        0 <= k < top.instances.len(),
        module_named(modules, top.instances[k].module) is Some,
        adds_copies(modules, module_named(modules, top.instances[k].module)->0@, before, after),
    ensures
        adds_copies(modules, top, before, after),
{
    let inner = module_named(modules, top.instances[k].module)->0@;
    assert forall|i: int| before.len() <= i < after.len() implies is_copied(modules, top, #[trigger] after[i]) by {
        assert(is_copied(modules, inner, after[i]));
        let (node, j) = choose|node: Seq<int>, j: int|
            module_at(modules, inner, node) is Some && #[trigger] is_net_copy(
                module_at(modules, inner, node)->0,
                j,
                after[i],
            );
        let outer = seq![k] + node;
        module_inside(modules, top, outer);
        assert(outer.skip(1) =~= node);
        assert(module_at(modules, top, outer) == module_at(modules, inner, node));
        assert(is_net_copy(module_at(modules, top, outer)->0, j, after[i]));
    }
}

proof fn module_adds_copies(
    modules: Seq<LogicalModule>,
    place: Place,
    bindings: Seq<BindingView>,
    flat: Flat,
    depth: nat,
)
    requires
        with_module(modules, place, bindings, flat, depth) is Ok,
    ensures
        adds_copies(
            modules,
            place.module,
            flat.nets,
            with_module(modules, place, bindings, flat, depth)->Ok_0.nets,
        ),
    decreases depth, place.module.instances.len() + 1,
{
    let frame = Frame { scope: Scope { bindings, nets: flat.nets }, cells: flat.cells };
    let middle = with_cells(place, frame, place.module.cells.len())->Ok_0;
    let total = place.module.instances.len();
    let after = with_instances(modules, place, middle, depth, total)->Ok_0;
    cells_add_copies(modules, place, frame, place.module.cells.len());
    instances_add_copies(modules, place, middle, depth, total);
    copies_go_on(modules, place.module, flat.nets, middle.scope.nets, after.scope.nets);
}

proof fn instances_add_copies(modules: Seq<LogicalModule>, place: Place, frame: Frame, depth: nat, count: nat)
    requires
        depth > 0,
        count <= place.module.instances.len(),
        with_instances(modules, place, frame, depth, count) is Ok,
    ensures
        adds_copies(
            modules,
            place.module,
            frame.scope.nets,
            with_instances(modules, place, frame, depth, count)->Ok_0.scope.nets,
        ),
    decreases depth, count,
{
    if count > 0 {
        instances_add_copies(modules, place, frame, depth, (count - 1) as nat);
        let before = with_instances(modules, place, frame, depth, (count - 1) as nat)->Ok_0;
        let after = with_instances(modules, place, frame, depth, count)->Ok_0;
        let instance = place.module.instances[count - 1];
        let inner = module_named(modules, instance.module)->0@;
        let (own, scope) = inlined_bindings(place, before.scope, instance.bindings, instance.bindings.len())->Ok_0;
        let spot = Place { module: inner, path: below(place.path, instance.name) };
        let flat = Flat { nets: scope.nets, cells: before.cells };
        bindings_add_copies(modules, place, before.scope, instance.bindings, instance.bindings.len());
        module_adds_copies(modules, spot, own, flat, (depth - 1) as nat);
        copies_inside(modules, place.module, count - 1, scope.nets, after.scope.nets);
        copies_go_on(modules, place.module, before.scope.nets, scope.nets, after.scope.nets);
        copies_go_on(modules, place.module, frame.scope.nets, before.scope.nets, after.scope.nets);
    }
}

proof fn top_adds_copies(modules: Seq<LogicalModule>, top: ModuleView, count: nat)
    requires
        count <= top.instances.len(),
        flattened_instances(modules, top, count) is Ok,
    ensures
        adds_copies(modules, top, top.nets, flattened_instances(modules, top, count)->Ok_0.nets),
    decreases count,
{
    if count > 0 {
        top_adds_copies(modules, top, (count - 1) as nat);
        let before = flattened_instances(modules, top, (count - 1) as nat)->Ok_0;
        let after = flattened_instances(modules, top, count)->Ok_0;
        let instance = top.instances[count - 1];
        let inner = module_named(modules, instance.module)->0@;
        let spot = Place { module: inner, path: instance.name };
        module_adds_copies(modules, spot, instance.bindings, before, modules.len());
        copies_inside(modules, top, count - 1, before.nets, after.nets);
        copies_go_on(modules, top, top.nets, before.nets, after.nets);
    }
}

/// The nets of a flat module are those of the top module, and behind them copies of nets
/// of its instances, each as wide as the net that it is a copy of.
pub proof fn flat_nets_are_as_wide_as_before(design: LogicalDesign, flat: LogicalDesign, i: int)
    requires
        is_inlined(design, Ok(flat)),
        0 <= i < flat.modules@[0]@.nets.len(),
    ensures
        ({
            let top = module_named(design.modules@, design.top@)->0@;
            let nets = flat.modules@[0]@.nets;
            if i < top.nets.len() {
                nets[i] == top.nets[i]
            } else {
                is_copied(design.modules@, top, nets[i])
            }
        }),
{
    let top = module_named(design.modules@, design.top@)->0@;
    top_adds_copies(design.modules@, top, top.instances.len());
}

} // verus!
