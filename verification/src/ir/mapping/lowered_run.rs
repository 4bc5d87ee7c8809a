//! What a lowered module does: in every run of the design, its outputs carry and its
//! state stores what the cells of the module give them.

use super::cell_laws::{cell_computes, cells_compute_their_kind, net_bit, number_bit, Scalars};
use super::combinational::{constant_bit, pin_check};
use super::cone::{cell_holds, cell_pins, cone_inv, drives, pins_ready, reads_name};
use super::emitter::{boundary_of, is_clean_from, is_cone_cell, logic_cells};
use super::error::LowerError;
use super::flat::{
    is_composite_of, is_input_bit, is_module_cone, is_port_bit, leaf_reads, output_driven, output_driver,
    LEAF_NODE_BUDGET,
};
use super::leaf_run::{
    boundary_at, cone_has_values, cone_values, is_fed, outputs_are_plain, wired_leaves_compute_their_cone,
};
use super::nets::connects;
use super::next_state::{
    data_roots, is_data_node, is_next_cone, is_next_leaf, next_outputs, next_port, next_source, NextLeaf,
};
use super::partition::{is_bounded_partition, is_limited_cut, is_partition, leaves_fit, pieces_sized, PartitionedLeaf, Plan};
use super::partition_laws::ports_are_free;
use super::scalar::{builder_wf, net_widths, scalar_text, BuilderView};
use super::sequential::{
    all_leaves, all_links, is_output_wire, is_requested_output, is_state_design, next_modules, output_roots,
    state_links, wire_links, StateParts,
};
use super::state_laws::{
    all_run, at_end, control_bits, follows, leaf_runs, lowered_state_follows_its_control, nets_run, stored_end, Bits, Run,
};
use super::state_plan::{
    bit_elements, element_text, elements_of, live_cells, scalar_driver, state_bit, state_data, state_net, Link,
};
use super::wiring::{input_links, leaf_links, leaf_source, source_driver};
use crate::graph::{consistent, node_holds, values_at, GraphNode, KindView, NodeView};
use crate::ir::logical::{
    kind_is_sequential, pin_net, pin_value, CellView, LogicalPortDirection, ModuleView, ValueView,
};
use crate::ir::routable::{
    module_views, EndpointView, RoutableDesign, RoutableModuleView, RoutableNetView,
};
use crate::ir::target::{MappingPolicy, TargetView};
use crate::text::{decimal, decimal_injective};
use vstd::prelude::*;

verus! {

// ---------------------------------------------------------------------------
// What logic gives
// ---------------------------------------------------------------------------
/// Whether some cells of a module give scalar nets what they carry: each of `known`
/// comes from outside, with what arrives there, or is a bit of the net of one of the
/// cells; the cells compute what their kinds say, of nets that are known.
pub open spec fn logic_settles(
    module: ModuleView,
    outside: spec_fn(Seq<char>) -> bool,
    arrives: Scalars,
    known: Set<Seq<char>>,
    working: Set<int>,
    scalars: Scalars,
) -> bool {
    let widths = net_widths(module.nets);
    &&& forall|name: Seq<char>| #[trigger]
        known.contains(name) ==> {
            ||| outside(name) && scalars(name) == arrives(name)
            ||| exists|i: int| working.contains(i) && #[trigger] drives(module.cells[i], widths, name)
        }
    &&& forall|i: int| #[trigger]
        working.contains(i) ==> {
            &&& 0 <= i < module.cells.len()
            &&& !kind_is_sequential(module.cells[i].kind)
            &&& module.cells[i].outputs.len() > 0
            &&& cell_computes(module.cells[i], widths, scalars)
        }
    &&& forall|i: int, place: int, bit: nat, name: Seq<char>|
        working.contains(i) && 0 <= place < cell_pins(module.cells[i].kind).len() && #[trigger] reads_name(
            module.cells[i],
            cell_pins(module.cells[i].kind)[place],
            widths,
            bit,
            name,
        ) ==> known.contains(name)
}

/// Whether a bit is what a value of a module reads, where logic has settled on what
/// arrives from outside.
pub open spec fn is_logic_value(
    module: ModuleView,
    outside: spec_fn(Seq<char>) -> bool,
    arrives: Scalars,
    value: ValueView,
    bit: nat,
    shown: bool,
) -> bool {
    let widths = net_widths(module.nets);
    match value {
        ValueView::Constant(number, width) => shown == number_bit(number as nat, width as nat, bit),
        ValueView::Net(net) => exists|known: Set<Seq<char>>, working: Set<int>, scalars: Scalars|
            {
                &&& #[trigger] logic_settles(module, outside, arrives, known, working, scalars)
                &&& known.contains(scalar_text(net, widths[net], bit))
                &&& shown == net_bit(widths, scalars, net, bit)
            },
        ValueView::Slice(net, slice) => exists|known: Set<Seq<char>>, working: Set<int>, scalars: Scalars|
            {
                &&& #[trigger] logic_settles(module, outside, arrives, known, working, scalars)
                &&& known.contains(scalar_text(net, widths[net], slice as nat))
                &&& shown == net_bit(widths, scalars, net, slice as nat)
            },
    }
}

/// What the producers of a cone carry.
pub open spec fn cone_scalars(cone: BuilderView, v: spec_fn(int) -> bool) -> Scalars {
    |name: Seq<char>| v(cone.producers[name] as int)
}

/// The cells of a cone settle.
proof fn cone_settles(
    module: ModuleView,
    cells: Seq<CellView>,
    boundary: spec_fn(Seq<char>) -> bool,
    cone: BuilderView,
    emitted: Set<int>,
    env: Scalars,
    v: spec_fn(int) -> bool,
)
    requires
        builder_wf(cone),
        cone_inv(cells, net_widths(module.nets), boundary, cone, emitted),
        consistent(cone.nodes, env, v),
        forall|i: int| #[trigger]
            emitted.contains(i) ==> 0 <= i < module.cells.len() && cells[i] == module.cells[i] && !kind_is_sequential(
                module.cells[i].kind,
            ),
    ensures
        logic_settles(module, boundary, env, cone.producers.dom(), emitted, cone_scalars(cone, v)),
{
    let widths = net_widths(module.nets);
    let known = cone.producers.dom();
    let scalars = cone_scalars(cone, v);
    assert forall|name: Seq<char>| #[trigger] known.contains(name) implies {
        ||| boundary(name) && scalars(name) == env(name)
        ||| exists|i: int| emitted.contains(i) && #[trigger] drives(module.cells[i], widths, name)
    } by {
        assert(cone.producers.contains_key(name));
        if exists|i: int| emitted.contains(i) && #[trigger] drives(cells[i], widths, name) {
            let i = choose|i: int| emitted.contains(i) && #[trigger] drives(cells[i], widths, name);
            assert(drives(module.cells[i], widths, name));
        } else {
            let id = cone.producers[name] as int;
            assert(cone.producers[name] < cone.nodes.len());
            assert(node_holds(cone.nodes[id], id, env, v));
        }
    }
    assert forall|i: int| #[trigger] emitted.contains(i) implies {
        &&& 0 <= i < module.cells.len()
        &&& !kind_is_sequential(module.cells[i].kind)
        &&& module.cells[i].outputs.len() > 0
        &&& cell_computes(module.cells[i], widths, scalars)
    } by {
        cells_compute_their_kind(module.cells[i], widths, cone, env, v);
        assert((|name: Seq<char>| v(cone.producers[name] as int)) =~= scalars);
    }
    assert forall|i: int, place: int, bit: nat, name: Seq<char>|
        emitted.contains(i) && 0 <= place < cell_pins(module.cells[i].kind).len() && #[trigger] reads_name(
            module.cells[i],
            cell_pins(module.cells[i].kind)[place],
            widths,
            bit,
            name,
        ) implies known.contains(name) by {
        assert(pins_ready(cells[i], widths, cone.producers));
        assert(pin_check(module.cells[i], cell_pins(module.cells[i].kind)[place], widths, cone.producers) is Emit);
        match pin_value(module.cells[i].inputs, cell_pins(module.cells[i].kind)[place]) {
            Some(ValueView::Net(net)) => {
                assert(cone.producers.contains_key(scalar_text(net, widths[net], bit)));
            },
            _ => {},
        }
    }
}

/// The reached logic of a cone is logic of the module.
proof fn reached_logic_is_logic(module: ModuleView, roots: Set<Seq<char>>, cone: BuilderView, emitted: Set<int>)
    requires
        cone_inv(logic_cells(module, roots), net_widths(module.nets), boundary_of(module), cone, emitted),
    ensures
        forall|i: int| #[trigger]
            emitted.contains(i) ==> 0 <= i < module.cells.len() && logic_cells(module, roots)[i] == module.cells[i]
                && !kind_is_sequential(module.cells[i].kind),
{
    let cells = logic_cells(module, roots);
    assert forall|i: int| #[trigger] emitted.contains(i) implies 0 <= i < module.cells.len() && cells[i] == module.cells[i]
        && !kind_is_sequential(module.cells[i].kind) by {
        assert(cell_holds(cells[i], net_widths(module.nets), cone));
        assert(cells[i].outputs.len() > 0);
        assert(is_cone_cell(module, roots, i));
    }
}

// ---------------------------------------------------------------------------
// Where nets come from
// ---------------------------------------------------------------------------
/// Whether a scalar net is a bit of live state cell `i`.
pub open spec fn is_state_bit(module: ModuleView, i: int, name: Seq<char>) -> bool {
    let widths = net_widths(module.nets);
    let live = live_cells(module, module.cells.len());
    let net = pin_net(module.cells[live[i]].outputs, "q"@)->0;
    0 <= i < live.len() && exists|bit: nat| bit < widths[net] && name == #[trigger] scalar_text(net, widths[net], bit)
}

/// Whether no scalar net is a bit of both a latch and a register.
pub open spec fn is_told_apart(module: ModuleView) -> bool {
    let live = live_cells(module, module.cells.len());
    forall|i: int, j: int, name: Seq<char>| #[trigger]
        is_state_bit(module, i, name) && #[trigger] is_state_bit(module, j, name) ==> (module.cells[live[i]].kind is DLatch
            <==> module.cells[live[j]].kind is DLatch)
}

/// Where a scalar net comes from: the state cell that stores it, or a port.
pub open spec fn end_of(module: ModuleView, name: Seq<char>) -> EndpointView {
    let live = live_cells(module, module.cells.len());
    if exists|i: int| is_state_bit(module, i, name) {
        stored_end(module.cells[live[choose|i: int| is_state_bit(module, i, name)]], name)
    } else {
        EndpointView::SelfPort(name)
    }
}

/// What arrives from ports and state at a moment.
pub open spec fn arriving(module: ModuleView, run: Run, now: nat) -> Scalars {
    |name: Seq<char>| run(now, end_of(module, name))
}

proof fn bits_have_elements(
    cell: CellView,
    widths: Map<Seq<char>, usize>,
    before: Map<Seq<char>, Seq<char>>,
    count: nat,
    name: Seq<char>,
)
    ensures
        ({
            let after = bit_elements(cell, widths, before, count);
            let own = exists|bit: nat| bit < count && name == #[trigger] state_bit(cell, widths, bit);
            &&& after.contains_key(name) <==> own || before.contains_key(name)
            &&& own ==> after[name] == element_text(cell.kind, name)
            &&& !own && before.contains_key(name) ==> after[name] == before[name]
        }),
    decreases count,
{
    if count > 0 {
        bits_have_elements(cell, widths, before, (count - 1) as nat, name);
        if exists|bit: nat| bit < count && name == #[trigger] state_bit(cell, widths, bit) {
            let bit = choose|bit: nat| bit < count && name == #[trigger] state_bit(cell, widths, bit);
            assert(bit < count - 1 || name == state_bit(cell, widths, (count - 1) as nat));
        }
        if exists|bit: nat| bit < count - 1 && name == #[trigger] state_bit(cell, widths, bit) {
            let bit = choose|bit: nat| bit < count - 1 && name == #[trigger] state_bit(cell, widths, bit);
            assert(bit < count && name == state_bit(cell, widths, bit));
        }
        if name == state_bit(cell, widths, (count - 1) as nat) {
            assert(((count - 1) as nat) < count);
        }
    }
}

proof fn state_bits_have_elements(module: ModuleView, count: nat, name: Seq<char>)
    requires
        count <= live_cells(module, module.cells.len()).len(),
    ensures
        ({
            let widths = net_widths(module.nets);
            let live = live_cells(module, module.cells.len());
            let elements = elements_of(module.cells, widths, live, count);
            &&& elements.contains_key(name) <==> exists|i: int| i < count && #[trigger] is_state_bit(module, i, name)
            &&& elements.contains_key(name) ==> exists|i: int|
                i < count && #[trigger] is_state_bit(module, i, name) && elements[name] == element_text(
                    module.cells[live[i]].kind,
                    name,
                )
        }),
    decreases count,
{
    let widths = net_widths(module.nets);
    let live = live_cells(module, module.cells.len());
    if count > 0 {
        let last = count - 1;
        let cell = module.cells[live[last]];
        state_bits_have_elements(module, last as nat, name);
        let before = elements_of(module.cells, widths, live, last as nat);
        bits_have_elements(cell, widths, before, widths[state_net(cell)] as nat, name);
        let own = exists|bit: nat| bit < widths[state_net(cell)] && name == #[trigger] state_bit(cell, widths, bit);
        assert(own <==> is_state_bit(module, last, name)) by {
            if own {
                let bit = choose|bit: nat|
                    bit < widths[state_net(cell)] && name == #[trigger] state_bit(cell, widths, bit);
                assert(name == scalar_text(state_net(cell), widths[state_net(cell)], bit));
            }
            if is_state_bit(module, last, name) {
                let net = state_net(cell);
                let bit = choose|bit: nat| bit < widths[net] && name == #[trigger] scalar_text(net, widths[net], bit);
                assert(name == state_bit(cell, widths, bit));
            }
        }
        if before.contains_key(name) {
            let i = choose|i: int|
                i < last && #[trigger] is_state_bit(module, i, name) && before[name] == element_text(
                    module.cells[live[i]].kind,
                    name,
                );
            assert(i < count && is_state_bit(module, i, name));
        }
        if exists|i: int| i < count && #[trigger] is_state_bit(module, i, name) {
            let i = choose|i: int| i < count && #[trigger] is_state_bit(module, i, name);
            assert(i < last || i == last);
        }
    }
}

/// Nets are wired to where they come from.
proof fn driver_is_end(module: ModuleView, name: Seq<char>)
    requires
        is_told_apart(module),
    ensures
        ({
            let live = live_cells(module, module.cells.len());
            let elements = elements_of(module.cells, net_widths(module.nets), live, live.len());
            scalar_driver(elements, name) == end_of(module, name)
        }),
{
    let live = live_cells(module, module.cells.len());
    let elements = elements_of(module.cells, net_widths(module.nets), live, live.len());
    state_bits_have_elements(module, live.len(), name);
    if exists|i: int| is_state_bit(module, i, name) {
        let chosen = choose|i: int| is_state_bit(module, i, name);
        assert(chosen < live.len() && is_state_bit(module, chosen, name));
        assert(elements.contains_key(name));
        let i = choose|i: int|
            i < live.len() && #[trigger] is_state_bit(module, i, name) && elements[name] == element_text(
                module.cells[live[i]].kind,
                name,
            );
        assert(is_state_bit(module, i, name) && is_state_bit(module, chosen, name));
    }
}

proof fn boundary_is_arriving(module: ModuleView, run: Run, now: nat)
    requires
        is_told_apart(module),
    ensures
        ({
            let live = live_cells(module, module.cells.len());
            let elements = elements_of(module.cells, net_widths(module.nets), live, live.len());
            boundary_at(elements, run, now) == arriving(module, run, now)
        }),
{
    let live = live_cells(module, module.cells.len());
    let elements = elements_of(module.cells, net_widths(module.nets), live, live.len());
    assert forall|name: Seq<char>| #[trigger] boundary_at(elements, run, now)(name) == arriving(module, run, now)(name) by {
        driver_is_end(module, name);
    }
    assert(boundary_at(elements, run, now) =~= arriving(module, run, now));
}

// ---------------------------------------------------------------------------
// Leaves of a module with state
// ---------------------------------------------------------------------------
proof fn next_module_is_there(leaves: Seq<NextLeaf>, count: nat, i: int, k: int)
    requires
        0 <= i < count <= leaves.len(),
        0 <= k < leaves[i].leaf.modules@.len(),
    ensures
        next_modules(leaves, count).contains(leaves[i].leaf.modules@[k]@),
    decreases count,
{
    let all = next_modules(leaves, count);
    let before = next_modules(leaves, (count - 1) as nat);
    let wanted = leaves[i].leaf.modules@[k]@;
    if i == count - 1 {
        assert(module_views(leaves[i].leaf.modules@)[k] == wanted);
        assert(all[before.len() + k] == wanted);
    } else {
        next_module_is_there(leaves, (count - 1) as nat, i, k);
        let at = choose|at: int| 0 <= at < before.len() && before[at] == wanted;
        assert(all[at] == wanted);
    }
}

proof fn input_is_linked(
    leaf: PartitionedLeaf,
    elements: Map<Seq<char>, Seq<char>>,
    k: int,
    count: nat,
    i: int,
)
    requires
        0 <= i < count,
    ensures
        input_links(leaf, elements, k, count).contains(
            (
                leaf_source(leaf, elements, leaf.instances[k].inputs[i]@),
                EndpointView::InstancePort(leaf.instances[k].instance@, leaf.instances[k].inputs[i]@),
            ),
        ),
    decreases count,
{
    if i < count - 1 {
        input_is_linked(leaf, elements, k, (count - 1) as nat, i);
    }
}

proof fn leaf_is_linked(leaf: PartitionedLeaf, elements: Map<Seq<char>, Seq<char>>, count: nat, k: int, link: Link)
    requires
        0 <= k < count,
        input_links(leaf, elements, k, leaf.instances[k].inputs@.len()).contains(link),
    ensures
        leaf_links(leaf, elements, count).contains(link),
    decreases count,
{
    if k < count - 1 {
        leaf_is_linked(leaf, elements, (count - 1) as nat, k, link);
    }
}

proof fn next_leaf_is_linked(
    cells: Seq<CellView>,
    widths: Map<Seq<char>, usize>,
    live: Seq<int>,
    elements: Map<Seq<char>, Seq<char>>,
    leaves: Seq<NextLeaf>,
    count: nat,
    i: int,
    link: Link,
)
    requires
        0 <= i < count,
        leaf_links(leaves[i].leaf, elements, leaves[i].leaf.instances@.len()).contains(link),
    ensures
        state_links(cells, widths, live, elements, leaves, count).contains(link),
    decreases count,
{
    if i < count - 1 {
        next_leaf_is_linked(cells, widths, live, elements, leaves, (count - 1) as nat, i, link);
    }
}

/// Links that nets make feed a leaf.
proof fn links_feed(
    leaf: PartitionedLeaf,
    elements: Map<Seq<char>, Seq<char>>,
    nets: Seq<RoutableNetView>,
    run: Run,
)
    requires
        nets_run(nets, run),
        forall|k: int| 0 <= k < leaf.modules@.len() ==> leaf_runs((#[trigger] leaf.modules@[k])@, run),
        forall|link: Link| #[trigger]
            leaf_links(leaf, elements, leaf.instances@.len()).contains(link) ==> connects(nets, link.0, link.1),
    ensures
        is_fed(leaf, elements, run),
{
    assert forall|k: int, i: int, now: nat|
        #![trigger leaf.instances@[k].inputs@[i], run(now, EndpointView::InstancePort(leaf.instances@[k].instance@, leaf.instances@[k].inputs@[i]@))]
        0 <= k < leaf.instances@.len() && 0 <= i < leaf.instances@[k].inputs@.len() implies run(
        now,
        EndpointView::InstancePort(leaf.instances@[k].instance@, leaf.instances@[k].inputs@[i]@),
    ) == run(now, leaf_source(leaf, elements, leaf.instances@[k].inputs@[i]@)) by {
        let input = leaf.instances@[k].inputs@[i]@;
        let sink = EndpointView::InstancePort(leaf.instances@[k].instance@, input);
        let driver = leaf_source(leaf, elements, input);
        input_is_linked(leaf, elements, k, leaf.instances@[k].inputs@.len(), i);
        leaf_is_linked(leaf, elements, leaf.instances@.len(), k, (driver, sink));
        assert(leaf_links(leaf, elements, leaf.instances@.len()).contains((driver, sink)));
        assert(connects(nets, driver, sink));
    }
}

// ---------------------------------------------------------------------------
// Data
// ---------------------------------------------------------------------------
proof fn next_names_differ(width: nat, left: nat, right: nat)
    requires
        left < width,
        right < width,
        next_port(width, left) == next_port(width, right),
    ensures
        left == right,
{
    if width != 1 {
        let head = "__next_"@;
        assert((head + decimal(left)).skip(head.len() as int) =~= decimal(left));
        assert((head + decimal(right)).skip(head.len() as int) =~= decimal(right));
        decimal_injective(left, right);
    }
}

proof fn next_name_is_plain(width: nat, bit: nat, id: nat)
    ensures
        next_port(width, bit) != "__t"@ + decimal(id),
{
    reveal_strlit("__next");
    reveal_strlit("__next_");
    reveal_strlit("__t");
    let port = next_port(width, bit);
    let other = "__t"@ + decimal(id);
    assert(other[2] == 't');
    assert(port[2] == 'n') by {
        if width != 1 {
            assert(port[2] == "__next_"@[2]);
        }
    }
}

/// Which bit an output of the data of a state cell is.
proof fn next_output_is_bit(nodes: Seq<NodeView>, bits: Seq<usize>, width: nat, count: nat, j: int) -> (bit: int)
    requires
        0 <= j < next_outputs(nodes, bits, width, count).len(),
    ensures
        0 <= bit < count,
        next_outputs(nodes, bits, width, count)[j] == (next_port(width, bit as nat), bits[bit]),
    decreases count,
{
    let before = next_outputs(nodes, bits, width, (count - 1) as nat);
    if j < before.len() {
        next_output_is_bit(nodes, bits, width, (count - 1) as nat, j)
    } else {
        count - 1
    }
}

proof fn bit_is_next_output(nodes: Seq<NodeView>, bits: Seq<usize>, width: nat, count: nat, bit: int) -> (j: int)
    requires
        0 <= bit < count,
        !(nodes[bits[bit] as int].kind is Input),
    ensures
        0 <= j < next_outputs(nodes, bits, width, count).len(),
        next_outputs(nodes, bits, width, count)[j] == (next_port(width, bit as nat), bits[bit]),
    decreases count,
{
    let before = next_outputs(nodes, bits, width, (count - 1) as nat);
    if bit < count - 1 {
        bit_is_next_output(nodes, bits, width, (count - 1) as nat, bit)
    } else {
        before.len() as int
    }
}

proof fn next_outputs_are_plain(cone: BuilderView, bits: Seq<usize>, width: nat)
    requires
        cone.outputs == next_outputs(cone.nodes, bits, width, width),
    ensures
        outputs_are_plain(cone.nodes, cone.outputs),
{
    assert forall|j: int, id: int|
        #![trigger cone.outputs[j], cone.nodes[id]]
        0 <= j < cone.outputs.len() && 0 <= id < cone.nodes.len() && !(cone.nodes[id].kind is Input) implies cone.outputs[j].0
        != "__t"@ + decimal(id as nat) by {
        let bit = next_output_is_bit(cone.nodes, bits, width, width, j);
        next_name_is_plain(width, bit as nat, id as nat);
    }
    assert forall|i: int, j: int|
        0 <= i < cone.outputs.len() && 0 <= j < cone.outputs.len() && (#[trigger] cone.outputs[i]).0 == (
        #[trigger] cone.outputs[j]).0 implies cone.outputs[i].1 == cone.outputs[j].1 by {
        let left = next_output_is_bit(cone.nodes, bits, width, width, i);
        let right = next_output_is_bit(cone.nodes, bits, width, width, j);
        next_names_differ(width, left as nat, right as nat);
    }
}

/// What is carried to a state bit is what its node in the cone has.
proof fn data_end_shows_node<F: Fn(&Vec<GraphNode>) -> Result<usize, LowerError>>(
    prepared_count: F,
    cell: CellView,
    widths: Map<Seq<char>, usize>,
    module: ModuleView,
    cone: BuilderView,
    bits: Seq<usize>,
    next: NextLeaf,
    elements: Map<Seq<char>, Seq<char>>,
    run: Run,
    bit: nat,
    now: nat,
)
    requires
        is_next_cone(module, widths, cell, cone, bits),
        is_next_leaf(prepared_count, cell, cone, bits, next),
        is_fed(next.leaf, elements, run),
        ports_are_free(cone.nodes),
        bit < widths[state_net(cell)],
    ensures
        run(now, source_driver(elements, next.sources@[bit as int]@)) == cone_values(
            cone.nodes,
            boundary_at(elements, run, now),
        )(bits[bit as int] as int),
{
    let width = widths[state_net(cell)] as nat;
    let env = boundary_at(elements, run, now);
    let v = cone_values(cone.nodes, env);
    let node = bits[bit as int] as int;
    cone_has_values(cone.nodes, env);
    assert(bits[bit as int] < cone.nodes.len());
    assert(next.sources[bit as int]@ == next_source(cone, bits, next.leaf, bit));
    match cone.nodes[node].kind {
        KindView::Input(name) => {
            assert(node_holds(cone.nodes[node], node, env, v));
        },
        _ => {
            let base = state_net(cell) + "_next"@;
            let (plan, leaves) = choose|plan: Plan, leaves: Seq<BuilderView>|
                {
                    &&& #[trigger] is_partition(cone.nodes, cone.outputs, base, plan, leaves, next.leaf)
                    &&& is_limited_cut(cone, LEAF_NODE_BUDGET, prepared_count, plan)
                    &&& pieces_sized(plan, LEAF_NODE_BUDGET)
                    &&& leaves_fit(prepared_count, plan, leaves)
                };
            next_outputs_are_plain(cone, bits, width);
            let j = bit_is_next_output(cone.nodes, bits, width, width, bit as int);
            wired_leaves_compute_their_cone(
                cone,
                base,
                plan,
                leaves,
                next.leaf,
                elements,
                run,
                v,
                j,
                now,
            );
        },
    }
}

proof fn data_node_is_data(
    module: ModuleView,
    cell: CellView,
    cone: BuilderView,
    bits: Seq<usize>,
    env: Scalars,
    bit: nat,
)
    requires
        is_next_cone(module, net_widths(module.nets), cell, cone, bits),
        is_clean_from(module, data_roots(state_data(cell))),
        bit < net_widths(module.nets)[state_net(cell)],
        state_data(cell) matches ValueView::Constant(_, width) ==> width <= 128 || bit < 128,
    ensures
        is_logic_value(
            module,
            boundary_of(module),
            env,
            state_data(cell),
            bit,
            cone_values(cone.nodes, env)(bits[bit as int] as int),
        ),
{
    let widths = net_widths(module.nets);
    let roots = data_roots(state_data(cell));
    let v = cone_values(cone.nodes, env);
    let node = bits[bit as int] as int;
    let emitted = choose|emitted: Set<int>|
        cone_inv(logic_cells(module, roots), widths, boundary_of(module), cone, emitted);
    cone_has_values(cone.nodes, env);
    reached_logic_is_logic(module, roots, cone, emitted);
    cone_settles(module, logic_cells(module, roots), boundary_of(module), cone, emitted, env, v);
    assert(is_data_node(state_data(cell), widths, cone, bit, bits[bit as int]));
    let known = cone.producers.dom();
    let scalars = cone_scalars(cone, v);
    assert(logic_settles(module, boundary_of(module), env, known, emitted, scalars));
    match state_data(cell) {
        ValueView::Net(net) => {
            assert(known.contains(scalar_text(net, widths[net], bit)));
        },
        ValueView::Slice(net, slice) => {
            assert(known.contains(scalar_text(net, widths[net], slice as nat)));
        },
        ValueView::Constant(value, width) => {
            super::cell_laws::constant_is_number(value, width, bit);
            assert(node_holds(cone.nodes[node], node, env, v));
            if !constant_bit(value, width, bit as int) {
                let one = cone.nodes[node].inputs[0] as int;
                assert(node_holds(cone.nodes[one], one, env, v));
                assert(values_at(v, cone.nodes[node].inputs)[0] == v(one));
            }
        },
    }
}

/// A lowered state cell stores what its data is. In every run of the design there is
/// something that the stored bit follows as the kind of the cell says, and at every
/// moment that is what the cells of the module give its data, of what ports and state
/// carry.
pub proof fn lowered_state_stores_its_data<F: Fn(&Vec<GraphNode>) -> Result<usize, LowerError>>(
    module: ModuleView,
    target: TargetView,
    policy: MappingPolicy,
    prepared_count: F,
    design: RoutableDesign,
    parts: StateParts,
    used: Set<Seq<char>>,
    nets: Seq<RoutableNetView>,
    run: Run,
    i: int,
    bit: nat,
)
    requires
        is_state_design(module, target, policy, prepared_count, design, parts, used, nets),
        all_run(all_leaves(module, parts), nets, run),
        is_told_apart(module),
        0 <= i < live_cells(module, module.cells.len()).len(),
        ({
            let cell = module.cells[live_cells(module, module.cells.len())[i]];
            let data = pin_value(cell.inputs, "d"@)->0;
            &&& bit < net_widths(module.nets)[pin_net(cell.outputs, "q"@)->0]
            &&& is_clean_from(module, data_roots(data))
            &&& data matches ValueView::Constant(_, width) ==> width <= 128 || bit < 128
        }),
        ports_are_free(parts.cones[i].nodes),
    ensures
        ({
            let widths = net_widths(module.nets);
            let cell = module.cells[live_cells(module, module.cells.len())[i]];
            let net = pin_net(cell.outputs, "q"@)->0;
            exists|data: Bits|
                {
                    &&& #[trigger] follows(
                        cell.kind,
                        control_bits(cell, widths, run),
                        data,
                        at_end(run, stored_end(cell, scalar_text(net, widths[net], bit))),
                    )
                    &&& forall|now: nat|
                        is_logic_value(
                            module,
                            boundary_of(module),
                            arriving(module, run, now),
                            pin_value(cell.inputs, "d"@)->0,
                            bit,
                            #[trigger] data(now),
                        )
                }
        }),
{
    let widths = net_widths(module.nets);
    let live = live_cells(module, module.cells.len());
    let cell = module.cells[live[i]];
    let elements = elements_of(module.cells, widths, live, live.len());
    let next = parts.leaves[i];
    let cone = parts.cones[i];
    let bits = parts.bits[i];
    assert(is_next_cone(module, widths, cell, parts.cones[i], bits));
    lowered_state_follows_its_control(
        module,
        target,
        policy,
        prepared_count,
        design,
        parts,
        used,
        nets,
        run,
        i,
        bit,
    );
    let all = all_leaves(module, parts);
    let first = next_modules(parts.leaves, live.len());
    assert forall|k: int| 0 <= k < next.leaf.modules@.len() implies leaf_runs((#[trigger] next.leaf.modules@[k])@, run) by {
        next_module_is_there(parts.leaves, live.len(), i, k);
        let at = choose|at: int| 0 <= at < first.len() && first[at] == next.leaf.modules@[k]@;
        assert(all[at] == first[at]);
    }
    assert forall|link: Link| #[trigger]
        leaf_links(next.leaf, elements, next.leaf.instances@.len()).contains(link) implies connects(
        nets,
        link.0,
        link.1,
    ) by {
        next_leaf_is_linked(module.cells, widths, live, elements, parts.leaves, live.len(), i, link);
        assert(all_links(module, parts).contains((link.0, link.1)));
    }
    links_feed(next.leaf, elements, nets, run);
    let data = at_end(run, source_driver(elements, next.sources@[bit as int]@));
    assert forall|now: nat|
        is_logic_value(
            module,
            boundary_of(module),
            arriving(module, run, now),
            pin_value(cell.inputs, "d"@)->0,
            bit,
            #[trigger] data(now),
        ) by {
        boundary_is_arriving(module, run, now);
        data_end_shows_node(
            prepared_count,
            cell,
            widths,
            module,
            cone,
            bits,
            next,
            elements,
            run,
            bit,
            now,
        );
        data_node_is_data(module, cell, cone, bits, arriving(module, run, now), bit);
    }
    assert(follows(
        cell.kind,
        control_bits(cell, widths, run),
        data,
        at_end(run, stored_end(cell, scalar_text(state_net(cell), widths[state_net(cell)], bit))),
    ));
}

// ---------------------------------------------------------------------------
// Outputs
// ---------------------------------------------------------------------------
proof fn wire_is_linked(wires: Seq<(Seq<char>, EndpointView)>, count: nat, index: int)
    requires
        0 <= index < count <= wires.len(),
    ensures
        wire_links(wires, count).contains((wires[index].1, EndpointView::SelfPort(wires[index].0))),
    decreases count,
{
    if index < count - 1 {
        wire_is_linked(wires, (count - 1) as nat, index);
    }
}

/// The outputs of a lowered module with state carry what the module gives them. In
/// every run of the design, a bit of an output port that a live state cell drives carries
/// what is stored, and any other what the cells of the module give it, of what ports and
/// state carry at that moment.
pub proof fn lowered_outputs_carry_their_nets<F: Fn(&Vec<GraphNode>) -> Result<usize, LowerError>>(
    module: ModuleView,
    target: TargetView,
    policy: MappingPolicy,
    prepared_count: F,
    design: RoutableDesign,
    parts: StateParts,
    used: Set<Seq<char>>,
    nets: Seq<RoutableNetView>,
    run: Run,
    port: int,
    bit: nat,
    now: nat,
)
    requires
        is_state_design(module, target, policy, prepared_count, design, parts, used, nets),
        all_run(all_leaves(module, parts), nets, run),
        is_told_apart(module),
        is_clean_from(module, output_roots(module)),
        ports_are_free(parts.side.cone.nodes),
        outputs_are_plain(parts.side.cone.nodes, parts.side.cone.outputs),
        0 <= port < module.ports.len(),
        module.ports[port].direction == LogicalPortDirection::Output,
        bit < net_widths(module.nets)[module.ports[port].net],
    ensures
        ({
            let net = module.ports[port].net;
            let name = scalar_text(net, net_widths(module.nets)[net], bit);
            let shown = run(now, EndpointView::SelfPort(name));
            if exists|i: int| is_state_bit(module, i, name) {
                shown == run(now, end_of(module, name))
            } else {
                is_logic_value(
                    module,
                    boundary_of(module),
                    arriving(module, run, now),
                    ValueView::Net(net),
                    bit,
                    shown,
                )
            }
        }),
{
    let widths = net_widths(module.nets);
    let live = live_cells(module, module.cells.len());
    let elements = elements_of(module.cells, widths, live, live.len());
    let net = module.ports[port].net;
    let name = scalar_text(net, widths[net], bit);
    let side = parts.side;
    let cone = side.cone;
    assert(is_port_bit(module.ports, widths, LogicalPortDirection::Output, port, bit, name));
    let at = choose|at: int| 0 <= at < side.wires.len() && (#[trigger] side.wires[at]).0 == name;
    let driver = side.wires[at].1;
    let sink = EndpointView::SelfPort(name);
    wire_is_linked(side.wires, side.wires.len(), at);
    assert(all_links(module, parts).contains((driver, sink)));
    assert(connects(nets, driver, sink));
    assert(run(now, sink) == run(now, driver));
    assert(is_output_wire(module, elements, side, side.wires[at]));
    state_bits_have_elements(module, live.len(), name);
    driver_is_end(module, name);
    if exists|i: int| is_state_bit(module, i, name) {
        let i = choose|i: int| is_state_bit(module, i, name);
        assert(i < live.len() && is_state_bit(module, i, name));
        assert(elements.contains_key(name));
    } else {
        assert(!elements.contains_key(name));
        let env = arriving(module, run, now);
        boundary_is_arriving(module, run, now);
        let v = cone_values(cone.nodes, env);
        cone_has_values(cone.nodes, env);
        let roots = output_roots(module);
        let emitted = choose|emitted: Set<int>|
            cone_inv(logic_cells(module, roots), widths, boundary_of(module), cone, emitted);
        reached_logic_is_logic(module, roots, cone, emitted);
        cone_settles(module, logic_cells(module, roots), boundary_of(module), cone, emitted, env, v);
        let known = cone.producers.dom();
        let scalars = cone_scalars(cone, v);
        assert(logic_settles(module, boundary_of(module), env, known, emitted, scalars));
        if exists|source: Seq<char>| #[trigger]
            scalar_driver(elements, source) == driver && cone.producers.contains_key(name)
                && cone.nodes[cone.producers[name] as int].kind == KindView::Input(source) {
            let source = choose|source: Seq<char>| #[trigger]
                scalar_driver(elements, source) == driver && cone.producers.contains_key(name)
                    && cone.nodes[cone.producers[name] as int].kind == KindView::Input(source);
            let id = cone.producers[name] as int;
            assert(cone.producers[name] < cone.nodes.len());
            assert(node_holds(cone.nodes[id], id, env, v));
            driver_is_end(module, source);
        } else {
            let leaf = side.leaf->0;
            let j = choose|j: int| is_requested_output(module, cone, name, j);
            let base = module.name + "_out"@;
            let (plan, leaves) = choose|plan: Plan, leaves: Seq<BuilderView>|
                {
                    &&& #[trigger] is_partition(cone.nodes, cone.outputs, base, plan, leaves, leaf)
                    &&& is_limited_cut(cone, LEAF_NODE_BUDGET, prepared_count, plan)
                    &&& pieces_sized(plan, LEAF_NODE_BUDGET)
                    &&& leaves_fit(prepared_count, plan, leaves)
                };
            let all = all_leaves(module, parts);
            let front = next_modules(parts.leaves, live.len()) + super::sequential::all_element_modules(
                module.cells,
                widths,
                live,
                live.len(),
            );
            assert forall|k: int| 0 <= k < leaf.modules@.len() implies leaf_runs((#[trigger] leaf.modules@[k])@, run) by {
                assert(module_views(leaf.modules@)[k] == leaf.modules@[k]@);
                assert(all[front.len() + k] == leaf.modules@[k]@);
            }
            assert forall|link: Link| #[trigger]
                leaf_links(leaf, elements, leaf.instances@.len()).contains(link) implies connects(nets, link.0, link.1) by {
                assert(all_links(module, parts).contains((link.0, link.1)));
            }
            links_feed(leaf, elements, nets, run);
            let node = cone.outputs[j].1 as int;
            assert(cone.outputs[j].1 < cone.nodes.len());
            if cone.nodes[node].kind is Input {
                let direct = cone.nodes[node].kind->Input_0;
                source_is_gate(cone, base, plan, leaves, leaf, name, j);
            } else {
                wired_leaves_compute_their_cone(
                    cone,
                    base,
                    plan,
                    leaves,
                    leaf,
                    elements,
                    run,
                    v,
                    j,
                    now,
                );
            }
        }
    }
}

/// A port of a leaf is that of a gate.
proof fn source_is_gate(
    cone: BuilderView,
    base: Seq<char>,
    plan: Plan,
    leaves: Seq<BuilderView>,
    leaf: PartitionedLeaf,
    name: Seq<char>,
    j: int,
)
    requires
        is_partition(cone.nodes, cone.outputs, base, plan, leaves, leaf),
        outputs_are_plain(cone.nodes, cone.outputs),
        leaf.output_sources@.contains_key(name),
        0 <= j < cone.outputs.len(),
        cone.outputs[j].0 == name,
    ensures
        !(cone.nodes[cone.outputs[j].1 as int].kind is Input),
{
    let nodes = cone.nodes;
    let outputs = cone.outputs;
    let id = choose|id: int|
        {
            &&& 0 <= id < nodes.len()
            &&& !(nodes[id].kind is Input)
            &&& #[trigger] super::partition::names_node(nodes, outputs, name, id)
        };
    assert(outputs[j].0 != "__t"@ + decimal(id as nat)) by {
        assert(!(nodes[id].kind is Input));
    }
    let i = choose|i: int| 0 <= i < outputs.len() && #[trigger] outputs[i] == (name, id as usize);
    assert(outputs[i].1 == outputs[j].1);
}

// ---------------------------------------------------------------------------
// Modules without state
// ---------------------------------------------------------------------------
/// What arrives at the ports of a module at a moment.
pub open spec fn at_ports(run: Run, now: nat) -> Scalars {
    |name: Seq<char>| run(now, EndpointView::SelfPort(name))
}

/// What drives an output bit of a partitioned module without state carries what the
/// cells of the module give it, where its leaves run and are fed.
pub proof fn lowered_logic_computes_the_module<F: Fn(&Vec<GraphNode>) -> Result<usize, LowerError>>(
    module: ModuleView,
    prepared_count: F,
    cone: BuilderView,
    leaf: PartitionedLeaf,
    run: Run,
    port: int,
    bit: nat,
    now: nat,
)
    requires
        is_module_cone(module, cone),
        is_bounded_partition(cone, module.name, LEAF_NODE_BUDGET, prepared_count, leaf),
        is_fed(leaf, Map::empty(), run),
        super::cone::drivers_unique(
            module.cells,
            net_widths(module.nets),
            |name: Seq<char>| is_input_bit(module.ports, net_widths(module.nets), name),
        ),
        forall|i: int| 0 <= i < module.cells.len() ==> !kind_is_sequential((#[trigger] module.cells[i]).kind),
        ports_are_free(cone.nodes),
        outputs_are_plain(cone.nodes, cone.outputs),
        0 <= port < module.ports.len(),
        module.ports[port].direction == LogicalPortDirection::Output,
        bit < net_widths(module.nets)[module.ports[port].net],
        cone.producers.contains_key(
            scalar_text(module.ports[port].net, net_widths(module.nets)[module.ports[port].net], bit),
        ),
    ensures
        ({
            let net = module.ports[port].net;
            let name = scalar_text(net, net_widths(module.nets)[net], bit);
            is_logic_value(
                module,
                |name: Seq<char>| is_input_bit(module.ports, net_widths(module.nets), name),
                at_ports(run, now),
                ValueView::Net(net),
                bit,
                run(now, output_driver(leaf, name)),
            )
        }),
{
    let widths = net_widths(module.nets);
    let boundary = |name: Seq<char>| is_input_bit(module.ports, widths, name);
    let none = Map::<Seq<char>, Seq<char>>::empty();
    let net = module.ports[port].net;
    let name = scalar_text(net, widths[net], bit);
    let env = at_ports(run, now);
    assert(boundary_at(none, run, now) =~= env);
    let v = cone_values(cone.nodes, env);
    cone_has_values(cone.nodes, env);
    let emitted = Set::new(|i: int| 0 <= i < module.cells.len());
    cone_settles(module, module.cells, boundary, cone, emitted, env, v);
    let known = cone.producers.dom();
    let scalars = cone_scalars(cone, v);
    assert(logic_settles(module, boundary, env, known, emitted, scalars));
    assert(is_port_bit(module.ports, widths, LogicalPortDirection::Output, port, bit, name));
    super::flat::output_is_requested(module.ports, widths, cone.producers, port, bit, name);
    let pair = (name, cone.producers[name]);
    let j = choose|j: int| 0 <= j < cone.outputs.len() && cone.outputs[j] == pair;
    let (plan, leaves) = choose|plan: Plan, leaves: Seq<BuilderView>|
        {
            &&& #[trigger] is_partition(cone.nodes, cone.outputs, module.name, plan, leaves, leaf)
            &&& is_limited_cut(cone, LEAF_NODE_BUDGET, prepared_count, plan)
            &&& pieces_sized(plan, LEAF_NODE_BUDGET)
            &&& leaves_fit(prepared_count, plan, leaves)
        };
    let id = cone.producers[name] as int;
    assert(cone.producers[name] < cone.nodes.len());
    if cone.nodes[id].kind is Input {
        if leaf.output_sources@.contains_key(name) {
            source_is_gate(cone, module.name, plan, leaves, leaf, name, j);
        }
        assert(leaf.direct_outputs@.contains_key(cone.outputs[j].0));
        let k = choose|k: int|
            {
                &&& 0 <= k < cone.outputs.len()
                &&& (#[trigger] cone.outputs[k]).0 == name
                &&& cone.nodes[cone.outputs[k].1 as int].kind == KindView::Input(leaf.direct_outputs@[name]@)
            };
        assert(cone.outputs[k].1 == cone.outputs[j].1);
        assert(node_holds(cone.nodes[id], id, env, v));
    } else {
        wired_leaves_compute_their_cone(cone, module.name, plan, leaves, leaf, none, run, v, j, now);
    }
    assert(run(now, output_driver(leaf, name)) == scalars(name));
}

/// In every run of the composite of a module without state, its leaves are fed and each
/// output bit carries what drives it.
pub proof fn composite_feeds_its_leaves(
    module: ModuleView,
    leaf: PartitionedLeaf,
    top: RoutableModuleView,
    nets: Seq<RoutableNetView>,
    run: Run,
    port: int,
    bit: nat,
    now: nat,
)
    requires
        is_composite_of(module, leaf, top),
        top.body matches crate::ir::routable::BodyView::Composite(_, found) && found == nets,
        nets_run(nets, run),
        forall|k: int| 0 <= k < leaf.modules@.len() ==> leaf_runs((#[trigger] leaf.modules@[k])@, run),
        0 <= port < module.ports.len(),
        module.ports[port].direction == LogicalPortDirection::Output,
        bit < net_widths(module.nets)[module.ports[port].net],
    ensures
        is_fed(leaf, Map::empty(), run),
        ({
            let net = module.ports[port].net;
            let name = scalar_text(net, net_widths(module.nets)[net], bit);
            run(now, EndpointView::SelfPort(name)) == run(now, output_driver(leaf, name))
        }),
{
    let widths = net_widths(module.nets);
    let none = Map::<Seq<char>, Seq<char>>::empty();
    let net = module.ports[port].net;
    let name = scalar_text(net, widths[net], bit);
    assert forall|driver: EndpointView, sink: EndpointView|
        leaf_reads(leaf, driver, sink) || output_driven(module.ports, widths, leaf, driver, sink) implies #[trigger] connects(
        nets,
        driver,
        sink,
    ) by {}
    assert forall|k: int, i: int, at: nat|
        #![trigger leaf.instances@[k].inputs@[i], run(at, EndpointView::InstancePort(leaf.instances@[k].instance@, leaf.instances@[k].inputs@[i]@))]
        0 <= k < leaf.instances@.len() && 0 <= i < leaf.instances@[k].inputs@.len() implies run(
        at,
        EndpointView::InstancePort(leaf.instances@[k].instance@, leaf.instances@[k].inputs@[i]@),
    ) == run(at, leaf_source(leaf, none, leaf.instances@[k].inputs@[i]@)) by {
        let input = leaf.instances[k].inputs[i]@;
        let sink = EndpointView::InstancePort(leaf.instances[k].instance@, input);
        let driver = leaf_source(leaf, none, input);
        assert(leaf_reads(leaf, driver, sink));
        assert(connects(nets, driver, sink));
    }
    assert(is_port_bit(module.ports, widths, LogicalPortDirection::Output, port, bit, name));
    let sink = EndpointView::SelfPort(name);
    assert(output_driven(module.ports, widths, leaf, output_driver(leaf, name), sink));
    assert(connects(nets, output_driver(leaf, name), sink));
}

} // verus!
