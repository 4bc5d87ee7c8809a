//! Wiring of state elements and leaves.

use super::emitter::{is_bit_wanted, is_live_cell, is_wanted, pin_value_is_input, reads_net, root_is_wanted};
use super::liveness::is_live_name;
use super::error::{ErrorView, LowerError};
use super::flat::{input_connections, leaf_connections};
use super::nets::{classify_logical_net, instance_port, Connection};
use super::next_state::{is_data_known, NextLeaf, NextSource, SourceView};
use super::partition::PartitionedLeaf;
use super::scalar::{net_widths, scalar_text, ScalarNets};
use super::state_plan::{
    control_net, control_pin, is_plan, scalar_driver, state_bit, state_data, state_edge, Elements, Link, StatePlan,
    Wiring,
};
use crate::ir::logical::{CellView, ClockEdge, LogicalModule, LogicalValue, ModuleView, ValueView};
use crate::ir::routable::{Endpoint, EndpointView, NetClass};
use crate::text::{decimal, decimal_text, join2};
use vstd::hash_set::StringHashSet;
use vstd::prelude::*;

verus! {

/// What drives an input port of a leaf at the top.
pub open spec fn leaf_source(
    leaf: PartitionedLeaf,
    elements: Map<Seq<char>, Seq<char>>,
    input: Seq<char>,
) -> EndpointView {
    if leaf.intermediates@.contains_key(input) {
        EndpointView::InstancePort(leaf.intermediates@[input]@, input)
    } else {
        scalar_driver(elements, input)
    }
}

/// The links to the first `count` inputs of leaf `k`.
pub open spec fn input_links(
    leaf: PartitionedLeaf,
    elements: Map<Seq<char>, Seq<char>>,
    k: int,
    count: nat,
) -> Set<Link>
    decreases count,
{
    if count == 0 {
        Set::empty()
    } else {
        let input = leaf.instances[k].inputs[count - 1]@;
        input_links(leaf, elements, k, (count - 1) as nat).insert(
            (
                leaf_source(leaf, elements, input),
                EndpointView::InstancePort(leaf.instances[k].instance@, input),
            ),
        )
    }
}

/// The links to the inputs of the first `count` leaves.
pub open spec fn leaf_links(
    leaf: PartitionedLeaf,
    elements: Map<Seq<char>, Seq<char>>,
    count: nat,
) -> Set<Link>
    decreases count,
{
    if count == 0 {
        Set::empty()
    } else {
        leaf_links(leaf, elements, (count - 1) as nat).union(
            input_links(leaf, elements, count - 1, leaf.instances[count - 1].inputs@.len()),
        )
    }
}

/// Whether an input port drives something.
pub open spec fn self_driven(links: Set<Link>, name: Seq<char>) -> bool {
    exists|sink: EndpointView| links.contains((EndpointView::SelfPort(name), sink))
}

/// Every input bit that is used newly drives something.
pub open spec fn uses_explained(before: Wiring, after: Wiring) -> bool {
    &&& forall|name: Seq<char>| #[trigger] before.used@.contains(name) ==> after.used@.contains(name)
    &&& forall|name: Seq<char>| #[trigger]
        after.used@.contains(name) ==> before.used@.contains(name) || self_driven(after.links(), name)
    &&& before.links().subset_of(after.links())
}

proof fn explained_trans(first: Wiring, second: Wiring, third: Wiring)
    requires
        uses_explained(first, second),
        uses_explained(second, third),
    ensures
        uses_explained(first, third),
{
    assert forall|name: Seq<char>| #[trigger] third.used@.contains(name) implies first.used@.contains(name)
        || self_driven(third.links(), name) by {
        if !first.used@.contains(name) && second.used@.contains(name) {
            let sink = choose|sink: EndpointView| second.links().contains((EndpointView::SelfPort(name), sink));
            assert(third.links().contains((EndpointView::SelfPort(name), sink)));
        }
    }
}

/// That a scalar net is neither a state bit nor an input bit.
pub open spec fn source_error(
    elements: Map<Seq<char>, Seq<char>>,
    input_scalars: Set<Seq<char>>,
    name: Seq<char>,
) -> Option<ErrorView> {
    if elements.contains_key(name) || input_scalars.contains(name) {
        None
    } else {
        Some(ErrorView::UnresolvedSource(name))
    }
}

/// The first of the first `count` inputs of leaf `k` that nothing drives.
pub open spec fn inputs_unresolved(
    leaf: PartitionedLeaf,
    elements: Map<Seq<char>, Seq<char>>,
    input_scalars: Set<Seq<char>>,
    k: int,
    count: nat,
) -> Option<ErrorView>
    decreases count,
{
    if count == 0 {
        None
    } else {
        let input = leaf.instances[k].inputs[count - 1]@;
        match inputs_unresolved(leaf, elements, input_scalars, k, (count - 1) as nat) {
            Some(error) => Some(error),
            None => if leaf.intermediates@.contains_key(input) {
                None
            } else {
                source_error(elements, input_scalars, input)
            },
        }
    }
}

/// The first input of the first `count` leaves that nothing drives.
pub open spec fn leaf_unresolved(
    leaf: PartitionedLeaf,
    elements: Map<Seq<char>, Seq<char>>,
    input_scalars: Set<Seq<char>>,
    count: nat,
) -> Option<ErrorView>
    decreases count,
{
    if count == 0 {
        None
    } else {
        match leaf_unresolved(leaf, elements, input_scalars, (count - 1) as nat) {
            Some(error) => Some(error),
            None => inputs_unresolved(
                leaf,
                elements,
                input_scalars,
                count - 1,
                leaf.instances[count - 1].inputs@.len(),
            ),
        }
    }
}

/// The first of the first `count` bits of data that nothing drives.
pub open spec fn sources_unresolved(
    sources: Seq<NextSource>,
    elements: Map<Seq<char>, Seq<char>>,
    input_scalars: Set<Seq<char>>,
    count: nat,
) -> Option<ErrorView>
    decreases count,
{
    if count == 0 {
        None
    } else {
        match sources_unresolved(sources, elements, input_scalars, (count - 1) as nat) {
            Some(error) => Some(error),
            None => match sources[count - 1]@ {
                SourceView::Direct(name) => source_error(elements, input_scalars, name),
                SourceView::Leaf(_, _) => None,
            },
        }
    }
}

/// That the control net of a state cell is unknown, or has no bit.
pub open spec fn control_error(cell: CellView, widths: Map<Seq<char>, usize>) -> Option<ErrorView> {
    let net = control_net(cell);
    if !widths.contains_key(net) {
        Some(ErrorView::UnknownNet(net))
    } else if widths[net] == 0 {
        Some(ErrorView::BitOutOfRange(net, 0, 0))
    } else {
        None
    }
}

/// Why the elements of a state cell cannot be linked: its control comes first, then
/// the bits of its data.
pub open spec fn elements_error(
    cell: CellView,
    widths: Map<Seq<char>, usize>,
    elements: Map<Seq<char>, Seq<char>>,
    input_scalars: Set<Seq<char>>,
    sources: Seq<NextSource>,
) -> Option<ErrorView> {
    match control_error(cell, widths) {
        Some(error) => Some(error),
        None => sources_unresolved(sources, elements, input_scalars, sources.len()),
    }
}

/// Why a state cell cannot be linked: the leaves of its logic come first, then its
/// elements.
pub open spec fn wire_error(
    cell: CellView,
    widths: Map<Seq<char>, usize>,
    elements: Map<Seq<char>, Seq<char>>,
    input_scalars: Set<Seq<char>>,
    next: NextLeaf,
) -> Option<ErrorView> {
    match leaf_unresolved(next.leaf, elements, input_scalars, next.leaf.instances@.len()) {
        Some(error) => Some(error),
        None => elements_error(cell, widths, elements, input_scalars, next.sources@),
    }
}

/// An earlier input of a leaf that nothing drives stays the first.
proof fn inputs_unresolved_stays(
    leaf: PartitionedLeaf,
    elements: Map<Seq<char>, Seq<char>>,
    input_scalars: Set<Seq<char>>,
    k: int,
    from: nat,
    to: nat,
)
    requires
        from <= to,
        inputs_unresolved(leaf, elements, input_scalars, k, from) is Some,
    ensures
        inputs_unresolved(leaf, elements, input_scalars, k, to) == inputs_unresolved(
            leaf,
            elements,
            input_scalars,
            k,
            from,
        ),
    decreases to - from,
{
    if from < to {
        inputs_unresolved_stays(leaf, elements, input_scalars, k, from, (to - 1) as nat);
    }
}

/// An input of an earlier leaf that nothing drives stays the first.
proof fn leaf_unresolved_stays(
    leaf: PartitionedLeaf,
    elements: Map<Seq<char>, Seq<char>>,
    input_scalars: Set<Seq<char>>,
    from: nat,
    to: nat,
)
    requires
        from <= to,
        leaf_unresolved(leaf, elements, input_scalars, from) is Some,
    ensures
        leaf_unresolved(leaf, elements, input_scalars, to) == leaf_unresolved(leaf, elements, input_scalars, from),
    decreases to - from,
{
    if from < to {
        leaf_unresolved_stays(leaf, elements, input_scalars, from, (to - 1) as nat);
    }
}

/// An earlier bit of data that nothing drives stays the first.
proof fn sources_unresolved_stays(
    sources: Seq<NextSource>,
    elements: Map<Seq<char>, Seq<char>>,
    input_scalars: Set<Seq<char>>,
    from: nat,
    to: nat,
)
    requires
        from <= to,
        sources_unresolved(sources, elements, input_scalars, from) is Some,
    ensures
        sources_unresolved(sources, elements, input_scalars, to) == sources_unresolved(
            sources,
            elements,
            input_scalars,
            from,
        ),
    decreases to - from,
{
    if from < to {
        sources_unresolved_stays(sources, elements, input_scalars, from, (to - 1) as nat);
    }
}

/// Links every leaf of a partition to what it reads.
pub fn wire_leaf(
    wiring: &mut Wiring,
    leaf: &PartitionedLeaf,
    elements: &Elements,
    input_scalars: &StringHashSet,
) -> (result: Result<(), LowerError>)
    requires
        old(wiring).wf(),
    ensures
        final(wiring).wf(),
        match result {
            Ok(_) => {
                &&& final(wiring).links() == old(wiring).links().union(
                    leaf_links(*leaf, elements@, leaf.instances@.len()),
                )
                &&& final(wiring).asked@ == old(wiring).asked@ + leaf_connections(
                    *leaf,
                    elements@,
                    leaf.instances@.len(),
                )
                &&& uses_explained(*old(wiring), *final(wiring))
                &&& leaf_unresolved(*leaf, elements@, input_scalars@, leaf.instances@.len()) is None
            },
            Err(error) => {
                &&& is_leaf_unresolved(*leaf, elements@, input_scalars@, error@)
                &&& leaf_unresolved(*leaf, elements@, input_scalars@, leaf.instances@.len()) == Some(error@)
            },
        },
{
    let ghost start = wiring.links();
    let mut k: usize = 0;
    assert(start.union(Set::empty()) =~= start);
    assert(wiring.asked@ + Seq::<Connection>::empty() =~= wiring.asked@);
    while k < leaf.instances.len()
        invariant
            wiring.asked@ == old(wiring).asked@ + leaf_connections(*leaf, elements@, k as nat),
            wiring.wf(),
            start == old(wiring).links(),
            k <= leaf.instances.len(),
            wiring.links() == start.union(leaf_links(*leaf, elements@, k as nat)),
            uses_explained(*old(wiring), *wiring),
            leaf_unresolved(*leaf, elements@, input_scalars@, k as nat) is None,
        decreases leaf.instances.len() - k,
    {
        let instance = &leaf.instances[k];
        let ghost middle = wiring.links();
        let mut index: usize = 0;
        assert(middle.union(Set::empty()) =~= middle);
        let ghost earlier = wiring.asked@;
        assert(earlier + Seq::<Connection>::empty() =~= earlier);
        while index < instance.inputs.len()
            invariant
                wiring.asked@ == earlier + input_connections(*leaf, elements@, k as int, index as nat),
                wiring.wf(),
                k < leaf.instances.len(),
                *instance == leaf.instances[k as int],
                index <= instance.inputs.len(),
                start.subset_of(middle),
                start == old(wiring).links(),
                wiring.links() == middle.union(input_links(*leaf, elements@, k as int, index as nat)),
                uses_explained(*old(wiring), *wiring),
                leaf_unresolved(*leaf, elements@, input_scalars@, k as nat) is None,
                inputs_unresolved(*leaf, elements@, input_scalars@, k as int, index as nat) is None,
            decreases instance.inputs.len() - index,
        {
            let input = &instance.inputs[index];
            let ghost before = *wiring;
            let endpoint = match leaf.intermediates.get(input.as_str()) {
                Some(producer) => instance_port(producer.as_str(), input.as_str()),
                None => match wiring.endpoint_for_scalar(input.as_str(), elements, input_scalars) {
                    Ok(endpoint) => endpoint,
                    Err(error) => {
                        assert(error@ == ErrorView::UnresolvedSource(leaf.instances[k as int].inputs[index as int]@));
                        proof {
                            inputs_unresolved_stays(
                                *leaf,
                                elements@,
                                input_scalars@,
                                k as int,
                                (index + 1) as nat,
                                instance.inputs@.len(),
                            );
                            leaf_unresolved_stays(
                                *leaf,
                                elements@,
                                input_scalars@,
                                (k + 1) as nat,
                                leaf.instances@.len(),
                            );
                        }
                        return Err(error);
                    },
                },
            };
            let class = classify_logical_net(input.as_str(), false);
            let sink = instance_port(instance.instance.as_str(), input.as_str());
            let ghost link = (endpoint@, sink@);
            wiring.link(input.as_str(), class, endpoint, sink);
            proof {
                assert(wiring.links() =~= middle.union(input_links(*leaf, elements@, k as int, (index + 1) as nat)));
                assert(wiring.asked@ =~= earlier + input_connections(*leaf, elements@, k as int, (index + 1) as nat));
                link_explains(before, *wiring, link);
                explained_trans(*old(wiring), before, *wiring);
            }
            index += 1;
        }
        proof {
            assert(wiring.links() =~= start.union(leaf_links(*leaf, elements@, (k + 1) as nat)));
            assert(wiring.asked@ =~= old(wiring).asked@ + leaf_connections(*leaf, elements@, (k + 1) as nat));
        }
        k += 1;
    }
    Ok(())
}

/// A scalar net that is neither a state bit nor an input bit.
pub open spec fn is_unresolved(
    elements: Map<Seq<char>, Seq<char>>,
    input_scalars: Set<Seq<char>>,
    error: ErrorView,
) -> bool {
    match error {
        ErrorView::UnresolvedSource(name) => !elements.contains_key(name) && !input_scalars.contains(name),
        _ => false,
    }
}

/// Whether an error is that of an input of a leaf that no leaf produces, and that
/// is neither a state bit nor an input bit.
pub open spec fn is_leaf_unresolved(
    leaf: PartitionedLeaf,
    elements: Map<Seq<char>, Seq<char>>,
    input_scalars: Set<Seq<char>>,
    error: ErrorView,
) -> bool {
    &&& is_unresolved(elements, input_scalars, error)
    &&& exists|k: int, i: int|
        {
            &&& 0 <= k < leaf.instances.len()
            &&& 0 <= i < leaf.instances[k].inputs.len()
            &&& !leaf.intermediates@.contains_key((#[trigger] leaf.instances[k].inputs[i])@)
            &&& error == ErrorView::UnresolvedSource(leaf.instances[k].inputs[i]@)
        }
}

/// Whether an error is that of data that is neither a state bit nor an input bit.
pub open spec fn is_source_unresolved(
    sources: Seq<NextSource>,
    elements: Map<Seq<char>, Seq<char>>,
    input_scalars: Set<Seq<char>>,
    error: ErrorView,
) -> bool {
    &&& is_unresolved(elements, input_scalars, error)
    &&& exists|i: int|
        0 <= i < sources.len() && (#[trigger] sources[i])@ is Direct && error == ErrorView::UnresolvedSource(
            sources[i]@->Direct_0,
        )
}

/// Whether an error is that of a net that the module asks for and does not have,
/// or of a bit that the net does not have.
pub open spec fn is_net_error(module: ModuleView, error: ErrorView) -> bool {
    let widths = net_widths(module.nets);
    match error {
        ErrorView::UnknownNet(net) => is_wanted(module, net) && !widths.contains_key(net),
        ErrorView::BitOutOfRange(net, bit, width) => {
            &&& is_bit_wanted(module, net, bit)
            &&& widths.contains_key(net)
            &&& width == widths[net]
            &&& bit >= width
        },
        _ => false,
    }
}

/// Linking what was just declared used explains the use.
proof fn link_explains(before: Wiring, after: Wiring, link: Link)
    requires
        after.links() == before.links().insert(link),
        after.used@ == before.used@ || link.0 is SelfPort && after.used@ == before.used@.insert(link.0->SelfPort_0),
    ensures
        uses_explained(before, after),
{
    assert(after.links().contains(link));
    assert forall|name: Seq<char>| #[trigger] after.used@.contains(name) implies before.used@.contains(name)
        || self_driven(after.links(), name) by {
        if !before.used@.contains(name) {
            assert(link.0 == EndpointView::SelfPort(name));
            assert(after.links().contains((EndpointView::SelfPort(name), link.1)));
        }
    }
}

/// What drives one bit of state data.
pub open spec fn source_driver(elements: Map<Seq<char>, Seq<char>>, source: SourceView) -> EndpointView {
    match source {
        SourceView::Direct(name) => scalar_driver(elements, name),
        SourceView::Leaf(instance, port) => EndpointView::InstancePort(instance, port),
    }
}

/// The links of one state bit. A register is a master and a slave latch: data
/// goes to the master and from there to the slave, and the two are open on
/// opposite clock levels. A latch takes its data and enable directly.
pub open spec fn bit_links(cell: CellView, name: Seq<char>, control: Seq<char>, data: EndpointView) -> Set<Link> {
    let clock = EndpointView::SelfPort(control);
    match state_edge(cell.kind) {
        Some(edge) => {
            let inverter = name + "_clk_inv"@;
            let master = name + "_master"@;
            let slave = name + "_slave"@;
            let (on_low, on_high) = match edge {
                ClockEdge::Posedge => (master, slave),
                ClockEdge::Negedge => (slave, master),
            };
            Set::empty().insert((clock, EndpointView::InstancePort(inverter, "clk"@))).insert(
                (
                    EndpointView::InstancePort(inverter, "clk_n"@),
                    EndpointView::InstancePort(on_low, "en"@),
                ),
            ).insert((clock, EndpointView::InstancePort(on_high, "en"@))).insert(
                (data, EndpointView::InstancePort(master, "d"@)),
            ).insert((EndpointView::InstancePort(master, "q"@), EndpointView::InstancePort(slave, "d"@)))
        },
        None => {
            let latch = name + "_latch"@;
            Set::empty().insert((clock, EndpointView::InstancePort(latch, "en"@))).insert(
                (data, EndpointView::InstancePort(latch, "d"@)),
            )
        },
    }
}

/// The connections of one state bit, in order. The first one of a driver names its
/// net.
pub open spec fn bit_connections(
    cell: CellView,
    name: Seq<char>,
    control: Seq<char>,
    data_name: Seq<char>,
    data: EndpointView,
) -> Seq<Connection> {
    let clock = EndpointView::SelfPort(control);
    let own = control_net(cell);
    match state_edge(cell.kind) {
        Some(edge) => {
            let inverter = name + "_clk_inv"@;
            let master = name + "_master"@;
            let slave = name + "_slave"@;
            let (on_low, on_high) = match edge {
                ClockEdge::Posedge => (master, slave),
                ClockEdge::Negedge => (slave, master),
            };
            seq![
                Connection {
                    name: own,
                    class: NetClass::Clock,
                    driver: clock,
                    sink: EndpointView::InstancePort(inverter, "clk"@),
                },
                Connection {
                    name: inverter + "_clk_n"@,
                    class: NetClass::Clock,
                    driver: EndpointView::InstancePort(inverter, "clk_n"@),
                    sink: EndpointView::InstancePort(on_low, "en"@),
                },
                Connection {
                    name: own,
                    class: NetClass::Clock,
                    driver: clock,
                    sink: EndpointView::InstancePort(on_high, "en"@),
                },
                Connection {
                    name: data_name,
                    class: NetClass::Data,
                    driver: data,
                    sink: EndpointView::InstancePort(master, "d"@),
                },
                Connection {
                    name: master + "_q"@,
                    class: NetClass::Data,
                    driver: EndpointView::InstancePort(master, "q"@),
                    sink: EndpointView::InstancePort(slave, "d"@),
                },
            ]
        },
        None => {
            let latch = name + "_latch"@;
            seq![
                Connection {
                    name: own,
                    class: NetClass::Data,
                    driver: clock,
                    sink: EndpointView::InstancePort(latch, "en"@),
                },
                Connection {
                    name: data_name,
                    class: NetClass::Data,
                    driver: data,
                    sink: EndpointView::InstancePort(latch, "d"@),
                },
            ]
        },
    }
}

/// The name that the net of one bit of data is first given.
pub open spec fn data_text(data: ValueView, bit: nat, widths: Map<Seq<char>, usize>) -> Seq<char> {
    match data {
        ValueView::Net(net) => scalar_text(net, widths[net], bit),
        ValueView::Slice(net, slice) => scalar_text(net, widths[net], slice as nat),
        ValueView::Constant(_, _) => "__const_"@ + decimal(bit),
    }
}

/// The connections of the first `count` bits of a state cell.
pub open spec fn element_connections(
    cell: CellView,
    widths: Map<Seq<char>, usize>,
    elements: Map<Seq<char>, Seq<char>>,
    sources: Seq<NextSource>,
    count: nat,
) -> Seq<Connection>
    decreases count,
{
    if count == 0 {
        Seq::empty()
    } else {
        element_connections(cell, widths, elements, sources, (count - 1) as nat) + bit_connections(
            cell,
            state_bit(cell, widths, (count - 1) as nat),
            control_bit(cell, widths),
            data_text(state_data(cell), (count - 1) as nat, widths),
            source_driver(elements, sources[count - 1]@),
        )
    }
}

/// The scalar net that controls a state cell.
pub open spec fn control_bit(cell: CellView, widths: Map<Seq<char>, usize>) -> Seq<char> {
    scalar_text(control_net(cell), widths[control_net(cell)], 0)
}

/// The links of the first `count` bits of a state cell.
pub open spec fn element_links(
    cell: CellView,
    widths: Map<Seq<char>, usize>,
    elements: Map<Seq<char>, Seq<char>>,
    sources: Seq<NextSource>,
    count: nat,
) -> Set<Link>
    decreases count,
{
    if count == 0 {
        Set::empty()
    } else {
        element_links(cell, widths, elements, sources, (count - 1) as nat).union(
            bit_links(
                cell,
                state_bit(cell, widths, (count - 1) as nat),
                control_bit(cell, widths),
                source_driver(elements, sources[count - 1]@),
            ),
        )
    }
}

/// The name that the net of one bit of data is first given.
fn data_net_name(
    data: &LogicalValue,
    bit: usize,
    nets: &ScalarNets,
) -> (result: Result<String, LowerError>)
    ensures
        match result {
            Ok(name) => name@ == data_text(data@, bit as nat, nets@),
            Err(_) => !is_data_known(data@, nets@, bit as nat),
        },
{
    match data {
        LogicalValue::Net { net } => nets.scalar(net.as_str(), bit),
        LogicalValue::Slice { net, bit } => nets.scalar(net.as_str(), *bit),
        LogicalValue::Constant { .. } => {
            let digits = decimal_text(bit);
            Ok(join2("__const_", digits.as_str()))
        },
    }
}

/// What drives one bit of state data.
fn next_source_endpoint(
    wiring: &mut Wiring,
    source: &NextSource,
    elements: &Elements,
    input_scalars: &StringHashSet,
) -> (result: Result<Endpoint, LowerError>)
    requires
        old(wiring).wf(),
    ensures
        final(wiring).wf(),
        final(wiring).links() == old(wiring).links(),
        final(wiring).asked@ == old(wiring).asked@,
        match result {
            Ok(endpoint) => {
                &&& source@ matches SourceView::Direct(name) ==> source_error(elements@, input_scalars@, name) is None
                &&& endpoint@ == source_driver(elements@, source@)
                &&& final(wiring).used@ == old(wiring).used@ || endpoint@ is SelfPort && final(wiring).used@
                    == old(wiring).used@.insert(endpoint@->SelfPort_0)
                &&& endpoint@ is SelfPort ==> final(wiring).used@.contains(endpoint@->SelfPort_0)
            },
            Err(error) => {
                &&& is_unresolved(elements@, input_scalars@, error@)
                &&& source@ matches SourceView::Direct(name) && error@ == ErrorView::UnresolvedSource(name)
            },
        },
{
    match source {
        NextSource::Direct(name) => wiring.endpoint_for_scalar(name.as_str(), elements, input_scalars),
        NextSource::Leaf { instance, port } => Ok(instance_port(instance.as_str(), port.as_str())),
    }
}

/// Links the elements of one state cell.
pub fn wire_elements(
    wiring: &mut Wiring,
    module: &LogicalModule,
    nets: &ScalarNets,
    plan: &StatePlan,
    sources: &Vec<NextSource>,
    elements: &Elements,
    input_scalars: &StringHashSet,
) -> (result: Result<(), LowerError>)
    requires
        old(wiring).wf(),
        nets@ == net_widths(module@.nets),
        is_plan(module@.cells, nets@, *plan),
        is_live_name(module@, module@.cells[plan.cell as int].name),
        sources.len() == plan.width,
        forall|bit: nat| bit < plan.width ==> #[trigger] is_data_known(
            state_data(module@.cells[plan.cell as int]),
            nets@,
            bit,
        ),
    ensures
        final(wiring).wf(),
        match result {
            Ok(_) => {
                &&& elements_error(module@.cells[plan.cell as int], nets@, elements@, input_scalars@, sources@) is None
                &&& final(wiring).links() == old(wiring).links().union(
                    element_links(
                        module@.cells[plan.cell as int],
                        nets@,
                        elements@,
                        sources@,
                        plan.width as nat,
                    ),
                )
                &&& final(wiring).asked@ == old(wiring).asked@ + element_connections(
                    module@.cells[plan.cell as int],
                    nets@,
                    elements@,
                    sources@,
                    plan.width as nat,
                )
                &&& uses_explained(*old(wiring), *final(wiring))
            },
            Err(error) => {
                &&& elements_error(module@.cells[plan.cell as int], nets@, elements@, input_scalars@, sources@) == Some(
                    error@,
                )
                &&& is_source_unresolved(sources@, elements@, input_scalars@, error@) || is_net_error(module@, error@)
            },
        },
{
    let ghost cell = module@.cells[plan.cell as int];
    let ghost widths = nets@;
    let ghost start = wiring.links();
    let source_cell = &module.cells[plan.cell];
    assert(source_cell@ == cell);
    let data = match source_cell.input_value("d") {
        Some(data) => data,
        None => {
            proof {
                assert(false);
            }
            return Err(LowerError::LostNet("d".to_owned()));
        },
    };
    proof {
        let k = pin_value_is_input(cell.inputs, control_pin(cell.kind));
        assert(reads_net(module@.cells[plan.cell as int], plan.control@));
        assert(is_live_cell(module@, plan.cell as int));
        root_is_wanted(module@, plan.control@);
    }
    let control_scalar = match nets.scalar(plan.control.as_str(), 0) {
        Ok(scalar) => scalar,
        Err(error) => return Err(error),
    };
    assert(control_scalar@ == control_bit(cell, widths));
    assert(start.union(Set::empty()) =~= start);
    assert(wiring.asked@ + Seq::<Connection>::empty() =~= wiring.asked@);
    let mut bit: usize = 0;
    while bit < plan.width
        invariant
            wiring.asked@ == old(wiring).asked@ + element_connections(cell, widths, elements@, sources@, bit as nat),
            wiring.wf(),
            widths == nets@,
            widths == net_widths(module@.nets),
            is_plan(module@.cells, widths, *plan),
            is_live_name(module@, cell.name),
            cell == module@.cells[plan.cell as int],
            data@ == state_data(cell),
            sources.len() == plan.width,
            forall|bit: nat| bit < plan.width ==> #[trigger] is_data_known(state_data(cell), widths, bit),
            control_error(cell, widths) is None,
            sources_unresolved(sources@, elements@, input_scalars@, bit as nat) is None,
            control_scalar@ == control_bit(cell, widths),
            start == old(wiring).links(),
            bit <= plan.width,
            wiring.links() == start.union(element_links(cell, widths, elements@, sources@, bit as nat)),
            uses_explained(*old(wiring), *wiring),
        decreases plan.width - bit,
    {
        let output = super::scalar::scalar_name(plan.output.as_str(), plan.width, bit);
        assert(output@ == state_bit(cell, widths, bit as nat));
        let ghost before = *wiring;
        let control = wiring.input_endpoint(control_scalar.as_str());
        let ghost control_view = control@;
        let ghost data_view = source_driver(elements@, sources[bit as int]@);
        match plan.edge {
            Some(edge) => {
                let clock_inverter = join2(output.as_str(), "_clk_inv");
                let master = join2(output.as_str(), "_master");
                let slave = join2(output.as_str(), "_slave");
                let ghost declared = *wiring;
                let clock_again = control.copy();
                let inverter_sink = instance_port(clock_inverter.as_str(), "clk");
                let ghost first_link = (control@, inverter_sink@);
                wiring.link(plan.control.as_str(), NetClass::Clock, control, inverter_sink);
                let ghost first = *wiring;
                proof {
                    link_explains(before, first, first_link);
                }
                let inverted_clock = join2(clock_inverter.as_str(), "_clk_n");
                let (on_low, on_high) = match edge {
                    ClockEdge::Posedge => (&master, &slave),
                    ClockEdge::Negedge => (&slave, &master),
                };
                let low_driver = instance_port(clock_inverter.as_str(), "clk_n");
                let low_sink = instance_port(on_low.as_str(), "en");
                let ghost second_link = (low_driver@, low_sink@);
                wiring.link(inverted_clock.as_str(), NetClass::Clock, low_driver, low_sink);
                let ghost second = *wiring;
                proof {
                    link_explains(first, second, second_link);
                    explained_trans(before, first, second);
                }
                let high_sink = instance_port(on_high.as_str(), "en");
                let ghost third_link = (clock_again@, high_sink@);
                wiring.link(plan.control.as_str(), NetClass::Clock, clock_again, high_sink);
                let ghost third = *wiring;
                proof {
                    link_explains(second, third, third_link);
                    explained_trans(before, second, third);
                }
                assert(is_data_known(state_data(cell), widths, bit as nat));
                let data_name = match data_net_name(data, bit, nets) {
                    Ok(name) => name,
                    Err(error) => {
                        proof {
                            assert(false);
                        }
                        return Err(error);
                    },
                };
                let driver = match next_source_endpoint(wiring, &sources[bit], elements, input_scalars) {
                    Ok(driver) => driver,
                    Err(error) => {
                        assert(sources@[bit as int]@ is Direct);
                        proof {
                            sources_unresolved_stays(
                                sources@,
                                elements@,
                                input_scalars@,
                                (bit + 1) as nat,
                                sources@.len(),
                            );
                        }
                        return Err(error);
                    },
                };
                let data_sink = instance_port(master.as_str(), "d");
                let ghost fourth_link = (driver@, data_sink@);
                wiring.link(data_name.as_str(), NetClass::Data, driver, data_sink);
                let ghost fourth = *wiring;
                proof {
                    link_explains(third, fourth, fourth_link);
                    explained_trans(before, third, fourth);
                }
                let master_name = join2(master.as_str(), "_q");
                let hand_over = instance_port(master.as_str(), "q");
                let slave_sink = instance_port(slave.as_str(), "d");
                let ghost fifth_link = (hand_over@, slave_sink@);
                wiring.link(master_name.as_str(), NetClass::Data, hand_over, slave_sink);
                proof {
                    link_explains(fourth, *wiring, fifth_link);
                    explained_trans(before, fourth, *wiring);
                    assert(wiring.links() =~= before.links().union(
                        bit_links(cell, output@, control_scalar@, data_view),
                    ));
                }
            },
            None => {
                let latch = join2(output.as_str(), "_latch");
                let enable_sink = instance_port(latch.as_str(), "en");
                let ghost first_link = (control@, enable_sink@);
                wiring.link(plan.control.as_str(), NetClass::Data, control, enable_sink);
                let ghost first = *wiring;
                proof {
                    link_explains(before, first, first_link);
                }
                assert(is_data_known(state_data(cell), widths, bit as nat));
                let data_name = match data_net_name(data, bit, nets) {
                    Ok(name) => name,
                    Err(error) => {
                        proof {
                            assert(false);
                        }
                        return Err(error);
                    },
                };
                let driver = match next_source_endpoint(wiring, &sources[bit], elements, input_scalars) {
                    Ok(driver) => driver,
                    Err(error) => {
                        assert(sources@[bit as int]@ is Direct);
                        proof {
                            sources_unresolved_stays(
                                sources@,
                                elements@,
                                input_scalars@,
                                (bit + 1) as nat,
                                sources@.len(),
                            );
                        }
                        return Err(error);
                    },
                };
                let data_sink = instance_port(latch.as_str(), "d");
                let ghost second_link = (driver@, data_sink@);
                wiring.link(data_name.as_str(), NetClass::Data, driver, data_sink);
                proof {
                    link_explains(first, *wiring, second_link);
                    explained_trans(before, first, *wiring);
                    assert(wiring.links() =~= before.links().union(
                        bit_links(cell, output@, control_scalar@, data_view),
                    ));
                }
            },
        }
        proof {
            assert(wiring.links() =~= start.union(
                element_links(cell, widths, elements@, sources@, (bit + 1) as nat),
            ));
            assert(wiring.asked@ =~= before.asked@ + bit_connections(
                cell,
                output@,
                control_scalar@,
                data_text(data@, bit as nat, widths),
                data_view,
            ));
            assert(wiring.asked@ =~= old(wiring).asked@ + element_connections(
                cell,
                widths,
                elements@,
                sources@,
                (bit + 1) as nat,
            ));
            explained_trans(*old(wiring), before, *wiring);
        }
        bit += 1;
    }
    Ok(())
}

} // verus!
