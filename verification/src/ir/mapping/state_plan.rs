//! State cells, their elements, and the links between endpoints.

use super::error::{ErrorView, LowerError};
use super::liveness::is_live_name;
use super::nets::{
    all_connected, connecting_next, connects, drivers_differ, self_port, Connection, NetConnections,
};
use super::scalar::{net_widths, scalar_text, ScalarNets};
use crate::ir::logical::{
    kind_is_sequential, pin_net, pin_value, CellView, ClockEdge, LogicalCellKind, LogicalModule, LogicalValue,
    ModuleView, ValueView,
};
use crate::ir::routable::{Endpoint, EndpointView, NetClass};
use crate::text::join2;
use vstd::hash_map::StringHashMap;
use vstd::hash_set::StringHashSet;
use vstd::prelude::*;

verus! {

/// The pin that controls a state cell.
pub open spec fn control_pin(kind: LogicalCellKind) -> Seq<char> {
    if kind is DLatch {
        "enable"@
    } else {
        "clock"@
    }
}

/// What the controlling pin of a state cell is called in errors.
pub open spec fn control_role(kind: LogicalCellKind) -> Seq<char> {
    if kind is DLatch {
        "latch enable"@
    } else {
        "state clock"@
    }
}

/// The net that a state cell drives.
pub open spec fn state_net(cell: CellView) -> Seq<char> {
    pin_net(cell.outputs, "q"@)->0
}

/// The net that controls a state cell.
pub open spec fn control_net(cell: CellView) -> Seq<char> {
    pin_value(cell.inputs, control_pin(cell.kind))->0->Net_0
}

/// The data of a state cell.
pub open spec fn state_data(cell: CellView) -> ValueView {
    pin_value(cell.inputs, "d"@)->0
}

/// Why a state cell cannot be lowered, if it cannot.
pub open spec fn plan_error(cell: CellView, widths: Map<Seq<char>, usize>) -> Option<ErrorView> {
    if pin_net(cell.outputs, "q"@) is None {
        Some(ErrorView::MissingOutput(cell.name, "q"@))
    } else if !widths.contains_key(state_net(cell)) {
        Some(ErrorView::UnknownNet(state_net(cell)))
    } else if pin_value(cell.inputs, "d"@) is None {
        Some(ErrorView::MissingInput(cell.name, "d"@))
    } else {
        match pin_value(cell.inputs, control_pin(cell.kind)) {
            None => Some(ErrorView::MissingInput(cell.name, control_pin(cell.kind))),
            Some(ValueView::Net(_)) => None,
            Some(_) => Some(ErrorView::NotANet(control_role(cell.kind))),
        }
    }
}

/// The name of one bit of a state cell.
pub open spec fn state_bit(cell: CellView, widths: Map<Seq<char>, usize>, bit: nat) -> Seq<char> {
    scalar_text(state_net(cell), widths[state_net(cell)], bit)
}

/// The element that exposes a state bit: the slave of a register, or the latch.
pub open spec fn element_text(kind: LogicalCellKind, name: Seq<char>) -> Seq<char> {
    if kind is DLatch {
        name + "_latch"@
    } else {
        name + "_slave"@
    }
}

/// A state cell that is lowered.
pub struct StatePlan {
    pub cell: usize,
    pub width: usize,
    pub output: String,
    pub control: String,
    /// The clock edge; none for a latch.
    pub edge: Option<ClockEdge>,
}

/// The clock edge of a state cell; none for a latch.
pub open spec fn state_edge(kind: LogicalCellKind) -> Option<ClockEdge> {
    match kind {
        LogicalCellKind::Dff { edge } => Some(edge),
        LogicalCellKind::Register { edge, .. } => Some(edge),
        _ => None,
    }
}

/// `plan` describes cell `plan.cell`.
pub open spec fn is_plan(cells: Seq<CellView>, widths: Map<Seq<char>, usize>, plan: StatePlan) -> bool {
    let cell = cells[plan.cell as int];
    &&& plan.cell < cells.len()
    &&& kind_is_sequential(cell.kind)
    &&& plan_error(cell, widths) is None
    &&& plan.output@ == state_net(cell)
    &&& plan.width == widths[state_net(cell)]
    &&& plan.control@ == control_net(cell)
    &&& plan.edge == state_edge(cell.kind)
}

/// The live state cells among the first `count` cells, in order.
pub open spec fn live_cells(module: ModuleView, count: nat) -> Seq<int>
    decreases count,
{
    if count == 0 {
        Seq::empty()
    } else {
        let before = live_cells(module, (count - 1) as nat);
        let cell = module.cells[count - 1];
        if kind_is_sequential(cell.kind) && is_live_name(module, cell.name) {
            before.push(count - 1)
        } else {
            before
        }
    }
}

/// The first of the first `count` cells that is live and cannot be planned.
pub open spec fn plans_error(module: ModuleView, count: nat) -> Option<ErrorView>
    decreases count,
{
    if count == 0 {
        None
    } else {
        let cell = module.cells[count - 1];
        match plans_error(module, (count - 1) as nat) {
            Some(error) => Some(error),
            None => if kind_is_sequential(cell.kind) && is_live_name(module, cell.name) {
                plan_error(cell, net_widths(module.nets))
            } else {
                None
            },
        }
    }
}

/// An earlier cell that cannot be planned stays the first.
proof fn plans_error_stays(module: ModuleView, from: nat, to: nat)
    requires
        from <= to,
        plans_error(module, from) is Some,
    ensures
        plans_error(module, to) == plans_error(module, from),
    decreases to - from,
{
    if from < to {
        plans_error_stays(module, from, (to - 1) as nat);
    }
}

/// Live cells are state cells with the name of one that can reach an output.
pub proof fn live_cells_are_live(module: ModuleView, count: nat)
    requires
        count <= module.cells.len(),
    ensures
        forall|i: int|
            0 <= i < live_cells(module, count).len() ==> 0 <= #[trigger] live_cells(module, count)[i] < count
                && kind_is_sequential(module.cells[live_cells(module, count)[i]].kind) && is_live_name(
                module,
                module.cells[live_cells(module, count)[i]].name,
            ),
    decreases count,
{
    if count > 0 {
        live_cells_are_live(module, (count - 1) as nat);
    }
}

/// The cells of a list of plans.
pub open spec fn planned_cells(plans: Seq<StatePlan>) -> Seq<int> {
    plans.map_values(|plan: StatePlan| plan.cell as int)
}

/// What a state cell needs to be lowered.
fn plan_cell(module: &LogicalModule, nets: &ScalarNets, index: usize) -> (result: Result<StatePlan, LowerError>)
    requires
        index < module.cells.len(),
        kind_is_sequential(module.cells[index as int].kind),
        nets@ == net_widths(module@.nets),
    ensures
        match result {
            Ok(plan) => plan.cell == index && is_plan(module@.cells, nets@, plan),
            Err(error) => plan_error(module@.cells[index as int], nets@) == Some(error@),
        },
{
    let cell = &module.cells[index];
    assert(module@.cells[index as int] == cell@);
    let output = match cell.output("q") {
        Some(output) => output.clone(),
        None => return Err(LowerError::MissingOutput { cell: cell.name.clone(), pin: "q".to_owned() }),
    };
    let width: usize = match nets.width(output.as_str()) {
        Ok(width) => width,
        Err(error) => return Err(error),
    };
    if cell.input_value("d").is_none() {
        return Err(LowerError::MissingInput { cell: cell.name.clone(), pin: "d".to_owned() });
    }
    let is_latch = matches!(cell.kind, LogicalCellKind::DLatch { .. });
    let pin = if is_latch { "enable" } else { "clock" };
    let role = if is_latch { "latch enable" } else { "state clock" };
    let control = match cell.input_value(pin) {
        Some(LogicalValue::Net { net }) => net.clone(),
        Some(_) => return Err(LowerError::NotANet(role.to_owned())),
        None => return Err(LowerError::MissingInput { cell: cell.name.clone(), pin: pin.to_owned() }),
    };
    let edge = match cell.kind {
        LogicalCellKind::Dff { edge } => Some(edge),
        LogicalCellKind::Register { edge, .. } => Some(edge),
        _ => None,
    };
    Ok(StatePlan { cell: index, width, output, control, edge })
}

/// Plans every live state cell.
pub fn plan_cells(module: &LogicalModule, nets: &ScalarNets, live: &StringHashSet) -> (result: Result<
    Vec<StatePlan>,
    LowerError,
>)
    requires
        nets@ == net_widths(module@.nets),
        forall|name: Seq<char>| #[trigger] live@.contains(name) <==> is_live_name(module@, name),
    ensures
        match result {
            Ok(plans) => {
                &&& plans_error(module@, module@.cells.len()) is None
                &&& planned_cells(plans@) == live_cells(module@, module@.cells.len())
                &&& forall|i: int| 0 <= i < plans.len() ==> is_plan(module@.cells, nets@, #[trigger] plans[i])
            },
            Err(error) => {
                &&& plans_error(module@, module@.cells.len()) == Some(error@)
                &&& exists|index: int|
                    {
                        &&& 0 <= index < module@.cells.len()
                        &&& kind_is_sequential(module@.cells[index].kind)
                        &&& is_live_name(module@, module@.cells[index].name)
                        &&& #[trigger] plan_error(module@.cells[index], nets@) == Some(error@)
                    }
            },
        },
{
    let ghost cells = module@.cells;
    let mut plans: Vec<StatePlan> = Vec::new();
    let mut index: usize = 0;
    assert(planned_cells(plans@) =~= live_cells(module@, 0));
    while index < module.cells.len()
        invariant
            cells == module@.cells,
            nets@ == net_widths(module@.nets),
            forall|name: Seq<char>| #[trigger] live@.contains(name) <==> is_live_name(module@, name),
            index <= module.cells.len(),
            planned_cells(plans@) == live_cells(module@, index as nat),
            plans_error(module@, index as nat) is None,
            forall|i: int| 0 <= i < plans.len() ==> is_plan(cells, nets@, #[trigger] plans[i]),
        decreases module.cells.len() - index,
    {
        let cell = &module.cells[index];
        assert(cells[index as int] == cell@);
        if cell.kind.is_sequential() && live.contains(cell.name.as_str()) {
            let ghost before = planned_cells(plans@);
            match plan_cell(module, nets, index) {
                Ok(plan) => {
                    plans.push(plan);
                    assert(planned_cells(plans@) =~= before.push(index as int));
                },
                Err(error) => {
                    proof {
                        plans_error_stays(module@, (index + 1) as nat, cells.len());
                    }
                    return Err(error);
                },
            }
        }
        index += 1;
    }
    Ok(plans)
}

/// The elements of the state bits among the first `count` bits of a cell.
pub open spec fn bit_elements(
    cell: CellView,
    widths: Map<Seq<char>, usize>,
    before: Map<Seq<char>, Seq<char>>,
    count: nat,
) -> Map<Seq<char>, Seq<char>>
    decreases count,
{
    if count == 0 {
        before
    } else {
        let name = state_bit(cell, widths, (count - 1) as nat);
        bit_elements(cell, widths, before, (count - 1) as nat).insert(name, element_text(cell.kind, name))
    }
}

/// The element behind each state bit of the first `count` of `live` cells.
pub open spec fn elements_of(
    cells: Seq<CellView>,
    widths: Map<Seq<char>, usize>,
    live: Seq<int>,
    count: nat,
) -> Map<Seq<char>, Seq<char>>
    decreases count,
{
    if count == 0 {
        Map::empty()
    } else {
        let cell = cells[live[count - 1]];
        bit_elements(
            cell,
            widths,
            elements_of(cells, widths, live, (count - 1) as nat),
            widths[state_net(cell)] as nat,
        )
    }
}

/// The names of state bits to the names of their elements.
pub struct Elements {
    map: StringHashMap<String>,
}

impl View for Elements {
    type V = Map<Seq<char>, Seq<char>>;

    closed spec fn view(&self) -> Map<Seq<char>, Seq<char>> {
        self.map@.map_values(|element: String| element@)
    }
}

impl Elements {
    /// The element behind a scalar net.
    pub fn get(&self, name: &str) -> (element: Option<&String>)
        ensures
            match element {
                Some(element) => self@.contains_key(name@) && element@ == self@[name@],
                None => !self@.contains_key(name@),
            },
    {
        self.map.get(name)
    }

    /// The elements of planned state cells.
    pub fn of_plans(plans: &Vec<StatePlan>, Ghost(cells): Ghost<Seq<CellView>>, Ghost(widths): Ghost<Map<Seq<char>, usize>>) -> (elements: Self)
        requires
            forall|i: int| 0 <= i < plans.len() ==> is_plan(cells, widths, #[trigger] plans[i]),
        ensures
            elements@ == elements_of(cells, widths, planned_cells(plans@), plans@.len()),
    {
        let ghost live = planned_cells(plans@);
        let mut elements = Elements { map: StringHashMap::new() };
        assert(elements@ =~= Map::empty());
        let mut index: usize = 0;
        while index < plans.len()
            invariant
                live == planned_cells(plans@),
                index <= plans.len(),
                forall|i: int| 0 <= i < plans.len() ==> is_plan(cells, widths, #[trigger] plans[i]),
                elements@ == elements_of(cells, widths, live, index as nat),
            decreases plans.len() - index,
        {
            let plan = &plans[index];
            assert(is_plan(cells, widths, plans[index as int]));
            let ghost cell = cells[plan.cell as int];
            let ghost before = elements@;
            let mut bit: usize = 0;
            while bit < plan.width
                invariant
                    is_plan(cells, widths, *plan),
                    cell == cells[plan.cell as int],
                    bit <= plan.width,
                    elements@ == bit_elements(cell, widths, before, bit as nat),
                decreases plan.width - bit,
            {
                let name = super::scalar::scalar_name(plan.output.as_str(), plan.width, bit);
                let element = plan.element(name.as_str());
                let ghost earlier = elements@;
                let ghost name_view = name@;
                let ghost element_view = element@;
                elements.map.insert(name, element);
                assert(elements@ =~= earlier.insert(name_view, element_view));
                bit += 1;
            }
            index += 1;
        }
        elements
    }
}

impl StatePlan {
    /// The element that exposes the state bit `name`.
    pub fn element(&self, name: &str) -> (element: String)
        ensures
            element@ == (if self.edge is None { name@ + "_latch"@ } else { name@ + "_slave"@ }),
    {
        if self.edge.is_none() {
            join2(name, "_latch")
        } else {
            join2(name, "_slave")
        }
    }
}

/// A driver and a sink that it reaches.
pub type Link = (EndpointView, EndpointView);

/// What drives a scalar net at the top: a state element, or an input port.
pub open spec fn scalar_driver(elements: Map<Seq<char>, Seq<char>>, name: Seq<char>) -> EndpointView {
    if elements.contains_key(name) {
        EndpointView::InstancePort(elements[name], "q"@)
    } else {
        EndpointView::SelfPort(name)
    }
}

/// Nets under construction, and the input bits that they read.
pub struct Wiring {
    pub connections: NetConnections,
    pub used: StringHashSet,
    /// The connections that were asked for.
    pub asked: Ghost<Seq<Connection>>,
}

impl Wiring {
    /// The links that are there.
    pub open spec fn links(&self) -> Set<Link> {
        Set::new(|link: Link| connects(self.connections@, link.0, link.1))
    }

    /// The nets are those of the connections, no endpoint drives two of them, and
    /// every input bit that drives one is used.
    pub open spec fn wf(&self) -> bool {
        &&& self.connections@ == all_connected(self.asked@)
        &&& drivers_differ(self.connections@)
        &&& forall|name: Seq<char>, sink: EndpointView| #[trigger]
            self.links().contains((EndpointView::SelfPort(name), sink)) ==> self.used@.contains(name)
    }

    pub fn new() -> (wiring: Self)
        ensures
            wiring.wf(),
            wiring.links() == Set::<Link>::empty(),
            wiring.used@ == Set::<Seq<char>>::empty(),
            wiring.asked@ == Seq::<Connection>::empty(),
    {
        let wiring = Wiring {
            connections: NetConnections::new(),
            used: StringHashSet::new(),
            asked: Ghost(Seq::empty()),
        };
        assert(wiring.links() =~= Set::empty());
        wiring
    }

    /// Links a driver to a sink.
    pub fn link(&mut self, name: &str, class: NetClass, driver: Endpoint, sink: Endpoint)
        requires
            old(self).wf(),
            driver@ is SelfPort ==> old(self).used@.contains(driver@->SelfPort_0),
        ensures
            final(self).wf(),
            final(self).links() == old(self).links().insert((driver@, sink@)),
            final(self).used@ == old(self).used@,
            final(self).asked@ == old(self).asked@.push(
                (Connection { name: name@, class, driver: driver@, sink: sink@ }),
            ),
    {
        let ghost before = self.links();
        let ghost driver_view = driver@;
        let ghost sink_view = sink@;
        self.connections.connect(name, class, driver, sink);
        proof {
            let link = Connection { name: name@, class, driver: driver_view, sink: sink_view };
            connecting_next(self.asked@, link);
            self.asked@ = self.asked@.push(link);
            assert forall|link: Link| #[trigger] self.links().contains(link) == before.insert(
                (driver_view, sink_view),
            ).contains(link) by {
                let (other, other_sink) = link;
                assert(connects(self.connections@, other, other_sink) <==> connects(
                    old(self).connections@,
                    other,
                    other_sink,
                ) || other == driver_view && other_sink == sink_view);
            }
            assert(self.links() =~= before.insert((driver_view, sink_view)));
        }
    }

    /// The input bit `scalar` as a driver; from now on it is used.
    pub fn input_endpoint(&mut self, scalar: &str) -> (endpoint: Endpoint)
        requires
            old(self).wf(),
        ensures
            final(self).wf(),
            final(self).links() == old(self).links(),
            final(self).asked@ == old(self).asked@,
            final(self).used@ == old(self).used@.insert(scalar@),
            endpoint@ == EndpointView::SelfPort(scalar@),
    {
        self.used.insert(scalar.to_owned());
        assert(self.links() =~= old(self).links());
        self_port(scalar)
    }

    /// What drives a scalar net at the top.
    pub fn endpoint_for_scalar(&mut self, scalar: &str, elements: &Elements, input_scalars: &StringHashSet) -> (result: Result<
        Endpoint,
        LowerError,
    >)
        requires
            old(self).wf(),
        ensures
            final(self).wf(),
            final(self).links() == old(self).links(),
            final(self).asked@ == old(self).asked@,
            match result {
                Ok(endpoint) => {
                    &&& elements@.contains_key(scalar@) || input_scalars@.contains(scalar@)
                    &&& endpoint@ == scalar_driver(elements@, scalar@)
                    &&& final(self).used@ == (if elements@.contains_key(scalar@) {
                        old(self).used@
                    } else {
                        old(self).used@.insert(scalar@)
                    })
                },
                Err(error) => {
                    &&& !elements@.contains_key(scalar@) && !input_scalars@.contains(scalar@)
                    &&& error@ == ErrorView::UnresolvedSource(scalar@)
                },
            },
    {
        match elements.get(scalar) {
            Some(element) => Ok(super::nets::instance_port(element.as_str(), "q")),
            None => {
                if input_scalars.contains(scalar) {
                    Ok(self.input_endpoint(scalar))
                } else {
                    Err(LowerError::UnresolvedSource(scalar.to_owned()))
                }
            },
        }
    }
}

} // verus!
