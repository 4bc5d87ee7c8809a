//! The nets of a design by the ports of its instances.

use super::plan::{RoutingConnection, RoutingTopInput};
use super::ports::{
    found_port, placed_cell, port_targets, ports_fit, resolve_observable_port_position, resolve_port_targets,
    PlacedModule,
};
use super::inputs::dotted;
use crate::text::same_text;
use crate::transform::place_and_route::global_pnr::ir::{access_cells, LayoutCandidate};
use crate::transform::place_and_route::global_pnr::route_engine::route::{same_course, ResolvedEndpoint, RoutedNet};
use crate::world::position::Position;
use vstd::prelude::*;

verus! {

/// A port of a design or of one of its instances.
#[derive(Clone, Debug)]
pub struct ResolvedPort {
    pub name: String,
}

/// An instance of a design.
#[derive(Clone, Debug)]
pub struct ResolvedInstance {
    pub display_name: String,
}

/// A net with the end that drives it, and those that it drives.
#[derive(Clone, Debug)]
pub struct ResolvedNet {
    pub id: usize,
    pub display_name: String,
    pub driver: ResolvedEndpoint,
    pub sinks: Vec<ResolvedEndpoint>,
}

/// The nets of a design. Ends name ports and instances by their index.
#[derive(Clone, Debug)]
pub struct ResolvedPnrTopology {
    pub ports: Vec<ResolvedPort>,
    pub instances: Vec<ResolvedInstance>,
    pub nets: Vec<ResolvedNet>,
}

/// The name of an instance and of one of its ports.
pub type PairView = (Seq<char>, Seq<char>);

/// The pair of an end, if it is the port of an instance.
pub open spec fn pair_of(topology: ResolvedPnrTopology, end: ResolvedEndpoint) -> Option<PairView> {
    match end {
        ResolvedEndpoint::TopPort { .. } => None,
        ResolvedEndpoint::InstancePort { instance, port } => if instance < topology.instances@.len() && port
            < topology.ports@.len() {
            Some((topology.instances@[instance as int].display_name@, topology.ports@[port as int].name@))
        } else {
            None
        },
    }
}

/// The label of an end: the name of a port of the design, or those of an
/// instance and its port with a dot between them.
pub open spec fn label_of(topology: ResolvedPnrTopology, end: ResolvedEndpoint) -> Option<Seq<char>> {
    match end {
        ResolvedEndpoint::TopPort { port } => if port < topology.ports@.len() {
            Some(topology.ports@[port as int].name@)
        } else {
            None
        },
        ResolvedEndpoint::InstancePort { .. } => match pair_of(topology, end) {
            Some(pair) => Some(pair.0 + seq!['.'] + pair.1),
            None => None,
        },
    }
}

/// The first net from `start` on whose driver has a label.
pub open spec fn net_from(topology: ResolvedPnrTopology, label: Seq<char>, start: nat) -> Option<ResolvedNet>
    decreases topology.nets@.len() - start,
{
    if start >= topology.nets@.len() {
        None
    } else if label_of(topology, topology.nets@[start as int].driver) == Some(label) {
        Some(topology.nets@[start as int])
    } else {
        net_from(topology, label, start + 1)
    }
}

/// The first end from `start` on that has a label.
pub open spec fn end_from(
    topology: ResolvedPnrTopology,
    ends: Seq<ResolvedEndpoint>,
    label: Seq<char>,
    start: nat,
) -> Option<ResolvedEndpoint>
    decreases ends.len() - start,
{
    if start >= ends.len() {
        None
    } else if label_of(topology, ends[start as int]) == Some(label) {
        Some(ends[start as int])
    } else {
        end_from(topology, ends, label, start + 1)
    }
}

impl ResolvedPnrTopology {
    /// The label of an end.
    pub fn endpoint_label(&self, end: ResolvedEndpoint) -> (label: Option<String>)
        ensures
            match label {
                Some(label) => label_of(*self, end) == Some(label@),
                None => label_of(*self, end) is None,
            },
    {
        match end {
            ResolvedEndpoint::TopPort { port } => if port < self.ports.len() {
                Some(self.ports[port].name.clone())
            } else {
                None
            },
            ResolvedEndpoint::InstancePort { .. } => match resolved_instance_port_pair(self, end) {
                Some(pair) => Some(dotted(pair.0.as_str(), pair.1.as_str())),
                None => None,
            },
        }
    }

    fn has_label(&self, end: ResolvedEndpoint, label: &str) -> (found: bool)
        ensures
            found == (label_of(*self, end) == Some(label@)),
    {
        match self.endpoint_label(end) {
            Some(own) => same_text(own.as_str(), label),
            None => false,
        }
    }

    /// The first net whose driver has a label.
    pub fn net_by_driver_label(&self, label: &str) -> (found: Option<&ResolvedNet>)
        ensures
            match found {
                Some(net) => net_from(*self, label@, 0) == Some(*net),
                None => net_from(*self, label@, 0) is None,
            },
    {
        let mut index: usize = 0;
        while index < self.nets.len() && !self.has_label(self.nets[index].driver, label)
            invariant
                index <= self.nets.len(),
                net_from(*self, label@, 0) == net_from(*self, label@, index as nat),
            decreases self.nets.len() - index,
        {
            index += 1;
        }
        if index < self.nets.len() {
            Some(&self.nets[index])
        } else {
            None
        }
    }

    /// The first sink of a net that has a label.
    pub fn sink_by_label(&self, net: &ResolvedNet, label: &str) -> (found: Option<ResolvedEndpoint>)
        ensures
            found == end_from(*self, net.sinks@, label@, 0),
    {
        let mut index: usize = 0;
        while index < net.sinks.len() && !self.has_label(net.sinks[index], label)
            invariant
                index <= net.sinks.len(),
                end_from(*self, net.sinks@, label@, 0) == end_from(*self, net.sinks@, label@, index as nat),
            decreases net.sinks.len() - index,
        {
            index += 1;
        }
        if index < net.sinks.len() {
            Some(net.sinks[index])
        } else {
            None
        }
    }
}

/// The names of an instance and its port, if an end is the port of an instance.
pub fn resolved_instance_port_pair(topology: &ResolvedPnrTopology, end: ResolvedEndpoint) -> (pair: Option<
    (String, String),
>)
    ensures
        match pair {
            Some(pair) => pair_of(*topology, end) == Some((pair.0@, pair.1@)),
            None => pair_of(*topology, end) is None,
        },
{
    match end {
        ResolvedEndpoint::TopPort { .. } => None,
        ResolvedEndpoint::InstancePort { instance, port } => {
            if instance < topology.instances.len() && port < topology.ports.len() {
                Some((topology.instances[instance].display_name.clone(), topology.ports[port].name.clone()))
            } else {
                None
            }
        },
    }
}

// ---------------------------------------------------------------------------
// Plans
// ---------------------------------------------------------------------------
/// What there is to route: inputs of the design, and connections between
/// instances.
#[derive(Debug)]
pub struct RoutingPlan {
    pub top_inputs: Vec<RoutingTopInput>,
    pub vars: Vec<RoutingConnection>,
}

/// Why nets cannot be routed. Nets are told by their index.
#[derive(Clone, Copy, Debug, PartialEq, Eq, Structural)]
pub enum PlanError {
    /// A net is driven by a port that the design does not have.
    UnknownTopInput { net: usize },
    /// A net is driven by a port that no instance has.
    InvalidDriver { net: usize },
}

/// A connection by names.
pub type ConnectionView = (PairView, PairView);

/// An input by names.
pub type InputView = (Seq<char>, Seq<PairView>);

/// A connection by names.
pub open spec fn connection_view(var: RoutingConnection) -> ConnectionView {
    ((var.source.0@, var.source.1@), (var.target.0@, var.target.1@))
}

/// Connections by names.
pub open spec fn connection_views(vars: Seq<RoutingConnection>) -> Seq<ConnectionView> {
    vars.map_values(|var: RoutingConnection| connection_view(var))
}

/// Pairs by names.
pub open spec fn pair_views(pairs: Seq<(String, String)>) -> Seq<PairView> {
    pairs.map_values(|pair: (String, String)| (pair.0@, pair.1@))
}

/// Inputs by names.
pub open spec fn input_views(inputs: Seq<RoutingTopInput>) -> Seq<InputView> {
    inputs.map_values(|input: RoutingTopInput| (input.name@, pair_views(input.targets@)))
}

/// The ports of instances among the first `count` ends.
pub open spec fn pairs_of(topology: ResolvedPnrTopology, ends: Seq<ResolvedEndpoint>, count: nat) -> Seq<PairView>
    decreases count,
{
    if count == 0 {
        Seq::empty()
    } else {
        let rest = pairs_of(topology, ends, (count - 1) as nat);
        match pair_of(topology, ends[count - 1]) {
            Some(pair) => rest.push(pair),
            None => rest,
        }
    }
}

/// A source connected to each of some targets.
pub open spec fn connected(source: PairView, targets: Seq<PairView>) -> Seq<ConnectionView> {
    targets.map_values(|target: PairView| (source, target))
}

/// A plan by names.
pub ghost struct PlanView {
    pub top_inputs: Seq<InputView>,
    pub vars: Seq<ConnectionView>,
}

/// What there is to route of the first `count` nets.
pub open spec fn planned(topology: ResolvedPnrTopology, count: nat) -> Result<PlanView, PlanError>
    decreases count,
{
    if count == 0 {
        Ok(PlanView { top_inputs: Seq::empty(), vars: Seq::empty() })
    } else {
        match planned(topology, (count - 1) as nat) {
            Err(error) => Err(error),
            Ok(plan) => {
                let net = topology.nets@[count - 1];
                let targets = pairs_of(topology, net.sinks@, net.sinks@.len());
                match net.driver {
                    ResolvedEndpoint::TopPort { port } => if port >= topology.ports@.len() {
                        Err(PlanError::UnknownTopInput { net: (count - 1) as usize })
                    } else if targets.len() == 0 {
                        Ok(plan)
                    } else {
                        Ok(
                            PlanView {
                                top_inputs: plan.top_inputs.push((topology.ports@[port as int].name@, targets)),
                                vars: plan.vars,
                            },
                        )
                    },
                    ResolvedEndpoint::InstancePort { .. } => match pair_of(topology, net.driver) {
                        None => Err(PlanError::InvalidDriver { net: (count - 1) as usize }),
                        Some(source) => Ok(
                            PlanView {
                                top_inputs: plan.top_inputs,
                                vars: plan.vars + connected(source, targets),
                            },
                        ),
                    },
                }
            },
        }
    }
}

proof fn planned_fails(topology: ResolvedPnrTopology, low: nat, high: nat)
    requires
        low <= high,
        planned(topology, low) is Err,
    ensures
        planned(topology, high) == planned(topology, low),
    decreases high,
{
    if low < high {
        planned_fails(topology, low, (high - 1) as nat);
    }
}

fn find_pairs(topology: &ResolvedPnrTopology, ends: &Vec<ResolvedEndpoint>) -> (pairs: Vec<(String, String)>)
    ensures
        pair_views(pairs@) == pairs_of(*topology, ends@, ends@.len()),
{
    let mut pairs: Vec<(String, String)> = Vec::new();
    assert(pair_views(pairs@) =~= pairs_of(*topology, ends@, 0));
    let mut index: usize = 0;
    while index < ends.len()
        invariant
            index <= ends.len(),
            pair_views(pairs@) == pairs_of(*topology, ends@, index as nat),
        decreases ends.len() - index,
    {
        if let Some(pair) = resolved_instance_port_pair(topology, ends[index]) {
            let ghost before = pairs@;
            let ghost added = pair;
            pairs.push(pair);
            assert(pair_views(pairs@) =~= pair_views(before).push((added.0@, added.1@)));
        }
        index += 1;
    }
    pairs
}

impl RoutingPlan {
    /// A plan by names.
    pub open spec fn by_names(&self) -> PlanView {
        PlanView { top_inputs: input_views(self.top_inputs@), vars: connection_views(self.vars@) }
    }

    /// What there is to route of the nets of a design.
    pub fn from_resolved(topology: &ResolvedPnrTopology) -> (result: Result<RoutingPlan, PlanError>)
        ensures
            match planned(*topology, topology.nets@.len()) {
                Ok(plan) => result matches Ok(made) && made.by_names() == plan,
                Err(error) => result == Err::<RoutingPlan, PlanError>(error),
            },
    {
        let mut top_inputs: Vec<RoutingTopInput> = Vec::new();
        let mut vars: Vec<RoutingConnection> = Vec::new();
        assert(input_views(top_inputs@) =~= Seq::<InputView>::empty());
        assert(connection_views(vars@) =~= Seq::<ConnectionView>::empty());
        let mut index: usize = 0;
        while index < topology.nets.len()
            invariant
                index <= topology.nets.len(),
                planned(*topology, index as nat) == Ok::<PlanView, PlanError>(
                    PlanView { top_inputs: input_views(top_inputs@), vars: connection_views(vars@) },
                ),
            decreases topology.nets.len() - index,
        {
            let net = &topology.nets[index];
            let targets = find_pairs(topology, &net.sinks);
            let ghost all = pair_views(targets@);
            match net.driver {
                ResolvedEndpoint::TopPort { port } => {
                    if port >= topology.ports.len() {
                        proof {
                            planned_fails(*topology, (index + 1) as nat, topology.nets@.len());
                        }
                        return Err(PlanError::UnknownTopInput { net: index });
                    }
                    if targets.len() > 0 {
                        let ghost before = top_inputs@;
                        let name = topology.ports[port].name.clone();
                        top_inputs.push(RoutingTopInput { name, targets });
                        assert(input_views(top_inputs@) =~= input_views(before).push(
                            (topology.ports@[port as int].name@, all),
                        ));
                    }
                },
                ResolvedEndpoint::InstancePort { .. } => {
                    let source = match resolved_instance_port_pair(topology, net.driver) {
                        None => {
                            proof {
                                planned_fails(*topology, (index + 1) as nat, topology.nets@.len());
                            }
                            return Err(PlanError::InvalidDriver { net: index });
                        },
                        Some(source) => source,
                    };
                    connect(&mut vars, &source, &targets);
                },
            }
            index += 1;
        }
        let plan = RoutingPlan { top_inputs, vars };
        assert(plan.by_names() == planned(*topology, topology.nets@.len())->Ok_0);
        Ok(plan)
    }
}

fn connect(vars: &mut Vec<RoutingConnection>, source: &(String, String), targets: &Vec<(String, String)>)
    ensures
        connection_views(final(vars)@) == connection_views(old(vars)@) + connected(
            (source.0@, source.1@),
            pair_views(targets@),
        ),
{
    let ghost before = connection_views(vars@);
    let ghost all = connected((source.0@, source.1@), pair_views(targets@));
    assert(before =~= before + all.take(0));
    let mut index: usize = 0;
    while index < targets.len()
        invariant
            index <= targets.len(),
            all == connected((source.0@, source.1@), pair_views(targets@)),
            connection_views(vars@) == before + all.take(index as int),
        decreases targets.len() - index,
    {
        let ghost had = vars@;
        let target = &targets[index];
        let var = RoutingConnection {
            source: (source.0.clone(), source.1.clone()),
            target: (target.0.clone(), target.1.clone()),
        };
        let ghost added = var;
        vars.push(var);
        proof {
            assert(connection_view(added) == all[index as int]);
            assert(connection_views(vars@) =~= connection_views(had).push(connection_view(added)));
            assert(before + all.take(index + 1) =~= (before + all.take(index as int)).push(all[index as int]));
        }
        index += 1;
    }
    assert(all.take(index as int) =~= all);
}

// ---------------------------------------------------------------------------
// Routes of nets
// ---------------------------------------------------------------------------
/// Whether a route leads to an end.
pub open spec fn matches_sink(
    topology: ResolvedPnrTopology,
    candidates: Seq<LayoutCandidate>,
    placed: Seq<PlacedModule>,
    route: RoutedNet,
    end: ResolvedEndpoint,
) -> bool {
    match pair_of(topology, end) {
        None => false,
        Some(pair) => {
            let targets = port_targets(candidates, placed, pair.0, pair.1);
            targets.len() > 0 && (targets[0].position == route.sink || route.required_powered_positions@.contains(
                targets[0].position,
            ))
        },
    }
}

/// Whether the cells of the ports of all ends stay in range.
pub open spec fn ends_fit(
    topology: ResolvedPnrTopology,
    candidates: Seq<LayoutCandidate>,
    placed: Seq<PlacedModule>,
    ends: Seq<ResolvedEndpoint>,
) -> bool {
    forall|k: int| 0 <= k < ends.len() ==> #[trigger] end_fits(topology, candidates, placed, ends[k])
}

/// Whether the cells of the port of an end stay in range.
pub open spec fn end_fits(
    topology: ResolvedPnrTopology,
    candidates: Seq<LayoutCandidate>,
    placed: Seq<PlacedModule>,
    end: ResolvedEndpoint,
) -> bool {
    pair_of(topology, end) matches Some(pair) ==> ports_fit(candidates, placed, pair.0, pair.1)
}

/// Whether the cells of the ports of all nets stay in range.
pub open spec fn topology_fits(
    topology: ResolvedPnrTopology,
    candidates: Seq<LayoutCandidate>,
    placed: Seq<PlacedModule>,
) -> bool {
    forall|n: int|
        0 <= n < topology.nets@.len() ==> {
            &&& end_fits(topology, candidates, placed, (#[trigger] topology.nets@[n]).driver)
            &&& ends_fit(topology, candidates, placed, topology.nets@[n].sinks@)
        }
}

/// Whether a route leads to an end.
pub fn endpoint_matches_route_sink(
    topology: &ResolvedPnrTopology,
    end: ResolvedEndpoint,
    candidates: &Vec<LayoutCandidate>,
    placed: &Vec<PlacedModule>,
    route: &RoutedNet,
) -> (matching: bool)
    requires
        end_fits(*topology, candidates@, placed@, end),
    ensures
        matching == matches_sink(*topology, candidates@, placed@, *route, end),
{
    let pair = match resolved_instance_port_pair(topology, end) {
        None => return false,
        Some(pair) => pair,
    };
    let targets = resolve_port_targets(candidates, placed, pair.0.as_str(), pair.1.as_str());
    if targets.len() == 0 {
        return false;
    }
    let cell = targets[0].position;
    if cell == route.sink {
        return true;
    }
    let mut found = false;
    let mut index: usize = 0;
    while index < route.required_powered_positions.len()
        invariant
            index <= route.required_powered_positions.len(),
            found == exists|k: int|
                0 <= k < index && #[trigger] route.required_powered_positions@[k] == cell,
        decreases route.required_powered_positions.len() - index,
    {
        if route.required_powered_positions[index] == cell {
            assert(route.required_powered_positions@[index as int] == cell);
            found = true;
        }
        index += 1;
    }
    found
}

/// The first end from `start` on that a route leads to.
pub open spec fn matching_from(
    topology: ResolvedPnrTopology,
    candidates: Seq<LayoutCandidate>,
    placed: Seq<PlacedModule>,
    route: RoutedNet,
    ends: Seq<ResolvedEndpoint>,
    start: nat,
) -> Option<ResolvedEndpoint>
    decreases ends.len() - start,
{
    if start >= ends.len() {
        None
    } else if matches_sink(topology, candidates, placed, route, ends[start as int]) {
        Some(ends[start as int])
    } else {
        matching_from(topology, candidates, placed, route, ends, start + 1)
    }
}

/// The sink of a route among those of its net: the one with its label, or else
/// the first that it leads to.
pub open spec fn bound_sink(
    topology: ResolvedPnrTopology,
    candidates: Seq<LayoutCandidate>,
    placed: Seq<PlacedModule>,
    route: RoutedNet,
    net: ResolvedNet,
) -> Option<ResolvedEndpoint> {
    let by_label = match route.sink_label {
        Some(label) => end_from(topology, net.sinks@, label@, 0),
        None => None,
    };
    match by_label {
        Some(end) => Some(end),
        None => matching_from(topology, candidates, placed, route, net.sinks@, 0),
    }
}

/// The net that a route is bound to, if it has a label and belongs to no net.
pub open spec fn net_to_bind(topology: ResolvedPnrTopology, route: RoutedNet) -> Option<ResolvedNet> {
    match (route.net_id, route.source_label) {
        (None, Some(label)) => net_from(topology, label@, 0),
        _ => None,
    }
}

/// Whether a route is another that is bound to the net of its label.
pub open spec fn is_bound(
    topology: ResolvedPnrTopology,
    candidates: Seq<LayoutCandidate>,
    placed: Seq<PlacedModule>,
    before: RoutedNet,
    after: RoutedNet,
) -> bool {
    match net_to_bind(topology, before) {
        None => after == before,
        Some(net) => {
            &&& same_course(after, before)
            &&& after.source_label == before.source_label
            &&& after.sink_label == before.sink_label
            &&& after.net_id == Some(net.id)
            &&& after.source_endpoint == Some(net.driver)
            &&& after.sink_endpoint == bound_sink(topology, candidates, placed, before, net)
        },
    }
}

fn find_bound_sink(
    topology: &ResolvedPnrTopology,
    candidates: &Vec<LayoutCandidate>,
    placed: &Vec<PlacedModule>,
    route: &RoutedNet,
    net: &ResolvedNet,
) -> (sink: Option<ResolvedEndpoint>)
    requires
        ends_fit(*topology, candidates@, placed@, net.sinks@),
    ensures
        sink == bound_sink(*topology, candidates@, placed@, *route, *net),
{
    if let Some(label) = &route.sink_label {
        if let Some(end) = topology.sink_by_label(net, label.as_str()) {
            return Some(end);
        }
    }
    let mut found: Option<ResolvedEndpoint> = None;
    let mut index: usize = 0;
    while index < net.sinks.len() && found.is_none()
        invariant
            index <= net.sinks.len(),
            ends_fit(*topology, candidates@, placed@, net.sinks@),
            match found {
                None => matching_from(*topology, candidates@, placed@, *route, net.sinks@, 0) == matching_from(
                    *topology,
                    candidates@,
                    placed@,
                    *route,
                    net.sinks@,
                    index as nat,
                ),
                Some(end) => matching_from(*topology, candidates@, placed@, *route, net.sinks@, 0) == Some(end),
            },
        decreases net.sinks.len() - index,
    {
        assert(end_fits(*topology, candidates@, placed@, net.sinks@[index as int]));
        if endpoint_matches_route_sink(topology, net.sinks[index], candidates, placed, route) {
            found = Some(net.sinks[index]);
        }
        index += 1;
    }
    found
}

proof fn net_is_listed(topology: ResolvedPnrTopology, label: Seq<char>, start: nat)
    ensures
        net_from(topology, label, start) matches Some(net) ==> topology.nets@.contains(net),
    decreases topology.nets@.len() - start,
{
    if start < topology.nets@.len() {
        if label_of(topology, topology.nets@[start as int].driver) == Some(label) {
            assert(topology.nets@.contains(topology.nets@[start as int]));
        } else {
            net_is_listed(topology, label, start + 1);
        }
    }
}

fn bind_route(
    topology: &ResolvedPnrTopology,
    candidates: &Vec<LayoutCandidate>,
    placed: &Vec<PlacedModule>,
    route: RoutedNet,
) -> (bound: RoutedNet)
    requires
        topology_fits(*topology, candidates@, placed@),
    ensures
        is_bound(*topology, candidates@, placed@, route, bound),
{
    if route.net_id.is_some() {
        return route;
    }
    let found = match &route.source_label {
        None => None,
        Some(label) => {
            proof {
                net_is_listed(*topology, label@, 0);
            }
            match topology.net_by_driver_label(label.as_str()) {
                None => None,
                Some(net) => {
                    assert(topology.nets@.contains(*net));
                    let ghost n = choose|n: int| 0 <= n < topology.nets@.len() && topology.nets@[n] == *net;
                    assert(ends_fit(*topology, candidates@, placed@, topology.nets@[n].sinks@));
                    Some((net.id, net.driver, find_bound_sink(topology, candidates, placed, &route, net)))
                },
            }
        },
    };
    match found {
        None => route,
        Some((id, driver, sink)) => route.with_topology_identity(id, driver, sink),
    }
}

/// Binds routes to the nets of their labels.
pub fn bind_route_topology(
    topology: &ResolvedPnrTopology,
    candidates: &Vec<LayoutCandidate>,
    placed: &Vec<PlacedModule>,
    routes: Vec<RoutedNet>,
) -> (bound: Vec<RoutedNet>)
    requires
        topology_fits(*topology, candidates@, placed@),
    ensures
        are_bound(*topology, candidates@, placed@, routes@, bound@),
{
    let ghost given = routes@;
    let mut left = routes;
    let mut bound: Vec<RoutedNet> = Vec::new();
    let total: usize = left.len();
    assert(given.skip(0) =~= given);
    let mut index: usize = 0;
    while index < total
        invariant
            index <= total,
            total == given.len(),
            topology_fits(*topology, candidates@, placed@),
            left@ == given.skip(index as int),
            bound.len() == index,
            forall|i: int|
                0 <= i < index ==> is_bound(*topology, candidates@, placed@, given[i], #[trigger] bound@[i]),
        decreases total - index,
    {
        let ghost before = bound@;
        let route = left.remove(0);
        assert(route == given[index as int]);
        assert(left@ =~= given.skip(index + 1));
        bound.push(bind_route(topology, candidates, placed, route));
        assert forall|i: int| 0 <= i < index + 1 implies is_bound(
            *topology,
            candidates@,
            placed@,
            given[i],
            #[trigger] bound@[i],
        ) by {
            if i < index {
                assert(bound@[i] == before[i]);
            }
        }
        index += 1;
    }
    bound
}

/// Whether routes are others that are bound to the nets of their labels.
pub open spec fn are_bound(
    topology: ResolvedPnrTopology,
    candidates: Seq<LayoutCandidate>,
    placed: Seq<PlacedModule>,
    before: Seq<RoutedNet>,
    after: Seq<RoutedNet>,
) -> bool {
    &&& after.len() == before.len()
    &&& forall|i: int|
        0 <= i < after.len() ==> is_bound(topology, candidates, placed, before[i], #[trigger] after[i])
}

/// Whether the cells of the port of a pair stay in range.
pub open spec fn pair_fits(candidates: Seq<LayoutCandidate>, placed: Seq<PlacedModule>, pair: PairView) -> bool {
    ports_fit(candidates, placed, pair.0, pair.1)
}

/// Whether the cells of the ports of some pairs stay in range.
pub open spec fn pairs_fit(candidates: Seq<LayoutCandidate>, placed: Seq<PlacedModule>, pairs: Seq<PairView>) -> bool {
    forall|k: int| 0 <= k < pairs.len() ==> #[trigger] pair_fits(candidates, placed, pairs[k])
}

/// Whether the cells of all ports of a plan stay in range.
pub open spec fn plan_fits(candidates: Seq<LayoutCandidate>, placed: Seq<PlacedModule>, plan: PlanView) -> bool {
    &&& forall|i: int| 0 <= i < plan.top_inputs.len() ==> pairs_fit(candidates, placed, (#[trigger] plan.top_inputs[i]).1)
    &&& forall|i: int|
        0 <= i < plan.vars.len() ==> pair_fits(candidates, placed, (#[trigger] plan.vars[i]).0) && pair_fits(
            candidates,
            placed,
            plan.vars[i].1,
        )
}

proof fn pairs_of_fit(
    topology: ResolvedPnrTopology,
    candidates: Seq<LayoutCandidate>,
    placed: Seq<PlacedModule>,
    ends: Seq<ResolvedEndpoint>,
    count: nat,
)
    requires
        ends_fit(topology, candidates, placed, ends),
        count <= ends.len(),
    ensures
        pairs_fit(candidates, placed, pairs_of(topology, ends, count)),
    decreases count,
{
    if count > 0 {
        pairs_of_fit(topology, candidates, placed, ends, (count - 1) as nat);
        assert(end_fits(topology, candidates, placed, ends[count - 1]));
        let rest = pairs_of(topology, ends, (count - 1) as nat);
        let all = pairs_of(topology, ends, count);
        assert forall|k: int| 0 <= k < all.len() implies #[trigger] pair_fits(candidates, placed, all[k]) by {
            if k < rest.len() {
                assert(pair_fits(candidates, placed, rest[k]));
            }
        }
    }
}

/// Where the ports of all nets stay in range, so do those of what there is to
/// route.
pub proof fn planned_fits(
    topology: ResolvedPnrTopology,
    candidates: Seq<LayoutCandidate>,
    placed: Seq<PlacedModule>,
    count: nat,
)
    requires
        topology_fits(topology, candidates, placed),
        count <= topology.nets@.len(),
    ensures
        planned(topology, count) matches Ok(plan) ==> plan_fits(candidates, placed, plan),
    decreases count,
{
    if count > 0 {
        planned_fits(topology, candidates, placed, (count - 1) as nat);
        let net = topology.nets@[count - 1];
        pairs_of_fit(topology, candidates, placed, net.sinks@, net.sinks@.len());
        let targets = pairs_of(topology, net.sinks@, net.sinks@.len());
        if let Ok(plan) = planned(topology, count) {
            let before = planned(topology, (count - 1) as nat)->Ok_0;
            assert forall|i: int| 0 <= i < plan.top_inputs.len() implies pairs_fit(
                candidates,
                placed,
                (#[trigger] plan.top_inputs[i]).1,
            ) by {
                if i < before.top_inputs.len() {
                    assert(plan.top_inputs[i] == before.top_inputs[i]);
                }
            }
            assert forall|i: int| 0 <= i < plan.vars.len() implies pair_fits(candidates, placed, (#[trigger] plan.vars[i]).0)
                && pair_fits(candidates, placed, plan.vars[i].1) by {
                if i < before.vars.len() {
                    assert(plan.vars[i] == before.vars[i]);
                } else {
                    assert(pair_fits(candidates, placed, targets[i - before.vars.len()]));
                }
            }
        }
    }
}

// ---------------------------------------------------------------------------
// Ends of the design
// ---------------------------------------------------------------------------
/// Where a port of the design can be observed.
#[derive(Clone, Debug)]
pub struct OutputEndpoint {
    pub name: String,
    pub position: Position,
}

/// Where ports of the design can be observed, by names.
pub open spec fn endpoint_views(ends: Seq<OutputEndpoint>) -> Seq<(Seq<char>, Position)> {
    ends.map_values(|end: OutputEndpoint| (end.name@, end.position))
}

/// Where an output of the design can be observed: at the port that drives it.
pub open spec fn observed(
    topology: ResolvedPnrTopology,
    candidates: Seq<LayoutCandidate>,
    placed: Seq<PlacedModule>,
    driver: ResolvedEndpoint,
    sink: ResolvedEndpoint,
) -> Option<(Seq<char>, Position)> {
    match sink {
        ResolvedEndpoint::InstancePort { .. } => None,
        ResolvedEndpoint::TopPort { port } => if port >= topology.ports@.len() {
            None
        } else {
            match pair_of(topology, driver) {
                None => None,
                Some(pair) => match found_port(candidates, placed, pair.0, pair.1) {
                    None => None,
                    Some(found) => Some(
                        (
                            topology.ports@[port as int].name@,
                            placed_cell(access_cells(found.port)[0], found.candidate, found.placed),
                        ),
                    ),
                },
            }
        },
    }
}

/// Where the outputs among the first `count` sinks of a net can be observed.
pub open spec fn observed_sinks(
    topology: ResolvedPnrTopology,
    candidates: Seq<LayoutCandidate>,
    placed: Seq<PlacedModule>,
    net: ResolvedNet,
    count: nat,
) -> Seq<(Seq<char>, Position)>
    decreases count,
{
    if count == 0 {
        Seq::empty()
    } else {
        let rest = observed_sinks(topology, candidates, placed, net, (count - 1) as nat);
        match observed(topology, candidates, placed, net.driver, net.sinks@[count - 1]) {
            Some(end) => rest.push(end),
            None => rest,
        }
    }
}

/// Where the outputs of the first `count` nets can be observed.
pub open spec fn observed_nets(
    topology: ResolvedPnrTopology,
    candidates: Seq<LayoutCandidate>,
    placed: Seq<PlacedModule>,
    count: nat,
) -> Seq<(Seq<char>, Position)>
    decreases count,
{
    if count == 0 {
        Seq::empty()
    } else {
        let net = topology.nets@[count - 1];
        observed_nets(topology, candidates, placed, (count - 1) as nat) + observed_sinks(
            topology,
            candidates,
            placed,
            net,
            net.sinks@.len(),
        )
    }
}

fn observe_sink(
    topology: &ResolvedPnrTopology,
    candidates: &Vec<LayoutCandidate>,
    placed: &Vec<PlacedModule>,
    driver: ResolvedEndpoint,
    sink: ResolvedEndpoint,
) -> (found: Option<OutputEndpoint>)
    requires
        end_fits(*topology, candidates@, placed@, driver),
    ensures
        match found {
            Some(end) => observed(*topology, candidates@, placed@, driver, sink) == Some((end.name@, end.position)),
            None => observed(*topology, candidates@, placed@, driver, sink) is None,
        },
{
    let port: usize = match sink {
        ResolvedEndpoint::InstancePort { .. } => return None,
        ResolvedEndpoint::TopPort { port } => port,
    };
    if port >= topology.ports.len() {
        return None;
    }
    let pair = match resolved_instance_port_pair(topology, driver) {
        None => return None,
        Some(pair) => pair,
    };
    match resolve_observable_port_position(candidates, placed, pair.0.as_str(), pair.1.as_str()) {
        None => None,
        Some(position) => Some(OutputEndpoint { name: topology.ports[port].name.clone(), position }),
    }
}

/// Where the outputs of the design can be observed.
pub fn collect_topology_output_endpoints(
    topology: &ResolvedPnrTopology,
    candidates: &Vec<LayoutCandidate>,
    placed: &Vec<PlacedModule>,
) -> (ends: Vec<OutputEndpoint>)
    requires
        topology_fits(*topology, candidates@, placed@),
    ensures
        endpoint_views(ends@) == observed_nets(*topology, candidates@, placed@, topology.nets@.len()),
{
    let mut ends: Vec<OutputEndpoint> = Vec::new();
    assert(endpoint_views(ends@) =~= observed_nets(*topology, candidates@, placed@, 0));
    let mut index: usize = 0;
    while index < topology.nets.len()
        invariant
            index <= topology.nets.len(),
            topology_fits(*topology, candidates@, placed@),
            endpoint_views(ends@) == observed_nets(*topology, candidates@, placed@, index as nat),
        decreases topology.nets.len() - index,
    {
        let net = &topology.nets[index];
        let ghost before = endpoint_views(ends@);
        assert(before =~= before + observed_sinks(*topology, candidates@, placed@, *net, 0));
        assert(end_fits(*topology, candidates@, placed@, topology.nets@[index as int].driver));
        let mut at: usize = 0;
        while at < net.sinks.len()
            invariant
                at <= net.sinks.len(),
                end_fits(*topology, candidates@, placed@, net.driver),
                endpoint_views(ends@) == before + observed_sinks(*topology, candidates@, placed@, *net, at as nat),
            decreases net.sinks.len() - at,
        {
            if let Some(end) = observe_sink(topology, candidates, placed, net.driver, net.sinks[at]) {
                let ghost had = ends@;
                let ghost added = end;
                ends.push(end);
                proof {
                    assert(endpoint_views(ends@) =~= endpoint_views(had).push((added.name@, added.position)));
                    assert(endpoint_views(ends@) =~= before + observed_sinks(
                        *topology,
                        candidates@,
                        placed@,
                        *net,
                        (at + 1) as nat,
                    ));
                }
            }
            at += 1;
        }
        index += 1;
    }
    ends
}

/// The input of the design that a route is the switch of, if it is one.
pub open spec fn switch_of(topology: ResolvedPnrTopology, route: RoutedNet) -> Option<(Seq<char>, Position)> {
    if route.source == route.sink && route.blocks@.len() > 0 && route.blocks@[0].1.kind is Switch {
        match route.source_endpoint {
            Some(ResolvedEndpoint::TopPort { port }) => if port < topology.ports@.len() {
                Some((topology.ports@[port as int].name@, route.source))
            } else {
                None
            },
            _ => None,
        }
    } else {
        None
    }
}

/// The inputs of the design that the first `count` routes are the switches of.
pub open spec fn switches_of(topology: ResolvedPnrTopology, routes: Seq<RoutedNet>, count: nat) -> Seq<
    (Seq<char>, Position),
>
    decreases count,
{
    if count == 0 {
        Seq::empty()
    } else {
        let rest = switches_of(topology, routes, (count - 1) as nat);
        match switch_of(topology, routes[count - 1]) {
            Some(end) => rest.push(end),
            None => rest,
        }
    }
}

/// Where the switches of the inputs of the design are.
pub fn collect_topology_input_endpoints(topology: &ResolvedPnrTopology, routes: &Vec<RoutedNet>) -> (ends: Vec<
    OutputEndpoint,
>)
    ensures
        endpoint_views(ends@) == switches_of(*topology, routes@, routes@.len()),
{
    let mut ends: Vec<OutputEndpoint> = Vec::new();
    assert(endpoint_views(ends@) =~= switches_of(*topology, routes@, 0));
    let mut index: usize = 0;
    while index < routes.len()
        invariant
            index <= routes.len(),
            endpoint_views(ends@) == switches_of(*topology, routes@, index as nat),
        decreases routes.len() - index,
    {
        let route = &routes[index];
        if route.source == route.sink && route.blocks.len() > 0 && route.blocks[0].1.kind.is_switch() {
            if let Some(ResolvedEndpoint::TopPort { port }) = route.source_endpoint {
                if port < topology.ports.len() {
                    let ghost had = ends@;
                    ends.push(OutputEndpoint { name: topology.ports[port].name.clone(), position: route.source });
                    assert(endpoint_views(ends@) =~= endpoint_views(had).push(
                        (topology.ports@[port as int].name@, route.source),
                    ));
                }
            }
        }
        index += 1;
    }
    ends
}

} // verus!
