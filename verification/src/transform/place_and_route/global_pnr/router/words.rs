//! What routing failures are in words.

use super::entry::RoutingError;
use super::input_ports::InputFailure;
use super::inputs::SinkFailure;
use super::nets::NetFailure;
use super::plan::{RoutingConnection, RoutingTopInput};
use super::ports::PlacedWorldError;
use super::topology::PlanError;
use crate::text::{decimal, decimal_text, join2, join3};
use crate::transform::place_and_route::global_pnr::route_engine::route::{RouteFailure, RoutedNet};
use crate::transform::place_and_route::global_pnr::route_engine::validation::fault_chars;
use crate::world::position::Position;
use vstd::prelude::*;

verus! {

/// A cell in words.
pub open spec fn cell_chars(cell: Position) -> Seq<char> {
    "Position("@ + decimal(cell.0 as nat) + (", "@ + decimal(cell.1 as nat) + (", "@ + decimal(cell.2 as nat) + ")"@))
}

fn cell_text(cell: Position) -> (text: String)
    ensures
        text@ == cell_chars(cell),
{
    let end = join3(", ", decimal_text(cell.2).as_str(), ")");
    let middle = join3(", ", decimal_text(cell.1).as_str(), end.as_str());
    join3("Position(", decimal_text(cell.0).as_str(), middle.as_str())
}

/// A name of a module and one of its ports in words.
pub open spec fn port_chars(module: Seq<char>, port: Seq<char>) -> Seq<char> {
    module + "."@ + port
}

impl PlanError {
    /// The error in words.
    pub fn message(&self) -> (text: String)
        ensures
            text@ == plan_chars(*self),
    {
        match self {
            PlanError::UnknownTopInput { .. } => "resolved routing plan has an unknown top input".to_string(),
            PlanError::InvalidDriver { .. } => "resolved routing plan has an invalid driver".to_string(),
        }
    }
}

/// The message of nets that do not fit together.
pub open spec fn plan_chars(error: PlanError) -> Seq<char> {
    match error {
        PlanError::UnknownTopInput { .. } => "resolved routing plan has an unknown top input"@,
        PlanError::InvalidDriver { .. } => "resolved routing plan has an invalid driver"@,
    }
}

/// The message of modules that do not fit together.
pub open spec fn world_chars(error: PlacedWorldError) -> Seq<char> {
    match error {
        PlacedWorldError::MissingCandidate(index) => "missing candidate "@ + decimal(index as nat),
        PlacedWorldError::Collision(cell) => "global route base collision at "@ + cell_chars(cell),
    }
}

impl PlacedWorldError {
    /// The error in words.
    pub fn message(&self) -> (text: String)
        ensures
            text@ == world_chars(*self),
    {
        match self {
            PlacedWorldError::MissingCandidate(index) => join2("missing candidate ", decimal_text(*index).as_str()),
            PlacedWorldError::Collision(cell) => join2(
                "global route base collision at ",
                cell_text(*cell).as_str(),
            ),
        }
    }
}

/// A route that was not found in words.
pub open spec fn failure_chars(failure: RouteFailure) -> Seq<char> {
    match failure {
        RouteFailure::Unreachable { source, sink } => "Unreachable { source: "@ + cell_chars(source) + (", sink: "@
            + cell_chars(sink) + " }"@),
    }
}

impl RouteFailure {
    /// The failure in words.
    pub fn message(&self) -> (text: String)
        ensures
            text@ == failure_chars(*self),
    {
        match self {
            RouteFailure::Unreachable { source, sink } => {
                let end = join3(", sink: ", cell_text(*sink).as_str(), " }");
                join3("Unreachable { source: ", cell_text(*source).as_str(), end.as_str())
            },
        }
    }
}

/// What a message begins with: whether there is a route.
pub open spec fn verb_chars(failure: SinkFailure) -> Seq<char> {
    match failure {
        SinkFailure::Unreachable { .. } => "failed to route "@,
        SinkFailure::Faulty { .. } => "routed "@,
    }
}

/// What a message ends with: why there is no route, or what is wrong with it.
pub open spec fn reason_chars(failure: SinkFailure) -> Seq<char> {
    match failure {
        SinkFailure::Unreachable { failure } => ": "@ + failure_chars(failure),
        SinkFailure::Faulty { fault } => ", but route contract failed: "@ + fault_chars(fault),
    }
}

fn verb_text(failure: &SinkFailure) -> (text: String)
    ensures
        text@ == verb_chars(*failure),
{
    match failure {
        SinkFailure::Unreachable { .. } => "failed to route ".to_string(),
        SinkFailure::Faulty { .. } => "routed ".to_string(),
    }
}

fn reason_text(failure: &SinkFailure) -> (text: String)
    ensures
        text@ == reason_chars(*failure),
{
    match failure {
        SinkFailure::Unreachable { failure } => join2(": ", failure.message().as_str()),
        SinkFailure::Faulty { fault } => join2(", but route contract failed: ", fault.message()),
    }
}

/// The message of an input that was not routed.
pub open spec fn input_chars(failure: InputFailure, name: Seq<char>) -> Seq<char> {
    match failure {
        InputFailure::NoSwitch => "failed to place top-level input switch `"@ + name + "`"@,
        InputFailure::Unrouted { sink } => verb_chars(sink.failure) + "top-level input "@ + (name + " -> "@ + (
        cell_chars(sink.sink) + reason_chars(sink.failure))),
    }
}

impl InputFailure {
    /// The failure of the input of a name in words.
    pub fn message(&self, name: &str) -> (text: String)
        ensures
            text@ == input_chars(*self, name@),
    {
        match self {
            InputFailure::NoSwitch => join3("failed to place top-level input switch `", name, "`"),
            InputFailure::Unrouted { sink } => {
                let end = join2(cell_text(sink.sink).as_str(), reason_text(&sink.failure).as_str());
                let middle = join3(name, " -> ", end.as_str());
                join3(verb_text(&sink.failure).as_str(), "top-level input ", middle.as_str())
            },
        }
    }
}

/// The message of a connection that was not routed.
pub open spec fn net_chars(failure: NetFailure, var: RoutingConnection) -> Seq<char> {
    let source = port_chars(var.source.0@, var.source.1@);
    let target = port_chars(var.target.0@, var.target.1@);
    match failure {
        NetFailure::SourceNotPlaced { .. } => "source port "@ + source + " is not placed"@,
        NetFailure::TargetNotPlaced { .. } => "target port "@ + target + " is not placed"@,
        NetFailure::Unrouted { sink, .. } => verb_chars(sink.failure) + source + (" -> "@ + target + (" at "@
            + cell_chars(sink.sink) + reason_chars(sink.failure))),
    }
}

impl NetFailure {
    /// The index of the connection.
    pub open spec fn var_of(&self) -> usize {
        match *self {
            NetFailure::SourceNotPlaced { var } => var,
            NetFailure::TargetNotPlaced { var } => var,
            NetFailure::Unrouted { var, .. } => var,
        }
    }

    /// The index of the connection.
    pub fn var(&self) -> (var: usize)
        ensures
            var == self.var_of(),
    {
        match self {
            NetFailure::SourceNotPlaced { var } => *var,
            NetFailure::TargetNotPlaced { var } => *var,
            NetFailure::Unrouted { var, .. } => *var,
        }
    }

    /// The failure of a connection in words.
    pub fn message(&self, var: &RoutingConnection) -> (text: String)
        ensures
            text@ == net_chars(*self, *var),
    {
        let source = join3(var.source.0.as_str(), ".", var.source.1.as_str());
        let target = join3(var.target.0.as_str(), ".", var.target.1.as_str());
        match self {
            NetFailure::SourceNotPlaced { .. } => join3("source port ", source.as_str(), " is not placed"),
            NetFailure::TargetNotPlaced { .. } => join3("target port ", target.as_str(), " is not placed"),
            NetFailure::Unrouted { sink, .. } => {
                let end = join3(" at ", cell_text(sink.sink).as_str(), reason_text(&sink.failure).as_str());
                let middle = join3(" -> ", target.as_str(), end.as_str());
                join3(verb_text(&sink.failure).as_str(), source.as_str(), middle.as_str())
            },
        }
    }
}

/// The message of a design that was not routed. Inputs, connections and routes are
/// those that the error tells by their index.
pub open spec fn routing_chars(
    error: RoutingError,
    inputs: Seq<RoutingTopInput>,
    vars: Seq<RoutingConnection>,
    routes: Seq<RoutedNet>,
) -> Seq<char> {
    match error {
        RoutingError::Plan { error } => plan_chars(error),
        RoutingError::World { error } => world_chars(error),
        RoutingError::PrefixOutside { cell } => "routed prefix block "@ + cell_chars(cell)
            + " is outside route world"@,
        RoutingError::Input { index, failure } => if index < inputs.len() {
            input_chars(failure, inputs[index as int].name@)
        } else {
            Seq::empty()
        },
        RoutingError::Net { failure } => if failure.var_of() < vars.len() {
            net_chars(failure, vars[failure.var_of() as int])
        } else {
            Seq::empty()
        },
        RoutingError::Unpowered { route } => if route < routes.len() {
            "routed net from "@ + cell_chars(routes[route as int].source) + (" to "@ + cell_chars(
                routes[route as int].sink,
            ) + " no longer powers its sink in the final routed world"@)
        } else {
            Seq::empty()
        },
    }
}

impl RoutingError {
    /// The error in words. Inputs, connections and routes are those that it tells by
    /// their index; of one that there is not, it tells nothing.
    pub fn message(
        &self,
        inputs: &Vec<RoutingTopInput>,
        vars: &Vec<RoutingConnection>,
        routes: &Vec<RoutedNet>,
    ) -> (text: String)
        ensures
            text@ == routing_chars(*self, inputs@, vars@, routes@),
    {
        match self {
            RoutingError::Plan { error } => error.message(),
            RoutingError::World { error } => error.message(),
            RoutingError::PrefixOutside { cell } => join3(
                "routed prefix block ",
                cell_text(*cell).as_str(),
                " is outside route world",
            ),
            RoutingError::Input { index, failure } => if *index < inputs.len() {
                failure.message(inputs[*index].name.as_str())
            } else {
                String::new()
            },
            RoutingError::Net { failure } => if failure.var() < vars.len() {
                failure.message(&vars[failure.var()])
            } else {
                String::new()
            },
            RoutingError::Unpowered { route } => if *route < routes.len() {
                let end = join3(
                    " to ",
                    cell_text(routes[*route].sink).as_str(),
                    " no longer powers its sink in the final routed world",
                );
                join3("routed net from ", cell_text(routes[*route].source).as_str(), end.as_str())
            } else {
                String::new()
            },
        }
    }
}

} // verus!
