//! The nets of a design as nets between placed macros.

use super::route_engine::route::ResolvedEndpoint;
use super::router::topology::{pair_of, resolved_instance_port_pair, ResolvedNet, ResolvedPnrTopology};
use crate::text::{same_text, texts};
use crate::transform::place_and_route::placement_ir::{PhysicalNet, PinRef};
use vstd::prelude::*;

verus! {

/// The contents of a [`PinRef`].
pub type PinView = (usize, Seq<char>);

/// A net between pins.
pub ghost struct PinNetView {
    pub name: Seq<char>,
    pub source: PinView,
    pub sinks: Seq<PinView>,
}

/// The last of the first `count` names that equals another.
pub open spec fn last_named(names: Seq<Seq<char>>, name: Seq<char>, count: nat) -> Option<usize>
    decreases count,
{
    if count == 0 {
        None
    } else if names[count - 1] == name {
        Some((count - 1) as usize)
    } else {
        last_named(names, name, (count - 1) as nat)
    }
}

/// The pin of an end, if it is the port of an instance that is placed.
pub open spec fn pin_of_end(
    topology: ResolvedPnrTopology,
    names: Seq<Seq<char>>,
    end: ResolvedEndpoint,
) -> Option<PinView> {
    match pair_of(topology, end) {
        None => None,
        Some(pair) => match last_named(names, pair.0, names.len()) {
            None => None,
            Some(index) => Some((index, pair.1)),
        },
    }
}

/// The pins of the first `count` ends.
pub open spec fn pins_of_ends(
    topology: ResolvedPnrTopology,
    names: Seq<Seq<char>>,
    ends: Seq<ResolvedEndpoint>,
    count: nat,
) -> Seq<PinView>
    decreases count,
{
    if count == 0 {
        Seq::empty()
    } else {
        let rest = pins_of_ends(topology, names, ends, (count - 1) as nat);
        match pin_of_end(topology, names, ends[count - 1]) {
            Some(pin) => rest.push(pin),
            None => rest,
        }
    }
}

/// The nets between placed instances of the first `count` nets.
pub open spec fn nets_between(topology: ResolvedPnrTopology, names: Seq<Seq<char>>, count: nat) -> Seq<PinNetView>
    decreases count,
{
    if count == 0 {
        Seq::empty()
    } else {
        let rest = nets_between(topology, names, (count - 1) as nat);
        let net = topology.nets@[count - 1];
        let sinks = pins_of_ends(topology, names, net.sinks@, net.sinks@.len());
        match pin_of_end(topology, names, net.driver) {
            None => rest,
            Some(source) => if sinks.len() == 0 {
                rest
            } else {
                rest.push(PinNetView { name: net.display_name@, source, sinks })
            },
        }
    }
}

/// The contents of pins.
pub open spec fn pin_refs(pins: Seq<PinRef>) -> Seq<PinView> {
    pins.map_values(|pin: PinRef| (pin.instance, pin.pin@))
}

/// The contents of nets.
pub open spec fn pin_nets(nets: Seq<PhysicalNet>) -> Seq<PinNetView> {
    nets.map_values(
        |net: PhysicalNet|
            PinNetView { name: net.name@, source: (net.source.instance, net.source.pin@), sinks: pin_refs(net.sinks@) },
    )
}

/// Whether nets are not routed yet.
pub open spec fn all_unrouted(nets: Seq<PhysicalNet>) -> bool {
    forall|i: int|
        0 <= i < nets.len() ==> (#[trigger] nets[i]).route is None && nets[i].region_sequence is None
            && nets[i].congestion == 0
}

fn find_last(names: &Vec<String>, name: &str) -> (found: Option<usize>)
    ensures
        found == last_named(texts(names@), name@, names@.len()),
{
    let ghost all = texts(names@);
    let mut left: usize = names.len();
    while left > 0 && !same_text(names[left - 1].as_str(), name)
        invariant
            left <= names.len(),
            all == texts(names@),
            last_named(all, name@, names@.len()) == last_named(all, name@, left as nat),
        decreases left,
    {
        assert(all[left - 1] == names@[left - 1]@);
        left -= 1;
    }
    if left > 0 {
        assert(all[left - 1] == names@[left - 1]@);
        Some(left - 1)
    } else {
        None
    }
}

/// The pin of an end, if it is the port of an instance that is placed.
pub fn instance_endpoint(topology: &ResolvedPnrTopology, end: ResolvedEndpoint, names: &Vec<String>) -> (pin: Option<
    PinRef,
>)
    ensures
        match pin {
            Some(pin) => pin_of_end(*topology, texts(names@), end) == Some((pin.instance, pin.pin@)),
            None => pin_of_end(*topology, texts(names@), end) is None,
        },
{
    match resolved_instance_port_pair(topology, end) {
        None => None,
        Some(pair) => match find_last(names, pair.0.as_str()) {
            None => None,
            Some(instance) => Some(PinRef { instance, pin: pair.1 }),
        },
    }
}

fn find_sinks(topology: &ResolvedPnrTopology, net: &ResolvedNet, names: &Vec<String>) -> (pins: Vec<PinRef>)
    ensures
        pin_refs(pins@) == pins_of_ends(*topology, texts(names@), net.sinks@, net.sinks@.len()),
{
    let mut pins: Vec<PinRef> = Vec::new();
    assert(pin_refs(pins@) =~= pins_of_ends(*topology, texts(names@), net.sinks@, 0));
    let mut index: usize = 0;
    while index < net.sinks.len()
        invariant
            index <= net.sinks.len(),
            pin_refs(pins@) == pins_of_ends(*topology, texts(names@), net.sinks@, index as nat),
        decreases net.sinks.len() - index,
    {
        if let Some(pin) = instance_endpoint(topology, net.sinks[index], names) {
            let ghost before = pins@;
            let ghost added = (pin.instance, pin.pin@);
            pins.push(pin);
            assert(pin_refs(pins@) =~= pin_refs(before).push(added));
        }
        index += 1;
    }
    pins
}

/// The nets of a design between instances, which are placed in the order of
/// their names.
pub fn physical_nets(topology: &ResolvedPnrTopology, names: &Vec<String>) -> (nets: Vec<PhysicalNet>)
    ensures
        pin_nets(nets@) == nets_between(*topology, texts(names@), topology.nets@.len()),
        all_unrouted(nets@),
{
    let mut nets: Vec<PhysicalNet> = Vec::new();
    assert(pin_nets(nets@) =~= nets_between(*topology, texts(names@), 0));
    let mut index: usize = 0;
    while index < topology.nets.len()
        invariant
            index <= topology.nets.len(),
            pin_nets(nets@) == nets_between(*topology, texts(names@), index as nat),
            all_unrouted(nets@),
        decreases topology.nets.len() - index,
    {
        let net = &topology.nets[index];
        let sinks = find_sinks(topology, net, names);
        if let Some(source) = instance_endpoint(topology, net.driver, names) {
            if sinks.len() > 0 {
                let ghost before = nets@;
                let made = PhysicalNet {
                    name: net.display_name.clone(),
                    source,
                    sinks,
                    route: None,
                    region_sequence: None,
                    congestion: 0,
                };
                let ghost added = PinNetView {
                    name: made.name@,
                    source: (made.source.instance, made.source.pin@),
                    sinks: pin_refs(made.sinks@),
                };
                nets.push(made);
                proof {
                    assert(pin_nets(nets@) =~= pin_nets(before).push(added));
                    assert forall|i: int| 0 <= i < nets@.len() implies (#[trigger] nets@[i]).route is None
                        && nets@[i].region_sequence is None && nets@[i].congestion == 0 by {
                        if i < before.len() {
                            assert(nets@[i] == before[i]);
                        }
                    }
                }
            }
        }
        index += 1;
    }
    nets
}

} // verus!
