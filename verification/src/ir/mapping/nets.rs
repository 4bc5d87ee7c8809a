//! Endpoints and the nets between them.

use crate::ir::routable::{Endpoint, EndpointView, NetClass, RoutableNet, RoutableNetView};
use crate::order::{in_order, stable_order, SortKey};
use crate::order::{chars_not_before_transitive, distinct_covers};
use crate::text::{
    chars_before, chars_before_asymmetric, chars_before_total, contains_text, decimal, decimal_injective, decimal_text,
    has_part, has_prefix, join3, starts_with, text_before, texts,
};
use vstd::prelude::*;

verus! {

/// One of the composite's own ports.
pub fn self_port(port: &str) -> (endpoint: Endpoint)
    ensures
        endpoint@ == EndpointView::SelfPort(port@),
{
    Endpoint::SelfPort { port: port.to_owned() }
}

/// A port of an instance.
pub fn instance_port(instance: &str, port: &str) -> (endpoint: Endpoint)
    ensures
        endpoint@ == EndpointView::InstancePort(instance@, port@),
{
    Endpoint::InstancePort { instance: instance.to_owned(), port: port.to_owned() }
}

/// The endpoint of a list of exactly one.
pub fn single_endpoint(endpoints: Option<&Vec<Endpoint>>) -> (single: Option<Endpoint>)
    ensures
        match endpoints {
            Some(endpoints) => if endpoints.len() == 1 {
                single is Some && single->0@ == endpoints[0]@
            } else {
                single is None
            },
            None => single is None,
        },
{
    match endpoints {
        Some(endpoints) => if endpoints.len() == 1 {
            Some(endpoints[0].copy())
        } else {
            None
        },
        None => None,
    }
}

/// What a net of a given name carries.
pub open spec fn net_class(name: Seq<char>, is_io: bool) -> NetClass {
    if is_io {
        NetClass::Io
    } else if has_part(name, "clk"@) || has_part(name, "clock"@) {
        NetClass::Clock
    } else if has_part(name, "reset"@) || has_prefix(name, "rst"@) {
        NetClass::Reset
    } else {
        NetClass::Data
    }
}

pub fn classify_logical_net(name: &str, is_io: bool) -> (class: NetClass)
    ensures
        class == net_class(name@, is_io),
{
    if is_io {
        NetClass::Io
    } else if contains_text(name, "clk") || contains_text(name, "clock") {
        NetClass::Clock
    } else if contains_text(name, "reset") || starts_with(name, "rst") {
        NetClass::Reset
    } else {
        NetClass::Data
    }
}

/// Order of endpoints: own ports first, then instance ports, each by name.
pub open spec fn endpoint_before(left: EndpointView, right: EndpointView) -> bool {
    match (left, right) {
        (EndpointView::SelfPort(left), EndpointView::SelfPort(right)) => chars_before(left, right),
        (EndpointView::SelfPort(_), EndpointView::InstancePort(_, _)) => true,
        (EndpointView::InstancePort(_, _), EndpointView::SelfPort(_)) => false,
        (EndpointView::InstancePort(left, left_port), EndpointView::InstancePort(right, right_port)) => chars_before(
            left,
            right,
        ) || left == right && chars_before(left_port, right_port),
    }
}

impl SortKey for Endpoint {
    open spec fn before(&self, other: &Self) -> bool {
        endpoint_before(self@, other@)
    }

    fn is_before(&self, other: &Self) -> (before: bool) {
        match (self, other) {
            (Endpoint::SelfPort { port: left }, Endpoint::SelfPort { port: right }) => {
                text_before(left.as_str(), right.as_str())
            },
            (Endpoint::SelfPort { .. }, Endpoint::InstancePort { .. }) => true,
            (Endpoint::InstancePort { .. }, Endpoint::SelfPort { .. }) => false,
            (
                Endpoint::InstancePort { instance: left, port: left_port },
                Endpoint::InstancePort { instance: right, port: right_port },
            ) => {
                text_before(left.as_str(), right.as_str()) || *left == *right && text_before(
                    left_port.as_str(),
                    right_port.as_str(),
                )
            },
        }
    }

    proof fn before_asymmetric(&self, other: &Self) {
        match (self@, other@) {
            (EndpointView::SelfPort(left), EndpointView::SelfPort(right)) => {
                chars_before_asymmetric(left, right);
            },
            (EndpointView::InstancePort(left, left_port), EndpointView::InstancePort(right, right_port)) => {
                chars_before_asymmetric(left, right);
                chars_before_asymmetric(left_port, right_port);
            },
            _ => {},
        }
    }

    proof fn not_before_transitive(&self, middle: &Self, other: &Self) {
        match (self@, middle@, other@) {
            (EndpointView::SelfPort(left), EndpointView::SelfPort(center), EndpointView::SelfPort(right)) => {
                chars_not_before_transitive(left, center, right);
            },
            (
                EndpointView::InstancePort(left, left_port),
                EndpointView::InstancePort(center, center_port),
                EndpointView::InstancePort(right, right_port),
            ) => {
                chars_not_before_transitive(left, center, right);
                chars_before_total(left, center);
                chars_before_total(center, right);
                chars_before_asymmetric(left, center);
                chars_before_asymmetric(center, right);
                if left == center && center == right {
                    chars_not_before_transitive(left_port, center_port, right_port);
                }
            },
            _ => {},
        }
    }
}

/// Whether a list of nets connects a driver to a sink.
pub open spec fn connects(nets: Seq<RoutableNetView>, driver: EndpointView, sink: EndpointView) -> bool {
    exists|i: int| 0 <= i < nets.len() && (#[trigger] nets[i]).driver == driver && nets[i].sinks.contains(sink)
}

/// Whether no endpoint drives two nets.
pub open spec fn drivers_differ(nets: Seq<RoutableNetView>) -> bool {
    forall|i: int, j: int| 0 <= i < j < nets.len() ==> (#[trigger] nets[i]).driver != (#[trigger] nets[j]).driver
}

/// The contents of a list of nets.
pub open spec fn net_views(nets: Seq<RoutableNet>) -> Seq<RoutableNetView> {
    nets.map_values(|net: RoutableNet| net@)
}

/// A net with one more sink, unless it has that sink already; what is once
/// declared an input or output stays one.
pub open spec fn with_sink(net: RoutableNetView, class: NetClass, sink: EndpointView) -> RoutableNetView {
    RoutableNetView {
        class: if class == NetClass::Io { NetClass::Io } else { net.class },
        sinks: if net.sinks.contains(sink) { net.sinks } else { net.sinks.push(sink) },
        ..net
    }
}

/// A driver that is to be connected to a sink, and what its net is to be called.
pub ghost struct Connection {
    pub name: Seq<char>,
    pub class: NetClass,
    pub driver: EndpointView,
    pub sink: EndpointView,
}

/// Whether net `i` is that of a driver.
pub open spec fn is_net_of(nets: Seq<RoutableNetView>, i: int, driver: EndpointView) -> bool {
    0 <= i < nets.len() && nets[i].driver == driver
}

/// Nets with one more connection: the first connection of a driver makes its net.
pub open spec fn connected(nets: Seq<RoutableNetView>, link: Connection) -> Seq<RoutableNetView> {
    if exists|i: int| #[trigger] is_net_of(nets, i, link.driver) {
        let i = choose|i: int| #[trigger] is_net_of(nets, i, link.driver);
        nets.update(i, with_sink(nets[i], link.class, link.sink))
    } else {
        nets.push(
            RoutableNetView {
                name: link.name,
                class: link.class,
                driver: link.driver,
                sinks: seq![link.sink],
                origin: None,
            },
        )
    }
}

/// The nets of connections that are made one after the other.
pub open spec fn all_connected(links: Seq<Connection>) -> Seq<RoutableNetView>
    decreases links.len(),
{
    if links.len() == 0 {
        Seq::empty()
    } else {
        connected(all_connected(links.drop_last()), links.last())
    }
}

/// One more connection.
pub proof fn connecting_next(links: Seq<Connection>, link: Connection)
    ensures
        all_connected(links.push(link)) == connected(all_connected(links), link),
{
    assert(links.push(link).drop_last() =~= links);
}

/// Collects nets by driver so that one endpoint never drives two nets.
pub struct NetConnections {
    nets: Vec<RoutableNet>,
}

impl View for NetConnections {
    type V = Seq<RoutableNetView>;

    closed spec fn view(&self) -> Seq<RoutableNetView> {
        net_views(self.nets@)
    }
}

impl NetConnections {
    pub fn new() -> (connections: Self)
        ensures
            connections@ == Seq::<RoutableNetView>::empty(),
    {
        let connections = NetConnections { nets: Vec::new() };
        assert(connections@ =~= Seq::empty());
        connections
    }

    /// Connects a driver to a sink. The first connection of a driver names its
    /// net.
    pub fn connect(&mut self, preferred_name: &str, class: NetClass, driver: Endpoint, sink: Endpoint)
        requires
            drivers_differ(old(self)@),
        ensures
            drivers_differ(final(self)@),
            forall|other: EndpointView, other_sink: EndpointView| #[trigger]
                connects(final(self)@, other, other_sink) <==> connects(old(self)@, other, other_sink) || other
                    == driver@ && other_sink == sink@,
            (forall|i: int| 0 <= i < old(self)@.len() ==> (#[trigger] old(self)@[i]).driver != driver@)
                ==> final(self)@ == old(self)@.push(
                RoutableNetView {
                    name: preferred_name@,
                    class,
                    driver: driver@,
                    sinks: seq![sink@],
                    origin: None,
                },
            ),
            forall|i: int|
                0 <= i < old(self)@.len() && (#[trigger] old(self)@[i]).driver == driver@ ==> final(self)@
                    == old(self)@.update(i, with_sink(old(self)@[i], class, sink@)),
            final(self)@ == connected(
                old(self)@,
                (Connection { name: preferred_name@, class, driver: driver@, sink: sink@ }),
            ),
    {
        let ghost before = self@;
        let count: usize = self.nets.len();
        for index in 0..count
            invariant
                count == self.nets.len(),
                self@ == before,
                before == old(self)@,
                drivers_differ(before),
                forall|i: int| 0 <= i < index ==> (#[trigger] before[i]).driver != driver@,
        {
            assert(before[index as int] == self.nets[index as int]@);
            if self.nets[index].driver.same(&driver) {
                let ghost old_net = self.nets@[index as int];
                let ghost old_nets = self.nets@;
                let mut known = false;
                let sinks: usize = self.nets[index].sinks.len();
                for other in 0..sinks
                    invariant
                        index < self.nets.len(),
                        self.nets@ == old_nets,
                        old_net == self.nets@[index as int],
                        sinks == old_net.sinks.len(),
                        known <==> exists|i: int| 0 <= i < other && (#[trigger] old_net.sinks[i])@ == sink@,
                {
                    if self.nets[index].sinks[other].same(&sink) {
                        known = true;
                        assert(old_net.sinks[other as int]@ == sink@);
                    }
                }
                proof {
                    assert(known == old_net@.sinks.contains(sink@)) by {
                        if known {
                            let i = choose|i: int| 0 <= i < sinks && (#[trigger] old_net.sinks[i])@ == sink@;
                            assert(old_net@.sinks[i] == sink@);
                        }
                        if old_net@.sinks.contains(sink@) {
                            let i = choose|i: int| 0 <= i < old_net@.sinks.len() && old_net@.sinks[i] == sink@;
                            assert(old_net.sinks[i]@ == sink@);
                        }
                    }
                }
                let ghost sink_view = sink@;
                if !known {
                    self.nets[index].sinks.push(sink);
                }
                if class == NetClass::Io {
                    self.nets[index].class = NetClass::Io;
                }
                proof {
                    let changed = with_sink(before[index as int], class, sink_view);
                    assert(self.nets@[index as int]@.sinks =~= changed.sinks);
                    assert(self.nets@[index as int]@ == changed);
                    assert(self@ =~= before.update(index as int, changed));
                    assert forall|other: EndpointView, other_sink: EndpointView| #[trigger]
                        connects(self@, other, other_sink) <==> connects(before, other, other_sink) || other == driver@
                            && other_sink == sink_view by {
                        connect_adds(before, index as int, class, sink_view, other, other_sink);
                    }
                    assert(is_net_of(before, index as int, driver@));
                    let own = choose|i: int| #[trigger] is_net_of(before, i, driver@);
                    assert(own == index);
                }
                return;
            }
        }
        let ghost old_nets = self.nets@;
        let ghost driver_view = driver@;
        let ghost sink_view = sink@;
        let sinks = vec![sink];
        self.nets.push(RoutableNet { name: preferred_name.to_owned(), class, driver, sinks, origin: None });
        proof {
            let added = RoutableNetView {
                name: preferred_name@,
                class,
                driver: driver_view,
                sinks: seq![sink_view],
                origin: None,
            };
            assert(self.nets@.last()@.sinks =~= seq![sink_view]);
            assert(self@ =~= before.push(added));
            assert forall|other: EndpointView, other_sink: EndpointView| #[trigger]
                connects(self@, other, other_sink) <==> connects(before, other, other_sink) || other == driver_view
                    && other_sink == sink_view by {
                if connects(before, other, other_sink) {
                    let i = choose|i: int|
                        0 <= i < before.len() && (#[trigger] before[i]).driver == other && before[i].sinks.contains(
                            other_sink,
                        );
                    assert(self@[i] == before[i]);
                }
                if connects(self@, other, other_sink) {
                    let i = choose|i: int|
                        0 <= i < self@.len() && (#[trigger] self@[i]).driver == other && self@[i].sinks.contains(
                            other_sink,
                        );
                    if i < before.len() {
                        assert(self@[i] == before[i]);
                    }
                }
                if other == driver_view && other_sink == sink_view {
                    assert(self@[before.len() as int].sinks[0] == sink_view);
                }
            }
        }
    }
}

proof fn connect_adds(
    before: Seq<RoutableNetView>,
    index: int,
    class: NetClass,
    sink: EndpointView,
    other: EndpointView,
    other_sink: EndpointView,
)
    requires
        0 <= index < before.len(),
    ensures
        connects(before.update(index, with_sink(before[index], class, sink)), other, other_sink) <==> connects(
            before,
            other,
            other_sink,
        ) || other == before[index].driver && other_sink == sink,
{
    let after = before.update(index, with_sink(before[index], class, sink));
    let old_sinks = before[index].sinks;
    let new_sinks = after[index].sinks;
    if connects(before, other, other_sink) {
        let i = choose|i: int|
            0 <= i < before.len() && (#[trigger] before[i]).driver == other && before[i].sinks.contains(other_sink);
        if i == index {
            let place = choose|p: int| 0 <= p < old_sinks.len() && old_sinks[p] == other_sink;
            assert(new_sinks[place] == other_sink);
        }
        assert(after[i].sinks.contains(other_sink));
    }
    if connects(after, other, other_sink) {
        let i = choose|i: int|
            0 <= i < after.len() && (#[trigger] after[i]).driver == other && after[i].sinks.contains(other_sink);
        if i == index {
            let place = choose|p: int| 0 <= p < new_sinks.len() && new_sinks[p] == other_sink;
            if place < old_sinks.len() {
                assert(old_sinks[place] == other_sink);
            }
            assert(before[index].driver == other);
        } else {
            assert(before[i] == after[i]);
        }
    }
    if other == before[index].driver && other_sink == sink {
        if !old_sinks.contains(sink) {
            assert(new_sinks[old_sinks.len() as int] == sink);
        }
        assert(after[index].sinks.contains(sink));
    }
}

/// The names that a net may get, in order of preference: the preferred name,
/// then that name with a number behind it.
pub open spec fn candidate_text(preferred: Seq<char>, number: nat) -> Seq<char> {
    if number == 0 {
        preferred
    } else {
        preferred + "_"@ + decimal(number)
    }
}

/// `name` is the first candidate that is not among `used`.
pub open spec fn is_first_free(used: Seq<Seq<char>>, preferred: Seq<char>, name: Seq<char>) -> bool {
    &&& !used.contains(name)
    &&& exists|number: nat|
        {
            &&& name == #[trigger] candidate_text(preferred, number)
            &&& forall|lower: nat| lower < number ==> used.contains(#[trigger] candidate_text(preferred, lower))
        }
}

/// Different candidates are different names.
proof fn candidates_differ(preferred: Seq<char>, left: nat, right: nat)
    requires
        candidate_text(preferred, left) == candidate_text(preferred, right),
    ensures
        left == right,
{
    let head = preferred + "_"@;
    assert(left > 0 ==> (head + decimal(left)).skip(head.len() as int) =~= decimal(left));
    assert(right > 0 ==> (head + decimal(right)).skip(head.len() as int) =~= decimal(right));
    reveal_strlit("_");
    if left > 0 && right > 0 {
        decimal_injective(left, right);
    } else if left > 0 {
        assert(candidate_text(preferred, left).len() > preferred.len());
    } else if right > 0 {
        assert(candidate_text(preferred, right).len() > preferred.len());
    }
}

/// Among more candidates than used names there is a free one.
proof fn some_candidate_free(used: Seq<Seq<char>>, preferred: Seq<char>, count: nat)
    requires
        forall|lower: nat| lower < count ==> used.contains(#[trigger] candidate_text(preferred, lower)),
    ensures
        count <= used.len(),
{
    let places = Seq::new(
        count,
        |number: int|
            choose|place: int| 0 <= place < used.len() && used[place] == candidate_text(preferred, number as nat),
    );
    assert forall|i: int| 0 <= i < count implies 0 <= (#[trigger] places[i]) < used.len() && used[places[i]]
        == candidate_text(preferred, i as nat) by {
        assert(used.contains(candidate_text(preferred, i as nat)));
    }
    assert forall|i: int, j: int| 0 <= i < j < places.len() implies places[i] != places[j] by {
        if places[i] == places[j] {
            candidates_differ(preferred, i as nat, j as nat);
        }
    }
    let range = vstd::set_lib::set_int_range(0, used.len() as int);
    vstd::set_lib::lemma_int_range(0, used.len() as int);
    places.unique_seq_to_set();
    vstd::set_lib::lemma_len_subset(places.to_set(), range);
}

/// There is one first free candidate.
pub proof fn first_free_is_unique(used: Seq<Seq<char>>, preferred: Seq<char>, left: Seq<char>, right: Seq<char>)
    requires
        is_first_free(used, preferred, left),
        is_first_free(used, preferred, right),
    ensures
        left == right,
{
    let first = choose|number: nat|
        {
            &&& left == #[trigger] candidate_text(preferred, number)
            &&& forall|lower: nat| lower < number ==> used.contains(#[trigger] candidate_text(preferred, lower))
        };
    let second = choose|number: nat|
        {
            &&& right == #[trigger] candidate_text(preferred, number)
            &&& forall|lower: nat| lower < number ==> used.contains(#[trigger] candidate_text(preferred, lower))
        };
    if first < second {
        assert(used.contains(candidate_text(preferred, first)));
    }
    if second < first {
        assert(used.contains(candidate_text(preferred, second)));
    }
}

/// There is a first free candidate.
pub proof fn free_name_exists(used: Seq<Seq<char>>, preferred: Seq<char>)
    ensures
        exists|name: Seq<char>| is_first_free(used, preferred, name),
{
    let number = free_number(used, preferred, 0);
    assert(is_first_free(used, preferred, candidate_text(preferred, number)));
}

proof fn free_number(used: Seq<Seq<char>>, preferred: Seq<char>, start: nat) -> (number: nat)
    requires
        start <= used.len() + 1,
        forall|lower: nat| lower < start ==> used.contains(#[trigger] candidate_text(preferred, lower)),
    ensures
        !used.contains(candidate_text(preferred, number)),
        forall|lower: nat| lower < number ==> used.contains(#[trigger] candidate_text(preferred, lower)),
    decreases used.len() + 1 - start,
{
    if !used.contains(candidate_text(preferred, start)) {
        start
    } else {
        some_candidate_free(used, preferred, start + 1);
        free_number(used, preferred, start + 1)
    }
}

/// The first candidate name that is not used yet.
pub fn free_name(used: &Vec<String>, preferred: &String) -> (name: String)
    ensures
        is_first_free(texts(used@), preferred@, name@),
{
    let ghost taken = texts(used@);
    let mut name = preferred.clone();
    let mut suffix: usize = 0;
    while is_used(used, name.as_str())
        invariant
            taken == texts(used@),
            suffix <= taken.len(),
            taken.len() == used.len(),
            name@ == candidate_text(preferred@, suffix as nat),
            forall|lower: nat| lower < suffix ==> taken.contains(#[trigger] candidate_text(preferred@, lower)),
        decreases taken.len() - suffix,
    {
        proof {
            assert forall|lower: nat| lower < suffix + 1 implies taken.contains(
                #[trigger] candidate_text(preferred@, lower),
            ) by {
                if lower == suffix {
                    assert(taken.contains(name@));
                }
            }
            some_candidate_free(taken, preferred@, (suffix + 1) as nat);
        }
        suffix += 1;
        let digits = decimal_text(suffix);
        name = join3(preferred.as_str(), "_", digits.as_str());
    }
    name
}

/// Whether a name is among `used`.
fn is_used(used: &Vec<String>, name: &str) -> (found: bool)
    ensures
        found == texts(used@).contains(name@),
{
    for index in 0..used.len()
        invariant
            forall|i: int| 0 <= i < index ==> (#[trigger] used[i])@ != name@,
    {
        if crate::text::same_text(used[index].as_str(), name) {
            assert(texts(used@)[index as int] == name@);
            return true;
        }
    }
    proof {
        if texts(used@).contains(name@) {
            let i = choose|i: int| 0 <= i < texts(used@).len() && texts(used@)[i] == name@;
            assert(used[i]@ == name@);
        }
    }
    false
}

/// `nets` are the collected nets in driver order, each with the first free
/// name; net `i` is collected net `order[i]`.
pub open spec fn finished_by(collected: Seq<RoutableNetView>, nets: Seq<RoutableNetView>, order: Seq<usize>) -> bool {
    &&& nets.len() == collected.len()
    &&& order.len() == collected.len()
    &&& forall|i: int| 0 <= i < order.len() ==> (#[trigger] order[i]) < order.len()
    &&& forall|i: int, j: int| 0 <= i < j < order.len() ==> #[trigger] order[i] != #[trigger] order[j]
    &&& forall|i: int, j: int|
        0 <= i < j < nets.len() ==> endpoint_before((#[trigger] nets[i]).driver, (#[trigger] nets[j]).driver)
    &&& forall|i: int|
        0 <= i < nets.len() ==> {
            let source = collected[order[i] as int];
            &&& source.driver == (#[trigger] nets[i]).driver
            &&& source.class == nets[i].class
            &&& source.sinks == nets[i].sinks
            &&& nets[i].origin is None
            &&& is_first_free(net_names(nets.take(i)), source.name, nets[i].name)
        }
}

/// `nets` are the collected nets in driver order, each with the first free name.
pub open spec fn is_finished(collected: Seq<RoutableNetView>, nets: Seq<RoutableNetView>) -> bool {
    exists|order: Seq<usize>| finished_by(collected, nets, order)
}

/// The names of a list of nets.
pub open spec fn net_names(nets: Seq<RoutableNetView>) -> Seq<Seq<char>> {
    nets.map_values(|net: RoutableNetView| net.name)
}

impl NetConnections {
    /// The nets in driver order, each under a name of its own.
    pub fn finish(self) -> (nets: Vec<RoutableNet>)
        requires
            drivers_differ(self@),
        ensures
            is_finished(self@, net_views(nets@)),
    {
        let ghost collected = self@;
        let mut drivers: Vec<Endpoint> = Vec::new();
        for index in 0..self.nets.len()
            invariant
                drivers.len() == index,
                forall|i: int| 0 <= i < index ==> (#[trigger] drivers[i])@ == self.nets[i].driver@,
        {
            drivers.push(self.nets[index].driver.copy());
        }
        let order = stable_order(&drivers);
        let mut used: Vec<String> = Vec::new();
        let mut nets: Vec<RoutableNet> = Vec::new();
        for index in 0..order.len()
            invariant
                collected == self@,
                order.len() == self.nets.len(),
                forall|i: int| 0 <= i < order.len() ==> (#[trigger] order[i]) < self.nets.len(),
                nets.len() == index,
                used.len() == index,
                texts(used@) == net_names(net_views(nets@)),
                forall|i: int|
                    0 <= i < index ==> {
                        let source = collected[order[i] as int];
                        &&& (#[trigger] nets[i])@.driver == source.driver
                        &&& nets[i]@.class == source.class
                        &&& nets[i]@.sinks == source.sinks
                        &&& nets[i]@.origin is None
                        &&& is_first_free(net_names(net_views(nets@).take(i)), source.name, nets[i]@.name)
                    },
        {
            assert(order[index as int] < self.nets.len());
            let net = &self.nets[order[index]];
            assert(collected[order[index as int] as int] == net@);
            let name = free_name(&used, &net.name);
            let mut sinks: Vec<Endpoint> = Vec::new();
            for sink in 0..net.sinks.len()
                invariant
                    sinks.len() == sink,
                    forall|i: int| 0 <= i < sink ==> (#[trigger] sinks[i])@ == net.sinks[i]@,
            {
                sinks.push(net.sinks[sink].copy());
            }
            let ghost nets_before = nets@;
            let ghost used_before = used@;
            let ghost name_view = name@;
            used.push(name.clone());
            nets.push(RoutableNet { name, class: net.class, driver: net.driver.copy(), sinks, origin: None });
            proof {
                assert(nets@.last()@.sinks =~= net@.sinks);
                assert(net_views(nets@).take(index as int) =~= net_views(nets_before));
                assert(net_views(nets@) =~= net_views(nets_before).push(nets@.last()@));
                assert(net_names(net_views(nets@)) =~= net_names(net_views(nets_before)).push(name_view));
                assert(texts(used@) =~= texts(used_before).push(name_view));
                assert forall|i: int| 0 <= i < index + 1 implies {
                    let source = collected[order[i] as int];
                    &&& (#[trigger] nets[i])@.driver == source.driver
                    &&& nets[i]@.class == source.class
                    &&& nets[i]@.sinks == source.sinks
                    &&& nets[i]@.origin is None
                    &&& is_first_free(net_names(net_views(nets@).take(i)), source.name, nets[i]@.name)
                } by {
                    if i < index {
                        assert(nets[i] == nets_before[i]);
                        assert(net_views(nets@).take(i) =~= net_views(nets_before).take(i));
                    }
                }
            }
        }
        proof {
            let views = net_views(nets@);
            assert forall|i: int| 0 <= i < views.len() implies (#[trigger] views[i]).driver == drivers[order[i] as int]@ by {
                assert(views[i] == nets[i]@);
                assert(order[i] < self.nets.len());
                assert(collected[order[i] as int] == self.nets[order[i] as int]@);
            }
            assert forall|i: int, j: int| 0 <= i < j < views.len() implies endpoint_before(
                (#[trigger] views[i]).driver,
                (#[trigger] views[j]).driver,
            ) by {
                assert(in_order(drivers@, order[i], order[j]));
                let (a, b) = (order[i] as int, order[j] as int);
                assert(collected[a].driver == drivers[a]@ && collected[b].driver == drivers[b]@);
                drivers[a].before_asymmetric(&drivers[a]);
                assert(a != b);
                assert(collected[a].driver != collected[b].driver);
                endpoint_before_total(drivers[a]@, drivers[b]@);
            }
            assert forall|x: int, y: int| 0 <= x < y < order@.len() implies #[trigger] order@[x] != #[trigger] order@[y] by {
                assert(in_order(drivers@, order@[x], order@[y]));
                drivers[order@[x] as int].before_asymmetric(&drivers[order@[x] as int]);
            }
            assert forall|i: int| 0 <= i < views.len() implies {
                let source = collected[order@[i] as int];
                &&& source.driver == (#[trigger] views[i]).driver
                &&& source.class == views[i].class
                &&& source.sinks == views[i].sinks
                &&& is_first_free(net_names(views.take(i)), source.name, views[i].name)
            } by {
                assert(views[i] == nets[i]@);
            }
            assert(finished_by(collected, views, order@));
        }
        nets
    }
}

/// Endpoints that neither comes before the other are the same.
proof fn endpoint_before_total(left: EndpointView, right: EndpointView)
    ensures
        endpoint_before(left, right) || endpoint_before(right, left) || left == right,
{
    match (left, right) {
        (EndpointView::SelfPort(left), EndpointView::SelfPort(right)) => {
            chars_before_total(left, right);
        },
        (EndpointView::InstancePort(left, left_port), EndpointView::InstancePort(right, right_port)) => {
            chars_before_total(left, right);
            chars_before_total(left_port, right_port);
        },
        _ => {},
    }
}

/// Where no endpoint drives two collected nets, none drives two finished ones.
pub proof fn finished_drivers_differ(collected: Seq<RoutableNetView>, nets: Seq<RoutableNetView>)
    requires
        is_finished(collected, nets),
    ensures
        drivers_differ(nets),
{
    let order = choose|order: Seq<usize>| finished_by(collected, nets, order);
    assert forall|i: int, j: int| 0 <= i < j < nets.len() implies (#[trigger] nets[i]).driver != (
    #[trigger] nets[j]).driver by {
        assert(endpoint_before(nets[i].driver, nets[j].driver));
        endpoint_before_itself(nets[i].driver);
    }
}

/// No endpoint comes before itself.
proof fn endpoint_before_itself(end: EndpointView)
    ensures
        !endpoint_before(end, end),
{
    match end {
        EndpointView::SelfPort(port) => {
            chars_before_asymmetric(port, port);
        },
        EndpointView::InstancePort(instance, port) => {
            chars_before_asymmetric(instance, instance);
            chars_before_asymmetric(port, port);
        },
    }
}

/// Finished nets connect what was connected, and have different names.
pub proof fn finished_nets_connect(
    collected: Seq<RoutableNetView>,
    nets: Seq<RoutableNetView>,
    driver: EndpointView,
    sink: EndpointView,
)
    requires
        collected.len() <= usize::MAX,
        is_finished(collected, nets),
    ensures
        connects(nets, driver, sink) == connects(collected, driver, sink),
        forall|i: int, j: int| 0 <= i < j < nets.len() ==> (#[trigger] nets[i]).name != (#[trigger] nets[j]).name,
{
    let order = choose|order: Seq<usize>| finished_by(collected, nets, order);
    if connects(nets, driver, sink) {
        let i = choose|i: int| 0 <= i < nets.len() && (#[trigger] nets[i]).driver == driver && nets[i].sinks.contains(sink);
        assert(order[i] < order.len());
        assert(collected[order[i] as int].driver == driver);
    }
    if connects(collected, driver, sink) {
        let j = choose|j: int|
            0 <= j < collected.len() && (#[trigger] collected[j]).driver == driver && collected[j].sinks.contains(sink);
        distinct_covers(order, j as usize);
        let i = choose|i: int| 0 <= i < order.len() && order[i] == j as usize;
        assert(nets[i].driver == driver);
    }
    assert forall|i: int, j: int| 0 <= i < j < nets.len() implies (#[trigger] nets[i]).name != (#[trigger] nets[j]).name by {
        let earlier = net_names(nets.take(j));
        assert(earlier[i] == nets[i].name);
        assert(is_first_free(earlier, collected[order[j] as int].name, nets[j].name));
    }
}

} // verus!
