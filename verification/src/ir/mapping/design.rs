//! Assembling modules into a routable design.

use super::error::{ErrorView, LowerError};
use super::nets::net_views;
use super::scalar::{bit_texts, ScalarNets};
use crate::ir::logical::{copy_optional_text, optional_text, LogicalModule, LogicalPortDirection, PortView};
use crate::ir::routable::{
    module_views, BodyView, Endpoint, InstanceView, RoutableDesign, RoutableInstance, RoutableModule, RoutableModuleBody,
    RoutableModuleView, RoutableNet, RoutableNetView, RoutableNode, RoutableNodeKind, RoutablePort,
    RoutablePortDirection, RoutablePortView, ROUTABLE_IR_VERSION,
};
use crate::order::{is_text_order, text_order};
use crate::text::{copy_texts, decimal, decimal_text, join3, same_text, texts};
use vstd::hash_map::StringHashMap;
use vstd::hash_set::StringHashSet;
use vstd::prelude::*;

verus! {

impl RoutableNodeKind {
    /// An equal kind.
    pub fn copy(&self) -> (copy: Self)
        ensures
            copy@ == self@,
    {
        match self {
            RoutableNodeKind::Input { name } => RoutableNodeKind::Input { name: name.clone() },
            RoutableNodeKind::Constant { value } => RoutableNodeKind::Constant { value: *value },
            RoutableNodeKind::Output { name } => RoutableNodeKind::Output { name: name.clone() },
            RoutableNodeKind::Not => RoutableNodeKind::Not,
            RoutableNodeKind::And => RoutableNodeKind::And,
            RoutableNodeKind::Or => RoutableNodeKind::Or,
            RoutableNodeKind::Xor => RoutableNodeKind::Xor,
            RoutableNodeKind::Sequential { primitive, input_ports, output_ports } => RoutableNodeKind::Sequential {
                primitive: *primitive,
                input_ports: copy_texts(input_ports),
                output_ports: copy_texts(output_ports),
            },
        }
    }
}

impl RoutableNode {
    /// An equal node.
    pub fn copy(&self) -> (copy: Self)
        ensures
            copy@ == self@,
    {
        let inputs = self.inputs.clone();
        assert(inputs@ =~= self.inputs@);
        RoutableNode { id: self.id, kind: self.kind.copy(), inputs, tag: self.tag.clone() }
    }

    /// Whether two nodes have the same contents.
    pub fn same(&self, other: &Self) -> (same: bool)
        ensures
            same == (self@ == other@),
    {
        if self.id != other.id || self.inputs.len() != other.inputs.len() {
            return false;
        }
        for pin in 0..self.inputs.len()
            invariant
                self.inputs.len() == other.inputs.len(),
                forall|i: int| 0 <= i < pin ==> self.inputs[i] == other.inputs[i],
        {
            if self.inputs[pin] != other.inputs[pin] {
                assert(self@.inputs[pin as int] != other@.inputs[pin as int]);
                return false;
            }
        }
        assert(self.inputs@ =~= other.inputs@);
        self.kind.same(&other.kind) && same_text(self.tag.as_str(), other.tag.as_str())
    }
}

impl RoutableNet {
    /// An equal net.
    pub fn copy(&self) -> (copy: Self)
        ensures
            copy@ == self@,
    {
        let mut sinks: Vec<Endpoint> = Vec::new();
        for index in 0..self.sinks.len()
            invariant
                sinks.len() == index,
                forall|i: int| 0 <= i < index ==> (#[trigger] sinks[i])@ == self.sinks[i]@,
        {
            sinks.push(self.sinks[index].copy());
        }
        let copy = RoutableNet {
            name: self.name.clone(),
            class: self.class,
            driver: self.driver.copy(),
            sinks,
            origin: copy_optional_text(&self.origin),
        };
        assert(copy@.sinks =~= self@.sinks);
        copy
    }
}

/// An instance that is named after its module.
pub open spec fn named_after(name: Seq<char>) -> InstanceView {
    InstanceView { name, module: name, origin: None }
}

/// A module that names each instance after its module.
pub open spec fn composite_view(
    name: Seq<char>,
    ports: Seq<RoutablePortView>,
    instance_names: Seq<Seq<char>>,
    nets: Seq<RoutableNetView>,
) -> RoutableModuleView {
    RoutableModuleView {
        name,
        ports,
        body: BodyView::Composite(instance_names.map_values(|name: Seq<char>| named_after(name)), nets),
    }
}

/// The contents of a list of ports.
pub open spec fn port_views(ports: Seq<RoutablePort>) -> Seq<RoutablePortView> {
    ports.map_values(|port: RoutablePort| port@)
}

/// Builds a composite whose instances are named after their modules.
pub fn composite_module(
    name: &str,
    ports: Vec<RoutablePort>,
    instance_names: &Vec<String>,
    nets: Vec<RoutableNet>,
) -> (module: RoutableModule)
    ensures
        module@ == composite_view(name@, port_views(ports@), texts(instance_names@), net_views(nets@)),
{
    let mut instances: Vec<RoutableInstance> = Vec::new();
    for index in 0..instance_names.len()
        invariant
            instances.len() == index,
            forall|i: int|
                0 <= i < index ==> (#[trigger] instances[i])@ == named_after(instance_names[i]@),
    {
        instances.push(
            RoutableInstance { name: instance_names[index].clone(), module: instance_names[index].clone(), origin: None },
        );
    }
    let module = RoutableModule { name: name.to_owned(), ports, body: RoutableModuleBody::Composite { instances, nets } };
    proof {
        assert(instances@.map_values(|instance: RoutableInstance| instance@)
            =~= texts(instance_names@).map_values(|name: Seq<char>| named_after(name)));
        assert(module@.ports =~= port_views(ports@));
    }
    module
}

/// Whether two modules have the same ports and the same inside.
pub open spec fn same_shape(left: RoutableModuleView, right: RoutableModuleView) -> bool {
    left.ports == right.ports && left.body == right.body
}

/// Whether two leaves have the same ports and nodes; false of composites.
fn same_leaf_shape(left: &RoutableModule, right: &RoutableModule) -> (same: bool)
    requires
        right@.body is Leaf,
    ensures
        same == same_shape(left@, right@),
{
    if left.ports.len() != right.ports.len() {
        assert(left@.ports.len() != right@.ports.len());
        return false;
    }
    for index in 0..left.ports.len()
        invariant
            left.ports.len() == right.ports.len(),
            forall|i: int| 0 <= i < index ==> (#[trigger] left.ports[i])@ == right.ports[i]@,
    {
        if left.ports[index].direction != right.ports[index].direction || !same_text(
            left.ports[index].name.as_str(),
            right.ports[index].name.as_str(),
        ) {
            assert(left@.ports[index as int] != right@.ports[index as int]);
            return false;
        }
    }
    assert(left@.ports =~= right@.ports);
    match (&left.body, &right.body) {
        (RoutableModuleBody::Leaf { nodes: left_nodes }, RoutableModuleBody::Leaf { nodes: right_nodes }) => {
            let ghost left_views = left_nodes@.map_values(|node: RoutableNode| node@);
            let ghost right_views = right_nodes@.map_values(|node: RoutableNode| node@);
            if left_nodes.len() != right_nodes.len() {
                assert(left_views.len() != right_views.len());
                return false;
            }
            for index in 0..left_nodes.len()
                invariant
                    left_views == left_nodes@.map_values(|node: RoutableNode| node@),
                    right_views == right_nodes@.map_values(|node: RoutableNode| node@),
                    left_nodes.len() == right_nodes.len(),
                    left@.body == BodyView::Leaf(left_views),
                    right@.body == BodyView::Leaf(right_views),
                    forall|i: int| 0 <= i < index ==> left_views[i] == right_views[i],
            {
                if !left_nodes[index].same(&right_nodes[index]) {
                    assert(left_views[index as int] != right_views[index as int]);
                    return false;
                }
            }
            assert(left_views =~= right_views);
            true
        },
        _ => false,
    }
}

/// Whether module `index` repeats the leaf of an earlier module. The top
/// module never does.
pub open spec fn repeats(modules: Seq<RoutableModuleView>, top: Seq<char>, index: int) -> bool {
    &&& modules[index].name != top
    &&& modules[index].body is Leaf
    &&& exists|earlier: int| 0 <= earlier < index && #[trigger] same_shape(modules[earlier], modules[index])
}

/// The first module with the shape of module `index`.
pub open spec fn is_first_shape(modules: Seq<RoutableModuleView>, index: int, first: int) -> bool {
    &&& 0 <= first <= index
    &&& same_shape(modules[first], modules[index])
    &&& forall|earlier: int| 0 <= earlier < first ==> !#[trigger] same_shape(modules[earlier], modules[index])
}

/// The module that stands for module `index`: the first of its shape where it
/// repeats one, else itself.
pub open spec fn stands_for(modules: Seq<RoutableModuleView>, top: Seq<char>, index: int, kept: int) -> bool {
    if repeats(modules, top, index) {
        is_first_shape(modules, index, kept)
    } else {
        kept == index
    }
}

/// `canonical` gives each module name the name of the module that stands for
/// the last module of that name, among the first `count`.
pub open spec fn is_canonical(
    modules: Seq<RoutableModuleView>,
    top: Seq<char>,
    count: int,
    canonical: Map<Seq<char>, String>,
) -> bool {
    &&& forall|name: Seq<char>| #[trigger]
        canonical.contains_key(name) ==> exists|index: int, kept: int|
            {
                &&& 0 <= index < count
                &&& modules[index].name == name
                &&& #[trigger] stands_for(modules, top, index, kept)
                &&& canonical[name]@ == modules[kept].name
                &&& forall|later: int| index < later < count ==> (#[trigger] modules[later]).name != name
            }
    &&& forall|index: int| 0 <= index < count ==> canonical.contains_key((#[trigger] modules[index]).name)
}

/// The module with instances of repeated modules turned to what stands for them.
pub open spec fn renamed(module: RoutableModuleView, canonical: Map<Seq<char>, String>) -> RoutableModuleView {
    match module.body {
        BodyView::Leaf(_) => module,
        BodyView::Composite(instances, nets) => RoutableModuleView {
            body: BodyView::Composite(
                instances.map_values(
                    |instance: InstanceView|
                        InstanceView {
                            module: if canonical.contains_key(instance.module) {
                                canonical[instance.module]@
                            } else {
                                instance.module
                            },
                            ..instance
                        },
                ),
                nets,
            ),
            ..module
        },
    }
}

/// The places of the modules that do not repeat an earlier one, among the first
/// `count`.
pub open spec fn kept_places(modules: Seq<RoutableModuleView>, top: Seq<char>, count: nat) -> Seq<int>
    decreases count,
{
    if count == 0 {
        Seq::empty()
    } else {
        let before = kept_places(modules, top, (count - 1) as nat);
        if repeats(modules, top, count - 1) {
            before
        } else {
            before.push(count - 1)
        }
    }
}

/// The names of some modules.
pub open spec fn names_at(modules: Seq<RoutableModuleView>, places: Seq<int>) -> Seq<Seq<char>> {
    places.map_values(|place: int| modules[place].name)
}

/// A design made of `modules`: repeated leaves once, instances turned to what
/// is left, and modules sorted by name.
pub open spec fn is_design_of(
    top: Seq<char>,
    target: Seq<char>,
    modules: Seq<RoutableModuleView>,
    design: RoutableDesign,
) -> bool {
    let kept = kept_places(modules, top, modules.len());
    &&& design.version == ROUTABLE_IR_VERSION
    &&& design.target@ == target
    &&& design.top@ == top
    &&& design.modules.len() == kept.len()
    &&& exists|order: Seq<usize>, canonical: Map<Seq<char>, String>|
        {
            &&& #[trigger] is_text_order(names_at(modules, kept), order)
            &&& #[trigger] is_canonical(modules, top, modules.len() as int, canonical)
            &&& forall|i: int|
                0 <= i < kept.len() ==> (#[trigger] design.modules[i])@ == renamed(
                    modules[kept[order[i] as int]],
                    canonical,
                )
        }
}

/// Copies a module with its instances renamed.
fn copy_renamed(module: &RoutableModule, canonical: &StringHashMap<String>) -> (copy: RoutableModule)
    ensures
        copy@ == renamed(module@, canonical@),
{
    let mut ports: Vec<RoutablePort> = Vec::new();
    for index in 0..module.ports.len()
        invariant
            ports.len() == index,
            forall|i: int| 0 <= i < index ==> (#[trigger] ports[i])@ == module.ports[i]@,
    {
        ports.push(RoutablePort { name: module.ports[index].name.clone(), direction: module.ports[index].direction });
    }
    assert(port_views(ports@) =~= module@.ports);
    match &module.body {
        RoutableModuleBody::Leaf { nodes } => {
            let mut copies: Vec<RoutableNode> = Vec::new();
            for index in 0..nodes.len()
                invariant
                    copies.len() == index,
                    forall|i: int| 0 <= i < index ==> (#[trigger] copies[i])@ == nodes[i]@,
            {
                copies.push(nodes[index].copy());
            }
            assert(copies@.map_values(|node: RoutableNode| node@) =~= nodes@.map_values(|node: RoutableNode| node@));
            let copy = RoutableModule {
                name: module.name.clone(),
                ports,
                body: RoutableModuleBody::Leaf { nodes: copies },
            };
            assert(copy@.ports =~= module@.ports);
            copy
        },
        RoutableModuleBody::Composite { instances, nets } => {
            let ghost had = instances@.map_values(|instance: RoutableInstance| instance@);
            let mut copies: Vec<RoutableInstance> = Vec::new();
            for index in 0..instances.len()
                invariant
                    copies.len() == index,
                    forall|i: int|
                        0 <= i < index ==> (#[trigger] copies[i]).name@ == instances[i].name@ && optional_text(
                            copies[i].origin,
                        ) == optional_text(instances[i].origin) && copies[i].module@ == (if canonical@.contains_key(instances[i].module@) {
                            canonical@[instances[i].module@]@
                        } else {
                            instances[i].module@
                        }),
            {
                let target = match canonical.get(instances[index].module.as_str()) {
                    Some(name) => name.clone(),
                    None => instances[index].module.clone(),
                };
                copies.push(
                    RoutableInstance {
                        name: instances[index].name.clone(),
                        module: target,
                        origin: copy_optional_text(&instances[index].origin),
                    },
                );
            }
            let mut net_copies: Vec<RoutableNet> = Vec::new();
            for index in 0..nets.len()
                invariant
                    net_copies.len() == index,
                    forall|i: int| 0 <= i < index ==> (#[trigger] net_copies[i])@ == nets[i]@,
            {
                net_copies.push(nets[index].copy());
            }
            let copy = RoutableModule {
                name: module.name.clone(),
                ports,
                body: RoutableModuleBody::Composite { instances: copies, nets: net_copies },
            };
            proof {
                assert(copy@.ports =~= module@.ports);
                assert(net_views(net_copies@) =~= net_views(nets@));
                let now = copies@.map_values(|instance: RoutableInstance| instance@);
                let expected = had.map_values(
                    |instance: InstanceView|
                        InstanceView {
                            module: if canonical@.contains_key(instance.module) {
                                canonical@[instance.module]@
                            } else {
                                instance.module
                            },
                            ..instance
                        },
                );
                assert(now =~= expected);
            }
            copy
        },
    }
}

impl RoutableModule {
    /// An equal module.
    pub fn copy(&self) -> (copy: Self)
        ensures
            copy@ == self@,
    {
        let nothing: StringHashMap<String> = StringHashMap::new();
        let copy = copy_renamed(self, &nothing);
        proof {
            if let BodyView::Composite(instances, nets) = self@.body {
                let same = instances.map_values(
                    |instance: InstanceView|
                        InstanceView {
                            module: if nothing@.contains_key(instance.module) {
                                nothing@[instance.module]@
                            } else {
                                instance.module
                            },
                            ..instance
                        },
                );
                assert(same =~= instances);
            }
        }
        copy
    }
}

/// Whether something tells of every design whether it is valid.
pub open spec fn is_design_validator<V: Fn(&RoutableDesign) -> Result<(), String>>(validate: V) -> bool {
    forall|design: RoutableDesign| #[trigger] call_requires(validate, (&design,))
}

/// Whether a design is not valid, and `error` says why.
pub open spec fn is_invalid_design<V: Fn(&RoutableDesign) -> Result<(), String>>(
    validate: V,
    design: RoutableDesign,
    error: LowerError,
) -> bool {
    exists|reason: String| #[trigger]
        call_ensures(validate, (&design,), Err(reason)) && error@ == ErrorView::Invalid(reason@)
}

/// What is returned for a design that was assembled.
pub open spec fn is_validated<V: Fn(&RoutableDesign) -> Result<(), String>>(
    validate: V,
    design: RoutableDesign,
    result: Result<RoutableDesign, LowerError>,
) -> bool {
    match result {
        Ok(found) => found == design && call_ensures(validate, (&design,), Ok(())),
        Err(error) => is_invalid_design(validate, design, error),
    }
}

/// Assembles a design and asks whether it is valid.
pub fn finish_design<V: Fn(&RoutableDesign) -> Result<(), String>>(
    top: &str,
    target: &str,
    modules: &Vec<RoutableModule>,
    validate: &V,
) -> (result: Result<RoutableDesign, LowerError>)
    requires
        is_design_validator(*validate),
    ensures
        exists|design: RoutableDesign| #[trigger]
            is_design_of(top@, target@, module_views(modules@), design) && is_validated(*validate, design, result),
{
    let design = assemble_design(top, target, modules);
    let outcome = validate(&design);
    let ghost made = design;
    let ghost told = outcome;
    assert(call_ensures(*validate, (&made,), told));
    let result = match outcome {
        Ok(_) => Ok(design),
        Err(reason) => Err(LowerError::Invalid(reason)),
    };
    proof {
        match told {
            Ok(unit) => {
                assert(unit == ());
            },
            Err(reason) => {
                assert(call_ensures(*validate, (&made,), Err(reason)));
            },
        }
        assert(is_validated(*validate, made, result));
    }
    result
}

/// Assembles a design: repeated leaves are kept once, and modules are sorted by
/// name.
fn assemble_design(top: &str, target: &str, modules: &Vec<RoutableModule>) -> (design: RoutableDesign)
    ensures
        is_design_of(top@, target@, module_views(modules@), design),
{
    let ghost views = module_views(modules@);
    let mut canonical: StringHashMap<String> = StringHashMap::new();
    let mut kept: Vec<usize> = Vec::new();
    let mut names: Vec<String> = Vec::new();
    for index in 0..modules.len()
        invariant
            views == module_views(modules@),
            is_canonical(views, top@, index as int, canonical@),
            kept@.map_values(|place: usize| place as int) == kept_places(views, top@, index as nat),
            forall|i: int| 0 <= i < kept.len() ==> (#[trigger] kept[i]) < modules.len(),
            texts(names@) == names_at(views, kept_places(views, top@, index as nat)),
    {
        let module = &modules[index];
        assert(views[index as int] == module@);
        let is_leaf = matches!(module.body, RoutableModuleBody::Leaf { .. });
        let mut first: usize = index;
        if is_leaf && !same_text(module.name.as_str(), top) {
            let mut earlier: usize = 0;
            while earlier < index && !same_leaf_shape(&modules[earlier], module)
                invariant
                    views == module_views(modules@),
                    earlier <= index < modules.len(),
                    *module == modules[index as int],
                    module@.body is Leaf,
                    forall|i: int| 0 <= i < earlier ==> !#[trigger] same_shape(views[i], views[index as int]),
                decreases index - earlier,
            {
                assert(views[earlier as int] == modules[earlier as int]@);
                earlier += 1;
            }
            assert(earlier < index ==> views[earlier as int] == modules[earlier as int]@);
            first = earlier;
        }
        proof {
            assert(first < index ==> repeats(views, top@, index as int));
            assert(first == index ==> !repeats(views, top@, index as int));
            assert(stands_for(views, top@, index as int, first as int));
            assert(views[first as int].name == modules[first as int].name@);
        }
        let ghost old_canonical = canonical@;
        canonical.insert(module.name.clone(), modules[first].name.clone());
        proof {
            assert forall|name: Seq<char>| #[trigger] canonical@.contains_key(name) implies exists|i: int, k: int|
                {
                    &&& 0 <= i < index + 1
                    &&& views[i].name == name
                    &&& #[trigger] stands_for(views, top@, i, k)
                    &&& canonical@[name]@ == views[k].name
                    &&& forall|later: int| i < later < index + 1 ==> (#[trigger] views[later]).name != name
                } by {
                if name == module.name@ {
                    assert(stands_for(views, top@, index as int, first as int));
                } else {
                    assert(old_canonical.contains_key(name));
                    let (i, k) = choose|i: int, k: int|
                        {
                            &&& 0 <= i < index
                            &&& views[i].name == name
                            &&& #[trigger] stands_for(views, top@, i, k)
                            &&& old_canonical[name]@ == views[k].name
                            &&& forall|later: int| i < later < index ==> (#[trigger] views[later]).name != name
                        };
                    assert(stands_for(views, top@, i, k));
                }
            }
        }
        let ghost old_kept = kept@.map_values(|place: usize| place as int);
        let ghost old_names = texts(names@);
        if first == index {
            kept.push(index);
            names.push(module.name.clone());
            proof {
                assert(kept@.map_values(|place: usize| place as int) =~= old_kept.push(index as int));
                assert(texts(names@) =~= old_names.push(module.name@));
                assert(texts(names@) =~= names_at(views, kept_places(views, top@, (index + 1) as nat)));
            }
        }
    }
    let order = text_order(&names);
    let ghost places = kept_places(views, top@, views.len());
    let mut sorted: Vec<RoutableModule> = Vec::new();
    for index in 0..order.len()
        invariant
            views == module_views(modules@),
            places == kept@.map_values(|place: usize| place as int),
            order.len() == kept.len(),
            forall|i: int| 0 <= i < order.len() ==> (#[trigger] order[i]) < kept.len(),
            forall|i: int| 0 <= i < kept.len() ==> (#[trigger] kept[i]) < modules.len(),
            sorted.len() == index,
            forall|i: int|
                0 <= i < index ==> (#[trigger] sorted[i])@ == renamed(views[places[order[i] as int]], canonical@),
    {
        assert(order[index as int] < kept.len());
        let place: usize = kept[order[index]];
        assert(places[order[index as int] as int] == place);
        sorted.push(copy_renamed(&modules[place], &canonical));
    }
    let design = RoutableDesign {
        version: ROUTABLE_IR_VERSION,
        target: target.to_owned(),
        top: top.to_owned(),
        modules: sorted,
    };
    proof {
        assert(texts(names@).len() == kept.len());
        assert(is_text_order(names_at(views, places), order@));
    }
    design
}

/// The scalar ports of one logical port.
pub open spec fn bit_ports(
    net: Seq<char>,
    width: usize,
    direction: RoutablePortDirection,
) -> Seq<RoutablePortView> {
    bit_texts(net, width).map_values(|name: Seq<char>| RoutablePortView { name, direction })
}

/// The scalar ports of a list of names that are among `used`.
pub open spec fn used_ports(names: Seq<Seq<char>>, used: Set<Seq<char>>) -> Seq<RoutablePortView>
    decreases names.len(),
{
    if names.len() == 0 {
        Seq::empty()
    } else {
        let before = used_ports(names.drop_last(), used);
        if used.contains(names.last()) {
            before.push(RoutablePortView { name: names.last(), direction: RoutablePortDirection::Input })
        } else {
            before
        }
    }
}

/// Routable ports of logical ports: every output bit, and the input bits that
/// are used.
pub open spec fn filtered_ports(
    ports: Seq<PortView>,
    widths: Map<Seq<char>, usize>,
    used: Set<Seq<char>>,
) -> Seq<RoutablePortView>
    decreases ports.len(),
{
    if ports.len() == 0 {
        Seq::empty()
    } else {
        let port = ports.last();
        filtered_ports(ports.drop_last(), widths, used) + (match port.direction {
            LogicalPortDirection::Input => used_ports(bit_texts(port.net, widths[port.net]), used),
            LogicalPortDirection::Output => bit_ports(port.net, widths[port.net], RoutablePortDirection::Output),
        })
    }
}

/// Routable ports for a logical module, without the input bits that nothing
/// uses.
pub fn logical_ports_filtered(module: &LogicalModule, nets: &ScalarNets, used_inputs: &StringHashSet) -> (result: Result<
    Vec<RoutablePort>,
    LowerError,
>)
    ensures
        match result {
            Ok(ports) => {
                &&& forall|i: int| 0 <= i < module.ports.len() ==> nets@.contains_key((#[trigger] module.ports[i]).net@)
                &&& port_views(ports@) == filtered_ports(module@.ports, nets@, used_inputs@)
            },
            Err(error) => exists|bad: int|
                {
                    &&& 0 <= bad < module.ports.len()
                    &&& !nets@.contains_key((#[trigger] module.ports[bad]).net@)
                    &&& error@ == ErrorView::UnknownNet(module.ports[bad].net@)
                    &&& forall|i: int| 0 <= i < bad ==> nets@.contains_key((#[trigger] module.ports[i]).net@)
                },
        },
{
    let ghost views = module@.ports;
    let mut ports: Vec<RoutablePort> = Vec::new();
    assert(port_views(ports@) =~= Seq::empty());
    for index in 0..module.ports.len()
        invariant
            views == module@.ports,
            forall|i: int| 0 <= i < index ==> nets@.contains_key((#[trigger] module.ports[i]).net@),
            port_views(ports@) == filtered_ports(views.take(index as int), nets@, used_inputs@),
    {
        let port = &module.ports[index];
        let bits = match nets.bits(port.net.as_str()) {
            Ok(bits) => bits,
            Err(error) => return Err(error),
        };
        let ghost names = texts(bits@);
        let ghost before = port_views(ports@);
        proof {
            let longer = views.take(index + 1);
            assert(longer.drop_last() =~= views.take(index as int));
            assert(longer.last() == port@);
            assert(names.take(0) =~= Seq::<Seq<char>>::empty());
        }
        for bit in 0..bits.len()
            invariant
                names == texts(bits@),
                port_views(ports@) == before + (match port.direction {
                    LogicalPortDirection::Input => used_ports(names.take(bit as int), used_inputs@),
                    LogicalPortDirection::Output => names.take(bit as int).map_values(
                        |name: Seq<char>| RoutablePortView { name, direction: RoutablePortDirection::Output },
                    ),
                }),
        {
            let ghost shorter = port_views(ports@);
            proof {
                let longer = names.take(bit + 1);
                assert(longer.drop_last() =~= names.take(bit as int));
                assert(longer.last() == bits[bit as int]@);
            }
            match port.direction {
                LogicalPortDirection::Input => {
                    if used_inputs.contains(bits[bit].as_str()) {
                        ports.push(
                            RoutablePort { name: bits[bit].clone(), direction: RoutablePortDirection::Input },
                        );
                        assert(port_views(ports@) =~= shorter.push(ports@.last()@));
                        assert(port_views(ports@) =~= before + used_ports(names.take(bit + 1), used_inputs@));
                    }
                },
                LogicalPortDirection::Output => {
                    ports.push(RoutablePort { name: bits[bit].clone(), direction: RoutablePortDirection::Output });
                    assert(port_views(ports@) =~= shorter.push(ports@.last()@));
                    assert(port_views(ports@) =~= before + names.take(bit + 1).map_values(
                        |name: Seq<char>| RoutablePortView { name, direction: RoutablePortDirection::Output },
                    ));
                },
            }
        }
        assert(names.take(names.len() as int) =~= names);
        assert(port_views(ports@) =~= filtered_ports(views.take(index + 1), nets@, used_inputs@));
    }
    assert(views.take(views.len() as int) =~= views);
    Ok(ports)
}

/// The width of the first net of a name.
pub open spec fn first_width(nets: Seq<crate::ir::logical::NetView>, name: Seq<char>) -> Option<usize>
    decreases nets.len(),
{
    if nets.len() == 0 {
        None
    } else if nets[0].name == name {
        Some(nets[0].width)
    } else {
        first_width(nets.drop_first(), name)
    }
}

/// One bit of a signal.
pub fn bit_signal_name(signal: &str, bit: usize) -> (name: String)
    ensures
        name@ == signal@ + "_"@ + decimal(bit as nat),
{
    let digits = decimal_text(bit);
    join3(signal, "_", digits.as_str())
}

/// The routable direction of a logical one.
pub open spec fn routable_direction(direction: LogicalPortDirection) -> RoutablePortDirection {
    match direction {
        LogicalPortDirection::Input => RoutablePortDirection::Input,
        LogicalPortDirection::Output => RoutablePortDirection::Output,
    }
}

/// Routable ports of logical ports, vectors bit by bit.
pub open spec fn all_ports(
    nets: Seq<crate::ir::logical::NetView>,
    ports: Seq<PortView>,
) -> Seq<RoutablePortView>
    decreases ports.len(),
{
    if ports.len() == 0 {
        Seq::empty()
    } else {
        let port = ports.last();
        all_ports(nets, ports.drop_last()) + bit_ports(
            port.name,
            first_width(nets, port.net)->0,
            routable_direction(port.direction),
        )
    }
}

/// Routable ports for a logical module; vector ports are split into bits.
pub fn logical_ports(module: &LogicalModule) -> (result: Result<Vec<RoutablePort>, LowerError>)
    ensures
        match result {
            Ok(ports) => {
                &&& forall|i: int|
                    0 <= i < module.ports.len() ==> first_width(
                        module@.nets,
                        (#[trigger] module.ports[i]).net@,
                    ) is Some
                &&& port_views(ports@) == all_ports(module@.nets, module@.ports)
            },
            Err(error) => exists|bad: int|
                {
                    &&& 0 <= bad < module.ports.len()
                    &&& first_width(module@.nets, (#[trigger] module.ports[bad]).net@) is None
                    &&& error@ == ErrorView::MissingPortNet(module.ports[bad].name@, module.ports[bad].net@)
                    &&& forall|i: int|
                        0 <= i < bad ==> first_width(module@.nets, (#[trigger] module.ports[i]).net@) is Some
                },
        },
{
    let ghost views = module@.ports;
    let ghost declared = module@.nets;
    let mut ports: Vec<RoutablePort> = Vec::new();
    assert(port_views(ports@) =~= Seq::empty());
    for index in 0..module.ports.len()
        invariant
            views == module@.ports,
            declared == module@.nets,
            forall|i: int|
                0 <= i < index ==> first_width(declared, (#[trigger] module.ports[i]).net@) is Some,
            port_views(ports@) == all_ports(declared, views.take(index as int)),
    {
        let port = &module.ports[index];
        let mut found: usize = 0;
        assert(declared.skip(0) =~= declared);
        while found < module.nets.len() && !same_text(module.nets[found].name.as_str(), port.net.as_str())
            invariant
                declared == module@.nets,
                found <= module.nets.len(),
                first_width(declared, port.net@) == first_width(declared.skip(found as int), port.net@),
            decreases module.nets.len() - found,
        {
            assert(declared.skip(found as int)[0] == module.nets[found as int]@);
            assert(declared.skip(found as int).drop_first() =~= declared.skip(found + 1));
            found += 1;
        }
        if found == module.nets.len() {
            return Err(LowerError::MissingPortNet { port: port.name.clone(), net: port.net.clone() });
        }
        assert(declared.skip(found as int)[0] == module.nets[found as int]@);
        let width: usize = module.nets[found].width;
        let direction = match port.direction {
            LogicalPortDirection::Input => RoutablePortDirection::Input,
            LogicalPortDirection::Output => RoutablePortDirection::Output,
        };
        let ghost before = port_views(ports@);
        let ghost names = bit_texts(port.name@, width);
        proof {
            let longer = views.take(index + 1);
            assert(longer.drop_last() =~= views.take(index as int));
            assert(longer.last() == port@);
        }
        if width == 1 {
            ports.push(RoutablePort { name: port.name.clone(), direction });
            assert(port_views(ports@) =~= before + bit_ports(port.name@, width, direction));
        } else {
            assert(before + bit_ports(port.name@, width, direction).take(0) =~= before);
            for bit in 0..width
                invariant
                    width != 1,
                    port_views(ports@) == before + bit_ports(port.name@, width, direction).take(bit as int),
            {
                let ghost shorter = port_views(ports@);
                ports.push(RoutablePort { name: bit_signal_name(port.name.as_str(), bit), direction });
                proof {
                    let bits = bit_ports(port.name@, width, direction);
                    assert(port_views(ports@) =~= shorter.push(ports@.last()@));
                    assert(bits.take(bit + 1) =~= bits.take(bit as int).push(bits[bit as int]));
                    assert(port_views(ports@) =~= before + bits.take(bit + 1));
                }
            }
            let ghost bits = bit_ports(port.name@, width, direction);
            assert(bits.take(width as int) =~= bits);
        }
    }
    assert(views.take(views.len() as int) =~= views);
    Ok(ports)
}

} // verus!
