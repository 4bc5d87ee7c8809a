//! Scalar circuits as the physical flow takes them: leaves of gates and
//! composites of wired leaf instances.

use super::logical::optional_text;
use crate::sequential::SequentialType;
use crate::text::{same_text, same_texts, texts};
use vstd::prelude::*;

verus! {

/// Version of the routable description.
pub const ROUTABLE_IR_VERSION: u32 = 1;

/// The direction of a port, seen from outside the module.
#[derive(Clone, Copy, Debug, PartialEq, Eq, Structural)]
pub enum RoutablePortDirection {
    Input,
    Output,
}

/// A scalar port.
#[derive(Clone, Debug)]
pub struct RoutablePort {
    pub name: String,
    pub direction: RoutablePortDirection,
}

/// The contents of a [`RoutablePort`].
pub struct RoutablePortView {
    pub name: Seq<char>,
    pub direction: RoutablePortDirection,
}

impl View for RoutablePort {
    type V = RoutablePortView;

    open spec fn view(&self) -> RoutablePortView {
        RoutablePortView { name: self.name@, direction: self.direction }
    }
}

/// What a leaf node is.
#[derive(Clone, Debug)]
pub enum RoutableNodeKind {
    Input { name: String },
    Constant { value: bool },
    Output { name: String },
    Not,
    And,
    Or,
    Xor,
    Sequential { primitive: SequentialType, input_ports: Vec<String>, output_ports: Vec<String> },
}

/// The contents of a [`RoutableNodeKind`].
pub enum RoutableKindView {
    Input(Seq<char>),
    Constant(bool),
    Output(Seq<char>),
    Not,
    And,
    Or,
    Xor,
    Sequential(SequentialType, Seq<Seq<char>>, Seq<Seq<char>>),
}

impl View for RoutableNodeKind {
    type V = RoutableKindView;

    open spec fn view(&self) -> RoutableKindView {
        match self {
            RoutableNodeKind::Input { name } => RoutableKindView::Input(name@),
            RoutableNodeKind::Constant { value } => RoutableKindView::Constant(*value),
            RoutableNodeKind::Output { name } => RoutableKindView::Output(name@),
            RoutableNodeKind::Not => RoutableKindView::Not,
            RoutableNodeKind::And => RoutableKindView::And,
            RoutableNodeKind::Or => RoutableKindView::Or,
            RoutableNodeKind::Xor => RoutableKindView::Xor,
            RoutableNodeKind::Sequential { primitive, input_ports, output_ports } => RoutableKindView::Sequential(
                *primitive,
                texts(input_ports@),
                texts(output_ports@),
            ),
        }
    }
}

impl RoutableNodeKind {
    /// Whether two node kinds have the same contents.
    pub fn same(&self, other: &Self) -> (same: bool)
        ensures
            same == (self@ == other@),
    {
        match (self, other) {
            (RoutableNodeKind::Input { name: left }, RoutableNodeKind::Input { name: right }) => {
                same_text(left.as_str(), right.as_str())
            },
            (RoutableNodeKind::Output { name: left }, RoutableNodeKind::Output { name: right }) => {
                same_text(left.as_str(), right.as_str())
            },
            (RoutableNodeKind::Constant { value: left }, RoutableNodeKind::Constant { value: right }) => {
                *left == *right
            },
            (RoutableNodeKind::Not, RoutableNodeKind::Not) => true,
            (RoutableNodeKind::And, RoutableNodeKind::And) => true,
            (RoutableNodeKind::Or, RoutableNodeKind::Or) => true,
            (RoutableNodeKind::Xor, RoutableNodeKind::Xor) => true,
            (
                RoutableNodeKind::Sequential { primitive: left, input_ports: left_in, output_ports: left_out },
                RoutableNodeKind::Sequential { primitive: right, input_ports: right_in, output_ports: right_out },
            ) => {
                *left == *right && same_texts(left_in, right_in) && same_texts(left_out, right_out)
            },
            _ => false,
        }
    }
}

/// A node of a leaf.
#[derive(Clone, Debug)]
pub struct RoutableNode {
    pub id: usize,
    pub kind: RoutableNodeKind,
    pub inputs: Vec<usize>,
    pub tag: String,
}

/// The contents of a [`RoutableNode`].
pub struct RoutableNodeView {
    pub id: usize,
    pub kind: RoutableKindView,
    pub inputs: Seq<usize>,
    pub tag: Seq<char>,
}

impl View for RoutableNode {
    type V = RoutableNodeView;

    open spec fn view(&self) -> RoutableNodeView {
        RoutableNodeView { id: self.id, kind: self.kind@, inputs: self.inputs@, tag: self.tag@ }
    }
}

/// A signal source or sink inside a composite: one of its own ports or a port
/// of one of its instances.
#[derive(Clone, Debug)]
pub enum Endpoint {
    SelfPort { port: String },
    InstancePort { instance: String, port: String },
}

/// The contents of an [`Endpoint`].
pub enum EndpointView {
    SelfPort(Seq<char>),
    InstancePort(Seq<char>, Seq<char>),
}

impl View for Endpoint {
    type V = EndpointView;

    open spec fn view(&self) -> EndpointView {
        match self {
            Endpoint::SelfPort { port } => EndpointView::SelfPort(port@),
            Endpoint::InstancePort { instance, port } => EndpointView::InstancePort(instance@, port@),
        }
    }
}

impl Endpoint {
    /// Whether two endpoints are the same port.
    pub fn same(&self, other: &Self) -> (same: bool)
        ensures
            same == (self@ == other@),
    {
        match (self, other) {
            (Endpoint::SelfPort { port: left }, Endpoint::SelfPort { port: right }) => {
                same_text(left.as_str(), right.as_str())
            },
            (
                Endpoint::InstancePort { instance: left_instance, port: left_port },
                Endpoint::InstancePort { instance: right_instance, port: right_port },
            ) => {
                same_text(left_instance.as_str(), right_instance.as_str()) && same_text(
                    left_port.as_str(),
                    right_port.as_str(),
                )
            },
            _ => false,
        }
    }

    /// An equal endpoint.
    pub fn copy(&self) -> (copy: Self)
        ensures
            copy@ == self@,
    {
        match self {
            Endpoint::SelfPort { port } => Endpoint::SelfPort { port: port.clone() },
            Endpoint::InstancePort { instance, port } => Endpoint::InstancePort {
                instance: instance.clone(),
                port: port.clone(),
            },
        }
    }
}

/// What a net carries.
#[derive(Clone, Copy, Debug, PartialEq, Eq, Structural)]
pub enum NetClass {
    Io,
    Clock,
    Reset,
    Data,
}

/// An instance of a module inside a composite.
#[derive(Clone, Debug)]
pub struct RoutableInstance {
    pub name: String,
    pub module: String,
    pub origin: Option<String>,
}

/// The contents of a [`RoutableInstance`].
pub struct InstanceView {
    pub name: Seq<char>,
    pub module: Seq<char>,
    pub origin: Option<Seq<char>>,
}

impl View for RoutableInstance {
    type V = InstanceView;

    open spec fn view(&self) -> InstanceView {
        InstanceView { name: self.name@, module: self.module@, origin: optional_text(self.origin) }
    }
}

/// A net of a composite: one driver and its sinks.
#[derive(Clone, Debug)]
pub struct RoutableNet {
    pub name: String,
    pub class: NetClass,
    pub driver: Endpoint,
    pub sinks: Vec<Endpoint>,
    pub origin: Option<String>,
}

/// The contents of a [`RoutableNet`].
pub struct RoutableNetView {
    pub name: Seq<char>,
    pub class: NetClass,
    pub driver: EndpointView,
    pub sinks: Seq<EndpointView>,
    pub origin: Option<Seq<char>>,
}

impl View for RoutableNet {
    type V = RoutableNetView;

    open spec fn view(&self) -> RoutableNetView {
        RoutableNetView {
            name: self.name@,
            class: self.class,
            driver: self.driver@,
            sinks: self.sinks@.map_values(|sink: Endpoint| sink@),
            origin: optional_text(self.origin),
        }
    }
}

/// The inside of a module.
#[derive(Clone, Debug)]
pub enum RoutableModuleBody {
    Leaf { nodes: Vec<RoutableNode> },
    Composite { instances: Vec<RoutableInstance>, nets: Vec<RoutableNet> },
}

/// The contents of a [`RoutableModuleBody`].
pub enum BodyView {
    Leaf(Seq<RoutableNodeView>),
    Composite(Seq<InstanceView>, Seq<RoutableNetView>),
}

impl View for RoutableModuleBody {
    type V = BodyView;

    open spec fn view(&self) -> BodyView {
        match self {
            RoutableModuleBody::Leaf { nodes } => BodyView::Leaf(
                nodes@.map_values(|node: RoutableNode| node@),
            ),
            RoutableModuleBody::Composite { instances, nets } => BodyView::Composite(
                instances@.map_values(|instance: RoutableInstance| instance@),
                nets@.map_values(|net: RoutableNet| net@),
            ),
        }
    }
}

/// A module of a routable design.
#[derive(Clone, Debug)]
pub struct RoutableModule {
    pub name: String,
    pub ports: Vec<RoutablePort>,
    pub body: RoutableModuleBody,
}

/// The contents of a [`RoutableModule`].
pub struct RoutableModuleView {
    pub name: Seq<char>,
    pub ports: Seq<RoutablePortView>,
    pub body: BodyView,
}

impl View for RoutableModule {
    type V = RoutableModuleView;

    open spec fn view(&self) -> RoutableModuleView {
        RoutableModuleView {
            name: self.name@,
            ports: self.ports@.map_values(|port: RoutablePort| port@),
            body: self.body@,
        }
    }
}

/// The contents of a list of modules.
pub open spec fn module_views(modules: Seq<RoutableModule>) -> Seq<RoutableModuleView> {
    modules.map_values(|module: RoutableModule| module@)
}

/// A routable design.
#[derive(Clone, Debug)]
pub struct RoutableDesign {
    pub version: u32,
    pub target: String,
    pub top: String,
    pub modules: Vec<RoutableModule>,
}

/// The first module of a name, from `start` on.
pub open spec fn routable_from(modules: Seq<RoutableModule>, name: Seq<char>, start: nat) -> Option<RoutableModule>
    decreases modules.len() - start,
{
    if start >= modules.len() {
        None
    } else if modules[start as int].name@ == name {
        Some(modules[start as int])
    } else {
        routable_from(modules, name, start + 1)
    }
}

/// The first module of a name.
pub open spec fn routable_named(modules: Seq<RoutableModule>, name: Seq<char>) -> Option<RoutableModule> {
    routable_from(modules, name, 0)
}

impl RoutableDesign {
    /// The first module called `name`.
    pub fn module(&self, name: &str) -> (module: Option<&RoutableModule>)
        ensures
            match module {
                Some(module) => routable_named(self.modules@, name@) == Some(*module),
                None => routable_named(self.modules@, name@) is None,
            },
    {
        let mut index: usize = 0;
        while index < self.modules.len()
            invariant
                index <= self.modules.len(),
                routable_named(self.modules@, name@) == routable_from(self.modules@, name@, index as nat),
            decreases self.modules.len() - index,
        {
            if same_text(self.modules[index].name.as_str(), name) {
                return Some(&self.modules[index]);
            }
            index += 1;
        }
        None
    }
}

} // verus!
