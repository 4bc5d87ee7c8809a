//! Bus-aware logical circuits: modules of cells, nets and instances.

use crate::text::same_text;
use vstd::prelude::*;

verus! {

/// The contents of an optional text.
pub open spec fn optional_text(text: Option<String>) -> Option<Seq<char>> {
    match text {
        Some(text) => Some(text@),
        None => None,
    }
}

/// An equal optional text.
pub fn copy_optional_text(text: &Option<String>) -> (copy: Option<String>)
    ensures
        optional_text(copy) == optional_text(*text),
{
    match text {
        Some(text) => Some(text.clone()),
        None => None,
    }
}

/// Which clock edge a register reacts to.
#[derive(Clone, Copy, Debug, PartialEq, Eq, Structural)]
pub enum ClockEdge {
    Posedge,
    Negedge,
}

/// What a logical cell computes or stores.
#[derive(Clone, Copy, Debug, PartialEq, Eq, Structural)]
pub enum LogicalCellKind {
    Buffer,
    Not,
    And,
    Or,
    Xor,
    Add,
    Inc,
    Mux,
    Eq { width: usize },
    DLatch { width: usize },
    Dff { edge: ClockEdge },
    Register { edge: ClockEdge, width: usize },
}

/// Whether a cell kind holds state.
pub open spec fn kind_is_sequential(kind: LogicalCellKind) -> bool {
    kind is DLatch || kind is Dff || kind is Register
}

impl LogicalCellKind {
    pub fn is_sequential(&self) -> (sequential: bool)
        ensures
            sequential == kind_is_sequential(*self),
    {
        matches!(
            self,
            LogicalCellKind::DLatch { .. } | LogicalCellKind::Dff { .. } | LogicalCellKind::Register { .. }
        )
    }
}

/// What feeds an input pin: a whole net, one bit of a net, or a constant.
#[derive(Clone, Debug)]
pub enum LogicalValue {
    Net { net: String },
    Slice { net: String, bit: usize },
    Constant { value: u128, width: usize },
}

/// The contents of a [`LogicalValue`].
pub enum ValueView {
    Net(Seq<char>),
    Slice(Seq<char>, usize),
    Constant(u128, usize),
}

impl View for LogicalValue {
    type V = ValueView;

    open spec fn view(&self) -> ValueView {
        match self {
            LogicalValue::Net { net } => ValueView::Net(net@),
            LogicalValue::Slice { net, bit } => ValueView::Slice(net@, *bit),
            LogicalValue::Constant { value, width } => ValueView::Constant(*value, *width),
        }
    }
}

impl LogicalValue {
    /// An equal value.
    pub fn copy(&self) -> (copy: Self)
        ensures
            copy@ == self@,
    {
        match self {
            LogicalValue::Net { net } => LogicalValue::Net { net: net.clone() },
            LogicalValue::Slice { net, bit } => LogicalValue::Slice { net: net.clone(), bit: *bit },
            LogicalValue::Constant { value, width } => LogicalValue::Constant {
                value: *value,
                width: *width,
            },
        }
    }
}

/// An input pin and what feeds it.
#[derive(Clone, Debug)]
pub struct LogicalInput {
    pub pin: String,
    pub value: LogicalValue,
}

/// The contents of a [`LogicalInput`].
pub struct InputView {
    pub pin: Seq<char>,
    pub value: ValueView,
}

impl View for LogicalInput {
    type V = InputView;

    open spec fn view(&self) -> InputView {
        InputView { pin: self.pin@, value: self.value@ }
    }
}

/// An output pin and the net it drives.
#[derive(Clone, Debug)]
pub struct LogicalOutput {
    pub pin: String,
    pub net: String,
}

/// The contents of a [`LogicalOutput`].
pub struct OutputView {
    pub pin: Seq<char>,
    pub net: Seq<char>,
}

impl View for LogicalOutput {
    type V = OutputView;

    open spec fn view(&self) -> OutputView {
        OutputView { pin: self.pin@, net: self.net@ }
    }
}

/// A cell of a logical module.
#[derive(Clone, Debug)]
pub struct LogicalCell {
    pub name: String,
    pub kind: LogicalCellKind,
    pub inputs: Vec<LogicalInput>,
    pub outputs: Vec<LogicalOutput>,
    pub origin: Option<String>,
}

/// The contents of a [`LogicalCell`].
pub struct CellView {
    pub name: Seq<char>,
    pub kind: LogicalCellKind,
    pub inputs: Seq<InputView>,
    pub outputs: Seq<OutputView>,
    pub origin: Option<Seq<char>>,
}

impl View for LogicalCell {
    type V = CellView;

    open spec fn view(&self) -> CellView {
        CellView {
            name: self.name@,
            kind: self.kind,
            inputs: self.inputs@.map_values(|input: LogicalInput| input@),
            outputs: self.outputs@.map_values(|output: LogicalOutput| output@),
            origin: optional_text(self.origin),
        }
    }
}

/// What feeds `pin`: the first input of that name.
pub open spec fn pin_value(inputs: Seq<InputView>, pin: Seq<char>) -> Option<ValueView>
    decreases inputs.len(),
{
    if inputs.len() == 0 {
        None
    } else if inputs[0].pin == pin {
        Some(inputs[0].value)
    } else {
        pin_value(inputs.drop_first(), pin)
    }
}

/// The net that `pin` drives: that of the first output of that name.
pub open spec fn pin_net(outputs: Seq<OutputView>, pin: Seq<char>) -> Option<Seq<char>>
    decreases outputs.len(),
{
    if outputs.len() == 0 {
        None
    } else if outputs[0].pin == pin {
        Some(outputs[0].net)
    } else {
        pin_net(outputs.drop_first(), pin)
    }
}

impl LogicalCell {
    /// What feeds the input pin `pin`, where the cell has that pin.
    pub fn input_value(&self, pin: &str) -> (value: Option<&LogicalValue>)
        ensures
            match value {
                Some(value) => pin_value(self@.inputs, pin@) == Some(value@),
                None => pin_value(self@.inputs, pin@) is None,
            },
    {
        let ghost inputs = self@.inputs;
        assert(inputs.skip(0) =~= inputs);
        for index in 0..self.inputs.len()
            invariant
                inputs == self@.inputs,
                pin_value(inputs, pin@) == pin_value(inputs.skip(index as int), pin@),
        {
            assert(inputs.skip(index as int)[0] == self.inputs[index as int]@);
            if same_text(self.inputs[index].pin.as_str(), pin) {
                return Some(&self.inputs[index].value);
            }
            assert(inputs.skip(index as int).drop_first() =~= inputs.skip(index + 1));
        }
        None
    }

    /// The net that the output pin `pin` drives, where the cell has that pin.
    pub fn output(&self, pin: &str) -> (net: Option<&String>)
        ensures
            match net {
                Some(net) => pin_net(self@.outputs, pin@) == Some(net@),
                None => pin_net(self@.outputs, pin@) is None,
            },
    {
        let ghost outputs = self@.outputs;
        assert(outputs.skip(0) =~= outputs);
        for index in 0..self.outputs.len()
            invariant
                outputs == self@.outputs,
                pin_net(outputs, pin@) == pin_net(outputs.skip(index as int), pin@),
        {
            assert(outputs.skip(index as int)[0] == self.outputs[index as int]@);
            if same_text(self.outputs[index].pin.as_str(), pin) {
                return Some(&self.outputs[index].net);
            }
            assert(outputs.skip(index as int).drop_first() =~= outputs.skip(index + 1));
        }
        None
    }
}

/// A named bus.
#[derive(Clone, Debug)]
pub struct LogicalNet {
    pub name: String,
    pub width: usize,
    pub origin: Option<String>,
}

/// The contents of a [`LogicalNet`].
pub struct NetView {
    pub name: Seq<char>,
    pub width: usize,
    pub origin: Option<Seq<char>>,
}

impl View for LogicalNet {
    type V = NetView;

    open spec fn view(&self) -> NetView {
        NetView { name: self.name@, width: self.width, origin: optional_text(self.origin) }
    }
}

/// The direction of a port, seen from outside the module.
#[derive(Clone, Copy, Debug, PartialEq, Eq, Structural)]
pub enum LogicalPortDirection {
    Input,
    Output,
}

/// A module port and the net behind it.
#[derive(Clone, Debug)]
pub struct LogicalPort {
    pub name: String,
    pub direction: LogicalPortDirection,
    pub net: String,
}

/// The contents of a [`LogicalPort`].
pub struct PortView {
    pub name: Seq<char>,
    pub direction: LogicalPortDirection,
    pub net: Seq<char>,
}

impl View for LogicalPort {
    type V = PortView;

    open spec fn view(&self) -> PortView {
        PortView { name: self.name@, direction: self.direction, net: self.net@ }
    }
}

/// Ties a port of an instantiated module to a net of the parent.
#[derive(Clone, Debug)]
pub struct LogicalBinding {
    pub port: String,
    pub net: String,
}

/// The contents of a [`LogicalBinding`].
pub struct BindingView {
    pub port: Seq<char>,
    pub net: Seq<char>,
}

impl View for LogicalBinding {
    type V = BindingView;

    open spec fn view(&self) -> BindingView {
        BindingView { port: self.port@, net: self.net@ }
    }
}

/// A use of one module inside another.
#[derive(Clone, Debug)]
pub struct LogicalInstance {
    pub name: String,
    pub module: String,
    pub bindings: Vec<LogicalBinding>,
}

/// The contents of a [`LogicalInstance`].
pub struct InstanceView {
    pub name: Seq<char>,
    pub module: Seq<char>,
    pub bindings: Seq<BindingView>,
}

impl View for LogicalInstance {
    type V = InstanceView;

    open spec fn view(&self) -> InstanceView {
        InstanceView {
            name: self.name@,
            module: self.module@,
            bindings: self.bindings@.map_values(|binding: LogicalBinding| binding@),
        }
    }
}

/// A logical module.
#[derive(Clone, Debug)]
pub struct LogicalModule {
    pub name: String,
    pub nets: Vec<LogicalNet>,
    pub ports: Vec<LogicalPort>,
    pub cells: Vec<LogicalCell>,
    pub instances: Vec<LogicalInstance>,
}

/// The contents of a [`LogicalModule`].
pub struct ModuleView {
    pub name: Seq<char>,
    pub nets: Seq<NetView>,
    pub ports: Seq<PortView>,
    pub cells: Seq<CellView>,
    pub instances: Seq<InstanceView>,
}

impl View for LogicalModule {
    type V = ModuleView;

    open spec fn view(&self) -> ModuleView {
        ModuleView {
            name: self.name@,
            nets: self.nets@.map_values(|net: LogicalNet| net@),
            ports: self.ports@.map_values(|port: LogicalPort| port@),
            cells: self.cells@.map_values(|cell: LogicalCell| cell@),
            instances: self.instances@.map_values(|instance: LogicalInstance| instance@),
        }
    }
}

/// A design: modules and the name of the top one.
#[derive(Clone, Debug)]
pub struct LogicalDesign {
    pub version: u32,
    pub top: String,
    pub modules: Vec<LogicalModule>,
}

/// The first module of a name.
pub open spec fn module_named(modules: Seq<LogicalModule>, name: Seq<char>) -> Option<LogicalModule>
    decreases modules.len(),
{
    if modules.len() == 0 {
        None
    } else if modules[0].name@ == name {
        Some(modules[0])
    } else {
        module_named(modules.drop_first(), name)
    }
}

impl LogicalDesign {
    /// The module called `name`.
    pub fn module(&self, name: &str) -> (module: Option<&LogicalModule>)
        ensures
            match module {
                Some(module) => module_named(self.modules@, name@) == Some(*module),
                None => module_named(self.modules@, name@) is None,
            },
    {
        let ghost modules = self.modules@;
        assert(modules.skip(0) =~= modules);
        for index in 0..self.modules.len()
            invariant
                modules == self.modules@,
                module_named(modules, name@) == module_named(modules.skip(index as int), name@),
        {
            assert(modules.skip(index as int)[0] == self.modules[index as int]);
            if same_text(self.modules[index].name.as_str(), name) {
                return Some(&self.modules[index]);
            }
            assert(modules.skip(index as int).drop_first() =~= modules.skip(index + 1));
        }
        None
    }
}

} // verus!
