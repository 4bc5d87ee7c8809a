//! Inlining of module instances into one module.

use super::logical::{
    copy_optional_text, module_named, BindingView, CellView, InputView, InstanceView, LogicalBinding, LogicalCell,
    LogicalDesign, LogicalInput, LogicalInstance, LogicalModule, LogicalNet, LogicalOutput, LogicalPort, LogicalValue,
    ModuleView, NetView, OutputView, ValueView,
};
use super::mapping::nets::{first_free_is_unique, free_name, is_first_free};
use crate::text::{join2, join3, same_text, texts};
use vstd::prelude::*;

verus! {

/// Why a design cannot be flattened.
#[derive(Clone, Debug)]
pub enum FlattenError {
    UnknownTop { name: String },
    UnknownModule { name: String },
    UnknownNet { net: String, module: String },
    /// A module is part of itself.
    Recursive { module: String },
    /// The design, or what it was flattened into, is not valid.
    Invalid { reason: String },
}

/// The contents of a [`FlattenError`].
pub enum FlattenErrorView {
    UnknownTop(Seq<char>),
    UnknownModule(Seq<char>),
    UnknownNet(Seq<char>, Seq<char>),
    Recursive(Seq<char>),
    Invalid(Seq<char>),
}

impl View for FlattenError {
    type V = FlattenErrorView;

    open spec fn view(&self) -> FlattenErrorView {
        match self {
            FlattenError::UnknownTop { name } => FlattenErrorView::UnknownTop(name@),
            FlattenError::UnknownModule { name } => FlattenErrorView::UnknownModule(name@),
            FlattenError::UnknownNet { net, module } => FlattenErrorView::UnknownNet(net@, module@),
            FlattenError::Recursive { module } => FlattenErrorView::Recursive(module@),
            FlattenError::Invalid { reason } => FlattenErrorView::Invalid(reason@),
        }
    }
}

impl FlattenError {
    /// The error in words.
    pub fn message(&self) -> (text: String)
        ensures
            text@ == (match self@ {
                FlattenErrorView::UnknownTop(name) => "unknown logical top module `"@ + name + "`"@,
                FlattenErrorView::UnknownModule(name) => "unknown logical module `"@ + name + "`"@,
                FlattenErrorView::UnknownNet(net, module) => "unknown logical net `"@ + net + ("` in module `"@ + module
                    + "`"@),
                FlattenErrorView::Recursive(name) => "recursive logical module `"@ + name + "`"@,
                FlattenErrorView::Invalid(reason) => reason,
            }),
    {
        match self {
            FlattenError::UnknownTop { name } => join3("unknown logical top module `", name.as_str(), "`"),
            FlattenError::UnknownModule { name } => join3("unknown logical module `", name.as_str(), "`"),
            FlattenError::UnknownNet { net, module } => {
                let end = join3("` in module `", module.as_str(), "`");
                join3("unknown logical net `", net.as_str(), end.as_str())
            },
            FlattenError::Recursive { module } => join3("recursive logical module `", module.as_str(), "`"),
            FlattenError::Invalid { reason } => reason.clone(),
        }
    }
}

// ---------------------------------------------------------------------------
// Names
// ---------------------------------------------------------------------------
/// A name below a path.
pub open spec fn below(path: Seq<char>, name: Seq<char>) -> Seq<char> {
    path + "__"@ + name
}

/// What the first `count` bindings tie a port to: the last of them counts.
pub open spec fn bound_to(bindings: Seq<BindingView>, port: Seq<char>, count: nat) -> Option<Seq<char>>
    decreases count,
{
    if count == 0 {
        None
    } else if bindings[count - 1].port == port {
        Some(bindings[count - 1].net)
    } else {
        bound_to(bindings, port, (count - 1) as nat)
    }
}

/// Whether there is a net of a name.
pub open spec fn has_net(nets: Seq<NetView>, name: Seq<char>) -> bool {
    exists|i: int| 0 <= i < nets.len() && (#[trigger] nets[i]).name == name
}

/// The width of the first net of a name, from `start` on.
pub open spec fn width_from(nets: Seq<NetView>, name: Seq<char>, start: nat) -> Option<usize>
    decreases nets.len() - start,
{
    if start >= nets.len() {
        None
    } else if nets[start as int].name == name {
        Some(nets[start as int].width)
    } else {
        width_from(nets, name, start + 1)
    }
}

/// Where a module is inlined.
pub ghost struct Place {
    pub module: ModuleView,
    pub path: Seq<char>,
}

/// What nets of an inlined module are tied to, and the nets that there are.
pub ghost struct Scope {
    pub bindings: Seq<BindingView>,
    pub nets: Seq<NetView>,
}

/// The names of nets.
pub open spec fn names_of(nets: Seq<NetView>) -> Seq<Seq<char>> {
    nets.map_values(|net: NetView| net.name)
}

/// The first candidate for a name that no net has.
pub open spec fn free_text(nets: Seq<NetView>, preferred: Seq<char>) -> Seq<char> {
    choose|name: Seq<char>| is_first_free(names_of(nets), preferred, name)
}

/// The net of a net of an inlined module: the one that it is tied to, or else a new
/// one, named after the path, to which it is tied from then on.
pub open spec fn resolved(place: Place, scope: Scope, local: Seq<char>) -> Result<
    (Seq<char>, Scope),
    FlattenErrorView,
> {
    match bound_to(scope.bindings, local, scope.bindings.len()) {
        Some(net) => Ok((net, scope)),
        None => match width_from(place.module.nets, local, 0) {
            None => Err(FlattenErrorView::UnknownNet(local, place.module.name)),
            Some(width) => {
                let name = free_text(scope.nets, below(place.path, local));
                let net = NetView { name, width, origin: Some("flattened."@ + place.path + ("."@ + local)) };
                Ok(
                    (
                        name,
                        Scope {
                            bindings: scope.bindings.push(BindingView { port: local, net: name }),
                            nets: scope.nets.push(net),
                        },
                    ),
                )
            },
        },
    }
}

/// A value of an inlined module.
pub open spec fn rewritten(place: Place, scope: Scope, value: ValueView) -> Result<
    (ValueView, Scope),
    FlattenErrorView,
> {
    match value {
        ValueView::Net(net) => match resolved(place, scope, net) {
            Ok((net, scope)) => Ok((ValueView::Net(net), scope)),
            Err(error) => Err(error),
        },
        ValueView::Slice(net, bit) => match resolved(place, scope, net) {
            Ok((net, scope)) => Ok((ValueView::Slice(net, bit), scope)),
            Err(error) => Err(error),
        },
        ValueView::Constant(_, _) => Ok((value, scope)),
    }
}

/// The first `count` inputs of a cell of an inlined module.
pub open spec fn inlined_inputs(place: Place, scope: Scope, inputs: Seq<InputView>, count: nat) -> Result<
    (Seq<InputView>, Scope),
    FlattenErrorView,
>
    decreases count,
{
    if count == 0 {
        Ok((Seq::empty(), scope))
    } else {
        match inlined_inputs(place, scope, inputs, (count - 1) as nat) {
            Err(error) => Err(error),
            Ok((done, scope)) => match rewritten(place, scope, inputs[count - 1].value) {
                Err(error) => Err(error),
                Ok((value, scope)) => Ok((done.push(InputView { pin: inputs[count - 1].pin, value }), scope)),
            },
        }
    }
}

/// The first `count` outputs of a cell of an inlined module.
pub open spec fn inlined_outputs(place: Place, scope: Scope, outputs: Seq<OutputView>, count: nat) -> Result<
    (Seq<OutputView>, Scope),
    FlattenErrorView,
>
    decreases count,
{
    if count == 0 {
        Ok((Seq::empty(), scope))
    } else {
        match inlined_outputs(place, scope, outputs, (count - 1) as nat) {
            Err(error) => Err(error),
            Ok((done, scope)) => match resolved(place, scope, outputs[count - 1].net) {
                Err(error) => Err(error),
                Ok((net, scope)) => Ok((done.push(OutputView { pin: outputs[count - 1].pin, net }), scope)),
            },
        }
    }
}

/// The bindings of an instance of an inlined module.
pub open spec fn inlined_bindings(place: Place, scope: Scope, bindings: Seq<BindingView>, count: nat) -> Result<
    (Seq<BindingView>, Scope),
    FlattenErrorView,
>
    decreases count,
{
    if count == 0 {
        Ok((Seq::empty(), scope))
    } else {
        match inlined_bindings(place, scope, bindings, (count - 1) as nat) {
            Err(error) => Err(error),
            Ok((done, scope)) => match resolved(place, scope, bindings[count - 1].net) {
                Err(error) => Err(error),
                Ok((net, scope)) => Ok((done.push(BindingView { port: bindings[count - 1].port, net }), scope)),
            },
        }
    }
}

/// What a module is flattened into.
pub ghost struct Flat {
    pub nets: Seq<NetView>,
    pub cells: Seq<CellView>,
}

/// What a module is flattened into while one is inlined.
pub ghost struct Frame {
    pub scope: Scope,
    pub cells: Seq<CellView>,
}

/// A module with one cell of an inlined module.
pub open spec fn with_cell(place: Place, frame: Frame, cell: CellView) -> Result<Frame, FlattenErrorView> {
    match inlined_inputs(place, frame.scope, cell.inputs, cell.inputs.len()) {
        Err(error) => Err(error),
        Ok((inputs, scope)) => match inlined_outputs(place, scope, cell.outputs, cell.outputs.len()) {
            Err(error) => Err(error),
            Ok((outputs, scope)) => Ok(
                Frame {
                    scope,
                    cells: frame.cells.push(
                        CellView {
                            name: below(place.path, cell.name),
                            kind: cell.kind,
                            inputs,
                            outputs,
                            origin: cell.origin,
                        },
                    ),
                },
            ),
        },
    }
}

/// A module with the first `count` cells of an inlined module.
pub open spec fn with_cells(place: Place, frame: Frame, count: nat) -> Result<Frame, FlattenErrorView>
    decreases count,
{
    if count == 0 {
        Ok(frame)
    } else {
        match with_cells(place, frame, (count - 1) as nat) {
            Err(error) => Err(error),
            Ok(frame) => with_cell(place, frame, place.module.cells[count - 1]),
        }
    }
}

/// A module with an inlined module, and with what that holds. Modules within
/// each other may be `depth` deep.
pub open spec fn with_module(
    modules: Seq<LogicalModule>,
    place: Place,
    bindings: Seq<BindingView>,
    flat: Flat,
    depth: nat,
) -> Result<Flat, FlattenErrorView>
    decreases depth, place.module.instances.len() + 1,
{
    if depth == 0 {
        Err(FlattenErrorView::Recursive(place.module.name))
    } else {
        let frame = Frame { scope: Scope { bindings, nets: flat.nets }, cells: flat.cells };
        match with_cells(place, frame, place.module.cells.len()) {
            Err(error) => Err(error),
            Ok(frame) => match with_instances(modules, place, frame, depth, place.module.instances.len()) {
                Err(error) => Err(error),
                Ok(frame) => Ok(Flat { nets: frame.scope.nets, cells: frame.cells }),
            },
        }
    }
}

/// A module with the first `count` instances of an inlined module.
pub open spec fn with_instances(
    modules: Seq<LogicalModule>,
    place: Place,
    frame: Frame,
    depth: nat,
    count: nat,
) -> Result<Frame, FlattenErrorView>
    decreases depth, count,
{
    if count == 0 || depth == 0 {
        Ok(frame)
    } else {
        match with_instances(modules, place, frame, depth, (count - 1) as nat) {
            Err(error) => Err(error),
            Ok(frame) => {
                let instance = place.module.instances[count - 1];
                match module_named(modules, instance.module) {
                    None => Err(FlattenErrorView::UnknownModule(instance.module)),
                    Some(module) => match inlined_bindings(
                        place,
                        frame.scope,
                        instance.bindings,
                        instance.bindings.len(),
                    ) {
                        Err(error) => Err(error),
                        Ok((own, scope)) => match with_module(
                            modules,
                            Place { module: module@, path: below(place.path, instance.name) },
                            own,
                            Flat { nets: scope.nets, cells: frame.cells },
                            (depth - 1) as nat,
                        ) {
                            Err(error) => Err(error),
                            Ok(flat) => Ok(
                                Frame {
                                    scope: Scope { bindings: scope.bindings, nets: flat.nets },
                                    cells: flat.cells,
                                },
                            ),
                        },
                    },
                }
            },
        }
    }
}

/// The top module with its first `count` instances inlined.
pub open spec fn flattened_instances(modules: Seq<LogicalModule>, top: ModuleView, count: nat) -> Result<
    Flat,
    FlattenErrorView,
>
    decreases count,
{
    if count == 0 {
        Ok(Flat { nets: top.nets, cells: top.cells })
    } else {
        match flattened_instances(modules, top, (count - 1) as nat) {
            Err(error) => Err(error),
            Ok(flat) => {
                let instance = top.instances[count - 1];
                match module_named(modules, instance.module) {
                    None => Err(FlattenErrorView::UnknownModule(instance.module)),
                    Some(module) => with_module(
                        modules,
                        Place { module: module@, path: instance.name },
                        instance.bindings,
                        flat,
                        modules.len(),
                    ),
                }
            },
        }
    }
}

/// The top module with all its instances inlined.
pub open spec fn flattened(modules: Seq<LogicalModule>, top: ModuleView) -> Result<ModuleView, FlattenErrorView> {
    match flattened_instances(modules, top, top.instances.len()) {
        Err(error) => Err(error),
        Ok(flat) => Ok(
            ModuleView {
                name: top.name,
                nets: flat.nets,
                ports: top.ports,
                cells: flat.cells,
                instances: Seq::empty(),
            },
        ),
    }
}

// ---------------------------------------------------------------------------
// Code
// ---------------------------------------------------------------------------
/// The contents of nets.
pub open spec fn net_views(nets: Seq<LogicalNet>) -> Seq<NetView> {
    nets.map_values(|net: LogicalNet| net@)
}

/// The contents of cells.
pub open spec fn cell_views(cells: Seq<LogicalCell>) -> Seq<CellView> {
    cells.map_values(|cell: LogicalCell| cell@)
}

/// The contents of bindings.
pub open spec fn binding_views(bindings: Seq<LogicalBinding>) -> Seq<BindingView> {
    bindings.map_values(|binding: LogicalBinding| binding@)
}

fn find_bound(bindings: &Vec<LogicalBinding>, port: &str) -> (found: Option<String>)
    ensures
        match found {
            Some(net) => bound_to(binding_views(bindings@), port@, bindings@.len()) == Some(net@),
            None => bound_to(binding_views(bindings@), port@, bindings@.len()) is None,
        },
{
    let ghost views = binding_views(bindings@);
    let mut left: usize = bindings.len();
    while left > 0 && !same_text(bindings[left - 1].port.as_str(), port)
        invariant
            left <= bindings.len(),
            views == binding_views(bindings@),
            bound_to(views, port@, bindings@.len()) == bound_to(views, port@, left as nat),
        decreases left,
    {
        assert(views[left - 1] == bindings@[left - 1]@);
        left -= 1;
    }
    if left > 0 {
        assert(views[left - 1] == bindings@[left - 1]@);
        Some(bindings[left - 1].net.clone())
    } else {
        None
    }
}

fn list_names(nets: &Vec<LogicalNet>) -> (names: Vec<String>)
    ensures
        texts(names@) == names_of(net_views(nets@)),
{
    let mut names: Vec<String> = Vec::new();
    let mut index: usize = 0;
    while index < nets.len()
        invariant
            index <= nets.len(),
            names.len() == index,
            forall|i: int| 0 <= i < index ==> (#[trigger] names@[i])@ == nets@[i].name@,
        decreases nets.len() - index,
    {
        names.push(nets[index].name.clone());
        index += 1;
    }
    assert(texts(names@) =~= names_of(net_views(nets@)));
    names
}

fn find_width(nets: &Vec<LogicalNet>, name: &str) -> (found: Option<usize>)
    ensures
        found == width_from(net_views(nets@), name@, 0),
{
    let ghost views = net_views(nets@);
    let mut index: usize = 0;
    while index < nets.len() && !same_text(nets[index].name.as_str(), name)
        invariant
            index <= nets.len(),
            views == net_views(nets@),
            width_from(views, name@, 0) == width_from(views, name@, index as nat),
        decreases nets.len() - index,
    {
        assert(views[index as int] == nets@[index as int]@);
        index += 1;
    }
    if index < nets.len() {
        assert(views[index as int] == nets@[index as int]@);
        Some(nets[index].width)
    } else {
        None
    }
}

/// The place of a module that is inlined.
pub open spec fn place_of(module: LogicalModule, path: Seq<char>) -> Place {
    Place { module: module@, path }
}

/// The nets that there are, and what nets of an inlined module are tied to.
pub open spec fn scope_of(bindings: Seq<LogicalBinding>, nets: Seq<LogicalNet>) -> Scope {
    Scope { bindings: binding_views(bindings), nets: net_views(nets) }
}

fn resolve_net(
    local: &str,
    module: &LogicalModule,
    nets: &mut Vec<LogicalNet>,
    path: &str,
    bindings: &mut Vec<LogicalBinding>,
) -> (result: Result<String, FlattenError>)
    ensures
        match resolved(place_of(*module, path@), scope_of(old(bindings)@, old(nets)@), local@) {
            Ok((name, after)) => result matches Ok(found) && found@ == name && scope_of(final(bindings)@, final(nets)@)
                == after,
            Err(error) => result matches Err(found) && found@ == error,
        },
{
    let ghost before = nets@;
    let ghost tied = bindings@;
    if let Some(net) = find_bound(bindings, local) {
        return Ok(net);
    }
    let width: usize = match find_width(&module.nets, local) {
        None => return Err(FlattenError::UnknownNet { net: local.to_owned(), module: module.name.clone() }),
        Some(width) => width,
    };
    let preferred = join3(path, "__", local);
    let used = list_names(nets);
    let name = free_name(&used, &preferred);
    proof {
        let chosen = free_text(net_views(before), preferred@);
        assert(is_first_free(names_of(net_views(before)), preferred@, chosen));
        first_free_is_unique(names_of(net_views(before)), preferred@, name@, chosen);
    }
    let end = join2(".", local);
    let origin = join3("flattened.", path, end.as_str());
    let net = LogicalNet { name: name.clone(), width, origin: Some(origin) };
    let ghost added = net@;
    nets.push(net);
    let binding = LogicalBinding { port: local.to_owned(), net: name.clone() };
    let ghost bound = binding@;
    bindings.push(binding);
    assert(net_views(nets@) =~= net_views(before).push(added));
    assert(binding_views(bindings@) =~= binding_views(tied).push(bound));
    Ok(name)
}

fn rewrite_value(
    value: &LogicalValue,
    module: &LogicalModule,
    nets: &mut Vec<LogicalNet>,
    path: &str,
    bindings: &mut Vec<LogicalBinding>,
) -> (result: Result<LogicalValue, FlattenError>)
    ensures
        match rewritten(place_of(*module, path@), scope_of(old(bindings)@, old(nets)@), value@) {
            Ok((value, after)) => result matches Ok(found) && found@ == value && scope_of(
                final(bindings)@,
                final(nets)@,
            ) == after,
            Err(error) => result matches Err(found) && found@ == error,
        },
{
    match value {
        LogicalValue::Net { net } => match resolve_net(net.as_str(), module, nets, path, bindings) {
            Ok(net) => Ok(LogicalValue::Net { net }),
            Err(error) => Err(error),
        },
        LogicalValue::Slice { net, bit } => match resolve_net(net.as_str(), module, nets, path, bindings) {
            Ok(net) => Ok(LogicalValue::Slice { net, bit: *bit }),
            Err(error) => Err(error),
        },
        LogicalValue::Constant { value, width } => Ok(LogicalValue::Constant { value: *value, width: *width }),
    }
}

/// The contents of inputs.
pub open spec fn input_contents(inputs: Seq<LogicalInput>) -> Seq<InputView> {
    inputs.map_values(|input: LogicalInput| input@)
}

/// The contents of outputs.
pub open spec fn output_contents(outputs: Seq<LogicalOutput>) -> Seq<OutputView> {
    outputs.map_values(|output: LogicalOutput| output@)
}

proof fn inputs_fail(place: Place, scope: Scope, inputs: Seq<InputView>, low: nat, high: nat)
    requires
        low <= high,
        inlined_inputs(place, scope, inputs, low) is Err,
    ensures
        inlined_inputs(place, scope, inputs, high) == inlined_inputs(place, scope, inputs, low),
    decreases high,
{
    if low < high {
        inputs_fail(place, scope, inputs, low, (high - 1) as nat);
    }
}

proof fn outputs_fail(place: Place, scope: Scope, outputs: Seq<OutputView>, low: nat, high: nat)
    requires
        low <= high,
        inlined_outputs(place, scope, outputs, low) is Err,
    ensures
        inlined_outputs(place, scope, outputs, high) == inlined_outputs(place, scope, outputs, low),
    decreases high,
{
    if low < high {
        outputs_fail(place, scope, outputs, low, (high - 1) as nat);
    }
}

proof fn bindings_fail(place: Place, scope: Scope, bindings: Seq<BindingView>, low: nat, high: nat)
    requires
        low <= high,
        inlined_bindings(place, scope, bindings, low) is Err,
    ensures
        inlined_bindings(place, scope, bindings, high) == inlined_bindings(place, scope, bindings, low),
    decreases high,
{
    if low < high {
        bindings_fail(place, scope, bindings, low, (high - 1) as nat);
    }
}

proof fn cells_fail(place: Place, frame: Frame, low: nat, high: nat)
    requires
        low <= high,
        with_cells(place, frame, low) is Err,
    ensures
        with_cells(place, frame, high) == with_cells(place, frame, low),
    decreases high,
{
    if low < high {
        cells_fail(place, frame, low, (high - 1) as nat);
    }
}

proof fn instances_fail(
    modules: Seq<LogicalModule>,
    place: Place,
    frame: Frame,
    depth: nat,
    low: nat,
    high: nat,
)
    requires
        low <= high,
        depth > 0,
        with_instances(modules, place, frame, depth, low) is Err,
    ensures
        with_instances(modules, place, frame, depth, high) == with_instances(modules, place, frame, depth, low),
    decreases high,
{
    if low < high {
        instances_fail(modules, place, frame, depth, low, (high - 1) as nat);
    }
}

proof fn flattening_fails(modules: Seq<LogicalModule>, top: ModuleView, low: nat, high: nat)
    requires
        low <= high,
        flattened_instances(modules, top, low) is Err,
    ensures
        flattened_instances(modules, top, high) == flattened_instances(modules, top, low),
    decreases high,
{
    if low < high {
        flattening_fails(modules, top, low, (high - 1) as nat);
    }
}

fn inline_inputs(
    cell: &LogicalCell,
    module: &LogicalModule,
    nets: &mut Vec<LogicalNet>,
    path: &str,
    bindings: &mut Vec<LogicalBinding>,
) -> (result: Result<Vec<LogicalInput>, FlattenError>)
    ensures
        match inlined_inputs(
            place_of(*module, path@),
            scope_of(old(bindings)@, old(nets)@),
            cell@.inputs,
            cell@.inputs.len(),
        ) {
            Ok((inputs, after)) => result matches Ok(found) && input_contents(found@) == inputs && scope_of(
                final(bindings)@,
                final(nets)@,
            ) == after,
            Err(error) => result matches Err(found) && found@ == error,
        },
{
    let ghost place = place_of(*module, path@);
    let ghost start = scope_of(bindings@, nets@);
    let mut done: Vec<LogicalInput> = Vec::new();
    assert(input_contents(done@) =~= Seq::<InputView>::empty());
    let mut index: usize = 0;
    while index < cell.inputs.len()
        invariant
            index <= cell.inputs.len(),
            place == place_of(*module, path@),
            start == scope_of(old(bindings)@, old(nets)@),
            inlined_inputs(place, start, cell@.inputs, index as nat) == Ok::<
                (Seq<InputView>, Scope),
                FlattenErrorView,
            >((input_contents(done@), scope_of(bindings@, nets@))),
        decreases cell.inputs.len() - index,
    {
        let input = &cell.inputs[index];
        assert(cell@.inputs[index as int] == input@);
        match rewrite_value(&input.value, module, nets, path, bindings) {
            Err(error) => {
                proof {
                    inputs_fail(place, start, cell@.inputs, (index + 1) as nat, cell@.inputs.len());
                }
                return Err(error);
            },
            Ok(value) => {
                let ghost before = done@;
                let made = LogicalInput { pin: input.pin.clone(), value };
                let ghost added = made@;
                done.push(made);
                assert(input_contents(done@) =~= input_contents(before).push(added));
            },
        }
        index += 1;
    }
    Ok(done)
}

fn inline_outputs(
    cell: &LogicalCell,
    module: &LogicalModule,
    nets: &mut Vec<LogicalNet>,
    path: &str,
    bindings: &mut Vec<LogicalBinding>,
) -> (result: Result<Vec<LogicalOutput>, FlattenError>)
    ensures
        match inlined_outputs(
            place_of(*module, path@),
            scope_of(old(bindings)@, old(nets)@),
            cell@.outputs,
            cell@.outputs.len(),
        ) {
            Ok((outputs, after)) => result matches Ok(found) && output_contents(found@) == outputs && scope_of(
                final(bindings)@,
                final(nets)@,
            ) == after,
            Err(error) => result matches Err(found) && found@ == error,
        },
{
    let ghost place = place_of(*module, path@);
    let ghost start = scope_of(bindings@, nets@);
    let mut done: Vec<LogicalOutput> = Vec::new();
    assert(output_contents(done@) =~= Seq::<OutputView>::empty());
    let mut index: usize = 0;
    while index < cell.outputs.len()
        invariant
            index <= cell.outputs.len(),
            place == place_of(*module, path@),
            start == scope_of(old(bindings)@, old(nets)@),
            inlined_outputs(place, start, cell@.outputs, index as nat) == Ok::<
                (Seq<OutputView>, Scope),
                FlattenErrorView,
            >((output_contents(done@), scope_of(bindings@, nets@))),
        decreases cell.outputs.len() - index,
    {
        let output = &cell.outputs[index];
        assert(cell@.outputs[index as int] == output@);
        match resolve_net(output.net.as_str(), module, nets, path, bindings) {
            Err(error) => {
                proof {
                    outputs_fail(place, start, cell@.outputs, (index + 1) as nat, cell@.outputs.len());
                }
                return Err(error);
            },
            Ok(net) => {
                let ghost before = done@;
                let made = LogicalOutput { pin: output.pin.clone(), net };
                let ghost added = made@;
                done.push(made);
                assert(output_contents(done@) =~= output_contents(before).push(added));
            },
        }
        index += 1;
    }
    Ok(done)
}

fn inline_bindings(
    instance: &LogicalInstance,
    module: &LogicalModule,
    nets: &mut Vec<LogicalNet>,
    path: &str,
    bindings: &mut Vec<LogicalBinding>,
) -> (result: Result<Vec<LogicalBinding>, FlattenError>)
    ensures
        match inlined_bindings(
            place_of(*module, path@),
            scope_of(old(bindings)@, old(nets)@),
            instance@.bindings,
            instance@.bindings.len(),
        ) {
            Ok((own, after)) => result matches Ok(found) && binding_views(found@) == own && scope_of(
                final(bindings)@,
                final(nets)@,
            ) == after,
            Err(error) => result matches Err(found) && found@ == error,
        },
{
    let ghost place = place_of(*module, path@);
    let ghost start = scope_of(bindings@, nets@);
    let mut done: Vec<LogicalBinding> = Vec::new();
    assert(binding_views(done@) =~= Seq::<BindingView>::empty());
    let mut index: usize = 0;
    while index < instance.bindings.len()
        invariant
            index <= instance.bindings.len(),
            place == place_of(*module, path@),
            start == scope_of(old(bindings)@, old(nets)@),
            inlined_bindings(place, start, instance@.bindings, index as nat) == Ok::<
                (Seq<BindingView>, Scope),
                FlattenErrorView,
            >((binding_views(done@), scope_of(bindings@, nets@))),
        decreases instance.bindings.len() - index,
    {
        let binding = &instance.bindings[index];
        assert(instance@.bindings[index as int] == binding@);
        match resolve_net(binding.net.as_str(), module, nets, path, bindings) {
            Err(error) => {
                proof {
                    bindings_fail(place, start, instance@.bindings, (index + 1) as nat, instance@.bindings.len());
                }
                return Err(error);
            },
            Ok(net) => {
                let ghost before = done@;
                let made = LogicalBinding { port: binding.port.clone(), net };
                let ghost added = made@;
                done.push(made);
                assert(binding_views(done@) =~= binding_views(before).push(added));
            },
        }
        index += 1;
    }
    Ok(done)
}

/// What nets and cells there are while a module is inlined.
pub open spec fn frame_of(
    bindings: Seq<LogicalBinding>,
    nets: Seq<LogicalNet>,
    cells: Seq<LogicalCell>,
) -> Frame {
    Frame { scope: scope_of(bindings, nets), cells: cell_views(cells) }
}

/// What nets and cells there are.
pub open spec fn flat_of(nets: Seq<LogicalNet>, cells: Seq<LogicalCell>) -> Flat {
    Flat { nets: net_views(nets), cells: cell_views(cells) }
}

fn inline_cells(
    module: &LogicalModule,
    nets: &mut Vec<LogicalNet>,
    cells: &mut Vec<LogicalCell>,
    path: &str,
    bindings: &mut Vec<LogicalBinding>,
) -> (result: Result<(), FlattenError>)
    ensures
        match with_cells(
            place_of(*module, path@),
            frame_of(old(bindings)@, old(nets)@, old(cells)@),
            module@.cells.len(),
        ) {
            Ok(frame) => result is Ok && frame_of(final(bindings)@, final(nets)@, final(cells)@) == frame,
            Err(error) => result matches Err(found) && found@ == error,
        },
{
    let ghost place = place_of(*module, path@);
    let ghost start = frame_of(bindings@, nets@, cells@);
    let mut index: usize = 0;
    while index < module.cells.len()
        invariant
            index <= module.cells.len(),
            place == place_of(*module, path@),
            start == frame_of(old(bindings)@, old(nets)@, old(cells)@),
            with_cells(place, start, index as nat) == Ok::<Frame, FlattenErrorView>(
                frame_of(bindings@, nets@, cells@),
            ),
        decreases module.cells.len() - index,
    {
        let cell = &module.cells[index];
        assert(module@.cells[index as int] == cell@);
        let inputs = match inline_inputs(cell, module, nets, path, bindings) {
            Err(error) => {
                proof {
                    cells_fail(place, start, (index + 1) as nat, module@.cells.len());
                }
                return Err(error);
            },
            Ok(inputs) => inputs,
        };
        let outputs = match inline_outputs(cell, module, nets, path, bindings) {
            Err(error) => {
                proof {
                    cells_fail(place, start, (index + 1) as nat, module@.cells.len());
                }
                return Err(error);
            },
            Ok(outputs) => outputs,
        };
        let ghost before = cells@;
        let made = LogicalCell {
            name: join3(path, "__", cell.name.as_str()),
            kind: cell.kind,
            inputs,
            outputs,
            origin: copy_optional_text(&cell.origin),
        };
        let ghost added = made@;
        cells.push(made);
        assert(cell_views(cells@) =~= cell_views(before).push(added));
        index += 1;
    }
    Ok(())
}

/// Inlines a module, and what it holds.
fn inline_module(
    design: &LogicalDesign,
    module: &LogicalModule,
    nets: &mut Vec<LogicalNet>,
    cells: &mut Vec<LogicalCell>,
    path: &str,
    bindings: Vec<LogicalBinding>,
    depth: usize,
) -> (result: Result<(), FlattenError>)
    ensures
        match with_module(
            design.modules@,
            place_of(*module, path@),
            binding_views(bindings@),
            flat_of(old(nets)@, old(cells)@),
            depth as nat,
        ) {
            Ok(flat) => result is Ok && flat_of(final(nets)@, final(cells)@) == flat,
            Err(error) => result matches Err(found) && found@ == error,
        },
    decreases depth,
{
    if depth == 0 {
        return Err(FlattenError::Recursive { module: module.name.clone() });
    }
    let ghost place = place_of(*module, path@);
    let ghost given = frame_of(bindings@, nets@, cells@);
    let mut tied = bindings;
    if let Err(error) = inline_cells(module, nets, cells, path, &mut tied) {
        return Err(error);
    }
    let ghost start = frame_of(tied@, nets@, cells@);
    let ghost total = module@.instances.len();
    let mut index: usize = 0;
    while index < module.instances.len()
        invariant
            index <= module.instances.len(),
            depth > 0,
            total == module@.instances.len(),
            place == place_of(*module, path@),
            given == frame_of(bindings@, old(nets)@, old(cells)@),
            with_cells(place, given, module@.cells.len()) == Ok::<Frame, FlattenErrorView>(start),
            with_instances(design.modules@, place, start, depth as nat, index as nat) == Ok::<Frame, FlattenErrorView>(
                frame_of(tied@, nets@, cells@),
            ),
        decreases module.instances.len() - index,
    {
        let instance = &module.instances[index];
        assert(module@.instances[index as int] == instance@);
        let definition = match design.module(instance.module.as_str()) {
            None => {
                proof {
                    instances_fail(design.modules@, place, start, depth as nat, (index + 1) as nat, total);
                }
                return Err(FlattenError::UnknownModule { name: instance.module.clone() });
            },
            Some(definition) => definition,
        };
        let own = match inline_bindings(instance, module, nets, path, &mut tied) {
            Err(error) => {
                proof {
                    instances_fail(design.modules@, place, start, depth as nat, (index + 1) as nat, total);
                }
                return Err(error);
            },
            Ok(own) => own,
        };
        let below_path = join3(path, "__", instance.name.as_str());
        if let Err(error) = inline_module(design, definition, nets, cells, below_path.as_str(), own, depth - 1) {
            proof {
                instances_fail(design.modules@, place, start, depth as nat, (index + 1) as nat, total);
            }
            return Err(error);
        }
        index += 1;
    }
    Ok(())
}

fn copy_nets(nets: &Vec<LogicalNet>) -> (copy: Vec<LogicalNet>)
    ensures
        net_views(copy@) == net_views(nets@),
{
    let mut copy: Vec<LogicalNet> = Vec::new();
    let mut index: usize = 0;
    while index < nets.len()
        invariant
            index <= nets.len(),
            copy.len() == index,
            forall|i: int| 0 <= i < index ==> (#[trigger] copy@[i])@ == nets@[i]@,
        decreases nets.len() - index,
    {
        let net = &nets[index];
        copy.push(
            LogicalNet { name: net.name.clone(), width: net.width, origin: copy_optional_text(&net.origin) },
        );
        index += 1;
    }
    assert(net_views(copy@) =~= net_views(nets@));
    copy
}

fn copy_bindings(bindings: &Vec<LogicalBinding>) -> (copy: Vec<LogicalBinding>)
    ensures
        binding_views(copy@) == binding_views(bindings@),
{
    let mut copy: Vec<LogicalBinding> = Vec::new();
    let mut index: usize = 0;
    while index < bindings.len()
        invariant
            index <= bindings.len(),
            copy.len() == index,
            forall|i: int| 0 <= i < index ==> (#[trigger] copy@[i])@ == bindings@[i]@,
        decreases bindings.len() - index,
    {
        copy.push(LogicalBinding { port: bindings[index].port.clone(), net: bindings[index].net.clone() });
        index += 1;
    }
    assert(binding_views(copy@) =~= binding_views(bindings@));
    copy
}

fn copy_ports(ports: &Vec<LogicalPort>) -> (copy: Vec<LogicalPort>)
    ensures
        copy@.map_values(|port: LogicalPort| port@) == ports@.map_values(|port: LogicalPort| port@),
{
    let mut copy: Vec<LogicalPort> = Vec::new();
    let mut index: usize = 0;
    while index < ports.len()
        invariant
            index <= ports.len(),
            copy.len() == index,
            forall|i: int| 0 <= i < index ==> (#[trigger] copy@[i])@ == ports@[i]@,
        decreases ports.len() - index,
    {
        let port = &ports[index];
        copy.push(LogicalPort { name: port.name.clone(), direction: port.direction, net: port.net.clone() });
        index += 1;
    }
    assert(copy@.map_values(|port: LogicalPort| port@) =~= ports@.map_values(|port: LogicalPort| port@));
    copy
}

fn copy_cell(cell: &LogicalCell) -> (copy: LogicalCell)
    ensures
        copy@ == cell@,
{
    let mut inputs: Vec<LogicalInput> = Vec::new();
    let mut index: usize = 0;
    while index < cell.inputs.len()
        invariant
            index <= cell.inputs.len(),
            inputs.len() == index,
            forall|i: int| 0 <= i < index ==> (#[trigger] inputs@[i])@ == cell.inputs@[i]@,
        decreases cell.inputs.len() - index,
    {
        inputs.push(LogicalInput { pin: cell.inputs[index].pin.clone(), value: cell.inputs[index].value.copy() });
        index += 1;
    }
    let mut outputs: Vec<LogicalOutput> = Vec::new();
    let mut index: usize = 0;
    while index < cell.outputs.len()
        invariant
            index <= cell.outputs.len(),
            outputs.len() == index,
            forall|i: int| 0 <= i < index ==> (#[trigger] outputs@[i])@ == cell.outputs@[i]@,
        decreases cell.outputs.len() - index,
    {
        outputs.push(LogicalOutput { pin: cell.outputs[index].pin.clone(), net: cell.outputs[index].net.clone() });
        index += 1;
    }
    let copy = LogicalCell {
        name: cell.name.clone(),
        kind: cell.kind,
        inputs,
        outputs,
        origin: copy_optional_text(&cell.origin),
    };
    assert(copy@.inputs =~= cell@.inputs);
    assert(copy@.outputs =~= cell@.outputs);
    copy
}

fn copy_cells(cells: &Vec<LogicalCell>) -> (copy: Vec<LogicalCell>)
    ensures
        cell_views(copy@) == cell_views(cells@),
{
    let mut copy: Vec<LogicalCell> = Vec::new();
    let mut index: usize = 0;
    while index < cells.len()
        invariant
            index <= cells.len(),
            copy.len() == index,
            forall|i: int| 0 <= i < index ==> (#[trigger] copy@[i])@ == cells@[i]@,
        decreases cells.len() - index,
    {
        copy.push(copy_cell(&cells[index]));
        index += 1;
    }
    assert(cell_views(copy@) =~= cell_views(cells@));
    copy
}

/// Whether a result is a design with all instances inlined into its top module, or
/// why that cannot be.
pub open spec fn is_inlined(design: LogicalDesign, result: Result<LogicalDesign, FlattenError>) -> bool {
    match module_named(design.modules@, design.top@) {
        None => result matches Err(error) && error@ == FlattenErrorView::UnknownTop(design.top@),
        Some(top) => match flattened(design.modules@, top@) {
            Err(error) => result matches Err(found) && found@ == error,
            Ok(flat) => {
                &&& result matches Ok(found) && found.version == design.version && found.top@ == design.top@
                    && found.modules@.len() == 1 && found.modules@[0]@ == flat
            },
        },
    }
}

/// Whether something tells of every design whether it is valid.
pub open spec fn is_validator<V: Fn(&LogicalDesign) -> Result<(), String>>(validate: &V) -> bool {
    forall|design: LogicalDesign| #[trigger] call_requires(*validate, (&design,))
}

/// What is returned for a design that was validated and inlined.
pub open spec fn is_checked<V: Fn(&LogicalDesign) -> Result<(), String>>(
    validate: &V,
    inlined: Result<LogicalDesign, FlattenError>,
    result: Result<LogicalDesign, FlattenError>,
) -> bool {
    match inlined {
        Err(_) => result == inlined,
        Ok(design) => exists|outcome: Result<(), String>| #[trigger]
            call_ensures(*validate, (&design,), outcome) && match outcome {
                Ok(_) => result == inlined,
                Err(reason) => result == Err::<LogicalDesign, FlattenError>(FlattenError::Invalid { reason }),
            },
    }
}

/// What flattening a design comes to: it is refused where it is not valid or what it
/// is flattened into is not.
pub open spec fn is_flattened<V: Fn(&LogicalDesign) -> Result<(), String>>(
    validate: &V,
    design: LogicalDesign,
    result: Result<LogicalDesign, FlattenError>,
) -> bool {
    exists|outcome: Result<(), String>| #[trigger]
        call_ensures(*validate, (&design,), outcome) && match outcome {
            Ok(_) => exists|inlined: Result<LogicalDesign, FlattenError>| #[trigger]
                is_inlined(design, inlined) && is_checked(validate, inlined, result),
            Err(reason) => result == Err::<LogicalDesign, FlattenError>(FlattenError::Invalid { reason }),
        }
}

impl LogicalDesign {
    /// The design with all instances inlined into its top module, where it is valid
    /// and stays so.
    pub fn flatten_hierarchy<V: Fn(&LogicalDesign) -> Result<(), String>>(&self, validate: &V) -> (result: Result<
        LogicalDesign,
        FlattenError,
    >)
        requires
            is_validator(validate),
        ensures
            is_flattened(validate, *self, result),
    {
        let outcome = validate(self);
        let ghost known = outcome;
        assert(call_ensures(*validate, (self,), known));
        if let Err(reason) = outcome {
            return Err(FlattenError::Invalid { reason });
        }
        let inlined = self.inline_hierarchy();
        let ghost made = inlined;
        assert(is_inlined(*self, made));
        let result = match inlined {
            Err(error) => Err(error),
            Ok(design) => {
                let last = validate(&design);
                let ghost told = last;
                assert(call_ensures(*validate, (&design,), told));
                match last {
                    Ok(_) => Ok(design),
                    Err(reason) => Err(FlattenError::Invalid { reason }),
                }
            },
        };
        assert(is_checked(validate, made, result));
        result
    }

    /// The design with all instances inlined into its top module. Cells and nets
    /// of an instance are named by its path, a net with a number behind it where
    /// the name is taken, and its ports are tied to the nets of its parent.
    pub fn inline_hierarchy(&self) -> (result: Result<LogicalDesign, FlattenError>)
        ensures
            is_inlined(*self, result),
    {
        let top = match self.module(self.top.as_str()) {
            None => return Err(FlattenError::UnknownTop { name: self.top.clone() }),
            Some(top) => top,
        };
        let mut nets = copy_nets(&top.nets);
        let mut cells = copy_cells(&top.cells);
        let ghost total = top@.instances.len();
        let mut index: usize = 0;
        while index < top.instances.len()
            invariant
                index <= top.instances.len(),
                total == top@.instances.len(),
                module_named(self.modules@, self.top@) == Some(*top),
                flattened_instances(self.modules@, top@, index as nat) == Ok::<Flat, FlattenErrorView>(
                    flat_of(nets@, cells@),
                ),
            decreases top.instances.len() - index,
        {
            let instance = &top.instances[index];
            assert(top@.instances[index as int] == instance@);
            let definition = match self.module(instance.module.as_str()) {
                None => {
                    proof {
                        flattening_fails(self.modules@, top@, (index + 1) as nat, total);
                    }
                    return Err(FlattenError::UnknownModule { name: instance.module.clone() });
                },
                Some(definition) => definition,
            };
            if let Err(error) = inline_module(
                self,
                definition,
                &mut nets,
                &mut cells,
                instance.name.as_str(),
                copy_bindings(&instance.bindings),
                self.modules.len(),
            ) {
                proof {
                    flattening_fails(self.modules@, top@, (index + 1) as nat, total);
                }
                return Err(error);
            }
            index += 1;
        }
        let none: Vec<LogicalInstance> = Vec::new();
        let flat = LogicalModule {
            name: top.name.clone(),
            nets,
            ports: copy_ports(&top.ports),
            cells,
            instances: none,
        };
        assert(flat@.instances =~= Seq::<InstanceView>::empty());
        let ghost shown = flat@;
        let mut modules: Vec<LogicalModule> = Vec::new();
        modules.push(flat);
        assert(modules@[0]@ == shown);
        Ok(LogicalDesign { version: self.version, top: self.top.clone(), modules })
    }
}

} // verus!
