//! What flattening promises: no two nets become one, every cell is copied, and what
//! is flat stays as it is.

use super::flatten::{
    below, bound_to, flattened, flattened_instances, has_net, inlined_bindings, inlined_inputs, inlined_outputs,
    is_checked, is_flattened, is_inlined, names_of, resolved, rewritten, with_cell, with_cells, with_instances, with_module, Flat, FlattenError, FlattenErrorView, Frame,
    Place, Scope,
};
use super::logical::{
    module_named, BindingView, CellView, InputView, LogicalCellKind, LogicalDesign, LogicalModule, ModuleView, NetView, OutputView,
    ValueView,
};
use super::mapping::nets::{candidate_text, free_name_exists, is_first_free};
use vstd::prelude::*;

verus! {

/// Whether no two nets have one name.
pub open spec fn nets_distinct(nets: Seq<NetView>) -> bool {
    forall|i: int, j: int| 0 <= i < j < nets.len() ==> (#[trigger] nets[i]).name != (#[trigger] nets[j]).name
}

/// Whether nets begin with others, and each that was added has a name that none
/// before it has.
pub open spec fn nets_grow(before: Seq<NetView>, after: Seq<NetView>) -> bool {
    &&& before.len() <= after.len()
    &&& after.take(before.len() as int) == before
    &&& forall|i: int, j: int|
        0 <= i < j < after.len() && before.len() <= j ==> (#[trigger] after[i]).name != (#[trigger] after[j]).name
}

proof fn growing_on(first: Seq<NetView>, second: Seq<NetView>, third: Seq<NetView>)
    requires
        nets_grow(first, second),
        nets_grow(second, third),
    ensures
        nets_grow(first, third),
{
    assert(third.take(first.len() as int) =~= third.take(second.len() as int).take(first.len() as int));
    assert forall|i: int, j: int| 0 <= i < j < third.len() && first.len() <= j implies (#[trigger] third[i]).name != (
    #[trigger] third[j]).name by {
        if j < second.len() {
            assert(third[i] == third.take(second.len() as int)[i]);
            assert(third[j] == third.take(second.len() as int)[j]);
        }
    }
}

/// A net of an inlined module that is tied to nothing gets a net whose name no net
/// had before, and is tied to it from then on; one that is tied keeps its net.
pub proof fn untied_net_is_new(place: Place, scope: Scope, local: Seq<char>)
    requires
        resolved(place, scope, local) is Ok,
    ensures
        ({
            let (name, after) = resolved(place, scope, local)->Ok_0;
            &&& match bound_to(scope.bindings, local, scope.bindings.len()) {
                Some(net) => name == net && after == scope,
                None => {
                    &&& !has_net(scope.nets, name)
                    &&& after.nets.len() == scope.nets.len() + 1
                    &&& after.nets.last().name == name
                    &&& !has_net(scope.nets, below(place.path, local)) ==> name == below(place.path, local)
                },
            }
            &&& resolved(place, after, local) == Ok::<(Seq<char>, Scope), FlattenErrorView>((name, after))
            &&& nets_grow(scope.nets, after.nets)
        }),
{
    let (name, after) = resolved(place, scope, local)->Ok_0;
    let used = names_of(scope.nets);
    if bound_to(scope.bindings, local, scope.bindings.len()) is None {
        free_name_exists(used, below(place.path, local));
        assert(is_first_free(used, below(place.path, local), name));
        if has_net(scope.nets, name) {
            let i = choose|i: int| 0 <= i < scope.nets.len() && (#[trigger] scope.nets[i]).name == name;
            assert(used[i] == name);
        }
        if !has_net(scope.nets, below(place.path, local)) {
            let number = choose|number: nat|
                {
                    &&& name == #[trigger] candidate_text(below(place.path, local), number)
                    &&& forall|lower: nat|
                        lower < number ==> used.contains(#[trigger] candidate_text(below(place.path, local), lower))
                };
            if number > 0 {
                assert(used.contains(candidate_text(below(place.path, local), 0)));
                let i = choose|i: int| 0 <= i < used.len() && used[i] == below(place.path, local);
                assert(scope.nets[i].name == below(place.path, local));
            }
        }
        assert(bound_to(after.bindings, local, after.bindings.len()) == Some(name));
        assert(after.nets.take(scope.nets.len() as int) =~= scope.nets);
        assert forall|i: int, j: int| 0 <= i < j < after.nets.len() && scope.nets.len() <= j implies (
        #[trigger] after.nets[i]).name != (#[trigger] after.nets[j]).name by {
            assert(scope.nets[i].name != name);
        }
    } else {
        assert(scope.nets.take(scope.nets.len() as int) =~= scope.nets);
    }
}

proof fn inputs_grow(place: Place, scope: Scope, inputs: Seq<InputView>, count: nat)
    requires
        count <= inputs.len(),
    ensures
        inlined_inputs(place, scope, inputs, count) matches Ok((_, after)) ==> nets_grow(scope.nets, after.nets),
    decreases count,
{
    assert(scope.nets.take(scope.nets.len() as int) =~= scope.nets);
    if count > 0 {
        inputs_grow(place, scope, inputs, (count - 1) as nat);
        if let Ok((_, middle)) = inlined_inputs(place, scope, inputs, (count - 1) as nat) {
            if let Ok((_, after)) = rewritten(place, middle, inputs[count - 1].value) {
                match inputs[count - 1].value {
                    ValueView::Net(net) => {
                        untied_net_is_new(place, middle, net);
                    },
                    ValueView::Slice(net, _) => {
                        untied_net_is_new(place, middle, net);
                    },
                    ValueView::Constant(_, _) => {
                        assert(middle.nets.take(middle.nets.len() as int) =~= middle.nets);
                    },
                }
                growing_on(scope.nets, middle.nets, after.nets);
            }
        }
    }
}

proof fn outputs_grow(place: Place, scope: Scope, outputs: Seq<OutputView>, count: nat)
    requires
        count <= outputs.len(),
    ensures
        inlined_outputs(place, scope, outputs, count) matches Ok((_, after)) ==> nets_grow(scope.nets, after.nets),
    decreases count,
{
    assert(scope.nets.take(scope.nets.len() as int) =~= scope.nets);
    if count > 0 {
        outputs_grow(place, scope, outputs, (count - 1) as nat);
        if let Ok((_, middle)) = inlined_outputs(place, scope, outputs, (count - 1) as nat) {
            if let Ok((_, after)) = resolved(place, middle, outputs[count - 1].net) {
                untied_net_is_new(place, middle, outputs[count - 1].net);
                growing_on(scope.nets, middle.nets, after.nets);
            }
        }
    }
}

proof fn bindings_grow(place: Place, scope: Scope, bindings: Seq<BindingView>, count: nat)
    requires
        count <= bindings.len(),
    ensures
        inlined_bindings(place, scope, bindings, count) matches Ok((_, after)) ==> nets_grow(scope.nets, after.nets),
    decreases count,
{
    assert(scope.nets.take(scope.nets.len() as int) =~= scope.nets);
    if count > 0 {
        bindings_grow(place, scope, bindings, (count - 1) as nat);
        if let Ok((_, middle)) = inlined_bindings(place, scope, bindings, (count - 1) as nat) {
            if let Ok((_, after)) = resolved(place, middle, bindings[count - 1].net) {
                untied_net_is_new(place, middle, bindings[count - 1].net);
                growing_on(scope.nets, middle.nets, after.nets);
            }
        }
    }
}

/// What a copied cell keeps of the one that it is copied from, but for its nets.
pub ghost struct CellKey {
    pub name: Seq<char>,
    pub kind: LogicalCellKind,
    pub origin: Option<Seq<char>>,
}

/// What cells are, but for their nets.
pub open spec fn cell_keys(cells: Seq<CellView>) -> Seq<CellKey> {
    cells.map_values(|cell: CellView| CellKey { name: cell.name, kind: cell.kind, origin: cell.origin })
}

/// The cells of a module, named by its path.
pub open spec fn own_keys(place: Place) -> Seq<CellKey> {
    place.module.cells.map_values(
        |cell: CellView| CellKey { name: below(place.path, cell.name), kind: cell.kind, origin: cell.origin },
    )
}

/// The cells of a module and of what it holds, named by their paths: its own, then
/// those of each of its instances.
pub open spec fn tree_keys(modules: Seq<LogicalModule>, place: Place, depth: nat) -> Seq<CellKey>
    decreases depth, place.module.instances.len() + 1,
{
    if depth == 0 {
        Seq::empty()
    } else {
        own_keys(place) + instance_keys(modules, place, depth, place.module.instances.len())
    }
}

/// The cells of the first `count` instances of a module and of what they hold.
pub open spec fn instance_keys(modules: Seq<LogicalModule>, place: Place, depth: nat, count: nat) -> Seq<CellKey>
    decreases depth, count,
{
    if count == 0 || depth == 0 {
        Seq::empty()
    } else {
        let instance = place.module.instances[count - 1];
        instance_keys(modules, place, depth, (count - 1) as nat) + tree_keys(
            modules,
            Place {
                module: module_named(modules, instance.module)->0@,
                path: below(place.path, instance.name),
            },
            (depth - 1) as nat,
        )
    }
}

/// The cells of the first `count` instances of the top module and of what they
/// hold.
pub open spec fn top_keys(modules: Seq<LogicalModule>, top: ModuleView, count: nat) -> Seq<CellKey>
    decreases count,
{
    if count == 0 {
        Seq::empty()
    } else {
        let instance = top.instances[count - 1];
        top_keys(modules, top, (count - 1) as nat) + tree_keys(
            modules,
            Place { module: module_named(modules, instance.module)->0@, path: instance.name },
            modules.len(),
        )
    }
}

/// Whether cells begin with others, and the rest are copies of given ones.
pub open spec fn cells_grow(before: Seq<CellView>, after: Seq<CellView>, keys: Seq<CellKey>) -> bool {
    &&& after.len() == before.len() + keys.len()
    &&& after.take(before.len() as int) == before
    &&& cell_keys(after.skip(before.len() as int)) == keys
}

proof fn cells_grow_on(
    first: Seq<CellView>,
    second: Seq<CellView>,
    third: Seq<CellView>,
    keys: Seq<CellKey>,
    more: Seq<CellKey>,
)
    requires
        cells_grow(first, second, keys),
        cells_grow(second, third, more),
    ensures
        cells_grow(first, third, keys + more),
{
    assert(third.take(first.len() as int) =~= third.take(second.len() as int).take(first.len() as int));
    let rest = third.skip(first.len() as int);
    assert forall|i: int| 0 <= i < rest.len() implies #[trigger] cell_keys(rest)[i] == (keys + more)[i] by {
        if i < keys.len() {
            assert(rest[i] == third.take(second.len() as int)[first.len() + i]);
            assert(rest[i] == second.skip(first.len() as int)[i]);
            assert(cell_keys(second.skip(first.len() as int))[i] == keys[i]);
        } else {
            assert(rest[i] == third.skip(second.len() as int)[i - keys.len()]);
            assert(cell_keys(third.skip(second.len() as int))[i - keys.len()] == more[i - keys.len()]);
        }
    }
    assert(cell_keys(rest) =~= keys + more);
}

proof fn cells_stay(cells: Seq<CellView>)
    ensures
        cells_grow(cells, cells, Seq::empty()),
{
    assert(cells.take(cells.len() as int) =~= cells);
    assert(cell_keys(cells.skip(cells.len() as int)) =~= Seq::empty());
}

pub proof fn cells_of_module_grow(place: Place, frame: Frame, count: nat)
    requires
        count <= place.module.cells.len(),
    ensures
        with_cells(place, frame, count) matches Ok(after) ==> nets_grow(frame.scope.nets, after.scope.nets)
            && cells_grow(frame.cells, after.cells, own_keys(place).take(count as int)),
    decreases count,
{
    if count == 0 {
        assert(frame.scope.nets.take(frame.scope.nets.len() as int) =~= frame.scope.nets);
        cells_stay(frame.cells);
        assert(own_keys(place).take(0) =~= Seq::empty());
    } else {
        cells_of_module_grow(place, frame, (count - 1) as nat);
        if let Ok(before) = with_cells(place, frame, (count - 1) as nat) {
            let cell = place.module.cells[count - 1];
            inputs_grow(place, before.scope, cell.inputs, cell.inputs.len());
            if let Ok((_, scope)) = inlined_inputs(place, before.scope, cell.inputs, cell.inputs.len()) {
                outputs_grow(place, scope, cell.outputs, cell.outputs.len());
                if let Ok(after) = with_cell(place, before, cell) {
                    growing_on(before.scope.nets, scope.nets, after.scope.nets);
                    growing_on(frame.scope.nets, before.scope.nets, after.scope.nets);
                    let key = own_keys(place)[count - 1];
                    assert(after.cells.take(before.cells.len() as int) =~= before.cells);
                    assert(cell_keys(after.cells.skip(before.cells.len() as int)) =~= seq![key]);
                    cells_grow_on(
                        frame.cells,
                        before.cells,
                        after.cells,
                        own_keys(place).take(count - 1),
                        seq![key],
                    );
                    assert(own_keys(place).take(count as int) =~= own_keys(place).take(count - 1) + seq![key]);
                }
            }
        }
    }
}

pub proof fn module_grows(
    modules: Seq<LogicalModule>,
    place: Place,
    bindings: Seq<BindingView>,
    flat: Flat,
    depth: nat,
)
    ensures
        with_module(modules, place, bindings, flat, depth) matches Ok(after) ==> nets_grow(flat.nets, after.nets)
            && cells_grow(flat.cells, after.cells, tree_keys(modules, place, depth)),
    decreases depth, place.module.instances.len() + 1,
{
    if depth > 0 {
        let frame = Frame { scope: Scope { bindings, nets: flat.nets }, cells: flat.cells };
        let count = place.module.cells.len();
        cells_of_module_grow(place, frame, count);
        assert(own_keys(place).take(count as int) =~= own_keys(place));
        if let Ok(middle) = with_cells(place, frame, count) {
            let total = place.module.instances.len();
            instances_grow(modules, place, middle, depth, total);
            if let Ok(after) = with_instances(modules, place, middle, depth, total) {
                growing_on(flat.nets, middle.scope.nets, after.scope.nets);
                cells_grow_on(
                    flat.cells,
                    middle.cells,
                    after.cells,
                    own_keys(place),
                    instance_keys(modules, place, depth, total),
                );
            }
        }
    }
}

pub proof fn instances_grow(modules: Seq<LogicalModule>, place: Place, frame: Frame, depth: nat, count: nat)
    requires
        count <= place.module.instances.len(),
    ensures
        with_instances(modules, place, frame, depth, count) matches Ok(after) ==> nets_grow(
            frame.scope.nets,
            after.scope.nets,
        ) && cells_grow(frame.cells, after.cells, instance_keys(modules, place, depth, count)),
    decreases depth, count,
{
    if count == 0 || depth == 0 {
        assert(frame.scope.nets.take(frame.scope.nets.len() as int) =~= frame.scope.nets);
        cells_stay(frame.cells);
    } else {
        instances_grow(modules, place, frame, depth, (count - 1) as nat);
        if let Ok(before) = with_instances(modules, place, frame, depth, (count - 1) as nat) {
            let instance = place.module.instances[count - 1];
            bindings_grow(place, before.scope, instance.bindings, instance.bindings.len());
            if let Some(module) = module_named(modules, instance.module) {
                if let Ok((own, scope)) = inlined_bindings(
                    place,
                    before.scope,
                    instance.bindings,
                    instance.bindings.len(),
                ) {
                    let inner = Place { module: module@, path: below(place.path, instance.name) };
                    let flat = Flat { nets: scope.nets, cells: before.cells };
                    module_grows(modules, inner, own, flat, (depth - 1) as nat);
                    if let Ok(after) = with_module(modules, inner, own, flat, (depth - 1) as nat) {
                        growing_on(before.scope.nets, scope.nets, after.nets);
                        growing_on(frame.scope.nets, before.scope.nets, after.nets);
                        cells_grow_on(
                            frame.cells,
                            before.cells,
                            after.cells,
                            instance_keys(modules, place, depth, (count - 1) as nat),
                            tree_keys(modules, inner, (depth - 1) as nat),
                        );
                    }
                }
            }
        }
    }
}

proof fn flattening_grows(modules: Seq<LogicalModule>, top: ModuleView, count: nat)
    requires
        count <= top.instances.len(),
    ensures
        flattened_instances(modules, top, count) matches Ok(after) ==> nets_grow(top.nets, after.nets) && cells_grow(
            top.cells,
            after.cells,
            top_keys(modules, top, count),
        ),
    decreases count,
{
    if count == 0 {
        assert(top.nets.take(top.nets.len() as int) =~= top.nets);
        cells_stay(top.cells);
    } else {
        flattening_grows(modules, top, (count - 1) as nat);
        if let Ok(before) = flattened_instances(modules, top, (count - 1) as nat) {
            let instance = top.instances[count - 1];
            if let Some(module) = module_named(modules, instance.module) {
                let place = Place { module: module@, path: instance.name };
                module_grows(modules, place, instance.bindings, before, modules.len());
                if let Ok(after) = with_module(modules, place, instance.bindings, before, modules.len()) {
                    growing_on(top.nets, before.nets, after.nets);
                    cells_grow_on(
                        top.cells,
                        before.cells,
                        after.cells,
                        top_keys(modules, top, (count - 1) as nat),
                        tree_keys(modules, place, modules.len()),
                    );
                }
            }
        }
    }
}

/// Flattening keeps the name, the ports and the cells of the top module; behind the
/// cells come copies of those of every instance, named by their paths.
pub proof fn flat_module_holds_all_cells(modules: Seq<LogicalModule>, top: ModuleView)
    ensures
        flattened(modules, top) matches Ok(flat) ==> {
            &&& flat.name == top.name
            &&& flat.ports == top.ports
            &&& cells_grow(top.cells, flat.cells, top_keys(modules, top, top.instances.len()))
        },
{
    flattening_grows(modules, top, top.instances.len());
}

/// Flattening a module without instances changes nothing; so flattening what was
/// flattened does not either.
pub proof fn flattening_twice_changes_nothing(modules: Seq<LogicalModule>, others: Seq<LogicalModule>, top: ModuleView)
    requires
        flattened(modules, top) is Ok,
    ensures
        flattened(others, flattened(modules, top)->Ok_0) == flattened(modules, top),
{
    let flat = flattened(modules, top)->Ok_0;
    assert(flat.instances.len() == 0);
    assert(flattened(others, flat)->Ok_0.instances =~= flat.instances);
}

/// Whether two designs have the same contents.
pub open spec fn same_contents(left: LogicalDesign, right: LogicalDesign) -> bool {
    &&& left.version == right.version
    &&& left.top@ == right.top@
    &&& left.modules@.len() == right.modules@.len()
    &&& forall|i: int| 0 <= i < left.modules@.len() ==> (#[trigger] left.modules@[i])@ == right.modules@[i]@
}

/// Whether what is valid goes by the contents of a design alone.
pub open spec fn goes_by_contents<V: Fn(&LogicalDesign) -> Result<(), String>>(validate: &V) -> bool {
    forall|left: LogicalDesign, right: LogicalDesign, first: Result<(), String>, second: Result<(), String>|
        same_contents(left, right) && #[trigger] call_ensures(*validate, (&left,), first) && #[trigger] call_ensures(
            *validate,
            (&right,),
            second,
        ) ==> (first is Ok <==> second is Ok)
}

/// Flattening a design that was flattened succeeds and gives the same design, where
/// what is valid goes by the contents of a design alone.
pub proof fn flat_design_stays<V: Fn(&LogicalDesign) -> Result<(), String>>(
    validate: &V,
    design: LogicalDesign,
    flat: LogicalDesign,
    result: Result<LogicalDesign, FlattenError>,
)
    requires
        goes_by_contents(validate),
        is_flattened(validate, design, Ok(flat)),
        is_flattened(validate, flat, result),
    ensures
        result matches Ok(again) && same_contents(again, flat),
{
    let inlined = choose|inlined: Result<LogicalDesign, FlattenError>| #[trigger]
        is_inlined(design, inlined) && is_checked(validate, inlined, Ok(flat));
    assert(inlined == Ok::<LogicalDesign, FlattenError>(flat));
    let top = module_named(design.modules@, design.top@)->0;
    module_named_is_named(design.modules@, design.top@);
    flat_module_holds_all_cells(design.modules@, top@);
    flattening_twice_changes_nothing(design.modules@, flat.modules@, top@);
    assert(flat.modules@[0]@ == flattened(design.modules@, top@)->Ok_0);
    assert(module_named(flat.modules@, flat.top@) == Some(flat.modules@[0]));
    assert(same_contents(flat, flat));
    let known = choose|outcome: Result<(), String>| #[trigger]
        call_ensures(*validate, (&flat,), outcome) && match outcome {
            Ok(_) => Ok::<LogicalDesign, FlattenError>(flat) == inlined,
            Err(reason) => false,
        };
    let outcome = choose|outcome: Result<(), String>| #[trigger]
        call_ensures(*validate, (&flat,), outcome) && match outcome {
            Ok(_) => exists|again: Result<LogicalDesign, FlattenError>| #[trigger]
                is_inlined(flat, again) && is_checked(validate, again, result),
            Err(reason) => result == Err::<LogicalDesign, FlattenError>(FlattenError::Invalid { reason }),
        };
    assert(call_ensures(*validate, (&flat,), known));
    assert(outcome is Ok);
    let again = choose|again: Result<LogicalDesign, FlattenError>| #[trigger]
        is_inlined(flat, again) && is_checked(validate, again, result);
    assert(again is Ok);
    assert(same_contents(again->Ok_0, flat));
}

/// A module found by a name has that name.
proof fn module_named_is_named(modules: Seq<LogicalModule>, name: Seq<char>)
    ensures
        module_named(modules, name) matches Some(module) ==> module@.name == name,
    decreases modules.len(),
{
    if modules.len() > 0 {
        module_named_is_named(modules.drop_first(), name);
    }
}

// ---------------------------------------------------------------------------
// Whose nets are added
// ---------------------------------------------------------------------------
/// A net of a module that is inlined: the instances that lead to it from the top
/// module, by their places and by their names, and its name in its module.
pub ghost struct Owner {
    pub node: Seq<int>,
    pub path: Seq<char>,
    pub local: Seq<char>,
}

/// Whether two nets are of different instances or have different names there.
pub open spec fn differ(left: Owner, right: Owner) -> bool {
    left.node != right.node || left.local != right.local
}

/// Whether one net was added for each of some nets, which it names, with a name that
/// none before it has.
pub open spec fn nets_owned(before: Seq<NetView>, after: Seq<NetView>, log: Seq<Owner>) -> bool {
    &&& nets_grow(before, after)
    &&& after.len() == before.len() + log.len()
    &&& forall|k: int|
        0 <= k < log.len() ==> after[before.len() + k].origin == Some(
            "flattened."@ + (#[trigger] log[k]).path + ("."@ + log[k].local),
        )
}

proof fn owned_on(
    first: Seq<NetView>,
    second: Seq<NetView>,
    third: Seq<NetView>,
    log: Seq<Owner>,
    more: Seq<Owner>,
)
    requires
        nets_owned(first, second, log),
        nets_owned(second, third, more),
    ensures
        nets_owned(first, third, log + more),
{
    growing_on(first, second, third);
    let all = log + more;
    assert forall|k: int| 0 <= k < all.len() implies third[first.len() + k].origin == Some(
        "flattened."@ + (#[trigger] all[k]).path + ("."@ + all[k].local),
    ) by {
        if k < log.len() {
            assert(all[k] == log[k]);
            assert(third[first.len() + k] == third.take(second.len() as int)[first.len() + k]);
        } else {
            assert(all[k] == more[k - log.len()]);
        }
    }
}

/// The net that is added where a net of an inlined module is looked up.
pub open spec fn owners_of_net(place: Place, node: Seq<int>, scope: Scope, local: Seq<char>) -> Seq<Owner> {
    if bound_to(scope.bindings, local, scope.bindings.len()) is None {
        seq![Owner { node, path: place.path, local }]
    } else {
        Seq::empty()
    }
}

/// The net that is added where a value of an inlined module is looked up.
pub open spec fn owners_of_value(place: Place, node: Seq<int>, scope: Scope, value: ValueView) -> Seq<Owner> {
    match value {
        ValueView::Net(net) => owners_of_net(place, node, scope, net),
        ValueView::Slice(net, _) => owners_of_net(place, node, scope, net),
        ValueView::Constant(_, _) => Seq::empty(),
    }
}

/// The nets that the first `count` inputs of a cell add.
pub open spec fn owners_of_inputs(
    place: Place,
    node: Seq<int>,
    scope: Scope,
    inputs: Seq<InputView>,
    count: nat,
) -> Seq<Owner>
    decreases count,
{
    if count == 0 {
        Seq::empty()
    } else {
        owners_of_inputs(place, node, scope, inputs, (count - 1) as nat) + owners_of_value(
            place,
            node,
            inlined_inputs(place, scope, inputs, (count - 1) as nat)->Ok_0.1,
            inputs[count - 1].value,
        )
    }
}

/// The nets that the first `count` outputs of a cell add.
pub open spec fn owners_of_outputs(
    place: Place,
    node: Seq<int>,
    scope: Scope,
    outputs: Seq<OutputView>,
    count: nat,
) -> Seq<Owner>
    decreases count,
{
    if count == 0 {
        Seq::empty()
    } else {
        owners_of_outputs(place, node, scope, outputs, (count - 1) as nat) + owners_of_net(
            place,
            node,
            inlined_outputs(place, scope, outputs, (count - 1) as nat)->Ok_0.1,
            outputs[count - 1].net,
        )
    }
}

/// The nets that the first `count` bindings of an instance add.
pub open spec fn owners_of_bindings(
    place: Place,
    node: Seq<int>,
    scope: Scope,
    bindings: Seq<BindingView>,
    count: nat,
) -> Seq<Owner>
    decreases count,
{
    if count == 0 {
        Seq::empty()
    } else {
        owners_of_bindings(place, node, scope, bindings, (count - 1) as nat) + owners_of_net(
            place,
            node,
            inlined_bindings(place, scope, bindings, (count - 1) as nat)->Ok_0.1,
            bindings[count - 1].net,
        )
    }
}

/// The nets that the first `count` cells of an inlined module add.
pub open spec fn owners_of_cells(place: Place, node: Seq<int>, frame: Frame, count: nat) -> Seq<Owner>
    decreases count,
{
    if count == 0 {
        Seq::empty()
    } else {
        let before = with_cells(place, frame, (count - 1) as nat)->Ok_0;
        let cell = place.module.cells[count - 1];
        let middle = inlined_inputs(place, before.scope, cell.inputs, cell.inputs.len())->Ok_0.1;
        owners_of_cells(place, node, frame, (count - 1) as nat) + (owners_of_inputs(
            place,
            node,
            before.scope,
            cell.inputs,
            cell.inputs.len(),
        ) + owners_of_outputs(place, node, middle, cell.outputs, cell.outputs.len()))
    }
}

/// The nets that an inlined module and what it holds add.
pub open spec fn owners_of_module(
    modules: Seq<LogicalModule>,
    place: Place,
    node: Seq<int>,
    bindings: Seq<BindingView>,
    flat: Flat,
    depth: nat,
) -> Seq<Owner>
    decreases depth, place.module.instances.len() + 1,
{
    if depth == 0 {
        Seq::empty()
    } else {
        let frame = Frame { scope: Scope { bindings, nets: flat.nets }, cells: flat.cells };
        owners_of_cells(place, node, frame, place.module.cells.len()) + owners_of_instances(
            modules,
            place,
            node,
            with_cells(place, frame, place.module.cells.len())->Ok_0,
            depth,
            place.module.instances.len(),
        )
    }
}

/// The nets that the first `count` instances of an inlined module add.
pub open spec fn owners_of_instances(
    modules: Seq<LogicalModule>,
    place: Place,
    node: Seq<int>,
    frame: Frame,
    depth: nat,
    count: nat,
) -> Seq<Owner>
    decreases depth, count,
{
    if count == 0 || depth == 0 {
        Seq::empty()
    } else {
        let before = with_instances(modules, place, frame, depth, (count - 1) as nat)->Ok_0;
        let instance = place.module.instances[count - 1];
        let (own, scope) = inlined_bindings(place, before.scope, instance.bindings, instance.bindings.len())->Ok_0;
        owners_of_instances(modules, place, node, frame, depth, (count - 1) as nat) + (owners_of_bindings(
            place,
            node,
            before.scope,
            instance.bindings,
            instance.bindings.len(),
        ) + owners_of_module(
            modules,
            Place {
                module: module_named(modules, instance.module)->0@,
                path: below(place.path, instance.name),
            },
            node.push(count - 1),
            own,
            Flat { nets: scope.nets, cells: before.cells },
            (depth - 1) as nat,
        ))
    }
}

/// The nets that the first `count` instances of the top module add.
pub open spec fn owners_of_top(modules: Seq<LogicalModule>, top: ModuleView, count: nat) -> Seq<Owner>
    decreases count,
{
    if count == 0 {
        Seq::empty()
    } else {
        let instance = top.instances[count - 1];
        owners_of_top(modules, top, (count - 1) as nat) + owners_of_module(
            modules,
            Place { module: module_named(modules, instance.module)->0@, path: instance.name },
            seq![count - 1],
            instance.bindings,
            flattened_instances(modules, top, (count - 1) as nat)->Ok_0,
            modules.len(),
        )
    }
}

/// What a net is tied to.
pub open spec fn tied(scope: Scope, local: Seq<char>) -> Option<Seq<char>> {
    bound_to(scope.bindings, local, scope.bindings.len())
}

/// Whether one net was added for each of some nets of an inlined module, which was
/// tied to nothing before and is tied to it since.
pub open spec fn adds_own(node: Seq<int>, before: Scope, after: Scope, log: Seq<Owner>) -> bool {
    &&& nets_owned(before.nets, after.nets, log)
    &&& forall|k: int|
        0 <= k < log.len() ==> {
            &&& (#[trigger] log[k]).node == node
            &&& tied(before, log[k].local) is None
            &&& tied(after, log[k].local) == Some(after.nets[before.nets.len() + k].name)
        }
    &&& forall|k: int, l: int| 0 <= k < l < log.len() ==> (#[trigger] log[k]).local != (#[trigger] log[l]).local
    &&& forall|local: Seq<char>| (#[trigger] tied(before, local)) is Some ==> tied(after, local) == tied(before, local)
}

proof fn adds_nothing(node: Seq<int>, scope: Scope)
    ensures
        adds_own(node, scope, scope, Seq::empty()),
{
    assert(scope.nets.take(scope.nets.len() as int) =~= scope.nets);
}

proof fn adds_on(
    node: Seq<int>,
    first: Scope,
    second: Scope,
    third: Scope,
    log: Seq<Owner>,
    more: Seq<Owner>,
)
    requires
        adds_own(node, first, second, log),
        adds_own(node, second, third, more),
    ensures
        adds_own(node, first, third, log + more),
{
    owned_on(first.nets, second.nets, third.nets, log, more);
    let all = log + more;
    assert forall|k: int| 0 <= k < all.len() implies {
        &&& (#[trigger] all[k]).node == node
        &&& tied(first, all[k].local) is None
        &&& tied(third, all[k].local) == Some(third.nets[first.nets.len() + k].name)
    } by {
        if k < log.len() {
            assert(all[k] == log[k]);
            assert(tied(second, log[k].local) is Some);
            assert(third.nets[first.nets.len() + k] == third.nets.take(second.nets.len() as int)[first.nets.len() + k]);
        } else {
            assert(all[k] == more[k - log.len()]);
            if tied(first, all[k].local) is Some {
                assert(tied(second, all[k].local) is Some);
            }
        }
    }
    assert forall|k: int, l: int| 0 <= k < l < all.len() implies (#[trigger] all[k]).local != (#[trigger] all[l]).local by {
        if l < log.len() {
            assert(all[k] == log[k] && all[l] == log[l]);
        } else if k >= log.len() {
            assert(all[k] == more[k - log.len()] && all[l] == more[l - log.len()]);
        } else {
            assert(all[k] == log[k] && all[l] == more[l - log.len()]);
            assert(tied(second, log[k].local) is Some);
            assert(tied(second, more[l - log.len()].local) is None);
        }
    }
    assert forall|local: Seq<char>| (#[trigger] tied(first, local)) is Some implies tied(third, local) == tied(
        first,
        local,
    ) by {
        assert(tied(second, local) is Some);
    }
}

proof fn net_adds(place: Place, node: Seq<int>, scope: Scope, local: Seq<char>)
    requires
        resolved(place, scope, local) is Ok,
    ensures
        adds_own(node, scope, resolved(place, scope, local)->Ok_0.1, owners_of_net(place, node, scope, local)),
{
    untied_net_is_new(place, scope, local);
    if tied(scope, local) is Some {
        adds_nothing(node, scope);
    } else {
        let after = resolved(place, scope, local)->Ok_0.1;
        let old = scope.bindings;
        let now = after.bindings;
        assert forall|other: Seq<char>| other != local implies #[trigger] tied(after, other) == tied(scope, other) by {
            assert(bound_to(now, other, now.len()) == bound_to(now, other, old.len()));
            bound_to_prefix(old, now, other, old.len());
        }
    }
}

proof fn bound_to_prefix(old: Seq<BindingView>, now: Seq<BindingView>, port: Seq<char>, count: nat)
    requires
        count <= old.len() <= now.len(),
        forall|i: int| 0 <= i < old.len() ==> now[i] == old[i],
    ensures
        bound_to(now, port, count) == bound_to(old, port, count),
    decreases count,
{
    if count > 0 {
        bound_to_prefix(old, now, port, (count - 1) as nat);
    }
}

proof fn inputs_add(place: Place, node: Seq<int>, scope: Scope, inputs: Seq<InputView>, count: nat)
    requires
        count <= inputs.len(),
        inlined_inputs(place, scope, inputs, count) is Ok,
    ensures
        adds_own(
            node,
            scope,
            inlined_inputs(place, scope, inputs, count)->Ok_0.1,
            owners_of_inputs(place, node, scope, inputs, count),
        ),
    decreases count,
{
    if count == 0 {
        adds_nothing(node, scope);
    } else {
        let less = (count - 1) as nat;
        inputs_add(place, node, scope, inputs, less);
        let middle = inlined_inputs(place, scope, inputs, less)->Ok_0.1;
        let value = inputs[count - 1].value;
        match value {
            ValueView::Net(net) => {
                net_adds(place, node, middle, net);
            },
            ValueView::Slice(net, _) => {
                net_adds(place, node, middle, net);
            },
            ValueView::Constant(_, _) => {
                adds_nothing(node, middle);
            },
        }
        adds_on(
            node,
            scope,
            middle,
            rewritten(place, middle, value)->Ok_0.1,
            owners_of_inputs(place, node, scope, inputs, less),
            owners_of_value(place, node, middle, value),
        );
    }
}

proof fn outputs_add(place: Place, node: Seq<int>, scope: Scope, outputs: Seq<OutputView>, count: nat)
    requires
        count <= outputs.len(),
        inlined_outputs(place, scope, outputs, count) is Ok,
    ensures
        adds_own(
            node,
            scope,
            inlined_outputs(place, scope, outputs, count)->Ok_0.1,
            owners_of_outputs(place, node, scope, outputs, count),
        ),
    decreases count,
{
    if count == 0 {
        adds_nothing(node, scope);
    } else {
        let less = (count - 1) as nat;
        outputs_add(place, node, scope, outputs, less);
        let middle = inlined_outputs(place, scope, outputs, less)->Ok_0.1;
        net_adds(place, node, middle, outputs[count - 1].net);
        adds_on(
            node,
            scope,
            middle,
            resolved(place, middle, outputs[count - 1].net)->Ok_0.1,
            owners_of_outputs(place, node, scope, outputs, less),
            owners_of_net(place, node, middle, outputs[count - 1].net),
        );
    }
}

proof fn bindings_add(place: Place, node: Seq<int>, scope: Scope, bindings: Seq<BindingView>, count: nat)
    requires
        count <= bindings.len(),
        inlined_bindings(place, scope, bindings, count) is Ok,
    ensures
        adds_own(
            node,
            scope,
            inlined_bindings(place, scope, bindings, count)->Ok_0.1,
            owners_of_bindings(place, node, scope, bindings, count),
        ),
    decreases count,
{
    if count == 0 {
        adds_nothing(node, scope);
    } else {
        let less = (count - 1) as nat;
        bindings_add(place, node, scope, bindings, less);
        let middle = inlined_bindings(place, scope, bindings, less)->Ok_0.1;
        net_adds(place, node, middle, bindings[count - 1].net);
        adds_on(
            node,
            scope,
            middle,
            resolved(place, middle, bindings[count - 1].net)->Ok_0.1,
            owners_of_bindings(place, node, scope, bindings, less),
            owners_of_net(place, node, middle, bindings[count - 1].net),
        );
    }
}

proof fn cells_add(place: Place, node: Seq<int>, frame: Frame, count: nat)
    requires
        count <= place.module.cells.len(),
        with_cells(place, frame, count) is Ok,
    ensures
        adds_own(
            node,
            frame.scope,
            with_cells(place, frame, count)->Ok_0.scope,
            owners_of_cells(place, node, frame, count),
        ),
    decreases count,
{
    if count == 0 {
        adds_nothing(node, frame.scope);
    } else {
        let less = (count - 1) as nat;
        cells_add(place, node, frame, less);
        let before = with_cells(place, frame, less)->Ok_0;
        let cell = place.module.cells[count - 1];
        inputs_add(place, node, before.scope, cell.inputs, cell.inputs.len());
        let middle = inlined_inputs(place, before.scope, cell.inputs, cell.inputs.len())->Ok_0.1;
        outputs_add(place, node, middle, cell.outputs, cell.outputs.len());
        let after = inlined_outputs(place, middle, cell.outputs, cell.outputs.len())->Ok_0.1;
        let read = owners_of_inputs(place, node, before.scope, cell.inputs, cell.inputs.len());
        let driven = owners_of_outputs(place, node, middle, cell.outputs, cell.outputs.len());
        adds_on(node, before.scope, middle, after, read, driven);
        adds_on(
            node,
            frame.scope,
            before.scope,
            after,
            owners_of_cells(place, node, frame, less),
            read + driven,
        );
    }
}

/// Whether no two of some nets are one net of one instance.
pub open spec fn owners_differ(log: Seq<Owner>) -> bool {
    forall|k: int, l: int| 0 <= k < l < log.len() ==> differ(#[trigger] log[k], #[trigger] log[l])
}

/// Whether a node is one of the first `count` instances of another, or lies below
/// one.
pub open spec fn is_below(node: Seq<int>, inner: Seq<int>, count: nat) -> bool {
    &&& inner.len() > node.len()
    &&& inner.take(node.len() as int) == node
    &&& 0 <= inner[node.len() as int] < count
}

/// Whether nets are those of a node or of what lies below it.
pub open spec fn owned_within(node: Seq<int>, log: Seq<Owner>) -> bool {
    forall|k: int|
        0 <= k < log.len() ==> (#[trigger] log[k]).node.len() >= node.len() && log[k].node.take(node.len() as int)
            == node
}

proof fn differ_on(log: Seq<Owner>, more: Seq<Owner>)
    requires
        owners_differ(log),
        owners_differ(more),
        forall|k: int, l: int| 0 <= k < log.len() && 0 <= l < more.len() ==> differ(
            #[trigger] log[k],
            #[trigger] more[l],
        ),
    ensures
        owners_differ(log + more),
{
    let all = log + more;
    assert forall|k: int, l: int| 0 <= k < l < all.len() implies differ(#[trigger] all[k], #[trigger] all[l]) by {
        if l < log.len() {
            assert(all[k] == log[k] && all[l] == log[l]);
        } else if k >= log.len() {
            assert(all[k] == more[k - log.len()] && all[l] == more[l - log.len()]);
        } else {
            assert(all[k] == log[k] && all[l] == more[l - log.len()]);
        }
    }
}

proof fn own_differ(node: Seq<int>, before: Scope, after: Scope, log: Seq<Owner>)
    requires
        adds_own(node, before, after, log),
    ensures
        owners_differ(log),
        owned_within(node, log),
{
    assert forall|k: int, l: int| 0 <= k < l < log.len() implies differ(#[trigger] log[k], #[trigger] log[l]) by {
        assert(log[k].local != log[l].local);
    }
    assert forall|k: int| 0 <= k < log.len() implies (#[trigger] log[k]).node.len() >= node.len()
        && log[k].node.take(node.len() as int) == node by {
        assert(node.take(node.len() as int) =~= node);
    }
}

proof fn module_adds(
    modules: Seq<LogicalModule>,
    place: Place,
    node: Seq<int>,
    bindings: Seq<BindingView>,
    flat: Flat,
    depth: nat,
)
    requires
        with_module(modules, place, bindings, flat, depth) is Ok,
    ensures
        ({
            let log = owners_of_module(modules, place, node, bindings, flat, depth);
            &&& nets_owned(flat.nets, with_module(modules, place, bindings, flat, depth)->Ok_0.nets, log)
            &&& owners_differ(log)
            &&& owned_within(node, log)
        }),
    decreases depth, place.module.instances.len() + 1,
{
    let frame = Frame { scope: Scope { bindings, nets: flat.nets }, cells: flat.cells };
    let count = place.module.cells.len();
    let total = place.module.instances.len();
    let middle = with_cells(place, frame, count)->Ok_0;
    let own = owners_of_cells(place, node, frame, count);
    let held = owners_of_instances(modules, place, node, middle, depth, total);
    cells_add(place, node, frame, count);
    own_differ(node, frame.scope, middle.scope, own);
    instances_add(modules, place, node, middle, depth, total);
    assert forall|k: int, l: int| 0 <= k < own.len() && 0 <= l < held.len() implies differ(
        #[trigger] own[k],
        #[trigger] held[l],
    ) by {
        assert(tied(middle.scope, own[k].local) is Some);
        assert(held[l].node == node && tied(middle.scope, held[l].local) is None || is_below(
            node,
            held[l].node,
            total,
        ));
    }
    differ_on(own, held);
    owned_on(
        flat.nets,
        middle.scope.nets,
        with_module(modules, place, bindings, flat, depth)->Ok_0.nets,
        own,
        held,
    );
    let log = own + held;
    assert forall|k: int| 0 <= k < log.len() implies (#[trigger] log[k]).node.len() >= node.len()
        && log[k].node.take(node.len() as int) == node by {
        assert(node.take(node.len() as int) =~= node);
        if k < own.len() {
            assert(log[k] == own[k]);
        } else {
            let l = k - own.len();
            assert(log[k] == held[l]);
            assert(held[l].node == node && tied(middle.scope, held[l].local) is None || is_below(
                node,
                held[l].node,
                total,
            ));
        }
    }
}

proof fn instances_add(
    modules: Seq<LogicalModule>,
    place: Place,
    node: Seq<int>,
    frame: Frame,
    depth: nat,
    count: nat,
)
    requires
        count <= place.module.instances.len(),
        with_instances(modules, place, frame, depth, count) is Ok,
    ensures
        ({
            let log = owners_of_instances(modules, place, node, frame, depth, count);
            let after = with_instances(modules, place, frame, depth, count)->Ok_0;
            &&& nets_owned(frame.scope.nets, after.scope.nets, log)
            &&& owners_differ(log)
            &&& forall|k: int|
                0 <= k < log.len() ==> (#[trigger] log[k]).node == node && tied(frame.scope, log[k].local) is None
                    && tied(after.scope, log[k].local) is Some || is_below(node, log[k].node, count)
            &&& forall|local: Seq<char>| (#[trigger] tied(frame.scope, local)) is Some ==> tied(after.scope, local) is Some
        }),
    decreases depth, count,
{
    adds_nothing(node, frame.scope);
    if count > 0 && depth > 0 {
        let less = (count - 1) as nat;
        instances_add(modules, place, node, frame, depth, less);
        let before = with_instances(modules, place, frame, depth, less)->Ok_0;
        let after = with_instances(modules, place, frame, depth, count)->Ok_0;
        let instance = place.module.instances[count - 1];
        bindings_add(place, node, before.scope, instance.bindings, instance.bindings.len());
        let (own, scope) = inlined_bindings(place, before.scope, instance.bindings, instance.bindings.len())->Ok_0;
        let inner = Place {
            module: module_named(modules, instance.module)->0@,
            path: below(place.path, instance.name),
        };
        let deeper = node.push(count - 1);
        let flat = Flat { nets: scope.nets, cells: before.cells };
        module_adds(modules, inner, deeper, own, flat, (depth - 1) as nat);
        let earlier = owners_of_instances(modules, place, node, frame, depth, less);
        let bound = owners_of_bindings(place, node, before.scope, instance.bindings, instance.bindings.len());
        let held = owners_of_module(modules, inner, deeper, own, flat, (depth - 1) as nat);
        own_differ(node, before.scope, scope, bound);
        assert forall|l: int| 0 <= l < held.len() implies is_below(node, (#[trigger] held[l]).node, count)
            && held[l].node[node.len() as int] == count - 1 by {
            let found = held[l].node;
            assert(found.take(deeper.len() as int) == deeper);
            assert(found[node.len() as int] == deeper[node.len() as int]);
            assert(found.take(node.len() as int) =~= deeper.take(node.len() as int));
            assert(deeper.take(node.len() as int) =~= node);
        }
        assert forall|k: int, l: int| 0 <= k < bound.len() && 0 <= l < held.len() implies differ(
            #[trigger] bound[k],
            #[trigger] held[l],
        ) by {
            assert(bound[k].node == node);
            assert(is_below(node, held[l].node, count));
        }
        differ_on(bound, held);
        let more = bound + held;
        assert forall|k: int, l: int| 0 <= k < earlier.len() && 0 <= l < more.len() implies differ(
            #[trigger] earlier[k],
            #[trigger] more[l],
        ) by {
            assert(earlier[k].node == node && tied(before.scope, earlier[k].local) is Some || is_below(
                node,
                earlier[k].node,
                less,
            ));
            if l < bound.len() {
                assert(more[l] == bound[l]);
                assert(tied(before.scope, bound[l].local) is None);
            } else {
                assert(more[l] == held[l - bound.len()]);
                assert(is_below(node, held[l - bound.len()].node, count));
            }
        }
        differ_on(earlier, more);
        owned_on(before.scope.nets, scope.nets, after.scope.nets, bound, held);
        owned_on(frame.scope.nets, before.scope.nets, after.scope.nets, earlier, more);
        let log = earlier + more;
        assert(after.scope.bindings == scope.bindings);
        assert forall|local: Seq<char>| (#[trigger] tied(scope, local)) == tied(after.scope, local) by {
        }
        assert forall|k: int| 0 <= k < log.len() implies (#[trigger] log[k]).node == node && tied(
            frame.scope,
            log[k].local,
        ) is None && tied(after.scope, log[k].local) is Some || is_below(node, log[k].node, count) by {
            if k < earlier.len() {
                assert(log[k] == earlier[k]);
                if earlier[k].node == node && tied(before.scope, earlier[k].local) is Some {
                    assert(tied(scope, earlier[k].local) is Some);
                }
            } else {
                let l = k - earlier.len();
                assert(log[k] == more[l]);
                if l < bound.len() {
                    assert(more[l] == bound[l]);
                    if tied(frame.scope, bound[l].local) is Some {
                        assert(tied(before.scope, bound[l].local) is Some);
                    }
                    assert(tied(scope, bound[l].local) is Some);
                } else {
                    assert(more[l] == held[l - bound.len()]);
                }
            }
        }
        assert forall|local: Seq<char>| (#[trigger] tied(frame.scope, local)) is Some implies tied(
            after.scope,
            local,
        ) is Some by {
            assert(tied(before.scope, local) is Some);
            assert(tied(scope, local) is Some);
        }
    }
}

proof fn top_adds(modules: Seq<LogicalModule>, top: ModuleView, count: nat)
    requires
        count <= top.instances.len(),
        flattened_instances(modules, top, count) is Ok,
    ensures
        ({
            let log = owners_of_top(modules, top, count);
            &&& nets_owned(top.nets, flattened_instances(modules, top, count)->Ok_0.nets, log)
            &&& owners_differ(log)
            &&& forall|k: int| 0 <= k < log.len() ==> is_below(Seq::empty(), (#[trigger] log[k]).node, count)
        }),
    decreases count,
{
    assert(top.nets.take(top.nets.len() as int) =~= top.nets);
    if count > 0 {
        let less = (count - 1) as nat;
        top_adds(modules, top, less);
        let instance = top.instances[count - 1];
        let before = flattened_instances(modules, top, less)->Ok_0;
        let place = Place { module: module_named(modules, instance.module)->0@, path: instance.name };
        let node = seq![count - 1];
        module_adds(modules, place, node, instance.bindings, before, modules.len());
        let earlier = owners_of_top(modules, top, less);
        let held = owners_of_module(modules, place, node, instance.bindings, before, modules.len());
        assert forall|l: int| 0 <= l < held.len() implies is_below(Seq::empty(), (#[trigger] held[l]).node, count)
            && held[l].node[0] == count - 1 by {
            let found = held[l].node;
            assert(found.take(node.len() as int) == node);
            assert(found[0] == node[0]);
            assert(found.take(0) =~= Seq::empty());
        }
        assert forall|k: int, l: int| 0 <= k < earlier.len() && 0 <= l < held.len() implies differ(
            #[trigger] earlier[k],
            #[trigger] held[l],
        ) by {
            assert(is_below(Seq::empty(), earlier[k].node, less));
        }
        differ_on(earlier, held);
        owned_on(top.nets, before.nets, flattened_instances(modules, top, count)->Ok_0.nets, earlier, held);
        let log = earlier + held;
        assert forall|k: int| 0 <= k < log.len() implies is_below(Seq::empty(), (#[trigger] log[k]).node, count) by {
            if k < earlier.len() {
                assert(log[k] == earlier[k]);
                assert(is_below(Seq::empty(), earlier[k].node, less));
            } else {
                assert(log[k] == held[k - earlier.len()]);
            }
        }
    }
}

/// Flattening leaves no instances and keeps the nets of the top module in front.
/// Behind them comes one net for each net of each instance that is looked up and tied
/// to nothing; it tells whose it is, and its name is that of no other net.
pub proof fn flat_module_is_collision_free(modules: Seq<LogicalModule>, top: ModuleView)
    ensures
        flattened(modules, top) matches Ok(flat) ==> {
            let owners = owners_of_top(modules, top, top.instances.len());
            &&& flat.instances.len() == 0
            &&& nets_owned(top.nets, flat.nets, owners)
            &&& owners_differ(owners)
            &&& nets_distinct(top.nets) ==> nets_distinct(flat.nets)
        },
{
    let count = top.instances.len();
    if let Ok(flat) = flattened(modules, top) {
        top_adds(modules, top, count);
        if nets_distinct(top.nets) {
            assert forall|i: int, j: int| 0 <= i < j < flat.nets.len() implies (#[trigger] flat.nets[i]).name != (
            #[trigger] flat.nets[j]).name by {
                if j < top.nets.len() {
                    assert(flat.nets[i] == flat.nets.take(top.nets.len() as int)[i]);
                    assert(flat.nets[j] == flat.nets.take(top.nets.len() as int)[j]);
                }
            }
        }
    }
}

/// Where nets of a module that is inlined are looked up, each that was tied to
/// nothing is tied to a net of its own from then on, and the others stay as they
/// are.
pub proof fn cells_of_a_module_get_nets_of_their_own(place: Place, node: Seq<int>, frame: Frame)
    requires
        with_cells(place, frame, place.module.cells.len()) is Ok,
    ensures
        adds_own(
            node,
            frame.scope,
            with_cells(place, frame, place.module.cells.len())->Ok_0.scope,
            owners_of_cells(place, node, frame, place.module.cells.len()),
        ),
{
    cells_add(place, node, frame, place.module.cells.len());
}

} // verus!
