//! Whether the layouts of a design are small enough for all numbers of placing them
//! to be in range.

use super::annealed::{
    at_least, attempt_plan, is_annealed_problem, is_macro_of, is_selected_macro, is_world_shape, selected_fit,
    world_shape, Selected, ANNEALED_MIN_SPACING,
};
use super::ir::{LayoutCandidate, PhysicalPort};
use super::placement_nets::{nets_between, pin_nets, pins_of_ends, PinNetView};
use super::route_engine::route::ResolvedEndpoint;
use super::router::topology::ResolvedPnrTopology;
use crate::number::{capped, capped_product, capped_sum, is_cube_root};
use crate::transform::place_and_route::placement_ir::{
    candidate_fits, is_above, is_pin_of, is_template_of, local, local_cells, port_fits, port_names, MacroPin,
    MacroTemplate, PhysicalNet,
};
use crate::transform::place_and_route::placement_problem::{net_pins, template_of, PlacementProblem};
use crate::transform::place_and_route::sa_placer::measure::instance_pins;
use crate::transform::place_and_route::sa_placer::range::{
    capped_twice, farther, fits_signed, is_in_range, is_reach, macro_is_listed, numbers_fit, scaled,
};
use crate::transform::place_and_route::sa_placer::relax::cell_within;
use crate::transform::place_and_route::sa_placer::seed::pin_total;
use crate::order::is_text_order;
use crate::world::position::{distance, gap, DimSize, Position};
use vstd::prelude::*;

verus! {

/// Whether a port and its access points lie within a bound, as seen from an origin.
pub open spec fn port_within(origin: Position, port: PhysicalPort, bound: int) -> bool {
    &&& cell_within(local(origin, port.position), bound)
    &&& forall|a: int|
        0 <= a < port.access_points@.len() ==> cell_within(local(origin, #[trigger] port.access_points@[a]), bound)
}

/// Whether the ports of a layout lie within a bound, as seen from its box.
pub open spec fn layout_within(candidate: LayoutCandidate, bound: int) -> bool {
    forall|p: int|
        0 <= p < candidate.ports@.len() ==> port_within(candidate.bbox.min, #[trigger] candidate.ports@[p], bound)
}

/// Whether the worlds of a design and the ports of its layouts lie within a bound.
pub open spec fn design_within(selected: Seq<Selected>, side: usize, height: usize, bound: int) -> bool {
    &&& bound >= 1
    &&& 4 * side <= bound
    &&& 4 * height <= bound
    &&& forall|i: int| 0 <= i < selected.len() ==> layout_within((#[trigger] selected[i]).1, bound)
}

/// Whether no layout has more ports than a number.
pub open spec fn ports_within(selected: Seq<Selected>, most: int) -> bool {
    forall|i: int| 0 <= i < selected.len() ==> (#[trigger] selected[i]).1.ports@.len() <= most
}

/// How many ends the first `count` nets have.
pub open spec fn end_total(topology: ResolvedPnrTopology, count: nat) -> nat
    decreases count,
{
    if count == 0 {
        0
    } else {
        end_total(topology, (count - 1) as nat) + 1 + topology.nets@[count - 1].sinks@.len()
    }
}

/// Whether sums and products of numbers within bounds are in range.
pub open spec fn sums_fit(
    topology: ResolvedPnrTopology,
    count: nat,
    spacing: usize,
    side: usize,
    height: usize,
    bound: int,
    most: int,
) -> bool {
    let ends = end_total(topology, topology.nets@.len());
    &&& 3 * bound + at_least(spacing as int, ANNEALED_MIN_SPACING as int) < usize::MAX
    &&& 8 * ((ends + 1) * bound) < usize::MAX
    &&& 8 * ((ends + 1) * bound) <= i64::MAX
    &&& 4 * ((count + 1) * bound) + 5 < usize::MAX
    &&& 4 * ((count + 1) * bound) + 5 <= i64::MAX
    &&& (count + 1) * count < usize::MAX
    &&& count * most < usize::MAX
    &&& (4 * side) * (4 * side) * (4 * height) < usize::MAX
}

/// Whether the numbers of placing layouts in worlds of a size are in range.
pub open spec fn shape_in_range(
    topology: ResolvedPnrTopology,
    selected: Seq<Selected>,
    spacing: usize,
    side: usize,
    height: usize,
) -> bool {
    exists|bound: int, most: int|
        {
            &&& #[trigger] design_within(selected, side, height, bound)
            &&& #[trigger] ports_within(selected, most)
            &&& sums_fit(topology, selected.len(), spacing, side, height, bound, most)
        }
}

/// Whether the numbers of placing the layouts of a design are in range.
pub open spec fn selected_in_range(topology: ResolvedPnrTopology, selected: Seq<Selected>, spacing: usize) -> bool {
    forall|side: usize, height: usize| #[trigger]
        is_world_shape(selected, side, height) ==> shape_in_range(topology, selected, spacing, side, height)
}

// ---------------------------------------------------------------------------
// Enough
// ---------------------------------------------------------------------------
proof fn pins_are_few(
    topology: ResolvedPnrTopology,
    names: Seq<Seq<char>>,
    ends: Seq<ResolvedEndpoint>,
    count: nat,
)
    ensures
        pins_of_ends(topology, names, ends, count).len() <= count,
    decreases count,
{
    if count > 0 {
        pins_are_few(topology, names, ends, (count - 1) as nat);
    }
}

/// How many pins nets have.
spec fn view_total(nets: Seq<PinNetView>) -> nat
    decreases nets.len(),
{
    if nets.len() == 0 {
        0
    } else {
        view_total(nets.drop_last()) + 1 + nets.last().sinks.len()
    }
}

proof fn nets_are_few(topology: ResolvedPnrTopology, names: Seq<Seq<char>>, count: nat)
    requires
        count <= topology.nets@.len(),
    ensures
        view_total(nets_between(topology, names, count)) <= end_total(topology, count),
    decreases count,
{
    if count > 0 {
        let rest = nets_between(topology, names, (count - 1) as nat);
        let net = topology.nets@[count - 1];
        nets_are_few(topology, names, (count - 1) as nat);
        pins_are_few(topology, names, net.sinks@, net.sinks@.len());
        let all = nets_between(topology, names, count);
        if all != rest {
            assert(all.drop_last() =~= rest);
        }
    }
}

proof fn totals_agree(nets: Seq<PhysicalNet>, count: nat)
    requires
        count <= nets.len(),
    ensures
        pin_total(nets, count) == view_total(pin_nets(nets).take(count as int)),
    decreases count,
{
    let views = pin_nets(nets);
    if count > 0 {
        totals_agree(nets, (count - 1) as nat);
        assert(views.take(count as int).drop_last() =~= views.take(count - 1));
        assert(views.take(count as int).last().sinks.len() == nets[count - 1].sinks@.len());
        assert(net_pins(nets[count - 1]).len() == 1 + nets[count - 1].sinks@.len());
    }
}

proof fn pin_lies_within(pin: MacroPin, port: PhysicalPort, origin: Position, size: DimSize, bound: int)
    requires
        is_pin_of(pin, port, origin, size),
        port_within(origin, port, bound),
    ensures
        cell_within(pin.position, bound),
        forall|e: int| 0 <= e < pin.escape@.len() ==> cell_within(#[trigger] pin.escape@[e], bound),
{
    let cells = local_cells(origin, port.access_points@);
    assert forall|e: int| 0 <= e < pin.escape@.len() implies cell_within(#[trigger] pin.escape@[e], bound) by {
        assert(pin.escape@.contains(pin.escape@[e]));
        let a = choose|a: int| 0 <= a < cells.len() && cells[a] == pin.escape@[e];
        assert(cells[a] == local(origin, port.access_points@[a]));
    }
}

proof fn macro_lies_within(template: MacroTemplate, own: Selected, bound: int)
    requires
        is_selected_macro(template, own),
        layout_within(own.1, bound),
    ensures
        template.pins@.len() == own.1.ports@.len(),
        forall|j: int| 0 <= j < template.pins@.len() ==> cell_within((#[trigger] template.pins@[j]).position, bound),
        forall|j: int, e: int|
            0 <= j < template.pins@.len() && 0 <= e < template.pins@[j].escape@.len() ==> cell_within(
                #[trigger] template.pins@[j].escape@[e],
                bound,
            ),
{
    let candidate = own.1;
    let plain = choose|plain: MacroTemplate| #[trigger]
        is_template_of(plain, candidate, candidate.module_name@) && template == (MacroTemplate {
            name: template.name,
            variant: template.variant,
            ..plain
        });
    assert(template.pins == plain.pins);
    let origin = candidate.bbox.min;
    let order = choose|order: Seq<usize>| #[trigger]
        is_text_order(port_names(candidate.ports@), order) && plain.pins@.len() == candidate.ports@.len() && forall|
            i: int,
        |
            0 <= i < plain.pins@.len() ==> is_pin_of(
                #[trigger] plain.pins@[i],
                candidate.ports@[order[i] as int],
                origin,
                plain.size,
            );
    assert forall|j: int| 0 <= j < template.pins@.len() implies cell_within(
        (#[trigger] template.pins@[j]).position,
        bound,
    ) by {
        assert(order[j] < candidate.ports@.len());
        assert(port_within(origin, candidate.ports@[order[j] as int], bound));
        pin_lies_within(plain.pins@[j], candidate.ports@[order[j] as int], origin, plain.size, bound);
    }
    assert forall|j: int, e: int|
        0 <= j < template.pins@.len() && 0 <= e < template.pins@[j].escape@.len() implies cell_within(
        #[trigger] template.pins@[j].escape@[e],
        bound,
    ) by {
        assert(order[j] < candidate.ports@.len());
        assert(port_within(origin, candidate.ports@[order[j] as int], bound));
        pin_lies_within(plain.pins@[j], candidate.ports@[order[j] as int], origin, plain.size, bound);
    }
}

proof fn instance_pins_are_few(problem: PlacementProblem, selected: Seq<Selected>, bound: int, most: int, count: nat)
    requires
        count <= problem.instances@.len(),
        most >= 0,
        forall|m: int| 0 <= m < problem.macros@.len() ==> is_macro_of(#[trigger] problem.macros@[m], selected),
        forall|i: int| 0 <= i < selected.len() ==> layout_within((#[trigger] selected[i]).1, bound),
        ports_within(selected, most),
    ensures
        instance_pins(problem.macros@, problem.instances@, problem.instances@, count) <= count * most,
    decreases count,
{
    if count > 0 {
        instance_pins_are_few(problem, selected, bound, most, (count - 1) as nat);
        let id = problem.instances@[count - 1].id;
        if let Ok(template) = template_of(problem.macros@, problem.instances@, id) {
            let m = macro_is_listed(problem.macros@, problem.instances@[id as int].macro_name@, 0);
            assert(is_macro_of(problem.macros@[m], selected));
            let i = choose|i: int| 0 <= i < selected.len() && is_selected_macro(problem.macros@[m], #[trigger] selected[i]);
            macro_lies_within(problem.macros@[m], selected[i], bound);
            assert(selected[i].1.ports@.len() <= most);
        }
        assert((count - 1) * most + most == count * most) by (nonlinear_arith);
    }
}

/// Where the numbers of placing layouts are in range, so are those of every attempt.
pub proof fn attempts_are_in_range(
    problem: PlacementProblem,
    topology: ResolvedPnrTopology,
    selected: Seq<Selected>,
    spacing: usize,
    side: usize,
    height: usize,
    seed: u64,
    attempt: nat,
)
    requires
        is_annealed_problem(problem, topology, selected),
        shape_in_range(topology, selected, spacing, side, height),
        selected.len() <= usize::MAX,
    ensures
        is_in_range(problem, attempt_plan(side, height, spacing, seed, attempt)),
{
    let plan = attempt_plan(side, height, spacing, seed, attempt);
    let world = plan.initial.world;
    let count = selected.len();
    let (bound, most) = choose|bound: int, most: int|
        {
            &&& #[trigger] design_within(selected, side, height, bound)
            &&& #[trigger] ports_within(selected, most)
            &&& sums_fit(topology, selected.len(), spacing, side, height, bound, most)
        };
    let many = if most < 0 { 0 } else { most };
    assert(ports_within(selected, many));
    let ends = end_total(topology, topology.nets@.len());
    let pins = pin_total(problem.nets@, problem.nets@.len());
    let names = super::annealed::names_of(selected);
    totals_agree(problem.nets@, problem.nets@.len());
    assert(pin_nets(problem.nets@).take(problem.nets@.len() as int) =~= pin_nets(problem.nets@));
    nets_are_few(topology, names, topology.nets@.len());
    assert(pins <= ends);
    assert((pins + 1) * bound <= (ends + 1) * bound) by (nonlinear_arith)
        requires
            pins <= ends,
            bound >= 1,
    ;
    assert(world.0 <= 4 * side && world.1 <= 4 * side && world.2 <= 4 * height) by {
        let scale = super::annealed::attempt_scale(attempt);
        assert(side * scale <= 4 * side) by (nonlinear_arith)
            requires
                scale <= 4,
                side >= 0,
        ;
        assert(height * scale <= 4 * height) by (nonlinear_arith)
            requires
                scale <= 4,
                height >= 0,
        ;
    }
    let (x, y, z) = (world.0 as int, world.1 as int, world.2 as int);
    let (wide, tall) = (4 * side as int, 4 * height as int);
    assert(0 <= x * y <= wide * wide) by (nonlinear_arith)
        requires
            0 <= x <= wide,
            0 <= y <= wide,
    ;
    let (flat, base) = (x * y, wide * wide);
    assert(flat * z <= base * tall) by (nonlinear_arith)
        requires
            0 <= flat <= base,
            0 <= z <= tall,
    ;
    assert(is_reach(problem, world, bound)) by {
        let macros = problem.macros@;
        assert forall|i: int, j: int| 0 <= i < macros.len() && 0 <= j < macros[i].pins@.len() implies cell_within(
            (#[trigger] macros[i].pins@[j]).position,
            bound,
        ) by {
            assert(is_macro_of(macros[i], selected));
            let s = choose|s: int| 0 <= s < selected.len() && is_selected_macro(macros[i], #[trigger] selected[s]);
            macro_lies_within(macros[i], selected[s], bound);
        }
        assert forall|i: int, j: int, e: int|
            0 <= i < macros.len() && 0 <= j < macros[i].pins@.len() && 0 <= e < macros[i].pins@[j].escape@.len() implies cell_within(
            #[trigger] macros[i].pins@[j].escape@[e],
            bound,
        ) by {
            assert(is_macro_of(macros[i], selected));
            let s = choose|s: int| 0 <= s < selected.len() && is_selected_macro(macros[i], #[trigger] selected[s]);
            macro_lies_within(macros[i], selected[s], bound);
        }
    }
    instance_pins_are_few(problem, selected, bound, many, count);
    if most < 0 {
        assert(count * many == 0) by (nonlinear_arith)
            requires
                many == 0,
        ;
    }
    assert forall|i: int| 0 <= i < problem.instances@.len() implies (#[trigger] problem.instances@[i]).id == i by {
        assert(super::annealed::is_plain_instance(problem.instances@[i], i, selected[i].0@));
    }
    assert(numbers_fit(problem, plan, bound));
}

// ---------------------------------------------------------------------------
// Tests
// ---------------------------------------------------------------------------
fn cell_is_above(origin: Position, cell: Position) -> (above: bool)
    ensures
        above == is_above(origin, cell),
{
    origin.0 <= cell.0 && origin.1 <= cell.1 && origin.2 <= cell.2
}

fn span(left: usize, right: usize) -> (length: usize)
    ensures
        length == gap(left, right),
{
    if left < right {
        right - left
    } else {
        left - right
    }
}

fn is_near(left: Position, right: Position) -> (near: bool)
    ensures
        near == (distance(left, right) <= usize::MAX),
{
    let (x, y, z) = (span(left.0, right.0), span(left.1, right.1), span(left.2, right.2));
    x <= usize::MAX - y && x + y <= usize::MAX - z
}

fn port_is_fit(origin: Position, port: &PhysicalPort) -> (fit: bool)
    ensures
        fit == port_fits(origin, *port),
{
    if !cell_is_above(origin, port.position) {
        return false;
    }
    let mut index: usize = 0;
    while index < port.access_points.len()
        invariant
            index <= port.access_points.len(),
            is_above(origin, port.position),
            forall|i: int|
                0 <= i < index ==> is_above(origin, #[trigger] port.access_points@[i]) && distance(
                    port.access_points@[i],
                    port.position,
                ) <= usize::MAX,
        decreases port.access_points.len() - index,
    {
        let cell = port.access_points[index];
        if !cell_is_above(origin, cell) || !is_near(cell, port.position) {
            assert(!port_fits(origin, *port)) by {
                assert(cell == port.access_points@[index as int]);
            }
            return false;
        }
        index += 1;
    }
    true
}

/// Whether a layout's box lies below all that belongs to the layout.
pub fn layout_fits(candidate: &LayoutCandidate) -> (fit: bool)
    requires
        candidate.world.wf(),
        candidate.world.size.0 * candidate.world.size.1 * candidate.world.size.2 <= usize::MAX,
    ensures
        fit == candidate_fits(*candidate),
{
    let bbox = candidate.bbox;
    let origin = bbox.min;
    if !cell_is_above(origin, bbox.max) || bbox.max.0 == usize::MAX || bbox.max.1 == usize::MAX || bbox.max.2
        == usize::MAX {
        return false;
    }
    let blocks = candidate.world.iter_block();
    let mut index: usize = 0;
    while index < blocks.len()
        invariant
            index <= blocks.len(),
            blocks@ == candidate.world.listed(),
            origin == candidate.bbox.min,
            forall|i: int| 0 <= i < index ==> is_above(origin, (#[trigger] blocks@[i]).0),
        decreases blocks.len() - index,
    {
        if !cell_is_above(origin, blocks[index].0) {
            assert(!is_above(origin, candidate.world.listed()[index as int].0));
            return false;
        }
        index += 1;
    }
    let mut index: usize = 0;
    while index < candidate.blocked_cells.len()
        invariant
            index <= candidate.blocked_cells.len(),
            origin == candidate.bbox.min,
            forall|i: int| 0 <= i < index ==> is_above(origin, #[trigger] candidate.blocked_cells@[i]),
        decreases candidate.blocked_cells.len() - index,
    {
        if !cell_is_above(origin, candidate.blocked_cells[index]) {
            assert(!is_above(origin, candidate.blocked_cells@[index as int]));
            return false;
        }
        index += 1;
    }
    let mut index: usize = 0;
    while index < candidate.ports.len()
        invariant
            index <= candidate.ports.len(),
            origin == candidate.bbox.min,
            forall|i: int| 0 <= i < index ==> port_fits(origin, #[trigger] candidate.ports@[i]),
        decreases candidate.ports.len() - index,
    {
        if !port_is_fit(origin, &candidate.ports[index]) {
            assert(!port_fits(origin, candidate.ports@[index as int]));
            return false;
        }
        index += 1;
    }
    true
}

/// Whether the worlds of all layouts are well formed and can be counted.
pub open spec fn worlds_fit(selected: Seq<Selected>) -> bool {
    forall|i: int| 0 <= i < selected.len() ==> world_fits((#[trigger] selected[i]).1)
}

/// Whether the world of a layout is well formed and can be counted.
pub open spec fn world_fits(candidate: LayoutCandidate) -> bool {
    &&& candidate.world.wf()
    &&& candidate.world.size.0 * candidate.world.size.1 * candidate.world.size.2 <= usize::MAX
}

/// Whether all layouts are well formed.
pub fn layouts_fit(selected: &Vec<Selected>) -> (fit: bool)
    requires
        worlds_fit(selected@),
    ensures
        fit == selected_fit(selected@),
{
    let mut index: usize = 0;
    while index < selected.len()
        invariant
            index <= selected.len(),
            worlds_fit(selected@),
            forall|i: int| 0 <= i < index ==> candidate_fits((#[trigger] selected@[i]).1),
        decreases selected.len() - index,
    {
        assert(world_fits(selected@[index as int].1));
        if !layout_fits(&selected[index].1) {
            assert(!candidate_fits(selected@[index as int].1));
            return false;
        }
        index += 1;
    }
    true
}

fn local_place(origin: Position, cell: Position) -> (place: Position)
    requires
        is_above(origin, cell),
    ensures
        place == local(origin, cell),
{
    Position(cell.0 - origin.0, cell.1 - origin.1, cell.2 - origin.2)
}

fn farthest_access(origin: Position, port: &PhysicalPort, start: usize) -> (far: usize)
    requires
        port_fits(origin, *port),
    ensures
        far >= start,
        port_within(origin, *port, far as int),
        forall|bound: int| start <= bound && #[trigger] port_within(origin, *port, bound) ==> far <= bound,
{
    let mut far: usize = farther(local_place(origin, port.position), start);
    let mut index: usize = 0;
    while index < port.access_points.len()
        invariant
            index <= port.access_points.len(),
            port_fits(origin, *port),
            far >= start,
            cell_within(local(origin, port.position), far as int),
            forall|a: int|
                0 <= a < index ==> cell_within(local(origin, #[trigger] port.access_points@[a]), far as int),
            forall|bound: int| start <= bound && #[trigger] port_within(origin, *port, bound) ==> far <= bound,
        decreases port.access_points.len() - index,
    {
        assert(is_above(origin, port.access_points@[index as int]));
        far = farther(local_place(origin, port.access_points[index]), far);
        assert forall|bound: int| start <= bound && #[trigger] port_within(origin, *port, bound) implies far <= bound by {
            assert(cell_within(local(origin, port.access_points@[index as int]), bound));
        }
        index += 1;
    }
    far
}

fn farthest_port(candidate: &LayoutCandidate, start: usize) -> (far: usize)
    requires
        candidate_fits(*candidate),
    ensures
        far >= start,
        layout_within(*candidate, far as int),
        forall|bound: int| start <= bound && #[trigger] layout_within(*candidate, bound) ==> far <= bound,
{
    let origin = candidate.bbox.min;
    let mut far: usize = start;
    let mut index: usize = 0;
    while index < candidate.ports.len()
        invariant
            index <= candidate.ports.len(),
            origin == candidate.bbox.min,
            candidate_fits(*candidate),
            far >= start,
            forall|p: int| 0 <= p < index ==> port_within(origin, #[trigger] candidate.ports@[p], far as int),
            forall|bound: int| start <= bound && #[trigger] layout_within(*candidate, bound) ==> far <= bound,
        decreases candidate.ports.len() - index,
    {
        let ghost before = far;
        assert(port_fits(origin, candidate.ports@[index as int]));
        far = farthest_access(origin, &candidate.ports[index], far);
        proof {
            assert forall|p: int| 0 <= p < index + 1 implies port_within(
                origin,
                #[trigger] candidate.ports@[p],
                far as int,
            ) by {
                if p < index {
                    assert(port_within(origin, candidate.ports@[p], before as int));
                }
            }
            assert forall|bound: int| start <= bound && #[trigger] layout_within(*candidate, bound) implies far
                <= bound by {
                assert(port_within(origin, candidate.ports@[index as int], bound));
            }
        }
        index += 1;
    }
    far
}

fn larger_of(left: usize, right: usize) -> (larger: usize)
    ensures
        larger == if left < right { right } else { left },
{
    if left < right {
        right
    } else {
        left
    }
}

fn count_ends(topology: &ResolvedPnrTopology) -> (total: usize)
    ensures
        total == capped(end_total(*topology, topology.nets@.len())),
{
    let mut total: usize = 0;
    let mut index: usize = 0;
    while index < topology.nets.len()
        invariant
            index <= topology.nets.len(),
            total == capped(end_total(*topology, index as nat)),
        decreases topology.nets.len() - index,
    {
        total = capped_sum(total, topology.nets[index].sinks.len());
        total = capped_sum(total, 1);
        index += 1;
    }
    total
}

proof fn cube_root_is_unique(number: nat, left: nat, right: nat)
    requires
        is_cube_root(number, left),
        is_cube_root(number, right),
    ensures
        left == right,
{
    if left < right {
        cubes_grow(left, (right - 1) as nat);
    } else if right < left {
        cubes_grow(right, (left - 1) as nat);
    }
}

proof fn cubes_grow(low: nat, high: nat)
    requires
        low <= high,
    ensures
        low * low * low <= high * high * high,
{
    assert(low * low <= high * high) by (nonlinear_arith)
        requires
            low <= high,
    ;
    let (flat, base) = (low * low, high * high);
    assert(flat * low <= base * high) by (nonlinear_arith)
        requires
            flat <= base,
            low <= high,
    ;
}

/// Whether the numbers of placing the layouts of a design are in range.
pub fn layouts_in_range(topology: &ResolvedPnrTopology, selected: &Vec<Selected>, spacing: usize) -> (fits: bool)
    requires
        selected_fit(selected@),
    ensures
        fits == selected_in_range(*topology, selected@, spacing),
{
    let (side, height) = world_shape(selected);
    let count: usize = selected.len();
    let wide: usize = capped_product(side, 4);
    let tall: usize = capped_product(height, 4);
    let mut far: usize = larger_of(larger_of(wide, tall), 1);
    let mut most: usize = 0;
    let ghost start = far;
    let mut index: usize = 0;
    while index < selected.len()
        invariant
            index <= selected.len(),
            selected_fit(selected@),
            far >= start,
            forall|i: int| 0 <= i < index ==> layout_within((#[trigger] selected@[i]).1, far as int),
            forall|i: int| 0 <= i < index ==> (#[trigger] selected@[i]).1.ports@.len() <= most,
            forall|bound: int|
                start <= bound && #[trigger] design_within(selected@, side, height, bound) ==> far <= bound,
            most == 0 || exists|i: int| 0 <= i < index && (#[trigger] selected@[i]).1.ports@.len() == most,
        decreases selected.len() - index,
    {
        let ghost before = far;
        let ghost fewer = most;
        let candidate = &selected[index].1;
        assert(candidate_fits(selected@[index as int].1));
        far = farthest_port(candidate, far);
        most = larger_of(most, candidate.ports.len());
        proof {
            assert forall|i: int| 0 <= i < index + 1 implies layout_within(
                (#[trigger] selected@[i]).1,
                far as int,
            ) by {
                if i < index {
                    let own = selected@[i].1;
                    assert(layout_within(own, before as int));
                    assert forall|p: int| 0 <= p < own.ports@.len() implies port_within(
                        own.bbox.min,
                        #[trigger] own.ports@[p],
                        far as int,
                    ) by {
                        assert(port_within(own.bbox.min, own.ports@[p], before as int));
                    }
                }
            }
            assert forall|bound: int|
                start <= bound && #[trigger] design_within(selected@, side, height, bound) implies far <= bound by {
                assert(layout_within(selected@[index as int].1, bound));
            }
            if most != fewer {
                assert(selected@[index as int].1.ports@.len() == most);
            } else if most != 0 {
                let i = choose|i: int| 0 <= i < index && (#[trigger] selected@[i]).1.ports@.len() == most;
                assert(selected@[i].1.ports@.len() == most);
            }
        }
        index += 1;
    }
    let gap_size: usize = larger_of(spacing, ANNEALED_MIN_SPACING);
    let ghost ends = end_total(*topology, topology.nets@.len());
    let ghost bound = far as nat;
    let shelves: usize = capped_sum(capped_product(far, 3), gap_size);
    let wires: usize = capped_product(scaled(far, count_ends(topology), Ghost(ends)), 8);
    let moves: usize = capped_sum(capped_product(scaled(far, count, Ghost(count as nat)), 4), 5);
    let pairs: usize = if count == 0 {
        0
    } else {
        scaled(count, count, Ghost(count as nat))
    };
    let ports: usize = capped_product(count, most);
    let volume: usize = capped_product(capped_product(wide, wide), tall);
    proof {
        capped_twice((ends + 1) * bound, 8);
        capped_twice((count + 1) as nat * bound, 4);
    }
    let fits = wide < usize::MAX && tall < usize::MAX && shelves < usize::MAX && fits_signed(wires) && fits_signed(
        moves,
    ) && pairs < usize::MAX && ports < usize::MAX && volume < usize::MAX;
    proof {
        if wide < usize::MAX && tall < usize::MAX {
            assert(wide == 4 * side && tall == 4 * height);
            capped_twice((wide * wide) as nat, tall as nat);
            assert((wide * wide) as nat * tall as nat == (4 * side) * (4 * side) * (4 * height));
            assert(design_within(selected@, side, height, far as int));
            assert(ports_within(selected@, most as int));
        }
        assert(fits ==> sums_fit(*topology, count as nat, spacing, side, height, far as int, most as int));
        if fits {
            assert(shape_in_range(*topology, selected@, spacing, side, height));
            assert forall|other: usize, tallness: usize| #[trigger]
                is_world_shape(selected@, other, tallness) implies shape_in_range(
                *topology,
                selected@,
                spacing,
                other,
                tallness,
            ) by {
                shape_is_unique(selected@, side, height, other, tallness);
            }
        }
        if selected_in_range(*topology, selected@, spacing) {
            assert(shape_in_range(*topology, selected@, spacing, side, height));
            let (other, many) = choose|bound: int, most: int|
                {
                    &&& #[trigger] design_within(selected@, side, height, bound)
                    &&& #[trigger] ports_within(selected@, most)
                    &&& sums_fit(*topology, selected@.len(), spacing, side, height, bound, most)
                };
            assert(4 * side < usize::MAX && 4 * height < usize::MAX);
            assert(far <= other);
            assert((ends + 1) * bound <= (ends + 1) * other) by (nonlinear_arith)
                requires
                    bound <= other,
            ;
            assert((count + 1) * bound <= (count + 1) * other) by (nonlinear_arith)
                requires
                    bound <= other,
                    count >= 0,
            ;
            if most > 0 {
                let i = choose|i: int| 0 <= i < selected@.len() && (#[trigger] selected@[i]).1.ports@.len() == most;
                assert(most <= many);
                assert(count * most <= count * many) by (nonlinear_arith)
                    requires
                        most <= many,
                        count >= 0,
                ;
            } else {
                assert(count * most == 0) by (nonlinear_arith)
                    requires
                        most == 0,
                ;
            }
        }
    }
    fits
}

proof fn shape_is_unique(selected: Seq<Selected>, side: usize, height: usize, other: usize, tallness: usize)
    requires
        is_world_shape(selected, side, height),
        is_world_shape(selected, other, tallness),
    ensures
        side == other,
        height == tallness,
{
    let volume = super::annealed::total_volume(selected, selected.len());
    let wide = super::annealed::widest(selected, selected.len());
    let left = choose|root: nat| #[trigger]
        is_cube_root(volume, root) && side == at_least(at_least(capped(root * 2) as int, wide), 4);
    let right = choose|root: nat| #[trigger]
        is_cube_root(volume, root) && other == at_least(at_least(capped(root * 2) as int, wide), 4);
    cube_root_is_unique(volume, left, right);
}

} // verus!
