//! What the numbers of a benchmark count.

use super::benchmarks::{
    are_node_counts, are_sorted_pins, cell_total, count_leaves, is_measured, is_structural, leaves_of, module_pins,
    BenchmarkMetrics, SidePin,
};
use super::logical::{LogicalDesign, LogicalModule};
use super::routable::{RoutableDesign, RoutableModule};
use crate::number::is_square_root;
use crate::order::is_stable_order;
use crate::transform::place_and_route::global_pnr::ir::PhysicalPortDirection;
use crate::transform::place_and_route::placement_ir::MacroTemplate;
use crate::world::position::in_bounds;
use vstd::prelude::*;

verus! {

/// The indices of the numbers that are above a limit.
pub open spec fn above(nodes: Seq<usize>, limit: int) -> Set<int> {
    Set::new(|i: int| 0 <= i < nodes.len() && nodes[i] > limit)
}

/// What is counted of leaves: how many there are, the most nodes that one has, and
/// how many have more than forty.
pub proof fn leaf_counts_count(nodes: Seq<usize>)
    ensures
        count_leaves(nodes).leaves == nodes.len(),
        forall|i: int| 0 <= i < nodes.len() ==> #[trigger] nodes[i] <= count_leaves(nodes).largest,
        nodes.len() > 0 ==> nodes.contains(count_leaves(nodes).largest),
        nodes.len() == 0 ==> count_leaves(nodes).largest == 0,
        above(nodes, 40).finite(),
        count_leaves(nodes).over_limit == above(nodes, 40).len(),
    decreases nodes.len(),
{
    if nodes.len() == 0 {
        assert(above(nodes, 40) =~= Set::<int>::empty());
    } else {
        let rest = nodes.drop_last();
        let last = nodes.len() - 1;
        leaf_counts_count(rest);
        assert forall|i: int| 0 <= i < nodes.len() implies #[trigger] nodes[i] <= count_leaves(nodes).largest by {
            if i < last {
                assert(nodes[i] == rest[i]);
            }
        }
        if count_leaves(nodes).largest == nodes.last() {
            assert(nodes[last] == count_leaves(nodes).largest);
        } else {
            let k = choose|k: int| 0 <= k < rest.len() && rest[k] == count_leaves(rest).largest;
            assert(nodes[k] == count_leaves(nodes).largest);
        }
        if nodes.last() > 40 {
            assert(above(nodes, 40) =~= above(rest, 40).insert(last));
        } else {
            assert(above(nodes, 40) =~= above(rest, 40));
        }
    }
}

/// The indices of the modules that are leaves.
pub open spec fn leaf_places(modules: Seq<RoutableModule>, count: int) -> Set<int> {
    Set::new(|i: int| 0 <= i < count && modules[i].body is Leaf)
}

proof fn leaves_are_counted(modules: Seq<RoutableModule>, count: nat)
    requires
        count <= modules.len(),
    ensures
        leaf_places(modules, count as int).finite(),
        leaf_places(modules, count as int).len() == leaves_of(modules, count).len(),
        forall|k: int|
            0 <= k < leaves_of(modules, count).len() ==> (#[trigger] leaves_of(modules, count)[k]).body is Leaf
                && modules.contains(leaves_of(modules, count)[k]),
    decreases count,
{
    let now = leaf_places(modules, count as int);
    if count == 0 {
        assert(now =~= Set::<int>::empty());
    } else {
        leaves_are_counted(modules, (count - 1) as nat);
        let before = leaf_places(modules, count - 1);
        if modules[count - 1].body is Leaf {
            assert(now =~= before.insert(count - 1));
        } else {
            assert(now =~= before);
        }
    }
}

/// The numbers of a design count its modules and its leaves, and tell of the
/// nodes that the leaves have once prepared: the most that one has, and how many have
/// more than forty.
pub proof fn metrics_count_the_design<N: Fn(&RoutableModule) -> Result<usize, String>>(
    prepared: &N,
    name: Seq<char>,
    logical: LogicalDesign,
    routable: RoutableDesign,
    metrics: BenchmarkMetrics,
) -> (nodes: Seq<usize>)
    requires
        is_measured(prepared, name, logical, routable, Ok::<BenchmarkMetrics, String>(metrics)),
    ensures
        metrics.name@ == name,
        metrics.modules == routable.modules@.len(),
        metrics.leaves == leaf_places(routable.modules@, routable.modules@.len() as int).len(),
        nodes.len() == metrics.leaves,
        forall|k: int| 0 <= k < nodes.len() ==> #[trigger] is_prepared(prepared, routable.modules@, nodes[k]),
        forall|k: int| 0 <= k < nodes.len() ==> #[trigger] nodes[k] <= metrics.max_prepared_nodes,
        nodes.len() > 0 ==> nodes.contains(metrics.max_prepared_nodes),
        nodes.len() == 0 ==> metrics.max_prepared_nodes == 0,
        metrics.over_limit_leaves == above(nodes, 40).len(),
{
    let modules = routable.modules@;
    let leaves = leaves_of(modules, modules.len());
    let nodes = choose|nodes: Seq<usize>| #[trigger]
        are_node_counts(prepared, leaves, nodes) && {
            let counted = count_leaves(nodes);
            &&& nodes.len() == leaves.len()
            &&& metrics.leaves == counted.leaves
            &&& metrics.max_prepared_nodes == counted.largest
            &&& metrics.over_limit_leaves == counted.over_limit
        };
    leaf_counts_count(nodes);
    leaves_are_counted(modules, modules.len());
    assert forall|k: int| 0 <= k < nodes.len() implies #[trigger] is_prepared(prepared, modules, nodes[k]) by {
        let leaf = leaves[k];
        assert(modules.contains(leaf));
        let i = choose|i: int| 0 <= i < modules.len() && modules[i] == leaf;
        assert(call_ensures(*prepared, (&modules[i],), Ok(nodes[k])));
    }
    nodes
}

/// Whether a number is that of the nodes of a leaf once prepared.
pub open spec fn is_prepared<N: Fn(&RoutableModule) -> Result<usize, String>>(
    prepared: &N,
    modules: Seq<RoutableModule>,
    nodes: usize,
) -> bool {
    exists|i: int|
        0 <= i < modules.len() && (#[trigger] modules[i]).body is Leaf && call_ensures(*prepared, (&modules[i],), Ok(nodes))
}

/// The number of cells of modules is the sum of theirs, as long as it is in range.
pub proof fn cells_sum_up(modules: Seq<LogicalModule>, count: nat)
    requires
        0 < count <= modules.len(),
        cell_total(modules, (count - 1) as nat) + modules[count - 1].cells@.len() <= usize::MAX,
    ensures
        cell_total(modules, count) == cell_total(modules, (count - 1) as nat) + modules[count - 1].cells@.len(),
        cell_total(modules, 0) == 0,
{
}

/// The footprint of a module has room for its nodes on its ground, and a narrower one
/// would not. Its pins are within it: inputs on one side and outputs on the other.
pub proof fn footprint_holds_its_pins(template: MacroTemplate, module: RoutableModule, nodes: usize)
    requires
        is_structural(template, module, nodes),
    ensures
        template.size.0 == template.size.1,
        template.size.0 >= 1,
        template.size.2 >= 1,
        template.size.0 * template.size.1 >= nodes,
        nodes >= 1 ==> (template.size.0 - 1) * (template.size.1 - 1) < nodes,
        forall|k: int|
            0 <= k < template.pins@.len() ==> {
                let pin = #[trigger] template.pins@[k];
                &&& in_bounds(template.size, pin.position)
                &&& pin.direction == PhysicalPortDirection::Input ==> pin.position.0 == 0
                &&& pin.direction == PhysicalPortDirection::Output ==> pin.position.0 == template.size.0 - 1
            },
{
    let own = (if nodes < 1 { 1 } else { nodes as int }) as nat;
    let side = choose|side: nat| #[trigger]
        is_square_root(own, side) && template.size == crate::world::position::DimSize(
            side as usize,
            side as usize,
            (1 + own / 16) as usize,
        ) && are_sorted_pins(template.pins@, module_pins(module, side));
    assert(1 <= side <= own <= usize::MAX) by (nonlinear_arith)
        requires
            side * side >= own,
            side > 0 ==> (side - 1) * (side - 1) < own,
            1 <= own <= usize::MAX,
    {
    }
    let views = module_pins(module, side);
    let (names, order) = choose|names: Seq<String>, order: Seq<usize>|
        {
            &&& crate::text::texts(names) == views.map_values(|view: SidePin| view.name)
            &&& #[trigger] is_stable_order(names, order)
            &&& super::benchmarks::are_side_pins(
                template.pins@,
                Seq::new(views.len(), |i: int| views[order[i] as int]),
            )
        };
    assert(names.len() == views.len()) by {
        assert(crate::text::texts(names).len() == views.len());
    }
    let sorted = Seq::new(views.len(), |i: int| views[order[i] as int]);
    assert forall|k: int| 0 <= k < template.pins@.len() implies {
        let pin = #[trigger] template.pins@[k];
        &&& in_bounds(template.size, pin.position)
        &&& pin.direction == PhysicalPortDirection::Input ==> pin.position.0 == 0
        &&& pin.direction == PhysicalPortDirection::Output ==> pin.position.0 == template.size.0 - 1
    } by {
        assert(super::benchmarks::is_side_pin(template.pins@[k], sorted[k]));
        assert(order[k] < names.len());
    }
}

} // verus!
