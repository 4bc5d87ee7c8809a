//! Which defect of a module with state is told: the first that the work meets.

use super::cone::cone_inv;
use super::emitter::{boundary_of, is_clean_from, is_read_bit, logic_cells};
use super::error::{ErrorView, LowerError};
use super::expansion::{data_error, expand_outputs, expand_port, side_error, Job};
use super::flat::{is_port_bit, LEAF_NODE_BUDGET};
use super::next_state::{is_data_refused, is_next_cone, is_next_leaf, NextLeaf};
use super::partition::{is_bounded_partition, is_partition_error, PartitionedLeaf};
use super::refusal::{input_names, inputs_error};
use super::scalar::{builder_wf, net_widths, scalar_text, BuilderView};
use super::sequential::{is_output_cone, output_roots};
use super::state_plan::{elements_of, live_cells, plans_error};
use super::wiring::{leaf_unresolved, source_error, wire_error};
use crate::graph::{GraphNode, KindView};
use crate::ir::logical::{CellView, LogicalPortDirection};
use crate::ir::target::TargetOp;
use vstd::prelude::*;

verus! {

/// Whether the data of the first `count` live state cells expands.
pub open spec fn is_expanded_before(job: Job, live: Seq<int>, count: int) -> bool {
    forall|i: int| 0 <= i < count ==> data_error(job, job.module.cells[#[trigger] live[i]]) is None
}

/// Whether the logic of the data of a live state cell cannot be built, and the data
/// of the earlier ones expands.
pub open spec fn is_logic_refused<F: Fn(&Vec<GraphNode>) -> Result<usize, LowerError>>(
    job: Job,
    prepared_count: F,
    live: Seq<int>,
    error: LowerError,
) -> bool {
    exists|k: int|
        {
            &&& 0 <= k < live.len()
            &&& is_expanded_before(job, live, k)
            &&& #[trigger] is_data_refused(job, prepared_count, job.module.cells[live[k]], error)
        }
}

/// Whether `next` holds leaves of the logic of the data of a state cell.
pub open spec fn is_cell_leaf<F: Fn(&Vec<GraphNode>) -> Result<usize, LowerError>>(
    job: Job,
    prepared_count: F,
    cell: CellView,
    next: NextLeaf,
) -> bool {
    exists|cone: BuilderView, bits: Seq<usize>|
        {
            &&& #[trigger] is_next_cone(job.module, net_widths(job.module.nets), cell, cone, bits)
            &&& is_next_leaf(prepared_count, cell, cone, bits, next)
        }
}

/// What keeps live state cell `k` from being linked, where `leaves` holds the leaves
/// of each.
pub open spec fn link_error(
    job: Job,
    live: Seq<int>,
    elements: Map<Seq<char>, Seq<char>>,
    leaves: Seq<NextLeaf>,
    k: int,
) -> Option<ErrorView> {
    wire_error(
        job.module.cells[live[k]],
        net_widths(job.module.nets),
        elements,
        input_names(job.module),
        leaves[k],
    )
}

/// Whether the first `count` live state cells can be linked, where `leaves` holds
/// the leaves of each.
pub open spec fn is_linked_before<F: Fn(&Vec<GraphNode>) -> Result<usize, LowerError>>(
    job: Job,
    prepared_count: F,
    live: Seq<int>,
    elements: Map<Seq<char>, Seq<char>>,
    leaves: Seq<NextLeaf>,
    count: int,
) -> bool {
    &&& leaves.len() == live.len()
    &&& forall|i: int|
        0 <= i < live.len() ==> is_cell_leaf(job, prepared_count, job.module.cells[live[i]], #[trigger] leaves[i])
    &&& forall|i: int| 0 <= i < count ==> #[trigger] link_error(job, live, elements, leaves, i) is None
}

/// Whether a live state cell cannot be linked, and the earlier ones can.
pub open spec fn is_linking_refused<F: Fn(&Vec<GraphNode>) -> Result<usize, LowerError>>(
    job: Job,
    prepared_count: F,
    live: Seq<int>,
    elements: Map<Seq<char>, Seq<char>>,
    error: ErrorView,
) -> bool {
    exists|leaves: Seq<NextLeaf>, k: int|
        {
            &&& 0 <= k < live.len()
            &&& is_linked_before(job, prepared_count, live, elements, leaves, k)
            &&& #[trigger] link_error(job, live, elements, leaves, k) == Some(error)
        }
}

/// Whether the outputs expand up to bit `bit` of output port `port`.
pub open spec fn reaches_output(
    job: Job,
    fuel: nat,
    elements: Map<Seq<char>, Seq<char>>,
    port: int,
    bit: nat,
) -> bool {
    let widths = net_widths(job.module.nets);
    &&& 0 <= port < job.module.ports.len()
    &&& job.module.ports[port].direction == LogicalPortDirection::Output
    &&& widths.contains_key(job.module.ports[port].net)
    &&& bit < widths[job.module.ports[port].net]
    &&& match expand_outputs(job, fuel, elements, port as nat) {
        Some(Ok(names)) => expand_port(job, fuel, elements, port, bit + 1, names) matches Some(Ok(_)),
        _ => false,
    }
}

/// Whether the producer of a scalar net in a cone is the boundary input `source`.
pub open spec fn repeats_source(cone: BuilderView, name: Seq<char>, source: Seq<char>) -> bool {
    &&& cone.producers.contains_key(name)
    &&& cone.producers[name] < cone.nodes.len()
    &&& cone.nodes[cone.producers[name] as int].kind == KindView::Input(source)
}

/// Whether the boundary inputs that the output bits before bit `bit` of port `port`
/// repeat are state bits or input bits.
pub open spec fn are_wires_before(
    job: Job,
    elements: Map<Seq<char>, Seq<char>>,
    port: int,
    bit: nat,
    cone: BuilderView,
) -> bool {
    forall|p: int, b: nat, name: Seq<char>, source: Seq<char>|
        #![trigger is_port_bit(job.module.ports, net_widths(job.module.nets), LogicalPortDirection::Output, p, b, name), repeats_source(cone, name, source)]
        is_port_bit(job.module.ports, net_widths(job.module.nets), LogicalPortDirection::Output, p, b, name) && (p < port
            || p == port && b < bit) && !elements.contains_key(name) && repeats_source(cone, name, source)
            ==> source_error(elements, input_names(job.module), source) is None
}

/// Whether `cone` is the logic of the outputs up to bit `bit` of port `port`, and the
/// boundary input `source` that this bit repeats is the first that is neither a state
/// bit nor an input bit.
pub open spec fn is_wire_cone(
    job: Job,
    elements: Map<Seq<char>, Seq<char>>,
    port: int,
    bit: nat,
    cone: BuilderView,
    source: Seq<char>,
) -> bool {
    let widths = net_widths(job.module.nets);
    let net = job.module.ports[port].net;
    let roots = output_roots(job.module);
    &&& builder_wf(cone)
    &&& repeats_source(cone, scalar_text(net, widths[net], bit), source)
    &&& is_clean_from(job.module, roots) ==> {
        &&& exists|emitted: Set<int>|
            cone_inv(logic_cells(job.module, roots), widths, boundary_of(job.module), cone, emitted)
        &&& are_wires_before(job, elements, port, bit, cone)
    }
}

/// Whether an output bit that repeats a net from outside has no driver, because that
/// net is neither a state bit nor an input bit; up to this bit, the outputs expand.
pub open spec fn is_wire_refused(job: Job, elements: Map<Seq<char>, Seq<char>>, error: ErrorView) -> bool {
    exists|fuel: nat, port: int, bit: nat, cone: BuilderView, source: Seq<char>|
        {
            &&& #[trigger] reaches_output(job, fuel, elements, port, bit)
            &&& #[trigger] is_wire_cone(job, elements, port, bit, cone, source)
            &&& is_read_bit(job.module, source)
            &&& source_error(elements, input_names(job.module), source) == Some(error)
        }
}

/// Whether the output logic cannot be cut into leaves, or a leaf of it cannot be
/// linked.
pub open spec fn is_side_leaf_refused<F: Fn(&Vec<GraphNode>) -> Result<usize, LowerError>>(
    job: Job,
    prepared_count: F,
    elements: Map<Seq<char>, Seq<char>>,
    error: LowerError,
) -> bool {
    ||| exists|cone: BuilderView|
        {
            &&& #[trigger] is_output_cone(job.module, elements, cone)
            &&& is_partition_error(cone, LEAF_NODE_BUDGET, prepared_count, error)
        }
    ||| exists|cone: BuilderView, leaf: PartitionedLeaf|
        {
            &&& #[trigger] is_output_cone(job.module, elements, cone)
            &&& #[trigger] is_bounded_partition(
                cone,
                job.module.name + "_out"@,
                LEAF_NODE_BUDGET,
                prepared_count,
                leaf,
            )
            &&& leaf_unresolved(leaf, elements, input_names(job.module), leaf.instances@.len()) == Some(error@)
        }
}

/// Why the outputs cannot be driven: their logic comes first, bit by bit, then the
/// leaves into which it is cut.
pub open spec fn is_side_refused<F: Fn(&Vec<GraphNode>) -> Result<usize, LowerError>>(
    job: Job,
    prepared_count: F,
    elements: Map<Seq<char>, Seq<char>>,
    error: LowerError,
) -> bool {
    ||| side_error(job, elements) == Some(error@)
    ||| is_wire_refused(job, elements, error@)
    ||| side_error(job, elements) is None && is_side_leaf_refused(job, prepared_count, elements, error)
}

/// Why a module with state cannot be lowered, in the order of the work: the target
/// comes first, then the input ports, the pins of the live state cells, the logic of
/// their data, their links, and last the outputs.
pub open spec fn is_first_state_defect<F: Fn(&Vec<GraphNode>) -> Result<usize, LowerError>>(
    job: Job,
    prepared_count: F,
    error: LowerError,
) -> bool {
    let module = job.module;
    let widths = net_widths(module.nets);
    let live = live_cells(module, module.cells.len());
    let elements = elements_of(module.cells, widths, live, live.len());
    if !job.target.ops.contains(TargetOp::DLatch) {
        error@ == ErrorView::Unsupported(job.target.name, TargetOp::DLatch)
    } else if inputs_error(module.ports, widths, module.ports.len()) is Some {
        inputs_error(module.ports, widths, module.ports.len()) == Some(error@)
    } else if plans_error(module, module.cells.len()) is Some {
        plans_error(module, module.cells.len()) == Some(error@)
    } else {
        ||| is_logic_refused(job, prepared_count, live, error)
        ||| is_expanded_before(job, live, live.len() as int) && is_linking_refused(
            job,
            prepared_count,
            live,
            elements,
            error@,
        )
        ||| {
            &&& is_expanded_before(job, live, live.len() as int)
            &&& exists|leaves: Seq<NextLeaf>| #[trigger]
                is_linked_before(job, prepared_count, live, elements, leaves, live.len() as int)
            &&& is_side_refused(job, prepared_count, elements, error)
        }
    }
}

/// Whether a module with state has no defect that its lowering meets before leaves
/// are prepared.
pub open spec fn is_without_defect(job: Job) -> bool {
    let module = job.module;
    let widths = net_widths(module.nets);
    let live = live_cells(module, module.cells.len());
    &&& job.target.ops.contains(TargetOp::DLatch)
    &&& inputs_error(module.ports, widths, module.ports.len()) is None
    &&& plans_error(module, module.cells.len()) is None
    &&& is_expanded_before(job, live, live.len() as int)
    &&& side_error(job, elements_of(module.cells, widths, live, live.len())) is None
}

} // verus!
