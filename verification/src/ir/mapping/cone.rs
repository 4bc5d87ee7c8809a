//! The meaning of a cone under construction: every cell that was expanded
//! still drives its nets with its value.

use super::combinational::{
    bits_equal, bits_equal_depends, carry_bit_depends, cell_emitted, cell_fits, cell_value, consistent_prefix,
    emit_outcome, grown, is_allowed_node, ones_below_depends, pin_bit, pin_bits, pin_check, pin_len, produced_count, Valuation,
};
use super::scalar::{bit_texts, builder_wf, extends_nodes, scalar_text, BuilderView};
use crate::graph::{consistent, KindView, NodeView};
use crate::ir::logical::{pin_value, CellView, LogicalCellKind, ValueView};
use crate::ir::target::{MappingPolicy, TargetView};
use vstd::prelude::*;

verus! {

/// The input pins that a cell kind reads.
pub open spec fn cell_pins(kind: LogicalCellKind) -> Seq<Seq<char>> {
    match kind {
        LogicalCellKind::Buffer | LogicalCellKind::Not | LogicalCellKind::Inc => seq!["value"@],
        LogicalCellKind::Mux => seq!["select"@, "when_true"@, "when_false"@],
        LogicalCellKind::DLatch { .. } | LogicalCellKind::Dff { .. } | LogicalCellKind::Register { .. } => Seq::empty(),
        _ => seq!["lhs"@, "rhs"@],
    }
}

/// The scalar net behind bit `bit` of `pin`, where a net feeds the pin.
pub open spec fn reads_name(
    cell: CellView,
    pin: Seq<char>,
    widths: Map<Seq<char>, usize>,
    bit: nat,
    name: Seq<char>,
) -> bool {
    match pin_value(cell.inputs, pin) {
        Some(ValueView::Net(net)) => bit < widths[net] && name == scalar_text(net, widths[net], bit),
        Some(ValueView::Slice(net, slice)) => name == scalar_text(net, widths[net], slice as nat),
        _ => false,
    }
}

/// Whether the cell drives the scalar net `name`.
pub open spec fn drives(cell: CellView, widths: Map<Seq<char>, usize>, name: Seq<char>) -> bool {
    &&& cell.outputs.len() > 0
    &&& exists|bit: nat|
        bit < produced_count(cell, widths) && name == #[trigger] scalar_text(
            cell.outputs[0].net,
            widths[cell.outputs[0].net],
            bit,
        )
}

/// Whether every scalar net has one driver: no two cells drive the same, and
/// none drives a boundary net.
pub open spec fn drivers_unique(
    cells: Seq<CellView>,
    widths: Map<Seq<char>, usize>,
    boundary: spec_fn(Seq<char>) -> bool,
) -> bool {
    &&& forall|i: int, j: int, name: Seq<char>|
        0 <= i < cells.len() && 0 <= j < cells.len() && i != j && #[trigger] drives(cells[i], widths, name)
            ==> !#[trigger] drives(cells[j], widths, name)
    &&& forall|i: int, name: Seq<char>|
        0 <= i < cells.len() && #[trigger] drives(cells[i], widths, name) ==> !boundary(name)
}

/// Whether all bits that a cell reads have producers.
pub open spec fn pins_ready(cell: CellView, widths: Map<Seq<char>, usize>, producers: Map<Seq<char>, usize>) -> bool {
    forall|i: int| 0 <= i < cell_pins(cell.kind).len() ==> pin_check(
        cell,
        #[trigger] cell_pins(cell.kind)[i],
        widths,
        producers,
    ) is Emit
}

/// Whether the cell's nets carry the cell's value in every consistent valuation.
pub open spec fn cell_holds(cell: CellView, widths: Map<Seq<char>, usize>, builder: BuilderView) -> bool {
    let names = bit_texts(cell.outputs[0].net, widths[cell.outputs[0].net]);
    &&& cell.outputs.len() > 0
    &&& produced_count(cell, widths) <= names.len()
    &&& forall|bit: int|
        0 <= bit < produced_count(cell, widths) ==> builder.producers.contains_key(#[trigger] names[bit])
    &&& forall|env: spec_fn(Seq<char>) -> bool, v: Valuation, bit: int|
        #![trigger consistent(builder.nodes, env, v), names[bit]]
        0 <= bit < produced_count(cell, widths) && consistent(builder.nodes, env, v) ==> v(
            builder.producers[names[bit]] as int,
        ) == cell_value(cell, widths, builder.producers, v, bit)
}

/// What holds of a cone into which the cells `emitted` were expanded: a scalar
/// net with a producer is a boundary input or driven by one of these cells, and
/// each of them drives its nets with its value.
pub open spec fn cone_inv(
    cells: Seq<CellView>,
    widths: Map<Seq<char>, usize>,
    boundary: spec_fn(Seq<char>) -> bool,
    builder: BuilderView,
    emitted: Set<int>,
) -> bool {
    &&& forall|name: Seq<char>| #[trigger]
        builder.producers.contains_key(name) ==> {
            ||| boundary(name) && builder.nodes[builder.producers[name] as int].kind == KindView::Input(name)
            ||| exists|i: int| emitted.contains(i) && #[trigger] drives(cells[i], widths, name)
        }
    &&& forall|i: int| #[trigger]
        emitted.contains(i) ==> {
            &&& 0 <= i < cells.len()
            &&& is_expandable(cells[i], widths)
            &&& pins_ready(cells[i], widths, builder.producers)
            &&& cell_holds(cells[i], widths, builder)
        }
}

/// Whether a cone is made of boundary inputs and nodes that a policy allows.
pub open spec fn is_allowed_cone(nodes: Seq<NodeView>, policy: MappingPolicy) -> bool {
    forall|i: int| 0 <= i < nodes.len() ==> (#[trigger] nodes[i]).kind is Input || is_allowed_node(nodes[i], policy)
}

/// A cone that grows stays allowed.
pub proof fn grown_stays_allowed(before: BuilderView, after: BuilderView, policy: MappingPolicy)
    requires
        grown(before, after, policy),
        is_allowed_cone(before.nodes, policy),
    ensures
        is_allowed_cone(after.nodes, policy),
{
    assert forall|i: int| 0 <= i < after.nodes.len() implies (#[trigger] after.nodes[i]).kind is Input || is_allowed_node(
        after.nodes[i],
        policy,
    ) by {
        if i < before.nodes.len() {
            assert(after.nodes[i] == before.nodes[i]);
        }
    }
}

/// Whether the operands of a cell have the widths that its expansion needs.
pub open spec fn is_expandable(cell: CellView, widths: Map<Seq<char>, usize>) -> bool {
    &&& cell.outputs.len() > 0
    &&& cell_fits(cell, widths)
    &&& cell.kind is Mux ==> pin_len(cell, "select"@, widths, 1) == 1
}

/// Whether two producer maps agree on what a cell reads.
pub open spec fn pins_agree(
    cell: CellView,
    widths: Map<Seq<char>, usize>,
    left: Map<Seq<char>, usize>,
    right: Map<Seq<char>, usize>,
) -> bool {
    forall|i: int, bit: nat, name: Seq<char>|
        0 <= i < cell_pins(cell.kind).len() && #[trigger] reads_name(
            cell,
            cell_pins(cell.kind)[i],
            widths,
            bit,
            name,
        ) ==> left[name] == right[name]
}

/// The bits of one pin are the same under producer maps that agree on it.
proof fn pin_bits_agree(
    cell: CellView,
    widths: Map<Seq<char>, usize>,
    left: Map<Seq<char>, usize>,
    right: Map<Seq<char>, usize>,
    place: int,
    v: Valuation,
    count: nat,
)
    requires
        pins_agree(cell, widths, left, right),
        0 <= place < cell_pins(cell.kind).len(),
        forall|expected: nat| count <= #[trigger] pin_len(cell, cell_pins(cell.kind)[place], widths, expected)
            || pin_value(cell.inputs, cell_pins(cell.kind)[place]) is None
            || pin_value(cell.inputs, cell_pins(cell.kind)[place])->0 is Constant,
    ensures
        bits_equal(
            pin_bits(cell, cell_pins(cell.kind)[place], widths, left, v),
            pin_bits(cell, cell_pins(cell.kind)[place], widths, right, v),
            count,
        ),
        forall|bit: int|
            0 <= bit < count ==> #[trigger] pin_bit(cell, cell_pins(cell.kind)[place], widths, left, bit, v) == pin_bit(
                cell,
                cell_pins(cell.kind)[place],
                widths,
                right,
                bit,
                v,
            ),
    decreases count,
{
    if count > 0 {
        let pin = cell_pins(cell.kind)[place];
        let bit = (count - 1) as nat;
        assert forall|expected: nat| bit <= #[trigger] pin_len(cell, pin, widths, expected) || pin_value(
            cell.inputs,
            pin,
        ) is None || pin_value(cell.inputs, pin)->0 is Constant by {
            assert(count <= pin_len(cell, pin, widths, expected) || pin_value(cell.inputs, pin) is None || pin_value(
                cell.inputs,
                pin,
            )->0 is Constant);
        }
        pin_bits_agree(cell, widths, left, right, place, v, bit);
        match pin_value(cell.inputs, pin) {
            Some(ValueView::Net(net)) => {
                assert(count <= pin_len(cell, pin, widths, 0));
                assert(reads_name(cell, pin, widths, bit, scalar_text(net, widths[net], bit)));
            },
            Some(ValueView::Slice(net, slice)) => {
                assert(reads_name(cell, pin, widths, bit, scalar_text(net, widths[net], slice as nat)));
            },
            _ => {},
        }
        assert(pin_bit(cell, pin, widths, left, count - 1, v) == pin_bit(cell, pin, widths, right, count - 1, v));
    }
}

/// A cell's value depends only on the producers of what it reads.
proof fn cell_value_agrees(
    cell: CellView,
    widths: Map<Seq<char>, usize>,
    left: Map<Seq<char>, usize>,
    right: Map<Seq<char>, usize>,
    v: Valuation,
    bit: int,
)
    requires
        cell.outputs.len() > 0,
        cell_fits(cell, widths),
        pins_agree(cell, widths, left, right),
        cell.kind is Mux ==> pin_len(cell, "select"@, widths, 1) == 1,
        0 <= bit < produced_count(cell, widths),
    ensures
        cell_value(cell, widths, left, v, bit) == cell_value(cell, widths, right, v, bit),
{
    let count = (bit + 1) as nat;
    let pins = cell_pins(cell.kind);
    match cell.kind {
        LogicalCellKind::Buffer | LogicalCellKind::Not | LogicalCellKind::Inc => {
            assert(pins[0] == "value"@);
            pin_bits_agree(cell, widths, left, right, 0, v, count);
            pin_bits_agree(cell, widths, left, right, 0, v, bit as nat);
            ones_below_depends(
                pin_bits(cell, "value"@, widths, left, v),
                pin_bits(cell, "value"@, widths, right, v),
                bit as nat,
            );
            assert(pin_bit(cell, "value"@, widths, left, bit, v) == pin_bit(cell, "value"@, widths, right, bit, v));
        },
        LogicalCellKind::And | LogicalCellKind::Or | LogicalCellKind::Xor | LogicalCellKind::Add => {
            assert(pins[0] == "lhs"@ && pins[1] == "rhs"@);
            pin_bits_agree(cell, widths, left, right, 0, v, count);
            pin_bits_agree(cell, widths, left, right, 1, v, count);
            pin_bits_agree(cell, widths, left, right, 0, v, bit as nat);
            pin_bits_agree(cell, widths, left, right, 1, v, bit as nat);
            carry_bit_depends(
                pin_bits(cell, "lhs"@, widths, left, v),
                pin_bits(cell, "rhs"@, widths, left, v),
                pin_bits(cell, "lhs"@, widths, right, v),
                pin_bits(cell, "rhs"@, widths, right, v),
                bit as nat,
            );
            assert(pin_bit(cell, "lhs"@, widths, left, bit, v) == pin_bit(cell, "lhs"@, widths, right, bit, v));
            assert(pin_bit(cell, "rhs"@, widths, left, bit, v) == pin_bit(cell, "rhs"@, widths, right, bit, v));
        },
        LogicalCellKind::Mux => {
            assert(pins[0] == "select"@ && pins[1] == "when_true"@ && pins[2] == "when_false"@);
            pin_bits_agree(cell, widths, left, right, 0, v, 1);
            pin_bits_agree(cell, widths, left, right, 1, v, count);
            pin_bits_agree(cell, widths, left, right, 2, v, count);
            assert(pin_bit(cell, "select"@, widths, left, 0, v) == pin_bit(cell, "select"@, widths, right, 0, v));
            assert(pin_bit(cell, "when_true"@, widths, left, bit, v) == pin_bit(cell, "when_true"@, widths, right, bit, v));
            assert(pin_bit(cell, "when_false"@, widths, left, bit, v) == pin_bit(cell, "when_false"@, widths, right, bit, v));
        },
        LogicalCellKind::Eq { width } => {
            assert(pins[0] == "lhs"@ && pins[1] == "rhs"@);
            pin_bits_agree(cell, widths, left, right, 0, v, width as nat);
            pin_bits_agree(cell, widths, left, right, 1, v, width as nat);
            bits_equal_depends(
                pin_bits(cell, "lhs"@, widths, left, v),
                pin_bits(cell, "rhs"@, widths, left, v),
                pin_bits(cell, "lhs"@, widths, right, v),
                pin_bits(cell, "rhs"@, widths, right, v),
                width as nat,
            );
        },
        _ => {},
    }
}

/// The names that a cell drives are the first names of its net.
proof fn drives_names(cell: CellView, widths: Map<Seq<char>, usize>, name: Seq<char>)
    requires
        cell.outputs.len() > 0,
        produced_count(cell, widths) <= widths[cell.outputs[0].net],
    ensures
        drives(cell, widths, name) <==> bit_texts(cell.outputs[0].net, widths[cell.outputs[0].net]).take(
            produced_count(cell, widths) as int,
        ).contains(name),
{
    let names = bit_texts(cell.outputs[0].net, widths[cell.outputs[0].net]);
    let count = produced_count(cell, widths);
    let taken = names.take(count as int);
    if drives(cell, widths, name) {
        let bit = choose|bit: nat|
            bit < count && name == #[trigger] scalar_text(cell.outputs[0].net, widths[cell.outputs[0].net], bit);
        assert(taken[bit as int] == name);
    }
    if taken.contains(name) {
        let bit = choose|bit: int| 0 <= bit < taken.len() && taken[bit] == name;
        assert(name == scalar_text(cell.outputs[0].net, widths[cell.outputs[0].net], bit as nat));
    }
}

/// A pin that has all producers keeps them when more are added.
proof fn ready_stays(
    cell: CellView,
    widths: Map<Seq<char>, usize>,
    before: Map<Seq<char>, usize>,
    after: Map<Seq<char>, usize>,
)
    requires
        pins_ready(cell, widths, before),
        forall|name: Seq<char>| #[trigger] before.contains_key(name) ==> after.contains_key(name),
    ensures
        pins_ready(cell, widths, after),
{
    assert forall|i: int| 0 <= i < cell_pins(cell.kind).len() implies pin_check(
        cell,
        #[trigger] cell_pins(cell.kind)[i],
        widths,
        after,
    ) is Emit by {
        let pin = cell_pins(cell.kind)[i];
        assert(pin_check(cell, pin, widths, before) is Emit);
        if let Some(ValueView::Net(net)) = pin_value(cell.inputs, pin) {
            assert forall|bit: nat| bit < widths[net] implies after.contains_key(
                #[trigger] scalar_text(net, widths[net], bit),
            ) by {
                assert(before.contains_key(scalar_text(net, widths[net], bit)));
            }
        }
    }
}

/// What a ready cell reads has a producer.
proof fn ready_reads(
    cell: CellView,
    widths: Map<Seq<char>, usize>,
    producers: Map<Seq<char>, usize>,
    place: int,
    bit: nat,
    name: Seq<char>,
)
    requires
        pins_ready(cell, widths, producers),
        0 <= place < cell_pins(cell.kind).len(),
        reads_name(cell, cell_pins(cell.kind)[place], widths, bit, name),
    ensures
        producers.contains_key(name),
{
    let pin = cell_pins(cell.kind)[place];
    assert(pin_check(cell, pin, widths, producers) is Emit);
}

/// A cell of which every pin has its producers does not wait.
pub proof fn ready_does_not_wait(
    cell: CellView,
    widths: Map<Seq<char>, usize>,
    producers: Map<Seq<char>, usize>,
    target: TargetView,
    policy: MappingPolicy,
)
    requires
        forall|place: int| 0 <= place < cell_pins(cell.kind).len() ==> !(pin_check(
            cell,
            #[trigger] cell_pins(cell.kind)[place],
            widths,
            producers,
        ) is Wait),
    ensures
        !(emit_outcome(cell, widths, producers, target, policy) is Wait),
{
    let pins = cell_pins(cell.kind);
    if pins.len() > 0 {
        assert(!(pin_check(cell, pins[0], widths, producers) is Wait));
    }
    if pins.len() > 1 {
        assert(!(pin_check(cell, pins[1], widths, producers) is Wait));
    }
    if pins.len() > 2 {
        assert(!(pin_check(cell, pins[2], widths, producers) is Wait));
    }
}

/// A cell that can be expanded is ready.
pub proof fn emitted_is_ready(
    cell: CellView,
    widths: Map<Seq<char>, usize>,
    producers: Map<Seq<char>, usize>,
    target: TargetView,
    policy: MappingPolicy,
)
    requires
        emit_outcome(cell, widths, producers, target, policy) is Emit,
        cell_fits(cell, widths),
    ensures
        is_expandable(cell, widths),
        pins_ready(cell, widths, producers),
        produced_count(cell, widths) <= widths[cell.outputs[0].net],
{
    assert forall|i: int| 0 <= i < cell_pins(cell.kind).len() implies pin_check(
        cell,
        #[trigger] cell_pins(cell.kind)[i],
        widths,
        producers,
    ) is Emit by {
        if i == 0 {
        } else if i == 1 {
        } else if i == 2 {
        }
    }
}

/// Expanding a cell keeps the meaning of the cone.
pub proof fn emit_keeps_cone(
    cells: Seq<CellView>,
    widths: Map<Seq<char>, usize>,
    boundary: spec_fn(Seq<char>) -> bool,
    before: BuilderView,
    after: BuilderView,
    emitted: Set<int>,
    index: int,
    target: TargetView,
    policy: MappingPolicy,
)
    requires
        drivers_unique(cells, widths, boundary),
        builder_wf(before),
        cone_inv(cells, widths, boundary, before, emitted),
        0 <= index < cells.len(),
        !emitted.contains(index),
        cell_fits(cells[index], widths),
        emit_outcome(cells[index], widths, before.producers, target, policy) is Emit,
        cell_emitted(cells[index], widths, before, after),
        grown(before, after, policy),
    ensures
        cone_inv(cells, widths, boundary, after, emitted.insert(index)),
        forall|name: Seq<char>| #[trigger]
            before.producers.contains_key(name) ==> after.producers.contains_key(name) && after.producers[name]
                == before.producers[name],
{
    let cell = cells[index];
    let names = bit_texts(cell.outputs[0].net, widths[cell.outputs[0].net]);
    let count = produced_count(cell, widths);
    emitted_is_ready(cell, widths, before.producers, target, policy);
    assert forall|name: Seq<char>| true implies drives(cell, widths, name) == #[trigger] names.take(
        count as int,
    ).contains(name) by {
        drives_names(cell, widths, name);
    }
    assert forall|name: Seq<char>| !drives(cell, widths, name) implies #[trigger] after.producers.contains_key(name)
        == before.producers.contains_key(name) && after.producers[name] == before.producers[name] by {
        assert(!names.take(count as int).contains(name));
    }
    assert forall|name: Seq<char>| drives(cell, widths, name) implies #[trigger] after.producers.contains_key(name) by {
        assert(names.take(count as int).contains(name));
        let bit = choose|bit: int| 0 <= bit < count && names.take(count as int)[bit] == name;
        assert(names[bit] == name);
    }
    assert forall|name: Seq<char>| #[trigger] before.producers.contains_key(name) implies !drives(cell, widths, name) by {
        if !boundary(name) {
            let i = choose|i: int| emitted.contains(i) && #[trigger] drives(cells[i], widths, name);
            assert(i != index);
        }
    }
    assert forall|name: Seq<char>| #[trigger] before.producers.contains_key(name) implies after.producers.contains_key(name)
        && after.producers[name] == before.producers[name] by {
        assert(!drives(cell, widths, name));
        assert(after.producers.contains_key(name) == before.producers.contains_key(name));
    }
    assert forall|name: Seq<char>| #[trigger] after.producers.contains_key(name) implies {
        ||| boundary(name) && after.nodes[after.producers[name] as int].kind == KindView::Input(name)
        ||| exists|i: int| emitted.insert(index).contains(i) && #[trigger] drives(cells[i], widths, name)
    } by {
        if drives(cell, widths, name) {
            assert(emitted.insert(index).contains(index));
        } else {
            assert(before.producers.contains_key(name));
            assert(before.producers[name] < before.nodes.len());
            if !(boundary(name) && before.nodes[before.producers[name] as int].kind == KindView::Input(name)) {
                let i = choose|i: int| emitted.contains(i) && #[trigger] drives(cells[i], widths, name);
                assert(emitted.insert(index).contains(i));
            }
        }
    }
    assert forall|i: int| #[trigger] emitted.insert(index).contains(i) implies {
        &&& 0 <= i < cells.len()
        &&& is_expandable(cells[i], widths)
        &&& pins_ready(cells[i], widths, after.producers)
        &&& cell_holds(cells[i], widths, after)
    } by {
        let other = cells[i];
        assert(pins_ready(other, widths, before.producers)) by {
            if i != index {
                assert(emitted.contains(i));
            }
        }
        ready_stays(other, widths, before.producers, after.producers);
        assert(pins_agree(other, widths, before.producers, after.producers)) by {
            assert forall|place: int, bit: nat, name: Seq<char>|
                0 <= place < cell_pins(other.kind).len() && #[trigger] reads_name(
                    other,
                    cell_pins(other.kind)[place],
                    widths,
                    bit,
                    name,
                ) implies before.producers[name] == after.producers[name] by {
                ready_reads(other, widths, before.producers, place, bit, name);
                assert(!drives(cell, widths, name));
                assert(after.producers.contains_key(name) == before.producers.contains_key(name));
            }
        }
        let own = bit_texts(other.outputs[0].net, widths[other.outputs[0].net]);
        let own_count = produced_count(other, widths);
        if i != index {
            assert(emitted.contains(i));
            assert(cell_holds(other, widths, before));
        }
        assert forall|bit: int| 0 <= bit < own_count implies after.producers.contains_key(#[trigger] own[bit]) by {
            if i != index {
                assert(before.producers.contains_key(own[bit]));
            }
        }
        assert forall|env: spec_fn(Seq<char>) -> bool, v: Valuation, bit: int|
            #![trigger consistent(after.nodes, env, v), own[bit]]
            0 <= bit < own_count && consistent(after.nodes, env, v) implies v(after.producers[own[bit]] as int)
            == cell_value(other, widths, after.producers, v, bit) by {
            cell_value_agrees(other, widths, before.producers, after.producers, v, bit);
            if i != index {
                consistent_prefix(before.nodes, after.nodes, env, v);
                assert(before.producers.contains_key(own[bit]));
                assert(after.producers.contains_key(own[bit]));
                assert(after.producers[own[bit]] == before.producers[own[bit]]);
            }
        }
    }
}

/// Adding constants keeps the meaning of the cone.
pub proof fn growth_keeps_cone(
    cells: Seq<CellView>,
    widths: Map<Seq<char>, usize>,
    boundary: spec_fn(Seq<char>) -> bool,
    before: BuilderView,
    after: BuilderView,
    emitted: Set<int>,
)
    requires
        builder_wf(before),
        cone_inv(cells, widths, boundary, before, emitted),
        extends_nodes(before.nodes, after.nodes),
        after.producers == before.producers,
    ensures
        cone_inv(cells, widths, boundary, after, emitted),
{
    assert forall|i: int| #[trigger] emitted.contains(i) implies cell_holds(cells[i], widths, after) by {
        let own = bit_texts(cells[i].outputs[0].net, widths[cells[i].outputs[0].net]);
        assert(cell_holds(cells[i], widths, before));
        assert forall|env: spec_fn(Seq<char>) -> bool, v: Valuation, bit: int|
            #![trigger consistent(after.nodes, env, v), own[bit]]
            0 <= bit < produced_count(cells[i], widths) && consistent(after.nodes, env, v) implies v(
            after.producers[own[bit]] as int,
        ) == cell_value(cells[i], widths, after.producers, v, bit) by {
            consistent_prefix(before.nodes, after.nodes, env, v);
        }
    }
}

/// Declaring a boundary input keeps the meaning of the cone.
pub proof fn input_keeps_cone(
    cells: Seq<CellView>,
    widths: Map<Seq<char>, usize>,
    boundary: spec_fn(Seq<char>) -> bool,
    before: BuilderView,
    after: BuilderView,
    emitted: Set<int>,
    name: Seq<char>,
)
    requires
        builder_wf(before),
        cone_inv(cells, widths, boundary, before, emitted),
        boundary(name),
        !before.producers.contains_key(name),
        extends_nodes(before.nodes, after.nodes),
        after.nodes.len() == before.nodes.len() + 1,
        after.nodes.last().kind == KindView::Input(name),
        after.producers == before.producers.insert(name, before.nodes.len() as usize),
        before.nodes.len() < usize::MAX,
    ensures
        cone_inv(cells, widths, boundary, after, emitted),
{
    assert forall|other: Seq<char>| #[trigger] after.producers.contains_key(other) implies {
        ||| boundary(other) && after.nodes[after.producers[other] as int].kind == KindView::Input(other)
        ||| exists|i: int| emitted.contains(i) && #[trigger] drives(cells[i], widths, other)
    } by {
        if other != name {
            assert(before.producers.contains_key(other));
            assert(before.producers[other] < before.nodes.len());
        }
    }
    assert forall|i: int| #[trigger] emitted.contains(i) implies pins_ready(cells[i], widths, after.producers)
        && cell_holds(cells[i], widths, after) by {
        let cell = cells[i];
        ready_stays(cell, widths, before.producers, after.producers);
        assert(cell_holds(cell, widths, before));
        assert(pins_agree(cell, widths, before.producers, after.producers)) by {
            assert forall|place: int, bit: nat, read: Seq<char>|
                0 <= place < cell_pins(cell.kind).len() && #[trigger] reads_name(
                    cell,
                    cell_pins(cell.kind)[place],
                    widths,
                    bit,
                    read,
                ) implies before.producers[read] == after.producers[read] by {
                ready_reads(cell, widths, before.producers, place, bit, read);
            }
        }
        let own = bit_texts(cell.outputs[0].net, widths[cell.outputs[0].net]);
        assert forall|bit: int| 0 <= bit < produced_count(cell, widths) implies after.producers.contains_key(
            #[trigger] own[bit],
        ) by {
            assert(before.producers.contains_key(own[bit]));
        }
        assert forall|env: spec_fn(Seq<char>) -> bool, v: Valuation, bit: int|
            #![trigger consistent(after.nodes, env, v), own[bit]]
            0 <= bit < produced_count(cell, widths) && consistent(after.nodes, env, v) implies v(
            after.producers[own[bit]] as int,
        ) == cell_value(cell, widths, after.producers, v, bit) by {
            consistent_prefix(before.nodes, after.nodes, env, v);
            cell_value_agrees(cell, widths, before.producers, after.producers, v, bit);
            assert(before.producers.contains_key(own[bit]));
        }
    }
}

} // verus!
