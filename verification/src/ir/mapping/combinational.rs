//! Scalar expansion of combinational logical cells.
//!
//! Every function here adds gates to a [`LeafBuilder`]. What a gate computes is
//! stated over valuations of the builder's nodes that are consistent with all
//! of its gates.

use super::error::{ErrorView, LowerError};
use super::scalar::{
    bit_texts, builder_wf, extends_nodes, is_one, is_zero, scalar_text, scalar_text_injective, BuilderView, LeafBuilder,
    ScalarNets,
};
use crate::graph::{consistent, node_holds, values_at, KindView, NodeView};
use crate::ir::logical::{pin_value, CellView, LogicalCell, LogicalCellKind, LogicalValue, ValueView};
use crate::ir::target::{MappingPolicy, TargetOp, TargetSpec, TargetView, XorMapping};
use crate::logic::{logic_value, logic_value_of_pair, LogicType};
use crate::text::texts;
use vstd::prelude::*;

verus! {

/// A value for each node of a builder.
pub type Valuation = spec_fn(int) -> bool;

/// Whether a node is one that cell expansion may add.
pub open spec fn is_allowed_node(node: NodeView, policy: MappingPolicy) -> bool {
    match node.kind {
        KindView::Constant(value) => value,
        KindView::Logic(op) => op == LogicType::Xor ==> policy.xor == XorMapping::Direct,
        _ => false,
    }
}

/// `after` is `before` with allowed nodes added and the same outputs.
pub open spec fn grown(before: BuilderView, after: BuilderView, policy: MappingPolicy) -> bool {
    &&& extends_nodes(before.nodes, after.nodes)
    &&& after.outputs == before.outputs
    &&& forall|i: int|
        before.nodes.len() <= i < after.nodes.len() ==> is_allowed_node(#[trigger] after.nodes[i], policy)
}

/// What is consistent with more nodes is consistent with fewer.
pub proof fn consistent_prefix(
    earlier: Seq<NodeView>,
    later: Seq<NodeView>,
    env: spec_fn(Seq<char>) -> bool,
    valuation: Valuation,
)
    requires
        extends_nodes(earlier, later),
        consistent(later, env, valuation),
    ensures
        consistent(earlier, env, valuation),
{
    assert forall|id: int| 0 <= id < earlier.len() implies node_holds(
        #[trigger] earlier[id],
        id,
        env,
        valuation,
    ) by {
        assert(later[id] == earlier[id]);
    }
}

/// In every consistent valuation, constant one is true and zero is false.
pub proof fn constant_values(
    nodes: Seq<NodeView>,
    id: int,
    env: spec_fn(Seq<char>) -> bool,
    valuation: Valuation,
)
    requires
        consistent(nodes, env, valuation),
    ensures
        is_one(nodes, id) ==> valuation(id),
        is_zero(nodes, id) ==> !valuation(id),
{
    if is_one(nodes, id) {
        assert(node_holds(nodes[id], id, env, valuation));
    }
    if is_zero(nodes, id) {
        let one = nodes[id].inputs[0] as int;
        assert(node_holds(nodes[one], one, env, valuation));
        assert(node_holds(nodes[id], id, env, valuation));
        assert(values_at(valuation, nodes[id].inputs) =~= seq![true]);
        logic_value_of_pair(true, true);
    }
}

/// What a gate of two inputs computes.
pub open spec fn gate_value(op: LogicType, left: bool, right: bool) -> bool {
    match op {
        LogicType::Not => !left,
        LogicType::And => left && right,
        LogicType::Or => left || right,
        LogicType::Xor => left != right,
    }
}

/// Adds a gate of two inputs.
fn gate(builder: &mut LeafBuilder, op: LogicType, left: usize, right: usize, tag: &str, policy: &MappingPolicy) -> (node: usize)
    requires
        old(builder).wf(),
        left < old(builder)@.nodes.len(),
        right < old(builder)@.nodes.len(),
        op == LogicType::Xor ==> policy.xor == XorMapping::Direct,
    ensures
        final(builder).wf(),
        grown(old(builder)@, final(builder)@, *policy),
        final(builder)@.producers == old(builder)@.producers,
        node < final(builder)@.nodes.len(),
        forall|env: spec_fn(Seq<char>) -> bool, v: Valuation| #[trigger]
            consistent(final(builder)@.nodes, env, v) ==> v(node as int) == gate_value(
                op,
                v(left as int),
                v(right as int),
            ),
{
    let inputs = vec![left, right];
    let node: usize = builder.add_logic(op, inputs, tag);
    proof {
        assert forall|env: spec_fn(Seq<char>) -> bool, v: Valuation| #[trigger]
            consistent(builder@.nodes, env, v) implies v(node as int) == gate_value(
            op,
            v(left as int),
            v(right as int),
        ) by {
            assert(node_holds(builder@.nodes[node as int], node as int, env, v));
            assert(values_at(v, inputs@) =~= seq![v(left as int), v(right as int)]);
            logic_value_of_pair(v(left as int), v(right as int));
            assert(logic_value(LogicType::Not, values_at(v, inputs@)) == !v(left as int));
        }
    }
    node
}

/// Adds an inverter.
fn inverter(builder: &mut LeafBuilder, input: usize, tag: &str, policy: &MappingPolicy) -> (node: usize)
    requires
        old(builder).wf(),
        input < old(builder)@.nodes.len(),
    ensures
        final(builder).wf(),
        grown(old(builder)@, final(builder)@, *policy),
        final(builder)@.producers == old(builder)@.producers,
        node < final(builder)@.nodes.len(),
        forall|env: spec_fn(Seq<char>) -> bool, v: Valuation| #[trigger]
            consistent(final(builder)@.nodes, env, v) ==> v(node as int) == !v(input as int),
{
    let inputs = vec![input];
    let node: usize = builder.add_logic(LogicType::Not, inputs, tag);
    proof {
        assert forall|env: spec_fn(Seq<char>) -> bool, v: Valuation| #[trigger]
            consistent(builder@.nodes, env, v) implies v(node as int) == !v(input as int) by {
            assert(node_holds(builder@.nodes[node as int], node as int, env, v));
            assert(values_at(v, inputs@) =~= seq![v(input as int)]);
            logic_value_of_pair(v(input as int), true);
        }
    }
    node
}

/// Whether a cell can be expanded: it can, it waits for a net that has no
/// producer yet, or it is refused.
pub enum Outcome {
    Emit,
    Wait,
    Fail(ErrorView),
}

/// The first of two checks that does not pass.
pub open spec fn both(first: Outcome, second: Outcome) -> Outcome {
    if first is Emit {
        second
    } else {
        first
    }
}

/// Whether the target has an operation.
pub open spec fn op_check(target: TargetView, op: TargetOp) -> Outcome {
    if target.ops.contains(op) {
        Outcome::Emit
    } else {
        Outcome::Fail(ErrorView::Unsupported(target.name, op))
    }
}

/// Whether the target has what an exclusive or is made of.
pub open spec fn xor_check(target: TargetView, policy: MappingPolicy) -> Outcome {
    match policy.xor {
        XorMapping::Direct => op_check(target, TargetOp::Xor),
        XorMapping::AndOrNot => both(
            op_check(target, TargetOp::Not),
            both(op_check(target, TargetOp::And), op_check(target, TargetOp::Or)),
        ),
    }
}

/// Whether every bit that feeds a pin has a producer.
pub open spec fn pin_check(
    cell: CellView,
    pin: Seq<char>,
    widths: Map<Seq<char>, usize>,
    producers: Map<Seq<char>, usize>,
) -> Outcome {
    match pin_value(cell.inputs, pin) {
        None => Outcome::Fail(ErrorView::MissingInput(cell.name, pin)),
        Some(ValueView::Net(net)) => if !widths.contains_key(net) {
            Outcome::Fail(ErrorView::UnknownNet(net))
        } else if forall|bit: nat|
            bit < widths[net] ==> producers.contains_key(#[trigger] scalar_text(net, widths[net], bit)) {
            Outcome::Emit
        } else {
            Outcome::Wait
        },
        Some(ValueView::Slice(net, bit)) => if !widths.contains_key(net) {
            Outcome::Fail(ErrorView::UnknownNet(net))
        } else if bit >= widths[net] {
            Outcome::Fail(ErrorView::BitOutOfRange(net, bit, widths[net]))
        } else if producers.contains_key(scalar_text(net, widths[net], bit as nat)) {
            Outcome::Emit
        } else {
            Outcome::Wait
        },
        Some(ValueView::Constant(_, _)) => Outcome::Emit,
    }
}

/// How many bits feed a pin; a constant has as many as are asked for.
pub open spec fn pin_len(
    cell: CellView,
    pin: Seq<char>,
    widths: Map<Seq<char>, usize>,
    expected: nat,
) -> nat {
    match pin_value(cell.inputs, pin) {
        Some(ValueView::Net(net)) => widths[net] as nat,
        Some(ValueView::Slice(_, _)) => 1,
        _ => expected,
    }
}

/// One bit of a constant; bits beyond its width are zero.
pub open spec fn constant_bit(value: u128, width: usize, bit: int) -> bool {
    bit < width && (value >> (bit as u128)) & 1 == 1
}

/// The value of one bit that feeds a pin.
pub open spec fn pin_bit(
    cell: CellView,
    pin: Seq<char>,
    widths: Map<Seq<char>, usize>,
    producers: Map<Seq<char>, usize>,
    bit: int,
    v: Valuation,
) -> bool {
    match pin_value(cell.inputs, pin) {
        Some(ValueView::Net(net)) => v(producers[scalar_text(net, widths[net], bit as nat)] as int),
        Some(ValueView::Slice(net, bit)) => v(producers[scalar_text(net, widths[net], bit as nat)] as int),
        Some(ValueView::Constant(value, width)) => constant_bit(value, width, bit),
        None => false,
    }
}

/// Whether the shift that reads a constant stays within its 128 bits.
pub open spec fn constant_fits(cell: CellView, pin: Seq<char>, expected: nat) -> bool {
    match pin_value(cell.inputs, pin) {
        Some(ValueView::Constant(_, width)) => width <= 128 || expected <= 128,
        _ => true,
    }
}

/// Nodes that carry the bits of a pin.
pub open spec fn carries_pin(
    nodes: Seq<usize>,
    cell: CellView,
    pin: Seq<char>,
    widths: Map<Seq<char>, usize>,
    before: BuilderView,
    after: BuilderView,
) -> bool {
    &&& forall|bit: int| 0 <= bit < nodes.len() ==> (#[trigger] nodes[bit]) < after.nodes.len()
    &&& forall|env: spec_fn(Seq<char>) -> bool, v: Valuation, bit: int|
        #![trigger consistent(after.nodes, env, v), nodes[bit]]
        0 <= bit < nodes.len() && consistent(after.nodes, env, v) ==> v(nodes[bit] as int) == pin_bit(
            cell,
            pin,
            widths,
            before.producers,
            bit,
            v,
        )
}

/// Resolves one input pin to the nodes that produce its bits.
///
/// Returns `Ok(None)` when a net bit has no producer yet. Constants become
/// nodes of their own, zero-extended to `expected_width`.
fn input_nodes(
    cell: &LogicalCell,
    pin: &str,
    expected_width: usize,
    nets: &ScalarNets,
    builder: &mut LeafBuilder,
    policy: &MappingPolicy,
) -> (result: Result<Option<Vec<usize>>, LowerError>)
    requires
        old(builder).wf(),
        constant_fits(cell@, pin@, expected_width as nat),
    ensures
        final(builder).wf(),
        grown(old(builder)@, final(builder)@, *policy),
        final(builder)@.producers == old(builder)@.producers,
        match result {
            Ok(Some(nodes)) => {
                &&& pin_check(cell@, pin@, nets@, old(builder)@.producers) is Emit
                &&& nodes.len() == pin_len(cell@, pin@, nets@, expected_width as nat)
                &&& carries_pin(nodes@, cell@, pin@, nets@, old(builder)@, final(builder)@)
            },
            Ok(None) => pin_check(cell@, pin@, nets@, old(builder)@.producers) is Wait,
            Err(error) => pin_check(cell@, pin@, nets@, old(builder)@.producers) == Outcome::Fail(error@),
        },
{
    proof {
        builder.wf_gives();
    }
    match cell.input_value(pin) {
        None => Err(LowerError::MissingInput { cell: cell.name.clone(), pin: pin.to_owned() }),
        Some(LogicalValue::Net { net }) => {
            let names = match nets.bits(net.as_str()) {
                Ok(names) => names,
                Err(error) => return Err(error),
            };
            let ghost width = nets@[net@];
            let mut nodes: Vec<usize> = Vec::new();
            assert(names.len() == width) by {
                assert(texts(names@).len() == bit_texts(net@, width).len());
            }
            for bit in 0..names.len()
                invariant
                    names.len() == width,
                    builder.wf(),
                    builder@ == old(builder)@,
                    builder_wf(builder@),
                    texts(names@) == bit_texts(net@, width),
                    nets@.contains_key(net@),
                    width == nets@[net@],
                    pin_value(cell@.inputs, pin@) == Some(ValueView::Net(net@)),
                    nodes.len() == bit,
                    forall|i: nat|
                        i < bit ==> builder@.producers.contains_key(#[trigger] scalar_text(net@, width, i)),
                    forall|i: int|
                        0 <= i < bit ==> (#[trigger] nodes@[i]) == builder@.producers[scalar_text(
                            net@,
                            width,
                            i as nat,
                        )] && nodes@[i] < builder@.nodes.len(),
            {
                assert(texts(names@)[bit as int] == names[bit as int]@);
                assert(bit_texts(net@, width)[bit as int] == scalar_text(net@, width, bit as nat));
                match builder.producer(names[bit].as_str()) {
                    Some(node) => nodes.push(node),
                    None => {
                        assert(!builder@.producers.contains_key(scalar_text(net@, width, bit as nat)));
                        return Ok(None);
                    },
                }
            }
            Ok(Some(nodes))
        },
        Some(LogicalValue::Slice { net, bit }) => {
            let name = match nets.scalar(net.as_str(), *bit) {
                Ok(name) => name,
                Err(error) => return Err(error),
            };
            match builder.producer(name.as_str()) {
                Some(node) => Ok(Some(vec![node])),
                None => Ok(None),
            }
        },
        Some(LogicalValue::Constant { value, width }) => {
            let mut nodes: Vec<usize> = Vec::new();
            for bit in 0..expected_width
                invariant
                    builder.wf(),
                    grown(old(builder)@, builder@, *policy),
                    builder@.producers == old(builder)@.producers,
                    *width <= 128 || expected_width <= 128,
                    nodes.len() == bit,
                    forall|i: int| 0 <= i < bit ==> (#[trigger] nodes@[i]) < builder@.nodes.len(),
                    forall|i: int|
                        0 <= i < bit ==> if constant_bit(*value, *width, i) {
                            is_one(builder@.nodes, (#[trigger] nodes@[i]) as int)
                        } else {
                            is_zero(builder@.nodes, nodes@[i] as int)
                        },
            {
                let bit_value = bit < *width && (*value >> (bit as u128)) & 1 == 1;
                let ghost before = builder@;
                let node: usize = builder.constant(bit_value);
                proof {
                    assert forall|i: int| before.nodes.len() <= i < builder@.nodes.len() implies is_allowed_node(
                        #[trigger] builder@.nodes[i],
                        *policy,
                    ) by {
                        assert(is_one(builder@.nodes, i) || is_zero(builder@.nodes, i));
                    }
                }
                nodes.push(node);
            }
            proof {
                assert forall|env: spec_fn(Seq<char>) -> bool, v: Valuation, bit: int|
                    #![trigger consistent(builder@.nodes, env, v), nodes@[bit]]
                    0 <= bit < nodes@.len() && consistent(builder@.nodes, env, v) implies v(nodes@[bit] as int)
                    == constant_bit(*value, *width, bit) by {
                    constant_values(builder@.nodes, nodes@[bit] as int, env, v);
                }
            }
            Ok(Some(nodes))
        },
    }
}

/// Adds an exclusive or of two nodes according to the mapping policy.
pub fn emit_xor(
    builder: &mut LeafBuilder,
    lhs: usize,
    rhs: usize,
    tag: &str,
    target: &TargetSpec,
    policy: &MappingPolicy,
) -> (result: Result<usize, LowerError>)
    requires
        old(builder).wf(),
        lhs < old(builder)@.nodes.len(),
        rhs < old(builder)@.nodes.len(),
    ensures
        final(builder).wf(),
        grown(old(builder)@, final(builder)@, *policy),
        final(builder)@.producers == old(builder)@.producers,
        match result {
            Ok(node) => {
                &&& xor_check(target@, *policy) is Emit
                &&& node < final(builder)@.nodes.len()
                &&& forall|env: spec_fn(Seq<char>) -> bool, v: Valuation| #[trigger]
                    consistent(final(builder)@.nodes, env, v) ==> v(node as int) == (v(lhs as int) != v(rhs as int))
            },
            Err(error) => xor_check(target@, *policy) == Outcome::Fail(error@) && final(builder)@ == old(builder)@,
        },
{
    match policy.xor {
        XorMapping::Direct => {
            if let Err(error) = target.require(TargetOp::Xor) {
                return Err(LowerError::Unsupported(error));
            }
            Ok(gate(builder, LogicType::Xor, lhs, rhs, tag, policy))
        },
        XorMapping::AndOrNot => {
            if let Err(error) = target.require(TargetOp::Not) {
                return Err(LowerError::Unsupported(error));
            }
            if let Err(error) = target.require(TargetOp::And) {
                return Err(LowerError::Unsupported(error));
            }
            if let Err(error) = target.require(TargetOp::Or) {
                return Err(LowerError::Unsupported(error));
            }
            let product: usize = gate(builder, LogicType::And, lhs, rhs, tag, policy);
            let ghost with_product = builder@;
            let either: usize = gate(builder, LogicType::Or, lhs, rhs, tag, policy);
            let ghost with_either = builder@;
            let not_product: usize = inverter(builder, product, tag, policy);
            let ghost with_inverse = builder@;
            let node: usize = gate(builder, LogicType::And, either, not_product, tag, policy);
            proof {
                assert forall|env: spec_fn(Seq<char>) -> bool, v: Valuation| #[trigger]
                    consistent(builder@.nodes, env, v) implies v(node as int) == (v(lhs as int) != v(rhs as int)) by {
                    consistent_prefix(with_inverse.nodes, builder@.nodes, env, v);
                    consistent_prefix(with_either.nodes, with_inverse.nodes, env, v);
                    consistent_prefix(with_product.nodes, with_either.nodes, env, v);
                }
            }
            Ok(node)
        },
    }
}

/// The first `count` of `names` are produced in `after`, with the values that
/// `value` gives; every other name is as in `before`.
pub open spec fn bits_produced(
    before: BuilderView,
    after: BuilderView,
    names: Seq<Seq<char>>,
    count: nat,
    value: spec_fn(Valuation, int) -> bool,
) -> bool {
    &&& forall|name: Seq<char>|
        !names.take(count as int).contains(name) ==> {
            &&& #[trigger] after.producers.contains_key(name) == before.producers.contains_key(name)
            &&& after.producers[name] == before.producers[name]
        }
    &&& forall|bit: int|
        0 <= bit < count ==> after.producers.contains_key(#[trigger] names[bit]) && after.producers[names[bit]]
            < after.nodes.len()
    &&& forall|env: spec_fn(Seq<char>) -> bool, v: Valuation, bit: int|
        #![trigger consistent(after.nodes, env, v), names[bit]]
        0 <= bit < count && consistent(after.nodes, env, v) ==> v(after.producers[names[bit]] as int) == value(
            v,
            bit,
        )
}

/// Names that differ pairwise.
pub open spec fn all_distinct(names: Seq<Seq<char>>) -> bool {
    forall|i: int, j: int| 0 <= i < j < names.len() ==> names[i] != names[j]
}

/// The bits of one net have different names.
pub proof fn bit_texts_distinct(net: Seq<char>, width: usize)
    ensures
        all_distinct(bit_texts(net, width)),
{
    let names = bit_texts(net, width);
    assert forall|i: int, j: int| 0 <= i < j < names.len() implies names[i] != names[j] by {
        if names[i] == names[j] {
            scalar_text_injective(net, width, i as nat, j as nat);
        }
    }
}

/// Producing no bit changes nothing.
proof fn produce_none(before: BuilderView, names: Seq<Seq<char>>, value: spec_fn(Valuation, int) -> bool)
    ensures
        bits_produced(before, before, names, 0, value),
{
}

/// One more bit is produced.
proof fn produce_next(
    before: BuilderView,
    middle: BuilderView,
    after: BuilderView,
    names: Seq<Seq<char>>,
    count: nat,
    node: usize,
    value: spec_fn(Valuation, int) -> bool,
)
    requires
        bits_produced(before, middle, names, count, value),
        count < names.len(),
        all_distinct(names),
        extends_nodes(middle.nodes, after.nodes),
        after.producers == middle.producers.insert(names[count as int], node),
        node < after.nodes.len(),
        forall|env: spec_fn(Seq<char>) -> bool, v: Valuation| #[trigger]
            consistent(after.nodes, env, v) ==> v(node as int) == value(v, count as int),
    ensures
        bits_produced(before, after, names, count + 1, value),
{
    let longer = names.take((count + 1) as int);
    assert(longer =~= names.take(count as int).push(names[count as int]));
    assert forall|name: Seq<char>| !longer.contains(name) implies {
        &&& #[trigger] after.producers.contains_key(name) == before.producers.contains_key(name)
        &&& after.producers[name] == before.producers[name]
    } by {
        assert(longer[count as int] == names[count as int]);
        if names.take(count as int).contains(name) {
            let place = choose|i: int| 0 <= i < count && names.take(count as int)[i] == name;
            assert(longer[place] == name);
        }
        assert(middle.producers.contains_key(name) == before.producers.contains_key(name));
    }
    assert forall|env: spec_fn(Seq<char>) -> bool, v: Valuation, bit: int|
        #![trigger consistent(after.nodes, env, v), names[bit]]
        0 <= bit < count + 1 && consistent(after.nodes, env, v) implies v(after.producers[names[bit]] as int)
        == value(v, bit) by {
        consistent_prefix(middle.nodes, after.nodes, env, v);
        if bit < count {
            assert(names[bit] != names[count as int]);
            assert(middle.producers.contains_key(names[bit]));
        }
    }
}

/// Connects each bit to an existing node.
fn emit_wires(builder: &mut LeafBuilder, values: &Vec<usize>, out_bits: &Vec<String>)
    requires
        old(builder).wf(),
        values.len() <= out_bits.len(),
        all_distinct(texts(out_bits@)),
        forall|i: int| 0 <= i < values.len() ==> (#[trigger] values@[i]) < old(builder)@.nodes.len(),
    ensures
        final(builder).wf(),
        final(builder)@.nodes == old(builder)@.nodes,
        final(builder)@.outputs == old(builder)@.outputs,
        bits_produced(
            old(builder)@,
            final(builder)@,
            texts(out_bits@),
            values.len() as nat,
            |v: Valuation, bit: int| v(values@[bit] as int),
        ),
{
    let ghost value = |v: Valuation, bit: int| v(values@[bit] as int);
    proof {
        produce_none(builder@, texts(out_bits@), value);
    }
    for bit in 0..values.len()
        invariant
            builder.wf(),
            builder@.nodes == old(builder)@.nodes,
            builder@.outputs == old(builder)@.outputs,
            values.len() <= out_bits.len(),
            all_distinct(texts(out_bits@)),
            forall|i: int| 0 <= i < values.len() ==> (#[trigger] values@[i]) < old(builder)@.nodes.len(),
            value == (|v: Valuation, bit: int| v(values@[bit] as int)),
            bits_produced(old(builder)@, builder@, texts(out_bits@), bit as nat, value),
    {
        let ghost middle = builder@;
        let node: usize = values[bit];
        builder.set_producer(out_bits[bit].as_str(), node);
        proof {
            assert(texts(out_bits@)[bit as int] == out_bits[bit as int]@);
            produce_next(old(builder)@, middle, builder@, texts(out_bits@), bit as nat, node, value);
        }
    }
}

/// Inverts each bit.
fn emit_inverters(
    builder: &mut LeafBuilder,
    values: &Vec<usize>,
    out_bits: &Vec<String>,
    tag: &str,
    policy: &MappingPolicy,
)
    requires
        old(builder).wf(),
        values.len() <= out_bits.len(),
        all_distinct(texts(out_bits@)),
        forall|i: int| 0 <= i < values.len() ==> (#[trigger] values@[i]) < old(builder)@.nodes.len(),
    ensures
        final(builder).wf(),
        grown(old(builder)@, final(builder)@, *policy),
        bits_produced(
            old(builder)@,
            final(builder)@,
            texts(out_bits@),
            values.len() as nat,
            |v: Valuation, bit: int| !v(values@[bit] as int),
        ),
{
    let ghost value = |v: Valuation, bit: int| !v(values@[bit] as int);
    proof {
        produce_none(builder@, texts(out_bits@), value);
    }
    for bit in 0..values.len()
        invariant
            builder.wf(),
            grown(old(builder)@, builder@, *policy),
            values.len() <= out_bits.len(),
            all_distinct(texts(out_bits@)),
            forall|i: int| 0 <= i < values.len() ==> (#[trigger] values@[i]) < old(builder)@.nodes.len(),
            value == (|v: Valuation, bit: int| !v(values@[bit] as int)),
            bits_produced(old(builder)@, builder@, texts(out_bits@), bit as nat, value),
    {
        let ghost middle = builder@;
        let node: usize = inverter(builder, values[bit], tag, policy);
        builder.set_producer(out_bits[bit].as_str(), node);
        proof {
            assert(texts(out_bits@)[bit as int] == out_bits[bit as int]@);
            produce_next(old(builder)@, middle, builder@, texts(out_bits@), bit as nat, node, value);
        }
    }
}

/// Combines each pair of bits by one gate.
fn emit_gates(
    builder: &mut LeafBuilder,
    op: LogicType,
    lhs: &Vec<usize>,
    rhs: &Vec<usize>,
    out_bits: &Vec<String>,
    tag: &str,
    policy: &MappingPolicy,
)
    requires
        old(builder).wf(),
        out_bits.len() <= lhs.len(),
        out_bits.len() <= rhs.len(),
        op == LogicType::And || op == LogicType::Or,
        all_distinct(texts(out_bits@)),
        forall|i: int| 0 <= i < lhs.len() ==> (#[trigger] lhs@[i]) < old(builder)@.nodes.len(),
        forall|i: int| 0 <= i < rhs.len() ==> (#[trigger] rhs@[i]) < old(builder)@.nodes.len(),
    ensures
        final(builder).wf(),
        grown(old(builder)@, final(builder)@, *policy),
        bits_produced(
            old(builder)@,
            final(builder)@,
            texts(out_bits@),
            out_bits.len() as nat,
            |v: Valuation, bit: int| gate_value(op, v(lhs@[bit] as int), v(rhs@[bit] as int)),
        ),
{
    let ghost value = |v: Valuation, bit: int| gate_value(op, v(lhs@[bit] as int), v(rhs@[bit] as int));
    proof {
        produce_none(builder@, texts(out_bits@), value);
    }
    for bit in 0..out_bits.len()
        invariant
            builder.wf(),
            grown(old(builder)@, builder@, *policy),
            out_bits.len() <= lhs.len(),
            out_bits.len() <= rhs.len(),
            op == LogicType::And || op == LogicType::Or,
            all_distinct(texts(out_bits@)),
            forall|i: int| 0 <= i < lhs.len() ==> (#[trigger] lhs@[i]) < old(builder)@.nodes.len(),
            forall|i: int| 0 <= i < rhs.len() ==> (#[trigger] rhs@[i]) < old(builder)@.nodes.len(),
            value == (|v: Valuation, bit: int| gate_value(op, v(lhs@[bit] as int), v(rhs@[bit] as int))),
            bits_produced(old(builder)@, builder@, texts(out_bits@), bit as nat, value),
    {
        let ghost middle = builder@;
        let node: usize = gate(builder, op, lhs[bit], rhs[bit], tag, policy);
        builder.set_producer(out_bits[bit].as_str(), node);
        proof {
            assert(texts(out_bits@)[bit as int] == out_bits[bit as int]@);
            produce_next(old(builder)@, middle, builder@, texts(out_bits@), bit as nat, node, value);
        }
    }
}

/// Combines each pair of bits by an exclusive or.
fn emit_xors(
    builder: &mut LeafBuilder,
    lhs: &Vec<usize>,
    rhs: &Vec<usize>,
    out_bits: &Vec<String>,
    tag: &str,
    target: &TargetSpec,
    policy: &MappingPolicy,
) -> (result: Result<(), LowerError>)
    requires
        old(builder).wf(),
        out_bits.len() <= lhs.len(),
        out_bits.len() <= rhs.len(),
        all_distinct(texts(out_bits@)),
        forall|i: int| 0 <= i < lhs.len() ==> (#[trigger] lhs@[i]) < old(builder)@.nodes.len(),
        forall|i: int| 0 <= i < rhs.len() ==> (#[trigger] rhs@[i]) < old(builder)@.nodes.len(),
    ensures
        final(builder).wf(),
        grown(old(builder)@, final(builder)@, *policy),
        match result {
            Ok(_) => {
                &&& out_bits.len() > 0 ==> xor_check(target@, *policy) is Emit
                &&& bits_produced(
                    old(builder)@,
                    final(builder)@,
                    texts(out_bits@),
                    out_bits.len() as nat,
                    |v: Valuation, bit: int| v(lhs@[bit] as int) != v(rhs@[bit] as int),
                )
            },
            Err(error) => out_bits.len() > 0 && xor_check(target@, *policy) == Outcome::Fail(error@),
        },
{
    let ghost value = |v: Valuation, bit: int| v(lhs@[bit] as int) != v(rhs@[bit] as int);
    proof {
        produce_none(builder@, texts(out_bits@), value);
    }
    for bit in 0..out_bits.len()
        invariant
            builder.wf(),
            grown(old(builder)@, builder@, *policy),
            out_bits.len() <= lhs.len(),
            out_bits.len() <= rhs.len(),
            all_distinct(texts(out_bits@)),
            forall|i: int| 0 <= i < lhs.len() ==> (#[trigger] lhs@[i]) < old(builder)@.nodes.len(),
            forall|i: int| 0 <= i < rhs.len() ==> (#[trigger] rhs@[i]) < old(builder)@.nodes.len(),
            value == (|v: Valuation, bit: int| v(lhs@[bit] as int) != v(rhs@[bit] as int)),
            bits_produced(old(builder)@, builder@, texts(out_bits@), bit as nat, value),
            bit > 0 ==> xor_check(target@, *policy) is Emit,
    {
        let ghost middle = builder@;
        let node: usize = match emit_xor(builder, lhs[bit], rhs[bit], tag, target, policy) {
            Ok(node) => node,
            Err(error) => return Err(error),
        };
        builder.set_producer(out_bits[bit].as_str(), node);
        proof {
            assert(texts(out_bits@)[bit as int] == out_bits[bit as int]@);
            produce_next(old(builder)@, middle, builder@, texts(out_bits@), bit as nat, node, value);
        }
    }
    Ok(())
}

/// The carry into bit `bit` of the sum of two numbers given by their bits.
pub open spec fn carry_bit(left: spec_fn(int) -> bool, right: spec_fn(int) -> bool, bit: nat) -> bool
    decreases bit,
{
    if bit == 0 {
        false
    } else {
        let below = (bit - 1) as nat;
        ||| left(below as int) && right(below as int)
        ||| (left(below as int) != right(below as int)) && carry_bit(left, right, below)
    }
}

/// Bit `bit` of the sum of two numbers given by their bits.
pub open spec fn sum_bit(left: spec_fn(int) -> bool, right: spec_fn(int) -> bool, bit: int) -> bool {
    (left(bit) != right(bit)) != carry_bit(left, right, bit as nat)
}

/// Whether all bits below `bit` of a number are set.
pub open spec fn ones_below(value: spec_fn(int) -> bool, bit: nat) -> bool
    decreases bit,
{
    if bit == 0 {
        true
    } else {
        value(bit - 1) && ones_below(value, (bit - 1) as nat)
    }
}

/// Bit `bit` of a number plus one.
pub open spec fn increment_bit(value: spec_fn(int) -> bool, bit: int) -> bool {
    value(bit) != ones_below(value, bit as nat)
}

/// Whether two numbers agree on their first `width` bits.
pub open spec fn bits_equal(left: spec_fn(int) -> bool, right: spec_fn(int) -> bool, width: nat) -> bool
    decreases width,
{
    if width == 0 {
        true
    } else {
        left(width - 1) == right(width - 1) && bits_equal(left, right, (width - 1) as nat)
    }
}

/// The values of a list of nodes.
pub open spec fn bits_of(v: Valuation, nodes: Seq<usize>) -> spec_fn(int) -> bool {
    |bit: int| v(nodes[bit] as int)
}

/// Whether the target has what an adder of `width` bits is made of.
pub open spec fn add_check(target: TargetView, policy: MappingPolicy, width: nat) -> Outcome {
    if width == 0 {
        Outcome::Emit
    } else {
        both(
            xor_check(target, policy),
            both(op_check(target, TargetOp::And), op_check(target, TargetOp::Or)),
        )
    }
}

/// One step of an addition: the bit of the sum, and the carry into the next.
proof fn carry_steps(
    left: spec_fn(int) -> bool,
    right: spec_fn(int) -> bool,
    bit: nat,
    carry: bool,
    sum: bool,
    next: bool,
)
    requires
        carry == carry_bit(left, right, bit),
        sum == ((left(bit as int) != right(bit as int)) != carry),
        next == (left(bit as int) && right(bit as int) || (left(bit as int) != right(bit as int)) && carry),
    ensures
        sum == sum_bit(left, right, bit as int),
        next == carry_bit(left, right, bit + 1),
{
    let below = (bit + 1 - 1) as nat;
    assert(below == bit);
}

/// Ripple-carry addition.
#[verifier::spinoff_prover]
fn emit_add(
    builder: &mut LeafBuilder,
    lhs: &Vec<usize>,
    rhs: &Vec<usize>,
    out_bits: &Vec<String>,
    tag: &str,
    target: &TargetSpec,
    policy: &MappingPolicy,
) -> (result: Result<(), LowerError>)
    requires
        old(builder).wf(),
        out_bits.len() <= lhs.len(),
        out_bits.len() <= rhs.len(),
        all_distinct(texts(out_bits@)),
        forall|i: int| 0 <= i < lhs.len() ==> (#[trigger] lhs@[i]) < old(builder)@.nodes.len(),
        forall|i: int| 0 <= i < rhs.len() ==> (#[trigger] rhs@[i]) < old(builder)@.nodes.len(),
    ensures
        final(builder).wf(),
        grown(old(builder)@, final(builder)@, *policy),
        match result {
            Ok(_) => {
                &&& add_check(target@, *policy, out_bits.len() as nat) is Emit
                &&& bits_produced(
                    old(builder)@,
                    final(builder)@,
                    texts(out_bits@),
                    out_bits.len() as nat,
                    |v: Valuation, bit: int| sum_bit(bits_of(v, lhs@), bits_of(v, rhs@), bit),
                )
            },
            Err(error) => add_check(target@, *policy, out_bits.len() as nat) == Outcome::Fail(error@),
        },
{
    let ghost value = |v: Valuation, bit: int| sum_bit(bits_of(v, lhs@), bits_of(v, rhs@), bit);
    proof {
        produce_none(builder@, texts(out_bits@), value);
    }
    let mut carry: Option<usize> = None;
    for bit in 0..out_bits.len()
        invariant
            builder.wf(),
            grown(old(builder)@, builder@, *policy),
            out_bits.len() <= lhs.len(),
            out_bits.len() <= rhs.len(),
            all_distinct(texts(out_bits@)),
            forall|i: int| 0 <= i < lhs.len() ==> (#[trigger] lhs@[i]) < old(builder)@.nodes.len(),
            forall|i: int| 0 <= i < rhs.len() ==> (#[trigger] rhs@[i]) < old(builder)@.nodes.len(),
            value == (|v: Valuation, bit: int| sum_bit(bits_of(v, lhs@), bits_of(v, rhs@), bit)),
            bits_produced(old(builder)@, builder@, texts(out_bits@), bit as nat, value),
            bit > 0 ==> add_check(target@, *policy, out_bits.len() as nat) is Emit,
            bit > 0 <==> carry is Some,
            carry is Some ==> carry->0 < builder@.nodes.len(),
            forall|env: spec_fn(Seq<char>) -> bool, v: Valuation| #[trigger]
                consistent(builder@.nodes, env, v) && carry is Some ==> v(carry->0 as int) == carry_bit(
                    bits_of(v, lhs@),
                    bits_of(v, rhs@),
                    bit as nat,
                ),
    {
        let ghost middle = builder@;
        let a: usize = lhs[bit];
        let b: usize = rhs[bit];
        let xor: usize = match emit_xor(builder, a, b, tag, target, policy) {
            Ok(node) => node,
            Err(error) => return Err(error),
        };
        let ghost with_xor = builder@;
        let sum: usize = match carry {
            Some(carry) => match emit_xor(builder, xor, carry, tag, target, policy) {
                Ok(node) => node,
                Err(error) => return Err(error),
            },
            None => xor,
        };
        let ghost with_sum = builder@;
        if let Err(error) = target.require(TargetOp::And) {
            return Err(LowerError::Unsupported(error));
        }
        if let Err(error) = target.require(TargetOp::Or) {
            return Err(LowerError::Unsupported(error));
        }
        let product: usize = gate(builder, LogicType::And, a, b, tag, policy);
        let ghost with_product = builder@;
        let ghost mut with_propagate = builder@;
        let ghost mut propagated = 0usize;
        let next_carry: usize = match carry {
            Some(carry) => {
                let propagate: usize = gate(builder, LogicType::And, xor, carry, tag, policy);
                proof {
                    with_propagate = builder@;
                    propagated = propagate;
                }
                gate(builder, LogicType::Or, product, propagate, tag, policy)
            },
            None => product,
        };
        let ghost old_carry = carry;
        carry = Some(next_carry);
        let ghost with_carry = builder@;
        builder.set_producer(out_bits[bit].as_str(), sum);
        proof {
            assert(texts(out_bits@)[bit as int] == out_bits[bit as int]@);
            assert forall|env: spec_fn(Seq<char>) -> bool, v: Valuation| #[trigger]
                consistent(builder@.nodes, env, v) implies v(sum as int) == value(v, bit as int) && v(
                next_carry as int,
            ) == carry_bit(bits_of(v, lhs@), bits_of(v, rhs@), (bit + 1) as nat) by {
                consistent_prefix(with_propagate.nodes, builder@.nodes, env, v);
                consistent_prefix(with_product.nodes, builder@.nodes, env, v);
                consistent_prefix(with_sum.nodes, builder@.nodes, env, v);
                consistent_prefix(with_xor.nodes, builder@.nodes, env, v);
                consistent_prefix(middle.nodes, builder@.nodes, env, v);
                assert(consistent(with_xor.nodes, env, v));
                assert(consistent(with_product.nodes, env, v));
                assert(consistent(middle.nodes, env, v));
                let left = bits_of(v, lhs@);
                let right = bits_of(v, rhs@);
                assert(left(bit as int) == v(a as int) && right(bit as int) == v(b as int));
                assert(v(xor as int) == (v(a as int) != v(b as int)));
                assert(v(product as int) == (v(a as int) && v(b as int)));
                match old_carry {
                    Some(carried) => {
                        assert(consistent(with_sum.nodes, env, v));
                        assert(consistent(with_propagate.nodes, env, v));
                        assert(consistent(with_carry.nodes, env, v));
                        assert(v(carried as int) == carry_bit(left, right, bit as nat));
                        assert(v(sum as int) == (v(xor as int) != v(carried as int)));
                        assert(v(propagated as int) == (v(xor as int) && v(carried as int)));
                        assert(v(next_carry as int) == (v(product as int) || v(propagated as int)));
                        carry_steps(
                            left,
                            right,
                            bit as nat,
                            v(carried as int),
                            v(sum as int),
                            v(next_carry as int),
                        );
                    },
                    None => {
                        assert(bit == 0);
                        assert(sum == xor && next_carry == product);
                        carry_steps(left, right, 0, false, v(sum as int), v(next_carry as int));
                    },
                }
                assert(value(v, bit as int) == sum_bit(left, right, bit as int));
            }
            produce_next(old(builder)@, middle, builder@, texts(out_bits@), bit as nat, sum, value);
        }
    }
    Ok(())
}

/// Whether the target has what an increment of `width` bits is made of.
pub open spec fn increment_check(target: TargetView, policy: MappingPolicy, width: nat) -> Outcome {
    if width == 0 {
        Outcome::Emit
    } else if width == 1 {
        op_check(target, TargetOp::Not)
    } else {
        both(
            op_check(target, TargetOp::Not),
            both(xor_check(target, policy), op_check(target, TargetOp::And)),
        )
    }
}

/// Ripple-carry increment.
fn emit_increment(
    builder: &mut LeafBuilder,
    values: &Vec<usize>,
    out_bits: &Vec<String>,
    tag: &str,
    target: &TargetSpec,
    policy: &MappingPolicy,
) -> (result: Result<(), LowerError>)
    requires
        old(builder).wf(),
        out_bits.len() <= values.len(),
        all_distinct(texts(out_bits@)),
        forall|i: int| 0 <= i < values.len() ==> (#[trigger] values@[i]) < old(builder)@.nodes.len(),
    ensures
        final(builder).wf(),
        grown(old(builder)@, final(builder)@, *policy),
        match result {
            Ok(_) => {
                &&& increment_check(target@, *policy, out_bits.len() as nat) is Emit
                &&& bits_produced(
                    old(builder)@,
                    final(builder)@,
                    texts(out_bits@),
                    out_bits.len() as nat,
                    |v: Valuation, bit: int| increment_bit(bits_of(v, values@), bit),
                )
            },
            Err(error) => increment_check(target@, *policy, out_bits.len() as nat) == Outcome::Fail(error@),
        },
{
    let ghost value = |v: Valuation, bit: int| increment_bit(bits_of(v, values@), bit);
    proof {
        produce_none(builder@, texts(out_bits@), value);
    }
    if out_bits.len() == 0 {
        return Ok(());
    }
    if let Err(error) = target.require(TargetOp::Not) {
        return Err(LowerError::Unsupported(error));
    }
    let first: usize = inverter(builder, values[0], tag, policy);
    let ghost with_first = builder@;
    builder.set_producer(out_bits[0].as_str(), first);
    let mut carry: usize = values[0];
    proof {
        assert(texts(out_bits@)[0] == out_bits[0]@);
        assert forall|env: spec_fn(Seq<char>) -> bool, v: Valuation| #[trigger]
            consistent(builder@.nodes, env, v) implies v(first as int) == value(v, 0) && v(carry as int) == ones_below(
            bits_of(v, values@),
            1,
        ) by {
            reveal_with_fuel(ones_below, 2);
        }
        produce_next(old(builder)@, old(builder)@, builder@, texts(out_bits@), 0, first, value);
    }
    for bit in 1..out_bits.len()
        invariant
            builder.wf(),
            grown(old(builder)@, builder@, *policy),
            1 <= bit <= out_bits.len() <= values.len(),
            all_distinct(texts(out_bits@)),
            forall|i: int| 0 <= i < values.len() ==> (#[trigger] values@[i]) < old(builder)@.nodes.len(),
            value == (|v: Valuation, bit: int| increment_bit(bits_of(v, values@), bit)),
            bits_produced(old(builder)@, builder@, texts(out_bits@), bit as nat, value),
            target@.ops.contains(TargetOp::Not),
            bit > 1 ==> increment_check(target@, *policy, out_bits.len() as nat) is Emit,
            carry < builder@.nodes.len(),
            forall|env: spec_fn(Seq<char>) -> bool, v: Valuation| #[trigger]
                consistent(builder@.nodes, env, v) ==> v(carry as int) == ones_below(bits_of(v, values@), bit as nat),
    {
        let ghost middle = builder@;
        let sum: usize = match emit_xor(builder, values[bit], carry, tag, target, policy) {
            Ok(node) => node,
            Err(error) => return Err(error),
        };
        let ghost with_sum = builder@;
        if let Err(error) = target.require(TargetOp::And) {
            return Err(LowerError::Unsupported(error));
        }
        let next_carry: usize = gate(builder, LogicType::And, values[bit], carry, tag, policy);
        let ghost with_carry = builder@;
        builder.set_producer(out_bits[bit].as_str(), sum);
        proof {
            assert(texts(out_bits@)[bit as int] == out_bits[bit as int]@);
            assert forall|env: spec_fn(Seq<char>) -> bool, v: Valuation| #[trigger]
                consistent(builder@.nodes, env, v) implies v(sum as int) == value(v, bit as int) && v(
                next_carry as int,
            ) == ones_below(bits_of(v, values@), (bit + 1) as nat) by {
                consistent_prefix(with_sum.nodes, builder@.nodes, env, v);
                consistent_prefix(middle.nodes, builder@.nodes, env, v);
            }
            produce_next(old(builder)@, middle, builder@, texts(out_bits@), bit as nat, sum, value);
        }
        carry = next_carry;
    }
    Ok(())
}

/// Chooses between two buses bit by bit.
fn emit_mux(
    builder: &mut LeafBuilder,
    select: usize,
    when_true: &Vec<usize>,
    when_false: &Vec<usize>,
    out_bits: &Vec<String>,
    tag: &str,
    policy: &MappingPolicy,
)
    requires
        old(builder).wf(),
        out_bits.len() <= when_true.len(),
        out_bits.len() <= when_false.len(),
        all_distinct(texts(out_bits@)),
        select < old(builder)@.nodes.len(),
        forall|i: int| 0 <= i < when_true.len() ==> (#[trigger] when_true@[i]) < old(builder)@.nodes.len(),
        forall|i: int| 0 <= i < when_false.len() ==> (#[trigger] when_false@[i]) < old(builder)@.nodes.len(),
    ensures
        final(builder).wf(),
        grown(old(builder)@, final(builder)@, *policy),
        bits_produced(
            old(builder)@,
            final(builder)@,
            texts(out_bits@),
            out_bits.len() as nat,
            |v: Valuation, bit: int|
                if v(select as int) {
                    v(when_true@[bit] as int)
                } else {
                    v(when_false@[bit] as int)
                },
        ),
{
    let ghost value = |v: Valuation, bit: int|
        if v(select as int) {
            v(when_true@[bit] as int)
        } else {
            v(when_false@[bit] as int)
        };
    let not_select: usize = inverter(builder, select, tag, policy);
    for bit in 0..out_bits.len()
        invariant
            builder.wf(),
            grown(old(builder)@, builder@, *policy),
            out_bits.len() <= when_true.len(),
            out_bits.len() <= when_false.len(),
            all_distinct(texts(out_bits@)),
            select < old(builder)@.nodes.len(),
            not_select < builder@.nodes.len(),
            forall|i: int| 0 <= i < when_true.len() ==> (#[trigger] when_true@[i]) < old(builder)@.nodes.len(),
            forall|i: int| 0 <= i < when_false.len() ==> (#[trigger] when_false@[i]) < old(builder)@.nodes.len(),
            value == (|v: Valuation, bit: int|
                if v(select as int) {
                    v(when_true@[bit] as int)
                } else {
                    v(when_false@[bit] as int)
                }),
            bits_produced(old(builder)@, builder@, texts(out_bits@), bit as nat, value),
            forall|env: spec_fn(Seq<char>) -> bool, v: Valuation| #[trigger]
                consistent(builder@.nodes, env, v) ==> v(not_select as int) == !v(select as int),
    {
        let ghost middle = builder@;
        let chosen: usize = gate(builder, LogicType::And, when_true[bit], select, tag, policy);
        let ghost with_chosen = builder@;
        let rejected: usize = gate(builder, LogicType::And, when_false[bit], not_select, tag, policy);
        let ghost with_rejected = builder@;
        let node: usize = gate(builder, LogicType::Or, chosen, rejected, tag, policy);
        builder.set_producer(out_bits[bit].as_str(), node);
        proof {
            assert(texts(out_bits@)[bit as int] == out_bits[bit as int]@);
            assert forall|env: spec_fn(Seq<char>) -> bool, v: Valuation| #[trigger]
                consistent(builder@.nodes, env, v) implies v(node as int) == value(v, bit as int) && v(
                not_select as int,
            ) == !v(select as int) by {
                consistent_prefix(with_rejected.nodes, builder@.nodes, env, v);
                consistent_prefix(with_chosen.nodes, builder@.nodes, env, v);
                consistent_prefix(middle.nodes, builder@.nodes, env, v);
            }
            produce_next(old(builder)@, middle, builder@, texts(out_bits@), bit as nat, node, value);
        }
    }
}

/// Compares two buses; the result is one node.
fn emit_equal(
    builder: &mut LeafBuilder,
    width: usize,
    lhs: &Vec<usize>,
    rhs: &Vec<usize>,
    tag: &str,
    target: &TargetSpec,
    policy: &MappingPolicy,
) -> (result: Result<Option<usize>, LowerError>)
    requires
        old(builder).wf(),
        width <= lhs.len(),
        width <= rhs.len(),
        forall|i: int| 0 <= i < lhs.len() ==> (#[trigger] lhs@[i]) < old(builder)@.nodes.len(),
        forall|i: int| 0 <= i < rhs.len() ==> (#[trigger] rhs@[i]) < old(builder)@.nodes.len(),
    ensures
        final(builder).wf(),
        grown(old(builder)@, final(builder)@, *policy),
        final(builder)@.producers == old(builder)@.producers,
        match result {
            Ok(None) => width == 0,
            Ok(Some(node)) => {
                &&& width > 0 && xor_check(target@, *policy) is Emit
                &&& node < final(builder)@.nodes.len()
                &&& forall|env: spec_fn(Seq<char>) -> bool, v: Valuation| #[trigger]
                    consistent(final(builder)@.nodes, env, v) ==> v(node as int) == bits_equal(
                        bits_of(v, lhs@),
                        bits_of(v, rhs@),
                        width as nat,
                    )
            },
            Err(error) => width > 0 && xor_check(target@, *policy) == Outcome::Fail(error@),
        },
{
    let mut result: Option<usize> = None;
    for bit in 0..width
        invariant
            builder.wf(),
            grown(old(builder)@, builder@, *policy),
            builder@.producers == old(builder)@.producers,
            width <= lhs.len(),
            width <= rhs.len(),
            forall|i: int| 0 <= i < lhs.len() ==> (#[trigger] lhs@[i]) < old(builder)@.nodes.len(),
            forall|i: int| 0 <= i < rhs.len() ==> (#[trigger] rhs@[i]) < old(builder)@.nodes.len(),
            bit > 0 ==> xor_check(target@, *policy) is Emit,
            bit > 0 <==> result is Some,
            result is Some ==> result->0 < builder@.nodes.len(),
            forall|env: spec_fn(Seq<char>) -> bool, v: Valuation| #[trigger]
                consistent(builder@.nodes, env, v) && result is Some ==> v(result->0 as int) == bits_equal(
                    bits_of(v, lhs@),
                    bits_of(v, rhs@),
                    bit as nat,
                ),
    {
        let ghost middle = builder@;
        let xor: usize = match emit_xor(builder, lhs[bit], rhs[bit], tag, target, policy) {
            Ok(node) => node,
            Err(error) => return Err(error),
        };
        let ghost with_xor = builder@;
        let xnor: usize = inverter(builder, xor, tag, policy);
        let ghost with_xnor = builder@;
        let next: usize = match result {
            None => xnor,
            Some(previous) => gate(builder, LogicType::And, previous, xnor, tag, policy),
        };
        proof {
            assert forall|env: spec_fn(Seq<char>) -> bool, v: Valuation| #[trigger]
                consistent(builder@.nodes, env, v) implies v(next as int) == bits_equal(
                bits_of(v, lhs@),
                bits_of(v, rhs@),
                (bit + 1) as nat,
            ) by {
                consistent_prefix(with_xnor.nodes, builder@.nodes, env, v);
                consistent_prefix(with_xor.nodes, builder@.nodes, env, v);
                consistent_prefix(middle.nodes, builder@.nodes, env, v);
                let left = bits_of(v, lhs@);
                let right = bits_of(v, rhs@);
                assert(v(xnor as int) == (left(bit as int) == right(bit as int)));
                assert(bits_equal(left, right, (bit + 1) as nat) == (bits_equal(left, right, bit as nat) && left(
                    bit as int,
                ) == right(bit as int)));
            }
        }
        result = Some(next);
    }
    Ok(result)
}

/// The bits that feed a pin, as a function of the bit number.
pub open spec fn pin_bits(
    cell: CellView,
    pin: Seq<char>,
    widths: Map<Seq<char>, usize>,
    producers: Map<Seq<char>, usize>,
    v: Valuation,
) -> spec_fn(int) -> bool {
    |bit: int| pin_bit(cell, pin, widths, producers, bit, v)
}

/// Whether the cell that drives `out_width` bits can be expanded.
pub open spec fn kind_outcome(
    cell: CellView,
    out_width: nat,
    widths: Map<Seq<char>, usize>,
    producers: Map<Seq<char>, usize>,
    target: TargetView,
    policy: MappingPolicy,
) -> Outcome {
    let pin = |name: Seq<char>| pin_check(cell, name, widths, producers);
    let op = |op: TargetOp| op_check(target, op);
    match cell.kind {
        LogicalCellKind::Buffer => pin("value"@),
        LogicalCellKind::Not => both(op(TargetOp::Not), pin("value"@)),
        LogicalCellKind::And => both(op(TargetOp::And), both(pin("lhs"@), pin("rhs"@))),
        LogicalCellKind::Or => both(op(TargetOp::Or), both(pin("lhs"@), pin("rhs"@))),
        LogicalCellKind::Xor => both(
            pin("lhs"@),
            both(pin("rhs"@), if out_width == 0 { Outcome::Emit } else { xor_check(target, policy) }),
        ),
        LogicalCellKind::Add => both(
            pin("lhs"@),
            both(pin("rhs"@), add_check(target, policy, out_width)),
        ),
        LogicalCellKind::Inc => both(pin("value"@), increment_check(target, policy, out_width)),
        LogicalCellKind::Mux => both(
            both(op(TargetOp::Not), both(op(TargetOp::And), op(TargetOp::Or))),
            both(
                both(
                    pin("select"@),
                    if pin_len(cell, "select"@, widths, 1) == 1 {
                        Outcome::Emit
                    } else {
                        Outcome::Fail(ErrorView::SelectWidth(cell.name))
                    },
                ),
                both(pin("when_true"@), pin("when_false"@)),
            ),
        ),
        LogicalCellKind::Eq { width } => both(
            both(op(TargetOp::Not), op(TargetOp::And)),
            both(
                both(pin("lhs"@), pin("rhs"@)),
                if out_width != 1 {
                    Outcome::Fail(ErrorView::CompareResultWidth(cell.name))
                } else if width == 0 {
                    Outcome::Fail(ErrorView::CompareZeroWidth(cell.name))
                } else {
                    xor_check(target, policy)
                },
            ),
        ),
        LogicalCellKind::DLatch { .. }
        | LogicalCellKind::Dff { .. }
        | LogicalCellKind::Register { .. } => Outcome::Fail(ErrorView::SequentialCell(cell.name)),
    }
}

/// Whether a cell can be expanded.
pub open spec fn emit_outcome(
    cell: CellView,
    widths: Map<Seq<char>, usize>,
    producers: Map<Seq<char>, usize>,
    target: TargetView,
    policy: MappingPolicy,
) -> Outcome {
    if cell.outputs.len() == 0 {
        Outcome::Fail(ErrorView::NoOutput(cell.name))
    } else if !widths.contains_key(cell.outputs[0].net) {
        Outcome::Fail(ErrorView::UnknownNet(cell.outputs[0].net))
    } else {
        kind_outcome(cell, widths[cell.outputs[0].net] as nat, widths, producers, target, policy)
    }
}

/// Whether the operands of a cell are wide enough for what it drives: every
/// bit that the expansion reads or drives exists.
pub open spec fn cell_fits(cell: CellView, widths: Map<Seq<char>, usize>) -> bool {
    cell.outputs.len() > 0 ==> {
        let out_width = widths[cell.outputs[0].net] as nat;
        let covers = |pin: Seq<char>, width: nat|
            pin_len(cell, pin, widths, width) >= width && constant_fits(cell, pin, width);
        match cell.kind {
            LogicalCellKind::Buffer | LogicalCellKind::Not => pin_len(cell, "value"@, widths, out_width) <= out_width
                && constant_fits(cell, "value"@, out_width),
            LogicalCellKind::And
            | LogicalCellKind::Or
            | LogicalCellKind::Xor
            | LogicalCellKind::Add => covers("lhs"@, out_width) && covers("rhs"@, out_width),
            LogicalCellKind::Inc => covers("value"@, out_width),
            LogicalCellKind::Mux => covers("when_true"@, out_width) && covers("when_false"@, out_width),
            LogicalCellKind::Eq { width } => covers("lhs"@, width as nat) && covers("rhs"@, width as nat),
            _ => true,
        }
    }
}

/// How many bits of its net a cell drives.
pub open spec fn produced_count(cell: CellView, widths: Map<Seq<char>, usize>) -> nat {
    let out_width = widths[cell.outputs[0].net] as nat;
    match cell.kind {
        LogicalCellKind::Buffer | LogicalCellKind::Not => pin_len(cell, "value"@, widths, out_width),
        _ => out_width,
    }
}

/// What a cell drives onto one bit of its net.
pub open spec fn cell_value(
    cell: CellView,
    widths: Map<Seq<char>, usize>,
    producers: Map<Seq<char>, usize>,
    v: Valuation,
    bit: int,
) -> bool {
    let pin = |name: Seq<char>| pin_bits(cell, name, widths, producers, v);
    match cell.kind {
        LogicalCellKind::Buffer => pin("value"@)(bit),
        LogicalCellKind::Not => !pin("value"@)(bit),
        LogicalCellKind::And => pin("lhs"@)(bit) && pin("rhs"@)(bit),
        LogicalCellKind::Or => pin("lhs"@)(bit) || pin("rhs"@)(bit),
        LogicalCellKind::Xor => pin("lhs"@)(bit) != pin("rhs"@)(bit),
        LogicalCellKind::Add => sum_bit(pin("lhs"@), pin("rhs"@), bit),
        LogicalCellKind::Inc => increment_bit(pin("value"@), bit),
        LogicalCellKind::Mux => if pin("select"@)(0) {
            pin("when_true"@)(bit)
        } else {
            pin("when_false"@)(bit)
        },
        LogicalCellKind::Eq { width } => bits_equal(pin("lhs"@), pin("rhs"@), width as nat),
        _ => false,
    }
}

/// The bits that a cell drives are produced in `after` with the cell's values.
pub open spec fn cell_emitted(
    cell: CellView,
    widths: Map<Seq<char>, usize>,
    before: BuilderView,
    after: BuilderView,
) -> bool {
    bits_produced(
        before,
        after,
        bit_texts(cell.outputs[0].net, widths[cell.outputs[0].net]),
        produced_count(cell, widths),
        |v: Valuation, bit: int| cell_value(cell, widths, before.producers, v, bit),
    )
}

/// Carries depend only on lower bits.
pub proof fn carry_bit_depends(
    left: spec_fn(int) -> bool,
    right: spec_fn(int) -> bool,
    other_left: spec_fn(int) -> bool,
    other_right: spec_fn(int) -> bool,
    bit: nat,
)
    requires
        bits_equal(left, other_left, bit),
        bits_equal(right, other_right, bit),
    ensures
        carry_bit(left, right, bit) == carry_bit(other_left, other_right, bit),
    decreases bit,
{
    if bit > 0 {
        carry_bit_depends(left, right, other_left, other_right, (bit - 1) as nat);
    }
}

/// The carry of an increment depends only on lower bits.
pub proof fn ones_below_depends(left: spec_fn(int) -> bool, right: spec_fn(int) -> bool, bit: nat)
    requires
        bits_equal(left, right, bit),
    ensures
        ones_below(left, bit) == ones_below(right, bit),
    decreases bit,
{
    if bit > 0 {
        ones_below_depends(left, right, (bit - 1) as nat);
    }
}

/// Comparing equal bits gives equal results.
pub proof fn bits_equal_depends(
    left: spec_fn(int) -> bool,
    right: spec_fn(int) -> bool,
    other_left: spec_fn(int) -> bool,
    other_right: spec_fn(int) -> bool,
    width: nat,
)
    requires
        bits_equal(left, other_left, width),
        bits_equal(right, other_right, width),
    ensures
        bits_equal(left, right, width) == bits_equal(other_left, other_right, width),
    decreases width,
{
    if width > 0 {
        bits_equal_depends(left, right, other_left, other_right, (width - 1) as nat);
    }
}

/// Nodes that carry a pin have the pin's bits as values.
proof fn carried_bits(
    nodes: Seq<usize>,
    cell: CellView,
    pin: Seq<char>,
    widths: Map<Seq<char>, usize>,
    before: BuilderView,
    middle: BuilderView,
    after: BuilderView,
    env: spec_fn(Seq<char>) -> bool,
    v: Valuation,
    count: nat,
)
    requires
        carries_pin(nodes, cell, pin, widths, before, middle),
        extends_nodes(middle.nodes, after.nodes),
        consistent(after.nodes, env, v),
        count <= nodes.len(),
    ensures
        bits_equal(bits_of(v, nodes), pin_bits(cell, pin, widths, before.producers, v), count),
        forall|bit: int|
            0 <= bit < count ==> v((#[trigger] nodes[bit]) as int) == pin_bit(
                cell,
                pin,
                widths,
                before.producers,
                bit,
                v,
            ),
    decreases count,
{
    consistent_prefix(middle.nodes, after.nodes, env, v);
    if count > 0 {
        carried_bits(nodes, cell, pin, widths, before, middle, after, env, v, (count - 1) as nat);
        assert(v(nodes[count - 1] as int) == pin_bit(cell, pin, widths, before.producers, count - 1, v));
    }
}

/// Bits that are produced with values that come to the same are produced with either.
proof fn produced_as(
    before: BuilderView,
    middle: BuilderView,
    after: BuilderView,
    names: Seq<Seq<char>>,
    count: nat,
    simple: spec_fn(Valuation, int) -> bool,
    value: spec_fn(Valuation, int) -> bool,
)
    requires
        bits_produced(middle, after, names, count, simple),
        middle.producers == before.producers,
        forall|env: spec_fn(Seq<char>) -> bool, v: Valuation, bit: int|
            #![trigger consistent(after.nodes, env, v), simple(v, bit)]
            0 <= bit < count && consistent(after.nodes, env, v) ==> simple(v, bit) == value(v, bit),
    ensures
        bits_produced(before, after, names, count, value),
{
    assert forall|env: spec_fn(Seq<char>) -> bool, v: Valuation, bit: int|
        #![trigger consistent(after.nodes, env, v), names[bit]]
        0 <= bit < count && consistent(after.nodes, env, v) implies v(after.producers[names[bit]] as int) == value(
        v,
        bit,
    ) by {
        assert(v(after.producers[names[bit]] as int) == simple(v, bit));
    }
}

/// What a cell of two operands drives onto one bit of its net.
spec fn pair_value(
    kind: LogicalCellKind,
    left: spec_fn(int) -> bool,
    right: spec_fn(int) -> bool,
    bit: int,
) -> bool {
    match kind {
        LogicalCellKind::And => left(bit) && right(bit),
        LogicalCellKind::Or => left(bit) || right(bit),
        LogicalCellKind::Xor => left(bit) != right(bit),
        LogicalCellKind::Add => sum_bit(left, right, bit),
        _ => false,
    }
}

/// A cell of two operands drives what the nodes of its operands come to.
proof fn pair_emitted(
    cell: CellView,
    widths: Map<Seq<char>, usize>,
    before: BuilderView,
    with_lhs: BuilderView,
    middle: BuilderView,
    after: BuilderView,
    lhs: Seq<usize>,
    rhs: Seq<usize>,
    names: Seq<Seq<char>>,
    simple: spec_fn(Valuation, int) -> bool,
    value: spec_fn(Valuation, int) -> bool,
)
    requires
        carries_pin(lhs, cell, "lhs"@, widths, before, with_lhs),
        carries_pin(rhs, cell, "rhs"@, widths, with_lhs, middle),
        with_lhs.producers == before.producers,
        middle.producers == before.producers,
        extends_nodes(with_lhs.nodes, after.nodes),
        extends_nodes(middle.nodes, after.nodes),
        names.len() <= lhs.len(),
        names.len() <= rhs.len(),
        bits_produced(middle, after, names, names.len(), simple),
        forall|v: Valuation, bit: int| #[trigger]
            simple(v, bit) == pair_value(cell.kind, bits_of(v, lhs), bits_of(v, rhs), bit),
        forall|v: Valuation, bit: int| #[trigger]
            value(v, bit) == pair_value(
                cell.kind,
                pin_bits(cell, "lhs"@, widths, before.producers, v),
                pin_bits(cell, "rhs"@, widths, before.producers, v),
                bit,
            ),
    ensures
        bits_produced(before, after, names, names.len(), value),
{
    assert forall|env: spec_fn(Seq<char>) -> bool, v: Valuation, bit: int|
        #![trigger consistent(after.nodes, env, v), simple(v, bit)]
        0 <= bit < names.len() && consistent(after.nodes, env, v) implies simple(v, bit) == value(v, bit) by {
        let left = pin_bits(cell, "lhs"@, widths, before.producers, v);
        let right = pin_bits(cell, "rhs"@, widths, before.producers, v);
        carried_bits(lhs, cell, "lhs"@, widths, before, with_lhs, after, env, v, (bit + 1) as nat);
        carried_bits(rhs, cell, "rhs"@, widths, with_lhs, middle, after, env, v, (bit + 1) as nat);
        carried_bits(lhs, cell, "lhs"@, widths, before, with_lhs, after, env, v, bit as nat);
        carried_bits(rhs, cell, "rhs"@, widths, with_lhs, middle, after, env, v, bit as nat);
        carry_bit_depends(bits_of(v, lhs), bits_of(v, rhs), left, right, bit as nat);
        assert(v(lhs[bit] as int) == pin_bit(cell, "lhs"@, widths, before.producers, bit, v));
        assert(v(rhs[bit] as int) == pin_bit(cell, "rhs"@, widths, before.producers, bit, v));
        assert(bits_of(v, lhs)(bit) == left(bit));
        assert(bits_of(v, rhs)(bit) == right(bit));
    }
    produced_as(before, middle, after, names, names.len(), simple, value);
}

/// What a cell of one operand drives onto one bit of its net.
spec fn single_value(kind: LogicalCellKind, operand: spec_fn(int) -> bool, bit: int) -> bool {
    match kind {
        LogicalCellKind::Buffer => operand(bit),
        LogicalCellKind::Not => !operand(bit),
        LogicalCellKind::Inc => increment_bit(operand, bit),
        _ => false,
    }
}

/// A cell of one operand drives what the nodes of its operand come to.
proof fn single_emitted(
    cell: CellView,
    widths: Map<Seq<char>, usize>,
    before: BuilderView,
    middle: BuilderView,
    after: BuilderView,
    values: Seq<usize>,
    names: Seq<Seq<char>>,
    count: nat,
    simple: spec_fn(Valuation, int) -> bool,
    value: spec_fn(Valuation, int) -> bool,
)
    requires
        carries_pin(values, cell, "value"@, widths, before, middle),
        middle.producers == before.producers,
        extends_nodes(middle.nodes, after.nodes),
        count <= values.len(),
        bits_produced(middle, after, names, count, simple),
        forall|v: Valuation, bit: int| #[trigger]
            simple(v, bit) == single_value(cell.kind, bits_of(v, values), bit),
        forall|v: Valuation, bit: int| #[trigger]
            value(v, bit) == single_value(
                cell.kind,
                pin_bits(cell, "value"@, widths, before.producers, v),
                bit,
            ),
    ensures
        bits_produced(before, after, names, count, value),
{
    assert forall|env: spec_fn(Seq<char>) -> bool, v: Valuation, bit: int|
        #![trigger consistent(after.nodes, env, v), simple(v, bit)]
        0 <= bit < count && consistent(after.nodes, env, v) implies simple(v, bit) == value(v, bit) by {
        let operand = pin_bits(cell, "value"@, widths, before.producers, v);
        carried_bits(values, cell, "value"@, widths, before, middle, after, env, v, (bit + 1) as nat);
        carried_bits(values, cell, "value"@, widths, before, middle, after, env, v, bit as nat);
        ones_below_depends(bits_of(v, values), operand, bit as nat);
        assert(v(values[bit] as int) == pin_bit(cell, "value"@, widths, before.producers, bit, v));
        assert(bits_of(v, values)(bit) == operand(bit));
    }
    produced_as(before, middle, after, names, count, simple, value);
}

/// A multiplexer drives what the nodes of its operands come to.
proof fn mux_emitted(
    cell: CellView,
    widths: Map<Seq<char>, usize>,
    before: BuilderView,
    with_select: BuilderView,
    with_true: BuilderView,
    middle: BuilderView,
    after: BuilderView,
    select: Seq<usize>,
    when_true: Seq<usize>,
    when_false: Seq<usize>,
    names: Seq<Seq<char>>,
    simple: spec_fn(Valuation, int) -> bool,
    value: spec_fn(Valuation, int) -> bool,
)
    requires
        carries_pin(select, cell, "select"@, widths, before, with_select),
        carries_pin(when_true, cell, "when_true"@, widths, with_select, with_true),
        carries_pin(when_false, cell, "when_false"@, widths, with_true, middle),
        with_select.producers == before.producers,
        with_true.producers == before.producers,
        middle.producers == before.producers,
        extends_nodes(with_select.nodes, after.nodes),
        extends_nodes(with_true.nodes, after.nodes),
        extends_nodes(middle.nodes, after.nodes),
        select.len() == 1,
        names.len() <= when_true.len(),
        names.len() <= when_false.len(),
        bits_produced(middle, after, names, names.len(), simple),
        forall|v: Valuation, bit: int| #[trigger]
            simple(v, bit) == (if v(select[0] as int) {
                v(when_true[bit] as int)
            } else {
                v(when_false[bit] as int)
            }),
        forall|v: Valuation, bit: int| #[trigger]
            value(v, bit) == (if pin_bit(cell, "select"@, widths, before.producers, 0, v) {
                pin_bit(cell, "when_true"@, widths, before.producers, bit, v)
            } else {
                pin_bit(cell, "when_false"@, widths, before.producers, bit, v)
            }),
    ensures
        bits_produced(before, after, names, names.len(), value),
{
    assert forall|env: spec_fn(Seq<char>) -> bool, v: Valuation, bit: int|
        #![trigger consistent(after.nodes, env, v), simple(v, bit)]
        0 <= bit < names.len() && consistent(after.nodes, env, v) implies simple(v, bit) == value(v, bit) by {
        carried_bits(select, cell, "select"@, widths, before, with_select, after, env, v, 1);
        carried_bits(when_true, cell, "when_true"@, widths, with_select, with_true, after, env, v, (bit + 1) as nat);
        carried_bits(when_false, cell, "when_false"@, widths, with_true, middle, after, env, v, (bit + 1) as nat);
        assert(v(select[0] as int) == pin_bit(cell, "select"@, widths, before.producers, 0, v));
        assert(v(when_true[bit] as int) == pin_bit(cell, "when_true"@, widths, before.producers, bit, v));
        assert(v(when_false[bit] as int) == pin_bit(cell, "when_false"@, widths, before.producers, bit, v));
    }
    produced_as(before, middle, after, names, names.len(), simple, value);
}

/// Adds one combinational cell to `builder`.
///
/// Returns `Ok(false)` when one of the input bits has no producer yet, and
/// `Ok(true)` once the bits of the cell's output have producers.
#[verifier::spinoff_prover]
pub fn emit_cell(
    cell: &LogicalCell,
    nets: &ScalarNets,
    builder: &mut LeafBuilder,
    target: &TargetSpec,
    policy: &MappingPolicy,
) -> (result: Result<bool, LowerError>)
    requires
        old(builder).wf(),
        cell_fits(cell@, nets@),
    ensures
        final(builder).wf(),
        grown(old(builder)@, final(builder)@, *policy),
        match result {
            Ok(true) => {
                &&& emit_outcome(cell@, nets@, old(builder)@.producers, target@, *policy) is Emit
                &&& cell_emitted(cell@, nets@, old(builder)@, final(builder)@)
            },
            Ok(false) => {
                &&& emit_outcome(cell@, nets@, old(builder)@.producers, target@, *policy) is Wait
                &&& final(builder)@.producers == old(builder)@.producers
            },
            Err(error) => emit_outcome(cell@, nets@, old(builder)@.producers, target@, *policy) == Outcome::Fail(
                error@,
            ),
        },
{
    if cell.outputs.len() == 0 {
        return Err(LowerError::NoOutput(cell.name.clone()));
    }
    assert(cell@.outputs[0] == cell.outputs[0]@);
    let out_bits = match nets.bits(cell.outputs[0].net.as_str()) {
        Ok(names) => names,
        Err(error) => return Err(error),
    };
    let ghost net = cell@.outputs[0].net;
    let ghost names = bit_texts(net, nets@[net]);
    let ghost before = builder@;
    let ghost producers = builder@.producers;
    let ghost value = |v: Valuation, bit: int| cell_value(cell@, nets@, producers, v, bit);
    proof {
        bit_texts_distinct(net, nets@[net]);
        assert(texts(out_bits@).len() == names.len());
    }
    let tag = cell.name.as_str();
    match cell.kind {
        LogicalCellKind::Buffer => {
            let values = match input_nodes(cell, "value", out_bits.len(), nets, builder, policy) {
                Ok(Some(values)) => values,
                Ok(None) => return Ok(false),
                Err(error) => return Err(error),
            };
            let ghost middle = builder@;
            emit_wires(builder, &values, &out_bits);
            proof {
                single_emitted(
                    cell@,
                    nets@,
                    before,
                    middle,
                    builder@,
                    values@,
                    names,
                    values@.len(),
                    |v: Valuation, bit: int| v(values@[bit] as int),
                    value,
                );
            }
        },
        LogicalCellKind::Not => {
            if let Err(error) = target.require(TargetOp::Not) {
                return Err(LowerError::Unsupported(error));
            }
            let values = match input_nodes(cell, "value", out_bits.len(), nets, builder, policy) {
                Ok(Some(values)) => values,
                Ok(None) => return Ok(false),
                Err(error) => return Err(error),
            };
            let ghost middle = builder@;
            emit_inverters(builder, &values, &out_bits, tag, policy);
            proof {
                single_emitted(
                    cell@,
                    nets@,
                    before,
                    middle,
                    builder@,
                    values@,
                    names,
                    values@.len(),
                    |v: Valuation, bit: int| !v(values@[bit] as int),
                    value,
                );
            }
        },
        LogicalCellKind::And | LogicalCellKind::Or => {
            let is_and = matches!(cell.kind, LogicalCellKind::And);
            let gate_type = if is_and { LogicType::And } else { LogicType::Or };
            let op = if is_and { TargetOp::And } else { TargetOp::Or };
            if let Err(error) = target.require(op) {
                return Err(LowerError::Unsupported(error));
            }
            let lhs = match input_nodes(cell, "lhs", out_bits.len(), nets, builder, policy) {
                Ok(Some(values)) => values,
                Ok(None) => return Ok(false),
                Err(error) => return Err(error),
            };
            let ghost with_lhs = builder@;
            let rhs = match input_nodes(cell, "rhs", out_bits.len(), nets, builder, policy) {
                Ok(Some(values)) => values,
                Ok(None) => return Ok(false),
                Err(error) => return Err(error),
            };
            let ghost middle = builder@;
            emit_gates(builder, gate_type, &lhs, &rhs, &out_bits, tag, policy);
            proof {
                pair_emitted(
                    cell@,
                    nets@,
                    before,
                    with_lhs,
                    middle,
                    builder@,
                    lhs@,
                    rhs@,
                    names,
                    |v: Valuation, bit: int| gate_value(gate_type, v(lhs@[bit] as int), v(rhs@[bit] as int)),
                    value,
                );
            }
        },
        LogicalCellKind::Xor => {
            let lhs = match input_nodes(cell, "lhs", out_bits.len(), nets, builder, policy) {
                Ok(Some(values)) => values,
                Ok(None) => return Ok(false),
                Err(error) => return Err(error),
            };
            let ghost with_lhs = builder@;
            let rhs = match input_nodes(cell, "rhs", out_bits.len(), nets, builder, policy) {
                Ok(Some(values)) => values,
                Ok(None) => return Ok(false),
                Err(error) => return Err(error),
            };
            let ghost middle = builder@;
            if let Err(error) = emit_xors(builder, &lhs, &rhs, &out_bits, tag, target, policy) {
                return Err(error);
            }
            proof {
                pair_emitted(
                    cell@,
                    nets@,
                    before,
                    with_lhs,
                    middle,
                    builder@,
                    lhs@,
                    rhs@,
                    names,
                    |v: Valuation, bit: int| v(lhs@[bit] as int) != v(rhs@[bit] as int),
                    value,
                );
            }
        },
        LogicalCellKind::Add => {
            let lhs = match input_nodes(cell, "lhs", out_bits.len(), nets, builder, policy) {
                Ok(Some(values)) => values,
                Ok(None) => return Ok(false),
                Err(error) => return Err(error),
            };
            let ghost with_lhs = builder@;
            let rhs = match input_nodes(cell, "rhs", out_bits.len(), nets, builder, policy) {
                Ok(Some(values)) => values,
                Ok(None) => return Ok(false),
                Err(error) => return Err(error),
            };
            let ghost middle = builder@;
            if let Err(error) = emit_add(builder, &lhs, &rhs, &out_bits, tag, target, policy) {
                return Err(error);
            }
            proof {
                pair_emitted(
                    cell@,
                    nets@,
                    before,
                    with_lhs,
                    middle,
                    builder@,
                    lhs@,
                    rhs@,
                    names,
                    |v: Valuation, bit: int| sum_bit(bits_of(v, lhs@), bits_of(v, rhs@), bit),
                    value,
                );
            }
        },
        LogicalCellKind::Inc => {
            let values = match input_nodes(cell, "value", out_bits.len(), nets, builder, policy) {
                Ok(Some(values)) => values,
                Ok(None) => return Ok(false),
                Err(error) => return Err(error),
            };
            let ghost middle = builder@;
            if let Err(error) = emit_increment(builder, &values, &out_bits, tag, target, policy) {
                return Err(error);
            }
            proof {
                single_emitted(
                    cell@,
                    nets@,
                    before,
                    middle,
                    builder@,
                    values@,
                    names,
                    names.len(),
                    |v: Valuation, bit: int| increment_bit(bits_of(v, values@), bit),
                    value,
                );
            }
        },
        LogicalCellKind::Mux => {
            if let Err(error) = target.require(TargetOp::Not) {
                return Err(LowerError::Unsupported(error));
            }
            if let Err(error) = target.require(TargetOp::And) {
                return Err(LowerError::Unsupported(error));
            }
            if let Err(error) = target.require(TargetOp::Or) {
                return Err(LowerError::Unsupported(error));
            }
            let select = match input_nodes(cell, "select", 1, nets, builder, policy) {
                Ok(Some(values)) => values,
                Ok(None) => return Ok(false),
                Err(error) => return Err(error),
            };
            let ghost with_select = builder@;
            if select.len() != 1 {
                return Err(LowerError::SelectWidth(cell.name.clone()));
            }
            let when_true = match input_nodes(cell, "when_true", out_bits.len(), nets, builder, policy) {
                Ok(Some(values)) => values,
                Ok(None) => return Ok(false),
                Err(error) => return Err(error),
            };
            let ghost with_true = builder@;
            let when_false = match input_nodes(cell, "when_false", out_bits.len(), nets, builder, policy) {
                Ok(Some(values)) => values,
                Ok(None) => return Ok(false),
                Err(error) => return Err(error),
            };
            let ghost middle = builder@;
            let chosen: usize = select[0];
            emit_mux(builder, chosen, &when_true, &when_false, &out_bits, tag, policy);
            proof {
                mux_emitted(
                    cell@,
                    nets@,
                    before,
                    with_select,
                    with_true,
                    middle,
                    builder@,
                    select@,
                    when_true@,
                    when_false@,
                    names,
                    |v: Valuation, bit: int|
                        if v(chosen as int) {
                            v(when_true@[bit] as int)
                        } else {
                            v(when_false@[bit] as int)
                        },
                    value,
                );
            }
        },
        LogicalCellKind::Eq { width } => {
            if let Err(error) = target.require(TargetOp::Not) {
                return Err(LowerError::Unsupported(error));
            }
            if let Err(error) = target.require(TargetOp::And) {
                return Err(LowerError::Unsupported(error));
            }
            let lhs = match input_nodes(cell, "lhs", width, nets, builder, policy) {
                Ok(Some(values)) => values,
                Ok(None) => return Ok(false),
                Err(error) => return Err(error),
            };
            let ghost with_lhs = builder@;
            let rhs = match input_nodes(cell, "rhs", width, nets, builder, policy) {
                Ok(Some(values)) => values,
                Ok(None) => return Ok(false),
                Err(error) => return Err(error),
            };
            let ghost middle = builder@;
            if out_bits.len() != 1 {
                return Err(LowerError::CompareResultWidth(cell.name.clone()));
            }
            let result = match emit_equal(builder, width, &lhs, &rhs, tag, target, policy) {
                Ok(Some(result)) => result,
                Ok(None) => return Err(LowerError::CompareZeroWidth(cell.name.clone())),
                Err(error) => return Err(error),
            };
            let ghost with_result = builder@;
            builder.set_producer(out_bits[0].as_str(), result);
            proof {
                assert(texts(out_bits@)[0] == out_bits[0]@);
                produce_none(before, names, value);
                assert forall|env: spec_fn(Seq<char>) -> bool, v: Valuation| #[trigger]
                    consistent(builder@.nodes, env, v) implies v(result as int) == value(v, 0) by {
                    carried_bits(lhs@, cell@, "lhs"@, nets@, before, with_lhs, builder@, env, v, width as nat);
                    carried_bits(rhs@, cell@, "rhs"@, nets@, with_lhs, middle, builder@, env, v, width as nat);
                    bits_equal_depends(
                        bits_of(v, lhs@),
                        bits_of(v, rhs@),
                        pin_bits(cell@, "lhs"@, nets@, producers, v),
                        pin_bits(cell@, "rhs"@, nets@, producers, v),
                        width as nat,
                    );
                }
                produce_next(before, before, builder@, names, 0, result, value);
            }
        },
        LogicalCellKind::DLatch { .. }
        | LogicalCellKind::Dff { .. }
        | LogicalCellKind::Register { .. } => {
            return Err(LowerError::SequentialCell(cell.name.clone()));
        },
    }
    Ok(true)
}

} // verus!
