//! Why folding comes to an end.

use super::fold_constants::{
    constant_of, has_constant, is_by_constant, is_canonical, is_constant_at, is_first_canonical, is_first_constant,
    is_first_foldable, is_fold_step, is_foldable, is_folded, is_neutral_folded, is_true_at, first_canonical_exists,
    free_inputs, inverter_node, replaced, top_id, true_inputs, true_node, with_node,
};
use super::rewrite::{place_of, place_of_holds, rewired_nodes, without, without_from};
use crate::graph::{KindView, NodeView};
use crate::logic::LogicType;
use vstd::prelude::*;

verus! {

/// How much folding a node may still cause: a gate counts for more than an inverter,
/// into which it may turn, and more for every input.
pub open spec fn node_weight(node: NodeView) -> nat {
    match node.kind {
        KindView::Logic(LogicType::Not) => 1,
        KindView::Logic(_) => 2 + node.inputs.len(),
        _ => 0,
    }
}

/// How many rewrites there may be before nothing is left to fold.
pub open spec fn fold_weight(nodes: Seq<NodeView>) -> nat
    decreases nodes.len(),
{
    if nodes.len() == 0 {
        0
    } else {
        fold_weight(nodes.drop_last()) + node_weight(nodes.last())
    }
}

proof fn weight_with(nodes: Seq<NodeView>, node: NodeView)
    ensures
        fold_weight(nodes.push(node)) == fold_weight(nodes) + node_weight(node),
{
    assert(nodes.push(node).drop_last() =~= nodes);
}

proof fn weight_without(nodes: Seq<NodeView>, place: int)
    requires
        0 <= place < nodes.len(),
    ensures
        fold_weight(nodes.remove(place)) + node_weight(nodes[place]) == fold_weight(nodes),
    decreases nodes.len(),
{
    if place == nodes.len() - 1 {
        assert(nodes.remove(place) =~= nodes.drop_last());
    } else {
        weight_without(nodes.drop_last(), place);
        assert(nodes.remove(place).drop_last() =~= nodes.drop_last().remove(place));
        assert(nodes.remove(place).last() == nodes.last());
    }
}

proof fn weight_stays(left: Seq<NodeView>, right: Seq<NodeView>)
    requires
        left.len() == right.len(),
        forall|i: int| 0 <= i < left.len() ==> node_weight(#[trigger] left[i]) == node_weight(right[i]),
    ensures
        fold_weight(left) == fold_weight(right),
    decreases left.len(),
{
    if left.len() > 0 {
        assert forall|i: int| 0 <= i < left.drop_last().len() implies node_weight(#[trigger] left.drop_last()[i])
            == node_weight(right.drop_last()[i]) by {
            assert(node_weight(left[i]) == node_weight(right[i]));
        }
        weight_stays(left.drop_last(), right.drop_last());
        assert(node_weight(left[left.len() - 1]) == node_weight(right[left.len() - 1]));
    }
}

proof fn weight_updated(nodes: Seq<NodeView>, place: int, node: NodeView)
    requires
        0 <= place < nodes.len(),
    ensures
        fold_weight(nodes.update(place, node)) + node_weight(nodes[place]) == fold_weight(nodes) + node_weight(node),
{
    weight_without(nodes, place);
    weight_without(nodes.update(place, node), place);
    assert(nodes.update(place, node).remove(place) =~= nodes.remove(place));
}

proof fn weight_replaced(nodes: Seq<NodeView>, place: int, new_id: usize)
    requires
        0 <= place < nodes.len(),
    ensures
        fold_weight(replaced(nodes, place, new_id)) + node_weight(nodes[place]) == fold_weight(nodes),
{
    let rewired = rewired_nodes(nodes, nodes[place].id, new_id);
    assert forall|i: int| 0 <= i < nodes.len() implies node_weight(#[trigger] nodes[i]) == node_weight(rewired[i]) by {
    }
    weight_stays(nodes, rewired);
    weight_without(rewired, place);
}

proof fn true_weighs_nothing(before: Seq<NodeView>, after: Seq<NodeView>, id: usize)
    requires
        is_true_at(before, after, id),
    ensures
        fold_weight(after) == fold_weight(before),
        before.len() <= after.len(),
        forall|i: int| 0 <= i < before.len() ==> #[trigger] after[i] == before[i],
{
    weight_with(before, NodeView { id: top_id(before) as usize, ..true_node() });
}

proof fn constant_weighs_little(before: Seq<NodeView>, value: bool, after: Seq<NodeView>, id: usize)
    requires
        is_constant_at(before, value, after, id),
    ensures
        fold_weight(after) <= fold_weight(before) + 1,
        value || (exists|place: int| is_first_canonical(before, place, value)) ==> fold_weight(after) == fold_weight(
            before,
        ),
        before.len() <= after.len(),
        forall|i: int| 0 <= i < before.len() ==> #[trigger] after[i] == before[i],
{
    if exists|place: int| is_first_canonical(before, place, value) {
    } else if value {
        true_weighs_nothing(before, after, id);
    } else {
        let (middle, one) = choose|middle: Seq<NodeView>, one: usize| #[trigger]
            is_true_at(before, middle, one) && after == with_node(middle, inverter_node(one, "folded-constant"@)) && id
                == top_id(middle);
        true_weighs_nothing(before, middle, one);
        weight_with(middle, NodeView { id: top_id(middle) as usize, ..inverter_node(one, "folded-constant"@) });
    }
}

proof fn replacing_lightens(before: Seq<NodeView>, place: int, value: bool, after: Seq<NodeView>)
    requires
        0 <= place < before.len(),
        is_by_constant(before, place, value, after),
    ensures
        fold_weight(after) + node_weight(before[place]) <= fold_weight(before) + 1,
        value || (exists|first: int| is_first_canonical(before, first, value)) ==> fold_weight(after) + node_weight(
            before[place],
        ) == fold_weight(before),
{
    let (middle, id) = choose|middle: Seq<NodeView>, id: usize| #[trigger]
        is_constant_at(before, value, middle, id) && after == replaced(middle, place, id);
    constant_weighs_little(before, value, middle, id);
    assert(middle[place] == before[place]);
    weight_replaced(middle, place, id);
}

proof fn without_is_shorter(inputs: Seq<usize>, id: usize)
    requires
        inputs.contains(id),
    ensures
        without(inputs, id).len() < inputs.len(),
    decreases inputs.len(),
{
    let shorter = inputs.drop_last();
    without_from(shorter, id);
    if inputs.last() != id {
        let pin = choose|pin: int| 0 <= pin < inputs.len() && inputs[pin] == id;
        assert(shorter[pin] == id);
        without_is_shorter(shorter, id);
    }
}

proof fn neutral_lightens(before: Seq<NodeView>, place: int, neutral: usize, value: bool, after: Seq<NodeView>)
    requires
        0 <= place < before.len(),
        before[place].kind is Logic,
        before[place].kind != KindView::Logic(LogicType::Not),
        before[place].inputs.contains(neutral),
        is_neutral_folded(before, place, neutral, value, after),
    ensures
        fold_weight(after) < fold_weight(before),
{
    let rest = without(before[place].inputs, neutral);
    without_is_shorter(before[place].inputs, neutral);
    if rest.len() == 0 {
        replacing_lightens(before, place, value, after);
    } else if rest.len() == 1 {
        weight_replaced(before, place, rest[0]);
    } else {
        let node = NodeView { inputs: rest, ..before[place] };
        let less = before.update(place, node);
        weight_updated(before, place, node);
        if after != less {
            let gone = place_of(less, neutral)->0;
            place_of_holds(less, neutral);
            weight_without(less, gone);
        }
    }
}

/// Every rewrite leaves less to fold.
pub proof fn folding_lightens(before: Seq<NodeView>, after: Seq<NodeView>)
    requires
        is_fold_step(before, after),
    ensures
        fold_weight(after) < fold_weight(before),
{
    let place = choose|place: int| #[trigger] is_first_foldable(before, place) && is_folded(before, place, after);
    let inputs = before[place].inputs;
    assert(is_foldable(before, place));
    match before[place].kind {
        KindView::Logic(LogicType::Not) => {
            let value = !constant_of(before, inputs[0])->0;
            if !value {
                assert(is_canonical(before, place, false));
                first_canonical_exists(before, place, false);
            }
            replacing_lightens(before, place, value, after);
        },
        KindView::Logic(LogicType::Xor) => {
            if has_constant(before, inputs, false) {
                let neutral = choose|neutral: usize| #[trigger]
                    is_first_constant(before, inputs, false, neutral) && is_neutral_folded(
                        before,
                        place,
                        neutral,
                        false,
                        after,
                    );
                neutral_lightens(before, place, neutral, false, after);
            } else {
                let value = free_inputs(before, inputs)[0];
                if true_inputs(before, inputs) % 2 == 1 {
                    let node = inverter_node(value, "folded-xor"@);
                    weight_with(before, NodeView { id: top_id(before) as usize, ..node });
                    weight_replaced(with_node(before, node), place, top_id(before) as usize);
                } else {
                    weight_replaced(before, place, value);
                }
            }
        },
        _ => {
            let absorbing = before[place].kind == KindView::Logic(LogicType::Or);
            let kept = !absorbing;
            if has_constant(before, inputs, absorbing) {
                replacing_lightens(before, place, absorbing, after);
            } else {
                let neutral = choose|neutral: usize| #[trigger]
                    is_first_constant(before, inputs, kept, neutral) && is_neutral_folded(
                        before,
                        place,
                        neutral,
                        kept,
                        after,
                    );
                neutral_lightens(before, place, neutral, kept, after);
            }
        },
    }
}

} // verus!
