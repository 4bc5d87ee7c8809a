//! Combinational gate kinds and what they compute.

use vstd::prelude::*;

verus! {

/// The operations of a logic graph.
#[derive(Clone, Copy, Debug, PartialEq, Eq, Structural)]
pub enum LogicType {
    Not,
    And,
    Or,
    Xor,
}

/// A gate.
#[derive(Clone, Copy, Debug, PartialEq, Eq, Structural)]
pub struct Logic {
    pub logic_type: LogicType,
}

/// Whether an odd number of the values is true.
pub open spec fn parity(values: Seq<bool>) -> bool
    decreases values.len(),
{
    if values.len() == 0 {
        false
    } else {
        values.last() != parity(values.drop_last())
    }
}

/// The output of a gate on its input values.
pub open spec fn logic_value(op: LogicType, values: Seq<bool>) -> bool {
    match op {
        LogicType::Not => values.len() > 0 && !values[0],
        LogicType::And => forall|i: int| 0 <= i < values.len() ==> #[trigger] values[i],
        LogicType::Or => exists|i: int| 0 <= i < values.len() && #[trigger] values[i],
        LogicType::Xor => parity(values),
    }
}

/// What each gate computes on one or two inputs.
pub proof fn logic_value_of_pair(left: bool, right: bool)
    ensures
        logic_value(LogicType::Not, seq![left]) == !left,
        logic_value(LogicType::And, seq![left, right]) == (left && right),
        logic_value(LogicType::Or, seq![left, right]) == (left || right),
        logic_value(LogicType::Xor, seq![left, right]) == (left != right),
{
    let both = seq![left, right];
    assert(both[0] == left && both[1] == right);
    assert(both.drop_last() =~= seq![left]);
    assert(seq![left].drop_last() =~= Seq::<bool>::empty());
    reveal_with_fuel(parity, 3);
    if left || right {
        let i: int = if left { 0 } else { 1 };
        assert(both[i]);
    }
}

} // verus!
