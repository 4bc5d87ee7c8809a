//! Target capabilities and mapping policy for lowering logic to a target.
//!
//! [`TargetSpec`] declares which primitive operations a physical target can
//! implement. [`MappingPolicy`] declares how logical operations that have more
//! than one implementation are expanded.

use crate::text::join2;
use vstd::prelude::*;
use vstd::string::StringExecFns;

verus! {

/// Name of the redstone target.
pub const ROUTABLE_IR_TARGET: &'static str = "redstone-v1";

/// Format tag of a serialized [`MappingSpec`].
pub const MAPPING_SPEC_FORMAT: &'static str = "redstone-compiler.mapping.v1";

/// Primitive operations that a routable target can implement.
#[derive(Clone, Copy, Debug, PartialEq, Eq, PartialOrd, Ord, Hash, Structural)]
pub enum TargetOp {
    Buffer,
    Not,
    And,
    Or,
    Xor,
    DLatch,
    RsLatch,
}

/// The name of an operation.
pub open spec fn op_name(op: TargetOp) -> Seq<char> {
    match op {
        TargetOp::Buffer => "buffer"@,
        TargetOp::Not => "not"@,
        TargetOp::And => "and"@,
        TargetOp::Or => "or"@,
        TargetOp::Xor => "xor"@,
        TargetOp::DLatch => "d_latch"@,
        TargetOp::RsLatch => "rs_latch"@,
    }
}

/// The place of an operation in the list of all operations.
pub open spec fn op_rank(op: TargetOp) -> nat {
    match op {
        TargetOp::Buffer => 0,
        TargetOp::Not => 1,
        TargetOp::And => 2,
        TargetOp::Or => 3,
        TargetOp::Xor => 4,
        TargetOp::DLatch => 5,
        TargetOp::RsLatch => 6,
    }
}

impl TargetOp {
    /// Every operation, in order.
    pub fn all() -> (ops: Vec<TargetOp>)
        ensures
            ops.len() == 7,
            forall|op: TargetOp| #[trigger] ops@[op_rank(op) as int] == op,
    {
        vec![
            TargetOp::Buffer,
            TargetOp::Not,
            TargetOp::And,
            TargetOp::Or,
            TargetOp::Xor,
            TargetOp::DLatch,
            TargetOp::RsLatch,
        ]
    }

    pub fn name(self) -> (name: &'static str)
        ensures
            name@ == op_name(self),
    {
        match self {
            TargetOp::Buffer => "buffer",
            TargetOp::Not => "not",
            TargetOp::And => "and",
            TargetOp::Or => "or",
            TargetOp::Xor => "xor",
            TargetOp::DLatch => "d_latch",
            TargetOp::RsLatch => "rs_latch",
        }
    }

    fn rank(self) -> (rank: usize)
        ensures
            rank == op_rank(self),
    {
        match self {
            TargetOp::Buffer => 0,
            TargetOp::Not => 1,
            TargetOp::And => 2,
            TargetOp::Or => 3,
            TargetOp::Xor => 4,
            TargetOp::DLatch => 5,
            TargetOp::RsLatch => 6,
        }
    }
}

/// A capability that a target lacks.
#[derive(Clone, Debug)]
pub struct UnsupportedOp {
    pub target: String,
    pub op: TargetOp,
}

impl UnsupportedOp {
    /// The error in words.
    pub fn message(&self) -> (text: String)
        ensures
            text@ == "target `"@ + self.target@ + "` does not support `"@ + op_name(self.op) + "`"@,
    {
        let mut text = join2("target `", self.target.as_str());
        text.append("` does not support `");
        text.append(self.op.name());
        text.append("`");
        text
    }
}

/// The capability set of one physical target.
#[derive(Clone, Debug)]
pub struct TargetSpec {
    name: String,
    capabilities: Vec<TargetOp>,
}

/// The contents of a [`TargetSpec`].
pub struct TargetView {
    pub name: Seq<char>,
    pub ops: Set<TargetOp>,
}

impl View for TargetSpec {
    type V = TargetView;

    closed spec fn view(&self) -> TargetView {
        TargetView { name: self.name@, ops: self.capabilities@.to_set() }
    }
}

/// The outcome of asking `target` for `op`.
pub open spec fn requires_op(target: TargetView, op: TargetOp, result: Result<(), UnsupportedOp>) -> bool {
    match result {
        Ok(_) => target.ops.contains(op),
        Err(error) => !target.ops.contains(op) && error.target@ == target.name && error.op == op,
    }
}

impl TargetSpec {
    pub fn new(name: &str, capabilities: Vec<TargetOp>) -> (target: Self)
        ensures
            target@.name == name@,
            target@.ops == capabilities@.to_set(),
    {
        TargetSpec { name: name.to_owned(), capabilities }
    }

    /// The Minecraft redstone target.
    pub fn redstone_v1() -> (target: Self)
        ensures
            target@.name == ROUTABLE_IR_TARGET@,
            forall|op: TargetOp| #[trigger] target@.ops.contains(op),
    {
        let ops = TargetOp::all();
        let target = TargetSpec::new(ROUTABLE_IR_TARGET, ops);
        assert forall|op: TargetOp| #[trigger] target@.ops.contains(op) by {
            assert(ops@[op_rank(op) as int] == op);
        }
        target
    }

    pub fn name(&self) -> (name: &str)
        ensures
            name@ == self@.name,
    {
        self.name.as_str()
    }

    pub fn supports(&self, op: TargetOp) -> (supported: bool)
        ensures
            supported == self@.ops.contains(op),
    {
        for index in 0..self.capabilities.len()
            invariant
                forall|i: int| 0 <= i < index ==> self.capabilities[i] != op,
        {
            if self.capabilities[index] == op {
                assert(self.capabilities@.contains(op));
                return true;
            }
        }
        false
    }

    pub fn require(&self, op: TargetOp) -> (result: Result<(), UnsupportedOp>)
        ensures
            requires_op(self@, op, result),
    {
        if self.supports(op) {
            Ok(())
        } else {
            Err(UnsupportedOp { target: self.name.clone(), op })
        }
    }

    /// The supported operations, each once, in the order of [`TargetOp::all`].
    pub fn capabilities(&self) -> (ops: Vec<TargetOp>)
        ensures
            ops@.to_set() == self@.ops,
            forall|i: int, j: int| 0 <= i < j < ops.len() ==> op_rank(ops@[i]) < op_rank(ops@[j]),
    {
        let all = TargetOp::all();
        let mut ops: Vec<TargetOp> = Vec::new();
        for index in 0..all.len()
            invariant
                all.len() == 7,
                forall|op: TargetOp| #[trigger] all@[op_rank(op) as int] == op,
                forall|i: int| 0 <= i < ops.len() ==> op_rank(#[trigger] ops@[i]) < index
                    && self@.ops.contains(ops@[i]),
                forall|i: int, j: int| 0 <= i < j < ops.len() ==> op_rank(ops@[i]) < op_rank(ops@[j]),
                forall|op: TargetOp|
                    op_rank(op) < index && self@.ops.contains(op) ==> #[trigger] ops@.contains(op),
        {
            let op = all[index];
            assert(op_rank(op) == index) by {
                let by_rank = rank_op(index as nat);
                assert(all@[op_rank(by_rank) as int] == by_rank);
            }
            let ghost before = ops@;
            if self.supports(op) {
                ops.push(op);
            }
            proof {
                assert forall|other: TargetOp|
                    op_rank(other) < index + 1 && self@.ops.contains(other) implies #[trigger] ops@.contains(other) by {
                    if op_rank(other) < index {
                        assert(before.contains(other));
                        let place = choose|i: int| 0 <= i < before.len() && before[i] == other;
                        assert(ops@[place] == other);
                    } else {
                        assert(all@[op_rank(other) as int] == other);
                        assert(ops@.last() == other);
                    }
                }
            }
        }
        proof {
            assert forall|op: TargetOp| #[trigger] ops@.to_set().contains(op) == self@.ops.contains(op) by {
                if self@.ops.contains(op) {
                    assert(ops@.contains(op));
                }
            }
            assert(ops@.to_set() =~= self@.ops);
        }
        ops
    }
}

/// The operation at a place of the list of all operations.
spec fn rank_op(rank: nat) -> TargetOp {
    if rank == 0 { TargetOp::Buffer }
    else if rank == 1 { TargetOp::Not }
    else if rank == 2 { TargetOp::And }
    else if rank == 3 { TargetOp::Or }
    else if rank == 4 { TargetOp::Xor }
    else if rank == 5 { TargetOp::DLatch }
    else { TargetOp::RsLatch }
}

impl Default for TargetSpec {
    fn default() -> (target: Self)
        ensures
            target@.name == ROUTABLE_IR_TARGET@,
            forall|op: TargetOp| #[trigger] target@.ops.contains(op),
    {
        Self::redstone_v1()
    }
}

/// How a logical `Dff`/`Register` becomes target-supported state cells.
#[derive(Clone, Copy, Debug, PartialEq, Eq, Structural)]
pub enum RegisterMapping {
    /// Two D latches with an inverted clock (master/slave).
    MasterSlaveLatches,
}

/// How a logical `Add`/`Inc` becomes scalar logic.
#[derive(Clone, Copy, Debug, PartialEq, Eq, Structural)]
pub enum AdderMapping {
    RippleCarry,
}

/// How a logical `Mux` becomes scalar logic.
#[derive(Clone, Copy, Debug, PartialEq, Eq, Structural)]
pub enum MuxMapping {
    /// `result = (when_true & select) | (when_false & ~select)`.
    AndOrNot,
}

/// How a logical `Xor` becomes target primitives.
#[derive(Clone, Copy, Debug, PartialEq, Eq, Structural)]
pub enum XorMapping {
    /// Emit a native xor primitive.
    Direct,
    /// `a ^ b = (a | b) & ~(a & b)`.
    AndOrNot,
}

/// Implementation choices used by lowering.
#[derive(Clone, Copy, Debug, PartialEq, Eq, Structural)]
pub struct MappingPolicy {
    pub register: RegisterMapping,
    pub adder: AdderMapping,
    pub mux: MuxMapping,
    pub xor: XorMapping,
}

/// The policy used when nothing else is asked for.
pub open spec fn default_policy() -> MappingPolicy {
    MappingPolicy {
        register: RegisterMapping::MasterSlaveLatches,
        adder: AdderMapping::RippleCarry,
        mux: MuxMapping::AndOrNot,
        xor: XorMapping::Direct,
    }
}

impl Default for MappingPolicy {
    fn default() -> (policy: Self)
        ensures
            policy == default_policy(),
    {
        MappingPolicy {
            register: RegisterMapping::MasterSlaveLatches,
            adder: AdderMapping::RippleCarry,
            mux: MuxMapping::AndOrNot,
            xor: XorMapping::Direct,
        }
    }
}

/// The operations that a policy is built from, in the order in which they are
/// asked for.
pub open spec fn policy_ops(policy: MappingPolicy) -> Seq<TargetOp> {
    seq![TargetOp::DLatch] + (match policy.xor {
        XorMapping::Direct => seq![TargetOp::Xor],
        XorMapping::AndOrNot => Seq::<TargetOp>::empty(),
    }) + seq![TargetOp::Not, TargetOp::And, TargetOp::Or]
}

impl MappingPolicy {
    /// Rejects a policy whose implementation cannot be built from the target
    /// capability set: the error names the first operation that is missing.
    pub fn validate(&self, target: &TargetSpec) -> (result: Result<(), UnsupportedOp>)
        ensures
            match result {
                Ok(_) => forall|i: int|
                    0 <= i < policy_ops(*self).len() ==> target@.ops.contains(
                        #[trigger] policy_ops(*self)[i],
                    ),
                Err(error) => error.target@ == target@.name && exists|k: int|
                    {
                        &&& 0 <= k < policy_ops(*self).len()
                        &&& error.op == #[trigger] policy_ops(*self)[k]
                        &&& !target@.ops.contains(error.op)
                        &&& forall|i: int| 0 <= i < k ==> target@.ops.contains(#[trigger] policy_ops(*self)[i])
                    },
            },
    {
        let ghost ops = policy_ops(*self);
        let ghost shift: int = if self.xor == XorMapping::Direct { 1 } else { 0 };
        proof {
            assert(ops[0] == TargetOp::DLatch);
            assert(shift == 1 ==> ops[1] == TargetOp::Xor);
            assert(ops[1 + shift] == TargetOp::Not);
            assert(ops[2 + shift] == TargetOp::And);
            assert(ops[3 + shift] == TargetOp::Or);
            assert(ops.len() == 4 + shift);
        }
        match self.register {
            RegisterMapping::MasterSlaveLatches => {
                if let Err(error) = target.require(TargetOp::DLatch) {
                    return Err(error);
                }
            },
        }
        match self.xor {
            XorMapping::Direct => {
                if let Err(error) = target.require(TargetOp::Xor) {
                    return Err(error);
                }
            },
            XorMapping::AndOrNot => {
                if let Err(error) = target.require(TargetOp::Not) {
                    return Err(error);
                }
                if let Err(error) = target.require(TargetOp::And) {
                    return Err(error);
                }
                if let Err(error) = target.require(TargetOp::Or) {
                    return Err(error);
                }
            },
        }
        match self.mux {
            MuxMapping::AndOrNot => {
                if let Err(error) = target.require(TargetOp::Not) {
                    return Err(error);
                }
                if let Err(error) = target.require(TargetOp::And) {
                    return Err(error);
                }
                if let Err(error) = target.require(TargetOp::Or) {
                    return Err(error);
                }
            },
        }
        match self.adder {
            AdderMapping::RippleCarry => {
                if let Err(error) = target.require(TargetOp::And) {
                    return Err(error);
                }
                if let Err(error) = target.require(TargetOp::Or) {
                    return Err(error);
                }
            },
        }
        Ok(())
    }
}

/// A serializable lowering configuration: target name plus mapping policy.
#[derive(Clone, Debug)]
pub struct MappingSpec {
    pub format: String,
    pub target: String,
    pub policy: MappingPolicy,
}

impl Default for MappingSpec {
    fn default() -> (spec: Self)
        ensures
            spec.format@ == MAPPING_SPEC_FORMAT@,
            spec.target@ == ROUTABLE_IR_TARGET@,
            spec.policy == default_policy(),
    {
        Self::redstone_v1()
    }
}

/// A mapping spec that cannot be used.
#[derive(Clone, Debug)]
pub enum MappingSpecError {
    UnsupportedFormat(String),
    UnsupportedTarget(String),
}

impl MappingSpecError {
    /// The error in words.
    pub fn message(&self) -> (text: String)
        ensures
            match self {
                MappingSpecError::UnsupportedFormat(format) => text@ == "unsupported mapping spec format `"@
                    + format@ + "`, expected `"@ + MAPPING_SPEC_FORMAT@ + "`"@,
                MappingSpecError::UnsupportedTarget(target) => text@ == "unsupported mapping target `"@
                    + target@ + "`, expected `"@ + ROUTABLE_IR_TARGET@ + "`"@,
            },
    {
        match self {
            MappingSpecError::UnsupportedFormat(format) => {
                let mut text = join2("unsupported mapping spec format `", format.as_str());
                text.append("`, expected `");
                text.append(MAPPING_SPEC_FORMAT);
                text.append("`");
                text
            },
            MappingSpecError::UnsupportedTarget(target) => {
                let mut text = join2("unsupported mapping target `", target.as_str());
                text.append("`, expected `");
                text.append(ROUTABLE_IR_TARGET);
                text.append("`");
                text
            },
        }
    }
}

impl MappingSpec {
    pub fn redstone_v1() -> (spec: Self)
        ensures
            spec.format@ == MAPPING_SPEC_FORMAT@,
            spec.target@ == ROUTABLE_IR_TARGET@,
            spec.policy == default_policy(),
    {
        MappingSpec {
            format: MAPPING_SPEC_FORMAT.to_owned(),
            target: ROUTABLE_IR_TARGET.to_owned(),
            policy: MappingPolicy::default(),
        }
    }

    /// Rejects a spec of another format.
    pub fn check_format(&self) -> (result: Result<(), MappingSpecError>)
        ensures
            match result {
                Ok(_) => self.format@ == MAPPING_SPEC_FORMAT@,
                Err(MappingSpecError::UnsupportedFormat(format)) => self.format@ != MAPPING_SPEC_FORMAT@
                    && format@ == self.format@,
                Err(_) => false,
            },
    {
        if self.format == MAPPING_SPEC_FORMAT.to_owned() {
            Ok(())
        } else {
            Err(MappingSpecError::UnsupportedFormat(self.format.clone()))
        }
    }

    /// The target that the spec names, where it is known.
    pub fn target_spec(&self) -> (result: Result<TargetSpec, MappingSpecError>)
        ensures
            match result {
                Ok(target) => self.target@ == ROUTABLE_IR_TARGET@ && target@.name == ROUTABLE_IR_TARGET@
                    && forall|op: TargetOp| #[trigger] target@.ops.contains(op),
                Err(MappingSpecError::UnsupportedTarget(target)) => self.target@ != ROUTABLE_IR_TARGET@
                    && target@ == self.target@,
                Err(_) => false,
            },
    {
        if self.target == ROUTABLE_IR_TARGET.to_owned() {
            Ok(TargetSpec::redstone_v1())
        } else {
            Err(MappingSpecError::UnsupportedTarget(self.target.clone()))
        }
    }
}

/// A policy is accepted exactly where the target supports every operation that
/// the policy is built from; the redstone target supports them all.
pub proof fn full_target_hosts_every_policy(target: TargetView, policy: MappingPolicy)
    requires
        forall|op: TargetOp| #[trigger] target.ops.contains(op),
    ensures
        forall|i: int|
            0 <= i < policy_ops(policy).len() ==> target.ops.contains(#[trigger] policy_ops(policy)[i]),
{
}

} // verus!
