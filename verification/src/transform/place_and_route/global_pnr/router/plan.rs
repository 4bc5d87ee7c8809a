//! Which connections are routed, and in what order.

use crate::order::{is_stable_order, stable_order, stable_order_distinct, SortKey};
use crate::text::{
    chars_before, chars_before_asymmetric, chars_before_total, chars_before_transitive, contains_text, ends_with,
    find_last, has_part, has_suffix, is_last_place, number_of, parse_number, same_text, text_before,
};
use vstd::prelude::*;

verus! {

/// A connection between two ports, each the name of a module and of a port.
#[derive(Debug)]
pub struct RoutingConnection {
    pub source: (String, String),
    pub target: (String, String),
}

/// An input of the design, and the ports that it feeds.
#[derive(Debug)]
pub struct RoutingTopInput {
    pub name: String,
    pub targets: Vec<(String, String)>,
}

/// In what order connections are routed.
#[derive(Clone, Copy, Debug, PartialEq, Eq, Structural)]
pub enum NetOrderStrategy {
    /// The most critical first.
    Criticality,
    /// Those of a source with many connections first, and of those the most
    /// critical.
    HighestFanoutFirst,
    /// The least critical first.
    ReverseCriticality,
}

impl Default for NetOrderStrategy {
    fn default() -> (strategy: Self)
        ensures
            strategy == NetOrderStrategy::Criticality,
    {
        NetOrderStrategy::Criticality
    }
}

// ---------------------------------------------------------------------------
// Bits of registers
// ---------------------------------------------------------------------------
/// The bit in the name of a module of a register: the number between the last
/// underscore before a suffix and the suffix.
pub open spec fn module_bit(module: Seq<char>, suffix: Seq<char>) -> Option<nat> {
    if !has_suffix(module, suffix) {
        None
    } else {
        let end = module.len() - suffix.len();
        if exists|at: int| is_last_place(module, '_', end, at) {
            let at = choose|at: int| is_last_place(module, '_', end, at);
            number_of(module.subrange(at + 1, end))
        } else {
            None
        }
    }
}

/// The bit in the name of a module of a register.
pub fn register_module_bit(module: &str, suffix: &str) -> (bit: Option<usize>)
    ensures
        match bit {
            Some(bit) => module_bit(module@, suffix@) == Some(bit as nat),
            None => module_bit(module@, suffix@) is None,
        },
{
    if !ends_with(module, suffix) {
        return None;
    }
    let end: usize = module.unicode_len() - suffix.unicode_len();
    match find_last(module, '_', end) {
        None => {
            proof {
                assert forall|at: int| !is_last_place(module@, '_', end as int, at) by {}
            }
            None
        },
        Some(at) => {
            proof {
                let other = choose|at: int| is_last_place(module@, '_', end as int, at);
                assert(is_last_place(module@, '_', end as int, at as int));
                if other < at {
                    assert(module@[at as int] != '_');
                } else if other > at {
                    assert(module@[other] != '_');
                }
            }
            parse_number(module, at + 1, end)
        },
    }
}

/// By what connections into the logic of a register are ordered: the highest bit
/// first, and others last.
pub open spec fn feedback_order(target: Seq<char>) -> nat {
    match module_bit(target, "_next"@) {
        Some(bit) => (usize::MAX - bit) as nat,
        None => usize::MAX as nat,
    }
}

/// By what connections into the logic of a register are ordered.
pub fn register_next_target_bit_order(target_module: &str) -> (order: usize)
    ensures
        order == feedback_order(target_module@),
{
    match register_module_bit(target_module, "_next") {
        Some(bit) => usize::MAX - bit,
        None => usize::MAX,
    }
}

// ---------------------------------------------------------------------------
// Priorities
// ---------------------------------------------------------------------------
pub open spec fn is_master_to_slave(var: RoutingConnection) -> bool {
    &&& has_suffix(var.source.0@, "_master"@)
    &&& var.source.1@ == "q"@
    &&& has_suffix(var.target.0@, "_slave"@)
    &&& var.target.1@ == "d"@
}

pub open spec fn is_next_to_master(var: RoutingConnection) -> bool {
    &&& has_suffix(var.source.0@, "_next"@)
    &&& var.source.1@ == "d"@
    &&& has_suffix(var.target.0@, "_master"@)
    &&& var.target.1@ == "d"@
}

pub open spec fn is_inverted_enable(var: RoutingConnection) -> bool {
    &&& has_suffix(var.source.0@, "_clk_inv"@)
    &&& has_suffix(var.source.1@, "_n"@)
    &&& has_suffix(var.target.0@, "_master"@)
    &&& var.target.1@ == "en"@
}

/// Whether a connection leads from one bit of a register to the logic of a
/// higher one.
pub open spec fn is_cross_bit(var: RoutingConnection) -> bool {
    match (module_bit(var.source.0@, "_slave"@), module_bit(var.target.0@, "_next"@)) {
        (Some(from), Some(to)) => to > from,
        _ => false,
    }
}

/// Whether a connection carries a clock.
pub open spec fn is_clock(var: RoutingConnection) -> bool {
    has_part(var.source.1@, "clk"@) || has_part(var.target.1@, "clk"@) || var.target.1@ == "en"@
}

/// How critical a connection is, the most critical with the smallest number.
pub open spec fn criticality(var: RoutingConnection) -> nat {
    if is_cross_bit(var) {
        0
    } else if is_next_to_master(var) {
        1
    } else if is_inverted_enable(var) {
        2
    } else if is_master_to_slave(var) {
        3
    } else if has_suffix(var.target.0@, "_next"@) {
        4
    } else if var.target.1@ == "d"@ {
        5
    } else if var.target.1@ == "en"@ && is_clock(var) {
        5
    } else if !is_clock(var) {
        6
    } else {
        7
    }
}

/// By what a connection is ordered: how critical it is, the bit that it feeds,
/// whether its source is inverted, and the names of its ends.
pub struct RoutePriority {
    pub target: usize,
    pub feedback: usize,
    pub source: usize,
    pub first: String,
    pub second: String,
    pub third: String,
    pub fourth: String,
}

/// Whether a priority is that of a connection.
pub open spec fn is_priority_of(priority: RoutePriority, var: RoutingConnection) -> bool {
    &&& priority.target == criticality(var)
    &&& priority.feedback == feedback_order(var.target.0@)
    &&& priority.source == (if has_suffix(var.source.1@, "_n"@) {
        0usize
    } else {
        1
    })
    &&& priority.first@ == var.source.0@
    &&& priority.second@ == var.source.1@
    &&& priority.third@ == var.target.0@
    &&& priority.fourth@ == var.target.1@
}

impl SortKey for RoutePriority {
    open spec fn before(&self, other: &Self) -> bool {
        if self.target != other.target {
            self.target < other.target
        } else if self.feedback != other.feedback {
            self.feedback < other.feedback
        } else if self.source != other.source {
            self.source < other.source
        } else if self.first@ != other.first@ {
            chars_before(self.first@, other.first@)
        } else if self.second@ != other.second@ {
            chars_before(self.second@, other.second@)
        } else if self.third@ != other.third@ {
            chars_before(self.third@, other.third@)
        } else {
            chars_before(self.fourth@, other.fourth@)
        }
    }

    fn is_before(&self, other: &Self) -> (before: bool) {
        if self.target != other.target {
            self.target < other.target
        } else if self.feedback != other.feedback {
            self.feedback < other.feedback
        } else if self.source != other.source {
            self.source < other.source
        } else if !same_text(self.first.as_str(), other.first.as_str()) {
            text_before(self.first.as_str(), other.first.as_str())
        } else if !same_text(self.second.as_str(), other.second.as_str()) {
            text_before(self.second.as_str(), other.second.as_str())
        } else if !same_text(self.third.as_str(), other.third.as_str()) {
            text_before(self.third.as_str(), other.third.as_str())
        } else {
            text_before(self.fourth.as_str(), other.fourth.as_str())
        }
    }

    proof fn before_asymmetric(&self, other: &Self) {
        chars_before_asymmetric(self.first@, other.first@);
        chars_before_asymmetric(self.second@, other.second@);
        chars_before_asymmetric(self.third@, other.third@);
        chars_before_asymmetric(self.fourth@, other.fourth@);
    }

    proof fn not_before_transitive(&self, middle: &Self, other: &Self) {
        names_chain(self.first@, middle.first@, other.first@);
        names_chain(self.second@, middle.second@, other.second@);
        names_chain(self.third@, middle.third@, other.third@);
        names_chain(self.fourth@, middle.fourth@, other.fourth@);
    }
}

/// The order of three names, as far as it is needed to compare lists of them.
proof fn names_chain(left: Seq<char>, middle: Seq<char>, right: Seq<char>)
    ensures
        left == middle || chars_before(left, middle) || chars_before(middle, left),
        middle == right || chars_before(middle, right) || chars_before(right, middle),
        left == right || chars_before(left, right) || chars_before(right, left),
        !(chars_before(left, middle) && chars_before(middle, left)),
        !(chars_before(middle, right) && chars_before(right, middle)),
        !(chars_before(left, right) && chars_before(right, left)),
        chars_before(left, middle) && chars_before(middle, right) ==> chars_before(left, right),
        !chars_before(left, left),
        !chars_before(middle, middle),
        !chars_before(right, right),
{
    chars_before_total(left, middle);
    chars_before_total(middle, right);
    chars_before_total(left, right);
    chars_before_asymmetric(left, middle);
    chars_before_asymmetric(middle, right);
    chars_before_asymmetric(left, right);
    chars_before_asymmetric(left, left);
    chars_before_asymmetric(middle, middle);
    chars_before_asymmetric(right, right);
    if chars_before(left, middle) && chars_before(middle, right) {
        chars_before_transitive(left, middle, right);
    }
}

fn is_master_to_slave_data_route(var: &RoutingConnection) -> (is: bool)
    ensures
        is == is_master_to_slave(*var),
{
    ends_with(var.source.0.as_str(), "_master") && same_text(var.source.1.as_str(), "q") && ends_with(
        var.target.0.as_str(),
        "_slave",
    ) && same_text(var.target.1.as_str(), "d")
}

fn is_next_to_master_data_route(var: &RoutingConnection) -> (is: bool)
    ensures
        is == is_next_to_master(*var),
{
    ends_with(var.source.0.as_str(), "_next") && same_text(var.source.1.as_str(), "d") && ends_with(
        var.target.0.as_str(),
        "_master",
    ) && same_text(var.target.1.as_str(), "d")
}

fn is_clock_inverter_to_master_enable_route(var: &RoutingConnection) -> (is: bool)
    ensures
        is == is_inverted_enable(*var),
{
    ends_with(var.source.0.as_str(), "_clk_inv") && ends_with(var.source.1.as_str(), "_n") && ends_with(
        var.target.0.as_str(),
        "_master",
    ) && same_text(var.target.1.as_str(), "en")
}

fn is_cross_bit_next_input_route(var: &RoutingConnection) -> (is: bool)
    ensures
        is == is_cross_bit(*var),
{
    match (
        register_module_bit(var.source.0.as_str(), "_slave"),
        register_module_bit(var.target.0.as_str(), "_next"),
    ) {
        (Some(from), Some(to)) => to > from,
        _ => false,
    }
}

/// By what a connection is ordered.
pub fn route_variable_priority(var: &RoutingConnection) -> (priority: RoutePriority)
    ensures
        is_priority_of(priority, *var),
{
    let enables = same_text(var.target.1.as_str(), "en");
    let clocked = contains_text(var.source.1.as_str(), "clk") || contains_text(var.target.1.as_str(), "clk")
        || enables;
    let target: usize = if is_cross_bit_next_input_route(var) {
        0
    } else if is_next_to_master_data_route(var) {
        1
    } else if is_clock_inverter_to_master_enable_route(var) {
        2
    } else if is_master_to_slave_data_route(var) {
        3
    } else if ends_with(var.target.0.as_str(), "_next") {
        4
    } else if same_text(var.target.1.as_str(), "d") {
        5
    } else if enables && clocked {
        5
    } else if !clocked {
        6
    } else {
        7
    };
    let source: usize = if ends_with(var.source.1.as_str(), "_n") {
        0
    } else {
        1
    };
    RoutePriority {
        target,
        feedback: register_next_target_bit_order(var.target.0.as_str()),
        source,
        first: var.source.0.clone(),
        second: var.source.1.clone(),
        third: var.target.0.clone(),
        fourth: var.target.1.clone(),
    }
}

// ---------------------------------------------------------------------------
// Orders
// ---------------------------------------------------------------------------
/// Whether two connections have one source.
pub open spec fn same_source(left: RoutingConnection, right: RoutingConnection) -> bool {
    left.source.0@ == right.source.0@ && left.source.1@ == right.source.1@
}

/// How many of the first `count` connections have the source of one.
pub open spec fn fanout(vars: Seq<RoutingConnection>, var: RoutingConnection, count: nat) -> nat
    decreases count,
{
    if count == 0 {
        0
    } else {
        fanout(vars, var, (count - 1) as nat) + if same_source(vars[count - 1], var) {
            1nat
        } else {
            0
        }
    }
}

/// Whether two connections have one source.
pub fn has_same_source(left: &RoutingConnection, right: &RoutingConnection) -> (same: bool)
    ensures
        same == same_source(*left, *right),
{
    same_text(left.source.0.as_str(), right.source.0.as_str()) && same_text(
        left.source.1.as_str(),
        right.source.1.as_str(),
    )
}

fn count_fanout(vars: &Vec<RoutingConnection>, var: &RoutingConnection) -> (count: usize)
    ensures
        count == fanout(vars@, *var, vars@.len()),
{
    let mut count: usize = 0;
    let mut index: usize = 0;
    while index < vars.len()
        invariant
            index <= vars.len(),
            count <= index,
            count == fanout(vars@, *var, index as nat),
        decreases vars.len() - index,
    {
        if has_same_source(&vars[index], var) {
            count += 1;
        }
        index += 1;
    }
    count
}

/// By what connections are ordered where those of a source with many come first.
pub struct FanoutPriority {
    pub fanout: usize,
    pub priority: RoutePriority,
}

impl SortKey for FanoutPriority {
    open spec fn before(&self, other: &Self) -> bool {
        if self.fanout != other.fanout {
            self.fanout > other.fanout
        } else {
            self.priority.before(&other.priority)
        }
    }

    fn is_before(&self, other: &Self) -> (before: bool) {
        if self.fanout != other.fanout {
            self.fanout > other.fanout
        } else {
            self.priority.is_before(&other.priority)
        }
    }

    proof fn before_asymmetric(&self, other: &Self) {
        self.priority.before_asymmetric(&other.priority);
    }

    proof fn not_before_transitive(&self, middle: &Self, other: &Self) {
        if self.fanout == middle.fanout && middle.fanout == other.fanout {
            self.priority.not_before_transitive(&middle.priority, &other.priority);
        }
    }
}

/// Whether keys are the priorities of connections.
pub open spec fn are_priorities(keys: Seq<RoutePriority>, vars: Seq<RoutingConnection>) -> bool {
    &&& keys.len() == vars.len()
    &&& forall|i: int| 0 <= i < keys.len() ==> is_priority_of(#[trigger] keys[i], vars[i])
}

/// Whether keys are the priorities of connections, by fanout.
pub open spec fn are_fanout_priorities(keys: Seq<FanoutPriority>, vars: Seq<RoutingConnection>) -> bool {
    &&& keys.len() == vars.len()
    &&& forall|i: int|
        0 <= i < keys.len() ==> (#[trigger] keys[i]).fanout == fanout(vars, vars[i], vars.len()) && is_priority_of(
            keys[i].priority,
            vars[i],
        )
}

/// Whether indices list connections in the order of a strategy.
pub open spec fn is_net_order(vars: Seq<RoutingConnection>, strategy: NetOrderStrategy, order: Seq<usize>) -> bool {
    match strategy {
        NetOrderStrategy::Criticality => exists|keys: Seq<RoutePriority>| #[trigger]
            are_priorities(keys, vars) && is_stable_order(keys, order),
        NetOrderStrategy::ReverseCriticality => exists|keys: Seq<RoutePriority>| #[trigger]
            are_priorities(keys, vars) && is_stable_order(keys, order.reverse()),
        NetOrderStrategy::HighestFanoutFirst => exists|keys: Seq<FanoutPriority>| #[trigger]
            are_fanout_priorities(keys, vars) && is_stable_order(keys, order),
    }
}

fn priorities_of(vars: &Vec<RoutingConnection>) -> (keys: Vec<RoutePriority>)
    ensures
        are_priorities(keys@, vars@),
{
    let mut keys: Vec<RoutePriority> = Vec::new();
    let mut index: usize = 0;
    while index < vars.len()
        invariant
            index <= vars.len(),
            keys.len() == index,
            forall|i: int| 0 <= i < keys.len() ==> is_priority_of(#[trigger] keys@[i], vars@[i]),
        decreases vars.len() - index,
    {
        keys.push(route_variable_priority(&vars[index]));
        index += 1;
    }
    keys
}

/// The indices of connections in the order of a strategy.
pub fn ordered_module_variables(vars: &Vec<RoutingConnection>, strategy: NetOrderStrategy) -> (order: Vec<usize>)
    ensures
        is_net_order(vars@, strategy, order@),
        order.len() == vars.len(),
        forall|i: int| 0 <= i < order.len() ==> #[trigger] order@[i] < vars.len(),
        forall|i: int, j: int| 0 <= i < j < order.len() ==> order@[i] != order@[j],
{
    match strategy {
        NetOrderStrategy::Criticality => {
            let keys = priorities_of(vars);
            let order = stable_order(&keys);
            proof {
                stable_order_distinct(keys@, order@);
                assert(are_priorities(keys@, vars@));
            }
            order
        },
        NetOrderStrategy::ReverseCriticality => {
            let keys = priorities_of(vars);
            let forward = stable_order(&keys);
            let mut order: Vec<usize> = Vec::new();
            let mut left: usize = forward.len();
            while left > 0
                invariant
                    left <= forward.len(),
                    order.len() == forward.len() - left,
                    forall|i: int| 0 <= i < order.len() ==> #[trigger] order@[i] == forward@[forward.len() - 1 - i],
                decreases left,
            {
                left -= 1;
                order.push(forward[left]);
            }
            proof {
                assert(order@.reverse() =~= forward@);
                stable_order_distinct(keys@, forward@);
                assert(are_priorities(keys@, vars@));
            }
            order
        },
        NetOrderStrategy::HighestFanoutFirst => {
            let mut keys: Vec<FanoutPriority> = Vec::new();
            let mut index: usize = 0;
            while index < vars.len()
                invariant
                    index <= vars.len(),
                    keys.len() == index,
                    forall|i: int|
                        0 <= i < keys.len() ==> (#[trigger] keys@[i]).fanout == fanout(vars@, vars@[i], vars@.len())
                            && is_priority_of(keys@[i].priority, vars@[i]),
                decreases vars.len() - index,
            {
                let count: usize = count_fanout(vars, &vars[index]);
                keys.push(FanoutPriority { fanout: count, priority: route_variable_priority(&vars[index]) });
                index += 1;
            }
            let order = stable_order(&keys);
            proof {
                stable_order_distinct(keys@, order@);
                assert(are_fanout_priorities(keys@, vars@));
            }
            order
        },
    }
}

// ---------------------------------------------------------------------------
// Groups
// ---------------------------------------------------------------------------
/// The ends of groups: after each run of connections with one source.
pub open spec fn are_group_ends(vars: Seq<RoutingConnection>, ends: Seq<usize>) -> bool {
    &&& ends.len() == 0 <==> vars.len() == 0
    &&& ends.len() > 0 ==> ends.last() == vars.len()
    &&& forall|g: int| 0 <= g < ends.len() ==> #[trigger] end_fits(vars.len(), ends, g)
    &&& forall|i: int|
        0 < i < vars.len() ==> (ends.contains(i as usize) <==> !same_source(vars[i - 1], #[trigger] vars[i]))
}

/// Whether a group ends behind where it begins.
pub open spec fn end_fits(count: nat, ends: Seq<usize>, group: int) -> bool {
    group_start(ends, group) < ends[group] <= count
}

/// Where a group begins.
pub open spec fn group_start(ends: Seq<usize>, group: int) -> int {
    if group == 0 {
        0
    } else {
        ends[group - 1] as int
    }
}

/// Where runs of connections with one source end. Connections of one source that
/// others come between are in different groups.
pub fn group_vars_by_source_ordered(vars: &Vec<RoutingConnection>) -> (ends: Vec<usize>)
    ensures
        are_group_ends(vars@, ends@),
{
    let mut ends: Vec<usize> = Vec::new();
    if vars.len() == 0 {
        return ends;
    }
    let mut index: usize = 1;
    while index < vars.len()
        invariant
            1 <= index <= vars.len(),
            forall|g: int| 0 <= g < ends.len() ==> group_start(ends@, g) < #[trigger] ends@[g] < index,
            forall|i: int|
                0 < i < index ==> (ends@.contains(i as usize) <==> !same_source(vars@[i - 1], #[trigger] vars@[i])),
        decreases vars.len() - index,
    {
        let ghost before = ends@;
        let same = has_same_source(&vars[index - 1], &vars[index]);
        if !same {
            ends.push(index);
        }
        proof {
            assert forall|g: int| 0 <= g < ends.len() implies group_start(ends@, g) < #[trigger] ends@[g] < index + 1 by {
                if g < before.len() {
                    assert(ends@[g] == before[g]);
                    assert(group_start(ends@, g) == group_start(before, g));
                } else if g > 0 {
                    assert(ends@[g - 1] == before[g - 1]);
                    assert(before[g - 1] < index);
                }
            }
            assert forall|i: int| 0 < i < index + 1 implies (ends@.contains(i as usize) <==> !same_source(
                vars@[i - 1],
                #[trigger] vars@[i],
            )) by {
                if before.contains(i as usize) {
                    let k = choose|k: int| 0 <= k < before.len() && before[k] == i as usize;
                    assert(ends@[k] == i as usize);
                }
                if i < index {
                    if ends@.contains(i as usize) {
                        let k = choose|k: int| 0 <= k < ends@.len() && ends@[k] == i as usize;
                        assert(k < before.len());
                        assert(before[k] == i as usize);
                    }
                } else {
                    if !same {
                        assert(ends@[before.len() as int] == index);
                    } else if before.contains(index) {
                        let k = choose|k: int| 0 <= k < before.len() && before[k] == index;
                        assert(before[k] < index);
                    }
                }
            }
        }
        index += 1;
    }
    let ghost before = ends@;
    ends.push(vars.len());
    proof {
        let count = before.len() as int;
        assert forall|g: int| 0 <= g < ends.len() implies group_start(ends@, g) < #[trigger] ends@[g] <= vars.len() by {
            if g < count {
                assert(ends@[g] == before[g]);
                assert(group_start(ends@, g) == group_start(before, g));
            } else if g > 0 {
                assert(ends@[g - 1] == before[g - 1]);
                assert(before[g - 1] < index);
            }
        }
        assert forall|i: int| 0 < i < vars.len() implies (ends@.contains(i as usize) <==> !same_source(
            vars@[i - 1],
            #[trigger] vars@[i],
        )) by {
            if before.contains(i as usize) {
                let k = choose|k: int| 0 <= k < before.len() && before[k] == i as usize;
                assert(ends@[k] == i as usize);
            }
            if ends@.contains(i as usize) {
                let k = choose|k: int| 0 <= k < ends@.len() && ends@[k] == i as usize;
                if k < count {
                    assert(before[k] == i as usize);
                }
            }
        }
    }
    ends
}

} // verus!
