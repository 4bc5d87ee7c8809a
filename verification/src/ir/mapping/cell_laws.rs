//! What the cells of a cone compute, as bits and as numbers.

use super::arithmetic::{bits_number, increment_adds_one, ripple_carry_adds};
use super::combinational::{
    bits_equal, cell_fits, cell_value, constant_bit, constant_fits, increment_bit, pin_bits, produced_count, sum_bit,
    Valuation,
};
use super::cone::cell_holds;
use super::scalar::{bit_texts, scalar_text, BuilderView};
use crate::graph::consistent;
use crate::ir::logical::{kind_is_sequential, pin_value, CellView, LogicalCellKind, ValueView};
use vstd::arithmetic::power2::pow2;
use vstd::prelude::*;

verus! {

/// What each scalar net carries.
pub type Scalars = spec_fn(Seq<char>) -> bool;

/// Bit `bit` of a number that is `width` bits wide.
pub open spec fn number_bit(value: nat, width: nat, bit: nat) -> bool {
    bit < width && (value / pow2(bit)) % 2 == 1
}

/// Bit `bit` of a net.
pub open spec fn net_bit(widths: Map<Seq<char>, usize>, scalars: Scalars, net: Seq<char>, bit: nat) -> bool {
    scalars(scalar_text(net, widths[net], bit))
}

/// Bit `bit` of what a pin reads: of a net, the one bit of a net that the pin is tied
/// to, or of a constant.
pub open spec fn pin_reads(
    cell: CellView,
    widths: Map<Seq<char>, usize>,
    scalars: Scalars,
    pin: Seq<char>,
    bit: nat,
) -> bool {
    match pin_value(cell.inputs, pin) {
        Some(ValueView::Net(net)) => net_bit(widths, scalars, net, bit),
        Some(ValueView::Slice(net, slice)) => net_bit(widths, scalars, net, slice as nat),
        Some(ValueView::Constant(value, width)) => number_bit(value as nat, width as nat, bit),
        None => false,
    }
}

/// The number of the lowest `width` bits that a pin reads.
pub open spec fn pin_number(
    cell: CellView,
    widths: Map<Seq<char>, usize>,
    scalars: Scalars,
    pin: Seq<char>,
    width: nat,
) -> nat {
    bits_number(|bit: int| pin_reads(cell, widths, scalars, pin, bit as nat), width)
}

/// How many bits a pin has, where `expected` are asked for: a constant has as many.
pub open spec fn pin_width(cell: CellView, widths: Map<Seq<char>, usize>, pin: Seq<char>, expected: nat) -> nat {
    match pin_value(cell.inputs, pin) {
        Some(ValueView::Net(net)) => widths[net] as nat,
        Some(ValueView::Slice(_, _)) => 1,
        _ => expected,
    }
}

/// Whether the net of a cell carries what its kind computes of what its pins read: bit
/// by bit, as a sum modulo two to the width, by choice, or whether two numbers are the
/// same.
pub open spec fn cell_computes(cell: CellView, widths: Map<Seq<char>, usize>, scalars: Scalars) -> bool {
    let net = cell.outputs[0].net;
    let width = widths[net] as nat;
    let out = |bit: nat| net_bit(widths, scalars, net, bit);
    let read = |pin: Seq<char>, bit: nat| pin_reads(cell, widths, scalars, pin, bit);
    let number = bits_number(|bit: int| net_bit(widths, scalars, net, bit as nat), width);
    match cell.kind {
        LogicalCellKind::Buffer => forall|bit: nat|
            bit < pin_width(cell, widths, "value"@, width) ==> #[trigger] out(bit) == read("value"@, bit),
        LogicalCellKind::Not => forall|bit: nat|
            bit < pin_width(cell, widths, "value"@, width) ==> #[trigger] out(bit) == !read("value"@, bit),
        LogicalCellKind::And => forall|bit: nat|
            bit < width ==> #[trigger] out(bit) == (read("lhs"@, bit) && read("rhs"@, bit)),
        LogicalCellKind::Or => forall|bit: nat|
            bit < width ==> #[trigger] out(bit) == (read("lhs"@, bit) || read("rhs"@, bit)),
        LogicalCellKind::Xor => forall|bit: nat|
            bit < width ==> #[trigger] out(bit) == (read("lhs"@, bit) != read("rhs"@, bit)),
        LogicalCellKind::Add => number == (pin_number(cell, widths, scalars, "lhs"@, width) + pin_number(
            cell,
            widths,
            scalars,
            "rhs"@,
            width,
        )) % pow2(width),
        LogicalCellKind::Inc => number == (pin_number(cell, widths, scalars, "value"@, width) + 1) % pow2(width),
        LogicalCellKind::Mux => forall|bit: nat|
            bit < width ==> #[trigger] out(bit) == (if read("select"@, 0) {
                read("when_true"@, bit)
            } else {
                read("when_false"@, bit)
            }),
        LogicalCellKind::Eq { width: compared } => forall|bit: nat|
            bit < width ==> (#[trigger] out(bit) <==> forall|at: nat|
                at < compared ==> #[trigger] read("lhs"@, at) == read("rhs"@, at)),
        _ => false,
    }
}

/// A bit of a constant is a bit of its number.
pub proof fn constant_is_number(value: u128, width: usize, bit: nat)
    requires
        width <= 128 || bit < 128,
    ensures
        constant_bit(value, width, bit as int) == number_bit(value as nat, width as nat, bit),
{
    if bit < width {
        let at = bit as u128;
        vstd::bits::lemma_u128_shr_is_div(value, at);
        let shifted = value >> at;
        assert(shifted & 1 == shifted % 2) by (bit_vector);
    }
}

proof fn same_number(left: spec_fn(int) -> bool, right: spec_fn(int) -> bool, width: nat)
    requires
        forall|bit: int| 0 <= bit < width ==> #[trigger] left(bit) == right(bit),
    ensures
        bits_number(left, width) == bits_number(right, width),
    decreases width,
{
    if width > 0 {
        same_number(left, right, (width - 1) as nat);
        assert(left(width - 1) == right(width - 1));
    }
}

proof fn equal_bits(left: spec_fn(int) -> bool, right: spec_fn(int) -> bool, width: nat)
    ensures
        bits_equal(left, right, width) <==> forall|bit: int| 0 <= bit < width ==> #[trigger] left(bit) == right(bit),
    decreases width,
{
    if width > 0 {
        equal_bits(left, right, (width - 1) as nat);
        if forall|bit: int| 0 <= bit < width ==> #[trigger] left(bit) == right(bit) {
            assert(left(width - 1) == right(width - 1));
        }
        if bits_equal(left, right, width) {
            assert forall|bit: int| 0 <= bit < width implies #[trigger] left(bit) == right(bit) by {
                if bit == width - 1 {
                    assert(left(width - 1) == right(width - 1));
                }
            }
        }
    }
}

/// The widest that a cell reads or drives.
pub open spec fn read_width(cell: CellView, widths: Map<Seq<char>, usize>) -> nat {
    match cell.kind {
        LogicalCellKind::Eq { width } => width as nat,
        _ => widths[cell.outputs[0].net] as nat,
    }
}

/// A cell of a cone computes what its kind says, whatever the boundary nets carry.
pub proof fn cells_compute_their_kind(
    cell: CellView,
    widths: Map<Seq<char>, usize>,
    cone: BuilderView,
    env: spec_fn(Seq<char>) -> bool,
    v: Valuation,
)
    requires
        cell_holds(cell, widths, cone),
        consistent(cone.nodes, env, v),
        !kind_is_sequential(cell.kind),
        cell_fits(cell, widths),
    ensures
        cell_computes(cell, widths, |name: Seq<char>| v(cone.producers[name] as int)),
{
    let scalars = |name: Seq<char>| v(cone.producers[name] as int);
    let net = cell.outputs[0].net;
    let width = widths[net] as nat;
    let names = bit_texts(net, widths[net]);
    let pin = |name: Seq<char>| pin_bits(cell, name, widths, cone.producers, v);
    let most = read_width(cell, widths);
    assert forall|name: Seq<char>, bit: nat|
        constant_fits(cell, name, most) && bit < most || bit == 0 implies #[trigger] pin_reads(
        cell,
        widths,
        scalars,
        name,
        bit,
    ) == pin(name)(bit as int) by {
        match pin_value(cell.inputs, name) {
            Some(ValueView::Constant(value, wide)) => {
                constant_is_number(value, wide, bit);
            },
            _ => {},
        }
    }
    assert forall|bit: nat| bit < produced_count(cell, widths) implies #[trigger] net_bit(widths, scalars, net, bit)
        == cell_value(cell, widths, cone.producers, v, bit as int) by {
        assert(names[bit as int] == scalar_text(net, widths[net], bit));
    }
    let shown = |bit: int| net_bit(widths, scalars, net, bit as nat);
    match cell.kind {
        LogicalCellKind::Add => {
            let left = pin("lhs"@);
            let right = pin("rhs"@);
            let own_left = |bit: int| pin_reads(cell, widths, scalars, "lhs"@, bit as nat);
            let own_right = |bit: int| pin_reads(cell, widths, scalars, "rhs"@, bit as nat);
            let sum = |bit: int| sum_bit(left, right, bit);
            assert forall|bit: int| 0 <= bit < width implies #[trigger] own_left(bit) == left(bit) by {
                assert(pin_reads(cell, widths, scalars, "lhs"@, bit as nat) == pin("lhs"@)(bit));
            }
            assert forall|bit: int| 0 <= bit < width implies #[trigger] own_right(bit) == right(bit) by {
                assert(pin_reads(cell, widths, scalars, "rhs"@, bit as nat) == pin("rhs"@)(bit));
            }
            assert forall|bit: int| 0 <= bit < width implies #[trigger] shown(bit) == sum(bit) by {
                assert(net_bit(widths, scalars, net, bit as nat) == cell_value(
                    cell,
                    widths,
                    cone.producers,
                    v,
                    bit,
                ));
            }
            same_number(own_left, left, width);
            same_number(own_right, right, width);
            same_number(shown, sum, width);
            ripple_carry_adds(left, right, width);
        },
        LogicalCellKind::Inc => {
            let value = pin("value"@);
            let own = |bit: int| pin_reads(cell, widths, scalars, "value"@, bit as nat);
            let sum = |bit: int| increment_bit(value, bit);
            assert forall|bit: int| 0 <= bit < width implies #[trigger] own(bit) == value(bit) by {
                assert(pin_reads(cell, widths, scalars, "value"@, bit as nat) == pin("value"@)(bit));
            }
            assert forall|bit: int| 0 <= bit < width implies #[trigger] shown(bit) == sum(bit) by {
                assert(net_bit(widths, scalars, net, bit as nat) == cell_value(
                    cell,
                    widths,
                    cone.producers,
                    v,
                    bit,
                ));
            }
            same_number(own, value, width);
            same_number(shown, sum, width);
            increment_adds_one(value, width);
        },
        LogicalCellKind::Eq { width: compared } => {
            let left = pin("lhs"@);
            let right = pin("rhs"@);
            let read = |name: Seq<char>, bit: nat| pin_reads(cell, widths, scalars, name, bit);
            let out = |bit: nat| net_bit(widths, scalars, net, bit);
            equal_bits(left, right, compared as nat);
            assert((forall|at: nat| at < compared ==> #[trigger] read("lhs"@, at) == read("rhs"@, at)) <==> bits_equal(
                left,
                right,
                compared as nat,
            )) by {
                assert forall|at: nat| at < compared implies #[trigger] read("lhs"@, at) == left(at as int) && read(
                    "rhs"@,
                    at,
                ) == right(at as int) by {
                    assert(pin_reads(cell, widths, scalars, "lhs"@, at) == pin("lhs"@)(at as int));
                    assert(pin_reads(cell, widths, scalars, "rhs"@, at) == pin("rhs"@)(at as int));
                }
                if bits_equal(left, right, compared as nat) {
                    assert forall|at: nat| at < compared implies #[trigger] read("lhs"@, at) == read("rhs"@, at) by {
                        assert(left(at as int) == right(at as int));
                    }
                }
                if forall|at: nat| at < compared ==> #[trigger] read("lhs"@, at) == read("rhs"@, at) {
                    assert forall|bit: int| 0 <= bit < compared implies #[trigger] left(bit) == right(bit) by {
                        assert(read("lhs"@, bit as nat) == read("rhs"@, bit as nat));
                    }
                }
            }
            assert forall|bit: nat| bit < width implies (#[trigger] out(bit) <==> forall|at: nat|
                at < compared ==> #[trigger] read("lhs"@, at) == read("rhs"@, at)) by {
                assert(net_bit(widths, scalars, net, bit) == cell_value(
                    cell,
                    widths,
                    cone.producers,
                    v,
                    bit as int,
                ));
            }
        },
        LogicalCellKind::Buffer | LogicalCellKind::Not => {
            let out = |bit: nat| net_bit(widths, scalars, net, bit);
            assert forall|bit: nat| bit < pin_width(cell, widths, "value"@, width) implies #[trigger] out(bit)
                == cell_value(cell, widths, cone.producers, v, bit as int) && pin_reads(
                cell,
                widths,
                scalars,
                "value"@,
                bit,
            ) == pin("value"@)(bit as int) by {
                assert(net_bit(widths, scalars, net, bit) == cell_value(cell, widths, cone.producers, v, bit as int));
                assert(bit < most);
            }
        },
        _ => {
            let out = |bit: nat| net_bit(widths, scalars, net, bit);
            assert forall|bit: nat| bit < width implies #[trigger] out(bit) == cell_value(
                cell,
                widths,
                cone.producers,
                v,
                bit as int,
            ) by {
                assert(net_bit(widths, scalars, net, bit) == cell_value(cell, widths, cone.producers, v, bit as int));
            }
        },
    }
}

} // verus!
