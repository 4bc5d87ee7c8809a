//! Arithmetic that stops at the last number in range.

use vstd::prelude::*;

verus! {

/// A number, or the last one in range where it is beyond.
pub open spec fn capped(number: nat) -> nat {
    if number <= usize::MAX {
        number
    } else {
        usize::MAX as nat
    }
}

/// The sum of two numbers, capped.
pub fn capped_sum(left: usize, right: usize) -> (sum: usize)
    ensures
        sum == capped((left + right) as nat),
{
    if left > usize::MAX - right {
        usize::MAX
    } else {
        left + right
    }
}

/// The product of two numbers, capped.
pub fn capped_product(left: usize, right: usize) -> (product: usize)
    ensures
        product == capped((left * right) as nat),
{
    if left == 0 {
        assert(0 * right == 0) by (nonlinear_arith);
        return 0;
    }
    let most: usize = usize::MAX / left;
    if right > most {
        proof {
            let bound = usize::MAX as int;
            assert(left * (most + 1) > bound) by (nonlinear_arith)
                requires
                    left > 0,
                    most == bound / (left as int),
            ;
            assert(left * right >= left * (most + 1)) by (nonlinear_arith)
                requires
                    right >= most + 1,
                    left > 0,
            ;
        }
        usize::MAX
    } else {
        proof {
            let bound = usize::MAX as int;
            assert(left * most <= bound) by (nonlinear_arith)
                requires
                    left > 0,
                    most == bound / (left as int),
            ;
            assert(left * right <= left * most) by (nonlinear_arith)
                requires
                    right <= most,
                    left > 0,
            ;
        }
        left * right
    }
}

/// Whether a number is the smallest whose cube reaches another.
pub open spec fn is_cube_root(number: nat, root: nat) -> bool {
    &&& root * root * root >= number
    &&& root > 0 ==> (root - 1) * (root - 1) * (root - 1) < number
}

/// Whether a number is the smallest whose square reaches another.
pub open spec fn is_square_root(number: nat, root: nat) -> bool {
    &&& root * root >= number
    &&& root > 0 ==> (root - 1) * (root - 1) < number
}

fn cube_is_less(root: usize, number: usize) -> (less: bool)
    ensures
        less == (root * root * root < number),
{
    let square: usize = capped_product(root, root);
    let cube: usize = capped_product(square, root);
    proof {
        let r = root as int;
        let most = usize::MAX as int;
        if r * r > most {
            assert(r * r * r >= r * r && most * r >= most) by (nonlinear_arith)
                requires
                    r * r > most,
                    most >= 0,
                    r >= 0,
            {
                if r == 0 {
                    assert(r * r == 0);
                }
            }
        }
    }
    cube < number
}

fn square_is_less(root: usize, number: usize) -> (less: bool)
    ensures
        less == (root * root < number),
{
    capped_product(root, root) < number
}

/// The smallest number whose cube reaches another.
pub fn cube_root(number: usize) -> (root: usize)
    ensures
        is_cube_root(number as nat, root as nat),
{
    let mut root: usize = 0;
    while cube_is_less(root, number)
        invariant
            root <= number,
            root > 0 ==> (root - 1) * (root - 1) * (root - 1) < number,
        decreases number - root,
    {
        proof {
            let r = root as int;
            assert(r <= r * r * r) by (nonlinear_arith)
                requires
                    r >= 0,
            {
                if r >= 1 {
                    assert(r * r >= r);
                    assert(r * r * r >= r * r);
                }
            }
        }
        root += 1;
    }
    root
}

/// The smallest number whose square reaches another.
pub fn square_root(number: usize) -> (root: usize)
    ensures
        is_square_root(number as nat, root as nat),
{
    let mut root: usize = 0;
    while square_is_less(root, number)
        invariant
            root <= number,
            root > 0 ==> (root - 1) * (root - 1) < number,
        decreases number - root,
    {
        proof {
            let r = root as int;
            assert(r <= r * r) by (nonlinear_arith)
                requires
                    r >= 0,
            {
                if r >= 1 {
                    assert(r * r >= r);
                }
            }
        }
        root += 1;
    }
    root
}

} // verus!
