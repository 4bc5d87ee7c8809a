//! What a search has seen.

use super::state::VisitedKey;
use vstd::prelude::*;
use vstd::set_lib::{lemma_int_range, lemma_len_subset, set_int_range};

verus! {

/// One more than the last number in range.
spec fn base() -> int {
    usize::MAX + 1
}

/// How many keys there are.
pub closed spec fn key_space() -> nat {
    (base() * base() * base() * base() * base()) as nat
}

/// The number of a key.
spec fn code(key: VisitedKey) -> int {
    (((key.0.0 * base() + key.0.1) * base() + key.0.2) * base() + key.1) * base() + key.2
}

proof fn pairs_differ(left: int, right: int, other_left: int, other_right: int)
    requires
        0 <= right < base(),
        0 <= other_right < base(),
        left * base() + right == other_left * base() + other_right,
    ensures
        left == other_left,
        right == other_right,
{
    let b = base();
    assert(left == other_left) by (nonlinear_arith)
        requires
            b > 0,
            0 <= right < b,
            0 <= other_right < b,
            left * b + right == other_left * b + other_right,
    ;
}

proof fn codes_differ(left: VisitedKey, right: VisitedKey)
    requires
        code(left) == code(right),
    ensures
        left == right,
{
    let b = base();
    pairs_differ(
        ((left.0.0 * b + left.0.1) * b + left.0.2) * b + left.1,
        left.2 as int,
        ((right.0.0 * b + right.0.1) * b + right.0.2) * b + right.1,
        right.2 as int,
    );
    pairs_differ(
        (left.0.0 * b + left.0.1) * b + left.0.2,
        left.1 as int,
        (right.0.0 * b + right.0.1) * b + right.0.2,
        right.1 as int,
    );
    pairs_differ(left.0.0 * b + left.0.1, left.0.2 as int, right.0.0 * b + right.0.1, right.0.2 as int);
    pairs_differ(left.0.0 as int, left.0.1 as int, right.0.0 as int, right.0.1 as int);
}

proof fn step_bound(high: int, low: int, limit: int)
    requires
        0 <= high < limit,
        0 <= low < base(),
    ensures
        0 <= high * base() + low < limit * base(),
{
    let b = base();
    assert(0 <= high * b + low < limit * b) by (nonlinear_arith)
        requires
            0 <= high < limit,
            0 <= low < b,
    ;
}

proof fn code_bound(key: VisitedKey)
    ensures
        0 <= code(key) < key_space(),
{
    let b = base();
    step_bound(key.0.0 as int, key.0.1 as int, b);
    step_bound(key.0.0 * b + key.0.1, key.0.2 as int, b * b);
    step_bound((key.0.0 * b + key.0.1) * b + key.0.2, key.1 as int, b * b * b);
    step_bound(((key.0.0 * b + key.0.1) * b + key.0.2) * b + key.1, key.2 as int, b * b * b * b);
}

/// No more keys can be listed than there are.
pub proof fn keys_are_bounded(keys: Seq<VisitedKey>)
    requires
        keys.no_duplicates(),
    ensures
        keys.len() <= key_space(),
{
    let codes = keys.map_values(|key: VisitedKey| code(key));
    assert forall|i: int, j: int| 0 <= i < codes.len() && 0 <= j < codes.len() && i != j implies codes[i] != codes[j] by {
        if codes[i] == codes[j] {
            codes_differ(keys[i], keys[j]);
        }
    }
    codes.unique_seq_to_set();
    lemma_int_range(0, key_space() as int);
    let all = set_int_range(0, key_space() as int);
    assert forall|value: int| codes.to_set().contains(value) implies all.contains(value) by {
        let i = choose|i: int| 0 <= i < codes.len() && codes[i] == value;
        code_bound(keys[i]);
    }
    lemma_len_subset(codes.to_set(), all);
}

/// Whether a list of keys holds one.
pub fn has_key(keys: &Vec<VisitedKey>, key: VisitedKey) -> (found: bool)
    ensures
        found == keys@.contains(key),
{
    let mut index: usize = 0;
    while index < keys.len()
        invariant
            index <= keys.len(),
            forall|k: int| 0 <= k < index ==> #[trigger] keys@[k] != key,
        decreases keys.len() - index,
    {
        let other = keys[index];
        if other.0 == key.0 && other.1 == key.1 && other.2 == key.2 {
            assert(keys@[index as int] == key);
            return true;
        }
        index += 1;
    }
    false
}

} // verus!
