//! Stable ordering of a list by a key.

use crate::text::{chars_before, chars_before_asymmetric, chars_before_total, chars_before_transitive, text_before, texts};
use vstd::prelude::*;

verus! {

/// A key with a strict weak order.
pub trait SortKey: Sized {
    /// Whether this key comes strictly before `other`.
    spec fn before(&self, other: &Self) -> bool;

    /// Whether this key comes strictly before `other`.
    fn is_before(&self, other: &Self) -> (before: bool)
        ensures
            before == self.before(other),
    ;

    /// At most one of two keys comes before the other.
    proof fn before_asymmetric(&self, other: &Self)
        ensures
            !(self.before(other) && other.before(self)),
    ;

    /// Not coming after is transitive.
    proof fn not_before_transitive(&self, middle: &Self, other: &Self)
        requires
            !middle.before(self),
            !other.before(middle),
        ensures
            !other.before(self),
    ;
}

/// `order` lists every index of `keys` once, smaller keys first, and of equal
/// keys the earlier index first.
pub open spec fn is_stable_order<K: SortKey>(keys: Seq<K>, order: Seq<usize>) -> bool {
    &&& order.len() == keys.len()
    &&& forall|i: int| 0 <= i < order.len() ==> #[trigger] order[i] < keys.len()
    &&& forall|i: int, j: int|
        0 <= i < j < order.len() ==> in_order(keys, #[trigger] order[i], #[trigger] order[j])
}

/// Index `first` of `keys` belongs in front of index `second`.
pub open spec fn in_order<K: SortKey>(keys: Seq<K>, first: usize, second: usize) -> bool {
    ||| keys[first as int].before(&keys[second as int])
    ||| !keys[second as int].before(&keys[first as int]) && first < second
}

/// The indices of `keys` in stable ascending order.
pub fn stable_order<K: SortKey>(keys: &Vec<K>) -> (order: Vec<usize>)
    ensures
        is_stable_order(keys@, order@),
{
    let mut order: Vec<usize> = Vec::new();
    let mut next: usize = 0;
    while next < keys.len()
        invariant
            next <= keys.len(),
            order.len() == next,
            forall|i: int| 0 <= i < order.len() ==> #[trigger] order[i] < next,
            forall|i: int, j: int|
                0 <= i < j < order.len() ==> in_order(keys@, #[trigger] order[i], #[trigger] order[j]),
        decreases keys.len() - next,
    {
        let mut place: usize = order.len();
        while place > 0 && keys[next].is_before(&keys[order[place - 1]])
            invariant
                place <= order.len(),
                next < keys.len(),
                order.len() == next,
                forall|i: int| 0 <= i < order.len() ==> #[trigger] order[i] < next,
                forall|i: int| place <= i < order.len() ==> keys[next as int].before(
                    &keys[(#[trigger] order[i]) as int],
                ),
            decreases place,
        {
            place -= 1;
        }
        let ghost before = order@;
        order.insert(place, next);
        proof {
            assert(order@ == before.insert(place as int, next));
            assert forall|i: int| 0 <= i < order.len() implies #[trigger] order[i] < next + 1 by {
                if i > place {
                    assert(order@[i] == before[i - 1]);
                } else if i < place {
                    assert(order@[i] == before[i]);
                }
            }
            assert forall|i: int, j: int| 0 <= i < j < order.len() implies in_order(
                keys@,
                #[trigger] order@[i],
                #[trigger] order@[j],
            ) by {
                if j < place {
                    assert(in_order(keys@, before[i], before[j]));
                } else if i > place {
                    assert(in_order(keys@, before[i - 1], before[j - 1]));
                } else if i < place && j > place {
                    assert(in_order(keys@, before[i], before[j - 1]));
                } else if i == place {
                    assert(keys[next as int].before(&keys[before[j - 1] as int]));
                } else {
                    // j == place: everything in front is not after the new key.
                    let last = before[place - 1];
                    assert(!keys[next as int].before(&keys[last as int]));
                    if i < place - 1 {
                        assert(in_order(keys@, before[i], last));
                        keys[before[i] as int].before_asymmetric(&keys[last as int]);
                        keys[before[i] as int].not_before_transitive(
                            &keys[last as int],
                            &keys[next as int],
                        );
                    }
                }
            }
        }
        next += 1;
    }
    order
}

/// A key of five numbers, compared from the first on.
pub struct RankKey(pub usize, pub usize, pub usize, pub usize, pub usize);

impl SortKey for RankKey {
    open spec fn before(&self, other: &Self) -> bool {
        if self.0 != other.0 {
            self.0 < other.0
        } else if self.1 != other.1 {
            self.1 < other.1
        } else if self.2 != other.2 {
            self.2 < other.2
        } else if self.3 != other.3 {
            self.3 < other.3
        } else {
            self.4 < other.4
        }
    }

    fn is_before(&self, other: &Self) -> (before: bool) {
        if self.0 != other.0 {
            self.0 < other.0
        } else if self.1 != other.1 {
            self.1 < other.1
        } else if self.2 != other.2 {
            self.2 < other.2
        } else if self.3 != other.3 {
            self.3 < other.3
        } else {
            self.4 < other.4
        }
    }

    proof fn before_asymmetric(&self, other: &Self) {
    }

    proof fn not_before_transitive(&self, middle: &Self, other: &Self) {
    }
}

impl SortKey for String {
    open spec fn before(&self, other: &Self) -> bool {
        chars_before(self@, other@)
    }

    fn is_before(&self, other: &Self) -> (before: bool) {
        text_before(self.as_str(), other.as_str())
    }

    proof fn before_asymmetric(&self, other: &Self) {
        chars_before_asymmetric(self@, other@);
    }

    proof fn not_before_transitive(&self, middle: &Self, other: &Self) {
        chars_not_before_transitive(self@, middle@, other@);
    }
}

/// Not coming after is transitive for texts.
pub proof fn chars_not_before_transitive(first: Seq<char>, second: Seq<char>, third: Seq<char>)
    requires
        !chars_before(second, first),
        !chars_before(third, second),
    ensures
        !chars_before(third, first),
{
    chars_before_total(first, second);
    chars_before_total(second, third);
    if chars_before(third, first) {
        if first == second {
        } else if second == third {
        } else {
            chars_before_transitive(first, second, third);
            chars_before_asymmetric(first, third);
        }
    }
}

/// `order` lists every index of `names` once, by name, and of equal names the
/// earlier index first.
pub open spec fn is_text_order(names: Seq<Seq<char>>, order: Seq<usize>) -> bool {
    &&& order.len() == names.len()
    &&& forall|i: int| 0 <= i < order.len() ==> #[trigger] order[i] < names.len()
    &&& forall|i: int, j: int|
        0 <= i < j < order.len() ==> texts_in_order(names, #[trigger] order[i], #[trigger] order[j])
}

/// Index `first` of `names` belongs in front of index `second`.
pub open spec fn texts_in_order(names: Seq<Seq<char>>, first: usize, second: usize) -> bool {
    ||| chars_before(names[first as int], names[second as int])
    ||| names[first as int] == names[second as int] && first < second
}

/// The indices of `names` in order.
pub fn text_order(names: &Vec<String>) -> (order: Vec<usize>)
    ensures
        is_text_order(texts(names@), order@),
{
    let order = stable_order(names);
    proof {
        let views = texts(names@);
        assert forall|i: int, j: int| 0 <= i < j < order@.len() implies texts_in_order(
            views,
            #[trigger] order@[i],
            #[trigger] order@[j],
        ) by {
            assert(in_order(names@, order@[i], order@[j]));
            assert(order@[i] < names@.len() && order@[j] < names@.len());
            chars_before_total(views[order@[i] as int], views[order@[j] as int]);
        }
    }
    order
}

/// As many distinct numbers below a bound as the bound are all of them.
pub proof fn distinct_covers(order: Seq<usize>, index: usize)
    requires
        index < order.len(),
        forall|i: int| 0 <= i < order.len() ==> (#[trigger] order[i]) < order.len(),
        forall|i: int, j: int| 0 <= i < j < order.len() ==> order[i] != order[j],
    ensures
        order.contains(index),
{
    if !order.contains(index) {
        let top = (order.len() - 1) as usize;
        // Renumbering the top index to the missing one fits all into one place less.
        let squeezed = order.map_values(|id: usize| if id == top { index } else { id });
        assert forall|i: int| 0 <= i < squeezed.len() implies (#[trigger] squeezed[i]) < order.len() - 1 by {
            assert(order[i] < order.len());
            assert(order[i] != index);
        }
        assert forall|i: int, j: int| 0 <= i < j < squeezed.len() implies squeezed[i] != squeezed[j] by {
            assert(order[i] != order[j]);
            assert(order[i] != index && order[j] != index);
        }
        distinct_below(squeezed, (order.len() - 1) as nat);
    }
}

/// Distinct numbers below `bound` are at most `bound` many.
pub proof fn distinct_below(items: Seq<usize>, bound: nat)
    requires
        forall|i: int| 0 <= i < items.len() ==> (#[trigger] items[i]) < bound,
        forall|i: int, j: int| 0 <= i < j < items.len() ==> items[i] != items[j],
    ensures
        items.len() <= bound,
    decreases bound,
{
    if items.len() > 0 {
        assert(items[0] < bound);
        let top = (bound - 1) as usize;
        if bound <= usize::MAX + 1 && items.contains(top) {
            let place = choose|i: int| 0 <= i < items.len() && items[i] == top;
            let rest = items.remove(place);
            assert forall|i: int| 0 <= i < rest.len() implies (#[trigger] rest[i]) < bound - 1 by {
                if i < place {
                    assert(rest[i] == items[i]);
                } else {
                    assert(rest[i] == items[i + 1]);
                }
            }
            distinct_below(rest, (bound - 1) as nat);
        } else {
            assert forall|i: int| 0 <= i < items.len() implies (#[trigger] items[i]) < bound - 1 by {
                if items[i] == bound - 1 {
                    assert(items.contains(top));
                }
            }
            distinct_below(items, (bound - 1) as nat);
        }
    }
}

/// An order lists each index at most once.
pub proof fn stable_order_distinct<K: SortKey>(keys: Seq<K>, order: Seq<usize>)
    requires
        is_stable_order(keys, order),
    ensures
        forall|i: int, j: int| 0 <= i < j < order.len() ==> order[i] != order[j],
{
    assert forall|i: int, j: int| 0 <= i < j < order.len() implies order[i] != order[j] by {
        assert(in_order(keys, order[i], order[j]));
        keys[order[i] as int].before_asymmetric(&keys[order[i] as int]);
    }
}

/// A text order lists no index twice.
pub proof fn text_order_distinct(names: Seq<Seq<char>>, order: Seq<usize>)
    requires
        is_text_order(names, order),
    ensures
        forall|i: int, j: int| 0 <= i < j < order.len() ==> order[i] != order[j],
{
    assert forall|i: int, j: int| 0 <= i < j < order.len() implies order[i] != order[j] by {
        assert(texts_in_order(names, order[i], order[j]));
        chars_before_asymmetric(names[order[i] as int], names[order[i] as int]);
    }
}

/// The items at the given places, in that order.
pub fn reorder<T>(items: Vec<T>, places: &Vec<usize>) -> (picked: Vec<T>)
    requires
        forall|i: int| 0 <= i < places.len() ==> (#[trigger] places[i]) < items.len(),
        forall|i: int, j: int| 0 <= i < j < places.len() ==> places[i] != places[j],
    ensures
        picked.len() == places.len(),
        forall|i: int| 0 <= i < places.len() ==> #[trigger] picked[i] == items[places[i] as int],
{
    let ghost given = items@;
    let mut items = items;
    let mut backwards: Vec<Option<T>> = Vec::new();
    while items.len() > 0
        invariant
            items.len() + backwards.len() == given.len(),
            forall|i: int| 0 <= i < items.len() ==> #[trigger] items[i] == given[i],
            forall|i: int|
                0 <= i < backwards.len() ==> #[trigger] backwards[i] == Some(given[given.len() - 1 - i]),
        decreases items.len(),
    {
        let item = items.pop();
        assert(item == Some(given[given.len() - 1 - backwards.len()]));
        backwards.push(item);
    }
    let count: usize = backwards.len();
    let mut picked: Vec<T> = Vec::new();
    let mut index: usize = 0;
    while index < places.len()
        invariant
            count == given.len(),
            backwards.len() == count,
            forall|i: int| 0 <= i < places.len() ==> (#[trigger] places[i]) < count,
            forall|i: int, j: int| 0 <= i < j < places.len() ==> places[i] != places[j],
            index <= places.len(),
            picked.len() == index,
            forall|i: int| 0 <= i < index ==> #[trigger] picked[i] == given[places[i] as int],
            forall|i: int|
                index <= i < places.len() ==> backwards[count - 1 - #[trigger] places[i]] == Some(
                    given[places[i] as int],
                ),
        decreases places.len() - index,
    {
        assert(places[index as int] < count);
        let slot: usize = count - 1 - places[index];
        let mut taken: Option<T> = None;
        let ghost before = backwards@;
        assert(before[slot as int] == Some(given[places[index as int] as int]));
        backwards.push(None);
        taken = backwards.swap_remove(slot);
        proof {
            assert(taken == before[slot as int]);
            assert(backwards@ =~= before.update(slot as int, None));
            assert forall|i: int| index + 1 <= i < places.len() implies backwards@[count - 1 - #[trigger] places[i]]
                == Some(given[places[i] as int]) by {
                assert(places[i] != places[index as int]);
                assert(before[count - 1 - places[i]] == Some(given[places[i] as int]));
            }
        }
        match taken {
            Some(item) => picked.push(item),
            None => {
                proof {
                    assert(false);
                }
            },
        }
        index += 1;
    }
    picked
}

/// The stable order of some keys.
pub open spec fn the_stable_order<K: SortKey>(keys: Seq<K>) -> Seq<usize> {
    choose|order: Seq<usize>| is_stable_order(keys, order)
}

/// In front of which of the first `place` indices of an order a key belongs.
spec fn place_in<K: SortKey>(keys: Seq<K>, order: Seq<usize>, next: int, place: nat) -> nat
    decreases place,
{
    if place > 0 && keys[next].before(&keys[order[place - 1] as int]) {
        place_in(keys, order, next, (place - 1) as nat)
    } else {
        place
    }
}

proof fn place_in_splits<K: SortKey>(keys: Seq<K>, order: Seq<usize>, next: int, place: nat)
    requires
        place <= order.len(),
    ensures
        place_in(keys, order, next, place) <= place,
        forall|i: int|
            place_in(keys, order, next, place) <= i < place ==> keys[next].before(&keys[(#[trigger] order[i]) as int]),
        place_in(keys, order, next, place) > 0 ==> !keys[next].before(
            &keys[order[place_in(keys, order, next, place) - 1] as int],
        ),
    decreases place,
{
    if place > 0 && keys[next].before(&keys[order[place - 1] as int]) {
        place_in_splits(keys, order, next, (place - 1) as nat);
    }
}

/// Keys have a stable order.
pub proof fn stable_order_exists<K: SortKey>(keys: Seq<K>) -> (order: Seq<usize>)
    requires
        keys.len() <= usize::MAX,
    ensures
        is_stable_order(keys, order),
        is_stable_order(keys, the_stable_order(keys)),
    decreases keys.len(),
{
    if keys.len() == 0 {
        let order = Seq::<usize>::empty();
        assert(is_stable_order(keys, order));
        order
    } else {
        let next = keys.len() - 1;
        let fewer = keys.drop_last();
        let before = stable_order_exists(fewer);
        let place = place_in(keys, before, next, before.len()) as int;
        place_in_splits(keys, before, next, before.len());
        assert forall|i: int, j: int| 0 <= i < j < before.len() implies in_order(
            keys,
            #[trigger] before[i],
            #[trigger] before[j],
        ) by {
            assert(in_order(fewer, before[i], before[j]));
            assert(fewer[before[i] as int] == keys[before[i] as int]);
            assert(fewer[before[j] as int] == keys[before[j] as int]);
        }
        let order = before.insert(place, next as usize);
        assert forall|i: int| 0 <= i < order.len() implies #[trigger] order[i] < keys.len() by {
            if i > place {
                assert(order[i] == before[i - 1]);
            } else if i < place {
                assert(order[i] == before[i]);
            }
        }
        assert forall|i: int, j: int| 0 <= i < j < order.len() implies in_order(
            keys,
            #[trigger] order[i],
            #[trigger] order[j],
        ) by {
            if j < place {
                assert(in_order(keys, before[i], before[j]));
            } else if i > place {
                assert(in_order(keys, before[i - 1], before[j - 1]));
            } else if i < place && j > place {
                assert(in_order(keys, before[i], before[j - 1]));
            } else if i == place {
                assert(keys[next].before(&keys[before[j - 1] as int]));
            } else {
                let last = before[place - 1];
                assert(before[i] < next);
                if i < place - 1 {
                    assert(in_order(keys, before[i], last));
                    keys[before[i] as int].before_asymmetric(&keys[last as int]);
                    keys[before[i] as int].not_before_transitive(&keys[last as int], &keys[next]);
                }
            }
        }
        assert(is_stable_order(keys, order));
        order
    }
}

/// There is one stable order of some keys.
pub proof fn stable_order_is_unique<K: SortKey>(keys: Seq<K>, order: Seq<usize>)
    requires
        is_stable_order(keys, order),
    ensures
        order == the_stable_order(keys),
{
    let other = the_stable_order(keys);
    stable_order_distinct(keys, order);
    stable_order_distinct(keys, other);
    stable_orders_match(keys, order, other, order.len());
    assert(order =~= other);
}

proof fn stable_orders_match<K: SortKey>(keys: Seq<K>, left: Seq<usize>, right: Seq<usize>, count: nat)
    requires
        is_stable_order(keys, left),
        is_stable_order(keys, right),
        left.no_duplicates(),
        right.no_duplicates(),
        count <= keys.len(),
    ensures
        forall|i: int| 0 <= i < count ==> #[trigger] left[i] == right[i],
    decreases count,
{
    if count > 0 {
        let last = count - 1;
        stable_orders_match(keys, left, right, last as nat);
        if left[last] != right[last] {
            distinct_covers(left, right[last]);
            distinct_covers(right, left[last]);
            let i = choose|i: int| 0 <= i < left.len() && left[i] == right[last];
            let j = choose|j: int| 0 <= j < right.len() && right[j] == left[last];
            if i < last {
                assert(left[i] == right[i]);
            }
            if j < last {
                assert(left[j] == right[j]);
            }
            assert(in_order(keys, left[last], left[i]));
            assert(in_order(keys, right[last], right[j]));
            keys[left[last] as int].before_asymmetric(&keys[right[last] as int]);
        }
    }
}

/// A key by which any two different values are told apart.
pub trait TotalKey: SortKey {
    /// Of two different values one comes before the other.
    proof fn before_total(&self, other: &Self)
        ensures
            self.before(other) || other.before(self) || *self == *other,
    ;
}

pub open spec fn comes_before<K: SortKey>(left: K, right: K) -> bool {
    left.before(&right)
}

/// Whether items are listed in order, each once.
pub open spec fn is_ascending<K: SortKey>(items: Seq<K>) -> bool {
    forall|i: int, j: int| 0 <= i < j < items.len() ==> comes_before(#[trigger] items[i], #[trigger] items[j])
}

/// Puts an item into an ascending list, unless it is there.
pub fn insert_ascending<K: TotalKey>(items: &mut Vec<K>, item: K)
    requires
        is_ascending(old(items)@),
    ensures
        is_ascending(final(items)@),
        forall|other: K| #[trigger] final(items)@.contains(other) <==> old(items)@.contains(other) || other == item,
{
    let ghost before = items@;
    let mut place: usize = 0;
    while place < items.len() && items[place].is_before(&item)
        invariant
            items@ == before,
            place <= items.len(),
            forall|i: int| 0 <= i < place ==> (#[trigger] before[i]).before(&item),
        decreases items.len() - place,
    {
        place += 1;
    }
    if place < items.len() && !item.is_before(&items[place]) {
        proof {
            item.before_total(&before[place as int]);
        }
        assert(before[place as int] == item);
        return;
    }
    items.insert(place, item);
    proof {
        let after = items@;
        assert(after == before.insert(place as int, item));
        assert forall|i: int, j: int| 0 <= i < j < after.len() implies comes_before(
            #[trigger] after[i],
            #[trigger] after[j],
        ) by {
            let a = if i < place { i } else { i - 1 };
            let b = if j < place { j } else { j - 1 };
            assert(i < place ==> after[i] == before[i]);
            assert(j < place ==> after[j] == before[j]);
            assert(i > place ==> after[i] == before[i - 1]);
            assert(j > place ==> after[j] == before[j - 1]);
            if i != place && j != place {
                assert(comes_before(before[a], before[b]));
            } else if i == place && place < before.len() {
                let next = before[place as int];
                assert(item.before(&next));
                if place != j - 1 {
                    assert(comes_before(next, before[j - 1]));
                    before_chains(item, next, before[j - 1]);
                }
            }
        }
        assert forall|other: K| #[trigger] after.contains(other) <==> before.contains(other) || other == item by {
            if before.contains(other) {
                let i = choose|i: int| 0 <= i < before.len() && before[i] == other;
                let k = if i < place { i } else { i + 1 };
                assert(after[k] == other);
            }
            if other == item {
                assert(after[place as int] == item);
            }
            if after.contains(other) && other != item {
                let k = choose|k: int| 0 <= k < after.len() && after[k] == other;
                let i = if k < place { k } else { k - 1 };
                assert(before[i] == other);
            }
        }
    }
}

/// Coming before is transitive.
pub proof fn before_chains<K: TotalKey>(first: K, second: K, third: K)
    requires
        first.before(&second),
        second.before(&third),
    ensures
        first.before(&third),
{
    first.before_asymmetric(&second);
    second.before_asymmetric(&third);
    first.not_before_transitive(&second, &third);
    first.before_total(&third);
}

impl SortKey for (usize, usize) {
    open spec fn before(&self, other: &Self) -> bool {
        if self.0 != other.0 {
            self.0 < other.0
        } else {
            self.1 < other.1
        }
    }

    fn is_before(&self, other: &Self) -> (before: bool) {
        if self.0 != other.0 {
            self.0 < other.0
        } else {
            self.1 < other.1
        }
    }

    proof fn before_asymmetric(&self, other: &Self) {
    }

    proof fn not_before_transitive(&self, middle: &Self, other: &Self) {
    }
}

impl TotalKey for (usize, usize) {
    proof fn before_total(&self, other: &Self) {
    }
}

impl SortKey for usize {
    open spec fn before(&self, other: &Self) -> bool {
        *self < *other
    }

    fn is_before(&self, other: &Self) -> (before: bool) {
        *self < *other
    }

    proof fn before_asymmetric(&self, other: &Self) {
    }

    proof fn not_before_transitive(&self, middle: &Self, other: &Self) {
    }
}

impl TotalKey for usize {
    proof fn before_total(&self, other: &Self) {
    }
}

/// Whether a list holds the items of a set, in order and each once.
pub open spec fn lists_set<K: SortKey>(items: Seq<K>, set: Set<K>) -> bool {
    &&& is_ascending(items)
    &&& forall|item: K| #[trigger] items.contains(item) <==> set.contains(item)
}

/// The items of a set in order.
pub open spec fn ascending<K: SortKey>(set: Set<K>) -> Seq<K> {
    choose|items: Seq<K>| lists_set(items, set)
}

proof fn ascending_match<K: TotalKey>(left: Seq<K>, right: Seq<K>, set: Set<K>, count: nat)
    requires
        lists_set(left, set),
        lists_set(right, set),
        count <= left.len(),
        count <= right.len(),
    ensures
        forall|i: int| 0 <= i < count ==> #[trigger] left[i] == right[i],
    decreases count,
{
    if count > 0 {
        let last = count - 1;
        ascending_match(left, right, set, last as nat);
        if left[last] != right[last] {
            left[last].before_total(&right[last]);
            ascending_least(left, right, set, last);
            ascending_least(right, left, set, last);
        }
    }
}

/// Where two lists of one set first differ, neither has the smaller item.
proof fn ascending_least<K: TotalKey>(left: Seq<K>, right: Seq<K>, set: Set<K>, last: int)
    requires
        lists_set(left, set),
        lists_set(right, set),
        0 <= last < left.len(),
        last < right.len(),
        forall|i: int| 0 <= i < last ==> #[trigger] left[i] == right[i],
    ensures
        !left[last].before(&right[last]),
{
    assert(left.contains(left[last]));
    assert(right.contains(left[last]));
    let k = choose|k: int| 0 <= k < right.len() && right[k] == left[last];
    if k < last {
        assert(left[k] == right[k]);
        assert(comes_before(left[k], left[last]));
        left[last].before_asymmetric(&left[last]);
    } else if k == last {
        left[last].before_asymmetric(&left[last]);
    } else {
        assert(comes_before(right[last], right[k]));
        left[last].before_asymmetric(&right[last]);
    }
}

/// There is one list of a set.
pub proof fn ascending_is_unique<K: TotalKey>(items: Seq<K>, set: Set<K>)
    requires
        lists_set(items, set),
    ensures
        items == ascending(set),
{
    let other = ascending(set);
    ascending_longer(items, other, set);
    ascending_longer(other, items, set);
    ascending_match(items, other, set, items.len());
    assert(items =~= other);
}

/// No list of a set is longer than another.
proof fn ascending_longer<K: TotalKey>(long: Seq<K>, short: Seq<K>, set: Set<K>)
    requires
        lists_set(long, set),
        lists_set(short, set),
    ensures
        long.len() <= short.len(),
{
    if short.len() < long.len() {
        ascending_match(long, short, set, short.len());
        let extra = long[short.len() as int];
        assert(long.contains(extra));
        assert(short.contains(extra));
        let k = choose|k: int| 0 <= k < short.len() && short[k] == extra;
        assert(long[k] == short[k]);
        assert(comes_before(long[k], long[short.len() as int]));
        extra.before_asymmetric(&extra);
    }
}

} // verus!
