//! Small text functions: decimal numerals, joins, suffix tests and a
//! code-point order on names.

use vstd::prelude::*;
use vstd::string::{StrSliceExecFns, StringExecFns};

verus! {

/// The contents of a list of strings.
pub open spec fn texts(names: Seq<String>) -> Seq<Seq<char>> {
    names.map_values(|name: String| name@)
}

/// Copies a list of strings.
pub fn copy_texts(names: &Vec<String>) -> (copy: Vec<String>)
    ensures
        texts(copy@) == texts(names@),
        copy.len() == names.len(),
{
    let mut copy: Vec<String> = Vec::new();
    for index in 0..names.len()
        invariant
            copy.len() == index,
            forall|i: int| 0 <= i < index ==> copy[i]@ == names[i]@,
    {
        copy.push(names[index].clone());
    }
    assert(texts(copy@) =~= texts(names@));
    copy
}

/// Whether two lists of strings hold the same texts.
pub fn same_texts(left: &Vec<String>, right: &Vec<String>) -> (same: bool)
    ensures
        same == (texts(left@) == texts(right@)),
{
    if left.len() != right.len() {
        assert(texts(left@).len() != texts(right@).len());
        return false;
    }
    for index in 0..left.len()
        invariant
            left.len() == right.len(),
            forall|i: int| 0 <= i < index ==> left[i]@ == right[i]@,
    {
        if !(left[index] == right[index]) {
            assert(texts(left@)[index as int] != texts(right@)[index as int]);
            return false;
        }
    }
    assert(texts(left@) =~= texts(right@));
    true
}

/// The decimal digit of a number below ten.
pub open spec fn digit_char(n: nat) -> char {
    if n == 0 { '0' }
    else if n == 1 { '1' }
    else if n == 2 { '2' }
    else if n == 3 { '3' }
    else if n == 4 { '4' }
    else if n == 5 { '5' }
    else if n == 6 { '6' }
    else if n == 7 { '7' }
    else if n == 8 { '8' }
    else { '9' }
}

/// The decimal numeral of `n`, without leading zeros.
pub open spec fn decimal(n: nat) -> Seq<char>
    decreases n,
{
    if n < 10 {
        seq![digit_char(n)]
    } else {
        decimal(n / 10).push(digit_char(n % 10))
    }
}

/// Different digits are written differently.
proof fn digit_char_injective(left: nat, right: nat)
    requires
        left < 10,
        right < 10,
        digit_char(left) == digit_char(right),
    ensures
        left == right,
{
}

/// Different numbers have different numerals.
pub proof fn decimal_injective(left: nat, right: nat)
    requires
        decimal(left) == decimal(right),
    ensures
        left == right,
    decreases left,
{
    decimal_not_empty(left);
    decimal_not_empty(right);
    assert(decimal(left).last() == digit_char(left % 10));
    assert(decimal(right).last() == digit_char(right % 10));
    digit_char_injective(left % 10, right % 10);
    if left < 10 && right >= 10 {
        decimal_not_empty(right / 10);
        assert(decimal(right).len() > 1);
    } else if left >= 10 && right < 10 {
        decimal_not_empty(left / 10);
        assert(decimal(left).len() > 1);
    } else if left >= 10 && right >= 10 {
        assert(decimal(left).drop_last() =~= decimal(left / 10));
        assert(decimal(right).drop_last() =~= decimal(right / 10));
        decimal_injective(left / 10, right / 10);
    }
}

/// A numeral has at least one digit.
pub proof fn decimal_not_empty(n: nat)
    ensures
        decimal(n).len() > 0,
{
}

fn digit_text(n: usize) -> (text: &'static str)
    requires
        n < 10,
    ensures
        text@ == seq![digit_char(n as nat)],
{
    proof {
        reveal_strlit("0");
        reveal_strlit("1");
        reveal_strlit("2");
        reveal_strlit("3");
        reveal_strlit("4");
        reveal_strlit("5");
        reveal_strlit("6");
        reveal_strlit("7");
        reveal_strlit("8");
        reveal_strlit("9");
    }
    let text = match n {
        0 => "0",
        1 => "1",
        2 => "2",
        3 => "3",
        4 => "4",
        5 => "5",
        6 => "6",
        7 => "7",
        8 => "8",
        _ => "9",
    };
    assert(text@ =~= seq![digit_char(n as nat)]);
    text
}

/// Writes `n` in decimal.
pub fn decimal_text(n: usize) -> (text: String)
    ensures
        text@ == decimal(n as nat),
    decreases n,
{
    if n < 10 {
        digit_text(n).to_owned()
    } else {
        let mut text = decimal_text(n / 10);
        text.append(digit_text(n % 10));
        assert(text@ =~= decimal((n / 10) as nat).push(digit_char((n % 10) as nat)));
        text
    }
}

/// `left`, then `right`.
pub fn join2(left: &str, right: &str) -> (text: String)
    ensures
        text@ == left@ + right@,
{
    let mut text = left.to_owned();
    text.append(right);
    text
}

/// `first`, `second` and `third` in a row.
pub fn join3(first: &str, second: &str, third: &str) -> (text: String)
    ensures
        text@ == first@ + second@ + third@,
{
    let mut text = first.to_owned();
    text.append(second);
    text.append(third);
    text
}

/// Whether two texts hold the same characters.
pub fn same_text(left: &str, right: &str) -> (same: bool)
    ensures
        same == (left@ == right@),
{
    let left_length: usize = left.unicode_len();
    if left_length != right.unicode_len() {
        return false;
    }
    let mut index: usize = 0;
    while index < left_length
        invariant
            index <= left_length,
            left_length == left@.len(),
            left_length == right@.len(),
            forall|i: int| 0 <= i < index ==> left@[i] == right@[i],
        decreases left_length - index,
    {
        if left.get_char(index) != right.get_char(index) {
            return false;
        }
        index += 1;
    }
    assert(left@ =~= right@);
    true
}

/// Strict order of character sequences by code point, a proper prefix first.
pub open spec fn chars_before(left: Seq<char>, right: Seq<char>) -> bool
    decreases left.len(),
{
    if right.len() == 0 {
        false
    } else if left.len() == 0 {
        true
    } else if left[0] != right[0] {
        (left[0] as int) < (right[0] as int)
    } else {
        chars_before(left.drop_first(), right.drop_first())
    }
}

/// No text comes before itself, and of two texts at most one comes before the other.
pub proof fn chars_before_asymmetric(left: Seq<char>, right: Seq<char>)
    ensures
        !(chars_before(left, right) && chars_before(right, left)),
    decreases left.len(),
{
    if left.len() > 0 && right.len() > 0 && left[0] == right[0] {
        chars_before_asymmetric(left.drop_first(), right.drop_first());
    }
}

/// Texts that neither comes before the other are equal.
pub proof fn chars_before_total(left: Seq<char>, right: Seq<char>)
    ensures
        chars_before(left, right) || chars_before(right, left) || left == right,
    decreases left.len(),
{
    if left.len() > 0 && right.len() > 0 {
        if left[0] == right[0] {
            chars_before_total(left.drop_first(), right.drop_first());
            assert(chars_before(left, right) == chars_before(left.drop_first(), right.drop_first()));
            assert(chars_before(right, left) == chars_before(right.drop_first(), left.drop_first()));
            if left.drop_first() == right.drop_first() {
                assert(left =~= seq![left[0]] + left.drop_first());
                assert(right =~= seq![right[0]] + right.drop_first());
            }
        } else {
            assert((left[0] as int) != (right[0] as int));
        }
    } else if left.len() == 0 && right.len() == 0 {
        assert(left =~= right);
    }
}

/// The order of texts is transitive.
pub proof fn chars_before_transitive(first: Seq<char>, second: Seq<char>, third: Seq<char>)
    requires
        chars_before(first, second),
        chars_before(second, third),
    ensures
        chars_before(first, third),
    decreases first.len(),
{
    if first.len() > 0 && first[0] == second[0] && second[0] == third[0] {
        chars_before_transitive(first.drop_first(), second.drop_first(), third.drop_first());
    }
}

/// Whether `left` comes strictly before `right` in code-point order.
pub fn text_before(left: &str, right: &str) -> (before: bool)
    ensures
        before == chars_before(left@, right@),
{
    let left_length: usize = left.unicode_len();
    let right_length: usize = right.unicode_len();
    let mut index: usize = 0;
    assert(left@.skip(0) =~= left@);
    assert(right@.skip(0) =~= right@);
    while index < left_length && index < right_length
        invariant
            index <= left_length,
            index <= right_length,
            left_length == left@.len(),
            right_length == right@.len(),
            chars_before(left@, right@) == chars_before(
                left@.skip(index as int),
                right@.skip(index as int),
            ),
        decreases left_length - index,
    {
        let left_char = left.get_char(index);
        let right_char = right.get_char(index);
        if left_char != right_char {
            return (left_char as u32) < (right_char as u32);
        }
        assert(left@.skip(index as int).drop_first() =~= left@.skip(index + 1));
        assert(right@.skip(index as int).drop_first() =~= right@.skip(index + 1));
        index += 1;
    }
    index < right_length
}

/// Whether `text` ends with `suffix`.
pub open spec fn has_suffix(text: Seq<char>, suffix: Seq<char>) -> bool {
    suffix.len() <= text.len() && text.skip(text.len() - suffix.len()) == suffix
}

/// Whether `text` ends with `suffix`.
pub fn ends_with(text: &str, suffix: &str) -> (ends: bool)
    ensures
        ends == has_suffix(text@, suffix@),
{
    let text_length: usize = text.unicode_len();
    let suffix_length: usize = suffix.unicode_len();
    if suffix_length > text_length {
        return false;
    }
    same_text(text.substring_char(text_length - suffix_length, text_length), suffix)
}

/// Whether `part` occurs in `text`.
pub open spec fn has_part(text: Seq<char>, part: Seq<char>) -> bool {
    exists|start: int|
        0 <= start <= text.len() - part.len() && #[trigger] text.subrange(start, start + part.len()) == part
}

/// Whether `part` occurs in `text`.
pub fn contains_text(text: &str, part: &str) -> (found: bool)
    ensures
        found == has_part(text@, part@),
{
    let text_length: usize = text.unicode_len();
    let part_length: usize = part.unicode_len();
    if part_length > text_length {
        return false;
    }
    let mut start: usize = 0;
    while start <= text_length - part_length
        invariant
            text_length == text@.len(),
            part_length == part@.len(),
            part_length <= text_length,
            start <= text_length - part_length + 1,
            forall|s: int| 0 <= s < start ==> #[trigger] text@.subrange(s, s + part@.len()) != part@,
        decreases text_length - start + 1,
    {
        if same_text(text.substring_char(start, start + part_length), part) {
            return true;
        }
        if start == text_length - part_length {
            return false;
        }
        start += 1;
    }
    false
}

/// Whether `text` starts with `prefix`.
pub open spec fn has_prefix(text: Seq<char>, prefix: Seq<char>) -> bool {
    prefix.len() <= text.len() && text.take(prefix.len() as int) == prefix
}

/// Whether `text` starts with `prefix`.
pub fn starts_with(text: &str, prefix: &str) -> (starts: bool)
    ensures
        starts == has_prefix(text@, prefix@),
{
    let prefix_length: usize = prefix.unicode_len();
    if prefix_length > text.unicode_len() {
        return false;
    }
    same_text(text.substring_char(0, prefix_length), prefix)
}

/// The digit that a character stands for.
pub open spec fn digit_of(c: char) -> Option<nat> {
    if '0' as int <= c as int <= '9' as int {
        Some((c as int - '0' as int) as nat)
    } else {
        None
    }
}

/// The number that digits stand for, if they are digits.
pub open spec fn digits_value(digits: Seq<char>) -> Option<nat>
    decreases digits.len(),
{
    if digits.len() == 0 {
        Some(0)
    } else {
        match (digits_value(digits.drop_last()), digit_of(digits.last())) {
            (Some(high), Some(low)) => Some(high * 10 + low),
            _ => None,
        }
    }
}

/// The number that a text stands for: digits, perhaps behind a plus sign, and in
/// range.
pub open spec fn number_of(text: Seq<char>) -> Option<nat> {
    let digits = if text.len() > 0 && text[0] == '+' {
        text.skip(1)
    } else {
        text
    };
    if digits.len() == 0 {
        None
    } else {
        match digits_value(digits) {
            Some(value) => if value <= usize::MAX {
                Some(value)
            } else {
                None
            },
            None => None,
        }
    }
}

/// More digits stand for no smaller number, or for none.
proof fn digits_value_grows(digits: Seq<char>, count: int)
    requires
        0 <= count <= digits.len(),
    ensures
        digits_value(digits) matches Some(value) ==> (digits_value(digits.take(count)) matches Some(start) && start
            <= value),
    decreases digits.len(),
{
    if count == digits.len() {
        assert(digits.take(count) =~= digits);
    } else {
        digits_value_grows(digits.drop_last(), count);
        assert(digits.drop_last().take(count) =~= digits.take(count));
    }
}

/// The number that the characters of a text between two places stand for.
pub fn parse_number(text: &str, start: usize, end: usize) -> (number: Option<usize>)
    requires
        start <= end <= text@.len(),
    ensures
        match number {
            Some(number) => number_of(text@.subrange(start as int, end as int)) == Some(number as nat),
            None => number_of(text@.subrange(start as int, end as int)) is None,
        },
{
    let ghost part = text@.subrange(start as int, end as int);
    let signed = start < end && text.get_char(start) == '+';
    let first: usize = if signed {
        start + 1
    } else {
        start
    };
    let ghost digits = if signed {
        part.skip(1)
    } else {
        part
    };
    assert(digits =~= text@.subrange(first as int, end as int));
    if first == end {
        return None;
    }
    let mut value: usize = 0;
    let mut at: usize = first;
    assert(digits.take(0) =~= Seq::<char>::empty());
    while at < end
        invariant
            first <= at <= end,
            first < end,
            start <= end <= text@.len(),
            part == text@.subrange(start as int, end as int),
            digits == text@.subrange(first as int, end as int),
            digits == (if part.len() > 0 && part[0] == '+' {
                part.skip(1)
            } else {
                part
            }),
            digits_value(digits.take(at - first)) == Some(value as nat),
        decreases end - at,
    {
        let c = text.get_char(at);
        let ghost seen = digits.take(at - first);
        let ghost now = digits.take(at + 1 - first);
        proof {
            assert(now.drop_last() =~= seen);
            assert(now.last() == c);
            digits_value_grows(digits, at + 1 - first);
        }
        if c < '0' || c > '9' {
            return None;
        }
        let digit: usize = (c as u32 - '0' as u32) as usize;
        if value > (usize::MAX - digit) / 10 {
            proof {
                assert(value * 10 + digit > usize::MAX);
            }
            return None;
        }
        value = value * 10 + digit;
        at += 1;
    }
    assert(digits.take(at - first) =~= digits);
    Some(value)
}

/// Whether a place holds the last of a character before an end.
pub open spec fn is_last_place(text: Seq<char>, c: char, end: int, at: int) -> bool {
    &&& 0 <= at < end
    &&& text[at] == c
    &&& forall|i: int| at < i < end ==> #[trigger] text[i] != c
}

/// The last place of a character before an end.
pub fn find_last(text: &str, c: char, end: usize) -> (place: Option<usize>)
    requires
        end <= text@.len(),
    ensures
        match place {
            Some(at) => is_last_place(text@, c, end as int, at as int),
            None => forall|i: int| 0 <= i < end ==> #[trigger] text@[i] != c,
        },
{
    let mut left: usize = end;
    while left > 0
        invariant
            left <= end <= text@.len(),
            forall|i: int| left <= i < end ==> #[trigger] text@[i] != c,
        decreases left,
    {
        if text.get_char(left - 1) == c {
            return Some(left - 1);
        }
        left -= 1;
    }
    None
}

} // verus!
