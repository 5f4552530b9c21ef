//! The naming of chunks: chunk `n` of `base` is called `base.n`, with `n` in
//! decimal, and a merge takes the files whose names begin with `base` in the
//! order of that number.
//!
//! Names are file names without a directory, as bytes.

use vstd::prelude::*;

verus! {

/// The byte `.`, which stands before the number.
pub const DOT: u8 = 0x2e;

/// The byte `+`, which may stand before the digits.
pub const PLUS: u8 = 0x2b;

/// The byte `0`.
pub const ZERO: u8 = 0x30;

/// The byte `9`.
pub const NINE: u8 = 0x39;

/// A name whose suffix is not a number that a chunk can have.
#[derive(Debug, PartialEq, Eq)]
pub struct OrderingError {
    /// The whole name, as it was given.
    pub name: Vec<u8>,
}

/// The index of the last `.` in `name`, or -1 where there is none.
pub open spec fn last_dot(name: Seq<u8>) -> int
    decreases name.len(),
{
    if name.len() == 0 {
        -1
    } else if name.last() == DOT {
        name.len() - 1
    } else {
        last_dot(name.drop_last())
    }
}

/// The suffix of `name`: what follows its last `.`, provided that something
/// stands before that `.` and that the name is not `..`.
pub open spec fn suffix_of(name: Seq<u8>) -> Option<Seq<u8>> {
    let dot = last_dot(name);
    if dot <= 0 || name == seq![DOT, DOT] {
        None
    } else {
        Some(name.skip(dot + 1))
    }
}

/// Whether every byte of `text` is a decimal digit.
pub open spec fn is_digits(text: Seq<u8>) -> bool {
    forall|i: int| 0 <= i < text.len() ==> ZERO <= #[trigger] text[i] <= NINE
}

/// The number that the decimal digits `digits` spell.
pub open spec fn decimal_value(digits: Seq<u8>) -> nat
    decreases digits.len(),
{
    if digits.len() == 0 {
        0
    } else {
        (10 * decimal_value(digits.drop_last()) + (digits.last() - ZERO)) as nat
    }
}

/// The number that `digits` spell where they are one or more decimal digits
/// with a value that a `u64` holds, and none otherwise.
pub open spec fn digits_number(digits: Seq<u8>) -> Option<nat> {
    if digits.len() > 0 && is_digits(digits) && decimal_value(digits) <= u64::MAX {
        Some(decimal_value(digits))
    } else {
        None
    }
}

/// The number that `text` spells: one or more decimal digits, which a `+`
/// may precede, with a value that a `u64` holds. Anything else spells none.
pub open spec fn number_of(text: Seq<u8>) -> Option<nat> {
    if text.len() > 0 && text[0] == PLUS {
        digits_number(text.skip(1))
    } else {
        digits_number(text)
    }
}

/// The place of `name` among the chunks: the number that its suffix spells,
/// 0 for a name without a suffix, and none where the suffix is no number.
pub open spec fn key_of(name: Seq<u8>) -> Option<nat> {
    match suffix_of(name) {
        None => Some(0),
        Some(suffix) => number_of(suffix),
    }
}

/// The decimal digits of `n`, without leading zeros.
pub open spec fn decimal_digits(n: nat) -> Seq<u8>
    decreases n,
{
    if n < 10 {
        seq![(ZERO + n) as u8]
    } else {
        decimal_digits(n / 10).push((ZERO + n % 10) as u8)
    }
}

/// The name of chunk `index` of `base`.
pub open spec fn chunk_name(base: Seq<u8>, index: nat) -> Seq<u8> {
    base + seq![DOT] + decimal_digits(index)
}

/// The value of a run of digits is at least the value of each of its
/// beginnings.
proof fn lemma_decimal_value_grows(digits: Seq<u8>, k: int)
    requires
        0 <= k <= digits.len(),
        is_digits(digits),
    ensures
        decimal_value(digits.take(k)) <= decimal_value(digits),
    decreases digits.len() - k,
{
    if k == digits.len() {
        assert(digits.take(k) =~= digits);
    } else {
        lemma_decimal_value_grows(digits, k + 1);
        let longer = digits.take(k + 1);
        assert(longer.drop_last() =~= digits.take(k));
        assert(longer.last() == digits[k]);
    }
}

/// Where the last `.` of a name stands when digits follow it.
proof fn lemma_last_dot_before_digits(front: Seq<u8>, digits: Seq<u8>)
    requires
        is_digits(digits),
    ensures
        last_dot(front + seq![DOT] + digits) == front.len(),
    decreases digits.len(),
{
    let name = front + seq![DOT] + digits;
    if digits.len() == 0 {
        assert(name.last() == DOT);
    } else {
        assert(name.last() == digits.last());
        assert(name.drop_last() =~= front + seq![DOT] + digits.drop_last());
        lemma_last_dot_before_digits(front, digits.drop_last());
    }
}

/// The digits of a number spell that number.
pub proof fn lemma_digits_spell(n: nat)
    ensures
        decimal_digits(n).len() >= 1,
        is_digits(decimal_digits(n)),
        decimal_value(decimal_digits(n)) == n,
    decreases n,
{
    let digits = decimal_digits(n);
    if n < 10 {
        assert(digits.drop_last() =~= Seq::<u8>::empty());
        assert(decimal_value(digits.drop_last()) == 0);
    } else {
        lemma_digits_spell(n / 10);
        assert(digits.drop_last() =~= decimal_digits(n / 10));
    }
}

/// Naming and ordering agree: the place of the name of chunk `index` among
/// the chunks is `index`, and the name begins with `base`.
pub proof fn lemma_chunk_name_key(base: Seq<u8>, index: nat)
    requires
        base.len() >= 1,
        index <= u64::MAX,
    ensures
        key_of(chunk_name(base, index)) == Some(index),
        base.is_prefix_of(chunk_name(base, index)),
{
    let digits = decimal_digits(index);
    let name = chunk_name(base, index);
    lemma_digits_spell(index);
    lemma_last_dot_before_digits(base, digits);
    assert(name.skip(base.len() as int + 1) =~= digits);
    assert(name[base.len() as int + 1] == digits[0]);
    assert(name.len() >= 3);
}

/// Tells whether `name` begins with `prefix`.
pub fn has_prefix(name: &[u8], prefix: &[u8]) -> (r: bool)
    ensures
        r == prefix@.is_prefix_of(name@),
{
    if prefix.len() > name.len() {
        return false;
    }
    let mut i: usize = 0;
    while i < prefix.len()
        invariant
            i <= prefix@.len() <= name@.len(),
            forall|j: int| 0 <= j < i ==> prefix@[j] == name@[j],
        decreases prefix@.len() - i,
    {
        if prefix[i] != name[i] {
            assert(name@.subrange(0, prefix@.len() as int)[i as int] != prefix@[i as int]);
            return false;
        }
        i = i + 1;
    }
    assert(name@.subrange(0, prefix@.len() as int) =~= prefix@);
    true
}

/// Finds the last `.` in `name`.
fn find_last_dot(name: &[u8]) -> (r: Option<usize>)
    ensures
        (match r {
            Some(dot) => last_dot(name@) == dot < name@.len() && name@[dot as int] == DOT,
            None => last_dot(name@) == -1,
        }),
{
    let mut end: usize = name.len();
    assert(name@.take(end as int) =~= name@);
    while end > 0
        invariant
            end <= name@.len(),
            last_dot(name@) == last_dot(name@.take(end as int)),
        decreases end,
    {
        assert(name@.take(end as int).last() == name@[end - 1]);
        if name[end - 1] == DOT {
            return Some(end - 1);
        }
        assert(name@.take(end as int).drop_last() =~= name@.take(end - 1));
        end = end - 1;
    }
    None
}

/// Reads the number that `digits` spell.
fn parse_digits(digits: &[u8]) -> (r: Option<u64>)
    ensures
        (match digits_number(digits@) {
            Some(value) => r == Some(value as u64),
            None => r is None,
        }),
{
    if digits.len() == 0 {
        return None;
    }
    let mut value: u64 = 0;
    let mut at: usize = 0;
    while at < digits.len()
        invariant
            at <= digits@.len(),
            is_digits(digits@.take(at as int)),
            value == decimal_value(digits@.take(at as int)),
        decreases digits@.len() - at,
    {
        let byte = digits[at];
        if byte < ZERO || byte > NINE {
            return None;
        }
        proof {
            let longer = digits@.take(at + 1);
            assert(longer.drop_last() =~= digits@.take(at as int));
            assert forall|i: int| 0 <= i < longer.len() implies ZERO <= #[trigger] longer[i]
                <= NINE by {
                if i < at {
                    assert(longer[i] == digits@.take(at as int)[i]);
                }
            }
            if is_digits(digits@) {
                lemma_decimal_value_grows(digits@, at + 1);
            }
        }
        let shifted = match value.checked_mul(10) {
            Some(shifted) => shifted,
            None => {
                return None;
            },
        };
        value = match shifted.checked_add((byte - ZERO) as u64) {
            Some(sum) => sum,
            None => {
                return None;
            },
        };
        at = at + 1;
    }
    assert(digits@.take(at as int) =~= digits@);
    Some(value)
}

/// Reads the number that `text` spells.
fn parse_number(text: &[u8]) -> (r: Option<u64>)
    ensures
        (match number_of(text@) {
            Some(value) => r == Some(value as u64),
            None => r is None,
        }),
{
    if text.len() > 0 && text[0] == PLUS {
        parse_digits(vstd::slice::slice_subrange(text, 1, text.len()))
    } else {
        parse_digits(text)
    }
}

/// The place of the file called `name` among the chunks to merge: the number
/// after its last `.`, or 0 where it has no suffix. A suffix that is no
/// number is refused, and the error carries the name.
pub fn order_key(name: &[u8]) -> (r: Result<u64, OrderingError>)
    ensures
        (match key_of(name@) {
            Some(key) => r == Ok::<u64, OrderingError>(key as u64),
            None => r is Err && r->Err_0.name@ == name@,
        }),
{
    let dot = match find_last_dot(name) {
        Some(dot) => dot,
        None => {
            return Ok(0);
        },
    };
    if dot == 0 {
        return Ok(0);
    }
    if name.len() == 2 && name[0] == DOT {
        assert(name@ =~= seq![DOT, DOT]);
        return Ok(0);
    }
    assert(name@ != seq![DOT, DOT]) by {
        if name@.len() == 2 {
            assert(seq![DOT, DOT][0] == DOT);
        }
    }
    match parse_number(vstd::slice::slice_subrange(name, dot + 1, name.len())) {
        Some(key) => Ok(key),
        None => Err(OrderingError { name: vstd::slice::slice_to_vec(name) }),
    }
}

/// The suffix of chunk `index`: the decimal digits of the index. The name
/// of the chunk is the base name, a `.` and this suffix.
pub fn chunk_suffix(index: u64) -> (r: Vec<u8>)
    ensures
        r@ == decimal_digits(index as nat),
{
    let mut digits: Vec<u8> = Vec::new();
    digits.push(ZERO + (index % 10) as u8);
    let mut rest: u64 = index / 10;
    assert(digits@ =~= seq![(ZERO + index % 10) as u8]);
    while rest > 0
        invariant
            decimal_digits(index as nat) == if rest == 0 {
                digits@
            } else {
                decimal_digits(rest as nat) + digits@
            },
        decreases rest,
    {
        let ghost before = digits@;
        digits.insert(0, ZERO + (rest % 10) as u8);
        proof {
            let digit = (ZERO + rest % 10) as u8;
            assert(digits@ =~= seq![digit] + before);
            if rest >= 10 {
                assert(decimal_digits(rest as nat) + before =~= decimal_digits((rest / 10) as nat)
                    + digits@);
            } else {
                assert(decimal_digits(rest as nat) + before =~= digits@);
            }
        }
        rest = rest / 10;
    }
    digits
}

/// Whether name `i` stands before name `j` in a merge: it has the lower
/// number, or the same number and the earlier place in `names`.
pub open spec fn comes_before(names: Seq<Vec<u8>>, i: int, j: int) -> bool {
    match (key_of(names[i]@), key_of(names[j]@)) {
        (Some(a), Some(b)) => a < b || (a == b && i < j),
        _ => false,
    }
}

/// Whether name `i` begins with `prefix` and has a suffix that is no number.
pub open spec fn is_misnamed(names: Seq<Vec<u8>>, prefix: Seq<u8>, i: int) -> bool {
    &&& 0 <= i < names.len()
    &&& prefix.is_prefix_of(names[i]@)
    &&& key_of(names[i]@) is None
}

/// Whether name `i` is the first in `names` that begins with `prefix` and has
/// a suffix that is no number.
pub open spec fn is_first_misnamed(names: Seq<Vec<u8>>, prefix: Seq<u8>, i: int) -> bool {
    &&& is_misnamed(names, prefix, i)
    &&& forall|j: int| 0 <= j < i ==> !is_misnamed(names, prefix, j)
}

/// Whether `order` lists the places of the names that begin with `prefix`,
/// each once, in the order of a merge.
pub open spec fn is_merge_order(names: Seq<Vec<u8>>, prefix: Seq<u8>, order: Seq<usize>) -> bool {
    &&& forall|a: int|
        0 <= a < order.len() ==> (#[trigger] order[a]) < names.len() && prefix.is_prefix_of(
            names[order[a] as int]@,
        )
    &&& forall|i: int|
        0 <= i < names.len() && prefix.is_prefix_of((#[trigger] names[i])@) ==> order.contains(
            i as usize,
        )
    &&& forall|a: int, b: int|
        0 <= a < b < order.len() ==> comes_before(
            names,
            (#[trigger] order[a]) as int,
            (#[trigger] order[b]) as int,
        )
}

/// Picks the files to merge and puts them in order: of `names`, those that
/// begin with `prefix`, by the number after their last `.`, and by their
/// place in `names` where two have the same number. The result holds places
/// in `names`. The first name that begins with `prefix` and has a suffix that
/// is no number is refused, and the error carries it.
pub fn merge_order(names: &[Vec<u8>], prefix: &[u8]) -> (r: Result<Vec<usize>, OrderingError>)
    ensures
        r is Err <==> exists|i: int| is_misnamed(names@, prefix@, i),
        r is Err ==> (exists|i: int|
            is_first_misnamed(names@, prefix@, i) && r->Err_0.name@ == names@[i]@),
        r is Ok ==> is_merge_order(names@, prefix@, r->Ok_0@),
{
    let mut order: Vec<usize> = Vec::new();
    let mut keys: Vec<u64> = Vec::new();
    let mut next: usize = 0;
    while next < names.len()
        invariant
            next <= names@.len(),
            order@.len() == keys@.len(),
            forall|j: int| 0 <= j < next ==> !is_misnamed(names@, prefix@, j),
            forall|a: int|
                0 <= a < order@.len() ==> (#[trigger] order@[a]) < next && prefix@.is_prefix_of(
                    names@[order@[a] as int]@,
                ) && key_of(names@[order@[a] as int]@) == Some(keys@[a] as nat),
            forall|i: int|
                0 <= i < next && prefix@.is_prefix_of((#[trigger] names@[i])@)
                    ==> order@.contains(i as usize),
            forall|a: int, b: int|
                0 <= a < b < order@.len() ==> comes_before(
                    names@,
                    (#[trigger] order@[a]) as int,
                    (#[trigger] order@[b]) as int,
                ),
        decreases names@.len() - next,
    {
        if has_prefix(names[next].as_slice(), prefix) {
            let key = match order_key(names[next].as_slice()) {
                Ok(key) => key,
                Err(e) => {
                    assert(is_first_misnamed(names@, prefix@, next as int));
                    return Err(e);
                },
            };
            let mut at: usize = order.len();
            while at > 0 && keys[at - 1] > key
                invariant
                    at <= keys@.len(),
                    forall|a: int| at <= a < keys@.len() ==> keys@[a] > key,
                decreases at,
            {
                at = at - 1;
            }
            let ghost before = order@;
            let ghost keys_before = keys@;
            order.insert(at, next);
            keys.insert(at, key);
            proof {
                assert forall|a: int| 0 <= a < order@.len() implies (#[trigger] order@[a]) < next
                    + 1 && prefix@.is_prefix_of(names@[order@[a] as int]@) && key_of(
                    names@[order@[a] as int]@,
                ) == Some(keys@[a] as nat) by {
                    if a < at {
                        assert(order@[a] == before[a] && keys@[a] == keys_before[a]);
                    } else if a > at {
                        assert(order@[a] == before[a - 1] && keys@[a] == keys_before[a - 1]);
                    }
                }
                assert forall|i: int|
                    0 <= i < next + 1 && prefix@.is_prefix_of(
                        (#[trigger] names@[i])@,
                    ) implies order@.contains(i as usize) by {
                    if i == next {
                        assert(order@[at as int] == next);
                    } else {
                        let a = before.index_of(i as usize);
                        if a < at {
                            assert(order@[a] == before[a]);
                        } else {
                            assert(order@[a + 1] == before[a]);
                        }
                    }
                }
                assert forall|a: int, b: int| 0 <= a < b < order@.len() implies comes_before(
                    names@,
                    (#[trigger] order@[a]) as int,
                    (#[trigger] order@[b]) as int,
                ) by {
                    let old_a = if a < at {
                        a
                    } else {
                        a - 1
                    };
                    let old_b = if b < at {
                        b
                    } else {
                        b - 1
                    };
                    if a != at {
                        assert(order@[a] == before[old_a] && keys@[a] == keys_before[old_a]);
                    }
                    if b != at {
                        assert(order@[b] == before[old_b] && keys@[b] == keys_before[old_b]);
                    }
                    if b == at {
                        if at > 0 {
                            assert(keys_before[at - 1] <= key);
                            if old_a < at - 1 {
                                assert(comes_before(
                                    names@,
                                    before[old_a] as int,
                                    before[at - 1] as int,
                                ));
                            }
                        }
                    }
                }
            }
        }
        next = next + 1;
    }
    proof {
        assert forall|i: int| !is_misnamed(names@, prefix@, i) by {}
    }
    Ok(order)
}

} // verus!
