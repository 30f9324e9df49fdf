//! Candidate sets: bitsets over the digits 1 to 9, bit `d - 1` for digit `d`.
use vstd::prelude::*;

verus! {

/// No digit possible.
pub const EMPTY_SET: u32 = 0;

/// Every digit possible.
pub const FULL_SET: u32 = 0x1FF;

/// A candidate set uses only the nine low bits.
pub open spec fn is_set(s: u32) -> bool {
    s <= 0x1FF
}

/// Number of digits in a candidate set.
pub open spec fn card(s: u32) -> int {
    (s & 1u32) + ((s >> 1u32) & 1u32) + ((s >> 2u32) & 1u32) + ((s >> 3u32) & 1u32)
        + ((s >> 4u32) & 1u32) + ((s >> 5u32) & 1u32) + ((s >> 6u32) & 1u32) + ((s
        >> 7u32) & 1u32) + ((s >> 8u32) & 1u32)
}

/// The set holding digit `d` alone.
pub open spec fn singleton(d: u32) -> u32 {
    1u32 << ((d - 1u32) as u32)
}

/// A digit from 1 to 9.
pub open spec fn is_digit(d: u32) -> bool {
    1 <= d <= 9
}

/// The set holds exactly one digit.
pub open spec fn is_singleton(s: u32) -> bool {
    exists|d: u32| is_digit(d) && s == singleton(d)
}

/// The digit of a singleton set.
pub open spec fn value(s: u32) -> u32 {
    choose|d: u32| is_digit(d) && s == singleton(d)
}

/// `r` is the position of the highest set bit of `s`, counted from 1
/// (0 for the empty set).
pub open spec fn is_bit_len(s: u32, r: u32) -> bool {
    &&& r <= 32
    &&& (s as u64) >> (r as u64) == 0
    &&& r > 0 ==> (s as u64) >> ((r - 1) as u64) == 1
}

/// Bounds of the cardinality.
pub proof fn lemma_card_bounds(s: u32)
    ensures
        0 <= card(s) <= 9,
        is_set(s) ==> (card(s) == 0 <==> s == 0),
{
    assert(0 <= card(s) <= 9 && (s <= 0x1FF ==> (card(s) == 0 <==> s == 0))) by (bit_vector);
}

/// Every candidate of `x` is a candidate of `a`.
pub open spec fn subset(x: u32, a: u32) -> bool {
    x & a == x
}

/// A subset is no larger, in count and as a number, and strictly smaller
/// when it differs; subsets of subsets are subsets.
pub proof fn lemma_subset(x: u32, a: u32)
    requires
        subset(x, a),
    ensures
        card(x) <= card(a),
        x <= a,
        x != a ==> x < a,
        is_set(a) ==> is_set(x),
        is_set(a) && x != a ==> card(x) < card(a),
        forall|b: u32| subset(a, b) ==> #[trigger] subset(x, b),
{
    assert(x & a == x ==> card(x) <= card(a) && x <= a && (x != a ==> x < a)) by (bit_vector);
    assert(x & a == x && a <= 0x1FF ==> x <= 0x1FF && (x != a ==> card(x) < card(a))) by (bit_vector);
    assert forall|b: u32| subset(a, b) implies #[trigger] subset(x, b) by {
        assert(x & a == x && a & b == a ==> x & b == x) by (bit_vector);
    }
}

/// Removing the candidates of `m` leaves a subset.
pub proof fn lemma_remove(a: u32, m: u32)
    ensures
        subset(a, a),
        subset(a & !m, a),
        a & m == 0 ==> a & !m == a,
{
    assert(a & a == a) by (bit_vector);
    assert((a & !m) & a == a & !m) by (bit_vector);
    assert(a & m == 0 ==> a & !m == a) by (bit_vector);
}

/// The facts about a singleton of a digit.
pub proof fn lemma_singleton(d: u32)
    requires
        is_digit(d),
    ensures
        card(singleton(d)) == 1,
        is_set(singleton(d)),
        singleton(d) != 0,
        is_singleton(singleton(d)),
        value(singleton(d)) == d,
        is_bit_len(singleton(d), d),
{
    assert(1 <= d <= 9 ==> card(singleton(d)) == 1 && singleton(d) <= 0x1FF && singleton(d) != 0
        && is_bit_len(singleton(d), d)) by (bit_vector);
    lemma_singleton_inj(d, value(singleton(d)));
}

/// Different digits have different singletons.
pub proof fn lemma_singleton_inj(d: u32, e: u32)
    requires
        is_digit(d),
        is_digit(e),
    ensures
        singleton(d) == singleton(e) <==> d == e,
        d != e ==> singleton(d) & singleton(e) == 0,
{
    assert(1 <= d <= 9 && 1 <= e <= 9 ==> (singleton(d) == singleton(e) <==> d == e)) by (bit_vector);
    assert(1 <= d <= 9 && 1 <= e <= 9 && d != e ==> singleton(d) & singleton(e) == 0) by (bit_vector);
}

/// A candidate set of one element is the singleton of a digit.
pub proof fn lemma_card_one(s: u32)
    requires
        is_set(s),
        card(s) == 1,
    ensures
        is_singleton(s),
        is_digit(value(s)),
        s == singleton(value(s)),
{
    assert(s <= 0x1FF && card(s) == 1 ==> s == singleton(1) || s == singleton(2) || s == singleton(3)
        || s == singleton(4) || s == singleton(5) || s == singleton(6) || s == singleton(7)
        || s == singleton(8) || s == singleton(9)) by (bit_vector);
    if s == singleton(1) { assert(is_digit(1u32)); }
    else if s == singleton(2) { assert(is_digit(2u32)); }
    else if s == singleton(3) { assert(is_digit(3u32)); }
    else if s == singleton(4) { assert(is_digit(4u32)); }
    else if s == singleton(5) { assert(is_digit(5u32)); }
    else if s == singleton(6) { assert(is_digit(6u32)); }
    else if s == singleton(7) { assert(is_digit(7u32)); }
    else if s == singleton(8) { assert(is_digit(8u32)); }
    else { assert(is_digit(9u32)); }
}

/// The bit length of a number is unique.
pub proof fn lemma_bit_len_unique(s: u32, r1: u32, r2: u32)
    requires
        is_bit_len(s, r1),
        is_bit_len(s, r2),
    ensures
        r1 == r2,
{
    assert(is_bit_len(s, r1) && is_bit_len(s, r2) ==> r1 == r2) by (bit_vector);
}

/// Number of digits in the candidate set `s`.
pub fn count(s: u32) -> (r: u32)
    ensures
        r == card(s),
{
    assert(s & 1 <= 1 && (s >> 1) & 1 <= 1 && (s >> 2) & 1 <= 1 && (s >> 3) & 1 <= 1 && (s >> 4) & 1
        <= 1 && (s >> 5) & 1 <= 1 && (s >> 6) & 1 <= 1 && (s >> 7) & 1 <= 1 && (s >> 8) & 1 <= 1)
        by (bit_vector);
    (s & 1) + ((s >> 1) & 1) + ((s >> 2) & 1) + ((s >> 3) & 1) + ((s >> 4) & 1) + ((s >> 5) & 1)
        + ((s >> 6) & 1) + ((s >> 7) & 1) + ((s >> 8) & 1)
}

/// The position, counted from 1, of the highest bit of `s`: the digit of
/// a singleton set.
pub fn set_to_num(s: u32) -> (r: u32)
    ensures
        is_bit_len(s, r),
{
    let ghost s0 = s;
    let mut s = s;
    let mut i: u32 = 0;
    assert(s as u64 == (s as u64) >> 0u64) by (bit_vector);
    while s != 0
        invariant
            i <= 32,
            s as u64 == (s0 as u64) >> (i as u64),
            i > 0 ==> (s0 as u64) >> ((i - 1) as u64) != 0,
        decreases s,
    {
        assert(s != 0 && s as u64 == (s0 as u64) >> (i as u64) && i <= 32 ==> i < 32 && (s >> 1u32)
            < s && (s >> 1u32) as u64 == (s0 as u64) >> ((i + 1) as u64)) by (bit_vector);
        i += 1;
        s >>= 1;
    }
    assert(s == 0 && s as u64 == (s0 as u64) >> (i as u64) && i <= 32 && (i > 0 ==> (s0 as u64) >> (
    (i - 1) as u64) != 0) ==> is_bit_len(s0, i)) by (bit_vector);
    i
}

} // verus!
