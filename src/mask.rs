use vstd::prelude::*;

verus! {

/// Largest value a cell can hold.
pub const MAX_VALUE: u32 = 9;

/// Candidate bits of all nine values.
pub const ALL_VALUES: u32 = 0x1ff;

/// Flag bit marking a cell whose value is committed.
pub const VALUE_SET: u32 = 0x8000_0000;

/// The bit standing for value `v` (1 to 9).
pub open spec fn bit(v: u32) -> u32 {
    (1u32 << v) >> 1u32
}

/// Value `v` is among the candidates of mask `m`.
pub open spec fn has_value(m: u32, v: u32) -> bool {
    m & bit(v) != 0
}

/// The cell's value is committed.
pub open spec fn assigned(m: u32) -> bool {
    m & VALUE_SET != 0
}

/// The mask has no candidate left: a contradiction.
pub open spec fn no_cands(m: u32) -> bool {
    m & ALL_VALUES == 0
}

/// Number of values in 1..=k that are candidates of `m`.
pub open spec fn count_upto(m: u32, k: u32) -> nat
    decreases k,
{
    if k == 0 {
        0
    } else {
        count_upto(m, (k - 1) as u32) + if has_value(m, k) {
            1nat
        } else {
            0nat
        }
    }
}

/// Number of candidates of `m`.
pub open spec fn count_values(m: u32) -> nat {
    count_upto(m, 9)
}

/// Smallest candidate of `m` that is at least `v`, or 0 when there is none.
pub open spec fn first_from(m: u32, v: u32) -> u32
    decreases 10 - v,
{
    if v == 0 || v > 9 {
        0
    } else if has_value(m, v) {
        v
    } else {
        first_from(m, (v + 1) as u32)
    }
}

/// Smallest candidate of `m`, or 0 when there is none.
pub open spec fn first_value(m: u32) -> u32 {
    first_from(m, 1)
}

/// A mask keeps the cell invariant: a committed cell has exactly one candidate.
pub open spec fn wf_mask(m: u32) -> bool {
    assigned(m) ==> count_values(m) == 1
}

pub proof fn lemma_bits()
    ensures
        bit(1) == 1,
        bit(2) == 2,
        bit(3) == 4,
        bit(4) == 8,
        bit(5) == 16,
        bit(6) == 32,
        bit(7) == 64,
        bit(8) == 128,
        bit(9) == 256,
{
    assert(bit(1) == 1 && bit(2) == 2 && bit(3) == 4 && bit(4) == 8 && bit(5) == 16) by (bit_vector);
    assert(bit(6) == 32 && bit(7) == 64 && bit(8) == 128 && bit(9) == 256) by (bit_vector);
}

/// The candidate set is empty exactly when no value 1..=9 is a candidate.
pub proof fn lemma_no_cands(m: u32)
    ensures
        no_cands(m) <==> (forall|v: u32| 1 <= v <= 9 ==> !#[trigger] has_value(m, v)),
        no_cands(m) <==> count_values(m) == 0,
        !no_cands(m) <==> (1 <= first_value(m) <= 9 && has_value(m, first_value(m))),
        first_value(m) == 0 || (1 <= first_value(m) <= 9 && has_value(m, first_value(m))),
        forall|v: u32| 1 <= v < first_value(m) ==> !#[trigger] has_value(m, v),
{
    lemma_bits();
    assert(m & 0x1ff == 0 <==> (m & 1 == 0 && m & 2 == 0 && m & 4 == 0 && m & 8 == 0 && m & 16
        == 0 && m & 32 == 0 && m & 64 == 0 && m & 128 == 0 && m & 256 == 0)) by (bit_vector);
    if no_cands(m) {
        assert forall|v: u32| 1 <= v <= 9 implies !#[trigger] has_value(m, v) by {
            assert(v == 1 || v == 2 || v == 3 || v == 4 || v == 5 || v == 6 || v == 7 || v == 8
                || v == 9);
        }
    } else {
        assert(has_value(m, 1) || has_value(m, 2) || has_value(m, 3) || has_value(m, 4) || has_value(m, 5) || has_value(m, 6) || has_value(
            m,
            7,
        ) || has_value(m, 8) || has_value(m, 9));
    }
    reveal_with_fuel(count_upto, 10);
    reveal_with_fuel(first_from, 10);
}

/// The candidate set is full exactly when every value 1..=9 is a candidate.
pub proof fn lemma_all_values(m: u32)
    ensures
        (m & ALL_VALUES == ALL_VALUES) <==> (forall|v: u32| 1 <= v <= 9 ==> #[trigger] has_value(m, v)),
{
    lemma_bits();
    assert(m & 0x1ff == 0x1ff <==> (m & 1 != 0 && m & 2 != 0 && m & 4 != 0 && m & 8 != 0 && m & 16
        != 0 && m & 32 != 0 && m & 64 != 0 && m & 128 != 0 && m & 256 != 0)) by (bit_vector);
    if m & ALL_VALUES == ALL_VALUES {
        assert forall|v: u32| 1 <= v <= 9 implies #[trigger] has_value(m, v) by {
            assert(v == 1 || v == 2 || v == 3 || v == 4 || v == 5 || v == 6 || v == 7 || v == 8
                || v == 9);
        }
    } else {
        assert(!has_value(m, 1) || !has_value(m, 2) || !has_value(m, 3) || !has_value(m, 4)
            || !has_value(m, 5) || !has_value(m, 6) || !has_value(m, 7) || !has_value(m, 8)
            || !has_value(m, 9));
    }
}

/// The candidates of `x` are among those of `y` exactly when each value 1..=9
/// that is a candidate of `x` is one of `y`.
pub proof fn lemma_subset_bits(x: u32, y: u32)
    ensures
        (x & ALL_VALUES & !y == 0) <==> (forall|w: u32|
            1 <= w <= 9 && #[trigger] has_value(x, w) ==> has_value(y, w)),
{
    lemma_bits();
    assert((x & 0x1ff & !y == 0) <==> ((x & 1 == 0 || y & 1 != 0) && (x & 2 == 0 || y & 2 != 0) && (
    x & 4 == 0 || y & 4 != 0) && (x & 8 == 0 || y & 8 != 0) && (x & 16 == 0 || y & 16 != 0) && (x
        & 32 == 0 || y & 32 != 0) && (x & 64 == 0 || y & 64 != 0) && (x & 128 == 0 || y & 128 != 0)
        && (x & 256 == 0 || y & 256 != 0))) by (bit_vector);
    if x & ALL_VALUES & !y == 0 {
        assert forall|w: u32| 1 <= w <= 9 && #[trigger] has_value(x, w) implies has_value(y, w) by {
            assert(w == 1 || w == 2 || w == 3 || w == 4 || w == 5 || w == 6 || w == 7 || w == 8
                || w == 9);
        }
    } else {
        assert((has_value(x, 1) && !has_value(y, 1)) || (has_value(x, 2) && !has_value(y, 2)) || (
        has_value(x, 3) && !has_value(y, 3)) || (has_value(x, 4) && !has_value(y, 4)) || (
        has_value(x, 5) && !has_value(y, 5)) || (has_value(x, 6) && !has_value(y, 6)) || (
        has_value(x, 7) && !has_value(y, 7)) || (has_value(x, 8) && !has_value(y, 8)) || (
        has_value(x, 9) && !has_value(y, 9)));
    }
}

/// A mask with at least two candidates has one besides its first.
pub proof fn lemma_second_value(m: u32)
    requires
        count_values(m) >= 2,
    ensures
        1 <= first_value(m) <= 9,
        exists|w: u32| 1 <= w <= 9 && w != first_value(m) && #[trigger] has_value(m, w),
{
    lemma_no_cands(m);
    let v = first_value(m);
    if !(exists|w: u32| 1 <= w <= 9 && w != v && #[trigger] has_value(m, w)) {
        lemma_single(m, v);
    }
}

/// One value is a candidate, no other is: the mask has exactly one candidate.
pub proof fn lemma_single(m: u32, v: u32)
    requires
        1 <= v <= 9,
        has_value(m, v),
        forall|w: u32| 1 <= w <= 9 && w != v ==> !#[trigger] has_value(m, w),
    ensures
        count_values(m) == 1,
        first_value(m) == v,
{
    lemma_bits();
    assert(has_value(m, 1) == (v == 1) && has_value(m, 2) == (v == 2) && has_value(m, 3) == (v == 3));
    assert(has_value(m, 4) == (v == 4) && has_value(m, 5) == (v == 5) && has_value(m, 6) == (v == 6));
    assert(has_value(m, 7) == (v == 7) && has_value(m, 8) == (v == 8) && has_value(m, 9) == (v == 9));
    reveal_with_fuel(count_upto, 10);
    reveal_with_fuel(first_from, 10);
}

/// A mask with exactly one candidate holds no value but its first.
pub proof fn lemma_count_one(m: u32)
    requires
        count_values(m) == 1,
    ensures
        1 <= first_value(m) <= 9,
        has_value(m, first_value(m)),
        forall|w: u32| 1 <= w <= 9 && w != first_value(m) ==> !#[trigger] has_value(m, w),
{
    lemma_bits();
    reveal_with_fuel(count_upto, 10);
    reveal_with_fuel(first_from, 10);
}

/// Whether the committed flag is set.
pub fn is_value_set(mask: u32) -> (r: bool)
    ensures
        r == assigned(mask),
{
    mask & VALUE_SET != 0
}

/// The candidate bit of `value`.
pub fn value_mask(value: u32) -> (r: u32)
    requires
        1 <= value <= 9,
    ensures
        r == bit(value),
        r & ALL_VALUES == r,
        r & VALUE_SET == 0,
        has_value(r, value),
        forall|w: u32| 1 <= w <= 9 && w != value ==> !#[trigger] has_value(r, w),
{
    let r = 1u32 << (value - 1);
    assert(r == bit(value) && r & ALL_VALUES == r && r & VALUE_SET == 0 && r & bit(value) != 0)
        by (bit_vector)
        requires
            1 <= value <= 9,
            r == 1u32 << ((value - 1) as u32),
    ;
    assert forall|w: u32| 1 <= w <= 9 && w != value implies !#[trigger] has_value(r, w) by {
        assert(r & bit(w) == 0) by (bit_vector)
            requires
                1 <= value <= 9,
                1 <= w <= 9,
                w != value,
                r == bit(value),
        ;
    }
    r
}

/// Number of candidates of `mask`.
pub fn value_count(mask: u32) -> (r: u32)
    ensures
        r as nat == count_values(mask),
        r <= 9,
{
    let mut n: u32 = 0;
    let mut v: u32 = 1;
    while v <= MAX_VALUE
        invariant
            1 <= v <= 10,
            n as nat == count_upto(mask, (v - 1) as u32),
            n < v,
        decreases 10 - v,
    {
        if mask & value_mask(v) != 0 {
            n = n + 1;
        }
        v = v + 1;
    }
    n
}

/// Smallest candidate of `mask`, or 0 when it has none.
pub fn get_value(mask: u32) -> (r: u32)
    ensures
        r == first_value(mask),
{
    let mut v: u32 = 1;
    while v <= MAX_VALUE
        invariant
            1 <= v <= 10,
            first_value(mask) == first_from(mask, v),
        decreases 10 - v,
    {
        if mask & value_mask(v) != 0 {
            return v;
        }
        v = v + 1;
    }
    0
}

} // verus!
