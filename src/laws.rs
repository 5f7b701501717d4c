use vstd::prelude::*;
use vstd::set_lib::{lemma_int_range, lemma_len_subset, set_int_range};
use crate::mask::{
    ALL_VALUES, VALUE_SET, assigned, bit, first_value, has_value, lemma_count_one, wf_mask,
};
use crate::board::{
    all_assigned, assign_ok, assign_result, house_cell, house_covered, house_union_upto,
    lemma_house_cell, valid, wf_board,
};
use crate::deduce::lemma_has_ops;

verus! {

/// Value `v` is a candidate of some cell of house `h`.
pub open spec fn in_house(b: Seq<u32>, h: int, v: u32) -> bool {
    exists|k: int| 0 <= k < 9 && #[trigger] has_value(b[house_cell(h, k)], v)
}

/// Some cell among the first `k` of house `h` has candidate `v` when their union does.
pub proof fn lemma_union_has(b: Seq<u32>, h: int, v: u32, k: int)
    requires
        1 <= v <= 9,
        0 <= k <= 9,
        has_value(house_union_upto(b, h, k), v),
    ensures
        exists|j: int| 0 <= j < k && #[trigger] has_value(b[house_cell(h, j)], v),
    decreases k,
{
    if k <= 0 {
        assert(0u32 & bit(v) == 0) by (bit_vector);
    } else {
        lemma_has_ops(house_union_upto(b, h, k - 1), b[house_cell(h, k - 1)], v);
        if has_value(b[house_cell(h, k - 1)], v) {
            assert(has_value(b[house_cell(h, k - 1)], v));
        } else {
            lemma_union_has(b, h, v, k - 1);
            let j = choose|j: int| 0 <= j < k - 1 && #[trigger] has_value(b[house_cell(h, j)], v);
            assert(has_value(b[house_cell(h, j)], v));
        }
    }
}

/// In a covered house whose cells are all committed, each value sits in one
/// cell and in one cell only.
pub proof fn lemma_house_exactly_once(b: Seq<u32>, h: int)
    requires
        wf_board(b),
        0 <= h < 27,
        house_covered(b, h),
        forall|k: int| 0 <= k < 9 ==> assigned(#[trigger] b[house_cell(h, k)]),
    ensures
        forall|v: u32| 1 <= v <= 9 ==> #[trigger] in_house(b, h, v),
        forall|v: u32, k1: int, k2: int|
            1 <= v <= 9 && 0 <= k1 < 9 && 0 <= k2 < 9 && #[trigger] has_value(b[house_cell(h, k1)], v)
                && #[trigger] has_value(b[house_cell(h, k2)], v) ==> k1 == k2,
{
    let u = house_union_upto(b, h, 9);
    assert forall|v: u32| 1 <= v <= 9 implies #[trigger] in_house(b, h, v) by {
        lemma_has_ops(u, ALL_VALUES, v);
        assert(ALL_VALUES & bit(v) != 0) by (bit_vector)
            requires
                1 <= v <= 9,
        ;
        lemma_union_has(b, h, v, 9);
    }
    let s = Seq::new(9, |k: int| first_value(b[house_cell(h, k)]) as int);
    assert forall|k: int, w: u32| 0 <= k < 9 && 1 <= w <= 9 implies #[trigger] has_value(
        b[house_cell(h, k)],
        w,
    ) == (s[k] == w as int) by {
        lemma_house_cell(h, k);
        let m = b[house_cell(h, k)];
        assert(wf_mask(m));
        lemma_count_one(m);
    }
    assert(set_int_range(1, 10).subset_of(s.to_set())) by {
        assert forall|x: int| set_int_range(1, 10).contains(x) implies s.to_set().contains(x) by {
            let v = x as u32;
            assert(in_house(b, h, v));
            let k = choose|k: int| 0 <= k < 9 && #[trigger] has_value(b[house_cell(h, k)], v);
            assert(s[k] == x);
        }
    }
    lemma_int_range(1, 10);
    s.lemma_cardinality_of_set();
    lemma_len_subset(set_int_range(1, 10), s.to_set());
    s.lemma_no_dup_set_cardinality();
}

/// A valid board with every cell committed holds each value exactly once in
/// every house.
pub proof fn law_solved_houses(b: Seq<u32>, h: int)
    requires
        wf_board(b),
        valid(b),
        all_assigned(b),
        0 <= h < 27,
    ensures
        forall|v: u32| 1 <= v <= 9 ==> #[trigger] in_house(b, h, v),
        forall|v: u32, k1: int, k2: int|
            1 <= v <= 9 && 0 <= k1 < 9 && 0 <= k2 < 9 && #[trigger] has_value(b[house_cell(h, k1)], v)
                && #[trigger] has_value(b[house_cell(h, k2)], v) ==> k1 == k2,
{
    assert forall|k: int| 0 <= k < 9 implies assigned(#[trigger] b[house_cell(h, k)]) by {
        lemma_house_cell(h, k);
    }
    lemma_house_exactly_once(b, h);
}

/// Two committed cells of one house holding the same value make the board
/// invalid, where every cell of that house is committed.
pub proof fn law_clash_invalid(b: Seq<u32>, h: int, k1: int, k2: int, v: u32)
    requires
        wf_board(b),
        0 <= h < 27,
        0 <= k1 < 9,
        0 <= k2 < 9,
        k1 != k2,
        1 <= v <= 9,
        forall|k: int| 0 <= k < 9 ==> assigned(#[trigger] b[house_cell(h, k)]),
        has_value(b[house_cell(h, k1)], v),
        has_value(b[house_cell(h, k2)], v),
    ensures
        !valid(b),
{
    if valid(b) {
        lemma_house_exactly_once(b, h);
    }
}

/// Assigning a value that just succeeded on the same cell succeeds again and
/// changes nothing.
pub proof fn law_assign_idempotent(b: Seq<u32>, c: int, v: u32)
    requires
        b.len() == 81,
        0 <= c < 81,
        1 <= v <= 9,
        assign_ok(b, c, v),
    ensures
        assign_ok(assign_result(b, c, v), c, v),
        assign_result(assign_result(b, c, v), c, v) == assign_result(b, c, v),
{
    assert((bit(v) | VALUE_SET) & bit(v) != 0 && (bit(v) | VALUE_SET) & VALUE_SET != 0)
        by (bit_vector)
        requires
            1 <= v <= 9,
    ;
}

/// Assigning a value to a cell committed to another value fails.
pub proof fn law_assign_conflict(b: Seq<u32>, c: int, v: u32, w: u32)
    requires
        b.len() == 81,
        0 <= c < 81,
        1 <= v <= 9,
        1 <= w <= 9,
        v != w,
        wf_mask(b[c]),
        assigned(b[c]),
        has_value(b[c], w),
    ensures
        !assign_ok(b, c, v),
{
    lemma_count_one(b[c]);
}

/// A second assignment of the same value to the same cell succeeds and changes
/// nothing, whatever the first returned: after the first, the cell is committed
/// to the value (or was already committed holding it).
pub proof fn law_assign_twice(b0: Seq<u32>, b1: Seq<u32>, c: int, v: u32)
    requires
        b0.len() == 81,
        b1.len() == 81,
        0 <= c < 81,
        1 <= v <= 9,
        has_value(b0[c], v),
        assigned(b0[c]) ==> b1 == b0,
        !assigned(b0[c]) ==> b1[c] == bit(v) | VALUE_SET,
    ensures
        assign_ok(b1, c, v),
        assign_result(b1, c, v) == b1,
{
    assert((bit(v) | VALUE_SET) & bit(v) != 0 && (bit(v) | VALUE_SET) & VALUE_SET != 0)
        by (bit_vector)
        requires
            1 <= v <= 9,
    ;
}

} // verus!
