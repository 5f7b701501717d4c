use vstd::prelude::*;
use vstd::set_lib::{lemma_int_range, lemma_len_subset, set_int_range};
use crate::mask::{
    ALL_VALUES, VALUE_SET, assigned, bit, first_value, has_value, lemma_count_one,
    lemma_no_cands, lemma_single, no_cands, wf_mask,
};
use crate::board::{
    all_assigned, assign_ok, eliminated, house_cell, house_covered, house_union_upto,
    lemma_house_cell, peer, valid, wf_board, without,
};
use crate::deduce::lemma_has_ops;

verus! {

/// No committed value is still a candidate of a peer of its cell.
pub open spec fn consistent(b: Seq<u32>) -> bool {
    forall|i: int, j: int|
        0 <= i < 81 && 0 <= j < 81 && peer(i, j) && assigned(#[trigger] b[i]) ==> !has_value(
            #[trigger] b[j],
            first_value(b[i]),
        )
}

/// Well-formed and consistent: what assignments keep on a board that starts fresh.
pub open spec fn sound_board(b: Seq<u32>) -> bool {
    wf_board(b) && consistent(b)
}

pub proof fn lemma_bit_only(v: u32, w: u32)
    requires
        1 <= v <= 9,
        1 <= w <= 9,
    ensures
        has_value(bit(v), w) == (v == w),
        has_value(bit(v) | VALUE_SET, w) == (v == w),
        (bit(v) | VALUE_SET) & VALUE_SET != 0,
{
    assert((bit(v) & bit(w) != 0) == (v == w) && ((bit(v) | VALUE_SET) & bit(w) != 0) == (v == w)
        && (bit(v) | VALUE_SET) & VALUE_SET != 0) by (bit_vector)
        requires
            1 <= v <= 9,
            1 <= w <= 9,
    ;
}

pub proof fn lemma_without_has(m: u32, v: u32, w: u32)
    requires
        1 <= v <= 9,
        1 <= w <= 9,
    ensures
        has_value(without(m, v), w) == (has_value(m, w) && v != w),
        assigned(without(m, v)) == assigned(m),
{
    lemma_has_ops(m, bit(v), w);
    lemma_bit_only(v, w);
    assert((m & !bit(v)) & VALUE_SET == m & VALUE_SET) by (bit_vector)
        requires
            1 <= v <= 9,
    ;
}

/// Removing a candidate from a well-formed mask that keeps a candidate leaves it
/// well-formed, and a committed mask keeps its value.
proof fn lemma_without_mask(m: u32, v: u32)
    requires
        1 <= v <= 9,
        wf_mask(m),
        !no_cands(without(m, v)),
    ensures
        wf_mask(without(m, v)),
        assigned(m) ==> first_value(without(m, v)) == first_value(m),
        assigned(m) ==> first_value(m) != v,
{
    let e = without(m, v);
    assert forall|w: u32| 1 <= w <= 9 implies #[trigger] has_value(e, w) == (has_value(m, w) && v
        != w) by {
        lemma_without_has(m, v, w);
    }
    lemma_without_has(m, v, 1);
    if assigned(m) {
        lemma_count_one(m);
        let u = first_value(m);
        lemma_no_cands(e);
        let w = first_value(e);
        assert(has_value(e, w));
        assert(w == u);
        lemma_single(e, u);
    }
}

/// Committing a candidate of an uncommitted cell, when no peer is emptied, keeps
/// a board well-formed and consistent.
pub proof fn lemma_eliminated_sound(b: Seq<u32>, c: int, v: u32)
    requires
        sound_board(b),
        0 <= c < 81,
        1 <= v <= 9,
        !assigned(b[c]),
        assign_ok(b, c, v),
    ensures
        sound_board(eliminated(b, c, v)),
{
    let e = eliminated(b, c, v);
    assert forall|w: u32| 1 <= w <= 9 implies #[trigger] has_value(e[c], w) == (v == w) by {
        lemma_bit_only(v, w);
    }
    lemma_bit_only(v, v);
    lemma_single(e[c], v);
    assert forall|i: int| 0 <= i < 81 implies wf_mask(#[trigger] e[i]) && (i != c ==> assigned(e[i])
        == assigned(b[i])) && (i != c && assigned(b[i]) ==> first_value(e[i]) == first_value(b[i]))
        && (peer(i, c) && assigned(b[i]) ==> first_value(b[i]) != v) by {
        assert(wf_mask(b[i]));
        if peer(i, c) {
            assert(!no_cands(without(b[i], v)));
            lemma_without_mask(b[i], v);
            lemma_without_has(b[i], v, 1);
        }
    }
    assert forall|i: int, j: int|
        0 <= i < 81 && 0 <= j < 81 && peer(i, j) && assigned(#[trigger] e[i]) implies !has_value(
        #[trigger] e[j],
        first_value(e[i]),
    ) by {
        if i == c {
            lemma_without_has(b[j], v, v);
        } else {
            let u = first_value(b[i]);
            assert(assigned(b[i]));
            lemma_count_one(b[i]);
            if j == c {
                assert(!has_value(b[c], u));
                lemma_bit_only(v, u);
            } else {
                assert(!has_value(b[j], u));
                if peer(j, c) {
                    lemma_without_has(b[j], v, u);
                }
            }
        }
    }
}

/// Removing a candidate of an uncommitted cell keeps a board well-formed and consistent.
pub proof fn lemma_without_sound(b: Seq<u32>, c: int, v: u32)
    requires
        sound_board(b),
        0 <= c < 81,
        1 <= v <= 9,
        !assigned(b[c]),
    ensures
        sound_board(b.update(c, without(b[c], v))),
{
    let e = b.update(c, without(b[c], v));
    lemma_without_has(b[c], v, 1);
    assert forall|i: int| 0 <= i < 81 implies wf_mask(#[trigger] e[i]) by {
        assert(wf_mask(b[i]));
    }
    assert forall|i: int, j: int|
        0 <= i < 81 && 0 <= j < 81 && peer(i, j) && assigned(#[trigger] e[i]) implies !has_value(
        #[trigger] e[j],
        first_value(e[i]),
    ) by {
        assert(i != c);
        let u = first_value(b[i]);
        assert(!has_value(b[j], u));
        if j == c {
            lemma_count_one(b[i]);
            lemma_without_has(b[c], v, u);
        }
    }
}

/// A fresh board is well-formed and consistent.
pub proof fn lemma_blank_sound(b: Seq<u32>)
    requires
        b.len() == 81,
        forall|i: int| 0 <= i < 81 ==> #[trigger] b[i] == ALL_VALUES,
    ensures
        sound_board(b),
{
    assert(ALL_VALUES & VALUE_SET == 0) by (bit_vector);
}

proof fn lemma_div_unique(a: int, d: int, q: int, r: int)
    requires
        d > 0,
        0 <= r < d,
        a == q * d + r,
    ensures
        a / d == q,
        a % d == r,
{
    vstd::arithmetic::div_mod::lemma_fundamental_div_mod_converse(a, d, q, r);
}

/// Where position `k` of box `x` lies: its box coordinates and its row and column.
proof fn lemma_box_cell(x: int, k: int)
    requires
        0 <= x < 9,
        0 <= k < 9,
    ensures
        house_cell(x + 18, k) / 27 == x / 3,
        house_cell(x + 18, k) % 9 == (x % 3) * 3 + k % 3,
        (house_cell(x + 18, k) % 9) / 3 == x % 3,
        house_cell(x + 18, k) / 9 == (x / 3) * 3 + k / 3,
{
    let (q, r, s, t) = (x / 3, x % 3, k / 3, k % 3);
    assert(0 <= q < 3 && 0 <= r < 3 && 0 <= s < 3 && 0 <= t < 3);
    let a = house_cell(x + 18, k);
    assert(a == q * 27 + (r * 3 + s * 9 + t));
    lemma_div_unique(a, 27, q, r * 3 + s * 9 + t);
    lemma_div_unique(a, 9, q * 3 + s, r * 3 + t);
    lemma_div_unique(r * 3 + t, 3, r, t);
}

/// Distinct positions of a house are distinct cells that are peers.
pub proof fn lemma_house_peers(h: int, k1: int, k2: int)
    requires
        0 <= h < 27,
        0 <= k1 < 9,
        0 <= k2 < 9,
        k1 != k2,
    ensures
        peer(house_cell(h, k1), house_cell(h, k2)),
{
    let (a, b) = (house_cell(h, k1), house_cell(h, k2));
    if h < 9 {
        lemma_div_unique(a, 9, h, k1);
        lemma_div_unique(b, 9, h, k2);
    } else if h < 18 {
        lemma_div_unique(a, 9, k1, h - 9);
        lemma_div_unique(b, 9, k2, h - 9);
    } else {
        lemma_box_cell(h - 18, k1);
        lemma_box_cell(h - 18, k2);
        if a == b {
            assert(k1 / 3 == k2 / 3 && k1 % 3 == k2 % 3);
        }
    }
}

pub proof fn lemma_union_contains(b: Seq<u32>, h: int, v: u32, k: int, p: int)
    requires
        1 <= v <= 9,
        0 <= p < k <= 9,
        has_value(b[house_cell(h, p)], v),
    ensures
        has_value(house_union_upto(b, h, k), v),
    decreases k,
{
    lemma_has_ops(house_union_upto(b, h, k - 1), b[house_cell(h, k - 1)], v);
    if p < k - 1 {
        lemma_union_contains(b, h, v, k - 1, p);
    }
}

/// A well-formed, consistent board with every cell committed is valid.
pub proof fn lemma_full_sound_valid(b: Seq<u32>)
    requires
        sound_board(b),
        all_assigned(b),
    ensures
        valid(b),
{
    assert forall|i: int| 0 <= i < 81 implies !no_cands(#[trigger] b[i]) by {
        assert(wf_mask(b[i]));
        lemma_no_cands(b[i]);
    }
    assert forall|h: int| 0 <= h < 27 implies #[trigger] house_covered(b, h) by {
        lemma_house_covered(b, h);
    }
}

proof fn lemma_house_covered(b: Seq<u32>, h: int)
    requires
        sound_board(b),
        all_assigned(b),
        0 <= h < 27,
    ensures
        house_covered(b, h),
{
    let s = Seq::new(9, |k: int| first_value(b[house_cell(h, k)]) as int);
    assert forall|k: int| 0 <= k < 9 implies 1 <= #[trigger] s[k] <= 9 && has_value(
        b[house_cell(h, k)],
        s[k] as u32,
    ) by {
        lemma_house_cell(h, k);
        assert(wf_mask(b[house_cell(h, k)]));
        lemma_count_one(b[house_cell(h, k)]);
    }
    assert(s.no_duplicates()) by {
        assert forall|k1: int, k2: int| 0 <= k1 < 9 && 0 <= k2 < 9 && k1 != k2 implies s[k1] != s[k2] by {
            lemma_house_cell(h, k1);
            lemma_house_cell(h, k2);
            lemma_house_peers(h, k1, k2);
            let (a, c) = (house_cell(h, k1), house_cell(h, k2));
            assert(assigned(b[a]));
            assert(!has_value(b[c], first_value(b[a])));
        }
    }
    s.unique_seq_to_set();
    lemma_int_range(1, 10);
    let u = house_union_upto(b, h, 9);
    assert forall|v: u32| 1 <= v <= 9 implies #[trigger] has_value(u, v) by {
        if !s.to_set().contains(v as int) {
            assert(s.to_set().subset_of(set_int_range(1, 10).remove(v as int)));
            lemma_len_subset(s.to_set(), set_int_range(1, 10).remove(v as int));
        } else {
            let k = choose|k: int| 0 <= k < 9 && s[k] == v as int;
            assert(1 <= s[k] <= 9);
            lemma_union_contains(b, h, v, 9, k);
        }
    }
    crate::mask::lemma_all_values(u);
}

} // verus!
