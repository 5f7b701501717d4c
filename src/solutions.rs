use vstd::prelude::*;
use crate::mask::{
    ALL_VALUES, assigned, bit, count_values, first_value, has_value, lemma_count_one,
    lemma_no_cands, lemma_subset_bits, no_cands, wf_mask,
};
use crate::board::{
    all_assigned, assign_ok, eliminated, house_cell, house_covered, house_union_upto,
    lemma_house_cell, peer, refines, valid, without,
};
use crate::consistent::{
    lemma_bit_only, lemma_full_sound_valid, lemma_house_peers, lemma_union_contains,
    lemma_without_has, sound_board,
};
use crate::deduce::{
    committed_count, holds_candidate, house_count, lemma_committed_count_one,
    lemma_has_ops, lemma_house_count_one, lemma_house_count_two,
};
use crate::laws::lemma_union_has;

verus! {

/// `s` fills every cell, no two peers of it hold the same value, and each of
/// its values is a candidate of the same cell of `b`.
pub open spec fn is_solution(s: Seq<u32>, b: Seq<u32>) -> bool {
    sound_board(s) && all_assigned(s) && refines(s, b)
}

/// No board is a solution of `b`.
pub open spec fn no_solution(b: Seq<u32>) -> bool {
    forall|s: Seq<u32>| !#[trigger] is_solution(s, b)
}

/// Every solution of `b0` is a solution of `b1`.
pub open spec fn keeps_solutions(b0: Seq<u32>, b1: Seq<u32>) -> bool {
    forall|s: Seq<u32>| #[trigger] is_solution(s, b0) ==> is_solution(s, b1)
}

/// The value a solution gives a cell is its only candidate, and a candidate of
/// the board it solves.
pub proof fn lemma_solution_cell(s: Seq<u32>, b: Seq<u32>, c: int)
    requires
        is_solution(s, b),
        0 <= c < 81,
    ensures
        1 <= first_value(s[c]) <= 9,
        has_value(s[c], first_value(s[c])),
        has_value(b[c], first_value(s[c])),
        forall|w: u32| 1 <= w <= 9 ==> (#[trigger] has_value(s[c], w) <==> w == first_value(s[c])),
{
    assert(wf_mask(s[c]) && assigned(s[c]));
    lemma_count_one(s[c]);
    assert(s[c] & ALL_VALUES & !b[c] == 0);
    lemma_subset_bits(s[c], b[c]);
}

/// Peers get different values in a solution.
pub proof fn lemma_solution_peers(s: Seq<u32>, b: Seq<u32>, c: int, j: int)
    requires
        is_solution(s, b),
        0 <= c < 81,
        0 <= j < 81,
        peer(c, j),
    ensures
        first_value(s[c]) != first_value(s[j]),
{
    lemma_solution_cell(s, b, c);
    lemma_solution_cell(s, b, j);
    assert(assigned(s[c]));
}

/// Committing the value that a solution gives an uncommitted cell succeeds and
/// keeps that solution.
pub proof fn lemma_forced_keeps(s: Seq<u32>, b: Seq<u32>, c: int, v: u32)
    requires
        is_solution(s, b),
        0 <= c < 81,
        1 <= v <= 9,
        first_value(s[c]) == v,
    ensures
        assign_ok(b, c, v),
        is_solution(s, eliminated(b, c, v)),
{
    let e = eliminated(b, c, v);
    lemma_solution_cell(s, b, c);
    assert forall|i: int| 0 <= i < 81 implies #[trigger] s[i] & ALL_VALUES & !e[i] == 0 && (peer(
        i,
        c,
    ) ==> !no_cands(without(b[i], v))) by {
        lemma_solution_cell(s, b, i);
        let u = first_value(s[i]);
        if i == c {
            assert forall|w: u32| 1 <= w <= 9 && #[trigger] has_value(s[i], w) implies has_value(
                e[i],
                w,
            ) by {
                lemma_bit_only(v, w);
            }
            lemma_subset_bits(s[i], e[i]);
        } else if peer(i, c) {
            lemma_solution_peers(s, b, i, c);
            assert forall|w: u32| 1 <= w <= 9 && #[trigger] has_value(s[i], w) implies has_value(
                e[i],
                w,
            ) by {
                lemma_without_has(b[i], v, w);
            }
            lemma_subset_bits(s[i], e[i]);
            lemma_without_has(b[i], v, u);
            lemma_no_cands(without(b[i], v));
        } else {
            assert(s[i] & ALL_VALUES & !b[i] == 0);
        }
    }
    assert forall|i: int| 0 <= i < 81 && peer(i, c) implies !no_cands(#[trigger] without(b[i], v)) by {
        assert(s[i] & ALL_VALUES & !e[i] == 0);
    }
}

/// A solution gives the only candidate of an uncommitted cell to that cell.
pub proof fn lemma_naked_forced(s: Seq<u32>, b: Seq<u32>, c: int)
    requires
        is_solution(s, b),
        0 <= c < 81,
        count_values(b[c]) == 1,
    ensures
        first_value(s[c]) == first_value(b[c]),
{
    lemma_solution_cell(s, b, c);
    lemma_count_one(b[c]);
}

/// Some cell of house `h` holds `v` in a solution.
proof fn lemma_solution_house(s: Seq<u32>, b: Seq<u32>, h: int, v: u32) -> (q: int)
    requires
        is_solution(s, b),
        0 <= h < 27,
        1 <= v <= 9,
    ensures
        0 <= q < 9,
        first_value(s[house_cell(h, q)]) == v,
        has_value(b[house_cell(h, q)], v),
{
    lemma_full_sound_valid(s);
    assert(house_covered(s, h));
    let u = house_union_upto(s, h, 9);
    lemma_has_ops(u, ALL_VALUES, v);
    assert(ALL_VALUES & bit(v) != 0) by (bit_vector)
        requires
            1 <= v <= 9,
    ;
    lemma_union_has(s, h, v, 9);
    let q = choose|q: int| 0 <= q < 9 && #[trigger] has_value(s[house_cell(h, q)], v);
    lemma_house_cell(h, q);
    lemma_solution_cell(s, b, house_cell(h, q));
    q
}

/// On a consistent board, a solution puts a hidden single's value in its cell.
pub proof fn lemma_hidden_forced(s: Seq<u32>, b: Seq<u32>, h: int, p: int, v: u32)
    requires
        is_solution(s, b),
        sound_board(b),
        0 <= h < 27,
        0 <= p < 9,
        1 <= v <= 9,
        holds_candidate(b, h, v, p),
        house_count(b, h, v, 9) == 1,
    ensures
        first_value(s[house_cell(h, p)]) == v,
{
    let q = lemma_solution_house(s, b, h, v);
    if q != p {
        lemma_house_cell(h, p);
        lemma_house_cell(h, q);
        lemma_house_peers(h, q, p);
        let (a, d) = (house_cell(h, p), house_cell(h, q));
        if assigned(b[d]) {
            assert(wf_mask(b[d]));
            lemma_count_one(b[d]);
            assert(!has_value(b[a], first_value(b[d])));
        } else {
            lemma_house_count_two(b, h, v, 9, p, q);
        }
    }
}

/// A house where `v` is neither committed nor a candidate of an uncommitted
/// cell leaves the board without solution.
pub proof fn lemma_uncovered_no_solution(b: Seq<u32>, h: int, v: u32)
    requires
        0 <= h < 27,
        1 <= v <= 9,
        house_count(b, h, v, 9) == 0,
        committed_count(b, h, v, 9) == 0,
    ensures
        no_solution(b),
{
    assert forall|s: Seq<u32>| !#[trigger] is_solution(s, b) by {
        if is_solution(s, b) {
            let q = lemma_solution_house(s, b, h, v);
            if assigned(b[house_cell(h, q)]) {
                lemma_committed_count_one(b, h, v, 9, q);
            } else {
                lemma_house_count_one(b, h, v, 9, q);
            }
        }
    }
}

/// A cell without candidates leaves the board without solution.
pub proof fn lemma_empty_no_solution(b: Seq<u32>, c: int)
    requires
        0 <= c < 81,
        no_cands(b[c]),
    ensures
        no_solution(b),
{
    assert forall|s: Seq<u32>| !#[trigger] is_solution(s, b) by {
        if is_solution(s, b) {
            lemma_solution_cell(s, b, c);
            lemma_no_cands(b[c]);
        }
    }
}

/// A board with a solution is valid.
pub proof fn lemma_solution_valid(s: Seq<u32>, b: Seq<u32>)
    requires
        is_solution(s, b),
    ensures
        valid(b),
{
    assert forall|i: int| 0 <= i < 81 implies !no_cands(#[trigger] b[i]) by {
        lemma_solution_cell(s, b, i);
        lemma_no_cands(b[i]);
    }
    assert forall|h: int| 0 <= h < 27 implies #[trigger] house_covered(b, h) by {
        let u = house_union_upto(b, h, 9);
        assert forall|v: u32| 1 <= v <= 9 implies #[trigger] has_value(u, v) by {
            let q = lemma_solution_house(s, b, h, v);
            lemma_union_contains(b, h, v, 9, q);
        }
        crate::mask::lemma_all_values(u);
    }
}

/// Every solution of a board with one candidate cleared gives that cell another value.
pub proof fn lemma_without_keeps(s: Seq<u32>, b: Seq<u32>, c: int, v: u32)
    requires
        is_solution(s, b),
        b.len() == 81,
        0 <= c < 81,
        1 <= v <= 9,
        first_value(s[c]) != v,
    ensures
        is_solution(s, b.update(c, without(b[c], v))),
        !no_cands(without(b[c], v)),
{
    let e = b.update(c, without(b[c], v));
    lemma_solution_cell(s, b, c);
    let u = first_value(s[c]);
    assert forall|w: u32| 1 <= w <= 9 && #[trigger] has_value(s[c], w) implies has_value(e[c], w) by {
        lemma_without_has(b[c], v, w);
    }
    lemma_subset_bits(s[c], e[c]);
    lemma_without_has(b[c], v, u);
    lemma_no_cands(without(b[c], v));
    assert forall|i: int| 0 <= i < 81 implies #[trigger] s[i] & ALL_VALUES & !e[i] == 0 by {
        if i != c {
            assert(s[i] & ALL_VALUES & !b[i] == 0);
        }
    }
}

/// `s` and `t` give every cell the same value.
pub open spec fn same_values(s: Seq<u32>, t: Seq<u32>) -> bool {
    forall|i: int| 0 <= i < 81 ==> #[trigger] first_value(s[i]) == first_value(t[i])
}

/// Every board of `f` is a solution of `b`, and no two of them give every cell
/// the same value.
pub open spec fn distinct_solutions(f: Seq<Seq<u32>>, b: Seq<u32>) -> bool {
    &&& forall|k: int| 0 <= k < f.len() ==> is_solution(#[trigger] f[k], b)
    &&& forall|k1: int, k2: int|
        0 <= k1 < k2 < f.len() ==> !same_values(#[trigger] f[k1], #[trigger] f[k2])
}

/// Every solution of `b` gives every cell the same value as some board of `f`.
pub open spec fn covers_solutions(f: Seq<Seq<u32>>, b: Seq<u32>) -> bool {
    forall|s: Seq<u32>|
        #[trigger] is_solution(s, b) ==> exists|k: int| 0 <= k < f.len() && same_values(s, #[trigger] f[k])
}

/// A solution of a board is a solution of every board it refines.
pub proof fn lemma_solution_up(s: Seq<u32>, a: Seq<u32>, b: Seq<u32>)
    requires
        is_solution(s, a),
        refines(a, b),
    ensures
        is_solution(s, b),
{
    crate::board::lemma_refines_trans(s, a, b);
}

/// A solution of a filled, well-formed board gives every cell that board's value.
pub proof fn lemma_full_same(s: Seq<u32>, b: Seq<u32>)
    requires
        is_solution(s, b),
        all_assigned(b),
        sound_board(b),
    ensures
        same_values(s, b),
{
    assert forall|i: int| 0 <= i < 81 implies #[trigger] first_value(s[i]) == first_value(b[i]) by {
        lemma_solution_cell(s, b, i);
        assert(wf_mask(b[i]) && assigned(b[i]));
        lemma_count_one(b[i]);
    }
}

/// Solutions of the two branches on a candidate differ at the branching cell.
pub proof fn lemma_split_disjoint(s: Seq<u32>, t: Seq<u32>, b: Seq<u32>, c: int, v: u32)
    requires
        b.len() == 81,
        0 <= c < 81,
        1 <= v <= 9,
        is_solution(s, b.update(c, without(b[c], v))),
        is_solution(t, eliminated(b, c, v)),
    ensures
        !same_values(s, t),
{
    let e = b.update(c, without(b[c], v));
    lemma_solution_cell(s, e, c);
    lemma_without_has(b[c], v, first_value(s[c]));
    lemma_solution_cell(t, eliminated(b, c, v), c);
    lemma_bit_only(v, first_value(t[c]));
}

} // verus!
