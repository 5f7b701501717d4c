use vstd::prelude::*;
use crate::mask::{
    ALL_VALUES, assigned, bit, count_values, first_value, get_value, has_value, is_value_set,
    lemma_all_values, lemma_count_one, lemma_no_cands, lemma_second_value, no_cands, value_count,
};
use crate::consistent::{lemma_eliminated_sound, sound_board};
use crate::solutions::{
    is_solution, keeps_solutions, lemma_empty_no_solution, lemma_forced_keeps, lemma_hidden_forced,
    lemma_naked_forced, lemma_uncovered_no_solution, no_solution,
};
use crate::board::{
    Board, NUM_CELLS, NUM_HOUSES, all_assigned, assign_ok, eliminated,
    get_house, house_cell, house_covered, house_union_upto, lemma_assign_progress, lemma_num_assigned_le,
    num_assigned, refines, lemma_refines_refl, lemma_refines_trans, lemma_eliminated_refines,
    set_value, valid, weight,
};

verus! {

/// Outcome of one deduction step.
#[allow(non_camel_case_types)]
#[derive(PartialEq, Eq, Structural, Clone, Copy, Debug)]
pub enum LogicResult {
    /// No forced assignment was found; the board is unchanged.
    NONE,
    /// Exactly one forced assignment was made.
    CHANGED,
    /// The board holds a contradiction.
    INVALID,
}

/// A cell that ends the naked-single scan: it has no candidate, or it is
/// uncommitted with exactly one.
pub open spec fn naked_stop(m: u32) -> bool {
    no_cands(m) || (!assigned(m) && count_values(m) == 1)
}

/// First cell from `i` on that ends the naked-single scan, or 81.
pub open spec fn naked_from(b: Seq<u32>, i: int) -> int
    decreases 81 - i,
{
    if i >= 81 || i < 0 {
        81
    } else if naked_stop(b[i]) {
        i
    } else {
        naked_from(b, i + 1)
    }
}

/// First cell of the board that ends the naked-single scan, or 81.
pub open spec fn naked_target(b: Seq<u32>) -> int {
    naked_from(b, 0)
}

/// Position `j` of house `h` is an uncommitted cell with candidate `v`.
pub open spec fn holds_candidate(b: Seq<u32>, h: int, v: u32, j: int) -> bool {
    !assigned(b[house_cell(h, j)]) && has_value(b[house_cell(h, j)], v)
}

/// Number of the first `k` cells of house `h` that are uncommitted with candidate `v`.
pub open spec fn house_count(b: Seq<u32>, h: int, v: u32, k: int) -> nat
    decreases k,
{
    if k <= 0 {
        0
    } else {
        house_count(b, h, v, k - 1) + if holds_candidate(b, h, v, k - 1) {
            1nat
        } else {
            0nat
        }
    }
}

/// Position `j` of house `h` is a committed cell holding `v`.
pub open spec fn holds_committed(b: Seq<u32>, h: int, v: u32, j: int) -> bool {
    assigned(b[house_cell(h, j)]) && has_value(b[house_cell(h, j)], v)
}

/// Number of the first `k` cells of house `h` that are committed to `v`.
pub open spec fn committed_count(b: Seq<u32>, h: int, v: u32, k: int) -> nat
    decreases k,
{
    if k <= 0 {
        0
    } else {
        committed_count(b, h, v, k - 1) + if holds_committed(b, h, v, k - 1) {
            1nat
        } else {
            0nat
        }
    }
}

/// House `h` still admits every value, and no value is a candidate of exactly
/// one of its uncommitted cells.
pub open spec fn house_clear(b: Seq<u32>, h: int) -> bool {
    forall|v: u32|
        1 <= v <= 9 ==> (#[trigger] house_count(b, h, v, 9) >= 1 || committed_count(b, h, v, 9)
            >= 1) && house_count(b, h, v, 9) != 1
}

/// Position `j` of house `h` is an uncommitted cell holding a value that no
/// other uncommitted cell of the house holds.
pub open spec fn once_at(b: Seq<u32>, h: int, j: int) -> bool {
    !assigned(b[house_cell(h, j)]) && exists|v: u32|
        1 <= v <= 9 && #[trigger] has_value(b[house_cell(h, j)], v) && house_count(b, h, v, 9) == 1
}

/// First house from `h` on, in table order, that is not clear, or 27.
pub open spec fn unclear_from(b: Seq<u32>, h: int) -> int
    decreases 27 - h,
{
    if h >= 27 || h < 0 {
        27
    } else if !house_clear(b, h) {
        h
    } else {
        unclear_from(b, h + 1)
    }
}

/// First house, in table order, that lacks a value or holds a hidden single, or 27.
pub open spec fn hidden_house(b: Seq<u32>) -> int {
    unclear_from(b, 0)
}

proof fn lemma_unclear_from(b: Seq<u32>, h: int, g: int)
    requires
        0 <= h <= g < 27,
        forall|x: int| h <= x < g ==> #[trigger] house_clear(b, x),
        !house_clear(b, g),
    ensures
        unclear_from(b, h) == g,
    decreases g - h,
{
    if h < g {
        lemma_unclear_from(b, h + 1, g);
    }
}

/// No house holds a hidden single or lacks a value.
pub open spec fn no_hidden(b: Seq<u32>) -> bool {
    forall|h: int| 0 <= h < 27 ==> #[trigger] house_clear(b, h)
}

/// Value `v` can go in cell `c` alone among the uncommitted cells of some house.
pub open spec fn hidden_move(b: Seq<u32>, c: int, v: u32) -> bool {
    &&& 0 <= c < 81
    &&& 1 <= v <= 9
    &&& !assigned(b[c])
    &&& has_value(b[c], v)
    &&& exists|h: int, p: int|
        0 <= h < 27 && 0 <= p < 9 && #[trigger] house_cell(h, p) == c && house_count(b, h, v, 9)
            == 1
}

/// A forced assignment lowers the weight and commits one more cell.
pub open spec fn progress(b0: Seq<u32>, b1: Seq<u32>) -> bool {
    &&& num_assigned(b1) == num_assigned(b0) + 1
    &&& weight(b1) + 256 <= weight(b0)
}

pub proof fn lemma_has_ops(a: u32, m: u32, w: u32)
    requires
        1 <= w <= 9,
    ensures
        has_value(a | m, w) == (has_value(a, w) || has_value(m, w)),
        has_value(a & m, w) == (has_value(a, w) && has_value(m, w)),
        has_value(a & !m, w) == (has_value(a, w) && !has_value(m, w)),
        has_value(a & ALL_VALUES, w) == has_value(a, w),
{
    assert(((a | m) & bit(w) != 0) == ((a & bit(w) != 0) || (m & bit(w) != 0))) by (bit_vector)
        requires
            1 <= w <= 9,
    ;
    assert(((a & m) & bit(w) != 0) == ((a & bit(w) != 0) && (m & bit(w) != 0))) by (bit_vector)
        requires
            1 <= w <= 9,
    ;
    assert(((a & !m) & bit(w) != 0) == ((a & bit(w) != 0) && !(m & bit(w) != 0))) by (bit_vector)
        requires
            1 <= w <= 9,
    ;
    assert(((a & ALL_VALUES) & bit(w) != 0) == (a & bit(w) != 0)) by (bit_vector)
        requires
            1 <= w <= 9,
    ;
}

pub proof fn lemma_naked_from(b: Seq<u32>, i: int)
    requires
        0 <= i <= 81,
    ensures
        i <= naked_from(b, i) <= 81,
        naked_from(b, i) < 81 ==> naked_stop(b[naked_from(b, i)]),
        forall|j: int| i <= j < naked_from(b, i) ==> !naked_stop(#[trigger] b[j]),
    decreases 81 - i,
{
    if i < 81 && !naked_stop(b[i]) {
        lemma_naked_from(b, i + 1);
    }
}

/// Finds the first cell, in index order, that has no candidate (the board is
/// invalid) or that is uncommitted with a single candidate, which it then
/// assigns.
pub fn set_naked_single(board: &mut Board) -> (r: LogicResult)
    ensures
        naked_target(old(board)@) == 81 ==> r == LogicResult::NONE && final(board)@ == old(
            board,
        )@,
        naked_target(old(board)@) < 81 && no_cands(old(board)@[naked_target(old(board)@)]) ==> r
            == LogicResult::INVALID && final(board)@ == old(board)@,
        naked_target(old(board)@) < 81 && !no_cands(old(board)@[naked_target(old(board)@)]) ==> r
            == if assign_ok(
            old(board)@,
            naked_target(old(board)@),
            first_value(old(board)@[naked_target(old(board)@)]),
        ) {
            LogicResult::CHANGED
        } else {
            LogicResult::INVALID
        },
        r == LogicResult::CHANGED ==> final(board)@ == eliminated(
            old(board)@,
            naked_target(old(board)@),
            first_value(old(board)@[naked_target(old(board)@)]),
        ) && progress(old(board)@, final(board)@),
        r == LogicResult::INVALID ==> no_solution(old(board)@),
        r == LogicResult::CHANGED ==> keeps_solutions(old(board)@, final(board)@),
{
    let ghost b0 = board@;
    proof {
        lemma_naked_from(b0, 0);
    }
    let mut cell: usize = 0;
    while cell < NUM_CELLS
        invariant
            cell <= 81,
            board@ == b0,
            b0 == old(board)@,
            naked_target(b0) >= cell,
            naked_target(b0) <= 81,
            naked_target(b0) < 81 ==> naked_stop(b0[naked_target(b0)]),
            forall|j: int| 0 <= j < naked_target(b0) ==> !naked_stop(#[trigger] b0[j]),
        decreases 81 - cell,
    {
        let mask = board[cell];
        if mask & ALL_VALUES == 0 {
            proof {
                lemma_empty_no_solution(b0, cell as int);
            }
            return LogicResult::INVALID;
        }
        if !is_value_set(mask) && value_count(mask) == 1 {
            let value = get_value(mask);
            proof {
                lemma_count_one(mask);
                lemma_assign_progress(b0, cell as int, value);
                assert forall|s: Seq<u32>| #[trigger] is_solution(s, b0) implies assign_ok(
                    b0,
                    cell as int,
                    value,
                ) && is_solution(s, eliminated(b0, cell as int, value)) by {
                    lemma_naked_forced(s, b0, cell as int);
                    lemma_forced_keeps(s, b0, cell as int, value);
                }
            }
            if !set_value(board, cell, value) {
                return LogicResult::INVALID;
            }
            return LogicResult::CHANGED;
        }
        cell = cell + 1;
    }
    LogicResult::NONE
}

pub proof fn lemma_house_count_two(b: Seq<u32>, h: int, v: u32, n: int, p: int, q: int)
    requires
        0 <= p < n,
        0 <= q < n,
        p != q,
        holds_candidate(b, h, v, p),
        holds_candidate(b, h, v, q),
    ensures
        house_count(b, h, v, n) >= 2,
    decreases n,
{
    if n - 1 != p && n - 1 != q {
        lemma_house_count_two(b, h, v, n - 1, p, q);
    } else {
        let o = if n - 1 == p {
            q
        } else {
            p
        };
        lemma_house_count_one(b, h, v, n - 1, o);
    }
}

pub proof fn lemma_house_count_one(b: Seq<u32>, h: int, v: u32, n: int, p: int)
    requires
        0 <= p < n,
        holds_candidate(b, h, v, p),
    ensures
        house_count(b, h, v, n) >= 1,
    decreases n,
{
    if n - 1 != p {
        lemma_house_count_one(b, h, v, n - 1, p);
    }
}

pub proof fn lemma_committed_count_one(b: Seq<u32>, h: int, v: u32, n: int, p: int)
    requires
        0 <= p < n,
        holds_committed(b, h, v, p),
    ensures
        committed_count(b, h, v, n) >= 1,
    decreases n,
{
    if n - 1 != p {
        lemma_committed_count_one(b, h, v, n - 1, p);
    }
}

proof fn lemma_house_count_exists(b: Seq<u32>, h: int, v: u32, n: int)
    requires
        house_count(b, h, v, n) >= 1,
    ensures
        exists|p: int| 0 <= p < n && #[trigger] holds_candidate(b, h, v, p),
    decreases n,
{
    if n > 0 && !holds_candidate(b, h, v, n - 1) {
        lemma_house_count_exists(b, h, v, n - 1);
        let p = choose|p: int| 0 <= p < n - 1 && #[trigger] holds_candidate(b, h, v, p);
        assert(holds_candidate(b, h, v, p));
    }
}

/// For each house in order, finds the values that are candidates of exactly
/// one uncommitted cell of it and assigns the first such cell found. A house
/// where some value is neither committed nor a candidate makes the board
/// invalid.
pub fn set_hidden_single(board: &mut Board) -> (r: LogicResult)
    ensures
        r == LogicResult::NONE ==> final(board)@ == old(board)@,
        r == LogicResult::NONE <==> no_hidden(old(board)@),
        r == LogicResult::CHANGED ==> exists|p: int, v: u32|
            0 <= p < 9 && 1 <= v <= 9 && #[trigger] holds_candidate(
                old(board)@,
                hidden_house(old(board)@),
                v,
                p,
            ) && house_count(old(board)@, hidden_house(old(board)@), v, 9) == 1 && final(board)@
                == eliminated(old(board)@, house_cell(hidden_house(old(board)@), p), v) && forall|
                j: int,
            |
                0 <= j < p ==> !#[trigger] once_at(old(board)@, hidden_house(old(board)@), j),
        r == LogicResult::INVALID ==> final(board)@ == old(board)@ || exists|c: int, v: u32|
            #[trigger] hidden_move(old(board)@, c, v) && !assign_ok(old(board)@, c, v),
        r == LogicResult::CHANGED ==> exists|c: int, v: u32|
            #[trigger] hidden_move(old(board)@, c, v) && assign_ok(old(board)@, c, v)
                && final(board)@ == eliminated(old(board)@, c, v),
        r == LogicResult::CHANGED ==> progress(old(board)@, final(board)@),
        all_assigned(old(board)@) && valid(old(board)@) ==> r == LogicResult::NONE,
        sound_board(old(board)@) && r == LogicResult::INVALID ==> no_solution(old(board)@),
        sound_board(old(board)@) && r == LogicResult::CHANGED ==> keeps_solutions(
            old(board)@,
            final(board)@,
        ),
{
    let ghost b0 = board@;
    let mut h: usize = 0;
    while h < NUM_HOUSES
        invariant
            h <= 27,
            board@ == b0,
            b0 == old(board)@,
            forall|g: int| 0 <= g < h ==> #[trigger] house_clear(b0, g),
        decreases 27 - h,
    {
        let house = get_house(h);
        let mut value_set_mask: u32 = 0;
        let mut at_least_once: u32 = 0;
        let mut more_than_once: u32 = 0;
        proof {
            assert forall|w: u32| 1 <= w <= 9 implies !#[trigger] has_value(0u32, w) by {
                assert(0u32 & bit(w) == 0) by (bit_vector);
            }
        }
        let mut k: usize = 0;
        while k < 9
            invariant
                k <= 9,
                h < 27,
                board@ == b0,
                forall|j: int| 0 <= j < 9 ==> #[trigger] house@[j] as int == house_cell(h as int, j),
                forall|j: int| 0 <= j < 9 ==> #[trigger] house@[j] < 81,
                forall|w: u32|
                    1 <= w <= 9 ==> (has_value(at_least_once, w) <==> #[trigger] house_count(
                        b0,
                        h as int,
                        w,
                        k as int,
                    ) >= 1) && (has_value(more_than_once, w) <==> house_count(b0, h as int, w, k as int)
                        >= 2),
                forall|w: u32|
                    1 <= w <= 9 ==> (has_value(value_set_mask, w) <==> #[trigger] committed_count(
                        b0,
                        h as int,
                        w,
                        k as int,
                    ) >= 1),
                all_assigned(b0) ==> at_least_once == 0 && value_set_mask == house_union_upto(
                    b0,
                    h as int,
                    k as int,
                ),
            decreases 9 - k,
        {
            let mask = board[house[k]];
            let ghost a0 = at_least_once;
            let ghost m0 = more_than_once;
            let ghost s0 = value_set_mask;
            if is_value_set(mask) {
                value_set_mask = value_set_mask | mask;
            } else {
                more_than_once = more_than_once | (mask & at_least_once);
                at_least_once = at_least_once | mask;
            }
            proof {
                assert forall|w: u32| 1 <= w <= 9 implies (has_value(at_least_once, w) <==> #[trigger] house_count(
                    b0,
                    h as int,
                    w,
                    k + 1,
                ) >= 1) && (has_value(more_than_once, w) <==> house_count(b0, h as int, w, k + 1)
                    >= 2) by {
                    lemma_has_ops(a0, mask, w);
                    lemma_has_ops(mask, a0, w);
                    lemma_has_ops(m0, mask & a0, w);
                    lemma_has_ops(s0, mask, w);
                    assert(committed_count(b0, h as int, w, k + 1) == committed_count(
                        b0,
                        h as int,
                        w,
                        k as int,
                    ) + if holds_committed(b0, h as int, w, k as int) {
                        1nat
                    } else {
                        0nat
                    });
                    assert(house_count(b0, h as int, w, k + 1) == house_count(b0, h as int, w, k as int)
                        + if holds_candidate(b0, h as int, w, k as int) {
                        1nat
                    } else {
                        0nat
                    });
                }
            }
            proof {
                assert forall|w: u32| 1 <= w <= 9 implies (has_value(value_set_mask, w)
                    <==> #[trigger] committed_count(b0, h as int, w, k + 1) >= 1) by {
                    lemma_has_ops(s0, mask, w);
                    assert(committed_count(b0, h as int, w, k + 1) == committed_count(
                        b0,
                        h as int,
                        w,
                        k as int,
                    ) + if holds_committed(b0, h as int, w, k as int) {
                        1nat
                    } else {
                        0nat
                    });
                }
            }
            k = k + 1;
        }
        let values_present = at_least_once | value_set_mask;
        proof {
            lemma_all_values(values_present);
            assert forall|w: u32| 1 <= w <= 9 implies has_value(values_present, w) == (
            #[trigger] house_count(b0, h as int, w, 9) >= 1 || committed_count(b0, h as int, w, 9)
                >= 1) by {
                lemma_has_ops(at_least_once, value_set_mask, w);
            }
        }
        if values_present & ALL_VALUES != ALL_VALUES {
            proof {
                let w = choose|w: u32| 1 <= w <= 9 && !#[trigger] has_value(values_present, w);
                assert(house_count(b0, h as int, w, 9) == 0);
                assert(!house_clear(b0, h as int));
                lemma_uncovered_no_solution(b0, h as int, w);
                lemma_unclear_from(b0, 0, h as int);
                if all_assigned(b0) {
                    assert(values_present == value_set_mask) by (bit_vector)
                        requires
                            at_least_once == 0,
                            values_present == at_least_once | value_set_mask,
                    ;
                    assert(!house_covered(b0, h as int));
                }
            }
            return LogicResult::INVALID;
        }
        let exactly_once = at_least_once & !more_than_once;
        proof {
            assert forall|w: u32| 1 <= w <= 9 implies (has_value(exactly_once, w) <==> #[trigger] house_count(
                b0,
                h as int,
                w,
                9,
            ) == 1) by {
                lemma_has_ops(at_least_once, more_than_once, w);
            }
            if all_assigned(b0) {
                assert(exactly_once & ALL_VALUES == 0) by (bit_vector)
                    requires
                        at_least_once == 0,
                        exactly_once == at_least_once & !more_than_once,
                ;
            }
        }
        proof {
            lemma_no_cands(exactly_once);
            if exactly_once & ALL_VALUES == 0 {
                assert forall|w: u32| 1 <= w <= 9 implies #[trigger] house_count(b0, h as int, w, 9)
                    != 1 by {
                    assert(!has_value(exactly_once, w));
                }
                assert(house_clear(b0, h as int));
            }
        }
        if exactly_once & ALL_VALUES != 0 {
            let ghost vstar = first_value(exactly_once);
            proof {
                assert(house_count(b0, h as int, vstar, 9) == 1);
                assert(!house_clear(b0, h as int));
                lemma_unclear_from(b0, 0, h as int);
            }
            let mut k: usize = 0;
            while k < 9
                invariant
                    k <= 9,
                    h < 27,
                    board@ == b0,
                    b0 == old(board)@,
                    forall|j: int|
                        0 <= j < 9 ==> #[trigger] house@[j] as int == house_cell(h as int, j),
                    forall|j: int| 0 <= j < 9 ==> #[trigger] house@[j] < 81,
                    forall|w: u32|
                        1 <= w <= 9 ==> (has_value(exactly_once, w) <==> #[trigger] house_count(
                            b0,
                            h as int,
                            w,
                            9,
                        ) == 1),
                    1 <= vstar <= 9,
                    has_value(exactly_once, vstar),
                    !house_clear(b0, h as int),
                    hidden_house(b0) == h as int,
                    forall|j: int| 0 <= j < k ==> !#[trigger] holds_candidate(b0, h as int, vstar, j),
                    forall|j: int| 0 <= j < k ==> !#[trigger] once_at(b0, h as int, j),
                decreases 9 - k,
            {
                let cell = house[k];
                let mask = board[cell];
                if !is_value_set(mask) {
                    let once_mask = mask & exactly_once;
                    if once_mask & ALL_VALUES != 0 {
                        if value_count(once_mask) > 1 {
                            proof {
                                assert(house_cell(h as int, k as int) == cell as int);
                                if sound_board(b0) {
                                    lemma_second_value(once_mask);
                                    lemma_no_cands(once_mask);
                                    let v1 = first_value(once_mask);
                                    let w = choose|w: u32|
                                        1 <= w <= 9 && w != v1 && #[trigger] has_value(once_mask, w);
                                    lemma_has_ops(mask, exactly_once, v1);
                                    lemma_has_ops(mask, exactly_once, w);
                                    assert forall|s: Seq<u32>| !#[trigger] is_solution(s, b0) by {
                                        if is_solution(s, b0) {
                                            lemma_hidden_forced(s, b0, h as int, k as int, v1);
                                            lemma_hidden_forced(s, b0, h as int, k as int, w);
                                        }
                                    }
                                }
                            }
                            return LogicResult::INVALID;
                        }
                        let value = get_value(once_mask);
                        proof {
                            lemma_no_cands(once_mask);
                            lemma_has_ops(mask, exactly_once, value);
                            assert(house_cell(h as int, k as int) == cell as int);
                            assert(hidden_move(b0, cell as int, value));
                            assert(holds_candidate(b0, h as int, value, k as int));
                            lemma_assign_progress(b0, cell as int, value);
                            if sound_board(b0) {
                                assert forall|s: Seq<u32>| #[trigger] is_solution(s, b0) implies assign_ok(
                                    b0,
                                    cell as int,
                                    value,
                                ) && is_solution(s, eliminated(b0, cell as int, value)) by {
                                    lemma_hidden_forced(s, b0, h as int, k as int, value);
                                    lemma_forced_keeps(s, b0, cell as int, value);
                                }
                            }
                        }
                        if !set_value(board, cell, value) {
                            return LogicResult::INVALID;
                        }
                        return LogicResult::CHANGED;
                    }
                    proof {
                        lemma_has_ops(mask & exactly_once, ALL_VALUES, vstar);
                        lemma_has_ops(mask, exactly_once, vstar);
                        assert(0u32 & bit(vstar) == 0) by (bit_vector);
                        assert forall|v: u32| 1 <= v <= 9 && #[trigger] has_value(mask, v) implies house_count(
                            b0,
                            h as int,
                            v,
                            9,
                        ) != 1 by {
                            lemma_has_ops(mask & exactly_once, ALL_VALUES, v);
                            lemma_has_ops(mask, exactly_once, v);
                            assert(0u32 & bit(v) == 0) by (bit_vector);
                        }
                    }
                }
                assert(house_cell(h as int, k as int) == cell as int);
                assert(!holds_candidate(b0, h as int, vstar, k as int));
                assert(!once_at(b0, h as int, k as int));
                k = k + 1;
            }
            proof {
                lemma_house_count_exists(b0, h as int, vstar, 9);
            }
        }
        h = h + 1;
    }
    LogicResult::NONE
}

/// Value `v` is forced in cell `c`: it is the only candidate of the uncommitted
/// cell, or the cell is the only place for it in some house.
pub open spec fn forced_move(b: Seq<u32>, c: int, v: u32) -> bool {
    &&& 0 <= c < 81
    &&& 1 <= v <= 9
    &&& !assigned(b[c])
    &&& has_value(b[c], v)
    &&& (count_values(b[c]) == 1 || hidden_move(b, c, v))
}

proof fn lemma_solved_no_naked(b: Seq<u32>)
    requires
        b.len() == 81,
        all_assigned(b),
        valid(b),
    ensures
        naked_target(b) == 81,
{
    lemma_naked_from(b, 0);
    if naked_target(b) < 81 {
        assert(naked_stop(b[naked_target(b)]));
    }
}

/// One deduction step: a naked single, else a hidden single.
pub fn set_single(board: &mut Board) -> (r: LogicResult)
    ensures
        r == LogicResult::NONE ==> final(board)@ == old(board)@,
        r == LogicResult::NONE <==> naked_target(old(board)@) == 81 && no_hidden(old(board)@),
        naked_target(old(board)@) < 81 && no_cands(old(board)@[naked_target(old(board)@)]) ==> r
            == LogicResult::INVALID && final(board)@ == old(board)@,
        naked_target(old(board)@) < 81 && !no_cands(old(board)@[naked_target(old(board)@)]) ==> r
            == if assign_ok(
            old(board)@,
            naked_target(old(board)@),
            first_value(old(board)@[naked_target(old(board)@)]),
        ) {
            LogicResult::CHANGED
        } else {
            LogicResult::INVALID
        },
        naked_target(old(board)@) < 81 && r == LogicResult::CHANGED ==> final(board)@ == eliminated(
            old(board)@,
            naked_target(old(board)@),
            first_value(old(board)@[naked_target(old(board)@)]),
        ),
        naked_target(old(board)@) == 81 && r == LogicResult::CHANGED ==> exists|c: int, v: u32|
            #[trigger] hidden_move(old(board)@, c, v) && assign_ok(old(board)@, c, v)
                && final(board)@ == eliminated(old(board)@, c, v),
        r == LogicResult::CHANGED ==> progress(old(board)@, final(board)@) && refines(
            final(board)@,
            old(board)@,
        ),
        r == LogicResult::CHANGED && sound_board(old(board)@) ==> sound_board(final(board)@),
        sound_board(old(board)@) && r == LogicResult::INVALID ==> no_solution(old(board)@),
        sound_board(old(board)@) && r == LogicResult::CHANGED ==> keeps_solutions(
            old(board)@,
            final(board)@,
        ),
        r == LogicResult::CHANGED ==> exists|c: int, v: u32|
            #[trigger] forced_move(old(board)@, c, v) && assign_ok(old(board)@, c, v)
                && final(board)@ == eliminated(old(board)@, c, v),
        all_assigned(old(board)@) && valid(old(board)@) ==> r == LogicResult::NONE,
{
    let ghost b0 = board@;
    proof {
        lemma_naked_from(b0, 0);
        if all_assigned(b0) && valid(b0) {
            lemma_solved_no_naked(b0);
        }
    }
    let naked_result = set_naked_single(board);
    if naked_result != LogicResult::NONE {
        proof {
            if naked_result == LogicResult::CHANGED {
                let c = naked_target(b0);
                lemma_naked_from(b0, 0);
                lemma_count_one(b0[c]);
                assert(forced_move(b0, c, first_value(b0[c])));
                lemma_eliminated_refines(b0, c, first_value(b0[c]));
                if sound_board(b0) {
                    lemma_eliminated_sound(b0, c, first_value(b0[c]));
                }
            }
        }
        return naked_result;
    }
    assert(naked_target(b0) == 81);
    assert(board@ == b0);
    let r = set_hidden_single(board);
    proof {
        if r == LogicResult::CHANGED {
            let (c, v) = choose|c: int, v: u32|
                #[trigger] hidden_move(b0, c, v) && assign_ok(b0, c, v) && board@ == eliminated(
                    b0,
                    c,
                    v,
                );
            assert(forced_move(b0, c, v));
            lemma_eliminated_refines(b0, c, v);
            if sound_board(b0) {
                lemma_eliminated_sound(b0, c, v);
            }
        }
    }
    r
}

proof fn lemma_clear_has(b: Seq<u32>, h: int, v: u32, k: int)
    requires
        1 <= v <= 9,
        0 <= k <= 9,
        house_count(b, h, v, k) >= 1 || committed_count(b, h, v, k) >= 1,
    ensures
        has_value(house_union_upto(b, h, k), v),
    decreases k,
{
    if k > 0 {
        lemma_has_ops(house_union_upto(b, h, k - 1), b[house_cell(h, k - 1)], v);
        if house_count(b, h, v, k - 1) >= 1 || committed_count(b, h, v, k - 1) >= 1 {
            lemma_clear_has(b, h, v, k - 1);
        }
    }
}

/// A board where no deduction applies is valid: no cell is empty and every
/// house admits every value.
pub proof fn lemma_fixpoint_valid(b: Seq<u32>)
    requires
        b.len() == 81,
        naked_target(b) == 81,
        no_hidden(b),
    ensures
        valid(b),
{
    lemma_naked_from(b, 0);
    assert forall|i: int| 0 <= i < 81 implies !no_cands(#[trigger] b[i]) by {
        assert(!naked_stop(b[i]));
    }
    assert forall|h: int| 0 <= h < 27 implies #[trigger] house_covered(b, h) by {
        assert(house_clear(b, h));
        let u = house_union_upto(b, h, 9);
        assert forall|v: u32| 1 <= v <= 9 implies #[trigger] has_value(u, v) by {
            assert(house_count(b, h, v, 9) >= 1 || committed_count(b, h, v, 9) >= 1);
            lemma_clear_has(b, h, v, 9);
        }
        lemma_all_values(u);
    }
}

/// Applies deduction steps until none is forced (NONE) or a contradiction
/// shows (INVALID). Also returns the number of forced assignments made, which
/// never exceeds the number of uncommitted cells.
pub fn propagate(board: &mut Board) -> (r: (LogicResult, usize))
    ensures
        r.0 != LogicResult::CHANGED,
        num_assigned(old(board)@) + r.1 <= 81,
        r.0 == LogicResult::NONE ==> num_assigned(final(board)@) == num_assigned(old(board)@) + r.1
            && weight(final(board)@) <= weight(old(board)@) && naked_target(final(board)@) == 81
            && no_hidden(final(board)@),
        r.0 == LogicResult::NONE ==> valid(final(board)@) && refines(final(board)@, old(board)@),
        sound_board(old(board)@) && r.0 == LogicResult::INVALID ==> no_solution(old(board)@),
        sound_board(old(board)@) && r.0 == LogicResult::NONE ==> keeps_solutions(
            old(board)@,
            final(board)@,
        ) && sound_board(final(board)@),
        r.1 == 0 && r.0 == LogicResult::NONE ==> final(board)@ == old(board)@,
        all_assigned(old(board)@) && valid(old(board)@) ==> r.0 == LogicResult::NONE && r.1 == 0,
{
    let ghost b0 = board@;
    proof {
        lemma_num_assigned_le(board@);
    }
    proof {
        lemma_refines_refl(b0);
    }
    let mut steps: usize = 0;
    loop
        invariant
            b0 == old(board)@,
            num_assigned(b0) + steps == num_assigned(board@),
            num_assigned(board@) <= 81,
            weight(board@) <= weight(b0),
            steps == 0 ==> board@ == b0,
            all_assigned(b0) && valid(b0) ==> steps == 0,
            refines(board@, b0),
            sound_board(b0) ==> sound_board(board@) && keeps_solutions(b0, board@),
        decreases weight(board@),
    {
        let ghost before = board@;
        let result = set_single(board);
        if result != LogicResult::CHANGED {
            proof {
                if result == LogicResult::NONE {
                    lemma_fixpoint_valid(board@);
                }
                if sound_board(b0) && result == LogicResult::INVALID {
                    assert forall|s: Seq<u32>| !#[trigger] is_solution(s, b0) by {
                        if is_solution(s, b0) {
                            assert(is_solution(s, before));
                        }
                    }
                }
            }
            return (result, steps);
        }
        proof {
            lemma_num_assigned_le(board@);
            lemma_refines_trans(board@, before, b0);
            if sound_board(b0) {
                assert forall|s: Seq<u32>| #[trigger] is_solution(s, b0) implies is_solution(
                    s,
                    board@,
                ) by {
                    assert(is_solution(s, before));
                }
            }
        }
        steps = steps + 1;
    }
}

} // verus!
