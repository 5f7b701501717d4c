use vstd::prelude::*;
use crate::mask::{
    ALL_VALUES, MAX_VALUE, assigned, count_values, first_value, get_value, is_value_set,
    lemma_no_cands, value_count, value_mask,
};
use crate::board::{
    Board, NUM_CELLS, all_assigned, check_valid, eliminated, lemma_assign_progress,
    lemma_eliminated_refines, lemma_refines_refl, lemma_refines_trans, lemma_remove_progress,
    lemma_without_refines, refines, set_value, valid, weight, without,
};
use crate::deduce::{LogicResult, lemma_naked_from, naked_stop, propagate};
use crate::consistent::{lemma_eliminated_sound, lemma_without_sound, sound_board};
use crate::solutions::{
    covers_solutions, distinct_solutions, is_solution, lemma_forced_keeps, lemma_solution_cell,
    lemma_solution_valid, lemma_without_keeps, no_solution, same_values,
};
use crate::consistent::{lemma_bit_only, lemma_without_has};
use crate::tally::{lemma_tally_branch, lemma_tally_drop, lemma_tally_found, tally_inv};

verus! {

/// Two to the power `n`.
pub open spec fn exp2(n: nat) -> nat
    decreases n,
{
    if n == 0 {
        1
    } else {
        2 * exp2((n - 1) as nat)
    }
}

/// Work left on a stack of boards: the sum of `exp2` of their weights. Replacing
/// a board by two whose weights are lower by one and by two lowers it.
pub open spec fn stack_measure(s: Seq<Board>) -> nat
    decreases s.len(),
{
    if s.len() == 0 {
        0
    } else {
        stack_measure(s.drop_last()) + exp2(weight(s.last()@))
    }
}

/// A board that is completely and consistently filled in.
pub open spec fn solved(b: Seq<u32>) -> bool {
    b.len() == 81 && all_assigned(b) && valid(b)
}

proof fn lemma_exp2_mono(a: nat, b: nat)
    requires
        a <= b,
    ensures
        exp2(a) <= exp2(b),
        1 <= exp2(a),
    decreases b,
{
    if a < b {
        lemma_exp2_mono(a, (b - 1) as nat);
    } else if a > 0 {
        lemma_exp2_mono((a - 1) as nat, (a - 1) as nat);
    }
}

proof fn lemma_stack_push(s: Seq<Board>, b: Board)
    ensures
        stack_measure(s.push(b)) == stack_measure(s) + exp2(weight(b@)),
{
    assert(s.push(b).drop_last() =~= s);
}

/// The uncommitted cell to branch on: the first one with exactly two
/// candidates if there is one, else the first with the fewest candidates; 81
/// when every cell is committed.
pub fn best_cell(board: &Board) -> (r: usize)
    ensures
        r <= 81,
        r == 81 <==> all_assigned(board@),
        r < 81 ==> !assigned(board@[r as int]),
        r < 81 && count_values(board@[r as int]) == 2 ==> forall|j: int|
            0 <= j < r && !assigned(#[trigger] board@[j]) ==> count_values(board@[j]) != 2,
        r < 81 && count_values(board@[r as int]) != 2 ==> forall|j: int|
            0 <= j < 81 && !assigned(#[trigger] board@[j]) ==> count_values(board@[j]) != 2
                && count_values(board@[r as int]) <= count_values(board@[j]) && (j < r
                ==> count_values(board@[r as int]) < count_values(board@[j])),
{
    let mut best: usize = NUM_CELLS;
    let mut best_count: u32 = MAX_VALUE + 1;
    let mut cell: usize = 0;
    while cell < NUM_CELLS
        invariant
            cell <= 81,
            best == 81 || best < cell,
            best == 81 ==> best_count == 10,
            best < 81 ==> !assigned(board@[best as int]) && best_count as nat == count_values(
                board@[best as int],
            ) && best_count != 2,
            best == 81 <==> forall|j: int| 0 <= j < cell ==> assigned(#[trigger] board@[j]),
            forall|j: int|
                0 <= j < cell && !assigned(#[trigger] board@[j]) ==> count_values(board@[j]) != 2
                    && best_count as nat <= count_values(board@[j]) && (j < best ==> (best_count
                    as nat) < count_values(board@[j])),
        decreases 81 - cell,
    {
        let mask = board[cell];
        if !is_value_set(mask) {
            let count = value_count(mask);
            if count == 2 {
                return cell;
            }
            if count < best_count {
                best = cell;
                best_count = count;
            }
        }
        cell = cell + 1;
    }
    best
}

/// Counts the completions of `board`, stopping once `max_solutions` are found.
/// The search is depth-first over an explicit stack of boards: each popped
/// board is propagated, then split on the branching cell's smallest candidate
/// into the board without that candidate and the board with it committed, the
/// latter explored first. On a well-formed, consistent board the result is the
/// number of its solutions (boards that differ in some cell's value), capped at
/// `max_solutions`.
pub fn count_solutions(board: &Board, max_solutions: usize) -> (r: usize)
    ensures
        r <= max_solutions,
        solved(board@) && max_solutions >= 1 ==> r == 1,
        r >= 1 ==> exists|s: Seq<u32>| #[trigger] solved(s) && refines(s, board@),
        sound_board(board@) ==> exists|f: Seq<Seq<u32>>|
            f.len() == r && #[trigger] distinct_solutions(f, board@) && (r < max_solutions
                ==> covers_solutions(f, board@)),
        sound_board(board@) && max_solutions >= 1 && r == 0 ==> no_solution(board@),
        sound_board(board@) && r >= 1 ==> !no_solution(board@),
{
    let mut board_stack: Vec<Board> = Vec::new();
    board_stack.push(*board);
    let ghost mut found: Seq<Seq<u32>> = Seq::empty();
    proof {
        lemma_refines_refl(board@);
        assert forall|s: Seq<u32>| #[trigger] is_solution(s, board@) implies (exists|k: int|
            0 <= k < found.len() && same_values(s, #[trigger] found[k])) || (exists|i: int|
            0 <= i < board_stack@.len() && #[trigger] is_solution(s, board_stack@[i]@)) by {
            assert(is_solution(s, board_stack@[0]@));
        }
    }
    let mut solutions: usize = 0;
    while solutions < max_solutions && board_stack.len() > 0
        invariant
            solutions <= max_solutions,
            solved(board@) ==> (solutions == 0 && board_stack@ == seq![*board]) || (solutions == 1
                && board_stack@.len() == 0),
            forall|i: int|
                0 <= i < board_stack@.len() ==> refines(#[trigger] board_stack@[i]@, board@) && (
                sound_board(board@) ==> sound_board(board_stack@[i]@)),
            solutions >= 1 ==> exists|s: Seq<u32>| #[trigger] solved(s) && refines(s, board@),
            sound_board(board@) ==> found.len() == solutions && distinct_solutions(found, board@)
                && tally_inv(board@, found, board_stack@),
        decreases stack_measure(board_stack@),
    {
        let ghost s0 = board_stack@;
        let mut current = board_stack.pop().unwrap();
        let ghost popped = current;
        let ghost rest = board_stack@;
        proof {
            assert(s0 == rest.push(popped));
            lemma_stack_push(rest, popped);
            lemma_exp2_mono(weight(current@), weight(current@));
            assert(s0[s0.len() - 1] == popped);
            assert(refines(popped@, board@));
            assert(sound_board(board@) ==> sound_board(popped@));
            assert(forall|i: int| 0 <= i < rest.len() ==> rest[i] == s0[i]);
        }
        let (result, _steps) = propagate(&mut current);
        if result == LogicResult::INVALID {
            proof {
                if sound_board(board@) {
                    lemma_tally_drop(board@, found, rest, popped);
                }
            }
            continue;
        }
        proof {
            lemma_exp2_mono(weight(current@), weight(popped@));
            lemma_refines_trans(current@, popped@, board@);
        }
        let cell = best_cell(&current);
        if cell == NUM_CELLS {
            proof {
                assert(solved(current@));
                if sound_board(board@) {
                    lemma_tally_found(board@, found, rest, popped, current@);
                    let f2 = found.push(current@);
                    assert(is_solution(current@, board@));
                    assert forall|k: int| 0 <= k < f2.len() implies is_solution(#[trigger] f2[k], board@) by {
                        if k < found.len() {
                            assert(f2[k] == found[k]);
                        }
                    }
                    assert forall|k1: int, k2: int| 0 <= k1 < k2 < f2.len() implies !same_values(
                        #[trigger] f2[k1],
                        #[trigger] f2[k2],
                    ) by {
                        assert(f2[k1] == found[k1]);
                        if k2 < found.len() {
                            assert(f2[k2] == found[k2]);
                        } else {
                            assert(f2[k2] == current@);
                        }
                    }
                    found = f2;
                }
            }
            solutions = solutions + 1;
        } else {
            let ghost b = current@;
            proof {
                lemma_naked_from(b, 0);
                assert(!naked_stop(b[cell as int]));
                lemma_no_cands(b[cell as int]);
            }
            let value = get_value(current[cell]);
            let vmask = value_mask(value);
            let mut backtrack_board: Board = current;
            backtrack_board[cell] = backtrack_board[cell] & !vmask;
            proof {
                assert(backtrack_board@ =~= b.update(cell as int, without(b[cell as int], value)));
                lemma_remove_progress(b, cell as int, value);
                lemma_assign_progress(b, cell as int, value);
                lemma_without_refines(b, cell as int, value);
                lemma_refines_trans(backtrack_board@, b, board@);
                lemma_eliminated_refines(b, cell as int, value);
                lemma_refines_trans(eliminated(b, cell as int, value), b, board@);
                if sound_board(board@) {
                    lemma_without_sound(b, cell as int, value);
                }
            }
            let keep_backtrack = backtrack_board[cell] & ALL_VALUES != 0;
            if keep_backtrack {
                board_stack.push(backtrack_board);
                proof {
                    lemma_stack_push(rest, backtrack_board);
                    assert(forall|i: int| 0 <= i < rest.len() ==> board_stack@[i] == rest[i]);
                }
            }
            let ghost mid = board_stack@;
            let committed = set_value(&mut current, cell, value) && check_valid(&current);
            if committed {
                board_stack.push(current);
                proof {
                    lemma_stack_push(mid, current);
                    assert(forall|i: int| 0 <= i < mid.len() ==> board_stack@[i] == mid[i]);
                    if sound_board(board@) {
                        lemma_eliminated_sound(b, cell as int, value);
                    }
                    lemma_exp2_mono(weight(current@), (weight(b) - 256) as nat);
                }
            }
            proof {
                let w = weight(b);
                assert(w >= 256);
                lemma_exp2_mono((w - 256) as nat, (w - 2) as nat);
                lemma_exp2_mono((w - 2) as nat, (w - 2) as nat);
                lemma_exp2_mono(weight(backtrack_board@), (w - 1) as nat);
                assert(exp2((w - 1) as nat) == 2 * exp2((w - 2) as nat));
                assert(exp2(w) == 2 * exp2((w - 1) as nat));
                if sound_board(board@) {
                    let e = eliminated(b, cell as int, value);
                    assert forall|s: Seq<u32>| #[trigger] is_solution(s, b) implies (is_solution(
                        s,
                        backtrack_board@,
                    ) ==> keep_backtrack) && (is_solution(s, e) ==> committed) && (is_solution(
                        s,
                        backtrack_board@,
                    ) || is_solution(s, e)) by {
                        lemma_solution_cell(s, b, cell as int);
                        if first_value(s[cell as int]) == value {
                            lemma_forced_keeps(s, b, cell as int, value);
                            lemma_solution_valid(s, e);
                            if is_solution(s, backtrack_board@) {
                                lemma_solution_cell(s, backtrack_board@, cell as int);
                                lemma_without_has(b[cell as int], value, value);
                            }
                        } else {
                            lemma_without_keeps(s, b, cell as int, value);
                            if is_solution(s, e) {
                                lemma_solution_cell(s, e, cell as int);
                                lemma_bit_only(value, first_value(s[cell as int]));
                            }
                        }
                    }
                    if keep_backtrack {
                        assert(board_stack@[rest.len() as int] == backtrack_board);
                    }
                    lemma_tally_branch(
                        board@,
                        found,
                        rest,
                        popped,
                        b,
                        cell as int,
                        value,
                        backtrack_board,
                        current,
                        keep_backtrack,
                        committed,
                        board_stack@,
                    );
                }
            }
        }
    }
    proof {
        if sound_board(board@) {
            if solutions >= 1 {
                assert(is_solution(found[0], board@));
            }
            if solutions < max_solutions {
                assert(board_stack@.len() == 0);
            }
        }
    }
    solutions
}

} // verus!
