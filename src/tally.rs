use vstd::prelude::*;
use crate::board::{Board, all_assigned, eliminated, refines, without};
use crate::consistent::sound_board;
use crate::solutions::{
    is_solution, keeps_solutions, lemma_full_same, lemma_solution_up, lemma_split_disjoint,
    no_solution, same_values,
};

verus! {

/// Every solution of `board` matches a found board or solves a board on the stack.
pub open spec fn all_accounted(board: Seq<u32>, found: Seq<Seq<u32>>, stack: Seq<Board>) -> bool {
    forall|s: Seq<u32>|
        #[trigger] is_solution(s, board) ==> (exists|k: int|
            0 <= k < found.len() && same_values(s, #[trigger] found[k])) || (exists|i: int|
            0 <= i < stack.len() && #[trigger] is_solution(s, stack[i]@))
}

/// No solution of a board on the stack matches a found board.
pub open spec fn apart_from_found(found: Seq<Seq<u32>>, stack: Seq<Board>) -> bool {
    forall|s: Seq<u32>, i: int, k: int|
        0 <= i < stack.len() && 0 <= k < found.len() && #[trigger] is_solution(s, stack[i]@)
            ==> !same_values(s, #[trigger] found[k])
}

/// Solutions of two different boards on the stack never match.
pub open spec fn stack_apart(stack: Seq<Board>) -> bool {
    forall|s: Seq<u32>, t: Seq<u32>, i: int, j: int|
        0 <= i < stack.len() && 0 <= j < stack.len() && i != j && #[trigger] is_solution(
            s,
            stack[i]@,
        ) && #[trigger] is_solution(t, stack[j]@) ==> !same_values(s, t)
}

/// What the counting search keeps true of the boards found and the boards to explore.
pub open spec fn tally_inv(board: Seq<u32>, found: Seq<Seq<u32>>, stack: Seq<Board>) -> bool {
    all_accounted(board, found, stack) && apart_from_found(found, stack) && stack_apart(stack)
}

proof fn lemma_same_values_sym(s: Seq<u32>, t: Seq<u32>)
    ensures
        same_values(s, t) == same_values(t, s),
{
    if same_values(s, t) {
        assert forall|i: int| 0 <= i < 81 implies #[trigger] crate::mask::first_value(t[i])
            == crate::mask::first_value(s[i]) by {
            assert(crate::mask::first_value(s[i]) == crate::mask::first_value(t[i]));
        }
    }
    if same_values(t, s) {
        assert forall|i: int| 0 <= i < 81 implies #[trigger] crate::mask::first_value(s[i])
            == crate::mask::first_value(t[i]) by {
            assert(crate::mask::first_value(t[i]) == crate::mask::first_value(s[i]));
        }
    }
}

/// Dropping a popped board without solutions keeps the invariant.
pub proof fn lemma_tally_drop(board: Seq<u32>, found: Seq<Seq<u32>>, rest: Seq<Board>, p: Board)
    requires
        tally_inv(board, found, rest.push(p)),
        no_solution(p@),
    ensures
        tally_inv(board, found, rest),
{
    let s0 = rest.push(p);
    assert forall|s: Seq<u32>| #[trigger] is_solution(s, board) implies (exists|k: int|
        0 <= k < found.len() && same_values(s, #[trigger] found[k])) || (exists|i: int|
        0 <= i < rest.len() && #[trigger] is_solution(s, rest[i]@)) by {
        if !(exists|k: int| 0 <= k < found.len() && same_values(s, #[trigger] found[k])) {
            let i = choose|i: int| 0 <= i < s0.len() && #[trigger] is_solution(s, s0[i]@);
            assert(s0[i] == rest[i]);
        }
    }
    assert forall|s: Seq<u32>, i: int, k: int|
        0 <= i < rest.len() && 0 <= k < found.len() && #[trigger] is_solution(s, rest[i]@) implies !same_values(
        s,
        #[trigger] found[k],
    ) by {
        assert(s0[i] == rest[i]);
    }
    assert forall|s: Seq<u32>, t: Seq<u32>, i: int, j: int|
        0 <= i < rest.len() && 0 <= j < rest.len() && i != j && #[trigger] is_solution(s, rest[i]@)
            && #[trigger] is_solution(t, rest[j]@) implies !same_values(s, t) by {
        assert(s0[i] == rest[i] && s0[j] == rest[j]);
    }
}

/// Recording a filled board reached from the popped board keeps the invariant.
pub proof fn lemma_tally_found(
    board: Seq<u32>,
    found: Seq<Seq<u32>>,
    rest: Seq<Board>,
    p: Board,
    cur: Seq<u32>,
)
    requires
        tally_inv(board, found, rest.push(p)),
        keeps_solutions(p@, cur),
        refines(cur, p@),
        sound_board(cur),
        all_assigned(cur),
    ensures
        tally_inv(board, found.push(cur), rest),
        forall|k: int| 0 <= k < found.len() ==> !same_values(#[trigger] found[k], cur),
{
    let s0 = rest.push(p);
    let f2 = found.push(cur);
    let last = rest.len() as int;
    assert(s0[last] == p);
    crate::board::lemma_refines_refl(cur);
    assert(is_solution(cur, cur));
    lemma_solution_up(cur, cur, p@);
    assert forall|k: int| 0 <= k < found.len() implies !same_values(#[trigger] found[k], cur) by {
        assert(is_solution(cur, s0[last]@));
        lemma_same_values_sym(found[k], cur);
    }
    assert forall|s: Seq<u32>| #[trigger] is_solution(s, board) implies (exists|k: int|
        0 <= k < f2.len() && same_values(s, #[trigger] f2[k])) || (exists|i: int|
        0 <= i < rest.len() && #[trigger] is_solution(s, rest[i]@)) by {
        if exists|k: int| 0 <= k < found.len() && same_values(s, #[trigger] found[k]) {
            let k = choose|k: int| 0 <= k < found.len() && same_values(s, #[trigger] found[k]);
            assert(f2[k] == found[k]);
        } else {
            let i = choose|i: int| 0 <= i < s0.len() && #[trigger] is_solution(s, s0[i]@);
            if i < last {
                assert(s0[i] == rest[i]);
            } else {
                assert(is_solution(s, cur));
                lemma_full_same(s, cur);
                assert(f2[found.len() as int] == cur);
            }
        }
    }
    assert forall|s: Seq<u32>, i: int, k: int|
        0 <= i < rest.len() && 0 <= k < f2.len() && #[trigger] is_solution(s, rest[i]@) implies !same_values(
        s,
        #[trigger] f2[k],
    ) by {
        assert(s0[i] == rest[i]);
        if k < found.len() {
            assert(f2[k] == found[k]);
        } else {
            assert(f2[k] == cur);
            assert(is_solution(cur, s0[last]@));
        }
    }
    assert forall|s: Seq<u32>, t: Seq<u32>, i: int, j: int|
        0 <= i < rest.len() && 0 <= j < rest.len() && i != j && #[trigger] is_solution(s, rest[i]@)
            && #[trigger] is_solution(t, rest[j]@) implies !same_values(s, t) by {
        assert(s0[i] == rest[i] && s0[j] == rest[j]);
    }
}

/// Replacing the popped board by its two branches on a candidate keeps the
/// invariant: `bt` is the board without the candidate, `cm` the board with it
/// committed, each pushed where it may hold a solution.
pub proof fn lemma_tally_branch(
    board: Seq<u32>,
    found: Seq<Seq<u32>>,
    rest: Seq<Board>,
    p: Board,
    b: Seq<u32>,
    c: int,
    v: u32,
    bt: Board,
    cm: Board,
    bt_in: bool,
    cm_in: bool,
    new: Seq<Board>,
)
    requires
        tally_inv(board, found, rest.push(p)),
        b.len() == 81,
        0 <= c < 81,
        1 <= v <= 9,
        keeps_solutions(p@, b),
        refines(b, p@),
        bt@ == b.update(c, without(b[c], v)),
        cm_in ==> cm@ == eliminated(b, c, v),
        refines(bt@, b),
        cm_in ==> refines(cm@, b),
        forall|s: Seq<u32>|
            #[trigger] is_solution(s, b) ==> (is_solution(s, bt@) ==> bt_in) && (is_solution(
                s,
                eliminated(b, c, v),
            ) ==> cm_in) && (is_solution(s, bt@) || is_solution(s, eliminated(b, c, v))),
        new.len() == rest.len() + (if bt_in {
            1int
        } else {
            0int
        }) + (if cm_in {
            1int
        } else {
            0int
        }),
        forall|i: int| 0 <= i < rest.len() ==> #[trigger] new[i] == rest[i],
        bt_in ==> new[rest.len() as int] == bt,
        cm_in ==> new[new.len() - 1] == cm,
    ensures
        tally_inv(board, found, new),
{
    let s0 = rest.push(p);
    let last = rest.len() as int;
    assert(s0[last] == p);
    assert forall|j: int, s: Seq<u32>|
        last <= j < new.len() && #[trigger] is_solution(s, new[j]@) implies is_solution(s, p@) by {
        if bt_in && j == last {
            lemma_solution_up(s, bt@, b);
        } else {
            assert(cm_in && new[j] == cm);
            lemma_solution_up(s, cm@, b);
        }
        lemma_solution_up(s, b, p@);
    }
    assert forall|s: Seq<u32>| #[trigger] is_solution(s, board) implies (exists|k: int|
        0 <= k < found.len() && same_values(s, #[trigger] found[k])) || (exists|i: int|
        0 <= i < new.len() && #[trigger] is_solution(s, new[i]@)) by {
        if !(exists|k: int| 0 <= k < found.len() && same_values(s, #[trigger] found[k])) {
            let i = choose|i: int| 0 <= i < s0.len() && #[trigger] is_solution(s, s0[i]@);
            if i < last {
                assert(new[i] == rest[i]);
            } else {
                assert(is_solution(s, b));
                if is_solution(s, bt@) {
                    assert(is_solution(s, new[last]@));
                } else {
                    assert(is_solution(s, new[new.len() - 1]@));
                }
            }
        }
    }
    assert forall|s: Seq<u32>, i: int, k: int|
        0 <= i < new.len() && 0 <= k < found.len() && #[trigger] is_solution(s, new[i]@) implies !same_values(
        s,
        #[trigger] found[k],
    ) by {
        if i < last {
            assert(new[i] == rest[i]);
            assert(s0[i] == rest[i]);
        } else {
            assert(is_solution(s, s0[last]@));
        }
    }
    assert forall|s: Seq<u32>, t: Seq<u32>, i: int, j: int|
        0 <= i < new.len() && 0 <= j < new.len() && i != j && #[trigger] is_solution(s, new[i]@)
            && #[trigger] is_solution(t, new[j]@) implies !same_values(s, t) by {
        if i < last && j < last {
            assert(new[i] == s0[i] && new[j] == s0[j]);
        } else if i < last {
            assert(new[i] == s0[i]);
            assert(is_solution(t, s0[last]@));
        } else if j < last {
            assert(new[j] == s0[j]);
            assert(is_solution(s, s0[last]@));
            lemma_same_values_sym(s, t);
        } else {
            if bt_in && i == last {
                assert(cm_in && new[j] == cm);
                lemma_split_disjoint(s, t, b, c, v);
            } else {
                assert(cm_in && new[i] == cm);
                assert(bt_in && j == last);
                lemma_split_disjoint(t, s, b, c, v);
                lemma_same_values_sym(s, t);
            }
        }
    }
}

} // verus!
