use vstd::prelude::*;
use rand::Rng;
use rand::rngs::StdRng;
use crate::mask::{
    ALL_VALUES, MAX_VALUE, assigned, count_upto, count_values, first_value, has_value, no_cands,
    value_count,
    value_mask,
};
use crate::board::{
    Board, NUM_CELLS, all_assigned, assigned_upto, check_valid, eliminated, lemma_assign_progress,
    lemma_remove_progress, new_board, num_assigned, set_value, valid, without, assign_ok,
};
use crate::deduce::{
    LogicResult, hidden_move, lemma_naked_from, naked_stop, naked_target, no_hidden, set_single,
};
use crate::consistent::{
    lemma_blank_sound, lemma_eliminated_sound, lemma_full_sound_valid, lemma_without_sound,
    sound_board,
};

verus! {

#[verifier::external_type_specification]
#[verifier::external_body]
pub struct ExStdRng(StdRng);

/// Relies on rand's `Rng::gen_range` over `0..n`: a value drawn uniformly from
/// `[0, n)`. It panics on an empty range, which `n >= 1` rules out.
#[verifier::external_body]
fn random_index(rng: &mut StdRng, n: usize) -> (r: usize)
    requires
        n >= 1,
    ensures
        r < n,
{
    rng.gen_range(0..n)
}

/// A search frame: a board and the number of committed cells on it.
#[derive(Clone, Copy, Debug)]
pub struct BoardInfo {
    pub board: Board,
    pub given_count: usize,
}

impl BoardInfo {
    /// The frame a construction starts from: a fresh board with no givens.
    pub fn new_blank() -> (r: BoardInfo)
        ensures
            forall|i: int| 0 <= i < 81 ==> #[trigger] r.board@[i] == ALL_VALUES,
            r.given_count == 0,
    {
        let board = new_board();
        BoardInfo { board, given_count: 0 }
    }

    /// A frame holding `board` with `given_count` givens.
    pub fn new(board: Board, given_count: usize) -> (r: BoardInfo)
        ensures
            r == BoardInfo::new_spec(board, given_count),
            r.board == board,
            r.given_count == given_count,
    {
        BoardInfo { board, given_count }
    }

    /// The frame holding `board` with `given_count` givens.
    pub open spec fn new_spec(board: Board, given_count: usize) -> BoardInfo {
        BoardInfo { board, given_count }
    }

    /// The count of givens matches the board and stays within `limit`, and the
    /// board is well-formed and consistent.
    pub open spec fn consistent(&self, limit: usize) -> bool {
        &&& self.given_count as nat == num_assigned(self.board@)
        &&& self.given_count <= limit
        &&& sound_board(self.board@)
    }
}

/// The cells that are not committed and still have a candidate, in index order.
pub fn unset_cells(board: Board) -> (r: Vec<usize>)
    ensures
        forall|i: int, j: int| 0 <= i < j < r@.len() ==> r@[i] < r@[j],
        forall|i: int|
            0 <= i < r@.len() ==> #[trigger] r@[i] < 81 && !assigned(board@[r@[i] as int])
                && !no_cands(board@[r@[i] as int]),
        forall|c: int|
            0 <= c < 81 && !assigned(#[trigger] board@[c]) && !no_cands(board@[c]) ==> r@.contains(
                c as usize,
            ),
{
    let mut cells: Vec<usize> = Vec::new();
    let mut cell: usize = 0;
    while cell < NUM_CELLS
        invariant
            cell <= 81,
            forall|i: int, j: int| 0 <= i < j < cells@.len() ==> cells@[i] < cells@[j],
            forall|i: int|
                0 <= i < cells@.len() ==> #[trigger] cells@[i] < cell && !assigned(
                    board@[cells@[i] as int],
                ) && !no_cands(board@[cells@[i] as int]),
            forall|c: int|
                0 <= c < cell && !assigned(#[trigger] board@[c]) && !no_cands(board@[c])
                    ==> cells@.contains(c as usize),
        decreases 81 - cell,
    {
        let mask = board[cell];
        if mask & crate::mask::VALUE_SET == 0 && mask & ALL_VALUES != 0 {
            let ghost before = cells@;
            cells.push(cell);
            proof {
                assert forall|c: int|
                    0 <= c < cell + 1 && !assigned(#[trigger] board@[c]) && !no_cands(board@[c])
                        implies cells@.contains(c as usize) by {
                    if c < cell {
                        let k = choose|k: int| 0 <= k < before.len() && before[k] == c as usize;
                        assert(cells@[k] == c as usize);
                    } else {
                        assert(cells@[cells@.len() - 1] == c as usize);
                    }
                }
            }
        }
        cell = cell + 1;
    }
    cells
}

/// The candidate of `mask` that has `index` candidates below it.
pub fn nth_candidate(mask: u32, index: u32) -> (r: u32)
    requires
        (index as nat) < count_values(mask),
    ensures
        1 <= r <= 9,
        has_value(mask, r),
        count_upto(mask, (r - 1) as u32) == index as nat,
{
    let mut remaining: u32 = index;
    let mut v: u32 = 1;
    while v <= MAX_VALUE
        invariant
            1 <= v <= 10,
            remaining as nat + count_upto(mask, (v - 1) as u32) == index as nat,
            (index as nat) < count_values(mask),
        decreases 10 - v,
    {
        if mask & value_mask(v) != 0 {
            if remaining == 0 {
                return v;
            }
            remaining = remaining - 1;
        }
        v = v + 1;
    }
    proof {
        assert(count_upto(mask, 9) == count_values(mask));
    }
    0
}

/// Where a construction stands after a step.
#[derive(Debug)]
pub enum GenStatus {
    /// The search goes on.
    Working,
    /// A board with the requested number of givens.
    Done(Board),
    /// The search ran out of branches.
    Impossible,
}

/// Randomized construction of a board with a set number of givens: a
/// depth-first search over an explicit stack of frames, restarted from a
/// fresh board after too many failed commitments in a row.
pub struct Generator {
    stack: Vec<BoardInfo>,
    num_backtracks: usize,
    num_givens: usize,
}

/// Failed commitments in a row after which the construction starts over.
pub const MAX_BACKTRACKS: usize = 100;

/// Frame `f` holds board `b` with `g` givens.
pub open spec fn holds(f: BoardInfo, b: Seq<u32>, g: int) -> bool {
    f.board@ == b && f.given_count == g
}

/// A fresh frame: every cell has all candidates and there are no givens.
pub open spec fn blank_frame(f: BoardInfo) -> bool {
    f.given_count == 0 && forall|i: int| 0 <= i < 81 ==> #[trigger] f.board@[i] == ALL_VALUES
}

/// `f1` is `f0` with `n` frames added on top.
pub open spec fn extends(f0: Seq<BoardInfo>, f1: Seq<BoardInfo>, n: int) -> bool {
    f1.len() == f0.len() + n && forall|i: int| 0 <= i < f0.len() ==> #[trigger] f1[i] == f0[i]
}

/// The frames and backtrack count after splitting board `b` (with `g` givens)
/// on candidate `v` of cell `c`, from frames `f0` and backtrack count `k0`: the
/// board without the candidate is kept when the cell keeps a candidate and the
/// board is valid; the board with it committed is kept with one more given when
/// the assignment succeeds and the result is valid. Otherwise the commitment
/// counts as a backtrack, and one too many starts over from a fresh frame.
pub open spec fn branch_result(
    f0: Seq<BoardInfo>,
    k0: usize,
    b: Seq<u32>,
    g: int,
    c: int,
    v: u32,
    f1: Seq<BoardInfo>,
    k1: usize,
) -> bool {
    let bt = b.update(c, without(b[c], v));
    let keep = !no_cands(without(b[c], v)) && valid(bt);
    let e = eliminated(b, c, v);
    let ok = assign_ok(b, c, v) && valid(e);
    let n: int = if keep {
        1
    } else {
        0
    };
    if ok {
        &&& k1 == k0
        &&& extends(f0, f1, n + 1)
        &&& keep ==> holds(f1[f0.len() as int], bt, g)
        &&& holds(f1[f0.len() + n], e, g + 1)
    } else if k0 + 1 > MAX_BACKTRACKS {
        k1 == 0 && f1.len() == 1 && blank_frame(f1[0])
    } else {
        &&& k1 == k0 + 1
        &&& extends(f0, f1, n)
        &&& keep ==> holds(f1[f0.len() as int], bt, g)
    }
}

impl Generator {
    /// Every frame's count of givens matches its board and stays within the target.
    pub closed spec fn wf(&self) -> bool {
        &&& self.num_backtracks <= MAX_BACKTRACKS
        &&& self.num_givens <= 81
        &&& forall|i: int|
            0 <= i < self.stack@.len() ==> #[trigger] self.stack@[i].consistent(self.num_givens)
    }

    /// Number of givens the construction aims at.
    pub closed spec fn target(&self) -> usize {
        self.num_givens
    }

    /// The frames still to explore, the last one on top.
    pub closed spec fn frames(&self) -> Seq<BoardInfo> {
        self.stack@
    }

    /// Failed commitments since the last start or restart.
    pub closed spec fn backtracks(&self) -> usize {
        self.num_backtracks
    }

    /// A construction aiming at `num_givens` givens, from a fresh board.
    pub fn new(num_givens: usize) -> (r: Generator)
        requires
            num_givens <= 81,
        ensures
            r.wf(),
            r.target() == num_givens,
            r.frames().len() == 1,
            blank_frame(r.frames()[0]),
            r.backtracks() == 0,
    {
        let mut stack: Vec<BoardInfo> = Vec::new();
        let blank = BoardInfo::new_blank();
        proof {
            lemma_blank_none_assigned(blank.board@, 81);
            lemma_blank_sound(blank.board@);
        }
        stack.push(blank);
        Generator { stack, num_backtracks: 0, num_givens }
    }

    /// Splits `board`, with `given_count` givens, on candidate `value` of the
    /// uncommitted cell `cell`: keeps the board without the candidate for later
    /// and puts the board with it committed on top.
    pub fn branch(&mut self, board: Board, given_count: usize, cell: usize, value: u32)
        requires
            old(self).wf(),
            BoardInfo::new_spec(board, given_count).consistent(old(self).target()),
            given_count < old(self).target(),
            cell < 81,
            1 <= value <= 9,
            !assigned(board@[cell as int]),
            has_value(board@[cell as int], value),
        ensures
            final(self).wf(),
            final(self).target() == old(self).target(),
            branch_result(
                old(self).frames(),
                old(self).backtracks(),
                board@,
                given_count as int,
                cell as int,
                value,
                final(self).frames(),
                final(self).backtracks(),
            ),
    {
        let ghost f0 = self.stack@;
        let ghost b0 = board@;
        let mut board = board;
        let mut backtrack_board: Board = board;
        backtrack_board[cell] = backtrack_board[cell] & !value_mask(value);
        proof {
            assert(backtrack_board@ =~= b0.update(cell as int, without(b0[cell as int], value)));
            lemma_remove_progress(b0, cell as int, value);
            lemma_assign_progress(b0, cell as int, value);
            lemma_without_sound(b0, cell as int, value);
        }
        let keep = backtrack_board[cell] & ALL_VALUES != 0 && check_valid(&backtrack_board);
        if keep {
            self.stack.push(BoardInfo::new(backtrack_board, given_count));
        }
        let ghost f_mid = self.stack@;
        let ok = set_value(&mut board, cell, value) && check_valid(&board);
        if ok {
            self.stack.push(BoardInfo::new(board, given_count + 1));
            proof {
                assert(board@ == eliminated(b0, cell as int, value));
                lemma_eliminated_sound(b0, cell as int, value);
            }
        } else {
            proof {
                if assign_ok(b0, cell as int, value) {
                    assert(board@ == eliminated(b0, cell as int, value));
                }
            }
            self.num_backtracks = self.num_backtracks + 1;
            if self.num_backtracks > MAX_BACKTRACKS {
                self.stack.clear();
                let blank = BoardInfo::new_blank();
                proof {
                    lemma_blank_none_assigned(blank.board@, 81);
                    lemma_blank_sound(blank.board@);
                }
                self.stack.push(blank);
                self.num_backtracks = 0;
            }
        }
        proof {
            if keep {
                assert(f_mid[f0.len() as int] == BoardInfo::new_spec(backtrack_board, given_count));
            }
        }
    }

    /// One step of the search: pops a frame and makes one deduction on it, or,
    /// where none is forced, commits a random candidate of a random cell,
    /// keeping the board without that candidate for later.
    pub fn step(&mut self, rng: &mut StdRng) -> (r: GenStatus)
        requires
            old(self).wf(),
        ensures
            final(self).wf(),
            final(self).target() == old(self).target(),
            r is Done ==> num_assigned(r->Done_0@) == old(self).target(),
            r is Done ==> sound_board(r->Done_0@),
            r is Done && old(self).target() == 81 ==> all_assigned(r->Done_0@) && valid(
                r->Done_0@,
            ),
            (r is Impossible) <==> old(self).frames().len() == 0,
            old(self).frames().len() == 0 ==> final(self).frames() == old(self).frames()
                && final(self).backtracks() == old(self).backtracks(),
            old(self).frames().len() > 0 && old(self).frames().last().given_count == old(self).target()
                ==> r == GenStatus::Done(old(self).frames().last().board),
            old(self).frames().len() > 0 && old(self).frames().last().given_count == old(self).target()
                ==> final(self).frames() == old(self).frames().drop_last(),
            old(self).frames().len() > 0 && old(self).frames().last().given_count == old(self).target()
                ==> final(self).backtracks() == old(self).backtracks(),
            old(self).frames().len() > 0 && old(self).frames().last().given_count != old(self).target()
                ==> r is Working,
            old(self).frames().len() > 0 && old(self).frames().last().given_count != old(self).target()
                ==> step_result(
                old(self).frames(),
                old(self).backtracks(),
                final(self).frames(),
                final(self).backtracks(),
            ),
    {
        let len = self.stack.len();
        if len == 0 {
            return GenStatus::Impossible;
        }
        if self.stack[len - 1].given_count == self.num_givens {
            let frame = self.stack.pop().unwrap();
            proof {
                assert(frame.consistent(self.num_givens));
                assert(sound_board(frame.board@));
                lemma_full_is_all_assigned(frame.board@);
                if self.num_givens == 81 {
                    lemma_full_sound_valid(frame.board@);
                }
            }
            return GenStatus::Done(frame.board);
        }
        let ghost s0 = self.stack@;
        let frame = self.stack.pop().unwrap();
        proof {
            assert(s0[s0.len() - 1] == frame);
            assert(frame.consistent(self.num_givens));
            assert(sound_board(frame.board@));
            assert(forall|i: int| 0 <= i < self.stack@.len() ==> self.stack@[i] == s0[i]);
            assert(self.stack@ =~= s0.drop_last());
        }
        let mut board = frame.board;
        let given_count = frame.given_count;
        let ghost b0 = board@;
        match set_single(&mut board) {
            LogicResult::CHANGED => {
                self.stack.push(BoardInfo::new(board, given_count + 1));
                proof {
                    crate::board::lemma_num_assigned_le(board@);
                }
            },
            LogicResult::INVALID => {},
            LogicResult::NONE => {
                let unset = unset_cells(board);
                if unset.len() == 0 {
                    proof {
                        assert forall|c: int| 0 <= c < 81 implies assigned(#[trigger] b0[c]) by {
                            if !assigned(b0[c]) {
                                lemma_naked_from(b0, 0);
                                assert(!naked_stop(b0[c]));
                                assert(unset@.contains(c as usize));
                            }
                        }
                    }
                    return GenStatus::Working;
                }
                let cell = unset[random_index(rng, unset.len())];
                let mask = board[cell];
                let num_candidates = value_count(mask);
                proof {
                    crate::mask::lemma_no_cands(mask);
                }
                let candidate_index = random_index(rng, num_candidates as usize) as u32;
                let value = nth_candidate(mask, candidate_index);
                self.branch(board, given_count, cell, value);
            },
        }
        GenStatus::Working
    }
}

/// The frames and backtrack count after one working step from frames `f0`
/// (whose top frame is popped) and backtrack count `k0`.
pub open spec fn step_result(f0: Seq<BoardInfo>, k0: usize, f1: Seq<BoardInfo>, k1: usize) -> bool {
    let top = f0.last();
    let b = top.board@;
    let g = top.given_count as int;
    let rest = f0.drop_last();
    let t = naked_target(b);
    &&& t < 81 && !no_cands(b[t]) && assign_ok(b, t, first_value(b[t])) ==> k1 == k0 && extends(
        rest,
        f1,
        1,
    ) && holds(f1[rest.len() as int], eliminated(b, t, first_value(b[t])), g + 1)
    &&& t < 81 && !(!no_cands(b[t]) && assign_ok(b, t, first_value(b[t]))) ==> k1 == k0 && f1
        == rest
    &&& t == 81 && !no_hidden(b) ==> k1 == k0 && (f1 == rest || (extends(rest, f1, 1) && exists|
        c: int,
        v: u32,
    |
        #[trigger] hidden_move(b, c, v) && holds(f1[rest.len() as int], eliminated(b, c, v), g + 1)))
    &&& t == 81 && no_hidden(b) && all_assigned(b) ==> k1 == k0 && f1 == rest
    &&& t == 81 && no_hidden(b) && !all_assigned(b) ==> exists|c: int, v: u32|
        0 <= c < 81 && 1 <= v <= 9 && !assigned(b[c]) && has_value(b[c], v) && #[trigger] branch_result(
            rest,
            k0,
            b,
            g,
            c,
            v,
            f1,
            k1,
        )
}

proof fn lemma_blank_none_assigned(b: Seq<u32>, n: int)
    requires
        0 <= n <= 81,
        b.len() == 81,
        forall|i: int| 0 <= i < 81 ==> #[trigger] b[i] == ALL_VALUES,
    ensures
        assigned_upto(b, n) == 0,
    decreases n,
{
    if n > 0 {
        lemma_blank_none_assigned(b, n - 1);
        assert(ALL_VALUES & crate::mask::VALUE_SET == 0) by (bit_vector);
    }
}

proof fn lemma_assigned_upto_full(b: Seq<u32>, n: int)
    requires
        0 <= n <= 81,
        assigned_upto(b, n) == n,
    ensures
        forall|i: int| 0 <= i < n ==> assigned(#[trigger] b[i]),
    decreases n,
{
    if n > 0 {
        let m = n - 1;
        if !assigned(b[m]) {
            crate::board::lemma_assigned_upto_le(b, m);
        } else {
            lemma_assigned_upto_full(b, m);
        }
    }
}

/// A board with 81 committed cells has every cell committed.
pub proof fn lemma_full_is_all_assigned(b: Seq<u32>)
    ensures
        num_assigned(b) == 81 ==> all_assigned(b),
{
    if num_assigned(b) == 81 {
        lemma_assigned_upto_full(b, 81);
    }
}

} // verus!
