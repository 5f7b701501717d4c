use vstd::prelude::*;
use crate::mask::{
    ALL_VALUES, VALUE_SET, assigned, bit, first_value, get_value, has_value, lemma_no_cands,
    no_cands, value_mask, wf_mask,
};

verus! {

/// Number of cells of a board.
pub const NUM_CELLS: usize = 81;

/// Number of houses: nine rows, nine columns, nine boxes.
pub const NUM_HOUSES: usize = 27;

/// A board: 81 cell masks, row-major.
pub type Board = [u32; 81];

/// Cell at position `k` (0 to 8) of house `h` (0 to 26).
pub open spec fn house_cell(h: int, k: int) -> int {
    if h < 9 {
        h * 9 + k
    } else if h < 18 {
        k * 9 + (h - 9)
    } else {
        ((h - 18) / 3) * 27 + ((h - 18) % 3) * 3 + (k / 3) * 9 + k % 3
    }
}

/// Cells `a` and `b` share a row.
pub open spec fn same_row(a: int, b: int) -> bool {
    a / 9 == b / 9
}

/// Cells `a` and `b` share a column.
pub open spec fn same_col(a: int, b: int) -> bool {
    a % 9 == b % 9
}

/// Cells `a` and `b` share a box.
pub open spec fn same_box(a: int, b: int) -> bool {
    a / 27 == b / 27 && (a % 9) / 3 == (b % 9) / 3
}

/// Distinct cells that share a house.
pub open spec fn peer(a: int, b: int) -> bool {
    a != b && (same_row(a, b) || same_col(a, b) || same_box(a, b))
}

/// Mask `m` with value `v` no longer a candidate.
pub open spec fn without(m: u32, v: u32) -> u32 {
    m & !bit(v)
}

/// The board after committing `c` to `v` and removing `v` from every peer of `c`.
pub open spec fn eliminated(b: Seq<u32>, c: int, v: u32) -> Seq<u32> {
    Seq::new(
        81,
        |i: int|
            if i == c {
                bit(v) | VALUE_SET
            } else if peer(i, c) {
                without(b[i], v)
            } else {
                b[i]
            },
    )
}

/// Assigning `v` to `c` succeeds: `v` is a candidate of `c`, and either `c` is
/// already committed or no peer is left without candidates.
pub open spec fn assign_ok(b: Seq<u32>, c: int, v: u32) -> bool {
    has_value(b[c], v) && (assigned(b[c]) || forall|i: int|
        0 <= i < 81 && peer(i, c) ==> !no_cands(#[trigger] without(b[i], v)))
}

/// The board after a successful assignment of `v` to `c`.
pub open spec fn assign_result(b: Seq<u32>, c: int, v: u32) -> Seq<u32> {
    if assigned(b[c]) {
        b
    } else {
        eliminated(b, c, v)
    }
}

/// Union of the masks of the first `k` cells of house `h`.
pub open spec fn house_union_upto(b: Seq<u32>, h: int, k: int) -> u32
    decreases k,
{
    if k <= 0 {
        0
    } else {
        house_union_upto(b, h, k - 1) | b[house_cell(h, k - 1)]
    }
}

/// Every value is a candidate of some cell of house `h`.
pub open spec fn house_covered(b: Seq<u32>, h: int) -> bool {
    house_union_upto(b, h, 9) & ALL_VALUES == ALL_VALUES
}

/// No cell is without candidates and every house still admits all nine values.
pub open spec fn valid(b: Seq<u32>) -> bool {
    &&& forall|i: int| 0 <= i < 81 ==> !no_cands(#[trigger] b[i])
    &&& forall|h: int| 0 <= h < 27 ==> #[trigger] house_covered(b, h)
}

/// Every cell keeps the mask invariant.
pub open spec fn wf_board(b: Seq<u32>) -> bool {
    b.len() == 81 && forall|i: int| 0 <= i < 81 ==> wf_mask(#[trigger] b[i])
}

/// Every cell is committed.
pub open spec fn all_assigned(b: Seq<u32>) -> bool {
    forall|i: int| 0 <= i < 81 ==> assigned(#[trigger] b[i])
}

/// Number of committed cells among the first `n`.
pub open spec fn assigned_upto(b: Seq<u32>, n: int) -> nat
    decreases n,
{
    if n <= 0 {
        0
    } else {
        assigned_upto(b, n - 1) + if assigned(b[n - 1]) {
            1nat
        } else {
            0nat
        }
    }
}

/// Number of committed cells.
pub open spec fn num_assigned(b: Seq<u32>) -> nat {
    assigned_upto(b, 81)
}

/// Work left in a cell: its candidate bits, plus 512 while it is not committed.
pub open spec fn cell_weight(m: u32) -> nat {
    (m & ALL_VALUES) as nat + if assigned(m) {
        0nat
    } else {
        512nat
    }
}

/// Sum of the weights of the first `n` cells.
pub open spec fn weight_upto(b: Seq<u32>, n: int) -> nat
    decreases n,
{
    if n <= 0 {
        0
    } else {
        weight_upto(b, n - 1) + cell_weight(b[n - 1])
    }
}

/// Work left on a board; each deduction and each branch lowers it.
pub open spec fn weight(b: Seq<u32>) -> nat {
    weight_upto(b, 81)
}

/// At most `n` of the first `n` cells are committed.
pub proof fn lemma_num_assigned_le(b: Seq<u32>)
    ensures
        num_assigned(b) <= 81,
{
    lemma_assigned_upto_le(b, 81);
}

/// At most `n` of the first `n` cells are committed.
pub proof fn lemma_assigned_upto_le(b: Seq<u32>, n: int)
    requires
        n >= 0,
    ensures
        assigned_upto(b, n) <= n,
    decreases n,
{
    if n > 0 {
        lemma_assigned_upto_le(b, n - 1);
    }
}

pub proof fn lemma_house_cell(h: int, k: int)
    requires
        0 <= h < 27,
        0 <= k < 9,
    ensures
        0 <= house_cell(h, k) < 81,
{
}

/// Sums over a board: a cell-wise bound carries to the totals.
pub proof fn lemma_totals(b1: Seq<u32>, b2: Seq<u32>, c: int, n: int)
    requires
        0 <= n <= 81,
        b1.len() == 81,
        b2.len() == 81,
        forall|i: int|
            0 <= i < 81 && i != c ==> cell_weight(#[trigger] b2[i]) <= cell_weight(b1[i]),
        forall|i: int| 0 <= i < 81 && i != c ==> assigned(#[trigger] b2[i]) == assigned(b1[i]),
    ensures
        0 <= c < n ==> weight_upto(b2, n) + cell_weight(b1[c]) <= weight_upto(b1, n) + cell_weight(
            b2[c],
        ),
        !(0 <= c < n) ==> weight_upto(b2, n) <= weight_upto(b1, n),
        !(0 <= c < n) ==> assigned_upto(b2, n) == assigned_upto(b1, n),
        0 <= c < n && !assigned(b1[c]) && assigned(b2[c]) ==> assigned_upto(b2, n) == assigned_upto(
            b1,
            n,
        ) + 1,
    decreases n,
{
    if n > 0 {
        lemma_totals(b1, b2, c, n - 1);
    }
}

/// Assigning a value to an uncommitted cell commits one more cell and lowers
/// the weight by at least 256.
pub proof fn lemma_assign_progress(b: Seq<u32>, c: int, v: u32)
    requires
        b.len() == 81,
        0 <= c < 81,
        1 <= v <= 9,
        !assigned(b[c]),
        has_value(b[c], v),
    ensures
        num_assigned(eliminated(b, c, v)) == num_assigned(b) + 1,
        weight(eliminated(b, c, v)) + 256 <= weight(b),
{
    let e = eliminated(b, c, v);
    assert forall|i: int| 0 <= i < 81 && i != c implies cell_weight(#[trigger] e[i]) <= cell_weight(
        b[i],
    ) && assigned(e[i]) == assigned(b[i]) by {
        let m = b[i];
        if peer(i, c) {
            assert((m & !bit(v)) & ALL_VALUES <= m & ALL_VALUES && ((m & !bit(v)) & VALUE_SET
                == m & VALUE_SET)) by (bit_vector)
                requires
                    1 <= v <= 9,
            ;
        }
    }
    let m = b[c];
    assert(((bit(v) | VALUE_SET) & ALL_VALUES) <= 256 && (bit(v) | VALUE_SET) & VALUE_SET != 0)
        by (bit_vector)
        requires
            1 <= v <= 9,
    ;
    assert(e[c] == bit(v) | VALUE_SET);
    assert(assigned(e[c]));
    assert(cell_weight(e[c]) <= 256);
    assert(cell_weight(b[c]) >= 512);
    lemma_totals(b, e, c, 81);
}

/// Clearing a candidate of a cell lowers the weight by at least one.
pub proof fn lemma_remove_progress(b: Seq<u32>, c: int, v: u32)
    requires
        b.len() == 81,
        0 <= c < 81,
        1 <= v <= 9,
        has_value(b[c], v),
    ensures
        weight(b.update(c, without(b[c], v))) < weight(b),
        num_assigned(b.update(c, without(b[c], v))) == num_assigned(b),
{
    let e = b.update(c, without(b[c], v));
    let m = b[c];
    assert((m & !bit(v)) & ALL_VALUES < m & ALL_VALUES && ((m & !bit(v)) & VALUE_SET == m
        & VALUE_SET)) by (bit_vector)
        requires
            1 <= v <= 9,
            m & bit(v) != 0,
    ;
    lemma_totals(b, e, c, 81);
    lemma_totals(b, e, -1, 81);
}

/// Every candidate of a cell of `a` is a candidate of the same cell of `b`.
pub open spec fn refines(a: Seq<u32>, b: Seq<u32>) -> bool {
    forall|i: int| 0 <= i < 81 ==> #[trigger] a[i] & ALL_VALUES & !b[i] == 0
}

pub proof fn lemma_refines_refl(b: Seq<u32>)
    ensures
        refines(b, b),
{
    assert forall|i: int| 0 <= i < 81 implies #[trigger] b[i] & ALL_VALUES & !b[i] == 0 by {
        let x = b[i];
        assert(x & ALL_VALUES & !x == 0) by (bit_vector);
    }
}

pub proof fn lemma_refines_trans(a: Seq<u32>, b: Seq<u32>, c: Seq<u32>)
    requires
        refines(a, b),
        refines(b, c),
    ensures
        refines(a, c),
{
    assert forall|i: int| 0 <= i < 81 implies #[trigger] a[i] & ALL_VALUES & !c[i] == 0 by {
        let (x, y, z) = (a[i], b[i], c[i]);
        assert(x & ALL_VALUES & !y == 0 && y & ALL_VALUES & !z == 0);
        assert(x & ALL_VALUES & !z == 0) by (bit_vector)
            requires
                x & ALL_VALUES & !y == 0,
                y & ALL_VALUES & !z == 0,
        ;
    }
}

/// Committing a candidate and clearing it from peers only removes candidates.
pub proof fn lemma_eliminated_refines(b: Seq<u32>, c: int, v: u32)
    requires
        b.len() == 81,
        0 <= c < 81,
        1 <= v <= 9,
        has_value(b[c], v),
    ensures
        refines(eliminated(b, c, v), b),
{
    let e = eliminated(b, c, v);
    assert forall|i: int| 0 <= i < 81 implies #[trigger] e[i] & ALL_VALUES & !b[i] == 0 by {
        let x = b[i];
        if i == c {
            assert((bit(v) | VALUE_SET) & ALL_VALUES & !x == 0) by (bit_vector)
                requires
                    1 <= v <= 9,
                    x & bit(v) != 0,
            ;
        } else {
            assert(x & !bit(v) & ALL_VALUES & !x == 0 && x & ALL_VALUES & !x == 0) by (bit_vector);
        }
    }
}

/// Clearing a candidate of one cell only removes candidates.
pub proof fn lemma_without_refines(b: Seq<u32>, c: int, v: u32)
    requires
        b.len() == 81,
        0 <= c < 81,
    ensures
        refines(b.update(c, without(b[c], v)), b),
{
    let e = b.update(c, without(b[c], v));
    assert forall|i: int| 0 <= i < 81 implies #[trigger] e[i] & ALL_VALUES & !b[i] == 0 by {
        let x = b[i];
        assert(x & !bit(v) & ALL_VALUES & !x == 0 && x & ALL_VALUES & !x == 0) by (bit_vector);
    }
}

/// A fresh board: every cell has all nine candidates and is not committed.
pub fn new_board() -> (r: Board)
    ensures
        forall|i: int| 0 <= i < 81 ==> #[trigger] r@[i] == ALL_VALUES,
{
    [ALL_VALUES; 81]
}

/// The cells of row `row`, left to right.
pub fn get_row(row: usize) -> (r: [usize; 9])
    requires
        row < 9,
    ensures
        forall|k: int| 0 <= k < 9 ==> #[trigger] r@[k] as int == house_cell(row as int, k),
{
    let base: usize = row * 9;
    [base, base + 1, base + 2, base + 3, base + 4, base + 5, base + 6, base + 7, base + 8]
}

/// The cells of column `col`, top to bottom.
pub fn get_col(col: usize) -> (r: [usize; 9])
    requires
        col < 9,
    ensures
        forall|k: int| 0 <= k < 9 ==> #[trigger] r@[k] as int == house_cell(col as int + 9, k),
{
    [col, 9 + col, 18 + col, 27 + col, 36 + col, 45 + col, 54 + col, 63 + col, 72 + col]
}

/// The cells of box `box_index` (boxes numbered row-major), row-major within the box.
pub fn get_box(box_index: usize) -> (r: [usize; 9])
    requires
        box_index < 9,
    ensures
        forall|k: int| 0 <= k < 9 ==> #[trigger] r@[k] as int == house_cell(box_index as int + 18, k),
{
    let base: usize = (box_index / 3) * 27 + (box_index % 3) * 3;
    [base, base + 1, base + 2, base + 9, base + 10, base + 11, base + 18, base + 19, base + 20]
}

/// The cells of house `h`: rows first, then columns, then boxes.
pub fn get_house(h: usize) -> (r: [usize; 9])
    requires
        h < 27,
    ensures
        forall|k: int| 0 <= k < 9 ==> #[trigger] r@[k] as int == house_cell(h as int, k),
        forall|k: int| 0 <= k < 9 ==> #[trigger] r@[k] < 81,
{
    if h < 9 {
        get_row(h)
    } else if h < 18 {
        get_col(h - 9)
    } else {
        get_box(h - 18)
    }
}

/// Whether distinct cells `a` and `b` share a row, a column or a box.
pub fn is_peer(a: usize, b: usize) -> (r: bool)
    requires
        a < 81,
        b < 81,
    ensures
        r == peer(a as int, b as int),
{
    a != b && (a / 9 == b / 9 || a % 9 == b % 9 || (a / 27 == b / 27 && (a % 9) / 3 == (b % 9) / 3))
}

/// Commits `cell` to `value` and removes `value` from the candidates of every
/// peer. Fails when `value` is not a candidate of `cell` or a peer is left
/// without candidates; a failed board is a dead branch. A cell already
/// committed to `value` is left as it is.
pub fn set_value(board: &mut Board, cell: usize, value: u32) -> (r: bool)
    requires
        cell < 81,
        1 <= value <= 9,
    ensures
        r == assign_ok(old(board)@, cell as int, value),
        r ==> final(board)@ == assign_result(old(board)@, cell as int, value),
        !(has_value(old(board)@[cell as int], value)) ==> final(board)@ == old(board)@,
        assigned(old(board)@[cell as int]) ==> final(board)@ == old(board)@,
        has_value(old(board)@[cell as int], value) && !assigned(old(board)@[cell as int])
            ==> final(board)@[cell as int] == bit(value) | VALUE_SET,
        final(board)@.len() == 81,
        forall|i: int|
            0 <= i < 81 && i != cell && !peer(i, cell as int) ==> #[trigger] final(board)@[i] == old(
                board,
            )@[i],
        forall|i: int|
            0 <= i < 81 && peer(i, cell as int) ==> #[trigger] final(board)@[i] == old(board)@[i]
                || final(board)@[i] == without(old(board)@[i], value),
{
    let existing_mask: u32 = board[cell];
    let vmask = value_mask(value);
    if existing_mask & vmask == 0 {
        return false;
    }
    if existing_mask & VALUE_SET != 0 {
        return true;
    }
    let ghost b0 = board@;
    board[cell] = vmask | VALUE_SET;
    let inv_mask = !vmask;
    let mut idx: usize = 0;
    while idx < NUM_CELLS
        invariant
            idx <= 81,
            cell < 81,
            1 <= value <= 9,
            vmask == bit(value),
            inv_mask == !vmask,
            b0 == old(board)@,
            has_value(b0[cell as int], value),
            !assigned(b0[cell as int]),
            board@.len() == 81,
            forall|i: int|
                0 <= i < 81 ==> #[trigger] board@[i] == if i < idx {
                    eliminated(b0, cell as int, value)[i]
                } else if i == cell {
                    bit(value) | VALUE_SET
                } else {
                    b0[i]
                },
            forall|i: int|
                0 <= i < idx && peer(i, cell as int) ==> !no_cands(#[trigger] without(b0[i], value)),
        decreases 81 - idx,
    {
        if is_peer(idx, cell) {
            let m = board[idx] & inv_mask;
            assert(m == without(b0[idx as int], value));
            board[idx] = m;
            if m & ALL_VALUES == 0 {
                assert(no_cands(without(b0[idx as int], value)));
                return false;
            }
        }
        idx = idx + 1;
    }
    assert(board@ =~= eliminated(b0, cell as int, value));
    true
}

/// Whether no cell is without candidates and every house admits all nine values.
pub fn check_valid(board: &Board) -> (r: bool)
    ensures
        r == valid(board@),
{
    let mut cell: usize = 0;
    while cell < NUM_CELLS
        invariant
            cell <= 81,
            forall|i: int| 0 <= i < cell ==> !no_cands(#[trigger] board@[i]),
        decreases 81 - cell,
    {
        if board[cell] & ALL_VALUES == 0 {
            return false;
        }
        cell = cell + 1;
    }
    let mut h: usize = 0;
    while h < NUM_HOUSES
        invariant
            h <= 27,
            forall|i: int| 0 <= i < 81 ==> !no_cands(#[trigger] board@[i]),
            forall|g: int| 0 <= g < h ==> #[trigger] house_covered(board@, g),
        decreases 27 - h,
    {
        let house = get_house(h);
        let mut union: u32 = 0;
        let mut k: usize = 0;
        while k < 9
            invariant
                k <= 9,
                h < 27,
                union == house_union_upto(board@, h as int, k as int),
                forall|j: int| 0 <= j < 9 ==> #[trigger] house@[j] as int == house_cell(h as int, j),
                forall|j: int| 0 <= j < 9 ==> #[trigger] house@[j] < 81,
            decreases 9 - k,
        {
            union = union | board[house[k]];
            k = k + 1;
        }
        if union & ALL_VALUES != ALL_VALUES {
            assert(!house_covered(board@, h as int));
            return false;
        }
        h = h + 1;
    }
    true
}

/// The character a cell shows in a record: its digit when committed, '.' otherwise.
pub open spec fn cell_char(m: u32) -> u8 {
    if !assigned(m) || no_cands(m) {
        46u8
    } else {
        (48 + first_value(m)) as u8
    }
}

/// The 81 characters of a board, row-major: a digit for each committed cell
/// and '.' for the others.
pub fn board_chars(board: &Board) -> (r: Vec<u8>)
    ensures
        r@.len() == 81,
        forall|i: int| 0 <= i < 81 ==> #[trigger] r@[i] == cell_char(board@[i]),
{
    let mut chars: Vec<u8> = Vec::new();
    let mut cell: usize = 0;
    while cell < NUM_CELLS
        invariant
            cell <= 81,
            chars@.len() == cell,
            forall|i: int| 0 <= i < cell ==> #[trigger] chars@[i] == cell_char(board@[i]),
        decreases 81 - cell,
    {
        let mask = board[cell];
        if mask & VALUE_SET == 0 || mask & ALL_VALUES == 0 {
            chars.push(46u8);
        } else {
            let value = get_value(mask);
            proof {
                lemma_no_cands(mask);
            }
            chars.push((48 + value) as u8);
        }
        cell = cell + 1;
    }
    chars
}

} // verus!
