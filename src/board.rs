use vstd::prelude::*;

use crate::bits::{
    add_possibility, flip_digit, holds, in_range, is_digit, is_single, lemma_contains_after,
    lemma_ops_in_range, lemma_single_holds, lemma_single_unique, lemma_subset_holds,
    lemma_subset_trans, lemma_without_keeps, lemma_without_subset, remove_possibility, sole_candidate, subset_of,
    toggle_possibility, with_digit, without_digit, PossibilitiesBits,
};

verus! {

/// Number of cells on the board.
pub const SIZE: usize = 81;

/// One cell: either still open, with its remaining candidates, or solved to a digit.
#[derive(Debug, Copy, Clone, PartialEq, Eq, Hash, Structural)]
pub enum Cell {
    Unknown(PossibilitiesBits),
    Solved(u8),
}

impl Default for Cell {
    fn default() -> (r: Self)
        ensures
            r == Cell::Unknown(0),
    {
        Cell::Unknown(0)
    }
}

/// Index of a cell, row-major: `row * 9 + col`.
pub type CellIndex = usize;

pub open spec fn row_of(i: int) -> int {
    i / 9
}

pub open spec fn col_of(i: int) -> int {
    i % 9
}

pub open spec fn same_box(i: int, j: int) -> bool {
    row_of(i) / 3 == row_of(j) / 3 && col_of(i) / 3 == col_of(j) / 3
}

/// Two distinct cells of the board that share a row, a column or a 3x3 box.
pub open spec fn is_peer(i: int, j: int) -> bool {
    &&& 0 <= i < 81
    &&& 0 <= j < 81
    &&& i != j
    &&& (row_of(i) == row_of(j) || col_of(i) == col_of(j) || same_box(i, j))
}

proof fn lemma_push_contains(s: Seq<usize>, v: usize)
    ensures
        forall|x: usize| s.contains(x) ==> #[trigger] s.push(v).contains(x),
        s.push(v).contains(v),
{
    assert forall|x: usize| s.contains(x) implies #[trigger] s.push(v).contains(x) by {
        let k = choose|k: int| 0 <= k < s.len() && s[k] == x;
        assert(s.push(v)[k] == x);
    }
    assert(s.push(v)[s.len() as int] == v);
}

/// The peers of a cell: first those of its row, then of its column, then the rest of its box.
pub fn peer_list(idx: CellIndex) -> (r: Vec<CellIndex>)
    requires
        idx < SIZE,
    ensures
        forall|k: int| 0 <= k < r.len() ==> is_peer(idx as int, #[trigger] r[k] as int),
        forall|j: int| is_peer(idx as int, j) ==> r@.contains(j as usize),
{
    let row: usize = idx / 9;
    let col: usize = idx % 9;
    let mut r: Vec<CellIndex> = Vec::new();
    let mut c: usize = 0;
    while c < 9
        invariant
            row == idx / 9,
            col == idx % 9,
            idx < 81,
            c <= 9,
            forall|k: int| 0 <= k < r.len() ==> is_peer(idx as int, #[trigger] r[k] as int),
            forall|j: int|
                is_peer(idx as int, j) && row_of(j) == row && col_of(j) < c ==> r@.contains(
                    j as usize,
                ),
        decreases 9 - c,
    {
        let j: usize = row * 9 + c;
        if c != col {
            proof {
                lemma_push_contains(r@, j);
            }
            r.push(j);
        }
        c = c + 1;
    }
    let mut rr: usize = 0;
    while rr < 9
        invariant
            row == idx / 9,
            col == idx % 9,
            idx < 81,
            rr <= 9,
            forall|k: int| 0 <= k < r.len() ==> is_peer(idx as int, #[trigger] r[k] as int),
            forall|j: int| is_peer(idx as int, j) && row_of(j) == row ==> r@.contains(j as usize),
            forall|j: int|
                is_peer(idx as int, j) && col_of(j) == col && row_of(j) < rr ==> r@.contains(
                    j as usize,
                ),
        decreases 9 - rr,
    {
        let j: usize = rr * 9 + col;
        if rr != row {
            proof {
                lemma_push_contains(r@, j);
            }
            r.push(j);
        }
        rr = rr + 1;
    }
    let br: usize = row / 3 * 3;
    let bc: usize = col / 3 * 3;
    assert(br % 3 == 0 && br <= 6 && bc % 3 == 0 && bc <= 6);
    let mut a: usize = 0;
    while a < 3
        invariant
            row == idx / 9,
            col == idx % 9,
            br == row / 3 * 3,
            bc == col / 3 * 3,
            br % 3 == 0 && br <= 6 && bc % 3 == 0 && bc <= 6,
            idx < 81,
            a <= 3,
            forall|k: int| 0 <= k < r.len() ==> is_peer(idx as int, #[trigger] r[k] as int),
            forall|j: int| is_peer(idx as int, j) && row_of(j) == row ==> r@.contains(j as usize),
            forall|j: int| is_peer(idx as int, j) && col_of(j) == col ==> r@.contains(j as usize),
            forall|j: int| is_peer(idx as int, j) && row_of(j) < br + a ==> r@.contains(j as usize),
        decreases 3 - a,
    {
        let mut b: usize = 0;
        while b < 3
            invariant
                row == idx / 9,
                col == idx % 9,
                br == row / 3 * 3,
                bc == col / 3 * 3,
                br % 3 == 0 && br <= 6 && bc % 3 == 0 && bc <= 6,
                idx < 81,
                a < 3,
                b <= 3,
                forall|k: int| 0 <= k < r.len() ==> is_peer(idx as int, #[trigger] r[k] as int),
                forall|j: int| is_peer(idx as int, j) && row_of(j) == row ==> r@.contains(j as usize),
                forall|j: int| is_peer(idx as int, j) && col_of(j) == col ==> r@.contains(j as usize),
                forall|j: int|
                    is_peer(idx as int, j) && (row_of(j) < br + a || (row_of(j) == br + a
                        && col_of(j) < bc + b)) ==> r@.contains(j as usize),
            decreases 3 - b,
        {
            let j: usize = (br + a) * 9 + bc + b;
            assert(row_of(j as int) == br + a && col_of(j as int) == bc + b);
            if br + a != row && bc + b != col {
                proof {
                    lemma_push_contains(r@, j);
                }
                r.push(j);
            }
            b = b + 1;
        }
        a = a + 1;
    }
    r
}


/// A cell whose contents are of the right shape: a set of the nine digits, or a digit.
pub open spec fn cell_ok(c: Cell) -> bool {
    match c {
        Cell::Unknown(s) => in_range(s),
        Cell::Solved(d) => is_digit(d),
    }
}

/// A board of 81 cells of the right shape.
pub open spec fn wf_board(b: Seq<Cell>) -> bool {
    &&& b.len() == 81
    &&& forall|i: int| 0 <= i < 81 ==> cell_ok(#[trigger] b[i])
}

/// No two peers are solved to the same digit.
pub open spec fn consistent(b: Seq<Cell>) -> bool {
    forall|i: int, j: int|
        is_peer(i, j) && (#[trigger] b[i]) is Solved && (#[trigger] b[j]) is Solved
            ==> b[i]->Solved_0 != b[j]->Solved_0
}

/// Some peer of cell `i` is solved to `d`.
pub open spec fn has_solved_peer(b: Seq<Cell>, i: int, d: u8) -> bool {
    exists|j: int| is_peer(i, j) && b[j] == Cell::Solved(d)
}

/// Number of open cells among the first `n`.
pub open spec fn unknowns_upto(b: Seq<Cell>, n: nat) -> nat
    decreases n,
{
    if n == 0 {
        0
    } else {
        unknowns_upto(b, (n - 1) as nat) + if b[n - 1] is Unknown {
            1nat
        } else {
            0nat
        }
    }
}

/// Number of open cells on the board.
pub open spec fn unknowns(b: Seq<Cell>) -> nat {
    unknowns_upto(b, b.len())
}

/// How a board may change while digits spread: a solved cell keeps its digit, an open cell
/// loses candidates or is solved to one of its candidates.
pub open spec fn evolves(a: Seq<Cell>, b: Seq<Cell>) -> bool {
    forall|k: int|
        0 <= k < 81 ==> match #[trigger] a[k] {
            Cell::Solved(_) => b[k] == a[k],
            Cell::Unknown(s) => match b[k] {
                Cell::Unknown(t) => subset_of(t, s),
                Cell::Solved(d) => holds(s, d),
            },
        }
}

/// An open cell left with a single candidate has a peer solved to that digit, which kept it
/// from being solved.
pub open spec fn settled(b: Seq<Cell>, k: int) -> bool {
    b[k] is Unknown ==> forall|d: u8|
        #[trigger] is_single(b[k]->Unknown_0, d) ==> has_solved_peer(b, k, d)
}

/// Cell `j` is solved and its digit has been taken out of every open peer, each of which
/// was then solved or left settled.
pub open spec fn swept(b: Seq<Cell>, j: int) -> bool {
    &&& b[j] is Solved
    &&& forall|k: int|
        #[trigger] is_peer(j, k) && b[k] is Unknown ==> !holds(b[k]->Unknown_0, b[j]->Solved_0)
            && settled(b, k)
}

/// What every spreading of digits from board `a` to board `b` keeps: the shape of the cells,
/// the way cells change, consistency, the count of open cells, and that each newly solved
/// cell is swept and each open cell that changed is settled.
pub open spec fn step(a: Seq<Cell>, b: Seq<Cell>) -> bool {
    &&& wf_board(b)
    &&& evolves(a, b)
    &&& consistent(a) ==> consistent(b)
    &&& unknowns(b) <= unknowns(a)
    &&& forall|j: int| 0 <= j < 81 && (#[trigger] a[j]) is Unknown && b[j] is Solved ==> swept(b, j)
    &&& forall|k: int| 0 <= k < 81 && #[trigger] a[k] != b[k] && b[k] is Unknown ==> settled(b, k)
}

/// Digit `e` has a reason to be gone from cell `k` of `b`: a peer solved to `e` that was open in
/// `a`, or that is cell `x`.
pub open spec fn removal_reason(a: Seq<Cell>, b: Seq<Cell>, x: int, k: int, e: u8) -> bool {
    exists|j: int| is_peer(k, j) && #[trigger] b[j] == Cell::Solved(e) && (a[j] is Unknown || j == x)
}

/// From `a` to `b`, every candidate that an open cell other than `x` lost has a reason.
pub open spec fn removals_explained(a: Seq<Cell>, b: Seq<Cell>, x: int) -> bool {
    forall|k: int, e: u8|
        0 <= k < 81 && k != x && is_digit(e) && a[k] is Unknown && b[k] is Unknown && holds(
            a[k]->Unknown_0,
            e,
        ) && !holds(#[trigger] b[k]->Unknown_0, e) ==> #[trigger] removal_reason(a, b, x, k, e)
}

proof fn lemma_reason_stable(a: Seq<Cell>, b: Seq<Cell>, c: Seq<Cell>, x: int, k: int, e: u8)
    requires
        evolves(b, c),
        removal_reason(a, b, x, k, e),
    ensures
        removal_reason(a, c, x, k, e),
{
    let j = choose|j: int| is_peer(k, j) && #[trigger] b[j] == Cell::Solved(e) && (a[j] is Unknown || j == x);
    assert(c[j] == b[j]);
}

/// Removals explained from `a` to `b`, and from `b` to `c` apart from cell `y`, whose only loss
/// is `v`, the digit of cell `x` in `c`, are explained from `a` to `c`.
proof fn lemma_explained_trans(a: Seq<Cell>, b: Seq<Cell>, c: Seq<Cell>, x: int, y: int, v: u8)
    requires
        0 <= x < 81,
        forall|j: int| 0 <= j < 81 && j != x && #[trigger] b[j] is Unknown ==> a[j] is Unknown,
        step(b, c),
        removals_explained(a, b, x),
        removals_explained(b, c, y),
        0 <= y < 81,
        b[y] is Solved ==> c == b,
        y != x ==> is_peer(y, x) && c[x] == Cell::Solved(v) && (b[y] is Unknown && c[y] is Unknown
            ==> c[y]->Unknown_0 == without_digit(b[y]->Unknown_0, v)),
    ensures
        removals_explained(a, c, x),
{
    assert forall|k: int, e: u8|
        0 <= k < 81 && k != x && is_digit(e) && a[k] is Unknown && c[k] is Unknown && holds(
            a[k]->Unknown_0,
            e,
        ) && !holds(#[trigger] c[k]->Unknown_0, e) implies #[trigger] removal_reason(a, c, x, k, e) by {
        assert(b[k] is Unknown);
        if !holds(b[k]->Unknown_0, e) {
            assert(removal_reason(a, b, x, k, e));
            lemma_reason_stable(a, b, c, x, k, e);
        } else if k != y {
            assert(removal_reason(b, c, y, k, e));
            let j = choose|j: int| is_peer(k, j) && #[trigger] c[j] == Cell::Solved(e) && (b[j] is Unknown || j == y);
            if b[j] is Unknown {
                assert(a[j] is Unknown || j == x);
            } else {
                assert(j == y);
                assert(b[y] is Solved);
                assert(c == b);
            }
            assert(removal_reason(a, c, x, k, e));
        } else {
            if e != v {
                lemma_without_keeps(b[k]->Unknown_0, v, e);
            }
            assert(is_peer(k, x) && c[x] == Cell::Solved(e));
            assert(removal_reason(a, c, x, k, e));
        }
    }
}

proof fn lemma_unknowns_update(b: Seq<Cell>, i: int, c: Cell, n: nat)
    requires
        0 <= i < b.len(),
        n <= b.len(),
    ensures
        unknowns_upto(b.update(i, c), n) + (if i < n && b[i] is Unknown { 1nat } else { 0nat })
            == unknowns_upto(b, n) + (if i < n && c is Unknown { 1nat } else { 0nat }),
    decreases n,
{
    if n > 0 {
        lemma_unknowns_update(b, i, c, (n - 1) as nat);
    }
}

proof fn lemma_step_refl(a: Seq<Cell>)
    requires
        wf_board(a),
    ensures
        step(a, a),
{
    assert forall|k: int| 0 <= k < 81 implies match #[trigger] a[k] {
        Cell::Solved(_) => a[k] == a[k],
        Cell::Unknown(s) => match a[k] {
            Cell::Unknown(t) => subset_of(t, s),
            Cell::Solved(d) => holds(s, d),
        },
    } by {
        if let Cell::Unknown(s) = a[k] {
            lemma_without_subset(s, 1);
        }
    }
}

proof fn lemma_settled_stable(b: Seq<Cell>, c: Seq<Cell>, k: int)
    requires
        0 <= k < 81,
        evolves(b, c),
        b[k] == c[k],
        settled(b, k),
    ensures
        settled(c, k),
{
    if c[k] is Unknown {
        assert forall|d: u8| #[trigger] is_single(c[k]->Unknown_0, d) implies has_solved_peer(
            c,
            k,
            d,
        ) by {
            let m = choose|m: int| is_peer(k, m) && b[m] == Cell::Solved(d);
            assert(b[m] is Solved);
            assert(c[m] == Cell::Solved(d));
        }
    }
}

proof fn lemma_swept_stable(b: Seq<Cell>, c: Seq<Cell>, j: int)
    requires
        0 <= j < 81,
        wf_board(b),
        step(b, c),
        swept(b, j),
    ensures
        swept(c, j),
{
    assert(b[j] is Solved);
    assert(c[j] == b[j]);
    let d = b[j]->Solved_0;
    assert forall|k: int| #[trigger] is_peer(j, k) && c[k] is Unknown implies !holds(
        c[k]->Unknown_0,
        d,
    ) && settled(c, k) by {
        assert(b[k] is Unknown);
        if holds(c[k]->Unknown_0, d) {
            lemma_subset_holds(c[k]->Unknown_0, b[k]->Unknown_0, d);
        }
        if b[k] == c[k] {
            lemma_settled_stable(b, c, k);
        }
    }
}

proof fn lemma_step_trans(a: Seq<Cell>, b: Seq<Cell>, c: Seq<Cell>)
    requires
        wf_board(a),
        step(a, b),
        step(b, c),
    ensures
        step(a, c),
{
    assert forall|k: int| 0 <= k < 81 implies match #[trigger] a[k] {
        Cell::Solved(_) => c[k] == a[k],
        Cell::Unknown(s) => match c[k] {
            Cell::Unknown(t) => subset_of(t, s),
            Cell::Solved(d) => holds(s, d),
        },
    } by {
        if let Cell::Unknown(s) = a[k] {
            assert(cell_ok(b[k]));
            match b[k] {
                Cell::Unknown(t) => {
                    match c[k] {
                        Cell::Unknown(u) => lemma_subset_trans(u, t, s),
                        Cell::Solved(d) => {
                            assert(cell_ok(c[k]));
                            lemma_subset_holds(t, s, d);
                        },
                    }
                },
                Cell::Solved(_) => {},
            }
        }
    }
    assert forall|j: int| 0 <= j < 81 && (#[trigger] a[j]) is Unknown && c[j] is Solved implies swept(
        c,
        j,
    ) by {
        if b[j] is Solved {
            lemma_swept_stable(b, c, j);
        }
    }
    assert forall|k: int| 0 <= k < 81 && #[trigger] a[k] != c[k] && c[k] is Unknown implies settled(
        c,
        k,
    ) by {
        if b[k] == c[k] {
            lemma_settled_stable(b, c, k);
        }
    }
}


/// Whether every cell of the board is solved; kept for callers, no operation maintains it.
#[derive(Clone, Copy)]
pub enum State {
    Incomplete,
    Complete,
}

impl Default for State {
    fn default() -> (r: Self)
        ensures
            r == State::Complete,
    {
        State::Complete
    }
}

/// The board: 81 cells in row-major order.
#[derive(Clone, Copy)]
pub struct Sudoku {
    pub board: [Cell; SIZE],
    pub state: State,
}

/// The cell was solved already, so its candidates cannot change.
#[derive(Debug, Clone, Copy, PartialEq, Eq, Structural)]
pub struct AlreadySolved;

/// Solving `cell_attempted` to `value` was refused: its peer `conflicting_cell` holds `value`.
#[derive(Debug, Clone, Copy, PartialEq, Eq, Structural)]
pub struct InvalidCellSolution {
    pub cell_attempted: CellIndex,
    pub conflicting_cell: CellIndex,
    pub value: u8,
}

impl InvalidCellSolution {
    fn new(cell_attempted: CellIndex, conflicting_cell: CellIndex, value: u8) -> (r:
        InvalidCellSolution)
        ensures
            r == (InvalidCellSolution { cell_attempted, conflicting_cell, value }),
    {
        InvalidCellSolution { cell_attempted, conflicting_cell, value }
    }
}

/// A fresh board: every cell open, with no candidates.
pub open spec fn is_blank(b: Seq<Cell>) -> bool {
    &&& b.len() == 81
    &&& forall|i: int| 0 <= i < 81 ==> #[trigger] b[i] == Cell::Unknown(0)
}

impl Default for Sudoku {
    fn default() -> (r: Self)
        ensures
            is_blank(r.board@),
            wf_board(r.board@),
            consistent(r.board@),
    {
        Sudoku { board: [Cell::Unknown(0);SIZE], state: State::default() }
    }
}

impl Sudoku {
    pub fn new() -> (r: Self)
        ensures
            is_blank(r.board@),
            wf_board(r.board@),
            consistent(r.board@),
    {
        Self::default()
    }

    /// Solves cell `idx` to `value`, also when it is solved already, unless a peer holds
    /// `value`. The digit is then taken out of every open peer, and a peer left with a single
    /// candidate is solved to it in turn, as far as the cascade goes. A cascaded solve that
    /// would clash with a solved peer is not made: that cell stays open with its one candidate.
    pub fn solve_cell(&mut self, idx: CellIndex, value: u8) -> (r: Result<(), InvalidCellSolution>)
        requires
            wf_board(old(self).board@),
            idx < SIZE,
            is_digit(value),
        ensures
            wf_board(final(self).board@),
            final(self).state == old(self).state,
            r is Err <==> has_solved_peer(old(self).board@, idx as int, value),
            consistent(old(self).board@) ==> consistent(final(self).board@),
            match r {
                Err(e) => {
                    &&& e.cell_attempted == idx
                    &&& e.value == value
                    &&& is_peer(idx as int, e.conflicting_cell as int)
                    &&& old(self).board@[e.conflicting_cell as int] == Cell::Solved(value)
                    &&& final(self).board@ == old(self).board@
                },
                Ok(_) => {
                    &&& final(self).board@[idx as int] == Cell::Solved(value)
                    &&& swept(final(self).board@, idx as int)
                    &&& removals_explained(old(self).board@, final(self).board@, idx as int)
                    &&& step(
                        old(self).board@.update(idx as int, Cell::Solved(value)),
                        final(self).board@,
                    )
                },
            },
        decreases
            unknowns(old(self).board@) + if old(self).board@[idx as int] is Solved {
                1nat
            } else {
                0nat
            },
            0nat,
    {
        let peers = peer_list(idx);
        let mut i: usize = 0;
        while i < peers.len()
            invariant
                *self == *old(self),
                wf_board(self.board@),
                idx < SIZE,
                forall|k: int| 0 <= k < peers.len() ==> is_peer(idx as int, #[trigger] peers[k] as int),
                forall|k: int| 0 <= k < i ==> self.board@[#[trigger] peers[k] as int] != Cell::Solved(value),
            decreases peers.len() - i,
        {
            let j = peers[i];
            if let Cell::Solved(v) = self.board[j] {
                if v == value {
                    assert(is_peer(idx as int, j as int));
                    return Err(InvalidCellSolution::new(idx, j, value));
                }
            }
            i = i + 1;
        }
        assert(!has_solved_peer(old(self).board@, idx as int, value)) by {
            assert forall|j: int| is_peer(idx as int, j) implies old(self).board@[j] != Cell::Solved(value) by {
                assert(peers@.contains(j as usize));
                let k = choose|k: int| 0 <= k < peers.len() && peers[k] == j as usize;
                assert(self.board@[peers[k] as int] != Cell::Solved(value));
            }
        }
        let ghost a0 = self.board@;
        self.board[idx] = Cell::Solved(value);
        let ghost a1 = self.board@;
        proof {
            assert(a1 == a0.update(idx as int, Cell::Solved(value)));
            lemma_unknowns_update(a0, idx as int, Cell::Solved(value), 81);
            assert(wf_board(a1));
            if consistent(a0) {
                assert forall|x: int, y: int|
                    is_peer(x, y) && (#[trigger] a1[x]) is Solved && (#[trigger] a1[y]) is Solved
                    implies a1[x]->Solved_0 != a1[y]->Solved_0 by {
                    if x == idx {
                        assert(a0[y] == a1[y]);
                    } else if y == idx {
                        assert(a0[x] == a1[x]);
                        assert(is_peer(y, x));
                    } else {
                        assert(a0[x] == a1[x] && a0[y] == a1[y]);
                    }
                }
            }
            lemma_step_refl(a1);
        }
        let mut i: usize = 0;
        while i < peers.len()
            invariant
                a1 == a0.update(idx as int, Cell::Solved(value)),
                a0 == old(self).board@,
                wf_board(a1),
                unknowns(a1) < unknowns(a0) + if a0[idx as int] is Solved {
                    1nat
                } else {
                    0nat
                },
                consistent(a0) ==> consistent(a1),
                wf_board(self.board@),
                removals_explained(a0, self.board@, idx as int),
                forall|j: int|
                    0 <= j < 81 && j != idx && #[trigger] self.board@[j] is Unknown ==> a0[j] is Unknown,
                step(a1, self.board@),
                self.state == old(self).state,
                idx < SIZE,
                is_digit(value),
                forall|k: int| 0 <= k < peers.len() ==> is_peer(idx as int, #[trigger] peers[k] as int),
                forall|k: int|
                    0 <= k < i && (#[trigger] self.board@[peers[k] as int]) is Unknown ==> !holds(
                        self.board@[peers[k] as int]->Unknown_0,
                        value,
                    ) && settled(self.board@, peers[k] as int),
            decreases peers.len() - i,
        {
            let j = peers[i];
            let ghost before = self.board@;
            let _ = self.remove_poss(j, value);
            proof {
                let after = self.board@;
                lemma_step_trans(a1, before, after);
                assert(a1[idx as int] is Solved);
                assert(before[idx as int] == Cell::Solved(value));
                assert(after[idx as int] == Cell::Solved(value));
                lemma_explained_trans(a0, before, after, idx as int, j as int, value);
                assert forall|x: int| 0 <= x < 81 && x != idx && #[trigger] after[x] is Unknown implies a0[x] is Unknown by {
                    assert(before[x] is Unknown);
                }
                assert forall|k: int|
                    0 <= k <= i && (#[trigger] after[peers[k] as int]) is Unknown implies !holds(
                        after[peers[k] as int]->Unknown_0,
                        value,
                    ) && settled(after, peers[k] as int) by {
                    let p = peers[k] as int;
                    if k < i {
                        assert(before[p] is Unknown);
                        assert(!holds(before[p]->Unknown_0, value));
                        if holds(after[p]->Unknown_0, value) {
                            lemma_subset_holds(after[p]->Unknown_0, before[p]->Unknown_0, value);
                        }
                        if before[p] == after[p] {
                            lemma_settled_stable(before, after, p);
                        }
                    }
                }
            }
            i = i + 1;
        }
        proof {
            let b = self.board@;
            assert(a1[idx as int] is Solved);
            assert(b[idx as int] == Cell::Solved(value));
            assert forall|k: int| #[trigger] is_peer(idx as int, k) && b[k] is Unknown implies !holds(
                b[k]->Unknown_0,
                value,
            ) && settled(b, k) by {
                assert(peers@.contains(k as usize));
                let m = choose|m: int| 0 <= m < peers.len() && peers[m] == k as usize;
                assert(b[peers[m] as int] is Unknown);
            }
        }
        Ok(())
    }

    /// Takes `value` out of the candidates of open cell `idx`; if a single candidate is left,
    /// solves the cell to it as `solve_cell` does, unless a peer holds that digit.
    pub fn remove_poss(&mut self, idx: CellIndex, value: u8) -> (r: Result<(), AlreadySolved>)
        requires
            wf_board(old(self).board@),
            idx < SIZE,
            is_digit(value),
        ensures
            final(self).state == old(self).state,
            step(old(self).board@, final(self).board@),
            old(self).board@[idx as int] is Solved ==> r == Err::<(), AlreadySolved>(AlreadySolved)
                && final(self).board@ == old(self).board@,
            old(self).board@[idx as int] is Unknown ==> r is Ok && ({
                let s = without_digit(old(self).board@[idx as int]->Unknown_0, value);
                let a1 = old(self).board@.update(idx as int, Cell::Unknown(s));
                &&& (forall|d: u8| !is_single(s, d)) ==> final(self).board@ == a1
                &&& forall|d: u8|
                    #[trigger] is_single(s, d) && has_solved_peer(old(self).board@, idx as int, d)
                        ==> final(self).board@ == a1
                &&& forall|d: u8|
                    #[trigger] is_single(s, d) && !has_solved_peer(old(self).board@, idx as int, d)
                        ==> final(self).board@[idx as int] == Cell::Solved(d) && swept(
                        final(self).board@,
                        idx as int,
                    ) && step(a1.update(idx as int, Cell::Solved(d)), final(self).board@)
            }),
            removals_explained(old(self).board@, final(self).board@, idx as int),
            old(self).board@[idx as int] is Unknown && final(self).board@[idx as int] is Unknown
                ==> final(self).board@[idx as int] == Cell::Unknown(
                without_digit(old(self).board@[idx as int]->Unknown_0, value),
            ),
            final(self).board@[idx as int] is Unknown ==> !holds(
                final(self).board@[idx as int]->Unknown_0,
                value,
            ) && settled(final(self).board@, idx as int),
        decreases unknowns(old(self).board@), 1nat,
    {
        let ghost a0 = self.board@;
        match self.board[idx] {
            Cell::Unknown(bits) => {
                let new = remove_possibility(bits, value);
                self.board[idx] = Cell::Unknown(new);
                let ghost a1 = self.board@;
                proof {
                    lemma_without_subset(bits, value);
                    lemma_contains_after(bits, value);
                    lemma_unknowns_update(a0, idx as int, Cell::Unknown(new), 81);
                    assert(wf_board(a1));
                    lemma_step_refl(a0);
                    assert(forall|k: int| 0 <= k < 81 && k != idx ==> a1[k] == a0[k]);
                    assert(forall|d: u8| has_solved_peer(a0, idx as int, d) ==> has_solved_peer(a1, idx as int, d));
                    assert(forall|d: u8| has_solved_peer(a1, idx as int, d) ==> has_solved_peer(a0, idx as int, d));
                }
                match sole_candidate(new) {
                    Some(d) => {
                        let res = self.solve_cell(idx, d);
                        proof {
                            let b = self.board@;
                            lemma_single_holds(new, d);
                            assert forall|e: u8| is_single(new, e) implies e == d by {
                                lemma_single_unique(new, d, e);
                            }
                            if res is Ok {
                                let a2 = a1.update(idx as int, Cell::Solved(d));
                                lemma_subset_holds(new, bits, d);
                                lemma_unknowns_update(a1, idx as int, Cell::Solved(d), 81);
                                assert(evolves(a0, b)) by {
                                    assert forall|k: int| 0 <= k < 81 implies match #[trigger] a0[k] {
                                        Cell::Solved(_) => b[k] == a0[k],
                                        Cell::Unknown(s) => match b[k] {
                                            Cell::Unknown(t) => subset_of(t, s),
                                            Cell::Solved(x) => holds(s, x),
                                        },
                                    } by {
                                        if k != idx {
                                            assert(a2[k] == a0[k]);
                                        }
                                    }
                                }
                                if consistent(a0) {
                                    assert forall|x: int, y: int|
                                        is_peer(x, y) && (#[trigger] a2[x]) is Solved && (#[trigger] a2[y]) is Solved
                                        implies a2[x]->Solved_0 != a2[y]->Solved_0 by {
                                        if x == idx {
                                            assert(a0[y] == a2[y]);
                                        } else if y == idx {
                                            assert(a0[x] == a2[x]);
                                            assert(is_peer(y, x));
                                        } else {
                                            assert(a0[x] == a2[x] && a0[y] == a2[y]);
                                        }
                                    }
                                }
                                assert forall|j: int| 0 <= j < 81 && (#[trigger] a0[j]) is Unknown && b[j] is Solved implies swept(b, j) by {
                                    if j != idx {
                                        assert(a2[j] == a0[j]);
                                    }
                                }
                                assert forall|k: int| 0 <= k < 81 && #[trigger] a0[k] != b[k] && b[k] is Unknown implies settled(b, k) by {
                                    assert(k != idx);
                                    assert(a2[k] == a0[k]);
                                }
                                assert forall|k: int, e: u8|
                                    0 <= k < 81 && k != idx && is_digit(e) && a0[k] is Unknown && b[k] is Unknown
                                        && holds(a0[k]->Unknown_0, e) && !holds(#[trigger] b[k]->Unknown_0, e)
                                    implies #[trigger] removal_reason(a0, b, idx as int, k, e) by {
                                    assert(a1[k] == a0[k]);
                                    assert(removal_reason(a1, b, idx as int, k, e));
                                    let j = choose|j: int| is_peer(k, j) && #[trigger] b[j] == Cell::Solved(e) && (a1[j] is Unknown || j == idx);
                                    if j != idx {
                                        assert(a1[j] == a0[j]);
                                    }
                                }
                            } else {
                                assert forall|x: u8| #[trigger] is_single(new, x) implies has_solved_peer(a1, idx as int, x) by {
                                    lemma_single_unique(new, d, x);
                                }
                                assert forall|k: int| 0 <= k < 81 && #[trigger] a0[k] != b[k] && b[k] is Unknown implies settled(b, k) by {
                                    assert(k == idx);
                                }
                            }
                        }
                    },
                    None => {},
                }
                Ok(())
            },
            Cell::Solved(_) => {
                proof {
                    lemma_step_refl(a0);
                }
                Err(AlreadySolved)
            },
        }
    }

    /// Opens cell `idx` again, with no candidates.
    pub fn unsolve_cell(&mut self, idx: CellIndex)
        requires
            idx < SIZE,
        ensures
            final(self).board@ == old(self).board@.update(idx as int, Cell::Unknown(0)),
            final(self).state == old(self).state,
    {
        self.board[idx] = Cell::Unknown(0);
    }

    /// Adds `value` to the candidates of open cell `idx`; never solves the cell.
    pub fn add_poss(&mut self, idx: CellIndex, value: u8) -> (r: Result<(), AlreadySolved>)
        requires
            wf_board(old(self).board@),
            idx < SIZE,
            is_digit(value),
        ensures
            wf_board(final(self).board@),
            final(self).state == old(self).state,
            match old(self).board@[idx as int] {
                Cell::Solved(_) => r == Err::<(), AlreadySolved>(AlreadySolved) && final(self).board@
                    == old(self).board@,
                Cell::Unknown(s) => r is Ok && final(self).board@ == old(self).board@.update(
                    idx as int,
                    Cell::Unknown(with_digit(s, value)),
                ),
            },
    {
        match self.board[idx] {
            Cell::Unknown(poss_bits) => {
                proof {
                    lemma_ops_in_range(poss_bits, value);
                }
                self.board[idx] = Cell::Unknown(add_possibility(poss_bits, value));
                Ok(())
            },
            Cell::Solved(_) => Err(AlreadySolved),
        }
    }

    /// Flips `value` among the candidates of open cell `idx`; never solves the cell, even
    /// when a single candidate is left.
    pub fn toggle_poss(&mut self, idx: CellIndex, value: u8) -> (r: Result<(), AlreadySolved>)
        requires
            wf_board(old(self).board@),
            idx < SIZE,
            is_digit(value),
        ensures
            wf_board(final(self).board@),
            final(self).state == old(self).state,
            match old(self).board@[idx as int] {
                Cell::Solved(_) => r == Err::<(), AlreadySolved>(AlreadySolved) && final(self).board@
                    == old(self).board@,
                Cell::Unknown(s) => r is Ok && final(self).board@ == old(self).board@.update(
                    idx as int,
                    Cell::Unknown(flip_digit(s, value)),
                ),
            },
    {
        match self.board[idx] {
            Cell::Unknown(poss_bits) => {
                proof {
                    lemma_ops_in_range(poss_bits, value);
                }
                self.board[idx] = Cell::Unknown(toggle_possibility(poss_bits, value));
                Ok(())
            },
            Cell::Solved(_) => Err(AlreadySolved),
        }
    }
}

} // verus!
