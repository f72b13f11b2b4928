//! A tic-tac-toe engine: terminal-state evaluation, exhaustive minimax
//! search with alpha-beta pruning, an immediate-win heuristic, a random
//! move picker, and a difficulty-level dispatcher.
//!
//! Cells hold `BLANK`, `PLAYER_X` or `PLAYER_O`; the maximizing player is
//! always `PLAYER_X`. Boards are caller-owned values; every trial placement
//! made during search is reverted, so each call leaves its board unchanged.

use rand::Rng;
use vstd::prelude::*;

verus! {

pub const BLANK: i32 = 0;

pub const PLAYER_X: i32 = 1;

pub const PLAYER_O: i32 = 2;

pub const TIE: i32 = 3;

pub const LEVEL_EASY: i32 = 0;

pub const LEVEL_HARD: i32 = 2;

/// A (row, column) coordinate into the 3x3 board.
#[derive(Clone, Copy, PartialEq, Eq, Structural, Debug)]
pub struct Move {
    pub row: i32,
    pub col: i32,
}

/// A 3x3 board stored row-major: the cell at (row, col) is entry
/// `row * 3 + col`.
pub struct Board {
    cells: Vec<i32>,
}

/// A well-formed board view: nine cells, each `BLANK`, `PLAYER_X` or
/// `PLAYER_O`.
pub open spec fn wf(s: Seq<i32>) -> bool {
    &&& s.len() == 9
    &&& forall|k: int| 0 <= k < 9 ==> 0 <= #[trigger] s[k] <= 2
}

impl View for Board {
    type V = Seq<i32>;

    closed spec fn view(&self) -> Seq<i32> {
        self.cells@
    }
}

impl Board {
    /// An empty board.
    pub fn new() -> (b: Board)
        ensures
            b@.len() == 9,
            forall|k: int| 0 <= k < 9 ==> #[trigger] b@[k] == BLANK,
            wf(b@),
    {
        let mut cells: Vec<i32> = Vec::new();
        let mut i: usize = 0;
        while i < 9
            invariant
                i <= 9,
                cells@.len() == i,
                forall|k: int| 0 <= k < i ==> #[trigger] cells@[k] == 0i32,
            decreases 9 - i,
        {
            cells.push(0);
            i = i + 1;
        }
        Board { cells }
    }

    /// Builds a board from nine row-major cell values; rejects any input
    /// that is not a well-formed board.
    pub fn from_cells(cells: Vec<i32>) -> (r: Option<Board>)
        ensures
            match r {
                Some(b) => b@ == cells@ && wf(b@),
                None => !wf(cells@),
            },
    {
        if cells.len() != 9 {
            return None;
        }
        let mut i: usize = 0;
        while i < 9
            invariant
                i <= 9,
                cells@.len() == 9,
                forall|k: int| 0 <= k < i ==> 0 <= #[trigger] cells@[k] <= 2,
            decreases 9 - i,
        {
            if cells[i] < 0 || cells[i] > 2 {
                return None;
            }
            i = i + 1;
        }
        Some(Board { cells })
    }

    /// The mark at (row, col).
    pub fn get(&self, row: usize, col: usize) -> (v: i32)
        requires
            self@.len() == 9,
            row < 3,
            col < 3,
        ensures
            v == self@[row as int * 3 + col as int],
    {
        self.cells[row * 3 + col]
    }

    /// Writes `v` at (row, col).
    pub fn set(&mut self, row: usize, col: usize, v: i32)
        requires
            old(self)@.len() == 9,
            row < 3,
            col < 3,
            0 <= v <= 2,
        ensures
            final(self)@ == old(self)@.update(row as int * 3 + col as int, v),
    {
        self.cells[row * 3 + col] = v;
    }

    /// The mark at flat row-major index `k`.
    pub fn get_at(&self, k: usize) -> (v: i32)
        requires
            self@.len() == 9,
            k < 9,
        ensures
            v == self@[k as int],
    {
        self.cells[k]
    }

    /// Writes `v` at flat row-major index `k`.
    pub fn set_at(&mut self, k: usize, v: i32)
        requires
            old(self)@.len() == 9,
            k < 9,
            0 <= v <= 2,
        ensures
            final(self)@ == old(self)@.update(k as int, v),
    {
        self.cells[k] = v;
    }

    /// The nine cell values, row-major.
    pub fn to_cells(&self) -> (r: Vec<i32>)
        ensures
            r@ == self@,
    {
        self.cells.clone()
    }
}

impl PartialEq for Board {
    /// Structural equality: the nine cells agree.
    fn eq(&self, other: &Board) -> (r: bool) {
        if self.cells.len() != other.cells.len() {
            return false;
        }
        let mut i: usize = 0;
        while i < self.cells.len()
            invariant
                i <= self.cells.len(),
                self.cells.len() == other.cells.len(),
                forall|k: int| 0 <= k < i ==> self.cells@[k] == other.cells@[k],
            decreases self.cells.len() - i,
        {
            if self.cells[i] != other.cells[i] {
                return false;
            }
            i = i + 1;
        }
        proof {
            assert(self.cells@ =~= other.cells@);
        }
        true
    }
}

impl Eq for Board {

}

impl vstd::std_specs::cmp::PartialEqSpecImpl for Board {
    open spec fn obeys_eq_spec() -> bool {
        true
    }

    open spec fn eq_spec(&self, other: &Board) -> bool {
        self@ == other@
    }
}

// ---------------------------------------------------------------------------
// Terminal-state evaluation.
// ---------------------------------------------------------------------------

/// Row `i` holds three identical non-blank marks.
pub open spec fn row_all(s: Seq<i32>, i: int) -> bool {
    s[3 * i] != 0 && s[3 * i] == s[3 * i + 1] && s[3 * i + 1] == s[3 * i + 2]
}

/// Column `j` holds three identical non-blank marks.
pub open spec fn col_all(s: Seq<i32>, j: int) -> bool {
    s[j] != 0 && s[j] == s[j + 3] && s[j + 3] == s[j + 6]
}

/// The main diagonal holds three identical non-blank marks.
pub open spec fn diag_all(s: Seq<i32>) -> bool {
    s[0] != 0 && s[0] == s[4] && s[4] == s[8]
}

/// The anti-diagonal holds three identical non-blank marks.
pub open spec fn anti_diag_all(s: Seq<i32>) -> bool {
    s[2] != 0 && s[2] == s[4] && s[4] == s[6]
}

/// No cell is blank.
pub open spec fn full(s: Seq<i32>) -> bool {
    forall|k: int| 0 <= k < 9 ==> #[trigger] s[k] != 0
}

/// Player `p` owns a complete row, column or diagonal.
pub open spec fn line_win(s: Seq<i32>, p: i32) -> bool {
    p != 0 && ((exists|i: int| 0 <= i < 3 && #[trigger] row_all(s, i) && s[3 * i] == p) || (
    exists|j: int| 0 <= j < 3 && #[trigger] col_all(s, j) && s[j] == p) || (diag_all(s) && s[0]
        == p) || (anti_diag_all(s) && s[2] == p))
}

/// The outcome of a board, scanned in the checker's fixed priority order:
/// rows, then columns, then the two diagonals; `BLANK` (ongoing) if no line
/// is complete and a blank cell remains, `TIE` otherwise.
pub open spec fn winner(s: Seq<i32>) -> i32 {
    if row_all(s, 0) {
        s[0]
    } else if row_all(s, 1) {
        s[3]
    } else if row_all(s, 2) {
        s[6]
    } else if col_all(s, 0) {
        s[0]
    } else if col_all(s, 1) {
        s[1]
    } else if col_all(s, 2) {
        s[2]
    } else if diag_all(s) {
        s[0]
    } else if anti_diag_all(s) {
        s[2]
    } else if !full(s) {
        0
    } else {
        3
    }
}

/// On a well-formed board the outcome is one of the four named values, a
/// non-blank non-tie outcome names a player owning a complete line, the
/// outcome is `TIE` exactly when the board is full and no line is complete,
/// and `BLANK` exactly when it is not full and no line is complete.
pub proof fn lemma_winner_characterization(s: Seq<i32>)
    requires
        wf(s),
    ensures
        winner(s) == 0 || winner(s) == 1 || winner(s) == 2 || winner(s) == 3,
        winner(s) == 1 || winner(s) == 2 ==> line_win(s, winner(s)),
        winner(s) == 3 <==> (full(s) && !line_win(s, 1) && !line_win(s, 2)),
        winner(s) == 0 <==> (!full(s) && !line_win(s, 1) && !line_win(s, 2)),
{
    if winner(s) == 3 || winner(s) == 0 {
        assert(!line_win(s, 1) && !line_win(s, 2)) by {
            assert(forall|i: int| 0 <= i < 3 ==> !#[trigger] row_all(s, i));
            assert(forall|j: int| 0 <= j < 3 ==> !#[trigger] col_all(s, j));
        }
    }
    if row_all(s, 0) {
        assert(line_win(s, s[0]));
    } else if row_all(s, 1) {
        assert(line_win(s, s[3]));
    } else if row_all(s, 2) {
        assert(line_win(s, s[6]));
    } else if col_all(s, 0) {
        assert(line_win(s, s[0]));
    } else if col_all(s, 1) {
        assert(line_win(s, s[1]));
    } else if col_all(s, 2) {
        assert(line_win(s, s[2]));
    }
}

/// Whether every cell of the board is occupied.
pub fn is_full(board: &Board) -> (r: bool)
    requires
        board@.len() == 9,
    ensures
        r == full(board@),
{
    let mut k: usize = 0;
    while k < 9
        invariant
            k <= 9,
            board@.len() == 9,
            forall|c: int| 0 <= c < k ==> #[trigger] board@[c] != 0,
        decreases 9 - k,
    {
        if board.get_at(k) == 0 {
            return false;
        }
        k = k + 1;
    }
    true
}

/// Evaluates the terminal state of the board: `PLAYER_X` or `PLAYER_O` for
/// a completed line (rows, then columns, then diagonals), `BLANK` while the
/// game is ongoing, `TIE` when the board is full with no winner. Reads the
/// board only; the board value cannot change under this call.
pub fn check_win(board: &Board) -> (r: i32)
    requires
        board@.len() == 9,
    ensures
        r == winner(board@),
{
    // Rows.
    let mut i: usize = 0;
    while i < 3
        invariant
            i <= 3,
            board@.len() == 9,
            forall|x: int| 0 <= x < i ==> !#[trigger] row_all(board@, x),
        decreases 3 - i,
    {
        let a = board.get(i, 0);
        if a != 0 && a == board.get(i, 1) && board.get(i, 1) == board.get(i, 2) {
            return a;
        }
        i = i + 1;
    }

    // Columns.
    let mut j: usize = 0;
    while j < 3
        invariant
            j <= 3,
            board@.len() == 9,
            forall|x: int| 0 <= x < 3 ==> !#[trigger] row_all(board@, x),
            forall|x: int| 0 <= x < j ==> !#[trigger] col_all(board@, x),
        decreases 3 - j,
    {
        let a = board.get(0, j);
        if a != 0 && a == board.get(1, j) && board.get(1, j) == board.get(2, j) {
            return a;
        }
        j = j + 1;
    }

    // Diagonals.
    if board.get(0, 0) != 0 && board.get(0, 0) == board.get(1, 1) && board.get(1, 1) == board.get(
        2,
        2,
    ) {
        return board.get(0, 0);
    }
    if board.get(0, 2) != 0 && board.get(0, 2) == board.get(1, 1) && board.get(1, 1) == board.get(
        2,
        0,
    ) {
        return board.get(0, 2);
    }

    if !is_full(board) {
        return BLANK;
    }

    TIE
}

// ---------------------------------------------------------------------------
// The game value: exhaustive minimax over the full game tree.
// ---------------------------------------------------------------------------

/// Number of blank cells among the first `k`.
pub open spec fn count_blanks_upto(s: Seq<i32>, k: int) -> nat
    decreases k,
{
    if k <= 0 {
        0
    } else {
        count_blanks_upto(s, k - 1) + if s[k - 1] == 0 {
            1nat
        } else {
            0nat
        }
    }
}

/// Number of blank cells on the board.
pub open spec fn count_blanks(s: Seq<i32>) -> nat {
    count_blanks_upto(s, 9)
}

proof fn lemma_count_blanks_update_upto(s: Seq<i32>, c: int, v: i32, k: int)
    requires
        s.len() == 9,
        k <= 9,
        0 <= c < 9,
        s[c] == 0,
        v != 0,
    ensures
        count_blanks_upto(s.update(c, v), k) == count_blanks_upto(s, k) - if c < k {
            1int
        } else {
            0int
        },
    decreases k,
{
    if k > 0 {
        lemma_count_blanks_update_upto(s, c, v, k - 1);
        if c == k - 1 {
            assert(s.update(c, v)[k - 1] == v);
        } else {
            assert(s.update(c, v)[k - 1] == s[k - 1]);
        }
    }
}

/// Marking a blank cell removes exactly one blank.
pub proof fn lemma_count_blanks_update(s: Seq<i32>, c: int, v: i32)
    requires
        s.len() == 9,
        0 <= c < 9,
        s[c] == 0,
        v != 0,
    ensures
        count_blanks(s.update(c, v)) == count_blanks(s) - 1,
        count_blanks(s) >= 1,
{
    lemma_count_blanks_update_upto(s, c, v, 9);
}

/// The score of a decided outcome: +10 for `PLAYER_X`, -10 for `PLAYER_O`,
/// 0 for a tie.
pub open spec fn score_of(w: i32) -> int {
    if w == 1 {
        10
    } else if w == 2 {
        -10
    } else {
        0
    }
}

/// The mark placed at a node: `PLAYER_X` when maximizing, `PLAYER_O` when
/// minimizing.
pub open spec fn mark_of(is_max: bool) -> i32 {
    if is_max {
        1i32
    } else {
        2i32
    }
}

/// The value of the position reached by playing the mover's mark at blank
/// cell `c`.
pub open spec fn child_val(s: Seq<i32>, is_max: bool, c: int) -> int {
    game_value(s.update(c, mark_of(is_max)), !is_max)
}

/// The exhaustive minimax value of the board with `PLAYER_X` (when
/// `is_max`) or `PLAYER_O` to move: the score of the outcome at a decided
/// board, otherwise the maximum (respectively minimum) of the values of all
/// positions one move away.
pub open spec fn game_value(s: Seq<i32>, is_max: bool) -> int
    decreases count_blanks(s), 10int,
    when s.len() == 9
{
    if winner(s) != 0 {
        score_of(winner(s))
    } else {
        gv_scan(s, is_max, 0)
    }
}

/// The maximum (when `is_max`) or minimum of the values of the positions
/// reached by playing at a blank cell at index `k` or beyond; -100
/// (respectively 100) when no such cell exists.
pub open spec fn gv_scan(s: Seq<i32>, is_max: bool, k: int) -> int
    decreases count_blanks(s), 9 - k,
    when s.len() == 9
{
    if k < 0 || k >= 9 {
        if is_max {
            -100
        } else {
            100
        }
    } else if s[k] == 0 {
        proof {
            lemma_count_blanks_update(s, k, mark_of(is_max));
        }
        let v = game_value(s.update(k, mark_of(is_max)), !is_max);
        let rest = gv_scan(s, is_max, k + 1);
        if is_max {
            if v >= rest {
                v
            } else {
                rest
            }
        } else {
            if v <= rest {
                v
            } else {
                rest
            }
        }
    } else {
        gv_scan(s, is_max, k + 1)
    }
}

/// The game value always lies between the two decided scores.
pub proof fn lemma_game_value_range(s: Seq<i32>, is_max: bool)
    requires
        s.len() == 9,
    ensures
        -10 <= game_value(s, is_max) <= 10,
    decreases count_blanks(s), 10int,
{
    if winner(s) == 0 {
        assert(!full(s));
        lemma_gv_scan_range(s, is_max, 0);
        let c = choose|c: int| 0 <= c < 9 && #[trigger] s[c] == 0;
        assert(0 <= c < 9 && s[c] == 0);
    }
}

proof fn lemma_gv_scan_range(s: Seq<i32>, is_max: bool, k: int)
    requires
        s.len() == 9,
        0 <= k <= 9,
    ensures
        (exists|c: int| k <= c < 9 && #[trigger] s[c] == 0) ==> -10 <= gv_scan(s, is_max, k) <= 10,
        (forall|c: int| k <= c < 9 ==> #[trigger] s[c] != 0) ==> gv_scan(s, is_max, k) == (if is_max {
            -100int
        } else {
            100int
        }),
    decreases count_blanks(s), 9 - k,
{
    if k < 9 {
        lemma_gv_scan_range(s, is_max, k + 1);
        if s[k] == 0 {
            lemma_count_blanks_update(s, k, mark_of(is_max));
            lemma_game_value_range(s.update(k, mark_of(is_max)), !is_max);
            if exists|c: int| k + 1 <= c < 9 && #[trigger] s[c] == 0 {
            } else {
                assert(forall|c: int| k + 1 <= c < 9 ==> #[trigger] s[c] != 0);
            }
        } else {
            if exists|c: int| k <= c < 9 && #[trigger] s[c] == 0 {
                let c = choose|c: int| k <= c < 9 && #[trigger] s[c] == 0;
                assert(k + 1 <= c < 9 && s[c] == 0);
            }
        }
    }
}

/// The scan from `k` bounds every child value at or beyond `k`, is attained
/// by one of them when a blank exists there, and is the sentinel otherwise.
proof fn lemma_gv_scan_props(s: Seq<i32>, is_max: bool, k: int)
    requires
        s.len() == 9,
        0 <= k <= 9,
    ensures
        forall|c: int|
            k <= c < 9 && s[c] == 0 ==> (if is_max {
                #[trigger] child_val(s, is_max, c) <= gv_scan(s, is_max, k)
            } else {
                child_val(s, is_max, c) >= gv_scan(s, is_max, k)
            }),
        (exists|c: int| k <= c < 9 && #[trigger] s[c] == 0) ==> exists|c: int|
            k <= c < 9 && s[c] == 0 && #[trigger] child_val(s, is_max, c) == gv_scan(s, is_max, k),
        (forall|c: int| k <= c < 9 ==> #[trigger] s[c] != 0) ==> gv_scan(s, is_max, k) == (if is_max {
            -100int
        } else {
            100int
        }),
    decreases 9 - k,
{
    if k < 9 {
        lemma_gv_scan_props(s, is_max, k + 1);
        if s[k] == 0 {
            lemma_count_blanks_update(s, k, mark_of(is_max));
            lemma_game_value_range(s.update(k, mark_of(is_max)), !is_max);
            assert(child_val(s, is_max, k) == game_value(s.update(k, mark_of(is_max)), !is_max));
            if exists|c: int| k + 1 <= c < 9 && #[trigger] s[c] == 0 {
            } else {
                assert(forall|c: int| k + 1 <= c < 9 ==> #[trigger] s[c] != 0);
            }
        }
    }
}

// ---------------------------------------------------------------------------
// Alpha-beta pruned minimax search.
// ---------------------------------------------------------------------------

/// Minimax search with alpha-beta pruning. `PLAYER_X` maximizes and
/// `PLAYER_O` minimizes; the search window is the open interval
/// `(alpha, beta)`. The result `r` brackets the exhaustive game value in
/// the fail-soft sense: it equals the game value whenever it lies strictly
/// inside the window, is an upper bound on it when `r < beta`, and a lower
/// bound when `r > alpha`; with the full window the result is exact. Every
/// trial placement is reverted: the board is unchanged on return.
pub fn minimax(board: &mut Board, is_max: bool, alpha: i32, beta: i32) -> (r: i32)
    requires
        wf(old(board)@),
        alpha < beta,
    ensures
        final(board)@ == old(board)@,
        r == -10 || r == 0 || r == 10,
        winner(old(board)@) != 0 ==> r == score_of(winner(old(board)@)),
        r < beta ==> game_value(old(board)@, is_max) <= r,
        r > alpha ==> game_value(old(board)@, is_max) >= r,
    decreases count_blanks(board@),
{
    let ghost s = board@;
    let w = check_win(board);
    if w == PLAYER_X {
        return 10;
    }
    if w == PLAYER_O {
        return -10;
    }
    if w == TIE {
        return 0;
    }
    proof {
        lemma_winner_characterization(s);
        assert(winner(s) == 0);
        assert(!full(s));
        lemma_gv_scan_props(s, is_max, 0);
    }

    if is_max {
        let mut best: i32 = i32::MIN;
        let mut a: i32 = alpha;
        let mut k: usize = 0;
        while k < 9
            invariant_except_break
                s == old(board)@,
                board@ == s,
                wf(s),
                winner(s) == 0,
                alpha < beta,
                k <= 9,
                a == if best > alpha { best } else { alpha },
                best < beta,
                best == i32::MIN || best == -10 || best == 0 || best == 10,
                forall|c: int| 0 <= c < k && s[c] == 0 ==> #[trigger] child_val(s, true, c) <= best,
                best > alpha ==> exists|c: int|
                    0 <= c < k && s[c] == 0 && #[trigger] child_val(s, true, c) >= best,
                best == i32::MIN ==> forall|c: int| 0 <= c < k ==> #[trigger] s[c] != 0,
            ensures
                board@ == s,
                best == -10 || best == 0 || best == 10,
                best < beta ==> forall|c: int|
                    0 <= c < 9 && s[c] == 0 ==> #[trigger] child_val(s, true, c) <= best,
                best > alpha ==> exists|c: int|
                    0 <= c < 9 && s[c] == 0 && #[trigger] child_val(s, true, c) >= best,
            decreases 9 - k,
        {
            if board.get_at(k) == 0 {
                board.set_at(k, PLAYER_X);
                proof {
                    lemma_count_blanks_update(s, k as int, 1);
                }
                let v = minimax(board, false, a, beta);
                board.set_at(k, BLANK);
                proof {
                    assert(board@ =~= s);
                    assert(child_val(s, true, k as int) == game_value(s.update(k as int, 1i32), false));
                }
                if v > best {
                    best = v;
                }
                if best > a {
                    a = best;
                }
                if beta <= a {
                    proof {
                        assert(best >= beta);
                        assert(child_val(s, true, k as int) >= v);
                        assert(best == v);
                    }
                    break;
                }
            }
            k = k + 1;
        }
        proof {
            if best < beta {
                let c = choose|c: int|
                    0 <= c < 9 && s[c] == 0 && #[trigger] child_val(s, true, c) == gv_scan(
                        s,
                        true,
                        0,
                    );
                assert(game_value(s, true) <= best);
            }
            if best > alpha {
                let c = choose|c: int|
                    0 <= c < 9 && s[c] == 0 && #[trigger] child_val(s, true, c) >= best;
                assert(game_value(s, true) >= child_val(s, true, c));
            }
        }
        return best;
    }

    let mut best: i32 = i32::MAX;
    let mut bt: i32 = beta;
    let mut k: usize = 0;
    while k < 9
        invariant_except_break
            s == old(board)@,
            board@ == s,
            wf(s),
            winner(s) == 0,
            alpha < beta,
            k <= 9,
            bt == if best < beta { best } else { beta },
            best > alpha,
            best == i32::MAX || best == -10 || best == 0 || best == 10,
            forall|c: int| 0 <= c < k && s[c] == 0 ==> #[trigger] child_val(s, false, c) >= best,
            best < beta ==> exists|c: int|
                0 <= c < k && s[c] == 0 && #[trigger] child_val(s, false, c) <= best,
            best == i32::MAX ==> forall|c: int| 0 <= c < k ==> #[trigger] s[c] != 0,
        ensures
            board@ == s,
            best == -10 || best == 0 || best == 10,
            best > alpha ==> forall|c: int|
                0 <= c < 9 && s[c] == 0 ==> #[trigger] child_val(s, false, c) >= best,
            best < beta ==> exists|c: int|
                0 <= c < 9 && s[c] == 0 && #[trigger] child_val(s, false, c) <= best,
        decreases 9 - k,
    {
        if board.get_at(k) == 0 {
            board.set_at(k, PLAYER_O);
            proof {
                lemma_count_blanks_update(s, k as int, 2);
            }
            let v = minimax(board, true, alpha, bt);
            board.set_at(k, BLANK);
            proof {
                assert(board@ =~= s);
                assert(child_val(s, false, k as int) == game_value(s.update(k as int, 2i32), true));
            }
            if v < best {
                best = v;
            }
            if best < bt {
                bt = best;
            }
            if bt <= alpha {
                proof {
                    assert(best <= alpha);
                    assert(child_val(s, false, k as int) <= v);
                    assert(best == v);
                }
                break;
            }
        }
        k = k + 1;
    }
    proof {
        if best > alpha {
            let c = choose|c: int|
                0 <= c < 9 && s[c] == 0 && #[trigger] child_val(s, false, c) == gv_scan(
                    s,
                    false,
                    0,
                );
            assert(game_value(s, false) >= best);
        }
        if best < beta {
            let c = choose|c: int|
                0 <= c < 9 && s[c] == 0 && #[trigger] child_val(s, false, c) <= best;
            assert(game_value(s, false) <= child_val(s, false, c));
        }
    }
    best
}

// ---------------------------------------------------------------------------
// Top-level move selection.
// ---------------------------------------------------------------------------

/// `c` is the cell the top-level search selects for `PLAYER_X`: blank,
/// strictly better than every earlier blank cell (row-major) and at least
/// as good as every later one.
pub open spec fn is_first_best(s: Seq<i32>, c: int) -> bool {
    &&& 0 <= c < 9
    &&& s[c] == 0
    &&& forall|d: int|
        0 <= d < c && s[d] == 0 ==> #[trigger] child_val(s, true, d) < child_val(s, true, c)
    &&& forall|d: int|
        c < d < 9 && s[d] == 0 ==> #[trigger] child_val(s, true, d) <= child_val(s, true, c)
}

/// At most one cell satisfies `is_first_best`: the selection policy (first
/// maximum in row-major order) is deterministic, so the contract of
/// `find_best_move` pins its result to a single move.
pub proof fn lemma_first_best_unique(s: Seq<i32>, c1: int, c2: int)
    requires
        is_first_best(s, c1),
        is_first_best(s, c2),
    ensures
        c1 == c2,
{
    if c1 < c2 {
        assert(child_val(s, true, c1) < child_val(s, true, c2));
        assert(child_val(s, true, c2) <= child_val(s, true, c1));
    }
    if c2 < c1 {
        assert(child_val(s, true, c2) < child_val(s, true, c1));
        assert(child_val(s, true, c1) <= child_val(s, true, c2));
    }
}

proof fn lemma_first_best_scan(s: Seq<i32>, k: int, bc: int)
    requires
        0 <= bc < k <= 9,
        s[bc] == 0,
        forall|d: int|
            0 <= d < bc && s[d] == 0 ==> #[trigger] child_val(s, true, d) < child_val(s, true, bc),
        forall|d: int|
            bc < d < k && s[d] == 0 ==> #[trigger] child_val(s, true, d) <= child_val(s, true, bc),
    ensures
        exists|c: int| is_first_best(s, c),
    decreases 9 - k,
{
    if k == 9 {
        assert(is_first_best(s, bc));
    } else if s[k] == 0 && child_val(s, true, k) > child_val(s, true, bc) {
        lemma_first_best_scan(s, k + 1, k);
    } else {
        lemma_first_best_scan(s, k + 1, bc);
    }
}

/// A board with a blank cell has a first-best cell.
pub proof fn lemma_first_best_exists(s: Seq<i32>, c0: int)
    requires
        0 <= c0 < 9,
        s[c0] == 0,
    ensures
        exists|c: int| is_first_best(s, c),
    decreases c0,
{
    if exists|d: int| 0 <= d < c0 && #[trigger] s[d] == 0 {
        let d = choose|d: int| 0 <= d < c0 && #[trigger] s[d] == 0;
        lemma_first_best_exists(s, d);
    } else {
        lemma_first_best_scan(s, c0 + 1, c0);
    }
}

/// Top-level minimax move selection for `PLAYER_X`: tries every blank cell
/// in row-major order, evaluates each with a full-window alpha-beta search
/// as if `PLAYER_O` moved next, and keeps the first cell whose value
/// strictly exceeds all values seen so far (the seed lies below every
/// score, so the first blank cell always qualifies). Returns `None` exactly
/// when no blank cell is left; on a board where every move loses it still
/// returns the first row-major maximal cell. The board is returned to its
/// original state: every trial placement is reverted.
pub fn find_best_move(board: &mut Board, player: i32) -> (r: Option<Move>)
    requires
        wf(old(board)@),
        player == PLAYER_X,
    ensures
        final(board)@ == old(board)@,
        (r is None) <==> full(old(board)@),
        match r {
            Some(m) => 0 <= m.row < 3 && 0 <= m.col < 3 && is_first_best(
                old(board)@,
                m.row * 3 + m.col,
            ),
            None => true,
        },
{
    let ghost s = board@;
    let mut best_val: i32 = -11;
    let mut best_k: usize = 0;
    let mut found = false;
    let mut k: usize = 0;
    while k < 9
        invariant
            s == old(board)@,
            board@ == s,
            wf(s),
            k <= 9,
            best_k < 9,
            !found ==> best_val == -11 && (forall|c: int| 0 <= c < k ==> #[trigger] s[c] != 0),
            found ==> {
                &&& -10 <= best_val <= 10
                &&& best_k < k
                &&& s[best_k as int] == 0
                &&& child_val(s, true, best_k as int) == best_val
                &&& forall|d: int|
                    0 <= d < best_k && s[d] == 0 ==> #[trigger] child_val(s, true, d) < best_val
                &&& forall|d: int|
                    best_k < d < k && s[d] == 0 ==> #[trigger] child_val(s, true, d) <= best_val
            },
        decreases 9 - k,
    {
        if board.get_at(k) == 0 {
            board.set_at(k, PLAYER_X);
            proof {
                lemma_count_blanks_update(s, k as int, 1);
            }
            let move_val = minimax(board, false, i32::MIN, i32::MAX);
            board.set_at(k, BLANK);
            proof {
                assert(board@ =~= s);
                assert(child_val(s, true, k as int) == move_val);
            }
            if move_val > best_val {
                best_k = k;
                best_val = move_val;
                found = true;
            }
        }
        k = k + 1;
    }
    if !found {
        return None;
    }
    let row = best_k / 3;
    let col = best_k % 3;
    proof {
        assert(row < 3 && col < 3 && row * 3 + col == best_k);
        assert(is_first_best(s, best_k as int));
        assert(!full(s));
    }
    Some(Move { row: row as i32, col: col as i32 })
}

/// Scans the blank cells in row-major order and returns the first where
/// placing `player`'s mark wins the game at once; `None` when no such cell
/// exists. Every trial placement is reverted.
pub fn winning_move(board: &mut Board, player: i32) -> (r: Option<Move>)
    requires
        wf(old(board)@),
        player == PLAYER_X || player == PLAYER_O,
    ensures
        final(board)@ == old(board)@,
        match r {
            Some(m) => {
                &&& 0 <= m.row < 3 && 0 <= m.col < 3
                &&& old(board)@[m.row * 3 + m.col] == 0
                &&& winner(old(board)@.update(m.row * 3 + m.col, player)) == player
                &&& forall|d: int|
                    0 <= d < m.row * 3 + m.col && old(board)@[d] == 0 ==> winner(
                        #[trigger] old(board)@.update(d, player),
                    ) != player
            },
            None => forall|d: int|
                0 <= d < 9 && old(board)@[d] == 0 ==> winner(
                    #[trigger] old(board)@.update(d, player),
                ) != player,
        },
{
    let ghost s = board@;
    let mut k: usize = 0;
    while k < 9
        invariant
            s == old(board)@,
            board@ == s,
            wf(s),
            k <= 9,
            forall|d: int|
                0 <= d < k && s[d] == 0 ==> winner(#[trigger] s.update(d, player)) != player,
            player == PLAYER_X || player == PLAYER_O,
        decreases 9 - k,
    {
        if board.get_at(k) == 0 {
            board.set_at(k, player);
            let w = check_win(board);
            board.set_at(k, BLANK);
            proof {
                assert(board@ =~= s);
            }
            if w == player {
                let row = k / 3;
                let col = k % 3;
                proof {
                    assert(row < 3 && col < 3 && row * 3 + col == k);
                }
                return Some(Move { row: row as i32, col: col as i32 });
            }
        }
        k = k + 1;
    }
    None
}

/// Relies on rand::Rng::gen_range over `0..n` (rand's thread-local
/// generator): returns a uniformly distributed value below `n`.
#[verifier::external_body]
fn rand_below(n: usize) -> (r: usize)
    requires
        n > 0,
    ensures
        r < n,
{
    rand::thread_rng().gen_range(0..n)
}

/// Collects the blank cells in row-major order and returns one of them at
/// random; `None` when the board is full. No distribution is promised
/// beyond every returned move naming a blank cell.
pub fn random_move(board: &Board) -> (r: Option<Move>)
    requires
        wf(board@),
    ensures
        (r is Some) <==> !full(board@),
        match r {
            Some(m) => 0 <= m.row < 3 && 0 <= m.col < 3 && board@[m.row * 3 + m.col] == 0,
            None => true,
        },
{
    let mut available: Vec<Move> = Vec::new();
    let mut k: usize = 0;
    while k < 9
        invariant
            wf(board@),
            k <= 9,
            forall|x: int|
                0 <= x < available@.len() ==> {
                    &&& 0 <= (#[trigger] available@[x]).row < 3
                    &&& 0 <= available@[x].col < 3
                    &&& board@[available@[x].row * 3 + available@[x].col] == 0
                },
            available@.len() > 0 <==> exists|c: int| 0 <= c < k && #[trigger] board@[c] == 0,
        decreases 9 - k,
    {
        if board.get_at(k) == 0 {
            let row = k / 3;
            let col = k % 3;
            proof {
                assert(row < 3 && col < 3 && row * 3 + col == k);
            }
            available.push(Move { row: row as i32, col: col as i32 });
        }
        k = k + 1;
    }
    if available.len() == 0 {
        proof {
            assert(forall|c: int| 0 <= c < 9 ==> #[trigger] board@[c] != 0);
        }
        return None;
    }
    let idx = rand_below(available.len());
    let m = available[idx];
    Some(m)
}

/// Computes the computer's move (always playing `PLAYER_X`) for the given
/// difficulty level.
///
/// - `LEVEL_EASY`: the first immediately winning move if one exists,
///   otherwise a random available move.
/// - `LEVEL_HARD`: the full minimax move selection of `find_best_move`.
/// - any other level is unhandled and yields the explicit empty result.
///
/// The board is unchanged on return.
pub fn computermove(board: &mut Board, level: i32) -> (r: Option<Move>)
    requires
        wf(old(board)@),
    ensures
        final(board)@ == old(board)@,
        level == LEVEL_EASY ==> (if exists|c: int|
            0 <= c < 9 && old(board)@[c] == 0 && winner(#[trigger] old(board)@.update(c, 1i32))
                == 1 {
            match r {
                Some(m) => {
                    &&& 0 <= m.row < 3 && 0 <= m.col < 3
                    &&& old(board)@[m.row * 3 + m.col] == 0
                    &&& winner(old(board)@.update(m.row * 3 + m.col, 1i32)) == 1
                    &&& forall|d: int|
                        0 <= d < m.row * 3 + m.col && old(board)@[d] == 0 ==> winner(
                            #[trigger] old(board)@.update(d, 1i32),
                        ) != 1
                },
                None => false,
            }
        } else {
            ((r is Some) <==> !full(old(board)@)) && (match r {
                Some(m) => 0 <= m.row < 3 && 0 <= m.col < 3 && old(board)@[m.row * 3 + m.col]
                    == 0,
                None => true,
            })
        }),
        level == LEVEL_HARD ==> {
            &&& ((r is None) <==> full(old(board)@))
            &&& (match r {
                Some(m) => 0 <= m.row < 3 && 0 <= m.col < 3 && is_first_best(
                    old(board)@,
                    m.row * 3 + m.col,
                ),
                None => true,
            })
        },
        level != LEVEL_EASY && level != LEVEL_HARD ==> r is None,
{
    if level == LEVEL_EASY {
        let wm = winning_move(board, PLAYER_X);
        if wm.is_some() {
            return wm;
        }
        return random_move(board);
    }

    if level == LEVEL_HARD {
        return find_best_move(board, PLAYER_X);
    }

    None
}

// ---------------------------------------------------------------------------
// The engine never loses from a non-losing position.
// ---------------------------------------------------------------------------

/// Every game continuation in which `PLAYER_X` plays the engine's chosen
/// cell (`is_first_best`) at each of its turns, while `PLAYER_O` plays any
/// blank cell, avoids a `PLAYER_O` win: every reachable decided board has
/// outcome `PLAYER_X` or a tie, and the engine always has a move while the
/// game is undecided.
pub open spec fn x_never_loses(s: Seq<i32>, x_turn: bool) -> bool
    decreases count_blanks(s),
    when s.len() == 9
{
    if winner(s) != 0 {
        winner(s) != 2
    } else if x_turn {
        proof {
            if exists|c: int| is_first_best(s, c) {
                let c = choose|c: int| is_first_best(s, c);
                lemma_count_blanks_update(s, c, 1i32);
            }
        }
        (exists|c: int| is_first_best(s, c)) && x_never_loses(
            s.update(choose|c: int| is_first_best(s, c), 1i32),
            false,
        )
    } else {
        proof {
            assert forall|c: int| 0 <= c < 9 && s[c] == 0 implies count_blanks(
                #[trigger] s.update(c, 2i32),
            ) < count_blanks(s) by {
                lemma_count_blanks_update(s, c, 2i32);
            }
        }
        forall|c: int|
            0 <= c < 9 && s[c] == 0 ==> x_never_loses(#[trigger] s.update(c, 2i32), true)
    }
}

/// From any position whose exhaustive minimax value for the side to move is
/// not a loss for `PLAYER_X`, the engine's play never loses against any
/// opponent: on an undecided board the engine always has a move, and no
/// continuation it allows ends in a `PLAYER_O` win. In particular this
/// holds from any position the perfect game cannot already count against
/// `PLAYER_X`.
pub proof fn lemma_engine_never_loses(s: Seq<i32>, x_turn: bool)
    requires
        wf(s),
        game_value(s, x_turn) >= 0,
    ensures
        x_never_loses(s, x_turn),
    decreases count_blanks(s),
{
    lemma_winner_characterization(s);
    let w = winner(s);
    if w != 0 {
        assert(w != 2);
    } else if x_turn {
        lemma_gv_scan_props(s, true, 0);
        assert(!full(s));
        let cm = choose|c: int|
            0 <= c < 9 && s[c] == 0 && #[trigger] child_val(s, true, c) == gv_scan(s, true, 0);
        assert(0 <= cm < 9 && s[cm] == 0 && child_val(s, true, cm) == gv_scan(s, true, 0)) by {
            let cw = choose|c: int| 0 <= c < 9 && #[trigger] s[c] == 0;
            assert(0 <= cw < 9 && s[cw] == 0);
        }
        lemma_first_best_exists(s, cm);
        let cb = choose|c: int| is_first_best(s, c);
        assert(is_first_best(s, cb));
        assert(child_val(s, true, cm) <= child_val(s, true, cb));
        assert(child_val(s, true, cb) == game_value(s, true));
        lemma_count_blanks_update(s, cb, 1i32);
        lemma_engine_never_loses(s.update(cb, 1i32), false);
    } else {
        lemma_gv_scan_props(s, false, 0);
        assert forall|c: int| 0 <= c < 9 && s[c] == 0 implies x_never_loses(
            #[trigger] s.update(c, 2i32),
            true,
        ) by {
            assert(child_val(s, false, c) >= gv_scan(s, false, 0));
            assert(game_value(s.update(c, 2i32), true) == child_val(s, false, c));
            lemma_count_blanks_update(s, c, 2i32);
            lemma_engine_never_loses(s.update(c, 2i32), true);
        }
    }
}

} // verus!
