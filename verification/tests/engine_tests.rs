use game_logic::tic_tac_toe::{
    check_win, computermove, find_best_move, is_full, minimax, random_move, winning_move, Board,
    Move, BLANK, LEVEL_EASY, LEVEL_HARD, PLAYER_O, PLAYER_X, TIE,
};

fn board(cells: [i32; 9]) -> Board {
    Board::from_cells(cells.to_vec()).expect("well-formed board")
}

#[test]
fn from_cells_rejects_malformed_input() {
    assert!(Board::from_cells(vec![0; 8]).is_none());
    assert!(Board::from_cells(vec![0; 10]).is_none());
    assert!(Board::from_cells(vec![0, 0, 0, 0, 3, 0, 0, 0, 0]).is_none());
    assert!(Board::from_cells(vec![0, 0, 0, 0, -1, 0, 0, 0, 0]).is_none());
    assert!(Board::from_cells(vec![0; 9]).is_some());
}

#[test]
fn get_and_set_access_cells_row_major() {
    let mut b = Board::new();
    b.set(1, 2, PLAYER_O);
    b.set(2, 0, PLAYER_X);
    assert_eq!(b.get(1, 2), PLAYER_O);
    assert_eq!(b.get(0, 0), BLANK);
    assert_eq!(b.to_cells(), vec![0, 0, 0, 0, 0, 2, 1, 0, 0]);
}

#[test]
fn evaluate_empty_board_is_ongoing() {
    assert_eq!(check_win(&Board::new()), BLANK);
}

#[test]
fn evaluate_row_column_and_diagonal_wins() {
    // Middle row of X.
    assert_eq!(check_win(&board([0, 0, 2, 1, 1, 1, 2, 0, 0])), PLAYER_X);
    // Left column of O.
    assert_eq!(check_win(&board([2, 1, 0, 2, 1, 0, 2, 0, 1])), PLAYER_O);
    // Main diagonal of X.
    assert_eq!(check_win(&board([1, 2, 0, 2, 1, 0, 0, 0, 1])), PLAYER_X);
    // Anti-diagonal of O.
    assert_eq!(check_win(&board([1, 1, 2, 0, 2, 1, 2, 0, 0])), PLAYER_O);
}

#[test]
fn evaluate_full_board_without_line_is_a_tie() {
    // X O X / X O O / O X X: no line, no blank.
    assert_eq!(check_win(&board([1, 2, 1, 1, 2, 2, 2, 1, 1])), TIE);
}

#[test]
fn evaluate_does_not_mutate_the_board() {
    let cells = [1, 2, 1, 0, 2, 0, 0, 0, 1];
    let b = board(cells);
    let before = b.to_cells();
    let _ = check_win(&b);
    let _ = is_full(&b);
    assert_eq!(b.to_cells(), before);
    assert!(b == board(cells));
}

#[test]
fn minimax_on_the_empty_board_is_a_draw() {
    let mut b = Board::new();
    assert_eq!(minimax(&mut b, true, i32::MIN, i32::MAX), 0);
    assert!(b == Board::new());
}

#[test]
fn best_move_takes_an_immediate_win() {
    // X X _ / O O _ / _ _ _: X completes the top row.
    let mut b = board([1, 1, 0, 2, 2, 0, 0, 0, 0]);
    let m = find_best_move(&mut b, PLAYER_X).expect("a move is available");
    assert_eq!(m, Move { row: 0, col: 2 });
}

#[test]
fn best_move_blocks_an_immediate_loss() {
    // X _ _ / _ X O / _ _ O: O threatens the right column; X blocks at (0, 2)
    // (X's own diagonal is already taken at (2, 2)).
    let mut b = board([1, 0, 0, 0, 1, 2, 0, 0, 2]);
    let m = find_best_move(&mut b, PLAYER_X).expect("a move is available");
    assert_eq!(m, Move { row: 0, col: 2 });
}

#[test]
fn best_move_leaves_the_board_unchanged() {
    let cells = [1, 0, 0, 0, 2, 0, 0, 0, 0];
    let mut b = board(cells);
    let _ = find_best_move(&mut b, PLAYER_X);
    assert!(b == board(cells));
    let mut empty = Board::new();
    let _ = find_best_move(&mut empty, PLAYER_X);
    assert!(empty == Board::new());
}

#[test]
fn best_move_returns_none_only_on_a_full_board() {
    let mut b = board([1, 2, 1, 1, 2, 2, 2, 1, 1]);
    assert!(find_best_move(&mut b, PLAYER_X).is_none());
    let mut hard = board([1, 2, 1, 1, 2, 2, 2, 1, 1]);
    assert!(computermove(&mut hard, LEVEL_HARD).is_none());
}

#[test]
fn best_move_on_a_lost_board_still_picks_the_first_cell() {
    // O has already won: every placement evaluates to a loss, all equally,
    // so the selector returns the first blank cell in row-major order —
    // never the empty result while blanks remain.
    let mut b = board([2, 2, 2, 1, 1, 0, 0, 0, 0]);
    let m = find_best_move(&mut b, PLAYER_X).expect("blank cells remain");
    assert_eq!(m, Move { row: 1, col: 2 });
    let mut hard = board([2, 2, 2, 1, 1, 0, 0, 0, 0]);
    assert_eq!(
        computermove(&mut hard, LEVEL_HARD),
        Some(Move { row: 1, col: 2 })
    );
}

#[test]
fn winning_move_finds_the_first_one_move_win() {
    // X can win at (0, 2) and also at (2, 0); row-major scan returns (0, 2).
    let mut b = board([1, 1, 0, 1, 2, 0, 0, 2, 0]);
    let m = winning_move(&mut b, PLAYER_X).expect("a winning move exists");
    assert_eq!(m, Move { row: 0, col: 2 });
    assert!(winning_move(&mut board([0; 9]), PLAYER_X).is_none());
}

#[test]
fn random_move_returns_some_blank_cell() {
    let cells = [1, 2, 1, 2, 0, 1, 2, 1, 2];
    let m = random_move(&board(cells)).expect("one cell is blank");
    assert_eq!(m, Move { row: 1, col: 1 });
    assert!(random_move(&board([1, 2, 1, 1, 2, 2, 2, 1, 1])).is_none());
    let m2 = random_move(&Board::new()).expect("board is empty");
    assert!(0 <= m2.row && m2.row < 3 && 0 <= m2.col && m2.col < 3);
}

#[test]
fn easy_level_takes_a_one_move_win_over_a_random_move() {
    // X wins at (2, 2); easy play must pick it, never a random blank.
    let cells = [1, 2, 0, 2, 1, 0, 0, 0, 0];
    for _ in 0..20 {
        let mut b = board(cells);
        let m = computermove(&mut b, LEVEL_EASY).expect("a move is available");
        assert_eq!(m, Move { row: 2, col: 2 });
        assert!(b == board(cells));
    }
}

#[test]
fn easy_level_with_one_blank_and_no_win_fills_it() {
    // The single blank (1, 1) wins no line for X, so the random picker must
    // return exactly that cell.
    let cells = [1, 2, 1, 2, 0, 1, 1, 1, 2];
    let mut b = board(cells);
    let m = computermove(&mut b, LEVEL_EASY).expect("a move is available");
    assert_eq!(m, Move { row: 1, col: 1 });
}

#[test]
fn hard_level_dispatches_to_the_full_search() {
    let mut b = board([1, 1, 0, 2, 2, 0, 0, 0, 0]);
    let m = computermove(&mut b, LEVEL_HARD).expect("a move is available");
    assert_eq!(m, Move { row: 0, col: 2 });
}

#[test]
fn unrecognized_level_returns_the_empty_result() {
    assert!(computermove(&mut Board::new(), 1).is_none());
    assert!(computermove(&mut Board::new(), -1).is_none());
    assert!(computermove(&mut Board::new(), 3).is_none());
}

fn engine_never_loses_from(cells: [i32; 9], x_turn: bool) {
    let b = board(cells);
    let w = check_win(&b);
    if w != BLANK {
        assert_ne!(w, PLAYER_O, "the engine lost a game");
        return;
    }
    if x_turn {
        let mut b = board(cells);
        let m = find_best_move(&mut b, PLAYER_X).expect("engine had no move while undecided");
        let mut next = cells;
        let k = (m.row * 3 + m.col) as usize;
        assert_eq!(next[k], 0);
        next[k] = PLAYER_X;
        engine_never_loses_from(next, false);
    } else {
        for k in 0..9 {
            if cells[k] == 0 {
                let mut next = cells;
                next[k] = PLAYER_O;
                engine_never_loses_from(next, true);
            }
        }
    }
}

#[test]
fn hard_engine_never_loses_from_the_empty_board() {
    // Exhaustive adversarial play: the engine moves first and the opponent
    // tries every reply at every turn.
    engine_never_loses_from([0; 9], true);
}
