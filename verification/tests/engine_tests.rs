use tic_tac_toe::board::{check_draw, check_victory, Board, Mark};
use tic_tac_toe::engine::{computer_move, minimax, Difficulty};

fn board_from(rows: [[Mark; 3]; 3]) -> Board {
    let mut b = Board::new();
    for r in 0..3 {
        for c in 0..3 {
            b.set(r, c, rows[r][c]);
        }
    }
    b
}

fn count_empty_cells(b: &Board) -> usize {
    let mut n = 0;
    for r in 0..3 {
        for c in 0..3 {
            if b.get(r, c) == Mark::Empty {
                n += 1;
            }
        }
    }
    n
}

const E: Mark = Mark::Empty;
const A: Mark = Mark::A;
const B: Mark = Mark::B;

#[test]
fn minimax_scores_a_won_board_by_depth() {
    // p2 = B has a completed row: 10 - depth, here 10 - 3 = 7.
    let mut b = board_from([[B, B, B], [A, A, E], [E, E, E]]);
    assert_eq!(minimax(&mut b, 3, true, A, B), 7);
    // The same board seen from the other side: p2 = A has no line,
    // p1 = B does: depth - 10, here 3 - 10 = -7.
    let mut b2 = board_from([[B, B, B], [A, A, E], [E, E, E]]);
    assert_eq!(minimax(&mut b2, 3, false, B, A), -7);
}

#[test]
fn minimax_scores_a_full_draw_as_zero_for_both_roles() {
    // Full board, no line for either mark: exactly 0 whichever role
    // is maximizing, and at any depth.
    let rows = [[A, A, B], [B, B, A], [A, B, A]];
    let mut b = board_from(rows);
    assert_eq!(minimax(&mut b, 0, true, A, B), 0);
    let mut b2 = board_from(rows);
    assert_eq!(minimax(&mut b2, 0, false, A, B), 0);
    let mut b3 = board_from(rows);
    assert_eq!(minimax(&mut b3, 5, true, B, A), 0);
}

#[test]
fn minimax_is_deterministic() {
    let rows = [[A, A, E], [B, B, E], [E, E, E]];
    let mut b = board_from(rows);
    let first = minimax(&mut b, 0, true, B, A);
    // The search hands the board back unchanged, so the same call can
    // be repeated on it and must return the same score.
    let second = minimax(&mut b, 0, true, B, A);
    assert_eq!(first, second);
    let mut b2 = board_from(rows);
    assert_eq!(minimax(&mut b2, 0, true, B, A), first);
}

#[test]
fn minimax_leaves_the_board_unchanged() {
    let rows = [[A, E, E], [E, B, E], [E, E, E]];
    let mut b = board_from(rows);
    minimax(&mut b, 0, true, A, B);
    for r in 0..3 {
        for c in 0..3 {
            assert_eq!(b.get(r, c), rows[r][c]);
        }
    }
}

#[test]
fn minimax_sees_an_immediate_win() {
    // A to move as the maximizer completes its row at once: the win
    // lands after one ply, so the score is 10 - 1 = 9.
    let mut b = board_from([[A, A, E], [B, B, E], [E, E, E]]);
    assert_eq!(minimax(&mut b, 0, true, B, A), 9);
}

#[test]
fn hard_completes_its_own_row() {
    // The computer plays A: the winning cell (0, 2) beats every
    // alternative, blocking included.
    let mut b = board_from([[A, A, E], [B, B, E], [E, E, E]]);
    computer_move(&mut b, Difficulty::Hard, B, A);
    assert_eq!(b.get(0, 2), A);
    assert!(check_victory(&b, A));
}

#[test]
fn hard_blocks_an_immediate_threat() {
    // The computer plays B and cannot win at once; it must block A's
    // open row at (0, 2).
    let mut b = board_from([[A, A, E], [E, B, E], [E, E, E]]);
    computer_move(&mut b, Difficulty::Hard, A, B);
    assert_eq!(b.get(0, 2), B);
}

#[test]
fn hard_opens_in_the_first_corner() {
    // On an empty board every reply draws under optimal play, so the
    // scan's row-major first-found tie-break settles on cell (0, 0) --
    // a corner, never an edge cell.
    let mut b = Board::new();
    computer_move(&mut b, Difficulty::Hard, A, B);
    assert_eq!(b.get(0, 0), B);
    assert_eq!(count_empty_cells(&b), 8);
}

#[test]
fn hard_versus_hard_always_draws() {
    // Minimax never lets the opponent force a win: two hard players
    // from an empty board must end in a draw, whoever starts.
    let mut b = Board::new();
    let mut a_to_move = true;
    loop {
        if a_to_move {
            computer_move(&mut b, Difficulty::Hard, B, A);
        } else {
            computer_move(&mut b, Difficulty::Hard, A, B);
        }
        if check_victory(&b, A) || check_victory(&b, B) {
            panic!("a hard-versus-hard game produced a winner");
        }
        if check_draw(&b) {
            break;
        }
        a_to_move = !a_to_move;
    }
    assert!(check_draw(&b));
    assert!(!check_victory(&b, A));
    assert!(!check_victory(&b, B));
}

#[test]
fn easy_fills_exactly_one_empty_cell() {
    let rows = [[A, E, E], [E, B, E], [E, E, A]];
    for _ in 0..25 {
        let mut b = board_from(rows);
        computer_move(&mut b, Difficulty::Easy, A, B);
        assert_eq!(count_empty_cells(&b), 5);
        // No occupied cell changed.
        assert_eq!(b.get(0, 0), A);
        assert_eq!(b.get(1, 1), B);
        assert_eq!(b.get(2, 2), A);
    }
}

#[test]
fn easy_takes_the_last_remaining_cell() {
    let mut b = board_from([[A, A, B], [B, B, A], [A, B, E]]);
    computer_move(&mut b, Difficulty::Easy, A, B);
    assert_eq!(b.get(2, 2), B);
    assert_eq!(count_empty_cells(&b), 0);
}

#[test]
fn easy_spreads_over_both_free_cells() {
    // Statistical property: with two empty cells, many independent
    // calls must pick each of them at least once.
    let rows = [[A, B, A], [B, A, B], [B, E, E]];
    let mut hit_left = false;
    let mut hit_right = false;
    for _ in 0..400 {
        let mut b = board_from(rows);
        computer_move(&mut b, Difficulty::Easy, B, A);
        if b.get(2, 1) == A {
            hit_left = true;
        }
        if b.get(2, 2) == A {
            hit_right = true;
        }
        if hit_left && hit_right {
            break;
        }
    }
    assert!(hit_left && hit_right);
}

#[test]
fn medium_fills_exactly_one_empty_cell() {
    let rows = [[A, E, E], [E, B, E], [E, E, A]];
    for _ in 0..25 {
        let mut b = board_from(rows);
        computer_move(&mut b, Difficulty::Medium, A, B);
        assert_eq!(count_empty_cells(&b), 5);
        assert_eq!(b.get(0, 0), A);
        assert_eq!(b.get(1, 1), B);
        assert_eq!(b.get(2, 2), A);
    }
}
