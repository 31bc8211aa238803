//! The decision engine: exhaustive minimax search over the game tree
//! and the difficulty-tiered move selector.

use vstd::prelude::*;
use crate::board::{Board, Mark, wins, full, check_victory, check_draw};
use rand::RngExt;

verus! {

/// How the computer picks its move: uniformly random, a per-call
/// 50/50 blend of the other two, or the best-scored minimax move.
#[derive(Clone, Copy, PartialEq, Eq, Structural, Debug)]
pub enum Difficulty {
    Easy,
    Medium,
    Hard,
}

/// How many cells of `b` are empty.
pub open spec fn count_empty(b: Seq<Mark>) -> nat
    decreases b.len(),
{
    if b.len() == 0 {
        0
    } else {
        count_empty(b.drop_last()) + if b.last() == Mark::Empty {
            1nat
        } else {
            0nat
        }
    }
}

/// The empty-cell count never exceeds the number of cells.
pub proof fn lemma_count_empty_le_len(b: Seq<Mark>)
    ensures
        count_empty(b) <= b.len(),
    decreases b.len(),
{
    if b.len() > 0 {
        lemma_count_empty_le_len(b.drop_last());
    }
}

/// Overwriting an empty cell with a real mark lowers the empty-cell
/// count by exactly one.
pub proof fn lemma_count_empty_update(b: Seq<Mark>, i: int, m: Mark)
    requires
        0 <= i < b.len(),
        b[i] == Mark::Empty,
        m != Mark::Empty,
    ensures
        count_empty(b.update(i, m)) == count_empty(b) - 1,
    decreases b.len(),
{
    let bu = b.update(i, m);
    if i == b.len() - 1 {
        assert(bu.drop_last() =~= b.drop_last());
    } else {
        assert(bu.drop_last() =~= b.drop_last().update(i, m));
        lemma_count_empty_update(b.drop_last(), i, m);
    }
}

/// The empty-cell count is zero exactly when no cell is empty.
pub proof fn lemma_count_empty_zero(b: Seq<Mark>)
    ensures
        (count_empty(b) == 0) <==> (forall|i: int| 0 <= i < b.len() ==> b[i] != Mark::Empty),
    decreases b.len(),
{
    if b.len() > 0 {
        lemma_count_empty_zero(b.drop_last());
        assert(forall|i: int| 0 <= i < b.len() - 1 ==> b.drop_last()[i] == b[i]);
        assert(b.last() == b[b.len() - 1]);
        if count_empty(b) == 0 {
            assert(forall|i: int| 0 <= i < b.len() ==> b[i] != Mark::Empty);
        }
        if forall|i: int| 0 <= i < b.len() ==> b[i] != Mark::Empty {
            assert(forall|i: int| 0 <= i < b.drop_last().len() ==> b.drop_last()[i]
                != Mark::Empty);
            assert(count_empty(b) == 0);
        }
    }
}

/// The larger of `x` and `y` when maximizing, the smaller otherwise.
pub open spec fn better(is_max: bool, x: int, y: int) -> int {
    if is_max {
        if x > y {
            x
        } else {
            y
        }
    } else {
        if x < y {
            x
        } else {
            y
        }
    }
}

/// The minimax value of board `b` with `depth` plies already played:
/// a completed line for `p2` scores `10 - depth`, one for `p1` scores
/// `depth - 10`, a full board scores 0; otherwise the maximizing role
/// places `p2` (the minimizing role `p1`) in each empty cell in turn
/// and takes the best recursive value.
pub open spec fn minimax_spec(b: Seq<Mark>, depth: int, is_max: bool, p1: Mark, p2: Mark) -> int
    decreases count_empty(b), 1int, 0int,
{
    if wins(b, p2) {
        10 - depth
    } else if wins(b, p1) {
        depth - 10
    } else if full(b) {
        0
    } else {
        best_score(b, depth, is_max, p1, p2, 0)
    }
}

/// The best minimax value reachable by playing the current role's mark
/// in one of the empty cells with index at least `i`, in row-major
/// order; the identity of the running best (`i32::MIN` when
/// maximizing, `i32::MAX` when minimizing) if no such cell exists.
pub open spec fn best_score(b: Seq<Mark>, depth: int, is_max: bool, p1: Mark, p2: Mark, i: int) -> int
    decreases count_empty(b), 0int, 9 - i,
    when b.len() == 9 && p1 != Mark::Empty && p2 != Mark::Empty
{
    if i < 0 || i >= 9 {
        if is_max {
            i32::MIN as int
        } else {
            i32::MAX as int
        }
    } else if b[i] == Mark::Empty {
        let mk = if is_max {
            p2
        } else {
            p1
        };
        proof {
            lemma_count_empty_update(b, i, mk);
        }
        better(
            is_max,
            minimax_spec(b.update(i, mk), depth + 1, !is_max, p1, p2),
            best_score(b, depth, is_max, p1, p2, i + 1),
        )
    } else {
        best_score(b, depth, is_max, p1, p2, i + 1)
    }
}

/// Minimax values stay within the terminal score range: at most 10 in
/// magnitude, since depth never exceeds the 9 cells of the grid.
pub proof fn lemma_minimax_bounds(b: Seq<Mark>, depth: int, is_max: bool, p1: Mark, p2: Mark)
    requires
        b.len() == 9,
        p1 != Mark::Empty,
        p2 != Mark::Empty,
        0 <= depth,
        depth + count_empty(b) <= 9,
    ensures
        -10 <= minimax_spec(b, depth, is_max, p1, p2) <= 10,
    decreases count_empty(b), 10int,
{
    if !wins(b, p2) && !wins(b, p1) && !full(b) {
        assert(exists|j: int| 0 <= j < 9 && b[j] == Mark::Empty);
        lemma_best_score_bounds(b, depth, is_max, p1, p2, 0);
    }
}

/// The running best over cells `i..9` is either the identity of its
/// role or a genuine score in `[-10, 10]`; a genuine score as soon as
/// an empty cell remains in that range.
pub proof fn lemma_best_score_bounds(
    b: Seq<Mark>,
    depth: int,
    is_max: bool,
    p1: Mark,
    p2: Mark,
    i: int,
)
    requires
        b.len() == 9,
        p1 != Mark::Empty,
        p2 != Mark::Empty,
        0 <= depth,
        depth + count_empty(b) <= 9,
        0 <= i <= 9,
    ensures
        is_max ==> (best_score(b, depth, is_max, p1, p2, i) == i32::MIN as int || -10
            <= best_score(b, depth, is_max, p1, p2, i) <= 10),
        !is_max ==> (best_score(b, depth, is_max, p1, p2, i) == i32::MAX as int || -10
            <= best_score(b, depth, is_max, p1, p2, i) <= 10),
        (exists|j: int| i <= j < 9 && b[j] == Mark::Empty) ==> -10 <= best_score(
            b,
            depth,
            is_max,
            p1,
            p2,
            i,
        ) <= 10,
    decreases count_empty(b), 9 - i,
{
    if i < 9 {
        if b[i] == Mark::Empty {
            let mk = if is_max {
                p2
            } else {
                p1
            };
            lemma_count_empty_update(b, i, mk);
            lemma_minimax_bounds(b.update(i, mk), depth + 1, !is_max, p1, p2);
            lemma_best_score_bounds(b, depth, is_max, p1, p2, i + 1);
        } else {
            lemma_best_score_bounds(b, depth, is_max, p1, p2, i + 1);
            if exists|j: int| i <= j < 9 && b[j] == Mark::Empty {
                let j = choose|j: int| i <= j < 9 && b[j] == Mark::Empty;
                assert(i + 1 <= j < 9 && b[j] == Mark::Empty);
            }
        }
    }
}

/// The exhaustive minimax value of the current board, searching
/// every empty cell in row-major order. The board is perturbed
/// during the search but handed back exactly as it was.
pub fn minimax(board: &mut Board, depth: i32, is_max: bool, p1: Mark, p2: Mark) -> (score: i32)
    requires
        old(board).wf(),
        p1 != Mark::Empty,
        p2 != Mark::Empty,
        0 <= depth,
        depth + count_empty(old(board)@) <= 9,
    ensures
        final(board)@ == old(board)@,
        final(board).wf(),
        score as int == minimax_spec(old(board)@, depth as int, is_max, p1, p2),
    decreases count_empty(old(board)@),
{
    let ghost b0 = board@;
    if check_victory(board, p2) {
        return 10 - depth;
    }
    if check_victory(board, p1) {
        return depth - 10;
    }
    if check_draw(board) {
        return 0;
    }
    let mut best: i32 = if is_max {
        i32::MIN
    } else {
        i32::MAX
    };
    proof {
        lemma_best_score_bounds(b0, depth as int, is_max, p1, p2, 0);
    }
    let mut i: usize = 0;
    while i < 9
        invariant
            board.wf(),
            board@ == b0,
            b0 == old(board)@,
            b0.len() == 9,
            i <= 9,
            p1 != Mark::Empty,
            p2 != Mark::Empty,
            0 <= depth,
            depth + count_empty(b0) <= 9,
            !wins(b0, p1),
            !wins(b0, p2),
            !full(b0),
            best_score(b0, depth as int, is_max, p1, p2, 0) == better(
                is_max,
                best as int,
                best_score(b0, depth as int, is_max, p1, p2, i as int),
            ),
        decreases 9 - i,
    {
        if board.get_idx(i) == Mark::Empty {
            let mk = if is_max {
                p2
            } else {
                p1
            };
            board.set_idx(i, mk);
            proof {
                lemma_count_empty_update(b0, i as int, mk);
            }
            let s = minimax(board, depth + 1, !is_max, p1, p2);
            board.set_idx(i, Mark::Empty);
            proof {
                assert(board@ =~= b0);
            }
            if is_max {
                if s > best {
                    best = s;
                }
            } else {
                if s < best {
                    best = s;
                }
            }
        }
        i += 1;
    }
    best
}

/// The minimax value for the computer of playing `p2` at cell `j` of
/// board `b`: the opponent moves next, so the continuation minimizes.
/// Opaque so that reasoning about the scan over cells need not unfold
/// the search itself.
#[verifier::opaque]
pub open spec fn move_score(b: Seq<Mark>, j: int, p1: Mark, p2: Mark) -> int {
    minimax_spec(b.update(j, p2), 0, false, p1, p2)
}

/// The state of the hard-tier scan after the cells below `i` have been
/// tried: `bv` is the best score seen so far and `bm` its cell. The
/// scan tries every remaining empty cell in row-major order and moves
/// to a cell only on a strictly greater score, so the earliest cell
/// wins ties.
pub open spec fn hard_scan(b: Seq<Mark>, p1: Mark, p2: Mark, i: int, bv: int, bm: int) -> int
    decreases 9 - i,
{
    if i < 0 || i >= 9 {
        bm
    } else if b[i] == Mark::Empty {
        let s = move_score(b, i, p1, p2);
        if s > bv {
            hard_scan(b, p1, p2, i + 1, s, i)
        } else {
            hard_scan(b, p1, p2, i + 1, bv, bm)
        }
    } else {
        hard_scan(b, p1, p2, i + 1, bv, bm)
    }
}

/// The cell the hard tier plays on board `b`: the first empty cell in
/// row-major order whose score is maximal.
pub open spec fn hard_move(b: Seq<Mark>, p1: Mark, p2: Mark) -> int {
    hard_scan(b, p1, p2, 0, i32::MIN as int, 0)
}

/// Relies on rand::rng and rand::RngExt::random_range: a uniformly
/// chosen index below the bound. random_range panics only on an empty
/// range, which the precondition rules out.
#[verifier::external_body]
fn random_index(n: usize) -> (r: usize)
    requires
        0 < n,
    ensures
        r < n,
{
    rand::rng().random_range(0..n)
}

/// Relies on rand::rng and rand::RngExt::random: a fair coin flip
/// (a bool drawn from the standard uniform distribution). Either
/// outcome is possible, so nothing is stated of the result.
#[verifier::external_body]
fn random_coin() -> (r: bool)
{
    rand::rng().random()
}

/// Recursion rank of a difficulty tier: Medium delegates to the other
/// two tiers, which never delegate further.
pub open spec fn tier_rank(d: Difficulty) -> int {
    match d {
        Difficulty::Medium => 1,
        _ => 0,
    }
}

/// Decide and apply the computer's move, which plays `p2` against the
/// opponent's `p1`: a uniformly random empty cell on Easy, a per-call
/// coin flip between the Easy and Hard policies on Medium, and on
/// Hard the row-major-first empty cell of maximal minimax score.
/// Exactly one cell changes, from empty to `p2`.
pub fn computer_move(board: &mut Board, difficulty: Difficulty, p1: Mark, p2: Mark)
    requires
        old(board).wf(),
        p1 != Mark::Empty,
        p2 != Mark::Empty,
        p1 != p2,
        count_empty(old(board)@) > 0,
    ensures
        final(board).wf(),
        exists|i: int|
            0 <= i < 9 && old(board)@[i] == Mark::Empty && final(board)@ == old(board)@.update(
                i,
                p2,
            ),
        difficulty == Difficulty::Hard ==> final(board)@ == old(board)@.update(
            hard_move(old(board)@, p1, p2),
            p2,
        ),
    decreases tier_rank(difficulty),
{
    let ghost b0 = board@;
    match difficulty {
        Difficulty::Easy => {
            let mut positions: Vec<usize> = Vec::new();
            let mut i: usize = 0;
            while i < 9
                invariant
                    board.wf(),
                    board@ == b0,
                    b0.len() == 9,
                    i <= 9,
                    positions@.len() == count_empty(b0.take(i as int)),
                    forall|k: int|
                        0 <= k < positions@.len() ==> positions@[k] < 9 && b0[positions@[k] as int]
                            == Mark::Empty,
                decreases 9 - i,
            {
                proof {
                    assert(b0.take(i as int + 1).drop_last() =~= b0.take(i as int));
                    assert(b0.take(i as int + 1).last() == b0[i as int]);
                }
                if board.get_idx(i) == Mark::Empty {
                    positions.push(i);
                }
                i += 1;
            }
            proof {
                assert(b0.take(9) =~= b0);
            }
            let idx = random_index(positions.len());
            let pos = positions[idx];
            board.set_idx(pos, p2);
            proof {
                assert((pos as int) < 9 && b0[pos as int] == Mark::Empty && board@ == b0.update(
                    pos as int,
                    p2,
                ));
            }
        },
        Difficulty::Medium => {
            if random_coin() {
                computer_move(board, Difficulty::Easy, p1, p2);
            } else {
                computer_move(board, Difficulty::Hard, p1, p2);
            }
        },
        Difficulty::Hard => {
            proof {
                lemma_count_empty_le_len(b0);
            }
            let mut best_val: i32 = i32::MIN;
            let mut best_move: usize = 0;
            let mut i: usize = 0;
            while i < 9
                invariant
                    board.wf(),
                    board@ == b0,
                    b0 == old(board)@,
                    b0.len() == 9,
                    i <= 9,
                    best_move < 9,
                    p1 != Mark::Empty,
                    p2 != Mark::Empty,
                    count_empty(b0) <= 9,
                    hard_scan(b0, p1, p2, 0, i32::MIN as int, 0) == hard_scan(
                        b0,
                        p1,
                        p2,
                        i as int,
                        best_val as int,
                        best_move as int,
                    ),
                    (exists|j: int| 0 <= j < i && b0[j] == Mark::Empty) ==> (b0[best_move as int]
                        == Mark::Empty && best_val as int == move_score(b0, best_move as int, p1, p2)
                        && best_val > i32::MIN),
                    (forall|j: int| 0 <= j < i ==> b0[j] != Mark::Empty) ==> best_val == i32::MIN,
                decreases 9 - i,
            {
                if board.get_idx(i) == Mark::Empty {
                    board.set_idx(i, p2);
                    proof {
                        lemma_count_empty_update(b0, i as int, p2);
                    }
                    let s = minimax(board, 0, false, p1, p2);
                    board.set_idx(i, Mark::Empty);
                    proof {
                        assert(board@ =~= b0);
                        lemma_minimax_bounds(b0.update(i as int, p2), 0, false, p1, p2);
                        reveal(move_score);
                        assert(s as int == move_score(b0, i as int, p1, p2));
                    }
                    if s > best_val {
                        best_val = s;
                        best_move = i;
                    }
                }
                i += 1;
            }
            proof {
                lemma_count_empty_zero(b0);
                assert(exists|j: int| 0 <= j < 9 && b0[j] == Mark::Empty);
            }
            board.set_idx(best_move, p2);
        },
    }
}

/// A full board with no completed line scores exactly 0, whichever
/// role is maximizing and whatever the depth.
pub proof fn lemma_minimax_full_draw(b: Seq<Mark>, depth: int, is_max: bool, p1: Mark, p2: Mark)
    requires
        full(b),
        !wins(b, p1),
        !wins(b, p2),
    ensures
        minimax_spec(b, depth, is_max, p1, p2) == 0,
{
}

/// A move's score lies in the terminal score range.
pub proof fn lemma_move_score_bounds(b: Seq<Mark>, j: int, p1: Mark, p2: Mark)
    requires
        b.len() == 9,
        0 <= j < 9,
        b[j] == Mark::Empty,
        p1 != Mark::Empty,
        p2 != Mark::Empty,
        count_empty(b) <= 9,
    ensures
        -10 <= move_score(b, j, p1, p2) <= 10,
{
    reveal(move_score);
    lemma_count_empty_update(b, j, p2);
    lemma_minimax_bounds(b.update(j, p2), 0, false, p1, p2);
}

/// What the hard-tier scan returns, given a faithful summary of the
/// cells already tried: `bv` is the best score among the empty cells
/// below `i` (the scan's starting value if there is none), `bm` the
/// earliest cell achieving it. The result is then an empty cell of
/// maximal score over the whole board, the earliest such cell in
/// row-major order.
proof fn lemma_hard_scan_props(b: Seq<Mark>, p1: Mark, p2: Mark, i: int, bv: int, bm: int)
    requires
        b.len() == 9,
        p1 != Mark::Empty,
        p2 != Mark::Empty,
        count_empty(b) <= 9,
        0 <= i <= 9,
        0 <= bm < 9,
        forall|j: int| 0 <= j < i && b[j] == Mark::Empty ==> move_score(b, j, p1, p2) <= bv,
        (exists|j: int| 0 <= j < i && b[j] == Mark::Empty) ==> (b[bm] == Mark::Empty && bm < i
            && move_score(b, bm, p1, p2) == bv && (forall|j: int|
            0 <= j < bm && b[j] == Mark::Empty ==> move_score(b, j, p1, p2) < bv)),
        (forall|j: int| 0 <= j < i ==> b[j] != Mark::Empty) ==> bv == i32::MIN as int,
    ensures
        0 <= hard_scan(b, p1, p2, i, bv, bm) < 9,
        (exists|j: int| 0 <= j < 9 && b[j] == Mark::Empty) ==> b[hard_scan(b, p1, p2, i, bv, bm)]
            == Mark::Empty,
        forall|j: int|
            i <= j < 9 && b[j] == Mark::Empty ==> move_score(b, j, p1, p2) <= move_score(
                b,
                hard_scan(b, p1, p2, i, bv, bm),
                p1,
                p2,
            ),
        (exists|j: int| 0 <= j < 9 && b[j] == Mark::Empty) ==> bv <= move_score(
            b,
            hard_scan(b, p1, p2, i, bv, bm),
            p1,
            p2,
        ),
        forall|j: int|
            0 <= j < hard_scan(b, p1, p2, i, bv, bm) && b[j] == Mark::Empty ==> move_score(
                b,
                j,
                p1,
                p2,
            ) < move_score(b, hard_scan(b, p1, p2, i, bv, bm), p1, p2),
    decreases 9 - i,
{
    if i < 9 {
        if b[i] == Mark::Empty {
            lemma_move_score_bounds(b, i, p1, p2);
            let s = move_score(b, i, p1, p2);
            if s > bv {
                lemma_hard_scan_props(b, p1, p2, i + 1, s, i);
            } else {
                if forall|j: int| 0 <= j < i ==> b[j] != Mark::Empty {
                    assert(bv == i32::MIN as int);
                    assert(false);
                }
                lemma_hard_scan_props(b, p1, p2, i + 1, bv, bm);
            }
        } else {
            if exists|j: int| 0 <= j < i + 1 && b[j] == Mark::Empty {
                let j = choose|j: int| 0 <= j < i + 1 && b[j] == Mark::Empty;
                assert(0 <= j < i && b[j] == Mark::Empty);
            }
            lemma_hard_scan_props(b, p1, p2, i + 1, bv, bm);
        }
    }
}

/// The hard tier's choice is optimal under the depth-penalized minimax
/// score: it is an empty cell, no empty cell scores better, and every
/// earlier empty cell in row-major order scores strictly worse.
pub proof fn lemma_hard_move_optimal(b: Seq<Mark>, p1: Mark, p2: Mark)
    requires
        b.len() == 9,
        p1 != Mark::Empty,
        p2 != Mark::Empty,
        count_empty(b) > 0,
    ensures
        0 <= hard_move(b, p1, p2) < 9,
        b[hard_move(b, p1, p2)] == Mark::Empty,
        forall|j: int|
            0 <= j < 9 && b[j] == Mark::Empty ==> move_score(b, j, p1, p2) <= move_score(
                b,
                hard_move(b, p1, p2),
                p1,
                p2,
            ),
        forall|j: int|
            0 <= j < hard_move(b, p1, p2) && b[j] == Mark::Empty ==> move_score(b, j, p1, p2)
                < move_score(b, hard_move(b, p1, p2), p1, p2),
{
    lemma_count_empty_le_len(b);
    lemma_count_empty_zero(b);
    lemma_hard_scan_props(b, p1, p2, 0, i32::MIN as int, 0);
}

} // verus!
