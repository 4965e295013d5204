//! The score that orders the search frontier.
use vstd::prelude::*;
use crate::board::{empty_count, GameBoard, Grid};

verus! {

/// The largest tile that a scored board may hold, so that the score fits in a `u64`.
pub const SCORE_LIMIT: u64 = 0x100_0000_0000_0000;

pub open spec fn abs_diff(a: u64, b: u64) -> int {
    if a >= b {
        a - b
    } else {
        b - a
    }
}

pub open spec fn excess(a: u64, b: u64) -> int {
    if a > b {
        a - b
    } else {
        0
    }
}

/// Smoothness of cell `k` (row-major): its differences with its right and
/// lower neighbours, where both cells hold a tile.
pub open spec fn cell_smoothness(g: Grid, k: int) -> int {
    let i = k / 4;
    let j = k % 4;
    (if j < 3 && g[i][j] != 0 && g[i][j + 1] != 0 {
        abs_diff(g[i][j], g[i][j + 1])
    } else {
        0
    }) + (if i < 3 && g[i][j] != 0 && g[i + 1][j] != 0 {
        abs_diff(g[i][j], g[i + 1][j])
    } else {
        0
    })
}

/// Monotonicity of cell `k`: how much it exceeds its right and lower neighbours.
pub open spec fn cell_monotonicity(g: Grid, k: int) -> int {
    let i = k / 4;
    let j = k % 4;
    (if j < 3 {
        excess(g[i][j], g[i][j + 1])
    } else {
        0
    }) + (if i < 3 {
        excess(g[i][j], g[i + 1][j])
    } else {
        0
    })
}

/// Pairs of equal tiles that cell `k` makes with its lower and right neighbours.
pub open spec fn cell_merges(g: Grid, k: int) -> int {
    let i = k / 4;
    let j = k % 4;
    (if i < 3 && g[i][j] == g[i + 1][j] && g[i][j] != 0 {
        1int
    } else {
        0
    }) + (if j < 3 && g[i][j] == g[i][j + 1] && g[i][j] != 0 {
        1int
    } else {
        0
    })
}

pub open spec fn smoothness_upto(g: Grid, k: int) -> int
    decreases k,
{
    if k <= 0 {
        0
    } else {
        smoothness_upto(g, k - 1) + cell_smoothness(g, k - 1)
    }
}

pub open spec fn monotonicity_upto(g: Grid, k: int) -> int
    decreases k,
{
    if k <= 0 {
        0
    } else {
        monotonicity_upto(g, k - 1) + cell_monotonicity(g, k - 1)
    }
}

pub open spec fn merges_upto(g: Grid, k: int) -> int
    decreases k,
{
    if k <= 0 {
        0
    } else {
        merges_upto(g, k - 1) + cell_merges(g, k - 1)
    }
}

/// The largest of the first `k` cells (row-major), 0 for none.
pub open spec fn max_upto(g: Grid, k: int) -> u64
    decreases k,
{
    if k <= 0 {
        0
    } else {
        let m = max_upto(g, k - 1);
        let c = g[(k - 1) / 4][(k - 1) % 4];
        if c > m {
            c
        } else {
            m
        }
    }
}

pub open spec fn max_tile(g: Grid) -> u64 {
    max_upto(g, 16)
}

pub open spec fn max_in_corner(g: Grid) -> bool {
    let m = max_tile(g);
    g[0][0] == m || g[0][3] == m || g[3][0] == m || g[3][3] == m
}

/// The score of a board: a corner bonus, one point per empty cell, and twice
/// the merge, monotonicity and smoothness terms.
pub open spec fn heuristic_value(g: Grid) -> int {
    (if max_in_corner(g) {
        25int
    } else {
        0
    }) + empty_count(g) + 2 * merges_upto(g, 16) + 2 * monotonicity_upto(g, 16) + 2
        * smoothness_upto(g, 16)
}

/// Every cell holds at most `SCORE_LIMIT`.
pub open spec fn scorable(g: Grid) -> bool {
    forall|i: int, j: int| 0 <= i < 4 && 0 <= j < 4 ==> #[trigger] g[i][j] <= SCORE_LIMIT
}

/// The score of `board`; a function of its cells alone.
pub fn heuristic(board: &GameBoard) -> (r: u64)
    requires
        scorable(board@),
    ensures
        r == heuristic_value(board@),
{
    let mut max_tile: u64 = 0;
    let mut k: usize = 0;
    while k < 16
        invariant
            k <= 16,
            max_tile == max_upto(board@, k as int),
        decreases 16 - k,
    {
        let c = board.grid[k / 4][k % 4];
        if c > max_tile {
            max_tile = c;
        }
        k = k + 1;
    }
    let empty_cells = board.count_empty() as u64;
    let mut monotonicity: u64 = 0;
    let mut smoothness: u64 = 0;
    let mut merges: u64 = 0;
    let mut k: usize = 0;
    while k < 16
        invariant
            k <= 16,
            scorable(board@),
            smoothness == smoothness_upto(board@, k as int),
            monotonicity == monotonicity_upto(board@, k as int),
            merges == merges_upto(board@, k as int),
            smoothness <= 0x200_0000_0000_0000 * k,
            monotonicity <= 0x200_0000_0000_0000 * k,
            merges <= 2 * k,
        decreases 16 - k,
    {
        let i = k / 4;
        let j = k % 4;
        let g = &board.grid;
        proof {
            assert(g[i as int][j as int] <= SCORE_LIMIT) by {
                assert(board@[i as int][j as int] == g[i as int][j as int]);
            }
            if j < 3 {
                assert(g[i as int][j + 1] <= SCORE_LIMIT) by {
                    assert(board@[i as int][j + 1] == g[i as int][j + 1]);
                }
            }
            if i < 3 {
                assert(g[i + 1][j as int] <= SCORE_LIMIT) by {
                    assert(board@[i + 1][j as int] == g[i + 1][j as int]);
                }
            }
        }
        // Smoothness
        if j < 3 && g[i][j] != 0 && g[i][j + 1] != 0 {
            smoothness = smoothness + diff(g[i][j], g[i][j + 1]);
        }
        if i < 3 && g[i][j] != 0 && g[i + 1][j] != 0 {
            smoothness = smoothness + diff(g[i][j], g[i + 1][j]);
        }
        // Monotonicity
        if j < 3 && g[i][j] != 0 {
            monotonicity = monotonicity + g[i][j].saturating_sub(g[i][j + 1]);
        }
        if i < 3 && g[i][j] != 0 {
            monotonicity = monotonicity + g[i][j].saturating_sub(g[i + 1][j]);
        }
        // Potential merges
        if i < 3 && g[i][j] == g[i + 1][j] && g[i][j] != 0 {
            merges = merges + 1;
        }
        if j < 3 && g[i][j] == g[i][j + 1] && g[i][j] != 0 {
            merges = merges + 1;
        }
        k = k + 1;
    }
    let g = &board.grid;
    let max_tile_in_corner: u64 = if g[0][0] == max_tile || g[0][3] == max_tile || g[3][0]
        == max_tile || g[3][3] == max_tile {
        1
    } else {
        0
    };
    25 * max_tile_in_corner + empty_cells + 2 * merges + 2 * monotonicity + 2 * smoothness
}

fn diff(a: u64, b: u64) -> (r: u64)
    ensures
        r == abs_diff(a, b),
{
    if a >= b {
        a - b
    } else {
        b - a
    }
}

/// The score depends on the cells alone: boards with the same cells score the same.
pub proof fn lemma_heuristic_deterministic(a: GameBoard, b: GameBoard)
    requires
        a@ == b@,
    ensures
        heuristic_value(a@) == heuristic_value(b@),
{
}

} // verus!
