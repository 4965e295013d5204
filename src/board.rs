//! The 4×4 board, its moves, and the tile that appears after each move.
use vstd::prelude::*;
use rand::Rng;
use crate::line::{
    lemma_line_sum_four, lemma_slide_changed, lemma_slide_len, line_sum, slide, slide_line,
    tile_count,
};

verus! {

/// Rows of cells, top to bottom; each row left to right.
pub type Grid = Seq<Seq<u64>>;

/// The largest tile that a board may hold for the search to expand it (a move
/// itself needs only `movable`). After a move from such a board every tile
/// stays within four times this limit, which the score can still take.
pub const TILE_LIMIT: u64 = 0x4_0000_0000_0000;

#[derive(Clone, Copy, Debug, PartialEq, Eq, Hash)]
pub struct GameBoard {
    pub grid: [[u64; 4]; 4],
}

#[derive(Clone, Copy, Debug, PartialEq, Eq, Hash, Structural)]
pub enum Direction {
    Up,
    Left,
    Down,
    Right,
}

pub open spec fn name_of(d: Direction) -> Seq<char> {
    match d {
        Direction::Up => "up"@,
        Direction::Left => "left"@,
        Direction::Down => "down"@,
        Direction::Right => "right"@,
    }
}

/// The order in which the successors of a board are made.
pub open spec fn direction_order() -> Seq<Direction> {
    seq![Direction::Up, Direction::Left, Direction::Down, Direction::Right]
}

/// The directions among the first `k` of `direction_order()` that change `g`.
pub open spec fn changing_directions(g: Grid, k: int) -> Seq<Direction>
    decreases k,
{
    if k <= 0 {
        Seq::empty()
    } else {
        let before = changing_directions(g, k - 1);
        let d = direction_order()[k - 1];
        if slid(g, d) != g {
            before.push(d)
        } else {
            before
        }
    }
}

impl Direction {
    /// The lower-case name of the direction.
    pub fn name(&self) -> (r: &'static str)
        ensures
            r@ == name_of(*self),
    {
        match self {
            Direction::Up => "up",
            Direction::Left => "left",
            Direction::Down => "down",
            Direction::Right => "right",
        }
    }
}

impl View for GameBoard {
    type V = Grid;

    open spec fn view(&self) -> Grid {
        Seq::new(4, |i: int| self.grid[i]@)
    }
}

pub open spec fn is_grid(g: Grid) -> bool {
    &&& g.len() == 4
    &&& forall|i: int| 0 <= i < 4 ==> #[trigger] g[i].len() == 4
}

pub open spec fn column(g: Grid, j: int) -> Seq<u64> {
    Seq::new(4, |i: int| g[i][j])
}

pub open spec fn reversed(s: Seq<u64>) -> Seq<u64> {
    Seq::new(s.len(), |k: int| s[s.len() - 1 - k])
}

/// The board after tiles slide in `d`, before a new tile appears.
pub open spec fn slid(g: Grid, d: Direction) -> Grid {
    match d {
        Direction::Left => Seq::new(4, |i: int| slide(g[i])),
        Direction::Right => Seq::new(4, |i: int| reversed(slide(reversed(g[i])))),
        Direction::Up => Seq::new(4, |i: int| Seq::new(4, |j: int| slide(column(g, j))[i])),
        Direction::Down => Seq::new(
            4,
            |i: int| Seq::new(4, |j: int| reversed(slide(reversed(column(g, j))))[i]),
        ),
    }
}

/// Every cell holds at most `TILE_LIMIT`.
pub open spec fn in_range(g: Grid) -> bool {
    forall|i: int, j: int| 0 <= i < 4 && 0 <= j < 4 ==> #[trigger] g[i][j] <= TILE_LIMIT
}

/// Every row and every column sums to at most `u64::MAX`, so that no merge
/// of a move overflows.
pub open spec fn movable(g: Grid) -> bool {
    &&& is_grid(g)
    &&& forall|i: int| 0 <= i < 4 ==> line_sum(#[trigger] g[i]) <= u64::MAX
    &&& forall|j: int| 0 <= j < 4 ==> line_sum(#[trigger] column(g, j)) <= u64::MAX
}

pub open spec fn has_value(g: Grid, v: u64) -> bool {
    exists|i: int, j: int| 0 <= i < 4 && 0 <= j < 4 && #[trigger] g[i][j] == v
}

/// Cell `k` in row-major order.
pub open spec fn flat(g: Grid, k: int) -> u64 {
    g[k / 4][k % 4]
}

/// The number of empty cells among the first `k` in row-major order.
pub open spec fn empties_before(g: Grid, k: int) -> nat
    decreases k,
{
    if k <= 0 {
        0
    } else {
        empties_before(g, k - 1) + if flat(g, k - 1) == 0 {
            1nat
        } else {
            0nat
        }
    }
}

pub open spec fn empty_count(g: Grid) -> nat {
    empties_before(g, 16)
}

/// The sum of the first `k` cells in row-major order.
pub open spec fn flat_sum(g: Grid, k: int) -> int
    decreases k,
{
    if k <= 0 {
        0
    } else {
        flat_sum(g, k - 1) + flat(g, k - 1)
    }
}

/// The sum of all cells.
pub open spec fn total(g: Grid) -> int {
    flat_sum(g, 16)
}

/// `g` with `v` in its empty cell of rank `p` (row-major, counting from 0).
pub open spec fn placed(g: Grid, p: int, v: u64) -> Grid {
    Seq::new(
        4,
        |i: int|
            Seq::new(
                4,
                |j: int|
                    if g[i][j] == 0 && empties_before(g, 4 * i + j) == p {
                        v
                    } else {
                        g[i][j]
                    },
            ),
    )
}

/// `after` is `before` with a 2 or a 4 in one of its empty cells.
pub open spec fn spawned(before: Grid, after: Grid) -> bool {
    exists|p: int, v: u64|
        0 <= p < empty_count(before) && (v == 2 || v == 4) && after == #[trigger] placed(
            before,
            p,
            v,
        )
}

/// `after` is what a move in `d` can make of `before`: the tiles slide and
/// change the board, and a new tile appears.
pub open spec fn legal_move(before: Grid, d: Direction, after: Grid) -> bool {
    &&& movable(before)
    &&& slid(before, d) != before
    &&& spawned(slid(before, d), after)
}

/// No direction changes the board.
pub open spec fn stuck(g: Grid) -> bool {
    forall|d: Direction| #[trigger] slid(g, d) == g
}

pub open spec fn zero_grid() -> Grid {
    Seq::new(4, |i: int| Seq::new(4, |j: int| 0u64))
}

/// The new tile for a roll in `1..=10`: a 4 on a roll of 1, else a 2.
pub fn tile_for_roll(roll: usize) -> (v: u64)
    ensures
        v == if roll > 1 {
            2u64
        } else {
            4u64
        },
{
    if roll > 1 {
        2
    } else {
        4
    }
}

/// Relies on `rand::Rng::gen_range` on `rand::thread_rng()`: a value drawn from
/// the closed range `low..=high`, which must not be empty.
#[verifier::external_body]
fn random_between(low: usize, high: usize) -> (r: usize)
    requires
        low <= high,
    ensures
        low <= r <= high,
{
    rand::thread_rng().gen_range(low..=high)
}

impl GameBoard {
    pub open spec fn wf(&self) -> bool {
        is_grid(self@)
    }

    /// A board with two tiles, each a 2 or a 4, on otherwise empty cells.
    pub fn new() -> (r: GameBoard)
        ensures
            exists|a: Grid| spawned(zero_grid(), a) && spawned(a, r@),
    {
        let mut new_gameboard = GameBoard { grid: [[0u64; 4]; 4] };
        assert(new_gameboard@ =~~= zero_grid());
        proof {
            lemma_empty_count_zero();
        }
        new_gameboard.spawn_new_tile();
        let ghost a = new_gameboard@;
        proof {
            lemma_placed_counts(zero_grid());
        }
        new_gameboard.spawn_new_tile();
        new_gameboard
    }

    /// The target value is on the board.
    pub fn is_goal(&self, goal: u64) -> (r: bool)
        ensures
            r == has_value(self@, goal),
    {
        let mut i: usize = 0;
        while i < 4
            invariant
                i <= 4,
                forall|a: int, b: int| 0 <= a < i && 0 <= b < 4 ==> self@[a][b] != goal,
            decreases 4 - i,
        {
            let mut j: usize = 0;
            while j < 4
                invariant
                    i < 4,
                    j <= 4,
                    forall|a: int, b: int| 0 <= a < i && 0 <= b < 4 ==> self@[a][b] != goal,
                    forall|b: int| 0 <= b < j ==> self@[i as int][b] != goal,
                decreases 4 - j,
            {
                if self.grid[i][j] == goal {
                    assert(self@[i as int][j as int] == goal);
                    return true;
                }
                j = j + 1;
            }
            i = i + 1;
        }
        false
    }

    /// The same sixteen cells.
    pub fn same_cells(&self, other: &GameBoard) -> (r: bool)
        ensures
            r == (self@ == other@),
    {
        let mut i: usize = 0;
        while i < 4
            invariant
                i <= 4,
                forall|a: int| 0 <= a < i ==> self.grid[a]@ == other.grid[a]@,
            decreases 4 - i,
        {
            let x = self.grid[i];
            let y = other.grid[i];
            if !(x[0] == y[0] && x[1] == y[1] && x[2] == y[2] && x[3] == y[3]) {
                assert(self@[i as int][0] != other@[i as int][0] || self@[i as int][1]
                    != other@[i as int][1] || self@[i as int][2] != other@[i as int][2]
                    || self@[i as int][3] != other@[i as int][3]);
                return false;
            }
            assert(x@ =~= y@);
            i = i + 1;
        }
        assert(self@ =~~= other@);
        true
    }

    /// Every cell holds at most `TILE_LIMIT`.
    pub fn tiles_in_range(&self) -> (r: bool)
        ensures
            r == in_range(self@),
    {
        let mut i: usize = 0;
        while i < 4
            invariant
                i <= 4,
                forall|a: int, b: int| 0 <= a < i && 0 <= b < 4 ==> self@[a][b] <= TILE_LIMIT,
            decreases 4 - i,
        {
            let mut j: usize = 0;
            while j < 4
                invariant
                    i < 4,
                    j <= 4,
                    forall|a: int, b: int| 0 <= a < i && 0 <= b < 4 ==> self@[a][b] <= TILE_LIMIT,
                    forall|b: int| 0 <= b < j ==> self@[i as int][b] <= TILE_LIMIT,
                decreases 4 - j,
            {
                if self.grid[i][j] > TILE_LIMIT {
                    assert(self@[i as int][j as int] > TILE_LIMIT);
                    return false;
                }
                j = j + 1;
            }
            i = i + 1;
        }
        true
    }

    /// The number of empty cells.
    pub fn count_empty(&self) -> (r: usize)
        ensures
            r == empty_count(self@),
            r <= 16,
    {
        let mut count: usize = 0;
        let mut k: usize = 0;
        while k < 16
            invariant
                k <= 16,
                count == empties_before(self@, k as int),
                count <= k,
            decreases 16 - k,
        {
            if self.grid[k / 4][k % 4] == 0 {
                count = count + 1;
            }
            k = k + 1;
        }
        count
    }

    /// Puts `value` in the empty cell of rank `position` (row-major, counting
    /// from 0); with fewer empty cells than that, the board stays as it is.
    pub fn place_tile(&mut self, position: usize, value: u64)
        ensures
            final(self)@ == placed(old(self)@, position as int, value),
    {
        let ghost before = self@;
        let mut seen: usize = 0;
        let mut k: usize = 0;
        while k < 16
            invariant
                k <= 16,
                self@ == before,
                before == old(self)@,
                seen == empties_before(before, k as int),
                seen <= position,
                seen <= k,
            decreases 16 - k,
        {
            let i = k / 4;
            let j = k % 4;
            if self.grid[i][j] == 0 {
                if seen == position {
                    let mut row = self.grid[i];
                    row[j] = value;
                    self.grid[i] = row;
                    proof {
                        lemma_placed_at(before, position as int, value, k as int);
                        lemma_flat_index(k as int);
                        let goal = placed(before, position as int, value);
                        assert forall|a: int, b: int| 0 <= a < 4 && 0 <= b < 4 implies self@[a][b]
                            == goal[a][b] by {
                            if a != i {
                                assert(self@[a] == before[a]);
                            }
                        }
                        assert(self@ =~~= goal);
                    }
                    return;
                }
                seen = seen + 1;
            }
            k = k + 1;
        }
        proof {
            lemma_placed_none(before, position as int, value);
        }
        assert(self@ =~~= placed(before, position as int, value));
    }

    /// Puts a 2 (nine times in ten) or a 4 in an empty cell drawn uniformly;
    /// a full board stays as it is.
    pub fn spawn_new_tile(&mut self)
        ensures
            empty_count(old(self)@) == 0 ==> final(self)@ == old(self)@,
            empty_count(old(self)@) > 0 ==> spawned(old(self)@, final(self)@),
    {
        let empty = self.count_empty();
        if empty == 0 {
            return;
        }
        let random_pos = random_between(1, empty);
        let roll = random_between(1, 10);
        let value = tile_for_roll(roll);
        self.place_tile(random_pos - 1, value);
        assert(self@ == placed(old(self)@, (random_pos - 1) as int, value));
    }
}


impl GameBoard {
    /// Starts a count of boards made by moves.
    pub fn reset_move_counter(counter: &mut u64)
        ensures
            *final(counter) == 0,
    {
        *counter = 0;
    }

    /// Counts one more board made by a move; the count stops at `u64::MAX`.
    pub fn increment_move_counter(counter: &mut u64)
        ensures
            *final(counter) == if *old(counter) == u64::MAX {
                u64::MAX as int
            } else {
                *old(counter) + 1
            },
    {
        *counter = counter.saturating_add(1);
    }

    fn read_column(&self, j: usize) -> (r: [u64; 4])
        requires
            j < 4,
        ensures
            r@ == column(self@, j as int),
    {
        let r = [self.grid[0][j], self.grid[1][j], self.grid[2][j], self.grid[3][j]];
        assert(r@ =~= column(self@, j as int));
        r
    }

    fn write_column(&mut self, j: usize, col: [u64; 4])
        requires
            j < 4,
        ensures
            forall|a: int, b: int|
                0 <= a < 4 && 0 <= b < 4 ==> #[trigger] final(self)@[a][b] == if b == j {
                    col@[a]
                } else {
                    old(self)@[a][b]
                },
    {
        self.grid[0][j] = col[0];
        self.grid[1][j] = col[1];
        self.grid[2][j] = col[2];
        self.grid[3][j] = col[3];
    }

    /// Slides the tiles of each row to the left.
    fn move_left(&mut self) -> (moved: bool)
        requires
            movable(old(self)@),
        ensures
            final(self)@ == slid(old(self)@, Direction::Left),
            moved == (slid(old(self)@, Direction::Left) != old(self)@),
    {
        let ghost before = self@;
        let mut moved = false;
        let mut i: usize = 0;
        while i < 4
            invariant
                i <= 4,
                before == old(self)@,
                movable(before),
                forall|k: int| 0 <= k < i ==> self@[k] == slide(before[k]),
                forall|k: int| i <= k < 4 ==> self@[k] == before[k],
                moved == exists|k: int| 0 <= k < i && slide(before[k]) != before[k],
            decreases 4 - i,
        {
            assert(line_sum(before[i as int]) <= u64::MAX);
            let (row, changed) = slide_line(self.grid[i]);
            let ghost prev = self@;
            self.grid[i] = row;
            assert(forall|k: int| 0 <= k < 4 && k != i ==> self@[k] == prev[k]);
            assert(self@[i as int] == slide(before[i as int]));
            assert forall|k: int| 0 <= k < i + 1 implies self@[k] == slide(before[k]) by {
                if k < i {
                    assert(self@[k] == prev[k]);
                }
            }
            moved = moved || changed;
            i = i + 1;
        }
        let ghost after = slid(before, Direction::Left);
        assert(self@ =~~= after);
        proof {
            if moved {
                let k = choose|k: int| 0 <= k < 4 && slide(before[k]) != before[k];
                assert(after[k] != before[k]);
            } else {
                assert(after =~~= before);
            }
        }
        moved
    }

    /// Slides the tiles of each row to the right.
    fn move_right(&mut self) -> (moved: bool)
        requires
            movable(old(self)@),
        ensures
            final(self)@ == slid(old(self)@, Direction::Right),
            moved == (slid(old(self)@, Direction::Right) != old(self)@),
    {
        let ghost before = self@;
        let mut moved = false;
        let mut i: usize = 0;
        while i < 4
            invariant
                i <= 4,
                before == old(self)@,
                movable(before),
                forall|k: int| 0 <= k < i ==> self@[k] == reversed(slide(reversed(before[k]))),
                forall|k: int| i <= k < 4 ==> self@[k] == before[k],
                moved == exists|k: int|
                    0 <= k < i && reversed(slide(reversed(before[k]))) != before[k],
            decreases 4 - i,
        {
            let line = reverse_line(self.grid[i]);
            proof {
                assert(line@ == reversed(before[i as int]));
                assert(line_sum(before[i as int]) <= u64::MAX);
                lemma_reversed_sums(before[i as int]);
                lemma_reversed_twice(before[i as int]);
            }
            let (row, changed) = slide_line(line);
            let back = reverse_line(row);
            proof {
                lemma_reversed_twice(row@);
                if reversed(slide(line@)) == before[i as int] {
                    assert(slide(line@) == line@);
                }
            }
            let ghost prev = self@;
            self.grid[i] = back;
            assert(forall|k: int| 0 <= k < 4 && k != i ==> self@[k] == prev[k]);
            assert(self@[i as int] == reversed(slide(reversed(before[i as int]))));
            assert forall|k: int| 0 <= k < i + 1 implies self@[k] == reversed(
                slide(reversed(before[k])),
            ) by {
                if k < i {
                    assert(self@[k] == prev[k]);
                }
            }
            moved = moved || changed;
            i = i + 1;
        }
        let ghost after = slid(before, Direction::Right);
        assert(self@ =~~= after);
        proof {
            if moved {
                let k = choose|k: int|
                    0 <= k < 4 && reversed(slide(reversed(before[k]))) != before[k];
                assert(after[k] != before[k]);
            } else {
                assert(after =~~= before);
            }
        }
        moved
    }

    /// Slides the tiles of each column up.
    fn move_up(&mut self) -> (moved: bool)
        requires
            movable(old(self)@),
        ensures
            final(self)@ == slid(old(self)@, Direction::Up),
            moved == (slid(old(self)@, Direction::Up) != old(self)@),
    {
        let ghost before = self@;
        let mut moved = false;
        let mut j: usize = 0;
        while j < 4
            invariant
                j <= 4,
                before == old(self)@,
                movable(before),
                self.wf(),
                forall|a: int, b: int|
                    0 <= a < 4 && 0 <= b < j ==> self@[a][b] == slide(column(before, b))[a],
                forall|a: int, b: int| 0 <= a < 4 && j <= b < 4 ==> self@[a][b] == before[a][b],
                moved == exists|b: int|
                    0 <= b < j && slide(column(before, b)) != column(before, b),
            decreases 4 - j,
        {
            let line = self.read_column(j);
            assert(line@ =~= column(before, j as int));
            assert(line_sum(column(before, j as int)) <= u64::MAX);
            let (col, changed) = slide_line(line);
            self.write_column(j, col);
            moved = moved || changed;
            j = j + 1;
        }
        let ghost after = slid(before, Direction::Up);
        assert(self@ =~~= after);
        proof {
            if moved {
                let b = choose|b: int| 0 <= b < 4 && slide(column(before, b)) != column(before, b);
                lemma_slide_len(column(before, b));
                assert(column(after, b) =~= slide(column(before, b)));
                if after == before {
                    assert(column(after, b) =~= column(before, b));
                }
            } else {
                assert forall|a: int, b: int| 0 <= a < 4 && 0 <= b < 4 implies after[a][b]
                    == before[a][b] by {
                    assert(slide(column(before, b)) == column(before, b));
                }
                assert(after =~~= before);
            }
        }
        moved
    }

    /// Slides the tiles of each column down.
    fn move_down(&mut self) -> (moved: bool)
        requires
            movable(old(self)@),
        ensures
            final(self)@ == slid(old(self)@, Direction::Down),
            moved == (slid(old(self)@, Direction::Down) != old(self)@),
    {
        let ghost before = self@;
        let mut moved = false;
        let mut j: usize = 0;
        while j < 4
            invariant
                j <= 4,
                before == old(self)@,
                movable(before),
                self.wf(),
                forall|a: int, b: int|
                    0 <= a < 4 && 0 <= b < j ==> self@[a][b] == reversed(
                        slide(reversed(column(before, b))),
                    )[a],
                forall|a: int, b: int| 0 <= a < 4 && j <= b < 4 ==> self@[a][b] == before[a][b],
                moved == exists|b: int|
                    0 <= b < j && reversed(slide(reversed(column(before, b)))) != column(
                        before,
                        b,
                    ),
            decreases 4 - j,
        {
            let col = self.read_column(j);
            assert(col@ =~= column(before, j as int));
            let line = reverse_line(col);
            proof {
                assert(line_sum(column(before, j as int)) <= u64::MAX);
                lemma_reversed_sums(col@);
                lemma_reversed_twice(col@);
            }
            let (out, changed) = slide_line(line);
            let back = reverse_line(out);
            proof {
                lemma_reversed_twice(out@);
                if reversed(slide(line@)) == col@ {
                    assert(slide(line@) == line@);
                }
            }
            self.write_column(j, back);
            moved = moved || changed;
            j = j + 1;
        }
        let ghost after = slid(before, Direction::Down);
        assert(self@ =~~= after);
        proof {
            if moved {
                let b = choose|b: int|
                    0 <= b < 4 && reversed(slide(reversed(column(before, b)))) != column(
                        before,
                        b,
                    );
                lemma_slide_len(reversed(column(before, b)));
                assert(column(after, b) =~= reversed(slide(reversed(column(before, b)))));
                if after == before {
                    assert(column(after, b) =~= column(before, b));
                }
            } else {
                assert forall|a: int, b: int| 0 <= a < 4 && 0 <= b < 4 implies after[a][b]
                    == before[a][b] by {
                    assert(reversed(slide(reversed(column(before, b)))) == column(before, b));
                }
                assert(after =~~= before);
            }
        }
        moved
    }

    /// Slides the tiles in `direction`, merging pairs, without adding a tile;
    /// says whether the board changed.
    pub fn slide_tiles(&mut self, direction: Direction) -> (moved: bool)
        requires
            movable(old(self)@),
        ensures
            final(self)@ == slid(old(self)@, direction),
            moved == (final(self)@ != old(self)@),
    {
        match direction {
            Direction::Left => self.move_left(),
            Direction::Right => self.move_right(),
            Direction::Down => self.move_down(),
            Direction::Up => self.move_up(),
        }
    }

    /// Makes a move: the tiles slide in `direction`, and if that changed the
    /// board a new tile appears. Says whether the tiles moved.
    pub fn make_move(&mut self, direction: Direction) -> (moved: bool)
        requires
            movable(old(self)@),
        ensures
            moved == (slid(old(self)@, direction) != old(self)@),
            !moved ==> final(self)@ == old(self)@,
            moved ==> legal_move(old(self)@, direction, final(self)@),
    {
        let moved = self.slide_tiles(direction);
        if moved {
            proof {
                lemma_changed_has_empty(old(self)@, direction);
            }
            self.spawn_new_tile();
        }
        moved
    }
}

impl GameBoard {
    /// Makes a move in each direction on its own copy of the board, in the
    /// order up, left, down, right, and keeps the boards that the tiles
    /// changed, each with its direction.
    pub fn enumerate_successors(&self) -> (r: Vec<(GameBoard, Direction)>)
        requires
            movable(self@),
        ensures
            r@.map_values(|e: (GameBoard, Direction)| e.1) == changing_directions(self@, 4),
            forall|k: int| 0 <= k < r@.len() ==> legal_move(self@, #[trigger] r@[k].1, r@[k].0@),
    {
        let mut successors: Vec<(GameBoard, Direction)> = Vec::new();
        let mut k: usize = 0;
        while k < 4
            invariant
                k <= 4,
                movable(self@),
                successors@.map_values(|e: (GameBoard, Direction)| e.1) == changing_directions(
                    self@,
                    k as int,
                ),
                forall|m: int|
                    0 <= m < successors@.len() ==> legal_move(
                        self@,
                        #[trigger] successors@[m].1,
                        successors@[m].0@,
                    ),
            decreases 4 - k,
        {
            let direction = if k == 0 {
                Direction::Up
            } else if k == 1 {
                Direction::Left
            } else if k == 2 {
                Direction::Down
            } else {
                Direction::Right
            };
            assert(direction == direction_order()[k as int]);
            let mut neighbor = *self;
            let ghost before = successors@;
            if neighbor.make_move(direction) {
                successors.push((neighbor, direction));
                assert(successors@.map_values(|e: (GameBoard,
                    Direction)| e.1) =~= before.map_values(
                    |e: (GameBoard, Direction)| e.1,
                ).push(direction));
            }
            k = k + 1;
        }
        successors
    }
}

/// A stuck board has no successor.
pub proof fn lemma_stuck_no_successor(g: Grid)
    requires
        stuck(g),
    ensures
        changing_directions(g, 4).len() == 0,
{
    assert(slid(g, Direction::Up) == g);
    assert(slid(g, Direction::Left) == g);
    assert(slid(g, Direction::Down) == g);
    assert(slid(g, Direction::Right) == g);
    reveal_with_fuel(changing_directions, 5);
}

fn reverse_line(l: [u64; 4]) -> (r: [u64; 4])
    ensures
        r@ == reversed(l@),
{
    let r = [l[3], l[2], l[1], l[0]];
    assert(r@ =~= reversed(l@));
    r
}

pub proof fn lemma_reversed_twice(s: Seq<u64>)
    ensures
        reversed(reversed(s)) == s,
        reversed(s).len() == s.len(),
{
    assert(reversed(reversed(s)) =~= s);
}

proof fn lemma_line_bound(s: Seq<u64>)
    requires
        s.len() == 4,
        forall|k: int| 0 <= k < 4 ==> s[k] <= TILE_LIMIT,
    ensures
        line_sum(s) <= 4 * TILE_LIMIT,
        line_sum(s) <= u64::MAX,
{
    lemma_line_sum_four(s);
}

proof fn lemma_zero_cell(g: Grid, i: int, j: int)
    requires
        0 <= i < 4,
        0 <= j < 4,
        g[i][j] == 0,
    ensures
        empty_count(g) > 0,
{
    let m = 4 * i + j;
    assert(m / 4 == i && m % 4 == j);
    assert(empties_before(g, m + 1) >= 1);
    lemma_empties_monotone(g, m + 1, 16);
}

/// A board within `TILE_LIMIT` can be moved.
pub proof fn lemma_in_range_movable(g: Grid)
    requires
        is_grid(g),
        in_range(g),
    ensures
        movable(g),
{
    assert forall|i: int| 0 <= i < 4 implies line_sum(#[trigger] g[i]) <= u64::MAX by {
        lemma_line_bound(g[i]);
    }
    assert forall|j: int| 0 <= j < 4 implies line_sum(#[trigger] column(g, j)) <= u64::MAX by {
        lemma_line_bound(column(g, j));
    }
}

/// A move that changes the board leaves an empty cell for the new tile.
pub proof fn lemma_changed_has_empty(g: Grid, d: Direction)
    requires
        movable(g),
        slid(g, d) != g,
    ensures
        empty_count(slid(g, d)) > 0,
{
    let h = slid(g, d);
    match d {
        Direction::Left => {
            if forall|i: int| 0 <= i < 4 ==> slide(g[i]) == g[i] {
                assert(h =~~= g);
            }
            let i = choose|i: int| 0 <= i < 4 && slide(g[i]) != g[i];
            lemma_slide_changed(g[i]);
            let m = choose|m: int| 0 <= m < 4 && slide(g[i])[m] == 0;
            lemma_zero_cell(h, i, m);
        },
        Direction::Right => {
            if forall|i: int| 0 <= i < 4 ==> slide(reversed(g[i])) == reversed(g[i]) {
                assert forall|i: int| 0 <= i < 4 implies h[i] == g[i] by {
                    lemma_reversed_twice(g[i]);
                }
                assert(h =~~= g);
            }
            let i = choose|i: int| 0 <= i < 4 && slide(reversed(g[i])) != reversed(g[i]);
            lemma_reversed_sums(g[i]);
            lemma_slide_changed(reversed(g[i]));
            let m = choose|m: int| 0 <= m < 4 && slide(reversed(g[i]))[m] == 0;
            lemma_slide_len(reversed(g[i]));
            lemma_zero_cell(h, i, 3 - m);
        },
        Direction::Up => {
            if forall|j: int| 0 <= j < 4 ==> slide(column(g, j)) == column(g, j) {
                assert forall|a: int, b: int| 0 <= a < 4 && 0 <= b < 4 implies h[a][b]
                    == g[a][b] by {
                    assert(slide(column(g, b)) == column(g, b));
                }
                assert(h =~~= g);
            }
            let j = choose|j: int| 0 <= j < 4 && slide(column(g, j)) != column(g, j);
            lemma_slide_changed(column(g, j));
            let m = choose|m: int| 0 <= m < 4 && slide(column(g, j))[m] == 0;
            lemma_zero_cell(h, m, j);
        },
        Direction::Down => {
            if forall|j: int|
                0 <= j < 4 ==> slide(reversed(column(g, j))) == reversed(column(g, j)) {
                assert forall|a: int, b: int| 0 <= a < 4 && 0 <= b < 4 implies h[a][b]
                    == g[a][b] by {
                    assert(slide(reversed(column(g, b))) == reversed(column(g, b)));
                    lemma_reversed_twice(column(g, b));
                }
                assert(h =~~= g);
            }
            let j = choose|j: int|
                0 <= j < 4 && slide(reversed(column(g, j))) != reversed(column(g, j));
            lemma_reversed_sums(column(g, j));
            lemma_slide_changed(reversed(column(g, j)));
            let m = choose|m: int| 0 <= m < 4 && slide(reversed(column(g, j)))[m] == 0;
            lemma_slide_len(reversed(column(g, j)));
            lemma_zero_cell(h, 3 - m, j);
        },
    }
}

pub open spec fn z(v: u64) -> int {
    if v == 0 {
        1
    } else {
        0
    }
}

/// The total and the number of empty cells, written out cell by cell.
pub proof fn lemma_cells(g: Grid)
    ensures
        total(g) == g[0][0] + g[0][1] + g[0][2] + g[0][3] + g[1][0] + g[1][1] + g[1][2] + g[1][3]
            + g[2][0] + g[2][1] + g[2][2] + g[2][3] + g[3][0] + g[3][1] + g[3][2] + g[3][3],
        empty_count(g) == z(g[0][0]) + z(g[0][1]) + z(g[0][2]) + z(g[0][3]) + z(g[1][0])
            + z(g[1][1]) + z(g[1][2]) + z(g[1][3]) + z(g[2][0]) + z(g[2][1]) + z(g[2][2])
            + z(g[2][3]) + z(g[3][0]) + z(g[3][1]) + z(g[3][2]) + z(g[3][3]),
{
    assert(flat_sum(g, 0) == 0);
    assert(empties_before(g, 0) == 0);
    assert(flat(g, 0) == g[0][0]);
    assert(flat_sum(g, 1) == flat_sum(g, 0) + g[0][0]);
    assert(empties_before(g, 1) == empties_before(g, 0) + z(g[0][0]));
    assert(flat(g, 1) == g[0][1]);
    assert(flat_sum(g, 2) == flat_sum(g, 1) + g[0][1]);
    assert(empties_before(g, 2) == empties_before(g, 1) + z(g[0][1]));
    assert(flat(g, 2) == g[0][2]);
    assert(flat_sum(g, 3) == flat_sum(g, 2) + g[0][2]);
    assert(empties_before(g, 3) == empties_before(g, 2) + z(g[0][2]));
    assert(flat(g, 3) == g[0][3]);
    assert(flat_sum(g, 4) == flat_sum(g, 3) + g[0][3]);
    assert(empties_before(g, 4) == empties_before(g, 3) + z(g[0][3]));
    assert(flat(g, 4) == g[1][0]);
    assert(flat_sum(g, 5) == flat_sum(g, 4) + g[1][0]);
    assert(empties_before(g, 5) == empties_before(g, 4) + z(g[1][0]));
    assert(flat(g, 5) == g[1][1]);
    assert(flat_sum(g, 6) == flat_sum(g, 5) + g[1][1]);
    assert(empties_before(g, 6) == empties_before(g, 5) + z(g[1][1]));
    assert(flat(g, 6) == g[1][2]);
    assert(flat_sum(g, 7) == flat_sum(g, 6) + g[1][2]);
    assert(empties_before(g, 7) == empties_before(g, 6) + z(g[1][2]));
    assert(flat(g, 7) == g[1][3]);
    assert(flat_sum(g, 8) == flat_sum(g, 7) + g[1][3]);
    assert(empties_before(g, 8) == empties_before(g, 7) + z(g[1][3]));
    assert(flat(g, 8) == g[2][0]);
    assert(flat_sum(g, 9) == flat_sum(g, 8) + g[2][0]);
    assert(empties_before(g, 9) == empties_before(g, 8) + z(g[2][0]));
    assert(flat(g, 9) == g[2][1]);
    assert(flat_sum(g, 10) == flat_sum(g, 9) + g[2][1]);
    assert(empties_before(g, 10) == empties_before(g, 9) + z(g[2][1]));
    assert(flat(g, 10) == g[2][2]);
    assert(flat_sum(g, 11) == flat_sum(g, 10) + g[2][2]);
    assert(empties_before(g, 11) == empties_before(g, 10) + z(g[2][2]));
    assert(flat(g, 11) == g[2][3]);
    assert(flat_sum(g, 12) == flat_sum(g, 11) + g[2][3]);
    assert(empties_before(g, 12) == empties_before(g, 11) + z(g[2][3]));
    assert(flat(g, 12) == g[3][0]);
    assert(flat_sum(g, 13) == flat_sum(g, 12) + g[3][0]);
    assert(empties_before(g, 13) == empties_before(g, 12) + z(g[3][0]));
    assert(flat(g, 13) == g[3][1]);
    assert(flat_sum(g, 14) == flat_sum(g, 13) + g[3][1]);
    assert(empties_before(g, 14) == empties_before(g, 13) + z(g[3][1]));
    assert(flat(g, 14) == g[3][2]);
    assert(flat_sum(g, 15) == flat_sum(g, 14) + g[3][2]);
    assert(empties_before(g, 15) == empties_before(g, 14) + z(g[3][2]));
    assert(flat(g, 15) == g[3][3]);
    assert(flat_sum(g, 16) == flat_sum(g, 15) + g[3][3]);
    assert(empties_before(g, 16) == empties_before(g, 15) + z(g[3][3]));
}

/// The total of the board, by rows.
proof fn lemma_total_rows(g: Grid)
    requires
        is_grid(g),
    ensures
        total(g) == line_sum(g[0]) + line_sum(g[1]) + line_sum(g[2]) + line_sum(g[3]),
        empty_count(g) + tile_count(g[0]) + tile_count(g[1]) + tile_count(g[2]) + tile_count(g[3])
            == 16,
{
    lemma_cells(g);
    lemma_line_sum_four(g[0]);
    lemma_line_sum_four(g[1]);
    lemma_line_sum_four(g[2]);
    lemma_line_sum_four(g[3]);
    assert(line_sum(g[0]) == g[0][0] + g[0][1] + g[0][2] + g[0][3]);
    assert(line_sum(g[1]) == g[1][0] + g[1][1] + g[1][2] + g[1][3]);
    assert(line_sum(g[2]) == g[2][0] + g[2][1] + g[2][2] + g[2][3]);
    assert(line_sum(g[3]) == g[3][0] + g[3][1] + g[3][2] + g[3][3]);
    assert(tile_count(g[0]) == (1 - z(g[0][0])) + (1 - z(g[0][1])) + (1 - z(g[0][2]))
        + (1 - z(g[0][3])));
    assert(tile_count(g[1]) == (1 - z(g[1][0])) + (1 - z(g[1][1])) + (1 - z(g[1][2]))
        + (1 - z(g[1][3])));
    assert(tile_count(g[2]) == (1 - z(g[2][0])) + (1 - z(g[2][1])) + (1 - z(g[2][2]))
        + (1 - z(g[2][3])));
    assert(tile_count(g[3]) == (1 - z(g[3][0])) + (1 - z(g[3][1])) + (1 - z(g[3][2]))
        + (1 - z(g[3][3])));
}

/// The total of the board, by columns.
proof fn lemma_total_columns(g: Grid)
    requires
        is_grid(g),
    ensures
        total(g) == line_sum(column(g, 0)) + line_sum(column(g, 1)) + line_sum(column(g, 2))
            + line_sum(column(g, 3)),
        empty_count(g) + tile_count(column(g, 0)) + tile_count(column(g, 1)) + tile_count(
            column(g, 2),
        ) + tile_count(column(g, 3)) == 16,
{
    lemma_cells(g);
    lemma_line_sum_four(column(g, 0));
    lemma_line_sum_four(column(g, 1));
    lemma_line_sum_four(column(g, 2));
    lemma_line_sum_four(column(g, 3));
    assert(column(g, 0)[0] == g[0][0] && column(g, 0)[1] == g[1][0] && column(g, 0)[2]
        == g[2][0] && column(g, 0)[3] == g[3][0]);
    assert(line_sum(column(g, 0)) == g[0][0] + g[1][0] + g[2][0] + g[3][0]);
    assert(column(g, 1)[0] == g[0][1] && column(g, 1)[1] == g[1][1] && column(g, 1)[2]
        == g[2][1] && column(g, 1)[3] == g[3][1]);
    assert(line_sum(column(g, 1)) == g[0][1] + g[1][1] + g[2][1] + g[3][1]);
    assert(column(g, 2)[0] == g[0][2] && column(g, 2)[1] == g[1][2] && column(g, 2)[2]
        == g[2][2] && column(g, 2)[3] == g[3][2]);
    assert(line_sum(column(g, 2)) == g[0][2] + g[1][2] + g[2][2] + g[3][2]);
    assert(column(g, 3)[0] == g[0][3] && column(g, 3)[1] == g[1][3] && column(g, 3)[2]
        == g[2][3] && column(g, 3)[3] == g[3][3]);
    assert(line_sum(column(g, 3)) == g[0][3] + g[1][3] + g[2][3] + g[3][3]);
    assert(tile_count(column(g, 0)) == (1 - z(g[0][0])) + (1 - z(g[1][0])) + (1 - z(g[2][0]))
        + (1 - z(g[3][0])));
    assert(tile_count(column(g, 1)) == (1 - z(g[0][1])) + (1 - z(g[1][1])) + (1 - z(g[2][1]))
        + (1 - z(g[3][1])));
    assert(tile_count(column(g, 2)) == (1 - z(g[0][2])) + (1 - z(g[1][2])) + (1 - z(g[2][2]))
        + (1 - z(g[3][2])));
    assert(tile_count(column(g, 3)) == (1 - z(g[0][3])) + (1 - z(g[1][3])) + (1 - z(g[2][3]))
        + (1 - z(g[3][3])));
}

proof fn lemma_reversed_sums(s: Seq<u64>)
    requires
        s.len() == 4,
    ensures
        line_sum(reversed(s)) == line_sum(s),
        tile_count(reversed(s)) == tile_count(s),
{
    lemma_line_sum_four(s);
    lemma_line_sum_four(reversed(s));
}

/// One line of a move: its sum is kept and it gains no tile.
proof fn lemma_line_move(s: Seq<u64>, rev: bool)
    requires
        s.len() == 4,
        line_sum(s) <= u64::MAX,
    ensures
        ({
            let r = if rev {
                reversed(slide(reversed(s)))
            } else {
                slide(s)
            };
            &&& r.len() == 4
            &&& line_sum(r) == line_sum(s)
            &&& tile_count(r) <= tile_count(s)
        }),
{
    crate::line::lemma_slide_keeps_sum(s);
    lemma_reversed_sums(s);
    let t = reversed(s);
    crate::line::lemma_slide_keeps_sum(t);
    lemma_reversed_sums(slide(t));
}

/// The tiles of a move keep the total of the board, and never add a tile:
/// only the new tile that follows a move does.
pub proof fn lemma_move_keeps_total(g: Grid, d: Direction)
    requires
        movable(g),
    ensures
        is_grid(slid(g, d)),
        total(slid(g, d)) == total(g),
        empty_count(slid(g, d)) >= empty_count(g),
{
    let h = slid(g, d);
    lemma_total_rows(g);
    lemma_total_columns(g);
    match d {
        Direction::Left | Direction::Right => {
            let rev = d == Direction::Right;
            assert forall|i: int| 0 <= i < 4 implies {
                &&& #[trigger] h[i].len() == 4
                &&& line_sum(h[i]) == line_sum(g[i])
                &&& tile_count(h[i]) <= tile_count(g[i])
            } by {
                lemma_line_move(g[i], rev);
            }
            lemma_total_rows(h);
        },
        Direction::Up | Direction::Down => {
            let rev = d == Direction::Down;
            assert forall|j: int| 0 <= j < 4 implies {
                &&& #[trigger] column(h, j) == if rev {
                    reversed(slide(reversed(column(g, j))))
                } else {
                    slide(column(g, j))
                }
                &&& line_sum(column(h, j)) == line_sum(column(g, j))
                &&& tile_count(column(h, j)) <= tile_count(column(g, j))
            } by {
                lemma_line_move(column(g, j), rev);
                if rev {
                    assert(column(h, j) =~= reversed(slide(reversed(column(g, j)))));
                } else {
                    assert(column(h, j) =~= slide(column(g, j)));
                }
            }
            lemma_total_columns(h);
        },
    }
}

/// A move that changes nothing spawns nothing, so making it again finds
/// the same board and changes nothing again.
pub proof fn lemma_move_twice(g: Grid, d: Direction)
    requires
        slid(g, d) == g,
    ensures
        slid(slid(g, d), d) == slid(g, d),
{
}

proof fn lemma_line_cells(s: Seq<u64>)
    requires
        s.len() == 4,
        forall|k: int| 0 <= k < 4 ==> s[k] <= TILE_LIMIT,
    ensures
        forall|k: int| 0 <= k < 4 ==> #[trigger] slide(s)[k] <= 4 * TILE_LIMIT,
        forall|k: int| 0 <= k < 4 ==> #[trigger] reversed(slide(reversed(s)))[k] <= 4 * TILE_LIMIT,
{
    lemma_line_bound(s);
    lemma_line_move(s, false);
    lemma_line_move(s, true);
    crate::line::lemma_line_sum_nonneg(slide(s));
    crate::line::lemma_line_sum_nonneg(reversed(slide(reversed(s))));
}

/// After a legal move from a board within `TILE_LIMIT`, no cell exceeds
/// four times that limit.
pub proof fn lemma_move_cells(g: Grid, d: Direction, h: Grid)
    requires
        legal_move(g, d, h),
        in_range(g),
    ensures
        is_grid(h),
        forall|i: int, j: int| 0 <= i < 4 && 0 <= j < 4 ==> #[trigger] h[i][j] <= 4 * TILE_LIMIT,
{
    let m = slid(g, d);
    lemma_move_keeps_total(g, d);
    assert forall|i: int, j: int| 0 <= i < 4 && 0 <= j < 4 implies #[trigger] m[i][j] <= 4
        * TILE_LIMIT by {
        match d {
            Direction::Left => {
                lemma_line_cells(g[i]);
                assert(m[i][j] == slide(g[i])[j]);
            },
            Direction::Right => {
                lemma_line_cells(g[i]);
                assert(m[i][j] == reversed(slide(reversed(g[i])))[j]);
            },
            Direction::Up => {
                lemma_line_cells(column(g, j));
                assert(m[i][j] == slide(column(g, j))[i]);
            },
            Direction::Down => {
                lemma_line_cells(column(g, j));
                assert(m[i][j] == reversed(slide(reversed(column(g, j))))[i]);
            },
        }
    }
    let (p, v) = choose|p: int, v: u64|
        0 <= p < empty_count(m) && (v == 2 || v == 4) && h == #[trigger] placed(m, p, v);
    assert forall|i: int, j: int| 0 <= i < 4 && 0 <= j < 4 implies #[trigger] h[i][j] <= 4
        * TILE_LIMIT by {
        assert(m[i][j] <= 4 * TILE_LIMIT);
    }
}

/// Rank counting never goes down along the board.
pub proof fn lemma_empties_monotone(g: Grid, a: int, b: int)
    requires
        0 <= a <= b,
    ensures
        empties_before(g, a) <= empties_before(g, b),
    decreases b - a,
{
    if a < b {
        lemma_empties_monotone(g, a, b - 1);
    }
}

proof fn lemma_flat_index(k: int)
    requires
        0 <= k < 16,
    ensures
        0 <= k / 4 < 4,
        0 <= k % 4 < 4,
        4 * (k / 4) + k % 4 == k,
{
}

/// `placed` puts the tile exactly in cell `k` when that cell is empty with rank `p`.
proof fn lemma_placed_at(g: Grid, p: int, v: u64, k: int)
    requires
        0 <= k < 16,
        flat(g, k) == 0,
        empties_before(g, k) == p,
    ensures
        forall|i: int, j: int|
            0 <= i < 4 && 0 <= j < 4 ==> (g[i][j] == 0 && empties_before(g, 4 * i + j) == p)
                == (4 * i + j == k),
{
    lemma_flat_index(k);
    assert forall|i: int, j: int| 0 <= i < 4 && 0 <= j < 4 implies (g[i][j] == 0
        && empties_before(g, 4 * i + j) == p) == (4 * i + j == k) by {
        let m = 4 * i + j;
        assert(m / 4 == i && m % 4 == j);
        if m < k {
            lemma_empties_monotone(g, m + 1, k);
        } else if m > k {
            lemma_empties_monotone(g, k + 1, m);
        }
    }
}

/// With no empty cell of rank `p`, `placed` changes nothing.
proof fn lemma_placed_none(g: Grid, p: int, v: u64)
    requires
        empty_count(g) <= p,
    ensures
        forall|i: int, j: int|
            0 <= i < 4 && 0 <= j < 4 ==> !(g[i][j] == 0 && empties_before(g, 4 * i + j) == p),
{
    assert forall|i: int, j: int| 0 <= i < 4 && 0 <= j < 4 implies !(g[i][j] == 0
        && empties_before(g, 4 * i + j) == p) by {
        let m = 4 * i + j;
        assert(m / 4 == i && m % 4 == j);
        lemma_empties_monotone(g, m + 1, 16);
    }
}

proof fn lemma_empty_count_zero()
    ensures
        empty_count(zero_grid()) == 16,
{
    reveal_with_fuel(empties_before, 17);
}

/// Putting a tile in an empty cell adds its value to the sum and takes one
/// empty cell away.
pub proof fn lemma_placed_counts(g: Grid)
    ensures
        forall|p: int, v: u64|
            #![trigger placed(g, p, v)]
            0 <= p < empty_count(g) && v != 0 ==> {
                &&& total(placed(g, p, v)) == total(g) + v
                &&& empty_count(placed(g, p, v)) + 1 == empty_count(g)
            },
{
    assert forall|p: int, v: u64| #![trigger placed(g, p, v)] 0 <= p < empty_count(g)
        && v != 0 implies {
        &&& total(placed(g, p, v)) == total(g) + v
        &&& empty_count(placed(g, p, v)) + 1 == empty_count(g)
    } by {
        lemma_placed_prefix(g, p, v, 16);
    }
}

proof fn lemma_placed_prefix(g: Grid, p: int, v: u64, k: int)
    requires
        0 <= k <= 16,
        0 <= p,
        v != 0,
    ensures
        flat_sum(placed(g, p, v), k) == flat_sum(g, k) + if empties_before(g, k) > p {
            v as int
        } else {
            0int
        },
        empties_before(placed(g, p, v), k) + (if empties_before(g, k) > p {
            1int
        } else {
            0int
        }) == empties_before(g, k),
    decreases k,
{
    if k > 0 {
        lemma_placed_prefix(g, p, v, k - 1);
        lemma_flat_index(k - 1);
        let m = k - 1;
        assert(4 * (m / 4) + m % 4 == m);
    }
}

} // verus!
