use tile_search::board::{Direction, GameBoard, TILE_LIMIT};
use tile_search::line::slide_line;

fn board(grid: [[u64; 4]; 4]) -> GameBoard {
    GameBoard { grid }
}

fn tiles(b: &GameBoard) -> usize {
    b.grid.iter().flatten().filter(|&&x| x != 0).count()
}

fn sum(b: &GameBoard) -> u64 {
    b.grid.iter().flatten().sum()
}

#[test]
fn line_merges_first_pair() {
    assert_eq!(slide_line([2, 2, 0, 0]), ([4, 0, 0, 0], true));
    assert_eq!(slide_line([0, 2, 0, 2]), ([4, 0, 0, 0], true));
    assert_eq!(slide_line([2, 4, 8, 16]), ([2, 4, 8, 16], false));
    assert_eq!(slide_line([0, 0, 0, 0]), ([0, 0, 0, 0], false));
}

#[test]
fn line_merges_each_tile_at_most_once() {
    assert_eq!(slide_line([2, 2, 4, 0]), ([4, 4, 0, 0], true));
    assert_eq!(slide_line([2, 2, 2, 2]), ([4, 4, 0, 0], true));
    assert_eq!(slide_line([2, 2, 4, 4]), ([4, 8, 0, 0], true));
    assert_eq!(slide_line([4, 2, 2, 0]), ([4, 4, 0, 0], true));
    assert_eq!(slide_line([2, 4, 4, 2]), ([2, 8, 2, 0], true));
    assert_eq!(slide_line([2, 2, 2, 0]), ([4, 2, 0, 0], true));
}

#[test]
fn slide_left_and_right() {
    let mut b = board([[2, 0, 0, 2], [0, 4, 4, 4], [0, 0, 0, 0], [2, 4, 8, 16]]);
    assert!(b.slide_tiles(Direction::Left));
    assert_eq!(b.grid, [[4, 0, 0, 0], [8, 4, 0, 0], [0, 0, 0, 0], [2, 4, 8, 16]]);
    let mut c = board([[2, 0, 0, 2], [0, 4, 4, 8], [4, 4, 2, 2], [2, 4, 8, 16]]);
    assert!(c.slide_tiles(Direction::Right));
    assert_eq!(c.grid, [[0, 0, 0, 4], [0, 0, 8, 8], [0, 0, 8, 4], [2, 4, 8, 16]]);
}

#[test]
fn slide_up_and_down() {
    let mut b = board([[2, 0, 0, 0], [0, 0, 0, 0], [2, 0, 4, 0], [4, 2, 4, 0]]);
    assert!(b.slide_tiles(Direction::Up));
    assert_eq!(b.grid, [[4, 2, 8, 0], [4, 0, 0, 0], [0, 0, 0, 0], [0, 0, 0, 0]]);
    let mut c = board([[2, 0, 0, 0], [0, 0, 0, 0], [2, 0, 4, 0], [8, 2, 4, 0]]);
    assert!(c.slide_tiles(Direction::Down));
    assert_eq!(c.grid, [[0, 0, 0, 0], [0, 0, 0, 0], [4, 0, 0, 0], [8, 2, 8, 0]]);
}

#[test]
fn slide_keeps_sum_and_never_adds_tiles() {
    let start = board([[2, 2, 4, 8], [0, 2, 0, 2], [4, 4, 4, 4], [0, 0, 2, 0]]);
    for d in [Direction::Up, Direction::Left, Direction::Down, Direction::Right] {
        let mut b = start;
        b.slide_tiles(d);
        assert_eq!(sum(&b), sum(&start));
        assert!(tiles(&b) <= tiles(&start));
    }
}

#[test]
fn second_slide_after_a_no_op_changes_nothing() {
    let settled = board([[2, 4, 8, 16], [4, 0, 0, 0], [2, 8, 0, 0], [0, 0, 0, 0]]);
    let mut b = settled;
    assert!(!b.slide_tiles(Direction::Left));
    assert!(!b.slide_tiles(Direction::Left));
    assert_eq!(b, settled);
    let mut m = settled;
    assert!(!m.make_move(Direction::Left));
    assert!(!m.make_move(Direction::Left));
    assert_eq!(m, settled);
}

#[test]
fn merged_tile_waits_for_the_next_move() {
    let mut b = board([[2, 2, 4, 0], [0; 4], [0; 4], [0; 4]]);
    assert!(b.slide_tiles(Direction::Left));
    assert_eq!(b.grid[0], [4, 4, 0, 0]);
    assert!(b.slide_tiles(Direction::Left));
    assert_eq!(b.grid[0], [8, 0, 0, 0]);
    let mut r = board([[4, 4, 2, 2], [0; 4], [0; 4], [0; 4]]);
    assert!(r.slide_tiles(Direction::Right));
    assert_eq!(r.grid[0], [0, 0, 8, 4]);
    let mut l = board([[2, 2, 2, 2], [0; 4], [0; 4], [0; 4]]);
    assert!(l.slide_tiles(Direction::Left));
    assert_eq!(l.grid[0], [4, 4, 0, 0]);
}

#[test]
fn move_that_changes_the_board_adds_one_tile() {
    let start = board([[2, 0, 0, 0], [0, 0, 0, 0], [0, 0, 0, 0], [0, 2, 0, 0]]);
    let mut slid = start;
    slid.slide_tiles(Direction::Left);
    let mut b = start;
    assert!(b.make_move(Direction::Left));
    assert_eq!(tiles(&b), tiles(&slid) + 1);
    let added = sum(&b) - sum(&slid);
    assert!(added == 2 || added == 4);
    let mut differing = 0;
    for i in 0..4 {
        for j in 0..4 {
            if b.grid[i][j] != slid.grid[i][j] {
                assert_eq!(slid.grid[i][j], 0);
                differing += 1;
            }
        }
    }
    assert_eq!(differing, 1);
}

#[test]
fn move_on_a_stuck_board_does_nothing() {
    let start = board([[2, 4, 2, 4], [4, 2, 4, 2], [2, 4, 2, 4], [4, 2, 4, 2]]);
    for d in [Direction::Up, Direction::Left, Direction::Down, Direction::Right] {
        let mut b = start;
        assert!(!b.make_move(d));
        assert_eq!(b, start);
    }
}

#[test]
fn goal_detection() {
    let b = board([[2, 0, 0, 0], [0, 0, 0, 0], [0, 0, 64, 0], [0, 2, 0, 0]]);
    assert!(b.is_goal(64));
    assert!(b.is_goal(2));
    assert!(!b.is_goal(4));
    assert!(!b.is_goal(128));
    assert!(board([[0; 4]; 4]).is_goal(0));
    assert!(!board([[2; 4]; 4]).is_goal(0));
}

#[test]
fn new_board_has_two_small_tiles() {
    for _ in 0..50 {
        let b = GameBoard::new();
        assert_eq!(tiles(&b), 2);
        assert!(b.grid.iter().flatten().all(|&x| x == 0 || x == 2 || x == 4));
    }
}

#[test]
fn place_tile_uses_rank_among_empty_cells() {
    let mut b = board([[0; 4]; 4]);
    b.place_tile(0, 2);
    assert_eq!(b.grid[0][0], 2);
    b.place_tile(4, 4);
    assert_eq!(b.grid[1][1], 4);
    b.place_tile(13, 2);
    assert_eq!(b.grid[3][3], 2);
    let before = b;
    b.place_tile(13, 2);
    assert_eq!(b, before);
}

#[test]
fn spawn_fills_an_empty_cell_or_nothing() {
    let mut b = board([[2, 4, 2, 4], [4, 2, 4, 2], [2, 4, 2, 0], [4, 2, 4, 2]]);
    b.spawn_new_tile();
    assert!(b.grid[2][3] == 2 || b.grid[2][3] == 4);
    let full = b;
    b.spawn_new_tile();
    assert_eq!(b, full);
}

#[test]
fn count_and_range() {
    let b = board([[2, 0, 0, 0], [0, 0, 0, 0], [0, 0, 0, 0], [0, 2, 0, 0]]);
    assert_eq!(b.count_empty(), 14);
    assert!(b.tiles_in_range());
    assert!(!board([[TILE_LIMIT * 2, 0, 0, 0], [0; 4], [0; 4], [0; 4]]).tiles_in_range());
    assert!(b.same_cells(&b.clone()));
    assert!(!b.same_cells(&board([[0; 4]; 4])));
}

#[test]
fn move_counter() {
    let mut n: u64 = 41;
    GameBoard::increment_move_counter(&mut n);
    assert_eq!(n, 42);
    GameBoard::reset_move_counter(&mut n);
    assert_eq!(n, 0);
    let mut top = u64::MAX;
    GameBoard::increment_move_counter(&mut top);
    assert_eq!(top, u64::MAX);
}

#[test]
fn direction_names() {
    assert_eq!(Direction::Up.name(), "up");
    assert_eq!(Direction::Left.name(), "left");
    assert_eq!(Direction::Down.name(), "down");
    assert_eq!(Direction::Right.name(), "right");
}

#[test]
fn successors_in_direction_order() {
    let b = board([[2, 0, 0, 0], [0, 0, 0, 0], [0, 0, 0, 0], [0, 2, 0, 0]]);
    let succ = b.enumerate_successors();
    let dirs: Vec<Direction> = succ.iter().map(|e| e.1).collect();
    assert_eq!(dirs, vec![Direction::Up, Direction::Left, Direction::Down, Direction::Right]);
    for (s, _) in &succ {
        assert_eq!(tiles(s), 3);
        let added = sum(s) - sum(&b);
        assert!(added == 2 || added == 4);
    }
    let corner = board([[2, 0, 0, 0], [0; 4], [0; 4], [0; 4]]);
    let dirs: Vec<Direction> = corner.enumerate_successors().iter().map(|e| e.1).collect();
    assert_eq!(dirs, vec![Direction::Down, Direction::Right]);
    let stuck = board([[2, 4, 2, 4], [4, 2, 4, 2], [2, 4, 2, 4], [4, 2, 4, 2]]);
    assert!(stuck.enumerate_successors().is_empty());
}

#[test]
fn spawn_draws_vary_in_place_and_value() {
    let mut positions = std::collections::HashSet::new();
    let mut values = std::collections::HashSet::new();
    for _ in 0..2000 {
        let mut b = board([[0; 4]; 4]);
        b.spawn_new_tile();
        assert_eq!(tiles(&b), 1);
        for i in 0..4 {
            for j in 0..4 {
                if b.grid[i][j] != 0 {
                    positions.insert((i, j));
                    values.insert(b.grid[i][j]);
                }
            }
        }
    }
    assert!(positions.len() > 1);
    assert_eq!(values.len(), 2);
    assert!(values.contains(&2) && values.contains(&4));
}

#[test]
fn roll_of_one_gives_a_four() {
    assert_eq!(tile_search::board::tile_for_roll(1), 4);
    for roll in 2..=10 {
        assert_eq!(tile_search::board::tile_for_roll(roll), 2);
    }
}

#[test]
fn large_tiles_move_and_merge() {
    let big = 1u64 << 61;
    let mut b = board([[big, big, 0, 0], [0; 4], [0; 4], [0; 4]]);
    assert!(b.slide_tiles(Direction::Left));
    assert_eq!(b.grid[0], [big * 2, 0, 0, 0]);
    let mut c = board([[0, 0, big, big], [0; 4], [0; 4], [0; 4]]);
    assert!(c.slide_tiles(Direction::Right));
    assert_eq!(c.grid[0], [0, 0, 0, big * 2]);
}
