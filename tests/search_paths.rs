use tile_search::board::{Direction, GameBoard, TILE_LIMIT};
use tile_search::frontier::{Frontier, QueueItem};
use tile_search::parents::{reconstruct_path, ParentMap};
use tile_search::search::{a_star_search, Search, SearchStep};

fn sum(b: &GameBoard) -> u64 {
    b.grid.iter().flatten().sum()
}

#[test]
fn scenario_two_tiles_reach_four() {
    let start = GameBoard { grid: [[2, 0, 0, 0], [0, 0, 0, 0], [0, 0, 0, 0], [0, 2, 0, 0]] };
    let mut made: u64 = 0;
    let path = a_star_search(start, 4, &mut made).expect("a path to 4");
    assert!(!path.is_empty());
    assert!(path.last().unwrap().0.is_goal(4));
    assert!(made >= path.len() as u64);
    let mut prev = start;
    for (b, d) in &path {
        let mut slid = prev;
        assert!(slid.slide_tiles(*d));
        let added = sum(b) - sum(&slid);
        assert!(added == 2 || added == 4);
        prev = *b;
    }
}

#[test]
fn scenario_stuck_board_is_exhausted() {
    let start = GameBoard { grid: [[2, 4, 2, 4], [4, 2, 4, 2], [2, 4, 2, 4], [4, 2, 4, 2]] };
    let mut made: u64 = 7;
    assert!(a_star_search(start, 2048, &mut made).is_none());
    assert_eq!(made, 7);
}

#[test]
fn scenario_single_record_path() {
    let a = GameBoard { grid: [[0, 0, 0, 0], [0, 0, 0, 0], [0, 0, 0, 0], [2, 0, 0, 0]] };
    let b = GameBoard { grid: [[2, 2, 0, 0], [0, 0, 0, 0], [0, 0, 0, 0], [0, 0, 0, 0]] };
    let mut map = ParentMap::new();
    map.insert(b, a, Direction::Up);
    let path = reconstruct_path(&map, b);
    assert_eq!(path, vec![(b, Direction::Up)]);
    assert_eq!(path.len(), 1);
    assert!(reconstruct_path(&map, a).is_empty());
}

#[test]
fn parent_map_last_record_wins() {
    let a = GameBoard { grid: [[0, 0, 0, 0], [0, 0, 0, 0], [0, 0, 0, 0], [2, 0, 0, 0]] };
    let a2 = GameBoard { grid: [[0, 0, 0, 2], [0, 0, 0, 0], [0, 0, 0, 0], [0, 0, 0, 0]] };
    let b = GameBoard { grid: [[2, 2, 0, 0], [0, 0, 0, 0], [0, 0, 0, 0], [0, 0, 0, 0]] };
    let mut map = ParentMap::new();
    assert!(map.get(&b).is_none());
    map.insert(b, a, Direction::Up);
    map.insert(b, a2, Direction::Left);
    assert_eq!(map.get(&b), Some((a2, Direction::Left)));
    assert!(map.get(&a).is_none());
}

#[test]
fn start_that_holds_goal_needs_no_move() {
    let start = GameBoard { grid: [[2, 0, 0, 0], [0, 0, 0, 0], [0, 0, 0, 0], [0, 2, 0, 0]] };
    let mut made: u64 = 5;
    assert_eq!(a_star_search(start, 2, &mut made), Some(vec![]));
    assert_eq!(made, 5);
}

#[test]
fn board_beyond_tile_limit_is_not_expanded() {
    let start = GameBoard { grid: [[TILE_LIMIT * 2, 0, 0, 0], [0; 4], [0; 4], [0; 4]] };
    let mut made: u64 = 0;
    assert!(a_star_search(start, 2, &mut made).is_none());
    assert_eq!(made, 0);
}

#[test]
fn steps_expand_each_board_once() {
    let start = GameBoard { grid: [[2, 4, 2, 4], [4, 2, 4, 2], [2, 4, 2, 4], [4, 2, 4, 0]] };
    let mut search = Search::new(start, 4096);
    let mut made: u64 = 0;
    match search.step(&mut made) {
        SearchStep::Expanded { item, expanded, successors } => {
            assert_eq!(item.game_board, start);
            assert_eq!(item.moves, 0);
            assert_eq!(expanded, 1);
            assert_eq!(successors.len(), 2);
        }
        other => panic!("unexpected step {:?}", other),
    }
    assert_eq!(made, 2);
    assert_eq!(search.expanded_count(), 1);
    let mut expanded_boards = vec![start];
    for _ in 0..200 {
        match search.step(&mut made) {
            SearchStep::Expanded { item, expanded, successors } => {
                assert!(!expanded_boards.contains(&item.game_board));
                expanded_boards.push(item.game_board);
                assert_eq!(expanded, expanded_boards.len());
                assert!(successors.len() <= 4);
            }
            SearchStep::Skipped(item) => assert!(expanded_boards.contains(&item.game_board)),
            SearchStep::Found(_) => panic!("no 4096 here"),
            SearchStep::Exhausted => break,
        }
    }
    assert_eq!(search.expanded_count(), expanded_boards.len());
}

#[test]
fn frontier_gives_lowest_cost_first() {
    let board = GameBoard { grid: [[0; 4]; 4] };
    let mut f = Frontier::new();
    for (k, cost) in [5u64, 1, 4, 1, 3, 9, 2].iter().enumerate() {
        f.push(QueueItem { cost: *cost, moves: k as u64, game_board: board });
    }
    assert_eq!(f.len(), 7);
    let mut costs = Vec::new();
    while let Some(item) = f.pop() {
        costs.push(item.cost);
    }
    assert_eq!(costs, vec![1, 1, 2, 3, 4, 5, 9]);
    assert!(f.pop().is_none());
}

#[test]
fn expand_pushes_unexpanded_successors_with_cost_and_moves() {
    let start = GameBoard { grid: [[2, 0, 0, 0], [0, 0, 0, 0], [0, 0, 0, 0], [0, 2, 0, 0]] };
    let mut search = Search::new(start, 2048);
    let mut made: u64 = 0;
    let successors = match search.step(&mut made) {
        SearchStep::Expanded { successors, .. } => successors,
        other => panic!("unexpected step {:?}", other),
    };
    assert_eq!(successors.len(), 4);
    assert_eq!(made, 4);
    // Expanding the start board again adds an entry for each successor that
    // was not expanded: all four, each one move further on.
    let before = search.expanded_count();
    search.expand(start, 3, &successors, &mut made);
    assert_eq!(made, 8);
    assert_eq!(search.expanded_count(), before);
    // Every entry taken from now on was pushed by an expansion: its cost is
    // its board's score plus its moves.
    let mut seen_later = false;
    for _ in 0..200 {
        match search.step(&mut made) {
            SearchStep::Expanded { item, .. } | SearchStep::Skipped(item) => {
                assert_eq!(item.cost, tile_search::heuristic(&item.game_board) + item.moves);
                if item.moves == 4 {
                    seen_later = true;
                }
            }
            other => panic!("unexpected step {:?}", other),
        }
    }
    assert!(seen_later || search.expanded_count() > 1);
}

#[test]
fn expand_counter_stops_at_max() {
    let start = GameBoard { grid: [[2, 0, 0, 0], [0, 0, 0, 0], [0, 0, 0, 0], [0, 2, 0, 0]] };
    let mut search = Search::new(start, 2048);
    let mut made: u64 = u64::MAX - 1;
    match search.step(&mut made) {
        SearchStep::Expanded { successors, .. } => assert_eq!(successors.len(), 4),
        other => panic!("unexpected step {:?}", other),
    }
    assert_eq!(made, u64::MAX);
}
