use tile_search::board::GameBoard;
use tile_search::heuristic::heuristic;

#[test]
fn score_of_empty_board() {
    assert_eq!(heuristic(&GameBoard { grid: [[0; 4]; 4] }), 41);
}

#[test]
fn score_with_corner_and_monotonicity() {
    let b = GameBoard { grid: [[2, 0, 0, 0], [0, 0, 0, 0], [0, 0, 0, 0], [0, 2, 0, 0]] };
    assert_eq!(heuristic(&b), 51);
}

#[test]
fn score_with_smoothness() {
    let b = GameBoard { grid: [[4, 2, 0, 0], [2, 0, 0, 0], [0, 0, 0, 0], [0, 0, 0, 0]] };
    assert_eq!(heuristic(&b), 70);
}

#[test]
fn score_with_merge_pair() {
    let b = GameBoard { grid: [[2, 2, 0, 0], [0, 0, 0, 0], [0, 0, 0, 0], [0, 0, 0, 0]] };
    assert_eq!(heuristic(&b), 53);
}

#[test]
fn score_without_corner_bonus() {
    let b = GameBoard { grid: [[0, 0, 0, 0], [0, 8, 0, 0], [0, 0, 0, 0], [0, 0, 0, 0]] };
    assert_eq!(heuristic(&b), 47);
}

#[test]
fn score_is_repeatable() {
    let b = GameBoard { grid: [[2, 4, 8, 16], [0, 2, 2, 0], [64, 0, 4, 4], [0, 0, 0, 2]] };
    let first = heuristic(&b);
    for _ in 0..10 {
        assert_eq!(heuristic(&b.clone()), first);
    }
}
