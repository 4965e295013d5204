//! Best-first search from a start board to a board that holds the goal tile.
//!
//! The frontier is a binary min-heap on cost, so an entry of lowest cost is
//! taken first (which one among equal costs is left open). A board is
//! expanded at most once: the expanded boards are kept, and an entry whose
//! board was already expanded is dropped when it comes up.
use vstd::prelude::*;
use vstd::multiset::group_multiset_axioms;
use vstd::seq_lib::group_to_multiset_ensures;
use crate::board::{
    changing_directions, has_value, in_range, legal_move, lemma_move_cells,
    lemma_stuck_no_successor, stuck, Direction, GameBoard, Grid,
};
use crate::heuristic::{heuristic, heuristic_value};
use crate::closed_set::ClosedSet;
use crate::frontier::{Frontier, QueueItem};
use crate::parents::{is_chain, path_view, reconstruct_path, ParentMap};

verus! {

/// What one step of the search did.
#[derive(Debug)]
pub enum SearchStep {
    /// The board taken holds the goal; the moves that lead to it from the start.
    Found(Vec<(GameBoard, Direction)>),
    /// The entry taken had a board expanded before and was dropped.
    Skipped(QueueItem),
    /// The board of the entry taken was expanded, making `successors`;
    /// `expanded` boards have been so far.
    Expanded { item: QueueItem, expanded: usize, successors: Vec<(GameBoard, Direction)> },
    /// The frontier is empty: no goal was found.
    Exhausted,
}

/// Each move of `path` is legal, the first from `start`, each next from the
/// board that the one before it made.
pub open spec fn valid_path(start: Grid, path: Seq<(Grid, Direction)>) -> bool {
    forall|k: int|
        0 <= k < path.len() ==> legal_move(
            if k == 0 {
                start
            } else {
                path[k - 1].0
            },
            #[trigger] path[k].1,
            path[k].0,
        )
}

/// The board where `path` ends: `start` itself for no move.
pub open spec fn path_end(start: Grid, path: Seq<(Grid, Direction)>) -> Grid {
    if path.len() == 0 {
        start
    } else {
        path.last().0
    }
}

/// No board before the last of `path`, nor `start` when there is a move,
/// holds `goal`.
pub open spec fn goal_only_at_end(start: Grid, path: Seq<(Grid, Direction)>, goal: u64) -> bool {
    &&& path.len() > 0 ==> !has_value(start, goal)
    &&& forall|k: int| 0 <= k < path.len() - 1 ==> !has_value(#[trigger] path[k].0, goal)
}

/// `x`, or `u64::MAX` where `x` is larger.
pub open spec fn saturated(x: int) -> u64 {
    if x > u64::MAX {
        u64::MAX
    } else {
        x as u64
    }
}

/// The frontier entry of a successor `s` of a board reached in `moves` moves.
pub open spec fn entry_for(s: GameBoard, moves: u64) -> QueueItem {
    QueueItem {
        cost: saturated(heuristic_value(s@) + moves + 1),
        moves: saturated(moves + 1),
        game_board: s,
    }
}

/// The entries that `succ` adds to the frontier, in order: one for each
/// successor whose board is not in `closed`.
pub open spec fn pushed_entries(
    closed: Seq<Grid>,
    moves: u64,
    succ: Seq<(GameBoard, Direction)>,
) -> Seq<QueueItem>
    decreases succ.len(),
{
    if succ.len() == 0 {
        Seq::empty()
    } else {
        let rest = pushed_entries(closed, moves, succ.drop_last());
        if closed.contains(succ.last().0@) {
            rest
        } else {
            rest.push(entry_for(succ.last().0, moves))
        }
    }
}

/// The records `m` after each successor in `succ` whose board is not in
/// `closed` is recorded as made from `parent`, in order, the last one winning.
pub open spec fn recorded(
    m: Map<Grid, (Grid, Direction)>,
    closed: Seq<Grid>,
    parent: Grid,
    succ: Seq<(GameBoard, Direction)>,
) -> Map<Grid, (Grid, Direction)>
    decreases succ.len(),
{
    if succ.len() == 0 {
        m
    } else {
        let rest = recorded(m, closed, parent, succ.drop_last());
        if closed.contains(succ.last().0@) {
            rest
        } else {
            rest.insert(succ.last().0@, (parent, succ.last().1))
        }
    }
}

pub struct Search {
    frontier: Frontier,
    closed: ClosedSet,
    came_from: ParentMap,
    start: GameBoard,
    goal: u64,
}

impl Search {
    pub closed spec fn start_board(&self) -> Grid {
        self.start@
    }

    pub closed spec fn goal_value(&self) -> u64 {
        self.goal
    }

    /// The boards expanded so far, in the order of expansion.
    pub closed spec fn closed_boards(&self) -> Seq<Grid> {
        self.closed@
    }

    /// The frontier entries (in no particular order).
    pub closed spec fn frontier_items(&self) -> Seq<QueueItem> {
        self.frontier@
    }

    /// The boards of the frontier entries.
    pub open spec fn frontier_boards(&self) -> Seq<Grid> {
        self.frontier_items().map_values(|q: QueueItem| q.game_board@)
    }

    /// The records: for each board reached, the board it came from and the move.
    pub closed spec fn parents(&self) -> Map<Grid, (Grid, Direction)> {
        self.came_from@
    }

    /// `item` is a frontier entry whose cost no other entry undercuts.
    pub open spec fn lowest_item(&self, item: QueueItem) -> bool {
        &&& self.frontier_items().contains(item)
        &&& forall|j: int|
            0 <= j < self.frontier_items().len() ==> item.cost
                <= #[trigger] self.frontier_items()[j].cost
    }

    /// How the records, the expanded boards and the frontier hang together.
    pub closed spec fn records_agree(&self) -> bool {
        let s = self.start@;
        let c = self.closed_boards();
        let m = self.came_from@;
        &&& self.came_from.wf()
        &&& self.closed.wf()
        &&& self.frontier.wf()
        &&& forall|k: Grid| #[trigger] m.contains_key(k) ==> c.contains(m[k].0) && c.contains(s)
        &&& forall|i: int| 0 <= i < c.len() ==> #[trigger] c[i] == s || m.contains_key(c[i])
        &&& forall|i: int| 0 <= i < c.len() ==> !has_value(#[trigger] c[i], self.goal)
        &&& !m.contains_key(s)
        &&& forall|i: int|
            0 <= i < self.frontier@.len() ==> #[trigger] self.frontier@[i].game_board@ == s
                || m.contains_key(self.frontier@[i].game_board@)
    }

    /// No board is expanded twice, and the records agree with the boards.
    pub open spec fn wf(&self) -> bool {
        &&& self.closed_boards().no_duplicates()
        &&& self.records_agree()
    }

    /// A search at its start: the frontier holds the start board alone.
    pub fn new(start: GameBoard, goal: u64) -> (r: Search)
        ensures
            r.wf(),
            r.start_board() == start@,
            r.goal_value() == goal,
            r.closed_boards() == Seq::<Grid>::empty(),
            r.frontier_boards() == seq![start@],
    {
        let mut frontier = Frontier::new();
        let first = QueueItem { cost: 0, moves: 0, game_board: start };
        frontier.push(first);
        assert(frontier@.contains(frontier@[0]));
        assert(frontier@[0] == first);
        let r = Search { frontier, closed: ClosedSet::new(), came_from: ParentMap::new(), start,
            goal };
        assert(r.closed_boards() =~= Seq::<Grid>::empty());
        assert(r.frontier_boards() =~= seq![start@]);
        assert(r.closed_boards().len() == 0);
        r
    }

    /// The number of boards expanded so far.
    pub fn expanded_count(&self) -> (r: usize)
        ensures
            r == self.closed_boards().len(),
    {
        self.closed.len()
    }

    /// Takes a lowest-cost entry of the frontier. A goal board ends the
    /// search with its path; a board expanded before is dropped; any other is
    /// expanded: a board whose tiles are within `TILE_LIMIT` gets its
    /// successors from `enumerate_successors`, a board with a larger tile gets
    /// none, and `expand` deals with them. The cost takes the score as it is:
    /// a board that scores higher comes up later.
    pub fn step(&mut self, boards_made: &mut u64) -> (r: SearchStep)
        requires
            old(self).wf(),
        ensures
            final(self).wf(),
            final(self).start_board() == old(self).start_board(),
            final(self).goal_value() == old(self).goal_value(),
            match r {
                SearchStep::Found(path) => {
                    &&& valid_path(old(self).start_board(), path_view(path@))
                    &&& has_value(
                        path_end(old(self).start_board(), path_view(path@)),
                        old(self).goal_value(),
                    )
                    &&& goal_only_at_end(
                        old(self).start_board(),
                        path_view(path@),
                        old(self).goal_value(),
                    )
                    &&& *final(boards_made) == *old(boards_made)
                },
                SearchStep::Skipped(item) => {
                    &&& old(self).lowest_item(item)
                    &&& old(self).closed_boards().contains(item.game_board@)
                    &&& final(self).closed_boards() == old(self).closed_boards()
                    &&& final(self).frontier_items().to_multiset() == old(
                        self,
                    ).frontier_items().to_multiset().remove(item)
                    &&& final(self).frontier_items().len() + 1 == old(self).frontier_items().len()
                    &&& final(self).parents() == old(self).parents()
                    &&& *final(boards_made) == *old(boards_made)
                },
                SearchStep::Expanded { item, expanded, successors } => {
                    let b = item.game_board;
                    let c = old(self).closed_boards().push(b@);
                    &&& old(self).lowest_item(item)
                    &&& !old(self).closed_boards().contains(b@)
                    &&& !has_value(b@, old(self).goal_value())
                    &&& final(self).closed_boards() == c
                    &&& expanded == c.len()
                    &&& forall|k: int|
                        0 <= k < successors@.len() ==> legal_move(
                            b@,
                            #[trigger] successors@[k].1,
                            successors@[k].0@,
                        )
                    &&& successors@.map_values(|e: (GameBoard, Direction)| e.1) == if in_range(
                        b@,
                    ) {
                        changing_directions(b@, 4)
                    } else {
                        Seq::empty()
                    }
                    &&& !in_range(b@) ==> successors@.len() == 0
                    &&& final(self).frontier_items().to_multiset() == old(
                        self,
                    ).frontier_items().to_multiset().remove(item).add(
                        pushed_entries(c, item.moves, successors@).to_multiset(),
                    )
                    &&& successors@.len() == 0 ==> final(self).frontier_items().len() + 1 == old(
                        self,
                    ).frontier_items().len()
                    &&& final(self).parents() == recorded(old(self).parents(), c, b@, successors@)
                    &&& *final(boards_made) == saturated(*old(boards_made) + successors@.len())
                },
                SearchStep::Exhausted => {
                    &&& old(self).frontier_items().len() == 0
                    &&& final(self).closed_boards() == old(self).closed_boards()
                    &&& *final(boards_made) == *old(boards_made)
                },
            },
    {
        let ghost old_frontier = self.frontier@;
        let item = match self.frontier.pop() {
            None => {
                return SearchStep::Exhausted;
            },
            Some(item) => item,
        };
        let current = item.game_board;
        let moves_made = item.moves;
        proof {
            let i = choose|i: int| 0 <= i < old_frontier.len() && old_frontier[i] == item;
            assert(old_frontier[i].game_board@ == current@);
            assert(current@ == self.start@ || self.came_from@.contains_key(current@));
            assert forall|j: int| 0 <= j < self.frontier@.len() implies {
                let b = #[trigger] self.frontier@[j].game_board@;
                b == self.start@ || self.came_from@.contains_key(b)
            } by {
                assert(self.frontier@.contains(self.frontier@[j]));
                let k = choose|k: int|
                    0 <= k < old_frontier.len() && old_frontier[k] == self.frontier@[j];
                assert(old_frontier[k].game_board@ == self.frontier@[j].game_board@);
            }
            assert(old(self).lowest_item(item));
        }
        if current.is_goal(self.goal) {
            let path = reconstruct_path(&self.came_from, current);
            proof {
                self.lemma_found_path(current@, path_view(path@));
            }
            return SearchStep::Found(path);
        }
        if self.closed.contains(&current) {
            return SearchStep::Skipped(item);
        }
        let ghost before = self.closed_boards();
        self.closed.insert(current);
        proof {
            assert(self.closed_boards().no_duplicates()) by {
                assert forall|a: int, b: int| 0 <= a < b < self.closed_boards().len() implies
                    self.closed_boards()[a] != self.closed_boards()[b] by {
                    if b == before.len() {
                        assert(before[a] == self.closed_boards()[a]);
                    } else {
                        assert(before[a] == self.closed_boards()[a]);
                        assert(before[b] == self.closed_boards()[b]);
                    }
                }
            }
            self.lemma_closed_grows(before, current@);
        }
        let expanded = self.closed.len();
        let successors = if current.tiles_in_range() {
            proof {
                crate::board::lemma_in_range_movable(current@);
            }
            current.enumerate_successors()
        } else {
            let none: Vec<(GameBoard, Direction)> = Vec::new();
            assert(none@.map_values(|e: (GameBoard, Direction)| e.1) =~= Seq::<Direction>::empty());
            none
        };
        self.expand(current, moves_made, &successors, boards_made);
        assert(successors@.map_values(|e: (GameBoard, Direction)| e.1).len() == successors@.len());
        SearchStep::Expanded { item, expanded, successors }
    }

    /// Deals with the successors of `board`, an expanded board reached in
    /// `moves` moves: each one is counted in `boards_made` (which stops at
    /// `u64::MAX`); each one whose board was not expanded before joins the
    /// frontier with cost `heuristic + moves + 1` and `moves + 1` moves (both
    /// stopping at `u64::MAX`) and gets its record, replacing any earlier one.
    pub fn expand(
        &mut self,
        board: GameBoard,
        moves: u64,
        successors: &Vec<(GameBoard, Direction)>,
        boards_made: &mut u64,
    )
        requires
            old(self).wf(),
            old(self).closed_boards().contains(board@),
            successors@.len() > 0 ==> in_range(board@),
            forall|k: int|
                0 <= k < successors@.len() ==> legal_move(
                    board@,
                    #[trigger] successors@[k].1,
                    successors@[k].0@,
                ),
        ensures
            final(self).wf(),
            final(self).start_board() == old(self).start_board(),
            final(self).goal_value() == old(self).goal_value(),
            final(self).closed_boards() == old(self).closed_boards(),
            final(self).frontier_items().to_multiset() == old(
                self,
            ).frontier_items().to_multiset().add(
                pushed_entries(old(self).closed_boards(), moves, successors@).to_multiset(),
            ),
            successors@.len() == 0 ==> final(self).frontier_items() == old(self).frontier_items(),
            final(self).parents() == recorded(
                old(self).parents(),
                old(self).closed_boards(),
                board@,
                successors@,
            ),
            *final(boards_made) == saturated(*old(boards_made) + successors@.len()),
    {
        proof {
            broadcast use {group_to_multiset_ensures, group_multiset_axioms};

            let c = self.closed_boards();
            let i = choose|i: int| 0 <= i < c.len() && c[i] == board@;
            assert(c[i] == self.start@ || self.came_from@.contains_key(c[i]));
            assert(successors@.take(0) =~= Seq::<(GameBoard, Direction)>::empty());
            assert(self.frontier@.to_multiset() =~= self.frontier@.to_multiset().add(
                Seq::<QueueItem>::empty().to_multiset(),
            ));
        }
        let ghost closed0 = self.closed_boards();
        let ghost m0 = self.frontier@.to_multiset();
        let ghost p0 = self.came_from@;
        let ghost count0 = *boards_made;
        let mut k: usize = 0;
        while k < successors.len()
            invariant
                k <= successors@.len(),
                self.wf(),
                closed0 == old(self).closed_boards(),
                m0 == old(self).frontier@.to_multiset(),
                p0 == old(self).came_from@,
                count0 == *old(boards_made),
                self.closed_boards() == closed0,
                self.closed_boards().contains(self.start@),
                self.closed_boards().contains(board@),
                successors@.len() > 0 ==> in_range(board@),
                self.start == old(self).start,
                self.goal == old(self).goal,
                forall|m: int|
                    0 <= m < successors@.len() ==> legal_move(
                        board@,
                        #[trigger] successors@[m].1,
                        successors@[m].0@,
                    ),
                self.frontier@.to_multiset() == m0.add(
                    pushed_entries(closed0, moves, successors@.take(k as int)).to_multiset(),
                ),
                k == 0 ==> self.frontier@ == old(self).frontier@,
                self.came_from@ == recorded(p0, closed0, board@, successors@.take(k as int)),
                *boards_made == saturated(count0 + k),
            decreases successors@.len() - k,
        {
            let (neighbor, direction) = successors[k];
            let ghost prefix = successors@.take(k as int);
            let ghost next = successors@.take(k as int + 1);
            assert(next.drop_last() =~= prefix);
            assert(next.last() == successors@[k as int]);
            assert(legal_move(board@, successors@[k as int].1, successors@[k as int].0@));
            GameBoard::increment_move_counter(boards_made);
            proof {
                lemma_move_cells(board@, direction, neighbor@);
            }
            let cost = heuristic(&neighbor).saturating_add(moves).saturating_add(1);
            if !self.closed.contains(&neighbor) {
                let entry = QueueItem {
                    cost,
                    moves: moves.saturating_add(1),
                    game_board: neighbor,
                };
                assert(entry == entry_for(neighbor, moves));
                let ghost before = self.frontier@.to_multiset();
                self.add_successor(entry, board, direction);
                proof {
                    broadcast use {group_to_multiset_ensures, group_multiset_axioms};

                    let pp = pushed_entries(closed0, moves, prefix);
                    assert(pushed_entries(closed0, moves, next) == pp.push(entry));
                    assert(pp.push(entry).to_multiset() == pp.to_multiset().insert(entry));
                    assert(self.frontier@.to_multiset() =~= m0.add(
                        pushed_entries(closed0, moves, next).to_multiset(),
                    ));
                }
            } else {
                proof {
                    assert(pushed_entries(closed0, moves, next) == pushed_entries(
                        closed0,
                        moves,
                        prefix,
                    ));
                }
            }
            k = k + 1;
        }
        proof {
            assert(successors@.take(successors@.len() as int) =~= successors@);
        }
    }

    /// Puts a successor in the frontier with its record.
    fn add_successor(&mut self, item: QueueItem, parent: GameBoard, direction: Direction)
        requires
            old(self).wf(),
            old(self).closed_boards().contains(old(self).start@),
            old(self).closed_boards().contains(parent@),
            !old(self).closed_boards().contains(item.game_board@),
            legal_move(parent@, direction, item.game_board@),
        ensures
            final(self).wf(),
            final(self).frontier@.len() == old(self).frontier@.len() + 1,
            final(self).frontier@.to_multiset() == old(self).frontier@.to_multiset().insert(item),
            final(self).came_from@ == old(self).came_from@.insert(
                item.game_board@,
                (parent@, direction),
            ),
            final(self).closed == old(self).closed,
            final(self).start == old(self).start,
            final(self).goal == old(self).goal,
    {
        let ghost m0 = self.came_from@;
        let ghost f0 = self.frontier@;
        let child = item.game_board;
        self.frontier.push(item);
        self.came_from.insert(child, parent, direction);
        proof {
            let s = self.start@;
            let c = self.closed_boards();
            let m = self.came_from@;
            assert(child@ != s);
            assert forall|k: Grid| #[trigger] m.contains_key(k) implies c.contains(m[k].0)
                && c.contains(s) by {
                if k != child@ {
                    assert(m0.contains_key(k));
                }
            }
            assert forall|i: int| 0 <= i < c.len() implies #[trigger] c[i] == s
                || m.contains_key(c[i]) by {
                if c[i] != s {
                    assert(m0.contains_key(c[i]));
                }
            }
            assert forall|i: int| 0 <= i < self.frontier@.len() implies {
                let b = #[trigger] self.frontier@[i].game_board@;
                b == s || m.contains_key(b)
            } by {
                assert(self.frontier@.contains(self.frontier@[i]));
                if self.frontier@[i] != item {
                    let k = choose|k: int| 0 <= k < f0.len() && f0[k] == self.frontier@[i];
                    assert(f0[k].game_board@ == self.frontier@[i].game_board@);
                    if self.frontier@[i].game_board@ != s {
                        assert(m0.contains_key(self.frontier@[i].game_board@));
                    }
                }
            }
        }
    }

    proof fn lemma_closed_grows(&self, before: Seq<Grid>, current: Grid)
        requires
            self.closed_boards() == before.push(current),
            self.came_from.wf(),
            self.closed.wf(),
            self.frontier.wf(),
            forall|k: Grid|
                #[trigger] self.came_from@.contains_key(k) ==> before.contains(
                    self.came_from@[k].0,
                ) && before.contains(self.start@),
            forall|i: int| 0 <= i < before.len() ==> #[trigger] before[i] == self.start@
                || self.came_from@.contains_key(before[i]),
            current == self.start@ || self.came_from@.contains_key(current),
            forall|i: int| 0 <= i < before.len() ==> !has_value(#[trigger] before[i], self.goal),
            !has_value(current, self.goal),
            !self.came_from@.contains_key(self.start@),
            forall|i: int|
                0 <= i < self.frontier@.len() ==> #[trigger] self.frontier@[i].game_board@
                    == self.start@
                    || self.came_from@.contains_key(self.frontier@[i].game_board@),
        ensures
            self.records_agree(),
            self.closed_boards().contains(self.start@),
            self.closed_boards().contains(current),
    {
        let c = self.closed_boards();
        assert(c[before.len() as int] == current);
        assert forall|x: Grid| before.contains(x) implies c.contains(x) by {
            let i = choose|i: int| 0 <= i < before.len() && before[i] == x;
            assert(c[i] == x);
        }
        assert forall|i: int| 0 <= i < c.len() implies #[trigger] c[i] == self.start@
            || self.came_from@.contains_key(c[i]) by {
            if i < before.len() {
                assert(c[i] == before[i]);
            }
        }
        assert forall|i: int| 0 <= i < c.len() implies !has_value(#[trigger] c[i], self.goal) by {
            if i < before.len() {
                assert(c[i] == before[i]);
            }
        }
        if current != self.start@ {
            assert(self.came_from@.contains_key(current));
        }
    }

    /// A path read back from the records at a frontier board leads there
    /// from the start by legal moves.
    proof fn lemma_found_path(&self, current: Grid, path: Seq<(Grid, Direction)>)
        requires
            self.records_agree(),
            current == self.start@ || self.came_from@.contains_key(current),
            is_chain(self.came_from@, current, path),
        ensures
            valid_path(self.start@, path),
            path_end(self.start@, path) == current,
            goal_only_at_end(self.start@, path, self.goal),
    {
        let m = self.came_from@;
        let s = self.start@;
        self.came_from.lemma_legal();
        if path.len() > 0 {
            let root = m[path[0].0].0;
            assert(m.contains_key(path[0].0));
            assert(self.closed_boards().contains(root));
            let i = choose|i: int| 0 <= i < self.closed_boards().len()
                && self.closed_boards()[i] == root;
            assert(self.closed_boards()[i] == s || m.contains_key(self.closed_boards()[i]));
            assert(root == s);
            assert(!has_value(self.closed_boards()[i], self.goal));
            assert forall|k: int| 0 <= k < path.len() - 1 implies !has_value(
                #[trigger] path[k].0,
                self.goal,
            ) by {
                assert(m.contains_key(path[k + 1].0));
                assert(m[path[k + 1].0].0 == path[k].0);
                assert(self.closed_boards().contains(path[k].0));
                let j = choose|j: int|
                    0 <= j < self.closed_boards().len() && self.closed_boards()[j] == path[k].0;
                assert(!has_value(self.closed_boards()[j], self.goal));
            }
            assert forall|k: int| 0 <= k < path.len() implies legal_move(
                if k == 0 {
                    s
                } else {
                    path[k - 1].0
                },
                #[trigger] path[k].1,
                path[k].0,
            ) by {
                assert(m.contains_key(path[k].0));
                if k > 0 {
                    assert(m[path[k].0].0 == path[k - 1].0);
                }
            }
        }
    }
}

/// Searches from `start` for a board that holds `goal`, counting in
/// `boards_made` each board that a move makes. `Some` holds the moves, in
/// order, of a path of legal moves from `start` to such a board, on which no
/// earlier board holds `goal`; `None` means that the frontier ran out, which a
/// board that no move changes always does, without a move being counted.
pub fn a_star_search(start: GameBoard, goal: u64, boards_made: &mut u64) -> (r: Option<
    Vec<(GameBoard, Direction)>,
>)
    ensures
        *final(boards_made) >= *old(boards_made),
        match r {
            Some(path) => {
                &&& valid_path(start@, path_view(path@))
                &&& has_value(path_end(start@, path_view(path@)), goal)
                &&& goal_only_at_end(start@, path_view(path@), goal)
            },
            None => !has_value(start@, goal),
        },
        has_value(start@, goal) ==> r is Some && r->Some_0@.len() == 0 && *final(boards_made)
            == *old(boards_made),
        !has_value(start@, goal) && stuck(start@) ==> r is None && *final(boards_made) == *old(
            boards_made,
        ),
{
    if start.is_goal(goal) {
        let path: Vec<(GameBoard, Direction)> = Vec::new();
        assert(path_view(path@) =~= Seq::<(Grid, Direction)>::empty());
        return Some(path);
    }
    let mut search = Search::new(start, goal);
    loop
        invariant
            search.wf(),
            search.start_board() == start@,
            search.goal_value() == goal,
            search.closed_boards().len() <= usize::MAX,
            !has_value(start@, goal),
            *boards_made >= *old(boards_made),
            stuck(start@) ==> *boards_made == *old(boards_made),
            stuck(start@) ==> (search.closed_boards().len() == 0 && search.frontier_boards()
                == seq![start@]) || search.frontier_items().len() == 0,
        decreases usize::MAX - search.closed_boards().len(), search.frontier_items().len(),
    {
        let ghost items = search.frontier_items();
        match search.step(boards_made) {
            SearchStep::Found(path) => {
                proof {
                    if stuck(start@) {
                        let p = path_view(path@);
                        if p.len() > 0 {
                            assert(legal_move(start@, p[0].1, p[0].0));
                        }
                    }
                }
                return Some(path);
            },
            SearchStep::Exhausted => {
                return None;
            },
            SearchStep::Skipped(_) => {},
            SearchStep::Expanded { item, expanded, successors } => {
                proof {
                    if stuck(start@) {
                        let i = choose|i: int| 0 <= i < items.len() && items[i] == item;
                        assert(items.map_values(|q: QueueItem| q.game_board@)[i]
                            == item.game_board@);
                        assert(item.game_board@ == start@);
                        lemma_stuck_no_successor(start@);
                        assert(successors@.map_values(|e: (GameBoard, Direction)| e.1).len() == 0);
                        assert(successors@.len() == 0);
                    }
                }
            },
        }
    }
}

} // verus!
