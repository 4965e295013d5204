//! The map from each board the search reached to the board it came from and
//! the move that made it, and the path that these records lead back along.
use vstd::prelude::*;
use crate::board::{
    legal_move, lemma_move_keeps_total, lemma_placed_counts, total, Direction, GameBoard, Grid,
};

verus! {

pub type Entry = (GameBoard, GameBoard, Direction);

/// The record for `k` among `s`: the last one written wins.
pub open spec fn lookup(s: Seq<Entry>, k: Grid) -> Option<(Grid, Direction)>
    decreases s.len(),
{
    if s.len() == 0 {
        None
    } else if s.last().0@ == k {
        Some((s.last().1@, s.last().2))
    } else {
        lookup(s.drop_last(), k)
    }
}

/// Every record in `m` is a legal move from the parent to the child.
pub open spec fn all_legal(m: Map<Grid, (Grid, Direction)>) -> bool {
    forall|k: Grid| #[trigger] m.contains_key(k) ==> legal_move(m[k].0, m[k].1, k)
}

/// `path` leads back from `goal` through the records of `m` to a board that
/// has no record: each step is the record of its board, in forward order.
pub open spec fn is_chain(
    m: Map<Grid, (Grid, Direction)>,
    goal: Grid,
    path: Seq<(Grid, Direction)>,
) -> bool {
    &&& path.len() == 0 ==> !m.contains_key(goal)
    &&& path.len() > 0 ==> {
        &&& path.last().0 == goal
        &&& !m.contains_key(m[path[0].0].0)
    }
    &&& forall|k: int| 0 <= k < path.len() ==> #[trigger] m.contains_key(path[k].0)
        && m[path[k].0].1
        == path[k].1
    &&& forall|k: int| 0 < k < path.len() ==> #[trigger] m[path[k].0].0 == path[k - 1].0
}

pub open spec fn path_view(p: Seq<(GameBoard, Direction)>) -> Seq<(Grid, Direction)> {
    p.map_values(|e: (GameBoard, Direction)| (e.0@, e.1))
}

pub struct ParentMap {
    entries: Vec<Entry>,
}

impl View for ParentMap {
    type V = Map<Grid, (Grid, Direction)>;

    closed spec fn view(&self) -> Map<Grid, (Grid, Direction)> {
        Map::new(
            |k: Grid| lookup(self.entries@, k) is Some,
            |k: Grid| lookup(self.entries@, k)->Some_0,
        )
    }
}

proof fn lemma_lookup_push(s: Seq<Entry>, e: Entry, k: Grid)
    ensures
        lookup(s.push(e), k) == if e.0@ == k {
            Some((e.1@, e.2))
        } else {
            lookup(s, k)
        },
{
    assert(s.push(e).drop_last() =~= s);
}

proof fn lemma_lookup_legal(s: Seq<Entry>, k: Grid)
    requires
        forall|i: int| 0 <= i < s.len() ==> legal_move(#[trigger] s[i].1@, s[i].2, s[i].0@),
        lookup(s, k) is Some,
    ensures
        legal_move(lookup(s, k)->Some_0.0, lookup(s, k)->Some_0.1, k),
    decreases s.len(),
{
    if s.last().0@ != k {
        let t = s.drop_last();
        assert forall|i: int| 0 <= i < t.len() implies legal_move(
            #[trigger] t[i].1@,
            t[i].2,
            t[i].0@,
        ) by {
            assert(t[i] == s[i]);
        }
        lemma_lookup_legal(t, k);
    } else {
        assert(legal_move(s[s.len() - 1].1@, s[s.len() - 1].2, s[s.len() - 1].0@));
    }
}

impl ParentMap {
    pub closed spec fn wf(&self) -> bool {
        forall|i: int|
            0 <= i < self.entries@.len() ==> legal_move(
                #[trigger] self.entries@[i].1@,
                self.entries@[i].2,
                self.entries@[i].0@,
            )
    }

    /// Every record of a well-formed map is a legal move.
    pub proof fn lemma_legal(&self)
        requires
            self.wf(),
        ensures
            all_legal(self@),
    {
        assert forall|k: Grid| #[trigger] self@.contains_key(k) implies legal_move(
            self@[k].0,
            self@[k].1,
            k,
        ) by {
            lemma_lookup_legal(self.entries@, k);
        }
    }

    pub fn new() -> (r: ParentMap)
        ensures
            r.wf(),
            r@ == Map::<Grid, (Grid, Direction)>::empty(),
    {
        let r = ParentMap { entries: Vec::new() };
        assert(r@ =~= Map::<Grid, (Grid, Direction)>::empty());
        r
    }

    /// Records that a move in `direction` made `child` from `parent`,
    /// replacing any earlier record for `child`.
    pub fn insert(&mut self, child: GameBoard, parent: GameBoard, direction: Direction)
        requires
            old(self).wf(),
            legal_move(parent@, direction, child@),
        ensures
            final(self).wf(),
            final(self)@ == old(self)@.insert(child@, (parent@, direction)),
    {
        let ghost before = self.entries@;
        self.entries.push((child, parent, direction));
        proof {
            assert forall|k: Grid| true implies lookup(self.entries@, k) == if child@ == k {
                Some((parent@, direction))
            } else {
                lookup(before, k)
            } by {
                lemma_lookup_push(before, (child, parent, direction), k);
            }
            assert forall|i: int| 0 <= i < self.entries@.len() implies legal_move(
                #[trigger] self.entries@[i].1@,
                self.entries@[i].2,
                self.entries@[i].0@,
            ) by {
                if i < before.len() {
                    assert(self.entries@[i] == before[i]);
                }
            }
        }
        assert(self@ =~= old(self)@.insert(child@, (parent@, direction)));
    }

    /// The record for `board`, if there is one.
    pub fn get(&self, board: &GameBoard) -> (r: Option<(GameBoard, Direction)>)
        ensures
            match r {
                Some(e) => self@.contains_key(board@) && self@[board@] == (e.0@, e.1),
                None => !self@.contains_key(board@),
            },
    {
        let mut i = self.entries.len();
        assert(self.entries@.take(i as int) =~= self.entries@);
        while i > 0
            invariant
                i <= self.entries@.len(),
                lookup(self.entries@.take(i as int), board@) == lookup(self.entries@, board@),
            decreases i,
        {
            let ghost t = self.entries@.take(i as int);
            assert(t.drop_last() =~= self.entries@.take(i - 1));
            let e = &self.entries[i - 1];
            if e.0.same_cells(board) {
                return Some((e.1, e.2));
            }
            i = i - 1;
        }
        None
    }
}

/// The boards and moves that the records of `came_from` lead along, from the
/// board that has no record to `current`; empty when `current` has no record.
pub fn reconstruct_path(came_from: &ParentMap, current: GameBoard) -> (r: Vec<(GameBoard,
    Direction)>)
    requires
        came_from.wf(),
    ensures
        is_chain(came_from@, current@, path_view(r@)),
{
    proof {
        came_from.lemma_legal();
    }
    let ghost m = came_from@;
    let mut path: Vec<(GameBoard, Direction)> = Vec::new();
    let mut current_state = current;
    proof {
        lemma_total_nonneg(current_state@);
    }
    loop
        invariant
            m == came_from@,
            all_legal(m),
            total(current_state@) >= 0,
            path@.len() == 0 ==> current_state@ == current@,
            path@.len() > 0 ==> {
                &&& path_view(path@).last().0 == current@
                &&& current_state@ == m[path_view(path@)[0].0].0
            },
            forall|k: int|
                0 <= k < path@.len() ==> #[trigger] m.contains_key(path_view(path@)[k].0)
                    && m[path_view(path@)[k].0].1 == path_view(path@)[k].1,
            forall|k: int|
                0 < k < path@.len() ==> #[trigger] m[path_view(path@)[k].0].0 == path_view(
                    path@,
                )[k - 1].0,
        ensures
            !m.contains_key(current_state@),
        decreases total(current_state@),
    {
        match came_from.get(&current_state) {
            Some((parent, move_dir)) => {
                let ghost before = path@;
                path.insert(0, (current_state, move_dir));
                proof {
                    assert(path@ =~= seq![(current_state, move_dir)] + before);
                    lemma_parent_total(parent@, move_dir, current_state@);
                    lemma_total_nonneg(parent@);
                    assert forall|k: int| 0 < k < path@.len() implies #[trigger] m[path_view(
                        path@,
                    )[k].0].0 == path_view(path@)[k - 1].0 by {
                        assert(path_view(path@)[k] == path_view(before)[k - 1]);
                        if k > 1 {
                            assert(path_view(path@)[k - 1] == path_view(before)[k - 2]);
                        }
                    }
                    assert forall|k: int| 0 <= k < path@.len() implies #[trigger] m.contains_key(
                        path_view(path@)[k].0,
                    ) && m[path_view(path@)[k].0].1 == path_view(path@)[k].1 by {
                        if k > 0 {
                            assert(path_view(path@)[k] == path_view(before)[k - 1]);
                        }
                    }
                }
                current_state = parent;
            },
            None => {
                break ;
            },
        }
    }
    path
}

/// A board's total is never negative.
pub proof fn lemma_total_nonneg(g: Grid)
    ensures
        total(g) >= 0,
{
    crate::board::lemma_cells(g);
}

/// A legal move raises the total by the new tile.
pub proof fn lemma_parent_total(parent: Grid, d: Direction, child: Grid)
    requires
        legal_move(parent, d, child),
    ensures
        total(child) > total(parent),
{
    lemma_move_keeps_total(parent, d);
    lemma_placed_counts(crate::board::slid(parent, d));
}

} // verus!
