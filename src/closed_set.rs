//! The boards that the search has expanded, in order, with an index by
//! fingerprint so that a lookup reads only the boards of one fingerprint.
use vstd::prelude::*;
use std::collections::HashMap;
use crate::board::{flat, GameBoard, Grid};

verus! {

broadcast use vstd::std_specs::hash::group_hash_axioms;

/// The fingerprint of the first `k` cells (row-major): rotate, then mix in the cell.
pub open spec fn fingerprint_upto(g: Grid, k: int) -> u64
    decreases k,
{
    if k <= 0 {
        0
    } else {
        let h = fingerprint_upto(g, k - 1);
        ((h << 7u64) | (h >> 57u64)) ^ flat(g, k - 1)
    }
}

pub open spec fn fingerprint(g: Grid) -> u64 {
    fingerprint_upto(g, 16)
}

/// The fingerprint of a board; equal boards have equal fingerprints.
pub fn board_fingerprint(board: &GameBoard) -> (r: u64)
    ensures
        r == fingerprint(board@),
{
    let mut h: u64 = 0;
    let mut k: usize = 0;
    while k < 16
        invariant
            k <= 16,
            h == fingerprint_upto(board@, k as int),
        decreases 16 - k,
    {
        h = ((h << 7u64) | (h >> 57u64)) ^ board.grid[k / 4][k % 4];
        k = k + 1;
    }
    h
}

pub struct ClosedSet {
    boards: Vec<GameBoard>,
    index: HashMap<u64, Vec<usize>>,
}

impl View for ClosedSet {
    type V = Seq<Grid>;

    closed spec fn view(&self) -> Seq<Grid> {
        self.boards@.map_values(|b: GameBoard| b@)
    }
}

impl ClosedSet {
    /// Each index entry points at a board of its fingerprint, and each board
    /// is listed under its fingerprint.
    pub closed spec fn wf(&self) -> bool {
        &&& forall|h: u64, j: int|
            #![trigger self.index@[h]@[j]]
            self.index@.contains_key(h) && 0 <= j < self.index@[h]@.len() ==> {
                &&& self.index@[h]@[j] < self.boards@.len()
                &&& fingerprint(self.boards@[self.index@[h]@[j] as int]@) == h
            }
        &&& forall|i: int|
            0 <= i < self.boards@.len() ==> {
                &&& self.index@.contains_key(#[trigger] fingerprint(self.boards@[i]@))
                &&& exists|t: int|
                    0 <= t < self.index@[fingerprint(self.boards@[i]@)]@.len()
                        && #[trigger] self.index@[fingerprint(self.boards@[i]@)]@[t] as int == i
            }
    }

    pub fn new() -> (r: ClosedSet)
        ensures
            r.wf(),
            r@ == Seq::<Grid>::empty(),
    {
        let r = ClosedSet { boards: Vec::new(), index: HashMap::new() };
        assert(r@ =~= Seq::<Grid>::empty());
        r
    }

    pub fn len(&self) -> (r: usize)
        ensures
            r == self@.len(),
    {
        self.boards.len()
    }

    /// The board is in the set.
    pub fn contains(&self, board: &GameBoard) -> (r: bool)
        requires
            self.wf(),
        ensures
            r == self@.contains(board@),
    {
        let h = board_fingerprint(board);
        match self.index.get(&h) {
            None => {
                proof {
                    if self@.contains(board@) {
                        let i = choose|i: int| 0 <= i < self@.len() && self@[i] == board@;
                        assert(self.boards@[i]@ == board@);
                    }
                }
                false
            },
            Some(bucket) => {
                let mut j: usize = 0;
                while j < bucket.len()
                    invariant
                        self.wf(),
                        self.index@.contains_key(h),
                        self.index@[h] == *bucket,
                        h == fingerprint(board@),
                        j <= bucket@.len(),
                        forall|m: int|
                            0 <= m < j ==> self.boards@[bucket@[m] as int]@ != board@,
                    decreases bucket@.len() - j,
                {
                    let i = bucket[j];
                    assert(self.index@[h]@[j as int] == i);
                    if self.boards[i].same_cells(board) {
                        assert(self@[i as int] == board@);
                        return true;
                    }
                    j = j + 1;
                }
                proof {
                    if self@.contains(board@) {
                        let i = choose|i: int| 0 <= i < self@.len() && self@[i] == board@;
                        assert(self.boards@[i]@ == board@);
                        let m = choose|m: int| 0 <= m < bucket@.len() && bucket@[m] as int == i;
                        assert(self.boards@[bucket@[m] as int]@ == board@);
                    }
                }
                false
            },
        }
    }

    /// Adds a board at the end.
    pub fn insert(&mut self, board: GameBoard)
        requires
            old(self).wf(),
        ensures
            final(self).wf(),
            final(self)@ == old(self)@.push(board@),
    {
        let h = board_fingerprint(&board);
        let i = self.boards.len();
        let ghost old_index = self.index@;
        let ghost old_boards = self.boards@;
        let mut bucket = match self.index.remove(&h) {
            Some(b) => b,
            None => Vec::new(),
        };
        assert(old_index.contains_key(h) ==> bucket == old_index[h]);
        assert(!old_index.contains_key(h) ==> bucket@.len() == 0);
        let ghost old_bucket = bucket@;
        bucket.push(i);
        self.index.insert(h, bucket);
        self.boards.push(board);
        proof {
            assert(self.index@ == old_index.insert(h, bucket));
            assert forall|k: u64, j: int|
                #![trigger self.index@[k]@[j]]
                self.index@.contains_key(k) && 0 <= j < self.index@[k]@.len() implies {
                &&& self.index@[k]@[j] < self.boards@.len()
                &&& fingerprint(self.boards@[self.index@[k]@[j] as int]@) == k
            } by {
                if k == h {
                    if j < old_bucket.len() {
                        assert(self.index@[k]@[j] == old_index[h]@[j]);
                        assert(self.boards@[old_index[h]@[j] as int]
                            == old_boards[old_index[h]@[j] as int]);
                    }
                } else {
                    assert(self.index@[k] == old_index[k]);
                    assert(self.boards@[old_index[k]@[j] as int]
                        == old_boards[old_index[k]@[j] as int]);
                }
            }
            assert forall|m: int| 0 <= m < self.boards@.len() implies {
                &&& self.index@.contains_key(#[trigger] fingerprint(self.boards@[m]@))
                &&& exists|t: int|
                    0 <= t < self.index@[fingerprint(self.boards@[m]@)]@.len()
                        && #[trigger] self.index@[fingerprint(self.boards@[m]@)]@[t] as int == m
            } by {
                if m < old_boards.len() {
                    assert(self.boards@[m] == old_boards[m]);
                    let f = fingerprint(old_boards[m]@);
                    assert(old_index.contains_key(f));
                    if f == h {
                        let t = choose|t: int| 0 <= t < old_bucket.len() && old_bucket[t] as int
                            == m;
                        assert(self.index@[f]@[t] as int == m);
                    } else {
                        assert(self.index@[f] == old_index[f]);
                        let t = choose|t: int| 0 <= t < old_index[f]@.len()
                            && old_index[f]@[t] as int == m;
                        assert(self.index@[f]@[t] as int == m);
                    }
                } else {
                    assert(self.index@[h]@[old_bucket.len() as int] as int == m);
                }
            }
            assert(self@ =~= old(self)@.push(board@));
        }
    }
}

} // verus!
