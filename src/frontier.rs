//! The search frontier: a binary min-heap of entries ordered by cost.
use vstd::prelude::*;
use vstd::multiset::{group_multiset_axioms, Multiset};
use vstd::seq_lib::group_to_multiset_ensures;
use crate::board::GameBoard;

verus! {

/// A frontier entry: its cost, the number of moves that made its board, and the board.
#[derive(Clone, Copy, Debug)]
pub struct QueueItem {
    pub cost: u64,
    pub moves: u64,
    pub game_board: GameBoard,
}

/// Every entry costs no less than its parent in the heap.
pub open spec fn heap_ordered(s: Seq<QueueItem>) -> bool {
    forall|j: int| 0 < j < s.len() ==> s[(j - 1) / 2].cost <= #[trigger] s[j].cost
}

/// Entries kept in heap order in a `Vec`: each costs no less than its parent.
pub struct Frontier {
    items: Vec<QueueItem>,
}

impl View for Frontier {
    type V = Seq<QueueItem>;

    closed spec fn view(&self) -> Seq<QueueItem> {
        self.items@
    }
}

/// Exchanges two entries.
fn swap_items(v: &mut Vec<QueueItem>, a: usize, b: usize)
    requires
        a < old(v)@.len(),
        b < old(v)@.len(),
    ensures
        final(v)@ == old(v)@.update(a as int, old(v)@[b as int]).update(
            b as int,
            old(v)@[a as int],
        ),
        final(v)@.to_multiset() == old(v)@.to_multiset(),
{
    let x = v[a];
    let y = v[b];
    let ghost s0 = v@;
    v.set(a, y);
    let ghost s1 = v@;
    v.set(b, x);
    proof {
        broadcast use {group_to_multiset_ensures, group_multiset_axioms};

        assert(s1.to_multiset() == s0.to_multiset().insert(y).remove(x));
        assert(v@.to_multiset() == s1.to_multiset().insert(x).remove(s1[b as int]));
        assert(v@.to_multiset() =~= s0.to_multiset());
    }
}

impl Frontier {
    pub closed spec fn wf(&self) -> bool {
        heap_ordered(self.items@)
    }

    pub fn new() -> (r: Frontier)
        ensures
            r.wf(),
            r@ == Seq::<QueueItem>::empty(),
    {
        Frontier { items: Vec::new() }
    }

    pub fn len(&self) -> (r: usize)
        ensures
            r == self@.len(),
    {
        self.items.len()
    }

    /// Adds an entry.
    pub fn push(&mut self, item: QueueItem)
        requires
            old(self).wf(),
        ensures
            final(self).wf(),
            final(self)@.len() == old(self)@.len() + 1,
            final(self)@.to_multiset() == old(self)@.to_multiset().insert(item),
            forall|x: QueueItem|
                #[trigger] final(self)@.contains(x) ==> old(self)@.contains(x) || x == item,
    {
        let ghost m = self.items@.to_multiset().insert(item);
        self.items.push(item);
        proof {
            broadcast use group_to_multiset_ensures;

        }
        let mut i = self.items.len() - 1;
        while i > 0 && self.items[(i - 1) / 2].cost > self.items[i].cost
            invariant
                0 <= i < self.items@.len(),
                self.items@.len() == old(self)@.len() + 1,
                self.items@.to_multiset() == m,
                forall|j: int|
                    0 < j < self.items@.len() && j != i ==> self.items@[(j - 1) / 2].cost
                        <= #[trigger] self.items@[j].cost,
                i > 0 ==> forall|c: int|
                    0 < c < self.items@.len() && (c - 1) / 2 == i ==> self.items@[(i - 1) / 2].cost
                        <= #[trigger] self.items@[c].cost,
            decreases i,
        {
            let p = (i - 1) / 2;
            swap_items(&mut self.items, p, i);
            i = p;
        }
        proof {
            broadcast use {group_to_multiset_ensures, group_multiset_axioms};

            self.lemma_contains_from_multiset(m);
        }
    }

    /// Takes out an entry of lowest cost; `None` when there is none.
    pub fn pop(&mut self) -> (r: Option<QueueItem>)
        requires
            old(self).wf(),
        ensures
            final(self).wf(),
            match r {
                None => old(self)@.len() == 0 && final(self)@ == old(self)@,
                Some(item) => {
                    &&& old(self)@.contains(item)
                    &&& forall|j: int|
                        0 <= j < old(self)@.len() ==> item.cost <= #[trigger] old(self)@[j].cost
                    &&& final(self)@.len() + 1 == old(self)@.len()
                    &&& final(self)@.to_multiset() == old(self)@.to_multiset().remove(item)
                    &&& forall|x: QueueItem|
                        #[trigger] final(self)@.contains(x) ==> old(self)@.contains(x)
                },
            },
    {
        let n = self.items.len();
        if n == 0 {
            return None;
        }
        proof {
            self.lemma_root_lowest();
        }
        let top = self.items[0];
        let ghost m = self.items@.to_multiset().remove(top);
        swap_items(&mut self.items, 0, n - 1);
        let ghost before_pop = self.items@;
        self.items.pop();
        proof {
            broadcast use {group_to_multiset_ensures, group_multiset_axioms};

            assert(before_pop =~= self.items@.push(top));
            assert(self.items@.to_multiset() =~= m);
        }
        let len = self.items.len();
        let mut i: usize = 0;
        let mut done = false;
        proof {
            reveal(ordered_except_below);
            reveal(parent_below);
            assert(ordered_except_below(self.items@, 0)) by {
                assert forall|j: int| 0 < j < self.items@.len() && (j - 1) / 2 != 0 implies {
                    let p = (j - 1) / 2;
                    self.items@[p].cost <= #[trigger] self.items@[j].cost
                } by {
                    assert(self.items@[j] == old(self)@[j]);
                    assert(self.items@[(j - 1) / 2] == old(self)@[(j - 1) / 2]);
                }
            }
        }
        while !done && i < len / 2
            invariant
                len == self.items@.len(),
                i < len || len == 0,
                done ==> heap_ordered(self.items@),
                self.items@.to_multiset() == m,
                ordered_except_below(self.items@, i as int),
                parent_below(self.items@, i as int),
            decreases len - i + if done {
                0int
            } else {
                1int
            },
        {
            let left = 2 * i + 1;
            let right = left + 1;
            let smaller = if right < len && self.items[right].cost < self.items[left].cost {
                right
            } else {
                left
            };
            if self.items[i].cost <= self.items[smaller].cost {
                proof {
                    lemma_sift_down_done(self.items@, i as int);
                }
                done = true;
            } else {
                proof {
                    lemma_sift_down_step(self.items@, i as int, smaller as int);
                }
                swap_items(&mut self.items, i, smaller);
                i = smaller;
            }
        }
        proof {
            if !done {
                lemma_sift_down_leaf(self.items@, i as int);
            }
        }
        proof {
            broadcast use {group_to_multiset_ensures, group_multiset_axioms};

            self.lemma_contains_from_multiset(m);
        }
        Some(top)
    }

    proof fn lemma_root_lowest(&self)
        requires
            self.wf(),
            self@.len() > 0,
        ensures
            forall|j: int| 0 <= j < self@.len() ==> self@[0].cost <= #[trigger] self@[j].cost,
    {
        assert forall|j: int| 0 <= j < self@.len() implies self@[0].cost
            <= #[trigger] self@[j].cost by {
            lemma_ancestor(self.items@, j);
        }
    }

    proof fn lemma_contains_from_multiset(&self, m: Multiset<QueueItem>)
        requires
            self.items@.to_multiset() == m,
        ensures
            forall|x: QueueItem| #[trigger] self.items@.contains(x) ==> m.count(x) > 0,
    {
        broadcast use {group_to_multiset_ensures, group_multiset_axioms};

        assert forall|x: QueueItem| #[trigger] self.items@.contains(x) implies m.count(x) > 0 by {
            assert(self.items@.to_multiset().count(x) > 0);
        }
    }
}

/// Heap order holds everywhere but between `i` and its children.
#[verifier::opaque]
pub open spec fn ordered_except_below(s: Seq<QueueItem>, i: int) -> bool {
    forall|j: int|
        0 < j < s.len() && (j - 1) / 2 != i ==> s[(j - 1) / 2].cost <= #[trigger] s[j].cost
}

/// The parent of `i` costs no more than the children of `i`.
#[verifier::opaque]
pub open spec fn parent_below(s: Seq<QueueItem>, i: int) -> bool {
    i > 0 ==> forall|c: int|
        0 < c < s.len() && (c - 1) / 2 == i ==> s[(i - 1) / 2].cost <= #[trigger] s[c].cost
}

proof fn lemma_sift_down_done(s: Seq<QueueItem>, i: int)
    requires
        0 <= i < s.len(),
        ordered_except_below(s, i),
        2 * i + 1 < s.len() ==> s[i].cost <= s[2 * i + 1].cost,
        2 * i + 2 < s.len() ==> s[i].cost <= s[2 * i + 2].cost,
        2 * i + 2 < s.len() && s[2 * i + 2].cost < s[2 * i + 1].cost ==> s[i].cost <= s[2 * i
            + 2].cost,
    ensures
        heap_ordered(s),
{
    reveal(ordered_except_below);
    reveal(parent_below);
    assert forall|j: int| 0 < j < s.len() implies s[(j - 1) / 2].cost <= #[trigger] s[j].cost by {
        if (j - 1) / 2 == i {
            assert(j == 2 * i + 1 || j == 2 * i + 2);
        }
    }
}

proof fn lemma_sift_down_leaf(s: Seq<QueueItem>, i: int)
    requires
        0 <= i,
        ordered_except_below(s, i),
        2 * i + 1 >= s.len(),
    ensures
        heap_ordered(s),
{
    reveal(ordered_except_below);
    reveal(parent_below);
    assert forall|j: int| 0 < j < s.len() implies s[(j - 1) / 2].cost <= #[trigger] s[j].cost by {
        assert((j - 1) / 2 != i);
    }
}

proof fn lemma_sift_down_step(s: Seq<QueueItem>, i: int, m: int)
    requires
        0 <= i,
        m == 2 * i + 1 || m == 2 * i + 2,
        m < s.len(),
        m == 2 * i + 1 && 2 * i + 2 < s.len() ==> s[m].cost <= s[2 * i + 2].cost,
        m == 2 * i + 2 ==> s[m].cost < s[2 * i + 1].cost,
        s[i].cost > s[m].cost,
        ordered_except_below(s, i),
        parent_below(s, i),
    ensures
        ({
            let t = s.update(i, s[m]).update(m, s[i]);
            ordered_except_below(t, m) && parent_below(t, m)
        }),
{
    reveal(ordered_except_below);
    reveal(parent_below);
    let t = s.update(i, s[m]).update(m, s[i]);
    assert forall|j: int| 0 < j < t.len() && (j - 1) / 2 != m implies t[(j - 1) / 2].cost
        <= #[trigger] t[j].cost by {
        let p = (j - 1) / 2;
        if p == i {
            assert(j == 2 * i + 1 || j == 2 * i + 2);
        } else if j == i {
            assert(s[(i - 1) / 2].cost <= s[m].cost);
        }
    }
    assert forall|c: int| 0 < c < t.len() && (c - 1) / 2 == m implies t[(m - 1) / 2].cost
        <= #[trigger] t[c].cost by {
        assert((m - 1) / 2 == i);
        assert(s[m].cost <= s[c].cost);
    }
}

/// In a heap-ordered sequence the first entry costs no more than any other.
proof fn lemma_ancestor(s: Seq<QueueItem>, j: int)
    requires
        heap_ordered(s),
        0 <= j < s.len(),
    ensures
        s[0].cost <= s[j].cost,
    decreases j,
{
    if j > 0 {
        lemma_ancestor(s, (j - 1) / 2);
    }
}

} // verus!
