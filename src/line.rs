//! One row or column of the board, seen from the edge that tiles slide toward.
//!
//! A line is compacted (every tile pushed toward index 0, order kept); then,
//! scanning from index 0, each pair of equal neighbouring tiles merges into one
//! tile of twice the value, and the scan goes on after the pair, so that no
//! tile takes part in more than one merge; then the line is compacted again.
use vstd::prelude::*;

verus! {

/// The non-empty cells of `s`, in order.
pub open spec fn nonzeros(s: Seq<u64>) -> Seq<u64>
    decreases s.len(),
{
    if s.len() == 0 {
        Seq::empty()
    } else {
        let rest = nonzeros(s.drop_last());
        if s.last() != 0 {
            rest.push(s.last())
        } else {
            rest
        }
    }
}

pub open spec fn zeros(n: nat) -> Seq<u64> {
    Seq::new(n, |_i: int| 0u64)
}

/// The number of non-empty cells of `s`.
pub open spec fn tile_count(s: Seq<u64>) -> nat {
    nonzeros(s).len()
}

/// The sum of the cells of `s`.
pub open spec fn line_sum(s: Seq<u64>) -> int
    decreases s.len(),
{
    if s.len() == 0 {
        0
    } else {
        line_sum(s.drop_last()) + s.last()
    }
}

/// All tiles of `s` pushed toward index 0, in their order, the rest empty.
pub open spec fn compact(s: Seq<u64>) -> Seq<u64> {
    nonzeros(s) + zeros((s.len() - nonzeros(s).len()) as nat)
}

/// Cells `i` and `i + 1` hold the same tile.
pub open spec fn mergeable(s: Seq<u64>, i: int) -> bool {
    0 <= i && i + 1 < s.len() && s[i] != 0 && s[i] == s[i + 1]
}

pub open spec fn merge_at(s: Seq<u64>, i: int) -> Seq<u64> {
    s.update(i, (2 * s[i]) as u64).update(i + 1, 0u64)
}

/// Scans from index `i` toward the end: a mergeable pair merges and the scan
/// goes on after it; otherwise the scan moves one cell on.
pub open spec fn merge_scan(s: Seq<u64>, i: int) -> Seq<u64>
    decreases s.len() - i,
{
    if i < 0 || i + 1 >= s.len() {
        s
    } else if mergeable(s, i) {
        merge_scan(merge_at(s, i), i + 2)
    } else {
        merge_scan(s, i + 1)
    }
}

/// The line after a move toward index 0 (before any new tile appears).
pub open spec fn slide(s: Seq<u64>) -> Seq<u64> {
    compact(merge_scan(compact(s), 0))
}

pub proof fn lemma_nonzeros_len(s: Seq<u64>)
    ensures
        nonzeros(s).len() <= s.len(),
        forall|k: int| 0 <= k < nonzeros(s).len() ==> nonzeros(s)[k] != 0,
    decreases s.len(),
{
    if s.len() > 0 {
        lemma_nonzeros_len(s.drop_last());
    }
}

pub proof fn lemma_line_sum_push(s: Seq<u64>, v: u64)
    ensures
        line_sum(s.push(v)) == line_sum(s) + v,
{
    assert(s.push(v).drop_last() =~= s);
}

pub proof fn lemma_line_sum_nonneg(s: Seq<u64>)
    ensures
        line_sum(s) >= 0,
        forall|k: int| 0 <= k < s.len() ==> s[k] <= line_sum(s),
    decreases s.len(),
{
    if s.len() > 0 {
        lemma_line_sum_nonneg(s.drop_last());
        assert forall|k: int| 0 <= k < s.len() implies s[k] <= line_sum(s) by {
            if k < s.len() - 1 {
                assert(s[k] == s.drop_last()[k]);
            }
        }
    }
}

pub proof fn lemma_line_sum_update(s: Seq<u64>, i: int, v: u64)
    requires
        0 <= i < s.len(),
    ensures
        line_sum(s.update(i, v)) == line_sum(s) - s[i] + v,
    decreases s.len(),
{
    if i == s.len() - 1 {
        assert(s.update(i, v).drop_last() =~= s.drop_last());
    } else {
        assert(s.update(i, v).drop_last() =~= s.drop_last().update(i, v));
        lemma_line_sum_update(s.drop_last(), i, v);
    }
}

pub proof fn lemma_tile_count_update(s: Seq<u64>, i: int, v: u64)
    requires
        0 <= i < s.len(),
    ensures
        tile_count(s.update(i, v)) as int == tile_count(s) as int - (if s[i] != 0 {
            1int
        } else {
            0int
        }) + (if v != 0 {
            1int
        } else {
            0int
        }),
    decreases s.len(),
{
    if i == s.len() - 1 {
        assert(s.update(i, v).drop_last() =~= s.drop_last());
    } else {
        assert(s.update(i, v).drop_last() =~= s.drop_last().update(i, v));
        lemma_tile_count_update(s.drop_last(), i, v);
    }
}

pub proof fn lemma_zeros_appended(a: Seq<u64>, n: nat)
    ensures
        nonzeros(a + zeros(n)) == nonzeros(a),
        line_sum(a + zeros(n)) == line_sum(a),
    decreases n,
{
    if n == 0 {
        assert(a + zeros(n) =~= a);
    } else {
        assert((a + zeros(n)).drop_last() =~= a + zeros((n - 1) as nat));
        lemma_zeros_appended(a, (n - 1) as nat);
    }
}

pub proof fn lemma_nonzeros_fixed(s: Seq<u64>)
    ensures
        nonzeros(nonzeros(s)) == nonzeros(s),
        line_sum(nonzeros(s)) == line_sum(s),
    decreases s.len(),
{
    if s.len() > 0 {
        let rest = nonzeros(s.drop_last());
        lemma_nonzeros_fixed(s.drop_last());
        if s.last() != 0 {
            assert(rest.push(s.last()).drop_last() =~= rest);
            lemma_line_sum_push(rest, s.last());
        }
    }
}

/// Compaction keeps the tiles, their order and the sum, and is idempotent.
pub proof fn lemma_compact(s: Seq<u64>)
    ensures
        compact(s).len() == s.len(),
        nonzeros(compact(s)) == nonzeros(s),
        tile_count(compact(s)) == tile_count(s),
        line_sum(compact(s)) == line_sum(s),
        compact(compact(s)) == compact(s),
{
    lemma_nonzeros_len(s);
    let n = (s.len() - nonzeros(s).len()) as nat;
    lemma_zeros_appended(nonzeros(s), n);
    lemma_nonzeros_fixed(s);
}

/// Merging a pair keeps the sum (when the doubled tile fits) and loses a tile.
pub proof fn lemma_merge_at(s: Seq<u64>, i: int)
    requires
        mergeable(s, i),
    ensures
        merge_at(s, i).len() == s.len(),
        tile_count(merge_at(s, i)) < tile_count(s),
        line_sum(s) <= u64::MAX ==> line_sum(merge_at(s, i)) == line_sum(s),
{
    let t = s.update(i, (2 * s[i]) as u64);
    lemma_tile_count_update(s, i, (2 * s[i]) as u64);
    lemma_tile_count_update(t, i + 1, 0u64);
    lemma_line_sum_update(s, i, (2 * s[i]) as u64);
    lemma_line_sum_update(t, i + 1, 0u64);
    if line_sum(s) <= u64::MAX {
        lemma_line_sum_nonneg(s);
        let d = s.update(i, 0u64).update(i + 1, 0u64);
        lemma_line_sum_update(s, i, 0u64);
        lemma_line_sum_update(s.update(i, 0u64), i + 1, 0u64);
        lemma_line_sum_nonneg(d);
    }
}

/// The scan keeps the length and the sum, and either changes nothing or
/// loses a tile.
pub proof fn lemma_merge_scan(s: Seq<u64>, i: int)
    requires
        0 <= i,
        line_sum(s) <= u64::MAX,
    ensures
        merge_scan(s, i).len() == s.len(),
        line_sum(merge_scan(s, i)) == line_sum(s),
        tile_count(merge_scan(s, i)) <= tile_count(s),
        merge_scan(s, i) == s || tile_count(merge_scan(s, i)) < tile_count(s),
    decreases s.len() - i,
{
    if i + 1 < s.len() {
        if mergeable(s, i) {
            lemma_merge_at(s, i);
            lemma_merge_scan(merge_at(s, i), i + 2);
        } else {
            lemma_merge_scan(s, i + 1);
        }
    }
}

proof fn lemma_merge_scan_len(s: Seq<u64>, i: int)
    ensures
        merge_scan(s, i).len() == s.len(),
    decreases s.len() - i,
{
    if !(i < 0 || i + 1 >= s.len()) {
        if mergeable(s, i) {
            lemma_merge_scan_len(merge_at(s, i), i + 2);
        } else {
            lemma_merge_scan_len(s, i + 1);
        }
    }
}

/// A move toward index 0 keeps the sum of the line and never adds a tile.
pub proof fn lemma_slide_keeps_sum(s: Seq<u64>)
    requires
        line_sum(s) <= u64::MAX,
    ensures
        slide(s).len() == s.len(),
        line_sum(slide(s)) == line_sum(s),
        tile_count(slide(s)) <= tile_count(s),
{
    lemma_compact(s);
    lemma_merge_scan(compact(s), 0);
    lemma_compact(merge_scan(compact(s), 0));
}

/// The sum of a line of four cells, written out.
pub proof fn lemma_line_sum_four(s: Seq<u64>)
    requires
        s.len() == 4,
    ensures
        line_sum(s) == s[0] + s[1] + s[2] + s[3],
        tile_count(s) == (if s[0] != 0 { 1int } else { 0int })
            + (if s[1] != 0 { 1int } else { 0int })
            + (if s[2] != 0 { 1int } else { 0int }) + (if s[3] != 0 { 1int } else { 0int }),
{
    let s3 = s.drop_last();
    let s2 = s3.drop_last();
    let s1 = s2.drop_last();
    let s0 = s1.drop_last();
    assert(s0.len() == 0);
    assert(line_sum(s0) == 0);
    assert(nonzeros(s0).len() == 0);
    assert(s1[0] == s[0] && s2[1] == s[1] && s3[2] == s[2]);
    assert(line_sum(s1) == s[0]);
    assert(line_sum(s2) == s[0] + s[1]);
    assert(line_sum(s3) == s[0] + s[1] + s[2]);
    assert(tile_count(s1) == (if s[0] != 0 { 1int } else { 0int }));
    assert(tile_count(s2) == (if s[0] != 0 { 1int } else { 0int })
        + (if s[1] != 0 { 1int } else { 0int }));
    assert(tile_count(s3) == (if s[0] != 0 { 1int } else { 0int })
        + (if s[1] != 0 { 1int } else { 0int })
        + (if s[2] != 0 { 1int } else { 0int }));
}

pub proof fn lemma_slide_len(s: Seq<u64>)
    ensures
        slide(s).len() == s.len(),
{
    lemma_compact(s);
    lemma_merge_scan_len(compact(s), 0);
    lemma_compact(merge_scan(compact(s), 0));
}

proof fn lemma_all_tiles(s: Seq<u64>)
    requires
        forall|k: int| 0 <= k < s.len() ==> s[k] != 0,
    ensures
        nonzeros(s) == s,
    decreases s.len(),
{
    if s.len() > 0 {
        lemma_all_tiles(s.drop_last());
        assert(s.drop_last().push(s.last()) =~= s);
    }
}

/// A move that changes a line leaves an empty cell in it.
pub proof fn lemma_slide_changed(s: Seq<u64>)
    requires
        s.len() == 4,
        line_sum(s) <= u64::MAX,
        slide(s) != s,
    ensures
        exists|m: int| 0 <= m < 4 && slide(s)[m] == 0,
{
    lemma_slide_keeps_sum(s);
    lemma_compact(s);
    lemma_nonzeros_len(s);
    let c = compact(s);
    lemma_merge_scan(c, 0);
    lemma_compact(merge_scan(c, 0));
    if forall|k: int| 0 <= k < 4 ==> s[k] != 0 {
        lemma_all_tiles(s);
        assert(s + zeros(0) =~= s);
        assert(c == s);
    }
    let r = slide(s);
    lemma_line_sum_four(s);
    lemma_line_sum_four(r);
    assert(tile_count(r) < 4);
}

/// Pushes every tile toward index 0.
fn compact_line(line: [u64; 4]) -> (r: [u64; 4])
    ensures
        r@ == compact(line@),
{
    let mut row = line;
    let mut target: usize = 0;
    let mut i: usize = 0;
    while i < 4
        invariant
            i <= 4,
            target <= i,
            target == nonzeros(line@.take(i as int)).len(),
            row@.take(target as int) == nonzeros(line@.take(i as int)),
            forall|k: int| target <= k < i ==> row@[k] == 0,
            forall|k: int| i <= k < 4 ==> row@[k] == line@[k],
        decreases 4 - i,
    {
        assert(line@.take(i as int + 1).drop_last() =~= line@.take(i as int));
        if row[i] != 0 {
            let v = row[i];
            let ghost before = row@;
            if target != i {
                row[target] = v;
                row[i] = 0;
            }
            assert(row@.take(target as int + 1) =~= before.take(target as int).push(v));
            target = target + 1;
        }
        i = i + 1;
    }
    assert(line@.take(4) =~= line@);
    assert(row@ =~= compact(line@));
    row
}

/// Merges each pair of equal neighbouring tiles, scanning from index 0 and
/// going on after each merged pair.
fn merge_pairs(line: [u64; 4]) -> (r: [u64; 4])
    requires
        line_sum(line@) <= u64::MAX,
    ensures
        r@ == merge_scan(line@, 0),
        line_sum(r@) == line_sum(line@),
{
    let mut row = line;
    let mut i: usize = 0;
    while i < 3
        invariant
            i <= 4,
            merge_scan(row@, i as int) == merge_scan(line@, 0),
            line_sum(row@) == line_sum(line@),
            line_sum(line@) <= u64::MAX,
        decreases 4 - i,
    {
        if row[i] != 0 && row[i] == row[i + 1] {
            proof {
                lemma_line_sum_nonneg(row@);
                lemma_line_sum_update(row@, i as int, 0u64);
                lemma_line_sum_update(row@.update(i as int, 0u64), i as int + 1, 0u64);
                lemma_line_sum_nonneg(row@.update(i as int, 0u64).update(i as int + 1, 0u64));
                lemma_merge_at(row@, i as int);
            }
            let ghost before = row@;
            let doubled = row[i] * 2;
            row[i] = doubled;
            row[i + 1] = 0;
            assert(row@ =~= merge_at(before, i as int));
            i = i + 2;
        } else {
            i = i + 1;
        }
    }
    row
}

/// Moves every tile toward index 0, merging pairs as a move does, and says
/// whether the line changed.
pub fn slide_line(line: [u64; 4]) -> (r: ([u64; 4], bool))
    requires
        line_sum(line@) <= u64::MAX,
    ensures
        r.0@ == slide(line@),
        r.1 == (slide(line@) != line@),
{
    proof {
        lemma_compact(line@);
    }
    let compacted = compact_line(line);
    let merged = merge_pairs(compacted);
    let row = compact_line(merged);
    let changed = !(row[0] == line[0] && row[1] == line[1] && row[2] == line[2] && row[3]
        == line[3]);
    assert(!changed ==> row@ =~= line@);
    (row, changed)
}

} // verus!
