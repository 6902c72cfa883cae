use vstd::prelude::*;
use vstd::multiset::{group_multiset_axioms, Multiset};
use vstd::seq_lib::group_to_multiset_ensures;

verus! {

/// The largest tile value that can still be doubled within a `u32`.
pub const MAX_TILE: u32 = 0x7fff_ffff;

/// The tiles of a line in order, with the empty cells (zeros) left out.
pub open spec fn tiles(line: Seq<u32>) -> Seq<u32>
    decreases line.len(),
{
    if line.len() == 0 {
        seq![]
    } else {
        let rest = tiles(line.drop_last());
        if line.last() != 0 {
            rest.push(line.last())
        } else {
            rest
        }
    }
}

/// Every value of the line can be doubled without overflow.
pub open spec fn fits(line: Seq<u32>) -> bool {
    forall|i: int| 0 <= i < line.len() ==> line[i] <= MAX_TILE
}

/// The merging scan over the first `i` tiles of `run`. Its state is the written
/// values, whether the last written value was produced by a merge, and the value
/// of the two tiles of each merge so far (before doubling), in order.
pub open spec fn scan(run: Seq<u32>, i: nat) -> (Seq<u32>, bool, Seq<u32>)
    decreases i,
{
    if i == 0 || i > run.len() {
        (seq![], false, seq![])
    } else {
        let prev = scan(run, (i - 1) as nat);
        let v = run[i - 1];
        if prev.0.len() > 0 && prev.0.last() == v && !prev.1 {
            (prev.0.drop_last().push((2 * v) as u32), true, prev.2.push(v))
        } else {
            (prev.0.push(v), false, prev.2)
        }
    }
}

/// The values that a scan over all of `run` writes.
pub open spec fn merged(run: Seq<u32>) -> Seq<u32> {
    scan(run, run.len()).0
}

/// The value of the two tiles of each merge of a scan over `run`, in order.
pub open spec fn merge_values(run: Seq<u32>) -> Seq<u32> {
    scan(run, run.len()).2
}

/// `s` followed by empty cells up to length `n`.
pub open spec fn pad(s: Seq<u32>, n: nat) -> Seq<u32> {
    s + Seq::new((n - s.len()) as nat, |t: int| 0u32)
}

/// A line after all its tiles slid toward position 0 and merged.
pub open spec fn slide(line: Seq<u32>) -> Seq<u32> {
    pad(merged(tiles(line)), line.len())
}

/// Sum of the doubled values.
pub open spec fn doubled_sum(halves: Seq<u32>) -> int
    decreases halves.len(),
{
    if halves.len() == 0 {
        0
    } else {
        doubled_sum(halves.drop_last()) + 2 * halves.last()
    }
}

/// The points a line earns when it slides: the sum of the values its merges produce.
pub open spec fn line_score(line: Seq<u32>) -> int {
    doubled_sum(merge_values(tiles(line)))
}

/// `x` clamped into `u64`.
pub open spec fn capped(x: int) -> u64 {
    if x > u64::MAX {
        u64::MAX
    } else if x < 0 {
        0
    } else {
        x as u64
    }
}

pub proof fn lemma_capped_add(a: int, b: int)
    requires
        0 <= a,
        0 <= b,
    ensures
        capped(a + b) == capped(a).saturating_add(capped(b)),
{
}

pub proof fn lemma_doubled_sum_nonneg(halves: Seq<u32>)
    ensures
        doubled_sum(halves) >= 0,
    decreases halves.len(),
{
    if halves.len() > 0 {
        lemma_doubled_sum_nonneg(halves.drop_last());
    }
}

pub proof fn lemma_tiles_fit(line: Seq<u32>)
    requires
        fits(line),
    ensures
        fits(tiles(line)),
        tiles(line).len() <= line.len(),
        forall|i: int| 0 <= i < tiles(line).len() ==> tiles(line)[i] != 0,
    decreases line.len(),
{
    if line.len() > 0 {
        lemma_tiles_fit(line.drop_last());
    }
}

pub proof fn lemma_tiles_take(line: Seq<u32>, t: int)
    requires
        0 <= t < line.len(),
    ensures
        tiles(line.take(t + 1)) == if line[t] != 0 {
            tiles(line.take(t)).push(line[t])
        } else {
            tiles(line.take(t))
        },
{
    assert(line.take(t + 1).drop_last() =~= line.take(t));
}

/// The scan's state, step by step: its output has one value per tile that did
/// not merge into an earlier one, and each written value is a tile or a doubled tile.
pub proof fn lemma_scan_shape(run: Seq<u32>, i: nat)
    requires
        i <= run.len(),
        fits(run),
        forall|k: int| 0 <= k < run.len() ==> run[k] != 0,
    ensures
        scan(run, i).0.len() + scan(run, i).2.len() == i,
        forall|k: int| 0 <= k < scan(run, i).0.len() ==> scan(run, i).0[k] != 0,
        scan(run, i).1 ==> scan(run, i).0.len() > 0,
    decreases i,
{
    if i > 0 {
        lemma_scan_shape(run, (i - 1) as nat);
        let v = run[i - 1];
        assert(2 * v <= u32::MAX);
    }
}

/// Slides one line: collects its tiles, merges equal neighbours once each, and
/// pads with empty cells. Returns the new line and the points earned.
pub fn slide_line(line: &Vec<u32>) -> (r: (Vec<u32>, u64))
    requires
        fits(line@),
    ensures
        r.0@ == slide(line@),
        r.1 == capped(line_score(line@)),
{
    let n = line.len();
    let mut run: Vec<u32> = Vec::new();
    for t in 0..n
        invariant
            n == line@.len(),
            run@ == tiles(line@.take(t as int)),
    {
        proof {
            lemma_tiles_take(line@, t as int);
        }
        if line[t] != 0 {
            run.push(line[t]);
        }
    }
    assert(line@.take(n as int) =~= line@);
    proof {
        lemma_tiles_fit(line@);
    }
    let mut out: Vec<u32> = Vec::new();
    let mut last_merged = false;
    let ghost mut halves: Seq<u32> = seq![];
    let mut score: u64 = 0;
    let m = run.len();
    for i in 0..m
        invariant
            m == run@.len(),
            run@ == tiles(line@),
            fits(run@),
            forall|k: int| 0 <= k < run@.len() ==> run@[k] != 0,
            (out@, last_merged, halves) == scan(run@, i as nat),
            score == capped(doubled_sum(halves)),
    {
        proof {
            lemma_scan_shape(run@, i as nat);
            lemma_doubled_sum_nonneg(halves);
        }
        let v = run[i];
        let len = out.len();
        if len > 0 && out[len - 1] == v && !last_merged {
            out.set(len - 1, 2 * v);
            last_merged = true;
            proof {
                lemma_capped_add(doubled_sum(halves), 2 * v);
                assert(halves.push(v).drop_last() =~= halves);
                halves = halves.push(v);
            }
            score = score.saturating_add(2 * (v as u64));
        } else {
            out.push(v);
            last_merged = false;
        }
        assert(out@ =~= scan(run@, (i + 1) as nat).0);
    }
    proof {
        lemma_scan_shape(run@, m as nat);
    }
    let ghost merged_len = out@.len();
    while out.len() < n
        invariant
            merged_len <= out@.len() <= n,
            n == line@.len(),
            out@.subrange(0, merged_len as int) == merged(tiles(line@)),
            merged_len == merged(tiles(line@)).len(),
            forall|k: int| merged_len <= k < out@.len() ==> out@[k] == 0,
        decreases n - out.len(),
    {
        out.push(0);
    }
    assert(out@ =~= slide(line@));
    (out, score)
}

/// Every tile of the line is followed only by tiles, and every empty cell
/// only by empty cells: the line is packed toward position 0.
pub open spec fn packed(line: Seq<u32>) -> bool {
    forall|i: int, j: int| 0 <= i < j < line.len() && line[i] == 0 ==> line[j] == 0
}

/// No tile of the line has an equal tile right after it.
pub open spec fn no_equal_neighbours(line: Seq<u32>) -> bool {
    forall|i: int| 0 <= i < line.len() - 1 && #[trigger] line[i] != 0 ==> line[i] != line[i + 1]
}

/// Each value of `s`, doubled.
pub open spec fn doubles(s: Seq<u32>) -> Seq<u32> {
    s.map_values(|v: u32| (2 * v) as u32)
}

proof fn lemma_packed_tiles(line: Seq<u32>) -> (m: nat)
    requires
        packed(line),
    ensures
        m <= line.len(),
        tiles(line) == line.take(m as int),
        forall|j: int| m <= j < line.len() ==> line[j] == 0,
        forall|j: int| 0 <= j < m ==> line[j] != 0,
    decreases line.len(),
{
    if line.len() == 0 {
        assert(line.take(0) =~= seq![]);
        0
    } else {
        let prev = line.drop_last();
        let m0 = lemma_packed_tiles(prev);
        if line.last() != 0 {
            assert forall|j: int| 0 <= j < line.len() implies line[j] != 0 by {
                if line[j] == 0 && j < line.len() - 1 {
                    assert(line[line.len() - 1] == 0);
                }
            }
            if m0 < prev.len() {
                assert(prev[m0 as int] == 0);
            }
            assert(prev.take(m0 as int).push(line.last()) =~= line.take(line.len() as int));
            line.len()
        } else {
            assert(prev.take(m0 as int) =~= line.take(m0 as int));
            assert forall|j: int| 0 <= j < m0 implies line[j] != 0 by {
                assert(prev[j] != 0);
            }
            assert forall|j: int| m0 <= j < line.len() implies line[j] == 0 by {
                if j < prev.len() {
                    assert(prev[j] == 0);
                }
            }
            m0
        }
    }
}

proof fn lemma_scan_no_pairs(run: Seq<u32>, i: nat)
    requires
        i <= run.len(),
        forall|k: int| 0 <= k < run.len() - 1 ==> #[trigger] run[k] != run[k + 1],
    ensures
        scan(run, i) == (run.take(i as int), false, Seq::<u32>::empty()),
    decreases i,
{
    if i == 0 {
        assert(run.take(0) =~= seq![]);
    } else {
        lemma_scan_no_pairs(run, (i - 1) as nat);
        assert(run.take(i - 1).push(run[i - 1]) =~= run.take(i as int));
    }
}

proof fn lemma_tiles_all(line: Seq<u32>)
    requires
        forall|k: int| 0 <= k < line.len() ==> line[k] != 0,
    ensures
        tiles(line) == line,
    decreases line.len(),
{
    if line.len() > 0 {
        lemma_tiles_all(line.drop_last());
        assert(line.drop_last().push(line.last()) =~= line);
    }
}

proof fn lemma_tiles_pad(s: Seq<u32>, n: nat)
    requires
        s.len() <= n,
    ensures
        tiles(pad(s, n)) == tiles(s),
    decreases n,
{
    if n > s.len() {
        lemma_tiles_pad(s, (n - 1) as nat);
        assert(pad(s, n).drop_last() =~= pad(s, (n - 1) as nat));
    } else {
        assert(pad(s, n) =~= s);
    }
}

proof fn lemma_tiles_full(line: Seq<u32>)
    requires
        tiles(line).len() == line.len(),
    ensures
        tiles(line) == line,
    decreases line.len(),
{
    if line.len() > 0 {
        lemma_tiles_fit_len(line.drop_last());
        lemma_tiles_full(line.drop_last());
        assert(line.drop_last().push(line.last()) =~= line);
    }
}

proof fn lemma_tiles_fit_len(line: Seq<u32>)
    ensures
        tiles(line).len() <= line.len(),
    decreases line.len(),
{
    if line.len() > 0 {
        lemma_tiles_fit_len(line.drop_last());
    }
}

proof fn lemma_scan_unmerged(run: Seq<u32>, i: nat)
    requires
        i <= run.len(),
        scan(run, i).2.len() == 0,
    ensures
        scan(run, i).0 == run.take(i as int),
    decreases i,
{
    if i == 0 {
        assert(run.take(0) =~= seq![]);
    } else {
        lemma_scan_unmerged(run, (i - 1) as nat);
        assert(run.take(i - 1).push(run[i - 1]) =~= run.take(i as int));
    }
}

proof fn lemma_scan_multiset(run: Seq<u32>, i: nat)
    requires
        i <= run.len(),
    ensures
        run.take(i as int).to_multiset().add(doubles(scan(run, i).2).to_multiset())
            =~= scan(run, i).0.to_multiset().add(scan(run, i).2.to_multiset()).add(
            scan(run, i).2.to_multiset(),
        ),
    decreases i,
{
    broadcast use group_to_multiset_ensures, group_multiset_axioms;

    if i == 0 {
        assert(run.take(0) =~= seq![]);
        assert(doubles(seq![]) =~= seq![]);
        assert(Seq::<u32>::empty().to_multiset() =~= Multiset::empty());
    } else {
        lemma_scan_multiset(run, (i - 1) as nat);
        let prev = scan(run, (i - 1) as nat);
        let v = run[i - 1];
        let w = (2 * v) as u32;
        assert(run.take(i - 1).push(v) =~= run.take(i as int));
        assert(run.take(i as int).to_multiset() =~= run.take(i - 1).to_multiset().insert(v));
        if prev.0.len() > 0 && prev.0.last() == v && !prev.1 {
            let rest = prev.0.drop_last();
            assert(doubles(prev.2.push(v)) =~= doubles(prev.2).push(w));
            assert(rest.push(v) =~= prev.0);
            assert(prev.0.to_multiset() =~= rest.to_multiset().insert(v));
            assert(rest.push(w).to_multiset() =~= rest.to_multiset().insert(w));
            assert(prev.2.push(v).to_multiset() =~= prev.2.to_multiset().insert(v));
            assert(doubles(prev.2).push(w).to_multiset() =~= doubles(prev.2).to_multiset().insert(
                w,
            ));
            assert(scan(run, i) == (rest.push(w), true, prev.2.push(v)));
            let a = run.take(i - 1).to_multiset();
            let d = doubles(prev.2).to_multiset();
            let h = prev.2.to_multiset();
            let o = rest.to_multiset();
            assert(a.add(d) == o.insert(v).add(h).add(h));
            assert forall|x: u32| #[trigger] a.insert(v).add(d.insert(w)).count(x) == o.insert(
                w,
            ).add(h.insert(v)).add(h.insert(v)).count(x) by {
                assert(a.add(d).count(x) == o.insert(v).add(h).add(h).count(x));
            }
            assert(a.insert(v).add(d.insert(w)) =~= o.insert(w).add(h.insert(v)).add(h.insert(v)));
        } else {
            assert(prev.0.push(v).to_multiset() =~= prev.0.to_multiset().insert(v));
            assert(scan(run, i) == (prev.0.push(v), false, prev.2));
            let a = run.take(i - 1).to_multiset();
            let d = doubles(prev.2).to_multiset();
            let h = prev.2.to_multiset();
            let o = prev.0.to_multiset();
            assert(a.add(d) == o.add(h).add(h));
            assert forall|x: u32| #[trigger] a.insert(v).add(d).count(x) == o.insert(v).add(h).add(h).count(x) by {
                assert(a.add(d).count(x) == o.add(h).add(h).count(x));
            }
            assert(a.insert(v).add(d) =~= o.insert(v).add(h).add(h));
        }
    }
}

/// A line with three tiles of one value, and nothing else, slides to one
/// merged tile followed by the third tile: the leading pair merges, once.
pub proof fn lemma_merge_once(line: Seq<u32>, v: u32)
    requires
        tiles(line) == seq![v, v, v],
        v <= MAX_TILE,
    ensures
        slide(line) == pad(seq![(2 * v) as u32, v], line.len()),
{
    let run = tiles(line);
    lemma_tiles_fit_len(line);
    assert(v != 0) by {
        assert(run.last() == v);
        assert(line.len() > 0);
        if line.last() == 0 {
            lemma_tiles_nonzero(line.drop_last());
            assert(tiles(line.drop_last())[2] == v);
        }
    }
    let empty = Seq::<u32>::empty();
    assert(scan(run, 0) == (empty, false, empty));
    assert(scan(run, 1).0 =~= seq![v]);
    assert(!scan(run, 1).1);
    assert(scan(run, 2).0 =~= seq![(2 * v) as u32]);
    assert(scan(run, 2).1);
    assert(scan(run, 3).0 =~= seq![(2 * v) as u32, v]);
}

proof fn lemma_tiles_nonzero(line: Seq<u32>)
    ensures
        forall|i: int| 0 <= i < tiles(line).len() ==> tiles(line)[i] != 0,
    decreases line.len(),
{
    if line.len() > 0 {
        let rest = tiles(line.drop_last());
        lemma_tiles_nonzero(line.drop_last());
        assert forall|i: int| 0 <= i < tiles(line).len() implies tiles(line)[i] != 0 by {
            if i < rest.len() {
                assert(tiles(line)[i] == rest[i]);
            }
        }
    }
}

/// A line already packed toward position 0, with no two equal tiles side by
/// side, does not change when it slides.
pub proof fn lemma_packed_line_is_fixed(line: Seq<u32>)
    requires
        packed(line),
        no_equal_neighbours(line),
    ensures
        slide(line) == line,
{
    let m = lemma_packed_tiles(line);
    let run = tiles(line);
    assert forall|k: int| 0 <= k < run.len() - 1 implies #[trigger] run[k] != run[k + 1] by {
        assert(line[k] != 0);
    }
    lemma_scan_no_pairs(run, run.len());
    assert(run.take(run.len() as int) =~= run);
    assert(slide(line) =~= line);
}

/// Sliding keeps the tiles that do not merge and replaces each merged pair of
/// equal values `v` by one tile `2v`: the tiles after the slide are the scan's
/// output, one fewer per merge, and as multisets the input tiles plus the
/// produced values equal the output tiles plus both halves of every merge.
pub proof fn lemma_line_conservation(line: Seq<u32>)
    requires
        fits(line),
    ensures
        tiles(slide(line)) == merged(tiles(line)),
        merged(tiles(line)).len() + merge_values(tiles(line)).len() == tiles(line).len(),
        tiles(line).to_multiset().add(doubles(merge_values(tiles(line))).to_multiset())
            == merged(tiles(line)).to_multiset().add(
            merge_values(tiles(line)).to_multiset(),
        ).add(merge_values(tiles(line)).to_multiset()),
{
    let run = tiles(line);
    lemma_tiles_fit(line);
    lemma_scan_shape(run, run.len());
    lemma_tiles_pad(merged(run), line.len());
    lemma_tiles_all(merged(run));
    lemma_scan_multiset(run, run.len());
    assert(run.take(run.len() as int) =~= run);
}

/// A line that changes when it slides ends in an empty cell.
pub proof fn lemma_changed_line_has_room(line: Seq<u32>)
    requires
        fits(line),
        slide(line) != line,
    ensures
        slide(line).len() == line.len(),
        slide(line)[line.len() - 1] == 0,
{
    let run = tiles(line);
    lemma_tiles_fit(line);
    lemma_scan_shape(run, run.len());
    if merged(run).len() == line.len() {
        lemma_tiles_full(line);
        lemma_scan_unmerged(run, run.len());
        assert(run.take(run.len() as int) =~= run);
        assert(slide(line) =~= line);
    }
}

} // verus!
