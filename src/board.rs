use vstd::prelude::*;

use crate::line::{
    capped, doubles, fits, lemma_capped_add, lemma_changed_line_has_room, lemma_doubled_sum_nonneg,
    lemma_line_conservation, lemma_merge_once, lemma_packed_line_is_fixed, lemma_scan_shape,
    lemma_tiles_fit, line_score, merge_values, merged, no_equal_neighbours, packed, pad, slide,
    slide_line, tiles, MAX_TILE,
};

use crate::random::choose_one;

verus! {

/// The four moves. Tiles slide toward the named edge.
#[derive(Clone, Copy, Debug, PartialEq, Eq, Structural)]
pub enum Direction {
    Up,
    Down,
    Left,
    Right,
}

/// `g` has `h` rows of `w` cells each.
pub open spec fn shaped(g: Seq<Seq<u32>>, w: nat, h: nat) -> bool {
    g.len() == h && forall|i: int| 0 <= i < h ==> #[trigger] g[i].len() == w
}

/// Every tile of the grid can be doubled without overflow.
pub open spec fn grid_fits(g: Seq<Seq<u32>>, w: nat, h: nat) -> bool {
    forall|i: int, j: int| 0 <= i < h && 0 <= j < w ==> #[trigger] g[i][j] <= MAX_TILE
}

/// Some cell of the grid holds `v` (with `v == 0`: some cell is empty).
pub open spec fn has_value(g: Seq<Seq<u32>>, w: nat, h: nat, v: u32) -> bool {
    exists|i: int, j: int| 0 <= i < h && 0 <= j < w && #[trigger] g[i][j] == v
}

/// The grid with cell (`r`, `c`) set to `v`.
pub open spec fn set_cell(g: Seq<Seq<u32>>, r: int, c: int, v: u32) -> Seq<Seq<u32>> {
    g.update(r, g[r].update(c, v))
}

/// How many lines a move slides: rows for Left and Right, columns for Up and Down.
pub open spec fn line_count(d: Direction, w: nat, h: nat) -> nat {
    match d {
        Direction::Left | Direction::Right => h,
        Direction::Up | Direction::Down => w,
    }
}

/// How many cells each line of a move has.
pub open spec fn line_len(d: Direction, w: nat, h: nat) -> nat {
    match d {
        Direction::Left | Direction::Right => w,
        Direction::Up | Direction::Down => h,
    }
}

/// The cell (row, column) at position `t` of line `k`, positions counted from
/// the edge that the tiles move toward.
pub open spec fn cell_of(d: Direction, w: nat, h: nat, k: int, t: int) -> (int, int) {
    match d {
        Direction::Left => (k, t),
        Direction::Right => (k, w - 1 - t),
        Direction::Up => (t, k),
        Direction::Down => (h - 1 - t, k),
    }
}

/// The line and the position in it of cell (`i`, `j`): the inverse of `cell_of`.
pub open spec fn place_of(d: Direction, w: nat, h: nat, i: int, j: int) -> (int, int) {
    match d {
        Direction::Left => (i, j),
        Direction::Right => (i, w - 1 - j),
        Direction::Up => (j, i),
        Direction::Down => (j, h - 1 - i),
    }
}

/// Line `k` of the grid for a move, read from the edge the tiles move toward.
pub open spec fn line_of(g: Seq<Seq<u32>>, d: Direction, w: nat, h: nat, k: int) -> Seq<u32> {
    Seq::new(line_len(d, w, h), |t: int| g[cell_of(d, w, h, k, t).0][cell_of(d, w, h, k, t).1])
}

/// The grid after a move: every line slides on its own.
pub open spec fn moved(g: Seq<Seq<u32>>, d: Direction, w: nat, h: nat) -> Seq<Seq<u32>> {
    Seq::new(
        h,
        |i: int|
            Seq::new(
                w,
                |j: int|
                    slide(line_of(g, d, w, h, place_of(d, w, h, i, j).0))[place_of(
                        d,
                        w,
                        h,
                        i,
                        j,
                    ).1],
            ),
    )
}

/// The points that the first `n` lines of a move earn.
pub open spec fn lines_score(g: Seq<Seq<u32>>, d: Direction, w: nat, h: nat, n: nat) -> int
    decreases n,
{
    if n == 0 {
        0
    } else {
        lines_score(g, d, w, h, (n - 1) as nat) + line_score(line_of(g, d, w, h, n - 1))
    }
}

/// The points a move earns: the sum of the values that all its merges produce.
pub open spec fn move_score(g: Seq<Seq<u32>>, d: Direction, w: nat, h: nat) -> int {
    lines_score(g, d, w, h, line_count(d, w, h))
}

/// `a` comes before `b` when the cells are read row by row.
pub open spec fn row_major_before(a: (usize, usize), b: (usize, usize)) -> bool {
    a.0 < b.0 || (a.0 == b.0 && a.1 < b.1)
}

/// Each row reversed: the grid seen in a mirror.
pub open spec fn mirror(g: Seq<Seq<u32>>) -> Seq<Seq<u32>> {
    g.map_values(|r: Seq<u32>| r.reverse())
}

/// Rows become columns: the `w` rows of `h` cells of a grid of `h` rows of `w` cells.
pub open spec fn transpose(g: Seq<Seq<u32>>, w: nat, h: nat) -> Seq<Seq<u32>> {
    Seq::new(w, |j: int| Seq::new(h, |i: int| g[i][j]))
}

/// How many tiles the grid holds.
pub open spec fn tile_count(g: Seq<Seq<u32>>) -> nat
    decreases g.len(),
{
    if g.len() == 0 {
        0
    } else {
        tile_count(g.drop_last()) + tiles(g.last()).len()
    }
}

proof fn lemma_place_cell(d: Direction, w: nat, h: nat, i: int, j: int)
    requires
        0 <= i < h,
        0 <= j < w,
    ensures
        0 <= place_of(d, w, h, i, j).0 < line_count(d, w, h),
        0 <= place_of(d, w, h, i, j).1 < line_len(d, w, h),
        cell_of(d, w, h, place_of(d, w, h, i, j).0, place_of(d, w, h, i, j).1) == (i, j),
{
}

proof fn lemma_cell_place(d: Direction, w: nat, h: nat, k: int, t: int)
    requires
        0 <= k < line_count(d, w, h),
        0 <= t < line_len(d, w, h),
    ensures
        0 <= cell_of(d, w, h, k, t).0 < h,
        0 <= cell_of(d, w, h, k, t).1 < w,
        place_of(d, w, h, cell_of(d, w, h, k, t).0, cell_of(d, w, h, k, t).1) == (k, t),
{
}

/// A move slides each line on its own: line `k` of the moved grid is line `k`
/// of the grid, slid.
pub proof fn lemma_moved_lines(g: Seq<Seq<u32>>, d: Direction, w: nat, h: nat, k: int)
    requires
        shaped(g, w, h),
        grid_fits(g, w, h),
        0 <= k < line_count(d, w, h),
    ensures
        line_of(moved(g, d, w, h), d, w, h, k) == slide(line_of(g, d, w, h, k)),
{
    let m = moved(g, d, w, h);
    lemma_line_fits(g, d, w, h, k);
    lemma_slide_len(line_of(g, d, w, h, k));
    assert forall|t: int| 0 <= t < line_len(d, w, h) implies #[trigger] line_of(
        m,
        d,
        w,
        h,
        k,
    )[t] == slide(line_of(g, d, w, h, k))[t] by {
        lemma_cell_place(d, w, h, k, t);
    }
    assert(line_of(m, d, w, h, k) =~= slide(line_of(g, d, w, h, k)));
}

/// Merge-once on a grid: a row or column whose tiles are three equal values
/// `v` becomes, after a move along it, one `2v` tile next to the edge, then one
/// `v` tile, then empty cells.
pub proof fn lemma_three_equal_merge_once(
    g: Seq<Seq<u32>>,
    d: Direction,
    w: nat,
    h: nat,
    k: int,
    v: u32,
)
    requires
        shaped(g, w, h),
        grid_fits(g, w, h),
        0 <= k < line_count(d, w, h),
        tiles(line_of(g, d, w, h, k)) == seq![v, v, v],
    ensures
        line_of(moved(g, d, w, h), d, w, h, k) == pad(seq![(2 * v) as u32, v], line_len(d, w, h)),
{
    lemma_moved_lines(g, d, w, h, k);
    lemma_line_fits(g, d, w, h, k);
    lemma_tiles_fit(line_of(g, d, w, h, k));
    assert(tiles(line_of(g, d, w, h, k))[0] == v);
    lemma_merge_once(line_of(g, d, w, h, k), v);
}

/// A grid whose every line is already packed toward the edge of the move,
/// with no two equal tiles side by side, does not change.
pub proof fn lemma_packed_grid_is_fixed(g: Seq<Seq<u32>>, d: Direction, w: nat, h: nat)
    requires
        shaped(g, w, h),
        forall|k: int|
            0 <= k < line_count(d, w, h) ==> packed(#[trigger] line_of(g, d, w, h, k))
                && no_equal_neighbours(line_of(g, d, w, h, k)),
    ensures
        moved(g, d, w, h) == g,
{
    let m = moved(g, d, w, h);
    assert forall|i: int| 0 <= i < h implies #[trigger] m[i] =~= g[i] by {
        assert forall|j: int| 0 <= j < w implies m[i][j] == g[i][j] by {
            lemma_place_cell(d, w, h, i, j);
            let k = place_of(d, w, h, i, j).0;
            lemma_packed_line_is_fixed(line_of(g, d, w, h, k));
        }
    }
    assert(m =~= g);
}

/// Conservation along line `k` of a move: the tiles after it are the scan's
/// output, one fewer than before per merge, and as multisets the tiles before
/// plus the produced values equal the tiles after plus both halves of every
/// merge.
pub proof fn lemma_move_conservation(g: Seq<Seq<u32>>, d: Direction, w: nat, h: nat, k: int)
    requires
        shaped(g, w, h),
        grid_fits(g, w, h),
        0 <= k < line_count(d, w, h),
    ensures
        ({
            let before = tiles(line_of(g, d, w, h, k));
            let after = tiles(line_of(moved(g, d, w, h), d, w, h, k));
            let halves = merge_values(before);
            &&& after == merged(before)
            &&& after.len() + halves.len() == before.len()
            &&& before.to_multiset().add(doubles(halves).to_multiset()) == after.to_multiset().add(
                halves.to_multiset(),
            ).add(halves.to_multiset())
        }),
{
    lemma_moved_lines(g, d, w, h, k);
    lemma_line_fits(g, d, w, h, k);
    lemma_line_conservation(line_of(g, d, w, h, k));
}

/// How many tiles the first `n` lines of a move hold.
pub open spec fn lines_tiles(g: Seq<Seq<u32>>, d: Direction, w: nat, h: nat, n: nat) -> nat
    decreases n,
{
    if n == 0 {
        0
    } else {
        lines_tiles(g, d, w, h, (n - 1) as nat) + tiles(line_of(g, d, w, h, n - 1)).len()
    }
}

/// How many merges the first `n` lines of a move make.
pub open spec fn lines_merges(g: Seq<Seq<u32>>, d: Direction, w: nat, h: nat, n: nat) -> nat
    decreases n,
{
    if n == 0 {
        0
    } else {
        lines_merges(g, d, w, h, (n - 1) as nat) + merge_values(
            tiles(line_of(g, d, w, h, n - 1)),
        ).len()
    }
}

/// How many merges a move makes.
pub open spec fn move_merges(g: Seq<Seq<u32>>, d: Direction, w: nat, h: nat) -> nat {
    lines_merges(g, d, w, h, line_count(d, w, h))
}

proof fn lemma_tiles_concat(a: Seq<u32>, b: Seq<u32>)
    ensures
        tiles(a + b).len() == tiles(a).len() + tiles(b).len(),
    decreases b.len(),
{
    if b.len() == 0 {
        assert(a + b =~= a);
    } else {
        lemma_tiles_concat(a, b.drop_last());
        assert((a + b).drop_last() =~= a + b.drop_last());
    }
}

proof fn lemma_tiles_reverse(s: Seq<u32>)
    ensures
        tiles(s.reverse()).len() == tiles(s).len(),
    decreases s.len(),
{
    if s.len() > 0 {
        lemma_tiles_reverse(s.drop_last());
        assert(s.reverse() =~= seq![s.last()] + s.drop_last().reverse());
        lemma_tiles_concat(seq![s.last()], s.drop_last().reverse());
        let one = seq![s.last()];
        assert(one.drop_last() =~= Seq::<u32>::empty());
        assert(one.last() == s.last());
        assert(tiles(one.drop_last()).len() == 0);
        assert(tiles(one).len() == if s.last() != 0 {
            1nat
        } else {
            0nat
        });
    } else {
        assert(s.reverse() =~= s);
    }
}

proof fn lemma_lines_tiles_same(
    g: Seq<Seq<u32>>,
    d1: Direction,
    d2: Direction,
    w: nat,
    h: nat,
    n: nat,
)
    requires
        forall|k: int|
            0 <= k < n ==> tiles(#[trigger] line_of(g, d1, w, h, k)).len() == tiles(
                line_of(g, d2, w, h, k),
            ).len(),
    ensures
        lines_tiles(g, d1, w, h, n) == lines_tiles(g, d2, w, h, n),
    decreases n,
{
    if n > 0 {
        lemma_lines_tiles_same(g, d1, d2, w, h, (n - 1) as nat);
    }
}

proof fn lemma_count_by_rows(g: Seq<Seq<u32>>, w: nat, h: nat, n: nat)
    requires
        shaped(g, w, h),
        n <= h,
    ensures
        lines_tiles(g, Direction::Left, w, h, n) == tile_count(g.take(n as int)),
    decreases n,
{
    if n > 0 {
        lemma_count_by_rows(g, w, h, (n - 1) as nat);
        assert(g.take(n as int).drop_last() =~= g.take(n - 1));
        assert(line_of(g, Direction::Left, w, h, n - 1) =~= g[n - 1]);
    }
}

/// The grid without its last column.
pub open spec fn drop_column(g: Seq<Seq<u32>>) -> Seq<Seq<u32>> {
    g.map_values(|r: Seq<u32>| r.drop_last())
}

proof fn lemma_count_last_column(g: Seq<Seq<u32>>, w: nat, h: nat)
    requires
        shaped(g, w, h),
        w >= 1,
    ensures
        tile_count(g) == tile_count(drop_column(g)) + tiles(line_of(g, Direction::Up, w, h, w - 1)).len(),
    decreases h,
{
    if h > 0 {
        let g0 = g.drop_last();
        lemma_count_last_column(g0, w, (h - 1) as nat);
        assert(drop_column(g).drop_last() =~= drop_column(g0));
        assert(line_of(g, Direction::Up, w, h, w - 1).drop_last() =~= line_of(
            g0,
            Direction::Up,
            w,
            (h - 1) as nat,
            w - 1,
        ));
        assert(g.last().drop_last().push(g.last().last()) =~= g.last());
    }
}

proof fn lemma_count_by_columns(g: Seq<Seq<u32>>, w: nat, h: nat)
    requires
        shaped(g, w, h),
    ensures
        lines_tiles(g, Direction::Up, w, h, w) == tile_count(g),
    decreases w,
{
    if w == 0 {
        lemma_zero_width(g, h);
    } else {
        let g1 = drop_column(g);
        lemma_count_by_columns(g1, (w - 1) as nat, h);
        lemma_count_last_column(g, w, h);
        assert forall|k: int| 0 <= k < w - 1 implies #[trigger] line_of(g, Direction::Up, w, h, k)
            == line_of(g1, Direction::Up, (w - 1) as nat, h, k) by {
            assert(line_of(g, Direction::Up, w, h, k) =~= line_of(g1, Direction::Up, (w - 1) as nat, h, k));
        }
        lemma_lines_tiles_up_prefix(g, g1, w, h, (w - 1) as nat);
    }
}

proof fn lemma_lines_tiles_up_prefix(g: Seq<Seq<u32>>, g1: Seq<Seq<u32>>, w: nat, h: nat, n: nat)
    requires
        w >= 1,
        n <= w - 1,
        forall|k: int| 0 <= k < w - 1 ==> #[trigger] line_of(g, Direction::Up, w, h, k)
            == line_of(g1, Direction::Up, (w - 1) as nat, h, k),
    ensures
        lines_tiles(g, Direction::Up, w, h, n) == lines_tiles(g1, Direction::Up, (w - 1) as nat, h, n),
    decreases n,
{
    if n > 0 {
        lemma_lines_tiles_up_prefix(g, g1, w, h, (n - 1) as nat);
        assert(line_of(g, Direction::Up, w, h, n - 1) == line_of(g1, Direction::Up, (w - 1) as nat, h, n - 1));
    }
}

proof fn lemma_zero_width(g: Seq<Seq<u32>>, h: nat)
    requires
        shaped(g, 0, h),
    ensures
        tile_count(g) == 0,
    decreases h,
{
    if h > 0 {
        lemma_zero_width(g.drop_last(), (h - 1) as nat);
        assert(g.last() =~= Seq::<u32>::empty());
    }
}

/// Counting the tiles line by line, for any move, counts every tile of the grid once.
proof fn lemma_count_by_lines(g: Seq<Seq<u32>>, d: Direction, w: nat, h: nat)
    requires
        shaped(g, w, h),
    ensures
        lines_tiles(g, d, w, h, line_count(d, w, h)) == tile_count(g),
{
    lemma_count_by_rows(g, w, h, h);
    assert(g.take(h as int) =~= g);
    lemma_count_by_columns(g, w, h);
    match d {
        Direction::Left => {},
        Direction::Up => {},
        Direction::Right => {
            assert forall|k: int| 0 <= k < h implies tiles(#[trigger] line_of(g, Direction::Right, w, h, k)).len()
                == tiles(line_of(g, Direction::Left, w, h, k)).len() by {
                assert(line_of(g, Direction::Right, w, h, k) =~= line_of(g, Direction::Left, w, h, k).reverse());
                lemma_tiles_reverse(line_of(g, Direction::Left, w, h, k));
            }
            lemma_lines_tiles_same(g, Direction::Right, Direction::Left, w, h, h);
        },
        Direction::Down => {
            assert forall|k: int| 0 <= k < w implies tiles(#[trigger] line_of(g, Direction::Down, w, h, k)).len()
                == tiles(line_of(g, Direction::Up, w, h, k)).len() by {
                assert(line_of(g, Direction::Down, w, h, k) =~= line_of(g, Direction::Up, w, h, k).reverse());
                lemma_tiles_reverse(line_of(g, Direction::Up, w, h, k));
            }
            lemma_lines_tiles_same(g, Direction::Down, Direction::Up, w, h, w);
        },
    }
}

proof fn lemma_lines_conservation(g: Seq<Seq<u32>>, d: Direction, w: nat, h: nat, n: nat)
    requires
        shaped(g, w, h),
        grid_fits(g, w, h),
        n <= line_count(d, w, h),
    ensures
        lines_tiles(moved(g, d, w, h), d, w, h, n) + lines_merges(g, d, w, h, n) == lines_tiles(
            g,
            d,
            w,
            h,
            n,
        ),
    decreases n,
{
    if n > 0 {
        lemma_lines_conservation(g, d, w, h, (n - 1) as nat);
        lemma_move_conservation(g, d, w, h, n - 1);
    }
}

/// Over the whole grid, a move removes exactly one tile per merge.
pub proof fn lemma_move_tile_count(g: Seq<Seq<u32>>, d: Direction, w: nat, h: nat)
    requires
        shaped(g, w, h),
        grid_fits(g, w, h),
    ensures
        tile_count(moved(g, d, w, h)) + move_merges(g, d, w, h) == tile_count(g),
{
    let m = moved(g, d, w, h);
    assert(shaped(m, w, h));
    lemma_count_by_lines(g, d, w, h);
    lemma_count_by_lines(m, d, w, h);
    lemma_lines_conservation(g, d, w, h, line_count(d, w, h));
}

/// Directional symmetry: Left is Right seen in a mirror, Up is Left on the
/// transposed grid, and Down is Right on the transposed grid.
pub proof fn lemma_direction_symmetry(g: Seq<Seq<u32>>, w: nat, h: nat)
    requires
        shaped(g, w, h),
    ensures
        moved(g, Direction::Left, w, h) == mirror(moved(mirror(g), Direction::Right, w, h)),
        moved(g, Direction::Up, w, h) == transpose(
            moved(transpose(g, w, h), Direction::Left, h, w),
            h,
            w,
        ),
        moved(g, Direction::Down, w, h) == transpose(
            moved(transpose(g, w, h), Direction::Right, h, w),
            h,
            w,
        ),
{
    let mg = mirror(g);
    let tg = transpose(g, w, h);
    assert forall|i: int| 0 <= i < h implies #[trigger] line_of(mg, Direction::Right, w, h, i)
        == line_of(g, Direction::Left, w, h, i) by {
        assert(line_of(mg, Direction::Right, w, h, i) =~= line_of(g, Direction::Left, w, h, i));
    }
    assert forall|j: int| 0 <= j < w implies #[trigger] line_of(tg, Direction::Left, h, w, j)
        == line_of(g, Direction::Up, w, h, j) by {
        assert(line_of(tg, Direction::Left, h, w, j) =~= line_of(g, Direction::Up, w, h, j));
    }
    assert forall|j: int| 0 <= j < w implies #[trigger] line_of(tg, Direction::Right, h, w, j)
        == line_of(g, Direction::Down, w, h, j) by {
        assert(line_of(tg, Direction::Right, h, w, j) =~= line_of(g, Direction::Down, w, h, j));
    }
    let left = moved(g, Direction::Left, w, h);
    let right_m = mirror(moved(mg, Direction::Right, w, h));
    assert forall|i: int| 0 <= i < h implies #[trigger] left[i] =~= right_m[i] by {
        assert forall|j: int| 0 <= j < w implies left[i][j] == right_m[i][j] by {
            assert(right_m[i][j] == moved(mg, Direction::Right, w, h)[i][w - 1 - j]);
        }
    }
    assert(left =~= right_m);
    let up = moved(g, Direction::Up, w, h);
    let up_t = transpose(moved(tg, Direction::Left, h, w), h, w);
    assert forall|i: int| 0 <= i < h implies #[trigger] up[i] =~= up_t[i] by {
        assert forall|j: int| 0 <= j < w implies up[i][j] == up_t[i][j] by {
            assert(up_t[i][j] == moved(tg, Direction::Left, h, w)[j][i]);
        }
    }
    assert(up =~= up_t);
    let down = moved(g, Direction::Down, w, h);
    let down_t = transpose(moved(tg, Direction::Right, h, w), h, w);
    assert forall|i: int| 0 <= i < h implies #[trigger] down[i] =~= down_t[i] by {
        assert forall|j: int| 0 <= j < w implies down[i][j] == down_t[i][j] by {
            assert(down_t[i][j] == moved(tg, Direction::Right, h, w)[j][i]);
        }
    }
    assert(down =~= down_t);
}

/// A move that changes the grid leaves at least one empty cell.
pub proof fn lemma_changed_move_has_room(g: Seq<Seq<u32>>, d: Direction, w: nat, h: nat)
    requires
        shaped(g, w, h),
        grid_fits(g, w, h),
        moved(g, d, w, h) != g,
    ensures
        has_value(moved(g, d, w, h), w, h, 0),
{
    let m = moved(g, d, w, h);
    assert(exists|i: int, j: int| 0 <= i < h && 0 <= j < w && #[trigger] m[i][j] != g[i][j]) by {
        if !(exists|i: int, j: int| 0 <= i < h && 0 <= j < w && #[trigger] m[i][j] != g[i][j]) {
            assert forall|i: int| 0 <= i < h implies #[trigger] m[i] =~= g[i] by {
                assert forall|j: int| 0 <= j < w implies m[i][j] == g[i][j] by {
                    assert(!(m[i][j] != g[i][j]));
                }
            }
            assert(m =~= g);
        }
    }
    let (i, j) = choose|i: int, j: int| 0 <= i < h && 0 <= j < w && #[trigger] m[i][j] != g[i][j];
    lemma_place_cell(d, w, h, i, j);
    let (k, t) = place_of(d, w, h, i, j);
    let line = line_of(g, d, w, h, k);
    lemma_moved_lines(g, d, w, h, k);
    lemma_line_fits(g, d, w, h, k);
    assert(line_of(m, d, w, h, k)[t] != line[t]);
    lemma_changed_line_has_room(line);
    let n = line_len(d, w, h);
    lemma_cell_place(d, w, h, k, n - 1);
    let c = cell_of(d, w, h, k, n - 1);
    assert(line_of(m, d, w, h, k)[n - 1] == 0);
    assert(m[c.0][c.1] == 0);
}

proof fn lemma_row_tiles_update(row: Seq<u32>, c: int, v: u32)
    requires
        0 <= c < row.len(),
        row[c] == 0,
        v != 0,
    ensures
        tiles(row.update(c, v)).len() == tiles(row).len() + 1,
    decreases row.len(),
{
    let u = row.update(c, v);
    if c == row.len() - 1 {
        assert(u.drop_last() =~= row.drop_last());
    } else {
        assert(u.drop_last() =~= row.drop_last().update(c, v));
        lemma_row_tiles_update(row.drop_last(), c, v);
    }
}

/// Writing a tile into an empty cell adds exactly one tile to the grid.
pub proof fn lemma_spawn_adds_one(g: Seq<Seq<u32>>, w: nat, h: nat, r: int, c: int, v: u32)
    requires
        shaped(g, w, h),
        0 <= r < h,
        0 <= c < w,
        g[r][c] == 0,
        v != 0,
    ensures
        tile_count(set_cell(g, r, c, v)) == tile_count(g) + 1,
    decreases g.len(),
{
    let u = set_cell(g, r, c, v);
    if r == g.len() - 1 {
        assert(u.drop_last() =~= g.drop_last());
        lemma_row_tiles_update(g[r], c, v);
    } else {
        assert(u.drop_last() =~= set_cell(g.drop_last(), r, c, v));
        lemma_spawn_adds_one(g.drop_last(), w, (h - 1) as nat, r, c, v);
    }
}

/// A rectangular grid of tiles; 0 marks an empty cell. `updated` records whether
/// the move that produced this board changed anything.
#[derive(PartialEq, Debug, Clone)]
pub struct Board {
    pub width: usize,
    pub height: usize,
    pub blocks: Vec<Vec<u32>>,
    pub updated: bool,
}

proof fn lemma_line_score_nonneg(line: Seq<u32>)
    ensures
        line_score(line) >= 0,
{
    lemma_doubled_sum_nonneg(merge_values(tiles(line)));
}

/// The points of the first `n` lines of a move are never negative.
pub proof fn lemma_lines_score_nonneg(g: Seq<Seq<u32>>, d: Direction, w: nat, h: nat, n: nat)
    ensures
        lines_score(g, d, w, h, n) >= 0,
    decreases n,
{
    if n > 0 {
        lemma_lines_score_nonneg(g, d, w, h, (n - 1) as nat);
        lemma_line_score_nonneg(line_of(g, d, w, h, n - 1));
    }
}

/// A slid line keeps its length.
pub proof fn lemma_slide_len(line: Seq<u32>)
    requires
        fits(line),
    ensures
        slide(line).len() == line.len(),
{
    let run = tiles(line);
    lemma_tiles_fit(line);
    lemma_scan_shape(run, run.len());
}

/// Each line of a grid that fits, fits.
pub proof fn lemma_line_fits(g: Seq<Seq<u32>>, d: Direction, w: nat, h: nat, k: int)
    requires
        shaped(g, w, h),
        grid_fits(g, w, h),
        0 <= k < line_count(d, w, h),
    ensures
        fits(line_of(g, d, w, h, k)),
{
    let line = line_of(g, d, w, h, k);
    assert forall|t: int| 0 <= t < line.len() implies line[t] <= MAX_TILE by {
        let c = cell_of(d, w, h, k, t);
        assert(g[c.0][c.1] <= MAX_TILE);
    }
}

fn cell_at(d: Direction, w: usize, h: usize, k: usize, t: usize) -> (r: (usize, usize))
    requires
        k < line_count(d, w as nat, h as nat),
        t < line_len(d, w as nat, h as nat),
    ensures
        r.0 == cell_of(d, w as nat, h as nat, k as int, t as int).0,
        r.1 == cell_of(d, w as nat, h as nat, k as int, t as int).1,
        r.0 < h,
        r.1 < w,
{
    match d {
        Direction::Left => (k, t),
        Direction::Right => (k, w - 1 - t),
        Direction::Up => (t, k),
        Direction::Down => (h - 1 - t, k),
    }
}

fn place_at(d: Direction, w: usize, h: usize, i: usize, j: usize) -> (r: (usize, usize))
    requires
        i < h,
        j < w,
    ensures
        r.0 == place_of(d, w as nat, h as nat, i as int, j as int).0,
        r.1 == place_of(d, w as nat, h as nat, i as int, j as int).1,
        r.0 < line_count(d, w as nat, h as nat),
        r.1 < line_len(d, w as nat, h as nat),
{
    match d {
        Direction::Left => (i, j),
        Direction::Right => (i, w - 1 - j),
        Direction::Up => (j, i),
        Direction::Down => (j, h - 1 - i),
    }
}

impl Board {
    /// The grid as rows of cell values.
    pub open spec fn cells(&self) -> Seq<Seq<u32>> {
        self.blocks@.map_values(|r: Vec<u32>| r@)
    }

    /// The rows and columns match the board's dimensions.
    pub open spec fn wf(&self) -> bool {
        shaped(self.cells(), self.width as nat, self.height as nat)
    }

    /// Every tile can be doubled within a `u32`.
    pub open spec fn tiles_fit(&self) -> bool {
        grid_fits(self.cells(), self.width as nat, self.height as nat)
    }

    /// The grid after a move in direction `d`.
    pub open spec fn after(&self, d: Direction) -> Seq<Seq<u32>> {
        moved(self.cells(), d, self.width as nat, self.height as nat)
    }

    /// The points a move in direction `d` earns.
    pub open spec fn score_of(&self, d: Direction) -> int {
        move_score(self.cells(), d, self.width as nat, self.height as nat)
    }

    /// Slides every line of the board toward the edge of `dir`, merging each
    /// pair of equal neighbours once. Returns the new board, whose `updated`
    /// says whether any cell changed, and the points the merges earned
    /// (clamped to `u64`).
    pub fn transition(&self, dir: Direction) -> (r: (Board, u64))
        requires
            self.wf(),
            self.tiles_fit(),
        ensures
            r.0.wf(),
            r.0.width == self.width,
            r.0.height == self.height,
            r.0.cells() == self.after(dir),
            r.0.updated == (self.after(dir) != self.cells()),
            r.1 == capped(self.score_of(dir)),
    {
        let w = self.width;
        let h = self.height;
        let ghost g = self.cells();
        let count = match dir {
            Direction::Left | Direction::Right => h,
            Direction::Up | Direction::Down => w,
        };
        let len = match dir {
            Direction::Left | Direction::Right => w,
            Direction::Up | Direction::Down => h,
        };
        let mut lines: Vec<Vec<u32>> = Vec::new();
        let mut score: u64 = 0;
        for k in 0..count
            invariant
                self.wf(),
                self.tiles_fit(),
                w == self.width,
                h == self.height,
                g == self.cells(),
                count == line_count(dir, w as nat, h as nat),
                len == line_len(dir, w as nat, h as nat),
                lines@.len() == k,
                forall|q: int|
                    0 <= q < k ==> #[trigger] lines@[q]@ == slide(
                        line_of(g, dir, w as nat, h as nat, q),
                    ),
                forall|q: int| 0 <= q < k ==> #[trigger] lines@[q]@.len() == len,
                score == capped(lines_score(g, dir, w as nat, h as nat, k as nat)),
        {
            let mut line: Vec<u32> = Vec::new();
            for t in 0..len
                invariant
                    self.wf(),
                    w == self.width,
                    h == self.height,
                    g == self.cells(),
                    k < count,
                    count == line_count(dir, w as nat, h as nat),
                    len == line_len(dir, w as nat, h as nat),
                    line@ == line_of(g, dir, w as nat, h as nat, k as int).take(t as int),
            {
                let (i, j) = cell_at(dir, w, h, k, t);
                assert(g[i as int] == self.blocks@[i as int]@);
                line.push(self.blocks[i][j]);
                assert(line@ =~= line_of(g, dir, w as nat, h as nat, k as int).take(t + 1));
            }
            assert(line@ =~= line_of(g, dir, w as nat, h as nat, k as int));
            proof {
                lemma_line_fits(g, dir, w as nat, h as nat, k as int);
                lemma_slide_len(line@);
                lemma_line_score_nonneg(line@);
                lemma_lines_score_nonneg(g, dir, w as nat, h as nat, k as nat);
                lemma_capped_add(
                    lines_score(g, dir, w as nat, h as nat, k as nat),
                    line_score(line@),
                );
            }
            let (slid, s) = slide_line(&line);
            score = score.saturating_add(s);
            lines.push(slid);
        }
        let ghost m = moved(g, dir, w as nat, h as nat);
        let mut blocks: Vec<Vec<u32>> = Vec::new();
        let mut changed = false;
        for i in 0..h
            invariant
                self.wf(),
                w == self.width,
                h == self.height,
                g == self.cells(),
                m == moved(g, dir, w as nat, h as nat),
                count == line_count(dir, w as nat, h as nat),
                len == line_len(dir, w as nat, h as nat),
                lines@.len() == count,
                forall|q: int|
                    0 <= q < count ==> #[trigger] lines@[q]@ == slide(
                        line_of(g, dir, w as nat, h as nat, q),
                    ),
                forall|q: int| 0 <= q < count ==> #[trigger] lines@[q]@.len() == len,
                blocks@.len() == i,
                forall|p: int| 0 <= p < i ==> #[trigger] blocks@[p]@ == m[p],
                changed == exists|p: int, q: int|
                    0 <= p < i && 0 <= q < w && #[trigger] m[p][q] != g[p][q],
        {
            let mut row: Vec<u32> = Vec::new();
            let ghost changed_before = changed;
            for j in 0..w
                invariant
                    self.wf(),
                    w == self.width,
                    h == self.height,
                    i < h,
                    g == self.cells(),
                    m == moved(g, dir, w as nat, h as nat),
                    count == line_count(dir, w as nat, h as nat),
                    len == line_len(dir, w as nat, h as nat),
                    lines@.len() == count,
                    forall|q: int|
                        0 <= q < count ==> #[trigger] lines@[q]@ == slide(
                            line_of(g, dir, w as nat, h as nat, q),
                        ),
                    forall|q: int| 0 <= q < count ==> #[trigger] lines@[q]@.len() == len,
                    row@.len() == j,
                    forall|q: int| 0 <= q < j ==> #[trigger] row@[q] == m[i as int][q],
                    changed_before == exists|p: int, q: int|
                        0 <= p < i && 0 <= q < w && #[trigger] m[p][q] != g[p][q],
                    changed == (changed_before || exists|q: int|
                        0 <= q < j && #[trigger] m[i as int][q] != g[i as int][q]),
            {
                let (k, t) = place_at(dir, w, h, i, j);
                let v = lines[k][t];
                assert(g[i as int] == self.blocks@[i as int]@);
                assert(v == m[i as int][j as int]);
                if v != self.blocks[i][j] {
                    changed = true;
                }
                row.push(v);
            }
            proof {
                if changed {
                    if !changed_before {
                        let q = choose|q: int| 0 <= q < w && #[trigger] m[i as int][q] != g[i as int][q];
                        assert(m[i as int][q] != g[i as int][q]);
                    }
                } else {
                    assert forall|p: int, q: int|
                        0 <= p < i + 1 && 0 <= q < w implies #[trigger] m[p][q] == g[p][q] by {
                        if p == i {
                            assert(m[i as int][q] == g[i as int][q]);
                        }
                    }
                }
            }
            assert(row@ =~= m[i as int]);
            blocks.push(row);
        }
        let board = Board { width: w, height: h, blocks, updated: changed };
        assert(board.cells() =~= m);
        proof {
            if !changed {
                assert forall|p: int| 0 <= p < h implies #[trigger] m[p] =~= g[p] by {
                    assert forall|q: int| 0 <= q < w implies m[p][q] == g[p][q] by {
                        assert(m[p][q] == g[p][q]);
                    }
                }
                assert(m =~= g);
            }
        }
        (board, score)
    }

    /// An all-empty board of `height` rows and `width` columns.
    pub fn new(width: usize, height: usize) -> (r: Board)
        requires
            width >= 1,
            height >= 1,
        ensures
            r.wf(),
            r.width == width,
            r.height == height,
            !r.updated,
            forall|i: int, j: int|
                0 <= i < height && 0 <= j < width ==> #[trigger] r.cells()[i][j] == 0,
    {
        let mut blocks: Vec<Vec<u32>> = Vec::new();
        for i in 0..height
            invariant
                blocks@.len() == i,
                forall|p: int| 0 <= p < i ==> #[trigger] blocks@[p]@ == Seq::new(width as nat, |q: int| 0u32),
        {
            let mut row: Vec<u32> = Vec::new();
            for j in 0..width
                invariant
                    row@ == Seq::new(j as nat, |q: int| 0u32),
            {
                row.push(0);
                assert(row@ =~= Seq::new((j + 1) as nat, |q: int| 0u32));
            }
            blocks.push(row);
        }
        Board { width, height, blocks, updated: false }
    }

    /// The board after a move up.
    pub fn try_to_move_up(&self) -> (r: Board)
        requires
            self.wf(),
            self.tiles_fit(),
        ensures
            r.wf(),
            r.width == self.width,
            r.height == self.height,
            r.cells() == self.after(Direction::Up),
            r.updated == (self.after(Direction::Up) != self.cells()),
    {
        self.transition(Direction::Up).0
    }

    /// The board after a move down.
    pub fn try_to_move_down(&self) -> (r: Board)
        requires
            self.wf(),
            self.tiles_fit(),
        ensures
            r.wf(),
            r.width == self.width,
            r.height == self.height,
            r.cells() == self.after(Direction::Down),
            r.updated == (self.after(Direction::Down) != self.cells()),
    {
        self.transition(Direction::Down).0
    }

    /// The board after a move left.
    pub fn try_to_move_left(&self) -> (r: Board)
        requires
            self.wf(),
            self.tiles_fit(),
        ensures
            r.wf(),
            r.width == self.width,
            r.height == self.height,
            r.cells() == self.after(Direction::Left),
            r.updated == (self.after(Direction::Left) != self.cells()),
    {
        self.transition(Direction::Left).0
    }

    /// The board after a move right.
    pub fn try_to_move_right(&self) -> (r: Board)
        requires
            self.wf(),
            self.tiles_fit(),
        ensures
            r.wf(),
            r.width == self.width,
            r.height == self.height,
            r.cells() == self.after(Direction::Right),
            r.updated == (self.after(Direction::Right) != self.cells()),
    {
        self.transition(Direction::Right).0
    }

    /// Whether every tile can still be doubled within a `u32`, so that a move
    /// can be made.
    pub fn all_tiles_fit(&self) -> (r: bool)
        requires
            self.wf(),
        ensures
            r == self.tiles_fit(),
    {
        let ghost g = self.cells();
        for i in 0..self.height
            invariant
                self.wf(),
                g == self.cells(),
                forall|p: int, q: int|
                    0 <= p < i && 0 <= q < self.width ==> #[trigger] g[p][q] <= MAX_TILE,
        {
            assert(g[i as int] == self.blocks@[i as int]@);
            for j in 0..self.width
                invariant
                    self.wf(),
                    g == self.cells(),
                    i < self.height,
                    g[i as int] == self.blocks@[i as int]@,
                    forall|p: int, q: int|
                        0 <= p < i && 0 <= q < self.width ==> #[trigger] g[p][q] <= MAX_TILE,
                    forall|q: int| 0 <= q < j ==> #[trigger] g[i as int][q] <= MAX_TILE,
            {
                if self.blocks[i][j] > MAX_TILE {
                    assert(g[i as int][j as int] > MAX_TILE);
                    return false;
                }
            }
            assert forall|p: int, q: int|
                0 <= p < i + 1 && 0 <= q < self.width implies #[trigger] g[p][q] <= MAX_TILE by {
                if p == i {
                    assert(g[i as int][q] <= MAX_TILE);
                }
            }
        }
        true
    }

    /// The empty cells as (row, column) pairs, in row-major order.
    pub fn empty_cells(&self) -> (r: Vec<(usize, usize)>)
        requires
            self.wf(),
        ensures
            forall|p: (usize, usize)|
                r@.contains(p) <==> (p.0 < self.height && p.1 < self.width
                    && self.cells()[p.0 as int][p.1 as int] == 0),
            forall|a: int, b: int|
                0 <= a < b < r@.len() ==> row_major_before(#[trigger] r@[a], #[trigger] r@[b]),
    {
        let ghost g = self.cells();
        let mut r: Vec<(usize, usize)> = Vec::new();
        for i in 0..self.height
            invariant
                self.wf(),
                g == self.cells(),
                forall|p: (usize, usize)|
                    r@.contains(p) <==> (p.0 < i && p.1 < self.width && g[p.0 as int][p.1 as int]
                        == 0),
                forall|a: int, b: int|
                    0 <= a < b < r@.len() ==> row_major_before(#[trigger] r@[a], #[trigger] r@[b]),
                forall|a: int| 0 <= a < r@.len() ==> (#[trigger] r@[a]).0 < i,
        {
            assert(g[i as int] == self.blocks@[i as int]@);
            for j in 0..self.width
                invariant
                    self.wf(),
                    g == self.cells(),
                    i < self.height,
                    g[i as int] == self.blocks@[i as int]@,
                    forall|p: (usize, usize)|
                        r@.contains(p) <==> (p.0 < self.height && p.1 < self.width && (p.0 < i || (
                        p.0 == i && p.1 < j)) && g[p.0 as int][p.1 as int] == 0),
                    forall|a: int, b: int|
                        0 <= a < b < r@.len() ==> row_major_before(
                            #[trigger] r@[a],
                            #[trigger] r@[b],
                        ),
                    forall|a: int|
                        0 <= a < r@.len() ==> row_major_before(#[trigger] r@[a], (i, j)),
            {
                if self.blocks[i][j] == 0 {
                    let ghost old_r = r@;
                    r.push((i, j));
                    assert forall|p: (usize, usize)|
                        r@.contains(p) <==> (p.0 < self.height && p.1 < self.width && (p.0 < i || (
                        p.0 == i && p.1 < j + 1)) && g[p.0 as int][p.1 as int] == 0) by {
                        if r@.contains(p) && p != (i, j) {
                            let a = choose|a: int| 0 <= a < r@.len() && r@[a] == p;
                            assert(old_r[a] == p);
                        }
                        if old_r.contains(p) {
                            let a = choose|a: int| 0 <= a < old_r.len() && old_r[a] == p;
                            assert(r@[a] == p);
                        }
                        if p == (i, j) {
                            assert(r@[r@.len() - 1] == p);
                        }
                    }
                }
            }
        }
        r
    }

    /// One empty cell, picked at random; `None` when the board is full.
    pub fn pick_empty_index(&self) -> (r: Option<(usize, usize)>)
        requires
            self.wf(),
        ensures
            r is None <==> !has_value(self.cells(), self.width as nat, self.height as nat, 0),
            r matches Some(p) ==> p.0 < self.height && p.1 < self.width && self.cells()[p.0 as int][p.1 as int] == 0,
    {
        let indexes = self.empty_cells();
        let r = choose_one(&indexes);
        proof {
            if has_value(self.cells(), self.width as nat, self.height as nat, 0) {
                let (i, j) = choose|i: int, j: int|
                    0 <= i < self.height && 0 <= j < self.width && #[trigger] self.cells()[i][j] == 0;
                assert(indexes@.contains((i as usize, j as usize)));
            }
            if let Some(p) = r {
                assert(self.cells()[p.0 as int][p.1 as int] == 0);
            }
        }
        r
    }

    /// Whether some cell is empty.
    pub fn has_empty_block(&self) -> (r: bool)
        requires
            self.wf(),
        ensures
            r == has_value(self.cells(), self.width as nat, self.height as nat, 0),
    {
        let indexes = self.empty_cells();
        proof {
            if has_value(self.cells(), self.width as nat, self.height as nat, 0) {
                let (i, j) = choose|i: int, j: int|
                    0 <= i < self.height && 0 <= j < self.width && #[trigger] self.cells()[i][j] == 0;
                assert(indexes@.contains((i as usize, j as usize)));
            }
            if indexes@.len() > 0 {
                assert(indexes@.contains(indexes@[0]));
                assert(self.cells()[indexes@[0].0 as int][indexes@[0].1 as int] == 0);
            }
        }
        indexes.len() > 0
    }

    /// The board with cell (`row`, `col`) set to `value`.
    pub fn put_new_block(self, row: usize, col: usize, value: u32) -> (r: Board)
        requires
            self.wf(),
            row < self.height,
            col < self.width,
        ensures
            r.wf(),
            r.width == self.width,
            r.height == self.height,
            r.updated == self.updated,
            r.cells() == set_cell(self.cells(), row as int, col as int, value),
    {
        let mut board = self;
        assert(board.cells()[row as int] == board.blocks@[row as int]@);
        let mut line = board.blocks[row].clone();
        assert(line@ =~= board.blocks@[row as int]@);
        line.set(col, value);
        board.blocks.set(row, line);
        assert(board.cells() =~= set_cell(self.cells(), row as int, col as int, value));
        board
    }

    /// Whether some cell holds `value`.
    pub fn has_block_with(&self, value: u32) -> (r: bool)
        requires
            self.wf(),
        ensures
            r == has_value(self.cells(), self.width as nat, self.height as nat, value),
    {
        let ghost g = self.cells();
        for i in 0..self.height
            invariant
                self.wf(),
                g == self.cells(),
                forall|p: int, q: int|
                    0 <= p < i && 0 <= q < self.width ==> #[trigger] g[p][q] != value,
        {
            assert(g[i as int] == self.blocks@[i as int]@);
            for j in 0..self.width
                invariant
                    self.wf(),
                    g == self.cells(),
                    i < self.height,
                    g[i as int] == self.blocks@[i as int]@,
                    forall|p: int, q: int|
                        0 <= p < i && 0 <= q < self.width ==> #[trigger] g[p][q] != value,
                    forall|q: int| 0 <= q < j ==> #[trigger] g[i as int][q] != value,
            {
                if self.blocks[i][j] == value {
                    assert(g[i as int][j as int] == value);
                    return true;
                }
            }
            assert forall|p: int, q: int|
                0 <= p < i + 1 && 0 <= q < self.width implies #[trigger] g[p][q] != value by {
                if p == i {
                    assert(g[i as int][q] != value);
                }
            }
        }
        false
    }
}

} // verus!
