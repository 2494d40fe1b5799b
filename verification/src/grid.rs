//! Spec-level vocabulary for a rectangular grid stored row-major in a flat
//! sequence, together with the counting functions and lemmas that the board
//! contracts are stated over.

use crate::tile::Tile;
use vstd::prelude::*;

verus! {

/// Whether (x, y) lies on a grid with `w` rows and `h` columns.
pub open spec fn in_bounds(w: int, h: int, x: int, y: int) -> bool {
    0 <= x < w && 0 <= y < h
}

/// Row-major position of cell (x, y) on a grid whose rows have length `h`.
pub open spec fn flat_index(h: int, x: int, y: int) -> int {
    x * h + y
}

/// Whether two cells are 4-connected (orthogonal) neighbors.
pub open spec fn four_adjacent(x: int, y: int, x2: int, y2: int) -> bool {
    ||| (x2 == x && (y2 == y - 1 || y2 == y + 1))
    ||| (y2 == y && (x2 == x - 1 || x2 == x + 1))
}

/// An in-bounds cell's flat position lies within the grid's backing sequence.
pub proof fn lemma_flat_index_bounds(w: int, h: int, x: int, y: int)
    requires
        in_bounds(w, h, x, y),
    ensures
        0 <= flat_index(h, x, y) < w * h,
{
    assert(0 <= x * h + y < w * h) by (nonlinear_arith)
        requires
            0 <= x < w,
            0 <= y < h,
    ;
}

/// Distinct cells of one grid have distinct flat positions.
pub proof fn lemma_flat_index_injective(h: int, x1: int, y1: int, x2: int, y2: int)
    requires
        0 <= x1,
        0 <= x2,
        0 <= y1 < h,
        0 <= y2 < h,
        x1 != x2 || y1 != y2,
    ensures
        flat_index(h, x1, y1) != flat_index(h, x2, y2),
{
    if x1 == x2 {
    } else {
        assert(x1 * h + y1 != x2 * h + y2) by (nonlinear_arith)
            requires
                0 <= y1 < h,
                0 <= y2 < h,
                x1 != x2,
        ;
    }
}

/// Every flat position of the backing sequence is the position of exactly
/// one cell, recovered by division and remainder.
pub proof fn lemma_flat_index_decompose(w: int, h: int, j: int)
    requires
        0 < h,
        0 <= j < w * h,
    ensures
        in_bounds(w, h, j / h, j % h),
        flat_index(h, j / h, j % h) == j,
{
    vstd::arithmetic::div_mod::lemma_fundamental_div_mod(j, h);
    vstd::arithmetic::div_mod::lemma_mod_bound(j, h);
    let q = j / h;
    let r = j % h;
    if q < 0 {
        assert(h * q <= -h) by (nonlinear_arith)
            requires
                q <= -1,
                0 < h,
        ;
    }
    if q >= w {
        assert(h * q >= h * w) by (nonlinear_arith)
            requires
                q >= w,
                0 < h,
        ;
        assert(h * w == w * h) by (nonlinear_arith);
    }
    assert(q * h == h * q) by (nonlinear_arith);
}

/// Whether (x, y) is an in-bounds cell holding a mine. Out-of-bounds
/// coordinates count as no mine, which builds the boundary clipping into
/// the adjacency count.
pub open spec fn mine_at(s: Seq<Tile>, w: int, h: int, x: int, y: int) -> bool {
    in_bounds(w, h, x, y) && s[flat_index(h, x, y)] is Mine
}

/// The number of mines among the up-to-eight cells surrounding (x, y),
/// clipped at the board edges.
pub open spec fn adjacent_mines(s: Seq<Tile>, w: int, h: int, x: int, y: int) -> int {
    b2i(mine_at(s, w, h, x - 1, y - 1)) + b2i(mine_at(s, w, h, x - 1, y)) + b2i(
        mine_at(s, w, h, x - 1, y + 1),
    ) + b2i(mine_at(s, w, h, x, y - 1)) + b2i(mine_at(s, w, h, x, y + 1)) + b2i(
        mine_at(s, w, h, x + 1, y - 1),
    ) + b2i(mine_at(s, w, h, x + 1, y)) + b2i(mine_at(s, w, h, x + 1, y + 1))
}

/// The generation invariant at one cell: a mine stays a mine; a non-mine
/// cell is `Neighbor(n)` exactly when `n >= 1` mines surround it, and
/// `Empty` exactly when none does.
pub open spec fn tile_rule(s: Seq<Tile>, w: int, h: int, x: int, y: int) -> bool {
    match s[flat_index(h, x, y)] {
        Tile::Empty => adjacent_mines(s, w, h, x, y) == 0,
        Tile::Neighbor(n) => 1 <= n as int && n as int == adjacent_mines(s, w, h, x, y),
        Tile::Mine => true,
    }
}

/// The generation invariant over the whole grid.
pub open spec fn neighbor_counts_correct(s: Seq<Tile>, w: int, h: int) -> bool {
    forall|x: int, y: int| in_bounds(w, h, x, y) ==> #[trigger] tile_rule(s, w, h, x, y)
}

/// What the neighbor-counting pass leaves at cell (x, y): an empty cell
/// with surrounding mines receives their count; every other cell keeps its
/// tile (in particular, mines are never annotated with a count).
pub open spec fn counted_tile(s: Seq<Tile>, w: int, h: int, x: int, y: int) -> Tile {
    if s[flat_index(h, x, y)] is Empty && adjacent_mines(s, w, h, x, y) > 0 {
        Tile::Neighbor(adjacent_mines(s, w, h, x, y) as u32)
    } else {
        s[flat_index(h, x, y)]
    }
}

/// Two grids with mines in exactly the same cells agree on every adjacency
/// count.
pub proof fn lemma_adjacent_mines_congruence(
    s1: Seq<Tile>,
    s2: Seq<Tile>,
    w: int,
    h: int,
    x: int,
    y: int,
)
    requires
        s1.len() == w * h,
        s2.len() == w * h,
        0 < w,
        0 < h,
        forall|i: int| 0 <= i < s1.len() ==> ((s1[i] is Mine) <==> (#[trigger] s2[i]) is Mine),
    ensures
        adjacent_mines(s1, w, h, x, y) == adjacent_mines(s2, w, h, x, y),
{
    assert forall|a: int, b: int| mine_at(s1, w, h, a, b) == mine_at(s2, w, h, a, b) by {
        if in_bounds(w, h, a, b) {
            lemma_flat_index_bounds(w, h, a, b);
        }
    }
}

/// 1 when the condition holds, 0 otherwise; used to state counts.
pub open spec fn b2i(b: bool) -> int {
    if b {
        1
    } else {
        0
    }
}

/// How many cells of the sequence hold a mine.
pub open spec fn count_mines(s: Seq<Tile>) -> int
    decreases s.len(),
{
    if s.len() == 0 {
        0
    } else {
        count_mines(s.drop_last()) + b2i(s.last() is Mine)
    }
}

/// How many cells of the sequence are empty.
pub open spec fn count_empty(s: Seq<Tile>) -> int
    decreases s.len(),
{
    if s.len() == 0 {
        0
    } else {
        count_empty(s.drop_last()) + b2i(s.last() is Empty)
    }
}

/// How many entries of the sequence are true.
pub open spec fn count_true(s: Seq<bool>) -> int
    decreases s.len(),
{
    if s.len() == 0 {
        0
    } else {
        count_true(s.drop_last()) + b2i(s.last())
    }
}

pub proof fn lemma_count_true_bounds(s: Seq<bool>)
    ensures
        0 <= count_true(s) <= s.len(),
    decreases s.len(),
{
    if s.len() > 0 {
        lemma_count_true_bounds(s.drop_last());
    }
}

/// Replacing one cell changes the mine count by exactly the difference
/// the replacement makes at that cell.
pub proof fn lemma_count_mines_update(s: Seq<Tile>, i: int, t: Tile)
    requires
        0 <= i < s.len(),
    ensures
        count_mines(s.update(i, t)) == count_mines(s) - b2i(s[i] is Mine) + b2i(t is Mine),
    decreases s.len(),
{
    let n = s.len() as int;
    if i == n - 1 {
        assert(s.update(i, t).drop_last() =~= s.drop_last());
    } else {
        assert(s.update(i, t).drop_last() =~= s.drop_last().update(i, t));
        lemma_count_mines_update(s.drop_last(), i, t);
    }
}

/// Replacing one cell changes the empty count by exactly the difference
/// the replacement makes at that cell.
pub proof fn lemma_count_empty_update(s: Seq<Tile>, i: int, t: Tile)
    requires
        0 <= i < s.len(),
    ensures
        count_empty(s.update(i, t)) == count_empty(s) - b2i(s[i] is Empty) + b2i(t is Empty),
    decreases s.len(),
{
    let n = s.len() as int;
    if i == n - 1 {
        assert(s.update(i, t).drop_last() =~= s.drop_last());
    } else {
        assert(s.update(i, t).drop_last() =~= s.drop_last().update(i, t));
        lemma_count_empty_update(s.drop_last(), i, t);
    }
}

/// Extending a prefix by one cell extends its empty count by that cell.
pub proof fn lemma_count_empty_take_step(s: Seq<Tile>, j: int)
    requires
        0 <= j < s.len(),
    ensures
        count_empty(s.take(j + 1)) == count_empty(s.take(j)) + b2i(s[j] is Empty),
{
    assert(s.take(j + 1).drop_last() =~= s.take(j));
    assert(s.take(j + 1).last() == s[j]);
}

/// A sequence of empty cells only has no mines and is all counted empty.
pub proof fn lemma_count_all_empty(s: Seq<Tile>)
    requires
        forall|i: int| 0 <= i < s.len() ==> s[i] is Empty,
    ensures
        count_mines(s) == 0,
        count_empty(s) == s.len(),
    decreases s.len(),
{
    if s.len() > 0 {
        lemma_count_all_empty(s.drop_last());
    }
}

/// Pointwise implication between two visibility sequences carries over to
/// their counts.
pub proof fn lemma_count_true_le(a: Seq<bool>, b: Seq<bool>)
    requires
        a.len() == b.len(),
        forall|i: int| 0 <= i < a.len() ==> (a[i] ==> b[i]),
    ensures
        count_true(a) <= count_true(b),
    decreases a.len(),
{
    if a.len() > 0 {
        assert(forall|i: int|
            0 <= i < a.drop_last().len() ==> (a.drop_last()[i] ==> b.drop_last()[i]));
        lemma_count_true_le(a.drop_last(), b.drop_last());
        assert(a[a.len() - 1] ==> b[b.len() - 1]);
    }
}

/// Pointwise implication with at least one strictly new true entry makes
/// the count strictly larger.
pub proof fn lemma_count_true_lt(a: Seq<bool>, b: Seq<bool>, w: int)
    requires
        a.len() == b.len(),
        forall|i: int| 0 <= i < a.len() ==> (a[i] ==> b[i]),
        0 <= w < a.len(),
        !a[w],
        b[w],
    ensures
        count_true(a) < count_true(b),
    decreases a.len(),
{
    let n = a.len() as int;
    assert(forall|i: int|
        0 <= i < a.drop_last().len() ==> (a.drop_last()[i] ==> b.drop_last()[i]));
    if w == n - 1 {
        lemma_count_true_le(a.drop_last(), b.drop_last());
    } else {
        lemma_count_true_lt(a.drop_last(), b.drop_last(), w);
        assert(a[n - 1] ==> b[n - 1]);
    }
}

} // verus!
