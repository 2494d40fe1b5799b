//! The board: a mined tile grid plus its visibility overlay, with the
//! generation, reveal, and flood-fill propagation operations.

use crate::grid::{
    adjacent_mines, count_empty, count_mines, count_true, counted_tile, flat_index, four_adjacent,
    in_bounds, lemma_adjacent_mines_congruence, lemma_count_all_empty,
    lemma_count_empty_take_step, lemma_count_empty_update, lemma_count_mines_update,
    lemma_count_true_bounds, lemma_count_true_lt, lemma_flat_index_bounds,
    lemma_flat_index_decompose, lemma_flat_index_injective, mine_at, neighbor_counts_correct,
    tile_rule,
};
use crate::tile::{Tile, TileDisplay};
use vstd::prelude::*;

verus! {

/// Default board side length, in cells.
pub const MAP_SIZE: usize = 40;

/// Default number of mines paired with `MAP_SIZE`.
pub const MINE_COUNT: u32 = 120;

/// A Minesweeper board: `width * height` tiles stored row-major (cell (x, y)
/// at flat position `x * height + y`), fixed after generation, and a
/// visibility overlay of the same shape, the board's only mutable state.
pub struct Board {
    pub width: usize,
    pub height: usize,
    pub mine_count: u32,
    pub tiles: Vec<Tile>,
    pub visibility: Vec<bool>,
}

impl Board {
    /// Shape invariant: positive dimensions and both grids of matching size.
    pub open spec fn wf(self) -> bool {
        &&& 0 < self.width
        &&& 0 < self.height
        &&& self.tiles@.len() == self.width * self.height
        &&& self.visibility@.len() == self.width * self.height
    }

    /// Whether (x, y) is a cell of this board.
    pub open spec fn in_range(self, x: int, y: int) -> bool {
        in_bounds(self.width as int, self.height as int, x, y)
    }

    /// The tile content at cell (x, y).
    pub open spec fn spec_tile(self, x: int, y: int) -> Tile {
        self.tiles@[flat_index(self.height as int, x, y)]
    }

    /// Whether cell (x, y) is currently visible.
    pub open spec fn spec_visible(self, x: int, y: int) -> bool {
        self.visibility@[flat_index(self.height as int, x, y)]
    }

    /// Whether (x, y) is an in-bounds, empty, currently visible cell: the
    /// only kind of cell visibility spreads from.
    pub open spec fn empty_visible(self, x: int, y: int) -> bool {
        self.in_range(x, y) && self.spec_tile(x, y) is Empty && self.spec_visible(x, y)
    }

    /// Whether some 4-connected neighbor of (x, y) is a visible empty cell.
    pub open spec fn has_empty_visible_neighbor(self, x: int, y: int) -> bool {
        ||| self.empty_visible(x - 1, y)
        ||| self.empty_visible(x + 1, y)
        ||| self.empty_visible(x, y - 1)
        ||| self.empty_visible(x, y + 1)
    }

    /// Visibility of cell (x, y) after one synchronous propagation pass: a
    /// visible cell stays visible, and a hidden empty cell becomes visible
    /// exactly when a visible empty cell borders it orthogonally. Numbered
    /// and mine cells are never revealed by propagation.
    pub open spec fn next_visible(self, x: int, y: int) -> bool {
        self.spec_visible(x, y) || (self.spec_tile(x, y) is Empty
            && self.has_empty_visible_neighbor(x, y))
    }

    /// A fixed point of propagation: one more pass would change nothing.
    pub open spec fn settled(self) -> bool {
        forall|x: int, y: int|
            self.in_range(x, y) ==> #[trigger] self.next_visible(x, y) == self.spec_visible(x, y)
    }

    /// Whether the cell set `r` is closed under the flood's reach: every
    /// empty cell orthogonally adjacent to a cell of `r` is in `r` too.
    /// Numbered and mine cells need not be included, which is what bounds
    /// a flood by the walls around an empty region.
    pub open spec fn region_closed(self, r: Set<(int, int)>) -> bool {
        forall|x: int, y: int, x2: int, y2: int|
            #![trigger r.contains((x, y)), four_adjacent(x, y, x2, y2)]
            r.contains((x, y)) && self.in_range(x, y) && self.in_range(x2, y2) && four_adjacent(
                x,
                y,
                x2,
                y2,
            ) && self.spec_tile(x2, y2) is Empty ==> r.contains((x2, y2))
    }

    /// Whether every visible empty cell of the board lies in the cell set
    /// `r`.
    pub open spec fn visible_empty_within(self, r: Set<(int, int)>) -> bool {
        forall|x: int, y: int|
            self.in_range(x, y) && self.spec_tile(x, y) is Empty && self.spec_visible(x, y)
                ==> #[trigger] r.contains((x, y))
    }

    /// Whether (x, y) is an in-bounds, empty, currently visible cell;
    /// coordinates at or beyond the edge yield false.
    fn empty_visible_at(&self, x: usize, y: usize) -> (r: bool)
        requires
            self.wf(),
        ensures
            r == self.empty_visible(x as int, y as int),
    {
        if x < self.width && y < self.height {
            proof {
                lemma_flat_index_bounds(self.width as int, self.height as int, x as int, y as int);
            }
            let n = self.visibility.len();
            assert(x * self.height + y < n);
            let i = x * self.height + y;
            matches!(self.tiles[i], Tile::Empty) && self.visibility[i]
        } else {
            false
        }
    }
}

/// Relies on rand::Rng::gen_range over rand::thread_rng(): a value sampled
/// from the half-open range `0..n`, which is non-empty because `n > 0`
/// (gen_range panics on an empty range). Nothing is claimed beyond the
/// bound: the result is random.
#[verifier::external_body]
fn random_below(n: usize) -> (r: usize)
    requires
        n > 0,
    ensures
        r < n,
{
    rand::Rng::gen_range(&mut rand::thread_rng(), 0..n)
}

/// A vector of `n` copies of `val`.
fn repeat_value<T: Copy>(val: T, n: usize) -> (v: Vec<T>)
    ensures
        v@.len() == n,
        forall|i: int| 0 <= i < n ==> v@[i] == val,
{
    let mut v: Vec<T> = Vec::new();
    let mut k: usize = 0;
    while k < n
        invariant
            k <= n,
            v@.len() == k,
            forall|i: int| 0 <= i < k ==> v@[i] == val,
        decreases n - k,
    {
        v.push(val);
        k += 1;
    }
    v
}

/// Position of the (k+1)-th empty cell of the sequence, in flat order.
fn find_kth_empty(tiles: &Vec<Tile>, k: usize) -> (r: usize)
    requires
        (k as int) < count_empty(tiles@),
    ensures
        r < tiles@.len(),
        tiles@[r as int] is Empty,
{
    let n = tiles.len();
    let mut j: usize = 0;
    let mut seen: usize = 0;
    while j < n
        invariant
            j <= n,
            seen <= k,
            (k as int) < count_empty(tiles@),
            seen as int == count_empty(tiles@.take(j as int)),
            n == tiles@.len(),
        decreases n - j,
    {
        if matches!(tiles[j], Tile::Empty) {
            if seen == k {
                return j;
            }
            seen += 1;
        }
        proof {
            lemma_count_empty_take_step(tiles@, j as int);
        }
        j += 1;
    }
    proof {
        assert(tiles@.take(n as int) =~= tiles@);
    }
    // Unreachable: the prefix count reached the full count, yet stayed at
    // most k, contradicting the precondition.
    assert(false);
    0
}

/// Whether (x, y) is an in-bounds cell of the grid holding a mine;
/// coordinates at or beyond the edge yield false.
fn mine_flag(tiles: &Vec<Tile>, width: usize, height: usize, x: usize, y: usize) -> (r: bool)
    requires
        tiles@.len() == width * height,
    ensures
        r == mine_at(tiles@, width as int, height as int, x as int, y as int),
{
    let n = tiles.len();
    if x < width && y < height {
        proof {
            lemma_flat_index_bounds(width as int, height as int, x as int, y as int);
        }
        assert(x * height + y < n);
        matches!(tiles[x * height + y], Tile::Mine)
    } else {
        false
    }
}

impl Board {
    /// Turns `mine_count` cells of an all-empty grid into mines, each chosen
    /// uniformly at random among the cells still empty, so placement always
    /// terminates and yields exactly the requested number of mines.
    pub fn place_bombs(tiles: &mut Vec<Tile>, mine_count: u32)
        requires
            (mine_count as int) < old(tiles)@.len(),
            forall|i: int| 0 <= i < old(tiles)@.len() ==> old(tiles)@[i] is Empty,
        ensures
            final(tiles)@.len() == old(tiles)@.len(),
            count_mines(final(tiles)@) == mine_count as int,
            forall|i: int|
                0 <= i < final(tiles)@.len() ==> (final(tiles)@[i] is Empty
                    || final(tiles)@[i] is Mine),
    {
        let n = tiles.len();
        proof {
            lemma_count_all_empty(tiles@);
        }
        let mut mines_left = mine_count;
        while mines_left > 0
            invariant
                mines_left <= mine_count,
                (mine_count as int) < n as int,
                n == tiles@.len(),
                count_mines(tiles@) == mine_count - mines_left,
                count_empty(tiles@) == n - (mine_count - mines_left),
                forall|i: int| 0 <= i < tiles@.len() ==> (tiles@[i] is Empty || tiles@[i] is Mine),
            decreases mines_left,
        {
            let placed = (mine_count - mines_left) as usize;
            let k = random_below(n - placed);
            let idx = find_kth_empty(tiles, k);
            proof {
                lemma_count_mines_update(tiles@, idx as int, Tile::Mine);
                lemma_count_empty_update(tiles@, idx as int, Tile::Mine);
            }
            tiles.set(idx, Tile::Mine);
            mines_left -= 1;
        }
    }

    /// Applies the neighbor-count rule to cell (x, y): an empty cell with at
    /// least one surrounding mine becomes `Neighbor` of that count; any
    /// other cell is left as it is. No other cell changes.
    pub fn count_neighbors(tiles: &mut Vec<Tile>, width: usize, height: usize, x: usize, y: usize)
        requires
            old(tiles)@.len() == width * height,
            x < width,
            y < height,
        ensures
            final(tiles)@ == old(tiles)@.update(
                flat_index(height as int, x as int, y as int),
                counted_tile(old(tiles)@, width as int, height as int, x as int, y as int),
            ),
    {
        let w = width;
        let h = height;
        let mut c: u32 = 0;
        if x > 0 && y > 0 {
            if mine_flag(tiles, w, h, x - 1, y - 1) {
                c += 1;
            }
        }
        if x > 0 {
            if mine_flag(tiles, w, h, x - 1, y) {
                c += 1;
            }
        }
        if x > 0 {
            if mine_flag(tiles, w, h, x - 1, y + 1) {
                c += 1;
            }
        }
        if y > 0 {
            if mine_flag(tiles, w, h, x, y - 1) {
                c += 1;
            }
        }
        if mine_flag(tiles, w, h, x, y + 1) {
            c += 1;
        }
        if y > 0 {
            if mine_flag(tiles, w, h, x + 1, y - 1) {
                c += 1;
            }
        }
        if mine_flag(tiles, w, h, x + 1, y) {
            c += 1;
        }
        if mine_flag(tiles, w, h, x + 1, y + 1) {
            c += 1;
        }
        assert(c as int == adjacent_mines(tiles@, w as int, h as int, x as int, y as int));
        let n = tiles.len();
        proof {
            lemma_flat_index_bounds(w as int, h as int, x as int, y as int);
        }
        assert(x * h + y < n);
        let i = x * h + y;
        let t = tiles[i];
        if c > 0 && matches!(t, Tile::Empty) {
            tiles.set(i, Tile::Neighbor(c));
        } else {
            assert(tiles@ =~= tiles@.update(
                i as int,
                counted_tile(tiles@, w as int, h as int, x as int, y as int),
            ));
        }
    }

    /// Builds the tile grid: places `mine_count` mines at random, then
    /// derives every non-mine cell's adjacent-mine count, establishing the
    /// generation invariant and the exact mine count.
    pub fn generate(width: usize, height: usize, mine_count: u32) -> (tiles: Vec<Tile>)
        requires
            0 < width,
            0 < height,
            width * height <= usize::MAX,
            (mine_count as int) < width * height,
        ensures
            tiles@.len() == width * height,
            count_mines(tiles@) == mine_count as int,
            neighbor_counts_correct(tiles@, width as int, height as int),
    {
        let n = width * height;
        let mut tiles = repeat_value(Tile::Empty, n);
        Board::place_bombs(&mut tiles, mine_count);
        let ghost g0 = tiles@;
        let ghost w = width as int;
        let ghost h = height as int;
        let mut x: usize = 0;
        while x < width
            invariant
                x <= width,
                w == width as int,
                h == height as int,
                0 < width,
                0 < height,
                n == width * height,
                tiles@.len() == n,
                g0.len() == n,
                count_mines(tiles@) == mine_count as int,
                forall|i: int| 0 <= i < n ==> (g0[i] is Empty || g0[i] is Mine),
                forall|i: int|
                    0 <= i < n ==> ((#[trigger] tiles@[i]) is Mine <==> g0[i] is Mine),
                forall|a: int, b: int|
                    in_bounds(w, h, a, b) && a < x ==> #[trigger] tile_rule(tiles@, w, h, a, b),
                forall|a: int, b: int|
                    in_bounds(w, h, a, b) && a >= x ==> #[trigger] tiles@[flat_index(h, a, b)]
                        == g0[flat_index(h, a, b)],
            decreases width - x,
        {
            let mut y: usize = 0;
            while y < height
                invariant
                    x < width,
                    y <= height,
                    w == width as int,
                    h == height as int,
                    0 < width,
                    0 < height,
                    n == width * height,
                    tiles@.len() == n,
                    g0.len() == n,
                    count_mines(tiles@) == mine_count as int,
                    forall|i: int| 0 <= i < n ==> (g0[i] is Empty || g0[i] is Mine),
                    forall|i: int|
                        0 <= i < n ==> ((#[trigger] tiles@[i]) is Mine <==> g0[i] is Mine),
                    forall|a: int, b: int|
                        in_bounds(w, h, a, b) && (a < x || (a == x && b < y))
                            ==> #[trigger] tile_rule(tiles@, w, h, a, b),
                    forall|a: int, b: int|
                        in_bounds(w, h, a, b) && (a > x || (a == x && b >= y))
                            ==> #[trigger] tiles@[flat_index(h, a, b)] == g0[flat_index(h, a, b)],
                decreases height - y,
            {
                let ghost prev = tiles@;
                proof {
                    lemma_flat_index_bounds(w, h, x as int, y as int);
                }
                let ghost i = flat_index(h, x as int, y as int);
                Board::count_neighbors(&mut tiles, width, height, x, y);
                proof {
                    let new_t = counted_tile(prev, w, h, x as int, y as int);
                    // The mine pattern is untouched: the cell keeps its tile
                    // or goes from empty to a neighbor count.
                    assert forall|j: int| 0 <= j < n implies ((#[trigger] tiles@[j]) is Mine
                        <==> g0[j] is Mine) by {
                        if j != i {
                            assert(tiles@[j] == prev[j]);
                        }
                    }
                    lemma_count_mines_update(prev, i, new_t);
                    lemma_adjacent_mines_congruence(prev, tiles@, w, h, x as int, y as int);
                    // Cells before (x, y) keep their tile and their adjacency
                    // counts, so the rule still holds there; at (x, y) the
                    // rule holds by construction.
                    assert forall|a: int, b: int|
                        in_bounds(w, h, a, b) && (a < x || (a == x && b < y + 1))
                            implies #[trigger] tile_rule(tiles@, w, h, a, b) by {
                        lemma_flat_index_bounds(w, h, a, b);
                        lemma_adjacent_mines_congruence(prev, tiles@, w, h, a, b);
                        if a == x as int && b == y as int {
                            assert(tiles@[i] == new_t);
                            assert(prev[i] == g0[i]);
                        } else {
                            lemma_flat_index_injective(h, a, b, x as int, y as int);
                            assert(tiles@[flat_index(h, a, b)] == prev[flat_index(h, a, b)]);
                            assert(tile_rule(prev, w, h, a, b));
                        }
                    }
                    assert forall|a: int, b: int|
                        in_bounds(w, h, a, b) && (a > x || (a == x && b >= y + 1))
                            implies #[trigger] tiles@[flat_index(h, a, b)] == g0[flat_index(
                        h,
                        a,
                        b,
                    )] by {
                        lemma_flat_index_bounds(w, h, a, b);
                        lemma_flat_index_injective(h, a, b, x as int, y as int);
                        assert(tiles@[flat_index(h, a, b)] == prev[flat_index(h, a, b)]);
                    }
                }
                y += 1;
            }
            x += 1;
        }
        tiles
    }

    /// A freshly generated board of the given dimensions: exactly
    /// `mine_count` mines, correct neighbor counts everywhere, and every
    /// cell hidden.
    pub fn with_size(width: usize, height: usize, mine_count: u32) -> (b: Board)
        requires
            0 < width,
            0 < height,
            width * height <= usize::MAX,
            (mine_count as int) < width * height,
        ensures
            b.wf(),
            b.width == width,
            b.height == height,
            b.mine_count == mine_count,
            count_mines(b.tiles@) == mine_count as int,
            neighbor_counts_correct(b.tiles@, width as int, height as int),
            forall|x: int, y: int| b.in_range(x, y) ==> !b.spec_visible(x, y),
    {
        let tiles = Board::generate(width, height, mine_count);
        let visibility = repeat_value(false, width * height);
        let b = Board { width, height, mine_count, tiles, visibility };
        proof {
            assert forall|x: int, y: int| b.in_range(x, y) implies !b.spec_visible(x, y) by {
                lemma_flat_index_bounds(width as int, height as int, x, y);
            }
        }
        b
    }

    /// A freshly generated board of the default dimensions.
    pub fn new(mine_count: u32) -> (b: Board)
        requires
            (mine_count as int) < MAP_SIZE * MAP_SIZE,
        ensures
            b.wf(),
            b.width == MAP_SIZE,
            b.height == MAP_SIZE,
            b.mine_count == mine_count,
            count_mines(b.tiles@) == mine_count as int,
            neighbor_counts_correct(b.tiles@, MAP_SIZE as int, MAP_SIZE as int),
            forall|x: int, y: int| b.in_range(x, y) ==> !b.spec_visible(x, y),
    {
        Board::with_size(MAP_SIZE, MAP_SIZE, mine_count)
    }

    /// The display-ready pair for one cell: its current visibility and its
    /// tile content.
    pub fn get_at(&self, index: (usize, usize)) -> (r: TileDisplay)
        requires
            self.wf(),
            index.0 < self.width,
            index.1 < self.height,
        ensures
            r.0 == self.spec_visible(index.0 as int, index.1 as int),
            r.1 == self.spec_tile(index.0 as int, index.1 as int),
    {
        proof {
            lemma_flat_index_bounds(
                self.width as int,
                self.height as int,
                index.0 as int,
                index.1 as int,
            );
        }
        let n = self.visibility.len();
        assert(index.0 * self.height + index.1 < n);
        let i = index.0 * self.height + index.1;
        TileDisplay(self.visibility[i], self.tiles[i])
    }

    /// Overwrites the visibility of exactly one cell, leaving every other
    /// cell and all tiles unchanged.
    pub fn set_visibility_at(&mut self, index: (usize, usize), visibility: bool)
        requires
            old(self).wf(),
            index.0 < old(self).width,
            index.1 < old(self).height,
        ensures
            final(self).wf(),
            final(self).width == old(self).width,
            final(self).height == old(self).height,
            final(self).mine_count == old(self).mine_count,
            final(self).tiles == old(self).tiles,
            forall|x: int, y: int|
                old(self).in_range(x, y) ==> final(self).spec_visible(x, y) == (if x == index.0
                    && y == index.1 {
                    visibility
                } else {
                    old(self).spec_visible(x, y)
                }),
    {
        proof {
            lemma_flat_index_bounds(
                self.width as int,
                self.height as int,
                index.0 as int,
                index.1 as int,
            );
        }
        let n = self.visibility.len();
        assert(index.0 * self.height + index.1 < n);
        let i = index.0 * self.height + index.1;
        self.visibility.set(i, visibility);
        proof {
            assert forall|x: int, y: int| old(self).in_range(x, y) implies final(self)
                .spec_visible(x, y) == (if x == index.0 && y == index.1 {
                visibility
            } else {
                old(self).spec_visible(x, y)
            }) by {
                lemma_flat_index_bounds(self.width as int, self.height as int, x, y);
                if !(x == index.0 && y == index.1) {
                    lemma_flat_index_injective(
                        self.height as int,
                        x,
                        y,
                        index.0 as int,
                        index.1 as int,
                    );
                }
            }
        }
    }

    /// Marks cell (x, y) visible, regardless of its tile content, leaving
    /// every other cell and all tiles unchanged.
    pub fn reveal_at(&mut self, x: usize, y: usize)
        requires
            old(self).wf(),
            x < old(self).width,
            y < old(self).height,
        ensures
            final(self).wf(),
            final(self).width == old(self).width,
            final(self).height == old(self).height,
            final(self).mine_count == old(self).mine_count,
            final(self).tiles == old(self).tiles,
            final(self).spec_visible(x as int, y as int),
            forall|a: int, b: int|
                old(self).in_range(a, b) ==> final(self).spec_visible(a, b) == (old(self)
                    .spec_visible(a, b) || (a == x && b == y)),
    {
        self.set_visibility_at((x, y), true);
    }

    /// Does one step of propagating visible tiles: computes an entirely new
    /// visibility grid from the previous snapshot, where each empty cell
    /// with a visible empty orthogonal neighbor becomes visible. If there
    /// was any visibility change, returns true. Otherwise returns false.
    pub fn propagate_visibility(&mut self) -> (changed: bool)
        requires
            old(self).wf(),
        ensures
            final(self).wf(),
            final(self).width == old(self).width,
            final(self).height == old(self).height,
            final(self).mine_count == old(self).mine_count,
            final(self).tiles == old(self).tiles,
            forall|x: int, y: int|
                old(self).in_range(x, y) ==> final(self).spec_visible(x, y) == old(self)
                    .next_visible(x, y),
            forall|x: int, y: int|
                old(self).in_range(x, y) && old(self).spec_visible(x, y) ==> final(self)
                    .spec_visible(x, y),
            changed == !old(self).settled(),
            !changed ==> final(self).settled(),
            changed ==> count_true(final(self).visibility@) > count_true(old(self).visibility@),
    {
        let w = self.width;
        let h = self.height;
        let n = self.visibility.len();
        let ghost wi = w as int;
        let ghost hi = h as int;
        let mut new_vis = repeat_value(false, n);
        let mut x: usize = 0;
        while x < w
            invariant
                self.wf(),
                *self == *old(self),
                w == self.width,
                h == self.height,
                wi == w as int,
                hi == h as int,
                n == self.visibility@.len(),
                x <= w,
                new_vis@.len() == n,
                forall|a: int, b: int|
                    self.in_range(a, b) && a < x ==> new_vis@[flat_index(hi, a, b)]
                        == #[trigger] self.next_visible(a, b),
            decreases w - x,
        {
            let mut y: usize = 0;
            while y < h
                invariant
                    self.wf(),
                    *self == *old(self),
                    w == self.width,
                    h == self.height,
                    wi == w as int,
                    hi == h as int,
                    n == self.visibility@.len(),
                    x < w,
                    y <= h,
                    new_vis@.len() == n,
                    forall|a: int, b: int|
                        self.in_range(a, b) && (a < x || (a == x && b < y)) ==> new_vis@[flat_index(
                            hi,
                            a,
                            b,
                        )] == #[trigger] self.next_visible(a, b),
                decreases h - y,
            {
                proof {
                    lemma_flat_index_bounds(wi, hi, x as int, y as int);
                }
                assert(x * h + y < n);
                let i = x * h + y;
                let own_empty = matches!(self.tiles[i], Tile::Empty);
                let mut has_src = false;
                if x > 0 {
                    if self.empty_visible_at(x - 1, y) {
                        has_src = true;
                    }
                }
                if self.empty_visible_at(x + 1, y) {
                    has_src = true;
                }
                if y > 0 {
                    if self.empty_visible_at(x, y - 1) {
                        has_src = true;
                    }
                }
                if self.empty_visible_at(x, y + 1) {
                    has_src = true;
                }
                assert(has_src == self.has_empty_visible_neighbor(x as int, y as int));
                let next_val = self.visibility[i] || (own_empty && has_src);
                assert(next_val == self.next_visible(x as int, y as int));
                new_vis.set(i, next_val);
                proof {
                    let xi = x as int;
                    let yi = y as int;
                    assert forall|a: int, b: int|
                        self.in_range(a, b) && (a < x || (a == x && b < y + 1))
                            implies new_vis@[flat_index(hi, a, b)] == #[trigger] self.next_visible(
                        a,
                        b,
                    ) by {
                        lemma_flat_index_bounds(wi, hi, a, b);
                        if a == xi && b == yi {
                            assert(flat_index(hi, a, b) == i as int);
                        } else {
                            lemma_flat_index_injective(hi, a, b, xi, yi);
                        }
                    }
                }
                y += 1;
            }
            x += 1;
        }
        // Compare the new grid with the previous snapshot.
        let mut changed = false;
        let mut j: usize = 0;
        while j < n
            invariant
                self.wf(),
                *self == *old(self),
                n == self.visibility@.len(),
                j <= n,
                new_vis@.len() == n,
                changed <==> exists|t: int| 0 <= t < j && new_vis@[t] != self.visibility@[t],
            decreases n - j,
        {
            if new_vis[j] != self.visibility[j] {
                changed = true;
            }
            j += 1;
        }
        proof {
            // Every flat position is the position of one cell, so the
            // per-cell facts cover the whole backing sequence.
            assert forall|t: int| 0 <= t < n implies new_vis@[t] == old(self).next_visible(
                t / hi,
                t % hi,
            ) && (self.visibility@[t] ==> new_vis@[t]) by {
                lemma_flat_index_decompose(wi, hi, t);
            }
            if changed {
                let t = choose|t: int| 0 <= t < n && new_vis@[t] != self.visibility@[t];
                lemma_count_true_lt(self.visibility@, new_vis@, t);
                lemma_flat_index_decompose(wi, hi, t);
                assert(!old(self).settled());
            } else {
                assert forall|x: int, y: int| old(self).in_range(x, y)
                    implies #[trigger] old(self).next_visible(x, y) == old(self).spec_visible(
                    x,
                    y,
                ) by {
                    lemma_flat_index_bounds(wi, hi, x, y);
                }
            }
        }
        let ghost pre = *self;
        self.visibility = new_vis;
        proof {
            assert forall|x: int, y: int| old(self).in_range(x, y) implies final(self)
                .spec_visible(x, y) == old(self).next_visible(x, y) by {
                lemma_flat_index_bounds(wi, hi, x, y);
            }
            if !changed {
                assert forall|x: int, y: int| final(self).in_range(x, y) implies #[trigger] final(self)
                    .next_visible(x, y) == final(self).spec_visible(x, y) by {
                    lemma_flat_index_bounds(wi, hi, x, y);
                    assert(final(self).spec_visible(x, y) == pre.spec_visible(x, y));
                    assert(final(self).next_visible(x, y) == pre.next_visible(x, y));
                    assert(pre.next_visible(x, y) == pre.spec_visible(x, y));
                }
            }
        }
        changed
    }

    /// Reveals cell (x, y) and runs propagation passes until no pass
    /// changes anything, leaving the board in a stable revealed state.
    /// Visibility only grows, and every cell newly revealed beyond (x, y)
    /// itself is an empty cell reached by the flood.
    pub fn reveal_and_settle(&mut self, x: usize, y: usize)
        requires
            old(self).wf(),
            x < old(self).width,
            y < old(self).height,
        ensures
            final(self).wf(),
            final(self).width == old(self).width,
            final(self).height == old(self).height,
            final(self).mine_count == old(self).mine_count,
            final(self).tiles == old(self).tiles,
            final(self).settled(),
            final(self).spec_visible(x as int, y as int),
            forall|a: int, b: int|
                old(self).in_range(a, b) && old(self).spec_visible(a, b) ==> final(self)
                    .spec_visible(a, b),
            forall|a: int, b: int|
                old(self).in_range(a, b) && final(self).spec_visible(a, b) && !old(self)
                    .spec_visible(a, b) ==> ((a == x && b == y) || final(self).spec_tile(
                    a,
                    b,
                ) is Empty),
            forall|r: Set<(int, int)>|
                #![trigger old(self).region_closed(r)]
                old(self).region_closed(r) && old(self).visible_empty_within(r) && r.contains(
                    (x as int, y as int),
                ) ==> final(self).visible_empty_within(r),
    {
        let ghost xi = x as int;
        let ghost yi = y as int;
        self.reveal_at(x, y);
        proof {
            assert forall|r: Set<(int, int)>|
                old(self).region_closed(r) && old(self).visible_empty_within(r) && r.contains(
                    (xi, yi),
                ) implies self.visible_empty_within(r) by {
                assert forall|a: int, b: int|
                    self.in_range(a, b) && self.spec_tile(a, b) is Empty && self.spec_visible(
                        a,
                        b,
                    ) implies r.contains((a, b)) by {
                    if !(a == xi && b == yi) {
                        assert(old(self).spec_visible(a, b));
                        assert(r.contains((a, b)));
                    }
                }
            }
        }
        loop
            invariant
                self.wf(),
                self.width == old(self).width,
                self.height == old(self).height,
                self.mine_count == old(self).mine_count,
                self.tiles == old(self).tiles,
                x < self.width,
                y < self.height,
                self.spec_visible(x as int, y as int),
                forall|a: int, b: int|
                    old(self).in_range(a, b) && old(self).spec_visible(a, b)
                        ==> #[trigger] self.spec_visible(a, b),
                forall|a: int, b: int|
                    old(self).in_range(a, b) && #[trigger] self.spec_visible(a, b) && !old(self)
                        .spec_visible(a, b) ==> ((a == x && b == y) || self.spec_tile(
                        a,
                        b,
                    ) is Empty),
                forall|r: Set<(int, int)>|
                    #![trigger old(self).region_closed(r)]
                    old(self).region_closed(r) && old(self).visible_empty_within(r) && r.contains(
                        (xi, yi),
                    ) ==> self.visible_empty_within(r),
            ensures
                self.settled(),
            decreases self.visibility@.len() - count_true(self.visibility@),
        {
            proof {
                lemma_count_true_bounds(self.visibility@);
            }
            let ghost pre = *self;
            let changed = self.propagate_visibility();
            proof {
                lemma_count_true_bounds(self.visibility@);
                assert forall|r: Set<(int, int)>|
                    old(self).region_closed(r) && old(self).visible_empty_within(r) && r.contains(
                        (xi, yi),
                    ) implies self.visible_empty_within(r) by {
                    assert(pre.visible_empty_within(r));
                    assert(pre.region_closed(r));
                    lemma_step_confined(pre, r);
                    assert forall|a: int, b: int|
                        self.in_range(a, b) && self.spec_tile(a, b) is Empty && self.spec_visible(
                            a,
                            b,
                        ) implies r.contains((a, b)) by {
                        assert(pre.next_visible(a, b));
                        assert(pre.spec_tile(a, b) is Empty);
                    }
                }
            }
            if !changed {
                break ;
            }
        }
    }
}

/// Once propagation has reached a fixed point, no further expansion is
/// possible: every in-bounds empty orthogonal neighbor of a visible empty
/// cell is already visible.
pub proof fn lemma_settled_no_expansion(b: Board, x: int, y: int, x2: int, y2: int)
    requires
        b.wf(),
        b.settled(),
        b.in_range(x, y),
        b.spec_tile(x, y) is Empty,
        b.spec_visible(x, y),
        b.in_range(x2, y2),
        four_adjacent(x, y, x2, y2),
        b.spec_tile(x2, y2) is Empty,
    ensures
        b.spec_visible(x2, y2),
{
    assert(b.next_visible(x2, y2) == b.spec_visible(x2, y2));
    assert(b.empty_visible(x, y));
}

/// Revealing a numbered or mine cell triggers no propagation by itself: if
/// the board was at a fixed point, the board with exactly that one cell
/// made visible is still at a fixed point, because visibility spreads only
/// out of empty cells and only into empty cells.
pub proof fn lemma_reveal_non_empty_stays_settled(b: Board, b2: Board, x: int, y: int)
    requires
        b.wf(),
        b.settled(),
        b.in_range(x, y),
        !(b.spec_tile(x, y) is Empty),
        b2.width == b.width,
        b2.height == b.height,
        b2.tiles == b.tiles,
        b2.wf(),
        forall|a: int, c: int|
            b.in_range(a, c) ==> #[trigger] b2.spec_visible(a, c) == (b.spec_visible(a, c) || (a
                == x && c == y)),
    ensures
        b2.settled(),
{
    assert forall|a: int, c: int| b2.in_range(a, c) implies #[trigger] b2.next_visible(a, c)
        == b2.spec_visible(a, c) by {
        if !b2.spec_visible(a, c) && b2.next_visible(a, c) {
            // The flood source must be an empty visible cell of b2; the
            // newly revealed cell is not empty, so it is a source of b too.
            assert(b2.has_empty_visible_neighbor(a, c));
            if b2.empty_visible(a - 1, c) {
                assert(b.empty_visible(a - 1, c));
            } else if b2.empty_visible(a + 1, c) {
                assert(b.empty_visible(a + 1, c));
            } else if b2.empty_visible(a, c - 1) {
                assert(b.empty_visible(a, c - 1));
            } else {
                assert(b2.empty_visible(a, c + 1));
                assert(b.empty_visible(a, c + 1));
            }
            assert(b.next_visible(a, c));
            assert(b.spec_visible(a, c));
            assert(false);
        }
    }
}

/// An empty region's visibility never crosses numbered or mine cells: any
/// set of cells that contains every visible empty cell and is closed under
/// orthogonal adjacency into empty cells still contains every visible
/// empty cell after one propagation pass.
pub proof fn lemma_step_confined(b: Board, r: Set<(int, int)>)
    requires
        b.wf(),
        b.visible_empty_within(r),
        b.region_closed(r),
    ensures
        forall|x: int, y: int|
            b.in_range(x, y) && b.spec_tile(x, y) is Empty && #[trigger] b.next_visible(x, y)
                ==> r.contains((x, y)),
{
    assert forall|x: int, y: int|
        b.in_range(x, y) && b.spec_tile(x, y) is Empty && #[trigger] b.next_visible(
            x,
            y,
        ) implies r.contains((x, y)) by {
        if !b.spec_visible(x, y) {
            if b.empty_visible(x - 1, y) {
                assert(r.contains((x - 1, y)));
                assert(four_adjacent(x - 1, y, x, y));
            } else if b.empty_visible(x + 1, y) {
                assert(r.contains((x + 1, y)));
                assert(four_adjacent(x + 1, y, x, y));
            } else if b.empty_visible(x, y - 1) {
                assert(r.contains((x, y - 1)));
                assert(four_adjacent(x, y - 1, x, y));
            } else {
                assert(b.empty_visible(x, y + 1));
                assert(r.contains((x, y + 1)));
                assert(four_adjacent(x, y + 1, x, y));
            }
        }
    }
}

} // verus!
