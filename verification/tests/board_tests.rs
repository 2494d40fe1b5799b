use mineslayer::board::{Board, MAP_SIZE, MINE_COUNT};
use mineslayer::tile::{Tile, TileColor, TileDisplay};

/// Runs propagation passes until one reports no change, returning how many
/// passes reported a change. Fails the test if the board has not settled
/// within width + height passes.
fn settle(b: &mut Board) -> usize {
    let bound = b.width + b.height;
    let mut steps = 0;
    loop {
        if !b.propagate_visibility() {
            return steps;
        }
        steps += 1;
        assert!(steps <= bound, "propagation did not reach a fixed point");
    }
}

/// Counts the mines in a board's tile grid.
fn mines_in(b: &Board) -> usize {
    b.tiles.iter().filter(|t| matches!(t, Tile::Mine)).count()
}

/// Recomputes the number of mines adjacent to (x, y) straight from the
/// tile grid, clipping at the edges.
fn recount(b: &Board, x: usize, y: usize) -> u32 {
    let mut c = 0;
    for dx in [-1i64, 0, 1] {
        for dy in [-1i64, 0, 1] {
            if dx == 0 && dy == 0 {
                continue;
            }
            let nx = x as i64 + dx;
            let ny = y as i64 + dy;
            if nx >= 0 && ny >= 0 && (nx as usize) < b.width && (ny as usize) < b.height {
                if matches!(b.tiles[nx as usize * b.height + ny as usize], Tile::Mine) {
                    c += 1;
                }
            }
        }
    }
    c
}

/// A fixed 3x3 board with a single mine at (0, 0), built by hand and run
/// through the public neighbor-counting pass.
fn board_with_corner_mine() -> Board {
    let mut tiles = vec![Tile::Empty; 9];
    tiles[0] = Tile::Mine;
    for x in 0..3 {
        for y in 0..3 {
            Board::count_neighbors(&mut tiles, 3, 3, x, y);
        }
    }
    Board { width: 3, height: 3, mine_count: 1, tiles, visibility: vec![false; 9] }
}

#[test]
fn mine_count_exact() {
    for (w, h, m) in [(6usize, 5usize, 7u32), (3, 3, 8), (2, 2, 0), (1, 9, 4)] {
        let b = Board::with_size(w, h, m);
        assert_eq!(mines_in(&b), m as usize);
        assert_eq!(b.width, w);
        assert_eq!(b.height, h);
        assert_eq!(b.mine_count, m);
    }
}

#[test]
fn neighbor_counts_match_recount() {
    let b = Board::with_size(8, 8, 10);
    for x in 0..8 {
        for y in 0..8 {
            let n = recount(&b, x, y);
            match b.tiles[x * 8 + y] {
                Tile::Mine => {}
                Tile::Empty => assert_eq!(n, 0, "empty cell ({x},{y}) has {n} adjacent mines"),
                Tile::Neighbor(k) => {
                    assert!((1..=8).contains(&k));
                    assert_eq!(k, n, "cell ({x},{y}) counts {k}, recount {n}");
                }
            }
        }
    }
}

#[test]
fn generation_with_almost_full_board_terminates() {
    let b = Board::with_size(3, 3, 8);
    assert_eq!(mines_in(&b), 8);
    let free: Vec<&Tile> = b.tiles.iter().filter(|t| !matches!(t, Tile::Mine)).collect();
    assert_eq!(free.len(), 1);
}

#[test]
fn empty_board_reveal_floods_all() {
    let mut b = Board::with_size(3, 3, 0);
    for x in 0..3 {
        for y in 0..3 {
            assert_eq!(b.get_at((x, y)).1, Tile::Empty);
            assert!(!b.get_at((x, y)).0);
        }
    }
    b.reveal_at(1, 1);
    settle(&mut b);
    for x in 0..3 {
        for y in 0..3 {
            assert!(b.get_at((x, y)).0, "cell ({x},{y}) stayed hidden");
        }
    }
}

#[test]
fn reveal_and_settle_floods_all() {
    let mut b = Board::with_size(3, 3, 0);
    b.reveal_and_settle(1, 1);
    for x in 0..3 {
        for y in 0..3 {
            assert!(b.get_at((x, y)).0);
        }
    }
    assert!(!b.propagate_visibility());
}

#[test]
fn corner_mine_neighbor_counts() {
    let b = board_with_corner_mine();
    assert_eq!(b.tiles[0], Tile::Mine);
    for (x, y) in [(0usize, 1usize), (1, 0), (1, 1)] {
        assert_eq!(b.tiles[x * 3 + y], Tile::Neighbor(1), "cell ({x},{y})");
    }
    for (x, y) in [(0usize, 2usize), (1, 2), (2, 0), (2, 1), (2, 2)] {
        assert_eq!(b.tiles[x * 3 + y], Tile::Empty, "cell ({x},{y})");
    }
}

#[test]
fn flood_stops_at_numbers() {
    let mut b = board_with_corner_mine();
    b.reveal_and_settle(2, 2);
    let visible = [(0usize, 2usize), (1, 2), (2, 0), (2, 1), (2, 2)];
    for x in 0..3 {
        for y in 0..3 {
            let expect = visible.contains(&(x, y));
            assert_eq!(b.get_at((x, y)).0, expect, "cell ({x},{y})");
        }
    }
    assert!(!b.get_at((0, 0)).0, "the mine was revealed by propagation");
}

#[test]
fn reveal_number_marks_only_that_cell() {
    let mut b = board_with_corner_mine();
    b.reveal_at(1, 1);
    assert!(!b.propagate_visibility(), "a revealed number started a flood");
    for x in 0..3 {
        for y in 0..3 {
            assert_eq!(b.get_at((x, y)).0, x == 1 && y == 1);
        }
    }
}

#[test]
fn reveal_mine_marks_only_that_cell() {
    let mut b = board_with_corner_mine();
    b.reveal_at(0, 0);
    assert!(!b.propagate_visibility(), "a revealed mine started a flood");
    for x in 0..3 {
        for y in 0..3 {
            assert_eq!(b.get_at((x, y)).0, x == 0 && y == 0);
        }
    }
}

#[test]
fn propagation_advances_one_level_per_pass() {
    let mut b = Board::with_size(5, 1, 0);
    b.reveal_at(0, 0);
    for reached in 1..5usize {
        assert!(b.propagate_visibility());
        for x in 0..5 {
            assert_eq!(b.get_at((x, 0)).0, x <= reached, "pass {reached}, cell ({x},0)");
        }
    }
    assert!(!b.propagate_visibility());
}

#[test]
fn visibility_is_monotonic() {
    let mut b = board_with_corner_mine();
    let mut seen: Vec<(usize, usize)> = Vec::new();
    for (x, y) in [(2usize, 2usize), (1, 1), (0, 0), (0, 2)] {
        b.reveal_at(x, y);
        seen.push((x, y));
        let mut steps = 0;
        loop {
            for &(sx, sy) in &seen {
                assert!(b.get_at((sx, sy)).0, "cell ({sx},{sy}) was hidden again");
            }
            if !b.propagate_visibility() {
                break;
            }
            steps += 1;
            assert!(steps <= 6);
        }
    }
}

#[test]
fn flood_never_crosses_a_wall_of_numbers() {
    // A 1-cell-high strip with a mine in the middle: the empty cell on the
    // far side of the mine's numbers must stay hidden.
    let mut tiles = vec![Tile::Empty; 5];
    tiles[2] = Tile::Mine;
    for x in 0..5 {
        Board::count_neighbors(&mut tiles, 5, 1, x, 0);
    }
    assert_eq!(tiles[1], Tile::Neighbor(1));
    assert_eq!(tiles[3], Tile::Neighbor(1));
    let mut b = Board { width: 5, height: 1, mine_count: 1, tiles, visibility: vec![false; 5] };
    b.reveal_and_settle(0, 0);
    assert!(b.get_at((0, 0)).0);
    assert!(!b.get_at((1, 0)).0);
    assert!(!b.get_at((3, 0)).0);
    assert!(!b.get_at((4, 0)).0, "the flood crossed the wall of numbers");
}

#[test]
fn set_visibility_at_sets_and_clears() {
    let mut b = Board::with_size(3, 3, 0);
    b.set_visibility_at((1, 2), true);
    assert!(b.get_at((1, 2)).0);
    assert!(!b.get_at((2, 1)).0);
    b.set_visibility_at((1, 2), false);
    assert!(!b.get_at((1, 2)).0);
}

#[test]
fn get_at_pairs_visibility_with_tile() {
    let mut b = board_with_corner_mine();
    let d = b.get_at((0, 0));
    assert!(!d.0);
    assert_eq!(d.1, Tile::Mine);
    b.reveal_at(0, 0);
    let d = b.get_at((0, 0));
    assert!(d.0);
    assert_eq!(d.1, Tile::Mine);
}

#[test]
fn fixed_point_has_no_expandable_cell() {
    let mut b = Board::with_size(8, 8, 10);
    b.reveal_and_settle(3, 3);
    assert!(!b.propagate_visibility());
    for x in 0..8usize {
        for y in 0..8usize {
            let d = b.get_at((x, y));
            if d.0 && matches!(d.1, Tile::Empty) {
                for (nx, ny) in [(x.wrapping_sub(1), y), (x + 1, y), (x, y.wrapping_sub(1)), (x, y + 1)] {
                    if nx < 8 && ny < 8 && matches!(b.get_at((nx, ny)).1, Tile::Empty) {
                        assert!(b.get_at((nx, ny)).0, "empty neighbor ({nx},{ny}) still hidden");
                    }
                }
            }
        }
    }
}

#[test]
fn tile_colors_are_tile_specific() {
    assert_eq!(Tile::Empty.get_color(), TileColor::White);
    assert_eq!(Tile::Neighbor(3).get_color(), TileColor::Yellow);
    assert_eq!(Tile::Mine.get_color(), TileColor::Red);
}

#[test]
fn hidden_cells_share_one_color() {
    for tile in [Tile::Empty, Tile::Neighbor(5), Tile::Mine] {
        assert_eq!(TileDisplay(false, tile).get_color(), TileColor::Gray);
    }
    assert_eq!(TileDisplay(true, Tile::Mine).get_color(), TileColor::Red);
    assert_eq!(TileDisplay(true, Tile::Empty).get_color(), TileColor::White);
    assert_eq!(TileDisplay(true, Tile::Neighbor(1)).get_color(), TileColor::Yellow);
}

#[test]
fn new_board_uses_default_dimensions() {
    let b = Board::new(MINE_COUNT);
    assert_eq!(b.width, MAP_SIZE);
    assert_eq!(b.height, MAP_SIZE);
    assert_eq!(b.mine_count, MINE_COUNT);
    assert_eq!(mines_in(&b), MINE_COUNT as usize);
    for x in 0..MAP_SIZE {
        for y in 0..MAP_SIZE {
            assert!(!b.get_at((x, y)).0);
        }
    }
}
