use genesis::maze::{build_maze_walls, generate_maze, Cell, SeededRng, Wall, CELLS, COLS, ROWS};

fn closed_grid() -> Vec<Cell> {
    let mut grid = Vec::new();
    for r in 0..ROWS {
        for c in 0..COLS {
            grid.push(Cell { r, c, walls: [true; 4], visited: false });
        }
    }
    grid
}

#[test]
fn seeded_generator_is_mulberry32() {
    let mut rng = SeededRng::new(42);
    assert_eq!(rng.next_u32(), 2581720956);
    assert_eq!(rng.seed, 1831565855);
    assert_eq!(rng.next_u32(), 1925393290);
    assert_eq!(rng.next_u32(), 3661312704);
    assert_eq!(rng.seed, 1199730185);
}

#[test]
fn maze_for_seed_42() {
    let mut rng = SeededRng::new(42);
    let grid = generate_maze(&mut rng);
    assert_eq!(grid.len(), CELLS);
    assert_eq!(rng.seed, 3456155477);
    assert_eq!(grid.iter().filter(|c| c.visited).count(), CELLS);
    assert_eq!(grid[0].walls, [true, true, false, true]);
    assert_eq!(grid[1].walls, [true, false, true, true]);
    assert_eq!(grid[5].walls, [true, true, false, false]);
}

#[test]
fn mazes_are_consistent() {
    for seed in [0u32, 1, 42, 7777, u32::MAX] {
        let mut rng = SeededRng::new(seed);
        let grid = generate_maze(&mut rng);
        assert_eq!(grid.len(), CELLS);
        for (i, cell) in grid.iter().enumerate() {
            assert_eq!((cell.r, cell.c), (i / COLS, i % COLS));
            if cell.r == 0 {
                assert!(cell.walls[0]);
            }
            if cell.c == COLS - 1 {
                assert!(cell.walls[1]);
            } else {
                assert_eq!(cell.walls[1], grid[i + 1].walls[3]);
            }
            if cell.r == ROWS - 1 {
                assert!(cell.walls[2]);
            } else {
                assert_eq!(cell.walls[2], grid[i + COLS].walls[0]);
            }
            if cell.c == 0 {
                assert!(cell.walls[3]);
            }
        }
        let mut again = SeededRng::new(seed);
        let grid2 = generate_maze(&mut again);
        assert!(grid.iter().zip(grid2.iter()).all(|(a, b)| a.walls == b.walls && a.visited == b.visited));
    }
}

#[test]
fn walls_of_closed_grid() {
    let walls = build_maze_walls(&closed_grid());
    assert_eq!(walls.len(), 11 * 16 + 10 * 17 - 2);
    assert_eq!(walls[0], Wall { min_x: 0, max_x: 50, min_y: -3, max_y: 3 });
    assert_eq!(walls[1], Wall { min_x: 47, max_x: 53, min_y: 0, max_y: 50 });
    assert_eq!(walls[2], Wall { min_x: 0, max_x: 50, min_y: 47, max_y: 53 });
    for i in 0..walls.len() {
        for j in 0..i {
            assert_ne!(walls[i], walls[j]);
        }
    }
}

#[test]
fn walls_of_maze_for_seed_42() {
    let mut rng = SeededRng::new(42);
    let grid = generate_maze(&mut rng);
    let walls = build_maze_walls(&grid);
    assert_eq!(walls.len(), 185);
    assert_eq!(walls[0], Wall { min_x: 0, max_x: 50, min_y: -3, max_y: 3 });
    assert_eq!(walls[1], Wall { min_x: 47, max_x: 53, min_y: 0, max_y: 50 });
    assert_eq!(walls[2], Wall { min_x: 50, max_x: 100, min_y: -3, max_y: 3 });
}

#[test]
fn open_grid_has_no_walls_but_the_border() {
    let mut grid = closed_grid();
    for cell in grid.iter_mut() {
        cell.walls = [cell.r == 0, cell.c == COLS - 1, cell.r == ROWS - 1, cell.c == 0];
    }
    let walls = build_maze_walls(&grid);
    assert_eq!(walls.len(), 2 * 16 + 2 * 10 - 2);
}

#[test]
fn carved_passages_form_a_tree() {
    for seed in [0u32, 1, 42, 7777, u32::MAX] {
        let mut rng = SeededRng::new(seed);
        let grid = generate_maze(&mut rng);
        let reached = grid.iter().filter(|c| c.visited).count();
        let mut passages = 0;
        for (i, cell) in grid.iter().enumerate() {
            if cell.c + 1 < COLS && !cell.walls[1] {
                passages += 1;
                assert!(cell.visited && grid[i + 1].visited);
            }
            if cell.r + 1 < ROWS && !cell.walls[2] {
                passages += 1;
                assert!(cell.visited && grid[i + COLS].visited);
            }
        }
        assert_eq!(passages + 1, reached, "seed {}", seed);
    }
}

#[test]
fn walls_of_maze_for_seed_42_are_distinct() {
    let mut rng = SeededRng::new(42);
    let walls = build_maze_walls(&generate_maze(&mut rng));
    for i in 0..walls.len() {
        for j in 0..i {
            assert_ne!(walls[i], walls[j]);
        }
    }
}

#[test]
fn carving_reaches_every_cell_for_the_first_seeds() {
    for seed in 0u32..200 {
        let mut rng = SeededRng::new(seed);
        let grid = generate_maze(&mut rng);
        assert_eq!(grid.iter().filter(|c| c.visited).count(), CELLS, "seed {}", seed);
    }
}
