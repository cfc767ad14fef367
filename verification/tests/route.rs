use genesis::maze::{generate_maze, Cell, SeededRng, COLS, ROWS};
use genesis::route::{get_checkpoints, solve_maze_bfs, Point};

fn grid_with(open: bool) -> Vec<Cell> {
    let mut grid = Vec::new();
    for r in 0..ROWS {
        for c in 0..COLS {
            let walls = if open {
                [r == 0, c == COLS - 1, r == ROWS - 1, c == 0]
            } else {
                [true; 4]
            };
            grid.push(Cell { r, c, walls, visited: false });
        }
    }
    grid
}

fn check_route(grid: &[Cell], route: &[(usize, usize)]) {
    assert_eq!(route[0], (0, 0));
    assert_eq!(*route.last().unwrap(), (ROWS - 1, COLS - 1));
    for w in route.windows(2) {
        let (a, b) = (w[0], w[1]);
        let cell = &grid[a.0 * COLS + a.1];
        let dir = if b.0 + 1 == a.0 && b.1 == a.1 {
            0
        } else if b.0 == a.0 && b.1 == a.1 + 1 {
            1
        } else if b.0 == a.0 + 1 && b.1 == a.1 {
            2
        } else if b.0 == a.0 && b.1 + 1 == a.1 {
            3
        } else {
            panic!("not adjacent: {:?} {:?}", a, b)
        };
        assert!(!cell.walls[dir]);
    }
    for i in 0..route.len() {
        for j in 0..i {
            assert_ne!(route[i], route[j]);
        }
    }
}

#[test]
fn closed_grid_has_no_route() {
    assert!(solve_maze_bfs(&grid_with(false)).is_empty());
}

#[test]
fn open_grid_route_is_shortest() {
    let grid = grid_with(true);
    let route = solve_maze_bfs(&grid);
    assert_eq!(route.len(), ROWS + COLS - 1);
    check_route(&grid, &route);
    // East is tried before south, so the first row is walked first.
    assert_eq!(route[1], (0, 1));
}

#[test]
fn route_through_maze_for_seed_42() {
    let mut rng = SeededRng::new(42);
    let grid = generate_maze(&mut rng);
    let route = solve_maze_bfs(&grid);
    assert_eq!(route.len(), 83);
    assert_eq!(&route[..5], &[(0, 0), (1, 0), (1, 1), (2, 1), (2, 0)]);
    check_route(&grid, &route);
}

#[test]
fn blocked_exit_has_no_route() {
    let mut grid = grid_with(true);
    let exit = (ROWS - 1) * COLS + COLS - 1;
    grid[exit - 1].walls[1] = true;
    grid[exit - COLS].walls[2] = true;
    assert!(solve_maze_bfs(&grid).is_empty());
}

#[test]
fn checkpoints_along_route() {
    let mut rng = SeededRng::new(42);
    let grid = generate_maze(&mut rng);
    let route = solve_maze_bfs(&grid);
    assert_eq!(
        get_checkpoints(&route),
        vec![
            Point { x: 275, y: 375 },
            Point { x: 725, y: 125 },
            Point { x: 425, y: 225 },
            Point { x: 775, y: 475 },
        ]
    );
}

#[test]
fn short_routes_give_only_the_goal() {
    assert_eq!(get_checkpoints(&[]), vec![Point { x: 775, y: 475 }]);
    assert_eq!(get_checkpoints(&[(0, 0), (0, 1)]), vec![Point { x: 775, y: 475 }]);
    assert_eq!(
        get_checkpoints(&[(0, 0), (0, 1), (0, 2)]),
        vec![
            Point { x: 25, y: 25 },
            Point { x: 25, y: 25 },
            Point { x: 25, y: 25 },
            Point { x: 775, y: 475 },
        ]
    );
}

#[test]
fn generated_mazes_have_a_route_exactly_when_the_exit_was_reached() {
    for seed in 0u32..60 {
        let mut rng = SeededRng::new(seed);
        let grid = generate_maze(&mut rng);
        let route = solve_maze_bfs(&grid);
        assert_eq!(!route.is_empty(), grid[ROWS * COLS - 1].visited, "seed {}", seed);
        if !route.is_empty() {
            check_route(&grid, &route);
        }
    }
}

#[test]
fn route_takes_the_shorter_of_two_corridors() {
    // The only passages run along the outer ring. A detour through the
    // second row makes the way along the top row two cells longer than the
    // way down the left column and along the bottom row, although the search
    // tries east before south.
    let mut grid = grid_with(false);
    for c in 0..COLS - 1 {
        grid[c].walls[1] = false;
        grid[c + 1].walls[3] = false;
        let b = (ROWS - 1) * COLS + c;
        grid[b].walls[1] = false;
        grid[b + 1].walls[3] = false;
    }
    for r in 0..ROWS - 1 {
        let right = r * COLS + COLS - 1;
        grid[right].walls[2] = false;
        grid[right + COLS].walls[0] = false;
        let left = r * COLS;
        grid[left].walls[2] = false;
        grid[left + COLS].walls[0] = false;
    }
    let (a, b) = (COLS - 3, COLS - 2);
    grid[a].walls[1] = true;
    grid[b].walls[3] = true;
    grid[a].walls[2] = false;
    grid[a + COLS].walls[0] = false;
    grid[a + COLS].walls[1] = false;
    grid[b + COLS].walls[3] = false;
    grid[b + COLS].walls[0] = false;
    grid[b].walls[2] = false;
    let route = solve_maze_bfs(&grid);
    check_route(&grid, &route);
    assert_eq!(route.len(), ROWS + COLS - 1);
    assert_eq!(route[1], (1, 0));
    assert_eq!(route[ROWS - 1], (ROWS - 1, 0));
    assert_eq!(route[ROWS], (ROWS - 1, 1));
}

#[test]
fn open_grid_route_goes_east_before_south() {
    // Of all shortest routes through an open grid, the search returns the one
    // that turns east whenever east is still possible.
    let route = solve_maze_bfs(&grid_with(true));
    for c in 0..COLS {
        assert_eq!(route[c], (0, c));
    }
    for r in 1..ROWS {
        assert_eq!(route[COLS - 1 + r], (r, COLS - 1));
    }
}
