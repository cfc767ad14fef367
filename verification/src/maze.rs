//! The maze the agents are trained in: a seeded depth-first carving of a
//! grid of cells, the wall segments it leaves, a breadth-first route through
//! it, and the checkpoints along that route.

use vstd::prelude::*;
use std::collections::HashSet;

verus! {

/// Number of cell rows.
pub const ROWS: usize = 10;
/// Number of cell columns.
pub const COLS: usize = 16;
/// Number of cells.
pub const CELLS: usize = ROWS * COLS;
/// Side length of a cell.
pub const CELL_SIZE: i64 = 50;
/// Half the thickness of a wall segment.
pub const HALF_WALL: i64 = 3;

/// The "mulberry32" generator: a 32-bit state advanced by a fixed odd
/// constant and mixed into the output.
pub struct SeededRng {
    pub seed: u32,
}

/// The state after one draw.
pub open spec fn advance_seed(seed: u32) -> u32 {
    seed.wrapping_add(0x6D2B79F5)
}

/// The output drawn from an advanced state.
pub open spec fn mix(t0: u32) -> u32 {
    let t1 = (t0 ^ (t0 >> 15u32)).wrapping_mul(t0 | 1);
    let t2 = t1 ^ t1.wrapping_add((t1 ^ (t1 >> 7u32)).wrapping_mul(t1 | 61));
    t2 ^ (t2 >> 14u32)
}

impl SeededRng {
    /// A generator in state `seed`.
    pub fn new(seed: u32) -> (rng: SeededRng)
        ensures
            rng.seed == seed,
    {
        SeededRng { seed }
    }

    /// Advances the state and returns the mixed output. The fraction of the
    /// unit interval the generator stands for is this value divided by
    /// 2^32.
    pub fn next_u32(&mut self) -> (v: u32)
        ensures
            final(self).seed == advance_seed(old(self).seed),
            v == mix(final(self).seed),
    {
        self.seed = self.seed.wrapping_add(0x6D2B79F5);
        let mut t = self.seed;
        t = (t ^ (t >> 15u32)).wrapping_mul(t | 1);
        t = t ^ t.wrapping_add((t ^ (t >> 7u32)).wrapping_mul(t | 61));
        t ^ (t >> 14u32)
    }
}

/// A grid cell: its row and column, its four walls (north, east, south,
/// west), and whether the carving has reached it.
#[derive(Clone, Copy, Debug)]
pub struct Cell {
    pub r: usize,
    pub c: usize,
    pub walls: [bool; 4],
    pub visited: bool,
}

/// The value of a cell.
#[verifier::ext_equal]
pub struct CellView {
    pub r: int,
    pub c: int,
    pub walls: Seq<bool>,
    pub visited: bool,
}

impl View for Cell {
    type V = CellView;

    open spec fn view(&self) -> CellView {
        CellView { r: self.r as int, c: self.c as int, walls: self.walls@, visited: self.visited }
    }
}

/// The values of the cells of a grid, in order.
pub open spec fn grid_view(grid: Seq<Cell>) -> Seq<CellView> {
    grid.map_values(|cell: Cell| cell@)
}

/// The index of the cell at row `r`, column `c`.
pub open spec fn cell_index(r: int, c: int) -> int {
    r * COLS + c
}

/// The direction opposite `dir`.
pub open spec fn opposite(dir: int) -> int {
    (dir + 2) % 4
}

/// The state of the carving: the grid, the stack of cells to return to,
/// the cell being worked on, and the generator state.
pub struct Carving {
    pub grid: Seq<CellView>,
    pub stack: Seq<int>,
    pub current: int,
    pub seed: u32,
}

/// The neighbours of the current cell that the carving has not reached, in
/// the order north, east, south, west, each with the direction to it.
pub open spec fn open_choices(grid: Seq<CellView>, current: int) -> Seq<(int, int)> {
    let r = grid[current].r;
    let c = grid[current].c;
    let north = if r > 0 && !grid[cell_index(r - 1, c)].visited {
        seq![(cell_index(r - 1, c), 0int)]
    } else {
        Seq::empty()
    };
    let east = if c < COLS - 1 && !grid[cell_index(r, c + 1)].visited {
        seq![(cell_index(r, c + 1), 1int)]
    } else {
        Seq::empty()
    };
    let south = if r < ROWS - 1 && !grid[cell_index(r + 1, c)].visited {
        seq![(cell_index(r + 1, c), 2int)]
    } else {
        Seq::empty()
    };
    let west = if c > 0 && !grid[cell_index(r, c - 1)].visited {
        seq![(cell_index(r, c - 1), 3int)]
    } else {
        Seq::empty()
    };
    north + east + south + west
}

/// The choice a generator output `v` makes among `n` options: the option
/// at `floor(v / 2^32 * n)`.
pub open spec fn pick(v: u32, n: int) -> int {
    (v as int * n) / 0x1_0000_0000
}

/// Removes wall `dir` of `from` and the opposite wall of `to`, and marks
/// `to` as reached.
#[verifier::opaque]
pub open spec fn carve(grid: Seq<CellView>, from: int, to: int, dir: int) -> Seq<CellView> {
    let g = grid.update(from, CellView { walls: grid[from].walls.update(dir, false), ..grid[from] });
    g.update(
        to,
        CellView { walls: g[to].walls.update(opposite(dir), false), visited: true, ..g[to] },
    )
}

impl Carving {
    /// The carving before its first step: all walls standing, the first cell
    /// reached and on the stack.
    pub open spec fn start(seed: u32) -> Carving {
        let grid = Seq::new(
            CELLS as nat,
            |i: int|
                CellView {
                    r: i / COLS as int,
                    c: i % COLS as int,
                    walls: seq![true, true, true, true],
                    visited: i == 0,
                },
        );
        Carving { grid, stack: seq![0int], current: 0, seed }
    }

    /// One step: if the current cell has unreached neighbours, draw one,
    /// knock down the walls between them, and move there; otherwise move to
    /// the cell popped off the stack.
    pub open spec fn step(self) -> Carving {
        let choices = open_choices(self.grid, self.current);
        if choices.len() > 0 {
            let seed = advance_seed(self.seed);
            let (next, dir) = choices[pick(mix(seed), choices.len() as int)];
            Carving {
                grid: carve(self.grid, self.current, next, dir),
                stack: self.stack.push(next),
                current: next,
                seed,
            }
        } else {
            Carving { stack: self.stack.drop_last(), current: self.stack.last(), ..self }
        }
    }

    /// Steps until the stack is empty, for at most `fuel` steps.
    pub open spec fn run(self, fuel: nat) -> Carving
        decreases fuel,
    {
        if fuel == 0 || self.stack.len() == 0 {
            self
        } else {
            self.step().run((fuel - 1) as nat)
        }
    }
}

/// Enough steps for any carving of the grid to finish: each cell is pushed
/// once and popped once.
pub open spec fn carving_steps() -> nat {
    (2 * CELLS + 2) as nat
}

/// The carving the generator state `seed` produces.
pub open spec fn carved(seed: u32) -> Carving {
    Carving::start(seed).run(carving_steps())
}


/// Every cell sits at the row and column its index names and has four
/// walls.
pub open spec fn grid_shape(grid: Seq<CellView>) -> bool {
    &&& grid.len() == CELLS
    &&& forall|i: int|
        0 <= i < CELLS ==> {
            &&& (#[trigger] grid[i]).r == i / COLS as int
            &&& grid[i].c == i % COLS as int
            &&& grid[i].walls.len() == 4
        }
}

/// The number of cells the carving has not reached.
pub open spec fn unreached_count(grid: Seq<CellView>) -> nat
    decreases grid.len(),
{
    if grid.len() == 0 {
        0
    } else {
        unreached_count(grid.drop_last()) + if grid.last().visited {
            0nat
        } else {
            1nat
        }
    }
}

impl Carving {
    pub open spec fn wf(self) -> bool {
        &&& grid_shape(self.grid)
        &&& 0 <= self.current < CELLS
        &&& forall|i: int| 0 <= i < self.stack.len() ==> 0 <= #[trigger] self.stack[i] < CELLS
    }

    /// Twice the unreached cells plus the stack height: every step lowers
    /// it.
    pub open spec fn measure(self) -> nat {
        2 * unreached_count(self.grid) + self.stack.len()
    }
}

proof fn lemma_unreached_count_update(grid: Seq<CellView>, i: int, v: CellView)
    requires
        0 <= i < grid.len(),
    ensures
        unreached_count(grid.update(i, v)) + (if grid[i].visited {
            0int
        } else {
            1int
        }) == unreached_count(grid) + (if v.visited {
            0int
        } else {
            1int
        }),
    decreases grid.len(),
{
    let g2 = grid.update(i, v);
    if i == grid.len() - 1 {
        assert(g2.drop_last() =~= grid.drop_last());
    } else {
        assert(g2.drop_last() =~= grid.drop_last().update(i, v));
        lemma_unreached_count_update(grid.drop_last(), i, v);
    }
}

proof fn lemma_unreached_count_bound(grid: Seq<CellView>)
    ensures
        unreached_count(grid) <= grid.len(),
    decreases grid.len(),
{
    if grid.len() > 0 {
        lemma_unreached_count_bound(grid.drop_last());
    }
}

pub(crate) proof fn lemma_choices_in_range(grid: Seq<CellView>, current: int)
    requires
        grid_shape(grid),
        0 <= current < CELLS,
    ensures
        forall|k: int|
            0 <= k < open_choices(grid, current).len() ==> {
                let (next, dir) = #[trigger] open_choices(grid, current)[k];
                &&& 0 <= next < CELLS
                &&& 0 <= dir < 4
                &&& next != current
                &&& !grid[next].visited
            },
        open_choices(grid, current).len() <= 4,
{
    let r = grid[current].r;
    let c = grid[current].c;
    assert(0 <= r < ROWS && 0 <= c < COLS);
}

/// A step keeps the carving well formed and lowers its measure.
pub(crate) proof fn lemma_step(s: Carving)
    requires
        s.wf(),
        s.stack.len() > 0,
    ensures
        s.step().wf(),
        s.step().measure() < s.measure(),
{
    let choices = open_choices(s.grid, s.current);
    lemma_choices_in_range(s.grid, s.current);
    if choices.len() > 0 {
        let seed = advance_seed(s.seed);
        let k = pick(mix(seed), choices.len() as int);
        assert(0 <= k < choices.len()) by (nonlinear_arith)
            requires
                k == (mix(seed) as int * choices.len()) / 0x1_0000_0000,
                0 <= mix(seed) < 0x1_0000_0000,
                choices.len() > 0,
        ;
        let (next, dir) = choices[k];
        let from = s.grid[s.current];
        let v1 = CellView { walls: from.walls.update(dir, false), ..from };
        let g1 = s.grid.update(s.current, v1);
        let v2 = CellView { walls: g1[next].walls.update(opposite(dir), false), visited: true, ..g1[next] };
        let g2 = g1.update(next, v2);
        lemma_unreached_count_update(s.grid, s.current, v1);
        lemma_unreached_count_update(g1, next, v2);
        assert(g2 == carve(s.grid, s.current, next, dir)) by {
            reveal(carve);
        }
        assert(grid_shape(g2)) by {
            assert forall|i: int| 0 <= i < CELLS implies {
                &&& (#[trigger] g2[i]).r == i / COLS as int
                &&& g2[i].c == i % COLS as int
                &&& g2[i].walls.len() == 4
            } by {
                assert(s.grid[i].walls.len() == 4);
            }
        }
    }
}

/// The carving ends with an empty stack once the fuel exceeds the measure.
proof fn lemma_run_finishes(s: Carving, fuel: nat)
    requires
        s.wf(),
        s.measure() < fuel,
    ensures
        s.run(fuel).stack.len() == 0,
        s.run(fuel).wf(),
    decreases fuel,
{
    if s.stack.len() > 0 {
        lemma_step(s);
        lemma_run_finishes(s.step(), (fuel - 1) as nat);
    }
}


/// A cell of the full grid before the carving: all four walls standing,
/// not reached.
pub open spec fn fresh_cell(i: int) -> CellView {
    CellView {
        r: i / COLS as int,
        c: i % COLS as int,
        walls: seq![true, true, true, true],
        visited: false,
    }
}

/// The stack of a carving as indices.
pub open spec fn stack_view(stack: Seq<usize>) -> Seq<int> {
    stack.map_values(|i: usize| i as int)
}

/// Knocks down wall `dir` of cell `at`.
fn open_wall(grid: &mut Vec<Cell>, at: usize, dir: usize)
    requires
        at < old(grid)@.len(),
        dir < 4,
    ensures
        final(grid)@.len() == old(grid)@.len(),
        grid_view(final(grid)@) == grid_view(old(grid)@).update(
            at as int,
            CellView { walls: old(grid)@[at as int]@.walls.update(dir as int, false), ..old(grid)@[at as int]@ },
        ),
{
    let mut cell = grid[at];
    cell.walls[dir] = false;
    grid.set(at, cell);
    proof {
        assert(grid_view(grid@) =~= grid_view(old(grid)@).update(
            at as int,
            CellView { walls: old(grid)@[at as int]@.walls.update(dir as int, false), ..old(grid)@[at as int]@ },
        ));
    }
}

/// Marks cell `at` as reached.
fn mark_reached(grid: &mut Vec<Cell>, at: usize)
    requires
        at < old(grid)@.len(),
    ensures
        final(grid)@.len() == old(grid)@.len(),
        grid_view(final(grid)@) == grid_view(old(grid)@).update(
            at as int,
            CellView { visited: true, ..old(grid)@[at as int]@ },
        ),
{
    let mut cell = grid[at];
    cell.visited = true;
    grid.set(at, cell);
    proof {
        assert(grid_view(grid@) =~= grid_view(old(grid)@).update(
            at as int,
            CellView { visited: true, ..old(grid)@[at as int]@ },
        ));
    }
}

/// The unreached neighbours of cell `current`, in the order north, east,
/// south, west, with the direction to each.
fn unreached_neighbours(grid: &Vec<Cell>, current: usize) -> (choices: Vec<(usize, usize)>)
    requires
        grid_shape(grid_view(grid@)),
        current < CELLS,
    ensures
        choices@.map_values(|p: (usize, usize)| (p.0 as int, p.1 as int)) == open_choices(
            grid_view(grid@),
            current as int,
        ),
{
    let ghost g = grid_view(grid@);
    assert(g[current as int] == grid@[current as int]@);
    let current_r = grid[current].r;
    let current_c = grid[current].c;
    let mut neighbors: Vec<(usize, usize)> = Vec::new();
    if current_r > 0 {
        let idx = (current_r - 1) * COLS + current_c;
        assert(g[idx as int] == grid@[idx as int]@);
        if !grid[idx].visited {
            neighbors.push((idx, 0));
        }
    }
    let ghost n0 = neighbors@;
    if current_c < COLS - 1 {
        let idx = current_r * COLS + (current_c + 1);
        assert(g[idx as int] == grid@[idx as int]@);
        if !grid[idx].visited {
            neighbors.push((idx, 1));
        }
    }
    let ghost n1 = neighbors@;
    if current_r < ROWS - 1 {
        let idx = (current_r + 1) * COLS + current_c;
        assert(g[idx as int] == grid@[idx as int]@);
        if !grid[idx].visited {
            neighbors.push((idx, 2));
        }
    }
    let ghost n2 = neighbors@;
    if current_c > 0 {
        let idx = current_r * COLS + (current_c - 1);
        assert(g[idx as int] == grid@[idx as int]@);
        if !grid[idx].visited {
            neighbors.push((idx, 3));
        }
    }
    assert(neighbors@.map_values(|p: (usize, usize)| (p.0 as int, p.1 as int)) =~= open_choices(
        g,
        current as int,
    ));
    neighbors
}

/// Carves a maze out of the full grid, depth first from the top-left
/// cell, drawing each turn from `rng`.
pub fn generate_maze(rng: &mut SeededRng) -> (grid: Vec<Cell>)
    ensures
        grid_view(grid@) == carved(old(rng).seed).grid,
        final(rng).seed == carved(old(rng).seed).seed,
        grid_shape(grid_view(grid@)),
        walls_agree(grid_view(grid@)),
        border_closed(grid_view(grid@)),
{
    let mut grid: Vec<Cell> = Vec::new();
    for r in 0..ROWS
        invariant
            grid@.len() == r * COLS,
            forall|i: int| 0 <= i < grid@.len() ==> #[trigger] grid_view(grid@)[i] == fresh_cell(i),
    {
        for c in 0..COLS
            invariant
                0 <= r < ROWS,
                grid@.len() == r * COLS + c,
                forall|i: int|
                    0 <= i < grid@.len() ==> #[trigger] grid_view(grid@)[i] == fresh_cell(i),
        {
            let ghost i = grid@.len() as int;
            let ghost before = grid_view(grid@);
            let cell = Cell { r, c, walls: [true, true, true, true], visited: false };
            grid.push(cell);
            proof {
                assert(i / COLS as int == r && i % COLS as int == c) by (nonlinear_arith)
                    requires
                        i == r * 16 + c,
                        0 <= c < 16,
                ;
                assert(cell@.walls =~= seq![true, true, true, true]);
                assert(grid_view(grid@) =~= before.push(cell@));
            }
        }
    }
    let mut stack: Vec<usize> = Vec::new();
    let mut current_idx: usize = 0;
    let ghost pre = grid_view(grid@);
    mark_reached(&mut grid, current_idx);
    stack.push(current_idx);
    let ghost mut state = Carving::start(rng.seed);
    let ghost target = carved(rng.seed);
    let ghost mut fuel: nat = carving_steps();
    proof {
        assert forall|i: int| 0 <= i < CELLS implies #[trigger] grid_view(grid@)[i] == state.grid[i] by {
            assert(pre[i] == fresh_cell(i));
        }
        assert(grid_view(grid@) =~= state.grid);
        assert(stack_view(stack@) =~= state.stack);
        lemma_unreached_count_bound(state.grid);
    }
    while !stack.is_empty()
        invariant
            state.wf(),
            grid_view(grid@) == state.grid,
            stack_view(stack@) == state.stack,
            current_idx == state.current,
            rng.seed == state.seed,
            state.measure() < fuel,
            state.run(fuel) == target,
        decreases state.measure(),
    {
        proof {
            lemma_step(state);
        }
        let neighbors = unreached_neighbours(&grid, current_idx);
        let ghost choices = open_choices(state.grid, state.current);
        proof {
            lemma_choices_in_range(state.grid, state.current);
            assert(neighbors@.len() == choices.len());
        }
        if !neighbors.is_empty() {
            let v = rng.next_u32();
            assert((v as int) * (neighbors@.len() as int) < 0x1_0000_0000 * 4) by (nonlinear_arith)
                requires
                    0 <= v < 0x1_0000_0000,
                    0 < neighbors@.len() <= 4,
            ;
            let pick_idx = ((v as u64) * (neighbors.len() as u64) / 0x1_0000_0000u64) as usize;
            proof {
                assert(pick_idx == pick(v, choices.len() as int)) by (nonlinear_arith)
                    requires
                        pick_idx == (v as int * neighbors@.len()) / 0x1_0000_0000,
                        neighbors@.len() == choices.len(),
                ;
                assert(0 <= pick_idx < choices.len()) by (nonlinear_arith)
                    requires
                        pick_idx == (v as int * choices.len()) / 0x1_0000_0000,
                        0 <= v < 0x1_0000_0000,
                        choices.len() > 0,
                ;
                assert(choices[pick_idx as int] == (neighbors@[pick_idx as int].0 as int, neighbors@[pick_idx as int].1 as int));
            }
            let (next_idx, dir) = neighbors[pick_idx];
            let ghost g0 = grid_view(grid@);
            open_wall(&mut grid, current_idx, dir);
            let ghost g1 = grid_view(grid@);
            open_wall(&mut grid, next_idx, (dir + 2) % 4);
            let ghost g2 = grid_view(grid@);
            mark_reached(&mut grid, next_idx);
            proof {
                reveal(carve);
                assert(((dir + 2) % 4) as int == opposite(dir as int));
                assert(g2 == g1.update(next_idx as int, CellView { walls: g1[next_idx as int].walls.update(opposite(dir as int), false), ..g1[next_idx as int] }));
                assert(grid_view(grid@) == g2.update(next_idx as int, CellView { visited: true, ..g2[next_idx as int] }));
                assert(grid_view(grid@)[next_idx as int] == CellView { walls: g1[next_idx as int].walls.update(opposite(dir as int), false), visited: true, ..g1[next_idx as int] });
                let carved_grid = carve(g0, current_idx as int, next_idx as int, dir as int);
                assert(g1 == g0.update(current_idx as int, CellView { walls: g0[current_idx as int].walls.update(dir as int, false), ..g0[current_idx as int] }));
                assert(grid_view(grid@) =~= carved_grid);
            }
            current_idx = next_idx;
            stack.push(current_idx);
            proof {
                let next = state.step();
                assert(grid_view(grid@) == next.grid);
                assert(stack_view(stack@) =~= next.stack);
                state = next;
            }
        } else {
            let top = stack.pop().unwrap();
            current_idx = top;
            proof {
                let next = state.step();
                assert(stack_view(stack@) =~= next.stack);
                state = next;
            }
        }
        proof {
            fuel = (fuel - 1) as nat;
        }
    }
    proof {
        assert(state.run(fuel) == state);
        lemma_carved_maze_is_consistent(old(rng).seed);
    }
    grid
}


/// Walls shared by neighbouring cells agree: the east wall of a cell is
/// the west wall of the cell to its right, and the south wall of a cell is
/// the north wall of the cell below it.
pub open spec fn walls_agree(grid: Seq<CellView>) -> bool {
    &&& forall|i: int|
        0 <= i < CELLS && i % COLS as int != COLS - 1 ==> (#[trigger] grid[i]).walls[1]
            == grid[i + 1].walls[3]
    &&& forall|i: int|
        0 <= i < CELLS - COLS ==> (#[trigger] grid[i]).walls[2] == grid[i + COLS].walls[0]
}

/// The outer boundary of the grid is closed.
pub open spec fn border_closed(grid: Seq<CellView>) -> bool {
    forall|i: int|
        0 <= i < CELLS ==> {
            &&& i / COLS as int == 0 ==> (#[trigger] grid[i]).walls[0]
            &&& i % COLS as int == COLS - 1 ==> grid[i].walls[1]
            &&& i / COLS as int == ROWS - 1 ==> grid[i].walls[2]
            &&& i % COLS as int == 0 ==> grid[i].walls[3]
        }
}

/// Where each choice of the current cell leads: north is one row up, east
/// one column right, south one row down, west one column left.
pub(crate) proof fn lemma_choice_geometry(grid: Seq<CellView>, current: int, k: int)
    requires
        grid_shape(grid),
        0 <= current < CELLS,
        0 <= k < open_choices(grid, current).len(),
    ensures
        ({
            let (next, dir) = open_choices(grid, current)[k];
            &&& dir == 0 ==> current / COLS as int > 0 && next == current - COLS
            &&& dir == 1 ==> current % COLS as int != COLS - 1 && next == current + 1
            &&& dir == 2 ==> (current / COLS as int) < ROWS - 1 && next == current + COLS
            &&& dir == 3 ==> current % COLS as int != 0 && next == current - 1
            &&& 0 <= dir < 4
        }),
{
    let r = grid[current].r;
    let c = grid[current].c;
    assert(current == r * 16 + c);
}

pub(crate) proof fn lemma_carve_cell(grid: Seq<CellView>, from: int, to: int, dir: int, i: int)
    requires
        grid_shape(grid),
        0 <= from < CELLS,
        0 <= to < CELLS,
        from != to,
        0 <= dir < 4,
        0 <= i < CELLS,
    ensures
        carve(grid, from, to, dir)[i].r == grid[i].r,
        carve(grid, from, to, dir)[i].c == grid[i].c,
        carve(grid, from, to, dir)[i].walls.len() == 4,
        forall|w: int|
            0 <= w < 4 ==> #[trigger] carve(grid, from, to, dir)[i].walls[w] == if (i == from && w
                == dir) || (i == to && w == opposite(dir)) {
                false
            } else {
                grid[i].walls[w]
            },
{
    reveal(carve);
    assert(grid[i].walls.len() == 4);
}

/// The geometry of a carving move: `to` is the neighbour of `from` in
/// direction `dir`.
pub open spec fn is_move(from: int, to: int, dir: int) -> bool {
    &&& 0 <= from < CELLS
    &&& 0 <= dir < 4
    &&& dir == 0 ==> from / COLS as int > 0 && to == from - COLS
    &&& dir == 1 ==> from % COLS as int != COLS - 1 && to == from + 1
    &&& dir == 2 ==> (from / COLS as int) < ROWS - 1 && to == from + COLS
    &&& dir == 3 ==> from % COLS as int != 0 && to == from - 1
}

proof fn lemma_move_in_range(from: int, to: int, dir: int)
    requires
        is_move(from, to, dir),
    ensures
        0 <= to < CELLS,
        to != from,
{
}

proof fn lemma_carve_keeps_east_west(grid: Seq<CellView>, from: int, to: int, dir: int)
    requires
        grid_shape(grid),
        is_move(from, to, dir),
        walls_agree(grid),
    ensures
        forall|i: int|
            0 <= i < CELLS && i % COLS as int != COLS - 1 ==> (#[trigger] carve(grid, from, to, dir)[i]).walls[1]
                == carve(grid, from, to, dir)[i + 1].walls[3],
{
    lemma_move_in_range(from, to, dir);
    let g = carve(grid, from, to, dir);
    assert forall|i: int| 0 <= i < CELLS && i % COLS as int != COLS - 1 implies (#[trigger] g[i]).walls[1]
        == g[i + 1].walls[3] by {
        lemma_carve_cell(grid, from, to, dir, i);
        lemma_carve_cell(grid, from, to, dir, i + 1);
        assert(grid[i].walls[1] == grid[i + 1].walls[3]);
    }
}

proof fn lemma_carve_keeps_north_south(grid: Seq<CellView>, from: int, to: int, dir: int)
    requires
        grid_shape(grid),
        is_move(from, to, dir),
        walls_agree(grid),
    ensures
        forall|i: int|
            0 <= i < CELLS - COLS ==> (#[trigger] carve(grid, from, to, dir)[i]).walls[2] == carve(
                grid,
                from,
                to,
                dir,
            )[i + COLS].walls[0],
{
    lemma_move_in_range(from, to, dir);
    let g = carve(grid, from, to, dir);
    assert forall|i: int| 0 <= i < CELLS - COLS implies (#[trigger] g[i]).walls[2] == g[i
        + COLS].walls[0] by {
        lemma_carve_cell(grid, from, to, dir, i);
        lemma_carve_cell(grid, from, to, dir, i + COLS);
        assert(grid[i].walls[2] == grid[i + COLS].walls[0]);
    }
}

proof fn lemma_carve_keeps_border(grid: Seq<CellView>, from: int, to: int, dir: int)
    requires
        grid_shape(grid),
        is_move(from, to, dir),
        border_closed(grid),
    ensures
        border_closed(carve(grid, from, to, dir)),
{
    lemma_move_in_range(from, to, dir);
    let g = carve(grid, from, to, dir);
    assert forall|i: int| 0 <= i < CELLS implies {
        &&& i / COLS as int == 0 ==> (#[trigger] g[i]).walls[0]
        &&& i % COLS as int == COLS - 1 ==> g[i].walls[1]
        &&& i / COLS as int == ROWS - 1 ==> g[i].walls[2]
        &&& i % COLS as int == 0 ==> g[i].walls[3]
    } by {
        lemma_carve_cell(grid, from, to, dir, i);
        assert(i / COLS as int == 0 ==> grid[i].walls[0]);
    }
}

proof fn lemma_step_keeps_walls(s: Carving)
    requires
        s.wf(),
        s.stack.len() > 0,
        walls_agree(s.grid),
        border_closed(s.grid),
    ensures
        walls_agree(s.step().grid),
        border_closed(s.step().grid),
{
    let choices = open_choices(s.grid, s.current);
    if choices.len() > 0 {
        let seed = advance_seed(s.seed);
        let k = pick(mix(seed), choices.len() as int);
        assert(0 <= k < choices.len()) by (nonlinear_arith)
            requires
                k == (mix(seed) as int * choices.len()) / 0x1_0000_0000,
                0 <= mix(seed) < 0x1_0000_0000,
                choices.len() > 0,
        ;
        lemma_choice_geometry(s.grid, s.current, k);
        let (next, dir) = choices[k];
        lemma_carve_keeps_east_west(s.grid, s.current, next, dir);
        lemma_carve_keeps_north_south(s.grid, s.current, next, dir);
        lemma_carve_keeps_border(s.grid, s.current, next, dir);
    }
}

proof fn lemma_run_keeps_walls(s: Carving, fuel: nat)
    requires
        s.wf(),
        walls_agree(s.grid),
        border_closed(s.grid),
    ensures
        walls_agree(s.run(fuel).grid),
        border_closed(s.run(fuel).grid),
        s.run(fuel).wf(),
    decreases fuel,
{
    if fuel > 0 && s.stack.len() > 0 {
        lemma_step(s);
        lemma_step_keeps_walls(s);
        lemma_run_keeps_walls(s.step(), (fuel - 1) as nat);
    }
}

/// Every maze the generator carves has each cell at the row and column its
/// index names, four walls per cell, walls that neighbouring cells agree
/// on, and a closed outer boundary.
pub proof fn lemma_carved_maze_is_consistent(seed: u32)
    ensures
        grid_shape(carved(seed).grid),
        walls_agree(carved(seed).grid),
        border_closed(carved(seed).grid),
        carved(seed).stack.len() == 0,
{
    let s = Carving::start(seed);
    assert(s.wf());
    lemma_unreached_count_bound(s.grid);
    lemma_run_finishes(s, carving_steps());
    lemma_run_keeps_walls(s, carving_steps());
}

/// An axis-aligned wall segment.
#[derive(Clone, Copy, Debug, PartialEq, Eq, Structural)]
pub struct Wall {
    pub min_x: i64,
    pub max_x: i64,
    pub min_y: i64,
    pub max_y: i64,
}

/// A wall line of the grid: `(true, r, c)` is the top edge of cell `(r, c)`,
/// `(false, r, c)` its left edge.
pub type WallKey = (bool, usize, usize);

/// The segment that stands on a wall line: a cell wide and `2 * HALF_WALL`
/// thick, centred on the line.
pub open spec fn wall_of_key(key: WallKey) -> Wall {
    let x = key.2 * CELL_SIZE;
    let y = key.1 * CELL_SIZE;
    if key.0 {
        Wall {
            min_x: x as i64,
            max_x: (x + CELL_SIZE) as i64,
            min_y: (y - HALF_WALL) as i64,
            max_y: (y + HALF_WALL) as i64,
        }
    } else {
        Wall {
            min_x: (x - HALF_WALL) as i64,
            max_x: (x + HALF_WALL) as i64,
            min_y: y as i64,
            max_y: (y + CELL_SIZE) as i64,
        }
    }
}

/// The wall lines that cell `i` contributes, in the order north, east,
/// south, west: each wall the cell still has, except the east wall of the
/// last cell and the west wall of the first, which are the exit and the
/// entrance.
pub open spec fn cell_keys(grid: Seq<CellView>, i: int) -> Seq<WallKey> {
    keys_at(grid[i].walls, (i / COLS as int) as usize, (i % COLS as int) as usize)
}

/// The wall lines a cell at row `r`, column `c` with walls `walls`
/// contributes.
pub open spec fn keys_at(walls: Seq<bool>, r: usize, c: usize) -> Seq<WallKey> {
    let north: Seq<WallKey> = if walls[0] {
        seq![(true, r, c)]
    } else {
        Seq::empty()
    };
    let east: Seq<WallKey> = if walls[1] && !(r == ROWS - 1 && c == COLS - 1) {
        seq![(false, r, (c + 1) as usize)]
    } else {
        Seq::empty()
    };
    let south: Seq<WallKey> = if walls[2] {
        seq![(true, (r + 1) as usize, c)]
    } else {
        Seq::empty()
    };
    let west: Seq<WallKey> = if walls[3] && !(r == 0 && c == 0) {
        seq![(false, r, c)]
    } else {
        Seq::empty()
    };
    north + east + south + west
}

/// The wall lines of the first `n` cells, cell by cell.
pub open spec fn candidate_keys(grid: Seq<CellView>, n: int) -> Seq<WallKey>
    decreases n,
{
    if n <= 0 {
        Seq::empty()
    } else {
        candidate_keys(grid, n - 1) + cell_keys(grid, n - 1)
    }
}

/// The distinct elements of `keys` in the order of their first occurrence.
pub open spec fn first_occurrences(keys: Seq<WallKey>) -> Seq<WallKey>
    decreases keys.len(),
{
    if keys.len() == 0 {
        Seq::empty()
    } else {
        let prev = first_occurrences(keys.drop_last());
        if prev.contains(keys.last()) {
            prev
        } else {
            prev.push(keys.last())
        }
    }
}

/// The wall segments of a maze: one per distinct wall line, in the order
/// in which the cells first name them.
pub open spec fn maze_walls(grid: Seq<CellView>) -> Seq<Wall> {
    first_occurrences(candidate_keys(grid, CELLS as int)).map_values(|k: WallKey| wall_of_key(k))
}

fn segment(key: WallKey) -> (w: Wall)
    requires
        key.1 <= ROWS,
        key.2 <= COLS,
    ensures
        w == wall_of_key(key),
{
    let x = key.2 as i64 * CELL_SIZE;
    let y = key.1 as i64 * CELL_SIZE;
    if key.0 {
        Wall { min_x: x, max_x: x + CELL_SIZE, min_y: y - HALF_WALL, max_y: y + HALF_WALL }
    } else {
        Wall { min_x: x - HALF_WALL, max_x: x + HALF_WALL, min_y: y, max_y: y + CELL_SIZE }
    }
}

/// The number a wall line is recorded under: distinct for distinct lines
/// on the grid.
pub open spec fn key_code(key: WallKey) -> u64 {
    ((key.1 * 64 + key.2) * 2 + if key.0 { 1int } else { 0int }) as u64
}

/// `seen` records exactly the wall lines of `recorded`.
pub open spec fn records(seen: Set<u64>, recorded: Seq<WallKey>) -> bool {
    &&& forall|k: WallKey| #![trigger recorded.contains(k)] recorded.contains(k) ==> key_on_grid(k)
    &&& forall|k: WallKey|
        key_on_grid(k) ==> (seen.contains(#[trigger] key_code(k)) <==> recorded.contains(k))
}

proof fn lemma_key_code_injective(a: WallKey, b: WallKey)
    requires
        key_on_grid(a),
        key_on_grid(b),
        key_code(a) == key_code(b),
    ensures
        a == b,
{
}

fn code_of(key: WallKey) -> (code: u64)
    requires
        key_on_grid(key),
    ensures
        code == key_code(key),
{
    let flag: u64 = if key.0 { 1 } else { 0 };
    ((key.1 as u64) * 64 + key.2 as u64) * 2 + flag
}

/// Records the wall line `key` unless it was recorded before.
fn add_wall(seen: &mut HashSet<u64>, walls: &mut Vec<Wall>, key: WallKey, Ghost(keys): Ghost<
    Seq<WallKey>,
>)
    requires
        key_on_grid(key),
        records(old(seen)@, first_occurrences(keys)),
        old(walls)@ == first_occurrences(keys).map_values(|k: WallKey| wall_of_key(k)),
    ensures
        records(final(seen)@, first_occurrences(keys.push(key))),
        final(walls)@ == first_occurrences(keys.push(key)).map_values(|k: WallKey| wall_of_key(k)),
{
    broadcast use vstd::std_specs::hash::group_hash_axioms;
    broadcast use vstd::seq_lib::lemma_seq_contains_after_push;
    assert(keys.push(key).drop_last() =~= keys);
    let ghost fo = first_occurrences(keys);
    let ghost old_seen = seen@;
    let code = code_of(key);
    assert(old_seen.contains(code) <==> fo.contains(key));
    if seen.insert(code) {
        walls.push(segment(key));
        assert(walls@ =~= fo.push(key).map_values(|k: WallKey| wall_of_key(k)));
    }
    let ghost fo2 = first_occurrences(keys.push(key));
    assert forall|k: WallKey| key_on_grid(k) implies (seen@.contains(#[trigger] key_code(k))
        <==> fo2.contains(k)) by {
        if key_code(k) == code {
            lemma_key_code_injective(k, key);
        }
    }
}

/// Records the wall lines of the cell at row `r`, column `c`.
fn add_cell_walls(
    seen: &mut HashSet<u64>,
    walls: &mut Vec<Wall>,
    cell: &Cell,
    r: usize,
    c: usize,
    Ghost(keys): Ghost<Seq<WallKey>>,
)
    requires
        r < ROWS,
        c < COLS,
        records(old(seen)@, first_occurrences(keys)),
        old(walls)@ == first_occurrences(keys).map_values(|k: WallKey| wall_of_key(k)),
    ensures
        records(final(seen)@, first_occurrences(keys + keys_at(cell.walls@, r, c))),
        final(walls)@ == first_occurrences(keys + keys_at(cell.walls@, r, c)).map_values(
            |k: WallKey| wall_of_key(k),
        ),
{
    let ghost mut added = keys;
    if cell.walls[0] {
        add_wall(seen, walls, (true, r, c), Ghost(added));
        proof {
            added = added.push((true, r, c));
        }
    }
    if cell.walls[1] {
        if !(r == ROWS - 1 && c == COLS - 1) {
            add_wall(seen, walls, (false, r, c + 1), Ghost(added));
            proof {
                added = added.push((false, r, (c + 1) as usize));
            }
        }
    }
    if cell.walls[2] {
        add_wall(seen, walls, (true, r + 1, c), Ghost(added));
        proof {
            added = added.push((true, (r + 1) as usize, c));
        }
    }
    if cell.walls[3] {
        if !(r == 0 && c == 0) {
            add_wall(seen, walls, (false, r, c), Ghost(added));
            proof {
                added = added.push((false, r, c));
            }
        }
    }
    assert(added =~= keys + keys_at(cell.walls@, r, c));
}

/// The wall segments of a maze, one per distinct wall line.
pub fn build_maze_walls(grid: &[Cell]) -> (walls: Vec<Wall>)
    requires
        grid@.len() >= CELLS,
    ensures
        walls@ == maze_walls(grid_view(grid@)),
{
    let ghost g = grid_view(grid@);
    let mut walls: Vec<Wall> = Vec::new();
    let mut seen: HashSet<u64> = HashSet::new();
    for r in 0..ROWS
        invariant
            g == grid_view(grid@),
            grid@.len() >= CELLS,
            records(seen@, first_occurrences(candidate_keys(g, r * COLS))),
            walls@ == first_occurrences(candidate_keys(g, r * COLS)).map_values(|k: WallKey| wall_of_key(k)),
    {
        for c in 0..COLS
            invariant
                0 <= r < ROWS,
                g == grid_view(grid@),
                grid@.len() >= CELLS,
                records(seen@, first_occurrences(candidate_keys(g, r * COLS + c))),
                walls@ == first_occurrences(candidate_keys(g, r * COLS + c)).map_values(
                    |k: WallKey| wall_of_key(k),
                ),
        {
            let i = r * COLS + c;
            let cell = grid[i];
            proof {
                assert(i as int / COLS as int == r && i as int % COLS as int == c) by (nonlinear_arith)
                    requires
                        i == r * 16 + c,
                        0 <= c < 16,
                ;
                assert(g[i as int] == cell@);
                assert(candidate_keys(g, i + 1) == candidate_keys(g, i as int) + keys_at(cell.walls@, r, c));
            }
            add_cell_walls(&mut seen, &mut walls, &cell, r, c, Ghost(candidate_keys(g, i as int)));
        }
    }
    walls
}

/// A wall line on the grid: its row is at most `ROWS`, its column at most
/// `COLS`.
pub open spec fn key_on_grid(key: WallKey) -> bool {
    key.1 <= ROWS && key.2 <= COLS
}

proof fn lemma_first_occurrences(keys: Seq<WallKey>)
    ensures
        forall|i: int, j: int|
            0 <= i < j < first_occurrences(keys).len() ==> first_occurrences(keys)[i]
                != first_occurrences(keys)[j],
        forall|k: WallKey| #[trigger] first_occurrences(keys).contains(k) <==> keys.contains(k),
    decreases keys.len(),
{
    if keys.len() > 0 {
        let init = keys.drop_last();
        lemma_first_occurrences(init);
        let prev = first_occurrences(init);
        let fk = first_occurrences(keys);
        let last = keys.last();
        assert(fk == if prev.contains(last) { prev } else { prev.push(last) });
        assert forall|k: WallKey| #[trigger] fk.contains(k) <==> keys.contains(k) by {
            if prev.contains(k) {
                let j = choose|j: int| 0 <= j < prev.len() && prev[j] == k;
                assert(fk[j] == k);
                assert(init.contains(k));
                let i = choose|i: int| 0 <= i < init.len() && init[i] == k;
                assert(keys[i] == k);
            }
            if keys.contains(k) {
                let i = choose|i: int| 0 <= i < keys.len() && keys[i] == k;
                if i < keys.len() - 1 {
                    assert(init[i] == k);
                    assert(init.contains(k));
                } else if !prev.contains(k) {
                    assert(fk[prev.len() as int] == k);
                }
            }
            if fk.contains(k) && !prev.contains(k) {
                let j = choose|j: int| 0 <= j < fk.len() && fk[j] == k;
                if j < prev.len() {
                    assert(prev[j] == k);
                } else {
                    assert(keys[keys.len() - 1] == k);
                }
            }
        }
    }
}

proof fn lemma_candidate_keys_on_grid(grid: Seq<CellView>, n: int)
    requires
        n <= CELLS,
    ensures
        forall|k: WallKey| #[trigger] candidate_keys(grid, n).contains(k) ==> key_on_grid(k),
    decreases n,
{
    if n > 0 {
        lemma_candidate_keys_on_grid(grid, n - 1);
        let i = n - 1;
        let prev = candidate_keys(grid, n - 1);
        let mine = cell_keys(grid, i);
        assert((i / COLS as int) < ROWS && (i % COLS as int) < COLS) by (nonlinear_arith)
            requires
                0 <= i < 160,
        ;
        assert forall|k: WallKey| #[trigger] candidate_keys(grid, n).contains(k) implies key_on_grid(k) by {
            let j = choose|j: int| 0 <= j < candidate_keys(grid, n).len() && candidate_keys(grid, n)[j] == k;
            if j < prev.len() {
                assert(prev[j] == k);
                assert(prev.contains(k));
            } else {
                assert(mine[j - prev.len()] == k);
            }
        }
    }
}

proof fn lemma_wall_of_key_injective(a: WallKey, b: WallKey)
    requires
        key_on_grid(a),
        key_on_grid(b),
        wall_of_key(a) == wall_of_key(b),
    ensures
        a == b,
{
}

/// The walls of a maze are pairwise distinct, and the wall of a wall line
/// is among them exactly when some cell of the grid names that line: each
/// wall a cell still has, other than the west wall of the entrance cell and
/// the east wall of the exit cell.
pub proof fn lemma_maze_walls_distinct(grid: Seq<CellView>)
    ensures
        forall|i: int, j: int|
            0 <= i < j < maze_walls(grid).len() ==> maze_walls(grid)[i] != maze_walls(grid)[j],
        forall|k: WallKey|
            key_on_grid(k) ==> (#[trigger] maze_walls(grid).contains(wall_of_key(k))
                <==> candidate_keys(grid, CELLS as int).contains(k)),
{
    let keys = candidate_keys(grid, CELLS as int);
    let fo = first_occurrences(keys);
    let walls = maze_walls(grid);
    lemma_first_occurrences(keys);
    lemma_candidate_keys_on_grid(grid, CELLS as int);
    assert forall|i: int| 0 <= i < fo.len() implies key_on_grid(#[trigger] fo[i]) by {
        assert(fo.contains(fo[i]));
    }
    assert forall|i: int, j: int| 0 <= i < j < walls.len() implies walls[i] != walls[j] by {
        if walls[i] == walls[j] {
            lemma_wall_of_key_injective(fo[i], fo[j]);
        }
    }
    assert forall|k: WallKey| key_on_grid(k) implies (#[trigger] walls.contains(wall_of_key(k))
        <==> keys.contains(k)) by {
        if walls.contains(wall_of_key(k)) {
            let i = choose|i: int| 0 <= i < walls.len() && walls[i] == wall_of_key(k);
            lemma_wall_of_key_injective(fo[i], k);
            assert(fo.contains(k));
        }
        if keys.contains(k) {
            assert(fo.contains(k));
            let i = choose|i: int| 0 <= i < fo.len() && fo[i] == k;
            assert(walls[i] == wall_of_key(k));
        }
    }
}

/// The segment on the top edge of the cell in column `c` of the first row.
pub open spec fn top_edge(c: int) -> Wall {
    Wall { min_x: (50 * c) as i64, max_x: (50 * c + 50) as i64, min_y: -3i64, max_y: 3i64 }
}

/// The segment on the bottom edge of the cell in column `c` of the last row.
pub open spec fn bottom_edge(c: int) -> Wall {
    Wall { min_x: (50 * c) as i64, max_x: (50 * c + 50) as i64, min_y: 497, max_y: 503 }
}

/// The segment on the left edge of the cell in row `r` of the first column.
pub open spec fn left_edge(r: int) -> Wall {
    Wall { min_x: -3i64, max_x: 3i64, min_y: (50 * r) as i64, max_y: (50 * r + 50) as i64 }
}

/// The segment on the right edge of the cell in row `r` of the last column.
pub open spec fn right_edge(r: int) -> Wall {
    Wall { min_x: 797, max_x: 803, min_y: (50 * r) as i64, max_y: (50 * r + 50) as i64 }
}

proof fn lemma_cell_key_in_candidates(grid: Seq<CellView>, n: int, i: int, k: WallKey)
    requires
        0 <= i < n,
        cell_keys(grid, i).contains(k),
    ensures
        candidate_keys(grid, n).contains(k),
    decreases n,
{
    let prev = candidate_keys(grid, n - 1);
    let mine = cell_keys(grid, n - 1);
    assert(candidate_keys(grid, n) == prev + mine);
    if i < n - 1 {
        lemma_cell_key_in_candidates(grid, n - 1, i, k);
        let j = choose|j: int| 0 <= j < prev.len() && prev[j] == k;
        assert((prev + mine)[j] == k);
    } else {
        let j = choose|j: int| 0 <= j < mine.len() && mine[j] == k;
        assert((prev + mine)[prev.len() + j] == k);
    }
}

proof fn lemma_candidate_from_cell(grid: Seq<CellView>, n: int, k: WallKey)
    requires
        0 <= n,
        candidate_keys(grid, n).contains(k),
    ensures
        exists|i: int| 0 <= i < n && #[trigger] cell_keys(grid, i).contains(k),
    decreases n,
{
    if n > 0 {
        let prev = candidate_keys(grid, n - 1);
        let mine = cell_keys(grid, n - 1);
        assert(candidate_keys(grid, n) == prev + mine);
        let j = choose|j: int| 0 <= j < (prev + mine).len() && (prev + mine)[j] == k;
        if j < prev.len() {
            assert(prev[j] == k);
            assert(prev.contains(k));
            lemma_candidate_from_cell(grid, n - 1, k);
        } else {
            assert(mine[j - prev.len()] == k);
            assert(cell_keys(grid, n - 1).contains(k));
        }
    }
}

/// What the wall lines a cell names can be: its top edge, the left edge of
/// the next column, the top edge of the next row, and its own left edge.
proof fn lemma_keys_at_shape(walls: Seq<bool>, r: usize, c: usize, k: WallKey)
    requires
        keys_at(walls, r, c).contains(k),
    ensures
        k == (true, r, c) || (k == (false, r, (c + 1) as usize) && !(r == ROWS - 1 && c == COLS - 1))
            || k == (true, (r + 1) as usize, c) || (k == (false, r, c) && !(r == 0 && c == 0)),
{
    let j = choose|j: int| 0 <= j < keys_at(walls, r, c).len() && keys_at(walls, r, c)[j] == k;
}

/// Every maze whose cells sit where their indices say and whose outer
/// boundary is closed has a wall on every edge of that boundary except two:
/// the entrance on the left edge of the top-left cell and the exit on the
/// right edge of the bottom-right cell, neither of which has a wall.
#[verifier::rlimit(30)]
pub proof fn lemma_border_walls(grid: Seq<CellView>)
    requires
        grid_shape(grid),
        border_closed(grid),
    ensures
        forall|c: int| 0 <= c < COLS ==> maze_walls(grid).contains(#[trigger] top_edge(c)),
        forall|c: int| 0 <= c < COLS ==> maze_walls(grid).contains(#[trigger] bottom_edge(c)),
        forall|r: int| 1 <= r < ROWS ==> maze_walls(grid).contains(#[trigger] left_edge(r)),
        forall|r: int| 0 <= r < ROWS - 1 ==> maze_walls(grid).contains(#[trigger] right_edge(r)),
        !maze_walls(grid).contains(left_edge(0)),
        !maze_walls(grid).contains(right_edge(ROWS - 1)),
{
    lemma_maze_walls_distinct(grid);
    let walls = maze_walls(grid);
    let cands = candidate_keys(grid, CELLS as int);
    assert forall|c: int| 0 <= c < COLS implies walls.contains(#[trigger] top_edge(c)) by {
        let k: WallKey = (true, 0usize, c as usize);
        assert(wall_of_key(k) == top_edge(c));
        assert(c / 16 == 0 && c % 16 == c);
        assert(grid[c].walls[0]);
        assert(keys_at(grid[c].walls, 0, c as usize)[0] == k);
        lemma_cell_key_in_candidates(grid, CELLS as int, c, k);
    }
    assert forall|c: int| 0 <= c < COLS implies walls.contains(#[trigger] bottom_edge(c)) by {
        let i = 144 + c;
        let k: WallKey = (true, 10usize, c as usize);
        assert(wall_of_key(k) == bottom_edge(c));
        assert(i / 16 == 9 && i % 16 == c);
        assert(grid[i].walls[2]);
        let ks = keys_at(grid[i].walls, 9, c as usize);
        assert(ks.contains(k)) by {
            let north: Seq<WallKey> = if grid[i].walls[0] { seq![(true, 9usize, c as usize)] } else { Seq::empty() };
            let east: Seq<WallKey> = if grid[i].walls[1] && !(c == COLS - 1) { seq![(false, 9usize, (c + 1) as usize)] } else { Seq::empty() };
            assert(ks[(north.len() + east.len()) as int] == k);
        }
        lemma_cell_key_in_candidates(grid, CELLS as int, i, k);
    }
    assert forall|r: int| 1 <= r < ROWS implies walls.contains(#[trigger] left_edge(r)) by {
        let i = 16 * r;
        let k: WallKey = (false, r as usize, 0usize);
        assert(wall_of_key(k) == left_edge(r));
        assert(i / 16 == r && i % 16 == 0) by (nonlinear_arith)
            requires
                i == 16 * r,
                1 <= r < 10,
        ;
        assert(grid[i].walls[3]);
        let ks = keys_at(grid[i].walls, r as usize, 0);
        assert(ks.contains(k)) by {
            assert(ks[ks.len() - 1] == k);
        }
        lemma_cell_key_in_candidates(grid, CELLS as int, i, k);
    }
    assert forall|r: int| 0 <= r < ROWS - 1 implies walls.contains(#[trigger] right_edge(r)) by {
        let i = 16 * r + 15;
        let k: WallKey = (false, r as usize, 16usize);
        assert(wall_of_key(k) == right_edge(r));
        assert(i / 16 == r && i % 16 == 15) by (nonlinear_arith)
            requires
                i == 16 * r + 15,
                0 <= r < 9,
        ;
        assert(grid[i].walls[1]);
        let ks = keys_at(grid[i].walls, r as usize, 15);
        assert(ks.contains(k)) by {
            let north: Seq<WallKey> = if grid[i].walls[0] { seq![(true, r as usize, 15usize)] } else { Seq::empty() };
            assert(ks[north.len() as int] == k);
        }
        lemma_cell_key_in_candidates(grid, CELLS as int, i, k);
    }
    let entrance: WallKey = (false, 0usize, 0usize);
    let exit: WallKey = (false, 9usize, 16usize);
    assert(wall_of_key(entrance) == left_edge(0));
    assert(wall_of_key(exit) == right_edge(ROWS - 1));
    if cands.contains(entrance) {
        lemma_candidate_from_cell(grid, CELLS as int, entrance);
        let i = choose|i: int| 0 <= i < CELLS && #[trigger] cell_keys(grid, i).contains(entrance);
        assert((i / 16) < 10 && (i % 16) < 16) by (nonlinear_arith)
            requires
                0 <= i < 160,
        ;
        lemma_keys_at_shape(grid[i].walls, (i / 16) as usize, (i % 16) as usize, entrance);
    }
    if cands.contains(exit) {
        lemma_candidate_from_cell(grid, CELLS as int, exit);
        let i = choose|i: int| 0 <= i < CELLS && #[trigger] cell_keys(grid, i).contains(exit);
        assert((i / 16) < 10 && (i % 16) < 16) by (nonlinear_arith)
            requires
                0 <= i < 160,
        ;
        lemma_keys_at_shape(grid[i].walls, (i / 16) as usize, (i % 16) as usize, exit);
    }
}

/// The segment of a wall line on the grid, in the 50-pixel cells of the
/// drawing: the top edge of cell `(r, c)` spans `50c..50c+50` across and
/// `50r-3..50r+3` down; its left edge spans `50c-3..50c+3` across and
/// `50r..50r+50` down.
pub proof fn lemma_segment_geometry(key: WallKey)
    requires
        key_on_grid(key),
    ensures
        key.0 ==> wall_of_key(key) == (Wall {
            min_x: (50 * key.2) as i64,
            max_x: (50 * key.2 + 50) as i64,
            min_y: (50 * key.1 - 3) as i64,
            max_y: (50 * key.1 + 3) as i64,
        }),
        !key.0 ==> wall_of_key(key) == (Wall {
            min_x: (50 * key.2 - 3) as i64,
            max_x: (50 * key.2 + 3) as i64,
            min_y: (50 * key.1) as i64,
            max_y: (50 * key.1 + 50) as i64,
        }),
{
}

/// The generator state advances by 0x6D2B79F5 modulo 2^32, and a draw `v`
/// picks among `n` options the one at `v / 2^32 * n`, rounded down.
pub proof fn lemma_generator_steps(seed: u32, v: u32, n: int)
    requires
        0 < n,
    ensures
        advance_seed(seed) as int == (seed as int + 0x6D2B79F5) % 0x1_0000_0000,
        0 <= pick(v, n) < n,
        pick(v, n) * 0x1_0000_0000 <= v as int * n < (pick(v, n) + 1) * 0x1_0000_0000,
{
    assert(seed.wrapping_add(0x6D2B79F5) as int == (seed as int + 0x6D2B79F5) % 0x1_0000_0000)
        by (bit_vector);
    let p = pick(v, n);
    assert(0 <= p < n && p * 0x1_0000_0000 <= v as int * n < (p + 1) * 0x1_0000_0000) by (nonlinear_arith)
        requires
            p == (v as int * n) / 0x1_0000_0000,
            0 <= v < 0x1_0000_0000,
            0 < n,
    ;
}

/// The carving's choices from a cell are its unreached neighbours inside
/// the grid, each with the direction to it, in the order north, east,
/// south, west.
pub proof fn lemma_choice_order(grid: Seq<CellView>, current: int)
    requires
        grid_shape(grid),
        0 <= current < CELLS,
    ensures
        ({
            let r = current / 16;
            let c = current % 16;
            let ch = open_choices(grid, current);
            let north = r > 0 && !grid[current - 16].visited;
            let east = c < 15 && !grid[current + 1].visited;
            let south = r < 9 && !grid[current + 16].visited;
            let west = c > 0 && !grid[current - 1].visited;
            &&& ch.len() == (if north { 1int } else { 0 }) + (if east { 1int } else { 0 }) + (if south {
                1int
            } else {
                0
            }) + (if west { 1int } else { 0 })
            &&& forall|k: int|
                0 <= k < ch.len() ==> {
                    let (next, dir) = #[trigger] ch[k];
                    &&& dir == 0 ==> north && next == current - 16
                    &&& dir == 1 ==> east && next == current + 1
                    &&& dir == 2 ==> south && next == current + 16
                    &&& dir == 3 ==> west && next == current - 1
                    &&& 0 <= dir < 4
                }
            &&& forall|j: int, k: int| 0 <= j < k < ch.len() ==> ch[j].1 < ch[k].1
        }),
{
    let r = grid[current].r;
    let c = grid[current].c;
    assert(current == r * 16 + c);
    assert(r == current / 16 && c == current % 16);
}

} // verus!
