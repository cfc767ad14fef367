//! Which cells of a carved maze can be walked to from the entrance: exactly
//! the cells the carving reached.

use vstd::prelude::*;
use crate::maze::{
    Carving, CellView, carve, carved, grid_shape, is_move, opposite, open_choices, pick, mix,
    advance_seed, walls_agree, lemma_carved_maze_is_consistent, lemma_choices_in_range,
    lemma_choice_geometry, lemma_carve_cell, lemma_step, CELLS, COLS, ROWS,
};
use crate::route::{
    Pos, in_grid, pos_index, neighbour, step_open, is_walk, no_repeats, entrance, exit,
    exit_reachable, lemma_walk_in_grid, lemma_walk_prefix, lemma_pos_index_injective,
};

verus! {

/// The position of the cell with index `i`.
pub open spec fn pos_of(i: int) -> Pos {
    ((i / COLS as int) as usize, (i % COLS as int) as usize)
}

/// Some walk from the entrance ends on `p`.
pub open spec fn reaches(grid: Seq<CellView>, p: Pos) -> bool {
    exists|w: Seq<Pos>| is_walk(grid, w) && #[trigger] w.last() == p
}

/// Only cells the carving reached have lost a wall.
pub open spec fn open_walls_reached(grid: Seq<CellView>) -> bool {
    forall|i: int, d: int|
        0 <= i < CELLS && 0 <= d < 4 && !(#[trigger] grid[i].walls[d]) ==> grid[i].visited
}

/// Every cell the carving reached can be walked to from the entrance.
pub open spec fn reached_connected(grid: Seq<CellView>) -> bool {
    forall|i: int| 0 <= i < CELLS && (#[trigger] grid[i]).visited ==> reaches(grid, pos_of(i))
}

/// What every state of the carving keeps: the entrance cell, the current
/// cell and the cells on the stack are reached, walls are down only at
/// reached cells, and every reached cell is connected to the entrance.
spec fn linked(s: Carving) -> bool {
    &&& s.wf()
    &&& s.grid[0].visited
    &&& s.grid[s.current].visited
    &&& forall|k: int| 0 <= k < s.stack.len() ==> (#[trigger] s.grid[s.stack[k]]).visited
    &&& open_walls_reached(s.grid)
    &&& reached_connected(s.grid)
}

proof fn lemma_pos_of(i: int)
    requires
        0 <= i < CELLS,
    ensures
        in_grid(pos_of(i)),
        pos_index(pos_of(i)) == i,
        pos_of(i).0 == i / COLS as int,
        pos_of(i).1 == i % COLS as int,
{
    assert(i / 16 < 10 && i == (i / 16) * 16 + i % 16) by (nonlinear_arith)
        requires
            0 <= i < 160,
    ;
}

/// A carving move leads to the neighbour in the direction of the move.
proof fn lemma_move_neighbour(from: int, to: int, dir: int)
    requires
        is_move(from, to, dir),
    ensures
        neighbour(pos_of(from), dir) == Some(pos_of(to)),
{
    lemma_pos_of(from);
    assert(0 <= to < CELLS);
    lemma_pos_of(to);
    if dir == 0 {
        assert(to / 16 == from / 16 - 1 && to % 16 == from % 16) by (nonlinear_arith)
            requires
                to == from - 16,
                from >= 16,
        ;
    } else if dir == 1 {
        assert(to / 16 == from / 16 && to % 16 == from % 16 + 1) by (nonlinear_arith)
            requires
                to == from + 1,
                from >= 0,
                from % 16 != 15,
        ;
    } else if dir == 2 {
        assert(to / 16 == from / 16 + 1 && to % 16 == from % 16) by (nonlinear_arith)
            requires
                to == from + 16,
                from >= 0,
        ;
    } else {
        assert(to / 16 == from / 16 && to % 16 == from % 16 - 1) by (nonlinear_arith)
            requires
                to == from - 1,
                from >= 1,
                from % 16 != 0,
        ;
    }
}

/// What a carving move changes: the two walls between the cells come down
/// and the cell moved to is reached; nothing else changes.
#[verifier::rlimit(30)]
proof fn lemma_carve_facts(grid: Seq<CellView>, from: int, to: int, dir: int)
    requires
        grid_shape(grid),
        is_move(from, to, dir),
    ensures
        grid_shape(carve(grid, from, to, dir)),
        forall|i: int|
            0 <= i < CELLS ==> (#[trigger] carve(grid, from, to, dir)[i]).visited == (i == to
                || grid[i].visited),
        forall|i: int, d: int|
            0 <= i < CELLS && 0 <= d < 4 ==> #[trigger] carve(grid, from, to, dir)[i].walls[d] == if (
            i == from && d == dir) || (i == to && d == opposite(dir)) {
                false
            } else {
                grid[i].walls[d]
            },
{
    let g = carve(grid, from, to, dir);
    assert(0 <= to < CELLS && to != from);
    assert(g.len() == CELLS) by {
        reveal(carve);
    }
    assert forall|i: int| 0 <= i < CELLS implies (#[trigger] g[i]).visited == (i == to
        || grid[i].visited) by {
        reveal(carve);
    }
    assert forall|i: int, d: int| 0 <= i < CELLS && 0 <= d < 4 implies #[trigger] g[i].walls[d]
        == if (i == from && d == dir) || (i == to && d == opposite(dir)) {
        false
    } else {
        grid[i].walls[d]
    } by {
        lemma_carve_cell(grid, from, to, dir, i);
    }
    assert(grid_shape(g)) by {
        assert forall|i: int| 0 <= i < CELLS implies {
            &&& (#[trigger] g[i]).r == i / COLS as int
            &&& g[i].c == i % COLS as int
            &&& g[i].walls.len() == 4
        } by {
            lemma_carve_cell(grid, from, to, dir, i);
        }
    }
}

/// A walk stays a walk when walls only come down.
proof fn lemma_walk_survives(g: Seq<CellView>, g2: Seq<CellView>, w: Seq<Pos>)
    requires
        forall|i: int, d: int|
            0 <= i < CELLS && 0 <= d < 4 && !(#[trigger] g[i].walls[d]) ==> !g2[i].walls[d],
        is_walk(g, w),
    ensures
        is_walk(g2, w),
{
    assert forall|j: int| 0 <= j < w.len() - 1 implies step_open(g2, #[trigger] w[j], w[j + 1]) by {
        let a = w[j];
        let b = w[j + 1];
        assert(step_open(g, a, b));
        let d = choose|d: int|
            0 <= d < 4 && !g[pos_index(a)].walls[d] && #[trigger] neighbour(a, d) == Some(b);
        assert(!g2[pos_index(a)].walls[d]);
        assert(neighbour(a, d) == Some(b));
    }
}

/// A walk from the entrance to the cell a move starts from, extended by the
/// move, is a walk once the move has carved its passage.
#[verifier::rlimit(30)]
proof fn lemma_walk_extends(g2: Seq<CellView>, w: Seq<Pos>, from: int, to: int, dir: int)
    requires
        is_move(from, to, dir),
        is_walk(g2, w),
        w.last() == pos_of(from),
        !g2[from].walls[dir],
    ensures
        is_walk(g2, w.push(pos_of(to))),
        w.push(pos_of(to)).last() == pos_of(to),
{
    let w2 = w.push(pos_of(to));
    lemma_pos_of(from);
    lemma_move_neighbour(from, to, dir);
    assert(step_open(g2, pos_of(from), pos_of(to)));
    assert forall|j: int| 0 <= j < w2.len() - 1 implies step_open(g2, #[trigger] w2[j], w2[j + 1]) by {
        if j < w.len() - 1 {
            assert(w2[j] == w[j] && w2[j + 1] == w[j + 1]);
            assert(step_open(g2, w[j], w[j + 1]));
        } else {
            assert(w2[j] == pos_of(from));
        }
    }
}

proof fn lemma_start_linked(seed: u32)
    ensures
        linked(Carving::start(seed)),
{
    let s = Carving::start(seed);
    assert(s.wf());
    assert forall|i: int| 0 <= i < CELLS && (#[trigger] s.grid[i]).visited implies reaches(
        s.grid,
        pos_of(i),
    ) by {
        let w = seq![entrance()];
        assert(is_walk(s.grid, w));
        assert(w.last() == pos_of(0));
    }
}

/// A step of the carving keeps it linked.
#[verifier::rlimit(30)]
proof fn lemma_step_linked(s: Carving)
    requires
        linked(s),
        s.stack.len() > 0,
    ensures
        linked(s.step()),
{
    lemma_step(s);
    let choices = open_choices(s.grid, s.current);
    lemma_choices_in_range(s.grid, s.current);
    if choices.len() > 0 {
        let seed = advance_seed(s.seed);
        let k = pick(mix(seed), choices.len() as int);
        assert(0 <= k < choices.len()) by (nonlinear_arith)
            requires
                k == (mix(seed) as int * choices.len()) / 0x1_0000_0000,
                0 <= mix(seed) < 0x1_0000_0000,
                choices.len() > 0,
        ;
        lemma_choice_geometry(s.grid, s.current, k);
        let (next, dir) = choices[k];
        let g = s.grid;
        let g2 = carve(g, s.current, next, dir);
        assert(is_move(s.current, next, dir));
        lemma_carve_facts(g, s.current, next, dir);
        assert(s.step().grid == g2);
        assert(s.step().current == next);
        assert(s.step().stack == s.stack.push(next));
        assert forall|i: int, d: int|
            0 <= i < CELLS && 0 <= d < 4 && !(#[trigger] g[i].walls[d]) implies !g2[i].walls[d] by {
            assert(g2[i].walls[d] == g[i].walls[d] || !g2[i].walls[d]);
        }
        assert forall|kk: int| 0 <= kk < s.step().stack.len() implies (#[trigger] g2[s.step().stack[kk]]).visited by {
            if kk < s.stack.len() {
                assert(s.step().stack[kk] == s.stack[kk]);
                assert(g[s.stack[kk]].visited);
            }
        }
        assert forall|i: int, d: int|
            0 <= i < CELLS && 0 <= d < 4 && !(#[trigger] g2[i].walls[d]) implies g2[i].visited by {
            if !g[i].walls[d] {
                assert(g[i].visited);
            }
        }
        assert forall|i: int| 0 <= i < CELLS && (#[trigger] g2[i]).visited implies reaches(g2, pos_of(i)) by {
            if g[i].visited {
                let w = choose|w: Seq<Pos>| is_walk(g, w) && #[trigger] w.last() == pos_of(i);
                lemma_walk_survives(g, g2, w);
            } else {
                assert(i == next);
                assert(reaches(g, pos_of(s.current)));
                let w = choose|w: Seq<Pos>| is_walk(g, w) && #[trigger] w.last() == pos_of(s.current);
                lemma_walk_survives(g, g2, w);
                lemma_walk_extends(g2, w, s.current, next, dir);
            }
        }
    } else {
        assert(s.step().grid == s.grid);
        assert(s.grid[s.stack[s.stack.len() - 1]].visited);
        assert forall|kk: int| 0 <= kk < s.step().stack.len() implies (#[trigger] s.grid[s.step().stack[kk]]).visited by {
            assert(s.step().stack[kk] == s.stack[kk]);
        }
    }
}

proof fn lemma_run_linked(s: Carving, fuel: nat)
    requires
        linked(s),
    ensures
        linked(s.run(fuel)),
    decreases fuel,
{
    if fuel > 0 && s.stack.len() > 0 {
        lemma_step_linked(s);
        lemma_run_linked(s.step(), (fuel - 1) as nat);
    }
}

/// Where a step from an in-grid position leads, by cell index.
proof fn lemma_neighbour_index(a: Pos, d: int, b: Pos)
    requires
        in_grid(a),
        0 <= d < 4,
        neighbour(a, d) == Some(b),
    ensures
        in_grid(b),
        d == 0 ==> pos_index(b) + COLS == pos_index(a) && 0 <= pos_index(b) < CELLS - COLS,
        d == 1 ==> pos_index(b) == pos_index(a) + 1 && 0 <= pos_index(a) < CELLS && pos_index(a) % (
        COLS as int) != COLS - 1,
        d == 2 ==> pos_index(b) == pos_index(a) + COLS && 0 <= pos_index(a) < CELLS - COLS,
        d == 3 ==> pos_index(b) + 1 == pos_index(a) && 0 <= pos_index(b) < CELLS && pos_index(b) % (
        COLS as int) != COLS - 1,
{
    let x = pos_index(a);
    if d == 1 {
        assert(x % 16 != 15) by (nonlinear_arith)
            requires
                x == a.0 * 16 + a.1,
                0 <= a.1 < 15,
        ;
    } else if d == 3 {
        assert((x - 1) % 16 != 15) by (nonlinear_arith)
            requires
                x == a.0 * 16 + a.1,
                1 <= a.1 < 16,
        ;
    }
}

/// In a grid whose neighbouring cells agree on their walls and whose walls
/// are down only at reached cells, a step through an open wall lands on a
/// reached cell.
#[verifier::rlimit(30)]
proof fn lemma_open_step_reaches(g: Seq<CellView>, a: Pos, b: Pos)
    requires
        walls_agree(g),
        open_walls_reached(g),
        step_open(g, a, b),
    ensures
        g[pos_index(b)].visited,
{
    let d = choose|d: int|
        0 <= d < 4 && !g[pos_index(a)].walls[d] && #[trigger] neighbour(a, d) == Some(b);
    lemma_neighbour_index(a, d, b);
    let x = pos_index(a);
    let y = pos_index(b);
    if d == 0 {
        assert(!g[y].walls[2]) by {
            assert(g[y].walls[2] == g[y + COLS].walls[0]);
        }
    } else if d == 1 {
        assert(!g[y].walls[3]) by {
            assert(g[x].walls[1] == g[x + 1].walls[3]);
        }
    } else if d == 2 {
        assert(!g[y].walls[0]) by {
            assert(g[x].walls[2] == g[x + COLS].walls[0]);
        }
    } else {
        assert(!g[y].walls[1]) by {
            assert(g[y].walls[1] == g[y + 1].walls[3]);
        }
    }
}

/// In such a grid, every cell of a walk from a reached entrance is reached.
proof fn lemma_walk_on_reached(g: Seq<CellView>, w: Seq<Pos>, j: int)
    requires
        walls_agree(g),
        open_walls_reached(g),
        g[0].visited,
        is_walk(g, w),
        0 <= j < w.len(),
    ensures
        g[pos_index(w[j])].visited,
{
    if j > 0 {
        assert(step_open(g, w[j - 1], w[j]));
        lemma_open_step_reaches(g, w[j - 1], w[j]);
    }
}

/// In every maze the generator carves, a walk from the entrance leads to a
/// cell exactly when the carving reached that cell; in particular the exit
/// can be reached exactly when the carving reached the exit cell.
#[verifier::rlimit(30)]
pub proof fn lemma_carved_maze_connected(seed: u32)
    ensures
        forall|i: int|
            0 <= i < CELLS ==> ((#[trigger] carved(seed).grid[i]).visited <==> reaches(
                carved(seed).grid,
                pos_of(i),
            )),
        exit_reachable(carved(seed).grid) <==> carved(seed).grid[CELLS - 1].visited,
{
    let g = carved(seed).grid;
    lemma_start_linked(seed);
    lemma_run_linked(Carving::start(seed), crate::maze::carving_steps());
    lemma_carved_maze_is_consistent(seed);
    assert forall|i: int| 0 <= i < CELLS implies ((#[trigger] g[i]).visited <==> reaches(g, pos_of(i))) by {
        if reaches(g, pos_of(i)) {
            let w = choose|w: Seq<Pos>| is_walk(g, w) && #[trigger] w.last() == pos_of(i);
            lemma_walk_on_reached(g, w, w.len() - 1);
            lemma_pos_of(i);
        }
    }
    lemma_pos_of(CELLS - 1);
    assert(pos_of(CELLS - 1) == exit());
    if exit_reachable(g) {
        let w = choose|w: Seq<Pos>| is_walk(g, w) && #[trigger] w.last() == exit();
        assert(reaches(g, pos_of(CELLS - 1)));
    }
    if g[CELLS - 1].visited {
        assert(reaches(g, pos_of(CELLS - 1)));
        let w = choose|w: Seq<Pos>| is_walk(g, w) && #[trigger] w.last() == pos_of(CELLS - 1);
        assert(w.last() == exit());
    }
}

/// `parent` makes the passages of `grid` a tree hanging from the entrance
/// cell: the entrance cell has no parent, and every passage joins two
/// reached cells one of which is the parent of the other.
pub open spec fn passage_tree(grid: Seq<CellView>, parent: Seq<int>) -> bool {
    &&& parent.len() == CELLS
    &&& parent[0] == -1
    &&& forall|i: int, j: int, d: int|
        #![trigger is_move(i, j, d), grid[i].walls[d]]
        is_move(i, j, d) && !grid[i].walls[d] ==> grid[i].visited && grid[j].visited && (parent[j]
            == i || parent[i] == j)
}

proof fn lemma_start_tree(seed: u32)
    ensures
        passage_tree(Carving::start(seed).grid, Seq::new(CELLS as nat, |i: int| -1int)),
{
}

/// A step of the carving keeps a tree of passages: the cell moved to
/// hangs from the cell moved from.
#[verifier::rlimit(30)]
proof fn lemma_step_tree(s: Carving, parent: Seq<int>) -> (next_parent: Seq<int>)
    requires
        linked(s),
        s.stack.len() > 0,
        passage_tree(s.grid, parent),
    ensures
        passage_tree(s.step().grid, next_parent),
{
    let choices = open_choices(s.grid, s.current);
    lemma_choices_in_range(s.grid, s.current);
    if choices.len() > 0 {
        let seed = advance_seed(s.seed);
        let k = pick(mix(seed), choices.len() as int);
        assert(0 <= k < choices.len()) by (nonlinear_arith)
            requires
                k == (mix(seed) as int * choices.len()) / 0x1_0000_0000,
                0 <= mix(seed) < 0x1_0000_0000,
                choices.len() > 0,
        ;
        lemma_choice_geometry(s.grid, s.current, k);
        let (next, dir) = choices[k];
        let from = s.current;
        let g = s.grid;
        let g2 = carve(g, from, next, dir);
        assert(is_move(from, next, dir));
        lemma_carve_facts(g, from, next, dir);
        assert(s.step().grid == g2);
        assert(next != 0);
        let p2 = parent.update(next, from);
        assert forall|i: int, j: int, d: int|
            #![trigger is_move(i, j, d), g2[i].walls[d]]
            is_move(i, j, d) && !g2[i].walls[d] implies g2[i].visited && g2[j].visited && (p2[j] == i
                || p2[i] == j) by {
            assert(0 <= j < CELLS);
            if i == from && d == dir {
                assert(j == next);
            } else if i == next && d == opposite(dir) {
                assert(j == from);
            } else {
                assert(!g[i].walls[d]);
                assert(g[i].visited && g[j].visited && (parent[j] == i || parent[i] == j));
            }
        }
        p2
    } else {
        assert(s.step().grid == s.grid);
        parent
    }
}

proof fn lemma_run_tree(s: Carving, fuel: nat, parent: Seq<int>)
    requires
        linked(s),
        passage_tree(s.grid, parent),
    ensures
        exists|p: Seq<int>| passage_tree(s.run(fuel).grid, p),
    decreases fuel,
{
    if fuel > 0 && s.stack.len() > 0 {
        lemma_step_linked(s);
        let p2 = lemma_step_tree(s, parent);
        lemma_run_tree(s.step(), (fuel - 1) as nat, p2);
        assert(s.run(fuel) == s.step().run((fuel - 1) as nat));
    } else {
        assert(passage_tree(s.run(fuel).grid, parent));
    }
}

/// A step through an open wall is a carving move between the two cells'
/// indices.
proof fn lemma_open_step_move(g: Seq<CellView>, a: Pos, b: Pos) -> (d: int)
    requires
        step_open(g, a, b),
    ensures
        is_move(pos_index(a), pos_index(b), d),
        !g[pos_index(a)].walls[d],
        in_grid(b),
{
    let d = choose|d: int|
        0 <= d < 4 && !g[pos_index(a)].walls[d] && #[trigger] neighbour(a, d) == Some(b);
    lemma_neighbour_index(a, d, b);
    let x = pos_index(a);
    let y = pos_index(b);
    if d == 0 {
        assert(x / 16 > 0) by (nonlinear_arith)
            requires
                x >= 16,
        ;
    } else if d == 2 {
        assert(x / 16 < 9) by (nonlinear_arith)
            requires
                0 <= x < 144,
        ;
    } else if d == 3 {
        assert(x % 16 != 0) by (nonlinear_arith)
            requires
                x == y + 1,
                y >= 0,
                y % 16 != 15,
        ;
    }
    d
}

/// Along a walk from the entrance that visits no cell twice, every cell is
/// the parent of the next one.
proof fn lemma_simple_walk_descends(g: Seq<CellView>, parent: Seq<int>, w: Seq<Pos>, j: int)
    requires
        passage_tree(g, parent),
        is_walk(g, w),
        no_repeats(w),
        1 <= j < w.len(),
    ensures
        parent[pos_index(w[j])] == pos_index(w[j - 1]),
    decreases j,
{
    let a = w[j - 1];
    let b = w[j];
    assert(step_open(g, a, b));
    let d = lemma_open_step_move(g, a, b);
    let x = pos_index(a);
    let y = pos_index(b);
    assert(parent[y] == x || parent[x] == y);
    if j >= 2 {
        lemma_simple_walk_descends(g, parent, w, j - 1);
        if parent[x] == y {
            lemma_walk_in_grid(g, w, j - 2);
            lemma_walk_in_grid(g, w, j);
            lemma_pos_index_injective(w[j - 2], b);
        }
    }
}

/// In a maze whose passages form a tree, two walks from the entrance that
/// end on the same cell and visit no cell twice are the same walk.
proof fn lemma_simple_walks_equal(g: Seq<CellView>, parent: Seq<int>, w1: Seq<Pos>, w2: Seq<Pos>)
    requires
        passage_tree(g, parent),
        is_walk(g, w1),
        no_repeats(w1),
        is_walk(g, w2),
        no_repeats(w2),
        w1.last() == w2.last(),
    ensures
        w1 == w2,
    decreases w1.len(),
{
    let n1 = w1.len() as int;
    let n2 = w2.len() as int;
    if n1 == 1 || n2 == 1 {
        if n1 > 1 {
            assert(w1[0] == w1[n1 - 1]);
        }
        if n2 > 1 {
            assert(w2[0] == w2[n2 - 1]);
        }
        assert(w1 =~= w2);
    } else {
        lemma_simple_walk_descends(g, parent, w1, n1 - 1);
        lemma_simple_walk_descends(g, parent, w2, n2 - 1);
        lemma_walk_in_grid(g, w1, n1 - 2);
        lemma_walk_in_grid(g, w2, n2 - 2);
        lemma_pos_index_injective(w1[n1 - 2], w2[n2 - 2]);
        lemma_walk_prefix(g, w1, n1 - 1);
        lemma_walk_prefix(g, w2, n2 - 1);
        let p1 = w1.subrange(0, n1 - 1);
        let p2 = w2.subrange(0, n2 - 1);
        assert(no_repeats(p1)) by {
            assert forall|i: int, j: int| 0 <= i < j < p1.len() implies p1[i] != p1[j] by {
                assert(p1[i] == w1[i] && p1[j] == w1[j]);
            }
        }
        assert(no_repeats(p2)) by {
            assert forall|i: int, j: int| 0 <= i < j < p2.len() implies p2[i] != p2[j] by {
                assert(p2[i] == w2[i] && p2[j] == w2[j]);
            }
        }
        lemma_simple_walks_equal(g, parent, p1, p2);
        assert(w1 =~= p1.push(w1.last()));
        assert(w2 =~= p2.push(w2.last()));
    }
}

/// In every maze the generator carves, the passages form a tree: two walks
/// from the entrance that end on the same cell and visit no cell twice are
/// the same walk. In particular there is at most one route from the
/// entrance to the exit.
pub proof fn lemma_carved_maze_routes_unique(seed: u32, w1: Seq<Pos>, w2: Seq<Pos>)
    requires
        is_walk(carved(seed).grid, w1),
        no_repeats(w1),
        is_walk(carved(seed).grid, w2),
        no_repeats(w2),
        w1.last() == w2.last(),
    ensures
        w1 == w2,
{
    let parent = Seq::new(CELLS as nat, |i: int| -1int);
    lemma_start_linked(seed);
    lemma_start_tree(seed);
    lemma_run_tree(Carving::start(seed), crate::maze::carving_steps(), parent);
    let p = choose|p: Seq<int>| passage_tree(carved(seed).grid, p);
    lemma_simple_walks_equal(carved(seed).grid, p, w1, w2);
}

} // verus!
