//! The route through a maze: a breadth-first search from the entrance cell
//! to the exit cell, and the checkpoints placed along the route.

use vstd::prelude::*;
use std::collections::{HashSet, VecDeque};
use crate::maze::{Cell, CellView, grid_view, cell_index, ROWS, COLS, CELLS, CELL_SIZE};

verus! {

/// A cell position: row, column.
pub type Pos = (usize, usize);

/// The cell the search starts from.
pub open spec fn entrance() -> Pos {
    (0, 0)
}

/// The cell the search looks for.
pub open spec fn exit() -> Pos {
    ((ROWS - 1) as usize, (COLS - 1) as usize)
}

pub open spec fn in_grid(p: Pos) -> bool {
    p.0 < ROWS && p.1 < COLS
}

pub open spec fn pos_index(p: Pos) -> int {
    cell_index(p.0 as int, p.1 as int)
}

/// The position one step from `p` in direction `dir` (north, east, south,
/// west), if it is inside the grid.
pub open spec fn neighbour(p: Pos, dir: int) -> Option<Pos> {
    if dir == 0 {
        if p.0 > 0 { Some(((p.0 - 1) as usize, p.1)) } else { None }
    } else if dir == 1 {
        if p.1 + 1 < COLS { Some((p.0, (p.1 + 1) as usize)) } else { None }
    } else if dir == 2 {
        if p.0 + 1 < ROWS { Some(((p.0 + 1) as usize, p.1)) } else { None }
    } else {
        if p.1 > 0 { Some((p.0, (p.1 - 1) as usize)) } else { None }
    }
}

/// One can step from `a` to `b`: `b` neighbours `a` in a direction in which
/// `a`'s wall is down.
pub open spec fn step_open(grid: Seq<CellView>, a: Pos, b: Pos) -> bool {
    &&& in_grid(a)
    &&& exists|dir: int|
        0 <= dir < 4 && !grid[pos_index(a)].walls[dir] && #[trigger] neighbour(a, dir) == Some(b)
}

/// A walk from the entrance through open walls.
pub open spec fn is_walk(grid: Seq<CellView>, path: Seq<Pos>) -> bool {
    &&& path.len() > 0
    &&& path[0] == entrance()
    &&& forall|i: int| 0 <= i < path.len() - 1 ==> step_open(grid, #[trigger] path[i], path[i + 1])
}

/// No position occurs twice.
pub open spec fn no_repeats(path: Seq<Pos>) -> bool {
    forall|i: int, j: int| 0 <= i < j < path.len() ==> path[i] != path[j]
}

/// A walk from the entrance to the exit that visits no cell twice.
pub open spec fn is_route(grid: Seq<CellView>, path: Seq<Pos>) -> bool {
    &&& is_walk(grid, path)
    &&& path.last() == exit()
    &&& no_repeats(path)
}

/// Some walk leads from the entrance to the exit.
pub open spec fn exit_reachable(grid: Seq<CellView>) -> bool {
    exists|path: Seq<Pos>| is_walk(grid, path) && #[trigger] path.last() == exit()
}

/// A cell the search has reached, with the walk that reached it.
pub struct PathNode {
    pub r: usize,
    pub c: usize,
    pub path: Vec<Pos>,
}

/// The number of unreached cells.
pub open spec fn unmarked(v: Seq<bool>) -> nat
    decreases v.len(),
{
    if v.len() == 0 {
        0
    } else {
        unmarked(v.drop_last()) + if v.last() {
            0nat
        } else {
            1nat
        }
    }
}

proof fn lemma_unmarked_mark(v: Seq<bool>, i: int)
    requires
        0 <= i < v.len(),
        !v[i],
    ensures
        unmarked(v.update(i, true)) + 1 == unmarked(v),
    decreases v.len(),
{
    let w = v.update(i, true);
    if i == v.len() - 1 {
        assert(w.drop_last() =~= v.drop_last());
    } else {
        assert(w.drop_last() =~= v.drop_last().update(i, true));
        lemma_unmarked_mark(v.drop_last(), i);
    }
}

/// The reached flags of the cells, from the set of reached cell indices.
pub open spec fn flags(reached: Set<u64>) -> Seq<bool> {
    Seq::new(CELLS as nat, |i: int| reached.contains(i as u64))
}

/// The cell positions of the queued nodes, as cell indices.
pub open spec fn queued(queue: Seq<PathNode>) -> Seq<int> {
    queue.map_values(|n: PathNode| cell_index(n.r as int, n.c as int))
}

/// No element occurs twice.
pub open spec fn all_distinct(s: Seq<int>) -> bool {
    forall|i: int, j: int| 0 <= i < j < s.len() ==> s[i] != s[j]
}

/// A queued node is well formed: it sits in the grid on a reached cell, and
/// its walk is a walk from the entrance to it through reached cells that
/// visits no cell twice.
pub open spec fn node_ok(grid: Seq<CellView>, visited: Seq<bool>, n: PathNode) -> bool {
    &&& in_grid((n.r, n.c))
    &&& visited[pos_index((n.r, n.c))]
    &&& is_walk(grid, n.path@)
    &&& n.path@.last() == (n.r, n.c)
    &&& no_repeats(n.path@)
    &&& forall|j: int|
        0 <= j < n.path@.len() ==> in_grid(#[trigger] n.path@[j]) && visited[pos_index(
            n.path@[j],
        )]
}

/// Every reached cell that has left the queue has all its open
/// neighbours reached.
pub open spec fn closed_outside_queue(grid: Seq<CellView>, visited: Seq<bool>, queue: Seq<PathNode>) -> bool {
    forall|a: Pos, b: Pos|
        #![trigger step_open(grid, a, b), visited[pos_index(a)]]
        in_grid(a) && visited[pos_index(a)] && !queued(queue).contains(pos_index(a)) && step_open(
            grid,
            a,
            b,
        ) ==> visited[pos_index(b)]
}

/// No walk from the entrance to `p` has fewer than `n` cells.
pub open spec fn no_shorter_walk(grid: Seq<CellView>, p: Pos, n: int) -> bool {
    forall|w: Seq<Pos>| #[trigger] is_walk(grid, w) && w.last() == p ==> n <= w.len()
}

/// The direction of the step from `a` to a neighbouring `b`, numbered in
/// the order the search tries them: 0 north, 1 east, 2 south, 3 west.
pub open spec fn step_code(a: Pos, b: Pos) -> int {
    if b.0 + 1 == a.0 && b.1 == a.1 {
        0
    } else if b.0 == a.0 && b.1 == a.1 + 1 {
        1
    } else if b.0 == a.0 + 1 && b.1 == a.1 {
        2
    } else {
        3
    }
}

/// `v` and `w` agree on their first `k` cells and then `v` turns in a
/// direction the search tries before the one `w` turns in.
pub open spec fn turns_earlier_at(v: Seq<Pos>, w: Seq<Pos>, k: int) -> bool {
    &&& 1 <= k < v.len()
    &&& k < w.len()
    &&& forall|j: int| 0 <= j < k ==> v[j] == w[j]
    &&& step_code(v[k - 1], v[k]) < step_code(w[k - 1], w[k])
}

/// `v` comes before `w` in the order in which a breadth-first search that
/// tries north, east, south and west in turn meets walks: they have the
/// same number of cells, and where they first part, `v` turns in a
/// direction tried earlier.
pub open spec fn walk_before(v: Seq<Pos>, w: Seq<Pos>) -> bool {
    &&& v.len() == w.len()
    &&& exists|k: int| #[trigger] turns_earlier_at(v, w, k)
}

/// Two walks of the same length to the same cell that each come first
/// among such walks are the same walk: `first_walk` picks at most one.
pub proof fn lemma_first_walk_unique(grid: Seq<CellView>, p: Pos, v: Seq<Pos>, w: Seq<Pos>)
    requires
        is_walk(grid, v),
        is_walk(grid, w),
        v.last() == p,
        w.last() == p,
        v.len() == w.len(),
        first_walk(grid, p, v),
        first_walk(grid, p, w),
    ensures
        v == w,
{
    if v != w {
        assert(walk_before(v, w));
        assert(walk_before(w, v));
        lemma_walk_before_transitive(v, w, v);
        lemma_walk_before_irreflexive(v);
    }
}

proof fn lemma_step_code(a: Pos, d: int)
    requires
        0 <= d < 4,
        neighbour(a, d) is Some,
    ensures
        step_code(a, neighbour(a, d)->0) == d,
{
}

proof fn lemma_walk_before_irreflexive(v: Seq<Pos>)
    ensures
        !walk_before(v, v),
{
}

proof fn lemma_walk_before_transitive(a: Seq<Pos>, b: Seq<Pos>, c: Seq<Pos>)
    requires
        walk_before(a, b),
        walk_before(b, c),
    ensures
        walk_before(a, c),
{
    let k1 = choose|k: int| #[trigger] turns_earlier_at(a, b, k);
    let k2 = choose|k: int| #[trigger] turns_earlier_at(b, c, k);
    if k1 < k2 {
        assert(b[k1] == c[k1] && b[k1 - 1] == c[k1 - 1]);
        assert(turns_earlier_at(a, c, k1));
    } else if k2 < k1 {
        assert(a[k2] == b[k2] && a[k2 - 1] == b[k2 - 1]);
        assert(turns_earlier_at(a, c, k2));
    } else {
        assert(turns_earlier_at(a, c, k1));
    }
}

proof fn lemma_walk_before_extend(v: Seq<Pos>, w: Seq<Pos>, x: Pos, y: Pos)
    requires
        walk_before(v, w),
    ensures
        walk_before(v.push(x), w.push(y)),
{
    let k = choose|k: int| #[trigger] turns_earlier_at(v, w, k);
    assert(turns_earlier_at(v.push(x), w.push(y), k));
}

proof fn lemma_walk_before_turn(v: Seq<Pos>, x: Pos, y: Pos)
    requires
        v.len() > 0,
        step_code(v.last(), x) < step_code(v.last(), y),
    ensures
        walk_before(v.push(x), v.push(y)),
{
    assert(turns_earlier_at(v.push(x), v.push(y), v.len() as int));
}

/// No other walk from the entrance to `p` with as many cells as `path`
/// comes before `path`.
pub open spec fn first_walk(grid: Seq<CellView>, p: Pos, path: Seq<Pos>) -> bool {
    forall|w: Seq<Pos>|
        #[trigger] is_walk(grid, w) && w.last() == p && w.len() == path.len() ==> w == path
            || walk_before(path, w)
}

/// Shorter walks are queued first, and walks of equal length in the order
/// of `walk_before`.
spec fn queue_ordered(queue: Seq<PathNode>) -> bool {
    forall|i: int, j: int|
        #![trigger queue[i], queue[j]]
        0 <= i < j < queue.len() ==> queue[i].path@.len() < queue[j].path@.len() || walk_before(
            queue[i].path@,
            queue[j].path@,
        )
}

/// The walk of every queued node is the first walk of its length to its
/// cell.
spec fn queue_first_walks(grid: Seq<CellView>, queue: Seq<PathNode>) -> bool {
    forall|k: int|
        #![trigger queue[k]]
        0 <= k < queue.len() ==> first_walk(grid, (queue[k].r, queue[k].c), queue[k].path@)
}

/// `prev`, the walk of the node taken from the queue last, comes before the
/// queued walks of `level` cells when it has `level` cells itself, and every
/// queued walk of `level + 1` cells extends `prev` or a walk before it.
spec fn after_prev(queue: Seq<PathNode>, level: int, prev: Seq<Pos>) -> bool {
    &&& prev.len() == level ==> forall|k: int|
        #![trigger queue[k]]
        0 <= k < queue.len() && queue[k].path@.len() == level ==> walk_before(prev, queue[k].path@)
    &&& forall|k: int|
        #![trigger queue[k]]
        0 <= k < queue.len() && queue[k].path@.len() == level + 1 ==> prev.len() == level && (
        queue[k].path@.drop_last() == prev || walk_before(queue[k].path@.drop_last(), prev))
}

/// Every walk of as many cells as `path` that ends next to an unreached
/// cell is `path` or comes after it.
spec fn frontier_first(grid: Seq<CellView>, visited: Seq<bool>, path: Seq<Pos>) -> bool {
    forall|w: Seq<Pos>, y: Pos|
        #![trigger is_walk(grid, w), step_open(grid, w.last(), y)]
        is_walk(grid, w) && w.len() == path.len() && step_open(grid, w.last(), y) && !visited[pos_index(
            y,
        )] ==> w == path || walk_before(path, w)
}

/// The queued walks that extend `path` by one cell step in directions
/// before `dir`.
spec fn pushed_before(queue: Seq<PathNode>, path: Seq<Pos>, dir: int) -> bool {
    forall|k: int|
        #![trigger queue[k]]
        0 <= k < queue.len() && queue[k].path@.len() == path.len() + 1 && queue[k].path@.drop_last()
            == path ==> step_code(path.last(), queue[k].path@.last()) < dir
}

/// The walks in the queue have between `level` and `level + 1` cells, never
/// fewer than the walks queued before them, and each is as short as any
/// walk to its cell.
spec fn levels_ok(grid: Seq<CellView>, queue: Seq<PathNode>, level: int) -> bool {
    &&& forall|k: int|
        #![trigger queue[k]]
        0 <= k < queue.len() ==> level <= queue[k].path@.len() <= level + 1
    &&& forall|i: int, j: int|
        #![trigger queue[i], queue[j]]
        0 <= i < j < queue.len() ==> queue[i].path@.len() <= queue[j].path@.len()
    &&& forall|k: int|
        #![trigger queue[k]]
        0 <= k < queue.len() ==> no_shorter_walk(grid, (queue[k].r, queue[k].c), queue[k].path@.len() as int)
}

/// Every cell that a walk of fewer than `level` cells ends on is reached and
/// has left the queue.
spec fn settled_below(grid: Seq<CellView>, visited: Seq<bool>, queue: Seq<PathNode>, level: int) -> bool {
    forall|w: Seq<Pos>|
        #[trigger] is_walk(grid, w) && w.len() < level ==> visited[pos_index(w.last())]
            && !queued(queue).contains(pos_index(w.last()))
}

/// Every cell that a walk of at most `level` cells ends on is reached.
spec fn visited_within(grid: Seq<CellView>, visited: Seq<bool>, level: int) -> bool {
    forall|w: Seq<Pos>| #[trigger] is_walk(grid, w) && w.len() <= level ==> visited[pos_index(w.last())]
}

/// From `(q, v)` to `(q2, v2)` the search only adds: queued cells stay
/// queued, newly reached cells are queued, and reached cells stay reached.
spec fn grows(q: Seq<PathNode>, v: Seq<bool>, q2: Seq<PathNode>, v2: Seq<bool>) -> bool {
    &&& forall|i: int| #[trigger] queued(q).contains(i) ==> queued(q2).contains(i)
    &&& forall|i: int| 0 <= i < CELLS && v2[i] && !v[i] ==> #[trigger] queued(q2).contains(i)
    &&& forall|i: int| 0 <= i < CELLS && v[i] ==> #[trigger] v2[i]
}

/// If the wall of `here` in direction `dir` is down, its neighbour there is
/// reached.
spec fn opened_toward(grid: Seq<CellView>, here: Pos, dir: int, v: Seq<bool>) -> bool {
    forall|b: Pos|
        !grid[pos_index(here)].walls[dir] && #[trigger] neighbour(here, dir) == Some(b) ==> v[pos_index(b)]
}

/// The position one step from `(r, c)` in direction `dir`, if inside the
/// grid.
fn step_to(r: usize, c: usize, dir: usize) -> (next: Option<Pos>)
    requires
        r < ROWS,
        c < COLS,
        dir < 4,
    ensures
        next == neighbour((r, c), dir as int),
{
    if dir == 0 {
        if r > 0 { Some((r - 1, c)) } else { None }
    } else if dir == 1 {
        if c + 1 < COLS { Some((r, c + 1)) } else { None }
    } else if dir == 2 {
        if r + 1 < ROWS { Some((r + 1, c)) } else { None }
    } else {
        if c > 0 { Some((r, c - 1)) } else { None }
    }
}

proof fn lemma_neighbour_in_grid(p: Pos, dir: int)
    requires
        in_grid(p),
    ensures
        neighbour(p, dir) matches Some(q) ==> in_grid(q) && q != p,
{
}

/// Reaching one more cell keeps every walk of at most `m` cells ending on a
/// reached cell.
#[verifier::rlimit(30)]
proof fn lemma_mark_keeps_within(g: Seq<CellView>, old_visited: Seq<bool>, new_visited: Seq<bool>, idx: int, m: int)
    requires
        old_visited.len() == CELLS,
        0 <= idx < CELLS,
        new_visited == old_visited.update(idx, true),
        visited_within(g, old_visited, m),
    ensures
        visited_within(g, new_visited, m),
{
    assert forall|w: Seq<Pos>| #[trigger] is_walk(g, w) && w.len() <= m implies new_visited[pos_index(
        w.last(),
    )] by {
        lemma_walk_in_grid(g, w, w.len() - 1);
        assert(old_visited[pos_index(w.last())]);
    }
}

/// Queueing a walk of `m + 1` cells to a cell that no walk of at most `m`
/// cells reaches keeps the level invariants at level `m`.
#[verifier::rlimit(30)]
proof fn lemma_push_keeps_levels(
    g: Seq<CellView>,
    old_visited: Seq<bool>,
    old_queue: Seq<PathNode>,
    node: PathNode,
    m: int,
)
    requires
        !old_visited[pos_index((node.r, node.c))],
        node.path@.len() == m + 1,
        visited_within(g, old_visited, m),
        levels_ok(g, old_queue, m),
    ensures
        levels_ok(g, old_queue.push(node), m),
{
    let queue = old_queue.push(node);
    let b: Pos = (node.r, node.c);
    assert forall|k: int| 0 <= k < queue.len() implies m <= #[trigger] queue[k].path@.len() <= m + 1 by {
        if k < old_queue.len() {
            assert(queue[k] == old_queue[k]);
        }
    }
    assert forall|i: int, j: int| 0 <= i < j < queue.len() implies #[trigger] queue[i].path@.len()
        <= #[trigger] queue[j].path@.len() by {
        assert(queue[i] == old_queue[i]);
        if j < old_queue.len() {
            assert(queue[j] == old_queue[j]);
        }
    }
    assert(no_shorter_walk(g, b, m + 1)) by {
        assert forall|w: Seq<Pos>| #[trigger] is_walk(g, w) && w.last() == b implies m + 1 <= w.len() by {
            if w.len() <= m {
                assert(old_visited[pos_index(w.last())]);
            }
        }
    }
    assert forall|k: int| 0 <= k < queue.len() implies no_shorter_walk(
        g,
        (#[trigger] queue[k].r, queue[k].c),
        queue[k].path@.len() as int,
    ) by {
        if k < old_queue.len() {
            assert(queue[k] == old_queue[k]);
        }
    }
}

/// Queueing a cell that was not reached before, and reaching it, keeps the
/// cells of walks shorter than `m` settled.
#[verifier::rlimit(30)]
proof fn lemma_push_keeps_settled(
    g: Seq<CellView>,
    old_visited: Seq<bool>,
    old_queue: Seq<PathNode>,
    new_visited: Seq<bool>,
    node: PathNode,
    m: int,
)
    requires
        old_visited.len() == CELLS,
        0 <= pos_index((node.r, node.c)) < CELLS,
        !old_visited[pos_index((node.r, node.c))],
        new_visited == old_visited.update(pos_index((node.r, node.c)), true),
        settled_below(g, old_visited, old_queue, m),
    ensures
        settled_below(g, new_visited, old_queue.push(node), m),
{
    let queue = old_queue.push(node);
    let idx = pos_index((node.r, node.c));
    assert(queued(queue) =~= queued(old_queue).push(idx));
    assert forall|w: Seq<Pos>| #[trigger] is_walk(g, w) && w.len() < m implies new_visited[pos_index(
        w.last(),
    )] && !queued(queue).contains(pos_index(w.last())) by {
        lemma_walk_in_grid(g, w, w.len() - 1);
        assert(old_visited[pos_index(w.last())]);
        assert(!queued(old_queue).contains(pos_index(w.last())));
        if queued(queue).contains(pos_index(w.last())) {
            let k = choose|k: int| 0 <= k < queued(queue).len() && queued(queue)[k] == pos_index(w.last());
            if k < queued(old_queue).len() {
                assert(queued(old_queue)[k] == pos_index(w.last()));
            }
        }
    }
}

/// Reaches the neighbour of `(r, c)` in direction `dir` if the wall toward
/// it is down and it was not reached before, queueing it with `path`
/// extended by it.
fn visit_neighbour(
    grid: &[Cell],
    visited: &mut HashSet<u64>,
    queue: &mut VecDeque<PathNode>,
    r: usize,
    c: usize,
    path: &Vec<Pos>,
    dir: usize,
)
    requires
        grid@.len() >= CELLS,
        flags(old(visited)@).len() == CELLS,
        dir < 4,
        node_ok(grid_view(grid@), flags(old(visited)@), PathNode { r, c, path: *path }),
        forall|k: int|
            0 <= k < old(queue)@.len() ==> node_ok(
                grid_view(grid@),
                flags(old(visited)@),
                #[trigger] old(queue)@[k],
            ),
        visited_within(grid_view(grid@), flags(old(visited)@), path@.len() as int),
        levels_ok(grid_view(grid@), old(queue)@, path@.len() as int),
        queue_ordered(old(queue)@),
        queue_first_walks(grid_view(grid@), old(queue)@),
        after_prev(old(queue)@, path@.len() as int, path@),
        pushed_before(old(queue)@, path@, dir as int),
        frontier_first(grid_view(grid@), flags(old(visited)@), path@),
    ensures
        queue_ordered(final(queue)@),
        queue_first_walks(grid_view(grid@), final(queue)@),
        after_prev(final(queue)@, path@.len() as int, path@),
        pushed_before(final(queue)@, path@, dir + 1),
        frontier_first(grid_view(grid@), flags(final(visited)@), path@),
        visited_within(grid_view(grid@), flags(final(visited)@), path@.len() as int),
        levels_ok(grid_view(grid@), final(queue)@, path@.len() as int),
        settled_below(grid_view(grid@), flags(old(visited)@), old(queue)@, path@.len() as int)
            ==> settled_below(grid_view(grid@), flags(final(visited)@), final(queue)@, path@.len() as int),
        flags(final(visited)@).len() == CELLS,
        grows(old(queue)@, flags(old(visited)@), final(queue)@, flags(final(visited)@)),
        forall|k: int|
            0 <= k < final(queue)@.len() ==> node_ok(
                grid_view(grid@),
                flags(final(visited)@),
                #[trigger] final(queue)@[k],
            ),
        node_ok(grid_view(grid@), flags(final(visited)@), PathNode { r, c, path: *path }),
        ({
            ||| flags(final(visited)@) == flags(old(visited)@) && final(queue)@ == old(queue)@
            ||| exists|y: int|
                {
                    &&& 0 <= y < CELLS
                    &&& !flags(old(visited)@)[y]
                    &&& flags(final(visited)@) == flags(old(visited)@).update(y, true)
                    &&& #[trigger] queued(final(queue)@) == queued(old(queue)@).push(y)
                    &&& final(queue)@.len() == old(queue)@.len() + 1
                }
        }),
        opened_toward(grid_view(grid@), (r, c), dir as int, flags(final(visited)@)),
        all_distinct(queued(old(queue)@)) ==> all_distinct(queued(final(queue)@)),
        2 * unmarked(flags(final(visited)@)) + final(queue)@.len() <= 2 * unmarked(flags(old(visited)@)) + old(
            queue,
        )@.len(),
{
    broadcast use vstd::std_specs::hash::group_hash_axioms;
    let ghost g = grid_view(grid@);
    let ghost here: Pos = (r, c);
    let cell = grid[r * COLS + c];
    assert(g[pos_index(here)] == cell@);
    if cell.walls[dir] {
        return;
    }
    let next = step_to(r, c, dir);
    proof {
        lemma_neighbour_in_grid(here, dir as int);
    }
    match next {
        None => {},
        Some((nr, nc)) => {
            let idx = nr * COLS + nc;
            if !visited.contains(&(idx as u64)) {
                let ghost old_visited = flags(visited@);
                let ghost old_queue = queue@;
                visited.insert(idx as u64);
                proof {
                    assert(flags(visited@) =~= old_visited.update(idx as int, true));
                }
                let mut next_path = vstd::slice::slice_to_vec(path.as_slice());
                next_path.push((nr, nc));
                proof {
                    let b: Pos = (nr, nc);
                    let p2 = next_path@;
                    assert(p2 =~= path@.push(b));
                    assert(step_open(g, here, b));
                    assert(is_walk(g, p2)) by {
                        assert forall|i: int| 0 <= i < p2.len() - 1 implies step_open(
                            g,
                            #[trigger] p2[i],
                            p2[i + 1],
                        ) by {
                            if i < path@.len() - 1 {
                                assert(step_open(g, path@[i], path@[i + 1]));
                            }
                        }
                    }
                    assert(no_repeats(p2)) by {
                        assert forall|i: int, j: int| 0 <= i < j < p2.len() implies p2[i]
                            != p2[j] by {
                            if j == p2.len() - 1 {
                                assert(flags(visited@)[pos_index(path@[i])] || pos_index(path@[i]) == idx);
                                assert(old_visited[pos_index(path@[i])]);
                            }
                        }
                    }
                }
                queue.push_back(PathNode { r: nr, c: nc, path: next_path });
                proof {
                    lemma_unmarked_mark(old_visited, idx as int);
                    assert(queued(queue@) =~= queued(old_queue).push(idx as int));
                    assert(queued(queue@).contains(idx as int)) by {
                        assert(queued(queue@)[queued(old_queue).len() as int] == idx as int);
                    }
                    assert forall|i: int| #[trigger] queued(old_queue).contains(i) implies queued(
                        queue@,
                    ).contains(i) by {
                        let k = choose|k: int| 0 <= k < queued(old_queue).len() && queued(old_queue)[k] == i;
                        assert(queued(queue@)[k] == i);
                    }
                    if all_distinct(queued(old_queue)) {
                        assert forall|i: int, j: int| 0 <= i < j < queued(queue@).len() implies queued(
                            queue@,
                        )[i] != queued(queue@)[j] by {
                            if j == queued(old_queue).len() {
                                assert(node_ok(g, old_visited, old_queue[i]));
                            }
                        }
                    }
                    assert forall|k: int| 0 <= k < queue@.len() implies node_ok(
                        g,
                        flags(visited@),
                        #[trigger] queue@[k],
                    ) by {
                        if k < old_queue.len() {
                            assert(node_ok(g, old_visited, old_queue[k]));
                        }
                    }
                    let m = path@.len() as int;
                    assert(queue@ =~= old_queue.push(queue@.last()));
                    lemma_mark_keeps_within(g, old_visited, flags(visited@), idx as int, m);
                    lemma_push_keeps_levels(g, old_visited, old_queue, queue@.last(), m);
                    if settled_below(g, old_visited, old_queue, m) {
                        lemma_push_keeps_settled(g, old_visited, old_queue, flags(visited@), queue@.last(), m);
                    }
                    assert(queue@.last().path@ == path@.push((nr, nc)));
                    lemma_push_keeps_order(g, old_visited, old_queue, queue@.last(), path@, dir as int);
                    lemma_mark_keeps_frontier(g, old_visited, flags(visited@), idx as int, path@);
                }
            }
        },
    }
}


/// With no cell left in the queue, every walk from a reached entrance
/// stays on reached cells.
proof fn lemma_walk_stays_reached(grid: Seq<CellView>, visited: Seq<bool>, path: Seq<Pos>, n: int)
    requires
        visited.len() == CELLS,
        visited[pos_index(entrance())],
        closed_outside_queue(grid, visited, Seq::empty()),
        is_walk(grid, path),
        0 <= n < path.len(),
    ensures
        in_grid(path[n]),
        visited[pos_index(path[n])],
    decreases n,
{
    if n > 0 {
        lemma_walk_stays_reached(grid, visited, path, n - 1);
        let a = path[n - 1];
        let b = path[n];
        assert(step_open(grid, a, b));
        let dir = choose|dir: int|
            0 <= dir < 4 && !grid[pos_index(a)].walls[dir] && #[trigger] neighbour(a, dir) == Some(b);
        lemma_neighbour_in_grid(a, dir);
        assert(!queued(Seq::<PathNode>::empty()).contains(pos_index(a)));
    }
}

pub(crate) proof fn lemma_walk_in_grid(grid: Seq<CellView>, w: Seq<Pos>, i: int)
    requires
        is_walk(grid, w),
        0 <= i < w.len(),
    ensures
        in_grid(w[i]),
    decreases i,
{
    if i > 0 {
        lemma_walk_in_grid(grid, w, i - 1);
        assert(step_open(grid, w[i - 1], w[i]));
        lemma_step_open_in_grid(grid, w[i - 1], w[i]);
    }
}

pub(crate) proof fn lemma_walk_prefix(grid: Seq<CellView>, w: Seq<Pos>, k: int)
    requires
        is_walk(grid, w),
        1 <= k <= w.len(),
    ensures
        is_walk(grid, w.subrange(0, k)),
        w.subrange(0, k).len() == k,
        w.subrange(0, k).last() == w[k - 1],
{
    let p = w.subrange(0, k);
    assert forall|i: int| 0 <= i < p.len() - 1 implies step_open(grid, #[trigger] p[i], p[i + 1]) by {
        assert(p[i] == w[i]);
        assert(p[i + 1] == w[i + 1]);
        assert(step_open(grid, w[i], w[i + 1]));
    }
}

pub(crate) proof fn lemma_pos_index_injective(a: Pos, b: Pos)
    requires
        in_grid(a),
        in_grid(b),
        pos_index(a) == pos_index(b),
    ensures
        a == b,
{
}

/// The last cell of a walk with fewer cells than the walk at the front of
/// the queue is reached and out of the queue.
#[verifier::rlimit(30)]
proof fn lemma_settled_cell(
    grid: Seq<CellView>,
    visited: Seq<bool>,
    queue: Seq<PathNode>,
    level: int,
    w: Seq<Pos>,
)
    requires
        visited.len() == CELLS,
        visited[pos_index(entrance())],
        queue.len() > 0,
        forall|k: int| 0 <= k < queue.len() ==> node_ok(grid, visited, #[trigger] queue[k]),
        closed_outside_queue(grid, visited, queue),
        levels_ok(grid, queue, level),
        settled_below(grid, visited, queue, level),
        is_walk(grid, w),
        w.len() < queue[0].path@.len(),
    ensures
        visited[pos_index(w.last())],
        !queued(queue).contains(pos_index(w.last())),
{
    let n = w.len() as int;
    if n >= level {
        let last = w.last();
        lemma_walk_in_grid(grid, w, n - 1);
        if n > 1 {
            lemma_walk_prefix(grid, w, n - 1);
            let pre = w.subrange(0, n - 1);
            assert(visited[pos_index(pre.last())] && !queued(queue).contains(pos_index(pre.last())));
            lemma_walk_in_grid(grid, w, n - 2);
            assert(step_open(grid, w[n - 2], w[n - 1]));
            assert(pre.last() == w[n - 2]);
        }
        if queued(queue).contains(pos_index(last)) {
            let k = choose|k: int| 0 <= k < queued(queue).len() && queued(queue)[k] == pos_index(last);
            let node = queue[k];
            assert(node_ok(grid, visited, node));
            assert(queued(queue)[k] == cell_index(node.r as int, node.c as int));
            lemma_pos_index_injective((node.r, node.c), last);
            assert(no_shorter_walk(grid, (node.r, node.c), node.path@.len() as int));
            assert(node.path@.len() <= n);
            if k > 0 {
                assert(queue[0].path@.len() <= queue[k].path@.len());
            }
        }
    }
}

/// Popping the walk at the front of the queue raises the level to its
/// length: the rest of the queue keeps the level invariants, every walk
/// shorter than it ends on a settled cell, and every walk as long as it
/// ends on a reached cell.
#[verifier::rlimit(30)]
proof fn lemma_next_level(grid: Seq<CellView>, visited: Seq<bool>, queue: Seq<PathNode>, level: int)
    requires
        visited.len() == CELLS,
        visited[pos_index(entrance())],
        queue.len() > 0,
        forall|k: int| 0 <= k < queue.len() ==> node_ok(grid, visited, #[trigger] queue[k]),
        closed_outside_queue(grid, visited, queue),
        levels_ok(grid, queue, level),
        settled_below(grid, visited, queue, level),
    ensures
        levels_ok(grid, queue.drop_first(), queue[0].path@.len() as int),
        settled_below(grid, visited, queue.drop_first(), queue[0].path@.len() as int),
        visited_within(grid, visited, queue[0].path@.len() as int),
{
    let m = queue[0].path@.len() as int;
    let rest = queue.drop_first();
    assert forall|k: int| 0 <= k < rest.len() implies m <= #[trigger] rest[k].path@.len() <= m + 1 by {
        assert(rest[k] == queue[k + 1]);
        assert(queue[0].path@.len() <= queue[k + 1].path@.len());
    }
    assert forall|i: int, j: int| 0 <= i < j < rest.len() implies #[trigger] rest[i].path@.len()
        <= #[trigger] rest[j].path@.len() by {
        assert(rest[i] == queue[i + 1]);
        assert(rest[j] == queue[j + 1]);
        assert(queue[i + 1].path@.len() <= queue[j + 1].path@.len());
    }
    assert forall|k: int| 0 <= k < rest.len() implies no_shorter_walk(
        grid,
        (#[trigger] rest[k].r, rest[k].c),
        rest[k].path@.len() as int,
    ) by {
        assert(rest[k] == queue[k + 1]);
    }
    assert(queued(rest) =~= queued(queue).drop_first());
    assert forall|w: Seq<Pos>| #[trigger] is_walk(grid, w) && w.len() < m implies visited[pos_index(
        w.last(),
    )] && !queued(rest).contains(pos_index(w.last())) by {
        lemma_settled_cell(grid, visited, queue, level, w);
        if queued(rest).contains(pos_index(w.last())) {
            let k = choose|k: int| 0 <= k < queued(rest).len() && queued(rest)[k] == pos_index(w.last());
            assert(queued(queue)[k + 1] == pos_index(w.last()));
        }
    }
    assert forall|w: Seq<Pos>| #[trigger] is_walk(grid, w) && w.len() <= m implies visited[pos_index(
        w.last(),
    )] by {
        let n = w.len() as int;
        if n < m {
            lemma_settled_cell(grid, visited, queue, level, w);
        } else if n > 1 {
            lemma_walk_prefix(grid, w, n - 1);
            let pre = w.subrange(0, n - 1);
            lemma_settled_cell(grid, visited, queue, level, pre);
            lemma_walk_in_grid(grid, w, n - 2);
            assert(step_open(grid, w[n - 2], w[n - 1]));
            assert(pre.last() == w[n - 2]);
        }
    }
}

/// Queueing the walk `path` extended by its neighbour in direction `dir`
/// keeps the queue ordered and its walks first.
#[verifier::rlimit(30)]
proof fn lemma_push_keeps_order(
    g: Seq<CellView>,
    old_visited: Seq<bool>,
    old_queue: Seq<PathNode>,
    node: PathNode,
    path: Seq<Pos>,
    dir: int,
)
    requires
        path.len() >= 1,
        0 <= dir < 4,
        neighbour(path.last(), dir) == Some((node.r, node.c)),
        node.path@ == path.push((node.r, node.c)),
        !old_visited[pos_index((node.r, node.c))],
        forall|k: int|
            #![trigger old_queue[k]]
            0 <= k < old_queue.len() ==> old_queue[k].path@.len() <= path.len() + 1,
        queue_ordered(old_queue),
        queue_first_walks(g, old_queue),
        after_prev(old_queue, path.len() as int, path),
        pushed_before(old_queue, path, dir),
        frontier_first(g, old_visited, path),
    ensures
        queue_ordered(old_queue.push(node)),
        queue_first_walks(g, old_queue.push(node)),
        after_prev(old_queue.push(node), path.len() as int, path),
        pushed_before(old_queue.push(node), path, dir + 1),
{
    let q = old_queue.push(node);
    let m = path.len() as int;
    let u: Pos = (node.r, node.c);
    lemma_step_code(path.last(), dir);
    assert(node.path@.drop_last() =~= path);
    assert(node.path@.last() == u);
    assert forall|i: int, j: int| 0 <= i < j < q.len() implies #[trigger] q[i].path@.len() < #[trigger] q[j].path@.len()
        || walk_before(q[i].path@, q[j].path@) by {
        assert(q[i] == old_queue[i]);
        if j < old_queue.len() {
            assert(q[j] == old_queue[j]);
        } else if old_queue[i].path@.len() == m + 1 {
            let pi = old_queue[i].path@;
            assert(pi =~= pi.drop_last().push(pi.last()));
            if pi.drop_last() == path {
                assert(step_code(path.last(), pi.last()) < dir);
                lemma_walk_before_turn(path, pi.last(), u);
            } else {
                lemma_walk_before_extend(pi.drop_last(), path, pi.last(), u);
            }
        }
    }
    assert forall|k: int| 0 <= k < q.len() implies first_walk(g, (#[trigger] q[k].r, q[k].c), q[k].path@) by {
        if k < old_queue.len() {
            assert(q[k] == old_queue[k]);
        } else {
            assert forall|w: Seq<Pos>| #[trigger] is_walk(g, w) && w.last() == u && w.len() == node.path@.len() implies w
                == node.path@ || walk_before(node.path@, w) by {
                lemma_walk_prefix(g, w, m);
                let pre = w.subrange(0, m);
                assert(step_open(g, w[m - 1], w[m]));
                assert(pre.last() == w[m - 1]);
                assert(step_open(g, pre.last(), u));
                assert(pre == path || walk_before(path, pre));
                assert(w =~= pre.push(u));
                if pre != path {
                    lemma_walk_before_extend(path, pre, u, u);
                }
            }
        }
    }
    assert forall|k: int| 0 <= k < q.len() && #[trigger] q[k].path@.len() == m + 1 implies m == m && (
    q[k].path@.drop_last() == path || walk_before(q[k].path@.drop_last(), path)) by {
        if k < old_queue.len() {
            assert(q[k] == old_queue[k]);
        }
    }
    assert forall|k: int| 0 <= k < q.len() && #[trigger] q[k].path@.len() == m implies walk_before(path, q[k].path@) by {
        assert(q[k] == old_queue[k]);
    }
    assert forall|k: int| 0 <= k < q.len() && #[trigger] q[k].path@.len() == m + 1 && q[k].path@.drop_last() == path implies step_code(
        path.last(),
        q[k].path@.last(),
    ) < dir + 1 by {
        if k < old_queue.len() {
            assert(q[k] == old_queue[k]);
        }
    }
}

/// Reaching one more cell keeps the walks of `path`'s length that end next
/// to an unreached cell at or after `path`.
proof fn lemma_mark_keeps_frontier(g: Seq<CellView>, old_visited: Seq<bool>, new_visited: Seq<bool>, idx: int, path: Seq<Pos>)
    requires
        old_visited.len() == CELLS,
        0 <= idx < CELLS,
        new_visited == old_visited.update(idx, true),
        frontier_first(g, old_visited, path),
    ensures
        frontier_first(g, new_visited, path),
{
    assert forall|w: Seq<Pos>, y: Pos|
        is_walk(g, w) && w.len() == path.len() && #[trigger] step_open(g, w.last(), y) && !new_visited[pos_index(y)]
        implies w == path || walk_before(path, w) by {
        lemma_step_open_in_grid(g, w.last(), y);
        assert(!old_visited[pos_index(y)]);
        assert(is_walk(g, w));
    }
}

/// At the head of the search loop, the walk at the front of the queue comes
/// first among the walks of its length that end next to an unreached cell.
#[verifier::rlimit(30)]
proof fn lemma_front_is_first(g: Seq<CellView>, visited: Seq<bool>, queue: Seq<PathNode>, level: int)
    requires
        visited.len() == CELLS,
        queue.len() > 0,
        forall|k: int| 0 <= k < queue.len() ==> node_ok(g, visited, #[trigger] queue[k]),
        closed_outside_queue(g, visited, queue),
        levels_ok(g, queue, level),
        queue_ordered(queue),
        queue_first_walks(g, queue),
        visited_within(g, visited, queue[0].path@.len() as int),
    ensures
        frontier_first(g, visited, queue[0].path@),
{
    let p = queue[0].path@;
    let m = p.len() as int;
    assert forall|w: Seq<Pos>, y: Pos|
        is_walk(g, w) && w.len() == m && #[trigger] step_open(g, w.last(), y) && !visited[pos_index(y)]
        implies w == p || walk_before(p, w) by {
        assert(is_walk(g, w));
        let x = w.last();
        lemma_walk_in_grid(g, w, w.len() - 1);
        assert(visited[pos_index(x)]);
        assert(queued(queue).contains(pos_index(x)));
        let k = choose|k: int| 0 <= k < queued(queue).len() && queued(queue)[k] == pos_index(x);
        let node = queue[k];
        assert(node_ok(g, visited, node));
        assert(queued(queue)[k] == cell_index(node.r as int, node.c as int));
        lemma_pos_index_injective((node.r, node.c), x);
        assert(no_shorter_walk(g, (node.r, node.c), node.path@.len() as int));
        assert(node.path@.len() <= m);
        assert(first_walk(g, (node.r, node.c), node.path@));
        if k > 0 {
            assert(queue[0].path@.len() <= queue[k].path@.len());
            assert(walk_before(p, node.path@));
            if w != node.path@ {
                lemma_walk_before_transitive(p, node.path@, w);
            }
        }
    }
}

/// Taking the front node off the queue: the rest stays ordered, and the
/// front walk becomes the last one taken.
#[verifier::rlimit(30)]
proof fn lemma_pop_keeps_order(queue: Seq<PathNode>, level: int, prev: Seq<Pos>)
    requires
        queue.len() > 0,
        forall|k: int| #![trigger queue[k]] 0 <= k < queue.len() ==> level <= queue[k].path@.len() <= level + 1,
        queue_ordered(queue),
        after_prev(queue, level, prev),
    ensures
        queue_ordered(queue.drop_first()),
        after_prev(queue.drop_first(), queue[0].path@.len() as int, queue[0].path@),
        pushed_before(queue.drop_first(), queue[0].path@, 0),
{
    let rest = queue.drop_first();
    let p = queue[0].path@;
    let m = p.len() as int;
    assert forall|i: int, j: int| 0 <= i < j < rest.len() implies #[trigger] rest[i].path@.len() < #[trigger] rest[j].path@.len()
        || walk_before(rest[i].path@, rest[j].path@) by {
        assert(rest[i] == queue[i + 1] && rest[j] == queue[j + 1]);
    }
    assert forall|k: int| 0 <= k < rest.len() && #[trigger] rest[k].path@.len() == m implies walk_before(p, rest[k].path@) by {
        assert(rest[k] == queue[k + 1]);
    }
    assert forall|k: int| 0 <= k < rest.len() && #[trigger] rest[k].path@.len() == m + 1 implies walk_before(
        rest[k].path@.drop_last(),
        p,
    ) by {
        assert(rest[k] == queue[k + 1]);
        assert(m == level);
        let d = rest[k].path@.drop_last();
        assert(walk_before(prev, p));
        if d != prev {
            lemma_walk_before_transitive(d, prev, p);
        }
    }
    assert forall|k: int| 0 <= k < rest.len() && #[trigger] rest[k].path@.len() == m + 1 && rest[k].path@.drop_last() == p implies step_code(
        p.last(),
        rest[k].path@.last(),
    ) < 0 by {
        assert(walk_before(rest[k].path@.drop_last(), p));
        lemma_walk_before_irreflexive(p);
    }
}

proof fn lemma_drop_first_walks(g: Seq<CellView>, queue: Seq<PathNode>)
    requires
        queue.len() > 0,
        queue_first_walks(g, queue),
    ensures
        queue_first_walks(g, queue.drop_first()),
{
    assert forall|k: int| 0 <= k < queue.len() - 1 implies first_walk(
        g,
        (#[trigger] queue.drop_first()[k].r, queue.drop_first()[k].c),
        queue.drop_first()[k].path@,
    ) by {
        assert(queue.drop_first()[k] == queue[k + 1]);
    }
}

/// After the front cell's four neighbours have been visited, every reached
/// cell outside the queue has all its open neighbours reached again, and a
/// reached exit is still queued.
#[verifier::rlimit(30)]
proof fn lemma_expansion_closes(
    g: Seq<CellView>,
    q_before: Seq<PathNode>,
    v_before: Seq<bool>,
    q1: Seq<PathNode>,
    v1: Seq<bool>,
    q2: Seq<PathNode>,
    v2: Seq<bool>,
    q3: Seq<PathNode>,
    v3: Seq<bool>,
    q: Seq<PathNode>,
    v: Seq<bool>,
    here: Pos,
)
    requires
        v_before.len() == CELLS,
        q_before.len() > 0,
        in_grid(here),
        here != exit(),
        queued(q_before)[0] == pos_index(here),
        all_distinct(queued(q_before)),
        closed_outside_queue(g, v_before, q_before),
        v_before[pos_index(exit())] ==> queued(q_before).contains(pos_index(exit())),
        grows(q_before.drop_first(), v_before, q1, v1),
        grows(q1, v1, q2, v2),
        grows(q2, v2, q3, v3),
        grows(q3, v3, q, v),
        opened_toward(g, here, 0, v1),
        opened_toward(g, here, 1, v2),
        opened_toward(g, here, 2, v3),
        opened_toward(g, here, 3, v),
    ensures
        closed_outside_queue(g, v, q),
        v[pos_index(exit())] ==> queued(q).contains(pos_index(exit())),
{
    let q0 = q_before.drop_first();
    let v0 = v_before;
    let x = pos_index(here);
    assert(queued(q0) =~= queued(q_before).drop_first());
    assert forall|i: int| #[trigger] queued(q0).contains(i) implies queued(q).contains(i) by {
        assert(queued(q1).contains(i));
        assert(queued(q2).contains(i));
        assert(queued(q3).contains(i));
    }
    assert forall|i: int| 0 <= i < CELLS && v[i] && !v0[i] implies #[trigger] queued(q).contains(i) by {
        if v1[i] && !v0[i] {
            assert(queued(q1).contains(i));
            assert(queued(q2).contains(i));
            assert(queued(q3).contains(i));
        } else if v2[i] && !v1[i] {
            assert(queued(q2).contains(i));
            assert(queued(q3).contains(i));
        } else if v3[i] && !v2[i] {
            assert(queued(q3).contains(i));
        } else {
            assert(v3[i] || v2[i] || v1[i] ==> v0[i]);
        }
    }
    assert forall|a: Pos, b: Pos|
        #![trigger step_open(g, a, b), v[pos_index(a)]]
        in_grid(a) && v[pos_index(a)] && !queued(q).contains(pos_index(a)) && step_open(g, a, b) implies v[pos_index(
            b,
        )] by {
        lemma_step_open_in_grid(g, a, b);
        let y = pos_index(b);
        if pos_index(a) == x {
            lemma_pos_index_injective(a, here);
            let dir = choose|dir: int|
                0 <= dir < 4 && !g[pos_index(a)].walls[dir] && #[trigger] neighbour(a, dir) == Some(b);
            assert(neighbour(here, dir) == Some(b));
            if dir == 0 {
                assert(v1[y]);
                assert(v2[y]);
                assert(v3[y]);
            } else if dir == 1 {
                assert(v2[y]);
                assert(v3[y]);
            } else if dir == 2 {
                assert(v3[y]);
            }
        } else {
            assert(v0[pos_index(a)]) by {
                if !v0[pos_index(a)] {
                    assert(queued(q).contains(pos_index(a)));
                }
            }
            assert(!queued(q0).contains(pos_index(a)));
            assert(!queued(q_before).contains(pos_index(a))) by {
                if queued(q_before).contains(pos_index(a)) {
                    let k = choose|k: int| 0 <= k < queued(q_before).len() && queued(q_before)[k] == pos_index(a);
                    if k == 0 {
                        assert(queued(q_before)[0] == x);
                    } else {
                        assert(queued(q0)[k - 1] == pos_index(a));
                    }
                }
            }
            assert(v0[y]);
            assert(v1[y]);
            assert(v2[y]);
            assert(v3[y]);
        }
    }
    if v[pos_index(exit())] {
        if !v0[pos_index(exit())] {
            assert(queued(q).contains(pos_index(exit())));
        } else {
            assert(queued(q_before).contains(pos_index(exit())));
            let k = choose|k: int| 0 <= k < queued(q_before).len() && queued(q_before)[k] == pos_index(exit());
            if k == 0 {
                assert(x == pos_index(exit()));
                lemma_pos_index_injective(here, exit());
            } else {
                assert(queued(q0)[k - 1] == pos_index(exit()));
                assert(queued(q0).contains(pos_index(exit())));
            }
        }
    }
}

/// Finds a route from the entrance cell to the exit cell, breadth first,
/// trying the neighbours of each cell in the order north, east, south,
/// west: a shortest walk to the exit, the first of them in that order;
/// empty when there is none.
#[verifier::rlimit(60)]
pub fn solve_maze_bfs(grid: &[Cell]) -> (route: Vec<Pos>)
    requires
        grid@.len() >= CELLS,
    ensures
        route@.len() > 0 ==> is_route(grid_view(grid@), route@),
        route@.len() == 0 <==> !exit_reachable(grid_view(grid@)),
        route@.len() > 0 ==> no_shorter_walk(grid_view(grid@), exit(), route@.len() as int),
        route@.len() > 0 ==> first_walk(grid_view(grid@), exit(), route@),
{
    let ghost g = grid_view(grid@);
    broadcast use vstd::std_specs::hash::group_hash_axioms;
    let mut visited: HashSet<u64> = HashSet::new();
    visited.insert(0);
    let mut start_path: Vec<Pos> = Vec::new();
    start_path.push((0, 0));
    let mut queue: VecDeque<PathNode> = VecDeque::new();
    queue.push_back(PathNode { r: 0, c: 0, path: start_path });
    let ghost mut level: int = 1;
    let ghost mut prev: Seq<Pos> = Seq::empty();
    proof {
        assert forall|w: Seq<Pos>| #[trigger] is_walk(g, w) && w.last() == (0usize, 0usize) && w.len() == queue@[0].path@.len() implies w
            == queue@[0].path@ || walk_before(queue@[0].path@, w) by {
            assert(w =~= queue@[0].path@);
        }
        assert(queued(queue@) =~= seq![0int]);
        assert(node_ok(g, flags(visited@), queue@[0]));
        assert(!flags(visited@)[pos_index(exit())]);
        assert forall|a: Pos, b: Pos|
            #![trigger step_open(g, a, b), flags(visited@)[pos_index(a)]]
            in_grid(a) && flags(visited@)[pos_index(a)] && !queued(queue@).contains(pos_index(a))
                && step_open(g, a, b) implies flags(visited@)[pos_index(b)] by {
            if pos_index(a) == 0 {
                assert(queued(queue@)[0] == 0);
            }
        }
    }
    while queue.len() > 0
        invariant
            grid@.len() >= CELLS,
            g == grid_view(grid@),
            flags(visited@).len() == CELLS,
            flags(visited@)[pos_index(entrance())],
            forall|k: int| 0 <= k < queue@.len() ==> node_ok(g, flags(visited@), #[trigger] queue@[k]),
            all_distinct(queued(queue@)),
            closed_outside_queue(g, flags(visited@), queue@),
            flags(visited@)[pos_index(exit())] ==> queued(queue@).contains(pos_index(exit())),
            levels_ok(g, queue@, level),
            settled_below(g, flags(visited@), queue@, level),
            queue_ordered(queue@),
            queue_first_walks(g, queue@),
            after_prev(queue@, level, prev),
        decreases 2 * unmarked(flags(visited@)) + queue@.len(),
    {
        let ghost q_before = queue@;
        let ghost v_before = flags(visited@);
        proof {
            lemma_next_level(g, flags(visited@), q_before, level);
            lemma_front_is_first(g, flags(visited@), q_before, level);
            lemma_pop_keeps_order(q_before, level, prev);
            lemma_drop_first_walks(g, q_before);
        }
        let node = queue.pop_front().unwrap();
        let ghost x = pos_index((node.r, node.c));
        proof {
            assert(queue@ =~= q_before.drop_first());
            level = node.path@.len() as int;
            prev = node.path@;
            assert(node_ok(g, flags(visited@), q_before[0]));
            assert(queued(queue@) =~= queued(q_before).drop_first());
            assert(!queued(queue@).contains(x)) by {
                if queued(queue@).contains(x) {
                    let k = choose|k: int| 0 <= k < queued(queue@).len() && queued(queue@)[k] == x;
                    assert(queued(q_before)[k + 1] == x);
                    assert(queued(q_before)[0] == x);
                }
            }
            assert forall|k: int| 0 <= k < queue@.len() implies node_ok(g, flags(visited@), #[trigger] queue@[k]) by {
                assert(queue@[k] == q_before[k + 1]);
            }
        }
        if node.r == ROWS - 1 && node.c == COLS - 1 {
            proof {
                assert(is_walk(g, node.path@) && node.path@.last() == exit());
                assert(q_before[0] == node);
            }
            return node.path;
        }
        let ghost q0 = queue@;
        let ghost v0 = flags(visited@);
        proof {
            assert(all_distinct(queued(q0))) by {
                assert forall|i: int, j: int| 0 <= i < j < queued(q0).len() implies queued(q0)[i]
                    != queued(q0)[j] by {
                    assert(queued(q_before)[i + 1] != queued(q_before)[j + 1]);
                }
            }
        }
        visit_neighbour(grid, &mut visited, &mut queue, node.r, node.c, &node.path, 0);
        let ghost q1 = queue@;
        let ghost v1 = flags(visited@);
        visit_neighbour(grid, &mut visited, &mut queue, node.r, node.c, &node.path, 1);
        let ghost q2 = queue@;
        let ghost v2 = flags(visited@);
        visit_neighbour(grid, &mut visited, &mut queue, node.r, node.c, &node.path, 2);
        let ghost q3 = queue@;
        let ghost v3 = flags(visited@);
        visit_neighbour(grid, &mut visited, &mut queue, node.r, node.c, &node.path, 3);
        proof {
            lemma_expansion_closes(
                g,
                q_before,
                v_before,
                q1,
                v1,
                q2,
                v2,
                q3,
                v3,
                queue@,
                flags(visited@),
                (node.r, node.c),
            );
        }
    }
    proof {
        assert(queue@ =~= Seq::<PathNode>::empty());
        if exit_reachable(g) {
            let path = choose|path: Seq<Pos>| is_walk(g, path) && #[trigger] path.last() == exit();
            lemma_walk_stays_reached(g, flags(visited@), path, path.len() - 1);
            assert(queued(queue@) =~= Seq::<int>::empty());
        }
    }
    Vec::new()
}

proof fn lemma_step_open_in_grid(grid: Seq<CellView>, a: Pos, b: Pos)
    requires
        step_open(grid, a, b),
    ensures
        in_grid(b),
{
    let dir = choose|dir: int|
        0 <= dir < 4 && !grid[pos_index(a)].walls[dir] && #[trigger] neighbour(a, dir) == Some(b);
    lemma_neighbour_in_grid(a, dir);
}


/// A point of the plane the maze is drawn in.
#[derive(Clone, Copy, Debug, PartialEq, Eq, Structural)]
pub struct Point {
    pub x: i128,
    pub y: i128,
}

/// The centre of the cell at `p`.
pub open spec fn cell_centre(p: Pos) -> Point {
    Point { x: (p.1 * CELL_SIZE + CELL_SIZE / 2) as i128, y: (p.0 * CELL_SIZE + CELL_SIZE / 2) as i128 }
}

/// The centre of the exit cell.
pub open spec fn goal_point() -> Point {
    cell_centre(exit())
}

/// The checkpoints of a route: for a route of more than two cells, the
/// centres of the cells a quarter, half and three quarters of the way
/// along it (positions `k * (n / 4)`, at most the last one); then the
/// centre of the exit cell.
pub open spec fn checkpoints_of(route: Seq<Pos>) -> Seq<Point> {
    let n = route.len() as int;
    if n > 2 {
        let step = n / 4;
        let at = |k: int| if k * step < n - 1 { k * step } else { n - 1 };
        seq![
            cell_centre(route[at(1)]),
            cell_centre(route[at(2)]),
            cell_centre(route[at(3)]),
            goal_point(),
        ]
    } else {
        seq![goal_point()]
    }
}

fn centre(p: Pos) -> (pt: Point)
    ensures
        pt == cell_centre(p),
{
    Point {
        x: p.1 as i128 * CELL_SIZE as i128 + (CELL_SIZE / 2) as i128,
        y: p.0 as i128 * CELL_SIZE as i128 + (CELL_SIZE / 2) as i128,
    }
}

/// The checkpoints an agent is scored against along `solution_path`.
pub fn get_checkpoints(solution_path: &[Pos]) -> (checkpoints: Vec<Point>)
    ensures
        checkpoints@ == checkpoints_of(solution_path@),
{
    let mut checkpoints: Vec<Point> = Vec::new();
    let n = solution_path.len();
    if n > 2 {
        let step = n / 4;
        for i in 1usize..4
            invariant
                n == solution_path@.len(),
                n > 2,
                step == n / 4,
                checkpoints@.len() == i - 1,
                forall|k: int|
                    0 <= k < i - 1 ==> #[trigger] checkpoints@[k] == checkpoints_of(
                        solution_path@,
                    )[k],
        {
            assert(i * step <= 3 * (n / 4)) by (nonlinear_arith)
                requires
                    1 <= i <= 3,
                    step == n / 4,
            ;
            let idx = if i * step < n - 1 {
                i * step
            } else {
                n - 1
            };
            checkpoints.push(centre(solution_path[idx]));
        }
    }
    checkpoints.push(Point { x: 775, y: 475 });
    assert(checkpoints@ =~= checkpoints_of(solution_path@));
    checkpoints
}

/// The four directions: north is one row up, east one column right, south
/// one row down, west one column left, each only while it stays inside the
/// grid of `ROWS` rows and `COLS` columns.
pub proof fn lemma_neighbour_directions(p: Pos)
    requires
        in_grid(p),
    ensures
        neighbour(p, 0) == if p.0 >= 1 { Some(((p.0 - 1) as usize, p.1)) } else { None::<Pos> },
        neighbour(p, 1) == if p.1 + 1 < 16 { Some((p.0, (p.1 + 1) as usize)) } else { None::<Pos> },
        neighbour(p, 2) == if p.0 + 1 < 10 { Some(((p.0 + 1) as usize, p.1)) } else { None::<Pos> },
        neighbour(p, 3) == if p.1 >= 1 { Some((p.0, (p.1 - 1) as usize)) } else { None::<Pos> },
        entrance() == (0usize, 0usize),
        exit() == (9usize, 15usize),
        pos_index(p) == 16 * p.0 + p.1,
{
}

/// Where the checkpoints of a route lie: for a route of `n > 2` cells, the
/// centres (50 pixels a cell, so `50 * column + 25` across and
/// `50 * row + 25` down) of its cells at positions `n / 4`, `2 * (n / 4)`
/// and `3 * (n / 4)` (at most the last cell), then the centre of the exit
/// cell, (775, 475); for a shorter route only the exit's centre.
pub proof fn lemma_checkpoint_places(route: Seq<Pos>)
    ensures
        route.len() <= 2 ==> checkpoints_of(route) == seq![Point { x: 775, y: 475 }],
        route.len() > 2 ==> checkpoints_of(route).len() == 4,
        route.len() > 2 ==> checkpoints_of(route)[3] == (Point { x: 775, y: 475 }),
        route.len() > 2 ==> forall|k: int|
            1 <= k <= 3 ==> {
                let n = route.len() as int;
                let at = if k * (n / 4) < n - 1 { k * (n / 4) } else { n - 1 };
                &&& (#[trigger] checkpoints_of(route)[k - 1]).x == 50 * route[at].1 + 25
                &&& checkpoints_of(route)[k - 1].y == 50 * route[at].0 + 25
            },
{
}

} // verus!
