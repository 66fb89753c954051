//! Lowest-risk path through a cave of chitons: a shortest-path search
//! over a grid whose cell values are the cost of entering them.

use vstd::prelude::*;

verus! {

/// A cell of the risk grid.
#[derive(Debug, Clone, Copy, Hash, PartialEq, Eq, Structural)]
pub struct Point {
    pub row_index: usize,
    pub col_index: usize,
}

/// A step from `parent` into `point`, paying `cost`.
#[derive(Debug, Clone, Copy, PartialEq, Eq, Structural)]
pub struct Edge {
    pub cost: u32,
    pub point: Point,
    pub parent: Point,
}

/// A frontier entry: the risk paid so far to stand at `position`.
#[derive(Debug, Clone, Copy, PartialEq, Eq, Structural)]
pub struct State {
    pub cost: u32,
    pub position: Point,
}

/// A rectangular risk grid.
pub open spec fn rect(map: Seq<Vec<u32>>, cols: int) -> bool {
    map.len() >= 1 && cols >= 1 && forall|r: int|
        0 <= r < map.len() ==> (#[trigger] map[r])@.len() == cols
}

/// `p` lies on the grid.
pub open spec fn on_grid(map: Seq<Vec<u32>>, p: Point) -> bool {
    p.row_index < map.len() && p.col_index < map[p.row_index as int]@.len()
}

/// `b` is directly above, below, left or right of `a`.
pub open spec fn adjacent(a: Point, b: Point) -> bool {
    (a.row_index == b.row_index && (a.col_index == b.col_index + 1 || b.col_index == a.col_index
        + 1)) || (a.col_index == b.col_index && (a.row_index == b.row_index + 1 || b.row_index
        == a.row_index + 1))
}

/// `path` walks the grid starting at `from`, one step at a time.
pub open spec fn is_walk(map: Seq<Vec<u32>>, path: Seq<Point>, from: Point) -> bool {
    &&& path.len() >= 1
    &&& path[0] == from
    &&& forall|i: int| 0 <= i < path.len() ==> on_grid(map, #[trigger] path[i])
    &&& forall|i: int| 0 < i < path.len() ==> adjacent(path[i - 1], #[trigger] path[i])
}

/// `path` walks the grid from `from` to `to` one step at a time.
pub open spec fn is_path(map: Seq<Vec<u32>>, path: Seq<Point>, from: Point, to: Point) -> bool {
    is_walk(map, path, from) && path.last() == to
}

/// Total risk of a path: the value of every cell entered after the start.
pub open spec fn path_cost(map: Seq<Vec<u32>>, path: Seq<Point>, n: int) -> int
    decreases n,
{
    if n <= 1 {
        0
    } else {
        path_cost(map, path, n - 1) + map[path[n - 1].row_index as int]@[path[n
            - 1].col_index as int]
    }
}

/// The edges out of a point, in the order up, left, down, right, with the
/// risk of the cell they enter.
pub open spec fn edges_of(map: Seq<Vec<u32>>, p: Point) -> Seq<Edge> {
    let max_row = map.len() - 1;
    let max_col = map[map.len() - 1]@.len() - 1;
    (if p.row_index > 0 {
        seq![
            Edge {
                cost: map[p.row_index - 1]@[p.col_index as int],
                point: Point { row_index: (p.row_index - 1) as usize, col_index: p.col_index },
                parent: p,
            },
        ]
    } else {
        Seq::empty()
    }) + (if p.col_index > 0 {
        seq![
            Edge {
                cost: map[p.row_index as int]@[p.col_index - 1],
                point: Point { row_index: p.row_index, col_index: (p.col_index - 1) as usize },
                parent: p,
            },
        ]
    } else {
        Seq::empty()
    }) + (if p.row_index < max_row {
        seq![
            Edge {
                cost: map[p.row_index + 1]@[p.col_index as int],
                point: Point { row_index: (p.row_index + 1) as usize, col_index: p.col_index },
                parent: p,
            },
        ]
    } else {
        Seq::empty()
    }) + (if p.col_index < max_col {
        seq![
            Edge {
                cost: map[p.row_index as int]@[p.col_index + 1],
                point: Point { row_index: p.row_index, col_index: (p.col_index + 1) as usize },
                parent: p,
            },
        ]
    } else {
        Seq::empty()
    })
}

impl Point {
    /// The neighbouring cells and the risk of entering each.
    pub fn edges(&self, map: &Vec<Vec<u32>>) -> (edges: Vec<Edge>)
        requires
            rect(map@, map@[map@.len() - 1]@.len() as int),
            on_grid(map@, *self),
        ensures
            edges@ == edges_of(map@, *self),
            forall|k: int| 0 <= k < edges@.len() ==> on_grid(map@, (#[trigger] edges@[k]).point)
                && adjacent(*self, edges@[k].point) && edges@[k].cost == map@[edges@[k].point.row_index as int]@[edges@[k].point.col_index as int],
    {
        let mut edges: Vec<Edge> = Vec::new();
        let max_row: usize = map.len() - 1;
        let max_col: usize = map[map.len() - 1].len() - 1;

        if self.row_index > 0 {
            let newpoint = Point { row_index: self.row_index - 1, col_index: self.col_index };
            edges.push(
                Edge {
                    cost: map[newpoint.row_index][newpoint.col_index],
                    point: newpoint,
                    parent: *self,
                },
            );
        }
        if self.col_index > 0 {
            let newpoint = Point { row_index: self.row_index, col_index: self.col_index - 1 };
            edges.push(
                Edge {
                    cost: map[newpoint.row_index][newpoint.col_index],
                    point: newpoint,
                    parent: *self,
                },
            );
        }
        if self.row_index < max_row {
            let newpoint = Point { row_index: self.row_index + 1, col_index: self.col_index };
            edges.push(
                Edge {
                    cost: map[newpoint.row_index][newpoint.col_index],
                    point: newpoint,
                    parent: *self,
                },
            );
        }
        if self.col_index < max_col {
            let newpoint = Point { row_index: self.row_index, col_index: self.col_index + 1 };
            edges.push(
                Edge {
                    cost: map[newpoint.row_index][newpoint.col_index],
                    point: newpoint,
                    parent: *self,
                },
            );
        }
        proof {
            assert(edges@ =~= edges_of(map@, *self));
        }
        edges
    }
}

/// Extending a path by one adjacent cell keeps it a path and adds that
/// cell's risk.
proof fn lemma_path_extend(map: Seq<Vec<u32>>, path: Seq<Point>, from: Point, to: Point, next: Point)
    requires
        is_path(map, path, from, to),
        adjacent(to, next),
        on_grid(map, next),
    ensures
        is_path(map, path.push(next), from, next),
        path_cost(map, path.push(next), path.len() as int + 1) == path_cost(map, path, path.len() as int)
            + map[next.row_index as int]@[next.col_index as int],
{
    let p2 = path.push(next);
    assert(p2[p2.len() - 1] == next);
    assert(forall|i: int| 0 <= i < path.len() ==> p2[i] == path[i]);
    lemma_path_cost_same(map, path, p2, path.len() as int);
}

/// Path cost only reads the cells the path visits.
proof fn lemma_path_cost_same(map: Seq<Vec<u32>>, a: Seq<Point>, b: Seq<Point>, n: int)
    requires
        n <= a.len(),
        n <= b.len(),
        forall|i: int| 0 <= i < n ==> a[i] == b[i],
    ensures
        path_cost(map, a, n) == path_cost(map, b, n),
    decreases n,
{
    if n > 1 {
        lemma_path_cost_same(map, a, b, n - 1);
    }
}

/// Flat row-major index of a grid point in the distance vector.
pub open spec fn didx(cols: int, v: Point) -> int {
    v.row_index * cols + v.col_index
}

/// Path costs are never negative.
proof fn lemma_path_cost_nonneg(map: Seq<Vec<u32>>, p: Seq<Point>, n: int)
    ensures
        path_cost(map, p, n) >= 0,
    decreases n,
{
    if n > 1 {
        lemma_path_cost_nonneg(map, p, n - 1);
    }
}

/// A longer stretch of a path never costs less.
proof fn lemma_path_cost_mono(map: Seq<Vec<u32>>, p: Seq<Point>, i: int, j: int)
    requires
        i <= j,
    ensures
        path_cost(map, p, i) <= path_cost(map, p, j),
    decreases j,
{
    if i < j && j > 1 {
        lemma_path_cost_mono(map, p, i, j - 1);
    }
}

/// The first position of the path outside the settled set.
proof fn lemma_first_not_done(done: Set<Point>, p: Seq<Point>, s: int) -> (j: int)
    requires
        0 <= s < p.len(),
        forall|i: int| 0 <= i < s ==> done.contains(#[trigger] p[i]),
        !done.contains(p.last()),
    ensures
        s <= j < p.len(),
        !done.contains(p[j]),
        forall|i: int| 0 <= i < j ==> done.contains(#[trigger] p[i]),
    decreases p.len() - s,
{
    if !done.contains(p[s]) {
        s
    } else {
        lemma_first_not_done(done, p, s + 1)
    }
}

/// Walking a stretch of settled positions keeps the tentative distance
/// below the path cost, thanks to the settled positions' relaxed edges.
proof fn lemma_done_walk(
    map: Seq<Vec<u32>>,
    d: Seq<u32>,
    cols: int,
    done: Set<Point>,
    p: Seq<Point>,
    j0: int,
    j: int,
)
    requires
        0 <= j0 <= j < p.len(),
        forall|i: int| 0 <= i < p.len() ==> on_grid(map, #[trigger] p[i]),
        forall|i: int| 0 < i < p.len() ==> adjacent(p[i - 1], #[trigger] p[i]),
        forall|i: int| j0 <= i < j ==> done.contains(#[trigger] p[i]),
        done_relaxed(map, d, cols, done),
        d[didx(cols, p[j0])] <= path_cost(map, p, j0 + 1),
    ensures
        d[didx(cols, p[j])] <= path_cost(map, p, j + 1),
    decreases j - j0,
{
    reveal(done_relaxed);
    if j > j0 {
        lemma_done_walk(map, d, cols, done, p, j0, j - 1);
        assert(done.contains(p[j - 1]) && adjacent(p[j - 1], p[j]));
    }
}

/// Every on-grid neighbour of a point appears among its edges.
proof fn lemma_edges_complete(map: Seq<Vec<u32>>, u: Point, cols: int)
    requires
        rect(map, cols),
        on_grid(map, u),
    ensures
        forall|x: Point|
            on_grid(map, x) && adjacent(u, x) ==> exists|k: int|
                0 <= k < edges_of(map, u).len() && (#[trigger] edges_of(map, u)[k]).point == x,
{
    let es = edges_of(map, u);
    let max_row = map.len() - 1;
    let max_col = map[map.len() - 1]@.len() - 1;
    assert forall|x: Point| on_grid(map, x) && adjacent(u, x) implies exists|k: int|
        0 <= k < es.len() && (#[trigger] es[k]).point == x by {
        let up_len: int = if u.row_index > 0 {
            1
        } else {
            0
        };
        let left_len: int = if u.col_index > 0 {
            1
        } else {
            0
        };
        let down_len: int = if u.row_index < max_row {
            1
        } else {
            0
        };
        if x.row_index + 1 == u.row_index && x.col_index == u.col_index {
            assert(es[0].point == x);
        } else if x.col_index + 1 == u.col_index && x.row_index == u.row_index {
            assert(es[up_len].point == x);
        } else if x.row_index == u.row_index + 1 && x.col_index == u.col_index {
            assert(es[up_len + left_len].point == x);
        } else {
            assert(x.col_index == u.col_index + 1 && x.row_index == u.row_index);
            assert(es[up_len + left_len + down_len].point == x);
        }
    }
}

/// Removing one entry keeps every other entry in the frontier.
proof fn lemma_entry_survives_pop(pre: Seq<State>, best: int, k: int)
    requires
        0 <= best < pre.len(),
        0 <= k < pre.len(),
        k != best,
    ensures
        exists|k2: int|
            0 <= k2 < pre.update(best, pre.last()).drop_last().len() && (#[trigger] pre.update(
                best,
                pre.last(),
            ).drop_last()[k2]) == pre[k],
{
    let f = pre.update(best, pre.last()).drop_last();
    if k == pre.len() - 1 {
        assert(f[best] == pre[k]);
    } else {
        assert(f[k] == pre[k]);
    }
}

/// Frontier entries never undercut the tentative distances, and always
/// fit below the largest u32.
#[verifier::opaque]
pub open spec fn frontier_linked(dist: Seq<u32>, cols: int, frontier: Seq<State>) -> bool {
    forall|k: int| 0 <= k < frontier.len() ==> dist[didx(
        cols,
        (#[trigger] frontier[k]).position,
    )] <= frontier[k].cost && frontier[k].cost < u32::MAX
}

/// Every unsettled position with a finite tentative distance has a
/// frontier entry carrying exactly that distance.
#[verifier::opaque]
pub open spec fn unsettled_have_entries(
    map: Seq<Vec<u32>>,
    dist: Seq<u32>,
    cols: int,
    frontier: Seq<State>,
    done: Set<Point>,
) -> bool {
    forall|v: Point| #[trigger]
        on_grid(map, v) && !done.contains(v) && dist[didx(cols, v)] < u32::MAX ==> exists|k: int|
            0 <= k < frontier.len() && (#[trigger] frontier[k]).position == v && frontier[k].cost
                == dist[didx(cols, v)]
}

/// Settled positions carry their optimal distance: a real path achieves
/// it and no path beats it.
#[verifier::opaque]
pub open spec fn done_settled(
    map: Seq<Vec<u32>>,
    dist: Seq<u32>,
    cols: int,
    done: Set<Point>,
    start: Point,
) -> bool {
    forall|w: Point| #[trigger]
        done.contains(w) ==> on_grid(map, w) && dist[didx(cols, w)] < u32::MAX && (exists|
            p: Seq<Point>,
        |
            is_path(map, p, start, w) && path_cost(map, p, p.len() as int) == dist[didx(cols, w)])
            && (forall|p: Seq<Point>|
            is_path(map, p, start, w) ==> path_cost(map, p, p.len() as int) >= dist[didx(cols, w)])
}

/// Every edge out of a settled position has been relaxed.
#[verifier::opaque]
pub open spec fn done_relaxed(
    map: Seq<Vec<u32>>,
    dist: Seq<u32>,
    cols: int,
    done: Set<Point>,
) -> bool {
    forall|w: Point, x: Point|
        #![trigger done.contains(w), adjacent(w, x)]
        done.contains(w) && on_grid(map, x) && adjacent(w, x) ==> dist[didx(cols, x)] <= dist[didx(
            cols,
            w,
        )] + map[x.row_index as int]@[x.col_index as int]
}

/// Coverage: every cheap walk that has left the settled set is covered by
/// a frontier entry at its first unsettled position.
#[verifier::opaque]
pub open spec fn frontier_covers(
    map: Seq<Vec<u32>>,
    frontier: Seq<State>,
    start: Point,
    done: Set<Point>,
) -> bool {
    forall|p: Seq<Point>, j: int|
        #![trigger is_walk(map, p, start), path_cost(map, p, j + 1)]
        is_walk(map, p, start) && !done.contains(p.last()) && 0 <= j < p.len() && !done.contains(
            p[j],
        ) && (forall|i: int| 0 <= i < j ==> done.contains(#[trigger] p[i])) && path_cost(
            map,
            p,
            j + 1,
        ) < u32::MAX ==> exists|k: int|
            0 <= k < frontier.len() && (#[trigger] frontier[k]).position == p[j]
                && frontier[k].cost <= path_cost(map, p, j + 1)
}

/// A popped minimum is no dearer than any path to an unsettled target.
proof fn lemma_pop_min_optimal(
    map: Seq<Vec<u32>>,
    pre: Seq<State>,
    start: Point,
    done: Set<Point>,
    target: Point,
    c: u32,
)
    requires
        frontier_covers(map, pre, start, done),
        !done.contains(target),
        forall|q: int| 0 <= q < pre.len() ==> c <= (#[trigger] pre[q]).cost,
    ensures
        forall|p: Seq<Point>| is_path(map, p, start, target) ==> path_cost(map, p, p.len() as int)
            >= c,
{
    reveal(frontier_covers);
    assert forall|p: Seq<Point>| is_path(map, p, start, target) implies path_cost(
        map,
        p,
        p.len() as int,
    ) >= c by {
        if path_cost(map, p, p.len() as int) < u32::MAX {
            let j = lemma_first_not_done(done, p, 0);
            lemma_path_cost_mono(map, p, j + 1, p.len() as int);
            assert(is_walk(map, p, start));
            assert(path_cost(map, p, j + 1) < u32::MAX);
            let k = choose|k: int|
                0 <= k < pre.len() && (#[trigger] pre[k]).position == p[j] && pre[k].cost
                    <= path_cost(map, p, j + 1);
            assert(c <= pre[k].cost);
        }
    }
}

/// Every frontier entry is backed by a real path from `start`.
pub open spec fn frontier_sound(
    map: Seq<Vec<u32>>,
    frontier: Seq<State>,
    start: Point,
) -> bool {
    forall|k: int| 0 <= k < frontier.len() ==> on_grid(map, (#[trigger] frontier[k]).position)
        && exists|p: Seq<Point>|
        is_path(map, p, start, frontier[k].position) && path_cost(map, p, p.len() as int)
            == frontier[k].cost
}

/// Pushing a backed entry keeps the frontier sound.
proof fn lemma_frontier_push(map: Seq<Vec<u32>>, pre: Seq<State>, start: Point, s: State)
    requires
        frontier_sound(map, pre, start),
        on_grid(map, s.position),
        exists|p: Seq<Point>|
            is_path(map, p, start, s.position) && path_cost(map, p, p.len() as int) == s.cost,
    ensures
        frontier_sound(map, pre.push(s), start),
{
    let f = pre.push(s);
    assert forall|k: int| 0 <= k < f.len() implies on_grid(map, (#[trigger] f[k]).position)
        && exists|p: Seq<Point>|
        is_path(map, p, start, f[k].position) && path_cost(map, p, p.len() as int)
            == f[k].cost by {
        if k < pre.len() {
            assert(f[k] == pre[k]);
        } else {
            assert(f[k] == s);
        }
    }
}

/// Removing an entry by swapping in the last keeps the frontier sound.
proof fn lemma_frontier_pop(map: Seq<Vec<u32>>, pre: Seq<State>, start: Point, best: int)
    requires
        frontier_sound(map, pre, start),
        0 <= best < pre.len(),
    ensures
        frontier_sound(map, pre.update(best, pre.last()).drop_last(), start),
{
    let f = pre.update(best, pre.last()).drop_last();
    assert forall|k: int| 0 <= k < f.len() implies on_grid(map, (#[trigger] f[k]).position)
        && exists|p: Seq<Point>|
        is_path(map, p, start, f[k].position) && path_cost(map, p, p.len() as int)
            == f[k].cost by {
        if k == best {
            assert(f[k] == pre.last());
        } else {
            assert(f[k] == pre[k]);
        }
    }
}

/// Sum of the first `n` tentative distances.
pub open spec fn dist_sum(d: Seq<u32>, n: int) -> int
    decreases n,
{
    if n <= 0 {
        0
    } else {
        dist_sum(d, n - 1) + d[n - 1]
    }
}

proof fn lemma_dist_sum_update(d: Seq<u32>, i: int, v: u32, n: int)
    requires
        0 <= i < d.len(),
        v < d[i],
    ensures
        i < n <= d.len() ==> dist_sum(d.update(i, v), n) < dist_sum(d, n),
        n <= i ==> dist_sum(d.update(i, v), n) == dist_sum(d, n),
    decreases n,
{
    if n > 0 {
        lemma_dist_sum_update(d, i, v, n - 1);
    }
}

proof fn lemma_dist_sum_nonneg(d: Seq<u32>, n: int)
    ensures
        dist_sum(d, n) >= 0,
    decreases n,
{
    if n > 0 {
        lemma_dist_sum_nonneg(d, n - 1);
    }
}

/// Settling a freshly popped optimal position keeps the settled set sound.
proof fn lemma_settled_insert(
    map: Seq<Vec<u32>>,
    dist: Seq<u32>,
    cols: int,
    done: Set<Point>,
    start: Point,
    u: Point,
)
    requires
        done_settled(map, dist, cols, done, start),
        on_grid(map, u),
        dist[didx(cols, u)] < u32::MAX,
        exists|p: Seq<Point>|
            is_path(map, p, start, u) && path_cost(map, p, p.len() as int) == dist[didx(cols, u)],
        forall|p: Seq<Point>| is_path(map, p, start, u) ==> path_cost(map, p, p.len() as int)
            >= dist[didx(cols, u)],
    ensures
        done_settled(map, dist, cols, done.insert(u), start),
{
    reveal(done_settled);
    assert forall|w: Point| #[trigger] done.insert(u).contains(w) implies on_grid(map, w) && dist[
    didx(cols, w)] < u32::MAX && (exists|p: Seq<Point>|
        is_path(map, p, start, w) && path_cost(map, p, p.len() as int) == dist[didx(cols, w)]) && (
    forall|p: Seq<Point>|
        is_path(map, p, start, w) ==> path_cost(map, p, p.len() as int) >= dist[didx(
            cols,
            w,
        )]) by {
        if w != u {
            assert(done.contains(w));
        }
    }
}

/// Relaxing one edge and pushing its entry keeps every frontier and
/// distance invariant.
proof fn lemma_push_maintain(
    map: Seq<Vec<u32>>,
    rows: int,
    cols: int,
    dist2: Seq<u32>,
    dist: Seq<u32>,
    pre2: Seq<State>,
    cur: Seq<State>,
    done: Set<Point>,
    start: Point,
    u: Point,
    x: Point,
    nc: u32,
)
    requires
        rect(map, cols),
        rows == map.len(),
        dist2.len() == rows * cols,
        on_grid(map, x),
        on_grid(map, u),
        !done.contains(x),
        done.contains(u),
        nc < dist2[didx(cols, x)],
        dist == dist2.update(didx(cols, x), nc),
        cur == pre2.push(State { cost: nc, position: x }),
        forall|k: int| 0 <= k < pre2.len() ==> on_grid(map, (#[trigger] pre2[k]).position),
        frontier_linked(dist2, cols, pre2),
        unsettled_have_entries(map, dist2, cols, pre2, done),
        done_settled(map, dist2, cols, done, start),
        done_relaxed(map, dist2, cols, done.remove(u)),
    ensures
        frontier_linked(dist, cols, cur),
        unsettled_have_entries(map, dist, cols, cur, done),
        done_settled(map, dist, cols, done, start),
        done_relaxed(map, dist, cols, done.remove(u)),
        forall|v: Point| v != x && on_grid(map, v) ==> #[trigger] dist[didx(cols, v)] == dist2[
            didx(cols, v)],
{
    crate::octopus::lemma_idx_bounds(rows, cols, x.row_index as int, x.col_index as int);
    assert forall|v: Point| v != x && on_grid(map, v) implies dist[didx(cols, v)] == dist2[didx(
        cols,
        v,
    )] by {
        crate::octopus::lemma_idx_bounds(rows, cols, v.row_index as int, v.col_index as int);
        crate::octopus::lemma_idx_injective(
            cols,
            v.row_index as int,
            v.col_index as int,
            x.row_index as int,
            x.col_index as int,
        );
    }
    assert(frontier_linked(dist, cols, cur)) by {
        reveal(frontier_linked);
        assert forall|k2: int| 0 <= k2 < cur.len() implies dist[didx(
            cols,
            (#[trigger] cur[k2]).position,
        )] <= cur[k2].cost && cur[k2].cost < u32::MAX by {
            if k2 < pre2.len() {
                assert(cur[k2] == pre2[k2]);
                if pre2[k2].position == x {
                    assert(dist[didx(cols, x)] == nc <= dist2[didx(cols, x)]);
                } else {
                    assert(on_grid(map, pre2[k2].position));
                    assert(dist[didx(cols, pre2[k2].position)] == dist2[didx(
                        cols,
                        pre2[k2].position,
                    )]);
                }
            } else {
                assert(cur[k2] == (State { cost: nc, position: x }));
            }
        }
    }
    assert(unsettled_have_entries(map, dist, cols, cur, done)) by {
        reveal(unsettled_have_entries);
        assert forall|v: Point| #[trigger]
            on_grid(map, v) && !done.contains(v) && dist[didx(cols, v)] < u32::MAX implies exists|
            k2: int,
        |
            0 <= k2 < cur.len() && (#[trigger] cur[k2]).position == v && cur[k2].cost == dist[didx(
                cols,
                v,
            )] by {
            if v == x {
                assert(cur[pre2.len() as int] == (State { cost: nc, position: x }));
            } else {
                let kd = choose|kd: int|
                    0 <= kd < pre2.len() && (#[trigger] pre2[kd]).position == v && pre2[kd].cost
                        == dist2[didx(cols, v)];
                assert(cur[kd] == pre2[kd]);
            }
        }
    }
    assert(done_settled(map, dist, cols, done, start)) by {
        reveal(done_settled);
        assert forall|w: Point| #[trigger] done.contains(w) implies on_grid(map, w) && dist[didx(
            cols,
            w,
        )] < u32::MAX && (exists|p: Seq<Point>|
            is_path(map, p, start, w) && path_cost(map, p, p.len() as int) == dist[didx(
                cols,
                w,
            )]) && (forall|p: Seq<Point>|
            is_path(map, p, start, w) ==> path_cost(map, p, p.len() as int) >= dist[didx(
                cols,
                w,
            )]) by {
            assert(w != x);
            assert(on_grid(map, w));
            assert(dist[didx(cols, w)] == dist2[didx(cols, w)]);
        }
    }
    assert(done_relaxed(map, dist, cols, done.remove(u))) by {
        reveal(done_relaxed);
        reveal(done_settled);
        assert forall|w: Point, x2: Point|
            done.remove(u).contains(w) && on_grid(map, x2) && #[trigger] adjacent(
            w,
            x2,
        ) implies dist[didx(cols, x2)] <= dist[didx(cols, w)] + map[x2.row_index as int]@[x2.col_index as int] by {
            assert(done.contains(w) && w != x);
            assert(on_grid(map, w));
            assert(dist[didx(cols, w)] == dist2[didx(cols, w)]);
            if x2 != x {
                assert(dist[didx(cols, x2)] == dist2[didx(cols, x2)]);
            } else {
                assert(dist[didx(cols, x2)] == nc <= dist2[didx(cols, x2)]);
            }
        }
    }
}

/// A relaxed edge's new entry is backed by a real path, and its endpoint
/// cannot already be settled.
proof fn lemma_relax_sound(
    map: Seq<Vec<u32>>,
    dist2: Seq<u32>,
    cols: int,
    pre2: Seq<State>,
    done: Set<Point>,
    start: Point,
    u: Point,
    x: Point,
    c: u32,
    nc: u32,
)
    requires
        frontier_sound(map, pre2, start),
        done_settled(map, dist2, cols, done, start),
        on_grid(map, x),
        adjacent(u, x),
        exists|p: Seq<Point>|
            is_path(map, p, start, u) && path_cost(map, p, p.len() as int) == c,
        nc == c + map[x.row_index as int]@[x.col_index as int],
        nc < dist2[didx(cols, x)],
    ensures
        frontier_sound(map, pre2.push(State { cost: nc, position: x }), start),
        !done.contains(x),
        exists|p: Seq<Point>|
            is_path(map, p, start, x) && path_cost(map, p, p.len() as int) == nc,
{
    let p = choose|p: Seq<Point>|
        is_path(map, p, start, u) && path_cost(map, p, p.len() as int) == c;
    lemma_path_extend(map, p, start, u, x);
    assert(is_path(map, p.push(x), start, x) && path_cost(map, p.push(x), p.push(x).len() as int)
        == nc);
    let s = State { cost: nc, position: x };
    assert(s.position == x && s.cost == nc);
    assert(exists|p2: Seq<Point>|
        is_path(map, p2, start, s.position) && path_cost(map, p2, p2.len() as int) == s.cost);
    lemma_frontier_push(map, pre2, start, s);
    if done.contains(x) {
        reveal(done_settled);
        assert(path_cost(map, p.push(x), p.push(x).len() as int) >= dist2[didx(cols, x)]);
        assert(false);
    }
}

/// The one-entry start frontier covers every walk.
proof fn lemma_covers_init(map: Seq<Vec<u32>>, frontier: Seq<State>, start: Point)
    requires
        frontier.len() == 1,
        frontier[0] == (State { cost: 0u32, position: start }),
    ensures
        frontier_covers(map, frontier, start, Set::empty()),
{
    reveal(frontier_covers);
    let done = Set::<Point>::empty();
    assert forall|p: Seq<Point>, j: int|
        is_walk(map, p, start) && !done.contains(p.last()) && 0 <= j < p.len() && !done.contains(
            p[j],
        ) && (forall|i: int| 0 <= i < j ==> done.contains(#[trigger] p[i])) && #[trigger] path_cost(
            map,
            p,
            j + 1,
        ) < u32::MAX implies exists|k: int|
        0 <= k < frontier.len() && (#[trigger] frontier[k]).position == p[j] && frontier[k].cost
            <= path_cost(map, p, j + 1) by {
        assert(j == 0) by {
            if j > 0 {
                assert(done.contains(p[0]));
            }
        }
        lemma_path_cost_nonneg(map, p, j + 1);
        assert(frontier[0].position == p[0]);
    }
}

/// Skipping a stale entry keeps the frontier covering.
proof fn lemma_covers_after_skip(
    map: Seq<Vec<u32>>,
    dist: Seq<u32>,
    cols: int,
    pre: Seq<State>,
    best: int,
    start: Point,
    done: Set<Point>,
)
    requires
        0 <= best < pre.len(),
        frontier_covers(map, pre, start, done),
        unsettled_have_entries(map, dist, cols, pre, done),
        dist[didx(cols, pre[best].position)] < pre[best].cost,
        on_grid(map, pre[best].position),
    ensures
        frontier_covers(map, pre.update(best, pre.last()).drop_last(), start, done),
{
    reveal(frontier_covers);
    reveal(unsettled_have_entries);
    let u = pre[best].position;
    let c = pre[best].cost;
    let f = pre.update(best, pre.last()).drop_last();
    assert forall|p: Seq<Point>, j: int|
        is_walk(map, p, start) && !done.contains(p.last()) && 0 <= j < p.len() && !done.contains(
            p[j],
        ) && (forall|i: int| 0 <= i < j ==> done.contains(#[trigger] p[i])) && #[trigger] path_cost(
            map,
            p,
            j + 1,
        ) < u32::MAX implies exists|k: int|
        0 <= k < f.len() && (#[trigger] f[k]).position == p[j] && f[k].cost <= path_cost(
            map,
            p,
            j + 1,
        ) by {
        assert(is_walk(map, p, start));
        let k0 = choose|k0: int|
            0 <= k0 < pre.len() && (#[trigger] pre[k0]).position == p[j] && pre[k0].cost
                <= path_cost(map, p, j + 1);
        if k0 != best {
            lemma_entry_survives_pop(pre, best, k0);
        } else {
            assert(p[j] == u && !done.contains(u));
            assert(dist[didx(cols, u)] < c <= path_cost(map, p, j + 1));
            let kd = choose|kd: int|
                0 <= kd < pre.len() && (#[trigger] pre[kd]).position == u && pre[kd].cost == dist[
                    didx(cols, u)];
            assert(kd != best);
            lemma_entry_survives_pop(pre, best, kd);
        }
    }
}

/// Unsettled positions keep their distance-carrying entries when the
/// popped entry was stale or its position is settled.
proof fn lemma_unsettled_after_pop(
    map: Seq<Vec<u32>>,
    dist: Seq<u32>,
    cols: int,
    pre: Seq<State>,
    best: int,
    done: Set<Point>,
)
    requires
        0 <= best < pre.len(),
        unsettled_have_entries(map, dist, cols, pre, done),
        done.contains(pre[best].position) || dist[didx(cols, pre[best].position)] < pre[
            best].cost,
    ensures
        unsettled_have_entries(
            map,
            dist,
            cols,
            pre.update(best, pre.last()).drop_last(),
            done,
        ),
{
    reveal(unsettled_have_entries);
    let f = pre.update(best, pre.last()).drop_last();
    assert forall|v: Point| #[trigger]
        on_grid(map, v) && !done.contains(v) && dist[didx(cols, v)] < u32::MAX implies exists|
        k2: int,
    |
        0 <= k2 < f.len() && (#[trigger] f[k2]).position == v && f[k2].cost == dist[didx(
            cols,
            v,
        )] by {
        let kd = choose|kd: int|
            0 <= kd < pre.len() && (#[trigger] pre[kd]).position == v && pre[kd].cost == dist[didx(
                cols,
                v,
            )];
        assert(kd != best);
        lemma_entry_survives_pop(pre, best, kd);
    }
}

/// Popping an entry whose position is already settled keeps the frontier
/// covering: no covered position is settled, so no covering entry is lost.
proof fn lemma_covers_after_pop_settled(
    map: Seq<Vec<u32>>,
    pre: Seq<State>,
    best: int,
    start: Point,
    done: Set<Point>,
)
    requires
        0 <= best < pre.len(),
        frontier_covers(map, pre, start, done),
        done.contains(pre[best].position),
    ensures
        frontier_covers(map, pre.update(best, pre.last()).drop_last(), start, done),
{
    reveal(frontier_covers);
    let f = pre.update(best, pre.last()).drop_last();
    assert forall|p: Seq<Point>, j: int|
        is_walk(map, p, start) && !done.contains(p.last()) && 0 <= j < p.len() && !done.contains(
            p[j],
        ) && (forall|i: int| 0 <= i < j ==> done.contains(#[trigger] p[i])) && #[trigger] path_cost(
            map,
            p,
            j + 1,
        ) < u32::MAX implies exists|k: int|
        0 <= k < f.len() && (#[trigger] f[k]).position == p[j] && f[k].cost <= path_cost(
            map,
            p,
            j + 1,
        ) by {
        assert(is_walk(map, p, start));
        let k0 = choose|k0: int|
            0 <= k0 < pre.len() && (#[trigger] pre[k0]).position == p[j] && pre[k0].cost
                <= path_cost(map, p, j + 1);
        assert(k0 != best);
        lemma_entry_survives_pop(pre, best, k0);
    }
}

/// After settling the popped position and relaxing all its edges, the
/// frontier covers again.
proof fn lemma_covers_after_process(
    map: Seq<Vec<u32>>,
    dist: Seq<u32>,
    cols: int,
    pre: Seq<State>,
    best: int,
    cur: Seq<State>,
    start: Point,
    done: Set<Point>,
)
    requires
        0 <= best < pre.len(),
        done.contains(pre[best].position),
        frontier_covers(map, pre, start, done.remove(pre[best].position)),
        forall|q: int| 0 <= q < pre.len() ==> pre[best].cost <= (#[trigger] pre[q]).cost,
        cur.len() >= pre.len() - 1,
        forall|q: int|
            0 <= q < pre.update(best, pre.last()).drop_last().len() ==> #[trigger] cur[q]
                == pre.update(best, pre.last()).drop_last()[q],
        dist[didx(cols, pre[best].position)] == pre[best].cost,
        done_relaxed(map, dist, cols, done),
        unsettled_have_entries(map, dist, cols, cur, done),
    ensures
        frontier_covers(map, cur, start, done),
{
    reveal(frontier_covers);
    reveal(unsettled_have_entries);
    let u = pre[best].position;
    let c = pre[best].cost;
    let old_done = done.remove(u);
    assert forall|p: Seq<Point>, j: int|
        is_walk(map, p, start) && !done.contains(p.last()) && 0 <= j < p.len() && !done.contains(
            p[j],
        ) && (forall|i: int| 0 <= i < j ==> done.contains(#[trigger] p[i])) && #[trigger] path_cost(
            map,
            p,
            j + 1,
        ) < u32::MAX implies exists|k: int|
        0 <= k < cur.len() && (#[trigger] cur[k]).position == p[j] && cur[k].cost <= path_cost(
            map,
            p,
            j + 1,
        ) by {
        assert(!old_done.contains(p.last()));
        let j0 = lemma_first_not_done(old_done, p, 0);
        assert(j0 <= j) by {
            if j < j0 {
                assert(old_done.contains(p[j]));
            }
        }
        lemma_path_cost_mono(map, p, j0 + 1, j + 1);
        lemma_path_cost_nonneg(map, p, j0 + 1);
        assert(is_walk(map, p, start));
        assert(path_cost(map, p, j0 + 1) < u32::MAX);
        let k0 = choose|k0: int|
            0 <= k0 < pre.len() && (#[trigger] pre[k0]).position == p[j0] && pre[k0].cost
                <= path_cost(map, p, j0 + 1);
        if p[j0] != u {
            assert(j0 == j) by {
                if j0 < j {
                    assert(done.contains(p[j0]));
                    assert(!old_done.contains(p[j0]));
                }
            }
            assert(k0 != best);
            lemma_entry_survives_pop(pre, best, k0);
            let k3 = choose|k3: int|
                0 <= k3 < pre.update(best, pre.last()).drop_last().len() && (#[trigger] pre.update(
                    best,
                    pre.last(),
                ).drop_last()[k3]) == pre[k0];
            assert(cur[k3] == pre[k0]);
        } else {
            assert(c <= pre[k0].cost);
            assert(dist[didx(cols, u)] <= path_cost(map, p, j0 + 1));
            assert(forall|i: int| j0 <= i < j ==> done.contains(#[trigger] p[i])) by {
                assert(done.contains(u));
            }
            lemma_done_walk(map, dist, cols, done, p, j0, j);
            assert(dist[didx(cols, p[j])] <= path_cost(map, p, j + 1));
            assert(on_grid(map, p[j]));
        }
    }
}

/// Search for the cheapest route from `start` to `end`, expanding the
/// cheapest frontier cell first.  A returned cost is the risk of a real
/// path from `start` to `end`, and no path to `end` is cheaper; `None`
/// only when every path to `end` costs at least the largest `u32` — so,
/// on any map whose path costs stay in range, exactly when `end` is
/// unreachable.
#[verifier::rlimit(100)]
pub fn dijkstra(map: &Vec<Vec<u32>>, start: Point, end: Point) -> (r: Option<u32>)
    requires
        rect(map@, map@[map@.len() - 1]@.len() as int),
        on_grid(map@, start),
        on_grid(map@, end),
        map@.len() * map@[map@.len() - 1]@.len() <= usize::MAX,
    ensures
        match r {
            Some(c) => (exists|p: Seq<Point>|
                is_path(map@, p, start, end) && path_cost(map@, p, p.len() as int) == c) && (
            forall|p: Seq<Point>|
                is_path(map@, p, start, end) ==> path_cost(map@, p, p.len() as int) >= c),
            None => forall|p: Seq<Point>|
                is_path(map@, p, start, end) ==> path_cost(map@, p, p.len() as int) >= u32::MAX,
        },
        start == end ==> r == Some(0u32),
{
    let rows = map.len();
    let cols = map[map.len() - 1].len();
    proof {
        crate::octopus::lemma_idx_bounds(
            rows as int,
            cols as int,
            start.row_index as int,
            start.col_index as int,
        );
    }
    let mut dist: Vec<u32> = Vec::new();
    let mut k: usize = 0;
    let total = rows * cols;
    while k < total
        invariant
            0 <= k <= total,
            dist@.len() == k,
            forall|q: int| 0 <= q < k ==> #[trigger] dist@[q] == u32::MAX,
        decreases total - k,
    {
        dist.push(u32::MAX);
        k = k + 1;
    }
    dist[start.row_index * cols + start.col_index] = 0;

    let mut frontier: Vec<State> = Vec::new();
    frontier.push(State { cost: 0, position: start });
    let ghost mut done: Set<Point> = Set::empty();
    proof {
        let p0 = seq![start];
        assert(is_walk(map@, p0, start));
        assert(is_path(map@, p0, start, start) && path_cost(map@, p0, p0.len() as int) == 0);
        assert(frontier_sound(map@, Seq::<State>::empty(), start));
        lemma_frontier_push(map@, Seq::empty(), start, State { cost: 0u32, position: start });
        assert(frontier@ =~= Seq::<State>::empty().push(State { cost: 0u32, position: start }));
        lemma_covers_init(map@, frontier@, start);
        assert(frontier_linked(dist@, cols as int, frontier@)) by {
            reveal(frontier_linked);
        }
        assert(unsettled_have_entries(map@, dist@, cols as int, frontier@, done)) by {
            reveal(unsettled_have_entries);
            assert forall|v: Point| #[trigger]
                on_grid(map@, v) && !done.contains(v) && dist@[didx(cols as int, v)]
                    < u32::MAX implies exists|k2: int|
                0 <= k2 < frontier@.len() && (#[trigger] frontier@[k2]).position == v
                    && frontier@[k2].cost == dist@[didx(cols as int, v)] by {
                crate::octopus::lemma_idx_bounds(
                    rows as int,
                    cols as int,
                    v.row_index as int,
                    v.col_index as int,
                );
                if v != start {
                    crate::octopus::lemma_idx_injective(
                        cols as int,
                        v.row_index as int,
                        v.col_index as int,
                        start.row_index as int,
                        start.col_index as int,
                    );
                    assert(false);
                }
                assert(frontier@[0].position == v && frontier@[0].cost == 0);
            }
        }
        assert(done_settled(map@, dist@, cols as int, done, start)) by {
            reveal(done_settled);
        }
        assert(done_relaxed(map@, dist@, cols as int, done)) by {
            reveal(done_relaxed);
        }
    }

    loop
        invariant
            rect(map@, cols as int),
            cols == map@[map@.len() - 1]@.len(),
            rows == map@.len(),
            on_grid(map@, end),
            on_grid(map@, start),
            dist@.len() == rows * cols,
            rows * cols <= usize::MAX,
            frontier_sound(map@, frontier@, start),
            frontier_covers(map@, frontier@, start, done),
            !done.contains(end),
            frontier_linked(dist@, cols as int, frontier@),
            unsettled_have_entries(map@, dist@, cols as int, frontier@, done),
            done_settled(map@, dist@, cols as int, done, start),
            done_relaxed(map@, dist@, cols as int, done),
        ensures
            true,
        decreases dist_sum(dist@, dist@.len() as int), frontier@.len(),
    {
        if frontier.len() == 0 {
            proof {
                lemma_pop_min_optimal(map@, frontier@, start, done, end, u32::MAX);
                if start == end {
                    let p0 = seq![start];
                    assert(is_walk(map@, p0, start));
                    assert(is_path(map@, p0, start, end) && path_cost(map@, p0, 1) == 0);
                    assert(false);
                }
            }
            return None;
        }
        let mut best: usize = 0;
        let mut j: usize = 1;
        while j < frontier.len()
            invariant
                0 < frontier@.len(),
                0 <= best < frontier@.len(),
                1 <= j <= frontier@.len(),
                forall|q: int| 0 <= q < j ==> frontier@[best as int].cost <= (
                #[trigger] frontier@[q]).cost,
            decreases frontier@.len() - j,
        {
            if frontier[j].cost < frontier[best].cost {
                best = j;
            }
            j = j + 1;
        }
        let ghost pre_frontier = frontier@;
        let state = frontier.swap_remove(best);
        let ghost popped_frontier = frontier@;
        proof {
            assert(state == pre_frontier[best as int]);
            lemma_frontier_pop(map@, pre_frontier, start, best as int);
            assert(frontier@ =~= pre_frontier.update(
                best as int,
                pre_frontier.last(),
            ).drop_last());
            assert(on_grid(map@, state.position) && exists|p: Seq<Point>|
                is_path(map@, p, start, state.position) && path_cost(map@, p, p.len() as int)
                    == state.cost);
            assert(frontier_linked(dist@, cols as int, frontier@)) by {
                reveal(frontier_linked);
                assert forall|k2: int| 0 <= k2 < frontier@.len() implies dist@[didx(
                    cols as int,
                    (#[trigger] frontier@[k2]).position,
                )] <= frontier@[k2].cost && frontier@[k2].cost < u32::MAX by {
                    assert(frontier@[k2] == pre_frontier[k2] || frontier@[k2]
                        == pre_frontier.last());
                }
            }
        }
        let cost = state.cost;
        let position = state.position;
        if position.row_index == end.row_index && position.col_index == end.col_index {
            proof {
                assert(position == end);
                lemma_pop_min_optimal(map@, pre_frontier, start, done, end, cost);
                if start == end {
                    let p0 = seq![start];
                    assert(is_walk(map@, p0, start));
                    assert(is_path(map@, p0, start, end) && path_cost(map@, p0, 1) == 0);
                    let pw = choose|p: Seq<Point>|
                        is_path(map@, p, start, end) && path_cost(map@, p, p.len() as int)
                            == cost;
                    lemma_path_cost_nonneg(map@, pw, pw.len() as int);
                }
            }
            return Some(cost);
        }
        proof {
            crate::octopus::lemma_idx_bounds(
                rows as int,
                cols as int,
                position.row_index as int,
                position.col_index as int,
            );
        }
        let idx_cur = position.row_index * cols + position.col_index;
        if cost > dist[idx_cur] {
            proof {
                lemma_dist_sum_nonneg(dist@, dist@.len() as int);
                lemma_covers_after_skip(
                    map@,
                    dist@,
                    cols as int,
                    pre_frontier,
                    best as int,
                    start,
                    done,
                );
                lemma_unsettled_after_pop(
                    map@,
                    dist@,
                    cols as int,
                    pre_frontier,
                    best as int,
                    done,
                );
            }
            continue ;
        }
        let ghost was_done = done.contains(position);
        let ghost old_done = done;
        proof {
            assert(cost == dist@[didx(cols as int, position)]) by {
                reveal(frontier_linked);
                assert(dist@[didx(cols as int, position)] <= pre_frontier[best as int].cost) by {
                    assert(frontier_linked(dist@, cols as int, pre_frontier));
                }
            }
            if !was_done {
                lemma_pop_min_optimal(map@, pre_frontier, start, done, position, cost);
                assert(cost < u32::MAX) by {
                    reveal(frontier_linked);
                    assert(frontier_linked(dist@, cols as int, pre_frontier));
                }
                lemma_settled_insert(map@, dist@, cols as int, done, start, position);
                done = done.insert(position);
            }
            assert(position != end);
            assert(done.contains(position));
            assert(unsettled_have_entries(map@, dist@, cols as int, pre_frontier, done)) by {
                reveal(unsettled_have_entries);
                assert(unsettled_have_entries(map@, dist@, cols as int, pre_frontier, old_done));
                assert forall|v: Point| #[trigger]
                    on_grid(map@, v) && !done.contains(v) && dist@[didx(cols as int, v)]
                        < u32::MAX implies exists|k2: int|
                    0 <= k2 < pre_frontier.len() && (#[trigger] pre_frontier[k2]).position == v
                        && pre_frontier[k2].cost == dist@[didx(cols as int, v)] by {
                    assert(!old_done.contains(v));
                }
            }
            lemma_unsettled_after_pop(
                map@,
                dist@,
                cols as int,
                pre_frontier,
                best as int,
                done,
            );
            if !was_done {
                assert(done.remove(position) =~= old_done);
                assert(done_relaxed(map@, dist@, cols as int, done.remove(position))) by {
                    reveal(done_relaxed);
                }
            } else {
                assert(done =~= old_done);
                assert(done_relaxed(map@, dist@, cols as int, done.remove(position))) by {
                    reveal(done_relaxed);
                    assert forall|w: Point, x: Point|
                        done.remove(position).contains(w) && on_grid(map@, x) && #[trigger]
                    adjacent(w, x) implies dist@[didx(cols as int, x)] <= dist@[didx(
                        cols as int,
                        w,
                    )] + map@[x.row_index as int]@[x.col_index as int] by {
                        assert(done.contains(w));
                    }
                }
            }
        }
        let edges = position.edges(map);
        let mut e: usize = 0;
        let ghost dist_before = dist@;
        let mut pushed: bool = false;
        while e < edges.len()
            invariant
                rect(map@, cols as int),
                cols == map@[map@.len() - 1]@.len(),
                rows == map@.len(),
                dist@.len() == rows * cols,
                edges@ == edges_of(map@, position),
                rows * cols <= usize::MAX,
                on_grid(map@, position),
                on_grid(map@, start),
                done.contains(position),
                cost == dist@[didx(cols as int, position)],
                frontier_sound(map@, frontier@, start),
                0 <= e <= edges@.len(),
                exists|p: Seq<Point>|
                    is_path(map@, p, start, position) && path_cost(map@, p, p.len() as int)
                        == cost,
                pushed ==> dist_sum(dist@, dist@.len() as int) < dist_sum(
                    dist_before,
                    dist_before.len() as int,
                ),
                !pushed ==> dist@ == dist_before,
                !pushed ==> frontier@ == popped_frontier,
                was_done ==> done =~= old_done && !pushed,
                was_done ==> done_relaxed(map@, dist@, cols as int, done),
                !was_done ==> done =~= old_done.insert(position),
                forall|q: int| 0 <= q < popped_frontier.len() ==> #[trigger] frontier@[q]
                    == popped_frontier[q],
                frontier@.len() >= popped_frontier.len(),
                forall|k2: int| 0 <= k2 < edges@.len() ==> on_grid(
                    map@,
                    (#[trigger] edges@[k2]).point,
                ) && adjacent(position, edges@[k2].point) && edges@[k2].cost == map@[edges@[k2].point.row_index as int]@[edges@[k2].point.col_index as int],
                forall|k2: int| 0 <= k2 < e ==> dist@[didx(
                    cols as int,
                    (#[trigger] edges@[k2]).point,
                )] <= cost + edges@[k2].cost,
                frontier_linked(dist@, cols as int, frontier@),
                unsettled_have_entries(map@, dist@, cols as int, frontier@, done),
                done_settled(map@, dist@, cols as int, done, start),
                done_relaxed(map@, dist@, cols as int, done.remove(position)),
            decreases edges@.len() - e,
        {
            let edge = edges[e];
            proof {
                crate::octopus::lemma_idx_bounds(
                    rows as int,
                    cols as int,
                    edge.point.row_index as int,
                    edge.point.col_index as int,
                );
            }
            let idx_next = edge.point.row_index * cols + edge.point.col_index;
            let next_cost: u64 = cost as u64 + edge.cost as u64;
            if next_cost < dist[idx_next] as u64 {
                let nc = next_cost as u32;
                proof {
                    if was_done {
                        reveal(done_relaxed);
                        assert(dist@[didx(cols as int, edge.point)] <= dist@[didx(
                            cols as int,
                            position,
                        )] + map@[edge.point.row_index as int]@[edge.point.col_index as int]);
                        assert(false);
                    }
                    lemma_dist_sum_update(dist@, idx_next as int, nc, dist@.len() as int);
                }
                let ghost pre2 = frontier@;
                let ghost dist2 = dist@;
                proof {
                    lemma_relax_sound(
                        map@,
                        dist2,
                        cols as int,
                        pre2,
                        done,
                        start,
                        position,
                        edge.point,
                        cost,
                        nc,
                    );
                }
                frontier.push(State { cost: nc, position: edge.point });
                dist[idx_next] = nc;
                pushed = true;
                proof {
                    lemma_push_maintain(
                        map@,
                        rows as int,
                        cols as int,
                        dist2,
                        dist@,
                        pre2,
                        frontier@,
                        done,
                        start,
                        position,
                        edge.point,
                        nc,
                    );
                    assert(position != edge.point);
                    assert(dist@[didx(cols as int, position)] == dist2[didx(
                        cols as int,
                        position,
                    )]);
                }
            }
            e = e + 1;
        }
        proof {
            lemma_dist_sum_nonneg(dist@, dist@.len() as int);
            if !pushed {
                assert(frontier@ =~= popped_frontier);
                assert(frontier@.len() < pre_frontier.len());
            }
            assert(done_relaxed(map@, dist@, cols as int, done)) by {
                reveal(done_relaxed);
                lemma_edges_complete(map@, position, cols as int);
                assert(done_relaxed(map@, dist@, cols as int, done.remove(position)));
                assert forall|w: Point, x: Point|
                    done.contains(w) && on_grid(map@, x) && #[trigger] adjacent(w, x) implies
                    dist@[didx(cols as int, x)] <= dist@[didx(cols as int, w)]
                    + map@[x.row_index as int]@[x.col_index as int] by {
                    if w == position {
                        let k2 = choose|k2: int|
                            0 <= k2 < edges_of(map@, position).len() && (#[trigger] edges_of(
                                map@,
                                position,
                            )[k2]).point == x;
                        assert(dist@[didx(cols as int, x)] <= cost + edges_of(
                            map@,
                            position,
                        )[k2].cost);
                    } else {
                        assert(done.remove(position).contains(w));
                    }
                }
            }
            if was_done {
                lemma_covers_after_pop_settled(map@, pre_frontier, best as int, start, done);
                assert(frontier@ =~= pre_frontier.update(
                    best as int,
                    pre_frontier.last(),
                ).drop_last());
            } else {
                assert(done.remove(position) =~= old_done);
                lemma_covers_after_process(
                    map@,
                    dist@,
                    cols as int,
                    pre_frontier,
                    best as int,
                    frontier@,
                    start,
                    done,
                );
            }
        }
    }
}

/// The risk of a tiled cell: the base risk plus the tile offsets,
/// wrapped back into one through nine.
pub open spec fn tiled_risk(base: int, i: int, j: int) -> int {
    if base + i + j > 9 {
        base + i + j - 9
    } else {
        base + i + j
    }
}

/// The full cave: the map tiled five by five, each tile adding its
/// distance to the risks and wrapping above nine.
pub fn expand_map(map: &Vec<Vec<u32>>) -> (big: Vec<Vec<u32>>)
    requires
        rect(map@, map@[map@.len() - 1]@.len() as int),
        forall|r: int, c: int|
            0 <= r < map@.len() && 0 <= c < map@[r]@.len() ==> (#[trigger] map@[r]@[c]) <= 9,
        map@.len() * 5 <= usize::MAX,
        map@[map@.len() - 1]@.len() * 5 <= usize::MAX,
    ensures
        big@.len() == 5 * map@.len(),
        rect(big@, 5 * map@[map@.len() - 1]@.len() as int),
        forall|r: int, c: int|
            0 <= r < big@.len() && 0 <= c < 5 * map@[map@.len() - 1]@.len() ==> (
            #[trigger] big@[r]@[c]) == tiled_risk(
                map@[r % map@.len() as int]@[c % map@[map@.len() - 1]@.len() as int] as int,
                r / map@.len() as int,
                c / map@[map@.len() - 1]@.len() as int,
            ),
{
    let rows = map.len();
    let cols = map[map.len() - 1].len();
    let mut big: Vec<Vec<u32>> = Vec::new();
    let mut r: usize = 0;
    while r < 5 * rows
        invariant
            0 <= r <= 5 * rows,
            rows == map@.len(),
            cols == map@[map@.len() - 1]@.len(),
            rect(map@, cols as int),
            rows * 5 <= usize::MAX,
            cols * 5 <= usize::MAX,
            forall|r2: int, c2: int|
                0 <= r2 < map@.len() && 0 <= c2 < map@[r2]@.len() ==> (#[trigger] map@[r2]@[c2])
                    <= 9,
            big@.len() == r,
            forall|r2: int| 0 <= r2 < r ==> (#[trigger] big@[r2])@.len() == 5 * cols,
            forall|r2: int, c2: int|
                0 <= r2 < r && 0 <= c2 < 5 * cols ==> (#[trigger] big@[r2]@[c2]) == tiled_risk(
                    map@[r2 % rows as int]@[c2 % cols as int] as int,
                    r2 / rows as int,
                    c2 / cols as int,
                ),
        decreases 5 * rows - r,
    {
        let mut row: Vec<u32> = Vec::new();
        let mut c: usize = 0;
        proof {
            assert(0 <= (r as int) % (rows as int) < rows && 0 <= (r as int) / (rows as int) <= 4) by (
            nonlinear_arith)
                requires
                    rows >= 1 && 0 <= r < 5 * rows,
            ;
        }
        while c < 5 * cols
            invariant
                0 <= c <= 5 * cols,
                0 <= r < 5 * rows,
                rows == map@.len(),
                cols == map@[map@.len() - 1]@.len(),
                rect(map@, cols as int),
                rows * 5 <= usize::MAX,
                cols * 5 <= usize::MAX,
                forall|r2: int, c2: int|
                    0 <= r2 < map@.len() && 0 <= c2 < map@[r2]@.len() ==> (
                    #[trigger] map@[r2]@[c2]) <= 9,
                row@.len() == c,
                forall|c2: int| 0 <= c2 < c ==> (#[trigger] row@[c2]) == tiled_risk(
                    map@[r as int % rows as int]@[c2 % cols as int] as int,
                    r as int / rows as int,
                    c2 / cols as int,
                ),
            decreases 5 * cols - c,
        {
            proof {
                assert(0 <= (c as int) % (cols as int) < cols && 0 <= (c as int) / (cols as int) <= 4) by (
                nonlinear_arith)
                    requires
                        cols >= 1 && 0 <= c < 5 * cols,
                ;
                assert(0 <= (r as int) % (rows as int) < rows && 0 <= (r as int) / (rows as int) <= 4) by (
                nonlinear_arith)
                    requires
                        rows >= 1 && 0 <= r < 5 * rows,
                ;
            }
            let base = map[r % rows][c % cols];
            let ti = (r / rows) as u32;
            let tj = (c / cols) as u32;
            let mut v = base + ti + tj;
            if v > 9 {
                v = v - 9;
            }
            row.push(v);
            c = c + 1;
        }
        big.push(row);
        r = r + 1;
    }
    big
}

} // verus!

