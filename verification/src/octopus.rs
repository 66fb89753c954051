//! A grid of flashing octopuses.  Each step every energy level rises by
//! one; a level above nine makes the octopus flash, raising all eight
//! neighbours (possibly flashing them too, once each per step), and every
//! octopus that flashed resets to zero.
//!
//! The grid is stored flat, row-major, so that every mutation is a single
//! cell update.

use vstd::prelude::*;

verus! {

/// One octopus: its energy and whether it has flashed this step.
#[derive(Clone, Copy, Debug, PartialEq, Eq, Structural)]
pub struct Node {
    pub value: u32,
    pub flashed: bool,
}

/// The octopus grid: cells in row-major order.
pub struct OctoGrid {
    pub cells: Vec<Node>,
    pub rows: usize,
    pub cols: usize,
}

impl OctoGrid {
    /// The stored cells fill the stated rectangle.
    pub open spec fn wf(&self) -> bool {
        self.cells@.len() == self.rows * self.cols && self.rows >= 1 && self.cols >= 1
    }

    /// Index of cell `(r, c)` in the flat storage.
    pub open spec fn idx(&self, r: int, c: int) -> int {
        r * self.cols + c
    }
}

/// `(r, c)` lies in an `rows` by `cols` grid.
pub open spec fn in_grid(rows: int, cols: int, r: int, c: int) -> bool {
    0 <= r < rows && 0 <= c < cols
}

/// Row-major position of `(r, c)` stays inside the storage.
pub proof fn lemma_idx_bounds(rows: int, cols: int, r: int, c: int)
    requires
        in_grid(rows, cols, r, c),
    ensures
        0 <= r * cols + c < rows * cols,
{
    assert(r * cols + c < rows * cols) by (nonlinear_arith)
        requires
            0 <= r < rows && 0 <= c < cols,
    ;
    assert(r * cols + c >= 0) by (nonlinear_arith)
        requires
            r >= 0 && c >= 0 && cols >= 0,
    ;
}

/// Distinct cells get distinct row-major positions.
pub proof fn lemma_idx_injective(cols: int, r1: int, c1: int, r2: int, c2: int)
    requires
        cols > 0,
        0 <= c1 < cols,
        0 <= c2 < cols,
        0 <= r1,
        0 <= r2,
        !(r1 == r2 && c1 == c2),
    ensures
        r1 * cols + c1 != r2 * cols + c2,
{
    assert(r1 * cols + c1 != r2 * cols + c2) by (nonlinear_arith)
        requires
            cols > 0 && 0 <= c1 < cols && 0 <= c2 < cols && 0 <= r1 && 0 <= r2 && !(r1 == r2 && c1
                == c2),
    ;
}

/// One cell of `m` with its energy raised by one.
pub open spec fn bumped(m: Seq<Node>, i: int) -> Seq<Node> {
    m.update(i, Node { value: (m[i].value + 1) as u32, flashed: m[i].flashed })
}

/// Whether raising cell `i` pushes it onto the work stack.
pub open spec fn bump_pushes(m: Seq<Node>, i: int) -> bool {
    m[i].value + 1 > 9
}

/// Raise the energy at `(row, col)` by one; if it passes nine, put the
/// cell on the work stack.
pub fn inc_push(grid: &mut OctoGrid, stack: &mut Vec<(usize, usize)>, row: usize, col: usize)
    requires
        old(grid).wf(),
        in_grid(old(grid).rows as int, old(grid).cols as int, row as int, col as int),
        old(grid).cells@[old(grid).idx(row as int, col as int)].value < u32::MAX,
    ensures
        final(grid).rows == old(grid).rows && final(grid).cols == old(grid).cols,
        final(grid).wf(),
        final(grid).cells@ == bumped(old(grid).cells@, old(grid).idx(row as int, col as int)),
        final(stack)@ == if bump_pushes(old(grid).cells@, old(grid).idx(row as int, col as int)) {
            old(stack)@.push((row, col))
        } else {
            old(stack)@
        },
{
    let total = grid.cells.len();
    proof {
        lemma_idx_bounds(grid.rows as int, grid.cols as int, row as int, col as int);
        assert(row as int * grid.cols as int + col < total);
    }
    let i = row * grid.cols + col;
    let node = grid.cells[i];
    grid.cells[i] = Node { value: node.value + 1, flashed: node.flashed };
    if node.value + 1 > 9 {
        stack.push((row, col));
    }
}

/// Number of the first `n` cells that have not flashed.
pub open spec fn unflashed_count(m: Seq<Node>, n: int) -> int
    decreases n,
{
    if n <= 0 {
        0
    } else {
        unflashed_count(m, n - 1) + if m[n - 1].flashed {
            0int
        } else {
            1int
        }
    }
}

/// Counting unflashed cells only looks at the flags.
proof fn lemma_unflashed_flags(a: Seq<Node>, b: Seq<Node>, n: int)
    requires
        n <= a.len(),
        a.len() == b.len(),
        forall|c: int| 0 <= c < a.len() ==> a[c].flashed == (#[trigger] b[c]).flashed,
    ensures
        unflashed_count(a, n) == unflashed_count(b, n),
    decreases n,
{
    if n > 0 {
        lemma_unflashed_flags(a, b, n - 1);
    }
}

/// Flagging one unflashed cell lowers the count by exactly one.
proof fn lemma_unflashed_mark(a: Seq<Node>, c: int, n: int)
    requires
        n <= a.len(),
        0 <= c < a.len(),
        !a[c].flashed,
    ensures
        c < n ==> unflashed_count(a.update(c, Node { value: a[c].value, flashed: true }), n)
            == unflashed_count(a, n) - 1,
        n <= c ==> unflashed_count(a.update(c, Node { value: a[c].value, flashed: true }), n)
            == unflashed_count(a, n),
    decreases n,
{
    if n > 0 {
        lemma_unflashed_mark(a, c, n - 1);
    }
}

/// All energies at or below `bound`.
pub open spec fn values_at_most(m: Seq<Node>, bound: int) -> bool {
    forall|i: int| 0 <= i < m.len() ==> (#[trigger] m[i]).value <= bound
}

/// Offsets of the eight neighbours, in the order they are raised:
/// N, NE, E, SE, S, SW, W, NW.
pub open spec fn dir_delta(k: int) -> (int, int) {
    if k == 0 {
        (-1int, 0int)
    } else if k == 1 {
        (-1int, 1int)
    } else if k == 2 {
        (0int, 1int)
    } else if k == 3 {
        (1int, 1int)
    } else if k == 4 {
        (1int, 0int)
    } else if k == 5 {
        (1int, -1int)
    } else if k == 6 {
        (0int, -1int)
    } else if k == 7 {
        (-1int, -1int)
    } else {
        (0int, 0int)
    }
}

/// The grid after raising the first `k` neighbours of `(row, col)` that
/// lie inside the grid.
pub open spec fn ring_chain(m: Seq<Node>, rows: int, cols: int, row: int, col: int, k: int) -> Seq<
    Node,
>
    decreases k,
{
    if k <= 0 {
        m
    } else {
        let p = ring_chain(m, rows, cols, row, col, k - 1);
        let d = dir_delta(k - 1);
        if in_grid(rows, cols, row + d.0, col + d.1) {
            bumped(p, (row + d.0) * cols + (col + d.1))
        } else {
            p
        }
    }
}

/// The neighbours among the first `k` that the raise pushes onto the work
/// stack, in order.
pub open spec fn ring_pushed(m: Seq<Node>, rows: int, cols: int, row: int, col: int, k: int) -> Seq<
    (usize, usize),
>
    decreases k,
{
    if k <= 0 {
        Seq::empty()
    } else {
        let d = dir_delta(k - 1);
        ring_pushed(m, rows, cols, row, col, k - 1) + if in_grid(rows, cols, row + d.0, col + d.1)
            && bump_pushes(m, (row + d.0) * cols + (col + d.1)) {
            seq![(((row + d.0) as usize), ((col + d.1) as usize))]
        } else {
            Seq::empty()
        }
    }
}

/// The grid after a flash at `(row, col)`: the cell marked flashed, and
/// every existing neighbour raised by one.
pub open spec fn flash_result(g: OctoGrid, row: int, col: int) -> Seq<Node> {
    ring_chain(
        g.cells@.update(
            g.idx(row, col),
            Node { value: g.cells@[g.idx(row, col)].value, flashed: true },
        ),
        g.rows as int,
        g.cols as int,
        row,
        col,
        8,
    )
}

/// The cells a flash at `(row, col)` pushes onto the work stack.
pub open spec fn flash_pushed(g: OctoGrid, row: int, col: int) -> Seq<(usize, usize)> {
    ring_pushed(
        g.cells@.update(
            g.idx(row, col),
            Node { value: g.cells@[g.idx(row, col)].value, flashed: true },
        ),
        g.rows as int,
        g.cols as int,
        row,
        col,
        8,
    )
}

/// Two different directions land on different cells.
proof fn lemma_targets_distinct(rows: int, cols: int, row: int, col: int, j: int, k: int)
    requires
        0 <= j < 8,
        0 <= k < 8,
        j != k,
        cols > 0,
        in_grid(rows, cols, row + dir_delta(j).0, col + dir_delta(j).1),
        in_grid(rows, cols, row + dir_delta(k).0, col + dir_delta(k).1),
    ensures
        (row + dir_delta(j).0) * cols + (col + dir_delta(j).1) != (row + dir_delta(k).0) * cols + (
        col + dir_delta(k).1),
{
    lemma_idx_injective(
        cols,
        row + dir_delta(j).0,
        col + dir_delta(j).1,
        row + dir_delta(k).0,
        col + dir_delta(k).1,
    );
}

/// A cell that no raised direction lands on keeps its value.
proof fn lemma_ring_untouched(
    m: Seq<Node>,
    rows: int,
    cols: int,
    row: int,
    col: int,
    k: int,
    i: int,
)
    requires
        m.len() == rows * cols,
        0 <= i < m.len(),
        forall|j: int| 0 <= j < k && in_grid(rows, cols, row + dir_delta(j).0, col + dir_delta(j).1)
            ==> (row + (#[trigger] dir_delta(j)).0) * cols + (col + dir_delta(j).1) != i,
    ensures
        ring_chain(m, rows, cols, row, col, k).len() == m.len(),
        ring_chain(m, rows, cols, row, col, k)[i] == m[i],
    decreases k,
{
    if k > 0 {
        lemma_ring_untouched(m, rows, cols, row, col, k - 1, i);
        let d = dir_delta(k - 1);
        if in_grid(rows, cols, row + d.0, col + d.1) {
            lemma_idx_bounds(rows, cols, row + d.0, col + d.1);
        }
    }
}

/// Raising energies keeps every flashed flag.
proof fn lemma_ring_flags(m: Seq<Node>, rows: int, cols: int, row: int, col: int, k: int, i: int)
    requires
        m.len() == rows * cols,
        0 <= i < m.len(),
    ensures
        ring_chain(m, rows, cols, row, col, k).len() == m.len(),
        ring_chain(m, rows, cols, row, col, k)[i].flashed == m[i].flashed,
    decreases k,
{
    if k > 0 {
        lemma_ring_flags(m, rows, cols, row, col, k - 1, i);
        let d = dir_delta(k - 1);
        if in_grid(rows, cols, row + d.0, col + d.1) {
            lemma_idx_bounds(rows, cols, row + d.0, col + d.1);
        }
    }
}

/// Flash the cell at `(row, col)` unless it already flashed this step:
/// mark it, raise all eight neighbours by one, and queue each neighbour
/// whose energy passes nine.  Returns how many cells flashed (one, or
/// zero when the cell had flashed before).
pub fn flash(grid: &mut OctoGrid, stack: &mut Vec<(usize, usize)>, row: usize, col: usize) -> (did:
    usize)
    requires
        old(grid).wf(),
        in_grid(old(grid).rows as int, old(grid).cols as int, row as int, col as int),
        values_at_most(old(grid).cells@, u32::MAX - 1),
    ensures
        final(grid).rows == old(grid).rows && final(grid).cols == old(grid).cols,
        final(grid).wf(),
        old(grid).cells@[old(grid).idx(row as int, col as int)].flashed ==> final(grid).cells@
            == old(grid).cells@ && final(stack)@ == old(stack)@ && did == 0,
        !old(grid).cells@[old(grid).idx(row as int, col as int)].flashed ==> did == 1
            && final(grid).cells@ == flash_result(*old(grid), row as int, col as int)
            && final(stack)@ == old(stack)@ + flash_pushed(*old(grid), row as int, col as int),
{
    let ghost g0 = *grid;
    let max_i = grid.rows - 1;
    let max_j = grid.cols - 1;
    let total = grid.cells.len();
    proof {
        lemma_idx_bounds(grid.rows as int, grid.cols as int, row as int, col as int);
        assert(row as int * grid.cols as int + col < total);
    }
    let i = row * grid.cols + col;
    if grid.cells[i].flashed {
        return 0;
    }

    let node = grid.cells[i];
    grid.cells[i] = Node { value: node.value, flashed: true };
    let ghost m1 = grid.cells@;
    let ghost rows_ = g0.rows as int;
    let ghost cols_ = g0.cols as int;

    let mut k: usize = 0;
    while k < 8
        invariant
            0 <= k <= 8,
            grid.rows == g0.rows && grid.cols == g0.cols,
            grid.wf(),
            m1.len() == g0.cells@.len(),
            m1.len() == rows_ * cols_,
            rows_ == g0.rows as int && cols_ == g0.cols as int,
            max_i == rows_ - 1 && max_j == cols_ - 1,
            in_grid(rows_, cols_, row as int, col as int),
            values_at_most(m1, u32::MAX - 1),
            grid.cells@ == ring_chain(m1, rows_, cols_, row as int, col as int, k as int),
            stack@ == old(stack)@ + ring_pushed(m1, rows_, cols_, row as int, col as int, k as int),
        decreases 8 - k,
    {
        let target: Option<(usize, usize)> = match k {
            0 => if row > 0 {
                Some((row - 1, col))
            } else {
                None
            },
            1 => if row > 0 && col < max_j {
                Some((row - 1, col + 1))
            } else {
                None
            },
            2 => if col < max_j {
                Some((row, col + 1))
            } else {
                None
            },
            3 => if row < max_i && col < max_j {
                Some((row + 1, col + 1))
            } else {
                None
            },
            4 => if row < max_i {
                Some((row + 1, col))
            } else {
                None
            },
            5 => if row < max_i && col > 0 {
                Some((row + 1, col - 1))
            } else {
                None
            },
            6 => if col > 0 {
                Some((row, col - 1))
            } else {
                None
            },
            _ => if row > 0 && col > 0 {
                Some((row - 1, col - 1))
            } else {
                None
            },
        };
        proof {
            let d = dir_delta(k as int);
            assert(match target {
                Some(t) => in_grid(rows_, cols_, row + d.0, col + d.1) && t.0 == row + d.0 && t.1
                    == col + d.1,
                None => !in_grid(rows_, cols_, row + d.0, col + d.1),
            });
        }
        match target {
            Some(t) => {
                proof {
                    let d = dir_delta(k as int);
                    lemma_idx_bounds(rows_, cols_, t.0 as int, t.1 as int);
                    assert forall|j: int|
                        0 <= j < k && in_grid(
                            rows_,
                            cols_,
                            row + dir_delta(j).0,
                            col + dir_delta(j).1,
                        ) implies (row + (#[trigger] dir_delta(j)).0) * cols_ + (col + dir_delta(
                        j,
                    ).1) != t.0 as int * cols_ + t.1 as int by {
                        lemma_targets_distinct(rows_, cols_, row as int, col as int, j, k as int);
                    }
                    lemma_ring_untouched(
                        m1,
                        rows_,
                        cols_,
                        row as int,
                        col as int,
                        k as int,
                        t.0 as int * cols_ + t.1 as int,
                    );
                }
                inc_push(grid, stack, t.0, t.1);
                proof {
                    assert(grid.cells@ == ring_chain(
                        m1,
                        rows_,
                        cols_,
                        row as int,
                        col as int,
                        k + 1,
                    ));
                    assert(stack@ =~= old(stack)@ + ring_pushed(
                        m1,
                        rows_,
                        cols_,
                        row as int,
                        col as int,
                        k + 1,
                    ));
                }
            },
            None => {
                proof {
                    assert(grid.cells@ == ring_chain(
                        m1,
                        rows_,
                        cols_,
                        row as int,
                        col as int,
                        k + 1,
                    ));
                    assert(stack@ =~= old(stack)@ + ring_pushed(
                        m1,
                        rows_,
                        cols_,
                        row as int,
                        col as int,
                        k + 1,
                    ));
                }
            },
        }
        k = k + 1;
    }
    1
}

/// A flash at a cell that had not flashed lowers the number of unflashed
/// cells by exactly one.
pub proof fn lemma_flash_unflashed(g: OctoGrid, row: int, col: int)
    requires
        g.wf(),
        in_grid(g.rows as int, g.cols as int, row, col),
        !g.cells@[g.idx(row, col)].flashed,
    ensures
        flash_result(g, row, col).len() == g.cells@.len(),
        unflashed_count(flash_result(g, row, col), flash_result(g, row, col).len() as int)
            == unflashed_count(g.cells@, g.cells@.len() as int) - 1,
{
    lemma_idx_bounds(g.rows as int, g.cols as int, row, col);
    let marked = g.cells@.update(
        g.idx(row, col),
        Node { value: g.cells@[g.idx(row, col)].value, flashed: true },
    );
    lemma_unflashed_mark(g.cells@, g.idx(row, col), g.cells@.len() as int);
    assert forall|i: int| 0 <= i < marked.len() implies (#[trigger] flash_result(
        g,
        row,
        col,
    )[i]).flashed == marked[i].flashed by {
        lemma_ring_flags(marked, g.rows as int, g.cols as int, row, col, 8, i);
    }
    lemma_ring_flags(marked, g.rows as int, g.cols as int, row, col, 8, g.idx(row, col));
    lemma_unflashed_flags(marked, flash_result(g, row, col), marked.len() as int);
}


/// Every entry the flash queues lies on the grid.
proof fn lemma_ring_pushed_in_grid(
    m: Seq<Node>,
    rows: int,
    cols: int,
    row: int,
    col: int,
    k: int,
)
    ensures
        forall|q: int| 0 <= q < ring_pushed(m, rows, cols, row, col, k).len() ==> in_grid(
            rows,
            cols,
            (#[trigger] ring_pushed(m, rows, cols, row, col, k)[q]).0 as int,
            ring_pushed(m, rows, cols, row, col, k)[q].1 as int,
        ),
    decreases k,
{
    if k > 0 {
        lemma_ring_pushed_in_grid(m, rows, cols, row, col, k - 1);
        let prev = ring_pushed(m, rows, cols, row, col, k - 1);
        let cur = ring_pushed(m, rows, cols, row, col, k);
        assert forall|q: int| 0 <= q < cur.len() implies in_grid(
            rows,
            cols,
            (#[trigger] cur[q]).0 as int,
            cur[q].1 as int,
        ) by {
            if q < prev.len() {
                assert(cur[q] == prev[q]);
            }
        }
    }
}

/// Each cell of the ring result is at most one above its old energy.
proof fn lemma_ring_value_at(
    m: Seq<Node>,
    rows: int,
    cols: int,
    row: int,
    col: int,
    k: int,
    i: int,
)
    requires
        m.len() == rows * cols,
        cols >= 1,
        0 <= i < m.len(),
        0 <= k <= 8,
    ensures
        ring_chain(m, rows, cols, row, col, k).len() == m.len(),
        ring_chain(m, rows, cols, row, col, k)[i].value <= m[i].value + 1,
    decreases k,
{
    if k > 0 {
        lemma_ring_value_at(m, rows, cols, row, col, k - 1, i);
        let d = dir_delta(k - 1);
        if in_grid(rows, cols, row + d.0, col + d.1) {
            lemma_idx_bounds(rows, cols, row + d.0, col + d.1);
            if (row + d.0) * cols + (col + d.1) == i {
                assert forall|j: int|
                    0 <= j < k - 1 && in_grid(rows, cols, row + dir_delta(j).0, col + dir_delta(
                        j,
                    ).1) implies (row + (#[trigger] dir_delta(j)).0) * cols + (col + dir_delta(
                    j,
                ).1) != i by {
                    lemma_targets_distinct(rows, cols, row, col, j, k - 1);
                }
                lemma_ring_untouched(m, rows, cols, row, col, k - 1, i);
            }
        }
    }
}

/// A grid with no flashed cells has them all unflashed.
proof fn lemma_unflashed_all(m: Seq<Node>, n: int)
    requires
        0 <= n <= m.len(),
        forall|i: int| 0 <= i < m.len() ==> !(#[trigger] m[i]).flashed,
    ensures
        unflashed_count(m, n) == n,
    decreases n,
{
    if n > 0 {
        lemma_unflashed_all(m, n - 1);
    }
}

/// The unflashed count never exceeds the cell count.
proof fn lemma_unflashed_bound(m: Seq<Node>, n: int)
    requires
        0 <= n <= m.len(),
    ensures
        0 <= unflashed_count(m, n) <= n,
    decreases n,
{
    if n > 0 {
        lemma_unflashed_bound(m, n - 1);
    }
}

/// Flashing an unflashed cell lowers the unflashed count by one
/// (sequence form).
proof fn lemma_cascade_unflashed(m: Seq<Node>, rows: int, cols: int, r: int, c: int)
    requires
        m.len() == rows * cols,
        cols >= 1,
        in_grid(rows, cols, r, c),
        !m[r * cols + c].flashed,
    ensures
        ring_chain(
            m.update(r * cols + c, Node { value: m[r * cols + c].value, flashed: true }),
            rows,
            cols,
            r,
            c,
            8,
        ).len() == m.len(),
        unflashed_count(
            ring_chain(
                m.update(r * cols + c, Node { value: m[r * cols + c].value, flashed: true }),
                rows,
                cols,
                r,
                c,
                8,
            ),
            m.len() as int,
        ) == unflashed_count(m, m.len() as int) - 1,
{
    lemma_idx_bounds(rows, cols, r, c);
    let marked = m.update(r * cols + c, Node { value: m[r * cols + c].value, flashed: true });
    lemma_unflashed_mark(m, r * cols + c, m.len() as int);
    assert forall|i: int| 0 <= i < marked.len() implies (#[trigger] ring_chain(
        marked,
        rows,
        cols,
        r,
        c,
        8,
    )[i]).flashed == marked[i].flashed by {
        lemma_ring_flags(marked, rows, cols, r, c, 8, i);
    }
    lemma_ring_flags(marked, rows, cols, r, c, 8, r * cols + c);
    lemma_unflashed_flags(marked, ring_chain(marked, rows, cols, r, c, 8), marked.len() as int);
}

/// The grid after working off the whole flash queue: the last queued cell
/// flashes (unless it already has), queueing its own neighbours, until
/// the queue is empty.
pub open spec fn settle(cells: Seq<Node>, stack: Seq<(usize, usize)>, rows: int, cols: int) -> Seq<
    Node,
>
    decreases unflashed_count(cells, cells.len() as int), stack.len(),
    when cells.len() == rows * cols && rows >= 1 && cols >= 1 && (forall|q: int|
        0 <= q < stack.len() ==> in_grid(rows, cols, (#[trigger] stack[q]).0 as int, stack[q].1 as int))
    via settle_decreases
{
    if stack.len() == 0 {
        cells
    } else {
        let r = stack.last().0 as int;
        let c = stack.last().1 as int;
        let rest = stack.drop_last();
        if cells[r * cols + c].flashed {
            settle(cells, rest, rows, cols)
        } else {
            let marked = cells.update(
                r * cols + c,
                Node { value: cells[r * cols + c].value, flashed: true },
            );
            settle(
                ring_chain(marked, rows, cols, r, c, 8),
                rest + ring_pushed(marked, rows, cols, r, c, 8),
                rows,
                cols,
            )
        }
    }
}

#[via_fn]
proof fn settle_decreases(cells: Seq<Node>, stack: Seq<(usize, usize)>, rows: int, cols: int) {
    lemma_unflashed_bound(cells, cells.len() as int);
    if stack.len() > 0 {
        let r = stack.last().0 as int;
        let c = stack.last().1 as int;
        if !cells[r * cols + c].flashed {
            lemma_cascade_unflashed(cells, rows, cols, r, c);
            let marked = cells.update(
                r * cols + c,
                Node { value: cells[r * cols + c].value, flashed: true },
            );
            lemma_unflashed_bound(
                ring_chain(marked, rows, cols, r, c, 8),
                cells.len() as int,
            );
            lemma_ring_pushed_in_grid(marked, rows, cols, r, c, 8);
        }
    }
}

/// Every energy one higher, flags untouched.
pub open spec fn incremented(cells: Seq<Node>) -> Seq<Node> {
    Seq::new(
        cells.len(),
        |i: int| Node { value: (cells[i].value + 1) as u32, flashed: cells[i].flashed },
    )
}

/// The cells among the first `k` that pass nine when raised by one, in
/// row-major order.
pub open spec fn init_stack(cells: Seq<Node>, cols: int, k: int) -> Seq<(usize, usize)>
    decreases k,
{
    if k <= 0 {
        Seq::empty()
    } else {
        init_stack(cells, cols, k - 1) + if cells[k - 1].value + 1 > 9 {
            seq![((((k - 1) / cols) as usize), (((k - 1) % cols) as usize))]
        } else {
            Seq::empty()
        }
    }
}

/// The grid a whole step settles to, before the reset.
pub open spec fn step_settled(cells: Seq<Node>, rows: int, cols: int) -> Seq<Node> {
    settle(incremented(cells), init_stack(cells, cols, cells.len() as int), rows, cols)
}

/// How many of the first `k` cells are left above nine.
pub open spec fn over_nine(cells: Seq<Node>, k: int) -> int
    decreases k,
{
    if k <= 0 {
        0
    } else {
        over_nine(cells, k - 1) + if cells[k - 1].value > 9 {
            1int
        } else {
            0int
        }
    }
}

/// One whole step: every energy rises by one, every cell that passes nine
/// flashes (raising its neighbours, possibly flashing them too, each cell
/// at most once), and every cell left above nine resets to zero.  Returns
/// how many cells flashed.
pub fn step(grid: &mut OctoGrid) -> (flashes: usize)
    requires
        old(grid).wf(),
        old(grid).cells@.len() <= 0xFFFF_0000,
        values_at_most(old(grid).cells@, 9),
        forall|i: int| 0 <= i < old(grid).cells@.len() ==> !(#[trigger] old(grid).cells@[i]).flashed,
    ensures
        final(grid).wf(),
        final(grid).rows == old(grid).rows && final(grid).cols == old(grid).cols,
        final(grid).cells@.len() == old(grid).cells@.len(),
        values_at_most(final(grid).cells@, 9),
        forall|i: int| 0 <= i < final(grid).cells@.len() ==> !(#[trigger] final(grid).cells@[i]).flashed,
        flashes <= final(grid).cells@.len(),
        forall|i: int| 0 <= i < final(grid).cells@.len() ==> #[trigger] final(grid).cells@[i] == (
        Node {
            value: if step_settled(old(grid).cells@, old(grid).rows as int, old(grid).cols as int)[
                i].value > 9 {
                0u32
            } else {
                step_settled(old(grid).cells@, old(grid).rows as int, old(grid).cols as int)[
                    i].value
            },
            flashed: false,
        }),
        flashes == over_nine(
            step_settled(old(grid).cells@, old(grid).rows as int, old(grid).cols as int),
            old(grid).cells@.len() as int,
        ),
{
    let ghost orig = grid.cells@;
    let rows = grid.rows;
    let cols = grid.cols;
    let total = grid.cells.len();
    let mut stack: Vec<(usize, usize)> = Vec::new();

    let mut k: usize = 0;
    while k < total
        invariant
            0 <= k <= total,
            grid.wf(),
            grid.rows == rows && grid.cols == cols,
            total == grid.cells@.len(),
            orig.len() == total,
            values_at_most(orig, 9),
            forall|i: int| 0 <= i < k ==> #[trigger] grid.cells@[i] == incremented(orig)[i],
            forall|i: int| k <= i < total ==> #[trigger] grid.cells@[i] == orig[i],
            stack@ == init_stack(orig, cols as int, k as int),
            forall|i: int| 0 <= i < grid.cells@.len() ==> !(#[trigger] grid.cells@[i]).flashed,
            forall|q: int| 0 <= q < stack@.len() ==> in_grid(
                rows as int,
                cols as int,
                (#[trigger] stack@[q]).0 as int,
                stack@[q].1 as int,
            ),
        decreases total - k,
    {
        let node = grid.cells[k];
        grid.cells[k] = Node { value: node.value + 1, flashed: node.flashed };
        if node.value + 1 > 9 {
            let r = k / cols;
            let c = k % cols;
            proof {
                assert(0 <= (k as int) % (cols as int) < cols && (k as int) / (cols as int)
                    < rows) by (nonlinear_arith)
                    requires
                        cols >= 1 && rows >= 1 && 0 <= k < rows * cols,
                ;
                assert(stack@.push((r, c)) =~= init_stack(orig, cols as int, k + 1));
            }
            stack.push((r, c));
        } else {
            proof {
                assert(stack@ =~= init_stack(orig, cols as int, k + 1));
            }
        }
        k = k + 1;
    }

    proof {
        assert(grid.cells@ =~= incremented(orig));
        lemma_unflashed_all(grid.cells@, grid.cells@.len() as int);
    }
    let ghost target = settle(grid.cells@, stack@, rows as int, cols as int);
    loop
        invariant_except_break
            grid.wf(),
            grid.rows == rows && grid.cols == cols,
            total == grid.cells@.len(),
            total == rows * cols,
            total <= 0xFFFF_0000,
            values_at_most(
                grid.cells@,
                10 + (total - unflashed_count(grid.cells@, grid.cells@.len() as int)),
            ),
            forall|q: int| 0 <= q < stack@.len() ==> in_grid(
                rows as int,
                cols as int,
                (#[trigger] stack@[q]).0 as int,
                stack@[q].1 as int,
            ),
            target == settle(grid.cells@, stack@, rows as int, cols as int),
        ensures
            grid.wf(),
            grid.rows == rows && grid.cols == cols,
            total == grid.cells@.len(),
            grid.cells@ == target,
        decreases unflashed_count(grid.cells@, grid.cells@.len() as int), stack@.len(),
    {
        let ghost pre_stack = stack@;
        let pair = match stack.pop() {
            Some(p) => p,
            None => {
                break ;
            },
        };
        let ghost pre = *grid;
        proof {
            assert(pair == pre_stack.last() && stack@ == pre_stack.drop_last());
            lemma_unflashed_bound(grid.cells@, grid.cells@.len() as int);
            assert(values_at_most(grid.cells@, u32::MAX - 1));
            lemma_idx_bounds(rows as int, cols as int, pair.0 as int, pair.1 as int);
        }
        let _did = flash(grid, &mut stack, pair.0, pair.1);
        proof {
            if !pre.cells@[pre.idx(pair.0 as int, pair.1 as int)].flashed {
                let marked = pre.cells@.update(
                    pre.idx(pair.0 as int, pair.1 as int),
                    Node {
                        value: pre.cells@[pre.idx(pair.0 as int, pair.1 as int)].value,
                        flashed: true,
                    },
                );
                lemma_flash_unflashed(pre, pair.0 as int, pair.1 as int);
                lemma_ring_pushed_in_grid(
                    marked,
                    rows as int,
                    cols as int,
                    pair.0 as int,
                    pair.1 as int,
                    8,
                );
                assert forall|i: int| 0 <= i < grid.cells@.len() implies (
                #[trigger] grid.cells@[i]).value <= 10 + (total - unflashed_count(
                    grid.cells@,
                    grid.cells@.len() as int,
                )) by {
                    lemma_ring_value_at(
                        marked,
                        rows as int,
                        cols as int,
                        pair.0 as int,
                        pair.1 as int,
                        8,
                        i,
                    );
                }
                lemma_unflashed_bound(grid.cells@, grid.cells@.len() as int);
                assert(grid.cells@ == ring_chain(
                    marked,
                    rows as int,
                    cols as int,
                    pair.0 as int,
                    pair.1 as int,
                    8,
                ));
                assert(stack@ =~= pre_stack.drop_last() + ring_pushed(
                    marked,
                    rows as int,
                    cols as int,
                    pair.0 as int,
                    pair.1 as int,
                    8,
                ));
                assert(settle(pre.cells@, pre_stack, rows as int, cols as int) == settle(
                    grid.cells@,
                    stack@,
                    rows as int,
                    cols as int,
                ));
            } else {
                assert(settle(pre.cells@, pre_stack, rows as int, cols as int) == settle(
                    grid.cells@,
                    stack@,
                    rows as int,
                    cols as int,
                ));
            }
        }
    }

    let ghost sett = grid.cells@;
    proof {
        assert(sett == step_settled(orig, rows as int, cols as int));
    }
    let mut flashes: usize = 0;
    let mut k2: usize = 0;
    while k2 < total
        invariant
            0 <= k2 <= total,
            grid.wf(),
            grid.rows == rows && grid.cols == cols,
            total == grid.cells@.len(),
            sett.len() == total,
            flashes <= k2,
            flashes == over_nine(sett, k2 as int),
            forall|i: int| 0 <= i < k2 ==> #[trigger] grid.cells@[i] == (Node {
                value: if sett[i].value > 9 {
                    0u32
                } else {
                    sett[i].value
                },
                flashed: false,
            }),
            forall|i: int| k2 <= i < total ==> #[trigger] grid.cells@[i] == sett[i],
        decreases total - k2,
    {
        let node = grid.cells[k2];
        if node.value > 9 {
            grid.cells[k2] = Node { value: 0, flashed: false };
            flashes = flashes + 1;
        } else {
            grid.cells[k2] = Node { value: node.value, flashed: false };
        }
        k2 = k2 + 1;
    }
    flashes
}

} // verus!
