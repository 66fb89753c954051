//! Hydrothermal vent lines on a grid: marking every cell a line covers
//! and counting the cells where lines overlap.

use vstd::prelude::*;

verus! {

/// One endpoint of a vent line.
#[derive(Debug, Clone, Copy, PartialEq, Eq, Structural)]
pub struct Point {
    pub x: u32,
    pub y: u32,
}

/// A vent line between two points.
#[derive(Debug, Clone, Copy, PartialEq, Eq, Structural)]
pub struct Line {
    pub start: Point,
    pub end: Point,
}

/// Step of a walk along one axis: toward the target, one cell at a time.
pub open spec fn sgn(from: int, to: int) -> int {
    if to > from {
        1
    } else if to < from {
        -1
    } else {
        0
    }
}

/// Number of steps along the line.
pub open spec fn line_steps(l: Line) -> int {
    let dx = if l.end.x >= l.start.x {
        l.end.x - l.start.x
    } else {
        l.start.x - l.end.x
    };
    let dy = if l.end.y >= l.start.y {
        l.end.y - l.start.y
    } else {
        l.start.y - l.end.y
    };
    if dx >= dy {
        dx
    } else {
        dy
    }
}

/// The cell the walk reaches after `t` steps.
pub open spec fn cell_at(l: Line, t: int) -> (int, int) {
    (l.start.x + t * sgn(l.start.x as int, l.end.x as int), l.start.y + t * sgn(
        l.start.y as int,
        l.end.y as int,
    ))
}

/// A line that runs horizontally, vertically, or at forty-five degrees.
pub open spec fn is_straight(l: Line) -> bool {
    let dx = if l.end.x >= l.start.x {
        l.end.x - l.start.x
    } else {
        l.start.x - l.end.x
    };
    let dy = if l.end.y >= l.start.y {
        l.end.y - l.start.y
    } else {
        l.start.y - l.end.y
    };
    dx == 0 || dy == 0 || dx == dy
}

/// A horizontal or vertical line.
pub open spec fn spec_axis_aligned(l: Line) -> bool {
    l.start.x == l.end.x || l.start.y == l.end.y
}

/// Does the line run horizontally or vertically?  These are the only
/// lines the first overlap count considers.
pub fn axis_aligned(l: &Line) -> (r: bool)
    ensures
        r == spec_axis_aligned(*l),
{
    l.start.x == l.end.x || l.start.y == l.end.y
}

/// The cell `(x, y)` lies on the walk of the line.
pub open spec fn on_line(l: Line, x: int, y: int) -> bool {
    exists|t: int| 0 <= t <= line_steps(l) && #[trigger] cell_at(l, t) == (x, y)
}

/// The vent grid: overlap counts, row-major.
pub struct VentGrid {
    pub counts: Vec<u32>,
    pub rows: usize,
    pub cols: usize,
}

impl VentGrid {
    pub open spec fn wf(&self) -> bool {
        self.counts@.len() == self.rows * self.cols
    }

    pub open spec fn at(&self, x: int, y: int) -> int {
        self.counts@[y * self.cols + x] as int
    }

    /// A fresh grid of zeroes.
    pub fn new(rows: usize, cols: usize) -> (g: VentGrid)
        requires
            rows * cols <= usize::MAX,
        ensures
            g.wf(),
            g.rows == rows && g.cols == cols,
            forall|k: int| 0 <= k < g.counts@.len() ==> #[trigger] g.counts@[k] == 0,
    {
        let total = rows * cols;
        let mut counts: Vec<u32> = Vec::new();
        let mut i: usize = 0;
        while i < total
            invariant
                0 <= i <= total,
                counts@.len() == i,
                forall|k: int| 0 <= k < i ==> #[trigger] counts@[k] == 0,
            decreases total - i,
        {
            counts.push(0);
            i = i + 1;
        }
        VentGrid { counts, rows, cols }
    }

    /// Walk the line and raise the count of every cell it covers by one.
    #[verifier::rlimit(100)]
    pub fn mark_line(&mut self, l: &Line)
        requires
            old(self).wf(),
            is_straight(*l),
            l.start.x < old(self).cols && l.end.x < old(self).cols,
            l.start.y < old(self).rows && l.end.y < old(self).rows,
            forall|k: int| 0 <= k < old(self).counts@.len() ==> #[trigger] old(self).counts@[k]
                < u32::MAX,
        ensures
            final(self).wf(),
            final(self).rows == old(self).rows && final(self).cols == old(self).cols,
            final(self).counts@.len() == old(self).counts@.len(),
            forall|x: int, y: int|
                0 <= x < old(self).cols && 0 <= y < old(self).rows ==> #[trigger] final(self).at(
                    x,
                    y,
                ) == old(self).at(x, y) + (if on_line(*l, x, y) {
                    1int
                } else {
                    0int
                }),
    {
        let ghost g0 = *old(self);
        let cols = self.cols;
        let rows = self.rows;
        let steps: u32 = {
            let dx = if l.end.x >= l.start.x {
                l.end.x - l.start.x
            } else {
                l.start.x - l.end.x
            };
            let dy = if l.end.y >= l.start.y {
                l.end.y - l.start.y
            } else {
                l.start.y - l.end.y
            };
            if dx >= dy {
                dx
            } else {
                dy
            }
        };
        let mut x = l.start.x;
        let mut y = l.start.y;
        let mut t: u32 = 0;
        loop
            invariant_except_break
                self.rows == rows && self.cols == cols,
                g0.rows == rows && g0.cols == cols,
                g0.wf(),
                self.wf(),
                self.counts@.len() == g0.counts@.len(),
                is_straight(*l),
                l.start.x < cols && l.end.x < cols,
                l.start.y < rows && l.end.y < rows,
                0 <= t <= steps,
                steps == line_steps(*l),
                (x as int, y as int) == cell_at(*l, t as int),
                x < cols && y < rows,
                forall|k: int| 0 <= k < g0.counts@.len() ==> #[trigger] g0.counts@[k] < u32::MAX,
                forall|x2: int, y2: int|
                    0 <= x2 < cols && 0 <= y2 < rows ==> #[trigger] self.counts@[y2 * cols + x2]
                        == g0.counts@[y2 * cols + x2] + (if exists|q: int|
                        0 <= q < t && #[trigger] cell_at(*l, q) == (x2, y2) {
                        1int
                    } else {
                        0int
                    }),
            ensures
                forall|x2: int, y2: int|
                    0 <= x2 < cols && 0 <= y2 < rows ==> #[trigger] self.counts@[y2 * cols + x2]
                        == g0.counts@[y2 * cols + x2] + (if on_line(*l, x2, y2) {
                        1int
                    } else {
                        0int
                    }),
                self.rows == rows && self.cols == cols && self.wf() && self.counts@.len()
                    == g0.counts@.len(),
            decreases steps - t,
        {
            let total = self.counts.len();
            proof {
                crate::octopus::lemma_idx_bounds(rows as int, cols as int, y as int, x as int);
                lemma_cell_distinct(*l, t as int);
                assert(y as int * cols + x < total);
                assert(!(exists|q: int|
                    0 <= q < t && #[trigger] cell_at(*l, q) == (x as int, y as int)));
                assert(self.counts@[y as int * cols + x as int] == g0.counts@[y as int * cols
                    + x as int]);
            }
            let idx = (y as usize) * cols + (x as usize);
            let c = self.counts[idx];
            proof {
                assert(c == g0.counts@[y as int * cols + x as int]);
                assert(g0.counts@[y as int * cols + x as int] < u32::MAX);
            }
            let ghost pre = self.counts@;
            self.counts[idx] = c + 1;
            proof {
                assert(self.counts@ == pre.update(idx as int, (c + 1) as u32));
                assert forall|x2: int, y2: int|
                    0 <= x2 < cols && 0 <= y2 < rows implies #[trigger] self.counts@[y2 * cols
                    + x2] == g0.counts@[y2 * cols + x2] + (if exists|q: int|
                    0 <= q < t + 1 && #[trigger] cell_at(*l, q) == (x2, y2) {
                    1int
                } else {
                    0int
                }) by {
                    crate::octopus::lemma_idx_bounds(rows as int, cols as int, y2, x2);
                    if x2 == x as int && y2 == y as int {
                        assert(cell_at(*l, t as int) == (x2, y2));
                        assert(self.counts@[y2 * cols + x2] == c + 1);
                    } else {
                        crate::octopus::lemma_idx_injective(
                            cols as int,
                            y2,
                            x2,
                            y as int,
                            x as int,
                        );
                        assert(self.counts@[y2 * cols + x2] == pre[y2 * cols + x2]);
                        assert forall|q: int|
                            0 <= q < t + 1 && #[trigger] cell_at(*l, q) == (x2, y2) implies 0 <= q
                            < t by {
                            if q == t {
                                assert(cell_at(*l, t as int) == (x as int, y as int));
                            }
                        }
                    }
                }
            }
            if t == steps {
                proof {
                    assert forall|x2: int, y2: int|
                        0 <= x2 < cols && 0 <= y2 < rows implies ((exists|q: int|
                        0 <= q < t + 1 && #[trigger] cell_at(*l, q) == (x2, y2)) <==> on_line(
                        *l,
                        x2,
                        y2,
                    )) by {}
                }
                break ;
            }
            proof {
                let sx = sgn(l.start.x as int, l.end.x as int);
                let sy = sgn(l.start.y as int, l.end.y as int);
                assert((t + 1) * sx == t * sx + sx) by (nonlinear_arith);
                assert((t + 1) * sy == t * sy + sy) by (nonlinear_arith);
                if l.end.x > l.start.x {
                    assert(steps == l.end.x - l.start.x);
                    assert(x < l.end.x);
                } else if l.end.x < l.start.x {
                    assert(steps == l.start.x - l.end.x);
                    assert(x > l.end.x);
                }
                if l.end.y > l.start.y {
                    assert(steps == l.end.y - l.start.y);
                    assert(y < l.end.y);
                } else if l.end.y < l.start.y {
                    assert(steps == l.start.y - l.end.y);
                    assert(y > l.end.y);
                }
            }
            if l.end.x > l.start.x {
                x = x + 1;
            } else if l.end.x < l.start.x {
                x = x - 1;
            }
            if l.end.y > l.start.y {
                y = y + 1;
            } else if l.end.y < l.start.y {
                y = y - 1;
            }
            t = t + 1;
        }
    }

    /// How many cells at least two lines cover.
    pub fn overlap_count(&self) -> (r: usize)
        requires
            self.wf(),
        ensures
            r == crowded_cells(self.counts@, self.counts@.len() as int),
    {
        let mut r: usize = 0;
        let mut i: usize = 0;
        while i < self.counts.len()
            invariant
                0 <= i <= self.counts@.len(),
                r == crowded_cells(self.counts@, i as int),
                r <= i,
            decreases self.counts@.len() - i,
        {
            proof {
                lemma_crowded_bound(self.counts@, i as int);
            }
            if self.counts[i] > 1 {
                r = r + 1;
            }
            i = i + 1;
        }
        r
    }
}

/// Number of the first `n` cells with an overlap.
pub open spec fn crowded_cells(counts: Seq<u32>, n: int) -> int
    decreases n,
{
    if n <= 0 {
        0
    } else {
        crowded_cells(counts, n - 1) + if counts[n - 1] > 1 {
            1int
        } else {
            0int
        }
    }
}

proof fn lemma_crowded_bound(counts: Seq<u32>, n: int)
    requires
        n >= 0,
    ensures
        0 <= crowded_cells(counts, n) <= n,
    decreases n,
{
    if n > 0 {
        lemma_crowded_bound(counts, n - 1);
    }
}

/// No earlier step of the walk lands on the cell of step `t`.
proof fn lemma_cell_distinct(l: Line, t: int)
    requires
        0 <= t <= line_steps(l),
    ensures
        forall|q: int| 0 <= q < t ==> #[trigger] cell_at(l, q) != cell_at(l, t),
{
    let sx = sgn(l.start.x as int, l.end.x as int);
    let sy = sgn(l.start.y as int, l.end.y as int);
    assert forall|q: int| 0 <= q < t implies #[trigger] cell_at(l, q) != cell_at(l, t) by {
        if sx != 0 {
            assert(q * sx != t * sx) by (nonlinear_arith)
                requires
                    q != t && (sx == 1 || sx == -1),
            ;
        } else if sy != 0 {
            assert(q * sy != t * sy) by (nonlinear_arith)
                requires
                    q != t && (sy == 1 || sy == -1),
            ;
        } else {
            assert(line_steps(l) == 0);
        }
    }
}

} // verus!
