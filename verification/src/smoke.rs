//! Smoke in the caves: the low points of a height map (cells strictly
//! lower than every orthogonal neighbour) and their total risk.

use vstd::prelude::*;

verus! {

/// A rectangular height map.
pub open spec fn rect_map(m: Seq<Vec<u32>>, cols: int) -> bool {
    m.len() >= 1 && cols >= 1 && forall|r: int|
        0 <= r < m.len() ==> (#[trigger] m[r])@.len() == cols
}

/// A cell strictly lower than each of its existing orthogonal neighbours.
pub open spec fn is_low(m: Seq<Vec<u32>>, r: int, c: int) -> bool {
    let v = m[r]@[c];
    &&& (r > 0 ==> v < m[r - 1]@[c])
    &&& (r < m.len() - 1 ==> v < m[r + 1]@[c])
    &&& (c > 0 ==> v < m[r]@[c - 1])
    &&& (c < m[r]@.len() - 1 ==> v < m[r]@[c + 1])
}

/// The low points among the first `n` cells, row-major.
pub open spec fn lows_before(m: Seq<Vec<u32>>, cols: int, n: int) -> Seq<(usize, usize)>
    decreases n,
{
    if n <= 0 {
        Seq::empty()
    } else {
        let r = (n - 1) / cols;
        let c = (n - 1) % cols;
        lows_before(m, cols, n - 1) + if is_low(m, r, c) {
            seq![((r as usize), (c as usize))]
        } else {
            Seq::empty()
        }
    }
}

/// Every low point of the map, in row-major order.
pub fn low_points(map: &Vec<Vec<u32>>) -> (lows: Vec<(usize, usize)>)
    requires
        rect_map(map@, map@[0]@.len() as int),
        map@.len() * map@[0]@.len() <= usize::MAX,
    ensures
        lows@ == lows_before(map@, map@[0]@.len() as int, map@.len() as int * map@[0]@.len() as int),
{
    let rows = map.len();
    let cols = map[0].len();
    let mut lows: Vec<(usize, usize)> = Vec::new();
    let mut r: usize = 0;
    proof {
        assert(lows@ =~= lows_before(map@, cols as int, 0));
        assert(0 * cols as int == 0) by (nonlinear_arith);
    }
    while r < rows
        invariant
            0 <= r <= rows,
            rows == map@.len(),
            cols == map@[0]@.len(),
            rect_map(map@, cols as int),
            rows * cols <= usize::MAX,
            lows@ == lows_before(map@, cols as int, r * cols),
        decreases rows - r,
    {
        let mut c: usize = 0;
        proof {
            crate::octopus::lemma_idx_bounds(rows as int, cols as int, r as int, 0);
        }
        while c < cols
            invariant
                0 <= r < rows,
                0 <= c <= cols,
                rows == map@.len(),
                cols == map@[0]@.len(),
                rect_map(map@, cols as int),
                rows * cols <= usize::MAX,
                lows@ == lows_before(map@, cols as int, r * cols + c),
            decreases cols - c,
        {
            proof {
                crate::octopus::lemma_idx_bounds(rows as int, cols as int, r as int, c as int);
                assert((r * cols + c) / cols as int == r && (r * cols + c) % cols as int == c) by (
                nonlinear_arith)
                    requires
                        cols >= 1 && 0 <= c < cols && r >= 0,
                ;
            }
            let v = map[r][c];
            let mut low = true;
            if r > 0 && v >= map[r - 1][c] {
                low = false;
            }
            if r < rows - 1 && v >= map[r + 1][c] {
                low = false;
            }
            if c > 0 && v >= map[r][c - 1] {
                low = false;
            }
            if c < cols - 1 && v >= map[r][c + 1] {
                low = false;
            }
            proof {
                assert(low == is_low(map@, r as int, c as int));
            }
            if low {
                lows.push((r, c));
            }
            c = c + 1;
        }
        proof {
            assert(r * cols + cols == (r + 1) * cols) by (nonlinear_arith);
        }
        r = r + 1;
    }
    lows
}

/// Total risk of the first `n` listed low points: each contributes its
/// height plus one.
pub open spec fn risk_prefix(m: Seq<Vec<u32>>, lows: Seq<(usize, usize)>, n: int) -> int
    decreases n,
{
    if n <= 0 {
        0
    } else {
        risk_prefix(m, lows, n - 1) + m[lows[n - 1].0 as int]@[lows[n - 1].1 as int] + 1
    }
}

/// Sum the risk levels of the low points.
pub fn risk_sum(map: &Vec<Vec<u32>>, lows: &Vec<(usize, usize)>) -> (risk: u64)
    requires
        rect_map(map@, map@[0]@.len() as int),
        forall|k: int| 0 <= k < lows@.len() ==> (#[trigger] lows@[k]).0 < map@.len()
            && lows@[k].1 < map@[0]@.len(),
        risk_prefix(map@, lows@, lows@.len() as int) <= u64::MAX,
    ensures
        risk == risk_prefix(map@, lows@, lows@.len() as int),
{
    let mut risk: u64 = 0;
    let mut i: usize = 0;
    while i < lows.len()
        invariant
            0 <= i <= lows@.len(),
            rect_map(map@, map@[0]@.len() as int),
            forall|k: int| 0 <= k < lows@.len() ==> (#[trigger] lows@[k]).0 < map@.len()
                && lows@[k].1 < map@[0]@.len(),
            risk_prefix(map@, lows@, lows@.len() as int) <= u64::MAX,
            risk == risk_prefix(map@, lows@, i as int),
        decreases lows@.len() - i,
    {
        proof {
            lemma_risk_monotone(map@, lows@, i + 1, lows@.len() as int);
            lemma_risk_monotone(map@, lows@, 0, i as int);
        }
        let (r, c) = lows[i];
        risk = risk + (map[r][c] as u64) + 1;
        i = i + 1;
    }
    risk
}

proof fn lemma_risk_monotone(m: Seq<Vec<u32>>, lows: Seq<(usize, usize)>, i: int, j: int)
    requires
        0 <= i <= j,
    ensures
        0 <= risk_prefix(m, lows, i) <= risk_prefix(m, lows, j),
    decreases j,
{
    if j > 0 {
        if i == j {
            lemma_risk_monotone(m, lows, i - 1, j - 1);
        } else {
            lemma_risk_monotone(m, lows, i, j - 1);
        }
    }
}



/// One uphill step of the flood fill: an orthogonally adjacent cell,
/// strictly higher yet below nine.
pub open spec fn uphill(m: Seq<Vec<u32>>, a: (usize, usize), b: (usize, usize)) -> bool {
    &&& a.0 < m.len() && a.1 < m[0]@.len()
    &&& b.0 < m.len() && b.1 < m[0]@.len()
    &&& ((b.0 == a.0 && (b.1 == a.1 + 1 || a.1 == b.1 + 1)) || (b.1 == a.1 && (b.0 == a.0 + 1
        || a.0 == b.0 + 1)))
    &&& m[b.0 as int]@[b.1 as int] > m[a.0 as int]@[a.1 as int]
    &&& m[b.0 as int]@[b.1 as int] < 9
}

/// A rising route from the seed.
pub open spec fn is_climb(m: Seq<Vec<u32>>, q: Seq<(usize, usize)>, seed: (usize, usize)) -> bool {
    &&& q.len() >= 1
    &&& q[0] == seed
    &&& forall|i: int| 0 < i < q.len() ==> uphill(m, q[i - 1], #[trigger] q[i])
}

/// A set of cells that contains the seed and is closed under uphill steps
/// holds every cell a climb can reach: the basin is exactly the
/// reachable cells.
pub proof fn lemma_climb_reaches(
    m: Seq<Vec<u32>>,
    cells: Seq<(usize, usize)>,
    seed: (usize, usize),
    q: Seq<(usize, usize)>,
)
    requires
        cells.contains(seed),
        forall|i: int, b: (usize, usize)|
            0 <= i < cells.len() && #[trigger] uphill(m, cells[i], b) ==> cells.contains(b),
        is_climb(m, q, seed),
    ensures
        cells.contains(q.last()),
    decreases q.len(),
{
    if q.len() == 1 {
    } else {
        let q2 = q.drop_last();
        assert(is_climb(m, q2, seed)) by {
            assert(forall|i: int| 0 < i < q2.len() ==> uphill(m, q2[i - 1], #[trigger] q2[i]));
        }
        lemma_climb_reaches(m, cells, seed, q2);
        let k = choose|k: int| 0 <= k < cells.len() && cells[k] == q2.last();
        assert(uphill(m, cells[k], q.last())) by {
            assert(uphill(m, q[q.len() - 2], q[q.len() - 1]));
        }
    }
}

/// A climb grows by one uphill step.
proof fn lemma_climb_extend(
    m: Seq<Vec<u32>>,
    q: Seq<(usize, usize)>,
    seed: (usize, usize),
    b: (usize, usize),
)
    requires
        is_climb(m, q, seed),
        uphill(m, q.last(), b),
    ensures
        is_climb(m, q.push(b), seed),
        q.push(b).last() == b,
{
    let q2 = q.push(b);
    assert forall|i: int| 0 < i < q2.len() implies uphill(m, q2[i - 1], #[trigger] q2[i]) by {
        if i < q.len() {
            assert(q2[i] == q[i] && q2[i - 1] == q[i - 1]);
        } else {
            assert(q2[i] == b && q2[i - 1] == q.last());
        }
    }
}

/// Cells of a basin: exactly the grid cells a rising route below height
/// nine reaches from the low point: every listed cell is reached by a
/// climb, and the listed cells are closed under uphill steps.
#[verifier::rlimit(100)]
pub fn basin(map: &Vec<Vec<u32>>, seed: (usize, usize)) -> (cells: Vec<(usize, usize)>)
    requires
        rect_map(map@, map@[0]@.len() as int),
        seed.0 < map@.len(),
        seed.1 < map@[0]@.len(),
        map@[seed.0 as int]@[seed.1 as int] < 9,
    ensures
        cells@.len() >= 1,
        forall|i: int, j: int| 0 <= i < j < cells@.len() ==> (#[trigger] cells@[i]) != (
        #[trigger] cells@[j]),
        forall|i: int| 0 <= i < cells@.len() ==> (#[trigger] cells@[i]).0 < map@.len()
            && cells@[i].1 < map@[0]@.len() && map@[cells@[i].0 as int]@[cells@[i].1 as int] < 9,
        cells@.contains(seed),
        forall|i: int| 0 <= i < cells@.len() ==> exists|q: Seq<(usize, usize)>|
            is_climb(map@, q, seed) && q.last() == (#[trigger] cells@[i]),
        forall|i: int, b: (usize, usize)|
            0 <= i < cells@.len() && #[trigger] uphill(map@, cells@[i], b) ==> cells@.contains(b),
{
    let rows = map.len();
    let cols = map[0].len();
    let mut cells: Vec<(usize, usize)> = Vec::new();
    let mut stack: Vec<(usize, usize)> = vec![seed];
    let ghost total = (rows * cols) as int;
    proof {
        lemma_member_count_bounds(cells@, rows as int, cols as int);
        let q0 = seq![seed];
        assert(is_climb(map@, q0, seed) && q0.last() == seed);
    }
    loop
        invariant_except_break
            rows == map@.len(),
            cols == map@[0]@.len(),
            rect_map(map@, cols as int),
            seed.0 < rows && seed.1 < cols,
            forall|i: int, j: int| 0 <= i < j < cells@.len() ==> (#[trigger] cells@[i]) != (
            #[trigger] cells@[j]),
            forall|i: int| 0 <= i < cells@.len() ==> (#[trigger] cells@[i]).0 < rows
                && cells@[i].1 < cols && map@[cells@[i].0 as int]@[cells@[i].1 as int] < 9,
            forall|i: int| 0 <= i < stack@.len() ==> (#[trigger] stack@[i]).0 < rows
                && stack@[i].1 < cols && map@[stack@[i].0 as int]@[stack@[i].1 as int] < 9,
            cells@.len() + stack@.len() >= 1,
            stack@.len() == 0 ==> cells@.contains(seed),
            stack@.contains(seed) || cells@.contains(seed),
            cells@.len() <= rows * cols,
            total == rows * cols,
            forall|i: int| 0 <= i < cells@.len() ==> exists|q: Seq<(usize, usize)>|
                is_climb(map@, q, seed) && q.last() == (#[trigger] cells@[i]),
            forall|i: int| 0 <= i < stack@.len() ==> exists|q: Seq<(usize, usize)>|
                is_climb(map@, q, seed) && q.last() == (#[trigger] stack@[i]),
            forall|i: int, b: (usize, usize)|
                0 <= i < cells@.len() && #[trigger] uphill(map@, cells@[i], b) ==> cells@.contains(
                    b,
                ) || stack@.contains(b),
        ensures
            cells@.len() >= 1,
            forall|i: int, j: int| 0 <= i < j < cells@.len() ==> (#[trigger] cells@[i]) != (
            #[trigger] cells@[j]),
            forall|i: int| 0 <= i < cells@.len() ==> (#[trigger] cells@[i]).0 < rows
                && cells@[i].1 < cols && map@[cells@[i].0 as int]@[cells@[i].1 as int] < 9,
            cells@.contains(seed),
            forall|i: int| 0 <= i < cells@.len() ==> exists|q: Seq<(usize, usize)>|
                is_climb(map@, q, seed) && q.last() == (#[trigger] cells@[i]),
            forall|i: int, b: (usize, usize)|
                0 <= i < cells@.len() && #[trigger] uphill(map@, cells@[i], b) ==> cells@.contains(
                    b,
                ),
        decreases total - cells@.len(), stack@.len(),
    {
        let ghost pre_stack = stack@;
        let point = match stack.pop() {
            Some(p) => p,
            None => {
                break ;
            },
        };
        let mut seen = false;
        let mut i: usize = 0;
        while i < cells.len()
            invariant
                0 <= i <= cells@.len(),
                seen <==> exists|q: int| 0 <= q < i && cells@[q] == point,
            decreases cells@.len() - i,
        {
            if cells[i].0 == point.0 && cells[i].1 == point.1 {
                seen = true;
            }
            i = i + 1;
        }
        proof {
            assert(seen <==> cells@.contains(point));
            assert(pre_stack.last() == point);
            if pre_stack.contains(seed) && seed != point {
                let q = choose|q: int| 0 <= q < pre_stack.len() && pre_stack[q] == seed;
                assert(q < pre_stack.len() - 1);
                assert(stack@[q] == seed);
            }
            assert forall|i2: int, b: (usize, usize)|
                0 <= i2 < cells@.len() && #[trigger] uphill(map@, cells@[i2], b) && !(
                cells@.contains(b) || b == point) implies stack@.contains(b) by {
                assert(pre_stack.contains(b));
                let q = choose|q: int| 0 <= q < pre_stack.len() && pre_stack[q] == b;
                assert(q < pre_stack.len() - 1);
                assert(stack@[q] == b);
            }
        }
        if seen {
            proof {
                if !cells@.contains(seed) {
                    assert(pre_stack.contains(seed));
                    let q = choose|q: int| 0 <= q < pre_stack.len() && pre_stack[q] == seed;
                    assert(seed != point);
                    assert(q < pre_stack.len() - 1);
                    assert(stack@[q] == seed);
                }
            }
            continue ;
        }
        let (r, c) = point;
        let v = map[r][c];
        let ghost mid_stack = stack@;
        if r > 0 {
            let up = map[r - 1][c];
            if up > v && up < 9 {
                proof {
                    let q = choose|q: Seq<(usize, usize)>|
                        is_climb(map@, q, seed) && q.last() == point;
                    lemma_climb_extend(map@, q, seed, ((r - 1) as usize, c));
                }
                stack.push((r - 1, c));
            }
        }
        if r < rows - 1 {
            let down = map[r + 1][c];
            if down > v && down < 9 {
                proof {
                    let q = choose|q: Seq<(usize, usize)>|
                        is_climb(map@, q, seed) && q.last() == point;
                    lemma_climb_extend(map@, q, seed, ((r + 1) as usize, c));
                }
                stack.push((r + 1, c));
            }
        }
        if c > 0 {
            let left = map[r][c - 1];
            if left > v && left < 9 {
                proof {
                    let q = choose|q: Seq<(usize, usize)>|
                        is_climb(map@, q, seed) && q.last() == point;
                    lemma_climb_extend(map@, q, seed, (r, (c - 1) as usize));
                }
                stack.push((r, c - 1));
            }
        }
        if c < cols - 1 {
            let right = map[r][c + 1];
            if right > v && right < 9 {
                proof {
                    let q = choose|q: Seq<(usize, usize)>|
                        is_climb(map@, q, seed) && q.last() == point;
                    lemma_climb_extend(map@, q, seed, (r, (c + 1) as usize));
                }
                stack.push((r, c + 1));
            }
        }
        proof {
            assert forall|b: (usize, usize)| #[trigger]
                uphill(map@, point, b) implies stack@.contains(b) by {
                if b.0 + 1 == point.0 && b.1 == point.1 {
                    assert(mid_stack.len() < stack@.len());
                    assert(stack@[mid_stack.len() as int] == b);
                } else if b.0 == point.0 + 1 && b.1 == point.1 {
                    let off: int = if point.0 > 0 && uphill(
                        map@,
                        point,
                        (((point.0 - 1) as usize), point.1),
                    ) {
                        1
                    } else {
                        0
                    };
                    assert(stack@[mid_stack.len() as int + off] == b);
                } else if b.1 + 1 == point.1 && b.0 == point.0 {
                    let off: int = (if point.0 > 0 && uphill(
                        map@,
                        point,
                        (((point.0 - 1) as usize), point.1),
                    ) {
                        1int
                    } else {
                        0int
                    }) + (if point.0 + 1 < rows && uphill(
                        map@,
                        point,
                        (((point.0 + 1) as usize), point.1),
                    ) {
                        1int
                    } else {
                        0int
                    });
                    assert(stack@[mid_stack.len() as int + off] == b);
                } else {
                    assert(b.1 == point.1 + 1 && b.0 == point.0);
                    let off: int = (if point.0 > 0 && uphill(
                        map@,
                        point,
                        (((point.0 - 1) as usize), point.1),
                    ) {
                        1int
                    } else {
                        0int
                    }) + (if point.0 + 1 < rows && uphill(
                        map@,
                        point,
                        (((point.0 + 1) as usize), point.1),
                    ) {
                        1int
                    } else {
                        0int
                    }) + (if point.1 > 0 && uphill(
                        map@,
                        point,
                        (point.0, ((point.1 - 1) as usize)),
                    ) {
                        1int
                    } else {
                        0int
                    });
                    assert(stack@[mid_stack.len() as int + off] == b);
                }
            }
            lemma_member_count_bounds(cells@.push(point), rows as int, cols as int);
            assert(cells@.push(point)[cells@.len() as int] == point);
            if cells@.contains(seed) {
                let q2 = choose|q2: int| 0 <= q2 < cells@.len() && cells@[q2] == seed;
                assert(cells@.push(point)[q2] == seed);
            }
            if seed == point {
                assert(cells@.push(point).contains(seed));
            } else if !cells@.contains(seed) {
                assert(pre_stack.contains(seed));
                let q = choose|q: int| 0 <= q < pre_stack.len() && pre_stack[q] == seed;
                assert(pre_stack.last() == point);
                assert(q < pre_stack.len() - 1);
                assert(mid_stack[q] == seed);
                assert(stack@[q] == seed);
            }
            assert forall|i2: int, b: (usize, usize)|
                0 <= i2 < cells@.push(point).len() && #[trigger] uphill(
                    map@,
                    cells@.push(point)[i2],
                    b,
                ) implies cells@.push(point).contains(b) || stack@.contains(b) by {
                if i2 < cells@.len() {
                    assert(cells@.push(point)[i2] == cells@[i2]);
                    if cells@.contains(b) {
                        let q2 = choose|q2: int| 0 <= q2 < cells@.len() && cells@[q2] == b;
                        assert(cells@.push(point)[q2] == b);
                    } else if b == point {
                        assert(cells@.push(point).contains(b));
                    } else if mid_stack.contains(b) {
                        let q2 = choose|q2: int| 0 <= q2 < mid_stack.len() && mid_stack[q2] == b;
                        assert(stack@[q2] == b);
                    }
                } else {
                    assert(cells@.push(point)[i2] == point);
                }
            }
        }
        cells.push(point);
    }
    cells
}

/// A list of distinct grid cells can hold at most one entry per cell.
proof fn lemma_member_count_bounds(cells: Seq<(usize, usize)>, rows: int, cols: int)
    requires
        rows >= 1,
        cols >= 1,
        forall|i: int, j: int| 0 <= i < j < cells.len() ==> (#[trigger] cells[i]) != (
        #[trigger] cells[j]),
        forall|i: int| 0 <= i < cells.len() ==> (#[trigger] cells[i]).0 < rows && cells[i].1
            < cols,
    ensures
        cells.len() <= rows * cols,
{
    let m = Map::<(usize, usize), int>::new(
        |p: (usize, usize)| p.0 < rows && p.1 < cols,
        |p: (usize, usize)| 0,
    );
    lemma_distinct_in_grid(cells, rows, cols);
}

/// Induction behind the cell-count bound: strip the last cell.
proof fn lemma_distinct_in_grid(cells: Seq<(usize, usize)>, rows: int, cols: int)
    requires
        rows >= 1,
        cols >= 1,
        forall|i: int, j: int| 0 <= i < j < cells.len() ==> (#[trigger] cells[i]) != (
        #[trigger] cells[j]),
        forall|i: int| 0 <= i < cells.len() ==> (#[trigger] cells[i]).0 < rows && cells[i].1
            < cols,
    ensures
        cells.len() <= rows * cols,
{
    lemma_distinct_flat(cells, rows, cols, Seq::new(cells.len(), |i: int| cells[i].0 as int * cols + cells[i].1));
}

/// Distinct cells give distinct row-major positions, all below the total.
proof fn lemma_distinct_flat(cells: Seq<(usize, usize)>, rows: int, cols: int, flat: Seq<int>)
    requires
        rows >= 1,
        cols >= 1,
        forall|i: int, j: int| 0 <= i < j < cells.len() ==> (#[trigger] cells[i]) != (
        #[trigger] cells[j]),
        forall|i: int| 0 <= i < cells.len() ==> (#[trigger] cells[i]).0 < rows && cells[i].1
            < cols,
        flat == Seq::new(cells.len(), |i: int| cells[i].0 as int * cols + cells[i].1),
    ensures
        cells.len() <= rows * cols,
{
    assert forall|i: int| 0 <= i < flat.len() implies 0 <= #[trigger] flat[i] < rows * cols by {
        crate::octopus::lemma_idx_bounds(rows, cols, cells[i].0 as int, cells[i].1 as int);
    }
    assert forall|i: int, j: int| 0 <= i < j < flat.len() implies #[trigger] flat[i]
        != #[trigger] flat[j] by {
        crate::octopus::lemma_idx_injective(
            cols,
            cells[i].0 as int,
            cells[i].1 as int,
            cells[j].0 as int,
            cells[j].1 as int,
        );
    }
    assert(rows * cols >= 1) by (nonlinear_arith)
        requires
            rows >= 1 && cols >= 1,
    ;
    lemma_distinct_ints_bound(flat, rows * cols);
}

/// At most `bound` distinct integers fit below `bound`.
proof fn lemma_distinct_ints_bound(s: Seq<int>, bound: int)
    requires
        bound >= 0,
        forall|i: int| 0 <= i < s.len() ==> 0 <= #[trigger] s[i] < bound,
        forall|i: int, j: int| 0 <= i < j < s.len() ==> #[trigger] s[i] != #[trigger] s[j],
    ensures
        s.len() <= bound,
{
    let st = s.to_set();
    broadcast use vstd::seq_lib::seq_to_set_is_finite;

    s.unique_seq_to_set();
    vstd::set_lib::lemma_int_range(0, bound);
    assert(st.subset_of(vstd::set_lib::set_int_range(0, bound))) by {
        assert forall|x: int| st.contains(x) implies vstd::set_lib::set_int_range(
            0,
            bound,
        ).contains(x) by {
            let i = choose|i: int| 0 <= i < s.len() && s[i] == x;
        }
    }
    vstd::set_lib::lemma_len_subset(st, vstd::set_lib::set_int_range(0, bound));
}


/// The three largest values among the first `n`, in descending order.
pub open spec fn top3_fold(s: Seq<usize>, n: int) -> (int, int, int)
    decreases n,
{
    if n <= 0 {
        (0int, 0int, 0int)
    } else {
        let prev = top3_fold(s, n - 1);
        let v = s[n - 1] as int;
        if v >= prev.0 {
            (v, prev.0, prev.1)
        } else if v >= prev.1 {
            (prev.0, v, prev.1)
        } else if v >= prev.2 {
            (prev.0, prev.1, v)
        } else {
            prev
        }
    }
}

/// Product of the three largest basin sizes.
pub fn largest_basins(sizes: &Vec<usize>) -> (r: u64)
    requires
        ({
            let t = top3_fold(sizes@, sizes@.len() as int);
            t.0 * t.1 <= u64::MAX && t.0 * t.1 * t.2 <= u64::MAX
        }),
    ensures
        ({
            let t = top3_fold(sizes@, sizes@.len() as int);
            r == t.0 * t.1 * t.2
        }),
{
    let mut a: usize = 0;
    let mut b: usize = 0;
    let mut c: usize = 0;
    let mut i: usize = 0;
    while i < sizes.len()
        invariant
            0 <= i <= sizes@.len(),
            (a as int, b as int, c as int) == top3_fold(sizes@, i as int),
            a >= b >= c,
        decreases sizes@.len() - i,
    {
        let v = sizes[i];
        if v >= a {
            c = b;
            b = a;
            a = v;
        } else if v >= b {
            c = b;
            b = v;
        } else if v >= c {
            c = v;
        }
        i = i + 1;
    }
    proof {
        lemma_top3_monotone(sizes@, sizes@.len() as int);
        assert(a as int * b as int >= 0 && a as int * b as int * c as int >= 0) by (
        nonlinear_arith)
            requires
                a >= 0 && b >= 0 && c >= 0,
        ;
        assert(a as int * b as int <= top3_fold(sizes@, sizes@.len() as int).0 * top3_fold(
            sizes@,
            sizes@.len() as int,
        ).1);
    }
    (a as u64) * (b as u64) * (c as u64)
}

proof fn lemma_top3_monotone(s: Seq<usize>, n: int)
    ensures
        ({
            let t = top3_fold(s, n);
            t.0 >= t.1 >= t.2 >= 0
        }),
    decreases n,
{
    if n > 0 {
        lemma_top3_monotone(s, n - 1);
    }
}

} // verus!


