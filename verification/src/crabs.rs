//! Aligning crab submarines: the fuel cost of moving every crab to a
//! target position, under a linear and under a triangular cost model.

use vstd::prelude::*;

verus! {

/// Distance between two positions.
pub open spec fn abs_diff(a: int, b: int) -> int {
    if a >= b {
        a - b
    } else {
        b - a
    }
}

/// Fuel to move one crab a distance `d` in the triangular model:
/// `1 + 2 + ... + d`.
pub open spec fn tri(d: int) -> int {
    d * (d + 1) / 2
}

/// Total linear fuel for the first `n` crabs to reach `t`.
pub open spec fn linear_cost_prefix(t: int, s: Seq<u32>, n: int) -> int
    decreases n,
{
    if n <= 0 {
        0
    } else {
        linear_cost_prefix(t, s, n - 1) + abs_diff(s[n - 1] as int, t)
    }
}

/// Total triangular fuel for the first `n` crabs to reach `t`.
pub open spec fn triangle_cost_prefix(t: int, s: Seq<u32>, n: int) -> int
    decreases n,
{
    if n <= 0 {
        0
    } else {
        triangle_cost_prefix(t, s, n - 1) + tri(abs_diff(s[n - 1] as int, t))
    }
}

proof fn lemma_linear_cost_monotone(t: int, s: Seq<u32>, i: int, j: int)
    requires
        0 <= i <= j,
    ensures
        0 <= linear_cost_prefix(t, s, i) <= linear_cost_prefix(t, s, j),
    decreases j,
{
    if j > 0 {
        if i == j {
            lemma_linear_cost_monotone(t, s, i - 1, j - 1);
        } else {
            lemma_linear_cost_monotone(t, s, i, j - 1);
        }
    }
}

proof fn lemma_tri_nonneg(d: int)
    requires
        d >= 0,
    ensures
        tri(d) >= 0,
{
    assert(d * (d + 1) >= 0) by (nonlinear_arith)
        requires
            d >= 0,
    ;
}

proof fn lemma_triangle_cost_monotone(t: int, s: Seq<u32>, i: int, j: int)
    requires
        0 <= i <= j,
    ensures
        0 <= triangle_cost_prefix(t, s, i) <= triangle_cost_prefix(t, s, j),
    decreases j,
{
    if j > 0 {
        lemma_tri_nonneg(abs_diff(s[j - 1] as int, t));
        if i == j {
            lemma_triangle_cost_monotone(t, s, i - 1, j - 1);
        } else {
            lemma_triangle_cost_monotone(t, s, i, j - 1);
        }
    }
}

/// Fuel for every crab to reach `target` when each step costs one unit.
pub fn cost_part1(target: u32, positions: &Vec<u32>) -> (fuel: u32)
    requires
        linear_cost_prefix(target as int, positions@, positions@.len() as int) <= u32::MAX,
    ensures
        fuel == linear_cost_prefix(target as int, positions@, positions@.len() as int),
{
    let mut fuel: u32 = 0;
    let mut i: usize = 0;
    while i < positions.len()
        invariant
            0 <= i <= positions@.len(),
            linear_cost_prefix(target as int, positions@, positions@.len() as int) <= u32::MAX,
            fuel == linear_cost_prefix(target as int, positions@, i as int),
        decreases positions@.len() - i,
    {
        proof {
            lemma_linear_cost_monotone(target as int, positions@, i + 1, positions@.len() as int);
            lemma_linear_cost_monotone(target as int, positions@, 0, i as int);
        }
        let value = positions[i];
        let delta = if value >= target {
            value - target
        } else {
            target - value
        };
        fuel = fuel + delta;
        i = i + 1;
    }
    fuel
}

/// Fuel for every crab to reach `target` when the k-th step of a move
/// costs `k` units.  Distances are bounded so that the per-crab product
/// fits in a `u32`.
pub fn cost_part2(target: u32, positions: &Vec<u32>) -> (fuel: u32)
    requires
        triangle_cost_prefix(target as int, positions@, positions@.len() as int) <= u32::MAX,
        forall|k: int| 0 <= k < positions@.len() ==> abs_diff(#[trigger] positions@[k] as int,
            target as int,
        ) <= 0xFFFF,
    ensures
        fuel == triangle_cost_prefix(target as int, positions@, positions@.len() as int),
{
    let mut fuel: u32 = 0;
    let mut i: usize = 0;
    while i < positions.len()
        invariant
            0 <= i <= positions@.len(),
            triangle_cost_prefix(target as int, positions@, positions@.len() as int) <= u32::MAX,
            forall|k: int| 0 <= k < positions@.len() ==> abs_diff(#[trigger] positions@[k] as int,
                target as int,
            ) <= 0xFFFF,
            fuel == triangle_cost_prefix(target as int, positions@, i as int),
        decreases positions@.len() - i,
    {
        proof {
            lemma_triangle_cost_monotone(target as int, positions@, i + 1, positions@.len() as int);
            lemma_triangle_cost_monotone(target as int, positions@, 0, i as int);
        }
        let value = positions[i];
        let delta = if value >= target {
            value - target
        } else {
            target - value
        };
        proof {
            assert(delta * delta + delta == delta * (delta + 1)) by (nonlinear_arith);
            assert(delta <= 0xFFFF ==> delta * (delta + 1) <= 0xFFFF * 0x10000) by (
            nonlinear_arith);
        }
        fuel = fuel + ((delta * delta) + delta) / 2;
        i = i + 1;
    }
    fuel
}

/// Least value of the triangular cost over targets `lo ..= hi`.
pub open spec fn min_triangle_cost(s: Seq<u32>, lo: int, hi: int) -> int
    decreases hi - lo,
{
    let c = triangle_cost_prefix(hi, s, s.len() as int);
    if hi <= lo {
        triangle_cost_prefix(lo, s, s.len() as int)
    } else if c < min_triangle_cost(s, lo, hi - 1) {
        c
    } else {
        min_triangle_cost(s, lo, hi - 1)
    }
}

/// The cheapest target position in `lo ..= hi` under the triangular cost
/// model, with its cost.
pub fn best_alignment(positions: &Vec<u32>, lo: u32, hi: u32) -> (r: (u32, u32))
    requires
        lo <= hi,
        forall|t: int| lo <= t <= hi ==> triangle_cost_prefix(t, positions@, positions@.len() as int)
            <= u32::MAX,
        forall|t: int, k: int| lo <= t <= hi && 0 <= k < positions@.len() ==> #[trigger] abs_diff(
            positions@[k] as int,
            t,
        ) <= 0xFFFF,
    ensures
        lo <= r.0 <= hi,
        r.1 == triangle_cost_prefix(r.0 as int, positions@, positions@.len() as int),
        r.1 == min_triangle_cost(positions@, lo as int, hi as int),
{
    let mut best_t: u32 = lo;
    let mut best_c: u32 = cost_part2(lo, positions);
    let mut t: u32 = lo;
    while t < hi
        invariant
            lo <= t <= hi,
            lo <= best_t <= t,
            forall|t2: int| lo <= t2 <= hi ==> triangle_cost_prefix(
                t2,
                positions@,
                positions@.len() as int,
            ) <= u32::MAX,
            forall|t2: int, k: int| lo <= t2 <= hi && 0 <= k < positions@.len()
                ==> #[trigger] abs_diff(positions@[k] as int, t2) <= 0xFFFF,
            best_c == triangle_cost_prefix(best_t as int, positions@, positions@.len() as int),
            best_c == min_triangle_cost(positions@, lo as int, t as int),
        decreases hi - t,
    {
        t = t + 1;
        let c = cost_part2(t, positions);
        if c < best_c {
            best_c = c;
            best_t = t;
        }
    }
    (best_t, best_c)
}


/// `x` slotted in just before the first element not below it.
pub open spec fn insert_sorted_u32(s: Seq<u32>, x: u32) -> Seq<u32>
    decreases s.len(),
{
    if s.len() == 0 {
        seq![x]
    } else if x <= s[0] {
        seq![x] + s
    } else {
        seq![s[0]] + insert_sorted_u32(s.subrange(1, s.len() as int), x)
    }
}

/// The first `n` positions, in ascending order.
pub open spec fn sorted_positions(s: Seq<u32>, n: int) -> Seq<u32>
    decreases n,
{
    if n <= 0 {
        Seq::empty()
    } else {
        insert_sorted_u32(sorted_positions(s, n - 1), s[n - 1])
    }
}

/// Where the scan stopped is where the spec slots the position.
proof fn lemma_insert_u32_at(s: Seq<u32>, x: u32, j: int)
    requires
        0 <= j <= s.len(),
        forall|q: int| 0 <= q < j ==> (#[trigger] s[q]) < x,
        j < s.len() ==> x <= s[j],
    ensures
        insert_sorted_u32(s, x) =~= s.subrange(0, j) + seq![x] + s.subrange(j, s.len() as int),
    decreases j,
{
    if s.len() == 0 {
        assert(s.subrange(0, 0) =~= Seq::<u32>::empty());
    } else if j == 0 {
        assert(s.subrange(0, 0) =~= Seq::<u32>::empty());
        assert(s.subrange(0, s.len() as int) =~= s);
    } else {
        let tail = s.subrange(1, s.len() as int);
        lemma_insert_u32_at(tail, x, j - 1);
        assert(tail.subrange(0, j - 1) =~= s.subrange(1, j));
        assert(tail.subrange(j - 1, tail.len() as int) =~= s.subrange(j, s.len() as int));
    }
}

/// Length of the sorted positions.
pub proof fn lemma_sorted_positions_len(s: Seq<u32>, n: int)
    requires
        0 <= n <= s.len(),
    ensures
        sorted_positions(s, n).len() == n,
    decreases n,
{
    if n > 0 {
        lemma_sorted_positions_len(s, n - 1);
        lemma_insert_len(sorted_positions(s, n - 1), s[n - 1]);
    }
}

proof fn lemma_insert_len(s: Seq<u32>, x: u32)
    ensures
        insert_sorted_u32(s, x).len() == s.len() + 1,
    decreases s.len(),
{
    if s.len() > 0 && !(x <= s[0]) {
        lemma_insert_len(s.subrange(1, s.len() as int), x);
    }
}

/// The crabs' median position: the element halfway up the ascending order
/// of the positions.
pub fn median(positions: &Vec<u32>) -> (r: u32)
    requires
        positions@.len() >= 1,
    ensures
        r == sorted_positions(positions@, positions@.len() as int)[positions@.len() as int / 2],
{
    let mut out: Vec<u32> = Vec::new();
    let mut i: usize = 0;
    proof {
        assert(out@ =~= sorted_positions(positions@, 0));
    }
    while i < positions.len()
        invariant
            0 <= i <= positions@.len(),
            out@ == sorted_positions(positions@, i as int),
        decreases positions@.len() - i,
    {
        let x = positions[i];
        let mut j: usize = 0;
        while j < out.len() && out[j] < x
            invariant
                0 <= j <= out@.len(),
                forall|q: int| 0 <= q < j ==> (#[trigger] out@[q]) < x,
            decreases out@.len() - j,
        {
            j = j + 1;
        }
        proof {
            lemma_insert_u32_at(out@, x, j as int);
        }
        out.insert(j, x);
        proof {
            assert(out@ =~= sorted_positions(positions@, i as int).subrange(0, j as int)
                + seq![x] + sorted_positions(positions@, i as int).subrange(
                j as int,
                sorted_positions(positions@, i as int).len() as int,
            ));
        }
        i = i + 1;
    }
    proof {
        lemma_sorted_positions_len(positions@, positions@.len() as int);
    }
    out[positions.len() / 2]
}

} // verus!

