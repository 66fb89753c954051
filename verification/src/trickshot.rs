//! Probe launching: parsing a target area and simulating trajectories
//! under drag and gravity.

use vstd::prelude::*;
use crate::text::{chars_of, int_written, next_token, parse_i64_range, skip_ws, token_end};

verus! {

/// A half-open range of coordinates, `start ..= end - 1`.
#[derive(Debug, PartialEq, Eq, Structural, Clone, Copy)]
pub struct Span {
    pub start: i32,
    pub end: i32,
}

impl Span {
    /// Is `x` inside the span?
    pub open spec fn spec_contains(&self, x: int) -> bool {
        self.start <= x < self.end
    }

    /// Is `x` inside the span?
    pub fn contains(&self, x: i32) -> (r: bool)
        ensures
            r == self.spec_contains(x as int),
    {
        self.start <= x && x < self.end
    }
}

/// Index just past the first `=` among the first characters of `s`, or
/// the length if there is none.
pub open spec fn after_eq(s: Seq<char>, i: int) -> int
    decreases s.len() - i,
{
    if i < 0 || i >= s.len() {
        s.len() as int
    } else if s[i] == '=' {
        i + 1
    } else {
        after_eq(s, i + 1)
    }
}

/// Index of the first `.` at or after `i`, or the length if there is
/// none.
pub open spec fn dot_pos(s: Seq<char>, i: int) -> int
    decreases s.len() - i,
{
    if i < 0 || i >= s.len() {
        s.len() as int
    } else if s[i] == '.' {
        i
    } else {
        dot_pos(s, i + 1)
    }
}

/// The span a range token such as `x=240..292,` denotes: the low bound
/// comes after the `=`, the high bound after the `..`, a trailing comma
/// is dropped, and the high bound is included in the span.
pub open spec fn span_written(s: Seq<char>) -> Option<(int, int)> {
    let a = after_eq(s, 0);
    let d = dot_pos(s, a);
    let tail_end = if s.len() > 0 && s[s.len() - 1] == ',' {
        s.len() - 1
    } else {
        s.len() as int
    };
    match int_written(s, a, d) {
        None => None,
        Some(lo) => if d + 2 <= tail_end {
            match int_written(s, d + 2, tail_end) {
                None => None,
                Some(hi) => Some((lo, hi)),
            }
        } else {
            None
        },
    }
}

/// Read one `name=lo..hi` token into a span covering `lo ..= hi`.
/// The token must be well formed, with both bounds fitting an `i32`
/// (and `hi` one less than the largest, to keep the exclusive end).
pub fn text_range_to_range(v: &Vec<char>, from: usize, to: usize) -> (r: Span)
    requires
        from <= to <= v@.len(),
        ({
            let t = v@.subrange(from as int, to as int);
            match span_written(t) {
                Some(b) => i32::MIN <= b.0 <= i32::MAX && i32::MIN <= b.1 < i32::MAX,
                None => false,
            }
        }),
    ensures
        ({
            let t = v@.subrange(from as int, to as int);
            r.start == span_written(t).unwrap().0 && r.end == span_written(t).unwrap().1 + 1
        }),
{
    let ghost t = v@.subrange(from as int, to as int);
    let mut i: usize = from;
    while i < to && v[i] != '='
        invariant
            from <= i <= to <= v@.len(),
            t == v@.subrange(from as int, to as int),
            after_eq(t, 0) == after_eq(t, i - from),
        decreases to - i,
    {
        i = i + 1;
    }
    proof {
        assert(i < to ==> after_eq(t, i - from) == i + 1 - from);
        assert(i == to ==> after_eq(t, i - from) == t.len());
    }
    let a = if i < to {
        i + 1
    } else {
        to
    };
    let mut d: usize = a;
    while d < to && v[d] != '.'
        invariant
            a <= d <= to <= v@.len(),
            from <= a,
            t == v@.subrange(from as int, to as int),
            dot_pos(t, a - from) == dot_pos(t, d - from),
        decreases to - d,
    {
        d = d + 1;
    }
    proof {
        assert(dot_pos(t, a - from) == d - from);
    }
    let tail_end = if to > from && v[to - 1] == ',' {
        to - 1
    } else {
        to
    };
    proof {
        lemma_int_written_subrange(v@, from as int, to as int, a as int, d as int);
        lemma_int_written_subrange(v@, from as int, to as int, d as int + 2, tail_end as int);
    }
    let lo = match parse_i64_range(v, a, d) {
        Some(x) => x,
        None => {
            proof {
                assert(false);
            }
            0
        },
    };
    let hi = match parse_i64_range(v, d + 2, tail_end) {
        Some(x) => x,
        None => {
            proof {
                assert(false);
            }
            0
        },
    };
    Span { start: lo as i32, end: (hi as i32) + 1 }
}

/// A number written in a slice of `v` reads the same through the
/// subrange.
proof fn lemma_int_written_subrange(s: Seq<char>, base: int, lim: int, from: int, to: int)
    requires
        0 <= base <= from,
        to <= lim <= s.len(),
    ensures
        from <= to ==> int_written(s, from, to) == int_written(
            s.subrange(base, lim),
            from - base,
            to - base,
        ),
{
    if from <= to {
        lemma_digits_val_sub(s, base, lim, from, to);
        lemma_digits_val_sub(s, base, lim, from + 1, to);
    }
}

/// Digit values agree between a sequence and a subrange of it.
proof fn lemma_digits_val_sub(s: Seq<char>, base: int, lim: int, a: int, b: int)
    requires
        0 <= base <= a,
        b <= lim <= s.len(),
    ensures
        a <= b ==> crate::text::digits_val(s, a, b) == crate::text::digits_val(
            s.subrange(base, lim),
            a - base,
            b - base,
        ),
        a <= b ==> (crate::text::all_digits(s, a, b) <==> crate::text::all_digits(
            s.subrange(base, lim),
            a - base,
            b - base,
        )),
    decreases b - a,
{
    if a < b {
        lemma_digits_val_sub(s, base, lim, a, b - 1);
        assert(crate::text::all_digits(s, a, b) <==> crate::text::all_digits(
            s.subrange(base, lim),
            a - base,
            b - base,
        )) by {
            let t = s.subrange(base, lim);
            assert(forall|k: int| a <= k < b ==> s[k] == #[trigger] t[k - base]);
            assert(crate::text::all_digits(s, a, b) ==> crate::text::all_digits(
                t,
                a - base,
                b - base,
            )) by {
                if crate::text::all_digits(s, a, b) {
                    assert forall|k: int| a - base <= k < b - base implies crate::text::is_digit(
                        #[trigger] t[k],
                    ) by {
                        assert(t[k] == s[k + base]);
                    }
                }
            }
            assert(crate::text::all_digits(t, a - base, b - base) ==> crate::text::all_digits(
                s,
                a,
                b,
            )) by {
                if crate::text::all_digits(t, a - base, b - base) {
                    assert forall|k: int| a <= k < b implies crate::text::is_digit(
                        #[trigger] s[k],
                    ) by {
                        assert(t[k - base] == s[k]);
                    }
                }
            }
        }
    }
}

/// Bounds of the third and fourth whitespace-separated tokens: the `x`
/// and `y` ranges of a line such as `target area: x=20..30, y=-10..-5`.
pub open spec fn range_tokens(s: Seq<char>) -> ((int, int), (int, int)) {
    let a0 = skip_ws(s, 0);
    let a1 = skip_ws(s, token_end(s, a0));
    let a2 = skip_ws(s, token_end(s, a1));
    let a3 = skip_ws(s, token_end(s, a2));
    ((a2, token_end(s, a2)), (a3, token_end(s, a3)))
}

/// The target area a puzzle line describes, when well formed.
pub open spec fn target_written(s: Seq<char>) -> Option<((int, int), (int, int))> {
    let tx = range_tokens(s).0;
    let ty = range_tokens(s).1;
    if !(tx.1 <= s.len() && ty.1 <= s.len() && tx.0 < tx.1 && ty.0 < ty.1) {
        None
    } else {
        match span_written(s.subrange(tx.0, tx.1)) {
            None => None,
            Some(bx) => match span_written(s.subrange(ty.0, ty.1)) {
                None => None,
                Some(by) => Some((bx, by)),
            },
        }
    }
}

/// Read a target line into its `x` span and `y` span.
pub fn parse_input(input: &String) -> (r: (Span, Span))
    requires
        ({
            match target_written(input@) {
                Some(b) => i32::MIN <= b.0.0 <= i32::MAX && i32::MIN <= b.0.1 < i32::MAX
                    && i32::MIN <= b.1.0 <= i32::MAX && i32::MIN <= b.1.1 < i32::MAX,
                None => false,
            }
        }),
    ensures
        ({
            let b = target_written(input@).unwrap();
            r.0.start == b.0.0 && r.0.end == b.0.1 + 1 && r.1.start == b.1.0 && r.1.end == b.1.1
                + 1
        }),
{
    let v = chars_of(input.as_str());
    let t0 = next_token(&v, 0);
    let (s0, e0) = match t0 {
        Some(t) => t,
        None => {
            proof {
                assert(false);
            }
            (0, 0)
        },
    };
    let t1 = next_token(&v, e0);
    let (s1, e1) = match t1 {
        Some(t) => t,
        None => {
            proof {
                assert(false);
            }
            (0, 0)
        },
    };
    let t2 = next_token(&v, e1);
    let (s2, e2) = match t2 {
        Some(t) => t,
        None => {
            proof {
                assert(false);
            }
            (0, 0)
        },
    };
    let t3 = next_token(&v, e2);
    let (s3, e3) = match t3 {
        Some(t) => t,
        None => {
            proof {
                assert(false);
            }
            (0, 0)
        },
    };
    let x_span = text_range_to_range(&v, s2, e2);
    let y_span = text_range_to_range(&v, s3, e3);
    (x_span, y_span)
}


/// Horizontal velocity after `n` steps of drag toward zero.
pub open spec fn vel_x_at(v0x: int, n: int) -> int
    decreases n,
{
    if n <= 0 {
        v0x
    } else {
        let p = vel_x_at(v0x, n - 1);
        if p > 0 {
            p - 1
        } else if p < 0 {
            p + 1
        } else {
            0
        }
    }
}

/// Horizontal position after `n` steps.
pub open spec fn pos_x_at(v0x: int, p0x: int, n: int) -> int
    decreases n,
{
    if n <= 0 {
        p0x
    } else {
        pos_x_at(v0x, p0x, n - 1) + vel_x_at(v0x, n - 1)
    }
}

/// Vertical position after `n` steps of gravity.
pub open spec fn pos_y_at(v0y: int, p0y: int, n: int) -> int
    decreases n,
{
    if n <= 0 {
        p0y
    } else {
        pos_y_at(v0y, p0y, n - 1) + (v0y - (n - 1))
    }
}

/// Sum of the integers from one up to `v` (negative `v` sums downward).
pub open spec fn tri2(v: int) -> int {
    v * (v + 1) / 2
}

/// The probe is inside the target after `n` steps.
pub open spec fn hits_at(v0: (int, int), p0: (int, int), tgt: (Span, Span), n: int) -> bool {
    tgt.0.spec_contains(pos_x_at(v0.0, p0.0, n)) && tgt.1.spec_contains(pos_y_at(v0.1, p0.1, n))
}

/// The probe has sunk to or below the bottom of the target after `n`
/// steps, which ends the simulation.
pub open spec fn stops_at(v0: (int, int), p0: (int, int), tgt: (Span, Span), n: int) -> bool {
    pos_y_at(v0.1, p0.1, n) <= tgt.1.start
}

/// The simulated shot enters the target at some step before sinking.
pub open spec fn sim_hits(v0: (int, int), p0: (int, int), tgt: (Span, Span)) -> bool {
    exists|n: int|
        1 <= n && #[trigger] hits_at(v0, p0, tgt, n) && (forall|i: int|
            0 <= i < n ==> !stops_at(v0, p0, tgt, i)) && (forall|i: int|
            1 <= i < n ==> !hits_at(v0, p0, tgt, i))
}

/// The step at which the shot first enters the target.
pub open spec fn hit_step(v0: (int, int), p0: (int, int), tgt: (Span, Span)) -> int {
    choose|n: int|
        1 <= n && #[trigger] hits_at(v0, p0, tgt, n) && (forall|i: int|
            0 <= i < n ==> !stops_at(v0, p0, tgt, i)) && (forall|i: int|
            1 <= i < n ==> !hits_at(v0, p0, tgt, i))
}

/// Triangle sums of bounded arguments are bounded.
proof fn lemma_tri2_range(v: int)
    requires
        -20000 <= v <= 20000,
    ensures
        0 <= tri2(v) <= 200_010_000,
{
    assert(0 <= v * (v + 1) / 2 <= 200_010_000) by (nonlinear_arith)
        requires
            -20000 <= v <= 20000,
    ;
}

proof fn lemma_tri2_facts(k: int)
    ensures
        tri2(k) >= 0,
        tri2(k) == tri2(k - 1) + k,
        k >= 0 ==> tri2(k) >= k,
        k <= -1 ==> tri2(k) >= -k - 1,
{
    assert(k * (k + 1) >= 0) by (nonlinear_arith);
    assert(k * (k + 1) / 2 == (k - 1) * k / 2 + k) by (nonlinear_arith);
    assert(k >= 0 ==> k * (k + 1) / 2 >= k) by (nonlinear_arith);
    assert(k <= -1 ==> k * (k + 1) / 2 >= -k - 1) by (nonlinear_arith);
}

/// Closed form for the vertical position: a difference of triangle sums.
proof fn lemma_pos_y_closed(v0y: int, p0y: int, n: int)
    requires
        n >= 0,
    ensures
        pos_y_at(v0y, p0y, n) == p0y + tri2(v0y) - tri2(v0y - n),
    decreases n,
{
    if n > 0 {
        lemma_pos_y_closed(v0y, p0y, n - 1);
        lemma_tri2_facts(v0y - n + 1);
    }
}

/// Horizontal velocity keeps its sign and its magnitude shrinks to zero.
proof fn lemma_vel_x_shape(v0x: int, n: int)
    requires
        n >= 0,
    ensures
        v0x >= 0 ==> vel_x_at(v0x, n) == (if v0x - n >= 0 {
            v0x - n
        } else {
            0
        }),
        v0x < 0 ==> vel_x_at(v0x, n) == (if v0x + n <= 0 {
            v0x + n
        } else {
            0
        }),
    decreases n,
{
    if n > 0 {
        lemma_vel_x_shape(v0x, n - 1);
    }
}

/// Horizontal positions never stray further than the triangle sum of the
/// starting speed.
proof fn lemma_pos_x_range(v0x: int, p0x: int, n: int)
    requires
        n >= 0,
    ensures
        p0x - tri2(if v0x >= 0 {
            v0x
        } else {
            -v0x
        }) <= pos_x_at(v0x, p0x, n) <= p0x + tri2(if v0x >= 0 {
            v0x
        } else {
            -v0x
        }),
    decreases n,
{
    let m = if v0x >= 0 {
        v0x
    } else {
        -v0x
    };
    lemma_tri2_facts(m);
    if n > 0 {
        lemma_pos_x_range(v0x, p0x, n - 1);
        lemma_vel_x_shape(v0x, n - 1);
        lemma_pos_x_stronger(v0x, p0x, n);
    }
}

/// The sharper bound behind `lemma_pos_x_range`: what is still left of the
/// triangle sum limits all further movement.
proof fn lemma_pos_x_stronger(v0x: int, p0x: int, n: int)
    requires
        n >= 0,
    ensures
        ({
            let m = if v0x >= 0 {
                v0x
            } else {
                -v0x
            };
            let rest = if m - n >= 0 {
                m - n
            } else {
                0
            };
            p0x - (tri2(m) - tri2(rest)) <= pos_x_at(v0x, p0x, n) <= p0x + (tri2(m) - tri2(rest))
        }),
    decreases n,
{
    let m = if v0x >= 0 {
        v0x
    } else {
        -v0x
    };
    if n > 0 {
        lemma_pos_x_stronger(v0x, p0x, n - 1);
        lemma_vel_x_shape(v0x, n - 1);
        let rest_prev = if m - (n - 1) >= 0 {
            m - (n - 1)
        } else {
            0
        };
        lemma_tri2_facts(rest_prev);
    } else {
        lemma_tri2_facts(m);
    }
}

/// Only one step can be the first hit.
proof fn lemma_hit_step_unique(v0: (int, int), p0: (int, int), tgt: (Span, Span), n: int)
    requires
        1 <= n,
        hits_at(v0, p0, tgt, n),
        forall|i: int| 0 <= i < n ==> !stops_at(v0, p0, tgt, i),
        forall|i: int| 1 <= i < n ==> !hits_at(v0, p0, tgt, i),
    ensures
        sim_hits(v0, p0, tgt),
        hit_step(v0, p0, tgt) == n,
{
    assert(sim_hits(v0, p0, tgt));
    let n2 = hit_step(v0, p0, tgt);
    if n2 < n {
        assert(!hits_at(v0, p0, tgt, n2));
    } else if n2 > n {
        assert(!hits_at(v0, p0, tgt, n));
    }
}

/// A shot that sinks without hitting never hits.
proof fn lemma_no_hit(v0: (int, int), p0: (int, int), tgt: (Span, Span), n: int)
    requires
        0 <= n,
        stops_at(v0, p0, tgt, n),
        forall|i: int| 0 <= i < n ==> !stops_at(v0, p0, tgt, i),
        forall|i: int| 1 <= i <= n ==> !hits_at(v0, p0, tgt, i),
    ensures
        !sim_hits(v0, p0, tgt),
{
    if sim_hits(v0, p0, tgt) {
        let n2 = choose|n2: int|
            1 <= n2 && #[trigger] hits_at(v0, p0, tgt, n2) && (forall|i: int|
                0 <= i < n2 ==> !stops_at(v0, p0, tgt, i)) && (forall|i: int|
                1 <= i < n2 ==> !hits_at(v0, p0, tgt, i));
        if n2 <= n {
            assert(!hits_at(v0, p0, tgt, n2));
        } else {
            assert(!stops_at(v0, p0, tgt, n));
        }
    }
}

/// Launch a probe and follow it until it enters the target (returning
/// every visited position) or sinks below the target ("Miss").  The
/// start position is never itself checked against the target.
pub fn trajectory(
    initial_velocity: (i32, i32),
    initial_position: (i32, i32),
    target: &(Span, Span),
) -> (r: Result<Vec<(i32, i32)>, &'static str>)
    requires
        -20000 <= initial_velocity.0 <= 20000,
        -20000 <= initial_velocity.1 <= 20000,
        -20000 <= initial_position.0 <= 20000,
        -20000 <= initial_position.1 <= 20000,
        -20000 <= target.0.start <= 20000,
        -20000 <= target.0.end <= 20000,
        -20000 <= target.1.start <= 20000,
        -20000 <= target.1.end <= 20000,
    ensures
        ({
            let v0 = (initial_velocity.0 as int, initial_velocity.1 as int);
            let p0 = (initial_position.0 as int, initial_position.1 as int);
            match r {
                Ok(t) => sim_hits(v0, p0, *target) && t@.len() == hit_step(v0, p0, *target) + 1
                    && forall|i: int|
                    0 <= i < t@.len() ==> (#[trigger] t@[i]).0 == pos_x_at(v0.0, p0.0, i)
                        && t@[i].1 == pos_y_at(v0.1, p0.1, i),
                Err(_) => !sim_hits(v0, p0, *target),
            }
        }),
{
    let ghost v0 = (initial_velocity.0 as int, initial_velocity.1 as int);
    let ghost p0 = (initial_position.0 as int, initial_position.1 as int);
    let mut traj: Vec<(i32, i32)> = Vec::new();
    traj.push(initial_position);
    let mut vx = initial_velocity.0;
    let mut vy = initial_velocity.1;
    let mut px = initial_position.0;
    let mut py = initial_position.1;
    let ghost mut n: int = 0;

    while py > target.1.start
        invariant
            -20000 <= v0.0 <= 20000,
            -20000 <= v0.1 <= 20000,
            -20000 <= p0.0 <= 20000,
            -20000 <= p0.1 <= 20000,
            -20000 <= target.1.start <= 20000,
            v0 == (initial_velocity.0 as int, initial_velocity.1 as int),
            p0 == (initial_position.0 as int, initial_position.1 as int),
            n >= 0,
            vx == vel_x_at(v0.0, n),
            vy == v0.1 - n,
            vy >= -220_000_000,
            px == pos_x_at(v0.0, p0.0, n),
            py == pos_y_at(v0.1, p0.1, n),
            traj@.len() == n + 1,
            forall|i: int| 0 <= i < traj@.len() ==> (#[trigger] traj@[i]).0 == pos_x_at(
                v0.0,
                p0.0,
                i,
            ) && traj@[i].1 == pos_y_at(v0.1, p0.1, i),
            forall|i: int| 0 <= i < n ==> !stops_at(v0, p0, *target, i),
            forall|i: int| 1 <= i <= n ==> !hits_at(v0, p0, *target, i),
        decreases vy + 220_000_001,
    {
        proof {
            lemma_pos_y_closed(v0.1, p0.1, n);
            lemma_tri2_facts(v0.1);
            lemma_tri2_range(v0.1);
            lemma_tri2_range(
                if v0.0 >= 0 {
                    v0.0
                } else {
                    -v0.0
                },
            );
            lemma_tri2_facts(vy as int);
            lemma_pos_x_stronger(v0.0, p0.0, n);
            lemma_pos_x_stronger(v0.0, p0.0, n + 1);
            lemma_vel_x_shape(v0.0, n);
            lemma_tri2_facts(
                if v0.0 >= 0 {
                    v0.0
                } else {
                    -v0.0
                },
            );
            lemma_pos_y_closed(v0.1, p0.1, n + 1);
            lemma_tri2_facts(v0.1 - n);
            lemma_tri2_facts(v0.1 - n - 1);
        }
        px = px + vx;
        py = py + vy;
        traj.push((px, py));
        if vx > 0 {
            vx = vx - 1;
        } else if vx < 0 {
            vx = vx + 1;
        }
        vy = vy - 1;
        proof {
            n = n + 1;
        }
        if target.0.contains(px) && target.1.contains(py) {
            proof {
                lemma_hit_step_unique(v0, p0, *target, n);
            }
            return Ok(traj);
        }
    }
    proof {
        lemma_no_hit(v0, p0, *target, n);
    }
    Err("Miss")
}

/// Greatest height over the strictly climbing prefix of a trajectory.
pub open spec fn climb(t: Seq<(i32, i32)>, i: int, cur: int) -> int
    decreases t.len() - i,
{
    if i < 0 || i >= t.len() {
        cur
    } else if t[i].1 > cur {
        climb(t, i + 1, t[i].1 as int)
    } else {
        cur
    }
}

/// Greatest height reached while the trajectory still climbs; scanning
/// stops at the first position that is not higher than the one before.
pub fn max_height_in_trajectory(trajectory: &Vec<(i32, i32)>) -> (r: i32)
    ensures
        r == climb(trajectory@, 0, i32::MIN as int),
{
    let mut max: i32 = i32::MIN;
    let mut i: usize = 0;
    while i < trajectory.len() && trajectory[i].1 > max
        invariant
            0 <= i <= trajectory@.len(),
            climb(trajectory@, 0, i32::MIN as int) == climb(trajectory@, i as int, max as int),
        decreases trajectory@.len() - i,
    {
        max = trajectory[i].1;
        i = i + 1;
    }
    max
}


/// Hits among launch velocities `(x, -150) .. (x, -150 + k - 1)`.
pub open spec fn hits_in_col(tgt: (Span, Span), x: int, k: int) -> int
    decreases k,
{
    if k <= 0 {
        0
    } else {
        hits_in_col(tgt, x, k - 1) + if sim_hits((x, -150 + (k - 1)), (0, 0), tgt) {
            1int
        } else {
            0int
        }
    }
}

/// Hits among all launch velocities with `0 <= x < j` and `-150 <= y < 150`.
pub open spec fn hits_total(tgt: (Span, Span), j: int) -> int
    decreases j,
{
    if j <= 0 {
        0
    } else {
        hits_total(tgt, j - 1) + hits_in_col(tgt, j - 1, 300)
    }
}

proof fn lemma_hits_bounds(tgt: (Span, Span), x: int, k: int)
    requires
        k >= 0,
    ensures
        0 <= hits_in_col(tgt, x, k) <= k,
    decreases k,
{
    if k > 0 {
        lemma_hits_bounds(tgt, x, k - 1);
    }
}

proof fn lemma_hits_total_bounds(tgt: (Span, Span), j: int)
    requires
        j >= 0,
    ensures
        0 <= hits_total(tgt, j) <= j * 300,
    decreases j,
{
    if j > 0 {
        lemma_hits_total_bounds(tgt, j - 1);
        lemma_hits_bounds(tgt, j - 1, 300);
        assert((j - 1) * 300 + 300 == j * 300) by (nonlinear_arith);
    }
}

/// How many launch velocities with `0 <= x < 300` and `-150 <= y < 150`
/// land the probe in the target.
pub fn find_all_hits(target: &(Span, Span)) -> (r: usize)
    requires
        -20000 <= target.0.start <= 20000,
        -20000 <= target.0.end <= 20000,
        -20000 <= target.1.start <= 20000,
        -20000 <= target.1.end <= 20000,
    ensures
        r == hits_total(*target, 300),
{
    let mut count: usize = 0;
    let mut x: i32 = 0;
    while x < 300
        invariant
            0 <= x <= 300,
            -20000 <= target.0.start <= 20000,
            -20000 <= target.0.end <= 20000,
            -20000 <= target.1.start <= 20000,
            -20000 <= target.1.end <= 20000,
            count == hits_total(*target, x as int),
            count <= x * 300,
        decreases 300 - x,
    {
        proof {
            lemma_hits_total_bounds(*target, x as int);
            lemma_hits_bounds(*target, x as int, 300);
            assert((x + 1) * 300 == x * 300 + 300) by (nonlinear_arith);
        }
        let mut y: i32 = -150;
        let mut col: usize = 0;
        while y < 150
            invariant
                -150 <= y <= 150,
                0 <= x < 300,
                -20000 <= target.0.start <= 20000,
                -20000 <= target.0.end <= 20000,
                -20000 <= target.1.start <= 20000,
                -20000 <= target.1.end <= 20000,
                col == hits_in_col(*target, x as int, y + 150),
                col <= y + 150,
            decreases 150 - y,
        {
            proof {
                lemma_hits_bounds(*target, x as int, y + 150);
            }
            match trajectory((x, y), (0, 0), target) {
                Ok(_) => {
                    col = col + 1;
                },
                Err(_) => {},
            }
            y = y + 1;
        }
        count = count + col;
        x = x + 1;
    }
    count
}

/// Greatest climbing height of the shot at velocity `v0` from the origin,
/// over the first `len` positions.
pub open spec fn climb_pos(v0: (int, int), i: int, len: int, cur: int) -> int
    decreases len - i,
{
    if i < 0 || i >= len {
        cur
    } else if pos_y_at(v0.1, 0, i) > cur {
        climb_pos(v0, i + 1, len, pos_y_at(v0.1, 0, i))
    } else {
        cur
    }
}

/// The climbing maximum of a trajectory vector equals the climbing
/// maximum of the simulated positions.
proof fn lemma_climb_eq(t: Seq<(i32, i32)>, v0: (int, int), i: int, cur: int)
    requires
        forall|j: int| 0 <= j < t.len() ==> (#[trigger] t[j]).1 == pos_y_at(v0.1, 0, j),
    ensures
        climb(t, i, cur) == climb_pos(v0, i, t.len() as int, cur),
    decreases t.len() - i,
{
    if 0 <= i < t.len() {
        if t[i].1 > cur {
            lemma_climb_eq(t, v0, i + 1, t[i].1 as int);
        }
    }
}

/// The best climbing height over launch velocities `(x, 0) .. (x, k - 1)`
/// that hit the target (zero when none does better).
pub open spec fn best_shot(tgt: (Span, Span), x: int, k: int) -> int
    decreases k,
{
    if k <= 0 {
        0
    } else {
        let b = best_shot(tgt, x, k - 1);
        let y = k - 1;
        if sim_hits((x, y), (0, 0), tgt) && climb_pos(
            (x, y),
            0,
            hit_step((x, y), (0, 0), tgt) + 1,
            i32::MIN as int,
        ) > b {
            climb_pos((x, y), 0, hit_step((x, y), (0, 0), tgt) + 1, i32::MIN as int)
        } else {
            b
        }
    }
}

/// The highest point reachable while still hitting the target: launch
/// with the smallest x speed that can reach the target after stalling,
/// and try y speeds from zero up to eight hundred.
pub fn max_height_trajectory(target: &(Span, Span)) -> (r: i32)
    requires
        1 <= target.0.start <= 20000,
        -20000 <= target.0.end <= 20000,
        -20000 <= target.1.start <= 20000,
        -20000 <= target.1.end <= 20000,
    ensures
        exists|x: int|
            0 <= x <= target.0.start && tri2(x) >= target.0.start && (x == 0 || tri2(x - 1)
                < target.0.start) && r == #[trigger] best_shot(*target, x, 800),
{
    let mut x: i32 = 0;
    let mut t: i32 = 0;
    while t < target.0.start
        invariant
            0 <= x <= target.0.start <= 20000,
            t == tri2(x as int),
            x <= t || x == 0,
            x == 0 || tri2(x as int - 1) < target.0.start,
        decreases target.0.start - x,
    {
        proof {
            lemma_tri2_facts(x as int);
            lemma_tri2_facts(x + 1);
        }
        x = x + 1;
        t = t + x;
    }
    let ghost xg = x as int;

    let mut y: i32 = 0;
    let mut max_y: i32 = 0;
    let mut steps: u32 = 0;
    while steps < 800
        invariant
            0 <= steps <= 800,
            y == steps,
            0 <= x <= 20000,
            xg == x as int,
            1 <= target.0.start <= 20000,
            -20000 <= target.0.end <= 20000,
            -20000 <= target.1.start <= 20000,
            -20000 <= target.1.end <= 20000,
            tri2(xg) >= target.0.start,
            xg == 0 || tri2(xg - 1) < target.0.start,
            max_y == best_shot(*target, xg, y as int),
        decreases 800 - steps,
    {
        let traj = trajectory((x, y), (0, 0), target);
        match traj {
            Ok(t) => {
                let this_max_y = max_height_in_trajectory(&t);
                proof {
                    lemma_climb_eq(t@, (x as int, y as int), 0, i32::MIN as int);
                }
                if this_max_y > max_y {
                    max_y = this_max_y;
                }
            },
            Err(_) => {},
        }
        y = y + 1;
        steps = steps + 1;
    }
    max_y
}

} // verus!


