//! Transparent-paper folding: dots reflect across fold lines, and dots
//! that land on one another merge.

use vstd::prelude::*;

verus! {

/// A dot on the transparent sheet.
#[derive(Debug, Clone, Copy, PartialEq, Eq, Structural)]
pub struct Dot {
    pub x: u32,
    pub y: u32,
}

/// Which axis a fold line is parallel to.
#[derive(Debug, Clone, Copy, PartialEq, Eq, Structural)]
pub enum FoldDirection {
    X,
    Y,
}

/// A fold instruction: the direction and the line's coordinate.
#[derive(Debug, Clone, Copy)]
pub struct Fold {
    pub direction: FoldDirection,
    pub location: u32,
}

impl FoldDirection {
    /// The direction named by the last character of a fold instruction
    /// (`x` or `y`).
    pub fn from_str(string: &str) -> (r: Option<FoldDirection>)
        ensures
            match r {
                Some(d) => string@.len() > 0 && ((string@.last() == 'x' && d is X) || (
                string@.last() == 'y' && d is Y)),
                None => string@.len() == 0 || (string@.last() != 'x' && string@.last() != 'y'),
            },
    {
        let n = string.unicode_len();
        if n == 0 {
            return None;
        }
        let c = string.get_char(n - 1);
        if c == 'x' {
            Some(FoldDirection::X)
        } else if c == 'y' {
            Some(FoldDirection::Y)
        } else {
            None
        }
    }
}

/// Where a dot lands after a fold: coordinates at or past the line
/// reflect to the near side.
pub open spec fn folded_dot(d: Dot, f: Fold) -> Dot {
    match f.direction {
        FoldDirection::X => Dot {
            x: if d.x >= f.location {
                (2 * f.location - d.x) as u32
            } else {
                d.x
            },
            y: d.y,
        },
        FoldDirection::Y => Dot {
            x: d.x,
            y: if d.y >= f.location {
                (2 * f.location - d.y) as u32
            } else {
                d.y
            },
        },
    }
}

impl Dot {
    /// Reflect this dot across the fold line if it lies at or past it.
    pub fn fold(&mut self, fold: &Fold)
        requires
            fold.location <= 0x7FFF_FFFF,
            fold.direction is X ==> old(self).x <= 2 * fold.location,
            fold.direction is Y ==> old(self).y <= 2 * fold.location,
        ensures
            *final(self) == folded_dot(*old(self), *fold),
    {
        match fold.direction {
            FoldDirection::X => {
                if self.x >= fold.location {
                    self.x = (2 * fold.location) - self.x;
                }
            },
            FoldDirection::Y => {
                if self.y >= fold.location {
                    self.y = (2 * fold.location) - self.y;
                }
            },
        }
    }
}

/// Apply one fold to every dot.
pub fn fold_all(dots: &mut Vec<Dot>, fold: &Fold)
    requires
        fold.location <= 0x7FFF_FFFF,
        forall|k: int|
            0 <= k < old(dots)@.len() ==> ((fold.direction is X ==> (#[trigger] old(dots)@[k]).x
                <= 2 * fold.location) && (fold.direction is Y ==> old(dots)@[k].y <= 2
                * fold.location)),
    ensures
        final(dots)@.len() == old(dots)@.len(),
        forall|k: int| 0 <= k < old(dots)@.len() ==> #[trigger] final(dots)@[k] == folded_dot(
            old(dots)@[k],
            *fold,
        ),
{
    let n = dots.len();
    let mut i: usize = 0;
    while i < n
        invariant
            0 <= i <= n,
            n == dots@.len(),
            dots@.len() == old(dots)@.len(),
            fold.location <= 0x7FFF_FFFF,
            forall|k: int|
                0 <= k < old(dots)@.len() ==> ((fold.direction is X ==> (#[trigger] old(
                    dots,
                )@[k]).x <= 2 * fold.location) && (fold.direction is Y ==> old(dots)@[k].y <= 2
                    * fold.location)),
            forall|k: int| 0 <= k < i ==> #[trigger] dots@[k] == folded_dot(old(dots)@[k], *fold),
            forall|k: int| i <= k < n ==> #[trigger] dots@[k] == old(dots)@[k],
        decreases n - i,
    {
        let mut d = dots[i];
        d.fold(fold);
        dots.set(i, d);
        i = i + 1;
    }
}

/// The dots with later duplicates dropped, keeping first appearances in
/// order.
pub open spec fn dedup_spec(s: Seq<Dot>, n: int) -> Seq<Dot>
    decreases n,
{
    if n <= 0 {
        Seq::empty()
    } else {
        let d = dedup_spec(s, n - 1);
        if d.contains(s[n - 1]) {
            d
        } else {
            d.push(s[n - 1])
        }
    }
}

/// Drop every dot that coincides with an earlier one.
pub fn dedup_dots(dots: &Vec<Dot>) -> (out: Vec<Dot>)
    ensures
        out@ == dedup_spec(dots@, dots@.len() as int),
{
    let mut out: Vec<Dot> = Vec::new();
    let n = dots.len();
    let mut i: usize = 0;
    proof {
        assert(out@ =~= dedup_spec(dots@, 0));
    }
    while i < n
        invariant
            0 <= i <= n,
            n == dots@.len(),
            out@ == dedup_spec(dots@, i as int),
        decreases n - i,
    {
        let d = dots[i];
        let mut seen: bool = false;
        let mut j: usize = 0;
        while j < out.len()
            invariant
                0 <= j <= out@.len(),
                seen <==> exists|q: int| 0 <= q < j && out@[q] == d,
            decreases out@.len() - j,
        {
            if out[j] == d {
                seen = true;
            }
            j = j + 1;
        }
        proof {
            assert(seen <==> out@.contains(d));
        }
        if !seen {
            out.push(d);
        }
        i = i + 1;
    }
    out
}

} // verus!
