//! Depth-scan reports: counting how often the measured depth increases,
//! both for single readings and for sums of three-reading windows.

use vstd::prelude::*;

verus! {

/// Number of positions among the first `n` readings whose value is strictly
/// greater than the reading just before it.
pub open spec fn increases_before(s: Seq<i64>, n: int) -> int
    decreases n,
{
    if n <= 1 {
        0
    } else {
        increases_before(s, n - 1) + if s[n - 1] > s[n - 2] {
            1int
        } else {
            0int
        }
    }
}

/// Sum of the three readings starting at position `i`.
pub open spec fn window_sum(s: Seq<i64>, i: int) -> int {
    s[i] + s[i + 1] + s[i + 2]
}

/// Number of positions `i` among `1 .. n` whose three-reading window sums
/// to strictly more than the window at `i - 1`.
pub open spec fn window_increases_before(s: Seq<i64>, n: int) -> int
    decreases n,
{
    if n <= 1 {
        0
    } else {
        window_increases_before(s, n - 1) + if window_sum(s, n - 1) > window_sum(s, n - 2) {
            1int
        } else {
            0int
        }
    }
}

proof fn lemma_increases_bound(s: Seq<i64>, n: int)
    requires
        n >= 0,
    ensures
        0 <= increases_before(s, n) <= n,
    decreases n,
{
    if n > 1 {
        lemma_increases_bound(s, n - 1);
    }
}

proof fn lemma_window_increases_bound(s: Seq<i64>, n: int)
    requires
        n >= 0,
    ensures
        0 <= window_increases_before(s, n) <= n,
    decreases n,
{
    if n > 1 {
        lemma_window_increases_bound(s, n - 1);
    }
}

/// How many readings are strictly deeper than the reading before them.
pub fn count_increases(data: &Vec<i64>) -> (count: u64)
    ensures
        count == increases_before(data@, data@.len() as int),
{
    let mut count: u64 = 0;
    let mut i: usize = 1;
    proof {
        lemma_increases_bound(data@, data@.len() as int);
    }
    if data.len() < 2 {
        return 0;
    }
    while i < data.len()
        invariant
            1 <= i <= data@.len(),
            count == increases_before(data@, i as int),
            count <= i,
        decreases data@.len() - i,
    {
        proof {
            lemma_increases_bound(data@, i as int);
        }
        if data[i] > data[i - 1] {
            count = count + 1;
        }
        i = i + 1;
    }
    count
}

/// How many three-reading windows sum to strictly more than the window
/// starting one position earlier.  The readings are bounded so that the
/// three-way sums cannot overflow, and at least two readings are needed
/// for the first window comparison to exist.
pub fn count_window_increases(data: &Vec<i64>) -> (count: u64)
    requires
        data@.len() >= 2,
        forall|k: int| 0 <= k < data@.len() ==> -0x2000_0000_0000_0000 < #[trigger] data@[k]
            < 0x2000_0000_0000_0000,
    ensures
        count == window_increases_before(data@, data@.len() - 2),
{
    let mut count: u64 = 0;
    let end = data.len() - 2;
    proof {
        lemma_window_increases_bound(data@, end as int);
    }
    let mut i: usize = 1;
    while i < end
        invariant
            1 <= i <= end || (end == 0 && i == 1),
            end == data@.len() - 2,
            end <= usize::MAX - 2,
            forall|k: int| 0 <= k < data@.len() ==> -0x2000_0000_0000_0000 < #[trigger] data@[k]
                < 0x2000_0000_0000_0000,
            count == window_increases_before(data@, i as int),
            count <= i,
        decreases end - i,
    {
        proof {
            lemma_window_increases_bound(data@, i as int);
        }
        let here = data[i] + data[i + 1] + data[i + 2];
        let before = data[i - 1] + data[i] + data[i + 1];
        if here > before {
            count = count + 1;
        }
        i = i + 1;
    }
    count
}

} // verus!
