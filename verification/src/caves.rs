//! Counting paths through a cave system.  Big caves may be revisited
//! freely, small caves at most once — or, with the bonus token, a single
//! small cave twice.  Paths run from the start cave to the end cave, and
//! the start may never be re-entered.

use vstd::prelude::*;

verus! {

/// The cave system: adjacency lists, a smallness flag per cave, and the
/// distinguished start and end caves.
pub struct CaveGraph {
    pub adj: Vec<Vec<usize>>,
    pub small: Vec<bool>,
    pub start: usize,
    pub end: usize,
}

impl CaveGraph {
    /// Adjacency lists index real caves, start and end exist, and no two
    /// big caves are adjacent (otherwise infinitely many paths exist).
    pub open spec fn wf(&self) -> bool {
        &&& self.adj@.len() == self.small@.len()
        &&& self.start < self.adj@.len()
        &&& self.end < self.adj@.len()
        &&& forall|u: int, k: int|
            0 <= u < self.adj@.len() && 0 <= k < self.adj@[u]@.len() ==> (#[trigger] self.adj@[u]@[k])
                < self.adj@.len()
        &&& forall|u: int, k: int|
            0 <= u < self.adj@.len() && 0 <= k < self.adj@[u]@.len() ==> (self.small@[u]
                || self.small@[#[trigger] self.adj@[u]@[k] as int])
    }
}

/// Number of small caves not yet visited, among the first `n`.
pub open spec fn unvisited(small: Seq<bool>, visited: Seq<bool>, n: int) -> int
    decreases n,
{
    if n <= 0 {
        0
    } else {
        unvisited(small, visited, n - 1) + if small[n - 1] && !visited[n - 1] {
            1int
        } else {
            0int
        }
    }
}

/// Number of paths from `node` to the end, given which small caves the
/// current path has already visited and whether the double-visit token is
/// still available.
pub open spec fn count_from(g: CaveGraph, node: int, visited: Seq<bool>, token: bool) -> int
    decreases
            unvisited(g.small@, visited, g.small@.len() as int),
            (if token {
                1int
            } else {
                0int
            }),
            (if g.small@[node] {
                1int
            } else {
                0int
            }),
            g.adj@[node]@.len() + 1,
    when g.wf() && 0 <= node < g.adj@.len() && visited.len() == g.small@.len()
    via count_from_decreases
{
    if node == g.end {
        1
    } else {
        count_sum(g, node, visited, token, g.adj@[node]@.len() as int)
    }
}

/// Paths through the first `k` neighbours of `node`.
pub open spec fn count_sum(g: CaveGraph, node: int, visited: Seq<bool>, token: bool, k: int) -> int
    decreases
            unvisited(g.small@, visited, g.small@.len() as int),
            (if token {
                1int
            } else {
                0int
            }),
            (if g.small@[node] {
                1int
            } else {
                0int
            }),
            k,
    when g.wf() && 0 <= node < g.adj@.len() && visited.len() == g.small@.len() && k <= g.adj@[node]@.len()
    via count_sum_decreases
{
    if k <= 0 {
        0
    } else {
        let m = g.adj@[node]@[k - 1] as int;
        count_sum(g, node, visited, token, k - 1) + (if m == g.start {
            0int
        } else if g.small@[m] && visited[m] {
            if token {
                count_from(g, m, visited, false)
            } else {
                0int
            }
        } else if g.small@[m] {
            count_from(g, m, visited.update(m, true), token)
        } else {
            count_from(g, m, visited, token)
        })
    }
}

/// Marking one unvisited small cave lowers the unvisited count.
proof fn lemma_unvisited_mark(small: Seq<bool>, visited: Seq<bool>, m: int, n: int)
    requires
        0 <= m < visited.len(),
        small[m],
        !visited[m],
        n <= visited.len(),
    ensures
        m < n ==> unvisited(small, visited.update(m, true), n) == unvisited(small, visited, n) - 1,
        n <= m ==> unvisited(small, visited.update(m, true), n) == unvisited(small, visited, n),
    decreases n,
{
    if n > 0 {
        lemma_unvisited_mark(small, visited, m, n - 1);
    }
}

proof fn lemma_unvisited_nonneg(small: Seq<bool>, visited: Seq<bool>, n: int)
    ensures
        unvisited(small, visited, n) >= 0,
    decreases n,
{
    if n > 0 {
        lemma_unvisited_nonneg(small, visited, n - 1);
    }
}

#[via_fn]
proof fn count_from_decreases(g: CaveGraph, node: int, visited: Seq<bool>, token: bool) {
}

#[via_fn]
proof fn count_sum_decreases(g: CaveGraph, node: int, visited: Seq<bool>, token: bool, k: int) {
    lemma_unvisited_nonneg(g.small@, visited, g.small@.len() as int);
    if k > 0 {
        let m = g.adj@[node]@[k - 1] as int;
        if m != g.start {
            if g.small@[m] && visited[m] {
            } else if g.small@[m] {
                lemma_unvisited_mark(g.small@, visited, m, g.small@.len() as int);
                lemma_unvisited_nonneg(g.small@, visited.update(m, true), g.small@.len() as int);
            } else {
                assert(g.small@[node]);
            }
        }
    }
}

/// Paths counted so far never exceed the total for the node.
proof fn lemma_count_nonneg(g: CaveGraph, node: int, visited: Seq<bool>, token: bool)
    requires
        g.wf(),
        0 <= node < g.adj@.len(),
        visited.len() == g.small@.len(),
    ensures
        count_from(g, node, visited, token) >= 0,
    decreases
            unvisited(g.small@, visited, g.small@.len() as int),
            (if token {
                1int
            } else {
                0int
            }),
            (if g.small@[node] {
                1int
            } else {
                0int
            }),
            g.adj@[node]@.len() + 1,
{
    if node != g.end {
        lemma_count_sum_nonneg(g, node, visited, token, g.adj@[node]@.len() as int);
    }
}

proof fn lemma_count_sum_nonneg(g: CaveGraph, node: int, visited: Seq<bool>, token: bool, k: int)
    requires
        g.wf(),
        0 <= node < g.adj@.len(),
        visited.len() == g.small@.len(),
        k <= g.adj@[node]@.len(),
    ensures
        count_sum(g, node, visited, token, k) >= 0,
        forall|k2: int| 0 <= k2 <= k ==> #[trigger] count_sum(g, node, visited, token, k2)
            <= count_sum(g, node, visited, token, k),
    decreases
            unvisited(g.small@, visited, g.small@.len() as int),
            (if token {
                1int
            } else {
                0int
            }),
            (if g.small@[node] {
                1int
            } else {
                0int
            }),
            k,
{
    if k > 0 {
        lemma_count_sum_nonneg(g, node, visited, token, k - 1);
        let m = g.adj@[node]@[k - 1] as int;
        if m != g.start {
            if g.small@[m] && visited[m] {
                if token {
                    lemma_count_nonneg(g, m, visited, false);
                }
            } else if g.small@[m] {
                lemma_unvisited_mark(g.small@, visited, m, g.small@.len() as int);
                lemma_unvisited_nonneg(g.small@, visited.update(m, true), g.small@.len() as int);
                lemma_count_nonneg(g, m, visited.update(m, true), token);
            } else {
                assert(g.small@[node]);
                lemma_count_nonneg(g, m, visited, token);
            }
        }
    }
}

/// Count the paths from `node` to the end.  The visited flags are
/// restored before returning.
fn count_paths(g: &CaveGraph, node: usize, visited: &mut Vec<bool>, token: bool) -> (r: u64)
    requires
        g.wf(),
        node < g.adj@.len(),
        old(visited)@.len() == g.small@.len(),
        count_from(*g, node as int, old(visited)@, token) <= u64::MAX,
    ensures
        final(visited)@ == old(visited)@,
        r == count_from(*g, node as int, old(visited)@, token),
    decreases
            unvisited(g.small@, old(visited)@, g.small@.len() as int),
            (if token {
                1int
            } else {
                0int
            }),
            (if g.small@[node as int] {
                1int
            } else {
                0int
            }),
            g.adj@[node as int]@.len() + 1,
{
    if node == g.end {
        return 1;
    }
    let ghost v0 = visited@;
    let mut acc: u64 = 0;
    let n = g.adj[node].len();
    let mut k: usize = 0;
    proof {
        lemma_count_sum_nonneg(*g, node as int, v0, token, n as int);
    }
    while k < n
        invariant
            g.wf(),
            node < g.adj@.len(),
            node != g.end,
            n == g.adj@[node as int]@.len(),
            0 <= k <= n,
            visited@ == v0,
            v0 == old(visited)@,
            visited@.len() == g.small@.len(),
            count_from(*g, node as int, v0, token) <= u64::MAX,
            count_from(*g, node as int, v0, token) == count_sum(
                *g,
                node as int,
                v0,
                token,
                n as int,
            ),
            acc == count_sum(*g, node as int, v0, token, k as int),
        decreases n - k,
    {
        proof {
            lemma_count_sum_nonneg(*g, node as int, v0, token, n as int);
            lemma_count_sum_nonneg(*g, node as int, v0, token, k + 1);
        }
        let m = g.adj[node][k];
        if m != g.start {
            if g.small[m] && visited[m] {
                if token {
                    proof {
                        lemma_count_nonneg(*g, m as int, v0, false);
                        lemma_unvisited_nonneg(g.small@, v0, g.small@.len() as int);
                    }
                    let c = count_paths(g, m, visited, false);
                    acc = acc + c;
                }
            } else if g.small[m] {
                proof {
                    lemma_unvisited_mark(g.small@, v0, m as int, g.small@.len() as int);
                    lemma_unvisited_nonneg(
                        g.small@,
                        v0.update(m as int, true),
                        g.small@.len() as int,
                    );
                    lemma_count_nonneg(*g, m as int, v0.update(m as int, true), token);
                }
                visited[m] = true;
                let c = count_paths(g, m, visited, token);
                visited[m] = false;
                proof {
                    assert(visited@ =~= v0);
                }
                acc = acc + c;
            } else {
                proof {
                    assert(g.small@[node as int]);
                    lemma_count_nonneg(*g, m as int, v0, token);
                    lemma_unvisited_nonneg(g.small@, v0, g.small@.len() as int);
                }
                let c = count_paths(g, m, visited, token);
                acc = acc + c;
            }
        }
        k = k + 1;
    }
    acc
}

/// Number of distinct paths from the start cave to the end cave, where a
/// small cave may appear once — or, when `small_twice` is set, one single
/// small cave twice.
pub fn dfs(g: &CaveGraph, small_twice: bool) -> (r: u64)
    requires
        g.wf(),
        count_from(*g, g.start as int, Seq::new(g.small@.len(), |i: int| false), small_twice)
            <= u64::MAX,
    ensures
        r == count_from(
            *g,
            g.start as int,
            Seq::new(g.small@.len(), |i: int| false),
            small_twice,
        ),
{
    let mut visited: Vec<bool> = Vec::new();
    let mut i: usize = 0;
    let n = g.small.len();
    while i < n
        invariant
            0 <= i <= n,
            visited@.len() == i,
            forall|q: int| 0 <= q < i ==> !(#[trigger] visited@[q]),
        decreases n - i,
    {
        visited.push(false);
        i = i + 1;
    }
    proof {
        assert(visited@ =~= Seq::new(g.small@.len(), |q: int| false));
    }
    count_paths(g, g.start, &mut visited, small_twice)
}


/// Check the graph shape `dfs` needs: real indices everywhere, start and
/// end present, and no two big caves adjacent.
pub fn check_graph(g: &CaveGraph) -> (r: bool)
    ensures
        r == g.wf(),
{
    if g.adj.len() != g.small.len() || g.start >= g.adj.len() || g.end >= g.adj.len() {
        return false;
    }
    let n = g.adj.len();
    let mut u: usize = 0;
    while u < n
        invariant
            0 <= u <= n,
            n == g.adj@.len(),
            n == g.small@.len(),
            g.start < n && g.end < n,
            forall|u2: int, k: int|
                0 <= u2 < u && 0 <= k < g.adj@[u2]@.len() ==> (#[trigger] g.adj@[u2]@[k]) < n && (
                g.small@[u2] || g.small@[g.adj@[u2]@[k] as int]),
        decreases n - u,
    {
        let m = g.adj[u].len();
        let mut k: usize = 0;
        while k < m
            invariant
                0 <= k <= m,
                0 <= u < n,
                n == g.adj@.len(),
                n == g.small@.len(),
                m == g.adj@[u as int]@.len(),
                forall|k2: int| 0 <= k2 < k ==> (#[trigger] g.adj@[u as int]@[k2]) < n && (
                g.small@[u as int] || g.small@[g.adj@[u as int]@[k2] as int]),
            decreases m - k,
        {
            let t = g.adj[u][k];
            if t >= n {
                return false;
            }
            if !g.small[u] && !g.small[t] {
                return false;
            }
            k = k + 1;
        }
        u = u + 1;
    }
    true
}

} // verus!

