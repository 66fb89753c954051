//! Diagnostic bit reports: the gamma and epsilon rates read off the most
//! common bit of each column, and the rating search that repeatedly
//! filters the report rows by a column criterion.

use vstd::prelude::*;

verus! {

use vstd::arithmetic::power2::pow2;

/// Which bit value a column favours.
#[derive(Debug, PartialEq, Eq, Structural, Clone, Copy)]
pub enum Criterion {
    Low,
    High,
    Ambiguous,
    AllSame,
}

/// Whether the search keeps the most or the least common bit.
#[derive(PartialEq, Eq, Structural, Clone, Copy)]
pub enum Commonality {
    Most,
    Least,
}

/// Rows of `0` and `1` characters, all of the same width.
pub open spec fn binary_grid(g: Seq<Vec<char>>, width: int) -> bool {
    forall|r: int| 0 <= r < g.len() ==> (#[trigger] g[r])@.len() == width && forall|c: int|
        0 <= c < width ==> g[r]@[c] == '0' || (#[trigger] g[r]@[c]) == '1'
}

/// Number of the first `n` rows with a `0` in column `col`.
pub open spec fn zeroes_in_col(g: Seq<Vec<char>>, col: int, n: int) -> int
    decreases n,
{
    if n <= 0 {
        0
    } else {
        zeroes_in_col(g, col, n - 1) + if g[n - 1]@[col] == '0' {
            1int
        } else {
            0int
        }
    }
}

/// What the column favours: all rows equal, more zeroes than half, fewer,
/// or an exact tie.
pub open spec fn criterion_of(g: Seq<Vec<char>>, col: int) -> Criterion {
    let z = zeroes_in_col(g, col, g.len() as int);
    let threshold = g.len() as int / 2;
    if z == 0 || z == g.len() {
        Criterion::AllSame
    } else if z > threshold {
        Criterion::Low
    } else if z < threshold {
        Criterion::High
    } else {
        Criterion::Ambiguous
    }
}

proof fn lemma_zeroes_bound(g: Seq<Vec<char>>, col: int, n: int)
    ensures
        0 <= zeroes_in_col(g, col, n) <= (if n >= 0 {
            n
        } else {
            0
        }),
    decreases n,
{
    if n > 0 {
        lemma_zeroes_bound(g, col, n - 1);
    }
}

/// Classify column `col` of the report.
pub fn get_most_common(index: usize, grid: &Vec<Vec<char>>) -> (r: Criterion)
    requires
        forall|k: int| 0 <= k < grid@.len() ==> index < (#[trigger] grid@[k])@.len(),
    ensures
        r == criterion_of(grid@, index as int),
{
    let threshold = grid.len() / 2;
    let mut zeroes: usize = 0;
    let mut k: usize = 0;
    while k < grid.len()
        invariant
            0 <= k <= grid@.len(),
            forall|q: int| 0 <= q < grid@.len() ==> index < (#[trigger] grid@[q])@.len(),
            zeroes == zeroes_in_col(grid@, index as int, k as int),
            zeroes <= k,
        decreases grid@.len() - k,
    {
        proof {
            lemma_zeroes_bound(grid@, index as int, k as int);
        }
        if grid[k][index] == '0' {
            zeroes = zeroes + 1;
        }
        k = k + 1;
    }
    if zeroes == 0 || zeroes == grid.len() {
        Criterion::AllSame
    } else if zeroes > threshold {
        Criterion::Low
    } else if zeroes < threshold {
        Criterion::High
    } else {
        Criterion::Ambiguous
    }
}

/// The bit character the search keeps for this column.
pub open spec fn criterion_char(g: Seq<Vec<char>>, col: int, most: bool) -> char {
    match criterion_of(g, col) {
        Criterion::Low => if most {
            '0'
        } else {
            '1'
        },
        Criterion::High => if most {
            '1'
        } else {
            '0'
        },
        Criterion::Ambiguous => if most {
            '1'
        } else {
            '0'
        },
        Criterion::AllSame => g[0]@[col],
    }
}

/// The first `n` rows whose column `col` holds `ch`, in order.
pub open spec fn keep_rows(g: Seq<Vec<char>>, col: int, ch: char, n: int) -> Seq<Vec<char>>
    decreases n,
{
    if n <= 0 {
        Seq::empty()
    } else {
        keep_rows(g, col, ch, n - 1) + if g[n - 1]@[col] == ch {
            seq![g[n - 1]]
        } else {
            Seq::empty()
        }
    }
}

/// The value and remaining rows after filtering columns `col .. width`.
pub open spec fn find_vec_spec(v: int, g: Seq<Vec<char>>, col: int, width: int, most: bool) -> (
    int,
    Seq<Vec<char>>,
)
    decreases width - col,
{
    if col >= width {
        (v, g)
    } else {
        let ch = criterion_char(g, col, most);
        let v2 = v * 2 + if ch == '1' {
            1int
        } else {
            0int
        };
        find_vec_spec(v2, keep_rows(g, col, ch, g.len() as int), col + 1, width, most)
    }
}

/// Kept rows keep their shape.
proof fn lemma_keep_rows_grid(g: Seq<Vec<char>>, col: int, ch: char, n: int, width: int)
    requires
        binary_grid(g, width),
        0 <= n <= g.len(),
    ensures
        keep_rows(g, col, ch, n).len() <= n,
        binary_grid(keep_rows(g, col, ch, n), width),
        forall|k: int| 0 <= k < keep_rows(g, col, ch, n).len() ==> (#[trigger] keep_rows(
            g,
            col,
            ch,
            n,
        )[k])@[col] == ch,
    decreases n,
{
    if n > 0 {
        lemma_keep_rows_grid(g, col, ch, n - 1, width);
    }
}

/// With the criterion character, at least one row always survives the
/// filter on a nonempty binary grid.
proof fn lemma_keep_nonempty(g: Seq<Vec<char>>, col: int, width: int, most: bool)
    requires
        binary_grid(g, width),
        g.len() >= 1,
        0 <= col < width,
    ensures
        keep_rows(g, col, criterion_char(g, col, most), g.len() as int).len() >= 1,
{
    let n = g.len() as int;
    let z = zeroes_in_col(g, col, n);
    lemma_zeroes_bound(g, col, n);
    lemma_keep_count(g, col, '0', n, width);
    lemma_keep_count(g, col, '1', n, width);
    let ch = criterion_char(g, col, most);
    if criterion_of(g, col) is AllSame {
        lemma_keep_first(g, col, ch, n);
    }
}

/// Filtering by `'0'` keeps exactly the zero rows; by `'1'` the rest.
proof fn lemma_keep_count(g: Seq<Vec<char>>, col: int, ch: char, n: int, width: int)
    requires
        binary_grid(g, width),
        0 <= col < width,
        0 <= n <= g.len(),
        ch == '0' || ch == '1',
    ensures
        ch == '0' ==> keep_rows(g, col, ch, n).len() == zeroes_in_col(g, col, n),
        ch == '1' ==> keep_rows(g, col, ch, n).len() == n - zeroes_in_col(g, col, n),
    decreases n,
{
    if n > 0 {
        lemma_keep_count(g, col, ch, n - 1, width);
    }
}

/// When the first row's bit is the filter character, row zero survives.
proof fn lemma_keep_first(g: Seq<Vec<char>>, col: int, ch: char, n: int)
    requires
        0 < n <= g.len(),
        g[0]@[col] == ch,
    ensures
        keep_rows(g, col, ch, n).len() >= 1,
    decreases n,
{
    if n > 1 {
        lemma_keep_first(g, col, ch, n - 1);
    }
}

/// Decode a rating: walk the columns from `col` on, keep only the rows
/// matching each column's criterion, and build the value bit by bit on
/// top of `iv`.
pub fn find_vec(iv: u64, commonality: Commonality, grid: &mut Vec<Vec<char>>) -> (value: u64)
    requires
        old(grid)@.len() >= 1,
        binary_grid(old(grid)@, old(grid)@[0]@.len() as int),
        1 <= old(grid)@[0]@.len() <= 63,
        iv <= 1,
    ensures
        ({
            let most = commonality is Most;
            let width = old(grid)@[0]@.len() as int;
            value == find_vec_spec(iv as int, old(grid)@, 1, width, most).0 && final(grid)@
                == find_vec_spec(iv as int, old(grid)@, 1, width, most).1
        }),
{
    proof {
        vstd::arithmetic::power2::lemma2_to64();
    }
    let most = match commonality {
        Commonality::Most => true,
        Commonality::Least => false,
    };
    let ghost g0 = grid@;
    let ghost width = grid@[0]@.len() as int;
    let row_len = grid[0].len();
    let mut value = iv;
    let mut col: usize = 1;
    while col < row_len
        invariant
            1 <= col <= row_len,
            row_len == width,
            width <= 63,
            grid@.len() >= 1,
            binary_grid(grid@, width),
            value < pow2(col as nat),
            most == (commonality is Most),
            find_vec_spec(iv as int, g0, 1, width, most) == find_vec_spec(
                value as int,
                grid@,
                col as int,
                width,
                most,
            ),
        decreases row_len - col,
    {
        proof {
            vstd::arithmetic::power2::lemma_pow2_unfold((col + 1) as nat);
            vstd::arithmetic::power2::lemma_pow2_strictly_increases((col + 1) as nat, 64nat);
            vstd::arithmetic::power2::lemma2_to64();
            lemma_keep_nonempty(grid@, col as int, width, most);
            lemma_keep_rows_grid(
                grid@,
                col as int,
                criterion_char(grid@, col as int, most),
                grid@.len() as int,
                width,
            );
        }
        let temp = get_most_common(col, &grid);
        let criterion: char = match temp {
            Criterion::Low => match most {
                true => '0',
                false => '1',
            },
            Criterion::High => match most {
                true => '1',
                false => '0',
            },
            Criterion::Ambiguous => match most {
                true => '1',
                false => '0',
            },
            Criterion::AllSame => grid[0][col],
        };
        value = value * 2;
        if criterion == '1' {
            value = value + 1;
        }
        let ghost gc = grid@;
        let ghost k: int = 0;
        let mut row_index: usize = 0;
        while row_index < grid.len()
            invariant
                0 <= k <= gc.len(),
                col < width,
                binary_grid(gc, width),
                row_index == keep_rows(gc, col as int, criterion, k).len(),
                grid@ =~= keep_rows(gc, col as int, criterion, k) + gc.subrange(
                    k,
                    gc.len() as int,
                ),
            decreases gc.len() - k,
        {
            proof {
                lemma_keep_rows_grid(gc, col as int, criterion, k, width);
                assert(grid@[row_index as int] == gc[k]);
            }
            if grid[row_index][col] != criterion {
                let _ = grid.remove(row_index);
                proof {
                    assert(grid@ =~= keep_rows(gc, col as int, criterion, k + 1) + gc.subrange(
                        k + 1,
                        gc.len() as int,
                    ));
                }
            } else {
                row_index = row_index + 1;
                proof {
                    assert(grid@ =~= keep_rows(gc, col as int, criterion, k + 1) + gc.subrange(
                        k + 1,
                        gc.len() as int,
                    ));
                }
            }
            proof {
                k = k + 1;
            }
        }
        proof {
            assert(k == gc.len());
            assert(grid@ =~= keep_rows(gc, col as int, criterion, gc.len() as int));
        }
        col = col + 1;
    }
    value
}

/// The gamma rate over the first `n` columns: one bit per column, set
/// when zeroes do not outnumber ones.
pub open spec fn gamma_val(g: Seq<Vec<char>>, n: int) -> int
    decreases n,
{
    if n <= 0 {
        0
    } else {
        gamma_val(g, n - 1) * 2 + if zeroes_in_col(g, n - 1, g.len() as int) <= g.len() as int / 2 {
            1int
        } else {
            0int
        }
    }
}

/// The epsilon rate: the opposite bit of the gamma rate per column.
pub open spec fn epsilon_val(g: Seq<Vec<char>>, n: int) -> int
    decreases n,
{
    if n <= 0 {
        0
    } else {
        epsilon_val(g, n - 1) * 2 + if zeroes_in_col(g, n - 1, g.len() as int) <= g.len() as int
            / 2 {
            0int
        } else {
            1int
        }
    }
}

/// Gamma and epsilon rates of the report: per column, gamma takes the
/// more common bit (ties favour one) and epsilon the other.
pub fn power_rates(grid: &Vec<Vec<char>>) -> (r: (u64, u64))
    requires
        grid@.len() >= 1,
        forall|k: int| 0 <= k < grid@.len() ==> (#[trigger] grid@[k])@.len() == grid@[0]@.len(),
        grid@[0]@.len() <= 63,
    ensures
        r.0 == gamma_val(grid@, grid@[0]@.len() as int),
        r.1 == epsilon_val(grid@, grid@[0]@.len() as int),
{
    proof {
        vstd::arithmetic::power2::lemma2_to64();
    }
    let width = grid[0].len();
    let mut gamma: u64 = 0;
    let mut epsilon: u64 = 0;
    let mut col: usize = 0;
    while col < width
        invariant
            0 <= col <= width <= 63,
            grid@.len() >= 1,
            forall|k: int| 0 <= k < grid@.len() ==> (#[trigger] grid@[k])@.len() == width,
            gamma == gamma_val(grid@, col as int),
            epsilon == epsilon_val(grid@, col as int),
            gamma < pow2(col as nat),
            epsilon < pow2(col as nat),
        decreases width - col,
    {
        proof {
            vstd::arithmetic::power2::lemma_pow2_unfold((col + 1) as nat);
            vstd::arithmetic::power2::lemma_pow2_strictly_increases((col + 1) as nat, 64nat);
            vstd::arithmetic::power2::lemma2_to64();
        }
        let threshold = grid.len() / 2;
        let mut zeroes: usize = 0;
        let mut k: usize = 0;
        while k < grid.len()
            invariant
                0 <= k <= grid@.len(),
                col < width,
                forall|q: int| 0 <= q < grid@.len() ==> (#[trigger] grid@[q])@.len() == width,
                zeroes == zeroes_in_col(grid@, col as int, k as int),
                zeroes <= k,
            decreases grid@.len() - k,
        {
            proof {
                lemma_zeroes_bound(grid@, col as int, k as int);
            }
            if grid[k][col] == '0' {
                zeroes = zeroes + 1;
            }
            k = k + 1;
        }
        gamma = gamma * 2;
        epsilon = epsilon * 2;
        if zeroes <= threshold {
            gamma = gamma + 1;
        } else {
            epsilon = epsilon + 1;
        }
        col = col + 1;
    }
    (gamma, epsilon)
}

} // verus!
