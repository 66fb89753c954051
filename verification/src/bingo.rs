//! Bingo boards: marking called numbers, recognising a completed row or
//! column, and scoring a winning board.

use vstd::prelude::*;

verus! {

/// One hit on the board.
#[derive(Clone, Copy, Debug, PartialEq, Eq, Structural)]
pub struct Mark {
    pub row: usize,
    pub col: usize,
}

/// A bingo board: a grid of numbers, the marks made so far, and whether
/// it has already won.
#[derive(Debug)]
pub struct BingoBoard {
    pub board: Vec<Vec<u32>>,
    pub marks: Vec<Mark>,
    pub won: bool,
}

/// A board that won, with its score and the values of the winning line.
#[derive(Debug)]
pub struct WinningBoard {
    pub score: u64,
    pub win_marks: Vec<u32>,
}

/// A five-by-five grid.
pub open spec fn board_shape(b: Seq<Vec<u32>>) -> bool {
    b.len() == 5 && forall|r: int| 0 <= r < 5 ==> #[trigger] b[r]@.len() == 5
}

/// The marks that calling `num` adds within the first `n` cells of row
/// `r`, in cell order.
pub open spec fn row_hits(row: Seq<u32>, r: int, num: u32, n: int) -> Seq<Mark>
    decreases n,
{
    if n <= 0 {
        Seq::empty()
    } else {
        row_hits(row, r, num, n - 1) + if row[n - 1] == num {
            seq![Mark { row: r as usize, col: (n - 1) as usize }]
        } else {
            Seq::empty()
        }
    }
}

/// The marks that calling `num` adds within the first `n` rows, in
/// row-major order.
pub open spec fn board_hits(b: Seq<Vec<u32>>, num: u32, n: int) -> Seq<Mark>
    decreases n,
{
    if n <= 0 {
        Seq::empty()
    } else {
        board_hits(b, num, n - 1) + row_hits(b[n - 1]@, n - 1, num, b[n - 1]@.len() as int)
    }
}

/// How many of the first `n` marks hit row `r`.
pub open spec fn marks_in_row(marks: Seq<Mark>, r: int, n: int) -> int
    decreases n,
{
    if n <= 0 {
        0
    } else {
        marks_in_row(marks, r, n - 1) + if marks[n - 1].row == r {
            1int
        } else {
            0int
        }
    }
}

/// How many of the first `n` marks hit column `c`.
pub open spec fn marks_in_col(marks: Seq<Mark>, c: int, n: int) -> int
    decreases n,
{
    if n <= 0 {
        0
    } else {
        marks_in_col(marks, c, n - 1) + if marks[n - 1].col == c {
            1int
        } else {
            0int
        }
    }
}

/// A row completed by the marks.
pub open spec fn row_won(marks: Seq<Mark>, r: int) -> bool {
    marks_in_row(marks, r, marks.len() as int) >= 5
}

/// A column completed by the marks.
pub open spec fn col_won(marks: Seq<Mark>, c: int) -> bool {
    marks_in_col(marks, c, marks.len() as int) >= 5
}

/// The first completed row among the five, if any.
pub open spec fn first_won_row(marks: Seq<Mark>) -> Option<int> {
    if row_won(marks, 0) {
        Some(0int)
    } else if row_won(marks, 1) {
        Some(1int)
    } else if row_won(marks, 2) {
        Some(2int)
    } else if row_won(marks, 3) {
        Some(3int)
    } else if row_won(marks, 4) {
        Some(4int)
    } else {
        None
    }
}

/// The first completed column among the five, if any.
pub open spec fn first_won_col(marks: Seq<Mark>) -> Option<int> {
    if col_won(marks, 0) {
        Some(0int)
    } else if col_won(marks, 1) {
        Some(1int)
    } else if col_won(marks, 2) {
        Some(2int)
    } else if col_won(marks, 3) {
        Some(3int)
    } else if col_won(marks, 4) {
        Some(4int)
    } else {
        None
    }
}

/// Sum of the first `n` cells of a row.
pub open spec fn row_sum(row: Seq<u32>, n: int) -> int
    decreases n,
{
    if n <= 0 {
        0
    } else {
        row_sum(row, n - 1) + row[n - 1]
    }
}

/// Sum of every cell in the first `n` rows.
pub open spec fn board_sum(b: Seq<Vec<u32>>, n: int) -> int
    decreases n,
{
    if n <= 0 {
        0
    } else {
        board_sum(b, n - 1) + row_sum(b[n - 1]@, b[n - 1]@.len() as int)
    }
}

/// Sum of the cells under the first `n` marks (a cell marked twice is
/// counted twice).
pub open spec fn marked_sum(b: Seq<Vec<u32>>, marks: Seq<Mark>, n: int) -> int
    decreases n,
{
    if n <= 0 {
        0
    } else {
        marked_sum(b, marks, n - 1) + b[marks[n - 1].row as int]@[marks[n - 1].col as int]
    }
}

/// All marks point into the five-by-five grid.
pub open spec fn marks_in_range(marks: Seq<Mark>) -> bool {
    forall|k: int| 0 <= k < marks.len() ==> (#[trigger] marks[k]).row < 5 && marks[k].col < 5
}

impl BingoBoard {
    /// An empty board with no marks.
    pub fn new() -> (b: BingoBoard)
        ensures
            b.board@.len() == 0,
            b.marks@.len() == 0,
            !b.won,
    {
        BingoBoard { board: Vec::new(), marks: Vec::new(), won: false }
    }

    /// Mark every cell holding `num`, in row-major order; true when at
    /// least one cell matched.
    pub fn mark(&mut self, num: u32) -> (hit: bool)
        ensures
            final(self).board@ == old(self).board@,
            final(self).won == old(self).won,
            final(self).marks@ == old(self).marks@ + board_hits(
                old(self).board@,
                num,
                old(self).board@.len() as int,
            ),
            hit <==> board_hits(old(self).board@, num, old(self).board@.len() as int).len() > 0,
    {
        let ghost orig = self.marks@;
        let ghost b = self.board@;
        let mut hit: bool = false;
        let mut r: usize = 0;
        while r < self.board.len()
            invariant
                0 <= r <= self.board@.len(),
                self.board@ == b,
                self.won == old(self).won,
                self.marks@ == orig + board_hits(b, num, r as int),
                hit <==> board_hits(b, num, r as int).len() > 0,
            decreases self.board@.len() - r,
        {
            let row_len = self.board[r].len();
            let mut c: usize = 0;
            while c < row_len
                invariant
                    0 <= r < self.board@.len(),
                    0 <= c <= row_len,
                    row_len == self.board@[r as int]@.len(),
                    self.board@ == b,
                    self.won == old(self).won,
                    self.marks@ == orig + board_hits(b, num, r as int) + row_hits(
                        b[r as int]@,
                        r as int,
                        num,
                        c as int,
                    ),
                    hit <==> board_hits(b, num, r as int).len() + row_hits(
                        b[r as int]@,
                        r as int,
                        num,
                        c as int,
                    ).len() > 0,
                decreases row_len - c,
            {
                if self.board[r][c] == num {
                    self.marks.push(Mark { row: r, col: c });
                    hit = true;
                }
                proof {
                    assert(orig + board_hits(b, num, r as int) + row_hits(
                        b[r as int]@,
                        r as int,
                        num,
                        c + 1,
                    ) =~= (orig + board_hits(b, num, r as int) + row_hits(
                        b[r as int]@,
                        r as int,
                        num,
                        c as int,
                    )) + (if b[r as int]@[c as int] == num {
                        seq![Mark { row: r as usize, col: c as usize }]
                    } else {
                        Seq::<Mark>::empty()
                    }));
                }
                c = c + 1;
            }
            proof {
                assert(orig + board_hits(b, num, r + 1) =~= orig + board_hits(b, num, r as int)
                    + row_hits(b[r as int]@, r as int, num, b[r as int]@.len() as int));
            }
            r = r + 1;
        }
        proof {
            assert(self.marks@ =~= orig + board_hits(b, num, b.len() as int));
        }
        hit
    }

    /// The values of the first completed row, or else of the first
    /// completed column, once at least five marks exist.  Rows are
    /// checked before columns.
    pub fn winning_values(&self) -> (r: Option<Vec<u32>>)
        requires
            board_shape(self.board@),
            marks_in_range(self.marks@),
        ensures
            match r {
                Some(vals) => self.marks@.len() >= 5 && (match first_won_row(self.marks@) {
                    Some(row) => vals@ == self.board@[row]@,
                    None => match first_won_col(self.marks@) {
                        Some(col) => vals@ == Seq::new(
                            5,
                            |i: int| self.board@[i]@[first_won_col(self.marks@).unwrap()],
                        ),
                        None => false,
                    },
                }),
                None => self.marks@.len() < 5 || (first_won_row(self.marks@) is None
                    && first_won_col(self.marks@) is None),
            },
    {
        if self.marks.len() < 5 {
            return None;
        }
        let mut row_counts: [u32; 5] = [0, 0, 0, 0, 0];
        let mut col_counts: [u32; 5] = [0, 0, 0, 0, 0];
        let n = self.marks.len();
        let mut k: usize = 0;
        while k < n
            invariant
                0 <= k <= n,
                n == self.marks@.len(),
                marks_in_range(self.marks@),
                forall|r: int| 0 <= r < 5 ==> #[trigger] row_counts@[r] as int == (if marks_in_row(
                    self.marks@,
                    r,
                    k as int,
                ) > u32::MAX {
                    u32::MAX as int
                } else {
                    marks_in_row(self.marks@, r, k as int)
                }),
                forall|c: int| 0 <= c < 5 ==> #[trigger] col_counts@[c] as int == (if marks_in_col(
                    self.marks@,
                    c,
                    k as int,
                ) > u32::MAX {
                    u32::MAX as int
                } else {
                    marks_in_col(self.marks@, c, k as int)
                }),
            decreases n - k,
        {
            let m = self.marks[k];
            proof {
                lemma_marks_count_bound(self.marks@, m.row as int, k as int);
                lemma_marks_count_bound(self.marks@, m.col as int, k as int);
            }
            let rc = row_counts[m.row];
            if rc < u32::MAX {
                row_counts[m.row] = rc + 1;
            }
            let cc = col_counts[m.col];
            if cc < u32::MAX {
                col_counts[m.col] = cc + 1;
            }
            k = k + 1;
        }
        let mut r: usize = 0;
        while r < 5
            invariant
                0 <= r <= 5,
                board_shape(self.board@),
                self.marks@.len() >= 5,
                forall|q: int| 0 <= q < 5 ==> #[trigger] col_counts@[q] as int == (if marks_in_col(
                    self.marks@,
                    q,
                    self.marks@.len() as int,
                ) > u32::MAX {
                    u32::MAX as int
                } else {
                    marks_in_col(self.marks@, q, self.marks@.len() as int)
                }),
                forall|q: int| 0 <= q < 5 ==> #[trigger] row_counts@[q] as int == (if marks_in_row(
                    self.marks@,
                    q,
                    self.marks@.len() as int,
                ) > u32::MAX {
                    u32::MAX as int
                } else {
                    marks_in_row(self.marks@, q, self.marks@.len() as int)
                }),
                forall|q: int| 0 <= q < r ==> !row_won(self.marks@, q),
            decreases 5 - r,
        {
            if row_counts[r] >= 5 {
                proof {
                    assert(row_won(self.marks@, r as int));
                    assert(first_won_row(self.marks@) == Some(r as int));
                }
                let mut vals: Vec<u32> = Vec::new();
                let mut i: usize = 0;
                while i < self.board[r].len()
                    invariant
                        0 <= r < 5,
                        board_shape(self.board@),
                        self.marks@.len() >= 5,
                        first_won_row(self.marks@) == Some(r as int),
                        0 <= i <= self.board@[r as int]@.len(),
                        vals@ =~= self.board@[r as int]@.subrange(0, i as int),
                    decreases self.board@[r as int]@.len() - i,
                {
                    vals.push(self.board[r][i]);
                    i = i + 1;
                }
                proof {
                    assert(vals@ =~= self.board@[r as int]@);
                }
                return Some(vals);
            }
            r = r + 1;
        }
        let mut c: usize = 0;
        while c < 5
            invariant
                0 <= c <= 5,
                board_shape(self.board@),
                self.marks@.len() >= 5,
                forall|q: int| 0 <= q < 5 ==> !row_won(self.marks@, q),
                forall|q: int| 0 <= q < 5 ==> #[trigger] col_counts@[q] as int == (if marks_in_col(
                    self.marks@,
                    q,
                    self.marks@.len() as int,
                ) > u32::MAX {
                    u32::MAX as int
                } else {
                    marks_in_col(self.marks@, q, self.marks@.len() as int)
                }),
                forall|q: int| 0 <= q < c ==> !col_won(self.marks@, q),
            decreases 5 - c,
        {
            if col_counts[c] >= 5 {
                proof {
                    assert(col_won(self.marks@, c as int));
                    assert(first_won_row(self.marks@) is None);
                    assert(first_won_col(self.marks@) == Some(c as int));
                }
                let mut vals: Vec<u32> = Vec::new();
                let mut i: usize = 0;
                while i < 5
                    invariant
                        0 <= c < 5,
                        board_shape(self.board@),
                        self.marks@.len() >= 5,
                        first_won_row(self.marks@) is None,
                        first_won_col(self.marks@) == Some(c as int),
                        0 <= i <= 5,
                        vals@ =~= Seq::new(i as nat, |q: int| self.board@[q]@[c as int]),
                    decreases 5 - i,
                {
                    vals.push(self.board[i][c]);
                    i = i + 1;
                }
                return Some(vals);
            }
            c = c + 1;
        }
        None
    }

    /// Score of the board: the sum of all cells, less the cells under the
    /// marks, times the value under the last mark.
    pub fn score(&self) -> (score: u64)
        requires
            self.marks@.len() > 0,
            marks_in_range(self.marks@),
            board_shape(self.board@),
            forall|r: int| 0 <= r < 5 ==> row_sum(#[trigger] self.board@[r]@, 5) <= u32::MAX,
            marked_sum(self.board@, self.marks@, self.marks@.len() as int) <= board_sum(
                self.board@,
                5,
            ),
            (board_sum(self.board@, 5) - marked_sum(
                self.board@,
                self.marks@,
                self.marks@.len() as int,
            )) * self.board@[self.marks@.last().row as int]@[self.marks@.last().col as int]
                <= u64::MAX,
        ensures
            score == (board_sum(self.board@, 5) - marked_sum(
                self.board@,
                self.marks@,
                self.marks@.len() as int,
            )) * self.board@[self.marks@.last().row as int]@[self.marks@.last().col as int],
    {
        let mut score: u64 = 0;
        let mut r: usize = 0;
        while r < self.board.len()
            invariant
                0 <= r <= 5,
                board_shape(self.board@),
                forall|q: int| 0 <= q < 5 ==> row_sum(#[trigger] self.board@[q]@, 5) <= u32::MAX,
                score == board_sum(self.board@, r as int),
            decreases self.board@.len() - r,
        {
            let mut row_total: u32 = 0;
            let mut i: usize = 0;
            while i < self.board[r].len()
                invariant
                    0 <= r < 5,
                    board_shape(self.board@),
                    0 <= i <= 5,
                    self.board@[r as int]@.len() == 5,
                    row_sum(self.board@[r as int]@, 5) <= u32::MAX,
                    row_total == row_sum(self.board@[r as int]@, i as int),
                decreases self.board@[r as int]@.len() - i,
            {
                proof {
                    lemma_row_sum_monotone(self.board@[r as int]@, i + 1, 5);
                    lemma_row_sum_monotone(self.board@[r as int]@, 0, i as int);
                }
                row_total = row_total + self.board[r][i];
                i = i + 1;
            }
            proof {
                lemma_board_sum_bound(self.board@, r + 1);
            }
            score = score + (row_total as u64);
            r = r + 1;
        }
        let n = self.marks.len();
        let mut k: usize = 0;
        while k < n
            invariant
                0 <= k <= n,
                n == self.marks@.len(),
                marks_in_range(self.marks@),
                board_shape(self.board@),
                marked_sum(self.board@, self.marks@, n as int) <= board_sum(self.board@, 5),
                score == board_sum(self.board@, 5) - marked_sum(self.board@, self.marks@, k as int),
            decreases n - k,
        {
            proof {
                lemma_marked_sum_monotone(self.board@, self.marks@, k + 1, n as int);
                lemma_marked_sum_monotone(self.board@, self.marks@, 0, k as int);
            }
            let m = self.marks[k];
            score = score - (self.board[m.row][m.col] as u64);
            k = k + 1;
        }
        let last = self.marks[self.marks.len() - 1];
        let factor = self.board[last.row][last.col] as u64;
        proof {
            assert(self.marks@.last() == self.marks@[n - 1]);
            lemma_mul_bound(
                board_sum(self.board@, 5) - marked_sum(self.board@, self.marks@, n as int),
                factor as int,
            );
        }
        score * factor
    }
}

proof fn lemma_marks_count_bound(marks: Seq<Mark>, r: int, n: int)
    requires
        0 <= n <= marks.len(),
    ensures
        0 <= marks_in_row(marks, r, n) <= n,
        0 <= marks_in_col(marks, r, n) <= n,
    decreases n,
{
    if n > 0 {
        lemma_marks_count_bound(marks, r, n - 1);
    }
}

proof fn lemma_row_sum_monotone(row: Seq<u32>, i: int, j: int)
    requires
        0 <= i <= j,
    ensures
        0 <= row_sum(row, i) <= row_sum(row, j),
    decreases j,
{
    if j > 0 {
        if i == j {
            lemma_row_sum_monotone(row, i - 1, j - 1);
        } else {
            lemma_row_sum_monotone(row, i, j - 1);
        }
    }
}

proof fn lemma_board_sum_bound(b: Seq<Vec<u32>>, n: int)
    requires
        board_shape(b),
        0 <= n <= 5,
        forall|q: int| 0 <= q < 5 ==> row_sum(#[trigger] b[q]@, 5) <= u32::MAX,
    ensures
        0 <= board_sum(b, n) <= n * (u32::MAX as int),
    decreases n,
{
    if n > 0 {
        lemma_board_sum_bound(b, n - 1);
        lemma_row_sum_monotone(b[n - 1]@, 0, 5);
    }
}

proof fn lemma_marked_sum_monotone(b: Seq<Vec<u32>>, marks: Seq<Mark>, i: int, j: int)
    requires
        0 <= i <= j <= marks.len(),
        marks_in_range(marks),
        board_shape(b),
    ensures
        0 <= marked_sum(b, marks, i) <= marked_sum(b, marks, j),
    decreases j,
{
    if j > 0 {
        if i == j {
            lemma_marked_sum_monotone(b, marks, i - 1, j - 1);
        } else {
            lemma_marked_sum_monotone(b, marks, i, j - 1);
        }
    }
}

proof fn lemma_mul_bound(a: int, b: int)
    requires
        a >= 0,
        0 <= b <= u32::MAX,
        a * b <= u64::MAX,
    ensures
        a * b >= 0,
{
    assert(a * b >= 0) by (nonlinear_arith)
        requires
            a >= 0,
            b >= 0,
    ;
}


/// The marks have a completed line.
pub open spec fn wins(marks: Seq<Mark>) -> bool {
    marks.len() >= 5 && (first_won_row(marks) is Some || first_won_col(marks) is Some)
}

/// The values of the winning line the marks complete.
pub open spec fn win_line(grid: Seq<Vec<u32>>, marks: Seq<Mark>) -> Seq<u32> {
    match first_won_row(marks) {
        Some(r) => grid[r]@,
        None => Seq::new(5, |i: int| grid[i]@[first_won_col(marks).unwrap()]),
    }
}

/// The board's score: unmarked total times the last-marked cell.
pub open spec fn board_score(grid: Seq<Vec<u32>>, marks: Seq<Mark>) -> int {
    (board_sum(grid, 5) - marked_sum(grid, marks, marks.len() as int)) * grid[
        marks.last().row as int]@[marks.last().col as int]
}

/// The machine-range conditions scoring a board needs.
pub open spec fn score_ready(grid: Seq<Vec<u32>>, marks: Seq<Mark>) -> bool {
    &&& forall|q: int| 0 <= q < 5 ==> row_sum(#[trigger] grid[q]@, 5) <= u32::MAX
    &&& marks.len() <= 0x0FFF_FFFF
    &&& marked_sum(grid, marks, marks.len() as int) <= board_sum(grid, 5)
    &&& board_score(grid, marks) <= u64::MAX
}

/// One board's marks and won flag after one call.
pub open spec fn board_after(grid: Seq<Vec<u32>>, marks: Seq<Mark>, won: bool, call: u32) -> (
    Seq<Mark>,
    bool,
) {
    if won {
        (marks, true)
    } else {
        let m2 = marks + board_hits(grid, call, grid.len() as int);
        (m2, marks_in_range(m2) && wins(m2))
    }
}

/// This call makes the board win for the first time.
pub open spec fn wins_now(grid: Seq<Vec<u32>>, marks: Seq<Mark>, won: bool, call: u32) -> bool {
    !won && marks_in_range(marks + board_hits(grid, call, grid.len() as int)) && wins(
        marks + board_hits(grid, call, grid.len() as int),
    )
}

/// The per-board states (marks, won) of a board list.
pub open spec fn states_of(g: Seq<BingoBoard>) -> Seq<(Seq<Mark>, bool)> {
    Seq::new(g.len(), |b: int| (g[b].marks@, g[b].won))
}

/// Every board's state after one call.
pub open spec fn round_states(
    g: Seq<BingoBoard>,
    st: Seq<(Seq<Mark>, bool)>,
    call: u32,
) -> Seq<(Seq<Mark>, bool)> {
    Seq::new(st.len(), |b: int| board_after(g[b].board@, st[b].0, st[b].1, call))
}

/// The winners one call produces among the first `b` boards, in board
/// order: their score and their winning line, for every newly won board
/// whose sums stay in machine range.
pub open spec fn round_winners(
    g: Seq<BingoBoard>,
    st: Seq<(Seq<Mark>, bool)>,
    call: u32,
    b: int,
) -> Seq<(int, Seq<u32>)>
    decreases b,
{
    if b <= 0 {
        Seq::empty()
    } else {
        let grid = g[b - 1].board@;
        let m2 = st[b - 1].0 + board_hits(grid, call, grid.len() as int);
        round_winners(g, st, call, b - 1) + if wins_now(grid, st[b - 1].0, st[b - 1].1, call)
            && score_ready(grid, m2) {
            seq![(board_score(grid, m2), win_line(grid, m2))]
        } else {
            Seq::empty()
        }
    }
}

/// The board states after the first `i` calls.
pub open spec fn game_states(
    g: Seq<BingoBoard>,
    st0: Seq<(Seq<Mark>, bool)>,
    calls: Seq<u32>,
    i: int,
) -> Seq<(Seq<Mark>, bool)>
    decreases i,
{
    if i <= 0 {
        st0
    } else {
        round_states(g, game_states(g, st0, calls, i - 1), calls[i - 1])
    }
}

/// All winners of the first `i` calls, in the order they won.
pub open spec fn game_winners(
    g: Seq<BingoBoard>,
    st0: Seq<(Seq<Mark>, bool)>,
    calls: Seq<u32>,
    i: int,
) -> Seq<(int, Seq<u32>)>
    decreases i,
{
    if i <= 0 {
        Seq::empty()
    } else {
        game_winners(g, st0, calls, i - 1) + round_winners(
            g,
            game_states(g, st0, calls, i - 1),
            calls[i - 1],
            g.len() as int,
        )
    }
}

/// The game keeps one state per board.
proof fn lemma_game_states_len(
    g: Seq<BingoBoard>,
    st0: Seq<(Seq<Mark>, bool)>,
    calls: Seq<u32>,
    i: int,
)
    ensures
        game_states(g, st0, calls, i).len() == st0.len(),
    decreases i,
{
    if i > 0 {
        lemma_game_states_len(g, st0, calls, i - 1);
    }
}

/// Play the called numbers against every board: a board marks each call
/// until it first completes a line, and the winners are collected in the
/// order they win, each with its score and winning line.  Boards must be
/// five by five.
pub fn play(boards: &mut Vec<BingoBoard>, callouts: &Vec<u32>) -> (winners: Vec<WinningBoard>)
    requires
        forall|b: int| 0 <= b < old(boards)@.len() ==> board_shape(
            (#[trigger] old(boards)@[b]).board@,
        ),
    ensures
        final(boards)@.len() == old(boards)@.len(),
        forall|b: int| 0 <= b < old(boards)@.len() ==> (#[trigger] final(boards)@[b]).board@
            == old(boards)@[b].board@,
        forall|b: int|
            0 <= b < old(boards)@.len() ==> ((#[trigger] final(boards)@[b]).marks@,
            final(boards)@[b].won) == game_states(
                old(boards)@,
                states_of(old(boards)@),
                callouts@,
                callouts@.len() as int,
            )[b],
        winners@.len() == game_winners(
            old(boards)@,
            states_of(old(boards)@),
            callouts@,
            callouts@.len() as int,
        ).len(),
        forall|w: int|
            0 <= w < winners@.len() ==> (#[trigger] winners@[w]).score == game_winners(
                old(boards)@,
                states_of(old(boards)@),
                callouts@,
                callouts@.len() as int,
            )[w].0 && winners@[w].win_marks@ == game_winners(
                old(boards)@,
                states_of(old(boards)@),
                callouts@,
                callouts@.len() as int,
            )[w].1,
{
    let ghost g0 = old(boards)@;
    let ghost st0 = states_of(old(boards)@);
    let mut winners: Vec<WinningBoard> = Vec::new();
    let n_boards = boards.len();
    let mut i: usize = 0;
    while i < callouts.len()
        invariant
            0 <= i <= callouts@.len(),
            boards@.len() == n_boards,
            g0.len() == n_boards,
            st0 == states_of(g0),
            forall|b: int| 0 <= b < n_boards ==> (#[trigger] boards@[b]).board@ == g0[b].board@,
            forall|b: int| 0 <= b < n_boards ==> board_shape((#[trigger] boards@[b]).board@),
            forall|b: int|
                0 <= b < n_boards ==> ((#[trigger] boards@[b]).marks@, boards@[b].won)
                    == game_states(g0, st0, callouts@, i as int)[b],
            winners@.len() == game_winners(g0, st0, callouts@, i as int).len(),
            forall|w: int|
                0 <= w < winners@.len() ==> (#[trigger] winners@[w]).score == game_winners(
                    g0,
                    st0,
                    callouts@,
                    i as int,
                )[w].0 && winners@[w].win_marks@ == game_winners(g0, st0, callouts@, i as int)[w].1,
        decreases callouts@.len() - i,
    {
        let callout = callouts[i];
        let ghost st_i = game_states(g0, st0, callouts@, i as int);
        let ghost w_i = game_winners(g0, st0, callouts@, i as int);
        proof {
            lemma_game_states_len(g0, st0, callouts@, i as int);
            assert(round_winners(g0, st_i, callout, 0) =~= Seq::<(int, Seq<u32>)>::empty());
            assert(w_i + round_winners(g0, st_i, callout, 0) =~= w_i);
        }
        let mut b: usize = 0;
        while b < n_boards
            invariant
                0 <= b <= n_boards,
                0 <= i < callouts@.len(),
                boards@.len() == n_boards,
                g0.len() == n_boards,
                callout == callouts@[i as int],
                st_i == game_states(g0, st0, callouts@, i as int),
                st_i.len() == n_boards,
                w_i == game_winners(g0, st0, callouts@, i as int),
                forall|q: int| 0 <= q < n_boards ==> (#[trigger] boards@[q]).board@
                    == g0[q].board@,
                forall|q: int| 0 <= q < n_boards ==> board_shape((#[trigger] boards@[q]).board@),
                forall|q: int|
                    0 <= q < b ==> ((#[trigger] boards@[q]).marks@, boards@[q].won) == board_after(
                        g0[q].board@,
                        st_i[q].0,
                        st_i[q].1,
                        callout,
                    ),
                forall|q: int|
                    b <= q < n_boards ==> ((#[trigger] boards@[q]).marks@, boards@[q].won)
                        == st_i[q],
                winners@.len() == w_i.len() + round_winners(g0, st_i, callout, b as int).len(),
                forall|w: int|
                    0 <= w < winners@.len() ==> (#[trigger] winners@[w]).score == (w_i
                        + round_winners(g0, st_i, callout, b as int))[w].0
                        && winners@[w].win_marks@ == (w_i + round_winners(
                        g0,
                        st_i,
                        callout,
                        b as int,
                    ))[w].1,
            decreases n_boards - b,
        {
            let ghost pre_marks = boards@[b as int].marks@;
            let ghost pre_won = boards@[b as int].won;
            let won = boards[b].won;
            if !won {
                boards[b].mark(callout);
                let in_range = marks_ok(&boards[b]);
                if in_range {
                    let win = boards[b].winning_values();
                    match win {
                        Some(vals) => {
                            boards[b].won = true;
                            let sums_ok = boards[b].marks.len() > 0 && score_fits(&boards[b]);
                            if sums_ok {
                                let s = boards[b].score();
                                proof {
                                    assert(vals@ == win_line(
                                        g0[b as int].board@,
                                        boards@[b as int].marks@,
                                    ));
                                }
                                winners.push(WinningBoard { score: s, win_marks: vals });
                            }
                        },
                        None => {},
                    }
                }
            }
            proof {
                assert((boards@[b as int].marks@, boards@[b as int].won) == board_after(
                    g0[b as int].board@,
                    pre_marks,
                    pre_won,
                    callout,
                ));
                assert(round_winners(g0, st_i, callout, b + 1) =~= round_winners(
                    g0,
                    st_i,
                    callout,
                    b as int,
                ) + (if wins_now(g0[b as int].board@, st_i[b as int].0, st_i[b as int].1, callout)
                    && score_ready(
                    g0[b as int].board@,
                    st_i[b as int].0 + board_hits(
                        g0[b as int].board@,
                        callout,
                        g0[b as int].board@.len() as int,
                    ),
                ) {
                    seq![
                        (
                            board_score(
                                g0[b as int].board@,
                                st_i[b as int].0 + board_hits(
                                    g0[b as int].board@,
                                    callout,
                                    g0[b as int].board@.len() as int,
                                ),
                            ),
                            win_line(
                                g0[b as int].board@,
                                st_i[b as int].0 + board_hits(
                                    g0[b as int].board@,
                                    callout,
                                    g0[b as int].board@.len() as int,
                                ),
                            ),
                        ),
                    ]
                } else {
                    Seq::<(int, Seq<u32>)>::empty()
                }));
            }
            b = b + 1;
        }
        proof {
            assert(game_states(g0, st0, callouts@, i + 1) =~= round_states(g0, st_i, callout));
            assert(round_winners(g0, st_i, callout, n_boards as int) == game_winners(
                g0,
                st0,
                callouts@,
                i + 1,
            ).subrange(w_i.len() as int, game_winners(g0, st0, callouts@, i + 1).len() as int))
                by {
                assert(game_winners(g0, st0, callouts@, i + 1) =~= w_i + round_winners(
                    g0,
                    st_i,
                    callout,
                    n_boards as int,
                ));
                assert((w_i + round_winners(g0, st_i, callout, n_boards as int)).subrange(
                    w_i.len() as int,
                    (w_i + round_winners(g0, st_i, callout, n_boards as int)).len() as int,
                ) =~= round_winners(g0, st_i, callout, n_boards as int));
            }
            assert(game_winners(g0, st0, callouts@, i + 1) =~= w_i + round_winners(
                g0,
                st_i,
                callout,
                n_boards as int,
            ));
        }
        i = i + 1;
    }
    winners
}

/// All marks of the board point into its five-by-five grid.
fn marks_ok(board: &BingoBoard) -> (r: bool)
    ensures
        r == marks_in_range(board.marks@),
{
    let mut k: usize = 0;
    while k < board.marks.len()
        invariant
            0 <= k <= board.marks@.len(),
            forall|q: int| 0 <= q < k ==> (#[trigger] board.marks@[q]).row < 5
                && board.marks@[q].col < 5,
        decreases board.marks@.len() - k,
    {
        let m = board.marks[k];
        if m.row >= 5 || m.col >= 5 {
            return false;
        }
        k = k + 1;
    }
    true
}

/// The board's sums stay inside the machine ranges the score needs.
fn score_fits(board: &BingoBoard) -> (r: bool)
    requires
        board_shape(board.board@),
        marks_in_range(board.marks@),
        board.marks@.len() > 0,
    ensures
        r == score_ready(board.board@, board.marks@),
{
    let mut total: u64 = 0;
    let mut q: usize = 0;
    while q < 5
        invariant
            0 <= q <= 5,
            board_shape(board.board@),
            total == board_sum(board.board@, q as int),
            forall|p: int| 0 <= p < q ==> row_sum(#[trigger] board.board@[p]@, 5) <= u32::MAX,
            total <= q * 0xFFFF_FFFF,
        decreases 5 - q,
    {
        let mut row_total: u64 = 0;
        let mut c: usize = 0;
        while c < 5
            invariant
                0 <= c <= 5,
                0 <= q < 5,
                board_shape(board.board@),
                row_total == row_sum(board.board@[q as int]@, c as int),
                row_total <= c * 0xFFFF_FFFF,
            decreases 5 - c,
        {
            proof {
                lemma_row_sum_monotone(board.board@[q as int]@, 0, c as int);
            }
            row_total = row_total + (board.board[q][c] as u64);
            c = c + 1;
        }
        if row_total > 0xFFFF_FFFF {
            proof {
                assert(row_sum(board.board@[q as int]@, 5) > u32::MAX);
            }
            return false;
        }
        total = total + row_total;
        q = q + 1;
    }
    let mut marked: u64 = 0;
    let mut k: usize = 0;
    let n = board.marks.len();
    if n > 0x0FFF_FFFF {
        return false;
    }
    while k < n
        invariant
            0 <= k <= n,
            n == board.marks@.len(),
            n <= 0x0FFF_FFFF,
            board_shape(board.board@),
            marks_in_range(board.marks@),
            marked == marked_sum(board.board@, board.marks@, k as int),
            marked <= k * 0xFFFF_FFFF,
        decreases n - k,
    {
        proof {
            lemma_marked_sum_monotone(board.board@, board.marks@, 0, k as int);
            assert(k * 0xFFFF_FFFF + 0xFFFF_FFFF == (k + 1) * 0xFFFF_FFFF) by (nonlinear_arith);
            assert((k + 1) * 0xFFFF_FFFF <= 0x0FFF_FFFF * 0xFFFF_FFFFu64) by (
            nonlinear_arith)
                requires
                    0 <= k && k + 1 <= 0x0FFF_FFFF,
            ;
        }
        let m = board.marks[k];
        marked = marked + (board.board[m.row][m.col] as u64);
        k = k + 1;
    }
    if marked > total {
        return false;
    }
    let last = board.marks[n - 1];
    let factor = board.board[last.row][last.col] as u64;
    let rest = total - marked;
    proof {
        assert(board.marks@.last() == board.marks@[n - 1]);
    }
    if factor != 0 && rest > u64::MAX / factor {
        proof {
            assert((u64::MAX / factor as u64) * factor + factor > u64::MAX) by (nonlinear_arith)
                requires
                    factor > 0,
            ;
            assert(rest * factor > u64::MAX) by (nonlinear_arith)
                requires
                    factor > 0 && rest > u64::MAX / factor as u64 && (u64::MAX / factor as u64)
                        * factor + factor > u64::MAX,
            ;
            assert(board_score(board.board@, board.marks@) > u64::MAX);
        }
        return false;
    }
    proof {
        if factor != 0 {
            assert(rest * factor <= (u64::MAX / factor as u64) * factor <= u64::MAX) by (
            nonlinear_arith)
                requires
                    0 <= rest <= u64::MAX / factor as u64 && factor > 0,
            ;
        } else {
            assert(rest * factor == 0) by (nonlinear_arith)
                requires
                    factor == 0,
            ;
        }
        assert(board.marks@.last() == board.marks@[n - 1]);
    }
    true
}

} // verus!

