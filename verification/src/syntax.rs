//! Bracket syntax checking: finding the first corrupting close bracket
//! of a line, and completing unclosed lines, with their scores.

use vstd::prelude::*;

verus! {

/// An opening bracket.
pub open spec fn is_open(c: char) -> bool {
    c == '(' || c == '[' || c == '{' || c == '<'
}

/// A closing bracket.
pub open spec fn is_close(c: char) -> bool {
    c == ')' || c == ']' || c == '}' || c == '>'
}

/// The closing bracket of an opening one.
pub open spec fn closing_of(c: char) -> char {
    if c == '(' {
        ')'
    } else if c == '[' {
        ']'
    } else if c == '{' {
        '}'
    } else {
        '>'
    }
}

/// Scan a line with a bracket stack.  `Some(Ok(stack))` is the stack
/// left when the line ends without corruption; `Some(Err(c))` names the
/// first close bracket that mismatches; `None` marks a close bracket with
/// nothing open, which the checker does not accept.
pub open spec fn scan(s: Seq<char>, i: int, stack: Seq<char>) -> Option<Result<Seq<char>, char>>
    decreases s.len() - i,
{
    if i < 0 || i >= s.len() {
        Some(Ok(stack))
    } else if is_open(s[i]) {
        scan(s, i + 1, stack.push(s[i]))
    } else if stack.len() == 0 {
        None
    } else if closing_of(stack.last()) == s[i] {
        scan(s, i + 1, stack.drop_last())
    } else {
        Some(Err(s[i]))
    }
}

/// What checking one line found.
pub enum LineCheck {
    Legal,
    Corrupted(char),
    Incomplete(Vec<char>),
}

/// Check one line of brackets: report the first corrupting character, or
/// the completion (closing brackets, innermost first) of an unfinished
/// line, or that the line is balanced.
pub fn check_line(line: &Vec<char>) -> (r: LineCheck)
    requires
        forall|k: int| 0 <= k < line@.len() ==> is_open(#[trigger] line@[k]) || is_close(line@[k]),
        scan(line@, 0, Seq::empty()) is Some,
    ensures
        match r {
            LineCheck::Corrupted(c) => scan(line@, 0, Seq::empty()) == Some(
                Err::<Seq<char>, char>(c),
            ),
            LineCheck::Legal => scan(line@, 0, Seq::empty()) == Some(
                Ok::<Seq<char>, char>(Seq::empty()),
            ),
            LineCheck::Incomplete(comp) => {
                let st = scan(line@, 0, Seq::empty()).unwrap().unwrap();
                &&& scan(line@, 0, Seq::empty()) is Some
                &&& scan(line@, 0, Seq::empty()).unwrap() is Ok
                &&& st.len() > 0
                &&& comp@.len() == st.len()
                &&& forall|k: int| 0 <= k < comp@.len() ==> #[trigger] comp@[k] == closing_of(
                    st[st.len() - 1 - k],
                )
            },
        },
{
    let mut stack: Vec<char> = Vec::new();
    let mut i: usize = 0;
    proof {
        assert(stack@ =~= Seq::<char>::empty());
    }
    while i < line.len()
        invariant
            0 <= i <= line@.len(),
            forall|k: int| 0 <= k < line@.len() ==> is_open(#[trigger] line@[k]) || is_close(
                line@[k],
            ),
            scan(line@, 0, Seq::empty()) == scan(line@, i as int, stack@),
            scan(line@, 0, Seq::empty()) is Some,
        decreases line@.len() - i,
    {
        let c = line[i];
        if c == '(' || c == '[' || c == '{' || c == '<' {
            stack.push(c);
        } else {
            let top = match stack.pop() {
                Some(t) => t,
                None => {
                    proof {
                        assert(false);
                    }
                    return LineCheck::Legal;
                },
            };
            let want = match top {
                '(' => ')',
                '[' => ']',
                '{' => '}',
                _ => '>',
            };
            proof {
                assert(want == closing_of(top));
            }
            if want != c {
                return LineCheck::Corrupted(c);
            }
        }
        i = i + 1;
    }
    if stack.len() == 0 {
        proof {
            assert(stack@ =~= Seq::<char>::empty());
        }
        return LineCheck::Legal;
    }
    let ghost st = stack@;
    let mut comp: Vec<char> = Vec::new();
    loop
        invariant_except_break
            comp@.len() + stack@.len() == st.len(),
            stack@ == st.subrange(0, stack@.len() as int),
            forall|k: int| 0 <= k < comp@.len() ==> #[trigger] comp@[k] == closing_of(
                st[st.len() - 1 - k],
            ),
        ensures
            comp@.len() == st.len(),
            forall|k: int| 0 <= k < comp@.len() ==> #[trigger] comp@[k] == closing_of(
                st[st.len() - 1 - k],
            ),
        decreases stack@.len(),
    {
        let top = match stack.pop() {
            Some(t) => t,
            None => {
                proof {
                    assert(stack@ =~= Seq::<char>::empty());
                }
                break ;
            },
        };
        let close = match top {
            '(' => ')',
            '[' => ']',
            '{' => '}',
            _ => '>',
        };
        proof {
            assert(top == st[stack@.len() as int]);
            assert(close == closing_of(top));
            assert(stack@ =~= st.subrange(0, stack@.len() as int));
        }
        comp.push(close);
    }
    LineCheck::Incomplete(comp)
}

/// Points for the first corrupting character of each line.
pub open spec fn error_points(c: char) -> int {
    if c == ')' {
        3
    } else if c == ']' {
        57
    } else if c == '}' {
        1197
    } else if c == '>' {
        25137
    } else {
        0
    }
}

/// Total error points of the first `n` corrupting characters.
pub open spec fn error_score_prefix(s: Seq<char>, n: int) -> int
    decreases n,
{
    if n <= 0 {
        0
    } else {
        error_score_prefix(s, n - 1) + error_points(s[n - 1])
    }
}

/// Total error score of the collected corrupting characters.
pub fn syntax_error_score(corrupted: &Vec<char>) -> (score: u64)
    requires
        error_score_prefix(corrupted@, corrupted@.len() as int) <= u64::MAX,
    ensures
        score == error_score_prefix(corrupted@, corrupted@.len() as int),
{
    let mut score: u64 = 0;
    let mut i: usize = 0;
    while i < corrupted.len()
        invariant
            0 <= i <= corrupted@.len(),
            error_score_prefix(corrupted@, corrupted@.len() as int) <= u64::MAX,
            score == error_score_prefix(corrupted@, i as int),
        decreases corrupted@.len() - i,
    {
        proof {
            lemma_error_score_monotone(corrupted@, i + 1, corrupted@.len() as int);
            lemma_error_score_monotone(corrupted@, 0, i as int);
        }
        let p: u64 = match corrupted[i] {
            ')' => 3,
            ']' => 57,
            '}' => 1197,
            '>' => 25137,
            _ => 0,
        };
        score = score + p;
        i = i + 1;
    }
    score
}

proof fn lemma_error_score_monotone(s: Seq<char>, i: int, j: int)
    requires
        0 <= i <= j,
    ensures
        0 <= error_score_prefix(s, i) <= error_score_prefix(s, j),
    decreases j,
{
    if j > 0 {
        if i == j {
            lemma_error_score_monotone(s, i - 1, j - 1);
        } else {
            lemma_error_score_monotone(s, i, j - 1);
        }
    }
}

/// Points for one character of a completion.
pub open spec fn completion_points(c: char) -> int {
    if c == ')' {
        1
    } else if c == ']' {
        2
    } else if c == '}' {
        3
    } else if c == '>' {
        4
    } else {
        0
    }
}

/// Score of the first `n` characters of a completion: each step
/// multiplies by five and adds the character's points.
pub open spec fn completion_score_prefix(s: Seq<char>, n: int) -> int
    decreases n,
{
    if n <= 0 {
        0
    } else {
        completion_score_prefix(s, n - 1) * 5 + completion_points(s[n - 1])
    }
}

/// Score of one completion string.
pub fn completion_score(completion: &Vec<char>) -> (score: u64)
    requires
        completion_score_prefix(completion@, completion@.len() as int) <= u64::MAX,
    ensures
        score == completion_score_prefix(completion@, completion@.len() as int),
{
    let mut score: u64 = 0;
    let mut i: usize = 0;
    while i < completion.len()
        invariant
            0 <= i <= completion@.len(),
            completion_score_prefix(completion@, completion@.len() as int) <= u64::MAX,
            score == completion_score_prefix(completion@, i as int),
        decreases completion@.len() - i,
    {
        proof {
            lemma_completion_score_monotone(completion@, i + 1, completion@.len() as int);
            lemma_completion_score_monotone(completion@, 0, i as int);
        }
        let p: u64 = match completion[i] {
            ')' => 1,
            ']' => 2,
            '}' => 3,
            '>' => 4,
            _ => 0,
        };
        score = 5 * score + p;
        i = i + 1;
    }
    score
}

proof fn lemma_completion_score_monotone(s: Seq<char>, i: int, j: int)
    requires
        0 <= i <= j,
    ensures
        0 <= completion_score_prefix(s, i) <= completion_score_prefix(s, j),
    decreases j,
{
    if j > 0 {
        if i == j {
            lemma_completion_score_monotone(s, i - 1, j - 1);
        } else {
            lemma_completion_score_monotone(s, i, j - 1);
        }
    }
}


/// Does the checker accept this line: only brackets, and no close bracket
/// without something open?  Callers test this before `check_line`.
pub fn line_wf(line: &Vec<char>) -> (r: bool)
    ensures
        r <==> ((forall|k: int|
            0 <= k < line@.len() ==> is_open(#[trigger] line@[k]) || is_close(line@[k])) && scan(
            line@,
            0,
            Seq::empty(),
        ) is Some),
{
    let mut i: usize = 0;
    while i < line.len()
        invariant
            0 <= i <= line@.len(),
            forall|k: int| 0 <= k < i ==> is_open(#[trigger] line@[k]) || is_close(line@[k]),
        decreases line@.len() - i,
    {
        let c = line[i];
        let bracket = c == '(' || c == '[' || c == '{' || c == '<' || c == ')' || c == ']' || c
            == '}' || c == '>';
        if !bracket {
            return false;
        }
        i = i + 1;
    }
    let mut stack: Vec<char> = Vec::new();
    let mut j: usize = 0;
    proof {
        assert(stack@ =~= Seq::<char>::empty());
    }
    while j < line.len()
        invariant
            0 <= j <= line@.len(),
            forall|k: int| 0 <= k < line@.len() ==> is_open(#[trigger] line@[k]) || is_close(
                line@[k],
            ),
            scan(line@, 0, Seq::empty()) == scan(line@, j as int, stack@),
        decreases line@.len() - j,
    {
        let c = line[j];
        if c == '(' || c == '[' || c == '{' || c == '<' {
            stack.push(c);
        } else {
            let top = match stack.pop() {
                Some(t) => t,
                None => {
                    return false;
                },
            };
            let want = match top {
                '(' => ')',
                '[' => ']',
                '{' => '}',
                _ => '>',
            };
            proof {
                assert(want == closing_of(top));
            }
            if want != c {
                proof {
                    assert(scan(line@, 0, Seq::empty()) == Some(Err::<Seq<char>, char>(c)));
                }
                return true;
            }
        }
        j = j + 1;
    }
    true
}


/// `x` slotted in just before the first element not below it.
pub open spec fn insert_sorted_u64(s: Seq<u64>, x: u64) -> Seq<u64>
    decreases s.len(),
{
    if s.len() == 0 {
        seq![x]
    } else if x <= s[0] {
        seq![x] + s
    } else {
        seq![s[0]] + insert_sorted_u64(s.subrange(1, s.len() as int), x)
    }
}

/// The first `n` scores, in ascending order.
pub open spec fn sorted_scores(s: Seq<u64>, n: int) -> Seq<u64>
    decreases n,
{
    if n <= 0 {
        Seq::empty()
    } else {
        insert_sorted_u64(sorted_scores(s, n - 1), s[n - 1])
    }
}

/// Ascending score order.
pub open spec fn ascending(s: Seq<u64>) -> bool {
    forall|i: int, j: int| 0 <= i < j < s.len() ==> (#[trigger] s[i]) <= (#[trigger] s[j])
}

/// Slotting a score in keeps the order and adds exactly it.
proof fn lemma_insert_sorted_u64(s: Seq<u64>, x: u64)
    requires
        ascending(s),
    ensures
        ascending(insert_sorted_u64(s, x)),
        insert_sorted_u64(s, x).to_multiset() =~= s.to_multiset().insert(x),
        insert_sorted_u64(s, x).len() == s.len() + 1,
    decreases s.len(),
{
    broadcast use vstd::seq_lib::group_to_multiset_ensures;

    let out = insert_sorted_u64(s, x);
    if s.len() == 0 {
        assert(out =~= Seq::<u64>::empty().push(x));
    } else if x <= s[0] {
        assert(out.remove(0) =~= s);
        assert(out.to_multiset().remove(x) =~= s.to_multiset());
        assert(out.to_multiset().contains(x)) by {
            assert(out.contains(x)) by {
                assert(out[0] == x);
            }
        }
        assert(out.to_multiset() =~= s.to_multiset().insert(x));
    } else {
        let tail = s.subrange(1, s.len() as int);
        assert(ascending(tail)) by {
            assert(forall|i: int, j: int|
                0 <= i < j < tail.len() ==> (#[trigger] tail[i]) <= (#[trigger] tail[j]));
        }
        lemma_insert_sorted_u64(tail, x);
        assert(ascending(out)) by {
            assert forall|i: int, j: int|
                0 <= i < j < out.len() implies (#[trigger] out[i]) <= (#[trigger] out[j]) by {
                if i > 0 {
                    assert(out[i] == insert_sorted_u64(tail, x)[i - 1]);
                    assert(out[j] == insert_sorted_u64(tail, x)[j - 1]);
                } else {
                    assert(out[0] == s[0]);
                    assert(out[j] == insert_sorted_u64(tail, x)[j - 1]);
                    let y = insert_sorted_u64(tail, x)[j - 1];
                    assert(insert_sorted_u64(tail, x).to_multiset().contains(y));
                    if y == x || tail.to_multiset().contains(y) {
                        if y != x {
                            assert(tail.contains(y));
                            let q = choose|q: int| 0 <= q < tail.len() && tail[q] == y;
                            assert(s[0] <= s[q + 1]);
                        }
                    } else {
                        assert(insert_sorted_u64(tail, x).to_multiset() =~= tail.to_multiset()
                            .insert(x));
                        assert(false);
                    }
                }
            }
        }
        assert(out.remove(0) =~= insert_sorted_u64(tail, x));
        assert(out.to_multiset().remove(s[0]) =~= insert_sorted_u64(tail, x).to_multiset());
        assert(out.to_multiset().contains(s[0])) by {
            assert(out.contains(s[0])) by {
                assert(out[0] == s[0]);
            }
        }
        assert(out.to_multiset() =~= insert_sorted_u64(tail, x).to_multiset().insert(s[0]));
        assert(s.to_multiset() =~= tail.to_multiset().insert(s[0])) by {
            assert(s.remove(0) =~= tail);
            assert(s.to_multiset().remove(s[0]) =~= tail.to_multiset());
            assert(s.to_multiset().contains(s[0])) by {
                assert(s.contains(s[0]));
            }
        }
        assert(out.to_multiset() =~= s.to_multiset().insert(x));
    }
}

/// Sorting scores yields an ascending permutation.
pub proof fn lemma_sorted_scores_props(s: Seq<u64>, n: int)
    requires
        0 <= n <= s.len(),
    ensures
        ascending(sorted_scores(s, n)),
        sorted_scores(s, n).to_multiset() =~= s.subrange(0, n).to_multiset(),
        sorted_scores(s, n).len() == n,
    decreases n,
{
    broadcast use vstd::seq_lib::group_to_multiset_ensures;

    if n == 0 {
        assert(s.subrange(0, 0) =~= Seq::<u64>::empty());
    } else {
        lemma_sorted_scores_props(s, n - 1);
        lemma_insert_sorted_u64(sorted_scores(s, n - 1), s[n - 1]);
        assert(s.subrange(0, n) =~= s.subrange(0, n - 1).push(s[n - 1]));
    }
}

/// Where the scan stopped is where the spec slots the score.
proof fn lemma_insert_u64_at(s: Seq<u64>, x: u64, j: int)
    requires
        0 <= j <= s.len(),
        forall|q: int| 0 <= q < j ==> (#[trigger] s[q]) < x,
        j < s.len() ==> x <= s[j],
    ensures
        insert_sorted_u64(s, x) =~= s.subrange(0, j) + seq![x] + s.subrange(j, s.len() as int),
    decreases j,
{
    if s.len() == 0 {
        assert(s.subrange(0, 0) =~= Seq::<u64>::empty());
    } else if j == 0 {
        assert(s.subrange(0, 0) =~= Seq::<u64>::empty());
        assert(s.subrange(0, s.len() as int) =~= s);
    } else {
        let tail = s.subrange(1, s.len() as int);
        lemma_insert_u64_at(tail, x, j - 1);
        assert(tail.subrange(0, j - 1) =~= s.subrange(1, j));
        assert(tail.subrange(j - 1, tail.len() as int) =~= s.subrange(j, s.len() as int));
    }
}

/// The middle completion score: the element halfway up the ascending
/// order of the scores.
pub fn middle_score(scores: &Vec<u64>) -> (r: u64)
    requires
        scores@.len() >= 1,
    ensures
        r == sorted_scores(scores@, scores@.len() as int)[scores@.len() as int / 2],
{
    let mut out: Vec<u64> = Vec::new();
    let mut i: usize = 0;
    proof {
        assert(out@ =~= sorted_scores(scores@, 0));
    }
    while i < scores.len()
        invariant
            0 <= i <= scores@.len(),
            out@ == sorted_scores(scores@, i as int),
        decreases scores@.len() - i,
    {
        let x = scores[i];
        let mut j: usize = 0;
        while j < out.len() && out[j] < x
            invariant
                0 <= j <= out@.len(),
                forall|q: int| 0 <= q < j ==> (#[trigger] out@[q]) < x,
            decreases out@.len() - j,
        {
            j = j + 1;
        }
        proof {
            lemma_insert_u64_at(out@, x, j as int);
        }
        out.insert(j, x);
        proof {
            assert(out@ =~= sorted_scores(scores@, i as int).subrange(0, j as int) + seq![x]
                + sorted_scores(scores@, i as int).subrange(
                j as int,
                sorted_scores(scores@, i as int).len() as int,
            ));
        }
        i = i + 1;
    }
    proof {
        lemma_sorted_scores_props(scores@, scores@.len() as int);
    }
    out[scores.len() / 2]
}

} // verus!


