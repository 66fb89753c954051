//! Character-level helpers shared by the input parsers: whitespace
//! scanning, token extraction, case folding for ASCII letters, and exact
//! decimal number parsing.

use vstd::prelude::*;

verus! {

/// Whitespace as these inputs use it.
pub open spec fn is_space(c: char) -> bool {
    c == ' ' || c == '\t' || c == '\n' || c == '\r'
}

/// A decimal digit.
pub open spec fn is_digit(c: char) -> bool {
    '0' as int <= c as int <= '9' as int
}

/// ASCII lower-casing of one character.
pub open spec fn lower_char(c: char) -> char {
    if 'A' as int <= c as int <= 'Z' as int {
        (c as int + 32) as char
    } else {
        c
    }
}

/// Index of the first non-space character at or after `i` (the length if
/// there is none).
pub open spec fn skip_ws(s: Seq<char>, i: int) -> int
    decreases s.len() - i,
{
    if i < 0 || i >= s.len() {
        s.len() as int
    } else if is_space(s[i]) {
        skip_ws(s, i + 1)
    } else {
        i
    }
}

/// Index of the first space at or after `i` (the length if there is none).
pub open spec fn token_end(s: Seq<char>, i: int) -> int
    decreases s.len() - i,
{
    if i < 0 || i >= s.len() {
        s.len() as int
    } else if is_space(s[i]) {
        i
    } else {
        token_end(s, i + 1)
    }
}

pub proof fn lemma_skip_ws_range(s: Seq<char>, i: int)
    requires
        0 <= i <= s.len(),
    ensures
        i <= skip_ws(s, i) <= s.len(),
        skip_ws(s, i) < s.len() ==> !is_space(s[skip_ws(s, i)]),
    decreases s.len() - i,
{
    if i < s.len() && is_space(s[i]) {
        lemma_skip_ws_range(s, i + 1);
    }
}

pub proof fn lemma_token_end_range(s: Seq<char>, i: int)
    requires
        0 <= i <= s.len(),
    ensures
        i <= token_end(s, i) <= s.len(),
        token_end(s, i) < s.len() ==> is_space(s[token_end(s, i)]),
    decreases s.len() - i,
{
    if i < s.len() && !is_space(s[i]) {
        lemma_token_end_range(s, i + 1);
    }
}

/// The characters of a string, one by one.
pub fn chars_of(s: &str) -> (v: Vec<char>)
    ensures
        v@ == s@,
{
    let n = s.unicode_len();
    let mut v: Vec<char> = Vec::new();
    let mut i: usize = 0;
    while i < n
        invariant
            0 <= i <= n,
            n == s@.len(),
            v@ =~= s@.subrange(0, i as int),
        decreases n - i,
    {
        v.push(s.get_char(i));
        i = i + 1;
    }
    proof {
        assert(v@ =~= s@);
    }
    v
}

/// The next whitespace-separated token at or after `from`: its start and
/// its end, or `None` when only whitespace remains.
pub fn next_token(v: &Vec<char>, from: usize) -> (r: Option<(usize, usize)>)
    requires
        from <= v@.len(),
    ensures
        match r {
            Some(se) => se.0 == skip_ws(v@, from as int) && se.1 == token_end(v@, se.0 as int)
                && from <= se.0 < se.1 <= v@.len(),
            None => skip_ws(v@, from as int) == v@.len(),
        },
{
    let n = v.len();
    let mut i: usize = from;
    while i < n && (v[i] == ' ' || v[i] == '\t' || v[i] == '\n' || v[i] == '\r')
        invariant
            from <= i <= n,
            n == v@.len(),
            skip_ws(v@, from as int) == skip_ws(v@, i as int),
        decreases n - i,
    {
        i = i + 1;
    }
    if i == n {
        return None;
    }
    let start = i;
    while i < n && !(v[i] == ' ' || v[i] == '\t' || v[i] == '\n' || v[i] == '\r')
        invariant
            start <= i <= n,
            n == v@.len(),
            token_end(v@, start as int) == token_end(v@, i as int),
        decreases n - i,
    {
        i = i + 1;
    }
    Some((start, i))
}

/// Value of the decimal digits `s[from .. to]`.
pub open spec fn digits_val(s: Seq<char>, from: int, to: int) -> int
    decreases to - from,
{
    if to <= from {
        0
    } else {
        digits_val(s, from, to - 1) * 10 + (s[to - 1] as int - '0' as int)
    }
}

/// Every character of `s[from .. to]` is a decimal digit.
pub open spec fn all_digits(s: Seq<char>, from: int, to: int) -> bool {
    forall|k: int| from <= k < to ==> is_digit(#[trigger] s[k])
}

/// The integer written in `s[from .. to]`: an optional sign, then at least
/// one digit.  The value is unbounded.
pub open spec fn int_written(s: Seq<char>, from: int, to: int) -> Option<int> {
    if !(0 <= from && to <= s.len()) {
        None
    } else {
        let start = if from < to && (s[from] == '-' || s[from] == '+') {
            from + 1
        } else {
            from
        };
        if start < to && all_digits(s, start, to) {
            if from < to && s[from] == '-' {
                Some(-digits_val(s, start, to))
            } else {
                Some(digits_val(s, start, to))
            }
        } else {
            None
        }
    }
}

/// The unsigned integer written in `s[from .. to]`: an optional plus sign,
/// then at least one digit.
pub open spec fn uint_written(s: Seq<char>, from: int, to: int) -> Option<int> {
    if !(0 <= from && to <= s.len()) {
        None
    } else {
        let start = if from < to && s[from] == '+' {
            from + 1
        } else {
            from
        };
        if start < to && all_digits(s, start, to) {
            Some(digits_val(s, start, to))
        } else {
            None
        }
    }
}

/// The value of one decimal digit character.
fn digit_of(c: char) -> (r: Option<u64>)
    ensures
        match r {
            Some(d) => is_digit(c) && d == c as int - '0' as int,
            None => !is_digit(c),
        },
{
    match c {
        '0' => Some(0),
        '1' => Some(1),
        '2' => Some(2),
        '3' => Some(3),
        '4' => Some(4),
        '5' => Some(5),
        '6' => Some(6),
        '7' => Some(7),
        '8' => Some(8),
        '9' => Some(9),
        _ => None,
    }
}

proof fn lemma_digits_val_nonneg(s: Seq<char>, from: int, to: int)
    requires
        all_digits(s, from, to),
    ensures
        digits_val(s, from, to) >= 0,
    decreases to - from,
{
    if to > from {
        lemma_digits_val_nonneg(s, from, to - 1);
    }
}

/// The magnitude of the digits `s[from .. to]`, reading them left to
/// right, stopping with `None` once the value can no longer fit.
fn digits_magnitude(v: &Vec<char>, from: usize, to: usize) -> (r: Option<u64>)
    requires
        from <= to <= v@.len(),
        all_digits(v@, from as int, to as int),
    ensures
        match r {
            Some(m) => m == digits_val(v@, from as int, to as int),
            None => digits_val(v@, from as int, to as int) > u64::MAX,
        },
{
    let mut mag: u64 = 0;
    let mut i: usize = from;
    while i < to
        invariant
            from <= i <= to <= v@.len(),
            all_digits(v@, from as int, to as int),
            mag == digits_val(v@, from as int, i as int),
        decreases to - i,
    {
        let c = v[i];
        let d = match digit_of(c) {
            Some(d) => d,
            None => 0,
        };
        if mag > (u64::MAX - d) / 10 {
            proof {
                lemma_digits_val_grows(v@, from as int, i + 1, to as int);
            }
            return None;
        }
        mag = mag * 10 + d;
        i = i + 1;
    }
    Some(mag)
}

/// Appending digits never shrinks the value.
proof fn lemma_digits_val_grows(s: Seq<char>, from: int, i: int, to: int)
    requires
        from <= i <= to,
        all_digits(s, from, to),
    ensures
        digits_val(s, from, i) <= digits_val(s, from, to),
    decreases to - i,
{
    if i < to {
        lemma_digits_val_nonneg(s, from, to - 1);
        lemma_digits_val_grows(s, from, i, to - 1);
    }
}

/// Parse the signed 64-bit integer written in `v[from .. to]`; `None`
/// when the characters are not a number or it does not fit.
pub fn parse_i64_range(v: &Vec<char>, from: usize, to: usize) -> (r: Option<i64>)
    requires
        from <= to <= v@.len(),
    ensures
        match r {
            Some(x) => int_written(v@, from as int, to as int) == Some(x as int),
            None => match int_written(v@, from as int, to as int) {
                Some(x) => !(i64::MIN <= x <= i64::MAX),
                None => true,
            },
        },
{
    if from == to {
        return None;
    }
    let c0 = v[from];
    let neg = c0 == '-';
    let start = if c0 == '-' || c0 == '+' {
        from + 1
    } else {
        from
    };
    if start == to {
        return None;
    }
    let mut i: usize = start;
    while i < to
        invariant
            from <= start <= i <= to <= v@.len(),
            start == (if v@[from as int] == '-' || v@[from as int] == '+' {
                from + 1int
            } else {
                from as int
            }),
            from < to,
            all_digits(v@, start as int, i as int),
        decreases to - i,
    {
        let c = v[i];
        if digit_of(c).is_none() {
            proof {
                assert(!all_digits(v@, start as int, to as int));
                assert(int_written(v@, from as int, to as int) is None);
            }
            return None;
        }
        i = i + 1;
    }
    let mag = match digits_magnitude(v, start, to) {
        Some(m) => m,
        None => {
            proof {
                lemma_digits_val_nonneg(v@, start as int, to as int);
            }
            return None;
        },
    };
    if neg {
        if mag > 0x8000_0000_0000_0000u64 {
            return None;
        }
        if mag == 0x8000_0000_0000_0000u64 {
            Some(i64::MIN)
        } else {
            Some(-(mag as i64))
        }
    } else {
        if mag > 0x7FFF_FFFF_FFFF_FFFFu64 {
            return None;
        }
        Some(mag as i64)
    }
}

/// Parse the unsigned 64-bit integer written in `v[from .. to]`; `None`
/// when the characters are not an unsigned number or it does not fit.
pub fn parse_u64_range(v: &Vec<char>, from: usize, to: usize) -> (r: Option<u64>)
    requires
        from <= to <= v@.len(),
    ensures
        match r {
            Some(x) => uint_written(v@, from as int, to as int) == Some(x as int),
            None => match uint_written(v@, from as int, to as int) {
                Some(x) => x > u64::MAX,
                None => true,
            },
        },
{
    if from == to {
        return None;
    }
    let start = if v[from] == '+' {
        from + 1
    } else {
        from
    };
    if start == to {
        return None;
    }
    let mut i: usize = start;
    while i < to
        invariant
            from <= start <= i <= to <= v@.len(),
            start == (if v@[from as int] == '+' {
                from + 1int
            } else {
                from as int
            }),
            from < to,
            all_digits(v@, start as int, i as int),
        decreases to - i,
    {
        let c = v[i];
        if digit_of(c).is_none() {
            proof {
                assert(!all_digits(v@, start as int, to as int));
                assert(uint_written(v@, from as int, to as int) is None);
            }
            return None;
        }
        i = i + 1;
    }
    digits_magnitude(v, start, to)
}

/// ASCII lower-casing, character by character.
fn lower_exec(c: char) -> (r: char)
    ensures
        r == lower_char(c),
{
    match c {
        'A' => 'a',
        'B' => 'b',
        'C' => 'c',
        'D' => 'd',
        'E' => 'e',
        'F' => 'f',
        'G' => 'g',
        'H' => 'h',
        'I' => 'i',
        'J' => 'j',
        'K' => 'k',
        'L' => 'l',
        'M' => 'm',
        'N' => 'n',
        'O' => 'o',
        'P' => 'p',
        'Q' => 'q',
        'R' => 'r',
        'S' => 's',
        'T' => 't',
        'U' => 'u',
        'V' => 'v',
        'W' => 'w',
        'X' => 'x',
        'Y' => 'y',
        'Z' => 'z',
        _ => c,
    }
}

/// Does `v[from .. to]`, lower-cased, spell `word`?
pub fn token_matches(v: &Vec<char>, from: usize, to: usize, word: &str) -> (r: bool)
    requires
        from <= to <= v@.len(),
    ensures
        r <==> Seq::new((to - from) as nat, |k: int| lower_char(v@[from + k])) == word@,
{
    let wn = word.unicode_len();
    let ghost lowered = Seq::new((to - from) as nat, |k: int| lower_char(v@[from + k]));
    if to - from != wn {
        proof {
            assert(lowered.len() != word@.len());
        }
        return false;
    }
    let mut k: usize = 0;
    while k < wn
        invariant
            0 <= k <= wn,
            wn == word@.len(),
            from <= to <= v@.len(),
            to - from == wn,
            lowered == Seq::new((to - from) as nat, |j: int| lower_char(v@[from + j])),
            forall|j: int| 0 <= j < k ==> lowered[j] == word@[j],
        decreases wn - k,
    {
        let c = v[from + k];
        let lc: char = lower_exec(c);
        if lc != word.get_char(k) {
            proof {
                assert(lowered[k as int] != word@[k as int]);
            }
            return false;
        }
        k = k + 1;
    }
    proof {
        assert(lowered =~= word@);
    }
    true
}

} // verus!
