//! Polymer growth: between every adjacent pair of elements a rule may
//! insert a new element.  The naive route grows the whole chain; the fast
//! route only counts how often each adjacent pair occurs.

use vstd::prelude::*;
use crate::segments::occurrences;

verus! {

/// The element the first matching rule inserts between `a` and `b`.
pub open spec fn rule_for(rs: Seq<((char, char), char)>, a: char, b: char) -> Option<char>
    decreases rs.len(),
{
    if rs.len() == 0 {
        None
    } else if rs[0].0.0 == a && rs[0].0.1 == b {
        Some(rs[0].1)
    } else {
        rule_for(rs.subrange(1, rs.len() as int), a, b)
    }
}

/// What a rule inserts between `a` and `b`: one element or nothing.
pub open spec fn insertion(rs: Seq<((char, char), char)>, a: char, b: char) -> Seq<char> {
    match rule_for(rs, a, b) {
        Some(c) => seq![c],
        None => Seq::empty(),
    }
}

/// One growth step over the first `n` elements: every adjacent pair of
/// the old chain receives its insertion.
pub open spec fn expanded(s: Seq<char>, rs: Seq<((char, char), char)>, n: int) -> Seq<char>
    decreases n,
{
    if n <= 0 {
        Seq::empty()
    } else if n == 1 {
        seq![s[0]]
    } else {
        expanded(s, rs, n - 1) + insertion(rs, s[n - 2], s[n - 1]) + seq![s[n - 1]]
    }
}

/// The chain after `k` whole growth steps.
pub open spec fn grown(s: Seq<char>, rs: Seq<((char, char), char)>, k: int) -> Seq<char>
    decreases k,
{
    if k <= 0 {
        s
    } else {
        let p = grown(s, rs, k - 1);
        expanded(p, rs, p.len() as int)
    }
}

/// Look up the insertion rule for a pair.
fn find_rule(rules: &Vec<((char, char), char)>, a: char, b: char) -> (r: Option<char>)
    ensures
        r == rule_for(rules@, a, b),
{
    let ghost rs = rules@;
    proof {
        assert(rs.subrange(0, rs.len() as int) =~= rs);
    }
    let mut i: usize = 0;
    while i < rules.len()
        invariant
            0 <= i <= rs.len(),
            rs == rules@,
            rule_for(rs, a, b) == rule_for(rs.subrange(i as int, rs.len() as int), a, b),
        decreases rs.len() - i,
    {
        let ghost suffix = rs.subrange(i as int, rs.len() as int);
        proof {
            assert(suffix[0] == rs[i as int]);
            assert(suffix.subrange(1, suffix.len() as int) =~= rs.subrange(
                i + 1,
                rs.len() as int,
            ));
        }
        let e = rules[i];
        if e.0.0 == a && e.0.1 == b {
            return Some(e.1);
        }
        i = i + 1;
    }
    proof {
        assert(rs.subrange(rs.len() as int, rs.len() as int) =~= Seq::<
            ((char, char), char),
        >::empty());
    }
    None
}

/// Grow the chain by one step.
pub fn expand_step(polymer: &Vec<char>, rules: &Vec<((char, char), char)>) -> (out: Vec<char>)
    ensures
        out@ == expanded(polymer@, rules@, polymer@.len() as int),
{
    let mut out: Vec<char> = Vec::new();
    if polymer.len() == 0 {
        proof {
            assert(out@ =~= expanded(polymer@, rules@, 0));
        }
        return out;
    }
    out.push(polymer[0]);
    proof {
        assert(out@ =~= expanded(polymer@, rules@, 1));
    }
    let mut i: usize = 1;
    while i < polymer.len()
        invariant
            1 <= i <= polymer@.len(),
            out@ == expanded(polymer@, rules@, i as int),
        decreases polymer@.len() - i,
    {
        match find_rule(rules, polymer[i - 1], polymer[i]) {
            Some(c) => {
                out.push(c);
            },
            None => {},
        }
        out.push(polymer[i]);
        proof {
            assert(out@ =~= expanded(polymer@, rules@, i + 1));
        }
        i = i + 1;
    }
    out
}

/// Grow the chain for `steps` whole steps, the naive way.
pub fn part1(template: &Vec<char>, rules: &Vec<((char, char), char)>, steps: u32) -> (out: Vec<
    char,
>)
    ensures
        out@ == grown(template@, rules@, steps as int),
{
    let mut out: Vec<char> = Vec::new();
    let mut i: usize = 0;
    while i < template.len()
        invariant
            0 <= i <= template@.len(),
            out@ =~= template@.subrange(0, i as int),
        decreases template@.len() - i,
    {
        out.push(template[i]);
        i = i + 1;
    }
    proof {
        assert(out@ =~= template@);
    }
    let mut k: u32 = 0;
    while k < steps
        invariant
            0 <= k <= steps,
            out@ == grown(template@, rules@, k as int),
        decreases steps - k,
    {
        out = expand_step(&out, rules);
        k = k + 1;
    }
    out
}

/// Greatest per-element count in the first `n` positions of the chain.
pub open spec fn max_count(s: Seq<char>, n: int) -> int
    decreases n,
{
    if n <= 1 {
        if n == 1 {
            occurrences(s, s[0], s.len() as int)
        } else {
            0
        }
    } else if occurrences(s, s[n - 1], s.len() as int) > max_count(s, n - 1) {
        occurrences(s, s[n - 1], s.len() as int)
    } else {
        max_count(s, n - 1)
    }
}

/// Least per-element count in the first `n` positions of the chain.
pub open spec fn min_count(s: Seq<char>, n: int) -> int
    decreases n,
{
    if n <= 1 {
        if n == 1 {
            occurrences(s, s[0], s.len() as int)
        } else {
            0
        }
    } else if occurrences(s, s[n - 1], s.len() as int) < min_count(s, n - 1) {
        occurrences(s, s[n - 1], s.len() as int)
    } else {
        min_count(s, n - 1)
    }
}

proof fn lemma_occurrences_bound(s: Seq<char>, c: char, n: int)
    requires
        0 <= n,
    ensures
        0 <= occurrences(s, c, n) <= n,
    decreases n,
{
    if n > 0 {
        lemma_occurrences_bound(s, c, n - 1);
    }
}

proof fn lemma_counts_bound(s: Seq<char>, n: int)
    requires
        0 <= n <= s.len(),
        s.len() <= usize::MAX,
    ensures
        0 <= max_count(s, n) <= s.len(),
        0 <= min_count(s, n) <= s.len(),
    decreases n,
{
    if n > 0 {
        lemma_counts_bound(s, n - 1);
        lemma_occurrences_bound(s, s[n - 1], s.len() as int);
    }
}

/// Difference between the most and the least common element of the chain.
pub fn diff(polymer: &Vec<char>) -> (r: usize)
    requires
        polymer@.len() >= 1,
    ensures
        r == max_count(polymer@, polymer@.len() as int) - min_count(
            polymer@,
            polymer@.len() as int,
        ),
{
    let n = polymer.len();
    let mut maxc: usize = count_of(polymer, polymer[0]);
    let mut minc: usize = maxc;
    let mut i: usize = 1;
    while i < n
        invariant
            1 <= i <= n,
            n == polymer@.len(),
            maxc == max_count(polymer@, i as int),
            minc == min_count(polymer@, i as int),
        decreases n - i,
    {
        let c = count_of(polymer, polymer[i]);
        if c > maxc {
            maxc = c;
        }
        if c < minc {
            minc = c;
        }
        i = i + 1;
    }
    proof {
        lemma_counts_bound(polymer@, n as int);
    }
    maxc - minc
}

/// How often `c` occurs in the chain.
fn count_of(polymer: &Vec<char>, c: char) -> (r: usize)
    ensures
        r == occurrences(polymer@, c, polymer@.len() as int),
{
    let mut r: usize = 0;
    let mut i: usize = 0;
    while i < polymer.len()
        invariant
            0 <= i <= polymer@.len(),
            r == occurrences(polymer@, c, i as int),
            r <= i,
        decreases polymer@.len() - i,
    {
        proof {
            lemma_occurrences_bound(polymer@, c, i as int);
        }
        if polymer[i] == c {
            r = r + 1;
        }
        i = i + 1;
    }
    r
}

/// Entries of a pair-count table, with mathematical values.
pub open spec fn counts_int(v: Seq<((char, char), u64)>) -> Seq<((char, char), int)> {
    v.map_values(|e: ((char, char), u64)| (e.0, e.1 as int))
}

/// The entries one growth step produces from the first `n` table entries,
/// before merging: a ruled pair (a, b) with count v yields (a, c) and
/// (c, b) with count v each; an unruled pair stays.
pub open spec fn produced(
    entries: Seq<((char, char), int)>,
    rs: Seq<((char, char), char)>,
    n: int,
) -> Seq<((char, char), int)>
    decreases n,
{
    if n <= 0 {
        Seq::empty()
    } else {
        produced(entries, rs, n - 1) + (match rule_for(rs, entries[n - 1].0.0, entries[n - 1].0.1) {
            Some(c) => seq![
                ((entries[n - 1].0.0, c), entries[n - 1].1),
                ((c, entries[n - 1].0.1), entries[n - 1].1),
            ],
            None => seq![entries[n - 1]],
        })
    }
}

/// Add one entry to a table: bump the first entry with the same key, or
/// append.
pub open spec fn add_entry(table: Seq<((char, char), int)>, e: ((char, char), int)) -> Seq<
    ((char, char), int),
>
    decreases table.len(),
{
    if table.len() == 0 {
        seq![e]
    } else if table[0].0 == e.0 {
        table.update(0, (table[0].0, table[0].1 + e.1))
    } else {
        seq![table[0]] + add_entry(table.subrange(1, table.len() as int), e)
    }
}

/// Merge the first `n` produced entries into a table, in order.
pub open spec fn merged(
    base: Seq<((char, char), int)>,
    entries: Seq<((char, char), int)>,
    n: int,
) -> Seq<((char, char), int)>
    decreases n,
{
    if n <= 0 {
        base
    } else {
        add_entry(merged(base, entries, n - 1), entries[n - 1])
    }
}

/// The pair table after one counting step: every entry contributes its
/// produced entries, merged left to right into a fresh table.
pub open spec fn step_table(
    t: Seq<((char, char), int)>,
    rs: Seq<((char, char), char)>,
) -> Seq<((char, char), int)> {
    merged(Seq::empty(), produced(t, rs, t.len() as int), produced(t, rs, t.len() as int).len() as int)
}

/// The pair table after `k` counting steps.
pub open spec fn table_chain(
    t: Seq<((char, char), int)>,
    rs: Seq<((char, char), char)>,
    k: int,
) -> Seq<((char, char), int)>
    decreases k,
{
    if k <= 0 {
        t
    } else {
        step_table(table_chain(t, rs, k - 1), rs)
    }
}

/// Adding an entry whose first key match sits at `i` bumps exactly that
/// entry.
proof fn lemma_add_entry_at(t: Seq<((char, char), int)>, e: ((char, char), int), i: int)
    requires
        0 <= i < t.len(),
        t[i].0 == e.0,
        forall|j: int| 0 <= j < i ==> (#[trigger] t[j]).0 != e.0,
    ensures
        add_entry(t, e) =~= t.update(i, (t[i].0, t[i].1 + e.1)),
    decreases i,
{
    if i > 0 {
        lemma_add_entry_at(t.subrange(1, t.len() as int), e, i - 1);
        assert(seq![t[0]] + t.subrange(1, t.len() as int).update(
            i - 1,
            (t[i].0, t[i].1 + e.1),
        ) =~= t.update(i, (t[i].0, t[i].1 + e.1)));
    }
}

/// Adding an entry with a fresh key appends it.
proof fn lemma_add_entry_append(t: Seq<((char, char), int)>, e: ((char, char), int))
    requires
        forall|j: int| 0 <= j < t.len() ==> (#[trigger] t[j]).0 != e.0,
    ensures
        add_entry(t, e) =~= t.push(e),
    decreases t.len(),
{
    if t.len() > 0 {
        lemma_add_entry_append(t.subrange(1, t.len() as int), e);
        assert(seq![t[0]] + t.subrange(1, t.len() as int).push(e) =~= t.push(e));
    }
}

/// Count `v` more occurrences of a pair in the table.
fn add_count(table: &mut Vec<((char, char), u64)>, key: (char, char), v: u64) -> (ok: bool)
    ensures
        ok ==> counts_int(final(table)@) == add_entry(counts_int(old(table)@), (key, v as int)),
        !ok ==> final(table)@ == old(table)@,
        !ok ==> exists|j: int|
            0 <= j < old(table)@.len() && (#[trigger] old(table)@[j]).0 == key && (forall|q: int|
                0 <= q < j ==> (#[trigger] old(table)@[q]).0 != key) && old(table)@[j].1 + v
                > u64::MAX,
{
    let ghost t0 = counts_int(table@);
    let n = table.len();
    let mut i: usize = 0;
    while i < n
        invariant
            0 <= i <= n,
            n == table@.len(),
            table@ == old(table)@,
            t0 == counts_int(table@),
            forall|j: int| 0 <= j < i ==> (#[trigger] t0[j]).0 != key,
        decreases n - i,
    {
        proof {
            assert(t0[i as int].0 == table@[i as int].0);
        }
        if table[i].0.0 == key.0 && table[i].0.1 == key.1 {
            let cur = table[i].1;
            if cur > u64::MAX - v {
                proof {
                    assert(old(table)@[i as int].0 == key);
                    assert(old(table)@[i as int].1 + v > u64::MAX);
                    assert forall|q: int| 0 <= q < i implies (#[trigger] old(table)@[q]).0
                        != key by {
                        assert(t0[q].0 == old(table)@[q].0);
                    }
                }
                return false;
            }
            table[i].1 = cur + v;
            proof {
                lemma_add_entry_at(t0, (key, v as int), i as int);
                assert(counts_int(table@) =~= t0.update(
                    i as int,
                    (t0[i as int].0, t0[i as int].1 + v as int),
                ));
            }
            return true;
        }
        i = i + 1;
    }
    table.push((key, v));
    proof {
        lemma_add_entry_append(t0, (key, v as int));
        assert(counts_int(table@) =~= t0.push((key, v as int)));
    }
    true
}

/// Adding an entry raises no value by more than the entry's count.
proof fn lemma_add_entry_bound(t: Seq<((char, char), int)>, e: ((char, char), int), b: int)
    requires
        forall|k: int| 0 <= k < t.len() ==> (#[trigger] t[k]).1 <= b,
        0 <= e.1,
        0 <= b,
    ensures
        forall|k: int| 0 <= k < add_entry(t, e).len() ==> (#[trigger] add_entry(t, e)[k]).1 <= b
            + e.1,
    decreases t.len(),
{
    if t.len() == 0 {
    } else if t[0].0 == e.0 {
    } else {
        lemma_add_entry_bound(t.subrange(1, t.len() as int), e, b);
        assert forall|k: int| 0 <= k < add_entry(t, e).len() implies (#[trigger] add_entry(
            t,
            e,
        )[k]).1 <= b + e.1 by {
            if k > 0 {
                assert(add_entry(t, e)[k] == add_entry(t.subrange(1, t.len() as int), e)[k - 1]);
            } else {
                assert(add_entry(t, e)[0] == t[0]);
            }
        }
    }
}

/// One counting step on this table would push some pair count past the
/// largest u64: an intermediate merged table holds a too-large count.
pub open spec fn step_overflows(
    t: Seq<((char, char), int)>,
    rs: Seq<((char, char), char)>,
) -> bool {
    exists|n: int, j: int|
        0 <= n <= produced(t, rs, t.len() as int).len() && 0 <= j < merged(
            Seq::empty(),
            produced(t, rs, t.len() as int),
            n,
        ).len() && (#[trigger] merged(Seq::empty(), produced(t, rs, t.len() as int), n)[j]).1
            > u64::MAX
}

/// One pair-counting step: build the next table from the current one.
/// `None` exactly when a merged count would pass the largest u64.
pub fn step_pairs(table: &Vec<((char, char), u64)>, rules: &Vec<((char, char), char)>) -> (r:
    Option<Vec<((char, char), u64)>>)
    ensures
        match r {
            Some(out) => counts_int(out@) == step_table(counts_int(table@), rules@),
            None => step_overflows(counts_int(table@), rules@),
        },
{
    let ghost t0 = counts_int(table@);
    let ghost full = produced(t0, rules@, t0.len() as int);
    let mut out: Vec<((char, char), u64)> = Vec::new();
    let ghost mut done: int = 0;
    proof {
        assert(counts_int(out@) =~= Seq::<((char, char), int)>::empty());
    }
    let mut i: usize = 0;
    while i < table.len()
        invariant
            0 <= i <= table@.len(),
            t0 == counts_int(table@),
            full == produced(t0, rules@, t0.len() as int),
            0 <= done <= full.len(),
            done == produced(t0, rules@, i as int).len(),
            counts_int(out@) == merged(Seq::empty(), full, done),
        decreases table@.len() - i,
    {
        let e = table[i];
        proof {
            assert(t0[i as int] == (e.0, e.1 as int));
            lemma_produced_prefix(t0, rules@, i as int, t0.len() as int);
        }
        match find_rule(rules, e.0.0, e.0.1) {
            Some(c) => {
                proof {
                    assert(full[done] == ((e.0.0, c), e.1 as int));
                    assert(full[done + 1] == ((c, e.0.1), e.1 as int));
                }
                let ghost pre1 = out@;
                if !add_count(&mut out, (e.0.0, c), e.1) {
                    proof {
                        let j = choose|j: int|
                            0 <= j < pre1.len() && (#[trigger] pre1[j]).0 == (e.0.0, c) && (forall|
                                q: int,
                            | 0 <= q < j ==> (#[trigger] pre1[q]).0 != (e.0.0, c)) && pre1[j].1
                                + e.1 > u64::MAX;
                        lemma_counts_int_index(pre1);
                        lemma_step_overflow_witness(t0, rules@, counts_int(pre1), done, j);
                    }
                    return None;
                }
                proof {
                    assert(counts_int(out@) == merged(Seq::empty(), full, done + 1));
                }
                let ghost pre2 = out@;
                if !add_count(&mut out, (c, e.0.1), e.1) {
                    proof {
                        let j = choose|j: int|
                            0 <= j < pre2.len() && (#[trigger] pre2[j]).0 == (c, e.0.1) && (forall|
                                q: int,
                            | 0 <= q < j ==> (#[trigger] pre2[q]).0 != (c, e.0.1)) && pre2[j].1
                                + e.1 > u64::MAX;
                        lemma_counts_int_index(pre2);
                        lemma_step_overflow_witness(t0, rules@, counts_int(pre2), done + 1, j);
                    }
                    return None;
                }
                proof {
                    assert(counts_int(out@) == merged(Seq::empty(), full, done + 2));
                    done = done + 2;
                }
            },
            None => {
                proof {
                    assert(full[done] == (e.0, e.1 as int));
                }
                let ghost pre3 = out@;
                if !add_count(&mut out, e.0, e.1) {
                    proof {
                        let j = choose|j: int|
                            0 <= j < pre3.len() && (#[trigger] pre3[j]).0 == e.0 && (forall|q: int|
                                0 <= q < j ==> (#[trigger] pre3[q]).0 != e.0) && pre3[j].1 + e.1
                                > u64::MAX;
                        lemma_counts_int_index(pre3);
                        lemma_step_overflow_witness(t0, rules@, counts_int(pre3), done, j);
                    }
                    return None;
                }
                proof {
                    assert(counts_int(out@) == merged(Seq::empty(), full, done + 1));
                    done = done + 1;
                }
            },
        }
        i = i + 1;
    }
    proof {
        assert(done == full.len());
    }
    Some(out)
}

/// Entries of the mathematical table mirror the stored ones.
proof fn lemma_counts_int_index(v: Seq<((char, char), u64)>)
    ensures
        counts_int(v).len() == v.len(),
        forall|k: int| 0 <= k < v.len() ==> (#[trigger] counts_int(v)[k]) == (v[k].0, v[k].1 as int),
{
}

/// When merging one more produced entry overflows, the whole step does.
proof fn lemma_step_overflow_witness(
    t: Seq<((char, char), int)>,
    rs: Seq<((char, char), char)>,
    cur: Seq<((char, char), int)>,
    done: int,
    j: int,
)
    requires
        cur == merged(Seq::empty(), produced(t, rs, t.len() as int), done),
        0 <= done < produced(t, rs, t.len() as int).len(),
        0 <= j < cur.len(),
        cur[j].0 == produced(t, rs, t.len() as int)[done].0,
        forall|q: int| 0 <= q < j ==> (#[trigger] cur[q]).0 != produced(
            t,
            rs,
            t.len() as int,
        )[done].0,
        cur[j].1 + produced(t, rs, t.len() as int)[done].1 > u64::MAX,
    ensures
        step_overflows(t, rs),
{
    let full = produced(t, rs, t.len() as int);
    lemma_add_entry_at(cur, full[done], j);
    assert(merged(Seq::empty(), full, done + 1) == add_entry(cur, full[done]));
    assert(merged(Seq::empty(), full, done + 1)[j].1 > u64::MAX);
}

/// Produced entries of a longer prefix extend those of a shorter one.
proof fn lemma_produced_prefix(
    t: Seq<((char, char), int)>,
    rs: Seq<((char, char), char)>,
    i: int,
    n: int,
)
    requires
        0 <= i < n <= t.len(),
    ensures
        produced(t, rs, n).len() >= produced(t, rs, i + 1).len(),
        produced(t, rs, i + 1) == produced(t, rs, i) + (match rule_for(rs, t[i].0.0, t[i].0.1) {
            Some(c) => seq![((t[i].0.0, c), t[i].1), ((c, t[i].0.1), t[i].1)],
            None => seq![t[i]],
        }),
        forall|k: int| 0 <= k < produced(t, rs, i + 1).len() ==> #[trigger] produced(t, rs, n)[k]
            == produced(t, rs, i + 1)[k],
    decreases n,
{
    if n > i + 1 {
        lemma_produced_prefix(t, rs, i, n - 1);
    }
}

/// Run `steps` pair-counting steps; `None` exactly when some step would
/// push a pair count past the largest u64.
pub fn part2(
    pairs: &Vec<((char, char), u64)>,
    rules: &Vec<((char, char), char)>,
    steps: u32,
) -> (r: Option<Vec<((char, char), u64)>>)
    ensures
        match r {
            Some(out) => counts_int(out@) == table_chain(counts_int(pairs@), rules@, steps as int),
            None => exists|k: int|
                0 <= k < steps && step_overflows(
                    #[trigger] table_chain(counts_int(pairs@), rules@, k),
                    rules@,
                ),
        },
{
    let mut cur: Vec<((char, char), u64)> = Vec::new();
    let mut i: usize = 0;
    while i < pairs.len()
        invariant
            0 <= i <= pairs@.len(),
            cur@ =~= pairs@.subrange(0, i as int),
        decreases pairs@.len() - i,
    {
        cur.push(pairs[i]);
        i = i + 1;
    }
    proof {
        assert(cur@ =~= pairs@);
        assert(counts_int(cur@) =~= counts_int(pairs@));
    }
    let mut k: u32 = 0;
    while k < steps
        invariant
            0 <= k <= steps,
            counts_int(cur@) == table_chain(counts_int(pairs@), rules@, k as int),
        decreases steps - k,
    {
        match step_pairs(&cur, rules) {
            Some(next) => {
                cur = next;
            },
            None => {
                proof {
                    assert(step_overflows(table_chain(counts_int(pairs@), rules@, k as int), rules@));
                }
                return None;
            },
        }
        k = k + 1;
    }
    Some(cur)
}

/// Occurrences of `c` as the first element over the first `n` table
/// entries, plus one when `c` is the final element of the template.
pub open spec fn first_char_total(
    t: Seq<((char, char), int)>,
    c: char,
    last: char,
    n: int,
) -> int
    decreases n,
{
    (if n <= 0 {
        if c == last {
            1int
        } else {
            0int
        }
    } else {
        first_char_total(t, c, last, n - 1) + if t[n - 1].0.0 == c {
            t[n - 1].1
        } else {
            0int
        }
    })
}

/// Greatest and least element totals over the table (considering the
/// first element of each pair key, and the chain's final element).
pub fn pair_histogram_diff(table: &Vec<((char, char), u64)>, last: char) -> (r: Option<u64>)
    requires
        table@.len() >= 1,
    ensures
        match r {
            Some(d) => {
                let t = counts_int(table@);
                exists|cmax: char, cmin: char|
                    {
                        &&& #[trigger] first_char_total(t, cmax, last, t.len() as int)
                            - #[trigger] first_char_total(t, cmin, last, t.len() as int) == d
                        &&& forall|q: int| 0 <= q < t.len() ==> first_char_total(
                            t,
                            (#[trigger] t[q]).0.0,
                            last,
                            t.len() as int,
                        ) <= first_char_total(t, cmax, last, t.len() as int)
                        &&& forall|q: int| 0 <= q < t.len() ==> first_char_total(
                            t,
                            (#[trigger] t[q]).0.0,
                            last,
                            t.len() as int,
                        ) >= first_char_total(t, cmin, last, t.len() as int)
                    }
            },
            None => exists|q: int|
                0 <= q < counts_int(table@).len() && first_char_total(
                    counts_int(table@),
                    (#[trigger] counts_int(table@)[q]).0.0,
                    last,
                    counts_int(table@).len() as int,
                ) > u64::MAX,
        },
{
    let ghost t = counts_int(table@);
    let n = table.len();
    let first = match total_for(table, table[0].0.0, last) {
        Some(v) => v,
        None => {
            proof {
                assert(t[0].0.0 == table@[0].0.0);
            }
            return None;
        },
    };
    let mut maxv: u64 = first;
    let mut minv: u64 = first;
    let ghost mut cmax = table@[0].0.0;
    let ghost mut cmin = table@[0].0.0;
    let mut i: usize = 1;
    while i < n
        invariant
            1 <= i <= n,
            n == table@.len(),
            t == counts_int(table@),
            maxv == first_char_total(t, cmax, last, t.len() as int),
            minv == first_char_total(t, cmin, last, t.len() as int),
            forall|q: int| 0 <= q < i ==> first_char_total(
                t,
                (#[trigger] t[q]).0.0,
                last,
                t.len() as int,
            ) <= maxv,
            forall|q: int| 0 <= q < i ==> first_char_total(
                t,
                (#[trigger] t[q]).0.0,
                last,
                t.len() as int,
            ) >= minv,
        decreases n - i,
    {
        proof {
            assert(t[i as int].0.0 == table@[i as int].0.0);
        }
        let v = match total_for(table, table[i].0.0, last) {
            Some(v) => v,
            None => {
                proof {
                    assert(t[i as int].0.0 == table@[i as int].0.0);
                }
                return None;
            },
        };
        if v > maxv {
            maxv = v;
            proof {
                cmax = table@[i as int].0.0;
            }
        }
        if v < minv {
            minv = v;
            proof {
                cmin = table@[i as int].0.0;
            }
        }
        i = i + 1;
    }
    Some(maxv - minv)
}

/// A table of stored counts only grows its element totals.
proof fn lemma_fct_monotone(t: Seq<((char, char), int)>, c: char, last: char, i: int, j: int)
    requires
        0 <= i <= j <= t.len(),
        forall|k: int| 0 <= k < t.len() ==> (#[trigger] t[k]).1 >= 0,
    ensures
        first_char_total(t, c, last, i) <= first_char_total(t, c, last, j),
    decreases j,
{
    if i < j {
        lemma_fct_monotone(t, c, last, i, j - 1);
    }
}

/// Total occurrences of `c` as a first element, plus the final-element
/// correction; `None` exactly when the total does not fit in a u64.
fn total_for(table: &Vec<((char, char), u64)>, c: char, last: char) -> (r: Option<u64>)
    ensures
        match r {
            Some(v) => v == first_char_total(counts_int(table@), c, last, table@.len() as int),
            None => first_char_total(counts_int(table@), c, last, table@.len() as int)
                > u64::MAX,
        },
{
    let ghost t = counts_int(table@);
    let mut acc: u64 = if c == last {
        1
    } else {
        0
    };
    let mut i: usize = 0;
    while i < table.len()
        invariant
            0 <= i <= table@.len(),
            t == counts_int(table@),
            acc == first_char_total(t, c, last, i as int),
        decreases table@.len() - i,
    {
        proof {
            assert(t[i as int] == (table@[i as int].0, table@[i as int].1 as int));
        }
        if table[i].0.0 == c {
            let v = table[i].1;
            if acc > u64::MAX - v {
                proof {
                    lemma_counts_int_index(table@);
                    assert(first_char_total(t, c, last, i + 1) > u64::MAX);
                    lemma_fct_monotone(t, c, last, i + 1, t.len() as int);
                }
                return None;
            }
            acc = acc + v;
        }
        i = i + 1;
    }
    Some(acc)
}


/// One table entry per adjacent pair of the template, each counting one.
pub open spec fn template_pairs(s: Seq<char>, n: int) -> Seq<((char, char), int)>
    decreases n,
{
    if n <= 1 {
        Seq::empty()
    } else {
        template_pairs(s, n - 1) + seq![((s[n - 2], s[n - 1]), 1int)]
    }
}

/// Count the adjacent pairs of the template into a table.
pub fn initial_pairs(template: &Vec<char>) -> (out: Vec<((char, char), u64)>)
    ensures
        counts_int(out@) == merged(
            Seq::empty(),
            template_pairs(template@, template@.len() as int),
            template_pairs(template@, template@.len() as int).len() as int,
        ),
{
    let ghost full = template_pairs(template@, template@.len() as int);
    let mut out: Vec<((char, char), u64)> = Vec::new();
    proof {
        assert(counts_int(out@) =~= Seq::<((char, char), int)>::empty());
        lemma_template_pairs_len(template@, template@.len() as int);
    }
    if template.len() < 2 {
        return out;
    }
    let mut i: usize = 1;
    while i < template.len()
        invariant
            1 <= i <= template@.len(),
            full == template_pairs(template@, template@.len() as int),
            full.len() == template@.len() - 1,
            counts_int(out@) == merged(Seq::empty(), full, i - 1),
            forall|k: int| 0 <= k < out@.len() ==> (#[trigger] out@[k]).1 <= i - 1,
        decreases template@.len() - i,
    {
        proof {
            lemma_template_pairs_prefix(template@, i + 1, template@.len() as int);
            lemma_template_pairs_len(template@, i as int);
            assert(full[i - 1] == ((template@[i - 1], template@[i as int]), 1int));
            lemma_add_entry_bound(
                counts_int(out@),
                ((template@[i - 1], template@[i as int]), 1int),
                i - 1,
            );
        }
        let ghost before = out@;
        let ok = add_count(&mut out, (template[i - 1], template[i]), 1);
        proof {
            if !ok {
                let j = choose|j: int| 0 <= j < before.len() && (#[trigger] before[j]).1 + 1
                    > u64::MAX;
                assert(before[j].1 <= i - 1);
                assert(false);
            }
            assert forall|k: int| 0 <= k < out@.len() implies (#[trigger] out@[k]).1 <= i by {
                assert(counts_int(out@)[k].1 <= i);
            }
        }
        i = i + 1;
    }
    out
}

proof fn lemma_template_pairs_len(s: Seq<char>, n: int)
    ensures
        template_pairs(s, n).len() == (if n <= 1 {
            0int
        } else {
            n - 1
        }),
    decreases n,
{
    if n > 1 {
        lemma_template_pairs_len(s, n - 1);
    }
}

/// A longer template prefix extends the pair list of a shorter one.
proof fn lemma_template_pairs_prefix(s: Seq<char>, i: int, n: int)
    requires
        2 <= i <= n,
    ensures
        template_pairs(s, n).len() == n - 1,
        forall|k: int| 0 <= k < i - 1 ==> #[trigger] template_pairs(s, n)[k] == template_pairs(
            s,
            i,
        )[k],
        template_pairs(s, i) == template_pairs(s, i - 1) + seq![((s[i - 2], s[i - 1]), 1int)],
    decreases n,
{
    lemma_template_pairs_len(s, n);
    lemma_template_pairs_len(s, i);
    if n > i {
        lemma_template_pairs_prefix(s, i, n - 1);
    }
}

} // verus!

