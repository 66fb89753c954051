//! Seven-segment displays with scrambled wiring.  Each input line lists
//! ten signal patterns and four displayed digits.  The unique segment
//! counts pin down 1, 4, 7 and 8; the remaining digits are resolved by
//! counting shared segments with the known patterns.

use vstd::prelude::*;
use crate::text::{chars_of, next_token, skip_ws, token_end};

verus! {

/// How many of the first `n` characters of `b` equal `c`.
pub open spec fn occurrences(b: Seq<char>, c: char, n: int) -> int
    decreases n,
{
    if n <= 0 {
        0
    } else {
        occurrences(b, c, n - 1) + if b[n - 1] == c {
            1int
        } else {
            0int
        }
    }
}

/// Number of matching pairs between the first `n` characters of `a` and
/// all of `b`: the segment-overlap measure the resolvers count.
pub open spec fn pair_matches(a: Seq<char>, b: Seq<char>, n: int) -> int
    decreases n,
{
    if n <= 0 {
        0
    } else {
        pair_matches(a, b, n - 1) + occurrences(b, a[n - 1], b.len() as int)
    }
}

proof fn lemma_occurrences_bound(b: Seq<char>, c: char, n: int)
    requires
        0 <= n,
    ensures
        0 <= occurrences(b, c, n) <= n,
    decreases n,
{
    if n > 0 {
        lemma_occurrences_bound(b, c, n - 1);
    }
}

proof fn lemma_pair_matches_bound(a: Seq<char>, b: Seq<char>, n: int)
    requires
        0 <= n,
    ensures
        0 <= pair_matches(a, b, n) <= n * b.len(),
    decreases n,
{
    if n > 0 {
        lemma_pair_matches_bound(a, b, n - 1);
        lemma_occurrences_bound(b, a[n - 1], b.len() as int);
        assert((n - 1) * b.len() + b.len() == n * b.len()) by (nonlinear_arith);
    }
}

/// Count the matching pairs between two patterns.
fn match_count(a: &Vec<char>, b: &Vec<char>) -> (r: usize)
    requires
        a@.len() * b@.len() <= usize::MAX,
    ensures
        r == pair_matches(a@, b@, a@.len() as int),
{
    proof {
        lemma_pair_matches_bound(a@, b@, a@.len() as int);
    }
    let mut r: usize = 0;
    let mut i: usize = 0;
    while i < a.len()
        invariant
            0 <= i <= a@.len(),
            a@.len() * b@.len() <= usize::MAX,
            r == pair_matches(a@, b@, i as int),
        decreases a@.len() - i,
    {
        proof {
            lemma_pair_matches_bound(a@, b@, i as int);
            lemma_occurrences_bound(b@, a@[i as int], b@.len() as int);
            assert(i * b@.len() + b@.len() == (i + 1) * b@.len()) by (nonlinear_arith);
            assert((i + 1) * b@.len() <= a@.len() * b@.len()) by (nonlinear_arith)
                requires
                    i + 1 <= a@.len() && b@.len() >= 0,
            ;
        }
        let mut j: usize = 0;
        let mut occ: usize = 0;
        while j < b.len()
            invariant
                0 <= j <= b@.len(),
                i < a@.len(),
                occ == occurrences(b@, a@[i as int], j as int),
                occ <= j,
            decreases b@.len() - j,
        {
            proof {
                lemma_occurrences_bound(b@, a@[i as int], j as int);
            }
            if b[j] == a[i] {
                occ = occ + 1;
            }
            j = j + 1;
        }
        r = r + occ;
        i = i + 1;
    }
    r
}

/// The still-unresolved patterns and the four known ones.
pub struct PatternPossibility {
    pub one: Vec<char>,
    pub four: Vec<char>,
    pub seven: Vec<char>,
    pub eight: Vec<char>,
    pub others: Vec<Vec<char>>,
}

/// First index whose pattern shares every segment of `four` (nine is the
/// only unresolved digit that contains 4).
pub open spec fn nine_idx(others: Seq<Seq<char>>, four: Seq<char>) -> Option<int>
    decreases others.len(),
{
    if others.len() == 0 {
        None
    } else if pair_matches(others[0], four, others[0].len() as int) == four.len() {
        Some(0int)
    } else {
        match nine_idx(others.subrange(1, others.len() as int), four) {
            Some(i) => Some(i + 1),
            None => None,
        }
    }
}

/// First index with five segments sharing every segment of `seven`
/// (three is the only such digit).
pub open spec fn three_idx(others: Seq<Seq<char>>, seven: Seq<char>) -> Option<int>
    decreases others.len(),
{
    if others.len() == 0 {
        None
    } else if others[0].len() == 5 && pair_matches(others[0], seven, others[0].len() as int)
        == seven.len() {
        Some(0int)
    } else {
        match three_idx(others.subrange(1, others.len() as int), seven) {
            Some(i) => Some(i + 1),
            None => None,
        }
    }
}

/// First index with six segments sharing every segment of `seven`
/// (zero, once nine is gone).
pub open spec fn zero_idx(others: Seq<Seq<char>>, seven: Seq<char>) -> Option<int>
    decreases others.len(),
{
    if others.len() == 0 {
        None
    } else if others[0].len() == 6 && pair_matches(others[0], seven, others[0].len() as int)
        == seven.len() {
        Some(0int)
    } else {
        match zero_idx(others.subrange(1, others.len() as int), seven) {
            Some(i) => Some(i + 1),
            None => None,
        }
    }
}

/// First index with six segments (six, once zero and nine are gone).
pub open spec fn six_idx(others: Seq<Seq<char>>) -> Option<int>
    decreases others.len(),
{
    if others.len() == 0 {
        None
    } else if others[0].len() == 6 {
        Some(0int)
    } else {
        match six_idx(others.subrange(1, others.len() as int)) {
            Some(i) => Some(i + 1),
            None => None,
        }
    }
}

/// First index sharing exactly five segments with `six` (five is wholly
/// contained in six).
pub open spec fn five_idx(others: Seq<Seq<char>>, six: Seq<char>) -> Option<int>
    decreases others.len(),
{
    if others.len() == 0 {
        None
    } else if pair_matches(others[0], six, others[0].len() as int) == 5 {
        Some(0int)
    } else {
        match five_idx(others.subrange(1, others.len() as int), six) {
            Some(i) => Some(i + 1),
            None => None,
        }
    }
}

/// Patterns small enough that segment-pair counting cannot overflow.
pub open spec fn patterns_small(others: Seq<Seq<char>>) -> bool {
    forall|k: int| 0 <= k < others.len() ==> (#[trigger] others[k]).len() <= 0xFFFF
}

/// The character sequences inside a list of patterns.
pub open spec fn deep(o: Seq<Vec<char>>) -> Seq<Seq<char>> {
    o.map_values(|v: Vec<char>| v@)
}

impl PatternPossibility {
    /// No pattern resolved yet.
    pub fn new() -> (r: PatternPossibility)
        ensures
            r.one@.len() == 0,
            r.four@.len() == 0,
            r.seven@.len() == 0,
            r.eight@.len() == 0,
            r.others@.len() == 0,
    {
        PatternPossibility {
            one: Vec::new(),
            four: Vec::new(),
            seven: Vec::new(),
            eight: Vec::new(),
            others: Vec::new(),
        }
    }
}


/// The resolver each mode runs: which pattern index it picks first.
pub open spec fn sel_idx(mode: int, others: Seq<Seq<char>>, key: Seq<char>) -> Option<int> {
    if mode == 0 {
        nine_idx(others, key)
    } else if mode == 1 {
        three_idx(others, key)
    } else if mode == 2 {
        zero_idx(others, key)
    } else if mode == 3 {
        six_idx(others)
    } else {
        five_idx(others, key)
    }
}

/// Removing a pattern keeps the rest small.
proof fn lemma_small_remove(o: Seq<Seq<char>>, i: int)
    requires
        patterns_small(o),
        0 <= i < o.len(),
    ensures
        patterns_small(o.remove(i)),
{
    assert forall|k: int| 0 <= k < o.remove(i).len() implies (#[trigger] o.remove(i)[k]).len()
        <= 0xFFFF by {
        if k < i {
            assert(o.remove(i)[k] == o[k]);
        } else {
            assert(o.remove(i)[k] == o[k + 1]);
        }
    }
}

impl PatternPossibility {
    /// Remove and return the first unresolved pattern the given mode
    /// picks, if any.
    fn remove_match(others: &mut Vec<Vec<char>>, key: &Vec<char>, mode: u8) -> (r: Option<
        Vec<char>,
    >)
        requires
            patterns_small(deep(old(others)@)),
            key@.len() <= 0xFFFF,
            mode <= 4,
        ensures
            match r {
                Some(p) => {
                    let oi = sel_idx(mode as int, deep(old(others)@), key@);
                    oi is Some && 0 <= oi.unwrap() < old(others)@.len()
                        && p == old(others)@[oi.unwrap()]
                        && final(others)@ == old(others)@.remove(oi.unwrap())
                },
                None => sel_idx(mode as int, deep(old(others)@), key@) is None && final(others)@
                    == old(others)@,
            },
    {
        let ghost o0 = deep(others@);
        proof {
            assert(o0.subrange(0, o0.len() as int) =~= o0);
        }
        let mut i: usize = 0;
        while i < others.len()
            invariant
                0 <= i <= others@.len(),
                others@ == old(others)@,
                others@.len() == o0.len(),
                o0 == deep(others@),
                patterns_small(o0),
                key@.len() <= 0xFFFF,
                mode <= 4,
                sel_idx(mode as int, o0, key@) == (match sel_idx(
                    mode as int,
                    o0.subrange(i as int, o0.len() as int),
                    key@,
                ) {
                    Some(j) => Some(j + i),
                    None => None::<int>,
                }),
            decreases o0.len() - i,
        {
            let ghost suffix = o0.subrange(i as int, o0.len() as int);
            proof {
                assert(suffix[0] == o0[i as int]);
                assert(o0[i as int] == others@[i as int]@);
                assert(o0[i as int].len() <= 0xFFFF);
                assert(others@[i as int]@.len() * key@.len() <= 0xFFFF * 0xFFFF) by (
                nonlinear_arith)
                    requires
                        others@[i as int]@.len() <= 0xFFFF && key@.len() <= 0xFFFF,
                ;
            }
            let mc = match_count(&others[i], key);
            let plen = others[i].len();
            let hit: bool = match mode {
                0 => mc == key.len(),
                1 => plen == 5 && mc == key.len(),
                2 => plen == 6 && mc == key.len(),
                3 => plen == 6,
                _ => mc == 5,
            };
            if hit {
                proof {
                    assert(sel_idx(mode as int, suffix, key@) == Some(0int));
                    assert(o0.remove(i as int) =~= deep(others@.remove(i as int)));
                }
                let p = others.remove(i);
                return Some(p);
            }
            proof {
                assert(suffix.subrange(1, suffix.len() as int) =~= o0.subrange(
                    i + 1,
                    o0.len() as int,
                ));
                assert(sel_idx(mode as int, suffix, key@) == (match sel_idx(
                    mode as int,
                    o0.subrange(i + 1, o0.len() as int),
                    key@,
                ) {
                    Some(j) => Some(j + 1),
                    None => None::<int>,
                }));
            }
            i = i + 1;
        }
        proof {
            assert(o0.subrange(o0.len() as int, o0.len() as int) =~= Seq::<Seq<char>>::empty());
        }
        None
    }

    /// Nine is the only unresolved pattern that includes all of 4.
    pub fn resolve_nine(&mut self) -> (r: Option<Vec<char>>)
        requires
            patterns_small(deep(old(self).others@)),
            old(self).four@.len() <= 0xFFFF,
        ensures
            final(self).one == old(self).one && final(self).four == old(self).four,
            final(self).seven == old(self).seven && final(self).eight == old(self).eight,
            match r {
                Some(p) => {
                    let oi = nine_idx(deep(old(self).others@), old(self).four@);
                    oi is Some && p == old(self).others@[oi.unwrap()]
                        && final(self).others@ == old(self).others@.remove(oi.unwrap())
                },
                None => nine_idx(deep(old(self).others@), old(self).four@) is None
                    && final(self).others@ == old(self).others@,
            },
    {
        let key = &self.four;
        PatternPossibility::remove_match(&mut self.others, key, 0)
    }

    /// Three is the only unresolved five-segment pattern that includes 7.
    pub fn resolve_three(&mut self) -> (r: Option<Vec<char>>)
        requires
            patterns_small(deep(old(self).others@)),
            old(self).seven@.len() <= 0xFFFF,
        ensures
            final(self).one == old(self).one && final(self).four == old(self).four,
            final(self).seven == old(self).seven && final(self).eight == old(self).eight,
            match r {
                Some(p) => {
                    let oi = three_idx(deep(old(self).others@), old(self).seven@);
                    oi is Some && p == old(self).others@[oi.unwrap()]
                        && final(self).others@ == old(self).others@.remove(oi.unwrap())
                },
                None => three_idx(deep(old(self).others@), old(self).seven@) is None
                    && final(self).others@ == old(self).others@,
            },
    {
        let key = &self.seven;
        PatternPossibility::remove_match(&mut self.others, key, 1)
    }

    /// Zero is the only unresolved six-segment pattern including 7, once
    /// nine is gone.
    pub fn resolve_zero(&mut self) -> (r: Option<Vec<char>>)
        requires
            patterns_small(deep(old(self).others@)),
            old(self).seven@.len() <= 0xFFFF,
        ensures
            final(self).one == old(self).one && final(self).four == old(self).four,
            final(self).seven == old(self).seven && final(self).eight == old(self).eight,
            match r {
                Some(p) => {
                    let oi = zero_idx(deep(old(self).others@), old(self).seven@);
                    oi is Some && p == old(self).others@[oi.unwrap()]
                        && final(self).others@ == old(self).others@.remove(oi.unwrap())
                },
                None => zero_idx(deep(old(self).others@), old(self).seven@) is None
                    && final(self).others@ == old(self).others@,
            },
    {
        let key = &self.seven;
        PatternPossibility::remove_match(&mut self.others, key, 2)
    }

    /// Six is the only remaining six-segment pattern after zero and nine.
    pub fn resolve_six(&mut self) -> (r: Option<Vec<char>>)
        requires
            patterns_small(deep(old(self).others@)),
        ensures
            final(self).one == old(self).one && final(self).four == old(self).four,
            final(self).seven == old(self).seven && final(self).eight == old(self).eight,
            match r {
                Some(p) => {
                    let oi = six_idx(deep(old(self).others@));
                    oi is Some && p == old(self).others@[oi.unwrap()]
                        && final(self).others@ == old(self).others@.remove(oi.unwrap())
                },
                None => six_idx(deep(old(self).others@)) is None
                    && final(self).others@ == old(self).others@,
            },
    {
        let key: Vec<char> = Vec::new();
        PatternPossibility::remove_match(&mut self.others, &key, 3)
    }

    /// Five is the only unresolved pattern wholly contained in six.
    pub fn resolve_five(&mut self, six: &Vec<char>) -> (r: Option<Vec<char>>)
        requires
            patterns_small(deep(old(self).others@)),
            six@.len() <= 0xFFFF,
        ensures
            final(self).one == old(self).one && final(self).four == old(self).four,
            final(self).seven == old(self).seven && final(self).eight == old(self).eight,
            match r {
                Some(p) => {
                    let oi = five_idx(deep(old(self).others@), six@);
                    oi is Some && p == old(self).others@[oi.unwrap()]
                        && final(self).others@ == old(self).others@.remove(oi.unwrap())
                },
                None => five_idx(deep(old(self).others@), six@) is None && final(self).others@
                    == old(self).others@,
            },
    {
        PatternPossibility::remove_match(&mut self.others, six, 4)
    }
}

/// A successful resolver index points into the list.
proof fn lemma_sel_idx_range(mode: int, others: Seq<Seq<char>>, key: Seq<char>)
    ensures
        sel_idx(mode, others, key) is Some ==> 0 <= sel_idx(mode, others, key).unwrap()
            < others.len(),
    decreases others.len(),
{
    if others.len() > 0 {
        lemma_sel_idx_range(mode, others.subrange(1, others.len() as int), key);
    }
}

/// The unresolved patterns left after taking nine out.
pub open spec fn others_1(o: Seq<Seq<char>>, four: Seq<char>) -> Seq<Seq<char>> {
    o.remove(nine_idx(o, four).unwrap())
}

/// ... and three.
pub open spec fn others_2(o: Seq<Seq<char>>, four: Seq<char>, seven: Seq<char>) -> Seq<Seq<char>> {
    others_1(o, four).remove(three_idx(others_1(o, four), seven).unwrap())
}

/// ... and zero.
pub open spec fn others_3(o: Seq<Seq<char>>, four: Seq<char>, seven: Seq<char>) -> Seq<Seq<char>> {
    others_2(o, four, seven).remove(zero_idx(others_2(o, four, seven), seven).unwrap())
}

/// The six pattern itself.
pub open spec fn six_of(o: Seq<Seq<char>>, four: Seq<char>, seven: Seq<char>) -> Seq<char> {
    others_3(o, four, seven)[six_idx(others_3(o, four, seven)).unwrap()]
}

/// ... and six.
pub open spec fn others_4(o: Seq<Seq<char>>, four: Seq<char>, seven: Seq<char>) -> Seq<Seq<char>> {
    others_3(o, four, seven).remove(six_idx(others_3(o, four, seven)).unwrap())
}

/// ... and five: what is left must be two.
pub open spec fn others_5(o: Seq<Seq<char>>, four: Seq<char>, seven: Seq<char>) -> Seq<Seq<char>> {
    others_4(o, four, seven).remove(
        five_idx(others_4(o, four, seven), six_of(o, four, seven)).unwrap(),
    )
}

/// Every resolution step of `to_resolved_array` succeeds and at least one
/// pattern (two) remains at the end.
pub open spec fn resolvable(o: Seq<Seq<char>>, four: Seq<char>, seven: Seq<char>) -> bool {
    &&& patterns_small(o)
    &&& four.len() <= 0xFFFF
    &&& seven.len() <= 0xFFFF
    &&& nine_idx(o, four) is Some
    &&& three_idx(others_1(o, four), seven) is Some
    &&& zero_idx(others_2(o, four, seven), seven) is Some
    &&& six_idx(others_3(o, four, seven)) is Some
    &&& five_idx(others_4(o, four, seven), six_of(o, four, seven)) is Some
    &&& others_5(o, four, seven).len() >= 1
}

/// The ten digit patterns, in digit order, that resolution produces.
pub open spec fn resolved_digits(
    o: Seq<Seq<char>>,
    one: Seq<char>,
    four: Seq<char>,
    seven: Seq<char>,
    eight: Seq<char>,
) -> Seq<Seq<char>> {
    seq![
        others_2(o, four, seven)[zero_idx(others_2(o, four, seven), seven).unwrap()],
        one,
        others_5(o, four, seven).last(),
        others_1(o, four)[three_idx(others_1(o, four), seven).unwrap()],
        four,
        others_4(o, four, seven)[five_idx(others_4(o, four, seven), six_of(o, four, seven)).unwrap()],
        six_of(o, four, seven),
        seven,
        eight,
        o[nine_idx(o, four).unwrap()],
    ]
}

impl PatternPossibility {
    /// Resolve every remaining digit and return the ten patterns in digit
    /// order.
    pub fn to_resolved_array(self) -> (r: Vec<Vec<char>>)
        requires
            resolvable(deep(self.others@), self.four@, self.seven@),
        ensures
            r@.len() == 10,
            deep(r@) == resolved_digits(
                deep(self.others@),
                self.one@,
                self.four@,
                self.seven@,
                self.eight@,
            ),
    {
        let ghost o0 = deep(self.others@);
        let ghost four0 = self.four@;
        let ghost seven0 = self.seven@;
        let mut this = self;
        proof {
            lemma_sel_idx_range(0, o0, four0);
            lemma_small_remove(o0, nine_idx(o0, four0).unwrap());
        }
        let nine = match this.resolve_nine() {
            Some(v) => v,
            None => {
                proof {
                    assert(false);
                }
                Vec::new()
            },
        };
        proof {
            assert(deep(this.others@) =~= others_1(o0, four0));
            lemma_sel_idx_range(1, others_1(o0, four0), seven0);
            lemma_small_remove(
                others_1(o0, four0),
                three_idx(others_1(o0, four0), seven0).unwrap(),
            );
        }
        let three = match this.resolve_three() {
            Some(v) => v,
            None => {
                proof {
                    assert(false);
                }
                Vec::new()
            },
        };
        proof {
            assert(deep(this.others@) =~= others_2(o0, four0, seven0));
            lemma_sel_idx_range(2, others_2(o0, four0, seven0), seven0);
            lemma_small_remove(
                others_2(o0, four0, seven0),
                zero_idx(others_2(o0, four0, seven0), seven0).unwrap(),
            );
        }
        let zero = match this.resolve_zero() {
            Some(v) => v,
            None => {
                proof {
                    assert(false);
                }
                Vec::new()
            },
        };
        proof {
            assert(deep(this.others@) =~= others_3(o0, four0, seven0));
            lemma_sel_idx_range(3, others_3(o0, four0, seven0), Seq::empty());
            assert(six_idx(others_3(o0, four0, seven0)) == sel_idx(
                3,
                others_3(o0, four0, seven0),
                Seq::empty(),
            ));
            lemma_small_remove(
                others_3(o0, four0, seven0),
                six_idx(others_3(o0, four0, seven0)).unwrap(),
            );
        }
        let six = match this.resolve_six() {
            Some(v) => v,
            None => {
                proof {
                    assert(false);
                }
                Vec::new()
            },
        };
        proof {
            assert(deep(this.others@) =~= others_4(o0, four0, seven0));
            assert(six@ == six_of(o0, four0, seven0));
            lemma_sel_idx_range(4, others_4(o0, four0, seven0), six_of(o0, four0, seven0));
            lemma_small_remove(
                others_4(o0, four0, seven0),
                five_idx(others_4(o0, four0, seven0), six_of(o0, four0, seven0)).unwrap(),
            );
        }
        let five = match this.resolve_five(&six) {
            Some(v) => v,
            None => {
                proof {
                    assert(false);
                }
                Vec::new()
            },
        };
        proof {
            assert(deep(this.others@) =~= others_5(o0, four0, seven0));
        }
        let two = match this.others.pop() {
            Some(v) => v,
            None => {
                proof {
                    assert(false);
                }
                Vec::new()
            },
        };
        proof {
            assert(two@ == others_5(o0, four0, seven0).last());
        }
        let mut out: Vec<Vec<char>> = Vec::new();
        out.push(zero);
        out.push(this.one);
        out.push(two);
        out.push(three);
        out.push(this.four);
        out.push(five);
        out.push(six);
        out.push(this.seven);
        out.push(this.eight);
        out.push(nine);
        proof {
            assert(deep(out@) =~= resolved_digits(o0, self.one@, four0, seven0, self.eight@));
        }
        out
    }
}


/// Code-point order on characters.
pub open spec fn char_le(a: char, b: char) -> bool {
    (a as u32) <= (b as u32)
}

/// Ascending character order.
pub open spec fn sorted_asc(s: Seq<char>) -> bool {
    forall|i: int, j: int| 0 <= i < j < s.len() ==> char_le(#[trigger] s[i], #[trigger] s[j])
}

/// `c` slotted in just before the first element not below it.
pub open spec fn insert_sorted(s: Seq<char>, c: char) -> Seq<char>
    decreases s.len(),
{
    if s.len() == 0 {
        seq![c]
    } else if char_le(c, s[0]) {
        seq![c] + s
    } else {
        seq![s[0]] + insert_sorted(s.subrange(1, s.len() as int), c)
    }
}

/// The first `n` characters of `s`, in ascending order.
pub open spec fn sort_of(s: Seq<char>, n: int) -> Seq<char>
    decreases n,
{
    if n <= 0 {
        Seq::empty()
    } else {
        insert_sorted(sort_of(s, n - 1), s[n - 1])
    }
}

/// Slotting a character in keeps the order and adds exactly it.
proof fn lemma_insert_sorted_props(s: Seq<char>, c: char)
    requires
        sorted_asc(s),
    ensures
        sorted_asc(insert_sorted(s, c)),
        insert_sorted(s, c).to_multiset() =~= s.to_multiset().insert(c),
        insert_sorted(s, c).len() == s.len() + 1,
    decreases s.len(),
{
    broadcast use vstd::seq_lib::group_to_multiset_ensures;

    let out = insert_sorted(s, c);
    if s.len() == 0 {
        assert(out =~= Seq::<char>::empty().push(c));
    } else if char_le(c, s[0]) {
        assert(out.remove(0) =~= s);
        assert(out.to_multiset().remove(c) =~= s.to_multiset());
        assert(out.to_multiset().contains(c)) by {
            assert(out.contains(c)) by {
                assert(out[0] == c);
            }
        }
        assert(out.to_multiset() =~= s.to_multiset().insert(c));
    } else {
        let tail = s.subrange(1, s.len() as int);
        assert(sorted_asc(tail)) by {
            assert(forall|i: int, j: int|
                0 <= i < j < tail.len() ==> char_le(#[trigger] tail[i], #[trigger] tail[j]));
        }
        lemma_insert_sorted_props(tail, c);
        assert(sorted_asc(out)) by {
            assert forall|i: int, j: int|
                0 <= i < j < out.len() implies char_le(#[trigger] out[i], #[trigger] out[j]) by {
                if i > 0 {
                    assert(out[i] == insert_sorted(tail, c)[i - 1]);
                    assert(out[j] == insert_sorted(tail, c)[j - 1]);
                } else {
                    assert(out[0] == s[0]);
                    assert(out[j] == insert_sorted(tail, c)[j - 1]);
                    assert(insert_sorted(tail, c).to_multiset().contains(
                        insert_sorted(tail, c)[j - 1],
                    ));
                    let x = insert_sorted(tail, c)[j - 1];
                    if x == c || tail.to_multiset().contains(x) {
                        if x != c {
                            assert(tail.contains(x));
                            let q = choose|q: int| 0 <= q < tail.len() && tail[q] == x;
                            assert(char_le(s[0], s[q + 1]));
                        }
                    } else {
                        assert(insert_sorted(tail, c).to_multiset() =~= tail.to_multiset().insert(
                            c,
                        ));
                        assert(false);
                    }
                }
            }
        }
        assert(out.remove(0) =~= insert_sorted(tail, c));
        assert(out.to_multiset().remove(s[0]) =~= insert_sorted(tail, c).to_multiset());
        assert(out.to_multiset().contains(s[0])) by {
            assert(out.contains(s[0])) by {
                assert(out[0] == s[0]);
            }
        }
        assert(out.to_multiset() =~= insert_sorted(tail, c).to_multiset().insert(s[0]));
        assert(s.to_multiset() =~= tail.to_multiset().insert(s[0])) by {
            assert(s.remove(0) =~= tail);
            assert(s.to_multiset().remove(s[0]) =~= tail.to_multiset());
            assert(s.to_multiset().contains(s[0])) by {
                assert(s.contains(s[0]));
            }
        }
        assert(out.to_multiset() =~= s.to_multiset().insert(c)) by {
            assert(out.to_multiset() =~= tail.to_multiset().insert(c).insert(s[0]));
        }
    }
}

/// Sorting yields an ascending permutation of the prefix.
pub proof fn lemma_sort_of_props(s: Seq<char>, n: int)
    requires
        0 <= n <= s.len(),
    ensures
        sorted_asc(sort_of(s, n)),
        sort_of(s, n).to_multiset() =~= s.subrange(0, n).to_multiset(),
        sort_of(s, n).len() == n,
    decreases n,
{
    broadcast use vstd::seq_lib::group_to_multiset_ensures;

    if n == 0 {
        assert(s.subrange(0, 0) =~= Seq::<char>::empty());
    } else {
        lemma_sort_of_props(s, n - 1);
        lemma_insert_sorted_props(sort_of(s, n - 1), s[n - 1]);
        assert(s.subrange(0, n) =~= s.subrange(0, n - 1).push(s[n - 1]));
    }
}

/// Where the scan stopped is exactly where the spec slots the character.
proof fn lemma_insert_at(s: Seq<char>, c: char, j: int)
    requires
        0 <= j <= s.len(),
        forall|q: int| 0 <= q < j ==> !char_le(c, #[trigger] s[q]),
        j < s.len() ==> char_le(c, s[j]),
    ensures
        insert_sorted(s, c) =~= s.subrange(0, j) + seq![c] + s.subrange(j, s.len() as int),
    decreases j,
{
    if s.len() == 0 {
        assert(s.subrange(0, 0) =~= Seq::<char>::empty());
    } else if j == 0 {
        assert(s.subrange(0, 0) =~= Seq::<char>::empty());
        assert(s.subrange(0, s.len() as int) =~= s);
    } else {
        let tail = s.subrange(1, s.len() as int);
        lemma_insert_at(tail, c, j - 1);
        assert(tail.subrange(0, j - 1) =~= s.subrange(1, j));
        assert(tail.subrange(j - 1, tail.len() as int) =~= s.subrange(j, s.len() as int));
    }
}

/// Put one character into its place in an ascending vector.
fn insert_char(out: &mut Vec<char>, c: char)
    ensures
        final(out)@ == insert_sorted(old(out)@, c),
{
    let cu = c as u32;
    let mut j: usize = 0;
    while j < out.len() && (out[j] as u32) < cu
        invariant
            0 <= j <= out@.len(),
            cu == c as u32,
            out@ == old(out)@,
            forall|q: int| 0 <= q < j ==> !char_le(c, #[trigger] out@[q]),
        decreases out@.len() - j,
    {
        j = j + 1;
    }
    proof {
        lemma_insert_at(out@, c, j as int);
    }
    out.insert(j, c);
    proof {
        assert(out@ =~= old(out)@.subrange(0, j as int) + seq![c] + old(out)@.subrange(
            j as int,
            old(out)@.len() as int,
        ));
    }
}

/// The characters of a pattern, ascending.
fn sort_chars(v: &Vec<char>) -> (out: Vec<char>)
    ensures
        out@ == sort_of(v@, v@.len() as int),
{
    let mut out: Vec<char> = Vec::new();
    let mut i: usize = 0;
    proof {
        assert(out@ =~= sort_of(v@, 0));
    }
    while i < v.len()
        invariant
            0 <= i <= v@.len(),
            out@ == sort_of(v@, i as int),
        decreases v@.len() - i,
    {
        insert_char(&mut out, v[i]);
        i = i + 1;
    }
    out
}

/// Fields of a `PatternPossibility` after folding the tokens of `s` from
/// position `i` onto the given accumulators: each token's characters are
/// stored sorted ascending, and tokens are assigned by length (two
/// segments is 1, three is 7, four is 4, seven segments is 8); everything
/// else stays unresolved.
pub open spec fn poss_fold(
    s: Seq<char>,
    i: int,
    one: Seq<char>,
    four: Seq<char>,
    seven: Seq<char>,
    eight: Seq<char>,
    others: Seq<Seq<char>>,
) -> (Seq<char>, Seq<char>, Seq<char>, Seq<char>, Seq<Seq<char>>)
    decreases s.len() - i,
{
    let a = skip_ws(s, i);
    if i < 0 || a >= s.len() || a < i {
        (one, four, seven, eight, others)
    } else {
        let b = token_end(s, a);
        if !(a < b <= s.len()) {
            (one, four, seven, eight, others)
        } else {
            let t = sort_of(s.subrange(a, b), b - a);
            if b - a == 2 {
                poss_fold(s, b, t, four, seven, eight, others)
            } else if b - a == 3 {
                poss_fold(s, b, one, four, t, eight, others)
            } else if b - a == 4 {
                poss_fold(s, b, one, t, seven, eight, others)
            } else if b - a == 7 {
                poss_fold(s, b, one, four, seven, t, others)
            } else {
                poss_fold(s, b, one, four, seven, eight, others.push(t))
            }
        }
    }
}

/// The characters of `v[from .. to]` as their own vector.
fn slice_chars(v: &Vec<char>, from: usize, to: usize) -> (out: Vec<char>)
    requires
        from <= to <= v@.len(),
    ensures
        out@ == v@.subrange(from as int, to as int),
{
    let mut out: Vec<char> = Vec::new();
    let mut i: usize = from;
    while i < to
        invariant
            from <= i <= to <= v@.len(),
            out@ =~= v@.subrange(from as int, i as int),
        decreases to - i,
    {
        out.push(v[i]);
        i = i + 1;
    }
    proof {
        assert(out@ =~= v@.subrange(from as int, to as int));
    }
    out
}

impl PatternPossibility {
    /// Sort the space-separated signal patterns of a line into the known
    /// digits (by their unique lengths) and the unresolved rest, storing
    /// each pattern's characters in ascending order.
    pub fn from_str(input: &str) -> (r: PatternPossibility)
        ensures
            ({
                let f = poss_fold(
                    input@,
                    0,
                    Seq::empty(),
                    Seq::empty(),
                    Seq::empty(),
                    Seq::empty(),
                    Seq::empty(),
                );
                r.one@ == f.0 && r.four@ == f.1 && r.seven@ == f.2 && r.eight@ == f.3 && deep(
                    r.others@,
                ) == f.4
            }),
    {
        let v = chars_of(input);
        let mut wip = PatternPossibility::new();
        let mut pos: usize = 0;
        proof {
            assert(deep(wip.others@) =~= Seq::<Seq<char>>::empty());
            assert(wip.one@ =~= Seq::<char>::empty());
            assert(wip.four@ =~= Seq::<char>::empty());
            assert(wip.seven@ =~= Seq::<char>::empty());
            assert(wip.eight@ =~= Seq::<char>::empty());
        }
        loop
            invariant
                pos <= v@.len(),
                v@ == input@,
                poss_fold(
                    input@,
                    0,
                    Seq::empty(),
                    Seq::empty(),
                    Seq::empty(),
                    Seq::empty(),
                    Seq::empty(),
                ) == poss_fold(
                    input@,
                    pos as int,
                    wip.one@,
                    wip.four@,
                    wip.seven@,
                    wip.eight@,
                    deep(wip.others@),
                ),
            ensures
                ({
                    let f = poss_fold(
                        input@,
                        0,
                        Seq::empty(),
                        Seq::empty(),
                        Seq::empty(),
                        Seq::empty(),
                        Seq::empty(),
                    );
                    wip.one@ == f.0 && wip.four@ == f.1 && wip.seven@ == f.2 && wip.eight@ == f.3
                        && deep(wip.others@) == f.4
                }),
            decreases v@.len() - pos,
        {
            match next_token(&v, pos) {
                None => {
                    break ;
                },
                Some((a, b)) => {
                    let raw = slice_chars(&v, a, b);
                    let t = sort_chars(&raw);
                    let tlen = b - a;
                    if tlen == 2 {
                        wip.one = t;
                    } else if tlen == 3 {
                        wip.seven = t;
                    } else if tlen == 4 {
                        wip.four = t;
                    } else if tlen == 7 {
                        wip.eight = t;
                    } else {
                        proof {
                            assert(deep(wip.others@.push(t)) =~= deep(wip.others@).push(t@));
                        }
                        wip.others.push(t);
                    }
                    pos = b;
                },
            }
        }
        wip
    }
}

/// Index of the first `|` at or after `i`, or the length if there is
/// none.
pub open spec fn bar_pos(s: Seq<char>, i: int) -> int
    decreases s.len() - i,
{
    if i < 0 || i >= s.len() {
        s.len() as int
    } else if s[i] == '|' {
        i
    } else {
        bar_pos(s, i + 1)
    }
}

/// The whitespace-separated tokens of `s` from position `i` on.
pub open spec fn tokens_from(s: Seq<char>, i: int) -> Seq<Seq<char>>
    decreases s.len() - i,
{
    let a = skip_ws(s, i);
    if i < 0 || a >= s.len() || a < i {
        Seq::empty()
    } else {
        let b = token_end(s, a);
        if !(a < b <= s.len()) {
            Seq::empty()
        } else {
            seq![s.subrange(a, b)] + tokens_from(s, b)
        }
    }
}

/// The resolved patterns of one line, and the digits it displays.
pub struct DigitSet {
    pub patterns: Vec<Vec<char>>,
    pub display: Vec<String>,
}

/// The pattern half of a line: everything before the `|`.
pub open spec fn pattern_part(s: Seq<char>) -> Seq<char> {
    s.subrange(0, bar_pos(s, 0))
}

/// The folded possibility fields of the pattern half of a line.
pub open spec fn line_poss(s: Seq<char>) -> (
    Seq<char>,
    Seq<char>,
    Seq<char>,
    Seq<char>,
    Seq<Seq<char>>,
) {
    poss_fold(
        pattern_part(s),
        0,
        Seq::empty(),
        Seq::empty(),
        Seq::empty(),
        Seq::empty(),
        Seq::empty(),
    )
}

impl DigitSet {
    /// Split a `patterns | display` line, resolve the ten digit patterns
    /// from its first half, and keep the displayed digit strings of its
    /// second half.
    pub fn from_pattern(pattern: &String) -> (r: DigitSet)
        requires
            ({
                let f = line_poss(pattern@);
                resolvable(f.4, f.1, f.2)
            }),
        ensures
            ({
                let f = line_poss(pattern@);
                deep(r.patterns@) == resolved_digits(f.4, f.0, f.1, f.2, f.3) && r.display@
                    .map_values(|x: String| x@) == tokens_from(
                    pattern@,
                    bar_pos(pattern@, 0) + 1,
                )
            }),
    {
        let s = pattern.as_str();
        let n = s.unicode_len();
        let mut bar: usize = 0;
        while bar < n && s.get_char(bar) != '|'
            invariant
                0 <= bar <= n,
                n == pattern@.len(),
                s@ == pattern@,
                bar_pos(pattern@, 0) == bar_pos(pattern@, bar as int),
            decreases n - bar,
        {
            bar = bar + 1;
        }
        proof {
            assert(bar_pos(pattern@, 0) == bar);
        }
        let left = s.substring_char(0, bar);
        let poss = PatternPossibility::from_str(left);
        let patterns = poss.to_resolved_array();
        let v = chars_of(s);
        let mut display: Vec<String> = Vec::new();
        let mut pos: usize = if bar < n {
            bar + 1
        } else {
            n
        };
        let ghost start = pos as int;
        proof {
            assert(display@.map_values(|x: String| x@) =~= Seq::<Seq<char>>::empty());
        }
        loop
            invariant
                pos <= v@.len(),
                v@ == pattern@,
                s@ == pattern@,
                tokens_from(pattern@, start) == display@.map_values(|x: String| x@) + tokens_from(
                    pattern@,
                    pos as int,
                ),
            ensures
                display@.map_values(|x: String| x@) == tokens_from(pattern@, start),
            decreases v@.len() - pos,
        {
            match next_token(&v, pos) {
                None => {
                    proof {
                        assert(tokens_from(pattern@, pos as int) =~= Seq::<Seq<char>>::empty());
                        assert(display@.map_values(|x: String| x@) + Seq::<Seq<char>>::empty()
                            =~= display@.map_values(|x: String| x@));
                    }
                    break ;
                },
                Some((a, b)) => {
                    let sub = s.substring_char(a, b);
                    let token = sub.to_owned();
                    proof {
                        assert(display@.push(token).map_values(|x: String| x@) =~= display@
                            .map_values(|x: String| x@).push(token@));
                        assert((display@.map_values(|x: String| x@).push(token@)) + tokens_from(
                            pattern@,
                            b as int,
                        ) =~= display@.map_values(|x: String| x@) + (seq![token@] + tokens_from(
                            pattern@,
                            b as int,
                        )));
                    }
                    display.push(token);
                    pos = b;
                },
            }
        }
        DigitSet { patterns, display }
    }

    /// First digit (by index) whose pattern has the same length as
    /// `number` and shares every one of its segments.
    pub open spec fn spec_digit(pats: Seq<Seq<char>>, number: Seq<char>, n: int) -> Option<int>
        decreases pats.len() - n,
    {
        if n < 0 || n >= pats.len() {
            None
        } else if pats[n].len() == number.len() && pair_matches(number, pats[n], number.len() as int)
            == number.len() {
            Some(n)
        } else {
            Self::spec_digit(pats, number, n + 1)
        }
    }

    /// The digit a displayed pattern denotes, if any.
    pub fn digit_number(&self, number: &String) -> (r: Option<u8>)
        requires
            patterns_small(deep(self.patterns@)),
            self.patterns@.len() <= 10,
            number@.len() <= 0xFFFF,
        ensures
            match r {
                Some(d) => Self::spec_digit(deep(self.patterns@), number@, 0) == Some(d as int),
                None => Self::spec_digit(deep(self.patterns@), number@, 0) is None,
            },
    {
        let numv = chars_of(number.as_str());
        let mut i: usize = 0;
        while i < self.patterns.len()
            invariant
                0 <= i <= self.patterns@.len() <= 10,
                patterns_small(deep(self.patterns@)),
                numv@ == number@,
                number@.len() <= 0xFFFF,
                Self::spec_digit(deep(self.patterns@), number@, 0) == Self::spec_digit(
                    deep(self.patterns@),
                    number@,
                    i as int,
                ),
            decreases self.patterns@.len() - i,
        {
            proof {
                assert(deep(self.patterns@)[i as int] == self.patterns@[i as int]@);
                assert(number@.len() * self.patterns@[i as int]@.len() <= 0xFFFF * 0xFFFF) by (
                nonlinear_arith)
                    requires
                        number@.len() <= 0xFFFF && self.patterns@[i as int]@.len() <= 0xFFFF,
                ;
            }
            if self.patterns[i].len() == numv.len() {
                let mc = match_count(&numv, &self.patterns[i]);
                if mc == numv.len() {
                    return Some(i as u8);
                }
            }
            i = i + 1;
        }
        None
    }

    /// The decimal value the first `n` displayed digits spell.
    pub open spec fn display_value(pats: Seq<Seq<char>>, disp: Seq<Seq<char>>, n: int) -> int
        decreases n,
    {
        if n <= 0 {
            0
        } else {
            Self::display_value(pats, disp, n - 1) * 10 + Self::spec_digit(
                pats,
                disp[n - 1],
                0,
            ).unwrap()
        }
    }

    /// The number on the display, read digit by digit.
    pub fn to_number(&self) -> (r: u64)
        requires
            patterns_small(deep(self.patterns@)),
            self.patterns@.len() <= 10,
            forall|k: int| 0 <= k < self.display@.len() ==> (#[trigger] self.display@[k])@.len()
                <= 0xFFFF,
            forall|k: int| 0 <= k < self.display@.len() ==> Self::spec_digit(
                deep(self.patterns@),
                (#[trigger] self.display@[k])@,
                0,
            ) is Some,
            Self::display_value(
                deep(self.patterns@),
                self.display@.map_values(|x: String| x@),
                self.display@.len() as int,
            ) <= u64::MAX,
        ensures
            r == Self::display_value(
                deep(self.patterns@),
                self.display@.map_values(|x: String| x@),
                self.display@.len() as int,
            ),
    {
        let ghost pats = deep(self.patterns@);
        let ghost disp = self.display@.map_values(|x: String| x@);
        let mut acc: u64 = 0;
        let mut i: usize = 0;
        while i < self.display.len()
            invariant
                0 <= i <= self.display@.len(),
                pats == deep(self.patterns@),
                disp == self.display@.map_values(|x: String| x@),
                patterns_small(pats),
                self.patterns@.len() <= 10,
                forall|k: int| 0 <= k < self.display@.len() ==> (#[trigger] self.display@[k])@.len()
                    <= 0xFFFF,
                forall|k: int| 0 <= k < disp.len() ==> Self::spec_digit(
                    pats,
                    #[trigger] disp[k],
                    0,
                ) is Some,
                Self::display_value(pats, disp, disp.len() as int) <= u64::MAX,
                acc == Self::display_value(pats, disp, i as int),
            decreases self.display@.len() - i,
        {
            proof {
                lemma_display_value_monotone(pats, disp, i + 1, disp.len() as int);
                lemma_display_value_monotone(pats, disp, 0, i as int);
                lemma_spec_digit_range(pats, disp[i as int], 0);
            }
            let d = match self.digit_number(&self.display[i]) {
                Some(d) => d,
                None => {
                    proof {
                        assert(false);
                    }
                    0
                },
            };
            acc = acc * 10 + (d as u64);
            i = i + 1;
        }
        acc
    }
}

/// A found digit index lies within the pattern list.
proof fn lemma_spec_digit_range(pats: Seq<Seq<char>>, number: Seq<char>, n: int)
    ensures
        DigitSet::spec_digit(pats, number, n) is Some ==> n <= DigitSet::spec_digit(
            pats,
            number,
            n,
        ).unwrap() < pats.len(),
        DigitSet::spec_digit(pats, number, n) is Some ==> DigitSet::spec_digit(
            pats,
            number,
            n,
        ).unwrap() >= 0,
    decreases pats.len() - n,
{
    if 0 <= n < pats.len() {
        lemma_spec_digit_range(pats, number, n + 1);
    }
}

/// Reading more digits never shrinks the value.
proof fn lemma_display_value_monotone(pats: Seq<Seq<char>>, disp: Seq<Seq<char>>, i: int, j: int)
    requires
        0 <= i <= j <= disp.len(),
        forall|k: int| 0 <= k < disp.len() ==> DigitSet::spec_digit(
            pats,
            #[trigger] disp[k],
            0,
        ) is Some,
    ensures
        0 <= DigitSet::display_value(pats, disp, i) <= DigitSet::display_value(pats, disp, j),
    decreases j,
{
    if j > 0 {
        lemma_spec_digit_range(pats, disp[j - 1], 0);
        if i == j {
            lemma_display_value_monotone(pats, disp, i - 1, j - 1);
        } else {
            lemma_display_value_monotone(pats, disp, i, j - 1);
        }
    }
}

} // verus!



