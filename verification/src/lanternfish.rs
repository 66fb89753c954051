//! A population of spawning fish.  Each fish carries a day counter; at
//! zero it resets to six and produces a new fish that starts at eight.
//! The population can be simulated fish by fish, or — much faster — as
//! nine bins counting the fish at each counter value.

use vstd::prelude::*;

verus! {

/// One fish: the days left until it spawns.
#[derive(Clone, Copy)]
pub struct Fish {
    pub days: u32,
}

impl Fish {
    /// A newborn fish, eight days from spawning.
    pub fn new() -> (f: Fish)
        ensures
            f.days == 8,
    {
        Fish { days: 8 }
    }

    /// Advance this fish by one day; true when it spawns today.
    pub fn spawn(&mut self) -> (spawned: bool)
        ensures
            old(self).days == 0 ==> final(self).days == 6 && spawned,
            old(self).days != 0 ==> final(self).days == old(self).days - 1 && !spawned,
    {
        if self.days == 0 {
            self.days = 6;
            return true;
        }
        self.days = self.days - 1;
        return false;
    }
}

/// Number of fish among the first `n` that spawn today.
pub open spec fn zeros_before(a: Seq<Fish>, n: int) -> int
    decreases n,
{
    if n <= 0 {
        0
    } else {
        zeros_before(a, n - 1) + if a[n - 1].days == 0 {
            1int
        } else {
            0int
        }
    }
}

/// The population after one day: every counter steps (zero resets to
/// six), and one newborn at eight joins per fish that spawned.
pub open spec fn tick(a: Seq<Fish>) -> Seq<Fish> {
    a.map_values(
        |f: Fish|
            Fish {
                days: if f.days == 0 {
                    6u32
                } else {
                    (f.days - 1) as u32
                },
            },
    ) + Seq::new(zeros_before(a, a.len() as int) as nat, |i: int| Fish { days: 8 })
}

proof fn lemma_zeros_bound(a: Seq<Fish>, n: int)
    ensures
        0 <= zeros_before(a, n) <= (if n >= 0 {
            n
        } else {
            0
        }),
    decreases n,
{
    if n > 0 {
        lemma_zeros_bound(a, n - 1);
    }
}

/// Advance the whole population by one day, appending the newborn fish.
pub fn run_day(fishes: &mut Vec<Fish>) -> (spawned: usize)
    requires
        old(fishes)@.len() * 2 <= usize::MAX,
    ensures
        final(fishes)@ == tick(old(fishes)@),
        spawned == zeros_before(old(fishes)@, old(fishes)@.len() as int),
{
    let ghost orig = fishes@;
    let n = fishes.len();
    let mut spawned: usize = 0;
    let mut i: usize = 0;
    while i < n
        invariant
            0 <= i <= n,
            n == orig.len(),
            fishes@.len() == n,
            spawned == zeros_before(orig, i as int),
            spawned <= i,
            forall|k: int| 0 <= k < i ==> #[trigger] fishes@[k] == (Fish {
                days: if orig[k].days == 0 {
                    6u32
                } else {
                    (orig[k].days - 1) as u32
                },
            }),
            forall|k: int| i <= k < n ==> #[trigger] fishes@[k] == orig[k],
        decreases n - i,
    {
        let mut f = fishes[i];
        if f.spawn() {
            spawned = spawned + 1;
        }
        fishes.set(i, f);
        i = i + 1;
    }
    let mut born: usize = 0;
    proof {
        lemma_zeros_bound(orig, n as int);
    }
    while born < spawned
        invariant
            0 <= born <= spawned <= n == orig.len(),
            n * 2 <= usize::MAX,
            spawned == zeros_before(orig, n as int),
            fishes@.len() == n + born,
            forall|k: int| 0 <= k < n ==> #[trigger] fishes@[k] == (Fish {
                days: if orig[k].days == 0 {
                    6u32
                } else {
                    (orig[k].days - 1) as u32
                },
            }),
            forall|k: int| n <= k < n + born ==> #[trigger] fishes@[k] == (Fish { days: 8 }),
        decreases spawned - born,
    {
        fishes.push(Fish::new());
        born = born + 1;
    }
    proof {
        assert(fishes@ =~= tick(orig));
    }
    spawned
}

/// Nine bins are enough to track the population: bin `d` counts the fish
/// that are `d` days from spawning.
pub open spec fn bins_ok(b: Seq<u64>) -> bool {
    b.len() == 9
}

/// One day over the binned population: every count moves down a day, the
/// spawning fish restart at six, and as many newborns start at eight.
pub open spec fn bin_step(b: Seq<u64>) -> Seq<int> {
    seq![
        b[1] as int,
        b[2] as int,
        b[3] as int,
        b[4] as int,
        b[5] as int,
        b[6] as int,
        b[7] as int + b[0] as int,
        b[8] as int,
        b[0] as int,
    ]
}

/// Advance the binned population by one day.
pub fn run_day_binned(bins: &mut Vec<u64>) -> (spawning: u64)
    requires
        bins_ok(old(bins)@),
        old(bins)@[7] + old(bins)@[0] <= u64::MAX,
    ensures
        bins_ok(final(bins)@),
        spawning == old(bins)@[0],
        forall|k: int| 0 <= k < 9 ==> #[trigger] final(bins)@[k] as int == bin_step(old(bins)@)[k],
{
    let spawning = bins.remove(0);
    let seventh = bins[6];
    bins.set(6, seventh + spawning);
    bins.push(spawning);
    spawning
}

/// Total fish across the bins.
pub open spec fn bin_total(b: Seq<u64>, n: int) -> int
    decreases n,
{
    if n <= 0 {
        0
    } else {
        bin_total(b, n - 1) + b[n - 1]
    }
}

/// Count the whole binned population.
pub fn total_count(bins: &Vec<u64>) -> (total: u64)
    requires
        bin_total(bins@, bins@.len() as int) <= u64::MAX,
    ensures
        total == bin_total(bins@, bins@.len() as int),
{
    let mut total: u64 = 0;
    let mut i: usize = 0;
    while i < bins.len()
        invariant
            0 <= i <= bins@.len(),
            bin_total(bins@, bins@.len() as int) <= u64::MAX,
            total == bin_total(bins@, i as int),
        decreases bins@.len() - i,
    {
        proof {
            lemma_bin_total_monotone(bins@, i + 1, bins@.len() as int);
            lemma_bin_total_monotone(bins@, 0, i as int);
        }
        total = total + bins[i];
        i = i + 1;
    }
    total
}

proof fn lemma_bin_total_monotone(b: Seq<u64>, i: int, j: int)
    requires
        0 <= i <= j,
    ensures
        0 <= bin_total(b, i) <= bin_total(b, j),
    decreases j,
{
    if j > 0 {
        if i == j {
            lemma_bin_total_monotone(b, i - 1, j - 1);
        } else {
            lemma_bin_total_monotone(b, i, j - 1);
        }
    }
}

} // verus!
