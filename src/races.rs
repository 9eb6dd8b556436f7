//! Toy boat races: holding the button for `h` milliseconds of a race lasting
//! `time` moves the boat `h * (time - h)` millimetres.
use vstd::prelude::*;

verus! {

pub struct Race {
    pub time: u64,
    pub dist: u64,
}

/// How many hold times below `n` beat the record `dist` in a race of `time`.
pub open spec fn wins_below(time: int, dist: int, n: int) -> nat
    decreases n,
{
    if n <= 0 {
        0
    } else {
        wins_below(time, dist, n - 1) + if (n - 1) * (time - (n - 1)) > dist {
            1nat
        } else {
            0nat
        }
    }
}

/// How many whole hold times, from none to the whole race, beat the record.
pub open spec fn ways(r: Race) -> nat {
    wins_below(r.time as int, r.dist as int, r.time + 1)
}

proof fn lemma_wins_below_bound(time: int, dist: int, n: int)
    requires
        n >= 1,
        dist >= 0,
    ensures
        wins_below(time, dist, n) <= n - 1,
    decreases n,
{
    if n > 1 {
        lemma_wins_below_bound(time, dist, n - 1);
    } else {
        assert((n - 1) * (time - (n - 1)) == 0) by (nonlinear_arith)
            requires
                n == 1,
        ;
        assert(wins_below(time, dist, 0) == 0);
    }
}

impl Race {
    /// The number of hold times that beat the record distance.
    pub fn ways_to_win(&self) -> (r: u64)
        ensures
            r == ways(*self),
    {
        let mut count: u64 = 0;
        let mut h: u64 = 0;
        while h <= self.time
            invariant
                h <= self.time + 1,
                count == wins_below(self.time as int, self.dist as int, h as int),
                h >= 1 ==> count <= h - 1,
            decreases self.time + 1 - h,
        {
            proof {
                assert(h * (self.time - h) <= u64::MAX * u64::MAX) by (nonlinear_arith)
                    requires
                        h <= self.time <= u64::MAX,
                ;
            }
            let travelled: u128 = (h as u128) * ((self.time - h) as u128);
            proof {
                if h >= 1 {
                    lemma_wins_below_bound(self.time as int, self.dist as int, h as int);
                }
                if h == 0 {
                    assert(0 * (self.time - 0) == 0);
                }
            }
            if travelled > self.dist as u128 {
                count = count + 1;
            }
            if h == self.time {
                return count;
            }
            h = h + 1;
        }
        count
    }
}

/// The product of the ways to win of each race.
pub open spec fn ways_product(races: Seq<Race>) -> int
    decreases races.len(),
{
    if races.len() == 0 {
        1
    } else {
        ways_product(races.drop_last()) * ways(races.last())
    }
}

pub struct Puzzle {
    pub races: Vec<Race>,
}

impl Puzzle {
    pub fn load_sample_pt1() -> (r: Self)
        ensures
            r.races@ == seq![Race { time: 7, dist: 9 }, Race { time: 15, dist: 40 }, Race { time: 30, dist: 200 }],
    {
        Self {
            races: vec![Race { time: 7, dist: 9 }, Race { time: 15, dist: 40 }, Race { time: 30, dist: 200 }],
        }
    }

    pub fn load_sample_pt2() -> (r: Self)
        ensures
            r.races@ == seq![Race { time: 71530, dist: 940200 }],
    {
        Self { races: vec![Race { time: 71530, dist: 940200 }] }
    }

    pub fn load_input_pt1() -> (r: Self)
        ensures
            r.races@ == seq![
                Race { time: 47, dist: 282 },
                Race { time: 70, dist: 1079 },
                Race { time: 75, dist: 1147 },
                Race { time: 66, dist: 1062 },
            ],
    {
        Self {
            races: vec![
                Race { time: 47, dist: 282 },
                Race { time: 70, dist: 1079 },
                Race { time: 75, dist: 1147 },
                Race { time: 66, dist: 1062 },
            ],
        }
    }

    pub fn load_input_pt2() -> (r: Self)
        ensures
            r.races@ == seq![Race { time: 47707566, dist: 282107911471062 }],
    {
        Self { races: vec![Race { time: 47707566, dist: 282107911471062 }] }
    }

    /// The product of the ways to win of all races.
    pub fn ways_to_win(&self) -> (r: u64)
        requires
            forall|k: int| 0 <= k <= self.races@.len() ==> #[trigger] ways_product(self.races@.take(k)) <= u64::MAX,
        ensures
            r == ways_product(self.races@),
    {
        let mut acc: u64 = 1;
        let mut k: usize = 0;
        assert(self.races@.take(0) == Seq::<Race>::empty());
        while k < self.races.len()
            invariant
                0 <= k <= self.races@.len(),
                forall|k: int| 0 <= k <= self.races@.len() ==> #[trigger] ways_product(self.races@.take(k)) <= u64::MAX,
                acc == ways_product(self.races@.take(k as int)),
            decreases self.races@.len() - k,
        {
            let w = self.races[k].ways_to_win();
            proof {
                assert(self.races@.take(k as int + 1).drop_last() == self.races@.take(k as int));
                assert(ways_product(self.races@.take(k as int + 1)) <= u64::MAX);
            }
            acc = acc * w;
            k = k + 1;
        }
        assert(self.races@.take(k as int) == self.races@);
        acc
    }
}

} // verus!
