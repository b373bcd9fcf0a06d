//! The weight table: a step function from elapsed stake duration to a reward
//! multiplier.
//!
//! Multipliers are fixed-point numbers in units of one tenth, so `15` stands
//! for a factor of 1.5. Tiers are kept in ascending order of threshold, which
//! makes every lookup deterministic.

use vstd::prelude::*;
use crate::DAY;

verus! {

/// How many multiplier units make a factor of one.
pub const WEIGHT_SCALE: u64 = 10;

/// One step of the table: durations up to `threshold` seconds (and above the
/// previous tier's threshold) earn `multiplier`.
#[derive(Clone, Copy, Debug, PartialEq, Eq)]
pub struct WeightTier {
    pub threshold: u64,
    pub multiplier: u64,
}

/// Tiers in ascending order of threshold, and the multiplier for durations
/// beyond every threshold.
#[derive(Clone, Debug)]
pub struct WeightTable {
    pub tiers: Vec<WeightTier>,
    pub default_multiplier: u64,
}

/// The mathematical content of a [`WeightTable`].
#[verifier::ext_equal]
pub struct WeightTableView {
    pub tiers: Seq<WeightTier>,
    pub default_multiplier: u64,
}

impl WeightTableView {
    /// Thresholds strictly ascend, multipliers never decrease along the
    /// tiers nor towards the default, and every multiplier is positive.
    pub open spec fn wf(self) -> bool {
        &&& forall|i: int, j: int|
            0 <= i < j < self.tiers.len() ==> self.tiers[i].threshold < self.tiers[j].threshold
        &&& forall|i: int, j: int|
            0 <= i <= j < self.tiers.len() ==> self.tiers[i].multiplier <= self.tiers[j].multiplier
        &&& forall|i: int|
            0 <= i < self.tiers.len() ==> 0 < #[trigger] self.tiers[i].multiplier
                <= self.default_multiplier
        &&& 0 < self.default_multiplier
    }

    /// The position of the first tier at or after `from` whose threshold is
    /// at least `elapsed`; the number of tiers if there is none.
    pub open spec fn first_covering(self, elapsed: int, from: int) -> int
        decreases self.tiers.len() - from,
    {
        if from < 0 || from >= self.tiers.len() {
            self.tiers.len() as int
        } else if self.tiers[from].threshold >= elapsed {
            from
        } else {
            self.first_covering(elapsed, from + 1)
        }
    }

    /// The multiplier for a stake that has been held for `elapsed` seconds.
    pub open spec fn weight_for(self, elapsed: int) -> u64 {
        let at = self.first_covering(elapsed, 0);
        if at < self.tiers.len() {
            self.tiers[at].multiplier
        } else {
            self.default_multiplier
        }
    }

    /// What `first_covering` finds: no tier between `from` and the result
    /// reaches `elapsed`, and the tier at the result, if any, does.
    pub proof fn lemma_first_covering(self, elapsed: int, from: int)
        requires
            0 <= from <= self.tiers.len(),
        ensures
            from <= self.first_covering(elapsed, from) <= self.tiers.len(),
            forall|k: int|
                from <= k < self.first_covering(elapsed, from) ==> self.tiers[k].threshold
                    < elapsed,
            self.first_covering(elapsed, from) < self.tiers.len() ==> self.tiers[self.first_covering(
                elapsed,
                from,
            )].threshold >= elapsed,
        decreases self.tiers.len() - from,
    {
        if from < self.tiers.len() && self.tiers[from].threshold < elapsed {
            self.lemma_first_covering(elapsed, from + 1);
        }
    }

    /// In a well-formed table the lookup yields the multiplier of the
    /// smallest threshold that is at least `elapsed`, and the default
    /// multiplier exactly when `elapsed` exceeds every threshold.
    pub proof fn lemma_weight_for_smallest_threshold(self, elapsed: int)
        requires
            self.wf(),
        ensures
            (forall|k: int| 0 <= k < self.tiers.len() ==> self.tiers[k].threshold < elapsed)
                ==> self.weight_for(elapsed) == self.default_multiplier,
            forall|i: int|
                0 <= i < self.tiers.len() && self.tiers[i].threshold >= elapsed && (forall|k: int|
                    0 <= k < self.tiers.len() && self.tiers[k].threshold >= elapsed
                        ==> self.tiers[i].threshold <= self.tiers[k].threshold)
                    ==> self.weight_for(elapsed) == self.tiers[i].multiplier,
    {
        self.lemma_first_covering(elapsed, 0);
        let at = self.first_covering(elapsed, 0);
        assert forall|i: int|
            0 <= i < self.tiers.len() && self.tiers[i].threshold >= elapsed && (forall|k: int|
                0 <= k < self.tiers.len() && self.tiers[k].threshold >= elapsed
                    ==> self.tiers[i].threshold <= self.tiers[k].threshold) implies self.weight_for(
            elapsed,
        ) == self.tiers[i].multiplier by {
            assert(at <= i);
            assert(self.tiers[at].threshold >= elapsed);
            assert(self.tiers[i].threshold <= self.tiers[at].threshold);
            assert(at == i);
        }
    }

    /// A longer duration never earns a smaller multiplier.
    pub proof fn lemma_weight_for_monotone(self, shorter: int, longer: int)
        requires
            self.wf(),
            shorter <= longer,
        ensures
            self.weight_for(shorter) <= self.weight_for(longer),
    {
        self.lemma_first_covering(shorter, 0);
        self.lemma_first_covering(longer, 0);
        let a = self.first_covering(shorter, 0);
        let b = self.first_covering(longer, 0);
        if b < self.tiers.len() {
            assert(self.tiers[b].threshold >= shorter);
            assert(a <= b);
        }
    }

    /// Every multiplier that a well-formed table hands out is positive.
    pub proof fn lemma_weight_for_positive(self, elapsed: int)
        requires
            self.wf(),
        ensures
            0 < self.weight_for(elapsed) <= self.default_multiplier,
    {
        self.lemma_first_covering(elapsed, 0);
    }
}

impl View for WeightTable {
    type V = WeightTableView;

    open spec fn view(&self) -> WeightTableView {
        WeightTableView { tiers: self.tiers@, default_multiplier: self.default_multiplier }
    }
}

/// The tiers of the standard table: 1.0 up to 90 days, 1.5 up to 180 days,
/// 2.0 up to 270 days and 2.5 beyond.
pub open spec fn standard_tiers() -> Seq<WeightTier> {
    seq![
        WeightTier { threshold: (90 * DAY) as u64, multiplier: 10 },
        WeightTier { threshold: (180 * DAY) as u64, multiplier: 15 },
        WeightTier { threshold: (270 * DAY) as u64, multiplier: 20 },
        WeightTier { threshold: u64::MAX, multiplier: 25 },
    ]
}

impl WeightTable {
    /// The standard table.
    pub fn standard() -> (table: WeightTable)
        ensures
            table@.wf(),
            table@.tiers == standard_tiers(),
            table@.default_multiplier == 25,
    {
        let mut tiers: Vec<WeightTier> = Vec::new();
        tiers.push(WeightTier { threshold: 90 * DAY, multiplier: 10 });
        tiers.push(WeightTier { threshold: 180 * DAY, multiplier: 15 });
        tiers.push(WeightTier { threshold: 270 * DAY, multiplier: 20 });
        tiers.push(WeightTier { threshold: u64::MAX, multiplier: 25 });
        let table = WeightTable { tiers, default_multiplier: 25 };
        assert(table@.tiers =~= standard_tiers());
        table
    }

    /// A table of the given tiers, if they form a well-formed table.
    pub fn new(tiers: Vec<WeightTier>, default_multiplier: u64) -> (table: Option<WeightTable>)
        ensures
            match table {
                Some(t) => t@.wf() && t@.tiers == tiers@ && t@.default_multiplier
                    == default_multiplier,
                None => !(WeightTableView { tiers: tiers@, default_multiplier }).wf(),
            },
    {
        let table = WeightTable { tiers, default_multiplier };
        if table.is_well_formed() {
            Some(table)
        } else {
            None
        }
    }

    /// Whether the table is well formed.
    pub fn is_well_formed(&self) -> (ok: bool)
        ensures
            ok == self@.wf(),
    {
        if self.default_multiplier == 0 {
            return false;
        }
        let n: usize = self.tiers.len();
        let mut i: usize = 0;
        while i < n
            invariant
                i <= n,
                n == self.tiers@.len(),
                0 < self.default_multiplier,
                forall|a: int, b: int|
                    0 <= a < b < i ==> self.tiers@[a].threshold < self.tiers@[b].threshold,
                forall|a: int, b: int|
                    0 <= a <= b < i ==> self.tiers@[a].multiplier <= self.tiers@[b].multiplier,
                forall|a: int|
                    0 <= a < i ==> 0 < #[trigger] self.tiers@[a].multiplier
                        <= self.default_multiplier,
            decreases n - i,
        {
            let tier = self.tiers[i];
            if tier.multiplier == 0 || tier.multiplier > self.default_multiplier {
                assert(!self@.wf()) by {
                    if self@.wf() {
                        assert(0 < self@.tiers[i as int].multiplier <= self.default_multiplier);
                    }
                }
                return false;
            }
            if i > 0 {
                let before = self.tiers[i - 1];
                if before.threshold >= tier.threshold || before.multiplier > tier.multiplier {
                    assert(!self@.wf()) by {
                        if self@.wf() {
                            assert(self@.tiers[i - 1].threshold < self@.tiers[i as int].threshold);
                            assert(self@.tiers[i - 1].multiplier
                                <= self@.tiers[i as int].multiplier);
                        }
                    }
                    return false;
                }
            }
            i += 1;
        }
        true
    }

    /// The multiplier for a stake that has been held for `elapsed` seconds:
    /// that of the first tier whose threshold is at least `elapsed`, or the
    /// default multiplier if there is no such tier.
    pub fn weight_for(&self, elapsed: u64) -> (multiplier: u64)
        ensures
            multiplier == self@.weight_for(elapsed as int),
    {
        let n: usize = self.tiers.len();
        let mut i: usize = 0;
        while i < n
            invariant
                i <= n,
                n == self.tiers@.len(),
                self@.first_covering(elapsed as int, 0) == self@.first_covering(
                    elapsed as int,
                    i as int,
                ),
            decreases n - i,
        {
            let tier = self.tiers[i];
            if elapsed <= tier.threshold {
                return tier.multiplier;
            }
            i += 1;
        }
        self.default_multiplier
    }
}

} // verus!
