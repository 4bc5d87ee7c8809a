//! How much memory worlds take, and whether that is within a budget.

use crate::number::{capped, capped_product};
use crate::text::{decimal, decimal_text, join3};
use crate::world::position::DimSize;
use vstd::prelude::*;

verus! {

/// The bytes of a mebibyte.
pub const MEBIBYTE: usize = 1048576;

/// What was counted so far.
#[derive(Clone, Copy, Debug, PartialEq, Eq, Structural)]
pub struct PerfCounters {
    pub verbose: bool,
    pub world_clones: usize,
    pub world_clone_bytes: usize,
    pub world_alloc_bytes: usize,
    pub peak_rss_bytes: usize,
    /// The budget, or zero where there is none.
    pub budget_bytes: usize,
    pub budget_exceeded: bool,
}

/// Nothing was counted.
pub open spec fn fresh_counters() -> PerfCounters {
    PerfCounters {
        verbose: false,
        world_clones: 0,
        world_clone_bytes: 0,
        world_alloc_bytes: 0,
        peak_rss_bytes: 0,
        budget_bytes: 0,
        budget_exceeded: false,
    }
}

impl Default for PerfCounters {
    fn default() -> (counters: Self)
        ensures
            counters == fresh_counters(),
    {
        PerfCounters {
            verbose: false,
            world_clones: 0,
            world_clone_bytes: 0,
            world_alloc_bytes: 0,
            peak_rss_bytes: 0,
            budget_bytes: 0,
            budget_exceeded: false,
        }
    }
}

/// The number of bytes of a world whose blocks take `block_bytes` each.
pub open spec fn bytes_of_world(size: DimSize, block_bytes: usize) -> nat {
    capped(capped(capped((size.0 * size.1) as nat) * size.2 as nat) * block_bytes as nat)
}

/// The number of bytes of a world whose blocks take `block_bytes` each.
pub fn world_bytes(size: DimSize, block_bytes: usize) -> (bytes: usize)
    ensures
        bytes == bytes_of_world(size, block_bytes),
{
    capped_product(capped_product(capped_product(size.0, size.1), size.2), block_bytes)
}

/// A sum that starts again from zero beyond the last number in range.
pub open spec fn wrapped_sum(left: usize, right: usize) -> usize {
    (if left + right > usize::MAX {
        left + right - usize::MAX - 1
    } else {
        left + right
    }) as usize
}

fn add_wrapped(left: usize, right: usize) -> (sum: usize)
    ensures
        sum == wrapped_sum(left, right),
{
    if left > usize::MAX - right {
        left - (usize::MAX - right) - 1
    } else {
        left + right
    }
}

/// A stage that used more memory than the budget has.
#[derive(Clone, Debug)]
pub struct BudgetExceeded {
    pub stage: String,
    pub rss: usize,
    pub budget: usize,
}

/// The message of a stage that used too much memory.
pub open spec fn over_budget_chars(error: BudgetExceeded) -> Seq<char> {
    "memory budget exceeded during "@ + error.stage@ + (": RSS "@ + decimal((error.rss / MEBIBYTE) as nat) + (
    " MiB > budget "@ + decimal((error.budget / MEBIBYTE) as nat)
        + " MiB; reduce the design or raise --memory-budget-mb"@))
}

impl BudgetExceeded {
    /// The failure in words.
    pub fn message(&self) -> (text: String)
        ensures
            text@ == over_budget_chars(*self),
    {
        let own = decimal_text(self.rss / MEBIBYTE);
        let most = decimal_text(self.budget / MEBIBYTE);
        let end = join3(" MiB > budget ", most.as_str(), " MiB; reduce the design or raise --memory-budget-mb");
        let middle = join3(": RSS ", own.as_str(), end.as_str());
        join3("memory budget exceeded during ", self.stage.as_str(), middle.as_str())
    }
}

/// Whether more memory is used than the budget has.
pub open spec fn is_over(counters: PerfCounters, rss: Option<usize>) -> bool {
    counters.budget_bytes != 0 && (rss matches Some(bytes) && bytes > counters.budget_bytes)
}

/// What is counted once a budget was checked.
pub open spec fn after_check(counters: PerfCounters, rss: Option<usize>) -> PerfCounters {
    match rss {
        Some(bytes) => if counters.budget_bytes == 0 {
            counters
        } else {
            PerfCounters {
                peak_rss_bytes: if bytes > counters.peak_rss_bytes {
                    bytes
                } else {
                    counters.peak_rss_bytes
                },
                budget_exceeded: counters.budget_exceeded || bytes > counters.budget_bytes,
                ..counters
            }
        },
        None => counters,
    }
}

impl PerfCounters {
    pub fn set_verbose(&mut self, enabled: bool)
        ensures
            *final(self) == (PerfCounters { verbose: enabled, ..*old(self) }),
    {
        self.verbose = enabled;
    }

    pub fn set_budget_mb(&mut self, megabytes: usize)
        ensures
            *final(self) == (PerfCounters {
                budget_bytes: capped((megabytes * MEBIBYTE) as nat) as usize,
                ..*old(self)
            }),
    {
        self.budget_bytes = capped_product(megabytes, MEBIBYTE);
    }

    /// Counts a world that is made.
    pub fn record_world_alloc(&mut self, size: DimSize, block_bytes: usize)
        ensures
            *final(self) == (PerfCounters {
                world_alloc_bytes: wrapped_sum(
                    old(self).world_alloc_bytes,
                    bytes_of_world(size, block_bytes) as usize,
                ),
                ..*old(self)
            }),
    {
        self.world_alloc_bytes = add_wrapped(self.world_alloc_bytes, world_bytes(size, block_bytes));
    }

    /// Counts a world that is copied.
    pub fn record_world_clone(&mut self, size: DimSize, block_bytes: usize)
        ensures
            *final(self) == (PerfCounters {
                world_clones: wrapped_sum(old(self).world_clones, 1),
                world_clone_bytes: wrapped_sum(
                    old(self).world_clone_bytes,
                    bytes_of_world(size, block_bytes) as usize,
                ),
                ..*old(self)
            }),
    {
        self.world_clones = add_wrapped(self.world_clones, 1);
        self.world_clone_bytes = add_wrapped(self.world_clone_bytes, world_bytes(size, block_bytes));
    }

    pub fn world_clone_count(&self) -> (count: usize)
        ensures
            count == self.world_clones,
    {
        self.world_clones
    }

    pub fn verbose(&self) -> (verbose: bool)
        ensures
            verbose == self.verbose,
    {
        self.verbose
    }

    pub fn budget_bytes(&self) -> (bytes: usize)
        ensures
            bytes == self.budget_bytes,
    {
        self.budget_bytes
    }

    pub fn world_clone_bytes(&self) -> (bytes: usize)
        ensures
            bytes == self.world_clone_bytes,
    {
        self.world_clone_bytes
    }

    pub fn world_alloc_bytes(&self) -> (bytes: usize)
        ensures
            bytes == self.world_alloc_bytes,
    {
        self.world_alloc_bytes
    }

    pub fn peak_rss_bytes(&self) -> (bytes: usize)
        ensures
            bytes == self.peak_rss_bytes,
    {
        self.peak_rss_bytes
    }

    pub fn budget_exceeded(&self) -> (exceeded: bool)
        ensures
            exceeded == self.budget_exceeded,
    {
        self.budget_exceeded
    }

    /// Starts a stage: what was counted so far is kept.
    pub fn stage(&self, name: &str) -> (guard: StageGuard)
        ensures
            guard.name@ == name@,
            guard.clones == self.world_clones,
            guard.clone_bytes == self.world_clone_bytes,
            guard.alloc_bytes == self.world_alloc_bytes,
    {
        StageGuard {
            name: name.to_owned(),
            clones: self.world_clones,
            clone_bytes: self.world_clone_bytes,
            alloc_bytes: self.world_alloc_bytes,
        }
    }

    pub fn note_budget_exceeded(&mut self)
        ensures
            *final(self) == (PerfCounters { budget_exceeded: true, ..*old(self) }),
    {
        self.budget_exceeded = true;
    }

    /// Forgets everything that was counted and set.
    pub fn reset_for_tests(&mut self)
        ensures
            *final(self) == fresh_counters(),
    {
        *self = PerfCounters::default();
    }

    /// Notes how much memory is used, where that is known.
    pub fn refresh_peak_rss(&mut self, rss: Option<usize>) -> (known: Option<usize>)
        ensures
            known == rss,
            *final(self) == (match rss {
                Some(bytes) => PerfCounters {
                    peak_rss_bytes: if bytes > old(self).peak_rss_bytes {
                        bytes
                    } else {
                        old(self).peak_rss_bytes
                    },
                    ..*old(self)
                },
                None => *old(self),
            }),
    {
        if let Some(bytes) = rss {
            if bytes > self.peak_rss_bytes {
                self.peak_rss_bytes = bytes;
            }
        }
        rss
    }

    /// Whether more memory is used than the budget has.
    pub fn rss_over_budget(&self, rss: Option<usize>) -> (over: bool)
        ensures
            over == is_over(*self, rss),
    {
        if self.budget_bytes == 0 {
            return false;
        }
        match rss {
            Some(bytes) => bytes > self.budget_bytes,
            None => false,
        }
    }

    /// Fails where more memory is used than the budget has.
    pub fn check_budget(&mut self, stage: &str, rss: Option<usize>) -> (result: Result<(), BudgetExceeded>)
        ensures
            *final(self) == after_check(*old(self), rss),
            match result {
                Ok(_) => !is_over(*old(self), rss),
                Err(error) => {
                    &&& is_over(*old(self), rss)
                    &&& error.stage@ == stage@
                    &&& error.rss == rss->0
                    &&& error.budget == old(self).budget_bytes
                },
            },
    {
        let budget: usize = self.budget_bytes;
        if budget == 0 {
            return Ok(());
        }
        let bytes: usize = match self.refresh_peak_rss(rss) {
            None => return Ok(()),
            Some(bytes) => bytes,
        };
        if bytes > budget {
            self.note_budget_exceeded();
            return Err(BudgetExceeded { stage: stage.to_owned(), rss: bytes, budget });
        }
        Ok(())
    }

    /// Whether there is something to tell in the end.
    pub fn has_summary(&self) -> (told: bool)
        ensures
            told == (self.verbose || self.budget_bytes != 0 || self.budget_exceeded),
    {
        self.verbose || self.budget_bytes != 0 || self.budget_exceeded
    }
}

/// A stage, with what was counted before it.
#[derive(Clone, Debug)]
pub struct StageGuard {
    pub name: String,
    pub clones: usize,
    pub clone_bytes: usize,
    pub alloc_bytes: usize,
}

/// How much a number has grown, or none where it has not.
pub open spec fn growth(before: usize, after: usize) -> usize {
    if after > before {
        (after - before) as usize
    } else {
        0
    }
}

impl StageGuard {
    /// What was counted since the stage began: copies, their bytes, and the
    /// bytes of worlds that were made.
    pub fn spent(&self, counters: &PerfCounters) -> (spent: (usize, usize, usize))
        ensures
            spent.0 == growth(self.clones, counters.world_clones),
            spent.1 == growth(self.clone_bytes, counters.world_clone_bytes),
            spent.2 == growth(self.alloc_bytes, counters.world_alloc_bytes),
    {
        (
            counters.world_clones.saturating_sub(self.clones),
            counters.world_clone_bytes.saturating_sub(self.clone_bytes),
            counters.world_alloc_bytes.saturating_sub(self.alloc_bytes),
        )
    }
}

} // verus!
