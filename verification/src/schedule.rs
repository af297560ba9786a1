//! The global schedule: how many superbatches positions are worth, where the plan and a session
//! end, and how far a superbatch lies along the plan.

use crate::config::{
    BATCHES_PER_SUPERBATCH, BATCH_SIZE, FILTER_KEEP_FRAC_MILLI, MAX_SUPERBATCH,
    PASS_FRACTION_PER_FILE_MILLI, SAVE_RATE, TOTAL_PASSES_MILLI,
};
use crate::counts::{corpus, corpus_positions};
use vstd::prelude::*;

verus! {

/// The largest fraction, in thousandths, that the schedule computes with.
pub const MAX_MILLI: u64 = 1_000_000_000;

/// The whole number nearest to `num / den`, halves rounded up.
pub open spec fn nearest(num: nat, den: nat) -> nat {
    (2 * num + den) / (2 * den)
}

/// Positions that one superbatch consumes.
pub open spec fn positions_per_superbatch() -> nat {
    BATCHES_PER_SUPERBATCH as nat * BATCH_SIZE as nat
}

/// The superbatches that `positions` are worth, of which the share `passes_milli` is consumed and
/// the share `keep_milli` survives the filter, both in thousandths.
pub open spec fn superbatches(positions: nat, passes_milli: nat, keep_milli: nat) -> nat {
    nearest(positions * passes_milli * keep_milli, 1_000_000 * positions_per_superbatch())
}

/// The last superbatch of a plan of `passes_milli` thousandths of a pass over `corpus` positions.
pub open spec fn plan_end_of(corpus: nat, passes_milli: nat) -> nat {
    let n = superbatches(corpus, passes_milli, FILTER_KEEP_FRAC_MILLI as nat);
    if n < 1 {
        1
    } else {
        n
    }
}

/// The superbatches of a new session over files with `passed` positions.
pub open spec fn budget_of(passed: nat) -> nat {
    let n = superbatches(
        passed,
        PASS_FRACTION_PER_FILE_MILLI as nat,
        FILTER_KEEP_FRAC_MILLI as nat,
    );
    if n < 1 {
        1
    } else if n > MAX_SUPERBATCH {
        MAX_SUPERBATCH as nat
    } else {
        n
    }
}

/// The last superbatch of a new session that starts at `start` and has `budget` superbatches.
pub open spec fn stop_of(start: nat, budget: nat, global_end: nat) -> nat {
    if start - 1 + budget < global_end {
        (start - 1 + budget) as nat
    } else {
        global_end
    }
}

/// The number of steps from the first superbatch of a plan to its last, at least one.
pub open spec fn taper_steps(final_superbatch: nat) -> nat {
    if final_superbatch < 2 {
        1
    } else {
        (final_superbatch - 1) as nat
    }
}

/// How many of these steps lie before `superbatch`, at most all of them.
pub open spec fn taper_done(superbatch: nat, final_superbatch: nat) -> nat {
    let done = if superbatch < 1 {
        0
    } else {
        (superbatch - 1) as nat
    };
    if done > taper_steps(final_superbatch) {
        taper_steps(final_superbatch)
    } else {
        done
    }
}

/// How often a session that ends at `end_superbatch` saves.
pub open spec fn save_rate_of(end_superbatch: nat) -> nat {
    if end_superbatch < 1 {
        1
    } else if end_superbatch < SAVE_RATE {
        end_superbatch
    } else {
        SAVE_RATE as nat
    }
}

/// Superbatches with the size of a superbatch worked out.
pub proof fn lemma_superbatches(positions: nat, passes_milli: nat, keep_milli: nat)
    ensures
        positions_per_superbatch() == 100_007_936,
        superbatches(positions, passes_milli, keep_milli) == (2 * (positions * passes_milli
            * keep_milli) + 100_007_936_000_000) / 200_015_872_000_000,
{
    assert(positions_per_superbatch() == 100_007_936) by {
        assert(6104 * 16_384 == 100_007_936) by (nonlinear_arith);
    }
    let num = positions * passes_milli * keep_milli;
    let den = 1_000_000 * positions_per_superbatch();
    assert((2 * num + den) / (2 * den) == (2 * num + 100_007_936_000_000) / 200_015_872_000_000);
}

/// The superbatches of one full pass over positions that all survive the filter.
pub proof fn lemma_one_pass(positions: nat)
    ensures
        superbatches(positions, 1000, 1000) == (2 * positions + 100_007_936) / 200_015_872,
{
    lemma_superbatches(positions, 1000, 1000);
    let x = 2 * positions + 100_007_936;
    vstd::arithmetic::div_mod::lemma_div_multiples_vanish_quotient(
        1_000_000,
        x as int,
        200_015_872,
    );
}

/// A session makes one pass over its positions: rounded up it never trains more than half a
/// superbatch beyond them, unless that is less than one superbatch, and rounded down it never
/// leaves out more than that, unless the cap cuts it short.
pub proof fn law_budget_is_one_pass(passed: nat)
    ensures
        1 <= budget_of(passed) <= MAX_SUPERBATCH,
        budget_of(passed) > 1 ==> 2 * (budget_of(passed) * 100_007_936) <= 2 * passed
            + 100_007_936,
        budget_of(passed) < MAX_SUPERBATCH ==> 2 * passed < 2 * (budget_of(passed) * 100_007_936)
            + 100_007_936,
{
    lemma_one_pass(passed);
}

/// Positions for one superbatch more make the session one superbatch longer, from half a
/// superbatch of positions up to the cap.
pub proof fn law_budget_follows_positions(passed: nat)
    requires
        2 * passed >= 100_007_936,
        budget_of(passed) < MAX_SUPERBATCH,
    ensures
        budget_of(passed + 100_007_936) == budget_of(passed) + 1,
{
    lemma_one_pass(passed);
    lemma_one_pass(passed + 100_007_936);
}

/// A plan makes its passes over the corpus, to within half a superbatch, unless that is less than
/// one superbatch.
pub proof fn law_plan_makes_its_passes(corpus: nat, passes_milli: nat)
    ensures
        plan_end_of(corpus, passes_milli) >= 1,
        plan_end_of(corpus, passes_milli) > 1 ==> 200_015_872_000_000 * plan_end_of(
            corpus,
            passes_milli,
        ) <= 2 * (corpus * passes_milli * 1000) + 100_007_936_000_000,
        2 * (corpus * passes_milli * 1000) < 200_015_872_000_000 * plan_end_of(
            corpus,
            passes_milli,
        ) + 100_007_936_000_000,
{
    lemma_superbatches(corpus, passes_milli, 1000);
}

/// A session stops with its budget or with the plan, whichever comes first.
pub proof fn law_session_stop(start: nat, budget: nat, global_end: nat)
    requires
        start >= 1,
    ensures
        stop_of(start, budget, global_end) <= global_end,
        stop_of(start, budget, global_end) <= start - 1 + budget,
        stop_of(start, budget, global_end) == global_end || stop_of(start, budget, global_end)
            == start - 1 + budget,
{
}

/// The superbatches that `positions` are worth, or `usize::MAX` where they do not fit.
pub fn superbatches_for(positions: u64, passes_milli: u64, keep_milli: u64) -> (n: usize)
    requires
        passes_milli <= MAX_MILLI,
        keep_milli <= MAX_MILLI,
    ensures
        n == if superbatches(positions as nat, passes_milli as nat, keep_milli as nat)
            <= usize::MAX {
            superbatches(positions as nat, passes_milli as nat, keep_milli as nat)
        } else {
            usize::MAX as nat
        },
        200_015_872_000_000 * n <= 2 * (positions * passes_milli * keep_milli)
            + 100_007_936_000_000,
        n < usize::MAX ==> 2 * (positions * passes_milli * keep_milli) < 200_015_872_000_000 * n
            + 100_007_936_000_000,
{
    proof {
        lemma_superbatches(positions as nat, passes_milli as nat, keep_milli as nat);
    }
    let den: u128 = 1_000_000 * (BATCHES_PER_SUPERBATCH as u128 * BATCH_SIZE as u128);
    proof {
        assert(positions * passes_milli <= 0xffff_ffff_ffff_ffff * 1_000_000_000)
            by (nonlinear_arith)
            requires
                positions <= 0xffff_ffff_ffff_ffff,
                passes_milli <= 1_000_000_000,
        ;
        assert((positions * passes_milli) * keep_milli <= (0xffff_ffff_ffff_ffff * 1_000_000_000)
            * 1_000_000_000) by (nonlinear_arith)
            requires
                0 <= positions * passes_milli <= 0xffff_ffff_ffff_ffff * 1_000_000_000,
                keep_milli <= 1_000_000_000,
        ;
    }
    let num: u128 = positions as u128 * passes_milli as u128 * keep_milli as u128;
    let n: u128 = (2 * num + den) / (2 * den);
    if n > usize::MAX as u128 {
        usize::MAX
    } else {
        n as usize
    }
}

/// The last superbatch of a plan, or `usize::MAX` where it does not fit.
pub fn plan_end(corpus: u64, passes_milli: u64) -> (end: usize)
    requires
        passes_milli <= MAX_MILLI,
    ensures
        end == if plan_end_of(corpus as nat, passes_milli as nat) <= usize::MAX {
            plan_end_of(corpus as nat, passes_milli as nat)
        } else {
            usize::MAX as nat
        },
        end >= 1,
        end > 1 ==> 200_015_872_000_000 * end <= 2 * (corpus * passes_milli * 1000)
            + 100_007_936_000_000,
        end < usize::MAX ==> 2 * (corpus * passes_milli * 1000) < 200_015_872_000_000 * end
            + 100_007_936_000_000,
{
    let n: usize = superbatches_for(corpus, passes_milli, FILTER_KEEP_FRAC_MILLI);
    if n < 1 {
        1
    } else {
        n
    }
}

/// The last superbatch of the whole plan.
pub fn global_end() -> (end: usize)
    ensures
        end == plan_end_of(corpus(), TOTAL_PASSES_MILLI as nat),
        end == 2188,
{
    proof {
        lemma_one_pass(218_849_949_380);
    }
    plan_end(corpus_positions(), TOTAL_PASSES_MILLI)
}

/// The superbatches of a new session over files with `passed` positions.
pub fn session_budget(passed: u64) -> (budget: usize)
    ensures
        budget == budget_of(passed as nat),
        1 <= budget <= 5000,
        budget > 1 ==> 200_015_872 * budget <= 2 * passed + 100_007_936,
        budget < 5000 ==> 2 * passed < 200_015_872 * budget + 100_007_936,
{
    proof {
        law_budget_is_one_pass(passed as nat);
    }
    let n: usize = superbatches_for(passed, PASS_FRACTION_PER_FILE_MILLI, FILTER_KEEP_FRAC_MILLI);
    if n < 1 {
        1
    } else if n > MAX_SUPERBATCH {
        MAX_SUPERBATCH
    } else {
        n
    }
}

/// The last superbatch of a new session.
pub fn session_stop(start: usize, budget: usize, global_end: usize) -> (stop: usize)
    requires
        start >= 1,
    ensures
        stop == stop_of(start as nat, budget as nat, global_end as nat),
        stop <= global_end,
        stop <= start - 1 + budget,
        stop == global_end || stop == start - 1 + budget,
{
    if start - 1 >= global_end || budget >= global_end - (start - 1) {
        global_end
    } else {
        start - 1 + budget
    }
}

/// How far `superbatch` lies along a plan that ends at `final_superbatch`: the steps done and the
/// steps in all, whose quotient runs from zero to one.
pub fn taper_progress(superbatch: usize, final_superbatch: usize) -> (t: (usize, usize))
    ensures
        t.0 == taper_done(superbatch as nat, final_superbatch as nat),
        t.1 == taper_steps(final_superbatch as nat),
        t.1 == final_superbatch - 1 || (t.1 == 1 && final_superbatch < 2),
        t.0 <= t.1,
        superbatch == 0 ==> t.0 == 0,
        superbatch >= 1 ==> t.0 <= superbatch - 1 && (t.0 == superbatch - 1 || t.0 == t.1),
{
    let steps: usize = if final_superbatch < 2 { 1 } else { final_superbatch - 1 };
    let done: usize = if superbatch < 1 { 0 } else { superbatch - 1 };
    if done > steps {
        (steps, steps)
    } else {
        (done, steps)
    }
}

/// How often a session that ends at `end_superbatch` saves.
pub fn save_rate(end_superbatch: usize) -> (rate: usize)
    ensures
        rate == save_rate_of(end_superbatch as nat),
        1 <= rate <= SAVE_RATE,
        end_superbatch >= 1 ==> rate <= end_superbatch,
        rate == SAVE_RATE || rate == end_superbatch || end_superbatch == 0,
        end_superbatch == 0 ==> rate == 1,
{
    let rate: usize = if end_superbatch < SAVE_RATE { end_superbatch } else { SAVE_RATE };
    if rate < 1 {
        1
    } else {
        rate
    }
}

}
