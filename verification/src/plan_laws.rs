//! What holds of the plan as a whole, however it is split into sessions.

use crate::config::{
    FILTER_KEEP_FRAC_MILLI, MAX_SUPERBATCH, POSITION_COUNTS, SAVE_RATE,
};
use crate::counts::{corpus, lemma_corpus_size};
use crate::schedule::{
    budget_of, lemma_one_pass, lemma_superbatches, nearest, plan_end_of, positions_per_superbatch,
    save_rate_of, stop_of, superbatches, taper_done, taper_steps,
};
use vstd::prelude::*;

verus! {

/// The sum of a list of numbers.
pub open spec fn sum(s: Seq<nat>) -> nat
    decreases s.len(),
{
    if s.len() == 0 {
        0
    } else {
        sum(s.drop_last()) + s.last()
    }
}

/// The last superbatch trained after one session for each of `budgets`, from a fresh start, each
/// session resuming behind the one before it.
pub open spec fn trained_after(budgets: Seq<nat>, global_end: nat) -> nat
    decreases budgets.len(),
{
    if budgets.len() == 0 {
        0
    } else {
        stop_of(
            trained_after(budgets.drop_last(), global_end) + 1,
            budgets.last(),
            global_end,
        )
    }
}

/// The budgets of the sessions that take the files of the table one by one.
pub open spec fn file_budgets() -> Seq<nat> {
    POSITION_COUNTS@.map_values(|row: (&str, u64)| budget_of(row.1 as nat))
}

/// Sessions add up: however the work is split, the run has trained the sum of the budgets or, if
/// that is less, the whole plan.
pub proof fn law_sessions_add_up(budgets: Seq<nat>, global_end: nat)
    ensures
        trained_after(budgets, global_end) == if sum(budgets) < global_end {
            sum(budgets)
        } else {
            global_end
        },
    decreases budgets.len(),
{
    if budgets.len() > 0 {
        law_sessions_add_up(budgets.drop_last(), global_end);
    }
}

/// The result is off by at most half a unit, and a half is rounded up.
pub proof fn law_nearest(num: nat, den: nat)
    requires
        den > 0,
    ensures
        2 * num < 2 * (nearest(num, den) * den) + den,
        2 * (nearest(num, den) * den) <= 2 * num + den,
{
    let q = nearest(num, den);
    vstd::arithmetic::div_mod::lemma_fundamental_div_mod((2 * num + den) as int, (2 * den) as int);
    vstd::arithmetic::div_mod::lemma_mod_bound((2 * num + den) as int, (2 * den) as int);
    assert((2 * den) * q == 2 * (q * den)) by (nonlinear_arith);
}

/// More positions never give a session fewer superbatches.
pub proof fn law_budget_grows(passed: nat, more: nat)
    requires
        passed <= more,
    ensures
        budget_of(passed) <= budget_of(more),
{
    lemma_one_pass(passed);
    lemma_one_pass(more);
}

/// The taper starts at zero, is complete at the last superbatch and stays within its steps.
pub proof fn law_taper_ends(superbatch: nat, final_superbatch: nat)
    ensures
        taper_done(superbatch, final_superbatch) <= taper_steps(final_superbatch),
        superbatch <= 1 ==> taper_done(superbatch, final_superbatch) == 0,
        2 <= superbatch && final_superbatch <= superbatch ==> taper_done(
            superbatch,
            final_superbatch,
        ) == taper_steps(final_superbatch),
{
}

/// The taper never turns back, and within the plan each superbatch is one step.
pub proof fn law_taper_advances(superbatch: nat, later: nat, final_superbatch: nat)
    requires
        superbatch <= later,
    ensures
        taper_done(superbatch, final_superbatch) <= taper_done(later, final_superbatch),
        1 <= superbatch && later <= final_superbatch ==> taper_done(later, final_superbatch)
            - taper_done(superbatch, final_superbatch) == later - superbatch,
{
}

/// A session saves at least as often as the setting says, and at least once.
pub proof fn law_save_rate(end_superbatch: nat)
    requires
        end_superbatch >= 1,
    ensures
        1 <= save_rate_of(end_superbatch) <= SAVE_RATE,
        save_rate_of(end_superbatch) <= end_superbatch,
        save_rate_of(end_superbatch) == SAVE_RATE || save_rate_of(end_superbatch)
            == end_superbatch,
{
}

/// The order of a list does not change its sum.
proof fn lemma_sum_of_permutation(s: Seq<nat>, t: Seq<nat>)
    requires
        s.to_multiset() == t.to_multiset(),
    ensures
        sum(s) == sum(t),
    decreases s.len(),
{
    broadcast use vstd::seq_lib::group_to_multiset_ensures;

    assert(s.len() == s.to_multiset().len());
    assert(t.len() == t.to_multiset().len());
    if s.len() > 0 {
        let x = s.last();
        assert(s.contains(x));
        assert(t.to_multiset().count(x) > 0);
        assert(t.contains(x));
        let i = choose|i: int| 0 <= i < t.len() && t[i] == x;
        let rest = t.remove(i);
        assert(s.drop_last() == s.remove(s.len() - 1));
        assert(s.drop_last().to_multiset() == rest.to_multiset());
        lemma_sum_of_permutation(s.drop_last(), rest);
        lemma_sum_without(t, i);
    }
}

/// Taking an element out lowers the sum by it.
proof fn lemma_sum_without(t: Seq<nat>, i: int)
    requires
        0 <= i < t.len(),
    ensures
        sum(t) == sum(t.remove(i)) + t[i],
    decreases t.len(),
{
    if i == t.len() - 1 {
        assert(t.remove(i) == t.drop_last());
    } else {
        lemma_sum_without(t.drop_last(), i);
        assert(t.remove(i).drop_last() == t.drop_last().remove(i));
        assert(t.remove(i).last() == t.last());
    }
}

/// The sum of the budgets of the first `k` files of the table.
spec fn budgets_to(k: int) -> int
    decreases k,
{
    if k <= 0 {
        0
    } else {
        budgets_to(k - 1) + (2 * POSITION_COUNTS@[k - 1].1 + 100_007_936) / 200_015_872
    }
}

proof fn lemma_budgets_to(k: int)
    requires
        0 <= k <= 41,
    ensures
        sum(file_budgets().take(k)) == budgets_to(k),
    decreases k,
{
    if k > 0 {
        lemma_budgets_to(k - 1);
        assert(file_budgets().take(k).drop_last() == file_budgets().take(k - 1));
        lemma_one_pass(POSITION_COUNTS@[k - 1].1 as nat);
        lemma_file_count_in_range(k - 1);
    }
}

/// The budgets of all files of the table together.
#[verifier::spinoff_prover]
#[verifier::rlimit(60)]
proof fn lemma_file_budgets()
    ensures
        sum(file_budgets()) == 2190,
{
    lemma_budgets_to(41);
    assert(file_budgets().take(41) == file_budgets());
    assert(budgets_to(41) == 2190) by {
        reveal_with_fuel(budgets_to, 42);
    }
}

/// No file of the table is too small for a superbatch or too large for a session.
proof fn lemma_file_count_in_range(k: int)
    requires
        0 <= k < 41,
    ensures
        100_007_936 <= POSITION_COUNTS@[k].1 <= 100_007_936 * 5000,
{
}

/// Lists, one behind the other.
pub open spec fn joined(lists: Seq<Seq<nat>>) -> Seq<nat>
    decreases lists.len(),
{
    if lists.len() == 0 {
        Seq::empty()
    } else {
        joined(lists.drop_last()) + lists.last()
    }
}

proof fn lemma_sum_of_two(s: Seq<nat>, t: Seq<nat>)
    ensures
        sum(s + t) == sum(s) + sum(t),
    decreases t.len(),
{
    if t.len() == 0 {
        assert(s + t == s);
    } else {
        assert((s + t).drop_last() == s + t.drop_last());
        lemma_sum_of_two(s, t.drop_last());
    }
}

proof fn lemma_sum_of_laps(laps: Seq<Seq<nat>>)
    requires
        forall|i: int|
            0 <= i < laps.len() ==> (#[trigger] laps[i]).to_multiset()
                == file_budgets().to_multiset(),
    ensures
        sum(joined(laps)) == 2190 * laps.len(),
    decreases laps.len(),
{
    if laps.len() > 0 {
        let before = laps.drop_last();
        assert forall|i: int| 0 <= i < before.len() implies (#[trigger] before[i]).to_multiset()
            == file_budgets().to_multiset() by {
            assert(before[i] == laps[i]);
        }
        lemma_sum_of_laps(before);
        lemma_sum_of_two(joined(before), laps.last());
        assert(laps[laps.len() - 1].to_multiset() == file_budgets().to_multiset());
        lemma_sum_of_permutation(laps.last(), file_budgets());
        lemma_file_budgets();
    }
}

/// A plan of whole passes over the table needs fewer superbatches than as many laps train.
proof fn lemma_plan_of_passes(passes: nat)
    requires
        passes >= 1,
    ensures
        plan_end_of(corpus(), passes * 1000) <= 2190 * passes,
{
    lemma_corpus_size();
    assert(positions_per_superbatch() == 100_007_936) by {
        lemma_superbatches(0, 0, 0);
    }
    let num = corpus() * (passes * 1000) * FILTER_KEEP_FRAC_MILLI as nat;
    assert(num == 218_849_949_380_000_000 * passes) by (nonlinear_arith)
        requires
            num == 218_849_949_380 * (passes * 1000) * 1000,
    ;
    let den: nat = 100_007_936_000_000;
    let q = superbatches(corpus(), passes * 1000, FILTER_KEEP_FRAC_MILLI as nat);
    assert(q == nearest(num, den));
    law_nearest(num, den);
    assert(q <= 2190 * passes) by (nonlinear_arith)
        requires
            2 * (q * den) <= 2 * num + den,
            num == 218_849_949_380_000_000 * passes,
            den == 100_007_936_000_000,
            passes >= 1,
    ;
}

/// A plan of whole passes is complete after as many laps over the table, one file per session and
/// each lap in an order of its own.
pub proof fn law_laps_complete_the_plan(laps: Seq<Seq<nat>>)
    requires
        laps.len() >= 1,
        forall|i: int|
            0 <= i < laps.len() ==> (#[trigger] laps[i]).to_multiset()
                == file_budgets().to_multiset(),
    ensures
        ({
            let end = plan_end_of(corpus(), laps.len() * 1000);
            trained_after(joined(laps), end) == end
        }),
{
    let end = plan_end_of(corpus(), laps.len() * 1000);
    lemma_sum_of_laps(laps);
    lemma_plan_of_passes(laps.len());
    law_sessions_add_up(joined(laps), end);
}

/// A plan of one pass is complete after one session over all of its positions, unless the cap on
/// a session is in the way.
pub proof fn law_one_session_over_all_completes_the_plan(positions: nat)
    requires
        plan_end_of(positions, 1000) <= MAX_SUPERBATCH,
    ensures
        stop_of(1, budget_of(positions), plan_end_of(positions, 1000)) == plan_end_of(
            positions,
            1000,
        ),
{
}

}
