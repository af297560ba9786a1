use erebus_trainer::config::{
    BATCHES_PER_SUPERBATCH, BATCH_SIZE, MAX_SUPERBATCH, POSITION_COUNTS,
};
use erebus_trainer::counts::corpus_positions;
use erebus_trainer::network::saved_tensors;
use erebus_trainer::schedule::{
    global_end, plan_end, save_rate, session_budget, session_stop, superbatches_for, taper_progress,
};

fn rounded(passes: f64, positions: u64, keep: f64) -> usize {
    let per = (BATCHES_PER_SUPERBATCH * BATCH_SIZE) as f64;
    (passes * positions as f64 * keep / per).round() as usize
}

#[test]
fn the_plan_of_one_pass_ends_at_2188() {
    assert_eq!(global_end(), 2188);
    assert_eq!(plan_end(corpus_positions(), 1000), 2188);
    assert_eq!(plan_end(corpus_positions(), 2000), 4377);
    assert_eq!(plan_end(0, 1000), 1);
}

#[test]
fn superbatches_are_rounded_to_the_nearest() {
    let per = 100_007_936u64;
    for positions in [0, 1, per / 2 - 1, per / 2, per - 1, per, per + per / 2, 7 * per + per / 2 - 1] {
        assert_eq!(superbatches_for(positions, 1000, 1000), rounded(1.0, positions, 1.0));
    }
    for (_, n) in POSITION_COUNTS {
        assert_eq!(superbatches_for(n, 1000, 1000), rounded(1.0, n, 1.0));
        assert_eq!(superbatches_for(n, 500, 600), rounded(0.5, n, 0.6));
    }
    assert_eq!(superbatches_for(per / 2, 1000, 1000), 1);
    assert_eq!(superbatches_for(per / 2 - 1, 1000, 1000), 0);
}

#[test]
fn budgets_stay_between_one_and_the_cap() {
    assert_eq!(session_budget(0), 1);
    assert_eq!(session_budget(1), 1);
    assert_eq!(session_budget(13_937_427_120), 139);
    assert_eq!(session_budget(u64::MAX), MAX_SUPERBATCH);
}

#[test]
fn sessions_stop_with_their_budget_or_the_plan() {
    assert_eq!(session_stop(1, 139, 2188), 139);
    assert_eq!(session_stop(2100, 139, 2188), 2188);
    assert_eq!(session_stop(2050, 139, 2188), 2188);
    assert_eq!(session_stop(usize::MAX, 5000, 2188), 2188);
}

#[test]
fn laps_complete_the_plan() {
    for (passes, laps) in [(1000, 1), (2000, 2), (3000, 3)] {
        let end = plan_end(corpus_positions(), passes);
        let mut trained = 0;
        for _ in 0..laps {
            for (_, n) in POSITION_COUNTS {
                trained = session_stop(trained + 1, session_budget(n), end);
            }
        }
        assert_eq!(trained, end);
    }
    assert_eq!(session_stop(1, session_budget(corpus_positions()), global_end()), global_end());
}

#[test]
fn the_taper_runs_over_the_whole_plan() {
    assert_eq!(taper_progress(0, 2188), (0, 2187));
    assert_eq!(taper_progress(1, 2188), (0, 2187));
    assert_eq!(taper_progress(1095, 2188), (1094, 2187));
    assert_eq!(taper_progress(2188, 2188), (2187, 2187));
    assert_eq!(taper_progress(9999, 2188), (2187, 2187));
    assert_eq!(taper_progress(1, 1), (0, 1));
    assert_eq!(taper_progress(2, 0), (1, 1));
}

#[test]
fn saving_is_never_coarser_than_the_session() {
    assert_eq!(save_rate(0), 1);
    assert_eq!(save_rate(1), 1);
    assert_eq!(save_rate(7), 7);
    assert_eq!(save_rate(2188), 10);
}

#[test]
fn the_network_file_has_the_layout_of_the_engine() {
    let tensors: Vec<(&str, usize, i16)> =
        saved_tensors().iter().map(|t| (t.name, t.len, t.factor)).collect();
    assert_eq!(
        tensors,
        vec![("l0w", 786_432, 255), ("l0b", 1024, 255), ("l1w", 2048, 64), ("l1b", 1, 16_320)]
    );
}
