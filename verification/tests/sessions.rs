use erebus_trainer::checkpoint::{
    checkpoint_dir, checkpoint_superbatch, latest_checkpoint, start_superbatch, CheckpointEntry,
};
use erebus_trainer::session::{
    choose_window, first_step, fresh_session, plan_is_complete, read_session, session_path,
    write_session, FreshSession, Step, Window,
};
use erebus_trainer::text::NumberError;

fn entry(name: &str, is_dir: bool, has_state: bool) -> CheckpointEntry {
    CheckpointEntry { name: name.to_string(), path: format!("checkpoints/{name}"), is_dir, has_state }
}

#[test]
fn the_highest_loadable_checkpoint_is_the_latest() {
    let entries = vec![
        entry("erebus-10", true, true),
        entry("erebus-200", true, true),
        entry("erebus-1000", true, false),
        entry("erebus-3000", false, true),
        entry("erebus-90", true, true),
        entry("erebus-512-9000", true, true),
        entry("other-9000", true, true),
        entry("erebus.session", false, false),
        entry("erebus-", true, true),
    ];
    assert_eq!(latest_checkpoint(&entries), Some(("checkpoints/erebus-200".to_string(), 200)));
    assert_eq!(latest_checkpoint(&vec![]), None);
    assert_eq!(latest_checkpoint(&vec![entry("erebus-x", true, true)]), None);
}

#[test]
fn the_first_of_equal_checkpoints_is_taken() {
    let entries = vec![entry("erebus-07", true, true), entry("erebus-+7", true, true)];
    assert_eq!(latest_checkpoint(&entries), Some(("checkpoints/erebus-07".to_string(), 7)));
}

#[test]
fn checkpoint_names_read_back() {
    for n in [0, 1, 10, 2188, usize::MAX] {
        let dir = checkpoint_dir(n);
        assert_eq!(dir, format!("checkpoints/erebus-{n}"));
        assert_eq!(checkpoint_superbatch(&dir["checkpoints/".len()..]), Some(n));
    }
    assert_eq!(checkpoint_superbatch("erebus--1"), None);
    assert_eq!(checkpoint_superbatch("erebu"), None);
}

#[test]
fn runs_continue_behind_the_checkpoint() {
    assert_eq!(start_superbatch(None), 1);
    assert_eq!(start_superbatch(Some(200)), 201);
}

#[test]
fn markers_read_back() {
    assert_eq!(session_path(), "checkpoints/erebus.session");
    assert_eq!(write_session(1, 139), "1 139\n");
    for (b, s) in [(0, 0), (1, 139), (usize::MAX, usize::MAX)] {
        assert_eq!(read_session(&write_session(b, s)), Some((b, s)));
    }
    assert_eq!(read_session("\n 3\t+14 and more"), Some((3, 14)));
    for bad in ["", "3", "3 x", "x 3", "3 -4", "99999999999999999999999 3"] {
        assert_eq!(read_session(bad), None);
    }
}

#[test]
fn interrupted_sessions_finish_their_own_window() {
    for resume in 101..=239 {
        assert_eq!(
            choose_window(resume, 2188, None, Some("101 239\n")),
            Ok(Window::Resumed { began: 101, stop: 239 })
        );
    }
    assert_eq!(
        choose_window(2100, 2188, None, Some("2050 9000\n")),
        Ok(Window::Resumed { began: 2050, stop: 2188 })
    );
}

#[test]
fn finished_sessions_are_over() {
    assert_eq!(choose_window(240, 2188, None, Some("101 239\n")), Ok(Window::Fresh));
    assert_eq!(choose_window(100, 2188, None, Some("101 239\n")), Ok(Window::Fresh));
    assert_eq!(choose_window(240, 2188, None, Some("garbage")), Ok(Window::Fresh));
    assert_eq!(choose_window(1, 2188, None, None), Ok(Window::Fresh));
    assert_eq!(choose_window(2189, 2188, None, Some("1 9999")), Ok(Window::Complete));
}

#[test]
fn a_forced_end_is_kept() {
    let marker = Some("101 239\n");
    assert_eq!(choose_window(101, 2188, Some(" 300\n"), marker), Ok(Window::Forced { stop: 300 }));
    assert_eq!(choose_window(3000, 2188, Some("4000"), None), Ok(Window::Forced { stop: 4000 }));
    assert_eq!(choose_window(300, 2188, Some("300"), None), Ok(Window::Forced { stop: 300 }));
    assert_eq!(
        choose_window(301, 2188, Some("300"), marker),
        Ok(Window::AlreadyPast { requested: 300 })
    );
    assert_eq!(choose_window(1, 2188, Some(""), marker), Err(NumberError::Empty));
    assert_eq!(choose_window(1, 2188, Some("ten"), marker), Err(NumberError::InvalidDigit));
    assert_eq!(
        choose_window(1, 2188, Some("18446744073709551616"), marker),
        Err(NumberError::TooLarge)
    );
}

#[test]
fn steps_follow_the_window() {
    assert_eq!(first_step(Window::Forced { stop: 5 }), Step::Train { stop: 5, mark: true });
    assert_eq!(
        first_step(Window::Resumed { began: 1, stop: 5 }),
        Step::Train { stop: 5, mark: false }
    );
    assert_eq!(first_step(Window::AlreadyPast { requested: 5 }), Step::Exit { code: 3 });
    assert_eq!(first_step(Window::Complete), Step::Exit { code: 3 });
    assert_eq!(first_step(Window::Fresh), Step::Count);
}

#[test]
fn new_sessions_make_one_pass() {
    assert_eq!(
        fresh_session(1, 2188, 13_937_427_120),
        FreshSession { passed: 13_937_427_120, budget: 139, stop: 139 }
    );
    assert_eq!(
        fresh_session(2188, 2188, u64::MAX),
        FreshSession { passed: u64::MAX, budget: 5000, stop: 2188 }
    );
    assert!(plan_is_complete(2188, 2188));
    assert!(!plan_is_complete(139, 2188));
}
