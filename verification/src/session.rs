//! Sessions: which stretch of the plan a run trains, and the marker that lets an interrupted
//! session finish its own stretch.

use crate::config::{EXIT_NOTHING_TO_DO, MAX_SUPERBATCH, NET_ID, OUT_DIR};
use crate::schedule::{budget_of, session_budget, session_stop, stop_of};
use crate::text::{
    after_first_word, chars_of, copy_range, decimal, first_word, is_digit, is_space,
    law_decimal_reads_back, law_first_word, lemma_decimal, lemma_prefix_len_is, next_word, parse_number,
    push_decimal, read_usize, trim_chars, trim_front, trimmed, NumberError,
};
use vstd::prelude::*;
use vstd::string::StringExecFns;

verus! {

/// The stretch of the plan that a run is about to train.
#[derive(Clone, Copy, Debug, PartialEq, Eq, Structural)]
pub enum Window {
    /// The user asked for this end.
    Forced { stop: usize },
    /// The user asked for an end that has already been passed.
    AlreadyPast { requested: usize },
    /// The plan is complete.
    Complete,
    /// An interrupted session goes on to its own end.
    Resumed { began: usize, stop: usize },
    /// A new session, whose end depends on the data files.
    Fresh,
}

/// What a run does next.
#[derive(Clone, Copy, Debug, PartialEq, Eq, Structural)]
pub enum Step {
    /// Nothing to do: leave with this exit code.
    Exit { code: i32 },
    /// Train up to `stop`. Where `mark` is set, leave the marker of this session first.
    Train { stop: usize, mark: bool },
    /// Count the positions of the data files, to open a new session.
    Count,
}

/// A new session: the positions passed to it, its superbatches and its last superbatch.
#[derive(Clone, Copy, Debug, PartialEq, Eq, Structural)]
pub struct FreshSession {
    pub passed: u64,
    pub budget: usize,
    pub stop: usize,
}

/// Where the marker of the current session lies.
pub open spec fn session_path_text() -> Seq<char> {
    OUT_DIR@ + "/"@ + NET_ID@ + ".session"@
}

/// The marker of a session from `began` to `stop`.
pub open spec fn marker_of(began: nat, stop: nat) -> Seq<char> {
    decimal(began) + seq![' '] + decimal(stop) + seq!['\n']
}

/// The session that a marker stands for: its first two words, if both are numbers.
pub open spec fn session_of(marker: Seq<char>) -> Option<(usize, usize)> {
    let first = parse_number(first_word(marker), usize::MAX as nat);
    let second = parse_number(first_word(after_first_word(marker)), usize::MAX as nat);
    match (first, second) {
        (Ok(began), Ok(stop)) => Some((began as usize, stop as usize)),
        _ => None,
    }
}

/// The session of a marker, if the resume point `start` lies inside it.
pub open spec fn interrupted(start: usize, marker: Option<Seq<char>>) -> Option<(usize, usize)> {
    match marker {
        Some(text) => match session_of(text) {
            Some((began, stop)) => if began <= start && start <= stop {
                Some((began, stop))
            } else {
                None
            },
            None => None,
        },
        None => None,
    }
}

/// The stretch that a run trains which resumes at `start`, on a plan that ends at `global_end`,
/// where the user asked for the end `forced` and the last session left `marker`.
pub open spec fn window_of(
    start: usize,
    global_end: usize,
    forced: Option<Seq<char>>,
    marker: Option<Seq<char>>,
) -> Result<Window, NumberError> {
    match forced {
        Some(text) => match parse_number(trimmed(text), usize::MAX as nat) {
            Ok(n) => if start > n {
                Ok(Window::AlreadyPast { requested: n as usize })
            } else {
                Ok(Window::Forced { stop: n as usize })
            },
            Err(e) => Err(e),
        },
        None => if start > global_end {
            Ok(Window::Complete)
        } else {
            match interrupted(start, marker) {
                Some((began, stop)) => Ok(
                    Window::Resumed {
                        began,
                        stop: if stop < global_end {
                            stop
                        } else {
                            global_end
                        },
                    },
                ),
                None => Ok(Window::Fresh),
            }
        },
    }
}

/// What a run does about the stretch that it is to train. A resumed session keeps its marker.
pub open spec fn step_of(window: Window) -> Step {
    match window {
        Window::Forced { stop } => Step::Train { stop, mark: true },
        Window::AlreadyPast { .. } => Step::Exit { code: EXIT_NOTHING_TO_DO },
        Window::Complete => Step::Exit { code: EXIT_NOTHING_TO_DO },
        Window::Resumed { stop, .. } => Step::Train { stop, mark: false },
        Window::Fresh => Step::Count,
    }
}

/// The view of an optional text.
pub open spec fn opt_view(text: Option<&str>) -> Option<Seq<char>> {
    match text {
        Some(t) => Some(t@),
        None => None,
    }
}

/// `<OUT_DIR>/<NET_ID>.session`: where the marker of the current session lies.
pub fn session_path() -> (path: String)
    ensures
        path@ == session_path_text(),
        path@ == OUT_DIR@ + "/"@ + NET_ID@ + ".session"@,
{
    let mut path: String = String::new();
    path.append(OUT_DIR);
    path.append("/");
    path.append(NET_ID);
    path.append(".session");
    assert(path@ == session_path_text());
    path
}

/// The marker of a session from `began` to `stop`.
pub fn write_session(began: usize, stop: usize) -> (marker: String)
    ensures
        marker@ == marker_of(began as nat, stop as nat),
        marker@ == decimal(began as nat) + seq![' '] + decimal(stop as nat) + seq!['\n'],
{
    proof {
        reveal_strlit(" ");
        reveal_strlit("\n");
    }
    assert(" "@ == seq![' ']);
    assert("\n"@ == seq!['\n']);
    let mut marker: String = String::new();
    push_decimal(&mut marker, began as u64);
    marker.append(" ");
    push_decimal(&mut marker, stop as u64);
    marker.append("\n");
    assert(marker@ == marker_of(began as nat, stop as nat));
    marker
}

/// The session that a marker stands for.
pub fn read_session(marker: &str) -> (session: Option<(usize, usize)>)
    ensures
        session == session_of(marker@),
{
    let chars: Vec<char> = chars_of(marker);
    assert(chars@.skip(0) == chars@);
    let first: (usize, usize) = next_word(&chars, 0);
    let second: (usize, usize) = next_word(&chars, first.1);
    let began = read_usize(&copy_range(&chars, first.0, first.1));
    let stop = read_usize(&copy_range(&chars, second.0, second.1));
    match (began, stop) {
        (Ok(b), Ok(s)) => Some((b, s)),
        _ => None,
    }
}

/// Which stretch of the plan a run trains.
pub fn choose_window(
    start: usize,
    global_end: usize,
    forced: Option<&str>,
    marker: Option<&str>,
) -> (r: Result<Window, NumberError>)
    ensures
        r == window_of(start, global_end, opt_view(forced), opt_view(marker)),
        // A forced end decides alone.
        forced is Some ==> match parse_number(trimmed(forced->0@), usize::MAX as nat) {
            Ok(n) => r == Ok::<Window, NumberError>(
                if start <= n {
                    Window::Forced { stop: n as usize }
                } else {
                    Window::AlreadyPast { requested: n as usize }
                },
            ),
            Err(e) => r == Err::<Window, NumberError>(e),
        },
        // Else a plan that is over.
        forced is None && start > global_end ==> r == Ok::<Window, NumberError>(Window::Complete),
        // Else a session that the resume point lies in, however it began.
        forced is None && start <= global_end && marker is Some ==> match session_of(marker->0@) {
            Some((began, stop)) => if began <= start && start <= stop {
                &&& r matches Ok(Window::Resumed { began: b, stop: s })
                &&& b == began
                &&& s <= stop && s <= global_end
                &&& s == stop || s == global_end
            } else {
                r == Ok::<Window, NumberError>(Window::Fresh)
            },
            None => r == Ok::<Window, NumberError>(Window::Fresh),
        },
        forced is None && start <= global_end && marker is None ==> r == Ok::<Window, NumberError>(
            Window::Fresh,
        ),
{
    if let Some(text) = forced {
        return match read_usize(&trim_chars(&chars_of(text))) {
            Ok(n) => if start > n {
                Ok(Window::AlreadyPast { requested: n })
            } else {
                Ok(Window::Forced { stop: n })
            },
            Err(e) => Err(e),
        };
    }
    if start > global_end {
        return Ok(Window::Complete);
    }
    if let Some(text) = marker {
        if let Some((began, stop)) = read_session(text) {
            if began <= start && start <= stop {
                let stop: usize = if stop < global_end { stop } else { global_end };
                return Ok(Window::Resumed { began, stop });
            }
        }
    }
    Ok(Window::Fresh)
}

/// What a run does about the stretch that it is to train.
pub fn first_step(window: Window) -> (step: Step)
    ensures
        step == step_of(window),
        window matches Window::Forced { stop } ==> step == (Step::Train { stop, mark: true }),
        window matches Window::Resumed { stop, .. } ==> step == (Step::Train { stop, mark: false }),
        step is Count <==> window is Fresh,
        window is Complete || window is AlreadyPast ==> step == (Step::Exit { code: 3 }),
{
    match window {
        Window::Forced { stop } => Step::Train { stop, mark: true },
        Window::AlreadyPast { .. } => Step::Exit { code: EXIT_NOTHING_TO_DO },
        Window::Complete => Step::Exit { code: EXIT_NOTHING_TO_DO },
        Window::Resumed { stop, .. } => Step::Train { stop, mark: false },
        Window::Fresh => Step::Count,
    }
}

/// A new session over files with `passed` positions.
pub fn fresh_session(start: usize, global_end: usize, passed: u64) -> (session: FreshSession)
    requires
        start >= 1,
    ensures
        session.passed == passed,
        session.budget == budget_of(passed as nat),
        session.stop == stop_of(start as nat, budget_of(passed as nat), global_end as nat),
        1 <= session.budget <= 5000,
        session.budget > 1 ==> 200_015_872 * session.budget <= 2 * passed + 100_007_936,
        session.budget < 5000 ==> 2 * passed < 200_015_872 * session.budget + 100_007_936,
        session.stop <= global_end,
        session.stop <= start - 1 + session.budget,
        session.stop == global_end || session.stop == start - 1 + session.budget,
{
    let budget: usize = session_budget(passed);
    FreshSession { passed, budget, stop: session_stop(start, budget, global_end) }
}

/// Whether the plan is complete once a session has ended at `end_superbatch`.
pub fn plan_is_complete(end_superbatch: usize, global_end: usize) -> (complete: bool)
    ensures
        complete == (end_superbatch >= global_end),
{
    end_superbatch >= global_end
}

/// A session reads back from its marker.
pub proof fn law_marker_reads_back(began: usize, stop: usize)
    ensures
        session_of(marker_of(began as nat, stop as nat)) == Some((began, stop)),
{
    let s = marker_of(began as nat, stop as nat);
    let b = decimal(began as nat);
    let e = decimal(stop as nat);
    lemma_decimal(began as nat);
    lemma_decimal(stop as nat);
    let spaces = |c: char| is_space(c);
    let others = |c: char| !is_space(c);
    assert(is_digit(b[0]) && is_digit(e[0]));
    assert(s[0] == b[0]);
    lemma_prefix_len_is(s, spaces, 0);
    assert(trim_front(s) == s);
    assert forall|i: int| 0 <= i < b.len() implies others(#[trigger] s[i]) by {
        assert(s[i] == b[i]);
        assert(is_digit(b[i]));
    }
    assert(s[b.len() as int] == ' ');
    lemma_prefix_len_is(s, others, b.len() as int);
    assert(first_word(s) == b);
    let t = after_first_word(s);
    assert(t == seq![' '] + e + seq!['\n']);
    assert(t[1] == e[0]);
    lemma_prefix_len_is(t, spaces, 1);
    let u = trim_front(t);
    assert(u == e + seq!['\n']);
    assert forall|i: int| 0 <= i < e.len() implies others(#[trigger] u[i]) by {
        assert(u[i] == e[i]);
        assert(is_digit(e[i]));
    }
    assert(u[e.len() as int] == '\n');
    lemma_prefix_len_is(u, others, e.len() as int);
    assert(first_word(t) == e);
    law_decimal_reads_back(began as nat, usize::MAX as nat);
    law_decimal_reads_back(stop as nat, usize::MAX as nat);
}

/// A new session trains at least one superbatch, at most the cap, never beyond the end of the
/// plan, and exactly its budget unless the plan ends first.
pub proof fn law_fresh_session_is_bounded(start: nat, global_end: nat, passed: nat)
    requires
        1 <= start <= global_end,
    ensures
        ({
            let budget = budget_of(passed);
            let stop = stop_of(start, budget, global_end);
            &&& start <= stop <= global_end
            &&& stop - start + 1 <= budget <= MAX_SUPERBATCH
            &&& stop < global_end ==> stop - start + 1 == budget
        }),
{
}

/// An interrupted session finishes its own stretch: from whatever point inside it a run resumes,
/// the marker that the session left leads to the same end.
pub proof fn law_interrupted_session_resumes(
    start: usize,
    global_end: usize,
    passed: nat,
    resume: usize,
)
    requires
        1 <= start <= global_end,
        start <= resume <= stop_of(start as nat, budget_of(passed), global_end as nat),
    ensures
        ({
            let stop = stop_of(start as nat, budget_of(passed), global_end as nat);
            window_of(resume, global_end, None, Some(marker_of(start as nat, stop))) == Ok::<
                Window,
                NumberError,
            >(Window::Resumed { began: start, stop: stop as usize })
        }),
{
    let stop = stop_of(start as nat, budget_of(passed), global_end as nat);
    law_marker_reads_back(start, stop as usize);
}

/// The same of a session with a forced end, as far as the plan goes.
pub proof fn law_interrupted_forced_session_resumes(
    start: usize,
    global_end: usize,
    stop: usize,
    resume: usize,
)
    requires
        start <= resume <= stop,
        resume <= global_end,
    ensures
        window_of(resume, global_end, None, Some(marker_of(start as nat, stop as nat))) == Ok::<
            Window,
            NumberError,
        >(
            Window::Resumed {
                began: start,
                stop: if stop < global_end {
                    stop
                } else {
                    global_end
                },
            },
        ),
{
    law_marker_reads_back(start, stop);
}

/// A finished session is over: the next run, which resumes behind its end, opens a new session or
/// finds the plan complete, whether the marker was cleared or not.
pub proof fn law_finished_session_is_over(start: usize, stop: usize, next: usize, global_end: usize)
    requires
        stop < next,
    ensures
        window_of(next, global_end, None, None) == window_of(
            next,
            global_end,
            None,
            Some(marker_of(start as nat, stop as nat)),
        ),
        window_of(next, global_end, None, None) == if next > global_end {
            Ok::<Window, NumberError>(Window::Complete)
        } else {
            Ok::<Window, NumberError>(Window::Fresh)
        },
{
    law_marker_reads_back(start, stop);
}

/// An end that the user asks for is kept, wherever the plan ends and whatever a marker says.
pub proof fn law_forced_end_is_kept(
    start: usize,
    stop: usize,
    global_end: usize,
    marker: Option<Seq<char>>,
)
    ensures
        window_of(start, global_end, Some(decimal(stop as nat)), marker) == if start > stop {
            Ok::<Window, NumberError>(Window::AlreadyPast { requested: stop })
        } else {
            Ok::<Window, NumberError>(Window::Forced { stop })
        },
{
    let s = decimal(stop as nat);
    lemma_decimal(stop as nat);
    law_decimal_reads_back(stop as nat, usize::MAX as nat);
    assert(is_digit(s[0]));
    lemma_prefix_len_is(s, |c: char| is_space(c), 0);
    assert(trim_front(s) == s);
    assert(is_digit(s[s.len() - 1]));
    assert(trimmed(s) == s);
}

/// A run trains forward: the end of its stretch is never before its start, and only an end that
/// the user asked for lies beyond the plan.
pub proof fn law_runs_train_forward(
    start: usize,
    global_end: usize,
    forced: Option<Seq<char>>,
    marker: Option<Seq<char>>,
)
    ensures
        match window_of(start, global_end, forced, marker) {
            Ok(window) => match step_of(window) {
                Step::Train { stop, mark } => {
                    &&& start <= stop
                    &&& stop > global_end ==> forced is Some
                    &&& mark == (forced is Some)
                },
                Step::Count => start <= global_end && forced is None,
                Step::Exit { code } => code == 3 && (forced is None ==> start > global_end),
            },
            Err(_) => forced is Some,
        },
{
}

/// A marker is read by its first two words, whatever white space stands around them and whatever
/// follows.
pub proof fn law_marker_is_two_words(
    a: Seq<char>,
    first: Seq<char>,
    m: Seq<char>,
    second: Seq<char>,
    rest: Seq<char>,
)
    requires
        forall|i: int| 0 <= i < a.len() ==> is_space(#[trigger] a[i]),
        forall|i: int| 0 <= i < m.len() ==> is_space(#[trigger] m[i]),
        forall|i: int| 0 <= i < first.len() ==> !is_space(#[trigger] first[i]),
        forall|i: int| 0 <= i < second.len() ==> !is_space(#[trigger] second[i]),
        first.len() > 0 && m.len() > 0 && second.len() > 0,
        rest.len() > 0 ==> is_space(rest[0]),
    ensures
        session_of(a + first + (m + second + rest)) == match (
            parse_number(first, usize::MAX as nat),
            parse_number(second, usize::MAX as nat),
        ) {
            (Ok(began), Ok(stop)) => Some((began as usize, stop as usize)),
            _ => None,
        },
{
    let tail = m + second + rest;
    assert(tail[0] == m[0]);
    law_first_word(a, first, tail);
    law_first_word(m, second, rest);
}

/// A marker with fewer than two words stands for no session.
pub proof fn law_marker_needs_two_words(a: Seq<char>, word: Seq<char>, b: Seq<char>)
    requires
        forall|i: int| 0 <= i < a.len() ==> is_space(#[trigger] a[i]),
        forall|i: int| 0 <= i < b.len() ==> is_space(#[trigger] b[i]),
        forall|i: int| 0 <= i < word.len() ==> !is_space(#[trigger] word[i]),
        b.len() > 0 ==> word.len() > 0,
    ensures
        session_of(a + word + b) is None,
{
    law_first_word(a, word, b);
    law_first_word(b, Seq::empty(), Seq::empty());
    assert(b + Seq::<char>::empty() + Seq::<char>::empty() == b);
}

/// A run that resumes inside the session of a marker trains on to the end of that session, or of
/// the plan if that comes first, and leaves the marker as it is.
pub proof fn law_marker_leads_to_its_own_end(
    start: usize,
    global_end: usize,
    marker: Seq<char>,
    began: usize,
    stop: usize,
)
    requires
        session_of(marker) == Some((began, stop)),
        began <= start <= stop,
        start <= global_end,
    ensures
        window_of(start, global_end, None, Some(marker)) is Ok,
        step_of(window_of(start, global_end, None, Some(marker))->Ok_0) == (Step::Train {
            stop: if stop < global_end {
                stop
            } else {
                global_end
            },
            mark: false,
        }),
{
}

/// From whatever point inside a new session a run resumes, what it does is to train to the end
/// that this session was given, under the marker that it left.
pub proof fn law_preempted_session_trains_to_its_end(
    start: usize,
    global_end: usize,
    passed: nat,
    resume: usize,
)
    requires
        1 <= start <= global_end,
        start <= resume <= stop_of(start as nat, budget_of(passed), global_end as nat),
    ensures
        ({
            let stop = stop_of(start as nat, budget_of(passed), global_end as nat);
            let window = window_of(
                resume,
                global_end,
                None,
                Some(decimal(start as nat) + seq![' '] + decimal(stop) + seq!['\n']),
            );
            window is Ok && step_of(window->Ok_0) == (Step::Train {
                stop: stop as usize,
                mark: false,
            })
        }),
{
    let stop = stop_of(start as nat, budget_of(passed), global_end as nat);
    law_marker_reads_back(start, stop as usize);
}

/// Where a preemption falls makes no difference: two resume points inside one session lead to the
/// same step.
pub proof fn law_preemption_point_is_irrelevant(
    start: usize,
    later: usize,
    global_end: usize,
    marker: Seq<char>,
    began: usize,
    stop: usize,
)
    requires
        session_of(marker) == Some((began, stop)),
        began <= start <= later <= stop,
        later <= global_end,
    ensures
        window_of(start, global_end, None, Some(marker)) == window_of(
            later,
            global_end,
            None,
            Some(marker),
        ),
        step_of(window_of(start, global_end, None, Some(marker))->Ok_0) is Train,
{
}

/// A run opens a new session only where the plan is not over and no marker holds its resume point.
pub proof fn law_new_sessions_open_only_between_sessions(
    start: usize,
    global_end: usize,
    forced: Option<Seq<char>>,
    marker: Option<Seq<char>>,
)
    ensures
        (window_of(start, global_end, forced, marker) is Ok && step_of(
            window_of(start, global_end, forced, marker)->Ok_0,
        ) is Count) <==> {
            &&& forced is None
            &&& start <= global_end
            &&& marker is Some ==> match session_of(marker->0) {
                Some((began, stop)) => start < began || stop < start,
                None => true,
            }
        },
{
}

/// A forced end alone decides: the run trains to it and leaves a marker, or has nothing to do
/// because it is already behind it, or fails because it is not a number.
pub proof fn law_forced_end_decides(
    start: usize,
    global_end: usize,
    forced: Seq<char>,
    marker: Option<Seq<char>>,
)
    ensures
        match parse_number(trimmed(forced), usize::MAX as nat) {
            Ok(n) => {
                &&& window_of(start, global_end, Some(forced), marker) is Ok
                &&& step_of(window_of(start, global_end, Some(forced), marker)->Ok_0) == (if start
                    <= n {
                    Step::Train { stop: n as usize, mark: true }
                } else {
                    Step::Exit { code: 3 }
                })
            },
            Err(e) => window_of(start, global_end, Some(forced), marker) == Err::<
                Window,
                NumberError,
            >(e),
        },
{
}

/// Without a forced end, a run behind the end of the plan has nothing to do.
pub proof fn law_complete_plan_trains_nothing(
    start: usize,
    global_end: usize,
    marker: Option<Seq<char>>,
)
    requires
        start > global_end,
    ensures
        window_of(start, global_end, None, marker) is Ok,
        step_of(window_of(start, global_end, None, marker)->Ok_0) == (Step::Exit { code: 3 }),
{
}

}
