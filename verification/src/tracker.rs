//! The decisions of the tracker's two loops: what to do with each OCR reading
//! of the counter, and what to print of each sample of the game's state.
use vstd::prelude::*;
use crate::detect::{is_valid_cs, spec_is_valid_cs};

verus! {

/// The most debug screenshots that one run saves.
pub const DEBUG_SCREENSHOT_MAX: u64 = 100;

/// What the capture loop remembers from one reading to the next.
#[derive(Clone, Copy, Debug, PartialEq, Eq, Structural)]
pub struct CaptureState {
    /// The number of debug screenshots saved so far.
    pub screenshot_index: u64,
    /// Whether the previous reading gave a plausible value.
    pub last_ocr_ok: bool,
    /// The last value saved as a recorded screenshot.
    pub last_recorded_cs: Option<i64>,
    /// The number of failed readings recorded so far.
    pub record_fail_index: u64,
}

/// What the capture loop does after one round.
#[derive(Clone, Copy, Debug, PartialEq, Eq, Structural)]
pub struct CaptureActions {
    /// Clear the published reading and stop capturing (the game is over).
    pub finish: bool,
    /// The value to publish as the OCR reading.
    pub publish: Option<i64>,
    /// The value under which to record the screenshot.
    pub record_cs: Option<i64>,
    /// The index under which to save a debug screenshot.
    pub debug_screenshot: Option<u64>,
    /// The index under which to record the screenshot of a failed reading.
    pub record_failure: Option<u64>,
}

/// The state at the start of a game.
pub open spec fn initial_capture_state() -> CaptureState {
    CaptureState { screenshot_index: 0, last_ocr_ok: true, last_recorded_cs: None, record_fail_index: 0 }
}

impl CaptureState {
    pub fn new() -> (s: CaptureState)
        ensures
            s == initial_capture_state(),
    {
        CaptureState { screenshot_index: 0, last_ocr_ok: true, last_recorded_cs: None, record_fail_index: 0 }
    }
}

/// The inputs on which a step keeps its counters in range: the failure count
/// can still grow where a failure would be recorded.
pub open spec fn capture_step_fits(s: CaptureState, cs: Option<i64>, recording: bool) -> bool {
    (recording && s.last_ocr_ok && !(cs matches Some(v) && spec_is_valid_cs(v as int)))
        ==> s.record_fail_index < u64::MAX
}

/// One step of the capture loop, given the reading `cs` of the counter.
///
/// A plausible value (0 to 999) is published; when recording, the screenshot
/// is saved under it if no value was recorded yet or it is greater than the
/// last one. A missing or implausible value, right after a good one, gives a
/// debug screenshot (in debug mode, up to `DEBUG_SCREENSHOT_MAX` of them) and,
/// when recording, a recorded failure.
pub open spec fn capture_step_spec(s: CaptureState, cs: Option<i64>, debug: bool, recording: bool) -> (CaptureState, CaptureActions) {
    match cs {
        Some(v) if spec_is_valid_cs(v as int) => {
            let record = recording && (s.last_recorded_cs matches Some(last) ==> v > last);
            (
                CaptureState {
                    last_ocr_ok: true,
                    last_recorded_cs: if record { Some(v) } else { s.last_recorded_cs },
                    ..s
                },
                CaptureActions {
                    finish: false,
                    publish: Some(v),
                    record_cs: if record { Some(v) } else { None },
                    debug_screenshot: None,
                    record_failure: None,
                },
            )
        },
        _ => {
            let shot = debug && s.last_ocr_ok && s.screenshot_index < DEBUG_SCREENSHOT_MAX;
            let fail = recording && s.last_ocr_ok;
            (
                CaptureState {
                    screenshot_index: if shot { (s.screenshot_index + 1) as u64 } else { s.screenshot_index },
                    last_ocr_ok: false,
                    last_recorded_cs: s.last_recorded_cs,
                    record_fail_index: if fail { (s.record_fail_index + 1) as u64 } else { s.record_fail_index },
                },
                CaptureActions {
                    finish: false,
                    publish: None,
                    record_cs: None,
                    debug_screenshot: if shot { Some(s.screenshot_index) } else { None },
                    record_failure: if fail { Some(s.record_fail_index) } else { None },
                },
            )
        },
    }
}

/// Decides what to do with one reading of the counter and updates the state.
pub fn capture_step(state: &mut CaptureState, cs: Option<i64>, debug: bool, recording: bool) -> (actions: CaptureActions)
    requires
        capture_step_fits(*old(state), cs, recording),
    ensures
        (*final(state), actions) == capture_step_spec(*old(state), cs, debug, recording),
{
    let valid = match cs {
        Some(v) => is_valid_cs(v),
        None => false,
    };
    if valid {
        let v = cs.unwrap();
        let record = recording && match state.last_recorded_cs {
            Some(last) => v > last,
            None => true,
        };
        state.last_ocr_ok = true;
        if record {
            state.last_recorded_cs = Some(v);
        }
        CaptureActions {
            finish: false,
            publish: Some(v),
            record_cs: if record { Some(v) } else { None },
            debug_screenshot: None,
            record_failure: None,
        }
    } else {
        let shot = debug && state.last_ocr_ok && state.screenshot_index < DEBUG_SCREENSHOT_MAX;
        let fail = recording && state.last_ocr_ok;
        let debug_screenshot = if shot { Some(state.screenshot_index) } else { None };
        let record_failure = if fail { Some(state.record_fail_index) } else { None };
        if shot {
            state.screenshot_index = state.screenshot_index + 1;
        }
        if fail {
            state.record_fail_index = state.record_fail_index + 1;
        }
        state.last_ocr_ok = false;
        CaptureActions { finish: false, publish: None, record_cs: None, debug_screenshot, record_failure }
    }
}

/// No run saves more than `DEBUG_SCREENSHOT_MAX` debug screenshots: the count
/// never passes the limit, and no screenshot is asked for once it is reached.
pub proof fn lemma_debug_screenshots_bounded(s: CaptureState, cs: Option<i64>, debug: bool, recording: bool)
    requires
        s.screenshot_index <= DEBUG_SCREENSHOT_MAX,
    ensures
        ({
            let (t, a) = capture_step_spec(s, cs, debug, recording);
            &&& t.screenshot_index <= DEBUG_SCREENSHOT_MAX
            &&& (a.debug_screenshot matches Some(i) ==> i < DEBUG_SCREENSHOT_MAX && t.screenshot_index == i + 1)
        }),
{
}

/// Recorded values only grow: a screenshot is recorded under a value greater
/// than every value recorded before, and the last recorded value never falls.
pub proof fn lemma_recorded_values_increase(s: CaptureState, cs: Option<i64>, debug: bool, recording: bool)
    ensures
        ({
            let (t, a) = capture_step_spec(s, cs, debug, recording);
            &&& (a.record_cs matches Some(v) ==> t.last_recorded_cs == Some(v) && (s.last_recorded_cs matches Some(last) ==> last < v))
            &&& (s.last_recorded_cs matches Some(last) ==> (t.last_recorded_cs matches Some(now) && last <= now))
        }),
{
}

/// A failed reading is recorded and photographed only on the first failure
/// after a good reading: a second failure in a row asks for nothing.
pub proof fn lemma_failures_reported_once(s: CaptureState, cs1: Option<i64>, cs2: Option<i64>, debug: bool, recording: bool)
    requires
        !(cs1 matches Some(v) && spec_is_valid_cs(v as int)),
        !(cs2 matches Some(v) && spec_is_valid_cs(v as int)),
    ensures
        ({
            let (t, a) = capture_step_spec(s, cs1, debug, recording);
            let (u, b) = capture_step_spec(t, cs2, debug, recording);
            &&& b.debug_screenshot is None
            &&& b.record_failure is None
            &&& b.publish is None
            &&& u == t
        }),
{
}

/// What the capture loop sees in one round.
#[derive(Clone, Copy, Debug, PartialEq, Eq, Structural)]
pub enum CaptureEvent {
    /// The game has ended or is not running.
    GameInactive,
    /// The screen could not be captured.
    CaptureFailed,
    /// The screen was captured and the counter read as given.
    Reading(Option<i64>),
}

/// A round that does nothing.
pub open spec fn no_actions() -> CaptureActions {
    CaptureActions { finish: false, publish: None, record_cs: None, debug_screenshot: None, record_failure: None }
}

/// One round of the capture loop: the end of the game clears the reading and
/// stops the loop; a failed capture changes nothing; a reading is handled by
/// `capture_step_spec`.
pub open spec fn capture_round_spec(s: CaptureState, ev: CaptureEvent, debug: bool, recording: bool) -> (CaptureState, CaptureActions) {
    match ev {
        CaptureEvent::GameInactive => (s, CaptureActions { finish: true, ..no_actions() }),
        CaptureEvent::CaptureFailed => (s, no_actions()),
        CaptureEvent::Reading(cs) => capture_step_spec(s, cs, debug, recording),
    }
}

/// The inputs on which a round keeps its counters in range.
pub open spec fn capture_round_fits(s: CaptureState, ev: CaptureEvent, recording: bool) -> bool {
    ev matches CaptureEvent::Reading(cs) ==> capture_step_fits(s, cs, recording)
}

/// Decides what to do in one round of the capture loop and updates the state.
pub fn capture_round(state: &mut CaptureState, event: CaptureEvent, debug: bool, recording: bool) -> (actions: CaptureActions)
    requires
        capture_round_fits(*old(state), event, recording),
    ensures
        (*final(state), actions) == capture_round_spec(*old(state), event, debug, recording),
{
    match event {
        CaptureEvent::GameInactive => CaptureActions {
            finish: true,
            publish: None,
            record_cs: None,
            debug_screenshot: None,
            record_failure: None,
        },
        CaptureEvent::CaptureFailed => CaptureActions {
            finish: false,
            publish: None,
            record_cs: None,
            debug_screenshot: None,
            record_failure: None,
        },
        CaptureEvent::Reading(cs) => capture_step(state, cs, debug, recording),
    }
}

/// Only a reading changes the state or asks for files, and only the end of
/// the game stops the loop.
pub proof fn lemma_only_readings_act(s: CaptureState, ev: CaptureEvent, debug: bool, recording: bool)
    ensures
        ({
            let (t, a) = capture_round_spec(s, ev, debug, recording);
            &&& a.finish <==> ev == CaptureEvent::GameInactive
            &&& !(ev is Reading) ==> t == s && a.publish is None && a.record_cs is None
                && a.debug_screenshot is None && a.record_failure is None
        }),
{
}

/// The state of a run from the start of a game after its first `n` rounds,
/// the rounds seeing the events `evs` in order.
pub open spec fn run_state(evs: Seq<CaptureEvent>, debug: bool, recording: bool, n: nat) -> CaptureState
    decreases n,
{
    if n == 0 {
        initial_capture_state()
    } else {
        capture_round_spec(run_state(evs, debug, recording, (n - 1) as nat), evs[n - 1], debug, recording).0
    }
}

/// What round `i` of such a run asks for.
pub open spec fn run_actions(evs: Seq<CaptureEvent>, debug: bool, recording: bool, i: nat) -> CaptureActions {
    capture_round_spec(run_state(evs, debug, recording, i), evs[i as int], debug, recording).1
}

/// Whether the latest reading among the first `n` events was a plausible
/// value; true where there was no reading yet.
pub open spec fn last_reading_ok(evs: Seq<CaptureEvent>, n: nat) -> bool
    decreases n,
{
    if n == 0 {
        true
    } else {
        match evs[n - 1] {
            CaptureEvent::Reading(cs) => cs matches Some(v) && spec_is_valid_cs(v as int),
            _ => last_reading_ok(evs, (n - 1) as nat),
        }
    }
}

/// Whether an event is a reading that gave no plausible value.
pub open spec fn is_failed_reading(ev: CaptureEvent) -> bool {
    ev matches CaptureEvent::Reading(cs) && !(cs matches Some(v) && spec_is_valid_cs(v as int))
}

/// The number of debug screenshots asked for in the first `n` rounds.
pub open spec fn debug_shots(evs: Seq<CaptureEvent>, debug: bool, recording: bool, n: nat) -> nat
    decreases n,
{
    if n == 0 {
        0
    } else {
        debug_shots(evs, debug, recording, (n - 1) as nat) + if run_actions(
            evs,
            debug,
            recording,
            (n - 1) as nat,
        ).debug_screenshot is Some {
            1nat
        } else {
            0nat
        }
    }
}

/// The number of failed readings recorded in the first `n` rounds.
pub open spec fn failures_recorded(evs: Seq<CaptureEvent>, debug: bool, recording: bool, n: nat) -> nat
    decreases n,
{
    if n == 0 {
        0
    } else {
        failures_recorded(evs, debug, recording, (n - 1) as nat) + if run_actions(
            evs,
            debug,
            recording,
            (n - 1) as nat,
        ).record_failure is Some {
            1nat
        } else {
            0nat
        }
    }
}

/// The value last recorded in the first `n` rounds, if any.
pub open spec fn last_recorded(evs: Seq<CaptureEvent>, debug: bool, recording: bool, n: nat) -> Option<i64>
    decreases n,
{
    if n == 0 {
        None
    } else {
        match run_actions(evs, debug, recording, (n - 1) as nat).record_cs {
            Some(v) => Some(v),
            None => last_recorded(evs, debug, recording, (n - 1) as nat),
        }
    }
}

/// What the state of a run holds after `n` rounds, in terms of the rounds so far.
proof fn lemma_run_state(evs: Seq<CaptureEvent>, debug: bool, recording: bool, n: nat)
    requires
        n <= evs.len(),
        n <= u64::MAX,
    ensures
        run_state(evs, debug, recording, n).screenshot_index == debug_shots(evs, debug, recording, n),
        debug_shots(evs, debug, recording, n) <= DEBUG_SCREENSHOT_MAX,
        run_state(evs, debug, recording, n).record_fail_index == failures_recorded(evs, debug, recording, n),
        failures_recorded(evs, debug, recording, n) <= n,
        run_state(evs, debug, recording, n).last_ocr_ok == last_reading_ok(evs, n),
        run_state(evs, debug, recording, n).last_recorded_cs == last_recorded(evs, debug, recording, n),
    decreases n,
{
    if n > 0 {
        let m = (n - 1) as nat;
        lemma_run_state(evs, debug, recording, m);
    }
}

/// Along a run from the start of a game of at most `u64::MAX` rounds, every
/// round meets the requirement of `capture_round`: the failure count never
/// reaches the end of its range.
pub proof fn lemma_run_rounds_fit(evs: Seq<CaptureEvent>, debug: bool, recording: bool, i: nat)
    requires
        i < evs.len() <= u64::MAX,
    ensures
        capture_round_fits(run_state(evs, debug, recording, i), evs[i as int], recording),
{
    lemma_run_state(evs, debug, recording, i);
}

/// Debug screenshots along a run: round `i` asks for one exactly in debug mode,
/// on a reading without a plausible value that follows the start of the game or
/// a good reading, while fewer than `DEBUG_SCREENSHOT_MAX` were taken; it is
/// numbered by how many came before it. So one run takes at most
/// `DEBUG_SCREENSHOT_MAX` of them, numbered 0, 1, 2, ... in order.
pub proof fn lemma_run_debug_screenshots(evs: Seq<CaptureEvent>, debug: bool, recording: bool, i: nat)
    requires
        i < evs.len() <= u64::MAX,
    ensures
        run_actions(evs, debug, recording, i).debug_screenshot is Some <==> debug && is_failed_reading(
            evs[i as int],
        ) && last_reading_ok(evs, i) && debug_shots(evs, debug, recording, i) < DEBUG_SCREENSHOT_MAX,
        run_actions(evs, debug, recording, i).debug_screenshot matches Some(k) ==> k == debug_shots(
            evs,
            debug,
            recording,
            i,
        ),
        debug_shots(evs, debug, recording, evs.len()) <= DEBUG_SCREENSHOT_MAX,
{
    lemma_run_state(evs, debug, recording, i);
    lemma_run_state(evs, debug, recording, evs.len());
}

/// Recorded failures along a run: round `i` records one exactly when
/// recording, on a reading without a plausible value that follows the start of
/// the game or a good reading; it is numbered by how many came before it, so
/// the numbers run 0, 1, 2, ... in order.
pub proof fn lemma_run_recorded_failures(evs: Seq<CaptureEvent>, debug: bool, recording: bool, i: nat)
    requires
        i < evs.len() <= u64::MAX,
    ensures
        run_actions(evs, debug, recording, i).record_failure is Some <==> recording && is_failed_reading(
            evs[i as int],
        ) && last_reading_ok(evs, i),
        run_actions(evs, debug, recording, i).record_failure matches Some(k) ==> k == failures_recorded(
            evs,
            debug,
            recording,
            i,
        ),
{
    lemma_run_state(evs, debug, recording, i);
}

/// Recorded values along a run: round `i` records the value `v` exactly when
/// recording, on a reading of the plausible value `v` that is greater than the
/// last value recorded before, if any.
pub proof fn lemma_run_recorded_values(evs: Seq<CaptureEvent>, debug: bool, recording: bool, i: nat, v: i64)
    requires
        i < evs.len() <= u64::MAX,
    ensures
        run_actions(evs, debug, recording, i).record_cs == Some(v) <==> recording && evs[i as int]
            == CaptureEvent::Reading(Some(v)) && spec_is_valid_cs(v as int) && (last_recorded(
            evs,
            debug,
            recording,
            i,
        ) matches Some(last) ==> v > last),
{
    lemma_run_state(evs, debug, recording, i);
}

/// The value last recorded never falls along a run.
proof fn lemma_last_recorded_grows(evs: Seq<CaptureEvent>, debug: bool, recording: bool, i: nat, j: nat)
    requires
        i <= j <= evs.len(),
        evs.len() <= u64::MAX,
        last_recorded(evs, debug, recording, i) is Some,
    ensures
        last_recorded(evs, debug, recording, j) matches Some(b) && last_recorded(
            evs,
            debug,
            recording,
            i,
        )->0 <= b,
    decreases j - i,
{
    if i < j {
        let m = (j - 1) as nat;
        lemma_last_recorded_grows(evs, debug, recording, i, m);
        lemma_run_state(evs, debug, recording, m);
    }
}

/// The values recorded in one run strictly increase.
pub proof fn lemma_run_recorded_values_increase(
    evs: Seq<CaptureEvent>,
    debug: bool,
    recording: bool,
    i: nat,
    j: nat,
)
    requires
        i < j < evs.len() <= u64::MAX,
        run_actions(evs, debug, recording, i).record_cs is Some,
        run_actions(evs, debug, recording, j).record_cs is Some,
    ensures
        run_actions(evs, debug, recording, i).record_cs->0 < run_actions(
            evs,
            debug,
            recording,
            j,
        ).record_cs->0,
{
    let a = run_actions(evs, debug, recording, i).record_cs->0;
    assert(last_recorded(evs, debug, recording, i + 1) == Some(a));
    lemma_last_recorded_grows(evs, debug, recording, (i + 1) as nat, j);
    lemma_run_state(evs, debug, recording, j);
}

/// Where the CS value shown comes from.
#[derive(Clone, Copy, Debug, PartialEq, Eq, Structural)]
pub enum CsSource {
    Ocr,
    Api,
}

/// What the display loop prints after one sample.
#[derive(Clone, Copy, Debug, PartialEq, Eq, Structural)]
pub enum DisplayAction {
    /// Print the CS rate for the value `cs`, read from `source`.
    Report { cs: i64, source: CsSource },
    /// Print that no live game is detected.
    NoGame,
    /// Print nothing.
    Idle,
}

/// What the display loop remembers between samples.
#[derive(Clone, Copy, Debug, PartialEq, Eq, Structural)]
pub struct DisplayState {
    /// The last value printed, -1 when none (no game).
    pub last_cs: i64,
    /// Whether the absence of a game has been printed.
    pub no_game_printed: bool,
}

pub open spec fn initial_display_state() -> DisplayState {
    DisplayState { last_cs: -1i64, no_game_printed: false }
}

impl DisplayState {
    pub fn new() -> (s: DisplayState)
        ensures
            s == initial_display_state(),
    {
        DisplayState { last_cs: -1, no_game_printed: false }
    }
}

/// One step of the display loop. With a game (`api_cs` is the creep score that
/// the game reports), a plausible OCR value is preferred to the reported one;
/// it is printed when it is greater than the last printed value or when ten
/// seconds have passed since the last print (`elapsed`). Without a game, the
/// absence is printed once, until a game is seen again.
pub open spec fn display_step_spec(s: DisplayState, api_cs: Option<i64>, ocr_cs: Option<i64>, elapsed: bool) -> (DisplayState, DisplayAction) {
    match api_cs {
        Some(reported) => {
            let (cs, source) = match ocr_cs {
                Some(c) if spec_is_valid_cs(c as int) => (c, CsSource::Ocr),
                _ => (reported, CsSource::Api),
            };
            if cs > s.last_cs || elapsed {
                (DisplayState { last_cs: cs, ..s }, DisplayAction::Report { cs, source })
            } else {
                (s, DisplayAction::Idle)
            }
        },
        None => {
            if s.last_cs != -1 || !s.no_game_printed {
                (DisplayState { last_cs: -1i64, no_game_printed: true }, DisplayAction::NoGame)
            } else {
                (s, DisplayAction::Idle)
            }
        },
    }
}

/// Decides what to print for one sample and updates the state.
pub fn display_step(state: &mut DisplayState, api_cs: Option<i64>, ocr_cs: Option<i64>, elapsed: bool) -> (action: DisplayAction)
    ensures
        (*final(state), action) == display_step_spec(*old(state), api_cs, ocr_cs, elapsed),
{
    match api_cs {
        Some(reported) => {
            let ocr_ok = match ocr_cs {
                Some(c) => is_valid_cs(c),
                None => false,
            };
            let (cs, source) = if ocr_ok { (ocr_cs.unwrap(), CsSource::Ocr) } else { (reported, CsSource::Api) };
            if cs > state.last_cs || elapsed {
                state.last_cs = cs;
                DisplayAction::Report { cs, source }
            } else {
                DisplayAction::Idle
            }
        },
        None => {
            if state.last_cs != -1 || !state.no_game_printed {
                state.last_cs = -1;
                state.no_game_printed = true;
                DisplayAction::NoGame
            } else {
                DisplayAction::Idle
            }
        },
    }
}

/// The absence of a game is printed once: a second sample without a game
/// right after a printed absence prints nothing and changes nothing.
pub proof fn lemma_no_game_printed_once(s: DisplayState, ocr1: Option<i64>, ocr2: Option<i64>, e1: bool, e2: bool)
    ensures
        ({
            let (t, a) = display_step_spec(s, None, ocr1, e1);
            let (u, b) = display_step_spec(t, None, ocr2, e2);
            &&& t.last_cs == -1 && t.no_game_printed
            &&& b == DisplayAction::Idle
            &&& u == t
        }),
{
}

/// With a game running, the value printed never goes down between reports
/// that come within ten seconds of each other: a report without `elapsed`
/// shows a value above the last one printed.
pub proof fn lemma_reports_rise_within_interval(s: DisplayState, api_cs: i64, ocr_cs: Option<i64>)
    ensures
        ({
            let (t, a) = display_step_spec(s, Some(api_cs), ocr_cs, false);
            a matches DisplayAction::Report { cs, source } ==> cs > s.last_cs && t.last_cs == cs
        }),
{
}

/// Every plausible reading (0 to 999) is published, whatever came before it;
/// a missing or implausible one publishes nothing. No reading ends the loop.
pub proof fn lemma_plausible_readings_published(s: CaptureState, cs: Option<i64>, debug: bool, recording: bool)
    ensures
        (cs matches Some(v) && 0 <= v <= 999) ==> capture_step_spec(s, cs, debug, recording).1.publish
            == cs,
        !(cs matches Some(v) && 0 <= v <= 999) ==> capture_step_spec(
            s,
            cs,
            debug,
            recording,
        ).1.publish is None,
        !capture_step_spec(s, cs, debug, recording).1.finish,
{
}

/// Along a run, round `i` publishes `v` exactly when it reads the plausible
/// value `v`.
pub proof fn lemma_run_publishes_plausible_readings(
    evs: Seq<CaptureEvent>,
    debug: bool,
    recording: bool,
    i: nat,
    v: i64,
)
    requires
        i < evs.len(),
    ensures
        run_actions(evs, debug, recording, i).publish == Some(v) <==> evs[i as int]
            == CaptureEvent::Reading(Some(v)) && 0 <= v <= 999,
{
}

/// The value that a sample with a game shows: the OCR value where it is
/// plausible, else the value that the game reports.
pub open spec fn shown_value(reported: i64, ocr_cs: Option<i64>) -> (i64, CsSource) {
    if ocr_cs matches Some(c) && 0 <= c <= 999 {
        (ocr_cs->0, CsSource::Ocr)
    } else {
        (reported, CsSource::Api)
    }
}

/// With a game running, once ten seconds have passed a report is always made,
/// of the plausible OCR value if there is one and else of the reported value,
/// and that value becomes the last one printed.
pub proof fn lemma_report_after_interval(s: DisplayState, reported: i64, ocr_cs: Option<i64>)
    ensures
        ({
            let (cs, source) = shown_value(reported, ocr_cs);
            display_step_spec(s, Some(reported), ocr_cs, true) == (
                DisplayState { last_cs: cs, no_game_printed: s.no_game_printed },
                DisplayAction::Report { cs, source },
            )
        }),
{
}

/// With a game running and less than ten seconds since the last print, a
/// report is made exactly when the shown value is above the last one printed;
/// otherwise nothing is printed and nothing changes.
pub proof fn lemma_report_within_interval(s: DisplayState, reported: i64, ocr_cs: Option<i64>)
    ensures
        ({
            let (cs, source) = shown_value(reported, ocr_cs);
            display_step_spec(s, Some(reported), ocr_cs, false) == if cs > s.last_cs {
                (
                    DisplayState { last_cs: cs, no_game_printed: s.no_game_printed },
                    DisplayAction::Report { cs, source },
                )
            } else {
                (s, DisplayAction::Idle)
            }
        }),
{
}

/// Without a game, the absence is printed exactly when something was shown
/// since, or it was never printed; the state then says so.
pub proof fn lemma_no_game_reported(s: DisplayState, ocr_cs: Option<i64>, elapsed: bool)
    ensures
        display_step_spec(s, None, ocr_cs, elapsed) == if s.last_cs != -1 || !s.no_game_printed {
            (DisplayState { last_cs: -1i64, no_game_printed: true }, DisplayAction::NoGame)
        } else {
            (s, DisplayAction::Idle)
        },
{
}

} // verus!
