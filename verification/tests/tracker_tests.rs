use lol_live::tracker::{
    capture_round, capture_step, display_step, CaptureActions, CaptureEvent, CaptureState, CsSource,
    DisplayAction, DisplayState, DEBUG_SCREENSHOT_MAX,
};

#[test]
fn good_readings_publish_and_record_increases() {
    let mut s = CaptureState::new();
    let a = capture_step(&mut s, Some(12), false, true);
    assert_eq!(a, CaptureActions { finish: false, publish: Some(12), record_cs: Some(12), debug_screenshot: None, record_failure: None });
    let a = capture_step(&mut s, Some(12), false, true);
    assert_eq!(a.record_cs, None);
    assert_eq!(a.publish, Some(12));
    let a = capture_step(&mut s, Some(9), false, true);
    assert_eq!(a.record_cs, None);
    let a = capture_step(&mut s, Some(13), false, true);
    assert_eq!(a.record_cs, Some(13));
    assert_eq!(s.last_recorded_cs, Some(13));
}

#[test]
fn no_recording_without_record_mode() {
    let mut s = CaptureState::new();
    let a = capture_step(&mut s, Some(40), true, false);
    assert_eq!(a.record_cs, None);
    assert_eq!(s.last_recorded_cs, None);
}

#[test]
fn implausible_value_is_a_failure() {
    let mut s = CaptureState::new();
    let a = capture_step(&mut s, Some(1000), true, true);
    assert_eq!(a, CaptureActions { finish: false, publish: None, record_cs: None, debug_screenshot: Some(0), record_failure: Some(0) });
    // a second failure in a row asks for nothing
    let a = capture_step(&mut s, None, true, true);
    assert_eq!(a, CaptureActions { finish: false, publish: None, record_cs: None, debug_screenshot: None, record_failure: None });
    capture_step(&mut s, Some(5), true, true);
    let a = capture_step(&mut s, Some(-3), true, true);
    assert_eq!(a.debug_screenshot, Some(1));
    assert_eq!(a.record_failure, Some(1));
}

#[test]
fn debug_screenshots_stop_at_the_limit() {
    let mut s = CaptureState { screenshot_index: DEBUG_SCREENSHOT_MAX - 1, last_ocr_ok: true, last_recorded_cs: None, record_fail_index: 0 };
    assert_eq!(capture_step(&mut s, None, true, false).debug_screenshot, Some(99));
    capture_step(&mut s, Some(1), true, false);
    assert_eq!(capture_step(&mut s, None, true, false).debug_screenshot, None);
    assert_eq!(s.screenshot_index, DEBUG_SCREENSHOT_MAX);
}

#[test]
fn display_prefers_plausible_ocr() {
    let mut s = DisplayState::new();
    assert_eq!(display_step(&mut s, Some(10), Some(12), false), DisplayAction::Report { cs: 12, source: CsSource::Ocr });
    assert_eq!(display_step(&mut s, Some(20), Some(1000), false), DisplayAction::Report { cs: 20, source: CsSource::Api });
    assert_eq!(display_step(&mut s, Some(20), None, false), DisplayAction::Idle);
    assert_eq!(display_step(&mut s, Some(15), None, false), DisplayAction::Idle);
    assert_eq!(display_step(&mut s, Some(15), None, true), DisplayAction::Report { cs: 15, source: CsSource::Api });
    assert_eq!(s.last_cs, 15);
}

#[test]
fn no_game_printed_once() {
    let mut s = DisplayState::new();
    assert_eq!(display_step(&mut s, None, None, false), DisplayAction::NoGame);
    assert_eq!(display_step(&mut s, None, Some(3), true), DisplayAction::Idle);
    assert_eq!(display_step(&mut s, Some(0), None, false), DisplayAction::Report { cs: 0, source: CsSource::Api });
    assert_eq!(display_step(&mut s, None, None, false), DisplayAction::NoGame);
}

#[test]
fn rounds_stop_at_game_end_and_skip_failed_captures() {
    let mut s = CaptureState::new();
    capture_round(&mut s, CaptureEvent::Reading(Some(7)), false, true);
    let before = s;
    let a = capture_round(&mut s, CaptureEvent::CaptureFailed, true, true);
    assert_eq!(a, CaptureActions { finish: false, publish: None, record_cs: None, debug_screenshot: None, record_failure: None });
    assert_eq!(s, before);
    let a = capture_round(&mut s, CaptureEvent::GameInactive, true, true);
    assert!(a.finish);
    assert_eq!((a.publish, a.record_cs, a.debug_screenshot, a.record_failure), (None, None, None, None));
    assert_eq!(s, before);
    let a = capture_round(&mut s, CaptureEvent::Reading(Some(9)), false, true);
    assert_eq!(a.record_cs, Some(9));
    assert!(!a.finish);
}

#[test]
fn run_numbers_failures_and_screenshots_in_order() {
    let events = [
        CaptureEvent::Reading(None),
        CaptureEvent::Reading(Some(5000)),
        CaptureEvent::CaptureFailed,
        CaptureEvent::Reading(Some(4)),
        CaptureEvent::Reading(Some(3)),
        CaptureEvent::Reading(None),
        CaptureEvent::Reading(Some(8)),
        CaptureEvent::Reading(Some(-2)),
        CaptureEvent::GameInactive,
    ];
    let mut s = CaptureState::new();
    let mut shots = Vec::new();
    let mut failures = Vec::new();
    let mut recorded = Vec::new();
    let mut finished = Vec::new();
    for (i, ev) in events.iter().enumerate() {
        let a = capture_round(&mut s, *ev, true, true);
        if let Some(k) = a.debug_screenshot {
            shots.push((i, k));
        }
        if let Some(k) = a.record_failure {
            failures.push((i, k));
        }
        if let Some(v) = a.record_cs {
            recorded.push(v);
        }
        if a.finish {
            finished.push(i);
        }
    }
    assert_eq!(shots, vec![(0, 0), (5, 1), (7, 2)]);
    assert_eq!(failures, vec![(0, 0), (5, 1), (7, 2)]);
    assert_eq!(recorded, vec![4, 8]);
    assert_eq!(finished, vec![8]);
}
