use std::cell::{Cell, RefCell};
use std::collections::{HashSet, VecDeque};

use vellum::capture::{
    Capture, CaptureError, CaptureNotice, CaptureStats, CapturedFrame, Command, Queue,
    take_unprocessed_latest,
};
use vellum::geom::{Edge, Rect};
use vellum::gray::Rgb8;
use vellum::placement::{
    AfterCheck, HiddenCaptureFeedback, HiddenReason, MICRO_HINT_HORIZONTAL, MICRO_HINT_VERTICAL,
    MicroPanelSizes, MissingPanelAction, PANEL_MARGIN, PanelFeedback, PanelVerification, Placement,
    SelectionPanelNotice, Start, after_check, after_unmap, choose_placement, edge_has_room,
    hidden_capture_feedback, missing_panel_action, panel_edge, panel_feedback,
    placement_has_live_preview, proven_screen, selection_fits_screen, selection_panel_notice,
    start, verify_panel_allocation,
};
use vellum::preview::{
    PreviewPlan, PreviewThrottle, live_preview_size, live_preview_thumbnail,
};
use vellum::readout::{
    Hint, StitchDecision, details_text, displayed_hint, group_digits, metrics_text, motion_text,
    panel_title, short_pixel_count,
};
use vellum::session::{
    Attempt, Finish, FrameSource, Outcome, SEAM_HISTORY_LEN, Session, Stitched, Verdict, conclude,
    push_seam_decision,
};

const MS: u64 = 1_000_000;

#[test]
fn live_viewport_feedback_is_distinct_from_canvas_growth() {
    assert_eq!(motion_text(StitchDecision::Accepted, 20), "↓ 20 px");
    assert_eq!(motion_text(StitchDecision::Accepted, -12), "↑ 12 px");
    assert_eq!(motion_text(StitchDecision::Revisit, -20), "回访已捕获区域");
    assert_eq!(motion_text(StitchDecision::Rejected, 0), "正在寻找重叠");
}

#[test]
fn live_preview_preserves_aspect_and_never_upscales() {
    let wide = Rgb8::new(1200, 600);
    assert_eq!(live_preview_size(&wide, 240, 86), Some((172, 86)));
    let tall = Rgb8::new(300, 900);
    assert_eq!(live_preview_size(&tall, 240, 86), Some((29, 86)));
    let small = Rgb8::new(40, 20);
    assert_eq!(live_preview_size(&small, 240, 86), Some((40, 20)));
    assert_eq!(live_preview_size(&Rgb8::new(0, 0), 240, 86), None);

    let viewport = Rgb8::new(600, 500);
    let thumbnail = live_preview_thumbnail(&viewport, 240, 86).unwrap();
    assert_eq!((thumbnail.width, thumbnail.height), (240, 86));
    assert!(live_preview_thumbnail(&Rgb8::new(0, 0), 240, 86).is_none());
}

#[test]
fn throttled_preview_coalesces_to_the_latest_frame_instead_of_dropping_it() {
    let started = 5_000 * MS;
    let mut throttle = PreviewThrottle::new();
    let first = Rgb8::from_raw(1, 1, vec![1, 1, 1]);
    let second = Rgb8::from_raw(1, 1, vec![2, 2, 2]);

    assert!(matches!(throttle.submit(first, started), PreviewPlan::Render(_)));
    throttle.note_rendered(started);
    let plan = throttle.submit(second, started + 10 * MS);
    assert!(
        matches!(plan, PreviewPlan::Schedule(delay) if delay == 70 * MS),
        "the trailing viewport was discarded instead of scheduling a refresh"
    );

    let newest = Rgb8::from_raw(1, 1, vec![3, 3, 3]);
    assert!(matches!(throttle.submit(newest, started + 20 * MS), PreviewPlan::Coalesced));
    assert_eq!(
        throttle.take_scheduled().map(|image| image.data[0]),
        Some(3),
        "the scheduled refresh did not keep the newest viewport"
    );
}

#[test]
fn compact_micro_and_hidden_panels_skip_preview_generation() {
    assert!(placement_has_live_preview(Placement::WithPreview(Edge::Right)));
    assert!(!placement_has_live_preview(Placement::WithoutPreview(Edge::Right)));
    assert!(!placement_has_live_preview(Placement::Micro(Edge::Top)));
    assert!(!placement_has_live_preview(Placement::Hidden(HiddenReason::NoSafeSpace)));
}

#[test]
fn seam_track_is_bounded_to_recent_decisions() {
    let mut history = VecDeque::new();
    for index in 0..(SEAM_HISTORY_LEN + 5) {
        let decision = if index % 2 == 0 {
            StitchDecision::Accepted
        } else {
            StitchDecision::Revisit
        };
        push_seam_decision(&mut history, decision);
    }
    assert_eq!(history.len(), SEAM_HISTORY_LEN);
    assert_eq!(history.back(), Some(&StitchDecision::Accepted));
}

#[test]
fn finishing_before_the_first_stitched_frame_is_a_user_cancellation() {
    assert!(CaptureStats::new().ended_before_the_first_stitched_frame());

    let only_warmup = CaptureStats { successful: 1, warmup_discarded: 1, ..CaptureStats::new() };
    assert!(only_warmup.ended_before_the_first_stitched_frame());

    let stitched = CaptureStats { successful: 2, warmup_discarded: 1, ..CaptureStats::new() };
    assert!(!stitched.ended_before_the_first_stitched_frame());

    let failed = CaptureStats { failures: 1, ..CaptureStats::new() };
    assert!(!failed.ended_before_the_first_stitched_frame());
}

#[test]
fn digits_are_grouped_like_the_python_readout() {
    assert_eq!(group_digits(0), "0");
    assert_eq!(group_digits(240), "240");
    assert_eq!(group_digits(1234), "1,234");
    assert_eq!(group_digits(1234567), "1,234,567");
}

#[test]
fn every_hint_has_text() {
    for hint in [
        Hint::Sampling,
        Hint::Recovering,
        Hint::Recovered,
        Hint::SlowDown,
        Hint::NoMove,
        Hint::CaptureRetry,
        Hint::CaptureResumed,
    ] {
        let (chip, status) = hint.text();
        assert!(!chip.is_empty() && !status.is_empty());
    }
}

/// What the capture loop and the main loop share.
struct Shared {
    sampling: Cell<bool>,
    aborting: Cell<bool>,
    queue: RefCell<Queue>,
}

impl Shared {
    fn new() -> Self {
        Shared {
            sampling: Cell::new(true),
            aborting: Cell::new(false),
            queue: RefCell::new(Queue::new()),
        }
    }

    fn stop_sampling(&self) {
        self.sampling.set(false);
    }

    fn abort_capture(&self) {
        self.aborting.set(true);
    }
}

/// Runs the loop of a capture without waiting anywhere.
fn capture_loop(
    shared: &Shared,
    notify: impl Fn(),
    discard_first: bool,
    mut grab: impl FnMut() -> Result<Rgb8, CaptureError>,
) {
    let mut capture = Capture::new(discard_first);
    let mut command = capture.awake(shared.sampling.get());
    loop {
        command = match command {
            Command::Grab => {
                let result = grab();
                capture.grabbed(
                    &mut shared.queue.borrow_mut(),
                    result,
                    shared.sampling.get(),
                    shared.aborting.get(),
                )
            }
            Command::AwaitRoom => {
                capture.room(&mut shared.queue.borrow_mut(), shared.sampling.get())
            }
            Command::Rest { notify: told } | Command::Retry { notify: told, .. } => {
                if told {
                    notify();
                }
                capture.awake(shared.sampling.get())
            }
            Command::Stop => return,
        };
    }
}

#[test]
fn a_persistent_backend_keeps_its_first_frame_instead_of_warming_twice() {
    let shared = Shared::new();
    let calls = Cell::new(0);
    capture_loop(
        &shared,
        || {
            shared.stop_sampling();
            shared.abort_capture();
        },
        false,
        || {
            calls.set(calls.get() + 1);
            Ok(Rgb8::from_raw(2, 2, vec![5; 12]))
        },
    );

    let queue = shared.queue.borrow();
    assert_eq!(calls.get(), 1);
    assert_eq!(queue.frames.len(), 1);
    assert_eq!(queue.latest.as_ref().map(|frame| frame.image.data[0]), Some(5));
    assert_eq!(queue.stats.successful, 1);
    assert_eq!(queue.stats.enqueued, 1);
    assert_eq!(queue.stats.max_queue_depth, 1);
    assert_eq!(queue.stats.exact_duplicates, 0);
}

#[test]
fn a_frame_finishing_during_graceful_stop_is_kept_as_latest() {
    let shared = Shared::new();
    let calls = Cell::new(0);
    capture_loop(
        &shared,
        || {},
        true,
        || {
            calls.set(calls.get() + 1);
            if calls.get() == 1 {
                return Ok(Rgb8::new(2, 2));
            }
            shared.stop_sampling();
            Ok(Rgb8::from_raw(2, 2, vec![7; 12]))
        },
    );

    let queue = shared.queue.borrow();
    assert!(queue.frames.is_empty());
    assert_eq!(queue.latest.as_ref().map(|frame| frame.image.data[0]), Some(7));
    assert_eq!(queue.latest.as_ref().map(|frame| frame.sequence), Some(2));
    assert_eq!(queue.stats.successful, 2);
    assert_eq!(queue.stats.warmup_discarded, 1);
    assert_eq!(queue.stats.enqueued, 0);
}

#[test]
fn exact_static_frames_do_not_fill_the_capture_queue() {
    let shared = Shared::new();
    let calls = Cell::new(0);
    capture_loop(
        &shared,
        || {},
        true,
        || {
            let call = calls.get();
            calls.set(call + 1);
            if call == 3 {
                shared.stop_sampling();
            }
            Ok(Rgb8::from_raw(2, 2, vec![9; 12]))
        },
    );

    let queue = shared.queue.borrow();
    assert_eq!(calls.get(), 4);
    assert_eq!(queue.frames.len(), 1);
    assert_eq!(queue.latest.as_ref().map(|frame| frame.image.data[0]), Some(9));
    assert_eq!(queue.stats.successful, 4);
    assert_eq!(queue.stats.warmup_discarded, 1);
    assert_eq!(queue.stats.enqueued, 1);
    assert_eq!(queue.stats.exact_duplicates, 2);
}

#[test]
fn a_failed_warmup_is_reported_without_waiting_for_a_second_failure() {
    let shared = Shared::new();
    let calls = Cell::new(0);
    capture_loop(
        &shared,
        || {
            shared.queue.borrow_mut().release();
            shared.stop_sampling();
            shared.abort_capture();
        },
        true,
        || {
            calls.set(calls.get() + 1);
            Err(CaptureError::Timeout)
        },
    );

    let queue = shared.queue.borrow();
    assert_eq!(calls.get(), 1);
    assert_eq!(
        queue.notice,
        Some(CaptureNotice::Retrying { consecutive: 1, timed_out: true })
    );
    assert_eq!(queue.stats.failures, 1);
    assert_eq!(queue.stats.successful, 0);
}

#[test]
fn capture_failure_is_reported_and_a_later_frame_marks_recovery() {
    let shared = Shared::new();
    let calls = Cell::new(0);
    let notifications = Cell::new(0);
    capture_loop(
        &shared,
        || {
            notifications.set(notifications.get() + 1);
            shared.queue.borrow_mut().release();
            if shared.queue.borrow().frames.len() == 1 {
                shared.stop_sampling();
                shared.abort_capture();
            }
        },
        true,
        || {
            let call = calls.get();
            calls.set(call + 1);
            match call {
                0 => Ok(Rgb8::new(2, 2)),
                1 => Err(CaptureError::Timeout),
                _ => Ok(Rgb8::new(2, 2)),
            }
        },
    );

    let queue = shared.queue.borrow();
    assert_eq!(queue.notice, Some(CaptureNotice::Resumed));
    assert_eq!(queue.frames.len(), 1);
    assert_eq!(queue.stats.successful, 2);
    assert_eq!(queue.stats.warmup_discarded, 1);
    assert_eq!(queue.stats.failures, 1);
    assert_eq!(queue.stats.enqueued, 1);
    assert!(notifications.get() >= 2);
}

#[test]
fn a_full_queue_holds_the_next_frame_until_there_is_room() {
    let shared = Shared::new();
    let mut capture = Capture::new(false);
    for byte in 0..48u8 {
        let result = Ok(Rgb8::from_raw(1, 1, vec![byte; 3]));
        let command = capture.grabbed(&mut shared.queue.borrow_mut(), result, true, false);
        assert_eq!(command, Command::Rest { notify: byte == 0 });
    }
    let result = Ok(Rgb8::from_raw(1, 1, vec![200; 3]));
    let mut queue = shared.queue.borrow_mut();
    assert_eq!(capture.grabbed(&mut queue, result, true, false), Command::AwaitRoom);
    assert_eq!(queue.frames.len(), 48);
    assert_eq!(capture.room(&mut queue, true), Command::AwaitRoom);
    let (frame, notice) = queue.consume();
    assert_eq!(frame.map(|frame| (frame.sequence, frame.image.data[0])), Some((1, 0)));
    assert_eq!(notice, None);
    assert_eq!(capture.room(&mut queue, true), Command::Rest { notify: true });
    assert_eq!(queue.frames.len(), 48);
    assert_eq!(queue.frames.back().map(|frame| frame.sequence), Some(49));
    assert_eq!(queue.stats.max_queue_depth, 48);
}

#[test]
fn a_cancelled_grab_ends_the_capture_once_nothing_is_wanted() {
    let mut queue = Queue::new();
    let mut capture = Capture::new(false);
    let result = Err(CaptureError::Cancelled);
    assert_eq!(capture.grabbed(&mut queue, result, true, true), Command::Stop);
    let result = Err(CaptureError::Cancelled);
    assert_eq!(
        capture.grabbed(&mut queue, result, true, false),
        Command::Retry { notify: true, log: true }
    );
    for error in [
        CaptureError::NotFound,
        CaptureError::Failed("x".into()),
        CaptureError::Decode("y".into()),
    ] {
        assert_eq!(
            capture.grabbed(&mut queue, Err(error), true, false),
            Command::Retry { notify: false, log: false }
        );
    }
    assert_eq!(queue.stats.failures, 4);
    assert_eq!(
        queue.notice,
        Some(CaptureNotice::Retrying { consecutive: 4, timed_out: false })
    );
}

#[test]
fn finish_only_uses_latest_when_the_ordered_queue_did_not_process_it() {
    let mut queue = Queue::new();
    queue.latest = Some(CapturedFrame { sequence: 9, image: Rgb8::new(2, 2) });
    assert!(take_unprocessed_latest(&mut queue, 9).is_none());

    queue.latest = Some(CapturedFrame { sequence: 10, image: Rgb8::new(2, 2) });
    assert_eq!(take_unprocessed_latest(&mut queue, 9).map(|frame| frame.sequence), Some(10));
}

#[test]
fn micro_height_readout_stays_short_at_large_canvas_sizes() {
    assert_eq!(short_pixel_count(9999), "9,999 px");
    assert_eq!(short_pixel_count(10_000), "10.0k");
    assert_eq!(short_pixel_count(18_446_744), "18.4M");
}

#[test]
fn direct_mode_keeps_capture_failures_visible_in_the_main_status() {
    assert_eq!(displayed_hint(false, Some(Hint::CaptureRetry)), Hint::CaptureRetry);
    assert_eq!(displayed_hint(true, Some(Hint::CaptureRetry)), Hint::CaptureRetry);
    assert_eq!(panel_title(true), "长截图");
    assert!(panel_title(false).contains("仅面板完成"));
}

#[test]
fn sampled_area_feedback_never_uses_a_desktop_notification() {
    assert_eq!(missing_panel_action(true), MissingPanelAction::ContinueTraceOnly);
    assert_eq!(
        missing_panel_action(false),
        MissingPanelAction::FailBeforeUncontrolledCapture
    );
    assert_eq!(hidden_capture_feedback(), HiddenCaptureFeedback::TraceOnly);
}

#[test]
fn hidden_map_failed_and_unsafe_geometry_have_distinct_feedback() {
    let hidden = panel_feedback(PanelFeedback::Hidden(HiddenReason::NoSafeSpace));
    let unknown = panel_feedback(PanelFeedback::Hidden(HiddenReason::UnknownScreenGeometry));
    let map_failed = panel_feedback(PanelFeedback::MapFailed);
    let unsafe_geometry = panel_feedback(PanelFeedback::UnsafeActualGeometry);

    let reasons = [hidden.0, unknown.0, map_failed.0, unsafe_geometry.0];
    let unique: HashSet<_> = reasons.into_iter().collect();
    assert_eq!(unique.len(), reasons.len());
    assert!(hidden.2.contains("不会启动"));
    assert!(unknown.2.contains("不会开始"));
    assert!(map_failed.2.contains("安全停止"));
    assert!(unsafe_geometry.2.contains("实际尺寸"));
    for body in [hidden.2, unknown.2, map_failed.2, unsafe_geometry.2] {
        assert!(!body.contains("继续采集"));
        assert!(!body.contains("再次按"));
    }
}

#[test]
fn uncertain_output_coordinates_fail_closed_before_showing_recorder_ui() {
    let screen = (1920, 1080);
    assert!(selection_fits_screen(Rect::new(0, 0, 1920, 1080), screen));
    assert!(!selection_fits_screen(Rect::new(-1, 0, 100, 100), screen));
    assert!(!selection_fits_screen(Rect::new(1800, 900, 200, 200), screen));
    assert!(!selection_fits_screen(Rect::new(10, 10, 0, 100), screen));
    assert!(!selection_fits_screen(Rect::new(i32::MAX - 4, 0, 10, 10), screen));
}

#[test]
fn mapped_panel_actual_size_is_checked_against_the_chosen_edge() {
    let screen = (1920, 1080);
    let rect = Rect::new(400, 300, 900, 600);
    let placement = Placement::WithPreview(Edge::Top);
    assert_eq!(
        verify_panel_allocation(
            placement,
            rect,
            Some(screen),
            true,
            (300, 250),
            Some((300, 250)),
        ),
        PanelVerification::Safe
    );
    assert_eq!(
        verify_panel_allocation(
            placement,
            rect,
            Some(screen),
            true,
            (300, 280),
            Some((300, 250)),
        ),
        PanelVerification::Hide(PanelFeedback::UnsafeActualGeometry)
    );
    assert_eq!(
        verify_panel_allocation(
            placement,
            rect,
            Some(screen),
            false,
            (300, 250),
            Some((300, 250)),
        ),
        PanelVerification::Hide(PanelFeedback::MapFailed)
    );
    assert_eq!(
        verify_panel_allocation(placement, rect, Some(screen), true, (1, 1), Some((300, 250))),
        PanelVerification::Hide(PanelFeedback::MapFailed)
    );
    assert!(!edge_has_room(
        Edge::Right,
        Rect::new(i32::MAX - 2, 0, 10, 10),
        screen,
        100,
        100,
    ));
}

#[test]
fn the_panel_never_lands_on_the_sampled_area() {
    let screen = (1920, 1080);
    for rect in [
        Rect::new(400, 40, 900, 500),
        Rect::new(40, 300, 500, 400),
        Rect::new(1300, 300, 560, 400),
        Rect::new(400, 600, 900, 440),
    ] {
        let (_, gap, need) = panel_edge(rect, screen, 330, 420).expect("a side should fit");
        assert!(
            gap >= need + PANEL_MARGIN,
            "chosen side must clear the panel plus its margin for {rect:?}"
        );
    }
}

#[test]
fn the_roomiest_side_wins() {
    let screen = (1920, 1080);
    let rect = Rect::new(400, 40, 900, 500);
    let (edge, _, _) = panel_edge(rect, screen, 330, 420).expect("a side should fit");
    assert_eq!(edge, Edge::Right);
}

#[test]
fn a_taller_panel_rejects_a_side_that_no_longer_fits() {
    let screen = (1920, 1080);
    let rect = Rect::new(0, 0, 1920, 780);
    assert!(panel_edge(rect, screen, 330, 200).is_some());
    assert!(
        panel_edge(rect, screen, 330, 420).is_none(),
        "420 + margin exceeds the 300px gap, so no side is safe"
    );
}

#[test]
fn a_full_screen_selection_leaves_no_safe_side() {
    let screen = (1920, 1080);
    let rect = Rect::new(0, 0, 1920, 1080);
    assert!(panel_edge(rect, screen, 330, 420).is_none());
}

const FULL: (i32, i32) = (332, 404);
const COMPACT: (i32, i32) = (280, 245);
const MICRO: MicroPanelSizes = MicroPanelSizes {
    horizontal: MICRO_HINT_HORIZONTAL,
    vertical: MICRO_HINT_VERTICAL,
};

#[test]
fn a_tall_selection_keeps_a_panel_by_dropping_the_preview() {
    let screen = (1920, 1080);
    let rect = Rect::new(0, 0, 1920, 780);
    assert_eq!(
        choose_placement(rect, Some(screen), FULL, COMPACT, MICRO),
        Placement::WithoutPreview(Edge::Bottom)
    );
}

#[test]
fn a_large_selection_keeps_a_visible_control_surface() {
    let screen = (1920, 1080);
    let rect = Rect::new(160, 90, 1600, 900);
    let placement = choose_placement(rect, Some(screen), FULL, COMPACT, MICRO);
    assert!(
        !matches!(placement, Placement::Hidden(_)),
        "a narrow safe rail should retain a minimal completion control"
    );
    assert!(
        matches!(placement, Placement::Micro(Edge::Left | Edge::Right)),
        "the side gaps should use a vertical micro rail"
    );

    let full_width = Rect::new(0, 90, 1920, 900);
    assert!(
        matches!(
            choose_placement(full_width, Some(screen), FULL, COMPACT, MICRO),
            Placement::Micro(Edge::Top | Edge::Bottom)
        ),
        "a full-width selection should use a horizontal micro rail"
    );
}

#[test]
fn selection_overlay_warns_only_when_even_the_micro_envelope_cannot_fit() {
    let screen = (1920, 1080);
    assert_eq!(
        selection_panel_notice(Rect::new(160, 90, 1600, 900), screen),
        SelectionPanelNotice::ControlExpected
    );
    assert_eq!(
        selection_panel_notice(Rect::new(60, 40, 1800, 1000), screen),
        SelectionPanelNotice::ControlMayHide
    );
    assert_eq!(
        selection_panel_notice(Rect::new(0, 0, 1920, 1080), screen),
        SelectionPanelNotice::ControlMayHide
    );
}

#[test]
fn a_selection_with_no_room_hides_the_panel_instead_of_overlapping() {
    let screen = (1920, 1080);
    for (w, h) in [(1800, 1000), (1880, 980), (1900, 1040)] {
        let rect = Rect::new((1920 - w) / 2, (1080 - h) / 2, w, h);
        assert_eq!(
            choose_placement(rect, Some(screen), FULL, COMPACT, MICRO),
            Placement::Hidden(HiddenReason::NoSafeSpace),
            "{w}x{h} has no side clear of the selection, so the panel must not be shown"
        );
    }
}

#[test]
fn a_small_selection_keeps_the_preview() {
    let screen = (1920, 1080);
    let rect = Rect::new(700, 300, 500, 400);
    assert!(matches!(
        choose_placement(rect, Some(screen), FULL, COMPACT, MICRO),
        Placement::WithPreview(_)
    ));
}

#[test]
fn an_unknown_screen_size_hides_the_panel() {
    let rect = Rect::new(0, 0, 800, 600);
    assert_eq!(
        choose_placement(rect, None, FULL, COMPACT, MICRO),
        Placement::Hidden(HiddenReason::UnknownScreenGeometry)
    );
}

#[test]
fn a_screen_counts_only_if_it_is_the_only_one_and_holds_the_selection() {
    let rect = Rect::new(10, 10, 100, 100);
    assert_eq!(
        proven_screen(Some((1920, 1080)), 1, (1920, 1080), rect),
        Some((1920, 1080))
    );
    assert_eq!(proven_screen(Some((1920, 1080)), 2, (1920, 1080), rect), None);
    assert_eq!(proven_screen(Some((1920, 1080)), 1, (1280, 720), rect), None);
}

#[test]
fn a_missing_panel_stops_a_recording_that_nothing_else_controls() {
    let hidden = Placement::Hidden(HiddenReason::NoSafeSpace);
    let feedback = PanelFeedback::Hidden(HiddenReason::NoSafeSpace);
    assert_eq!(start(hidden, true), Start::CaptureHidden(feedback));
    assert_eq!(start(hidden, false), Start::Fail(feedback));
    assert_eq!(start(Placement::Micro(Edge::Top), false), Start::ShowPanel);

    let bad = PanelVerification::Hide(PanelFeedback::MapFailed);
    assert_eq!(after_check(PanelVerification::Safe, false), AfterCheck::Capture);
    assert_eq!(
        after_check(bad, true),
        AfterCheck::CloseThenCapture(PanelFeedback::MapFailed)
    );
    assert_eq!(after_check(bad, false), AfterCheck::Fail(PanelFeedback::MapFailed));
    let (_, stops) = after_unmap(true, true, false, false);
    assert!(stops);
    let (_, stops) = after_unmap(true, true, false, true);
    assert!(!stops);
}

#[test]
fn the_readout_counts_frames_and_pixels() {
    assert!(metrics_text(2400, 800).contains("2,400"));
    let details = details_text(12, 7, 3);
    assert!(details.contains("12") && details.contains('7') && details.contains('3'));
}

#[test]
fn a_session_ends_once() {
    let mut session = Session::new(600);
    assert_eq!(session.finish(false), Finish::Collect);
    assert_eq!(session.finish(false), Finish::Ignore);
    let mut session = Session::new(600);
    assert_eq!(session.finish(true), Finish::Cancel);
    let mut session = Session::new(600);
    assert!(session.fail());
    assert!(!session.fail());
}

#[test]
fn what_a_session_comes_to_depends_on_picture_and_backend() {
    assert_eq!(conclude(true, true, CaptureStats::new()), Outcome::Completed);
    assert_eq!(conclude(false, true, CaptureStats::new()), Outcome::Cancelled);
    let failed = CaptureStats { failures: 1, ..CaptureStats::new() };
    assert_eq!(conclude(false, true, failed), Outcome::Failed);
}

#[test]
fn frames_are_taken_in_order_and_counted() {
    let mut session = Session::new(600);
    assert!(session.take(1));
    session.record(
        Stitched {
            decision: Some(StitchDecision::Seed),
            used_before: 0,
            used: 1,
            recovered: false,
            unlike: false,
            height: 600,
        },
        0,
    );
    assert_eq!(session.captured_height, 600);
    assert_eq!(session.stats.processed, 1);
    assert_eq!(session.stats.seed, 1);
    assert_eq!(session.last_processed_sequence, 1);
    assert!(session.process_capture_notice(CaptureNotice::Retrying {
        consecutive: 1,
        timed_out: true
    }));
    assert_eq!(session.hint, Some(Hint::CaptureRetry));
    assert!(session.process_capture_notice(CaptureNotice::Resumed));
    assert_eq!(session.hint, Some(Hint::CaptureResumed));
}

#[test]
fn a_lasting_connection_is_given_up_after_repeated_silence() {
    let mut source = FrameSource::select(false, true);
    assert!(!source.discard_first_frame());
    assert_eq!(source.attempted(Attempt::Frame, true, false), Verdict::Frame);
    assert_eq!(source.attempted(Attempt::Timeout, true, false), Verdict::Timeout);
    assert_eq!(source.attempted(Attempt::Timeout, true, false), Verdict::Timeout);
    assert_eq!(source.attempted(Attempt::Timeout, true, false), Verdict::UseGrim);
    assert!(source.discard_first_frame());
    let mut source = FrameSource::select(false, true);
    assert_eq!(source.attempted(Attempt::Broken, true, false), Verdict::UseGrim);
    assert!(FrameSource::select(true, true).discard_first_frame());
    assert!(FrameSource::select(false, false).discard_first_frame());
}

#[test]
fn every_new_frame_is_stitched_once_and_in_order() {
    let mut queue = Queue::new();
    let mut capture = Capture::new(false);
    let mut session = Session::new(100);
    let mut stitched = Vec::new();
    for byte in [1u8, 1, 2, 3, 3, 4, 2] {
        let result = Ok(Rgb8::from_raw(1, 1, vec![byte; 3]));
        capture.grabbed(&mut queue, result, true, false);
        if byte == 3 {
            let (frame, _) = queue.consume();
            let frame = frame.expect("a frame waits");
            assert!(session.take(frame.sequence));
            stitched.push(frame.image.data[0]);
        }
    }
    let result = Ok(Rgb8::from_raw(1, 1, vec![9; 3]));
    assert_eq!(capture.grabbed(&mut queue, result, false, false), Command::Stop);
    while let Some(frame) = queue.drain_next() {
        assert!(session.take(frame.sequence));
        stitched.push(frame.image.data[0]);
    }
    let last = take_unprocessed_latest(&mut queue, session.last_processed_sequence);
    stitched.push(last.expect("the newest frame never waited").image.data[0]);
    assert_eq!(stitched, vec![1, 2, 3, 4, 2, 9]);
}

#[test]
fn the_first_frame_of_a_graceful_stop_is_kept() {
    let shared = Shared::new();
    let calls = Cell::new(0);
    capture_loop(
        &shared,
        || {},
        false,
        || {
            calls.set(calls.get() + 1);
            shared.stop_sampling();
            Ok(Rgb8::from_raw(2, 2, vec![7; 12]))
        },
    );
    let mut queue = shared.queue.borrow_mut();
    assert_eq!(calls.get(), 1);
    assert!(queue.frames.is_empty());
    let latest = take_unprocessed_latest(&mut queue, 0).expect("the frame is kept");
    assert_eq!(latest.sequence, 1);
    assert_eq!(latest.image.data, vec![7; 12]);
}

#[test]
fn a_frame_grows_the_count_of_its_decision_alone() {
    let mut session = Session::new(100);
    let decisions = [
        StitchDecision::Seed,
        StitchDecision::Accepted,
        StitchDecision::Stationary,
        StitchDecision::Revisit,
        StitchDecision::Reanchored,
        StitchDecision::Rejected,
    ];
    for (i, decision) in decisions.into_iter().enumerate() {
        let outcome = Stitched {
            decision: Some(decision),
            used_before: i,
            used: i + 1,
            recovered: false,
            unlike: false,
            height: 100,
        };
        assert!(session.take(i as u64 + 1));
        session.record(outcome, 0);
        assert!(!session.take(i as u64 + 1));
        assert_eq!(session.stats.processed, i as u64 + 1);
    }
    let stats = session.stats;
    assert_eq!(
        [stats.seed, stats.accepted, stats.stationary],
        [stats.revisited, stats.reanchored, stats.rejected]
    );
    assert_eq!(stats.seed, 1);
}
