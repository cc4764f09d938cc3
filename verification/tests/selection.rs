use vellum::annotate::Point;
use vellum::geom::{Bounds, Rect};
use vellum::gray::Rgb8;
use vellum::highlight::{EDGE_WIDTH, edge_rects};
use vellum::imaging::{from_padded, to_padded};
use vellum::screencopy::{
    AfterGrab, AfterPoll, BufferPlan, BufferShape, ByteOrder, FLAG_Y_INVERT, FORMAT_ABGR8888,
    FORMAT_ARGB8888,
    FORMAT_XBGR8888, FORMAT_XRGB8888, FrameAction, FrameEvent, FrameState, OutputInfo, Polled,
    ScreencopyError, Wait, after_grab, after_poll, buffer_size, choose_output, contains,
    decode_shm, decode_shm_in, local_rect, plan_buffer, poll_timeout, select_output,
    supported_format, wait_step,
    waits_for_damage,
};
use vellum::selector::{Handle, Hit, Mode, Selector};

/// A point in pixels.
fn at(x: i32, y: i32) -> Point {
    Point { x: x * 1000, y: y * 1000 }
}

fn selector() -> Selector {
    Selector::new(1000, 800)
}

#[test]
fn select_all_covers_the_output_and_stays_editable() {
    let mut s = selector();
    s.select_all();
    assert_eq!(s.rect, Rect::new(0, 0, 1000, 800));
    assert_eq!(s.mode, Mode::HasSelection);
    assert_eq!(s.hit_test(at(500, 400)), Hit::Inside);

    s.press(at(500, 400));
    assert_eq!(s.mode, Mode::Moving);
}

#[test]
fn a_drag_creates_a_normalized_selection() {
    let mut s = selector();
    s.press(at(400, 300));
    s.motion(at(200, 100));
    s.release();
    assert_eq!(s.rect, Rect::new(200, 100, 200, 200));
    assert_eq!(s.mode, Mode::HasSelection);
}

#[test]
fn a_click_without_drag_clears_the_selection() {
    let mut s = selector();
    s.press(at(10, 10));
    s.motion(at(12, 12));
    s.release();
    assert!(!s.rect.valid());
    assert_eq!(s.mode, Mode::Idle);
}

#[test]
fn handles_take_priority_over_the_interior() {
    let mut s = selector();
    s.press(at(100, 100));
    s.motion(at(300, 300));
    s.release();
    assert_eq!(s.hit_test(at(300, 300)), Hit::Handle(Handle::Se));
    assert_eq!(s.hit_test(at(200, 200)), Hit::Inside);
    assert_eq!(s.hit_test(at(500, 500)), Hit::Outside);
}

#[test]
fn moving_against_a_border_keeps_the_size() {
    let mut s = selector();
    s.press(at(100, 100));
    s.motion(at(300, 200));
    s.release();
    s.press(at(200, 150));
    s.motion(at(-500, -500));
    assert_eq!(s.rect, Rect::new(0, 0, 200, 100));
}

#[test]
fn resizing_past_the_opposite_edge_flips_the_rect() {
    let mut s = selector();
    s.press(at(100, 100));
    s.motion(at(300, 300));
    s.release();
    s.press(at(300, 300));
    s.motion(at(50, 40));
    assert_eq!(s.rect, Rect::new(50, 40, 50, 60));
}

#[test]
fn resizing_one_edge_leaves_the_others_alone() {
    let mut s = selector();
    s.press(at(100, 100));
    s.motion(at(300, 300));
    s.release();
    s.press(at(200, 100));
    s.motion(at(210, 60));
    assert_eq!(s.rect, Rect::new(100, 60, 200, 240));
}

#[test]
fn a_selection_never_leaves_the_screen() {
    let mut s = selector();
    s.press(at(900, 700));
    s.motion(at(5000, 5000));
    s.release();
    assert_eq!(s.rect, Rect::new(900, 700, 100, 100));
    s.clear();
    assert_eq!(s.mode, Mode::Idle);
    assert!(!s.rect.valid());
}

/// The two rectangles share a pixel.
fn overlap(a: Rect, b: Rect) -> bool {
    a.x < b.x + b.w && b.x < a.x + a.w && a.y < b.y + b.h && b.y < a.y + a.h
}

#[test]
fn every_edge_stays_outside_the_selection() {
    let sel = Rect::new(100, 200, 400, 300);
    let edges = edge_rects(sel, (1920, 1080), EDGE_WIDTH);
    assert_eq!(edges.len(), 4);
    for edge in edges {
        assert!(!overlap(edge, sel), "edge {edge:?} overlaps {sel:?}");
    }
}

#[test]
fn edges_without_room_are_dropped() {
    let sel = Rect::new(0, 0, 200, 150);
    let edges = edge_rects(sel, (1920, 1080), EDGE_WIDTH);
    assert_eq!(edges.len(), 2);
    assert!(edges.iter().all(|edge| edge.x >= 0 && edge.y >= 0));
}

#[test]
fn a_full_screen_selection_has_no_outline() {
    let sel = Rect::new(0, 0, 1920, 1080);
    assert!(edge_rects(sel, (1920, 1080), EDGE_WIDTH).is_empty());
}

fn frame() -> Rgb8 {
    let mut data = Vec::new();
    for y in 0..2u8 {
        for x in 0..3u8 {
            data.push(x * 40);
            data.push(y * 60);
            data.push(0x7f);
        }
    }
    Rgb8::from_raw(3, 2, data)
}

#[test]
fn a_round_trip_preserves_every_pixel() {
    let original = frame();
    let padded = to_padded(&original, 16);
    assert_eq!(&padded[..4], &[0x7f, 0, 0, 0xff]);
    let restored = from_padded(3, 2, 16, &padded);
    assert_eq!(restored.width, original.width);
    assert_eq!(restored.height, original.height);
    assert_eq!(restored.data, original.data);
}

#[test]
fn fully_transparent_pixels_become_white() {
    let restored = from_padded(2, 1, 8, &[0; 8]);
    assert_eq!(restored.data, vec![0xff; 6]);
}

#[test]
fn half_transparent_pixels_are_laid_over_white() {
    let restored = from_padded(1, 1, 4, &[10, 20, 200, 0x80]);
    assert_eq!(restored.data, vec![255, 147, 137]);
}

#[test]
fn output_containment_rejects_cross_output_regions() {
    let left = Rect::new(0, 0, 1920, 1080);
    assert!(contains(left, Rect::new(100, 100, 800, 600)));
    assert!(!contains(left, Rect::new(1800, 100, 300, 600)));
    assert!(!contains(left, Rect::new(-1, 0, 100, 100)));
}

fn pixel(image: &Rgb8, x: usize, y: usize) -> [u8; 3] {
    let at = (y * image.width + x) * 3;
    [image.data[at], image.data[at + 1], image.data[at + 2]]
}

#[test]
fn decodes_xrgb_with_padding_and_y_inversion() {
    let payload = [
        3, 2, 1, 0, 9, 9, 9, 9, // top: red 1, green 2, blue 3
        6, 5, 4, 0, 9, 9, 9, 9, // bottom: red 4, green 5, blue 6
    ];
    let image = decode_shm(&payload, 1, 2, 8, FORMAT_XRGB8888, FLAG_Y_INVERT).unwrap();
    assert_eq!(pixel(&image, 0, 0), [4, 5, 6]);
    assert_eq!(pixel(&image, 0, 1), [1, 2, 3]);
}

#[test]
fn the_other_formats_have_red_first() {
    let payload = [1, 2, 3, 0];
    let image = decode_shm(&payload, 1, 1, 4, FORMAT_XBGR8888, 0).unwrap();
    assert_eq!(pixel(&image, 0, 0), [1, 2, 3]);
    for format in [FORMAT_ARGB8888, FORMAT_XRGB8888, FORMAT_ABGR8888, FORMAT_XBGR8888] {
        assert!(supported_format(format));
    }
    assert!(!supported_format(7));
    assert!(decode_shm(&payload, 1, 1, 4, 7, 0).is_err());
}

#[test]
fn rejects_truncated_shared_memory() {
    assert!(decode_shm(&[0; 8], 2, 2, 8, FORMAT_XRGB8888, 0).is_err());
}

#[test]
fn a_buffer_must_hold_its_rows() {
    assert!(buffer_size(FORMAT_XRGB8888, 10, 5, 40).is_ok());
    assert_eq!(buffer_size(FORMAT_XRGB8888, 10, 5, 40).ok(), Some(200));
    assert!(buffer_size(FORMAT_XRGB8888, 10, 5, 39).is_err());
    assert!(buffer_size(7, 10, 5, 40).is_err());
    assert!(buffer_size(FORMAT_XRGB8888, 0, 5, 40).is_err());
    assert!(buffer_size(FORMAT_XRGB8888, 1, 70_000, 70_000).is_err());
}

fn output(x: i32, width: i32, removed: bool) -> OutputInfo {
    OutputInfo { x: Some(x), y: Some(0), width: Some(width), height: Some(1080), removed }
}

#[test]
fn a_region_belongs_to_the_output_that_holds_it() {
    let outputs = [output(0, 1920, false), output(1920, 1280, false)];
    assert_eq!(select_output(&outputs, Rect::new(2000, 10, 100, 100)), Some(1));
    assert_eq!(select_output(&outputs, Rect::new(1900, 10, 100, 100)), None);
    let local = local_rect(Some(outputs[1]), Rect::new(2000, 10, 100, 100)).unwrap();
    assert_eq!(local, Rect::new(80, 10, 100, 100));
    assert!(matches!(
        local_rect(None, Rect::new(2000, 10, 100, 100)),
        Err(ScreencopyError::Failed(_))
    ));
    assert!(local_rect(Some(output(1920, 1280, true)), Rect::new(2000, 10, 9, 9)).is_err());
}

#[test]
fn a_grab_that_waits_for_a_change_is_repeated_without() {
    assert!(waits_for_damage(true, true));
    assert!(!waits_for_damage(false, true));
    assert!(!waits_for_damage(true, false));
    assert_eq!(after_grab(true, true, false), AfterGrab::GrabAtOnce);
    assert_eq!(after_grab(true, true, true), AfterGrab::Cancel);
    assert_eq!(after_grab(true, false, false), AfterGrab::Accept);
    assert_eq!(after_grab(false, true, false), AfterGrab::Accept);
}

#[test]
fn a_screencopy_error_gives_its_reason() {
    assert_eq!(ScreencopyError::Unavailable("a".into()).to_string(), "a");
    assert_eq!(ScreencopyError::Failed("b".into()).to_string(), "b");
    assert_ne!(
        ScreencopyError::Timeout.to_string(),
        ScreencopyError::Cancelled.to_string()
    );
}

#[test]
fn bounds_hit_test_is_half_open() {
    let b = Bounds::new(10_000, 10_000, 20_000, 20_000);
    assert!(b.contains(10_000, 10_000));
    assert!(b.contains(29_900, 29_900));
    assert!(!b.contains(30_000, 20_000));
    assert!(!b.contains(9_900, 20_000));
}

#[test]
fn a_buffer_of_the_same_shape_is_used_again() {
    let shape = BufferShape { format: FORMAT_XRGB8888, width: 10, height: 5, stride: 40 };
    assert_eq!(plan_buffer(None, shape), Ok(BufferPlan::Create { size: 200 }));
    assert_eq!(plan_buffer(Some(shape), shape), Ok(BufferPlan::Keep));
    let higher = BufferShape { height: 6, ..shape };
    assert_eq!(plan_buffer(Some(shape), higher), Ok(BufferPlan::Create { size: 240 }));
    let unknown = BufferShape { format: 7, ..shape };
    assert_eq!(
        plan_buffer(Some(unknown), unknown),
        Err("unsupported wl_shm format 0x00000007".to_string())
    );
    let thin = BufferShape { stride: 39, ..shape };
    assert_eq!(plan_buffer(None, thin), Err("invalid screencopy buffer geometry".to_string()));
    let huge = BufferShape { stride: 70_000, height: 70_000, ..shape };
    assert_eq!(plan_buffer(None, huge), Err("screencopy buffer size overflow".to_string()));
}

#[test]
fn a_frame_is_copied_once_its_buffer_is_agreed_on() {
    let mut frame = FrameState::new(true);
    assert_eq!(frame.event(FrameEvent::Buffer(Ok(())), 3, true), FrameAction::Nothing);
    assert_eq!(frame.event(FrameEvent::BufferDone, 3, true), FrameAction::CopyWithDamage);
    assert_eq!(frame.event(FrameEvent::Flags(FLAG_Y_INVERT), 3, true), FrameAction::Nothing);
    assert!(!frame.done);
    assert_eq!(frame.event(FrameEvent::Ready, 3, true), FrameAction::Nothing);
    assert!(frame.done);
    assert!(matches!(frame.outcome(true), Ok(FLAG_Y_INVERT)));

    let mut frame = FrameState::new(true);
    assert_eq!(frame.event(FrameEvent::Buffer(Ok(())), 2, true), FrameAction::CopyWithDamage);
    let mut frame = FrameState::new(true);
    assert_eq!(frame.event(FrameEvent::Buffer(Ok(())), 1, true), FrameAction::Copy);
    let mut frame = FrameState::new(false);
    assert_eq!(frame.event(FrameEvent::BufferDone, 3, true), FrameAction::Copy);
}

#[test]
fn a_frame_that_failed_says_why() {
    let reason = |frame: FrameState, has_buffer| match frame.outcome(has_buffer) {
        Err(ScreencopyError::Failed(reason)) => reason,
        _ => String::new(),
    };
    let mut frame = FrameState::new(false);
    frame.event(FrameEvent::Failed, 3, true);
    assert!(frame.done);
    assert_eq!(reason(frame, true), "compositor rejected screencopy frame");
    let mut frame = FrameState::new(false);
    frame.event(FrameEvent::Buffer(Err("no room".to_string())), 3, false);
    assert!(frame.done);
    assert_eq!(reason(frame, false), "no room");
    let mut frame = FrameState::new(false);
    frame.event(FrameEvent::BufferDone, 3, false);
    assert_eq!(reason(frame, false), "compositor offered no wl_shm buffer");
    let mut frame = FrameState::new(false);
    frame.event(FrameEvent::Ready, 3, false);
    assert_eq!(reason(frame, false), "screencopy completed without a buffer");
}

#[test]
fn an_output_is_chosen_once_the_protocols_are_there() {
    let outputs = [output(0, 1920, false)];
    let region = Rect::new(10, 10, 100, 100);
    let reason = |result| match result {
        Err(ScreencopyError::Unavailable(reason)) => reason,
        _ => String::new(),
    };
    assert!(matches!(choose_output(true, true, &outputs, region), Ok(0)));
    assert_eq!(reason(choose_output(false, false, &outputs, region)), "wl_shm is unavailable");
    assert_eq!(
        reason(choose_output(true, false, &outputs, region)),
        "wlr-screencopy protocol is unavailable"
    );
    assert_eq!(
        reason(choose_output(true, true, &outputs, Rect::new(1900, 10, 100, 100))),
        "selected region is not contained by one logical output"
    );
}

#[test]
fn waiting_ends_for_one_reason() {
    assert_eq!(wait_step(true, true, true), Wait::Over);
    assert_eq!(wait_step(false, true, true), Wait::Cancelled);
    assert_eq!(wait_step(false, false, true), Wait::Timeout);
    assert_eq!(wait_step(false, false, false), Wait::Poll);
    assert_eq!(poll_timeout(0), 1);
    assert_eq!(poll_timeout(250), 250);
    assert_eq!(poll_timeout(u128::MAX), i32::MAX);
    assert_eq!(after_poll(Polled::Interrupted, true), AfterPoll::Again);
    assert_eq!(after_poll(Polled::Nothing, true), AfterPoll::Timeout);
    let polled = |stop, hung_up, readable| Polled::Something { stop, hung_up, readable };
    assert_eq!(after_poll(polled(true, true, true), false), AfterPoll::Cancelled);
    assert_eq!(after_poll(polled(false, true, true), true), AfterPoll::Cancelled);
    assert_eq!(after_poll(polled(false, true, true), false), AfterPoll::Closed);
    assert_eq!(after_poll(polled(false, false, true), false), AfterPoll::Read);
    assert_eq!(after_poll(polled(false, false, false), false), AfterPoll::Again);
}

#[test]
fn what_pads_a_row_is_zero() {
    let image = Rgb8::from_raw(1, 2, vec![1, 2, 3, 4, 5, 6]);
    assert_eq!(to_padded(&image, 6), vec![3, 2, 1, 255, 0, 0, 6, 5, 4, 255, 0, 0]);
}

#[test]
fn an_outline_without_a_width_has_no_edges() {
    let sel = Rect::new(400, 300, 600, 400);
    assert!(edge_rects(sel, (1920, 1080), 0).is_empty());
    assert!(edge_rects(sel, (1920, 1080), -4).is_empty());
    assert!(edge_rects(Rect::new(i32::MAX, 0, i32::MAX, 9), (1920, 1080), i32::MIN).is_empty());
}

#[test]
fn a_frame_of_a_big_endian_machine_is_read_from_the_other_end() {
    let payload = [0, 1, 2, 3, 9, 9, 9, 9, 0, 4, 5, 6, 9, 9, 9, 9];
    let image =
        decode_shm_in(&payload, 1, 2, 8, FORMAT_XRGB8888, FLAG_Y_INVERT, ByteOrder::Big).unwrap();
    assert_eq!(image.data, vec![4, 5, 6, 1, 2, 3]);
    let image = decode_shm_in(&[0, 3, 2, 1], 1, 1, 4, FORMAT_XBGR8888, 0, ByteOrder::Big).unwrap();
    assert_eq!(image.data, vec![1, 2, 3]);
}
