use std::time::Duration;

use vellum::cli::{
    Command, Deed, EXIT_CANCELLED, Ending, Errand, FinishRequest, FinishTarget, OutputFlags,
    Selected, UiStartFailure, copied_message, dispatch, dispatch_finish_request, ending_of,
    file_args, file_prefix, flag_value, handle, keep_code, longshot_done_failed, on_result,
    record_finish_signal, ui_start_failure_message, unpictured_code,
};
use vellum::json::Json;
use vellum::niri::{
    action, command, float_request, float_request_for, granted, height_request, listed, payload,
    resize_args, width_request, window_id_for_pid, window_size, windows_in, windows_request,
};
use vellum::own_window::{ATTEMPTS, RETRY_MS, attempt, float_own_window_soon};
use vellum::pin::{
    PinAction, copy_toast, initial_window_size, key_action, save_toast, scale_toast, window_toast,
    zoom_window,
};
use vellum::result::{
    Mode, Recognised, ResultState, Update, recognised, translated, translated_on_request,
};

fn words(list: &[&str]) -> Vec<String> {
    list.iter().map(|word| word.to_string()).collect()
}

#[test]
fn finish_poll_releases_recorder_borrow_before_synchronous_done_callback() {
    let mut request = FinishRequest::new(true);
    request.confirm();
    request.ready();
    request.signal();
    assert!(request.poll());
    assert!(!request.remembered);
    assert_eq!(dispatch_finish_request(true, true), FinishTarget::Recorder);
}

#[test]
fn finish_poll_remembers_signal_until_longshot_recorder_exists() {
    let mut request = FinishRequest::new(true);
    request.confirm();
    request.signal();
    assert!(!request.poll());
    assert!(request.remembered);
    assert_eq!(dispatch_finish_request(false, true), FinishTarget::Remembered);
    assert_eq!(dispatch_finish_request(false, false), FinishTarget::Ignored);
    assert!(request.ready());
    assert!(!request.remembered);
}

#[test]
fn finish_signal_is_ignored_until_longshot_selection_is_confirmed() {
    let pending = record_finish_signal(false, false);
    assert!(
        !pending,
        "a second shortcut press during selection must not arm a future recorder finish"
    );
    assert!(record_finish_signal(true, false));

    let mut request = FinishRequest::new(true);
    request.signal();
    request.confirm();
    assert!(!request.poll());
    assert!(!request.ready());
}

#[test]
fn missing_image_with_warning_is_failure_not_user_cancellation() {
    assert!(longshot_done_failed(false, 1));
    assert!(!longshot_done_failed(false, 0));
    assert!(!longshot_done_failed(true, 1));
    assert_eq!(unpictured_code(1), 1);
    assert_eq!(unpictured_code(0), EXIT_CANCELLED);
}

#[test]
fn capture_and_window_start_failures_have_distinct_feedback() {
    let capture = ui_start_failure_message(UiStartFailure::BackgroundCapture);
    let window = ui_start_failure_message(UiStartFailure::OverlayPresent);
    assert_ne!(capture, window);
    assert!(capture.1.contains("屏幕画面"));
    assert!(window.1.contains("窗口"));
}

#[test]
fn the_last_word_on_saving_counts() {
    assert_eq!(OutputFlags::parse(&[]), OutputFlags { save: true, copy: true });
    assert_eq!(
        OutputFlags::parse(&words(&["--no-save", "--no-copy"])),
        OutputFlags { save: false, copy: false }
    );
    assert_eq!(
        OutputFlags::parse(&words(&["--no-save", "x", "--save"])),
        OutputFlags { save: true, copy: true }
    );
}

#[test]
fn a_flag_has_its_value_behind_it_or_in_it() {
    assert_eq!(flag_value(&words(&["a", "--mode", "ocr"]), "--mode").as_deref(), Some("ocr"));
    assert_eq!(flag_value(&words(&["--mode=translate"]), "--mode").as_deref(), Some("translate"));
    assert_eq!(flag_value(&words(&["--mode="]), "--mode").as_deref(), Some(""));
    assert_eq!(flag_value(&words(&["--mode"]), "--mode"), None);
    assert_eq!(flag_value(&words(&["--modest=1"]), "--mode"), None);
}

#[test]
fn the_file_is_the_first_argument_that_can_be_one() {
    let args = words(&["--mode", "ocr", "--cleanup", "/tmp/a.png", "/tmp/b.png"]);
    assert_eq!(file_args(&args), Some(("/tmp/a.png".to_string(), true)));
    assert_eq!(file_args(&words(&["x.png"])), Some(("x.png".to_string(), false)));
    assert_eq!(file_args(&words(&["--cleanup", "translate"])), None);
}

#[test]
fn every_command_is_found() {
    let flags = OutputFlags { save: true, copy: true };
    assert!(matches!(dispatch(&[], false), Command::Usage));
    assert!(matches!(dispatch(&words(&["region"]), true), Command::Region(f) if f == flags));
    assert!(matches!(
        dispatch(&words(&["long", "--no-copy"]), true),
        Command::Long(OutputFlags { save: true, copy: false }, true)
    ));
    assert!(matches!(dispatch(&words(&["debug-capture"]), false), Command::DebugCapture(_)));
    assert!(matches!(dispatch(&words(&["pin-last"]), false), Command::PinLast));
    assert!(matches!(dispatch(&words(&["panel"]), false), Command::Panel));
    assert!(matches!(dispatch(&words(&["pin-file"]), false), Command::MissingFile));
    assert!(matches!(
        dispatch(&words(&["pin-file", "a.png"]), false),
        Command::PinFile(path, false) if path == "a.png"
    ));
    assert!(matches!(
        dispatch(&words(&["text-file", "a.png"]), false),
        Command::TextFile(path, false, false) if path == "a.png"
    ));
    assert!(matches!(
        dispatch(&words(&["other"]), false),
        Command::Unknown(word) if word == "other"
    ));
}

#[test]
fn an_errand_reaches_the_other_process() {
    for (errand, wanted) in [(Errand::Ocr, false), (Errand::Translate, true)] {
        let mut args = errand.args();
        args.push("/tmp/shot.png".into());
        assert!(matches!(
            dispatch(&args, false),
            Command::TextFile(path, true, translate)
                if path == "/tmp/shot.png" && translate == wanted
        ));
    }
    let mut args = Errand::Pin.args();
    args.push("/tmp/shot.png".into());
    assert!(matches!(
        dispatch(&args, false),
        Command::PinFile(path, true) if path == "/tmp/shot.png"
    ));
    assert_eq!(Errand::Pin.message(), "pinned");
}

#[test]
fn confirming_a_scrolling_capture_records_it() {
    assert_eq!(on_result("confirm", true, true), Selected::Record);
    assert_eq!(on_result("long", true, false), Selected::Record);
    assert_eq!(on_result("confirm", true, false), Selected::End(Ending::Keep));
    assert_eq!(on_result("long", false, true), Selected::End(Ending::Keep));
    assert_eq!(on_result("cancel", false, true), Selected::End(Ending::Cancel));
}

#[test]
fn an_ending_without_a_picture_is_a_cancellation() {
    assert_eq!(handle(true, Ending::Cancel), Deed::Cancelled(true));
    for name in ["long_done", "pin", "ocr", "translate", "annotate"] {
        assert_eq!(handle(false, ending_of(name)), Deed::Cancelled(false));
    }
    assert_eq!(handle(true, ending_of("long_done")), Deed::Keep(true));
    assert_eq!(handle(true, ending_of("annotate")), Deed::Keep(false));
    assert_eq!(handle(true, ending_of("pin")), Deed::Spawn(Errand::Pin));
    assert_eq!(handle(true, ending_of("ocr")), Deed::Spawn(Errand::Ocr));
    assert_eq!(handle(true, ending_of("translate")), Deed::Spawn(Errand::Translate));
    assert_eq!(file_prefix(true), "vellum-long");
    assert_eq!(file_prefix(false), "vellum");
}

#[test]
fn one_failed_output_is_a_failure() {
    let both = OutputFlags { save: true, copy: true };
    assert_eq!(keep_code(both, true, true), 0);
    assert_eq!(keep_code(both, true, false), 1);
    assert_eq!(keep_code(both, false, true), 1);
    assert_eq!(keep_code(OutputFlags { save: false, copy: true }, false, true), 0);
    assert_eq!(copied_message(300, 2000, true), "long-shot done: 300x2000 copied");
    assert_eq!(copied_message(3, 2, false), "copied: 3x2 to clipboard");
}

#[test]
fn the_retry_window_is_bounded_and_short() {
    let total = Duration::from_millis(RETRY_MS) * (ATTEMPTS - 1);
    assert!(total >= Duration::from_millis(300), "{total:?}");
    assert!(total <= Duration::from_millis(1000), "{total:?}");

    let mut remaining = float_own_window_soon();
    let mut made = 1;
    while let Some(next) = attempt(remaining, false) {
        remaining = next;
        made += 1;
    }
    assert_eq!(made, ATTEMPTS);
    assert_eq!(attempt(5, true), None);
}

#[test]
fn requests_to_the_compositor_have_their_form() {
    let float = float_request();
    let inner = float.get("Action").and_then(|a| a.get("MoveWindowToFloating")).unwrap();
    assert!(matches!(inner.get("id"), Some(Json::Null)));
    assert!(matches!(windows_request(), Json::Text(word) if word == "Windows"));
    for (request, name) in
        [(width_request(9, 640), "SetWindowWidth"), (height_request(9, 640), "SetWindowHeight")]
    {
        let inner = request.get("Action").and_then(|a| a.get(name)).unwrap();
        assert!(matches!(inner.get("id"), Some(Json::Integer(9))));
        let change = inner.get("change").unwrap();
        assert!(matches!(change.get("SetFixed"), Some(Json::Integer(640))));
    }
    assert_eq!(
        resize_args("set-window-width", 9, 640),
        words(&["action", "set-window-width", "--id", "9", "640"])
    );
    assert_eq!(
        action("move-window-to-floating", &[]),
        words(&["action", "move-window-to-floating"])
    );
}

const WINDOWS: &str = "[{\"pid\":1,\"id\":4},{\"pid\":7},{\"pid\":7,\"id\":5,\
    \"layout\":{\"window_size\":[640.9,480]}},{\"pid\":7,\"id\":6}]";

#[test]
fn windows_are_found_in_either_form_of_an_answer() {
    for reply in [
        format!("{{\"Ok\":{WINDOWS}}}\n"),
        format!("{{\"Ok\":{{\"Windows\":{WINDOWS}}}}}  \r\n"),
    ] {
        let doc = granted(&reply).expect("granted");
        let windows = windows_in(&doc).expect("a list");
        assert_eq!(window_id_for_pid(windows, 7), Some(5));
        assert_eq!(window_id_for_pid(windows, 8), None);
        assert_eq!(window_size(windows, 5), Some((640, 480)));
        assert_eq!(window_size(windows, 6), None);
        assert_eq!(window_size(windows, 99), None);
    }
    assert!(granted("{\"Err\":\"no\"}").is_none());
    assert!(granted("garbage").is_none());
    assert!(payload(Json::Null).is_none());
    assert_eq!(listed(WINDOWS).map(|list| list.len()), Some(4));
    assert!(listed("{}").is_none());
}

#[test]
fn a_window_without_extent_has_no_size() {
    let doc = listed("[{\"id\":1,\"layout\":{\"window_size\":[0,5]}}]").unwrap();
    assert_eq!(window_size(&doc, 1), None);
    let doc = listed("[{\"id\":1,\"layout\":{\"window_size\":[99999999999,5]}}]").unwrap();
    assert_eq!(window_size(&doc, 1), Some((i32::MAX, 5)));
}

#[test]
fn a_fraction_of_a_pixel_is_cut_off() {
    for (w, h, size) in [
        ("640.999999", "1e2", Some((640, 100))),
        ("0.5", "5", None),
        ("1.5e300", "2.0", Some((i32::MAX, 2))),
        ("-3.5", "2.0", None),
        ("1.25e1", "480.0", Some((12, 480))),
    ] {
        let list = format!("[{{\"id\":1,\"layout\":{{\"window_size\":[{w},{h}]}}}}]");
        assert_eq!(window_size(&listed(&list).unwrap(), 1), size, "{w} {h}");
    }
}

#[test]
fn the_command_line_tool_is_asked_for_messages() {
    let windows = words(&["windows"]);
    assert_eq!(command(&windows, true), words(&["msg", "-j", "windows"]));
    assert_eq!(command(&windows, false), words(&["msg", "windows"]));
    assert_eq!(command(&[], false), words(&["msg"]));
}

#[test]
fn a_certain_window_is_floated_by_its_number() {
    let Json::Object(outer) = float_request_for(u64::MAX) else { panic!() };
    assert_eq!(outer[0].0, "Action");
    let Json::Object(inner) = &outer[0].1 else { panic!() };
    assert_eq!(inner[0].0, "MoveWindowToFloating");
    let Json::Object(window) = &inner[0].1 else { panic!() };
    assert!(matches!(&window[..], [(key, Json::Integer(id))]
        if key == "id" && *id == i128::from(u64::MAX)));
}

#[test]
fn a_small_image_opens_at_one_to_one() {
    let (w, h) = initial_window_size(300, 200, None);
    assert_eq!((w, h), (300, 200));
    assert_eq!(initial_window_size(300, 200, Some((1920, 1080))), (300, 200));
}

#[test]
fn a_large_image_is_shrunk_into_the_monitor() {
    assert_eq!(initial_window_size(3200, 900, None), (1600, 450));
    for (w, h) in [(4000, 3000), (2500, 999), (1000, 5000), (1729, 1), (7, 973)] {
        for (mw, mh) in [(1920, 1080), (1366, 768), (2560, 1440)] {
            let (fw, fh) = (f64::from(mw) * 0.9, f64::from(mh) * 0.9);
            let (max_w, max_h) = (fw as i32, fh as i32);
            let expected = if w <= max_w && h <= max_h {
                (w.max(80), h.max(60))
            } else {
                let ratio = (f64::from(max_w) / f64::from(w)).min(f64::from(max_h) / f64::from(h));
                (
                    ((f64::from(w) * ratio) as i32).max(80),
                    ((f64::from(h) * ratio) as i32).max(60),
                )
            };
            assert_eq!(
                initial_window_size(w as usize, h as usize, Some((mw, mh))),
                expected
            );
        }
    }
    assert_eq!(initial_window_size(0, 5000, Some((1000, 1000))), (80, 900));
}

#[test]
fn the_window_grows_and_shrinks_by_steps() {
    for side in [0, 1, 55, 80, 85, 100, 255, 640, 1999, 12345, 2_000_000_000] {
        for up in [true, false] {
            let factor: f64 = if up { 1.1 } else { 1.0 / 1.1 };
            let wide = ((f64::from(side) * factor).round() as i32).max(80);
            let tall = ((f64::from(side) * factor).round() as i32).max(60);
            assert_eq!(zoom_window(side, side, up), (wide, tall));
        }
    }
    assert_eq!(zoom_window(640, 480, true), (704, 528));
}

#[test]
fn keys_and_messages_of_a_pinned_picture() {
    assert_eq!(key_action("Escape"), Some(PinAction::Close));
    assert_eq!(key_action("q"), Some(PinAction::Close));
    assert_eq!(key_action("c"), Some(PinAction::Copy));
    assert_eq!(key_action("s"), Some(PinAction::Save));
    assert_eq!(key_action("0"), Some(PinAction::Reset));
    assert_eq!(key_action("x"), None);
    assert_eq!(PinAction::Reset.label(), "重置缩放");
    assert_eq!(scale_toast(110), "缩放  110%");
    assert_eq!(window_toast(704, 528), "窗口  704 × 528");
    assert_eq!(copy_toast(Ok(())), ("已复制到剪贴板".to_string(), false));
    assert_eq!(copy_toast(Err("x".into())), ("复制失败：x".to_string(), true));
    assert_eq!(save_toast(Ok("a.png".into())), ("已保存  a.png".to_string(), false));
    assert_eq!(save_toast(Err("x".into())), ("保存失败：x".to_string(), true));
}

#[test]
fn each_mode_has_its_own_copy() {
    assert_ne!(Mode::Ocr.title(), Mode::Translate.title());
    assert_ne!(Mode::Ocr.subtitle(), Mode::Translate.subtitle());
    assert_ne!(Mode::Ocr.badge(), Mode::Translate.badge());
}

#[test]
fn a_recognised_text_is_shown_while_it_is_translated() {
    let mut window = ResultState::waiting(true);
    assert_eq!(window.text, "识别并翻译中…");
    assert!(window.busy && !window.ready);
    let Recognised::Translating(update, source) = recognised(Ok("hello".into()), true) else {
        panic!("the text has to be translated");
    };
    assert_eq!(window.apply(update), None);
    assert_eq!(window.text, "hello");
    assert_eq!(window.status, "翻译中…");
    assert!(window.busy && !window.ready);
    window.apply(translated(source, Err("offline".into())));
    assert_eq!(window.text, "hello");
    assert_eq!(window.status, "翻译失败: offline");
    assert!(!window.busy && window.ready);
}

#[test]
fn nothing_recognised_leaves_nothing_to_use() {
    for (result, text) in [
        (Ok("  \n".to_string()), "（未识别到文字）"),
        (Err("no engine".to_string()), "[错误] no engine"),
    ] {
        let mut window = ResultState::waiting(false);
        match recognised(result, false) {
            Recognised::Done(update) => window.apply(update),
            Recognised::Translating(..) => panic!("nothing to translate"),
        };
        assert_eq!(window.text, text);
        assert!(!window.ready && !window.busy && !window.translatable);
    }
}

#[test]
fn a_translation_opens_a_window_of_its_own() {
    let mut window = ResultState::new(Mode::Ocr, "hello", "", false, true);
    assert!(window.translatable);
    assert_eq!(window.translate().as_deref(), Some("hello"));
    assert!(window.translating && !window.translatable);
    assert_eq!(window.translate(), None);
    let opened = window.apply(translated_on_request(Ok("你好".into())));
    assert_eq!(opened.as_deref(), Some("你好"));
    assert!(window.translatable && !window.translating);

    window.edit("   ".into());
    assert_eq!(window.translate(), None);
    assert_eq!(window.status, "没有文本可翻译");
    assert!(window.error);
    window.copied(Ok(()));
    assert_eq!(window.status, "已复制到剪贴板");
    window.copied(Err("no tool".into()));
    assert_eq!(window.status, "复制失败: no tool");
    window.apply(translated_on_request(Err("offline".into())));
    assert_eq!(window.status, "翻译失败: offline");
}

#[test]
fn a_closed_window_takes_nothing() {
    let mut window = ResultState::new(Mode::Ocr, "hello", "", false, true);
    window.close();
    assert_eq!(window.apply(Update::Translation("x".into())), None);
    assert_eq!(window.text, "hello");
}

#[test]
fn a_translation_that_failed_can_be_asked_for_again() {
    let mut window = ResultState::new(Mode::Ocr, "text", "", false, true);
    assert_eq!(window.translate(), Some("text".to_string()));
    let going = Update::Flash { message: "still".into(), busy: true, error: false };
    assert_eq!(window.apply(going), None);
    assert!(window.translating && !window.translatable);
    let failed = Update::Flash { message: "no".into(), busy: false, error: true };
    assert_eq!(window.apply(failed), None);
    assert!(!window.translating && window.translatable && window.error);
    assert_eq!(window.translate(), Some("text".to_string()));
}
