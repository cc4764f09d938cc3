use vellum::config::Preferences;
use vellum::json::Json;
use vellum::tray::{
    Action, Entry, ICON_READY, ICON_RECORDING, ICON_WARNING, Message, Status, Tick, Urgency,
    Waiting, counts_in, diagnostics_message, dispatch_args, doctor, drain, menu, next_poll,
    registration_failed, restart_message, tick, toggle, waiting_message,
};

fn status(running: bool, busy: bool, action: Option<&str>) -> Status {
    Status { running, busy, action: action.map(str::to_string) }
}

#[test]
fn a_stopped_service_shows_the_warning_icon() {
    let (icon, text) = Status::stopped().presentation("1.0", "");
    assert_eq!(icon, ICON_WARNING);
    assert!(text.contains("服务异常"), "{text}");
}

#[test]
fn an_idle_service_shows_the_ready_icon() {
    let idle = status(true, false, None);
    let (icon, text) = idle.presentation("1.0", "");
    assert_eq!(icon, ICON_READY);
    assert!(text.contains("服务已就绪"), "{text}");
    assert!(idle.active_action().is_none());
}

#[test]
fn a_running_capture_shows_the_recording_icon() {
    let busy = status(true, true, Some("long"));
    let (icon, text) = busy.presentation("1.0", "长截图");
    assert_eq!(icon, ICON_RECORDING);
    assert!(text.contains("长截图"), "{text}");
    assert_eq!(text, "vellum 1.0 · 正在长截图");
    assert_eq!(busy.active_action(), Some(Action::Long));
    assert_eq!(busy.long_label(), "完成长截图");
}

#[test]
fn the_long_entry_starts_a_capture_when_none_is_running() {
    assert_eq!(Status::stopped().long_label(), "长截图");
}

#[test]
fn the_menu_offers_the_settings_panel() {
    let labels: Vec<String> = menu(&Preferences { save: true, copy: false })
        .into_iter()
        .filter(|entry| *entry != Entry::Separator)
        .map(|entry| entry.label("vellum", "长截图"))
        .collect();
    assert!(
        labels.iter().any(|label| label == "设置面板"),
        "menu lost the panel entry: {labels:?}"
    );
    assert_eq!(labels.len(), 10);
}

#[test]
fn busy_without_a_known_action_is_not_reported_as_recording() {
    let busy = status(true, true, Some("something-new"));
    assert!(busy.active_action().is_none());
    assert_eq!(busy.presentation("1.0", "").0, ICON_READY);
}

#[test]
fn quit_wins_over_queued_refreshes() {
    let backlog = [Message::Refresh, Message::Quit, Message::Refresh];
    assert!(matches!(drain(&backlog), Some(Message::Quit)));
}

#[test]
fn an_empty_queue_asks_for_nothing() {
    assert!(drain(&[]).is_none());
}

#[test]
fn a_backlog_of_refreshes_is_one_refresh() {
    assert_eq!(drain(&[Message::Refresh, Message::Refresh]), Some(Message::Refresh));
}

#[test]
fn actions_are_found_by_their_names() {
    for action in [Action::Region, Action::Long, Action::PinLast] {
        assert_eq!(Action::parse(action.as_str()), Some(action));
    }
    assert_eq!(Action::parse("longer"), None);
}

#[test]
fn pinning_the_clipboard_takes_no_flags() {
    let chosen = vec!["--no-save".to_string()];
    assert!(dispatch_args(Action::PinLast, chosen.clone()).is_empty());
    assert_eq!(dispatch_args(Action::Region, chosen.clone()), chosen);
}

#[test]
fn a_toggle_leaves_the_other_preference_alone() {
    let prefs = Preferences { save: true, copy: true };
    assert_eq!(toggle(prefs, Some(false), None), Preferences { save: false, copy: true });
    assert_eq!(toggle(prefs, None, Some(false)), Preferences { save: true, copy: false });
    assert_eq!(toggle(prefs, None, None), prefs);
}

#[test]
fn a_diagnosis_is_told_by_its_worst() {
    assert_eq!(
        diagnostics_message(Some((2, 3))),
        ("vellum 诊断完成", "发现 2 个错误、3 个提醒".to_string(), Urgency::Critical)
    );
    assert_eq!(
        diagnostics_message(Some((0, 3))),
        ("vellum 诊断完成", "核心功能正常，另有 3 个提醒".to_string(), Urgency::Normal)
    );
    assert_eq!(diagnostics_message(Some((0, 0))).2.as_str(), "normal");
    let (title, _, urgency) = diagnostics_message(None);
    assert_eq!(title, "vellum 诊断失败");
    assert_eq!(urgency.as_str(), "critical");
}

#[test]
fn a_report_needs_both_counts() {
    assert_eq!(doctor("{\"errors\": 1, \"warnings\": 4, \"x\": []}"), Some((1, 4)));
    assert_eq!(doctor("{\"errors\": 1}"), None);
    assert_eq!(doctor("{\"errors\": -1, \"warnings\": 4}"), None);
    assert_eq!(doctor("{\"errors\": 1.5, \"warnings\": 4}"), None);
    assert_eq!(doctor("no report"), None);
    let report = Json::Object(vec![
        ("warnings".into(), Json::Integer(7)),
        ("errors".into(), Json::Integer(0)),
    ]);
    assert_eq!(counts_in(&report), Some((0, 7)));
    assert_eq!(counts_in(&Json::Null), None);
}

#[test]
fn a_restart_is_reported_either_way() {
    assert_eq!(restart_message(true), ("截图服务已重新启动", Urgency::Normal));
    assert_eq!(restart_message(false), ("截图服务重启失败", Urgency::Critical));
}

#[test]
fn the_first_lines_of_the_menu_tell_the_state_and_cannot_be_chosen() {
    let entries = menu(&Preferences { save: false, copy: true });
    assert_eq!(entries.len(), 14);
    assert_eq!(entries[0], Entry::State);
    assert!(!entries[0].enabled());
    assert!(!entries[1].enabled());
    assert!(entries[2].enabled());
    assert_eq!(entries[7], Entry::Save(false));
    assert_eq!(entries[8], Entry::Copy(true));
    assert_eq!(entries[3].label("", "完成长截图"), "完成长截图");
    assert_eq!(entries[13].label("", ""), "退出托盘");
}

#[test]
fn a_refresh_looks_at_the_service_before_it_is_due() {
    assert_eq!(tick(true, Some(Message::Quit), 0, 0), Tick::Closed);
    assert_eq!(tick(false, Some(Message::Quit), 0, 0), Tick::Quit);
    assert_eq!(tick(false, Some(Message::Refresh), 0, 9_000), Tick::Poll);
    assert_eq!(tick(false, None, 9_000, 9_000), Tick::Poll);
    assert_eq!(tick(false, None, 8_999, 9_000), Tick::Idle);
    assert_eq!(next_poll(500), 2_500);
}

#[test]
fn registration_is_retried_for_a_while() {
    assert_eq!(registration_failed(1), Waiting::Retry { report: true });
    assert_eq!(registration_failed(2), Waiting::Retry { report: false });
    assert_eq!(registration_failed(6), Waiting::Retry { report: true });
    assert_eq!(registration_failed(59), Waiting::Retry { report: false });
    assert_eq!(registration_failed(60), Waiting::GiveUp);
    assert_eq!(
        waiting_message(6, "no host"),
        "[vellum-tray] 等待托盘宿主（第 6/60 次）：no host"
    );
}
