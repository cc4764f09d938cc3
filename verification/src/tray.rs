//! The tray icon: what it shows of the capture service, what its menu offers, and how it waits.

use vstd::prelude::*;

use crate::config::Preferences;
use crate::json::{Json, field, parse, parsed, unsigned_of};
use crate::text::{decimal, decimal_of, owned, same, views};

verus! {

/// The icon of a service that is ready.
pub const ICON_READY: &'static str = "ai.vellum-symbolic";

/// The icon of a capture that is running.
pub const ICON_RECORDING: &'static str = "ai.vellum-recording-symbolic";

/// The icon of a service that does not run.
pub const ICON_WARNING: &'static str = "ai.vellum-warning-symbolic";

/// The time between two looks at the service, in milliseconds.
pub const POLL_INTERVAL_MS: u64 = 2000;

/// How often the tray tries to register before it gives up.
pub const WATCHER_ATTEMPTS: u32 = 60;

/// The time between two such attempts, in milliseconds.
pub const WATCHER_RETRY_MS: u64 = 5000;

/// What can be captured.
#[derive(Debug, Clone, Copy, PartialEq, Eq, Structural)]
pub enum Action {
    Region,
    Long,
    PinLast,
}

impl Action {
    /// The name of an action on the command line.
    pub open spec fn word(self) -> Seq<char> {
        match self {
            Action::Region => "region"@,
            Action::Long => "long"@,
            Action::PinLast => "pin-last"@,
        }
    }

    /// The name of an action on the command line.
    pub fn as_str(self) -> (s: &'static str)
        ensures
            s@ == self.word(),
    {
        match self {
            Action::Region => "region",
            Action::Long => "long",
            Action::PinLast => "pin-last",
        }
    }

    /// The action with the given name.
    pub fn parse(word: &str) -> (r: Option<Action>)
        ensures
            r == named(word@),
    {
        proof {
            words_differ(Action::Region, Action::Long);
            words_differ(Action::Region, Action::PinLast);
            words_differ(Action::Long, Action::PinLast);
        }
        if same(word, "region") {
            Some(Action::Region)
        } else if same(word, "long") {
            Some(Action::Long)
        } else if same(word, "pin-last") {
            Some(Action::PinLast)
        } else {
            None
        }
    }
}

/// The action with the given name.
pub open spec fn named(word: Seq<char>) -> Option<Action> {
    if word == Action::Region.word() {
        Some(Action::Region)
    } else if word == Action::Long.word() {
        Some(Action::Long)
    } else if word == Action::PinLast.word() {
        Some(Action::PinLast)
    } else {
        None
    }
}

/// No two actions have the same name.
pub proof fn words_differ(a: Action, b: Action)
    requires
        a != b,
    ensures
        a.word() != b.word(),
{
    reveal_strlit("region");
    reveal_strlit("long");
    reveal_strlit("pin-last");
    assert("region"@.len() == 6 && "long"@.len() == 4 && "pin-last"@.len() == 8);
}

/// The name of an action finds that action.
pub proof fn a_name_finds_its_action(a: Action)
    ensures
        named(a.word()) == Some(a),
{
    words_differ(Action::Region, Action::Long);
    words_differ(Action::Region, Action::PinLast);
    words_differ(Action::Long, Action::PinLast);
}

/// What the service says of itself.
#[derive(Debug)]
pub struct Status {
    pub running: bool,
    pub busy: bool,
    pub action: Option<String>,
}

impl Status {
    /// The capture that is running: the service must be busy with an action that is known here.
    pub open spec fn active(self) -> Option<Action> {
        match self.action {
            Some(word) => if self.busy {
                named(word@)
            } else {
                None
            },
            None => None,
        }
    }

    /// A service that does not run.
    pub fn stopped() -> (s: Status)
        ensures
            !s.running,
            !s.busy,
            s.action is None,
    {
        Status { running: false, busy: false, action: None }
    }

    /// The capture that is running.
    pub fn active_action(&self) -> (r: Option<Action>)
        ensures
            r == self.active(),
    {
        if !self.busy {
            return None;
        }
        match &self.action {
            Some(word) => Action::parse(word.as_str()),
            None => None,
        }
    }

    /// The icon and the words for the state. `name` is what the running capture is called.
    pub fn presentation(&self, version: &str, name: &str) -> (r: (&'static str, String))
        ensures
            r.0@ == if !self.running {
                ICON_WARNING@
            } else if self.active() is Some {
                ICON_RECORDING@
            } else {
                ICON_READY@
            },
            r.1@ == "vellum "@ + version@ + if !self.running {
                " · 服务异常"@
            } else if self.active() is Some {
                " · 正在"@ + name@
            } else {
                " · 服务已就绪"@
            },
    {
        let mut s = owned("vellum ");
        s.append(version);
        let ghost before = s@;
        if !self.running {
            s.append(" · 服务异常");
            return (ICON_WARNING, s);
        }
        match self.active_action() {
            Some(_) => {
                s.append(" · 正在");
                s.append(name);
                assert(s@ =~= before + (" · 正在"@ + name@));
                (ICON_RECORDING, s)
            },
            None => {
                s.append(" · 服务已就绪");
                (ICON_READY, s)
            },
        }
    }

    /// The label of the entry for scrolling captures: while one is running, the entry ends it.
    pub fn long_label(&self) -> (s: &'static str)
        ensures
            s@ == if self.active() == Some(Action::Long) {
                "完成长截图"@
            } else {
                "长截图"@
            },
    {
        match self.active_action() {
            Some(Action::Long) => "完成长截图",
            _ => "长截图",
        }
    }
}

/// What goes with the request for a capture: the choices on output, which mean nothing where the
/// clipboard is pinned.
pub fn dispatch_args(action: Action, chosen: Vec<String>) -> (args: Vec<String>)
    ensures
        views(args@) == if action == Action::PinLast {
            Seq::empty()
        } else {
            views(chosen@)
        },
{
    if action == Action::PinLast {
        let args: Vec<String> = Vec::new();
        assert(views(args@) =~= Seq::empty());
        args
    } else {
        chosen
    }
}

/// The preferences after one or both were set.
pub fn toggle(prefs: Preferences, save: Option<bool>, copy: Option<bool>) -> (r: Preferences)
    ensures
        r.save == match save {
            Some(value) => value,
            None => prefs.save,
        },
        r.copy == match copy {
            Some(value) => value,
            None => prefs.copy,
        },
{
    Preferences {
        save: match save {
            Some(value) => value,
            None => prefs.save,
        },
        copy: match copy {
            Some(value) => value,
            None => prefs.copy,
        },
    }
}

/// How urgent a notification is.
#[derive(Debug, Clone, Copy, PartialEq, Eq, Structural)]
pub enum Urgency {
    Normal,
    Critical,
}

impl Urgency {
    /// The word for it.
    pub fn as_str(self) -> (s: &'static str)
        ensures
            s@ == match self {
                Urgency::Normal => "normal"@,
                Urgency::Critical => "critical"@,
            },
    {
        match self {
            Urgency::Normal => "normal",
            Urgency::Critical => "critical",
        }
    }
}

/// What is said after a diagnosis that counted errors and warnings, or that could not be run.
pub open spec fn diagnosis(counts: Option<(u64, u64)>) -> (Seq<char>, Seq<char>, Urgency) {
    match counts {
        None => ("vellum 诊断失败"@, "无法运行 vellum doctor"@, Urgency::Critical),
        Some((errors, warnings)) => if errors > 0 {
            (
                "vellum 诊断完成"@,
                "发现 "@ + decimal(errors as nat) + " 个错误、"@ + decimal(warnings as nat)
                    + " 个提醒"@,
                Urgency::Critical,
            )
        } else if warnings > 0 {
            (
                "vellum 诊断完成"@,
                "核心功能正常，另有 "@ + decimal(warnings as nat) + " 个提醒"@,
                Urgency::Normal,
            )
        } else {
            (
                "vellum 诊断完成"@,
                "截图、通知、OCR、翻译和快捷键均可用"@,
                Urgency::Normal,
            )
        },
    }
}

/// What is said after a diagnosis.
pub fn diagnostics_message(counts: Option<(u64, u64)>) -> (r: (&'static str, String, Urgency))
    ensures
        (r.0@, r.1@, r.2) == diagnosis(counts),
{
    match counts {
        None => ("vellum 诊断失败", owned("无法运行 vellum doctor"), Urgency::Critical),
        Some((errors, warnings)) => {
            let count = decimal_of(warnings);
            if errors > 0 {
                let mut body = owned("发现 ");
                let digits = decimal_of(errors);
                body.append(digits.as_str());
                body.append(" 个错误、");
                body.append(count.as_str());
                body.append(" 个提醒");
                ("vellum 诊断完成", body, Urgency::Critical)
            } else if warnings > 0 {
                let mut body = owned("核心功能正常，另有 ");
                body.append(count.as_str());
                body.append(" 个提醒");
                ("vellum 诊断完成", body, Urgency::Normal)
            } else {
                (
                    "vellum 诊断完成",
                    owned("截图、通知、OCR、翻译和快捷键均可用"),
                    Urgency::Normal,
                )
            }
        },
    }
}

/// The errors and warnings that a report counts.
pub open spec fn counted(report: Json) -> Option<(int, int)> {
    match (unsigned_of(field(report, "errors"@)), unsigned_of(field(report, "warnings"@))) {
        (Some(errors), Some(warnings)) => Some((errors, warnings)),
        _ => None,
    }
}

/// Two counts as numbers.
pub open spec fn numbers(r: Option<(u64, u64)>) -> Option<(int, int)> {
    match r {
        Some((a, b)) => Some((a as int, b as int)),
        None => None,
    }
}

/// The errors and warnings that a report counts.
pub fn counts_in(report: &Json) -> (r: Option<(u64, u64)>)
    ensures
        numbers(r) == counted(*report),
{
    let errors: Option<u64> = match report.get("errors") {
        Some(value) => value.as_u64(),
        None => None,
    };
    let warnings: Option<u64> = match report.get("warnings") {
        Some(value) => value.as_u64(),
        None => None,
    };
    match (errors, warnings) {
        (Some(a), Some(b)) => Some((a, b)),
        _ => None,
    }
}

/// The errors and warnings that the output of a diagnosis counts. The text is JSON.
pub fn doctor(output: &str) -> (r: Option<(u64, u64)>)
    ensures
        match parsed(output@) {
            Some(report) => numbers(r) == counted(report),
            None => r is None,
        },
{
    match parse(output) {
        Some(report) => counts_in(&report),
        None => None,
    }
}

/// What is said after the service was restarted or could not be.
pub fn restart_message(restarted: bool) -> (r: (&'static str, Urgency))
    ensures
        restarted ==> r.0@ == "截图服务已重新启动"@ && r.1 == Urgency::Normal,
        !restarted ==> r.0@ == "截图服务重启失败"@ && r.1 == Urgency::Critical,
{
    if restarted {
        ("截图服务已重新启动", Urgency::Normal)
    } else {
        ("截图服务重启失败", Urgency::Critical)
    }
}

/// An entry of the menu.
#[derive(Debug, Clone, Copy, PartialEq, Eq, Structural)]
pub enum Entry {
    State,
    Separator,
    Capture(Action),
    Panel,
    Save(bool),
    Copy(bool),
    Diagnose,
    Restart,
    Quit,
}

/// The entries of the menu, from the top.
pub open spec fn menu_entries(save: bool, copy: bool) -> Seq<Entry> {
    seq![
        Entry::State,
        Entry::Separator,
        Entry::Capture(Action::Region),
        Entry::Capture(Action::Long),
        Entry::Capture(Action::PinLast),
        Entry::Separator,
        Entry::Panel,
        Entry::Save(save),
        Entry::Copy(copy),
        Entry::Separator,
        Entry::Diagnose,
        Entry::Restart,
        Entry::Separator,
        Entry::Quit,
    ]
}

/// The entries of the menu, from the top.
pub fn menu(prefs: &Preferences) -> (r: Vec<Entry>)
    ensures
        r@ == menu_entries(prefs.save, prefs.copy),
{
    let mut r: Vec<Entry> = Vec::new();
    r.push(Entry::State);
    r.push(Entry::Separator);
    r.push(Entry::Capture(Action::Region));
    r.push(Entry::Capture(Action::Long));
    r.push(Entry::Capture(Action::PinLast));
    r.push(Entry::Separator);
    r.push(Entry::Panel);
    r.push(Entry::Save(prefs.save));
    r.push(Entry::Copy(prefs.copy));
    r.push(Entry::Separator);
    r.push(Entry::Diagnose);
    r.push(Entry::Restart);
    r.push(Entry::Separator);
    r.push(Entry::Quit);
    assert(r@ =~= menu_entries(prefs.save, prefs.copy));
    r
}

impl Entry {
    /// The words of an entry. The state and the scrolling capture have words that change.
    pub open spec fn words(self, state: Seq<char>, long_label: Seq<char>) -> Seq<char> {
        match self {
            Entry::State => state,
            Entry::Separator => Seq::empty(),
            Entry::Capture(Action::Region) => "区域截图"@,
            Entry::Capture(Action::Long) => long_label,
            Entry::Capture(Action::PinLast) => "钉住剪贴板"@,
            Entry::Panel => "设置面板"@,
            Entry::Save(_) => "截图后保存"@,
            Entry::Copy(_) => "截图后复制"@,
            Entry::Diagnose => "运行诊断"@,
            Entry::Restart => "重启截图服务"@,
            Entry::Quit => "退出托盘"@,
        }
    }

    /// The words of an entry.
    pub fn label(self, state: &str, long_label: &str) -> (s: String)
        ensures
            s@ == self.words(state@, long_label@),
    {
        match self {
            Entry::State => owned(state),
            Entry::Separator => {
                let s = String::new();
                assert(s@ =~= Seq::empty());
                s
            },
            Entry::Capture(Action::Region) => owned("区域截图"),
            Entry::Capture(Action::Long) => owned(long_label),
            Entry::Capture(Action::PinLast) => owned("钉住剪贴板"),
            Entry::Panel => owned("设置面板"),
            Entry::Save(_) => owned("截图后保存"),
            Entry::Copy(_) => owned("截图后复制"),
            Entry::Diagnose => owned("运行诊断"),
            Entry::Restart => owned("重启截图服务"),
            Entry::Quit => owned("退出托盘"),
        }
    }

    /// Whether an entry can be chosen.
    pub fn enabled(self) -> (r: bool)
        ensures
            r == !(self is State || self is Separator),
    {
        match self {
            Entry::State => false,
            Entry::Separator => false,
            _ => true,
        }
    }
}

/// What a worker asks of the main loop.
#[derive(Debug, Clone, Copy, PartialEq, Eq, Structural)]
pub enum Message {
    /// Look at the service before the next time that was planned.
    Refresh,
    Quit,
}

/// What a backlog of messages comes to: to quit if any asks for it.
pub open spec fn drained(backlog: Seq<Message>) -> Option<Message> {
    if backlog.contains(Message::Quit) {
        Some(Message::Quit)
    } else if backlog.len() > 0 {
        Some(Message::Refresh)
    } else {
        None
    }
}

/// What a backlog of messages comes to.
pub fn drain(backlog: &[Message]) -> (r: Option<Message>)
    ensures
        r == drained(backlog@),
{
    let mut r: Option<Message> = None;
    let mut i: usize = 0;
    while i < backlog.len()
        invariant
            i <= backlog@.len(),
            forall|k: int| 0 <= k < i ==> backlog@[k] == Message::Refresh,
            r == if i > 0 {
                Some(Message::Refresh)
            } else {
                None
            },
        decreases backlog.len() - i,
    {
        match backlog[i] {
            Message::Quit => {
                assert(backlog@[i as int] == Message::Quit);
                return Some(Message::Quit);
            },
            Message::Refresh => {
                r = Some(Message::Refresh);
            },
        }
        i = i + 1;
    }
    r
}

/// Messages that arrive later never undo a wish to quit.
pub proof fn quitting_stands(earlier: Seq<Message>, later: Seq<Message>)
    requires
        drained(earlier) == Some(Message::Quit),
    ensures
        drained(earlier + later) == Some(Message::Quit),
{
    let k = choose|k: int| 0 <= k < earlier.len() && earlier[k] == Message::Quit;
    assert((earlier + later)[k] == Message::Quit);
}

/// What the main loop does in one round.
#[derive(Debug, Clone, Copy, PartialEq, Eq, Structural)]
pub enum Tick {
    /// The icon is gone: the loop ends.
    Closed,
    /// The loop ends and takes the icon away.
    Quit,
    /// Look at the service.
    Poll,
    /// Nothing.
    Idle,
}

/// One round of the main loop. `due_ms` is when the service is looked at next.
pub fn tick(closed: bool, message: Option<Message>, now_ms: u64, due_ms: u64) -> (r: Tick)
    ensures
        r == if closed {
            Tick::Closed
        } else if message == Some(Message::Quit) {
            Tick::Quit
        } else if message == Some(Message::Refresh) || now_ms >= due_ms {
            Tick::Poll
        } else {
            Tick::Idle
        },
{
    if closed {
        return Tick::Closed;
    }
    let asked: bool = match message {
        Some(Message::Quit) => return Tick::Quit,
        Some(Message::Refresh) => true,
        None => false,
    };
    if asked || now_ms >= due_ms {
        Tick::Poll
    } else {
        Tick::Idle
    }
}

/// When the service is looked at next after it was looked at now.
pub fn next_poll(now_ms: u64) -> (due_ms: u64)
    requires
        now_ms + POLL_INTERVAL_MS <= u64::MAX,
    ensures
        due_ms == now_ms + POLL_INTERVAL_MS,
{
    now_ms + POLL_INTERVAL_MS
}

/// What follows from a failed attempt to register.
#[derive(Debug, Clone, Copy, PartialEq, Eq, Structural)]
pub enum Waiting {
    GiveUp,
    /// Wait, and say so if `report` holds.
    Retry { report: bool },
}

/// What follows from a failed attempt to register. Attempts are counted from one; the first and
/// every sixth is reported.
pub fn registration_failed(attempt: u32) -> (r: Waiting)
    ensures
        r == if attempt >= WATCHER_ATTEMPTS {
            Waiting::GiveUp
        } else {
            Waiting::Retry { report: attempt == 1 || attempt % 6 == 0 }
        },
{
    if attempt >= WATCHER_ATTEMPTS {
        Waiting::GiveUp
    } else {
        Waiting::Retry { report: attempt == 1 || attempt % 6 == 0 }
    }
}

/// The report of a failed attempt.
pub fn waiting_message(attempt: u32, error: &str) -> (s: String)
    ensures
        s@ == "[vellum-tray] 等待托盘宿主（第 "@ + decimal(attempt as nat) + "/"@ + decimal(
            WATCHER_ATTEMPTS as nat,
        ) + " 次）："@ + error@,
{
    let mut s = owned("[vellum-tray] 等待托盘宿主（第 ");
    let count = decimal_of(attempt as u64);
    let all = decimal_of(WATCHER_ATTEMPTS as u64);
    s.append(count.as_str());
    s.append("/");
    s.append(all.as_str());
    s.append(" 次）：");
    s.append(error);
    s
}

/// An action is found by its word, and by no other one.
pub proof fn an_action_is_found_by_its_word(a: Action, word: &str, r: Option<Action>, other: &str, s: Option<Action>)
    requires
        call_ensures(Action::as_str, (a,), word),
        call_ensures(Action::parse, (word,), r),
        call_ensures(Action::parse, (other,), s),
    ensures
        r == Some(a),
        s == Some(a) ==> other@ == word@,
{
    a_name_finds_its_action(a);
}

/// The icon warns while the service is down, shows a recording while it is busy with an action that
/// it names, and is ready otherwise.
pub proof fn the_icon_shows_the_service(
    status: &Status,
    version: &str,
    name: &str,
    active: Option<Action>,
    r: (&str, String),
)
    requires
        call_ensures(Status::active_action, (status,), active),
        call_ensures(Status::presentation, (status, version, name), r),
    ensures
        !status.running ==> r.0@ == "ai.vellum-warning-symbolic"@,
        status.running && active is Some ==> r.0@ == "ai.vellum-recording-symbolic"@,
        status.running && active is None ==> r.0@ == "ai.vellum-symbolic"@,
        active is Some ==> status.busy && status.action is Some,
        !status.busy ==> active is None,
{
}

/// A switch changes what it is for and leaves the other.
pub proof fn a_switch_changes_one_preference(prefs: Preferences, value: bool, a: Preferences, b: Preferences, c: Preferences)
    requires
        call_ensures(toggle, (prefs, Some(value), None), a),
        call_ensures(toggle, (prefs, None, Some(value)), b),
        call_ensures(toggle, (prefs, None, None), c),
    ensures
        a.save == value && a.copy == prefs.copy,
        b.copy == value && b.save == prefs.save,
        c.save == prefs.save && c.copy == prefs.copy,
{
}

/// A pinned picture takes no arguments; any other action gets all that were chosen.
pub proof fn arguments_go_to_captures(action: Action, chosen: Vec<String>, args: Vec<String>)
    requires
        call_ensures(dispatch_args, (action, chosen), args),
    ensures
        action is PinLast ==> args@.len() == 0,
        !(action is PinLast) ==> views(args@) == views(chosen@),
{
    assert(views(args@).len() == args@.len());
}

/// A diagnosis with errors, or one that failed, is urgent, and any other is not.
pub proof fn errors_are_urgent(counts: Option<(u64, u64)>, r: (&str, String, Urgency))
    requires
        call_ensures(diagnostics_message, (counts,), r),
    ensures
        r.2 is Critical <==> (counts is None || (counts matches Some((errors, _)) && errors > 0)),
{
}

/// Quitting goes before everything else that waits, and nothing waits in an empty queue.
pub proof fn quitting_goes_first(
    backlog: &[Message],
    r: Option<Message>,
    closed: bool,
    now_ms: u64,
    due_ms: u64,
    t: Tick,
)
    requires
        call_ensures(drain, (backlog,), r),
        call_ensures(tick, (closed, r, now_ms, due_ms), t),
    ensures
        r is None <==> backlog@.len() == 0,
        r == Some(Message::Quit) <==> backlog@.contains(Message::Quit),
        closed ==> t is Closed,
        !closed && backlog@.contains(Message::Quit) ==> t is Quit,
        !closed && r == Some(Message::Refresh) ==> t is Poll,
        !closed && r is None ==> (t is Poll <==> now_ms >= due_ms),
        t is Idle ==> now_ms < due_ms,
{
}

/// The service is polled every two seconds, and a host that does not come is waited for sixty times.
pub proof fn waiting_ends(now_ms: u64, due_ms: u64, attempt: u32, r: Waiting)
    requires
        now_ms + POLL_INTERVAL_MS <= u64::MAX,
        call_ensures(next_poll, (now_ms,), due_ms),
        call_ensures(registration_failed, (attempt,), r),
    ensures
        due_ms == now_ms + 2000,
        r is GiveUp <==> attempt >= 60,
        r matches Waiting::Retry { report } ==> (report <==> attempt == 1 || attempt % 6 == 0),
{
}

/// The menu shows the preferences as they are and ends with leaving.
pub proof fn the_menu_shows_the_preferences(prefs: &Preferences, r: Vec<Entry>)
    requires
        call_ensures(menu, (prefs,), r),
    ensures
        r@.contains(Entry::Save(prefs.save)) && !r@.contains(Entry::Save(!prefs.save)),
        r@.contains(Entry::Copy(prefs.copy)) && !r@.contains(Entry::Copy(!prefs.copy)),
        r@.contains(Entry::Capture(Action::Region)) && r@.contains(Entry::Capture(Action::Long))
            && r@.contains(Entry::Capture(Action::PinLast)),
        r@.len() > 0 && r@.last() is Quit,
{
    assert(r@[7] == Entry::Save(prefs.save));
    assert(r@[8] == Entry::Copy(prefs.copy));
    assert(r@[2] == Entry::Capture(Action::Region));
    assert(r@[3] == Entry::Capture(Action::Long));
    assert(r@[4] == Entry::Capture(Action::PinLast));
}

/// A report is counted only with both of its numbers.
pub proof fn a_report_needs_both_numbers(report: &Json, r: Option<(u64, u64)>, output: &str, s: Option<(u64, u64)>)
    requires
        call_ensures(counts_in, (report,), r),
        call_ensures(doctor, (output,), s),
        parsed(output@) == Some(*report),
    ensures
        r == s,
        r is Some <==> unsigned_of(field(*report, "errors"@)) is Some && unsigned_of(
            field(*report, "warnings"@),
        ) is Some,
        r matches Some((e, w)) ==> unsigned_of(field(*report, "errors"@)) == Some(e as int)
            && unsigned_of(field(*report, "warnings"@)) == Some(w as int),
{
}

/// A recording that runs is finished from the menu, and everything but the state and the lines
/// between can be chosen.
pub proof fn a_running_recording_can_be_finished(
    status: &Status,
    label: &str,
    active: Option<Action>,
    entry: Entry,
    r: bool,
)
    requires
        call_ensures(Status::long_label, (status,), label),
        call_ensures(Status::active_action, (status,), active),
        call_ensures(Entry::enabled, (entry,), r),
    ensures
        label@ == "完成长截图"@ <==> active == Some(Action::Long),
        r <==> !(entry is State) && !(entry is Separator),
{
    reveal_strlit("完成长截图");
    reveal_strlit("长截图");
    assert("完成长截图"@.len() == 5 && "长截图"@.len() == 3);
}

} // verus!
