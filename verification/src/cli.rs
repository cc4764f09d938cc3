//! The command line of the capture program: what is asked for, how a selection ends, and which code
//! the program exits with.

use vstd::prelude::*;

use crate::text::{chars_of, decimal, decimal_of, owned, same, string_of, view_of, views};

verus! {

/// The exit code of a capture that was cancelled, which is no failure.
pub const EXIT_CANCELLED: i32 = 130;

/// What is said if no command is given.
pub const USAGE: &'static str =
    "usage: vellum-ui <region|long|pin-last|debug-capture|pin-file|text-file|panel> [..]";

/// What is said if a command lacks its file.
pub const MISSING_FILE: &'static str = "missing file argument";

/// What happens to the picture.
#[derive(Debug, Clone, Copy, PartialEq, Eq, Structural)]
pub struct OutputFlags {
    pub save: bool,
    pub copy: bool,
}

/// What the arguments say of saving: the last word on it counts.
pub open spec fn saves(args: Seq<Seq<char>>) -> bool
    decreases args.len(),
{
    if args.len() == 0 {
        true
    } else if args.last() == "--no-save"@ {
        false
    } else if args.last() == "--save"@ {
        true
    } else {
        saves(args.drop_last())
    }
}

impl OutputFlags {
    /// Reads the flags. Both outputs are on unless they are switched off.
    pub fn parse(args: &[String]) -> (flags: OutputFlags)
        ensures
            flags.save == saves(views(args@)),
            flags.copy == !views(args@).contains("--no-copy"@),
    {
        proof {
            reveal_strlit("--no-save");
            reveal_strlit("--save");
            reveal_strlit("--no-copy");
            assert("--no-save"@[3] == 'o' && "--no-save"@[5] == 's' && "--no-copy"@[5] == 'c');
            assert("--save"@.len() == 6 && "--no-save"@.len() == 9 && "--no-copy"@.len() == 9);
        }
        let ghost all = views(args@);
        let mut flags = OutputFlags { save: true, copy: true };
        let mut i: usize = 0;
        assert(all.take(0) =~= Seq::empty());
        while i < args.len()
            invariant
                all == views(args@),
                i <= args@.len(),
                flags.save == saves(all.take(i as int)),
                flags.copy == !all.take(i as int).contains("--no-copy"@),
                "--no-save"@ != "--no-copy"@,
                "--save"@ != "--no-copy"@,
            decreases args.len() - i,
        {
            let arg: &str = args[i].as_str();
            let ghost here = all.take(i + 1);
            proof {
                assert(here.last() == arg@);
                assert(here.drop_last() =~= all.take(i as int));
                assert(here =~= all.take(i as int).push(arg@));
                pushed_contains(all.take(i as int), arg@, "--no-copy"@);
            }
            if same(arg, "--no-save") {
                flags.save = false;
            } else if same(arg, "--save") {
                flags.save = true;
            } else if same(arg, "--no-copy") {
                flags.copy = false;
            }
            i = i + 1;
        }
        assert(all.take(args@.len() as int) =~= all);
        flags
    }
}

proof fn pushed_contains(s: Seq<Seq<char>>, a: Seq<char>, x: Seq<char>)
    ensures
        s.push(a).contains(x) == (s.contains(x) || a == x),
{
    if s.contains(x) {
        let k = choose|k: int| 0 <= k < s.len() && s[k] == x;
        assert(s.push(a)[k] == x);
    }
    if a == x {
        assert(s.push(a)[s.len() as int] == x);
    }
    if s.push(a).contains(x) {
        let k = choose|k: int| 0 <= k < s.len() + 1 && s.push(a)[k] == x;
        assert(k < s.len() ==> s[k] == x);
    }
}

/// `arg` is `name`, an equals sign and a value.
pub open spec fn assigns(arg: Seq<char>, name: Seq<char>) -> bool {
    arg.len() > name.len() && arg.take(name.len() as int) == name && arg[name.len() as int] == '='
}

/// The value of a flag, from the given argument on: what follows it, or what it is set to.
pub open spec fn value_of(args: Seq<Seq<char>>, name: Seq<char>, from: int) -> Option<Seq<char>>
    decreases args.len() - from,
{
    if from < 0 || from >= args.len() {
        None
    } else if args[from] == name {
        if from + 1 < args.len() {
            Some(args[from + 1])
        } else {
            None
        }
    } else if assigns(args[from], name) {
        Some(args[from].skip(name.len() + 1int))
    } else {
        value_of(args, name, from + 1)
    }
}

fn assigned(arg: &str, name: &str) -> (r: Option<String>)
    ensures
        view_of(r) == if assigns(arg@, name@) {
            Some(arg@.skip(name@.len() + 1int))
        } else {
            None
        },
{
    let a = chars_of(arg);
    let n = chars_of(name);
    if a.len() <= n.len() {
        return None;
    }
    let mut i: usize = 0;
    while i < n.len()
        invariant
            a@ == arg@,
            n@ == name@,
            a@.len() > n@.len(),
            i <= n@.len(),
            forall|k: int| 0 <= k < i ==> a@[k] == n@[k],
        decreases n.len() - i,
    {
        if a[i] != n[i] {
            assert(arg@.take(name@.len() as int)[i as int] != name@[i as int]);
            return None;
        }
        i = i + 1;
    }
    assert(arg@.take(name@.len() as int) =~= name@);
    if a[n.len()] != '=' {
        return None;
    }
    let value = string_of(a.as_slice(), n.len() + 1, a.len());
    assert(value@ =~= arg@.skip(name@.len() + 1int));
    Some(value)
}

/// The value of a flag.
pub fn flag_value(args: &[String], name: &str) -> (r: Option<String>)
    ensures
        view_of(r) == value_of(views(args@), name@, 0),
{
    let ghost all = views(args@);
    let mut i: usize = 0;
    while i < args.len()
        invariant
            all == views(args@),
            i <= args@.len(),
            value_of(all, name@, 0) == value_of(all, name@, i as int),
        decreases args.len() - i,
    {
        assert(all[i as int] == args@[i as int]@);
        if same(args[i].as_str(), name) {
            if i + 1 < args.len() {
                assert(all[i + 1] == args@[i + 1]@);
                return Some(args[i + 1].clone());
            }
            return None;
        }
        let value = assigned(args[i].as_str(), name);
        if value.is_some() {
            return value;
        }
        i = i + 1;
    }
    None
}

/// An argument that can be a path: no flag, and no value of the mode.
pub open spec fn is_path(arg: Seq<char>) -> bool {
    !(arg.len() > 0 && arg[0] == '-') && arg != "ocr"@ && arg != "translate"@
}

/// The first path from the given argument on.
pub open spec fn path_of(args: Seq<Seq<char>>, from: int) -> Option<Seq<char>>
    decreases args.len() - from,
{
    if from < 0 || from >= args.len() {
        None
    } else if is_path(args[from]) {
        Some(args[from])
    } else {
        path_of(args, from + 1)
    }
}

fn mentions(args: &[String], word: &str) -> (r: bool)
    ensures
        r == views(args@).contains(word@),
{
    let mut i: usize = 0;
    while i < args.len()
        invariant
            i <= args@.len(),
            forall|k: int| 0 <= k < i ==> views(args@)[k] != word@,
        decreases args.len() - i,
    {
        assert(views(args@)[i as int] == args@[i as int]@);
        if same(args[i].as_str(), word) {
            return true;
        }
        i = i + 1;
    }
    false
}

/// The file of a command and whether it is removed once it was read. Nothing if there is none.
pub fn file_args(args: &[String]) -> (r: Option<(String, bool)>)
    ensures
        match r {
            Some((path, cleanup)) => path_of(views(args@), 0) == Some(path@) && cleanup == views(
                args@,
            ).contains("--cleanup"@),
            None => path_of(views(args@), 0) is None,
        },
{
    let ghost all = views(args@);
    let cleanup: bool = mentions(args, "--cleanup");
    let mut i: usize = 0;
    while i < args.len()
        invariant
            all == views(args@),
            cleanup == all.contains("--cleanup"@),
            i <= args@.len(),
            path_of(all, 0) == path_of(all, i as int),
        decreases args.len() - i,
    {
        assert(all[i as int] == args@[i as int]@);
        let chars = chars_of(args[i].as_str());
        let flag: bool = chars.len() > 0 && chars[0] == '-';
        if !flag && !same(args[i].as_str(), "ocr") && !same(args[i].as_str(), "translate") {
            return Some((args[i].clone(), cleanup));
        }
        i = i + 1;
    }
    None
}

/// What the program is asked for.
#[derive(Debug)]
pub enum Command {
    /// Nothing: say how to ask.
    Usage,
    Region(OutputFlags),
    /// A scrolling capture. The service that started it may manage it.
    Long(OutputFlags, bool),
    DebugCapture(OutputFlags),
    PinLast,
    /// A picture in a file, which may have to be removed.
    PinFile(String, bool),
    Panel,
    /// The text in a picture in a file, which may have to be removed; and whether to translate it.
    TextFile(String, bool, bool),
    /// The command lacks its file.
    MissingFile,
    Unknown(String),
}

/// What a command line asks for.
pub open spec fn asks_for(args: Seq<Seq<char>>, managed: bool, c: Command) -> bool {
    if args.len() == 0 {
        c is Usage
    } else {
        let rest = args.skip(1);
        let flags = OutputFlags { save: saves(rest), copy: !rest.contains("--no-copy"@) };
        let file = path_of(rest, 0);
        let cleanup = rest.contains("--cleanup"@);
        if args[0] == "region"@ {
            c == Command::Region(flags)
        } else if args[0] == "long"@ {
            c == Command::Long(flags, managed)
        } else if args[0] == "debug-capture"@ {
            c == Command::DebugCapture(flags)
        } else if args[0] == "pin-last"@ {
            c is PinLast
        } else if args[0] == "panel"@ {
            c is Panel
        } else if args[0] == "pin-file"@ {
            match file {
                Some(p) => c matches Command::PinFile(path, remove) && path@ == p && remove
                    == cleanup,
                None => c is MissingFile,
            }
        } else if args[0] == "text-file"@ {
            match file {
                Some(p) => c matches Command::TextFile(path, remove, translate) && path@ == p
                    && remove == cleanup && translate == (value_of(rest, "--mode"@, 0) == Some(
                    "translate"@,
                )),
                None => c is MissingFile,
            }
        } else {
            c matches Command::Unknown(word) && word@ == args[0]
        }
    }
}

fn tail(args: &[String]) -> (rest: Vec<String>)
    requires
        args@.len() > 0,
    ensures
        views(rest@) == views(args@).skip(1),
{
    let mut rest: Vec<String> = Vec::new();
    let mut i: usize = 1;
    assert(views(rest@) =~= views(args@).subrange(1, 1));
    while i < args.len()
        invariant
            1 <= i <= args@.len(),
            views(rest@) == views(args@).subrange(1, i as int),
        decreases args.len() - i,
    {
        let ghost before = views(rest@);
        rest.push(args[i].clone());
        proof {
            assert(views(rest@) =~= before.push(args@[i as int]@));
            assert(views(rest@) =~= views(args@).subrange(1, i + 1));
        }
        i = i + 1;
    }
    assert(views(rest@) =~= views(args@).skip(1));
    rest
}

/// What a command line asks for. `managed` says whether the service manages this program.
pub fn dispatch(args: &[String], managed: bool) -> (c: Command)
    ensures
        asks_for(views(args@), managed, c),
{
    if args.len() == 0 {
        return Command::Usage;
    }
    let action: &str = args[0].as_str();
    assert(action@ == views(args@)[0]);
    let rest = tail(args);
    let flags = OutputFlags::parse(rest.as_slice());
    if same(action, "region") {
        return Command::Region(flags);
    }
    if same(action, "long") {
        return Command::Long(flags, managed);
    }
    if same(action, "debug-capture") {
        return Command::DebugCapture(flags);
    }
    if same(action, "pin-last") {
        return Command::PinLast;
    }
    if same(action, "panel") {
        return Command::Panel;
    }
    if same(action, "pin-file") {
        return match file_args(rest.as_slice()) {
            Some((path, cleanup)) => Command::PinFile(path, cleanup),
            None => Command::MissingFile,
        };
    }
    if same(action, "text-file") {
        return match file_args(rest.as_slice()) {
            Some((path, cleanup)) => {
                let translate: bool = match flag_value(rest.as_slice(), "--mode") {
                    Some(mode) => same(mode.as_str(), "translate"),
                    None => false,
                };
                Command::TextFile(path, cleanup, translate)
            },
            None => Command::MissingFile,
        };
    }
    Command::Unknown(owned(action))
}

/// Why no selection can be offered.
#[derive(Debug, Clone, Copy, PartialEq, Eq, Structural)]
pub enum UiStartFailure {
    BackgroundCapture,
    OverlayPresent,
}

/// What is said if no selection can be offered: a title and a text.
pub fn ui_start_failure_message(failure: UiStartFailure) -> (r: (&'static str, &'static str))
    ensures
        match failure {
            UiStartFailure::BackgroundCapture => r.0@ == "Vellum 选区界面启动失败"@ && r.1@
                == "无法取得屏幕画面；请运行 vellum doctor 检查截图后端"@,
            UiStartFailure::OverlayPresent => r.0@ == "Vellum 选区窗口启动失败"@ && r.1@
                == "截图窗口未能创建；请运行 vellum doctor 后重试"@,
        },
{
    match failure {
        UiStartFailure::BackgroundCapture => (
            "Vellum 选区界面启动失败",
            "无法取得屏幕画面；请运行 vellum doctor 检查截图后端",
        ),
        UiStartFailure::OverlayPresent => (
            "Vellum 选区窗口启动失败",
            "截图窗口未能创建；请运行 vellum doctor 后重试",
        ),
    }
}

/// What follows once a selection was made.
#[derive(Debug, Clone, Copy, PartialEq, Eq, Structural)]
pub enum Selected {
    /// Record the region.
    Record,
    /// End with the given action.
    End(Ending),
}

/// How a capture ends.
#[derive(Debug, Clone, Copy, PartialEq, Eq, Structural)]
pub enum Ending {
    Cancel,
    LongDone,
    Pin,
    Ocr,
    Translate,
    /// Everything else keeps the picture.
    Keep,
}

/// The ending that an action of the toolbar means.
pub open spec fn ending(action: Seq<char>) -> Ending {
    if action == "cancel"@ {
        Ending::Cancel
    } else if action == "long_done"@ {
        Ending::LongDone
    } else if action == "pin"@ {
        Ending::Pin
    } else if action == "ocr"@ {
        Ending::Ocr
    } else if action == "translate"@ {
        Ending::Translate
    } else {
        Ending::Keep
    }
}

/// The ending that an action of the toolbar means.
pub fn ending_of(action: &str) -> (e: Ending)
    ensures
        e == ending(action@),
{
    if same(action, "cancel") {
        Ending::Cancel
    } else if same(action, "long_done") {
        Ending::LongDone
    } else if same(action, "pin") {
        Ending::Pin
    } else if same(action, "ocr") {
        Ending::Ocr
    } else if same(action, "translate") {
        Ending::Translate
    } else {
        Ending::Keep
    }
}

/// What follows once a selection was made. To confirm a selection for a scrolling capture is to
/// record it.
pub fn on_result(action: &str, valid: bool, long_shot: bool) -> (r: Selected)
    ensures
        r == if valid && (action@ == "long"@ || (action@ == "confirm"@ && long_shot)) {
            Selected::Record
        } else {
            Selected::End(ending(action@))
        },
{
    let record: bool = same(action, "long") || (same(action, "confirm") && long_shot);
    if record && valid {
        return Selected::Record;
    }
    Selected::End(ending_of(action))
}

/// What is left to do when a capture ends.
#[derive(Debug, Clone, Copy, PartialEq, Eq, Structural)]
pub enum Deed {
    /// Exit with the code of a cancelled capture. Say so if it holds.
    Cancelled(bool),
    /// Keep the picture under the name of a scrolling capture or of a plain one.
    Keep(bool),
    /// Hand the picture to another process.
    Spawn(Errand),
}

/// What another process does with a picture.
#[derive(Debug, Clone, Copy, PartialEq, Eq, Structural)]
pub enum Errand {
    Pin,
    Ocr,
    Translate,
}

/// What is left to do when a capture ends.
pub fn handle(pictured: bool, e: Ending) -> (d: Deed)
    ensures
        d == if e == Ending::Cancel {
            Deed::Cancelled(true)
        } else if !pictured {
            Deed::Cancelled(false)
        } else {
            match e {
                Ending::LongDone => Deed::Keep(true),
                Ending::Pin => Deed::Spawn(Errand::Pin),
                Ending::Ocr => Deed::Spawn(Errand::Ocr),
                Ending::Translate => Deed::Spawn(Errand::Translate),
                _ => Deed::Keep(false),
            }
        },
{
    match e {
        Ending::Cancel => return Deed::Cancelled(true),
        _ => {},
    }
    if !pictured {
        return Deed::Cancelled(false);
    }
    match e {
        Ending::LongDone => Deed::Keep(true),
        Ending::Pin => Deed::Spawn(Errand::Pin),
        Ending::Ocr => Deed::Spawn(Errand::Ocr),
        Ending::Translate => Deed::Spawn(Errand::Translate),
        _ => Deed::Keep(false),
    }
}

impl Errand {
    /// The arguments of the process, before the file.
    pub open spec fn words(self) -> Seq<Seq<char>> {
        match self {
            Errand::Pin => seq!["pin-file"@, "--cleanup"@],
            Errand::Ocr => seq!["text-file"@, "--mode"@, "ocr"@, "--cleanup"@],
            Errand::Translate => seq!["text-file"@, "--mode"@, "translate"@, "--cleanup"@],
        }
    }

    /// The arguments of the process, before the file.
    pub fn args(self) -> (args: Vec<String>)
        ensures
            views(args@) == self.words(),
    {
        let mut args: Vec<String> = Vec::new();
        match self {
            Errand::Pin => {
                args.push(owned("pin-file"));
            },
            Errand::Ocr => {
                args.push(owned("text-file"));
                args.push(owned("--mode"));
                args.push(owned("ocr"));
            },
            Errand::Translate => {
                args.push(owned("text-file"));
                args.push(owned("--mode"));
                args.push(owned("translate"));
            },
        }
        args.push(owned("--cleanup"));
        assert(views(args@) =~= self.words());
        args
    }

    /// What is said once the process runs.
    pub fn message(self) -> (s: &'static str)
        ensures
            s@ == match self {
                Errand::Pin => "pinned"@,
                Errand::Ocr => "ocr started"@,
                Errand::Translate => "translate started"@,
            },
    {
        match self {
            Errand::Pin => "pinned",
            Errand::Ocr => "ocr started",
            Errand::Translate => "translate started",
        }
    }
}

/// The process that is handed a picture reads the command it was given: the file, that it is to be
/// removed, and whether the text is to be translated. The file must not look like a flag or like
/// the value of a mode.
pub proof fn an_errand_is_understood(errand: Errand, path: Seq<char>, managed: bool, c: Command)
    requires
        is_path(path),
        asks_for(errand.words().push(path), managed, c),
    ensures
        match errand {
            Errand::Pin => c matches Command::PinFile(p, cleanup) && p@ == path && cleanup,
            Errand::Ocr => c matches Command::TextFile(p, cleanup, translate) && p@ == path
                && cleanup && !translate,
            Errand::Translate => c matches Command::TextFile(p, cleanup, translate) && p@ == path
                && cleanup && translate,
        },
{
    reveal_strlit("region");
    reveal_strlit("long");
    reveal_strlit("debug-capture");
    reveal_strlit("pin-last");
    reveal_strlit("panel");
    reveal_strlit("pin-file");
    reveal_strlit("text-file");
    reveal_strlit("--cleanup");
    reveal_strlit("--mode");
    reveal_strlit("ocr");
    reveal_strlit("translate");
    let args = errand.words().push(path);
    let rest = args.skip(1);
    assert("pin-last"@[4] == 'l' && "pin-file"@[4] == 'f');
    assert("text-file"@.len() == 9 && "debug-capture"@.len() == 13 && "--cleanup"@.len() == 9);
    match errand {
        Errand::Pin => {
            assert(rest =~= seq!["--cleanup"@, path]);
            assert(rest[0] == "--cleanup"@);
            assert(args[0] == "pin-file"@);
            assert("pin-file"@[4] != "pin-last"@[4]);
            assert(path_of(rest, 1) == Some(path));
            assert(path_of(rest, 0) == Some(path));
        },
        Errand::Ocr => {
            assert(rest =~= seq!["--mode"@, "ocr"@, "--cleanup"@, path]);
            assert(rest[2] == "--cleanup"@);
            reveal_with_fuel(path_of, 5);
            assert("ocr"@.len() != "translate"@.len());
        },
        Errand::Translate => {
            assert(rest =~= seq!["--mode"@, "translate"@, "--cleanup"@, path]);
            assert(rest[2] == "--cleanup"@);
            reveal_with_fuel(path_of, 5);
        },
    }
}

/// The beginning of the name of a picture that is kept.
pub fn file_prefix(long_shot: bool) -> (s: &'static str)
    ensures
        s@ == if long_shot {
            "vellum-long"@
        } else {
            "vellum"@
        },
{
    if long_shot {
        "vellum-long"
    } else {
        "vellum"
    }
}

/// The exit code once a picture was saved and copied as far as was asked. One failure is enough.
pub fn keep_code(flags: OutputFlags, saved: bool, copied: bool) -> (code: i32)
    ensures
        code == if (flags.save && !saved) || (flags.copy && !copied) {
            1int
        } else {
            0
        },
{
    if (flags.save && !saved) || (flags.copy && !copied) {
        1
    } else {
        0
    }
}

/// What is said of a copied picture.
pub fn copied_message(width: usize, height: usize, long_shot: bool) -> (s: String)
    ensures
        s@ == if long_shot {
            "long-shot done: "@ + decimal(width as nat) + "x"@ + decimal(height as nat)
                + " copied"@
        } else {
            "copied: "@ + decimal(width as nat) + "x"@ + decimal(height as nat)
                + " to clipboard"@
        },
{
    let mut s = if long_shot {
        owned("long-shot done: ")
    } else {
        owned("copied: ")
    };
    let w = decimal_of(width as u64);
    let h = decimal_of(height as u64);
    s.append(w.as_str());
    s.append("x");
    s.append(h.as_str());
    if long_shot {
        s.append(" copied");
    } else {
        s.append(" to clipboard");
    }
    s
}

/// Whether a scrolling capture failed: it has no picture, and something went wrong.
pub fn longshot_done_failed(has_image: bool, warning_count: usize) -> (r: bool)
    ensures
        r == (!has_image && warning_count > 0),
{
    !has_image && warning_count > 0
}

/// The exit code of a scrolling capture without a picture.
pub fn unpictured_code(warning_count: usize) -> (code: i32)
    ensures
        code == if warning_count > 0 {
            1int
        } else {
            EXIT_CANCELLED as int
        },
{
    if longshot_done_failed(false, warning_count) {
        1
    } else {
        EXIT_CANCELLED
    }
}

/// Whether a wish to finish is pending after a signal: signals count once recording was asked for.
pub fn record_finish_signal(armed: bool, pending: bool) -> (r: bool)
    ensures
        r == (pending || armed),
{
    pending || armed
}

/// Where a wish to finish goes.
#[derive(Debug, Clone, Copy, PartialEq, Eq, Structural)]
pub enum FinishTarget {
    /// To the recorder.
    Recorder,
    /// It is remembered until there is a recorder.
    Remembered,
    Ignored,
}

/// Where a wish to finish goes.
pub fn dispatch_finish_request(recording: bool, long_shot: bool) -> (r: FinishTarget)
    ensures
        r == if recording {
            FinishTarget::Recorder
        } else if long_shot {
            FinishTarget::Remembered
        } else {
            FinishTarget::Ignored
        },
{
    if recording {
        FinishTarget::Recorder
    } else if long_shot {
        FinishTarget::Remembered
    } else {
        FinishTarget::Ignored
    }
}

/// The wish to finish a scrolling capture, from the signal to the recorder.
#[derive(Debug, Clone, Copy, PartialEq, Eq, Structural)]
pub struct FinishRequest {
    pub long_shot: bool,
    /// Signals count.
    pub armed: bool,
    /// A signal came and was not looked at yet.
    pub pending: bool,
    /// A signal was looked at before there was a recorder.
    pub remembered: bool,
    /// There is a recorder.
    pub recording: bool,
}

impl FinishRequest {
    /// After a signal.
    pub open spec fn signalled(self) -> FinishRequest {
        FinishRequest { pending: self.pending || self.armed, ..self }
    }

    /// After a look whether a signal came.
    pub open spec fn polled(self) -> FinishRequest {
        FinishRequest {
            pending: false,
            remembered: self.remembered || (self.pending && !self.recording && self.long_shot),
            ..self
        }
    }

    /// Before a region is selected.
    pub fn new(long_shot: bool) -> (f: FinishRequest)
        ensures
            f == (FinishRequest {
                long_shot,
                armed: false,
                pending: false,
                remembered: false,
                recording: false,
            }),
    {
        FinishRequest {
            long_shot,
            armed: false,
            pending: false,
            remembered: false,
            recording: false,
        }
    }

    /// A signal came.
    pub fn signal(&mut self)
        ensures
            *final(self) == old(self).signalled(),
    {
        self.pending = record_finish_signal(self.armed, self.pending);
    }

    /// A region was confirmed for recording.
    pub fn confirm(&mut self)
        ensures
            *final(self) == (FinishRequest { armed: true, ..*old(self) }),
    {
        self.armed = true;
    }

    /// Looks whether a signal came. Says whether the recorder has to finish.
    pub fn poll(&mut self) -> (finish: bool)
        ensures
            finish == (old(self).pending && old(self).recording),
            *final(self) == old(self).polled(),
    {
        if !self.pending {
            return false;
        }
        self.pending = false;
        match dispatch_finish_request(self.recording, self.long_shot) {
            FinishTarget::Recorder => true,
            FinishTarget::Remembered => {
                self.remembered = true;
                false
            },
            FinishTarget::Ignored => false,
        }
    }

    /// The recorder is there. Says whether it has to finish at once.
    pub fn ready(&mut self) -> (finish: bool)
        ensures
            finish == old(self).remembered,
            *final(self) == (FinishRequest { remembered: false, recording: true, ..*old(self) }),
    {
        let finish: bool = self.remembered;
        self.remembered = false;
        self.recording = true;
        finish
    }
}

/// A signal that comes while a region is selected changes nothing.
pub proof fn a_signal_during_selection_is_ignored(f: FinishRequest)
    requires
        !f.armed,
    ensures
        f.signalled() == f,
{
}

/// A signal that comes after a region was confirmed for a scrolling capture, and before there is a
/// recorder, is kept for it.
pub proof fn a_signal_before_the_recorder_is_kept(f: FinishRequest)
    requires
        f.armed,
        f.long_shot,
        !f.recording,
    ensures
        f.signalled().polled().remembered,
{
}

/// The last word on saving stands: a picture is saved unless the last of both flags says no. It is
/// copied unless a flag says no, wherever that stands.
pub proof fn the_last_word_on_saving_stands(
    args: &[String],
    word: &str,
    more: &[String],
    a: OutputFlags,
    b: OutputFlags,
)
    requires
        views(more@) == views(args@).push(word@),
        call_ensures(OutputFlags::parse, (args,), a),
        call_ensures(OutputFlags::parse, (more,), b),
    ensures
        word@ == "--no-save"@ ==> !b.save,
        word@ == "--save"@ ==> b.save,
        word@ != "--save"@ && word@ != "--no-save"@ ==> b.save == a.save,
        word@ == "--no-copy"@ ==> !b.copy,
        word@ != "--no-copy"@ ==> b.copy == a.copy,
        args@.len() == 0 ==> a.save && a.copy,
{
    let (x, y) = (views(args@), views(more@));
    assert(y.drop_last() =~= x && y.last() == word@);
    assert("--save"@ != "--no-save"@) by {
        reveal_strlit("--save");
        reveal_strlit("--no-save");
        assert("--save"@.len() != "--no-save"@.len());
    }
    assert(y[x.len() as int] == word@);
    if x.contains("--no-copy"@) {
        let k = choose|k: int| 0 <= k < x.len() && x[k] == "--no-copy"@;
        assert(y[k] == x[k]);
    }
    if y.contains("--no-copy"@) && word@ != "--no-copy"@ {
        let k = choose|k: int| 0 <= k < y.len() && y[k] == "--no-copy"@;
        assert(x[k] == y[k]);
    }
}

proof fn a_value_is_found(args: Seq<Seq<char>>, name: Seq<char>, from: int, k: int)
    requires
        0 <= from <= k < args.len(),
        forall|j: int|
            from <= j < k ==> (#[trigger] args[j]) != name && !assigns(args[j], name),
    ensures
        value_of(args, name, from) == value_of(args, name, k),
    decreases k - from,
{
    if from < k {
        assert(args[from] != name && !assigns(args[from], name));
        a_value_is_found(args, name, from + 1, k);
    }
}

/// The value of a flag is the word after it, or what follows the equals sign. The first place where
/// the flag stands counts.
pub proof fn a_flag_has_its_value(args: &[String], name: &str, r: Option<String>, k: int, v: Seq<char>)
    requires
        call_ensures(flag_value, (args, name), r),
        0 <= k < args@.len(),
        forall|j: int|
            0 <= j < k ==> (#[trigger] args@[j])@ != name@ && !(name@ + seq!['=']).is_prefix_of(
                args@[j]@,
            ),
    ensures
        args@[k]@ == name@ && k + 1 < args@.len() ==> r is Some && (r->0)@ == args@[k + 1]@,
        args@[k]@ == name@ && k + 1 == args@.len() ==> r is None,
        args@[k]@ == name@ + seq!['='] + v ==> r is Some && (r->0)@ == v,
{
    let a = views(args@);
    assert(a.len() == args@.len() && a[k] == args@[k]@);
    assert forall|j: int| 0 <= j < k implies (#[trigger] a[j]) != name@ && !assigns(
        a[j],
        name@,
    ) by {
        assert(a[j] == args@[j]@);
        if assigns(a[j], name@) {
            assert forall|i: int| 0 <= i < name@.len() + 1 implies (name@ + seq!['='])[i]
                == a[j][i] by {
                if i < name@.len() {
                    assert(a[j].take(name@.len() as int)[i] == name@[i]);
                }
            }
            assert((name@ + seq!['=']).is_prefix_of(args@[j]@)) by {
                assert(a[j].take(name@.len() + 1int) =~= name@ + seq!['=']);
            }
        }
    }
    a_value_is_found(a, name@, 0, k);
    if args@[k]@ == name@ && k + 1 < args@.len() {
        assert(a[k + 1] == args@[k + 1]@);
    }
    if args@[k]@ == name@ + seq!['='] + v {
        let arg = a[k];
        assert(arg.take(name@.len() as int) =~= name@);
        assert(arg.skip(name@.len() + 1int) =~= v);
        assert(arg.len() > name@.len());
    }
}

proof fn a_path_is_found(args: Seq<Seq<char>>, from: int, k: int)
    requires
        0 <= from <= k < args.len(),
        is_path(args[k]),
        forall|j: int| from <= j < k ==> !is_path(#[trigger] args[j]),
    ensures
        path_of(args, from) == Some(args[k]),
    decreases k - from,
{
    if from < k {
        assert(!is_path(args[from]));
        a_path_is_found(args, from + 1, k);
    }
}

/// The file is the first argument that is no flag and no mode; it is removed afterwards exactly if a
/// flag says so.
pub proof fn the_file_is_the_first_plain_argument(
    args: &[String],
    r: Option<(String, bool)>,
    k: int,
)
    requires
        call_ensures(file_args, (args,), r),
        0 <= k < args@.len(),
        args@[k]@ != "ocr"@ && args@[k]@ != "translate"@,
        args@[k]@.len() == 0 || args@[k]@[0] != '-',
        forall|j: int|
            0 <= j < k ==> (#[trigger] args@[j])@ == "ocr"@ || args@[j]@ == "translate"@ || (
            args@[j]@.len() > 0 && args@[j]@[0] == '-'),
    ensures
        r matches Some((path, cleanup)) && path@ == args@[k]@ && (cleanup <==> views(
            args@,
        ).contains("--cleanup"@)),
{
    let a = views(args@);
    assert(a[k] == args@[k]@);
    assert forall|j: int| 0 <= j < k implies !is_path(#[trigger] a[j]) by {
        assert(a[j] == args@[j]@);
    }
    a_path_is_found(a, 0, k);
}

/// The errand that a picture is sent on is the one that the program takes it for: with the picture,
/// which is removed afterwards, and for the asked mode.
pub proof fn an_errand_is_carried_out(
    errand: Errand,
    args: Vec<String>,
    path: &str,
    all: &[String],
    managed: bool,
    c: Command,
)
    requires
        call_ensures(Errand::args, (errand,), args),
        views(all@) == views(args@).push(path@),
        path@.len() > 0 && path@[0] == '/',
        call_ensures(dispatch, (all, managed), c),
    ensures
        errand is Pin ==> (c matches Command::PinFile(p, cleanup) && p@ == path@ && cleanup),
        errand is Ocr ==> (c matches Command::TextFile(p, cleanup, translate) && p@ == path@
            && cleanup && !translate),
        errand is Translate ==> (c matches Command::TextFile(p, cleanup, translate) && p@ == path@
            && cleanup && translate),
{
    reveal_strlit("ocr");
    reveal_strlit("translate");
    assert(is_path(path@)) by {
        assert("ocr"@[0] == 'o' && "translate"@[0] == 't');
    }
    an_errand_is_understood(errand, path@, managed, c);
}

/// A selection is recorded only if it is valid, and only if a recording was asked for. Any other one
/// ends.
pub proof fn only_a_valid_selection_is_recorded(
    action: &str,
    valid: bool,
    long_shot: bool,
    r: Selected,
    e: Ending,
)
    requires
        call_ensures(on_result, (action, valid, long_shot), r),
        call_ensures(ending_of, (action,), e),
    ensures
        r is Record <==> valid && (action@ == "long"@ || (action@ == "confirm"@ && long_shot)),
        !(r is Record) ==> r == Selected::End(e),
        e is Cancel <==> action@ == "cancel"@,
{
}

/// Nothing is kept, pinned or read of a cancelled selection, nor without a picture.
pub proof fn a_cancelled_selection_leaves_nothing(pictured: bool, e: Ending, d: Deed)
    requires
        call_ensures(handle, (pictured, e), d),
    ensures
        d is Cancelled <==> e is Cancel || !pictured,
        d is Spawn <==> pictured && (e is Pin || e is Ocr || e is Translate),
        d == Deed::Spawn(Errand::Pin) <==> pictured && e is Pin,
        d == Deed::Spawn(Errand::Ocr) <==> pictured && e is Ocr,
        d == Deed::Spawn(Errand::Translate) <==> pictured && e is Translate,
        d == Deed::Keep(true) <==> pictured && e is LongDone,
        d == Deed::Keep(false) <==> pictured && e is Keep,
{
}

/// The program succeeds exactly if everything that was asked for succeeded.
pub proof fn success_is_what_was_asked_for(flags: OutputFlags, saved: bool, copied: bool, code: i32)
    requires
        call_ensures(keep_code, (flags, saved, copied), code),
    ensures
        code == 0 <==> (flags.save ==> saved) && (flags.copy ==> copied),
        code == 0 || code == 1,
{
}

/// A signal that comes while recording finishes the recording, once; one that comes between the
/// confirmation and the recorder is kept for it; one during the selection is ignored.
pub proof fn a_signal_finishes_the_recording(
    f: &mut FinishRequest,
    g: &mut FinishRequest,
    finish: bool,
    h: &mut FinishRequest,
    again: bool,
    i: &mut FinishRequest,
    ready: bool,
)
    requires
        !old(f).pending && !old(f).remembered,
        call_ensures(FinishRequest::signal, (f,), ()),
        *old(g) == *final(f),
        call_ensures(FinishRequest::poll, (g,), finish),
        *old(h) == *final(g),
        call_ensures(FinishRequest::poll, (h,), again),
        *old(i) == *final(g),
        call_ensures(FinishRequest::ready, (i,), ready),
    ensures
        finish <==> old(f).armed && old(f).recording,
        !again,
        ready <==> old(f).armed && !old(f).recording && old(f).long_shot,
        final(i).recording && !final(i).remembered,
{
}

/// A recording without a picture has failed if there were warnings, and was cancelled otherwise.
pub proof fn no_picture_is_a_failure_with_warnings(
    has_image: bool,
    warnings: usize,
    failed: bool,
    code: i32,
)
    requires
        call_ensures(longshot_done_failed, (has_image, warnings), failed),
        call_ensures(unpictured_code, (warnings,), code),
    ensures
        failed <==> !has_image && warnings > 0,
        warnings > 0 ==> code == 1,
        warnings == 0 ==> code == 130,
{
}

/// A request to finish reaches the recorder while there is one, is kept for it before, and is ignored
/// without a recording. A signal is noted only once the selection is confirmed.
pub proof fn a_request_finds_its_target(
    recording: bool,
    long_shot: bool,
    t: FinishTarget,
    armed: bool,
    pending: bool,
    p: bool,
)
    requires
        call_ensures(dispatch_finish_request, (recording, long_shot), t),
        call_ensures(record_finish_signal, (armed, pending), p),
    ensures
        t is Recorder <==> recording,
        t is Remembered <==> !recording && long_shot,
        t is Ignored <==> !recording && !long_shot,
        p <==> pending || armed,
{
}

} // verus!
