//! The window for recognised and translated text: what it shows at every stage.

use vstd::prelude::*;

use crate::text::{chars_of, owned, trim, trimmed, view_of};

verus! {

/// Where the text in a window comes from.
#[derive(Debug, Clone, Copy, PartialEq, Eq, Structural)]
pub enum Mode {
    Ocr,
    Translate,
}

impl Mode {
    /// The badge of the window.
    pub fn badge(self) -> (s: &'static str)
        ensures
            s@ == match self {
                Mode::Ocr => "OCR"@,
                Mode::Translate => "译"@,
            },
    {
        match self {
            Mode::Ocr => "OCR",
            Mode::Translate => "译",
        }
    }

    /// The title of the window.
    pub fn title(self) -> (s: &'static str)
        ensures
            s@ == match self {
                Mode::Ocr => "提取的文字"@,
                Mode::Translate => "翻译结果"@,
            },
    {
        match self {
            Mode::Ocr => "提取的文字",
            Mode::Translate => "翻译结果",
        }
    }

    /// The line under the title.
    pub fn subtitle(self) -> (s: &'static str)
        ensures
            s@ == match self {
                Mode::Ocr => "可直接编辑，再复制或翻译"@,
                Mode::Translate => "可直接编辑或复制到剪贴板"@,
            },
    {
        match self {
            Mode::Ocr => "可直接编辑，再复制或翻译",
            Mode::Translate => "可直接编辑或复制到剪贴板",
        }
    }

    /// What a window shows before the text is there.
    pub fn placeholder(self) -> (s: &'static str)
        ensures
            s@ == match self {
                Mode::Ocr => "识别中…"@,
                Mode::Translate => "识别并翻译中…"@,
            },
    {
        match self {
            Mode::Ocr => "识别中…",
            Mode::Translate => "识别并翻译中…",
        }
    }
}

/// What a worker has to tell a window.
#[derive(Debug)]
pub enum Update {
    /// A text and the state of the window.
    Result { text: String, status: String, busy: bool, usable: bool },
    /// A message alone.
    Flash { message: String, busy: bool, error: bool },
    /// A translation, which gets its own window.
    Translation(String),
}

/// An update is a text with the given state.
pub open spec fn is_result(
    u: Update,
    shown: Seq<char>,
    said: Seq<char>,
    works: bool,
    ready: bool,
) -> bool {
    u matches Update::Result { text, status, busy, usable } && text@ == shown && status@ == said
        && busy == works && usable == ready
}

/// What follows from a recognition.
#[derive(Debug)]
pub enum Recognised {
    /// There is nothing more to do.
    Done(Update),
    /// The text has to be translated. It is shown meanwhile.
    Translating(Update, String),
}

/// What follows from a recognition.
pub fn recognised(result: Result<String, String>, translate: bool) -> (r: Recognised)
    ensures
        match result {
            Err(error) => r matches Recognised::Done(u) && is_result(
                u,
                "[错误] "@ + error@,
                "处理失败"@,
                false,
                false,
            ),
            Ok(text) => if trim(text@).len() == 0 {
                r matches Recognised::Done(u) && is_result(
                    u,
                    "（未识别到文字）"@,
                    "未识别到文字"@,
                    false,
                    false,
                )
            } else if !translate {
                r matches Recognised::Done(u) && is_result(u, text@, Seq::empty(), false, true)
            } else {
                r matches Recognised::Translating(u, source) && source@ == text@ && is_result(
                    u,
                    text@,
                    "翻译中…"@,
                    true,
                    false,
                )
            },
        },
{
    match result {
        Err(error) => {
            let mut text = owned("[错误] ");
            text.append(error.as_str());
            Recognised::Done(
                Update::Result { text, status: owned("处理失败"), busy: false, usable: false },
            )
        },
        Ok(text) => {
            let bare = trimmed(text.as_str());
            if chars_of(bare.as_str()).len() == 0 {
                return Recognised::Done(
                    Update::Result {
                        text: owned("（未识别到文字）"),
                        status: owned("未识别到文字"),
                        busy: false,
                        usable: false,
                    },
                );
            }
            if !translate {
                let status = String::new();
                assert(status@ =~= Seq::empty());
                return Recognised::Done(
                    Update::Result { text, status, busy: false, usable: true },
                );
            }
            let shown = owned(text.as_str());
            Recognised::Translating(
                Update::Result {
                    text: shown,
                    status: owned("翻译中…"),
                    busy: true,
                    usable: false,
                },
                text,
            )
        },
    }
}

/// What follows from the translation of a text that was just recognised. If it fails, the text
/// itself stays, ready for use.
pub fn translated(source: String, result: Result<String, String>) -> (u: Update)
    ensures
        match result {
            Ok(text) => is_result(u, text@, Seq::empty(), false, true),
            Err(error) => is_result(u, source@, "翻译失败: "@ + error@, false, true),
        },
{
    match result {
        Ok(text) => {
            let status = String::new();
            assert(status@ =~= Seq::empty());
            Update::Result { text, status, busy: false, usable: true }
        },
        Err(error) => {
            let mut status = owned("翻译失败: ");
            status.append(error.as_str());
            Update::Result { text: source, status, busy: false, usable: true }
        },
    }
}

/// What follows from a translation that was asked for in a window.
pub fn translated_on_request(result: Result<String, String>) -> (u: Update)
    ensures
        match result {
            Ok(text) => u matches Update::Translation(t) && t@ == text@,
            Err(error) => u matches Update::Flash { message, busy, error: failed } && message@
                == "翻译失败: "@ + error@ && !busy && failed,
        },
{
    match result {
        Ok(text) => Update::Translation(text),
        Err(error) => {
            let mut message = owned("翻译失败: ");
            message.append(error.as_str());
            Update::Flash { message, busy: false, error: true }
        },
    }
}

/// What a window shows.
#[derive(Debug)]
pub struct ResultState {
    pub mode: Mode,
    pub text: String,
    pub status: String,
    /// The status is an error.
    pub error: bool,
    pub busy: bool,
    /// The text can be edited and copied.
    pub ready: bool,
    /// The text can be sent to be translated. Only windows of recognised text have that button.
    pub translatable: bool,
    /// A translation is on its way.
    pub translating: bool,
    pub closed: bool,
}

impl ResultState {
    /// Nothing but what is shown in the footer differs.
    pub open spec fn same_but_footer(self, other: ResultState) -> bool {
        self.mode == other.mode && self.text@ == other.text@ && self.ready == other.ready
            && self.closed == other.closed
    }

    /// A new window.
    pub fn new(mode: Mode, text: &str, status: &str, busy: bool, usable: bool) -> (w: ResultState)
        ensures
            w.mode == mode,
            w.text@ == text@,
            w.status@ == status@,
            !w.error,
            w.busy == busy,
            w.ready == usable,
            w.translatable == (mode == Mode::Ocr && usable),
            !w.translating,
            !w.closed,
    {
        ResultState {
            mode,
            text: owned(text),
            status: owned(status),
            error: false,
            busy,
            ready: usable,
            translatable: mode == Mode::Ocr && usable,
            translating: false,
            closed: false,
        }
    }

    /// The window of a text that is still being recognised.
    pub fn waiting(translate: bool) -> (w: ResultState)
        ensures
            w.mode == if translate {
                Mode::Translate
            } else {
                Mode::Ocr
            },
            w.text@ == if translate {
                "识别并翻译中…"@
            } else {
                "识别中…"@
            },
            w.status@ == w.text@,
            !w.error,
            w.busy,
            !w.ready,
            !w.translatable,
            !w.translating,
            !w.closed,
    {
        let mode = if translate {
            Mode::Translate
        } else {
            Mode::Ocr
        };
        let placeholder = mode.placeholder();
        ResultState::new(mode, placeholder, placeholder, true, false)
    }

    /// The user closes the window.
    pub fn close(&mut self)
        ensures
            *final(self) == (ResultState { closed: true, ..*old(self) }),
    {
        self.closed = true;
    }

    /// The user edits the text.
    pub fn edit(&mut self, text: String)
        ensures
            *final(self) == (ResultState { text, ..*old(self) }),
    {
        self.text = text;
    }

    /// Shows a message.
    pub fn flash(&mut self, message: &str, busy: bool, error: bool)
        ensures
            final(self).same_but_footer(*old(self)),
            final(self).status@ == message@,
            final(self).busy == busy,
            final(self).error == error,
            final(self).translatable == old(self).translatable,
            final(self).translating == old(self).translating,
    {
        self.status = owned(message);
        self.error = error;
        self.busy = busy;
    }

    /// Takes over what a worker has to tell. A text in the result is to be shown in a window of its
    /// own. A message after which nothing is awaited ends a translation that was on its way, so
    /// that it can be asked for again. A closed window takes nothing.
    pub fn apply(&mut self, update: Update) -> (opened: Option<String>)
        ensures
            old(self).closed ==> opened is None && *final(self) == *old(self),
            !old(self).closed ==> match update {
                Update::Result { text, status, busy, usable } => {
                    &&& opened is None
                    &&& *final(self) == (ResultState {
                        text,
                        status,
                        error: false,
                        busy,
                        ready: usable,
                        translatable: old(self).mode == Mode::Ocr && usable && !old(
                            self,
                        ).translating,
                        ..*old(self)
                    })
                },
                Update::Flash { message, busy, error } => {
                    &&& opened is None
                    &&& final(self).same_but_footer(*old(self))
                    &&& final(self).status@ == message@
                    &&& final(self).busy == busy
                    &&& final(self).error == error
                    &&& final(self).translating == (old(self).translating && busy)
                    &&& final(self).translatable == if old(self).translating && !busy {
                        old(self).mode == Mode::Ocr
                    } else {
                        old(self).translatable
                    }
                },
                Update::Translation(text) => {
                    &&& opened == Some(text)
                    &&& final(self).same_but_footer(*old(self))
                    &&& final(self).status@.len() == 0
                    &&& !final(self).busy
                    &&& !final(self).error
                    &&& final(self).translatable == (old(self).mode == Mode::Ocr)
                    &&& !final(self).translating
                },
            },
    {
        if self.closed {
            return None;
        }
        match update {
            Update::Result { text, status, busy, usable } => {
                self.text = text;
                self.status = status;
                self.error = false;
                self.busy = busy;
                self.ready = usable;
                self.translatable = self.mode == Mode::Ocr && usable && !self.translating;
                None
            },
            Update::Flash { message, busy, error } => {
                if self.translating && !busy {
                    self.translating = false;
                    self.translatable = self.mode == Mode::Ocr;
                }
                self.flash(message.as_str(), busy, error);
                None
            },
            Update::Translation(text) => {
                self.translating = false;
                self.translatable = self.mode == Mode::Ocr;
                self.flash("", false, false);
                proof {
                    reveal_strlit("");
                }
                Some(text)
            },
        }
    }

    /// The user asks for a translation. Gives the text to translate, unless one is on its way or
    /// there is no text.
    pub fn translate(&mut self) -> (source: Option<String>)
        ensures
            old(self).translating ==> source is None && *final(self) == *old(self),
            !old(self).translating && trim(old(self).text@).len() == 0 ==> {
                &&& source is None
                &&& final(self).same_but_footer(*old(self))
                &&& final(self).status@ == "没有文本可翻译"@
                &&& !final(self).busy
                &&& final(self).error
                &&& final(self).translatable == old(self).translatable
                &&& !final(self).translating
            },
            !old(self).translating && trim(old(self).text@).len() > 0 ==> {
                &&& view_of(source) == Some(old(self).text@)
                &&& final(self).same_but_footer(*old(self))
                &&& final(self).status@ == "翻译中…"@
                &&& final(self).busy
                &&& !final(self).error
                &&& !final(self).translatable
                &&& final(self).translating
            },
    {
        if self.translating {
            return None;
        }
        let bare = trimmed(self.text.as_str());
        if chars_of(bare.as_str()).len() == 0 {
            self.flash("没有文本可翻译", false, true);
            return None;
        }
        let source = owned(self.text.as_str());
        self.translating = true;
        self.translatable = false;
        self.flash("翻译中…", true, false);
        Some(source)
    }

    /// The user copied the text, or that failed.
    pub fn copied(&mut self, result: Result<(), String>)
        ensures
            final(self).same_but_footer(*old(self)),
            final(self).status@ == match result {
                Ok(_) => "已复制到剪贴板"@,
                Err(error) => "复制失败: "@ + error@,
            },
            final(self).error == result is Err,
            !final(self).busy,
            final(self).translatable == old(self).translatable,
            final(self).translating == old(self).translating,
    {
        match result {
            Ok(_) => self.flash("已复制到剪贴板", false, false),
            Err(error) => {
                let mut message = owned("复制失败: ");
                message.append(error.as_str());
                self.flash(message.as_str(), false, true);
            },
        }
    }
}

/// A window that was closed takes nothing any more.
pub proof fn a_closed_window_stays_as_it_is(
    w: &mut ResultState,
    v: &mut ResultState,
    update: Update,
    opened: Option<String>,
)
    requires
        call_ensures(ResultState::close, (w,), ()),
        *old(v) == *final(w),
        call_ensures(ResultState::apply, (v, update), opened),
    ensures
        final(w).closed,
        opened is None,
        *final(v) == *final(w),
{
}

/// A text is translated once at a time: until the answer comes another request does nothing. What is
/// sent is the text as it was edited, and the text stays.
pub proof fn a_translation_is_asked_for_once(
    w: &mut ResultState,
    text: String,
    v: &mut ResultState,
    source: Option<String>,
    u: &mut ResultState,
    again: Option<String>,
)
    requires
        !old(w).translating,
        trim(text@).len() > 0,
        call_ensures(ResultState::edit, (w, text), ()),
        *old(v) == *final(w),
        call_ensures(ResultState::translate, (v,), source),
        *old(u) == *final(v),
        call_ensures(ResultState::translate, (u,), again),
    ensures
        source is Some && (source->0)@ == text@,
        final(v).translating && final(v).busy && !final(v).translatable,
        final(v).text@ == text@,
        again is None,
        *final(u) == *final(v),
{
}

/// A translation that failed leaves the text, shows an error and can be asked for again. One that
/// came is opened, and the text stays too.
pub proof fn a_failed_translation_can_be_repeated(
    w: &mut ResultState,
    result: Result<String, String>,
    update: Update,
    opened: Option<String>,
)
    requires
        !old(w).closed,
        old(w).translating,
        old(w).mode is Ocr,
        call_ensures(translated_on_request, (result,), update),
        call_ensures(ResultState::apply, (w, update), opened),
    ensures
        final(w).text@ == old(w).text@,
        !final(w).translating && !final(w).busy && final(w).translatable,
        final(w).error <==> result is Err,
        result matches Ok(t) ==> opened is Some && (opened->0)@ == t@,
        result is Err ==> opened is None,
{
}

/// Blank text is not sent.
pub proof fn blank_text_is_not_translated(w: &mut ResultState, source: Option<String>)
    requires
        call_ensures(ResultState::translate, (w,), source),
        trim(old(w).text@).len() == 0,
    ensures
        source is None,
        !old(w).translating ==> final(w).error && !final(w).translating,
        final(w).text@ == old(w).text@,
{
}

/// A recognition without text, or without success, ends there; its text can be used otherwise, and is
/// translated if that was asked for. A translation that failed leaves the text that was recognised.
pub proof fn a_recognition_is_shown(
    result: Result<String, String>,
    translate: bool,
    r: Recognised,
    answer: Result<String, String>,
    source: String,
    u: Update,
)
    requires
        call_ensures(recognised, (result, translate), r),
        call_ensures(translated, (source, answer), u),
    ensures
        r is Translating <==> translate && (result matches Ok(t) && trim(t@).len() > 0),
        r matches Recognised::Translating(_, s) ==> s@ == (result->Ok_0)@,
        (r matches Recognised::Done(Update::Result { text, status, busy, usable }) && usable)
            <==> !translate && (result matches Ok(t) && trim(t@).len() > 0),
        r matches Recognised::Done(Update::Result { text, status, busy, usable }) ==> !busy && (
        usable ==> text@ == (result->Ok_0)@),
        u matches Update::Result { text, status, busy, usable } && !busy && usable && text@
            == match answer {
            Ok(t) => t@,
            Err(_) => source@,
        },
{
}

/// A copy changes nothing but what is said below the text, and says whether it failed.
pub proof fn copying_changes_only_the_footer(w: &mut ResultState, result: Result<(), String>)
    requires
        call_ensures(ResultState::copied, (w, result), ()),
    ensures
        final(w).text@ == old(w).text@,
        final(w).error <==> result is Err,
        !final(w).busy,
        final(w).translatable == old(w).translatable,
        final(w).translating == old(w).translating,
{
}

} // verus!
