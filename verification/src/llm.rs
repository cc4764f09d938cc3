//! Translation: when it is needed, which models are asked, and what comes of their answers.

use vstd::prelude::*;

use crate::api::{ApiError, TRANSLATION_TEMPERATURE, ChatRequest};
use crate::clean::{label_texts, strip_leading_label, unlabelled};
use crate::config::{ApiConfig, LlmConfig, valid_timeout};
use crate::json::Json;
use crate::message::{is_message, is_text, single_turn};
use crate::text::{chars_of, distinct, distinct_of, owned, same, trim, trimmed, views};

verus! {

/// Characters that only traditional Chinese uses.
pub const TRADITIONAL_MARKERS: &'static str = "後臺裡這個為與從會發現時過還讓開關點擊選擇網頁軟體資";

/// Why there is no translation.
#[derive(Debug)]
pub enum TranslateError {
    /// The request could not be made: no key or no model is configured.
    NotFound(String),
    Failed(String),
    /// The model refused. Another one may not.
    Upstream(String),
}

impl TranslateError {
    /// The message of the error.
    pub open spec fn message(self) -> Seq<char> {
        match self {
            TranslateError::NotFound(m) => m@,
            TranslateError::Failed(m) => m@,
            TranslateError::Upstream(m) => m@,
        }
    }

    /// The message of the error.
    pub fn to_string(&self) -> (s: String)
        ensures
            s@ == self.message(),
    {
        match self {
            TranslateError::NotFound(m) => m.clone(),
            TranslateError::Failed(m) => m.clone(),
            TranslateError::Upstream(m) => m.clone(),
        }
    }
}

/// How a translation came about.
#[derive(Debug, Clone, PartialEq, Eq)]
pub enum Transport {
    /// The text was in the target language already; no model was asked.
    AlreadyTarget,
    /// This model answered.
    Api { model: String },
}

impl Transport {
    /// One line that says how the translation came about.
    pub fn label(&self) -> (s: String)
        ensures
            s@ == match self {
                Transport::AlreadyTarget => "原文已是目标语言"@,
                Transport::Api { model } => "API · "@ + model@,
            },
    {
        match self {
            Transport::AlreadyTarget => owned("原文已是目标语言"),
            Transport::Api { model } => {
                let mut s = owned("API · ");
                s.append(model.as_str());
                s
            },
        }
    }
}

/// A translation and how it came about.
#[derive(Debug)]
pub struct Translation {
    pub text: String,
    pub transport: Transport,
}

/// The request to a model, in words.
pub open spec fn prompt_text(text: Seq<char>, target_lang: Seq<char>) -> Seq<char> {
    "翻译成"@ + target_lang + "，只输出译文，保留换行：\n"@ + text
}

/// The request to a model, in words. The text stands at its end as it is.
pub fn prompt(text: &str, target_lang: &str) -> (s: String)
    ensures
        s@ == prompt_text(text@, target_lang@),
{
    let mut s = owned("翻译成");
    s.append(target_lang);
    s.append("，只输出译文，保留换行：\n");
    s.append(text);
    assert(s@ =~= prompt_text(text@, target_lang@));
    s
}

/// The configured model and its fallbacks.
pub open spec fn configured_models(llm: LlmConfig) -> Seq<Seq<char>> {
    seq![llm.model@] + views(llm.fallback_models@)
}

/// The models to ask, in order: the configured one, then its fallbacks, each once and none blank.
pub fn model_candidates(llm: &LlmConfig) -> (out: Vec<String>)
    ensures
        views(out@) == distinct(configured_models(*llm)),
{
    let mut all: Vec<String> = Vec::new();
    all.push(llm.model.clone());
    let mut i: usize = 0;
    assert(views(all@) =~= seq![llm.model@] + views(llm.fallback_models@).take(0));
    while i < llm.fallback_models.len()
        invariant
            i <= llm.fallback_models@.len(),
            views(all@) == seq![llm.model@] + views(llm.fallback_models@).take(i as int),
        decreases llm.fallback_models.len() - i,
    {
        let ghost before = views(all@);
        all.push(llm.fallback_models[i].clone());
        proof {
            assert(views(all@) =~= before.push(llm.fallback_models@[i as int]@));
            assert(views(all@) =~= seq![llm.model@] + views(llm.fallback_models@).take(i + 1));
        }
        i = i + 1;
    }
    assert(views(all@) =~= configured_models(*llm));
    distinct_of(all.as_slice())
}

/// The configured model is asked first, and no model twice.
pub proof fn the_configured_model_comes_first(llm: LlmConfig)
    requires
        trim(llm.model@).len() > 0,
    ensures
        distinct(configured_models(llm)).len() > 0,
        distinct(configured_models(llm))[0] == trim(llm.model@),
        distinct(configured_models(llm)).no_duplicates(),
{
    crate::text::distinct_keeps_the_first(configured_models(llm));
    crate::text::distinct_pieces_differ(configured_models(llm));
}

/// Every fallback that is not blank is asked.
pub proof fn every_fallback_is_a_candidate(llm: LlmConfig, i: int)
    requires
        0 <= i < llm.fallback_models@.len(),
        trim(llm.fallback_models@[i]@).len() > 0,
    ensures
        distinct(configured_models(llm)).contains(trim(llm.fallback_models@[i]@)),
{
    let all = configured_models(llm);
    assert(all[i + 1] == llm.fallback_models@[i]@);
    crate::text::distinct_lists_every_piece(all, i + 1);
}

/// What a failed request means for a translation by `model`.
pub open spec fn is_mapped(err: ApiError, model: Seq<char>, e: TranslateError) -> bool {
    match err {
        ApiError::MissingKey => e matches TranslateError::NotFound(m) && m@ == err.message(),
        ApiError::Upstream(reason) => e matches TranslateError::Upstream(m) && m@ == "模型 "@ + model
            + " 被上游拒绝："@ + reason@,
        _ => e matches TranslateError::Failed(m) && m@ == err.message(),
    }
}

/// What a failed request means for a translation. A refusal names the model.
pub fn map_api_error(err: ApiError, model: &str) -> (e: TranslateError)
    ensures
        is_mapped(err, model@, e),
{
    let message = err.to_string();
    match err {
        ApiError::MissingKey => TranslateError::NotFound(message),
        ApiError::Upstream(reason) => {
            let mut m = owned("模型 ");
            m.append(model);
            m.append(" 被上游拒绝：");
            m.append(reason.as_str());
            assert(m@ =~= "模型 "@ + model@ + " 被上游拒绝："@ + reason@);
            TranslateError::Upstream(m)
        },
        _ => TranslateError::Failed(message),
    }
}

/// What `char::is_alphabetic` says of a character: that it is a letter by its Unicode properties.
pub uninterp spec fn alphabetic(c: char) -> bool;

/// Calls `char::is_alphabetic`. Its result is named, not described: the tables of letters fill
/// pages.
#[verifier::external_body]
fn is_alphabetic(c: char) -> (r: bool)
    ensures
        r == alphabetic(c),
{
    c.is_alphabetic()
}

/// What `str::to_lowercase` makes of a text.
pub uninterp spec fn lowercase(s: Seq<char>) -> Seq<char>;

/// Calls `str::to_lowercase`. Its result is named, not described: the tables of case fill pages.
#[verifier::external_body]
pub(crate) fn to_lowercase(s: &str) -> (r: String)
    ensures
        r@ == lowercase(s@),
{
    s.to_lowercase()
}

/// Chinese characters.
pub open spec fn is_han(c: char) -> bool {
    '\u{3400}' <= c <= '\u{9fff}'
}

/// Japanese kana and Korean hangul.
pub open spec fn is_kana_or_hangul(c: char) -> bool {
    '\u{3040}' <= c <= '\u{30ff}' || '\u{ac00}' <= c <= '\u{d7af}'
}

/// Letters of the English alphabet.
pub open spec fn is_ascii_letter(c: char) -> bool {
    'A' <= c <= 'Z' || 'a' <= c <= 'z'
}

/// How many characters of a text are of each script.
pub struct Scripts {
    pub han: int,
    pub kana_or_hangul: int,
    pub letters: int,
    pub ascii_letters: int,
}

pub open spec fn scripts(s: Seq<char>) -> Scripts
    decreases s.len(),
{
    if s.len() == 0 {
        Scripts { han: 0, kana_or_hangul: 0, letters: 0, ascii_letters: 0 }
    } else {
        let t = scripts(s.drop_last());
        let c = s.last();
        Scripts {
            han: t.han + if is_han(c) {
                1int
            } else {
                0
            },
            kana_or_hangul: t.kana_or_hangul + if is_kana_or_hangul(c) {
                1int
            } else {
                0
            },
            letters: t.letters + if alphabetic(c) {
                1int
            } else {
                0
            },
            ascii_letters: t.ascii_letters + if is_ascii_letter(c) {
                1int
            } else {
                0
            },
        }
    }
}

/// A text in simplified Chinese: no character that only traditional Chinese uses, no kana or
/// hangul, and at least two Chinese characters that make up 45 percent of the letters.
pub open spec fn reads_as_chinese(s: Seq<char>) -> bool {
    let t = scripts(s);
    &&& forall|i: int| 0 <= i < s.len() ==> !TRADITIONAL_MARKERS@.contains(#[trigger] s[i])
    &&& t.han >= 2
    &&& t.kana_or_hangul == 0
    &&& 20 * t.han >= 9 * t.letters
}

/// A text in English: no Chinese characters, and at least two English letters that make up 80
/// percent of the letters.
pub open spec fn reads_as_english(s: Seq<char>) -> bool {
    let t = scripts(s);
    &&& t.ascii_letters >= 2
    &&& t.han == 0
    &&& 5 * t.ascii_letters >= 4 * t.letters
}

/// The names of simplified Chinese.
pub open spec fn names_chinese(target: Seq<char>) -> bool {
    ||| target == "简体中文"@
    ||| target == "简体"@
    ||| target == "中文"@
    ||| target == "zh-cn"@
    ||| target == "zh-hans"@
}

/// The names of English.
pub open spec fn names_english(target: Seq<char>) -> bool {
    ||| target == "english"@
    ||| target == "英文"@
    ||| target == "英语"@
    ||| target == "en"@
    ||| target == "en-us"@
    ||| target == "en-gb"@
}

/// Whether a text reads as the language with the given name. Languages whose script says nothing
/// never match.
pub open spec fn reads_as(s: Seq<char>, target: Seq<char>) -> bool {
    if names_chinese(target) {
        reads_as_chinese(s)
    } else if names_english(target) {
        reads_as_english(s)
    } else {
        false
    }
}

/// A text with hyphens in place of underscores.
pub open spec fn hyphenated(s: Seq<char>) -> Seq<char> {
    s.map_values(
        |c: char|
            if c == '_' {
                '-'
            } else {
                c
            },
    )
}

/// The name of a language in the form in which it is compared.
pub open spec fn language_name(target_lang: Seq<char>) -> Seq<char> {
    hyphenated(lowercase(trim(target_lang)))
}

fn contains(v: &[char], c: char) -> (r: bool)
    ensures
        r == v@.contains(c),
{
    let mut i: usize = 0;
    while i < v.len()
        invariant
            i <= v@.len(),
            forall|k: int| 0 <= k < i ==> v@[k] != c,
        decreases v.len() - i,
    {
        if v[i] == c {
            return true;
        }
        i = i + 1;
    }
    false
}

/// Whether a text reads as the language with the given name.
pub fn reads_as_language(text: &str, target: &str) -> (r: bool)
    ensures
        r == reads_as(text@, target@),
{
    let chinese: bool = same(target, "简体中文") || same(
        target,
        "简体",
    ) || same(target, "中文") || same(target, "zh-cn")
        || same(target, "zh-hans");
    let english: bool = same(target, "english") || same(target, "英文")
        || same(target, "英语") || same(target, "en")
        || same(target, "en-us") || same(target, "en-gb");
    if !chinese && !english {
        return false;
    }
    let v = chars_of(text);
    let markers = chars_of(TRADITIONAL_MARKERS);
    let mut han: usize = 0;
    let mut foreign: usize = 0;
    let mut letters: usize = 0;
    let mut ascii: usize = 0;
    let mut marked: bool = false;
    let mut i: usize = 0;
    while i < v.len()
        invariant
            v@ == text@,
            markers@ == TRADITIONAL_MARKERS@,
            i <= v@.len(),
            han == scripts(v@.take(i as int)).han,
            foreign == scripts(v@.take(i as int)).kana_or_hangul,
            letters == scripts(v@.take(i as int)).letters,
            ascii == scripts(v@.take(i as int)).ascii_letters,
            han <= i,
            foreign <= i,
            letters <= i,
            ascii <= i,
            marked == exists|k: int|
                0 <= k < i && TRADITIONAL_MARKERS@.contains(#[trigger] v@[k]),
        decreases v.len() - i,
    {
        assert(v@.take(i + 1).drop_last() =~= v@.take(i as int));
        let c: char = v[i];
        if c >= '\u{3400}' && c <= '\u{9fff}' {
            han = han + 1;
        }
        if (c >= '\u{3040}' && c <= '\u{30ff}') || (c >= '\u{ac00}' && c <= '\u{d7af}') {
            foreign = foreign + 1;
        }
        if is_alphabetic(c) {
            letters = letters + 1;
        }
        if (c >= 'A' && c <= 'Z') || (c >= 'a' && c <= 'z') {
            ascii = ascii + 1;
        }
        if contains(markers.as_slice(), c) {
            assert(TRADITIONAL_MARKERS@.contains(v@[i as int]));
            marked = true;
        }
        i = i + 1;
    }
    assert(v@.take(v@.len() as int) =~= v@);
    if chinese {
        !marked && han >= 2 && foreign == 0 && 20 * han as u128 >= 9 * letters as u128
    } else {
        ascii >= 2 && han == 0 && 5 * ascii as u128 >= 4 * letters as u128
    }
}

/// Whether a text is in the target language already. A miss costs one more translation; a false
/// hit would hand back text that was not translated.
pub fn already_target_language(text: &str, target_lang: &str) -> (r: bool)
    ensures
        r == reads_as(text@, language_name(target_lang@)),
{
    let target = trimmed(target_lang);
    let lower = to_lowercase(target.as_str());
    let chars = chars_of(lower.as_str());
    let mut name = String::new();
    let mut i: usize = 0;
    while i < chars.len()
        invariant
            chars@ == lowercase(trim(target_lang@)),
            i <= chars@.len(),
            name@ == hyphenated(chars@.take(i as int)),
        decreases chars.len() - i,
    {
        let c: char = chars[i];
        name.push(
            if c == '_' {
                '-'
            } else {
                c
            },
        );
        assert(name@ =~= hyphenated(chars@.take(i + 1)));
        i = i + 1;
    }
    assert(chars@.take(chars@.len() as int) =~= chars@);
    reads_as_language(text, name.as_str())
}

/// How a translation begins.
pub enum Opening {
    /// No model has to be asked.
    Done(Translation),
    /// These models are to be asked in turn, with this request.
    Ask { models: Vec<String>, request: String },
    /// No model can be asked.
    Refused(TranslateError),
}

/// Decides how to translate a text whose language is known: `in_target` says whether it is in the
/// target language already. Blank text becomes empty, and text in the target language stays as it
/// is.
pub fn open_with(text: &str, llm: &LlmConfig, in_target: bool) -> (r: Opening)
    ensures
        match r {
            Opening::Done(t) => t.transport is AlreadyTarget && if trim(text@).len() == 0 {
                t.text@.len() == 0
            } else {
                in_target && t.text@ == text@
            },
            Opening::Ask { models, request } => trim(text@).len() > 0 && !in_target && views(
                models@,
            ) == distinct(configured_models(*llm)) && models@.len() > 0 && request@ == prompt_text(
                trim(text@),
                llm.target_lang@,
            ),
            Opening::Refused(e) => trim(text@).len() > 0 && !in_target && distinct(
                configured_models(*llm),
            ).len() == 0 && (e matches TranslateError::NotFound(m) && m@
                == "未配置翻译模型：请在设置面板填写 [llm].model"@),
        },
{
    let body = trimmed(text);
    if chars_of(body.as_str()).len() == 0 {
        return Opening::Done(
            Translation { text: String::new(), transport: Transport::AlreadyTarget },
        );
    }
    if in_target {
        return Opening::Done(Translation { text: owned(text), transport: Transport::AlreadyTarget });
    }
    let models = model_candidates(llm);
    if models.len() == 0 {
        assert(views(models@).len() == 0);
        return Opening::Refused(
            TranslateError::NotFound(
                owned("未配置翻译模型：请在设置面板填写 [llm].model"),
            ),
        );
    }
    assert(views(models@).len() > 0);
    let request = prompt(body.as_str(), llm.target_lang.as_str());
    Opening::Ask { models, request }
}

/// Decides how to translate a text.
pub fn open(text: &str, llm: &LlmConfig) -> (r: Opening)
    ensures
        match r {
            Opening::Done(t) => t.transport is AlreadyTarget && if trim(text@).len() == 0 {
                t.text@.len() == 0
            } else {
                reads_as(trim(text@), language_name(llm.target_lang@)) && t.text@ == text@
            },
            Opening::Ask { models, request } => trim(text@).len() > 0 && !reads_as(
                trim(text@),
                language_name(llm.target_lang@),
            ) && views(models@) == distinct(configured_models(*llm)) && models@.len() > 0
                && request@ == prompt_text(trim(text@), llm.target_lang@),
            Opening::Refused(e) => trim(text@).len() > 0 && !reads_as(
                trim(text@),
                language_name(llm.target_lang@),
            ) && distinct(configured_models(*llm)).len() == 0 && (
            e matches TranslateError::NotFound(m) && m@
                == "未配置翻译模型：请在设置面板填写 [llm].model"@),
        },
{
    let body = trimmed(text);
    let in_target: bool = already_target_language(body.as_str(), llm.target_lang.as_str());
    open_with(text, llm, in_target)
}

/// The request to one model. Each model is given the configured time.
pub fn request_to(model: &str, request: &str, api: &ApiConfig) -> (r: ChatRequest)
    ensures
        r.model@ == model@,
        r.messages matches Json::Array(messages) && messages@.len() == 1 && is_message(
            messages@[0],
            "user"@,
            |c: Json| is_text(c, request@),
        ),
        r.temperature_tenths == TRANSLATION_TEMPERATURE,
        r.timeout_s == if api.timeout_s == 0 {
            1
        } else {
            api.timeout_s
        },
{
    ChatRequest {
        model: owned(model),
        messages: single_turn(request),
        temperature_tenths: TRANSLATION_TEMPERATURE,
        timeout_s: valid_timeout(api.timeout_s),
    }
}

/// Labels that a model puts in front of a translation.
pub open spec fn translation_labels() -> Seq<Seq<char>> {
    seq!["译文："@, "Translation:"@]
}

fn label_list() -> (labels: Vec<&'static str>)
    ensures
        label_texts(labels@) == translation_labels(),
{
    let labels: Vec<&'static str> = vec!["译文：", "Translation:"];
    assert(label_texts(labels@) =~= translation_labels());
    labels
}

/// What follows from the answer of a model.
pub enum Step {
    /// The translation is over.
    Finished(Result<Translation, TranslateError>),
    /// The model refused; the next one may not.
    Next,
}

/// The models asked so far, as far as it matters: the first refusal.
pub struct Inquiry {
    pub first_refusal: Option<TranslateError>,
}

impl Inquiry {
    /// Nothing has been asked yet.
    pub fn new() -> (q: Inquiry)
        ensures
            q.first_refusal is None,
    {
        Inquiry { first_refusal: None }
    }

    /// Takes the answer of a model. Text ends the translation, without the label that a model may
    /// have put in front of it. A refusal leads to the next model, and the first one is kept. Any
    /// other failure would meet every model alike and ends it.
    pub fn answer(&mut self, model: &str, result: Result<String, ApiError>) -> (step: Step)
        ensures
            match result {
                Ok(text) => (step matches Step::Finished(Ok(t)) && t.text@ == unlabelled(
                    trim(text@),
                    translation_labels(),
                ) && (t.transport matches Transport::Api { model: m } && m@ == model@))
                    && final(self).first_refusal == old(self).first_refusal,
                Err(ApiError::Upstream(reason)) => step is Next && if old(
                    self,
                ).first_refusal is Some {
                    final(self).first_refusal == old(self).first_refusal
                } else {
                    final(self).first_refusal is Some && is_mapped(
                        ApiError::Upstream(reason),
                        model@,
                        final(self).first_refusal->0,
                    )
                },
                Err(err) => (step matches Step::Finished(Err(e)) && is_mapped(err, model@, e))
                    && final(self).first_refusal == old(self).first_refusal,
            },
    {
        match result {
            Ok(answer) => {
                let text = strip_leading_label(answer.as_str(), label_list().as_slice());
                Step::Finished(
                    Ok(Translation { text, transport: Transport::Api { model: owned(model) } }),
                )
            },
            Err(err) => {
                let e = map_api_error(err, model);
                match e {
                    TranslateError::Upstream(m) => {
                        if self.first_refusal.is_none() {
                            self.first_refusal = Some(TranslateError::Upstream(m));
                        }
                        Step::Next
                    },
                    TranslateError::NotFound(m) => Step::Finished(Err(TranslateError::NotFound(m))),
                    TranslateError::Failed(m) => Step::Finished(Err(TranslateError::Failed(m))),
                }
            },
        }
    }

    /// All models have refused: the first refusal is reported, because it names the model that was
    /// configured.
    pub fn exhausted(self) -> (e: TranslateError)
        ensures
            match self.first_refusal {
                Some(first) => e == first,
                None => e matches TranslateError::NotFound(m) && m@
                    == "没有可用的翻译模型，请检查 [llm].model"@,
            },
    {
        match self.first_refusal {
            Some(first) => first,
            None => TranslateError::NotFound(
                owned("没有可用的翻译模型，请检查 [llm].model"),
            ),
        }
    }
}

proof fn scripts_are_counts(s: Seq<char>)
    ensures
        scripts(s).han == s.filter(|c: char| '\u{3400}' <= c <= '\u{9fff}').len(),
        scripts(s).kana_or_hangul == s.filter(
            |c: char| '\u{3040}' <= c <= '\u{30ff}' || '\u{ac00}' <= c <= '\u{d7af}',
        ).len(),
        scripts(s).letters == s.filter(|c: char| alphabetic(c)).len(),
        scripts(s).ascii_letters == s.filter(
            |c: char| 'A' <= c <= 'Z' || 'a' <= c <= 'z',
        ).len(),
    decreases s.len(),
{
    reveal(Seq::filter);
    if s.len() > 0 {
        scripts_are_counts(s.drop_last());
    }
}

proof fn a_match_is_counted(s: Seq<char>, f: spec_fn(char) -> bool)
    ensures
        s.filter(f).len() == 0 <==> forall|i: int| 0 <= i < s.len() ==> !#[trigger] f(s[i]),
        s.filter(f).len() <= s.len(),
        s.filter(f).len() == s.len() <==> forall|i: int| 0 <= i < s.len() ==> #[trigger] f(s[i]),
    decreases s.len(),
{
    reveal(Seq::filter);
    if s.len() > 0 {
        let t = s.drop_last();
        a_match_is_counted(t, f);
        assert(forall|i: int| 0 <= i < t.len() ==> t[i] == s[i]);
        if forall|i: int| 0 <= i < s.len() ==> !#[trigger] f(s[i]) {
            assert forall|i: int| 0 <= i < t.len() implies !#[trigger] f(t[i]) by {
                assert(t[i] == s[i] && !f(s[i]));
            }
        }
        if forall|i: int| 0 <= i < t.len() ==> !#[trigger] f(t[i]) {
            assert forall|i: int| 0 <= i < t.len() implies !#[trigger] f(s[i]) by {
                assert(t[i] == s[i] && !f(t[i]));
            }
        }
        if forall|i: int| 0 <= i < s.len() ==> #[trigger] f(s[i]) {
            assert forall|i: int| 0 <= i < t.len() implies #[trigger] f(t[i]) by {
                assert(t[i] == s[i] && f(s[i]));
            }
        }
        if forall|i: int| 0 <= i < t.len() ==> #[trigger] f(t[i]) {
            assert forall|i: int| 0 <= i < t.len() implies #[trigger] f(s[i]) by {
                assert(t[i] == s[i] && f(t[i]));
            }
        }
        assert(s[s.len() - 1] == s.last());
    }
}

/// A text reads as simplified Chinese only if it holds at least two Han characters, no kana, no
/// hangul and no character that only traditional Chinese uses, and if at least nine in twenty of its
/// letters are Han. Every such text does, and so a text of at least two Han characters alone does
/// unless one of them is traditional.
pub proof fn a_text_reads_as_chinese_by_its_characters(text: &str, target: &str, r: bool)
    requires
        call_ensures(reads_as_language, (text, target), r),
        target@ == "简体中文"@ || target@ == "简体"@ || target@ == "中文"@ || target@ == "zh-cn"@
            || target@ == "zh-hans"@,
    ensures
        (exists|i: int|
            0 <= i < text@.len() && ('\u{3040}' <= #[trigger] text@[i] <= '\u{30ff}' || '\u{ac00}'
                <= text@[i] <= '\u{d7af}')) ==> !r,
        (exists|i: int|
            0 <= i < text@.len() && "後臺裡這個為與從會發現時過還讓開關點擊選擇網頁軟體資"@.contains(
                #[trigger] text@[i],
            )) ==> !r,
        ({
            let han = text@.filter(|c: char| '\u{3400}' <= c <= '\u{9fff}').len();
            let letters = text@.filter(|c: char| alphabetic(c)).len();
            &&& han < 2 ==> !r
            &&& 20 * han < 9 * letters ==> !r
            &&& han >= 2 && 20 * han >= 9 * letters && (forall|i: int|
                0 <= i < text@.len() ==> !('\u{3040}' <= #[trigger] text@[i] <= '\u{30ff}'
                    || '\u{ac00}' <= text@[i] <= '\u{d7af}')) && (forall|i: int|
                0 <= i < text@.len()
                    ==> !"後臺裡這個為與從會發現時過還讓開關點擊選擇網頁軟體資"@.contains(
                    #[trigger] text@[i],
                )) ==> r
        }),
        text@.len() >= 2 && (forall|i: int|
            0 <= i < text@.len() ==> '\u{3400}' <= #[trigger] text@[i] <= '\u{9fff}'
                && !"後臺裡這個為與從會發現時過還讓開關點擊選擇網頁軟體資"@.contains(text@[i])) ==> r,
{
    let s = text@;
    scripts_are_counts(s);
    let han = |c: char| '\u{3400}' <= c <= '\u{9fff}';
    let other = |c: char| '\u{3040}' <= c <= '\u{30ff}' || '\u{ac00}' <= c <= '\u{d7af}';
    let letter = |c: char| alphabetic(c);
    a_match_is_counted(s, han);
    a_match_is_counted(s, other);
    a_match_is_counted(s, letter);
    if exists|i: int|
        0 <= i < s.len() && ('\u{3040}' <= #[trigger] s[i] <= '\u{30ff}' || '\u{ac00}' <= s[i]
            <= '\u{d7af}') {
        let i = choose|i: int|
            0 <= i < s.len() && ('\u{3040}' <= #[trigger] s[i] <= '\u{30ff}' || '\u{ac00}' <= s[i]
                <= '\u{d7af}');
        assert(other(s[i]));
    } else {
        assert forall|i: int| 0 <= i < s.len() implies !#[trigger] other(s[i]) by {}
    }
    if forall|i: int| 0 <= i < s.len() ==> '\u{3400}' <= #[trigger] s[i] <= '\u{9fff}' {
        assert forall|i: int| 0 <= i < s.len() implies #[trigger] han(s[i]) && !other(s[i]) by {}
    }
}

/// A text reads as English only if it holds at least two ASCII letters and no Han character, and if
/// at least four in five of its letters are ASCII. Every such text does.
pub proof fn a_text_reads_as_english_by_its_characters(text: &str, target: &str, r: bool)
    requires
        call_ensures(reads_as_language, (text, target), r),
        target@ == "english"@ || target@ == "英文"@ || target@ == "英语"@ || target@ == "en"@
            || target@ == "en-us"@ || target@ == "en-gb"@,
    ensures
        (exists|i: int|
            0 <= i < text@.len() && '\u{3400}' <= #[trigger] text@[i] <= '\u{9fff}') ==> !r,
        ({
            let ascii = text@.filter(|c: char| 'A' <= c <= 'Z' || 'a' <= c <= 'z').len();
            let letters = text@.filter(|c: char| alphabetic(c)).len();
            &&& ascii < 2 ==> !r
            &&& 5 * ascii < 4 * letters ==> !r
            &&& ascii >= 2 && 5 * ascii >= 4 * letters && (forall|i: int|
                0 <= i < text@.len() ==> !('\u{3400}' <= #[trigger] text@[i] <= '\u{9fff}')) ==> r
        }),
        text@.len() >= 2 && (forall|i: int|
            0 <= i < text@.len() ==> ('A' <= #[trigger] text@[i] <= 'Z' || 'a' <= text@[i]
                <= 'z')) ==> r,
{
    reveal_strlit("简体中文");
    reveal_strlit("简体");
    reveal_strlit("中文");
    reveal_strlit("zh-cn");
    reveal_strlit("zh-hans");
    reveal_strlit("english");
    reveal_strlit("英文");
    reveal_strlit("英语");
    reveal_strlit("en");
    reveal_strlit("en-us");
    reveal_strlit("en-gb");
    assert(!names_chinese(target@)) by {
        assert(target@[0] != '简');
        assert(target@[0] != '中');
        assert(target@[0] != 'z');
    }
    let s = text@;
    scripts_are_counts(s);
    let han = |c: char| '\u{3400}' <= c <= '\u{9fff}';
    let ascii = |c: char| 'A' <= c <= 'Z' || 'a' <= c <= 'z';
    let letter = |c: char| alphabetic(c);
    a_match_is_counted(s, han);
    a_match_is_counted(s, ascii);
    a_match_is_counted(s, letter);
    if exists|i: int| 0 <= i < s.len() && '\u{3400}' <= #[trigger] s[i] <= '\u{9fff}' {
        let i = choose|i: int| 0 <= i < s.len() && '\u{3400}' <= #[trigger] s[i] <= '\u{9fff}';
        assert(han(s[i]));
    } else {
        assert forall|i: int| 0 <= i < s.len() implies !#[trigger] han(s[i]) by {}
    }
    if forall|i: int|
        0 <= i < s.len() ==> ('A' <= #[trigger] s[i] <= 'Z' || 'a' <= s[i] <= 'z') {
        assert forall|i: int| 0 <= i < s.len() implies #[trigger] ascii(s[i]) && !han(s[i]) by {}
    }
}

/// No text is taken to be in a language other than simplified Chinese and English.
pub proof fn other_languages_are_always_translated(text: &str, target: &str, r: bool)
    requires
        call_ensures(reads_as_language, (text, target), r),
        !(target@ == "简体中文"@ || target@ == "简体"@ || target@ == "中文"@ || target@ == "zh-cn"@
            || target@ == "zh-hans"@),
        !(target@ == "english"@ || target@ == "英文"@ || target@ == "英语"@ || target@ == "en"@
            || target@ == "en-us"@ || target@ == "en-gb"@),
    ensures
        !r,
{
}

/// The name of a language is taken without white space around it, in lower case and with hyphens for
/// underscores.
pub proof fn names_of_languages_are_normal(
    text: &str,
    target_lang: &str,
    name: &str,
    r: bool,
    s: bool,
)
    requires
        call_ensures(already_target_language, (text, target_lang), r),
        call_ensures(reads_as_language, (text, name), s),
        name@.len() == lowercase(trim(target_lang@)).len(),
        forall|i: int|
            0 <= i < name@.len() ==> #[trigger] name@[i] == if lowercase(trim(target_lang@))[i]
                == '_' {
                '-'
            } else {
                lowercase(trim(target_lang@))[i]
            },
    ensures
        r == s,
{
    assert(name@ =~= language_name(target_lang@));
}

/// A model is asked for the text that is not blank and is not in the target language already, and for
/// no other one. What it is asked ends with the text and names the language.
pub proof fn only_foreign_text_is_sent(
    text: &str,
    llm: &LlmConfig,
    o: Opening,
    plain: &str,
    target: &str,
    already: bool,
)
    requires
        call_ensures(open, (text, llm), o),
        call_ensures(already_target_language, (plain, target), already),
        plain@ == trim(text@),
        target@ == llm.target_lang@,
    ensures
        o is Done <==> plain@.len() == 0 || already,
        plain@.len() == 0 ==> (o matches Opening::Done(t) && t.text@.len() == 0),
        plain@.len() > 0 && already ==> (o matches Opening::Done(t) && t.text@ == text@),
        o matches Opening::Done(t) ==> t.transport is AlreadyTarget,
        o matches Opening::Refused(e) ==> e is NotFound,
        o matches Opening::Ask { models, request } ==> {
            &&& models@.len() > 0
            &&& request@.len() >= plain@.len() + target@.len() + 3
            &&& request@.skip(request@.len() - plain@.len()) == plain@
            &&& request@.subrange(3, 3int + target@.len()) == target@
        },
{
    reveal_strlit("翻译成");
    reveal_strlit("，只输出译文，保留换行：\n");
    if let Opening::Ask { models, request } = o {
        assert(request@.skip(request@.len() - plain@.len()) =~= plain@);
        assert(request@.subrange(3, 3int + target@.len()) =~= target@);
    }
}

/// A request holds the text and the name of the language as they are.
pub proof fn a_prompt_holds_the_text(text: &str, target_lang: &str, s: String)
    requires
        call_ensures(prompt, (text, target_lang), s),
    ensures
        s@.len() >= text@.len() + target_lang@.len(),
        s@.skip(s@.len() - text@.len()) == text@,
        s@.subrange(3, 3int + target_lang@.len()) == target_lang@,
{
    reveal_strlit("翻译成");
    reveal_strlit("，只输出译文，保留换行：\n");
    assert(s@.skip(s@.len() - text@.len()) =~= text@);
    assert(s@.subrange(3, 3int + target_lang@.len()) =~= target_lang@);
}

/// Only a refusal lets the next model be asked. Any other outcome ends the translation: an answer
/// with its text, and any other error with an error.
pub proof fn only_a_refusal_is_tried_again(
    q: &mut Inquiry,
    model: &str,
    result: Result<String, ApiError>,
    step: Step,
)
    requires
        call_ensures(Inquiry::answer, (q, model, result), step),
    ensures
        step is Next <==> (result matches Err(e) && e is Upstream),
        step matches Step::Finished(r) ==> r is Ok == result is Ok,
        step matches Step::Finished(Ok(t)) ==> (t.transport matches Transport::Api { model: m }
            && m@ == model@),
        old(q).first_refusal is Some ==> final(q).first_refusal == old(q).first_refusal,
        step is Next ==> final(q).first_refusal is Some,
        step !is Next ==> final(q).first_refusal == old(q).first_refusal,
{
}

/// When every model has refused, the first refusal is what is reported.
pub proof fn the_first_refusal_is_reported(
    q: &mut Inquiry,
    model: &str,
    result: Result<String, ApiError>,
    step: Step,
    other: &mut Inquiry,
    other_model: &str,
    other_result: Result<String, ApiError>,
    other_step: Step,
    e: TranslateError,
)
    requires
        old(q).first_refusal is None,
        call_ensures(Inquiry::answer, (q, model, result), step),
        step is Next,
        *old(other) == *final(q),
        call_ensures(Inquiry::answer, (other, other_model, other_result), other_step),
        call_ensures(Inquiry::exhausted, (*final(other),), e),
    ensures
        final(q).first_refusal == Some(e),
        e is Upstream,
{
}

/// Each kind of error keeps its kind: a missing key is a matter of the configuration, a refusal is
/// one of the model that is named in it, and everything else has failed.
pub proof fn errors_keep_their_kind(err: ApiError, model: &str, e: TranslateError)
    requires
        call_ensures(map_api_error, (err, model), e),
    ensures
        e is NotFound <==> err is MissingKey,
        e is Upstream <==> err is Upstream,
        e is Failed <==> err !is MissingKey && err !is Upstream,
        (err matches ApiError::Upstream(reason) ==> {
            &&& e.message().len() >= reason@.len() + model@.len() + 3
            &&& e.message().skip(e.message().len() - reason@.len()) == reason@
            &&& e.message().subrange(3, 3int + model@.len()) == model@
        }),
{
    reveal_strlit("模型 ");
    reveal_strlit(" 被上游拒绝：");
    if let ApiError::Upstream(reason) = err {
        assert(e.message().skip(e.message().len() - reason@.len()) =~= reason@);
        assert(e.message().subrange(3, 3int + model@.len()) =~= model@);
    }
}

/// The models are asked in the order of the configuration, the configured one first, each once and
/// none without a name. Every fallback with a name is among them.
pub proof fn models_are_asked_in_turn(llm: &LlmConfig, out: Vec<String>, i: int)
    requires
        call_ensures(model_candidates, (llm,), out),
        0 <= i < llm.fallback_models@.len(),
    ensures
        views(out@).no_duplicates(),
        forall|k: int| 0 <= k < out@.len() ==> (#[trigger] out@[k])@.len() > 0,
        trim(llm.model@).len() > 0 ==> out@.len() > 0 && out@[0]@ == trim(llm.model@),
        trim(llm.fallback_models@[i]@).len() > 0 ==> views(out@).contains(
            trim(llm.fallback_models@[i]@),
        ),
{
    let o = views(out@);
    assert(o.len() == out@.len());
    crate::text::distinct_pieces_differ(configured_models(*llm));
    assert forall|k: int| 0 <= k < out@.len() implies (#[trigger] out@[k])@.len() > 0 by {
        assert(o[k] == out@[k]@);
    }
    if trim(llm.model@).len() > 0 {
        the_configured_model_comes_first(*llm);
        assert(o[0] == out@[0]@);
    }
    if trim(llm.fallback_models@[i]@).len() > 0 {
        every_fallback_is_a_candidate(*llm, i);
    }
}

/// A request goes to the model that it names, holds the text once, as what the user says, and has a
/// time limit.
pub proof fn a_request_asks_its_model(model: &str, request: &str, api: &ApiConfig, r: ChatRequest)
    requires
        call_ensures(request_to, (model, request, api), r),
    ensures
        r.model@ == model@,
        r.timeout_s >= 1 && (api.timeout_s >= 1 ==> r.timeout_s == api.timeout_s),
        r.messages matches Json::Array(messages) && messages@.len() == 1 && (
        messages@[0] matches Json::Object(entries) && entries@.len() == 2 && entries@[0].0@
            == "role"@ && (entries@[0].1 matches Json::Text(role) && role@ == "user"@)
            && entries@[1].0@ == "content"@ && (entries@[1].1 matches Json::Text(said) && said@
            == request@)),
{
}

/// What the model said is given without white space around it and without a label before it, and is
/// not emptied by that.
pub proof fn an_answer_is_given_without_its_label(
    q: &mut Inquiry,
    model: &str,
    text: String,
    step: Step,
)
    requires
        call_ensures(Inquiry::answer, (q, model, Ok::<String, ApiError>(text)), step),
        trim(text@).len() > 0,
    ensures
        step matches Step::Finished(Ok(t)) && t.text@.len() > 0,
        !"译文："@.is_prefix_of(trim(text@)) && !"Translation:"@.is_prefix_of(trim(text@)) ==> (
        step matches Step::Finished(Ok(t)) && t.text@ == trim(text@)),
{
    let labels = translation_labels();
    crate::clean::stripping_keeps_something(text@, labels);
    if !"译文："@.is_prefix_of(trim(text@)) && !"Translation:"@.is_prefix_of(trim(text@)) {
        assert(labels[0] == "译文："@ && labels[1] == "Translation:"@);
        crate::clean::unlabelled_text_is_untouched(trim(text@), labels);
    }
}

} // verus!
