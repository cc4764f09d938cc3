//! The settings panel: its form, and what it says about the connection and the models.

use vstd::prelude::*;

use crate::config::{
    ApiConfig, Config, Defaults, LlmConfig, LongshotConfig, OCR_ENGINE_API, OCR_ENGINE_BUILTIN,
    OcrConfig, Preferences, valid_timeout,
};
use crate::text::{
    chars_of, decimal, decimal_of, distinct, distinct_of, find_from, find_from_bounds, holds,
    join, join_with, owned, same, split, split_at, split_from, trim, trim_start, trimmed, views,
};

verus! {

/// How a message reads.
#[derive(Debug, Clone, Copy, PartialEq, Eq, Structural)]
pub enum Flash {
    Info,
    Success,
    Error,
}

impl Flash {
    /// The style of a message. Progress has none: its outcome is not known yet.
    pub fn class(self) -> (r: Option<&'static str>)
        ensures
            match self {
                Flash::Info => r is None,
                Flash::Success => r is Some && (r->0)@ == "vellum-success"@,
                Flash::Error => r is Some && (r->0)@ == "vellum-error"@,
            },
    {
        match self {
            Flash::Info => None,
            Flash::Success => Some("vellum-success"),
            Flash::Error => Some("vellum-error"),
        }
    }
}

/// What stands in the form. The enlargement is in thousandths, and missing if it is not a finite
/// number.
pub struct FormValues {
    pub base_url: String,
    pub api_key: String,
    pub api_key_env: String,
    pub timeout_s: u64,
    pub proxy: String,
    pub model: String,
    pub target_lang: String,
    pub fallback_models: String,
    pub glossary: String,
    pub engine: String,
    pub langs: String,
    pub preprocess: bool,
    pub upscale: Option<u32>,
    pub api_model: String,
    pub api_timeout_s: u64,
    pub save_after_capture: bool,
    pub copy_after_capture: bool,
}

/// The characters that part the entries of a list.
pub open spec fn is_separator(c: char) -> bool {
    c == ',' || c == '，' || c == ';' || c == '；' || c == '\n' || c == '\r' || c == '\t'
}

/// A text with a comma for every character that parts entries.
pub open spec fn unified(s: Seq<char>) -> Seq<char> {
    s.map_values(
        |c: char|
            if is_separator(c) {
                ','
            } else {
                c
            },
    )
}

/// The entries of a list: without white space around them, none empty, each once.
pub open spec fn entries(s: Seq<char>) -> Seq<Seq<char>> {
    distinct(split(unified(s), ','))
}

/// Takes a list apart.
pub fn split_list(text: &str) -> (items: Vec<String>)
    ensures
        views(items@) == entries(text@),
{
    let chars = chars_of(text);
    let mut plain: Vec<char> = Vec::new();
    let mut i: usize = 0;
    while i < chars.len()
        invariant
            chars@ == text@,
            i <= chars@.len(),
            plain@ == unified(chars@.take(i as int)),
        decreases chars.len() - i,
    {
        let c: char = chars[i];
        let parts: bool = c == ',' || c == '，' || c == ';' || c == '；' || c == '\n' || c == '\r'
            || c == '\t';
        plain.push(
            if parts {
                ','
            } else {
                c
            },
        );
        assert(plain@ =~= unified(chars@.take(i + 1)));
        i = i + 1;
    }
    assert(chars@.take(chars@.len() as int) =~= chars@);
    let pieces = split_at(plain.as_slice(), ',');
    distinct_of(pieces.as_slice())
}

/// The fallback models of a text.
pub fn fallback_models_from_text(text: &str) -> (items: Vec<String>)
    ensures
        views(items@) == entries(text@),
{
    split_list(text)
}

/// The fallback models in one line.
pub fn fallback_models_to_text(models: &[String]) -> (s: String)
    ensures
        s@ == join(views(models@), ", "@),
{
    join_with(models, ", ")
}

/// The terms of a text.
pub fn glossary_from_text(text: &str) -> (items: Vec<String>)
    ensures
        views(items@) == entries(text@),
{
    split_list(text)
}

/// The terms in one line.
pub fn glossary_to_text(terms: &[String]) -> (s: String)
    ensures
        s@ == join(views(terms@), ", "@),
{
    join_with(terms, ", ")
}

/// The value without white space around it, or the default if it is blank.
pub open spec fn value_or(value: Seq<char>, fallback: Seq<char>) -> Seq<char> {
    if trim(value).len() == 0 {
        fallback
    } else {
        trim(value)
    }
}

/// The value without white space around it, or the default if it is blank.
pub fn trimmed_or(value: &str, fallback: &str) -> (s: String)
    ensures
        s@ == value_or(value@, fallback@),
{
    let own = trimmed(value);
    if chars_of(own.as_str()).len() == 0 {
        owned(fallback)
    } else {
        own
    }
}

/// The least enlargement is none.
pub open spec fn enlargement(factor: Option<u32>) -> u32 {
    match factor {
        Some(f) => if f < 1000 {
            1000
        } else {
            f
        },
        None => 1000,
    }
}

/// The least enlargement is none, which also stands for a number that is not finite.
pub fn valid_upscale(factor: Option<u32>) -> (r: u32)
    ensures
        r == enlargement(factor),
{
    match factor {
        Some(f) => if f < 1000 {
            1000
        } else {
            f
        },
        None => 1000,
    }
}

/// At least one second.
pub open spec fn at_least_one(seconds: u64) -> u64 {
    if seconds == 0 {
        1
    } else {
        seconds
    }
}

/// The endpoint that the form describes.
pub open spec fn is_api_of(api: ApiConfig, form: FormValues, defaults: Defaults) -> bool {
    &&& api.base_url@ == value_or(form.base_url@, defaults.base_url@)
    &&& api.api_key@ == trim(form.api_key@)
    &&& api.api_key_env@ == value_or(form.api_key_env@, defaults.api_key_env@)
    &&& api.timeout_s == at_least_one(form.timeout_s)
    &&& api.proxy@ == trim(form.proxy@)
}

/// The translation that the form describes.
pub open spec fn is_llm_of(llm: LlmConfig, form: FormValues, defaults: Defaults) -> bool {
    &&& llm.model@ == value_or(form.model@, defaults.model@)
    &&& llm.target_lang@ == value_or(form.target_lang@, defaults.target_lang@)
    &&& views(llm.fallback_models@) == entries(form.fallback_models@)
    &&& views(llm.glossary@) == entries(form.glossary@)
}

/// The recognition that the form describes. Any engine but the one that asks a model is the one on
/// this machine.
pub open spec fn is_ocr_of(ocr: OcrConfig, form: FormValues, defaults: Defaults) -> bool {
    &&& ocr.engine@ == if form.engine@ == OCR_ENGINE_API@ {
        OCR_ENGINE_API@
    } else {
        OCR_ENGINE_BUILTIN@
    }
    &&& ocr.langs@ == value_or(form.langs@, defaults.langs@)
    &&& ocr.preprocess == form.preprocess
    &&& ocr.upscale == enlargement(form.upscale)
    &&& ocr.api_model@ == trim(form.api_model@)
    &&& ocr.api_timeout_s == at_least_one(form.api_timeout_s)
}

/// The form shows the settings.
pub open spec fn shows(form: FormValues, cfg: Config, prefs: Preferences) -> bool {
    &&& form.base_url@ == cfg.api.base_url@
    &&& form.api_key@ == cfg.api.api_key@
    &&& form.api_key_env@ == cfg.api.api_key_env@
    &&& form.timeout_s == cfg.api.timeout_s
    &&& form.proxy@ == cfg.api.proxy@
    &&& form.model@ == cfg.llm.model@
    &&& form.target_lang@ == cfg.llm.target_lang@
    &&& form.fallback_models@ == join(views(cfg.llm.fallback_models@), ", "@)
    &&& form.glossary@ == join(views(cfg.llm.glossary@), ", "@)
    &&& form.engine@ == cfg.ocr.engine@
    &&& form.langs@ == cfg.ocr.langs@
    &&& form.preprocess == cfg.ocr.preprocess
    &&& form.upscale == Some(cfg.ocr.upscale)
    &&& form.api_model@ == cfg.ocr.api_model@
    &&& form.api_timeout_s == cfg.ocr.api_timeout_s
    &&& form.save_after_capture == prefs.save
    &&& form.copy_after_capture == prefs.copy
}

impl FormValues {
    /// The form for settings: what is set, not the defaults.
    pub fn from_config(cfg: &Config, prefs: &Preferences) -> (form: FormValues)
        ensures
            shows(form, *cfg, *prefs),
    {
        FormValues {
            base_url: cfg.api.base_url.clone(),
            api_key: cfg.api.api_key.clone(),
            api_key_env: cfg.api.api_key_env.clone(),
            timeout_s: cfg.api.timeout_s,
            proxy: cfg.api.proxy.clone(),
            model: cfg.llm.model.clone(),
            target_lang: cfg.llm.target_lang.clone(),
            fallback_models: fallback_models_to_text(cfg.llm.fallback_models.as_slice()),
            glossary: glossary_to_text(cfg.llm.glossary.as_slice()),
            engine: cfg.ocr.engine.clone(),
            langs: cfg.ocr.langs.clone(),
            preprocess: cfg.ocr.preprocess,
            upscale: Some(cfg.ocr.upscale),
            api_model: cfg.ocr.api_model.clone(),
            api_timeout_s: cfg.ocr.api_timeout_s,
            save_after_capture: prefs.save,
            copy_after_capture: prefs.copy,
        }
    }

    /// The endpoint that the form describes.
    pub fn api_config(&self, defaults: &Defaults) -> (api: ApiConfig)
        ensures
            is_api_of(api, *self, *defaults),
    {
        ApiConfig {
            base_url: trimmed_or(self.base_url.as_str(), defaults.base_url.as_str()),
            api_key: trimmed(self.api_key.as_str()),
            api_key_env: trimmed_or(self.api_key_env.as_str(), defaults.api_key_env.as_str()),
            timeout_s: valid_timeout(self.timeout_s),
            proxy: trimmed(self.proxy.as_str()),
        }
    }

    /// The settings that the form describes. What the form does not show stays as it was.
    pub fn to_config(&self, base: &Config, defaults: &Defaults) -> (cfg: Config)
        ensures
            is_api_of(cfg.api, *self, *defaults),
            is_llm_of(cfg.llm, *self, *defaults),
            is_ocr_of(cfg.ocr, *self, *defaults),
            cfg.longshot == base.longshot,
    {
        let engine: &str = if same(self.engine.as_str(), OCR_ENGINE_API) {
            OCR_ENGINE_API
        } else {
            OCR_ENGINE_BUILTIN
        };
        Config {
            api: self.api_config(defaults),
            llm: LlmConfig {
                model: trimmed_or(self.model.as_str(), defaults.model.as_str()),
                target_lang: trimmed_or(self.target_lang.as_str(), defaults.target_lang.as_str()),
                fallback_models: fallback_models_from_text(self.fallback_models.as_str()),
                glossary: glossary_from_text(self.glossary.as_str()),
            },
            ocr: OcrConfig {
                engine: owned(engine),
                langs: trimmed_or(self.langs.as_str(), defaults.langs.as_str()),
                preprocess: self.preprocess,
                upscale: valid_upscale(self.upscale),
                api_model: trimmed(self.api_model.as_str()),
                api_timeout_s: valid_timeout(self.api_timeout_s),
            },
            longshot: LongshotConfig {
                poll_ms: base.longshot.poll_ms,
                min_shift_px: base.longshot.min_shift_px,
                max_diff: base.longshot.max_diff,
            },
        }
    }

    /// What happens to a screenshot.
    pub fn to_preferences(&self) -> (prefs: Preferences)
        ensures
            prefs.save == self.save_after_capture,
            prefs.copy == self.copy_after_capture,
    {
        Preferences { save: self.save_after_capture, copy: self.copy_after_capture }
    }
}

/// A text without white space around it.
pub open spec fn is_trimmed(s: Seq<char>) -> bool {
    trim(s) == s
}

/// A list as the form takes it apart: its entries are not empty, have no white space around them
/// and nothing in them that parts entries, and none occurs twice.
pub open spec fn is_plain_list(list: Seq<Seq<char>>) -> bool {
    &&& list.no_duplicates()
    &&& forall|i: int|
        0 <= i < list.len() ==> (#[trigger] list[i]).len() > 0 && is_trimmed(list[i])
            && forall|k: int| 0 <= k < list[i].len() ==> !is_separator(#[trigger] list[i][k])
}

/// Settings that a form can show and give back: nothing is blank that has a default, no text has
/// white space around it, the numbers are in their ranges and the engine is one that there is.
pub open spec fn is_plain(cfg: Config) -> bool {
    &&& cfg.api.base_url@.len() > 0 && is_trimmed(cfg.api.base_url@)
    &&& is_trimmed(cfg.api.api_key@)
    &&& cfg.api.api_key_env@.len() > 0 && is_trimmed(cfg.api.api_key_env@)
    &&& cfg.api.timeout_s >= 1
    &&& is_trimmed(cfg.api.proxy@)
    &&& cfg.llm.model@.len() > 0 && is_trimmed(cfg.llm.model@)
    &&& cfg.llm.target_lang@.len() > 0 && is_trimmed(cfg.llm.target_lang@)
    &&& is_plain_list(views(cfg.llm.fallback_models@))
    &&& is_plain_list(views(cfg.llm.glossary@))
    &&& cfg.ocr.engine@ == OCR_ENGINE_API@ || cfg.ocr.engine@ == OCR_ENGINE_BUILTIN@
    &&& cfg.ocr.langs@.len() > 0 && is_trimmed(cfg.ocr.langs@)
    &&& cfg.ocr.upscale >= 1000
    &&& is_trimmed(cfg.ocr.api_model@)
    &&& cfg.ocr.api_timeout_s >= 1
}

/// The two describe the same in everything that the form shows.
pub open spec fn same_settings(a: Config, b: Config) -> bool {
    &&& a.api.base_url@ == b.api.base_url@
    &&& a.api.api_key@ == b.api.api_key@
    &&& a.api.api_key_env@ == b.api.api_key_env@
    &&& a.api.timeout_s == b.api.timeout_s
    &&& a.api.proxy@ == b.api.proxy@
    &&& a.llm.model@ == b.llm.model@
    &&& a.llm.target_lang@ == b.llm.target_lang@
    &&& views(a.llm.fallback_models@) == views(b.llm.fallback_models@)
    &&& views(a.llm.glossary@) == views(b.llm.glossary@)
    &&& a.ocr.engine@ == b.ocr.engine@
    &&& a.ocr.langs@ == b.ocr.langs@
    &&& a.ocr.preprocess == b.ocr.preprocess
    &&& a.ocr.upscale == b.ocr.upscale
    &&& a.ocr.api_model@ == b.ocr.api_model@
    &&& a.ocr.api_timeout_s == b.ocr.api_timeout_s
}

/// Opening the panel and saving changes nothing.
pub proof fn a_form_gives_back_the_settings(
    cfg: Config,
    prefs: Preferences,
    form: FormValues,
    saved: Config,
    defaults: Defaults,
)
    requires
        is_plain(cfg),
        shows(form, cfg, prefs),
        is_api_of(saved.api, form, defaults),
        is_llm_of(saved.llm, form, defaults),
        is_ocr_of(saved.ocr, form, defaults),
    ensures
        same_settings(saved, cfg),
{
    a_list_comes_back(views(cfg.llm.fallback_models@));
    a_list_comes_back(views(cfg.llm.glossary@));
}

proof fn split_grows(a: Seq<char>, b: Seq<char>, c: char, from: int)
    requires
        0 <= from <= a.len(),
        !b.contains(c),
    ensures
        split_from(a.push(c) + b, c, from) == split_from(a, c, from).push(b),
    decreases a.len() - from,
{
    let all = a.push(c) + b;
    let end = find_from(a, c, from);
    find_from_bounds(a, c, from);
    found_before(a, b, c, from);
    assert(find_from(all, c, from) == end);
    if end < a.len() {
        split_grows(a, b, c, end + 1);
        assert(all.subrange(from, end) =~= a.subrange(from, end));
        assert(split_from(all, c, from) =~= split_from(a, c, from).push(b));
    } else {
        let rest: int = a.len() + 1int;
        find_from_bounds(all, c, rest);
        assert forall|k: int| rest <= k < all.len() implies all[k] != c by {
            assert(b.contains(b[k - rest]));
        }
        assert(split_from(all, c, rest) =~= seq![b]) by {
            assert(all.subrange(rest, all.len() as int) =~= b);
        }
        assert(all.subrange(from, end) =~= a.subrange(from, a.len() as int));
        assert(split_from(all, c, from) =~= split_from(a, c, from).push(b));
    }
}

proof fn found_before(a: Seq<char>, b: Seq<char>, c: char, from: int)
    requires
        0 <= from <= a.len(),
    ensures
        find_from(a.push(c) + b, c, from) == find_from(a, c, from),
    decreases a.len() - from,
{
    if from < a.len() && a[from] != c {
        found_before(a, b, c, from + 1);
    }
}

proof fn leading_blank_is_trimmed(s: Seq<char>)
    ensures
        trim(seq![' '] + s) == trim(s),
{
    let padded = seq![' '] + s;
    assert(padded.drop_first() =~= s);
    assert(trim_start(padded) == trim_start(s));
}

/// A list in one line is taken apart into the same list.
pub proof fn a_list_comes_back(list: Seq<Seq<char>>)
    requires
        is_plain_list(list),
    ensures
        entries(join(list, ", "@)) == list,
    decreases list.len(),
{
    let line = join(list, ", "@);
    list_stays_plain(list);
    assert(unified(line) =~= line);
    pieces_come_back(list);
}

proof fn list_stays_plain(list: Seq<Seq<char>>)
    requires
        is_plain_list(list),
    ensures
        forall|k: int|
            0 <= k < join(list, ", "@).len() ==> is_separator(#[trigger] join(list, ", "@)[k])
                ==> join(list, ", "@)[k] == ',',
    decreases list.len(),
{
    reveal_strlit(", ");
    if list.len() == 1 {
        assert(join(list, ", "@) == list[0]);
    } else if list.len() > 1 {
        let front = list.drop_last();
        assert(is_plain_list(front)) by {
            assert forall|i: int| 0 <= i < front.len() implies #[trigger] front[i] == list[i] by {}
        }
        list_stays_plain(front);
        let last = list.last();
        assert(last == list[list.len() - 1]);
        let head = join(front, ", "@);
        let line = join(list, ", "@);
        assert(line == head + ", "@ + last);
        assert forall|k: int| 0 <= k < line.len() && is_separator(#[trigger] line[k]) implies line[k]
            == ',' by {
            if k < head.len() {
                assert(line[k] == head[k]);
            } else if k < head.len() + 2 {
                assert(line[k] == ", "@[k - head.len()]);
            } else {
                assert(line[k] == last[k - head.len() - 2]);
            }
        }
    }
}

proof fn pieces_come_back(list: Seq<Seq<char>>)
    requires
        is_plain_list(list),
    ensures
        distinct(split(join(list, ", "@), ',')) == list,
    decreases list.len(),
{
    reveal_strlit(", ");
    let line = join(list, ", "@);
    if list.len() == 0 {
        assert(line.subrange(0, line.len() as int) =~= Seq::<char>::empty());
        assert(find_from(line, ',', 0) == 0);
        assert(split(line, ',') =~= seq![Seq::<char>::empty()]);
        let pieces = split(line, ',');
        assert(pieces.drop_last() =~= Seq::<Seq<char>>::empty());
        assert(distinct(pieces.drop_last()) =~= Seq::<Seq<char>>::empty());
        assert(trim(Seq::<char>::empty()) =~= Seq::<char>::empty());
        assert(distinct(pieces) =~= list);
    } else if list.len() == 1 {
        find_from_bounds(line, ',', 0);
        assert(line == list[0]);
        assert(line.subrange(0, line.len() as int) =~= line);
        let pieces = split(line, ',');
        let end = find_from(line, ',', 0);
        if end < line.len() {
            assert(is_separator(list[0][end]));
        }
        assert(pieces =~= seq![line]);
        assert(pieces.drop_last() =~= Seq::<Seq<char>>::empty());
        assert(distinct(pieces.drop_last()) =~= Seq::<Seq<char>>::empty());
        assert(trim(line) == line);
        assert(distinct(pieces) =~= seq![line]);
        assert(list =~= seq![line]);
    } else {
        let front = list.drop_last();
        let last = list.last();
        assert(last == list[list.len() - 1]);
        assert(is_plain_list(front)) by {
            assert forall|i: int| 0 <= i < front.len() implies #[trigger] front[i] == list[i] by {}
        }
        pieces_come_back(front);
        let head = join(front, ", "@);
        let tail = seq![' '] + last;
        assert(line =~= head.push(',') + tail);
        assert(!tail.contains(',')) by {
            if tail.contains(',') {
                let k = choose|k: int| 0 <= k < tail.len() && tail[k] == ',';
                assert(k > 0);
                assert(tail[k] == last[k - 1]);
            }
        }
        split_grows(head, tail, ',', 0);
        let pieces = split(line, ',');
        assert(pieces.drop_last() =~= split(head, ','));
        leading_blank_is_trimmed(last);
        assert(!front.contains(last)) by {
            if front.contains(last) {
                let i = choose|i: int| 0 <= i < front.len() && front[i] == last;
                assert(list[i] == list[list.len() - 1]);
            }
        }
        assert(distinct(pieces) =~= front.push(last));
        assert(front.push(last) =~= list);
    }
}

/// Whether the endpoint can be used.
#[derive(Debug, Clone, Copy, PartialEq, Eq, Structural)]
pub enum Credentials {
    Ready,
    Missing,
}

/// A key is there, or none is needed because the endpoint is on this machine.
pub fn credentials(key_source: Option<&str>, loopback: bool) -> (r: Credentials)
    ensures
        r == if key_source is Some || loopback {
            Credentials::Ready
        } else {
            Credentials::Missing
        },
{
    if key_source.is_some() || loopback {
        Credentials::Ready
    } else {
        Credentials::Missing
    }
}

/// The words and the style of the mark in the title.
pub fn chip_style(state: Credentials) -> (r: (&'static str, &'static str))
    ensures
        (r.0@, r.1@) == match state {
            Credentials::Ready => ("API 已就绪"@, "vellum-success"@),
            Credentials::Missing => ("缺少密钥"@, "vellum-error"@),
        },
{
    match state {
        Credentials::Ready => ("API 已就绪", "vellum-success"),
        Credentials::Missing => ("缺少密钥", "vellum-error"),
    }
}

/// Says where the key comes from, or what to do if there is none.
pub fn key_hint(source: Option<&str>, loopback: bool, env_name: &str) -> (s: String)
    ensures
        s@ == match source {
            Some(name) => "密钥来源："@ + name@,
            None => if loopback {
                "本地接口不需要密钥"@
            } else {
                "尚未找到密钥：可填在上面的输入框，或设置环境变量 "@ + env_name@
            },
        },
{
    match source {
        Some(name) => {
            let mut s = owned("密钥来源：");
            s.append(name);
            s
        },
        None => if loopback {
            owned("本地接口不需要密钥")
        } else {
            let mut s = owned("尚未找到密钥：可填在上面的输入框，或设置环境变量 ");
            s.append(env_name);
            s
        },
    }
}

/// The first three of a list.
pub open spec fn first_three(models: Seq<Seq<char>>) -> Seq<Seq<char>> {
    if models.len() <= 3 {
        models
    } else {
        models.take(3)
    }
}

/// What a test of the connection found, in words. A list without the configured model is no
/// failure: some services leave out models that they have.
pub open spec fn probe_words(result: Result<Vec<String>, String>, model: Seq<char>) -> (
    Seq<char>,
    bool,
) {
    match result {
        Ok(models) => if models@.len() == 0 {
            ("连接成功，但接口未返回模型列表"@, false)
        } else if trim(model).len() > 0 && !views(models@).contains(trim(model)) {
            (
                "接口可达（"@ + decimal(models@.len()) + " 个模型）；列表里没有 "@ + trim(model)
                    + "，可用示例："@ + join(first_three(views(models@)), " / "@),
                false,
            )
        } else {
            ("连接成功 · "@ + decimal(models@.len()) + " 个模型可用"@, false)
        },
        Err(err) => ("连接失败："@ + err@, true),
    }
}

/// What a test of the connection found: a line, and whether it is a failure.
pub fn probe_message(result: &Result<Vec<String>, String>, model: &str) -> (r: (String, bool))
    ensures
        (r.0@, r.1) == probe_words(*result, model@),
{
    match result {
        Ok(models) => {
            if models.len() == 0 {
                return (owned("连接成功，但接口未返回模型列表"), false);
            }
            let name = trimmed(model);
            let count = decimal_of(models.len() as u64);
            if chars_of(name.as_str()).len() > 0 && !holds(models.as_slice(), name.as_str()) {
                let mut shown: Vec<String> = Vec::new();
                let mut i: usize = 0;
                while i < models.len() && i < 3
                    invariant
                        i <= models@.len(),
                        i <= 3,
                        views(shown@) == views(models@).take(i as int),
                    decreases 3 - i,
                {
                    let ghost before = views(shown@);
                    shown.push(models[i].clone());
                    assert(views(shown@) =~= before.push(models@[i as int]@));
                    assert(views(shown@) =~= views(models@).take(i + 1));
                    i = i + 1;
                }
                assert(views(shown@) =~= first_three(views(models@)));
                let mut s = owned("接口可达（");
                s.append(count.as_str());
                s.append(" 个模型）；列表里没有 ");
                s.append(name.as_str());
                s.append("，可用示例：");
                let list = join_with(shown.as_slice(), " / ");
                s.append(list.as_str());
                return (s, false);
            }
            let mut s = owned("连接成功 · ");
            s.append(count.as_str());
            s.append(" 个模型可用");
            (s, false)
        },
        Err(err) => {
            let mut s = owned("连接失败：");
            s.append(err.as_str());
            (s, true)
        },
    }
}

/// What is said under the models once a list was fetched: nothing without a list, else whether the
/// model that was typed is in it.
pub fn model_hint(fetched: &[String], typed: &str) -> (r: Option<(String, Flash)>)
    ensures
        match r {
            None => fetched@.len() == 0,
            Some((text, kind)) => fetched@.len() > 0 && if trim(typed@).len() == 0 {
                text@ == "已获取 "@ + decimal(fetched@.len()) + " 个模型；翻译模型还没填"@ && kind
                    == Flash::Info
            } else if views(fetched@).contains(trim(typed@)) {
                text@ == "已获取 "@ + decimal(fetched@.len()) + " 个模型；"@ + trim(typed@)
                    + " 在列表里"@ && kind == Flash::Success
            } else {
                text@ == "已获取 "@ + decimal(fetched@.len()) + " 个模型，其中没有 "@ + trim(
                    typed@,
                ) + "（部分服务会漏报）；可从右侧列表改选"@ && kind == Flash::Info
            },
        },
{
    if fetched.len() == 0 {
        return None;
    }
    let name = trimmed(typed);
    let count = decimal_of(fetched.len() as u64);
    let mut s = owned("已获取 ");
    s.append(count.as_str());
    if chars_of(name.as_str()).len() == 0 {
        s.append(" 个模型；翻译模型还没填");
        Some((s, Flash::Info))
    } else if holds(fetched, name.as_str()) {
        s.append(" 个模型；");
        s.append(name.as_str());
        s.append(" 在列表里");
        Some((s, Flash::Success))
    } else {
        s.append(" 个模型，其中没有 ");
        s.append(name.as_str());
        s.append("（部分服务会漏报）；可从右侧列表改选");
        Some((s, Flash::Info))
    }
}

/// What is said if no list could be shown: that the service has none, or why it failed.
pub fn fetch_message(result: &Result<Vec<String>, String>) -> (r: Option<(String, Flash)>)
    ensures
        match *result {
            Ok(models) => if models@.len() == 0 {
                r matches Some((text, kind)) && text@
                    == "接口可达，但没有返回模型列表；请手动填写模型名"@ && kind == Flash::Info
            } else {
                r is None
            },
            Err(err) => r matches Some((text, kind)) && text@ == "获取失败："@ + err@ && kind
                == Flash::Error,
        },
{
    match result {
        Ok(models) => if models.len() == 0 {
            Some(
                (
                    owned("接口可达，但没有返回模型列表；请手动填写模型名"),
                    Flash::Info,
                ),
            )
        } else {
            None
        },
        Err(err) => {
            let mut s = owned("获取失败：");
            s.append(err.as_str());
            Some((s, Flash::Error))
        },
    }
}

/// The seconds that fetching the models may take.
pub fn fetch_timeout(timeout_s: u64) -> (r: u64)
    ensures
        r == if timeout_s < 5 {
            5
        } else if timeout_s > 60 {
            60
        } else {
            timeout_s
        },
{
    if timeout_s < 5 {
        5
    } else if timeout_s > 60 {
        60
    } else {
        timeout_s
    }
}

/// What came of saving: of the settings, and then of the preferences, which are only written once
/// the settings are.
pub fn save_message(saved: &Result<(), String>, stored: &Result<(), String>) -> (r: (
    String,
    Flash,
))
    ensures
        match *saved {
            Ok(_) => match *stored {
                Ok(_) => r.0@ == "已保存 · 下一次截图生效"@ && r.1 == Flash::Success,
                Err(err) => r.0@ == "接口设置已保存，但输出偏好写入失败："@ + err@ && r.1
                    == Flash::Error,
            },
            Err(err) => r.0@ == "保存失败："@ + err@ && r.1 == Flash::Error,
        },
{
    match saved {
        Ok(_) => match stored {
            Ok(_) => (owned("已保存 · 下一次截图生效"), Flash::Success),
            Err(err) => {
                let mut s = owned("接口设置已保存，但输出偏好写入失败：");
                s.append(err.as_str());
                (s, Flash::Error)
            },
        },
        Err(err) => {
            let mut s = owned("保存失败：");
            s.append(err.as_str());
            (s, Flash::Error)
        },
    }
}

/// The pages, in the order in which they are listed.
#[derive(Debug, Clone, Copy, PartialEq, Eq, Structural)]
pub enum Page {
    Api,
    Text,
    Capture,
}

impl Page {
    /// The name of the page.
    pub open spec fn title(self) -> Seq<char> {
        match self {
            Page::Api => "api"@,
            Page::Text => "text"@,
            Page::Capture => "capture"@,
        }
    }

    /// The name of the page.
    pub fn name(self) -> (r: &'static str)
        ensures
            r@ == self.title(),
    {
        match self {
            Page::Api => "api",
            Page::Text => "text",
            Page::Capture => "capture",
        }
    }

    /// The place of the page in the list.
    pub fn index(self) -> (r: usize)
        ensures
            r == match self {
                Page::Api => 0usize,
                Page::Text => 1,
                Page::Capture => 2,
            },
    {
        match self {
            Page::Api => 0,
            Page::Text => 1,
            Page::Capture => 2,
        }
    }

    /// The page to begin with, if one was asked for: any but the other two is the first.
    pub fn initial(asked: &str) -> (r: Page)
        ensures
            r == if asked@ == "text"@ {
                Page::Text
            } else if asked@ == "capture"@ {
                Page::Capture
            } else {
                Page::Api
            },
    {
        if same(asked, "text") {
            Page::Text
        } else if same(asked, "capture") {
            Page::Capture
        } else {
            Page::Api
        }
    }
}

/// A key, as far as the panel listens to it.
#[derive(Debug, Clone, Copy, PartialEq, Eq, Structural)]
pub enum PanelKey {
    Escape,
    S,
    One,
    Two,
    Three,
    Other,
}

/// What a key does.
#[derive(Debug, Clone, Copy, PartialEq, Eq, Structural)]
pub enum PanelAction {
    Close,
    Save,
    Show(Page),
}

/// What a key does. Only the one that closes the panel needs no control key.
pub fn panel_action(key: PanelKey, control: bool) -> (r: Option<PanelAction>)
    ensures
        r == match key {
            PanelKey::Escape => Some(PanelAction::Close),
            PanelKey::Other => None,
            _ => if control {
                Some(
                    match key {
                        PanelKey::S => PanelAction::Save,
                        PanelKey::One => PanelAction::Show(Page::Api),
                        PanelKey::Two => PanelAction::Show(Page::Text),
                        _ => PanelAction::Show(Page::Capture),
                    },
                )
            } else {
                None
            },
        },
{
    match key {
        PanelKey::Escape => Some(PanelAction::Close),
        PanelKey::Other => None,
        _ => if control {
            match key {
                PanelKey::S => Some(PanelAction::Save),
                PanelKey::One => Some(PanelAction::Show(Page::Api)),
                PanelKey::Two => Some(PanelAction::Show(Page::Text)),
                _ => Some(PanelAction::Show(Page::Capture)),
            }
        } else {
            None
        },
    }
}

/// A form shows each setting in its own field.
pub proof fn a_form_shows_each_setting(cfg: &Config, prefs: &Preferences, form: FormValues)
    requires
        call_ensures(FormValues::from_config, (cfg, prefs), form),
    ensures
        form.base_url@ == cfg.api.base_url@,
        form.api_key@ == cfg.api.api_key@,
        form.api_key_env@ == cfg.api.api_key_env@,
        form.timeout_s == cfg.api.timeout_s,
        form.proxy@ == cfg.api.proxy@,
        form.model@ == cfg.llm.model@,
        form.target_lang@ == cfg.llm.target_lang@,
        form.engine@ == cfg.ocr.engine@,
        form.langs@ == cfg.ocr.langs@,
        form.preprocess == cfg.ocr.preprocess,
        form.upscale == Some(cfg.ocr.upscale),
        form.api_model@ == cfg.ocr.api_model@,
        form.api_timeout_s == cfg.ocr.api_timeout_s,
        form.save_after_capture == prefs.save,
        form.copy_after_capture == prefs.copy,
{
}

/// Settings that are read into a form and saved from it are the same settings. What the form does not
/// show stays as it was.
pub proof fn saving_an_unchanged_form_changes_nothing(
    cfg: &Config,
    prefs: &Preferences,
    form: FormValues,
    defaults: &Defaults,
    saved: Config,
    stored: Preferences,
)
    requires
        is_plain(*cfg),
        call_ensures(FormValues::from_config, (cfg, prefs), form),
        call_ensures(FormValues::to_config, (&form, cfg, defaults), saved),
        call_ensures(FormValues::to_preferences, (&form,), stored),
    ensures
        saved.api.base_url@ == cfg.api.base_url@,
        saved.api.api_key@ == cfg.api.api_key@,
        saved.api.api_key_env@ == cfg.api.api_key_env@,
        saved.api.timeout_s == cfg.api.timeout_s,
        saved.api.proxy@ == cfg.api.proxy@,
        saved.llm.model@ == cfg.llm.model@,
        saved.llm.target_lang@ == cfg.llm.target_lang@,
        views(saved.llm.fallback_models@) == views(cfg.llm.fallback_models@),
        views(saved.llm.glossary@) == views(cfg.llm.glossary@),
        saved.ocr.engine@ == cfg.ocr.engine@,
        saved.ocr.langs@ == cfg.ocr.langs@,
        saved.ocr.preprocess == cfg.ocr.preprocess,
        saved.ocr.upscale == cfg.ocr.upscale,
        saved.ocr.api_model@ == cfg.ocr.api_model@,
        saved.ocr.api_timeout_s == cfg.ocr.api_timeout_s,
        saved.longshot == cfg.longshot,
        stored.save == prefs.save && stored.copy == prefs.copy,
{
    a_form_gives_back_the_settings(*cfg, *prefs, form, saved, *defaults);
}

/// What is saved is usable whatever was typed: no time limit is zero, nothing is shrunk, and what must
/// not be blank falls back to its default. The engine is one of the two that exist.
pub proof fn saved_settings_are_usable(
    form: &FormValues,
    base: &Config,
    defaults: &Defaults,
    saved: Config,
)
    requires
        call_ensures(FormValues::to_config, (form, base, defaults), saved),
    ensures
        saved.api.timeout_s >= 1 && saved.ocr.api_timeout_s >= 1 && saved.ocr.upscale >= 1000,
        form.timeout_s >= 1 ==> saved.api.timeout_s == form.timeout_s,
        form.api_timeout_s >= 1 ==> saved.ocr.api_timeout_s == form.api_timeout_s,
        form.upscale matches Some(f) && f >= 1000 ==> saved.ocr.upscale == form.upscale->0,
        trim(form.base_url@).len() == 0 ==> saved.api.base_url@ == defaults.base_url@,
        trim(form.base_url@).len() > 0 ==> saved.api.base_url@ == trim(form.base_url@),
        trim(form.model@).len() == 0 ==> saved.llm.model@ == defaults.model@,
        trim(form.model@).len() > 0 ==> saved.llm.model@ == trim(form.model@),
        trim(form.target_lang@).len() == 0 ==> saved.llm.target_lang@ == defaults.target_lang@,
        trim(form.target_lang@).len() > 0 ==> saved.llm.target_lang@ == trim(form.target_lang@),
        trim(form.langs@).len() == 0 ==> saved.ocr.langs@ == defaults.langs@,
        trim(form.langs@).len() > 0 ==> saved.ocr.langs@ == trim(form.langs@),
        trim(form.api_key_env@).len() == 0 ==> saved.api.api_key_env@ == defaults.api_key_env@,
        saved.api.api_key@ == trim(form.api_key@),
        saved.api.proxy@ == trim(form.proxy@),
        saved.ocr.api_model@ == trim(form.api_model@),
        saved.ocr.preprocess == form.preprocess,
        form.engine@ == OCR_ENGINE_API@ ==> saved.ocr.engine@ == form.engine@,
        form.engine@ == OCR_ENGINE_BUILTIN@ ==> saved.ocr.engine@ == form.engine@,
{
}

/// The entries of a list are separated by commas or semicolons of either width, by tabs or by line
/// breaks: no entry holds one, none is blank, none occurs twice and none is lost. A text without them
/// is one entry, without the white space around it.
pub proof fn entries_are_what_is_between_separators(text: &str, items: Vec<String>)
    requires
        call_ensures(split_list, (text,), items),
    ensures
        views(items@).no_duplicates(),
        forall|i: int, k: int|
            0 <= i < items@.len() && 0 <= k < items@[i]@.len() ==> {
                let c = #[trigger] items@[i]@[k];
                c != ',' && c != ';' && c != '，' && c != '；' && c != '\n' && c != '\r' && c != '\t'
            },
        forall|i: int| 0 <= i < items@.len() ==> (#[trigger] items@[i])@.len() > 0,
        trim(text@).len() > 0 && (forall|k: int|
            0 <= k < text@.len() ==> {
                let c = #[trigger] text@[k];
                c != ',' && c != ';' && c != '，' && c != '；' && c != '\n' && c != '\r' && c != '\t'
            }) ==> items@.len() == 1 && items@[0]@ == trim(text@),
{
    let u = unified(text@);
    let pieces = split(u, ',');
    let o = views(items@);
    assert(o.len() == items@.len());
    crate::text::distinct_pieces_differ(pieces);
    crate::text::split_holds_no_separator(u, ',');
    assert forall|i: int| 0 <= i < items@.len() implies (#[trigger] items@[i])@.len() > 0 by {
        assert(o[i] == items@[i]@);
    }
    assert forall|i: int, k: int| 0 <= i < items@.len() && 0 <= k < items@[i]@.len() implies {
        let c = #[trigger] items@[i]@[k];
        c != ',' && c != ';' && c != '，' && c != '；' && c != '\n' && c != '\r' && c != '\t'
    } by {
        assert(o[i] == items@[i]@);
        let p = choose|p: int|
            0 <= p < pieces.len() && #[trigger] distinct(pieces)[i] == trim(#[trigger] pieces[p]);
        crate::text::trim_is_a_part(pieces[p]);
        let (a, b) = choose|a: int, b: int|
            0 <= a <= b <= pieces[p].len() && trim(pieces[p]) == #[trigger] pieces[p].subrange(
                a,
                b,
            );
        let c = items@[i]@[k];
        assert(c == pieces[p][a + k]);
        assert(pieces[p].contains(c));
        assert(u.contains(c) && c != ',');
        let q = choose|q: int| 0 <= q < u.len() && u[q] == c;
        assert(u[q] == if is_separator(text@[q]) {
            ','
        } else {
            text@[q]
        });
    }
    if trim(text@).len() > 0 && (forall|k: int|
        0 <= k < text@.len() ==> {
            let c = #[trigger] text@[k];
            c != ',' && c != ';' && c != '，' && c != '；' && c != '\n' && c != '\r' && c != '\t'
        }) {
        assert(u =~= text@);
        assert(!u.contains(','));
        crate::text::split_without_separator(u, ',');
        assert(pieces =~= seq![text@]);
        assert(pieces.drop_last() =~= Seq::empty());
        assert(distinct(pieces.drop_last()).len() == 0);
        assert(o =~= seq![trim(text@)]);
        assert(o[0] == items@[0]@);
    }
}

/// A connection that failed is told as an error, and one that came about is not. The number of models
/// is told where there are any.
pub proof fn a_failed_connection_is_an_error(
    result: &Result<Vec<String>, String>,
    model: &str,
    r: (String, bool),
    f: Option<(String, Flash)>,
)
    requires
        call_ensures(probe_message, (result, model), r),
        call_ensures(fetch_message, (result,), f),
    ensures
        r.1 <==> result is Err,
        f is None <==> (result matches Ok(m) && m@.len() > 0),
        f matches Some((_, kind)) ==> (kind is Error <==> result is Err),
        result matches Err(e) ==> r.0@.len() >= e@.len() && r.0@.skip(r.0@.len() - e@.len())
            == e@,
{
    if let Err(e) = *result {
        assert(r.0@.skip(r.0@.len() - e@.len()) =~= e@);
    }
}

/// Settings count as saved only if both parts were.
pub proof fn saving_succeeds_as_a_whole(
    saved: &Result<(), String>,
    stored: &Result<(), String>,
    r: (String, Flash),
)
    requires
        call_ensures(save_message, (saved, stored), r),
    ensures
        r.1 is Success <==> saved is Ok && stored is Ok,
        r.1 is Error <==> saved is Err || stored is Err,
{
}

/// A key that was found, or a local interface, is enough. Otherwise the key is missing.
pub proof fn a_local_interface_needs_no_key(source: Option<&str>, loopback: bool, r: Credentials)
    requires
        call_ensures(credentials, (source, loopback), r),
    ensures
        r is Ready <==> source is Some || loopback,
{
}

/// The time for fetching is the configured one, held between five seconds and a minute.
pub proof fn the_time_for_fetching_is_bounded(timeout_s: u64, r: u64)
    requires
        call_ensures(fetch_timeout, (timeout_s,), r),
    ensures
        5 <= r <= 60,
        5 <= timeout_s <= 60 ==> r == timeout_s,
        timeout_s < 5 ==> r == 5,
        timeout_s > 60 ==> r == 60,
{
}

/// Without the control key only Escape acts, and each page has its number.
pub proof fn keys_act_with_control(key: PanelKey, control: bool, r: Option<PanelAction>)
    requires
        call_ensures(panel_action, (key, control), r),
    ensures
        r == Some(PanelAction::Close) <==> key is Escape,
        r == Some(PanelAction::Save) <==> key is S && control,
        r == Some(PanelAction::Show(Page::Api)) <==> key is One && control,
        r == Some(PanelAction::Show(Page::Text)) <==> key is Two && control,
        r == Some(PanelAction::Show(Page::Capture)) <==> key is Three && control,
{
}

/// A value that is blank gives way to the default, and any other loses only the white space around it.
pub proof fn a_blank_value_gives_way(value: &str, fallback: &str, s: String, factor: Option<u32>, r: u32)
    requires
        call_ensures(trimmed_or, (value, fallback), s),
        call_ensures(valid_upscale, (factor,), r),
    ensures
        trim(value@).len() == 0 ==> s@ == fallback@,
        trim(value@).len() > 0 ==> s@ == trim(value@),
        r >= 1000,
        factor matches Some(f) && f >= 1000 ==> r == factor->0,
        factor is None ==> r == 1000,
{
}

/// A list that is shown in a field comes back from it, for both lists.
pub proof fn lists_come_back_from_their_fields(
    list: &[String],
    a: String,
    b: String,
    ta: &str,
    tb: &str,
    x: Vec<String>,
    y: Vec<String>,
)
    requires
        is_plain_list(views(list@)),
        call_ensures(fallback_models_to_text, (list,), a),
        call_ensures(glossary_to_text, (list,), b),
        ta@ == a@,
        tb@ == b@,
        call_ensures(fallback_models_from_text, (ta,), x),
        call_ensures(glossary_from_text, (tb,), y),
    ensures
        views(x@) == views(list@),
        views(y@) == views(list@),
{
    a_list_comes_back(views(list@));
}

/// The hint on the model says success only if the model was typed and is in the list.
pub proof fn a_listed_model_is_a_success(fetched: &[String], typed: &str, r: Option<(String, Flash)>)
    requires
        call_ensures(model_hint, (fetched, typed), r),
    ensures
        r is None <==> fetched@.len() == 0,
        r matches Some((_, kind)) ==> (kind is Success <==> trim(typed@).len() > 0 && views(
            fetched@,
        ).contains(trim(typed@))),
        r matches Some((_, kind)) ==> !(kind is Error),
{
}

/// A page is found by its name.
pub proof fn a_page_is_found_by_its_name(page: Page, name: &str, r: Page)
    requires
        call_ensures(Page::name, (page,), name),
        call_ensures(Page::initial, (name,), r),
    ensures
        r == page,
{
    reveal_strlit("api");
    reveal_strlit("text");
    reveal_strlit("capture");
    assert("api"@.len() == 3 && "text"@.len() == 4 && "capture"@.len() == 7);
}

} // verus!
