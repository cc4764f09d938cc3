//! The settings, as plain values.

use vstd::prelude::*;

use crate::text::{chars_of, same, trim, trimmed};

verus! {

/// The engine that asks a vision model.
pub const OCR_ENGINE_API: &'static str = "api";

/// The engine on this machine.
pub const OCR_ENGINE_BUILTIN: &'static str = "builtin";

/// The endpoint.
pub struct ApiConfig {
    pub base_url: String,
    pub api_key: String,
    pub api_key_env: String,
    pub timeout_s: u64,
    pub proxy: String,
}

/// Translation.
pub struct LlmConfig {
    pub model: String,
    pub target_lang: String,
    pub fallback_models: Vec<String>,
    pub glossary: Vec<String>,
}

/// Text recognition. The enlargement is in thousandths.
pub struct OcrConfig {
    pub engine: String,
    pub langs: String,
    pub preprocess: bool,
    pub upscale: u32,
    pub api_model: String,
    pub api_timeout_s: u64,
}

/// Long shots. The largest difference of matching frames is in thousandths.
pub struct LongshotConfig {
    pub poll_ms: u64,
    pub min_shift_px: u32,
    pub max_diff: u32,
}

/// What happens to a screenshot.
#[derive(Debug, Clone, Copy, PartialEq, Eq, Structural)]
pub struct Preferences {
    pub save: bool,
    pub copy: bool,
}

/// What stands for a setting that was left blank.
pub struct Defaults {
    pub base_url: String,
    pub api_key_env: String,
    pub model: String,
    pub target_lang: String,
    pub langs: String,
}

/// All settings.
pub struct Config {
    pub api: ApiConfig,
    pub llm: LlmConfig,
    pub ocr: OcrConfig,
    pub longshot: LongshotConfig,
}

/// The seconds that a request may take. None may take no time at all.
pub fn valid_timeout(seconds: u64) -> (r: u64)
    ensures
        r == if seconds == 0 {
            1
        } else {
            seconds
        },
{
    if seconds == 0 {
        1
    } else {
        seconds
    }
}

impl OcrConfig {
    /// Whether the vision model reads first.
    pub fn uses_api(&self) -> (r: bool)
        ensures
            r == (self.engine@ == OCR_ENGINE_API@),
    {
        same(self.engine.as_str(), OCR_ENGINE_API)
    }

    /// The model that reads images: its own, or that of the translation if it has none.
    pub fn effective_api_model(&self, llm: &LlmConfig) -> (r: String)
        ensures
            r@ == if trim(self.api_model@).len() == 0 {
                llm.model@
            } else {
                self.api_model@
            },
    {
        let own = trimmed(self.api_model.as_str());
        if chars_of(own.as_str()).len() == 0 {
            llm.model.clone()
        } else {
            self.api_model.clone()
        }
    }
}

/// The interface recognises only where that was chosen, with its own model or with that of the
/// translation. A time limit is never zero.
pub proof fn the_engine_is_the_chosen_one(
    ocr: &OcrConfig,
    llm: &LlmConfig,
    uses: bool,
    model: String,
    seconds: u64,
    limit: u64,
)
    requires
        call_ensures(OcrConfig::uses_api, (ocr,), uses),
        call_ensures(OcrConfig::effective_api_model, (ocr, llm), model),
        call_ensures(valid_timeout, (seconds,), limit),
    ensures
        uses <==> ocr.engine@ == "api"@,
        trim(ocr.api_model@).len() > 0 ==> model@ == ocr.api_model@,
        trim(ocr.api_model@).len() == 0 ==> model@ == llm.model@,
        limit >= 1 && (seconds >= 1 ==> limit == seconds),
{
}

} // verus!
