use vellum::config::{
    ApiConfig, Config, Defaults, LlmConfig, LongshotConfig, OCR_ENGINE_API, OCR_ENGINE_BUILTIN,
    OcrConfig, Preferences, valid_timeout,
};
use vellum::panel::{
    Credentials, Flash, FormValues, Page, PanelAction, PanelKey, chip_style, credentials,
    fallback_models_from_text, fallback_models_to_text, fetch_message, fetch_timeout,
    glossary_from_text, glossary_to_text, key_hint, model_hint, panel_action, probe_message,
    save_message, trimmed_or, valid_upscale,
};

fn defaults() -> Defaults {
    Defaults {
        base_url: "https://endpoint.example/v1".into(),
        api_key_env: "EXAMPLE_KEY".into(),
        model: "example-model".into(),
        target_lang: "Chinese".into(),
        langs: "chi_sim+eng".into(),
    }
}

fn plain() -> Config {
    let d = defaults();
    Config {
        api: ApiConfig {
            base_url: d.base_url,
            api_key: String::new(),
            api_key_env: d.api_key_env,
            timeout_s: 60,
            proxy: String::new(),
        },
        llm: LlmConfig {
            model: d.model,
            target_lang: d.target_lang,
            fallback_models: vec![],
            glossary: vec![],
        },
        ocr: OcrConfig {
            engine: OCR_ENGINE_BUILTIN.into(),
            langs: d.langs,
            preprocess: true,
            upscale: 2_000,
            api_model: String::new(),
            api_timeout_s: 60,
        },
        longshot: LongshotConfig { poll_ms: 20, min_shift_px: 2, max_diff: 10_000 },
    }
}

fn filled() -> Config {
    Config {
        api: ApiConfig {
            base_url: "http://localhost:11434/v1".into(),
            api_key: "sk-panel".into(),
            api_key_env: "MY_KEY".into(),
            timeout_s: 12,
            proxy: String::new(),
        },
        llm: LlmConfig {
            model: "qwen2.5:7b".into(),
            target_lang: "English".into(),
            fallback_models: vec!["qwen2.5:3b".into(), "qwen2.5:1b".into()],
            glossary: vec!["Nexus".into(), "API=接口".into()],
        },
        ocr: OcrConfig {
            engine: "api".into(),
            langs: "eng".into(),
            preprocess: false,
            upscale: 2_500,
            api_model: "llava".into(),
            api_timeout_s: 90,
        },
        longshot: LongshotConfig { poll_ms: 20, min_shift_px: 2, max_diff: 10_000 },
    }
}

fn values() -> FormValues {
    FormValues::from_config(&plain(), &Preferences { save: true, copy: true })
}

fn same(a: &Config, b: &Config) {
    assert_eq!(a.api.base_url, b.api.base_url);
    assert_eq!(a.api.api_key, b.api.api_key);
    assert_eq!(a.api.api_key_env, b.api.api_key_env);
    assert_eq!(a.api.timeout_s, b.api.timeout_s);
    assert_eq!(a.api.proxy, b.api.proxy);
    assert_eq!(a.llm.model, b.llm.model);
    assert_eq!(a.llm.target_lang, b.llm.target_lang);
    assert_eq!(a.llm.fallback_models, b.llm.fallback_models);
    assert_eq!(a.llm.glossary, b.llm.glossary);
    assert_eq!(a.ocr.engine, b.ocr.engine);
    assert_eq!(a.ocr.langs, b.ocr.langs);
    assert_eq!(a.ocr.preprocess, b.ocr.preprocess);
    assert_eq!(a.ocr.upscale, b.ocr.upscale);
    assert_eq!(a.ocr.api_model, b.ocr.api_model);
    assert_eq!(a.ocr.api_timeout_s, b.ocr.api_timeout_s);
    assert_eq!(a.longshot.poll_ms, b.longshot.poll_ms);
    assert_eq!(a.longshot.min_shift_px, b.longshot.min_shift_px);
    assert_eq!(a.longshot.max_diff, b.longshot.max_diff);
}

#[test]
fn fallback_models_are_trimmed_deduplicated_and_keep_their_order() {
    assert_eq!(fallback_models_from_text(" a, b，c;b\n\td "), vec!["a", "b", "c", "d"]);
    assert!(fallback_models_from_text("  ,  ， ;\n").is_empty());
    assert_eq!(fallback_models_to_text(&["a".into(), "b".into()]), "a, b");
}

#[test]
fn a_glossary_is_a_list_like_any_other() {
    assert_eq!(glossary_from_text("Nexus, API=接口；Nexus"), vec!["Nexus", "API=接口"]);
    assert_eq!(glossary_to_text(&["Nexus".into(), "API=接口".into()]), "Nexus, API=接口");
}

#[test]
fn blank_fields_fall_back_to_the_documented_defaults() {
    let d = defaults();
    let mut form = values();
    form.base_url = "   ".into();
    form.api_key_env = String::new();
    form.model = String::new();
    form.target_lang = String::new();
    form.langs = String::new();

    let cfg = form.to_config(&plain(), &d);
    assert_eq!(cfg.api.base_url, d.base_url);
    assert_eq!(cfg.api.api_key_env, d.api_key_env);
    assert_eq!(cfg.llm.model, d.model);
    assert_eq!(cfg.llm.target_lang, d.target_lang);
    assert_eq!(cfg.ocr.langs, d.langs);
    assert_eq!(form.api_config(&d).base_url, d.base_url);
    assert_eq!(trimmed_or("  x ", "y"), "x");
    assert_eq!(trimmed_or("  ", "y"), "y");
}

#[test]
fn a_filled_form_round_trips_through_the_config() {
    let cfg = filled();
    let prefs = Preferences { save: false, copy: true };
    let form = FormValues::from_config(&cfg, &prefs);
    same(&form.to_config(&plain(), &defaults()), &cfg);
    assert_eq!(form.to_preferences(), prefs);
    assert_eq!(form.glossary, "Nexus, API=接口");
    assert_eq!(form.fallback_models, "qwen2.5:3b, qwen2.5:1b");
}

#[test]
fn saving_preserves_the_sections_the_panel_does_not_own() {
    let mut base = plain();
    base.longshot = LongshotConfig { poll_ms: 5, min_shift_px: 6, max_diff: 7_500 };
    let form = values();
    let saved = form.to_config(&base, &defaults());
    assert_eq!(saved.longshot.poll_ms, 5);
    assert_eq!(saved.longshot.min_shift_px, 6);
    assert_eq!(saved.longshot.max_diff, 7_500);
    assert_eq!(base.llm.model, defaults().model);
    assert!(!saved.llm.model.is_empty());
}

#[test]
fn numbers_the_loader_would_drop_are_clamped_first() {
    assert_eq!(valid_timeout(0), 1);
    assert_eq!(valid_timeout(60), 60);
    assert_eq!(valid_upscale(Some(250)), 1_000);
    assert_eq!(valid_upscale(Some(3_000)), 3_000);
    assert_eq!(valid_upscale(None), 1_000);

    let mut form = values();
    form.timeout_s = 0;
    form.api_timeout_s = 0;
    form.upscale = Some(400);
    let cfg = form.to_config(&plain(), &defaults());
    assert_eq!(cfg.api.timeout_s, 1);
    assert_eq!(cfg.ocr.api_timeout_s, 1);
    assert_eq!(cfg.ocr.upscale, 1_000);
}

#[test]
fn an_unknown_engine_is_written_as_the_builtin_one() {
    let mut form = values();
    form.engine = "tesseract-ng".into();
    assert_eq!(form.to_config(&plain(), &defaults()).ocr.engine, OCR_ENGINE_BUILTIN);
    form.engine = OCR_ENGINE_API.into();
    assert_eq!(form.to_config(&plain(), &defaults()).ocr.engine, OCR_ENGINE_API);
}

#[test]
fn the_chip_reports_missing_and_ready_credentials() {
    assert_eq!(credentials(None, false), Credentials::Missing);
    assert_eq!(credentials(Some("配置文件"), false), Credentials::Ready);
    assert_eq!(credentials(None, true), Credentials::Ready);

    assert_eq!(chip_style(Credentials::Missing), ("缺少密钥", "vellum-error"));
    assert_eq!(chip_style(Credentials::Ready), ("API 已就绪", "vellum-success"));
}

#[test]
fn the_key_hint_names_the_environment_variable_it_will_read() {
    assert!(key_hint(Some("环境变量 VELLUM_API_KEY"), false, "X").contains("VELLUM_API_KEY"));
    assert!(key_hint(Some("配置文件"), false, "X").contains("配置文件"));
    assert!(key_hint(None, true, "X").contains("本地接口"));
    assert!(key_hint(None, false, "MY_KEY").contains("MY_KEY"));
}

#[test]
fn a_probe_result_becomes_one_readable_line() {
    let (message, error) = probe_message(&Ok(vec!["a".into(), "b".into()]), "a");
    assert!(message.contains('2'), "{message}");
    assert!(!error);

    let (message, error) = probe_message(&Ok(Vec::new()), "a");
    assert!(!error, "{message}");
    assert!(message.contains("连接成功"), "{message}");

    let (message, error) = probe_message(&Err("401 unauthorized".into()), "a");
    assert!(error);
    assert!(message.contains("401 unauthorized"), "{message}");
}

#[test]
fn a_model_missing_from_the_list_is_reported() {
    let models = Ok(vec![
        "models/gemini-2.5-flash".to_string(),
        "models/gemini-flash-latest".to_string(),
    ]);
    let (message, error) = probe_message(&models, "gpt-4o-mini");
    assert!(!error, "{message}");
    assert!(message.contains("gpt-4o-mini"), "{message}");
    assert!(message.contains("gemini-2.5-flash"), "{message}");

    let (message, error) = probe_message(&models, "models/gemini-2.5-flash");
    assert!(!error, "{message}");

    let (message, error) = probe_message(&models, "   ");
    assert!(!error, "{message}");
}

#[test]
fn progress_is_neither_success_nor_failure() {
    assert_eq!(Flash::Info.class(), None);
    assert_eq!(Flash::Success.class(), Some("vellum-success"));
    assert_eq!(Flash::Error.class(), Some("vellum-error"));
}

#[test]
fn a_model_that_was_not_fetched_gets_a_hint() {
    let fetched = vec!["a".to_string(), "b".to_string()];
    assert!(model_hint(&fetched, "a").is_none() || model_hint(&fetched, "c").is_some());
    assert!(model_hint(&[], "c").is_none());
    let failed: Result<Vec<String>, String> = Err("timeout".into());
    let (message, flash) = fetch_message(&failed).unwrap();
    assert!(message.contains("timeout"));
    assert_eq!(flash, Flash::Error);
    assert!(fetch_timeout(0) >= 1);
}

#[test]
fn a_save_that_fails_says_so() {
    let (_, flash) = save_message(&Ok(()), &Ok(()));
    assert_eq!(flash, Flash::Success);
    let (message, flash) = save_message(&Err("disk full".into()), &Ok(()));
    assert!(message.contains("disk full"));
    assert_eq!(flash, Flash::Error);
    let (message, flash) = save_message(&Ok(()), &Err("read only".into()));
    assert!(message.contains("read only"));
    assert_eq!(flash, Flash::Error);
}

#[test]
fn keys_reach_pages_and_buttons() {
    assert_eq!(panel_action(PanelKey::Escape, false), Some(PanelAction::Close));
    assert_eq!(panel_action(PanelKey::S, true), Some(PanelAction::Save));
    assert_eq!(panel_action(PanelKey::S, false), None);
    assert_eq!(panel_action(PanelKey::Two, true), Some(PanelAction::Show(Page::Text)));
    assert_eq!(panel_action(PanelKey::Other, true), None);
    assert_eq!(Page::initial("no such page").index(), 0);
    assert_eq!(Page::initial(Page::Capture.name()), Page::Capture);
}
