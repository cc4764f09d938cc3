use vellum::api::{ApiError, HttpResponse, authorization, chat_result};
use vellum::clean::strip_leading_label;
use vellum::config::LlmConfig;
use vellum::llm::{
    Inquiry, Opening, Step, TranslateError, Translation, Transport, already_target_language,
    map_api_error, model_candidates, open, prompt, reads_as_language,
};

const LABELS: &[&str] = &["译文：", "Translation:"];

fn with(model: &str, target_lang: &str, fallback_models: &[&str]) -> LlmConfig {
    LlmConfig {
        model: model.into(),
        target_lang: target_lang.into(),
        fallback_models: fallback_models.iter().map(|m| m.to_string()).collect(),
        glossary: Vec::new(),
    }
}

fn llm() -> LlmConfig {
    with("gpt-4o-mini", "简体中文", &[])
}

fn choices(text: &str) -> String {
    format!("{{\"choices\":[{{\"message\":{{\"content\":\"{text}\"}}}}]}}")
}

/// Runs a translation against answers that are given in order. Counts the models that were asked.
fn translate(
    text: &str,
    llm: &LlmConfig,
    mut answers: Vec<Result<String, ApiError>>,
) -> (Result<Translation, TranslateError>, Vec<String>, String) {
    let (models, request) = match open(text, llm) {
        Opening::Done(t) => return (Ok(t), Vec::new(), String::new()),
        Opening::Refused(e) => return (Err(e), Vec::new(), String::new()),
        Opening::Ask { models, request } => (models, request),
    };
    let mut inquiry = Inquiry::new();
    let mut asked = Vec::new();
    for model in models {
        asked.push(model.clone());
        match inquiry.answer(&model, answers.remove(0)) {
            Step::Finished(result) => return (result, asked, request),
            Step::Next => {}
        }
    }
    (Err(inquiry.exhausted()), asked, request)
}

fn reply(status: u16, body: &str) -> Result<String, ApiError> {
    chat_result(&HttpResponse { status, body: body.to_string() })
}

#[test]
fn a_leading_label_is_removed() {
    assert_eq!(strip_leading_label("译文：hello", LABELS), "hello");
    assert_eq!(strip_leading_label("Translation: hello", LABELS), "hello");
    assert_eq!(strip_leading_label("  译文：  hello  ", LABELS), "hello");
}

#[test]
fn a_label_anywhere_else_is_content() {
    assert_eq!(strip_leading_label("他说：译文：去掉", LABELS), "他说：译文：去掉");
    assert_eq!(strip_leading_label("hello\n译文：bye", LABELS), "hello\n译文：bye");
}

#[test]
fn a_fence_or_a_quote_is_never_removed() {
    assert_eq!(strip_leading_label("```\nhello\n```", LABELS), "```\nhello\n```");
    assert_eq!(
        strip_leading_label("```rust\nfn main() {}\n```", LABELS),
        "```rust\nfn main() {}".to_string() + "\n```"
    );
    assert_eq!(strip_leading_label("\"production\"", LABELS), "\"production\"");
    assert_eq!(strip_leading_label("“你好”", LABELS), "“你好”");
    assert_eq!(strip_leading_label("he said \"hi\"", LABELS), "he said \"hi\"");
}

#[test]
fn an_answer_that_is_only_a_label_is_kept() {
    assert_eq!(strip_leading_label("译文：", LABELS), "译文：");
    assert_eq!(strip_leading_label("译文：   ", LABELS), "译文：");
}

#[test]
fn plain_text_survives_untouched() {
    assert_eq!(strip_leading_label("  hello  ", LABELS), "hello");
    assert_eq!(strip_leading_label("line one\nline two", LABELS), "line one\nline two");
    assert_eq!(strip_leading_label("", LABELS), "");
}

#[test]
fn empty_input_needs_no_model() {
    let (result, asked, _) = translate("   \n ", &llm(), Vec::new());
    let result = result.unwrap();
    assert_eq!(result.text, "");
    assert_eq!(result.transport, Transport::AlreadyTarget);
    assert!(asked.is_empty());
}

#[test]
fn simplified_chinese_is_left_alone_for_a_chinese_target() {
    let text = "打开设置面板并保存配置";
    let (result, _, _) = translate(text, &llm(), Vec::new());
    let result = result.unwrap();
    assert_eq!(result.text, text);
    assert_eq!(result.transport, Transport::AlreadyTarget);
}

#[test]
fn every_transport_has_its_own_label() {
    let labels = [
        Transport::AlreadyTarget.label(),
        Transport::Api { model: "gpt-4o-mini".into() }.label(),
        Transport::Api { model: "backup".into() }.label(),
    ];
    for label in &labels {
        assert!(!label.is_empty());
    }
    let mut unique = labels.to_vec();
    unique.sort_unstable();
    unique.dedup();
    assert_eq!(unique.len(), labels.len(), "transport labels must differ");
    assert_eq!(labels[0], "原文已是目标语言");
}

#[test]
fn traditional_chinese_still_gets_translated() {
    assert!(!already_target_language("開啟軟體設定", "简体中文"));
}

#[test]
fn english_is_not_mistaken_for_the_chinese_target() {
    assert!(!already_target_language("Open the settings panel", "简体中文"));
}

#[test]
fn english_target_recognises_english() {
    assert!(already_target_language("Open the settings panel", "english"));
    assert!(!already_target_language("打开设置面板", "english"));
}

#[test]
fn the_name_of_a_language_is_read_loosely() {
    assert!(already_target_language("Open the settings panel", "  EN_US "));
    assert!(already_target_language("打开设置面板", "ZH_Hans"));
    assert!(!reads_as_language("打开设置面板", "ZH_Hans"));
}

#[test]
fn a_text_needs_its_share_of_letters() {
    // Nine of twenty letters are enough for Chinese, eight are not.
    assert!(reads_as_language("一二三四五六七八九abcdefghijk", "中文"));
    assert!(!reads_as_language("一二三四五六七八abcdefghijkl", "中文"));
    // Four of five letters are enough for English.
    assert!(reads_as_language("abcdé", "en"));
    assert!(!reads_as_language("abcéé", "en"));
    assert!(!reads_as_language("一", "中文"));
    assert!(!reads_as_language("a", "en"));
}

#[test]
fn mixed_scripts_do_not_trigger_the_shortcut() {
    assert!(!already_target_language("設定パネルを開く", "简体中文"));
}

#[test]
fn an_unknown_target_never_shortcuts() {
    assert!(!already_target_language("打开设置面板", "français"));
}

#[test]
fn the_prompt_keeps_the_original_line_breaks() {
    let out = prompt("a\nb", "简体中文");
    assert!(out.ends_with("a\nb"));
    assert!(out.starts_with("翻译成简体中文"));
    assert_eq!(out, "翻译成简体中文，只输出译文，保留换行：\na\nb");
}

#[test]
fn the_configured_model_is_tried_first() {
    let order = model_candidates(&with("primary", "简体中文", &["backup"]));
    assert_eq!(order, vec!["primary", "backup"]);
    assert_eq!(order.first().map(String::as_str), Some("primary"));
}

#[test]
fn every_fallback_model_is_offered() {
    let llm = with("primary", "简体中文", &["a", "b"]);
    let order = model_candidates(&llm);
    for fallback in &llm.fallback_models {
        assert!(order.contains(fallback), "{fallback} is configured but would never be tried");
    }
}

#[test]
fn a_duplicated_model_is_only_tried_once() {
    assert_eq!(model_candidates(&with("a", "简体中文", &["a", "b", "a"])), vec!["a", "b"]);
}

#[test]
fn no_fallbacks_still_tries_the_primary_model() {
    assert_eq!(model_candidates(&with("primary", "简体中文", &["", "  "])), vec!["primary"]);
}

#[test]
fn the_prompt_reaches_the_endpoint_and_the_label_names_the_model() {
    let llm = with("gpt-4o-mini", "英文", &[]);
    let (result, asked, sent) =
        translate("打开设置面板", &llm, vec![reply(200, &choices("Open the settings panel"))]);
    let result = result.unwrap();
    assert_eq!(result.text, "Open the settings panel");
    assert_eq!(result.transport.label(), "API · gpt-4o-mini");
    assert_eq!(asked, vec!["gpt-4o-mini"]);
    assert!(sent.contains("翻译成英文"), "{sent}");
    assert!(sent.ends_with("打开设置面板"), "{sent}");
}

#[test]
fn an_upstream_refusal_moves_to_the_next_model() {
    let llm = with("primary", "简体中文", &["backup"]);
    let answers = vec![
        reply(429, r#"{"error":{"message":"rate limited"}}"#),
        reply(200, &choices("面板已翻译")),
    ];
    let (result, asked, _) = translate("Open the settings panel", &llm, answers);
    let result = result.unwrap();
    assert_eq!(result.text, "面板已翻译");
    assert_eq!(result.transport.label(), "API · backup");
    assert_eq!(asked, vec!["primary", "backup"]);
}

#[test]
fn a_transport_failure_stops_instead_of_retrying_every_model() {
    let llm = with("primary", "简体中文", &["backup"]);
    let answers = vec![Err(ApiError::Transport("closed".into()))];
    let (result, asked, _) = translate("Open the settings panel", &llm, answers);
    let err = result.unwrap_err();
    assert!(matches!(err, TranslateError::Failed(_)), "{err:?}");
    assert_eq!(asked.len(), 1, "the fallback must not be tried");
}

#[test]
fn the_first_refusal_is_the_one_reported() {
    let llm = with("primary", "简体中文", &["backup"]);
    let answers = vec![
        reply(401, r#"{"error":{"message":"Invalid API key"}}"#),
        reply(500, r#"{"error":{"message":"overloaded"}}"#),
    ];
    let (result, asked, _) = translate("Open the settings panel", &llm, answers);
    let err = result.unwrap_err();
    assert!(matches!(err, TranslateError::Upstream(_)), "{err:?}");
    let message = err.to_string();
    assert!(message.contains("primary"), "{message}");
    assert!(message.contains("Invalid API key"), "{message}");
    assert_eq!(asked.len(), 2);
}

#[test]
fn an_already_target_text_never_contacts_the_endpoint() {
    let (result, asked, _) = translate("打开设置面板", &llm(), Vec::new());
    assert_eq!(result.unwrap().transport, Transport::AlreadyTarget);
    assert!(asked.is_empty());
}

#[test]
fn a_missing_key_is_a_provisioning_error() {
    let refused = authorization(None, false).unwrap_err();
    let (result, _, _) = translate("Open the settings panel", &llm(), vec![Err(refused)]);
    let err = result.unwrap_err();
    assert!(matches!(err, TranslateError::NotFound(_)), "{err:?}");
    assert!(err.to_string().contains("密钥"), "{err:?}");
}

#[test]
fn an_empty_model_is_a_provisioning_error() {
    let (result, _, _) =
        translate("Open the settings panel", &with("   ", "简体中文", &[]), Vec::new());
    let err = result.unwrap_err();
    assert!(matches!(err, TranslateError::NotFound(_)), "{err:?}");
    assert_eq!(err.to_string(), "未配置翻译模型：请在设置面板填写 [llm].model");
}

#[test]
fn a_refusal_names_its_model() {
    let err = map_api_error(ApiError::Upstream("no".into()), "m1");
    assert_eq!(err.to_string(), "模型 m1 被上游拒绝：no");
    let cut = map_api_error(ApiError::Truncated("short".into()), "m1");
    assert!(matches!(cut, TranslateError::Failed(_)));
    assert_eq!(
        Inquiry::new().exhausted().to_string(),
        "没有可用的翻译模型，请检查 [llm].model"
    );
}

#[test]
fn plain_simplified_text_needs_no_translation() {
    assert!(reads_as_language("查看资料", "简体中文"));
    assert!(already_target_language("查看资料", "简体中文"));
    assert!(!reads_as_language("查看資料", "简体中文"));
}

#[test]
fn a_label_before_a_translation_is_removed() {
    for (answer, text) in [
        ("译文：hello", "hello"),
        ("  Translation:  hello\n", "hello"),
        ("hello 译文：", "hello 译文："),
        ("译文：", "译文："),
    ] {
        let answers = vec![Ok(answer.to_string())];
        let translation = translate("Open the panel", &with("m", "简体中文", &[]), answers).0.unwrap();
        assert_eq!(translation.text, text);
        assert_eq!(translation.transport, Transport::Api { model: "m".into() });
    }
}
