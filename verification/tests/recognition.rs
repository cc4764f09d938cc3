use vellum::api::{ApiError, HttpResponse, chat_result};
use vellum::base64::base64_encode;
use vellum::config::{LlmConfig, OCR_ENGINE_API, OCR_ENGINE_BUILTIN, OcrConfig};
use vellum::fusion::{TesseractResult, merge_language_results, parse_tsv, should_retry_layout};
use vellum::gray::Rgb8;
use vellum::json::Json;
use vellum::ocr::{
    OcrError, Search, Verdict, alternate_language_order, best_attempt, cleanup, drop_cjk_spaces,
    layout_psm, luma, results_agree, text_row_bands,
};
use vellum::number::parse_confidence;
use vellum::prep::CandidateKind;
use vellum::single::Single;
use vellum::text::blank;
use vellum::tsv::meaningful_count;
use vellum::vision::{
    settled_by_api, settled_locally, vision_answer, vision_messages, vision_request,
};

fn image(width: usize, height: usize) -> Rgb8 {
    Rgb8::new(width, height)
}

fn tsv_header() -> String {
    "level\tpage_num\tblock_num\tpar_num\tline_num\tword_num\tleft\ttop\twidth\theight\tconf\ttext\n"
        .to_string()
}

fn tsv_word(line: u32, left: i32, top: i32, width: i32, confidence: f32, text: &str) -> String {
    tsv_word_box(line, left, top, width, 30, confidence, text)
}

fn tsv_word_box(
    line: u32,
    left: i32,
    top: i32,
    width: i32,
    height: i32,
    confidence: f32,
    text: &str,
) -> String {
    format!("5\t1\t1\t1\t{line}\t1\t{left}\t{top}\t{width}\t{height}\t{confidence}\t{text}\n")
}

fn read(text: &str) -> Option<Single> {
    parse_confidence(&text.chars().collect::<Vec<char>>())
}

fn result(text: &str, confidence: f32, chars: u64, noise: u64) -> TesseractResult {
    TesseractResult {
        text: text.to_string(),
        confidence: read(&confidence.to_string()).expect("a number"),
        meaningful_chars: chars,
        trusted_chars: chars,
        low_confidence_chars: 0,
        isolated_noise_lines: noise,
        lines: Vec::new(),
    }
}

fn llm(model: &str) -> LlmConfig {
    LlmConfig {
        model: model.into(),
        target_lang: "简体中文".into(),
        fallback_models: Vec::new(),
        glossary: Vec::new(),
    }
}

fn ocr(engine: &str, api_model: &str) -> OcrConfig {
    OcrConfig {
        engine: engine.into(),
        langs: "chi_sim+eng".into(),
        preprocess: true,
        upscale: 3000,
        api_model: api_model.into(),
        api_timeout_s: 60,
    }
}

fn choices(text: &str) -> String {
    let quoted = text.replace('\n', "\\n");
    format!("{{\"choices\":[{{\"message\":{{\"content\":\"{quoted}\"}}}}]}}")
}

fn reply(status: u16, body: &str) -> Result<String, ApiError> {
    chat_result(&HttpResponse { status, body: body.to_string() })
}

fn text_at<'a>(doc: &'a Json, key: &str) -> &'a str {
    doc.get(key).expect("an entry").as_str().expect("a text").as_str()
}

#[test]
fn noisy_sparse_results_move_to_another_candidate_instead_of_block_retry() {
    assert!(!should_retry_layout(&result("noisy text", 55.0, 10, 4), 11));
    assert!(should_retry_layout(&result("faded text", 55.0, 10, 1), 11));
}

#[test]
fn noisy_block_results_still_try_sparse_layout() {
    assert!(should_retry_layout(&result("noisy text", 55.0, 10, 4), 6));
}

#[test]
fn independent_candidates_can_confirm_the_same_text() {
    let first = result("暗 淡 文字", 90.0, 4, 0);
    let second = result("暗淡文字", 82.0, 4, 0);
    assert!(results_agree(&first, &second));
    assert!(!results_agree(&first, &result("暗淡文宇", 82.0, 4, 0)));
}

#[test]
fn tsv_words_are_reassembled_with_lines_and_confidence() {
    let mut tsv = tsv_header();
    tsv.push_str(&tsv_word(1, 10, 10, 80, 90.0, "Vellum"));
    tsv.push_str(&tsv_word(1, 100, 10, 50, 80.0, "OCR"));
    tsv.push_str(&tsv_word(2, 10, 60, 120, 95.0, "文字识别"));
    let result = parse_tsv(&tsv, 6).expect("valid TSV");
    assert_eq!(result.text, "Vellum OCR\n文字识别");
    assert_eq!(result.meaningful_chars, 13);
    assert!(Single::whole(85).less(result.confidence));
    assert_eq!(result.lines.len(), 2);
}

#[test]
fn dominant_lines_drop_weak_color_edge_noise() {
    let mut tsv = tsv_header();
    tsv.push_str(&tsv_word(1, 100, 100, 420, 94.0, "Vellum OCR 2026"));
    tsv.push_str(&tsv_word(2, 104, 160, 410, 91.0, "暗淡彩色文字识别"));
    for (line, left, top, confidence, text) in [
        (3, 8, 5, 20.0, "x"),
        (4, 680, 35, 48.0, "noise"),
        (5, 20, 230, 32.0, "-"),
        (6, 610, 270, 54.0, "edge"),
    ] {
        tsv.push_str(&tsv_word(line, left, top, 45, confidence, text));
    }
    let result = parse_tsv(&tsv, 11).expect("valid TSV");
    assert_eq!(cleanup(&result.text), "Vellum OCR 2026\n暗淡彩色文字识别");
    assert_eq!(result.lines.len(), 2);
}

#[test]
fn dominant_block_keeps_a_faded_body_sized_line() {
    let mut tsv = tsv_header();
    tsv.push_str(&tsv_word(1, 100, 80, 420, 94.0, "Vellum OCR 2026"));
    tsv.push_str(&tsv_word(2, 104, 130, 410, 91.0, "清晰正文"));
    tsv.push_str(&tsv_word(3, 106, 180, 300, 18.0, "暗淡但真实的正文"));
    for (line, left, top, confidence, text) in [
        (4, 8, 5, 20.0, "x"),
        (5, 680, 35, 48.0, "noise"),
        (6, 20, 240, 32.0, "-"),
        (7, 610, 280, 54.0, "edge"),
    ] {
        tsv.push_str(&tsv_word(line, left, top, 45, confidence, text));
    }
    let result = parse_tsv(&tsv, 11).expect("valid TSV");
    assert_eq!(
        cleanup(&result.text),
        "Vellum OCR 2026\n清晰正文\n暗淡但真实的正文"
    );
}

#[test]
fn dominant_filter_keeps_a_second_text_column() {
    let mut tsv = tsv_header();
    tsv.push_str(&tsv_word(1, 20, 20, 220, 94.0, "left anchor one"));
    tsv.push_str(&tsv_word(2, 22, 70, 215, 91.0, "left anchor two"));
    for (line, top, text) in [
        (3, 20, "right body one"),
        (4, 70, "right body two"),
        (5, 120, "right body three"),
        (6, 170, "right body four"),
    ] {
        tsv.push_str(&tsv_word(line, 360, top, 205, 55.0, text));
    }
    let result = parse_tsv(&tsv, 11).expect("valid TSV");
    assert_eq!(result.lines.len(), 6);
    assert!(result.text.contains("right body four"));
}

#[test]
fn language_orders_are_fused_per_line() {
    let mut primary_tsv = tsv_header();
    primary_tsv.push_str(&tsv_word(1, 20, 20, 300, 96.0, "Vellum OCR 2026"));
    primary_tsv.push_str(&tsv_word(2, 20, 80, 300, 74.0, "随淡彩色文字识别"));
    let mut alternate_tsv = tsv_header();
    alternate_tsv.push_str(&tsv_word(1, 20, 20, 300, 82.0, "Vellurn OCR 2026"));
    alternate_tsv.push_str(&tsv_word(2, 20, 80, 300, 96.0, "暗淡彩色文字识别"));
    let primary = parse_tsv(&primary_tsv, 6).unwrap();
    let alternate = parse_tsv(&alternate_tsv, 6).unwrap();
    let merged = merge_language_results(&primary, &alternate);
    assert_eq!(cleanup(&merged.text), "Vellum OCR 2026\n暗淡彩色文字识别");
}

#[test]
fn language_fusion_matches_columns_by_geometry() {
    let mut primary_tsv = tsv_header();
    primary_tsv.push_str(&tsv_word_box(1, 10, 20, 160, 30, 60.0, "left-old"));
    primary_tsv.push_str(&tsv_word_box(2, 330, 20, 160, 30, 60.0, "right-old"));
    let mut alternate_tsv = tsv_header();
    alternate_tsv.push_str(&tsv_word_box(1, 330, 20, 160, 30, 99.0, "right-new"));
    alternate_tsv.push_str(&tsv_word_box(2, 10, 20, 160, 30, 99.0, "left-new"));
    let primary = parse_tsv(&primary_tsv, 6).unwrap();
    let alternate = parse_tsv(&alternate_tsv, 6).unwrap();
    let merged = merge_language_results(&primary, &alternate);
    assert_eq!(cleanup(&merged.text), "left-new\nright-new");
}

#[test]
fn language_fusion_does_not_reuse_one_alternate_line() {
    let mut primary_tsv = tsv_header();
    primary_tsv.push_str(&tsv_word_box(1, 20, 10, 240, 30, 60.0, "first"));
    primary_tsv.push_str(&tsv_word_box(2, 20, 40, 240, 30, 60.0, "second"));
    let mut alternate_tsv = tsv_header();
    alternate_tsv.push_str(&tsv_word_box(1, 20, 10, 240, 55, 99.0, "better"));
    let primary = parse_tsv(&primary_tsv, 6).unwrap();
    let alternate = parse_tsv(&alternate_tsv, 6).unwrap();
    let merged = merge_language_results(&primary, &alternate);
    assert_eq!(cleanup(&merged.text), "better\nsecond");
}

#[test]
fn a_secondary_language_order_is_only_created_when_useful() {
    assert_eq!(
        alternate_language_order("chi_sim+eng").as_deref(),
        Some("eng+chi_sim")
    );
    assert_eq!(alternate_language_order("eng"), None);
    assert_eq!(alternate_language_order(""), None);
}

#[test]
fn a_wide_short_crop_is_read_as_one_line() {
    assert_eq!(layout_psm(&image(400, 60)), 7);
}

fn white_crop(width: usize, height: usize) -> Rgb8 {
    let mut image = image(width, height);
    image.data.fill(255);
    image
}

fn paint_band(image: &mut Rgb8, top: usize, height: usize) {
    let row = image.width * 3;
    for y in top..(top + height).min(image.height) {
        image.data[y * row..(y + 1) * row].fill(0);
    }
}

#[test]
fn a_wide_short_crop_with_several_text_rows_is_a_block() {
    let mut image = white_crop(400, 60);
    paint_band(&mut image, 12, 11);
    paint_band(&mut image, 36, 11);
    assert_eq!(text_row_bands(&image), 2);
    assert_eq!(layout_psm(&image), 6);
}

#[test]
fn a_single_text_row_still_selects_the_single_line_mode() {
    let mut image = white_crop(400, 60);
    paint_band(&mut image, 22, 12);
    assert_eq!(text_row_bands(&image), 1);
    assert_eq!(layout_psm(&image), 7);
}

#[test]
fn thin_rules_do_not_count_as_text_rows() {
    let mut image = white_crop(400, 60);
    paint_band(&mut image, 0, 1);
    paint_band(&mut image, 59, 1);
    paint_band(&mut image, 24, 12);
    assert_eq!(text_row_bands(&image), 1);
    assert_eq!(layout_psm(&image), 7);
}

#[test]
fn a_blank_crop_has_no_text_rows() {
    assert_eq!(text_row_bands(&image(400, 60)), 0);
    assert_eq!(text_row_bands(&image(4, 4)), 0);
}

#[test]
fn a_very_wide_crop_is_read_as_sparse_text() {
    assert_eq!(layout_psm(&image(1200, 200)), 11);
}

#[test]
fn a_normal_crop_is_read_as_a_block() {
    assert_eq!(layout_psm(&image(600, 400)), 6);
    assert_eq!(layout_psm(&image(0, 0)), 6);
}

#[test]
fn spaces_between_cjk_glyphs_are_removed() {
    assert_eq!(cleanup("这 是 一 个 测 试"), "这是一个测试");
}

#[test]
fn spaces_between_latin_words_are_kept() {
    assert_eq!(cleanup("hello world"), "hello world");
    assert_eq!(cleanup("打开 config 文件"), "打开 config 文件");
}

#[test]
fn blank_edges_are_trimmed_but_inner_blanks_stay() {
    assert_eq!(cleanup("\n\nfirst\n\nsecond  \n\n"), "first\n\nsecond");
}

#[test]
fn quality_counts_only_meaningful_characters() {
    assert_eq!(meaningful_count("--- ... ---"), 0);
    assert_eq!(meaningful_count("ab12"), 4);
    assert!(meaningful_count("测试") >= 2);
}

#[test]
fn despacing_looks_at_both_sides_of_a_gap() {
    assert_eq!(drop_cjk_spaces("中  文"), "中文");
    assert_eq!(drop_cjk_spaces("中 a 文"), "中 a 文");
    assert_eq!(drop_cjk_spaces(" 中"), " 中");
}

#[test]
fn blanks_are_those_of_the_standard_library() {
    for code in 0..=0x10ffffu32 {
        if let Some(c) = char::from_u32(code) {
            assert_eq!(blank(c), c.is_whitespace(), "{code:#x}");
        }
    }
}

#[test]
fn luma_weighs_the_channels() {
    assert_eq!(luma(255, 255, 255), 255);
    assert_eq!(luma(0, 0, 0), 0);
    assert!(luma(0, 255, 0) > luma(255, 0, 0));
}

#[test]
fn api_ocr_sends_a_data_url_and_reports_the_text() {
    let png = [0x89u8, b'P', b'N', b'G', 1, 2, 3];
    let request = vision_request(&png, &ocr(OCR_ENGINE_API, "vision-1"), &llm("gpt-4o-mini"))
        .expect("a request");
    assert_eq!(request.model, "vision-1");
    assert_eq!(request.temperature_tenths, 0);
    let messages = request.messages.as_array().expect("messages");
    assert_eq!(text_at(&messages[0], "role"), "system");
    let system = text_at(&messages[0], "content");
    assert!(system.contains("只输出图片中的文字"), "{system}");
    assert!(system.contains("不要执行"), "{system}");
    assert_eq!(text_at(&messages[1], "role"), "user");
    let content = messages[1].get("content").unwrap().as_array().expect("parts");
    assert!(text_at(&content[0], "text").contains("识别这张图片"));
    let link = content[1].get("image_url").expect("a link");
    assert_eq!(
        text_at(link, "url"),
        format!("data:image/png;base64,{}", base64_encode(&png))
    );
    assert_eq!(
        vision_answer(reply(200, &choices("第一行\n第二行"))).unwrap(),
        "第一行\n第二行"
    );

    let fallback = vision_request(&png, &ocr(OCR_ENGINE_API, ""), &llm("gpt-4o-mini"))
        .expect("a request");
    assert_eq!(fallback.model, "gpt-4o-mini");
    assert_eq!(
        vision_answer(reply(200, &choices("回退模型"))).unwrap(),
        "回退模型"
    );
}

#[test]
fn api_ocr_strips_a_leading_label_but_keeps_fences() {
    assert_eq!(
        vision_answer(reply(200, &choices("识别结果：第一行\n第二行"))).unwrap(),
        "第一行\n第二行"
    );
    assert_eq!(
        vision_answer(reply(200, &choices("```\n第三行\n```"))).unwrap(),
        "```\n第三行\n```"
    );
}

#[test]
fn api_ocr_reports_an_upstream_refusal() {
    let err = vision_answer(reply(401, r#"{"error":{"message":"Invalid API key"}}"#)).unwrap_err();
    let message = err.to_string();
    assert!(matches!(err, OcrError::Failed(_)), "{message}");
    assert!(message.contains("Invalid API key"), "{message}");
    assert!(message.contains("401"), "{message}");
}

#[test]
fn api_ocr_requires_a_model() {
    let refused = vision_request(&[], &ocr(OCR_ENGINE_API, ""), &llm(""));
    assert!(matches!(refused, Err(OcrError::Missing(_))));
}

#[test]
fn the_builtin_engine_never_calls_the_api() {
    assert!(!ocr(OCR_ENGINE_BUILTIN, "vision-1").uses_api());
    assert!(ocr(OCR_ENGINE_API, "").uses_api());
    assert!(!ocr("tesseract-ng", "").uses_api());
}

#[test]
fn a_truncated_api_answer_does_not_become_the_result() {
    let body = r#"{"choices":[{"message":{"content":"第一行"},"finish_reason":"length"}]}"#;
    assert!(settled_by_api(vision_answer(reply(200, body))).is_none());
    let local = settled_locally(Ok("本地".into())).unwrap();
    assert_eq!(local.engine, OCR_ENGINE_BUILTIN);
    assert_ne!(local.text, "第一行");
}

#[test]
fn an_api_failure_falls_back_to_the_local_engine() {
    let answer = vision_answer(reply(500, r#"{"error":{"message":"boom"}}"#));
    assert!(settled_by_api(answer).is_none());
    assert_eq!(settled_locally(Ok("x".into())).unwrap().engine, OCR_ENGINE_BUILTIN);
    let err = settled_locally(Err(OcrError::Missing("tesseract".into()))).unwrap_err();
    assert!(err.to_string().contains("tesseract"));
}

#[test]
fn the_engine_of_an_api_answer_is_named() {
    let found = settled_by_api(vision_answer(reply(200, &choices("文字")))).expect("settled");
    assert_eq!(found.engine, OCR_ENGINE_API);
    assert_eq!(found.text, "文字");
    let empty = vision_answer(Ok("  \n ".into())).unwrap_err();
    assert!(matches!(empty, OcrError::Empty(_)));
    assert_eq!(empty.to_string(), "API OCR 未返回文字");
    let keyless = vision_answer(Err(ApiError::MissingKey)).unwrap_err();
    assert!(matches!(keyless, OcrError::Missing(_)));
    assert!(vision_messages(&[]).as_array().is_some());
}

#[test]
fn a_search_keeps_the_best_recognition() {
    let mut search = Search::new(&vec![CandidateKind::Baseline]);
    let mut tsv = tsv_header();
    tsv.push_str(&tsv_word(1, 10, 10, 80, 95.0, "Vellum"));
    let found = parse_tsv(&tsv, 6).unwrap();
    let attempt = best_attempt(CandidateKind::Baseline, found, None, None);
    assert_eq!(search.settle(CandidateKind::Baseline, attempt), Verdict::Stop);
    assert_eq!(search.finish(false).unwrap(), "Vellum");
}

#[test]
fn a_search_without_text_reports_why() {
    let mut search = Search::new(&vec![CandidateKind::Baseline]);
    search.fail(OcrError::Failed("first".into()));
    search.fail(OcrError::Failed("second".into()));
    assert_eq!(search.finish(false).unwrap_err().to_string(), "first");
    let late = Search::new(&vec![CandidateKind::Baseline]).finish(true).unwrap_err();
    assert!(matches!(late, OcrError::Timeout(_)), "{late:?}");
    let nothing = Search::new(&vec![CandidateKind::Baseline]).finish(false).unwrap_err();
    assert!(matches!(nothing, OcrError::Empty(_)), "{nothing:?}");
}

#[test]
fn confidences_are_decimal_numbers() {
    let half = Some(Single::fraction(193, 2));
    for text in ["96.5", "9.65e1", "965E-1", "+96.50"] {
        assert_eq!(read(text), half, "{text}");
    }
    assert_eq!(read("5."), Some(Single::whole(5)));
    assert_eq!(read(".5"), Some(Single::fraction(1, 2)));
    assert_eq!(read("123456789"), Some(Single::whole(123_456_789)));
    for text in [
        "-1",
        "-inf",
        "NaN",
        "-nan",
        "0e99999999999999999999999999999999999999999",
        "1e-99999999999999999999999999999999999999999",
    ] {
        assert_eq!(read(text), Some(Single::zero()), "{text}");
    }
    for text in ["Infinity", "inf", "1e99999999999999999999999999999999999999999", "1e39"] {
        assert_eq!(read(text), Some(Single::infinite()), "{text}");
    }
    for text in ["", "+", ".", "e5", "1e", "1e+", "1.2.3", "1,5", "infinite", "0x10"] {
        assert_eq!(read(text), None, "{text}");
        assert_eq!(text.parse::<f32>().ok(), None, "{text}");
    }
}

#[test]
fn a_missing_recogniser_ends_the_search() {
    let mut search = Search::new(&vec![CandidateKind::Baseline]);
    assert_eq!(search.fail(OcrError::Failed("first".into())), Verdict::Continue);
    search.settle(CandidateKind::Baseline, result("text", 90.0, 4, 0));
    assert_eq!(search.fail(OcrError::Missing("install it".into())), Verdict::Stop);
    assert!(matches!(search.finish(false), Err(OcrError::Missing(m)) if m == "install it"));
}

#[test]
fn shown_text_has_no_ragged_ends() {
    let shown = cleanup(" \n\n 译 文  \t\n\n  word two \n \n");
    assert_eq!(shown, "译文\n\n  word two");
    assert!(shown.lines().all(|line| line == line.trim_end()));
}

#[test]
fn a_confidence_that_rounds_to_the_limit_ends_the_search() {
    for (confidence, verdict) in [
        ("87.999999", Verdict::Stop),
        ("88", Verdict::Stop),
        ("87.99999", Verdict::Continue),
    ] {
        let word = format!("5\t1\t1\t1\t1\t1\t0\t0\t50\t20\t{confidence}\tVellum\n");
        let table = tsv_header() + &word;
        let attempt = parse_tsv(&table, 6).expect("valid TSV");
        let mut search = Search::new(&vec![CandidateKind::Baseline]);
        assert_eq!(search.settle(CandidateKind::Baseline, attempt), verdict, "{confidence}");
    }
}
