use vellum::api::{
    ApiError, ChatRequest, HttpResponse, MAX_DETAIL_CHARS, OCR_TEMPERATURE, TransportFailure,
    authorization, chat_result, clip, error_message, probe_result, transport_error,
};
use vellum::base64::base64_encode;
use vellum::config::ApiConfig;
use vellum::json::Json;
use vellum::llm::request_to;

fn reply(status: u16, body: &str) -> HttpResponse {
    HttpResponse { status, body: body.to_string() }
}

fn choices(text: &str) -> String {
    let quoted = text.replace('\n', "\\n");
    format!("{{\"choices\":[{{\"message\":{{\"content\":\"{quoted}\"}}}}]}}")
}

fn api() -> ApiConfig {
    ApiConfig {
        base_url: "http://localhost:1/v1".into(),
        api_key: "sk-test".into(),
        api_key_env: "K".into(),
        timeout_s: 5,
        proxy: String::new(),
    }
}

fn text_of(doc: &Json) -> &str {
    doc.as_str().expect("a text").as_str()
}

#[test]
fn a_length_finish_reason_is_not_a_result() {
    let body = r#"{"choices":[{"message":{"content":"Open the set"},"finish_reason":"length"}]}"#;
    let err = chat_result(&reply(200, body)).unwrap_err();
    assert!(matches!(err, ApiError::Truncated(_)), "{err:?}");
    assert!(err.to_string().contains("截断"), "{err:?}");
}

#[test]
fn a_content_filter_finish_reason_is_an_upstream_refusal() {
    let body = r#"{"choices":[{"message":{"content":""},"finish_reason":"content_filter"}]}"#;
    let err = chat_result(&reply(200, body)).unwrap_err();
    assert!(matches!(err, ApiError::Upstream(_)), "{err:?}");
    assert!(err.to_string().contains("内容策略"), "{err:?}");
}

#[test]
fn a_normal_completion_is_returned_untouched() {
    let body = r#"{"choices":[{"message":{"content":"hello"},"finish_reason":"stop"}]}"#;
    assert_eq!(chat_result(&reply(200, body)).unwrap(), "hello");
    assert_eq!(chat_result(&reply(200, &choices("hello"))).unwrap(), "hello");
}

#[test]
fn a_timeout_names_the_host_and_the_proxy_hint() {
    let error = transport_error("127.0.0.1", None, &TransportFailure::Timeout, 0);
    assert!(matches!(error, ApiError::Transport(_)), "{error:?}");
    let text = error.to_string();
    assert!(text.contains("127.0.0.1"), "host missing: {text}");
    assert!(text.contains("代理"), "proxy hint missing: {text}");
    assert!(!text.contains("global"), "raw text leaked: {text}");
    assert_eq!(text, "连接 127.0.0.1 超时（1 秒）：检查网络，或在设置面板/环境变量里配置代理");
}

#[test]
fn a_failed_connection_names_its_cause() {
    let missing = transport_error("a.b", None, &TransportFailure::HostNotFound, 5);
    assert_eq!(missing.to_string(), "无法解析主机 a.b：检查接口地址拼写与 DNS");
    let io = TransportFailure::Io("reset".into());
    let broken = transport_error("a.b", Some("http://p:1".into()), &io, 5);
    assert_eq!(
        broken.to_string(),
        "无法连接 a.b（经代理 http://p:1）：reset；若接口在墙外，请配置代理"
    );
    let other = transport_error("a.b", None, &TransportFailure::Other("odd".into()), 5);
    assert_eq!(other.to_string(), "无法连接 a.b：odd");
    let slow = transport_error("a.b", Some("p".into()), &TransportFailure::Timeout, 20);
    assert_eq!(
        slow.to_string(),
        "连接 a.b 超时（20 秒）（经代理 p）：检查网络，或在设置面板/环境变量里配置代理"
    );
}

#[test]
fn base64_matches_the_rfc4648_vectors() {
    let vectors = [
        ("", ""),
        ("f", "Zg=="),
        ("fo", "Zm8="),
        ("foo", "Zm9v"),
        ("foob", "Zm9vYg=="),
        ("fooba", "Zm9vYmE="),
        ("foobar", "Zm9vYmFy"),
        ("hello world", "aGVsbG8gd29ybGQ="),
    ];
    for (input, expected) in vectors {
        assert_eq!(base64_encode(input.as_bytes()), expected, "input {input:?}");
    }
}

#[test]
fn base64_handles_every_byte_value() {
    let every_byte: Vec<u8> = (0..=255u8).collect();
    let encoded = base64_encode(&every_byte);
    assert_eq!(encoded.len(), 344);
    assert!(encoded.ends_with("=="));
    assert!(
        encoded
            .chars()
            .all(|c| c.is_ascii_alphanumeric() || c == '+' || c == '/' || c == '='),
        "{encoded}"
    );
    assert_eq!(base64_encode(&[0x00]), "AA==");
    assert_eq!(base64_encode(&[0xff, 0x00, 0xff]), "/wD/");
    assert_eq!(base64_encode(&[0xfb, 0xff]), "+/8=");
}

#[test]
fn chat_posts_the_openai_shape_with_a_bearer_token() {
    assert_eq!(chat_result(&reply(200, &choices("  你好世界  "))).unwrap(), "你好世界");
    let header = authorization(Some("sk-test".into()), false).unwrap();
    assert_eq!(header.as_deref(), Some("Bearer sk-test"));
    let request: ChatRequest = request_to("gpt-4o-mini", "你好", &api());
    assert_eq!(request.model, "gpt-4o-mini");
    let first = request.messages.first().expect("a message");
    assert_eq!(text_of(first.get("role").unwrap()), "user");
    assert_eq!(text_of(first.get("content").unwrap()), "你好");
    assert_eq!(request.temperature_tenths, 2);
    assert_eq!(request.timeout_s, 5);
    assert_eq!(OCR_TEMPERATURE, 0);
}

#[test]
fn a_loopback_endpoint_needs_no_key() {
    assert_eq!(authorization(None, true).unwrap(), None);
    assert_eq!(chat_result(&reply(200, &choices("你好"))).unwrap(), "你好");
}

#[test]
fn a_remote_endpoint_without_a_key_is_refused_before_the_socket_opens() {
    let err = authorization(None, false).unwrap_err();
    assert_eq!(err, ApiError::MissingKey);
    assert!(err.to_string().contains("密钥"), "{err:?}");
}

#[test]
fn refusals_carry_the_server_message_and_the_status() {
    for status in [401u16, 403, 404, 422, 429, 500, 503] {
        let answer = reply(status, r#"{"error":{"message":"Invalid API key"}}"#);
        let err = chat_result(&answer).unwrap_err();
        let message = err.to_string();
        assert!(matches!(err, ApiError::Upstream(_)), "{status} -> {message}");
        assert!(message.contains("Invalid API key"), "{status} -> {message}");
        assert!(message.contains(&status.to_string()), "{status} -> {message}");
    }
}

#[test]
fn a_non_json_refusal_still_names_the_status() {
    let err = chat_result(&reply(500, "<html>bad gateway</html>")).unwrap_err();
    assert!(matches!(err, ApiError::Upstream(_)), "{err:?}");
    assert!(err.to_string().contains("500"), "{err:?}");
}

#[test]
fn an_unexpected_success_body_is_a_protocol_error() {
    for body in ["not json".to_string(), r#"{"choices":[]}"#.to_string(), choices("   ")] {
        let err = chat_result(&reply(200, &body)).unwrap_err();
        assert!(matches!(err, ApiError::Protocol(_)), "{err:?}");
    }
}

#[test]
fn content_parts_are_joined() {
    let body = r#"{"choices":[{"message":{"content":[{"type":"text","text":"第一行"},{"type":"text","text":"第二行"}]}}]}"#;
    assert_eq!(chat_result(&reply(200, body)).unwrap(), "第一行第二行");
}

#[test]
fn an_aborted_connection_is_a_transport_error() {
    let failure = TransportFailure::Io("connection closed".into());
    let err = transport_error("localhost", None, &failure, 5);
    assert!(matches!(err, ApiError::Transport(_)), "{err:?}");
}

#[test]
fn a_server_that_never_answers_times_out() {
    let err = transport_error("localhost", None, &TransportFailure::Timeout, 120);
    assert!(matches!(err, ApiError::Transport(_)), "{err:?}");
}

#[test]
fn probe_lists_model_ids() {
    let body = r#"{"object":"list","data":[{"id":"gpt-4o-mini"},{"id":" qwen2.5:7b "},{"id":"gpt-4o-mini"},{"id":7}]}"#;
    let ids = probe_result(&reply(200, body)).unwrap();
    assert_eq!(ids, vec!["gpt-4o-mini", "qwen2.5:7b"]);
}

#[test]
fn probe_reports_a_refusal_and_a_broken_body() {
    let refused = probe_result(&reply(401, r#"{"error":{"message":"Invalid API key"}}"#))
        .unwrap_err();
    assert!(
        refused.contains("Invalid API key") && refused.contains("401"),
        "{refused}"
    );
    assert!(probe_result(&reply(200, "not json")).unwrap_err().contains("JSON"));
    assert!(
        probe_result(&reply(200, r#"{"object":"list"}"#))
            .unwrap_err()
            .contains("data")
    );
}

#[test]
fn long_explanations_are_cut() {
    let long = "x".repeat(MAX_DETAIL_CHARS + 20);
    let shown = clip(&long);
    assert_eq!(shown.chars().count(), MAX_DETAIL_CHARS + 1);
    assert!(shown.ends_with('…'));
    assert_eq!(clip("  short  "), "short");
}

#[test]
fn an_explanation_may_be_a_plain_text() {
    let doc = Json::Object(vec![("error".to_string(), Json::Text("quota".to_string()))]);
    assert_eq!(error_message(&doc).as_deref(), Some("quota"));
    assert_eq!(error_message(&Json::Null), None);
}

#[test]
fn decoding_a_group_gives_back_the_bytes() {
    let alphabet: Vec<char> =
        "ABCDEFGHIJKLMNOPQRSTUVWXYZabcdefghijklmnopqrstuvwxyz0123456789+/".chars().collect();
    let bytes = [0x12u8, 0xab, 0xef];
    let text: Vec<u32> = base64_encode(&bytes)
        .chars()
        .map(|c| alphabet.iter().position(|a| *a == c).unwrap() as u32)
        .collect();
    let word = text.iter().fold(0u32, |sum, digit| sum * 64 + digit);
    assert_eq!(word.to_be_bytes()[1..], bytes);
}
