//! The rules of an OpenAI-compatible endpoint: what is sent, how answers are read and how
//! refusals are reported.

use vstd::prelude::*;

use crate::json::{Json, field, first_of, parse, parsed, text_field, text_of};
use crate::text::{
    chars_of, clipped, decimal, decimal_of, distinct, distinct_of, is_blank, owned, string_of, trim,
    trim_is_a_part, trimmed, view_of, views,
};

verus! {

/// The most characters of a provider's explanation that are shown.
pub const MAX_DETAIL_CHARS: usize = 300;

/// Temperature of a translation, in tenths: a little freedom in wording.
pub const TRANSLATION_TEMPERATURE: u8 = 2;

/// Temperature of a transcription, in tenths: none.
pub const OCR_TEMPERATURE: u8 = 0;

/// Why a request gave no answer.
#[derive(Debug, Clone, PartialEq, Eq)]
pub enum ApiError {
    /// No key is configured and the endpoint is not local, so nothing was sent.
    MissingKey,
    /// There was no response.
    Transport(String),
    /// The endpoint answered and refused.
    Upstream(String),
    /// The endpoint answered with something else than documented.
    Protocol(String),
    /// The answer ends where the model ran out of room.
    Truncated(String),
}

impl ApiError {
    /// The message of the error.
    pub open spec fn message(self) -> Seq<char> {
        match self {
            ApiError::MissingKey => {
                "未配置 API 密钥：请在设置面板填写，或设置环境变量 VELLUM_API_KEY / OPENAI_API_KEY"@
            },
            ApiError::Transport(m) => m@,
            ApiError::Upstream(m) => m@,
            ApiError::Protocol(m) => m@,
            ApiError::Truncated(m) => m@,
        }
    }

    /// The message of the error.
    pub fn to_string(&self) -> (s: String)
        ensures
            s@ == self.message(),
    {
        match self {
            ApiError::MissingKey => owned(
                "未配置 API 密钥：请在设置面板填写，或设置环境变量 VELLUM_API_KEY / OPENAI_API_KEY",
            ),
            ApiError::Transport(m) => m.clone(),
            ApiError::Upstream(m) => m.clone(),
            ApiError::Protocol(m) => m.clone(),
            ApiError::Truncated(m) => m.clone(),
        }
    }
}

/// One answer of the endpoint, refusals included.
pub struct HttpResponse {
    pub status: u16,
    pub body: String,
}

/// A request for a completion. The temperature is in tenths.
pub struct ChatRequest {
    pub model: String,
    pub messages: Json,
    pub temperature_tenths: u8,
    pub timeout_s: u64,
}

/// An explanation as it is shown.
pub open spec fn shown_detail(s: Seq<char>) -> Seq<char> {
    clipped(trim(s), MAX_DETAIL_CHARS as int)
}

/// An explanation as it is shown: without white space around it, and cut after a few lines.
pub fn clip(text: &str) -> (out: String)
    ensures
        out@ == shown_detail(text@),
{
    let trimmed = trimmed(text);
    let v = chars_of(trimmed.as_str());
    if v.len() <= MAX_DETAIL_CHARS {
        return trimmed;
    }
    let mut out = string_of(v.as_slice(), 0, MAX_DETAIL_CHARS);
    out.push('…');
    out
}

/// The explanations that a refusal may carry, in the order in which they are looked for.
pub open spec fn explanation(payload: Json) -> Option<Seq<char>> {
    let nested = match field(payload, "error"@) {
        Some(e) => text_of(field(e, "message"@)),
        None => None,
    };
    if nested is Some {
        nested
    } else if text_of(field(payload, "error"@)) is Some {
        text_of(field(payload, "error"@))
    } else if text_of(field(payload, "message"@)) is Some {
        text_of(field(payload, "message"@))
    } else {
        text_of(field(payload, "detail"@))
    }
}

/// The provider's own words in a refusal, as they are shown.
pub open spec fn refusal_detail(payload: Json) -> Option<Seq<char>> {
    match explanation(payload) {
        Some(s) => if trim(s).len() > 0 {
            Some(shown_detail(trim(s)))
        } else {
            None
        },
        None => None,
    }
}

/// The provider's own words in a refusal: `error.message`, `error` itself, `message` or `detail`.
pub fn error_message(payload: &Json) -> (r: Option<String>)
    ensures
        match r {
            Some(s) => refusal_detail(*payload) == Some(s@),
            None => refusal_detail(*payload) is None,
        },
{
    let error = payload.get("error");
    let nested: Option<&String> = match error {
        Some(e) => text_field(e, "message"),
        None => None,
    };
    let found: Option<&String> = match nested {
        Some(s) => Some(s),
        None => match text_field(payload, "error") {
            Some(s) => Some(s),
            None => match text_field(payload, "message") {
                Some(s) => Some(s),
                None => text_field(payload, "detail"),
            },
        },
    };
    match found {
        Some(s) => {
            let words = trimmed(s.as_str());
            if chars_of(words.as_str()).len() > 0 {
                Some(clip(words.as_str()))
            } else {
                None
            }
        },
        None => None,
    }
}

/// The message for a refusal with the given status, explanation and body.
pub open spec fn refusal_text(
    status: u16,
    explained: Option<Seq<char>>,
    body: Seq<char>,
) -> Seq<char> {
    let detail = match explained {
        Some(d) => d,
        None => shown_detail(body),
    };
    "接口拒绝请求："@ + if detail.len() == 0 {
        "HTTP "@ + decimal(status as nat)
    } else {
        detail + "（HTTP "@ + decimal(status as nat) + "）"@
    }
}

/// Reports a refusal with the provider's own words, where it sent any, and the status.
pub fn refusal(status: u16, explained: Option<String>, body: &str) -> (e: ApiError)
    ensures
        e matches ApiError::Upstream(m) && m@ == refusal_text(
            status,
            view_of(explained),
            body@,
        ),
{
    let detail = match explained {
        Some(d) => d,
        None => clip(body),
    };
    let number = decimal_of(status as u64);
    let mut m = owned("接口拒绝请求：");
    if chars_of(detail.as_str()).len() == 0 {
        m.append("HTTP ");
        m.append(number.as_str());
        assert(m@ =~= "接口拒绝请求："@ + ("HTTP "@ + decimal(status as nat)));
    } else {
        m.append(detail.as_str());
        m.append("（HTTP ");
        m.append(number.as_str());
        m.append("）");
        assert(m@ =~= "接口拒绝请求："@ + (detail@ + "（HTTP "@ + decimal(status as nat)
            + "）"@));
    }
    ApiError::Upstream(m)
}

/// The explanation in the body of a refusal.
pub open spec fn explained_in(body: Seq<char>) -> Option<Seq<char>> {
    match parsed(body) {
        Some(payload) => refusal_detail(payload),
        None => None,
    }
}

/// Reports a refusal.
pub fn upstream(status: u16, body: &str) -> (e: ApiError)
    ensures
        e matches ApiError::Upstream(m) && m@ == refusal_text(status, explained_in(body@), body@),
{
    let explained = match parse(body) {
        Some(payload) => error_message(&payload),
        None => None,
    };
    refusal(status, explained, body)
}

/// Whether the endpoint accepted the request. Statuses of 200 to 299 do, those of 400 to 599
/// refuse, and any other is unexpected.
pub fn ensure_success(response: &HttpResponse) -> (r: Result<(), ApiError>)
    ensures
        match r {
            Ok(_) => 200 <= response.status <= 299,
            Err(ApiError::Upstream(m)) => 400 <= response.status <= 599 && m@ == refusal_text(
                response.status,
                explained_in(response.body@),
                response.body@,
            ),
            Err(ApiError::Protocol(m)) => !(200 <= response.status <= 299) && !(400
                <= response.status <= 599) && m@ == "接口返回了意外的 HTTP 状态 "@ + decimal(
                response.status as nat,
            ),
            Err(_) => false,
        },
{
    if response.status >= 200 && response.status <= 299 {
        return Ok(());
    }
    if response.status >= 400 && response.status <= 599 {
        return Err(upstream(response.status, response.body.as_str()));
    }
    let mut m = owned("接口返回了意外的 HTTP 状态 ");
    let number = decimal_of(response.status as u64);
    m.append(number.as_str());
    Err(ApiError::Protocol(m))
}

/// The texts of the parts of an answer, one after another.
pub open spec fn parts_text(parts: Seq<Json>) -> Seq<char>
    decreases parts.len(),
{
    if parts.len() == 0 {
        Seq::empty()
    } else {
        parts_text(parts.drop_last()) + match text_of(field(parts.last(), "text"@)) {
            Some(s) => s,
            None => Seq::empty(),
        }
    }
}

/// The text of an answer: a string, or parts with text.
pub open spec fn answer_text(content: Json) -> Option<Seq<char>> {
    match content {
        Json::Text(s) => Some(s@),
        Json::Array(parts) => if parts_text(parts@).len() > 0 {
            Some(parts_text(parts@))
        } else {
            None
        },
        _ => None,
    }
}

/// The text of an answer.
pub fn content_text(content: &Json) -> (r: Option<String>)
    ensures
        match r {
            Some(s) => answer_text(*content) == Some(s@),
            None => answer_text(*content) is None,
        },
{
    match content {
        Json::Text(s) => Some(s.clone()),
        Json::Array(parts) => {
            let mut joined = String::new();
            let mut i: usize = 0;
            assert(parts@.take(0) =~= Seq::<Json>::empty());
            while i < parts.len()
                invariant
                    i <= parts@.len(),
                    joined@ == parts_text(parts@.take(i as int)),
                decreases parts.len() - i,
            {
                let ghost next = parts@.take(i + 1);
                proof {
                    assert(next.drop_last() =~= parts@.take(i as int));
                    assert(next.last() == parts@[i as int]);
                }
                match text_field(&parts[i], "text") {
                    Some(s) => {
                        joined.append(s.as_str());
                    },
                    None => {
                        assert(parts_text(next) =~= joined@);
                    },
                }
                i = i + 1;
            }
            assert(parts@.take(parts@.len() as int) =~= parts@);
            if chars_of(joined.as_str()).len() > 0 {
                Some(joined)
            } else {
                None
            }
        },
        _ => None,
    }
}

/// The sorts of failure that an answer can show.
pub enum Fault {
    Refused,
    Malformed,
    CutShort,
}

/// What a completion says, in the order in which it is looked at: whether there is a choice at all,
/// whether it was cut short or withheld, and what it says.
pub open spec fn completion_of(payload: Json) -> Result<Seq<char>, (Fault, Seq<char>)> {
    match first_of(field(payload, "choices"@)) {
        None => Err((Fault::Malformed, "接口响应缺少 choices"@)),
        Some(choice) => {
            let reason = text_of(field(choice, "finish_reason"@));
            if reason == Some("length"@) {
                Err(
                    (
                        Fault::CutShort,
                        "输出达到上限而被截断：请改用输出上限更大的模型，或缩小选区后重试"@,
                    ),
                )
            } else if reason == Some("content_filter"@) {
                Err((Fault::Refused, "该内容被上游内容策略拦截，无法翻译或识别"@))
            } else {
                let content = match field(choice, "message"@) {
                    Some(message) => match field(message, "content"@) {
                        Some(c) => answer_text(c),
                        None => None,
                    },
                    None => None,
                };
                match content {
                    None => Err((Fault::Malformed, "接口响应缺少 choices[0].message.content"@)),
                    Some(s) => if trim(s).len() == 0 {
                        Err((Fault::Malformed, "模型没有返回任何文字"@))
                    } else {
                        Ok(trim(s))
                    },
                }
            }
        },
    }
}

/// The error reports the given fault and says `m`.
pub open spec fn is_error(e: ApiError, fault: Fault, m: Seq<char>) -> bool {
    match e {
        ApiError::Upstream(s) => fault is Refused && s@ == m,
        ApiError::Protocol(s) => fault is Malformed && s@ == m,
        ApiError::Truncated(s) => fault is CutShort && s@ == m,
        _ => false,
    }
}

/// Reads a completion.
pub fn read_completion(payload: &Json) -> (r: Result<String, ApiError>)
    ensures
        match completion_of(*payload) {
            Ok(text) => r matches Ok(s) && s@ == text,
            Err((fault, m)) => r matches Err(e) && is_error(e, fault, m),
        },
{
    let choice: &Json = match payload.get("choices") {
        Some(choices) => match choices.first() {
            Some(c) => c,
            None => {
                return Err(ApiError::Protocol(owned("接口响应缺少 choices")));
            },
        },
        None => {
            return Err(ApiError::Protocol(owned("接口响应缺少 choices")));
        },
    };
    let reason = text_field(choice, "finish_reason");
    match reason {
        Some(s) => {
            if crate::text::same(s.as_str(), "length") {
                return Err(
                    ApiError::Truncated(
                        owned(
                            "输出达到上限而被截断：请改用输出上限更大的模型，或缩小选区后重试",
                        ),
                    ),
                );
            }
            if crate::text::same(s.as_str(), "content_filter") {
                proof {
                    reveal_strlit("length");
                    reveal_strlit("content_filter");
                    assert("length"@.len() != "content_filter"@.len());
                }
                return Err(
                    ApiError::Upstream(owned("该内容被上游内容策略拦截，无法翻译或识别")),
                );
            }
        },
        None => {},
    }
    let content: Option<String> = match choice.get("message") {
        Some(message) => match message.get("content") {
            Some(c) => content_text(c),
            None => None,
        },
        None => None,
    };
    match content {
        Some(s) => {
            let text = trimmed(s.as_str());
            if chars_of(text.as_str()).len() == 0 {
                Err(ApiError::Protocol(owned("模型没有返回任何文字")))
            } else {
                Ok(text)
            }
        },
        None => Err(ApiError::Protocol(owned("接口响应缺少 choices[0].message.content"))),
    }
}

/// What a response to a request for a completion says.
pub open spec fn is_chat_result(response: HttpResponse, r: Result<String, ApiError>) -> bool {
    if !(200 <= response.status <= 299) {
        match r {
            Err(ApiError::Upstream(m)) => 400 <= response.status <= 599 && m@ == refusal_text(
                response.status,
                explained_in(response.body@),
                response.body@,
            ),
            Err(ApiError::Protocol(m)) => !(400 <= response.status <= 599) && m@
                == "接口返回了意外的 HTTP 状态 "@ + decimal(response.status as nat),
            _ => false,
        }
    } else {
        match parsed(response.body@) {
            None => r matches Err(e) && is_error(e, Fault::Malformed, "接口返回了非 JSON 响应"@),
            Some(payload) => match completion_of(payload) {
                Ok(text) => r matches Ok(s) && s@ == text,
                Err((fault, m)) => r matches Err(e) && is_error(e, fault, m),
            },
        }
    }
}

/// Reads the response to a request for a completion.
pub fn chat_result(response: &HttpResponse) -> (r: Result<String, ApiError>)
    ensures
        is_chat_result(*response, r),
{
    match ensure_success(response) {
        Err(e) => {
            return Err(e);
        },
        Ok(_) => {},
    }
    match parse(response.body.as_str()) {
        None => Err(ApiError::Protocol(owned("接口返回了非 JSON 响应"))),
        Some(payload) => read_completion(&payload),
    }
}

/// The ids of the listed models, as they stand in the list.
pub open spec fn raw_ids(items: Seq<Json>) -> Seq<Seq<char>>
    decreases items.len(),
{
    if items.len() == 0 {
        Seq::empty()
    } else {
        let before = raw_ids(items.drop_last());
        match text_of(field(items.last(), "id"@)) {
            Some(id) => before.push(id),
            None => before,
        }
    }
}

/// The list of models in an answer: under `data`, or the answer itself.
pub open spec fn model_list(payload: Json) -> Option<Seq<Json>> {
    match field(payload, "data"@) {
        Some(Json::Array(items)) => Some(items@),
        _ => match payload {
            Json::Array(items) => Some(items@),
            _ => None,
        },
    }
}

/// The ids of the models that an answer lists, each once and in the order of the provider.
pub fn model_ids(payload: &Json) -> (r: Result<Vec<String>, String>)
    ensures
        match model_list(*payload) {
            Some(items) => r matches Ok(ids) && views(ids@) == distinct(raw_ids(items)),
            None => r matches Err(m) && m@
                == "模型列表缺少 data 字段：请确认地址指向 OpenAI 兼容接口"@,
        },
{
    let listed: Option<&Vec<Json>> = match payload.get("data") {
        Some(data) => data.as_array(),
        None => None,
    };
    let items: &Vec<Json> = match listed {
        Some(items) => items,
        None => match payload.as_array() {
            Some(items) => items,
            None => {
                return Err(owned("模型列表缺少 data 字段：请确认地址指向 OpenAI 兼容接口"));
            },
        },
    };
    let mut raw: Vec<String> = Vec::new();
    let mut i: usize = 0;
    assert(items@.take(0) =~= Seq::<Json>::empty());
    while i < items.len()
        invariant
            i <= items@.len(),
            views(raw@) == raw_ids(items@.take(i as int)),
        decreases items.len() - i,
    {
        let ghost next = items@.take(i + 1);
        let ghost before = raw@;
        proof {
            assert(next.drop_last() =~= items@.take(i as int));
            assert(next.last() == items@[i as int]);
        }
        match text_field(&items[i], "id") {
            Some(id) => {
                raw.push(id.clone());
                assert(views(raw@) =~= views(before).push(id@));
            },
            None => {},
        }
        i = i + 1;
    }
    assert(items@.take(items@.len() as int) =~= items@);
    Ok(distinct_of(raw.as_slice()))
}

/// Reads the response to a request for the list of models.
pub fn probe_result(response: &HttpResponse) -> (r: Result<Vec<String>, String>)
    ensures
        if !(200 <= response.status <= 299) {
            r matches Err(m) && m@ == if 400 <= response.status <= 599 {
                refusal_text(response.status, explained_in(response.body@), response.body@)
            } else {
                "接口返回了意外的 HTTP 状态 "@ + decimal(response.status as nat)
            }
        } else {
            match parsed(response.body@) {
                None => r matches Err(m) && m@
                    == "模型列表不是 JSON：请确认地址指向 OpenAI 兼容接口"@,
                Some(payload) => match model_list(payload) {
                    Some(items) => r matches Ok(ids) && views(ids@) == distinct(raw_ids(items)),
                    None => r matches Err(m) && m@
                        == "模型列表缺少 data 字段：请确认地址指向 OpenAI 兼容接口"@,
                },
            }
        },
{
    match ensure_success(response) {
        Err(e) => {
            return Err(e.to_string());
        },
        Ok(_) => {},
    }
    match parse(response.body.as_str()) {
        None => Err(owned("模型列表不是 JSON：请确认地址指向 OpenAI 兼容接口")),
        Some(payload) => model_ids(&payload),
    }
}

/// The `Authorization` header: the key as a bearer token, nothing for a local endpoint without a
/// key. Another endpoint without a key is refused before anything is sent.
pub fn authorization(key: Option<String>, loopback: bool) -> (r: Result<Option<String>, ApiError>)
    ensures
        match key {
            Some(k) => r matches Ok(Some(header)) && header@ == "Bearer "@ + k@,
            None => if loopback {
                r matches Ok(None)
            } else {
                r matches Err(ApiError::MissingKey)
            },
        },
{
    match key {
        Some(k) => {
            let mut header = owned("Bearer ");
            header.append(k.as_str());
            Ok(Some(header))
        },
        None => if loopback {
            Ok(None)
        } else {
            Err(ApiError::MissingKey)
        },
    }
}

/// How a request failed before there was a response.
#[derive(Debug)]
pub enum TransportFailure {
    Timeout,
    HostNotFound,
    /// The connection failed, for the given reason.
    Io(String),
    Other(String),
}

/// The part of a message that names the proxy.
pub open spec fn via_text(proxy: Option<Seq<char>>) -> Seq<char> {
    match proxy {
        Some(p) => "（经代理 "@ + p + "）"@,
        None => Seq::empty(),
    }
}

/// The message for a failed connection.
pub open spec fn transport_text(
    host: Seq<char>,
    proxy: Option<Seq<char>>,
    failure: TransportFailure,
    seconds: nat,
) -> Seq<char> {
    match failure {
        TransportFailure::Timeout => "连接 "@ + host + " 超时（"@ + decimal(
            if seconds < 1 {
                1
            } else {
                seconds
            },
        ) + " 秒）"@ + via_text(proxy)
            + "：检查网络，或在设置面板/环境变量里配置代理"@,
        TransportFailure::HostNotFound => "无法解析主机 "@ + host
            + "：检查接口地址拼写与 DNS"@,
        TransportFailure::Io(reason) => "无法连接 "@ + host + via_text(proxy) + "："@ + reason@
            + "；若接口在墙外，请配置代理"@,
        TransportFailure::Other(reason) => "无法连接 "@ + host + via_text(proxy) + "："@
            + reason@,
    }
}

/// Reports a failed connection: the message names the host and the likely cause.
pub fn transport_error(
    host: &str,
    proxy: Option<String>,
    failure: &TransportFailure,
    seconds: u64,
) -> (e: ApiError)
    ensures
        e matches ApiError::Transport(m) && m@ == transport_text(
            host@,
            view_of(proxy),
            *failure,
            seconds as nat,
        ),
{
    let ghost route = view_of(proxy);
    let mut via = String::new();
    match proxy {
        Some(p) => {
            via.append("（经代理 ");
            via.append(p.as_str());
            via.append("）");
        },
        None => {},
    }
    assert(via@ =~= via_text(route));
    let mut m = String::new();
    match failure {
        TransportFailure::Timeout => {
            let number = decimal_of(
                if seconds < 1 {
                    1
                } else {
                    seconds
                },
            );
            m.append("连接 ");
            m.append(host);
            m.append(" 超时（");
            m.append(number.as_str());
            m.append(" 秒）");
            m.append(via.as_str());
            m.append("：检查网络，或在设置面板/环境变量里配置代理");
        },
        TransportFailure::HostNotFound => {
            m.append("无法解析主机 ");
            m.append(host);
            m.append("：检查接口地址拼写与 DNS");
        },
        TransportFailure::Io(reason) => {
            m.append("无法连接 ");
            m.append(host);
            m.append(via.as_str());
            m.append("：");
            m.append(reason.as_str());
            m.append("；若接口在墙外，请配置代理");
        },
        TransportFailure::Other(reason) => {
            m.append("无法连接 ");
            m.append(host);
            m.append(via.as_str());
            m.append("：");
            m.append(reason.as_str());
        },
    }
    assert(m@ =~= transport_text(host@, route, *failure, seconds as nat));
    ApiError::Transport(m)
}

/// Only an answer from 200 to 299 is a success. From 400 to 599 the interface has refused, and any
/// other answer is unexpected.
pub proof fn a_status_decides(response: &HttpResponse, r: Result<(), ApiError>)
    requires
        call_ensures(ensure_success, (response,), r),
    ensures
        r is Ok <==> 200 <= response.status < 300,
        (r matches Err(e) && e is Upstream) <==> 400 <= response.status < 600,
        (r matches Err(e) && e is Protocol) <==> !(200 <= response.status < 300) && !(400
            <= response.status < 600),
{
}

/// A chat fails with the status exactly as any answer does, and otherwise gives what the document
/// says. What it gives is not blank and has no white space around it.
pub proof fn a_chat_gives_text(
    response: &HttpResponse,
    r: Result<String, ApiError>,
    s: Result<(), ApiError>,
)
    requires
        call_ensures(chat_result, (response,), r),
        call_ensures(ensure_success, (response,), s),
    ensures
        r is Ok ==> s is Ok && parsed(response.body@) is Some,
        s matches Err(e) ==> (r matches Err(f) && (e is Upstream <==> f is Upstream) && (
        e is Protocol <==> f is Protocol) && e.message() == f.message()),
        s is Ok && parsed(response.body@) is None ==> (r matches Err(f) && f is Protocol),
        r matches Ok(text) ==> text@.len() > 0 && !is_blank(text@[0]) && !is_blank(text@.last()),
{
    if let Ok(text) = r {
        given_text_is_trimmed(parsed(response.body@)->0);
    }
}

proof fn given_text_is_trimmed(payload: Json)
    ensures
        completion_of(payload) matches Ok(text) ==> text.len() > 0 && !is_blank(text[0])
            && !is_blank(text.last()),
{
    if let Some(choice) = first_of(field(payload, "choices"@)) {
        let content = match field(choice, "message"@) {
            Some(message) => match field(message, "content"@) {
                Some(c) => answer_text(c),
                None => None,
            },
            None => None,
        };
        if let Some(s) = content {
            trim_is_a_part(s);
        }
    }
}

/// The first choice of a completion is what it says: its content if it ended well, an error if it was
/// cut at the limit.
pub proof fn the_first_choice_is_read(
    payload: &Json,
    r: Result<String, ApiError>,
    choices: &Json,
    choice: &Json,
    reason: Option<&String>,
    message: &Json,
    content: &Json,
    said: Option<String>,
)
    requires
        call_ensures(read_completion, (payload,), r),
        call_ensures(Json::get, (payload, "choices"), Some(choices)),
        call_ensures(Json::first, (choices,), Some(choice)),
        call_ensures(text_field, (choice, "finish_reason"), reason),
        call_ensures(Json::get, (choice, "message"), Some(message)),
        call_ensures(Json::get, (message, "content"), Some(content)),
        call_ensures(content_text, (content,), said),
    ensures
        reason matches Some(s) && s@ == "length"@ ==> (r matches Err(e) && e is Truncated),
        (reason is None || ((reason->0)@ != "length"@ && (reason->0)@ != "content_filter"@)) ==> {
            &&& said is None ==> (r matches Err(e) && e is Protocol)
            &&& said is Some && trim((said->0)@).len() == 0 ==> (r matches Err(e) && e is Protocol)
            &&& said is Some && trim((said->0)@).len() > 0 ==> (r matches Ok(s) && s@ == trim(
                (said->0)@,
            ))
        },
{
}

/// A filtered completion is a refusal.
pub proof fn a_filtered_completion_is_refused(
    payload: &Json,
    r: Result<String, ApiError>,
    choices: &Json,
    choice: &Json,
    reason: &String,
)
    requires
        call_ensures(read_completion, (payload,), r),
        call_ensures(Json::get, (payload, "choices"), Some(choices)),
        call_ensures(Json::first, (choices,), Some(choice)),
        call_ensures(text_field, (choice, "finish_reason"), Some(reason)),
        reason@ == "content_filter"@,
    ensures
        r matches Err(e) && e is Upstream,
{
    reveal_strlit("length");
    reveal_strlit("content_filter");
    assert("length"@.len() != "content_filter"@.len());
}

/// The text of a content in parts is the text of its parts, one after the other.
pub proof fn parts_are_put_together(
    a: Vec<Json>,
    part: Json,
    b: Vec<Json>,
    before: Option<String>,
    piece: &String,
    after: Option<String>,
)
    requires
        b@ == a@.push(part),
        call_ensures(content_text, (&Json::Array(a),), before),
        call_ensures(text_field, (&part, "text"), Some(piece)),
        call_ensures(content_text, (&Json::Array(b),), after),
    ensures
        before is Some ==> after is Some && (after->0)@ == (before->0)@ + piece@,
        before is None && piece@.len() > 0 ==> after is Some && (after->0)@ == piece@,
{
    assert(b@.drop_last() =~= a@);
    if before is None {
        assert(Seq::<char>::empty() + piece@ =~= piece@);
        assert(parts_text(a@) =~= Seq::empty());
    }
}

/// What is quoted of an answer is its start, without white space around it, and at most 301
/// characters long.
pub proof fn a_quoted_answer_is_its_start(text: &str, out: String)
    requires
        call_ensures(clip, (text,), out),
    ensures
        out@.len() <= 301,
        trim(text@).len() <= 300 ==> out@ == trim(text@),
        trim(text@).len() > 300 ==> out@.take(300) == trim(text@).take(300) && out@.last() == '…',
{
    if trim(text@).len() > 300 {
        assert(out@.take(300) =~= trim(text@).take(300));
    }
}

/// A key goes into the header as it is. Only a local interface does without one.
pub proof fn a_key_is_sent_as_it_is(
    key: Option<String>,
    loopback: bool,
    r: Result<Option<String>, ApiError>,
)
    requires
        call_ensures(authorization, (key, loopback), r),
    ensures
        key matches Some(k) ==> (r matches Ok(Some(h)) && h@.len() == 7 + k@.len() && h@.skip(7)
            == k@ && h@.take(7) == "Bearer "@),
        key is None && loopback ==> r matches Ok(None),
        key is None && !loopback ==> (r matches Err(e) && e is MissingKey),
{
    reveal_strlit("Bearer ");
    if let Some(k) = key {
        if let Ok(Some(h)) = r {
            assert(h@.skip(7) =~= k@);
            assert(h@.take(7) =~= "Bearer "@);
        }
    }
}

proof fn an_id_is_listed(items: Seq<Json>, i: int)
    requires
        0 <= i < items.len(),
        text_of(field(items[i], "id"@)) is Some,
    ensures
        raw_ids(items).contains(text_of(field(items[i], "id"@))->0),
    decreases items.len(),
{
    let front = items.drop_last();
    let id = text_of(field(items[i], "id"@))->0;
    if i < front.len() {
        an_id_is_listed(front, i);
        let k = choose|k: int| 0 <= k < raw_ids(front).len() && raw_ids(front)[k] == id;
        assert(raw_ids(items)[k] == id);
    } else {
        assert(raw_ids(items)[raw_ids(items).len() - 1] == id);
    }
}

/// The models that are listed are the identifiers of the list, each once and none blank; every
/// identifier that is not blank is there.
pub proof fn every_identifier_is_listed(
    payload: &Json,
    items: Vec<Json>,
    ids: Vec<String>,
    i: int,
    id: &String,
)
    requires
        call_ensures(model_ids, (payload,), Ok::<Vec<String>, String>(ids)),
        call_ensures(Json::get, (payload, "data"), Some(&Json::Array(items))),
        0 <= i < items@.len(),
        call_ensures(text_field, (&items@[i], "id"), Some(id)),
    ensures
        views(ids@).no_duplicates(),
        forall|k: int| 0 <= k < ids@.len() ==> (#[trigger] ids@[k])@.len() > 0,
        trim(id@).len() > 0 ==> views(ids@).contains(trim(id@)),
{
    let raw = raw_ids(items@);
    crate::text::distinct_pieces_differ(raw);
    an_id_is_listed(items@, i);
    let k = choose|k: int| 0 <= k < raw.len() && raw[k] == id@;
    if trim(id@).len() > 0 {
        crate::text::distinct_lists_every_piece(raw, k);
    }
    assert forall|k: int| 0 <= k < ids@.len() implies (#[trigger] ids@[k])@.len() > 0 by {
        assert(views(ids@)[k] == ids@[k]@);
    }
}

/// A message on a failed connection names the host that could not be reached.
pub proof fn a_failed_connection_names_the_host(
    host: &str,
    proxy: Option<String>,
    failure: &TransportFailure,
    seconds: u64,
    e: ApiError,
)
    requires
        call_ensures(transport_error, (host, proxy, failure, seconds), e),
    ensures
        e is Transport,
        exists|before: Seq<char>, after: Seq<char>|
            e.message() == #[trigger] (before + host@ + after),
{
    let m = e.message();
    let via = via_text(view_of(proxy));
    match *failure {
        TransportFailure::Timeout => {
            let after = " 超时（"@ + decimal(
                if seconds < 1 {
                    1
                } else {
                    seconds as nat
                },
            ) + " 秒）"@ + via + "：检查网络，或在设置面板/环境变量里配置代理"@;
            assert(m =~= "连接 "@ + host@ + after);
        },
        TransportFailure::HostNotFound => {
            assert(m =~= "无法解析主机 "@ + host@ + "：检查接口地址拼写与 DNS"@);
        },
        TransportFailure::Io(reason) => {
            assert(m =~= "无法连接 "@ + host@ + (via + "："@ + reason@
                + "；若接口在墙外，请配置代理"@));
        },
        TransportFailure::Other(reason) => {
            assert(m =~= "无法连接 "@ + host@ + (via + "："@ + reason@));
        },
    }
}

/// A refusal tells what the interface said, or else its answer, and the status either way.
pub proof fn a_refusal_tells_the_status(
    status: u16,
    explained: Option<String>,
    body: &str,
    e: ApiError,
)
    requires
        call_ensures(refusal, (status, explained, body), e),
    ensures
        e is Upstream,
        exists|before: Seq<char>, after: Seq<char>|
            e.message() == #[trigger] (before + decimal(status as nat) + after),
        explained matches Some(d) ==> exists|before: Seq<char>, after: Seq<char>|
            e.message() == #[trigger] (before + d@ + after),
{
    let m = e.message();
    let code = decimal(status as nat);
    let detail = match explained {
        Some(d) => d@,
        None => shown_detail(body@),
    };
    if detail.len() == 0 {
        assert(m =~= ("接口拒绝请求："@ + "HTTP "@) + code + Seq::<char>::empty());
        assert(m =~= "接口拒绝请求："@ + detail + ("HTTP "@ + code));
    } else {
        assert(m =~= ("接口拒绝请求："@ + detail + "（HTTP "@) + code + "）"@);
        assert(m =~= "接口拒绝请求："@ + detail + ("（HTTP "@ + code + "）"@));
    }
}

/// What is quoted of a refusal is not blank, and is the message of the error if there is one.
pub proof fn the_message_of_the_error_is_quoted(
    payload: &Json,
    r: Option<String>,
    error: &Json,
    message: &String,
)
    requires
        call_ensures(error_message, (payload,), r),
        call_ensures(Json::get, (payload, "error"), Some(error)),
        call_ensures(text_field, (error, "message"), Some(message)),
    ensures
        r is Some <==> trim(message@).len() > 0,
        r is Some && trim(message@).len() <= 300 ==> (r->0)@ == trim(message@),
{
    if trim(message@).len() > 0 {
        trimming_twice_changes_nothing(message@);
    }
}

proof fn trimming_twice_changes_nothing(s: Seq<char>)
    requires
        trim(s).len() > 0,
    ensures
        trim(trim(s)) == trim(s),
{
    let t = trim(s);
    trim_is_a_part(s);
    assert(!is_blank(t[0]) && !is_blank(t.last()));
    assert(crate::text::trim_start(t) == t);
}

/// A list of models fails with the status as any answer does, and otherwise is what the document
/// lists.
pub proof fn a_probe_lists_what_is_there(
    response: &HttpResponse,
    r: Result<Vec<String>, String>,
    s: Result<(), ApiError>,
)
    requires
        call_ensures(probe_result, (response,), r),
        call_ensures(ensure_success, (response,), s),
    ensures
        r is Ok ==> s is Ok && parsed(response.body@) is Some,
        s matches Err(e) ==> (r matches Err(m) && m@ == e.message()),
        r matches Ok(ids) ==> views(ids@).no_duplicates(),
{
    if let Ok(ids) = r {
        let items = model_list(parsed(response.body@)->0)->0;
        crate::text::distinct_pieces_differ(raw_ids(items));
    }
}

/// Without an error the message is quoted, and without that the detail.
pub proof fn the_message_goes_before_the_detail(
    payload: &Json,
    r: Option<String>,
    message: Option<&String>,
    detail: Option<&String>,
)
    requires
        call_ensures(error_message, (payload,), r),
        call_ensures(Json::get, (payload, "error"), None),
        call_ensures(text_field, (payload, "message"), message),
        call_ensures(text_field, (payload, "detail"), detail),
    ensures
        message matches Some(m) ==> (r is Some <==> trim(m@).len() > 0) && (r is Some && trim(
            m@,
        ).len() <= 300 ==> (r->0)@ == trim(m@)),
        message is None && detail is None ==> r is None,
        message is None ==> (detail matches Some(d) ==> (r is Some <==> trim(d@).len() > 0) && (
        r is Some && trim(d@).len() <= 300 ==> (r->0)@ == trim(d@))),
{
    if let Some(m) = message {
        if trim(m@).len() > 0 {
            trimming_twice_changes_nothing(m@);
        }
    }
    if let Some(d) = detail {
        if trim(d@).len() > 0 {
            trimming_twice_changes_nothing(d@);
        }
    }
}

} // verus!
