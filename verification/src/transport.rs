//! The HTTP seam that the client above runs on.
//!
//! A request comes down as text and goes out as bytes; the response goes back up the
//! same way. A session that has lapsed is renewed on the way, once: the client above has
//! no credential, so this is the only place where the recovery can happen.

use crate::cloud::NOT_LOGIN_EXCEPTION;
use crate::collections::{distinct_keys, entries_are_the_map, entry_map, TextMap};
use crate::encoding::{
    base64_decoded, base64_len, base64_text, decode_base64, encode_base64, stands_for,
};
use crate::error::{AppError, AppResult};
use crate::http::{
    canonical_reason, header_text, header_text_of, is_method, method_is_known, reason_phrase,
};
use crate::json::{json_document, json_get, json_i64, json_model, parse_json, Json};
use crate::text::{joined, lower_text, lowercased, same_text, texts};
use serde_json::Value;
use vstd::prelude::*;

verus! {

/// A request, as the client above makes it.
#[derive(Debug)]
pub struct FetchRequest {
    pub url: String,
    pub method: String,
    pub headers: TextMap,
    /// Base64, because a request body may be a zip and JSON has no bytes.
    pub body: Option<String>,
}

/// A response, as it is handed back.
#[derive(Debug)]
pub struct FetchResponse {
    pub status: u16,
    pub status_text: String,
    pub headers: TextMap,
    /// Kept apart from `headers`: a map cannot hold two of them, and a login can set
    /// several at once.
    pub set_cookie: Vec<String>,
    /// Base64, for the same reason as the request body.
    pub body: String,
}

/// A request that is ready to go out.
#[derive(Debug)]
pub struct Outgoing {
    pub method: String,
    pub url: String,
    pub headers: Vec<(String, String)>,
    pub body: Option<Vec<u8>>,
}

/// The error of a request that could not be sent.
pub fn send_error(detail: &str) -> (r: AppError)
    ensures
        r@ == "接続できません: "@ + detail@,
{
    AppError::other(joined("接続できません: ", detail))
}

/// The error of a response that could not be read to its end.
pub fn read_error(detail: &str) -> (r: AppError)
    ensures
        r@ == "応答を読み取れません: "@ + detail@,
{
    AppError::other(joined("応答を読み取れません: ", detail))
}

/// `out` is what the request asks to be sent: its method, its address, its headers, and
/// the bytes of its body, or no body where it has none.
pub open spec fn is_ready(out: Outgoing, request: FetchRequest) -> bool {
    &&& out.method == request.method
    &&& out.url == request.url
    &&& distinct_keys(out.headers@)
    &&& entry_map(out.headers@) == request.headers@
    &&& match request.body {
        Some(text) => out.body matches Some(bytes) && stands_for(text@, bytes@),
        None => out.body is None,
    }
}

/// Why a request cannot go out, if it cannot: its method is none, or its body is no
/// base64.
pub open spec fn request_fault(request: FetchRequest) -> Option<Seq<char>> {
    if !is_method(request.method@) {
        Some("不明なメソッド: "@ + request.method@)
    } else {
        match request.body {
            Some(text) => match base64_decoded(text@) {
                Ok(_) => None,
                Err(error) => Some("本文を復元できません: "@ + error),
            },
            None => None,
        }
    }
}

/// Makes a request ready to go out. An unknown method is refused rather than guessed,
/// and a body goes out as the bytes it was given.
pub fn prepare(request: &FetchRequest) -> (r: AppResult<Outgoing>)
    ensures
        match r {
            Ok(out) => request_fault(*request) is None && is_ready(out, *request),
            Err(error) => request_fault(*request) == Some(error@),
        },
{
    if !method_is_known(&request.method) {
        return Err(AppError::other(joined("不明なメソッド: ", &request.method)));
    }
    let body = match &request.body {
        Some(text) => match decode_base64(text) {
            Ok(bytes) => Some(bytes),
            Err(error) => {
                return Err(AppError::other(joined("本文を復元できません: ", &error)));
            },
        },
        None => None,
    };
    let entries = request.headers.entries();
    let mut headers: Vec<(String, String)> = Vec::new();
    for i in 0..entries.len()
        invariant
            headers@ == entries@.take(i as int),
    {
        headers.push((entries[i].0.clone(), entries[i].1.clone()));
        assert(entries@.take(i + 1) == entries@.take(i as int).push(entries@[i as int]));
    }
    assert(entries@.take(entries@.len() as int) == entries@);
    Ok(Outgoing { method: request.method.clone(), url: request.url.clone(), headers, body })
}

/// A header as it came: its name, and the bytes of its value.
pub type RawHeader = (String, Vec<u8>);

/// The header sets a cookie.
pub open spec fn sets_cookie(header: RawHeader) -> bool {
    lower_text(header.0@) == "set-cookie"@
}

/// The values of the headers that set a cookie, in order, as far as they are text.
pub open spec fn cookies_of(headers: Seq<RawHeader>) -> Seq<Seq<char>>
    decreases headers.len(),
{
    if headers.len() == 0 {
        Seq::empty()
    } else {
        let before = cookies_of(headers.drop_last());
        match header_text(headers.last().1@) {
            Some(text) => if sets_cookie(headers.last()) {
                before.push(text)
            } else {
                before
            },
            None => before,
        }
    }
}

/// The other headers by their names in lower case, as far as they are text; of two with
/// one name the later one counts.
pub open spec fn header_map(headers: Seq<RawHeader>) -> Map<Seq<char>, Seq<char>>
    decreases headers.len(),
{
    if headers.len() == 0 {
        Map::empty()
    } else {
        let before = header_map(headers.drop_last());
        match header_text(headers.last().1@) {
            Some(text) => if sets_cookie(headers.last()) {
                before
            } else {
                before.insert(lower_text(headers.last().0@), text)
            },
            None => before,
        }
    }
}

impl FetchResponse {
    /// The response with this status, these headers and this body, as it is handed back.
    pub fn assemble(status: u16, headers: &Vec<RawHeader>, body: &Vec<u8>) -> (r: FetchResponse)
        requires
            base64_len(body@.len()) <= isize::MAX,
        ensures
            r.status == status,
            r.status_text@ == (match reason_phrase(status) {
                Some(text) => text,
                None => Seq::empty(),
            }),
            r.headers@ == header_map(headers@),
            texts(r.set_cookie@) == cookies_of(headers@),
            r.body@ == base64_text(body@),
            stands_for(r.body@, body@),
    {
        let mut map = TextMap::new();
        let mut set_cookie: Vec<String> = Vec::new();
        for i in 0..headers.len()
            invariant
                map@ == header_map(headers@.take(i as int)),
                texts(set_cookie@) == cookies_of(headers@.take(i as int)),
        {
            assert(headers@.take(i + 1).drop_last() == headers@.take(i as int));
            if let Some(text) = header_text_of(&headers[i].1) {
                let name = lowercased(&headers[i].0);
                if same_text(&name, "set-cookie") {
                    assert(texts(set_cookie@.push(text)) == texts(set_cookie@).push(text@));
                    set_cookie.push(text);
                } else {
                    map.insert(name, text);
                }
            }
        }
        assert(headers@.take(headers@.len() as int) == headers@);
        FetchResponse {
            status,
            status_text: match canonical_reason(status) {
                Some(text) => text,
                None => String::new(),
            },
            headers: map,
            set_cookie,
            body: encode_base64(body),
        }
    }
}

/// The error code of an answer, in either envelope: nested under `data`, or at the top
/// level where it is not there.
pub open spec fn error_code(document: Json) -> Option<i64> {
    let nested = match document.member("data"@) {
        Some(data) => data.member("errorCode"@),
        None => None,
    };
    let code = match nested {
        Some(code) => Some(code),
        None => document.member("errorCode"@),
    };
    match code {
        Some(code) => code.integer(),
        None => None,
    }
}

/// The bytes are a document that says the session has lapsed.
pub open spec fn says_lapsed(body: Seq<u8>) -> bool {
    match json_document(body) {
        Some(document) => error_code(document) == Some(NOT_LOGIN_EXCEPTION),
        None => false,
    }
}

/// The response says that the session has lapsed.
pub open spec fn has_lapsed(response: FetchResponse) -> bool {
    match base64_decoded(response.body@) {
        Ok(body) => says_lapsed(body),
        Err(_) => false,
    }
}

/// Whether a document says that the session has lapsed.
pub fn document_says_not_logged_in(document: &Value) -> (r: bool)
    ensures
        r == (error_code(json_model(*document)) == Some(NOT_LOGIN_EXCEPTION)),
{
    let nested = match json_get(document, "data") {
        Some(data) => json_get(data, "errorCode"),
        None => None,
    };
    let code = match nested {
        Some(code) => Some(code),
        None => json_get(document, "errorCode"),
    };
    match code {
        Some(code) => match json_i64(code) {
            Some(number) => number == NOT_LOGIN_EXCEPTION,
            None => false,
        },
        None => false,
    }
}

/// Whether the server's answer is "your session has lapsed".
///
/// Read from the body, never the status: a signed-out request is answered with a status
/// that says only that something went wrong.
pub fn says_not_logged_in(response: &FetchResponse) -> (r: bool)
    ensures
        r == has_lapsed(*response),
{
    match decode_base64(&response.body) {
        Ok(bytes) => match parse_json(&bytes) {
            Some(document) => document_says_not_logged_in(&document),
            None => false,
        },
        Err(_) => false,
    }
}

/// Where an exchange stands: what it is waiting for.
#[derive(Debug)]
pub enum Exchange {
    /// The first answer.
    Asking,
    /// The session to be renewed; `first` is what was answered without it.
    Renewing { first: FetchResponse },
    /// The second answer.
    AskingAgain,
    /// Nothing; the exchange is over.
    Over,
}

/// What has been done.
#[derive(Debug)]
pub enum ExchangeEvent {
    /// The request went out, and this came back.
    Answered(AppResult<FetchResponse>),
    /// The session was renewed, or could not be.
    Renewed(bool),
}

/// What is to be done next.
#[derive(Debug)]
pub enum ExchangeAction {
    /// Send the request.
    Send,
    /// Renew the session.
    Renew,
    /// Hand this back.
    Finish(AppResult<FetchResponse>),
}

impl Exchange {
    /// Where an event takes the exchange, and what is to be done next; `None` where the
    /// exchange is not waiting for it.
    pub open spec fn answer(self, event: ExchangeEvent) -> Option<(Exchange, ExchangeAction)> {
        match (self, event) {
            (Exchange::Asking, ExchangeEvent::Answered(Ok(first))) => Some(
                if has_lapsed(first) {
                    (Exchange::Renewing { first }, ExchangeAction::Renew)
                } else {
                    (Exchange::Over, ExchangeAction::Finish(Ok(first)))
                },
            ),
            (Exchange::Asking, ExchangeEvent::Answered(Err(error))) => Some(
                (Exchange::Over, ExchangeAction::Finish(Err(error))),
            ),
            (Exchange::Renewing { first }, ExchangeEvent::Renewed(done)) => Some(
                if done {
                    (Exchange::AskingAgain, ExchangeAction::Send)
                } else {
                    (Exchange::Over, ExchangeAction::Finish(Ok(first)))
                },
            ),
            (Exchange::AskingAgain, ExchangeEvent::Answered(result)) => Some(
                (Exchange::Over, ExchangeAction::Finish(result)),
            ),
            _ => None,
        }
    }

    /// An exchange that has not begun: the first thing to do is to send the request.
    pub fn new() -> (r: Exchange)
        ensures
            r is Asking,
    {
        Exchange::Asking
    }

    /// Takes down what has been done, and says what is to be done next. There is no
    /// result where the exchange is not waiting for this.
    pub fn step(self, event: ExchangeEvent) -> (r: Option<(Exchange, ExchangeAction)>)
        ensures
            r == self.answer(event),
    {
        match (self, event) {
            (Exchange::Asking, ExchangeEvent::Answered(Ok(first))) => {
                if says_not_logged_in(&first) {
                    Some((Exchange::Renewing { first }, ExchangeAction::Renew))
                } else {
                    Some((Exchange::Over, ExchangeAction::Finish(Ok(first))))
                }
            },
            (Exchange::Asking, ExchangeEvent::Answered(Err(error))) => Some(
                (Exchange::Over, ExchangeAction::Finish(Err(error))),
            ),
            (Exchange::Renewing { first }, ExchangeEvent::Renewed(done)) => if done {
                Some((Exchange::AskingAgain, ExchangeAction::Send))
            } else {
                Some((Exchange::Over, ExchangeAction::Finish(Ok(first))))
            },
            (Exchange::AskingAgain, ExchangeEvent::Answered(result)) => Some(
                (Exchange::Over, ExchangeAction::Finish(result)),
            ),
            _ => None,
        }
    }

    /// Where a number of events, one after the other, take the exchange; `None` where
    /// it was not waiting for one of them.
    pub open spec fn after(self, events: Seq<ExchangeEvent>) -> Option<Exchange>
        decreases events.len(),
    {
        if events.len() == 0 {
            Some(self)
        } else {
            match self.after(events.drop_last()) {
                Some(exchange) => match exchange.answer(events.last()) {
                    Some((next, _)) => Some(next),
                    None => None,
                },
                None => None,
            }
        }
    }

    /// What is to be done once these events have happened.
    pub open spec fn action_after(self, events: Seq<ExchangeEvent>) -> Option<ExchangeAction> {
        if events.len() == 0 {
            Some(ExchangeAction::Send)
        } else {
            match self.after(events.drop_last()) {
                Some(exchange) => match exchange.answer(events.last()) {
                    Some((_, action)) => Some(action),
                    None => None,
                },
                None => None,
            }
        }
    }

    /// How often the request was sent in the course of these events.
    pub open spec fn sends(self, events: Seq<ExchangeEvent>) -> nat
        decreases events.len(),
    {
        (if self.action_after(events) == Some(ExchangeAction::Send) {
            1nat
        } else {
            0nat
        }) + (if events.len() == 0 {
            0
        } else {
            self.sends(events.drop_last())
        })
    }

    /// How often the session was renewed in the course of these events.
    pub open spec fn renewals(self, events: Seq<ExchangeEvent>) -> nat
        decreases events.len(),
    {
        (if self.action_after(events) == Some(ExchangeAction::Renew) {
            1nat
        } else {
            0nat
        }) + (if events.len() == 0 {
            0
        } else {
            self.renewals(events.drop_last())
        })
    }
}

/// Whether the session has lapsed is read from the body and from nothing else: neither
/// the status nor a header makes a difference.
pub proof fn only_the_body_tells_a_lapsed_session(a: FetchResponse, b: FetchResponse)
    requires
        a.body@ == b.body@,
    ensures
        has_lapsed(a) == has_lapsed(b),
{
}

/// A cookie is never handed back among the other headers.
pub proof fn cookies_stay_out_of_the_header_map(headers: Seq<RawHeader>)
    ensures
        !header_map(headers).contains_key("set-cookie"@),
    decreases headers.len(),
{
    if headers.len() > 0 {
        cookies_stay_out_of_the_header_map(headers.drop_last());
    }
}

/// The session is renewed at most once, and the request is sent at most twice, whatever
/// is answered.
pub proof fn an_exchange_renews_at_most_once(exchange: Exchange, events: Seq<ExchangeEvent>)
    requires
        exchange is Asking,
        exchange.after(events) is Some,
    ensures
        exchange.renewals(events) <= 1,
        exchange.sends(events) <= 2,
        events.len() <= 3,
{
    exchange_by_phase(exchange, events);
}

/// How much has been done, by where the exchange stands.
proof fn exchange_by_phase(exchange: Exchange, events: Seq<ExchangeEvent>)
    requires
        exchange is Asking,
        exchange.after(events) is Some,
    ensures
        match exchange.after(events)->0 {
            Exchange::Asking => events.len() == 0 && exchange.sends(events) == 1
                && exchange.renewals(events) == 0,
            Exchange::Renewing { .. } => events.len() == 1 && exchange.sends(events) == 1
                && exchange.renewals(events) == 1,
            Exchange::AskingAgain => events.len() == 2 && exchange.sends(events) == 2
                && exchange.renewals(events) == 1,
            Exchange::Over => events.len() <= 3 && exchange.sends(events) <= 2
                && exchange.renewals(events) <= 1,
        },
    decreases events.len(),
{
    if events.len() > 0 {
        exchange_by_phase(exchange, events.drop_last());
    }
}

/// A first answer that does not say the session has lapsed is handed back as it came.
pub proof fn any_other_answer_is_handed_back_as_it_came(
    exchange: Exchange,
    first: AppResult<FetchResponse>,
)
    requires
        exchange is Asking,
        first matches Ok(response) ==> !has_lapsed(response),
    ensures
        exchange.action_after(seq![ExchangeEvent::Answered(first)]) == Some(
            ExchangeAction::Finish(first),
        ),
{
    let events = seq![ExchangeEvent::Answered(first)];
    assert(events.drop_last() == Seq::<ExchangeEvent>::empty());
    assert(exchange.after(events.drop_last()) == Some(exchange));
}

/// After a lapsed session has been renewed, the second answer is handed back, whatever
/// it says; where it could not be renewed, the first one is.
pub proof fn a_lapsed_session_is_renewed_once(
    exchange: Exchange,
    first: FetchResponse,
    second: AppResult<FetchResponse>,
)
    requires
        exchange is Asking,
        has_lapsed(first),
    ensures
        exchange.action_after(
            seq![
                ExchangeEvent::Answered(Ok(first)),
                ExchangeEvent::Renewed(true),
                ExchangeEvent::Answered(second),
            ],
        ) == Some(ExchangeAction::Finish(second)),
        exchange.action_after(
            seq![ExchangeEvent::Answered(Ok(first)), ExchangeEvent::Renewed(false)],
        ) == Some(ExchangeAction::Finish(Ok(first))),
{
    let none = Seq::<ExchangeEvent>::empty();
    let one = seq![ExchangeEvent::Answered(Ok(first))];
    let refused = one.push(ExchangeEvent::Renewed(false));
    let two = one.push(ExchangeEvent::Renewed(true));
    let three = two.push(ExchangeEvent::Answered(second));
    assert(one.drop_last() == none);
    assert(two.drop_last() == one);
    assert(refused.drop_last() == one);
    assert(three.drop_last() == two);
    assert(exchange.after(none) == Some(exchange));
    assert(exchange.after(one) == Some(Exchange::Renewing { first }));
    assert(exchange.after(two) == Some(Exchange::AskingAgain));
    assert(refused == seq![ExchangeEvent::Answered(Ok(first)), ExchangeEvent::Renewed(false)]);
    assert(three == seq![
        ExchangeEvent::Answered(Ok(first)),
        ExchangeEvent::Renewed(true),
        ExchangeEvent::Answered(second),
    ]);
}

/// A request body goes out as the bytes it was given: whoever wrote the bytes down as
/// base64 has them sent as they were.
pub proof fn a_body_goes_out_as_it_was_given(
    out: Outgoing,
    request: FetchRequest,
    text: String,
    bytes: Seq<u8>,
)
    requires
        is_ready(out, request),
        request.body == Some(text),
        stands_for(text@, bytes),
    ensures
        out.body matches Some(sent) && sent@ == bytes,
{
}

/// What came is what is judged: a response says that the session has lapsed if and only
/// if the bytes it came with do.
pub proof fn what_came_is_what_is_judged(response: FetchResponse, body: Seq<u8>)
    requires
        stands_for(response.body@, body),
    ensures
        has_lapsed(response) == says_lapsed(body),
{
}

/// No cookie is lost: however many a response sets, each that is text is handed back.
pub proof fn no_cookie_is_lost(headers: Seq<RawHeader>, i: int, text: Seq<char>)
    requires
        0 <= i < headers.len(),
        sets_cookie(headers[i]),
        header_text(headers[i].1@) == Some(text),
    ensures
        cookies_of(headers).contains(text),
    decreases headers.len(),
{
    let front = headers.drop_last();
    let before = cookies_of(front);
    let all = cookies_of(headers);
    if i == headers.len() - 1 {
        assert(all[before.len() as int] == text);
    } else {
        assert(front[i] == headers[i]);
        no_cookie_is_lost(front, i, text);
        let k = choose|k: int| 0 <= k < before.len() && before[k] == text;
        assert(all[k] == text);
    }
}

/// Only the code 106 means that the session has lapsed. Where `data` has an `errorCode`, it
/// is that one which counts, whatever stands at the top level; where it has none, it is the
/// one at the top level. A code that is no integer is no such code.
pub proof fn only_one_code_means_a_lapsed_session(document: Json)
    ensures
        document.member("data"@) matches Some(data) ==> (data.member("errorCode"@) matches Some(
            code,
        ) ==> ((error_code(document) == Some(NOT_LOGIN_EXCEPTION)) <==> code == Json::Integer(
            106,
        ))),
        (document.member("data"@) matches Some(data) ==> data.member("errorCode"@) is None) ==> ((
        error_code(document) == Some(NOT_LOGIN_EXCEPTION)) <==> document.member("errorCode"@)
            == Some(Json::Integer(106))),
{
}

/// A body is judged as the document that it holds: it says that the session has lapsed if
/// and only if it is a document, and that document has the code 106 where the code stands.
pub proof fn a_body_is_judged_as_its_document(body: Seq<u8>)
    ensures
        json_document(body) is None ==> !says_lapsed(body),
        json_document(body) matches Some(document) ==> (says_lapsed(body) <==> match document.member(
            "data"@,
        ) {
            Some(data) => match data.member("errorCode"@) {
                Some(code) => code == Json::Integer(106),
                None => document.member("errorCode"@) == Some(Json::Integer(106)),
            },
            None => document.member("errorCode"@) == Some(Json::Integer(106)),
        }),
{
    if let Some(document) = json_document(body) {
        only_one_code_means_a_lapsed_session(document);
    }
}

/// A response is judged by the bytes that its body stands for; a body that stands for none
/// says nothing of the session.
pub proof fn a_response_is_judged_by_its_bytes(response: FetchResponse)
    ensures
        base64_decoded(response.body@) is Err ==> !has_lapsed(response),
        base64_decoded(response.body@) matches Ok(body) ==> (has_lapsed(response) <==> (
        json_document(body) matches Some(document) && (match document.member("data"@) {
            Some(data) => match data.member("errorCode"@) {
                Some(code) => code == Json::Integer(106),
                None => document.member("errorCode"@) == Some(Json::Integer(106)),
            },
            None => document.member("errorCode"@) == Some(Json::Integer(106)),
        }))),
{
    if let Ok(body) = base64_decoded(response.body@) {
        a_body_is_judged_as_its_document(body);
    }
}

/// What goes out is what was asked for: the method and the address as they were given, the
/// bytes that the body stands for, or no body where there is none, and each header once,
/// with its own value, and no other.
pub proof fn what_goes_out_is_what_was_asked_for(out: Outgoing, request: FetchRequest)
    requires
        is_ready(out, request),
    ensures
        out.method@ == request.method@,
        out.url@ == request.url@,
        request.body is None <==> out.body is None,
        request.body matches Some(text) ==> base64_decoded(text@) == Ok::<Seq<u8>, Seq<char>>(
            out.body->0@,
        ),
        forall|i: int, j: int|
            0 <= i < j < out.headers@.len() ==> (#[trigger] out.headers@[i]).0@ != (
            #[trigger] out.headers@[j]).0@,
        forall|i: int|
            0 <= i < out.headers@.len() ==> request.headers@.contains_key(
                (#[trigger] out.headers@[i]).0@,
            ) && request.headers@[out.headers@[i].0@] == out.headers@[i].1@,
        forall|name: Seq<char>| #[trigger]
            request.headers@.contains_key(name) ==> exists|i: int|
                0 <= i < out.headers@.len() && (#[trigger] out.headers@[i]).0@ == name,
{
    entries_are_the_map(out.headers@);
}

/// A request is refused if and only if its method is no method or its body stands for no
/// bytes, and is told which; the method is looked at first.
pub proof fn a_request_is_refused_for_a_reason(request: FetchRequest)
    ensures
        request_fault(request) is None <==> is_method(request.method@) && (
        request.body matches Some(text) ==> base64_decoded(text@) is Ok),
        !is_method(request.method@) ==> request_fault(request) == Some(
            "不明なメソッド: "@ + request.method@,
        ),
        is_method(request.method@) && request.body is Some && base64_decoded(
            request.body->0@,
        ) is Err ==> request_fault(request) == Some(
            "本文を復元できません: "@ + base64_decoded(request.body->0@)->Err_0,
        ),
{
}

/// The cookies that are handed back are the values of exactly those headers that are named
/// `set-cookie`, in whatever case, and are text, each once and in the order they came.
pub proof fn cookies_are_handed_back_in_order(headers: Seq<RawHeader>)
    ensures
        cookies_of(headers) == headers.filter(
            |h: RawHeader| lower_text(h.0@) == "set-cookie"@ && header_text(h.1@) is Some,
        ).map_values(|h: RawHeader| header_text(h.1@)->0),
    decreases headers.len(),
{
    reveal(Seq::filter);
    let kept = |h: RawHeader| lower_text(h.0@) == "set-cookie"@ && header_text(h.1@) is Some;
    let value = |h: RawHeader| header_text(h.1@)->0;
    if headers.len() == 0 {
        assert(headers.filter(kept).map_values(value) == Seq::<Seq<char>>::empty());
    } else {
        let front = headers.drop_last();
        cookies_are_handed_back_in_order(front);
        if kept(headers.last()) {
            assert(front.filter(kept).push(headers.last()).map_values(value) == front.filter(
                kept,
            ).map_values(value).push(value(headers.last())));
        }
    }
}

/// The header is handed back in the map: it is text, and its name in lower case is `name`,
/// which is not that of a cookie.
pub open spec fn names_header(header: RawHeader, name: Seq<char>) -> bool {
    lower_text(header.0@) == name && name != "set-cookie"@ && header_text(header.1@) is Some
}

/// Every other header that is text is handed back under its name in lower case, with the
/// value that came last under that name, and nothing else is.
pub proof fn headers_are_handed_back_by_name(headers: Seq<RawHeader>, name: Seq<char>)
    ensures
        header_map(headers).contains_key(name) <==> exists|i: int|
            0 <= i < headers.len() && names_header(#[trigger] headers[i], name),
        forall|i: int|
            0 <= i < headers.len() && names_header(#[trigger] headers[i], name) && (forall|j: int|
                i < j < headers.len() ==> !names_header(#[trigger] headers[j], name))
                ==> header_map(headers)[name] == header_text(headers[i].1@)->0,
    decreases headers.len(),
{
    if headers.len() > 0 {
        let front = headers.drop_last();
        let n = front.len() as int;
        headers_are_handed_back_by_name(front, name);
        assert(header_map(headers).contains_key(name) == (header_map(front).contains_key(name)
            || names_header(headers[n], name)));
        if header_map(front).contains_key(name) {
            let i = choose|i: int|
                0 <= i < front.len() && names_header(#[trigger] front[i], name);
            assert(names_header(headers[i], name));
        }
        if exists|i: int| 0 <= i < headers.len() && names_header(#[trigger] headers[i], name) {
            let i = choose|i: int|
                0 <= i < headers.len() && names_header(#[trigger] headers[i], name);
            if i < n {
                assert(names_header(front[i], name));
            }
        }
        assert forall|i: int|
            0 <= i < headers.len() && names_header(#[trigger] headers[i], name) && (forall|j: int|
                i < j < headers.len() ==> !names_header(#[trigger] headers[j], name)) implies
            header_map(headers)[name] == header_text(headers[i].1@)->0 by {
            if i < n {
                assert(!names_header(headers[n], name));
                assert(names_header(front[i], name));
                assert forall|j: int| i < j < front.len() implies !names_header(
                    #[trigger] front[j],
                    name,
                ) by {
                    assert(!names_header(headers[j], name));
                }
            }
        }
    }
}

/// A session that has lapsed is renewed before anything is sent again: what is done about
/// such a first answer is to renew, and what is done once that has worked is to send.
pub proof fn renewing_comes_before_sending_again(exchange: Exchange, first: FetchResponse)
    requires
        exchange is Asking,
        has_lapsed(first),
    ensures
        exchange.action_after(Seq::<ExchangeEvent>::empty()) == Some(ExchangeAction::Send),
        exchange.action_after(seq![ExchangeEvent::Answered(Ok(first))]) == Some(
            ExchangeAction::Renew,
        ),
        exchange.action_after(
            seq![ExchangeEvent::Answered(Ok(first)), ExchangeEvent::Renewed(true)],
        ) == Some(ExchangeAction::Send),
{
    let none = Seq::<ExchangeEvent>::empty();
    let one = seq![ExchangeEvent::Answered(Ok(first))];
    let two = seq![ExchangeEvent::Answered(Ok(first)), ExchangeEvent::Renewed(true)];
    assert(one.drop_last() == none);
    assert(two.drop_last() == one);
    assert(exchange.after(none) == Some(exchange));
    assert(exchange.after(one) == Some(Exchange::Renewing { first }));
}

/// An exchange waits for an answer after it has sent, for the renewal after it has asked
/// for one, and for nothing once it has handed something back.
pub proof fn an_exchange_waits_for_what_it_asked_for(exchange: Exchange, event: ExchangeEvent)
    ensures
        exchange.answer(event) is Some <==> match exchange {
            Exchange::Asking => event is Answered,
            Exchange::Renewing { .. } => event is Renewed,
            Exchange::AskingAgain => event is Answered,
            Exchange::Over => false,
        },
        exchange.answer(event) matches Some((next, action)) ==> match action {
            ExchangeAction::Send => next is AskingAgain,
            ExchangeAction::Renew => next is Renewing,
            ExchangeAction::Finish(_) => next is Over,
        },
{
}

/// What is handed back is an answer that came, as it came, and no other: the last one, or
/// the first where the session could not be renewed.
pub proof fn what_is_handed_back_came(
    exchange: Exchange,
    events: Seq<ExchangeEvent>,
    result: AppResult<FetchResponse>,
)
    requires
        exchange is Asking,
        exchange.action_after(events) == Some(ExchangeAction::Finish(result)),
    ensures
        events.last() == ExchangeEvent::Answered(result) || (events.len() == 2 && events.last()
            == ExchangeEvent::Renewed(false) && events[0] == ExchangeEvent::Answered(result)),
        events.len() > 1 ==> (events[0] matches ExchangeEvent::Answered(Ok(first)) && has_lapsed(
            first,
        )),
{
    let front = events.drop_last();
    exchange_by_phase(exchange, front);
    if front.len() > 0 {
        let less = front.drop_last();
        exchange_by_phase(exchange, less);
        if less.len() > 0 {
            exchange_by_phase(exchange, less.drop_last());
            assert(less.drop_last().len() == 0);
        }
    }
}

} // verus!
