use base64::Engine as _;
use metamoji::cloud::NOT_LOGIN_EXCEPTION;
use metamoji::collections::TextMap;
use metamoji::error::{AppError, AppResult};
use metamoji::http::header_text_of;
use metamoji::transport::{
    document_says_not_logged_in, prepare, read_error, says_not_logged_in, send_error, Exchange,
    ExchangeAction, ExchangeEvent, FetchRequest, FetchResponse, RawHeader,
};

/// A lapsed session, verbatim from a live signed-out request.
const LAPSED: &str =
    r#"{"name":"NotLoginException","message":"It doesn't log it in.","data":{"errorCode":106}}"#;

fn get(url: &str) -> FetchRequest {
    FetchRequest {
        url: url.to_string(),
        method: "GET".into(),
        headers: TextMap::new(),
        body: None,
    }
}

fn decode(body: &str) -> String {
    String::from_utf8(
        base64::engine::general_purpose::STANDARD
            .decode(body)
            .expect("base64"),
    )
    .expect("utf-8")
}

fn header(name: &str, value: &str) -> RawHeader {
    (name.to_string(), value.as_bytes().to_vec())
}

/// What a stub server hands back.
fn answer(status: u16, body: &str) -> FetchResponse {
    FetchResponse::assemble(
        status,
        &vec![
            header("content-type", "application/json"),
            header("set-cookie", "JSESSIONID=abc123; Path=/"),
        ],
        &body.as_bytes().to_vec(),
    )
}

/// Runs an exchange against these answers; the session can be renewed or not.
fn fetch(
    answers: Vec<AppResult<FetchResponse>>,
    renewable: bool,
) -> (AppResult<FetchResponse>, Vec<&'static str>) {
    let mut answers = answers.into_iter();
    let mut log = vec!["send"];
    let mut exchange = Exchange::new();
    let mut event = ExchangeEvent::Answered(answers.next().expect("first answer"));
    loop {
        let (next, action) = exchange.step(event).expect("expected");
        exchange = next;
        event = match action {
            ExchangeAction::Send => {
                log.push("send");
                ExchangeEvent::Answered(answers.next().expect("second answer"))
            }
            ExchangeAction::Renew => {
                log.push("renew");
                ExchangeEvent::Renewed(renewable)
            }
            ExchangeAction::Finish(result) => {
                assert!(exchange.step(ExchangeEvent::Renewed(true)).is_none());
                return (result, log);
            }
        };
    }
}

#[test]
fn hands_back_the_status_headers_and_body_as_they_came() {
    let (response, _) = fetch(
        vec![Ok(answer(200, r#"{"serverURL":"https://mps101/"}"#))],
        true,
    );
    let response = response.expect("fetch");

    assert_eq!(response.status, 200);
    assert_eq!(response.status_text, "OK");
    assert_eq!(
        response.headers.get("content-type").unwrap(),
        "application/json"
    );
    assert_eq!(decode(&response.body), r#"{"serverURL":"https://mps101/"}"#);
}

#[test]
fn keeps_set_cookie_out_of_the_header_map() {
    let response = answer(200, "{}");

    assert_eq!(response.set_cookie.len(), 1);
    assert!(response.set_cookie[0].contains("JSESSIONID=abc123"));
    assert!(!response.headers.contains_key("set-cookie"));
}

#[test]
fn every_cookie_is_kept_whatever_the_case_of_its_name() {
    let response = FetchResponse::assemble(
        204,
        &vec![
            header("Set-Cookie", "a=1"),
            header("X-DM-Token", "first"),
            header("SET-COOKIE", "b=2"),
            header("x-dm-token", "second"),
            ("x-bytes".to_string(), vec![0xe3, 0x81, 0x82]),
            ("set-cookie".to_string(), vec![b'c', 0x7f]),
        ],
        &vec![],
    );
    assert_eq!(
        response.set_cookie,
        vec!["a=1".to_string(), "b=2".to_string()]
    );
    assert_eq!(response.headers.get("x-dm-token").unwrap(), "second");
    assert!(!response.headers.contains_key("X-DM-Token"));
    assert!(!response.headers.contains_key("x-bytes"));
    assert_eq!(response.headers.entries().len(), 1);
    assert_eq!(response.status_text, "No Content");
    assert_eq!(response.body, "");
}

#[test]
fn a_status_without_a_phrase_has_no_text() {
    assert_eq!(answer(599, "").status_text, "");
    assert_eq!(answer(7, "").status_text, "");
    assert_eq!(answer(418, "").status_text, "I'm a teapot");
}

#[test]
fn a_header_is_text_where_every_byte_is_visible() {
    assert_eq!(
        header_text_of(&b"a\tb ~".to_vec()),
        Some("a\tb ~".to_string())
    );
    assert_eq!(header_text_of(&vec![]), Some(String::new()));
    assert_eq!(header_text_of(&vec![127]), None);
    assert_eq!(header_text_of(&vec![31]), None);
    assert_eq!(header_text_of(&vec![128]), None);
}

#[test]
fn a_request_body_goes_out_as_the_bytes_it_was_given() {
    let payload = br#"{"userId":"1","password":null,"qwd":null}"#;
    let mut headers = TextMap::new();
    headers.insert(
        "content-type".to_string(),
        "application/json; charset=utf-8".to_string(),
    );
    let seen = prepare(&FetchRequest {
        url: "http://127.0.0.1:1/rest/users/login".to_string(),
        method: "POST".into(),
        headers,
        body: Some(base64::engine::general_purpose::STANDARD.encode(payload)),
    })
    .expect("request");

    assert_eq!(seen.method, "POST");
    assert_eq!(seen.url, "http://127.0.0.1:1/rest/users/login");
    assert_eq!(seen.body.unwrap(), payload.to_vec());
    assert_eq!(
        seen.headers,
        vec![(
            "content-type".to_string(),
            "application/json; charset=utf-8".to_string()
        )]
    );
}

#[test]
fn a_get_with_no_body_sends_none() {
    let seen = prepare(&get("http://127.0.0.1:1/drives/entry")).expect("request");
    assert!(seen.body.is_none());
    assert!(seen.headers.is_empty());
}

#[test]
fn an_unknown_method_is_refused_rather_than_guessed() {
    let bad = FetchRequest {
        url: "http://127.0.0.1:1/".into(),
        method: "NOT A METHOD".into(),
        headers: TextMap::new(),
        body: Some("%".into()),
    };
    assert_eq!(
        prepare(&bad).unwrap_err().to_string(),
        "不明なメソッド: NOT A METHOD"
    );
    for method in ["", "GET\n", "取得", "a/b", "(", "{}"] {
        let mut bad = get("http://127.0.0.1:1/");
        bad.method = method.to_string();
        assert!(prepare(&bad).is_err(), "{method}");
    }
    for method in ["get", "PATCH", "X-1!#$%&'*+.^_`|~"] {
        let mut good = get("http://127.0.0.1:1/");
        good.method = method.to_string();
        assert!(prepare(&good).is_ok(), "{method}");
    }
}

#[test]
fn a_body_that_is_no_base64_is_refused() {
    let mut bad = get("http://127.0.0.1:1/");
    bad.body = Some("a?==".to_string());
    assert_eq!(
        prepare(&bad).unwrap_err().to_string(),
        "本文を復元できません: Invalid symbol 63, offset 1."
    );
}

#[test]
fn what_goes_wrong_on_the_way_is_said_in_words() {
    assert_eq!(send_error("timed out").to_string(), "接続できません: timed out");
    assert_eq!(
        read_error("cut off").to_string(),
        "応答を読み取れません: cut off"
    );
}

#[test]
fn a_lapsed_session_is_renewed_and_the_call_made_again() {
    let (response, log) = fetch(
        vec![
            Ok(answer(500, LAPSED)),
            Ok(answer(200, r#"{"errorCode":0,"joinCode":"1234"}"#)),
        ],
        true,
    );
    let response = response.expect("fetch");

    assert_eq!(log, vec!["send", "renew", "send"]);
    assert_eq!(response.status, 200);
    assert_eq!(
        decode(&response.body),
        r#"{"errorCode":0,"joinCode":"1234"}"#
    );
}

#[test]
fn some_other_refusal_is_handed_back_as_it_came() {
    let (response, log) = fetch(
        vec![Ok(answer(500, r#"{"errorCode":123,"errorMessage":"no"}"#))],
        true,
    );
    let response = response.expect("fetch");

    assert_eq!(response.status, 500);
    assert_eq!(response.status_text, "Internal Server Error");
    assert_eq!(
        decode(&response.body),
        r#"{"errorCode":123,"errorMessage":"no"}"#
    );
    assert_eq!(log, vec!["send"], "the one request went out");
}

#[test]
fn a_session_that_cannot_be_renewed_hands_back_the_first_answer() {
    let (response, log) = fetch(vec![Ok(answer(500, LAPSED))], false);
    assert_eq!(log, vec!["send", "renew"]);
    assert_eq!(decode(&response.expect("fetch").body), LAPSED);
}

#[test]
fn a_second_lapse_is_handed_back() {
    let (response, log) = fetch(vec![Ok(answer(500, LAPSED)), Ok(answer(401, LAPSED))], true);
    assert_eq!(log, vec!["send", "renew", "send"]);
    assert_eq!(response.expect("fetch").status, 401);
}

#[test]
fn a_request_that_cannot_be_sent_is_an_error_either_time() {
    let (response, log) = fetch(vec![Err(AppError::other("down".to_string()))], true);
    assert_eq!(response.unwrap_err().to_string(), "down");
    assert_eq!(log, vec!["send"]);
    let (response, _) = fetch(
        vec![
            Ok(answer(500, LAPSED)),
            Err(AppError::other("down".to_string())),
        ],
        true,
    );
    assert_eq!(response.unwrap_err().to_string(), "down");
}

#[test]
fn an_exchange_waits_for_one_thing_at_a_time() {
    assert!(Exchange::new().step(ExchangeEvent::Renewed(true)).is_none());
}

#[test]
fn a_lapsed_session_is_read_from_the_body_in_both_envelopes() {
    assert_eq!(NOT_LOGIN_EXCEPTION, 106);
    for (body, lapsed) in [
        (LAPSED, true),
        (r#"{"errorCode":106}"#, true),
        (r#"{"data":{},"errorCode":106}"#, true),
        (r#"{"data":null,"errorCode":106}"#, true),
        (r#"{"data":{"errorCode":0},"errorCode":106}"#, false),
        (r#"{"data":{"errorCode":"106"},"errorCode":106}"#, false),
        (r#"{"errorCode":106.0}"#, false),
        (r#"{"errorCode":107}"#, false),
        (r#"[{"errorCode":106}]"#, false),
        (r#"{"errorCode":106"#, false),
        ("", false),
    ] {
        for status in [200, 500] {
            assert_eq!(says_not_logged_in(&answer(status, body)), lapsed, "{body}");
        }
    }
    let mut garbled = answer(500, LAPSED);
    garbled.body.push('!');
    assert!(!says_not_logged_in(&garbled));
}

#[test]
fn a_document_is_judged_by_its_error_code() {
    let lapsed = serde_json::from_str(LAPSED).expect("json");
    assert!(document_says_not_logged_in(&lapsed));
    assert!(!document_says_not_logged_in(&serde_json::Value::Null));
}
