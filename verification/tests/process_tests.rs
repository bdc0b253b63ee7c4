use rhp::ast::EvalError;
use rhp::process::{
    append_section_output, engine_failure, finish_response, EngineFailure, HttpResponse,
    HttpResponseState, Method,
};

#[test]
fn method_names_are_case_insensitive() {
    assert_eq!(Method::from_str("get"), Method::Get);
    assert_eq!(Method::from_str("PoSt"), Method::Post);
    assert_eq!(Method::from_str("socket"), Method::Socket);
    assert_eq!(Method::from_str("brew"), Method::All);
}

#[test]
fn all_matches_every_method() {
    assert!(Method::All.matches(&Method::Delete));
    assert!(Method::Put.matches(&Method::Put));
    assert!(!Method::Put.matches(&Method::Get));
}

#[test]
fn cookies_become_set_cookie_headers() {
    let state = HttpResponseState {
        status: Some(404),
        headers: vec![("x-a".to_string(), "1".to_string())],
        body: Some("nope".to_string()),
        content_type: None,
        redirect: None,
        cookies: vec!["a=1".to_string(), "b=2".to_string()],
        owns_response: true,
    };
    let r = HttpResponse::from_state(state);
    assert_eq!(r.status, Some(404));
    assert_eq!(r.body, Some("nope".to_string()));
    assert_eq!(
        r.headers,
        vec![
            ("x-a".to_string(), "1".to_string()),
            ("set-cookie".to_string(), "a=1".to_string()),
            ("set-cookie".to_string(), "b=2".to_string()),
        ]
    );
}

#[test]
fn script_error_sets_500_unless_status_set() {
    let r = finish_response(HttpResponseState::default(), true);
    assert_eq!(r.status, Some(500));
    let mut state = HttpResponseState::default();
    state.status = Some(302);
    assert_eq!(finish_response(state, true).status, Some(302));
    assert_eq!(finish_response(HttpResponseState::default(), false).status, None);
}

#[test]
fn section_output_and_errors() {
    let mut out = String::from("<p>");
    assert!(!append_section_output(&mut out, Ok("hi".to_string())));
    assert!(append_section_output(&mut out, Err("boom".to_string())));
    assert_eq!(out, "<p>hi<pre>script error: boom</pre>");
}

#[test]
fn engine_failures_are_500() {
    let (html, r) = engine_failure(EngineFailure::Init, "no memory");
    assert_eq!(html, "");
    assert_eq!(r.status, Some(500));
    assert_eq!(r.body, Some("engine init error: no memory".to_string()));
    let (_, r) = engine_failure(EngineFailure::Setup, "bad");
    assert_eq!(r.body, Some("engine setup error: bad".to_string()));
}

#[test]
fn eval_error_keeps_message_and_span() {
    let e = EvalError::new("boom".to_string(), 3..7);
    assert_eq!(e.message, "boom");
    assert_eq!(e.span, 3..7);
}
