use rhp::process::Method;
use rhp::request::{
    body_kind, form_body, form_fields, has_rhp_extension, header_mentions_upgrade, index_file,
    is_ws_upgrade, parse_cookies, query_params, request_path, rhp_target, BodyKind, ContextError,
    FormValue,
};

fn pair(a: &str, b: &str) -> (String, String) {
    (a.to_string(), b.to_string())
}

#[test]
fn cookies_split_and_trimmed() {
    assert_eq!(
        parse_cookies("sid=abc; theme=dark ;flag; x=a=b"),
        vec![pair("sid", "abc"), pair("theme", "dark"), pair("x", "a=b")]
    );
    assert_eq!(parse_cookies(""), vec![]);
}

#[test]
fn websocket_upgrade_needs_both_headers() {
    assert!(header_mentions_upgrade("keep-alive, Upgrade"));
    assert!(header_mentions_upgrade("WebSocket"));
    assert!(!header_mentions_upgrade("keep-alive"));
    assert!(is_ws_upgrade(Some("Upgrade"), Some("websocket")));
    assert!(!is_ws_upgrade(Some("Upgrade"), None));
    assert!(!is_ws_upgrade(Some("close"), Some("websocket")));
}

#[test]
fn body_kinds() {
    assert_eq!(body_kind(Method::Get, "application/json", false), BodyKind::Empty);
    assert_eq!(body_kind(Method::Post, "application/json", true), BodyKind::Empty);
    assert_eq!(body_kind(Method::Post, "application/json; charset=utf-8", false), BodyKind::Json);
    assert_eq!(body_kind(Method::Put, "application/ld+json", false), BodyKind::Json);
    assert_eq!(
        body_kind(Method::Post, "application/x-www-form-urlencoded", false),
        BodyKind::Form
    );
    assert_eq!(body_kind(Method::Post, "text/plain", false), BodyKind::Text);
    assert_eq!(body_kind(Method::Head, "", false), BodyKind::Empty);
}

#[test]
fn form_body_collects_repeated_fields() {
    let fields = form_body(b"color=red&color=blue").expect("decodes");
    assert_eq!(fields.len(), 2);
    match (&fields[0], &fields[1]) {
        ((k1, FormValue::Text(v1)), (k2, FormValue::List(vs))) => {
            assert_eq!(k1, "color");
            assert_eq!(v1, "red");
            assert_eq!(k2, "colors");
            assert_eq!(vs, &vec!["red".to_string(), "blue".to_string()]);
        }
        other => panic!("unexpected {other:?}"),
    }
}

#[test]
fn form_body_decodes_percent_and_plus() {
    let fields = form_body(b"name=J%C3%A9r%C3%B4me+X").expect("decodes");
    match &fields[0] {
        (k, FormValue::Text(v)) => {
            assert_eq!(k, "name");
            assert_eq!(v, "Jérôme X");
        }
        other => panic!("unexpected {other:?}"),
    }
}

#[test]
fn form_fields_list_replaces_text() {
    let fields = form_fields(vec![pair("as", "1"), pair("a", "2")]);
    // "as" first holds text, then "a" makes "as" its list of values
    match &fields[0] {
        (k, FormValue::List(vs)) => {
            assert_eq!(k, "as");
            assert_eq!(vs, &vec!["2".to_string()]);
        }
        other => panic!("unexpected {other:?}"),
    }
}

#[test]
fn context_error_messages() {
    assert_eq!(ContextError::Json("eof".to_string()).message(), "parsing json body: eof");
    assert_eq!(ContextError::Body("x".to_string()).message(), "reading request body: x");
    assert_eq!(ContextError::Form("y".to_string()).message(), "parsing form body: y");
}

#[test]
fn script_paths() {
    assert_eq!(request_path("/site", "/a/b.rhp"), "/site/a/b.rhp");
    assert_eq!(request_path("/site", "//x"), "/site/x");
    assert_eq!(request_path("/site", "/"), "/site/");
    assert!(has_rhp_extension("/site/a/b.rhp"));
    assert!(has_rhp_extension("/site/x.tar.rhp/"));
    assert!(!has_rhp_extension("/site/.rhp"));
    assert!(!has_rhp_extension("/site/a.html"));
    assert!(!has_rhp_extension("/site/rhp"));
    assert!(!has_rhp_extension("/site/a.rhp/.."));
    assert_eq!(index_file("/site/docs"), "/site/docs/index.rhp");
    assert_eq!(index_file("/site/"), "/site/index.rhp");
}

#[test]
fn query_params_are_decoded() {
    assert_eq!(
        query_params("name=a%20b&x=1&x=2"),
        vec![pair("name", "a b"), pair("x", "1"), pair("x", "2")]
    );
    assert_eq!(query_params(""), vec![]);
}

#[test]
fn rhp_target_picks_script_or_index() {
    assert_eq!(rhp_target("site/a.rhp", false, false), Some("site/a.rhp".to_string()));
    assert_eq!(rhp_target("site/a.rhp", true, true), Some("site/a.rhp".to_string()));
    assert_eq!(rhp_target("site/docs", true, true), Some(index_file("site/docs")));
    assert_eq!(rhp_target("site/docs", true, false), None);
    assert_eq!(rhp_target("site/style.css", false, false), None);
}
