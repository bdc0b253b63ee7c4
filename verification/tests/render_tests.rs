use rhp::render::{
    escape_html, inject_hot_reload_script, redirect_status, response_state, set_cookie_line,
    HOT_RELOAD_SCRIPT,
};

#[test]
fn escape_html_entities() {
    assert_eq!(escape_html("<script>"), "&lt;script&gt;");
    assert_eq!(
        escape_html("a&b \"c\" 'd' /e `f` =g"),
        "a&amp;b &quot;c&quot; &#x27;d&#x27; &#x2F;e &grave;f&grave; &#x3D;g"
    );
    assert_eq!(escape_html("plain text"), "plain text");
}

#[test]
fn escaped_text_has_no_markup() {
    let out = escape_html("<a href='/x'>`=\"</a>");
    for c in ['<', '>', '"', '\'', '/', '`', '='] {
        assert!(!out.contains(c));
    }
}

#[test]
fn set_cookie_with_options() {
    assert_eq!(
        set_cookie_line("sid", "abc", Some("/"), None, true, false, None),
        "sid=abc; Path=/; HttpOnly"
    );
    assert_eq!(
        set_cookie_line("a", "1", Some("/p"), Some("60"), true, true, Some("Lax")),
        "a=1; Path=/p; Max-Age=60; HttpOnly; Secure; SameSite=Lax"
    );
    assert_eq!(set_cookie_line("k", "v", None, None, false, false, None), "k=v");
}

#[test]
fn redirect_defaults_to_302() {
    assert_eq!(redirect_status(None), Some(302));
    assert_eq!(redirect_status(Some(301)), Some(301));
}

#[test]
fn response_state_sorts_headers() {
    let s = response_state(
        Some(201),
        vec![("x-b".to_string(), "2".to_string()), ("x-a".to_string(), "1".to_string())],
        None,
        None,
        Some("/next".to_string()),
        vec!["c=1".to_string()],
    );
    assert_eq!(
        s.headers,
        vec![("x-a".to_string(), "1".to_string()), ("x-b".to_string(), "2".to_string())]
    );
    assert!(s.owns_response);
    assert_eq!(s.status, Some(201));
    let quiet = response_state(None, vec![], None, Some("text/plain".to_string()), None, vec![]);
    assert!(!quiet.owns_response);
}

#[test]
fn hot_reload_before_last_body_close() {
    let html = "<body>a</body><body>b</body>";
    let out = inject_hot_reload_script(html);
    let expected = format!("<body>a</body><body>b\n{HOT_RELOAD_SCRIPT}\n</body>");
    assert_eq!(out, expected);
}

#[test]
fn hot_reload_appended_without_body() {
    let out = inject_hot_reload_script("<p>hi</p>");
    assert_eq!(out, format!("<p>hi</p>\n{HOT_RELOAD_SCRIPT}\n"));
    assert_eq!(out.replacen(&format!("\n{HOT_RELOAD_SCRIPT}\n"), "", 1), "<p>hi</p>");
}

/// Replace each of the eight entities by its character.
fn decode(s: &str) -> String {
    let mut out = String::new();
    let mut rest = s;
    let table = [
        ("&amp;", '&'),
        ("&lt;", '<'),
        ("&gt;", '>'),
        ("&quot;", '"'),
        ("&#x27;", '\''),
        ("&#x2F;", '/'),
        ("&grave;", '`'),
        ("&#x3D;", '='),
    ];
    'outer: while let Some(c) = rest.chars().next() {
        for (entity, ch) in table {
            if rest.starts_with(entity) {
                out.push(ch);
                rest = &rest[entity.len()..];
                continue 'outer;
            }
        }
        out.push(c);
        rest = &rest[c.len_utf8()..];
    }
    out
}

#[test]
fn escape_html_decodes_back() {
    for s in ["", "plain", "a&b<c>\"d\"'e'/f`g`=h", "&amp; already", "<<&&>>", "é & ü"] {
        assert_eq!(decode(&escape_html(s)), s);
    }
}
