use rhp::process::{
    response_parts, section_step, split_src, HttpResponse, Method, PageState, PageStep, Section,
};

fn pair(a: &str, b: &str) -> (String, String) {
    (a.to_string(), b.to_string())
}

#[test]
fn section_step_emits_runs_and_skips() {
    assert_eq!(
        section_step(&Section::Html("<p>x</p>".to_string()), Method::Get),
        PageStep::Emit("<p>x</p>".to_string())
    );
    let all = Section::Code { code: "a()".to_string(), method: Method::All };
    assert_eq!(section_step(&all, Method::Post), PageStep::Run("a()".to_string()));
    let post = Section::Code { code: "b()".to_string(), method: Method::Post };
    assert_eq!(section_step(&post, Method::Post), PageStep::Run("b()".to_string()));
    assert_eq!(section_step(&post, Method::Get), PageStep::Skip);
}

/// Run a page whose code sections give the outcomes in `results`, in order.
fn render(src: &str, request: Method, results: Vec<(Result<String, String>, bool)>) -> (String, bool, usize) {
    let mut page = PageState::new();
    let mut results = results.into_iter();
    let mut runs: usize = 0;
    for section in split_src(src) {
        match page.step(&section, request) {
            PageStep::Emit(html) => page.emit(&html),
            PageStep::Run(_) => {
                runs += 1;
                let (result, owns) = results.next().expect("an outcome per section that runs");
                page.after_section(result, owns);
            }
            PageStep::Skip => {}
        }
    }
    let failed = page.failed();
    (page.into_output(), failed, runs)
}

#[test]
fn page_joins_html_and_section_output() {
    let (out, failed, runs) = render(
        "<h1>A</h1><rhp>x</rhp><p>B</p><rhp method=\"POST\">y</rhp><p>C</p>",
        Method::Get,
        vec![(Ok("[x]".to_string()), false)],
    );
    assert_eq!(out, "<h1>A</h1>[x]<p>B</p><p>C</p>");
    assert!(!failed);
    assert_eq!(runs, 1);
}

#[test]
fn page_inlines_script_errors_and_goes_on() {
    let (out, failed, runs) = render(
        "<rhp>a</rhp><p>after</p><rhp>b</rhp>",
        Method::Get,
        vec![(Err("boom".to_string()), false), (Ok("ok".to_string()), false)],
    );
    assert_eq!(out, "<pre>script error: boom</pre><p>after</p>ok");
    assert!(failed);
    assert_eq!(runs, 2);
}

#[test]
fn page_stops_after_a_section_that_owns_the_response() {
    let (out, failed, runs) = render(
        "<p>before</p><rhp>redirect()</rhp><p>after</p><rhp>never()</rhp>",
        Method::Get,
        vec![(Ok(String::new()), true)],
    );
    assert_eq!(out, "<p>before</p>");
    assert!(!failed);
    assert_eq!(runs, 1);
}

#[test]
fn stopped_page_skips_and_ignores_everything() {
    let mut page = PageState::new();
    page.after_section(Ok("x".to_string()), true);
    assert!(page.stopped());
    assert_eq!(page.step(&Section::Html("<p>".to_string()), Method::Get), PageStep::Skip);
    page.emit("<p>");
    page.after_section(Err("late".to_string()), false);
    assert!(page.stopped());
    assert!(!page.failed());
    assert_eq!(page.into_output(), "x");
}

#[test]
fn response_parts_defaults() {
    let (status, body, headers) = response_parts(&HttpResponse::default(), "<p>page</p>".to_string());
    assert_eq!(status, 200);
    assert_eq!(body, "<p>page</p>");
    assert!(headers.is_empty());
}

#[test]
fn response_parts_script_body_status_and_redirect() {
    let r = HttpResponse {
        status: Some(302),
        headers: vec![pair("X-A", "1")],
        body: Some("moved".to_string()),
        content_type: Some("text/plain".to_string()),
        redirect: Some("/next".to_string()),
    };
    let (status, body, headers) = response_parts(&r, "<p>page</p>".to_string());
    assert_eq!(status, 302);
    assert_eq!(body, "moved");
    assert_eq!(
        headers,
        vec![pair("location", "/next"), pair("X-A", "1"), pair("content-type", "text/plain")]
    );
}

#[test]
fn response_parts_header_content_type_wins() {
    let r = HttpResponse {
        status: None,
        headers: vec![pair("Content-TYPE", "application/json")],
        body: None,
        content_type: Some("text/html".to_string()),
        redirect: None,
    };
    let (_, _, headers) = response_parts(&r, String::new());
    assert_eq!(headers, vec![pair("Content-TYPE", "application/json")]);
}
