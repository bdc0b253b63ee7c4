//! What scripts write into a page and what they ask of the response:
//! HTML escaping for `write`, the `Set-Cookie` lines of `RES.SetCookie`,
//! the default status of `RES.Redirect`, the response state read back from
//! `RES`, and the hot-reload script added to pages in development.
use vstd::prelude::*;

use crate::process::HttpResponseState;
use crate::text::{chars_of, join, occurs_at, push_joined, sort_by_name, sorted_by_name};

verus! {

/// What `write` turns one character into.
pub open spec fn escape_char(c: char) -> Seq<char> {
    if c == '&' {
        "&amp;"@
    } else if c == '<' {
        "&lt;"@
    } else if c == '>' {
        "&gt;"@
    } else if c == '"' {
        "&quot;"@
    } else if c == '\'' {
        "&#x27;"@
    } else if c == '/' {
        "&#x2F;"@
    } else if c == '`' {
        "&grave;"@
    } else if c == '=' {
        "&#x3D;"@
    } else {
        seq![c]
    }
}

/// `s` with every character escaped.
pub open spec fn escaped(s: Seq<char>) -> Seq<char>
    decreases s.len(),
{
    if s.len() == 0 {
        seq![]
    } else {
        escaped(s.drop_last()) + escape_char(s.last())
    }
}

/// The characters that `write` never lets through.
pub open spec fn is_markup(c: char) -> bool {
    c == '<' || c == '>' || c == '"' || c == '\'' || c == '/' || c == '`' || c == '='
}

/// Escape text for HTML: `& < > " ' / \` =` become entities.
pub fn escape_html(s: &str) -> (r: String)
    ensures
        r@ == escaped(s@),
{
    proof {
        reveal_strlit("&amp;");
        reveal_strlit("&lt;");
        reveal_strlit("&gt;");
        reveal_strlit("&quot;");
        reveal_strlit("&#x27;");
        reveal_strlit("&#x2F;");
        reveal_strlit("&grave;");
        reveal_strlit("&#x3D;");
    }
    let chars = chars_of(s);
    let mut out = String::new();
    let mut i: usize = 0;
    assert(s@.take(0) =~= Seq::<char>::empty());
    while i < chars.len()
        invariant
            i <= chars.len(),
            chars@ == s@,
            out@ == escaped(s@.take(i as int)),
        decreases chars.len() - i,
    {
        let c = chars[i];
        assert(s@.take(i + 1).drop_last() =~= s@.take(i as int));
        assert(s@.take(i + 1).last() == c);
        if c == '&' {
            out.push_str("&amp;");
        } else if c == '<' {
            out.push_str("&lt;");
        } else if c == '>' {
            out.push_str("&gt;");
        } else if c == '"' {
            out.push_str("&quot;");
        } else if c == '\'' {
            out.push_str("&#x27;");
        } else if c == '/' {
            out.push_str("&#x2F;");
        } else if c == '`' {
            out.push_str("&grave;");
        } else if c == '=' {
            out.push_str("&#x3D;");
        } else {
            out.push(c);
        }
        i += 1;
    }
    assert(s@.take(s@.len() as int) =~= s@);
    out
}

/// Escaped text holds no markup character, whatever was written.
pub proof fn lemma_escaped_has_no_markup(s: Seq<char>)
    ensures
        forall|i: int| 0 <= i < escaped(s).len() ==> !is_markup(#[trigger] escaped(s)[i]),
    decreases s.len(),
{
    reveal_strlit("&amp;");
    reveal_strlit("&lt;");
    reveal_strlit("&gt;");
    reveal_strlit("&quot;");
    reveal_strlit("&#x27;");
    reveal_strlit("&#x2F;");
    reveal_strlit("&grave;");
    reveal_strlit("&#x3D;");
    if s.len() > 0 {
        lemma_escaped_has_no_markup(s.drop_last());
        let a = escaped(s.drop_last());
        let b = escape_char(s.last());
        assert forall|i: int| 0 <= i < escaped(s).len() implies !is_markup(
            #[trigger] escaped(s)[i],
        ) by {
            if i < a.len() {
                assert(escaped(s)[i] == a[i]);
            } else {
                assert(escaped(s)[i] == b[i - a.len()]);
            }
        }
    }
}

/// Text without special characters is written as it is.
pub proof fn lemma_escape_plain(s: Seq<char>)
    requires
        forall|i: int| 0 <= i < s.len() ==> !is_markup(#[trigger] s[i]) && s[i] != '&',
    ensures
        escaped(s) == s,
    decreases s.len(),
{
    if s.len() > 0 {
        lemma_escape_plain(s.drop_last());
        assert(escaped(s) =~= s.drop_last().push(s.last()));
        assert(s.drop_last().push(s.last()) =~= s);
    }
}

/// The `Set-Cookie` line for `RES.SetCookie(name, value, options)`: the
/// `name=value` pair, then each option the script gave, in a fixed order,
/// joined by `; `.
pub open spec fn cookie_parts(
    name: Seq<char>,
    value: Seq<char>,
    path: Option<Seq<char>>,
    max_age: Option<Seq<char>>,
    http_only: bool,
    secure: bool,
    same_site: Option<Seq<char>>,
) -> Seq<Seq<char>> {
    let p0 = seq![name + "="@ + value];
    let p1 = match path {
        Some(p) => p0.push("Path="@ + p),
        None => p0,
    };
    let p2 = match max_age {
        Some(m) => p1.push("Max-Age="@ + m),
        None => p1,
    };
    let p3 = if http_only {
        p2.push("HttpOnly"@)
    } else {
        p2
    };
    let p4 = if secure {
        p3.push("Secure"@)
    } else {
        p3
    };
    match same_site {
        Some(s) => p4.push("SameSite="@ + s),
        None => p4,
    }
}

proof fn lemma_push_contains(s: Seq<Seq<char>>, x: Seq<char>, y: Seq<char>)
    ensures
        s.push(x).contains(y) <==> (s.contains(y) || x == y),
{
    if s.contains(y) {
        let i = choose|i: int| 0 <= i < s.len() && s[i] == y;
        assert(s.push(x)[i] == y);
    }
    if x == y {
        assert(s.push(x)[s.len() as int] == y);
    }
    if s.push(x).contains(y) {
        let i = choose|i: int| 0 <= i < s.push(x).len() && s.push(x)[i] == y;
        if i < s.len() {
            assert(s[i] == y);
        }
    }
}

/// What each option adds to a `Set-Cookie` line, each independently of the
/// others: the line starts with `name=value`; `Secure` is one of its parts
/// exactly when `secure` is set, and `HttpOnly` exactly when `http_only` is;
/// a path, max-age or same-site value appears as `Path=`, `Max-Age=` or
/// `SameSite=` with it; and there is one part for the pair and one for each
/// option given.
pub proof fn lemma_cookie_options(
    name: Seq<char>,
    value: Seq<char>,
    path: Option<Seq<char>>,
    max_age: Option<Seq<char>>,
    http_only: bool,
    secure: bool,
    same_site: Option<Seq<char>>,
)
    ensures
        ({
            let parts = cookie_parts(name, value, path, max_age, http_only, secure, same_site);
            &&& parts[0] == name + "="@ + value
            &&& parts.contains("Secure"@) <==> secure
            &&& parts.contains("HttpOnly"@) <==> http_only
            &&& path matches Some(p) ==> parts.contains("Path="@ + p)
            &&& max_age matches Some(m) ==> parts.contains("Max-Age="@ + m)
            &&& same_site matches Some(v) ==> parts.contains("SameSite="@ + v)
            &&& parts.len() == 1 + (if path is Some { 1int } else { 0 }) + (if max_age is Some { 1int } else { 0 })
                + (if http_only { 1int } else { 0 }) + (if secure { 1int } else { 0 }) + (if same_site is Some {
                1int
            } else {
                0
            })
        }),
{
    reveal_strlit("Secure");
    reveal_strlit("HttpOnly");
    reveal_strlit("=");
    reveal_strlit("Path=");
    reveal_strlit("Max-Age=");
    reveal_strlit("SameSite=");
    let first = name + "="@ + value;
    let q0 = seq![first];
    // No part but the flag itself reads `Secure` or `HttpOnly`.
    assert(first != "Secure"@ && first != "HttpOnly"@) by {
        let k = name.len() as int;
        assert(first[k] == '=');
        assert(first.len() > k);
        assert(forall|j: int| 0 <= j < 6 ==> #[trigger] "Secure"@[j] != '=') by {
            assert("Secure"@ =~= seq!['S', 'e', 'c', 'u', 'r', 'e']);
        }
        assert(forall|j: int| 0 <= j < 8 ==> #[trigger] "HttpOnly"@[j] != '=') by {
            assert("HttpOnly"@ =~= seq!['H', 't', 't', 'p', 'O', 'n', 'l', 'y']);
        }
        if first == "Secure"@ {
            assert("Secure"@[k] == '=');
        }
        if first == "HttpOnly"@ {
            assert("HttpOnly"@[k] == '=');
        }
    }
    assert forall|x: Seq<char>| ("Path="@ + x)[0] == 'P' && ("Max-Age="@ + x)[0] == 'M' && ("SameSite="@
        + x)[1] == 'a' by {}
    assert("Secure"@[0] == 'S' && "Secure"@[1] == 'e' && "HttpOnly"@[0] == 'H');
    assert(!q0.contains("Secure"@) && !q0.contains("HttpOnly"@));
    let q1 = match path {
        Some(p) => q0.push("Path="@ + p),
        None => q0,
    };
    if let Some(p) = path {
        lemma_push_contains(q0, "Path="@ + p, "Secure"@);
        lemma_push_contains(q0, "Path="@ + p, "HttpOnly"@);
        lemma_push_contains(q0, "Path="@ + p, "Path="@ + p);
    }
    let q2 = match max_age {
        Some(m) => q1.push("Max-Age="@ + m),
        None => q1,
    };
    if let Some(m) = max_age {
        lemma_push_contains(q1, "Max-Age="@ + m, "Secure"@);
        lemma_push_contains(q1, "Max-Age="@ + m, "HttpOnly"@);
        lemma_push_contains(q1, "Max-Age="@ + m, "Max-Age="@ + m);
        if let Some(p) = path {
            lemma_push_contains(q1, "Max-Age="@ + m, "Path="@ + p);
        }
    }
    let q3 = if http_only {
        q2.push("HttpOnly"@)
    } else {
        q2
    };
    if http_only {
        lemma_push_contains(q2, "HttpOnly"@, "Secure"@);
        lemma_push_contains(q2, "HttpOnly"@, "HttpOnly"@);
        if let Some(p) = path {
            lemma_push_contains(q2, "HttpOnly"@, "Path="@ + p);
        }
        if let Some(m) = max_age {
            lemma_push_contains(q2, "HttpOnly"@, "Max-Age="@ + m);
        }
    }
    let q4 = if secure {
        q3.push("Secure"@)
    } else {
        q3
    };
    if secure {
        lemma_push_contains(q3, "Secure"@, "Secure"@);
        lemma_push_contains(q3, "Secure"@, "HttpOnly"@);
        if let Some(p) = path {
            lemma_push_contains(q3, "Secure"@, "Path="@ + p);
        }
        if let Some(m) = max_age {
            lemma_push_contains(q3, "Secure"@, "Max-Age="@ + m);
        }
    }
    if let Some(v) = same_site {
        lemma_push_contains(q4, "SameSite="@ + v, "Secure"@);
        lemma_push_contains(q4, "SameSite="@ + v, "HttpOnly"@);
        lemma_push_contains(q4, "SameSite="@ + v, "SameSite="@ + v);
        if let Some(p) = path {
            lemma_push_contains(q4, "SameSite="@ + v, "Path="@ + p);
        }
        if let Some(m) = max_age {
            lemma_push_contains(q4, "SameSite="@ + v, "Max-Age="@ + m);
        }
    }
}

fn concat2(a: &str, b: &str) -> (r: String)
    ensures
        r@ == a@ + b@,
{
    let mut r = a.to_string();
    r.push_str(b);
    r
}

/// See `cookie_parts`; an absent or `false` flag adds nothing.
pub fn set_cookie_line(
    name: &str,
    value: &str,
    path: Option<&str>,
    max_age: Option<&str>,
    http_only: bool,
    secure: bool,
    same_site: Option<&str>,
) -> (r: String)
    ensures
        r@ == join(
            cookie_parts(
                name@,
                value@,
                match path {
                    Some(p) => Some(p@),
                    None => None,
                },
                match max_age {
                    Some(p) => Some(p@),
                    None => None,
                },
                http_only,
                secure,
                match same_site {
                    Some(p) => Some(p@),
                    None => None,
                },
            ),
            "; "@,
        ),
{
    let mut parts: Vec<String> = Vec::new();
    let mut first = concat2(name, "=");
    first.push_str(value);
    parts.push(first);
    match path {
        Some(p) => parts.push(concat2("Path=", p)),
        None => {},
    }
    match max_age {
        Some(m) => parts.push(concat2("Max-Age=", m)),
        None => {},
    }
    if http_only {
        parts.push("HttpOnly".to_string());
    }
    if secure {
        parts.push("Secure".to_string());
    }
    match same_site {
        Some(s) => parts.push(concat2("SameSite=", s)),
        None => {},
    }
    let mut out = String::new();
    push_joined(&mut out, &parts, "; ");
    proof {
        let pv = parts@.map_values(|p: String| p@);
        let spec_parts = cookie_parts(
            name@,
            value@,
            match path {
                Some(p) => Some(p@),
                None => None,
            },
            match max_age {
                Some(p) => Some(p@),
                None => None,
            },
            http_only,
            secure,
            match same_site {
                Some(p) => Some(p@),
                None => None,
            },
        );
        assert(pv =~= spec_parts);
    }
    out
}

/// `RES.Redirect` answers with 302 unless the script already chose a status.
pub fn redirect_status(status: Option<u16>) -> (r: Option<u16>)
    ensures
        r == (match status {
            Some(s) => Some(s),
            None => Some(302u16),
        }),
{
    match status {
        Some(s) => Some(s),
        None => Some(302),
    }
}

/// The response state read back from `RES`: headers sorted by name, and the
/// script owns the response exactly when it set a body or a redirect.
pub fn response_state(
    status: Option<u16>,
    headers: Vec<(String, String)>,
    body: Option<String>,
    content_type: Option<String>,
    redirect: Option<String>,
    cookies: Vec<String>,
) -> (r: HttpResponseState)
    ensures
        r.status == status,
        r.headers@.to_multiset() == headers@.to_multiset(),
        sorted_by_name(r.headers@),
        r.body == body,
        r.content_type == content_type,
        r.redirect == redirect,
        r.cookies == cookies,
        r.owns_response == (body is Some || redirect is Some),
{
    let owns_response = body.is_some() || redirect.is_some();
    let headers = sort_by_name(headers);
    HttpResponseState { status, headers, body, content_type, redirect, cookies, owns_response }
}

/// The last index at or before `i` where `p` occurs in `s`.
pub open spec fn rfind_from(s: Seq<char>, p: Seq<char>, i: int) -> Option<int>
    decreases i + 1,
{
    if i < 0 {
        None
    } else if occurs_at(s, p, i) {
        Some(i)
    } else {
        rfind_from(s, p, i - 1)
    }
}

/// `str::rfind`: the index of the last occurrence of `p` in `s`.
pub open spec fn rfind(s: Seq<char>, p: Seq<char>) -> Option<int> {
    rfind_from(s, p, s.len() - p.len())
}

/// The script that reloads a page whenever a file of the site changes.
pub const HOT_RELOAD_SCRIPT: &'static str = "<script>\n(() => {\n  const s = new EventSource(\"/_rhp/hot-reload\");\n  s.onmessage = () => { location.reload(); };\n})();\n</script>";

/// The closing body tag that the script goes before.
pub const BODY_CLOSE: &'static str = "</body>";

/// `html` with the hot-reload script: on a line of its own just before the
/// last `</body>`, or at the end when there is none.
pub open spec fn with_reload_script(html: Seq<char>) -> Seq<char> {
    let script = "\n"@ + HOT_RELOAD_SCRIPT@ + "\n"@;
    match rfind(html, BODY_CLOSE@) {
        Some(pos) => html.subrange(0, pos) + script + html.subrange(pos, html.len() as int),
        None => html + script,
    }
}

/// The index of the last occurrence of `p` in `h`.
fn rfind_chars(h: &Vec<char>, p: &Vec<char>) -> (r: Option<usize>)
    ensures
        match r {
            Some(k) => rfind(h@, p@) == Some(k as int),
            None => rfind(h@, p@) is None,
        },
{
    if p.len() > h.len() {
        assert(rfind(h@, p@) is None);
        return None;
    }
    let mut i: usize = h.len() - p.len();
    loop
        invariant
            p.len() <= h.len(),
            i <= h.len() - p.len(),
            rfind(h@, p@) == rfind_from(h@, p@, i as int),
        decreases i,
    {
        assert(h@.subrange(0, h.len() as int) =~= h@);
        if crate::text::matches_at(h, 0, h.len(), p.as_slice(), i) {
            return Some(i);
        }
        if i == 0 {
            assert(rfind_from(h@, p@, -1) is None);
            return None;
        }
        i -= 1;
    }
}

/// A last occurrence found is an occurrence.
pub proof fn lemma_rfind_from_occurs(s: Seq<char>, p: Seq<char>, i: int)
    ensures
        rfind_from(s, p, i) matches Some(k) ==> k <= i && occurs_at(s, p, k),
    decreases i + 1,
{
    if i >= 0 && !occurs_at(s, p, i) {
        lemma_rfind_from_occurs(s, p, i - 1);
    }
}

/// See `with_reload_script`.
pub fn inject_hot_reload_script(html: &str) -> (r: String)
    ensures
        r@ == with_reload_script(html@),
{
    let h = chars_of(html);
    let close = chars_of(BODY_CLOSE);
    let mut out = String::new();
    let found = rfind_chars(&h, &close);
    proof {
        lemma_rfind_from_occurs(h@, close@, h@.len() - close@.len());
    }
    match found {
        Some(pos) => {
            out = crate::text::string_of(&h, 0, pos);
            out.push_str("\n");
            out.push_str(HOT_RELOAD_SCRIPT);
            out.push_str("\n");
            out.push_str(crate::text::string_of(&h, pos, h.len()).as_str());
        },
        None => {
            out.push_str(html);
            out.push_str("\n");
            out.push_str(HOT_RELOAD_SCRIPT);
            out.push_str("\n");
        },
    }
    out
}

/// The hot-reload script is only ever inserted: taking it out again gives
/// the page back unchanged.
pub proof fn lemma_reload_script_removable(html: Seq<char>)
    ensures
        exists|k: int|
            0 <= k <= html.len() && with_reload_script(html) == html.subrange(0, k) + ("\n"@
                + HOT_RELOAD_SCRIPT@ + "\n"@) + html.subrange(k, html.len() as int),
{
    let script = "\n"@ + HOT_RELOAD_SCRIPT@ + "\n"@;
    lemma_rfind_from_occurs(html, BODY_CLOSE@, html.len() - BODY_CLOSE@.len());
    match rfind(html, BODY_CLOSE@) {
        Some(pos) => {
            assert(0 <= pos <= html.len());
        },
        None => {
            let k = html.len() as int;
            assert(html.subrange(0, k) =~= html);
            assert(html.subrange(k, html.len() as int) =~= Seq::<char>::empty());
            assert(with_reload_script(html) =~= html.subrange(0, k) + script + html.subrange(
                k,
                html.len() as int,
            ));
        },
    }
}

/// `t` starts with `p`.
pub open spec fn starts(t: Seq<char>, p: Seq<char>) -> bool {
    t.len() >= p.len() && t.subrange(0, p.len() as int) == p
}

/// The entity `write` writes for character `c`, when it writes one.
pub open spec fn entity_of(c: char) -> Seq<char> {
    if c == '&' {
        seq!['&', 'a', 'm', 'p', ';']
    } else if c == '<' {
        seq!['&', 'l', 't', ';']
    } else if c == '>' {
        seq!['&', 'g', 't', ';']
    } else if c == '"' {
        seq!['&', 'q', 'u', 'o', 't', ';']
    } else if c == '\'' {
        seq!['&', '#', 'x', '2', '7', ';']
    } else if c == '/' {
        seq!['&', '#', 'x', '2', 'F', ';']
    } else if c == '`' {
        seq!['&', 'g', 'r', 'a', 'v', 'e', ';']
    } else {
        seq!['&', '#', 'x', '3', 'D', ';']
    }
}

/// Decode the entities `write` produces, left to right.
pub open spec fn unescaped(t: Seq<char>) -> Seq<char>
    decreases t.len(),
{
    if t.len() == 0 {
        seq![]
    } else if starts(t, entity_of('&')) {
        seq!['&'] + unescaped(t.subrange(5, t.len() as int))
    } else if starts(t, entity_of('<')) {
        seq!['<'] + unescaped(t.subrange(4, t.len() as int))
    } else if starts(t, entity_of('>')) {
        seq!['>'] + unescaped(t.subrange(4, t.len() as int))
    } else if starts(t, entity_of('"')) {
        seq!['"'] + unescaped(t.subrange(6, t.len() as int))
    } else if starts(t, entity_of('\'')) {
        seq!['\''] + unescaped(t.subrange(6, t.len() as int))
    } else if starts(t, entity_of('/')) {
        seq!['/'] + unescaped(t.subrange(6, t.len() as int))
    } else if starts(t, entity_of('`')) {
        seq!['`'] + unescaped(t.subrange(7, t.len() as int))
    } else if starts(t, entity_of('=')) {
        seq!['='] + unescaped(t.subrange(6, t.len() as int))
    } else {
        seq![t[0]] + unescaped(t.drop_first())
    }
}

proof fn lemma_escaped_prepend(c: char, s: Seq<char>)
    ensures
        escaped(seq![c] + s) == escape_char(c) + escaped(s),
    decreases s.len(),
{
    if s.len() == 0 {
        assert(seq![c] + s =~= seq![c]);
        assert(seq![c].drop_last() =~= Seq::<char>::empty());
        assert(escaped(Seq::<char>::empty()) =~= Seq::<char>::empty());
        assert(escaped(seq![c]) =~= escape_char(c));
        assert(escape_char(c) + escaped(s) =~= escape_char(c));
    } else {
        lemma_escaped_prepend(c, s.drop_last());
        assert((seq![c] + s).drop_last() =~= seq![c] + s.drop_last());
        assert((seq![c] + s).last() == s.last());
        assert(escaped(seq![c] + s) =~= escape_char(c) + escaped(s));
    }
}

/// One escaped character, then anything, decodes to that character first.
proof fn lemma_unescape_one(c: char, x: Seq<char>)
    ensures
        unescaped(escape_char(c) + x) == seq![c] + unescaped(x),
{
    reveal_strlit("&amp;");
    reveal_strlit("&lt;");
    reveal_strlit("&gt;");
    reveal_strlit("&quot;");
    reveal_strlit("&#x27;");
    reveal_strlit("&#x2F;");
    reveal_strlit("&grave;");
    reveal_strlit("&#x3D;");
    let e = escape_char(c);
    let t = e + x;
    if is_markup(c) || c == '&' {
        assert(e =~= entity_of(c));
        assert(t.subrange(0, e.len() as int) =~= e);
        assert(t.subrange(e.len() as int, t.len() as int) =~= x);
        assert(t[0] == '&');
        assert(t[1] == e[1]);
        assert(t[2] == e[2]);
        assert(t[3] == e[3]);
        assert(unescaped(t) =~= seq![c] + unescaped(x));
    } else {
        assert(e =~= seq![c]);
        assert(t[0] == c);
        assert(t.drop_first() =~= x);
        assert(unescaped(t) =~= seq![c] + unescaped(x));
    }
}

/// Decoding the entities gives back exactly what was written.
pub proof fn lemma_unescape_escaped(s: Seq<char>)
    ensures
        unescaped(escaped(s)) == s,
    decreases s.len(),
{
    if s.len() == 0 {
        assert(escaped(s) =~= Seq::<char>::empty());
    } else {
        let c = s[0];
        let rest = s.drop_first();
        assert(s =~= seq![c] + rest);
        lemma_escaped_prepend(c, rest);
        lemma_unescape_escaped(rest);
        lemma_unescape_one(c, escaped(rest));
        assert(unescaped(escaped(s)) =~= s);
    }
}

} // verus!
