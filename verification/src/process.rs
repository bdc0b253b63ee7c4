//! Splitting an `.rhp` page into HTML and script sections, request methods,
//! and the response that a page's scripts ask for.
use vstd::prelude::*;

use crate::text::{
    all_whitespace, all_ws, chars_of, find, find_from, occurs_at, find_in, is_whitespace, leading_ws, lemma_find_from_bounds,
    string_of, trim_start,
};

verus! {

/// The HTTP method of a request, or the method a script section is
/// restricted to (`All` runs for every request).
#[derive(Debug, Clone, Copy, PartialEq, Eq, Structural)]
pub enum Method {
    Get,
    Head,
    Post,
    Put,
    Delete,
    Patch,
    Options,
    Socket,
    All,
}

/// `c` is `t` once ASCII lower-case letters are made upper-case, where `t`
/// is an upper-case ASCII letter.
pub open spec fn upper_eq(c: char, t: char) -> bool {
    c == t || ('a' <= c && c <= 'z' && c as u32 == t as u32 + 32)
}

/// `s.to_ascii_uppercase() == t` for an upper-case ASCII word `t`.
pub open spec fn upper_is(s: Seq<char>, t: Seq<char>) -> bool {
    s.len() == t.len() && forall|i: int| 0 <= i < s.len() ==> #[trigger] upper_eq(s[i], t[i])
}

/// The method named by `s`, compared case-insensitively; anything else is `All`.
pub open spec fn method_of(s: Seq<char>) -> Method {
    if upper_is(s, seq!['G', 'E', 'T']) {
        Method::Get
    } else if upper_is(s, seq!['H', 'E', 'A', 'D']) {
        Method::Head
    } else if upper_is(s, seq!['P', 'O', 'S', 'T']) {
        Method::Post
    } else if upper_is(s, seq!['P', 'U', 'T']) {
        Method::Put
    } else if upper_is(s, seq!['D', 'E', 'L', 'E', 'T', 'E']) {
        Method::Delete
    } else if upper_is(s, seq!['P', 'A', 'T', 'C', 'H']) {
        Method::Patch
    } else if upper_is(s, seq!['O', 'P', 'T', 'I', 'O', 'N', 'S']) {
        Method::Options
    } else if upper_is(s, seq!['S', 'O', 'C', 'K', 'E', 'T']) {
        Method::Socket
    } else {
        Method::All
    }
}

fn upper_word_is(s: &Vec<char>, t: &[char]) -> (b: bool)
    requires
        forall|i: int| 0 <= i < t@.len() ==> 'A' <= #[trigger] t@[i] <= 'Z',
    ensures
        b == upper_is(s@, t@),
{
    if s.len() != t.len() {
        return false;
    }
    let mut i: usize = 0;
    while i < s.len()
        invariant
            s.len() == t.len(),
            i <= s.len(),
            forall|j: int| 0 <= j < i ==> #[trigger] upper_eq(s@[j], t@[j]),
        decreases s.len() - i,
    {
        let c = s[i];
        let u = t[i];
        let same = c == u || ('a' <= c && c <= 'z' && (c as u32) - 32 == (u as u32));
        if !same {
            assert(!upper_eq(s@[i as int], t@[i as int]));
            return false;
        }
        i += 1;
    }
    true
}

fn method_from_chars(s: &Vec<char>) -> (m: Method)
    ensures
        m == method_of(s@),
{
    let get: [char; 3] = ['G', 'E', 'T'];
    let head: [char; 4] = ['H', 'E', 'A', 'D'];
    let post: [char; 4] = ['P', 'O', 'S', 'T'];
    let put: [char; 3] = ['P', 'U', 'T'];
    let delete: [char; 6] = ['D', 'E', 'L', 'E', 'T', 'E'];
    let patch: [char; 5] = ['P', 'A', 'T', 'C', 'H'];
    let options: [char; 7] = ['O', 'P', 'T', 'I', 'O', 'N', 'S'];
    let socket: [char; 6] = ['S', 'O', 'C', 'K', 'E', 'T'];
    assert(get@ == seq!['G', 'E', 'T']);
    assert(head@ == seq!['H', 'E', 'A', 'D']);
    assert(post@ == seq!['P', 'O', 'S', 'T']);
    assert(put@ == seq!['P', 'U', 'T']);
    assert(delete@ == seq!['D', 'E', 'L', 'E', 'T', 'E']);
    assert(patch@ == seq!['P', 'A', 'T', 'C', 'H']);
    assert(options@ == seq!['O', 'P', 'T', 'I', 'O', 'N', 'S']);
    assert(socket@ == seq!['S', 'O', 'C', 'K', 'E', 'T']);
    if upper_word_is(s, &get) {
        Method::Get
    } else if upper_word_is(s, &head) {
        Method::Head
    } else if upper_word_is(s, &post) {
        Method::Post
    } else if upper_word_is(s, &put) {
        Method::Put
    } else if upper_word_is(s, &delete) {
        Method::Delete
    } else if upper_word_is(s, &patch) {
        Method::Patch
    } else if upper_word_is(s, &options) {
        Method::Options
    } else if upper_word_is(s, &socket) {
        Method::Socket
    } else {
        Method::All
    }
}

impl Method {
    /// The method named by `s` (case-insensitive); unknown names give `All`.
    pub fn from_str(s: &str) -> (m: Method)
        ensures
            m == method_of(s@),
    {
        let cs = chars_of(s);
        method_from_chars(&cs)
    }

    /// Whether a section restricted to `self` runs for a request made with
    /// `request_method`.
    pub fn matches(&self, request_method: &Method) -> (b: bool)
        ensures
            b == (*self == Method::All || *self == *request_method),
    {
        matches!(self, Method::All) || *self == *request_method
    }
}

/// A piece of an `.rhp` page: literal HTML, or the code of an `<rhp>` tag
/// together with the method it is restricted to.
#[derive(Debug, Clone, PartialEq)]
pub enum Section {
    Html(String),
    Code { code: String, method: Method },
}

/// What a `Section` holds, as plain values.
pub enum SectionView {
    Html(Seq<char>),
    Code(Seq<char>, Method),
}

impl View for Section {
    type V = SectionView;

    open spec fn view(&self) -> SectionView {
        match self {
            Section::Html(h) => SectionView::Html(h@),
            Section::Code { code, method } => SectionView::Code(code@, *method),
        }
    }
}

pub open spec fn sections_view(v: Seq<Section>) -> Seq<SectionView> {
    v.map_values(|s: Section| s@)
}

pub open spec fn open_tag() -> Seq<char> {
    seq!['<', 'r', 'h', 'p']
}

pub open spec fn close_tag() -> Seq<char> {
    seq!['<', '/', 'r', 'h', 'p', '>']
}

pub open spec fn method_key() -> Seq<char> {
    seq!['m', 'e', 't', 'h', 'o', 'd', '=']
}

/// The method named by the attributes of an `<rhp ...>` tag: the value of
/// the first `method=` that is followed (after whitespace) by a quoted word.
pub open spec fn method_attr(a: Seq<char>) -> Method {
    match find(a, method_key()) {
        None => Method::All,
        Some(i) => {
            let rest = trim_start(a.subrange(i + 7, a.len() as int));
            if rest.len() == 0 {
                Method::All
            } else {
                let q = rest[0];
                if q != '"' && q != '\'' {
                    Method::All
                } else {
                    let inner = rest.drop_first();
                    match find(inner, seq![q]) {
                        None => Method::All,
                        Some(e) => method_of(inner.subrange(0, e)),
                    }
                }
            }
        }
    }
}

/// The sections of the page text `rest`, in order. HTML that is only
/// whitespace is dropped; an unclosed `<rhp` runs to the end as code.
pub open spec fn split_spec(rest: Seq<char>) -> Seq<SectionView>
    decreases rest.len(),
{
    if rest.len() == 0 {
        seq![]
    } else {
        match find(rest, open_tag()) {
            None => if all_ws(rest) {
                seq![]
            } else {
                seq![SectionView::Html(rest)]
            },
            Some(start) => {
                proof {
                    lemma_find_from_bounds(rest, open_tag(), 0);
                }
                let pre = rest.subrange(0, start);
                let head = if start > 0 && !all_ws(pre) {
                    seq![SectionView::Html(pre)]
                } else {
                    seq![]
                };
                let after = rest.subrange(start + 4, rest.len() as int);
                let method = match find(after, seq!['>']) {
                    Some(gt) => method_attr(after.subrange(0, gt)),
                    None => Method::All,
                };
                let body = match find(after, seq!['>']) {
                    Some(gt) => after.subrange(gt + 1, after.len() as int),
                    None => after,
                };
                proof {
                    lemma_find_from_bounds(after, seq!['>'], 0);
                    lemma_find_from_bounds(body, close_tag(), 0);
                }
                match find(body, close_tag()) {
                    None => head.push(SectionView::Code(body, method)),
                    Some(ce) => head.push(SectionView::Code(body.subrange(0, ce), method))
                        + split_spec(body.subrange(ce + 6, body.len() as int)),
                }
            }
        }
    }
}

fn count_leading_ws(s: &Vec<char>, lo: usize, hi: usize) -> (k: usize)
    requires
        lo <= hi <= s.len(),
    ensures
        k == leading_ws(s@.subrange(lo as int, hi as int)),
        k <= hi - lo,
    decreases hi - lo,
{
    if lo < hi && is_whitespace(s[lo]) {
        assert(s@.subrange(lo as int, hi as int).drop_first() =~= s@.subrange(lo + 1, hi as int));
        1 + count_leading_ws(s, lo + 1, hi)
    } else {
        0
    }
}

fn method_attr_of(s: &Vec<char>, lo: usize, hi: usize) -> (m: Method)
    requires
        lo <= hi <= s.len(),
    ensures
        m == method_attr(s@.subrange(lo as int, hi as int)),
{
    let ghost a = s@.subrange(lo as int, hi as int);
    let key: [char; 7] = ['m', 'e', 't', 'h', 'o', 'd', '='];
    assert(key@ == method_key());
    match find_in(s, lo, hi, &key) {
        None => Method::All,
        Some(i) => {
            proof {
                lemma_find_from_bounds(a, method_key(), 0);
            }
            let from = lo + i + 7;
            let ghost tail = a.subrange(i + 7, a.len() as int);
            assert(tail =~= s@.subrange(from as int, hi as int));
            let k = count_leading_ws(s, from, hi);
            let start = from + k;
            assert(trim_start(tail) =~= s@.subrange(start as int, hi as int));
            if start == hi {
                return Method::All;
            }
            let q = s[start];
            if q != '"' && q != '\'' {
                return Method::All;
            }
            let quote: [char; 1] = [q];
            assert(quote@ == seq![q]);
            assert(trim_start(tail).drop_first() =~= s@.subrange(start + 1, hi as int));
            match find_in(s, start + 1, hi, &quote) {
                None => Method::All,
                Some(e) => {
                    proof {
                        lemma_find_from_bounds(s@.subrange(start + 1, hi as int), seq![q], 0);
                    }
                    let word = slice_chars(s, start + 1, start + 1 + e);
                    assert(word@ =~= s@.subrange(start + 1, hi as int).subrange(0, e as int));
                    method_from_chars(&word)
                },
            }
        },
    }
}

fn slice_chars(s: &Vec<char>, lo: usize, hi: usize) -> (r: Vec<char>)
    requires
        lo <= hi <= s.len(),
    ensures
        r@ == s@.subrange(lo as int, hi as int),
{
    let mut r: Vec<char> = Vec::new();
    let mut i = lo;
    while i < hi
        invariant
            lo <= i <= hi <= s.len(),
            r@ == s@.subrange(lo as int, i as int),
        decreases hi - i,
    {
        r.push(s[i]);
        assert(s@.subrange(lo as int, i + 1) == s@.subrange(lo as int, i as int).push(s@[i as int]));
        i += 1;
    }
    r
}

/// The method named by the attributes of an `<rhp ...>` tag (see
/// `method_attr`).
pub fn parse_method(attrs: &str) -> (m: Method)
    ensures
        m == method_attr(attrs@),
{
    let cs = chars_of(attrs);
    assert(cs@.subrange(0, cs@.len() as int) =~= cs@);
    method_attr_of(&cs, 0, cs.len())
}

/// Split an `.rhp` page into its HTML and `<rhp>` code sections.
#[verifier::rlimit(60)]
pub fn split_src(src: &str) -> (sections: Vec<Section>)
    ensures
        sections_view(sections@) == split_spec(src@),
{
    let cs = chars_of(src);
    let n = cs.len();
    let open: [char; 4] = ['<', 'r', 'h', 'p'];
    let close: [char; 6] = ['<', '/', 'r', 'h', 'p', '>'];
    let gt_mark: [char; 1] = ['>'];
    assert(open@ == open_tag());
    assert(close@ == close_tag());
    assert(gt_mark@ == seq!['>']);
    let mut sections: Vec<Section> = Vec::new();
    let mut pos: usize = 0;
    assert(cs@.subrange(0, n as int) =~= cs@);
    loop
        invariant
            pos <= n,
            n == cs.len(),
            cs@ == src@,
            open@ == open_tag(),
            close@ == close_tag(),
            gt_mark@ == seq!['>'],
            split_spec(src@) == sections_view(sections@) + split_spec(
                cs@.subrange(pos as int, n as int),
            ),
        decreases n - pos,
    {
        let ghost rest = cs@.subrange(pos as int, n as int);
        if pos == n {
            assert(sections_view(sections@) + split_spec(rest) =~= sections_view(sections@));
            return sections;
        }
        match find_in(&cs, pos, n, &open) {
            None => {
                if !all_whitespace(&cs, pos, n) {
                    let h = string_of(&cs, pos, n);
                    sections.push(Section::Html(h));
                    assert(sections_view(sections@) =~= sections_view(
                        sections@.drop_last(),
                    ).push(SectionView::Html(rest)));
                } else {
                    assert(sections_view(sections@) + split_spec(rest) =~= sections_view(
                        sections@,
                    ));
                }
                return sections;
            },
            Some(start) => {
                proof {
                    lemma_find_from_bounds(rest, open_tag(), 0);
                }
                let ghost old_sections = sections_view(sections@);
                if start > 0 && !all_whitespace(&cs, pos, pos + start) {
                    let h = string_of(&cs, pos, pos + start);
                    sections.push(Section::Html(h));
                    assert(rest.subrange(0, start as int) =~= cs@.subrange(
                        pos as int,
                        pos + start,
                    ));
                    assert(sections_view(sections@) =~= old_sections.push(
                        SectionView::Html(rest.subrange(0, start as int)),
                    ));
                } else {
                    assert(rest.subrange(0, start as int) =~= cs@.subrange(
                        pos as int,
                        pos + start,
                    ));
                }
                let after_lo = pos + start + 4;
                let ghost after = rest.subrange(start + 4, rest.len() as int);
                assert(after =~= cs@.subrange(after_lo as int, n as int));
                let (method, body_lo) = match find_in(&cs, after_lo, n, &gt_mark) {
                    Some(gt) => {
                        proof {
                            lemma_find_from_bounds(after, seq!['>'], 0);
                        }
                        assert(after.subrange(0, gt as int) =~= cs@.subrange(
                            after_lo as int,
                            after_lo + gt,
                        ));
                        (method_attr_of(&cs, after_lo, after_lo + gt), after_lo + gt + 1)
                    },
                    None => (Method::All, after_lo),
                };
                let ghost body = cs@.subrange(body_lo as int, n as int);
                assert(body =~= match find(after, seq!['>']) {
                    Some(gt) => after.subrange(gt + 1, after.len() as int),
                    None => after,
                });
                match find_in(&cs, body_lo, n, &close) {
                    None => {
                        let code = string_of(&cs, body_lo, n);
                        sections.push(Section::Code { code, method });
                        assert(sections_view(sections@) =~= sections_view(
                            sections@.drop_last(),
                        ).push(SectionView::Code(body, method)));
                        assert(sections_view(sections@) + split_spec(
                            cs@.subrange(n as int, n as int),
                        ) =~= sections_view(sections@));
                        return sections;
                    },
                    Some(ce) => {
                        proof {
                            lemma_find_from_bounds(body, close_tag(), 0);
                        }
                        let code = string_of(&cs, body_lo, body_lo + ce);
                        assert(body.subrange(0, ce as int) =~= cs@.subrange(
                            body_lo as int,
                            body_lo + ce,
                        ));
                        sections.push(Section::Code { code, method });
                        assert(sections_view(sections@) =~= sections_view(
                            sections@.drop_last(),
                        ).push(SectionView::Code(body.subrange(0, ce as int), method)));
                        let next = body_lo + ce + 6;
                        assert(body.subrange(ce + 6, body.len() as int) =~= cs@.subrange(
                            next as int,
                            n as int,
                        ));
                        pos = next;
                    },
                }
            },
        }
    }
}

/// What a page's scripts asked of the response, as read back from `RES`.
#[derive(Debug, Clone, Default)]
pub struct HttpResponseState {
    pub status: Option<u16>,
    pub headers: Vec<(String, String)>,
    pub body: Option<String>,
    pub content_type: Option<String>,
    pub redirect: Option<String>,
    pub cookies: Vec<String>,
    pub owns_response: bool,
}

/// The script-controlled parts of the HTTP response.
#[derive(Debug, Clone, Default)]
pub struct HttpResponse {
    pub status: Option<u16>,
    pub headers: Vec<(String, String)>,
    pub body: Option<String>,
    pub content_type: Option<String>,
    pub redirect: Option<String>,
}

pub open spec fn set_cookie_name() -> Seq<char> {
    seq!['s', 'e', 't', '-', 'c', 'o', 'o', 'k', 'i', 'e']
}

/// The header lines of a response: the headers the script set, then one
/// `set-cookie` line per cookie, in order.
pub open spec fn response_headers(
    headers: Seq<(Seq<char>, Seq<char>)>,
    cookies: Seq<Seq<char>>,
) -> Seq<(Seq<char>, Seq<char>)> {
    headers + cookies.map_values(|c: Seq<char>| (set_cookie_name(), c))
}

fn set_cookie_header_name() -> (s: String)
    ensures
        s@ == set_cookie_name(),
{
    let mut s = String::new();
    s.push('s');
    s.push('e');
    s.push('t');
    s.push('-');
    s.push('c');
    s.push('o');
    s.push('o');
    s.push('k');
    s.push('i');
    s.push('e');
    s
}

impl HttpResponse {
    /// The response for a script state: its status, body, content type and
    /// redirect, with every cookie appended as a `set-cookie` header.
    pub fn from_state(state: HttpResponseState) -> (r: Self)
        ensures
            r.status == state.status,
            r.body.deep_view() == state.body.deep_view(),
            r.content_type.deep_view() == state.content_type.deep_view(),
            r.redirect.deep_view() == state.redirect.deep_view(),
            r.headers.deep_view() == response_headers(
                state.headers.deep_view(),
                state.cookies.deep_view(),
            ),
    {
        let HttpResponseState { status, headers, body, content_type, redirect, cookies, .. } =
            state;
        let mut headers = headers;
        let ghost h0 = headers.deep_view();
        let mut i: usize = 0;
        while i < cookies.len()
            invariant
                i <= cookies.len(),
                headers.deep_view() == h0 + cookies.deep_view().take(i as int).map_values(
                    |c: Seq<char>| (set_cookie_name(), c),
                ),
            decreases cookies.len() - i,
        {
            let name = set_cookie_header_name();
            let value = cookies[i].clone();
            let ghost before = headers.deep_view();
            headers.push((name, value));
            assert(headers.deep_view() =~= before.push((set_cookie_name(), cookies.deep_view()[i as int])));
            assert(cookies.deep_view().take(i + 1) =~= cookies.deep_view().take(i as int).push(
                cookies.deep_view()[i as int],
            ));
            assert(headers.deep_view() =~= h0 + cookies.deep_view().take(i + 1).map_values(
                |c: Seq<char>| (set_cookie_name(), c),
            ));
            i += 1;
        }
        assert(cookies.deep_view().take(i as int) =~= cookies.deep_view());
        HttpResponse { status, headers, body, content_type, redirect }
    }
}

/// The response of a page whose scripts have run: a script error that left
/// no status makes it a 500; cookies become `set-cookie` headers.
pub fn finish_response(state: HttpResponseState, script_error: bool) -> (r: HttpResponse)
    ensures
        r.status == (if script_error && state.status is None {
            Some(500u16)
        } else {
            state.status
        }),
        r.body.deep_view() == state.body.deep_view(),
        r.content_type.deep_view() == state.content_type.deep_view(),
        r.redirect.deep_view() == state.redirect.deep_view(),
        r.headers.deep_view() == response_headers(
            state.headers.deep_view(),
            state.cookies.deep_view(),
        ),
{
    let mut state = state;
    if script_error && state.status.is_none() {
        state.status = Some(500);
    }
    HttpResponse::from_state(state)
}

/// Add what a script section gave to the page: its output, or, when it
/// failed, the error in a `<pre>` block. Returns whether it failed.
pub fn append_section_output(out: &mut String, result: Result<String, String>) -> (failed: bool)
    ensures
        failed == result is Err,
        final(out)@ == old(out)@ + match result {
            Ok(text) => text@,
            Err(e) => "<pre>script error: "@ + e@ + "</pre>"@,
        },
{
    match result {
        Ok(text) => {
            out.push_str(text.as_str());
            false
        },
        Err(e) => {
            out.push_str("<pre>script error: ");
            out.push_str(e.as_str());
            out.push_str("</pre>");
            true
        },
    }
}

/// Which step of starting the script engine failed.
#[derive(Debug, Clone, Copy, PartialEq, Eq, Structural)]
pub enum EngineFailure {
    /// Creating the engine.
    Init,
    /// Installing the page's globals.
    Setup,
}

/// The page when the script engine could not be started: nothing rendered,
/// status 500, and the error as the body.
pub fn engine_failure(stage: EngineFailure, err: &str) -> (r: (String, HttpResponse))
    ensures
        r.0@.len() == 0,
        r.1.status == Some(500u16),
        r.1.body matches Some(b) && b@ == match stage {
            EngineFailure::Init => "engine init error: "@,
            EngineFailure::Setup => "engine setup error: "@,
        } + err@,
        r.1.headers@.len() == 0,
        r.1.content_type is None,
        r.1.redirect is None,
{
    let mut body = match stage {
        EngineFailure::Init => "engine init error: ".to_string(),
        EngineFailure::Setup => "engine setup error: ".to_string(),
    };
    body.push_str(err);
    (
        String::new(),
        HttpResponse {
            status: Some(500),
            headers: Vec::new(),
            body: Some(body),
            content_type: None,
            redirect: None,
        },
    )
}

/// With no occurrence of `p` at or after `i`, `find_from` finds nothing.
proof fn lemma_find_from_none(s: Seq<char>, p: Seq<char>, i: int)
    requires
        forall|j: int| i <= j ==> !occurs_at(s, p, j),
    ensures
        find_from(s, p, i) is None,
    decreases s.len() + 1 - i,
{
    if !(i < 0 || i + p.len() > s.len()) {
        lemma_find_from_none(s, p, i + 1);
    }
}

/// A prefix that ends before the first occurrence of `p` holds none.
proof fn lemma_prefix_without(s: Seq<char>, p: Seq<char>, k: int)
    requires
        0 <= k <= s.len(),
        p.len() > 0,
        forall|j: int| 0 <= j < k ==> !occurs_at(s, p, j),
    ensures
        find(s.subrange(0, k), p) is None,
{
    let t = s.subrange(0, k);
    assert forall|j: int| 0 <= j implies !occurs_at(t, p, j) by {
        if occurs_at(t, p, j) {
            assert(t.subrange(j, j + p.len()) =~= s.subrange(j, j + p.len()));
            assert(occurs_at(s, p, j));
        }
    }
    lemma_find_from_none(t, p, 0);
}

/// What `split_src` gives holds no blank HTML: every HTML section has a
/// character that is not whitespace, and no `<rhp` in it; and the code of
/// every section holds no `</rhp>`.
pub proof fn lemma_sections_clean(rest: Seq<char>)
    ensures
        forall|i: int| 0 <= i < split_spec(rest).len() ==> match #[trigger] split_spec(rest)[i] {
            SectionView::Html(h) => !all_ws(h) && find(h, open_tag()) is None,
            SectionView::Code(c, _) => find(c, close_tag()) is None,
        },
    decreases rest.len(),
{
    if rest.len() > 0 {
        match find(rest, open_tag()) {
            None => {},
            Some(start) => {
                lemma_find_from_bounds(rest, open_tag(), 0);
                let pre = rest.subrange(0, start);
                lemma_prefix_without(rest, open_tag(), start);
                let head = if start > 0 && !all_ws(pre) {
                    seq![SectionView::Html(pre)]
                } else {
                    seq![]
                };
                let after = rest.subrange(start + 4, rest.len() as int);
                let method = match find(after, seq!['>']) {
                    Some(gt) => method_attr(after.subrange(0, gt)),
                    None => Method::All,
                };
                lemma_find_from_bounds(after, seq!['>'], 0);
                let body = match find(after, seq!['>']) {
                    Some(gt) => after.subrange(gt + 1, after.len() as int),
                    None => after,
                };
                lemma_find_from_bounds(body, close_tag(), 0);
                match find(body, close_tag()) {
                    None => {
                        assert(split_spec(rest) == head.push(SectionView::Code(body, method)));
                    },
                    Some(ce) => {
                        lemma_prefix_without(body, close_tag(), ce);
                        let tail = body.subrange(ce + 6, body.len() as int);
                        lemma_sections_clean(tail);
                        let first = head.push(SectionView::Code(body.subrange(0, ce), method));
                        assert(split_spec(rest) == first + split_spec(tail));
                        assert forall|i: int| 0 <= i < split_spec(rest).len() implies match
                            #[trigger] split_spec(rest)[i] {
                            SectionView::Html(h) => !all_ws(h) && find(h, open_tag()) is None,
                            SectionView::Code(c, _) => find(c, close_tag()) is None,
                        } by {
                            if i >= first.len() {
                                assert(split_spec(rest)[i] == split_spec(tail)[i - first.len()]);
                            }
                        }
                    },
                }
            },
        }
    }
}

// ---- rendering a page ----

/// What the page loop does with one section.
#[derive(Debug, Clone, PartialEq)]
pub enum PageStep {
    /// Copy this HTML into the page.
    Emit(String),
    /// Run this code.
    Run(String),
    /// Nothing: the section is for another method, or the page is done.
    Skip,
}

/// A page step as plain values.
pub enum StepV {
    Emit(Seq<char>),
    Run(Seq<char>),
    Skip,
}

pub open spec fn step_v(s: PageStep) -> StepV {
    match s {
        PageStep::Emit(h) => StepV::Emit(h@),
        PageStep::Run(c) => StepV::Run(c@),
        PageStep::Skip => StepV::Skip,
    }
}

/// The page rendered so far: its output, whether a script failed, and
/// whether a script took over the response (so that nothing more runs).
pub struct PageState {
    output: String,
    failed: bool,
    stopped: bool,
}

/// A page state as plain values.
pub struct PageV {
    pub output: Seq<char>,
    pub failed: bool,
    pub stopped: bool,
}

/// The step for `sec` on a request made with `request`, in state `st`.
pub open spec fn step_spec(st: PageV, sec: SectionView, request: Method) -> StepV {
    if st.stopped {
        StepV::Skip
    } else {
        match sec {
            SectionView::Html(h) => StepV::Emit(h),
            SectionView::Code(c, m) => if m == Method::All || m == request {
                StepV::Run(c)
            } else {
                StepV::Skip
            },
        }
    }
}

/// What running a code section leaves: its output (or the error in a
/// `<pre>` block), whether anything failed, and whether it owns the response.
pub open spec fn after_spec(st: PageV, result: Result<Seq<char>, Seq<char>>, owns_response: bool) -> PageV {
    if st.stopped {
        st
    } else {
        PageV {
            output: st.output + match result {
                Ok(text) => text,
                Err(e) => "<pre>script error: "@ + e + "</pre>"@,
            },
            failed: st.failed || result is Err,
            stopped: owns_response,
        }
    }
}

/// Copying HTML into the page.
pub open spec fn emit_spec(st: PageV, html: Seq<char>) -> PageV {
    if st.stopped {
        st
    } else {
        PageV { output: st.output + html, ..st }
    }
}

/// The outcome of running the section at index `i`, if it runs: its output
/// or error, and whether the script then owns the response.
pub type Outcome = (Result<Seq<char>, Seq<char>>, bool);

/// The page after the sections `secs`, where `outs[i]` is what the section
/// at index `i` gives when it runs.
pub open spec fn render_spec(st: PageV, secs: Seq<SectionView>, request: Method, outs: Seq<Outcome>) -> PageV
    decreases secs.len(),
{
    if secs.len() == 0 {
        st
    } else {
        let next = match step_spec(st, secs[0], request) {
            StepV::Emit(h) => emit_spec(st, h),
            StepV::Run(_) => after_spec(st, outs[0].0, outs[0].1),
            StepV::Skip => st,
        };
        render_spec(next, secs.drop_first(), request, outs.drop_first())
    }
}

/// Once a script owns the response the page is final: no later section
/// runs or adds output, whatever follows.
pub proof fn lemma_stopped_is_final(st: PageV, secs: Seq<SectionView>, request: Method, outs: Seq<Outcome>)
    requires
        st.stopped,
    ensures
        render_spec(st, secs, request, outs) == st,
        forall|sec: SectionView| step_spec(st, sec, request) is Skip,
    decreases secs.len(),
{
    if secs.len() > 0 {
        lemma_stopped_is_final(st, secs.drop_first(), request, outs.drop_first());
    }
}

/// Rendering a page in two parts is rendering it in one; with the previous
/// lemma, once the first part stops the page, the second changes nothing.
pub proof fn lemma_render_split(
    st: PageV,
    a: Seq<SectionView>,
    b: Seq<SectionView>,
    request: Method,
    outs: Seq<Outcome>,
)
    requires
        a.len() <= outs.len(),
    ensures
        render_spec(st, a + b, request, outs) == render_spec(
            render_spec(st, a, request, outs),
            b,
            request,
            outs.skip(a.len() as int),
        ),
    decreases a.len(),
{
    if a.len() == 0 {
        assert(a + b =~= b);
        assert(outs.skip(0) =~= outs);
    } else {
        assert((a + b).drop_first() =~= a.drop_first() + b);
        assert((a + b)[0] == a[0]);
        let next = match step_spec(st, a[0], request) {
            StepV::Emit(h) => emit_spec(st, h),
            StepV::Run(_) => after_spec(st, outs[0].0, outs[0].1),
            StepV::Skip => st,
        };
        lemma_render_split(next, a.drop_first(), b, request, outs.drop_first());
        assert(outs.drop_first().skip(a.drop_first().len() as int) =~= outs.skip(a.len() as int));
    }
}

/// What the page loop does with a section, regardless of state: HTML is
/// copied, code runs when its method matches the request, else it is skipped.
pub fn section_step(section: &Section, request: Method) -> (s: PageStep)
    ensures
        step_v(s) == step_spec(PageV { output: seq![], failed: false, stopped: false }, section@, request),
{
    match section {
        Section::Html(h) => PageStep::Emit(h.clone()),
        Section::Code { code, method } => {
            if method.matches(&request) {
                PageStep::Run(code.clone())
            } else {
                PageStep::Skip
            }
        },
    }
}

impl PageState {
    pub closed spec fn view(&self) -> PageV {
        PageV { output: self.output@, failed: self.failed, stopped: self.stopped }
    }

    /// An empty page.
    pub fn new() -> (r: Self)
        ensures
            r.view() == (PageV { output: seq![], failed: false, stopped: false }),
    {
        PageState { output: String::new(), failed: false, stopped: false }
    }

    /// What to do with the next section.
    pub fn step(&self, section: &Section, request: Method) -> (s: PageStep)
        ensures
            step_v(s) == step_spec(self.view(), section@, request),
    {
        if self.stopped {
            PageStep::Skip
        } else {
            section_step(section, request)
        }
    }

    /// Copy HTML into the page (nothing once it is stopped).
    pub fn emit(&mut self, html: &str)
        ensures
            final(self).view() == emit_spec(old(self).view(), html@),
    {
        if !self.stopped {
            self.output.push_str(html);
        }
    }

    /// Record what running a code section gave (nothing once it is stopped).
    pub fn after_section(&mut self, result: Result<String, String>, owns_response: bool)
        ensures
            final(self).view() == after_spec(
                old(self).view(),
                match result {
                    Ok(t) => Ok(t@),
                    Err(e) => Err(e@),
                },
                owns_response,
            ),
    {
        if !self.stopped {
            let failed = append_section_output(&mut self.output, result);
            self.failed = self.failed || failed;
            self.stopped = owns_response;
        }
    }

    /// Whether a script took over the response.
    pub fn stopped(&self) -> (b: bool)
        ensures
            b == self.view().stopped,
    {
        self.stopped
    }

    /// Whether a script failed.
    pub fn failed(&self) -> (b: bool)
        ensures
            b == self.view().failed,
    {
        self.failed
    }

    /// The page's output.
    pub fn into_output(self) -> (r: String)
        ensures
            r@ == self.view().output,
    {
        self.output
    }
}

// ---- the HTTP response ----

/// `name` is `content-type` in any ASCII case.
pub open spec fn is_content_type(name: Seq<char>) -> bool {
    crate::request::ascii_lower(name) == "content-type"@
}

/// The header lines of the response: `location` for a redirect, the
/// script's headers, then its content type unless a header already names
/// one (in any case).
pub open spec fn header_lines(r: HttpResponse) -> Seq<(Seq<char>, Seq<char>)> {
    let h0: Seq<(Seq<char>, Seq<char>)> = match r.redirect {
        Some(url) => seq![("location"@, url@)],
        None => seq![],
    };
    let h1 = h0 + r.headers.deep_view();
    let named = exists|i: int| 0 <= i < r.headers@.len() && is_content_type(#[trigger] r.headers@[i].0@);
    match r.content_type {
        Some(ct) => if named {
            h1
        } else {
            h1.push(("content-type"@, ct@))
        },
        None => h1,
    }
}

fn is_content_type_name(name: &str) -> (b: bool)
    ensures
        b == is_content_type(name@),
{
    let l = crate::request::lower_chars(name);
    let ct = chars_of("content-type");
    if l.len() != ct.len() {
        return false;
    }
    let mut i: usize = 0;
    while i < l.len()
        invariant
            l@ == crate::request::ascii_lower(name@),
            ct@ == "content-type"@,
            l.len() == ct.len(),
            i <= l.len(),
            forall|j: int| 0 <= j < i ==> l@[j] == ct@[j],
        decreases l.len() - i,
    {
        if l[i] != ct[i] {
            return false;
        }
        i += 1;
    }
    assert(l@ =~= ct@);
    true
}

/// The parts of the HTTP response: status (200 unless the script chose
/// one), body (the script's, else the rendered page) and header lines.
pub fn response_parts(r: &HttpResponse, rendered: String) -> (p: (u16, String, Vec<(String, String)>))
    ensures
        p.0 == match r.status {
            Some(s) => s,
            None => 200u16,
        },
        p.1@ == match r.body {
            Some(b) => b@,
            None => rendered@,
        },
        p.2.deep_view() == header_lines(*r),
{
    let status = match r.status {
        Some(s) => s,
        None => 200,
    };
    let body = match &r.body {
        Some(b) => b.clone(),
        None => rendered,
    };
    let mut headers: Vec<(String, String)> = Vec::new();
    match &r.redirect {
        Some(url) => {
            headers.push(("location".to_string(), url.clone()));
            assert(headers.deep_view() =~= seq![("location"@, url@)]);
        },
        None => {
            assert(headers.deep_view() =~= Seq::<(Seq<char>, Seq<char>)>::empty());
        },
    }
    let ghost h0 = headers.deep_view();
    let mut named = false;
    let mut i: usize = 0;
    while i < r.headers.len()
        invariant
            i <= r.headers.len(),
            headers.deep_view() == h0 + r.headers.deep_view().take(i as int),
            named == exists|j: int| 0 <= j < i && is_content_type(#[trigger] r.headers@[j].0@),
        decreases r.headers.len() - i,
    {
        let (n, v) = (r.headers[i].0.clone(), r.headers[i].1.clone());
        if is_content_type_name(n.as_str()) {
            named = true;
        }
        let ghost before = headers.deep_view();
        headers.push((n, v));
        assert(headers.deep_view() =~= before.push((n@, v@)));
        assert(r.headers.deep_view()[i as int] == (n@, v@));
        assert(r.headers.deep_view().take(i + 1) =~= r.headers.deep_view().take(i as int).push(
            r.headers.deep_view()[i as int],
        ));
        i += 1;
    }
    assert(r.headers.deep_view().take(r.headers.len() as int) =~= r.headers.deep_view());
    if !named {
        match &r.content_type {
            Some(ct) => {
                let ghost before = headers.deep_view();
                headers.push(("content-type".to_string(), ct.clone()));
                assert(headers.deep_view() =~= before.push(("content-type"@, ct@)));
            },
            None => {},
        }
    }
    (status, body, headers)
}

/// No occurrence at or after `i` when `find_from` finds none.
proof fn lemma_find_from_none_means(s: Seq<char>, p: Seq<char>, i: int)
    requires
        find_from(s, p, i) is None,
        0 <= i,
    ensures
        forall|j: int| i <= j ==> !occurs_at(s, p, j),
    decreases s.len() + 1 - i,
{
    if i + p.len() <= s.len() {
        lemma_find_from_none_means(s, p, i + 1);
    }
}

/// The first occurrence is what `find` finds.
proof fn lemma_find_is_first(s: Seq<char>, p: Seq<char>, k: int, i: int)
    requires
        0 <= i <= k,
        occurs_at(s, p, k),
        forall|j: int| 0 <= j < k ==> !occurs_at(s, p, j),
    ensures
        find_from(s, p, i) == Some(k),
    decreases k - i,
{
    if i < k {
        lemma_find_is_first(s, p, k, i + 1);
    }
}

/// `p` placed after text that holds no `p` is found right there, when the
/// first character of `p` does not recur in it (so no occurrence can
/// straddle the join).
proof fn lemma_found_after(x: Seq<char>, p: Seq<char>, y: Seq<char>)
    requires
        p.len() > 0,
        find(x, p) is None,
        forall|d: int| 1 <= d < p.len() ==> #[trigger] p[d] != p[0],
    ensures
        find(x + p + y, p) == Some(x.len() as int),
{
    let s = x + p + y;
    let k = x.len() as int;
    lemma_find_from_none_means(x, p, 0);
    assert(s.subrange(k, k + p.len()) =~= p);
    assert forall|j: int| 0 <= j < k implies !occurs_at(s, p, j) by {
        if occurs_at(s, p, j) {
            if j + p.len() <= k {
                assert(s.subrange(j, j + p.len()) =~= x.subrange(j, j + p.len()));
                assert(occurs_at(x, p, j));
            } else {
                let d = k - j;
                assert(s.subrange(j, j + p.len())[d] == s[k]);
                assert(s[k] == p[0]);
            }
        }
    }
    lemma_find_is_first(s, p, k, 0);
}

/// One tag: HTML that is not blank and holds no `<rhp`, then `<rhp>`, code
/// without `</rhp>`, and `</rhp>`, splits into that HTML and that code (for
/// every method).
pub proof fn lemma_split_one_tag(h: Seq<char>, c: Seq<char>)
    requires
        !all_ws(h),
        find(h, open_tag()) is None,
        find(c, close_tag()) is None,
    ensures
        split_spec(h + seq!['<', 'r', 'h', 'p', '>'] + c + close_tag()) == seq![
            SectionView::Html(h),
            SectionView::Code(c, Method::All),
        ],
{
    let s = h + seq!['<', 'r', 'h', 'p', '>'] + c + close_tag();
    let y = seq!['>'] + c + close_tag();
    assert(s =~= h + open_tag() + y);
    lemma_found_after(h, open_tag(), y);
    assert(h.len() > 0);
    let start = h.len() as int;
    lemma_find_from_bounds(s, open_tag(), 0);
    assert(s.subrange(0, start) =~= h);
    let after = s.subrange(start + 4, s.len() as int);
    assert(after =~= y);
    assert(occurs_at(after, seq!['>'], 0)) by {
        assert(after.subrange(0, 1) =~= seq!['>']);
    }
    lemma_find_is_first(after, seq!['>'], 0, 0);
    let body = after.subrange(1, after.len() as int);
    assert(body =~= c + close_tag() + Seq::<char>::empty());
    lemma_found_after(c, close_tag(), Seq::<char>::empty());
    assert(find(Seq::<char>::empty(), method_key()) is None);
    assert(after.subrange(0, 0) =~= Seq::<char>::empty());
    assert(method_attr(after.subrange(0, 0)) == Method::All);
    lemma_find_from_bounds(body, close_tag(), 0);
    assert(body.subrange(0, c.len() as int) =~= c);
    let tail = body.subrange(c.len() as int + 6, body.len() as int);
    assert(tail =~= Seq::<char>::empty());
    assert(split_spec(tail) =~= Seq::<SectionView>::empty());
    assert(split_spec(s) =~= seq![SectionView::Html(h), SectionView::Code(c, Method::All)]);
}

/// Two HTML sections never follow each other: HTML is always followed by
/// code or ends the page.
pub proof fn lemma_sections_alternate(rest: Seq<char>)
    ensures
        forall|i: int|
            0 <= i < split_spec(rest).len() - 1 && (#[trigger] split_spec(rest)[i]) is Html
                ==> split_spec(rest)[i + 1] is Code,
    decreases rest.len(),
{
    if rest.len() > 0 {
        match find(rest, open_tag()) {
            None => {},
            Some(start) => {
                lemma_find_from_bounds(rest, open_tag(), 0);
                let pre = rest.subrange(0, start);
                let head = if start > 0 && !all_ws(pre) {
                    seq![SectionView::Html(pre)]
                } else {
                    seq![]
                };
                let after = rest.subrange(start + 4, rest.len() as int);
                let method = match find(after, seq!['>']) {
                    Some(gt) => method_attr(after.subrange(0, gt)),
                    None => Method::All,
                };
                lemma_find_from_bounds(after, seq!['>'], 0);
                let body = match find(after, seq!['>']) {
                    Some(gt) => after.subrange(gt + 1, after.len() as int),
                    None => after,
                };
                lemma_find_from_bounds(body, close_tag(), 0);
                match find(body, close_tag()) {
                    None => {
                        assert(split_spec(rest) == head.push(SectionView::Code(body, method)));
                    },
                    Some(ce) => {
                        let tail = body.subrange(ce + 6, body.len() as int);
                        lemma_sections_alternate(tail);
                        let first = head.push(SectionView::Code(body.subrange(0, ce), method));
                        assert(split_spec(rest) == first + split_spec(tail));
                        assert forall|i: int|
                            0 <= i < split_spec(rest).len() - 1 && (#[trigger] split_spec(
                                rest,
                            )[i]) is Html implies split_spec(rest)[i + 1] is Code by {
                            if i >= first.len() {
                                assert(split_spec(rest)[i] == split_spec(tail)[i - first.len()]);
                                assert(split_spec(rest)[i + 1] == split_spec(tail)[i + 1
                                    - first.len()]);
                            }
                        }
                    },
                }
            },
        }
    }
}

// ---- laws on method names and header lines ----

/// The upper-case name of each method a section can be restricted to.
pub open spec fn method_name(m: Method) -> Seq<char> {
    match m {
        Method::Get => "GET"@,
        Method::Head => "HEAD"@,
        Method::Post => "POST"@,
        Method::Put => "PUT"@,
        Method::Delete => "DELETE"@,
        Method::Patch => "PATCH"@,
        Method::Options => "OPTIONS"@,
        Method::Socket => "SOCKET"@,
        Method::All => seq![],
    }
}

/// Each of the eight method names, in any ASCII case, names its own method,
/// and a name that is none of them gives `All`.
pub proof fn lemma_method_names(s: Seq<char>, m: Method)
    ensures
        m != Method::All ==> (method_of(s) == m <==> upper_is(s, method_name(m))),
        method_of(s) == Method::All <==> forall|k: Method| k != Method::All ==> !upper_is(s, #[trigger] method_name(k)),
{
    reveal_strlit("GET");
    reveal_strlit("HEAD");
    reveal_strlit("POST");
    reveal_strlit("PUT");
    reveal_strlit("DELETE");
    reveal_strlit("PATCH");
    reveal_strlit("OPTIONS");
    reveal_strlit("SOCKET");
    assert(method_name(Method::Get) =~= seq!['G', 'E', 'T']);
    assert(method_name(Method::Head) =~= seq!['H', 'E', 'A', 'D']);
    assert(method_name(Method::Post) =~= seq!['P', 'O', 'S', 'T']);
    assert(method_name(Method::Put) =~= seq!['P', 'U', 'T']);
    assert(method_name(Method::Delete) =~= seq!['D', 'E', 'L', 'E', 'T', 'E']);
    assert(method_name(Method::Patch) =~= seq!['P', 'A', 'T', 'C', 'H']);
    assert(method_name(Method::Options) =~= seq!['O', 'P', 'T', 'I', 'O', 'N', 'S']);
    assert(method_name(Method::Socket) =~= seq!['S', 'O', 'C', 'K', 'E', 'T']);
    // Names of the same length differ in their first letter.
    if s.len() > 0 {
        assert(upper_eq(s[0], s[0]));
    }
    if upper_is(s, seq!['H', 'E', 'A', 'D']) {
        assert(upper_eq(s[0], 'H'));
        assert(!upper_is(s, seq!['P', 'O', 'S', 'T'])) by {
            if upper_is(s, seq!['P', 'O', 'S', 'T']) {
                assert(upper_eq(s[0], 'P'));
            }
        }
    }
    if upper_is(s, seq!['G', 'E', 'T']) {
        assert(upper_eq(s[0], 'G'));
        assert(!upper_is(s, seq!['P', 'U', 'T'])) by {
            if upper_is(s, seq!['P', 'U', 'T']) {
                assert(upper_eq(s[0], 'P'));
            }
        }
    }
    if upper_is(s, seq!['D', 'E', 'L', 'E', 'T', 'E']) {
        assert(upper_eq(s[0], 'D'));
        assert(!upper_is(s, seq!['S', 'O', 'C', 'K', 'E', 'T'])) by {
            if upper_is(s, seq!['S', 'O', 'C', 'K', 'E', 'T']) {
                assert(upper_eq(s[0], 'S'));
            }
        }
    }
    if method_of(s) != Method::All {
        let k = method_of(s);
        assert(upper_is(s, method_name(k)));
    } else {
        assert forall|k: Method| k != Method::All implies !upper_is(s, #[trigger] method_name(k)) by {
            match k {
                Method::Get => {},
                Method::Head => {},
                Method::Post => {},
                Method::Put => {},
                Method::Delete => {},
                Method::Patch => {},
                Method::Options => {},
                Method::Socket => {},
                Method::All => {},
            }
        }
    }
}

/// How many of `lines` are named `content-type` (in any case).
pub open spec fn content_type_count(lines: Seq<(Seq<char>, Seq<char>)>) -> nat
    decreases lines.len(),
{
    if lines.len() == 0 {
        0
    } else {
        content_type_count(lines.drop_last()) + if is_content_type(lines.last().0) {
            1nat
        } else {
            0nat
        }
    }
}

proof fn lemma_count_concat(a: Seq<(Seq<char>, Seq<char>)>, b: Seq<(Seq<char>, Seq<char>)>)
    ensures
        content_type_count(a + b) == content_type_count(a) + content_type_count(b),
    decreases b.len(),
{
    if b.len() > 0 {
        lemma_count_concat(a, b.drop_last());
        assert((a + b).drop_last() =~= a + b.drop_last());
        assert((a + b).last() == b.last());
    } else {
        assert(a + b =~= a);
    }
}

proof fn lemma_count_zero(a: Seq<(Seq<char>, Seq<char>)>)
    ensures
        (forall|i: int| 0 <= i < a.len() ==> !is_content_type(#[trigger] a[i].0)) <==> content_type_count(a)
            == 0,
    decreases a.len(),
{
    if a.len() > 0 {
        lemma_count_zero(a.drop_last());
        if content_type_count(a) == 0 {
            assert forall|i: int| 0 <= i < a.len() implies !is_content_type(#[trigger] a[i].0) by {
                if i < a.len() - 1 {
                    assert(a.drop_last()[i] == a[i]);
                }
            }
        } else if forall|i: int| 0 <= i < a.len() ==> !is_content_type(#[trigger] a[i].0) {
            assert forall|i: int| 0 <= i < a.drop_last().len() implies !is_content_type(
                #[trigger] a.drop_last()[i].0,
            ) by {
                assert(a.drop_last()[i] == a[i]);
            }
            assert(!is_content_type(a[a.len() - 1].0));
        }
    }
}

/// The response's header lines keep the script's headers, in order, after
/// the `location` line of a redirect; and they carry a content type once:
/// where any of the script's headers (at any position) is named
/// `content-type` in any case, no other is added, and otherwise exactly
/// one is added when the script chose a content type.
pub proof fn lemma_content_type_once(r: HttpResponse)
    ensures
        ({
            let lines = header_lines(r);
            let script = r.headers.deep_view();
            let k: int = if r.redirect is Some { 1 } else { 0 };
            &&& r.redirect matches Some(url) ==> lines[0] == ("location"@, url@)
            &&& lines.subrange(k, k + script.len()) == script
            &&& content_type_count(script) > 0 ==> content_type_count(lines) == content_type_count(script)
            &&& content_type_count(script) == 0 ==> content_type_count(lines) == if r.content_type is Some {
                1nat
            } else {
                0nat
            }
        }),
{
    reveal_strlit("location");
    reveal_strlit("content-type");
    let script = r.headers.deep_view();
    let h0: Seq<(Seq<char>, Seq<char>)> = match r.redirect {
        Some(url) => seq![("location"@, url@)],
        None => seq![],
    };
    let h1 = h0 + script;
    lemma_count_zero(script);
    lemma_count_zero(h0);
    lemma_count_concat(h0, script);
    let named = exists|i: int| 0 <= i < r.headers@.len() && is_content_type(#[trigger] r.headers@[i].0@);
    assert(named <==> content_type_count(script) > 0) by {
        if named {
            let i = choose|i: int| 0 <= i < r.headers@.len() && is_content_type(#[trigger] r.headers@[i].0@);
            assert(script[i].0 == r.headers@[i].0@);
        }
        if content_type_count(script) > 0 {
            let i = choose|i: int| 0 <= i < script.len() && is_content_type(#[trigger] script[i].0);
            assert(script[i].0 == r.headers@[i].0@);
        }
    }
    assert(!is_content_type("location"@)) by {
        assert(crate::request::ascii_lower("location"@).len() != "content-type"@.len());
    }
    assert(content_type_count(h0) == 0);
    assert(h1.subrange(h0.len() as int, (h0.len() + script.len()) as int) =~= script);
    if let Some(ct) = r.content_type {
        if !named {
            let extra = seq![("content-type"@, ct@)];
            assert(is_content_type("content-type"@)) by {
                assert(crate::request::ascii_lower("content-type"@) =~= "content-type"@);
            }
            lemma_count_concat(h1, extra);
            assert(content_type_count(extra) == 1) by {
                assert(extra.drop_last() =~= Seq::<(Seq<char>, Seq<char>)>::empty());
                assert(content_type_count(extra.drop_last()) == 0);
                assert(extra.last().0 == "content-type"@);
                assert(is_content_type(extra.last().0));
            }
            assert(h1.push(("content-type"@, ct@)) =~= h1 + extra);
            assert(h1.push(("content-type"@, ct@)).subrange(h0.len() as int, (h0.len() + script.len()) as int) =~= script);
        }
    }
}

} // verus!
