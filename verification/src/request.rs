//! What a request gives the page: the `Cookie` header split into pairs,
//! whether the request asks for a WebSocket, how its body is read, the
//! fields of a form body, and which `.rhp` file a request path names.
use vstd::prelude::*;

use crate::files::join_path;
use crate::process::Method;
use crate::text::{all_ws, chars_of, find, find_in, found_at, is_whitespace, is_ws, occurs_at, string_of};

verus! {

// ---- trimming ----

/// Number of trailing whitespace characters of `s`.
pub open spec fn trailing_ws(s: Seq<char>) -> nat
    decreases s.len(),
{
    if s.len() > 0 && is_ws(s.last()) {
        1 + trailing_ws(s.drop_last())
    } else {
        0
    }
}

/// `str::trim`: `s` without leading and trailing whitespace.
pub open spec fn trim(s: Seq<char>) -> Seq<char> {
    let t = crate::text::trim_start(s);
    t.subrange(0, t.len() - trailing_ws(t))
}

proof fn lemma_leading_ws_bound(s: Seq<char>)
    ensures
        crate::text::leading_ws(s) <= s.len(),
        forall|i: int| 0 <= i < crate::text::leading_ws(s) ==> is_ws(#[trigger] s[i]),
        crate::text::leading_ws(s) < s.len() ==> !is_ws(s[crate::text::leading_ws(s) as int]),
    decreases s.len(),
{
    if s.len() > 0 && is_ws(s[0]) {
        lemma_leading_ws_bound(s.drop_first());
        assert forall|i: int| 0 <= i < crate::text::leading_ws(s) implies is_ws(#[trigger] s[i]) by {
            if i > 0 {
                assert(s[i] == s.drop_first()[i - 1]);
            }
        }
    }
}

proof fn lemma_trailing_ws_bound(s: Seq<char>)
    ensures
        trailing_ws(s) <= s.len(),
        forall|i: int| s.len() - trailing_ws(s) <= i < s.len() ==> is_ws(#[trigger] s[i]),
        trailing_ws(s) < s.len() ==> !is_ws(s[s.len() - trailing_ws(s) - 1]),
    decreases s.len(),
{
    if s.len() > 0 && is_ws(s.last()) {
        lemma_trailing_ws_bound(s.drop_last());
        assert forall|i: int| s.len() - trailing_ws(s) <= i < s.len() implies is_ws(
            #[trigger] s[i],
        ) by {
            if i < s.len() - 1 {
                assert(s[i] == s.drop_last()[i]);
            }
        }
    }
}

/// The bounds `lo..hi` of `s[a..b]` trimmed.
fn trim_bounds(s: &Vec<char>, a: usize, b: usize) -> (r: (usize, usize))
    requires
        a <= b <= s.len(),
    ensures
        a <= r.0 <= r.1 <= b,
        s@.subrange(r.0 as int, r.1 as int) == trim(s@.subrange(a as int, b as int)),
{
    let ghost sub = s@.subrange(a as int, b as int);
    proof {
        lemma_leading_ws_bound(sub);
    }
    let mut lo = a;
    while lo < b && is_whitespace(s[lo])
        invariant
            a <= lo <= b <= s.len(),
            sub == s@.subrange(a as int, b as int),
            lo - a <= crate::text::leading_ws(sub),
            forall|i: int| 0 <= i < crate::text::leading_ws(sub) ==> is_ws(#[trigger] sub[i]),
            crate::text::leading_ws(sub) < sub.len() ==> !is_ws(
                sub[crate::text::leading_ws(sub) as int],
            ),
            crate::text::leading_ws(sub) <= sub.len(),
        decreases b - lo,
    {
        proof {
            if lo - a == crate::text::leading_ws(sub) {
                assert(sub[lo - a] == s@[lo as int]);
            }
        }
        lo += 1;
    }
    proof {
        if lo < b {
            assert(sub[lo - a] == s@[lo as int]);
        }
        assert(lo - a == crate::text::leading_ws(sub));
    }
    let ghost t = s@.subrange(lo as int, b as int);
    assert(t =~= crate::text::trim_start(sub));
    proof {
        lemma_trailing_ws_bound(t);
    }
    let mut hi = b;
    while hi > lo && is_whitespace(s[hi - 1])
        invariant
            a <= lo <= hi <= b <= s.len(),
            t == s@.subrange(lo as int, b as int),
            b - hi <= trailing_ws(t),
            forall|i: int| t.len() - trailing_ws(t) <= i < t.len() ==> is_ws(#[trigger] t[i]),
            trailing_ws(t) < t.len() ==> !is_ws(t[t.len() - trailing_ws(t) - 1]),
            trailing_ws(t) <= t.len(),
        decreases hi,
    {
        proof {
            if b - hi == trailing_ws(t) {
                assert(t[hi - 1 - lo] == s@[hi - 1]);
            }
        }
        hi -= 1;
    }
    proof {
        if hi > lo {
            assert(t[hi - 1 - lo] == s@[hi - 1]);
        }
        assert(b - hi == trailing_ws(t));
        assert(s@.subrange(lo as int, hi as int) =~= t.subrange(0, t.len() - trailing_ws(t)));
    }
    (lo, hi)
}

// ---- cookies ----

/// One `name=value` piece of a `Cookie` header, split at its first `=`;
/// a piece without `=` gives nothing.
pub open spec fn cookie_pair(piece: Seq<char>) -> Seq<(Seq<char>, Seq<char>)> {
    let t = trim(piece);
    match find(t, seq!['=']) {
        Some(j) => seq![(t.subrange(0, j), t.subrange(j + 1, t.len() as int))],
        None => seq![],
    }
}

/// The `(name, value)` pairs of a `Cookie` header, in order: its `;`-separated
/// pieces, each trimmed and split at its first `=`.
pub open spec fn cookie_pairs(raw: Seq<char>) -> Seq<(Seq<char>, Seq<char>)>
    decreases raw.len(),
{
    match find(raw, seq![';']) {
        Some(i) => {
            if 0 <= i < raw.len() {
                cookie_pair(raw.subrange(0, i)) + cookie_pairs(raw.subrange(i + 1, raw.len() as int))
            } else {
                seq![]
            }
        },
        None => cookie_pair(raw),
    }
}

/// The pairs of `s[lo..hi]` as one piece.
fn piece_pair(s: &Vec<char>, lo: usize, hi: usize) -> (r: Vec<(String, String)>)
    requires
        lo <= hi <= s.len(),
    ensures
        r.deep_view() == cookie_pair(s@.subrange(lo as int, hi as int)),
{
    let (a, b) = trim_bounds(s, lo, hi);
    let ghost t = s@.subrange(a as int, b as int);
    let mut r: Vec<(String, String)> = Vec::new();
    let eq = ['='];
    assert(eq@ =~= seq!['=']);
    match find_in(s, a, b, &eq) {
        Some(j) => {
            proof {
                crate::text::lemma_find_from_bounds(t, seq!['='], 0);
            }
            let name = string_of(s, a, a + j);
            let value = string_of(s, a + j + 1, b);
            assert(name@ =~= t.subrange(0, j as int));
            assert(value@ =~= t.subrange(j + 1, t.len() as int));
            r.push((name, value));
        },
        None => {},
    }
    assert(eq@ =~= seq!['=']);
    assert(r.deep_view() =~= cookie_pair(s@.subrange(lo as int, hi as int)));
    r
}

/// Split a `Cookie` header into its `(name, value)` pairs, in order; a
/// name that occurs twice occurs twice here too (the later one wins when
/// they are collected into a map).
pub fn parse_cookies(raw: &str) -> (r: Vec<(String, String)>)
    ensures
        r.deep_view() == cookie_pairs(raw@),
{
    let s = chars_of(raw);
    let semi = [';'];
    assert(semi@ =~= seq![';']);
    let mut out: Vec<(String, String)> = Vec::new();
    let mut pos: usize = 0;
    assert(s@.subrange(0, s.len() as int) =~= raw@);
    assert(out.deep_view() + cookie_pairs(raw@) =~= cookie_pairs(raw@));
    loop
        invariant
            s@ == raw@,
            semi@ == seq![';'],
            pos <= s.len(),
            out.deep_view() + cookie_pairs(s@.subrange(pos as int, s.len() as int)) == cookie_pairs(
                raw@,
            ),
        decreases s.len() - pos,
    {
        let ghost rest = s@.subrange(pos as int, s.len() as int);
        match find_in(&s, pos, s.len(), &semi) {
            None => {
                let p = piece_pair(&s, pos, s.len());
                let ghost before = out.deep_view();
                let mut p = p;
                out.append(&mut p);
                assert(out.deep_view() =~= before + cookie_pair(rest));
                assert(cookie_pairs(rest) == cookie_pair(rest));
                return out;
            },
            Some(i) => {
                proof {
                    crate::text::lemma_find_from_bounds(rest, seq![';'], 0);
                }
                let p = piece_pair(&s, pos, pos + i);
                let ghost before = out.deep_view();
                let mut p = p;
                out.append(&mut p);
                assert(s@.subrange(pos as int, pos + i) =~= rest.subrange(0, i as int));
                assert(s@.subrange(pos + i + 1, s.len() as int) =~= rest.subrange(
                    i + 1,
                    rest.len() as int,
                ));
                assert(out.deep_view() =~= before + cookie_pair(rest.subrange(0, i as int)));
                pos = pos + i + 1;
            },
        }
    }
}

// ---- WebSocket upgrade ----

/// ASCII letters made lower-case (`to_ascii_lowercase`).
pub open spec fn ascii_lower(s: Seq<char>) -> Seq<char> {
    s.map_values(|c: char| if 'A' <= c && c <= 'Z' { ((c as u8) + 32) as u8 as char } else { c })
}

/// A `Connection` or `Upgrade` header value that mentions an upgrade: it
/// contains `upgrade` or `websocket`, in any ASCII case.
pub open spec fn mentions_upgrade(v: Seq<char>) -> bool {
    find(ascii_lower(v), "upgrade"@) is Some || find(ascii_lower(v), "websocket"@) is Some
}

pub fn lower_chars(v: &str) -> (r: Vec<char>)
    ensures
        r@ == ascii_lower(v@),
{
    let s = chars_of(v);
    let mut r: Vec<char> = Vec::new();
    let mut i: usize = 0;
    while i < s.len()
        invariant
            s@ == v@,
            i <= s.len(),
            r@ == ascii_lower(v@).take(i as int),
        decreases s.len() - i,
    {
        let c = s[i];
        let l = if 'A' <= c && c <= 'Z' {
            ((c as u8) + 32) as char
        } else {
            c
        };
        r.push(l);
        assert(ascii_lower(v@).take(i + 1) =~= ascii_lower(v@).take(i as int).push(l));
        i += 1;
    }
    assert(ascii_lower(v@).take(s.len() as int) =~= ascii_lower(v@));
    r
}

/// See `mentions_upgrade`.
pub fn header_mentions_upgrade(v: &str) -> (b: bool)
    ensures
        b == mentions_upgrade(v@),
{
    let l = lower_chars(v);
    let up = chars_of("upgrade");
    let ws = chars_of("websocket");
    assert(l@.subrange(0, l.len() as int) =~= l@);
    let a = find_in(&l, 0, l.len(), up.as_slice());
    let b = find_in(&l, 0, l.len(), ws.as_slice());
    a.is_some() || b.is_some()
}

/// A request asks for a WebSocket when both its `Connection` and its
/// `Upgrade` header mention an upgrade; a header that is absent (or not
/// text) mentions nothing.
pub fn is_ws_upgrade(connection: Option<&str>, upgrade: Option<&str>) -> (b: bool)
    ensures
        b == ((connection matches Some(c) && mentions_upgrade(c@)) && (upgrade matches Some(u)
            && mentions_upgrade(u@))),
{
    let c = match connection {
        Some(c) => header_mentions_upgrade(c),
        None => false,
    };
    let u = match upgrade {
        Some(u) => header_mentions_upgrade(u),
        None => false,
    };
    c && u
}

// ---- request bodies ----

/// How a request body is read.
#[derive(Debug, Clone, Copy, PartialEq, Eq, Structural)]
pub enum BodyKind {
    /// `GET`, `HEAD` and empty bodies: an empty object.
    Empty,
    /// A JSON document.
    Json,
    /// `application/x-www-form-urlencoded` fields.
    Form,
    /// Anything else: `{ text: ... }`.
    Text,
}

pub open spec fn starts_with(s: Seq<char>, p: Seq<char>) -> bool {
    s.len() >= p.len() && s.subrange(0, p.len() as int) == p
}

pub open spec fn ends_with(s: Seq<char>, p: Seq<char>) -> bool {
    s.len() >= p.len() && s.subrange(s.len() - p.len(), s.len() as int) == p
}

pub open spec fn body_kind_spec(method: Method, content_type: Seq<char>, empty: bool) -> BodyKind {
    if method == Method::Get || method == Method::Head || empty {
        BodyKind::Empty
    } else if starts_with(content_type, "application/json"@) || ends_with(content_type, "+json"@) {
        BodyKind::Json
    } else if starts_with(content_type, "application/x-www-form-urlencoded"@) {
        BodyKind::Form
    } else {
        BodyKind::Text
    }
}

fn starts_with_str(s: &Vec<char>, p: &str) -> (b: bool)
    ensures
        b == starts_with(s@, p@),
{
    let pc = chars_of(p);
    if pc.len() > s.len() {
        return false;
    }
    assert(s@.subrange(0, s.len() as int) =~= s@);
    let r = crate::text::matches_at(s, 0, s.len(), pc.as_slice(), 0);
    assert(r == occurs_at(s@, p@, 0));
    r
}

fn ends_with_str(s: &Vec<char>, p: &str) -> (b: bool)
    ensures
        b == ends_with(s@, p@),
{
    let pc = chars_of(p);
    if pc.len() > s.len() {
        return false;
    }
    assert(s@.subrange(0, s.len() as int) =~= s@);
    let r = crate::text::matches_at(s, 0, s.len(), pc.as_slice(), s.len() - pc.len());
    r
}

/// How the body of a request with this method, `Content-Type` (empty when
/// absent) and emptiness is read.
pub fn body_kind(method: Method, content_type: &str, empty: bool) -> (k: BodyKind)
    ensures
        k == body_kind_spec(method, content_type@, empty),
{
    if method == Method::Get || method == Method::Head || empty {
        return BodyKind::Empty;
    }
    let ct = chars_of(content_type);
    if starts_with_str(&ct, "application/json") || ends_with_str(&ct, "+json") {
        BodyKind::Json
    } else if starts_with_str(&ct, "application/x-www-form-urlencoded") {
        BodyKind::Form
    } else {
        BodyKind::Text
    }
}

// ---- form bodies ----

/// The error type of `serde_urlencoded`.
#[verifier::external_type_specification]
#[verifier::external_body]
pub struct ExUrlencodedError(serde_urlencoded::de::Error);

/// The `(key, value)` fields that `serde_urlencoded` decodes from a form
/// body (`None` where it reports an error).
pub uninterp spec fn urlencoded_pairs(bytes: Seq<u8>) -> Option<Seq<(Seq<char>, Seq<char>)>>;

/// `serde_urlencoded::from_bytes::<Vec<(String, String)>>`: the fields of an
/// `application/x-www-form-urlencoded` body, percent-decoded, in order. The
/// contract names the result and claims only that it depends on the bytes.
#[verifier::external_body]
fn decode_form_pairs(bytes: &[u8]) -> (r: Result<Vec<(String, String)>, serde_urlencoded::de::Error>)
    ensures
        match r {
            Ok(v) => urlencoded_pairs(bytes@) == Some(v.deep_view()),
            Err(_) => urlencoded_pairs(bytes@) is None,
        },
{
    serde_urlencoded::from_bytes::<Vec<(String, String)>>(bytes)
}

/// The text of a `serde_urlencoded` error (its `Display`); nothing is
/// claimed of it.
#[verifier::external_body]
fn urlencoded_error_text(e: &serde_urlencoded::de::Error) -> (r: String) {
    e.to_string()
}

/// Why a request could not be turned into a page context.
#[derive(Debug, Clone)]
pub enum ContextError {
    /// The body could not be read.
    Body(String),
    /// The body is not valid JSON.
    Json(String),
    /// The body is not a valid form.
    Form(String),
}

impl ContextError {
    /// The message the request is refused with.
    pub fn message(&self) -> (r: String)
        ensures
            r@ == (match self {
                ContextError::Body(e) => "reading request body: "@ + e@,
                ContextError::Json(e) => "parsing json body: "@ + e@,
                ContextError::Form(e) => "parsing form body: "@ + e@,
            }),
    {
        let (prefix, e) = match self {
            ContextError::Body(e) => ("reading request body: ", e),
            ContextError::Json(e) => ("parsing json body: ", e),
            ContextError::Form(e) => ("parsing form body: ", e),
        };
        let mut r = prefix.to_string();
        r.push_str(e.as_str());
        r
    }
}

/// The value of a form field in the body object: the first value of a key,
/// or (under the key with an `s` added) every value of it.
#[derive(Debug, Clone)]
pub enum FormValue {
    Text(String),
    List(Vec<String>),
}

/// A form value as plain text.
pub enum FV {
    Text(Seq<char>),
    List(Seq<Seq<char>>),
}

pub open spec fn fv(v: FormValue) -> FV {
    match v {
        FormValue::Text(t) => FV::Text(t@),
        FormValue::List(l) => FV::List(l.deep_view()),
    }
}

pub open spec fn fields_v(s: Seq<(String, FormValue)>) -> Seq<(Seq<char>, FV)> {
    s.map_values(|p: (String, FormValue)| (p.0@, fv(p.1)))
}

/// The first index at or after `i` whose key is `k`.
pub open spec fn key_index_from(s: Seq<(Seq<char>, FV)>, k: Seq<char>, i: int) -> Option<int>
    decreases s.len() - i,
{
    if i < 0 || i >= s.len() {
        None
    } else if s[i].0 == k {
        Some(i)
    } else {
        key_index_from(s, k, i + 1)
    }
}

pub open spec fn key_index(s: Seq<(Seq<char>, FV)>, k: Seq<char>) -> Option<int> {
    key_index_from(s, k, 0)
}

/// One field `k=v` added to the body object: `k` keeps its first value, and
/// `k` + `s` collects every value (replacing a text value of that name).
pub open spec fn form_step(s: Seq<(Seq<char>, FV)>, k: Seq<char>, v: Seq<char>) -> Seq<(Seq<char>, FV)> {
    let s1 = match key_index(s, k) {
        Some(_) => s,
        None => s.push((k, FV::Text(v))),
    };
    let ak = k + seq!['s'];
    match key_index(s1, ak) {
        Some(j) => match s1[j].1 {
            FV::List(l) => s1.update(j, (ak, FV::List(l.push(v)))),
            FV::Text(_) => s1.update(j, (ak, FV::List(seq![v]))),
        },
        None => s1.push((ak, FV::List(seq![v]))),
    }
}

/// The body object of a form with these fields.
pub open spec fn form_object(pairs: Seq<(Seq<char>, Seq<char>)>) -> Seq<(Seq<char>, FV)>
    decreases pairs.len(),
{
    if pairs.len() == 0 {
        seq![]
    } else {
        form_step(form_object(pairs.drop_last()), pairs.last().0, pairs.last().1)
    }
}

proof fn lemma_key_index_from(s: Seq<(Seq<char>, FV)>, k: Seq<char>, i: int)
    ensures
        key_index_from(s, k, i) matches Some(j) ==> 0 <= i <= j < s.len() && s[j].0 == k,
    decreases s.len() - i,
{
    if 0 <= i < s.len() && s[i].0 != k {
        lemma_key_index_from(s, k, i + 1);
    }
}

/// The index of key `k` in `fields`.
fn find_key(fields: &Vec<(String, FormValue)>, k: &String) -> (r: Option<usize>)
    ensures
        match r {
            Some(i) => key_index(fields_v(fields@), k@) == Some(i as int) && i < fields.len(),
            None => key_index(fields_v(fields@), k@) is None,
        },
{
    let ghost s = fields_v(fields@);
    let mut i: usize = 0;
    while i < fields.len()
        invariant
            i <= fields.len(),
            s == fields_v(fields@),
            key_index(s, k@) == key_index_from(s, k@, i as int),
        decreases fields.len() - i,
    {
        if fields[i].0 == *k {
            proof {
                lemma_key_index_from(s, k@, i as int);
            }
            return Some(i);
        }
        i += 1;
    }
    None
}

/// Add one field to the body object (see `form_step`).
fn add_field(fields: &mut Vec<(String, FormValue)>, k: String, v: String)
    ensures
        fields_v(final(fields)@) == form_step(fields_v(old(fields)@), k@, v@),
{
    let ghost s0 = fields_v(fields@);
    let ghost ak = k@ + seq!['s'];
    if find_key(fields, &k).is_none() {
        fields.push((k.clone(), FormValue::Text(v.clone())));
        assert(fields_v(fields@) =~= s0.push((k@, FV::Text(v@))));
    }
    let ghost s1 = fields_v(fields@);
    let mut arr_key = k.clone();
    arr_key.push('s');
    assert(arr_key@ =~= ak);
    match find_key(fields, &arr_key) {
        Some(j) => {
            let ghost before = fields@;
            let old_entry = fields.remove(j);
            let new_value = match old_entry.1 {
                FormValue::List(l) => {
                    let ghost old_list = l.deep_view();
                    let mut l = l;
                    l.push(v);
                    assert(l.deep_view() =~= old_list.push(v@));
                    FormValue::List(l)
                },
                FormValue::Text(_) => {
                    let mut l: Vec<String> = Vec::new();
                    l.push(v);
                    assert(l.deep_view() =~= seq![v@]);
                    FormValue::List(l)
                },
            };
            assert(fv(new_value) == match fv(old_entry.1) {
                FV::List(l) => FV::List(l.push(v@)),
                FV::Text(_) => FV::List(seq![v@]),
            });
            let ghost nv = fv(new_value);
            fields.insert(j, (arr_key, new_value));
            proof {
                before.remove_ensures(j as int);
                before.remove(j as int).insert_ensures(j as int, (arr_key, new_value));
                assert(fields@ =~= before.update(j as int, (arr_key, new_value)));
                assert(s1 == fields_v(before));
                assert(fields_v(before)[j as int] == (before[j as int].0@, fv(before[j as int].1)));
                assert(s1[j as int].1 == fv(old_entry.1));
                lemma_key_index_from(s1, ak, 0);
                assert(s1[j as int].0 == ak);
                let after = fields_v(fields@);
                assert(after =~= s1.update(j as int, (ak, nv)));
            }
        },
        None => {
            let mut l: Vec<String> = Vec::new();
            l.push(v);
            assert(l.deep_view() =~= seq![v@]);
            let ghost lv = FormValue::List(l);
            fields.push((arr_key, FormValue::List(l)));
            assert(fv(lv) == FV::List(seq![v@]));
            assert(fields_v(fields@) =~= s1.push((ak, FV::List(seq![v@]))));
        },
    }
}

/// The parameters of a query string, decoded as a form is; a query that
/// does not decode gives none.
pub fn query_params(query: &str) -> (r: Vec<(String, String)>)
    ensures
        match urlencoded_pairs(vstd::utf8::encode_utf8(query@)) {
            Some(p) => r.deep_view() == p,
            None => r.len() == 0,
        },
{
    match decode_form_pairs(query.as_bytes()) {
        Ok(pairs) => pairs,
        Err(_) => Vec::new(),
    }
}

/// The body object of a form body: every decoded field added in turn (see
/// `form_step`), or the decoder's error.
pub fn form_body(bytes: &[u8]) -> (r: Result<Vec<(String, FormValue)>, ContextError>)
    ensures
        match r {
            Ok(fields) => urlencoded_pairs(bytes@) matches Some(p) && fields_v(fields@)
                == form_object(p),
            Err(e) => urlencoded_pairs(bytes@) is None && e is Form,
        },
{
    let pairs = match decode_form_pairs(bytes) {
        Ok(p) => p,
        Err(e) => {
            return Err(ContextError::Form(urlencoded_error_text(&e)));
        },
    };
    Ok(form_fields(pairs))
}

/// The body object of a form with the fields `pairs`, in order.
pub fn form_fields(pairs: Vec<(String, String)>) -> (r: Vec<(String, FormValue)>)
    ensures
        fields_v(r@) == form_object(pairs.deep_view()),
{
    let ghost all = pairs.deep_view();
    let mut fields: Vec<(String, FormValue)> = Vec::new();
    let mut i: usize = 0;
    assert(fields_v(fields@) =~= form_object(all.take(0)));
    while i < pairs.len()
        invariant
            i <= pairs.len(),
            all == pairs.deep_view(),
            fields_v(fields@) == form_object(all.take(i as int)),
        decreases pairs.len() - i,
    {
        let (k, v) = (pairs[i].0.clone(), pairs[i].1.clone());
        add_field(&mut fields, k, v);
        assert(all.take(i + 1).drop_last() =~= all.take(i as int));
        assert(all.take(i + 1).last() == all[i as int]);
        i += 1;
    }
    assert(all.take(pairs.len() as int) =~= all);
    fields
}

// ---- the script a request names ----

/// `s` without its leading `/`s (`trim_start_matches('/')`).
pub open spec fn trim_slashes(s: Seq<char>) -> Seq<char>
    decreases s.len(),
{
    if s.len() > 0 && s[0] == '/' {
        trim_slashes(s.drop_first())
    } else {
        s
    }
}

/// The path a request path names inside the site folder.
pub open spec fn request_path_spec(folder: Seq<char>, uri_path: Seq<char>) -> Seq<char> {
    join_path(folder, trim_slashes(uri_path))
}

/// `p` without trailing separators and `.` components, which
/// `Path::file_name` looks past.
pub open spec fn strip_tail(p: Seq<char>) -> Seq<char>
    decreases p.len(),
{
    if p.len() > 0 && p.last() == '/' {
        strip_tail(p.drop_last())
    } else if p.len() >= 2 && p.last() == '.' && p[p.len() - 2] == '/' {
        strip_tail(p.drop_last())
    } else {
        p
    }
}

/// The index just after the last `/` of `q` (0 when there is none).
pub open spec fn segment_start(q: Seq<char>) -> int
    decreases q.len(),
{
    if q.len() == 0 {
        0
    } else if q.last() == '/' {
        q.len() as int
    } else {
        segment_start(q.drop_last())
    }
}

/// `Path::file_name`: the last component, unless it is `.`, `..` or absent.
pub open spec fn file_name(p: Seq<char>) -> Option<Seq<char>> {
    let q = strip_tail(p);
    let seg = q.subrange(segment_start(q), q.len() as int);
    if seg.len() == 0 || seg == seq!['.'] || seg == seq!['.', '.'] {
        None
    } else {
        Some(seg)
    }
}

/// The index of the last `.` of `n`, if any.
pub open spec fn last_dot(n: Seq<char>) -> Option<int>
    decreases n.len(),
{
    if n.len() == 0 {
        None
    } else if n.last() == '.' {
        Some(n.len() - 1)
    } else {
        last_dot(n.drop_last())
    }
}

/// `Path::extension` of a file name: what follows its last `.`, unless the
/// only `.` is the first character.
pub open spec fn extension(n: Seq<char>) -> Option<Seq<char>> {
    match last_dot(n) {
        Some(k) => if k == 0 {
            None
        } else {
            Some(n.subrange(k + 1, n.len() as int))
        },
        None => None,
    }
}

/// The path names a script: its file name has the extension `rhp`.
pub open spec fn is_script_path(p: Seq<char>) -> bool {
    file_name(p) matches Some(n) && extension(n) == Some(seq!['r', 'h', 'p'])
}

/// The path a request path names inside the site folder: the folder joined
/// with the request path less its leading `/`s.
pub fn request_path(folder: &str, uri_path: &str) -> (r: String)
    ensures
        r@ == request_path_spec(folder@, uri_path@),
{
    let u = chars_of(uri_path);
    let mut i: usize = 0;
    assert(uri_path@.subrange(0, u.len() as int) =~= uri_path@);
    while i < u.len() && u[i] == '/'
        invariant
            u@ == uri_path@,
            i <= u.len(),
            trim_slashes(uri_path@) == trim_slashes(uri_path@.subrange(i as int, u.len() as int)),
        decreases u.len() - i,
    {
        assert(uri_path@.subrange(i as int, u.len() as int).drop_first() =~= uri_path@.subrange(
            i + 1,
            u.len() as int,
        ));
        i += 1;
    }
    let rel = string_of(&u, i, u.len());
    assert(rel@ == trim_slashes(uri_path@)) by {
        let t = uri_path@.subrange(i as int, u.len() as int);
        if t.len() > 0 {
            assert(t[0] == u@[i as int]);
        }
        assert(i == u.len() ==> t.len() == 0);
    }
    let f = chars_of(folder);
    let mut out = folder.to_string();
    if f.len() > 0 && f[f.len() - 1] != '/' {
        out.push('/');
    }
    out.push_str(rel.as_str());
    out
}

/// The index page of a directory: `index.rhp` inside it.
pub fn index_file(dir: &str) -> (r: String)
    ensures
        r@ == join_path(dir@, "index.rhp"@),
{
    let f = chars_of(dir);
    let mut out = dir.to_string();
    if f.len() > 0 && f[f.len() - 1] != '/' {
        out.push('/');
    }
    out.push_str("index.rhp");
    out
}

/// The end of `strip_tail(p)`.
fn stripped_end(p: &Vec<char>) -> (e: usize)
    ensures
        e <= p.len(),
        strip_tail(p@) == p@.subrange(0, e as int),
{
    let mut e: usize = p.len();
    assert(p@.subrange(0, p.len() as int) =~= p@);
    while e > 0 && (p[e - 1] == '/' || (e >= 2 && p[e - 1] == '.' && p[e - 2] == '/'))
        invariant
            e <= p.len(),
            strip_tail(p@) == strip_tail(p@.subrange(0, e as int)),
        decreases e,
    {
        assert(p@.subrange(0, e as int).drop_last() =~= p@.subrange(0, e - 1));
        e -= 1;
    }
    e
}

/// The start of the last component of `p[..e]`.
fn component_start(p: &Vec<char>, e: usize) -> (st: usize)
    requires
        e <= p.len(),
    ensures
        st <= e,
        st == segment_start(p@.subrange(0, e as int)),
{
    let ghost q = p@.subrange(0, e as int);
    let mut st: usize = e;
    assert(q.subrange(0, e as int) =~= q);
    while st > 0 && p[st - 1] != '/'
        invariant
            st <= e <= p.len(),
            q == p@.subrange(0, e as int),
            segment_start(q) == segment_start(q.subrange(0, st as int)),
        decreases st,
    {
        assert(q.subrange(0, st as int).drop_last() =~= q.subrange(0, st - 1));
        st -= 1;
    }
    proof {
        if st > 0 {
            assert(segment_start(q.subrange(0, st as int)) == st);
        } else {
            assert(q.subrange(0, 0) =~= Seq::<char>::empty());
        }
    }
    st
}

/// One past the last `.` of `p[st..e]`, or `st` when it has none.
fn dot_end(p: &Vec<char>, st: usize, e: usize) -> (k: usize)
    requires
        st <= e <= p.len(),
    ensures
        st <= k <= e,
        k > st ==> last_dot(p@.subrange(st as int, e as int)) == Some(k - st - 1),
        k == st ==> last_dot(p@.subrange(st as int, e as int)) is None,
{
    let ghost seg = p@.subrange(st as int, e as int);
    let mut k: usize = e;
    assert(seg.subrange(0, e - st) =~= seg);
    while k > st && p[k - 1] != '.'
        invariant
            st <= k <= e <= p.len(),
            seg == p@.subrange(st as int, e as int),
            last_dot(seg) == last_dot(seg.subrange(0, k - st)),
        decreases k,
    {
        assert(seg.subrange(0, k - st).drop_last() =~= seg.subrange(0, k - 1 - st));
        k -= 1;
    }
    proof {
        if k > st {
            assert(last_dot(seg.subrange(0, k - st)) == Some(k - st - 1));
        } else {
            assert(seg.subrange(0, 0) =~= Seq::<char>::empty());
        }
    }
    k
}

/// Whether a path names a script, by its extension.
#[verifier::spinoff_prover]
pub fn has_rhp_extension(path: &str) -> (b: bool)
    ensures
        b == is_script_path(path@),
{
    let p = chars_of(path);
    let e = stripped_end(&p);
    let st = component_start(&p, e);
    let ghost q = path@.subrange(0, e as int);
    let ghost seg = path@.subrange(st as int, e as int);
    assert(q.subrange(st as int, q.len() as int) =~= seg);
    let n = e - st;
    if n == 0 || (n == 1 && p[st] == '.') || (n == 2 && p[st] == '.' && p[st + 1] == '.') {
        proof {
            if n == 1 {
                assert(seg =~= seq!['.']);
            }
            if n == 2 {
                assert(seg =~= seq!['.', '.']);
            }
        }
        return false;
    }
    proof {
        if n == 1 {
            assert(seg != seq!['.']) by {
                assert(seg[0] != seq!['.'][0]);
            }
        }
        if n == 2 {
            assert(seg != seq!['.', '.']) by {
                if seg[0] == '.' {
                    assert(seg[1] != seq!['.', '.'][1]);
                } else {
                    assert(seg[0] != seq!['.', '.'][0]);
                }
            }
        }
    }
    assert(file_name(path@) == Some(seg));
    let k = dot_end(&p, st, e);
    if k <= st + 1 {
        assert(extension(seg) is None);
        return false;
    }
    let ghost ext = seg.subrange(k - st, seg.len() as int);
    assert(extension(seg) == Some(ext));
    assert(ext =~= p@.subrange(k as int, e as int));
    is_rhp_text(&p, k, e)
}

/// Whether `p[k..e]` is `rhp`.
fn is_rhp_text(p: &Vec<char>, k: usize, e: usize) -> (b: bool)
    requires
        k <= e <= p.len(),
    ensures
        b == (p@.subrange(k as int, e as int) == seq!['r', 'h', 'p']),
{
    let ghost ext = p@.subrange(k as int, e as int);
    if e - k != 3 {
        assert(seq!['r', 'h', 'p'].len() == 3);
        assert(ext.len() != 3);
        return false;
    }
    assert(ext[0] == p@[k as int] && ext[1] == p@[k + 1] && ext[2] == p@[k + 2]);
    let ok = p[k] == 'r' && p[k + 1] == 'h' && p[k + 2] == 'p';
    proof {
        if ok {
            assert(ext =~= seq!['r', 'h', 'p']);
        } else {
            assert(ext != seq!['r', 'h', 'p']) by {
                if p[k as int] != 'r' {
                    assert(ext[0] != seq!['r', 'h', 'p'][0]);
                } else if p[k + 1] != 'h' {
                    assert(ext[1] != seq!['r', 'h', 'p'][1]);
                } else {
                    assert(ext[2] != seq!['r', 'h', 'p'][2]);
                }
            }
        }
    }
    ok
}

/// The script a request path runs: the path itself when it names a script,
/// else its `index.rhp` when the path is a directory holding one (whether
/// it is, the caller finds out on disk).
pub fn rhp_target(path: &str, is_dir: bool, index_is_file: bool) -> (r: Option<String>)
    ensures
        match r {
            Some(p) => if is_script_path(path@) {
                p@ == path@
            } else {
                is_dir && index_is_file && p@ == join_path(path@, "index.rhp"@)
            },
            None => !is_script_path(path@) && !(is_dir && index_is_file),
        },
{
    if has_rhp_extension(path) {
        Some(path.to_string())
    } else if is_dir && index_is_file {
        Some(index_file(path))
    } else {
        None
    }
}

} // verus!
