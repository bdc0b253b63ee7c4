//! The lexer of the embedded script language: it turns source text into
//! tokens with byte spans, by longest match over the token rules, with
//! whitespace and comments skipped and an error for text no rule accepts.
use vstd::prelude::*;
use vstd::utf8::{encode_scalar, encode_utf8, has_width_1_encoding, has_width_2_encoding, has_width_3_encoding, has_width_4_encoding};

use crate::text::{chars_of, occurs_at, string_of};

verus! {

/// A byte range `start..end` in the source text.
pub type Span = std::ops::Range<usize>;

/// `Clone` for `Range`, so that types holding a `Span` can derive `Clone`.
/// Nothing is stated of the result: the element type's `clone` may do
/// anything (verified code copies spans with `copy_span` instead).
pub assume_specification<Idx>[ <std::ops::Range<Idx> as std::clone::Clone>::clone ](
    r: &std::ops::Range<Idx>,
) -> std::ops::Range<Idx>
    where Idx: std::clone::Clone
;

/// A copy of a span.
pub fn copy_span(s: &Span) -> (r: Span)
    ensures
        r == *s,
{
    s.start..s.end
}

/// An error found while lexing or parsing, with where it was found.
#[derive(Debug, Clone, PartialEq)]
pub struct ParseError {
    pub message: String,
    pub span: Span,
}

/// A value together with the span of source text it came from.
#[derive(Debug, Clone, PartialEq)]
pub struct Spanned<T> {
    pub node: T,
    pub span: Span,
}

impl<T> Spanned<T> {
    pub fn new(node: T, span: Span) -> (s: Self)
        ensures
            s.node == node,
            s.span == span,
    {
        Spanned { node, span }
    }
}

/// The smallest span covering both `a` and `b`.
pub fn merge_spans(a: &Span, b: &Span) -> (r: Span)
    ensures
        r.start == if a.start <= b.start { a.start } else { b.start },
        r.end == if a.end >= b.end { a.end } else { b.end },
{
    let start = if a.start <= b.start { a.start } else { b.start };
    let end = if a.end >= b.end { a.end } else { b.end };
    start..end
}

pub type SpannedToken = Spanned<Token>;

/// The tokens of the script language.
#[derive(Debug, Clone, PartialEq)]
pub enum Token {
    // keywords
    Let,
    Const,
    Var,
    For,
    While,
    Return,
    Try,
    Continue,
    Break,
    If,
    Else,
    Function,
    Null,
    True,
    False,
    // HTML snippet markers
    HtmlOpen,
    HtmlClose,
    // identifiers and literals, with their source text
    Ident(String),
    Number(String),
    StringDouble(String),
    StringSingle(String),
    // operators
    Arrow,
    StrictEq,
    StrictNeq,
    PlusPlus,
    MinusMinus,
    Eq,
    Neq,
    Lte,
    Gte,
    And,
    Or,
    PlusAssign,
    MinusAssign,
    MulAssign,
    DivAssign,
    Lt,
    Gt,
    Not,
    Plus,
    Minus,
    Star,
    Slash,
    Percent,
    Assign,
    Dot,
    // brackets
    LParen,
    RParen,
    LBrace,
    RBrace,
    LBracket,
    RBracket,
    // punctuation
    Semicolon,
    Comma,
    Colon,
    Question,
}

/// What the longest match at a position is: skipped text, a token (for the
/// tokens that carry text, the text is the matched source), or no match.
pub enum Lexeme {
    Skip,
    Unit(Token),
    Ident,
    Number,
    StrDouble,
    StrSingle,
    Fail,
}

pub open spec fn is_space(c: char) -> bool {
    c == ' ' || c == '\t' || c == '\r' || c == '\n'
}

pub open spec fn is_digit(c: char) -> bool {
    '0' <= c && c <= '9'
}

pub open spec fn is_ident_start(c: char) -> bool {
    ('a' <= c && c <= 'z') || ('A' <= c && c <= 'Z') || c == '_'
}

pub open spec fn is_ident_char(c: char) -> bool {
    is_ident_start(c) || is_digit(c)
}

/// `cs[i]` exists and is `c`.
pub open spec fn char_at(cs: Seq<char>, i: int, c: char) -> bool {
    0 <= i < cs.len() && cs[i] == c
}

/// End of the run of spaces starting at `i`.
pub open spec fn space_end(cs: Seq<char>, i: int) -> int
    decreases cs.len() - i,
{
    if 0 <= i < cs.len() && is_space(cs[i]) {
        space_end(cs, i + 1)
    } else {
        i
    }
}

/// End of the run of identifier characters starting at `i`.
pub open spec fn ident_end(cs: Seq<char>, i: int) -> int
    decreases cs.len() - i,
{
    if 0 <= i < cs.len() && is_ident_char(cs[i]) {
        ident_end(cs, i + 1)
    } else {
        i
    }
}

/// End of the run of digits starting at `i`.
pub open spec fn digits_end(cs: Seq<char>, i: int) -> int
    decreases cs.len() - i,
{
    if 0 <= i < cs.len() && is_digit(cs[i]) {
        digits_end(cs, i + 1)
    } else {
        i
    }
}

/// End of the line that index `i` is on: the next newline at or after `i`,
/// or the end of input.
pub open spec fn line_end(cs: Seq<char>, i: int) -> int
    decreases cs.len() - i,
{
    if 0 <= i < cs.len() && cs[i] != '\n' {
        line_end(cs, i + 1)
    } else {
        i
    }
}

/// End of `[0-9]+(\.[0-9]+)?` starting at a digit at `i`.
pub open spec fn number_end(cs: Seq<char>, i: int) -> int {
    let e = digits_end(cs, i);
    if char_at(cs, e, '.') && e + 1 < cs.len() && is_digit(cs[e + 1]) {
        digits_end(cs, e + 1)
    } else {
        e
    }
}

/// End of a block comment whose body starts at `j` (just after `/*`): the
/// body is a run of non-`*` characters and `*`-plus-non-`/` pairs, closed
/// by `*/`. `None` when the comment is not closed that way.
pub open spec fn block_end(cs: Seq<char>, j: int) -> Option<int>
    decreases cs.len() - j,
{
    if j < 0 || j >= cs.len() {
        None
    } else if cs[j] == '*' {
        if j + 1 >= cs.len() {
            None
        } else if cs[j + 1] == '/' {
            Some(j + 2)
        } else {
            block_end(cs, j + 2)
        }
    } else {
        block_end(cs, j + 1)
    }
}

/// A string literal whose body starts at `j`, closed by quote `q`:
/// `Ok(end)` after the closing quote, or `Err(at)` where no continuation
/// is possible (end of input, or an escape before a newline).
pub open spec fn string_end(cs: Seq<char>, j: int, q: char) -> Result<int, int>
    decreases cs.len() - j,
{
    if j < 0 || j >= cs.len() {
        Err(cs.len() as int)
    } else if cs[j] == q {
        Ok(j + 1)
    } else if cs[j] == '\\' {
        if j + 1 >= cs.len() {
            Err(cs.len() as int)
        } else if cs[j + 1] == '\n' {
            Err(j + 1)
        } else {
            string_end(cs, j + 2, q)
        }
    } else {
        string_end(cs, j + 1, q)
    }
}

/// The keyword spelled by `t`, if any.
pub open spec fn keyword(t: Seq<char>) -> Option<Token> {
    if t == seq!['l', 'e', 't'] {
        Some(Token::Let)
    } else if t == seq!['c', 'o', 'n', 's', 't'] {
        Some(Token::Const)
    } else if t == seq!['v', 'a', 'r'] {
        Some(Token::Var)
    } else if t == seq!['f', 'o', 'r'] {
        Some(Token::For)
    } else if t == seq!['w', 'h', 'i', 'l', 'e'] {
        Some(Token::While)
    } else if t == seq!['r', 'e', 't', 'u', 'r', 'n'] {
        Some(Token::Return)
    } else if t == seq!['t', 'r', 'y'] {
        Some(Token::Try)
    } else if t == seq!['c', 'o', 'n', 't', 'i', 'n', 'u', 'e'] {
        Some(Token::Continue)
    } else if t == seq!['b', 'r', 'e', 'a', 'k'] {
        Some(Token::Break)
    } else if t == seq!['i', 'f'] {
        Some(Token::If)
    } else if t == seq!['e', 'l', 's', 'e'] {
        Some(Token::Else)
    } else if t == seq!['f', 'u', 'n', 'c', 't', 'i', 'o', 'n'] {
        Some(Token::Function)
    } else if t == seq!['n', 'u', 'l', 'l'] {
        Some(Token::Null)
    } else if t == seq!['t', 'r', 'u', 'e'] {
        Some(Token::True)
    } else if t == seq!['f', 'a', 'l', 's', 'e'] {
        Some(Token::False)
    } else {
        None
    }
}

pub open spec fn html_open() -> Seq<char> {
    seq!['<', 'h', 't', 'm', 'l', '>']
}

pub open spec fn html_close() -> Seq<char> {
    seq!['<', '/', 'h', 't', 'm', 'l', '>']
}

/// The operator or punctuation token starting with `c` at `i`, longest
/// first, and where it ends; `(Fail, i + 1)` when none starts there.
pub open spec fn scan_symbol(cs: Seq<char>, i: int) -> (Lexeme, int) {
    let c = cs[i];
    if c == '<' {
        if occurs_at(cs, html_open(), i) {
            (Lexeme::Unit(Token::HtmlOpen), i + 6)
        } else if occurs_at(cs, html_close(), i) {
            (Lexeme::Unit(Token::HtmlClose), i + 7)
        } else if char_at(cs, i + 1, '=') {
            (Lexeme::Unit(Token::Lte), i + 2)
        } else {
            (Lexeme::Unit(Token::Lt), i + 1)
        }
    } else if c == '=' {
        if char_at(cs, i + 1, '=') && char_at(cs, i + 2, '=') {
            (Lexeme::Unit(Token::StrictEq), i + 3)
        } else if char_at(cs, i + 1, '=') {
            (Lexeme::Unit(Token::Eq), i + 2)
        } else if char_at(cs, i + 1, '>') {
            (Lexeme::Unit(Token::Arrow), i + 2)
        } else {
            (Lexeme::Unit(Token::Assign), i + 1)
        }
    } else if c == '!' {
        if char_at(cs, i + 1, '=') && char_at(cs, i + 2, '=') {
            (Lexeme::Unit(Token::StrictNeq), i + 3)
        } else if char_at(cs, i + 1, '=') {
            (Lexeme::Unit(Token::Neq), i + 2)
        } else {
            (Lexeme::Unit(Token::Not), i + 1)
        }
    } else if c == '+' {
        if char_at(cs, i + 1, '+') {
            (Lexeme::Unit(Token::PlusPlus), i + 2)
        } else if char_at(cs, i + 1, '=') {
            (Lexeme::Unit(Token::PlusAssign), i + 2)
        } else {
            (Lexeme::Unit(Token::Plus), i + 1)
        }
    } else if c == '-' {
        if char_at(cs, i + 1, '-') {
            (Lexeme::Unit(Token::MinusMinus), i + 2)
        } else if char_at(cs, i + 1, '=') {
            (Lexeme::Unit(Token::MinusAssign), i + 2)
        } else {
            (Lexeme::Unit(Token::Minus), i + 1)
        }
    } else if c == '*' {
        if char_at(cs, i + 1, '=') {
            (Lexeme::Unit(Token::MulAssign), i + 2)
        } else {
            (Lexeme::Unit(Token::Star), i + 1)
        }
    } else if c == '>' {
        if char_at(cs, i + 1, '=') {
            (Lexeme::Unit(Token::Gte), i + 2)
        } else {
            (Lexeme::Unit(Token::Gt), i + 1)
        }
    } else if c == '&' {
        if char_at(cs, i + 1, '&') {
            (Lexeme::Unit(Token::And), i + 2)
        } else {
            (Lexeme::Fail, i + 1)
        }
    } else if c == '|' {
        if char_at(cs, i + 1, '|') {
            (Lexeme::Unit(Token::Or), i + 2)
        } else {
            (Lexeme::Fail, i + 1)
        }
    } else if c == '%' {
        (Lexeme::Unit(Token::Percent), i + 1)
    } else if c == '.' {
        (Lexeme::Unit(Token::Dot), i + 1)
    } else if c == '(' {
        (Lexeme::Unit(Token::LParen), i + 1)
    } else if c == ')' {
        (Lexeme::Unit(Token::RParen), i + 1)
    } else if c == '{' {
        (Lexeme::Unit(Token::LBrace), i + 1)
    } else if c == '}' {
        (Lexeme::Unit(Token::RBrace), i + 1)
    } else if c == '[' {
        (Lexeme::Unit(Token::LBracket), i + 1)
    } else if c == ']' {
        (Lexeme::Unit(Token::RBracket), i + 1)
    } else if c == ';' {
        (Lexeme::Unit(Token::Semicolon), i + 1)
    } else if c == ',' {
        (Lexeme::Unit(Token::Comma), i + 1)
    } else if c == ':' {
        (Lexeme::Unit(Token::Colon), i + 1)
    } else if c == '?' {
        (Lexeme::Unit(Token::Question), i + 1)
    } else {
        (Lexeme::Fail, i + 1)
    }
}

/// The longest match of the token rules at index `i` of `cs`, and where it
/// ends. Keywords win over identifiers of the same text; a `//` comment
/// runs to the end of its line (the newline is not part of it).
pub open spec fn scan(cs: Seq<char>, i: int) -> (Lexeme, int) {
    let c = cs[i];
    if is_space(c) {
        (Lexeme::Skip, space_end(cs, i))
    } else if c == '/' {
        if char_at(cs, i + 1, '/') {
            (Lexeme::Skip, line_end(cs, i + 2))
        } else if char_at(cs, i + 1, '*') && block_end(cs, i + 2) is Some {
            (Lexeme::Skip, block_end(cs, i + 2)->0)
        } else if char_at(cs, i + 1, '=') {
            (Lexeme::Unit(Token::DivAssign), i + 2)
        } else {
            (Lexeme::Unit(Token::Slash), i + 1)
        }
    } else if is_ident_start(c) {
        let e = ident_end(cs, i);
        match keyword(cs.subrange(i, e)) {
            Some(k) => (Lexeme::Unit(k), e),
            None => (Lexeme::Ident, e),
        }
    } else if is_digit(c) {
        (Lexeme::Number, number_end(cs, i))
    } else if c == '"' || c == '\'' {
        match string_end(cs, i + 1, c) {
            Ok(e) => (if c == '"' {
                Lexeme::StrDouble
            } else {
                Lexeme::StrSingle
            }, e),
            Err(e) => (Lexeme::Fail, e),
        }
    } else {
        scan_symbol(cs, i)
    }
}

pub proof fn lemma_scan_bounds(cs: Seq<char>, i: int)
    requires
        0 <= i < cs.len(),
    ensures
        i < scan(cs, i).1 <= cs.len(),
{
    lemma_run_ends(cs, i);
    if cs[i] == '/' && char_at(cs, i + 1, '/') {
        lemma_run_ends(cs, i + 2);
    }
    if cs[i] == '/' && char_at(cs, i + 1, '*') {
        lemma_block_end_bound(cs, i + 2);
    }
    if cs[i] == '"' || cs[i] == '\'' {
        lemma_string_end_bound(cs, i + 1, cs[i]);
    }
    if is_digit(cs[i]) {
        let e = digits_end(cs, i);
        if char_at(cs, e, '.') && e + 1 < cs.len() {
            lemma_run_ends(cs, e + 1);
        }
    }
}

pub proof fn lemma_run_ends(cs: Seq<char>, i: int)
    requires
        0 <= i <= cs.len(),
    ensures
        i <= space_end(cs, i) <= cs.len(),
        i <= ident_end(cs, i) <= cs.len(),
        i <= digits_end(cs, i) <= cs.len(),
        i <= line_end(cs, i) <= cs.len(),
        i < cs.len() && is_space(cs[i]) ==> i < space_end(cs, i),
        i < cs.len() && is_ident_char(cs[i]) ==> i < ident_end(cs, i),
        i < cs.len() && is_digit(cs[i]) ==> i < digits_end(cs, i),
    decreases cs.len() - i,
{
    if i < cs.len() {
        lemma_run_ends(cs, i + 1);
    }
}

pub proof fn lemma_block_end_bound(cs: Seq<char>, j: int)
    ensures
        block_end(cs, j) matches Some(e) ==> j < e <= cs.len(),
    decreases cs.len() - j,
{
    if j < 0 || j >= cs.len() {
    } else if cs[j] == '*' {
        if j + 1 < cs.len() && cs[j + 1] != '/' {
            lemma_block_end_bound(cs, j + 2);
        }
    } else {
        lemma_block_end_bound(cs, j + 1);
    }
}

pub proof fn lemma_string_end_bound(cs: Seq<char>, j: int, q: char)
    requires
        0 <= j <= cs.len(),
    ensures
        match string_end(cs, j, q) {
            Ok(e) => j < e <= cs.len(),
            Err(e) => j <= e <= cs.len(),
        },
    decreases cs.len() - j,
{
    if j >= cs.len() {
    } else if cs[j] == q {
    } else if cs[j] == '\\' {
        if j + 1 < cs.len() && cs[j + 1] != '\n' {
            lemma_string_end_bound(cs, j + 2, q);
        }
    } else {
        lemma_string_end_bound(cs, j + 1, q);
    }
}

/// A lexed item: what matched, and the character range `start..end`.
pub type LexItem = (Lexeme, int, int);

/// Lexing `cs` from index `i` to the end: the tokens found, in order, and
/// the character ranges that no rule accepted.
pub open spec fn lex_from(cs: Seq<char>, i: int) -> (Seq<LexItem>, Seq<(int, int)>)
    decreases cs.len() - i,
{
    if i < 0 || i >= cs.len() {
        (seq![], seq![])
    } else {
        proof {
            lemma_scan_bounds(cs, i);
        }
        let (lx, e) = scan(cs, i);
        let (ts, es) = lex_from(cs, e);
        match lx {
            Lexeme::Skip => (ts, es),
            Lexeme::Fail => (ts, seq![(i, e)] + es),
            _ => (seq![(lx, i, e)] + ts, es),
        }
    }
}

/// A run of digits from `a` to `b` ends at `b` when no digit follows.
proof fn lemma_digits_run(cs: Seq<char>, a: int, b: int)
    requires
        0 <= a <= b <= cs.len(),
        forall|j: int| a <= j < b ==> is_digit(#[trigger] cs[j]),
        b == cs.len() || !is_digit(cs[b]),
    ensures
        digits_end(cs, a) == b,
    decreases b - a,
{
    if a < b {
        lemma_digits_run(cs, a + 1, b);
    }
}

/// A decimal literal `digits.digits` at `i`, ending at `k` where no digit
/// follows, is one number token covering all of it, fraction included.
pub proof fn lemma_decimal_is_one_number(cs: Seq<char>, i: int, m: int, k: int)
    requires
        0 <= i < m,
        m + 1 < k <= cs.len(),
        forall|j: int| i <= j < m ==> is_digit(#[trigger] cs[j]),
        cs[m] == '.',
        forall|j: int| m < j < k ==> is_digit(#[trigger] cs[j]),
        k == cs.len() || !is_digit(cs[k]),
    ensures
        scan(cs, i) == (Lexeme::Number, k),
{
    lemma_digits_run(cs, i, m);
    lemma_digits_run(cs, m + 1, k);
    assert(is_digit(cs[i]));
}

/// Digits at `i` up to `m` that no `.digit` follows are one number token.
pub proof fn lemma_integer_is_one_number(cs: Seq<char>, i: int, m: int)
    requires
        0 <= i < m <= cs.len(),
        forall|j: int| i <= j < m ==> is_digit(#[trigger] cs[j]),
        m == cs.len() || !is_digit(cs[m]),
        !(m + 1 < cs.len() && cs[m] == '.' && is_digit(cs[m + 1])),
    ensures
        scan(cs, i) == (Lexeme::Number, m),
{
    lemma_digits_run(cs, i, m);
    assert(is_digit(cs[i]));
}

/// Source that is one decimal literal lexes to exactly one number token,
/// spanning the whole source, with no error.
pub proof fn lemma_lex_decimal(cs: Seq<char>, m: int)
    requires
        0 < m,
        m + 1 < cs.len(),
        forall|j: int| 0 <= j < m ==> is_digit(#[trigger] cs[j]),
        cs[m] == '.',
        forall|j: int| m < j < cs.len() ==> is_digit(#[trigger] cs[j]),
    ensures
        lex_from(cs, 0) == (seq![(Lexeme::Number, 0int, cs.len() as int)], Seq::<(int, int)>::empty()),
{
    lemma_decimal_is_one_number(cs, 0, m, cs.len() as int);
    assert(lex_from(cs, cs.len() as int) == (Seq::<LexItem>::empty(), Seq::<(int, int)>::empty()));
    assert(seq![(Lexeme::Number, 0int, cs.len() as int)] + Seq::<LexItem>::empty() =~= seq![(Lexeme::Number, 0int, cs.len() as int)]);
}

/// The byte offset of character index `i` in the UTF-8 encoding of `cs`.
pub open spec fn byte_offset(cs: Seq<char>, i: int) -> int {
    encode_utf8(cs.take(i)).len() as int
}

/// Token `t` is the lexeme `lx` whose source text is `text`.
pub open spec fn token_is(t: Token, lx: Lexeme, text: Seq<char>) -> bool {
    match lx {
        Lexeme::Unit(u) => t == u,
        Lexeme::Ident => t matches Token::Ident(s) && s@ == text,
        Lexeme::Number => t matches Token::Number(s) && s@ == text,
        Lexeme::StrDouble => t matches Token::StringDouble(s) && s@ == text,
        Lexeme::StrSingle => t matches Token::StringSingle(s) && s@ == text,
        _ => false,
    }
}

/// `s` is the byte span of characters `a..b` of `cs`.
pub open spec fn span_of(s: Span, cs: Seq<char>, a: int, b: int) -> bool {
    s.start == byte_offset(cs, a) && s.end == byte_offset(cs, b)
}

pub open spec fn tokens_agree(ts: Seq<SpannedToken>, items: Seq<LexItem>, cs: Seq<char>) -> bool {
    &&& ts.len() == items.len()
    &&& forall|k: int|
        0 <= k < ts.len() ==> {
            let (lx, a, b) = #[trigger] items[k];
            token_is(ts[k].node, lx, cs.subrange(a, b)) && span_of(ts[k].span, cs, a, b)
        }
}

pub open spec fn errors_agree(es: Seq<ParseError>, ranges: Seq<(int, int)>, cs: Seq<char>) -> bool {
    &&& es.len() == ranges.len()
    &&& forall|k: int|
        0 <= k < es.len() ==> (#[trigger] es[k]).message@ == "Unexpected token"@ && span_of(
            es[k].span,
            cs,
            ranges[k].0,
            ranges[k].1,
        )
}

pub proof fn lemma_encode_utf8_append(a: Seq<char>, b: Seq<char>)
    ensures
        encode_utf8(a + b) == encode_utf8(a) + encode_utf8(b),
    decreases a.len(),
{
    if a.len() == 0 {
        assert(a + b =~= b);
    } else {
        lemma_encode_utf8_append(a.drop_first(), b);
        assert((a + b).drop_first() =~= a.drop_first() + b);
        assert(encode_utf8(a + b) =~= encode_utf8(a) + encode_utf8(b));
    }
}

pub proof fn lemma_byte_offset_step(cs: Seq<char>, i: int)
    requires
        0 <= i < cs.len(),
    ensures
        byte_offset(cs, i + 1) == byte_offset(cs, i) + encode_scalar(cs[i] as u32).len(),
{
    assert(cs.take(i + 1) =~= cs.take(i) + seq![cs[i]]);
    lemma_encode_utf8_append(cs.take(i), seq![cs[i]]);
    assert(seq![cs[i]].drop_first() =~= Seq::<char>::empty());
    assert(encode_utf8(Seq::<char>::empty()) =~= Seq::<u8>::empty());
    assert(seq![cs[i]][0] == cs[i]);
    assert(encode_utf8(seq![cs[i]]) =~= encode_scalar(cs[i] as u32));
}

pub proof fn lemma_byte_offset_mono(cs: Seq<char>, i: int, j: int)
    requires
        0 <= i <= j <= cs.len(),
    ensures
        byte_offset(cs, i) <= byte_offset(cs, j) <= encode_utf8(cs).len(),
{
    assert(cs.take(j) =~= cs.take(i) + cs.take(j).skip(i));
    lemma_encode_utf8_append(cs.take(i), cs.take(j).skip(i));
    assert(cs =~= cs.take(j) + cs.skip(j));
    lemma_encode_utf8_append(cs.take(j), cs.skip(j));
}

fn utf8_width(c: char) -> (w: usize)
    ensures
        w == encode_scalar(c as u32).len(),
{
    broadcast use vstd::utf8::char_is_scalar;
    let u = c as u32;
    if u <= 0x7f {
        1
    } else if u <= 0x7ff {
        2
    } else if u <= 0xffff {
        3
    } else {
        4
    }
}

/// Advance a byte offset from character `i` to character `j`.
fn advance_offset(cs: &Vec<char>, i: usize, j: usize, off: usize) -> (r: usize)
    requires
        i <= j <= cs.len(),
        off == byte_offset(cs@, i as int),
        encode_utf8(cs@).len() <= usize::MAX,
    ensures
        r == byte_offset(cs@, j as int),
{
    let mut k = i;
    let mut o = off;
    while k < j
        invariant
            i <= k <= j <= cs.len(),
            o == byte_offset(cs@, k as int),
            encode_utf8(cs@).len() <= usize::MAX,
        decreases j - k,
    {
        proof {
            lemma_byte_offset_step(cs@, k as int);
            lemma_byte_offset_mono(cs@, k + 1, cs.len() as int);
        }
        o = o + utf8_width(cs[k]);
        k += 1;
    }
    o
}

fn at(cs: &Vec<char>, i: usize, c: char) -> (b: bool)
    ensures
        b == char_at(cs@, i as int, c),
{
    i < cs.len() && cs[i] == c
}

fn space_end_at(cs: &Vec<char>, i: usize) -> (e: usize)
    requires
        i <= cs.len(),
    ensures
        e == space_end(cs@, i as int),
{
    let mut e = i;
    while e < cs.len() && (cs[e] == ' ' || cs[e] == '\t' || cs[e] == '\r' || cs[e] == '\n')
        invariant
            i <= e <= cs.len(),
            space_end(cs@, i as int) == space_end(cs@, e as int),
        decreases cs.len() - e,
    {
        e += 1;
    }
    e
}

fn line_end_at(cs: &Vec<char>, i: usize) -> (e: usize)
    requires
        i <= cs.len(),
    ensures
        e == line_end(cs@, i as int),
{
    let mut e = i;
    while e < cs.len() && cs[e] != '\n'
        invariant
            i <= e <= cs.len(),
            line_end(cs@, i as int) == line_end(cs@, e as int),
        decreases cs.len() - e,
    {
        e += 1;
    }
    e
}

fn ident_end_at(cs: &Vec<char>, i: usize) -> (e: usize)
    requires
        i <= cs.len(),
    ensures
        e == ident_end(cs@, i as int),
{
    let mut e = i;
    while e < cs.len() && (('a' <= cs[e] && cs[e] <= 'z') || ('A' <= cs[e] && cs[e] <= 'Z')
        || cs[e] == '_' || ('0' <= cs[e] && cs[e] <= '9'))
        invariant
            i <= e <= cs.len(),
            ident_end(cs@, i as int) == ident_end(cs@, e as int),
        decreases cs.len() - e,
    {
        e += 1;
    }
    e
}

fn digits_end_at(cs: &Vec<char>, i: usize) -> (e: usize)
    requires
        i <= cs.len(),
    ensures
        e == digits_end(cs@, i as int),
{
    let mut e = i;
    while e < cs.len() && ('0' <= cs[e] && cs[e] <= '9')
        invariant
            i <= e <= cs.len(),
            digits_end(cs@, i as int) == digits_end(cs@, e as int),
        decreases cs.len() - e,
    {
        e += 1;
    }
    e
}

fn block_end_at(cs: &Vec<char>, j: usize) -> (r: Option<usize>)
    requires
        j <= cs.len(),
    ensures
        match r {
            Some(e) => block_end(cs@, j as int) == Some(e as int),
            None => block_end(cs@, j as int) is None,
        },
{
    let mut k = j;
    loop
        invariant
            j <= k,
            block_end(cs@, j as int) == block_end(cs@, k as int),
        decreases cs.len() + 2 - k,
    {
        if k >= cs.len() {
            return None;
        }
        if cs[k] == '*' {
            if k + 1 >= cs.len() {
                return None;
            }
            if cs[k + 1] == '/' {
                return Some(k + 2);
            }
            k = k + 2;
        } else {
            k = k + 1;
        }
    }
}

fn string_end_at(cs: &Vec<char>, j: usize, q: char) -> (r: Result<usize, usize>)
    requires
        j <= cs.len(),
    ensures
        match r {
            Ok(e) => string_end(cs@, j as int, q) == Ok::<int, int>(e as int),
            Err(e) => string_end(cs@, j as int, q) == Err::<int, int>(e as int),
        },
{
    let mut k = j;
    loop
        invariant
            j <= k,
            string_end(cs@, j as int, q) == string_end(cs@, k as int, q),
        decreases cs.len() + 2 - k,
    {
        if k >= cs.len() {
            return Err(cs.len());
        }
        if cs[k] == q {
            return Ok(k + 1);
        }
        if cs[k] == '\\' {
            if k + 1 >= cs.len() {
                return Err(cs.len());
            }
            if cs[k + 1] == '\n' {
                return Err(k + 1);
            }
            k = k + 2;
        } else {
            k = k + 1;
        }
    }
}

fn same_chars(cs: &Vec<char>, lo: usize, hi: usize, w: &[char]) -> (b: bool)
    requires
        lo <= hi <= cs.len(),
    ensures
        b == (cs@.subrange(lo as int, hi as int) == w@),
{
    if hi - lo != w.len() {
        return false;
    }
    let mut k: usize = 0;
    while k < w.len()
        invariant
            lo <= hi <= cs.len(),
            hi - lo == w.len(),
            k <= w.len(),
            forall|m: int| 0 <= m < k ==> cs@[lo + m] == w@[m],
        decreases w.len() - k,
    {
        if cs[lo + k] != w[k] {
            assert(cs@.subrange(lo as int, hi as int)[k as int] != w@[k as int]);
            return false;
        }
        k += 1;
    }
    assert(cs@.subrange(lo as int, hi as int) =~= w@);
    true
}

fn keyword_at(cs: &Vec<char>, lo: usize, hi: usize) -> (r: Option<Token>)
    requires
        lo <= hi <= cs.len(),
    ensures
        r == keyword(cs@.subrange(lo as int, hi as int)),
{
    let ghost t = cs@.subrange(lo as int, hi as int);
    let w_let: [char; 3] = ['l', 'e', 't'];
    let w_const: [char; 5] = ['c', 'o', 'n', 's', 't'];
    let w_var: [char; 3] = ['v', 'a', 'r'];
    let w_for: [char; 3] = ['f', 'o', 'r'];
    let w_while: [char; 5] = ['w', 'h', 'i', 'l', 'e'];
    let w_return: [char; 6] = ['r', 'e', 't', 'u', 'r', 'n'];
    let w_try: [char; 3] = ['t', 'r', 'y'];
    let w_continue: [char; 8] = ['c', 'o', 'n', 't', 'i', 'n', 'u', 'e'];
    let w_break: [char; 5] = ['b', 'r', 'e', 'a', 'k'];
    let w_if: [char; 2] = ['i', 'f'];
    let w_else: [char; 4] = ['e', 'l', 's', 'e'];
    let w_function: [char; 8] = ['f', 'u', 'n', 'c', 't', 'i', 'o', 'n'];
    let w_null: [char; 4] = ['n', 'u', 'l', 'l'];
    let w_true: [char; 4] = ['t', 'r', 'u', 'e'];
    let w_false: [char; 5] = ['f', 'a', 'l', 's', 'e'];
    assert(w_let@ == seq!['l', 'e', 't']);
    assert(w_const@ == seq!['c', 'o', 'n', 's', 't']);
    assert(w_var@ == seq!['v', 'a', 'r']);
    assert(w_for@ == seq!['f', 'o', 'r']);
    assert(w_while@ == seq!['w', 'h', 'i', 'l', 'e']);
    assert(w_return@ == seq!['r', 'e', 't', 'u', 'r', 'n']);
    assert(w_try@ == seq!['t', 'r', 'y']);
    assert(w_continue@ == seq!['c', 'o', 'n', 't', 'i', 'n', 'u', 'e']);
    assert(w_break@ == seq!['b', 'r', 'e', 'a', 'k']);
    assert(w_if@ == seq!['i', 'f']);
    assert(w_else@ == seq!['e', 'l', 's', 'e']);
    assert(w_function@ == seq!['f', 'u', 'n', 'c', 't', 'i', 'o', 'n']);
    assert(w_null@ == seq!['n', 'u', 'l', 'l']);
    assert(w_true@ == seq!['t', 'r', 'u', 'e']);
    assert(w_false@ == seq!['f', 'a', 'l', 's', 'e']);
    if same_chars(cs, lo, hi, &w_let) {
        Some(Token::Let)
    } else if same_chars(cs, lo, hi, &w_const) {
        Some(Token::Const)
    } else if same_chars(cs, lo, hi, &w_var) {
        Some(Token::Var)
    } else if same_chars(cs, lo, hi, &w_for) {
        Some(Token::For)
    } else if same_chars(cs, lo, hi, &w_while) {
        Some(Token::While)
    } else if same_chars(cs, lo, hi, &w_return) {
        Some(Token::Return)
    } else if same_chars(cs, lo, hi, &w_try) {
        Some(Token::Try)
    } else if same_chars(cs, lo, hi, &w_continue) {
        Some(Token::Continue)
    } else if same_chars(cs, lo, hi, &w_break) {
        Some(Token::Break)
    } else if same_chars(cs, lo, hi, &w_if) {
        Some(Token::If)
    } else if same_chars(cs, lo, hi, &w_else) {
        Some(Token::Else)
    } else if same_chars(cs, lo, hi, &w_function) {
        Some(Token::Function)
    } else if same_chars(cs, lo, hi, &w_null) {
        Some(Token::Null)
    } else if same_chars(cs, lo, hi, &w_true) {
        Some(Token::True)
    } else if same_chars(cs, lo, hi, &w_false) {
        Some(Token::False)
    } else {
        None
    }
}

fn occurs_here(cs: &Vec<char>, i: usize, w: &[char]) -> (b: bool)
    requires
        i <= cs.len(),
    ensures
        b == occurs_at(cs@, w@, i as int),
{
    if w.len() > cs.len() - i {
        return false;
    }
    let b = same_chars(cs, i, i + w.len(), w);
    b
}

fn scan_symbol_at(cs: &Vec<char>, i: usize) -> (r: (Lexeme, usize))
    requires
        i < cs.len(),
    ensures
        (r.0, r.1 as int) == scan_symbol(cs@, i as int),
{
    let c = cs[i];
    if c == '<' {
        let w_open: [char; 6] = ['<', 'h', 't', 'm', 'l', '>'];
        let w_close: [char; 7] = ['<', '/', 'h', 't', 'm', 'l', '>'];
        assert(w_open@ == html_open());
        assert(w_close@ == html_close());
        if occurs_here(cs, i, &w_open) {
            (Lexeme::Unit(Token::HtmlOpen), i + 6)
        } else if occurs_here(cs, i, &w_close) {
            (Lexeme::Unit(Token::HtmlClose), i + 7)
        } else if at(cs, i + 1, '=') {
            (Lexeme::Unit(Token::Lte), i + 2)
        } else {
            (Lexeme::Unit(Token::Lt), i + 1)
        }
    } else if c == '=' {
        if at(cs, i + 1, '=') && at(cs, i + 2, '=') {
            (Lexeme::Unit(Token::StrictEq), i + 3)
        } else if at(cs, i + 1, '=') {
            (Lexeme::Unit(Token::Eq), i + 2)
        } else if at(cs, i + 1, '>') {
            (Lexeme::Unit(Token::Arrow), i + 2)
        } else {
            (Lexeme::Unit(Token::Assign), i + 1)
        }
    } else if c == '!' {
        if at(cs, i + 1, '=') && at(cs, i + 2, '=') {
            (Lexeme::Unit(Token::StrictNeq), i + 3)
        } else if at(cs, i + 1, '=') {
            (Lexeme::Unit(Token::Neq), i + 2)
        } else {
            (Lexeme::Unit(Token::Not), i + 1)
        }
    } else if c == '+' {
        if at(cs, i + 1, '+') {
            (Lexeme::Unit(Token::PlusPlus), i + 2)
        } else if at(cs, i + 1, '=') {
            (Lexeme::Unit(Token::PlusAssign), i + 2)
        } else {
            (Lexeme::Unit(Token::Plus), i + 1)
        }
    } else if c == '-' {
        if at(cs, i + 1, '-') {
            (Lexeme::Unit(Token::MinusMinus), i + 2)
        } else if at(cs, i + 1, '=') {
            (Lexeme::Unit(Token::MinusAssign), i + 2)
        } else {
            (Lexeme::Unit(Token::Minus), i + 1)
        }
    } else if c == '*' {
        if at(cs, i + 1, '=') {
            (Lexeme::Unit(Token::MulAssign), i + 2)
        } else {
            (Lexeme::Unit(Token::Star), i + 1)
        }
    } else if c == '>' {
        if at(cs, i + 1, '=') {
            (Lexeme::Unit(Token::Gte), i + 2)
        } else {
            (Lexeme::Unit(Token::Gt), i + 1)
        }
    } else if c == '&' {
        if at(cs, i + 1, '&') {
            (Lexeme::Unit(Token::And), i + 2)
        } else {
            (Lexeme::Fail, i + 1)
        }
    } else if c == '|' {
        if at(cs, i + 1, '|') {
            (Lexeme::Unit(Token::Or), i + 2)
        } else {
            (Lexeme::Fail, i + 1)
        }
    } else if c == '%' {
        (Lexeme::Unit(Token::Percent), i + 1)
    } else if c == '.' {
        (Lexeme::Unit(Token::Dot), i + 1)
    } else if c == '(' {
        (Lexeme::Unit(Token::LParen), i + 1)
    } else if c == ')' {
        (Lexeme::Unit(Token::RParen), i + 1)
    } else if c == '{' {
        (Lexeme::Unit(Token::LBrace), i + 1)
    } else if c == '}' {
        (Lexeme::Unit(Token::RBrace), i + 1)
    } else if c == '[' {
        (Lexeme::Unit(Token::LBracket), i + 1)
    } else if c == ']' {
        (Lexeme::Unit(Token::RBracket), i + 1)
    } else if c == ';' {
        (Lexeme::Unit(Token::Semicolon), i + 1)
    } else if c == ',' {
        (Lexeme::Unit(Token::Comma), i + 1)
    } else if c == ':' {
        (Lexeme::Unit(Token::Colon), i + 1)
    } else if c == '?' {
        (Lexeme::Unit(Token::Question), i + 1)
    } else {
        (Lexeme::Fail, i + 1)
    }
}

fn scan_at(cs: &Vec<char>, i: usize) -> (r: (Lexeme, usize))
    requires
        i < cs.len(),
    ensures
        (r.0, r.1 as int) == scan(cs@, i as int),
{
    let c = cs[i];
    if c == ' ' || c == '\t' || c == '\r' || c == '\n' {
        (Lexeme::Skip, space_end_at(cs, i))
    } else if c == '/' {
        if at(cs, i + 1, '/') {
            (Lexeme::Skip, line_end_at(cs, i + 2))
        } else {
            let closed = if at(cs, i + 1, '*') {
                block_end_at(cs, i + 2)
            } else {
                None
            };
            match closed {
                Some(e) => (Lexeme::Skip, e),
                None => {
                    if at(cs, i + 1, '=') {
                        (Lexeme::Unit(Token::DivAssign), i + 2)
                    } else {
                        (Lexeme::Unit(Token::Slash), i + 1)
                    }
                },
            }
        }
    } else if ('a' <= c && c <= 'z') || ('A' <= c && c <= 'Z') || c == '_' {
        let e = ident_end_at(cs, i);
        proof {
            lemma_run_ends(cs@, i as int);
        }
        match keyword_at(cs, i, e) {
            Some(k) => (Lexeme::Unit(k), e),
            None => (Lexeme::Ident, e),
        }
    } else if '0' <= c && c <= '9' {
        let e = digits_end_at(cs, i);
        proof {
            lemma_run_ends(cs@, i as int);
        }
        if at(cs, e, '.') && e + 1 < cs.len() && '0' <= cs[e + 1] && cs[e + 1] <= '9' {
            (Lexeme::Number, digits_end_at(cs, e + 1))
        } else {
            (Lexeme::Number, e)
        }
    } else if c == '"' || c == '\'' {
        match string_end_at(cs, i + 1, c) {
            Ok(e) => (if c == '"' {
                Lexeme::StrDouble
            } else {
                Lexeme::StrSingle
            }, e),
            Err(e) => (Lexeme::Fail, e),
        }
    } else {
        scan_symbol_at(cs, i)
    }
}

/// Lex script source into tokens with byte spans. Whitespace (space, tab,
/// carriage return, newline), `//` comments to the end of their line, and
/// `/* */` block comments are skipped; every piece of text that no token rule accepts is
/// reported as an "Unexpected token" error, and then the result is `Err`
/// with all of them.
pub fn lex_code(src: &str) -> (r: Result<Vec<Spanned<Token>>, Vec<ParseError>>)
    requires
        encode_utf8(src@).len() <= usize::MAX,
    ensures
        match r {
            Ok(tokens) => lex_from(src@, 0).1.len() == 0 && tokens_agree(
                tokens@,
                lex_from(src@, 0).0,
                src@,
            ),
            Err(errors) => lex_from(src@, 0).1.len() > 0 && errors_agree(
                errors@,
                lex_from(src@, 0).1,
                src@,
            ),
        },
{
    let cs = chars_of(src);
    let ghost all = lex_from(cs@, 0);
    let mut tokens: Vec<Spanned<Token>> = Vec::new();
    let mut errors: Vec<ParseError> = Vec::new();
    let mut i: usize = 0;
    let mut off: usize = 0;
    assert(cs@.take(0) =~= Seq::<char>::empty());
    while i < cs.len()
        invariant
            cs@ == src@,
            i <= cs.len(),
            encode_utf8(cs@).len() <= usize::MAX,
            off == byte_offset(cs@, i as int),
            all == lex_from(cs@, 0),
            all.0 == all.0.take(tokens.len() as int) + lex_from(cs@, i as int).0,
            all.1 == all.1.take(errors.len() as int) + lex_from(cs@, i as int).1,
            tokens_agree(tokens@, all.0.take(tokens.len() as int), cs@),
            errors_agree(errors@, all.1.take(errors.len() as int), cs@),
        decreases cs.len() - i,
    {
        let (lx, e) = scan_at(&cs, i);
        proof {
            lemma_scan_bounds(cs@, i as int);
        }
        let end_off = advance_offset(&cs, i, e, off);
        let ghost rest = lex_from(cs@, e as int);
        match lx {
            Lexeme::Skip => {},
            Lexeme::Fail => {
                let ghost k = errors.len() as int;
                errors.push(ParseError { message: "Unexpected token".to_string(), span: off..end_off });
                assert(all.1.take(k + 1) =~= all.1.take(k).push((i as int, e as int)));
                assert(all.1 =~= all.1.take(k + 1) + rest.1);
            },
            _ => {
                let ghost k = tokens.len() as int;
                let ghost item = (lx, i as int, e as int);
                let token = match lx {
                    Lexeme::Unit(t) => t,
                    Lexeme::Ident => Token::Ident(string_of(&cs, i, e)),
                    Lexeme::Number => Token::Number(string_of(&cs, i, e)),
                    Lexeme::StrDouble => Token::StringDouble(string_of(&cs, i, e)),
                    _ => Token::StringSingle(string_of(&cs, i, e)),
                };
                assert(token_is(token, item.0, cs@.subrange(i as int, e as int)));
                tokens.push(Spanned { node: token, span: off..end_off });
                assert(all.0.take(k + 1) =~= all.0.take(k).push(item));
                assert(all.0 =~= all.0.take(k + 1) + rest.0);
            },
        }
        i = e;
        off = end_off;
    }
    assert(all.0.take(tokens.len() as int) =~= all.0);
    assert(all.1.take(errors.len() as int) =~= all.1);
    if errors.len() == 0 {
        Ok(tokens)
    } else {
        Err(errors)
    }
}

/// Lexing reads the source in order: every token and every error is a
/// nonempty piece of the source at or after `i`, and each one ends before
/// the next begins.
pub proof fn lemma_lex_in_order(cs: Seq<char>, i: int)
    requires
        0 <= i,
    ensures
        ({
            let (ts, es) = lex_from(cs, i);
            &&& forall|k: int| 0 <= k < ts.len() ==> i <= (#[trigger] ts[k]).1 < ts[k].2 <= cs.len()
            &&& forall|k: int, l: int| 0 <= k < l < ts.len() ==> (#[trigger] ts[k]).2 <= (
                #[trigger] ts[l]).1
            &&& forall|k: int| 0 <= k < es.len() ==> i <= (#[trigger] es[k]).0 < es[k].1 <= cs.len()
            &&& forall|k: int, l: int| 0 <= k < l < es.len() ==> (#[trigger] es[k]).1 <= (
                #[trigger] es[l]).0
        }),
    decreases cs.len() - i,
{
    if i < cs.len() {
        lemma_scan_bounds(cs, i);
        let (lx, e) = scan(cs, i);
        lemma_lex_in_order(cs, e);
        let (ts, es) = lex_from(cs, e);
        let (ts0, es0) = lex_from(cs, i);
        match lx {
            Lexeme::Skip => {},
            Lexeme::Fail => {
                assert(es0 == seq![(i, e)] + es);
                assert forall|k: int| 0 <= k < es0.len() implies i <= (#[trigger] es0[k]).0
                    < es0[k].1 <= cs.len() by {
                    if k > 0 {
                        assert(es0[k] == es[k - 1]);
                    }
                }
                assert forall|k: int, l: int| 0 <= k < l < es0.len() implies (
                #[trigger] es0[k]).1 <= (#[trigger] es0[l]).0 by {
                    assert(es0[l] == es[l - 1]);
                    if k > 0 {
                        assert(es0[k] == es[k - 1]);
                    }
                }
            },
            _ => {
                assert(ts0 == seq![(lx, i, e)] + ts);
                assert forall|k: int| 0 <= k < ts0.len() implies i <= (#[trigger] ts0[k]).1
                    < ts0[k].2 <= cs.len() by {
                    if k > 0 {
                        assert(ts0[k] == ts[k - 1]);
                    }
                }
                assert forall|k: int, l: int| 0 <= k < l < ts0.len() implies (
                #[trigger] ts0[k]).2 <= (#[trigger] ts0[l]).1 by {
                    assert(ts0[l] == ts[l - 1]);
                    if k > 0 {
                        assert(ts0[k] == ts[k - 1]);
                    }
                }
            },
        }
    }
}

} // verus!
