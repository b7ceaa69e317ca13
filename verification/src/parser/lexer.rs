//! The lexer of CEL, one function per lexer rule of the grammar, over the
//! characters of the source; token spans are reported as byte offsets.
//!
//! Whitespace and `//` comments are skipped. A stretch of source that does
//! not lex yields an [`TokenKind::Error`] token spanning it, together with
//! the message to report, and lexing carries on after it.

use vstd::prelude::*;
use crate::text::chars_of;
use crate::utf8::{byte_len, char_width, lemma_byte_len_take, lemma_encode_push};

verus! {

/// The kinds of token, one per lexer rule of the grammar.
#[derive(Clone, Copy, Debug, PartialEq, Eq, Structural)]
pub enum TokenKind {
    Int,
    Uint,
    Float,
    String,
    Bytes,
    Ident,
    EscIdent,
    True,
    False,
    Null,
    In,
    LParen,
    RParen,
    LBracket,
    RBracket,
    LBrace,
    RBrace,
    Dot,
    Comma,
    Question,
    Colon,
    Minus,
    Plus,
    Star,
    Slash,
    Percent,
    Exclam,
    EqEq,
    NotEq,
    Less,
    LessEq,
    Greater,
    GreaterEq,
    And,
    Or,
    /// A stretch of source that does not lex.
    Error,
    /// End of input.
    Eof,
}

/// A lexed token: its kind and the `start..end` byte span in the source.
#[derive(Clone, Copy, Debug, PartialEq, Eq, Structural)]
pub struct Token {
    pub kind: TokenKind,
    pub start: usize,
    pub end: usize,
}

/// A lexer error, at a byte offset in the source.
#[derive(Debug, PartialEq, Eq)]
pub struct LexError {
    pub offset: usize,
    pub message: &'static str,
}

/// Why a stretch of source does not lex.
#[derive(Clone, Copy, Debug, PartialEq, Eq, Structural)]
pub enum LexFailure {
    UnexpectedCharacter,
    SingleAmpersand,
    SinglePipe,
    UnterminatedString,
    UnterminatedBytes,
    InvalidQuotedIdent,
    UnterminatedQuotedIdent,
}

/// The message reported for a lexer failure.
pub open spec fn failure_text(f: LexFailure) -> Seq<char> {
    match f {
        LexFailure::UnexpectedCharacter => "unexpected character"@,
        LexFailure::SingleAmpersand => "unexpected single '&', expected '&&'"@,
        LexFailure::SinglePipe => "unexpected single '|', expected '||'"@,
        LexFailure::UnterminatedString => "unterminated string literal"@,
        LexFailure::UnterminatedBytes => "unterminated bytes literal"@,
        LexFailure::InvalidQuotedIdent => "invalid quoted identifier"@,
        LexFailure::UnterminatedQuotedIdent => "unterminated quoted identifier"@,
    }
}

impl LexFailure {
    /// The message reported for this failure.
    pub fn message(self) -> (m: &'static str)
        ensures
            m@ == failure_text(self),
    {
        match self {
            LexFailure::UnexpectedCharacter => "unexpected character",
            LexFailure::SingleAmpersand => "unexpected single '&', expected '&&'",
            LexFailure::SinglePipe => "unexpected single '|', expected '||'",
            LexFailure::UnterminatedString => "unterminated string literal",
            LexFailure::UnterminatedBytes => "unterminated bytes literal",
            LexFailure::InvalidQuotedIdent => "invalid quoted identifier",
            LexFailure::UnterminatedQuotedIdent => "unterminated quoted identifier",
        }
    }
}

// ---------------------------------------------------------------------------
// Character classes
// ---------------------------------------------------------------------------

pub open spec fn is_digit(x: char) -> bool { '0' <= x <= '9' }

pub open spec fn is_hex(x: char) -> bool {
    is_digit(x) || ('a' <= x <= 'f') || ('A' <= x <= 'F')
}

pub open spec fn is_letter(x: char) -> bool {
    ('a' <= x <= 'z') || ('A' <= x <= 'Z')
}

/// `[A-Za-z0-9_]`
pub open spec fn is_ident_char(x: char) -> bool {
    is_letter(x) || is_digit(x) || x == '_'
}

/// `[A-Za-z0-9_./ -]`, the characters of a quoted identifier.
pub open spec fn is_esc_ident_char(x: char) -> bool {
    is_ident_char(x) || x == '.' || x == '-' || x == '/' || x == ' '
}

/// Whitespace: space, tab, carriage return, newline, form feed.
pub open spec fn is_ws(x: char) -> bool {
    x == ' ' || x == '\t' || x == '\r' || x == '\n' || x == '\u{c}'
}

pub open spec fn is_quote_byte(x: char) -> bool {
    x == '"' || x == '\''
}

pub open spec fn at(b: Seq<char>, i: int, x: char) -> bool {
    0 <= i < b.len() && b[i] == x
}

// ---------------------------------------------------------------------------
// Scanning
// ---------------------------------------------------------------------------

/// The end of the run of characters satisfying `p` that starts at `i`.
pub open spec fn skip_while(b: Seq<char>, i: int, p: spec_fn(char) -> bool) -> int
    decreases b.len() - i,
{
    if 0 <= i < b.len() && p(b[i]) {
        skip_while(b, i + 1, p)
    } else {
        i
    }
}

pub open spec fn digits_end(b: Seq<char>, i: int) -> int {
    skip_while(b, i, |x: char| is_digit(x))
}

pub open spec fn hex_end(b: Seq<char>, i: int) -> int {
    skip_while(b, i, |x: char| is_hex(x))
}

pub open spec fn ident_end(b: Seq<char>, i: int) -> int {
    skip_while(b, i, |x: char| is_ident_char(x))
}

pub open spec fn esc_ident_end(b: Seq<char>, i: int) -> int {
    skip_while(b, i, |x: char| is_esc_ident_char(x))
}

/// The first position at or after `i` holding `x`, or the end of `b`.
pub open spec fn find_byte(b: Seq<char>, i: int, x: char) -> int {
    skip_while(b, i, |y: char| y != x)
}

/// The end of the whitespace and comments that start at `i`.
pub open spec fn trivia_end(b: Seq<char>, i: int) -> int
    decreases b.len() - i, 0int,
{
    if 0 <= i < b.len() && is_ws(b[i]) {
        trivia_end(b, i + 1)
    } else if 0 <= i && at(b, i, '/') && at(b, i + 1, '/') {
        comment_end(b, i + 2)
    } else {
        i
    }
}

/// The end of the trivia that follows the rest of a `//` comment, from `j` on.
pub open spec fn comment_end(b: Seq<char>, j: int) -> int
    decreases b.len() - j, 1int,
{
    if 0 <= j < b.len() && b[j] != '\n' {
        comment_end(b, j + 1)
    } else {
        trivia_end(b, j)
    }
}

/// The kind and end of the number token at `s`, if one starts there:
/// a hexadecimal or decimal integer with an optional `u`/`U` suffix, or a
/// float with a fraction and/or an exponent.
pub open spec fn number_at(b: Seq<char>, s: int) -> Option<(TokenKind, int)> {
    if at(b, s, '0') && at(b, s + 1, 'x') && s + 2 < b.len() && is_hex(b[s + 2]) {
        Some(integral_suffix(b, hex_end(b, s + 2)))
    } else {
        let e1 = digits_end(b, s);
        let has_frac = at(b, e1, '.') && e1 + 1 < b.len() && is_digit(b[e1 + 1]);
        let e2 = if has_frac { digits_end(b, e1 + 1) } else { e1 };
        if e1 == s && !has_frac {
            None
        } else {
            let k = if at(b, e2 + 1, '+') || at(b, e2 + 1, '-') { e2 + 2 } else { e2 + 1 };
            let has_exp = (at(b, e2, 'e') || at(b, e2, 'E')) && k < b.len() && is_digit(b[k]);
            let e3 = if has_exp { digits_end(b, k) } else { e2 };
            if has_frac || has_exp {
                Some((TokenKind::Float, e3))
            } else {
                Some(integral_suffix(b, e3))
            }
        }
    }
}

pub open spec fn integral_suffix(b: Seq<char>, e: int) -> (TokenKind, int) {
    if at(b, e, 'u') || at(b, e, 'U') {
        (TokenKind::Uint, e + 1)
    } else {
        (TokenKind::Int, e)
    }
}

/// The end of a triple-quoted body that starts at `p`, closed by three `q`s.
pub open spec fn triple_close(b: Seq<char>, p: int, q: char, raw: bool) -> Option<int>
    decreases b.len() - p,
{
    if p < 0 || p >= b.len() {
        None
    } else if at(b, p, q) && at(b, p + 1, q) && at(b, p + 2, q) {
        Some(p + 3)
    } else if !raw && b[p] == '\\' && p + 1 < b.len() {
        triple_close(b, p + 2, q, raw)
    } else {
        triple_close(b, p + 1, q, raw)
    }
}

/// The end of a single-quoted body that starts at `p`, closed by `q`; it
/// may not hold a line break.
pub open spec fn single_close(b: Seq<char>, p: int, q: char, raw: bool) -> Option<int>
    decreases b.len() - p,
{
    if p < 0 || p >= b.len() {
        None
    } else if b[p] == q {
        Some(p + 1)
    } else if b[p] == '\n' || b[p] == '\r' {
        None
    } else if !raw && b[p] == '\\' {
        if p + 1 < b.len() && b[p + 1] != '\n' && b[p + 1] != '\r' {
            single_close(b, p + 2, q, raw)
        } else {
            None
        }
    } else {
        single_close(b, p + 1, q, raw)
    }
}

/// The end of the quoted literal whose opening quote is at `q`, if it is
/// terminated.
pub open spec fn quoted_end(b: Seq<char>, q: int, raw: bool) -> Option<int> {
    let quote = b[q];
    if at(b, q + 1, quote) && at(b, q + 2, quote) {
        triple_close(b, q + 3, quote, raw)
    } else {
        single_close(b, q + 1, quote, raw)
    }
}

/// One step of the lexer: the token kind, its span, and the failure to
/// report when the span does not lex.
pub struct Step {
    pub kind: TokenKind,
    pub start: int,
    pub end: int,
    pub failure: Option<LexFailure>,
}

pub open spec fn ok_step(kind: TokenKind, start: int, end: int) -> Step {
    Step { kind, start, end, failure: None }
}

pub open spec fn err_step(start: int, end: int, f: LexFailure) -> Step {
    Step { kind: TokenKind::Error, start, end, failure: Some(f) }
}

pub open spec fn keyword_kind(w: Seq<char>) -> TokenKind {
    if w == seq!['t', 'r', 'u', 'e'] { TokenKind::True }
    else if w == seq!['f', 'a', 'l', 's', 'e'] { TokenKind::False }
    else if w == seq!['n', 'u', 'l', 'l'] { TokenKind::Null }
    else if w == seq!['i', 'n'] { TokenKind::In }
    else { TokenKind::Ident }
}

/// An identifier or keyword starting at `s`.
pub open spec fn ident_step(b: Seq<char>, s: int) -> Step {
    let e = ident_end(b, s);
    ok_step(keyword_kind(b.subrange(s, e)), s, e)
}

/// A quoted literal whose opening quote is at `q`, its token starting at `s`.
pub open spec fn quoted_step(b: Seq<char>, s: int, q: int, raw: bool, bytes: bool) -> Step {
    match quoted_end(b, q, raw) {
        Some(e) => ok_step(if bytes { TokenKind::Bytes } else { TokenKind::String }, s, e),
        None => err_step(s, b.len() as int, if bytes { LexFailure::UnterminatedBytes } else { LexFailure::UnterminatedString }),
    }
}

/// A quoted identifier whose opening backtick is at `s`.
pub open spec fn esc_ident_step(b: Seq<char>, s: int) -> Step {
    let e = esc_ident_end(b, s + 1);
    if at(b, e, '`') {
        if e > s + 1 {
            ok_step(TokenKind::EscIdent, s, e + 1)
        } else {
            err_step(s, e + 1, LexFailure::InvalidQuotedIdent)
        }
    } else {
        let t = find_byte(b, e, '`');
        if t < b.len() {
            err_step(s, t + 1, LexFailure::InvalidQuotedIdent)
        } else {
            err_step(s, b.len() as int, LexFailure::UnterminatedQuotedIdent)
        }
    }
}

/// A one- or two-byte operator at `s`: `two` when `second` follows, else `one`.
pub open spec fn pair_step(b: Seq<char>, s: int, second: char, two: TokenKind, one: TokenKind) -> Step {
    if at(b, s + 1, second) { ok_step(two, s, s + 2) } else { ok_step(one, s, s + 1) }
}

/// The kind of a single-byte punctuation token.
pub open spec fn punct_kind(c: char) -> Option<TokenKind> {
    if c == '(' { Some(TokenKind::LParen) }
    else if c == ')' { Some(TokenKind::RParen) }
    else if c == '[' { Some(TokenKind::LBracket) }
    else if c == ']' { Some(TokenKind::RBracket) }
    else if c == '{' { Some(TokenKind::LBrace) }
    else if c == '}' { Some(TokenKind::RBrace) }
    else if c == ',' { Some(TokenKind::Comma) }
    else if c == '?' { Some(TokenKind::Question) }
    else if c == ':' { Some(TokenKind::Colon) }
    else if c == '-' { Some(TokenKind::Minus) }
    else if c == '+' { Some(TokenKind::Plus) }
    else if c == '*' { Some(TokenKind::Star) }
    else if c == '/' { Some(TokenKind::Slash) }
    else if c == '%' { Some(TokenKind::Percent) }
    else { None }
}

/// The token that starts at `s`, a position holding a byte.
pub open spec fn token_at(b: Seq<char>, s: int) -> Step {
    let c = b[s];
    if is_digit(c) || c == '.' {
        match number_at(b, s) {
            Some((k, e)) => ok_step(k, s, e),
            None => ok_step(TokenKind::Dot, s, s + 1),
        }
    } else if is_quote_byte(c) {
        quoted_step(b, s, s, false, false)
    } else if c == 'r' || c == 'R' {
        if s + 1 < b.len() && is_quote_byte(b[s + 1]) {
            quoted_step(b, s, s + 1, true, false)
        } else {
            ident_step(b, s)
        }
    } else if c == 'b' || c == 'B' {
        if s + 1 < b.len() && is_quote_byte(b[s + 1]) {
            quoted_step(b, s, s + 1, false, true)
        } else if (at(b, s + 1, 'r') || at(b, s + 1, 'R')) && s + 2 < b.len() && is_quote_byte(b[s + 2]) {
            quoted_step(b, s, s + 2, true, true)
        } else {
            ident_step(b, s)
        }
    } else if is_letter(c) || c == '_' {
        ident_step(b, s)
    } else if c == '`' {
        esc_ident_step(b, s)
    } else if c == '!' {
        pair_step(b, s, '=', TokenKind::NotEq, TokenKind::Exclam)
    } else if c == '<' {
        pair_step(b, s, '=', TokenKind::LessEq, TokenKind::Less)
    } else if c == '>' {
        pair_step(b, s, '=', TokenKind::GreaterEq, TokenKind::Greater)
    } else if c == '=' {
        if at(b, s + 1, '=') { ok_step(TokenKind::EqEq, s, s + 2) } else { err_step(s, s + 1, LexFailure::UnexpectedCharacter) }
    } else if c == '&' {
        if at(b, s + 1, '&') { ok_step(TokenKind::And, s, s + 2) } else { err_step(s, s + 1, LexFailure::SingleAmpersand) }
    } else if c == '|' {
        if at(b, s + 1, '|') { ok_step(TokenKind::Or, s, s + 2) } else { err_step(s, s + 1, LexFailure::SinglePipe) }
    } else if punct_kind(c) is Some {
        ok_step(punct_kind(c).unwrap(), s, s + 1)
    } else {
        err_step(s, s + 1, LexFailure::UnexpectedCharacter)
    }
}

/// The next token after position `i`: trivia skipped, then the token there,
/// or `Eof` at the end of the input.
pub open spec fn next_token(b: Seq<char>, i: int) -> Step {
    let s = trivia_end(b, i);
    if s >= b.len() {
        ok_step(TokenKind::Eof, s, s)
    } else {
        token_at(b, s)
    }
}


// ---------------------------------------------------------------------------
// Implementation
// ---------------------------------------------------------------------------

/// A slice has at most `usize::MAX` elements.
proof fn lemma_len(b: &[char])
    ensures
        b@.len() <= usize::MAX,
{
    assert(b.len() == b@.len());
}

fn digit_byte(x: char) -> (r: bool)
    ensures
        r == is_digit(x),
{
    '0' <= x && x <= '9'
}

fn hex_byte(x: char) -> (r: bool)
    ensures
        r == is_hex(x),
{
    ('0' <= x && x <= '9') || ('a' <= x && x <= 'f') || ('A' <= x && x <= 'F')
}

pub(crate) fn letter_byte(x: char) -> (r: bool)
    ensures
        r == is_letter(x),
{
    ('a' <= x && x <= 'z') || ('A' <= x && x <= 'Z')
}

pub(crate) fn ident_byte(x: char) -> (r: bool)
    ensures
        r == is_ident_char(x),
{
    letter_byte(x) || digit_byte(x) || x == '_'
}

fn esc_ident_byte(x: char) -> (r: bool)
    ensures
        r == is_esc_ident_char(x),
{
    ident_byte(x) || x == '.' || x == '-' || x == '/' || x == ' '
}

fn ws_byte(x: char) -> (r: bool)
    ensures
        r == is_ws(x),
{
    x == ' ' || x == '\t' || x == '\r' || x == '\n' || x == '\u{c}'
}

fn quote_byte(x: char) -> (r: bool)
    ensures
        r == is_quote_byte(x),
{
    x == '"' || x == '\''
}

fn byte_at(b: &[char], i: usize, x: char) -> (r: bool)
    ensures
        r == at(b@, i as int, x),
{
    i < b.len() && b[i] == x
}

fn skip_digits(b: &[char], i: usize) -> (e: usize)
    requires
        i <= b@.len(),
    ensures
        e == digits_end(b@, i as int),
        i <= e <= b@.len(),
{
    let mut j = i;
    while j < b.len() && digit_byte(b[j])
        invariant
            i <= j <= b@.len(),
            digits_end(b@, i as int) == digits_end(b@, j as int),
        decreases b@.len() - j,
    {
        j += 1;
    }
    j
}

fn skip_hex(b: &[char], i: usize) -> (e: usize)
    requires
        i <= b@.len(),
    ensures
        e == hex_end(b@, i as int),
        i <= e <= b@.len(),
{
    let mut j = i;
    while j < b.len() && hex_byte(b[j])
        invariant
            i <= j <= b@.len(),
            hex_end(b@, i as int) == hex_end(b@, j as int),
        decreases b@.len() - j,
    {
        j += 1;
    }
    j
}

fn skip_ident(b: &[char], i: usize) -> (e: usize)
    requires
        i <= b@.len(),
    ensures
        e == ident_end(b@, i as int),
        i <= e <= b@.len(),
{
    let mut j = i;
    while j < b.len() && ident_byte(b[j])
        invariant
            i <= j <= b@.len(),
            ident_end(b@, i as int) == ident_end(b@, j as int),
        decreases b@.len() - j,
    {
        j += 1;
    }
    j
}

fn skip_esc_ident(b: &[char], i: usize) -> (e: usize)
    requires
        i <= b@.len(),
    ensures
        e == esc_ident_end(b@, i as int),
        i <= e <= b@.len(),
{
    let mut j = i;
    while j < b.len() && esc_ident_byte(b[j])
        invariant
            i <= j <= b@.len(),
            esc_ident_end(b@, i as int) == esc_ident_end(b@, j as int),
        decreases b@.len() - j,
    {
        j += 1;
    }
    j
}

fn find(b: &[char], i: usize, x: char) -> (e: usize)
    requires
        i <= b@.len(),
    ensures
        e == find_byte(b@, i as int, x),
        i <= e <= b@.len(),
{
    let mut j = i;
    while j < b.len() && b[j] != x
        invariant
            i <= j <= b@.len(),
            find_byte(b@, i as int, x) == find_byte(b@, j as int, x),
        decreases b@.len() - j,
    {
        j += 1;
    }
    j
}

/// Skips the whitespace and comments that start at `i`.
pub fn skip_trivia(b: &[char], i: usize) -> (e: usize)
    requires
        i <= b@.len(),
    ensures
        e == trivia_end(b@, i as int),
        i <= e <= b@.len(),
{
    proof { lemma_len(b); }
    let mut j = i;
    loop
        invariant
            i <= j <= b@.len(),
            trivia_end(b@, i as int) == trivia_end(b@, j as int),
        decreases b@.len() - j,
    {
        if j < b.len() && ws_byte(b[j]) {
            j += 1;
        } else if byte_at(b, j, '/') && byte_at(b, j + 1, '/') {
            let mut k = j + 2;
            while k < b.len() && b[k] != '\n'
                invariant
                    j + 2 <= k <= b@.len(),
                    trivia_end(b@, i as int) == comment_end(b@, k as int),
                decreases b@.len() - k,
            {
                k += 1;
            }
            j = k;
        } else {
            return j;
        }
    }
}

fn integral_suffix_exec(b: &[char], e: usize) -> (r: (TokenKind, usize))
    requires
        e <= b@.len(),
    ensures
        (r.0, r.1 as int) == integral_suffix(b@, e as int),
        e <= r.1 <= b@.len(),
{
    proof { lemma_len(b); }
    if byte_at(b, e, 'u') || byte_at(b, e, 'U') {
        (TokenKind::Uint, e + 1)
    } else {
        (TokenKind::Int, e)
    }
}

/// The number token at `s`, see [`number_at`].
fn number_exec(b: &[char], s: usize) -> (r: Option<(TokenKind, usize)>)
    requires
        s < b@.len(),
    ensures
        match number_at(b@, s as int) {
            Some((k, e)) => r matches Some((k2, e2)) && k2 == k && e2 == e,
            None => r is None,
        },
        r matches Some((_, e)) ==> s < e <= b@.len(),
{
    proof { lemma_len(b); }
    if byte_at(b, s, '0') && byte_at(b, s + 1, 'x') && s + 2 < b.len() && hex_byte(b[s + 2]) {
        let e = skip_hex(b, s + 2);
        return Some(integral_suffix_exec(b, e));
    }
    let e1 = skip_digits(b, s);
    let has_frac = byte_at(b, e1, '.') && e1 + 1 < b.len() && digit_byte(b[e1 + 1]);
    let e2 = if has_frac { skip_digits(b, e1 + 1) } else { e1 };
    if e1 == s && !has_frac {
        return None;
    }
    let has_e = byte_at(b, e2, 'e') || byte_at(b, e2, 'E');
    let mut k = e2;
    let mut has_exp = false;
    if has_e {
        k = if byte_at(b, e2 + 1, '+') || byte_at(b, e2 + 1, '-') { e2 + 2 } else { e2 + 1 };
        has_exp = k < b.len() && digit_byte(b[k]);
    }
    let e3 = if has_exp { skip_digits(b, k) } else { e2 };
    if has_frac || has_exp {
        Some((TokenKind::Float, e3))
    } else {
        Some(integral_suffix_exec(b, e3))
    }
}

fn triple_close_exec(b: &[char], p: usize, q: char, raw: bool) -> (r: Option<usize>)
    requires
        p <= b@.len(),
    ensures
        match triple_close(b@, p as int, q, raw) {
            Some(e) => r == Some(e as usize) && p < e <= b@.len(),
            None => r is None,
        },
{
    proof { lemma_len(b); }
    proof { lemma_triple_close_bounds(b@, p as int, q, raw); }
    let mut j = p;
    while j < b.len()
        invariant
            p <= j <= b@.len(),
            triple_close(b@, p as int, q, raw) == triple_close(b@, j as int, q, raw),
        decreases b@.len() - j,
    {
        if byte_at(b, j, q) && byte_at(b, j + 1, q) && byte_at(b, j + 2, q) {
            return Some(j + 3);
        }
        if !raw && b[j] == '\\' && j + 1 < b.len() {
            j += 2;
        } else {
            j += 1;
        }
    }
    None
}

proof fn lemma_triple_close_bounds(b: Seq<char>, p: int, q: char, raw: bool)
    ensures
        forall|e: int| triple_close(b, p, q, raw) == Some(e) ==> p < e <= b.len(),
    decreases b.len() - p,
{
    if 0 <= p < b.len() {
        if !(at(b, p, q) && at(b, p + 1, q) && at(b, p + 2, q)) {
            if !raw && b[p] == '\\' && p + 1 < b.len() {
                lemma_triple_close_bounds(b, p + 2, q, raw);
            } else {
                lemma_triple_close_bounds(b, p + 1, q, raw);
            }
        }
    }
}

proof fn lemma_single_close_bounds(b: Seq<char>, p: int, q: char, raw: bool)
    ensures
        forall|e: int| single_close(b, p, q, raw) == Some(e) ==> p < e <= b.len(),
    decreases b.len() - p,
{
    if 0 <= p < b.len() && b[p] != q && b[p] != '\n' && b[p] != '\r' {
        if !raw && b[p] == '\\' {
            if p + 1 < b.len() && b[p + 1] != '\n' && b[p + 1] != '\r' {
                lemma_single_close_bounds(b, p + 2, q, raw);
            }
        } else {
            lemma_single_close_bounds(b, p + 1, q, raw);
        }
    }
}

fn single_close_exec(b: &[char], p: usize, q: char, raw: bool) -> (r: Option<usize>)
    requires
        p <= b@.len(),
    ensures
        match single_close(b@, p as int, q, raw) {
            Some(e) => r == Some(e as usize) && p < e <= b@.len(),
            None => r is None,
        },
{
    proof { lemma_len(b); }
    proof { lemma_single_close_bounds(b@, p as int, q, raw); }
    let mut j = p;
    while j < b.len()
        invariant
            p <= j <= b@.len(),
            single_close(b@, p as int, q, raw) == single_close(b@, j as int, q, raw),
        decreases b@.len() - j,
    {
        let x = b[j];
        if x == q {
            return Some(j + 1);
        }
        if x == '\n' || x == '\r' {
            return None;
        }
        if !raw && x == '\\' {
            if j + 1 < b.len() && b[j + 1] != '\n' && b[j + 1] != '\r' {
                j += 2;
            } else {
                return None;
            }
        } else {
            j += 1;
        }
    }
    None
}

fn quoted_end_exec(b: &[char], q: usize, raw: bool) -> (r: Option<usize>)
    requires
        q < b@.len(),
    ensures
        match quoted_end(b@, q as int, raw) {
            Some(e) => r == Some(e as usize) && q < e <= b@.len(),
            None => r is None,
        },
{
    proof { lemma_len(b); }
    let quote = b[q];
    if byte_at(b, q + 1, quote) && byte_at(b, q + 2, quote) {
        proof { lemma_triple_close_bounds(b@, q + 3, quote, raw); }
        triple_close_exec(b, q + 3, quote, raw)
    } else {
        single_close_exec(b, q + 1, quote, raw)
    }
}

/// The lexer's result for one token, with the failure to report if it is
/// an error token.
pub open spec fn step_is(t: Token, f: Option<LexFailure>, st: Step) -> bool {
    t.kind == st.kind && t.start == st.start && t.end == st.end && f == st.failure
}

fn keyword_exec(b: &[char], s: usize, e: usize) -> (k: TokenKind)
    requires
        s <= e <= b@.len(),
    ensures
        k == keyword_kind(b@.subrange(s as int, e as int)),
{
    proof { lemma_len(b); }
    let ghost w = b@.subrange(s as int, e as int);
    let n = e - s;
    if n == 4 && b[s] == 't' && b[s + 1] == 'r' && b[s + 2] == 'u' && b[s + 3] == 'e' {
        assert(w =~= seq!['t', 'r', 'u', 'e']);
        TokenKind::True
    } else if n == 5 && b[s] == 'f' && b[s + 1] == 'a' && b[s + 2] == 'l' && b[s + 3] == 's' && b[s + 4] == 'e' {
        assert(w =~= seq!['f', 'a', 'l', 's', 'e']);
        TokenKind::False
    } else if n == 4 && b[s] == 'n' && b[s + 1] == 'u' && b[s + 2] == 'l' && b[s + 3] == 'l' {
        assert(w =~= seq!['n', 'u', 'l', 'l']);
        TokenKind::Null
    } else if n == 2 && b[s] == 'i' && b[s + 1] == 'n' {
        assert(w =~= seq!['i', 'n']);
        TokenKind::In
    } else {
        proof {
            assert(w.len() == n);
            assert(forall|k: int| 0 <= k < n ==> w[k] == b@[s + k]);
            let t = seq!['t', 'r', 'u', 'e'];
            let f = seq!['f', 'a', 'l', 's', 'e'];
            let nu = seq!['n', 'u', 'l', 'l'];
            let i = seq!['i', 'n'];
            if w == t { assert(w[0] == t[0] && w[1] == t[1] && w[2] == t[2] && w[3] == t[3]); }
            if w == f { assert(w[0] == f[0] && w[1] == f[1] && w[2] == f[2] && w[3] == f[3] && w[4] == f[4]); }
            if w == nu { assert(w[0] == nu[0] && w[1] == nu[1] && w[2] == nu[2] && w[3] == nu[3]); }
            if w == i { assert(w[0] == i[0] && w[1] == i[1]); }
        }
        TokenKind::Ident
    }
}

fn ident_exec(b: &[char], s: usize) -> (r: (Token, Option<LexFailure>))
    requires
        s < b@.len(),
        is_ident_char(b@[s as int]),
    ensures
        step_is(r.0, r.1, ident_step(b@, s as int)),
        s < r.0.end <= b@.len(),
{
    proof { lemma_len(b); }
    let e = skip_ident(b, s + 1);
    assert(ident_end(b@, s as int) == ident_end(b@, s + 1));
    let kind = keyword_exec(b, s, e);
    (Token { kind, start: s, end: e }, None)
}

fn quoted_exec(b: &[char], s: usize, q: usize, raw: bool, bytes: bool) -> (r: (Token, Option<LexFailure>))
    requires
        s <= q < b@.len(),
    ensures
        step_is(r.0, r.1, quoted_step(b@, s as int, q as int, raw, bytes)),
        s < r.0.end <= b@.len(),
{
    proof { lemma_len(b); }
    match quoted_end_exec(b, q, raw) {
        Some(e) => (Token { kind: if bytes { TokenKind::Bytes } else { TokenKind::String }, start: s, end: e }, None),
        None => (
            Token { kind: TokenKind::Error, start: s, end: b.len() },
            Some(if bytes { LexFailure::UnterminatedBytes } else { LexFailure::UnterminatedString }),
        ),
    }
}

fn esc_ident_exec(b: &[char], s: usize) -> (r: (Token, Option<LexFailure>))
    requires
        s < b@.len(),
    ensures
        step_is(r.0, r.1, esc_ident_step(b@, s as int)),
        s < r.0.end <= b@.len(),
{
    proof { lemma_len(b); }
    let e = skip_esc_ident(b, s + 1);
    if byte_at(b, e, '`') {
        if e > s + 1 {
            (Token { kind: TokenKind::EscIdent, start: s, end: e + 1 }, None)
        } else {
            (Token { kind: TokenKind::Error, start: s, end: e + 1 }, Some(LexFailure::InvalidQuotedIdent))
        }
    } else {
        let t = find(b, e, '`');
        if t < b.len() {
            (Token { kind: TokenKind::Error, start: s, end: t + 1 }, Some(LexFailure::InvalidQuotedIdent))
        } else {
            (Token { kind: TokenKind::Error, start: s, end: b.len() }, Some(LexFailure::UnterminatedQuotedIdent))
        }
    }
}

fn pair_exec(b: &[char], s: usize, second: char, two: TokenKind, one: TokenKind) -> (r: (Token, Option<LexFailure>))
    requires
        s < b@.len(),
    ensures
        step_is(r.0, r.1, pair_step(b@, s as int, second, two, one)),
        s < r.0.end <= b@.len(),
{
    proof { lemma_len(b); }
    if byte_at(b, s + 1, second) {
        (Token { kind: two, start: s, end: s + 2 }, None)
    } else {
        (Token { kind: one, start: s, end: s + 1 }, None)
    }
}

fn punct_exec(c: char) -> (r: Option<TokenKind>)
    ensures
        r == punct_kind(c),
{
    if c == '(' { Some(TokenKind::LParen) }
    else if c == ')' { Some(TokenKind::RParen) }
    else if c == '[' { Some(TokenKind::LBracket) }
    else if c == ']' { Some(TokenKind::RBracket) }
    else if c == '{' { Some(TokenKind::LBrace) }
    else if c == '}' { Some(TokenKind::RBrace) }
    else if c == ',' { Some(TokenKind::Comma) }
    else if c == '?' { Some(TokenKind::Question) }
    else if c == ':' { Some(TokenKind::Colon) }
    else if c == '-' { Some(TokenKind::Minus) }
    else if c == '+' { Some(TokenKind::Plus) }
    else if c == '*' { Some(TokenKind::Star) }
    else if c == '/' { Some(TokenKind::Slash) }
    else if c == '%' { Some(TokenKind::Percent) }
    else { None }
}

/// The token that starts at `s`, see [`token_at`].
fn token_at_exec(b: &[char], s: usize) -> (r: (Token, Option<LexFailure>))
    requires
        s < b@.len(),
    ensures
        step_is(r.0, r.1, token_at(b@, s as int)),
        s < r.0.end <= b@.len(),
{
    proof { lemma_len(b); }
    let c = b[s];
    if digit_byte(c) || c == '.' {
        match number_exec(b, s) {
            Some((k, e)) => (Token { kind: k, start: s, end: e }, None),
            None => (Token { kind: TokenKind::Dot, start: s, end: s + 1 }, None),
        }
    } else if quote_byte(c) {
        quoted_exec(b, s, s, false, false)
    } else if c == 'r' || c == 'R' {
        if s + 1 < b.len() && quote_byte(b[s + 1]) {
            quoted_exec(b, s, s + 1, true, false)
        } else {
            ident_exec(b, s)
        }
    } else if c == 'b' || c == 'B' {
        if s + 1 < b.len() && quote_byte(b[s + 1]) {
            quoted_exec(b, s, s + 1, false, true)
        } else if (byte_at(b, s + 1, 'r') || byte_at(b, s + 1, 'R')) && s + 2 < b.len() && quote_byte(b[s + 2]) {
            quoted_exec(b, s, s + 2, true, true)
        } else {
            ident_exec(b, s)
        }
    } else if letter_byte(c) || c == '_' {
        ident_exec(b, s)
    } else if c == '`' {
        esc_ident_exec(b, s)
    } else if c == '!' {
        pair_exec(b, s, '=', TokenKind::NotEq, TokenKind::Exclam)
    } else if c == '<' {
        pair_exec(b, s, '=', TokenKind::LessEq, TokenKind::Less)
    } else if c == '>' {
        pair_exec(b, s, '=', TokenKind::GreaterEq, TokenKind::Greater)
    } else if c == '=' {
        if byte_at(b, s + 1, '=') {
            (Token { kind: TokenKind::EqEq, start: s, end: s + 2 }, None)
        } else {
            (Token { kind: TokenKind::Error, start: s, end: s + 1 }, Some(LexFailure::UnexpectedCharacter))
        }
    } else if c == '&' {
        if byte_at(b, s + 1, '&') {
            (Token { kind: TokenKind::And, start: s, end: s + 2 }, None)
        } else {
            (Token { kind: TokenKind::Error, start: s, end: s + 1 }, Some(LexFailure::SingleAmpersand))
        }
    } else if c == '|' {
        if byte_at(b, s + 1, '|') {
            (Token { kind: TokenKind::Or, start: s, end: s + 2 }, None)
        } else {
            (Token { kind: TokenKind::Error, start: s, end: s + 1 }, Some(LexFailure::SinglePipe))
        }
    } else {
        match punct_exec(c) {
            Some(k) => (Token { kind: k, start: s, end: s + 1 }, None),
            None => (Token { kind: TokenKind::Error, start: s, end: s + 1 }, Some(LexFailure::UnexpectedCharacter)),
        }
    }
}

/// Skips trivia and lexes the next token, see [`next_token`]: the token
/// and, for an error token, the failure to report.
pub fn lex_token(b: &[char], i: usize) -> (r: (Token, Option<LexFailure>))
    requires
        i <= b@.len(),
    ensures
        step_is(r.0, r.1, next_token(b@, i as int)),
        i <= r.0.start <= r.0.end <= b@.len(),
        r.0.kind == TokenKind::Eof <==> r.0.start == b@.len(),
        r.0.kind != TokenKind::Eof ==> r.0.start < r.0.end,
        r.0.kind == TokenKind::Eof ==> r.0.end == r.0.start,
        r.1 is Some <==> r.0.kind == TokenKind::Error,
{
    let s = skip_trivia(b, i);
    if s >= b.len() {
        (Token { kind: TokenKind::Eof, start: s, end: s }, None)
    } else {
        token_at_exec(b, s)
    }
}


/// A quoted identifier token spans its two backticks and at least one
/// character between them.
pub proof fn lemma_esc_ident_span(b: Seq<char>, i: int)
    ensures
        next_token(b, i).kind == TokenKind::EscIdent ==> next_token(b, i).end >= next_token(b, i).start + 3,
{
}

/// The tokens of `b` from position `i` on, up to (not including) `Eof`.
pub open spec fn lex_steps(b: Seq<char>, i: int) -> Seq<Step>
    decreases b.len() - i,
{
    let st = next_token(b, i);
    if st.kind == TokenKind::Eof || st.end <= i || i < 0 || st.end > b.len() {
        seq![]
    } else {
        seq![st] + lex_steps(b, st.end)
    }
}

proof fn lemma_ident_end(b: Seq<char>, i: int)
    requires
        0 <= i,
    ensures
        i <= ident_end(b, i),
        i <= b.len() ==> ident_end(b, i) <= b.len(),
        forall|k: int| i <= k < ident_end(b, i) ==> is_ident_char(#[trigger] b[k]),
    decreases b.len() - i,
{
    if 0 <= i < b.len() && is_ident_char(b[i]) {
        assert(ident_end(b, i) == ident_end(b, i + 1));
        lemma_ident_end(b, i + 1);
    } else {
        assert(ident_end(b, i) == i);
    }
}

proof fn lemma_trivia_end_bounds(b: Seq<char>, i: int)
    requires
        0 <= i,
    ensures
        i <= trivia_end(b, i),
    decreases b.len() - i, 0int,
{
    if 0 <= i < b.len() && is_ws(b[i]) {
        lemma_trivia_end_bounds(b, i + 1);
    } else if 0 <= i && at(b, i, '/') && at(b, i + 1, '/') {
        lemma_comment_end_bounds(b, i + 2);
    }
}

proof fn lemma_comment_end_bounds(b: Seq<char>, j: int)
    requires
        0 <= j,
    ensures
        j <= comment_end(b, j),
    decreases b.len() - j, 1int,
{
    if 0 <= j < b.len() && b[j] != '\n' {
        lemma_comment_end_bounds(b, j + 1);
    } else {
        lemma_trivia_end_bounds(b, j);
    }
}

/// An identifier token is made of identifier characters.
pub proof fn lemma_ident_chars(b: Seq<char>, i: int)
    requires
        0 <= i,
        next_token(b, i).kind == TokenKind::Ident,
    ensures
        0 <= next_token(b, i).start <= next_token(b, i).end <= b.len(),
        forall|k: int| next_token(b, i).start <= k < next_token(b, i).end ==> is_ident_char(#[trigger] b[k]),
{
    let s = trivia_end(b, i);
    lemma_trivia_end_bounds(b, i);
    let st = token_at(b, s);
    assert(st == ident_step(b, s));
    lemma_ident_end(b, s);
    assert(next_token(b, i) == st);
    assert(st.start == s && st.end == ident_end(b, s));
}

/// The errors among lexer steps: the offset of each failed token, with its failure.
pub open spec fn step_errors(steps: Seq<Step>) -> Seq<(int, LexFailure)>
    decreases steps.len(),
{
    if steps.len() == 0 {
        seq![]
    } else {
        let rest = step_errors(steps.drop_first());
        match steps[0].failure {
            Some(f) => seq![(steps[0].start, f)] + rest,
            None => rest,
        }
    }
}

/// The byte offset of character position `i` of `s`.
pub open spec fn byte_offset(s: Seq<char>, i: int) -> int {
    byte_len(s.take(i))
}

/// A token, its span in byte offsets, stands for a lexer step over `s`.
pub open spec fn token_matches(s: Seq<char>, t: Token, st: Step) -> bool {
    t.kind == st.kind && t.start == byte_offset(s, st.start) && t.end == byte_offset(s, st.end)
}

pub open spec fn error_matches(s: Seq<char>, e: LexError, x: (int, LexFailure)) -> bool {
    e.offset == byte_offset(s, x.0) && e.message@ == failure_text(x.1)
}

pub(crate) proof fn lemma_step_errors_push(steps: Seq<Step>, st: Step)
    ensures
        step_errors(steps.push(st)) == step_errors(steps) + match st.failure {
            Some(f) => seq![(st.start, f)],
            None => Seq::<(int, LexFailure)>::empty(),
        },
    decreases steps.len(),
{
    if steps.len() == 0 {
        assert(steps.push(st).drop_first() =~= Seq::<Step>::empty());
        assert(step_errors(Seq::<Step>::empty()) == Seq::<(int, LexFailure)>::empty());
        match st.failure {
            Some(f) => { assert(seq![(st.start, f)] + Seq::<(int, LexFailure)>::empty() =~= seq![(st.start, f)]); },
            None => {},
        }
    } else {
        lemma_step_errors_push(steps.drop_first(), st);
        assert(steps.push(st).drop_first() =~= steps.drop_first().push(st));
        match steps[0].failure {
            Some(f) => {
                let a = seq![(steps[0].start, f)];
                let t = match st.failure { Some(g) => seq![(st.start, g)], None => Seq::<(int, LexFailure)>::empty() };
                assert(a + (step_errors(steps.drop_first()) + t) =~= (a + step_errors(steps.drop_first())) + t);
            },
            None => {},
        }
    }
}

/// The byte offset of every character position of `chars`, its end included.
pub fn offset_table(chars: &[char]) -> (v: Vec<usize>)
    requires
        byte_len(chars@) <= usize::MAX,
    ensures
        v@.len() == chars@.len() + 1,
        forall|i: int| 0 <= i <= chars@.len() ==> v@[i] == byte_offset(chars@, i),
{
    proof { lemma_len(chars); }
    let mut v: Vec<usize> = Vec::new();
    let mut n: usize = 0;
    let mut i: usize = 0;
    assert(chars@.take(0) =~= Seq::<char>::empty());
    v.push(0);
    while i < chars.len()
        invariant
            i <= chars@.len(),
            byte_len(chars@) <= usize::MAX,
            n == byte_offset(chars@, i as int),
            v@.len() == i + 1,
            forall|k: int| 0 <= k <= i ==> v@[k] == byte_offset(chars@, k),
        decreases chars@.len() - i,
    {
        proof {
            lemma_encode_push(chars@.take(i as int), chars@[i as int]);
            assert(chars@.take(i + 1) =~= chars@.take(i as int).push(chars@[i as int]));
            lemma_byte_len_take(chars@, i + 1);
        }
        n = n + char_width(chars[i]);
        i += 1;
        v.push(n);
    }
    v
}

/// Tokenizes all of `source`: whitespace and comments are dropped, and each
/// stretch that fails to lex yields both a [`LexError`] and an
/// [`TokenKind::Error`] token spanning it. Spans and offsets are in bytes.
pub fn lex(source: &str) -> (r: (Vec<Token>, Vec<LexError>))
    ensures
        r.0@.len() == lex_steps(source@, 0).len(),
        forall|k: int| 0 <= k < r.0@.len() ==> token_matches(source@, #[trigger] r.0@[k], lex_steps(source@, 0)[k]),
        r.1@.len() == step_errors(lex_steps(source@, 0)).len(),
        forall|k: int| 0 <= k < r.1@.len() ==> error_matches(source@, #[trigger] r.1@[k], step_errors(lex_steps(source@, 0))[k]),
{
    let bytes = source.as_bytes();
    let _n = bytes.len();
    let cs = chars_of(source);
    let b = cs.as_slice();
    let offs = offset_table(b);
    let ghost all = lex_steps(b@, 0);
    let mut tokens: Vec<Token> = Vec::new();
    let mut errors: Vec<LexError> = Vec::new();
    let mut i: usize = 0;
    let ghost mut done: Seq<Step> = seq![];
    loop
        invariant
            i <= b@.len(),
            b@ == source@,
            offs@.len() == b@.len() + 1,
            forall|k: int| 0 <= k <= b@.len() ==> offs@[k] == byte_offset(b@, k),
            all == lex_steps(b@, 0),
            all == done + lex_steps(b@, i as int),
            tokens@.len() == done.len(),
            forall|k: int| 0 <= k < tokens@.len() ==> token_matches(b@, #[trigger] tokens@[k], done[k]),
            errors@.len() == step_errors(done).len(),
            forall|k: int| 0 <= k < errors@.len() ==> error_matches(b@, #[trigger] errors@[k], step_errors(done)[k]),
        decreases b@.len() - i,
    {
        let (token, failure) = lex_token(b, i);
        let ghost st = next_token(b@, i as int);
        if token.kind == TokenKind::Eof {
            assert(lex_steps(b@, i as int) == Seq::<Step>::empty());
            assert(done + Seq::<Step>::empty() =~= done);
            return (tokens, errors);
        }
        proof {
            lemma_step_errors_push(done, st);
            assert(lex_steps(b@, i as int) == seq![st] + lex_steps(b@, st.end));
            assert(done + (seq![st] + lex_steps(b@, st.end)) =~= done.push(st) + lex_steps(b@, st.end));
        }
        let start = offs[token.start];
        let end = offs[token.end];
        if let Some(f) = failure {
            errors.push(LexError { offset: start, message: f.message() });
        }
        tokens.push(Token { kind: token.kind, start, end });
        proof {
            done = done.push(st);
        }
        i = token.end;
    }
}

} // verus!
