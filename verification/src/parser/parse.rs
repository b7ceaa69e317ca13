//! CEL string and bytes literals.
//!
//! A literal, as the lexer hands it over (`"..."`, `r'''...'''`, `br"..."`,
//! ...), is decoded by these rules:
//!
//! * a `r`/`R` prefix marks a raw literal, and bytes carry a `b`/`B` prefix;
//! * `\r\n` and a lone `\r` in the source become `\n`;
//! * the content lies between single or triple quotes;
//! * outside raw literals, `\a \b \f \n \r \t \v \\ \? \" \' \``, `\xHH`,
//!   `\XHH`, `\uHHHH`, `\UHHHHHHHH` and octal `\ODD` are escapes;
//! * `\u` and `\U` are refused in bytes;
//! * in bytes, `\x` and octal escapes are raw byte values; in strings they
//!   are code points.

use vstd::prelude::*;
use vstd::utf8::{encode_utf8, encode_scalar, is_scalar};
use crate::utf8::{byte_len, lemma_encode_push, lemma_byte_len_bounds, char_width, encode_char};
use crate::text::{chars_of, string_of, push_char, push_str, push_decimal, decimal, to_string};

verus! {

broadcast use vstd::utf8::char_is_scalar;

#[verifier::external_type_specification]
#[verifier::external_body]
pub struct ExParseIntError(std::num::ParseIntError);

/// Error of [`parse_string`] and [`parse_bytes`].
#[derive(Debug, PartialEq)]
pub enum ParseSequenceError {
    InvalidEscape { escape: String, index: usize, string: String },
    InvalidUnicode { source: ParseUnicodeError, index: usize, string: String },
    MissingOpeningQuote,
    MissingClosingQuote,
    /// A literal of the wrong shape: too short, or bytes without their prefix.
    Invalid(String),
}

/// Why the value of a `\x`, `\u`, `\U` or octal escape was refused.
#[derive(Debug, PartialEq)]
pub enum ParseUnicodeError {
    Hex { source: std::num::ParseIntError, string: String },
    Unicode { value: u32 },
}

/// One decoded unit of a literal: a character, or (in bytes only) a raw byte.
#[derive(Clone, Copy, Debug, PartialEq, Eq)]
pub enum Piece {
    Char(char),
    Byte(u8),
}

/// What a literal decodes to when it does not decode, as plain values.
pub enum LiteralError {
    InvalidEscape { escape: Seq<char>, index: int },
    InvalidHex { hex: Seq<char>, index: int },
    InvalidScalar { value: u32, index: int },
    MissingOpeningQuote,
    MissingClosingQuote,
    TooShort,
    NotBytes,
}

// ---------------------------------------------------------------------------
// Specification
// ---------------------------------------------------------------------------

/// Source newlines made uniform: `\r\n` and a lone `\r` both become `\n`.
pub open spec fn normalize(s: Seq<char>) -> Seq<char>
    decreases s.len(),
{
    if s.len() == 0 {
        seq![]
    } else if s[0] == '\r' {
        if s.len() > 1 && s[1] == '\n' {
            seq!['\n'] + normalize(s.skip(2))
        } else {
            seq!['\n'] + normalize(s.skip(1))
        }
    } else {
        seq![s[0]] + normalize(s.skip(1))
    }
}

pub open spec fn is_quote(c: char) -> bool {
    c == '"' || c == '\''
}

pub open spec fn is_hex_digit(c: char) -> bool {
    ('0' <= c && c <= '9') || ('a' <= c && c <= 'f') || ('A' <= c && c <= 'F')
}

pub open spec fn hex_digit_value(c: char) -> nat {
    if '0' <= c && c <= '9' {
        (c as u32 - '0' as u32) as nat
    } else if 'a' <= c && c <= 'f' {
        (c as u32 - 'a' as u32 + 10) as nat
    } else {
        (c as u32 - 'A' as u32 + 10) as nat
    }
}

pub open spec fn all_hex(s: Seq<char>) -> bool {
    forall|k: int| 0 <= k < s.len() ==> is_hex_digit(#[trigger] s[k])
}

/// The number written by the hexadecimal digits `s`.
pub open spec fn hex_number(s: Seq<char>) -> nat
    decreases s.len(),
{
    if s.len() == 0 {
        0
    } else {
        hex_number(s.drop_last()) * 16 + hex_digit_value(s.last())
    }
}

/// Whether `u32::from_str_radix(s, 16)` accepts `s`: hex digits, optionally
/// after a `+` sign.
pub open spec fn hex_parses(s: Seq<char>) -> bool {
    (s.len() > 0 && all_hex(s)) || (s.len() > 1 && s[0] == '+' && all_hex(s.drop_first()))
}

/// The value `u32::from_str_radix(s, 16)` yields for an accepted `s`.
pub open spec fn hex_parse_value(s: Seq<char>) -> nat {
    if s.len() > 0 && s[0] == '+' {
        hex_number(s.drop_first())
    } else {
        hex_number(s)
    }
}

pub open spec fn is_octal(c: char) -> bool {
    '0' <= c && c <= '7'
}

pub open spec fn digit(c: char) -> nat {
    (c as u32 - '0' as u32) as nat
}

/// The byte a single-character escape `\c` stands for.
pub open spec fn simple_escape(c: char) -> Option<u8> {
    if c == 'a' { Some(0x07u8) }
    else if c == 'b' { Some(0x08u8) }
    else if c == 'f' { Some(0x0Cu8) }
    else if c == 'n' { Some(0x0Au8) }
    else if c == 'r' { Some(0x0Du8) }
    else if c == 't' { Some(0x09u8) }
    else if c == 'v' { Some(0x0Bu8) }
    else if c == '\\' { Some(0x5Cu8) }
    else if c == '\'' { Some(0x27u8) }
    else if c == '"' { Some(0x22u8) }
    else if c == '`' { Some(0x60u8) }
    else if c == '?' { Some(0x3Fu8) }
    else { None }
}

/// The number of hex digits that follow `\c`, for the hex escapes.
pub open spec fn hex_width(c: char) -> int {
    if c == 'x' || c == 'X' { 2 } else if c == 'u' { 4 } else { 8 }
}

/// The escape that starts with the backslash at `s[i]`: the unit it stands
/// for and the position right after it, or why it is refused. Errors carry
/// the byte offset of the backslash.
pub open spec fn escape_at(s: Seq<char>, i: int, is_bytes: bool) -> Result<(Piece, int), LiteralError> {
    let index = byte_len(s.take(i));
    if i + 1 >= s.len() {
        Err(LiteralError::InvalidEscape { escape: seq!['\\'], index })
    } else {
        let esc = s[i + 1];
        if simple_escape(esc) is Some {
            Ok((Piece::Byte(simple_escape(esc).unwrap()), i + 2))
        } else if esc == 'x' || esc == 'X' || esc == 'u' || esc == 'U' {
            if is_bytes && (esc == 'u' || esc == 'U') {
                Err(LiteralError::InvalidEscape { escape: seq!['\\', esc], index })
            } else {
                let w = hex_width(esc);
                if i + 2 + w > s.len() {
                    Err(LiteralError::InvalidScalar { value: 0, index })
                } else {
                    let hex = s.subrange(i + 2, i + 2 + w);
                    if !hex_parses(hex) {
                        Err(LiteralError::InvalidHex { hex, index })
                    } else {
                        let v = hex_parse_value(hex);
                        if is_bytes {
                            Ok((Piece::Byte(v as u8), i + 2 + w))
                        } else if is_scalar(v as u32) {
                            Ok((Piece::Char(v as char), i + 2 + w))
                        } else {
                            Err(LiteralError::InvalidScalar { value: v as u32, index })
                        }
                    }
                }
            }
        } else if '0' <= esc && esc <= '3' {
            if i + 2 >= s.len() {
                Err(LiteralError::InvalidScalar { value: 0, index })
            } else if !is_octal(s[i + 2]) {
                Err(LiteralError::InvalidEscape { escape: seq!['\\', esc], index })
            } else if i + 3 >= s.len() {
                Err(LiteralError::InvalidScalar { value: 0, index })
            } else if !is_octal(s[i + 3]) {
                Err(LiteralError::InvalidEscape { escape: seq!['\\', esc, s[i + 2]], index })
            } else {
                let v = digit(esc) * 64 + digit(s[i + 2]) * 8 + digit(s[i + 3]);
                if is_bytes {
                    Ok((Piece::Byte(v as u8), i + 4))
                } else {
                    Ok((Piece::Char(v as char), i + 4))
                }
            }
        } else {
            Err(LiteralError::InvalidEscape { escape: seq!['\\', esc], index })
        }
    }
}

/// The unit `p` in front of the units `r`, unless `r` is an error.
pub open spec fn cons(p: Piece, r: Result<Seq<Piece>, LiteralError>) -> Result<Seq<Piece>, LiteralError> {
    match r {
        Ok(rest) => Ok(seq![p] + rest),
        Err(e) => Err(e),
    }
}

/// The units of `s[i..]`, with escapes interpreted, or the first refused escape.
pub open spec fn decode_from(s: Seq<char>, i: int, is_bytes: bool) -> Result<Seq<Piece>, LiteralError>
    decreases s.len() - i,
{
    if i < 0 || i >= s.len() {
        Ok(seq![])
    } else if s[i] != '\\' {
        cons(Piece::Char(s[i]), decode_from(s, i + 1, is_bytes))
    } else {
        match escape_at(s, i, is_bytes) {
            Err(e) => Err(e),
            Ok((p, j)) => cons(p, decode_from(s, if j > i { j } else { i + 1 }, is_bytes)),
        }
    }
}

/// `s` with its `k` first and `k` last characters removed.
pub open spec fn strip(s: Seq<char>, k: int) -> Seq<char> {
    s.subrange(k, s.len() - k)
}

pub open spec fn starts_triple(s: Seq<char>) -> bool {
    s.len() >= 3 && is_quote(s[0]) && s[1] == s[0] && s[2] == s[0]
}

pub open spec fn ends_triple(s: Seq<char>, q: char) -> bool {
    s.len() >= 3 && s[s.len() - 1] == q && s[s.len() - 2] == q && s[s.len() - 3] == q
}

/// What lies between the quotes of the (prefix-free) literal `v`, or why `v`
/// is not a quoted literal.
pub open spec fn content(v: Seq<char>) -> Result<Seq<char>, LiteralError> {
    if byte_len(v) < 2 {
        Err(LiteralError::TooShort)
    } else if !is_quote(v[0]) {
        Err(LiteralError::MissingOpeningQuote)
    } else if v.last() != v[0] {
        Err(LiteralError::MissingClosingQuote)
    } else if byte_len(v) >= 6 && starts_triple(v) {
        if ends_triple(v, v[0]) {
            Ok(strip(v, 3))
        } else {
            Err(LiteralError::MissingClosingQuote)
        }
    } else {
        Ok(strip(v, 1))
    }
}

pub open spec fn is_raw_marker(c: char) -> bool {
    c == 'r' || c == 'R'
}

/// Whether the normalized literal `n` is raw.
pub open spec fn literal_is_raw(n: Seq<char>) -> bool {
    n.len() > 0 && is_raw_marker(n[0])
}

/// Whether the literal (with normalized newlines) `n` is raw, and what lies
/// between its quotes; or why it is not a quoted literal.
pub open spec fn literal_parts(n: Seq<char>) -> Result<(bool, Seq<char>), LiteralError> {
    if byte_len(n) < 2 {
        Err(LiteralError::TooShort)
    } else {
        let raw = literal_is_raw(n);
        let v = if raw { n.drop_first() } else { n };
        match content(v) {
            Err(e) => Err(e),
            Ok(c) => Ok((raw, c)),
        }
    }
}

/// The units of the literal `value` (quotes included, and an optional raw
/// marker), or why it does not decode.
pub open spec fn unescape_spec(value: Seq<char>, is_bytes: bool) -> Result<Seq<Piece>, LiteralError> {
    match literal_parts(normalize(value)) {
        Err(e) => Err(e),
        Ok((raw, c)) => if raw {
            Ok(char_pieces(c))
        } else {
            decode_from(c, 0, is_bytes)
        },
    }
}

/// Each character taken as it is.
pub open spec fn char_pieces(c: Seq<char>) -> Seq<Piece>
    decreases c.len(),
{
    if c.len() == 0 {
        seq![]
    } else {
        char_pieces(c.drop_last()).push(Piece::Char(c.last()))
    }
}

/// The content the escape errors of `value` quote.
pub open spec fn error_content(value: Seq<char>) -> Seq<char> {
    match literal_parts(normalize(value)) {
        Ok((_, c)) => c,
        Err(_) => seq![],
    }
}

/// The bytes one unit stands for: a character UTF-8 encoded, a raw byte as it is.
pub open spec fn unit_bytes(p: Piece) -> Seq<u8> {
    match p {
        Piece::Char(c) => encode_scalar(c as u32),
        Piece::Byte(b) => seq![b],
    }
}

/// The bytes the units stand for.
pub open spec fn piece_bytes(p: Seq<Piece>) -> Seq<u8>
    decreases p.len(),
{
    if p.len() == 0 {
        seq![]
    } else {
        piece_bytes(p.drop_last()) + unit_bytes(p.last())
    }
}

/// The character one unit stands for, a raw byte standing for the character
/// with that code.
pub open spec fn unit_char(p: Piece) -> char {
    match p {
        Piece::Char(c) => c,
        Piece::Byte(b) => b as char,
    }
}

/// The characters the units stand for.
pub open spec fn piece_chars(p: Seq<Piece>) -> Seq<char>
    decreases p.len(),
{
    if p.len() == 0 {
        seq![]
    } else {
        piece_chars(p.drop_last()).push(unit_char(p.last()))
    }
}

/// Whether the literal starts with the bytes prefix `b` or `B`.
pub open spec fn has_bytes_prefix(literal: Seq<char>) -> bool {
    literal.len() > 0 && (literal[0] == 'b' || literal[0] == 'B')
}

/// The value of a bytes literal, or why it does not decode.
pub open spec fn bytes_spec(literal: Seq<char>) -> Result<Seq<u8>, LiteralError> {
    if has_bytes_prefix(literal) {
        match unescape_spec(literal.drop_first(), true) {
            Ok(p) => Ok(piece_bytes(p)),
            Err(e) => Err(e),
        }
    } else {
        Err(LiteralError::NotBytes)
    }
}

/// The value of a string literal, or why it does not decode.
pub open spec fn string_spec(literal: Seq<char>) -> Result<Seq<char>, LiteralError> {
    match unescape_spec(literal, false) {
        Ok(p) => Ok(piece_chars(p)),
        Err(e) => Err(e),
    }
}

pub open spec fn short_message() -> Seq<char> {
    "literal too short to be a valid string"@
}

pub open spec fn not_bytes_message() -> Seq<char> {
    "bytes literal must start with b/B"@
}

/// Whether the error value `e` is the plain error `s`, for a literal whose
/// content is `content`.
pub open spec fn error_is(e: ParseSequenceError, s: LiteralError, content: Seq<char>) -> bool {
    match s {
        LiteralError::InvalidEscape { escape, index } => e matches ParseSequenceError::InvalidEscape { escape: es, index: i, string }
            && es@ == escape && i == index && string@ == content,
        LiteralError::InvalidHex { hex, index } => e matches ParseSequenceError::InvalidUnicode { source: ParseUnicodeError::Hex { string: h, .. }, index: i, string }
            && h@ == hex && i == index && string@ == content,
        LiteralError::InvalidScalar { value, index } => e matches ParseSequenceError::InvalidUnicode { source: ParseUnicodeError::Unicode { value: v }, index: i, string }
            && v == value && i == index && string@ == content,
        LiteralError::MissingOpeningQuote => e is MissingOpeningQuote,
        LiteralError::MissingClosingQuote => e is MissingClosingQuote,
        LiteralError::TooShort => e matches ParseSequenceError::Invalid(m) && m@ == short_message(),
        LiteralError::NotBytes => e matches ParseSequenceError::Invalid(m) && m@ == not_bytes_message(),
    }
}


// ---------------------------------------------------------------------------
// Implementation
// ---------------------------------------------------------------------------

/// The value of the hexadecimal number `s`.
///
/// Wraps `u32::from_str_radix(s, 16)`, which the standard library documents
/// as accepting an optional `+` sign followed by digits of the radix; with at
/// most eight digits the value always fits.
#[verifier::external_body]
fn parse_hex_u32(s: &str) -> (r: Result<u32, std::num::ParseIntError>)
    requires
        s@.len() <= 8,
    ensures
        r is Ok <==> hex_parses(s@),
        r matches Ok(v) ==> v as nat == hex_parse_value(s@),
{
    u32::from_str_radix(s, 16)
}

/// Source newlines made uniform, see [`normalize`].
fn normalize_newlines(s: &Vec<char>) -> (out: Vec<char>)
    ensures
        out@ == normalize(s@),
{
    let mut out: Vec<char> = Vec::new();
    let mut i: usize = 0;
    assert(s@.skip(0) == s@);
    while i < s.len()
        invariant
            i <= s@.len(),
            out@ + normalize(s@.skip(i as int)) == normalize(s@),
        decreases s@.len() - i,
    {
        let ghost rest = s@.skip(i as int);
        if s[i] == '\r' {
            out.push('\n');
            if i + 1 < s.len() && s[i + 1] == '\n' {
                assert(rest.skip(2) == s@.skip(i + 2));
                assert(out@ + normalize(s@.skip(i + 2)) =~= normalize(s@));
                i += 2;
            } else {
                assert(rest.skip(1) == s@.skip(i + 1));
                assert(out@ + normalize(s@.skip(i + 1)) =~= normalize(s@));
                i += 1;
            }
        } else {
            out.push(s[i]);
            assert(rest.skip(1) == s@.skip(i + 1));
            assert(out@ + normalize(s@.skip(i + 1)) =~= normalize(s@));
            i += 1;
        }
    }
    assert(s@.skip(i as int) == Seq::<char>::empty());
    assert(out@ + Seq::<char>::empty() == out@);
    out
}

fn is_hex_width_escape(c: char) -> (b: bool)
    ensures
        b == (c == 'x' || c == 'X' || c == 'u' || c == 'U'),
{
    c == 'x' || c == 'X' || c == 'u' || c == 'U'
}

fn simple_escape_exec(c: char) -> (r: Option<u8>)
    ensures
        r == simple_escape(c),
{
    if c == 'a' { Some(0x07u8) }
    else if c == 'b' { Some(0x08u8) }
    else if c == 'f' { Some(0x0Cu8) }
    else if c == 'n' { Some(0x0Au8) }
    else if c == 'r' { Some(0x0Du8) }
    else if c == 't' { Some(0x09u8) }
    else if c == 'v' { Some(0x0Bu8) }
    else if c == '\\' { Some(0x5Cu8) }
    else if c == '\'' { Some(0x27u8) }
    else if c == '"' { Some(0x22u8) }
    else if c == '`' { Some(0x60u8) }
    else if c == '?' { Some(0x3Fu8) }
    else { None }
}

fn invalid_escape(escape: String, index: usize, content: &Vec<char>) -> (e: ParseSequenceError)
    ensures
        e matches ParseSequenceError::InvalidEscape { escape: es, index: i, string }
            && es@ == escape@ && i == index && string@ == content@,
{
    ParseSequenceError::InvalidEscape { escape, index, string: string_of(content.as_slice()) }
}

fn invalid_scalar(value: u32, index: usize, content: &Vec<char>) -> (e: ParseSequenceError)
    ensures
        error_is(e, LiteralError::InvalidScalar { value, index: index as int }, content@),
{
    ParseSequenceError::InvalidUnicode {
        source: ParseUnicodeError::Unicode { value },
        index,
        string: string_of(content.as_slice()),
    }
}

fn escape0() -> (s: String)
    ensures
        s@ == seq!['\\'],
{
    let mut s = String::new();
    push_char(&mut s, '\\');
    s
}

fn escape1(c: char) -> (s: String)
    ensures
        s@ == seq!['\\', c],
{
    let mut s = escape0();
    push_char(&mut s, c);
    assert(s@ =~= seq!['\\', c]);
    s
}

fn escape2(c: char, d: char) -> (s: String)
    ensures
        s@ == seq!['\\', c, d],
{
    let mut s = escape1(c);
    push_char(&mut s, d);
    assert(s@ =~= seq!['\\', c, d]);
    s
}

/// The escape starting with the backslash at `s[i]`, see [`escape_at`].
fn escape_exec(s: &Vec<char>, i: usize, index: usize, is_bytes: bool) -> (r: Result<(Piece, usize), ParseSequenceError>)
    requires
        i < s@.len(),
        s@[i as int] == '\\',
        index == byte_len(s@.take(i as int)),
    ensures
        match escape_at(s@, i as int, is_bytes) {
            Ok((p, j)) => r matches Ok((p2, j2)) && p2 == p && j2 == j,
            Err(e) => r matches Err(x) && error_is(x, e, s@),
        },
{
    let n = s.len();
    if i + 1 >= n {
        return Err(invalid_escape(escape0(), index, s));
    }
    let esc = s[i + 1];
    if let Some(b) = simple_escape_exec(esc) {
        return Ok((Piece::Byte(b), i + 2));
    }
    if is_hex_width_escape(esc) {
        if is_bytes && (esc == 'u' || esc == 'U') {
            return Err(invalid_escape(escape1(esc), index, s));
        }
        let w: usize = if esc == 'x' || esc == 'X' { 2 } else if esc == 'u' { 4 } else { 8 };
        if w > n - (i + 2) {
            return Err(invalid_scalar(0, index, s));
        }
        let hex = crate::text::string_from(s.as_slice(), i + 2, i + 2 + w);
        match parse_hex_u32(hex.as_str()) {
            Err(source) => {
                let e = ParseSequenceError::InvalidUnicode {
                    source: ParseUnicodeError::Hex { source, string: hex },
                    index,
                    string: string_of(s.as_slice()),
                };
                return Err(e);
            },
            Ok(v) => {
                if is_bytes {
                    return Ok((Piece::Byte(v as u8), i + 2 + w));
                }
                match crate::utf8::char_from_u32(v) {
                    Some(c) => return Ok((Piece::Char(c), i + 2 + w)),
                    None => return Err(invalid_scalar(v, index, s)),
                }
            },
        }
    }
    if '0' <= esc && esc <= '3' {
        if i + 2 >= n {
            return Err(invalid_scalar(0, index, s));
        }
        let d1 = s[i + 2];
        if !('0' <= d1 && d1 <= '7') {
            return Err(invalid_escape(escape1(esc), index, s));
        }
        if i + 3 >= n {
            return Err(invalid_scalar(0, index, s));
        }
        let d2 = s[i + 3];
        if !('0' <= d2 && d2 <= '7') {
            return Err(invalid_escape(escape2(esc, d1), index, s));
        }
        let v: u32 = ((esc as u32) - ('0' as u32)) * 64 + ((d1 as u32) - ('0' as u32)) * 8
            + ((d2 as u32) - ('0' as u32));
        if is_bytes {
            return Ok((Piece::Byte(v as u8), i + 4));
        } else {
            return Ok((Piece::Char(crate::utf8::ascii_char(v)), i + 4));
        }
    }
    Err(invalid_escape(escape1(esc), index, s))
}

pub open spec fn prepend(out: Seq<Piece>, r: Result<Seq<Piece>, LiteralError>) -> Result<Seq<Piece>, LiteralError> {
    match r {
        Ok(rest) => Ok(out + rest),
        Err(e) => Err(e),
    }
}

proof fn lemma_prepend_cons(before: Seq<Piece>, p: Piece, r: Result<Seq<Piece>, LiteralError>)
    ensures
        prepend(before, cons(p, r)) == prepend(before.push(p), r),
{
    match r {
        Ok(rest) => {
            assert(before + (seq![p] + rest) =~= before.push(p) + rest);
        },
        Err(e) => {},
    }
}

/// `b` advanced over the bytes of `s[i..j]`.
fn advance_bytes(s: &Vec<char>, i: usize, j: usize, b: usize) -> (r: usize)
    requires
        i <= j <= s@.len(),
        b == byte_len(s@.take(i as int)),
        byte_len(s@) <= usize::MAX,
    ensures
        r == byte_len(s@.take(j as int)),
{
    let mut k = i;
    let mut r = b;
    while k < j
        invariant
            i <= k <= j <= s@.len(),
            r == byte_len(s@.take(k as int)),
            byte_len(s@) <= usize::MAX,
        decreases j - k,
    {
        proof {
            lemma_encode_push(s@.take(k as int), s@[k as int]);
            assert(s@.take(k + 1) == s@.take(k as int).push(s@[k as int]));
            crate::utf8::lemma_byte_len_take(s@, k + 1);
        }
        r = r + char_width(s[k]);
        k += 1;
    }
    r
}

/// The units of `s` with escapes interpreted, see [`decode_from`].
fn decode_escapes(s: &Vec<char>, is_bytes: bool) -> (r: Result<Vec<Piece>, ParseSequenceError>)
    requires
        byte_len(s@) <= usize::MAX,
    ensures
        match decode_from(s@, 0, is_bytes) {
            Ok(p) => r matches Ok(v) && v@ == p,
            Err(e) => r matches Err(x) && error_is(x, e, s@),
        },
{
    let mut out: Vec<Piece> = Vec::new();
    let mut i: usize = 0;
    let mut b: usize = 0;
    assert(s@.take(0) == Seq::<char>::empty());
    while i < s.len()
        invariant
            i <= s@.len(),
            b == byte_len(s@.take(i as int)),
            byte_len(s@) <= usize::MAX,
            decode_from(s@, 0, is_bytes) == prepend(out@, decode_from(s@, i as int, is_bytes)),
        decreases s@.len() - i,
    {
        let c = s[i];
        if c != '\\' {
            let ghost before = out@;
            out.push(Piece::Char(c));
            proof { lemma_prepend_cons(before, Piece::Char(c), decode_from(s@, i + 1, is_bytes)); }
            b = advance_bytes(s, i, i + 1, b);
            i += 1;
        } else {
            match escape_exec(s, i, b, is_bytes) {
                Err(e) => {
                    return Err(e);
                },
                Ok((p, j)) => {
                    let ghost before = out@;
                    out.push(p);
                    proof { lemma_prepend_cons(before, p, decode_from(s@, j as int, is_bytes)); }
                    b = advance_bytes(s, i, j, b);
                    i = j;
                },
            }
        }
    }
    assert(out@ + Seq::<Piece>::empty() == out@);
    Ok(out)
}

fn too_short() -> (e: ParseSequenceError)
    ensures
        error_is(e, LiteralError::TooShort, seq![]),
        forall|c: Seq<char>| error_is(e, LiteralError::TooShort, c),
{
    ParseSequenceError::Invalid(to_string("literal too short to be a valid string"))
}

/// Whether all characters of `s` are ASCII when it starts and ends with
/// three quotes but is shorter than six characters.
proof fn lemma_short_triple_is_ascii(v: Seq<char>)
    requires
        starts_triple(v),
        ends_triple(v, v[0]),
        v.len() < 6,
    ensures
        byte_len(v) < 6,
{
    assert forall|k: int| 0 <= k < v.len() implies (v[k] as u32) < 0x80 by {
        if k >= 3 {
            assert(k >= v.len() - 3);
            assert(v[k] == v[0]) by {
                if k == v.len() - 1 {} else if k == v.len() - 2 {} else {}
            }
        }
    }
    lemma_byte_len_bounds(v);
}

/// `n[from..to]` as a vector.
fn copy_range(n: &Vec<char>, from: usize, to: usize) -> (body: Vec<char>)
    requires
        from <= to <= n@.len(),
    ensures
        body@ == n@.subrange(from as int, to as int),
{
    let mut body: Vec<char> = Vec::new();
    let mut q = from;
    while q < to
        invariant
            from <= q <= to <= n@.len(),
            body@ == n@.subrange(from as int, q as int),
        decreases to - q,
    {
        body.push(n[q]);
        assert(n@.subrange(from as int, q + 1) == n@.subrange(from as int, q as int).push(n@[q as int]));
        q += 1;
    }
    body
}

/// The raw marker and content of the normalized literal `n`, see [`literal_parts`].
fn split_literal(n: &Vec<char>, nlen: usize) -> (r: Result<(bool, Vec<char>), ParseSequenceError>)
    requires
        nlen == byte_len(n@),
    ensures
        match literal_parts(n@) {
            Ok((raw, c)) => r matches Ok((raw2, c2)) && raw2 == raw && c2@ == c,
            Err(e) => r matches Err(x) && error_is(x, e, seq![]),
        },
{
    if nlen < 2 {
        return Err(too_short());
    }
    proof { lemma_byte_len_bounds(n@); }
    let raw = n[0] == 'r' || n[0] == 'R';
    let start: usize = if raw { 1 } else { 0 };
    let ghost v = if raw { n@.drop_first() } else { n@ };
    let len = n.len() - start;
    proof {
        if raw {
            assert(n@ == seq![n@[0]] + n@.drop_first());
            crate::utf8::lemma_encode_concat(seq![n@[0]], n@.drop_first());
            crate::utf8::lemma_encode_single(n@[0]);
        }
        assert(v.len() == len);
        assert(forall|k: int| 0 <= k < len ==> v[k] == n@[k + start]);
    }
    let vlen = if raw { nlen - 1 } else { nlen };
    assert(vlen == byte_len(v));
    if vlen < 2 {
        return Err(too_short());
    }
    proof { lemma_byte_len_bounds(v); }
    let first = n[start];
    let last = n[n.len() - 1];
    assert(v.last() == last);
    if !(first == '"' || first == '\'') {
        return Err(ParseSequenceError::MissingOpeningQuote);
    }
    if last != first {
        return Err(ParseSequenceError::MissingClosingQuote);
    }
    let triple = vlen >= 6 && len >= 3 && n[start + 1] == first && n[start + 2] == first;
    assert(triple == (byte_len(v) >= 6 && starts_triple(v)));
    if triple {
        let ends = n[n.len() - 2] == first && n[n.len() - 3] == first;
        if !ends {
            return Err(ParseSequenceError::MissingClosingQuote);
        }
        proof {
            if v.len() < 6 {
                lemma_short_triple_is_ascii(v);
            }
        }
        let body = copy_range(n, start + 3, n.len() - 3);
        assert(body@ =~= strip(v, 3));
        return Ok((raw, body));
    }
    let body = copy_range(n, start + 1, n.len() - 1);
    assert(body@ =~= strip(v, 1));
    Ok((raw, body))
}

/// The units of the characters `body`, each taken as it is.
fn verbatim(body: &Vec<char>) -> (out: Vec<Piece>)
    ensures
        out@ == char_pieces(body@),
{
    let mut out: Vec<Piece> = Vec::new();
    let mut t: usize = 0;
    assert(body@.take(0) =~= Seq::<char>::empty());
    while t < body.len()
        invariant
            t <= body@.len(),
            out@ == char_pieces(body@.take(t as int)),
        decreases body@.len() - t,
    {
        let ghost before = out@;
        out.push(Piece::Char(body[t]));
        assert(body@.take(t + 1).drop_last() =~= body@.take(t as int));
        t += 1;
    }
    assert(body@.take(body@.len() as int) == body@);
    out
}

/// Decodes a literal (quotes included, with an optional raw marker), see
/// [`unescape_spec`].
pub fn unescape(value: &str, is_bytes: bool) -> (r: Result<Vec<Piece>, ParseSequenceError>)
    ensures
        match unescape_spec(value@, is_bytes) {
            Ok(p) => r matches Ok(v) && v@ == p,
            Err(e) => r matches Err(x) && error_is(x, e, error_content(value@)),
        },
{
    let total = value.as_bytes().len();
    let cs = chars_of(value);
    let n = normalize_newlines(&cs);
    proof {
        lemma_normalize_byte_len(value@);
        assert(total == byte_len(value@));
        assert(n@.take(n@.len() as int) == n@);
    }
    let nlen = crate::utf8::byte_len_of(n.as_slice(), n.len());
    assert(n@.take(n@.len() as int) == n@);
    match split_literal(&n, nlen) {
        Err(e) => Err(e),
        Ok((raw, body)) => {
            if raw {
                Ok(verbatim(&body))
            } else {
                proof { lemma_content_byte_len(n@); }
                decode_escapes(&body, is_bytes)
            }
        },
    }
}

/// The content of a literal takes no more bytes than the literal.
proof fn lemma_content_byte_len(n: Seq<char>)
    requires
        literal_parts(n) is Ok,
    ensures
        byte_len(literal_parts(n)->Ok_0.1) <= byte_len(n),
{
    let raw = literal_is_raw(n);
    let v = if raw { n.drop_first() } else { n };
    let k: int = if byte_len(v) >= 6 && starts_triple(v) { 3 } else { 1 };
    if raw {
        crate::utf8::lemma_byte_len_take(n, 1);
        assert(n.skip(1) == n.drop_first());
    }
    lemma_byte_len_bounds(v);
    if k == 3 {
        if v.len() < 6 {
            lemma_short_triple_is_ascii(v);
        }
    } else if v.len() < 2 {
        assert forall|j: int| 0 <= j < v.len() implies (v[j] as u32) < 0x80 by {
            assert(j == 0);
        }
        lemma_byte_len_bounds(v);
    }
    crate::utf8::lemma_byte_len_take(v, k);
    let rest = v.skip(k);
    crate::utf8::lemma_byte_len_take(rest, v.len() - 2 * k);
    assert(rest.take(v.len() - 2 * k) =~= strip(v, k));
}

/// Normalizing newlines never makes a literal longer.
proof fn lemma_normalize_byte_len(s: Seq<char>)
    ensures
        byte_len(normalize(s)) <= byte_len(s),
    decreases s.len(),
{
    if s.len() > 0 {
        crate::utf8::lemma_byte_len_take(s, 1);
        assert(s.take(1) == seq![s[0]]);
        crate::utf8::lemma_encode_single(s[0]);
        crate::utf8::lemma_encode_single('\n');
        if s[0] == '\r' && s.len() > 1 && s[1] == '\n' {
            lemma_normalize_byte_len(s.skip(2));
            crate::utf8::lemma_byte_len_take(s.skip(1), 1);
            assert(s.skip(1).skip(1) == s.skip(2));
            crate::utf8::lemma_encode_concat(seq!['\n'], normalize(s.skip(2)));
        } else if s[0] == '\r' {
            lemma_normalize_byte_len(s.skip(1));
            crate::utf8::lemma_encode_concat(seq!['\n'], normalize(s.skip(1)));
        } else {
            lemma_normalize_byte_len(s.skip(1));
            crate::utf8::lemma_encode_concat(seq![s[0]], normalize(s.skip(1)));
        }
    }
}


/// Parses a CEL string literal, quotes included, single, double or triple
/// quoted, with an optional `r`/`R` raw marker; see [`string_spec`].
pub fn parse_string(literal: &str) -> (r: Result<String, ParseSequenceError>)
    ensures
        match string_spec(literal@) {
            Ok(s) => r matches Ok(x) && x@ == s,
            Err(e) => r matches Err(x) && error_is(x, e, error_content(literal@)),
        },
{
    match unescape(literal, false) {
        Err(e) => Err(e),
        Ok(pieces) => {
            let mut out = String::new();
            let mut k: usize = 0;
            assert(pieces@.take(0) =~= Seq::<Piece>::empty());
            while k < pieces.len()
                invariant
                    k <= pieces@.len(),
                    out@ == piece_chars(pieces@.take(k as int)),
                decreases pieces@.len() - k,
            {
                let c = match pieces[k] {
                    Piece::Char(c) => c,
                    Piece::Byte(b) => crate::utf8::ascii_char(b as u32),
                };
                push_char(&mut out, c);
                assert(pieces@.take(k + 1).drop_last() =~= pieces@.take(k as int));
                k += 1;
            }
            assert(pieces@.take(pieces@.len() as int) =~= pieces@);
            Ok(out)
        },
    }
}

/// Parses a CEL bytes literal: the `b`/`B` prefix, an optional `r`/`R` raw
/// marker and the quoted content; see [`bytes_spec`].
pub fn parse_bytes(literal: &str) -> (r: Result<Vec<u8>, ParseSequenceError>)
    ensures
        match bytes_spec(literal@) {
            Ok(b) => r matches Ok(x) && x@ == b,
            Err(e) => r matches Err(x) && error_is(x, e, error_content(literal@.drop_first())),
        },
{
    let n = literal.unicode_len();
    if n == 0 || !(literal.get_char(0) == 'b' || literal.get_char(0) == 'B') {
        return Err(ParseSequenceError::Invalid(to_string("bytes literal must start with b/B")));
    }
    let rest = literal.substring_char(1, n);
    assert(rest@ =~= literal@.drop_first());
    match unescape(rest, true) {
        Err(e) => Err(e),
        Ok(pieces) => {
            let mut out: Vec<u8> = Vec::new();
            let mut k: usize = 0;
            assert(pieces@.take(0) =~= Seq::<Piece>::empty());
            while k < pieces.len()
                invariant
                    k <= pieces@.len(),
                    out@ == piece_bytes(pieces@.take(k as int)),
                decreases pieces@.len() - k,
            {
                match pieces[k] {
                    Piece::Char(c) => encode_char(&mut out, c),
                    Piece::Byte(b) => out.push(b),
                }
                assert(pieces@.take(k + 1).drop_last() =~= pieces@.take(k as int));
                k += 1;
            }
            assert(pieces@.take(pieces@.len() as int) =~= pieces@);
            Ok(out)
        },
    }
}

/// Names the text that `Debug` renders for a string: the string between
/// double quotes, with its special characters escaped.
pub uninterp spec fn str_debug(s: Seq<char>) -> Seq<char>;

/// Names the text that `Debug` renders for a [`std::num::ParseIntError`].
pub uninterp spec fn int_error_debug(e: std::num::ParseIntError) -> Seq<char>;

/// `Debug` of a string (`format!("{:?}", s)`), which depends on its
/// characters alone.
#[verifier::external_body]
fn debug_str(s: &str) -> (r: String)
    ensures
        r@ == str_debug(s@),
{
    format!("{:?}", s)
}

/// `Debug` of a [`std::num::ParseIntError`] (`format!("{:?}", e)`), which
/// depends on the error alone.
#[verifier::external_body]
fn debug_int_error(e: &std::num::ParseIntError) -> (r: String)
    ensures
        r@ == int_error_debug(*e),
{
    format!("{:?}", e)
}

/// How a refused escape value is shown, field by field.
pub open spec fn unicode_error_text(e: ParseUnicodeError) -> Seq<char> {
    match e {
        ParseUnicodeError::Hex { source, string } => "Hex { source: "@ + int_error_debug(source)
            + ", string: "@ + str_debug(string@) + " }"@,
        ParseUnicodeError::Unicode { value } => "Unicode { value: "@ + decimal(value as nat) + " }"@,
    }
}

/// How a literal error is shown: its variant and then each field by name,
/// strings quoted and escaped.
pub open spec fn error_text(e: ParseSequenceError) -> Seq<char> {
    match e {
        ParseSequenceError::InvalidEscape { escape, index, string } => "InvalidEscape { escape: "@
            + str_debug(escape@) + ", index: "@ + decimal(index as nat) + ", string: "@
            + str_debug(string@) + " }"@,
        ParseSequenceError::InvalidUnicode { source, index, string } => "InvalidUnicode { source: "@
            + unicode_error_text(source) + ", index: "@ + decimal(index as nat) + ", string: "@
            + str_debug(string@) + " }"@,
        ParseSequenceError::MissingOpeningQuote => "MissingOpeningQuote"@,
        ParseSequenceError::MissingClosingQuote => "MissingClosingQuote"@,
        ParseSequenceError::Invalid(m) => "Invalid("@ + str_debug(m@) + ")"@,
    }
}

fn push_unicode_error(out: &mut String, e: &ParseUnicodeError)
    ensures
        final(out)@ == old(out)@ + unicode_error_text(*e),
{
    match e {
        ParseUnicodeError::Hex { source, string } => {
            push_str(out, "Hex { source: ");
            let d = debug_int_error(source);
            push_str(out, d.as_str());
            push_str(out, ", string: ");
            let d = debug_str(string.as_str());
            push_str(out, d.as_str());
            push_str(out, " }");
        },
        ParseUnicodeError::Unicode { value } => {
            push_str(out, "Unicode { value: ");
            push_decimal(out, *value as u64);
            push_str(out, " }");
        },
    }
    assert(out@ =~= old(out)@ + unicode_error_text(*e));
}

/// The text of a literal error, as the parser reports it; see
/// [`error_text`].
pub fn error_message(e: &ParseSequenceError) -> (s: String)
    ensures
        s@ == error_text(*e),
{
    let mut out = String::new();
    match e {
        ParseSequenceError::InvalidEscape { escape, index, string } => {
            push_str(&mut out, "InvalidEscape { escape: ");
            let d = debug_str(escape.as_str());
            push_str(&mut out, d.as_str());
            push_str(&mut out, ", index: ");
            push_decimal(&mut out, *index as u64);
            push_str(&mut out, ", string: ");
            let d = debug_str(string.as_str());
            push_str(&mut out, d.as_str());
            push_str(&mut out, " }");
        },
        ParseSequenceError::InvalidUnicode { source, index, string } => {
            push_str(&mut out, "InvalidUnicode { source: ");
            push_unicode_error(&mut out, source);
            push_str(&mut out, ", index: ");
            push_decimal(&mut out, *index as u64);
            push_str(&mut out, ", string: ");
            let d = debug_str(string.as_str());
            push_str(&mut out, d.as_str());
            push_str(&mut out, " }");
        },
        ParseSequenceError::MissingOpeningQuote => push_str(&mut out, "MissingOpeningQuote"),
        ParseSequenceError::MissingClosingQuote => push_str(&mut out, "MissingClosingQuote"),
        ParseSequenceError::Invalid(m) => {
            push_str(&mut out, "Invalid(");
            let d = debug_str(m.as_str());
            push_str(&mut out, d.as_str());
            push_str(&mut out, ")");
        },
    }
    assert(out@ =~= error_text(*e));
    out
}

/// Text without a carriage return keeps its newlines as they are.
proof fn lemma_normalize_plain(s: Seq<char>)
    requires
        forall|k: int| 0 <= k < s.len() ==> s[k] != '\r',
    ensures
        normalize(s) == s,
    decreases s.len(),
{
    if s.len() > 0 {
        assert forall|k: int| 0 <= k < s.skip(1).len() implies s.skip(1)[k] != '\r' by {
            assert(s.skip(1)[k] == s[k + 1]);
        }
        lemma_normalize_plain(s.skip(1));
        assert(seq![s[0]] + s.skip(1) =~= s);
    }
}

/// The characters of a unit in front of others come first.
proof fn lemma_piece_chars_prepend(p: Piece, r: Seq<Piece>)
    ensures
        piece_chars(seq![p] + r) == seq![unit_char(p)] + piece_chars(r),
    decreases r.len(),
{
    if r.len() == 0 {
        assert(seq![p] + r =~= seq![p]);
        assert(seq![p].drop_last() =~= Seq::<Piece>::empty());
        assert(seq![p].last() == p);
        assert(piece_chars(r) == Seq::<char>::empty());
        assert(piece_chars(seq![p]) == piece_chars(Seq::<Piece>::empty()).push(unit_char(p)));
        assert(seq![unit_char(p)] + piece_chars(r) =~= seq![unit_char(p)]);
        assert(Seq::<char>::empty().push(unit_char(p)) =~= seq![unit_char(p)]);
    } else {
        lemma_piece_chars_prepend(p, r.drop_last());
        assert((seq![p] + r).drop_last() =~= seq![p] + r.drop_last());
        assert((seq![p] + r).last() == r.last());
        assert(piece_chars(seq![p] + r) == piece_chars((seq![p] + r).drop_last()).push(unit_char((seq![p] + r).last())));
        assert(piece_chars(r) == piece_chars(r.drop_last()).push(unit_char(r.last())));
        assert(seq![unit_char(p)] + piece_chars(r) =~= (seq![unit_char(p)] + piece_chars(r.drop_last())).push(unit_char(r.last())));
    }
}

/// Text without a backslash decodes to its own characters.
proof fn lemma_decode_plain(c: Seq<char>, i: int)
    requires
        0 <= i <= c.len(),
        forall|k: int| 0 <= k < c.len() ==> c[k] != '\\',
    ensures
        decode_from(c, i, false) is Ok,
        piece_chars(decode_from(c, i, false)->Ok_0) == c.skip(i),
    decreases c.len() - i,
{
    if i == c.len() {
        assert(c.skip(i) =~= Seq::<char>::empty());
    } else {
        lemma_decode_plain(c, i + 1);
        let r = decode_from(c, i + 1, false)->Ok_0;
        lemma_piece_chars_prepend(Piece::Char(c[i]), r);
        assert(seq![c[i]] + c.skip(i + 1) =~= c.skip(i));
    }
}

/// A literal opened and closed by three of the same quote, single or
/// double, decodes to exactly what lies between the triple quotes, where
/// that holds no escape and no carriage return.
pub proof fn law_triple_quoted(q: char, c: Seq<char>)
    requires
        is_quote(q),
        forall|k: int| 0 <= k < c.len() ==> c[k] != '\\' && c[k] != '\r',
    ensures
        string_spec(seq![q, q, q] + c + seq![q, q, q]) == Ok::<Seq<char>, LiteralError>(c),
{
    let v = seq![q, q, q] + c + seq![q, q, q];
    assert forall|k: int| 0 <= k < v.len() implies v[k] != '\r' by {
        if 3 <= k < 3 + c.len() {
            assert(v[k] == c[k - 3]);
        }
    }
    lemma_normalize_plain(v);
    crate::utf8::lemma_byte_len_bounds(v);
    assert(v[0] == q && v[1] == q && v[2] == q);
    assert(v.last() == q && v[v.len() - 2] == q && v[v.len() - 3] == q);
    assert(starts_triple(v));
    assert(ends_triple(v, v[0]));
    assert(strip(v, 3) =~= c);
    assert(!literal_is_raw(v));
    assert(content(v) == Ok::<Seq<char>, LiteralError>(c));
    lemma_decode_plain(c, 0);
    assert(c.skip(0) =~= c);
}

} // verus!
