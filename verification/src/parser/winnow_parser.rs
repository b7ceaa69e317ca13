//! A CEL parser: a precedence-climbing recursive descent over the grammar
//! of CEL, lexing on demand with one token of lookahead.
//!
//! Syntax errors are recovered from at list elements, map and message
//! entries, call arguments and the top level: the error is recorded and the
//! parser re-synchronises on the next `,` `)` `]` `}`. Two limits stop a
//! parse outright: the nesting depth of expressions and the number of
//! errors recovered from.
//!
//! Calls of the macros `has`, `all`, `exists`, `exists_one`, `map` and
//! `filter` are expanded as they are parsed, see [`crate::parser::macros`].
//! Every expression gets an id of its own, with the span it was written at.

use vstd::prelude::*;
use vstd::multiset::Multiset;
use crate::common::ast::{
    expr_ids, entry_ids, list_ids, target_ids, ids_m, list_m, entries_m, entry_m, lemma_ids_m, lemma_entry_m,
    lemma_list_m_push, lemma_list_m_concat, lemma_list_m_empty, lemma_entries_m_push, lemma_entries_m_empty, lemma_empty_m, CallExpr, EntryExpr, Expr, IdedEntryExpr, IdedExpr,
    ListExpr, LiteralValue, MapEntryExpr, MapExpr, OffsetRange, SelectExpr, SourceInfo, StructExpr,
    StructFieldExpr, lemma_name_not_optional, lemma_operator_names, lemma_plain_call, lemma_plain_entries,
    lemma_plain_list, lemma_plain_list1, lemma_plain_list2, lemma_plain_list3, optional_func, plain, plain_entries,
    plain_entry, plain_list, complete, complete_entries, complete_entry, complete_list, lemma_complete_entries_push,
    lemma_complete_list, lemma_complete_list1, lemma_complete_list2, lemma_complete_list3, lemma_complete_push,
    ident_fields, ident_fields_entries, ident_fields_entry, ident_fields_list, ident_name, lemma_ident_fields_entries_push,
    lemma_ident_fields_list, lemma_ident_fields_list1, lemma_ident_fields_list2, lemma_ident_fields_list3,
    lemma_ident_fields_push,
};
use crate::parser::macros::{call, expansion_size, find_macro, in_block, leaf, macro_of, size_of_expansion, Macro};
use crate::parser::errors::{insert_by_pos, sorted_by_pos, ParseError, ParseErrors};
use crate::parser::lexer::{byte_offset, failure_text, is_ident_char, lemma_ident_chars, lex_steps, lex_token, next_token, offset_table, step_errors, step_is, LexFailure, Step};
use crate::parser::parse::{parse_bytes, parse_string, ParseSequenceError};
use crate::text::{chars_of, decimal, push_char, push_chars, push_decimal, push_str, string_from};
use crate::utf8::byte_len;
use vstd::utf8::encode_utf8;

pub use crate::parser::lexer::{lex, LexError, Token, TokenKind};

verus! {

// ---------------------------------------------------------------------------
// Options
// ---------------------------------------------------------------------------

/// A CEL parser and its options.
#[derive(Debug, Clone, Copy)]
pub struct WinnowParser {
    max_recursion_depth: u16,
    error_recovery_limit: u32,
    enable_optional_syntax: bool,
    enable_ident_escape_syntax: bool,
}

impl WinnowParser {
    /// How deeply expressions may nest: `max` allows `max + 1` nested expressions.
    pub closed spec fn max_depth(self) -> u16 {
        self.max_recursion_depth
    }

    /// How many syntax errors the parser recovers from before it gives up.
    pub closed spec fn recovery_limit(self) -> u32 {
        self.error_recovery_limit
    }

    /// Whether `a.?b`, `a[?b]`, `[?a]`, `{?k: v}` and `Msg{?f: v}` are accepted.
    pub closed spec fn optional_syntax(self) -> bool {
        self.enable_optional_syntax
    }

    /// Whether backtick-escaped field names (``a.`b-c` ``) are accepted.
    pub closed spec fn ident_escape_syntax(self) -> bool {
        self.enable_ident_escape_syntax
    }

    /// A parser with the default options: a nesting depth of 96, 30
    /// recoveries, and neither the optional nor the escape syntax.
    pub fn new() -> (p: Self)
        ensures
            p.max_depth() == 96,
            p.recovery_limit() == 30,
            !p.optional_syntax(),
            !p.ident_escape_syntax(),
    {
        WinnowParser {
            max_recursion_depth: 96,
            error_recovery_limit: 30,
            enable_optional_syntax: false,
            enable_ident_escape_syntax: false,
        }
    }

    /// Sets how deeply expressions may nest: `max` allows `max + 1` nested
    /// expressions.
    pub fn max_recursion_depth(self, max: u16) -> (p: Self)
        ensures
            p.max_depth() == max,
            p.recovery_limit() == self.recovery_limit(),
            p.optional_syntax() == self.optional_syntax(),
            p.ident_escape_syntax() == self.ident_escape_syntax(),
    {
        WinnowParser { max_recursion_depth: max, ..self }
    }

    /// Sets the number of syntax errors the parser recovers from before it
    /// gives up with `error recovery attempt limit exceeded`.
    pub fn error_recovery_limit(self, limit: u32) -> (p: Self)
        ensures
            p.max_depth() == self.max_depth(),
            p.recovery_limit() == limit,
            p.optional_syntax() == self.optional_syntax(),
            p.ident_escape_syntax() == self.ident_escape_syntax(),
    {
        WinnowParser { error_recovery_limit: limit, ..self }
    }

    /// Enables the optional syntax: `a.?b`, `a[?b]`, `[?a]`, `{?k: v}` and
    /// `Msg{?f: v}`.
    pub fn enable_optional_syntax(self, enable: bool) -> (p: Self)
        ensures
            p.max_depth() == self.max_depth(),
            p.recovery_limit() == self.recovery_limit(),
            p.optional_syntax() == enable,
            p.ident_escape_syntax() == self.ident_escape_syntax(),
    {
        WinnowParser { enable_optional_syntax: enable, ..self }
    }

    /// Enables backtick-escaped field names (``a.`b-c` ``).
    pub fn enable_ident_escape_syntax(self, enable: bool) -> (p: Self)
        ensures
            p.max_depth() == self.max_depth(),
            p.recovery_limit() == self.recovery_limit(),
            p.optional_syntax() == self.optional_syntax(),
            p.ident_escape_syntax() == enable,
    {
        WinnowParser { enable_ident_escape_syntax: enable, ..self }
    }
}

impl Default for WinnowParser {
    fn default() -> (p: Self)
        ensures
            p.max_depth() == 96,
            p.recovery_limit() == 30,
            !p.optional_syntax(),
            !p.ident_escape_syntax(),
    {
        WinnowParser::new()
    }
}

// ---------------------------------------------------------------------------
// Positions
// ---------------------------------------------------------------------------

/// The number of newline bytes in `b`.
pub open spec fn newlines(b: Seq<u8>) -> nat
    decreases b.len(),
{
    if b.len() == 0 {
        0
    } else {
        newlines(b.drop_last()) + if b.last() == 10 { 1nat } else { 0nat }
    }
}

/// Where the last line of `b` starts: just after its last newline, or at 0.
pub open spec fn line_start(b: Seq<u8>) -> int
    decreases b.len(),
{
    if b.len() == 0 {
        0
    } else if b.last() == 10 {
        b.len() as int
    } else {
        line_start(b.drop_last())
    }
}

/// The 1-based line and column of byte `offset` of `b`; an offset past the
/// end stands for the end.
pub open spec fn position(b: Seq<u8>, offset: int) -> (int, int) {
    let o = if offset < b.len() { offset } else { b.len() as int };
    let before = b.take(o);
    (newlines(before) as int + 1, o - line_start(before) + 1)
}

/// `offset` falls between two characters of `s`, or past its end.
pub open spec fn on_boundary(s: Seq<char>, offset: int) -> bool {
    offset >= byte_len(s) || exists|k: int| 0 <= k <= s.len() && byte_offset(s, k) == offset
}

proof fn lemma_line_start_bound(b: Seq<u8>)
    ensures
        0 <= line_start(b) <= b.len(),
        newlines(b) <= b.len(),
    decreases b.len(),
{
    if b.len() > 0 {
        lemma_line_start_bound(b.drop_last());
    }
}

/// Converts a byte offset of `source` into the 1-based `(line, column)`
/// pair of [`ParseError`]; an offset past the end stands for the end.
pub fn pos_for_offset(source: &str, offset: usize) -> (r: (isize, isize))
    requires
        on_boundary(source@, offset as int),
        byte_len(source@) < isize::MAX,
    ensures
        r.0 == position(vstd::utf8::encode_utf8(source@), offset as int).0,
        r.1 == position(vstd::utf8::encode_utf8(source@), offset as int).1,
{
    let b = source.as_bytes();
    assert(b@ == vstd::utf8::encode_utf8(source@));
    let n = b.len();
    let o = if offset < n { offset } else { n };
    let mut line: usize = 1;
    let mut ls: usize = 0;
    let mut i: usize = 0;
    assert(b@.take(0) =~= Seq::<u8>::empty());
    while i < o
        invariant
            i <= o <= b@.len(),
            b@.len() < isize::MAX,
            line == newlines(b@.take(i as int)) + 1,
            ls == line_start(b@.take(i as int)),
            ls <= i,
            line <= i + 1,
        decreases o - i,
    {
        assert(b@.take(i + 1).drop_last() =~= b@.take(i as int));
        if b[i] == 10 {
            line += 1;
            ls = i + 1;
        }
        i += 1;
    }
    proof {
        lemma_line_start_bound(b@.take(o as int));
    }
    (line as isize, (o - ls + 1) as isize)
}

// ---------------------------------------------------------------------------
// Words and operators
// ---------------------------------------------------------------------------

/// Whether `a[from..to]` spells `lit`.
fn chars_eq(a: &[char], from: usize, to: usize, lit: &str) -> (r: bool)
    requires
        from <= to <= a@.len(),
    ensures
        r == (a@.subrange(from as int, to as int) == lit@),
{
    let l = chars_of(lit);
    if to - from != l.len() {
        return false;
    }
    let mut k: usize = 0;
    while k < l.len()
        invariant
            from <= to <= a@.len(),
            to - from == l@.len(),
            k <= l@.len(),
            l@ == lit@,
            forall|j: int| 0 <= j < k ==> a@[from + j] == l@[j],
        decreases l@.len() - k,
    {
        if a[from + k] != l[k] {
            assert(a@.subrange(from as int, to as int)[k as int] != lit@[k as int]);
            return false;
        }
        k += 1;
    }
    assert(a@.subrange(from as int, to as int) =~= lit@);
    true
}

/// Words that lex as identifiers but may not be used as identifiers or
/// function names.
pub open spec fn reserved(w: Seq<char>) -> bool {
    w == "as"@ || w == "break"@ || w == "const"@ || w == "continue"@ || w == "else"@
        || w == "for"@ || w == "function"@ || w == "if"@ || w == "import"@ || w == "let"@
        || w == "loop"@ || w == "package"@ || w == "namespace"@ || w == "return"@
        || w == "var"@ || w == "void"@ || w == "while"@
}

/// Whether `a[from..to]` is a reserved word.
fn is_reserved_id(a: &[char], from: usize, to: usize) -> (r: bool)
    requires
        from <= to <= a@.len(),
    ensures
        r == reserved(a@.subrange(from as int, to as int)),
{
    chars_eq(a, from, to, "as") || chars_eq(a, from, to, "break") || chars_eq(a, from, to, "const")
        || chars_eq(a, from, to, "continue") || chars_eq(a, from, to, "else")
        || chars_eq(a, from, to, "for") || chars_eq(a, from, to, "function")
        || chars_eq(a, from, to, "if") || chars_eq(a, from, to, "import")
        || chars_eq(a, from, to, "let") || chars_eq(a, from, to, "loop")
        || chars_eq(a, from, to, "package") || chars_eq(a, from, to, "namespace")
        || chars_eq(a, from, to, "return") || chars_eq(a, from, to, "var")
        || chars_eq(a, from, to, "void") || chars_eq(a, from, to, "while")
}

/// How a token kind is named in `expecting …` messages.
pub open spec fn kind_name(k: TokenKind) -> Seq<char> {
    match k {
        TokenKind::Int => "int"@,
        TokenKind::Uint => "uint"@,
        TokenKind::Float => "float"@,
        TokenKind::String => "string"@,
        TokenKind::Bytes => "bytes"@,
        TokenKind::Ident => "identifier"@,
        TokenKind::EscIdent => "identifier"@,
        TokenKind::True => "'true'"@,
        TokenKind::False => "'false'"@,
        TokenKind::Null => "'null'"@,
        TokenKind::In => "'in'"@,
        TokenKind::LParen => "'('"@,
        TokenKind::RParen => "')'"@,
        TokenKind::LBracket => "'['"@,
        TokenKind::RBracket => "']'"@,
        TokenKind::LBrace => "'{'"@,
        TokenKind::RBrace => "'}'"@,
        TokenKind::Dot => "'.'"@,
        TokenKind::Comma => "','"@,
        TokenKind::Question => "'?'"@,
        TokenKind::Colon => "':'"@,
        TokenKind::Minus => "'-'"@,
        TokenKind::Plus => "'+'"@,
        TokenKind::Star => "'*'"@,
        TokenKind::Slash => "'/'"@,
        TokenKind::Percent => "'%'"@,
        TokenKind::Exclam => "'!'"@,
        TokenKind::EqEq => "'=='"@,
        TokenKind::NotEq => "'!='"@,
        TokenKind::Less => "'<'"@,
        TokenKind::LessEq => "'<='"@,
        TokenKind::Greater => "'>'"@,
        TokenKind::GreaterEq => "'>='"@,
        TokenKind::And => "'&&'"@,
        TokenKind::Or => "'||'"@,
        TokenKind::Error => "error"@,
        TokenKind::Eof => "<EOF>"@,
    }
}

/// The name of a token kind in `expecting …` messages.
pub fn kind_text(k: TokenKind) -> (s: &'static str)
    ensures
        s@ == kind_name(k),
{
    match k {
        TokenKind::Int => "int",
        TokenKind::Uint => "uint",
        TokenKind::Float => "float",
        TokenKind::String => "string",
        TokenKind::Bytes => "bytes",
        TokenKind::Ident => "identifier",
        TokenKind::EscIdent => "identifier",
        TokenKind::True => "'true'",
        TokenKind::False => "'false'",
        TokenKind::Null => "'null'",
        TokenKind::In => "'in'",
        TokenKind::LParen => "'('",
        TokenKind::RParen => "')'",
        TokenKind::LBracket => "'['",
        TokenKind::RBracket => "']'",
        TokenKind::LBrace => "'{'",
        TokenKind::RBrace => "'}'",
        TokenKind::Dot => "'.'",
        TokenKind::Comma => "','",
        TokenKind::Question => "'?'",
        TokenKind::Colon => "':'",
        TokenKind::Minus => "'-'",
        TokenKind::Plus => "'+'",
        TokenKind::Star => "'*'",
        TokenKind::Slash => "'/'",
        TokenKind::Percent => "'%'",
        TokenKind::Exclam => "'!'",
        TokenKind::EqEq => "'=='",
        TokenKind::NotEq => "'!='",
        TokenKind::Less => "'<'",
        TokenKind::LessEq => "'<='",
        TokenKind::Greater => "'>'",
        TokenKind::GreaterEq => "'>='",
        TokenKind::And => "'&&'",
        TokenKind::Or => "'||'",
        TokenKind::Error => "error",
        TokenKind::Eof => "<EOF>",
    }
}

/// The precedence and function name of a binary operator token, from `||`
/// (1) up to the multiplicative operators (5).
pub open spec fn binary_op_spec(k: TokenKind) -> Option<(u8, Seq<char>)> {
    match k {
        TokenKind::Or => Some((1, "_||_"@)),
        TokenKind::And => Some((2, "_&&_"@)),
        TokenKind::Less => Some((3, "_<_"@)),
        TokenKind::LessEq => Some((3, "_<=_"@)),
        TokenKind::GreaterEq => Some((3, "_>=_"@)),
        TokenKind::Greater => Some((3, "_>_"@)),
        TokenKind::EqEq => Some((3, "_==_"@)),
        TokenKind::NotEq => Some((3, "_!=_"@)),
        TokenKind::In => Some((3, "@in"@)),
        TokenKind::Plus => Some((4, "_+_"@)),
        TokenKind::Minus => Some((4, "_-_"@)),
        TokenKind::Star => Some((5, "_*_"@)),
        TokenKind::Slash => Some((5, "_/_"@)),
        TokenKind::Percent => Some((5, "_%_"@)),
        _ => None,
    }
}

/// No binary operator is an operator of the optional syntax.
proof fn lemma_binary_names(k: TokenKind)
    ensures
        binary_op_spec(k) matches Some((p, f)) ==> !optional_func(f),
{
    lemma_operator_names();
}

fn binary_op(k: TokenKind) -> (r: Option<(u8, &'static str)>)
    ensures
        match binary_op_spec(k) {
            Some((p, f)) => r matches Some((q, g)) && q == p && g@ == f,
            None => r is None,
        },
{
    match k {
        TokenKind::Or => Some((1, "_||_")),
        TokenKind::And => Some((2, "_&&_")),
        TokenKind::Less => Some((3, "_<_")),
        TokenKind::LessEq => Some((3, "_<=_")),
        TokenKind::GreaterEq => Some((3, "_>=_")),
        TokenKind::Greater => Some((3, "_>_")),
        TokenKind::EqEq => Some((3, "_==_")),
        TokenKind::NotEq => Some((3, "_!=_")),
        TokenKind::In => Some((3, "@in")),
        TokenKind::Plus => Some((4, "_+_")),
        TokenKind::Minus => Some((4, "_-_")),
        TokenKind::Star => Some((5, "_*_")),
        TokenKind::Slash => Some((5, "_/_")),
        TokenKind::Percent => Some((5, "_%_")),
        _ => None,
    }
}

/// Tokens the parser re-synchronises on after an error.
pub open spec fn sync_kind(k: TokenKind) -> bool {
    k == TokenKind::Comma || k == TokenKind::RParen || k == TokenKind::RBracket
        || k == TokenKind::RBrace || k == TokenKind::Eof
}

fn is_sync(k: TokenKind) -> (r: bool)
    ensures
        r == sync_kind(k),
{
    k == TokenKind::Comma || k == TokenKind::RParen || k == TokenKind::RBracket
        || k == TokenKind::RBrace || k == TokenKind::Eof
}

// ---------------------------------------------------------------------------
// State
// ---------------------------------------------------------------------------

/// Why a rule failed.
pub enum PErr {
    /// A `mismatched input … expecting …` syntax error at `tok`, to be
    /// recorded by the recovery point that catches it.
    Syntax { tok: Token, expecting: &'static str },
    /// A limit was exceeded and recorded: every rule unwinds.
    Abort,
}

/// The parser's state: the source, its characters and the byte offset of
/// each character position, the options, the ids and their spans handed out
/// so far, the errors found so far, and the one token of lookahead, with,
/// as ghost state, where the lexer found it and the lexer steps before it.
/// Token spans are character positions.
struct State<'a> {
    source: &'a str,
    src: Vec<char>,
    offs: Vec<usize>,
    options: WinnowParser,
    next_id: u64,
    offsets: Vec<Option<OffsetRange>>,
    starts: Vec<usize>,
    errors: Vec<ParseError>,
    peek: Token,
    lexpos: Ghost<int>,
    done: Ghost<Seq<Step>>,
    depth: u32,
    recoveries: u64,
    aborted: bool,
}

/// The largest number of characters a source may have: four ids at most are
/// handed out per character, and ids are `u64`.
pub open spec fn max_chars() -> int {
    0x1000_0000_0000_0000
}

spec fn wf(st: State) -> bool {
    &&& wf_base(st)
    &&& (st.peek.kind == TokenKind::Error ==> st.errors@.len() > 0)
    &&& peek_reported(st.src@, st.done@, st.lexpos@, st.errors@, st.aborted)
}

/// The state invariant, but for the report of an error token just lexed.
spec fn wf_base(st: State) -> bool {
    &&& st.src@ == st.source@
    &&& st.offs@.len() == st.src@.len() + 1
    &&& forall|k: int| 0 <= k <= st.src@.len() ==> #[trigger] st.offs@[k] == byte_offset(st.src@, k)
    &&& byte_len(st.src@) < isize::MAX
    &&& st.src@.len() < max_chars()
    &&& st.peek.start <= st.peek.end <= st.src@.len()
    &&& (st.peek.kind == TokenKind::Eof <==> st.peek.start == st.src@.len())
    &&& (st.peek.kind == TokenKind::Eof ==> st.peek.end == st.peek.start)
    &&& (st.peek.kind != TokenKind::Eof ==> st.peek.start < st.peek.end)
    &&& (st.peek.kind == TokenKind::EscIdent ==> st.peek.end >= st.peek.start + 3)
    &&& st.depth <= st.options.max_recursion_depth + 1
    &&& (!st.aborted ==> st.recoveries <= st.options.error_recovery_limit)
    &&& st.recoveries <= st.options.error_recovery_limit + 1
    &&& 1 <= st.next_id
    &&& st.offsets@.len() + 1 == st.next_id
    &&& st.starts@.len() == st.offsets@.len()
    &&& forall|k: int| 0 <= k < st.starts@.len() ==> #[trigger] st.starts@[k] <= st.src@.len()
    &&& st.next_id <= 4 * st.peek.start + 1
    &&& sorted_by_pos(st.errors@)
    &&& (st.aborted ==> st.errors@.len() > 0)
    &&& lex_inv(st.src@, st.lexpos@, st.peek, st.errors@.len() > 0)
    &&& lex_record(st.src@, st.done@, st.lexpos@, st.errors@, st.aborted)
    &&& one_limit(st.errors@, st.aborted)
    &&& limit_messages(st.errors@, st.options)
}

/// The lookahead is the token the lexer finds from `lexpos` on, and, until
/// an error is `reported`, no lexer step of `src` before it failed.
#[verifier::opaque]
spec fn lex_inv(src: Seq<char>, lexpos: int, peek: Token, reported: bool) -> bool {
    let step = next_token(src, lexpos);
    &&& 0 <= lexpos <= peek.start
    &&& peek.kind == step.kind && peek.start == step.start && peek.end == step.end
    &&& (step.failure is Some <==> peek.kind == TokenKind::Error)
    &&& (!reported ==> step_errors(lex_steps(src, 0)) == step_errors(lex_steps(src, lexpos)))
}

/// The lexer failure `x`, at character position `x.0`, is among `errors`,
/// at its line and column and with its message.
pub open spec fn lex_error_reported(src: Seq<char>, errors: Seq<ParseError>, x: (int, LexFailure)) -> bool {
    exists|i: int|
        0 <= i < errors.len() && (#[trigger] errors[i]).msg@ == failure_text(x.1)
            && errors[i].pos.0 == position(encode_utf8(src), byte_offset(src, x.0)).0
            && errors[i].pos.1 == position(encode_utf8(src), byte_offset(src, x.0)).1
}

/// Every lexer failure of `fails` is among `errors`.
#[verifier::opaque]
pub open spec fn lex_errors_reported(src: Seq<char>, fails: Seq<(int, LexFailure)>, errors: Seq<ParseError>) -> bool {
    forall|k: int| 0 <= k < fails.len() ==> lex_error_reported(src, errors, #[trigger] fails[k])
}

/// A limit stopped the parse: its error, which has no place in the source,
/// is among `errors`.
#[verifier::opaque]
pub open spec fn stopped_by_limit(errors: Seq<ParseError>) -> bool {
    exists|i: int| 0 <= i < errors.len() && (#[trigger] errors[i]).pos == (0isize, 0isize)
}

/// How many of `errors` have no place in the source: the errors of the
/// limits that stopped the parse.
pub open spec fn limit_errors(errors: Seq<ParseError>) -> nat
    decreases errors.len(),
{
    if errors.len() == 0 {
        0
    } else {
        limit_errors(errors.drop_last()) + if errors.last().pos == (0isize, 0isize) { 1nat } else { 0nat }
    }
}

/// The message with which the limit of `options` on nesting, or on error
/// recoveries, stops a parse.
pub open spec fn limit_message(msg: Seq<char>, options: WinnowParser) -> bool {
    ||| msg == "expression recursion limit exceeded: "@ + decimal(options.max_depth() as nat)
    ||| msg == "error recovery attempt limit exceeded: "@ + decimal(options.recovery_limit() as nat)
}

/// Every error of `errors` without a place in the source carries the
/// message of one of the limits of `options`.
#[verifier::opaque]
pub open spec fn limit_messages(errors: Seq<ParseError>, options: WinnowParser) -> bool {
    forall|i: int| 0 <= i < errors.len() && (#[trigger] errors[i]).pos == (0isize, 0isize)
        ==> limit_message(errors[i].msg@, options)
}

proof fn lemma_limit_messages_insert(errors: Seq<ParseError>, k: int, e: ParseError, options: WinnowParser)
    requires
        limit_messages(errors, options),
        0 <= k <= errors.len(),
        e.pos == (0isize, 0isize) ==> limit_message(e.msg@, options),
    ensures
        limit_messages(errors.insert(k, e), options),
{
    reveal(limit_messages);
    let n = errors.insert(k, e);
    assert forall|i: int| 0 <= i < n.len() && (#[trigger] n[i]).pos == (0isize, 0isize)
        implies limit_message(n[i].msg@, options) by {
        if i < k {
            assert(n[i] == errors[i]);
        } else if i > k {
            assert(n[i] == errors[i - 1]);
        }
    }
}

/// One limit error once the parse was stopped, none before.
#[verifier::opaque]
spec fn one_limit(errors: Seq<ParseError>, aborted: bool) -> bool {
    limit_errors(errors) == if aborted { 1nat } else { 0nat }
}

proof fn lemma_limit_errors_insert(errors: Seq<ParseError>, k: int, e: ParseError)
    requires
        0 <= k <= errors.len(),
    ensures
        limit_errors(errors.insert(k, e)) == limit_errors(errors) + if e.pos == (0isize, 0isize) { 1nat } else { 0nat },
    decreases errors.len(),
{
    let n = errors.insert(k, e);
    if k == errors.len() {
        assert(n.drop_last() =~= errors);
        assert(n.last() == e);
    } else {
        lemma_limit_errors_insert(errors.drop_last(), k, e);
        assert(n.drop_last() =~= errors.drop_last().insert(k, e));
        assert(n.last() == errors.last());
    }
}

/// The lexer steps `done` lead from the start of `src` to `lexpos`, and,
/// unless a limit stopped the parse, their failures have been reported.
#[verifier::opaque]
spec fn lex_record(src: Seq<char>, done: Seq<Step>, lexpos: int, errors: Seq<ParseError>, aborted: bool) -> bool {
    &&& lex_steps(src, 0) == done + lex_steps(src, lexpos)
    &&& (aborted ==> stopped_by_limit(errors))
    &&& (!aborted ==> lex_errors_reported(src, step_errors(done), errors))
}

/// Unless a limit stopped the parse, the failure of the step at `lexpos`,
/// the lookahead, has been reported too.
#[verifier::opaque]
spec fn peek_reported(src: Seq<char>, done: Seq<Step>, lexpos: int, errors: Seq<ParseError>, aborted: bool) -> bool {
    !aborted ==> lex_errors_reported(src, step_errors(done.push(next_token(src, lexpos))), errors)
}

proof fn lemma_reports_kept(src: Seq<char>, fails: Seq<(int, LexFailure)>, errors: Seq<ParseError>, k: int, e: ParseError)
    requires
        lex_errors_reported(src, fails, errors),
        0 <= k <= errors.len(),
    ensures
        lex_errors_reported(src, fails, errors.insert(k, e)),
{
    reveal(lex_errors_reported);
    let n = errors.insert(k, e);
    assert forall|j: int| 0 <= j < fails.len() implies lex_error_reported(src, n, #[trigger] fails[j]) by {
        assert(lex_error_reported(src, errors, fails[j]));
        let i = choose|i: int|
            0 <= i < errors.len() && (#[trigger] errors[i]).msg@ == failure_text(fails[j].1)
                && errors[i].pos.0 == position(encode_utf8(src), byte_offset(src, fails[j].0)).0
                && errors[i].pos.1 == position(encode_utf8(src), byte_offset(src, fails[j].0)).1;
        if i < k {
            assert(n[i] == errors[i]);
        } else {
            assert(n[i + 1] == errors[i]);
        }
    }
}

proof fn lemma_limit_kept(errors: Seq<ParseError>, k: int, e: ParseError)
    requires
        stopped_by_limit(errors) || e.pos == (0isize, 0isize),
        0 <= k <= errors.len(),
    ensures
        stopped_by_limit(errors.insert(k, e)),
{
    reveal(stopped_by_limit);
    let n = errors.insert(k, e);
    if e.pos == (0isize, 0isize) {
        assert(n[k] == e);
    } else {
        let i = choose|i: int| 0 <= i < errors.len() && (#[trigger] errors[i]).pos == (0isize, 0isize);
        if i < k {
            assert(n[i] == errors[i]);
        } else {
            assert(n[i + 1] == errors[i]);
        }
    }
}

/// Inserting an error keeps what was reported; an error that has no place
/// in the source, inserted as the parse stops, reports the limit.
proof fn lemma_records_kept(src: Seq<char>, done: Seq<Step>, lexpos: int, errors: Seq<ParseError>, aborted: bool, k: int, e: ParseError, now_aborted: bool)
    requires
        lex_record(src, done, lexpos, errors, aborted),
        0 <= k <= errors.len(),
        aborted ==> now_aborted,
        now_aborted && !aborted ==> e.pos == (0isize, 0isize),
    ensures
        lex_record(src, done, lexpos, errors.insert(k, e), now_aborted),
        peek_reported(src, done, lexpos, errors, aborted) ==> peek_reported(src, done, lexpos, errors.insert(k, e), now_aborted),
{
    reveal(lex_record);
    reveal(peek_reported);
    if now_aborted {
        lemma_limit_kept(errors, k, e);
    } else {
        lemma_reports_kept(src, step_errors(done), errors, k, e);
        if peek_reported(src, done, lexpos, errors, aborted) {
            lemma_reports_kept(src, step_errors(done.push(next_token(src, lexpos))), errors, k, e);
        }
    }
}

proof fn lemma_lex_inv_reported(src: Seq<char>, lexpos: int, peek: Token)
    requires
        lex_inv(src, lexpos, peek, false),
    ensures
        lex_inv(src, lexpos, peek, true),
{
    reveal(lex_inv);
}

/// What every step of the parser keeps: the source, the options and the
/// depth; the lookahead only moves forward, errors and ids only grow, and
/// at most four ids are handed out per character consumed, `credit` more
/// when the caller has consumed the characters already.
spec fn steps(o: State, n: State, credit: int) -> bool {
    &&& n.source == o.source
    &&& n.src@ == o.src@
    &&& n.offs@ == o.offs@
    &&& n.options == o.options
    &&& n.depth == o.depth
    &&& o.peek.start <= n.peek.start
    &&& o.next_id <= n.next_id
    &&& n.next_id <= o.next_id + 4 * (n.peek.start - o.peek.start) + credit
    &&& (o.aborted ==> n.aborted)
    &&& grows(o, n)
}

/// Ids, errors and recorded spans only grow.
spec fn grows(o: State, n: State) -> bool {
    &&& o.next_id <= n.next_id
    &&& o.errors@.len() <= n.errors@.len()
    &&& o.offsets@.len() <= n.offsets@.len()
    &&& forall|k: int| 0 <= k < o.offsets@.len() && (#[trigger] o.offsets@[k]) is Some ==> n.offsets@[k] is Some
}

// ---------------------------------------------------------------------------
// Ids
// ---------------------------------------------------------------------------

/// Every id of `m` but 0 occurs once and lies in `lo..hi`.
pub open spec fn fresh(m: Multiset<u64>, lo: int, hi: int) -> bool {
    forall|x: u64| #[trigger] m.count(x) > 0 ==> x == 0 || (lo <= x < hi && m.count(x) == 1)
}

/// Every id of `m` but 0 has its span recorded, and 0, the id of a
/// placeholder, occurs only once an error has been reported.
spec fn recorded(m: Multiset<u64>, st: State) -> bool {
    &&& (m.count(0) > 0 ==> st.errors@.len() > 0)
    &&& forall|x: u64| #[trigger] m.count(x) > 0 && x != 0 ==> 1 <= x <= st.offsets@.len() && st.offsets@[x - 1] is Some
}

/// The ids `m` of what was parsed from state `o` to state `n` were handed
/// out in between, once each, with their spans.
spec fn tree_ok(m: Multiset<u64>, o: State, n: State) -> bool {
    &&& fresh(m, o.next_id as int, n.next_id as int)
    &&& recorded(m, n)
}

proof fn lemma_fresh_join(m1: Multiset<u64>, m2: Multiset<u64>, l1: int, h1: int, l2: int, h2: int)
    requires
        fresh(m1, l1, h1),
        fresh(m2, l2, h2),
        l1 <= h1 <= l2 <= h2,
    ensures
        fresh(m1.add(m2), l1, h2),
{
    broadcast use vstd::multiset::group_multiset_axioms;
    assert forall|x: u64| #[trigger] m1.add(m2).count(x) > 0 implies x == 0 || (l1 <= x < h2 && m1.add(m2).count(x) == 1) by {
        if m1.count(x) > 0 && x != 0 {
            assert(l1 <= x < h1);
        }
        if m2.count(x) > 0 && x != 0 {
            assert(l2 <= x < h2);
        }
    }
}

proof fn lemma_recorded_join(m1: Multiset<u64>, m2: Multiset<u64>, st: State)
    requires
        recorded(m1, st),
        recorded(m2, st),
    ensures
        recorded(m1.add(m2), st),
{
    broadcast use vstd::multiset::group_multiset_axioms;
    assert forall|x: u64| #[trigger] m1.add(m2).count(x) > 0 && x != 0 implies 1 <= x <= st.offsets@.len() && st.offsets@[x - 1] is Some by {
        if m1.count(x) > 0 {
        } else {
            assert(m2.count(x) > 0);
        }
    }
}

proof fn lemma_recorded_later(m: Multiset<u64>, a: State, b: State)
    requires
        recorded(m, a),
        grows(a, b),
    ensures
        recorded(m, b),
{
    assert forall|x: u64| #[trigger] m.count(x) > 0 && x != 0 implies 1 <= x <= b.offsets@.len() && b.offsets@[x - 1] is Some by {
        assert(a.offsets@[x - 1] is Some);
    }
}

/// What was parsed from `a` to `b`, followed by what was parsed from `c`
/// to `d`, with no ids handed out in between.
proof fn lemma_tree_seq(m1: Multiset<u64>, m2: Multiset<u64>, a: State, b: State, c: State, d: State)
    requires
        tree_ok(m1, a, b),
        tree_ok(m2, c, d),
        a.next_id <= b.next_id <= c.next_id <= d.next_id,
        grows(b, d),
    ensures
        tree_ok(m1.add(m2), a, d),
{
    lemma_fresh_join(m1, m2, a.next_id as int, b.next_id as int, c.next_id as int, d.next_id as int);
    lemma_recorded_later(m1, b, d);
    lemma_recorded_join(m1, m2, d);
}

/// What was parsed from `a` to `b` seen from wider states.
proof fn lemma_tree_widen(m: Multiset<u64>, a: State, b: State, a2: State, b2: State)
    requires
        tree_ok(m, a, b),
        a2.next_id <= a.next_id,
        grows(b, b2),
    ensures
        tree_ok(m, a2, b2),
{
    lemma_recorded_later(m, b, b2);
}

/// Nothing parsed.
proof fn lemma_tree_empty(a: State, b: State)
    requires
        a.next_id <= b.next_id,
    ensures
        tree_ok(Multiset::empty(), a, b),
{
    broadcast use vstd::multiset::group_multiset_axioms;
}

/// The placeholder that stands for what did not parse.
proof fn lemma_tree_placeholder(e: IdedExpr, a: State, b: State)
    requires
        e.id == 0,
        e.expr is Unspecified,
        a.next_id <= b.next_id,
        b.errors@.len() > 0,
    ensures
        tree_ok(ids_m(e), a, b),
{
    broadcast use vstd::multiset::group_multiset_axioms;
    lemma_ids_m(e);
}

/// One id, just handed out from `a`, with its span.
proof fn lemma_tree_single(id: u64, a: State, b: State)
    requires
        id == a.next_id,
        b.next_id == a.next_id + 1,
        1 <= id <= b.offsets@.len(),
        b.offsets@[id - 1] is Some,
    ensures
        tree_ok(Multiset::singleton(id), a, b),
{
    broadcast use vstd::multiset::group_multiset_axioms;
}

/// A syntax error names a token of the source.
spec fn err_ok<T>(r: Result<T, PErr>, st: State) -> bool {
    &&& (r matches Err(PErr::Syntax { tok, .. }) ==> tok.start <= tok.end <= st.src@.len()
        && (tok.kind == TokenKind::Error ==> st.errors@.len() > 0))
    &&& (r matches Err(PErr::Abort) ==> st.aborted)
}

/// Where the optional syntax is off, `e` is written without it.
spec fn plain_ok(st: State, e: IdedExpr) -> bool {
    !st.options.enable_optional_syntax ==> plain(e)
}

/// Where the optional syntax is off, the expressions of `s` are written
/// without it.
spec fn plain_all(st: State, s: Seq<IdedExpr>) -> bool {
    !st.options.enable_optional_syntax ==> plain_list(s)
}

/// Until an error is recorded, `e` holds no placeholder.
spec fn done_ok(st: State, e: IdedExpr) -> bool {
    st.errors@.len() == 0 ==> complete(e)
}

/// Until an error is recorded, the expressions of `s` hold no placeholder.
spec fn done_all(st: State, s: Seq<IdedExpr>) -> bool {
    st.errors@.len() == 0 ==> complete_list(s)
}

/// `e` applies one or more selections, indexings, calls or comprehensions,
/// in turn, to `x`: `x` is the operand, target, first argument or range at
/// the bottom of `e`.
spec fn applied_to(e: IdedExpr, x: IdedExpr) -> bool
    decreases e,
{
    match e.expr {
        Expr::Select(s) => *s.operand == x || applied_to(*s.operand, x),
        Expr::Call(c) => match c.target {
            Some(t) => *t == x || applied_to(*t, x),
            None => c.args@.len() > 0 && (c.args@[0] == x || {
                proof {
                    assert(decreases_to!(e => c.args@[0]));
                }
                applied_to(c.args@[0], x)
            }),
        },
        Expr::Comprehension(c) => c.iter_range == x || applied_to(c.iter_range, x),
        _ => false,
    }
}

/// Applying to what is applied to `x` applies to `x`.
proof fn lemma_applied_trans(e: IdedExpr, y: IdedExpr, x: IdedExpr)
    requires
        applied_to(e, y),
        applied_to(y, x),
    ensures
        applied_to(e, x),
    decreases e,
{
    match e.expr {
        Expr::Select(s) => {
            if *s.operand != y {
                lemma_applied_trans(*s.operand, y, x);
            }
        },
        Expr::Call(c) => match c.target {
            Some(t) => {
                if *t != y {
                    lemma_applied_trans(*t, y, x);
                }
            },
            None => {
                if c.args@[0] != y {
                    assert(decreases_to!(e => c.args@[0]));
                    lemma_applied_trans(c.args@[0], y, x);
                }
            },
        },
        Expr::Comprehension(c) => {
            if c.iter_range != y {
                lemma_applied_trans(c.iter_range, y, x);
            }
        },
        _ => {},
    }
}

/// Neither the escape syntax is on nor an error recorded.
spec fn unescaped(st: State) -> bool {
    !st.options.enable_ident_escape_syntax && st.errors@.len() == 0
}

/// Where [`unescaped`], the fields `e` names are identifiers.
spec fn fields_ok(st: State, e: IdedExpr) -> bool {
    unescaped(st) ==> ident_fields(e)
}

/// Where [`unescaped`], the fields the expressions of `s` name are
/// identifiers.
spec fn fields_all(st: State, s: Seq<IdedExpr>) -> bool {
    unescaped(st) ==> ident_fields_list(s)
}

/// The text of a nonempty identifier token is an identifier.
proof fn lemma_ident_token_name(src: Seq<char>, t: Token)
    requires
        ident_chars(src, t),
        t.start < t.end <= src.len(),
    ensures
        ident_name(src.subrange(t.start as int, t.end as int)),
{
    let n = src.subrange(t.start as int, t.end as int);
    assert forall|k: int| 0 <= k < n.len() implies ('a' <= #[trigger] n[k] <= 'z') || ('A' <= n[k] <= 'Z')
        || ('0' <= n[k] <= '9') || n[k] == '_' by {
        assert(n[k] == src[t.start + k]);
        assert(is_ident_char(src[t.start + k]));
    }
}

/// The characters of the token `t` are identifier characters.
spec fn ident_chars(src: Seq<char>, t: Token) -> bool {
    forall|k: int| t.start <= k < t.end ==> is_ident_char(#[trigger] src[k])
}

/// A name made of an identifier token, perhaps after a dot, is no operator
/// of the optional syntax.
proof fn lemma_ident_name(src: Seq<char>, leading_dot: bool, t: Token)
    requires
        ident_chars(src, t),
        t.start <= t.end <= src.len(),
    ensures
        !optional_func((if leading_dot { seq!['.'] } else { seq![] }) + src.subrange(t.start as int, t.end as int)),
{
    let name = (if leading_dot { seq!['.'] } else { seq![] }) + src.subrange(t.start as int, t.end as int);
    let d: int = if leading_dot { 1 } else { 0 };
    assert forall|k: int| 0 <= k < name.len() implies ('a' <= #[trigger] name[k] <= 'z') || ('A' <= name[k] <= 'Z')
        || ('0' <= name[k] <= '9') || name[k] == '_' || name[k] == '.' by {
        if k >= d {
            assert(name[k] == src[t.start + k - d]);
            assert(is_ident_char(src[t.start + k - d]));
        }
    }
    lemma_name_not_optional(name);
}

/// The text of a token.
fn text(st: &State, tok: Token) -> (s: String)
    requires
        wf(*st),
        tok.start <= tok.end <= st.src@.len(),
    ensures
        s@ == st.src@.subrange(tok.start as int, tok.end as int),
{
    string_from(st.src.as_slice(), tok.start, tok.end)
}

/// Records `msg` at character position `at`, keeping the errors ordered.
fn push_error(st: &mut State, at: usize, msg: String)
    requires
        wf_base(*old(st)),
        at <= old(st).src@.len(),
    ensures
        final(st).lexpos == old(st).lexpos,
        final(st).done == old(st).done,
        wf_base(*final(st)),
        wf(*old(st)) ==> wf(*final(st)),
        steps(*old(st), *final(st), 0),
        final(st).peek == old(st).peek,
        final(st).next_id == old(st).next_id,
        final(st).aborted == old(st).aborted,
        final(st).recoveries == old(st).recoveries,
        final(st).errors@.len() == old(st).errors@.len() + 1,
        exists|i: int| 0 <= i < final(st).errors@.len() && (#[trigger] final(st).errors@[i]).msg == msg
            && final(st).errors@[i].pos.0 == position(encode_utf8(final(st).src@), byte_offset(final(st).src@, at as int)).0
            && final(st).errors@[i].pos.1 == position(encode_utf8(final(st).src@), byte_offset(final(st).src@, at as int)).1,
{
    let offset = st.offs[at];
    assert(st.offs@[at as int] == byte_offset(st.src@, at as int));
    let pos = pos_for_offset(st.source, offset);
    let ghost e = ParseError { pos, msg, expr_id: 0 };
    insert_by_pos(&mut st.errors, ParseError { pos, msg, expr_id: 0 });
    proof {
        if old(st).errors@.len() == 0 {
            lemma_lex_inv_reported(st.src@, st.lexpos@, st.peek);
        }
        let k = choose|k: int| 0 <= k <= old(st).errors@.len() && st.errors@ == old(st).errors@.insert(k, e);
        lemma_records_kept(st.src@, st.done@, st.lexpos@, old(st).errors@, st.aborted, k, e, st.aborted);
        assert(st.errors@[k] == e);
        reveal(one_limit);
        lemma_limit_errors_insert(old(st).errors@, k, e);
        lemma_limit_messages_insert(old(st).errors@, k, e, st.options);
    }
}

/// Records `msg` as a limit exceeded and flags the parse as aborted.
fn abort(st: &mut State, msg: String) -> (e: PErr)
    requires
        wf(*old(st)),
        !old(st).aborted,
        limit_message(msg@, old(st).options),
    ensures
        final(st).lexpos == old(st).lexpos,
        final(st).done == old(st).done,
        wf(*final(st)),
        steps(*old(st), *final(st), 0),
        final(st).peek == old(st).peek,
        final(st).next_id == old(st).next_id,
        final(st).aborted,
        final(st).recoveries == old(st).recoveries,
        final(st).errors@.len() == old(st).errors@.len() + 1,
        e is Abort,
{
    st.aborted = true;
    let ghost e = ParseError { pos: (0, 0), msg, expr_id: 0 };
    insert_by_pos(&mut st.errors, ParseError { pos: (0, 0), msg, expr_id: 0 });
    proof {
        if old(st).errors@.len() == 0 {
            lemma_lex_inv_reported(st.src@, st.lexpos@, st.peek);
        }
        let k = choose|k: int| 0 <= k <= old(st).errors@.len() && st.errors@ == old(st).errors@.insert(k, e);
        lemma_records_kept(st.src@, st.done@, st.lexpos@, old(st).errors@, old(st).aborted, k, e, true);
        reveal(one_limit);
        lemma_limit_errors_insert(old(st).errors@, k, e);
        lemma_limit_messages_insert(old(st).errors@, k, e, st.options);
    }
    PErr::Abort
}

/// Counts a recovery; past the limit, the parse is aborted.
fn count_recovery(st: &mut State) -> (r: Result<(), PErr>)
    requires
        wf(*old(st)),
    ensures
        final(st).lexpos == old(st).lexpos,
        final(st).done == old(st).done,
        wf(*final(st)),
        steps(*old(st), *final(st), 0),
        final(st).peek == old(st).peek,
        final(st).next_id == old(st).next_id,
        r is Err ==> r->Err_0 is Abort && final(st).aborted,
        r is Ok ==> !final(st).aborted && final(st).errors == old(st).errors,
{
    if st.aborted {
        return Err(PErr::Abort);
    }
    if st.recoveries >= st.options.error_recovery_limit as u64 {
        let mut msg = String::new();
        push_str(&mut msg, "error recovery attempt limit exceeded: ");
        push_decimal(&mut msg, st.options.error_recovery_limit as u64);
        assert(msg@ =~= "error recovery attempt limit exceeded: "@ + decimal(st.options.recovery_limit() as nat));
        let e = abort(st, msg);
        st.recoveries = st.recoveries + 1;
        Err(e)
    } else {
        st.recoveries = st.recoveries + 1;
        Ok(())
    }
}

/// Reports a lexer error at character position `at`; it counts as a
/// recovery.
fn lex_error(st: &mut State, at: usize, f: LexFailure)
    requires
        wf(*old(st)),
        at <= old(st).src@.len(),
    ensures
        final(st).lexpos == old(st).lexpos,
        final(st).done == old(st).done,
        wf(*final(st)),
        steps(*old(st), *final(st), 0),
        final(st).peek == old(st).peek,
        final(st).next_id == old(st).next_id,
        final(st).errors@.len() > 0,
        !final(st).aborted ==> lex_error_reported(final(st).src@, final(st).errors@, (at as int, f)),
{
    if st.aborted {
        return;
    }
    let msg = crate::text::to_string(f.message());
    push_error(st, at, msg);
    let ghost mid = st.errors@;
    let _ = count_recovery(st);
    proof {
        if !st.aborted {
            let i = choose|i: int| 0 <= i < mid.len() && (#[trigger] mid[i]).msg == msg
                && mid[i].pos.0 == position(encode_utf8(st.src@), byte_offset(st.src@, at as int)).0
                && mid[i].pos.1 == position(encode_utf8(st.src@), byte_offset(st.src@, at as int)).1;
            assert(st.errors@[i] == mid[i]);
        }
    }
}

/// The text of a token in quotes, `'<EOF>'` at the end of the input.
spec fn quoted(src: Seq<char>, tok: Token) -> Seq<char> {
    if tok.kind == TokenKind::Eof {
        "'<EOF>'"@
    } else {
        seq!['\''] + src.subrange(tok.start as int, tok.end as int) + seq!['\'']
    }
}

/// `Syntax error: mismatched input 'x' expecting y`.
spec fn mismatched_text(src: Seq<char>, tok: Token, expecting: Seq<char>) -> Seq<char> {
    "Syntax error: mismatched input "@ + quoted(src, tok) + " expecting "@ + expecting
}

fn mismatched(st: &State, tok: Token, expecting: &str) -> (s: String)
    requires
        wf(*st),
        tok.start <= tok.end <= st.src@.len(),
    ensures
        s@ == mismatched_text(st.src@, tok, expecting@),
{
    let mut s = String::new();
    push_str(&mut s, "Syntax error: mismatched input ");
    if tok.kind == TokenKind::Eof {
        push_str(&mut s, "'<EOF>'");
    } else {
        push_char(&mut s, '\'');
        push_chars(&mut s, st.src.as_slice(), tok.start, tok.end);
        push_char(&mut s, '\'');
    }
    push_str(&mut s, " expecting ");
    push_str(&mut s, expecting);
    assert(s@ =~= mismatched_text(st.src@, tok, expecting@));
    s
}

/// Reports a `mismatched input … expecting …` error at `tok` and counts
/// the recovery. An error token is not reported again: the lexer did.
fn recover_from(st: &mut State, tok: Token, expecting: &str) -> (r: Result<(), PErr>)
    requires
        wf(*old(st)),
        tok.start <= tok.end <= old(st).src@.len(),
        tok.kind == TokenKind::Error ==> old(st).errors@.len() > 0,
    ensures
        wf(*final(st)),
        steps(*old(st), *final(st), 0),
        final(st).peek == old(st).peek,
        final(st).next_id == old(st).next_id,
        r is Err ==> r->Err_0 is Abort && final(st).aborted,
        r is Ok ==> !final(st).aborted && final(st).errors@.len() > 0,
        !old(st).aborted && tok.kind != TokenKind::Error ==> final(st).errors@.len() > old(st).errors@.len(),
{
    if st.aborted {
        return Err(PErr::Abort);
    }
    if tok.kind != TokenKind::Error {
        let msg = mismatched(st, tok, expecting);
        push_error(st, tok.start, msg);
    }
    count_recovery(st)
}

// ---------------------------------------------------------------------------
// Tokens
// ---------------------------------------------------------------------------

/// Lexes the token after the lookahead, reporting it if it does not lex.
fn lex_next(st: &mut State) -> (t: Token)
    requires
        wf(*old(st)),
    ensures
        final(st).lexpos == old(st).lexpos,
        final(st).done == old(st).done,
        wf(*final(st)),
        steps(*old(st), *final(st), 0),
        final(st).peek == old(st).peek,
        final(st).next_id == old(st).next_id,
        old(st).peek.end <= t.start <= t.end <= final(st).src@.len(),
        t.kind == TokenKind::Eof <==> t.start == final(st).src@.len(),
        t.kind == TokenKind::Eof ==> t.end == t.start,
        t.kind != TokenKind::Eof ==> t.start < t.end,
        t.kind == TokenKind::EscIdent ==> t.end >= t.start + 3,
        t.kind == TokenKind::Error ==> final(st).errors@.len() > 0,
        t.kind == next_token(final(st).src@, old(st).peek.end as int).kind,
        t.start == next_token(final(st).src@, old(st).peek.end as int).start,
        t.end == next_token(final(st).src@, old(st).peek.end as int).end,
        next_token(final(st).src@, old(st).peek.end as int).failure is Some <==> t.kind == TokenKind::Error,
        next_token(final(st).src@, old(st).peek.end as int).failure matches Some(ff)
            ==> (!final(st).aborted ==> lex_error_reported(final(st).src@, final(st).errors@, (t.start as int, ff))),
{
    proof { crate::parser::lexer::lemma_esc_ident_span(st.src@, st.peek.end as int); }
    let (t, f) = lex_token(st.src.as_slice(), st.peek.end);
    if let Some(f) = f {
        lex_error(st, t.start, f);
    }
    t
}

/// Consumes the lookahead and lexes the next token.
fn advance(st: &mut State) -> (t: Token)
    requires
        wf(*old(st)),
    ensures
        wf(*final(st)),
        steps(*old(st), *final(st), 0),
        t == old(st).peek,
        final(st).next_id == old(st).next_id,
        t.kind != TokenKind::Eof ==> final(st).peek.start >= t.end > t.start,
        t.kind == TokenKind::Eof ==> final(st).peek == old(st).peek,
        t.kind == TokenKind::Ident ==> ident_chars(final(st).src@, t),
{
    proof {
        if st.peek.kind == TokenKind::Ident {
            reveal(lex_inv);
            lemma_ident_chars(st.src@, st.lexpos@);
        }
    }
    let current = st.peek;
    if current.kind != TokenKind::Eof {
        let ghost s0 = *st;
        let t = lex_next(st);
        let ghost s1 = *st;
        st.peek = t;
        st.lexpos = Ghost(current.end as int);
        st.done = Ghost(s0.done@.push(next_token(s0.src@, s0.lexpos@)));
        proof {
            reveal(lex_inv);
            let src = st.src@;
            let step = next_token(src, s0.lexpos@);
            assert(lex_steps(src, s0.lexpos@) == seq![step] + lex_steps(src, step.end));
            reveal(lex_record);
            reveal(peek_reported);
            assert(s1.done@ + (seq![step] + lex_steps(src, step.end)) =~= s1.done@.push(step) + lex_steps(src, step.end));
            let nstep = next_token(src, step.end);
            crate::parser::lexer::lemma_step_errors_push(st.done@, nstep);
            if !st.aborted {
                reveal(lex_errors_reported);
                assert(lex_errors_reported(src, step_errors(st.done@), st.errors@));
                assert forall|k: int| 0 <= k < step_errors(st.done@.push(nstep)).len() implies
                    lex_error_reported(src, st.errors@, #[trigger] step_errors(st.done@.push(nstep))[k]) by {
                    if k < step_errors(st.done@).len() {
                        assert(step_errors(st.done@.push(nstep))[k] == step_errors(st.done@)[k]);
                    }
                }
            }
            if st.errors@.len() == 0 {
                assert(step.failure is None);
                assert(step_errors(lex_steps(src, s0.lexpos@)) == step_errors(lex_steps(src, step.end))) by {
                    assert((seq![step] + lex_steps(src, step.end)).drop_first() =~= lex_steps(src, step.end));
                }
            }
        }
    }
    current
}

/// Consumes the lookahead if it is of kind `k`.
fn eat(st: &mut State, k: TokenKind) -> (r: Option<Token>)
    requires
        wf(*old(st)),
    ensures
        wf(*final(st)),
        steps(*old(st), *final(st), 0),
        final(st).next_id == old(st).next_id,
        r is Some <==> old(st).peek.kind == k,
        r matches Some(t) ==> t == old(st).peek,
        r matches Some(t) ==> (k != TokenKind::Eof ==> final(st).peek.start >= t.end > t.start),
        r matches Some(t) ==> (k == TokenKind::Ident ==> ident_chars(final(st).src@, t)),
        r is None ==> *final(st) == *old(st),
{
    if st.peek.kind == k {
        Some(advance(st))
    } else {
        None
    }
}

/// Consumes the lookahead, which must be of kind `k`.
fn expect(st: &mut State, k: TokenKind) -> (r: Result<Token, PErr>)
    requires
        wf(*old(st)),
    ensures
        wf(*final(st)),
        steps(*old(st), *final(st), 0),
        final(st).next_id == old(st).next_id,
        err_ok(r, *final(st)),
        r is Ok <==> old(st).peek.kind == k,
        r matches Ok(t) ==> t == old(st).peek,
        r matches Ok(t) ==> (k != TokenKind::Eof ==> final(st).peek.start >= t.end > t.start),
        r matches Ok(t) ==> (k == TokenKind::Ident ==> ident_chars(final(st).src@, t)),
        r is Err ==> *final(st) == *old(st) && r->Err_0 is Syntax,
{
    if st.peek.kind == k {
        Ok(advance(st))
    } else {
        Err(PErr::Syntax { tok: st.peek, expecting: kind_text(k) })
    }
}

/// Hands out the next id, without a span yet.
fn reserve_id(st: &mut State) -> (id: u64)
    requires
        wf(*old(st)),
        old(st).next_id <= 4 * old(st).peek.start,
    ensures
        wf(*final(st)),
        steps(*old(st), *final(st), 1),
        final(st).peek == old(st).peek,
        id == old(st).next_id,
        final(st).next_id == old(st).next_id + 1,
        final(st).errors == old(st).errors,
        final(st).aborted == old(st).aborted,
{
    let id = st.next_id;
    st.next_id = st.next_id + 1;
    st.offsets.push(None);
    st.starts.push(0);
    id
}

/// Records the span of `tok` for `id`: its first byte and its last byte.
fn set_offset(st: &mut State, id: u64, tok: Token)
    requires
        wf(*old(st)),
        1 <= id < old(st).next_id,
        tok.start <= tok.end <= old(st).src@.len(),
    ensures
        wf(*final(st)),
        steps(*old(st), *final(st), 0),
        final(st).peek == old(st).peek,
        final(st).next_id == old(st).next_id,
        final(st).errors == old(st).errors,
        final(st).aborted == old(st).aborted,
        final(st).offsets@[id - 1] is Some,
{
    let start = st.offs[tok.start];
    let end_next = st.offs[tok.end];
    let end = if end_next > 0 { end_next - 1 } else { 0 };
    let _len = st.offsets.len();
    let idx: usize = (id - 1) as usize;
    st.offsets.set(idx, Some(OffsetRange { start, end }));
    st.starts.set(idx, tok.start);
    assert(st.offsets@[id - 1] is Some);
}

/// Hands out the next id, spanning `tok`.
fn new_id(st: &mut State, tok: Token) -> (id: u64)
    requires
        wf(*old(st)),
        old(st).next_id <= 4 * old(st).peek.start,
        tok.start <= tok.end <= old(st).src@.len(),
    ensures
        wf(*final(st)),
        steps(*old(st), *final(st), 1),
        final(st).peek == old(st).peek,
        id == old(st).next_id,
        final(st).next_id == old(st).next_id + 1,
        final(st).errors == old(st).errors,
        final(st).aborted == old(st).aborted,
        tree_ok(Multiset::singleton(id), *old(st), *final(st)),
{
    let id = reserve_id(st);
    set_offset(st, id, tok);
    proof { lemma_tree_single(id, *old(st), *st); }
    id
}

/// Hands out the next `k` ids, each spanning `tok`.
fn new_ids(st: &mut State, tok: Token, k: u64)
    requires
        wf(*old(st)),
        old(st).next_id + k <= 4 * old(st).peek.start + 1,
        tok.start <= tok.end <= old(st).src@.len(),
    ensures
        wf(*final(st)),
        steps(*old(st), *final(st), k as int),
        final(st).peek == old(st).peek,
        final(st).next_id == old(st).next_id + k,
        final(st).errors == old(st).errors,
        final(st).aborted == old(st).aborted,
        final(st).offsets@.len() + 1 == final(st).next_id,
        forall|x: int| old(st).next_id <= x < final(st).next_id ==> (#[trigger] final(st).offsets@[x - 1]) is Some,
{
    let mut i: u64 = 0;
    while i < k
        invariant
            wf(*st),
            steps(*old(st), *st, i as int),
            i <= k,
            1 <= old(st).next_id,
            old(st).next_id + k <= 4 * old(st).peek.start + 1,
            tok.start <= tok.end <= st.src@.len(),
            st.peek == old(st).peek,
            st.next_id == old(st).next_id + i,
            st.errors == old(st).errors,
            st.aborted == old(st).aborted,
            forall|x: int| old(st).next_id <= x < st.next_id ==> (#[trigger] st.offsets@[x - 1]) is Some,
        decreases k - i,
    {
        let ghost s0 = *st;
        let id = new_id(st, tok);
        proof {
            broadcast use vstd::multiset::group_multiset_axioms;
            assert(Multiset::singleton(id).count(id) > 0);
            assert(st.offsets@[id - 1] is Some);
            assert forall|x: int| old(st).next_id <= x < st.next_id implies (#[trigger] st.offsets@[x - 1]) is Some by {
                if x < s0.next_id {
                    assert(s0.offsets@[x - 1] is Some);
                } else {
                    assert(x == id);
                }
            }
        }
        i += 1;
    }
}

/// Records `msg` at the start of the span of `id`, or at `fallback` when
/// `id` has no span.
fn report_at_id(st: &mut State, id: u64, fallback: Token, msg: String)
    requires
        wf(*old(st)),
        fallback.start <= old(st).src@.len(),
    ensures
        wf(*final(st)),
        steps(*old(st), *final(st), 0),
        final(st).peek == old(st).peek,
        final(st).next_id == old(st).next_id,
        final(st).aborted == old(st).aborted,
        final(st).errors@.len() == old(st).errors@.len() + 1,
{
    let n = st.offsets.len();
    if id >= 1 && id - 1 < n as u64 && st.offsets[(id - 1) as usize].is_some() {
        let at = st.starts[(id - 1) as usize];
        push_error(st, at, msg);
    } else {
        push_error(st, fallback.start, msg);
    }
}

/// An expansion keeps some of the ids of what it was made from, and adds
/// `k` ids handed out just after.
proof fn lemma_tree_expand(big: Multiset<u64>, small: Multiset<u64>, e: Multiset<u64>, k: int, a: State, b: State, c: State)
    requires
        tree_ok(big, a, b),
        a.next_id <= b.next_id,
        1 <= b.next_id,
        forall|x: u64| #[trigger] small.count(x) <= big.count(x),
        forall|x: u64| #[trigger] e.count(x) == small.count(x) + in_block(b.next_id, k, x),
        c.next_id == b.next_id + k,
        c.offsets@.len() + 1 == c.next_id,
        grows(b, c),
        forall|x: int| b.next_id <= x < c.next_id ==> (#[trigger] c.offsets@[x - 1]) is Some,
    ensures
        tree_ok(e, a, c),
{
    assert forall|x: u64| #[trigger] e.count(x) > 0 implies x == 0 || (a.next_id <= x < c.next_id && e.count(x) == 1) by {
        assert(small.count(x) <= big.count(x));
        if big.count(x) > 0 && x != 0 {
            assert(a.next_id <= x < b.next_id && big.count(x) == 1);
        }
    }
    assert forall|x: u64| #[trigger] e.count(x) > 0 && x != 0 implies 1 <= x <= c.offsets@.len() && c.offsets@[x - 1] is Some by {
        assert(small.count(x) <= big.count(x));
        if big.count(x) > 0 {
            assert(b.offsets@[x - 1] is Some);
        } else {
            assert(c.offsets@[x - 1] is Some);
        }
    }
    assert(e.count(0) > 0 ==> c.errors@.len() > 0) by {
        assert(small.count(0) <= big.count(0));
    }
}

// ---------------------------------------------------------------------------
// Numbers
// ---------------------------------------------------------------------------

/// The value of `c` as a digit of `radix` (10 or 16), if it is one.
pub open spec fn digit_value(c: char, radix: nat) -> Option<nat> {
    if '0' <= c && c <= '9' {
        Some((c as nat - 48) as nat)
    } else if radix == 16 && 'a' <= c && c <= 'f' {
        Some((c as nat - 87) as nat)
    } else if radix == 16 && 'A' <= c && c <= 'F' {
        Some((c as nat - 55) as nat)
    } else {
        None
    }
}

/// The value of the digits `s` in `radix`, if all of them are digits.
pub open spec fn digits_value(s: Seq<char>, radix: nat) -> Option<nat>
    decreases s.len(),
{
    if s.len() == 0 {
        Some(0)
    } else {
        match (digits_value(s.drop_last(), radix), digit_value(s.last(), radix)) {
            (Some(v), Some(d)) => Some(v * radix + d),
            _ => None,
        }
    }
}

/// A hexadecimal digit of an int literal has the value that a hex escape
/// of a string literal gives it: `0`-`9` their own, `a`-`f` and `A`-`F`
/// alike 10-15. Hex digits read as a number give the number a hex escape
/// gives, and anything that is not a hex digit is refused.
pub proof fn law_hex_digits_agree(s: Seq<char>)
    ensures
        crate::parser::parse::all_hex(s) ==> digits_value(s, 16) == Some(crate::parser::parse::hex_number(s)),
        !crate::parser::parse::all_hex(s) ==> digits_value(s, 16) is None,
    decreases s.len(),
{
    if s.len() > 0 {
        law_hex_digits_agree(s.drop_last());
        let c = s.last();
        if crate::parser::parse::all_hex(s) {
            assert(crate::parser::parse::is_hex_digit(s[s.len() - 1]));
            assert forall|k: int| 0 <= k < s.drop_last().len() implies crate::parser::parse::is_hex_digit(#[trigger] s.drop_last()[k]) by {
                assert(s.drop_last()[k] == s[k]);
            }
        } else {
            let k = choose|k: int| 0 <= k < s.len() && !crate::parser::parse::is_hex_digit(#[trigger] s[k]);
            if k < s.len() - 1 {
                assert(s.drop_last()[k] == s[k]);
                assert(!crate::parser::parse::all_hex(s.drop_last()));
            }
        }
    }
}

/// Hex digits are read without regard to case: a lowercase `a`-`f` is a
/// digit of radix 16 worth 10-15, the same as its uppercase form, and none
/// of them is a decimal digit.
pub proof fn law_hex_digit_case(c: char)
    requires
        'a' <= c <= 'f',
    ensures
        digit_value(c, 16) == Some((c as nat - 'a' as nat + 10) as nat),
        digit_value(c, 16) == digit_value(((c as u32) - 32) as char, 16),
        digit_value(c, 10) is None,
{
    let u = ((c as u32) - 32) as char;
    assert('A' <= u <= 'F');
}

/// The value of a number written with the digits `s`: at least one digit,
/// and nothing but digits.
pub open spec fn number_value(s: Seq<char>, radix: nat) -> Option<nat> {
    if s.len() == 0 { None } else { digits_value(s, radix) }
}

fn digit_exec(c: char, radix: u64) -> (r: Option<u64>)
    requires
        radix == 10 || radix == 16,
    ensures
        match digit_value(c, radix as nat) {
            Some(d) => r == Some(d as u64) && d < radix,
            None => r is None,
        },
{
    if '0' <= c && c <= '9' {
        Some((c as u64) - 48)
    } else if radix == 16 && 'a' <= c && c <= 'f' {
        Some((c as u64) - 87)
    } else if radix == 16 && 'A' <= c && c <= 'F' {
        Some((c as u64) - 55)
    } else {
        None
    }
}

proof fn lemma_grow(v: nat, radix: nat, d: nat)
    requires
        radix >= 1,
    ensures
        v * radix + d >= v,
{
    assert(v * radix >= v) by (nonlinear_arith)
        requires
            radix >= 1,
    ;
}

/// The value of the number written `a[from..to]` in `radix`, if it is one
/// and fits in a `u64`.
fn number_exec(a: &[char], from: usize, to: usize, radix: u64) -> (r: Option<u64>)
    requires
        from <= to <= a@.len(),
        radix == 10 || radix == 16,
    ensures
        match number_value(a@.subrange(from as int, to as int), radix as nat) {
            Some(v) => if v <= u64::MAX { r == Some(v as u64) } else { r is None },
            None => r is None,
        },
{
    if from == to {
        return None;
    }
    let mut v: u64 = 0;
    let mut big = false;
    let mut k = from;
    assert(a@.subrange(from as int, from as int) =~= Seq::<char>::empty());
    while k < to
        invariant
            from <= k <= to <= a@.len(),
            radix == 10 || radix == 16,
            digits_value(a@.subrange(from as int, k as int), radix as nat) is Some,
            !big ==> digits_value(a@.subrange(from as int, k as int), radix as nat) == Some(v as nat),
            big ==> digits_value(a@.subrange(from as int, k as int), radix as nat)->0 > u64::MAX,
        decreases to - k,
    {
        let ghost prefix = a@.subrange(from as int, k as int);
        let ghost next = a@.subrange(from as int, k + 1);
        assert(next.drop_last() =~= prefix);
        assert(next.last() == a@[k as int]);
        match digit_exec(a[k], radix) {
            None => {
                proof {
                    let s = a@.subrange(from as int, to as int);
                    lemma_digits_prefix(s, (k + 1 - from) as int, radix as nat);
                    assert(s.take((k + 1 - from) as int) =~= next);
                }
                return None;
            },
            Some(d) => {
                proof {
                    lemma_grow(digits_value(prefix, radix as nat)->0, radix as nat, d as nat);
                }
                if !big {
                    let lim: u64 = (u64::MAX - d) / radix;
                    if v <= lim {
                        assert(v * radix + d <= u64::MAX) by (nonlinear_arith)
                            requires
                                v <= lim,
                                lim == (u64::MAX - d) / (radix as int),
                                radix >= 1,
                                d <= u64::MAX,
                        ;
                        v = v * radix + d;
                    } else {
                        assert(v * radix + d > u64::MAX) by (nonlinear_arith)
                            requires
                                v > lim,
                                lim == (u64::MAX - d) / (radix as int),
                                radix >= 1,
                                d <= u64::MAX,
                        ;
                        big = true;
                    }
                }
            },
        }
        k += 1;
    }
    assert(a@.subrange(from as int, to as int).len() > 0);
    if big { None } else { Some(v) }
}

/// If the digits of `s` do not all have values, neither do those of any
/// longer sequence that starts with them.
proof fn lemma_digits_prefix(s: Seq<char>, k: int, radix: nat)
    requires
        0 <= k <= s.len(),
        digits_value(s.take(k), radix) is None,
    ensures
        digits_value(s, radix) is None,
    decreases s.len() - k,
{
    if k < s.len() {
        assert(s.take(k + 1).drop_last() =~= s.take(k));
        lemma_digits_prefix(s, k + 1, radix);
    } else {
        assert(s.take(k) =~= s);
    }
}

/// The text of an integer literal, its radix and its digits: `0x` introduces
/// hexadecimal digits.
pub open spec fn radix_digits(t: Seq<char>) -> (nat, Seq<char>) {
    if t.len() >= 2 && t[0] == '0' && t[1] == 'x' { (16, t.skip(2)) } else { (10, t) }
}

/// The value of an `int` literal written `t`, negated when `negative`, if
/// it fits in an `i64`.
pub open spec fn int_literal_value(t: Seq<char>, negative: bool) -> Option<int> {
    match number_value(radix_digits(t).1, radix_digits(t).0) {
        Some(v) => if negative {
            if v <= 0x8000_0000_0000_0000 { Some(-v) } else { None }
        } else {
            if v <= 0x7fff_ffff_ffff_ffff { Some(v as int) } else { None }
        },
        None => None,
    }
}

/// The value of a `uint` literal written `t` (its `u` suffix included), if
/// it fits in a `u64`.
pub open spec fn uint_literal_value(t: Seq<char>) -> Option<nat> {
    let d = t.take(t.len() - 1);
    match number_value(radix_digits(d).1, radix_digits(d).0) {
        Some(v) => if v <= u64::MAX { Some(v) } else { None },
        None => None,
    }
}

fn int_value_exec(a: &[char], from: usize, to: usize, negative: bool) -> (r: Option<i64>)
    requires
        from <= to <= a@.len(),
    ensures
        match int_literal_value(a@.subrange(from as int, to as int), negative) {
            Some(v) => r == Some(v as i64) && i64::MIN <= v <= i64::MAX,
            None => r is None,
        },
{
    let ghost t = a@.subrange(from as int, to as int);
    let hex = to - from >= 2 && a[from] == '0' && a[from + 1] == 'x';
    let (radix, start): (u64, usize) = if hex { (16, from + 2) } else { (10, from) };
    assert(radix_digits(t).1 =~= a@.subrange(start as int, to as int));
    match number_exec(a, start, to, radix) {
        None => None,
        Some(v) => {
            if negative {
                if v <= 0x8000_0000_0000_0000 {
                    if v == 0x8000_0000_0000_0000 {
                        Some(i64::MIN)
                    } else {
                        Some(-(v as i64))
                    }
                } else {
                    None
                }
            } else {
                if v <= 0x7fff_ffff_ffff_ffff {
                    Some(v as i64)
                } else {
                    None
                }
            }
        },
    }
}

fn uint_value_exec(a: &[char], from: usize, to: usize) -> (r: Option<u64>)
    requires
        from < to <= a@.len(),
    ensures
        match uint_literal_value(a@.subrange(from as int, to as int)) {
            Some(v) => r == Some(v as u64),
            None => r is None,
        },
{
    let ghost t = a@.subrange(from as int, to as int);
    let end = to - 1;
    let ghost d = t.take(t.len() - 1);
    assert(d =~= a@.subrange(from as int, end as int));
    let hex = end - from >= 2 && a[from] == '0' && a[from + 1] == 'x';
    let (radix, start): (u64, usize) = if hex { (16, from + 2) } else { (10, from) };
    assert(radix_digits(d).1 =~= a@.subrange(start as int, end as int));
    number_exec(a, start, end, radix)
}

// ---------------------------------------------------------------------------
// Recovery
// ---------------------------------------------------------------------------

/// Reports `msg` at `tok`: an error that does not affect the parse.
fn report_at(st: &mut State, tok: Token, msg: String)
    requires
        wf(*old(st)),
        tok.start <= old(st).src@.len(),
    ensures
        wf(*final(st)),
        steps(*old(st), *final(st), 0),
        final(st).peek == old(st).peek,
        final(st).next_id == old(st).next_id,
        final(st).aborted == old(st).aborted,
        final(st).errors@.len() == old(st).errors@.len() + 1,
{
    push_error(st, tok.start, msg);
}

/// Records a syntax error at the lookahead, without unwinding.
fn recover_here(st: &mut State, expecting: &str) -> (r: Result<(), PErr>)
    requires
        wf(*old(st)),
    ensures
        wf(*final(st)),
        steps(*old(st), *final(st), 0),
        final(st).peek == old(st).peek,
        final(st).next_id == old(st).next_id,
        final(st).errors@.len() > 0,
        err_ok(r, *final(st)),
        r is Err ==> r->Err_0 is Abort && final(st).aborted,
{
    let tok = st.peek;
    recover_from(st, tok, expecting)
}

/// Skips ahead to the next token the parser re-synchronises on.
fn skip_to_sync(st: &mut State)
    requires
        wf(*old(st)),
    ensures
        wf(*final(st)),
        steps(*old(st), *final(st), 0),
        final(st).next_id == old(st).next_id,
        sync_kind(final(st).peek.kind),
{
    while !is_sync(st.peek.kind)
        invariant
            wf(*st),
            steps(*old(st), *st, 0),
            st.next_id == old(st).next_id,
        decreases st.src@.len() - st.peek.start,
    {
        advance(st);
    }
}

/// A closing delimiter. When it is missing, the error is recorded and the
/// parser skips ahead to the next delimiter, consuming it if it is the one
/// expected.
fn expect_close(st: &mut State, k: TokenKind) -> (r: Result<(), PErr>)
    requires
        wf(*old(st)),
    ensures
        wf(*final(st)),
        steps(*old(st), *final(st), 0),
        final(st).next_id == old(st).next_id,
        err_ok(r, *final(st)),
        old(st).peek.kind == k ==> r is Ok,
        old(st).peek.kind == k && k != TokenKind::Eof ==> final(st).peek.start >= old(st).peek.end > old(st).peek.start,
        old(st).peek.kind != k ==> final(st).errors@.len() > 0,
        r is Err ==> r->Err_0 is Abort && final(st).aborted,
{
    if eat(st, k).is_some() {
        return Ok(());
    }
    recover_here(st, kind_text(k))?;
    skip_to_sync(st);
    if st.peek.kind == k {
        advance(st);
    }
    Ok(())
}

/// A recovery point for an expression: a syntax error is recorded, the
/// parser skips ahead to the next delimiter and a placeholder stands for
/// the expression.
fn recover_expr(st: &mut State) -> (r: Result<IdedExpr, PErr>)
    requires
        wf(*old(st)),
    ensures
        wf(*final(st)),
        steps(*old(st), *final(st), 0),
        err_ok(r, *final(st)),
        r is Err ==> r->Err_0 is Abort,
        r matches Ok(e) ==> tree_ok(ids_m(e), *old(st), *final(st)),
        r matches Ok(e) ==> plain_ok(*old(st), e),
        r matches Ok(e) ==> done_ok(*final(st), e),
        r matches Ok(e) ==> fields_ok(*final(st), e),
    decreases old(st).options.max_recursion_depth + 1 - old(st).depth, 1int,
{
    match expr(st) {
        Ok(e) => Ok(e),
        Err(PErr::Syntax { tok, expecting }) => {
            recover_from(st, tok, expecting)?;
            skip_to_sync(st);
            let e = IdedExpr::default();
            proof { lemma_tree_placeholder(e, *old(st), *st); }
            Ok(e)
        },
        Err(PErr::Abort) => Err(PErr::Abort),
    }
}

// ---------------------------------------------------------------------------
// Building the tree
// ---------------------------------------------------------------------------

/// The ids of an optional target, counted.
spec fn opt_m(t: Option<IdedExpr>) -> Multiset<u64> {
    match t {
        Some(t) => ids_m(t),
        None => Multiset::empty(),
    }
}

/// A call of `func` on `target`, if any.
fn call_on(id: u64, func: String, target: Option<IdedExpr>, args: Vec<IdedExpr>) -> (e: IdedExpr)
    ensures
        e.id == id,
        e.expr matches Expr::Call(c) && c.func_name == func && c.args@ == args@
            && (match target { Some(t) => c.target == Some(Box::new(t)), None => c.target is None }),
        ids_m(e) =~= Multiset::singleton(id).add(opt_m(target)).add(list_m(args@)),
        !optional_func(func@) && plain_list(args@) && match target { Some(t) => plain(t), None => true } ==> plain(e),
        complete_list(args@) && match target { Some(t) => complete(t), None => true } ==> complete(e),
        ident_fields_list(args@) && match target { Some(t) => ident_fields(t), None => true } ==> ident_fields(e),
{
    let ghost t0 = target;
    let target = match target {
        Some(t) => Some(Box::new(t)),
        None => None,
    };
    let e = IdedExpr { id, expr: Expr::Call(CallExpr { func_name: func, target, args }) };
    proof {
        broadcast use vstd::multiset::group_multiset_axioms;
        lemma_ids_m(e);
        lemma_empty_m();
        assert(target_ids(None) =~= Seq::<u64>::empty());
        assert(crate::common::ast::plain_target(e.expr->Call_0.target) == match t0 { Some(t) => plain(t), None => true });
        assert(crate::common::ast::complete_target(e.expr->Call_0.target) == match t0 { Some(t) => complete(t), None => true });
        assert(crate::common::ast::ident_fields_target(e.expr->Call_0.target) == match t0 { Some(t) => ident_fields(t), None => true });
    }
    e
}

/// `a[from..to]` preceded by a dot when `leading_dot`.
fn qualified(st: &State, leading_dot: bool, tok: Token) -> (s: String)
    requires
        wf(*st),
        tok.start <= tok.end <= st.src@.len(),
    ensures
        s@ == (if leading_dot { seq!['.'] } else { seq![] }) + st.src@.subrange(tok.start as int, tok.end as int),
{
    let mut s = String::new();
    if leading_dot {
        push_char(&mut s, '.');
    }
    push_chars(&mut s, st.src.as_slice(), tok.start, tok.end);
    s
}

/// The tokens of a dotted name are tokens of the source.
spec fn parts_ok(parts: Seq<(Token, Token)>, len: int) -> bool {
    forall|k: int| 0 <= k < parts.len() ==> (#[trigger] parts[k]).0.start <= parts[k].0.end <= len
        && parts[k].1.start <= parts[k].1.end <= len
}

/// A selection of `field` from `operand`, numbered from its dot.
fn plain_select(st: &mut State, operand: IdedExpr, dot: Token, field: String, Ghost(start): Ghost<State>) -> (e: IdedExpr)
    requires
        wf(*old(st)),
        old(st).next_id <= 4 * old(st).peek.start,
        dot.start <= dot.end <= old(st).src@.len(),
        tree_ok(ids_m(operand), start, *old(st)),
        start.next_id <= old(st).next_id,
    ensures
        wf(*final(st)),
        steps(*old(st), *final(st), 1),
        final(st).peek == old(st).peek,
        final(st).next_id == old(st).next_id + 1,
        final(st).aborted == old(st).aborted,
        tree_ok(ids_m(e), start, *final(st)),
        plain(operand) ==> plain(e),
        complete(operand) ==> complete(e),
        ident_fields(operand) && ident_name(field@) ==> ident_fields(e),
        e.id == old(st).next_id,
        e.expr == Expr::Select(SelectExpr { operand: Box::new(operand), field, test: false }),
{
    let id = new_id(st, dot);
    let e = IdedExpr { id, expr: Expr::Select(SelectExpr { operand: Box::new(operand), field, test: false }) };
    proof {
        broadcast use vstd::multiset::group_multiset_axioms;
        lemma_ids_m(e);
        lemma_tree_seq(ids_m(operand), Multiset::singleton(id), start, *old(st), *old(st), *st);
        assert(ids_m(e) =~= ids_m(operand).add(Multiset::singleton(id)));
    }
    e
}

/// Numbers and builds the identifier and the selections of a dotted name.
fn select_chain(st: &mut State, leading_dot: bool, head: Token, parts: &Vec<(Token, Token)>) -> (e: IdedExpr)
    requires
        forall|k: int| 0 <= k < parts@.len() ==> (#[trigger] parts@[k]).1.start < parts@[k].1.end && ident_chars(old(st).src@, parts@[k].1),
        wf(*old(st)),
        head.start <= head.end <= old(st).src@.len(),
        parts_ok(parts@, old(st).src@.len() as int),
        old(st).next_id + parts@.len() + 1 <= 4 * old(st).peek.start + 1,
    ensures
        wf(*final(st)),
        steps(*old(st), *final(st), parts@.len() as int + 1),
        final(st).peek == old(st).peek,
        final(st).next_id == old(st).next_id + parts@.len() + 1,
        final(st).aborted == old(st).aborted,
        tree_ok(ids_m(e), *old(st), *final(st)),
        plain(e),
        complete(e),
        ident_fields(e),
{
    let name = qualified(st, leading_dot, head);
    if is_reserved_id(st.src.as_slice(), head.start, head.end) {
        let mut msg = crate::text::to_string("reserved identifier: ");
        push_str(&mut msg, name.as_str());
        report_at(st, head, msg);
    }
    let ghost s0 = *st;
    let id = new_id(st, head);
    let mut lhs = leaf(id, Expr::Ident(name));
    proof {
        lemma_tree_widen(ids_m(lhs), s0, *st, *old(st), *st);
    }
    let mut k: usize = 0;
    while k < parts.len()
        invariant
            wf(*st),
            steps(*old(st), *st, k as int + 1),
            k <= parts@.len(),
            parts_ok(parts@, st.src@.len() as int),
            st.peek == old(st).peek,
            st.next_id == old(st).next_id + k + 1,
            st.aborted == old(st).aborted,
            old(st).next_id + parts@.len() + 1 <= 4 * old(st).peek.start + 1,
            tree_ok(ids_m(lhs), *old(st), *st),
            plain(lhs),
            complete(lhs),
            ident_fields(lhs),
            forall|j: int| 0 <= j < parts@.len() ==> (#[trigger] parts@[j]).1.start < parts@[j].1.end && ident_chars(st.src@, parts@[j].1),
        decreases parts@.len() - k,
    {
        let (dot, ident) = parts[k];
        let field = text(st, ident);
        proof {
            lemma_ident_token_name(st.src@, ident);
        }
        lhs = plain_select(st, lhs, dot, field, Ghost(*old(st)));
        k += 1;
    }
    lhs
}

/// The dotted name of `head` and then of the identifiers of `parts`, after
/// a dot when `leading_dot`.
spec fn dotted_text(src: Seq<char>, leading_dot: bool, head: Token, parts: Seq<(Token, Token)>) -> Seq<char>
    decreases parts.len(),
{
    if parts.len() == 0 {
        (if leading_dot { seq!['.'] } else { seq![] }) + src.subrange(head.start as int, head.end as int)
    } else {
        dotted_text(src, leading_dot, head, parts.drop_last()) + seq!['.']
            + src.subrange(parts.last().1.start as int, parts.last().1.end as int)
    }
}

/// The name of a message type: a dotted name.
fn message_name(st: &State, leading_dot: bool, head: Token, parts: &Vec<(Token, Token)>) -> (s: String)
    requires
        wf(*st),
        head.start <= head.end <= st.src@.len(),
        parts_ok(parts@, st.src@.len() as int),
    ensures
        s@ == dotted_text(st.src@, leading_dot, head, parts@),
{
    let mut name = qualified(st, leading_dot, head);
    let mut k: usize = 0;
    proof {
        assert(parts@.take(0) =~= Seq::<(Token, Token)>::empty());
    }
    while k < parts.len()
        invariant
            wf(*st),
            k <= parts@.len(),
            parts_ok(parts@, st.src@.len() as int),
            name@ == dotted_text(st.src@, leading_dot, head, parts@.take(k as int)),
        decreases parts@.len() - k,
    {
        let (_, ident) = parts[k];
        let ghost before = name@;
        push_char(&mut name, '.');
        push_chars(&mut name, st.src.as_slice(), ident.start, ident.end);
        proof {
            let t = parts@.take(k + 1);
            assert(t.drop_last() =~= parts@.take(k as int));
            assert(t.last() == parts@[k as int]);
            assert(name@ =~= before + seq!['.'] + st.src@.subrange(ident.start as int, ident.end as int));
        }
        k += 1;
    }
    proof {
        assert(parts@.take(parts@.len() as int) =~= parts@);
    }
    name
}

/// Strips the backticks off a quoted identifier, reporting at `at` when
/// the escape syntax is not enabled.
fn escaped_ident(st: &mut State, ident: Token, at: Token) -> (s: String)
    requires
        wf(*old(st)),
        ident.start + 3 <= ident.end <= old(st).src@.len(),
        at.start <= at.end <= old(st).src@.len(),
    ensures
        wf(*final(st)),
        steps(*old(st), *final(st), 0),
        final(st).peek == old(st).peek,
        final(st).next_id == old(st).next_id,
        final(st).aborted == old(st).aborted,
        s@ == old(st).src@.subrange(ident.start + 1, ident.end - 1),
        !old(st).options.enable_ident_escape_syntax ==> final(st).errors@.len() > 0,
{
    if !st.options.enable_ident_escape_syntax {
        report_at(st, at, crate::text::to_string("unsupported syntax: '`'"));
    }
    string_from(st.src.as_slice(), ident.start + 1, ident.end - 1)
}

/// A selection of `field` after `member '.'`, or with the optional syntax
/// after `member '.?'`.
fn select(st: &mut State, operand: IdedExpr, dot: Token, optional: bool, field: String, Ghost(start): Ghost<State>) -> (e: IdedExpr)
    requires
        unescaped(*old(st)) ==> ident_name(field@),
        fields_ok(*old(st), operand),
        done_ok(*old(st), operand),
        plain_ok(*old(st), operand),
        wf(*old(st)),
        dot.start <= dot.end <= old(st).src@.len(),
        old(st).next_id + (if optional { 2int } else { 1int }) <= 4 * old(st).peek.start + 1,
        tree_ok(ids_m(operand), start, *old(st)),
        start.next_id <= old(st).next_id,
    ensures
        wf(*final(st)),
        steps(*old(st), *final(st), if optional { 2int } else { 1int }),
        final(st).peek == old(st).peek,
        final(st).aborted == old(st).aborted,
        tree_ok(ids_m(e), start, *final(st)),
        plain_ok(*old(st), e),
        done_ok(*final(st), e),
        fields_ok(*final(st), e),
        optional && old(st).options.enable_optional_syntax ==> (e.expr matches Expr::Call(c)
            && e.id == old(st).next_id + 1 && c.func_name@ == "_?._"@ && c.target is None
            && c.args@ == seq![operand, IdedExpr { id: old(st).next_id, expr: Expr::Literal(LiteralValue::String(field)) }]),
        !(optional && old(st).options.enable_optional_syntax) ==> e.id == old(st).next_id
            && e.expr == Expr::Select(SelectExpr { operand: Box::new(operand), field, test: false }),
        optional && !old(st).options.enable_optional_syntax ==> final(st).errors@.len() > old(st).errors@.len(),
{
    if optional && st.options.enable_optional_syntax {
        let ghost s0 = *st;
        let lit = new_id(st, dot);
        let field_literal = leaf(lit, Expr::Literal(LiteralValue::String(field)));
        let ghost s1 = *st;
        let op_id = new_id(st, dot);
        let e = call(op_id, "_?._", vec![operand, field_literal]);
        proof {
            broadcast use vstd::multiset::group_multiset_axioms;
            crate::common::ast::lemma_list_m2(operand, field_literal);
            lemma_tree_seq(ids_m(operand), ids_m(field_literal), start, s0, s0, s1);
            lemma_tree_seq(ids_m(operand).add(ids_m(field_literal)), Multiset::singleton(op_id), start, s1, s1, *st);
            assert(ids_m(e) =~= ids_m(operand).add(ids_m(field_literal)).add(Multiset::singleton(op_id)));
            if st.errors@.len() == 0 {
                lemma_complete_list2(operand, field_literal);
            }
            if unescaped(*st) {
                lemma_ident_fields_list2(operand, field_literal);
            }
        }
        e
    } else {
        if optional {
            report_at(st, dot, crate::text::to_string("unsupported syntax '.?'"));
        }
        let ghost opts = st.options;
        let e = plain_select(st, operand, dot, field, Ghost(start));
        assert(opts == old(st).options);
        e
    }
}

// ---------------------------------------------------------------------------
// Grammar rules
// ---------------------------------------------------------------------------

/// `expr : conditionalOr ('?' conditionalOr ':' expr)?`, where the nesting
/// depth is enforced.
fn expr(st: &mut State) -> (r: Result<IdedExpr, PErr>)
    requires
        wf(*old(st)),
    ensures
        wf(*final(st)),
        steps(*old(st), *final(st), 0),
        err_ok(r, *final(st)),
        r matches Ok(e) ==> tree_ok(ids_m(e), *old(st), *final(st)),
        r matches Ok(e) ==> plain_ok(*old(st), e),
        r matches Ok(e) ==> done_ok(*final(st), e),
        r matches Ok(e) ==> fields_ok(*final(st), e),
    decreases old(st).options.max_recursion_depth + 1 - old(st).depth, 0int,
{
    if st.aborted {
        return Err(PErr::Abort);
    }
    let max = st.options.max_recursion_depth;
    if st.depth > max as u32 {
        let mut msg = crate::text::to_string("expression recursion limit exceeded: ");
        push_decimal(&mut msg, max as u64);
        assert(msg@ =~= "expression recursion limit exceeded: "@ + decimal(st.options.max_depth() as nat));
        return Err(abort(st, msg));
    }
    st.depth = st.depth + 1;
    let result = conditional(st);
    st.depth = st.depth - 1;
    result
}

fn conditional(st: &mut State) -> (r: Result<IdedExpr, PErr>)
    requires
        wf(*old(st)),
    ensures
        wf(*final(st)),
        steps(*old(st), *final(st), 0),
        err_ok(r, *final(st)),
        r matches Ok(e) ==> tree_ok(ids_m(e), *old(st), *final(st)),
        r matches Ok(e) ==> plain_ok(*old(st), e),
        r matches Ok(e) ==> done_ok(*final(st), e),
        r matches Ok(e) ==> fields_ok(*final(st), e),
    decreases old(st).options.max_recursion_depth + 1 - old(st).depth, 17int,
{
    let condition = binary(st, 1)?;
    let question = match eat(st, TokenKind::Question) {
        Some(q) => q,
        None => return Ok(condition),
    };
    let ghost s1 = *st;
    let op_id = new_id(st, question);
    let ghost s2 = *st;
    let if_true = binary(st, 1)?;
    let ghost s3 = *st;
    expect(st, TokenKind::Colon)?;
    let ghost s4 = *st;
    let if_false = expr(st)?;
    let e = call(op_id, "_?_:_", vec![condition, if_true, if_false]);
    proof {
        broadcast use vstd::multiset::group_multiset_axioms;
        crate::common::ast::lemma_list_m3(condition, if_true, if_false);
        lemma_tree_seq(ids_m(condition), Multiset::singleton(op_id), *old(st), s1, s1, s2);
        let m1 = ids_m(condition).add(Multiset::singleton(op_id));
        lemma_tree_seq(m1, ids_m(if_true), *old(st), s2, s2, s3);
        let m2 = m1.add(ids_m(if_true));
        lemma_tree_seq(m2, ids_m(if_false), *old(st), s3, s4, *st);
        assert(ids_m(e) =~= m2.add(ids_m(if_false)));
        if !old(st).options.enable_optional_syntax {
            lemma_operator_names();
            lemma_plain_list3(condition, if_true, if_false);
        }
        if st.errors@.len() == 0 {
            lemma_complete_list3(condition, if_true, if_false);
        }
        if unescaped(*st) {
            lemma_ident_fields_list3(condition, if_true, if_false);
        }
    }
    Ok(e)
}

/// `conditionalOr`, `conditionalAnd`, `relation` and `calc` in one
/// precedence-climbing loop: left-associative binary operators numbered
/// between their operands, and runs of `||` or `&&` folded into balanced
/// trees with each operator numbered after its right operand.
fn binary(st: &mut State, min_prec: u8) -> (r: Result<IdedExpr, PErr>)
    requires
        wf(*old(st)),
        1 <= min_prec <= 6,
    ensures
        wf(*final(st)),
        steps(*old(st), *final(st), 0),
        err_ok(r, *final(st)),
        r matches Ok(e) ==> tree_ok(ids_m(e), *old(st), *final(st)),
        r matches Ok(e) ==> plain_ok(*old(st), e),
        r matches Ok(e) ==> done_ok(*final(st), e),
        r matches Ok(e) ==> fields_ok(*final(st), e),
    decreases old(st).options.max_recursion_depth + 1 - old(st).depth, 17 - min_prec,
{
    let mut lhs = unary(st)?;
    loop
        invariant
            wf(*st),
            steps(*old(st), *st, 0),
            1 <= min_prec <= 6,
            tree_ok(ids_m(lhs), *old(st), *st),
            plain_ok(*old(st), lhs),
            done_ok(*st, lhs),
            fields_ok(*st, lhs),
        ensures
            wf(*st),
            steps(*old(st), *st, 0),
            tree_ok(ids_m(lhs), *old(st), *st),
            plain_ok(*old(st), lhs),
            done_ok(*st, lhs),
            fields_ok(*st, lhs),
        decreases st.src@.len() - st.peek.start,
    {
        let ghost p0 = st.peek.start;
        let op = st.peek;
        let (prec, func) = match binary_op(op.kind) {
            Some(x) => x,
            None => break,
        };
        if prec < min_prec {
            break;
        }
        proof {
            lemma_binary_names(op.kind);
        }
        advance(st);
        let ghost s1 = *st;
        if prec > 2 {
            let op_id = new_id(st, op);
            let ghost s2 = *st;
            let rhs = binary(st, prec + 1)?;
            let e = call(op_id, func, vec![lhs, rhs]);
            proof {
                broadcast use vstd::multiset::group_multiset_axioms;
                crate::common::ast::lemma_list_m2(lhs, rhs);
                lemma_tree_seq(ids_m(lhs), Multiset::singleton(op_id), *old(st), s1, s1, s2);
                lemma_tree_seq(ids_m(lhs).add(Multiset::singleton(op_id)), ids_m(rhs), *old(st), s2, s2, *st);
                assert(ids_m(e) =~= ids_m(lhs).add(Multiset::singleton(op_id)).add(ids_m(rhs)));
                if !old(st).options.enable_optional_syntax {
                    lemma_plain_list2(lhs, rhs);
                }
                if st.errors@.len() == 0 {
                    lemma_complete_list2(lhs, rhs);
                }
                if unescaped(*st) {
                    lemma_ident_fields_list2(lhs, rhs);
                }
            }
            lhs = e;
            continue;
        }
        let rhs = binary(st, prec + 1)?;
        let ghost s2 = *st;
        let op_id = new_id(st, op);
        let ghost s3 = *st;
        proof {
            broadcast use vstd::multiset::group_multiset_axioms;
            lemma_tree_seq(ids_m(lhs), ids_m(rhs), *old(st), s1, s1, s2);
            lemma_tree_seq(ids_m(lhs).add(ids_m(rhs)), Multiset::singleton(op_id), *old(st), s2, s2, s3);
        }
        if st.peek.kind != op.kind {
            let e = call(op_id, func, vec![lhs, rhs]);
            proof {
                broadcast use vstd::multiset::group_multiset_axioms;
                crate::common::ast::lemma_list_m2(lhs, rhs);
                assert(ids_m(e) =~= ids_m(lhs).add(ids_m(rhs)).add(Multiset::singleton(op_id)));
                if !old(st).options.enable_optional_syntax {
                    lemma_plain_list2(lhs, rhs);
                }
                if st.errors@.len() == 0 {
                    lemma_complete_list2(lhs, rhs);
                }
                if unescaped(*st) {
                    lemma_ident_fields_list2(lhs, rhs);
                }
            }
            lhs = e;
            continue;
        }
        let ghost m0 = ids_m(lhs).add(ids_m(rhs)).add(Multiset::singleton(op_id));
        let mut terms: Vec<IdedExpr> = vec![lhs, rhs];
        let mut ops: Vec<u64> = vec![op_id];
        proof {
            broadcast use vstd::multiset::group_multiset_axioms, vstd::seq_lib::group_to_multiset_ensures;
            crate::common::ast::lemma_list_m2(lhs, rhs);
            lemma_empty_m();
            assert(ops@ =~= Seq::<u64>::empty().push(op_id));
            assert(list_m(terms@).add(ops@.to_multiset()) =~= m0);
            if !old(st).options.enable_optional_syntax {
                lemma_plain_list2(lhs, rhs);
                assert(terms@ == seq![lhs, rhs]);
            }
            if st.errors@.len() == 0 {
                lemma_complete_list2(lhs, rhs);
                assert(terms@ == seq![lhs, rhs]);
            }
            if unescaped(*st) {
                lemma_ident_fields_list2(lhs, rhs);
                assert(terms@ == seq![lhs, rhs]);
            }
        }
        loop
            invariant
                wf(*st),
                steps(*old(st), *st, 0),
                1 <= prec <= 2,
                min_prec <= prec,
                1 <= min_prec <= 6,
                op.kind != TokenKind::Eof,
                terms@.len() == ops@.len() + 1,
                ops@.len() >= 1,
                st.peek.start > p0,
                tree_ok(list_m(terms@).add(ops@.to_multiset()), *old(st), *st),
                plain_all(*old(st), terms@),
                done_all(*st, terms@),
                fields_all(*st, terms@),
                binary_op_spec(op.kind) matches Some((p, f)) && f == func@,
            ensures
                wf(*st),
                steps(*old(st), *st, 0),
                terms@.len() == ops@.len() + 1,
                ops@.len() >= 1,
                st.peek.start > p0,
                tree_ok(list_m(terms@).add(ops@.to_multiset()), *old(st), *st),
                plain_all(*old(st), terms@),
                done_all(*st, terms@),
                fields_all(*st, terms@),
            decreases st.src@.len() - st.peek.start,
        {
            let next = match eat(st, op.kind) {
                Some(t) => t,
                None => break,
            };
            let ghost s4 = *st;
            let ghost m = list_m(terms@).add(ops@.to_multiset());
            let rhs = binary(st, prec + 1)?;
            let ghost s5 = *st;
            let id = new_id(st, next);
            proof {
                broadcast use vstd::multiset::group_multiset_axioms, vstd::seq_lib::group_to_multiset_ensures;
                lemma_tree_seq(m, ids_m(rhs), *old(st), s4, s4, s5);
                lemma_tree_seq(m.add(ids_m(rhs)), Multiset::singleton(id), *old(st), s5, s5, *st);
                lemma_list_m_push(terms@, rhs);
            }
            let ghost ops0 = ops@;
            let ghost terms0 = terms@;
            ops.push(id);
            terms.push(rhs);
            proof {
                if st.errors@.len() == 0 {
                    lemma_complete_push(terms0, rhs);
                }
                if unescaped(*st) {
                    lemma_ident_fields_push(terms0, rhs);
                }
                if !old(st).options.enable_optional_syntax {
                    lemma_plain_list(terms0);
                    lemma_plain_list(terms@);
                    assert forall|i: int| 0 <= i < terms@.len() implies plain(#[trigger] terms@[i]) by {
                        if i < terms0.len() {
                            assert(terms@[i] == terms0[i]);
                        }
                    }
                }
                broadcast use vstd::multiset::group_multiset_axioms, vstd::seq_lib::group_to_multiset_ensures;
                assert(ops@ == ops0.push(id));
                assert(list_m(terms@).add(ops@.to_multiset()) =~= m.add(ids_m(rhs)).add(Multiset::singleton(id)));
            }
        }
        lhs = balanced_tree(func, terms, ops);
    }
    Ok(lhs)
}

/// `e` is the balanced tree of calls of `func` over `terms` joined by the
/// operator ids `ops`: a lone term stands for itself; otherwise the middle
/// operator `ops[n / 2]` (of `n`) is the root, applied to the tree of the
/// terms and operators on its left and then to that of those on its right.
/// Read in order, its leaves are `terms` and its call ids are `ops`.
pub open spec fn is_balanced(e: IdedExpr, func: Seq<char>, terms: Seq<IdedExpr>, ops: Seq<u64>) -> bool
    decreases ops.len(),
{
    if ops.len() == 0 {
        terms.len() == 1 && e == terms[0]
    } else {
        let mid: int = (ops.len() / 2) as int;
        &&& terms.len() == ops.len() + 1
        &&& e.id == ops[mid]
        &&& e.expr matches Expr::Call(c) && c.func_name@ == func && c.target is None && c.args@.len() == 2
            && is_balanced(c.args@[0], func, terms.take(mid + 1), ops.take(mid))
            && is_balanced(c.args@[1], func, terms.skip(mid + 1), ops.skip(mid + 1))
    }
}

/// Folds `terms`, joined by the operators numbered `ops`, into a balanced
/// tree of calls of `func`.
fn balanced_tree(func: &str, terms: Vec<IdedExpr>, ops: Vec<u64>) -> (e: IdedExpr)
    requires
        terms@.len() == ops@.len() + 1,
        ops@.len() >= 1,
    ensures
        is_balanced(e, func@, terms@, ops@),
        ids_m(e) =~= list_m(terms@).add(ops@.to_multiset()),
        !optional_func(func@) && plain_list(terms@) ==> plain(e),
        complete_list(terms@) ==> complete(e),
        ident_fields_list(terms@) ==> ident_fields(e),
    decreases ops@.len(),
{
    let ghost t0 = terms@;
    let ghost o0 = ops@;
    let n = ops.len();
    let mid = n / 2;
    let mut left_terms = terms;
    let mut right_terms = left_terms.split_off(mid + 1);
    let mut left_ops = ops;
    let mut right_ops = left_ops.split_off(mid);
    let ghost rall = right_ops@;
    let root = right_ops.remove(0);
    proof {
        broadcast use vstd::multiset::group_multiset_axioms;
        assert(t0 =~= left_terms@ + right_terms@);
        lemma_list_m_concat(left_terms@, right_terms@);
        assert(o0 =~= left_ops@ + rall);
        assert(rall =~= seq![root] + right_ops@);
        vstd::seq_lib::lemma_multiset_commutative(left_ops@, rall);
        vstd::seq_lib::lemma_multiset_commutative(seq![root], right_ops@);
        assert(seq![root] =~= Seq::<u64>::empty().push(root));
        lemma_empty_m();
        vstd::seq_lib::to_multiset_build(Seq::<u64>::empty(), root);
    }
    let ghost lt = left_terms@;
    let ghost rt = right_terms@;
    let ghost lo = left_ops@;
    let ghost ro = right_ops@;

    let left = if mid == 0 {
        match left_terms.pop() {
            Some(t) => t,
            None => IdedExpr::default(),
        }
    } else {
        balanced_tree(func, left_terms, left_ops)
    };
    let right = if mid == n - 1 {
        match right_terms.pop() {
            Some(t) => t,
            None => IdedExpr::default(),
        }
    } else {
        balanced_tree(func, right_terms, right_ops)
    };
    let e = call(root, func, vec![left, right]);
    assert(is_balanced(e, func@, t0, o0)) by {
        assert(lt =~= t0.take(mid + 1));
        assert(rt =~= t0.skip(mid + 1));
        assert(lo =~= o0.take(mid as int));
        assert(ro =~= o0.skip(mid + 1));
        assert(root == o0[mid as int]);
        if mid == 0 {
            assert(lt =~= seq![left]);
        }
        if mid == n - 1 {
            assert(rt =~= seq![right]);
        }
        assert(is_balanced(left, func@, lt, lo));
        assert(is_balanced(right, func@, rt, ro));
        let c = e.expr->Call_0;
        assert(c.args@[0] == left && c.args@[1] == right);
    }
    proof {
        broadcast use vstd::multiset::group_multiset_axioms;
        crate::common::ast::lemma_list_m2(left, right);
        if mid == 0 {
            assert(lt =~= seq![left]);
            crate::common::ast::lemma_list_m1(left);
            assert(lo =~= Seq::<u64>::empty());
        }
        if mid == n - 1 {
            assert(rt =~= seq![right]);
            crate::common::ast::lemma_list_m1(right);
            assert(ro =~= Seq::<u64>::empty());
        }
        assert(ids_m(left) =~= list_m(lt).add(lo.to_multiset()));
        assert(ids_m(right) =~= list_m(rt).add(ro.to_multiset()));
        assert(ids_m(e) =~= list_m(t0).add(o0.to_multiset()));
        if !optional_func(func@) && plain_list(t0) {
            lemma_plain_list(t0);
            lemma_plain_list(lt);
            lemma_plain_list(rt);
            assert forall|i: int| 0 <= i < lt.len() implies plain(#[trigger] lt[i]) by {
                assert(lt[i] == t0[i]);
            }
            assert forall|i: int| 0 <= i < rt.len() implies plain(#[trigger] rt[i]) by {
                assert(rt[i] == t0[i + lt.len()]);
            }
            if mid == 0 {
                assert(plain(lt[0]));
            }
            if mid == n - 1 {
                assert(plain(rt[0]));
            }
            lemma_plain_list2(left, right);
        }
        if complete_list(t0) {
            lemma_complete_list(t0);
            lemma_complete_list(lt);
            lemma_complete_list(rt);
            assert forall|i: int| 0 <= i < lt.len() implies complete(#[trigger] lt[i]) by {
                assert(lt[i] == t0[i]);
            }
            assert forall|i: int| 0 <= i < rt.len() implies complete(#[trigger] rt[i]) by {
                assert(rt[i] == t0[i + lt.len()]);
            }
            if mid == 0 {
                assert(complete(lt[0]));
            }
            if mid == n - 1 {
                assert(complete(rt[0]));
            }
            lemma_complete_list2(left, right);
        }
        if ident_fields_list(t0) {
            lemma_ident_fields_list(t0);
            lemma_ident_fields_list(lt);
            lemma_ident_fields_list(rt);
            assert forall|i: int| 0 <= i < lt.len() implies ident_fields(#[trigger] lt[i]) by {
                assert(lt[i] == t0[i]);
            }
            assert forall|i: int| 0 <= i < rt.len() implies ident_fields(#[trigger] rt[i]) by {
                assert(rt[i] == t0[i + lt.len()]);
            }
            if mid == 0 {
                assert(ident_fields(lt[0]));
            }
            if mid == n - 1 {
                assert(ident_fields(rt[0]));
            }
            lemma_ident_fields_list2(left, right);
        }
    }
    e
}

/// `unary : member | '!'+ member | '-'+ member`
fn unary(st: &mut State) -> (r: Result<IdedExpr, PErr>)
    requires
        wf(*old(st)),
    ensures
        wf(*final(st)),
        steps(*old(st), *final(st), 0),
        err_ok(r, *final(st)),
        r matches Ok(e) ==> tree_ok(ids_m(e), *old(st), *final(st)),
        r matches Ok(e) ==> plain_ok(*old(st), e),
        r matches Ok(e) ==> done_ok(*final(st), e),
        r matches Ok(e) ==> fields_ok(*final(st), e),
    decreases old(st).options.max_recursion_depth + 1 - old(st).depth, 10int,
{
    let k = st.peek.kind;
    if k == TokenKind::Exclam || k == TokenKind::Minus {
        let first = advance(st);
        let mut count: usize = 1;
        while eat(st, k).is_some()
            invariant
                wf(*st),
                steps(*old(st), *st, 0),
                k != TokenKind::Eof,
                first == old(st).peek,
                1 <= count <= st.peek.start - old(st).peek.start,
                st.next_id == old(st).next_id,
            decreases st.src@.len() - st.peek.start,
        {
            count = count + 1;
        }
        if k == TokenKind::Minus && count == 1 {
            if st.peek.kind == TokenKind::Int {
                let literal = int_literal(st, true)?;
                return member_tail(st, literal, Ghost(*old(st)));
            } else if st.peek.kind == TokenKind::Float {
                let literal = double_literal(st, true)?;
                return member_tail(st, literal, Ghost(*old(st)));
            }
        }
        let func = if k == TokenKind::Exclam { "!_" } else { "-_" };
        prefixed(st, first, count, func)
    } else {
        member(st)
    }
}

/// A run of `count` identical prefix operators: an even run cancels out and
/// gets no id; an odd run is one call, numbered from its first operator.
fn prefixed(st: &mut State, first: Token, count: usize, func: &str) -> (r: Result<IdedExpr, PErr>)
    requires
        func@ == "!_"@ || func@ == "-_"@,
        wf(*old(st)),
        first.start <= first.end <= old(st).src@.len(),
        old(st).next_id + 1 <= 4 * old(st).peek.start + 1,
    ensures
        wf(*final(st)),
        steps(*old(st), *final(st), 1),
        err_ok(r, *final(st)),
        r matches Ok(e) ==> tree_ok(ids_m(e), *old(st), *final(st)),
        r matches Ok(e) ==> plain_ok(*old(st), e),
        r matches Ok(e) ==> done_ok(*final(st), e),
        r matches Ok(e) ==> fields_ok(*final(st), e),
    decreases old(st).options.max_recursion_depth + 1 - old(st).depth, 9int,
{
    if count % 2 == 0 {
        return member(st);
    }
    let op_id = new_id(st, first);
    let ghost s1 = *st;
    let target = member(st)?;
    let args = vec![target];
    assert(args@ =~= seq![target]);
    let e = call(op_id, func, args);
    proof {
        broadcast use vstd::multiset::group_multiset_axioms;
        crate::common::ast::lemma_list_m1(target);
        lemma_tree_seq(Multiset::singleton(op_id), ids_m(target), *old(st), s1, s1, *st);
        assert(ids_m(e) =~= Multiset::singleton(op_id).add(ids_m(target)));
        if !old(st).options.enable_optional_syntax {
            lemma_operator_names();
            lemma_plain_list1(target);
        }
        if st.errors@.len() == 0 {
            lemma_complete_list1(target);
        }
        if unescaped(*st) {
            lemma_ident_fields_list1(target);
        }
    }
    Ok(e)
}

/// ```text
/// member : primary
///        | member '.' '?'? escapeIdent
///        | member '.' IDENTIFIER '(' exprList? ')'
///        | member '[' '?'? expr ']'
/// ```
fn member(st: &mut State) -> (r: Result<IdedExpr, PErr>)
    requires
        wf(*old(st)),
    ensures
        wf(*final(st)),
        steps(*old(st), *final(st), 0),
        err_ok(r, *final(st)),
        r matches Ok(e) ==> tree_ok(ids_m(e), *old(st), *final(st)),
        r matches Ok(e) ==> plain_ok(*old(st), e),
        r matches Ok(e) ==> done_ok(*final(st), e),
        r matches Ok(e) ==> fields_ok(*final(st), e),
    decreases old(st).options.max_recursion_depth + 1 - old(st).depth, 8int,
{
    if st.peek.kind == TokenKind::Dot || st.peek.kind == TokenKind::Ident {
        return dotted(st);
    }
    let lhs = primary(st)?;
    member_tail(st, lhs, Ghost(*old(st)))
}

/// The `'.'? IDENTIFIER …` alternatives of `primary` with the selections
/// that follow: an identifier, a global call, a selection chain, or, when
/// a `{` follows the dotted name, a message literal. The parts of the name
/// are held back until that is known, since a message name gets no ids.
fn dotted(st: &mut State) -> (r: Result<IdedExpr, PErr>)
    requires
        wf(*old(st)),
    ensures
        wf(*final(st)),
        steps(*old(st), *final(st), 0),
        err_ok(r, *final(st)),
        r matches Ok(e) ==> tree_ok(ids_m(e), *old(st), *final(st)),
        r matches Ok(e) ==> plain_ok(*old(st), e),
        r matches Ok(e) ==> done_ok(*final(st), e),
        r matches Ok(e) ==> fields_ok(*final(st), e),
    decreases old(st).options.max_recursion_depth + 1 - old(st).depth, 6int,
{
    let leading_dot = eat(st, TokenKind::Dot).is_some();
    let head = expect(st, TokenKind::Ident)?;
    if st.peek.kind == TokenKind::LParen {
        if is_reserved_id(st.src.as_slice(), head.start, head.end) {
            let mut msg = crate::text::to_string("reserved identifier: ");
            let raw = text(st, head);
            push_str(&mut msg, raw.as_str());
            report_at(st, head, msg);
        }
        let name = qualified(st, leading_dot, head);
        let open = advance(st);
        let ghost s1 = *st;
        let op_id = new_id(st, open);
        let ghost s2 = *st;
        let args = arguments(st)?;
        let ghost big = Multiset::singleton(op_id).add(list_m(args@));
        proof {
            broadcast use vstd::multiset::group_multiset_axioms;
            lemma_tree_seq(Multiset::singleton(op_id), list_m(args@), *old(st), s2, s2, *st);
        }
        let lhs = match find_macro(name.as_str(), false, args.len()) {
            Some(m) => {
                proof {
                    crate::parser::macros::lemma_expansion_fits(name@, false, args@.len() as nat);
                }
                expand(st, m, None, args, open, Ghost(big), Ghost(*old(st)))
            },
            None => {
                proof {
                    lemma_ident_name(st.src@, leading_dot, head);
                }
                let lhs = call_on(op_id, name, None, args);
                proof {
                    broadcast use vstd::multiset::group_multiset_axioms;
                    assert(ids_m(lhs) =~= big);
                }
                lhs
            },
        };
        return member_tail(st, lhs, Ghost(*old(st)));
    }
    let mut parts: Vec<(Token, Token)> = Vec::new();
    loop
        invariant
            wf(*st),
            steps(*old(st), *st, 0),
            head.start <= head.end <= st.src@.len(),
            st.next_id == old(st).next_id,
            st.peek.start >= old(st).peek.start + 1 + 2 * parts@.len(),
            old(st).next_id <= 4 * old(st).peek.start + 1,
            parts_ok(parts@, st.src@.len() as int),
            forall|j: int| 0 <= j < parts@.len() ==> (#[trigger] parts@[j]).1.start < parts@[j].1.end && ident_chars(st.src@, parts@[j].1),
        decreases st.src@.len() - st.peek.start,
    {
        if st.peek.kind == TokenKind::Dot {
            let dot = advance(st);
            if st.peek.kind != TokenKind::Ident {
                let lhs = select_chain(st, leading_dot, head, &parts);
                let lhs = after_dot(st, lhs, dot, Ghost(*old(st)))?;
                return member_tail(st, lhs, Ghost(*old(st)));
            }
            let ident = advance(st);
            if st.peek.kind == TokenKind::LParen {
                let target = select_chain(st, leading_dot, head, &parts);
                let lhs = member_call(st, target, ident, Ghost(*old(st)))?;
                return member_tail(st, lhs, Ghost(*old(st)));
            }
            parts.push((dot, ident));
        } else if st.peek.kind == TokenKind::LBrace {
            let name = message_name(st, leading_dot, head, &parts);
            let lhs = message(st, name)?;
            return member_tail(st, lhs, Ghost(*old(st)));
        } else {
            let lhs = select_chain(st, leading_dot, head, &parts);
            return member_tail(st, lhs, Ghost(*old(st)));
        }
    }
}

/// The `'.'` and `'['` alternatives of `member`, applied to `lhs` for as
/// long as they follow.
fn member_tail(st: &mut State, lhs: IdedExpr, Ghost(start): Ghost<State>) -> (r: Result<IdedExpr, PErr>)
    requires
        fields_ok(*old(st), lhs),
        done_ok(*old(st), lhs),
        plain_ok(*old(st), lhs),
        wf(*old(st)),
        tree_ok(ids_m(lhs), start, *old(st)),
        start.next_id <= old(st).next_id,
    ensures
        wf(*final(st)),
        steps(*old(st), *final(st), 0),
        err_ok(r, *final(st)),
        r matches Ok(e) ==> tree_ok(ids_m(e), start, *final(st)),
        r matches Ok(e) ==> plain_ok(*old(st), e),
        r matches Ok(e) ==> done_ok(*final(st), e),
        r matches Ok(e) ==> fields_ok(*final(st), e),
        old(st).peek.kind != TokenKind::Dot && old(st).peek.kind != TokenKind::LBracket ==> r == Ok::<IdedExpr, PErr>(lhs),
        old(st).peek.kind == TokenKind::Dot || old(st).peek.kind == TokenKind::LBracket
            ==> (r matches Ok(e) ==> applied_to(e, lhs) || final(st).errors@.len() > old(st).errors@.len()),
    decreases old(st).options.max_recursion_depth + 1 - old(st).depth, 5int,
{
    let ghost mut first = true;
    let mut cur = lhs;
    loop
        invariant
            wf(*st),
            steps(*old(st), *st, 0),
            tree_ok(ids_m(cur), start, *st),
            start.next_id <= old(st).next_id,
            plain_ok(*old(st), cur),
            done_ok(*st, cur),
            fields_ok(*st, cur),
            first ==> cur == lhs && *st == *old(st),
            !first ==> old(st).peek.kind == TokenKind::Dot || old(st).peek.kind == TokenKind::LBracket,
            !first ==> applied_to(cur, lhs) || st.errors@.len() > old(st).errors@.len(),
        decreases st.src@.len() - st.peek.start,
    {
        if st.peek.kind == TokenKind::Dot {
            let ghost s0 = *st;
            let ghost prev = cur;
            let dot = advance(st);
            proof { lemma_tree_widen(ids_m(cur), start, s0, start, *st); }
            cur = after_dot(st, cur, dot, Ghost(start))?;
            proof {
                if applied_to(cur, prev) && !first && applied_to(prev, lhs) {
                    lemma_applied_trans(cur, prev, lhs);
                }
                first = false;
            }
        } else if st.peek.kind == TokenKind::LBracket {
            let ghost s0 = *st;
            let open = advance(st);
            let ghost s1 = *st;
            let op_id = new_id(st, open);
            let ghost s2 = *st;
            let optional = eat(st, TokenKind::Question);
            let ghost s3 = *st;
            let index = expr(st)?;
            let ghost s4 = *st;
            expect_close(st, TokenKind::RBracket)?;
            let func = match optional {
                Some(_) => if st.options.enable_optional_syntax {
                    "_[?_]"
                } else {
                    report_at(st, open, crate::text::to_string("unsupported syntax '[?'"));
                    "_[_]"
                },
                None => "_[_]",
            };
            let e = call(op_id, func, vec![cur, index]);
            proof {
                broadcast use vstd::multiset::group_multiset_axioms;
                crate::common::ast::lemma_list_m2(cur, index);
                lemma_tree_widen(ids_m(cur), start, s0, start, s1);
                lemma_tree_seq(ids_m(cur), Multiset::singleton(op_id), start, s1, s1, s2);
                lemma_tree_seq(ids_m(cur).add(Multiset::singleton(op_id)), ids_m(index), start, s2, s3, s4);
                lemma_tree_widen(ids_m(cur).add(Multiset::singleton(op_id)).add(ids_m(index)), start, s4, start, *st);
                assert(ids_m(e) =~= ids_m(cur).add(Multiset::singleton(op_id)).add(ids_m(index)));
                if !old(st).options.enable_optional_syntax {
                    lemma_operator_names();
                    assert(func@ == "_[_]"@);
                    lemma_plain_list2(cur, index);
                }
                if st.errors@.len() == 0 {
                    lemma_complete_list2(cur, index);
                }
                assert(e.expr matches Expr::Call(c) && c.target is None && c.args@ == seq![cur, index]);
                assert(applied_to(e, cur));
                if !first && applied_to(cur, lhs) {
                    lemma_applied_trans(e, cur, lhs);
                }
                first = false;
                if unescaped(*st) {
                    lemma_ident_fields_list2(cur, index);
                }
            }
            cur = e;
        } else {
            return Ok(cur);
        }
    }
}

/// What may follow `member '.'`: `'?'? escapeIdent` or
/// `IDENTIFIER '(' exprList? ')'`.
fn after_dot(st: &mut State, lhs: IdedExpr, dot: Token, Ghost(start): Ghost<State>) -> (r: Result<IdedExpr, PErr>)
    requires
        fields_ok(*old(st), lhs),
        done_ok(*old(st), lhs),
        plain_ok(*old(st), lhs),
        wf(*old(st)),
        dot.start <= dot.end <= old(st).src@.len(),
        tree_ok(ids_m(lhs), start, *old(st)),
        start.next_id <= old(st).next_id,
    ensures
        wf(*final(st)),
        steps(*old(st), *final(st), 0),
        err_ok(r, *final(st)),
        r matches Ok(e) ==> tree_ok(ids_m(e), start, *final(st)),
        r matches Ok(e) ==> plain_ok(*old(st), e),
        r matches Ok(e) ==> done_ok(*final(st), e),
        r matches Ok(e) ==> fields_ok(*final(st), e),
        r matches Ok(e) ==> applied_to(e, lhs) || final(st).errors@.len() > old(st).errors@.len(),
    decreases old(st).options.max_recursion_depth + 1 - old(st).depth, 4int,
{
    let optional = eat(st, TokenKind::Question);
    if st.peek.kind == TokenKind::Ident {
        let ident = advance(st);
        proof { lemma_tree_widen(ids_m(lhs), start, *old(st), start, *st); }
        if optional.is_none() && st.peek.kind == TokenKind::LParen {
            member_call(st, lhs, ident, Ghost(start))
        } else {
            let field = text(st, ident);
            Ok(select(st, lhs, dot, optional.is_some(), field, Ghost(start)))
        }
    } else if st.peek.kind == TokenKind::EscIdent {
        let ident = advance(st);
        let field = escaped_ident(st, ident, dot);
        proof { lemma_tree_widen(ids_m(lhs), start, *old(st), start, *st); }
        Ok(select(st, lhs, dot, optional.is_some(), field, Ghost(start)))
    } else {
        Err(PErr::Syntax { tok: st.peek, expecting: "identifier" })
    }
}

/// Expands the macro `m`, called on `target` with `args`, whose `(` is
/// `open`: into a comprehension, or for `has` into a presence test, with
/// new ids spanning `open`. When the arguments do not fit the macro, the
/// error is reported and the placeholder stands for the call.
fn expand(
    st: &mut State,
    m: Macro,
    target: Option<IdedExpr>,
    args: Vec<IdedExpr>,
    open: Token,
    Ghost(big): Ghost<Multiset<u64>>,
    Ghost(start): Ghost<State>,
) -> (e: IdedExpr)
    requires
        fields_all(*old(st), args@),
        unescaped(*old(st)) ==> match target { Some(t) => ident_fields(t), None => true },
        done_all(*old(st), args@),
        old(st).errors@.len() == 0 ==> match target { Some(t) => complete(t), None => true },
        plain_all(*old(st), args@),
        !old(st).options.enable_optional_syntax ==> match target { Some(t) => plain(t), None => true },
        wf(*old(st)),
        open.start <= open.end <= old(st).src@.len(),
        old(st).next_id + expansion_size(m) <= 4 * old(st).peek.start + 1,
        tree_ok(big, start, *old(st)),
        start.next_id <= old(st).next_id,
        forall|x: u64| #[trigger] big.count(x) >= opt_m(target).count(x) + list_m(args@).count(x),
        m == Macro::Has ==> target is None && args@.len() == 1,
        m != Macro::Has ==> target is Some && args@.len() == (if m == Macro::MappingFiltered { 3int } else { 2int }),
    ensures
        wf(*final(st)),
        steps(*old(st), *final(st), expansion_size(m) as int),
        final(st).peek == old(st).peek,
        final(st).aborted == old(st).aborted,
        tree_ok(ids_m(e), start, *final(st)),
        plain_ok(*old(st), e),
        done_ok(*final(st), e),
        fields_ok(*final(st), e),
        target is Some ==> (e.expr is Comprehension && crate::parser::macros::comp(e).iter_range == target->Some_0)
            || (e.expr is Unspecified && final(st).errors@.len() > old(st).errors@.len()),
{
    broadcast use vstd::multiset::group_multiset_axioms;
    let ghost a0 = args@;
    let mut args = args;
    if m == Macro::Has {
        let arg = match args.pop() {
            Some(a) => a,
            None => IdedExpr::default(),
        };
        proof {
            assert(a0 =~= seq![arg]);
            crate::common::ast::lemma_list_m1(arg);
            lemma_ids_m(arg);
            if !old(st).options.enable_optional_syntax {
                lemma_plain_list(a0);
                assert(plain(a0[0]));
            }
            if old(st).errors@.len() == 0 {
                lemma_complete_list(a0);
                assert(complete(a0[0]));
            }
            if unescaped(*old(st)) {
                lemma_ident_fields_list(a0);
                assert(ident_fields(a0[0]));
            }
        }
        let aid = arg.id;
        match arg.expr {
            Expr::Select(sel) => {
                let ghost operand = *sel.operand;
                let b = st.next_id;
                new_ids(st, open, 1);
                let e = crate::parser::macros::expand_has(b, *sel.operand, sel.field);
                proof {
                    lemma_tree_expand(big, ids_m(operand), ids_m(e), 1, start, *old(st), *st);
                }
                e
            },
            _ => {
                report_at_id(st, aid, open, crate::text::to_string("invalid argument to has() macro"));
                let e = IdedExpr::default();
                proof { lemma_tree_placeholder(e, start, *st); }
                e
            },
        }
    } else {
        let target = match target {
            Some(t) => t,
            None => IdedExpr::default(),
        };
        let third = if m == Macro::MappingFiltered { args.pop() } else { None };
        let second = match args.pop() {
            Some(a) => a,
            None => IdedExpr::default(),
        };
        let first = match args.pop() {
            Some(a) => a,
            None => IdedExpr::default(),
        };
        let var = match &first.expr {
            Expr::Ident(name) => Some(crate::text::to_string(name.as_str())),
            _ => None,
        };
        match var {
            None => {
                report_at_id(st, first.id, open, crate::text::to_string("argument must be a simple name"));
                let e = IdedExpr::default();
                proof { lemma_tree_placeholder(e, start, *st); }
                e
            },
            Some(var) => {
                let b = st.next_id;
                let k = size_of_expansion(m);
                new_ids(st, open, k);
                let ghost (gt, g1, g2) = (target, first, second);
                proof {
                    if m == Macro::MappingFiltered {
                        assert(a0 =~= seq![g1, g2, third->Some_0]);
                        crate::common::ast::lemma_list_m3(g1, g2, third->Some_0);
                    } else {
                        assert(a0 =~= seq![g1, g2]);
                        crate::common::ast::lemma_list_m2(g1, g2);
                    }
                    if !old(st).options.enable_optional_syntax {
                        lemma_plain_list(a0);
                        assert(plain(a0[0]) && plain(a0[1]));
                        if m == Macro::MappingFiltered {
                            assert(plain(a0[2]));
                        }
                    }
                    if old(st).errors@.len() == 0 {
                        lemma_complete_list(a0);
                        assert(complete(a0[0]) && complete(a0[1]));
                        if m == Macro::MappingFiltered {
                            assert(complete(a0[2]));
                        }
                    }
                    if unescaped(*old(st)) {
                        lemma_ident_fields_list(a0);
                        assert(ident_fields(a0[0]) && ident_fields(a0[1]));
                        if m == Macro::MappingFiltered {
                            assert(ident_fields(a0[2]));
                        }
                    }
                }
                let e = match m {
                    Macro::All => crate::parser::macros::expand_all(b, var, target, second),
                    Macro::Exists => crate::parser::macros::expand_exists(b, var, target, second),
                    Macro::ExistsOne => crate::parser::macros::expand_exists_one(b, var, target, second),
                    Macro::Mapping => crate::parser::macros::expand_map(b, var, target, second),
                    Macro::MappingFiltered => {
                        let f = match third {
                            Some(f) => f,
                            None => IdedExpr::default(),
                        };
                        crate::parser::macros::expand_map_filter(b, var, target, second, f)
                    },
                    _ => crate::parser::macros::expand_filter(b, var, target, second, first),
                };
                proof {
                    let small = if m == Macro::MappingFiltered {
                        ids_m(gt).add(ids_m(g2)).add(ids_m(third->Some_0))
                    } else if m == Macro::Filter {
                        ids_m(gt).add(ids_m(g2)).add(ids_m(g1))
                    } else {
                        ids_m(gt).add(ids_m(g2))
                    };
                    lemma_tree_expand(big, small, ids_m(e), k as int, start, *old(st), *st);
                }
                e
            },
        }
    }
}

/// `'(' exprList? ')'` after `member '.' IDENTIFIER`: a call of the
/// method `ident` on `target`, or the expansion of the macro it names.
/// The characters of `ident` were consumed without an id and pay for the
/// ids of an expansion.
fn member_call(st: &mut State, target: IdedExpr, ident: Token, Ghost(start): Ghost<State>) -> (r: Result<IdedExpr, PErr>)
    requires
        fields_ok(*old(st), target),
        done_ok(*old(st), target),
        ident_chars(old(st).src@, ident),
        plain_ok(*old(st), target),
        wf(*old(st)),
        ident.start <= ident.end <= old(st).peek.start,
        old(st).next_id + 4 * (ident.end - ident.start) <= 4 * old(st).peek.start + 1,
        tree_ok(ids_m(target), start, *old(st)),
        start.next_id <= old(st).next_id,
    ensures
        wf(*final(st)),
        steps(*old(st), *final(st), 4 * (ident.end - ident.start)),
        err_ok(r, *final(st)),
        r matches Ok(e) ==> tree_ok(ids_m(e), start, *final(st)),
        r matches Ok(e) ==> plain_ok(*old(st), e),
        r matches Ok(e) ==> done_ok(*final(st), e),
        r matches Ok(e) ==> fields_ok(*final(st), e),
        r matches Ok(e) ==> (e.expr matches Expr::Call(c) && c.target == Some(Box::new(target))
            && c.func_name@ == old(st).src@.subrange(ident.start as int, ident.end as int)
            && macro_of(c.func_name@, true, c.args@.len()) is None)
            || (e.expr is Comprehension && crate::parser::macros::comp(e).iter_range == target)
            || (e.expr is Unspecified && final(st).errors@.len() > old(st).errors@.len()),
        r matches Ok(e) ==> applied_to(e, target) || final(st).errors@.len() > old(st).errors@.len(),
    decreases old(st).options.max_recursion_depth + 1 - old(st).depth, 3int,
{
    let open = expect(st, TokenKind::LParen)?;
    let ghost s1 = *st;
    let op_id = new_id(st, open);
    let ghost s2 = *st;
    let args = arguments(st)?;
    let func_name = text(st, ident);
    let ghost big = ids_m(target).add(Multiset::singleton(op_id)).add(list_m(args@));
    proof {
        broadcast use vstd::multiset::group_multiset_axioms;
        lemma_tree_widen(ids_m(target), start, *old(st), start, s1);
        lemma_tree_seq(ids_m(target), Multiset::singleton(op_id), start, s1, s1, s2);
        lemma_tree_seq(ids_m(target).add(Multiset::singleton(op_id)), list_m(args@), start, s2, s2, *st);
    }
    match find_macro(func_name.as_str(), true, args.len()) {
        Some(m) => {
            proof {
                crate::parser::macros::lemma_expansion_fits(func_name@, true, args@.len() as nat);
            }
            let e = expand(st, m, Some(target), args, open, Ghost(big), Ghost(start));
            Ok(e)
        },
        None => {
            proof {
                lemma_ident_name(st.src@, false, ident);
                assert(seq![] + st.src@.subrange(ident.start as int, ident.end as int) =~= func_name@);
            }
            let e = call_on(op_id, func_name, Some(target), args);
            proof {
                broadcast use vstd::multiset::group_multiset_axioms;
                assert(ids_m(e) =~= big);
            }
            Ok(e)
        },
    }
}

/// `exprList? ')'` with the `(` consumed: `exprList : expr (',' expr)*`,
/// without a trailing comma.
fn arguments(st: &mut State) -> (r: Result<Vec<IdedExpr>, PErr>)
    requires
        wf(*old(st)),
    ensures
        wf(*final(st)),
        steps(*old(st), *final(st), 0),
        err_ok(r, *final(st)),
        r matches Ok(v) ==> tree_ok(list_m(v@), *old(st), *final(st)),
        r matches Ok(v) ==> plain_all(*old(st), v@),
        r matches Ok(v) ==> done_all(*final(st), v@),
        r matches Ok(v) ==> fields_all(*final(st), v@),
    decreases old(st).options.max_recursion_depth + 1 - old(st).depth, 2int,
{
    let mut args: Vec<IdedExpr> = Vec::new();
    proof {
        lemma_list_m_empty();
        lemma_tree_empty(*old(st), *st);
    }
    if st.peek.kind != TokenKind::RParen && st.peek.kind != TokenKind::Eof {
        loop
            invariant
                wf(*st),
                steps(*old(st), *st, 0),
                tree_ok(list_m(args@), *old(st), *st),
                plain_all(*old(st), args@),
                done_all(*st, args@),
                fields_all(*st, args@),
            ensures
                wf(*st),
                steps(*old(st), *st, 0),
                tree_ok(list_m(args@), *old(st), *st),
                plain_all(*old(st), args@),
                done_all(*st, args@),
                fields_all(*st, args@),
            decreases st.src@.len() - st.peek.start,
        {
            let ghost s0 = *st;
            let arg = recover_expr(st)?;
            proof {
                lemma_tree_seq(list_m(args@), ids_m(arg), *old(st), s0, s0, *st);
                lemma_list_m_push(args@, arg);
            }
            let ghost args0 = args@;
            args.push(arg);
            proof {
                if st.errors@.len() == 0 {
                    lemma_complete_push(args0, arg);
                }
                if unescaped(*st) {
                    lemma_ident_fields_push(args0, arg);
                }
                if !old(st).options.enable_optional_syntax {
                    lemma_plain_list(args0);
                    lemma_plain_list(args@);
                    assert forall|i: int| 0 <= i < args@.len() implies plain(#[trigger] args@[i]) by {
                        if i < args0.len() {
                            assert(args@[i] == args0[i]);
                        }
                    }
                }
            }
            let ghost s1 = *st;
            if eat(st, TokenKind::Comma).is_none() {
                break;
            }
            if st.peek.kind == TokenKind::RParen {
                recover_here(st, "expression")?;
                proof { lemma_tree_widen(list_m(args@), *old(st), s1, *old(st), *st); }
                break;
            }
            proof { lemma_tree_widen(list_m(args@), *old(st), s1, *old(st), *st); }
        }
    }
    let ghost s2 = *st;
    expect_close(st, TokenKind::RParen)?;
    proof { lemma_tree_widen(list_m(args@), *old(st), s2, *old(st), *st); }
    Ok(args)
}

/// ```text
/// primary : '(' expr ')'
///         | '[' listInit? ','? ']'
///         | '{' mapInitializerList? ','? '}'
///         | literal
/// ```
/// and the `'.'? IDENTIFIER …` alternatives, see [`dotted`].
fn primary(st: &mut State) -> (r: Result<IdedExpr, PErr>)
    requires
        wf(*old(st)),
    ensures
        wf(*final(st)),
        steps(*old(st), *final(st), 0),
        err_ok(r, *final(st)),
        r matches Ok(e) ==> tree_ok(ids_m(e), *old(st), *final(st)),
        r matches Ok(e) ==> plain_ok(*old(st), e),
        r matches Ok(e) ==> done_ok(*final(st), e),
        r matches Ok(e) ==> fields_ok(*final(st), e),
    decreases old(st).options.max_recursion_depth + 1 - old(st).depth, 7int,
{
    let tok = st.peek;
    match tok.kind {
        TokenKind::LParen => {
            advance(st);
            let ghost s1 = *st;
            let nested = expr(st)?;
            let ghost s2 = *st;
            expect_close(st, TokenKind::RParen)?;
            proof { lemma_tree_widen(ids_m(nested), s1, s2, *old(st), *st); }
            Ok(nested)
        },
        TokenKind::LBracket => list(st),
        TokenKind::LBrace => map(st),
        TokenKind::Dot | TokenKind::Ident => dotted(st),
        TokenKind::Minus => {
            advance(st);
            if st.peek.kind == TokenKind::Int {
                int_literal(st, true)
            } else if st.peek.kind == TokenKind::Float {
                double_literal(st, true)
            } else {
                Err(PErr::Syntax { tok: st.peek, expecting: "numeric literal" })
            }
        },
        TokenKind::Int => int_literal(st, false),
        TokenKind::Uint => uint_literal(st),
        TokenKind::Float => double_literal(st, false),
        TokenKind::String => string_literal(st),
        TokenKind::Bytes => bytes_literal(st),
        TokenKind::True | TokenKind::False | TokenKind::Null => {
            advance(st);
            let ghost s1 = *st;
            let id = new_id(st, tok);
            let value = if tok.kind == TokenKind::True {
                LiteralValue::Boolean(true)
            } else if tok.kind == TokenKind::False {
                LiteralValue::Boolean(false)
            } else {
                LiteralValue::Null
            };
            let e = leaf(id, Expr::Literal(value));
            Ok(e)
        },
        TokenKind::Error => {
            advance(st);
            let e = IdedExpr::default();
            proof { lemma_tree_placeholder(e, *old(st), *st); }
            Ok(e)
        },
        _ => Err(PErr::Syntax { tok, expecting: "expression" }),
    }
}

/// A literal: `tok` was consumed; `value` is its value, or `None` when it
/// is out of range, reported with `msg`.
fn literal_or_report(st: &mut State, tok: Token, value: Option<LiteralValue>, msg: &str) -> (e: IdedExpr)
    requires
        wf(*old(st)),
        old(st).next_id + 1 <= 4 * old(st).peek.start + 1,
        tok.start <= tok.end <= old(st).src@.len(),
    ensures
        wf(*final(st)),
        steps(*old(st), *final(st), 1),
        final(st).peek == old(st).peek,
        final(st).aborted == old(st).aborted,
        tree_ok(ids_m(e), *old(st), *final(st)),
        plain(e),
        done_ok(*final(st), e),
        fields_ok(*final(st), e),
{
    match value {
        Some(v) => {
            let id = new_id(st, tok);
            leaf(id, Expr::Literal(v))
        },
        None => {
            report_at(st, tok, crate::text::to_string(msg));
            let e = IdedExpr::default();
            proof { lemma_tree_placeholder(e, *old(st), *st); }
            e
        },
    }
}

fn int_literal(st: &mut State, negative: bool) -> (r: Result<IdedExpr, PErr>)
    requires
        wf(*old(st)),
    ensures
        wf(*final(st)),
        steps(*old(st), *final(st), 0),
        err_ok(r, *final(st)),
        r matches Ok(e) ==> tree_ok(ids_m(e), *old(st), *final(st)),
        r matches Ok(e) ==> plain(e),
        r matches Ok(e) ==> done_ok(*final(st), e),
        r matches Ok(e) ==> fields_ok(*final(st), e),
{
    let tok = expect(st, TokenKind::Int)?;
    let value = match int_value_exec(st.src.as_slice(), tok.start, tok.end, negative) {
        Some(v) => Some(LiteralValue::Int(v)),
        None => None,
    };
    Ok(literal_or_report(st, tok, value, "invalid int literal"))
}

fn uint_literal(st: &mut State) -> (r: Result<IdedExpr, PErr>)
    requires
        wf(*old(st)),
    ensures
        wf(*final(st)),
        steps(*old(st), *final(st), 0),
        err_ok(r, *final(st)),
        r matches Ok(e) ==> tree_ok(ids_m(e), *old(st), *final(st)),
        r matches Ok(e) ==> plain(e),
        r matches Ok(e) ==> done_ok(*final(st), e),
        r matches Ok(e) ==> fields_ok(*final(st), e),
{
    let tok = expect(st, TokenKind::Uint)?;
    let value = match uint_value_exec(st.src.as_slice(), tok.start, tok.end) {
        Some(v) => Some(LiteralValue::UInt(v)),
        None => None,
    };
    Ok(literal_or_report(st, tok, value, "invalid uint literal"))
}

/// A double literal keeps its text, with a minus sign when `negative`; one
/// whose number rounds to an infinite double is reported.
fn double_literal(st: &mut State, negative: bool) -> (r: Result<IdedExpr, PErr>)
    requires
        wf(*old(st)),
    ensures
        wf(*final(st)),
        steps(*old(st), *final(st), 0),
        err_ok(r, *final(st)),
        r matches Ok(e) ==> tree_ok(ids_m(e), *old(st), *final(st)),
        r matches Ok(e) ==> plain(e),
        r matches Ok(e) ==> done_ok(*final(st), e),
        r matches Ok(e) ==> fields_ok(*final(st), e),
{
    let tok = expect(st, TokenKind::Float)?;
    let digits = string_from(st.src.as_slice(), tok.start, tok.end);
    let cs = chars_of(digits.as_str());
    let finite = crate::parser::double::is_finite_double(cs.as_slice());
    let value = if finite {
        let mut t = String::new();
        if negative {
            push_char(&mut t, '-');
        }
        push_chars(&mut t, st.src.as_slice(), tok.start, tok.end);
        Some(LiteralValue::Double(t))
    } else {
        None
    };
    Ok(literal_or_report(st, tok, value, "invalid double literal"))
}

fn string_literal(st: &mut State) -> (r: Result<IdedExpr, PErr>)
    requires
        wf(*old(st)),
    ensures
        wf(*final(st)),
        steps(*old(st), *final(st), 0),
        err_ok(r, *final(st)),
        r matches Ok(e) ==> tree_ok(ids_m(e), *old(st), *final(st)),
        r matches Ok(e) ==> plain(e),
        r matches Ok(e) ==> done_ok(*final(st), e),
        r matches Ok(e) ==> fields_ok(*final(st), e),
{
    let tok = expect(st, TokenKind::String)?;
    let t = text(st, tok);
    match parse_string(t.as_str()) {
        Ok(v) => {
            let id = new_id(st, tok);
            Ok(leaf(id, Expr::Literal(LiteralValue::String(v))))
        },
        Err(e) => {
            let mut msg = crate::text::to_string("invalid string literal: ");
            let d = crate::parser::parse::error_message(&e);
            push_str(&mut msg, d.as_str());
            report_at(st, tok, msg);
            let e = IdedExpr::default();
            proof { lemma_tree_placeholder(e, *old(st), *st); }
            Ok(e)
        },
    }
}

fn bytes_literal(st: &mut State) -> (r: Result<IdedExpr, PErr>)
    requires
        wf(*old(st)),
    ensures
        wf(*final(st)),
        steps(*old(st), *final(st), 0),
        err_ok(r, *final(st)),
        r matches Ok(e) ==> tree_ok(ids_m(e), *old(st), *final(st)),
        r matches Ok(e) ==> plain(e),
        r matches Ok(e) ==> done_ok(*final(st), e),
        r matches Ok(e) ==> fields_ok(*final(st), e),
{
    let tok = expect(st, TokenKind::Bytes)?;
    let t = text(st, tok);
    match parse_bytes(t.as_str()) {
        Ok(v) => {
            let id = new_id(st, tok);
            Ok(leaf(id, Expr::Literal(LiteralValue::Bytes(v))))
        },
        Err(e) => {
            let mut msg = crate::text::to_string("invalid bytes literal: ");
            let d = crate::parser::parse::error_message(&e);
            push_str(&mut msg, d.as_str());
            report_at(st, tok, msg);
            let e = IdedExpr::default();
            proof { lemma_tree_placeholder(e, *old(st), *st); }
            Ok(e)
        },
    }
}

/// `'[' listInit? ','? ']'`: `listInit : optExpr (',' optExpr)*`,
/// `optExpr : '?'? expr`. `[,]` is an empty list.
fn list(st: &mut State) -> (r: Result<IdedExpr, PErr>)
    requires
        wf(*old(st)),
    ensures
        wf(*final(st)),
        steps(*old(st), *final(st), 0),
        err_ok(r, *final(st)),
        r matches Ok(e) ==> tree_ok(ids_m(e), *old(st), *final(st)),
        r matches Ok(e) ==> plain_ok(*old(st), e),
        r matches Ok(e) ==> done_ok(*final(st), e),
        r matches Ok(e) ==> fields_ok(*final(st), e),
    decreases old(st).options.max_recursion_depth + 1 - old(st).depth, 2int,
{
    let open = expect(st, TokenKind::LBracket)?;
    let ghost s1 = *st;
    let list_id = new_id(st, open);
    let ghost s2 = *st;
    let mut elements: Vec<IdedExpr> = Vec::new();
    let mut optional_indices: Vec<usize> = Vec::new();
    proof {
        lemma_list_m_empty();
        lemma_tree_empty(s2, *st);
        assert(steps(*old(st), s2, 0));
    }
    let k = st.peek.kind;
    if k == TokenKind::RBracket || k == TokenKind::Comma || k == TokenKind::Eof {
        let _ = eat(st, TokenKind::Comma);
        proof { lemma_tree_widen(list_m(elements@), s2, s2, s2, *st); }
    } else {
        loop
            invariant
                wf(*st),
                steps(*old(st), *st, 0),
                steps(s2, *st, 0),
                tree_ok(list_m(elements@), s2, *st),
                plain_all(*old(st), elements@),
                !old(st).options.enable_optional_syntax ==> optional_indices@.len() == 0,
                done_all(*st, elements@),
                fields_all(*st, elements@),
            ensures
                wf(*st),
                steps(*old(st), *st, 0),
                steps(s2, *st, 0),
                tree_ok(list_m(elements@), s2, *st),
                plain_all(*old(st), elements@),
                !old(st).options.enable_optional_syntax ==> optional_indices@.len() == 0,
                done_all(*st, elements@),
                fields_all(*st, elements@),
            decreases st.src@.len() - st.peek.start,
        {
            let optional = eat(st, TokenKind::Question);
            let ghost s3 = *st;
            let element = recover_expr(st)?;
            let ghost s4 = *st;
            match optional {
                Some(q) => {
                    if st.options.enable_optional_syntax {
                        optional_indices.push(elements.len());
                    } else {
                        report_at(st, q, crate::text::to_string("unsupported syntax '?'"));
                    }
                },
                None => {},
            }
            proof {
                lemma_tree_seq(list_m(elements@), ids_m(element), s2, s3, s3, *st);
                lemma_list_m_push(elements@, element);
            }
            let ghost elements0 = elements@;
            elements.push(element);
            proof {
                if st.errors@.len() == 0 {
                    lemma_complete_push(elements0, element);
                }
                if unescaped(*st) {
                    lemma_ident_fields_push(elements0, element);
                }
                if !old(st).options.enable_optional_syntax {
                    lemma_plain_list(elements0);
                    lemma_plain_list(elements@);
                    assert forall|i: int| 0 <= i < elements@.len() implies plain(#[trigger] elements@[i]) by {
                        if i < elements0.len() {
                            assert(elements@[i] == elements0[i]);
                        }
                    }
                }
            }
            let ghost s5 = *st;
            if eat(st, TokenKind::Comma).is_none() || st.peek.kind == TokenKind::RBracket {
                proof { lemma_tree_widen(list_m(elements@), s2, s5, s2, *st); }
                break;
            }
            proof { lemma_tree_widen(list_m(elements@), s2, s5, s2, *st); }
        }
    }
    let ghost s6 = *st;
    expect_close(st, TokenKind::RBracket)?;
    let e = IdedExpr { id: list_id, expr: Expr::List(ListExpr { elements, optional_indices }) };
    proof {
        broadcast use vstd::multiset::group_multiset_axioms;
        lemma_ids_m(e);
        lemma_tree_widen(list_m(elements@), s2, s6, s2, *st);
        lemma_tree_seq(Multiset::singleton(list_id), list_m(elements@), s1, s2, s2, *st);
        lemma_tree_widen(Multiset::singleton(list_id).add(list_m(elements@)), s1, *st, *old(st), *st);
        assert(plain_ok(*old(st), e));
        if st.errors@.len() == 0 {
            assert(s6.errors@.len() == 0);
            assert(complete_list(elements@));
            assert(complete(e));
        }
        if unescaped(*st) {
            assert(unescaped(s6));
            assert(ident_fields_list(elements@));
            assert(ident_fields(e));
        }
    }
    Ok(e)
}

/// `'{' mapInitializerList? ','? '}'`:
/// `mapInitializerList : optExpr ':' expr (',' optExpr ':' expr)*`
fn map(st: &mut State) -> (r: Result<IdedExpr, PErr>)
    requires
        wf(*old(st)),
    ensures
        wf(*final(st)),
        steps(*old(st), *final(st), 0),
        err_ok(r, *final(st)),
        r matches Ok(e) ==> tree_ok(ids_m(e), *old(st), *final(st)),
        r matches Ok(e) ==> plain_ok(*old(st), e),
        r matches Ok(e) ==> done_ok(*final(st), e),
        r matches Ok(e) ==> fields_ok(*final(st), e),
    decreases old(st).options.max_recursion_depth + 1 - old(st).depth, 3int,
{
    let open = expect(st, TokenKind::LBrace)?;
    let ghost s1 = *st;
    let map_id = new_id(st, open);
    let ghost s2 = *st;
    let entries = entries(st, true)?;
    let ghost s3 = *st;
    expect_close(st, TokenKind::RBrace)?;
    let e = IdedExpr { id: map_id, expr: Expr::MapLit(MapExpr { entries }) };
    proof {
        broadcast use vstd::multiset::group_multiset_axioms;
        lemma_ids_m(e);
        lemma_tree_widen(entries_m(entries@), s2, s3, s2, *st);
        lemma_tree_seq(Multiset::singleton(map_id), entries_m(entries@), s1, s2, s2, *st);
        lemma_tree_widen(Multiset::singleton(map_id).add(entries_m(entries@)), s1, *st, *old(st), *st);
    }
    Ok(e)
}

/// `'{' fieldInitializerList? ','? '}'` of a message literal named
/// `message_name`: `fieldInitializerList : optField ':' expr (',' optField ':' expr)*`
fn message(st: &mut State, message_name: String) -> (r: Result<IdedExpr, PErr>)
    requires
        wf(*old(st)),
    ensures
        wf(*final(st)),
        steps(*old(st), *final(st), 0),
        err_ok(r, *final(st)),
        r matches Ok(e) ==> tree_ok(ids_m(e), *old(st), *final(st)),
        r matches Ok(e) ==> plain_ok(*old(st), e),
        r matches Ok(e) ==> done_ok(*final(st), e),
        r matches Ok(e) ==> fields_ok(*final(st), e),
    decreases old(st).options.max_recursion_depth + 1 - old(st).depth, 3int,
{
    let open = expect(st, TokenKind::LBrace)?;
    let ghost s1 = *st;
    let struct_id = new_id(st, open);
    let ghost s2 = *st;
    let entries = entries(st, false)?;
    let ghost s3 = *st;
    expect_close(st, TokenKind::RBrace)?;
    let e = IdedExpr { id: struct_id, expr: Expr::Struct(StructExpr { message_name, entries }) };
    proof {
        broadcast use vstd::multiset::group_multiset_axioms;
        lemma_ids_m(e);
        lemma_tree_widen(entries_m(entries@), s2, s3, s2, *st);
        lemma_tree_seq(Multiset::singleton(struct_id), entries_m(entries@), s1, s2, s2, *st);
        lemma_tree_widen(Multiset::singleton(struct_id).add(entries_m(entries@)), s1, *st, *old(st), *st);
    }
    Ok(e)
}

/// The comma-separated entries of a map literal (`is_map`) or a message
/// literal, up to the `}`. A trailing comma is allowed, and `{,}` is empty.
fn entries(st: &mut State, is_map: bool) -> (r: Result<Vec<IdedEntryExpr>, PErr>)
    requires
        wf(*old(st)),
        old(st).next_id + 1 <= 4 * old(st).peek.start + 1,
    ensures
        wf(*final(st)),
        steps(*old(st), *final(st), 1),
        err_ok(r, *final(st)),
        r matches Ok(v) ==> tree_ok(entries_m(v@), *old(st), *final(st)),
        r matches Ok(v) ==> (!old(st).options.enable_optional_syntax ==> plain_entries(v@)),
        r matches Ok(v) ==> (final(st).errors@.len() == 0 ==> complete_entries(v@)),
        r matches Ok(v) ==> (unescaped(*final(st)) ==> ident_fields_entries(v@)),
    decreases old(st).options.max_recursion_depth + 1 - old(st).depth, 2int,
{
    let mut entries: Vec<IdedEntryExpr> = Vec::new();
    proof {
        lemma_entries_m_empty();
        lemma_tree_empty(*old(st), *st);
    }
    let k = st.peek.kind;
    if k == TokenKind::Comma {
        advance(st);
        proof { lemma_tree_widen(entries_m(entries@), *old(st), *old(st), *old(st), *st); }
        return Ok(entries);
    }
    if k == TokenKind::Eof || k == TokenKind::RBrace {
        return Ok(entries);
    }
    loop
        invariant_except_break
            st.next_id <= old(st).next_id + 4 * (st.peek.start - old(st).peek.start),
        invariant
            wf(*st),
            steps(*old(st), *st, 1),
            old(st).next_id + 1 <= 4 * old(st).peek.start + 1,
            tree_ok(entries_m(entries@), *old(st), *st),
            !old(st).options.enable_optional_syntax ==> plain_entries(entries@),
            st.errors@.len() == 0 ==> complete_entries(entries@),
            unescaped(*st) ==> ident_fields_entries(entries@),
        ensures
            wf(*st),
            steps(*old(st), *st, 1),
            tree_ok(entries_m(entries@), *old(st), *st),
            !old(st).options.enable_optional_syntax ==> plain_entries(entries@),
            st.errors@.len() == 0 ==> complete_entries(entries@),
            unescaped(*st) ==> ident_fields_entries(entries@),
        decreases st.src@.len() - st.peek.start,
    {
        let ghost s0 = *st;
        let e = if is_map { map_entry(st) } else { message_field(st) };
        match e {
            Ok(x) => {
                proof {
                    lemma_tree_seq(entries_m(entries@), entry_m(x), *old(st), s0, s0, *st);
                    lemma_entries_m_push(entries@, x);
                }
                let ghost entries0 = entries@;
                entries.push(x);
                proof {
                    if st.errors@.len() == 0 {
                        lemma_complete_entries_push(entries0, x);
                    }
                    if unescaped(*st) {
                        lemma_ident_fields_entries_push(entries0, x);
                    }
                    if !old(st).options.enable_optional_syntax {
                        lemma_plain_entries(entries0);
                        lemma_plain_entries(entries@);
                        assert forall|i: int| 0 <= i < entries@.len() implies plain_entry(#[trigger] entries@[i].expr) by {
                            if i < entries0.len() {
                                assert(entries@[i] == entries0[i]);
                            }
                        }
                    }
                }
            },
            Err(PErr::Syntax { tok, expecting }) => {
                recover_from(st, tok, expecting)?;
                skip_to_sync(st);
                proof { lemma_tree_widen(entries_m(entries@), *old(st), s0, *old(st), *st); }
            },
            Err(PErr::Abort) => return Err(PErr::Abort),
        }
        let ghost s1 = *st;
        if eat(st, TokenKind::Comma).is_none() || st.peek.kind == TokenKind::RBrace {
            proof { lemma_tree_widen(entries_m(entries@), *old(st), s1, *old(st), *st); }
            break;
        }
        proof { lemma_tree_widen(entries_m(entries@), *old(st), s1, *old(st), *st); }
    }
    Ok(entries)
}

/// `optExpr ':' expr`: the entry is numbered from its `:`, but its id is
/// handed out before the key is parsed.
fn map_entry(st: &mut State) -> (r: Result<IdedEntryExpr, PErr>)
    requires
        wf(*old(st)),
        old(st).next_id + 1 <= 4 * old(st).peek.start + 1,
    ensures
        wf(*final(st)),
        steps(*old(st), *final(st), 1),
        err_ok(r, *final(st)),
        r matches Ok(x) ==> tree_ok(entry_m(x), *old(st), *final(st)),
        r matches Ok(x) ==> (!old(st).options.enable_optional_syntax ==> plain_entry(x.expr)),
        r matches Ok(x) ==> (final(st).errors@.len() == 0 ==> complete_entry(x.expr)),
        r matches Ok(x) ==> (unescaped(*final(st)) ==> ident_fields_entry(x.expr)),
    decreases old(st).options.max_recursion_depth + 1 - old(st).depth, 1int,
{
    let optional = eat(st, TokenKind::Question);
    let ghost s1 = *st;
    let entry_id = reserve_id(st);
    let ghost s2 = *st;
    let key = expr(st)?;
    let ghost s3 = *st;
    let colon = expect(st, TokenKind::Colon)?;
    set_offset(st, entry_id, colon);
    let ghost s4 = *st;
    let opt = match optional {
        Some(q) => if st.options.enable_optional_syntax {
            true
        } else {
            report_at(st, q, crate::text::to_string("unsupported syntax '?'"));
            false
        },
        None => false,
    };
    let ghost s5 = *st;
    let value = expr(st)?;
    let x = IdedEntryExpr { id: entry_id, expr: EntryExpr::MapEntry(MapEntryExpr { key, value, optional: opt }) };
    proof {
        broadcast use vstd::multiset::group_multiset_axioms;
        lemma_entry_m(x);
        assert(tree_ok(Multiset::singleton(entry_id), s1, s4));
        assert(fresh(Multiset::singleton(entry_id), s1.next_id as int, s2.next_id as int));
        assert(recorded(Multiset::singleton(entry_id), s4));
        lemma_fresh_join(Multiset::singleton(entry_id), ids_m(key), s1.next_id as int, s2.next_id as int, s2.next_id as int, s3.next_id as int);
        lemma_recorded_later(ids_m(key), s3, s4);
        lemma_recorded_join(Multiset::singleton(entry_id), ids_m(key), s4);
        let m = Multiset::singleton(entry_id).add(ids_m(key));
        assert(tree_ok(m, s1, s4));
        lemma_tree_seq(m, ids_m(value), s1, s4, s5, *st);
        assert(entry_m(x) =~= m.add(ids_m(value)));
        lemma_tree_widen(entry_m(x), s1, *st, *old(st), *st);
    }
    Ok(x)
}

/// `optField ':' expr`, where `optField : '?'? escapeIdent`.
fn message_field(st: &mut State) -> (r: Result<IdedEntryExpr, PErr>)
    requires
        wf(*old(st)),
    ensures
        wf(*final(st)),
        steps(*old(st), *final(st), 0),
        err_ok(r, *final(st)),
        r matches Ok(x) ==> tree_ok(entry_m(x), *old(st), *final(st)),
        r matches Ok(x) ==> (!old(st).options.enable_optional_syntax ==> plain_entry(x.expr)),
        r matches Ok(x) ==> (final(st).errors@.len() == 0 ==> complete_entry(x.expr)),
        r matches Ok(x) ==> (unescaped(*final(st)) ==> ident_fields_entry(x.expr)),
    decreases old(st).options.max_recursion_depth + 1 - old(st).depth, 1int,
{
    let optional = eat(st, TokenKind::Question);
    let name = if st.peek.kind == TokenKind::Ident || st.peek.kind == TokenKind::EscIdent {
        advance(st)
    } else {
        return Err(PErr::Syntax { tok: st.peek, expecting: "identifier" });
    };
    let colon = expect(st, TokenKind::Colon)?;
    let ghost s1 = *st;
    let entry_id = new_id(st, colon);
    let ghost s2 = *st;
    let field = if name.kind == TokenKind::EscIdent {
        let at = match optional {
            Some(q) => q,
            None => name,
        };
        escaped_ident(st, name, at)
    } else {
        text(st, name)
    };
    let opt = match optional {
        Some(q) => if st.options.enable_optional_syntax {
            true
        } else {
            report_at(st, q, crate::text::to_string("unsupported syntax '?'"));
            false
        },
        None => false,
    };
    let ghost s3 = *st;
    let value = expr(st)?;
    let x = IdedEntryExpr { id: entry_id, expr: EntryExpr::StructField(StructFieldExpr { field, value, optional: opt }) };
    proof {
        broadcast use vstd::multiset::group_multiset_axioms;
        lemma_entry_m(x);
        lemma_tree_seq(Multiset::singleton(entry_id), ids_m(value), s1, s2, s3, *st);
        lemma_tree_widen(Multiset::singleton(entry_id).add(ids_m(value)), s1, *st, *old(st), *st);
    }
    Ok(x)
}

// ---------------------------------------------------------------------------
// Entry points
// ---------------------------------------------------------------------------

/// A source the parser can take: its bytes fit an `isize` and its
/// characters are fewer than [`max_chars`].
pub open spec fn parsable(source: Seq<char>) -> bool {
    byte_len(source) < isize::MAX && source.len() < max_chars()
}

/// Every id of `e` is other than 0, occurs once, and has its span recorded
/// in `info`.
pub open spec fn ids_unique(e: IdedExpr, info: SourceInfo) -> bool {
    forall|x: u64| #[trigger] ids_m(e).count(x) > 0 ==> x != 0 && ids_m(e).count(x) == 1
        && 1 <= x <= info.offsets@.len() && info.offsets@[x - 1] is Some
}

/// Every id of `e` is other than 0 and occurs once.
pub open spec fn ids_unique_tree(e: IdedExpr) -> bool {
    forall|x: u64| #[trigger] ids_m(e).count(x) > 0 ==> x != 0 && ids_m(e).count(x) == 1
}

impl WinnowParser {
    /// Parses `source`, returning the source info alongside the expression.
    pub fn parse_with_source_info(self, source: &str) -> (r: Result<(IdedExpr, SourceInfo), ParseErrors>)
        requires
            parsable(source@),
        ensures
            r matches Ok((e, info)) ==> info.source@ == source@ && ids_unique(e, info),
            r matches Err(errs) ==> errs.errors@.len() > 0 && sorted_by_pos(errs.errors@),
            step_errors(lex_steps(source@, 0)).len() > 0 ==> r is Err,
            r matches Err(errs) ==> stopped_by_limit(errs.errors@)
                || lex_errors_reported(source@, step_errors(lex_steps(source@, 0)), errs.errors@),
            r matches Err(errs) ==> limit_errors(errs.errors@) <= 1,
            r matches Err(errs) ==> limit_messages(errs.errors@, self),
            r matches Ok((e, info)) ==> (!self.optional_syntax() ==> plain(e)),
            r matches Ok((e, info)) ==> complete(e),
            r matches Ok((e, info)) ==> (!self.ident_escape_syntax() ==> ident_fields(e)),
    {
        let bytes = source.as_bytes();
        let _n = bytes.len();
        let src = chars_of(source);
        let offs = offset_table(src.as_slice());
        proof { crate::parser::lexer::lemma_esc_ident_span(src@, 0); }
        let (first, failure) = lex_token(src.as_slice(), 0);
        let mut st = State {
            source,
            src,
            offs,
            options: self,
            next_id: 1,
            offsets: Vec::new(),
            starts: Vec::new(),
            errors: Vec::new(),
            peek: first,
            lexpos: Ghost(0),
            done: Ghost(Seq::empty()),
            depth: 0,
            recoveries: 0,
            aborted: false,
        };
        proof {
            reveal(lex_inv);
            reveal(lex_record);
            reveal(lex_errors_reported);
            assert(Seq::<Step>::empty() + lex_steps(st.src@, 0) =~= lex_steps(st.src@, 0));
            reveal(one_limit);
            reveal(limit_messages);
            assert(step_errors(Seq::<Step>::empty()) == Seq::<(int, LexFailure)>::empty());
            crate::parser::lexer::lemma_step_errors_push(Seq::<Step>::empty(), next_token(st.src@, 0));
        }
        if let Some(f) = failure {
            let msg = crate::text::to_string(f.message());
            push_error(&mut st, first.start, msg);
            proof {
                reveal(peek_reported);
                reveal(lex_errors_reported);
                let i = choose|i: int| 0 <= i < st.errors@.len() && (#[trigger] st.errors@[i]).msg == msg
                    && st.errors@[i].pos.0 == position(encode_utf8(st.src@), byte_offset(st.src@, first.start as int)).0
                    && st.errors@[i].pos.1 == position(encode_utf8(st.src@), byte_offset(st.src@, first.start as int)).1;
                assert(lex_error_reported(st.src@, st.errors@, (first.start as int, f)));
                assert(step_errors(Seq::<Step>::empty().push(next_token(st.src@, 0))) =~= seq![(first.start as int, f)]);
            }
            let _ = count_recovery(&mut st);
        } else {
            proof {
                reveal(peek_reported);
                reveal(lex_errors_reported);
                assert(step_errors(Seq::<Step>::empty().push(next_token(st.src@, 0))) =~= Seq::<(int, LexFailure)>::empty());
            }
        }
        let ghost s0 = st;
        let e = match recover_expr(&mut st) {
            Ok(e) => e,
            Err(_) => {
                let e = IdedExpr::default();
                proof { lemma_tree_placeholder(e, s0, st); }
                e
            },
        };
        let ghost s1 = st;
        if !st.aborted && st.peek.kind != TokenKind::Eof {
            let _ = recover_here(&mut st, "<EOF>");
            while !st.aborted && st.peek.kind != TokenKind::Eof
                invariant
                    wf(st),
                    grows(s1, st),
                    st.src@ == source@,
                    st.options == self,
                decreases st.src@.len() - st.peek.start,
            {
                advance(&mut st);
            }
        }
        let info = SourceInfo { source: crate::text::to_string(source), offsets: st.offsets };
        if st.errors.len() == 0 {
            proof {
                broadcast use vstd::multiset::group_multiset_axioms;
                lemma_recorded_later(ids_m(e), s1, st);
                reveal(lex_inv);
                assert(st.peek.kind == TokenKind::Eof);
                assert(lex_steps(st.src@, st.lexpos@) == Seq::<crate::parser::lexer::Step>::empty());
                assert(step_errors(Seq::<crate::parser::lexer::Step>::empty()).len() == 0);
            }
            Ok((e, info))
        } else {
            proof {
                reveal(lex_record);
                reveal(peek_reported);
                reveal(lex_inv);
                reveal(one_limit);
                if !st.aborted {
                    assert(st.peek.kind == TokenKind::Eof);
                    let eof = next_token(st.src@, st.lexpos@);
                    assert(lex_steps(st.src@, st.lexpos@) == Seq::<Step>::empty());
                    assert(st.done@ + Seq::<Step>::empty() =~= st.done@);
                    crate::parser::lexer::lemma_step_errors_push(st.done@, eof);
                    assert(step_errors(st.done@) + Seq::<(int, LexFailure)>::empty() =~= step_errors(st.done@));
                }
            }
            Err(ParseErrors { errors: st.errors, source: crate::text::to_string(source) })
        }
    }

    /// Parses `source`, discarding the source info.
    pub fn parse(self, source: &str) -> (r: Result<IdedExpr, ParseErrors>)
        requires
            parsable(source@),
        ensures
            r matches Ok(e) ==> ids_unique_tree(e),
            r matches Err(errs) ==> errs.errors@.len() > 0 && sorted_by_pos(errs.errors@),
            step_errors(lex_steps(source@, 0)).len() > 0 ==> r is Err,
            r matches Err(errs) ==> stopped_by_limit(errs.errors@)
                || lex_errors_reported(source@, step_errors(lex_steps(source@, 0)), errs.errors@),
            r matches Err(errs) ==> limit_errors(errs.errors@) <= 1,
            r matches Err(errs) ==> limit_messages(errs.errors@, self),
            r matches Ok(e) ==> (!self.optional_syntax() ==> plain(e)),
            r matches Ok(e) ==> complete(e),
            r matches Ok(e) ==> (!self.ident_escape_syntax() ==> ident_fields(e)),
    {
        match self.parse_with_source_info(source) {
            Ok((e, _)) => Ok(e),
            Err(errs) => Err(errs),
        }
    }
}

} // verus!
