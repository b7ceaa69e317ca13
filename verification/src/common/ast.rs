//! The abstract syntax tree of a CEL expression.

use vstd::prelude::*;
use vstd::multiset::Multiset;

verus! {

/// An expression together with its id.
#[derive(Debug, PartialEq)]
pub struct IdedExpr {
    pub id: u64,
    pub expr: Expr,
}

/// A CEL expression.
#[derive(Debug, PartialEq)]
pub enum Expr {
    /// A placeholder, standing for an expression that did not parse.
    Unspecified,
    /// A call of a function or operator, with an optional target.
    Call(CallExpr),
    /// A comprehension, the expansion of a macro such as `all` or `map`.
    Comprehension(Box<ComprehensionExpr>),
    /// An identifier.
    Ident(String),
    /// A list literal.
    List(ListExpr),
    /// A literal value.
    Literal(LiteralValue),
    /// A map literal.
    MapLit(MapExpr),
    /// A field selection, or a presence test of a field.
    Select(SelectExpr),
    /// A message literal.
    Struct(StructExpr),
}

impl Default for Expr {
    /// The placeholder expression.
    fn default() -> (e: Self)
        ensures
            e is Unspecified,
    {
        Expr::Unspecified
    }
}

impl Default for IdedExpr {
    /// The placeholder expression, with id 0.
    fn default() -> (e: Self)
        ensures
            e.id == 0,
            e.expr is Unspecified,
    {
        IdedExpr { id: 0, expr: Expr::Unspecified }
    }
}

#[derive(Debug, PartialEq)]
pub struct CallExpr {
    pub func_name: String,
    pub target: Option<Box<IdedExpr>>,
    pub args: Vec<IdedExpr>,
}

#[derive(Debug, PartialEq)]
pub struct SelectExpr {
    pub operand: Box<IdedExpr>,
    pub field: String,
    /// Whether this is a presence test (`has(a.b)`) rather than a selection.
    pub test: bool,
}

#[derive(Debug, PartialEq)]
pub struct ListExpr {
    pub elements: Vec<IdedExpr>,
    /// The indices of the elements that were written `?e`.
    pub optional_indices: Vec<usize>,
}

#[derive(Debug, PartialEq)]
pub struct MapExpr {
    pub entries: Vec<IdedEntryExpr>,
}

#[derive(Debug, PartialEq)]
pub struct StructExpr {
    pub message_name: String,
    pub entries: Vec<IdedEntryExpr>,
}

/// An entry of a map or message literal, with its id.
#[derive(Debug, PartialEq)]
pub struct IdedEntryExpr {
    pub id: u64,
    pub expr: EntryExpr,
}

#[derive(Debug, PartialEq)]
pub enum EntryExpr {
    StructField(StructFieldExpr),
    MapEntry(MapEntryExpr),
}

#[derive(Debug, PartialEq)]
pub struct StructFieldExpr {
    pub field: String,
    pub value: IdedExpr,
    pub optional: bool,
}

#[derive(Debug, PartialEq)]
pub struct MapEntryExpr {
    pub key: IdedExpr,
    pub value: IdedExpr,
    pub optional: bool,
}

#[derive(Debug, PartialEq)]
pub struct ComprehensionExpr {
    pub iter_range: IdedExpr,
    pub iter_var: String,
    pub iter_var2: Option<String>,
    pub accu_var: String,
    pub accu_init: IdedExpr,
    pub loop_cond: IdedExpr,
    pub loop_step: IdedExpr,
    pub result: IdedExpr,
}

/// A literal value. A double is kept as the decimal text it was written
/// with (its sign included), since its value is a floating-point number.
#[derive(Debug, PartialEq)]
pub enum LiteralValue {
    Int(i64),
    UInt(u64),
    Double(String),
    String(String),
    Bytes(Vec<u8>),
    Boolean(bool),
    Null,
}

/// The span of an expression in the source: byte offsets of its first
/// byte and of its last byte.
#[derive(Clone, Copy, Debug, PartialEq, Eq, Structural)]
pub struct OffsetRange {
    pub start: usize,
    pub end: usize,
}

/// The source of an expression and the span of each of its ids: entry
/// `k` holds the span of id `k + 1`, if one was recorded.
#[derive(Debug, PartialEq)]
pub struct SourceInfo {
    pub source: String,
    pub offsets: Vec<Option<OffsetRange>>,
}

impl SourceInfo {
    /// The span recorded for `id`, if any.
    pub fn offset_range(&self, id: u64) -> (r: Option<OffsetRange>)
        ensures
            r == (if 1 <= id <= self.offsets@.len() { self.offsets@[id - 1] } else { None }),
    {
        if id >= 1 && id - 1 < self.offsets.len() as u64 {
            self.offsets[(id - 1) as usize]
        } else {
            None
        }
    }
}

/// All ids of an expression, its entries' ids included, in pre-order.
pub open spec fn expr_ids(e: IdedExpr) -> Seq<u64>
    decreases e, 1int,
{
    seq![e.id] + match e.expr {
        Expr::Call(c) => target_ids(c.target) + list_ids(c.args@),
        Expr::Comprehension(c) => expr_ids(c.iter_range) + expr_ids(c.accu_init) + expr_ids(c.loop_cond)
            + expr_ids(c.loop_step) + expr_ids(c.result),
        Expr::List(l) => list_ids(l.elements@),
        Expr::MapLit(m) => entry_ids(m.entries@),
        Expr::Select(s) => expr_ids(*s.operand),
        Expr::Struct(s) => entry_ids(s.entries@),
        _ => seq![],
    }
}

/// All ids of an optional target.
pub open spec fn target_ids(t: Option<Box<IdedExpr>>) -> Seq<u64>
    decreases t, 0int,
{
    match t {
        Some(t) => expr_ids(*t),
        None => seq![],
    }
}

/// All ids of the expressions of an entry.
pub open spec fn entry_value_ids(e: EntryExpr) -> Seq<u64>
    decreases e, 0int,
{
    match e {
        EntryExpr::StructField(f) => expr_ids(f.value),
        EntryExpr::MapEntry(m) => expr_ids(m.key) + expr_ids(m.value),
    }
}

/// All ids of a sequence of expressions.
pub open spec fn list_ids(s: Seq<IdedExpr>) -> Seq<u64>
    decreases s, 0int,
{
    if s.len() == 0 {
        seq![]
    } else {
        expr_ids(s[0]) + list_ids(s.drop_first())
    }
}

/// All ids of a sequence of entries.
pub open spec fn entry_ids(s: Seq<IdedEntryExpr>) -> Seq<u64>
    decreases s, 0int,
{
    if s.len() == 0 {
        seq![]
    } else {
        seq![s[0].id] + entry_value_ids(s[0].expr) + entry_ids(s.drop_first())
    }
}

/// The ids of an expression, counted.
pub open spec fn ids_m(e: IdedExpr) -> Multiset<u64> {
    expr_ids(e).to_multiset()
}

/// The ids of a sequence of expressions, counted.
pub open spec fn list_m(s: Seq<IdedExpr>) -> Multiset<u64> {
    list_ids(s).to_multiset()
}

/// The ids of a sequence of entries, counted.
pub open spec fn entries_m(s: Seq<IdedEntryExpr>) -> Multiset<u64> {
    entry_ids(s).to_multiset()
}

/// The ids of one entry, counted: its own and those of its expressions.
pub open spec fn entry_m(e: IdedEntryExpr) -> Multiset<u64> {
    (seq![e.id] + entry_value_ids(e.expr)).to_multiset()
}

pub proof fn lemma_list_ids_concat(a: Seq<IdedExpr>, b: Seq<IdedExpr>)
    ensures
        list_ids(a + b) == list_ids(a) + list_ids(b),
    decreases a.len(),
{
    if a.len() == 0 {
        assert(a + b =~= b);
        assert(list_ids(a) + list_ids(b) =~= list_ids(b));
    } else {
        lemma_list_ids_concat(a.drop_first(), b);
        assert((a + b).drop_first() =~= a.drop_first() + b);
        assert((a + b)[0] == a[0]);
        assert(expr_ids(a[0]) + (list_ids(a.drop_first()) + list_ids(b)) =~= (expr_ids(a[0]) + list_ids(a.drop_first())) + list_ids(b));
    }
}

pub proof fn lemma_list_m_concat(a: Seq<IdedExpr>, b: Seq<IdedExpr>)
    ensures
        list_m(a + b) =~= list_m(a).add(list_m(b)),
{
    lemma_list_ids_concat(a, b);
    vstd::seq_lib::lemma_multiset_commutative(list_ids(a), list_ids(b));
}

pub proof fn lemma_list_m_push(s: Seq<IdedExpr>, x: IdedExpr)
    ensures
        list_m(s.push(x)) =~= list_m(s).add(ids_m(x)),
{
    lemma_list_m_concat(s, seq![x]);
    assert(s.push(x) =~= s + seq![x]);
    assert(seq![x].drop_first() =~= Seq::<IdedExpr>::empty());
    assert(list_ids(Seq::<IdedExpr>::empty()) =~= Seq::<u64>::empty());
    assert(seq![x][0] == x);
    assert(list_ids(seq![x]) =~= expr_ids(x));
}

pub proof fn lemma_list_m_empty()
    ensures
        list_m(Seq::<IdedExpr>::empty()) =~= Multiset::<u64>::empty(),
{
    broadcast use vstd::seq_lib::group_to_multiset_ensures, vstd::multiset::group_multiset_axioms;
    assert(list_ids(Seq::<IdedExpr>::empty()) =~= Seq::<u64>::empty());
    assert(Seq::<u64>::empty().to_multiset().len() == 0);
}

pub proof fn lemma_entry_ids_push(s: Seq<IdedEntryExpr>, e: IdedEntryExpr)
    ensures
        entry_ids(s.push(e)) == entry_ids(s) + (seq![e.id] + entry_value_ids(e.expr)),
    decreases s.len(),
{
    if s.len() == 0 {
        assert(s.push(e).drop_first() =~= Seq::<IdedEntryExpr>::empty());
        assert(s =~= Seq::<IdedEntryExpr>::empty());
        assert(entry_ids(Seq::<IdedEntryExpr>::empty()) =~= Seq::<u64>::empty());
        assert(s.push(e)[0] == e);
        assert(entry_ids(s) =~= Seq::<u64>::empty());
        assert(seq![e.id] + entry_value_ids(e.expr) + Seq::<u64>::empty() =~= Seq::<u64>::empty() + (seq![e.id] + entry_value_ids(e.expr)));
    } else {
        lemma_entry_ids_push(s.drop_first(), e);
        assert(s.push(e).drop_first() =~= s.drop_first().push(e));
        assert(s.push(e)[0] == s[0]);
        let h = seq![s[0].id] + entry_value_ids(s[0].expr);
        let t = seq![e.id] + entry_value_ids(e.expr);
        assert(h + (entry_ids(s.drop_first()) + t) =~= (h + entry_ids(s.drop_first())) + t);
    }
}

pub proof fn lemma_entries_m_push(s: Seq<IdedEntryExpr>, e: IdedEntryExpr)
    ensures
        entries_m(s.push(e)) =~= entries_m(s).add(entry_m(e)),
{
    lemma_entry_ids_push(s, e);
    vstd::seq_lib::lemma_multiset_commutative(entry_ids(s), seq![e.id] + entry_value_ids(e.expr));
}

pub proof fn lemma_entries_m_empty()
    ensures
        entries_m(Seq::<IdedEntryExpr>::empty()) =~= Multiset::<u64>::empty(),
{
    broadcast use vstd::seq_lib::group_to_multiset_ensures, vstd::multiset::group_multiset_axioms;
    assert(entry_ids(Seq::<IdedEntryExpr>::empty()) =~= Seq::<u64>::empty());
    assert(Seq::<u64>::empty().to_multiset().len() == 0);
}

/// The ids of an expression: its own, and those below it.
pub proof fn lemma_ids_m(e: IdedExpr)
    ensures
        ids_m(e) =~= Multiset::singleton(e.id).add(match e.expr {
            Expr::Call(c) => target_ids(c.target).to_multiset().add(list_m(c.args@)),
            Expr::Comprehension(c) => (expr_ids(c.iter_range) + expr_ids(c.accu_init) + expr_ids(c.loop_cond)
                + expr_ids(c.loop_step) + expr_ids(c.result)).to_multiset(),
            Expr::List(l) => list_m(l.elements@),
            Expr::MapLit(m) => entries_m(m.entries@),
            Expr::Select(s) => ids_m(*s.operand),
            Expr::Struct(s) => entries_m(s.entries@),
            _ => Multiset::empty(),
        }),
{
    broadcast use vstd::seq_lib::group_to_multiset_ensures, vstd::multiset::group_multiset_axioms;
    let rest = match e.expr {
        Expr::Call(c) => target_ids(c.target) + list_ids(c.args@),
        Expr::Comprehension(c) => expr_ids(c.iter_range) + expr_ids(c.accu_init) + expr_ids(c.loop_cond)
            + expr_ids(c.loop_step) + expr_ids(c.result),
        Expr::List(l) => list_ids(l.elements@),
        Expr::MapLit(m) => entry_ids(m.entries@),
        Expr::Select(s) => expr_ids(*s.operand),
        Expr::Struct(s) => entry_ids(s.entries@),
        _ => seq![],
    };
    assert(expr_ids(e) == seq![e.id] + rest);
    vstd::seq_lib::lemma_multiset_commutative(seq![e.id], rest);
    assert(seq![e.id] =~= Seq::<u64>::empty().push(e.id));
    assert(Seq::<u64>::empty().to_multiset().len() == 0);
    assert(Seq::<u64>::empty().to_multiset() =~= Multiset::<u64>::empty());
    assert(seq![e.id].to_multiset() =~= Multiset::singleton(e.id));
    match e.expr {
        Expr::Call(c) => {
            vstd::seq_lib::lemma_multiset_commutative(target_ids(c.target), list_ids(c.args@));
        },
        Expr::List(_) | Expr::MapLit(_) | Expr::Select(_) | Expr::Struct(_) | Expr::Comprehension(_) => {},
        _ => {
            assert(rest =~= Seq::<u64>::empty());
        },
    }
}

/// The ids of an entry of a map literal or a message literal.
pub proof fn lemma_entry_m(e: IdedEntryExpr)
    ensures
        entry_m(e) =~= Multiset::singleton(e.id).add(match e.expr {
            EntryExpr::StructField(f) => ids_m(f.value),
            EntryExpr::MapEntry(m) => ids_m(m.key).add(ids_m(m.value)),
        }),
{
    broadcast use vstd::seq_lib::group_to_multiset_ensures, vstd::multiset::group_multiset_axioms;
    vstd::seq_lib::lemma_multiset_commutative(seq![e.id], entry_value_ids(e.expr));
    assert(seq![e.id] =~= Seq::<u64>::empty().push(e.id));
    assert(Seq::<u64>::empty().to_multiset().len() == 0);
    assert(Seq::<u64>::empty().to_multiset() =~= Multiset::<u64>::empty());
    match e.expr {
        EntryExpr::MapEntry(m) => {
            vstd::seq_lib::lemma_multiset_commutative(expr_ids(m.key), expr_ids(m.value));
        },
        _ => {},
    }
}

pub proof fn lemma_empty_m()
    ensures
        Seq::<u64>::empty().to_multiset() =~= Multiset::<u64>::empty(),
{
    broadcast use vstd::seq_lib::group_to_multiset_ensures, vstd::multiset::group_multiset_axioms;
    assert(Seq::<u64>::empty().to_multiset().len() == 0);
}

pub proof fn lemma_list_m1(a: IdedExpr)
    ensures
        list_m(seq![a]) =~= ids_m(a),
{
    broadcast use vstd::multiset::group_multiset_axioms;
    lemma_list_m_empty();
    lemma_list_m_push(Seq::<IdedExpr>::empty(), a);
    assert(seq![a] =~= Seq::<IdedExpr>::empty().push(a));
}

pub proof fn lemma_list_m2(a: IdedExpr, b: IdedExpr)
    ensures
        list_m(seq![a, b]) =~= ids_m(a).add(ids_m(b)),
{
    lemma_list_m1(a);
    lemma_list_m_push(seq![a], b);
    assert(seq![a, b] =~= seq![a].push(b));
}

pub proof fn lemma_list_m3(a: IdedExpr, b: IdedExpr, c: IdedExpr)
    ensures
        list_m(seq![a, b, c]) =~= ids_m(a).add(ids_m(b)).add(ids_m(c)),
{
    lemma_list_m2(a, b);
    lemma_list_m_push(seq![a, b], c);
    assert(seq![a, b, c] =~= seq![a, b].push(c));
}

/// Whether `f` names an operator of the optional syntax: `_?._` for
/// `a.?b`, `_[?_]` for `a[?b]`.
pub open spec fn optional_func(f: Seq<char>) -> bool {
    f == "_?._"@ || f == "_[?_]"@
}

/// Whether no part of `e` is written with the optional syntax: no call of
/// an optional operator, no optional element of a list, and no optional
/// entry of a map or message literal.
pub open spec fn plain(e: IdedExpr) -> bool
    decreases e, 1int,
{
    match e.expr {
        Expr::Call(c) => !optional_func(c.func_name@) && plain_target(c.target) && plain_list(c.args@),
        Expr::Comprehension(c) => plain(c.iter_range) && plain(c.accu_init) && plain(c.loop_cond)
            && plain(c.loop_step) && plain(c.result),
        Expr::List(l) => l.optional_indices@.len() == 0 && plain_list(l.elements@),
        Expr::MapLit(m) => plain_entries(m.entries@),
        Expr::Select(s) => plain(*s.operand),
        Expr::Struct(s) => plain_entries(s.entries@),
        _ => true,
    }
}

/// Whether an optional target is [`plain`].
pub open spec fn plain_target(t: Option<Box<IdedExpr>>) -> bool
    decreases t, 0int,
{
    match t {
        Some(t) => plain(*t),
        None => true,
    }
}

/// Whether an entry is not optional and its expressions are [`plain`].
pub open spec fn plain_entry(e: EntryExpr) -> bool
    decreases e, 0int,
{
    match e {
        EntryExpr::StructField(f) => !f.optional && plain(f.value),
        EntryExpr::MapEntry(m) => !m.optional && plain(m.key) && plain(m.value),
    }
}

/// Whether every expression of `s` is [`plain`].
pub open spec fn plain_list(s: Seq<IdedExpr>) -> bool
    decreases s, 0int,
{
    s.len() == 0 || (plain(s[0]) && plain_list(s.drop_first()))
}

/// Whether every entry of `s` is [`plain_entry`].
pub open spec fn plain_entries(s: Seq<IdedEntryExpr>) -> bool
    decreases s, 0int,
{
    s.len() == 0 || (plain_entry(s[0].expr) && plain_entries(s.drop_first()))
}

pub proof fn lemma_plain_list(s: Seq<IdedExpr>)
    ensures
        plain_list(s) <==> forall|i: int| 0 <= i < s.len() ==> plain(#[trigger] s[i]),
    decreases s.len(),
{
    if s.len() > 0 {
        lemma_plain_list(s.drop_first());
        if forall|i: int| 0 <= i < s.len() ==> plain(#[trigger] s[i]) {
            assert forall|i: int| 0 <= i < s.drop_first().len() implies plain(#[trigger] s.drop_first()[i]) by {
                assert(s.drop_first()[i] == s[i + 1]);
            }
        }
        if plain_list(s) {
            assert forall|i: int| 0 <= i < s.len() implies plain(#[trigger] s[i]) by {
                if i > 0 {
                    assert(s[i] == s.drop_first()[i - 1]);
                }
            }
        }
    }
}

pub proof fn lemma_plain_entries(s: Seq<IdedEntryExpr>)
    ensures
        plain_entries(s) <==> forall|i: int| 0 <= i < s.len() ==> plain_entry(#[trigger] s[i].expr),
    decreases s.len(),
{
    if s.len() > 0 {
        lemma_plain_entries(s.drop_first());
        if forall|i: int| 0 <= i < s.len() ==> plain_entry(#[trigger] s[i].expr) {
            assert forall|i: int| 0 <= i < s.drop_first().len() implies plain_entry(#[trigger] s.drop_first()[i].expr) by {
                assert(s.drop_first()[i] == s[i + 1]);
            }
        }
        if plain_entries(s) {
            assert forall|i: int| 0 <= i < s.len() implies plain_entry(#[trigger] s[i].expr) by {
                if i > 0 {
                    assert(s[i] == s.drop_first()[i - 1]);
                }
            }
        }
    }
}

/// A call without a target, of a function that is no optional operator, on
/// [`plain`] arguments, is [`plain`].
pub proof fn lemma_plain_call(e: IdedExpr)
    requires
        e.expr matches Expr::Call(c) && !optional_func(c.func_name@) && c.target is None && plain_list(c.args@),
    ensures
        plain(e),
{
    if let Expr::Call(c) = e.expr {
        assert(plain_target(c.target));
    }
}

/// The operators and functions that parsing and macro expansion call by
/// name are no optional operators.
pub proof fn lemma_operator_names()
    ensures
        !optional_func("_||_"@),
        !optional_func("_&&_"@),
        !optional_func("_<_"@),
        !optional_func("_<=_"@),
        !optional_func("_>=_"@),
        !optional_func("_>_"@),
        !optional_func("_==_"@),
        !optional_func("_!=_"@),
        !optional_func("@in"@),
        !optional_func("_+_"@),
        !optional_func("_-_"@),
        !optional_func("_*_"@),
        !optional_func("_/_"@),
        !optional_func("_%_"@),
        !optional_func("!_"@),
        !optional_func("-_"@),
        !optional_func("_?_:_"@),
        !optional_func("_[_]"@),
        !optional_func("@not_strictly_false"@),
{
    reveal_strlit("_?._");
    reveal_strlit("_[?_]");
    reveal_strlit("_||_");
    reveal_strlit("_&&_");
    reveal_strlit("_<_");
    reveal_strlit("_<=_");
    reveal_strlit("_>=_");
    reveal_strlit("_>_");
    reveal_strlit("_==_");
    reveal_strlit("_!=_");
    reveal_strlit("@in");
    reveal_strlit("_+_");
    reveal_strlit("_-_");
    reveal_strlit("_*_");
    reveal_strlit("_/_");
    reveal_strlit("_%_");
    reveal_strlit("!_");
    reveal_strlit("-_");
    reveal_strlit("_?_:_");
    reveal_strlit("_[_]");
    reveal_strlit("@not_strictly_false");
    assert("_||_"@[1] != "_?._"@[1]);
    assert("_&&_"@[1] != "_?._"@[1]);
    assert("_<=_"@[1] != "_?._"@[1]);
    assert("_>=_"@[1] != "_?._"@[1]);
    assert("_==_"@[1] != "_?._"@[1]);
    assert("_!=_"@[1] != "_?._"@[1]);
    assert("_?_:_"@[1] != "_[?_]"@[1]);
    assert("_?_:_"@[2] != "_?._"@[2]);
    assert("_[_]"@[2] != "_[?_]"@[2]);
}

/// A name whose characters are identifier characters or dots is no
/// optional operator.
pub proof fn lemma_name_not_optional(name: Seq<char>)
    requires
        forall|k: int| 0 <= k < name.len() ==> ('a' <= #[trigger] name[k] <= 'z') || ('A' <= name[k] <= 'Z')
            || ('0' <= name[k] <= '9') || name[k] == '_' || name[k] == '.',
    ensures
        !optional_func(name),
{
    reveal_strlit("_?._");
    reveal_strlit("_[?_]");
    if name == "_?._"@ {
        assert(name[1] == '?');
    }
    if name == "_[?_]"@ {
        assert(name[1] == '[');
    }
}

pub proof fn lemma_plain_list1(a: IdedExpr)
    requires
        plain(a),
    ensures
        plain_list(seq![a]),
{
    lemma_plain_list(seq![a]);
    assert(seq![a][0] == a);
}

pub proof fn lemma_plain_list2(a: IdedExpr, b: IdedExpr)
    requires
        plain(a),
        plain(b),
    ensures
        plain_list(seq![a, b]),
{
    lemma_plain_list(seq![a, b]);
    assert(seq![a, b][0] == a && seq![a, b][1] == b);
}

pub proof fn lemma_plain_list3(a: IdedExpr, b: IdedExpr, c: IdedExpr)
    requires
        plain(a),
        plain(b),
        plain(c),
    ensures
        plain_list(seq![a, b, c]),
{
    lemma_plain_list(seq![a, b, c]);
    assert(seq![a, b, c][0] == a && seq![a, b, c][1] == b && seq![a, b, c][2] == c);
}

/// Whether no part of `e` is the placeholder that stands for an expression
/// that did not parse.
pub open spec fn complete(e: IdedExpr) -> bool
    decreases e, 1int,
{
    match e.expr {
        Expr::Unspecified => false,
        Expr::Call(c) => complete_target(c.target) && complete_list(c.args@),
        Expr::Comprehension(c) => complete(c.iter_range) && complete(c.accu_init) && complete(c.loop_cond)
            && complete(c.loop_step) && complete(c.result),
        Expr::List(l) => complete_list(l.elements@),
        Expr::MapLit(m) => complete_entries(m.entries@),
        Expr::Select(s) => complete(*s.operand),
        Expr::Struct(s) => complete_entries(s.entries@),
        _ => true,
    }
}

/// Whether an optional target is [`complete`].
pub open spec fn complete_target(t: Option<Box<IdedExpr>>) -> bool
    decreases t, 0int,
{
    match t {
        Some(t) => complete(*t),
        None => true,
    }
}

/// Whether the expressions of an entry are [`complete`].
pub open spec fn complete_entry(e: EntryExpr) -> bool
    decreases e, 0int,
{
    match e {
        EntryExpr::StructField(f) => complete(f.value),
        EntryExpr::MapEntry(m) => complete(m.key) && complete(m.value),
    }
}

/// Whether every expression of `s` is [`complete`].
pub open spec fn complete_list(s: Seq<IdedExpr>) -> bool
    decreases s, 0int,
{
    s.len() == 0 || (complete(s[0]) && complete_list(s.drop_first()))
}

/// Whether every entry of `s` is [`complete_entry`].
pub open spec fn complete_entries(s: Seq<IdedEntryExpr>) -> bool
    decreases s, 0int,
{
    s.len() == 0 || (complete_entry(s[0].expr) && complete_entries(s.drop_first()))
}

pub proof fn lemma_complete_list(s: Seq<IdedExpr>)
    ensures
        complete_list(s) <==> forall|i: int| 0 <= i < s.len() ==> complete(#[trigger] s[i]),
    decreases s.len(),
{
    if s.len() > 0 {
        lemma_complete_list(s.drop_first());
        if forall|i: int| 0 <= i < s.len() ==> complete(#[trigger] s[i]) {
            assert forall|i: int| 0 <= i < s.drop_first().len() implies complete(#[trigger] s.drop_first()[i]) by {
                assert(s.drop_first()[i] == s[i + 1]);
            }
        }
        if complete_list(s) {
            assert forall|i: int| 0 <= i < s.len() implies complete(#[trigger] s[i]) by {
                if i > 0 {
                    assert(s[i] == s.drop_first()[i - 1]);
                }
            }
        }
    }
}

pub proof fn lemma_complete_entries(s: Seq<IdedEntryExpr>)
    ensures
        complete_entries(s) <==> forall|i: int| 0 <= i < s.len() ==> complete_entry(#[trigger] s[i].expr),
    decreases s.len(),
{
    if s.len() > 0 {
        lemma_complete_entries(s.drop_first());
        if forall|i: int| 0 <= i < s.len() ==> complete_entry(#[trigger] s[i].expr) {
            assert forall|i: int| 0 <= i < s.drop_first().len() implies complete_entry(#[trigger] s.drop_first()[i].expr) by {
                assert(s.drop_first()[i] == s[i + 1]);
            }
        }
        if complete_entries(s) {
            assert forall|i: int| 0 <= i < s.len() implies complete_entry(#[trigger] s[i].expr) by {
                if i > 0 {
                    assert(s[i] == s.drop_first()[i - 1]);
                }
            }
        }
    }
}

pub proof fn lemma_complete_list1(a: IdedExpr)
    requires
        complete(a),
    ensures
        complete_list(seq![a]),
{
    lemma_complete_list(seq![a]);
    assert(seq![a][0] == a);
}

pub proof fn lemma_complete_list2(a: IdedExpr, b: IdedExpr)
    requires
        complete(a),
        complete(b),
    ensures
        complete_list(seq![a, b]),
{
    lemma_complete_list(seq![a, b]);
    assert(seq![a, b][0] == a && seq![a, b][1] == b);
}

pub proof fn lemma_complete_list3(a: IdedExpr, b: IdedExpr, c: IdedExpr)
    requires
        complete(a),
        complete(b),
        complete(c),
    ensures
        complete_list(seq![a, b, c]),
{
    lemma_complete_list(seq![a, b, c]);
    assert(seq![a, b, c][0] == a && seq![a, b, c][1] == b && seq![a, b, c][2] == c);
}

/// A sequence of [`complete`] expressions with one more appended is one.
pub proof fn lemma_complete_push(s: Seq<IdedExpr>, x: IdedExpr)
    requires
        complete_list(s),
        complete(x),
    ensures
        complete_list(s.push(x)),
{
    lemma_complete_list(s);
    lemma_complete_list(s.push(x));
    assert forall|i: int| 0 <= i < s.push(x).len() implies complete(#[trigger] s.push(x)[i]) by {
        if i < s.len() {
            assert(s.push(x)[i] == s[i]);
        }
    }
}

/// A sequence of [`complete_entry`] entries with one more appended is one.
pub proof fn lemma_complete_entries_push(s: Seq<IdedEntryExpr>, x: IdedEntryExpr)
    requires
        complete_entries(s),
        complete_entry(x.expr),
    ensures
        complete_entries(s.push(x)),
{
    lemma_complete_entries(s);
    lemma_complete_entries(s.push(x));
    assert forall|i: int| 0 <= i < s.push(x).len() implies complete_entry(#[trigger] s.push(x)[i].expr) by {
        if i < s.len() {
            assert(s.push(x)[i] == s[i]);
        }
    }
}

/// Whether `s` is an identifier: one or more letters, digits or `_`.
pub open spec fn ident_name(s: Seq<char>) -> bool {
    s.len() > 0 && forall|k: int| 0 <= k < s.len() ==> ('a' <= #[trigger] s[k] <= 'z') || ('A' <= s[k] <= 'Z')
        || ('0' <= s[k] <= '9') || s[k] == '_'
}

/// Whether every field that `e` selects, or sets in a message literal, is
/// named by an identifier.
pub open spec fn ident_fields(e: IdedExpr) -> bool
    decreases e, 1int,
{
    match e.expr {
        Expr::Call(c) => ident_fields_target(c.target) && ident_fields_list(c.args@),
        Expr::Comprehension(c) => ident_fields(c.iter_range) && ident_fields(c.accu_init) && ident_fields(c.loop_cond)
            && ident_fields(c.loop_step) && ident_fields(c.result),
        Expr::List(l) => ident_fields_list(l.elements@),
        Expr::MapLit(m) => ident_fields_entries(m.entries@),
        Expr::Select(s) => ident_name(s.field@) && ident_fields(*s.operand),
        Expr::Struct(s) => ident_fields_entries(s.entries@),
        _ => true,
    }
}

/// Whether an optional target has [`ident_fields`].
pub open spec fn ident_fields_target(t: Option<Box<IdedExpr>>) -> bool
    decreases t, 0int,
{
    match t {
        Some(t) => ident_fields(*t),
        None => true,
    }
}

/// Whether an entry sets a field named by an identifier, if it sets one,
/// and its expressions have [`ident_fields`].
pub open spec fn ident_fields_entry(e: EntryExpr) -> bool
    decreases e, 0int,
{
    match e {
        EntryExpr::StructField(f) => ident_name(f.field@) && ident_fields(f.value),
        EntryExpr::MapEntry(m) => ident_fields(m.key) && ident_fields(m.value),
    }
}

/// Whether every expression of `s` has [`ident_fields`].
pub open spec fn ident_fields_list(s: Seq<IdedExpr>) -> bool
    decreases s, 0int,
{
    s.len() == 0 || (ident_fields(s[0]) && ident_fields_list(s.drop_first()))
}

/// Whether every entry of `s` is [`ident_fields_entry`].
pub open spec fn ident_fields_entries(s: Seq<IdedEntryExpr>) -> bool
    decreases s, 0int,
{
    s.len() == 0 || (ident_fields_entry(s[0].expr) && ident_fields_entries(s.drop_first()))
}

pub proof fn lemma_ident_fields_list(s: Seq<IdedExpr>)
    ensures
        ident_fields_list(s) <==> forall|i: int| 0 <= i < s.len() ==> ident_fields(#[trigger] s[i]),
    decreases s.len(),
{
    if s.len() > 0 {
        lemma_ident_fields_list(s.drop_first());
        if forall|i: int| 0 <= i < s.len() ==> ident_fields(#[trigger] s[i]) {
            assert forall|i: int| 0 <= i < s.drop_first().len() implies ident_fields(#[trigger] s.drop_first()[i]) by {
                assert(s.drop_first()[i] == s[i + 1]);
            }
        }
        if ident_fields_list(s) {
            assert forall|i: int| 0 <= i < s.len() implies ident_fields(#[trigger] s[i]) by {
                if i > 0 {
                    assert(s[i] == s.drop_first()[i - 1]);
                }
            }
        }
    }
}

pub proof fn lemma_ident_fields_entries(s: Seq<IdedEntryExpr>)
    ensures
        ident_fields_entries(s) <==> forall|i: int| 0 <= i < s.len() ==> ident_fields_entry(#[trigger] s[i].expr),
    decreases s.len(),
{
    if s.len() > 0 {
        lemma_ident_fields_entries(s.drop_first());
        if forall|i: int| 0 <= i < s.len() ==> ident_fields_entry(#[trigger] s[i].expr) {
            assert forall|i: int| 0 <= i < s.drop_first().len() implies ident_fields_entry(#[trigger] s.drop_first()[i].expr) by {
                assert(s.drop_first()[i] == s[i + 1]);
            }
        }
        if ident_fields_entries(s) {
            assert forall|i: int| 0 <= i < s.len() implies ident_fields_entry(#[trigger] s[i].expr) by {
                if i > 0 {
                    assert(s[i] == s.drop_first()[i - 1]);
                }
            }
        }
    }
}

pub proof fn lemma_ident_fields_list1(a: IdedExpr)
    requires
        ident_fields(a),
    ensures
        ident_fields_list(seq![a]),
{
    lemma_ident_fields_list(seq![a]);
    assert(seq![a][0] == a);
}

pub proof fn lemma_ident_fields_list2(a: IdedExpr, b: IdedExpr)
    requires
        ident_fields(a),
        ident_fields(b),
    ensures
        ident_fields_list(seq![a, b]),
{
    lemma_ident_fields_list(seq![a, b]);
    assert(seq![a, b][0] == a && seq![a, b][1] == b);
}

pub proof fn lemma_ident_fields_list3(a: IdedExpr, b: IdedExpr, c: IdedExpr)
    requires
        ident_fields(a),
        ident_fields(b),
        ident_fields(c),
    ensures
        ident_fields_list(seq![a, b, c]),
{
    lemma_ident_fields_list(seq![a, b, c]);
    assert(seq![a, b, c][0] == a && seq![a, b, c][1] == b && seq![a, b, c][2] == c);
}

pub proof fn lemma_ident_fields_push(s: Seq<IdedExpr>, x: IdedExpr)
    requires
        ident_fields_list(s),
        ident_fields(x),
    ensures
        ident_fields_list(s.push(x)),
{
    lemma_ident_fields_list(s);
    lemma_ident_fields_list(s.push(x));
    assert forall|i: int| 0 <= i < s.push(x).len() implies ident_fields(#[trigger] s.push(x)[i]) by {
        if i < s.len() {
            assert(s.push(x)[i] == s[i]);
        }
    }
}

pub proof fn lemma_ident_fields_entries_push(s: Seq<IdedEntryExpr>, x: IdedEntryExpr)
    requires
        ident_fields_entries(s),
        ident_fields_entry(x.expr),
    ensures
        ident_fields_entries(s.push(x)),
{
    lemma_ident_fields_entries(s);
    lemma_ident_fields_entries(s.push(x));
    assert forall|i: int| 0 <= i < s.push(x).len() implies ident_fields_entry(#[trigger] s.push(x)[i].expr) by {
        if i < s.len() {
            assert(s.push(x)[i] == s[i]);
        }
    }
}

} // verus!
