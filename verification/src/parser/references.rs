//! The variables and functions an expression refers to.

use vstd::prelude::*;
use crate::common::ast::{EntryExpr, Expr, IdedEntryExpr, IdedExpr};
use crate::text::{chars_of, str_eq, to_string, views};

verus! {

/// The variables an expression refers to: its identifiers, but those that
/// start with `@`, which name the variables a macro introduces.
pub open spec fn expr_vars(e: IdedExpr) -> Set<Seq<char>>
    decreases e, 1int,
{
    match e.expr {
        Expr::Call(c) => match c.target {
            Some(t) => expr_vars(*t),
            None => Set::empty(),
        }.union(list_vars(c.args@)),
        Expr::Comprehension(c) => expr_vars(c.iter_range).union(expr_vars(c.accu_init)).union(
            expr_vars(c.loop_cond),
        ).union(expr_vars(c.loop_step)).union(expr_vars(c.result)),
        Expr::Ident(name) => if name@.len() > 0 && name@[0] == '@' {
            Set::empty()
        } else {
            set![name@]
        },
        Expr::List(l) => list_vars(l.elements@),
        Expr::MapLit(m) => entries_vars(m.entries@),
        Expr::Select(s) => expr_vars(*s.operand),
        Expr::Struct(s) => entries_vars(s.entries@),
        _ => Set::empty(),
    }
}

pub open spec fn list_vars(s: Seq<IdedExpr>) -> Set<Seq<char>>
    decreases s, 0int,
{
    if s.len() == 0 {
        Set::empty()
    } else {
        list_vars(s.drop_last()).union(expr_vars(s.last()))
    }
}

pub open spec fn entry_vars(e: EntryExpr) -> Set<Seq<char>>
    decreases e, 0int,
{
    match e {
        EntryExpr::StructField(f) => expr_vars(f.value),
        EntryExpr::MapEntry(m) => expr_vars(m.key).union(expr_vars(m.value)),
    }
}

pub open spec fn entries_vars(s: Seq<IdedEntryExpr>) -> Set<Seq<char>>
    decreases s, 0int,
{
    if s.len() == 0 {
        Set::empty()
    } else {
        entries_vars(s.drop_last()).union(entry_vars(s.last().expr))
    }
}

/// The functions an expression calls, operators included.
pub open spec fn expr_funcs(e: IdedExpr) -> Set<Seq<char>>
    decreases e, 1int,
{
    match e.expr {
        Expr::Call(c) => set![c.func_name@].union(match c.target {
            Some(t) => expr_funcs(*t),
            None => Set::empty(),
        }).union(list_funcs(c.args@)),
        Expr::Comprehension(c) => expr_funcs(c.iter_range).union(expr_funcs(c.accu_init)).union(
            expr_funcs(c.loop_cond),
        ).union(expr_funcs(c.loop_step)).union(expr_funcs(c.result)),
        Expr::List(l) => list_funcs(l.elements@),
        Expr::MapLit(m) => entries_funcs(m.entries@),
        Expr::Select(s) => expr_funcs(*s.operand),
        Expr::Struct(s) => entries_funcs(s.entries@),
        _ => Set::empty(),
    }
}

pub open spec fn list_funcs(s: Seq<IdedExpr>) -> Set<Seq<char>>
    decreases s, 0int,
{
    if s.len() == 0 {
        Set::empty()
    } else {
        list_funcs(s.drop_last()).union(expr_funcs(s.last()))
    }
}

pub open spec fn entry_funcs(e: EntryExpr) -> Set<Seq<char>>
    decreases e, 0int,
{
    match e {
        EntryExpr::StructField(f) => expr_funcs(f.value),
        EntryExpr::MapEntry(m) => expr_funcs(m.key).union(expr_funcs(m.value)),
    }
}

pub open spec fn entries_funcs(s: Seq<IdedEntryExpr>) -> Set<Seq<char>>
    decreases s, 0int,
{
    if s.len() == 0 {
        Set::empty()
    } else {
        entries_funcs(s.drop_last()).union(entry_funcs(s.last().expr))
    }
}

/// The expressions directly inside `e`: the target and the arguments of a
/// call; the range, initial accumulator, condition, step and result of a
/// comprehension; the elements of a list; the keys and values of a map; the
/// field values of a message; the operand of a selection.
pub open spec fn children(e: IdedExpr) -> Seq<IdedExpr> {
    match e.expr {
        Expr::Call(c) => target_children(c.target) + c.args@,
        Expr::Comprehension(c) => seq![c.iter_range, c.accu_init, c.loop_cond, c.loop_step, c.result],
        Expr::List(l) => l.elements@,
        Expr::MapLit(m) => entry_children(m.entries@),
        Expr::Select(s) => seq![*s.operand],
        Expr::Struct(s) => entry_children(s.entries@),
        _ => Seq::empty(),
    }
}

/// The target of a call, if it has one.
pub open spec fn target_children(t: Option<Box<IdedExpr>>) -> Seq<IdedExpr> {
    match t {
        Some(t) => seq![*t],
        None => Seq::empty(),
    }
}

/// The keys and values, or field values, of `es`, in order.
pub open spec fn entry_children(es: Seq<IdedEntryExpr>) -> Seq<IdedExpr>
    decreases es.len(),
{
    if es.len() == 0 {
        Seq::empty()
    } else {
        entry_children(es.drop_last()) + entry_parts(es.last().expr)
    }
}

/// The key and value of a map entry, or the value of a message field.
pub open spec fn entry_parts(e: EntryExpr) -> Seq<IdedExpr> {
    match e {
        EntryExpr::StructField(f) => seq![f.value],
        EntryExpr::MapEntry(m) => seq![m.key, m.value],
    }
}

proof fn lemma_list_refs(s: Seq<IdedExpr>, i: int)
    requires
        0 <= i < s.len(),
    ensures
        expr_vars(s[i]).subset_of(list_vars(s)),
        expr_funcs(s[i]).subset_of(list_funcs(s)),
    decreases s.len(),
{
    if i < s.len() - 1 {
        lemma_list_refs(s.drop_last(), i);
        assert(s.drop_last()[i] == s[i]);
    }
}

proof fn lemma_entry_refs(es: Seq<IdedEntryExpr>, i: int)
    requires
        0 <= i < entry_children(es).len(),
    ensures
        expr_vars(entry_children(es)[i]).subset_of(entries_vars(es)),
        expr_funcs(entry_children(es)[i]).subset_of(entries_funcs(es)),
    decreases es.len(),
{
    assert(es.len() > 0);
    let front = entry_children(es.drop_last());
    let parts = entry_parts(es.last().expr);
    assert(entry_children(es) == front + parts);
    assert(entries_vars(es) == entries_vars(es.drop_last()).union(entry_vars(es.last().expr)));
    assert(entries_funcs(es) == entries_funcs(es.drop_last()).union(entry_funcs(es.last().expr)));
    if i < front.len() {
        lemma_entry_refs(es.drop_last(), i);
        assert(entry_children(es)[i] == front[i]);
    } else {
        match es.last().expr {
            EntryExpr::StructField(f) => {
                assert(entry_children(es)[i] == f.value);
            },
            EntryExpr::MapEntry(m) => {
                if i == front.len() {
                    assert(entry_children(es)[i] == m.key);
                } else {
                    assert(entry_children(es)[i] == m.value);
                }
            },
        }
    }
}

/// What an expression refers to includes everything each expression
/// directly inside it refers to: the range a macro iterates over, the
/// target and arguments of a call, elements, keys and values, operands.
pub proof fn law_children_references(e: IdedExpr, i: int)
    requires
        0 <= i < children(e).len(),
    ensures
        expr_vars(children(e)[i]).subset_of(expr_vars(e)),
        expr_funcs(children(e)[i]).subset_of(expr_funcs(e)),
{
    match e.expr {
        Expr::Call(c) => {
            let front = target_children(c.target);
            if i < front.len() {
                assert(children(e)[i] == front[i]);
            } else {
                assert(children(e)[i] == c.args@[i - front.len()]);
                lemma_list_refs(c.args@, i - front.len());
            }
        },
        Expr::List(l) => {
            lemma_list_refs(l.elements@, i);
        },
        Expr::MapLit(m) => {
            lemma_entry_refs(m.entries@, i);
        },
        Expr::Struct(st) => {
            lemma_entry_refs(st.entries@, i);
        },
        _ => {},
    }
}

/// An identifier that does not start with `@` is a variable the expression
/// refers to, and a call refers to the function it calls.
pub proof fn law_leaf_references(e: IdedExpr)
    ensures
        e.expr matches Expr::Ident(n) ==> ((n@.len() > 0 && n@[0] == '@') || expr_vars(e).contains(n@)),
        e.expr matches Expr::Call(c) ==> expr_funcs(e).contains(c.func_name@),
{
}

/// No name occurs twice.
pub open spec fn distinct_names(v: Seq<String>) -> bool {
    views(v).no_duplicates()
}

/// The names, as a set.
pub open spec fn name_set(v: Seq<String>) -> Set<Seq<char>> {
    views(v).to_set()
}

/// All the references that an expression makes to variables and functions.
pub struct ExpressionReferences {
    variables: Vec<String>,
    functions: Vec<String>,
}

impl ExpressionReferences {
    /// The variables referred to, in the order they were found.
    pub closed spec fn variable_names(self) -> Seq<Seq<char>> {
        views(self.variables@)
    }

    /// The functions referred to, in the order they were found.
    pub closed spec fn function_names(self) -> Seq<Seq<char>> {
        views(self.functions@)
    }

    /// The variables referred to.
    pub open spec fn variable_set(self) -> Set<Seq<char>> {
        self.variable_names().to_set()
    }

    /// The functions referred to.
    pub open spec fn function_set(self) -> Set<Seq<char>> {
        self.function_names().to_set()
    }

    /// Whether the expression refers to the variable `name`.
    pub fn has_variable(&self, name: &str) -> (r: bool)
        ensures
            r == self.variable_set().contains(name@),
    {
        position_of(&self.variables, name).is_some()
    }

    /// Whether the expression calls the function `name`.
    pub fn has_function(&self, name: &str) -> (r: bool)
        ensures
            r == self.function_set().contains(name@),
    {
        position_of(&self.functions, name).is_some()
    }

    /// All variables referred to.
    pub fn variables(&self) -> (v: Vec<String>)
        ensures
            views(v@) == self.variable_names(),
    {
        copy_names(&self.variables)
    }

    /// All functions called.
    pub fn functions(&self) -> (v: Vec<String>)
        ensures
            views(v@) == self.function_names(),
    {
        copy_names(&self.functions)
    }
}

/// Where `name` stands in `v`, if it does.
fn position_of(v: &Vec<String>, name: &str) -> (r: Option<usize>)
    ensures
        r is Some <==> name_set(v@).contains(name@),
        r matches Some(k) ==> k < v@.len() && v@[k as int]@ == name@,
{
    let mut k: usize = 0;
    while k < v.len()
        invariant
            k <= v@.len(),
            forall|j: int| 0 <= j < k ==> v@[j]@ != name@,
        decreases v@.len() - k,
    {
        if str_eq(v[k].as_str(), name) {
            assert(views(v@)[k as int] == name@);
            return Some(k);
        }
        k += 1;
    }
    assert forall|x: Seq<char>| name_set(v@).contains(x) implies x != name@ by {
        let j = choose|j: int| 0 <= j < views(v@).len() && views(v@)[j] == x;
    }
    None
}

fn copy_names(v: &Vec<String>) -> (r: Vec<String>)
    ensures
        views(r@) == views(v@),
{
    let mut r: Vec<String> = Vec::new();
    let mut k: usize = 0;
    while k < v.len()
        invariant
            k <= v@.len(),
            r@.len() == k,
            forall|j: int| 0 <= j < k ==> #[trigger] r@[j]@ == v@[j]@,
        decreases v@.len() - k,
    {
        let x = to_string(v[k].as_str());
        r.push(x);
        k += 1;
    }
    assert(views(r@) =~= views(v@));
    r
}

/// Adds `name` to `v` unless it is there already.
fn insert_name(v: &mut Vec<String>, name: &str)
    requires
        distinct_names(old(v)@),
    ensures
        distinct_names(final(v)@),
        name_set(final(v)@) == name_set(old(v)@).insert(name@),
{
    if position_of(v, name).is_none() {
        let ghost before = v@;
        v.push(to_string(name));
        proof {
            assert(views(v@) =~= views(before).push(name@));
            assert(!views(before).contains(name@));
            assert forall|x: Seq<char>| #[trigger] name_set(v@).contains(x) == name_set(before).insert(name@).contains(x) by {
                if name_set(v@).contains(x) {
                    let j = choose|j: int| 0 <= j < views(v@).len() && views(v@)[j] == x;
                    if j < views(before).len() {
                        assert(views(before)[j] == x);
                    }
                }
                if name_set(before).contains(x) {
                    let j = choose|j: int| 0 <= j < views(before).len() && views(before)[j] == x;
                    assert(views(v@)[j] == x);
                }
                if x == name@ {
                    assert(views(v@)[views(before).len() as int] == x);
                }
            }
            assert(name_set(v@) =~= name_set(before).insert(name@));
        }
    } else {
        assert(name_set(v@) =~= name_set(v@).insert(name@));
    }
}

/// Adds the references of `e` to `vars` and `funcs`.
fn collect(e: &IdedExpr, vars: &mut Vec<String>, funcs: &mut Vec<String>)
    requires
        distinct_names(old(vars)@),
        distinct_names(old(funcs)@),
    ensures
        distinct_names(final(vars)@),
        distinct_names(final(funcs)@),
        name_set(final(vars)@) == name_set(old(vars)@).union(expr_vars(*e)),
        name_set(final(funcs)@) == name_set(old(funcs)@).union(expr_funcs(*e)),
    decreases *e,
{
    match &e.expr {
        Expr::Unspecified | Expr::Literal(_) => {
            assert(name_set(vars@) =~= name_set(vars@).union(expr_vars(*e)));
            assert(name_set(funcs@) =~= name_set(funcs@).union(expr_funcs(*e)));
        },
        Expr::Call(c) => {
            insert_name(funcs, c.func_name.as_str());
            match &c.target {
                Some(t) => collect(t, vars, funcs),
                None => {},
            }
            collect_list(&c.args, vars, funcs);
            assert(name_set(vars@) =~= name_set(old(vars)@).union(expr_vars(*e)));
            assert(name_set(funcs@) =~= name_set(old(funcs)@).union(expr_funcs(*e)));
        },
        Expr::Comprehension(c) => {
            collect(&c.iter_range, vars, funcs);
            collect(&c.accu_init, vars, funcs);
            collect(&c.loop_cond, vars, funcs);
            collect(&c.loop_step, vars, funcs);
            collect(&c.result, vars, funcs);
            assert(name_set(vars@) =~= name_set(old(vars)@).union(expr_vars(*e)));
            assert(name_set(funcs@) =~= name_set(old(funcs)@).union(expr_funcs(*e)));
        },
        Expr::Ident(name) => {
            let cs = chars_of(name.as_str());
            if !(cs.len() > 0 && cs[0] == '@') {
                insert_name(vars, name.as_str());
            } else {
                assert(name_set(vars@) =~= name_set(vars@).union(expr_vars(*e)));
            }
            assert(name_set(funcs@) =~= name_set(funcs@).union(expr_funcs(*e)));
        },
        Expr::List(l) => {
            collect_list(&l.elements, vars, funcs);
        },
        Expr::MapLit(m) => {
            collect_entries(&m.entries, vars, funcs);
        },
        Expr::Select(s) => {
            collect(&s.operand, vars, funcs);
        },
        Expr::Struct(s) => {
            collect_entries(&s.entries, vars, funcs);
        },
    }
}

fn collect_list(list: &Vec<IdedExpr>, vars: &mut Vec<String>, funcs: &mut Vec<String>)
    requires
        distinct_names(old(vars)@),
        distinct_names(old(funcs)@),
    ensures
        distinct_names(final(vars)@),
        distinct_names(final(funcs)@),
        name_set(final(vars)@) == name_set(old(vars)@).union(list_vars(list@)),
        name_set(final(funcs)@) == name_set(old(funcs)@).union(list_funcs(list@)),
    decreases list@, 0int,
{
    let mut k: usize = 0;
    assert(list@.take(0) =~= Seq::<IdedExpr>::empty());
    while k < list.len()
        invariant
            k <= list@.len(),
            distinct_names(vars@),
            distinct_names(funcs@),
            name_set(vars@) == name_set(old(vars)@).union(list_vars(list@.take(k as int))),
            name_set(funcs@) == name_set(old(funcs)@).union(list_funcs(list@.take(k as int))),
        decreases list@.len() - k,
    {
        assert(list@.take(k + 1).drop_last() =~= list@.take(k as int));
        collect(&list[k], vars, funcs);
        assert(name_set(vars@) =~= name_set(old(vars)@).union(list_vars(list@.take(k + 1))));
        assert(name_set(funcs@) =~= name_set(old(funcs)@).union(list_funcs(list@.take(k + 1))));
        k += 1;
    }
    assert(list@.take(list@.len() as int) =~= list@);
}

fn collect_entries(entries: &Vec<IdedEntryExpr>, vars: &mut Vec<String>, funcs: &mut Vec<String>)
    requires
        distinct_names(old(vars)@),
        distinct_names(old(funcs)@),
    ensures
        distinct_names(final(vars)@),
        distinct_names(final(funcs)@),
        name_set(final(vars)@) == name_set(old(vars)@).union(entries_vars(entries@)),
        name_set(final(funcs)@) == name_set(old(funcs)@).union(entries_funcs(entries@)),
    decreases entries@, 0int,
{
    let mut k: usize = 0;
    assert(entries@.take(0) =~= Seq::<IdedEntryExpr>::empty());
    while k < entries.len()
        invariant
            k <= entries@.len(),
            distinct_names(vars@),
            distinct_names(funcs@),
            name_set(vars@) == name_set(old(vars)@).union(entries_vars(entries@.take(k as int))),
            name_set(funcs@) == name_set(old(funcs)@).union(entries_funcs(entries@.take(k as int))),
        decreases entries@.len() - k,
    {
        assert(entries@.take(k + 1).drop_last() =~= entries@.take(k as int));
        assert(entries@.take(k + 1).last() == entries@[k as int]);
        match &entries[k].expr {
            EntryExpr::StructField(f) => {
                collect(&f.value, vars, funcs);
                assert(entry_vars(entries@[k as int].expr) == expr_vars(f.value));
                assert(entry_funcs(entries@[k as int].expr) == expr_funcs(f.value));
            },
            EntryExpr::MapEntry(m) => {
                collect(&m.key, vars, funcs);
                collect(&m.value, vars, funcs);
                assert(entry_vars(entries@[k as int].expr) == expr_vars(m.key).union(expr_vars(m.value)));
                assert(entry_funcs(entries@[k as int].expr) == expr_funcs(m.key).union(expr_funcs(m.value)));
            },
        }
        assert(name_set(vars@) =~= name_set(old(vars)@).union(entries_vars(entries@.take(k + 1))));
        assert(name_set(funcs@) =~= name_set(old(funcs)@).union(entries_funcs(entries@.take(k + 1))));
        k += 1;
    }
    assert(entries@.take(entries@.len() as int) =~= entries@);
}

impl IdedExpr {
    /// All the variables and functions that the expression refers to.
    pub fn references(&self) -> (r: ExpressionReferences)
        ensures
            r.variable_set() == expr_vars(*self),
            r.function_set() == expr_funcs(*self),
            r.variable_names().no_duplicates(),
            r.function_names().no_duplicates(),
    {
        let mut variables: Vec<String> = Vec::new();
        let mut functions: Vec<String> = Vec::new();
        assert(name_set(variables@) =~= Set::<Seq<char>>::empty());
        assert(name_set(functions@) =~= Set::<Seq<char>>::empty());
        collect(self, &mut variables, &mut functions);
        assert(name_set(variables@) =~= expr_vars(*self));
        assert(name_set(functions@) =~= expr_funcs(*self));
        ExpressionReferences { variables, functions }
    }
}

} // verus!
