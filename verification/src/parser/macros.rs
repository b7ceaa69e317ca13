//! The macros of CEL, expanded while parsing: `has(a.f)`, the presence
//! test of a field, and the comprehensions `all`, `exists`, `exists_one`,
//! `map` and `filter` on a range.
//!
//! An expansion numbers the expressions it builds with consecutive ids
//! from a base id; the expressions of its arguments keep theirs.

use vstd::prelude::*;
use vstd::multiset::Multiset;
use crate::common::ast::{
    ids_m, lemma_ids_m, lemma_list_m1, lemma_list_m2, lemma_list_m3, lemma_list_m_empty, lemma_operator_names,
    lemma_plain_call, lemma_plain_list1, lemma_plain_list2, lemma_plain_list3, list_m, plain_list, complete, complete_list,
    lemma_complete_list1, lemma_complete_list2, lemma_complete_list3, ident_fields, ident_fields_list,
    lemma_ident_fields_list1, lemma_ident_fields_list2, lemma_ident_fields_list3, optional_func, plain, CallExpr, ComprehensionExpr, Expr, IdedExpr,
    ListExpr, LiteralValue, SelectExpr,
};
use crate::text::{str_eq, to_string};

verus! {

/// The macros, by name and number of arguments.
#[derive(Clone, Copy, Debug, PartialEq, Eq, Structural)]
pub enum Macro {
    /// `has(a.f)`
    Has,
    /// `r.all(v, p)`
    All,
    /// `r.exists(v, p)`
    Exists,
    /// `r.exists_one(v, p)`, also written `r.existsOne(v, p)`
    ExistsOne,
    /// `r.map(v, f)`
    Mapping,
    /// `r.map(v, p, f)`
    MappingFiltered,
    /// `r.filter(v, p)`
    Filter,
}

/// The macro that a call of `name`, with a target or not and with `argc`
/// arguments, stands for, if any.
pub open spec fn macro_of(name: Seq<char>, has_target: bool, argc: nat) -> Option<Macro> {
    if !has_target {
        if name == "has"@ && argc == 1 { Some(Macro::Has) } else { None }
    } else if argc == 2 {
        if name == "all"@ {
            Some(Macro::All)
        } else if name == "exists"@ {
            Some(Macro::Exists)
        } else if name == "exists_one"@ || name == "existsOne"@ {
            Some(Macro::ExistsOne)
        } else if name == "map"@ {
            Some(Macro::Mapping)
        } else if name == "filter"@ {
            Some(Macro::Filter)
        } else {
            None
        }
    } else if argc == 3 && name == "map"@ {
        Some(Macro::MappingFiltered)
    } else {
        None
    }
}

/// How many expressions the expansion of `m` builds, and so how many ids
/// it hands out.
pub open spec fn expansion_size(m: Macro) -> nat {
    match m {
        Macro::Has => 1,
        Macro::All => 7,
        Macro::Exists => 8,
        Macro::ExistsOne => 11,
        Macro::Mapping => 7,
        Macro::MappingFiltered => 9,
        Macro::Filter => 9,
    }
}

/// A macro's name is long enough to pay for the ids of its expansion, at
/// four per character.
pub(crate) proof fn lemma_expansion_fits(name: Seq<char>, has_target: bool, argc: nat)
    requires
        macro_of(name, has_target, argc) is Some,
    ensures
        expansion_size(macro_of(name, has_target, argc)->Some_0) <= 4 * name.len(),
{
    reveal_strlit("has");
    reveal_strlit("all");
    reveal_strlit("exists");
    reveal_strlit("exists_one");
    reveal_strlit("existsOne");
    reveal_strlit("map");
    reveal_strlit("filter");
}

/// How many ids the expansion of `m` hands out.
pub fn size_of_expansion(m: Macro) -> (r: u64)
    ensures
        r == expansion_size(m),
{
    match m {
        Macro::Has => 1,
        Macro::All => 7,
        Macro::Exists => 8,
        Macro::ExistsOne => 11,
        Macro::Mapping => 7,
        Macro::MappingFiltered => 9,
        Macro::Filter => 9,
    }
}

/// The macro that a call of `name` stands for, if any.
pub fn find_macro(name: &str, has_target: bool, argc: usize) -> (r: Option<Macro>)
    ensures
        r == macro_of(name@, has_target, argc as nat),
{
    if !has_target {
        if argc == 1 && str_eq(name, "has") { Some(Macro::Has) } else { None }
    } else if argc == 2 {
        if str_eq(name, "all") {
            Some(Macro::All)
        } else if str_eq(name, "exists") {
            Some(Macro::Exists)
        } else if str_eq(name, "exists_one") || str_eq(name, "existsOne") {
            Some(Macro::ExistsOne)
        } else if str_eq(name, "map") {
            Some(Macro::Mapping)
        } else if str_eq(name, "filter") {
            Some(Macro::Filter)
        } else {
            None
        }
    } else if argc == 3 && str_eq(name, "map") {
        Some(Macro::MappingFiltered)
    } else {
        None
    }
}

/// Whether `x` is one of the `k` ids from `b` on.
pub open spec fn in_block(b: u64, k: int, x: u64) -> nat {
    if b <= x < b + k { 1 } else { 0 }
}

/// `e` reads the accumulator `@result`, with id `id`.
pub open spec fn is_accu(e: IdedExpr, id: int) -> bool {
    &&& e.id == id
    &&& e.expr matches Expr::Ident(n) && n@ == "@result"@
}

/// `e` is the literal `v`, with id `id`.
pub open spec fn is_lit(e: IdedExpr, id: int, v: LiteralValue) -> bool {
    e.id == id && e.expr == Expr::Literal(v)
}

/// `e` is a call of `f` without a target, with id `id` and `n` arguments.
pub open spec fn is_call(e: IdedExpr, id: int, f: Seq<char>, n: nat) -> bool {
    &&& e.id == id
    &&& e.expr matches Expr::Call(c) && c.func_name@ == f && c.target is None && c.args@.len() == n
}

/// Argument `i` of the call `e`.
pub open spec fn arg(e: IdedExpr, i: int) -> IdedExpr {
    match e.expr {
        Expr::Call(c) => c.args@[i],
        _ => e,
    }
}

/// `e` is the list literal of `items`, none of them optional, with id `id`.
pub open spec fn is_list(e: IdedExpr, id: int, items: Seq<IdedExpr>) -> bool {
    &&& e.id == id
    &&& e.expr matches Expr::List(l) && l.elements@ == items && l.optional_indices@.len() == 0
}

/// The comprehension `e` stands for.
pub open spec fn comp(e: IdedExpr) -> ComprehensionExpr {
    match e.expr {
        Expr::Comprehension(c) => *c,
        _ => arbitrary(),
    }
}

/// `e` is a comprehension with id `id`, over `range` with the variable
/// `var` and the accumulator `@result`.
pub open spec fn is_comprehension(e: IdedExpr, id: int, var: Seq<char>, range: IdedExpr) -> bool {
    &&& e.id == id
    &&& e.expr is Comprehension
    &&& comp(e).iter_var@ == var
    &&& comp(e).iter_var2 is None
    &&& comp(e).accu_var@ == "@result"@
    &&& comp(e).iter_range == range
}

/// `e` is `pred ? @result + [item] : @result`, with ids `b + 2` to `b + 6`.
pub open spec fn is_guarded_append(e: IdedExpr, b: int, pred: IdedExpr, item: IdedExpr) -> bool {
    &&& is_call(e, b + 6, "_?_:_"@, 3)
    &&& arg(e, 0) == pred
    &&& is_call(arg(e, 1), b + 4, "_+_"@, 2)
    &&& is_accu(arg(arg(e, 1), 0), b + 2)
    &&& is_list(arg(arg(e, 1), 1), b + 3, seq![item])
    &&& is_accu(arg(e, 2), b + 5)
}

// ---------------------------------------------------------------------------
// Building blocks
// ---------------------------------------------------------------------------

/// A call of `func` with `args`, without a target.
pub(crate) fn call(id: u64, func: &str, args: Vec<IdedExpr>) -> (e: IdedExpr)
    ensures
        e.id == id,
        e.expr matches Expr::Call(c) && c.func_name@ == func@ && c.target is None && c.args@ == args@,
        ids_m(e) =~= Multiset::singleton(id).add(list_m(args@)),
        !optional_func(func@) && plain_list(args@) ==> plain(e),
        complete_list(args@) ==> complete(e),
        ident_fields_list(args@) ==> ident_fields(e),
{
    let e = IdedExpr { id, expr: Expr::Call(CallExpr { func_name: to_string(func), target: None, args }) };
    proof {
        if !optional_func(func@) && plain_list(e.expr->Call_0.args@) {
            lemma_plain_call(e);
        }
        assert(crate::common::ast::complete_target(e.expr->Call_0.target));
        assert(crate::common::ast::ident_fields_target(e.expr->Call_0.target));
        broadcast use vstd::multiset::group_multiset_axioms;
        lemma_ids_m(e);
        crate::common::ast::lemma_empty_m();
        assert(crate::common::ast::target_ids(None) =~= Seq::<u64>::empty());
    }
    e
}

/// A leaf: a literal or an identifier.
pub(crate) fn leaf(id: u64, expr: Expr) -> (e: IdedExpr)
    requires
        expr is Literal || expr is Ident,
    ensures
        e.id == id,
        e.expr == expr,
        ids_m(e) =~= Multiset::singleton(id),
        plain(e),
        complete(e),
        ident_fields(e),
{
    let e = IdedExpr { id, expr };
    proof {
        broadcast use vstd::multiset::group_multiset_axioms;
        lemma_ids_m(e);
    }
    e
}

/// The accumulator of a comprehension, read.
fn accumulator(id: u64) -> (e: IdedExpr)
    ensures
        e.id == id,
        e.expr matches Expr::Ident(n) && n@ == "@result"@,
        ids_m(e) =~= Multiset::singleton(id),
        plain(e),
        complete(e),
        ident_fields(e),
{
    leaf(id, Expr::Ident(to_string("@result")))
}

/// A list literal of `elements`, none of them optional.
fn list_of(id: u64, elements: Vec<IdedExpr>) -> (e: IdedExpr)
    ensures
        e.id == id,
        e.expr matches Expr::List(l) && l.elements@ == elements@ && l.optional_indices@.len() == 0,
        ids_m(e) =~= Multiset::singleton(id).add(list_m(elements@)),
        plain_list(elements@) ==> plain(e),
        complete_list(elements@) ==> complete(e),
        ident_fields_list(elements@) ==> ident_fields(e),
{
    let e = IdedExpr { id, expr: Expr::List(ListExpr { elements, optional_indices: Vec::new() }) };
    proof {
        lemma_ids_m(e);
    }
    e
}

/// A comprehension over `range` with the accumulator `@result`.
fn comprehension(
    id: u64,
    iter_var: String,
    iter_range: IdedExpr,
    accu_init: IdedExpr,
    loop_cond: IdedExpr,
    loop_step: IdedExpr,
    result: IdedExpr,
) -> (e: IdedExpr)
    ensures
        e.id == id,
        e.expr matches Expr::Comprehension(c) && c.iter_var == iter_var && c.iter_var2 is None
            && c.accu_var@ == "@result"@ && c.iter_range == iter_range && c.accu_init == accu_init
            && c.loop_cond == loop_cond && c.loop_step == loop_step && c.result == result,
        ids_m(e) =~= Multiset::singleton(id).add(ids_m(iter_range)).add(ids_m(accu_init)).add(ids_m(loop_cond))
            .add(ids_m(loop_step)).add(ids_m(result)),
        plain(iter_range) && plain(accu_init) && plain(loop_cond) && plain(loop_step) && plain(result) ==> plain(e),
        complete(iter_range) && complete(accu_init) && complete(loop_cond) && complete(loop_step) && complete(result) ==> complete(e),
        ident_fields(iter_range) && ident_fields(accu_init) && ident_fields(loop_cond) && ident_fields(loop_step) && ident_fields(result) ==> ident_fields(e),
{
    let accu_var = to_string("@result");
    let ghost parts = (iter_range, accu_init, loop_cond, loop_step, result);
    let c = ComprehensionExpr {
        iter_range,
        iter_var,
        iter_var2: None,
        accu_var,
        accu_init,
        loop_cond,
        loop_step,
        result,
    };
    let e = IdedExpr { id, expr: Expr::Comprehension(Box::new(c)) };
    proof {
        broadcast use vstd::multiset::group_multiset_axioms;
        lemma_ids_m(e);
        let (a, b, d, f, g) = parts;
        let (sa, sb, sd, sf, sg) = (
            crate::common::ast::expr_ids(a),
            crate::common::ast::expr_ids(b),
            crate::common::ast::expr_ids(d),
            crate::common::ast::expr_ids(f),
            crate::common::ast::expr_ids(g),
        );
        vstd::seq_lib::lemma_multiset_commutative(sa, sb);
        vstd::seq_lib::lemma_multiset_commutative(sa + sb, sd);
        vstd::seq_lib::lemma_multiset_commutative(sa + sb + sd, sf);
        vstd::seq_lib::lemma_multiset_commutative(sa + sb + sd + sf, sg);
    }
    e
}

// ---------------------------------------------------------------------------
// Expansions
// ---------------------------------------------------------------------------

/// `has(operand.field)`: the presence test of `field` in `operand`, with
/// id `b`.
pub(crate) fn expand_has(b: u64, operand: IdedExpr, field: String) -> (e: IdedExpr)
    ensures
        e.id == b,
        e.expr == Expr::Select(SelectExpr { operand: Box::new(operand), field, test: true }),
        forall|x: u64| #[trigger] ids_m(e).count(x) == ids_m(operand).count(x) + in_block(b, 1, x),
        plain(operand) ==> plain(e),
        complete(operand) ==> complete(e),
        ident_fields(operand) && crate::common::ast::ident_name(field@) ==> ident_fields(e),
{
    let e = IdedExpr { id: b, expr: Expr::Select(SelectExpr { operand: Box::new(operand), field, test: true }) };
    proof {
        broadcast use vstd::multiset::group_multiset_axioms;
        lemma_ids_m(e);
    }
    e
}

/// `range.all(var, pred)`: ids `b` to `b + 6`.
pub(crate) fn expand_all(b: u64, var: String, range: IdedExpr, pred: IdedExpr) -> (e: IdedExpr)
    requires
        b + 7 <= u64::MAX,
    ensures
        is_comprehension(e, b + 6, var@, range),
        is_lit(comp(e).accu_init, b as int, LiteralValue::Boolean(true)),
        is_call(comp(e).loop_cond, b + 2, "@not_strictly_false"@, 1),
        is_accu(arg(comp(e).loop_cond, 0), b + 1),
        is_call(comp(e).loop_step, b + 4, "_&&_"@, 2),
        is_accu(arg(comp(e).loop_step, 0), b + 3),
        arg(comp(e).loop_step, 1) == pred,
        is_accu(comp(e).result, b + 5),
        forall|x: u64| #[trigger] ids_m(e).count(x) == ids_m(range).count(x) + ids_m(pred).count(x) + in_block(b, 7, x),
        plain(range) && plain(pred) ==> plain(e),
        complete(range) && complete(pred) ==> complete(e),
        ident_fields(range) && ident_fields(pred) ==> ident_fields(e),
{
    let ghost (gr, gp) = (range, pred);
    let init = leaf(b, Expr::Literal(LiteralValue::Boolean(true)));
    let r1 = accumulator(b + 1);
    let ghost g1 = r1;
    let cond = call(b + 2, "@not_strictly_false", vec![r1]);
    let r2 = accumulator(b + 3);
    let ghost g2 = r2;
    let step = call(b + 4, "_&&_", vec![r2, pred]);
    let r3 = accumulator(b + 5);
    let ghost (gi, gc, gs, g3) = (init, cond, step, r3);
    let e = comprehension(b + 6, var, range, init, cond, step, r3);
    proof {
        broadcast use vstd::multiset::group_multiset_axioms;
        lemma_list_m1(g1);
        lemma_list_m2(g2, gp);
        assert(gc.expr matches Expr::Call(c) && c.args@ == seq![g1]);
        assert(ids_m(gc) =~= Multiset::singleton((b + 2) as u64).add(ids_m(g1)));
        assert(gs.expr matches Expr::Call(c) && c.args@ == seq![g2, gp]);
        if plain(gr) && plain(gp) {
            lemma_operator_names();
            lemma_plain_list1(g1);
            lemma_plain_list2(g2, gp);
            assert(plain(gc) && plain(gs));
        }
        if complete(gr) && complete(gp) {
            lemma_complete_list1(g1);
            lemma_complete_list2(g2, gp);
            assert(complete(gc) && complete(gs));
        }
        if ident_fields(gr) && ident_fields(gp) {
            lemma_ident_fields_list1(g1);
            lemma_ident_fields_list2(g2, gp);
            assert(ident_fields(gc) && ident_fields(gs));
        }
        assert forall|x: u64| #[trigger] ids_m(e).count(x) == ids_m(gr).count(x) + ids_m(gp).count(x) + in_block(b, 7, x) by {
            assert(ids_m(gc).count(x) == (if x == b + 2 { 1nat } else { 0 }) + (if x == b + 1 { 1nat } else { 0 }));
            assert(ids_m(gs).count(x) == (if x == b + 4 { 1nat } else { 0 }) + (if x == b + 3 { 1nat } else { 0 }) + ids_m(gp).count(x));
        }
    }
    e
}

/// `range.exists(var, pred)`: ids `b` to `b + 7`.
pub(crate) fn expand_exists(b: u64, var: String, range: IdedExpr, pred: IdedExpr) -> (e: IdedExpr)
    requires
        b + 8 <= u64::MAX,
    ensures
        is_comprehension(e, b + 7, var@, range),
        is_lit(comp(e).accu_init, b as int, LiteralValue::Boolean(false)),
        is_call(comp(e).loop_cond, b + 3, "@not_strictly_false"@, 1),
        is_call(arg(comp(e).loop_cond, 0), b + 2, "!_"@, 1),
        is_accu(arg(arg(comp(e).loop_cond, 0), 0), b + 1),
        is_call(comp(e).loop_step, b + 5, "_||_"@, 2),
        is_accu(arg(comp(e).loop_step, 0), b + 4),
        arg(comp(e).loop_step, 1) == pred,
        is_accu(comp(e).result, b + 6),
        forall|x: u64| #[trigger] ids_m(e).count(x) == ids_m(range).count(x) + ids_m(pred).count(x) + in_block(b, 8, x),
        plain(range) && plain(pred) ==> plain(e),
        complete(range) && complete(pred) ==> complete(e),
        ident_fields(range) && ident_fields(pred) ==> ident_fields(e),
{
    let ghost (gr, gp) = (range, pred);
    let init = leaf(b, Expr::Literal(LiteralValue::Boolean(false)));
    let r1 = accumulator(b + 1);
    let ghost g1 = r1;
    let not = call(b + 2, "!_", vec![r1]);
    let ghost gn = not;
    let cond = call(b + 3, "@not_strictly_false", vec![not]);
    let r2 = accumulator(b + 4);
    let ghost g2 = r2;
    let step = call(b + 5, "_||_", vec![r2, pred]);
    let r3 = accumulator(b + 6);
    let ghost (gc, gs) = (cond, step);
    let e = comprehension(b + 7, var, range, init, cond, step, r3);
    proof {
        broadcast use vstd::multiset::group_multiset_axioms;
        lemma_list_m1(g1);
        lemma_list_m1(gn);
        lemma_list_m2(g2, gp);
        assert(gn.expr matches Expr::Call(c) && c.args@ == seq![g1]);
        assert(gc.expr matches Expr::Call(c) && c.args@ == seq![gn]);
        assert(gs.expr matches Expr::Call(c) && c.args@ == seq![g2, gp]);
        if plain(gr) && plain(gp) {
            lemma_operator_names();
            lemma_plain_list1(g1);
            assert(plain(gn));
            lemma_plain_list1(gn);
            lemma_plain_list2(g2, gp);
            assert(plain(gc) && plain(gs));
        }
        if complete(gr) && complete(gp) {
            lemma_complete_list1(g1);
            assert(complete(gn));
            lemma_complete_list1(gn);
            lemma_complete_list2(g2, gp);
            assert(complete(gc) && complete(gs));
        }
        if ident_fields(gr) && ident_fields(gp) {
            lemma_ident_fields_list1(g1);
            assert(ident_fields(gn));
            lemma_ident_fields_list1(gn);
            lemma_ident_fields_list2(g2, gp);
            assert(ident_fields(gc) && ident_fields(gs));
        }
        assert forall|x: u64| #[trigger] ids_m(e).count(x) == ids_m(gr).count(x) + ids_m(gp).count(x) + in_block(b, 8, x) by {
            assert(ids_m(gn).count(x) == (if x == b + 2 { 1nat } else { 0 }) + (if x == b + 1 { 1nat } else { 0 }));
            assert(ids_m(gc).count(x) == (if x == b + 3 { 1nat } else { 0 }) + ids_m(gn).count(x));
            assert(ids_m(gs).count(x) == (if x == b + 5 { 1nat } else { 0 }) + (if x == b + 4 { 1nat } else { 0 }) + ids_m(gp).count(x));
        }
    }
    e
}

/// `range.exists_one(var, pred)`: ids `b` to `b + 10`.
pub(crate) fn expand_exists_one(b: u64, var: String, range: IdedExpr, pred: IdedExpr) -> (e: IdedExpr)
    requires
        b + 11 <= u64::MAX,
    ensures
        is_comprehension(e, b + 10, var@, range),
        is_lit(comp(e).accu_init, b as int, LiteralValue::Int(0)),
        is_lit(comp(e).loop_cond, b + 1, LiteralValue::Boolean(true)),
        is_call(comp(e).loop_step, b + 6, "_?_:_"@, 3),
        arg(comp(e).loop_step, 0) == pred,
        is_call(arg(comp(e).loop_step, 1), b + 4, "_+_"@, 2),
        is_accu(arg(arg(comp(e).loop_step, 1), 0), b + 2),
        is_lit(arg(arg(comp(e).loop_step, 1), 1), b + 3, LiteralValue::Int(1)),
        is_accu(arg(comp(e).loop_step, 2), b + 5),
        is_call(comp(e).result, b + 9, "_==_"@, 2),
        is_accu(arg(comp(e).result, 0), b + 7),
        is_lit(arg(comp(e).result, 1), b + 8, LiteralValue::Int(1)),
        forall|x: u64| #[trigger] ids_m(e).count(x) == ids_m(range).count(x) + ids_m(pred).count(x) + in_block(b, 11, x),
        plain(range) && plain(pred) ==> plain(e),
        complete(range) && complete(pred) ==> complete(e),
        ident_fields(range) && ident_fields(pred) ==> ident_fields(e),
{
    let init = leaf(b, Expr::Literal(LiteralValue::Int(0)));
    let cond = leaf(b + 1, Expr::Literal(LiteralValue::Boolean(true)));
    let r1 = accumulator(b + 2);
    let one = leaf(b + 3, Expr::Literal(LiteralValue::Int(1)));
    let ghost (g1, go) = (r1, one);
    let plus = call(b + 4, "_+_", vec![r1, one]);
    let r2 = accumulator(b + 5);
    let ghost (gp, gplus, g2) = (pred, plus, r2);
    let step = call(b + 6, "_?_:_", vec![pred, plus, r2]);
    let r3 = accumulator(b + 7);
    let one2 = leaf(b + 8, Expr::Literal(LiteralValue::Int(1)));
    let ghost (g3, go2) = (r3, one2);
    let ghost gstep = step;
    let result = call(b + 9, "_==_", vec![r3, one2]);
    let ghost gres = result;
    let e = comprehension(b + 10, var, range, init, cond, step, result);
    proof {
        broadcast use vstd::multiset::group_multiset_axioms;
        lemma_list_m2(g1, go);
        lemma_list_m3(gp, gplus, g2);
        lemma_list_m2(g3, go2);
        if plain(range) && plain(gp) {
            lemma_operator_names();
            lemma_plain_list2(g1, go);
            assert(plain(gplus));
            lemma_plain_list3(gp, gplus, g2);
            lemma_plain_list2(g3, go2);
            assert(plain(gstep) && plain(gres));
        }
        if complete(range) && complete(gp) {
            lemma_complete_list2(g1, go);
            assert(complete(gplus));
            lemma_complete_list3(gp, gplus, g2);
            lemma_complete_list2(g3, go2);
            assert(complete(gstep) && complete(gres));
        }
        if ident_fields(range) && ident_fields(gp) {
            lemma_ident_fields_list2(g1, go);
            assert(ident_fields(gplus));
            lemma_ident_fields_list3(gp, gplus, g2);
            lemma_ident_fields_list2(g3, go2);
            assert(ident_fields(gstep) && ident_fields(gres));
        }
    }
    e
}

/// `range.map(var, f)`: ids `b` to `b + 6`.
pub(crate) fn expand_map(b: u64, var: String, range: IdedExpr, f: IdedExpr) -> (e: IdedExpr)
    requires
        b + 7 <= u64::MAX,
    ensures
        is_comprehension(e, b + 6, var@, range),
        is_list(comp(e).accu_init, b as int, seq![]),
        is_lit(comp(e).loop_cond, b + 1, LiteralValue::Boolean(true)),
        is_call(comp(e).loop_step, b + 4, "_+_"@, 2),
        is_accu(arg(comp(e).loop_step, 0), b + 2),
        is_list(arg(comp(e).loop_step, 1), b + 3, seq![f]),
        is_accu(comp(e).result, b + 5),
        forall|x: u64| #[trigger] ids_m(e).count(x) == ids_m(range).count(x) + ids_m(f).count(x) + in_block(b, 7, x),
        plain(range) && plain(f) ==> plain(e),
        complete(range) && complete(f) ==> complete(e),
        ident_fields(range) && ident_fields(f) ==> ident_fields(e),
{
    let ghost (gr, gf) = (range, f);
    let init = list_of(b, Vec::new());
    let cond = leaf(b + 1, Expr::Literal(LiteralValue::Boolean(true)));
    let r1 = accumulator(b + 2);
    let item = list_of(b + 3, vec![f]);
    let ghost (g1, gi, g0) = (r1, item, init);
    let step = call(b + 4, "_+_", vec![r1, item]);
    let r2 = accumulator(b + 5);
    let ghost gs = step;
    let e = comprehension(b + 6, var, range, init, cond, step, r2);
    proof {
        broadcast use vstd::multiset::group_multiset_axioms;
        lemma_list_m_empty();
        lemma_list_m1(gf);
        lemma_list_m2(g1, gi);
        assert(g0.expr matches Expr::List(l) && l.elements@ == Seq::<IdedExpr>::empty());
        assert(gi.expr matches Expr::List(l) && l.elements@ == seq![gf]);
        assert(gs.expr matches Expr::Call(c) && c.args@ == seq![g1, gi]);
        if plain(gr) && plain(gf) {
            lemma_operator_names();
            assert(plain_list(Seq::<IdedExpr>::empty()));
            lemma_plain_list1(gf);
            assert(plain(gi));
            lemma_plain_list2(g1, gi);
            assert(plain(gs) && plain(g0));
        }
        if complete(gr) && complete(gf) {
            assert(complete_list(Seq::<IdedExpr>::empty()));
            lemma_complete_list1(gf);
            assert(complete(gi));
            lemma_complete_list2(g1, gi);
            assert(complete(gs) && complete(g0));
        }
        if ident_fields(gr) && ident_fields(gf) {
            assert(ident_fields_list(Seq::<IdedExpr>::empty()));
            lemma_ident_fields_list1(gf);
            assert(ident_fields(gi));
            lemma_ident_fields_list2(g1, gi);
            assert(ident_fields(gs) && ident_fields(g0));
        }
        assert forall|x: u64| #[trigger] ids_m(e).count(x) == ids_m(gr).count(x) + ids_m(gf).count(x) + in_block(b, 7, x) by {
            assert(ids_m(g0).count(x) == (if x == b { 1nat } else { 0 }));
            assert(ids_m(gi).count(x) == (if x == b + 3 { 1nat } else { 0 }) + ids_m(gf).count(x));
            assert(ids_m(gs).count(x) == (if x == b + 4 { 1nat } else { 0 }) + (if x == b + 2 { 1nat } else { 0 }) + ids_m(gi).count(x));
        }
    }
    e
}

/// The step of `map` with a filter and of `filter`: `pred ? @result +
/// [item] : @result`, ids `b + 2` to `b + 6`.
fn guarded_append(b: u64, pred: IdedExpr, item: IdedExpr) -> (e: IdedExpr)
    requires
        b + 7 <= u64::MAX,
    ensures
        is_guarded_append(e, b as int, pred, item),
        e.id == b + 6,
        forall|x: u64| #[trigger] ids_m(e).count(x) == ids_m(pred).count(x) + ids_m(item).count(x)
            + in_block((b + 2) as u64, 5, x),
        plain(pred) && plain(item) ==> plain(e),
        complete(pred) && complete(item) ==> complete(e),
        ident_fields(pred) && ident_fields(item) ==> ident_fields(e),
{
    let ghost (gp, gi) = (pred, item);
    let r1 = accumulator(b + 2);
    let list = list_of(b + 3, vec![item]);
    let ghost (g1, gl) = (r1, list);
    let plus = call(b + 4, "_+_", vec![r1, list]);
    let r2 = accumulator(b + 5);
    let ghost (gplus, g2) = (plus, r2);
    let e = call(b + 6, "_?_:_", vec![pred, plus, r2]);
    proof {
        broadcast use vstd::multiset::group_multiset_axioms;
        lemma_list_m1(gi);
        lemma_list_m2(g1, gl);
        lemma_list_m3(gp, gplus, g2);
        assert(gl.expr matches Expr::List(l) && l.elements@ == seq![gi]);
        assert(gplus.expr matches Expr::Call(c) && c.args@ == seq![g1, gl]);
        assert(e.expr matches Expr::Call(c) && c.args@ == seq![gp, gplus, g2]);
        if plain(gp) && plain(gi) {
            lemma_operator_names();
            lemma_plain_list1(gi);
            assert(plain(gl));
            lemma_plain_list2(g1, gl);
            assert(plain(gplus));
            lemma_plain_list3(gp, gplus, g2);
        }
        if complete(gp) && complete(gi) {
            lemma_complete_list1(gi);
            assert(complete(gl));
            lemma_complete_list2(g1, gl);
            assert(complete(gplus));
            lemma_complete_list3(gp, gplus, g2);
        }
        if ident_fields(gp) && ident_fields(gi) {
            lemma_ident_fields_list1(gi);
            assert(ident_fields(gl));
            lemma_ident_fields_list2(g1, gl);
            assert(ident_fields(gplus));
            lemma_ident_fields_list3(gp, gplus, g2);
        }
        assert forall|x: u64| #[trigger] ids_m(e).count(x) == ids_m(gp).count(x) + ids_m(gi).count(x)
            + in_block((b + 2) as u64, 5, x) by {
            assert(ids_m(gl).count(x) == (if x == b + 3 { 1nat } else { 0 }) + ids_m(gi).count(x));
            assert(ids_m(gplus).count(x) == (if x == b + 4 { 1nat } else { 0 }) + (if x == b + 2 { 1nat } else { 0 }) + ids_m(gl).count(x));
        }
    }
    e
}

/// `range.map(var, pred, f)`: ids `b` to `b + 8`.
pub(crate) fn expand_map_filter(b: u64, var: String, range: IdedExpr, pred: IdedExpr, f: IdedExpr) -> (e: IdedExpr)
    requires
        b + 9 <= u64::MAX,
    ensures
        is_comprehension(e, b + 8, var@, range),
        is_list(comp(e).accu_init, b as int, seq![]),
        is_lit(comp(e).loop_cond, b + 1, LiteralValue::Boolean(true)),
        is_guarded_append(comp(e).loop_step, b as int, pred, f),
        is_accu(comp(e).result, b + 7),
        forall|x: u64| #[trigger] ids_m(e).count(x) == ids_m(range).count(x) + ids_m(pred).count(x) + ids_m(f).count(x)
            + in_block(b, 9, x),
        plain(range) && plain(pred) && plain(f) ==> plain(e),
        complete(range) && complete(pred) && complete(f) ==> complete(e),
        ident_fields(range) && ident_fields(pred) && ident_fields(f) ==> ident_fields(e),
{
    let init = list_of(b, Vec::new());
    let ghost g0 = init;
    let cond = leaf(b + 1, Expr::Literal(LiteralValue::Boolean(true)));
    let step = guarded_append(b, pred, f);
    let r3 = accumulator(b + 7);
    let e = comprehension(b + 8, var, range, init, cond, step, r3);
    proof {
        broadcast use vstd::multiset::group_multiset_axioms;
        lemma_list_m_empty();
        assert(plain_list(Seq::<IdedExpr>::empty()));
        assert(plain(g0));
        assert(complete_list(Seq::<IdedExpr>::empty()));
        assert(complete(g0));
        assert(ident_fields_list(Seq::<IdedExpr>::empty()));
        assert(ident_fields(g0));
    }
    e
}

/// `range.filter(var, pred)`, where `item` is the expression `var` as it
/// was written: ids `b` to `b + 8`.
pub(crate) fn expand_filter(b: u64, var: String, range: IdedExpr, pred: IdedExpr, item: IdedExpr) -> (e: IdedExpr)
    requires
        b + 9 <= u64::MAX,
    ensures
        is_comprehension(e, b + 8, var@, range),
        is_list(comp(e).accu_init, b as int, seq![]),
        is_lit(comp(e).loop_cond, b + 1, LiteralValue::Boolean(true)),
        is_guarded_append(comp(e).loop_step, b as int, pred, item),
        is_accu(comp(e).result, b + 7),
        forall|x: u64| #[trigger] ids_m(e).count(x) == ids_m(range).count(x) + ids_m(pred).count(x) + ids_m(item).count(x)
            + in_block(b, 9, x),
        plain(range) && plain(pred) && plain(item) ==> plain(e),
        complete(range) && complete(pred) && complete(item) ==> complete(e),
        ident_fields(range) && ident_fields(pred) && ident_fields(item) ==> ident_fields(e),
{
    expand_map_filter(b, var, range, pred, item)
}

} // verus!
