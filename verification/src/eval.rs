//! The evaluation of an expression to a value.
//!
//! [`eval`] walks an expression tree in a context of variables, as the
//! interpreter does: literals, variables, the logical operators (with `&&`
//! and `||` short-circuiting), the conditional, integer arithmetic,
//! equality and comparison, membership, indexing, field selection and
//! presence tests, list and map literals, and comprehensions, which charge
//! each iteration to the evaluation's [`Frame`]. Doubles are held as their
//! bits and every operation on one is handed to a [`DoubleOps`] that the
//! embedder supplies. The outcome is stated in [`eval_spec`] over plain
//! values ([`Val`]), for every expression that involves no double.

use vstd::prelude::*;
use crate::common::ast::{ComprehensionExpr, EntryExpr, Expr, IdedEntryExpr, IdedExpr, LiteralValue};
use crate::common::types::integer::{Int, int_result, trunc_div, trunc_rem};
use crate::common::types::uint::{UInt, uint_result};
use crate::objects::{Key, key_text, signed_decimal};
use crate::text::decimal;
use crate::runtime::{Abort, Frame, Interrupt};
use crate::text::{chars_of, push_str, str_eq, to_string};
use crate::{ExecutionError, Operand, OverloadError};

verus! {

/// A CEL value. A double is held as the bits of its IEEE 754 encoding.
#[derive(Debug, PartialEq)]
pub enum Value {
    Null,
    Bool(bool),
    Int(i64),
    UInt(u64),
    Double(u64),
    String(String),
    Bytes(Vec<u8>),
    List(Vec<Value>),
    /// The entries of a map, each key once, in the order they were added.
    Mapping(Vec<(Key, Value)>),
}

/// A value as plain data; map entries are pairs of key and value.
pub enum Val {
    Null,
    Bool(bool),
    Int(i64),
    UInt(u64),
    Double(u64),
    Str(Seq<char>),
    Bytes(Seq<u8>),
    List(Seq<Val>),
    Mapping(Seq<(Val, Val)>),
}

/// The operations on doubles, which this library does not compute itself.
pub trait DoubleOps {
    /// The value of a double literal, as written (its sign included).
    fn literal(&self, text: &str) -> Result<Value, ExecutionError>;

    /// The operator or function `func` applied to `args`, at least one of
    /// which is a double.
    fn apply(&self, func: &str, args: &[Value]) -> Result<Value, ExecutionError>;
}

/// A function added to a context, called with the value of its target,
/// if it is called as a method, and the values of its arguments.
pub trait Function {
    fn call(&self, target: Option<Value>, args: Vec<Value>) -> Result<Value, ExecutionError>;
}

/// The names of the functions `funcs`.
pub open spec fn fnames<F>(funcs: Seq<(String, F)>) -> Seq<Seq<char>> {
    Seq::new(funcs.len(), |i: int| funcs[i].0@)
}

/// A map key as a value.
pub open spec fn key_val(k: Key) -> Val {
    match k {
        Key::Int(i) => Val::Int(i),
        Key::Uint(u) => Val::UInt(u),
        Key::Bool(b) => Val::Bool(b),
        Key::String(s) => Val::Str(s@),
    }
}

/// A value as plain data.
pub open spec fn val_of(v: Value) -> Val
    decreases v,
{
    match v {
        Value::Null => Val::Null,
        Value::Bool(b) => Val::Bool(b),
        Value::Int(i) => Val::Int(i),
        Value::UInt(u) => Val::UInt(u),
        Value::Double(d) => Val::Double(d),
        Value::String(s) => Val::Str(s@),
        Value::Bytes(b) => Val::Bytes(b@),
        Value::List(l) => {
            proof {
                assert(decreases_to!(v => l@));
            }
            Val::List(vals_of(l@))
        },
        Value::Mapping(m) => {
            proof {
                assert(decreases_to!(v => m@));
            }
            Val::Mapping(entries_of(m@))
        },
    }
}

/// Values as plain data, in order.
pub open spec fn vals_of(s: Seq<Value>) -> Seq<Val>
    decreases s,
{
    if s.len() == 0 {
        Seq::empty()
    } else {
        proof {
            assert(decreases_to!(s => s[s.len() - 1]));
        }
        vals_of(s.drop_last()).push(val_of(s[s.len() - 1]))
    }
}

/// Map entries as plain data, in order.
pub open spec fn entries_of(s: Seq<(Key, Value)>) -> Seq<(Val, Val)>
    decreases s,
{
    if s.len() == 0 {
        Seq::empty()
    } else {
        proof {
            assert(decreases_to!(s => s[s.len() - 1]));
            assert(decreases_to!(s[s.len() - 1] => s[s.len() - 1].1));
        }
        entries_of(s.drop_last()).push((key_val(s[s.len() - 1].0), val_of(s[s.len() - 1].1)))
    }
}

proof fn lemma_vals_of(s: Seq<Value>)
    ensures
        vals_of(s).len() == s.len(),
        forall|i: int| 0 <= i < s.len() ==> #[trigger] vals_of(s)[i] == val_of(s[i]),
    decreases s.len(),
{
    if s.len() > 0 {
        lemma_vals_of(s.drop_last());
    }
}

proof fn lemma_entries_of(s: Seq<(Key, Value)>)
    ensures
        entries_of(s).len() == s.len(),
        forall|i: int| 0 <= i < s.len() ==> #[trigger] entries_of(s)[i] == (key_val(s[i].0), val_of(s[i].1)),
    decreases s.len(),
{
    if s.len() > 0 {
        lemma_entries_of(s.drop_last());
    }
}

/// Why an evaluation failed, as plain data.
pub enum EvalErr {
    /// An error that holds no text.
    Exec(ExecutionError),
    /// A variable or function that the context does not hold.
    Undeclared(Seq<char>),
    /// A key missing from a map.
    NoSuchKey(Seq<char>),
    /// An operator applied to values it has no overload for.
    NoOverload,
}

/// `x` is the error `e`.
pub open spec fn err_is(x: ExecutionError, e: EvalErr) -> bool {
    match e {
        EvalErr::Exec(y) => x == y,
        EvalErr::Undeclared(n) => x matches ExecutionError::UndeclaredReference(s) && s@ == n,
        EvalErr::NoSuchKey(n) => x matches ExecutionError::NoSuchKey(s) && s@ == n,
        EvalErr::NoOverload => x matches ExecutionError::NoSuchOverload(o) && o.function_name() is None
            && o.type_names().len() == 0 && !o.member(),
    }
}

/// The variables in scope, the latest binding of a name hiding the earlier.
pub type Env = Seq<(Seq<char>, Val)>;

/// The variables of a context as plain data.
pub open spec fn env_of(s: Seq<(String, Value)>) -> Env {
    Seq::new(s.len(), |i: int| (s[i].0@, val_of(s[i].1)))
}

/// The latest binding of `name`.
pub open spec fn lookup(env: Env, name: Seq<char>) -> Option<Val>
    decreases env.len(),
{
    if env.len() == 0 {
        None
    } else if env.last().0 == name {
        Some(env.last().1)
    } else {
        lookup(env.drop_last(), name)
    }
}

/// A value as a condition.
pub open spec fn as_bool(v: Val) -> Result<bool, EvalErr> {
    match v {
        Val::Bool(b) => Ok(b),
        _ => Err(EvalErr::NoOverload),
    }
}

/// The value of a literal; a double is not stated.
pub open spec fn literal_spec(l: LiteralValue) -> Option<Val> {
    match l {
        LiteralValue::Int(i) => Some(Val::Int(i)),
        LiteralValue::UInt(u) => Some(Val::UInt(u)),
        LiteralValue::Double(_) => None,
        LiteralValue::String(s) => Some(Val::Str(s@)),
        LiteralValue::Bytes(b) => Some(Val::Bytes(b@)),
        LiteralValue::Boolean(b) => Some(Val::Bool(b)),
        LiteralValue::Null => Some(Val::Null),
    }
}

/// The outcome of an evaluation: a value or an error, where stated.
pub type Outcome = Option<Result<Val, EvalErr>>;

/// How `e` evaluates in `env`; `None` where a double is involved, or a
/// construct this library leaves to the embedder (messages, optional
/// elements and entries, two-variable comprehensions).
pub open spec fn eval_spec(e: IdedExpr, env: Env, fs: Seq<Seq<char>>) -> Outcome
    decreases e, 0nat, 0nat,
{
    match e.expr {
        Expr::Literal(l) => match literal_spec(l) {
            Some(v) => Some(Ok(v)),
            None => None,
        },
        Expr::Ident(n) => Some(match lookup(env, n@) {
            Some(v) => Ok(v),
            None => Err(EvalErr::Undeclared(n@)),
        }),
        Expr::Call(c) => {
            proof {
                assert(decreases_to!(e => c.args@));
            }
            match c.target {
                Some(t) => if is_operator(c.func_name@, c.args@.len()) {
                    call_spec(c.func_name@, true, c.args@, env, fs)
                } else {
                    proof {
                        assert(decreases_to!(e => *t));
                    }
                    match eval_spec(*t, env, fs) {
                        Some(Ok(_)) => function_spec(c.func_name@, fs),
                        other => other,
                    }
                },
                None => call_spec(c.func_name@, false, c.args@, env, fs),
            }
        },
        Expr::Select(s) => {
            proof {
                assert(decreases_to!(e => *s.operand));
            }
            match eval_spec(*s.operand, env, fs) {
                Some(Ok(v)) => Some(select_spec(v, s.field@, s.test)),
                other => other,
            }
        },
        Expr::List(l) => if l.optional_indices@.len() > 0 {
            None
        } else {
            proof {
                assert(decreases_to!(e => l.elements@));
            }
            match args_spec(l.elements@, env, fs) {
                Some(Ok(vs)) => Some(Ok(Val::List(vs))),
                Some(Err(x)) => Some(Err(x)),
                None => None,
            }
        },
        Expr::MapLit(m) => {
            proof {
                assert(decreases_to!(e => m.entries@));
            }
            match entries_spec(m.entries@, env, fs) {
                Some(Ok(es)) => Some(Ok(Val::Mapping(es))),
                Some(Err(x)) => Some(Err(x)),
                None => None,
            }
        },
        Expr::Comprehension(c) => {
            proof {
                assert(decreases_to!(e => *c));
            }
            comp_spec(*c, env, fs)
        },
        _ => None,
    }
}

/// How the comprehension `c` evaluates: the accumulator's initial value,
/// then the range, then the loop, then the result with the final
/// accumulator bound.
pub open spec fn comp_spec(c: ComprehensionExpr, env: Env, fs: Seq<Seq<char>>) -> Outcome
    decreases c, 1nat, 0nat,
{
    if c.iter_var2 is Some {
        None
    } else {
        proof {
            assert(decreases_to!(c => c.accu_init));
            assert(decreases_to!(c => c.iter_range));
            assert(decreases_to!(c => c.result));
        }
        match eval_spec(c.accu_init, env, fs) {
            Some(Ok(init)) => match eval_spec(c.iter_range, env, fs) {
                Some(Ok(range)) => match items_of(range) {
                    Some(items) => match loop_spec(c, items, init, env, fs) {
                        Some(Ok(acc)) => eval_spec(c.result, env.push((c.accu_var@, acc)), fs),
                        other => other,
                    },
                    None => None,
                },
                other => other,
            },
            other => other,
        }
    }
}

/// A field of `v`, or whether `v` has it when `test`.
pub open spec fn select_spec(v: Val, field: Seq<char>, test: bool) -> Result<Val, EvalErr> {
    if test {
        Ok(Val::Bool(v matches Val::Mapping(m) && map_get(m, Val::Str(field)) is Some))
    } else {
        match v {
            Val::Mapping(m) => match map_get(m, Val::Str(field)) {
                Some(x) => Ok(x),
                None => Err(EvalErr::NoSuchKey(field)),
            },
            _ => Err(EvalErr::NoSuchKey(field)),
        }
    }
}

/// What a comprehension iterates over: the elements of a list, the keys
/// of a map.
pub open spec fn items_of(v: Val) -> Option<Seq<Val>> {
    match v {
        Val::List(l) => Some(l),
        Val::Mapping(m) => Some(Seq::new(m.len(), |i: int| m[i].0)),
        _ => None,
    }
}

/// The entries of a map literal evaluated in order, each key then its
/// value, a later entry of a key replacing an earlier one.
pub open spec fn entries_spec(es: Seq<IdedEntryExpr>, env: Env, fs: Seq<Seq<char>>) -> Option<Result<Seq<(Val, Val)>, EvalErr>>
    decreases es, 0nat, 0nat,
{
    if es.len() == 0 {
        Some(Ok(Seq::empty()))
    } else {
        match entries_spec(es.drop_last(), env, fs) {
            Some(Ok(m)) => match es[es.len() - 1].expr {
                EntryExpr::MapEntry(me) => if me.optional {
                    None
                } else {
                    proof {
                        assert(decreases_to!(es => es[es.len() - 1]));
                        assert(decreases_to!(es[es.len() - 1] => es[es.len() - 1].expr));
                        assert(decreases_to!(es[es.len() - 1].expr => me));
                        assert(decreases_to!(me => me.key));
                        assert(decreases_to!(me => me.value));
                    }
                    match eval_spec(me.key, env, fs) {
                        Some(Ok(k)) => if !is_key(k) {
                            Some(Err(EvalErr::NoOverload))
                        } else {
                            match eval_spec(me.value, env, fs) {
                                Some(Ok(v)) => Some(Ok(map_put(m, k, v))),
                                Some(Err(x)) => Some(Err(x)),
                                None => None,
                            }
                        },
                        Some(Err(x)) => Some(Err(x)),
                        None => None,
                    }
                },
                EntryExpr::StructField(_) => None,
            },
            other => other,
        }
    }
}

/// The loop of the comprehension `c` over `items`, from the accumulator
/// `accu`: while the condition holds with the accumulator bound, the step,
/// with the item bound too, gives the next accumulator.
pub open spec fn loop_spec(c: ComprehensionExpr, items: Seq<Val>, accu: Val, env: Env, fs: Seq<Seq<char>>) -> Outcome
    decreases c, 0nat, items.len(),
{
    if items.len() == 0 {
        Some(Ok(accu))
    } else {
        let env1 = env.push((c.accu_var@, accu));
        proof {
            assert(decreases_to!(c => c.loop_cond));
            assert(decreases_to!(c => c.loop_step));
        }
        match eval_spec(c.loop_cond, env1, fs) {
            Some(Ok(b)) => match as_bool(b) {
                Ok(false) => Some(Ok(accu)),
                Ok(true) => match eval_spec(c.loop_step, env1.push((c.iter_var@, items[0])), fs) {
                    Some(Ok(a2)) => loop_spec(c, items.drop_first(), a2, env, fs),
                    other => other,
                },
                Err(x) => Some(Err(x)),
            },
            other => other,
        }
    }
}

/// The arguments evaluated in order, stopping at the first error.
pub open spec fn args_spec(args: Seq<IdedExpr>, env: Env, fs: Seq<Seq<char>>) -> Option<Result<Seq<Val>, EvalErr>>
    decreases args, 0nat, 0nat,
{
    if args.len() == 0 {
        Some(Ok(Seq::empty()))
    } else {
        proof {
            assert(decreases_to!(args => args[args.len() - 1]));
        }
        match args_spec(args.drop_last(), env, fs) {
            Some(Ok(vs)) => match eval_spec(args[args.len() - 1], env, fs) {
                Some(Ok(v)) => Some(Ok(vs.push(v))),
                Some(Err(x)) => Some(Err(x)),
                None => None,
            },
            other => other,
        }
    }
}

/// How a call of `func` on `args` evaluates.
pub open spec fn call_spec(func: Seq<char>, has_target: bool, args: Seq<IdedExpr>, env: Env, fs: Seq<Seq<char>>) -> Outcome
    decreases args, 1nat, 0nat,
{
    if !has_target && args.len() == 3 && func == "_?_:_"@ {
        proof {
            assert(decreases_to!(args => args[0]));
            assert(decreases_to!(args => args[1]));
            assert(decreases_to!(args => args[2]));
        }
        match eval_spec(args[0], env, fs) {
            Some(Ok(c)) => match as_bool(c) {
                Ok(true) => eval_spec(args[1], env, fs),
                Ok(false) => eval_spec(args[2], env, fs),
                Err(x) => Some(Err(x)),
            },
            other => other,
        }
    } else if !has_target && args.len() == 2 && (func == "_&&_"@ || func == "_||_"@) {
        proof {
            assert(decreases_to!(args => args[0]));
            assert(decreases_to!(args => args[1]));
        }
        let is_or = func == "_||_"@;
        match eval_spec(args[0], env, fs) {
            Some(Ok(l)) => match as_bool(l) {
                Ok(b) => if b == is_or {
                    Some(Ok(Val::Bool(b)))
                } else {
                    match eval_spec(args[1], env, fs) {
                        Some(Ok(r)) => match as_bool(r) {
                            Ok(b2) => Some(Ok(Val::Bool(b2))),
                            Err(x) => Some(Err(x)),
                        },
                        other => other,
                    }
                },
                Err(x) => Some(Err(x)),
            },
            other => other,
        }
    } else if !has_target && args.len() == 1 && func == "!_"@ {
        proof {
            assert(decreases_to!(args => args[0]));
        }
        match eval_spec(args[0], env, fs) {
            Some(Ok(v)) => match as_bool(v) {
                Ok(b) => Some(Ok(Val::Bool(!b))),
                Err(x) => Some(Err(x)),
            },
            other => other,
        }
    } else if !has_target && args.len() == 2 && is_binary(func) {
        proof {
            assert(decreases_to!(args => args[0]));
            assert(decreases_to!(args => args[1]));
        }
        match eval_spec(args[0], env, fs) {
            Some(Ok(a)) => match eval_spec(args[1], env, fs) {
                Some(Ok(b)) => binary_spec(func, a, b),
                other => other,
            },
            other => other,
        }
    } else if !has_target && args.len() == 1 && (func == "-_"@ || func == "@not_strictly_false"@) {
        proof {
            assert(decreases_to!(args => args[0]));
        }
        match eval_spec(args[0], env, fs) {
            Some(Ok(v)) => unary_spec(func, v),
            other => other,
        }
    } else if func == "_?._"@ || func == "_[?_]"@ {
        None
    } else {
        function_spec(func, fs)
    }
}

/// A call of a function of the context is left to the function; any other
/// name is undeclared.
pub open spec fn function_spec(func: Seq<char>, fs: Seq<Seq<char>>) -> Outcome {
    if fs.contains(func) {
        None
    } else {
        Some(Err(EvalErr::Undeclared(func)))
    }
}

/// The names that [`call_spec`] evaluates as operators, by their number of
/// arguments.
pub open spec fn is_operator(f: Seq<char>, n: nat) -> bool {
    ||| n == 3 && f == "_?_:_"@
    ||| n == 2 && (f == "_&&_"@ || f == "_||_"@ || is_binary(f))
    ||| n == 1 && (f == "!_"@ || f == "-_"@ || f == "@not_strictly_false"@)
    ||| f == "_?._"@
    ||| f == "_[?_]"@
}


/// The latest entry of `key` in the map entries `m`.
pub open spec fn map_get(m: Seq<(Val, Val)>, key: Val) -> Option<Val>
    decreases m.len(),
{
    if m.len() == 0 {
        None
    } else if m.last().0 == key {
        Some(m.last().1)
    } else {
        map_get(m.drop_last(), key)
    }
}

/// `m` with `key` bound to `v`: its entry replaced where there is one,
/// else added at the end.
pub open spec fn map_put(m: Seq<(Val, Val)>, key: Val, v: Val) -> Seq<(Val, Val)> {
    if map_get(m, key) is Some {
        replace_last(m, key, v)
    } else {
        m.push((key, v))
    }
}

/// `m` with the value of the latest entry of `key` replaced by `v`.
pub open spec fn replace_last(m: Seq<(Val, Val)>, key: Val, v: Val) -> Seq<(Val, Val)>
    decreases m.len(),
{
    if m.len() == 0 {
        m
    } else if m.last().0 == key {
        m.drop_last().push((key, v))
    } else {
        replace_last(m.drop_last(), key, v).push(m.last())
    }
}

/// Whether `v` can be a map key: an int, a uint, a bool or a string.
pub open spec fn is_key(v: Val) -> bool {
    v is Int || v is UInt || v is Bool || v is Str
}

/// How a key is written in a missing-key error.
pub open spec fn val_key_text(v: Val) -> Seq<char> {
    match v {
        Val::Int(i) => signed_decimal(i as int),
        Val::UInt(u) => decimal(u as nat),
        Val::Bool(b) => if b { "true"@ } else { "false"@ },
        Val::Str(s) => s,
        _ => Seq::empty(),
    }
}

/// Whether two values are equal: structurally, an int and a uint by their
/// numbers, lists element by element, maps entry by entry whatever their
/// order; `None` where doubles decide.
pub open spec fn val_eq(a: Val, b: Val) -> Option<bool>
    decreases a,
{
    match (a, b) {
        (Val::Double(_), Val::Double(_)) => None,
        (Val::Double(_), Val::Int(_)) => None,
        (Val::Double(_), Val::UInt(_)) => None,
        (Val::Int(_), Val::Double(_)) => None,
        (Val::UInt(_), Val::Double(_)) => None,
        (Val::Null, Val::Null) => Some(true),
        (Val::Bool(x), Val::Bool(y)) => Some(x == y),
        (Val::Int(x), Val::Int(y)) => Some(x == y),
        (Val::UInt(x), Val::UInt(y)) => Some(x == y),
        (Val::Int(x), Val::UInt(y)) => Some(x as int == y as int),
        (Val::UInt(x), Val::Int(y)) => Some(x as int == y as int),
        (Val::Str(x), Val::Str(y)) => Some(x == y),
        (Val::Bytes(x), Val::Bytes(y)) => Some(x == y),
        (Val::List(x), Val::List(y)) => if x.len() != y.len() {
            Some(false)
        } else {
            list_eq(x, y)
        },
        (Val::Mapping(x), Val::Mapping(y)) => if x.len() != y.len() {
            Some(false)
        } else {
            map_eq(x, y)
        },
        _ => Some(false),
    }
}

/// Whether the lists `x` and `y`, of one length, are equal element by
/// element, the first unequal pair deciding.
pub open spec fn list_eq(x: Seq<Val>, y: Seq<Val>) -> Option<bool>
    decreases x,
{
    if x.len() == 0 || y.len() == 0 {
        Some(true)
    } else {
        proof {
            assert(decreases_to!(x => x[0]));
        }
        match val_eq(x[0], y[0]) {
            Some(true) => list_eq(x.drop_first(), y.drop_first()),
            other => other,
        }
    }
}

/// Whether every entry of `x` is in `y`, with an equal value.
pub open spec fn map_eq(x: Seq<(Val, Val)>, y: Seq<(Val, Val)>) -> Option<bool>
    decreases x,
{
    if x.len() == 0 {
        Some(true)
    } else {
        proof {
            assert(decreases_to!(x => x[0]));
            assert(decreases_to!(x[0] => x[0].1));
        }
        match map_get(y, x[0].0) {
            None => Some(false),
            Some(w) => match val_eq(x[0].1, w) {
                Some(true) => map_eq(x.drop_first(), y),
                other => other,
            },
        }
    }
}

/// Whether `a` is an element of `l`, the first equal element deciding.
pub open spec fn list_has(a: Val, l: Seq<Val>) -> Option<bool>
    decreases l.len(),
{
    if l.len() == 0 {
        Some(false)
    } else {
        match val_eq(a, l[0]) {
            Some(false) => list_has(a, l.drop_first()),
            other => other,
        }
    }
}

/// The sign of `x`.
pub open spec fn sign(x: int) -> i8 {
    if x < 0 { -1i8 } else if x == 0 { 0i8 } else { 1i8 }
}

/// How `x` compares with `y`, character by character.
pub open spec fn text_order(x: Seq<char>, y: Seq<char>) -> i8
    decreases x.len(),
{
    if x.len() == 0 {
        if y.len() == 0 { 0i8 } else { -1i8 }
    } else if y.len() == 0 {
        1i8
    } else if (x[0] as u32) < (y[0] as u32) {
        -1i8
    } else if (x[0] as u32) > (y[0] as u32) {
        1i8
    } else {
        text_order(x.drop_first(), y.drop_first())
    }
}

/// How `a` compares with `b`: `Some(None)` where they are not comparable,
/// `None` where doubles decide.
pub open spec fn order_spec(a: Val, b: Val) -> Option<Option<i8>> {
    match (a, b) {
        (Val::Double(_), _) => None,
        (_, Val::Double(_)) => None,
        (Val::Int(x), Val::Int(y)) => Some(Some(sign(x - y))),
        (Val::UInt(x), Val::UInt(y)) => Some(Some(sign(x - y))),
        (Val::Int(x), Val::UInt(y)) => Some(Some(sign(x - y))),
        (Val::UInt(x), Val::Int(y)) => Some(Some(sign(x - y))),
        (Val::Bool(x), Val::Bool(y)) => Some(Some(sign((if x { 1int } else { 0 }) - (if y { 1int } else { 0 })))),
        (Val::Null, Val::Null) => Some(Some(0)),
        (Val::Str(x), Val::Str(y)) => Some(Some(text_order(x, y))),
        _ => Some(None),
    }
}

/// The operators this library evaluates on two operands.
pub open spec fn is_binary(f: Seq<char>) -> bool {
    f == "_+_"@ || f == "_-_"@ || f == "_*_"@ || f == "_/_"@ || f == "_%_"@ || f == "_==_"@
        || f == "_!=_"@ || f == "_<_"@ || f == "_<=_"@ || f == "_>_"@ || f == "_>=_"@ || f == "@in"@
        || f == "_[_]"@
}

pub open spec fn lift_int(r: Result<Int, ExecutionError>) -> Result<Val, EvalErr> {
    match r {
        Ok(i) => Ok(Val::Int(i.0)),
        Err(x) => Err(EvalErr::Exec(x)),
    }
}

pub open spec fn lift_uint(r: Result<UInt, ExecutionError>) -> Result<Val, EvalErr> {
    match r {
        Ok(u) => Ok(Val::UInt(u.0)),
        Err(x) => Err(EvalErr::Exec(x)),
    }
}

/// `x f y` on two ints.
pub open spec fn int_arith(f: Seq<char>, x: i64, y: i64) -> Result<Val, EvalErr> {
    if f == "_+_"@ {
        lift_int(int_result("add", x, y, x + y))
    } else if f == "_-_"@ {
        lift_int(int_result("sub", x, y, x - y))
    } else if f == "_*_"@ {
        lift_int(int_result("mul", x, y, x * y))
    } else if f == "_/_"@ {
        if y == 0 {
            Err(EvalErr::Exec(ExecutionError::DivisionByZero(Operand::Int(x))))
        } else {
            lift_int(int_result("div", x, y, trunc_div(x as int, y as int)))
        }
    } else if y == 0 {
        Err(EvalErr::Exec(ExecutionError::RemainderByZero(Operand::Int(x))))
    } else if x == i64::MIN && y == -1 {
        Err(EvalErr::Exec(ExecutionError::Overflow("rem", Operand::Int(x), Operand::Int(y))))
    } else {
        Ok(Val::Int(trunc_rem(x as int, y as int) as i64))
    }
}

/// `x f y` on two uints.
pub open spec fn uint_arith(f: Seq<char>, x: u64, y: u64) -> Result<Val, EvalErr> {
    if f == "_+_"@ {
        lift_uint(uint_result("add", x, y, x + y))
    } else if f == "_-_"@ {
        lift_uint(uint_result("sub", x, y, x - y))
    } else if f == "_*_"@ {
        lift_uint(uint_result("mul", x, y, x * y))
    } else if f == "_/_"@ {
        if y == 0 {
            Err(EvalErr::Exec(ExecutionError::DivisionByZero(Operand::UInt(x))))
        } else {
            Ok(Val::UInt((x / y) as u64))
        }
    } else if y == 0 {
        Err(EvalErr::Exec(ExecutionError::RemainderByZero(Operand::UInt(x))))
    } else {
        Ok(Val::UInt((x % y) as u64))
    }
}

/// The operator `f` (one of [`is_binary`]) on the values `a` and `b`.
pub open spec fn binary_spec(f: Seq<char>, a: Val, b: Val) -> Outcome {
    if f == "_==_"@ || f == "_!=_"@ {
        match val_eq(a, b) {
            Some(x) => Some(Ok(Val::Bool(if f == "_==_"@ { x } else { !x }))),
            None => None,
        }
    } else if f == "_<_"@ || f == "_<=_"@ || f == "_>_"@ || f == "_>=_"@ {
        match order_spec(a, b) {
            Some(Some(c)) => Some(Ok(Val::Bool(
                if f == "_<_"@ { c < 0 } else if f == "_<=_"@ { c <= 0 } else if f == "_>_"@ { c > 0 } else { c >= 0 },
            ))),
            Some(None) => Some(Err(EvalErr::NoOverload)),
            None => None,
        }
    } else if f == "@in"@ {
        match b {
            Val::List(l) => match list_has(a, l) {
                Some(x) => Some(Ok(Val::Bool(x))),
                None => None,
            },
            Val::Mapping(m) => Some(Ok(Val::Bool(is_key(a) && map_get(m, a) is Some))),
            Val::Str(h) => match a {
                Val::Str(n) => Some(Ok(Val::Bool(text_has(h, n)))),
                _ => Some(Err(EvalErr::NoOverload)),
            },
            _ => Some(Err(EvalErr::NoOverload)),
        }
    } else if f == "_[_]"@ {
        match (a, b) {
            (Val::List(l), Val::Int(i)) => Some(if 0 <= i < l.len() {
                Ok(l[i as int])
            } else {
                Err(EvalErr::Exec(ExecutionError::IndexOutOfBounds(Operand::Int(i))))
            }),
            (Val::List(l), Val::UInt(i)) => Some(if i < l.len() {
                Ok(l[i as int])
            } else {
                Err(EvalErr::Exec(ExecutionError::IndexOutOfBounds(Operand::UInt(i))))
            }),
            (Val::Str(_), Val::Int(i)) => Some(Err(EvalErr::NoSuchKey(signed_decimal(i as int)))),
            (Val::Mapping(m), k) => Some(if is_key(k) {
                match map_get(m, k) {
                    Some(v) => Ok(v),
                    None => Err(EvalErr::NoSuchKey(val_key_text(k))),
                }
            } else {
                Err(EvalErr::NoOverload)
            }),
            _ => Some(Err(EvalErr::NoOverload)),
        }
    } else {
        arith_spec(f, a, b)
    }
}

/// The operator `f`, one of `+ - * / %`, on the values `a` and `b`.
pub open spec fn arith_spec(f: Seq<char>, a: Val, b: Val) -> Outcome {
    {
        match (a, b) {
            (Val::Int(x), Val::Int(y)) => Some(int_arith(f, x, y)),
            (Val::UInt(x), Val::UInt(y)) => Some(uint_arith(f, x, y)),
            (Val::Str(x), Val::Str(y)) => Some(if f == "_+_"@ { Ok(Val::Str(x + y)) } else { Err(EvalErr::NoOverload) }),
            (Val::List(x), Val::List(y)) => Some(if f == "_+_"@ { Ok(Val::List(x + y)) } else { Err(EvalErr::NoOverload) }),
            (Val::Double(_), _) => None,
            (_, Val::Double(_)) => None,
            _ => Some(Err(EvalErr::NoOverload)),
        }
    }
}

/// A unary operator, `-_` or `@not_strictly_false`, on `v`.
pub open spec fn unary_spec(f: Seq<char>, v: Val) -> Outcome {
    if f == "-_"@ {
        match v {
            Val::Int(i) => if i == i64::MIN { None } else { Some(Ok(Val::Int((-i) as i64))) },
            Val::Double(_) => None,
            _ => Some(Err(EvalErr::NoOverload)),
        }
    } else {
        match v {
            Val::Bool(b) => Some(Ok(Val::Bool(b))),
            _ => Some(Ok(Val::Bool(true))),
        }
    }
}

/// The outcome `r` of an evaluation agrees with `s`, its statement, unless
/// `frame` recorded an abort, whose error `r` may then be instead.
pub open spec fn agrees<I: Interrupt>(r: Result<Value, ExecutionError>, s: Outcome, frame: Frame<'_, I>) -> bool {
    s matches Some(o) ==> match r {
        Ok(v) => o == Ok::<Val, EvalErr>(val_of(v)),
        Err(x) => (o matches Err(y) && err_is(x, y))
            || (frame.abort_spec() != Abort::Running && (x is Interrupted || x is IterationBudgetExceeded)),
    }
}

/// The error for an operator without an overload for its operands.
fn no_overload() -> (x: ExecutionError)
    ensures
        err_is(x, EvalErr::NoOverload),
{
    ExecutionError::NoSuchOverload(OverloadError::default())
}

/// A copy of `v`.
pub fn copy_value(v: &Value) -> (r: Value)
    ensures
        val_of(r) == val_of(*v),
    decreases v,
{
    match v {
        Value::Null => Value::Null,
        Value::Bool(b) => Value::Bool(*b),
        Value::Int(i) => Value::Int(*i),
        Value::UInt(u) => Value::UInt(*u),
        Value::Double(d) => Value::Double(*d),
        Value::String(s) => Value::String(to_string(s.as_str())),
        Value::Bytes(b) => {
            let mut out: Vec<u8> = Vec::new();
            let mut k: usize = 0;
            while k < b.len()
                invariant
                    k <= b@.len(),
                    out@ == b@.take(k as int),
                decreases b@.len() - k,
            {
                out.push(b[k]);
                assert(b@.take(k + 1) =~= b@.take(k as int).push(b@[k as int]));
                k += 1;
            }
            assert(b@.take(b@.len() as int) =~= b@);
            Value::Bytes(out)
        },
        Value::List(l) => {
            let mut out: Vec<Value> = Vec::new();
            let mut k: usize = 0;
            while k < l.len()
                invariant
                    k <= l@.len(),
                    *v == Value::List(*l),
                    vals_of(out@) == vals_of(l@.take(k as int)),
                decreases l@.len() - k,
            {
                assert(decreases_to!(v => l@[k as int])) by {
                    assert(decreases_to!(*v => v->List_0));
                    assert(decreases_to!(v->List_0 => v->List_0@));
                    assert(decreases_to!(l@ => l@[k as int]));
                }
                let c = copy_value(&l[k]);
                let ghost before = out@;
                out.push(c);
                proof {
                    assert(out@.drop_last() =~= before);
                    assert(l@.take(k + 1).drop_last() =~= l@.take(k as int));
                }
                k += 1;
            }
            assert(l@.take(l@.len() as int) =~= l@);
            Value::List(out)
        },
        Value::Mapping(m) => {
            let mut out: Vec<(Key, Value)> = Vec::new();
            let mut k: usize = 0;
            while k < m.len()
                invariant
                    k <= m@.len(),
                    *v == Value::Mapping(*m),
                    entries_of(out@) == entries_of(m@.take(k as int)),
                decreases m@.len() - k,
            {
                assert(decreases_to!(v => m@[k as int].1)) by {
                    assert(decreases_to!(*v => v->Mapping_0));
                    assert(decreases_to!(v->Mapping_0 => v->Mapping_0@));
                    assert(decreases_to!(m@ => m@[k as int]));
                    assert(decreases_to!(m@[k as int] => m@[k as int].1));
                }
                let key = copy_key(&m[k].0);
                let c = copy_value(&m[k].1);
                let ghost before = out@;
                out.push((key, c));
                proof {
                    assert(out@.drop_last() =~= before);
                    assert(m@.take(k + 1).drop_last() =~= m@.take(k as int));
                }
                k += 1;
            }
            assert(m@.take(m@.len() as int) =~= m@);
            Value::Mapping(out)
        },
    }
}

/// A copy of `k`.
pub fn copy_key(k: &Key) -> (r: Key)
    ensures
        key_val(r) == key_val(*k),
{
    match k {
        Key::Int(i) => Key::Int(*i),
        Key::Uint(u) => Key::Uint(*u),
        Key::Bool(b) => Key::Bool(*b),
        Key::String(s) => Key::String(to_string(s.as_str())),
    }
}

/// The value of the latest binding of `name` in `env`.
fn lookup_value(env: &Vec<(String, Value)>, name: &str) -> (r: Option<Value>)
    ensures
        match lookup(env_of(env@), name@) {
            Some(v) => r matches Some(x) && val_of(x) == v,
            None => r is None,
        },
{
    let mut k = env.len();
    assert(env_of(env@).take(k as int) =~= env_of(env@));
    while k > 0
        invariant
            k <= env@.len(),
            lookup(env_of(env@), name@) == lookup(env_of(env@).take(k as int), name@),
        decreases k,
    {
        let ghost e = env_of(env@).take(k as int);
        assert(e.drop_last() =~= env_of(env@).take(k - 1));
        if str_eq(env[k - 1].0.as_str(), name) {
            return Some(copy_value(&env[k - 1].1));
        }
        k -= 1;
    }
    assert(env_of(env@).take(0) =~= Seq::<(Seq<char>, Val)>::empty());
    None
}

fn to_bool(v: &Value) -> (r: Result<bool, ExecutionError>)
    ensures
        match as_bool(val_of(*v)) {
            Ok(b) => r == Ok::<bool, ExecutionError>(b),
            Err(y) => r matches Err(x) && err_is(x, y),
        },
{
    match v {
        Value::Bool(b) => Ok(*b),
        _ => Err(no_overload()),
    }
}


/// The key that `v` stands for, where it can be one.
fn key_of(v: &Value) -> (r: Option<Key>)
    ensures
        is_key(val_of(*v)) ==> (r matches Some(k) && key_val(k) == val_of(*v)),
        !is_key(val_of(*v)) ==> r is None,
{
    match v {
        Value::Int(i) => Some(Key::Int(*i)),
        Value::UInt(u) => Some(Key::Uint(*u)),
        Value::Bool(b) => Some(Key::Bool(*b)),
        Value::String(s) => Some(Key::String(to_string(s.as_str()))),
        _ => None,
    }
}

/// Whether two keys are the same key.
fn key_eq(a: &Key, b: &Key) -> (r: bool)
    ensures
        r == (key_val(*a) == key_val(*b)),
{
    match (a, b) {
        (Key::Int(x), Key::Int(y)) => *x == *y,
        (Key::Uint(x), Key::Uint(y)) => *x == *y,
        (Key::Bool(x), Key::Bool(y)) => *x == *y,
        (Key::String(x), Key::String(y)) => str_eq(x.as_str(), y.as_str()),
        _ => false,
    }
}

/// The position of the latest entry of `k` in `m`.
fn map_find(m: &Vec<(Key, Value)>, k: &Key) -> (r: Option<usize>)
    ensures
        match map_get(entries_of(m@), key_val(*k)) {
            Some(v) => r matches Some(i) && i < m@.len() && val_of(m@[i as int].1) == v,
            None => r is None,
        },
        r matches Some(i) ==> i < m@.len() && key_val(m@[i as int].0) == key_val(*k)
            && forall|j: int| i < j < m@.len() ==> key_val(#[trigger] m@[j].0) != key_val(*k),
        r is None ==> forall|j: int| 0 <= j < m@.len() ==> key_val(#[trigger] m@[j].0) != key_val(*k),
{
    let ghost em = entries_of(m@);
    proof {
        lemma_entries_of(m@);
        assert(em.take(m@.len() as int) =~= em);
    }
    let mut i = m.len();
    while i > 0
        invariant
            i <= m@.len(),
            em == entries_of(m@),
            em.len() == m@.len(),
            forall|j: int| 0 <= j < m@.len() ==> #[trigger] em[j] == (key_val(m@[j].0), val_of(m@[j].1)),
            map_get(em, key_val(*k)) == map_get(em.take(i as int), key_val(*k)),
            forall|j: int| i <= j < m@.len() ==> key_val(#[trigger] m@[j].0) != key_val(*k),
        decreases i,
    {
        assert(em.take(i as int).drop_last() =~= em.take(i - 1));
        assert(em.take(i as int).last() == em[i - 1]);
        if key_eq(&m[i - 1].0, k) {
            return Some(i - 1);
        }
        i -= 1;
    }
    assert(em.take(0) =~= Seq::<(Val, Val)>::empty());
    None
}

/// Whether `v` is a double.
fn is_double(v: &Value) -> (r: bool)
    ensures
        r == (v is Double),
{
    match v {
        Value::Double(_) => true,
        _ => false,
    }
}

/// Whether `v` is an int, a uint or a double.
fn is_number(v: &Value) -> (r: bool)
    ensures
        r == (v is Int || v is UInt || v is Double),
{
    match v {
        Value::Int(_) | Value::UInt(_) | Value::Double(_) => true,
        _ => false,
    }
}

/// Whether `a` equals `b`; see [`val_eq`]. Doubles are compared by
/// `doubles`.
pub fn values_equal<D: DoubleOps>(a: &Value, b: &Value, doubles: &D) -> (r: bool)
    ensures
        val_eq(val_of(*a), val_of(*b)) matches Some(x) ==> r == x,
    decreases a,
{
    if (is_double(a) && is_number(b)) || (is_double(b) && is_number(a)) {
        let args = vec![copy_value(a), copy_value(b)];
        return match doubles.apply("_==_", args.as_slice()) {
            Ok(Value::Bool(x)) => x,
            _ => false,
        };
    }
    match (a, b) {
        (Value::Null, Value::Null) => true,
        (Value::Bool(x), Value::Bool(y)) => *x == *y,
        (Value::Int(x), Value::Int(y)) => *x == *y,
        (Value::UInt(x), Value::UInt(y)) => *x == *y,
        (Value::Int(x), Value::UInt(y)) => *x >= 0 && (*x as u64) == *y,
        (Value::UInt(x), Value::Int(y)) => *y >= 0 && (*y as u64) == *x,
        (Value::String(x), Value::String(y)) => str_eq(x.as_str(), y.as_str()),
        (Value::Bytes(x), Value::Bytes(y)) => {
            if x.len() != y.len() {
                return false;
            }
            let mut i: usize = 0;
            while i < x.len()
                invariant
                    i <= x@.len(),
                    x@.len() == y@.len(),
                    *a == Value::Bytes(*x),
                    *b == Value::Bytes(*y),
                    forall|j: int| 0 <= j < i ==> x@[j] == y@[j],
                decreases x@.len() - i,
            {
                if x[i] != y[i] {
                    assert(x@[i as int] != y@[i as int]);
                    return false;
                }
                i += 1;
            }
            assert(x@ =~= y@);
            true
        },
        (Value::List(x), Value::List(y)) => {
            proof {
                lemma_vals_of(x@);
                lemma_vals_of(y@);
            }
            if x.len() != y.len() {
                return false;
            }
            let ghost xs = vals_of(x@);
            let ghost ys = vals_of(y@);
            assert(xs.skip(0) =~= xs && ys.skip(0) =~= ys);
            let mut i: usize = 0;
            while i < x.len()
                invariant
                    i <= x@.len(),
                    x@.len() == y@.len(),
                    *a == Value::List(*x),
                    *b == Value::List(*y),
                    val_of(*a) == Val::List(xs),
                    val_of(*b) == Val::List(ys),
                    xs == vals_of(x@),
                    ys == vals_of(y@),
                    xs.len() == x@.len(),
                    ys.len() == y@.len(),
                    forall|j: int| 0 <= j < x@.len() ==> #[trigger] xs[j] == val_of(x@[j]),
                    forall|j: int| 0 <= j < y@.len() ==> #[trigger] ys[j] == val_of(y@[j]),
                    list_eq(xs, ys) is Some ==> list_eq(xs, ys) == list_eq(xs.skip(i as int), ys.skip(i as int)),
                decreases x@.len() - i,
            {
                assert(decreases_to!(a => x@[i as int])) by {
                    assert(decreases_to!(*a => a->List_0));
                    assert(decreases_to!(a->List_0 => a->List_0@));
                }
                assert(xs.skip(i as int).drop_first() =~= xs.skip(i + 1));
                assert(ys.skip(i as int).drop_first() =~= ys.skip(i + 1));
                assert(xs.skip(i as int)[0] == xs[i as int] && ys.skip(i as int)[0] == ys[i as int]);
                let eq = values_equal(&x[i], &y[i], doubles);
                if !eq {
                    return false;
                }
                i += 1;
            }
            assert(xs.skip(i as int).len() == 0);
            true
        },
        (Value::Mapping(x), Value::Mapping(y)) => {
            proof {
                lemma_entries_of(x@);
                lemma_entries_of(y@);
            }
            if x.len() != y.len() {
                return false;
            }
            let ghost xs = entries_of(x@);
            let ghost ys = entries_of(y@);
            assert(xs.skip(0) =~= xs);
            let mut i: usize = 0;
            while i < x.len()
                invariant
                    i <= x@.len(),
                    *a == Value::Mapping(*x),
                    *b == Value::Mapping(*y),
                    val_of(*a) == Val::Mapping(xs),
                    val_of(*b) == Val::Mapping(ys),
                    xs.len() == ys.len(),
                    xs == entries_of(x@),
                    ys == entries_of(y@),
                    xs.len() == x@.len(),
                    forall|j: int| 0 <= j < x@.len() ==> #[trigger] xs[j] == (key_val(x@[j].0), val_of(x@[j].1)),
                    map_eq(xs, ys) is Some ==> map_eq(xs, ys) == map_eq(xs.skip(i as int), ys),
                decreases x@.len() - i,
            {
                assert(decreases_to!(a => x@[i as int].1)) by {
                    assert(decreases_to!(*a => a->Mapping_0));
                    assert(decreases_to!(a->Mapping_0 => a->Mapping_0@));
                    assert(decreases_to!(x@ => x@[i as int]));
                    assert(decreases_to!(x@[i as int] => x@[i as int].1));
                }
                assert(xs.skip(i as int).drop_first() =~= xs.skip(i + 1));
                assert(xs.skip(i as int)[0] == xs[i as int]);
                match map_find(y, &x[i].0) {
                    None => {
                        return false;
                    },
                    Some(j) => {
                        let eq = values_equal(&x[i].1, &y[j].1, doubles);
                        if !eq {
                            return false;
                        }
                    },
                }
                i += 1;
            }
            assert(xs.skip(i as int).len() == 0);
            true
        },
        _ => false,
    }
}

/// Whether `a` is an element of `l`; see [`list_has`].
fn list_contains<D: DoubleOps>(a: &Value, l: &Vec<Value>, doubles: &D) -> (r: bool)
    ensures
        list_has(val_of(*a), vals_of(l@)) matches Some(x) ==> r == x,
{
    proof {
        lemma_vals_of(l@);
    }
    let ghost ls = vals_of(l@);
    assert(ls.skip(0) =~= ls);
    let mut i: usize = 0;
    while i < l.len()
        invariant
            i <= l@.len(),
            ls == vals_of(l@),
            ls.len() == l@.len(),
            forall|j: int| 0 <= j < l@.len() ==> #[trigger] ls[j] == val_of(l@[j]),
            list_has(val_of(*a), ls) is Some ==> list_has(val_of(*a), ls) == list_has(val_of(*a), ls.skip(i as int)),
        decreases l@.len() - i,
    {
        assert(ls.skip(i as int).drop_first() =~= ls.skip(i + 1));
        assert(ls.skip(i as int)[0] == ls[i as int]);
        if values_equal(a, &l[i], doubles) {
            return true;
        }
        i += 1;
    }
    assert(ls.skip(i as int).len() == 0);
    false
}

fn sign_of(less: bool, equal: bool) -> (r: i8)
    ensures
        r == (if less { -1i8 } else if equal { 0i8 } else { 1i8 }),
{
    if less { -1 } else if equal { 0 } else { 1 }
}

/// How the text `x` compares with `y`; see [`text_order`].
fn compare_text(x: &str, y: &str) -> (r: i8)
    ensures
        r == text_order(x@, y@),
{
    let a = chars_of(x);
    let b = chars_of(y);
    assert(a@.skip(0) =~= a@ && b@.skip(0) =~= b@);
    let mut i: usize = 0;
    while i < a.len() && i < b.len()
        invariant
            i <= a@.len(),
            i <= b@.len(),
            a@ == x@,
            b@ == y@,
            text_order(a@, b@) == text_order(a@.skip(i as int), b@.skip(i as int)),
        decreases a@.len() - i,
    {
        assert(a@.skip(i as int).drop_first() =~= a@.skip(i + 1));
        assert(b@.skip(i as int).drop_first() =~= b@.skip(i + 1));
        assert(a@.skip(i as int)[0] == a@[i as int]);
        assert(b@.skip(i as int)[0] == b@[i as int]);
        let (c, d) = (a[i] as u32, b[i] as u32);
        if c < d {
            return -1;
        }
        if c > d {
            return 1;
        }
        i += 1;
    }
    assert(a@.skip(i as int).len() == 0 || b@.skip(i as int).len() == 0);
    if i == a.len() {
        if i == b.len() { 0 } else { -1 }
    } else {
        1
    }
}

/// How `a` compares with `b`, where they are comparable; see
/// [`order_spec`].
fn order(a: &Value, b: &Value) -> (r: Option<i8>)
    requires
        !(a is Double),
        !(b is Double),
    ensures
        order_spec(val_of(*a), val_of(*b)) == Some(r),
{
    match (a, b) {
        (Value::Int(x), Value::Int(y)) => Some(sign_of(*x < *y, *x == *y)),
        (Value::UInt(x), Value::UInt(y)) => Some(sign_of(*x < *y, *x == *y)),
        (Value::Int(x), Value::UInt(y)) => if *x < 0 {
            Some(-1)
        } else {
            Some(sign_of((*x as u64) < *y, (*x as u64) == *y))
        },
        (Value::UInt(x), Value::Int(y)) => if *y < 0 {
            Some(1)
        } else {
            Some(sign_of(*x < (*y as u64), *x == (*y as u64)))
        },
        (Value::Bool(x), Value::Bool(y)) => Some(sign_of(!*x && *y, *x == *y)),
        (Value::Null, Value::Null) => Some(0),
        (Value::String(x), Value::String(y)) => Some(compare_text(x.as_str(), y.as_str())),
        _ => None,
    }
}

/// Whether `needle` occurs in `hay`.
pub open spec fn text_has(hay: Seq<char>, needle: Seq<char>) -> bool {
    exists|i: int| 0 <= i && i + needle.len() <= hay.len() && #[trigger] hay.subrange(i, i + needle.len()) == needle
}

/// Whether the text `hay` holds `needle`; see [`text_has`].
fn text_contains(hay: &str, needle: &str) -> (r: bool)
    ensures
        r == text_has(hay@, needle@),
{
    let h = chars_of(hay);
    let n = chars_of(needle);
    if n.len() > h.len() {
        return false;
    }
    let last = h.len() - n.len();
    let mut i: usize = 0;
    loop
        invariant
            h@ == hay@,
            n@ == needle@,
            n@.len() <= h@.len(),
            last == h@.len() - n@.len(),
            i <= last,
            forall|k: int| 0 <= k < i ==> #[trigger] h@.subrange(k, k + n@.len()) != n@,
        decreases last - i,
    {
        let mut j: usize = 0;
        let mut same = true;
        while j < n.len()
            invariant
                j <= n@.len(),
                n@.len() <= h@.len(),
                i <= last,
                last == h@.len() - n@.len(),
                same == (forall|x: int| 0 <= x < j ==> h@[i + x] == n@[x]),
            decreases n@.len() - j,
        {
            assert(j < n@.len());
            assert(i + j < h.len());
            if h[i + j] != n[j] {
                same = false;
            }
            j += 1;
        }
        if same {
            assert(h@.subrange(i as int, i + n@.len()) =~= n@);
            return true;
        }
        proof {
            let x = choose|x: int| 0 <= x < n@.len() && h@[i + x] != n@[x];
            assert(h@.subrange(i as int, i + n@.len())[x] == h@[i + x]);
        }
        if i == last {
            proof {
                assert forall|k: int| 0 <= k && k + n@.len() <= h@.len() implies #[trigger] h@.subrange(k, k + n@.len()) != n@ by {
                    assert(k <= i);
                }
            }
            return false;
        }
        i += 1;
    }
}

fn lift_int_exec(r: Result<Int, ExecutionError>) -> (v: Result<Value, ExecutionError>)
    ensures
        match lift_int(r) {
            Ok(x) => v matches Ok(y) && val_of(y) == x,
            Err(e) => v matches Err(x) && err_is(x, e),
        },
{
    match r {
        Ok(i) => Ok(Value::Int(i.0)),
        Err(x) => Err(x),
    }
}

fn lift_uint_exec(r: Result<UInt, ExecutionError>) -> (v: Result<Value, ExecutionError>)
    ensures
        match lift_uint(r) {
            Ok(x) => v matches Ok(y) && val_of(y) == x,
            Err(e) => v matches Err(x) && err_is(x, e),
        },
{
    match r {
        Ok(u) => Ok(Value::UInt(u.0)),
        Err(x) => Err(x),
    }
}

/// `r` is the outcome `o` stands for.
pub open spec fn is_outcome(r: Result<Value, ExecutionError>, o: Result<Val, EvalErr>) -> bool {
    match r {
        Ok(v) => o == Ok::<Val, EvalErr>(val_of(v)),
        Err(x) => o matches Err(y) && err_is(x, y),
    }
}

/// The operator `f`, one of `+ - * / %`, on two values.
fn arith<D: DoubleOps>(f: &str, a: Value, b: Value, doubles: &D) -> (r: Result<Value, ExecutionError>)
    ensures
        arith_spec(f@, val_of(a), val_of(b)) matches Some(o) ==> is_outcome(r, o),
{
    match (a, b) {
        (Value::Int(x), Value::Int(y)) => {
            let (x, y) = (Int(x), Int(y));
            if str_eq(f, "_+_") {
                lift_int_exec(x.add(&y))
            } else if str_eq(f, "_-_") {
                lift_int_exec(x.sub(&y))
            } else if str_eq(f, "_*_") {
                lift_int_exec(x.mul(&y))
            } else if str_eq(f, "_/_") {
                lift_int_exec(x.div(&y))
            } else {
                lift_int_exec(x.modulo(&y))
            }
        },
        (Value::UInt(x), Value::UInt(y)) => {
            let (x, y) = (UInt(x), UInt(y));
            if str_eq(f, "_+_") {
                lift_uint_exec(x.add(&y))
            } else if str_eq(f, "_-_") {
                lift_uint_exec(x.sub(&y))
            } else if str_eq(f, "_*_") {
                lift_uint_exec(x.mul(&y))
            } else if str_eq(f, "_/_") {
                lift_uint_exec(x.div(&y))
            } else {
                lift_uint_exec(x.modulo(&y))
            }
        },
        (Value::String(x), Value::String(y)) => {
            if str_eq(f, "_+_") {
                let mut s = x;
                push_str(&mut s, y.as_str());
                Ok(Value::String(s))
            } else {
                Err(no_overload())
            }
        },
        (Value::List(x), Value::List(y)) => {
            if str_eq(f, "_+_") {
                let mut l = x;
                let mut y = y;
                proof {
                    lemma_vals_of(l@);
                    lemma_vals_of(y@);
                }
                let ghost (l0, y0) = (l@, y@);
                l.append(&mut y);
                proof {
                    lemma_vals_of(l@);
                    assert(l@ =~= l0 + y0);
                    assert(vals_of(l@) =~= vals_of(l0) + vals_of(y0));
                }
                Ok(Value::List(l))
            } else {
                Err(no_overload())
            }
        },
        (a, b) => {
            if is_double(&a) || is_double(&b) {
                let args = vec![a, b];
                doubles.apply(f, args.as_slice())
            } else {
                Err(no_overload())
            }
        },
    }
}

/// The operator `f` (one of [`is_binary`]) on the values `a` and `b`; see
/// [`binary_spec`].
fn binary<D: DoubleOps>(f: &str, a: Value, b: Value, doubles: &D) -> (r: Result<Value, ExecutionError>)
    requires
        is_binary(f@),
    ensures
        binary_spec(f@, val_of(a), val_of(b)) matches Some(o) ==> is_outcome(r, o),
{
    if str_eq(f, "_==_") || str_eq(f, "_!=_") {
        let x = values_equal(&a, &b, doubles);
        Ok(Value::Bool(if str_eq(f, "_==_") { x } else { !x }))
    } else if str_eq(f, "_<_") || str_eq(f, "_<=_") || str_eq(f, "_>_") || str_eq(f, "_>=_") {
        if is_double(&a) || is_double(&b) {
            let args = vec![a, b];
            return doubles.apply(f, args.as_slice());
        }
        match order(&a, &b) {
            Some(c) => Ok(Value::Bool(
                if str_eq(f, "_<_") { c < 0 } else if str_eq(f, "_<=_") { c <= 0 } else if str_eq(f, "_>_") { c > 0 } else { c >= 0 },
            )),
            None => Err(no_overload()),
        }
    } else if str_eq(f, "@in") {
        match &b {
            Value::List(l) => Ok(Value::Bool(list_contains(&a, l, doubles))),
            Value::Mapping(m) => match key_of(&a) {
                Some(k) => Ok(Value::Bool(map_find(m, &k).is_some())),
                None => Ok(Value::Bool(false)),
            },
            Value::String(h) => match &a {
                Value::String(n) => Ok(Value::Bool(text_contains(h.as_str(), n.as_str()))),
                _ => Err(no_overload()),
            },
            _ => Err(no_overload()),
        }
    } else if str_eq(f, "_[_]") {
        match (a, b) {
            (Value::List(l), Value::Int(i)) => {
                proof { lemma_vals_of(l@); }
                if i >= 0 && (i as u64) < (l.len() as u64) {
                    Ok(copy_value(&l[i as usize]))
                } else {
                    Err(ExecutionError::IndexOutOfBounds(Operand::Int(i)))
                }
            },
            (Value::List(l), Value::UInt(i)) => {
                proof { lemma_vals_of(l@); }
                if i < (l.len() as u64) {
                    Ok(copy_value(&l[i as usize]))
                } else {
                    Err(ExecutionError::IndexOutOfBounds(Operand::UInt(i)))
                }
            },
            (Value::String(_), Value::Int(i)) => {
                let k = Key::Int(i);
                let t = k.text();
                Err(ExecutionError::NoSuchKey(t))
            },
            (Value::Mapping(m), k) => match key_of(&k) {
                Some(key) => match map_find(&m, &key) {
                    Some(j) => Ok(copy_value(&m[j].1)),
                    None => {
                        let t = key.text();
                        proof { lemma_key_text(key, val_of(k)); }
                        Err(ExecutionError::NoSuchKey(t))
                    },
                },
                None => Err(no_overload()),
            },
            _ => Err(no_overload()),
        }
    } else {
        arith(f, a, b, doubles)
    }
}

proof fn lemma_key_text(k: Key, v: Val)
    requires
        key_val(k) == v,
    ensures
        key_text(k) == val_key_text(v),
{
}

/// A unary operator, `-_` or `@not_strictly_false`, on `v`; see
/// [`unary_spec`].
fn unary<D: DoubleOps>(f: &str, v: Value, doubles: &D) -> (r: Result<Value, ExecutionError>)
    requires
        f@ == "-_"@ || f@ == "@not_strictly_false"@,
    ensures
        unary_spec(f@, val_of(v)) matches Some(o) ==> is_outcome(r, o),
{
    if str_eq(f, "-_") {
        match v {
            Value::Int(i) => if i == i64::MIN {
                Ok(Value::Int(i))
            } else {
                Ok(Value::Int(-i))
            },
            Value::Double(_) => {
                let args = vec![v];
                doubles.apply(f, args.as_slice())
            },
            _ => Err(no_overload()),
        }
    } else {
        proof {
            assert(f@ != "-_"@);
        }
        match v {
            Value::Bool(b) => Ok(Value::Bool(b)),
            _ => Ok(Value::Bool(true)),
        }
    }
}
/// Evaluates `e` with the variables of `env`, charging comprehension
/// iterations to `frame`; doubles go to `doubles`. Where [`eval_spec`]
/// states the outcome, the result agrees with it, unless `frame` stopped
/// the evaluation, which then fails with the abort's error.
pub fn eval<I: Interrupt, D: DoubleOps, F: Function>(e: &IdedExpr, env: &mut Vec<(String, Value)>, frame: &mut Frame<'_, I>, doubles: &D, funcs: &Vec<(String, F)>) -> (r: Result<Value, ExecutionError>)
    requires
        old(frame).wf(),
    ensures
        final(frame).wf(),
        final(env)@ == old(env)@,
        old(frame).abort_spec() != Abort::Running ==> final(frame).abort_spec() != Abort::Running,
        agrees(r, eval_spec(*e, env_of(old(env)@), fnames(funcs@)), *final(frame)),
    decreases e, 0nat,
{
    match &e.expr {
        Expr::Literal(l) => match l {
            LiteralValue::Int(i) => Ok(Value::Int(*i)),
            LiteralValue::UInt(u) => Ok(Value::UInt(*u)),
            LiteralValue::Double(t) => doubles.literal(t.as_str()),
            LiteralValue::String(s) => Ok(Value::String(to_string(s.as_str()))),
            LiteralValue::Bytes(b) => Ok(Value::Bytes(copy_bytes(b))),
            LiteralValue::Boolean(b) => Ok(Value::Bool(*b)),
            LiteralValue::Null => Ok(Value::Null),
        },
        Expr::Ident(n) => match lookup_value(env, n.as_str()) {
            Some(v) => Ok(v),
            None => Err(ExecutionError::undeclared_reference(n.as_str())),
        },
        Expr::Call(c) => {
            assert(decreases_to!(e => c.args@));
            match &c.target {
                Some(t) => if is_operator_name(c.func_name.as_str(), c.args.len()) {
                    eval_call(c.func_name.as_str(), true, &c.args, env, frame, doubles, funcs)
                } else {
                    assert(decreases_to!(e => **t));
                    let tv = eval(t, env, frame, doubles, funcs)?;
                    call_function(c.func_name.as_str(), Some(tv), &c.args, env, frame, doubles, funcs)
                },
                None => eval_call(c.func_name.as_str(), false, &c.args, env, frame, doubles, funcs),
            }
        },
        Expr::Select(s) => {
            assert(decreases_to!(e => *s.operand));
            let v = eval(&s.operand, env, frame, doubles, funcs)?;
            select(v, s.field.as_str(), s.test)
        },
        Expr::List(l) => {
            if l.optional_indices.len() > 0 {
                return Err(ExecutionError::InternalError(to_string("optional list elements are not evaluated here")));
            }
            assert(decreases_to!(e => l.elements@));
            let vs = eval_args(&l.elements, env, frame, doubles, funcs)?;
            Ok(Value::List(vs))
        },
        Expr::MapLit(m) => {
            assert(decreases_to!(e => m.entries@));
            let es = eval_entries(&m.entries, env, frame, doubles, funcs)?;
            Ok(Value::Mapping(es))
        },
        Expr::Comprehension(c) => {
            assert(decreases_to!(e => **c));
            eval_comprehension(c, env, frame, doubles, funcs)
        },
        _ => Err(ExecutionError::InternalError(to_string("unsupported expression"))),
    }
}

/// A field of `v`, or whether `v` has it when `test`; see [`select_spec`].
fn select(v: Value, field: &str, test: bool) -> (r: Result<Value, ExecutionError>)
    ensures
        is_outcome(r, select_spec(val_of(v), field@, test)),
{
    let key = Key::String(to_string(field));
    match v {
        Value::Mapping(m) => {
            let found = map_find(&m, &key);
            if test {
                Ok(Value::Bool(found.is_some()))
            } else {
                match found {
                    Some(j) => Ok(copy_value(&m[j].1)),
                    None => Err(ExecutionError::no_such_key(field)),
                }
            }
        },
        _ => if test {
            Ok(Value::Bool(false))
        } else {
            Err(ExecutionError::no_such_key(field))
        },
    }
}

/// Evaluates `args` in order; see [`args_spec`].
fn eval_args<I: Interrupt, D: DoubleOps, F: Function>(args: &Vec<IdedExpr>, env: &mut Vec<(String, Value)>, frame: &mut Frame<'_, I>, doubles: &D, funcs: &Vec<(String, F)>) -> (r: Result<Vec<Value>, ExecutionError>)
    requires
        old(frame).wf(),
    ensures
        final(frame).wf(),
        final(env)@ == old(env)@,
        old(frame).abort_spec() != Abort::Running ==> final(frame).abort_spec() != Abort::Running,
        args_spec(args@, env_of(old(env)@), fnames(funcs@)) matches Some(o) ==> match r {
            Ok(vs) => o == Ok::<Seq<Val>, EvalErr>(vals_of(vs@)),
            Err(x) => (o matches Err(y) && err_is(x, y))
                || (final(frame).abort_spec() != Abort::Running && (x is Interrupted || x is IterationBudgetExceeded)),
        },
    decreases args@, 0nat,
{
    let ghost env0 = env_of(env@);
    let mut out: Vec<Value> = Vec::new();
    let mut i: usize = 0;
    assert(args@.take(0) =~= Seq::<IdedExpr>::empty());
    while i < args.len()
        invariant
            i <= args@.len(),
            frame.wf(),
            env@ == old(env)@,
            env0 == env_of(old(env)@),
            old(frame).abort_spec() != Abort::Running ==> frame.abort_spec() != Abort::Running,
            args_spec(args@, env0, fnames(funcs@)) is Some ==> args_spec(args@.take(i as int), env0, fnames(funcs@)) == Some(Ok::<Seq<Val>, EvalErr>(vals_of(out@))),
        decreases args@.len() - i,
    {
        assert(decreases_to!(args@ => args@[i as int]));
        assert(args@.take(i + 1).drop_last() =~= args@.take(i as int));
        assert(args@.take(i + 1)[i as int] == args@[i as int]);
        proof {
            lemma_args_prefix(args@, i as int, env0, fnames(funcs@));
        }
        let v = eval(&args[i], env, frame, doubles, funcs)?;
        let ghost before = out@;
        out.push(v);
        assert(out@.drop_last() =~= before);
        i += 1;
    }
    assert(args@.take(args@.len() as int) =~= args@);
    Ok(out)
}

/// A prefix that stops on an error or on an unstated outcome stops the
/// whole sequence there.
proof fn lemma_args_prefix(args: Seq<IdedExpr>, i: int, env: Env, fs: Seq<Seq<char>>)
    requires
        0 <= i < args.len(),
    ensures
        !(args_spec(args.take(i + 1), env, fs) matches Some(Ok(_))) ==> args_spec(args, env, fs) == args_spec(args.take(i + 1), env, fs),
    decreases args.len() - i,
{
    if i + 1 < args.len() {
        lemma_args_prefix(args, i + 1, env, fs);
        assert(args.take(i + 2).drop_last() =~= args.take(i + 1));
    } else {
        assert(args.take(i + 1) =~= args);
    }
}

proof fn lemma_map_put_at(e: Seq<(Val, Val)>, k: Val, v: Val, i: int)
    requires
        0 <= i < e.len(),
        e[i].0 == k,
        forall|j: int| i < j < e.len() ==> (#[trigger] e[j]).0 != k,
    ensures
        map_get(e, k) is Some,
        replace_last(e, k, v) == e.update(i, (k, v)),
        map_put(e, k, v) == e.update(i, (k, v)),
    decreases e.len(),
{
    if i == e.len() - 1 {
        assert(e.drop_last().push((k, v)) =~= e.update(i, (k, v)));
    } else {
        assert(e.last() == e[e.len() - 1]);
        assert forall|j: int| i < j < e.drop_last().len() implies (#[trigger] e.drop_last()[j]).0 != k by {
            assert(e.drop_last()[j] == e[j]);
        }
        assert(e.drop_last()[i] == e[i]);
        lemma_map_put_at(e.drop_last(), k, v, i);
        assert(e.drop_last().update(i, (k, v)).push(e.last()) =~= e.update(i, (k, v)));
    }
}

proof fn lemma_map_put_new(e: Seq<(Val, Val)>, k: Val, v: Val)
    requires
        forall|j: int| 0 <= j < e.len() ==> (#[trigger] e[j]).0 != k,
    ensures
        map_get(e, k) is None,
        map_put(e, k, v) == e.push((k, v)),
    decreases e.len(),
{
    if e.len() > 0 {
        assert(e.last() == e[e.len() - 1]);
        assert forall|j: int| 0 <= j < e.drop_last().len() implies (#[trigger] e.drop_last()[j]).0 != k by {
            assert(e.drop_last()[j] == e[j]);
        }
        lemma_map_put_new(e.drop_last(), k, v);
    }
}

/// Binds `k` to `v` in the entries `m`; see [`map_put`].
fn map_insert(m: &mut Vec<(Key, Value)>, k: Key, v: Value)
    ensures
        entries_of(final(m)@) == map_put(entries_of(old(m)@), key_val(k), val_of(v)),
{
    proof {
        lemma_entries_of(m@);
    }
    let ghost e0 = entries_of(m@);
    let ghost (kv, vv) = (key_val(k), val_of(v));
    match map_find(m, &k) {
        Some(j) => {
            proof {
                assert forall|x: int| j < x < e0.len() implies (#[trigger] e0[x]).0 != kv by {
                    assert(e0[x].0 == key_val(m@[x].0));
                }
                lemma_map_put_at(e0, kv, vv, j as int);
            }
            m.set(j, (k, v));
            proof {
                lemma_entries_of(m@);
                assert(entries_of(m@) =~= e0.update(j as int, (kv, vv)));
            }
        },
        None => {
            proof {
                assert forall|x: int| 0 <= x < e0.len() implies (#[trigger] e0[x]).0 != kv by {
                    assert(e0[x].0 == key_val(m@[x].0));
                }
                lemma_map_put_new(e0, kv, vv);
            }
            m.push((k, v));
            proof {
                lemma_entries_of(m@);
                assert(entries_of(m@) =~= e0.push((kv, vv)));
            }
        },
    }
}

/// Evaluates the entries of a map literal; see [`entries_spec`].
fn eval_entries<I: Interrupt, D: DoubleOps, F: Function>(es: &Vec<IdedEntryExpr>, env: &mut Vec<(String, Value)>, frame: &mut Frame<'_, I>, doubles: &D, funcs: &Vec<(String, F)>) -> (r: Result<Vec<(Key, Value)>, ExecutionError>)
    requires
        old(frame).wf(),
    ensures
        final(frame).wf(),
        final(env)@ == old(env)@,
        old(frame).abort_spec() != Abort::Running ==> final(frame).abort_spec() != Abort::Running,
        entries_spec(es@, env_of(old(env)@), fnames(funcs@)) matches Some(o) ==> match r {
            Ok(m) => o == Ok::<Seq<(Val, Val)>, EvalErr>(entries_of(m@)),
            Err(x) => (o matches Err(y) && err_is(x, y))
                || (final(frame).abort_spec() != Abort::Running && (x is Interrupted || x is IterationBudgetExceeded)),
        },
    decreases es@, 0nat,
{
    let ghost env0 = env_of(env@);
    let mut out: Vec<(Key, Value)> = Vec::new();
    let mut i: usize = 0;
    assert(es@.take(0) =~= Seq::<IdedEntryExpr>::empty());
    while i < es.len()
        invariant
            i <= es@.len(),
            frame.wf(),
            env@ == old(env)@,
            env0 == env_of(old(env)@),
            old(frame).abort_spec() != Abort::Running ==> frame.abort_spec() != Abort::Running,
            entries_spec(es@, env0, fnames(funcs@)) is Some ==> entries_spec(es@.take(i as int), env0, fnames(funcs@)) == Some(Ok::<Seq<(Val, Val)>, EvalErr>(entries_of(out@))),
        decreases es@.len() - i,
    {
        assert(es@.take(i + 1).drop_last() =~= es@.take(i as int));
        assert(es@.take(i + 1)[i as int] == es@[i as int]);
        proof {
            lemma_entries_prefix(es@, i as int, env0, fnames(funcs@));
        }
        match &es[i].expr {
            EntryExpr::MapEntry(me) => {
                if me.optional {
                    return Err(ExecutionError::InternalError(to_string("optional map entries are not evaluated here")));
                }
                assert(decreases_to!(es@ => es@[i as int]));
                assert(decreases_to!(es@[i as int] => es@[i as int].expr));
                assert(decreases_to!(es@[i as int].expr => *me));
                assert(decreases_to!(*me => me.key));
                assert(decreases_to!(*me => me.value));
                let k = eval(&me.key, env, frame, doubles, funcs)?;
                let key = match key_of(&k) {
                    Some(key) => key,
                    None => return Err(no_overload()),
                };
                let v = eval(&me.value, env, frame, doubles, funcs)?;
                map_insert(&mut out, key, v);
            },
            EntryExpr::StructField(_) => {
                return Err(ExecutionError::InternalError(to_string("message fields are not evaluated here")));
            },
        }
        i += 1;
    }
    assert(es@.take(es@.len() as int) =~= es@);
    Ok(out)
}

/// A prefix of entries that stops on an error or on an unstated outcome
/// stops the whole literal there.
proof fn lemma_entries_prefix(es: Seq<IdedEntryExpr>, i: int, env: Env, fs: Seq<Seq<char>>)
    requires
        0 <= i < es.len(),
    ensures
        !(entries_spec(es.take(i + 1), env, fs) matches Some(Ok(_))) ==> entries_spec(es, env, fs) == entries_spec(es.take(i + 1), env, fs),
    decreases es.len() - i,
{
    if i + 1 < es.len() {
        lemma_entries_prefix(es, i + 1, env, fs);
        assert(es.take(i + 2).drop_last() =~= es.take(i + 1));
    } else {
        assert(es.take(i + 1) =~= es);
    }
}

/// Evaluates a comprehension; see [`loop_spec`].
fn eval_comprehension<I: Interrupt, D: DoubleOps, F: Function>(c: &ComprehensionExpr, env: &mut Vec<(String, Value)>, frame: &mut Frame<'_, I>, doubles: &D, funcs: &Vec<(String, F)>) -> (r: Result<Value, ExecutionError>)
    requires
        old(frame).wf(),
    ensures
        final(frame).wf(),
        final(env)@ == old(env)@,
        old(frame).abort_spec() != Abort::Running ==> final(frame).abort_spec() != Abort::Running,
        agrees(r, comp_spec(*c, env_of(old(env)@), fnames(funcs@)), *final(frame)),
    decreases *c, 0nat,
{
    if c.iter_var2.is_some() {
        return Err(ExecutionError::InternalError(to_string("two-variable comprehensions are not evaluated here")));
    }
    let ghost env0 = env_of(env@);
    assert(decreases_to!(*c => c.accu_init));
    assert(decreases_to!(*c => c.iter_range));
    assert(decreases_to!(*c => c.loop_cond));
    assert(decreases_to!(*c => c.loop_step));
    assert(decreases_to!(*c => c.result));
    let init = eval(&c.accu_init, env, frame, doubles, funcs)?;
    let range = eval(&c.iter_range, env, frame, doubles, funcs)?;
    let ghost range_v = val_of(range);
    let items: Vec<Value> = match range {
        Value::List(l) => l,
        Value::Mapping(m) => {
            proof {
                lemma_entries_of(m@);
            }
            let mut ks: Vec<Value> = Vec::new();
            let mut j: usize = 0;
            while j < m.len()
                invariant
                    j <= m@.len(),
                    ks@.len() == j,
                    forall|x: int| 0 <= x < j ==> val_of(#[trigger] ks@[x]) == key_val(m@[x].0),
                decreases m@.len() - j,
            {
                ks.push(key_value(&m[j].0));
                j += 1;
            }
            proof {
                lemma_vals_of(ks@);
                let em = entries_of(m@);
                assert(vals_of(ks@) =~= Seq::new(em.len(), |x: int| em[x].0));
            }
            ks
        },
        _ => return Err(no_overload()),
    };
    let ghost all = vals_of(items@);
    let ghost init_v = val_of(init);
    let ghost gl = loop_spec(*c, all, init_v, env0, fnames(funcs@));
    proof {
        lemma_vals_of(items@);
        assert(items_of(range_v) == Some(all));
        if comp_spec(*c, env0, fnames(funcs@)) is Some {
            assert(eval_spec(c.accu_init, env0, fnames(funcs@)) == Some(Ok::<Val, EvalErr>(init_v)));
            assert(eval_spec(c.iter_range, env0, fnames(funcs@)) == Some(Ok::<Val, EvalErr>(range_v)));
        }
    }
    let mut accu = init;
    let mut i: usize = 0;
    let mut done = false;
    assert(all.skip(0) =~= all);
    while i < items.len() && !done
        invariant
            i <= items@.len(),
            frame.wf(),
            env@ == old(env)@,
            env0 == env_of(old(env)@),
            old(frame).abort_spec() != Abort::Running ==> frame.abort_spec() != Abort::Running,
            all == vals_of(items@),
            all.len() == items@.len(),
            forall|j: int| 0 <= j < items@.len() ==> #[trigger] all[j] == val_of(items@[j]),
            gl == loop_spec(*c, all, init_v, env0, fnames(funcs@)),
            comp_spec(*c, env0, fnames(funcs@)) is Some ==> gl is Some && comp_spec(*c, env0, fnames(funcs@)) == (match gl {
                Some(Ok(acc)) => eval_spec(c.result, env0.push((c.accu_var@, acc)), fnames(funcs@)),
                other => other,
            }),
            gl is Some ==> if done {
                gl == Some(Ok::<Val, EvalErr>(val_of(accu)))
            } else {
                gl == loop_spec(*c, all.skip(i as int), val_of(accu), env0, fnames(funcs@))
            },
            c.iter_var2 is None,
        decreases items@.len() - i,
    {
        if frame.exhausted() {
            frame.record(Abort::Budget);
            return match frame.abort_error() {
                Some(x) => Err(x),
                None => Err(no_overload()),
            };
        }
        frame.tick()?;
        let ghost acc_v = val_of(accu);
        let ghost env1 = env0.push((c.accu_var@, acc_v));
        let ghost rest = all.skip(i as int);
        proof {
            assert(rest.len() > 0);
            assert(rest[0] == all[i as int]);
            assert(rest.drop_first() =~= all.skip(i + 1));
        }
        env.push((to_string(c.accu_var.as_str()), accu));
        assert(env_of(env@) =~= env1);
        let cond = eval(&c.loop_cond, env, frame, doubles, funcs);
        let b = match cond {
            Ok(v) => to_bool(&v),
            Err(x) => Err(x),
        };
        match b {
            Err(x) => {
                env.pop();
                assert(env@ =~= old(env)@);
                return Err(x);
            },
            Ok(false) => {
                match env.pop() {
                    Some(p) => {
                        accu = p.1;
                    },
                    None => {
                        return Err(no_overload());
                    },
                }
                assert(env@ =~= old(env)@);
                done = true;
            },
            Ok(true) => {
                let item = copy_value(&items[i]);
                let ghost env2 = env1.push((c.iter_var@, all[i as int]));
                env.push((to_string(c.iter_var.as_str()), item));
                assert(env_of(env@) =~= env2);
                let step = eval(&c.loop_step, env, frame, doubles, funcs);
                env.pop();
                env.pop();
                assert(env@ =~= old(env)@);
                match step {
                    Ok(a2) => {
                        accu = a2;
                    },
                    Err(x) => {
                        return Err(x);
                    },
                }
            },
        }
        i += 1;
    }
    proof {
        if !done {
            assert(all.skip(i as int).len() == 0);
        }
    }
    let ghost env3 = env0.push((c.accu_var@, val_of(accu)));
    env.push((to_string(c.accu_var.as_str()), accu));
    assert(env_of(env@) =~= env3);
    let r = eval(&c.result, env, frame, doubles, funcs);
    env.pop();
    assert(env@ =~= old(env)@);
    r
}

/// A map key as a value.
fn key_value(k: &Key) -> (r: Value)
    ensures
        val_of(r) == key_val(*k),
{
    match k {
        Key::Int(i) => Value::Int(*i),
        Key::Uint(u) => Value::UInt(*u),
        Key::Bool(b) => Value::Bool(*b),
        Key::String(s) => Value::String(to_string(s.as_str())),
    }
}

fn copy_bytes(b: &Vec<u8>) -> (r: Vec<u8>)
    ensures
        r@ == b@,
{
    let mut out: Vec<u8> = Vec::new();
    let mut k: usize = 0;
    while k < b.len()
        invariant
            k <= b@.len(),
            out@ == b@.take(k as int),
        decreases b@.len() - k,
    {
        out.push(b[k]);
        assert(b@.take(k + 1) =~= b@.take(k as int).push(b@[k as int]));
        k += 1;
    }
    assert(b@.take(b@.len() as int) =~= b@);
    out
}

/// Evaluates a call of `func` on `args`.
fn eval_call<I: Interrupt, D: DoubleOps, F: Function>(func: &str, has_target: bool, args: &Vec<IdedExpr>, env: &mut Vec<(String, Value)>, frame: &mut Frame<'_, I>, doubles: &D, funcs: &Vec<(String, F)>) -> (r: Result<Value, ExecutionError>)
    requires
        old(frame).wf(),
    ensures
        final(frame).wf(),
        final(env)@ == old(env)@,
        old(frame).abort_spec() != Abort::Running ==> final(frame).abort_spec() != Abort::Running,
        agrees(r, call_spec(func@, has_target, args@, env_of(old(env)@), fnames(funcs@)), *final(frame)),
    decreases args@, 2nat,
{
    if !has_target && args.len() == 3 && str_eq(func, "_?_:_") {
        assert(decreases_to!(args@ => args@[0]));
        assert(decreases_to!(args@ => args@[1]));
        assert(decreases_to!(args@ => args@[2]));
        let c = eval(&args[0], env, frame, doubles, funcs)?;
        let b = to_bool(&c)?;
        if b {
            eval(&args[1], env, frame, doubles, funcs)
        } else {
            eval(&args[2], env, frame, doubles, funcs)
        }
    } else if !has_target && args.len() == 2 && (str_eq(func, "_&&_") || str_eq(func, "_||_")) {
        assert(decreases_to!(args@ => args@[0]));
        assert(decreases_to!(args@ => args@[1]));
        let is_or = str_eq(func, "_||_");
        let l = eval(&args[0], env, frame, doubles, funcs)?;
        let b = to_bool(&l)?;
        if b == is_or {
            Ok(Value::Bool(b))
        } else {
            let r = eval(&args[1], env, frame, doubles, funcs)?;
            let b2 = to_bool(&r)?;
            Ok(Value::Bool(b2))
        }
    } else if !has_target && args.len() == 1 && str_eq(func, "!_") {
        assert(decreases_to!(args@ => args@[0]));
        let v = eval(&args[0], env, frame, doubles, funcs)?;
        let b = to_bool(&v)?;
        Ok(Value::Bool(!b))
    } else if !has_target && args.len() == 2 && is_binary_name(func) {
        assert(decreases_to!(args@ => args@[0]));
        assert(decreases_to!(args@ => args@[1]));
        let a = eval(&args[0], env, frame, doubles, funcs)?;
        let b = eval(&args[1], env, frame, doubles, funcs)?;
        binary(func, a, b, doubles)
    } else if !has_target && args.len() == 1 && (str_eq(func, "-_") || str_eq(func, "@not_strictly_false")) {
        assert(decreases_to!(args@ => args@[0]));
        let v = eval(&args[0], env, frame, doubles, funcs)?;
        unary(func, v, doubles)
    } else {
        call_function(func, None, args, env, frame, doubles, funcs)
    }
}

/// Calls the function `func` of the context, with the value of its target
/// and those of `args`; an undeclared reference where the context has no
/// function of that name.
fn call_function<I: Interrupt, D: DoubleOps, F: Function>(func: &str, target: Option<Value>, args: &Vec<IdedExpr>, env: &mut Vec<(String, Value)>, frame: &mut Frame<'_, I>, doubles: &D, funcs: &Vec<(String, F)>) -> (r: Result<Value, ExecutionError>)
    requires
        old(frame).wf(),
    ensures
        final(frame).wf(),
        final(env)@ == old(env)@,
        old(frame).abort_spec() != Abort::Running ==> final(frame).abort_spec() != Abort::Running,
        agrees(r, function_spec(func@, fnames(funcs@)), *final(frame)),
    decreases args@, 1nat,
{
    let mut k: usize = 0;
    while k < funcs.len()
        invariant
            k <= funcs@.len(),
            forall|j: int| 0 <= j < k ==> funcs@[j].0@ != func@,
            *frame == *old(frame),
            env@ == old(env)@,
            frame.wf(),
        decreases funcs@.len() - k,
    {
        if str_eq(funcs[k].0.as_str(), func) {
            assert(fnames(funcs@)[k as int] == func@);
            assert(fnames(funcs@).contains(func@));
            let vs = eval_args(args, env, frame, doubles, funcs)?;
            return funcs[k].1.call(target, vs);
        }
        k += 1;
    }
    proof {
        if fnames(funcs@).contains(func@) {
            let j = choose|j: int| 0 <= j < fnames(funcs@).len() && fnames(funcs@)[j] == func@;
            assert(funcs@[j].0@ == func@);
        }
    }
    Err(ExecutionError::undeclared_reference(func))
}

/// Whether `f` with `n` arguments is one of the operators of
/// [`is_operator`].
fn is_operator_name(f: &str, n: usize) -> (r: bool)
    ensures
        r == is_operator(f@, n as nat),
{
    (n == 3 && str_eq(f, "_?_:_")) || (n == 2 && (str_eq(f, "_&&_") || str_eq(f, "_||_") || is_binary_name(f)))
        || (n == 1 && (str_eq(f, "!_") || str_eq(f, "-_") || str_eq(f, "@not_strictly_false")))
        || str_eq(f, "_?._") || str_eq(f, "_[?_]")
}

/// Whether `f` is one of the operators of [`is_binary`].
fn is_binary_name(f: &str) -> (r: bool)
    ensures
        r == is_binary(f@),
{
    str_eq(f, "_+_") || str_eq(f, "_-_") || str_eq(f, "_*_") || str_eq(f, "_/_") || str_eq(f, "_%_")
        || str_eq(f, "_==_") || str_eq(f, "_!=_") || str_eq(f, "_<_") || str_eq(f, "_<=_") || str_eq(f, "_>_")
        || str_eq(f, "_>=_") || str_eq(f, "@in") || str_eq(f, "_[_]")
}

/// The variables and functions an expression is evaluated with.
pub struct Context<F: Function> {
    variables: Vec<(String, Value)>,
    functions: Vec<(String, F)>,
}

impl<F: Function> Context<F> {
    /// The bindings of the context, the latest of a name hiding the others.
    pub closed spec fn bindings(self) -> Env {
        env_of(self.variables@)
    }

    /// The names of the functions of the context.
    pub closed spec fn function_names(self) -> Seq<Seq<char>> {
        fnames(self.functions@)
    }

    /// A context without variables or functions.
    pub fn empty() -> (c: Self)
        ensures
            c.bindings() == Seq::<(Seq<char>, Val)>::empty(),
            c.function_names() == Seq::<Seq<char>>::empty(),
    {
        let c = Context { variables: Vec::new(), functions: Vec::new() };
        assert(c.bindings() =~= Seq::<(Seq<char>, Val)>::empty());
        assert(c.function_names() =~= Seq::<Seq<char>>::empty());
        c
    }

    /// Adds the function `f`, callable by `name`; the first function added
    /// under a name is the one called.
    pub fn add_function(&mut self, name: &str, f: F)
        ensures
            final(self).function_names() == old(self).function_names().push(name@),
            final(self).bindings() == old(self).bindings(),
    {
        self.functions.push((to_string(name), f));
        assert(self.function_names() =~= old(self).function_names().push(name@));
    }

    /// Binds `name` to `value`, hiding an earlier binding of the name.
    pub fn add_variable_from_value(&mut self, name: &str, value: Value)
        ensures
            final(self).bindings() == old(self).bindings().push((name@, val_of(value))),
            final(self).function_names() == old(self).function_names(),
    {
        self.variables.push((to_string(name), value));
        assert(self.bindings() =~= old(self).bindings().push((name@, val_of(value))));
    }

    /// The value bound to `name`, if any.
    pub fn get_variable(&self, name: &str) -> (r: Option<Value>)
        ensures
            match lookup(self.bindings(), name@) {
                Some(v) => r matches Some(x) && val_of(x) == v,
                None => r is None,
            },
    {
        lookup_value(&self.variables, name)
    }

    /// Evaluates `expr` with the variables of the context; see [`eval`].
    pub fn resolve<I: Interrupt, D: DoubleOps>(&self, expr: &IdedExpr, frame: &mut Frame<'_, I>, doubles: &D) -> (r: Result<Value, ExecutionError>)
        requires
            old(frame).wf(),
        ensures
            final(frame).wf(),
            agrees(r, eval_spec(*expr, self.bindings(), self.function_names()), *final(frame)),
    {
        let mut env: Vec<(String, Value)> = Vec::new();
        let mut k: usize = 0;
        while k < self.variables.len()
            invariant
                k <= self.variables@.len(),
                env@.len() == k,
                env_of(env@) == env_of(self.variables@.take(k as int)),
            decreases self.variables@.len() - k,
        {
            let ghost before = env@;
            let name = to_string(self.variables[k].0.as_str());
            let value = copy_value(&self.variables[k].1);
            env.push((name, value));
            assert forall|j: int| 0 <= j < k + 1 implies #[trigger] env_of(env@)[j] == env_of(self.variables@.take(k + 1))[j] by {
                if j < k {
                    assert(env@[j] == before[j]);
                    assert(env_of(before)[j] == env_of(self.variables@.take(k as int))[j]);
                }
            }
            assert(env_of(env@) =~= env_of(self.variables@.take(k + 1)));
            k += 1;
        }
        assert(self.variables@.take(self.variables@.len() as int) =~= self.variables@);
        let r = eval(expr, &mut env, frame, doubles, &self.functions);
        r
    }
}

/// A variable reads back as the value it was last bound to.
pub proof fn law_read_after_bind(env: Env, name: Seq<char>, v: Val)
    ensures
        lookup(env.push((name, v)), name) == Some(v),
{
    assert(env.push((name, v)).drop_last() =~= env);
}

/// Binding a name leaves every other name as it was.
pub proof fn law_bind_keeps_others(env: Env, name: Seq<char>, v: Val, other: Seq<char>)
    requires
        other != name,
    ensures
        lookup(env.push((name, v)), other) == lookup(env, other),
{
    assert(env.push((name, v)).drop_last() =~= env);
}

/// `&&` and `||` short-circuit: once the left operand is false for `&&`,
/// or true for `||`, that is the result, whatever the right operand is.
pub proof fn law_short_circuit(func: Seq<char>, a: IdedExpr, b: IdedExpr, env: Env, fs: Seq<Seq<char>>)
    requires
        func == "_&&_"@ && eval_spec(a, env, fs) == Some(Ok::<Val, EvalErr>(Val::Bool(false)))
            || func == "_||_"@ && eval_spec(a, env, fs) == Some(Ok::<Val, EvalErr>(Val::Bool(true))),
    ensures
        call_spec(func, false, seq![a, b], env, fs) == eval_spec(a, env, fs),
{
    let args = seq![a, b];
    assert(args[0] == a);
    assert(args.len() == 2);
    reveal_strlit("_&&_");
    reveal_strlit("_||_");
    assert("_&&_"@[1] == '&' && "_||_"@[1] == '|');
    assert("_&&_"@ != "_||_"@);
}

/// Texts compare as equal exactly when they are the same text.
pub proof fn lemma_text_order_zero(x: Seq<char>, y: Seq<char>)
    ensures
        (text_order(x, y) == 0) == (x == y),
    decreases x.len(),
{
    if x.len() > 0 && y.len() > 0 {
        lemma_text_order_zero(x.drop_first(), y.drop_first());
        if (x[0] as u32) == (y[0] as u32) {
            vstd::utf8::char_u32_cast(x[0], x[0] as u32);
            vstd::utf8::char_u32_cast(y[0], y[0] as u32);
            assert(x[0] == y[0]);
            if x.drop_first() == y.drop_first() {
                assert(x =~= seq![x[0]] + x.drop_first());
                assert(y =~= seq![y[0]] + y.drop_first());
            }
        }
        if x == y {
            assert(x.drop_first() == y.drop_first());
        }
    } else if x.len() == 0 && y.len() == 0 {
        assert(x =~= y);
    } else {
        assert(x.len() != y.len());
    }
}

/// For comparable values, the order says equal exactly when `==` does.
pub proof fn lemma_order_zero_is_equal(a: Val, b: Val)
    requires
        order_spec(a, b) matches Some(Some(_)),
    ensures
        (order_spec(a, b) == Some(Some(0i8))) == (val_eq(a, b) == Some(true)),
{
    if let (Val::Str(x), Val::Str(y)) = (a, b) {
        lemma_text_order_zero(x, y);
    }
}

proof fn lemma_comparison_names()
    ensures
        "_<_"@ != "_==_"@, "_<_"@ != "_!=_"@,
        "_<=_"@ != "_==_"@, "_<=_"@ != "_!=_"@, "_<=_"@ != "_<_"@,
        "_>_"@ != "_==_"@, "_>_"@ != "_!=_"@, "_>_"@ != "_<_"@, "_>_"@ != "_<=_"@,
        "_>=_"@ != "_==_"@, "_>=_"@ != "_!=_"@, "_>=_"@ != "_<_"@, "_>=_"@ != "_<=_"@, "_>=_"@ != "_>_"@,
        "_==_"@ != "_!=_"@,
{
    reveal_strlit("_<_");
    reveal_strlit("_<=_");
    reveal_strlit("_>_");
    reveal_strlit("_>=_");
    reveal_strlit("_==_");
    reveal_strlit("_!=_");
    assert("_<_"@.len() == 3 && "_>_"@.len() == 3);
    assert("_<=_"@[1] == '<' && "_==_"@[1] == '=' && "_!=_"@[1] == '!' && "_>=_"@[1] == '>');
    assert("_<_"@[1] == '<' && "_>_"@[1] == '>');
}

/// `a <= b` holds exactly when `a < b` or `a == b`, and `a >= b` exactly
/// when `a > b` or `a == b`, for all values that compare (doubles aside).
pub proof fn law_le_is_lt_or_eq(a: Val, b: Val)
    requires
        order_spec(a, b) matches Some(Some(_)),
    ensures
        binary_spec("_<=_"@, a, b) == Some(Ok::<Val, EvalErr>(Val::Bool(
            binary_spec("_<_"@, a, b) == Some(Ok::<Val, EvalErr>(Val::Bool(true)))
                || binary_spec("_==_"@, a, b) == Some(Ok::<Val, EvalErr>(Val::Bool(true))),
        ))),
        binary_spec("_>=_"@, a, b) == Some(Ok::<Val, EvalErr>(Val::Bool(
            binary_spec("_>_"@, a, b) == Some(Ok::<Val, EvalErr>(Val::Bool(true)))
                || binary_spec("_==_"@, a, b) == Some(Ok::<Val, EvalErr>(Val::Bool(true))),
        ))),
{
    lemma_comparison_names();
    lemma_order_zero_is_equal(a, b);
}

/// Every int, uint, bool, string and null is `<=` and `>=` itself, and
/// not `<` or `>` itself.
pub proof fn law_comparison_reflexive(a: Val)
    requires
        a is Int || a is UInt || a is Bool || a is Str || a is Null,
    ensures
        binary_spec("_<=_"@, a, a) == Some(Ok::<Val, EvalErr>(Val::Bool(true))),
        binary_spec("_>=_"@, a, a) == Some(Ok::<Val, EvalErr>(Val::Bool(true))),
        binary_spec("_<_"@, a, a) == Some(Ok::<Val, EvalErr>(Val::Bool(false))),
        binary_spec("_>_"@, a, a) == Some(Ok::<Val, EvalErr>(Val::Bool(false))),
{
    lemma_comparison_names();
    if let Val::Str(x) = a {
        lemma_text_order_zero(x, x);
    }
}

} // verus!
