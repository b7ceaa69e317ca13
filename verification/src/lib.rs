//! A parser and interpreter for the Common Expression Language (CEL); the
//! arithmetic of doubles is left to the embedder.

use vstd::prelude::*;
use crate::common::ast::{complete, ident_fields, plain, IdedExpr};
use crate::parser::errors::{sorted_by_pos, ParseErrors};
use crate::parser::lexer::{lex_steps, step_errors};
use crate::parser::references::{expr_funcs, expr_vars, ExpressionReferences};
use crate::parser::winnow_parser::{ids_unique_tree, lex_errors_reported, limit_errors, limit_messages, parsable, stopped_by_limit, WinnowParser};
use crate::text::decimal;
use crate::text::{push_char, push_str, to_string, views};
use crate::eval::{agrees, eval_spec, Context, DoubleOps, Function, Value};
use crate::runtime::{Frame, Interrupt};

pub mod budget;
pub mod checker;
pub mod env;
pub mod eval;
pub mod common;
pub mod macros;
pub mod magic;
pub mod objects;
pub mod parser;
pub mod registry;
pub mod runtime;
pub mod text;
pub mod utf8;

verus! {

/// Details about an operator or function call for which no overload matched.
#[derive(Clone, Debug, PartialEq)]
pub struct OverloadError {
    function: Option<String>,
    argument_types: Vec<String>,
    member_function: bool,
}

/// `parts` joined with `sep` between them.
pub open spec fn join(parts: Seq<Seq<char>>, sep: Seq<char>) -> Seq<char>
    decreases parts.len(),
{
    if parts.len() == 0 {
        seq![]
    } else if parts.len() == 1 {
        parts[0]
    } else {
        join(parts.drop_last(), sep) + sep + parts.last()
    }
}

/// The signature of a call for which no overload matched: `(a, b)`, or
/// `t.(a, b)` for a member call on a value of type `t`.
pub open spec fn signature_text(types: Seq<Seq<char>>, member: bool) -> Seq<char> {
    if member && types.len() > 0 {
        types[0] + ".("@ + join(types.drop_first(), ", "@) + ")"@
    } else {
        "("@ + join(types, ", "@) + ")"@
    }
}

/// The message of an overload error.
pub open spec fn overload_text(function: Option<Seq<char>>, types: Seq<Seq<char>>, member: bool) -> Seq<char> {
    match function {
        None => "No such overload"@,
        Some(f) => "found no matching overload for '"@ + f + "' applied to '"@ + signature_text(types, member) + "'"@,
    }
}

/// Appends `parts[from..]` joined with `", "`.
fn push_joined(s: &mut String, parts: &[String], from: usize)
    requires
        from <= parts@.len(),
    ensures
        final(s)@ == old(s)@ + join(views(parts@.subrange(from as int, parts@.len() as int)), ", "@),
{
    let mut k = from;
    assert(views(parts@.subrange(from as int, from as int)) =~= Seq::<Seq<char>>::empty());
    while k < parts.len()
        invariant
            from <= k <= parts@.len(),
            s@ == old(s)@ + join(views(parts@.subrange(from as int, k as int)), ", "@),
        decreases parts@.len() - k,
    {
        let ghost before = s@;
        if k > from {
            push_str(s, ", ");
        }
        push_str(s, parts[k].as_str());
        proof {
            let v = views(parts@.subrange(from as int, k + 1));
            assert(v.drop_last() =~= views(parts@.subrange(from as int, k as int)));
            assert(v.last() == parts@[k as int]@);
            if k == from {
                assert(v.len() == 1);
                assert(s@ =~= old(s)@ + join(v, ", "@));
            } else {
                assert(s@ =~= old(s)@ + join(v, ", "@));
            }
        }
        k += 1;
    }
}

impl OverloadError {
    /// The name of the function or operator, when known.
    pub closed spec fn function_name(self) -> Option<Seq<char>> {
        match self.function {
            Some(f) => Some(f@),
            None => None,
        }
    }

    /// The types of the arguments, the receiver's first for a member call.
    pub closed spec fn type_names(self) -> Seq<Seq<char>> {
        views(self.argument_types@)
    }

    /// Whether the call was a member call.
    pub closed spec fn member(self) -> bool {
        self.member_function
    }

    pub(crate) fn new(function: &str, argument_types: Vec<String>, member_function: bool) -> (e: Self)
        ensures
            e.function_name() == Some(function@),
            e.type_names() == views(argument_types@),
            e.member() == member_function,
    {
        OverloadError { function: Some(to_string(function)), argument_types, member_function }
    }

    /// Returns the operator or function name, when it is known.
    pub fn function(&self) -> (r: Option<&str>)
        ensures
            match r {
                Some(f) => self.function_name() == Some(f@),
                None => self.function_name() is None,
            },
    {
        match &self.function {
            Some(f) => Some(f.as_str()),
            None => None,
        }
    }

    /// Returns the runtime types of the arguments supplied to the call; for a
    /// member function, the first type is the receiver type.
    pub fn argument_types(&self) -> (r: &[String])
        ensures
            views(r@) == self.type_names(),
    {
        self.argument_types.as_slice()
    }

    /// Returns whether the overload was invoked using member-call syntax.
    pub fn is_member_function(&self) -> (r: bool)
        ensures
            r == self.member(),
    {
        self.member_function
    }

    /// The message of the error:
    /// `found no matching overload for 'f' applied to '(a, b)'`.
    pub fn message(&self) -> (s: String)
        ensures
            s@ == overload_text(self.function_name(), self.type_names(), self.member()),
    {
        let function = match &self.function {
            Some(f) => f,
            None => return to_string("No such overload"),
        };
        let types = self.argument_types.as_slice();
        let mut s = to_string("found no matching overload for '");
        push_str(&mut s, function.as_str());
        push_str(&mut s, "' applied to '");
        let ghost mid = s@;
        if self.member_function && types.len() > 0 {
            push_str(&mut s, types[0].as_str());
            push_str(&mut s, ".(");
            push_joined(&mut s, types, 1);
            push_str(&mut s, ")");
            proof {
                assert(views(types@.subrange(1, types@.len() as int)) =~= views(types@).drop_first());
                assert(s@ =~= mid + signature_text(views(types@), true));
            }
        } else {
            push_str(&mut s, "(");
            push_joined(&mut s, types, 0);
            push_str(&mut s, ")");
            proof {
                assert(types@.subrange(0, types@.len() as int) =~= types@);
                assert(s@ =~= mid + signature_text(views(types@), self.member_function));
            }
        }
        push_str(&mut s, "'");
        s
    }
}

impl Default for OverloadError {
    /// An error that knows neither the function nor the arguments.
    fn default() -> (e: Self)
        ensures
            e.function_name() is None,
            e.type_names() == Seq::<Seq<char>>::empty(),
            !e.member(),
    {
        let e = OverloadError { function: None, argument_types: Vec::new(), member_function: false };
        assert(views(e.argument_types@) =~= Seq::<Seq<char>>::empty());
        e
    }
}

/// An integer operand of an arithmetic operator, as its error shows it.
#[derive(Clone, Copy, Debug, PartialEq, Eq, Structural)]
pub enum Operand {
    Int(i64),
    UInt(u64),
}

/// The errors that the runtime pieces of this library report.
#[derive(Clone, Debug, PartialEq)]
pub enum ExecutionError {
    InvalidArgumentCount { expected: usize, actual: usize },
    /// A value had another type than the one wanted.
    UnexpectedType { got: String, want: String },
    /// No overload of an operator or function matched the arguments.
    NoSuchOverload(OverloadError),
    /// A key was missing from the value it was looked up in.
    NoSuchKey(String),
    /// A variable, method or function was referred to but not declared.
    UndeclaredReference(String),
    /// A function expected to be called as a method, or with an argument.
    MissingArgumentOrTarget,
    /// A function failed.
    FunctionError { function: String, message: String },
    /// The deadline of an [`budget::ExecutionBudget`] passed.
    DeadlineExceeded,
    /// The interrupt handle asked evaluation to stop.
    Interrupted,
    /// Evaluation ran more comprehension iterations than allowed.
    IterationBudgetExceeded { limit: u64 },
    /// A division by zero of the operand.
    DivisionByZero(Operand),
    /// A remainder by zero of the operand.
    RemainderByZero(Operand),
    /// An index outside the list it was applied to.
    IndexOutOfBounds(Operand),
    /// The result of the operator (`add`, `sub`, `mul`, `div`, `rem`) on
    /// the two operands does not fit in their type.
    Overflow(&'static str, Operand, Operand),
    /// An invariant of the interpreter did not hold.
    InternalError(String),
}

impl ExecutionError {
    /// An error for a global function or operator with no matching overload.
    pub fn no_such_overload(function: &str, argument_types: Vec<String>) -> (e: Self)
        ensures
            e matches ExecutionError::NoSuchOverload(o) && o.function_name() == Some(function@)
                && o.type_names() == views(argument_types@) && !o.member(),
    {
        ExecutionError::NoSuchOverload(OverloadError::new(function, argument_types, false))
    }

    /// An error for a member function with no matching overload; the
    /// receiver type is the first of `argument_types`.
    pub fn no_such_member_overload(function: &str, argument_types: Vec<String>) -> (e: Self)
        ensures
            e matches ExecutionError::NoSuchOverload(o) && o.function_name() == Some(function@)
                && o.type_names() == views(argument_types@) && o.member(),
    {
        ExecutionError::NoSuchOverload(OverloadError::new(function, argument_types, true))
    }

    pub fn no_such_key(name: &str) -> (e: Self)
        ensures
            e matches ExecutionError::NoSuchKey(k) && k@ == name@,
    {
        ExecutionError::NoSuchKey(to_string(name))
    }

    pub fn undeclared_reference(name: &str) -> (e: Self)
        ensures
            e matches ExecutionError::UndeclaredReference(k) && k@ == name@,
    {
        ExecutionError::UndeclaredReference(to_string(name))
    }

    pub fn invalid_argument_count(expected: usize, actual: usize) -> (e: Self)
        ensures
            e == (ExecutionError::InvalidArgumentCount { expected, actual }),
    {
        ExecutionError::InvalidArgumentCount { expected, actual }
    }

    pub fn function_error(function: &str, message: &str) -> (e: Self)
        ensures
            e matches ExecutionError::FunctionError { function: f, message: m } && f@ == function@ && m@ == message@,
    {
        ExecutionError::FunctionError { function: to_string(function), message: to_string(message) }
    }

    pub fn missing_argument_or_target() -> (e: Self)
        ensures
            e is MissingArgumentOrTarget,
    {
        ExecutionError::MissingArgumentOrTarget
    }
}

/// Why a declaration was refused.
#[derive(Clone, Debug, PartialEq)]
pub enum DeclarationError {
    /// An overload of the function already has the id, or the signature.
    DuplicateOverload { function: String, id: String },
    /// Another type is registered under the name.
    TypeConflict(String),
    /// The name is not an identifier, or several separated by dots.
    InvalidTypeName(String),
    /// The name is already taken by an overload.
    OverloadConflict(String),
}

impl DeclarationError {
    pub fn duplicate_overload(function: &str, id: &str) -> (e: Self)
        ensures
            e matches DeclarationError::DuplicateOverload { function: f, id: i } && f@ == function@ && i@ == id@,
    {
        DeclarationError::DuplicateOverload { function: to_string(function), id: to_string(id) }
    }

    pub fn type_conflict(name: &str) -> (e: Self)
        ensures
            e matches DeclarationError::TypeConflict(n) && n@ == name@,
    {
        DeclarationError::TypeConflict(to_string(name))
    }

    pub fn invalid_type_name(name: &str) -> (e: Self)
        ensures
            e matches DeclarationError::InvalidTypeName(n) && n@ == name@,
    {
        DeclarationError::InvalidTypeName(to_string(name))
    }

    pub fn overload_conflict(name: &str) -> (e: Self)
        ensures
            e matches DeclarationError::OverloadConflict(n) && n@ == name@,
    {
        DeclarationError::OverloadConflict(to_string(name))
    }
}

/// A compiled CEL program: its expression.
#[derive(Debug)]
pub struct Program {
    expression: IdedExpr,
}

impl Program {
    /// The expression of the program.
    pub closed spec fn expr(self) -> IdedExpr {
        self.expression
    }

    /// Parses `source` with the default parser.
    pub fn compile(source: &str) -> (r: Result<Program, ParseErrors>)
        requires
            parsable(source@),
        ensures
            r matches Ok(p) ==> ids_unique_tree(p.expr()),
            r matches Err(errs) ==> errs.errors@.len() > 0 && sorted_by_pos(errs.errors@),
            step_errors(lex_steps(source@, 0)).len() > 0 ==> r is Err,
            r matches Err(errs) ==> stopped_by_limit(errs.errors@)
                || lex_errors_reported(source@, step_errors(lex_steps(source@, 0)), errs.errors@),
            r matches Err(errs) ==> limit_errors(errs.errors@) <= 1,
            r matches Err(errs) ==> forall|i: int| 0 <= i < errs.errors@.len() && (#[trigger] errs.errors@[i]).pos == (0isize, 0isize)
                ==> errs.errors@[i].msg@ == "expression recursion limit exceeded: 96"@
                || errs.errors@[i].msg@ == "error recovery attempt limit exceeded: 30"@,
            r matches Ok(p) ==> plain(p.expr()),
            r matches Ok(p) ==> complete(p.expr()),
            r matches Ok(p) ==> ident_fields(p.expr()),
    {
        let parser = WinnowParser::new();
        match parser.parse(source) {
            Ok(expression) => Ok(Program { expression }),
            Err(e) => {
                proof {
                    reveal(limit_messages);
                    reveal_strlit("expression recursion limit exceeded: 96");
                    reveal_strlit("expression recursion limit exceeded: ");
                    reveal_strlit("error recovery attempt limit exceeded: 30");
                    reveal_strlit("error recovery attempt limit exceeded: ");
                    assert(decimal(96) =~= seq!['9', '6']) by {
                        reveal_with_fuel(decimal, 3);
                    }
                    assert(decimal(30) =~= seq!['3', '0']) by {
                        reveal_with_fuel(decimal, 3);
                    }
                }
                Err(e)
            },
        }
    }

    /// The variables and functions the program refers to.
    pub fn references(&self) -> (r: ExpressionReferences)
        ensures
            r.variable_set() == expr_vars(self.expr()),
            r.function_set() == expr_funcs(self.expr()),
            r.variable_names().no_duplicates(),
            r.function_names().no_duplicates(),
    {
        self.expression.references()
    }

    /// Evaluates the program with the variables of `context`, counting
    /// comprehension iterations in `frame`; doubles go to `doubles`. Where
    /// [`eval_spec`] states the outcome, the result agrees with it, unless
    /// `frame` stopped the evaluation.
    pub fn execute<I: Interrupt, D: DoubleOps, F: Function>(&self, context: &Context<F>, frame: &mut Frame<'_, I>, doubles: &D) -> (r: Result<Value, ExecutionError>)
        requires
            old(frame).wf(),
        ensures
            final(frame).wf(),
            agrees(r, eval_spec(self.expr(), context.bindings(), context.function_names()), *final(frame)),
    {
        context.resolve(&self.expression, frame, doubles)
    }

    /// The expression of the program.
    pub fn expression(&self) -> (e: &IdedExpr)
        ensures
            *e == self.expr(),
    {
        &self.expression
    }
}

} // verus!
