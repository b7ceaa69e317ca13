use cel::eval::{Context, DoubleOps, Function, Value};
use cel::objects::Key;
use cel::runtime::{Frame, Interrupt, RuntimeOptions};
use cel::{ExecutionError, Operand, Program};

struct Never;

impl Interrupt for Never {
    fn is_interrupted(&self) -> bool {
        false
    }
}

struct Always;

impl Interrupt for Always {
    fn is_interrupted(&self) -> bool {
        true
    }
}

/// Doubles computed with `f64`.
struct Floats;

impl DoubleOps for Floats {
    fn literal(&self, text: &str) -> Result<Value, ExecutionError> {
        text.parse::<f64>()
            .map(|f| Value::Double(f.to_bits()))
            .map_err(|_| ExecutionError::InternalError(text.to_string()))
    }

    fn apply(&self, func: &str, args: &[Value]) -> Result<Value, ExecutionError> {
        let num = |v: &Value| match v {
            Value::Double(b) => Some(f64::from_bits(*b)),
            Value::Int(i) => Some(*i as f64),
            Value::UInt(u) => Some(*u as f64),
            _ => None,
        };
        let d = |f: f64| Ok(Value::Double(f.to_bits()));
        match (func, args) {
            ("-_", [a]) => d(-num(a).unwrap()),
            (_, [a, b]) => {
                let (x, y) = (num(a).unwrap(), num(b).unwrap());
                match func {
                    "_+_" => d(x + y),
                    "_-_" => d(x - y),
                    "_*_" => d(x * y),
                    "_/_" => d(x / y),
                    "_==_" => Ok(Value::Bool(x == y)),
                    "_<_" => Ok(Value::Bool(x < y)),
                    "_<=_" => Ok(Value::Bool(x <= y)),
                    "_>_" => Ok(Value::Bool(x > y)),
                    "_>=_" => Ok(Value::Bool(x >= y)),
                    _ => Err(ExecutionError::InternalError(func.to_string())),
                }
            },
            _ => Err(ExecutionError::InternalError(func.to_string())),
        }
    }
}

/// Functions a test adds to a context.
enum Fns {
    Add,
    Twice,
}

impl Function for Fns {
    fn call(&self, target: Option<Value>, args: Vec<Value>) -> Result<Value, ExecutionError> {
        match (self, target, args.as_slice()) {
            (Fns::Add, None, [Value::Int(a), Value::Int(b)]) => Ok(Value::Int(a + b)),
            (Fns::Twice, Some(Value::Int(a)), []) => Ok(Value::Int(2 * a)),
            _ => Err(ExecutionError::InternalError("bad call".to_string())),
        }
    }
}

fn run_with(source: &str, context: &Context<Fns>, options: &RuntimeOptions) -> Result<Value, ExecutionError> {
    let program = Program::compile(source).unwrap();
    let mut frame: Frame<Never> = Frame::new(options, None);
    program.execute(context, &mut frame, &Floats)
}

fn run(source: &str) -> Result<Value, ExecutionError> {
    run_with(source, &Context::<Fns>::empty(), &RuntimeOptions::default())
}

fn s(t: &str) -> Value {
    Value::String(t.to_string())
}

#[test]
fn arithmetic_follows_precedence() {
    assert_eq!(run("1 + 2 * 3"), Ok(Value::Int(7)));
    assert_eq!(run("(1 + 2) * 3"), Ok(Value::Int(9)));
    assert_eq!(run("7 / 2"), Ok(Value::Int(3)));
    assert_eq!(run("-7 % 3"), Ok(Value::Int(-1)));
    assert_eq!(run("7u - 2u"), Ok(Value::UInt(5)));
    assert_eq!(run("'ab' + 'cd'"), Ok(s("abcd")));
    assert_eq!(run("[1] + [2]"), Ok(Value::List(vec![Value::Int(1), Value::Int(2)])));
}

#[test]
fn arithmetic_errors() {
    assert_eq!(run("1 / 0"), Err(ExecutionError::DivisionByZero(Operand::Int(1))));
    assert_eq!(run("1 % 0"), Err(ExecutionError::RemainderByZero(Operand::Int(1))));
    assert_eq!(
        run("9223372036854775807 + 1"),
        Err(ExecutionError::Overflow("add", Operand::Int(i64::MAX), Operand::Int(1)))
    );
    assert_eq!(run("1u - 2u"), Err(ExecutionError::Overflow("sub", Operand::UInt(1), Operand::UInt(2))));
    assert!(matches!(run("1 + 'a'"), Err(ExecutionError::NoSuchOverload(_))));
}

#[test]
fn logic_short_circuits() {
    assert_eq!(run("false && (1 / 0 == 1)"), Ok(Value::Bool(false)));
    assert_eq!(run("true || (1 / 0 == 1)"), Ok(Value::Bool(true)));
    assert_eq!(run("true && false"), Ok(Value::Bool(false)));
    assert_eq!(run("!true"), Ok(Value::Bool(false)));
    assert_eq!(run("1 > 2 ? 'a' : 'b'"), Ok(s("b")));
    assert!(matches!(run("1 && true"), Err(ExecutionError::NoSuchOverload(_))));
}

#[test]
fn equality_and_comparison() {
    assert_eq!(run("1 == 1u"), Ok(Value::Bool(true)));
    assert_eq!(run("[1, 'a'] == [1, 'a']"), Ok(Value::Bool(true)));
    assert_eq!(run("{'a': 1, 'b': 2} == {'b': 2, 'a': 1}"), Ok(Value::Bool(true)));
    assert_eq!(run("{'a': 1} != {'a': 2}"), Ok(Value::Bool(true)));
    assert_eq!(run("'abc' < 'abd'"), Ok(Value::Bool(true)));
    assert_eq!(run("-1 < 0u"), Ok(Value::Bool(true)));
    assert_eq!(run("false < true"), Ok(Value::Bool(true)));
    assert!(matches!(run("'a' < 1"), Err(ExecutionError::NoSuchOverload(_))));
}

#[test]
fn membership_indexing_and_selection() {
    assert_eq!(run("2 in [1, 2]"), Ok(Value::Bool(true)));
    assert_eq!(run("'b' in {'b': 1}"), Ok(Value::Bool(true)));
    assert_eq!(run("'ell' in 'hello'"), Ok(Value::Bool(true)));
    assert_eq!(run("[1, 2][1]"), Ok(Value::Int(2)));
    assert_eq!(run("[1, 2][5]"), Err(ExecutionError::IndexOutOfBounds(Operand::Int(5))));
    assert_eq!(run("{'a': 1}['a']"), Ok(Value::Int(1)));
    assert_eq!(run("{'a': 1}['z']"), Err(ExecutionError::NoSuchKey("z".to_string())));
    assert_eq!(run("{1: 'x'}[2]"), Err(ExecutionError::NoSuchKey("2".to_string())));
    assert_eq!(run("{'a': {'b': 3}}.a.b"), Ok(Value::Int(3)));
    assert_eq!(run("has({'a': 1}.a)"), Ok(Value::Bool(true)));
    assert_eq!(run("has({'a': 1}.b)"), Ok(Value::Bool(false)));
}

#[test]
fn map_literal_keeps_the_last_entry_of_a_key() {
    assert_eq!(
        run("{'a': 1, 'b': 2, 'a': 3}"),
        Ok(Value::Mapping(vec![(Key::String("a".to_string()), Value::Int(3)), (Key::String("b".to_string()), Value::Int(2))]))
    );
}

#[test]
fn variables_come_from_the_context() {
    let mut context: Context<Fns> = Context::empty();
    context.add_variable_from_value("x", Value::Int(3));
    context.add_variable_from_value("y", s("a"));
    context.add_variable_from_value("x", Value::Int(4));
    assert_eq!(context.get_variable("x"), Some(Value::Int(4)));
    assert_eq!(context.get_variable("z"), None);
    let options = RuntimeOptions::default();
    assert_eq!(run_with("x > 2 && y == 'a'", &context, &options), Ok(Value::Bool(true)));
    assert_eq!(run("z"), Err(ExecutionError::UndeclaredReference("z".to_string())));
    assert_eq!(run("size([1])"), Err(ExecutionError::UndeclaredReference("size".to_string())));
}

#[test]
fn comprehensions_run_the_macros() {
    assert_eq!(
        run("[1, 2, 3].map(x, x * 2)"),
        Ok(Value::List(vec![Value::Int(2), Value::Int(4), Value::Int(6)]))
    );
    assert_eq!(run("[1, 2, 3].filter(x, x > 1)"), Ok(Value::List(vec![Value::Int(2), Value::Int(3)])));
    assert_eq!(run("[1, 2, 3].all(x, x > 0)"), Ok(Value::Bool(true)));
    assert_eq!(run("[1, 2, 3].exists(x, x > 2)"), Ok(Value::Bool(true)));
    assert_eq!(run("[1, 2, 3].exists_one(x, x > 1)"), Ok(Value::Bool(false)));
    assert_eq!(run("{'a': 1, 'b': 2}.all(k, k != 'c')"), Ok(Value::Bool(true)));
}

#[test]
fn comprehensions_charge_the_iteration_budget() {
    let options = RuntimeOptions::default().with_max_iterations(2);
    let context: Context<Fns> = Context::empty();
    assert_eq!(
        run_with("[1, 2, 3].map(x, x)", &context, &options),
        Err(ExecutionError::IterationBudgetExceeded { limit: 2 })
    );
    assert_eq!(run_with("[1, 2].map(x, x)", &context, &options), Ok(Value::List(vec![Value::Int(1), Value::Int(2)])));
}

#[test]
fn comprehensions_poll_the_interrupt() {
    let program = Program::compile("[1, 2, 3].map(x, x)").unwrap();
    let options = RuntimeOptions::default();
    let mut frame = Frame::new(&options, Some(&Always));
    assert_eq!(program.execute(&Context::<Fns>::empty(), &mut frame, &Floats), Err(ExecutionError::Interrupted));
    let program = Program::compile("1 + 1").unwrap();
    let mut frame = Frame::new(&options, Some(&Always));
    assert_eq!(program.execute(&Context::<Fns>::empty(), &mut frame, &Floats), Ok(Value::Int(2)));
}

#[test]
fn doubles_go_to_the_embedder() {
    assert_eq!(run("1.5 + 2.5"), Ok(Value::Double(4.0f64.to_bits())));
    assert_eq!(run("1.5 < 2"), Ok(Value::Bool(true)));
    assert_eq!(run("2.0 == 2"), Ok(Value::Bool(true)));
    assert_eq!(run("-(2.5)"), Ok(Value::Double((-2.5f64).to_bits())));
}

#[test]
fn functions_come_from_the_context() {
    let mut context: Context<Fns> = Context::empty();
    context.add_function("add", Fns::Add);
    context.add_function("twice", Fns::Twice);
    let options = RuntimeOptions::default();
    assert_eq!(run_with("add(1, 2) * 2", &context, &options), Ok(Value::Int(6)));
    assert_eq!(run_with("(3).twice()", &context, &options), Ok(Value::Int(6)));
    assert_eq!(run_with("other(1)", &context, &options), Err(ExecutionError::UndeclaredReference("other".to_string())));
    assert_eq!(run_with("z.twice()", &context, &options), Err(ExecutionError::UndeclaredReference("z".to_string())));
}

#[test]
fn text_membership_is_substring_search() {
    assert_eq!(run("'xyz' in 'hello'"), Ok(Value::Bool(false)));
    assert_eq!(run("'' in 'a'"), Ok(Value::Bool(true)));
    assert_eq!(run("'lo' in 'hello'"), Ok(Value::Bool(true)));
    assert!(matches!(run("1 in 'a'"), Err(ExecutionError::NoSuchOverload(_))));
}

#[test]
fn reading_a_variable_gives_its_latest_binding() {
    let mut context: Context<Fns> = Context::empty();
    context.add_variable_from_value("a", Value::Int(1));
    context.add_variable_from_value("b", Value::Int(2));
    context.add_variable_from_value("a", Value::Int(3));
    let options = RuntimeOptions::default();
    assert_eq!(run_with("a", &context, &options), Ok(Value::Int(3)));
    assert_eq!(run_with("b", &context, &options), Ok(Value::Int(2)));
}
