use quasar::ast::{Block, Expression, Program, Statement};
use quasar::dispatcher::{complete_call, dispatch_calls, find_dispatchable_calls, is_finished};
use quasar::error::QuasarError;
use quasar::external::get_external_function;
use quasar::rewriter::rewrite_to_fixpoint;
use quasar::state::ExecutionState;
use quasar::value::{ConformValue, PrimitiveValue, Value};

fn st(variable: &str, expression: Expression) -> Statement {
    Statement { variable: variable.to_string(), expression }
}

fn integer(i: i64) -> Value {
    Value::Primitive(PrimitiveValue::Integer(i))
}

fn text(s: &str) -> Value {
    Value::Primitive(PrimitiveValue::String(s.to_string()))
}

fn boolean(b: bool) -> Value {
    Value::Primitive(PrimitiveValue::Boolean(b))
}

fn names(ns: &[&str]) -> Vec<String> {
    ns.iter().map(|n| n.to_string()).collect()
}

fn program(statements: Vec<Statement>, return_var: &str) -> Program {
    Program { statements, return_var: return_var.to_string() }
}

fn returns_literal(var: &str, v: Value) -> Block {
    Block { parameter: "_".to_string(), body: vec![st(var, Expression::Primitive(v))], return_var: var.to_string() }
}

/// Whether `c` holds exactly the values of `expected`.
fn holds_exactly(c: &ConformValue, expected: &[Value]) -> bool {
    c.possibilities.len() == expected.len() && expected.iter().all(|v| c.contains(v))
}

struct Run {
    state: ExecutionState,
    dispatched: Vec<String>,
}

/// Drives the library as the executor does, answering each dispatched call
/// at once from the registry.
fn run(p: Program, approve: bool, rounds: usize) -> Result<Run, QuasarError> {
    let mut state = ExecutionState::new(p);
    let mut dispatched = Vec::new();
    for _ in 0..rounds {
        let calls = find_dispatchable_calls(&state);
        if !calls.is_empty() {
            let approved = vec![approve; calls.len()];
            let ids = dispatch_calls(&mut state, &calls, &approved);
            for (call, id) in calls.iter().zip(ids) {
                if let Some(id) = id {
                    let f = get_external_function(&call.function).ok_or_else(|| {
                        QuasarError::ExternalFunctionError(format!("Unknown function: {}", call.function))
                    })?;
                    let result = f.call(&call.argument);
                    dispatched.push(id.clone());
                    complete_call(&mut state, &id, result);
                }
            }
        }
        assert!(rewrite_to_fixpoint(&mut state, 10_000)?);
        if is_finished(&state) {
            break;
        }
    }
    Ok(Run { state, dispatched })
}

#[test]
fn pure_arithmetic_without_calls() {
    let p = program(
        vec![
            st("a", Expression::Primitive(integer(3))),
            st("b", Expression::Primitive(integer(4))),
            st("p", Expression::Tuple(names(&["a", "b"]))),
            st("r", Expression::Projection { index: 1, variable: "p".to_string() }),
        ],
        "r",
    );
    let out = run(p, true, 1).unwrap();
    assert!(is_finished(&out.state));
    assert!(out.dispatched.is_empty());
    assert_eq!(out.state.call_counter, 0);
    let r = out.state.lookup_var("r").unwrap();
    assert!(holds_exactly(r, &[integer(4)]));
    assert!(out.state.program.statements.is_empty());
}

#[test]
fn fold_over_empty_list() {
    let block = Block {
        parameter: "acc_and_x".to_string(),
        body: vec![st("out", Expression::Projection { index: 5, variable: "acc_and_x".to_string() })],
        return_var: "out".to_string(),
    };
    let p = program(
        vec![
            st("xs", Expression::Primitive(Value::List(vec![]))),
            st("i", Expression::Primitive(integer(0))),
            st("r", Expression::Fold { list: "xs".to_string(), initial: "i".to_string(), block }),
        ],
        "r",
    );
    let out = run(p, true, 3).unwrap();
    assert!(holds_exactly(out.state.lookup_var("r").unwrap(), &[integer(0)]));
}

#[test]
fn conditional_fan_out() {
    let p = program(
        vec![
            st("c", Expression::AbstractPrimitive(ConformValue::uncertain(vec![boolean(true), boolean(false)]).unwrap())),
            st(
                "r",
                Expression::If {
                    condition: "c".to_string(),
                    then_block: returns_literal("t", text("T")),
                    else_block: Some(returns_literal("e", text("F"))),
                },
            ),
        ],
        "r",
    );
    let out = run(p, true, 3).unwrap();
    assert!(holds_exactly(out.state.lookup_var("r").unwrap(), &[text("T"), text("F")]));
}

#[test]
fn external_call_splice() {
    let p = program(
        vec![
            st("img", Expression::Primitive(text("x"))),
            st("ps", Expression::ExternalCall { function: "find".to_string(), argument: "img".to_string() }),
        ],
        "ps",
    );
    let out = run(p, true, 5).unwrap();
    assert_eq!(out.dispatched, vec!["?S1".to_string()]);
    assert!(out.state.pending_calls.is_empty());
    let ps = out.state.lookup_var("ps").unwrap();
    assert!(holds_exactly(ps, &[Value::List(vec![text("patch1"), text("patch2")])]));
}

#[test]
fn projection_type_error() {
    let p = program(
        vec![
            st("a", Expression::Primitive(integer(1))),
            st("r", Expression::Projection { index: 0, variable: "a".to_string() }),
        ],
        "r",
    );
    match run(p, true, 3) {
        Err(QuasarError::TypeError(_)) => {},
        other => panic!("expected a type error, got {:?}", other.map(|_| ())),
    }
}

#[test]
fn approval_rejection() {
    let p = program(
        vec![
            st("img", Expression::Primitive(text("x"))),
            st("ps", Expression::ExternalCall { function: "find".to_string(), argument: "img".to_string() }),
        ],
        "ps",
    );
    let mut state = ExecutionState::new(p);
    assert!(rewrite_to_fixpoint(&mut state, 100).unwrap());
    let calls = find_dispatchable_calls(&state);
    assert_eq!(calls.len(), 1);
    let ids = dispatch_calls(&mut state, &calls, &vec![false]);
    assert!(ids[0].is_none());
    assert_eq!(state.call_counter, 0);
    assert!(state.pending_calls.is_empty());
    assert_eq!(find_dispatchable_calls(&state).len(), 1);
    assert!(!is_finished(&state));
}

#[test]
fn unknown_function_is_an_error() {
    let p = program(
        vec![
            st("a", Expression::Primitive(integer(1))),
            st("b", Expression::ExternalCall { function: "nope".to_string(), argument: "a".to_string() }),
        ],
        "b",
    );
    assert!(matches!(run(p, true, 3), Err(QuasarError::ExternalFunctionError(_))));
}
