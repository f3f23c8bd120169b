use quasar::ast::{Block, Expression, Program, Statement};
use quasar::dispatcher::{complete_call, dispatch_call, dispatch_calls, find_dispatchable_calls};
use quasar::error::QuasarError;
use quasar::external::{get_external_function, ExternalFunction};
use quasar::rewriter::{apply_internal_rules, evaluate_join, rewrite_to_fixpoint};
use quasar::state::ExecutionState;
use quasar::value::{ConformValue, PrimitiveValue, Value};

fn st(variable: &str, expression: Expression) -> Statement {
    Statement { variable: variable.to_string(), expression }
}

fn integer(i: i64) -> Value {
    Value::Primitive(PrimitiveValue::Integer(i))
}

fn boolean(b: bool) -> Value {
    Value::Primitive(PrimitiveValue::Boolean(b))
}

fn names(ns: &[&str]) -> Vec<String> {
    ns.iter().map(|n| n.to_string()).collect()
}

fn state_of(statements: Vec<Statement>, return_var: &str) -> ExecutionState {
    ExecutionState::new(Program { statements, return_var: return_var.to_string() })
}

fn holds_exactly(c: &ConformValue, expected: &[Value]) -> bool {
    c.possibilities.len() == expected.len() && expected.iter().all(|v| c.contains(v))
}

fn bound(state: &mut ExecutionState, name: &str, values: Vec<Value>) {
    state.set_var(name.to_string(), ConformValue::uncertain(values).unwrap());
}

#[test]
fn join_order_does_not_matter() {
    let mut s1 = state_of(vec![st("j", Expression::Join(names(&["a", "b", "c"])))], "j");
    let mut s2 = state_of(vec![st("j", Expression::Join(names(&["c", "a", "b"])))], "j");
    for s in [&mut s1, &mut s2] {
        bound(s, "a", vec![integer(1)]);
        bound(s, "b", vec![integer(2), integer(1)]);
        bound(s, "c", vec![integer(3)]);
        assert!(evaluate_join(s).unwrap());
    }
    let expected = [integer(1), integer(2), integer(3)];
    assert!(holds_exactly(s1.lookup_var("j").unwrap(), &expected));
    assert!(holds_exactly(s2.lookup_var("j").unwrap(), &expected));
}

#[test]
fn join_waits_for_every_input() {
    let mut s = state_of(vec![st("j", Expression::Join(names(&["a", "b"])))], "j");
    bound(&mut s, "a", vec![integer(1)]);
    assert!(!evaluate_join(&mut s).unwrap());
    assert!(s.lookup_var("j").is_none());
    assert_eq!(s.program.statements.len(), 1);
}

#[test]
fn fold_nests_the_block() {
    // The block returns its parameter, the pair (accumulator, element).
    let block = Block { parameter: "p".to_string(), body: vec![], return_var: "p".to_string() };
    let mut s = state_of(
        vec![
            st("xs", Expression::Primitive(Value::List(vec![integer(1), integer(2)]))),
            st("i", Expression::Primitive(integer(0))),
            st("r", Expression::Fold { list: "xs".to_string(), initial: "i".to_string(), block }),
        ],
        "r",
    );
    assert!(rewrite_to_fixpoint(&mut s, 100).unwrap());
    let expected = Value::Tuple(vec![Value::Tuple(vec![integer(0), integer(1)]), integer(2)]);
    assert!(holds_exactly(s.lookup_var("r").unwrap(), &[expected]));
    assert!(holds_exactly(s.lookup_var("r_iter_0").unwrap(), &[integer(1)]));
    assert!(holds_exactly(s.lookup_var("r_iter_1").unwrap(), &[integer(2)]));
}

#[test]
fn fold_unrolls_into_named_statements() {
    let block = Block { parameter: "p".to_string(), body: vec![], return_var: "p".to_string() };
    let mut s = state_of(vec![st("r", Expression::Fold { list: "xs".to_string(), initial: "i".to_string(), block })], "r");
    bound(&mut s, "xs", vec![Value::List(vec![integer(5)])]);
    bound(&mut s, "i", vec![integer(0)]);
    assert!(apply_internal_rules(&mut s).unwrap());
    let vars: Vec<&str> = s.program.statements.iter().map(|x| x.variable.as_str()).collect();
    assert_eq!(vars, vec!["r_tuple_0", "r_acc_0", "r"]);
    match &s.program.statements[0].expression {
        Expression::Tuple(vs) => assert_eq!(vs, &names(&["i", "r_iter_0"])),
        other => panic!("unexpected {:?}", other),
    }
    match &s.program.statements[2].expression {
        Expression::Variable(v) => assert_eq!(v, "r_acc_0"),
        other => panic!("unexpected {:?}", other),
    }
}

#[test]
fn idle_pass_changes_nothing() {
    let mut s = state_of(
        vec![
            st("a", Expression::ExternalCall { function: "find".to_string(), argument: "x".to_string() }),
            st("b", Expression::PendingCall("?S9".to_string())),
            st("c", Expression::Variable("missing".to_string())),
        ],
        "c",
    );
    assert!(!apply_internal_rules(&mut s).unwrap());
    assert!(!evaluate_join(&mut s).unwrap());
    assert_eq!(s.program.statements.len(), 3);
    assert!(s.scope.is_empty());
    assert_eq!(s.program.statements[2].variable, "c");
}

#[test]
fn call_ids_increase() {
    let mut s = state_of(vec![], "r");
    assert_eq!(s.generate_call_id(), "?S1");
    assert_eq!(s.generate_call_id(), "?S2");
    for _ in 0..8 {
        s.generate_call_id();
    }
    assert_eq!(s.generate_call_id(), "?S11");
    assert_eq!(s.call_counter, 11);
}

#[test]
fn dispatch_pairs_placeholder_and_record() {
    let mut s = state_of(
        vec![
            st("img", Expression::Primitive(Value::Primitive(PrimitiveValue::String("x".to_string())))),
            st("ps", Expression::ExternalCall { function: "find".to_string(), argument: "img".to_string() }),
        ],
        "ps",
    );
    assert!(rewrite_to_fixpoint(&mut s, 10).unwrap());
    let calls = find_dispatchable_calls(&s);
    assert_eq!(calls.len(), 1);
    assert_eq!(calls[0].assignment_var, "ps");
    assert_eq!(calls[0].function, "find");
    let id = dispatch_call(&mut s, &calls[0]);
    assert_eq!(id, "?S1");
    let waiting = s
        .program
        .statements
        .iter()
        .filter(|x| matches!(&x.expression, Expression::PendingCall(w) if w == &id))
        .count();
    assert_eq!(waiting, 1);
    assert_eq!(s.pending_calls.iter().filter(|p| p.id == id).count(), 1);
    assert!(find_dispatchable_calls(&s).is_empty());

    assert!(!complete_call(&mut s, &"?S7".to_string(), ConformValue::certain(integer(0))));
    let result = ConformValue::certain(integer(42));
    assert!(complete_call(&mut s, &id, result));
    assert!(s.pending_calls.is_empty());
    assert!(holds_exactly(s.lookup_var("ps").unwrap(), &[integer(42)]));
    match &s.program.statements[0].expression {
        Expression::Variable(v) => assert_eq!(v, "ps"),
        other => panic!("unexpected {:?}", other),
    }
}

#[test]
fn single_branch_conditionals() {
    let then_block = Block {
        parameter: "_".to_string(),
        body: vec![st("t", Expression::Primitive(integer(1)))],
        return_var: "t".to_string(),
    };
    let mut s = state_of(
        vec![
            st("c", Expression::Primitive(boolean(true))),
            st("d", Expression::Primitive(boolean(false))),
            st("r", Expression::If { condition: "c".to_string(), then_block, else_block: None }),
            st(
                "q",
                Expression::If {
                    condition: "d".to_string(),
                    then_block: Block { parameter: "_".to_string(), body: vec![], return_var: "c".to_string() },
                    else_block: None,
                },
            ),
        ],
        "r",
    );
    assert!(rewrite_to_fixpoint(&mut s, 10).unwrap());
    assert!(holds_exactly(s.lookup_var("r").unwrap(), &[integer(1)]));
    assert!(s.lookup_var("q").is_none());
    assert!(s.program.statements.is_empty());
}

#[test]
fn condition_without_boolean_waits() {
    let mut s = state_of(
        vec![
            st("c", Expression::Primitive(integer(3))),
            st(
                "r",
                Expression::If {
                    condition: "c".to_string(),
                    then_block: Block { parameter: "_".to_string(), body: vec![], return_var: "c".to_string() },
                    else_block: None,
                },
            ),
        ],
        "r",
    );
    assert!(rewrite_to_fixpoint(&mut s, 10).unwrap());
    assert_eq!(s.program.statements.len(), 1);
    assert!(s.lookup_var("r").is_none());
}

#[test]
fn projection_out_of_range() {
    let mut s = state_of(
        vec![
            st("a", Expression::Primitive(integer(1))),
            st("p", Expression::Tuple(names(&["a"]))),
            st("r", Expression::Projection { index: 3, variable: "p".to_string() }),
        ],
        "r",
    );
    match rewrite_to_fixpoint(&mut s, 10) {
        Err(QuasarError::InvalidOperation(m)) => assert_eq!(m, "Tuple index 3 out of bounds"),
        other => panic!("unexpected {:?}", other),
    }
}

#[test]
fn empty_abstract_literal_is_refused() {
    let mut s = state_of(vec![st("a", Expression::AbstractPrimitive(ConformValue { possibilities: vec![] }))], "a");
    assert!(matches!(evaluate_join(&mut s), Err(QuasarError::InvalidOperation(_))));
}

#[test]
fn tuple_waits_for_certain_components() {
    let mut s = state_of(vec![st("t", Expression::Tuple(names(&["a", "b"])))], "t");
    bound(&mut s, "a", vec![integer(1)]);
    bound(&mut s, "b", vec![integer(1), integer(2)]);
    assert!(!evaluate_join(&mut s).unwrap());
    assert!(s.lookup_var("t").is_none());
}

#[test]
fn substitution_stops_at_nested_blocks() {
    let inner = Block {
        parameter: "q".to_string(),
        body: vec![st("y", Expression::Variable("p".to_string()))],
        return_var: "y".to_string(),
    };
    let outer = Block {
        parameter: "p".to_string(),
        body: vec![
            st("a", Expression::Projection { index: 0, variable: "p".to_string() }),
            st("res", Expression::Fold { list: "p".to_string(), initial: "a".to_string(), block: inner }),
        ],
        return_var: "res".to_string(),
    };
    let mut s = state_of(vec![st("r", Expression::Fold { list: "xs".to_string(), initial: "i".to_string(), block: outer })], "r");
    bound(&mut s, "xs", vec![Value::List(vec![integer(7)])]);
    bound(&mut s, "i", vec![integer(0)]);
    assert!(apply_internal_rules(&mut s).unwrap());
    match &s.program.statements[2].expression {
        Expression::Fold { list, initial, block } => {
            assert_eq!(list, "r_tuple_0");
            assert_eq!(initial, "a");
            match &block.body[0].expression {
                Expression::Variable(v) => assert_eq!(v, "p"),
                other => panic!("unexpected {:?}", other),
            }
        }
        other => panic!("unexpected {:?}", other),
    }
    assert_eq!(s.program.statements[2].variable, "r_acc_0");
}

#[test]
fn registry_resolves_known_names() {
    let arg = ConformValue::certain(integer(0));
    assert!(matches!(get_external_function("find"), Some(ExternalFunction::Find(_))));
    assert!(matches!(get_external_function("simple_query"), Some(ExternalFunction::SimpleQuery(_))));
    assert!(matches!(get_external_function("exists"), Some(ExternalFunction::Exists(_))));
    assert!(get_external_function("other").is_none());
    let yes = get_external_function("simple_query").unwrap().call(&arg);
    assert!(holds_exactly(&yes, &[Value::Primitive(PrimitiveValue::String("yes".to_string()))]));
    let t = get_external_function("exists").unwrap().call(&arg);
    assert!(holds_exactly(&t, &[boolean(true)]));
}

#[test]
fn fixpoint_reports_unfinished_rounds() {
    let mut s = state_of(
        vec![
            st("a", Expression::Primitive(integer(3))),
            st("b", Expression::Primitive(integer(4))),
            st("p", Expression::Tuple(names(&["a", "b"]))),
            st("r", Expression::Projection { index: 1, variable: "p".to_string() }),
        ],
        "r",
    );
    assert!(!rewrite_to_fixpoint(&mut s, 1).unwrap());
    assert!(s.lookup_var("p").is_some());
    assert!(s.lookup_var("r").is_none());
    assert_eq!(s.program.statements.len(), 1);
    assert!(!rewrite_to_fixpoint(&mut s, 0).unwrap());
    assert!(rewrite_to_fixpoint(&mut s, 5).unwrap());
    assert!(holds_exactly(s.lookup_var("r").unwrap(), &[integer(4)]));
    assert!(s.program.statements.is_empty());
}

fn waiting_on(s: &ExecutionState, id: &str) -> usize {
    s.program
        .statements
        .iter()
        .filter(|x| matches!(&x.expression, Expression::PendingCall(w) if w == id))
        .count()
}

#[test]
fn dispatch_targets_the_call_statement_when_names_repeat() {
    let mut s = state_of(
        vec![
            st("z", Expression::ExternalCall { function: "find".to_string(), argument: "a".to_string() }),
            st("z", Expression::ExternalCall { function: "exists".to_string(), argument: "a".to_string() }),
            st("z", Expression::ExternalCall { function: "find".to_string(), argument: "a".to_string() }),
        ],
        "z",
    );
    bound(&mut s, "a", vec![integer(1)]);
    let calls = find_dispatchable_calls(&s);
    assert_eq!(calls.len(), 3);
    let ids = dispatch_calls(&mut s, &calls, &vec![true, true, true]);
    let ids: Vec<String> = ids.into_iter().map(|i| i.unwrap()).collect();
    assert_eq!(ids, vec!["?S1".to_string(), "?S2".to_string(), "?S3".to_string()]);
    for id in &ids {
        assert_eq!(waiting_on(&s, id), 1);
        assert_eq!(s.pending_calls.iter().filter(|p| &p.id == id).count(), 1);
    }
    assert!(matches!(&s.program.statements[0].expression, Expression::PendingCall(w) if w == "?S1"));
    assert!(matches!(&s.program.statements[1].expression, Expression::PendingCall(w) if w == "?S2"));
    assert!(matches!(&s.program.statements[2].expression, Expression::PendingCall(w) if w == "?S3"));
    assert!(find_dispatchable_calls(&s).is_empty());
}

#[test]
fn dispatch_ids_follow_approved_calls() {
    let mut s = state_of(
        vec![
            st("x", Expression::ExternalCall { function: "find".to_string(), argument: "a".to_string() }),
            st("y", Expression::ExternalCall { function: "exists".to_string(), argument: "a".to_string() }),
            st("w", Expression::ExternalCall { function: "exists".to_string(), argument: "a".to_string() }),
        ],
        "w",
    );
    bound(&mut s, "a", vec![integer(1)]);
    s.generate_call_id();
    let calls = find_dispatchable_calls(&s);
    let ids = dispatch_calls(&mut s, &calls, &vec![true, false, true]);
    assert_eq!(ids, vec![Some("?S2".to_string()), None, Some("?S3".to_string())]);
    assert_eq!(s.call_counter, 3);
    let recorded: Vec<&str> = s.pending_calls.iter().map(|p| p.id.as_str()).collect();
    assert_eq!(recorded, vec!["?S2", "?S3"]);
    assert!(matches!(&s.program.statements[1].expression, Expression::ExternalCall { .. }));
}
