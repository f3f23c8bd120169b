use vstd::prelude::*;
use crate::ast::{
    Block, BlockModel, Expression, ExpressionModel, Statement, StatementModel,
    names_model, statements_model,
};
use crate::error::QuasarError;
use crate::state::{ExecutionState, decimal, decimal_text};
use crate::value::{ConformValue, PrimitiveModel, PrimitiveValue, Value, ValueModel};

verus! {

/// `n`, with `param` replaced by `src`.
pub open spec fn subst_name(n: Seq<char>, param: Seq<char>, src: Seq<char>) -> Seq<char> {
    if n == param { src } else { n }
}

pub open spec fn subst_names(ns: Seq<Seq<char>>, param: Seq<char>, src: Seq<char>) -> Seq<Seq<char>> {
    ns.map_values(|n: Seq<char>| subst_name(n, param, src))
}

/// `e` with every name it references directly renamed from `param` to
/// `src`; nested blocks are left as they are.
pub open spec fn subst_expr(e: ExpressionModel, param: Seq<char>, src: Seq<char>) -> ExpressionModel {
    match e {
        ExpressionModel::Variable(v) => ExpressionModel::Variable(subst_name(v, param, src)),
        ExpressionModel::Tuple(vs) => ExpressionModel::Tuple(subst_names(vs, param, src)),
        ExpressionModel::ExternalCall { function, argument } => ExpressionModel::ExternalCall {
            function,
            argument: subst_name(argument, param, src),
        },
        ExpressionModel::Projection { index, variable } => ExpressionModel::Projection {
            index,
            variable: subst_name(variable, param, src),
        },
        ExpressionModel::Fold { list, initial, block } => ExpressionModel::Fold {
            list: subst_name(list, param, src),
            initial: subst_name(initial, param, src),
            block,
        },
        ExpressionModel::If { condition, then_block, else_block } => ExpressionModel::If {
            condition: subst_name(condition, param, src),
            then_block,
            else_block,
        },
        ExpressionModel::Join(vs) => ExpressionModel::Join(subst_names(vs, param, src)),
        _ => e,
    }
}

/// The copy of the `i`-th body statement of `b`, its parameter bound to
/// `src` and its result written to `result`.
pub open spec fn expanded_statement(result: Seq<char>, b: BlockModel, src: Seq<char>, i: int) -> StatementModel {
    StatementModel {
        variable: if b.body[i].variable == b.return_var { result } else { b.body[i].variable },
        expression: subst_expr(b.body[i].expression, b.parameter, src),
    }
}

/// Whether the body of `b` ends by assigning its declared result.
pub open spec fn ends_with_result(b: BlockModel) -> bool {
    b.body.len() > 0 && b.body.last().variable == b.return_var
}

/// The statements that inline `b` with its parameter bound to `src` and its
/// result bound to `result`.
pub open spec fn expand_with_param(result: Seq<char>, b: BlockModel, src: Seq<char>) -> Seq<StatementModel> {
    let body = Seq::new(b.body.len(), |i: int| expanded_statement(result, b, src, i));
    if ends_with_result(b) {
        body
    } else {
        body.push(
            StatementModel {
                variable: result,
                expression: ExpressionModel::Variable(subst_name(b.return_var, b.parameter, src)),
            },
        )
    }
}

/// The name of the empty tuple that stands for a parameterless block's
/// parameter.
pub open spec fn empty_name(result: Seq<char>) -> Seq<char> {
    result + "_empty"@
}

/// The statements that inline a block that takes no argument.
pub open spec fn expand(result: Seq<char>, b: BlockModel) -> Seq<StatementModel> {
    seq![StatementModel { variable: empty_name(result), expression: ExpressionModel::Tuple(seq![]) }]
        + expand_with_param(result, b, empty_name(result))
}

fn subst(n: &String, param: &String, src: &String) -> (r: String)
    ensures
        r@ == subst_name(n@, param@, src@),
{
    if n.eq(param) {
        src.clone()
    } else {
        n.clone()
    }
}

fn subst_all(ns: &Vec<String>, param: &String, src: &String) -> (r: Vec<String>)
    ensures
        names_model(r@) == subst_names(names_model(ns@), param@, src@),
{
    let mut out: Vec<String> = Vec::new();
    let mut i: usize = 0;
    while i < ns.len()
        invariant
            i <= ns.len(),
            out.len() == i,
            forall|j: int| 0 <= j < i ==> out[j]@ == subst_name(ns[j]@, param@, src@),
        decreases ns.len() - i,
    {
        out.push(subst(&ns[i], param, src));
        i = i + 1;
    }
    assert(names_model(out@) =~= subst_names(names_model(ns@), param@, src@));
    out
}

/// Renames `param` to `src` wherever `expr` references it directly.
pub fn substitute_expression(expr: &Expression, param: &String, src: &String) -> (r: Expression)
    ensures
        r@ == subst_expr(expr@, param@, src@),
{
    match expr {
        Expression::Variable(v) => Expression::Variable(subst(v, param, src)),
        Expression::Tuple(vs) => Expression::Tuple(subst_all(vs, param, src)),
        Expression::ExternalCall { function, argument } => Expression::ExternalCall {
            function: function.clone(),
            argument: subst(argument, param, src),
        },
        Expression::Projection { index, variable } => Expression::Projection {
            index: *index,
            variable: subst(variable, param, src),
        },
        Expression::Fold { list, initial, block } => Expression::Fold {
            list: subst(list, param, src),
            initial: subst(initial, param, src),
            block: block.duplicate(),
        },
        Expression::If { condition, then_block, else_block } => {
            let e = match else_block {
                Some(b) => Some(b.duplicate()),
                None => None,
            };
            Expression::If { condition: subst(condition, param, src), then_block: then_block.duplicate(), else_block: e }
        },
        Expression::Join(vs) => Expression::Join(subst_all(vs, param, src)),
        _ => expr.duplicate(),
    }
}

/// Appends the statements that inline `block` with its parameter bound to
/// `param_var` and its result bound to `result_var`.
pub fn expand_block_with_param(
    result_var: &String,
    block: &Block,
    param_var: &String,
    statements: &mut Vec<Statement>,
)
    ensures
        statements_model(final(statements)@) == statements_model(old(statements)@)
            + expand_with_param(result_var@, block@, param_var@),
{
    let ghost b = block@;
    let ghost start = statements_model(statements@);
    let mut i: usize = 0;
    while i < block.body.len()
        invariant
            b == block@,
            i <= block.body.len(),
            statements_model(statements@) == start + Seq::new(i as nat, |j: int| expanded_statement(result_var@, b, param_var@, j)),
        decreases block.body.len() - i,
    {
        let st = &block.body[i];
        let variable = if st.variable.eq(&block.return_var) {
            result_var.clone()
        } else {
            st.variable.clone()
        };
        let expression = substitute_expression(&st.expression, &block.parameter, param_var);
        let ghost before = statements_model(statements@);
        let s = Statement { variable, expression };
        assert(s@ == expanded_statement(result_var@, b, param_var@, i as int));
        statements.push(s);
        proof {
            assert(statements_model(statements@) =~= before.push(s@));
            assert(Seq::new((i + 1) as nat, |j: int| expanded_statement(result_var@, b, param_var@, j))
                =~= Seq::new(i as nat, |j: int| expanded_statement(result_var@, b, param_var@, j)).push(s@));
        }
        i = i + 1;
    }
    let n = block.body.len();
    let ends = n > 0 && block.body[n - 1].variable.eq(&block.return_var);
    assert(ends == ends_with_result(b));
    if !ends {
        let ghost before = statements_model(statements@);
        let s = Statement {
            variable: result_var.clone(),
            expression: Expression::Variable(subst(&block.return_var, &block.parameter, param_var)),
        };
        statements.push(s);
        assert(statements_model(statements@) =~= before.push(s@));
    }
    assert(Seq::new(n as nat, |j: int| expanded_statement(result_var@, b, param_var@, j))
        =~= Seq::new(b.body.len(), |j: int| expanded_statement(result_var@, b, param_var@, j)));
    assert(statements_model(statements@) =~= start + expand_with_param(result_var@, b, param_var@));
}

/// Appends the statements that inline a block that takes no argument: an
/// empty tuple stands for its parameter.
pub fn expand_block(result_var: &String, block: &Block, statements: &mut Vec<Statement>)
    ensures
        statements_model(final(statements)@) == statements_model(old(statements)@)
            + expand(result_var@, block@),
{
    proof {
        reveal_strlit("_empty");
    }
    let empty = result_var.clone().concat("_empty");
    let ghost before = statements_model(statements@);
    let s = Statement { variable: empty.clone(), expression: Expression::Tuple(Vec::new()) };
    assert(s@.expression == ExpressionModel::Tuple(seq![])) by {
        assert(names_model(Seq::<String>::empty()) =~= seq![]);
    }
    statements.push(s);
    assert(statements_model(statements@) =~= before.push(s@));
    expand_block_with_param(result_var, block, &empty, statements);
    assert(statements_model(statements@) =~= before + expand(result_var@, block@));
}

/// The finalized bindings, as a map from name to possibility set.
pub type ScopeModel = Map<Seq<char>, Set<ValueModel>>;

/// The two families of rules. The reshaping rules substitute variables,
/// project tuples and unroll conditionals and folds; the resolving rules
/// bind literals, build tuples and join branches.
#[derive(Clone, Copy, Debug, PartialEq, Eq, Structural)]
pub enum RuleFamily {
    Reshaping,
    Resolving,
}

/// The kind of error a rule can raise.
pub enum FailureKind {
    TypeError,
    InvalidOperation,
}

/// What one rule does to one statement.
pub enum RuleOutcome {
    /// The statement stays as it is.
    Keep,
    /// The statement is replaced by `emitted` and the scope becomes `scope`.
    Fire { emitted: Seq<StatementModel>, scope: ScopeModel },
    /// Execution fails.
    Fail(FailureKind),
}

/// What a whole pass does to a program.
pub enum PassOutcome {
    Done { statements: Seq<StatementModel>, scope: ScopeModel, changed: bool },
    Failed(FailureKind),
}

pub open spec fn bool_value(b: bool) -> ValueModel {
    ValueModel::Primitive(PrimitiveModel::Boolean(b))
}

pub open spec fn then_name(lhs: Seq<char>) -> Seq<char> {
    lhs + "_then"@
}

pub open spec fn else_name(lhs: Seq<char>) -> Seq<char> {
    lhs + "_else"@
}

/// A name derived from `lhs`, a tag and an index.
pub open spec fn indexed(lhs: Seq<char>, tag: Seq<char>, i: nat) -> Seq<char> {
    lhs + tag + decimal(i)
}

pub open spec fn iter_name(lhs: Seq<char>, i: nat) -> Seq<char> {
    indexed(lhs, "_iter_"@, i)
}

pub open spec fn tuple_name(lhs: Seq<char>, i: nat) -> Seq<char> {
    indexed(lhs, "_tuple_"@, i)
}

pub open spec fn acc_name(lhs: Seq<char>, i: nat) -> Seq<char> {
    indexed(lhs, "_acc_"@, i)
}

/// The accumulator that the `i`-th step of a fold reads.
pub open spec fn acc_before(lhs: Seq<char>, initial: Seq<char>, i: nat) -> Seq<char> {
    if i == 0 { initial } else { acc_name(lhs, (i - 1) as nat) }
}

/// The statements of the first `n` steps of an unrolled fold.
pub open spec fn unrolled(lhs: Seq<char>, n: nat, initial: Seq<char>, block: BlockModel) -> Seq<StatementModel>
    decreases n,
{
    if n == 0 {
        seq![]
    } else {
        let i = (n - 1) as nat;
        unrolled(lhs, i, initial, block) + seq![
            StatementModel {
                variable: tuple_name(lhs, i),
                expression: ExpressionModel::Tuple(seq![acc_before(lhs, initial, i), iter_name(lhs, i)]),
            },
        ] + expand_with_param(acc_name(lhs, i), block, tuple_name(lhs, i))
    }
}

/// The scope with the first `n` elements of a folded list bound to their
/// iteration names.
pub open spec fn seeded(sc: ScopeModel, lhs: Seq<char>, es: Seq<ValueModel>, n: nat) -> ScopeModel
    decreases n,
{
    if n == 0 {
        sc
    } else {
        seeded(sc, lhs, es, (n - 1) as nat).insert(iter_name(lhs, (n - 1) as nat), set![es[n - 1]])
    }
}

/// The union, left to right, of the values bound to `vars`.
pub open spec fn joined(sc: ScopeModel, vars: Seq<Seq<char>>) -> Set<ValueModel>
    decreases vars.len(),
{
    if vars.len() <= 1 {
        sc[vars[0]]
    } else {
        joined(sc, vars.drop_last()).union(sc[vars.last()])
    }
}

/// Whether `n` is bound to exactly one possibility.
pub open spec fn is_certain_in(sc: ScopeModel, n: Seq<char>) -> bool {
    sc.contains_key(n) && sc[n].len() == 1
}

/// The statements that replace a conditional whose condition holds both
/// booleans.
pub open spec fn fan_out(lhs: Seq<char>, then_block: BlockModel, else_block: Option<BlockModel>) -> Seq<StatementModel> {
    expand(then_name(lhs), then_block) + match else_block {
        Some(e) => expand(else_name(lhs), e),
        None => seq![],
    } + seq![
        StatementModel {
            variable: lhs,
            expression: ExpressionModel::Join(seq![then_name(lhs), else_name(lhs)]),
        },
    ]
}

/// The reshaping rules. A conditional whose condition holds neither boolean
/// stays as it is, and so does any statement whose inputs are not all bound
/// (or, where the rule needs them so, certain) yet.
pub open spec fn reshaping_rule(s: StatementModel, sc: ScopeModel) -> RuleOutcome {
    let lhs = s.variable;
    match s.expression {
        ExpressionModel::Variable(src) => if sc.contains_key(src) {
            RuleOutcome::Fire { emitted: seq![], scope: sc.insert(lhs, sc[src]) }
        } else {
            RuleOutcome::Keep
        },
        ExpressionModel::Projection { index, variable } => if is_certain_in(sc, variable) {
            match sc[variable].choose() {
                ValueModel::Tuple(es) => if index < es.len() {
                    RuleOutcome::Fire { emitted: seq![], scope: sc.insert(lhs, set![es[index as int]]) }
                } else {
                    RuleOutcome::Fail(FailureKind::InvalidOperation)
                },
                _ => RuleOutcome::Fail(FailureKind::TypeError),
            }
        } else {
            RuleOutcome::Keep
        },
        ExpressionModel::If { condition, then_block, else_block } => if sc.contains_key(condition) {
            let t = sc[condition].contains(bool_value(true));
            let f = sc[condition].contains(bool_value(false));
            if t && !f {
                RuleOutcome::Fire { emitted: expand(lhs, then_block), scope: sc }
            } else if !t && f {
                match else_block {
                    Some(e) => RuleOutcome::Fire { emitted: expand(lhs, e), scope: sc },
                    None => RuleOutcome::Fire { emitted: seq![], scope: sc },
                }
            } else if t && f {
                RuleOutcome::Fire { emitted: fan_out(lhs, then_block, else_block), scope: sc }
            } else {
                RuleOutcome::Keep
            }
        } else {
            RuleOutcome::Keep
        },
        ExpressionModel::Fold { list, initial, block } => if is_certain_in(sc, list) && is_certain_in(sc, initial)
            && sc[list].choose() is List {
            let es = sc[list].choose()->List_0;
            RuleOutcome::Fire {
                emitted: unrolled(lhs, es.len(), initial, block).push(
                    StatementModel {
                        variable: lhs,
                        expression: ExpressionModel::Variable(acc_before(lhs, initial, es.len())),
                    },
                ),
                scope: seeded(sc, lhs, es, es.len()),
            }
        } else {
            RuleOutcome::Keep
        },
        _ => RuleOutcome::Keep,
    }
}

/// The resolving rules. A literal abstract value with no possibility is an
/// invalid operation; a tuple waits until every component is certain, and a
/// join until every input is bound.
pub open spec fn resolving_rule(s: StatementModel, sc: ScopeModel) -> RuleOutcome {
    let lhs = s.variable;
    match s.expression {
        ExpressionModel::Join(vars) => if vars.len() > 0 && forall|i: int|
            0 <= i < vars.len() ==> sc.contains_key(#[trigger] vars[i]) {
            RuleOutcome::Fire { emitted: seq![], scope: sc.insert(lhs, joined(sc, vars)) }
        } else {
            RuleOutcome::Keep
        },
        ExpressionModel::Primitive(v) => RuleOutcome::Fire { emitted: seq![], scope: sc.insert(lhs, set![v]) },
        ExpressionModel::AbstractPrimitive(av) => if av == Set::<ValueModel>::empty() {
            RuleOutcome::Fail(FailureKind::InvalidOperation)
        } else {
            RuleOutcome::Fire { emitted: seq![], scope: sc.insert(lhs, av) }
        },
        ExpressionModel::Tuple(vars) => if forall|i: int| 0 <= i < vars.len() ==> is_certain_in(sc, #[trigger] vars[i]) {
            RuleOutcome::Fire {
                emitted: seq![],
                scope: sc.insert(
                    lhs,
                    set![ValueModel::Tuple(Seq::new(vars.len(), |i: int| sc[vars[i]].choose()))],
                ),
            }
        } else {
            RuleOutcome::Keep
        },
        _ => RuleOutcome::Keep,
    }
}

/// The rule of `family` that applies to `s`, and what it does.
pub open spec fn rule(s: StatementModel, sc: ScopeModel, family: RuleFamily) -> RuleOutcome {
    match family {
        RuleFamily::Reshaping => reshaping_rule(s, sc),
        RuleFamily::Resolving => resolving_rule(s, sc),
    }
}

/// One pass of `family` over `stmts`, left to right; each rule sees the
/// scope as the rules before it left it.
pub open spec fn pass(stmts: Seq<StatementModel>, sc: ScopeModel, family: RuleFamily) -> PassOutcome
    decreases stmts.len(),
{
    if stmts.len() == 0 {
        PassOutcome::Done { statements: seq![], scope: sc, changed: false }
    } else {
        match pass(stmts.drop_last(), sc, family) {
            PassOutcome::Failed(k) => PassOutcome::Failed(k),
            PassOutcome::Done { statements, scope, changed } => match rule(stmts.last(), scope, family) {
                RuleOutcome::Keep => PassOutcome::Done { statements: statements.push(stmts.last()), scope, changed },
                RuleOutcome::Fire { emitted, scope: next } => PassOutcome::Done {
                    statements: statements + emitted,
                    scope: next,
                    changed: true,
                },
                RuleOutcome::Fail(k) => PassOutcome::Failed(k),
            },
        }
    }
}

/// Whether `e` is an error of kind `k`.
pub open spec fn error_is(e: QuasarError, k: FailureKind) -> bool {
    match k {
        FailureKind::TypeError => e is TypeError,
        FailureKind::InvalidOperation => e is InvalidOperation,
    }
}

/// Whether applying a rule with outcome `o` turned (`out0`, `sc0`) into
/// (`out1`, `sc1`) and returned `r`.
pub open spec fn rule_applied(
    o: RuleOutcome,
    stmt: StatementModel,
    out0: Seq<StatementModel>,
    out1: Seq<StatementModel>,
    sc1: ScopeModel,
    sc0: ScopeModel,
    r: Result<bool, QuasarError>,
) -> bool {
    match o {
        RuleOutcome::Keep => r == Ok::<bool, QuasarError>(false) && out1 == out0.push(stmt) && sc1 == sc0,
        RuleOutcome::Fire { emitted, scope } => r == Ok::<bool, QuasarError>(true) && out1 == out0 + emitted
            && sc1 == scope,
        RuleOutcome::Fail(k) => r is Err && error_is(r->Err_0, k),
    }
}

/// A singleton set has one element, and choosing from it gives that element.
pub proof fn lemma_sole<A>(x: A)
    ensures
        set![x].choose() == x,
        set![x].len() == 1,
{
    assert(set![x].contains(x));
}

/// Whether only the scope of `s1` may differ from that of `s0`.
pub open spec fn same_frame(s0: ExecutionState, s1: ExecutionState) -> bool {
    &&& s1.program == s0.program
    &&& s1.pending_calls == s0.pending_calls
    &&& s1.call_counter == s0.call_counter
}

fn keep(stmt: &Statement, out: &mut Vec<Statement>) -> (r: Result<bool, QuasarError>)
    ensures
        statements_model(final(out)@) == statements_model(old(out)@).push(stmt@),
        r == Ok::<bool, QuasarError>(false),
{
    let ghost before = statements_model(out@);
    let d = stmt.duplicate();
    out.push(d);
    assert(statements_model(out@) =~= before.push(stmt@));
    Ok(false)
}

/// `lhs` followed by `tag` and the decimal numeral for `i`.
fn indexed_text(lhs: &String, tag: &str, i: usize) -> (r: String)
    ensures
        r@ == indexed(lhs@, tag@, i as nat),
{
    let idx = decimal_text(i);
    lhs.clone().concat(tag).concat(idx.as_str())
}

/// Applies the reshaping rule that matches `stmt`, appending to `out` what
/// replaces it.
fn apply_reshaping_rule(state: &mut ExecutionState, stmt: &Statement, out: &mut Vec<Statement>) -> (r: Result<bool, QuasarError>)
    requires
        old(state).wf(),
    ensures
        rule_applied(
            reshaping_rule(stmt@, old(state).scope_map()),
            stmt@,
            statements_model(old(out)@),
            statements_model(final(out)@),
            final(state).scope_map(),
            old(state).scope_map(),
            r,
        ),
        r is Ok ==> final(state).wf() && same_frame(*old(state), *final(state)),
{
    let ghost out0 = statements_model(out@);
    let ghost sc0 = state.scope_map();
    let lhs = &stmt.variable;
    match &stmt.expression {
        Expression::Variable(src) => match state.lookup_var(src.as_str()) {
            Some(v) => {
                let d = v.duplicate();
                state.set_var(lhs.clone(), d);
                assert(statements_model(out@) =~= out0 + seq![]);
                Ok(true)
            },
            None => keep(stmt, out),
        },
        Expression::Projection { index, variable } => {
            let picked: Option<Result<Value, QuasarError>> = match state.lookup_var(variable.as_str()) {
                None => None,
                Some(v) => match v.as_certain() {
                    None => None,
                    Some(cv) => {
                        proof {
                            lemma_sole(cv@);
                        }
                        match cv {
                            Value::Tuple(es) => if *index < es.len() {
                                Some(Ok(es[*index].duplicate()))
                            } else {
                                Some(Err(QuasarError::InvalidOperation(
                                    String::from_str("Tuple index ").concat(decimal_text(*index).as_str()).concat(" out of bounds"),
                                )))
                            },
                            _ => Some(Err(QuasarError::TypeError(
                                String::from_str("Projection can only be applied to tuples"),
                            ))),
                        }
                    },
                },
            };
            match picked {
                None => keep(stmt, out),
                Some(Err(e)) => Err(e),
                Some(Ok(e)) => {
                    state.set_var(lhs.clone(), ConformValue::certain(e));
                    assert(statements_model(out@) =~= out0 + seq![]);
                    Ok(true)
                },
            }
        },
        Expression::If { condition, then_block, else_block } => {
            let (t, f) = match state.lookup_var(condition.as_str()) {
                None => {
                    return keep(stmt, out);
                },
                Some(cv) => {
                    let t = cv.contains(&Value::Primitive(PrimitiveValue::Boolean(true)));
                    let f = cv.contains(&Value::Primitive(PrimitiveValue::Boolean(false)));
                    (t, f)
                },
            };
            if t && !f {
                expand_block(lhs, then_block, out);
                Ok(true)
            } else if !t && f {
                match else_block {
                    Some(e) => expand_block(lhs, e, out),
                    None => {
                        assert(statements_model(out@) =~= out0 + seq![]);
                    },
                }
                Ok(true)
            } else if t && f {
                proof {
                    reveal_strlit("_then");
                    reveal_strlit("_else");
                }
                let tn = lhs.clone().concat("_then");
                let en = lhs.clone().concat("_else");
                expand_block(&tn, then_block, out);
                let ghost mid = statements_model(out@);
                match else_block {
                    Some(e) => expand_block(&en, e, out),
                    None => {
                        assert(statements_model(out@) =~= mid + seq![]);
                    },
                }
                let ghost mid2 = statements_model(out@);
                let j = Statement { variable: lhs.clone(), expression: Expression::Join(vec![tn, en]) };
                assert(names_model(seq![tn, en]) =~= seq![tn@, en@]);
                out.push(j);
                assert(statements_model(out@) =~= mid2.push(j@));
                assert(statements_model(out@) =~= out0 + fan_out(lhs@, then_block@, match else_block {
                    Some(b) => Some(b@),
                    None => None,
                }));
                Ok(true)
            } else {
                keep(stmt, out)
            }
        },
        Expression::Fold { list, initial, block } => {
            let list_copy: Option<Value> = match state.lookup_var(list.as_str()) {
                Some(lv) => match lv.as_certain() {
                    Some(v) => {
                        proof {
                            lemma_sole(v@);
                        }
                        Some(v.duplicate())
                    },
                    None => None,
                },
                None => None,
            };
            let init_certain = match state.lookup_var(initial.as_str()) {
                Some(iv) => iv.is_certain(),
                None => false,
            };
            if !init_certain {
                return keep(stmt, out);
            }
            match list_copy {
                Some(Value::List(elements)) => {
                    let ghost es = sc0[list@].choose()->List_0;
                    assert(es.len() == elements.len());
                    assert(forall|j: int| 0 <= j < elements.len() ==> es[j] == elements[j]@);
                    proof {
                        reveal_strlit("_iter_");
                        reveal_strlit("_tuple_");
                        reveal_strlit("_acc_");
                    }
                    let mut acc: String = initial.clone();
                    let mut i: usize = 0;
                    while i < elements.len()
                        invariant
                            i <= elements.len(),
                            es.len() == elements.len(),
                            forall|j: int| 0 <= j < elements.len() ==> es[j] == elements[j]@,
                            state.wf(),
                            same_frame(*old(state), *state),
                            state.scope_map() == seeded(sc0, lhs@, es, i as nat),
                            statements_model(out@) == out0 + unrolled(lhs@, i as nat, initial@, block@),
                            acc@ == acc_before(lhs@, initial@, i as nat),
                        decreases elements.len() - i,
                    {
                        let iter_var = indexed_text(lhs, "_iter_", i);
                        let tuple_var = indexed_text(lhs, "_tuple_", i);
                        let acc_var = indexed_text(lhs, "_acc_", i);
                        let ghost before = statements_model(out@);
                        state.set_var(iter_var.clone(), ConformValue::certain(elements[i].duplicate()));
                        let t = Statement { variable: tuple_var.clone(), expression: Expression::Tuple(vec![acc, iter_var]) };
                        assert(names_model(seq![acc, iter_var]) =~= seq![acc@, iter_var@]);
                        out.push(t);
                        assert(statements_model(out@) =~= before.push(t@));
                        expand_block_with_param(&acc_var, block, &tuple_var, out);
                        acc = acc_var;
                        proof {
                            assert(statements_model(out@) =~= out0 + unrolled(lhs@, (i + 1) as nat, initial@, block@));
                        }
                        i = i + 1;
                    }
                    let ghost before = statements_model(out@);
                    let last = Statement { variable: lhs.clone(), expression: Expression::Variable(acc) };
                    out.push(last);
                    assert(statements_model(out@) =~= before.push(last@));
                    Ok(true)
                },
                _ => keep(stmt, out),
            }
        },
        _ => keep(stmt, out),
    }
}

/// Applies the resolving rule that matches `stmt`, appending `stmt` to `out`
/// if it stays.
fn apply_resolving_rule(state: &mut ExecutionState, stmt: &Statement, out: &mut Vec<Statement>) -> (r: Result<bool, QuasarError>)
    requires
        old(state).wf(),
    ensures
        rule_applied(
            resolving_rule(stmt@, old(state).scope_map()),
            stmt@,
            statements_model(old(out)@),
            statements_model(final(out)@),
            final(state).scope_map(),
            old(state).scope_map(),
            r,
        ),
        r is Ok ==> final(state).wf() && same_frame(*old(state), *final(state)),
{
    let ghost out0 = statements_model(out@);
    let ghost sc0 = state.scope_map();
    let lhs = &stmt.variable;
    match &stmt.expression {
        Expression::Primitive(v) => {
            state.set_var(lhs.clone(), ConformValue::certain(v.duplicate()));
            assert(statements_model(out@) =~= out0 + seq![]);
            Ok(true)
        },
        Expression::AbstractPrimitive(c) => {
            let copy = c.duplicate();
            proof {
                if c.possibilities.len() > 0 {
                    assert(c@.contains(c.models()[0]));
                }
            }
            match ConformValue::uncertain(copy.possibilities) {
                Ok(u) => {
                    state.set_var(lhs.clone(), u);
                    assert(statements_model(out@) =~= out0 + seq![]);
                    Ok(true)
                },
                Err(e) => {
                    assert(c@ =~= Set::<ValueModel>::empty());
                    Err(e)
                },
            }
        },
        Expression::Join(vars) => {
            let ghost vs = names_model(vars@);
            if vars.len() == 0 {
                return keep(stmt, out);
            }
            let mut i: usize = 0;
            while i < vars.len()
                invariant
                    i <= vars.len(),
                    vs == names_model(vars@),
                    state.wf(),
                    forall|j: int| 0 <= j < i ==> state.scope_map().contains_key(#[trigger] vs[j]),
                    statements_model(out@) == out0,
                    state.scope_map() == sc0,
                    same_frame(*old(state), *state),
                    stmt@.expression == ExpressionModel::Join(vs),
                    sc0 == old(state).scope_map(),
                    out0 == statements_model(old(out)@),
                    vars.len() > 0,
                decreases vars.len() - i,
            {
                if state.lookup_var(vars[i].as_str()).is_none() {
                    assert(!state.scope_map().contains_key(vs[i as int]));
                    return keep(stmt, out);
                }
                i = i + 1;
            }
            let mut acc = match state.lookup_var(vars[0].as_str()) {
                Some(v) => v.duplicate(),
                None => {
                    assert(state.scope_map().contains_key(vs[0]));
                    return keep(stmt, out);
                },
            };
            assert(vs.subrange(0, 1).len() == 1);
            let mut k: usize = 1;
            while k < vars.len()
                invariant
                    1 <= k <= vars.len(),
                    vs == names_model(vars@),
                    state.wf(),
                    forall|j: int| 0 <= j < vars.len() ==> state.scope_map().contains_key(#[trigger] vs[j]),
                    acc.wf(),
                    acc@ == joined(state.scope_map(), vs.subrange(0, k as int)),
                    statements_model(out@) == out0,
                    state.scope_map() == sc0,
                    same_frame(*old(state), *state),
                    stmt@.expression == ExpressionModel::Join(vs),
                    sc0 == old(state).scope_map(),
                    out0 == statements_model(old(out)@),
                decreases vars.len() - k,
            {
                match state.lookup_var(vars[k].as_str()) {
                    Some(v) => {
                        acc = acc.union(v);
                        assert(vs.subrange(0, k + 1).drop_last() =~= vs.subrange(0, k as int));
                    },
                    None => {
                        assert(state.scope_map().contains_key(vs[k as int]));
                        return keep(stmt, out);
                    },
                }
                k = k + 1;
            }
            assert(vs.subrange(0, vars.len() as int) =~= vs);
            state.set_var(lhs.clone(), acc);
            assert(statements_model(out@) =~= out0 + seq![]);
            Ok(true)
        },
        Expression::Tuple(vars) => {
            let ghost vs = names_model(vars@);
            let mut elements: Vec<Value> = Vec::new();
            let mut i: usize = 0;
            while i < vars.len()
                invariant
                    i <= vars.len(),
                    vs == names_model(vars@),
                    state.wf(),
                    state.scope_map() == sc0,
                    elements.len() == i,
                    forall|j: int| 0 <= j < i ==> is_certain_in(sc0, #[trigger] vs[j]),
                    forall|j: int| 0 <= j < i ==> elements[j]@ == sc0[vs[j]].choose(),
                    statements_model(out@) == out0,
                    same_frame(*old(state), *state),
                    stmt@.expression == ExpressionModel::Tuple(vs),
                    sc0 == old(state).scope_map(),
                    out0 == statements_model(old(out)@),
                decreases vars.len() - i,
            {
                let e = match state.lookup_var(vars[i].as_str()) {
                    None => {
                        assert(!is_certain_in(sc0, vs[i as int]));
                        return keep(stmt, out);
                    },
                    Some(v) => match v.as_certain() {
                        None => {
                            assert(!is_certain_in(sc0, vs[i as int]));
                            return keep(stmt, out);
                        },
                        Some(cv) => {
                            proof {
                                lemma_sole(cv@);
                            }
                            cv.duplicate()
                        },
                    },
                };
                elements.push(e);
                i = i + 1;
            }
            let t = Value::Tuple(elements);
            assert(t@ == ValueModel::Tuple(Seq::new(vs.len(), |j: int| sc0[vs[j]].choose()))) by {
                assert(t@->Tuple_0 =~= Seq::new(vs.len(), |j: int| sc0[vs[j]].choose()));
            }
            state.set_var(lhs.clone(), ConformValue::certain(t));
            assert(statements_model(out@) =~= out0 + seq![]);
            Ok(true)
        },
        _ => keep(stmt, out),
    }
}

/// One pass of `family` over the program: each statement is handed to the
/// rule that matches it, and the program becomes what the rules left.
fn rewrite_pass(state: &mut ExecutionState, family: RuleFamily) -> (r: Result<bool, QuasarError>)
    requires
        old(state).wf(),
    ensures
        match pass(statements_model(old(state).program.statements@), old(state).scope_map(), family) {
            PassOutcome::Done { statements, scope, changed } => {
                &&& r == Ok::<bool, QuasarError>(changed)
                &&& final(state).wf()
                &&& statements_model(final(state).program.statements@) == statements
                &&& final(state).scope_map() == scope
                &&& final(state).program.return_var == old(state).program.return_var
                &&& final(state).pending_calls == old(state).pending_calls
                &&& final(state).call_counter == old(state).call_counter
            },
            PassOutcome::Failed(k) => r is Err && error_is(r->Err_0, k),
        },
{
    let ghost input = statements_model(state.program.statements@);
    let ghost sc0 = state.scope_map();
    let mut stmts: Vec<Statement> = Vec::new();
    core::mem::swap(&mut stmts, &mut state.program.statements);
    let ghost mid = *state;
    assert(statements_model(stmts@) == input);
    let mut out: Vec<Statement> = Vec::new();
    let mut changed = false;
    assert(statements_model(out@) =~= seq![]);
    assert(state.scope_map() == sc0);
    assert(input.subrange(0, 0) =~= seq![]);
    let mut i: usize = 0;
    while i < stmts.len()
        invariant
            i <= stmts.len(),
            statements_model(stmts@) == input,
            input == statements_model(old(state).program.statements@),
            sc0 == old(state).scope_map(),
            state.wf(),
            same_frame(mid, *state),
            pass(input.subrange(0, i as int), sc0, family) == (PassOutcome::Done {
                statements: statements_model(out@),
                scope: state.scope_map(),
                changed,
            }),
        decreases stmts.len() - i,
    {
        assert(input.subrange(0, i + 1).drop_last() =~= input.subrange(0, i as int));
        assert(input.subrange(0, i + 1).last() == stmts[i as int]@);
        let ghost sc_i = state.scope_map();
        let fired = match family {
            RuleFamily::Reshaping => apply_reshaping_rule(state, &stmts[i], &mut out),
            RuleFamily::Resolving => apply_resolving_rule(state, &stmts[i], &mut out),
        };
        match fired {
            Ok(c) => {
                changed = changed || c;
            },
            Err(e) => {
                proof {
                    assert(rule(stmts[i as int]@, sc_i, family) is Fail);
                    assert(pass(input.subrange(0, i + 1), sc0, family) == PassOutcome::Failed(
                        rule(stmts[i as int]@, sc_i, family)->Fail_0,
                    ));
                    lemma_failure_sticks(input, sc0, family, (i + 1) as nat);
                    assert(input.subrange(0, stmts.len() as int) =~= input);
                }
                return Err(e);
            },
        }
        i = i + 1;
    }
    assert(input.subrange(0, stmts.len() as int) =~= input);
    state.program.statements = out;
    Ok(changed)
}

/// A pass that fails on a prefix of the program fails on the whole program,
/// with the same kind.
proof fn lemma_failure_sticks(stmts: Seq<StatementModel>, sc: ScopeModel, family: RuleFamily, n: nat)
    requires
        n <= stmts.len(),
        pass(stmts.subrange(0, n as int), sc, family) is Failed,
    ensures
        pass(stmts, sc, family) == pass(stmts.subrange(0, n as int), sc, family),
    decreases stmts.len() - n,
{
    if n < stmts.len() {
        assert(stmts.subrange(0, n as int + 1).drop_last() =~= stmts.subrange(0, n as int));
        lemma_failure_sticks(stmts, sc, family, n + 1);
    } else {
        assert(stmts.subrange(0, n as int) =~= stmts);
    }
}

/// Applies the reshaping rules once over the program: variable
/// substitution, tuple projection, conditional expansion and fold unrolling.
pub fn apply_internal_rules(state: &mut ExecutionState) -> (r: Result<bool, QuasarError>)
    requires
        old(state).wf(),
    ensures
        match pass(statements_model(old(state).program.statements@), old(state).scope_map(), RuleFamily::Reshaping) {
            PassOutcome::Done { statements, scope, changed } => {
                &&& r == Ok::<bool, QuasarError>(changed)
                &&& final(state).wf()
                &&& statements_model(final(state).program.statements@) == statements
                &&& final(state).scope_map() == scope
                &&& final(state).program.return_var == old(state).program.return_var
                &&& final(state).pending_calls == old(state).pending_calls
                &&& final(state).call_counter == old(state).call_counter
            },
            PassOutcome::Failed(k) => r is Err && error_is(r->Err_0, k),
        },
{
    rewrite_pass(state, RuleFamily::Reshaping)
}

/// Applies the resolving rules once over the program: literals, tuple
/// construction and joins.
pub fn evaluate_join(state: &mut ExecutionState) -> (r: Result<bool, QuasarError>)
    requires
        old(state).wf(),
    ensures
        match pass(statements_model(old(state).program.statements@), old(state).scope_map(), RuleFamily::Resolving) {
            PassOutcome::Done { statements, scope, changed } => {
                &&& r == Ok::<bool, QuasarError>(changed)
                &&& final(state).wf()
                &&& statements_model(final(state).program.statements@) == statements
                &&& final(state).scope_map() == scope
                &&& final(state).program.return_var == old(state).program.return_var
                &&& final(state).pending_calls == old(state).pending_calls
                &&& final(state).call_counter == old(state).call_counter
            },
            PassOutcome::Failed(k) => r is Err && error_is(r->Err_0, k),
        },
{
    rewrite_pass(state, RuleFamily::Resolving)
}

/// Whether no rule of either family applies anywhere in `s`'s program.
pub open spec fn quiescent(s: ExecutionState) -> bool {
    let stmts = statements_model(s.program.statements@);
    &&& pass(stmts, s.scope_map(), RuleFamily::Reshaping) == (PassOutcome::Done {
        statements: stmts,
        scope: s.scope_map(),
        changed: false,
    })
    &&& pass(stmts, s.scope_map(), RuleFamily::Resolving) == (PassOutcome::Done {
        statements: stmts,
        scope: s.scope_map(),
        changed: false,
    })
}

/// A pass that reports no change has left the program and the scope as
/// they were.
pub proof fn lemma_unchanged_pass(stmts: Seq<StatementModel>, sc: ScopeModel, family: RuleFamily)
    requires
        pass(stmts, sc, family) matches PassOutcome::Done { changed, .. } && !changed,
    ensures
        pass(stmts, sc, family) == (PassOutcome::Done { statements: stmts, scope: sc, changed: false }),
    decreases stmts.len(),
{
    if stmts.len() > 0 {
        let pre = stmts.drop_last();
        match pass(pre, sc, family) {
            PassOutcome::Done { statements, scope, changed } => {
                if !changed {
                    lemma_unchanged_pass(pre, sc, family);
                }
            },
            PassOutcome::Failed(_) => {},
        }
        assert(pre.push(stmts.last()) =~= stmts);
    } else {
        assert(stmts =~= seq![]);
    }
}

/// What repeated rounds do to a program.
pub enum RoundsOutcome {
    /// A round changed nothing; the program and scope are those it left.
    Settled { statements: Seq<StatementModel>, scope: ScopeModel },
    /// Every round so far changed something; the program and scope are those
    /// the last round left.
    Busy { statements: Seq<StatementModel>, scope: ScopeModel },
    /// A pass failed.
    Failed(FailureKind),
}

/// One round: a reshaping pass, then a resolving pass over what it left.
/// `changed` says whether either pass changed anything.
pub open spec fn round(stmts: Seq<StatementModel>, sc: ScopeModel) -> PassOutcome {
    match pass(stmts, sc, RuleFamily::Reshaping) {
        PassOutcome::Failed(k) => PassOutcome::Failed(k),
        PassOutcome::Done { statements: s1, scope: c1, changed: a } => match pass(s1, c1, RuleFamily::Resolving) {
            PassOutcome::Failed(k) => PassOutcome::Failed(k),
            PassOutcome::Done { statements: s2, scope: c2, changed: b } => PassOutcome::Done {
                statements: s2,
                scope: c2,
                changed: a || b,
            },
        },
    }
}

/// Up to `n` rounds from `stmts` and `sc`, stopping at the first round that
/// changes nothing or fails.
pub open spec fn rounds(stmts: Seq<StatementModel>, sc: ScopeModel, n: nat) -> RoundsOutcome
    decreases n,
{
    if n == 0 {
        RoundsOutcome::Busy { statements: stmts, scope: sc }
    } else {
        match rounds(stmts, sc, (n - 1) as nat) {
            RoundsOutcome::Busy { statements, scope } => match round(statements, scope) {
                PassOutcome::Failed(k) => RoundsOutcome::Failed(k),
                PassOutcome::Done { statements: s, scope: c, changed } => if changed {
                    RoundsOutcome::Busy { statements: s, scope: c }
                } else {
                    RoundsOutcome::Settled { statements: s, scope: c }
                },
            },
            other => other,
        }
    }
}

/// Once rounds have settled or failed, further rounds change nothing.
proof fn lemma_rounds_stick(stmts: Seq<StatementModel>, sc: ScopeModel, n: nat, m: nat)
    requires
        n <= m,
        !(rounds(stmts, sc, n) is Busy),
    ensures
        rounds(stmts, sc, m) == rounds(stmts, sc, n),
    decreases m - n,
{
    if n < m {
        lemma_rounds_stick(stmts, sc, n, (m - 1) as nat);
    }
}

/// Runs a reshaping pass and then a resolving pass, again and again, until
/// a round changes nothing or `max_rounds` rounds have run; the first error
/// of a pass ends the run. Returns whether the program came to rest.
pub fn rewrite_to_fixpoint(state: &mut ExecutionState, max_rounds: usize) -> (r: Result<bool, QuasarError>)
    requires
        old(state).wf(),
    ensures
        match rounds(statements_model(old(state).program.statements@), old(state).scope_map(), max_rounds as nat) {
            RoundsOutcome::Settled { statements, scope } => {
                &&& r == Ok::<bool, QuasarError>(true)
                &&& statements_model(final(state).program.statements@) == statements
                &&& final(state).scope_map() == scope
            },
            RoundsOutcome::Busy { statements, scope } => {
                &&& r == Ok::<bool, QuasarError>(false)
                &&& statements_model(final(state).program.statements@) == statements
                &&& final(state).scope_map() == scope
            },
            RoundsOutcome::Failed(k) => r is Err && error_is(r->Err_0, k),
        },
        r is Ok ==> {
            &&& final(state).wf()
            &&& final(state).program.return_var == old(state).program.return_var
            &&& final(state).pending_calls == old(state).pending_calls
            &&& final(state).call_counter == old(state).call_counter
        },
        r == Ok::<bool, QuasarError>(true) ==> quiescent(*final(state)),
        max_rounds == 0 ==> r == Ok::<bool, QuasarError>(false) && *final(state) == *old(state),
{
    let ghost st0 = statements_model(state.program.statements@);
    let ghost sc0 = state.scope_map();
    let mut round: usize = 0;
    while round < max_rounds
        invariant
            state.wf(),
            state.program.return_var == old(state).program.return_var,
            state.pending_calls == old(state).pending_calls,
            state.call_counter == old(state).call_counter,
            round <= max_rounds,
            round == 0 ==> *state == *old(state),
            st0 == statements_model(old(state).program.statements@),
            sc0 == old(state).scope_map(),
            rounds(st0, sc0, round as nat) == (RoundsOutcome::Busy {
                statements: statements_model(state.program.statements@),
                scope: state.scope_map(),
            }),
        decreases max_rounds - round,
    {
        let ghost s0 = *state;
        let a = match apply_internal_rules(state) {
            Ok(a) => a,
            Err(e) => {
                proof {
                    lemma_rounds_stick(st0, sc0, (round + 1) as nat, max_rounds as nat);
                }
                return Err(e);
            },
        };
        let ghost s1 = *state;
        let b = match evaluate_join(state) {
            Ok(b) => b,
            Err(e) => {
                proof {
                    lemma_rounds_stick(st0, sc0, (round + 1) as nat, max_rounds as nat);
                }
                return Err(e);
            },
        };
        if !a && !b {
            proof {
                let m0 = statements_model(s0.program.statements@);
                let m1 = statements_model(s1.program.statements@);
                lemma_unchanged_pass(m0, s0.scope_map(), RuleFamily::Reshaping);
                lemma_unchanged_pass(m1, s1.scope_map(), RuleFamily::Resolving);
                lemma_rounds_stick(st0, sc0, (round + 1) as nat, max_rounds as nat);
            }
            return Ok(true);
        }
        round = round + 1;
    }
    Ok(false)
}

} // verus!
