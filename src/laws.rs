use vstd::prelude::*;
use crate::ast::{BlockModel, ExpressionModel, StatementModel};
use crate::dispatcher::{awaits, calls_out, count_true, replace_first};
use crate::rewriter::{
    PassOutcome, RuleFamily, RuleOutcome, ScopeModel, acc_before, acc_name, bool_value, else_name, expand,
    expand_with_param, is_certain_in, iter_name, joined, lemma_sole, pass, reshaping_rule, resolving_rule, rule,
    seeded, then_name, tuple_name, unrolled,
};
use crate::state::{call_id_text, decimal, digit_char};
use crate::value::{ConformValue, ValueModel};

verus! {

/// Every well-formed abstract value has at least one possibility.
pub proof fn lemma_possibilities_nonempty(c: ConformValue)
    requires
        c.wf(),
    ensures
        c@.len() >= 1,
        c@.finite(),
{
    c.models().unique_seq_to_set();
}

/// Joining three bound variables gives the same binding whatever their
/// order: `Join([a, b, c])` and `Join([c, a, b])` bind the same value.
pub proof fn lemma_join_order(lhs: Seq<char>, a: Seq<char>, b: Seq<char>, c: Seq<char>, sc: ScopeModel)
    requires
        sc.contains_key(a),
        sc.contains_key(b),
        sc.contains_key(c),
    ensures
        resolving_rule(StatementModel { variable: lhs, expression: ExpressionModel::Join(seq![a, b, c]) }, sc)
            == resolving_rule(StatementModel { variable: lhs, expression: ExpressionModel::Join(seq![c, a, b]) }, sc),
        resolving_rule(StatementModel { variable: lhs, expression: ExpressionModel::Join(seq![a, b, c]) }, sc)
            == (RuleOutcome::Fire { emitted: seq![], scope: sc.insert(lhs, sc[a].union(sc[b]).union(sc[c])) }),
{
    let s1 = seq![a, b, c];
    let s2 = seq![c, a, b];
    assert(s1.drop_last() =~= seq![a, b]);
    assert(seq![a, b].drop_last() =~= seq![a]);
    assert(s2.drop_last() =~= seq![c, a]);
    assert(seq![c, a].drop_last() =~= seq![c]);
    assert(joined(sc, seq![a]) == sc[a]);
    assert(joined(sc, seq![a, b]) == sc[a].union(sc[b]));
    assert(joined(sc, s1) == sc[a].union(sc[b]).union(sc[c]));
    assert(joined(sc, seq![c]) == sc[c]);
    assert(joined(sc, seq![c, a]) == sc[c].union(sc[a]));
    assert(joined(sc, s2) == sc[c].union(sc[a]).union(sc[b]));
    assert(sc[a].union(sc[b]).union(sc[c]) =~= sc[c].union(sc[a]).union(sc[b]));
    assert(forall|i: int| 0 <= i < s1.len() ==> sc.contains_key(#[trigger] s1[i]));
    assert(forall|i: int| 0 <= i < s2.len() ==> sc.contains_key(#[trigger] s2[i]));
}

/// A pass in which no rule applies leaves the program and the scope as
/// they are and reports no change.
pub proof fn lemma_pass_idle(stmts: Seq<StatementModel>, sc: ScopeModel, family: RuleFamily)
    requires
        forall|i: int| 0 <= i < stmts.len() ==> rule(#[trigger] stmts[i], sc, family) is Keep,
    ensures
        pass(stmts, sc, family) == (PassOutcome::Done { statements: stmts, scope: sc, changed: false }),
    decreases stmts.len(),
{
    if stmts.len() > 0 {
        let pre = stmts.drop_last();
        assert forall|i: int| 0 <= i < pre.len() implies rule(#[trigger] pre[i], sc, family) is Keep by {
            assert(pre[i] == stmts[i]);
        }
        lemma_pass_idle(pre, sc, family);
        assert(rule(stmts[stmts.len() - 1], sc, family) is Keep);
        assert(pre.push(stmts.last()) =~= stmts);
    } else {
        assert(stmts =~= seq![]);
    }
}

/// A conditional whose condition may be either boolean expands both
/// branches, each into its own result variable, and then joins them: once
/// both branch results are bound, the conditional's variable is bound to
/// their union.
pub proof fn lemma_if_fans_out(
    lhs: Seq<char>,
    cond: Seq<char>,
    then_block: BlockModel,
    else_block: BlockModel,
    sc: ScopeModel,
    later: ScopeModel,
)
    requires
        sc.contains_key(cond),
        sc[cond] == set![bool_value(true), bool_value(false)],
        later.contains_key(then_name(lhs)),
        later.contains_key(else_name(lhs)),
    ensures
        reshaping_rule(
            StatementModel {
                variable: lhs,
                expression: ExpressionModel::If { condition: cond, then_block, else_block: Some(else_block) },
            },
            sc,
        ) == (RuleOutcome::Fire {
            emitted: expand(then_name(lhs), then_block) + expand(else_name(lhs), else_block) + seq![
                StatementModel {
                    variable: lhs,
                    expression: ExpressionModel::Join(seq![then_name(lhs), else_name(lhs)]),
                },
            ],
            scope: sc,
        }),
        resolving_rule(
            StatementModel {
                variable: lhs,
                expression: ExpressionModel::Join(seq![then_name(lhs), else_name(lhs)]),
            },
            later,
        ) == (RuleOutcome::Fire {
            emitted: seq![],
            scope: later.insert(lhs, later[then_name(lhs)].union(later[else_name(lhs)])),
        }),
{
    assert(set![bool_value(true), bool_value(false)].contains(bool_value(true)));
    assert(set![bool_value(true), bool_value(false)].contains(bool_value(false)));
    let j = seq![then_name(lhs), else_name(lhs)];
    assert(j.drop_last() =~= seq![then_name(lhs)]);
    assert(joined(later, seq![then_name(lhs)]) == later[then_name(lhs)]);
    assert(joined(later, j) == later[then_name(lhs)].union(later[else_name(lhs)]));
    assert(forall|i: int| 0 <= i < j.len() ==> later.contains_key(#[trigger] j[i]));
}

proof fn lemma_decimal_len(n: nat)
    ensures
        decimal(n).len() >= 1,
        n >= 10 ==> decimal(n).len() >= 2,
    decreases n,
{
    if n >= 10 {
        lemma_decimal_len(n / 10);
    }
}

/// Distinct numbers have distinct decimal numerals.
pub proof fn lemma_decimal_injective(a: nat, b: nat)
    requires
        decimal(a) == decimal(b),
    ensures
        a == b,
    decreases a,
{
    lemma_decimal_len(a);
    lemma_decimal_len(b);
    if a < 10 && b < 10 {
        assert(decimal(a)[0] == digit_char(a));
        assert(decimal(b)[0] == digit_char(b));
    } else if a >= 10 && b >= 10 {
        let da = decimal(a);
        let db = decimal(b);
        assert(da.drop_last() =~= decimal(a / 10));
        assert(db.drop_last() =~= decimal(b / 10));
        lemma_decimal_injective(a / 10, b / 10);
        assert(da.last() == digit_char(a % 10));
        assert(db.last() == digit_char(b % 10));
        assert(a % 10 == b % 10);
    }
}

/// Call ids carry the call counter, which each call increases: ids given
/// out under distinct counter values differ, and a later id carries the
/// larger number.
pub proof fn lemma_call_ids_distinct(a: nat, b: nat)
    requires
        a < b,
    ensures
        call_id_text(a) != call_id_text(b),
{
    if call_id_text(a) == call_id_text(b) {
        assert(call_id_text(a).subrange(2, call_id_text(a).len() as int) =~= decimal(a));
        assert(call_id_text(b).subrange(2, call_id_text(b).len() as int) =~= decimal(b));
        lemma_decimal_injective(a, b);
    }
}

proof fn lemma_iter_names_distinct(lhs: Seq<char>, i: nat, j: nat)
    requires
        i != j,
    ensures
        iter_name(lhs, i) != iter_name(lhs, j),
{
    let p = lhs + "_iter_"@;
    if iter_name(lhs, i) == iter_name(lhs, j) {
        assert((p + decimal(i)).subrange(p.len() as int, (p + decimal(i)).len() as int) =~= decimal(i));
        assert((p + decimal(j)).subrange(p.len() as int, (p + decimal(j)).len() as int) =~= decimal(j));
        lemma_decimal_injective(i, j);
    }
}

proof fn lemma_seeded_binds(sc: ScopeModel, lhs: Seq<char>, es: Seq<ValueModel>, n: nat, i: nat)
    requires
        i < n <= es.len(),
    ensures
        seeded(sc, lhs, es, n).contains_key(iter_name(lhs, i)),
        seeded(sc, lhs, es, n)[iter_name(lhs, i)] == set![es[i as int]],
    decreases n,
{
    if i + 1 < n {
        lemma_iter_names_distinct(lhs, i, (n - 1) as nat);
        lemma_seeded_binds(sc, lhs, es, (n - 1) as nat, i);
    }
}

/// Unrolling a fold over a certain list `[x0, ..., xn-1]` from a certain
/// initial value: the element `xi` is bound to its own iteration name; step
/// `i` pairs the accumulator so far (the initial value for the first step,
/// the previous step's result otherwise) with `xi` and runs the block on
/// that pair into a fresh accumulator; the fold's variable reads the last
/// accumulator. So the result is `block(...block(block((init, x0)), x1)..., xn-1)`.
pub proof fn lemma_fold_unrolls(
    lhs: Seq<char>,
    list: Seq<char>,
    initial: Seq<char>,
    block: BlockModel,
    sc: ScopeModel,
    es: Seq<ValueModel>,
)
    requires
        sc.contains_key(list),
        sc[list] == set![ValueModel::List(es)],
        is_certain_in(sc, initial),
    ensures
        reshaping_rule(
            StatementModel { variable: lhs, expression: ExpressionModel::Fold { list, initial, block } },
            sc,
        ) == (RuleOutcome::Fire {
            emitted: unrolled(lhs, es.len(), initial, block).push(
                StatementModel {
                    variable: lhs,
                    expression: ExpressionModel::Variable(acc_before(lhs, initial, es.len())),
                },
            ),
            scope: seeded(sc, lhs, es, es.len()),
        }),
        forall|i: nat| i < es.len() ==> #[trigger] seeded(sc, lhs, es, es.len())[iter_name(lhs, i)] == set![es[i as int]],
        forall|i: nat| i < es.len() ==> #[trigger] unrolled(lhs, i + 1, initial, block) == unrolled(lhs, i, initial, block) + seq![
            StatementModel {
                variable: tuple_name(lhs, i),
                expression: ExpressionModel::Tuple(seq![acc_before(lhs, initial, i), iter_name(lhs, i)]),
            },
        ] + expand_with_param(acc_name(lhs, i), block, tuple_name(lhs, i)),
        es.len() == 0 ==> unrolled(lhs, es.len(), initial, block) == Seq::<StatementModel>::empty()
            && acc_before(lhs, initial, es.len()) == initial,
{
    lemma_sole(ValueModel::List(es));
    assert forall|i: nat| i < es.len() implies #[trigger] seeded(sc, lhs, es, es.len())[iter_name(lhs, i)] == set![es[i as int]] by {
        lemma_seeded_binds(sc, lhs, es, es.len(), i);
    }
    assert forall|i: nat| i < es.len() implies #[trigger] unrolled(lhs, i + 1, initial, block) == unrolled(lhs, i, initial, block) + seq![
        StatementModel {
            variable: tuple_name(lhs, i),
            expression: ExpressionModel::Tuple(seq![acc_before(lhs, initial, i), iter_name(lhs, i)]),
        },
    ] + expand_with_param(acc_name(lhs, i), block, tuple_name(lhs, i)) by {
        assert(((i + 1) - 1) as nat == i);
    }
}

/// A statement that a rule resolves outright (other than a conditional
/// whose branch is missing) is dropped, with nothing put in its place, and
/// its variable is bound in the scope that follows.
pub proof fn lemma_resolved_statement_is_bound(s: StatementModel, sc: ScopeModel, family: RuleFamily)
    requires
        rule(s, sc, family) matches RuleOutcome::Fire { emitted, .. } && emitted.len() == 0,
        !(s.expression is If),
    ensures
        rule(s, sc, family) matches RuleOutcome::Fire { scope, .. } && scope.contains_key(s.variable),
{
}

proof fn lemma_count_after_replace(
    stmts: Seq<StatementModel>,
    p: spec_fn(StatementModel) -> bool,
    q: spec_fn(StatementModel) -> bool,
    new: StatementModel,
)
    requires
        q(new),
        forall|j: int| 0 <= j < stmts.len() ==> !q(stmts[j]),
        exists|j: int| 0 <= j < stmts.len() && p(stmts[j]),
    ensures
        replace_first(stmts, p, new).filter(q).len() == 1,
    decreases stmts.len(),
{
    reveal(Seq::filter);
    if p(stmts[0]) {
        let r = stmts.update(0, new);
        assert(r =~= seq![new] + stmts.drop_first());
        lemma_filter_none(stmts.drop_first(), q);
        lemma_filter_prepend(new, stmts.drop_first(), q);
    } else {
        let rest = stmts.drop_first();
        let j = choose|j: int| 0 <= j < stmts.len() && p(stmts[j]);
        assert(p(rest[j - 1]));
        lemma_count_after_replace(rest, p, q, new);
        lemma_filter_prepend(stmts[0], replace_first(rest, p, new), q);
    }
}

proof fn lemma_filter_none(s: Seq<StatementModel>, q: spec_fn(StatementModel) -> bool)
    requires
        forall|j: int| 0 <= j < s.len() ==> !q(s[j]),
    ensures
        s.filter(q).len() == 0,
    decreases s.len(),
{
    reveal(Seq::filter);
    if s.len() > 0 {
        lemma_filter_none(s.drop_last(), q);
    }
}

proof fn lemma_filter_prepend(x: StatementModel, s: Seq<StatementModel>, q: spec_fn(StatementModel) -> bool)
    ensures
        (seq![x] + s).filter(q).len() == s.filter(q).len() + if q(x) { 1int } else { 0int },
    decreases s.len(),
{
    reveal(Seq::filter);
    let t = seq![x] + s;
    if s.len() == 0 {
        assert(t.drop_last() =~= Seq::<StatementModel>::empty());
        assert(Seq::<StatementModel>::empty().filter(q) =~= Seq::<StatementModel>::empty());
    } else {
        assert(t.drop_last() =~= seq![x] + s.drop_last());
        lemma_filter_prepend(x, s.drop_last(), q);
    }
}

/// Dispatching a call with a fresh id keeps placeholders and pending
/// records paired: afterwards exactly one statement waits on the id and
/// exactly one pending record carries it.
pub proof fn lemma_dispatch_pairs_placeholder(
    stmts: Seq<StatementModel>,
    pending: Seq<(Seq<char>, Seq<char>)>,
    var: Seq<char>,
    function: Seq<char>,
    id: Seq<char>,
)
    requires
        forall|j: int| 0 <= j < stmts.len() ==> !awaits(id)(stmts[j]),
        forall|j: int| 0 <= j < pending.len() ==> pending[j].0 != id,
        exists|j: int| 0 <= j < stmts.len() && calls_out(var, function)(stmts[j]),
    ensures
        replace_first(
            stmts,
            calls_out(var, function),
            StatementModel { variable: var, expression: ExpressionModel::PendingCall(id) },
        ).filter(awaits(id)).len() == 1,
        pending.push((id, var)).filter(|r: (Seq<char>, Seq<char>)| r.0 == id).len() == 1,
{
    let new = StatementModel { variable: var, expression: ExpressionModel::PendingCall(id) };
    lemma_count_after_replace(stmts, calls_out(var, function), awaits(id), new);
    lemma_pending_none(pending, id);
    reveal(Seq::filter);
    assert(pending.push((id, var)).drop_last() =~= pending);
}

proof fn lemma_pending_none(pending: Seq<(Seq<char>, Seq<char>)>, id: Seq<char>)
    requires
        forall|j: int| 0 <= j < pending.len() ==> pending[j].0 != id,
    ensures
        pending.filter(|r: (Seq<char>, Seq<char>)| r.0 == id).len() == 0,
    decreases pending.len(),
{
    reveal(Seq::filter);
    if pending.len() > 0 {
        lemma_pending_none(pending.drop_last(), id);
    }
}

proof fn lemma_count_true_prefix(a: Seq<bool>, m: int, n: int)
    requires
        0 <= m <= n <= a.len(),
    ensures
        count_true(a.subrange(0, m)) <= count_true(a.subrange(0, n)),
    decreases n - m,
{
    if m < n {
        lemma_count_true_prefix(a, m, n - 1);
        assert(a.subrange(0, n).drop_last() =~= a.subrange(0, n - 1));
    }
}

/// In one dispatch the approved calls get ids with strictly increasing
/// numbers, in their order: the id of an approved call carries the counter
/// plus the number of approved calls up to and including it, and that
/// number grows from one approved call to the next.
pub proof fn lemma_dispatch_ids_increase(approved: Seq<bool>, j: int, k: int)
    requires
        0 <= j < k < approved.len(),
        approved[k],
    ensures
        count_true(approved.subrange(0, j + 1)) < count_true(approved.subrange(0, k + 1)),
{
    lemma_count_true_prefix(approved, j + 1, k);
    assert(approved.subrange(0, k + 1).drop_last() =~= approved.subrange(0, k));
}

/// A resolving pass fails only on an abstract literal with no possibility:
/// when every abstract literal of the program has one, the pass succeeds.
pub proof fn lemma_resolving_pass_succeeds(stmts: Seq<StatementModel>, sc: ScopeModel)
    requires
        forall|i: int|
            0 <= i < stmts.len() && (#[trigger] stmts[i]).expression is AbstractPrimitive
                ==> stmts[i].expression->AbstractPrimitive_0 != Set::<ValueModel>::empty(),
    ensures
        pass(stmts, sc, RuleFamily::Resolving) is Done,
    decreases stmts.len(),
{
    if stmts.len() > 0 {
        let pre = stmts.drop_last();
        assert forall|i: int|
            0 <= i < pre.len() && (#[trigger] pre[i]).expression is AbstractPrimitive
                implies pre[i].expression->AbstractPrimitive_0 != Set::<ValueModel>::empty() by {
            assert(pre[i] == stmts[i]);
        }
        lemma_resolving_pass_succeeds(pre, sc);
        assert(stmts.last() == stmts[stmts.len() - 1]);
    }
}

/// Whether a pending record carries `id`.
pub open spec fn carries(id: Seq<char>) -> spec_fn((Seq<char>, Seq<char>)) -> bool {
    |r: (Seq<char>, Seq<char>)| r.0 == id
}

proof fn lemma_count_replace_drop(stmts: Seq<StatementModel>, q: spec_fn(StatementModel) -> bool, new: StatementModel)
    requires
        !q(new),
        exists|j: int| 0 <= j < stmts.len() && q(stmts[j]),
    ensures
        replace_first(stmts, q, new).filter(q).len() + 1 == stmts.filter(q).len(),
    decreases stmts.len(),
{
    let rest = stmts.drop_first();
    assert(stmts =~= seq![stmts[0]] + rest);
    lemma_filter_prepend(stmts[0], rest, q);
    if q(stmts[0]) {
        assert(stmts.update(0, new) =~= seq![new] + rest);
        lemma_filter_prepend(new, rest, q);
    } else {
        let j = choose|j: int| 0 <= j < stmts.len() && q(stmts[j]);
        assert(q(rest[j - 1]));
        lemma_count_replace_drop(rest, q, new);
        lemma_filter_prepend(stmts[0], replace_first(rest, q, new), q);
    }
}

/// Completing a pending call keeps placeholders and records paired: where
/// exactly one statement waits on `id` and exactly one record carries it,
/// rewriting the waiting statement into one that does not wait and removing
/// the record leave none of either.
pub proof fn lemma_completion_unpairs(
    stmts: Seq<StatementModel>,
    pending: Seq<(Seq<char>, Seq<char>)>,
    id: Seq<char>,
    k: int,
    new: StatementModel,
)
    requires
        0 <= k < pending.len(),
        pending[k].0 == id,
        stmts.filter(awaits(id)).len() == 1,
        pending.filter(carries(id)).len() == 1,
        !awaits(id)(new),
    ensures
        replace_first(stmts, awaits(id), new).filter(awaits(id)).len() == 0,
        pending.remove(k).filter(carries(id)).len() == 0,
{
    let q = awaits(id);
    if forall|j: int| 0 <= j < stmts.len() ==> !q(stmts[j]) {
        lemma_filter_none(stmts, q);
    }
    lemma_count_replace_drop(stmts, q, new);
    let a = pending.subrange(0, k);
    let b = pending.subrange(k + 1, pending.len() as int);
    let c = carries(id);
    assert(pending =~= a + seq![pending[k]] + b);
    assert(pending.remove(k) =~= a + b);
    Seq::filter_distributes_over_add(a + seq![pending[k]], b, c);
    Seq::filter_distributes_over_add(a, seq![pending[k]], c);
    Seq::filter_distributes_over_add(a, b, c);
    reveal(Seq::filter);
    assert(seq![pending[k]].drop_last() =~= Seq::<(Seq<char>, Seq<char>)>::empty());
    assert(seq![pending[k]].filter(c).len() == 1);
}

/// A resolving pass over a program whose statements assign distinct
/// variables, none of them bound yet, drops every statement it resolves:
/// no statement left in the program assigns a variable that is bound
/// afterwards.
pub proof fn lemma_resolving_pass_drops_resolved(stmts: Seq<StatementModel>, sc: ScopeModel)
    requires
        forall|i: int, j: int| 0 <= i < j < stmts.len() ==> stmts[i].variable != stmts[j].variable,
        forall|i: int| 0 <= i < stmts.len() ==> !sc.contains_key(#[trigger] stmts[i].variable),
    ensures
        pass(stmts, sc, RuleFamily::Resolving) matches PassOutcome::Done { statements, scope, .. } ==> forall|i: int|
            0 <= i < statements.len() ==> !scope.contains_key(#[trigger] statements[i].variable),
        pass(stmts, sc, RuleFamily::Resolving) matches PassOutcome::Done { statements, scope, .. } ==> {
            &&& forall|k: Seq<char>| #[trigger] scope.contains_key(k) ==> sc.contains_key(k) || exists|j: int|
                0 <= j < stmts.len() && stmts[j].variable == k
            &&& forall|i: int| 0 <= i < statements.len() ==> exists|j: int|
                0 <= j < stmts.len() && #[trigger] statements[i] == stmts[j]
        },
    decreases stmts.len(),
{
    if stmts.len() > 0 {
        let n = stmts.len() - 1;
        let pre = stmts.drop_last();
        assert forall|i: int, j: int| 0 <= i < j < pre.len() implies pre[i].variable != pre[j].variable by {
            assert(pre[i] == stmts[i] && pre[j] == stmts[j]);
        }
        assert forall|i: int| 0 <= i < pre.len() implies !sc.contains_key(#[trigger] pre[i].variable) by {
            assert(pre[i] == stmts[i]);
        }
        lemma_resolving_pass_drops_resolved(pre, sc);
        let last = stmts[n];
        assert(stmts.last() == last);
        match pass(pre, sc, RuleFamily::Resolving) {
            PassOutcome::Done { statements: kept, scope: sc2, changed } => {
                assert(!sc2.contains_key(last.variable)) by {
                    if sc2.contains_key(last.variable) {
                        let j = choose|j: int| 0 <= j < pre.len() && pre[j].variable == last.variable;
                        assert(pre[j] == stmts[j]);
                    }
                }
                assert forall|i: int| 0 <= i < kept.len() implies kept[i].variable != last.variable by {
                    let j = choose|j: int| 0 <= j < pre.len() && #[trigger] kept[i] == pre[j];
                    assert(pre[j] == stmts[j]);
                }
                match resolving_rule(last, sc2) {
                    RuleOutcome::Keep => {
                        let out = kept.push(last);
                        assert forall|i: int| 0 <= i < out.len() implies exists|j: int|
                            0 <= j < stmts.len() && #[trigger] out[i] == stmts[j] by {
                            if i < kept.len() {
                                let j = choose|j: int| 0 <= j < pre.len() && #[trigger] kept[i] == pre[j];
                                assert(out[i] == stmts[j]);
                            } else {
                                assert(out[i] == stmts[n]);
                            }
                        }
                        assert forall|k: Seq<char>| #[trigger] sc2.contains_key(k) implies sc.contains_key(k) || exists|j: int|
                            0 <= j < stmts.len() && stmts[j].variable == k by {
                            if !sc.contains_key(k) {
                                let j = choose|j: int| 0 <= j < pre.len() && pre[j].variable == k;
                                assert(stmts[j].variable == k);
                            }
                        }
                    },
                    RuleOutcome::Fire { emitted, scope: sc3 } => {
                        assert(kept + emitted =~= kept);
                        assert forall|i: int| 0 <= i < kept.len() implies exists|j: int|
                            0 <= j < stmts.len() && #[trigger] kept[i] == stmts[j] by {
                            let j = choose|j: int| 0 <= j < pre.len() && #[trigger] kept[i] == pre[j];
                            assert(kept[i] == stmts[j]);
                        }
                        assert forall|k: Seq<char>| #[trigger] sc3.contains_key(k) implies sc.contains_key(k) || exists|j: int|
                            0 <= j < stmts.len() && stmts[j].variable == k by {
                            if k == last.variable {
                                assert(stmts[n].variable == k);
                            } else if !sc.contains_key(k) {
                                assert(sc2.contains_key(k));
                                let j = choose|j: int| 0 <= j < pre.len() && pre[j].variable == k;
                                assert(stmts[j].variable == k);
                            }
                        }
                    },
                    RuleOutcome::Fail(_) => {},
                }
            },
            PassOutcome::Failed(_) => {},
        }
    }
}

} // verus!
