use vstd::prelude::*;
use crate::ast::{Expression, ExpressionModel, Statement, StatementModel, statements_model};
use crate::state::{ExecutionState, PendingCall, call_id_text};
use crate::value::{ConformValue, ValueModel};

verus! {

/// An external call whose argument is bound: the variable its result goes
/// to, the function, and the argument's value when it was found.
#[derive(Debug)]
pub struct DispatchableCall {
    pub assignment_var: String,
    pub function: String,
    pub argument: ConformValue,
}

/// Mathematical form of a dispatchable call.
pub struct CallModel {
    pub assignment_var: Seq<char>,
    pub function: Seq<char>,
    pub argument: Set<ValueModel>,
}

impl View for DispatchableCall {
    type V = CallModel;

    open spec fn view(&self) -> CallModel {
        CallModel { assignment_var: self.assignment_var@, function: self.function@, argument: self.argument@ }
    }
}

/// The external calls among `stmts` whose argument is bound in `sc`, in
/// program order.
pub open spec fn dispatchable(stmts: Seq<StatementModel>, sc: Map<Seq<char>, Set<ValueModel>>) -> Seq<CallModel>
    decreases stmts.len(),
{
    if stmts.len() == 0 {
        seq![]
    } else {
        let rest = dispatchable(stmts.drop_last(), sc);
        let s = stmts.last();
        match s.expression {
            ExpressionModel::ExternalCall { function, argument } => if sc.contains_key(argument) {
                rest.push(CallModel { assignment_var: s.variable, function, argument: sc[argument] })
            } else {
                rest
            },
            _ => rest,
        }
    }
}

/// `stmts` with the first statement that satisfies `p` replaced by `new`;
/// unchanged when none does.
pub open spec fn replace_first(
    stmts: Seq<StatementModel>,
    p: spec_fn(StatementModel) -> bool,
    new: StatementModel,
) -> Seq<StatementModel>
    decreases stmts.len(),
{
    if stmts.len() == 0 {
        stmts
    } else if p(stmts[0]) {
        stmts.update(0, new)
    } else {
        seq![stmts[0]] + replace_first(stmts.drop_first(), p, new)
    }
}

/// Whether `s` assigns `var` the result of an external call of `function`.
pub open spec fn calls_out(var: Seq<char>, function: Seq<char>) -> spec_fn(StatementModel) -> bool {
    |s: StatementModel|
        s.variable == var && s.expression is ExternalCall && s.expression->ExternalCall_function == function
}

/// Whether `s` waits on the call `id`.
pub open spec fn awaits(id: Seq<char>) -> spec_fn(StatementModel) -> bool {
    |s: StatementModel| s.expression == ExpressionModel::PendingCall(id)
}

proof fn lemma_replace_at(
    stmts: Seq<StatementModel>,
    p: spec_fn(StatementModel) -> bool,
    new: StatementModel,
    i: int,
)
    requires
        0 <= i < stmts.len(),
        p(stmts[i]),
        forall|j: int| 0 <= j < i ==> !p(stmts[j]),
    ensures
        replace_first(stmts, p, new) == stmts.update(i, new),
    decreases i,
{
    if i > 0 {
        assert(!p(stmts[0]));
        let rest = stmts.drop_first();
        assert forall|j: int| 0 <= j < i - 1 implies !p(rest[j]) by {
            assert(rest[j] == stmts[j + 1]);
        }
        lemma_replace_at(rest, p, new, i - 1);
        assert(seq![stmts[0]] + rest.update(i - 1, new) =~= stmts.update(i, new));
    }
}

proof fn lemma_replace_none(stmts: Seq<StatementModel>, p: spec_fn(StatementModel) -> bool, new: StatementModel)
    requires
        forall|j: int| 0 <= j < stmts.len() ==> !p(stmts[j]),
    ensures
        replace_first(stmts, p, new) == stmts,
    decreases stmts.len(),
{
    if stmts.len() > 0 {
        let rest = stmts.drop_first();
        assert forall|j: int| 0 <= j < rest.len() implies !p(rest[j]) by {
            assert(rest[j] == stmts[j + 1]);
        }
        lemma_replace_none(rest, p, new);
        assert(seq![stmts[0]] + rest =~= stmts);
    }
}

/// The views of a list of pending calls: id and variable.
pub open spec fn pending_model(p: Seq<PendingCall>) -> Seq<(Seq<char>, Seq<char>)> {
    p.map_values(|c: PendingCall| (c.id@, c.assignment_var@))
}

/// Finds the external calls whose argument is bound in scope.
pub fn find_dispatchable_calls(state: &ExecutionState) -> (r: Vec<DispatchableCall>)
    requires
        state.wf(),
    ensures
        r@.map_values(|c: DispatchableCall| c@) == dispatchable(statements_model(state.program.statements@), state.scope_map()),
        forall|i: int| 0 <= i < r.len() ==> (#[trigger] r[i]).argument.wf(),
{
    let ghost all = statements_model(state.program.statements@);
    let mut calls: Vec<DispatchableCall> = Vec::new();
    let mut i: usize = 0;
    while i < state.program.statements.len()
        invariant
            i <= state.program.statements.len(),
            all == statements_model(state.program.statements@),
            state.wf(),
            calls@.map_values(|c: DispatchableCall| c@) == dispatchable(all.subrange(0, i as int), state.scope_map()),
            forall|j: int| 0 <= j < calls.len() ==> (#[trigger] calls[j]).argument.wf(),
        decreases state.program.statements.len() - i,
    {
        let stmt = &state.program.statements[i];
        assert(all.subrange(0, i + 1).drop_last() =~= all.subrange(0, i as int));
        assert(all.subrange(0, i + 1).last() == stmt@);
        let ghost before = calls@.map_values(|c: DispatchableCall| c@);
        match &stmt.expression {
            Expression::ExternalCall { function, argument } => {
                match state.lookup_var(argument.as_str()) {
                    Some(v) => {
                        let c = DispatchableCall {
                            assignment_var: stmt.variable.clone(),
                            function: function.clone(),
                            argument: v.duplicate(),
                        };
                        calls.push(c);
                        assert(calls@.map_values(|c: DispatchableCall| c@) =~= before.push(c@));
                    },
                    None => {},
                }
            },
            _ => {},
        }
        i = i + 1;
    }
    assert(all.subrange(0, state.program.statements.len() as int) =~= all);
    calls
}

/// Records `call` as dispatched: allocates the next call id, adds a pending
/// call for it, and makes the first external-call statement that assigns
/// the call's variable by a call of the call's function wait on that id.
/// Returns the id.
pub fn dispatch_call(state: &mut ExecutionState, call: &DispatchableCall) -> (r: String)
    requires
        old(state).call_counter < usize::MAX,
    ensures
        final(state).call_counter == old(state).call_counter + 1,
        r@ == call_id_text(final(state).call_counter as nat),
        pending_model(final(state).pending_calls@) == pending_model(old(state).pending_calls@).push(
            (r@, call.assignment_var@),
        ),
        statements_model(final(state).program.statements@) == replace_first(
            statements_model(old(state).program.statements@),
            calls_out(call.assignment_var@, call.function@),
            StatementModel { variable: call.assignment_var@, expression: ExpressionModel::PendingCall(r@) },
        ),
        final(state).program.return_var == old(state).program.return_var,
        final(state).scope == old(state).scope,
{
    let id = state.generate_call_id();
    let ghost before = pending_model(state.pending_calls@);
    let pc = PendingCall { id: id.clone(), assignment_var: call.assignment_var.clone() };
    state.pending_calls.push(pc);
    assert(pending_model(state.pending_calls@) =~= before.push((id@, call.assignment_var@)));
    let ghost stmts = statements_model(state.program.statements@);
    let ghost p = calls_out(call.assignment_var@, call.function@);
    let ghost new = StatementModel { variable: call.assignment_var@, expression: ExpressionModel::PendingCall(id@) };
    let mut i: usize = 0;
    while i < state.program.statements.len()
        invariant
            i <= state.program.statements.len(),
            stmts == statements_model(state.program.statements@),
            p == calls_out(call.assignment_var@, call.function@),
            forall|j: int| 0 <= j < i ==> !p(stmts[j]),
            new == (StatementModel { variable: call.assignment_var@, expression: ExpressionModel::PendingCall(id@) }),
            stmts == statements_model(old(state).program.statements@),
            state.call_counter == old(state).call_counter + 1,
            id@ == call_id_text(state.call_counter as nat),
            pending_model(state.pending_calls@) == pending_model(old(state).pending_calls@).push(
                (id@, call.assignment_var@),
            ),
            state.scope == old(state).scope,
            state.program.return_var == old(state).program.return_var,
        decreases state.program.statements.len() - i,
    {
        let hit = state.program.statements[i].variable.eq(&call.assignment_var) && match &state.program.statements[i].expression {
            Expression::ExternalCall { function, .. } => function.eq(&call.function),
            _ => false,
        };
        if hit {
            let s = Statement { variable: call.assignment_var.clone(), expression: Expression::PendingCall(id.clone()) };
            state.program.statements.set(i, s);
            proof {
                lemma_replace_at(stmts, p, new, i as int);
                assert(statements_model(state.program.statements@) =~= stmts.update(i as int, new));
            }
            return id;
        }
        i = i + 1;
    }
    proof {
        lemma_replace_none(stmts, p, new);
    }
    id
}

/// Splices in the result of the pending call `id`: the call leaves the
/// pending list, its variable is bound to `result`, and the first statement
/// waiting on it reads that variable instead. Returns whether a statement
/// was rewritten; a call that is not pending changes nothing.
pub fn complete_call(state: &mut ExecutionState, id: &String, result: ConformValue) -> (r: bool)
    requires
        old(state).wf(),
        result.wf(),
    ensures
        final(state).wf(),
        final(state).call_counter == old(state).call_counter,
        final(state).program.return_var == old(state).program.return_var,
        match pending_index(pending_model(old(state).pending_calls@), id@) {
            None => *final(state) == *old(state) && !r,
            Some(k) => {
                let var = old(state).pending_calls@[k].assignment_var@;
                let stmts = statements_model(old(state).program.statements@);
                &&& pending_model(final(state).pending_calls@) == pending_model(old(state).pending_calls@).remove(k)
                &&& final(state).scope_map() == old(state).scope_map().insert(var, result@)
                &&& statements_model(final(state).program.statements@) == replace_first(
                    stmts,
                    awaits(id@),
                    StatementModel { variable: stmts.filter(awaits(id@)).first().variable, expression: ExpressionModel::Variable(var) },
                )
                &&& r == (stmts.filter(awaits(id@)).len() > 0)
            },
        },
{
    let ghost pm = pending_model(state.pending_calls@);
    let k = match find_pending(state, id) {
        Some(k) => k,
        None => {
            proof {
                lemma_pending_index_none(pm, id@);
            }
            return false;
        },
    };
    proof {
        lemma_pending_index_at(pm, id@, k as int);
    }
    let pc = state.pending_calls.remove(k);
    assert(pending_model(state.pending_calls@) =~= pm.remove(k as int));
    let var = pc.assignment_var;
    state.set_var(var.clone(), result);
    let ghost stmts = statements_model(state.program.statements@);
    let ghost p = awaits(id@);
    let mut i: usize = 0;
    while i < state.program.statements.len()
        invariant
            i <= state.program.statements.len(),
            stmts == statements_model(state.program.statements@),
            p == awaits(id@),
            forall|j: int| 0 <= j < i ==> !p(stmts[j]),
            stmts == statements_model(old(state).program.statements@),
            state.wf(),
            state.call_counter == old(state).call_counter,
            state.program.return_var == old(state).program.return_var,
            pending_model(state.pending_calls@) == pm.remove(k as int),
            state.scope_map() == old(state).scope_map().insert(old(state).pending_calls@[k as int].assignment_var@, result@),
            var@ == old(state).pending_calls@[k as int].assignment_var@,
            pm == pending_model(old(state).pending_calls@),
            pending_index(pm, id@) == Some(k as int),
        decreases state.program.statements.len() - i,
    {
        let waits = match &state.program.statements[i].expression {
            Expression::PendingCall(w) => w.eq(id),
            _ => false,
        };
        if waits {
            let ghost new = StatementModel { variable: stmts[i as int].variable, expression: ExpressionModel::Variable(var@) };
            let lhs = state.program.statements[i].variable.clone();
            let s = Statement { variable: lhs, expression: Expression::Variable(var) };
            state.program.statements.set(i, s);
            proof {
                lemma_replace_at(stmts, p, new, i as int);
                lemma_filter_first(stmts, p, i as int);
                assert(statements_model(state.program.statements@) =~= stmts.update(i as int, new));
            }
            return true;
        }
        i = i + 1;
    }
    proof {
        let ghost new = StatementModel { variable: stmts.filter(p).first().variable, expression: ExpressionModel::Variable(var@) };
        lemma_replace_none(stmts, p, new);
        lemma_filter_empty(stmts, p);
    }
    false
}

fn find_pending(state: &ExecutionState, id: &String) -> (r: Option<usize>)
    ensures
        r is None ==> forall|j: int| 0 <= j < state.pending_calls.len() ==> state.pending_calls@[j].id@ != id@,
        r matches Some(k) ==> k < state.pending_calls.len() && state.pending_calls@[k as int].id@ == id@
            && forall|j: int| 0 <= j < k ==> state.pending_calls@[j].id@ != id@,
{
    let mut k: usize = 0;
    while k < state.pending_calls.len()
        invariant
            k <= state.pending_calls.len(),
            forall|j: int| 0 <= j < k ==> state.pending_calls@[j].id@ != id@,
        decreases state.pending_calls.len() - k,
    {
        if state.pending_calls[k].id.eq(id) {
            return Some(k);
        }
        k = k + 1;
    }
    None
}

/// The position of the pending call `id`, if any.
pub open spec fn pending_index(pm: Seq<(Seq<char>, Seq<char>)>, id: Seq<char>) -> Option<int> {
    if exists|k: int| 0 <= k < pm.len() && pm[k].0 == id {
        Some(choose|k: int| 0 <= k < pm.len() && pm[k].0 == id && forall|j: int| 0 <= j < k ==> pm[j].0 != id)
    } else {
        None
    }
}

proof fn lemma_pending_index_none(pm: Seq<(Seq<char>, Seq<char>)>, id: Seq<char>)
    requires
        forall|j: int| 0 <= j < pm.len() ==> pm[j].0 != id,
    ensures
        pending_index(pm, id) is None,
{
}

proof fn lemma_pending_index_at(pm: Seq<(Seq<char>, Seq<char>)>, id: Seq<char>, k: int)
    requires
        0 <= k < pm.len(),
        pm[k].0 == id,
        forall|j: int| 0 <= j < k ==> pm[j].0 != id,
    ensures
        pending_index(pm, id) == Some(k),
{
    assert(0 <= k < pm.len() && pm[k].0 == id && forall|j: int| 0 <= j < k ==> pm[j].0 != id);
    let c = choose|c: int| 0 <= c < pm.len() && pm[c].0 == id && forall|j: int| 0 <= j < c ==> pm[j].0 != id;
    if c < k {
        assert(pm[c].0 != id);
    }
    if c > k {
        assert(pm[k].0 != id);
    }
}

proof fn lemma_filter_first(s: Seq<StatementModel>, p: spec_fn(StatementModel) -> bool, i: int)
    requires
        0 <= i < s.len(),
        p(s[i]),
        forall|j: int| 0 <= j < i ==> !p(s[j]),
    ensures
        s.filter(p).len() > 0,
        s.filter(p).first() == s[i],
    decreases s.len(),
{
    reveal(Seq::filter);
    if i < s.len() - 1 {
        lemma_filter_first(s.drop_last(), p, i);
        assert(s.drop_last().filter(p).len() > 0);
    } else {
        let pre = s.drop_last();
        assert forall|j: int| 0 <= j < pre.len() implies !p(pre[j]) by {}
        lemma_filter_empty(pre, p);
    }
}

proof fn lemma_filter_empty(s: Seq<StatementModel>, p: spec_fn(StatementModel) -> bool)
    requires
        forall|j: int| 0 <= j < s.len() ==> !p(s[j]),
    ensures
        s.filter(p).len() == 0,
    decreases s.len(),
{
    reveal(Seq::filter);
    if s.len() > 0 {
        lemma_filter_empty(s.drop_last(), p);
    }
}

/// How many of `a` are true.
pub open spec fn count_true(a: Seq<bool>) -> nat
    decreases a.len(),
{
    if a.len() == 0 {
        0
    } else {
        count_true(a.drop_last()) + if a.last() { 1nat } else { 0nat }
    }
}

/// The program after dispatching, in order, the calls that `approved`
/// marks, with call numbers counted on from `c`.
pub open spec fn dispatched_statements(
    stmts: Seq<StatementModel>,
    calls: Seq<CallModel>,
    approved: Seq<bool>,
    c: nat,
) -> Seq<StatementModel>
    decreases calls.len(),
{
    if calls.len() == 0 || approved.len() != calls.len() {
        stmts
    } else {
        let prev = dispatched_statements(stmts, calls.drop_last(), approved.drop_last(), c);
        if approved.last() {
            let var = calls.last().assignment_var;
            replace_first(
                prev,
                calls_out(var, calls.last().function),
                StatementModel {
                    variable: var,
                    expression: ExpressionModel::PendingCall(call_id_text(c + count_true(approved))),
                },
            )
        } else {
            prev
        }
    }
}

/// The pending calls recorded by the same dispatch.
pub open spec fn dispatched_pending(calls: Seq<CallModel>, approved: Seq<bool>, c: nat) -> Seq<(Seq<char>, Seq<char>)>
    decreases calls.len(),
{
    if calls.len() == 0 || approved.len() != calls.len() {
        seq![]
    } else {
        let prev = dispatched_pending(calls.drop_last(), approved.drop_last(), c);
        if approved.last() {
            prev.push((call_id_text(c + count_true(approved)), calls.last().assignment_var))
        } else {
            prev
        }
    }
}

/// Dispatches each call that `approved` marks, in order, as
/// `dispatch_call` does; a rejected call is left as it stands. Returns the
/// id given to each call, or `None` where it was rejected.
pub fn dispatch_calls(state: &mut ExecutionState, calls: &Vec<DispatchableCall>, approved: &Vec<bool>) -> (r: Vec<Option<String>>)
    requires
        calls.len() == approved.len(),
        old(state).call_counter + calls.len() <= usize::MAX,
    ensures
        r.len() == calls.len(),
        forall|j: int| 0 <= j < r.len() ==> (r[j] is Some <==> approved[j]),
        forall|j: int| 0 <= j < r.len() && approved[j] ==> r[j]->Some_0@ == call_id_text(
            (old(state).call_counter + count_true(approved@.subrange(0, j + 1))) as nat,
        ),
        final(state).call_counter == old(state).call_counter + count_true(approved@),
        pending_model(final(state).pending_calls@) == pending_model(old(state).pending_calls@) + dispatched_pending(
            calls@.map_values(|c: DispatchableCall| c@),
            approved@,
            old(state).call_counter as nat,
        ),
        statements_model(final(state).program.statements@) == dispatched_statements(
            statements_model(old(state).program.statements@),
            calls@.map_values(|c: DispatchableCall| c@),
            approved@,
            old(state).call_counter as nat,
        ),
        final(state).program.return_var == old(state).program.return_var,
        final(state).scope == old(state).scope,
{
    let ghost cm = calls@.map_values(|c: DispatchableCall| c@);
    let ghost c0 = state.call_counter as nat;
    let ghost s0 = statements_model(state.program.statements@);
    let ghost p0 = pending_model(state.pending_calls@);
    let mut ids: Vec<Option<String>> = Vec::new();
    let mut i: usize = 0;
    assert(cm.subrange(0, 0) =~= seq![]);
    assert(approved@.subrange(0, 0) =~= seq![]);
    assert(p0 + seq![] =~= p0);
    while i < calls.len()
        invariant
            i <= calls.len(),
            calls.len() == approved.len(),
            cm == calls@.map_values(|c: DispatchableCall| c@),
            c0 == old(state).call_counter,
            s0 == statements_model(old(state).program.statements@),
            p0 == pending_model(old(state).pending_calls@),
            c0 + calls.len() <= usize::MAX,
            state.call_counter == c0 + count_true(approved@.subrange(0, i as int)),
            count_true(approved@.subrange(0, i as int)) <= i,
            ids.len() == i,
            forall|j: int| 0 <= j < i ==> (ids[j] is Some <==> approved[j]),
            forall|j: int| 0 <= j < i && approved[j] ==> ids[j]->Some_0@ == call_id_text(
                (c0 + count_true(approved@.subrange(0, j + 1))) as nat,
            ),
            pending_model(state.pending_calls@) == p0 + dispatched_pending(
                cm.subrange(0, i as int),
                approved@.subrange(0, i as int),
                c0,
            ),
            statements_model(state.program.statements@) == dispatched_statements(
                s0,
                cm.subrange(0, i as int),
                approved@.subrange(0, i as int),
                c0,
            ),
            state.program.return_var == old(state).program.return_var,
            state.scope == old(state).scope,
        decreases calls.len() - i,
    {
        let ghost ai = approved@.subrange(0, i + 1);
        let ghost ci = cm.subrange(0, i + 1);
        assert(ai.drop_last() =~= approved@.subrange(0, i as int));
        assert(ci.drop_last() =~= cm.subrange(0, i as int));
        assert(ci.last() == calls[i as int]@);
        if approved[i] {
            let id = dispatch_call(state, &calls[i]);
            assert(pending_model(state.pending_calls@) =~= p0 + dispatched_pending(ci, ai, c0));
            ids.push(Some(id));
        } else {
            ids.push(None);
        }
        i = i + 1;
    }
    assert(cm.subrange(0, calls.len() as int) =~= cm);
    assert(approved@.subrange(0, calls.len() as int) =~= approved@);
    ids
}

/// Whether execution is over: nothing in flight and nothing left to
/// dispatch.
pub fn is_finished(state: &ExecutionState) -> (r: bool)
    requires
        state.wf(),
    ensures
        r == (state.pending_calls.len() == 0 && dispatchable(
            statements_model(state.program.statements@),
            state.scope_map(),
        ).len() == 0),
{
    if state.pending_calls.len() != 0 {
        return false;
    }
    let calls = find_dispatchable_calls(state);
    calls.len() == 0
}

} // verus!
