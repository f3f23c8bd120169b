use vstd::prelude::*;
use crate::ast::Program;
use crate::value::{ConformValue, ValueModel};

verus! {

/// A dispatched external call awaiting its result: its id and the variable
/// that the result is bound to.
#[derive(Debug)]
pub struct PendingCall {
    pub id: String,
    pub assignment_var: String,
}

/// The program being rewritten, the finalized bindings, the calls in flight
/// and the number of calls dispatched so far.
#[derive(Debug)]
pub struct ExecutionState {
    pub program: Program,
    pub pending_calls: Vec<PendingCall>,
    pub scope: Vec<(String, ConformValue)>,
    pub call_counter: usize,
}

/// Bindings as a map from name to possibility set.
pub open spec fn bindings_map(b: Seq<(String, ConformValue)>) -> Map<Seq<char>, Set<ValueModel>> {
    Map::new(
        |k: Seq<char>| exists|i: int| 0 <= i < b.len() && b[i].0@ == k,
        |k: Seq<char>| b[choose|i: int| 0 <= i < b.len() && b[i].0@ == k].1@,
    )
}

/// No name is bound twice, and every bound value is well formed.
pub open spec fn bindings_wf(b: Seq<(String, ConformValue)>) -> bool {
    &&& forall|i: int, j: int| 0 <= i < j < b.len() ==> b[i].0@ != b[j].0@
    &&& forall|i: int| 0 <= i < b.len() ==> (#[trigger] b[i]).1.wf()
}

/// The decimal digit for `d`.
pub open spec fn digit_char(d: nat) -> char {
    if d == 0 { '0' } else if d == 1 { '1' } else if d == 2 { '2' } else if d == 3 { '3' }
    else if d == 4 { '4' } else if d == 5 { '5' } else if d == 6 { '6' } else if d == 7 { '7' }
    else if d == 8 { '8' } else { '9' }
}

/// The decimal numeral for `n`, without leading zeros.
pub open spec fn decimal(n: nat) -> Seq<char>
    decreases n,
{
    if n < 10 {
        seq![digit_char(n)]
    } else {
        decimal(n / 10).push(digit_char(n % 10))
    }
}

/// The id of the `n`-th dispatched call.
pub open spec fn call_id_text(n: nat) -> Seq<char> {
    seq!['?', 'S'] + decimal(n)
}

fn digit_text(d: usize) -> (r: &'static str)
    requires
        d < 10,
    ensures
        r@ == seq![digit_char(d as nat)],
{
    proof {
        reveal_strlit("0");
        reveal_strlit("1");
        reveal_strlit("2");
        reveal_strlit("3");
        reveal_strlit("4");
        reveal_strlit("5");
        reveal_strlit("6");
        reveal_strlit("7");
        reveal_strlit("8");
        reveal_strlit("9");
    }
    if d == 0 { "0" } else if d == 1 { "1" } else if d == 2 { "2" } else if d == 3 { "3" }
    else if d == 4 { "4" } else if d == 5 { "5" } else if d == 6 { "6" } else if d == 7 { "7" }
    else if d == 8 { "8" } else { "9" }
}

/// The decimal numeral for `n`.
pub fn decimal_text(n: usize) -> (r: String)
    ensures
        r@ == decimal(n as nat),
    decreases n,
{
    if n < 10 {
        String::from_str(digit_text(n))
    } else {
        let head = decimal_text(n / 10);
        let r = head.concat(digit_text(n % 10));
        assert(r@ =~= decimal(n as nat));
        r
    }
}

impl ExecutionState {
    /// The finalized bindings.
    pub open spec fn scope_map(&self) -> Map<Seq<char>, Set<ValueModel>> {
        bindings_map(self.scope@)
    }

    pub open spec fn wf(&self) -> bool {
        bindings_wf(self.scope@)
    }

    /// A fresh state for `program`: nothing bound, nothing in flight.
    pub fn new(program: Program) -> (r: ExecutionState)
        ensures
            r.wf(),
            r.program == program,
            r.pending_calls@.len() == 0,
            r.scope_map() == Map::<Seq<char>, Set<ValueModel>>::empty(),
            r.call_counter == 0,
    {
        let r = ExecutionState { program, pending_calls: Vec::new(), scope: Vec::new(), call_counter: 0 };
        assert(r.scope_map() =~= Map::<Seq<char>, Set<ValueModel>>::empty());
        r
    }

    /// Counts one more dispatched call and returns its id `?S<n>`.
    pub fn generate_call_id(&mut self) -> (r: String)
        requires
            old(self).call_counter < usize::MAX,
        ensures
            final(self).call_counter == old(self).call_counter + 1,
            r@ == call_id_text(final(self).call_counter as nat),
            final(self).program == old(self).program,
            final(self).scope == old(self).scope,
            final(self).pending_calls == old(self).pending_calls,
    {
        self.call_counter = self.call_counter + 1;
        proof {
            reveal_strlit("?S");
        }
        let r = String::from_str("?S").concat(decimal_text(self.call_counter).as_str());
        r
    }

    /// Where `name` is bound in the scope list, if it is.
    pub fn find_binding(&self, name: &str) -> (r: Option<usize>)
        ensures
            r is None <==> !self.scope_map().contains_key(name@),
            r matches Some(i) ==> i < self.scope@.len() && self.scope@[i as int].0@ == name@,
    {
        let key = String::from_str(name);
        let mut i: usize = 0;
        while i < self.scope.len()
            invariant
                key@ == name@,
                i <= self.scope@.len(),
                forall|j: int| 0 <= j < i ==> self.scope@[j].0@ != name@,
            decreases self.scope@.len() - i,
        {
            if self.scope[i].0.eq(&key) {
                return Some(i);
            }
            i = i + 1;
        }
        None
    }

    /// The value bound to `name`, if any.
    pub fn lookup_var(&self, name: &str) -> (r: Option<&ConformValue>)
        requires
            self.wf(),
        ensures
            r is Some <==> self.scope_map().contains_key(name@),
            r matches Some(v) ==> v.wf() && v@ == self.scope_map()[name@],
    {
        match self.find_binding(name) {
            Some(i) => {
                let v = &self.scope[i].1;
                proof {
                    let k = choose|k: int| 0 <= k < self.scope@.len() && self.scope@[k].0@ == name@;
                    assert(k == i);
                }
                Some(v)
            },
            None => None,
        }
    }

    /// Binds `name` to `value`, replacing any earlier binding.
    pub fn set_var(&mut self, name: String, value: ConformValue)
        requires
            old(self).wf(),
            value.wf(),
        ensures
            final(self).wf(),
            final(self).scope_map() == old(self).scope_map().insert(name@, value@),
            final(self).program == old(self).program,
            final(self).pending_calls == old(self).pending_calls,
            final(self).call_counter == old(self).call_counter,
    {
        let ghost before = self.scope@;
        let ghost n = name@;
        let ghost v = value@;
        match self.find_binding(name.as_str()) {
            Some(i) => {
                self.scope.set(i, (name, value));
                proof {
                    let after = self.scope@;
                    assert forall|k: Seq<char>| #[trigger] bindings_map(after).contains_key(k)
                        == bindings_map(before).insert(n, v).contains_key(k) by {
                        if k != n {
                            if exists|j: int| 0 <= j < before.len() && before[j].0@ == k {
                                let j = choose|j: int| 0 <= j < before.len() && before[j].0@ == k;
                                assert(after[j].0@ == k);
                            }
                            if exists|j: int| 0 <= j < after.len() && after[j].0@ == k {
                                let j = choose|j: int| 0 <= j < after.len() && after[j].0@ == k;
                                assert(before[j].0@ == k);
                            }
                        } else {
                            assert(after[i as int].0@ == k);
                        }
                    }
                    assert forall|k: Seq<char>| #[trigger] bindings_map(after).contains_key(k)
                        implies bindings_map(after)[k] == bindings_map(before).insert(n, v)[k] by {
                        let ja = choose|j: int| 0 <= j < after.len() && after[j].0@ == k;
                        if k == n {
                            assert(after[i as int].0@ == k);
                        } else {
                            assert(before[ja].0@ == k);
                            let jb = choose|j: int| 0 <= j < before.len() && before[j].0@ == k;
                            assert(jb == ja);
                        }
                    }
                    assert(bindings_map(after) =~= bindings_map(before).insert(n, v));
                }
            },
            None => {
                self.scope.push((name, value));
                proof {
                    let after = self.scope@;
                    assert forall|k: Seq<char>| #[trigger] bindings_map(after).contains_key(k)
                        == bindings_map(before).insert(n, v).contains_key(k) by {
                        if k != n {
                            if exists|j: int| 0 <= j < before.len() && before[j].0@ == k {
                                let j = choose|j: int| 0 <= j < before.len() && before[j].0@ == k;
                                assert(after[j].0@ == k);
                            }
                            if exists|j: int| 0 <= j < after.len() && after[j].0@ == k {
                                let j = choose|j: int| 0 <= j < after.len() && after[j].0@ == k;
                                assert(before[j].0@ == k);
                            }
                        } else {
                            assert(after[before.len() as int].0@ == k);
                        }
                    }
                    assert forall|k: Seq<char>| #[trigger] bindings_map(after).contains_key(k)
                        implies bindings_map(after)[k] == bindings_map(before).insert(n, v)[k] by {
                        let ja = choose|j: int| 0 <= j < after.len() && after[j].0@ == k;
                        if k == n {
                            assert(ja == before.len());
                        } else {
                            assert(before[ja].0@ == k);
                            let jb = choose|j: int| 0 <= j < before.len() && before[j].0@ == k;
                            assert(jb == ja);
                        }
                    }
                    assert(bindings_map(after) =~= bindings_map(before).insert(n, v));
                }
            },
        }
    }
}

} // verus!
