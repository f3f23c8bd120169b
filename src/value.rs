use vstd::prelude::*;
use crate::error::QuasarError;

verus! {

/// Mathematical form of a primitive.
pub enum PrimitiveModel {
    Boolean(bool),
    Integer(i64),
    Float(u64),
    Text(Seq<char>),
    Null,
}

/// Mathematical form of a concrete value.
pub enum ValueModel {
    Primitive(PrimitiveModel),
    List(Seq<ValueModel>),
    Tuple(Seq<ValueModel>),
}

/// A primitive. A float is held by its IEEE-754 bit pattern, so two floats
/// are equal exactly when their patterns are; build floats with
/// `PrimitiveValue::float_from_bits`, which gives every NaN one pattern and
/// -0.0 the pattern of 0.0, so that equal floats compare equal.
#[derive(Debug)]
pub enum PrimitiveValue {
    Boolean(bool),
    Integer(i64),
    Float(u64),
    String(String),
    Null,
}

/// A concrete value: a primitive, a list or a tuple.
#[derive(Debug)]
pub enum Value {
    Primitive(PrimitiveValue),
    List(Vec<Value>),
    Tuple(Vec<Value>),
}

impl View for PrimitiveValue {
    type V = PrimitiveModel;

    open spec fn view(&self) -> PrimitiveModel {
        match self {
            PrimitiveValue::Boolean(b) => PrimitiveModel::Boolean(*b),
            PrimitiveValue::Integer(i) => PrimitiveModel::Integer(*i),
            PrimitiveValue::Float(f) => PrimitiveModel::Float(*f),
            PrimitiveValue::String(s) => PrimitiveModel::Text(s@),
            PrimitiveValue::Null => PrimitiveModel::Null,
        }
    }

}

/// The pattern a float is held by: every NaN becomes the one quiet NaN and
/// -0.0 becomes 0.0; other patterns stay as they are.
pub open spec fn canonical_float_bits(b: u64) -> u64 {
    if b & 0x7ff0_0000_0000_0000u64 == 0x7ff0_0000_0000_0000u64 && b & 0x000f_ffff_ffff_ffffu64 != 0 {
        0x7ff8_0000_0000_0000u64
    } else if b == 0x8000_0000_0000_0000u64 {
        0
    } else {
        b
    }
}

impl PrimitiveValue {
    /// The float whose IEEE-754 bit pattern is `bits`, in canonical form.
    pub fn float_from_bits(bits: u64) -> (r: PrimitiveValue)
        ensures
            r@ == PrimitiveModel::Float(canonical_float_bits(bits)),
    {
        if bits & 0x7ff0_0000_0000_0000u64 == 0x7ff0_0000_0000_0000u64 && bits & 0x000f_ffff_ffff_ffffu64 != 0 {
            PrimitiveValue::Float(0x7ff8_0000_0000_0000u64)
        } else if bits == 0x8000_0000_0000_0000u64 {
            PrimitiveValue::Float(0)
        } else {
            PrimitiveValue::Float(bits)
        }
    }

    /// Structural equality.
    pub fn same_as(&self, other: &PrimitiveValue) -> (r: bool)
        ensures
            r == (self@ == other@),
    {
        match self {
            PrimitiveValue::Boolean(a) => match other {
                PrimitiveValue::Boolean(b) => *a == *b,
                _ => false,
            },
            PrimitiveValue::Integer(a) => match other {
                PrimitiveValue::Integer(b) => *a == *b,
                _ => false,
            },
            PrimitiveValue::Float(a) => match other {
                PrimitiveValue::Float(b) => *a == *b,
                _ => false,
            },
            PrimitiveValue::String(a) => match other {
                PrimitiveValue::String(b) => a.eq(b),
                _ => false,
            },
            PrimitiveValue::Null => match other {
                PrimitiveValue::Null => true,
                _ => false,
            },
        }
    }

    /// A copy with the same mathematical form.
    pub fn duplicate(&self) -> (r: PrimitiveValue)
        ensures
            r@ == self@,
    {
        match self {
            PrimitiveValue::Boolean(b) => PrimitiveValue::Boolean(*b),
            PrimitiveValue::Integer(i) => PrimitiveValue::Integer(*i),
            PrimitiveValue::Float(f) => PrimitiveValue::Float(*f),
            PrimitiveValue::String(s) => PrimitiveValue::String(s.clone()),
            PrimitiveValue::Null => PrimitiveValue::Null,
        }
    }
}

/// Mathematical form of a value.
pub open spec fn value_model(v: Value) -> ValueModel
    decreases v,
{
    match v {
        Value::Primitive(p) => ValueModel::Primitive(p@),
        Value::List(items) => ValueModel::List(
            Seq::new(items.len() as nat, |i: int| if 0 <= i < items.len() { value_model(items[i]) } else { arbitrary() }),
        ),
        Value::Tuple(items) => ValueModel::Tuple(
            Seq::new(items.len() as nat, |i: int| if 0 <= i < items.len() { value_model(items[i]) } else { arbitrary() }),
        ),
    }
}

impl View for Value {
    type V = ValueModel;

    open spec fn view(&self) -> ValueModel {
        value_model(*self)
    }
}

impl Value {
    /// Structural equality.
    pub fn same_as(&self, other: &Value) -> (r: bool)
        ensures
            r == (self@ == other@),
        decreases self,
    {
        match self {
            Value::Primitive(a) => match other {
                Value::Primitive(b) => {
                    let r = a.same_as(b);
                    assert(self@ == ValueModel::Primitive(a@));
                    assert(other@ == ValueModel::Primitive(b@));
                    assert(r == (self@ == other@));
                    r
                },
                _ => {
                    assert(!(other@ is Primitive));
                    false
                },
            },
            Value::List(a) => match other {
                Value::List(b) => {
                    let r = Value::same_items(self, a, b);
                    proof {
                        assert(self@ is List && other@ is List);
                        if r {
                            assert(self@->List_0 =~= other@->List_0);
                            assert(self@ == other@);
                        } else if a.len() == b.len() {
                            assert(exists|j: int| 0 <= j < a.len() && a[j]@ != b[j]@);
                            let j = choose|j: int| 0 <= j < a.len() && a[j]@ != b[j]@;
                            assert(self@->List_0[j] == a[j]@);
                            assert(other@->List_0[j] == b[j]@);
                        } else {
                            assert(self@->List_0.len() == a.len());
                            assert(other@->List_0.len() == b.len());
                        }
                        assert(r == (self@ == other@));
                    }
                    r
                },
                _ => false,
            },
            Value::Tuple(a) => match other {
                Value::Tuple(b) => {
                    let r = Value::same_items(self, a, b);
                    proof {
                        assert(self@ is Tuple && other@ is Tuple);
                        if r {
                            assert(self@->Tuple_0 =~= other@->Tuple_0);
                            assert(self@ == other@);
                        } else if a.len() == b.len() {
                            assert(exists|j: int| 0 <= j < a.len() && a[j]@ != b[j]@);
                            let j = choose|j: int| 0 <= j < a.len() && a[j]@ != b[j]@;
                            assert(self@->Tuple_0[j] == a[j]@);
                            assert(other@->Tuple_0[j] == b[j]@);
                        } else {
                            assert(self@->Tuple_0.len() == a.len());
                            assert(other@->Tuple_0.len() == b.len());
                        }
                    }
                    r
                },
                _ => false,
            },
        }
    }

    fn same_items(whole: &Value, a: &Vec<Value>, b: &Vec<Value>) -> (r: bool)
        requires
            whole matches Value::List(x) ==> x == a,
            whole matches Value::Tuple(x) ==> x == a,
            !(whole is Primitive),
        ensures
            r == (a.len() == b.len() && forall|j: int| 0 <= j < a.len() ==> a[j]@ == b[j]@),
        decreases whole, 0nat,
    {
        if a.len() != b.len() {
            return false;
        }
        let mut i: usize = 0;
        while i < a.len()
            invariant
                a.len() == b.len(),
                i <= a.len(),
                forall|j: int| 0 <= j < i ==> a[j]@ == b[j]@,
                whole matches Value::List(x) ==> x == a,
                whole matches Value::Tuple(x) ==> x == a,
                !(whole is Primitive),
            decreases a.len() - i,
        {
            proof {
                assert(decreases_to!(*whole => a[i as int]));
            }
            if !a[i].same_as(&b[i]) {
                return false;
            }
            i = i + 1;
        }
        true
    }

    /// A copy with the same mathematical form.
    pub fn duplicate(&self) -> (r: Value)
        ensures
            r@ == self@,
        decreases self,
    {
        match self {
            Value::Primitive(p) => Value::Primitive(p.duplicate()),
            Value::List(a) => {
                let r = Value::List(Value::duplicate_items(self, a));
                assert(r@->List_0 =~= self@->List_0);
                r
            },
            Value::Tuple(a) => {
                let r = Value::Tuple(Value::duplicate_items(self, a));
                assert(r@->Tuple_0 =~= self@->Tuple_0);
                r
            },
        }
    }
    fn duplicate_items(whole: &Value, a: &Vec<Value>) -> (r: Vec<Value>)
        requires
            whole matches Value::List(x) ==> x == a,
            whole matches Value::Tuple(x) ==> x == a,
            !(whole is Primitive),
        ensures
            r.len() == a.len(),
            forall|j: int| 0 <= j < a.len() ==> r[j]@ == a[j]@,
        decreases whole, 0nat,
    {
        let mut r: Vec<Value> = Vec::new();
        let mut i: usize = 0;
        while i < a.len()
            invariant
                i <= a.len(),
                r.len() == i,
                forall|j: int| 0 <= j < i ==> r[j]@ == a[j]@,
                whole matches Value::List(x) ==> x == a,
                whole matches Value::Tuple(x) ==> x == a,
                !(whole is Primitive),
            decreases a.len() - i,
        {
            proof {
                assert(decreases_to!(*whole => a[i as int]));
            }
            let d = a[i].duplicate();
            r.push(d);
            i = i + 1;
        }
        r
    }
}

/// An abstract value: a non-empty set of possible concrete values. The
/// possibilities are held without repetition.
#[derive(Debug)]
pub struct ConformValue {
    pub possibilities: Vec<Value>,
}

impl View for ConformValue {
    type V = Set<ValueModel>;

    open spec fn view(&self) -> Set<ValueModel> {
        self.models().to_set()
    }
}

impl ConformValue {
    /// The possibilities' forms, in the order held.
    pub open spec fn models(&self) -> Seq<ValueModel> {
        self.possibilities@.map_values(|v: Value| v@)
    }

    /// At least one possibility, none repeated.
    pub open spec fn wf(&self) -> bool {
        &&& self.possibilities.len() >= 1
        &&& self.models().no_duplicates()
    }

    /// The value whose only possibility is `value`.
    pub fn certain(value: Value) -> (r: ConformValue)
        ensures
            r.wf(),
            r@ == set![value@],
    {
        let r = ConformValue { possibilities: vec![value] };
        assert(r.models() =~= seq![value@]);
        assert(seq![value@].to_set() =~= set![value@]) by {
            assert(seq![value@][0] == value@);
        }
        r
    }

    /// Whether `v` is one of the possibilities.
    pub fn contains(&self, v: &Value) -> (r: bool)
        ensures
            r == self@.contains(v@),
    {
        let mut i: usize = 0;
        while i < self.possibilities.len()
            invariant
                i <= self.possibilities.len(),
                forall|j: int| 0 <= j < i ==> self.possibilities[j]@ != v@,
            decreases self.possibilities.len() - i,
        {
            if self.possibilities[i].same_as(v) {
                assert(self.models()[i as int] == v@);
                return true;
            }
            i = i + 1;
        }
        proof {
            if self.models().contains(v@) {
                let k = choose|k: int| 0 <= k < self.models().len() && self.models()[k] == v@;
                assert(self.possibilities[k]@ == v@);
            }
        }
        false
    }

    /// The value whose possibilities are exactly `values`; an empty
    /// collection is refused.
    pub fn uncertain(values: Vec<Value>) -> (r: Result<ConformValue, QuasarError>)
        ensures
            r is Err <==> values.len() == 0,
            r is Err ==> r->Err_0 is InvalidOperation,
            r matches Ok(c) ==> c.wf() && c@ == values@.map_values(|v: Value| v@).to_set(),
    {
        if values.len() == 0 {
            return Err(QuasarError::InvalidOperation(String::from_str("no possible values")));
        }
        let ghost all = values@.map_values(|v: Value| v@);
        let mut acc = ConformValue { possibilities: Vec::new() };
        let mut i: usize = 0;
        while i < values.len()
            invariant
                i <= values.len(),
                all == values@.map_values(|v: Value| v@),
                acc.models().no_duplicates(),
                acc@ == all.subrange(0, i as int).to_set(),
                i > 0 ==> acc.possibilities.len() >= 1,
            decreases values.len() - i,
        {
            let present = acc.contains(&values[i]);
            proof {
                assert(all.subrange(0, i + 1) =~= all.subrange(0, i as int).push(all[i as int]));
                all.subrange(0, i as int).lemma_push_to_set_commute(all[i as int]);
            }
            if !present {
                let d = values[i].duplicate();
                let ghost before = acc.models();
                acc.possibilities.push(d);
                proof {
                    assert(acc.models() =~= before.push(d@));
                    before.lemma_push_to_set_commute(d@);
                    assert(before.push(d@).no_duplicates()) by {
                        assert(!before.contains(d@));
                    }
                }
            } else {
                assert(acc@.insert(all[i as int]) =~= acc@);
            }
            i = i + 1;
        }
        assert(all.subrange(0, values.len() as int) =~= all);
        Ok(acc)
    }

    /// The set union of the two values' possibilities.
    pub fn union(&self, other: &ConformValue) -> (r: ConformValue)
        requires
            self.wf(),
            other.wf(),
        ensures
            r.wf(),
            r@ == self@.union(other@),
    {
        let mut acc = self.duplicate();
        let ghost theirs = other.models();
        let mut i: usize = 0;
        while i < other.possibilities.len()
            invariant
                i <= other.possibilities.len(),
                theirs == other.models(),
                acc.wf(),
                acc@ == self@.union(theirs.subrange(0, i as int).to_set()),
            decreases other.possibilities.len() - i,
        {
            let present = acc.contains(&other.possibilities[i]);
            proof {
                assert(theirs.subrange(0, i + 1) =~= theirs.subrange(0, i as int).push(theirs[i as int]));
                theirs.subrange(0, i as int).lemma_push_to_set_commute(theirs[i as int]);
            }
            if !present {
                let d = other.possibilities[i].duplicate();
                let ghost before = acc.models();
                acc.possibilities.push(d);
                proof {
                    assert(acc.models() =~= before.push(d@));
                    before.lemma_push_to_set_commute(d@);
                    assert(before.push(d@).no_duplicates()) by {
                        assert(!before.contains(d@));
                    }
                }
                assert(acc@ =~= self@.union(theirs.subrange(0, i + 1).to_set()));
            } else {
                assert(acc@ =~= self@.union(theirs.subrange(0, i + 1).to_set()));
            }
            i = i + 1;
        }
        assert(theirs.subrange(0, other.possibilities.len() as int) =~= theirs);
        acc
    }

    /// Whether there is exactly one possibility.
    pub fn is_certain(&self) -> (r: bool)
        requires
            self.wf(),
        ensures
            r == (self@.len() == 1),
            r == (self.possibilities.len() == 1),
    {
        proof {
            self.models().unique_seq_to_set();
        }
        self.possibilities.len() == 1
    }

    /// The sole possibility, if there is exactly one.
    pub fn as_certain(&self) -> (r: Option<&Value>)
        requires
            self.wf(),
        ensures
            r is Some <==> self@.len() == 1,
            r matches Some(v) ==> self@ == set![v@],
    {
        if self.is_certain() {
            let v = &self.possibilities[0];
            assert(self.possibilities.len() == 1);
            assert(self.models()[0] == v@);
            assert(self.models() =~= seq![v@]);
            assert(seq![v@].to_set() =~= set![v@]) by {
                assert(seq![v@][0] == v@);
            }
            Some(v)
        } else {
            None
        }
    }

    /// A copy holding the same possibilities in the same order.
    pub fn duplicate(&self) -> (r: ConformValue)
        ensures
            r.models() == self.models(),
            r@ == self@,
            self.wf() ==> r.wf(),
    {
        let mut out: Vec<Value> = Vec::new();
        let mut i: usize = 0;
        while i < self.possibilities.len()
            invariant
                i <= self.possibilities.len(),
                out.len() == i,
                forall|j: int| 0 <= j < i ==> out[j]@ == self.possibilities[j]@,
            decreases self.possibilities.len() - i,
        {
            out.push(self.possibilities[i].duplicate());
            i = i + 1;
        }
        let r = ConformValue { possibilities: out };
        assert(r.models() =~= self.models());
        r
    }
}

} // verus!
