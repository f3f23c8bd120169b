use vstd::prelude::*;
use crate::value::{ConformValue, PrimitiveModel, PrimitiveValue, Value, ValueModel};

verus! {

pub open spec fn text_value(s: Seq<char>) -> ValueModel {
    ValueModel::Primitive(PrimitiveModel::Text(s))
}

/// The external function `find`: the patches found in an image.
#[derive(Debug)]
pub struct FindFunction;

/// The external function `simple_query`: the answer to a yes/no question.
#[derive(Debug)]
pub struct SimpleQueryFunction;

/// The external function `exists`: whether an object is present.
#[derive(Debug)]
pub struct ExistsFunction;

fn text(s: &str) -> (r: Value)
    ensures
        r@ == text_value(s@),
{
    Value::Primitive(PrimitiveValue::String(String::from_str(s)))
}

impl FindFunction {
    /// Always finds the same two patches, whatever the argument.
    pub fn call(&self, args: &ConformValue) -> (r: ConformValue)
        ensures
            r.wf(),
            r@ == set![ValueModel::List(seq![text_value("patch1"@), text_value("patch2"@)])],
    {
        let patches = vec![text("patch1"), text("patch2")];
        let v = Value::List(patches);
        assert(v@ == ValueModel::List(seq![text_value("patch1"@), text_value("patch2"@)])) by {
            assert(v@->List_0 =~= seq![text_value("patch1"@), text_value("patch2"@)]);
        }
        ConformValue::certain(v)
    }
}

impl SimpleQueryFunction {
    /// Always answers `"yes"`.
    pub fn call(&self, args: &ConformValue) -> (r: ConformValue)
        ensures
            r.wf(),
            r@ == set![text_value("yes"@)],
    {
        ConformValue::certain(text("yes"))
    }
}

impl ExistsFunction {
    /// Always answers `true`.
    pub fn call(&self, args: &ConformValue) -> (r: ConformValue)
        ensures
            r.wf(),
            r@ == set![ValueModel::Primitive(PrimitiveModel::Boolean(true))],
    {
        ConformValue::certain(Value::Primitive(PrimitiveValue::Boolean(true)))
    }
}

/// A function of the external registry.
#[derive(Debug)]
pub enum ExternalFunction {
    Find(FindFunction),
    SimpleQuery(SimpleQueryFunction),
    Exists(ExistsFunction),
}

impl ExternalFunction {
    /// Calls the function on `args`.
    pub fn call(&self, args: &ConformValue) -> (r: ConformValue)
        ensures
            r.wf(),
            self is Find ==> r@ == set![ValueModel::List(seq![text_value("patch1"@), text_value("patch2"@)])],
            self is SimpleQuery ==> r@ == set![text_value("yes"@)],
            self is Exists ==> r@ == set![ValueModel::Primitive(PrimitiveModel::Boolean(true))],
    {
        match self {
            ExternalFunction::Find(f) => f.call(args),
            ExternalFunction::SimpleQuery(f) => f.call(args),
            ExternalFunction::Exists(f) => f.call(args),
        }
    }
}

/// Resolves a function name against the registry: `find`, `simple_query`
/// and `exists` are known; any other name is not.
pub fn get_external_function(name: &str) -> (r: Option<ExternalFunction>)
    ensures
        name@ == "find"@ <==> r matches Some(ExternalFunction::Find(_)),
        name@ == "simple_query"@ <==> r matches Some(ExternalFunction::SimpleQuery(_)),
        name@ == "exists"@ <==> r matches Some(ExternalFunction::Exists(_)),
{
    let n = String::from_str(name);
    proof {
        reveal_strlit("find");
        reveal_strlit("simple_query");
        reveal_strlit("exists");
        assert("find"@.len() == 4);
        assert("simple_query"@.len() == 12);
        assert("exists"@.len() == 6);
    }
    if n.eq(&String::from_str("find")) {
        Some(ExternalFunction::Find(FindFunction))
    } else if n.eq(&String::from_str("simple_query")) {
        Some(ExternalFunction::SimpleQuery(SimpleQueryFunction))
    } else if n.eq(&String::from_str("exists")) {
        Some(ExternalFunction::Exists(ExistsFunction))
    } else {
        None
    }
}

} // verus!
