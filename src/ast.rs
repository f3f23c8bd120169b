use vstd::prelude::*;
use crate::value::{ConformValue, Value, ValueModel, value_model};

verus! {

/// Mathematical form of a statement.
pub struct StatementModel {
    pub variable: Seq<char>,
    pub expression: ExpressionModel,
}

/// Mathematical form of a block.
pub struct BlockModel {
    pub parameter: Seq<char>,
    pub body: Seq<StatementModel>,
    pub return_var: Seq<char>,
}

/// Mathematical form of an expression.
pub enum ExpressionModel {
    Primitive(ValueModel),
    Variable(Seq<char>),
    Tuple(Seq<Seq<char>>),
    ExternalCall { function: Seq<char>, argument: Seq<char> },
    Projection { index: usize, variable: Seq<char> },
    Fold { list: Seq<char>, initial: Seq<char>, block: BlockModel },
    If { condition: Seq<char>, then_block: BlockModel, else_block: Option<BlockModel> },
    PendingCall(Seq<char>),
    AbstractPrimitive(Set<ValueModel>),
    AbstractList(Seq<(ValueModel, bool)>),
    Join(Seq<Seq<char>>),
}

/// The right-hand side of a statement.
#[derive(Debug)]
pub enum Expression {
    Primitive(Value),
    Variable(String),
    Tuple(Vec<String>),
    ExternalCall { function: String, argument: String },
    Projection { index: usize, variable: String },
    Fold { list: String, initial: String, block: Block },
    If { condition: String, then_block: Block, else_block: Option<Block> },
    PendingCall(String),
    AbstractPrimitive(ConformValue),
    AbstractList(Vec<(Value, bool)>),
    Join(Vec<String>),
}

/// A template body: a formal parameter, statements and the variable that
/// holds its result.
#[derive(Debug)]
pub struct Block {
    pub parameter: String,
    pub body: Vec<Statement>,
    pub return_var: String,
}

/// An assignment of an expression to a variable.
#[derive(Debug)]
pub struct Statement {
    pub variable: String,
    pub expression: Expression,
}

/// Statements in evaluation order and the variable whose value is returned.
#[derive(Debug)]
pub struct Program {
    pub statements: Vec<Statement>,
    pub return_var: String,
}

/// The views of a list of names.
pub open spec fn names_model(names: Seq<String>) -> Seq<Seq<char>> {
    names.map_values(|n: String| n@)
}

pub open spec fn expression_model(e: Expression) -> ExpressionModel
    decreases e,
{
    match e {
        Expression::Primitive(v) => ExpressionModel::Primitive(value_model(v)),
        Expression::Variable(n) => ExpressionModel::Variable(n@),
        Expression::Tuple(ns) => ExpressionModel::Tuple(names_model(ns@)),
        Expression::ExternalCall { function, argument } => ExpressionModel::ExternalCall {
            function: function@,
            argument: argument@,
        },
        Expression::Projection { index, variable } => ExpressionModel::Projection {
            index,
            variable: variable@,
        },
        Expression::Fold { list, initial, block } => ExpressionModel::Fold {
            list: list@,
            initial: initial@,
            block: block_model(block),
        },
        Expression::If { condition, then_block, else_block } => ExpressionModel::If {
            condition: condition@,
            then_block: block_model(then_block),
            else_block: match else_block {
                Some(b) => Some(block_model(b)),
                None => None,
            },
        },
        Expression::PendingCall(id) => ExpressionModel::PendingCall(id@),
        Expression::AbstractPrimitive(c) => ExpressionModel::AbstractPrimitive(c@),
        Expression::AbstractList(items) => ExpressionModel::AbstractList(
            Seq::new(items.len() as nat, |i: int| (value_model(items[i].0), items[i].1)),
        ),
        Expression::Join(ns) => ExpressionModel::Join(names_model(ns@)),
    }
}

pub open spec fn block_model(b: Block) -> BlockModel
    decreases b,
{
    BlockModel {
        parameter: b.parameter@,
        body: Seq::new(
            b.body.len() as nat,
            |i: int| if 0 <= i < b.body.len() { statement_model(b.body[i]) } else { arbitrary() },
        ),
        return_var: b.return_var@,
    }
}

pub open spec fn statement_model(s: Statement) -> StatementModel
    decreases s,
{
    StatementModel { variable: s.variable@, expression: expression_model(s.expression) }
}

impl View for Expression {
    type V = ExpressionModel;

    open spec fn view(&self) -> ExpressionModel {
        expression_model(*self)
    }
}

impl View for Block {
    type V = BlockModel;

    open spec fn view(&self) -> BlockModel {
        block_model(*self)
    }
}

impl View for Statement {
    type V = StatementModel;

    open spec fn view(&self) -> StatementModel {
        statement_model(*self)
    }
}

/// The views of a list of statements.
pub open spec fn statements_model(s: Seq<Statement>) -> Seq<StatementModel> {
    s.map_values(|st: Statement| st@)
}

/// A copy of a list of names.
pub fn copy_names(names: &Vec<String>) -> (r: Vec<String>)
    ensures
        names_model(r@) == names_model(names@),
{
    let mut out: Vec<String> = Vec::new();
    let mut i: usize = 0;
    while i < names.len()
        invariant
            i <= names.len(),
            out.len() == i,
            forall|j: int| 0 <= j < i ==> out[j]@ == names[j]@,
        decreases names.len() - i,
    {
        out.push(names[i].clone());
        i = i + 1;
    }
    assert(names_model(out@) =~= names_model(names@));
    out
}

impl Expression {
    /// A copy with the same mathematical form.
    pub fn duplicate(&self) -> (r: Expression)
        ensures
            r@ == self@,
        decreases self,
    {
        match self {
            Expression::Primitive(v) => Expression::Primitive(v.duplicate()),
            Expression::Variable(n) => Expression::Variable(n.clone()),
            Expression::Tuple(ns) => Expression::Tuple(copy_names(ns)),
            Expression::ExternalCall { function, argument } => Expression::ExternalCall {
                function: function.clone(),
                argument: argument.clone(),
            },
            Expression::Projection { index, variable } => Expression::Projection {
                index: *index,
                variable: variable.clone(),
            },
            Expression::Fold { list, initial, block } => Expression::Fold {
                list: list.clone(),
                initial: initial.clone(),
                block: block.duplicate(),
            },
            Expression::If { condition, then_block, else_block } => {
                let e = match else_block {
                    Some(b) => Some(b.duplicate()),
                    None => None,
                };
                Expression::If { condition: condition.clone(), then_block: then_block.duplicate(), else_block: e }
            },
            Expression::PendingCall(id) => Expression::PendingCall(id.clone()),
            Expression::AbstractPrimitive(c) => Expression::AbstractPrimitive(c.duplicate()),
            Expression::AbstractList(items) => {
                let mut out: Vec<(Value, bool)> = Vec::new();
                let mut i: usize = 0;
                while i < items.len()
                    invariant
                        i <= items.len(),
                        out.len() == i,
                        forall|j: int| 0 <= j < i ==> out[j].0@ == items[j].0@ && out[j].1 == items[j].1,
                    decreases items.len() - i,
                {
                    out.push((items[i].0.duplicate(), items[i].1));
                    i = i + 1;
                }
                let r = Expression::AbstractList(out);
                assert(r@->AbstractList_0 =~= self@->AbstractList_0);
                r
            },
            Expression::Join(ns) => Expression::Join(copy_names(ns)),
        }
    }
}

impl Block {
    /// A copy with the same mathematical form.
    pub fn duplicate(&self) -> (r: Block)
        ensures
            r@ == self@,
        decreases self,
    {
        let mut body: Vec<Statement> = Vec::new();
        let mut i: usize = 0;
        while i < self.body.len()
            invariant
                i <= self.body.len(),
                body.len() == i,
                forall|j: int| 0 <= j < i ==> body[j]@ == self.body[j]@,
            decreases self.body.len() - i,
        {
            proof {
                assert(decreases_to!(*self => self.body[i as int]));
            }
            body.push(self.body[i].duplicate());
            i = i + 1;
        }
        let r = Block { parameter: self.parameter.clone(), body, return_var: self.return_var.clone() };
        assert(r@.body =~= self@.body);
        r
    }
}

impl Statement {
    /// A copy with the same mathematical form.
    pub fn duplicate(&self) -> (r: Statement)
        ensures
            r@ == self@,
        decreases self,
    {
        Statement { variable: self.variable.clone(), expression: self.expression.duplicate() }
    }
}

} // verus!
