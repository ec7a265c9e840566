//! Scheduled programs: loop nests over typed index expressions, in which every leaf runs one
//! instance of one statement.
use crate::error::{unsupported, CodegenError, Failure, IslError, Result};
use crate::describe::{statement_shapes, statements_to_schedule};
use crate::expr::{param_list, param_names_of};
use crate::ir::System;
use crate::legality::{
    an_accepted_schedule_respects_every_dependence, answered, check_legality, edges_of,
    legality_failure, lemma_producer_in_range, producing_statement, question_about, questions_of,
    reached,
};
use crate::relation::{comes_before, pairs, relates, Leaves, Tuple};
use crate::schedule::{
    build_schedule_for_names, built_schedule, schedule_models, Answer, Reading, ScheduleModel,
    ScheduleOutcome, StatementSchedule,
};
use crate::stmt::{
    all_statements_wf, statements, statements_model, system_statements, Statement, StatementModel,
};
use crate::text::{cat3, dec, dec_usize, push_text, str_eq, views};
use vstd::prelude::*;

verus! {

#[derive(Debug, Clone, Copy, PartialEq, Eq, Hash, Structural)]
pub struct StatementId(pub usize);

#[derive(Debug, PartialEq, Eq)]
pub struct IndexVar(pub String);

#[derive(Debug, PartialEq, Eq)]
pub enum IndexExpr {
    Constant(i64),
    Variable(String),
    Add(Box<IndexExpr>, Box<IndexExpr>),
    Sub(Box<IndexExpr>, Box<IndexExpr>),
    Mul(Box<IndexExpr>, Box<IndexExpr>),
    Div(Box<IndexExpr>, Box<IndexExpr>),
    FloorDiv(Box<IndexExpr>, Box<IndexExpr>),
    CeilDiv(Box<IndexExpr>, Box<IndexExpr>),
    Mod(Box<IndexExpr>, Box<IndexExpr>),
    Min(Vec<IndexExpr>),
    Max(Vec<IndexExpr>),
}

/// An index expression over names as character sequences.
pub enum IndexModel {
    Constant(int),
    Variable(Seq<char>),
    Add(Box<IndexModel>, Box<IndexModel>),
    Sub(Box<IndexModel>, Box<IndexModel>),
    Mul(Box<IndexModel>, Box<IndexModel>),
    Div(Box<IndexModel>, Box<IndexModel>),
    FloorDiv(Box<IndexModel>, Box<IndexModel>),
    CeilDiv(Box<IndexModel>, Box<IndexModel>),
    Mod(Box<IndexModel>, Box<IndexModel>),
    Min(Seq<IndexModel>),
    Max(Seq<IndexModel>),
}

pub open spec fn index_model(e: IndexExpr) -> IndexModel
    decreases e,
{
    match e {
        IndexExpr::Constant(n) => IndexModel::Constant(n as int),
        IndexExpr::Variable(s) => IndexModel::Variable(s@),
        IndexExpr::Add(a, b) => IndexModel::Add(Box::new(index_model(*a)), Box::new(index_model(*b))),
        IndexExpr::Sub(a, b) => IndexModel::Sub(Box::new(index_model(*a)), Box::new(index_model(*b))),
        IndexExpr::Mul(a, b) => IndexModel::Mul(Box::new(index_model(*a)), Box::new(index_model(*b))),
        IndexExpr::Div(a, b) => IndexModel::Div(Box::new(index_model(*a)), Box::new(index_model(*b))),
        IndexExpr::FloorDiv(a, b) => IndexModel::FloorDiv(
            Box::new(index_model(*a)),
            Box::new(index_model(*b)),
        ),
        IndexExpr::CeilDiv(a, b) => IndexModel::CeilDiv(
            Box::new(index_model(*a)),
            Box::new(index_model(*b)),
        ),
        IndexExpr::Mod(a, b) => IndexModel::Mod(Box::new(index_model(*a)), Box::new(index_model(*b))),
        IndexExpr::Min(v) => IndexModel::Min(index_models(v@)),
        IndexExpr::Max(v) => IndexModel::Max(index_models(v@)),
    }
}

pub open spec fn index_models(v: Seq<IndexExpr>) -> Seq<IndexModel>
    decreases v,
{
    Seq::new(
        v.len(),
        |i: int| if 0 <= i < v.len() { index_model(v[i]) } else { IndexModel::Constant(0) },
    )
}

impl View for IndexExpr {
    type V = IndexModel;

    open spec fn view(&self) -> IndexModel {
        index_model(*self)
    }
}

#[derive(Debug, Clone, Copy, PartialEq, Eq, Structural)]
pub enum CompareOp {
    Eq,
    Le,
    Lt,
    Ge,
    Gt,
}

#[derive(Debug, PartialEq, Eq)]
pub enum Predicate {
    Compare { op: CompareOp, lhs: IndexExpr, rhs: IndexExpr },
    And(Vec<Predicate>),
    Or(Vec<Predicate>),
    Not(Box<Predicate>),
    Constant(bool),
}

/// A predicate over names as character sequences.
pub enum PredicateModel {
    Compare { op: CompareOp, lhs: IndexModel, rhs: IndexModel },
    And(Seq<PredicateModel>),
    Or(Seq<PredicateModel>),
    Not(Box<PredicateModel>),
    Constant(bool),
}

pub open spec fn predicate_model(p: Predicate) -> PredicateModel
    decreases p,
{
    match p {
        Predicate::Compare { op, lhs, rhs } => PredicateModel::Compare { op, lhs: lhs@, rhs: rhs@ },
        Predicate::And(v) => PredicateModel::And(predicate_models(v@)),
        Predicate::Or(v) => PredicateModel::Or(predicate_models(v@)),
        Predicate::Not(p) => PredicateModel::Not(Box::new(predicate_model(*p))),
        Predicate::Constant(b) => PredicateModel::Constant(b),
    }
}

pub open spec fn predicate_models(v: Seq<Predicate>) -> Seq<PredicateModel>
    decreases v,
{
    Seq::new(
        v.len(),
        |i: int|
            if 0 <= i < v.len() {
                predicate_model(v[i])
            } else {
                PredicateModel::Constant(false)
            },
    )
}

impl View for Predicate {
    type V = PredicateModel;

    open spec fn view(&self) -> PredicateModel {
        predicate_model(*self)
    }
}

#[derive(Debug, PartialEq, Eq)]
#[allow(inconsistent_fields)]
pub enum ScheduledNode {
    Loop {
        iterator: IndexVar,
        init: IndexExpr,
        condition: Predicate,
        step: IndexExpr,
        body: Box<ScheduledNode>,
    },
    If {
        condition: Predicate,
        then_body: Box<ScheduledNode>,
        else_body: Option<Box<ScheduledNode>>,
    },
    Sequence(Vec<ScheduledNode>),
    Invoke { statement: StatementId, indices: Vec<IndexExpr> },
}

/// A scheduled program over names as character sequences.
#[allow(inconsistent_fields)]
pub enum NodeModel {
    Loop {
        iterator: Seq<char>,
        init: IndexModel,
        condition: PredicateModel,
        step: IndexModel,
        body: Box<NodeModel>,
    },
    If {
        condition: PredicateModel,
        then_body: Box<NodeModel>,
        else_body: Option<Box<NodeModel>>,
    },
    Sequence(Seq<NodeModel>),
    Invoke { statement: nat, indices: Seq<IndexModel> },
}

pub open spec fn node_model(n: ScheduledNode) -> NodeModel
    decreases n,
{
    match n {
        ScheduledNode::Loop { iterator, init, condition, step, body } => NodeModel::Loop {
            iterator: iterator.0@,
            init: init@,
            condition: condition@,
            step: step@,
            body: Box::new(node_model(*body)),
        },
        ScheduledNode::If { condition, then_body, else_body } => NodeModel::If {
            condition: condition@,
            then_body: Box::new(node_model(*then_body)),
            else_body: match else_body {
                Some(b) => Some(Box::new(node_model(*b))),
                None => None,
            },
        },
        ScheduledNode::Sequence(v) => NodeModel::Sequence(node_models(v@)),
        ScheduledNode::Invoke { statement, indices } => NodeModel::Invoke {
            statement: statement.0 as nat,
            indices: index_models(indices@),
        },
    }
}

pub open spec fn node_models(v: Seq<ScheduledNode>) -> Seq<NodeModel>
    decreases v,
{
    Seq::new(
        v.len(),
        |i: int|
            if 0 <= i < v.len() {
                node_model(v[i])
            } else {
                NodeModel::Sequence(Seq::empty())
            },
    )
}

impl View for ScheduledNode {
    type V = NodeModel;

    open spec fn view(&self) -> NodeModel {
        node_model(*self)
    }
}

/// The operators of a generated syntax tree.
#[derive(Debug, Clone, Copy, PartialEq, Eq, Structural)]
pub enum AstOp {
    Minus,
    Add,
    Sub,
    Mul,
    /// A division that is known to be exact.
    Div,
    /// The quotient of a division of a non-negative number.
    PdivQ,
    /// The quotient rounded down.
    FdivQ,
    /// The remainder of a division of a non-negative number.
    PdivR,
    /// A remainder that is only compared with zero.
    ZdivR,
    Min,
    Max,
    Eq,
    Le,
    Lt,
    Ge,
    Gt,
    And,
    AndThen,
    Or,
    OrElse,
    Other,
}

/// An expression of a generated syntax tree.
#[derive(Debug)]
pub enum AstExpr {
    Int(core::result::Result<i64, IslError>),
    Id(String),
    /// An operator with its printed form and its arguments.
    Op { op: AstOp, label: String, args: Vec<AstExpr> },
}

/// A node of a generated syntax tree.
#[derive(Debug)]
#[allow(inconsistent_fields)]
pub enum AstNode {
    For { iterator: String, init: AstExpr, cond: AstExpr, inc: AstExpr, body: Box<AstNode> },
    If { cond: AstExpr, then_body: Box<AstNode>, else_body: Option<Box<AstNode>> },
    Block(Vec<AstNode>),
    /// The instance of a statement; the name is absent where the invocation has no argument.
    User { name: Option<String>, indices: Vec<AstExpr> },
    Other,
}

pub type IndexOutcome = core::result::Result<IndexModel, Failure>;

pub open spec fn index_outcome(r: Result<IndexExpr>) -> IndexOutcome {
    match r {
        Ok(e) => Ok(e@),
        Err(e) => Err(e@),
    }
}

pub open spec fn indices_outcome(r: Result<Vec<IndexExpr>>) -> core::result::Result<
    Seq<IndexModel>,
    Failure,
> {
    match r {
        Ok(v) => Ok(index_models(v@)),
        Err(e) => Err(e@),
    }
}

/// The binary index operators.
pub open spec fn binary_index(op: AstOp, l: IndexModel, r: IndexModel) -> Option<IndexModel> {
    match op {
        AstOp::Add => Some(IndexModel::Add(Box::new(l), Box::new(r))),
        AstOp::Sub => Some(IndexModel::Sub(Box::new(l), Box::new(r))),
        AstOp::Mul => Some(IndexModel::Mul(Box::new(l), Box::new(r))),
        AstOp::Div | AstOp::PdivQ => Some(IndexModel::Div(Box::new(l), Box::new(r))),
        AstOp::FdivQ => Some(IndexModel::FloorDiv(Box::new(l), Box::new(r))),
        AstOp::PdivR | AstOp::ZdivR => Some(IndexModel::Mod(Box::new(l), Box::new(r))),
        _ => None,
    }
}

pub open spec fn is_binary_index(op: AstOp) -> bool {
    op == AstOp::Add || op == AstOp::Sub || op == AstOp::Mul || op == AstOp::Div || op == AstOp::PdivQ
        || op == AstOp::FdivQ || op == AstOp::PdivR || op == AstOp::ZdivR
}

pub open spec fn not_binary(n: nat) -> Failure {
    Failure::Unsupported("expected binary ISL AST operator, found "@ + dec(n) + " arguments"@)
}

/// The index expression of a syntax tree.
pub open spec fn converted_index(e: AstExpr) -> IndexOutcome
    decreases e,
{
    match e {
        AstExpr::Int(Ok(n)) => Ok(IndexModel::Constant(n as int)),
        AstExpr::Int(Err(e)) => Err(Failure::Isl(e.message@)),
        AstExpr::Id(s) => Ok(IndexModel::Variable(s@)),
        AstExpr::Op { op, label, args } => if op == AstOp::Minus {
            if args@.len() != 1 {
                Err(Failure::Unsupported("unary minus requires one argument"@))
            } else {
                match converted_index(args@[0]) {
                    Err(f) => Err(f),
                    Ok(a) => Ok(
                        IndexModel::Sub(Box::new(IndexModel::Constant(0)), Box::new(a)),
                    ),
                }
            }
        } else if is_binary_index(op) {
            if args@.len() != 2 {
                Err(not_binary(args@.len()))
            } else {
                match converted_index(args@[0]) {
                    Err(f) => Err(f),
                    Ok(l) => match converted_index(args@[1]) {
                        Err(f) => Err(f),
                        Ok(r) => Ok(binary_index(op, l, r)->Some_0),
                    },
                }
            }
        } else if op == AstOp::Min {
            match converted_indices(args@) {
                Err(f) => Err(f),
                Ok(v) => Ok(IndexModel::Min(v)),
            }
        } else if op == AstOp::Max {
            match converted_indices(args@) {
                Err(f) => Err(f),
                Ok(v) => Ok(IndexModel::Max(v)),
            }
        } else {
            Err(
                Failure::Unsupported(
                    "ISL AST operator "@ + label@ + " is not an index expression"@,
                ),
            )
        },
    }
}

/// The index expression of each syntax tree, or the first failure.
pub open spec fn converted_indices(v: Seq<AstExpr>) -> core::result::Result<Seq<IndexModel>, Failure>
    decreases v,
{
    if v.len() == 0 {
        Ok(Seq::empty())
    } else {
        match converted_indices(v.drop_last()) {
            Err(f) => Err(f),
            Ok(before) => match converted_index(v.last()) {
                Err(f) => Err(f),
                Ok(e) => Ok(before.push(e)),
            },
        }
    }
}

proof fn lemma_indices_stop(v: Seq<AstExpr>, n: int)
    requires
        0 <= n <= v.len(),
        converted_indices(v.take(n)) is Err,
    ensures
        converted_indices(v) == converted_indices(v.take(n)),
    decreases v.len() - n,
{
    if n < v.len() {
        assert(v.take(n + 1).drop_last() =~= v.take(n));
        lemma_indices_stop(v, n + 1);
    } else {
        assert(v.take(n) =~= v);
    }
}

pub fn convert_index(expression: &AstExpr) -> (r: Result<IndexExpr>)
    ensures
        index_outcome(r) == converted_index(*expression),
    decreases expression, 0int,
{
    match expression {
        AstExpr::Int(Ok(n)) => Ok(IndexExpr::Constant(*n)),
        AstExpr::Int(Err(e)) => Err(CodegenError::Isl(e.clone())),
        AstExpr::Id(s) => Ok(IndexExpr::Variable(s.clone())),
        AstExpr::Op { op, label, args } => match *op {
            AstOp::Minus => {
                if args.len() != 1 {
                    return Err(unsupported("unary minus requires one argument"));
                }
                match convert_index(&args[0]) {
                    Ok(a) => {
                        let zero = IndexExpr::Constant(0);
                        proof {
                            assert(zero@ == IndexModel::Constant(0));
                        }
                        Ok(IndexExpr::Sub(Box::new(zero), Box::new(a)))
                    },
                    Err(e) => Err(e),
                }
            },
            AstOp::Add
            | AstOp::Sub
            | AstOp::Mul
            | AstOp::Div
            | AstOp::PdivQ
            | AstOp::FdivQ
            | AstOp::PdivR
            | AstOp::ZdivR => match binary(args) {
                Err(e) => Err(e),
                Ok((lhs, rhs)) => {
                    let l = Box::new(lhs);
                    let r = Box::new(rhs);
                    Ok(
                        match *op {
                            AstOp::Add => IndexExpr::Add(l, r),
                            AstOp::Sub => IndexExpr::Sub(l, r),
                            AstOp::Mul => IndexExpr::Mul(l, r),
                            AstOp::Div | AstOp::PdivQ => IndexExpr::Div(l, r),
                            AstOp::FdivQ => IndexExpr::FloorDiv(l, r),
                            _ => IndexExpr::Mod(l, r),
                        },
                    )
                },
            },
            AstOp::Min => match convert_indices(args) {
                Ok(v) => Ok(IndexExpr::Min(v)),
                Err(e) => Err(e),
            },
            AstOp::Max => match convert_indices(args) {
                Ok(v) => Ok(IndexExpr::Max(v)),
                Err(e) => Err(e),
            },
            _ => Err(
                CodegenError::Unsupported(
                    cat3("ISL AST operator ", label.as_str(), " is not an index expression"),
                ),
            ),
        },
    }
}

/// The two operands of a binary operator.
fn binary(args: &Vec<AstExpr>) -> (r: Result<(IndexExpr, IndexExpr)>)
    ensures
        match r {
            Ok((l, r)) => args@.len() == 2 && converted_index(args@[0]) == Ok::<IndexModel, Failure>(l@)
                && converted_index(args@[1]) == Ok::<IndexModel, Failure>(r@),
            Err(e) => if args@.len() != 2 {
                e@ == not_binary(args@.len())
            } else {
                match converted_index(args@[0]) {
                    Err(f) => e@ == f,
                    Ok(_) => converted_index(args@[1]) == Err::<IndexModel, Failure>(e@),
                }
            },
        },
    decreases args, 0int,
{
    if args.len() != 2 {
        return Err(
            CodegenError::Unsupported(
                cat3(
                    "expected binary ISL AST operator, found ",
                    dec_usize(args.len()).as_str(),
                    " arguments",
                ),
            ),
        );
    }
    let l = match convert_index(&args[0]) {
        Ok(l) => l,
        Err(e) => return Err(e),
    };
    let r = match convert_index(&args[1]) {
        Ok(r) => r,
        Err(e) => return Err(e),
    };
    Ok((l, r))
}

fn convert_indices(args: &Vec<AstExpr>) -> (r: Result<Vec<IndexExpr>>)
    ensures
        indices_outcome(r) == converted_indices(args@),
    decreases args, 0int,
{
    let mut out: Vec<IndexExpr> = Vec::new();
    let mut i: usize = 0;
    proof {
        assert(args@.take(0) =~= Seq::empty());
        assert(index_models(out@) =~= Seq::empty());
    }
    while i < args.len()
        invariant
            i <= args.len(),
            converted_indices(args@.take(i as int)) == Ok::<Seq<IndexModel>, Failure>(
                index_models(out@),
            ),
        decreases args.len() - i,
    {
        proof {
            assert(args@.take(i + 1).drop_last() =~= args@.take(i as int));
            assert(args@.take(i + 1).last() == args@[i as int]);
        }
        match convert_index(&args[i]) {
            Ok(e) => {
                let ghost before = index_models(out@);
                out.push(e);
                proof {
                    assert(index_models(out@) =~= before.push(e@));
                }
            },
            Err(e) => {
                proof {
                    lemma_indices_stop(args@, i + 1);
                }
                return Err(e);
            },
        }
        i += 1;
    }
    proof {
        assert(args@.take(i as int) =~= args@);
    }
    Ok(out)
}

pub type PredicateOutcome = core::result::Result<PredicateModel, Failure>;

pub open spec fn predicate_outcome(r: Result<Predicate>) -> PredicateOutcome {
    match r {
        Ok(p) => Ok(p@),
        Err(e) => Err(e@),
    }
}

pub open spec fn predicates_outcome(r: Result<Vec<Predicate>>) -> core::result::Result<
    Seq<PredicateModel>,
    Failure,
> {
    match r {
        Ok(v) => Ok(predicate_models(v@)),
        Err(e) => Err(e@),
    }
}

/// The comparison an operator stands for.
pub open spec fn comparison(op: AstOp) -> Option<CompareOp> {
    match op {
        AstOp::Eq => Some(CompareOp::Eq),
        AstOp::Le => Some(CompareOp::Le),
        AstOp::Lt => Some(CompareOp::Lt),
        AstOp::Ge => Some(CompareOp::Ge),
        AstOp::Gt => Some(CompareOp::Gt),
        _ => None,
    }
}

/// The predicate of a syntax tree.
pub open spec fn converted_predicate(e: AstExpr) -> PredicateOutcome
    decreases e,
{
    match e {
        AstExpr::Int(Ok(n)) => Ok(PredicateModel::Constant(n != 0)),
        AstExpr::Int(Err(e)) => Err(Failure::Isl(e.message@)),
        AstExpr::Id(_) => Err(
            Failure::Unsupported("ISL predicate must be a comparison or Boolean expression"@),
        ),
        AstExpr::Op { op, label, args } => match comparison(op) {
            Some(c) => if args@.len() != 2 {
                Err(not_binary(args@.len()))
            } else {
                match converted_index(args@[0]) {
                    Err(f) => Err(f),
                    Ok(lhs) => match converted_index(args@[1]) {
                        Err(f) => Err(f),
                        Ok(rhs) => Ok(PredicateModel::Compare { op: c, lhs, rhs }),
                    },
                }
            },
            None => if op == AstOp::And || op == AstOp::AndThen {
                match converted_predicates(args@) {
                    Err(f) => Err(f),
                    Ok(v) => Ok(PredicateModel::And(v)),
                }
            } else if op == AstOp::Or || op == AstOp::OrElse {
                match converted_predicates(args@) {
                    Err(f) => Err(f),
                    Ok(v) => Ok(PredicateModel::Or(v)),
                }
            } else {
                Err(
                    Failure::Unsupported("ISL AST operator "@ + label@ + " is not a predicate"@),
                )
            },
        },
    }
}

pub open spec fn converted_predicates(v: Seq<AstExpr>) -> core::result::Result<
    Seq<PredicateModel>,
    Failure,
>
    decreases v,
{
    if v.len() == 0 {
        Ok(Seq::empty())
    } else {
        match converted_predicates(v.drop_last()) {
            Err(f) => Err(f),
            Ok(before) => match converted_predicate(v.last()) {
                Err(f) => Err(f),
                Ok(e) => Ok(before.push(e)),
            },
        }
    }
}

proof fn lemma_predicates_stop(v: Seq<AstExpr>, n: int)
    requires
        0 <= n <= v.len(),
        converted_predicates(v.take(n)) is Err,
    ensures
        converted_predicates(v) == converted_predicates(v.take(n)),
    decreases v.len() - n,
{
    if n < v.len() {
        assert(v.take(n + 1).drop_last() =~= v.take(n));
        lemma_predicates_stop(v, n + 1);
    } else {
        assert(v.take(n) =~= v);
    }
}

fn compare_op(op: AstOp) -> (r: Option<CompareOp>)
    ensures
        r == comparison(op),
{
    match op {
        AstOp::Eq => Some(CompareOp::Eq),
        AstOp::Le => Some(CompareOp::Le),
        AstOp::Lt => Some(CompareOp::Lt),
        AstOp::Ge => Some(CompareOp::Ge),
        AstOp::Gt => Some(CompareOp::Gt),
        _ => None,
    }
}

pub fn convert_predicate(expression: &AstExpr) -> (r: Result<Predicate>)
    ensures
        predicate_outcome(r) == converted_predicate(*expression),
    decreases expression, 0int,
{
    match expression {
        AstExpr::Int(Ok(n)) => Ok(Predicate::Constant(*n != 0)),
        AstExpr::Int(Err(e)) => Err(CodegenError::Isl(e.clone())),
        AstExpr::Id(_) => Err(
            unsupported("ISL predicate must be a comparison or Boolean expression"),
        ),
        AstExpr::Op { op, label, args } => match compare_op(*op) {
            Some(c) => match binary(args) {
                Ok((lhs, rhs)) => Ok(Predicate::Compare { op: c, lhs, rhs }),
                Err(e) => Err(e),
            },
            None => match *op {
                AstOp::And | AstOp::AndThen => match convert_predicates(args) {
                    Ok(v) => Ok(Predicate::And(v)),
                    Err(e) => Err(e),
                },
                AstOp::Or | AstOp::OrElse => match convert_predicates(args) {
                    Ok(v) => Ok(Predicate::Or(v)),
                    Err(e) => Err(e),
                },
                _ => Err(
                    CodegenError::Unsupported(
                        cat3("ISL AST operator ", label.as_str(), " is not a predicate"),
                    ),
                ),
            },
        },
    }
}

fn convert_predicates(args: &Vec<AstExpr>) -> (r: Result<Vec<Predicate>>)
    ensures
        predicates_outcome(r) == converted_predicates(args@),
    decreases args, 0int,
{
    let mut out: Vec<Predicate> = Vec::new();
    let mut i: usize = 0;
    proof {
        assert(args@.take(0) =~= Seq::empty());
        assert(predicate_models(out@) =~= Seq::empty());
    }
    while i < args.len()
        invariant
            i <= args.len(),
            converted_predicates(args@.take(i as int)) == Ok::<Seq<PredicateModel>, Failure>(
                predicate_models(out@),
            ),
        decreases args.len() - i,
    {
        proof {
            assert(args@.take(i + 1).drop_last() =~= args@.take(i as int));
            assert(args@.take(i + 1).last() == args@[i as int]);
        }
        match convert_predicate(&args[i]) {
            Ok(e) => {
                let ghost before = predicate_models(out@);
                out.push(e);
                proof {
                    assert(predicate_models(out@) =~= before.push(e@));
                }
            },
            Err(e) => {
                proof {
                    lemma_predicates_stop(args@, i + 1);
                }
                return Err(e);
            },
        }
        i += 1;
    }
    proof {
        assert(args@.take(i as int) =~= args@);
    }
    Ok(out)
}

/// The position of the statement called `name`; the last one counts.
pub open spec fn statement_position(names: Seq<Seq<char>>, name: Seq<char>) -> Option<nat>
    decreases names.len(),
{
    if names.len() == 0 {
        None
    } else if names.last() == name {
        Some((names.len() - 1) as nat)
    } else {
        statement_position(names.drop_last(), name)
    }
}

fn find_statement(names: &Vec<String>, name: &str) -> (r: Option<StatementId>)
    ensures
        match r {
            Some(id) => statement_position(views(names@), name@) == Some(id.0 as nat),
            None => statement_position(views(names@), name@) is None,
        },
{
    let mut i: usize = names.len();
    let ghost all = views(names@);
    proof {
        assert(all.take(i as int) =~= all);
    }
    while i > 0
        invariant
            i <= names.len(),
            all == views(names@),
            statement_position(all, name@) == statement_position(all.take(i as int), name@),
        decreases i,
    {
        i -= 1;
        proof {
            assert(all.take(i + 1).drop_last() =~= all.take(i as int));
            assert(all.take(i + 1).last() == all[i as int]);
        }
        if str_eq(names[i].as_str(), name) {
            return Some(StatementId(i));
        }
    }
    None
}

pub type NodeOutcome = core::result::Result<NodeModel, Failure>;

pub open spec fn node_outcome(r: Result<ScheduledNode>) -> NodeOutcome {
    match r {
        Ok(n) => Ok(n@),
        Err(e) => Err(e@),
    }
}

pub open spec fn nodes_outcome(r: Result<Vec<ScheduledNode>>) -> core::result::Result<
    Seq<NodeModel>,
    Failure,
> {
    match r {
        Ok(v) => Ok(node_models(v@)),
        Err(e) => Err(e@),
    }
}

/// The scheduled program of a syntax tree, whose statements go by `names`.
pub open spec fn converted_node(n: AstNode, names: Seq<Seq<char>>) -> NodeOutcome
    decreases n,
{
    match n {
        AstNode::For { iterator, init, cond, inc, body } => match converted_index(init) {
            Err(f) => Err(f),
            Ok(init) => match converted_predicate(cond) {
                Err(f) => Err(f),
                Ok(condition) => match converted_index(inc) {
                    Err(f) => Err(f),
                    Ok(step) => match converted_node(*body, names) {
                        Err(f) => Err(f),
                        Ok(body) => Ok(
                            NodeModel::Loop {
                                iterator: iterator@,
                                init,
                                condition,
                                step,
                                body: Box::new(body),
                            },
                        ),
                    },
                },
            },
        },
        AstNode::If { cond, then_body, else_body } => match converted_predicate(cond) {
            Err(f) => Err(f),
            Ok(condition) => match converted_node(*then_body, names) {
                Err(f) => Err(f),
                Ok(then_body) => match else_body {
                    None => Ok(
                        NodeModel::If {
                            condition,
                            then_body: Box::new(then_body),
                            else_body: None,
                        },
                    ),
                    Some(b) => match converted_node(*b, names) {
                        Err(f) => Err(f),
                        Ok(e) => Ok(
                            NodeModel::If {
                                condition,
                                then_body: Box::new(then_body),
                                else_body: Some(Box::new(e)),
                            },
                        ),
                    },
                },
            },
        },
        AstNode::Block(children) => match converted_nodes(children@, names) {
            Err(f) => Err(f),
            Ok(v) => Ok(NodeModel::Sequence(v)),
        },
        AstNode::User { name, indices } => match name {
            None => Err(
                Failure::Unsupported(
                    "internal error: scheduled invocation has no statement name"@,
                ),
            ),
            Some(name) => match statement_position(names, name@) {
                None => Err(
                    Failure::Unsupported(
                        "internal error: scheduled invocation names unknown statement '"@ + name@
                            + "'"@,
                    ),
                ),
                Some(statement) => match converted_indices(indices@) {
                    Err(f) => Err(f),
                    Ok(indices) => Ok(NodeModel::Invoke { statement, indices }),
                },
            },
        },
        AstNode::Other => Err(Failure::Unsupported("unexpected ISL AST node kind"@)),
    }
}

pub open spec fn converted_nodes(v: Seq<AstNode>, names: Seq<Seq<char>>) -> core::result::Result<
    Seq<NodeModel>,
    Failure,
>
    decreases v,
{
    if v.len() == 0 {
        Ok(Seq::empty())
    } else {
        match converted_nodes(v.drop_last(), names) {
            Err(f) => Err(f),
            Ok(before) => match converted_node(v.last(), names) {
                Err(f) => Err(f),
                Ok(e) => Ok(before.push(e)),
            },
        }
    }
}

proof fn lemma_nodes_stop(v: Seq<AstNode>, names: Seq<Seq<char>>, n: int)
    requires
        0 <= n <= v.len(),
        converted_nodes(v.take(n), names) is Err,
    ensures
        converted_nodes(v, names) == converted_nodes(v.take(n), names),
    decreases v.len() - n,
{
    if n < v.len() {
        assert(v.take(n + 1).drop_last() =~= v.take(n));
        lemma_nodes_stop(v, names, n + 1);
    } else {
        assert(v.take(n) =~= v);
    }
}

/// Turns a syntax tree into a scheduled program; `statement_names` gives each statement its id.
pub fn convert_node(node: &AstNode, statement_names: &Vec<String>) -> (r: Result<ScheduledNode>)
    ensures
        node_outcome(r) == converted_node(*node, views(statement_names@)),
    decreases node, 0int,
{
    match node {
        AstNode::For { iterator, init, cond, inc, body } => {
            let init = match convert_index(init) {
                Ok(e) => e,
                Err(e) => return Err(e),
            };
            let condition = match convert_predicate(cond) {
                Ok(p) => p,
                Err(e) => return Err(e),
            };
            let step = match convert_index(inc) {
                Ok(e) => e,
                Err(e) => return Err(e),
            };
            let body = match convert_node(body, statement_names) {
                Ok(n) => n,
                Err(e) => return Err(e),
            };
            Ok(
                ScheduledNode::Loop {
                    iterator: IndexVar(iterator.clone()),
                    init,
                    condition,
                    step,
                    body: Box::new(body),
                },
            )
        },
        AstNode::If { cond, then_body, else_body } => {
            let condition = match convert_predicate(cond) {
                Ok(p) => p,
                Err(e) => return Err(e),
            };
            let then_body = match convert_node(then_body, statement_names) {
                Ok(n) => n,
                Err(e) => return Err(e),
            };
            let else_body = match else_body {
                None => None,
                Some(b) => match convert_node(b, statement_names) {
                    Ok(n) => Some(Box::new(n)),
                    Err(e) => return Err(e),
                },
            };
            Ok(ScheduledNode::If { condition, then_body: Box::new(then_body), else_body })
        },
        AstNode::Block(children) => match convert_nodes(children, statement_names) {
            Ok(v) => Ok(ScheduledNode::Sequence(v)),
            Err(e) => Err(e),
        },
        AstNode::User { name, indices } => {
            let name = match name {
                Some(name) => name,
                None => return Err(
                    unsupported("internal error: scheduled invocation has no statement name"),
                ),
            };
            let statement = match find_statement(statement_names, name.as_str()) {
                Some(id) => id,
                None => return Err(
                    CodegenError::Unsupported(
                        cat3(
                            "internal error: scheduled invocation names unknown statement '",
                            name.as_str(),
                            "'",
                        ),
                    ),
                ),
            };
            match convert_indices(indices) {
                Ok(indices) => Ok(ScheduledNode::Invoke { statement, indices }),
                Err(e) => Err(e),
            }
        },
        AstNode::Other => Err(unsupported("unexpected ISL AST node kind")),
    }
}

fn convert_nodes(children: &Vec<AstNode>, statement_names: &Vec<String>) -> (r: Result<
    Vec<ScheduledNode>,
>)
    ensures
        nodes_outcome(r) == converted_nodes(children@, views(statement_names@)),
    decreases children, 0int,
{
    let mut out: Vec<ScheduledNode> = Vec::new();
    let mut i: usize = 0;
    proof {
        assert(children@.take(0) =~= Seq::empty());
        assert(node_models(out@) =~= Seq::empty());
    }
    while i < children.len()
        invariant
            i <= children.len(),
            converted_nodes(children@.take(i as int), views(statement_names@)) == Ok::<
                Seq<NodeModel>,
                Failure,
            >(node_models(out@)),
        decreases children.len() - i,
    {
        proof {
            assert(children@.take(i + 1).drop_last() =~= children@.take(i as int));
            assert(children@.take(i + 1).last() == children@[i as int]);
        }
        match convert_node(&children[i], statement_names) {
            Ok(e) => {
                let ghost before = node_models(out@);
                out.push(e);
                proof {
                    assert(node_models(out@) =~= before.push(e@));
                }
            },
            Err(e) => {
                proof {
                    lemma_nodes_stop(children@, views(statement_names@), i + 1);
                }
                return Err(e);
            },
        }
        i += 1;
    }
    proof {
        assert(children@.take(i as int) =~= children@);
    }
    Ok(out)
}

/// Every invocation in a program runs a statement below `n`.
pub open spec fn invokes_below(m: NodeModel, n: nat) -> bool
    decreases m,
{
    match m {
        NodeModel::Loop { iterator, init, condition, step, body } => invokes_below(*body, n),
        NodeModel::If { condition, then_body, else_body } => invokes_below(*then_body, n) && (
        match else_body {
            Some(b) => invokes_below(*b, n),
            None => true,
        }),
        NodeModel::Sequence(v) => forall|i: int|
            0 <= i < v.len() ==> invokes_below(#[trigger] v[i], n),
        NodeModel::Invoke { statement, indices } => statement < n,
    }
}

proof fn lemma_position_in_range(names: Seq<Seq<char>>, name: Seq<char>)
    ensures
        statement_position(names, name) matches Some(p) ==> p < names.len() && names[p as int] == name,
    decreases names.len(),
{
    if names.len() > 0 {
        lemma_position_in_range(names.drop_last(), name);
    }
}

/// A converted program invokes existing statements only.
pub proof fn converted_programs_invoke_existing_statements(n: AstNode, names: Seq<Seq<char>>)
    ensures
        converted_node(n, names) matches Ok(m) ==> invokes_below(m, names.len()),
    decreases n,
{
    match n {
        AstNode::For { iterator, init, cond, inc, body } => {
            converted_programs_invoke_existing_statements(*body, names);
        },
        AstNode::If { cond, then_body, else_body } => {
            converted_programs_invoke_existing_statements(*then_body, names);
            if let Some(b) = else_body {
                converted_programs_invoke_existing_statements(*b, names);
            }
        },
        AstNode::Block(children) => {
            lemma_children_invoke(children@, names);
        },
        AstNode::User { name, indices } => {
            if let Some(name) = name {
                lemma_position_in_range(names, name@);
            }
        },
        AstNode::Other => {},
    }
}

proof fn lemma_children_invoke(v: Seq<AstNode>, names: Seq<Seq<char>>)
    ensures
        converted_nodes(v, names) matches Ok(ms) ==> forall|i: int|
            0 <= i < ms.len() ==> invokes_below(#[trigger] ms[i], names.len()),
    decreases v,
{
    if v.len() > 0 {
        lemma_children_invoke(v.drop_last(), names);
        converted_programs_invoke_existing_statements(v.last(), names);
    }
}

/// A system together with the schedule of its statements and the order they run in.
pub struct ScheduledProgram<'a> {
    pub system: &'a System,
    pub root: ScheduledNode,
    /// The number of dimensions that every statement is scheduled into.
    pub width: u32,
    pub schedule: Vec<StatementSchedule>,
    pub statements: Vec<Statement<'a>>,
}

/// What polyhedral analysis finds of a schedule text for the statements of a system.
#[derive(Debug)]
pub struct Scheduling {
    pub reading: Reading,
    /// Whether the schedules of the statements could be put together.
    pub fused: core::result::Result<(), IslError>,
    /// For each statement, whether it has an instance in the schedule.
    pub scheduled: Vec<bool>,
    /// For each question about the dependences, whether an instance runs too early.
    pub answers: Vec<Answer>,
    /// The syntax tree that runs the instances in the order of the schedule.
    pub ast: core::result::Result<AstNode, IslError>,
}

pub open spec fn statement_names(v: Seq<StatementModel>) -> Seq<Seq<char>> {
    Seq::new(v.len(), |i: int| v[i].name)
}

/// A [`ScheduledProgram`] as a mathematical value.
pub struct ProgramModel {
    pub system: System,
    pub statements: Seq<StatementModel>,
    pub width: u32,
    pub schedule: Seq<ScheduleModel>,
    pub root: NodeModel,
}

impl<'a> View for ScheduledProgram<'a> {
    type V = ProgramModel;

    open spec fn view(&self) -> ProgramModel {
        ProgramModel {
            system: *self.system,
            statements: statements_model(self.statements@),
            width: self.width,
            schedule: schedule_models(self.schedule@),
            root: self.root@,
        }
    }
}

/// The schedule of the statements that a text describes.
pub open spec fn text_schedule(
    system: System,
    all: Seq<StatementModel>,
    text: Seq<char>,
    reading: Reading,
) -> ScheduleOutcome {
    built_schedule(param_list(system.params@), statement_shapes(all), text, reading)
}

impl Scheduling {
    /// There is an answer to every question that comes up: where the text is a schedule, one flag
    /// for each statement, and one answer for each dependence between scheduled statements.
    pub open spec fn answers_for(self, system: System, text: Seq<char>) -> bool {
        match system_statements(system) {
            Err(_) => true,
            Ok(all) => text_schedule(system, all, text, self.reading) is Ok && self.fused is Ok
                ==> self.scheduled@.len() == all.len() && self.answers@.len() == questions_of(
                all,
                self.scheduled@,
                all.len(),
            ).len(),
        }
    }
}

/// The program of a legal schedule, once its statements and their schedule are known.
pub open spec fn ordered(
    system: System,
    all: Seq<StatementModel>,
    width: u32,
    schedule: Seq<ScheduleModel>,
    s: Scheduling,
) -> core::result::Result<ProgramModel, Failure> {
    match s.fused {
        Err(e) => Err(Failure::Isl(e.message@)),
        Ok(()) => match legality_failure(all, s.scheduled@, s.answers@) {
            Some(f) => Err(f),
            None => match s.ast {
                Err(e) => Err(Failure::Isl(e.message@)),
                Ok(ast) => match converted_node(ast, statement_names(all)) {
                    Err(f) => Err(f),
                    Ok(root) => Ok(ProgramModel { system, statements: all, width, schedule, root }),
                },
            },
        },
    }
}

/// The program of a system and a schedule text: the statements are found, the text is held against
/// them, the schedule is checked against the dependences, and the syntax tree is converted. The
/// first of these that fails is what fails.
pub open spec fn built(system: System, text: Seq<char>, s: Scheduling) -> core::result::Result<
    ProgramModel,
    Failure,
> {
    if system.bodies@.len() == 0 {
        Err(Failure::Unsupported("system has no bodies to generate code for"@))
    } else {
        match system_statements(system) {
            Err(f) => Err(f),
            Ok(all) => match text_schedule(system, all, text, s.reading) {
                Err(f) => Err(f),
                Ok((width, schedule)) => ordered(system, all, width, schedule, s),
            },
        }
    }
}

pub fn names_of(statements: &Vec<Statement>) -> (r: Vec<String>)
    ensures
        views(r@) == statement_names(statements_model(statements@)),
{
    let mut out: Vec<String> = Vec::new();
    let mut i: usize = 0;
    while i < statements.len()
        invariant
            i <= statements.len(),
            views(out@) =~= statement_names(statements_model(statements@)).take(i as int),
        decreases statements.len() - i,
    {
        push_text(&mut out, statements[i].name.clone());
        i += 1;
    }
    proof {
        assert(statement_names(statements_model(statements@)).take(i as int) =~= statement_names(
            statements_model(statements@),
        ));
    }
    out
}

/// The scheduled program that a schedule text over a system's statements stands for.
pub fn build<'a>(system: &'a System, text: &str, s: &Scheduling) -> (r: Result<
    ScheduledProgram<'a>,
>)
    requires
        system.wf(),
        s.answers_for(*system, text@),
    ensures
        match built(*system, text@, *s) {
            Err(f) => r matches Err(e) && e@ == f,
            Ok(p) => r matches Ok(q) && q@ == p && all_statements_wf(p.statements),
        },
{
    if system.bodies.len() == 0 {
        return Err(unsupported("system has no bodies to generate code for"));
    }
    let all = match statements(system) {
        Ok(v) => v,
        Err(e) => return Err(e),
    };
    let params = param_names_of(&system.params);
    let shapes = statements_to_schedule(&all);
    let (width, schedule) = match build_schedule_for_names(&params, &shapes, text, &s.reading) {
        Ok(found) => found,
        Err(e) => return Err(e),
    };
    match &s.fused {
        Ok(()) => {},
        Err(e) => return Err(CodegenError::Isl(e.clone())),
    }
    match check_legality(&all, &s.scheduled, &s.answers) {
        Ok(()) => {},
        Err(e) => return Err(e),
    }
    let names = names_of(&all);
    match &s.ast {
        Err(e) => Err(CodegenError::Isl(e.clone())),
        Ok(ast) => match convert_node(ast, &names) {
            Err(e) => Err(e),
            Ok(root) => Ok(ScheduledProgram { system, root, width, schedule, statements: all }),
        },
    }
}

/// The schedules that the questions speak of are those of the program.
pub open spec fn scheduled_by(schedule: Seq<ScheduleModel>, l: Leaves) -> bool {
    forall|i: int|
        0 <= i < schedule.len() ==> (l.schedules)(i as usize) == pairs(
            (#[trigger] schedule[i]).relation,
            l,
        )
}

/// A program runs an instance that is read strictly before the instance that reads it, each at the
/// time that the program's schedule gives it, where the answers are right about what the leaves of
/// the relations stand for.
pub proof fn a_program_respects_every_dependence(
    system: System,
    text: Seq<char>,
    s: Scheduling,
    l: Leaves,
    consumer: int,
    edge: int,
    instance: Tuple,
    time: Tuple,
    read: Tuple,
    read_time: Tuple,
)
    requires
        s.answers_for(system, text),
        built(system, text, s) matches Ok(p) && {
            &&& 0 <= consumer < p.statements.len() <= usize::MAX
            &&& s.scheduled@[consumer]
            &&& 0 <= edge < edges_of(p.statements[consumer]).len() <= usize::MAX
            &&& producing_statement(
                p.statements,
                edges_of(p.statements[consumer])[edge].producer,
            ) matches Some(q) && s.scheduled@[q] && relates(
                p.schedule[q].relation,
                l,
                read,
                read_time,
            )
            &&& scheduled_by(p.schedule, l)
            &&& relates(p.schedule[consumer].relation, l, instance, time)
            &&& answered(
                p.statements,
                questions_of(p.statements, s.scheduled@, p.statements.len()),
                s.answers@,
                l,
            )
            &&& relates(
                reached(
                    p.statements,
                    question_about(p.statements, s.scheduled@, consumer, edge)[0],
                ),
                l,
                instance,
                read,
            )
        },
        time.len() == read_time.len(),
    ensures
        comes_before(read_time, time),
{
    match built(system, text, s) {
        Ok(p) => {
            let producer = edges_of(p.statements[consumer])[edge].producer;
            lemma_producer_in_range(p.statements, producer);
            let q = producing_statement(p.statements, producer)->Some_0;
            assert(p.schedule.len() == p.statements.len());
            assert((l.schedules)(q as usize) == pairs(p.schedule[q].relation, l));
            assert((l.schedules)(consumer as usize) == pairs(p.schedule[consumer].relation, l));
            an_accepted_schedule_respects_every_dependence(
                p.statements,
                s.scheduled@,
                s.answers@,
                l,
                consumer,
                edge,
                instance,
                time,
                read,
                read_time,
            );
        },
        Err(_) => {},
    }
}

} // verus!
