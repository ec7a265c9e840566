//! Computations on polyhedral sets, relations and functions, written down as terms.
//!
//! A term says what is to be computed and in which order: its parts are evaluated from left to
//! right, and the first one that fails decides the failure. Evaluating the leaves, which are
//! plain text, takes a polyhedral library; composing the terms, which is done here, does not.
use crate::diagnostic::{Diagnostic, Issue};
use crate::syntax::Span;
use vstd::prelude::*;

verus! {

#[derive(Debug, Clone, Copy, PartialEq, Eq, Structural)]
pub enum SetOp {
    Union,
    Subtract,
    Intersect,
    /// The right operand intersected with the left one.
    Within,
    /// The right operand without the left one.
    Outside,
    /// The left operand, for the parameter values of the right one.
    IntersectParams,
    /// The right operand, for the parameter values of the left one.
    WithinParams,
}

#[derive(Debug, Clone, Copy, PartialEq, Eq, Structural)]
pub enum SetChange {
    Complement,
    AffineHull,
    PolyhedralHull,
}

#[derive(Debug, Clone, Copy, PartialEq, Eq, Structural)]
pub enum MapSide {
    Domain,
    Range,
}

#[derive(Debug, Clone, Copy, PartialEq, Eq, Structural)]
pub enum MapOp {
    Union,
    Subtract,
    Intersect,
    /// The left relation followed by the right one.
    ApplyRange,
    FlatRangeProduct,
}

#[derive(Debug, Clone, Copy, PartialEq, Eq, Structural)]
pub enum MapLimit {
    IntersectRange,
    SubtractRange,
    IntersectDomain,
}

/// What was kept by node when the plans of a system were carried out.
#[derive(Debug, Clone, Copy, PartialEq, Eq, Structural)]
pub enum Table {
    /// Where an expression is defined.
    Domain,
    /// Where its value is needed.
    Context,
    /// Where an argument of a call is defined, for the parameter values of the body that the call
    /// stands in.
    Argument,
}

/// A function on index tuples. A failed one fails with its diagnostic.
#[derive(Debug)]
pub enum FunctionTerm {
    Read { text: String, at: Span },
    Failed(Diagnostic),
}

#[derive(Debug)]
pub struct PolynomialTerm {
    pub text: String,
    pub at: Span,
}

#[derive(Debug)]
pub enum SetTerm {
    Read { text: String, at: Span },
    Combine { op: SetOp, lhs: Box<SetTerm>, rhs: Box<SetTerm>, at: Span },
    /// Three sets, all of them evaluated before they are intersected from the left.
    Meet { first: Box<SetTerm>, second: Box<SetTerm>, third: Box<SetTerm>, at: Span },
    Change { change: SetChange, set: Box<SetTerm>, at: Span },
    Side { side: MapSide, map: Box<MapTerm>, at: Span },
    /// The points that `function` sends into `set`. Where the function has another number of
    /// results than the set has dimensions, this fails at `mismatch`.
    Preimage { set: Box<SetTerm>, function: FunctionTerm, mismatch: Span, at: Span },
    /// The points that `function`, which is read first, sends the points of `set` to.
    Project { function: FunctionTerm, set: Box<SetTerm>, at: Span },
    /// The points that `relation`, which is evaluated first, relates to a point of `set`.
    Select { relation: Box<MapTerm>, set: Box<SetTerm>, at: Span },
    /// Every point that `function` takes.
    FunctionSpace { function: FunctionTerm, at: Span },
    /// Every point that `polynomial` takes.
    PolynomialSpace { polynomial: PolynomialTerm, at: Span },
    /// `set`, kept as what belongs to `node`.
    Record { node: usize, set: Box<SetTerm> },
    /// Evaluates the values in order, and then fails.
    Failed { before: Vec<Value>, error: Diagnostic },
    /// What was kept for `node`.
    Kept { table: Table, node: usize },
}

#[derive(Debug)]
pub enum MapTerm {
    Read { text: String, at: Span },
    Combine { op: MapOp, lhs: Box<MapTerm>, rhs: Box<MapTerm>, at: Span },
    Limit { limit: MapLimit, map: Box<MapTerm>, set: Box<SetTerm>, at: Span },
    Reverse { map: Box<MapTerm>, at: Span },
    /// `map`, which must relate tuples of `inputs` indices; it fails with `error` otherwise.
    Expect { map: Box<MapTerm>, inputs: usize, error: Diagnostic },
    /// Evaluates the values in order, and then fails.
    Failed { before: Vec<Value>, error: Diagnostic },
    /// Relates each point to the one that `function` sends it to.
    Graph { function: FunctionTerm, at: Span },
    /// Relates each point of `set` to itself.
    Same { set: Box<SetTerm>, at: Span },
}

/// What a calculator expression stands for.
#[derive(Debug)]
pub enum Value {
    Points(SetTerm),
    Relation(MapTerm),
    Function(FunctionTerm),
    Polynomial(PolynomialTerm),
    /// Evaluates the values in order, and then fails.
    Failed { before: Vec<Value>, error: Diagnostic },
}

/// A [`FunctionTerm`] as a mathematical value.
pub enum FunctionModel {
    Read(Seq<char>, Span),
    Failed(Issue),
}

/// A [`PolynomialTerm`] as a mathematical value.
pub struct PolynomialModel {
    pub text: Seq<char>,
    pub at: Span,
}

/// A [`SetTerm`] as a mathematical value.
pub enum SetModel {
    Read(Seq<char>, Span),
    Combine(SetOp, Box<SetModel>, Box<SetModel>, Span),
    Meet(Box<SetModel>, Box<SetModel>, Box<SetModel>, Span),
    Change(SetChange, Box<SetModel>, Span),
    Side(MapSide, Box<MapModel>, Span),
    Preimage(Box<SetModel>, FunctionModel, Span, Span),
    Project(FunctionModel, Box<SetModel>, Span),
    Select(Box<MapModel>, Box<SetModel>, Span),
    FunctionSpace(FunctionModel, Span),
    PolynomialSpace(PolynomialModel, Span),
    Record(usize, Box<SetModel>),
    Failed(Seq<ValueModel>, Issue),
    Kept(Table, usize),
}

/// A [`MapTerm`] as a mathematical value.
pub enum MapModel {
    Read(Seq<char>, Span),
    Combine(MapOp, Box<MapModel>, Box<MapModel>, Span),
    Limit(MapLimit, Box<MapModel>, Box<SetModel>, Span),
    Reverse(Box<MapModel>, Span),
    Expect(Box<MapModel>, usize, Issue),
    Failed(Seq<ValueModel>, Issue),
    Graph(FunctionModel, Span),
    Same(Box<SetModel>, Span),
}

/// A [`Value`] as a mathematical value.
pub enum ValueModel {
    Points(SetModel),
    Relation(MapModel),
    Function(FunctionModel),
    Polynomial(PolynomialModel),
    Failed(Seq<ValueModel>, Issue),
}

impl View for FunctionTerm {
    type V = FunctionModel;

    open spec fn view(&self) -> FunctionModel {
        match *self {
            FunctionTerm::Read { text, at } => FunctionModel::Read(text@, at),
            FunctionTerm::Failed(d) => FunctionModel::Failed(d@),
        }
    }
}

impl Clone for FunctionTerm {
    fn clone(&self) -> (r: FunctionTerm)
        ensures
            r@ == self@,
    {
        match self {
            FunctionTerm::Read { text, at } => FunctionTerm::Read { text: text.clone(), at: *at },
            FunctionTerm::Failed(d) => FunctionTerm::Failed(d.clone()),
        }
    }
}

impl View for PolynomialTerm {
    type V = PolynomialModel;

    open spec fn view(&self) -> PolynomialModel {
        PolynomialModel { text: self.text@, at: self.at }
    }
}

pub open spec fn set_model(t: SetTerm) -> SetModel
    decreases t,
{
    match t {
        SetTerm::Read { text, at } => SetModel::Read(text@, at),
        SetTerm::Combine { op, lhs, rhs, at } => SetModel::Combine(
            op,
            Box::new(set_model(*lhs)),
            Box::new(set_model(*rhs)),
            at,
        ),
        SetTerm::Meet { first, second, third, at } => SetModel::Meet(
            Box::new(set_model(*first)),
            Box::new(set_model(*second)),
            Box::new(set_model(*third)),
            at,
        ),
        SetTerm::Change { change, set, at } => SetModel::Change(
            change,
            Box::new(set_model(*set)),
            at,
        ),
        SetTerm::Side { side, map, at } => SetModel::Side(side, Box::new(map_model(*map)), at),
        SetTerm::Preimage { set, function, mismatch, at } => SetModel::Preimage(
            Box::new(set_model(*set)),
            function@,
            mismatch,
            at,
        ),
        SetTerm::Project { function, set, at } => SetModel::Project(
            function@,
            Box::new(set_model(*set)),
            at,
        ),
        SetTerm::Select { relation, set, at } => SetModel::Select(
            Box::new(map_model(*relation)),
            Box::new(set_model(*set)),
            at,
        ),
        SetTerm::FunctionSpace { function, at } => SetModel::FunctionSpace(function@, at),
        SetTerm::PolynomialSpace { polynomial, at } => SetModel::PolynomialSpace(polynomial@, at),
        SetTerm::Record { node, set } => SetModel::Record(node, Box::new(set_model(*set))),
        SetTerm::Failed { before, error } => SetModel::Failed(value_models(before), error@),
        SetTerm::Kept { table, node } => SetModel::Kept(table, node),
    }
}

pub open spec fn map_model(t: MapTerm) -> MapModel
    decreases t,
{
    match t {
        MapTerm::Read { text, at } => MapModel::Read(text@, at),
        MapTerm::Combine { op, lhs, rhs, at } => MapModel::Combine(
            op,
            Box::new(map_model(*lhs)),
            Box::new(map_model(*rhs)),
            at,
        ),
        MapTerm::Limit { limit, map, set, at } => MapModel::Limit(
            limit,
            Box::new(map_model(*map)),
            Box::new(set_model(*set)),
            at,
        ),
        MapTerm::Reverse { map, at } => MapModel::Reverse(Box::new(map_model(*map)), at),
        MapTerm::Expect { map, inputs, error } => MapModel::Expect(
            Box::new(map_model(*map)),
            inputs,
            error@,
        ),
        MapTerm::Failed { before, error } => MapModel::Failed(value_models(before), error@),
        MapTerm::Graph { function, at } => MapModel::Graph(function@, at),
        MapTerm::Same { set, at } => MapModel::Same(Box::new(set_model(*set)), at),
    }
}

pub open spec fn value_model(v: Value) -> ValueModel
    decreases v,
{
    match v {
        Value::Points(s) => ValueModel::Points(set_model(s)),
        Value::Relation(m) => ValueModel::Relation(map_model(m)),
        Value::Function(f) => ValueModel::Function(f@),
        Value::Polynomial(p) => ValueModel::Polynomial(p@),
        Value::Failed { before, error } => ValueModel::Failed(value_models(before), error@),
    }
}

pub open spec fn value_models(v: Vec<Value>) -> Seq<ValueModel>
    decreases v,
{
    Seq::new(
        v@.len(),
        |i: int|
            if 0 <= i < v@.len() {
                value_model(v@[i])
            } else {
                ValueModel::Failed(Seq::empty(), arbitrary())
            },
    )
}

impl View for SetTerm {
    type V = SetModel;

    open spec fn view(&self) -> SetModel {
        set_model(*self)
    }
}

impl View for MapTerm {
    type V = MapModel;

    open spec fn view(&self) -> MapModel {
        map_model(*self)
    }
}

impl View for Value {
    type V = ValueModel;

    open spec fn view(&self) -> ValueModel {
        value_model(*self)
    }
}

/// A set that is `lhs` and `rhs`, combined.
pub open spec fn combined(op: SetOp, lhs: SetModel, rhs: SetModel, at: Span) -> SetModel {
    SetModel::Combine(op, Box::new(lhs), Box::new(rhs), at)
}

pub fn combine(op: SetOp, lhs: SetTerm, rhs: SetTerm, at: Span) -> (r: SetTerm)
    ensures
        r@ == combined(op, lhs@, rhs@, at),
{
    SetTerm::Combine { op, lhs: Box::new(lhs), rhs: Box::new(rhs), at }
}

pub fn combine_maps(op: MapOp, lhs: MapTerm, rhs: MapTerm, at: Span) -> (r: MapTerm)
    ensures
        r@ == MapModel::Combine(op, Box::new(lhs@), Box::new(rhs@), at),
{
    MapTerm::Combine { op, lhs: Box::new(lhs), rhs: Box::new(rhs), at }
}

/// What was kept for `node`.
pub fn kept_for(table: Table, node: usize) -> (r: SetTerm)
    ensures
        r@ == SetModel::Kept(table, node),
{
    SetTerm::Kept { table, node }
}

pub fn graph_of(function: FunctionTerm, at: Span) -> (r: MapTerm)
    ensures
        r@ == MapModel::Graph(function@, at),
{
    MapTerm::Graph { function, at }
}

pub fn limited(limit: MapLimit, map: MapTerm, set: SetTerm, at: Span) -> (r: MapTerm)
    ensures
        r@ == MapModel::Limit(limit, Box::new(map@), Box::new(set@), at),
{
    MapTerm::Limit { limit, map: Box::new(map), set: Box::new(set), at }
}

pub fn same_points(set: SetTerm, at: Span) -> (r: MapTerm)
    ensures
        r@ == MapModel::Same(Box::new(set@), at),
{
    MapTerm::Same { set: Box::new(set), at }
}

pub fn side_of_map(side: MapSide, map: MapTerm, at: Span) -> (r: SetTerm)
    ensures
        r@ == SetModel::Side(side, Box::new(map@), at),
{
    SetTerm::Side { side, map: Box::new(map), at }
}

/// A set that cannot be computed, and nothing to compute before that shows.
pub open spec fn failed_set(error: Issue) -> SetModel {
    SetModel::Failed(Seq::empty(), error)
}

pub fn set_failure(error: Diagnostic) -> (r: SetTerm)
    ensures
        r@ == failed_set(error@),
{
    let before: Vec<Value> = Vec::new();
    proof {
        assert(value_models(before) =~= Seq::<ValueModel>::empty());
    }
    SetTerm::Failed { before, error }
}

pub fn map_failure(error: Diagnostic) -> (r: MapTerm)
    ensures
        r@ == MapModel::Failed(Seq::empty(), error@),
{
    let before: Vec<Value> = Vec::new();
    proof {
        assert(value_models(before) =~= Seq::<ValueModel>::empty());
    }
    MapTerm::Failed { before, error }
}

pub fn value_failure(error: Diagnostic) -> (r: Value)
    ensures
        r@ == ValueModel::Failed(Seq::empty(), error@),
{
    let before: Vec<Value> = Vec::new();
    proof {
        assert(value_models(before) =~= Seq::<ValueModel>::empty());
    }
    Value::Failed { before, error }
}

pub fn one_value(v: Value) -> (r: Vec<Value>)
    ensures
        value_models(r) == seq![v@],
{
    let mut out: Vec<Value> = Vec::new();
    out.push(v);
    proof {
        assert(value_models(out) =~= seq![v@]);
    }
    out
}

pub fn two_values(v: Value, w: Value) -> (r: Vec<Value>)
    ensures
        value_models(r) == seq![v@, w@],
{
    let mut out: Vec<Value> = Vec::new();
    out.push(v);
    out.push(w);
    proof {
        assert(value_models(out) =~= seq![v@, w@]);
    }
    out
}

/// How the points where a value is needed are found, for an expression and those inside it. A plan
/// starts from a set, the points that the surroundings need. It keeps sets by node, and uses the
/// domains that were kept by node before.
#[derive(Debug)]
pub enum ContextPlan {
    Nothing,
    Failed(Diagnostic),
    /// Narrows the set to the domain of `node`, keeps it for `node`, and goes on. Without a domain
    /// of `node` there is nothing to do.
    Narrow { node: usize, at: Span, then: Box<ContextPlan> },
    /// Carries out every plan, each from the same set.
    Each { plans: Vec<ContextPlan> },
    /// Goes on with the points that `function` sends the set to.
    Forward { function: FunctionTerm, at: Span, then: Box<ContextPlan> },
    /// Goes on with the points that `relation` relates the set to.
    Across { relation: MapTerm, at: Span, then: Box<ContextPlan> },
    /// Goes on with the points that `function` sends into the set.
    Back { function: FunctionTerm, at: Span, then: Box<ContextPlan> },
    /// Evaluates `set`, and goes on from the same set as before.
    After { set: SetTerm, then: Box<ContextPlan> },
    /// Takes the domains of `others` away from the set, narrows it to the domain of `node`, keeps
    /// it for `node`, and goes on. Where nothing is left this fails at `at`. Without a domain of
    /// each of them there is nothing to do.
    Remainder { node: usize, others: Vec<usize>, at: Span, then: Box<ContextPlan> },
}

/// A [`ContextPlan`] as a mathematical value.
pub enum ContextModel {
    Nothing,
    Failed(Issue),
    Narrow(usize, Span, Box<ContextModel>),
    Each(Seq<ContextModel>),
    Forward(FunctionModel, Span, Box<ContextModel>),
    Across(MapModel, Span, Box<ContextModel>),
    Back(FunctionModel, Span, Box<ContextModel>),
    After(SetModel, Box<ContextModel>),
    Remainder(usize, Seq<usize>, Span, Box<ContextModel>),
}

pub open spec fn context_model(p: ContextPlan) -> ContextModel
    decreases p,
{
    match p {
        ContextPlan::Nothing => ContextModel::Nothing,
        ContextPlan::Failed(d) => ContextModel::Failed(d@),
        ContextPlan::Narrow { node, at, then } => ContextModel::Narrow(
            node,
            at,
            Box::new(context_model(*then)),
        ),
        ContextPlan::Each { plans } => ContextModel::Each(context_models(plans)),
        ContextPlan::Forward { function, at, then } => ContextModel::Forward(
            function@,
            at,
            Box::new(context_model(*then)),
        ),
        ContextPlan::Across { relation, at, then } => ContextModel::Across(
            relation@,
            at,
            Box::new(context_model(*then)),
        ),
        ContextPlan::Back { function, at, then } => ContextModel::Back(
            function@,
            at,
            Box::new(context_model(*then)),
        ),
        ContextPlan::After { set, then } => ContextModel::After(
            set@,
            Box::new(context_model(*then)),
        ),
        ContextPlan::Remainder { node, others, at, then } => ContextModel::Remainder(
            node,
            others@,
            at,
            Box::new(context_model(*then)),
        ),
    }
}

pub open spec fn context_models(v: Vec<ContextPlan>) -> Seq<ContextModel>
    decreases v,
{
    Seq::new(
        v@.len(),
        |i: int|
            if 0 <= i < v@.len() {
                context_model(v@[i])
            } else {
                ContextModel::Nothing
            },
    )
}

impl View for ContextPlan {
    type V = ContextModel;

    open spec fn view(&self) -> ContextModel {
        context_model(*self)
    }
}

} // verus!
