//! The operators of the calculator, each defined for certain kinds of operands only.
use crate::diagnostic::{issue, Diagnostic, IssueKind};
use crate::polyhedral::{
    combined, one_value, two_values, MapLimit, MapModel, MapOp, MapSide, MapTerm, SetChange,
    SetModel, SetOp, SetTerm, Value, ValueModel,
};
use crate::syntax::{BinaryKind, Span, UnaryKind};
use vstd::prelude::*;

verus! {

impl ValueModel {
    pub open spec fn kind(self) -> Seq<char> {
        match self {
            ValueModel::Points(_) => "set"@,
            ValueModel::Relation(_) => "relation"@,
            ValueModel::Function(_) => "function"@,
            ValueModel::Polynomial(_) => "polynomial"@,
            ValueModel::Failed(_, _) => "failure"@,
        }
    }
}

impl Value {
    pub fn kind_name(&self) -> (r: &'static str)
        ensures
            r@ == self@.kind(),
    {
        match self {
            Value::Points(_) => "set",
            Value::Relation(_) => "relation",
            Value::Function(_) => "function",
            Value::Polynomial(_) => "polynomial",
            Value::Failed { .. } => "failure",
        }
    }
}

/// What a unary operator makes of its operand. An operand that cannot be computed stays as it is;
/// one of a kind that the operator is not defined for is computed, and then reported.
pub open spec fn unary_value(
    kind: UnaryKind,
    operator: Seq<char>,
    at: Span,
    operand: ValueModel,
) -> ValueModel {
    match (kind, operand) {
        (_, ValueModel::Failed(before, error)) => operand,
        (UnaryKind::Domain, ValueModel::Relation(m)) => ValueModel::Points(
            SetModel::Side(MapSide::Domain, Box::new(m), at),
        ),
        (UnaryKind::Range, ValueModel::Relation(m)) => ValueModel::Points(
            SetModel::Side(MapSide::Range, Box::new(m), at),
        ),
        (UnaryKind::Complement, ValueModel::Points(s)) => ValueModel::Points(
            SetModel::Change(SetChange::Complement, Box::new(s), at),
        ),
        (UnaryKind::AffineHull, ValueModel::Points(s)) => ValueModel::Points(
            SetModel::Change(SetChange::AffineHull, Box::new(s), at),
        ),
        (UnaryKind::PolyHull, ValueModel::Points(s)) => ValueModel::Points(
            SetModel::Change(SetChange::PolyhedralHull, Box::new(s), at),
        ),
        (UnaryKind::Reverse, ValueModel::Relation(m)) => ValueModel::Relation(
            MapModel::Reverse(Box::new(m), at),
        ),
        _ => ValueModel::Failed(
            seq![operand],
            issue(
                IssueKind::InvalidCalculatorOperand,
                seq![operator, operand.kind()],
                at.pair(),
            ),
        ),
    }
}

pub fn eval_unary(kind: UnaryKind, operator: &str, at: Span, operand: Value) -> (r: Value)
    ensures
        r@ == unary_value(kind, operator@, at, operand@),
{
    match (kind, operand) {
        (_, Value::Failed { before, error }) => Value::Failed { before, error },
        (UnaryKind::Domain, Value::Relation(m)) => Value::Points(
            SetTerm::Side { side: MapSide::Domain, map: Box::new(m), at },
        ),
        (UnaryKind::Range, Value::Relation(m)) => Value::Points(
            SetTerm::Side { side: MapSide::Range, map: Box::new(m), at },
        ),
        (UnaryKind::Complement, Value::Points(s)) => Value::Points(
            SetTerm::Change { change: SetChange::Complement, set: Box::new(s), at },
        ),
        (UnaryKind::AffineHull, Value::Points(s)) => Value::Points(
            SetTerm::Change { change: SetChange::AffineHull, set: Box::new(s), at },
        ),
        (UnaryKind::PolyHull, Value::Points(s)) => Value::Points(
            SetTerm::Change { change: SetChange::PolyhedralHull, set: Box::new(s), at },
        ),
        (UnaryKind::Reverse, Value::Relation(m)) => Value::Relation(
            MapTerm::Reverse { map: Box::new(m), at },
        ),
        (_, other) => {
            let error = Diagnostic::InvalidCalculatorOperand {
                operator: operator.to_owned(),
                operand_kind: other.kind_name().to_owned(),
                start: at.start,
                end: at.end,
            };
            Value::Failed { before: one_value(other), error }
        },
    }
}

pub open spec fn map_of(op: MapOp, l: MapModel, r: MapModel, at: Span) -> ValueModel {
    ValueModel::Relation(MapModel::Combine(op, Box::new(l), Box::new(r), at))
}

/// What a binary operator makes of its operands, which are computed from left to right.
pub open spec fn binary_value(
    kind: BinaryKind,
    operator: Seq<char>,
    at: Span,
    lhs: ValueModel,
    rhs: ValueModel,
) -> ValueModel {
    match (kind, lhs, rhs) {
        (_, ValueModel::Failed(before, error), _) => lhs,
        (_, _, ValueModel::Failed(before, error)) => ValueModel::Failed(seq![lhs] + before, error),
        (BinaryKind::Plus, ValueModel::Points(l), ValueModel::Points(r)) => ValueModel::Points(
            combined(SetOp::Union, l, r, at),
        ),
        (BinaryKind::Plus, ValueModel::Relation(l), ValueModel::Relation(r)) => map_of(
            MapOp::Union,
            l,
            r,
            at,
        ),
        (BinaryKind::Minus, ValueModel::Points(l), ValueModel::Points(r)) => ValueModel::Points(
            combined(SetOp::Subtract, l, r, at),
        ),
        (BinaryKind::Minus, ValueModel::Relation(l), ValueModel::Relation(r)) => map_of(
            MapOp::Subtract,
            l,
            r,
            at,
        ),
        (BinaryKind::Star, ValueModel::Points(l), ValueModel::Points(r)) => ValueModel::Points(
            combined(SetOp::Intersect, l, r, at),
        ),
        (BinaryKind::Star, ValueModel::Relation(l), ValueModel::Relation(r)) => map_of(
            MapOp::Intersect,
            l,
            r,
            at,
        ),
        (BinaryKind::IntersectRange, ValueModel::Relation(l), ValueModel::Points(r)) =>
            ValueModel::Relation(
            MapModel::Limit(MapLimit::IntersectRange, Box::new(l), Box::new(r), at),
        ),
        (BinaryKind::SubtractRange, ValueModel::Relation(l), ValueModel::Points(r)) =>
            ValueModel::Relation(
            MapModel::Limit(MapLimit::SubtractRange, Box::new(l), Box::new(r), at),
        ),
        (BinaryKind::At, ValueModel::Relation(l), ValueModel::Relation(r)) => map_of(
            MapOp::ApplyRange,
            l,
            r,
            at,
        ),
        (BinaryKind::Cross, ValueModel::Relation(l), ValueModel::Relation(r)) => map_of(
            MapOp::FlatRangeProduct,
            l,
            r,
            at,
        ),
        (BinaryKind::Cross, _, _) => ValueModel::Failed(
            seq![lhs, rhs],
            issue(IssueKind::UnsupportedCalculatorOp, seq![operator], at.pair()),
        ),
        _ => ValueModel::Failed(
            seq![lhs, rhs],
            issue(
                IssueKind::InvalidCalculatorOperandPair,
                seq![operator, lhs.kind(), rhs.kind()],
                at.pair(),
            ),
        ),
    }
}

fn relation(op: MapOp, l: MapTerm, r: MapTerm, at: Span) -> (v: Value)
    ensures
        v@ == map_of(op, l@, r@, at),
{
    Value::Relation(MapTerm::Combine { op, lhs: Box::new(l), rhs: Box::new(r), at })
}

fn points(op: SetOp, l: SetTerm, r: SetTerm, at: Span) -> (v: Value)
    ensures
        v@ == ValueModel::Points(combined(op, l@, r@, at)),
{
    Value::Points(SetTerm::Combine { op, lhs: Box::new(l), rhs: Box::new(r), at })
}

/// `first` computed before everything else.
pub fn preceded(first: Value, before: Vec<Value>, error: Diagnostic) -> (r: Value)
    ensures
        r@ == ValueModel::Failed(
            seq![first@] + crate::polyhedral::value_models(before),
            error@,
        ),
{
    let mut all: Vec<Value> = one_value(first);
    let mut rest = before;
    all.append(&mut rest);
    proof {
        assert(crate::polyhedral::value_models(all) =~= seq![first@]
            + crate::polyhedral::value_models(before));
    }
    Value::Failed { before: all, error }
}

pub fn eval_binary(kind: BinaryKind, operator: &str, at: Span, lhs: Value, rhs: Value) -> (r: Value)
    ensures
        r@ == binary_value(kind, operator@, at, lhs@, rhs@),
{
    match (kind, lhs, rhs) {
        (_, Value::Failed { before, error }, _) => Value::Failed { before, error },
        (_, l, Value::Failed { before, error }) => preceded(l, before, error),
        (BinaryKind::Plus, Value::Points(l), Value::Points(r)) => points(SetOp::Union, l, r, at),
        (BinaryKind::Plus, Value::Relation(l), Value::Relation(r)) => relation(
            MapOp::Union,
            l,
            r,
            at,
        ),
        (BinaryKind::Minus, Value::Points(l), Value::Points(r)) => points(
            SetOp::Subtract,
            l,
            r,
            at,
        ),
        (BinaryKind::Minus, Value::Relation(l), Value::Relation(r)) => relation(
            MapOp::Subtract,
            l,
            r,
            at,
        ),
        (BinaryKind::Star, Value::Points(l), Value::Points(r)) => points(
            SetOp::Intersect,
            l,
            r,
            at,
        ),
        (BinaryKind::Star, Value::Relation(l), Value::Relation(r)) => relation(
            MapOp::Intersect,
            l,
            r,
            at,
        ),
        (BinaryKind::IntersectRange, Value::Relation(l), Value::Points(r)) => Value::Relation(
            MapTerm::Limit {
                limit: MapLimit::IntersectRange,
                map: Box::new(l),
                set: Box::new(r),
                at,
            },
        ),
        (BinaryKind::SubtractRange, Value::Relation(l), Value::Points(r)) => Value::Relation(
            MapTerm::Limit {
                limit: MapLimit::SubtractRange,
                map: Box::new(l),
                set: Box::new(r),
                at,
            },
        ),
        (BinaryKind::At, Value::Relation(l), Value::Relation(r)) => relation(
            MapOp::ApplyRange,
            l,
            r,
            at,
        ),
        (BinaryKind::Cross, Value::Relation(l), Value::Relation(r)) => relation(
            MapOp::FlatRangeProduct,
            l,
            r,
            at,
        ),
        (BinaryKind::Cross, l, r) => {
            let error = Diagnostic::UnsupportedCalculatorOp {
                operator: operator.to_owned(),
                start: at.start,
                end: at.end,
            };
            Value::Failed { before: two_values(l, r), error }
        },
        (_, l, r) => {
            let error = Diagnostic::InvalidCalculatorOperandPair {
                operator: operator.to_owned(),
                left_kind: l.kind_name().to_owned(),
                right_kind: r.kind_name().to_owned(),
                start: at.start,
                end: at.end,
            };
            Value::Failed { before: two_values(l, r), error }
        },
    }
}

} // verus!
