//! What the operators of the calculator do to points and to pairs of points.
use crate::diagnostic::{issue, IssueKind};
use crate::meaning::{pairs, points, Point, Reading};
use crate::polyhedral::{MapModel, SetChange, SetModel, ValueModel};
use crate::resolve::{calc_value, Visit};
use crate::syntax::{BinaryKind, Calc, Span, System, UnaryKind};
use crate::value::{binary_value, unary_value};
use vstd::prelude::*;

verus! {

/// The value is a set that holds the point exactly if `inside`.
pub open spec fn holds_point(v: ValueModel, r: Reading, p: Point, inside: bool) -> bool {
    v matches ValueModel::Points(t) && points(t, r).contains(p) == inside
}

/// The value is a relation that relates the points exactly if `related`.
pub open spec fn holds_pair(v: ValueModel, r: Reading, x: Point, y: Point, related: bool) -> bool {
    v matches ValueModel::Relation(t) && pairs(t, r).contains((x, y)) == related
}

/// A point lies in `a + b` if it lies in either of the two sets, in `a - b` if it lies in the first
/// and not in the second, and in `a * b` if it lies in both.
pub proof fn operators_on_sets_act_point_by_point(
    operator: Seq<char>,
    at: Span,
    a: SetModel,
    b: SetModel,
    r: Reading,
    p: Point,
)
    ensures
        ({
            let result = |kind: BinaryKind|
                binary_value(kind, operator, at, ValueModel::Points(a), ValueModel::Points(b));
            let first = points(a, r).contains(p);
            let second = points(b, r).contains(p);
            &&& holds_point(result(BinaryKind::Plus), r, p, first || second)
            &&& holds_point(result(BinaryKind::Minus), r, p, first && !second)
            &&& holds_point(result(BinaryKind::Star), r, p, first && second)
        }),
{
}

/// The same for pairs of points in relations. Further, `a @ b` relates what `a` takes to some point
/// that `b` takes on, and a relation can be kept to those of its pairs that lead into a set, or to
/// those that do not.
pub proof fn operators_on_relations_act_pair_by_pair(
    operator: Seq<char>,
    at: Span,
    a: MapModel,
    b: MapModel,
    s: SetModel,
    r: Reading,
    x: Point,
    y: Point,
)
    ensures
        ({
            let result = |kind: BinaryKind|
                binary_value(kind, operator, at, ValueModel::Relation(a), ValueModel::Relation(b));
            let limited = |kind: BinaryKind|
                binary_value(kind, operator, at, ValueModel::Relation(a), ValueModel::Points(s));
            let first = pairs(a, r).contains((x, y));
            let second = pairs(b, r).contains((x, y));
            let into = points(s, r).contains(y);
            &&& holds_pair(result(BinaryKind::Plus), r, x, y, first || second)
            &&& holds_pair(result(BinaryKind::Minus), r, x, y, first && !second)
            &&& holds_pair(result(BinaryKind::Star), r, x, y, first && second)
            &&& holds_pair(
                result(BinaryKind::At),
                r,
                x,
                y,
                exists|m: Point| pairs(a, r).contains((x, m)) && pairs(b, r).contains((m, y)),
            )
            &&& holds_pair(
                result(BinaryKind::Cross),
                r,
                x,
                y,
                (r.product)(pairs(a, r), pairs(b, r)).contains((x, y)),
            )
            &&& holds_pair(limited(BinaryKind::IntersectRange), r, x, y, first && into)
            &&& holds_pair(limited(BinaryKind::SubtractRange), r, x, y, first && !into)
        }),
{
    let t = binary_value(
        BinaryKind::At,
        operator,
        at,
        ValueModel::Relation(a),
        ValueModel::Relation(b),
    )->Relation_0;
    let z = (x, y);
    let (f, g) = (pairs(a, r), pairs(b, r));
    assert(pairs(t, r) == Set::new(
        |x: (Point, Point)| exists|m: Point| f.contains((x.0, m)) && g.contains((m, x.1)),
    ));
    assert(pairs(t, r).contains(z) <==> exists|m: Point|
        pairs(a, r).contains((z.0, m)) && pairs(b, r).contains((m, z.1)));
    if pairs(t, r).contains(z) {
        let m = choose|m: Point| pairs(a, r).contains((z.0, m)) && pairs(b, r).contains((m, z.1));
        assert(pairs(a, r).contains((x, m)) && pairs(b, r).contains((m, y)));
    }
    if exists|m: Point| pairs(a, r).contains((x, m)) && pairs(b, r).contains((m, y)) {
        let m = choose|m: Point| pairs(a, r).contains((x, m)) && pairs(b, r).contains((m, y));
        assert(pairs(a, r).contains((z.0, m)) && pairs(b, r).contains((m, z.1)));
    }
}

/// The domain of a relation holds what it takes, its range what it gives, and its reverse relates
/// the two the other way round. The complement and the hulls of a set are those of its points.
pub proof fn operators_on_one_value_act_on_its_points(
    operator: Seq<char>,
    at: Span,
    a: SetModel,
    m: MapModel,
    r: Reading,
    x: Point,
    y: Point,
)
    ensures
        ({
            let of_set = |kind: UnaryKind| unary_value(kind, operator, at, ValueModel::Points(a));
            let of_map = |kind: UnaryKind|
                unary_value(kind, operator, at, ValueModel::Relation(m));
            let changed = |change: SetChange| (r.change)(change, points(a, r)).contains(x);
            &&& holds_point(
                of_map(UnaryKind::Domain),
                r,
                x,
                exists|q: Point| pairs(m, r).contains((x, q)),
            )
            &&& holds_point(
                of_map(UnaryKind::Range),
                r,
                x,
                exists|q: Point| pairs(m, r).contains((q, x)),
            )
            &&& holds_pair(
                of_map(UnaryKind::Reverse),
                r,
                x,
                y,
                pairs(m, r).contains((y, x)),
            )
            &&& holds_point(of_set(UnaryKind::Complement), r, x, changed(SetChange::Complement))
            &&& holds_point(of_set(UnaryKind::AffineHull), r, x, changed(SetChange::AffineHull))
            &&& holds_point(of_set(UnaryKind::PolyHull), r, x, changed(SetChange::PolyhedralHull))
        }),
{
    let t = unary_value(UnaryKind::Reverse, operator, at, ValueModel::Relation(m))->Relation_0;
    let z = (x, y);
    assert(pairs(t, r).contains(z) <==> pairs(m, r).contains((z.1, z.0)));
    let d = unary_value(UnaryKind::Domain, operator, at, ValueModel::Relation(m))->Points_0;
    assert(points(d, r).contains(x) <==> exists|q: Point| pairs(m, r).contains((x, q)));
    let d = unary_value(UnaryKind::Range, operator, at, ValueModel::Relation(m))->Points_0;
    assert(points(d, r).contains(x) <==> exists|q: Point| pairs(m, r).contains((q, x)));
}

pub open spec fn is_failure(v: ValueModel) -> bool {
    v is Failed
}

/// The pairs of kinds of operands that a binary operator takes.
pub open spec fn takes_pair(kind: BinaryKind, l: ValueModel, r: ValueModel) -> bool {
    let sets = l is Points && r is Points;
    let relations = l is Relation && r is Relation;
    match kind {
        BinaryKind::Plus | BinaryKind::Minus | BinaryKind::Star => sets || relations,
        BinaryKind::At | BinaryKind::Cross => relations,
        BinaryKind::IntersectRange | BinaryKind::SubtractRange => l is Relation && r is Points,
        BinaryKind::Other => false,
    }
}

/// A binary operator fails exactly on operands that it does not take, of which one may have failed
/// already. A failed operand is what is reported then, the left one first; otherwise the operator is
/// refused, together with the kinds of the two operands.
pub proof fn a_binary_operator_takes_certain_operands_only(
    kind: BinaryKind,
    operator: Seq<char>,
    at: Span,
    l: ValueModel,
    r: ValueModel,
)
    ensures
        is_failure(binary_value(kind, operator, at, l, r)) <==> !takes_pair(kind, l, r),
        l is Failed ==> (binary_value(kind, operator, at, l, r) matches ValueModel::Failed(_, e)
            && e == l->Failed_1),
        !(l is Failed) && r is Failed ==> (binary_value(kind, operator, at, l, r)
            matches ValueModel::Failed(_, e) && e == r->Failed_1),
        !(l is Failed) && !(r is Failed) && !takes_pair(kind, l, r) && kind != BinaryKind::Cross
            ==> (binary_value(kind, operator, at, l, r) matches ValueModel::Failed(_, e) && e
            == issue(
            IssueKind::InvalidCalculatorOperandPair,
            seq![operator, l.kind(), r.kind()],
            at.pair(),
        )),
        !(l is Failed) && !(r is Failed) && !takes_pair(kind, l, r) && kind == BinaryKind::Cross
            ==> (binary_value(kind, operator, at, l, r) matches ValueModel::Failed(_, e) && e
            == issue(IssueKind::UnsupportedCalculatorOp, seq![operator], at.pair())),
{
}

/// A unary operator fails exactly on an operand that it does not take.
pub proof fn a_unary_operator_takes_certain_operands_only(
    kind: UnaryKind,
    operator: Seq<char>,
    at: Span,
    v: ValueModel,
)
    ensures
        is_failure(unary_value(kind, operator, at, v)) <==> !match kind {
            UnaryKind::Domain | UnaryKind::Range | UnaryKind::Reverse => v is Relation,
            UnaryKind::Complement | UnaryKind::AffineHull | UnaryKind::PolyHull => v is Points,
            UnaryKind::Other => false,
        },
        v is Failed ==> (unary_value(kind, operator, at, v) matches ValueModel::Failed(_, e) && e
            == v->Failed_1),
        !(v is Failed) && is_failure(unary_value(kind, operator, at, v)) ==> (unary_value(
            kind,
            operator,
            at,
            v,
        ) matches ValueModel::Failed(_, e) && e == issue(
            IssueKind::InvalidCalculatorOperand,
            seq![operator, v.kind()],
            at.pair(),
        )),
{
}

/// An expression of the calculator with a binary operator stands for the points that the operator
/// makes of those of its operands.
pub proof fn an_expression_of_sets_stands_for_its_points(
    s: System,
    c: Calc,
    path: Seq<Visit>,
    r: Reading,
    p: Point,
)
    requires
        c.kind is Binary,
        c.kind->Binary_lhs is Some,
        c.kind->Binary_rhs is Some,
        calc_value(s, *c.kind->Binary_lhs->Some_0, path) is Points,
        calc_value(s, *c.kind->Binary_rhs->Some_0, path) is Points,
    ensures
        ({
            let a = calc_value(s, *c.kind->Binary_lhs->Some_0, path)->Points_0;
            let b = calc_value(s, *c.kind->Binary_rhs->Some_0, path)->Points_0;
            let first = points(a, r).contains(p);
            let second = points(b, r).contains(p);
            match c.kind->Binary_kind {
                BinaryKind::Plus => holds_point(calc_value(s, c, path), r, p, first || second),
                BinaryKind::Minus => holds_point(calc_value(s, c, path), r, p, first && !second),
                BinaryKind::Star => holds_point(calc_value(s, c, path), r, p, first && second),
                _ => is_failure(calc_value(s, c, path)),
            }
        }),
{
}

/// An expression of the calculator with a binary operator on relations stands for the pairs that
/// the operator makes of those of its operands.
pub proof fn an_expression_of_relations_stands_for_its_pairs(
    s: System,
    c: Calc,
    path: Seq<Visit>,
    r: Reading,
    x: Point,
    y: Point,
)
    requires
        c.kind is Binary,
        c.kind->Binary_lhs is Some,
        c.kind->Binary_rhs is Some,
        calc_value(s, *c.kind->Binary_lhs->Some_0, path) is Relation,
        calc_value(s, *c.kind->Binary_rhs->Some_0, path) is Relation,
    ensures
        ({
            let a = pairs(calc_value(s, *c.kind->Binary_lhs->Some_0, path)->Relation_0, r);
            let b = pairs(calc_value(s, *c.kind->Binary_rhs->Some_0, path)->Relation_0, r);
            let first = a.contains((x, y));
            let second = b.contains((x, y));
            let v = calc_value(s, c, path);
            match c.kind->Binary_kind {
                BinaryKind::Plus => holds_pair(v, r, x, y, first || second),
                BinaryKind::Minus => holds_pair(v, r, x, y, first && !second),
                BinaryKind::Star => holds_pair(v, r, x, y, first && second),
                BinaryKind::At => holds_pair(
                    v,
                    r,
                    x,
                    y,
                    exists|m: Point| a.contains((x, m)) && b.contains((m, y)),
                ),
                BinaryKind::Cross => holds_pair(
                    v,
                    r,
                    x,
                    y,
                    (r.product)(a, b).contains((x, y)),
                ),
                _ => is_failure(v),
            }
        }),
{
    let a = calc_value(s, *c.kind->Binary_lhs->Some_0, path)->Relation_0;
    let b = calc_value(s, *c.kind->Binary_rhs->Some_0, path)->Relation_0;
    operators_on_relations_act_pair_by_pair(
        c.kind->Binary_operator@,
        c.span,
        a,
        b,
        SetModel::Failed(Seq::empty(), arbitrary()),
        r,
        x,
        y,
    );
}

/// Parentheses change nothing.
pub proof fn parentheses_change_nothing(s: System, c: Calc, path: Seq<Visit>)
    requires
        c.kind is Paren,
        c.kind->inner is Some,
    ensures
        calc_value(s, c, path) == calc_value(s, *c.kind->inner->Some_0, path),
{
}

} // verus!
