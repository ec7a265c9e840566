//! Every expression inside an expression.
use crate::syntax::{Expr, ExprKind};
use vstd::prelude::*;

verus! {

/// The expressions inside a part, where there is one.
pub open spec fn within_part(part: Option<Box<Expr>>) -> Seq<Expr>
    decreases part, 0int,
{
    match part {
        None => Seq::empty(),
        Some(e) => subtree(*e),
    }
}

/// The expressions inside the first `n` of several.
pub open spec fn within_first(v: Vec<Expr>, n: nat) -> Seq<Expr>
    decreases v, n,
{
    if n == 0 || n > v@.len() {
        Seq::empty()
    } else {
        within_first(v, (n - 1) as nat) + subtree(v@[n - 1])
    }
}

/// An expression, followed by everything inside it from left to right.
pub open spec fn subtree(e: Expr) -> Seq<Expr>
    decreases e, 0int,
{
    seq![e] + match e.kind {
        ExprKind::If { cond, then_branch, else_branch } => within_part(cond) + within_part(
            then_branch,
        ) + within_part(else_branch),
        ExprKind::Restrict { domain, expr } => within_part(expr),
        ExprKind::AutoRestrict { expr } => within_part(expr),
        ExprKind::Case { branches } => within_first(branches, branches@.len()),
        ExprKind::Dependence { function, expr } => within_part(expr),
        ExprKind::Reduce { projection, body } => within_part(body),
        ExprKind::Convolution { kernel_domain, kernel, data } => within_part(kernel) + within_part(
            data,
        ),
        ExprKind::Select { relation, expr } => within_part(expr),
        ExprKind::MultiArg { operator, args } => within_first(args, args@.len()),
        ExprKind::Binary { operator, lhs, rhs } => within_part(lhs) + within_part(rhs),
        ExprKind::Unary { operator, operand } => within_part(operand),
        ExprKind::Paren { inner } => within_part(inner),
        _ => Seq::empty(),
    }
}

/// What a list of references refers to.
pub open spec fn referred(v: Seq<&Expr>) -> Seq<Expr> {
    Seq::new(v.len(), |i: int| *v[i])
}

fn walk_part<'a>(part: &'a Option<Box<Expr>>, out: &mut Vec<&'a Expr>)
    ensures
        referred(final(out)@) == referred(old(out)@) + within_part(*part),
    decreases part, 0int,
{
    match part {
        None => {
            proof {
                assert(referred(out@) + Seq::<Expr>::empty() =~= referred(out@));
            }
        },
        Some(e) => walk_expr(e, out),
    }
}

fn walk_all<'a>(v: &'a Vec<Expr>, out: &mut Vec<&'a Expr>)
    ensures
        referred(final(out)@) == referred(old(out)@) + within_first(*v, v@.len()),
    decreases v, 0int,
{
    let ghost before = referred(out@);
    let mut i: usize = 0;
    proof {
        assert(before + within_first(*v, 0) =~= before);
    }
    while i < v.len()
        invariant
            i <= v@.len(),
            referred(out@) == before + within_first(*v, i as nat),
        decreases v@.len() - i,
    {
        walk_expr(&v[i], out);
        proof {
            assert(referred(out@) =~= before + within_first(*v, (i + 1) as nat));
        }
        i += 1;
    }
}

/// Appends an expression and everything inside it.
pub fn walk_expr<'a>(expr: &'a Expr, out: &mut Vec<&'a Expr>)
    ensures
        referred(final(out)@) == referred(old(out)@) + subtree(*expr),
    decreases expr, 0int,
{
    let ghost start = referred(out@);
    out.push(expr);
    let ghost before = referred(out@);
    proof {
        assert(before =~= start + seq![*expr]);
    }
    match &expr.kind {
        ExprKind::If { cond, then_branch, else_branch } => {
            walk_part(cond, out);
            walk_part(then_branch, out);
            walk_part(else_branch, out);
        },
        ExprKind::Restrict { expr: inner, .. } => walk_part(inner, out),
        ExprKind::AutoRestrict { expr: inner } => walk_part(inner, out),
        ExprKind::Case { branches } => walk_all(branches, out),
        ExprKind::Dependence { expr: inner, .. } => walk_part(inner, out),
        ExprKind::Reduce { body, .. } => walk_part(body, out),
        ExprKind::Convolution { kernel, data, .. } => {
            walk_part(kernel, out);
            walk_part(data, out);
        },
        ExprKind::Select { expr: inner, .. } => walk_part(inner, out),
        ExprKind::MultiArg { operator, args } => walk_all(args, out),
        ExprKind::Binary { operator, lhs, rhs } => {
            walk_part(lhs, out);
            walk_part(rhs, out);
        },
        ExprKind::Unary { operator, operand } => walk_part(operand, out),
        ExprKind::Paren { inner } => walk_part(inner, out),
        ExprKind::Variable { .. } => {},
        ExprKind::Index { .. } => {},
        ExprKind::Bool | ExprKind::Int | ExprKind::Real => {},
    }
    proof {
        assert(referred(out@) =~= start + subtree(*expr));
    }
}

/// The names of the variables among some expressions.
pub open spec fn variable_names(all: Seq<Expr>) -> Seq<Seq<char>>
    decreases all.len(),
{
    if all.len() == 0 {
        Seq::empty()
    } else {
        let before = variable_names(all.drop_last());
        match all.last().kind {
            ExprKind::Variable { name: Some(n) } => before.push(n@),
            _ => before,
        }
    }
}

/// The part is there, and is `x`.
pub open spec fn is_there(part: Option<Box<Expr>>, x: Expr) -> bool {
    part matches Some(e) && *e == x
}

/// `x` is an operand, a branch, an argument or a body of `e`.
pub open spec fn is_part(x: Expr, e: Expr) -> bool {
    match e.kind {
        ExprKind::If { cond, then_branch, else_branch } => is_there(cond, x) || is_there(
            then_branch,
            x,
        ) || is_there(else_branch, x),
        ExprKind::Restrict { domain, expr } => is_there(expr, x),
        ExprKind::AutoRestrict { expr } => is_there(expr, x),
        ExprKind::Case { branches } => branches@.contains(x),
        ExprKind::Dependence { function, expr } => is_there(expr, x),
        ExprKind::Reduce { projection, body } => is_there(body, x),
        ExprKind::Convolution { kernel_domain, kernel, data } => is_there(kernel, x) || is_there(
            data,
            x,
        ),
        ExprKind::Select { relation, expr } => is_there(expr, x),
        ExprKind::MultiArg { operator, args } => args@.contains(x),
        ExprKind::Binary { operator, lhs, rhs } => is_there(lhs, x) || is_there(rhs, x),
        ExprKind::Unary { operator, operand } => is_there(operand, x),
        ExprKind::Paren { inner } => is_there(inner, x),
        _ => false,
    }
}

proof fn lemma_within_first(v: Vec<Expr>, n: nat, y: Expr)
    requires
        n <= v@.len(),
    ensures
        within_first(v, n).contains(y) <==> exists|i: int|
            0 <= i < n && subtree(#[trigger] v@[i]).contains(y),
    decreases n,
{
    if n > 0 {
        lemma_within_first(v, (n - 1) as nat, y);
        let before = within_first(v, (n - 1) as nat);
        let own = subtree(v@[n - 1]);
        lemma_in_sum(before, own, y);
        if exists|i: int| 0 <= i < n && subtree(#[trigger] v@[i]).contains(y) {
            let i = choose|i: int| 0 <= i < n && subtree(#[trigger] v@[i]).contains(y);
            if i < n - 1 {
                assert(before.contains(y));
            }
        }
    }
}

/// What is in two lists, one after the other.
pub proof fn lemma_in_sum<A>(a: Seq<A>, b: Seq<A>, x: A)
    ensures
        (a + b).contains(x) <==> a.contains(x) || b.contains(x),
{
    if a.contains(x) {
        let i = choose|i: int| 0 <= i < a.len() && a[i] == x;
        assert((a + b)[i] == x);
    }
    if b.contains(x) {
        let i = choose|i: int| 0 <= i < b.len() && b[i] == x;
        assert((a + b)[a.len() + i] == x);
    }
    if (a + b).contains(x) {
        let i = choose|i: int| 0 <= i < (a + b).len() && (a + b)[i] == x;
        if i < a.len() {
            assert(a[i] == x);
        } else {
            assert(b[i - a.len()] == x);
        }
    }
}

/// An expression in the walk through another is that one itself, or in the walk through one of its
/// parts.
pub proof fn lemma_subtree(e: Expr, y: Expr)
    ensures
        subtree(e).contains(y) <==> y == e || exists|c: Expr| #[trigger]
            is_part(c, e) && subtree(c).contains(y),
{
    let rest = subtree(e).subrange(1, subtree(e).len() as int);
    assert(subtree(e) =~= seq![e] + rest);
    lemma_in_sum(seq![e], rest, y);
    assert(seq![e].contains(y) <==> y == e) by {
        assert(seq![e][0] == e);
    }
    match e.kind {
        ExprKind::If { cond, then_branch, else_branch } => {
            assert(rest =~= within_part(cond) + within_part(then_branch) + within_part(else_branch));
            lemma_in_sum(within_part(cond) + within_part(then_branch), within_part(else_branch), y);
            lemma_in_sum(within_part(cond), within_part(then_branch), y);
            lemma_part(cond, e, y);
            lemma_part(then_branch, e, y);
            lemma_part(else_branch, e, y);
        },
        ExprKind::Restrict { domain, expr } => {
            assert(rest =~= within_part(expr));
            lemma_part(expr, e, y);
        },
        ExprKind::AutoRestrict { expr } => {
            assert(rest =~= within_part(expr));
            lemma_part(expr, e, y);
        },
        ExprKind::Case { branches } => {
            assert(rest =~= within_first(branches, branches@.len()));
            lemma_list(branches, e, y);
        },
        ExprKind::Dependence { function, expr } => {
            assert(rest =~= within_part(expr));
            lemma_part(expr, e, y);
        },
        ExprKind::Reduce { projection, body } => {
            assert(rest =~= within_part(body));
            lemma_part(body, e, y);
        },
        ExprKind::Convolution { kernel_domain, kernel, data } => {
            assert(rest =~= within_part(kernel) + within_part(data));
            lemma_in_sum(within_part(kernel), within_part(data), y);
            lemma_part(kernel, e, y);
            lemma_part(data, e, y);
        },
        ExprKind::Select { relation, expr } => {
            assert(rest =~= within_part(expr));
            lemma_part(expr, e, y);
        },
        ExprKind::MultiArg { operator, args } => {
            assert(rest =~= within_first(args, args@.len()));
            lemma_list(args, e, y);
        },
        ExprKind::Binary { operator, lhs, rhs } => {
            assert(rest =~= within_part(lhs) + within_part(rhs));
            lemma_in_sum(within_part(lhs), within_part(rhs), y);
            lemma_part(lhs, e, y);
            lemma_part(rhs, e, y);
        },
        ExprKind::Unary { operator, operand } => {
            assert(rest =~= within_part(operand));
            lemma_part(operand, e, y);
        },
        ExprKind::Paren { inner } => {
            assert(rest =~= within_part(inner));
            lemma_part(inner, e, y);
        },
        _ => {
            assert(rest =~= Seq::empty());
        },
    }
}

proof fn lemma_part(part: Option<Box<Expr>>, e: Expr, y: Expr)
    requires
        forall|c: Expr| is_there(part, c) ==> #[trigger] is_part(c, e),
    ensures
        within_part(part).contains(y) <==> exists|c: Expr| #[trigger]
            is_there(part, c) && subtree(c).contains(y),
        within_part(part).contains(y) ==> exists|c: Expr| #[trigger]
            is_part(c, e) && subtree(c).contains(y),
{
    if let Some(c) = part {
        assert(is_there(part, *c));
        assert(is_part(*c, e));
    }
}

proof fn lemma_list(v: Vec<Expr>, e: Expr, y: Expr)
    requires
        forall|c: Expr| v@.contains(c) ==> #[trigger] is_part(c, e),
    ensures
        within_first(v, v@.len()).contains(y) <==> exists|c: Expr| #[trigger]
            v@.contains(c) && subtree(c).contains(y),
        within_first(v, v@.len()).contains(y) ==> exists|c: Expr| #[trigger]
            is_part(c, e) && subtree(c).contains(y),
{
    lemma_within_first(v, v@.len(), y);
    if within_first(v, v@.len()).contains(y) {
        let i = choose|i: int| 0 <= i < v@.len() && subtree(#[trigger] v@[i]).contains(y);
        assert(v@.contains(v@[i]));
        assert(is_part(v@[i], e));
    }
    if exists|c: Expr| #[trigger] v@.contains(c) && subtree(c).contains(y) {
        let c = choose|c: Expr| #[trigger] v@.contains(c) && subtree(c).contains(y);
        let i = choose|i: int| 0 <= i < v@.len() && v@[i] == c;
        assert(subtree(v@[i]).contains(y));
    }
}

/// The walk through an expression visits it, and with every expression all of its parts; and it
/// visits nothing else.
pub proof fn the_walk_visits_every_part(e: Expr)
    ensures
        subtree(e).contains(e),
        forall|y: Expr, x: Expr|
            #![trigger subtree(e).contains(y), is_part(x, y)]
            subtree(e).contains(y) && is_part(x, y) ==> subtree(e).contains(x),
        forall|x: Expr| #[trigger]
            subtree(e).contains(x) && x != e ==> exists|y: Expr| #[trigger]
                subtree(e).contains(y) && is_part(x, y),
    decreases e,
{
    lemma_subtree(e, e);
    assert forall|y: Expr, x: Expr|
        #![trigger subtree(e).contains(y), is_part(x, y)]
        subtree(e).contains(y) && is_part(x, y) implies subtree(e).contains(x) by {
        lemma_closed(e, y, x);
    }
    assert forall|x: Expr| #[trigger] subtree(e).contains(x) && x != e implies exists|y: Expr|
        #[trigger]
        subtree(e).contains(y) && is_part(x, y) by {
        lemma_reached(e, x);
    }
}

proof fn lemma_closed(e: Expr, y: Expr, x: Expr)
    requires
        subtree(e).contains(y),
        is_part(x, y),
    ensures
        subtree(e).contains(x),
    decreases e,
{
    lemma_subtree(e, y);
    lemma_subtree(e, x);
    if y == e {
        lemma_subtree(x, x);
    } else {
        let c = choose|c: Expr| #[trigger] is_part(c, e) && subtree(c).contains(y);
        lemma_smaller(c, e);
        lemma_closed(c, y, x);
    }
}

proof fn lemma_reached(e: Expr, x: Expr)
    requires
        subtree(e).contains(x),
        x != e,
    ensures
        exists|y: Expr| #[trigger] subtree(e).contains(y) && is_part(x, y),
    decreases e,
{
    lemma_subtree(e, x);
    lemma_subtree(e, e);
    let c = choose|c: Expr| #[trigger] is_part(c, e) && subtree(c).contains(x);
    if x == c {
        assert(subtree(e).contains(e) && is_part(x, e));
    } else {
        lemma_smaller(c, e);
        lemma_reached(c, x);
        let y = choose|y: Expr| #[trigger] subtree(c).contains(y) && is_part(x, y);
        lemma_subtree(e, y);
        assert(subtree(e).contains(y));
    }
}

proof fn lemma_smaller(c: Expr, e: Expr)
    requires
        is_part(c, e),
    ensures
        decreases_to!(e => c),
{
    match e.kind {
        ExprKind::Case { branches } => {
            let i = choose|i: int| 0 <= i < branches@.len() && branches@[i] == c;
            assert(decreases_to!(e => branches@[i]));
        },
        ExprKind::MultiArg { operator, args } => {
            let i = choose|i: int| 0 <= i < args@.len() && args@[i] == c;
            assert(decreases_to!(e => args@[i]));
        },
        _ => {},
    }
}

/// A name is among those of some expressions exactly if one of them is the variable of that name.
pub proof fn names_are_those_of_the_variables(all: Seq<Expr>, name: Seq<char>)
    ensures
        variable_names(all).contains(name) <==> exists|x: Expr| #[trigger]
            all.contains(x) && is_named(x, name),
    decreases all.len(),
{
    if all.len() > 0 {
        names_are_those_of_the_variables(all.drop_last(), name);
        let before = variable_names(all.drop_last());
        assert(all =~= all.drop_last() + seq![all.last()]);
        assert(seq![all.last()].contains(all.last())) by {
            assert(seq![all.last()][0] == all.last());
        }
        assert forall|x: Expr| all.contains(x) <==> all.drop_last().contains(x) || x == all.last() by {
            lemma_in_sum(all.drop_last(), seq![all.last()], x);
        }
        if let ExprKind::Variable { name: Some(n) } = all.last().kind {
            assert(variable_names(all) =~= before + seq![n@]);
            lemma_in_sum(before, seq![n@], name);
            assert(seq![n@].contains(name) <==> n@ == name) by {
                assert(seq![n@][0] == n@);
            }
            assert(all.contains(all.last()));
        }
        if variable_names(all).contains(name) {
            if before.contains(name) {
                let x = choose|x: Expr| #[trigger]
                    all.drop_last().contains(x) && is_named(x, name);
                assert(all.contains(x) && is_named(x, name));
            } else {
                assert(all.contains(all.last()) && is_named(all.last(), name));
            }
        }
        if exists|x: Expr| #[trigger] all.contains(x) && is_named(x, name) {
            let x = choose|x: Expr| #[trigger] all.contains(x) && is_named(x, name);
            if all.drop_last().contains(x) {
                assert(before.contains(name));
                let i = choose|i: int| 0 <= i < before.len() && before[i] == name;
                assert(variable_names(all)[i] == name);
            }
        }
    }
}

/// The expression is the variable of that name.
pub open spec fn is_named(x: Expr, name: Seq<char>) -> bool {
    x.kind matches ExprKind::Variable { name: Some(n) } && n@ == name
}

} // verus!
