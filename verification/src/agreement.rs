//! What the demand-driven and the scheduled generator have in common.
use crate::expr::{
    case_value, found, value, values, Backend, Emitted, Env, Role, VarInfo,
};
use crate::ir::{Expr, ExprKind};
use vstd::prelude::*;

verus! {

/// The expression reads inputs alone and holds no reduction to be computed.
pub open spec fn inputs_only(variables: Seq<(Seq<char>, VarInfo)>, e: Expr) -> bool
    decreases e,
{
    match *e.kind {
        ExprKind::Dependence { function, operand } => match *operand.kind {
            ExprKind::Variable(name) => match found(variables, name@) {
                Some(info) => info.role == Role::Input,
                None => true,
            },
            _ => true,
        },
        ExprKind::If { cond, then_branch, else_branch } => inputs_only(variables, cond)
            && inputs_only(variables, then_branch) && inputs_only(variables, else_branch),
        ExprKind::Restrict { operand } => inputs_only(variables, operand),
        ExprKind::AutoRestrict { operand } => inputs_only(variables, operand),
        ExprKind::Case { branches } => all_inputs_only(variables, branches@),
        ExprKind::Reduce { is_arg_reduce, .. } => is_arg_reduce,
        ExprKind::MultiArg { operator, args } => all_inputs_only(variables, args@),
        ExprKind::Binary { operator, lhs, rhs } => inputs_only(variables, lhs) && inputs_only(
            variables,
            rhs,
        ),
        ExprKind::Unary { operator, operand } => inputs_only(variables, operand),
        _ => true,
    }
}

pub open spec fn all_inputs_only(variables: Seq<(Seq<char>, VarInfo)>, v: Seq<Expr>) -> bool
    decreases v,
{
    forall|i: int| 0 <= i < v.len() ==> inputs_only(variables, #[trigger] v[i])
}

/// What a generator knows of the same variables and parameters.
pub open spec fn knowing(
    backend: Backend,
    variables: Seq<(Seq<char>, VarInfo)>,
    params: Seq<Seq<char>>,
) -> Env {
    Env { backend, variables, params }
}

/// Both generators write the same C text for an expression that reads inputs alone, and declare the
/// same external functions for it: they differ only in how they get at computed variables.
pub proof fn both_generators_render_alike(
    variables: Seq<(Seq<char>, VarInfo)>,
    params: Seq<Seq<char>>,
    st: Emitted,
    names: Seq<Seq<char>>,
    e: Expr,
)
    requires
        inputs_only(variables, e),
    ensures
        value(knowing(Backend::WriteC, variables, params), st, names, e) == value(
            knowing(Backend::ScheduledC, variables, params),
            st,
            names,
            e,
        ),
    decreases e, 0int,
{
    let w = knowing(Backend::WriteC, variables, params);
    match *e.kind {
        ExprKind::If { cond, then_branch, else_branch } => {
            both_generators_render_alike(variables, params, st, names, cond);
            let s1 = value(w, st, names, cond).1;
            both_generators_render_alike(variables, params, s1, names, then_branch);
            let s2 = value(w, s1, names, then_branch).1;
            both_generators_render_alike(variables, params, s2, names, else_branch);
        },
        ExprKind::Restrict { operand } => {
            both_generators_render_alike(variables, params, st, names, operand);
        },
        ExprKind::AutoRestrict { operand } => {
            both_generators_render_alike(variables, params, st, names, operand);
        },
        ExprKind::Case { branches } => {
            lemma_cases_alike(variables, params, st, names, branches@);
        },
        ExprKind::MultiArg { operator, args } => {
            lemma_lists_alike(variables, params, st, names, args@);
        },
        ExprKind::Binary { operator, lhs, rhs } => {
            both_generators_render_alike(variables, params, st, names, lhs);
            let s1 = value(w, st, names, lhs).1;
            both_generators_render_alike(variables, params, s1, names, rhs);
        },
        ExprKind::Unary { operator, operand } => {
            both_generators_render_alike(variables, params, st, names, operand);
        },
        _ => {},
    }
}

proof fn lemma_cases_alike(
    variables: Seq<(Seq<char>, VarInfo)>,
    params: Seq<Seq<char>>,
    st: Emitted,
    names: Seq<Seq<char>>,
    branches: Seq<Expr>,
)
    requires
        all_inputs_only(variables, branches),
    ensures
        case_value(knowing(Backend::WriteC, variables, params), st, names, branches) == case_value(
            knowing(Backend::ScheduledC, variables, params),
            st,
            names,
            branches,
        ),
    decreases branches, 0int,
{
    let w = knowing(Backend::WriteC, variables, params);
    if branches.len() == 1 {
        both_generators_render_alike(variables, params, st, names, branches[0]);
    } else if branches.len() > 1 {
        let rest = branches.subrange(1, branches.len() as int);
        assert forall|i: int| 0 <= i < rest.len() implies inputs_only(
            variables,
            #[trigger] rest[i],
        ) by {
            assert(rest[i] == branches[i + 1]);
        }
        lemma_cases_alike(variables, params, st, names, rest);
        let s1 = case_value(w, st, names, rest).1;
        both_generators_render_alike(variables, params, s1, names, branches[0]);
    }
}

proof fn lemma_lists_alike(
    variables: Seq<(Seq<char>, VarInfo)>,
    params: Seq<Seq<char>>,
    st: Emitted,
    names: Seq<Seq<char>>,
    es: Seq<Expr>,
)
    requires
        all_inputs_only(variables, es),
    ensures
        values(knowing(Backend::WriteC, variables, params), st, names, es) == values(
            knowing(Backend::ScheduledC, variables, params),
            st,
            names,
            es,
        ),
    decreases es, 0int,
{
    let w = knowing(Backend::WriteC, variables, params);
    if es.len() > 0 {
        let before = es.drop_last();
        assert forall|i: int| 0 <= i < before.len() implies inputs_only(
            variables,
            #[trigger] before[i],
        ) by {
            assert(before[i] == es[i]);
        }
        lemma_lists_alike(variables, params, st, names, before);
        let s1 = values(w, st, names, before).1;
        both_generators_render_alike(variables, params, s1, names, es.last());
    }
}

} // verus!
