//! What the reports on cases, reductions and use equations come to, point by point.
use crate::completeness::{
    all_contexts, bodies_report, branch_overlaps, case_report, reduce_report, says_yes, unbounded,
    BodiesAnswer, BodyAnswer, BoundAnswer, BranchAnswer, ReduceAnswer,
};
use crate::diagnostic::IssueKind;
use crate::domain::{body_set, folded};
use crate::meaning::{
    a_case_needs_one_branch, clipped, lemma_clean_bodies, points, union_of, Point, Reading,
};
use crate::polyhedral::{SetModel, SetOp};
use crate::questions::{
    body_clashes, body_overlap_set, body_regions, branch_overlap_set, branch_sets, joined,
    joined_first, mention_clashes, mention_overlap_set, needed_at, needed_set, unclaimed_set,
    unwritten_set, written_by_first,
};
use crate::resolve::{param_set, variable_set};
use crate::syntax::{Expr, Span, System, SystemBody};
use crate::use_outputs::{
    each_output, first_mention, mentions_in, outputs_report, places, sum, variable_report,
    variables_report, MentionAnswer, MentionModel, Sum, VariableAnswer,
};
use vstd::prelude::*;

verus! {

/// The answers for the branches of a case are the true ones for the given contexts.
pub open spec fn branches_answered(answers: Seq<BranchAnswer>, contexts: Seq<Set<Point>>) -> bool {
    &&& answers.len() == contexts.len()
    &&& all_contexts(answers)
    &&& forall|k: int|
        0 <= k < answers.len() ==> (#[trigger] answers[k]).overlap is Ok && (
        answers[k].overlap->Ok_0 is None <==> union_of(contexts, k).disjoint(contexts[k]))
}

proof fn lemma_branches(branches: Seq<Expr>, answers: Seq<BranchAnswer>, n: nat)
    requires
        n <= answers.len(),
        forall|k: int| 0 <= k < answers.len() ==> (#[trigger] answers[k]).overlap is Ok,
    ensures
        branch_overlaps(branches, answers, n) is Ok,
        branch_overlaps(branches, answers, n)->Ok_0.len() == 0 <==> forall|k: int|
            1 <= k < n ==> (#[trigger] answers[k]).overlap->Ok_0 is None,
    decreases n,
{
    if n > 1 {
        lemma_branches(branches, answers, (n - 1) as nat);
        assert(answers[n - 1].overlap is Ok);
    }
}

proof fn lemma_clean_cases(
    branches: Seq<Expr>,
    answers: Seq<BranchAnswer>,
    contexts: Seq<Set<Point>>,
)
    requires
        branches.len() == contexts.len(),
        branches_answered(answers, contexts),
    ensures
        case_report(branches, answers).len() == 0 <==> forall|i: int, j: int|
            0 <= i < j < contexts.len() ==> (#[trigger] contexts[i]).disjoint(
                #[trigger] contexts[j],
            ),
{
    let n = branches.len();
    lemma_branches(branches, answers, n);
    let clean = forall|k: int| 1 <= k < n ==> (#[trigger] answers[k]).overlap->Ok_0 is None;
    if clean {
        assert forall|i: int, j: int| 0 <= i < j < n implies (#[trigger] contexts[i]).disjoint(
            #[trigger] contexts[j],
        ) by {
            assert(answers[j].overlap->Ok_0 is None);
            assert(union_of(contexts, j).disjoint(contexts[j]));
            assert forall|p: Point| contexts[i].contains(p) implies !contexts[j].contains(p) by {
                assert(union_of(contexts, j).contains(p));
            }
        }
    } else {
        let k = choose|k: int| 1 <= k < n && !((#[trigger] answers[k]).overlap->Ok_0 is None);
        let u = union_of(contexts, k);
        assert(!u.disjoint(contexts[k]));
        let p = choose|p: Point| u.contains(p) && contexts[k].contains(p);
        let i = choose|i: int| 0 <= i < k && (#[trigger] contexts[i]).contains(p);
        assert(!contexts[i].disjoint(contexts[k]));
    }
}

/// The answers for the branches of a case are right about what each branch shares with those before
/// it.
pub open spec fn branches_true(branches: Seq<Expr>, answers: Seq<BranchAnswer>, r: Reading) -> bool {
    &&& answers.len() == branches.len()
    &&& all_contexts(answers)
    &&& forall|k: int|
        0 <= k < answers.len() ==> (#[trigger] answers[k]).overlap is Ok && (
        answers[k].overlap->Ok_0 is None <==> k == 0 || points(branch_overlap_set(branches, k), r)
            =~= Set::empty())
}

/// Nothing is reported of a case exactly when no two of its branches are needed at the same point.
pub proof fn clean_cases_have_disjoint_branches(
    branches: Seq<Expr>,
    answers: Seq<BranchAnswer>,
    r: Reading,
)
    requires
        branches_true(branches, answers, r),
    ensures
        case_report(branches, answers).len() == 0 <==> forall|i: int, j: int|
            0 <= i < j < branches.len() ==> points(
                needed_at((#[trigger] branches[i]).node),
                r,
            ).disjoint(points(needed_at((#[trigger] branches[j]).node), r)),
{
    let sets = branch_sets(branches);
    let contexts = Seq::new(branches.len(), |i: int| points(sets[i], r));
    assert forall|k: int| 0 <= k < answers.len() implies (#[trigger] answers[k]).overlap is Ok && (
    answers[k].overlap->Ok_0 is None <==> union_of(contexts, k).disjoint(contexts[k])) by {
        if k > 0 {
            let before = sets.take(k);
            let at = branches[k].span;
            let t = branch_overlap_set(branches, k);
            let earlier = folded(SetOp::Union, before, at);
            assert(points(t, r) == points(sets[k], r).intersect(points(earlier, r)));
            assert forall|p: Point| #[trigger] points(earlier, r).contains(p) <==> union_of(
                contexts,
                k,
            ).contains(p) by {
                a_case_needs_one_branch(before, Seq::empty(), at, r, p);
                if points(earlier, r).contains(p) {
                    let i = choose|i: int|
                        0 <= i < before.len() && (#[trigger] points(before[i], r)).contains(p);
                    assert(contexts[i].contains(p));
                }
                if union_of(contexts, k).contains(p) {
                    let i = choose|i: int| 0 <= i < k && (#[trigger] contexts[i]).contains(p);
                    assert(points(before[i], r).contains(p));
                }
            }
            assert(points(earlier, r) =~= union_of(contexts, k));
            if points(t, r) =~= Set::empty() {
                assert forall|p: Point| union_of(contexts, k).contains(p) implies !contexts[k].contains(
                    p,
                ) by {
                    assert(!points(t, r).contains(p));
                }
            } else {
                let p = choose|p: Point| points(t, r).contains(p);
                assert(union_of(contexts, k).contains(p) && contexts[k].contains(p));
            }
        } else {
            assert(union_of(contexts, 0) =~= Set::empty());
        }
    }
    lemma_clean_cases(branches, answers, contexts);
    assert((forall|i: int, j: int|
        0 <= i < j < contexts.len() ==> (#[trigger] contexts[i]).disjoint(#[trigger] contexts[j]))
        <==> forall|i: int, j: int|
        0 <= i < j < branches.len() ==> points(needed_at((#[trigger] branches[i]).node), r).disjoint(
            points(needed_at((#[trigger] branches[j]).node), r),
        )) by {
        if forall|i: int, j: int|
            0 <= i < j < contexts.len() ==> (#[trigger] contexts[i]).disjoint(
                #[trigger] contexts[j],
            ) {
            assert forall|i: int, j: int| 0 <= i < j < branches.len() implies points(
                needed_at((#[trigger] branches[i]).node),
                r,
            ).disjoint(points(needed_at((#[trigger] branches[j]).node), r)) by {
                assert(contexts[i].disjoint(contexts[j]));
            }
        } else {
            let (i, j) = choose|i: int, j: int|
                0 <= i < j < contexts.len() && !(#[trigger] contexts[i]).disjoint(
                    #[trigger] contexts[j],
                );
            assert(!points(needed_at(branches[i].node), r).disjoint(
                points(needed_at(branches[j].node), r),
            ));
        }
    }
}

/// The index at place `i` has a largest value, for each choice of the parameters.
pub open spec fn bounded_above(s: Set<Point>, i: int) -> bool {
    forall|params: Seq<int>| #[trigger] has_upper(s, i, params)
}

pub open spec fn has_upper(s: Set<Point>, i: int, params: Seq<int>) -> bool {
    exists|m: int| #[trigger] is_upper(s, i, params, m)
}

pub open spec fn is_upper(s: Set<Point>, i: int, params: Seq<int>, m: int) -> bool {
    forall|p: Point| #[trigger] s.contains(p) && p.params == params ==> p.indices[i] <= m
}

/// The index at place `i` has a smallest value, for each choice of the parameters.
pub open spec fn bounded_below(s: Set<Point>, i: int) -> bool {
    forall|params: Seq<int>| #[trigger] has_lower(s, i, params)
}

pub open spec fn has_lower(s: Set<Point>, i: int, params: Seq<int>) -> bool {
    exists|m: int| #[trigger] is_lower(s, i, params, m)
}

pub open spec fn is_lower(s: Set<Point>, i: int, params: Seq<int>, m: int) -> bool {
    forall|p: Point| #[trigger] s.contains(p) && p.params == params ==> p.indices[i] >= m
}

/// The answers for a reduction are right about the points where its body is needed, which have `n`
/// indices: each index is looked at for itself.
pub open spec fn bounds_true(a: ReduceAnswer, node: usize, n: nat, r: Reading) -> bool {
    bounds_answered(a, points(needed_at(node), r), n)
}

/// The answers for a set of points are the true ones.
pub open spec fn bounds_answered(a: ReduceAnswer, body: Set<Point>, n: nat) -> bool {
    &&& a.context
    &&& a.failure is None
    &&& a.bounds@.len() == n
    &&& forall|i: int|
        0 <= i < n ==> (#[trigger] a.bounds@[i]).failure is None && a.bounds@[i].upper
            == bounded_above(body, i) && a.bounds@[i].lower == bounded_below(body, i)
}

proof fn lemma_bounds(bounds: Seq<BoundAnswer>, n: nat, at: Span)
    requires
        n <= bounds.len(),
        forall|i: int| 0 <= i < bounds.len() ==> (#[trigger] bounds[i]).failure is None,
    ensures
        unbounded(bounds, n, at) is Ok,
        unbounded(bounds, n, at)->Ok_0.len() == 0 <==> forall|i: int|
            0 <= i < n ==> (#[trigger] bounds[i]).upper && bounds[i].lower,
    decreases n,
{
    if n > 0 {
        lemma_bounds(bounds, (n - 1) as nat, at);
        assert(bounds[n - 1].failure is None);
    }
}

/// Nothing is reported of a reduction exactly when every index of its body is bounded on both sides.
pub proof fn clean_reductions_are_bounded(
    at: Span,
    a: ReduceAnswer,
    node: usize,
    n: nat,
    r: Reading,
)
    requires
        bounds_true(a, node, n, r),
    ensures
        reduce_report(true, at, a).len() == 0 <==> forall|i: int|
            0 <= i < n ==> #[trigger] bounded_above(points(needed_at(node), r), i)
                && bounded_below(points(needed_at(node), r), i),
{
    let body = points(needed_at(node), r);
    lemma_bounds(a.bounds@, n, at);
    let clean = forall|i: int| 0 <= i < n ==> (#[trigger] a.bounds@[i]).upper && a.bounds@[i].lower;
    if clean {
        assert forall|i: int| 0 <= i < n implies #[trigger] bounded_above(body, i) && bounded_below(
            body,
            i,
        ) by {
            assert(a.bounds@[i].upper && a.bounds@[i].lower);
        }
    } else {
        let i = choose|i: int|
            0 <= i < n && !((#[trigger] a.bounds@[i]).upper && a.bounds@[i].lower);
        assert(!(bounded_above(body, i) && bounded_below(body, i)));
    }
}

/// A mention before place `k` writes the same variable at a common point.
pub open spec fn rewrites(all: Seq<MentionModel>, written: Seq<Set<Point>>, k: int) -> bool {
    exists|j: int|
        0 <= j < k && (#[trigger] all[j]).name == all[k].name && !written[j].disjoint(written[k])
}

/// Some mention of the variable writes the point.
pub open spec fn is_written(
    all: Seq<MentionModel>,
    written: Seq<Set<Point>>,
    name: Seq<char>,
    p: Point,
) -> bool {
    exists|j: int| 0 <= j < all.len() && (#[trigger] all[j]).name == name && written[j].contains(p)
}

/// The answers for the outputs of the use equations of a body are the true ones, where mention `k`
/// writes `written[k]` and the variable that it names is needed at `needed[k]`.
pub open spec fn outputs_truthful(
    all: Seq<MentionModel>,
    answers: Seq<MentionAnswer>,
    variables: Seq<VariableAnswer>,
    written: Seq<Set<Point>>,
    needed: Seq<Set<Point>>,
) -> bool {
    &&& answers.len() == all.len()
    &&& variables.len() == all.len()
    &&& written.len() == all.len()
    &&& needed.len() == all.len()
    &&& forall|k: int|
        0 <= k < all.len() ==> (#[trigger] answers[k]).context && answers[k].overlap == Ok::<
            bool,
            String,
        >(rewrites(all, written, k))
    &&& forall|k: int|
        0 <= k < all.len() ==> (#[trigger] variables[k]).resolved && variables[k].missing is Ok && (
        variables[k].missing->Ok_0 is None <==> forall|p: Point| #[trigger]
            needed[k].contains(p) <==> is_written(all, written, all[k].name, p))
}

proof fn lemma_places_of(all: Seq<MentionModel>, name: Seq<char>)
    ensures
        forall|k: int|
            0 <= k < places(all, name).len() ==> 0 <= (#[trigger] places(all, name)[k]) < all.len()
                && all[places(all, name)[k]].name == name,
        forall|i: int|
            0 <= i < all.len() && (#[trigger] all[i]).name == name ==> places(all, name).contains(i),
        forall|j: int, k: int|
            0 <= j < k < places(all, name).len() ==> (#[trigger] places(all, name)[j]) < (
            #[trigger] places(all, name)[k]),
    decreases all.len(),
{
    if all.len() > 0 {
        let before = places(all.drop_last(), name);
        let now = places(all, name);
        lemma_places_of(all.drop_last(), name);
        assert forall|k: int| 0 <= k < now.len() implies 0 <= (#[trigger] now[k]) < all.len()
            && all[now[k]].name == name by {
            if k < before.len() {
                assert(now[k] == before[k]);
                assert(all.drop_last()[before[k]] == all[before[k]]);
            }
        }
        assert forall|i: int| 0 <= i < all.len() && (#[trigger] all[i]).name == name implies now.contains(
            i,
        ) by {
            if i < all.len() - 1 {
                assert(all.drop_last()[i] == all[i]);
                let k = choose|k: int| 0 <= k < before.len() && before[k] == i;
                assert(now[k] == i);
            } else {
                assert(now[now.len() - 1] == i);
            }
        }
        assert forall|j: int, k: int| 0 <= j < k < now.len() implies (#[trigger] now[j]) < (
        #[trigger] now[k]) by {
            assert(now[j] == before[j]);
            if k < before.len() {
                assert(now[k] == before[k]);
            }
        }
    }
}

proof fn lemma_sum(all: Seq<MentionModel>, answers: Seq<MentionAnswer>, at: Seq<int>, n: nat)
    requires
        n <= at.len(),
        forall|k: int|
            0 <= k < at.len() ==> (#[trigger] answers[at[k]]).context && answers[at[k]].overlap is Ok,
    ensures
        sum(all, answers, at, n) matches Sum::Known(found) && (found <==> exists|k: int|
            1 <= k < n && (#[trigger] answers[at[k]]).overlap->Ok_0),
    decreases n,
{
    if n > 0 {
        lemma_sum(all, answers, at, (n - 1) as nat);
        assert(answers[at[n - 1]].context);
        if n > 1 && answers[at[n - 1]].overlap->Ok_0 {
            assert(answers[at[n - 1]].overlap->Ok_0);
        }
    }
}

/// The variable of the mention at place `k` is written once at each point where it is needed, and
/// nowhere else.
pub open spec fn written_once(
    all: Seq<MentionModel>,
    written: Seq<Set<Point>>,
    needed: Set<Point>,
    name: Seq<char>,
) -> bool {
    &&& forall|j: int, k: int|
        0 <= j < k < all.len() && (#[trigger] all[j]).name == name && (#[trigger] all[k]).name
            == name ==> written[j].disjoint(written[k])
    &&& forall|p: Point| #[trigger]
        needed.contains(p) <==> is_written(all, written, name, p)
}

proof fn lemma_variable_clean(
    all: Seq<MentionModel>,
    answers: Seq<MentionAnswer>,
    variables: Seq<VariableAnswer>,
    written: Seq<Set<Point>>,
    needed: Seq<Set<Point>>,
    i: int,
    body: Span,
)
    requires
        outputs_truthful(all, answers, variables, written, needed),
        0 <= i < all.len(),
    ensures
        variable_report(all, answers, all[i].name, variables[i], body) is Ok,
        variable_report(all, answers, all[i].name, variables[i], body)->Ok_0.len() == 0
            <==> written_once(all, written, needed[i], all[i].name),
{
    let name = all[i].name;
    let at = places(all, name);
    lemma_places_of(all, name);
    assert forall|k: int| 0 <= k < at.len() implies (#[trigger] answers[at[k]]).context && answers[
    at[k]].overlap is Ok by {
        assert(0 <= at[k] < all.len());
    }
    lemma_sum(all, answers, at, at.len());
    assert(variables[i].resolved && variables[i].missing is Ok);
    let found = sum(all, answers, at, at.len())->Known_0;
    assert(at.contains(i));
    assert(at.len() > 0);
    assert(each_output(
        IssueKind::OverlappingUseEquations,
        all,
        at,
        name,
        variables[i].overlap@,
    ).len() == at.len());
    if variables[i].missing->Ok_0 is Some {
        let d = variables[i].missing->Ok_0->Some_0@;
        assert(each_output(IssueKind::IncompleteUseEquation, all, at, name, d).len() == at.len());
    }
    let apart = forall|j: int, k: int|
        0 <= j < k < all.len() && (#[trigger] all[j]).name == name && (#[trigger] all[k]).name
            == name ==> written[j].disjoint(written[k]);
    assert(!found <==> apart) by {
        if found {
            let k = choose|k: int| 1 <= k < at.len() && (#[trigger] answers[at[k]]).overlap->Ok_0;
            assert(0 <= at[k] < all.len() && all[at[k]].name == name);
            assert(rewrites(all, written, at[k]));
            let j = choose|j: int|
                0 <= j < at[k] && (#[trigger] all[j]).name == all[at[k]].name
                    && !written[j].disjoint(written[at[k]]);
            assert(all[j].name == name);
        }
        if !apart {
            let (j, k) = choose|j: int, k: int|
                0 <= j < k < all.len() && (#[trigger] all[j]).name == name && (
                #[trigger] all[k]).name == name && !written[j].disjoint(written[k]);
            assert(rewrites(all, written, k));
            assert(at.contains(j) && at.contains(k));
            let x = choose|x: int| 0 <= x < at.len() && at[x] == j;
            let y = choose|y: int| 0 <= y < at.len() && at[y] == k;
            if y <= x {
                if y < x {
                    assert(at[y] < at[x]);
                }
            }
            assert(answers[at[y]].overlap->Ok_0);
        }
    }
}

proof fn lemma_variables_clean(
    all: Seq<MentionModel>,
    answers: Seq<MentionAnswer>,
    variables: Seq<VariableAnswer>,
    written: Seq<Set<Point>>,
    needed: Seq<Set<Point>>,
    n: nat,
    body: Span,
)
    requires
        outputs_truthful(all, answers, variables, written, needed),
        n <= all.len(),
    ensures
        variables_report(all, answers, variables, n, body) is Ok,
        variables_report(all, answers, variables, n, body)->Ok_0.len() == 0 <==> forall|i: int|
            0 <= i < n && #[trigger] first_mention(all, i) ==> written_once(
                all,
                written,
                needed[i],
                all[i].name,
            ),
    decreases n,
{
    if n > 0 {
        lemma_variables_clean(all, answers, variables, written, needed, (n - 1) as nat, body);
        lemma_variable_clean(all, answers, variables, written, needed, n - 1, body);
        if first_mention(all, n - 1) {
            let before = variables_report(all, answers, variables, (n - 1) as nat, body)->Ok_0;
            let more = variable_report(
                all,
                answers,
                all[n - 1].name,
                variables[n - 1],
                body,
            )->Ok_0;
            assert((before + more).len() == before.len() + more.len());
        }
    }
}

/// The answers for the outputs of the use equations of a body are right about what each mention
/// writes again, and about what is written of each variable.
pub open spec fn outputs_true(
    s: System,
    body: SystemBody,
    answers: Seq<MentionAnswer>,
    variables: Seq<VariableAnswer>,
    r: Reading,
) -> bool {
    let all = mentions_in(body.equations@);
    &&& answers.len() == all.len()
    &&& variables.len() == all.len()
    &&& forall|k: int|
        0 <= k < all.len() ==> (#[trigger] answers[k]).context && answers[k].overlap == Ok::<
            bool,
            String,
        >(
            mention_overlap_set(all, k, body.span) matches Some(t) && !(points(t, r)
                =~= Set::empty()),
        )
    &&& forall|k: int|
        0 <= k < all.len() ==> (#[trigger] variables[k]).resolved && variables[k].missing is Ok && (
        variables[k].missing->Ok_0 is None <==> (written_by_first(
            all,
            all[k].name,
            body.span,
            all.len(),
        ) matches Some(t) && points(needed_set(s, body, all[k].name), r) =~= points(t, r)))
}

proof fn lemma_written(all: Seq<MentionModel>, name: Seq<char>, at: Span, n: nat, r: Reading, p: Point)
    requires
        n <= all.len(),
    ensures
        match written_by_first(all, name, at, n) {
            None => forall|j: int| 0 <= j < n ==> (#[trigger] all[j]).name != name,
            Some(t) => points(t, r).contains(p) <==> exists|j: int|
                0 <= j < n && (#[trigger] all[j]).name == name && points(
                    needed_at(all[j].node),
                    r,
                ).contains(p),
        },
    decreases n,
{
    if n > 0 {
        lemma_written(all, name, at, (n - 1) as nat, r, p);
        let before = written_by_first(all, name, at, (n - 1) as nat);
        if all[n - 1].name == name {
            let t = written_by_first(all, name, at, n)->Some_0;
            let own = needed_at(all[n - 1].node);
            if points(t, r).contains(p) {
                if points(own, r).contains(p) {
                    assert(all[n - 1].name == name);
                }
            }
            if exists|j: int|
                0 <= j < n && (#[trigger] all[j]).name == name && points(
                    needed_at(all[j].node),
                    r,
                ).contains(p) {
                let j = choose|j: int|
                    0 <= j < n && (#[trigger] all[j]).name == name && points(
                        needed_at(all[j].node),
                        r,
                    ).contains(p);
                if j < n - 1 {
                    assert(all[j].name == name);
                }
            }
        }
    }
}

/// What each mention writes.
pub open spec fn written_sets(all: Seq<MentionModel>, r: Reading) -> Seq<Set<Point>> {
    Seq::new(all.len(), |k: int| points(needed_at(all[k].node), r))
}

/// Where the variable that each mention names is needed.
pub open spec fn needed_sets(s: System, body: SystemBody, all: Seq<MentionModel>, r: Reading) -> Seq<
    Set<Point>,
> {
    Seq::new(all.len(), |k: int| points(needed_set(s, body, all[k].name), r))
}

proof fn lemma_outputs_true(
    s: System,
    body: SystemBody,
    answers: Seq<MentionAnswer>,
    variables: Seq<VariableAnswer>,
    r: Reading,
)
    requires
        outputs_true(s, body, answers, variables, r),
    ensures
        ({
            let all = mentions_in(body.equations@);
            outputs_truthful(
                all,
                answers,
                variables,
                written_sets(all, r),
                needed_sets(s, body, all, r),
            )
        }),
{
    let all = mentions_in(body.equations@);
    let written = written_sets(all, r);
    let needed = needed_sets(s, body, all, r);
    assert forall|k: int| 0 <= k < all.len() implies (#[trigger] answers[k]).context
        && answers[k].overlap == Ok::<bool, String>(rewrites(all, written, k)) by {
        let found = mention_overlap_set(all, k, body.span) matches Some(t) && !(points(t, r)
            =~= Set::empty());
        assert(answers[k].overlap == Ok::<bool, String>(found));
        let name = all[k].name;
        if found {
            let t = mention_overlap_set(all, k, body.span)->Some_0;
            let p = choose|p: Point| points(t, r).contains(p);
            lemma_written(all, name, body.span, k as nat, r, p);
            let j = choose|j: int|
                0 <= j < k && (#[trigger] all[j]).name == name && points(
                    needed_at(all[j].node),
                    r,
                ).contains(p);
            assert(written[j].contains(p) && written[k].contains(p));
            assert(!written[j].disjoint(written[k]));
        }
        if rewrites(all, written, k) {
            let j = choose|j: int|
                0 <= j < k && (#[trigger] all[j]).name == all[k].name && !written[j].disjoint(
                    written[k],
                );
            let p = choose|p: Point| written[j].contains(p) && written[k].contains(p);
            lemma_written(all, name, body.span, k as nat, r, p);
            let t = mention_overlap_set(all, k, body.span)->Some_0;
            assert(points(t, r).contains(p));
        }
    }
    assert forall|k: int| 0 <= k < all.len() implies (#[trigger] variables[k]).resolved
        && variables[k].missing is Ok && (variables[k].missing->Ok_0 is None <==> forall|p: Point|
        #[trigger]
        needed[k].contains(p) <==> is_written(all, written, all[k].name, p)) by {
        let name = all[k].name;
        let found = written_by_first(all, name, body.span, all.len());
        assert(found is Some) by {
            lemma_written(all, name, body.span, all.len(), r, arbitrary());
            assert(all[k].name == name);
        }
        let t = found->Some_0;
        assert forall|p: Point| #[trigger] points(t, r).contains(p) <==> is_written(
            all,
            written,
            name,
            p,
        ) by {
            lemma_written(all, name, body.span, all.len(), r, p);
            if points(t, r).contains(p) {
                let j = choose|j: int|
                    0 <= j < all.len() && (#[trigger] all[j]).name == name && points(
                        needed_at(all[j].node),
                        r,
                    ).contains(p);
                assert(written[j].contains(p));
            }
        }
        if points(needed_set(s, body, name), r) =~= points(t, r) {
            assert forall|p: Point| #[trigger] needed[k].contains(p) <==> is_written(
                all,
                written,
                name,
                p,
            ) by {
                assert(points(t, r).contains(p) <==> is_written(all, written, name, p));
            }
        } else if forall|p: Point| #[trigger]
            needed[k].contains(p) <==> is_written(all, written, name, p) {
            assert forall|p: Point| needed[k].contains(p) <==> #[trigger] points(t, r).contains(p) by {
                assert(points(t, r).contains(p) <==> is_written(all, written, name, p));
            }
            assert(needed[k] =~= points(t, r));
        }
    }
}

/// Nothing is reported of the use equations of a body exactly when each variable that they write is
/// written once at each point where it is needed, and nowhere else.
pub proof fn clean_outputs_are_written_once(
    s: System,
    body: SystemBody,
    answers: Seq<MentionAnswer>,
    variables: Seq<VariableAnswer>,
    r: Reading,
)
    requires
        outputs_true(s, body, answers, variables, r),
    ensures
        ({
            let all = mentions_in(body.equations@);
            outputs_report(body, answers, variables).len() == 0 <==> forall|i: int|
                0 <= i < all.len() && #[trigger] first_mention(all, i) ==> written_once(
                    all,
                    written_sets(all, r),
                    points(needed_set(s, body, all[i].name), r),
                    all[i].name,
                )
        }),
{
    let all = mentions_in(body.equations@);
    let written = written_sets(all, r);
    let needed = needed_sets(s, body, all, r);
    lemma_outputs_true(s, body, answers, variables, r);
    lemma_variables_clean(all, answers, variables, written, needed, all.len(), body.span);
    assert forall|i: int| 0 <= i < all.len() implies needed[i] == points(
        needed_set(s, body, (#[trigger] all[i]).name),
        r,
    ) by {}
}

/// The parameter values that select each body.
pub open spec fn selected_sets(s: System, r: Reading) -> Seq<Set<Point>> {
    Seq::new(s.bodies@.len(), |i: int| points(body_set(s, s.bodies@[i]), r))
}

/// The answers for the bodies of a system are right about which of them nothing selects, about what
/// each shares with those before it, and about what none of them takes.
pub open spec fn bodies_true(s: System, a: BodiesAnswer, r: Reading) -> bool {
    &&& a.params
    &&& a.bodies@.len() == s.bodies@.len()
    &&& a.overlaps@.len() + 1 == s.bodies@.len()
    &&& forall|i: int|
        0 <= i < s.bodies@.len() ==> ((#[trigger] a.bodies@[i]) matches BodyAnswer::Resolved {
            empty,
            failure: None,
        } && empty == (points(body_set(s, s.bodies@[i]), r) =~= Set::empty()))
    &&& forall|k: int|
        0 <= k < a.overlaps@.len() ==> (#[trigger] a.overlaps@[k]) == Ok::<bool, String>(
            !(points(body_overlap_set(s, k + 1), r) =~= Set::empty()),
        )
    &&& a.missing is Ok
    &&& a.missing->Ok_0 is None <==> points(unclaimed_set(s), r) =~= Set::empty()
}

proof fn lemma_first_regions(s: System, k: int, r: Reading, p: Point)
    requires
        0 < k <= s.bodies@.len(),
    ensures
        points(folded(SetOp::Union, body_regions(s).take(k), s.span), r).contains(p) <==> union_of(
            clipped(selected_sets(s, r), points(param_set(s), r)),
            k,
        ).contains(p),
{
    let before = body_regions(s).take(k);
    let inside = clipped(selected_sets(s, r), points(param_set(s), r));
    a_case_needs_one_branch(before, Seq::empty(), s.span, r, p);
    assert forall|i: int| 0 <= i < k implies points(#[trigger] before[i], r) == inside[i] by {
        assert(before[i] == body_regions(s)[i]);
    }
    if exists|i: int| 0 <= i < before.len() && (#[trigger] points(before[i], r)).contains(p) {
        let i = choose|i: int|
            0 <= i < before.len() && (#[trigger] points(before[i], r)).contains(p);
        assert(inside[i].contains(p));
    }
    if union_of(inside, k).contains(p) {
        let i = choose|i: int| 0 <= i < k && (#[trigger] inside[i]).contains(p);
        assert(points(before[i], r).contains(p));
    }
}

/// Nothing is reported of the bodies of a system exactly when each of them has parameter values,
/// no two share any of the system's, and together they have all of them.
pub proof fn clean_bodies_partition_the_parameters(s: System, a: BodiesAnswer, r: Reading)
    requires
        s.bodies@.len() > 0,
        bodies_true(s, a, r),
    ensures
        ({
            let sets = selected_sets(s, r);
            let params = points(param_set(s), r);
            bodies_report(s, a).len() == 0 <==> {
                &&& forall|i: int| 0 <= i < sets.len() ==> !((#[trigger] sets[i]) =~= Set::empty())
                &&& forall|i: int, j: int|
                    0 <= i < j < sets.len() ==> (#[trigger] clipped(sets, params)[i]).disjoint(
                        #[trigger] clipped(sets, params)[j],
                    )
                &&& forall|p: Point| #[trigger]
                    params.contains(p) ==> exists|i: int|
                        0 <= i < sets.len() && (#[trigger] clipped(sets, params)[i]).contains(p)
            }
        }),
{
    let sets = selected_sets(s, r);
    let params = points(param_set(s), r);
    let inside = clipped(sets, params);
    let regions = body_regions(s);
    let n = s.bodies@.len() as int;
    assert forall|k: int| 0 <= k < a.overlaps@.len() implies a.overlaps@[k] is Ok && says_yes(
        #[trigger] a.overlaps@[k],
    ) == !union_of(inside, k + 1).disjoint(inside[k + 1]) by {
        let t = body_overlap_set(s, k + 1);
        let earlier = points(folded(SetOp::Union, regions.take(k + 1), s.span), r);
        assert(points(regions[k + 1], r) == inside[k + 1]);
        assert(points(t, r) == earlier.intersect(inside[k + 1]));
        assert forall|p: Point| #[trigger] earlier.contains(p) <==> union_of(
            inside,
            k + 1,
        ).contains(p) by {
            lemma_first_regions(s, k + 1, r, p);
        }
        assert(earlier =~= union_of(inside, k + 1));
        if points(t, r) =~= Set::empty() {
            assert forall|p: Point| earlier.contains(p) implies !#[trigger] inside[k + 1].contains(
                p,
            ) by {
                assert(!points(t, r).contains(p));
            }
        } else {
            let p = choose|p: Point| points(t, r).contains(p);
            assert(union_of(inside, k + 1).contains(p) && inside[k + 1].contains(p));
        }
    }
    let claimed = points(folded(SetOp::Union, regions, s.span), r);
    assert(regions.take(n) =~= regions);
    assert forall|p: Point| #[trigger] claimed.contains(p) <==> union_of(inside, n).contains(p) by {
        lemma_first_regions(s, n, r, p);
    }
    assert(claimed =~= union_of(inside, n));
    assert(points(unclaimed_set(s), r) == params.difference(claimed));
    assert(points(unclaimed_set(s), r) =~= Set::empty() <==> union_of(inside, n) =~= params) by {
        assert forall|p: Point| #[trigger] union_of(inside, n).contains(p) implies params.contains(
            p,
        ) by {
            let i = choose|i: int| 0 <= i < n && (#[trigger] inside[i]).contains(p);
            assert(inside[i] == sets[i].intersect(params));
        }
        if points(unclaimed_set(s), r) =~= Set::empty() {
            assert forall|p: Point| params.contains(p) implies #[trigger] union_of(
                inside,
                n,
            ).contains(p) by {
                assert(!points(unclaimed_set(s), r).contains(p));
            }
            assert(union_of(inside, n) =~= params);
        }
    }
    assert(inside.len() == n);
    lemma_clean_bodies(s, a, sets, params);
}

/// A part holds a point.
pub open spec fn held_in(part: Option<SetModel>, r: Reading, p: Point) -> bool {
    match part {
        None => false,
        Some(t) => points(t, r).contains(p),
    }
}

/// It was rightly said of each part whether it holds anything.
pub open spec fn found_rightly(parts: Seq<Option<SetModel>>, found: Seq<bool>, r: Reading) -> bool {
    &&& found.len() == parts.len()
    &&& forall|k: int, p: Point|
        0 <= k < parts.len() && #[trigger] held_in(parts[k], r, p) ==> found[k]
}

proof fn lemma_joined(
    parts: Seq<Option<SetModel>>,
    found: Seq<bool>,
    at: Span,
    n: nat,
    r: Reading,
    p: Point,
)
    requires
        n <= parts.len(),
        found_rightly(parts, found, r),
    ensures
        held_in(joined_first(parts, found, at, n), r, p) <==> exists|k: int|
            0 <= k < n && #[trigger] held_in(parts[k], r, p),
    decreases n,
{
    if n > 0 {
        lemma_joined(parts, found, at, (n - 1) as nat, r, p);
        let before = joined_first(parts, found, at, (n - 1) as nat);
        let part = parts[n - 1];
        if held_in(part, r, p) {
            assert(found[n - 1]);
        }
        assert(held_in(joined(before, part, at), r, p) <==> held_in(before, r, p) || held_in(
            part,
            r,
            p,
        ));
        if exists|k: int| 0 <= k < n && #[trigger] held_in(parts[k], r, p) {
            let k = choose|k: int| 0 <= k < n && #[trigger] held_in(parts[k], r, p);
            if k < n - 1 {
                assert(held_in(before, r, p));
            }
        }
    }
}

/// What is reported as the overlap of the bodies of a system is what two of them take, of the
/// parameter values of the system.
pub proof fn a_reported_overlap_is_what_two_bodies_take(
    s: System,
    found: Seq<bool>,
    r: Reading,
    p: Point,
)
    requires
        found_rightly(body_clashes(s), found, r),
    ensures
        ({
            let inside = clipped(selected_sets(s, r), points(param_set(s), r));
            held_in(joined_first(body_clashes(s), found, s.span, found.len()), r, p)
                <==> exists|i: int, j: int|
                0 <= i < j < inside.len() && (#[trigger] inside[i]).contains(p)
                    && (#[trigger] inside[j]).contains(p)
        }),
{
    let inside = clipped(selected_sets(s, r), points(param_set(s), r));
    let parts = body_clashes(s);
    lemma_joined(parts, found, s.span, found.len(), r, p);
    assert forall|k: int| 0 <= k < parts.len() implies (#[trigger] held_in(parts[k], r, p) <==> k > 0
        && union_of(inside, k).contains(p) && inside[k].contains(p)) by {
        if k > 0 {
            lemma_first_regions(s, k, r, p);
            assert(points(body_regions(s)[k], r) == inside[k]);
        }
    }
    if exists|k: int| 0 <= k < parts.len() && #[trigger] held_in(parts[k], r, p) {
        let k = choose|k: int| 0 <= k < parts.len() && #[trigger] held_in(parts[k], r, p);
        let i = choose|i: int| 0 <= i < k && (#[trigger] inside[i]).contains(p);
        assert(inside[i].contains(p) && inside[k].contains(p));
    }
    if exists|i: int, j: int|
        0 <= i < j < inside.len() && (#[trigger] inside[i]).contains(p) && (
        #[trigger] inside[j]).contains(p) {
        let (i, j) = choose|i: int, j: int|
            0 <= i < j < inside.len() && (#[trigger] inside[i]).contains(p) && (
            #[trigger] inside[j]).contains(p);
        assert(union_of(inside, j).contains(p));
        assert(held_in(parts[j], r, p));
    }
}

/// A mention of a variable writes a point.
pub open spec fn writes(
    all: Seq<MentionModel>,
    i: int,
    name: Seq<char>,
    r: Reading,
    p: Point,
) -> bool {
    all[i].name == name && points(needed_at(all[i].node), r).contains(p)
}

proof fn lemma_writes(all: Seq<MentionModel>, name: Seq<char>, at: Span, n: nat, r: Reading, p: Point)
    requires
        n <= all.len(),
    ensures
        held_in(written_by_first(all, name, at, n), r, p) <==> exists|i: int|
            0 <= i < n && #[trigger] writes(all, i, name, r, p),
{
    lemma_written(all, name, at, n, r, p);
    if exists|i: int| 0 <= i < n && #[trigger] writes(all, i, name, r, p) {
        let i = choose|i: int| 0 <= i < n && #[trigger] writes(all, i, name, r, p);
        assert(all[i].name == name);
    }
    if held_in(written_by_first(all, name, at, n), r, p) {
        let i = choose|i: int|
            0 <= i < n && (#[trigger] all[i]).name == name && points(
                needed_at(all[i].node),
                r,
            ).contains(p);
        assert(writes(all, i, name, r, p));
    }
}

/// What is reported as written more than once of a variable is what two mentions of it write.
pub proof fn a_reported_overlap_is_what_two_mentions_write(
    all: Seq<MentionModel>,
    name: Seq<char>,
    found: Seq<bool>,
    at: Span,
    r: Reading,
    p: Point,
)
    requires
        found_rightly(mention_clashes(all, name, at), found, r),
    ensures
        held_in(joined_first(mention_clashes(all, name, at), found, at, found.len()), r, p)
            <==> exists|i: int, j: int|
            0 <= i < j < all.len() && #[trigger] writes(all, i, name, r, p) && #[trigger] writes(
                all,
                j,
                name,
                r,
                p,
            ),
{
    let parts = mention_clashes(all, name, at);
    lemma_joined(parts, found, at, found.len(), r, p);
    assert forall|k: int| 0 <= k < parts.len() implies (#[trigger] held_in(parts[k], r, p) <==> writes(
        all,
        k,
        name,
        r,
        p,
    ) && exists|i: int| 0 <= i < k && #[trigger] writes(all, i, name, r, p)) by {
        if all[k].name == name {
            lemma_writes(all, name, at, k as nat, r, p);
        }
    }
    if exists|k: int| 0 <= k < parts.len() && #[trigger] held_in(parts[k], r, p) {
        let k = choose|k: int| 0 <= k < parts.len() && #[trigger] held_in(parts[k], r, p);
        let i = choose|i: int| 0 <= i < k && #[trigger] writes(all, i, name, r, p);
        assert(writes(all, i, name, r, p) && writes(all, k, name, r, p));
    }
    if exists|i: int, j: int|
        0 <= i < j < all.len() && #[trigger] writes(all, i, name, r, p) && #[trigger] writes(
            all,
            j,
            name,
            r,
            p,
        ) {
        let (i, j) = choose|i: int, j: int|
            0 <= i < j < all.len() && #[trigger] writes(all, i, name, r, p) && #[trigger] writes(
                all,
                j,
                name,
                r,
                p,
            );
        assert(held_in(parts[j], r, p));
    }
}

/// What is reported as not written of a variable is what none of its mentions writes.
pub proof fn a_reported_gap_is_what_no_mention_writes(
    s: System,
    all: Seq<MentionModel>,
    name: Seq<char>,
    at: Span,
    r: Reading,
    p: Point,
)
    ensures
        points(unwritten_set(s, all, name, at), r).contains(p) <==> points(
            variable_set(s, name, Seq::empty()),
            r,
        ).contains(p) && !exists|i: int|
            0 <= i < all.len() && #[trigger] writes(all, i, name, r, p),
{
    lemma_writes(all, name, at, all.len(), r, p);
}

} // verus!
