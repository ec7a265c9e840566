//! What follows for the points of linear variables where nothing is reported.
use crate::linear_checks::{
    accesses_report, calls_report, choices_report, held_report, linear_answers_ok, linear_report,
    plan_of, CallModel, HeldModel, LinearAnswers, LinearModel, Verdict,
};
use crate::linear_questions::{
    access_relation_of, common_of, held_set, left_over_set, range_of, read_overlap_set,
    side_of_first, step_relation, steps_relation, table_of, taken_by_first,
};
use crate::linear_reads::{AccessModel, ChoiceModel, StepModel};
use crate::linearity::World;
use crate::meaning::{image, pairs, points, Point, Reading};
use crate::polyhedral::{MapModel, SetModel, Table};
use crate::syntax::{Span, System};
use vstd::prelude::*;

verus! {

/// Which points a read takes: the points of the variable, each with the point at which the read is
/// made.
pub type Taken = Set<(Point, Point)>;

/// The read takes some point more than once.
pub open spec fn repeats(t: Taken) -> bool {
    exists|p: Point, q: Point, x: Point|
        p != q && #[trigger] t.contains((p, x)) && #[trigger] t.contains((q, x))
}

/// Two reads take the same point.
pub open spec fn meet(t: Taken, u: Taken) -> bool {
    exists|p: Point, q: Point, x: Point|
        #[trigger] t.contains((p, x)) && #[trigger] u.contains((q, x))
}

/// The read at place `k` meets an earlier read of the same variable.
pub open spec fn meets_earlier(all: Seq<AccessModel>, taken: Seq<Taken>, k: int) -> bool {
    exists|j: int| 0 <= j < k && #[trigger] same_variable(all, j, k) && meet(taken[j], taken[k])
}

pub open spec fn same_variable(all: Seq<AccessModel>, j: int, k: int) -> bool {
    all[j].variable == all[k].variable
}

/// The read at place `k`, made at `p`, takes the point `x` of a variable.
pub open spec fn takes(
    all: Seq<AccessModel>,
    taken: Seq<Taken>,
    name: Seq<char>,
    k: int,
    p: Point,
    x: Point,
) -> bool {
    0 <= k < all.len() && all[k].variable == name && taken[k].contains((p, x))
}

/// The answers are right for reads that take the points of `taken` and variables with the points of
/// `domains`.
pub open spec fn truthful(
    plan: LinearModel,
    a: LinearAnswers,
    taken: Seq<Taken>,
    domains: Seq<Set<Point>>,
) -> bool {
    &&& taken.len() == plan.accesses.len()
    &&& domains.len() == plan.held.len()
    &&& forall|k: int|
        0 <= k < taken.len() ==> (#[trigger] a.repeats@[k] matches Ok(b) ==> b == repeats(taken[k]))
    &&& forall|k: int|
        0 <= k < taken.len() ==> (#[trigger] a.overlaps@[k] matches Ok(b) ==> b == meets_earlier(
            plan.accesses,
            taken,
            k,
        ))
    &&& forall|h: int, x: Point|
        0 <= h < domains.len() && #[trigger] domains[h].contains(x) && a.unused@[h] == Ok::<
            Option<String>,
            String,
        >(None) ==> exists|k: int, p: Point|
            takes(plan.accesses, taken, plan.held[h].name, k, p, x)
}

proof fn lemma_accesses_clean(
    all: Seq<AccessModel>,
    repeats: Seq<Verdict>,
    overlaps: Seq<Verdict>,
    n: nat,
    k: int,
)
    requires
        0 <= k < n <= all.len(),
        accesses_report(all, repeats, overlaps, n).len() == 0,
    ensures
        repeats[k] == Ok::<bool, String>(false),
        overlaps[k] == Ok::<bool, String>(false),
    decreases n,
{
    if k < n - 1 {
        lemma_accesses_clean(all, repeats, overlaps, (n - 1) as nat, k);
    }
}

proof fn lemma_held_clean(
    all: Seq<HeldModel>,
    a: Seq<core::result::Result<Option<String>, String>>,
    n: nat,
    h: int,
)
    requires
        0 <= h < n <= all.len(),
        held_report(all, a, n).len() == 0,
    ensures
        a[h] == Ok::<Option<String>, String>(None),
    decreases n,
{
    if h < n - 1 {
        lemma_held_clean(all, a, (n - 1) as nat, h);
    }
}

proof fn lemma_choices_clean(all: Seq<ChoiceModel>, a: Seq<Verdict>, n: nat, k: int)
    requires
        0 <= k < n <= all.len(),
        choices_report(all, a, n).len() == 0,
    ensures
        a[k] == Ok::<bool, String>(false),
    decreases n,
{
    if k < n - 1 {
        lemma_choices_clean(all, a, (n - 1) as nat, k);
    }
}

proof fn lemma_calls_clean(
    all: Seq<CallModel>,
    aliased: Seq<Verdict>,
    differs: Seq<Verdict>,
    n: nat,
    k: int,
)
    requires
        0 <= k < n <= all.len(),
        calls_report(all, aliased, differs, n).len() == 0,
    ensures
        aliased[k] == Ok::<bool, String>(false),
        all[k].implicit ==> differs[k] == Ok::<bool, String>(false),
    decreases n,
{
    if k < n - 1 {
        lemma_calls_clean(all, aliased, differs, (n - 1) as nat, k);
    }
}

/// What the reads of one branch of a choice take of a variable, together.
pub open spec fn branch_takes(all: Seq<AccessModel>, name: Seq<char>, at: Span, r: Reading) -> Taken {
    match side_of_first(all, name, at, all.len()) {
        Some(t) => pairs(t, r),
        None => Set::empty(),
    }
}

/// The branches take different points of some variable.
pub open spec fn branches_differ(c: ChoiceModel, r: Reading) -> bool {
    exists|name: Seq<char>| #[trigger]
        branch_takes(c.first, name, c.at, r) != branch_takes(c.second, name, c.at, r)
}

/// Where nothing is reported of the linear values of a system, the two branches of an `if` take
/// the same points of every variable, each at the same point: whichever is chosen, the same is used
/// up.
pub proof fn both_branches_take_the_same_points(
    w: World,
    a: LinearAnswers,
    r: Reading,
    k: int,
    name: Seq<char>,
)
    requires
        linear_answers_ok(w, a),
        forall|i: int|
            0 <= i < plan_of(w).choices.len() ==> (#[trigger] a.choices@[i] matches Ok(b) ==> b
                == branches_differ(plan_of(w).choices[i], r)),
        linear_report(w, a).len() == 0,
        0 <= k < plan_of(w).choices.len(),
    ensures
        ({
            let c = plan_of(w).choices[k];
            branch_takes(c.first, name, c.at, r) == branch_takes(c.second, name, c.at, r)
        }),
{
    let all = plan_of(w).choices;
    assert(choices_report(all, a.choices@, all.len()).len() == 0);
    lemma_choices_clean(all, a.choices@, all.len(), k);
    assert(a.choices@[k] matches Ok(b) ==> b == branches_differ(all[k], r));
}

/// Two reads of one variable take a common point at a common point.
pub open spec fn coincide(a: AccessModel, b: AccessModel, r: Reading) -> bool {
    a.variable == b.variable && !(pairs(common_of(a, b), r) =~= Set::empty())
}

/// Two operands of a call are handed one point, at one point.
pub open spec fn shared_operand(operands: Seq<Seq<AccessModel>>, r: Reading) -> bool {
    exists|i: int, j: int, x: int, y: int|
        0 <= i < j < operands.len() && 0 <= x < operands[i].len() && 0 <= y < operands[j].len()
            && coincide(#[trigger] operands[j][y], #[trigger] operands[i][x], r)
}

/// Two values of a call are defined at different points.
pub open spec fn defined_apart(nodes: Seq<usize>, r: Reading) -> bool {
    exists|m: int, n: int|
        0 <= m < n < nodes.len() && (r.kept)(Table::Domain, #[trigger] nodes[m]) != (r.kept)(
            Table::Domain,
            #[trigger] nodes[n],
        )
}

/// Where nothing is reported of the linear values of a system, no call of an operation is handed
/// one point as two of its operands, and a call that does not spell out where it is made has all
/// its operands and results over the same points.
pub proof fn operands_are_distinct_and_defined_together(
    w: World,
    a: LinearAnswers,
    r: Reading,
    k: int,
)
    requires
        linear_answers_ok(w, a),
        forall|i: int|
            0 <= i < plan_of(w).calls.len() ==> (#[trigger] a.aliased@[i] matches Ok(b) ==> b
                == shared_operand(plan_of(w).calls[i].operands, r)),
        forall|i: int|
            0 <= i < plan_of(w).calls.len() ==> (#[trigger] a.differs@[i] matches Ok(b) ==> b
                == defined_apart(plan_of(w).calls[i].nodes, r)),
        linear_report(w, a).len() == 0,
        0 <= k < plan_of(w).calls.len(),
    ensures
        !shared_operand(plan_of(w).calls[k].operands, r),
        plan_of(w).calls[k].implicit ==> !defined_apart(plan_of(w).calls[k].nodes, r),
{
    let all = plan_of(w).calls;
    assert(calls_report(all, a.aliased@, a.differs@, all.len()).len() == 0);
    lemma_calls_clean(all, a.aliased@, a.differs@, all.len(), k);
    assert(a.aliased@[k] matches Ok(b) ==> b == shared_operand(all[k].operands, r));
}

proof fn lemma_used_once(
    w: World,
    a: LinearAnswers,
    taken: Seq<Taken>,
    domains: Seq<Set<Point>>,
    h: int,
    x: Point,
)
    requires
        linear_answers_ok(w, a),
        truthful(plan_of(w), a, taken, domains),
        linear_report(w, a).len() == 0,
        0 <= h < domains.len(),
        domains[h].contains(x),
    ensures
        ({
            let all = plan_of(w).accesses;
            let name = plan_of(w).held[h].name;
            &&& exists|k: int, p: Point| takes(all, taken, name, k, p, x)
            &&& forall|k: int, p: Point, l: int, q: Point|
                takes(all, taken, name, k, p, x) && takes(all, taken, name, l, q, x) ==> k == l
                    && p == q
        }),
{
    let plan = plan_of(w);
    let all = plan.accesses;
    let name = plan.held[h].name;
    assert(accesses_report(all, a.repeats@, a.overlaps@, all.len()).len() == 0);
    assert(held_report(plan.held, a.unused@, plan.held.len()).len() == 0);
    lemma_held_clean(plan.held, a.unused@, plan.held.len(), h);
    assert forall|k: int, p: Point, l: int, q: Point|
        takes(all, taken, name, k, p, x) && takes(all, taken, name, l, q, x) implies k == l && p
        == q by {
        if k == l {
            lemma_accesses_clean(all, a.repeats@, a.overlaps@, all.len(), k);
            if p != q {
                assert(taken[k].contains((p, x)) && taken[k].contains((q, x)));
                assert(repeats(taken[k]));
            }
        } else {
            let (first, second) = if k < l { (k, l) } else { (l, k) };
            lemma_accesses_clean(all, a.repeats@, a.overlaps@, all.len(), second);
            if k < l {
                assert(taken[k].contains((p, x)) && taken[l].contains((q, x)));
            } else {
                assert(taken[l].contains((q, x)) && taken[k].contains((p, x)));
            }
            assert(meet(taken[first], taken[second]));
            assert(same_variable(all, first, second));
            assert(meets_earlier(all, taken, second));
        }
    }
}

/// What each read takes.
pub open spec fn taken_sets(all: Seq<AccessModel>, r: Reading) -> Seq<Taken> {
    Seq::new(all.len(), |k: int| pairs(access_relation_of(all[k]), r))
}

/// The points of each linear input and local.
pub open spec fn held_sets(s: System, all: Seq<HeldModel>, r: Reading) -> Seq<Set<Point>> {
    Seq::new(all.len(), |h: int| points(held_set(s, all[h]), r))
}

/// The answers are right about which points a read takes twice, which it takes again after another
/// read, and which points of a variable are left.
pub open spec fn linear_true(w: World, a: LinearAnswers, r: Reading) -> bool {
    let plan = plan_of(w);
    &&& forall|k: int|
        0 <= k < plan.accesses.len() ==> (#[trigger] a.repeats@[k] matches Ok(b) ==> b == repeats(
            pairs(access_relation_of(plan.accesses[k]), r),
        ))
    &&& forall|k: int|
        0 <= k < plan.accesses.len() ==> (#[trigger] a.overlaps@[k] matches Ok(b) ==> b == (
        read_overlap_set(plan.accesses, k) matches Some(t) && !(points(t, r) =~= Set::empty())))
    &&& forall|h: int|
        0 <= h < plan.held.len() && #[trigger] a.unused@[h] == Ok::<Option<String>, String>(None)
            ==> points(left_over_set(w.system, plan.held[h], plan.accesses), r) =~= Set::empty()
}

proof fn lemma_range(a: AccessModel, r: Reading, x: Point)
    ensures
        points(range_of(a), r).contains(x) <==> exists|p: Point| #[trigger]
            pairs(access_relation_of(a), r).contains((p, x)),
{
    let m = pairs(access_relation_of(a), r);
    assert(points(range_of(a), r) == Set::new(|q: Point| exists|p: Point| m.contains((p, q))));
}

proof fn lemma_taken_by_first(
    all: Seq<AccessModel>,
    name: Seq<char>,
    at: Span,
    n: nat,
    r: Reading,
    x: Point,
)
    requires
        n <= all.len(),
    ensures
        match taken_by_first(all, name, at, n) {
            None => forall|j: int| 0 <= j < n ==> (#[trigger] all[j]).variable != name,
            Some(t) => points(t, r).contains(x) <==> exists|j: int, p: Point|
                j < n && #[trigger] takes(all, taken_sets(all, r), name, j, p, x),
        },
    decreases n,
{
    if n > 0 {
        lemma_taken_by_first(all, name, at, (n - 1) as nat, r, x);
        let taken = taken_sets(all, r);
        let before = taken_by_first(all, name, at, (n - 1) as nat);
        if all[n - 1].variable == name {
            let t = taken_by_first(all, name, at, n)->Some_0;
            let own = range_of(all[n - 1]);
            lemma_range(all[n - 1], r, x);
            assert(points(t, r).contains(x) <==> points(own, r).contains(x) || (
            before matches Some(b) && points(b, r).contains(x)));
            if points(own, r).contains(x) {
                let p = choose|p: Point| #[trigger]
                    pairs(access_relation_of(all[n - 1]), r).contains((p, x));
                assert(takes(all, taken, name, n - 1, p, x));
            }
            if exists|j: int, p: Point| j < n && #[trigger] takes(all, taken, name, j, p, x) {
                let (j, p) = choose|j: int, p: Point|
                    j < n && #[trigger] takes(all, taken, name, j, p, x);
                if j == n - 1 {
                    assert(pairs(access_relation_of(all[n - 1]), r).contains((p, x)));
                } else {
                    assert(all[j].variable == name);
                    assert(before is Some);
                    assert(j < n - 1 && takes(all, taken, name, j, p, x));
                }
            }
        } else {
            if exists|j: int, p: Point| j < n && #[trigger] takes(all, taken, name, j, p, x) {
                let (j, p) = choose|j: int, p: Point|
                    j < n && #[trigger] takes(all, taken, name, j, p, x);
                assert(j < n - 1 && takes(all, taken, name, j, p, x));
            }
        }
    }
}

proof fn lemma_truthful(w: World, a: LinearAnswers, r: Reading)
    requires
        linear_true(w, a, r),
    ensures
        ({
            let plan = plan_of(w);
            truthful(
                plan,
                a,
                taken_sets(plan.accesses, r),
                held_sets(w.system, plan.held, r),
            )
        }),
{
    let plan = plan_of(w);
    let all = plan.accesses;
    let taken = taken_sets(all, r);
    let domains = held_sets(w.system, plan.held, r);
    assert forall|k: int| 0 <= k < taken.len() implies (#[trigger] a.repeats@[k] matches Ok(b) ==> b
        == repeats(taken[k])) by {}
    assert forall|k: int| 0 <= k < taken.len() implies (#[trigger] a.overlaps@[k] matches Ok(b) ==> b
        == meets_earlier(all, taken, k)) by {
        let name = all[k].variable;
        let at = all[k].at;
        let found = read_overlap_set(all, k) matches Some(t) && !(points(t, r) =~= Set::empty());
        if found {
            let t = read_overlap_set(all, k)->Some_0;
            let x = choose|x: Point| points(t, r).contains(x);
            lemma_taken_by_first(all, name, at, k as nat, r, x);
            lemma_range(all[k], r, x);
            let (j, p) = choose|j: int, p: Point|
                j < k && #[trigger] takes(all, taken, name, j, p, x);
            let q = choose|q: Point| #[trigger]
                pairs(access_relation_of(all[k]), r).contains((q, x));
            assert(taken[j].contains((p, x)) && taken[k].contains((q, x)));
            assert(meet(taken[j], taken[k]));
            assert(same_variable(all, j, k));
        }
        if meets_earlier(all, taken, k) {
            let j = choose|j: int|
                0 <= j < k && #[trigger] same_variable(all, j, k) && meet(taken[j], taken[k]);
            let (p, q, x) = choose|p: Point, q: Point, x: Point|
                #[trigger] taken[j].contains((p, x)) && #[trigger] taken[k].contains((q, x));
            lemma_taken_by_first(all, name, at, k as nat, r, x);
            lemma_range(all[k], r, x);
            assert(takes(all, taken, name, j, p, x));
            assert(all[j].variable == name);
            let t = read_overlap_set(all, k)->Some_0;
            assert(pairs(access_relation_of(all[k]), r).contains((q, x)));
            assert(points(t, r).contains(x));
        }
    }
    assert forall|h: int, x: Point|
        0 <= h < domains.len() && #[trigger] domains[h].contains(x) && a.unused@[h] == Ok::<
            Option<String>,
            String,
        >(None) implies exists|k: int, p: Point| takes(all, taken, plan.held[h].name, k, p, x) by {
        let held = plan.held[h];
        let t = left_over_set(w.system, held, all);
        lemma_taken_by_first(all, held.name, held.at, all.len(), r, x);
        assert(a.unused@[h] == Ok::<Option<String>, String>(None));
        assert(!points(t, r).contains(x));
        let taken_here = taken_by_first(all, held.name, held.at, all.len());
        match taken_here {
            None => {
                assert(points(t, r) == domains[h]);
            },
            Some(u) => {
                assert(points(t, r) == domains[h].difference(points(u, r)));
                assert(points(u, r).contains(x));
                let (j, p) = choose|j: int, p: Point|
                    j < all.len() && #[trigger] takes(all, taken, held.name, j, p, x);
                assert(takes(all, taken, held.name, j, p, x));
            },
        }
    }
}

/// Where nothing is reported of the linear values of a system, every point of a linear input or
/// local is taken by exactly one read, made at exactly one point. Of an `if`, the reads of the
/// first branch are counted.
pub proof fn every_linear_point_is_used_once(
    w: World,
    a: LinearAnswers,
    r: Reading,
    h: int,
    x: Point,
)
    requires
        linear_answers_ok(w, a),
        linear_true(w, a, r),
        linear_report(w, a).len() == 0,
        0 <= h < plan_of(w).held.len(),
        points(held_set(w.system, plan_of(w).held[h]), r).contains(x),
    ensures
        ({
            let all = plan_of(w).accesses;
            let taken = taken_sets(all, r);
            let name = plan_of(w).held[h].name;
            &&& exists|k: int, p: Point| takes(all, taken, name, k, p, x)
            &&& forall|k: int, p: Point, l: int, q: Point|
                takes(all, taken, name, k, p, x) && takes(all, taken, name, l, q, x) ==> k == l
                    && p == q
        }),
{
    let plan = plan_of(w);
    lemma_truthful(w, a, r);
    lemma_used_once(
        w,
        a,
        taken_sets(plan.accesses, r),
        held_sets(w.system, plan.held, r),
        h,
        x,
    );
}

/// Where the dependences lead from a point of the equation: each goes on from the points that it is
/// needed at.
pub open spec fn led_to(steps: Seq<StepModel>, table: Table, p: Point, r: Reading) -> Option<Point>
    decreases steps.len(),
{
    if steps.len() == 0 {
        Some(p)
    } else {
        match led_to(steps.drop_last(), table, p, r) {
            None => None,
            Some(q) => if (r.kept)(table, steps.last().node).contains(q) {
                Some(image(steps.last().function, q, r))
            } else {
                None
            },
        }
    }
}

proof fn lemma_steps(steps: Seq<StepModel>, table: Table, at: Span, r: Reading, p: Point, x: Point)
    requires
        steps.len() > 0,
    ensures
        pairs(steps_relation(steps, table, at), r).contains((p, x)) <==> led_to(
            steps,
            table,
            p,
            r,
        ) == Some(x),
    decreases steps.len(),
{
    let last = steps.last();
    let one = step_relation(last, table, at);
    let graph = pairs(MapModel::Graph(last.function, at), r);
    let from = points(SetModel::Kept(table, last.node), r);
    assert(graph == Set::new(|y: (Point, Point)| image(last.function, y.0, r) == y.1));
    assert(pairs(one, r) == graph.filter(|y: (Point, Point)| from.contains(y.0)));
    assert forall|y: Point, z: Point| #[trigger] pairs(one, r).contains((y, z)) <==> from.contains(
        y,
    ) && image(last.function, y, r) == z by {
        assert(graph.contains((y, z)) <==> image(last.function, y, r) == z);
    }
    if steps.len() == 1 {
        assert(steps[0] == last);
        assert(steps_relation(steps, table, at) == one);
        assert(led_to(steps.drop_last(), table, p, r) == Some(p));
        assert(pairs(one, r).contains((p, x)) <==> from.contains(p) && image(last.function, p, r)
            == x);
    } else {
        let a = pairs(steps_relation(steps.drop_last(), table, at), r);
        let b = pairs(one, r);
        assert(pairs(steps_relation(steps, table, at), r) == Set::new(
            |y: (Point, Point)| exists|m: Point| a.contains((y.0, m)) && b.contains((m, y.1)),
        ));
        let here = (p, x);
        if pairs(steps_relation(steps, table, at), r).contains(here) {
            let m = choose|m: Point| a.contains((here.0, m)) && b.contains((m, here.1));
            lemma_steps(steps.drop_last(), table, at, r, p, m);
        }
        if led_to(steps, table, p, r) == Some(x) {
            let m = led_to(steps.drop_last(), table, p, r)->Some_0;
            lemma_steps(steps.drop_last(), table, at, r, p, m);
            assert(a.contains((here.0, m)) && b.contains((m, here.1)));
        }
    }
}

/// A read takes the point that the dependences on its way lead to, from every point that they lead
/// on from; without any, the point where it stands.
pub proof fn a_read_follows_its_dependences(a: AccessModel, r: Reading, p: Point, x: Point)
    ensures
        pairs(access_relation_of(a), r).contains((p, x)) <==> led_to(
            a.steps,
            table_of(a),
            p,
            r,
        ) == Some(x) && (a.steps.len() == 0 ==> (r.kept)(table_of(a), a.node).contains(p)),
{
    reveal(access_relation_of);
    if a.steps.len() > 0 {
        lemma_steps(a.steps, table_of(a), a.at, r, p, x);
    } else {
        let set = SetModel::Kept(table_of(a), a.node);
        let here = points(set, r);
        assert(pairs(MapModel::Same(Box::new(set), a.at), r) == Set::new(
            |y: (Point, Point)| here.contains(y.0) && y.0 == y.1,
        ));
    }
}

} // verus!
