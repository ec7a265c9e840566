//! What a realization comes to, point by point, where the answers that it rests on are right.
use crate::error::{Failure, IslError};
use crate::ir::{OperationCall, System};
use crate::realize::{
    after_edge, alias_among, alias_from, all_variables, at_root, calls_of, candidate_of,
    common_lanes, cover_first, coverage_failure, edge_outcome, entry_of, facts_ok, first_uncovered,
    group_walk, has_lanes, held_by_first, is_resource, joined_of, lane_count, name_place,
    operation_resolved, operations_of_first, parts_of_first, points_of_variable, realized, root_lanes,
    root_map, same_group, shared_points, slots, upcoming, walk, CallAnswers, EdgeAnswer,
    Facts, FlowEdge, FlowModel, FlowSink, LaneModel, Lanes, OperationModel, PartsModel,
    ResolvedAccess, ResourceGroupId, RootFacts, Uncovered, Walk,
};
use crate::relation::{members, pairs, starts, Leaves, RegionModel, RelationModel, Tuple};
use crate::schedule::Answer;
use crate::stmt::{KindModel, StatementModel};
use vstd::prelude::*;

verus! {

proof fn lemma_groups_numbered(
    roots: Seq<RootFacts>,
    edges: Seq<FlowEdge>,
    sinks: Seq<FlowSink>,
    n: nat,
)
    requires
        n <= usize::MAX,
        n <= roots.len(),
        forall|i: int|
            0 <= i < roots.len() ==> crate::realize::root_ok(#[trigger] roots[i], edges, sinks),
    ensures
        parts_of_first(roots, edges, sinks, n) matches Ok(p) ==> p.groups.len() == n && forall|
            i: int,
        |
            0 <= i < n ==> (#[trigger] p.groups[i]).id.0 == i && lane_count(p.groups[i].shape)
                == Some(p.groups[i].size) && p.groups[i].entry == entry_of(roots[i].kind),
    decreases n,
{
    if n > 0 {
        lemma_groups_numbered(roots, edges, sinks, (n - 1) as nat);
        assert(crate::realize::root_ok(roots[n - 1], edges, sinks));
    }
}

proof fn lemma_all_covered(s: System, lanes: Seq<LaneModel>, uncovered: Seq<Uncovered>, k: int, i: int)
    requires
        0 <= k <= i < all_variables(s).len(),
        first_uncovered(lanes, all_variables(s), uncovered, k) is None,
    ensures
        coverage_failure(lanes, all_variables(s)[i], uncovered[i]) is None,
    decreases all_variables(s).len() - k,
{
    if k < i {
        lemma_all_covered(s, lanes, uncovered, k + 1, i);
    }
}

/// A realized program has one group for each root, numbered in order, of the size of its shape and
/// entered as the root says; and every linear qubit variable has lanes, all of it.
pub proof fn a_realization_covers_every_resource(
    system: System,
    statements: Seq<StatementModel>,
    f: Facts,
)
    requires
        facts_ok(system, statements, f),
        f.roots.len() <= usize::MAX,
    ensures
        realized(system, statements, f) matches Ok(m) ==> {
            &&& m.groups.len() == f.roots.len()
            &&& forall|i: int|
                0 <= i < m.groups.len() ==> (#[trigger] m.groups[i]).id.0 == i && lane_count(
                    m.groups[i].shape,
                ) == Some(m.groups[i].size) && m.groups[i].entry == entry_of(f.roots[i].kind)
            &&& forall|i: int|
                0 <= i < all_variables(system).len() && is_resource(
                    #[trigger] all_variables(system)[i],
                ) ==> has_lanes(m.lanes, all_variables(system)[i].name@) && f.uncovered[i]
                    == Ok::<Option<String>, IslError>(None)
        },
{
    lemma_groups_numbered(f.roots, f.edges, f.sinks, f.roots.len());
    match realized(system, statements, f) {
        Ok(m) => {
            assert forall|i: int|
                0 <= i < all_variables(system).len() && is_resource(
                    #[trigger] all_variables(system)[i],
                ) implies has_lanes(m.lanes, all_variables(system)[i].name@) && f.uncovered[i]
                == Ok::<Option<String>, IslError>(None) by {
                lemma_all_covered(system, m.lanes, f.uncovered, 0, i);
            }
        },
        Err(_) => {},
    }
}

proof fn lemma_calls_placed(all: Seq<StatementModel>, i: int)
    requires
        0 <= i < calls_of(all).len(),
    ensures
        ({
            let (place, call) = calls_of(all)[i];
            0 <= place < all.len() && all[place].kind == KindModel::OperationCall(call)
        }),
    decreases all.len(),
{
    let before = calls_of(all.drop_last());
    if i < before.len() {
        lemma_calls_placed(all.drop_last(), i);
    }
}

proof fn lemma_calls_ordered(all: Seq<StatementModel>, i: int, j: int)
    requires
        0 <= i < j < calls_of(all).len(),
    ensures
        calls_of(all)[i].0 < calls_of(all)[j].0,
    decreases all.len(),
{
    let before = calls_of(all.drop_last());
    if j < before.len() {
        lemma_calls_ordered(all.drop_last(), i, j);
    } else {
        lemma_calls_placed(all.drop_last(), i);
    }
}

proof fn lemma_call_found(all: Seq<StatementModel>, place: int)
    requires
        0 <= place < all.len(),
        all[place].kind is OperationCall,
    ensures
        exists|i: int| 0 <= i < calls_of(all).len() && (#[trigger] calls_of(all)[i]).0 == place,
    decreases all.len(),
{
    let before = calls_of(all.drop_last());
    if place == all.len() - 1 {
        assert(calls_of(all)[before.len() as int].0 == place);
    } else {
        lemma_call_found(all.drop_last(), place);
        let i = choose|i: int| 0 <= i < before.len() && (#[trigger] before[i]).0 == place;
        assert(calls_of(all)[i] == before[i]);
    }
}

proof fn lemma_operations_shape(
    lanes: Seq<LaneModel>,
    calls: Seq<(int, OperationCall)>,
    answers: Seq<CallAnswers>,
    n: nat,
)
    ensures
        operations_of_first(lanes, calls, answers, n) matches Ok(v) ==> v.len() == n && forall|
            i: int,
        |
            0 <= i < n ==> operation_resolved(lanes, calls[i].0, calls[i].1, answers[i]) == Ok::<
                OperationModel,
                Failure,
            >(#[trigger] v[i]),
    decreases n,
{
    if n > 0 {
        lemma_operations_shape(lanes, calls, answers, (n - 1) as nat);
    }
}

/// A realized program has exactly one entry for each call of an operation, in the order of the
/// statements: the number of an entry is that of a call, and every call has its entry.
pub proof fn every_call_is_resolved(system: System, statements: Seq<StatementModel>, f: Facts)
    requires
        facts_ok(system, statements, f),
        statements.len() <= usize::MAX,
    ensures
        realized(system, statements, f) matches Ok(m) ==> {
            &&& forall|i: int|
                0 <= i < m.operations.len() ==> (#[trigger] m.operations[i]).statement.0
                    < statements.len() && statements[m.operations[i].statement.0 as int].kind is OperationCall
            &&& forall|i: int, j: int|
                0 <= i < j < m.operations.len() ==> (#[trigger] m.operations[i]).statement.0 < (
                #[trigger] m.operations[j]).statement.0
            &&& forall|place: int|
                0 <= place < statements.len() && (
                #[trigger] statements[place]).kind is OperationCall ==> exists|i: int|
                    0 <= i < m.operations.len() && (#[trigger] m.operations[i]).statement.0 == place
        },
{
    match realized(system, statements, f) {
        Ok(m) => {
            let calls = calls_of(statements);
            lemma_operations_shape(m.lanes, calls, f.calls, f.calls.len());
            assert forall|i: int| 0 <= i < m.operations.len() implies (
            #[trigger] m.operations[i]).statement.0 == calls[i].0 && 0 <= calls[i].0
                < statements.len() && statements[calls[i].0].kind is OperationCall by {
                lemma_calls_placed(statements, i);
            }
            assert forall|i: int, j: int| 0 <= i < j < m.operations.len() implies (
            #[trigger] m.operations[i]).statement.0 < (#[trigger] m.operations[j]).statement.0 by {
                lemma_calls_ordered(statements, i, j);
            }
            assert forall|place: int|
                0 <= place < statements.len() && (
                #[trigger] statements[place]).kind is OperationCall implies exists|i: int|
                0 <= i < m.operations.len() && (#[trigger] m.operations[i]).statement.0
                    == place by {
                lemma_call_found(statements, place);
                let i = choose|i: int| 0 <= i < calls.len() && (#[trigger] calls[i]).0 == place;
                assert(m.operations[i].statement.0 == place);
            }
        },
        Err(_) => {},
    }
}

/// The point has a lane by the map.
pub open spec fn has_lane(m: RelationModel, l: Leaves, x: Tuple) -> bool {
    exists|y: Tuple| #[trigger] pairs(m, l).contains((x, y))
}

/// Every point has at most one lane by the map.
pub open spec fn one_lane(m: RelationModel, l: Leaves) -> bool {
    forall|x: Tuple, y: Tuple, z: Tuple| #[trigger]
        pairs(m, l).contains((x, y)) && #[trigger] pairs(m, l).contains((x, z)) ==> y == z
}

/// The map at place `j` is for the variable and has a lane for the point.
pub open spec fn holds(lanes: Seq<LaneModel>, l: Leaves, variable: Seq<char>, j: int, x: Tuple) -> bool {
    0 <= j < lanes.len() && lanes[j].variable == variable && has_lane(lanes[j].relation, l, x)
}

/// What came out along an edge is right: whether every point has one lane by the map that it makes,
/// whether it agrees with the map so far, and whether it adds anything.
pub open spec fn edge_true(
    e: FlowEdge,
    place: usize,
    reached: Seq<Seq<char>>,
    maps: Seq<RelationModel>,
    a: EdgeAnswer,
    l: Leaves,
) -> bool {
    let candidate = candidate_of(e, place, reached, maps);
    &&& a.single_lane matches Ok(b) ==> b == one_lane(candidate, l)
    &&& joined_of(e, place, reached, maps) matches Some((x, y)) ==> (a.conflict matches Ok(b) ==> b
        == (pairs(x, l) != pairs(y, l)))
    &&& reached.contains(e.output@) ==> (a.grows matches Ok(b) ==> b == (pairs(candidate, l) != pairs(
        maps[name_place(reached, e.output@, 0)],
        l,
    )))
}

/// What came out along the edges from place `k` on is right.
pub open spec fn walk_true(
    edges: Seq<FlowEdge>,
    f: FlowModel,
    answers: Seq<EdgeAnswer>,
    k: int,
    l: Leaves,
) -> bool
    decreases answers.len() - k,
{
    match upcoming(edges, f) {
        None => true,
        Some((place, again)) => 0 <= k < answers.len() ==> {
            &&& edge_true(edges[place], place as usize, f.reached, f.maps, answers[k], l)
            &&& edge_outcome(edges[place], f.reached, answers[k]) matches Ok(grows) ==> walk_true(
                edges,
                after_edge(edges, f, place, again, grows),
                answers,
                k + 1,
                l,
            )
        },
    }
}

/// An edge is followed only where the map of its output, with what comes out along the edge, gives
/// every point one lane.
pub proof fn a_followed_edge_leaves_one_lane_per_point(
    e: FlowEdge,
    place: usize,
    reached: Seq<Seq<char>>,
    maps: Seq<RelationModel>,
    a: EdgeAnswer,
    l: Leaves,
)
    requires
        edge_outcome(e, reached, a) is Ok,
        edge_true(e, place, reached, maps, a, l),
    ensures
        one_lane(candidate_of(e, place, reached, maps), l),
{
}

pub open spec fn all_one_lane(maps: Seq<RelationModel>, l: Leaves) -> bool {
    forall|i: int| 0 <= i < maps.len() ==> one_lane(#[trigger] maps[i], l)
}

proof fn lemma_name_place(names: Seq<Seq<char>>, name: Seq<char>, k: int, i: int)
    requires
        0 <= k <= i < names.len(),
        names[i] == name,
    ensures
        k <= name_place(names, name, k) <= i,
    decreases names.len() - k,
{
    if names[k] != name {
        lemma_name_place(names, name, k + 1, i);
    }
}

/// A group gives every point one lane in every variable that it reaches, where it gives every point
/// one lane at the start.
pub proof fn a_group_leaves_one_lane_per_point(
    edges: Seq<FlowEdge>,
    f: FlowModel,
    answers: Seq<EdgeAnswer>,
    k: int,
    l: Leaves,
)
    requires
        0 <= k <= answers.len(),
        walk_true(edges, f, answers, k, l),
        all_one_lane(f.maps, l),
        f.maps.len() == f.reached.len(),
    ensures
        walk(edges, f, answers, k) matches Walk::Done(reached, maps) ==> all_one_lane(maps, l)
            && maps.len() == reached.len(),
    decreases answers.len() - k,
{
    match upcoming(edges, f) {
        None => {},
        Some((place, again)) => if k < answers.len() {
            match edge_outcome(edges[place], f.reached, answers[k]) {
                Err(_) => {},
                Ok(grows) => {
                    a_followed_edge_leaves_one_lane_per_point(
                        edges[place],
                        place as usize,
                        f.reached,
                        f.maps,
                        answers[k],
                        l,
                    );
                    let after = after_edge(edges, f, place, again, grows);
                    let output = edges[place].output@;
                    if f.reached.contains(output) {
                        let i = choose|i: int| 0 <= i < f.reached.len() && f.reached[i] == output;
                        lemma_name_place(f.reached, output, 0, i);
                    }
                    assert forall|i: int| 0 <= i < after.maps.len() implies one_lane(
                        #[trigger] after.maps[i],
                        l,
                    ) by {
                        if i < f.maps.len() {
                            assert(one_lane(f.maps[i], l));
                        }
                    }
                    assert(after.maps.len() == after.reached.len());
                    a_group_leaves_one_lane_per_point(edges, after, answers, k + 1, l);
                },
            }
        },
    }
}

/// What is known of whether a group shares points with earlier ones is right.
pub open spec fn overlaps_true(
    lanes: Seq<LaneModel>,
    reached: Seq<Seq<char>>,
    maps: Seq<RelationModel>,
    overlaps: Seq<Answer>,
    group: ResourceGroupId,
    n: nat,
    l: Leaves,
) -> bool
    decreases n,
{
    n == 0 || {
        &&& overlaps_true(lanes, reached, maps, overlaps, group, (n - 1) as nat, l)
        &&& cover_first(lanes, reached, maps, overlaps, group, (n - 1) as nat) matches Ok(before) ==> (
        overlaps[n - 1] matches Ok(b) ==> (shared_points(
            before,
            reached[n - 1],
            maps[n - 1],
        ) matches Some(shared) ==> b == !(members(shared, l) =~= Set::empty())))
    }
}

/// What is known of the root is right.
pub open spec fn root_true(p: PartsModel, root: RootFacts, edges: Seq<FlowEdge>, l: Leaves) -> bool {
    root.domain matches Ok(d) ==> (root_lanes(d) matches Ok(lanes) ==> {
        &&& walk_true(edges, at_root(root.variable@, root_map(d, lanes)), root.steps@, 0, l)
        &&& group_walk(root.variable@, root_map(d, lanes), edges, root.steps@) matches Walk::Done(
            reached,
            maps,
        ) ==> overlaps_true(
            p.lanes,
            reached,
            maps,
            root.overlaps@,
            ResourceGroupId(p.groups.len() as usize),
            reached.len(),
            l,
        )
    })
}

/// What is known of the first `n` roots is right.
pub open spec fn roots_true(
    roots: Seq<RootFacts>,
    edges: Seq<FlowEdge>,
    sinks: Seq<FlowSink>,
    n: nat,
    l: Leaves,
) -> bool
    decreases n,
{
    n == 0 || {
        &&& roots_true(roots, edges, sinks, (n - 1) as nat, l)
        &&& parts_of_first(roots, edges, sinks, (n - 1) as nat) matches Ok(p) ==> root_true(
            p,
            roots[n - 1],
            edges,
            l,
        )
    }
}

/// What is known of the variables is right: nothing of a variable is left uncovered exactly where
/// the points that have a lane are those of the variable.
pub open spec fn coverage_true(
    system: System,
    lanes: Seq<LaneModel>,
    uncovered: Seq<Uncovered>,
    point: Seq<char>,
    l: Leaves,
) -> bool {
    forall|i: int|
        0 <= i < uncovered.len() && (#[trigger] uncovered[i]) == Ok::<Option<String>, IslError>(
            None,
        ) ==> (held_by_first(
            lanes,
            all_variables(system)[i].name@,
            lanes.len(),
        ) matches Some(held) ==> members(held, l) =~= members(
            points_of_variable(all_variables(system)[i], point),
            l,
        ))
}

proof fn lemma_held(lanes: Seq<LaneModel>, variable: Seq<char>, n: nat, l: Leaves, x: Tuple)
    requires
        n <= lanes.len(),
    ensures
        match held_by_first(lanes, variable, n) {
            None => forall|j: int| 0 <= j < n ==> (#[trigger] lanes[j]).variable != variable,
            Some(held) => members(held, l).contains(x) <==> exists|j: int|
                j < n && #[trigger] holds(lanes, l, variable, j, x),
        },
    decreases n,
{
    if n > 0 {
        lemma_held(lanes, variable, (n - 1) as nat, l, x);
        let own = RegionModel::Domain(Box::new(lanes[n - 1].relation));
        assert(members(own, l) == starts(pairs(lanes[n - 1].relation, l)));
        assert(members(own, l).contains(x) <==> has_lane(lanes[n - 1].relation, l, x));
        let before = held_by_first(lanes, variable, (n - 1) as nat);
        if lanes[n - 1].variable == variable {
            let held = held_by_first(lanes, variable, n)->Some_0;
            if members(held, l).contains(x) {
                if members(own, l).contains(x) {
                    assert(holds(lanes, l, variable, n - 1, x));
                }
            }
            if exists|j: int| j < n && #[trigger] holds(lanes, l, variable, j, x) {
                let j = choose|j: int| j < n && #[trigger] holds(lanes, l, variable, j, x);
                if j == n - 1 {
                    assert(members(own, l).contains(x));
                } else {
                    assert(holds(lanes, l, variable, j, x));
                }
            }
        }
    }
}

/// Every point has at most one lane by each map, and no point has one by two maps of a variable.
pub open spec fn apart(lanes: Seq<LaneModel>, l: Leaves) -> bool {
    &&& forall|j: int| 0 <= j < lanes.len() ==> one_lane((#[trigger] lanes[j]).relation, l)
    &&& forall|i: int, j: int, x: Tuple|
        0 <= i < j < lanes.len() && #[trigger] holds(lanes, l, lanes[j].variable, i, x)
            ==> !#[trigger] holds(lanes, l, lanes[j].variable, j, x)
}

proof fn lemma_cover_apart(
    lanes: Seq<LaneModel>,
    reached: Seq<Seq<char>>,
    maps: Seq<RelationModel>,
    overlaps: Seq<Answer>,
    group: ResourceGroupId,
    n: nat,
    l: Leaves,
)
    requires
        apart(lanes, l),
        all_one_lane(maps, l),
        maps.len() == reached.len(),
        n <= reached.len(),
        overlaps_true(lanes, reached, maps, overlaps, group, n, l),
    ensures
        cover_first(lanes, reached, maps, overlaps, group, n) matches Ok(out) ==> apart(out, l),
    decreases n,
{
    if n > 0 {
        lemma_cover_apart(lanes, reached, maps, overlaps, group, (n - 1) as nat, l);
        match cover_first(lanes, reached, maps, overlaps, group, n) {
            Err(_) => {},
            Ok(out) => {
                let before = cover_first(lanes, reached, maps, overlaps, group, (n - 1) as nat)->Ok_0;
                let variable = reached[n - 1];
                let map = maps[n - 1];
                assert(out =~= before.push(LaneModel { variable, group, relation: map }));
                let last = before.len() as int;
                assert forall|j: int| 0 <= j < out.len() implies one_lane(
                    (#[trigger] out[j]).relation,
                    l,
                ) by {
                    if j < last {
                        assert(one_lane(before[j].relation, l));
                    } else {
                        assert(one_lane(maps[n - 1], l));
                    }
                }
                assert forall|i: int, j: int, x: Tuple|
                    0 <= i < j < out.len() && #[trigger] holds(
                        out,
                        l,
                        out[j].variable,
                        i,
                        x,
                    ) implies !#[trigger] holds(out, l, out[j].variable, j, x) by {
                    assert(holds(before, l, out[j].variable, i, x));
                    if j < last {
                        assert(out[j] == before[j]);
                        assert(!holds(before, l, before[j].variable, j, x));
                    } else if holds(out, l, out[j].variable, j, x) {
                        lemma_held(before, variable, before.len(), l, x);
                        assert(has_lanes(before, variable)) by {
                            assert(before[i].variable == variable);
                        }
                        let held = held_by_first(before, variable, before.len())->Some_0;
                        let shared = shared_points(before, variable, map)->Some_0;
                        assert(members(held, l).contains(x));
                        let own = RegionModel::Domain(Box::new(map));
                        assert(members(own, l) == starts(pairs(map, l)));
                        assert(members(own, l).contains(x));
                        assert(members(shared, l).contains(x));
                    }
                }
            },
        }
    }
}

proof fn lemma_root_map_one_lane(text: Seq<char>, single: Seq<usize>, l: Leaves)
    ensures
        one_lane(RelationModel::Lanes(text, single), l),
{
}

proof fn lemma_parts_apart(
    roots: Seq<RootFacts>,
    edges: Seq<FlowEdge>,
    sinks: Seq<FlowSink>,
    n: nat,
    l: Leaves,
)
    requires
        roots_true(roots, edges, sinks, n, l),
    ensures
        parts_of_first(roots, edges, sinks, n) matches Ok(p) ==> apart(p.lanes, l),
    decreases n,
{
    if n > 0 {
        lemma_parts_apart(roots, edges, sinks, (n - 1) as nat, l);
        match parts_of_first(roots, edges, sinks, n) {
            Err(_) => {},
            Ok(p) => {
                let before = parts_of_first(roots, edges, sinks, (n - 1) as nat)->Ok_0;
                let root = roots[n - 1];
                let d = root.domain->Ok_0;
                let lanes = root_lanes(d)->Ok_0;
                let start = at_root(root.variable@, root_map(d, lanes));
                lemma_root_map_one_lane(d.text@, lanes.single, l);
                a_group_leaves_one_lane_per_point(edges, start, root.steps@, 0, l);
                match walk(edges, start, root.steps@, 0) {
                    Walk::Done(reached, maps) => {
                        lemma_cover_apart(
                            before.lanes,
                            reached,
                            maps,
                            root.overlaps@,
                            ResourceGroupId(before.groups.len() as usize),
                            reached.len(),
                            l,
                        );
                    },
                    _ => {},
                }
            },
        }
    }
}

/// Every point of a linear qubit variable lies in exactly one group, in exactly one lane of it: the
/// maps of the variable share no point, together they reach all of it and nothing else, and each
/// gives a point one lane. The answers of the polyhedral library have to be right.
pub proof fn every_resource_point_has_one_lane(
    system: System,
    statements: Seq<StatementModel>,
    f: Facts,
    point: Seq<char>,
    l: Leaves,
    v: int,
    x: Tuple,
)
    requires
        facts_ok(system, statements, f),
        roots_true(f.roots, f.edges, f.sinks, f.roots.len(), l),
        realized(system, statements, f) matches Ok(m) && coverage_true(
            system,
            m.lanes,
            f.uncovered,
            point,
            l,
        ),
        0 <= v < all_variables(system).len(),
        is_resource(all_variables(system)[v]),
    ensures
        realized(system, statements, f) matches Ok(m) && {
            let variable = all_variables(system)[v];
            let name = variable.name@;
            &&& members(points_of_variable(variable, point), l).contains(x) <==> exists|j: int|
                #[trigger] holds(m.lanes, l, name, j, x)
            &&& forall|i: int, j: int|
                holds(m.lanes, l, name, i, x) && holds(m.lanes, l, name, j, x) ==> i == j
            &&& forall|j: int, y: Tuple, z: Tuple|
                holds(m.lanes, l, name, j, x) && #[trigger] pairs(
                    m.lanes[j].relation,
                    l,
                ).contains((x, y)) && #[trigger] pairs(m.lanes[j].relation, l).contains((x, z))
                    ==> y == z
        },
{
    let m = realized(system, statements, f)->Ok_0;
    let variable = all_variables(system)[v];
    let name = variable.name@;
    lemma_parts_apart(f.roots, f.edges, f.sinks, f.roots.len(), l);
    lemma_all_covered(system, m.lanes, f.uncovered, 0, v);
    assert(f.uncovered[v] == Ok::<Option<String>, IslError>(None));
    lemma_held(m.lanes, name, m.lanes.len(), l, x);
    assert(held_by_first(m.lanes, name, m.lanes.len()) is Some) by {
        let i = choose|i: int| 0 <= i < m.lanes.len() && (#[trigger] m.lanes[i]).variable == name;
        assert(m.lanes[i].variable == name);
    }
    let held = held_by_first(m.lanes, name, m.lanes.len())->Some_0;
    assert(members(held, l) =~= members(points_of_variable(variable, point), l));
    if exists|j: int| #[trigger] holds(m.lanes, l, name, j, x) {
        let j = choose|j: int| #[trigger] holds(m.lanes, l, name, j, x);
        assert(j < m.lanes.len() && holds(m.lanes, l, name, j, x));
    }
    assert forall|i: int, j: int|
        holds(m.lanes, l, name, i, x) && holds(m.lanes, l, name, j, x) implies i == j by {
        if i < j {
            assert(m.lanes[j].variable == name);
        } else if j < i {
            assert(m.lanes[i].variable == name);
        }
    }
    assert forall|j: int, y: Tuple, z: Tuple|
        holds(m.lanes, l, name, j, x) && #[trigger] pairs(m.lanes[j].relation, l).contains((x, y))
            && #[trigger] pairs(m.lanes[j].relation, l).contains((x, z)) implies y == z by {
        assert(one_lane(m.lanes[j].relation, l));
    }
}

/// What is known of the lanes that the inputs of a call share is right, for the lane maps by which
/// they use them.
pub open spec fn shared_true(
    lanes: Seq<LaneModel>,
    call: OperationCall,
    used: Seq<Option<ResolvedAccess>>,
    a: CallAnswers,
    point: Seq<char>,
    l: Leaves,
) -> bool {
    forall|i: int, j: int|
        0 <= i < j < used.len() && used[i] is Some && used[j] is Some ==> ((
        #[trigger] a.shared@[i]@[j]) matches Ok(b) ==> b == !(pairs(
            common_lanes(
                call,
                i,
                j,
                point,
                lanes[used[i]->Some_0.lane as int].relation,
                lanes[used[j]->Some_0.lane as int].relation,
            ),
            l,
        ) =~= Set::empty()))
}

proof fn lemma_no_alias_from(
    operation: Seq<char>,
    v: Seq<Option<ResolvedAccess>>,
    shared: Seq<Vec<Answer>>,
    i: int,
    k: int,
    j: int,
)
    requires
        0 <= k <= j < v.len(),
        alias_from(operation, v, shared, i, k) is None,
        same_group(v[i], v[j]),
    ensures
        shared[i]@[j] == Ok::<bool, IslError>(false),
    decreases j - k,
{
    if k < j {
        lemma_no_alias_from(operation, v, shared, i, k + 1, j);
    }
}

proof fn lemma_no_alias(
    operation: Seq<char>,
    v: Seq<Option<ResolvedAccess>>,
    shared: Seq<Vec<Answer>>,
    k: int,
    i: int,
    j: int,
)
    requires
        0 <= k <= i < j < v.len(),
        alias_among(operation, v, shared, k) is None,
        same_group(v[i], v[j]),
    ensures
        shared[i]@[j] == Ok::<bool, IslError>(false),
    decreases i - k,
{
    if k < i {
        lemma_no_alias(operation, v, shared, k + 1, i, j);
    } else {
        lemma_no_alias_from(operation, v, shared, i, i + 1, j);
    }
}

/// In a realized program no two inputs of a call use one lane of one group at a point of the call.
pub proof fn resolved_operands_share_no_lane(
    system: System,
    statements: Seq<StatementModel>,
    f: Facts,
    point: Seq<char>,
    l: Leaves,
    c: int,
    i: int,
    j: int,
    x: Tuple,
    y: Tuple,
)
    requires
        facts_ok(system, statements, f),
        0 <= c < calls_of(statements).len(),
        realized(system, statements, f) matches Ok(m) && (slots(
            m.lanes,
            calls_of(statements)[c].1.operation.spelling(),
            calls_of(statements)[c].1.inputs@,
            f.calls[c].inputs@,
            calls_of(statements)[c].1.inputs@.len(),
        ) matches Ok(used) && 0 <= i < j < used.len() && same_group(used[i], used[j])
            && shared_true(m.lanes, calls_of(statements)[c].1, used, f.calls[c], point, l)),
    ensures
        realized(system, statements, f) matches Ok(m) && (slots(
            m.lanes,
            calls_of(statements)[c].1.operation.spelling(),
            calls_of(statements)[c].1.inputs@,
            f.calls[c].inputs@,
            calls_of(statements)[c].1.inputs@.len(),
        ) matches Ok(used) && !pairs(
            common_lanes(
                calls_of(statements)[c].1,
                i,
                j,
                point,
                m.lanes[used[i]->Some_0.lane as int].relation,
                m.lanes[used[j]->Some_0.lane as int].relation,
            ),
            l,
        ).contains((x, y))),
{
    let m = realized(system, statements, f)->Ok_0;
    let calls = calls_of(statements);
    let call = calls[c].1;
    let name = call.operation.spelling();
    lemma_operations_shape(m.lanes, calls, f.calls, f.calls.len());
    assert(operation_resolved(m.lanes, calls[c].0, call, f.calls[c]) == Ok::<
        OperationModel,
        Failure,
    >(m.operations[c]));
    let used = slots(m.lanes, name, call.inputs@, f.calls[c].inputs@, call.inputs@.len())->Ok_0;
    lemma_no_alias(name, used, f.calls[c].shared@, 0, i, j);
    assert(f.calls[c].shared@[i]@[j] == Ok::<bool, IslError>(false));
    let common = pairs(
        common_lanes(
            call,
            i,
            j,
            point,
            m.lanes[used[i]->Some_0.lane as int].relation,
            m.lanes[used[j]->Some_0.lane as int].relation,
        ),
        l,
    );
    assert(common =~= Set::empty());
}

} // verus!
