//! Which lane of which group of physical resources each logical resource lives in.
//!
//! A group starts at a root, a place where resources come into being, and its lanes follow the
//! resources along the edges of their flow to the sinks. The maps from logical points to lanes are
//! computed by a polyhedral library; what is asked of it, and what the answers lead to, is here.
use crate::context_names::has_name;
use crate::error::{CodegenError, Failure, IslError, Result};
use crate::multiplicity::Multiplicity;
use crate::ir::{Access, OperationCall, System, Variable};
use crate::relation::{
    at, both, compose, composed, domain_of, in_both, in_either, region_at, relation_models, repeatedly,
    reverse, union, within, Region, RegionModel, Relation, RelationModel,
};
use crate::schedule::Answer;
use crate::scheduled_ir::StatementId;
use crate::stmt::{statements_model, KindModel, Statement, StatementKind, StatementModel};
use crate::text::{cat2, cat3, cat4, cat7, dec, dec_usize, push_text, str_eq, views};
use crate::ty::ElementType;
use vstd::prelude::*;

verus! {

#[derive(Debug, Clone, Copy, PartialEq, Eq, Hash, Structural)]
pub struct ResourceGroupId(pub usize);

#[derive(Debug, Clone, Copy, PartialEq, Eq, Structural)]
pub enum EntryOccupancy {
    Empty,
    Occupied,
}

#[derive(Debug, Clone, Copy, PartialEq, Eq, Structural)]
pub enum ExitOccupancy {
    Empty,
    Occupied,
}

/// Resources that live side by side, with how they come and how they go.
#[derive(Debug)]
pub struct ResourceGroup {
    pub id: ResourceGroupId,
    pub element_type: ElementType,
    pub shape: Vec<u64>,
    pub size: u64,
    pub entry: EntryOccupancy,
    pub exit: ExitOccupancy,
}

/// A [`ResourceGroup`] as a mathematical value.
pub struct GroupModel {
    pub id: ResourceGroupId,
    pub element_type: ElementType,
    pub shape: Seq<u64>,
    pub size: u64,
    pub entry: EntryOccupancy,
    pub exit: ExitOccupancy,
}

impl View for ResourceGroup {
    type V = GroupModel;

    open spec fn view(&self) -> GroupModel {
        GroupModel {
            id: self.id,
            element_type: self.element_type,
            shape: self.shape@,
            size: self.size,
            entry: self.entry,
            exit: self.exit,
        }
    }
}

pub open spec fn group_models(v: Seq<ResourceGroup>) -> Seq<GroupModel> {
    Seq::new(v.len(), |i: int| v[i]@)
}

/// The smallest and the largest value of one index, where they do not depend on anything.
#[derive(Debug)]
pub struct Extent {
    pub minimum: core::result::Result<Option<i64>, IslError>,
    pub maximum: core::result::Result<Option<i64>, IslError>,
}

/// What is known of the points at a root.
#[derive(Debug)]
pub struct RootDomain {
    /// The domain as text, for messages.
    pub text: String,
    pub rectangular: Answer,
    pub extents: Vec<Extent>,
    /// The map to the lanes as text, where it is not injective.
    pub not_injective: core::result::Result<Option<String>, IslError>,
}

pub open spec fn about(what: Seq<char>, text: Seq<char>) -> Failure {
    Failure::Realization(what + text)
}

fn realization(what: &str, text: &str) -> (r: CodegenError)
    ensures
        r@ == about(what@, text@),
{
    CodegenError::Realization(cat2(what, text))
}

/// The bounds of an index.
pub open spec fn bounds_of(e: Extent, text: Seq<char>) -> core::result::Result<
    (i64, i64),
    Failure,
> {
    match e.minimum {
        Err(x) => Err(Failure::Isl(x.message@)),
        Ok(None) => Err(about("non-constant lower bound: "@, text)),
        Ok(Some(lo)) => match e.maximum {
            Err(x) => Err(Failure::Isl(x.message@)),
            Ok(None) => Err(about("non-constant upper bound: "@, text)),
            Ok(Some(hi)) => Ok((lo, hi)),
        },
    }
}

/// How a root's points become lanes: the indices that have one value only, and the extents of the
/// others, which start at zero.
pub struct Lanes {
    pub single: Seq<usize>,
    pub shape: Seq<u64>,
}

pub type LanesOutcome = core::result::Result<Lanes, Failure>;

pub open spec fn lanes_of_first(extents: Seq<Extent>, text: Seq<char>, n: nat) -> LanesOutcome
    decreases n,
{
    if n == 0 {
        Ok(Lanes { single: Seq::empty(), shape: Seq::empty() })
    } else {
        match lanes_of_first(extents, text, (n - 1) as nat) {
            Err(f) => Err(f),
            Ok(before) => match bounds_of(extents[n - 1], text) {
                Err(f) => Err(f),
                Ok((lo, hi)) => if lo == hi {
                    Ok(
                        Lanes {
                            single: before.single.push((n - 1) as usize),
                            shape: before.shape,
                        },
                    )
                } else if lo != 0 || hi < 0 {
                    Err(about("root domain is not zero-based: "@, text))
                } else {
                    Ok(
                        Lanes {
                            single: before.single,
                            shape: before.shape.push((hi + 1) as u64),
                        },
                    )
                },
            },
        }
    }
}

/// How the points at a root become lanes: they must form a box that starts at zero, apart from
/// indices with one value.
pub open spec fn root_lanes(d: RootDomain) -> LanesOutcome {
    match d.rectangular {
        Err(e) => Err(Failure::Isl(e.message@)),
        Ok(yes) => if !yes {
            Err(about("root domain is not rectangular: "@, d.text@))
        } else {
            match lanes_of_first(d.extents@, d.text@, d.extents@.len()) {
                Err(f) => Err(f),
                Ok(lanes) => match d.not_injective {
                    Err(e) => Err(Failure::Isl(e.message@)),
                    Ok(Some(t)) => Err(about("root-to-lane map is not injective: "@, t@)),
                    Ok(None) => Ok(lanes),
                },
            }
        },
    }
}

proof fn lemma_lanes_stop(extents: Seq<Extent>, text: Seq<char>, k: nat, n: nat)
    requires
        k <= n,
        lanes_of_first(extents, text, k) is Err,
    ensures
        lanes_of_first(extents, text, n) == lanes_of_first(extents, text, k),
    decreases n,
{
    if k < n {
        lemma_lanes_stop(extents, text, k, (n - 1) as nat);
    }
}

fn find_bounds(e: &Extent, text: &str) -> (r: Result<(i64, i64)>)
    ensures
        match r {
            Ok(b) => bounds_of(*e, text@) == Ok::<(i64, i64), Failure>(b),
            Err(x) => bounds_of(*e, text@) == Err::<(i64, i64), Failure>(x@),
        },
{
    let lo: i64 = match &e.minimum {
        Err(x) => return Err(CodegenError::Isl(x.clone())),
        Ok(None) => return Err(realization("non-constant lower bound: ", text)),
        Ok(Some(n)) => *n,
    };
    match &e.maximum {
        Err(x) => Err(CodegenError::Isl(x.clone())),
        Ok(None) => Err(realization("non-constant upper bound: ", text)),
        Ok(Some(n)) => Ok((lo, *n)),
    }
}

pub open spec fn lanes_view(r: (Vec<usize>, Vec<u64>)) -> Lanes {
    Lanes { single: r.0@, shape: r.1@ }
}

/// The indices of a root that have one value only, and the extents of the others.
pub fn root_lane_map(domain: &RootDomain) -> (r: Result<(Vec<usize>, Vec<u64>)>)
    ensures
        match r {
            Ok(p) => root_lanes(*domain) == Ok::<Lanes, Failure>(lanes_view(p)),
            Err(e) => root_lanes(*domain) == Err::<Lanes, Failure>(e@),
        },
{
    match &domain.rectangular {
        Err(e) => return Err(CodegenError::Isl(e.clone())),
        Ok(yes) => if !*yes {
            return Err(realization("root domain is not rectangular: ", domain.text.as_str()));
        },
    }
    let extents = &domain.extents;
    let ghost text = domain.text@;
    let mut single: Vec<usize> = Vec::new();
    let mut shape: Vec<u64> = Vec::new();
    let mut i: usize = 0;
    proof {
        assert(lanes_view((single, shape)).single =~= Seq::<usize>::empty());
        assert(lanes_view((single, shape)).shape =~= Seq::<u64>::empty());
    }
    while i < extents.len()
        invariant
            i <= extents@.len(),
            domain.rectangular matches Ok(b) && b,
            extents@ == domain.extents@,
            text == domain.text@,
            lanes_of_first(extents@, text, i as nat) == Ok::<Lanes, Failure>(
                lanes_view((single, shape)),
            ),
        decreases extents@.len() - i,
    {
        match find_bounds(&extents[i], domain.text.as_str()) {
            Err(e) => {
                proof {
                    lemma_lanes_stop(extents@, text, (i + 1) as nat, extents@.len());
                }
                return Err(e);
            },
            Ok((lo, hi)) => {
                if lo == hi {
                    single.push(i);
                } else {
                    if lo != 0 || hi < 0 {
                        proof {
                            lemma_lanes_stop(extents@, text, (i + 1) as nat, extents@.len());
                        }
                        return Err(
                            realization("root domain is not zero-based: ", domain.text.as_str()),
                        );
                    }
                    shape.push(hi as u64 + 1);
                    proof {
                        assert((hi + 1) as u64 == hi as u64 + 1);
                    }
                }
            },
        }
        i += 1;
    }
    match &domain.not_injective {
        Err(e) => Err(CodegenError::Isl(e.clone())),
        Ok(Some(t)) => Err(realization("root-to-lane map is not injective: ", t.as_str())),
        Ok(None) => Ok((single, shape)),
    }
}

/// The product of the extents, where it and every step to it fits.
pub open spec fn lane_count(shape: Seq<u64>) -> Option<u64>
    decreases shape.len(),
{
    if shape.len() == 0 {
        Some(1)
    } else {
        match lane_count(shape.drop_last()) {
            None => None,
            Some(n) => if n * shape.last() <= u64::MAX {
                Some((n * shape.last()) as u64)
            } else {
                None
            },
        }
    }
}

pub open spec fn product(shape: Seq<u64>) -> int
    decreases shape.len(),
{
    if shape.len() == 0 {
        1
    } else {
        product(shape.drop_last()) * shape.last()
    }
}

proof fn lemma_count_stops(shape: Seq<u64>, k: int)
    requires
        0 <= k <= shape.len(),
        lane_count(shape.take(k)) is None,
    ensures
        lane_count(shape) is None,
    decreases shape.len(),
{
    if k < shape.len() {
        assert(shape.drop_last().take(k) =~= shape.take(k));
        lemma_count_stops(shape.drop_last(), k);
    } else {
        assert(shape.take(k) =~= shape);
    }
}

/// The number of lanes of a shape.
pub fn count_lanes(shape: &Vec<u64>) -> (r: Option<u64>)
    ensures
        r == lane_count(shape@),
{
    let mut n: u64 = 1;
    let mut i: usize = 0;
    while i < shape.len()
        invariant
            i <= shape@.len(),
            lane_count(shape@.take(i as int)) == Some(n),
        decreases shape@.len() - i,
    {
        proof {
            let t = shape@.take(i + 1);
            assert(t.drop_last() =~= shape@.take(i as int));
            assert(t.last() == shape@[i as int]);
        }
        match n.checked_mul(shape[i]) {
            Some(m) => {
                n = m;
            },
            None => {
                proof {
                    lemma_count_stops(shape@, i + 1);
                }
                return None;
            },
        }
        i += 1;
    }
    proof {
        assert(shape@.take(shape@.len() as int) =~= shape@);
    }
    Some(n)
}

/// A group has as many lanes as its shape has points.
pub proof fn the_size_of_a_group_is_the_product_of_its_extents(shape: Seq<u64>)
    ensures
        lane_count(shape) matches Some(n) ==> n == product(shape),
        (forall|i: int| 0 <= i < shape.len() ==> #[trigger] shape[i] > 0) ==> (lane_count(
            shape,
        ) is Some <==> product(shape) <= u64::MAX) && product(shape) > 0,
    decreases shape.len(),
{
    if shape.len() > 0 {
        let before = shape.drop_last();
        the_size_of_a_group_is_the_product_of_its_extents(before);
        if forall|i: int| 0 <= i < shape.len() ==> #[trigger] shape[i] > 0 {
            assert forall|i: int| 0 <= i < before.len() implies #[trigger] before[i] > 0 by {
                assert(before[i] == shape[i]);
            }
            let a = product(before);
            let b = shape.last() as int;
            assert(b > 0);
            assert(a * b >= a && a * b > 0) by (nonlinear_arith)
                requires
                    a > 0,
                    b > 0,
            ;
        }
    }
}

/// An edge of the flow: what a statement takes in at one variable goes on in another.
#[derive(Debug)]
pub struct FlowEdge {
    pub statement: String,
    pub input: String,
    pub output: String,
}

/// What came out along one edge.
#[derive(Debug)]
pub struct EdgeAnswer {
    /// Whether the relation along it is exact. Along an edge that stays on one variable, it is
    /// followed any number of times.
    pub exact: Answer,
    /// Whether it disagrees with the lanes that its output has already.
    pub conflict: Answer,
    /// Whether, taken together, every point has one lane.
    pub single_lane: Answer,
    /// Whether it adds to the lanes that its output has already.
    pub grows: Answer,
}

/// Following a group along the flow: the variables that it has reached, each with its map to the
/// lanes, the edge to look at next, and whether anything was added in this round.
pub struct Propagation {
    pub reached: Vec<String>,
    pub maps: Vec<Relation>,
    pub next: usize,
    pub changed: bool,
}

/// The first edge from place `k` on that starts at a variable that was reached.
pub open spec fn next_edge(edges: Seq<FlowEdge>, reached: Seq<Seq<char>>, k: int) -> int
    decreases edges.len() - k,
{
    if k < 0 || k >= edges.len() {
        edges.len() as int
    } else if reached.contains(edges[k].input@) {
        k
    } else {
        next_edge(edges, reached, k + 1)
    }
}

proof fn lemma_next_edge(edges: Seq<FlowEdge>, reached: Seq<Seq<char>>, k: int)
    requires
        0 <= k <= edges.len(),
    ensures
        k <= next_edge(edges, reached, k) <= edges.len(),
    decreases edges.len() - k,
{
    if k < edges.len() && !reached.contains(edges[k].input@) {
        lemma_next_edge(edges, reached, k + 1);
    }
}

/// What is reached along the edge is reached.
pub open spec fn followed(e: FlowEdge, reached: Seq<Seq<char>>) -> bool {
    reached.contains(e.input@) ==> reached.contains(e.output@)
}

pub open spec fn edge_outcome(e: FlowEdge, reached: Seq<Seq<char>>, a: EdgeAnswer) ->
    core::result::Result<bool, Failure> {
    let known = reached.contains(e.output@);
    match a.exact {
        Err(x) => Err(Failure::Isl(x.message@)),
        Ok(exact) => if e.input@ == e.output@ && !exact {
            Err(
                Failure::Realization(
                    "continuity closure for '"@ + e.statement@ + "' is not exact"@,
                ),
            )
        } else {
            match a.conflict {
                Err(x) if known => Err(Failure::Isl(x.message@)),
                Ok(conflict) if known && conflict => Err(
                    Failure::Realization(
                        "continuity join for '"@ + e.output@ + "' assigns conflicting lanes"@,
                    ),
                ),
                _ => match a.single_lane {
                    Err(x) => Err(Failure::Isl(x.message@)),
                    Ok(single) => if !single {
                        Err(
                            Failure::Realization(
                                "resource '"@ + e.output@
                                    + "' maps one logical point to multiple lanes"@,
                            ),
                        )
                    } else if !known {
                        Ok(true)
                    } else {
                        match a.grows {
                            Err(x) => Err(Failure::Isl(x.message@)),
                            Ok(grows) => Ok(grows),
                        }
                    },
                },
            }
        },
    }
}

/// The place of a name.
pub open spec fn name_place(names: Seq<Seq<char>>, name: Seq<char>, k: int) -> int
    decreases names.len() - k,
{
    if k < 0 || k >= names.len() || names[k] == name {
        k
    } else {
        name_place(names, name, k + 1)
    }
}

fn find_place(names: &Vec<String>, name: &str) -> (r: usize)
    ensures
        r == name_place(views(names@), name@, 0),
        views(names@).contains(name@) ==> r < names@.len() && views(names@)[r as int] == name@,
{
    let mut i: usize = 0;
    while i < names.len()
        invariant
            i <= names@.len(),
            name_place(views(names@), name@, 0) == name_place(views(names@), name@, i as int),
            forall|j: int| 0 <= j < i ==> #[trigger] views(names@)[j] != name@,
        decreases names@.len() - i,
    {
        proof {
            assert(views(names@)[i as int] == names@[i as int]@);
        }
        if str_eq(names[i].as_str(), name) {
            return i;
        }
        i += 1;
    }
    i
}

/// The map to the lanes that comes out along an edge: back along what the edge hands on, and from
/// there to the lanes. An edge that stays on one variable is followed any number of times.
pub open spec fn handed_on(e: FlowEdge, place: usize, input: RelationModel) -> RelationModel {
    let own = RelationModel::Edge(place);
    let step = if e.input@ == e.output@ {
        RelationModel::Closure(Box::new(own))
    } else {
        own
    };
    composed(RelationModel::Reverse(Box::new(step)), input)
}

/// The map to the lanes of the edge's output, with what comes out along the edge.
pub open spec fn candidate_of(
    e: FlowEdge,
    place: usize,
    reached: Seq<Seq<char>>,
    maps: Seq<RelationModel>,
) -> RelationModel {
    let more = handed_on(e, place, maps[name_place(reached, e.input@, 0)]);
    if reached.contains(e.output@) {
        RelationModel::Union(
            Box::new(maps[name_place(reached, e.output@, 0)]),
            Box::new(more),
        )
    } else {
        more
    }
}

/// The maps after an edge was followed, where `grows` tells whether it added anything.
pub open spec fn maps_after(
    e: FlowEdge,
    place: usize,
    reached: Seq<Seq<char>>,
    maps: Seq<RelationModel>,
    grows: bool,
) -> Seq<RelationModel> {
    if !grows {
        maps
    } else if reached.contains(e.output@) {
        maps.update(name_place(reached, e.output@, 0), candidate_of(e, place, reached, maps))
    } else {
        maps.push(candidate_of(e, place, reached, maps))
    }
}

/// The points that have a lane by both maps.
pub open spec fn with_both(a: RelationModel, b: RelationModel) -> RegionModel {
    RegionModel::Both(
        Box::new(RegionModel::Domain(Box::new(a))),
        Box::new(RegionModel::Domain(Box::new(b))),
    )
}

/// A map, kept to the points of a region.
pub open spec fn kept_to(a: RelationModel, region: RegionModel) -> RelationModel {
    RelationModel::Within(Box::new(a), Box::new(region))
}

/// The map of the edge's output so far, and what comes out along the edge, each kept to the points
/// that both have.
pub open spec fn joined_of(
    e: FlowEdge,
    place: usize,
    reached: Seq<Seq<char>>,
    maps: Seq<RelationModel>,
) -> Option<(RelationModel, RelationModel)> {
    let before = maps[name_place(reached, e.output@, 0)];
    let more = handed_on(e, place, maps[name_place(reached, e.input@, 0)]);
    if reached.contains(e.output@) {
        Some((kept_to(before, with_both(before, more)), kept_to(more, with_both(before, more))))
    } else {
        None
    }
}

/// How far a group was followed: the variables that it has reached with their maps, the edge to
/// look at next, and whether anything was added in this round.
pub struct FlowModel {
    pub reached: Seq<Seq<char>>,
    pub maps: Seq<RelationModel>,
    pub next: int,
    pub changed: bool,
}

/// The edge to follow next, and whether that starts another round.
pub open spec fn upcoming(edges: Seq<FlowEdge>, f: FlowModel) -> Option<(int, bool)> {
    let here = next_edge(edges, f.reached, f.next);
    let again = next_edge(edges, f.reached, 0);
    if here < edges.len() {
        Some((here, false))
    } else if f.changed && again < edges.len() {
        Some((again, true))
    } else {
        None
    }
}

/// How far the group is after it followed the edge at a place, where `grows` tells whether that
/// added anything.
pub open spec fn after_edge(
    edges: Seq<FlowEdge>,
    f: FlowModel,
    place: int,
    again: bool,
    grows: bool,
) -> FlowModel {
    let output = edges[place].output@;
    FlowModel {
        reached: if grows && !f.reached.contains(output) {
            f.reached.push(output)
        } else {
            f.reached
        },
        maps: maps_after(edges[place], place as usize, f.reached, f.maps, grows),
        next: place + 1,
        changed: (f.changed && !again) || grows,
    }
}

/// What following a group comes to.
pub enum Walk {
    /// There is an edge left to follow, and no answer for it.
    Open,
    Failed(Failure),
    Done(Seq<Seq<char>>, Seq<RelationModel>),
}

/// Follows a group with the answers from place `k` on.
pub open spec fn walk(
    edges: Seq<FlowEdge>,
    f: FlowModel,
    answers: Seq<EdgeAnswer>,
    k: int,
) -> Walk
    decreases answers.len() - k,
{
    match upcoming(edges, f) {
        None => Walk::Done(f.reached, f.maps),
        Some((place, again)) => if k < 0 || k >= answers.len() {
            Walk::Open
        } else {
            match edge_outcome(edges[place], f.reached, answers[k]) {
                Err(x) => Walk::Failed(x),
                Ok(grows) => walk(edges, after_edge(edges, f, place, again, grows), answers, k + 1),
            }
        },
    }
}

/// A group that has reached its root, by the given lanes.
pub open spec fn at_root(root: Seq<char>, lanes: RelationModel) -> FlowModel {
    FlowModel { reached: seq![root], maps: seq![lanes], next: 0, changed: false }
}

/// The group that starts at a root, followed to the end.
pub open spec fn group_walk(
    root: Seq<char>,
    lanes: RelationModel,
    edges: Seq<FlowEdge>,
    answers: Seq<EdgeAnswer>,
) -> Walk {
    walk(edges, at_root(root, lanes), answers, 0)
}

impl Propagation {
    pub open spec fn model(&self) -> FlowModel {
        FlowModel {
            reached: views(self.reached@),
            maps: relation_models(self.maps@),
            next: self.next as int,
            changed: self.changed,
        }
    }

    /// What the edge at hand would make the map of its output.
    pub fn candidate(&self, edges: &Vec<FlowEdge>) -> (r: Relation)
        requires
            self.wf(edges@),
            self.next < edges@.len(),
            views(self.reached@).contains(edges@[self.next as int].input@),
        ensures
            r@ == candidate_of(
                edges@[self.next as int],
                self.next,
                views(self.reached@),
                relation_models(self.maps@),
            ),
    {
        let e = &edges[self.next];
        let from = find_place(&self.reached, e.input.as_str());
        proof {
            assert(views(self.reached@).len() == self.reached@.len());
            assert(relation_models(self.maps@)[from as int] == self.maps@[from as int]@);
        }
        let own = Relation::Edge(self.next);
        let step = if str_eq(e.input.as_str(), e.output.as_str()) {
            repeatedly(own)
        } else {
            own
        };
        let more = compose(reverse(step), self.maps[from].clone());
        if has_name(&self.reached, e.output.as_str()) {
            let to = find_place(&self.reached, e.output.as_str());
            proof {
                assert(relation_models(self.maps@)[to as int] == self.maps@[to as int]@);
            }
            union(self.maps[to].clone(), more)
        } else {
            more
        }
    }

    /// What the edge at hand and the map of its output so far make of the points that both have:
    /// the two must be the same. There is nothing to compare where the output was not reached.
    pub fn joined(&self, edges: &Vec<FlowEdge>) -> (r: Option<(Relation, Relation)>)
        requires
            self.wf(edges@),
            self.next < edges@.len(),
            views(self.reached@).contains(edges@[self.next as int].input@),
        ensures
            joined_of(
                edges@[self.next as int],
                self.next,
                views(self.reached@),
                relation_models(self.maps@),
            ) == match r {
                Some((a, b)) => Some((a@, b@)),
                None => None,
            },
    {
        let e = &edges[self.next];
        if !has_name(&self.reached, e.output.as_str()) {
            return None;
        }
        let from = find_place(&self.reached, e.input.as_str());
        let to = find_place(&self.reached, e.output.as_str());
        proof {
            assert(views(self.reached@).len() == self.reached@.len());
            assert(relation_models(self.maps@)[from as int] == self.maps@[from as int]@);
            assert(relation_models(self.maps@)[to as int] == self.maps@[to as int]@);
        }
        let own = Relation::Edge(self.next);
        let step = if str_eq(e.input.as_str(), e.output.as_str()) {
            repeatedly(own)
        } else {
            own
        };
        let more = compose(reverse(step), self.maps[from].clone());
        let before = self.maps[to].clone();
        let left = in_both(domain_of(before.clone()), domain_of(more.clone()));
        let right = in_both(domain_of(before.clone()), domain_of(more.clone()));
        Some((within(before, left), within(more, right)))
    }

    /// As long as nothing was added in this round, every edge looked at was followed.
    pub open spec fn wf(&self, edges: Seq<FlowEdge>) -> bool {
        &&& self.next <= edges.len()
        &&& self.maps@.len() == self.reached@.len()
        &&& !self.changed ==> forall|i: int|
            0 <= i < self.next ==> followed(#[trigger] edges[i], views(self.reached@))
    }

    /// A group that has reached its root, whose points are its lanes.
    pub fn start(root: &str, lanes: Relation, edges: &Vec<FlowEdge>) -> (r: Propagation)
        ensures
            r.wf(edges@),
            views(r.reached@) == seq![root@],
            relation_models(r.maps@) == seq![lanes@],
            r.next == 0,
            !r.changed,
    {
        let mut reached: Vec<String> = Vec::new();
        reached.push(root.to_owned());
        proof {
            assert(views(reached@) =~= seq![root@]);
        }
        let mut maps: Vec<Relation> = Vec::new();
        let ghost model = lanes@;
        maps.push(lanes);
        proof {
            assert(relation_models(maps@) =~= seq![model]);
        }
        Propagation { reached, maps, next: 0, changed: false }
    }

    /// Goes to the next edge to look at, in another round where the last one added anything.
    /// Without one, every edge was followed.
    pub fn next(&mut self, edges: &Vec<FlowEdge>) -> (r: Option<usize>)
        requires
            old(self).wf(edges@),
        ensures
            final(self).wf(edges@),
            final(self).reached == old(self).reached,
            final(self).maps == old(self).maps,
            ({
                let reached = views(old(self).reached@);
                let here = next_edge(edges@, reached, old(self).next as int);
                let again = next_edge(edges@, reached, 0);
                if here < edges@.len() {
                    &&& r == Some(here as usize)
                    &&& final(self).changed == old(self).changed
                } else if old(self).changed && again < edges@.len() {
                    &&& r == Some(again as usize)
                    &&& !final(self).changed
                } else {
                    r is None
                }
            }),
            r matches Some(i) ==> final(self).next == i && i < edges@.len() && views(
                final(self).reached@,
            ).contains(edges@[i as int].input@),
            r is None ==> forall|i: int|
                0 <= i < edges@.len() ==> followed(#[trigger] edges@[i], views(
                    final(self).reached@,
                )),
    {
        let ghost reached = views(self.reached@);
        let ghost start = self.next as int;
        let ghost changed = self.changed;
        proof {
            assert forall|i: int| 0 <= i < edges@.len() && !reached.contains(
                edges@[i].input@,
            ) implies followed(#[trigger] edges@[i], reached) by {}
        }
        while self.next < edges.len()
            invariant
                self.wf(edges@),
                self.reached == old(self).reached,
                self.maps == old(self).maps,
                reached == views(self.reached@),
                self.changed == changed,
                start == old(self).next,
                changed == old(self).changed,
                next_edge(edges@, reached, start) == next_edge(edges@, reached, self.next as int),
            decreases edges@.len() - self.next,
        {
            if has_name(&self.reached, edges[self.next].input.as_str()) {
                return Some(self.next);
            }
            self.next = self.next + 1;
        }
        if !self.changed {
            return None;
        }
        self.changed = false;
        self.next = 0;
        while self.next < edges.len()
            invariant
                self.wf(edges@),
                self.reached == old(self).reached,
                self.maps == old(self).maps,
                reached == views(self.reached@),
                !self.changed,
                changed,
                start == old(self).next,
                changed == old(self).changed,
                next_edge(edges@, reached, start) == edges@.len(),
                next_edge(edges@, reached, 0) == next_edge(edges@, reached, self.next as int),
            decreases edges@.len() - self.next,
        {
            if has_name(&self.reached, edges[self.next].input.as_str()) {
                return Some(self.next);
            }
            self.next = self.next + 1;
        }
        None
    }

    /// Takes the answer for the edge at hand and goes past it. Where the result is yes, the map of
    /// its output is what the edge makes of it.
    pub fn answer(&mut self, edges: &Vec<FlowEdge>, a: &EdgeAnswer) -> (r: Result<bool>)
        requires
            old(self).wf(edges@),
            old(self).next < edges@.len(),
            views(old(self).reached@).contains(edges@[old(self).next as int].input@),
        ensures
            match r {
                Ok(b) => edge_outcome(
                    edges@[old(self).next as int],
                    views(old(self).reached@),
                    *a,
                ) == Ok::<bool, Failure>(b),
                Err(e) => edge_outcome(
                    edges@[old(self).next as int],
                    views(old(self).reached@),
                    *a,
                ) == Err::<bool, Failure>(e@),
            },
            r is Err ==> *final(self) == *old(self),
            r matches Ok(b) ==> {
                let output = edges@[old(self).next as int].output@;
                &&& final(self).wf(edges@)
                &&& final(self).next == old(self).next + 1
                &&& final(self).changed == (old(self).changed || b)
                &&& views(final(self).reached@) == if b && !views(old(self).reached@).contains(
                    output,
                ) {
                    views(old(self).reached@).push(output)
                } else {
                    views(old(self).reached@)
                }
                &&& relation_models(final(self).maps@) == maps_after(
                    edges@[old(self).next as int],
                    old(self).next,
                    views(old(self).reached@),
                    relation_models(old(self).maps@),
                    b,
                )
            },
    {
        let total: usize = edges.len();
        let past: usize = self.next + 1;
        proof {
            assert(past <= total);
        }
        let e = &edges[self.next];
        match &a.exact {
            Err(x) => return Err(CodegenError::Isl(x.clone())),
            Ok(exact) => if str_eq(e.input.as_str(), e.output.as_str()) && !*exact {
                return Err(
                    CodegenError::Realization(
                        cat3("continuity closure for '", e.statement.as_str(), "' is not exact"),
                    ),
                );
            },
        }
        let known = has_name(&self.reached, e.output.as_str());
        if known {
            match &a.conflict {
                Err(x) => return Err(CodegenError::Isl(x.clone())),
                Ok(conflict) => if *conflict {
                    return Err(
                        CodegenError::Realization(
                            cat3(
                                "continuity join for '",
                                e.output.as_str(),
                                "' assigns conflicting lanes",
                            ),
                        ),
                    );
                },
            }
        }
        match &a.single_lane {
            Err(x) => return Err(CodegenError::Isl(x.clone())),
            Ok(single) => if !*single {
                return Err(
                    CodegenError::Realization(
                        cat3(
                            "resource '",
                            e.output.as_str(),
                            "' maps one logical point to multiple lanes",
                        ),
                    ),
                );
            },
        }
        let grows = if known {
            match &a.grows {
                Err(x) => return Err(CodegenError::Isl(x.clone())),
                Ok(b) => *b,
            }
        } else {
            true
        };
        if grows {
            let ghost before = relation_models(self.maps@);
            let map = self.candidate(edges);
            let ghost model = map@;
            if known {
                let to = find_place(&self.reached, e.output.as_str());
                proof {
                    assert(views(self.reached@).len() == self.reached@.len());
                }
                self.maps.set(to, map);
                proof {
                    assert(relation_models(self.maps@) =~= before.update(to as int, model));
                }
            } else {
                self.maps.push(map);
                proof {
                    assert(relation_models(self.maps@) =~= before.push(model));
                    assert(views(self.reached@).len() == self.reached@.len());
                }
                push_text(&mut self.reached, e.output.clone());
                proof {
                    assert(views(self.reached@).len() == self.reached@.len());
                }
            }
            self.changed = true;
        }
        self.next = past;
        Ok(grows)
    }
}

/// Where resources come into being.
#[derive(Debug, Clone, Copy, PartialEq, Eq, Structural)]
pub enum RootKind {
    SystemInput,
    OperationOutput,
}

/// Where resources go.
#[derive(Debug, Clone, Copy, PartialEq, Eq, Structural)]
pub enum SinkKind {
    SystemOutput,
    OperationInput,
}

/// A place where resources go: the variable that they leave from.
#[derive(Debug)]
pub struct FlowSink {
    pub variable: String,
    pub kind: SinkKind,
}

/// What is known of one root and of the group that starts at it.
#[derive(Debug)]
pub struct RootFacts {
    pub variable: String,
    pub kind: RootKind,
    pub domain: core::result::Result<RootDomain, IslError>,
    /// What came out along the edges, in the order in which they are followed.
    pub steps: Vec<EdgeAnswer>,
    /// For each variable that the group reaches, whether it shares a point with an earlier group.
    pub overlaps: Vec<Answer>,
    /// For each sink whose variable the group reaches, whether the group shares no point with it.
    pub sinks: Vec<Answer>,
}

/// A variable and the group whose lanes it uses, together with its map to them.
#[derive(Debug)]
pub struct LogicalLaneMap {
    pub variable: String,
    pub group: ResourceGroupId,
    pub relation: Relation,
}

/// A [`LogicalLaneMap`] as a mathematical value.
pub struct LaneModel {
    pub variable: Seq<char>,
    pub group: ResourceGroupId,
    pub relation: RelationModel,
}

impl View for LogicalLaneMap {
    type V = LaneModel;

    open spec fn view(&self) -> LaneModel {
        LaneModel {
            variable: self.variable@,
            group: self.group,
            relation: self.relation@,
        }
    }
}

pub open spec fn lane_models(v: Seq<LogicalLaneMap>) -> Seq<LaneModel> {
    Seq::new(v.len(), |i: int| v[i]@)
}

pub open spec fn entry_of(kind: RootKind) -> EntryOccupancy {
    match kind {
        RootKind::SystemInput => EntryOccupancy::Occupied,
        RootKind::OperationOutput => EntryOccupancy::Empty,
    }
}

pub open spec fn exit_at(kind: SinkKind) -> ExitOccupancy {
    match kind {
        SinkKind::SystemOutput => ExitOccupancy::Occupied,
        SinkKind::OperationInput => ExitOccupancy::Empty,
    }
}

pub type ExitOutcome = core::result::Result<Option<ExitOccupancy>, Failure>;

/// How a group that reaches some variables leaves at the first `n` sinks, which have to agree. A
/// sink of another variable does not count.
pub open spec fn exit_of_first(
    sinks: Seq<FlowSink>,
    reached: Seq<Seq<char>>,
    answers: Seq<Answer>,
    n: nat,
) -> ExitOutcome
    decreases n,
{
    if n == 0 {
        Ok(None)
    } else {
        match exit_of_first(sinks, reached, answers, (n - 1) as nat) {
            Err(f) => Err(f),
            Ok(before) => if !reached.contains(sinks[n - 1].variable@) {
                Ok(before)
            } else {
                match answers[n - 1] {
                    Err(e) => Err(Failure::Isl(e.message@)),
                    Ok(disjoint) => if disjoint {
                        Ok(before)
                    } else if before is Some && before != Some(exit_at(sinks[n - 1].kind)) {
                        Err(Failure::Realization("trajectory has mixed sink occupancy"@))
                    } else {
                        Ok(Some(exit_at(sinks[n - 1].kind)))
                    },
                }
            },
        }
    }
}

proof fn lemma_exit_stops(
    sinks: Seq<FlowSink>,
    reached: Seq<Seq<char>>,
    answers: Seq<Answer>,
    k: nat,
    n: nat,
)
    requires
        k <= n,
        exit_of_first(sinks, reached, answers, k) is Err,
    ensures
        exit_of_first(sinks, reached, answers, n) == exit_of_first(sinks, reached, answers, k),
    decreases n,
{
    if k < n {
        lemma_exit_stops(sinks, reached, answers, k, (n - 1) as nat);
    }
}

/// How the group that starts at a root leaves.
pub open spec fn exit_of(
    root: Seq<char>,
    sinks: Seq<FlowSink>,
    reached: Seq<Seq<char>>,
    answers: Seq<Answer>,
) -> core::result::Result<ExitOccupancy, Failure> {
    match exit_of_first(sinks, reached, answers, sinks.len()) {
        Err(f) => Err(f),
        Ok(None) => Err(
            Failure::Realization("trajectory rooted at '"@ + root + "' has no sink"@),
        ),
        Ok(Some(exit)) => Ok(exit),
    }
}

/// How the group that starts at a root leaves.
pub fn find_exit(
    root: &str,
    sinks: &Vec<FlowSink>,
    reached: &Vec<String>,
    answers: &Vec<Answer>,
) -> (r: Result<ExitOccupancy>)
    requires
        answers@.len() == sinks@.len(),
    ensures
        match r {
            Ok(x) => exit_of(root@, sinks@, views(reached@), answers@) == Ok::<
                ExitOccupancy,
                Failure,
            >(x),
            Err(e) => exit_of(root@, sinks@, views(reached@), answers@) == Err::<
                ExitOccupancy,
                Failure,
            >(e@),
        },
{
    let ghost names = views(reached@);
    let mut exit: Option<ExitOccupancy> = None;
    let mut i: usize = 0;
    while i < sinks.len()
        invariant
            i <= sinks@.len(),
            names == views(reached@),
            answers@.len() == sinks@.len(),
            exit_of_first(sinks@, names, answers@, i as nat) == Ok::<
                Option<ExitOccupancy>,
                Failure,
            >(exit),
        decreases sinks@.len() - i,
    {
        if has_name(reached, sinks[i].variable.as_str()) {
            match &answers[i] {
                Err(e) => {
                    proof {
                        lemma_exit_stops(sinks@, names, answers@, (i + 1) as nat, sinks@.len());
                    }
                    return Err(CodegenError::Isl(e.clone()));
                },
                Ok(disjoint) => if !*disjoint {
                    let here = match sinks[i].kind {
                        SinkKind::SystemOutput => ExitOccupancy::Occupied,
                        SinkKind::OperationInput => ExitOccupancy::Empty,
                    };
                    match exit {
                        Some(other) => if other != here {
                            proof {
                                lemma_exit_stops(
                                    sinks@,
                                    names,
                                    answers@,
                                    (i + 1) as nat,
                                    sinks@.len(),
                                );
                            }
                            return Err(
                                CodegenError::Realization(
                                    "trajectory has mixed sink occupancy".to_owned(),
                                ),
                            );
                        },
                        None => {},
                    }
                    exit = Some(here);
                },
            }
        }
        i += 1;
    }
    match exit {
        Some(x) => Ok(x),
        None => Err(
            CodegenError::Realization(cat3("trajectory rooted at '", root, "' has no sink")),
        ),
    }
}

/// The points of a group that a sink takes.
pub open spec fn sink_points(map: RelationModel, place: usize) -> RegionModel {
    with_both(map, RelationModel::Sink(place))
}

/// The points that the sink at a place takes of a group with the given map.
pub fn taken_by_sink(map: &Relation, place: usize) -> (r: Region)
    ensures
        r@ == sink_points(map@, place),
{
    in_both(domain_of(map.clone()), domain_of(Relation::Sink(place)))
}

/// Some lane map is for the variable.
pub open spec fn has_lanes(lanes: Seq<LaneModel>, variable: Seq<char>) -> bool {
    exists|i: int| 0 <= i < lanes.len() && (#[trigger] lanes[i]).variable == variable
}

fn is_covered(lanes: &Vec<LogicalLaneMap>, variable: &str) -> (r: bool)
    ensures
        r == has_lanes(lane_models(lanes@), variable@),
{
    let mut i: usize = 0;
    while i < lanes.len()
        invariant
            i <= lanes@.len(),
            forall|j: int|
                0 <= j < i ==> (#[trigger] lane_models(lanes@)[j]).variable != variable@,
        decreases lanes@.len() - i,
    {
        if str_eq(lanes[i].variable.as_str(), variable) {
            proof {
                assert(lane_models(lanes@)[i as int].variable == variable@);
            }
            return true;
        }
        i += 1;
    }
    false
}

pub type CoverOutcome = core::result::Result<Seq<LaneModel>, Failure>;

/// The lane maps with those of the first `n` variables that a group reaches. Two groups must not
/// share a point of a variable.
pub open spec fn cover_first(
    lanes: Seq<LaneModel>,
    reached: Seq<Seq<char>>,
    maps: Seq<RelationModel>,
    overlaps: Seq<Answer>,
    group: ResourceGroupId,
    n: nat,
) -> CoverOutcome
    decreases n,
{
    if n == 0 {
        Ok(lanes)
    } else {
        match cover_first(lanes, reached, maps, overlaps, group, (n - 1) as nat) {
            Err(f) => Err(f),
            Ok(before) => {
                let variable = reached[n - 1];
                let added = before.push(LaneModel { variable, group, relation: maps[n - 1] });
                if has_lanes(before, variable) {
                    match overlaps[n - 1] {
                        Err(e) => Err(Failure::Isl(e.message@)),
                        Ok(overlaps) => if overlaps {
                            Err(
                                Failure::Realization(
                                    "multiple trajectories cover resource '"@ + variable + "'"@,
                                ),
                            )
                        } else {
                            Ok(added)
                        },
                    }
                } else {
                    Ok(added)
                }
            },
        }
    }
}

proof fn lemma_cover_stops(
    lanes: Seq<LaneModel>,
    reached: Seq<Seq<char>>,
    maps: Seq<RelationModel>,
    overlaps: Seq<Answer>,
    group: ResourceGroupId,
    k: nat,
    n: nat,
)
    requires
        k <= n,
        cover_first(lanes, reached, maps, overlaps, group, k) is Err,
    ensures
        cover_first(lanes, reached, maps, overlaps, group, n) == cover_first(
            lanes,
            reached,
            maps,
            overlaps,
            group,
            k,
        ),
    decreases n,
{
    if k < n {
        lemma_cover_stops(lanes, reached, maps, overlaps, group, k, (n - 1) as nat);
    }
}

fn cover(
    lanes: &mut Vec<LogicalLaneMap>,
    p: &Propagation,
    overlaps: &Vec<Answer>,
    group: ResourceGroupId,
) -> (r: Result<()>)
    requires
        p.maps@.len() == p.reached@.len(),
        overlaps@.len() == p.reached@.len(),
    ensures
        match r {
            Ok(()) => cover_first(
                lane_models(old(lanes)@),
                views(p.reached@),
                relation_models(p.maps@),
                overlaps@,
                group,
                p.reached@.len(),
            ) == Ok::<Seq<LaneModel>, Failure>(lane_models(final(lanes)@)),
            Err(e) => cover_first(
                lane_models(old(lanes)@),
                views(p.reached@),
                relation_models(p.maps@),
                overlaps@,
                group,
                p.reached@.len(),
            ) == Err::<Seq<LaneModel>, Failure>(e@),
        },
{
    let ghost start = lane_models(lanes@);
    let ghost names = views(p.reached@);
    let ghost maps = relation_models(p.maps@);
    let total: usize = p.reached.len();
    let mut i: usize = 0;
    while i < total
        invariant
            i <= total,
            total == p.reached@.len(),
            p.maps@.len() == p.reached@.len(),
            overlaps@.len() == p.reached@.len(),
            names == views(p.reached@),
            maps == relation_models(p.maps@),
            start == lane_models(old(lanes)@),
            cover_first(start, names, maps, overlaps@, group, i as nat) == Ok::<
                Seq<LaneModel>,
                Failure,
            >(lane_models(lanes@)),
        decreases total - i,
    {
        let ghost before = lane_models(lanes@);
        proof {
            assert(names[i as int] == p.reached@[i as int]@);
            assert(maps[i as int] == p.maps@[i as int]@);
        }
        if is_covered(lanes, p.reached[i].as_str()) {
            match &overlaps[i] {
                Err(e) => {
                    proof {
                        lemma_cover_stops(
                            start,
                            names,
                            maps,
                            overlaps@,
                            group,
                            (i + 1) as nat,
                            total as nat,
                        );
                    }
                    return Err(CodegenError::Isl(e.clone()));
                },
                Ok(yes) => if *yes {
                    proof {
                        lemma_cover_stops(
                            start,
                            names,
                            maps,
                            overlaps@,
                            group,
                            (i + 1) as nat,
                            total as nat,
                        );
                    }
                    return Err(
                        CodegenError::Realization(
                            cat3(
                                "multiple trajectories cover resource '",
                                p.reached[i].as_str(),
                                "'",
                            ),
                        ),
                    );
                },
            }
        }
        lanes.push(
            LogicalLaneMap {
                variable: p.reached[i].clone(),
                group,
                relation: p.maps[i].clone(),
            },
        );
        proof {
            assert(lane_models(lanes@) =~= before.push(
                LaneModel { variable: names[i as int], group, relation: maps[i as int] },
            ));
        }
        i += 1;
    }
    Ok(())
}

/// The points of a variable that have a lane by one of the first `n` lane maps.
pub open spec fn held_by_first(lanes: Seq<LaneModel>, variable: Seq<char>, n: nat) -> Option<
    RegionModel,
>
    decreases n,
{
    if n == 0 || n > lanes.len() {
        None
    } else {
        let before = held_by_first(lanes, variable, (n - 1) as nat);
        if lanes[n - 1].variable != variable {
            before
        } else {
            let own = RegionModel::Domain(Box::new(lanes[n - 1].relation));
            match before {
                None => Some(own),
                Some(b) => Some(RegionModel::Union(Box::new(b), Box::new(own))),
            }
        }
    }
}

pub open spec fn region_view(r: Option<Region>) -> Option<RegionModel> {
    match r {
        Some(x) => Some(x@),
        None => None,
    }
}

/// The points of a variable that have a lane by one of the lane maps.
pub fn held_points(lanes: &Vec<LogicalLaneMap>, variable: &str) -> (r: Option<Region>)
    ensures
        region_view(r) == held_by_first(lane_models(lanes@), variable@, lanes@.len()),
{
    let ghost models = lane_models(lanes@);
    let mut out: Option<Region> = None;
    let mut i: usize = 0;
    while i < lanes.len()
        invariant
            i <= lanes@.len(),
            models == lane_models(lanes@),
            region_view(out) == held_by_first(models, variable@, i as nat),
        decreases lanes@.len() - i,
    {
        proof {
            assert(models[i as int] == lanes@[i as int]@);
        }
        if str_eq(lanes[i].variable.as_str(), variable) {
            let own = domain_of(lanes[i].relation.clone());
            out = match out {
                None => Some(own),
                Some(b) => Some(in_either(b, own)),
            };
        }
        i += 1;
    }
    out
}

/// The points of a variable that a group with the given map shares with the lane maps so far.
pub open spec fn shared_points(
    lanes: Seq<LaneModel>,
    variable: Seq<char>,
    map: RelationModel,
) -> Option<RegionModel> {
    match held_by_first(lanes, variable, lanes.len()) {
        None => None,
        Some(b) => Some(
            RegionModel::Both(Box::new(b), Box::new(RegionModel::Domain(Box::new(map)))),
        ),
    }
}

/// The points of a variable that a group with the given map shares with the lane maps so far.
pub fn shared_with(lanes: &Vec<LogicalLaneMap>, variable: &str, map: &Relation) -> (r: Option<
    Region,
>)
    ensures
        region_view(r) == shared_points(lane_models(lanes@), variable@, map@),
{
    match held_points(lanes, variable) {
        None => None,
        Some(b) => Some(in_both(b, domain_of(map.clone()))),
    }
}

/// The groups so far, and the lane maps into them.
pub struct PartsModel {
    pub groups: Seq<GroupModel>,
    pub lanes: Seq<LaneModel>,
}

pub type PartsOutcome = core::result::Result<PartsModel, Failure>;

/// The points at a root, as lanes.
pub open spec fn root_map(d: RootDomain, lanes: Lanes) -> RelationModel {
    RelationModel::Lanes(d.text@, lanes.single)
}

/// How the group that starts at a root is followed, where its points become lanes.
pub open spec fn root_walk(root: RootFacts, edges: Seq<FlowEdge>) -> Option<Walk> {
    match root.domain {
        Err(_) => None,
        Ok(domain) => match root_lanes(domain) {
            Err(_) => None,
            Ok(lanes) => Some(
                group_walk(root.variable@, root_map(domain, lanes), edges, root.steps@),
            ),
        },
    }
}

/// The groups with one more, which starts at the given root.
pub open spec fn with_root(
    p: PartsModel,
    root: RootFacts,
    edges: Seq<FlowEdge>,
    sinks: Seq<FlowSink>,
) -> PartsOutcome {
    let id = ResourceGroupId(p.groups.len() as usize);
    match root.domain {
        Err(e) => Err(Failure::Isl(e.message@)),
        Ok(domain) => match root_lanes(domain) {
            Err(f) => Err(f),
            Ok(lanes) => match group_walk(
                root.variable@,
                root_map(domain, lanes),
                edges,
                root.steps@,
            ) {
                Walk::Open => Ok(p),
                Walk::Failed(f) => Err(f),
                Walk::Done(reached, maps) => match exit_of(
                    root.variable@,
                    sinks,
                    reached,
                    root.sinks@,
                ) {
                    Err(f) => Err(f),
                    Ok(exit) => match lane_count(lanes.shape) {
                        None => Err(
                            Failure::Realization("resource group size overflows u64"@),
                        ),
                        Some(size) => match cover_first(
                            p.lanes,
                            reached,
                            maps,
                            root.overlaps@,
                            id,
                            reached.len(),
                        ) {
                            Err(f) => Err(f),
                            Ok(all) => Ok(
                                PartsModel {
                                    groups: p.groups.push(
                                        GroupModel {
                                            id,
                                            element_type: ElementType::Qubit,
                                            shape: lanes.shape,
                                            size,
                                            entry: entry_of(root.kind),
                                            exit,
                                        },
                                    ),
                                    lanes: all,
                                },
                            ),
                        },
                    },
                },
            },
        },
    }
}

/// The groups of the first `n` roots.
pub open spec fn parts_of_first(
    roots: Seq<RootFacts>,
    edges: Seq<FlowEdge>,
    sinks: Seq<FlowSink>,
    n: nat,
) -> PartsOutcome
    decreases n,
{
    if n == 0 {
        Ok(PartsModel { groups: Seq::empty(), lanes: Seq::empty() })
    } else {
        match parts_of_first(roots, edges, sinks, (n - 1) as nat) {
            Err(f) => Err(f),
            Ok(before) => with_root(before, roots[n - 1], edges, sinks),
        }
    }
}

proof fn lemma_parts_stop(
    roots: Seq<RootFacts>,
    edges: Seq<FlowEdge>,
    sinks: Seq<FlowSink>,
    k: nat,
    n: nat,
)
    requires
        k <= n,
        parts_of_first(roots, edges, sinks, k) is Err,
    ensures
        parts_of_first(roots, edges, sinks, n) == parts_of_first(roots, edges, sinks, k),
    decreases n,
{
    if k < n {
        lemma_parts_stop(roots, edges, sinks, k, (n - 1) as nat);
    }
}

/// There is an answer for every edge that the group follows, for every variable that it reaches and
/// for every sink.
pub open spec fn root_ok(root: RootFacts, edges: Seq<FlowEdge>, sinks: Seq<FlowSink>) -> bool {
    &&& root.sinks@.len() == sinks.len()
    &&& match root_walk(root, edges) {
        Some(Walk::Open) => false,
        Some(Walk::Done(reached, _)) => root.overlaps@.len() == reached.len(),
        _ => true,
    }
}

/// Follows the group that starts at a root to the end, with the answers at hand.
pub fn follow_group(
    root: &str,
    lanes: Relation,
    edges: &Vec<FlowEdge>,
    answers: &Vec<EdgeAnswer>,
) -> (r: Result<Propagation>)
    requires
        !(group_walk(root@, lanes@, edges@, answers@) is Open),
    ensures
        match r {
            Ok(p) => group_walk(root@, lanes@, edges@, answers@) == Walk::Done(
                views(p.reached@),
                relation_models(p.maps@),
            ) && p.maps@.len() == p.reached@.len(),
            Err(e) => group_walk(root@, lanes@, edges@, answers@) == Walk::Failed(e@),
        },
{
    let ghost start = lanes@;
    let ghost target = group_walk(root@, start, edges@, answers@);
    let mut p = Propagation::start(root, lanes, edges);
    let mut k: usize = 0;
    loop
        invariant
            p.wf(edges@),
            k <= answers@.len(),
            !(target is Open),
            walk(edges@, p.model(), answers@, k as int) == target,
            target == group_walk(root@, start, edges@, answers@),
            start == lanes@,
        decreases answers@.len() - k,
    {
        let ghost before = p.model();
        let total: usize = edges.len();
        match p.next(edges) {
            None => return Ok(p),
            Some(i) => {
                proof {
                    assert(edges@.len() == total);
                    lemma_next_edge(edges@, before.reached, before.next);
                    lemma_next_edge(edges@, before.reached, 0);
                    assert(upcoming(edges@, before) is Some);
                }
                let ghost again = upcoming(edges@, before)->Some_0.1;
                if k >= answers.len() {
                    proof {
                        assert(false);
                    }
                    return Ok(p);
                }
                proof {
                    assert(p.model().reached == before.reached);
                    assert(p.model().maps == before.maps);
                    assert(upcoming(edges@, before) == Some((i as int, again)));
                    assert(walk(edges@, before, answers@, k as int) == match edge_outcome(
                        edges@[i as int],
                        before.reached,
                        answers@[k as int],
                    ) {
                        Err(x) => Walk::Failed(x),
                        Ok(grows) => walk(
                            edges@,
                            after_edge(edges@, before, i as int, again, grows),
                            answers@,
                            k + 1,
                        ),
                    });
                }
                match p.answer(edges, &answers[k]) {
                    Err(e) => return Err(e),
                    Ok(grows) => {
                        proof {
                            assert(p.model() == after_edge(
                                edges@,
                                before,
                                i as int,
                                again,
                                grows,
                            ));
                        }
                    },
                }
                k += 1;
            },
        }
    }
}

/// The variables of a system, in order.
pub open spec fn all_variables(s: System) -> Seq<Variable> {
    s.inputs@ + s.outputs@ + s.locals@
}

/// The variables of a system, in order.
pub fn system_variables<'a>(system: &'a System) -> (r: Vec<&'a Variable>)
    ensures
        r@.len() == all_variables(*system).len(),
        forall|i: int| 0 <= i < r@.len() ==> *(#[trigger] r@[i]) == all_variables(*system)[i],
{
    let mut out: Vec<&'a Variable> = Vec::new();
    push_variables(&mut out, &system.inputs);
    push_variables(&mut out, &system.outputs);
    push_variables(&mut out, &system.locals);
    out
}

fn push_variables<'a>(out: &mut Vec<&'a Variable>, all: &'a Vec<Variable>)
    ensures
        final(out)@.len() == old(out)@.len() + all@.len(),
        forall|i: int| 0 <= i < old(out)@.len() ==> final(out)@[i] == #[trigger] old(out)@[i],
        forall|i: int|
            0 <= i < all@.len() ==> *final(out)@[old(out)@.len() + i] == #[trigger] all@[i],
{
    let ghost n = out@.len();
    let mut i: usize = 0;
    while i < all.len()
        invariant
            i <= all@.len(),
            n == old(out)@.len(),
            out@.len() == n + i,
            forall|j: int| 0 <= j < n ==> out@[j] == #[trigger] old(out)@[j],
            forall|j: int| 0 <= j < i ==> *out@[n + j] == #[trigger] all@[j],
        decreases all@.len() - i,
    {
        out.push(&all[i]);
        i += 1;
    }
}

/// What of a variable no group covers, if anything, as text.
pub type Uncovered = core::result::Result<Option<String>, IslError>;

pub open spec fn is_resource(v: Variable) -> bool {
    v.element_type == ElementType::Qubit && v.multiplicity == Multiplicity::Linear
}

/// The points that a variable has where the parameters are fixed to a point.
pub open spec fn points_of_variable(v: Variable, point: Seq<char>) -> RegionModel {
    RegionModel::At(Box::new(RegionModel::Read(v.domain.text@)), point)
}

/// The points that a variable has where the parameters are fixed to a point. All of them, and no
/// others, must have a lane.
pub fn expected_points(v: &Variable, point: &String) -> (r: Region)
    ensures
        r@ == points_of_variable(*v, point@),
{
    region_at(Region::Read(v.domain.text.clone()), point.clone())
}

pub open spec fn coverage_failure(
    lanes: Seq<LaneModel>,
    v: Variable,
    uncovered: Uncovered,
) -> Option<Failure> {
    if !is_resource(v) {
        None
    } else if !has_lanes(lanes, v.name@) {
        Some(Failure::Realization("resource '"@ + v.name@ + "' is unreachable"@))
    } else {
        match uncovered {
            Err(e) => Some(Failure::Isl(e.message@)),
            Ok(None) => None,
            Ok(Some(t)) => Some(
                Failure::Realization(
                    "resource '"@ + v.name@ + "' has incomplete trajectory coverage: "@ + t@,
                ),
            ),
        }
    }
}

/// The failure of the first variable from place `k` on that is not covered.
pub open spec fn first_uncovered(
    lanes: Seq<LaneModel>,
    variables: Seq<Variable>,
    uncovered: Seq<Uncovered>,
    k: int,
) -> Option<Failure>
    decreases variables.len() - k,
{
    if k < 0 || k >= variables.len() {
        None
    } else if coverage_failure(lanes, variables[k], uncovered[k]) is Some {
        coverage_failure(lanes, variables[k], uncovered[k])
    } else {
        first_uncovered(lanes, variables, uncovered, k + 1)
    }
}

fn check_coverage(
    lanes: &Vec<LogicalLaneMap>,
    system: &System,
    uncovered: &Vec<Uncovered>,
) -> (r: Result<()>)
    requires
        uncovered@.len() == all_variables(*system).len(),
    ensures
        match r {
            Ok(()) => first_uncovered(
                lane_models(lanes@),
                all_variables(*system),
                uncovered@,
                0,
            ) is None,
            Err(e) => first_uncovered(
                lane_models(lanes@),
                all_variables(*system),
                uncovered@,
                0,
            ) == Some(e@),
        },
{
    let variables = system_variables(system);
    let ghost all = all_variables(*system);
    let mut k: usize = 0;
    while k < variables.len()
        invariant
            k <= variables@.len(),
            all == all_variables(*system),
            variables@.len() == all.len(),
            uncovered@.len() == all.len(),
            forall|i: int| 0 <= i < all.len() ==> *(#[trigger] variables@[i]) == all[i],
            first_uncovered(lane_models(lanes@), all, uncovered@, 0) == first_uncovered(
                lane_models(lanes@),
                all,
                uncovered@,
                k as int,
            ),
        decreases variables@.len() - k,
    {
        let v = variables[k];
        proof {
            assert(*variables@[k as int] == all[k as int]);
        }
        if v.element_type == ElementType::Qubit && v.multiplicity == Multiplicity::Linear {
            if !is_covered(lanes, v.name.as_str()) {
                return Err(
                    CodegenError::Realization(
                        cat3("resource '", v.name.as_str(), "' is unreachable"),
                    ),
                );
            }
            match &uncovered[k] {
                Err(e) => return Err(CodegenError::Isl(e.clone())),
                Ok(None) => {},
                Ok(Some(t)) => return Err(
                    CodegenError::Realization(
                        cat4(
                            "resource '",
                            v.name.as_str(),
                            "' has incomplete trajectory coverage: ",
                            t.as_str(),
                        ),
                    ),
                ),
            }
        }
        k += 1;
    }
    Ok(())
}

/// What came out for one access of an operation and one lane map.
#[derive(Debug)]
pub enum LaneAnswer {
    Failed(IslError),
    /// The access uses no lane of the map.
    Empty,
    /// The lanes it uses are not one function of the call's indices.
    Piecewise,
    Lane,
}

/// What came out for one call of an operation.
#[derive(Debug)]
pub struct CallAnswers {
    /// The message with which the call's domain failed.
    pub failure: Option<IslError>,
    /// For each input, and each output, an answer for each lane map.
    pub inputs: Vec<Vec<LaneAnswer>>,
    pub outputs: Vec<Vec<LaneAnswer>>,
    /// For each input and each later input, whether the two use a common lane.
    pub shared: Vec<Vec<Answer>>,
}

/// The group that an access uses, and the place of the lane map by which it does.
#[derive(Debug, Clone, Copy, PartialEq, Eq, Structural)]
pub struct ResolvedAccess {
    pub group: ResourceGroupId,
    pub lane: usize,
}

#[derive(Debug)]
pub struct ResolvedOperation {
    pub statement: StatementId,
    pub inputs: Vec<ResolvedAccess>,
    pub outputs: Vec<ResolvedAccess>,
}

/// A [`ResolvedOperation`] as a mathematical value.
pub struct OperationModel {
    pub statement: StatementId,
    pub inputs: Seq<ResolvedAccess>,
    pub outputs: Seq<ResolvedAccess>,
}

impl View for ResolvedOperation {
    type V = OperationModel;

    open spec fn view(&self) -> OperationModel {
        OperationModel {
            statement: self.statement,
            inputs: self.inputs@,
            outputs: self.outputs@,
        }
    }
}

pub open spec fn operation_models(v: Seq<ResolvedOperation>) -> Seq<OperationModel> {
    Seq::new(v.len(), |i: int| v[i]@)
}

pub type AccessesOutcome = core::result::Result<Seq<ResolvedAccess>, Failure>;

/// The lane maps among the first `n` that an access uses.
pub open spec fn lanes_used(
    lanes: Seq<LaneModel>,
    operation: Seq<char>,
    variable: Seq<char>,
    answers: Seq<LaneAnswer>,
    n: nat,
) -> AccessesOutcome
    decreases n,
{
    if n == 0 {
        Ok(Seq::empty())
    } else {
        match lanes_used(lanes, operation, variable, answers, (n - 1) as nat) {
            Err(f) => Err(f),
            Ok(before) => if lanes[n - 1].variable != variable {
                Ok(before)
            } else {
                match answers[n - 1] {
                    LaneAnswer::Failed(e) => Err(Failure::Isl(e.message@)),
                    LaneAnswer::Empty => Ok(before),
                    LaneAnswer::Piecewise => Err(
                        Failure::Realization(
                            "operation '"@ + operation + "' has a piecewise lane expression"@,
                        ),
                    ),
                    LaneAnswer::Lane => Ok(
                        before.push(
                            ResolvedAccess { group: lanes[n - 1].group, lane: (n - 1) as usize },
                        ),
                    ),
                }
            },
        }
    }
}

pub type AccessOutcome = core::result::Result<Option<ResolvedAccess>, Failure>;

/// What an access uses: one lane map, or, where it is no resource, none.
pub open spec fn access_resolved(
    lanes: Seq<LaneModel>,
    operation: Seq<char>,
    variable: Seq<char>,
    answers: Seq<LaneAnswer>,
) -> AccessOutcome {
    match lanes_used(lanes, operation, variable, answers, lanes.len()) {
        Err(f) => Err(f),
        Ok(used) => if used.len() == 0 {
            Ok(None)
        } else if used.len() == 1 {
            Ok(Some(used[0]))
        } else {
            Err(
                Failure::Realization(
                    "operation '"@ + operation + "' access to '"@ + variable
                        + "' resolves to "@ + dec(used.len()) + " trajectories"@,
                ),
            )
        },
    }
}

proof fn lemma_lanes_used_stop(
    lanes: Seq<LaneModel>,
    operation: Seq<char>,
    variable: Seq<char>,
    answers: Seq<LaneAnswer>,
    k: nat,
    n: nat,
)
    requires
        k <= n,
        lanes_used(lanes, operation, variable, answers, k) is Err,
    ensures
        lanes_used(lanes, operation, variable, answers, n)
            == lanes_used(lanes, operation, variable, answers, k),
    decreases n,
{
    if k < n {
        lemma_lanes_used_stop(lanes, operation, variable, answers, k, (n - 1) as nat);
    }
}

/// What an access of an operation to a variable uses.
pub fn resolve_access(
    lanes: &Vec<LogicalLaneMap>,
    operation: &str,
    variable: &str,
    answers: &Vec<LaneAnswer>,
) -> (r: Result<Option<ResolvedAccess>>)
    requires
        answers@.len() == lanes@.len(),
    ensures
        match r {
            Ok(x) => access_resolved(
                lane_models(lanes@),
                operation@,
                variable@,
                answers@,
            ) == Ok::<
                Option<ResolvedAccess>,
                Failure,
            >(x),
            Err(e) => access_resolved(
                lane_models(lanes@),
                operation@,
                variable@,
                answers@,
            ) == Err::<
                Option<ResolvedAccess>,
                Failure,
            >(e@),
        },
{
    let ghost models = lane_models(lanes@);
    let mut used: Vec<ResolvedAccess> = Vec::new();
    let mut i: usize = 0;
    while i < lanes.len()
        invariant
            i <= lanes@.len(),
            models == lane_models(lanes@),
            answers@.len() == lanes@.len(),
            lanes_used(models, operation@, variable@, answers@, i as nat) == Ok::<
                Seq<ResolvedAccess>,
                Failure,
            >(
                used@,
            ),
        decreases lanes@.len() - i,
    {
        proof {
            assert(models[i as int] == lanes@[i as int]@);
        }
        if str_eq(lanes[i].variable.as_str(), variable) {
            match &answers[i] {
                LaneAnswer::Failed(e) => {
                    proof {
                        lemma_lanes_used_stop(
                            models,
                            operation@,
                            variable@,
                            answers@,
                            (i + 1) as nat,
                            models.len(),
                        );
                    }
                    return Err(CodegenError::Isl(e.clone()));
                },
                LaneAnswer::Empty => {},
                LaneAnswer::Piecewise => {
                    proof {
                        lemma_lanes_used_stop(
                            models,
                            operation@,
                            variable@,
                            answers@,
                            (i + 1) as nat,
                            models.len(),
                        );
                    }
                    return Err(
                        CodegenError::Realization(
                            cat3("operation '", operation, "' has a piecewise lane expression"),
                        ),
                    );
                },
                LaneAnswer::Lane => used.push(ResolvedAccess { group: lanes[i].group, lane: i }),
            }
        }
        i += 1;
    }
    if used.len() == 0 {
        Ok(None)
    } else if used.len() == 1 {
        Ok(Some(used[0]))
    } else {
        let count = dec_usize(used.len());
        Err(
            CodegenError::Realization(
                cat7(
                    "operation '",
                    operation,
                    "' access to '",
                    variable,
                    "' resolves to ",
                    count.as_str(),
                    " trajectories",
                ),
            ),
        )
    }
}

pub type SlotsOutcome = core::result::Result<Seq<Option<ResolvedAccess>>, Failure>;

/// What the first `n` accesses use.
pub open spec fn slots(
    lanes: Seq<LaneModel>,
    operation: Seq<char>,
    accesses: Seq<Access>,
    answers: Seq<Vec<LaneAnswer>>,
    n: nat,
) -> SlotsOutcome
    decreases n,
{
    if n == 0 {
        Ok(Seq::empty())
    } else {
        match slots(lanes, operation, accesses, answers, (n - 1) as nat) {
            Err(f) => Err(f),
            Ok(before) => match access_resolved(
                lanes,
                operation,
                accesses[n - 1].variable@,
                answers[n - 1]@,
            ) {
                Err(f) => Err(f),
                Ok(x) => Ok(before.push(x)),
            },
        }
    }
}

proof fn lemma_slots_stop(
    lanes: Seq<LaneModel>,
    operation: Seq<char>,
    accesses: Seq<Access>,
    answers: Seq<Vec<LaneAnswer>>,
    k: nat,
    n: nat,
)
    requires
        k <= n,
        slots(lanes, operation, accesses, answers, k) is Err,
    ensures
        slots(lanes, operation, accesses, answers, n) == slots(lanes, operation, accesses, answers, k),
    decreases n,
{
    if k < n {
        lemma_slots_stop(lanes, operation, accesses, answers, k, (n - 1) as nat);
    }
}

/// There is an answer for each access and each lane map.
pub open spec fn accesses_ok(accesses: nat, answers: Seq<Vec<LaneAnswer>>, lanes: nat) -> bool {
    &&& answers.len() == accesses
    &&& forall|i: int| 0 <= i < answers.len() ==> (#[trigger] answers[i])@.len() == lanes
}

fn resolve_slots(
    lanes: &Vec<LogicalLaneMap>,
    operation: &str,
    accesses: &Vec<Access>,
    answers: &Vec<Vec<LaneAnswer>>,
) -> (r: Result<Vec<Option<ResolvedAccess>>>)
    requires
        accesses_ok(accesses@.len(), answers@, lanes@.len()),
    ensures
        match r {
            Ok(v) => slots(
                lane_models(lanes@),
                operation@,
                accesses@,
                answers@,
                accesses@.len(),
            ) == Ok::<Seq<Option<ResolvedAccess>>, Failure>(v@) && v@.len() == accesses@.len(),
            Err(e) => slots(
                lane_models(lanes@),
                operation@,
                accesses@,
                answers@,
                accesses@.len(),
            ) == Err::<Seq<Option<ResolvedAccess>>, Failure>(e@),
        },
{
    let ghost models = lane_models(lanes@);
    let mut out: Vec<Option<ResolvedAccess>> = Vec::new();
    let mut i: usize = 0;
    while i < accesses.len()
        invariant
            i <= accesses@.len(),
            models == lane_models(lanes@),
            accesses_ok(accesses@.len(), answers@, lanes@.len()),
            out@.len() == i,
            slots(models, operation@, accesses@, answers@, i as nat) == Ok::<
                Seq<Option<ResolvedAccess>>,
                Failure,
            >(out@),
        decreases accesses@.len() - i,
    {
        proof {
            assert(answers@[i as int]@.len() == lanes@.len());
        }
        match resolve_access(lanes, operation, accesses[i].variable.as_str(), &answers[i]) {
            Ok(x) => out.push(x),
            Err(e) => {
                proof {
                    lemma_slots_stop(
                        models,
                        operation@,
                        accesses@,
                        answers@,
                        (i + 1) as nat,
                        accesses@.len(),
                    );
                }
                return Err(e);
            },
        }
        i += 1;
    }
    Ok(out)
}

/// The accesses that use a lane, in order.
pub open spec fn used_slots(v: Seq<Option<ResolvedAccess>>) -> Seq<ResolvedAccess>
    decreases v.len(),
{
    if v.len() == 0 {
        Seq::empty()
    } else {
        let before = used_slots(v.drop_last());
        match v.last() {
            Some(x) => before.push(x),
            None => before,
        }
    }
}

fn keep_used(v: &Vec<Option<ResolvedAccess>>) -> (r: Vec<ResolvedAccess>)
    ensures
        r@ == used_slots(v@),
{
    let mut out: Vec<ResolvedAccess> = Vec::new();
    let mut i: usize = 0;
    while i < v.len()
        invariant
            i <= v@.len(),
            out@ == used_slots(v@.take(i as int)),
        decreases v@.len() - i,
    {
        proof {
            let t = v@.take(i + 1);
            assert(t.drop_last() =~= v@.take(i as int));
            assert(t.last() == v@[i as int]);
        }
        match v[i] {
            Some(x) => out.push(x),
            None => {},
        }
        i += 1;
    }
    proof {
        assert(v@.take(v@.len() as int) =~= v@);
    }
    out
}

pub open spec fn same_group(a: Option<ResolvedAccess>, b: Option<ResolvedAccess>) -> bool {
    match (a, b) {
        (Some(x), Some(y)) => x.group == y.group,
        _ => false,
    }
}

pub open spec fn alias_failure(operation: Seq<char>) -> Failure {
    Failure::Realization("operation '"@ + operation + "' has aliased resource operands"@)
}

/// What is wrong with input `i` and a later one from place `j` on: they share a lane.
pub open spec fn alias_from(
    operation: Seq<char>,
    v: Seq<Option<ResolvedAccess>>,
    shared: Seq<Vec<Answer>>,
    i: int,
    j: int,
) -> Option<Failure>
    decreases v.len() - j,
{
    if j < 0 || j >= v.len() {
        None
    } else if same_group(v[i], v[j]) {
        match shared[i]@[j] {
            Err(e) => Some(Failure::Isl(e.message@)),
            Ok(yes) => if yes {
                Some(alias_failure(operation))
            } else {
                alias_from(operation, v, shared, i, j + 1)
            },
        }
    } else {
        alias_from(operation, v, shared, i, j + 1)
    }
}

/// What is wrong with two inputs, the first of them from place `i` on.
pub open spec fn alias_among(
    operation: Seq<char>,
    v: Seq<Option<ResolvedAccess>>,
    shared: Seq<Vec<Answer>>,
    i: int,
) -> Option<Failure>
    decreases v.len() - i,
{
    if i < 0 || i >= v.len() {
        None
    } else if alias_from(operation, v, shared, i, i + 1) is Some {
        alias_from(operation, v, shared, i, i + 1)
    } else {
        alias_among(operation, v, shared, i + 1)
    }
}

pub open spec fn shared_ok(shared: Seq<Vec<Answer>>, n: nat) -> bool {
    shared.len() == n && forall|i: int| 0 <= i < n ==> (#[trigger] shared[i])@.len() == n
}

fn check_aliases(operation: &str, v: &Vec<Option<ResolvedAccess>>, shared: &Vec<Vec<Answer>>) -> (r:
    Result<()>)
    requires
        shared_ok(shared@, v@.len()),
    ensures
        match r {
            Ok(()) => alias_among(operation@, v@, shared@, 0) is None,
            Err(e) => alias_among(operation@, v@, shared@, 0) == Some(e@),
        },
{
    let mut i: usize = 0;
    while i < v.len()
        invariant
            i <= v@.len(),
            shared_ok(shared@, v@.len()),
            alias_among(operation@, v@, shared@, 0) == alias_among(
                operation@,
                v@,
                shared@,
                i as int,
            ),
        decreases v@.len() - i,
    {
        let mut j: usize = i + 1;
        while j < v.len()
            invariant
                i < v@.len(),
                i < j <= v@.len(),
                shared_ok(shared@, v@.len()),
                alias_among(operation@, v@, shared@, 0) == alias_among(
                    operation@,
                    v@,
                    shared@,
                    i as int,
                ),
                alias_from(operation@, v@, shared@, i as int, i + 1) == alias_from(
                    operation@,
                    v@,
                    shared@,
                    i as int,
                    j as int,
                ),
            decreases v@.len() - j,
        {
            proof {
                assert(shared@[i as int]@.len() == v@.len());
            }
            let same = match (v[i], v[j]) {
                (Some(x), Some(y)) => x.group == y.group,
                _ => false,
            };
            if same {
                match &shared[i][j] {
                    Err(e) => return Err(CodegenError::Isl(e.clone())),
                    Ok(yes) => if *yes {
                        return Err(
                            CodegenError::Realization(
                                cat3("operation '", operation, "' has aliased resource operands"),
                            ),
                        );
                    },
                }
            }
            j += 1;
        }
        i += 1;
    }
    Ok(())
}

pub type OperationOutcome = core::result::Result<OperationModel, Failure>;

/// The lanes that a call of an operation, which is the statement at a place, uses. Its inputs must
/// not share one.
pub open spec fn operation_resolved(
    lanes: Seq<LaneModel>,
    place: int,
    call: OperationCall,
    a: CallAnswers,
) -> OperationOutcome {
    let name = call.operation.spelling();
    match a.failure {
        Some(e) => Err(Failure::Isl(e.message@)),
        None => match slots(lanes, name, call.inputs@, a.inputs@, call.inputs@.len()) {
            Err(x) => Err(x),
            Ok(inputs) => match alias_among(name, inputs, a.shared@, 0) {
                Some(x) => Err(x),
                None => match slots(lanes, name, call.outputs@, a.outputs@, call.outputs@.len()) {
                    Err(x) => Err(x),
                    Ok(outputs) => Ok(
                        OperationModel {
                            statement: StatementId(place as usize),
                            inputs: used_slots(inputs),
                            outputs: used_slots(outputs),
                        },
                    ),
                },
            },
        },
    }
}

pub open spec fn call_ok(call: OperationCall, a: CallAnswers, lanes: nat) -> bool {
    &&& accesses_ok(call.inputs@.len(), a.inputs@, lanes)
    &&& accesses_ok(call.outputs@.len(), a.outputs@, lanes)
    &&& shared_ok(a.shared@, call.inputs@.len())
}

fn resolve_operation(
    lanes: &Vec<LogicalLaneMap>,
    statement: StatementId,
    call: &OperationCall,
    a: &CallAnswers,
) -> (r: Result<ResolvedOperation>)
    requires
        call_ok(*call, *a, lanes@.len()),
    ensures
        match r {
            Ok(x) => operation_resolved(lane_models(lanes@), statement.0 as int, *call, *a) == Ok::<
                OperationModel,
                Failure,
            >(x@),
            Err(e) => operation_resolved(lane_models(lanes@), statement.0 as int, *call, *a)
                == Err::<OperationModel, Failure>(e@),
        },
{
    match &a.failure {
        Some(e) => return Err(CodegenError::Isl(e.clone())),
        None => {},
    }
    let name = call.operation.name();
    let inputs = match resolve_slots(lanes, name, &call.inputs, &a.inputs) {
        Ok(v) => v,
        Err(e) => return Err(e),
    };
    match check_aliases(name, &inputs, &a.shared) {
        Ok(()) => {},
        Err(e) => return Err(e),
    }
    let outputs = match resolve_slots(lanes, name, &call.outputs, &a.outputs) {
        Ok(v) => v,
        Err(e) => return Err(e),
    };
    Ok(
        ResolvedOperation {
            statement,
            inputs: keep_used(&inputs),
            outputs: keep_used(&outputs),
        },
    )
}

/// The calls of operations among the statements, in order, each with its place.
pub open spec fn calls_of(all: Seq<StatementModel>) -> Seq<(int, OperationCall)>
    decreases all.len(),
{
    if all.len() == 0 {
        Seq::empty()
    } else {
        let before = calls_of(all.drop_last());
        match all.last().kind {
            KindModel::OperationCall(call) => before.push((all.len() - 1, call)),
            _ => before,
        }
    }
}

pub open spec fn call_views(v: Seq<(StatementId, &OperationCall)>) -> Seq<(int, OperationCall)> {
    Seq::new(v.len(), |i: int| (v[i].0.0 as int, *v[i].1))
}

/// The calls of operations among the statements, in order, each with the number of its statement.
pub fn operation_calls<'a>(all: &'a Vec<Statement<'a>>) -> (r: Vec<
    (StatementId, &'a OperationCall),
>)
    ensures
        call_views(r@) == calls_of(statements_model(all@)),
{
    let ghost models = statements_model(all@);
    let mut out: Vec<(StatementId, &'a OperationCall)> = Vec::new();
    let mut i: usize = 0;
    proof {
        assert(call_views(out@) =~= calls_of(models.take(0)));
    }
    while i < all.len()
        invariant
            i <= all@.len(),
            models == statements_model(all@),
            call_views(out@) == calls_of(models.take(i as int)),
        decreases all@.len() - i,
    {
        let ghost before = call_views(out@);
        proof {
            let t = models.take(i + 1);
            assert(t.drop_last() =~= models.take(i as int));
            assert(t.last() == all@[i as int]@);
        }
        match &all[i].kind {
            StatementKind::OperationCall(call) => {
                out.push((StatementId(i), *call));
                proof {
                    assert(call_views(out@) =~= before.push((i as int, **call)));
                }
            },
            _ => {},
        }
        i += 1;
    }
    proof {
        assert(models.take(all@.len() as int) =~= models);
    }
    out
}

pub type OperationsOutcome = core::result::Result<Seq<OperationModel>, Failure>;

/// The lanes that the first `n` calls use.
pub open spec fn operations_of_first(
    lanes: Seq<LaneModel>,
    calls: Seq<(int, OperationCall)>,
    answers: Seq<CallAnswers>,
    n: nat,
) -> OperationsOutcome
    decreases n,
{
    if n == 0 {
        Ok(Seq::empty())
    } else {
        match operations_of_first(lanes, calls, answers, (n - 1) as nat) {
            Err(f) => Err(f),
            Ok(before) => match operation_resolved(
                lanes,
                calls[n - 1].0,
                calls[n - 1].1,
                answers[n - 1],
            ) {
                Err(f) => Err(f),
                Ok(x) => Ok(before.push(x)),
            },
        }
    }
}

proof fn lemma_operations_stop(
    lanes: Seq<LaneModel>,
    calls: Seq<(int, OperationCall)>,
    answers: Seq<CallAnswers>,
    k: nat,
    n: nat,
)
    requires
        k <= n,
        operations_of_first(lanes, calls, answers, k) is Err,
    ensures
        operations_of_first(lanes, calls, answers, n) == operations_of_first(
            lanes,
            calls,
            answers,
            k,
        ),
    decreases n,
{
    if k < n {
        lemma_operations_stop(lanes, calls, answers, k, (n - 1) as nat);
    }
}

/// Where each call of an operation has an answer for each of the `lanes` lane maps.
pub open spec fn calls_ok(
    calls: Seq<(int, OperationCall)>,
    answers: Seq<CallAnswers>,
    lanes: nat,
) -> bool {
    &&& answers.len() == calls.len()
    &&& forall|i: int| 0 <= i < calls.len() ==> call_ok(calls[i].1, #[trigger] answers[i], lanes)
}

/// The lanes that the calls of operations among the statements use: one entry for each of them, in
/// order, with the number of its statement.
pub fn resolve_operations(
    lanes: &Vec<LogicalLaneMap>,
    statements: &Vec<Statement>,
    answers: &Vec<CallAnswers>,
) -> (r: Result<Vec<ResolvedOperation>>)
    requires
        calls_ok(calls_of(statements_model(statements@)), answers@, lanes@.len()),
    ensures
        match r {
            Ok(v) => operations_of_first(
                lane_models(lanes@),
                calls_of(statements_model(statements@)),
                answers@,
                answers@.len(),
            ) == Ok::<Seq<OperationModel>, Failure>(operation_models(v@)),
            Err(e) => operations_of_first(
                lane_models(lanes@),
                calls_of(statements_model(statements@)),
                answers@,
                answers@.len(),
            ) == Err::<Seq<OperationModel>, Failure>(e@),
        },
        r matches Ok(v) ==> v@.len() == calls_of(statements_model(statements@)).len() && forall|
            i: int,
        |
            0 <= i < v@.len() ==> (#[trigger] v@[i]).statement.0 == calls_of(
                statements_model(statements@),
            )[i].0,
{
    let calls = operation_calls(statements);
    let ghost found = calls_of(statements_model(statements@));
    let ghost models = lane_models(lanes@);
    let mut out: Vec<ResolvedOperation> = Vec::new();
    let mut i: usize = 0;
    proof {
        assert(operation_models(out@) =~= Seq::<OperationModel>::empty());
        assert(call_views(calls@).len() == calls@.len());
    }
    while i < calls.len()
        invariant
            i <= calls@.len(),
            models == lane_models(lanes@),
            found == calls_of(statements_model(statements@)),
            call_views(calls@) == found,
            calls@.len() == found.len(),
            calls_ok(found, answers@, lanes@.len()),
            operations_of_first(models, found, answers@, i as nat) == Ok::<
                Seq<OperationModel>,
                Failure,
            >(operation_models(out@)),
            out@.len() == i,
            forall|j: int| 0 <= j < i ==> (#[trigger] out@[j]).statement.0 == found[j].0,
        decreases calls@.len() - i,
    {
        let ghost before = operation_models(out@);
        let (statement, call) = calls[i];
        proof {
            assert(call_views(calls@)[i as int] == (statement.0 as int, *call));
            assert(call_ok(found[i as int].1, answers@[i as int], lanes@.len()));
        }
        match resolve_operation(lanes, statement, call, &answers[i]) {
            Ok(x) => {
                let ghost model = x@;
                out.push(x);
                proof {
                    assert(operation_models(out@) =~= before.push(model));
                }
            },
            Err(e) => {
                proof {
                    lemma_operations_stop(models, found, answers@, (i + 1) as nat, found.len());
                }
                return Err(e);
            },
        }
        i += 1;
    }
    Ok(out)
}

/// Groups of resources, the lanes of every logical variable, and those of every operation.
#[derive(Debug)]
pub struct Realization {
    pub groups: Vec<ResourceGroup>,
    pub logical_to_lane: Vec<LogicalLaneMap>,
    pub operations: Vec<ResolvedOperation>,
}

/// The place of the first lane map of a variable from `k` on.
pub open spec fn first_lane(lanes: Seq<LaneModel>, variable: Seq<char>, k: int) -> Option<int>
    decreases lanes.len() - k,
{
    if k < 0 || k >= lanes.len() {
        None
    } else if lanes[k].variable == variable {
        Some(k)
    } else {
        first_lane(lanes, variable, k + 1)
    }
}

impl Realization {
    /// The first lane map of a variable.
    pub fn logical_lane_map(&self, variable: &str) -> (r: Option<&Relation>)
        ensures
            match r {
                Some(m) => first_lane(
                    lane_models(self.logical_to_lane@),
                    variable@,
                    0,
                ) matches Some(i) && m@ == lane_models(self.logical_to_lane@)[i].relation,
                None => first_lane(lane_models(self.logical_to_lane@), variable@, 0) is None,
            },
    {
        let lanes = &self.logical_to_lane;
        let ghost models = lane_models(lanes@);
        let mut i: usize = 0;
        while i < lanes.len()
            invariant
                i <= lanes@.len(),
                models == lane_models(lanes@),
                lanes@ == self.logical_to_lane@,
                first_lane(models, variable@, 0) == first_lane(models, variable@, i as int),
            decreases lanes@.len() - i,
        {
            proof {
                assert(models[i as int] == lanes@[i as int]@);
            }
            if str_eq(lanes[i].variable.as_str(), variable) {
                return Some(&lanes[i].relation);
            }
            i += 1;
        }
        None
    }
}

/// The lanes that an access of a call uses, by a lane map: from the points of the call, at the
/// point that the parameters are fixed to.
pub open spec fn access_lanes(
    call: OperationCall,
    access: Access,
    point: Seq<char>,
    lanes: RelationModel,
) -> RelationModel {
    composed(
        RelationModel::At(
            Box::new(
                RelationModel::Within(
                    Box::new(RelationModel::Function(access.function.text@)),
                    Box::new(RegionModel::Read(call.domain@)),
                ),
            ),
            point,
        ),
        lanes,
    )
}

/// The lanes that an access of a call uses.
pub fn access_lane_map(
    call: &OperationCall,
    access: &Access,
    point: &String,
    lanes: &LogicalLaneMap,
) -> (r: Relation)
    ensures
        r@ == access_lanes(*call, *access, point@, lanes@.relation),
{
    let read = Relation::Function(access.function.text.clone());
    let kept = within(read, Region::Read(call.domain.clone()));
    compose(at(kept, point.clone()), lanes.relation.clone())
}

/// The points of a call at which two of its inputs use a common lane, with that lane, where each
/// input uses the lanes of a lane map.
pub open spec fn common_lanes(
    call: OperationCall,
    i: int,
    j: int,
    point: Seq<char>,
    left: RelationModel,
    right: RelationModel,
) -> RelationModel {
    RelationModel::Both(
        Box::new(access_lanes(call, call.inputs@[i], point, left)),
        Box::new(access_lanes(call, call.inputs@[j], point, right)),
    )
}

/// The points of a call at which two of its inputs use a common lane, with that lane.
pub fn common_lane_map(
    call: &OperationCall,
    i: usize,
    j: usize,
    point: &String,
    left: &LogicalLaneMap,
    right: &LogicalLaneMap,
) -> (r: Relation)
    requires
        i < call.inputs@.len(),
        j < call.inputs@.len(),
    ensures
        r@ == common_lanes(
            *call,
            i as int,
            j as int,
            point@,
            left@.relation,
            right@.relation,
        ),
{
    both(
        access_lane_map(call, &call.inputs[i], point, left),
        access_lane_map(call, &call.inputs[j], point, right),
    )
}

fn add_root(
    groups: &mut Vec<ResourceGroup>,
    lanes: &mut Vec<LogicalLaneMap>,
    root: &RootFacts,
    edges: &Vec<FlowEdge>,
    sinks: &Vec<FlowSink>,
) -> (r: Result<()>)
    requires
        root_ok(*root, edges@, sinks@),
    ensures
        match r {
            Ok(()) => with_root(
                PartsModel {
                    groups: group_models(old(groups)@),
                    lanes: lane_models(old(lanes)@),
                },
                *root,
                edges@,
                sinks@,
            ) == Ok::<PartsModel, Failure>(
                PartsModel {
                    groups: group_models(final(groups)@),
                    lanes: lane_models(final(lanes)@),
                },
            ),
            Err(e) => with_root(
                PartsModel {
                    groups: group_models(old(groups)@),
                    lanes: lane_models(old(lanes)@),
                },
                *root,
                edges@,
                sinks@,
            ) == Err::<PartsModel, Failure>(e@),
        },
{
    let ghost before = group_models(groups@);
    let id = ResourceGroupId(groups.len());
    let domain = match &root.domain {
        Ok(d) => d,
        Err(e) => return Err(CodegenError::Isl(e.clone())),
    };
    let (single, shape) = match root_lane_map(domain) {
        Ok(p) => p,
        Err(e) => return Err(e),
    };
    let start = Relation::Lanes(domain.text.clone(), single);
    let p = match follow_group(root.variable.as_str(), start, edges, &root.steps) {
        Ok(p) => p,
        Err(e) => return Err(e),
    };
    let exit = match find_exit(root.variable.as_str(), sinks, &p.reached, &root.sinks) {
        Ok(x) => x,
        Err(e) => return Err(e),
    };
    let size = match count_lanes(&shape) {
        Some(n) => n,
        None => return Err(
            CodegenError::Realization("resource group size overflows u64".to_owned()),
        ),
    };
    let entry = match root.kind {
        RootKind::SystemInput => EntryOccupancy::Occupied,
        RootKind::OperationOutput => EntryOccupancy::Empty,
    };
    proof {
        assert(views(p.reached@).len() == p.reached@.len());
    }
    match cover(lanes, &p, &root.overlaps, id) {
        Ok(()) => {},
        Err(e) => return Err(e),
    }
    let group = ResourceGroup {
        id,
        element_type: ElementType::Qubit,
        shape,
        size,
        entry,
        exit,
    };
    let ghost model = group@;
    groups.push(group);
    proof {
        assert(group_models(groups@) =~= before.push(model));
    }
    Ok(())
}

pub struct RealizationModel {
    pub groups: Seq<GroupModel>,
    pub lanes: Seq<LaneModel>,
    pub operations: Seq<OperationModel>,
}

impl View for Realization {
    type V = RealizationModel;

    open spec fn view(&self) -> RealizationModel {
        RealizationModel {
            groups: group_models(self.groups@),
            lanes: lane_models(self.logical_to_lane@),
            operations: operation_models(self.operations@),
        }
    }
}

pub type RealizationOutcome = core::result::Result<RealizationModel, Failure>;

/// What is asked about a program and its flow, and what came out.
pub struct Facts {
    pub roots: Seq<RootFacts>,
    pub edges: Seq<FlowEdge>,
    pub sinks: Seq<FlowSink>,
    /// For each variable of the system.
    pub uncovered: Seq<Uncovered>,
    /// For each call of an operation.
    pub calls: Seq<CallAnswers>,
}

/// What a program is realized by, or why it cannot be: a root or its group, a resource that no
/// group covers, or an operation.
pub open spec fn realized(
    system: System,
    statements: Seq<StatementModel>,
    f: Facts,
) -> RealizationOutcome {
    match parts_of_first(f.roots, f.edges, f.sinks, f.roots.len()) {
        Err(x) => Err(x),
        Ok(parts) => match first_uncovered(parts.lanes, all_variables(system), f.uncovered, 0) {
            Some(x) => Err(x),
            None => match operations_of_first(
                parts.lanes,
                calls_of(statements),
                f.calls,
                f.calls.len(),
            ) {
                Err(x) => Err(x),
                Ok(ops) => Ok(
                    RealizationModel {
                        groups: parts.groups,
                        lanes: parts.lanes,
                        operations: ops,
                    },
                ),
            },
        },
    }
}

/// Everything that is asked has an answer: about each root, each variable of the system, and each
/// call of an operation with each lane map.
pub open spec fn facts_ok(system: System, statements: Seq<StatementModel>, f: Facts) -> bool {
    &&& forall|i: int| 0 <= i < f.roots.len() ==> root_ok(#[trigger] f.roots[i], f.edges, f.sinks)
    &&& f.uncovered.len() == all_variables(system).len()
    &&& parts_of_first(f.roots, f.edges, f.sinks, f.roots.len()) matches Ok(parts) ==> calls_ok(
        calls_of(statements),
        f.calls,
        parts.lanes.len(),
    )
}

/// The answers of the polyhedral library about a program and its flow.
#[derive(Debug)]
pub struct FlowFacts {
    pub roots: Vec<RootFacts>,
    pub edges: Vec<FlowEdge>,
    pub sinks: Vec<FlowSink>,
    /// For each variable of the system: its inputs, its outputs and its locals, in order.
    pub uncovered: Vec<Uncovered>,
    /// For each call of an operation, in the order of the statements.
    pub calls: Vec<CallAnswers>,
}

impl View for FlowFacts {
    type V = Facts;

    open spec fn view(&self) -> Facts {
        Facts {
            roots: self.roots@,
            edges: self.edges@,
            sinks: self.sinks@,
            uncovered: self.uncovered@,
            calls: self.calls@,
        }
    }
}

/// What a program is realized by.
pub fn infer(system: &System, statements: &Vec<Statement>, f: &FlowFacts) -> (r: Result<Realization>)
    requires
        facts_ok(*system, statements_model(statements@), f@),
    ensures
        match r {
            Ok(x) => realized(*system, statements_model(statements@), f@) == Ok::<
                RealizationModel,
                Failure,
            >(x@),
            Err(e) => realized(*system, statements_model(statements@), f@) == Err::<
                RealizationModel,
                Failure,
            >(e@),
        },
{
    let roots = &f.roots;
    let mut groups: Vec<ResourceGroup> = Vec::new();
    let mut lanes: Vec<LogicalLaneMap> = Vec::new();
    let mut i: usize = 0;
    proof {
        assert(group_models(groups@) =~= Seq::<GroupModel>::empty());
        assert(lane_models(lanes@) =~= Seq::<LaneModel>::empty());
    }
    while i < roots.len()
        invariant
            i <= roots@.len(),
            roots@ == f.roots@,
            forall|i: int|
                0 <= i < roots@.len() ==> root_ok(#[trigger] roots@[i], f.edges@, f.sinks@),
            parts_of_first(roots@, f.edges@, f.sinks@, i as nat) == Ok::<PartsModel, Failure>(
                PartsModel { groups: group_models(groups@), lanes: lane_models(lanes@) },
            ),
        decreases roots@.len() - i,
    {
        proof {
            assert(root_ok(roots@[i as int], f.edges@, f.sinks@));
        }
        match add_root(&mut groups, &mut lanes, &roots[i], &f.edges, &f.sinks) {
            Ok(()) => {},
            Err(e) => {
                proof {
                    lemma_parts_stop(
                        roots@,
                        f.edges@,
                        f.sinks@,
                        (i + 1) as nat,
                        roots@.len(),
                    );
                }
                return Err(e);
            },
        }
        i += 1;
    }
    match check_coverage(&lanes, system, &f.uncovered) {
        Ok(()) => {},
        Err(e) => return Err(e),
    }
    proof {
        assert(lane_models(lanes@).len() == lanes@.len());
    }
    match resolve_operations(&lanes, statements, &f.calls) {
        Ok(found) => Ok(Realization { groups, logical_to_lane: lanes, operations: found }),
        Err(e) => Err(e),
    }
}

} // verus!
