//! Sets of instances and relations between them, written down as terms.
//!
//! The leaves are texts of the polyhedral library, and the schedules of statements, which are known
//! by their place. What a term stands for is said by [`inside`] and [`relates`].
use vstd::prelude::*;

verus! {

pub type Tuple = Seq<int>;

/// A set of index tuples.
#[derive(Debug)]
pub enum Region {
    Read(String),
    Both(Box<Region>, Box<Region>),
    /// The region for the parameter values of a point, which is written down, without parameters.
    At(Box<Region>, String),
    Union(Box<Region>, Box<Region>),
    /// The points that a relation relates to something.
    Domain(Box<Relation>),
}

/// A relation between index tuples.
#[derive(Debug)]
pub enum Relation {
    /// A function.
    Function(String),
    Reverse(Box<Relation>),
    /// The left relation followed by the right one.
    Compose(Box<Relation>, Box<Relation>),
    Both(Box<Relation>, Box<Relation>),
    /// The schedule of the statement at a place: it relates an instance to its time.
    Schedule(usize),
    /// Relates a time to itself and to every earlier time.
    NotBefore,
    /// Relates each point of a set, which is written down, to the point without the dimensions that
    /// are given in order.
    Lanes(String, Vec<usize>),
    /// What the edge of a flow at a place hands on.
    Edge(usize),
    /// The relation followed any number of times, but at least once.
    Closure(Box<Relation>),
    Union(Box<Relation>, Box<Relation>),
    /// The relation from the points of a region.
    Within(Box<Relation>, Box<Region>),
    /// The relation for the parameter values of a point, which is written down, without parameters.
    At(Box<Relation>, String),
    /// What a schedule text says at a place.
    Written(usize),
    Identity,
    /// The relation, with a number of zeros after what it relates to.
    Padded(Box<Relation>, u32),
    /// What the sink of a flow at a place takes, at the point that the parameters are fixed to.
    Sink(usize),
}

/// A [`Region`] as a mathematical value.
pub enum RegionModel {
    Read(Seq<char>),
    Both(Box<RegionModel>, Box<RegionModel>),
    At(Box<RegionModel>, Seq<char>),
    Union(Box<RegionModel>, Box<RegionModel>),
    Domain(Box<RelationModel>),
}

/// A [`Relation`] as a mathematical value.
pub enum RelationModel {
    Function(Seq<char>),
    Reverse(Box<RelationModel>),
    Compose(Box<RelationModel>, Box<RelationModel>),
    Both(Box<RelationModel>, Box<RelationModel>),
    Schedule(usize),
    NotBefore,
    Lanes(Seq<char>, Seq<usize>),
    Edge(usize),
    Closure(Box<RelationModel>),
    Union(Box<RelationModel>, Box<RelationModel>),
    Within(Box<RelationModel>, Box<RegionModel>),
    At(Box<RelationModel>, Seq<char>),
    Written(usize),
    Identity,
    Padded(Box<RelationModel>, u32),
    Sink(usize),
}

pub open spec fn region_model(r: Region) -> RegionModel
    decreases r,
{
    match r {
        Region::Read(t) => RegionModel::Read(t@),
        Region::Both(a, b) => RegionModel::Both(
            Box::new(region_model(*a)),
            Box::new(region_model(*b)),
        ),
        Region::At(a, p) => RegionModel::At(Box::new(region_model(*a)), p@),
        Region::Union(a, b) => RegionModel::Union(
            Box::new(region_model(*a)),
            Box::new(region_model(*b)),
        ),
        Region::Domain(a) => RegionModel::Domain(Box::new(relation_model(*a))),
    }
}

pub open spec fn relation_model(r: Relation) -> RelationModel
    decreases r,
{
    match r {
        Relation::Function(t) => RelationModel::Function(t@),
        Relation::Reverse(a) => RelationModel::Reverse(Box::new(relation_model(*a))),
        Relation::Compose(a, b) => RelationModel::Compose(
            Box::new(relation_model(*a)),
            Box::new(relation_model(*b)),
        ),
        Relation::Both(a, b) => RelationModel::Both(
            Box::new(relation_model(*a)),
            Box::new(relation_model(*b)),
        ),
        Relation::Schedule(i) => RelationModel::Schedule(i),
        Relation::NotBefore => RelationModel::NotBefore,
        Relation::Lanes(t, single) => RelationModel::Lanes(t@, single@),
        Relation::Edge(i) => RelationModel::Edge(i),
        Relation::Closure(a) => RelationModel::Closure(Box::new(relation_model(*a))),
        Relation::Union(a, b) => RelationModel::Union(
            Box::new(relation_model(*a)),
            Box::new(relation_model(*b)),
        ),
        Relation::Within(a, r) => RelationModel::Within(
            Box::new(relation_model(*a)),
            Box::new(region_model(*r)),
        ),
        Relation::At(a, p) => RelationModel::At(Box::new(relation_model(*a)), p@),
        Relation::Written(i) => RelationModel::Written(i),
        Relation::Identity => RelationModel::Identity,
        Relation::Padded(a, n) => RelationModel::Padded(Box::new(relation_model(*a)), n),
        Relation::Sink(i) => RelationModel::Sink(i),
    }
}

impl View for Region {
    type V = RegionModel;

    open spec fn view(&self) -> RegionModel {
        region_model(*self)
    }
}

impl View for Relation {
    type V = RelationModel;

    open spec fn view(&self) -> RelationModel {
        relation_model(*self)
    }
}

impl Clone for Region {
    fn clone(&self) -> (r: Region)
        ensures
            r@ == self@,
        decreases self,
    {
        match self {
            Region::Read(t) => Region::Read(t.clone()),
            Region::Both(a, b) => {
                let x: Region = (**a).clone();
                let y: Region = (**b).clone();
                Region::Both(Box::new(x), Box::new(y))
            },
            Region::At(a, p) => {
                let x: Region = (**a).clone();
                Region::At(Box::new(x), p.clone())
            },
            Region::Union(a, b) => {
                let x: Region = (**a).clone();
                let y: Region = (**b).clone();
                Region::Union(Box::new(x), Box::new(y))
            },
            Region::Domain(a) => {
                let x: Relation = (**a).clone();
                Region::Domain(Box::new(x))
            },
        }
    }
}

fn copy_places(v: &Vec<usize>) -> (r: Vec<usize>)
    ensures
        r@ == v@,
{
    let mut out: Vec<usize> = Vec::new();
    let mut i: usize = 0;
    while i < v.len()
        invariant
            i <= v@.len(),
            out@ =~= v@.take(i as int),
        decreases v@.len() - i,
    {
        out.push(v[i]);
        i += 1;
    }
    proof {
        assert(v@.take(i as int) =~= v@);
    }
    out
}

impl Clone for Relation {
    fn clone(&self) -> (r: Relation)
        ensures
            r@ == self@,
        decreases self,
    {
        match self {
            Relation::Function(t) => Relation::Function(t.clone()),
            Relation::Reverse(a) => {
                let x: Relation = (**a).clone();
                Relation::Reverse(Box::new(x))
            },
            Relation::Compose(a, b) => {
                let x: Relation = (**a).clone();
                let y: Relation = (**b).clone();
                Relation::Compose(Box::new(x), Box::new(y))
            },
            Relation::Both(a, b) => {
                let x: Relation = (**a).clone();
                let y: Relation = (**b).clone();
                Relation::Both(Box::new(x), Box::new(y))
            },
            Relation::Schedule(i) => Relation::Schedule(*i),
            Relation::NotBefore => Relation::NotBefore,
            Relation::Lanes(t, single) => Relation::Lanes(t.clone(), copy_places(single)),
            Relation::Edge(i) => Relation::Edge(*i),
            Relation::Closure(a) => {
                let x: Relation = (**a).clone();
                Relation::Closure(Box::new(x))
            },
            Relation::Union(a, b) => {
                let x: Relation = (**a).clone();
                let y: Relation = (**b).clone();
                Relation::Union(Box::new(x), Box::new(y))
            },
            Relation::Within(a, r) => {
                let x: Relation = (**a).clone();
                let y: Region = (**r).clone();
                Relation::Within(Box::new(x), Box::new(y))
            },
            Relation::At(a, p) => {
                let x: Relation = (**a).clone();
                Relation::At(Box::new(x), p.clone())
            },
            Relation::Written(i) => Relation::Written(*i),
            Relation::Identity => Relation::Identity,
            Relation::Padded(a, n) => {
                let x: Relation = (**a).clone();
                Relation::Padded(Box::new(x), *n)
            },
            Relation::Sink(i) => Relation::Sink(*i),
        }
    }
}

pub open spec fn region_models(v: Seq<Region>) -> Seq<RegionModel> {
    Seq::new(v.len(), |i: int| v[i]@)
}

pub open spec fn relation_models(v: Seq<Relation>) -> Seq<RelationModel> {
    Seq::new(v.len(), |i: int| v[i]@)
}

/// What the leaves stand for. The parameter values are fixed.
pub struct Leaves {
    pub sets: spec_fn(Seq<char>) -> Set<Tuple>,
    pub functions: spec_fn(Seq<char>) -> Set<(Tuple, Tuple)>,
    pub schedules: spec_fn(usize) -> Set<(Tuple, Tuple)>,
    pub edges: spec_fn(usize) -> Set<(Tuple, Tuple)>,
    pub written: spec_fn(usize) -> Set<(Tuple, Tuple)>,
    pub sinks: spec_fn(usize) -> Set<(Tuple, Tuple)>,
    /// The parameter values are those of the point.
    pub at: spec_fn(Seq<char>) -> bool,
}

/// The points that the pairs start at.
pub open spec fn starts(of: Set<(Tuple, Tuple)>) -> Set<Tuple> {
    Set::new(|x: Tuple| exists|y: Tuple| #[trigger] of.contains((x, y)))
}

/// The pairs that start in a set.
pub open spec fn starting_in(of: Set<(Tuple, Tuple)>, from: Set<Tuple>) -> Set<(Tuple, Tuple)> {
    Set::new(|p: (Tuple, Tuple)| of.contains(p) && from.contains(p.0))
}

/// The pairs with `n` zeros after what they end at.
pub open spec fn with_zeros(of: Set<(Tuple, Tuple)>, n: nat) -> Set<(Tuple, Tuple)> {
    Set::new(
        |p: (Tuple, Tuple)|
            exists|y: Tuple| #[trigger] of.contains((p.0, y)) && p.1 == y + zero_tuple(n),
    )
}

pub open spec fn zero_tuple(n: nat) -> Tuple {
    Seq::new(n, |i: int| 0int)
}

/// The points of a region.
pub open spec fn members(r: RegionModel, l: Leaves) -> Set<Tuple>
    decreases r,
{
    match r {
        RegionModel::Read(t) => (l.sets)(t),
        RegionModel::Both(a, b) => members(*a, l).intersect(members(*b, l)),
        RegionModel::At(a, p) => if (l.at)(p) {
            members(*a, l)
        } else {
            Set::empty()
        },
        RegionModel::Union(a, b) => members(*a, l).union(members(*b, l)),
        RegionModel::Domain(a) => starts(pairs(*a, l)),
    }
}

pub open spec fn inside(r: RegionModel, l: Leaves, x: Tuple) -> bool {
    members(r, l).contains(x)
}

/// The first tuple comes before the second one in lexicographic order.
pub open spec fn comes_before(a: Tuple, b: Tuple) -> bool
    decreases a.len(),
{
    a.len() > 0 && b.len() > 0 && (a[0] < b[0] || (a[0] == b[0] && comes_before(
        a.drop_first(),
        b.drop_first(),
    )))
}

/// The pairs of one relation followed by those of another.
pub open spec fn followed(
    a: Set<(Tuple, Tuple)>,
    b: Set<(Tuple, Tuple)>,
) -> Set<(Tuple, Tuple)> {
    Set::new(
        |p: (Tuple, Tuple)|
            exists|z: Tuple| #[trigger] a.contains((p.0, z)) && b.contains((z, p.1)),
    )
}

/// The first `n` entries of a tuple without those at the given places.
pub open spec fn kept_entries(x: Tuple, single: Seq<usize>, n: nat) -> Tuple
    decreases n,
{
    if n == 0 || n > x.len() {
        Seq::empty()
    } else {
        let before = kept_entries(x, single, (n - 1) as nat);
        if single.contains((n - 1) as usize) {
            before
        } else {
            before.push(x[n - 1])
        }
    }
}

/// The pairs of a relation followed `n + 1` times.
pub open spec fn repeated(a: Set<(Tuple, Tuple)>, n: nat) -> Set<(Tuple, Tuple)>
    decreases n,
{
    if n == 0 {
        a
    } else {
        followed(repeated(a, (n - 1) as nat), a)
    }
}

/// The pairs of a relation followed at least once.
pub open spec fn closure(a: Set<(Tuple, Tuple)>) -> Set<(Tuple, Tuple)> {
    Set::new(|p: (Tuple, Tuple)| exists|n: nat| #[trigger] repeated(a, n).contains(p))
}

/// The pairs that are related.
pub open spec fn pairs(r: RelationModel, l: Leaves) -> Set<(Tuple, Tuple)>
    decreases r,
{
    match r {
        RelationModel::Function(t) => (l.functions)(t),
        RelationModel::Reverse(a) => {
            let of = pairs(*a, l);
            Set::new(|p: (Tuple, Tuple)| of.contains((p.1, p.0)))
        },
        RelationModel::Compose(a, b) => followed(pairs(*a, l), pairs(*b, l)),
        RelationModel::Both(a, b) => pairs(*a, l).intersect(pairs(*b, l)),
        RelationModel::Schedule(i) => (l.schedules)(i),
        RelationModel::NotBefore => Set::new(
            |p: (Tuple, Tuple)| p.0 == p.1 || comes_before(p.1, p.0),
        ),
        RelationModel::Lanes(t, single) => {
            let points = (l.sets)(t);
            Set::new(
                |p: (Tuple, Tuple)|
                    points.contains(p.0) && p.1 == kept_entries(p.0, single, p.0.len()),
            )
        },
        RelationModel::Edge(i) => (l.edges)(i),
        RelationModel::Closure(a) => closure(pairs(*a, l)),
        RelationModel::Union(a, b) => pairs(*a, l).union(pairs(*b, l)),
        RelationModel::Within(a, r) => starting_in(pairs(*a, l), members(*r, l)),
        RelationModel::At(a, p) => if (l.at)(p) {
            pairs(*a, l)
        } else {
            Set::empty()
        },
        RelationModel::Written(i) => (l.written)(i),
        RelationModel::Identity => Set::new(|p: (Tuple, Tuple)| p.0 == p.1),
        RelationModel::Padded(a, n) => with_zeros(pairs(*a, l), n as nat),
        RelationModel::Sink(i) => (l.sinks)(i),
    }
}

pub open spec fn relates(r: RelationModel, l: Leaves, x: Tuple, y: Tuple) -> bool {
    pairs(r, l).contains((x, y))
}

pub open spec fn composed(a: RelationModel, b: RelationModel) -> RelationModel {
    RelationModel::Compose(Box::new(a), Box::new(b))
}

pub fn compose(a: Relation, b: Relation) -> (r: Relation)
    ensures
        r@ == composed(a@, b@),
{
    Relation::Compose(Box::new(a), Box::new(b))
}

pub fn both(a: Relation, b: Relation) -> (r: Relation)
    ensures
        r@ == RelationModel::Both(Box::new(a@), Box::new(b@)),
{
    Relation::Both(Box::new(a), Box::new(b))
}

pub fn reverse(a: Relation) -> (r: Relation)
    ensures
        r@ == RelationModel::Reverse(Box::new(a@)),
{
    Relation::Reverse(Box::new(a))
}

pub fn union(a: Relation, b: Relation) -> (r: Relation)
    ensures
        r@ == RelationModel::Union(Box::new(a@), Box::new(b@)),
{
    Relation::Union(Box::new(a), Box::new(b))
}

pub fn repeatedly(a: Relation) -> (r: Relation)
    ensures
        r@ == RelationModel::Closure(Box::new(a@)),
{
    Relation::Closure(Box::new(a))
}

pub fn within(a: Relation, region: Region) -> (r: Relation)
    ensures
        r@ == RelationModel::Within(Box::new(a@), Box::new(region@)),
{
    Relation::Within(Box::new(a), Box::new(region))
}

pub fn at(a: Relation, point: String) -> (r: Relation)
    ensures
        r@ == RelationModel::At(Box::new(a@), point@),
{
    Relation::At(Box::new(a), point)
}

pub fn region_at(a: Region, point: String) -> (r: Region)
    ensures
        r@ == RegionModel::At(Box::new(a@), point@),
{
    Region::At(Box::new(a), point)
}

/// The points that are in both regions.
pub fn in_both(a: Region, b: Region) -> (r: Region)
    ensures
        r@ == RegionModel::Both(Box::new(a@), Box::new(b@)),
{
    Region::Both(Box::new(a), Box::new(b))
}

/// The points that are in either region.
pub fn in_either(a: Region, b: Region) -> (r: Region)
    ensures
        r@ == RegionModel::Union(Box::new(a@), Box::new(b@)),
{
    Region::Union(Box::new(a), Box::new(b))
}

/// The points that a relation relates to something.
pub fn domain_of(a: Relation) -> (r: Region)
    ensures
        r@ == RegionModel::Domain(Box::new(a@)),
{
    Region::Domain(Box::new(a))
}

pub fn padded(a: Relation, n: u32) -> (r: Relation)
    ensures
        r@ == RelationModel::Padded(Box::new(a@), n),
{
    Relation::Padded(Box::new(a), n)
}

pub proof fn lemma_composed(a: RelationModel, b: RelationModel, l: Leaves, x: Tuple, y: Tuple)
    ensures
        relates(composed(a, b), l, x, y) <==> exists|z: Tuple| #[trigger]
            relates(a, l, x, z) && relates(b, l, z, y),
{
    let of_a = pairs(a, l);
    let of_b = pairs(b, l);
    assert(pairs(composed(a, b), l) == followed(of_a, of_b));
    if relates(composed(a, b), l, x, y) {
        let z = choose|z: Tuple| #[trigger] of_a.contains((x, z)) && of_b.contains((z, y));
        assert(relates(a, l, x, z) && relates(b, l, z, y));
    }
    if exists|z: Tuple| #[trigger] relates(a, l, x, z) && relates(b, l, z, y) {
        let z = choose|z: Tuple| #[trigger] relates(a, l, x, z) && relates(b, l, z, y);
        let p = (x, y);
        assert(of_a.contains((p.0, z)) && of_b.contains((z, p.1)));
        assert(followed(of_a, of_b).contains(p));
    }
}

/// Of two times of one width, the first comes before the second unless it is the same or later.
pub proof fn times_are_ordered(a: Tuple, b: Tuple)
    requires
        a.len() == b.len(),
    ensures
        comes_before(a, b) <==> !(a == b || comes_before(b, a)),
    decreases a.len(),
{
    if a.len() > 0 {
        times_are_ordered(a.drop_first(), b.drop_first());
        if a[0] == b[0] && a.drop_first() == b.drop_first() {
            assert(a =~= b) by {
                assert forall|i: int| 0 <= i < a.len() implies a[i] == b[i] by {
                    if i > 0 {
                        assert(a.drop_first()[i - 1] == b.drop_first()[i - 1]);
                    }
                }
            }
        }
    } else {
        assert(a =~= b);
    }
}

} // verus!
