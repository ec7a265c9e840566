//! The sets and relations that the checks of linear values ask about, written down as terms.
use crate::domain::body_set;
use crate::linear_checks::{Held, HeldModel};
use crate::linear_reads::{access_models, Access, AccessModel, Step, StepModel};
use crate::polyhedral::{
    combine, combine_maps, combined, graph_of, kept_for, limited, same_points, side_of_map, MapLimit,
    MapModel, MapOp, MapSide, MapTerm, SetModel, SetOp, SetTerm, Table,
};
use crate::questions::term_view;
use crate::resolve::{param_set, variable_set, Resolver};
use crate::syntax::{Span, System, SystemBody};
use crate::text::str_eq;
use vstd::prelude::*;

verus! {

/// Where an argument of a call is defined, for the parameter values of the body.
pub open spec fn argument_set(s: System, body: SystemBody, node: usize) -> SetModel {
    combined(
        SetOp::IntersectParams,
        SetModel::Kept(Table::Domain, node),
        body_set(s, body),
        body.span,
    )
}

/// By which points a read goes: those where an argument of a call is defined, or those where a value
/// is needed.
pub open spec fn table_of(a: AccessModel) -> Table {
    if a.called {
        Table::Argument
    } else {
        Table::Context
    }
}

/// From the points of a dependence on to those that its function sends them to.
pub open spec fn step_relation(step: StepModel, table: Table, at: Span) -> MapModel {
    MapModel::Limit(
        MapLimit::IntersectDomain,
        Box::new(MapModel::Graph(step.function, at)),
        Box::new(SetModel::Kept(table, step.node)),
        at,
    )
}

/// The dependences one after the other, the outermost first.
pub open spec fn steps_relation(steps: Seq<StepModel>, table: Table, at: Span) -> MapModel
    decreases steps.len(),
{
    if steps.len() <= 1 {
        step_relation(steps[0], table, at)
    } else {
        MapModel::Combine(
            MapOp::ApplyRange,
            Box::new(steps_relation(steps.drop_last(), table, at)),
            Box::new(step_relation(steps.last(), table, at)),
            at,
        )
    }
}

/// What a read takes: from the points of the equation to those of the variable. A read without
/// dependences on the way takes the points where it stands.
#[verifier::opaque]
pub open spec fn access_relation_of(a: AccessModel) -> MapModel {
    if a.steps.len() == 0 {
        MapModel::Same(Box::new(SetModel::Kept(table_of(a), a.node)), a.at)
    } else {
        steps_relation(a.steps, table_of(a), a.at)
    }
}

fn one_step(step: &Step, table: Table, at: Span) -> (r: MapTerm)
    ensures
        r@ == step_relation(step@, table, at),
{
    let graph = graph_of(step.function.clone(), at);
    limited(MapLimit::IntersectDomain, graph, kept_for(table, step.node), at)
}

/// What a read takes.
pub fn access_relation(a: &Access) -> (r: MapTerm)
    ensures
        r@ == access_relation_of(a@),
{
    let table = if a.called {
        Table::Argument
    } else {
        Table::Context
    };
    let at = a.at;
    proof {
        reveal(access_relation_of);
    }
    if a.steps.len() == 0 {
        return same_points(kept_for(table, a.node), at);
    }
    let steps = &a.steps;
    let ghost models = a@.steps;
    let mut out = one_step(&steps[0], table, at);
    let mut i: usize = 1;
    proof {
        assert(models.take(1)[0] == models[0]);
    }
    while i < steps.len()
        invariant
            1 <= i <= steps@.len(),
            steps@ == a.steps@,
            models == a@.steps,
            models.len() == steps@.len(),
            out@ == steps_relation(models.take(i as int), table, at),
        decreases steps@.len() - i,
    {
        proof {
            let t = models.take(i + 1);
            assert(t.drop_last() =~= models.take(i as int));
            assert(t.last() == steps@[i as int]@);
        }
        out = combine_maps(MapOp::ApplyRange, out, one_step(&steps[i], table, at), at);
        i += 1;
    }
    proof {
        assert(models.take(steps@.len() as int) =~= models);
    }
    out
}

/// The points of the variable that a read takes.
pub open spec fn range_of(a: AccessModel) -> SetModel {
    SetModel::Side(MapSide::Range, Box::new(access_relation_of(a)), a.at)
}

/// The points of the variable that a read takes.
pub fn access_range(a: &Access) -> (r: SetTerm)
    ensures
        r@ == range_of(a@),
{
    side_of_map(MapSide::Range, access_relation(a), a.at)
}

/// The points of a variable that the first `n` reads take, together.
pub open spec fn taken_by_first(all: Seq<AccessModel>, name: Seq<char>, at: Span, n: nat) -> Option<
    SetModel,
>
    decreases n,
{
    if n == 0 || n > all.len() {
        None
    } else {
        let before = taken_by_first(all, name, at, (n - 1) as nat);
        if all[n - 1].variable != name {
            before
        } else {
            match before {
                None => Some(range_of(all[n - 1])),
                Some(b) => Some(combined(SetOp::Union, b, range_of(all[n - 1]), at)),
            }
        }
    }
}

/// The points of a variable that the first `n` reads take, together.
pub fn taken_by(all: &Vec<Access>, name: &str, at: Span, n: usize) -> (r: Option<SetTerm>)
    requires
        n <= all@.len(),
    ensures
        term_view(r) == taken_by_first(access_models(all@), name@, at, n as nat),
{
    let ghost models = access_models(all@);
    let mut out: Option<SetTerm> = None;
    let mut i: usize = 0;
    while i < n
        invariant
            i <= n <= all@.len(),
            models == access_models(all@),
            term_view(out) == taken_by_first(models, name@, at, i as nat),
        decreases n - i,
    {
        proof {
            assert(models[i as int] == all@[i as int]@);
        }
        if str_eq(all[i].variable.as_str(), name) {
            let own = access_range(&all[i]);
            out = match out {
                None => Some(own),
                Some(b) => Some(combine(SetOp::Union, b, own, at)),
            };
        }
        i += 1;
    }
    out
}

/// What the read at place `k` takes that an earlier read of the same variable takes too.
pub open spec fn read_overlap_set(all: Seq<AccessModel>, k: int) -> Option<SetModel> {
    match taken_by_first(all, all[k].variable, all[k].at, k as nat) {
        None => None,
        Some(b) => Some(combined(SetOp::Intersect, range_of(all[k]), b, all[k].at)),
    }
}

/// What the read at place `k` takes that an earlier read of the same variable takes too: it has to
/// be empty.
pub fn read_overlap(all: &Vec<Access>, k: usize) -> (r: Option<SetTerm>)
    requires
        k < all@.len(),
    ensures
        term_view(r) == read_overlap_set(access_models(all@), k as int),
{
    proof {
        assert(access_models(all@)[k as int] == all@[k as int]@);
    }
    let a = &all[k];
    match taken_by(all, a.variable.as_str(), a.at, k) {
        None => None,
        Some(b) => Some(combine(SetOp::Intersect, access_range(a), b, a.at)),
    }
}

/// The points of a variable of the system.
pub open spec fn held_set(s: System, h: HeldModel) -> SetModel {
    combined(
        SetOp::IntersectParams,
        variable_set(s, h.name, Seq::empty()),
        param_set(s),
        h.at,
    )
}

/// The points of a variable that no read takes.
pub open spec fn left_over_set(s: System, h: HeldModel, all: Seq<AccessModel>) -> SetModel {
    match taken_by_first(all, h.name, h.at, all.len()) {
        None => held_set(s, h),
        Some(taken) => combined(SetOp::Subtract, held_set(s, h), taken, h.at),
    }
}

impl<'a> Resolver<'a> {
    /// Where an argument of a call is defined, for the parameter values of the body.
    pub fn argument_domain(&self, body: &SystemBody, node: usize) -> (r: SetTerm)
        requires
            self.wf(),
        ensures
            r@ == argument_set(*self.system, *body, node),
    {
        combine(
            SetOp::IntersectParams,
            kept_for(Table::Domain, node),
            self.system_body_domain(body),
            body.span,
        )
    }

    /// The points of a variable that no read takes: there must be none.
    pub fn left_over(&self, h: &Held, all: &Vec<Access>) -> (r: SetTerm)
        requires
            self.wf(),
        ensures
            r@ == left_over_set(*self.system, h@, access_models(all@)),
    {
        let start = combine(
            SetOp::IntersectParams,
            self.variable_domain(h.name.as_str()),
            self.param_domain(),
            h.at,
        );
        match taken_by(all, h.name.as_str(), h.at, all.len()) {
            None => start,
            Some(taken) => combine(SetOp::Subtract, start, taken, h.at),
        }
    }
}

pub open spec fn map_view(t: Option<MapTerm>) -> Option<MapModel> {
    match t {
        Some(x) => Some(x@),
        None => None,
    }
}

/// What the first `n` reads take of a variable, together.
pub open spec fn side_of_first(all: Seq<AccessModel>, name: Seq<char>, at: Span, n: nat) -> Option<
    MapModel,
>
    decreases n,
{
    if n == 0 || n > all.len() {
        None
    } else {
        let before = side_of_first(all, name, at, (n - 1) as nat);
        let own = access_relation_of(all[n - 1]);
        if all[n - 1].variable != name {
            before
        } else {
            match before {
                None => Some(own),
                Some(b) => Some(MapModel::Combine(MapOp::Union, Box::new(b), Box::new(own), at)),
            }
        }
    }
}

/// What the reads of one branch of a choice take of a variable, together. The two branches have to
/// take the same.
pub fn branch_side(all: &Vec<Access>, name: &str, at: Span) -> (r: Option<MapTerm>)
    ensures
        map_view(r) == side_of_first(access_models(all@), name@, at, all@.len()),
{
    let ghost models = access_models(all@);
    let mut out: Option<MapTerm> = None;
    let mut i: usize = 0;
    while i < all.len()
        invariant
            i <= all@.len(),
            models == access_models(all@),
            map_view(out) == side_of_first(models, name@, at, i as nat),
        decreases all@.len() - i,
    {
        proof {
            assert(models[i as int] == all@[i as int]@);
        }
        if str_eq(all[i].variable.as_str(), name) {
            let own = access_relation(&all[i]);
            out = match out {
                None => Some(own),
                Some(b) => Some(combine_maps(MapOp::Union, b, own, at)),
            };
        }
        i += 1;
    }
    out
}

/// What two reads take at one point.
pub open spec fn common_of(a: AccessModel, b: AccessModel) -> MapModel {
    MapModel::Combine(
        MapOp::Intersect,
        Box::new(access_relation_of(a)),
        Box::new(access_relation_of(b)),
        a.at,
    )
}

/// What two reads of one variable, as operands of one call, take at one point: it has to be empty.
pub fn common_part(a: &Access, b: &Access) -> (r: MapTerm)
    ensures
        r@ == common_of(a@, b@),
{
    combine_maps(MapOp::Intersect, access_relation(a), access_relation(b), a.at)
}

} // verus!
