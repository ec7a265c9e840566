//! Fixing the parameters of a scheduled program to values.
use crate::error::{CodegenError, Failure, IslError, Result};
use crate::scheduled_ir::ScheduledProgram;
use crate::relation::{
    region_models, relation_models, Region, RegionModel, Relation, RelationModel,
};
use crate::stmt::{statements_model, Statement, StatementModel};
use crate::text::{
    before, cat3, cat5, comes_before, dec, dec_i64, dec_int, dec_usize, join, joined, push_text,
    str_eq, views,
};
use vstd::prelude::*;

verus! {

/// Values for parameters, in the order of their names, one for each name.
#[derive(Debug)]
pub struct ParameterBindings {
    pub entries: Vec<(String, i64)>,
}

pub open spec fn binding_views(v: Seq<(String, i64)>) -> Seq<(Seq<char>, int)> {
    Seq::new(v.len(), |i: int| (v[i].0@, v[i].1 as int))
}

/// The entries with a value set; an earlier value of the same name is replaced.
pub open spec fn with_binding(s: Seq<(Seq<char>, int)>, name: Seq<char>, value: int) -> Seq<
    (Seq<char>, int),
>
    decreases s.len(),
{
    if s.len() == 0 {
        seq![(name, value)]
    } else if s.last().0 == name {
        s.drop_last().push((name, value))
    } else if before(s.last().0, name) {
        s.push((name, value))
    } else {
        with_binding(s.drop_last(), name, value).push(s.last())
    }
}

/// The value of a name.
pub open spec fn bound_value(s: Seq<(Seq<char>, int)>, name: Seq<char>) -> Option<int>
    decreases s.len(),
{
    if s.len() == 0 {
        None
    } else if s.last().0 == name {
        Some(s.last().1)
    } else {
        bound_value(s.drop_last(), name)
    }
}

impl View for ParameterBindings {
    type V = Seq<(Seq<char>, int)>;

    open spec fn view(&self) -> Seq<(Seq<char>, int)> {
        binding_views(self.entries@)
    }
}

impl Clone for ParameterBindings {
    fn clone(&self) -> (r: ParameterBindings)
        ensures
            r@ == self@,
    {
        let mut entries: Vec<(String, i64)> = Vec::new();
        let mut i: usize = 0;
        proof {
            assert(binding_views(entries@) =~= self@.take(0));
        }
        while i < self.entries.len()
            invariant
                i <= self.entries@.len(),
                binding_views(entries@) == self@.take(i as int),
            decreases self.entries@.len() - i,
        {
            let ghost sofar = binding_views(entries@);
            entries.push((self.entries[i].0.clone(), self.entries[i].1));
            proof {
                assert(binding_views(entries@) =~= sofar.push(self@[i as int]));
                assert(self@.take(i + 1) =~= self@.take(i as int).push(self@[i as int]));
            }
            i += 1;
        }
        proof {
            assert(self@.take(i as int) =~= self@);
        }
        ParameterBindings { entries }
    }
}

impl ParameterBindings {
    pub fn new() -> (r: ParameterBindings)
        ensures
            r@ == Seq::<(Seq<char>, int)>::empty(),
    {
        let entries: Vec<(String, i64)> = Vec::new();
        proof {
            assert(binding_views(entries@) =~= Seq::<(Seq<char>, int)>::empty());
        }
        ParameterBindings { entries }
    }

    /// Sets the value of a name.
    pub fn insert(&mut self, name: &str, value: i64)
        ensures
            final(self)@ == with_binding(old(self)@, name@, value as int),
    {
        let ghost all = self@;
        let mut i: usize = self.entries.len();
        proof {
            assert(all.take(i as int) =~= all);
            assert(all.skip(i as int) =~= Seq::empty());
            assert(with_binding(all, name@, value as int) + Seq::<(Seq<char>, int)>::empty()
                =~= with_binding(all, name@, value as int));
        }
        while i > 0 && !str_eq(self.entries[i - 1].0.as_str(), name) && !comes_before(
            self.entries[i - 1].0.as_str(),
            name,
        )
            invariant
                i <= self.entries@.len(),
                all == self@,
                *self == *old(self),
                with_binding(all, name@, value as int) == with_binding(
                    all.take(i as int),
                    name@,
                    value as int,
                ) + all.skip(i as int),
            decreases i,
        {
            i -= 1;
            proof {
                assert(all.take(i + 1).drop_last() =~= all.take(i as int));
                assert(all.take(i + 1).last() == all[i as int]);
                assert(with_binding(all.take(i as int), name@, value as int).push(all[i as int])
                    + all.skip(i + 1) =~= with_binding(all.take(i as int), name@, value as int)
                    + all.skip(i as int));
            }
        }
        proof {
            if i > 0 {
                assert(all.take(i as int).last() == all[i - 1]);
                assert(all[i - 1].0 == self.entries@[i - 1].0@);
            }
        }
        if i > 0 && str_eq(self.entries[i - 1].0.as_str(), name) {
            self.entries.set(i - 1, (name.to_owned(), value));
            proof {
                assert(self@ =~= with_binding(all.take(i as int), name@, value as int) + all.skip(
                    i as int,
                ));
            }
        } else {
            self.entries.insert(i, (name.to_owned(), value));
            proof {
                assert(self@ =~= with_binding(all.take(i as int), name@, value as int) + all.skip(
                    i as int,
                ));
            }
        }
    }

    pub fn get(&self, name: &str) -> (r: Option<i64>)
        ensures
            match r {
                Some(n) => bound_value(self@, name@) == Some(n as int),
                None => bound_value(self@, name@) is None,
            },
    {
        let mut i: usize = self.entries.len();
        proof {
            assert(self@.take(i as int) =~= self@);
        }
        while i > 0
            invariant
                i <= self.entries@.len(),
                bound_value(self@, name@) == bound_value(self@.take(i as int), name@),
            decreases i,
        {
            proof {
                assert(self@.take(i as int).last() == self@[i - 1]);
                assert(self@.take(i as int).drop_last() =~= self@.take(i - 1));
            }
            i -= 1;
            if str_eq(self.entries[i].0.as_str(), name) {
                return Some(self.entries[i].1);
            }
        }
        None
    }
}

/// The place of the first parameter from `k` on that has no name.
pub open spec fn first_unnamed(params: Seq<Option<String>>, k: int) -> Option<int>
    decreases params.len() - k,
{
    if k < 0 || k >= params.len() {
        None
    } else if params[k] is None {
        Some(k)
    } else {
        first_unnamed(params, k + 1)
    }
}

pub open spec fn known_names(params: Seq<Option<String>>) -> Seq<Seq<char>> {
    Seq::new(
        params.len(),
        |i: int|
            match params[i] {
                Some(n) => n@,
                None => Seq::empty(),
            },
    )
}

/// The first binding from place `k` on of something that is not a parameter.
pub open spec fn first_unknown(
    names: Seq<Seq<char>>,
    bindings: Seq<(Seq<char>, int)>,
    k: int,
) -> Option<int>
    decreases bindings.len() - k,
{
    if k < 0 || k >= bindings.len() {
        None
    } else if !names.contains(bindings[k].0) {
        Some(k)
    } else {
        first_unknown(names, bindings, k + 1)
    }
}

/// The first parameter from place `k` on that has no value.
pub open spec fn first_missing(
    names: Seq<Seq<char>>,
    bindings: Seq<(Seq<char>, int)>,
    k: int,
) -> Option<int>
    decreases names.len() - k,
{
    if k < 0 || k >= names.len() {
        None
    } else if bound_value(bindings, names[k]) is None {
        Some(k)
    } else {
        first_missing(names, bindings, k + 1)
    }
}

pub open spec fn value_of(bindings: Seq<(Seq<char>, int)>, name: Seq<char>) -> int {
    match bound_value(bindings, name) {
        Some(n) => n,
        None => 0,
    }
}

pub open spec fn constraints(names: Seq<Seq<char>>, bindings: Seq<(Seq<char>, int)>) -> Seq<
    Seq<char>,
> {
    names.map_values(|n: Seq<char>| n + " = "@ + dec_int(value_of(bindings, n)))
}

/// The one point of the parameter space that the bindings pick.
pub open spec fn point_text(names: Seq<Seq<char>>, bindings: Seq<(Seq<char>, int)>) -> Seq<char> {
    if names.len() == 0 {
        "{ : }"@
    } else {
        "["@ + joined(names, ","@) + "] -> { : "@ + joined(constraints(names, bindings), " and "@)
            + " }"@
    }
}

pub type PointOutcome = core::result::Result<Seq<char>, Failure>;

/// The point that the bindings pick, where every parameter has a name and a value, and nothing
/// else has one.
pub open spec fn parameter_point(
    params: Seq<Option<String>>,
    bindings: Seq<(Seq<char>, int)>,
) -> PointOutcome {
    let names = known_names(params);
    match first_unnamed(params, 0) {
        Some(k) => Err(
            Failure::Specialization(
                "parameter at position "@ + dec(k as nat) + " has no name"@,
            ),
        ),
        None => match first_unknown(names, bindings, 0) {
            Some(k) => Err(Failure::Specialization("unknown parameter '"@ + bindings[k].0 + "'"@)),
            None => match first_missing(names, bindings, 0) {
                Some(k) => Err(Failure::Specialization("missing parameter '"@ + names[k] + "'"@)),
                None => Ok(point_text(names, bindings)),
            },
        },
    }
}

fn collect_names(params: &Vec<Option<String>>) -> (r: Result<Vec<String>>)
    ensures
        match r {
            Ok(v) => first_unnamed(params@, 0) is None && views(v@) == known_names(params@),
            Err(e) => first_unnamed(params@, 0) matches Some(k) && e@ == Failure::Specialization(
                "parameter at position "@ + dec(k as nat) + " has no name"@,
            ),
        },
{
    let mut out: Vec<String> = Vec::new();
    let mut i: usize = 0;
    while i < params.len()
        invariant
            i <= params@.len(),
            first_unnamed(params@, 0) == first_unnamed(params@, i as int),
            views(out@) =~= known_names(params@).take(i as int),
        decreases params@.len() - i,
    {
        match &params[i] {
            Some(n) => push_text(&mut out, n.clone()),
            None => {
                let position = dec_usize(i);
                return Err(
                    CodegenError::Specialization(
                        cat3("parameter at position ", position.as_str(), " has no name"),
                    ),
                );
            },
        }
        i += 1;
    }
    proof {
        assert(known_names(params@).take(params@.len() as int) =~= known_names(params@));
    }
    Ok(out)
}

fn check_unknown(names: &Vec<String>, bindings: &ParameterBindings) -> (r: Result<()>)
    ensures
        match r {
            Ok(()) => first_unknown(views(names@), bindings@, 0) is None,
            Err(e) => first_unknown(views(names@), bindings@, 0) matches Some(k) && e@
                == Failure::Specialization("unknown parameter '"@ + bindings@[k].0 + "'"@),
        },
{
    let mut k: usize = 0;
    while k < bindings.entries.len()
        invariant
            k <= bindings.entries@.len(),
            first_unknown(views(names@), bindings@, 0) == first_unknown(
                views(names@),
                bindings@,
                k as int,
            ),
        decreases bindings.entries@.len() - k,
    {
        let name = &bindings.entries[k].0;
        if !crate::context_names::has_name(names, name.as_str()) {
            return Err(
                CodegenError::Specialization(cat3("unknown parameter '", name.as_str(), "'")),
            );
        }
        k += 1;
    }
    Ok(())
}

fn check_missing(names: &Vec<String>, bindings: &ParameterBindings) -> (r: Result<()>)
    ensures
        match r {
            Ok(()) => first_missing(views(names@), bindings@, 0) is None,
            Err(e) => first_missing(views(names@), bindings@, 0) matches Some(k) && e@
                == Failure::Specialization("missing parameter '"@ + views(names@)[k] + "'"@),
        },
{
    let mut k: usize = 0;
    while k < names.len()
        invariant
            k <= names@.len(),
            first_missing(views(names@), bindings@, 0) == first_missing(
                views(names@),
                bindings@,
                k as int,
            ),
        decreases names@.len() - k,
    {
        proof {
            assert(views(names@)[k as int] == names@[k as int]@);
        }
        if bindings.get(names[k].as_str()).is_none() {
            return Err(
                CodegenError::Specialization(
                    cat3("missing parameter '", names[k].as_str(), "'"),
                ),
            );
        }
        k += 1;
    }
    Ok(())
}

fn write_point(names: &Vec<String>, bindings: &ParameterBindings) -> (r: String)
    ensures
        r@ == point_text(views(names@), bindings@),
{
    proof {
        assert(views(names@).len() == names@.len());
    }
    if names.len() == 0 {
        return "{ : }".to_owned();
    }
    let ghost target = constraints(views(names@), bindings@);
    let mut parts: Vec<String> = Vec::new();
    let mut i: usize = 0;
    proof {
        assert(views(parts@) =~= target.take(0));
    }
    while i < names.len()
        invariant
            i <= names@.len(),
            target == constraints(views(names@), bindings@),
            views(parts@) == target.take(i as int),
        decreases names@.len() - i,
    {
        proof {
            assert(views(names@)[i as int] == names@[i as int]@);
            assert(target.take(i + 1) =~= target.take(i as int).push(target[i as int]));
        }
        let value: i64 = match bindings.get(names[i].as_str()) {
            Some(n) => n,
            None => 0,
        };
        let numeral = dec_i64(value);
        push_text(&mut parts, cat3(names[i].as_str(), " = ", numeral.as_str()));
        i += 1;
    }
    proof {
        assert(target.take(names@.len() as int) =~= target);
    }
    let list = join(names, ",");
    let all = join(&parts, " and ");
    cat5("[", list.as_str(), "] -> { : ", all.as_str(), " }")
}

/// The point of the parameter space that the bindings pick.
pub fn find_point(params: &Vec<Option<String>>, bindings: &ParameterBindings) -> (r: Result<String>)
    ensures
        match r {
            Ok(t) => parameter_point(params@, bindings@) == Ok::<Seq<char>, Failure>(t@),
            Err(e) => parameter_point(params@, bindings@) == Err::<Seq<char>, Failure>(e@),
        },
{
    let names = match collect_names(params) {
        Ok(v) => v,
        Err(e) => return Err(e),
    };
    match check_unknown(&names, bindings) {
        Ok(()) => {},
        Err(e) => return Err(e),
    }
    match check_missing(&names, bindings) {
        Ok(()) => {},
        Err(e) => return Err(e),
    }
    Ok(write_point(&names, bindings))
}

/// What a system is specialized to, or why it cannot be. `inside` says whether the point lies in
/// the parameter domain.
pub open spec fn specialized(
    params: Seq<Option<String>>,
    bindings: Seq<(Seq<char>, int)>,
    inside: core::result::Result<bool, IslError>,
) -> PointOutcome {
    match parameter_point(params, bindings) {
        Err(f) => Err(f),
        Ok(point) => match inside {
            Err(e) => Err(Failure::Isl(e.message@)),
            Ok(yes) => if yes {
                Ok(point)
            } else {
                Err(Failure::Specialization("bindings are outside the parameter domain"@))
            },
        },
    }
}

/// A scheduled program with its parameters fixed. `parameter_point` is the point that its domains
/// and its schedule are kept to.
pub struct SpecializedProgram<'a> {
    pub program: &'a ScheduledProgram<'a>,
    pub bindings: ParameterBindings,
    pub parameter_point: String,
    /// The instances of each statement.
    pub statement_domains: Vec<Region>,
    /// The schedule of each statement.
    pub schedule: Vec<Relation>,
}

/// The instances of each statement at a point.
pub open spec fn domains_at(all: Seq<StatementModel>, point: Seq<char>) -> Seq<RegionModel> {
    Seq::new(all.len(), |i: int| RegionModel::At(Box::new(all[i].domain), point))
}

/// The schedule of each of `n` statements at a point.
pub open spec fn schedules_at(n: nat, point: Seq<char>) -> Seq<RelationModel> {
    Seq::new(
        n,
        |i: int| RelationModel::At(Box::new(RelationModel::Schedule(i as usize)), point),
    )
}

fn keep_domains(all: &Vec<Statement>, point: &String) -> (r: Vec<Region>)
    ensures
        region_models(r@) == domains_at(statements_model(all@), point@),
{
    let mut out: Vec<Region> = Vec::new();
    let ghost target = domains_at(statements_model(all@), point@);
    let mut i: usize = 0;
    proof {
        assert(region_models(out@) =~= target.take(0));
    }
    while i < all.len()
        invariant
            i <= all@.len(),
            target == domains_at(statements_model(all@), point@),
            region_models(out@) == target.take(i as int),
        decreases all@.len() - i,
    {
        let ghost before = region_models(out@);
        proof {
            assert(before.len() == out@.len());
        }
        let domain = all[i].domain.clone();
        out.push(Region::At(Box::new(domain), point.clone()));
        proof {
            assert(target[i as int] == out@[i as int]@);
            assert(region_models(out@) =~= before.push(out@[i as int]@));
            assert(target.take(i + 1) =~= target.take(i as int).push(target[i as int]));
        }
        i += 1;
    }
    proof {
        assert(target.take(i as int) =~= target);
    }
    out
}

fn keep_schedules(n: usize, point: &String) -> (r: Vec<Relation>)
    ensures
        relation_models(r@) == schedules_at(n as nat, point@),
{
    let mut out: Vec<Relation> = Vec::new();
    let ghost target = schedules_at(n as nat, point@);
    let mut i: usize = 0;
    proof {
        assert(relation_models(out@) =~= target.take(0));
    }
    while i < n
        invariant
            i <= n,
            target == schedules_at(n as nat, point@),
            relation_models(out@) == target.take(i as int),
        decreases n - i,
    {
        let ghost before = relation_models(out@);
        proof {
            assert(before.len() == out@.len());
        }
        out.push(Relation::At(Box::new(Relation::Schedule(i)), point.clone()));
        proof {
            let own = Relation::Schedule(i);
            assert(own@ == RelationModel::Schedule(i));
            assert(target[i as int] == out@[i as int]@);
            assert(relation_models(out@) =~= before.push(out@[i as int]@));
            assert(target.take(i + 1) =~= target.take(i as int).push(target[i as int]));
        }
        i += 1;
    }
    proof {
        assert(target.take(i as int) =~= target);
    }
    out
}

/// Fixes the parameters of a program.
pub fn apply<'a>(
    program: &'a ScheduledProgram<'a>,
    bindings: &ParameterBindings,
    inside: &core::result::Result<bool, IslError>,
) -> (r: Result<SpecializedProgram<'a>>)
    ensures
        match specialized(program.system.params@, bindings@, *inside) {
            Ok(point) => r matches Ok(s) && s.program == program && s.bindings@ == bindings@
                && s.parameter_point@ == point && region_models(s.statement_domains@) == domains_at(
                statements_model(program.statements@),
                point,
            ) && relation_models(s.schedule@) == schedules_at(program.statements@.len(), point),
            Err(f) => r matches Err(e) && e@ == f,
        },
{
    match find_point(&program.system.params, bindings) {
        Err(e) => Err(e),
        Ok(point) => match inside {
            Err(e) => Err(CodegenError::Isl(e.clone())),
            Ok(yes) => if *yes {
                let statement_domains = keep_domains(&program.statements, &point);
                let schedule = keep_schedules(program.statements.len(), &point);
                Ok(
                    SpecializedProgram {
                        program,
                        bindings: bindings.clone(),
                        parameter_point: point,
                        statement_domains,
                        schedule,
                    },
                )
            } else {
                Err(
                    CodegenError::Specialization(
                        "bindings are outside the parameter domain".to_owned(),
                    ),
                )
            },
        },
    }
}

/// Setting a value makes it the value of its name, and leaves every other name's as it was.
pub proof fn a_binding_holds_until_replaced(
    s: Seq<(Seq<char>, int)>,
    name: Seq<char>,
    value: int,
    other: Seq<char>,
)
    ensures
        bound_value(with_binding(s, name, value), other) == if other == name {
            Some(value)
        } else {
            bound_value(s, other)
        },
    decreases s.len(),
{
    let t = with_binding(s, name, value);
    if s.len() == 0 {
        assert(t.last() == (name, value));
        assert(t.drop_last() =~= s);
    } else if s.last().0 == name {
        assert(t.last() == (name, value));
        assert(t.drop_last() =~= s.drop_last());
    } else if before(s.last().0, name) {
        assert(t.last() == (name, value));
        assert(t.drop_last() =~= s);
    } else {
        assert(t.last() == s.last());
        assert(t.drop_last() =~= with_binding(s.drop_last(), name, value));
        a_binding_holds_until_replaced(s.drop_last(), name, value, other);
    }
}

proof fn lemma_first_unnamed(params: Seq<Option<String>>, k: int)
    requires
        0 <= k <= params.len(),
    ensures
        first_unnamed(params, k) is None <==> forall|i: int|
            k <= i < params.len() ==> (#[trigger] params[i]) is Some,
    decreases params.len() - k,
{
    if k < params.len() {
        lemma_first_unnamed(params, k + 1);
    }
}

proof fn lemma_first_unknown(names: Seq<Seq<char>>, bindings: Seq<(Seq<char>, int)>, k: int)
    requires
        0 <= k <= bindings.len(),
    ensures
        first_unknown(names, bindings, k) is None <==> forall|i: int|
            k <= i < bindings.len() ==> names.contains((#[trigger] bindings[i]).0),
    decreases bindings.len() - k,
{
    if k < bindings.len() {
        lemma_first_unknown(names, bindings, k + 1);
    }
}

proof fn lemma_first_missing(names: Seq<Seq<char>>, bindings: Seq<(Seq<char>, int)>, k: int)
    requires
        0 <= k <= names.len(),
    ensures
        first_missing(names, bindings, k) is None <==> forall|i: int|
            k <= i < names.len() ==> is_bound(bindings, #[trigger] names[i]),
    decreases names.len() - k,
{
    if k < names.len() {
        lemma_bound(bindings, names[k]);
        lemma_first_missing(names, bindings, k + 1);
    }
}

/// Some binding gives the name a value.
pub open spec fn is_bound(bindings: Seq<(Seq<char>, int)>, name: Seq<char>) -> bool {
    exists|i: int| 0 <= i < bindings.len() && (#[trigger] bindings[i]).0 == name
}

proof fn lemma_bound(bindings: Seq<(Seq<char>, int)>, name: Seq<char>)
    ensures
        bound_value(bindings, name) is Some <==> is_bound(bindings, name),
        bound_value(bindings, name) matches Some(n) ==> bindings.contains((name, n)),
    decreases bindings.len(),
{
    if bindings.len() > 0 {
        let rest = bindings.drop_last();
        lemma_bound(rest, name);
        assert(bindings[bindings.len() - 1] == bindings.last());
        if is_bound(rest, name) {
            let i = choose|i: int| 0 <= i < rest.len() && (#[trigger] rest[i]).0 == name;
            assert(bindings[i].0 == name);
        }
        if bindings.last().0 != name && is_bound(bindings, name) {
            let i = choose|i: int| 0 <= i < bindings.len() && (#[trigger] bindings[i]).0 == name;
            assert(rest[i].0 == name);
        }
        if bindings.last().0 != name && bound_value(bindings, name) is Some {
            let n = bound_value(bindings, name)->0;
            let i = choose|i: int| 0 <= i < rest.len() && rest[i] == (name, n);
            assert(bindings[i] == (name, n));
        }
    }
}

/// Parameters can be fixed exactly when each has a name and a value, nothing else has a value, and
/// the point lies in the parameter domain.
pub proof fn parameters_are_fixed_by_full_bindings_only(
    params: Seq<Option<String>>,
    bindings: Seq<(Seq<char>, int)>,
    inside: core::result::Result<bool, IslError>,
)
    ensures
        specialized(params, bindings, inside) is Ok <==> {
            &&& forall|i: int| 0 <= i < params.len() ==> (#[trigger] params[i]) is Some
            &&& forall|i: int|
                0 <= i < params.len() ==> is_bound(bindings, (#[trigger] params[i])->0@)
            &&& forall|k: int|
                0 <= k < bindings.len() ==> exists|i: int|
                    0 <= i < params.len() && (#[trigger] params[i])->0@ == (
                    #[trigger] bindings[k]).0
            &&& inside == Ok::<bool, IslError>(true)
        },
{
    let names = known_names(params);
    lemma_first_unnamed(params, 0);
    lemma_first_unknown(names, bindings, 0);
    lemma_first_missing(names, bindings, 0);
    if forall|i: int| 0 <= i < params.len() ==> (#[trigger] params[i]) is Some {
        assert forall|i: int| 0 <= i < params.len() implies #[trigger] names[i] == params[i]->0@ by {}
        assert forall|n: Seq<char>| #[trigger] names.contains(n) <==> exists|i: int|
            0 <= i < params.len() && (#[trigger] params[i])->0@ == n by {
            if names.contains(n) {
                let i = choose|i: int| 0 <= i < names.len() && names[i] == n;
                assert(params[i]->0@ == n);
            }
            if exists|i: int| 0 <= i < params.len() && (#[trigger] params[i])->0@ == n {
                let i = choose|i: int| 0 <= i < params.len() && (#[trigger] params[i])->0@ == n;
                assert(names[i] == n);
            }
        }
        assert((forall|i: int| 0 <= i < names.len() ==> is_bound(bindings, #[trigger] names[i]))
            <==> forall|i: int|
            0 <= i < params.len() ==> is_bound(bindings, (#[trigger] params[i])->0@)) by {
            if forall|i: int| 0 <= i < names.len() ==> is_bound(bindings, #[trigger] names[i]) {
                assert forall|i: int| 0 <= i < params.len() implies is_bound(
                    bindings,
                    (#[trigger] params[i])->0@,
                ) by {
                    assert(is_bound(bindings, names[i]));
                }
            }
        }
    }
}

/// The point fixes every parameter, in order and by its name, to the value that it is bound to.
pub proof fn a_point_fixes_every_parameter(
    names: Seq<Seq<char>>,
    bindings: Seq<(Seq<char>, int)>,
    k: int,
)
    requires
        0 <= k < names.len(),
        is_bound(bindings, names[k]),
    ensures
        point_text(names, bindings) == "["@ + joined(names, ","@) + "] -> { : "@ + joined(
            constraints(names, bindings),
            " and "@,
        ) + " }"@,
        constraints(names, bindings).len() == names.len(),
        exists|n: int| #[trigger]
            bindings.contains((names[k], n)) && constraints(names, bindings)[k] == names[k]
                + " = "@ + dec_int(n),
{
    lemma_bound(bindings, names[k]);
    let n = bound_value(bindings, names[k])->0;
    assert(bindings.contains((names[k], n)));
}

} // verus!
