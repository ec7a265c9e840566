//! The schedule of a system as text, for a user to look at.
use crate::error::{CodegenError, Failure, IslError, Result};
use crate::expr::{param_list, param_names_of};
use crate::ir::{System, Variable};
use crate::relation::{Region, RegionModel};
use crate::schedule::{
    build_schedule_for_names, built_schedule, shapes, Reading, Schedulable, ShapeModel,
};
use crate::stmt::{statements, statements_model, system_statements, Statement, StatementModel};
use vstd::prelude::*;

verus! {

pub open spec fn variable_shapes(v: Seq<Variable>) -> Seq<ShapeModel> {
    Seq::new(
        v.len(),
        |i: int|
            ShapeModel {
                name: v[i].name@,
                ndims: v[i].domain.ndims,
                domain: RegionModel::Read(v[i].domain.text@),
            },
    )
}

pub open spec fn statement_shapes(v: Seq<StatementModel>) -> Seq<ShapeModel> {
    Seq::new(
        v.len(),
        |i: int| ShapeModel { name: v[i].name, ndims: v[i].ndims, domain: v[i].domain },
    )
}

fn push_variables(v: &Vec<Variable>, out: &mut Vec<Schedulable>)
    ensures
        shapes(final(out)@) == shapes(old(out)@) + variable_shapes(v@),
{
    let ghost before = shapes(out@);
    let ghost target = variable_shapes(v@);
    let mut i: usize = 0;
    proof {
        assert(before + target.take(0) =~= before);
    }
    while i < v.len()
        invariant
            i <= v@.len(),
            target == variable_shapes(v@),
            shapes(out@) == before + target.take(i as int),
        decreases v@.len() - i,
    {
        let ghost sofar = shapes(out@);
        out.push(
            Schedulable {
                name: v[i].name.clone(),
                ndims: v[i].domain.ndims,
                domain: Region::Read(v[i].domain.text.clone()),
            },
        );
        proof {
            assert(shapes(out@) =~= sofar.push(target[i as int]));
            assert(target.take(i + 1) =~= target.take(i as int).push(target[i as int]));
            assert(shapes(out@) =~= before + target.take(i + 1));
        }
        i += 1;
    }
    proof {
        assert(target.take(v@.len() as int) =~= target);
    }
}

/// What a system has to schedule before its reductions are split: its outputs and its locals.
pub fn variables_to_schedule(system: &System) -> (r: Vec<Schedulable>)
    ensures
        shapes(r@) == variable_shapes(system.outputs@) + variable_shapes(system.locals@),
{
    let mut out: Vec<Schedulable> = Vec::new();
    proof {
        assert(shapes(out@) =~= Seq::<ShapeModel>::empty());
    }
    push_variables(&system.outputs, &mut out);
    push_variables(&system.locals, &mut out);
    proof {
        assert(shapes(out@) =~= variable_shapes(system.outputs@) + variable_shapes(
            system.locals@,
        ));
    }
    out
}

/// What statements there are to schedule.
pub fn statements_to_schedule(v: &Vec<Statement>) -> (r: Vec<Schedulable>)
    ensures
        shapes(r@) == statement_shapes(statements_model(v@)),
{
    let ghost target = statement_shapes(statements_model(v@));
    let mut out: Vec<Schedulable> = Vec::new();
    let mut i: usize = 0;
    proof {
        assert(shapes(out@) =~= target.take(0));
    }
    while i < v.len()
        invariant
            i <= v@.len(),
            target == statement_shapes(statements_model(v@)),
            shapes(out@) == target.take(i as int),
        decreases v@.len() - i,
    {
        let ghost sofar = shapes(out@);
        out.push(
            Schedulable {
                name: v[i].name.clone(),
                ndims: v[i].ndims,
                domain: v[i].domain.clone(),
            },
        );
        proof {
            assert(statements_model(v@)[i as int] == v@[i as int]@);
            assert(shapes(out@) =~= sofar.push(target[i as int]));
            assert(target.take(i + 1) =~= target.take(i as int).push(target[i as int]));
        }
        i += 1;
    }
    proof {
        assert(target.take(v@.len() as int) =~= target);
    }
    out
}

/// The text of a schedule, or why it could not be put together.
pub open spec fn rendered_text(
    rendered: core::result::Result<String, IslError>,
) -> core::result::Result<Seq<char>, Failure> {
    match rendered {
        Ok(t) => Ok(t@),
        Err(e) => Err(Failure::Isl(e.message@)),
    }
}

/// The schedule that a text gives the statements of a system: the statements are found first, and
/// the text is then held against them.
pub open spec fn described(
    found: core::result::Result<Seq<StatementModel>, Failure>,
    params: Seq<Seq<char>>,
    text: Seq<char>,
    reading: Reading,
    rendered: core::result::Result<String, IslError>,
) -> core::result::Result<Seq<char>, Failure> {
    match found {
        Err(f) => Err(f),
        Ok(all) => if all.len() == 0 {
            Ok("{\n}"@)
        } else {
            match built_schedule(params, statement_shapes(all), text, reading) {
                Err(f) => Err(f),
                Ok(_) => rendered_text(rendered),
            }
        },
    }
}

pub open spec fn rendering(r: Result<String>) -> core::result::Result<Seq<char>, Failure> {
    match r {
        Ok(t) => Ok(t@),
        Err(e) => Err(e@),
    }
}

fn copy_rendered(rendered: &core::result::Result<String, IslError>) -> (r: Result<String>)
    ensures
        rendering(r) == rendered_text(*rendered),
{
    match rendered {
        Ok(t) => Ok(t.clone()),
        Err(e) => Err(CodegenError::Isl(e.clone())),
    }
}

/// A system before its reductions are split. `rendered` is the text of the schedule of its
/// variables, each in the order of its own domain; a system without a body has none.
pub fn describe_system(system: &System, rendered: &core::result::Result<String, IslError>) -> (r:
    Result<String>)
    ensures
        rendering(r) == if system.bodies@.len() == 0 {
            Ok("{\n}"@)
        } else {
            rendered_text(*rendered)
        },
{
    if system.bodies.len() == 0 {
        return Ok("{\n}".to_owned());
    }
    copy_rendered(rendered)
}

/// A system whose reductions are split. `reading` is what reading the schedule text gave, and
/// `rendered` is the text of the schedule of all statements; a system without a statement has none.
pub fn describe_normalized_system(
    system: &System,
    text: &str,
    reading: &Reading,
    rendered: &core::result::Result<String, IslError>,
) -> (r: Result<String>)
    requires
        system.wf(),
    ensures
        rendering(r) == described(
            system_statements(*system),
            param_list(system.params@),
            text@,
            *reading,
            *rendered,
        ),
{
    match statements(system) {
        Err(e) => Err(e),
        Ok(found) => {
            proof {
                assert(statements_model(found@).len() == found@.len());
            }
            if found.len() == 0 {
                return Ok("{\n}".to_owned());
            }
            let params = param_names_of(&system.params);
            let all = statements_to_schedule(&found);
            match build_schedule_for_names(&params, &all, text, reading) {
                Err(e) => Err(e),
                Ok(_) => copy_rendered(rendered),
            }
        },
    }
}

} // verus!
