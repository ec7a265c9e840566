//! Whether a system says everything that it has to say, and nothing twice.
//!
//! Most of these checks compare polyhedral sets. What is compared is given by the terms of
//! [`crate::domain`]; what came out of the comparisons is an argument here, and what is reported
//! is decided here.
use crate::context_names::has_name;
use crate::diagnostic::{issue, issues, report, report_all, Diagnostic, Issue, IssueKind};
use crate::polyhedral::{combine, combined, FunctionTerm, SetModel, SetOp, SetTerm};
use crate::resolve::{variable_set, Resolver};
use crate::domain::{body_set, expression_set};
use crate::function::function_value;
use crate::syntax::{
    Decl, Equation, Expr, Name, Span, StandardEquation, System, SystemBody, UseEquation,
};
use crate::text::{push_text, str_eq, views};
use crate::uniqueness::collect_variable_names;
use crate::walk::{subtree, variable_names};
use vstd::prelude::*;

verus! {

/// What a comparison that failed is reported as.
pub open spec fn failed_at(message: Seq<char>, span: Span) -> Issue {
    issue(IssueKind::IslError, seq![message], span.pair())
}

fn isl_err(message: &str, span: Span) -> (r: Diagnostic)
    ensures
        r@ == failed_at(message@, span),
{
    Diagnostic::IslError { message: message.to_owned(), start: span.start, end: span.end }
}

fn just(d: Diagnostic) -> (r: Vec<Diagnostic>)
    ensures
        issues(r@) == seq![d@],
{
    let mut out: Vec<Diagnostic> = Vec::new();
    out.push(d);
    proof {
        assert(issues(out@) =~= seq![d@]);
    }
    out
}

fn none() -> (r: Vec<Diagnostic>)
    ensures
        issues(r@) == Seq::<Issue>::empty(),
        r@.len() == 0,
{
    let out: Vec<Diagnostic> = Vec::new();
    proof {
        assert(issues(out@) =~= Seq::<Issue>::empty());
    }
    out
}

/// The names of the variables inside each of several expressions.
pub open spec fn names_within(all: Seq<Expr>) -> Seq<Seq<char>>
    decreases all.len(),
{
    if all.len() == 0 {
        Seq::empty()
    } else {
        names_within(all.drop_last()) + variable_names(subtree(all.last()))
    }
}

fn push_names_within(all: &Vec<Expr>, out: &mut Vec<String>)
    ensures
        views(final(out)@) == views(old(out)@) + names_within(all@),
{
    let ghost before = views(out@);
    let mut i: usize = 0;
    proof {
        assert(before + names_within(all@.take(0)) =~= before);
    }
    while i < all.len()
        invariant
            i <= all@.len(),
            views(out@) == before + names_within(all@.take(i as int)),
        decreases all@.len() - i,
    {
        proof {
            let t = all@.take(i + 1);
            assert(t.drop_last() =~= all@.take(i as int));
            assert(t.last() == all@[i as int]);
        }
        collect_variable_names(&all[i], out);
        proof {
            assert(views(out@) =~= before + names_within(all@.take(i + 1)));
        }
        i += 1;
    }
    proof {
        assert(all@.take(all@.len() as int) =~= all@);
    }
}

/// The names that an equation mentions.
pub open spec fn equation_uses(e: Equation) -> Seq<Seq<char>> {
    match e {
        Equation::Standard(q) => match q.expr {
            Some(x) => variable_names(subtree(x)),
            None => Seq::empty(),
        },
        Equation::Use(u) => names_within(u.outputs@) + names_within(u.inputs@),
    }
}

/// The names that an equation defines.
pub open spec fn equation_defines(e: Equation) -> Seq<Seq<char>> {
    match e {
        Equation::Standard(q) => match q.variable {
            Some(n) => seq![n.text@],
            None => Seq::empty(),
        },
        Equation::Use(u) => names_within(u.outputs@),
    }
}

pub open spec fn body_uses(equations: Seq<Equation>) -> Seq<Seq<char>>
    decreases equations.len(),
{
    if equations.len() == 0 {
        Seq::empty()
    } else {
        body_uses(equations.drop_last()) + equation_uses(equations.last())
    }
}

pub open spec fn body_defines(equations: Seq<Equation>) -> Seq<Seq<char>>
    decreases equations.len(),
{
    if equations.len() == 0 {
        Seq::empty()
    } else {
        body_defines(equations.drop_last()) + equation_defines(equations.last())
    }
}

/// Whether a declaration needs an equation: an output always does, a local if it is used.
pub open spec fn needed(n: Name, uses: Option<Seq<Seq<char>>>) -> bool {
    match uses {
        Some(all) => all.contains(n.text@),
        None => true,
    }
}

/// The declarations that need an equation and have none. `uses` limits them to used names.
pub open spec fn undefined_among(
    decls: Seq<Decl>,
    fuzzy: bool,
    uses: Option<Seq<Seq<char>>>,
    defines: Seq<Seq<char>>,
) -> Seq<Issue>
    decreases decls.len(),
{
    if decls.len() == 0 {
        Seq::empty()
    } else {
        let before = undefined_among(decls.drop_last(), fuzzy, uses, defines);
        match decls.last().name {
            Some(n) if decls.last().fuzzy == fuzzy && needed(n, uses) && !defines.contains(
                n.text@,
            ) => before.push(
                issue(IssueKind::UndefinedVariable, seq![n.text@], n.span.pair()),
            ),
            _ => before,
        }
    }
}

/// The variables of a system that a body has to define and does not.
pub open spec fn undefined_in_body(s: System, body: SystemBody) -> Seq<Issue> {
    let uses = body_uses(body.equations@);
    let defines = body_defines(body.equations@);
    undefined_among(s.locals@, false, Some(uses), defines) + undefined_among(
        s.locals@,
        true,
        Some(uses),
        defines,
    ) + undefined_among(s.outputs@, false, None, defines) + undefined_among(
        s.outputs@,
        true,
        None,
        defines,
    )
}

pub open spec fn undefined_in_bodies(s: System, bodies: Seq<SystemBody>) -> Seq<Issue>
    decreases bodies.len(),
{
    if bodies.len() == 0 {
        Seq::empty()
    } else {
        undefined_in_bodies(s, bodies.drop_last()) + undefined_in_body(s, bodies.last())
    }
}

pub open spec fn optional_names(v: Option<&Vec<String>>) -> Option<Seq<Seq<char>>> {
    match v {
        Some(all) => Some(views(all@)),
        None => None,
    }
}

fn report_undefined(
    decls: &Vec<Decl>,
    fuzzy: bool,
    uses: Option<&Vec<String>>,
    defines: &Vec<String>,
    out: &mut Vec<Diagnostic>,
)
    ensures
        issues(final(out)@) == issues(old(out)@) + undefined_among(
            decls@,
            fuzzy,
            optional_names(uses),
            views(defines@),
        ),
{
    let ghost before = issues(out@);
    let ghost u = optional_names(uses);
    let ghost d = views(defines@);
    let mut i: usize = 0;
    proof {
        assert(before + undefined_among(decls@.take(0), fuzzy, u, d) =~= before);
    }
    while i < decls.len()
        invariant
            i <= decls@.len(),
            u == optional_names(uses),
            d == views(defines@),
            issues(out@) == before + undefined_among(decls@.take(i as int), fuzzy, u, d),
        decreases decls@.len() - i,
    {
        proof {
            let t = decls@.take(i + 1);
            assert(t.drop_last() =~= decls@.take(i as int));
            assert(t.last() == decls@[i as int]);
        }
        match &decls[i].name {
            Some(n) => if decls[i].fuzzy == fuzzy {
                let must = match uses {
                    Some(all) => has_name(all, n.text.as_str()),
                    None => true,
                };
                if must && !has_name(defines, n.text.as_str()) {
                    report(
                        out,
                        Diagnostic::UndefinedVariable {
                            name: n.text.clone(),
                            start: n.span.start,
                            end: n.span.end,
                        },
                    );
                }
            },
            None => {},
        }
        proof {
            assert(issues(out@) =~= before + undefined_among(decls@.take(i + 1), fuzzy, u, d));
        }
        i += 1;
    }
    proof {
        assert(decls@.take(decls@.len() as int) =~= decls@);
    }
}

fn check_undefined_variables_in_body(system: &System, body: &SystemBody) -> (r: Vec<Diagnostic>)
    ensures
        issues(r@) == undefined_in_body(*system, *body),
{
    let equations = &body.equations;
    let mut uses: Vec<String> = Vec::new();
    let mut defines: Vec<String> = Vec::new();
    let mut i: usize = 0;
    proof {
        assert(views(uses@) =~= body_uses(equations@.take(0)));
        assert(views(defines@) =~= body_defines(equations@.take(0)));
    }
    while i < equations.len()
        invariant
            i <= equations@.len(),
            views(uses@) == body_uses(equations@.take(i as int)),
            views(defines@) == body_defines(equations@.take(i as int)),
        decreases equations@.len() - i,
    {
        proof {
            let t = equations@.take(i + 1);
            assert(t.drop_last() =~= equations@.take(i as int));
            assert(t.last() == equations@[i as int]);
        }
        match &equations[i] {
            Equation::Standard(q) => {
                match &q.variable {
                    Some(n) => push_text(&mut defines, n.text.clone()),
                    None => {},
                }
                match &q.expr {
                    Some(x) => collect_variable_names(x, &mut uses),
                    None => {},
                }
            },
            Equation::Use(u) => {
                push_names_within(&u.outputs, &mut defines);
                push_names_within(&u.outputs, &mut uses);
                push_names_within(&u.inputs, &mut uses);
            },
        }
        proof {
            assert(views(uses@) =~= body_uses(equations@.take(i + 1)));
            assert(views(defines@) =~= body_defines(equations@.take(i + 1)));
        }
        i += 1;
    }
    proof {
        assert(equations@.take(equations@.len() as int) =~= equations@);
    }
    let mut diags = none();
    report_undefined(&system.locals, false, Some(&uses), &defines, &mut diags);
    report_undefined(&system.locals, true, Some(&uses), &defines, &mut diags);
    report_undefined(&system.outputs, false, None, &defines, &mut diags);
    report_undefined(&system.outputs, true, None, &defines, &mut diags);
    proof {
        assert(issues(diags@) =~= undefined_in_body(*system, *body));
    }
    diags
}

/// Checks that every body defines the outputs, and the locals that it uses.
pub fn check_undefined_variables(system: &System) -> (r: Vec<Diagnostic>)
    ensures
        issues(r@) == undefined_in_bodies(*system, system.bodies@),
{
    let bodies = &system.bodies;
    let mut diags = none();
    let mut i: usize = 0;
    while i < bodies.len()
        invariant
            i <= bodies@.len(),
            issues(diags@) == undefined_in_bodies(*system, bodies@.take(i as int)),
        decreases bodies@.len() - i,
    {
        proof {
            let t = bodies@.take(i + 1);
            assert(t.drop_last() =~= bodies@.take(i as int));
            assert(t.last() == bodies@[i as int]);
        }
        let more = check_undefined_variables_in_body(system, &bodies[i]);
        report_all(&mut diags, more);
        i += 1;
    }
    proof {
        assert(bodies@.take(bodies@.len() as int) =~= bodies@);
    }
    diags
}

proof fn lemma_none_undefined(
    decls: Seq<Decl>,
    fuzzy: bool,
    uses: Option<Seq<Seq<char>>>,
    defines: Seq<Seq<char>>,
)
    ensures
        undefined_among(decls, fuzzy, uses, defines).len() == 0 <==> forall|i: int|
            0 <= i < decls.len() && (#[trigger] decls[i]).fuzzy == fuzzy ==> has_equation(
                decls[i],
                uses,
                defines,
            ),
    decreases decls.len(),
{
    if decls.len() > 0 {
        let before = decls.drop_last();
        lemma_none_undefined(before, fuzzy, uses, defines);
        assert forall|i: int| 0 <= i < before.len() implies #[trigger] before[i] == decls[i] by {}
        assert(decls[decls.len() - 1] == decls.last());
        if undefined_among(decls, fuzzy, uses, defines).len() == 0 {
            assert forall|i: int|
                0 <= i < decls.len() && (#[trigger] decls[i]).fuzzy == fuzzy implies has_equation(
                decls[i],
                uses,
                defines,
            ) by {
                if i < before.len() {
                    assert(before[i] == decls[i]);
                }
            }
        } else if undefined_among(before, fuzzy, uses, defines).len() > 0 {
            let k = choose|k: int|
                0 <= k < before.len() && (#[trigger] before[k]).fuzzy == fuzzy && !has_equation(
                    before[k],
                    uses,
                    defines,
                );
            assert(!has_equation(decls[k], uses, defines));
        }
    }
}

/// The declaration has an equation, or needs none.
pub open spec fn has_equation(
    d: Decl,
    uses: Option<Seq<Seq<char>>>,
    defines: Seq<Seq<char>>,
) -> bool {
    match d.name {
        Some(n) => needed(n, uses) ==> defines.contains(n.text@),
        None => true,
    }
}

/// A body about which nothing is reported defines every output, and every local that it uses.
pub proof fn a_clean_body_defines_what_it_must(s: System, body: SystemBody)
    ensures
        undefined_in_body(s, body).len() == 0 <==> {
            let uses = body_uses(body.equations@);
            let defines = body_defines(body.equations@);
            &&& forall|i: int|
                0 <= i < s.outputs@.len() ==> has_equation(
                    #[trigger] s.outputs@[i],
                    None,
                    defines,
                )
            &&& forall|i: int|
                0 <= i < s.locals@.len() ==> has_equation(
                    #[trigger] s.locals@[i],
                    Some(uses),
                    defines,
                )
        },
{
    let uses = body_uses(body.equations@);
    let defines = body_defines(body.equations@);
    lemma_none_undefined(s.locals@, false, Some(uses), defines);
    lemma_none_undefined(s.locals@, true, Some(uses), defines);
    lemma_none_undefined(s.outputs@, false, None, defines);
    lemma_none_undefined(s.outputs@, true, None, defines);
}

/// What came out for the parameter values of one body.
#[derive(Debug)]
pub enum BodyAnswer {
    /// They could not be computed, which is reported elsewhere.
    Unresolved,
    /// Whether there are none. Keeping to those of the system may have failed with a message.
    Resolved { empty: bool, failure: Option<String> },
}

/// What came out for the bodies of a system.
#[derive(Debug)]
pub struct BodiesAnswer {
    /// Whether the parameter domain could be computed.
    pub params: bool,
    pub bodies: Vec<BodyAnswer>,
    /// Whether each body from the second on overlaps the ones before it.
    pub overlaps: Vec<core::result::Result<bool, String>>,
    /// All overlaps taken together.
    pub overlap: String,
    /// What of the parameter domain no body takes, if anything.
    pub missing: core::result::Result<Option<String>, String>,
}

/// The bodies among the first `n` that no parameter value selects.
pub open spec fn empty_bodies(bodies: Seq<SystemBody>, answers: Seq<BodyAnswer>, n: nat) -> Seq<
    Issue,
>
    decreases n,
{
    if n == 0 {
        Seq::empty()
    } else {
        let before = empty_bodies(bodies, answers, (n - 1) as nat);
        if answers[n - 1] matches BodyAnswer::Resolved { empty, .. } && empty {
            before.push(issue(IssueKind::EmptySystemBody, seq![], bodies[n - 1].span.pair()))
        } else {
            before
        }
    }
}

/// What is reported where the answers from place `k` on end early. An unresolved body leaves what
/// was found before it, a failure nothing else.
pub open spec fn early_end(bodies: Seq<SystemBody>, answers: Seq<BodyAnswer>, k: int) -> Option<
    Seq<Issue>,
>
    decreases answers.len() - k,
{
    if k < 0 || k >= answers.len() {
        None
    } else {
        match answers[k] {
            BodyAnswer::Unresolved => Some(empty_bodies(bodies, answers, k as nat)),
            BodyAnswer::Resolved { failure: Some(m), .. } => Some(
                seq![failed_at(m@, bodies[k].span)],
            ),
            _ => early_end(bodies, answers, k + 1),
        }
    }
}

/// The message of the first answer from place `k` on that is a failure.
pub open spec fn first_failure(
    answers: Seq<core::result::Result<bool, String>>,
    k: int,
) -> Option<Seq<char>>
    decreases answers.len() - k,
{
    if k < 0 || k >= answers.len() {
        None
    } else {
        match answers[k] {
            Err(m) => Some(m@),
            Ok(_) => first_failure(answers, k + 1),
        }
    }
}

pub open spec fn says_yes(a: core::result::Result<bool, String>) -> bool {
    a matches Ok(b) && b
}

pub open spec fn some_yes(answers: Seq<core::result::Result<bool, String>>) -> bool {
    exists|i: int| 0 <= i < answers.len() && says_yes(#[trigger] answers[i])
}

pub open spec fn system_name(s: System) -> Seq<char> {
    crate::uniqueness::name_or_none(s.name)
}

pub open spec fn system_name_span(s: System) -> Span {
    crate::uniqueness::name_span(s.name, s.span)
}

/// What is reported of the bodies of a system: bodies that nothing selects, bodies that overlap,
/// and parameter values that select none.
pub open spec fn bodies_report(s: System, a: BodiesAnswer) -> Seq<Issue> {
    let n = s.bodies@.len();
    if n == 0 || !a.params {
        Seq::empty()
    } else {
        match early_end(s.bodies@, a.bodies@, 0) {
            Some(r) => r,
            None => match first_failure(a.overlaps@, 0) {
                Some(m) => seq![failed_at(m, s.span)],
                None => {
                    let overlapping = if some_yes(a.overlaps@) {
                        s.bodies@.map_values(
                            |b: SystemBody|
                                issue(
                                    IssueKind::OverlappingSystemBodies,
                                    seq![a.overlap@],
                                    b.span.pair(),
                                ),
                        )
                    } else {
                        Seq::empty()
                    };
                    let found = empty_bodies(s.bodies@, a.bodies@, n) + overlapping;
                    match a.missing {
                        Err(m) => seq![failed_at(m@, s.span)],
                        Ok(None) => found,
                        Ok(Some(d)) => found.push(
                            issue(
                                IssueKind::IncompleteSystem,
                                seq![system_name(s), d@],
                                system_name_span(s).pair(),
                            ),
                        ),
                    }
                },
            },
        }
    }
}

fn report_overlapping(bodies: &Vec<SystemBody>, detail: &str, out: &mut Vec<Diagnostic>)
    ensures
        issues(final(out)@) == issues(old(out)@) + bodies@.map_values(
            |b: SystemBody|
                issue(IssueKind::OverlappingSystemBodies, seq![detail@], b.span.pair()),
        ),
{
    let ghost before = issues(out@);
    let ghost all = bodies@.map_values(
        |b: SystemBody| issue(IssueKind::OverlappingSystemBodies, seq![detail@], b.span.pair()),
    );
    let mut i: usize = 0;
    proof {
        assert(before + all.take(0) =~= before);
    }
    while i < bodies.len()
        invariant
            i <= bodies@.len(),
            all == bodies@.map_values(
                |b: SystemBody|
                    issue(IssueKind::OverlappingSystemBodies, seq![detail@], b.span.pair()),
            ),
            issues(out@) == before + all.take(i as int),
        decreases bodies@.len() - i,
    {
        report(
            out,
            Diagnostic::OverlappingSystemBodies {
                detail: detail.to_owned(),
                start: bodies[i].span.start,
                end: bodies[i].span.end,
            },
        );
        proof {
            assert(all.take(i + 1) =~= all.take(i as int).push(all[i as int]));
            assert(issues(out@) =~= before + all.take(i + 1));
        }
        i += 1;
    }
    proof {
        assert(all.take(bodies@.len() as int) =~= all);
    }
}

/// Whether the answers hold an overlap, or the message of the first failure among them.
fn any_overlap(answers: &Vec<core::result::Result<bool, String>>) -> (r: core::result::Result<
    bool,
    String,
>)
    ensures
        match r {
            Err(m) => first_failure(answers@, 0) == Some(m@),
            Ok(b) => first_failure(answers@, 0) is None && b == some_yes(answers@),
        },
{
    let mut found = false;
    let mut i: usize = 0;
    while i < answers.len()
        invariant
            i <= answers@.len(),
            first_failure(answers@, 0) == first_failure(answers@, i as int),
            found == exists|j: int| 0 <= j < i && says_yes(#[trigger] answers@[j]),
        decreases answers@.len() - i,
    {
        match &answers[i] {
            Err(m) => return Err(m.clone()),
            Ok(b) => {
                proof {
                    if *b {
                        assert(says_yes(answers@[i as int]));
                    }
                }
                if *b {
                    found = true;
                }
            },
        }
        i += 1;
    }
    Ok(found)
}

/// Checks that the bodies of a system take its parameter values apart between them.
pub fn check_system_bodies(system: &System, a: &BodiesAnswer) -> (r: Vec<Diagnostic>)
    requires
        a.bodies@.len() == system.bodies@.len(),
    ensures
        issues(r@) == bodies_report(*system, *a),
{
    let bodies = &system.bodies;
    if bodies.len() == 0 || !a.params {
        return none();
    }
    let mut diags = none();
    let mut i: usize = 0;
    while i < bodies.len()
        invariant
            bodies@ == system.bodies@,
            bodies@.len() > 0,
            a.params,
            i <= bodies@.len(),
            a.bodies@.len() == bodies@.len(),
            early_end(bodies@, a.bodies@, 0) == early_end(bodies@, a.bodies@, i as int),
            issues(diags@) == empty_bodies(bodies@, a.bodies@, i as nat),
        decreases bodies@.len() - i,
    {
        match &a.bodies[i] {
            BodyAnswer::Unresolved => return diags,
            BodyAnswer::Resolved { empty, failure } => {
                match failure {
                    Some(m) => return just(isl_err(m.as_str(), bodies[i].span)),
                    None => {},
                }
                if *empty {
                    report(
                        &mut diags,
                        Diagnostic::EmptySystemBody {
                            start: bodies[i].span.start,
                            end: bodies[i].span.end,
                        },
                    );
                }
            },
        }
        i += 1;
    }
    match any_overlap(&a.overlaps) {
        Err(m) => return just(isl_err(m.as_str(), system.span)),
        Ok(found) => if found {
            report_overlapping(bodies, a.overlap.as_str(), &mut diags);
        },
    }
    proof {
        let first = empty_bodies(bodies@, a.bodies@, bodies@.len());
        assert(first + Seq::<Issue>::empty() =~= first);
    }
    match &a.missing {
        Err(m) => just(isl_err(m.as_str(), system.span)),
        Ok(None) => diags,
        Ok(Some(d)) => {
            let (name, span) = match &system.name {
                Some(n) => (n.text.clone(), n.span),
                None => {
                    proof {
                        reveal_strlit("");
                        assert(""@ =~= Seq::<char>::empty());
                    }
                    ("".to_owned(), system.span)
                },
            };
            report(
                &mut diags,
                Diagnostic::IncompleteSystem {
                    name,
                    detail: d.clone(),
                    start: span.start,
                    end: span.end,
                },
            );
            diags
        },
    }
}

/// What came out for one standard equation.
#[derive(Debug)]
pub struct EquationAnswer {
    /// The dimension of the domain of its expression, where that could be computed.
    pub domain: Option<u32>,
    /// The dimension of the domain of its variable, where that could be computed.
    pub variable: Option<u32>,
    /// Whether the parameter values of its body could be computed.
    pub body: bool,
    /// The region where it is undefined, and the parameter values for which it is, if there is
    /// any.
    pub undefined: core::result::Result<Option<(String, String)>, Diagnostic>,
}

/// The points of its variable's domain at which an equation is not defined.
pub open spec fn undefined_region(
    s: System,
    variable: Seq<char>,
    body: SystemBody,
    expr: Expr,
    indices: Seq<Seq<char>>,
    at: Span,
) -> SetModel {
    combined(
        SetOp::Subtract,
        combined(
            SetOp::IntersectParams,
            variable_set(s, variable, Seq::empty()),
            body_set(s, body),
            at,
        ),
        expression_set(s, expr, indices),
        at,
    )
}

/// What is reported of a standard equation. Where something could not be computed, or the
/// dimensions differ, that is reported elsewhere.
pub open spec fn equation_report(eq: StandardEquation, a: EquationAnswer) -> Seq<Issue> {
    match (eq.expr, eq.variable) {
        (Some(expr), Some(name)) => if a.domain is Some && a.domain == a.variable && a.body {
            match a.undefined {
                Err(d) => seq![d@],
                Ok(None) => Seq::empty(),
                Ok(Some((domain_detail, param_detail))) => seq![
                    issue(
                        IssueKind::IncompleteEquation,
                        seq![name.text@, domain_detail@, param_detail@],
                        expr.span.pair(),
                    ),
                ],
            }
        } else {
            Seq::empty()
        },
        _ => Seq::empty(),
    }
}

impl<'a> Resolver<'a> {
    /// The region to look at for an equation: it has to be empty.
    pub fn undefined_part(&self, eq: &StandardEquation, body: &SystemBody) -> (r: Option<SetTerm>)
        requires
            self.wf(),
        ensures
            match (eq.expr, eq.variable) {
                (Some(expr), Some(name)) => r matches Some(t) && t@ == undefined_region(
                    *self.system,
                    name.text@,
                    *body,
                    expr,
                    views(eq.indices@),
                    eq.span,
                ),
                _ => r is None,
            },
    {
        match (&eq.expr, &eq.variable) {
            (Some(expr), Some(name)) => {
                let variable = self.variable_domain(name.text.as_str());
                let params = self.system_body_domain(body);
                let needed = combine(SetOp::IntersectParams, variable, params, eq.span);
                let defined = self.expression_domain(expr, &eq.indices);
                Some(combine(SetOp::Subtract, needed, defined, eq.span))
            },
            _ => None,
        }
    }
}

/// Checks that an equation is defined wherever its variable is.
pub fn check_standard_equation_completeness(eq: &StandardEquation, a: &EquationAnswer) -> (r: Vec<
    Diagnostic,
>)
    ensures
        issues(r@) == equation_report(*eq, *a),
{
    let expr = match &eq.expr {
        Some(e) => e,
        None => return none(),
    };
    let domain: u32 = match a.domain {
        Some(d) => d,
        None => return none(),
    };
    let name = match &eq.variable {
        Some(n) => n,
        None => return none(),
    };
    let variable: u32 = match a.variable {
        Some(d) => d,
        None => return none(),
    };
    if variable != domain || !a.body {
        return none();
    }
    match &a.undefined {
        Err(d) => just(d.clone()),
        Ok(None) => none(),
        Ok(Some((domain_detail, param_detail))) => just(
            Diagnostic::IncompleteEquation {
                name: name.text.clone(),
                domain_detail: domain_detail.clone(),
                param_detail: param_detail.clone(),
                start: expr.span.start,
                end: expr.span.end,
            },
        ),
    }
}

/// What came out for one branch of a case.
#[derive(Debug)]
pub struct BranchAnswer {
    /// Whether its context could be computed.
    pub context: bool,
    /// What it shares with the branches before it, if anything.
    pub overlap: core::result::Result<Option<String>, String>,
}

pub open spec fn all_contexts(answers: Seq<BranchAnswer>) -> bool {
    forall|i: int| 0 <= i < answers.len() ==> (#[trigger] answers[i]).context
}

/// What the first `n` branches share with those before them, or the first failure.
pub open spec fn branch_overlaps(
    branches: Seq<Expr>,
    answers: Seq<BranchAnswer>,
    n: nat,
) -> core::result::Result<Seq<Issue>, Issue>
    decreases n,
{
    if n <= 1 {
        Ok(Seq::empty())
    } else {
        match branch_overlaps(branches, answers, (n - 1) as nat) {
            Err(i) => Err(i),
            Ok(before) => match answers[n - 1].overlap {
                Err(m) => Err(failed_at(m@, branches[n - 1].span)),
                Ok(None) => Ok(before),
                Ok(Some(d)) => Ok(
                    before.push(
                        issue(
                            IssueKind::OverlappingCaseBranch,
                            seq![d@],
                            branches[n - 1].span.pair(),
                        ),
                    ),
                ),
            },
        }
    }
}

/// What is reported of one case: a failure stands alone.
pub open spec fn case_report(branches: Seq<Expr>, answers: Seq<BranchAnswer>) -> Seq<Issue> {
    if !all_contexts(answers) {
        Seq::empty()
    } else {
        match branch_overlaps(branches, answers, branches.len()) {
            Err(i) => seq![i],
            Ok(found) => found,
        }
    }
}

proof fn lemma_branch_failure(branches: Seq<Expr>, answers: Seq<BranchAnswer>, k: nat, n: nat)
    requires
        k <= n,
        branch_overlaps(branches, answers, k) is Err,
    ensures
        branch_overlaps(branches, answers, n) == branch_overlaps(branches, answers, k),
    decreases n,
{
    if k < n {
        lemma_branch_failure(branches, answers, k, (n - 1) as nat);
    }
}

/// Checks that the branches of a case do not overlap.
pub fn check_one_case(branches: &Vec<Expr>, answers: &Vec<BranchAnswer>) -> (r: Vec<Diagnostic>)
    requires
        answers@.len() == branches@.len(),
    ensures
        issues(r@) == case_report(branches@, answers@),
{
    let mut i: usize = 0;
    while i < answers.len()
        invariant
            i <= answers@.len(),
            forall|j: int| 0 <= j < i ==> (#[trigger] answers@[j]).context,
        decreases answers@.len() - i,
    {
        if !answers[i].context {
            proof {
                assert(!answers@[i as int].context);
            }
            return none();
        }
        i += 1;
    }
    let mut diags = none();
    let mut k: usize = 1;
    while k < branches.len()
        invariant
            1 <= k,
            k <= branches@.len() || (branches@.len() == 0 && k == 1),
            answers@.len() == branches@.len(),
            all_contexts(answers@),
            branch_overlaps(branches@, answers@, k as nat) == Ok::<Seq<Issue>, Issue>(
                issues(diags@),
            ),
        decreases branches@.len() - k,
    {
        match &answers[k].overlap {
            Err(m) => {
                proof {
                    lemma_branch_failure(
                        branches@,
                        answers@,
                        (k + 1) as nat,
                        branches@.len(),
                    );
                }
                return just(isl_err(m.as_str(), branches[k].span));
            },
            Ok(None) => {},
            Ok(Some(d)) => report(
                &mut diags,
                Diagnostic::OverlappingCaseBranch {
                    detail: d.clone(),
                    start: branches[k].span.start,
                    end: branches[k].span.end,
                },
            ),
        }
        k += 1;
    }
    proof {
        if branches@.len() == 0 {
            assert(branch_overlaps(branches@, answers@, 0) == branch_overlaps(
                branches@,
                answers@,
                1,
            ));
        }
    }
    diags
}

/// What came out for one index of a reduction's body.
#[derive(Debug)]
pub struct BoundAnswer {
    pub upper: bool,
    pub lower: bool,
    /// The message with which leaving the index out failed.
    pub failure: Option<String>,
}

/// What came out for the body of one reduction.
#[derive(Debug)]
pub struct ReduceAnswer {
    /// Whether its context could be computed.
    pub context: bool,
    /// The message with which its hull failed.
    pub failure: Option<String>,
    pub bounds: Vec<BoundAnswer>,
}

/// The indices among the first `n` that are not bounded on both sides, or the first failure.
pub open spec fn unbounded(bounds: Seq<BoundAnswer>, n: nat, at: Span) -> core::result::Result<
    Seq<Issue>,
    Issue,
>
    decreases n,
{
    if n == 0 {
        Ok(Seq::empty())
    } else {
        match unbounded(bounds, (n - 1) as nat, at) {
            Err(i) => Err(i),
            Ok(before) => match bounds[n - 1].failure {
                Some(m) => Err(failed_at(m@, at)),
                None => if bounds[n - 1].upper && bounds[n - 1].lower {
                    Ok(before)
                } else {
                    Ok(
                        before.push(
                            issue(IssueKind::UnboundedReductionBody, seq![], at.pair()),
                        ),
                    )
                },
            },
        }
    }
}

/// What is reported of one reduction: a failure stands alone.
pub open spec fn reduce_report(has_body: bool, at: Span, a: ReduceAnswer) -> Seq<Issue> {
    if !has_body || !a.context {
        Seq::empty()
    } else {
        match a.failure {
            Some(m) => seq![failed_at(m@, at)],
            None => match unbounded(a.bounds@, a.bounds@.len(), at) {
                Err(i) => seq![i],
                Ok(found) => found,
            },
        }
    }
}

proof fn lemma_bound_failure(bounds: Seq<BoundAnswer>, k: nat, n: nat, at: Span)
    requires
        k <= n,
        unbounded(bounds, k, at) is Err,
    ensures
        unbounded(bounds, n, at) == unbounded(bounds, k, at),
    decreases n,
{
    if k < n {
        lemma_bound_failure(bounds, k, (n - 1) as nat, at);
    }
}

/// Checks that a reduction ranges over bounded indices only.
pub fn check_one_reduce(has_body: bool, at: Span, a: &ReduceAnswer) -> (r: Vec<Diagnostic>)
    ensures
        issues(r@) == reduce_report(has_body, at, *a),
{
    if !has_body || !a.context {
        return none();
    }
    match &a.failure {
        Some(m) => return just(isl_err(m.as_str(), at)),
        None => {},
    }
    let mut diags = none();
    let mut i: usize = 0;
    while i < a.bounds.len()
        invariant
            i <= a.bounds@.len(),
            has_body && a.context && a.failure is None,
            unbounded(a.bounds@, i as nat, at) == Ok::<Seq<Issue>, Issue>(issues(diags@)),
        decreases a.bounds@.len() - i,
    {
        match &a.bounds[i].failure {
            Some(m) => {
                proof {
                    lemma_bound_failure(a.bounds@, (i + 1) as nat, a.bounds@.len(), at);
                }
                return just(isl_err(m.as_str(), at));
            },
            None => {},
        }
        if !a.bounds[i].upper || !a.bounds[i].lower {
            report(
                &mut diags,
                Diagnostic::UnboundedReductionBody { start: at.start, end: at.end },
            );
        }
        i += 1;
    }
    diags
}

/// A call of the enclosing system by its own name, with parameters.
pub open spec fn self_call(u: UseEquation, s: System) -> bool {
    match (u.callee, s.name, u.call_params) {
        (Some(segments), Some(name), Some(_)) => segments@.len() > 0 && segments@.last()@
            == name.text@,
        _ => false,
    }
}

fn is_self_call(u: &UseEquation, s: &System) -> (r: bool)
    ensures
        r == self_call(*u, *s),
{
    match (&u.callee, &s.name, &u.call_params) {
        (Some(segments), Some(name), Some(_)) => segments.len() > 0 && str_eq(
            segments[segments.len() - 1].as_str(),
            name.text.as_str(),
        ),
        _ => false,
    }
}

impl<'a> Resolver<'a> {
    /// The function that a call of the enclosing system hands the parameters through.
    pub fn recursion_function(&self, u: &UseEquation) -> (r: Option<FunctionTerm>)
        requires
            self.wf(),
        ensures
            match r {
                Some(f) => self_call(*u, *self.system) && f@ == function_value(
                    *self.system,
                    u.call_params->Some_0,
                    Seq::empty(),
                ),
                None => !self_call(*u, *self.system),
            },
    {
        if !is_self_call(u, self.system) {
            return None;
        }
        match &u.call_params {
            Some(c) => {
                let no_names: Vec<String> = Vec::new();
                proof {
                    assert(views(no_names@) =~= Seq::<Seq<char>>::empty());
                }
                Some(self.eval_function(c, &no_names))
            },
            None => None,
        }
    }
}

/// What is reported of a use equation: a call of its own system with the very same parameters.
pub open spec fn recursion_report(
    u: UseEquation,
    s: System,
    identity: core::result::Result<bool, Diagnostic>,
) -> Seq<Issue> {
    if !self_call(u, s) {
        Seq::empty()
    } else {
        match identity {
            Err(d) => seq![d@],
            Ok(b) => if b {
                seq![issue(IssueKind::InfinitelyRecursiveUseEquation, seq![], u.span.pair())]
            } else {
                Seq::empty()
            },
        }
    }
}

/// Checks that a use equation does not call its own system with the same parameters. `identity`
/// says whether the parameters are the same.
pub fn check_use_equation_recursion(
    u: &UseEquation,
    system: &System,
    identity: &core::result::Result<bool, Diagnostic>,
) -> (r: Vec<Diagnostic>)
    ensures
        issues(r@) == recursion_report(*u, *system, *identity),
{
    if !is_self_call(u, system) {
        return none();
    }
    match identity {
        Err(d) => just(d.clone()),
        Ok(b) => if *b {
            just(
                Diagnostic::InfinitelyRecursiveUseEquation {
                    start: u.span.start,
                    end: u.span.end,
                },
            )
        } else {
            none()
        },
    }
}

} // verus!
