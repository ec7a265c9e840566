//! Whether the use equations of a body write each of their variables once, and all of it.
use crate::completeness::failed_at;
use crate::diagnostic::{issue, issues, report, report_all, Diagnostic, Issue, IssueKind};
use crate::syntax::{Equation, Expr, ExprKind, Span, System, SystemBody};
use crate::text::str_eq;
use crate::walk::{referred, subtree, walk_expr};
use vstd::prelude::*;

verus! {

/// A place where an output of a use equation mentions a variable.
pub struct Mention {
    pub name: String,
    /// The whole output.
    pub output: Span,
    /// The mention itself.
    pub node: usize,
    pub span: Span,
}

/// A [`Mention`] as a mathematical value.
pub struct MentionModel {
    pub name: Seq<char>,
    pub output: Span,
    pub node: usize,
    pub span: Span,
}

impl View for Mention {
    type V = MentionModel;

    open spec fn view(&self) -> MentionModel {
        MentionModel {
            name: self.name@,
            output: self.output,
            node: self.node,
            span: self.span,
        }
    }
}

pub open spec fn mention_models(v: Seq<Mention>) -> Seq<MentionModel> {
    Seq::new(v.len(), |i: int| v[i]@)
}

/// The mentions among some expressions of one output.
pub open spec fn mentions_among(all: Seq<Expr>, output: Span) -> Seq<MentionModel>
    decreases all.len(),
{
    if all.len() == 0 {
        Seq::empty()
    } else {
        let before = mentions_among(all.drop_last(), output);
        match all.last().kind {
            ExprKind::Variable { name: Some(n) } => before.push(
                MentionModel { name: n@, output, node: all.last().node, span: all.last().span },
            ),
            _ => before,
        }
    }
}

pub open spec fn mentions_in_outputs(outputs: Seq<Expr>) -> Seq<MentionModel>
    decreases outputs.len(),
{
    if outputs.len() == 0 {
        Seq::empty()
    } else {
        mentions_in_outputs(outputs.drop_last()) + mentions_among(
            subtree(outputs.last()),
            outputs.last().span,
        )
    }
}

/// Every mention in the outputs of the use equations of a body.
pub open spec fn mentions_in(equations: Seq<Equation>) -> Seq<MentionModel>
    decreases equations.len(),
{
    if equations.len() == 0 {
        Seq::empty()
    } else {
        mentions_in(equations.drop_last()) + match equations.last() {
            Equation::Standard(_) => Seq::empty(),
            Equation::Use(u) => mentions_in_outputs(u.outputs@),
        }
    }
}

fn push_mentions(output: &Expr, out: &mut Vec<Mention>)
    ensures
        mention_models(final(out)@) == mention_models(old(out)@) + mentions_among(
            subtree(*output),
            output.span,
        ),
{
    let ghost before = mention_models(out@);
    let ghost tree = subtree(*output);
    let mut all: Vec<&Expr> = Vec::new();
    proof {
        assert(referred(all@) =~= Seq::<Expr>::empty());
    }
    walk_expr(output, &mut all);
    let mut i: usize = 0;
    proof {
        assert(referred(all@) =~= tree);
        assert(before + mentions_among(tree.take(0), output.span) =~= before);
    }
    while i < all.len()
        invariant
            i <= all@.len(),
            referred(all@) == tree,
            tree.len() == all@.len(),
            mention_models(out@) == before + mentions_among(tree.take(i as int), output.span),
        decreases all@.len() - i,
    {
        let ghost sofar = mention_models(out@);
        proof {
            let t = tree.take(i + 1);
            assert(t.drop_last() =~= tree.take(i as int));
            assert(referred(all@)[i as int] == *all@[i as int]);
        }
        match &all[i].kind {
            ExprKind::Variable { name: Some(n) } => {
                let m = Mention {
                    name: n.clone(),
                    output: output.span,
                    node: all[i].node,
                    span: all[i].span,
                };
                let ghost model = m@;
                out.push(m);
                proof {
                    assert(mention_models(out@) =~= sofar.push(model));
                }
            },
            _ => {},
        }
        proof {
            assert(mention_models(out@) =~= before + mentions_among(
                tree.take(i + 1),
                output.span,
            ));
        }
        i += 1;
    }
    proof {
        assert(tree.take(all@.len() as int) =~= tree);
    }
}

fn push_outputs(outputs: &Vec<Expr>, out: &mut Vec<Mention>)
    ensures
        mention_models(final(out)@) == mention_models(old(out)@) + mentions_in_outputs(outputs@),
{
    let ghost before = mention_models(out@);
    let mut i: usize = 0;
    proof {
        assert(before + mentions_in_outputs(outputs@.take(0)) =~= before);
    }
    while i < outputs.len()
        invariant
            i <= outputs@.len(),
            mention_models(out@) == before + mentions_in_outputs(outputs@.take(i as int)),
        decreases outputs@.len() - i,
    {
        proof {
            let t = outputs@.take(i + 1);
            assert(t.drop_last() =~= outputs@.take(i as int));
            assert(t.last() == outputs@[i as int]);
        }
        push_mentions(&outputs[i], out);
        proof {
            assert(mention_models(out@) =~= before + mentions_in_outputs(outputs@.take(i + 1)));
        }
        i += 1;
    }
    proof {
        assert(outputs@.take(outputs@.len() as int) =~= outputs@);
    }
}

/// Every mention in the outputs of the use equations of a body.
pub fn output_mentions(body: &SystemBody) -> (r: Vec<Mention>)
    ensures
        mention_models(r@) == mentions_in(body.equations@),
{
    let equations = &body.equations;
    let mut out: Vec<Mention> = Vec::new();
    let mut i: usize = 0;
    proof {
        assert(mention_models(out@) =~= mentions_in(equations@.take(0)));
    }
    while i < equations.len()
        invariant
            i <= equations@.len(),
            mention_models(out@) == mentions_in(equations@.take(i as int)),
        decreases equations@.len() - i,
    {
        proof {
            let t = equations@.take(i + 1);
            assert(t.drop_last() =~= equations@.take(i as int));
            assert(t.last() == equations@[i as int]);
        }
        match &equations[i] {
            Equation::Standard(_) => {},
            Equation::Use(u) => push_outputs(&u.outputs, &mut out),
        }
        proof {
            assert(mention_models(out@) =~= mentions_in(equations@.take(i + 1)));
        }
        i += 1;
    }
    proof {
        assert(equations@.take(equations@.len() as int) =~= equations@);
    }
    out
}

/// What came out for one mention.
#[derive(Debug)]
pub struct MentionAnswer {
    /// Whether its context could be computed.
    pub context: bool,
    /// Whether it overlaps the mentions of the variable before it.
    pub overlap: core::result::Result<bool, String>,
}

/// What came out for a variable, given with its first mention.
#[derive(Debug)]
pub struct VariableAnswer {
    /// All overlaps taken together.
    pub overlap: String,
    /// Whether the variable's domain and the body's parameter values could be computed.
    pub resolved: bool,
    /// What of the variable is not written, if anything.
    pub missing: core::result::Result<Option<String>, String>,
}

/// The places of the mentions of a variable.
pub open spec fn places(all: Seq<MentionModel>, name: Seq<char>) -> Seq<int>
    decreases all.len(),
{
    if all.len() == 0 {
        Seq::empty()
    } else {
        let before = places(all.drop_last(), name);
        if all.last().name == name {
            before.push(all.len() - 1)
        } else {
            before
        }
    }
}

/// How the mentions of a variable add up.
pub enum Sum {
    /// Something could not be computed.
    Unknown,
    Failed(Issue),
    /// Whether any two overlap.
    Known(bool),
}

/// How the first `n` mentions of a variable, at the given places, add up.
pub open spec fn sum(
    all: Seq<MentionModel>,
    answers: Seq<MentionAnswer>,
    at: Seq<int>,
    n: nat,
) -> Sum
    decreases n,
{
    if n == 0 {
        Sum::Known(false)
    } else {
        match sum(all, answers, at, (n - 1) as nat) {
            Sum::Unknown => Sum::Unknown,
            Sum::Failed(i) => Sum::Failed(i),
            Sum::Known(found) => {
                let a = answers[at[n - 1]];
                if !a.context {
                    Sum::Unknown
                } else if n == 1 {
                    Sum::Known(false)
                } else {
                    match a.overlap {
                        Err(m) => Sum::Failed(failed_at(m@, all[at[n - 1]].span)),
                        Ok(b) => Sum::Known(found || b),
                    }
                }
            },
        }
    }
}

/// One report for each of the given mentions, about the output that it stands in.
pub open spec fn each_output(
    kind: IssueKind,
    all: Seq<MentionModel>,
    at: Seq<int>,
    name: Seq<char>,
    detail: Seq<char>,
) -> Seq<Issue> {
    at.map_values(|i: int| issue(kind, seq![name, detail], all[i].output.pair()))
}

/// What is reported of one variable that use equations write.
pub open spec fn variable_report(
    all: Seq<MentionModel>,
    answers: Seq<MentionAnswer>,
    name: Seq<char>,
    a: VariableAnswer,
    body: Span,
) -> core::result::Result<Seq<Issue>, Issue> {
    let at = places(all, name);
    match sum(all, answers, at, at.len()) {
        Sum::Unknown => Ok(Seq::empty()),
        Sum::Failed(i) => Err(i),
        Sum::Known(found) => {
            let overlapping = if found {
                each_output(IssueKind::OverlappingUseEquations, all, at, name, a.overlap@)
            } else {
                Seq::empty()
            };
            if !a.resolved {
                Ok(overlapping)
            } else {
                match a.missing {
                    Err(m) => Err(failed_at(m@, body)),
                    Ok(None) => Ok(overlapping),
                    Ok(Some(d)) => Ok(
                        overlapping + each_output(
                            IssueKind::IncompleteUseEquation,
                            all,
                            at,
                            name,
                            d@,
                        ),
                    ),
                }
            }
        },
    }
}

pub open spec fn first_mention(all: Seq<MentionModel>, i: int) -> bool {
    forall|j: int| 0 <= j < i ==> (#[trigger] all[j]).name != all[i].name
}

/// What is reported of the variables first mentioned among the first `n` mentions, or the first
/// failure.
pub open spec fn variables_report(
    all: Seq<MentionModel>,
    answers: Seq<MentionAnswer>,
    variables: Seq<VariableAnswer>,
    n: nat,
    body: Span,
) -> core::result::Result<Seq<Issue>, Issue>
    decreases n,
{
    if n == 0 {
        Ok(Seq::empty())
    } else {
        match variables_report(all, answers, variables, (n - 1) as nat, body) {
            Err(i) => Err(i),
            Ok(before) => if first_mention(all, n - 1) {
                match variable_report(all, answers, all[n - 1].name, variables[n - 1], body) {
                    Err(i) => Err(i),
                    Ok(more) => Ok(before + more),
                }
            } else {
                Ok(before)
            },
        }
    }
}

/// What is reported of the use equations of a body: a failure stands alone.
pub open spec fn outputs_report(
    body: SystemBody,
    answers: Seq<MentionAnswer>,
    variables: Seq<VariableAnswer>,
) -> Seq<Issue> {
    let all = mentions_in(body.equations@);
    match variables_report(all, answers, variables, all.len(), body.span) {
        Err(i) => seq![i],
        Ok(found) => found,
    }
}

proof fn lemma_places(all: Seq<MentionModel>, name: Seq<char>)
    ensures
        forall|k: int|
            0 <= k < places(all, name).len() ==> 0 <= #[trigger] places(all, name)[k] < all.len(),
    decreases all.len(),
{
    if all.len() > 0 {
        lemma_places(all.drop_last(), name);
        let before = places(all.drop_last(), name);
        assert forall|k: int| 0 <= k < places(all, name).len() implies 0 <= #[trigger] places(
            all,
            name,
        )[k] < all.len() by {
            if k < before.len() {
                assert(places(all, name)[k] == before[k]);
            }
        }
    }
}

proof fn lemma_sum_stops(
    all: Seq<MentionModel>,
    answers: Seq<MentionAnswer>,
    at: Seq<int>,
    k: nat,
    n: nat,
)
    requires
        k <= n,
        !(sum(all, answers, at, k) is Known),
    ensures
        sum(all, answers, at, n) == sum(all, answers, at, k),
    decreases n,
{
    if k < n {
        lemma_sum_stops(all, answers, at, k, (n - 1) as nat);
    }
}

proof fn lemma_variables_stop(
    all: Seq<MentionModel>,
    answers: Seq<MentionAnswer>,
    variables: Seq<VariableAnswer>,
    k: nat,
    n: nat,
    body: Span,
)
    requires
        k <= n,
        variables_report(all, answers, variables, k, body) is Err,
    ensures
        variables_report(all, answers, variables, n, body) == variables_report(
            all,
            answers,
            variables,
            k,
            body,
        ),
    decreases n,
{
    if k < n {
        lemma_variables_stop(all, answers, variables, k, (n - 1) as nat, body);
    }
}

pub open spec fn indices(v: Seq<usize>) -> Seq<int> {
    v.map_values(|i: usize| i as int)
}

fn find_places(all: &Vec<Mention>, name: &str) -> (r: Vec<usize>)
    ensures
        indices(r@) == places(mention_models(all@), name@),
        forall|k: int| 0 <= k < r@.len() ==> #[trigger] r@[k] < all@.len(),
{
    let ghost models = mention_models(all@);
    let mut out: Vec<usize> = Vec::new();
    let mut i: usize = 0;
    proof {
        assert(indices(out@) =~= places(models.take(0), name@));
    }
    while i < all.len()
        invariant
            i <= all@.len(),
            models == mention_models(all@),
            indices(out@) == places(models.take(i as int), name@),
            forall|k: int| 0 <= k < out@.len() ==> #[trigger] out@[k] < all@.len(),
        decreases all@.len() - i,
    {
        let ghost before = out@;
        proof {
            let t = models.take(i + 1);
            assert(t.drop_last() =~= models.take(i as int));
            assert(t.last() == all@[i as int]@);
        }
        if str_eq(all[i].name.as_str(), name) {
            out.push(i);
            proof {
                assert(indices(out@) =~= indices(before).push(i as int));
            }
        }
        i += 1;
    }
    proof {
        assert(models.take(all@.len() as int) =~= models);
    }
    out
}

fn push_each_overlapping(all: &Vec<Mention>, at: &Vec<usize>, name: &str, detail: &str, out: &mut Vec<
    Diagnostic,
>)
    requires
        forall|k: int| 0 <= k < at@.len() ==> #[trigger] at@[k] < all@.len(),
    ensures
        issues(final(out)@) == issues(old(out)@) + each_output(
            IssueKind::OverlappingUseEquations,
            mention_models(all@),
            indices(at@),
            name@,
            detail@,
        ),
{
    let ghost before = issues(out@);
    let ghost target = each_output(
        IssueKind::OverlappingUseEquations,
        mention_models(all@),
        indices(at@),
        name@,
        detail@,
    );
    let mut i: usize = 0;
    proof {
        assert(before + target.take(0) =~= before);
    }
    while i < at.len()
        invariant
            i <= at@.len(),
            forall|k: int| 0 <= k < at@.len() ==> #[trigger] at@[k] < all@.len(),
            target == each_output(
                IssueKind::OverlappingUseEquations,
                mention_models(all@),
                indices(at@),
                name@,
                detail@,
            ),
            issues(out@) == before + target.take(i as int),
        decreases at@.len() - i,
    {
        let m = &all[at[i]];
        report(
            out,
            Diagnostic::OverlappingUseEquations {
                name: name.to_owned(),
                detail: detail.to_owned(),
                start: m.output.start,
                end: m.output.end,
            },
        );
        proof {
            assert(indices(at@)[i as int] == at@[i as int]);
            assert(mention_models(all@)[at@[i as int] as int] == all@[at@[i as int] as int]@);
            assert(target.take(i + 1) =~= target.take(i as int).push(target[i as int]));
            assert(issues(out@) =~= before + target.take(i + 1));
        }
        i += 1;
    }
    proof {
        assert(target.take(at@.len() as int) =~= target);
    }
}

fn push_each_incomplete(all: &Vec<Mention>, at: &Vec<usize>, name: &str, detail: &str, out: &mut Vec<
    Diagnostic,
>)
    requires
        forall|k: int| 0 <= k < at@.len() ==> #[trigger] at@[k] < all@.len(),
    ensures
        issues(final(out)@) == issues(old(out)@) + each_output(
            IssueKind::IncompleteUseEquation,
            mention_models(all@),
            indices(at@),
            name@,
            detail@,
        ),
{
    let ghost before = issues(out@);
    let ghost target = each_output(
        IssueKind::IncompleteUseEquation,
        mention_models(all@),
        indices(at@),
        name@,
        detail@,
    );
    let mut i: usize = 0;
    proof {
        assert(before + target.take(0) =~= before);
    }
    while i < at.len()
        invariant
            i <= at@.len(),
            forall|k: int| 0 <= k < at@.len() ==> #[trigger] at@[k] < all@.len(),
            target == each_output(
                IssueKind::IncompleteUseEquation,
                mention_models(all@),
                indices(at@),
                name@,
                detail@,
            ),
            issues(out@) == before + target.take(i as int),
        decreases at@.len() - i,
    {
        let m = &all[at[i]];
        report(
            out,
            Diagnostic::IncompleteUseEquation {
                name: name.to_owned(),
                detail: detail.to_owned(),
                start: m.output.start,
                end: m.output.end,
            },
        );
        proof {
            assert(indices(at@)[i as int] == at@[i as int]);
            assert(mention_models(all@)[at@[i as int] as int] == all@[at@[i as int] as int]@);
            assert(target.take(i + 1) =~= target.take(i as int).push(target[i as int]));
            assert(issues(out@) =~= before + target.take(i + 1));
        }
        i += 1;
    }
    proof {
        assert(target.take(at@.len() as int) =~= target);
    }
}

/// Whether the mentions overlap; nothing, where something could not be computed.
fn add_up(all: &Vec<Mention>, answers: &Vec<MentionAnswer>, at: &Vec<usize>) -> (r:
    core::result::Result<Option<bool>, Diagnostic>)
    requires
        answers@.len() == all@.len(),
        forall|k: int| 0 <= k < at@.len() ==> #[trigger] at@[k] < all@.len(),
    ensures
        match r {
            Err(d) => sum(mention_models(all@), answers@, indices(at@), at@.len()) == Sum::Failed(
                d@,
            ),
            Ok(None) => sum(mention_models(all@), answers@, indices(at@), at@.len())
                == Sum::Unknown,
            Ok(Some(b)) => sum(mention_models(all@), answers@, indices(at@), at@.len())
                == Sum::Known(b),
        },
{
    let ghost models = mention_models(all@);
    let ghost where_at = indices(at@);
    let mut found = false;
    let mut k: usize = 0;
    while k < at.len()
        invariant
            k <= at@.len(),
            answers@.len() == all@.len(),
            forall|k: int| 0 <= k < at@.len() ==> #[trigger] at@[k] < all@.len(),
            models == mention_models(all@),
            where_at == indices(at@),
            sum(models, answers@, where_at, k as nat) == Sum::Known(found),
        decreases at@.len() - k,
    {
        let a = &answers[at[k]];
        proof {
            assert(where_at[k as int] == at@[k as int]);
            assert(models[at@[k as int] as int] == all@[at@[k as int] as int]@);
        }
        if !a.context {
            proof {
                lemma_sum_stops(models, answers@, where_at, (k + 1) as nat, at@.len());
            }
            return Ok(None);
        }
        if k > 0 {
            match &a.overlap {
                Err(m) => {
                    proof {
                        lemma_sum_stops(models, answers@, where_at, (k + 1) as nat, at@.len());
                    }
                    let span = all[at[k]].span;
                    return Err(
                        Diagnostic::IslError {
                            message: m.clone(),
                            start: span.start,
                            end: span.end,
                        },
                    );
                },
                Ok(b) => if *b {
                    found = true;
                },
            }
        }
        k += 1;
    }
    Ok(Some(found))
}

fn check_variable(
    all: &Vec<Mention>,
    answers: &Vec<MentionAnswer>,
    name: &str,
    a: &VariableAnswer,
    body: Span,
) -> (r: core::result::Result<Vec<Diagnostic>, Diagnostic>)
    requires
        answers@.len() == all@.len(),
    ensures
        match r {
            Ok(v) => variable_report(mention_models(all@), answers@, name@, *a, body) == Ok::<
                Seq<Issue>,
                Issue,
            >(issues(v@)),
            Err(d) => variable_report(mention_models(all@), answers@, name@, *a, body) == Err::<
                Seq<Issue>,
                Issue,
            >(d@),
        },
{
    let at = find_places(all, name);
    let mut diags: Vec<Diagnostic> = Vec::new();
    proof {
        assert(indices(at@).len() == at@.len());
        assert(issues(diags@) =~= Seq::<Issue>::empty());
    }
    match add_up(all, answers, &at) {
        Err(d) => return Err(d),
        Ok(None) => return Ok(diags),
        Ok(Some(found)) => if found {
            push_each_overlapping(all, &at, name, a.overlap.as_str(), &mut diags);
            proof {
                let t = each_output(
                    IssueKind::OverlappingUseEquations,
                    mention_models(all@),
                    indices(at@),
                    name@,
                    a.overlap@,
                );
                assert(Seq::<Issue>::empty() + t =~= t);
            }
        },
    }
    if !a.resolved {
        return Ok(diags);
    }
    match &a.missing {
        Err(m) => Err(
            Diagnostic::IslError { message: m.clone(), start: body.start, end: body.end },
        ),
        Ok(None) => Ok(diags),
        Ok(Some(d)) => {
            push_each_incomplete(all, &at, name, d.as_str(), &mut diags);
            Ok(diags)
        },
    }
}

fn is_first_mention(all: &Vec<Mention>, i: usize) -> (r: bool)
    requires
        i < all@.len(),
    ensures
        r == first_mention(mention_models(all@), i as int),
{
    let mut j: usize = 0;
    while j < i
        invariant
            j <= i < all@.len(),
            forall|k: int|
                0 <= k < j ==> (#[trigger] mention_models(all@)[k]).name != mention_models(
                    all@,
                )[i as int].name,
        decreases i - j,
    {
        if str_eq(all[j].name.as_str(), all[i].name.as_str()) {
            proof {
                assert(mention_models(all@)[j as int].name == mention_models(all@)[i as int].name);
            }
            return false;
        }
        j += 1;
    }
    true
}

/// Checks that the use equations of a body write no part of a variable twice, and leave none out.
/// There is an answer for each mention, and one for each variable at its first mention.
pub fn check_use_equation_outputs_in_body(
    body: &SystemBody,
    answers: &Vec<MentionAnswer>,
    variables: &Vec<VariableAnswer>,
) -> (r: Vec<Diagnostic>)
    requires
        answers@.len() == mentions_in(body.equations@).len(),
        variables@.len() == mentions_in(body.equations@).len(),
    ensures
        issues(r@) == outputs_report(*body, answers@, variables@),
{
    let all = output_mentions(body);
    let ghost models = mention_models(all@);
    let mut diags: Vec<Diagnostic> = Vec::new();
    let mut i: usize = 0;
    proof {
        assert(models.len() == all@.len());
        assert(issues(diags@) =~= Seq::<Issue>::empty());
    }
    while i < all.len()
        invariant
            i <= all@.len(),
            models == mention_models(all@),
            models == mentions_in(body.equations@),
            models.len() == all@.len(),
            answers@.len() == all@.len(),
            variables@.len() == all@.len(),
            variables_report(models, answers@, variables@, i as nat, body.span) == Ok::<
                Seq<Issue>,
                Issue,
            >(issues(diags@)),
        decreases all@.len() - i,
    {
        proof {
            assert(models[i as int] == all@[i as int]@);
        }
        if is_first_mention(&all, i) {
            match check_variable(&all, answers, all[i].name.as_str(), &variables[i], body.span) {
                Ok(more) => report_all(&mut diags, more),
                Err(d) => {
                    proof {
                        lemma_variables_stop(
                            models,
                            answers@,
                            variables@,
                            (i + 1) as nat,
                            models.len(),
                            body.span,
                        );
                    }
                    let mut only: Vec<Diagnostic> = Vec::new();
                    only.push(d);
                    proof {
                        assert(issues(only@) =~= seq![d@]);
                    }
                    return only;
                },
            }
        }
        i += 1;
    }
    diags
}

/// What came out for the use equations of one body: an answer for each mention, and one for each
/// variable at its first mention.
#[derive(Debug)]
pub struct OutputsAnswer {
    pub mentions: Vec<MentionAnswer>,
    pub variables: Vec<VariableAnswer>,
}

/// There is an answer for every mention in every body.
pub open spec fn outputs_answered(bodies: Seq<SystemBody>, answers: Seq<OutputsAnswer>) -> bool {
    &&& answers.len() == bodies.len()
    &&& forall|i: int|
        0 <= i < bodies.len() ==> (#[trigger] answers[i]).mentions@.len() == mentions_in(
            bodies[i].equations@,
        ).len() && answers[i].variables@.len() == mentions_in(bodies[i].equations@).len()
}

/// What is reported of the use equations of the first `n` bodies.
pub open spec fn all_outputs_report(
    bodies: Seq<SystemBody>,
    answers: Seq<OutputsAnswer>,
    n: nat,
) -> Seq<Issue>
    decreases n,
{
    if n == 0 {
        Seq::empty()
    } else {
        all_outputs_report(bodies, answers, (n - 1) as nat) + outputs_report(
            bodies[n - 1],
            answers[n - 1].mentions@,
            answers[n - 1].variables@,
        )
    }
}

/// Checks the use equations of every body of a system.
pub fn check_use_equation_outputs(system: &System, answers: &Vec<OutputsAnswer>) -> (r: Vec<
    Diagnostic,
>)
    requires
        outputs_answered(system.bodies@, answers@),
    ensures
        issues(r@) == all_outputs_report(system.bodies@, answers@, system.bodies@.len()),
{
    let mut diags: Vec<Diagnostic> = Vec::new();
    let mut i: usize = 0;
    proof {
        assert(issues(diags@) =~= Seq::<Issue>::empty());
    }
    while i < system.bodies.len()
        invariant
            i <= system.bodies@.len(),
            outputs_answered(system.bodies@, answers@),
            issues(diags@) == all_outputs_report(system.bodies@, answers@, i as nat),
        decreases system.bodies@.len() - i,
    {
        proof {
            assert(answers@[i as int].mentions@.len() == mentions_in(
                system.bodies@[i as int].equations@,
            ).len());
        }
        let more = check_use_equation_outputs_in_body(
            &system.bodies[i],
            &answers[i].mentions,
            &answers[i].variables,
        );
        report_all(&mut diags, more);
        i += 1;
    }
    diags
}

/// Where everything could be computed, nothing overlaps, and nothing is left out of any variable,
/// nothing is reported of the use equations of a body.
pub proof fn disjoint_complete_outputs_are_accepted(
    body: SystemBody,
    answers: Seq<MentionAnswer>,
    variables: Seq<VariableAnswer>,
)
    requires
        answers.len() == mentions_in(body.equations@).len(),
        variables.len() == mentions_in(body.equations@).len(),
        forall|i: int|
            0 <= i < answers.len() ==> (#[trigger] answers[i]).context && answers[i].overlap == Ok::<
                bool,
                String,
            >(false),
        forall|i: int|
            0 <= i < variables.len() ==> (#[trigger] variables[i]).missing == Ok::<
                Option<String>,
                String,
            >(None),
    ensures
        outputs_report(body, answers, variables).len() == 0,
{
    let all = mentions_in(body.equations@);
    lemma_accepted(all, answers, variables, all.len(), body.span);
}

proof fn lemma_sum_known(all: Seq<MentionModel>, answers: Seq<MentionAnswer>, at: Seq<int>, n: nat)
    requires
        n <= at.len(),
        forall|k: int| 0 <= k < at.len() ==> 0 <= #[trigger] at[k] < answers.len(),
        forall|i: int|
            0 <= i < answers.len() ==> (#[trigger] answers[i]).context && answers[i].overlap == Ok::<
                bool,
                String,
            >(false),
    ensures
        sum(all, answers, at, n) == Sum::Known(false),
    decreases n,
{
    if n > 0 {
        lemma_sum_known(all, answers, at, (n - 1) as nat);
        assert(answers[at[n - 1]].context);
    }
}

proof fn lemma_accepted(
    all: Seq<MentionModel>,
    answers: Seq<MentionAnswer>,
    variables: Seq<VariableAnswer>,
    n: nat,
    body: Span,
)
    requires
        n <= all.len(),
        answers.len() == all.len(),
        variables.len() == all.len(),
        forall|i: int|
            0 <= i < answers.len() ==> (#[trigger] answers[i]).context && answers[i].overlap == Ok::<
                bool,
                String,
            >(false),
        forall|i: int|
            0 <= i < variables.len() ==> (#[trigger] variables[i]).missing == Ok::<
                Option<String>,
                String,
            >(None),
    ensures
        variables_report(all, answers, variables, n, body) == Ok::<Seq<Issue>, Issue>(
            Seq::empty(),
        ),
    decreases n,
{
    if n > 0 {
        lemma_accepted(all, answers, variables, (n - 1) as nat, body);
        let name = all[n - 1].name;
        lemma_places(all, name);
        lemma_sum_known(all, answers, places(all, name), places(all, name).len());
        assert(variables[n - 1].missing == Ok::<Option<String>, String>(None));
        assert(Seq::<Issue>::empty() + Seq::<Issue>::empty() =~= Seq::<Issue>::empty());
    }
}

} // verus!
