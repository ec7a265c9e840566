//! The two notations for functions on index tuples, `(i,j -> ...)` and `[...]`, and polynomials
//! over the index names in scope.
use crate::diagnostic::{issue, Diagnostic, Issue, IssueKind};
use crate::polyhedral::{FunctionModel, FunctionTerm, PolynomialModel, PolynomialTerm};
use crate::resolve::{prefixed, text_in, undefined, Resolver};
use crate::scan::{elements, inside, pieces, split, split_elements, strip, trim, trimmed};
use crate::syntax::{Calc, CalcKind, FnExpr, FnExprKind, Span, System};
use crate::text::{cat3, cat5, cat7, chars_of, join, joined, push_text, views};
use vstd::prelude::*;

verus! {

/// The text of an expression in a function literal, or what is missing from it.
pub open spec fn fn_text(e: FnExpr) -> core::result::Result<Seq<char>, Issue>
    decreases e,
{
    match e.kind {
        FnExprKind::Literal(t) => Ok(t@),
        FnExprKind::Floor(operand) => match operand {
            None => Err(undefined("<missing operand>"@, e.span)),
            Some(o) => match fn_text(*o) {
                Err(i) => Err(i),
                Ok(t) => Ok("floor("@ + t + ")"@),
            },
        },
        FnExprKind::Binary { operator, lhs, rhs } => match lhs {
            None => Err(undefined("<missing operand>"@, e.span)),
            Some(l) => match fn_text(*l) {
                Err(i) => Err(i),
                Ok(lt) => match rhs {
                    None => Err(undefined("<missing operand>"@, e.span)),
                    Some(r) => match fn_text(*r) {
                        Err(i) => Err(i),
                        Ok(rt) => Ok("("@ + lt + " "@ + operator@ + " "@ + rt + ")"@),
                    },
                },
            },
        },
    }
}

/// The texts of the results of a function literal, or the first thing that is missing.
pub open spec fn fn_texts(exprs: Seq<FnExpr>) -> core::result::Result<Seq<Seq<char>>, Issue>
    decreases exprs.len(),
{
    if exprs.len() == 0 {
        Ok(Seq::empty())
    } else {
        match fn_texts(exprs.drop_last()) {
            Err(i) => Err(i),
            Ok(before) => match fn_text(exprs.last()) {
                Err(i) => Err(i),
                Ok(t) => Ok(before.push(t)),
            },
        }
    }
}

proof fn lemma_fn_texts_stop(exprs: Seq<FnExpr>, n: int)
    requires
        0 <= n <= exprs.len(),
        fn_texts(exprs.take(n)) is Err,
    ensures
        fn_texts(exprs) == fn_texts(exprs.take(n)),
    decreases exprs.len(),
{
    if n == exprs.len() {
        assert(exprs.take(n) =~= exprs);
    } else {
        assert(exprs.drop_last().take(n) =~= exprs.take(n));
        lemma_fn_texts_stop(exprs.drop_last(), n);
    }
}

fn missing_operand(span: Span) -> (r: Diagnostic)
    ensures
        r@ == undefined("<missing operand>"@, span),
{
    Diagnostic::UndefinedReference {
        name: "<missing operand>".to_owned(),
        start: span.start,
        end: span.end,
    }
}

pub fn render_fn_expr(e: &FnExpr) -> (r: core::result::Result<String, Diagnostic>)
    ensures
        match r {
            Ok(t) => fn_text(*e) == Ok::<Seq<char>, Issue>(t@),
            Err(d) => fn_text(*e) == Err::<Seq<char>, Issue>(d@),
        },
    decreases e,
{
    match &e.kind {
        FnExprKind::Literal(t) => Ok(t.clone()),
        FnExprKind::Floor(operand) => match operand {
            None => Err(missing_operand(e.span)),
            Some(o) => match render_fn_expr(o) {
                Err(d) => Err(d),
                Ok(t) => Ok(cat3("floor(", t.as_str(), ")")),
            },
        },
        FnExprKind::Binary { operator, lhs, rhs } => match lhs {
            None => Err(missing_operand(e.span)),
            Some(l) => match render_fn_expr(l) {
                Err(d) => Err(d),
                Ok(lt) => match rhs {
                    None => Err(missing_operand(e.span)),
                    Some(r) => match render_fn_expr(r) {
                        Err(d) => Err(d),
                        Ok(rt) => Ok(
                            cat7(
                                "(",
                                lt.as_str(),
                                " ",
                                operator.as_str(),
                                " ",
                                rt.as_str(),
                                ")",
                            ),
                        ),
                    },
                },
            },
        },
    }
}

fn render_fn_exprs(exprs: &Vec<FnExpr>) -> (r: core::result::Result<Vec<String>, Diagnostic>)
    ensures
        match r {
            Ok(t) => fn_texts(exprs@) == Ok::<Seq<Seq<char>>, Issue>(views(t@)),
            Err(d) => fn_texts(exprs@) == Err::<Seq<Seq<char>>, Issue>(d@),
        },
{
    let mut out: Vec<String> = Vec::new();
    let mut i: usize = 0;
    proof {
        assert(views(out@) =~= Seq::<Seq<char>>::empty());
    }
    while i < exprs.len()
        invariant
            i <= exprs@.len(),
            fn_texts(exprs@.take(i as int)) == Ok::<Seq<Seq<char>>, Issue>(views(out@)),
        decreases exprs@.len() - i,
    {
        proof {
            let t = exprs@.take(i + 1);
            assert(t.drop_last() =~= exprs@.take(i as int));
            assert(t.last() == exprs@[i as int]);
        }
        match render_fn_expr(&exprs[i]) {
            Ok(t) => push_text(&mut out, t),
            Err(d) => {
                proof {
                    lemma_fn_texts_stop(exprs@, i + 1);
                }
                return Err(d);
            },
        }
        i += 1;
    }
    proof {
        assert(exprs@.take(exprs@.len() as int) =~= exprs@);
    }
    Ok(out)
}

/// A function from one tuple to another.
pub open spec fn function_text(inputs: Seq<Seq<char>>, outputs: Seq<Seq<char>>) -> Seq<char> {
    "{ ["@ + joined(inputs, ","@) + "] -> ["@ + joined(outputs, ","@) + "] }"@
}

pub(crate) fn write_function(inputs: &Vec<String>, outputs: &Vec<String>) -> (r: String)
    ensures
        r@ == function_text(views(inputs@), views(outputs@)),
{
    let domain = join(inputs, ",");
    let range = join(outputs, ",");
    cat5("{ [", domain.as_str(), "] -> [", range.as_str(), "] }")
}

/// The elements of an array notation `[...]`, cut at the commas outside brackets.
pub open spec fn array_elements(text: Seq<char>) -> Seq<Seq<char>> {
    let inner = trimmed(inside(trimmed(text), '[', ']'));
    if inner.len() == 0 {
        Seq::empty()
    } else {
        elements(inner)
    }
}

/// The function that a calculator expression stands for. The array notation is a function of the
/// index names in scope; the other one names its own.
pub open spec fn function_value(s: System, c: Calc, context: Seq<Seq<char>>) -> FunctionModel {
    match c.kind {
        CalcKind::Function { inputs, exprs } => match fn_texts(exprs@) {
            Err(i) => FunctionModel::Failed(i),
            Ok(outputs) => FunctionModel::Read(
                prefixed(s, function_text(views(inputs@), outputs)),
                c.span,
            ),
        },
        CalcKind::ArrayFunction { elements } => FunctionModel::Read(
            prefixed(s, function_text(context, array_elements(text_in(s, c)))),
            c.span,
        ),
        _ => FunctionModel::Failed(
            issue(
                IssueKind::InvalidCalculatorOperand,
                seq!["function position"@, "non-function calculator expression"@],
                c.span.pair(),
            ),
        ),
    }
}

/// One piece of a polynomial, over the index names in scope.
pub open spec fn polynomial_piece(context: Seq<Seq<char>>, piece: Seq<char>) -> Seq<char> {
    "["@ + joined(context, ","@) + "] ->"@ + " "@ + trimmed(piece)
}

/// The polynomial that a braced notation stands for: each of its pieces is one over the index
/// names in scope.
pub open spec fn polynomial_value(s: System, c: Calc, context: Seq<Seq<char>>) -> PolynomialModel {
    let inner = trimmed(inside(trimmed(text_in(s, c)), '{', '}'));
    let parts = pieces(inner, ';').map_values(|p: Seq<char>| polynomial_piece(context, p));
    PolynomialModel { text: prefixed(s, "{ "@ + joined(parts, "; "@) + " }"@), at: c.span }
}

impl<'a> Resolver<'a> {
    fn array_function_elements(&self, af: &Calc) -> (r: Vec<String>)
        requires
            self.wf(),
        ensures
            views(r@) == array_elements(text_in(*self.system, *af)),
    {
        let text = self.text_of(af);
        let outer = trim(text.as_str());
        let bare = strip(outer.as_str(), '[', ']');
        let inner = trim(bare.as_str());
        let chars = chars_of(inner.as_str());
        if chars.len() == 0 {
            let out: Vec<String> = Vec::new();
            proof {
                assert(views(out@) =~= Seq::<Seq<char>>::empty());
            }
            out
        } else {
            split_elements(inner.as_str())
        }
    }

    pub fn eval_function(&self, calc: &Calc, index_names: &Vec<String>) -> (r: FunctionTerm)
        requires
            self.wf(),
        ensures
            r@ == function_value(*self.system, *calc, views(index_names@)),
    {
        match &calc.kind {
            CalcKind::Function { inputs, exprs } => match render_fn_exprs(exprs) {
                Err(d) => FunctionTerm::Failed(d),
                Ok(outputs) => {
                    let text = write_function(inputs, &outputs);
                    FunctionTerm::Read {
                        text: self.with_param_prefix(text.as_str()),
                        at: calc.span,
                    }
                },
            },
            CalcKind::ArrayFunction { .. } => {
                let outputs = self.array_function_elements(calc);
                let text = write_function(index_names, &outputs);
                FunctionTerm::Read { text: self.with_param_prefix(text.as_str()), at: calc.span }
            },
            _ => FunctionTerm::Failed(
                Diagnostic::InvalidCalculatorOperand {
                    operator: "function position".to_owned(),
                    operand_kind: "non-function calculator expression".to_owned(),
                    start: calc.span.start,
                    end: calc.span.end,
                },
            ),
        }
    }

    pub fn eval_polynomial_in_context(&self, ap: &Calc, index_names: &Vec<String>) -> (r:
        PolynomialTerm)
        requires
            self.wf(),
        ensures
            r@ == polynomial_value(*self.system, *ap, views(index_names@)),
    {
        let text = self.text_of(ap);
        let outer = trim(text.as_str());
        let bare = strip(outer.as_str(), '{', '}');
        let inner = trim(bare.as_str());
        let tuple = join(index_names, ",");
        let prefix = cat3("[", tuple.as_str(), "] ->");
        let parts = split(inner.as_str(), ';');
        let ghost context = views(index_names@);
        let ghost target = pieces(inner@, ';').map_values(
            |p: Seq<char>| polynomial_piece(context, p),
        );
        let mut out: Vec<String> = Vec::new();
        let mut i: usize = 0;
        proof {
            assert(views(parts@).len() == parts@.len());
            assert(views(out@) =~= target.take(0));
        }
        while i < parts.len()
            invariant
                i <= parts@.len(),
                views(parts@) == pieces(inner@, ';'),
                context == views(index_names@),
                prefix@ == "["@ + joined(context, ","@) + "] ->"@,
                target == pieces(inner@, ';').map_values(
                    |p: Seq<char>| polynomial_piece(context, p),
                ),
                target.len() == parts@.len(),
                views(out@) == target.take(i as int),
            decreases parts@.len() - i,
        {
            proof {
                assert(views(parts@)[i as int] == parts@[i as int]@);
                assert(target.take(i + 1) =~= target.take(i as int).push(target[i as int]));
            }
            let piece = trim(parts[i].as_str());
            push_text(&mut out, cat3(prefix.as_str(), " ", piece.as_str()));
            i += 1;
        }
        proof {
            assert(target.take(parts@.len() as int) =~= target);
        }
        let all = join(&out, "; ");
        let full = cat3("{ ", all.as_str(), " }");
        PolynomialTerm { text: self.with_param_prefix(full.as_str()), at: ap.span }
    }
}

} // verus!
