//! Normalized systems, as the code generators read them.
//!
//! Polyhedral facts are held as plain values: an affine function or a condition is the C text it
//! prints, with holes for the names of the indices it is printed over; a domain is its
//! dimensionality together with the C text of its bounds and of the loop nest that scans it.
use crate::error::IslError;
use crate::multiplicity::Multiplicity;
use crate::text::{push_text, views};
use crate::ty::ElementType;
use vstd::prelude::*;

verus! {

/// A stretch of C text, or the place of the name of one index.
#[derive(Debug)]
pub enum Piece {
    Text(String),
    /// The name of the index at this position of the ambient tuple. A template mentions only
    /// positions of the tuple that it was printed over; any other position prints nothing.
    Index(u32),
}

/// C text over the names of an ambient index tuple.
#[derive(Debug)]
pub struct Template {
    pub pieces: Vec<Piece>,
}

pub open spec fn piece_text(p: Piece, names: Seq<Seq<char>>) -> Seq<char> {
    match p {
        Piece::Text(s) => s@,
        Piece::Index(k) => if (k as int) < names.len() {
            names[k as int]
        } else {
            Seq::empty()
        },
    }
}

/// The pieces one after another, with `names` in the holes.
pub open spec fn pieces_text(v: Seq<Piece>, names: Seq<Seq<char>>) -> Seq<char>
    decreases v.len(),
{
    if v.len() == 0 {
        Seq::empty()
    } else {
        pieces_text(v.drop_last(), names) + piece_text(v.last(), names)
    }
}

impl Template {
    pub open spec fn filled(self, names: Seq<Seq<char>>) -> Seq<char> {
        pieces_text(self.pieces@, names)
    }

    /// The text with `names` in its holes.
    pub fn fill(&self, names: &Vec<String>) -> (r: String)
        ensures
            r@ == self.filled(views(names@)),
    {
        let mut out = String::new();
        let mut i: usize = 0;
        proof {
            assert(self.pieces@.take(0) =~= Seq::empty());
        }
        while i < self.pieces.len()
            invariant
                i <= self.pieces.len(),
                out@ == pieces_text(self.pieces@.take(i as int), views(names@)),
            decreases self.pieces.len() - i,
        {
            proof {
                assert(self.pieces@.take(i + 1).drop_last() =~= self.pieces@.take(i as int));
            }
            match &self.pieces[i] {
                Piece::Text(s) => out.append(s.as_str()),
                Piece::Index(k) => {
                    if (*k as usize) < names.len() {
                        out.append(names[*k as usize].as_str());
                    } else {
                        proof {
                            assert(out@ + Seq::<char>::empty() =~= out@);
                        }
                    }
                },
            }
            i += 1;
        }
        proof {
            assert(self.pieces@.take(i as int) =~= self.pieces@);
        }
        out
    }
}

/// An affine function of an index tuple: one template per output.
#[derive(Debug)]
pub struct AffineFunction {
    /// The function in the notation of the polyhedral library.
    pub text: String,
    pub n_in: u32,
    pub outputs: Vec<Template>,
}

pub open spec fn filled_all(v: Seq<Template>, names: Seq<Seq<char>>) -> Seq<Seq<char>> {
    Seq::new(v.len(), |i: int| v[i].filled(names))
}

impl AffineFunction {
    /// The C text of each output, with `names` for the inputs.
    pub fn rename_inputs(&self, names: &Vec<String>) -> (r: Vec<String>)
        ensures
            views(r@) == filled_all(self.outputs@, views(names@)),
    {
        let mut out: Vec<String> = Vec::new();
        let mut i: usize = 0;
        while i < self.outputs.len()
            invariant
                i <= self.outputs.len(),
                views(out@) =~= filled_all(self.outputs@, views(names@)).take(i as int),
            decreases self.outputs.len() - i,
        {
            push_text(&mut out, self.outputs[i].fill(names));
            i += 1;
        }
        proof {
            assert(filled_all(self.outputs@, views(names@)).take(i as int) =~= filled_all(
                self.outputs@,
                views(names@),
            ));
        }
        out
    }
}

/// The header of one loop of a nest that scans a reduction's new dimensions: the position of the
/// dimension it steps, and its C texts, over the ambient indices followed by the new ones.
#[derive(Debug)]
pub struct LoopTemplate {
    pub dim: u32,
    pub init: Template,
    pub cond: Template,
    pub inc: Template,
}

/// What is known of the domain of a reduction's body.
#[derive(Debug)]
pub struct ReduceDomain {
    /// Where the body is defined, in the notation of the polyhedral library.
    pub extent: String,
    /// Where the body is needed, in the notation of the polyhedral library.
    pub context: String,
    /// The ambient dimensions and the new ones together.
    pub total: u32,
    /// The loop nest over the new dimensions, outermost first. A dimension that has a single value
    /// gets no loop.
    pub nest: core::result::Result<Vec<LoopTemplate>, IslError>,
    /// The highest value of each dimension, over the ambient indices; read for new ones only.
    pub maxima: Vec<core::result::Result<Template, IslError>>,
}

impl ReduceDomain {
    /// Loops step dimensions of the domain, and every dimension has its highest value on record.
    pub open spec fn wf(self) -> bool {
        &&& self.maxima@.len() == self.total
        &&& self.nest matches Ok(nest) ==> forall|i: int|
            0 <= i < nest@.len() ==> (#[trigger] nest@[i]).dim < self.total
    }
}

#[derive(Debug)]
pub enum Operator {
    Named(String),
    External(String),
}

#[derive(Debug)]
pub struct Expr {
    pub kind: Box<ExprKind>,
    /// The condition that the context domain of the expression holds, over the ambient indices;
    /// absent where no context was established.
    pub context: Option<Template>,
}

#[derive(Debug)]
#[allow(inconsistent_fields)]
pub enum ExprKind {
    Variable(String),
    Bool(bool),
    Int(String),
    Real(String),
    Dependence { function: AffineFunction, operand: Expr },
    IndexFunction { function: AffineFunction },
    IndexPolynomial,
    If { cond: Expr, then_branch: Expr, else_branch: Expr },
    Restrict { operand: Expr },
    AutoRestrict { operand: Expr },
    Case { branches: Vec<Expr> },
    Reduce {
        is_arg_reduce: bool,
        operator: Operator,
        body_context: Vec<String>,
        body: Expr,
        /// Sends the points of the body to those of the result.
        projection: AffineFunction,
        /// Absent where the body has no context domain.
        domain: Option<ReduceDomain>,
    },
    Convolution { kernel: Expr, data: Expr },
    Select { operand: Expr },
    MultiArg { operator: Operator, args: Vec<Expr> },
    Binary { operator: String, lhs: Expr, rhs: Expr },
    Unary { operator: String, operand: Expr },
}

/// Every reduction in the expression has a well-formed domain.
pub open spec fn expr_wf(e: Expr) -> bool
    decreases e,
{
    match *e.kind {
        ExprKind::Dependence { function, operand } => expr_wf(operand),
        ExprKind::If { cond, then_branch, else_branch } => expr_wf(cond) && expr_wf(then_branch)
            && expr_wf(else_branch),
        ExprKind::Restrict { operand } => expr_wf(operand),
        ExprKind::AutoRestrict { operand } => expr_wf(operand),
        ExprKind::Case { branches } => exprs_wf(branches@),
        ExprKind::Reduce { is_arg_reduce, operator, body_context, body, projection, domain } => {
            &&& expr_wf(body)
            &&& domain matches Some(d) ==> d.wf()
        },
        ExprKind::Convolution { kernel, data } => expr_wf(kernel) && expr_wf(data),
        ExprKind::Select { operand } => expr_wf(operand),
        ExprKind::MultiArg { operator, args } => exprs_wf(args@),
        ExprKind::Binary { operator, lhs, rhs } => expr_wf(lhs) && expr_wf(rhs),
        ExprKind::Unary { operator, operand } => expr_wf(operand),
        _ => true,
    }
}

pub open spec fn exprs_wf(v: Seq<Expr>) -> bool
    decreases v,
{
    forall|i: int| 0 <= i < v.len() ==> expr_wf(#[trigger] v[i])
}

/// The header of one loop of a nest, as C text.
#[derive(Debug)]
pub struct LoopHeader {
    pub iterator: String,
    pub init: String,
    pub cond: String,
    pub inc: String,
}

/// The domain of a variable.
#[derive(Debug)]
pub struct Domain {
    /// The set in the notation of the polyhedral library.
    pub text: String,
    pub ndims: u32,
    /// The lowest value of each dimension, over the parameters.
    pub mins: Vec<core::result::Result<String, IslError>>,
    /// The highest value of each dimension, over the parameters.
    pub maxs: Vec<core::result::Result<String, IslError>>,
    /// The loop nest that scans the domain with iterators `i0`, `i1`, and so on.
    pub nest: core::result::Result<Vec<LoopHeader>, IslError>,
}

impl Domain {
    /// Every dimension has a lowest and a highest value on record.
    pub open spec fn wf(self) -> bool {
        self.mins@.len() == self.ndims && self.maxs@.len() == self.ndims
    }
}

#[derive(Debug)]
pub struct Variable {
    pub name: String,
    pub domain: Domain,
    pub element_type: ElementType,
    pub multiplicity: Multiplicity,
}

pub open spec fn all_wf(v: Seq<Variable>) -> bool {
    forall|i: int| 0 <= i < v.len() ==> (#[trigger] v[i]).domain.wf()
}

#[derive(Debug)]
pub struct StandardEquation {
    pub variable: String,
    pub index_names: Vec<String>,
    pub expr: Expr,
}

/// The read or the write of one point of a variable.
#[derive(Debug)]
pub struct Access {
    pub variable: String,
    pub function: AffineFunction,
}

/// A call of a registered operation over a domain.
#[derive(Debug)]
pub struct OperationCall {
    pub operation: crate::operation::RegisteredOperation,
    /// The points at which it is called, in the notation of the polyhedral library.
    pub domain: String,
    pub ndims: u32,
    pub inputs: Vec<Access>,
    pub outputs: Vec<Access>,
}

#[derive(Debug)]
pub enum Equation {
    Standard(StandardEquation),
    Use,
    OperationCall(OperationCall),
}

pub open spec fn equation_wf(eq: Equation) -> bool {
    match eq {
        Equation::Standard(s) => expr_wf(s.expr),
        _ => true,
    }
}

#[derive(Debug)]
pub struct SystemBody {
    /// The condition on the parameters under which the body applies.
    pub guard: String,
    /// The names of the parameters of its domain; a parameter may be unnamed.
    pub params: Vec<Option<String>>,
    pub equations: Vec<Equation>,
}

#[derive(Debug)]
pub struct System {
    pub name: String,
    /// The names of the parameters of the system; a parameter may be unnamed.
    pub params: Vec<Option<String>>,
    pub inputs: Vec<Variable>,
    pub outputs: Vec<Variable>,
    pub locals: Vec<Variable>,
    pub bodies: Vec<SystemBody>,
    /// The condition on the parameters under which some body applies.
    pub validity: core::result::Result<String, IslError>,
}

impl System {
    pub open spec fn wf(self) -> bool {
        &&& all_wf(self.inputs@)
        &&& all_wf(self.outputs@)
        &&& all_wf(self.locals@)
        &&& all_equations_wf(self.bodies@)
    }
}

/// The standard equations of one body that define `name`, in order.
pub open spec fn defining(equations: Seq<Equation>, name: Seq<char>) -> Seq<StandardEquation>
    decreases equations.len(),
{
    if equations.len() == 0 {
        Seq::empty()
    } else {
        let before = defining(equations.drop_last(), name);
        match equations.last() {
            Equation::Standard(s) => if s.variable@ == name {
                before.push(s)
            } else {
                before
            },
            _ => before,
        }
    }
}

/// The standard equations that define `name`, each with the guard of its body, in order.
pub open spec fn equations_of(bodies: Seq<SystemBody>, name: Seq<char>) -> Seq<
    (String, StandardEquation),
>
    decreases bodies.len(),
{
    if bodies.len() == 0 {
        Seq::empty()
    } else {
        let own = defining(bodies.last().equations@, name);
        equations_of(bodies.drop_last(), name) + guarded(bodies.last().guard, own)
    }
}

/// The pairs a list of references refers to.
pub open spec fn referred(v: Seq<(&String, &StandardEquation)>) -> Seq<(String, StandardEquation)> {
    Seq::new(v.len(), |i: int| (*v[i].0, *v[i].1))
}

pub open spec fn all_equations_wf(bodies: Seq<SystemBody>) -> bool {
    forall|b: int, q: int|
        0 <= b < bodies.len() && 0 <= q < bodies[b].equations@.len() ==> equation_wf(
            #[trigger] bodies[b].equations@[q],
        )
}

/// Finds the equations that define `name`.
pub fn find_equations<'a>(bodies: &'a Vec<SystemBody>, name: &str) -> (r: Vec<
    (&'a String, &'a StandardEquation),
>)
    requires
        all_equations_wf(bodies@),
    ensures
        referred(r@) == equations_of(bodies@, name@),
        forall|i: int| 0 <= i < r@.len() ==> expr_wf((#[trigger] r@[i]).1.expr),
{
    let mut out: Vec<(&'a String, &'a StandardEquation)> = Vec::new();
    let mut b: usize = 0;
    proof {
        assert(bodies@.take(0) =~= Seq::empty());
        assert(referred(out@) =~= Seq::empty());
    }
    while b < bodies.len()
        invariant
            b <= bodies.len(),
            all_equations_wf(bodies@),
            referred(out@) == equations_of(bodies@.take(b as int), name@),
            forall|i: int| 0 <= i < out@.len() ==> expr_wf((#[trigger] out@[i]).1.expr),
        decreases bodies.len() - b,
    {
        let ghost start = referred(out@);
        let body = &bodies[b];
        let ghost guard = body.guard;
        let mut q: usize = 0;
        proof {
            assert(body.equations@.take(0) =~= Seq::empty());
            assert(start + guarded(guard, Seq::empty()) =~= start);
        }
        while q < body.equations.len()
            invariant
                b < bodies.len(),
                *body == bodies@[b as int],
                guard == body.guard,
                q <= body.equations.len(),
                all_equations_wf(bodies@),
                referred(out@) == start + guarded(
                    guard,
                    defining(body.equations@.take(q as int), name@),
                ),
                forall|i: int| 0 <= i < out@.len() ==> expr_wf((#[trigger] out@[i]).1.expr),
            decreases body.equations.len() - q,
        {
            let ghost before = referred(out@);
            let ghost own = defining(body.equations@.take(q as int), name@);
            proof {
                let t = body.equations@.take(q + 1);
                assert(t.drop_last() =~= body.equations@.take(q as int));
                assert(t.last() == bodies@[b as int].equations@[q as int]);
            }
            match &body.equations[q] {
                Equation::Standard(s) => {
                    if crate::text::str_eq(s.variable.as_str(), name) {
                        out.push((&body.guard, s));
                        proof {
                            assert(referred(out@) =~= before.push((guard, *s)));
                            assert(guarded(guard, own.push(*s)) =~= guarded(guard, own).push(
                                (guard, *s),
                            ));
                            assert(before.push((guard, *s)) =~= start + guarded(guard, own).push(
                                (guard, *s),
                            ));
                        }
                    }
                },
                _ => {},
            }
            q += 1;
        }
        proof {
            assert(body.equations@.take(q as int) =~= body.equations@);
            assert(bodies@.take(b + 1).drop_last() =~= bodies@.take(b as int));
            assert(bodies@.take(b + 1).last() == bodies@[b as int]);
        }
        b += 1;
    }
    proof {
        assert(bodies@.take(b as int) =~= bodies@);
    }
    out
}

/// Each equation with the same guard.
pub open spec fn guarded(guard: String, v: Seq<StandardEquation>) -> Seq<(String, StandardEquation)> {
    Seq::new(v.len(), |i: int| (guard, v[i]))
}

/// Some equation instantiates a subsystem.
pub open spec fn has_use(bodies: Seq<SystemBody>) -> bool {
    exists|b: int, q: int|
        0 <= b < bodies.len() && 0 <= q < bodies[b].equations@.len() && (
        #[trigger] bodies[b].equations@[q]) is Use
}

pub fn contains_use(bodies: &Vec<SystemBody>) -> (r: bool)
    ensures
        r == has_use(bodies@),
{
    let mut b: usize = 0;
    while b < bodies.len()
        invariant
            b <= bodies.len(),
            forall|c: int, q: int|
                0 <= c < b && 0 <= q < bodies@[c].equations@.len() ==> !((
                #[trigger] bodies@[c].equations@[q]) is Use),
        decreases bodies.len() - b,
    {
        let mut q: usize = 0;
        while q < bodies[b].equations.len()
            invariant
                b < bodies.len(),
                q <= bodies@[b as int].equations@.len(),
                forall|k: int|
                    0 <= k < q ==> !((#[trigger] bodies@[b as int].equations@[k]) is Use),
            decreases bodies@[b as int].equations@.len() - q,
        {
            if let Equation::Use = &bodies[b].equations[q] {
                proof {
                    assert(bodies@[b as int].equations@[q as int] is Use);
                }
                return true;
            }
            q += 1;
        }
        b += 1;
    }
    false
}

} // verus!
