//! The surface syntax of a program, as the parser delivers it: every node with its source range,
//! and every part that a source text may leave out as an `Option`.
use crate::multiplicity::Multiplicity;
use crate::ty::DeclaredType;
use vstd::prelude::*;

verus! {

/// A range of bytes in a source text.
#[derive(Debug, Clone, Copy, PartialEq, Eq, Structural)]
pub struct Span {
    pub start: u32,
    pub end: u32,
}

impl Span {
    pub open spec fn pair(self) -> (u32, u32) {
        (self.start, self.end)
    }
}

/// An identifier where it stands in the source.
#[derive(Debug)]
pub struct Name {
    pub text: String,
    pub span: Span,
}

/// One token of a piece of source text. Only identifiers can stand for a constant.
#[derive(Debug)]
pub enum Token {
    Ident(String),
    Other(String),
}

#[derive(Debug, Clone, Copy, PartialEq, Eq, Structural)]
pub enum UnaryKind {
    Domain,
    Range,
    Complement,
    AffineHull,
    PolyHull,
    Reverse,
    Other,
}

#[derive(Debug, Clone, Copy, PartialEq, Eq, Structural)]
pub enum BinaryKind {
    Plus,
    Minus,
    Star,
    IntersectRange,
    SubtractRange,
    At,
    Cross,
    Other,
}

/// An expression of a function literal.
#[derive(Debug)]
pub struct FnExpr {
    pub span: Span,
    pub kind: FnExprKind,
}

#[derive(Debug)]
pub enum FnExprKind {
    Literal(String),
    Floor(Option<Box<FnExpr>>),
    Binary { operator: String, lhs: Option<Box<FnExpr>>, rhs: Option<Box<FnExpr>> },
}

/// A calculator expression: the notation for sets, relations, functions and polynomials.
#[derive(Debug)]
pub struct Calc {
    pub span: Span,
    pub tokens: Vec<Token>,
    pub kind: CalcKind,
}

#[allow(inconsistent_fields)]
#[derive(Debug)]
pub enum CalcKind {
    Domain,
    ArrayDomain,
    ParamDomain,
    Relation,
    Polynomial,
    ArrayPolynomial,
    VariableDomain { name: String },
    DefinedObject { name: String },
    RectangularDomain { names: Vec<String> },
    Unary { kind: UnaryKind, operator: String, operand: Option<Box<Calc>> },
    Binary {
        kind: BinaryKind,
        operator: String,
        lhs: Option<Box<Calc>>,
        rhs: Option<Box<Calc>>,
    },
    Paren { inner: Option<Box<Calc>> },
    Function { inputs: Vec<String>, exprs: Vec<FnExpr> },
    /// `elements` is the bracketed text, split at every comma.
    ArrayFunction { elements: Vec<String> },
    FuzzyFunction,
    ArrayFuzzyFunction,
}

/// An expression of an equation. `node` tells the expressions of a program apart.
#[derive(Debug)]
pub struct Expr {
    pub node: usize,
    pub span: Span,
    pub kind: ExprKind,
}

#[allow(inconsistent_fields)]
#[derive(Debug)]
pub enum ExprKind {
    If {
        cond: Option<Box<Expr>>,
        then_branch: Option<Box<Expr>>,
        else_branch: Option<Box<Expr>>,
    },
    Restrict { domain: Option<Calc>, expr: Option<Box<Expr>> },
    AutoRestrict { expr: Option<Box<Expr>> },
    Case { branches: Vec<Expr> },
    Dependence { function: Option<Calc>, expr: Option<Box<Expr>> },
    Reduce { projection: Option<Calc>, body: Option<Box<Expr>> },
    Convolution {
        kernel_domain: Option<Calc>,
        kernel: Option<Box<Expr>>,
        data: Option<Box<Expr>>,
    },
    Select { relation: Option<Calc>, expr: Option<Box<Expr>> },
    MultiArg { operator: String, args: Vec<Expr> },
    Binary { operator: String, lhs: Option<Box<Expr>>, rhs: Option<Box<Expr>> },
    Unary { operator: String, operand: Option<Box<Expr>> },
    Paren { inner: Option<Box<Expr>> },
    Variable { name: Option<String> },
    Index { source: Option<Calc> },
    Bool,
    Int,
    Real,
}

#[derive(Debug)]
pub struct StandardEquation {
    pub span: Span,
    pub variable: Option<Name>,
    pub indices: Vec<String>,
    pub expr: Option<Expr>,
}

/// A call of another system: the region it is instantiated over, the arguments, and what it
/// writes.
#[derive(Debug)]
pub struct UseEquation {
    pub span: Span,
    pub over: Option<Calc>,
    pub dims: Vec<String>,
    pub callee: Option<Vec<String>>,
    pub call_params: Option<Calc>,
    pub outputs: Vec<Expr>,
    pub inputs: Vec<Expr>,
}

#[derive(Debug)]
pub enum Equation {
    Standard(StandardEquation),
    Use(UseEquation),
}

#[derive(Debug)]
pub struct SystemBody {
    pub span: Span,
    pub guard: Option<Calc>,
    pub equations: Vec<Equation>,
}

/// A declared variable. One without a domain of its own shares that of the next one that has one.
#[derive(Debug)]
pub struct Decl {
    pub span: Span,
    pub fuzzy: bool,
    pub linear: bool,
    pub name: Option<Name>,
    pub domain: Option<Calc>,
    pub element_type: Option<DeclaredType>,
}

#[derive(Debug)]
pub struct ObjectDecl {
    pub span: Span,
    pub name: Option<Name>,
    pub expr: Option<Calc>,
}

#[derive(Debug)]
pub struct Constant {
    pub span: Span,
    pub name: Option<Name>,
    pub value: Option<String>,
}

/// `scopes` holds the constants of the containers around the system, the innermost first.
#[derive(Debug)]
pub struct System {
    pub span: Span,
    pub name: Option<Name>,
    pub params: Vec<String>,
    pub param_domain: Calc,
    pub scopes: Vec<Vec<Constant>>,
    pub inputs: Vec<Decl>,
    pub outputs: Vec<Decl>,
    pub locals: Vec<Decl>,
    pub objects: Vec<ObjectDecl>,
    pub bodies: Vec<SystemBody>,
}

/// An external function, declared by its number of arguments or by its ports.
#[derive(Debug)]
pub struct ExternalFunction {
    pub span: Span,
    pub name: Option<Name>,
    pub cardinality: Option<String>,
    pub inputs: Vec<Multiplicity>,
    pub outputs: Vec<Multiplicity>,
}

/// A package, or the whole of a file when it has no name.
#[derive(Debug)]
pub struct Package {
    pub name: Option<Vec<String>>,
    pub systems: Vec<System>,
    pub externals: Vec<ExternalFunction>,
    pub packages: Vec<Package>,
}

} // verus!
