//! The catalogue of problems that the checks report, each with the source range it is about.
use crate::text::{cat2, cat3, cat4, cat6};
use vstd::prelude::*;

verus! {

/// A problem that the parser found.
#[derive(Debug)]
pub struct SyntaxError {
    pub message: String,
    pub start: u32,
    pub end: u32,
}

#[derive(Debug)]
pub enum Diagnostic {
    /// A problem that the parser found, carried along unchanged.
    Syntax(SyntaxError),
    /// An operation on polyhedral sets failed: text that does not parse, or an operand in the wrong space.
    IslError { message: String, start: u32, end: u32 },
    /// A calculator operator was applied to an operand kind that it is not defined for.
    InvalidCalculatorOperand { operator: String, operand_kind: String, start: u32, end: u32 },
    /// A binary calculator operator was applied to two operand kinds that it is not defined for.
    InvalidCalculatorOperandPair { operator: String, left_kind: String, right_kind: String, start: u32, end: u32 },
    /// A calculator operator that is not implemented.
    UnsupportedCalculatorOp { operator: String, start: u32, end: u32 },
    /// A name that resolves to nothing in scope.
    UndefinedReference { name: String, start: u32, end: u32 },
    /// A value that depends on itself, directly or through others.
    CyclicDefinition { name: String, start: u32, end: u32 },
    /// A dependence function whose number of results differs from its operand's dimension.
    IncompatibleContextAndExpressionDomain { start: u32, end: u32 },
    /// An auto-restrict that is not a direct branch of a case.
    AutoRestrictNotInCase { start: u32, end: u32 },
    /// More than one auto-restrict among the branches of one case.
    MultipleAutoRestrict { start: u32, end: u32 },
    /// An auto-restrict branch that no point reaches.
    EmptyAutoRestrict { start: u32, end: u32 },
    /// More than one body of a system without a guard.
    MultipleUnrestrictedSystemBody { start: u32, end: u32 },
    /// A restrict whose own tuple has another dimension than the index names in scope.
    RestrictDomainDimensionMismatch { start: u32, end: u32 },
    /// A select whose relation takes another number of indices than there are names in scope.
    SelectRelationDimensionMismatch { start: u32, end: u32 },
    /// Two systems with the same qualified name.
    DuplicateSystem { name: String, start: u32, end: u32 },
    /// Two external functions with the same qualified name.
    DuplicateExternalFunction { name: String, start: u32, end: u32 },
    /// A variable that shares its name with another variable or defined object of the system.
    DuplicateVariable { name: String, start: u32, end: u32 },
    /// A defined object that shares its name with another one, or with a variable.
    DuplicatePolyhedralObject { name: String, start: u32, end: u32 },
    /// A standard equation for a variable that another equation of the body defines too.
    DuplicateStandardEquation { name: String, start: u32, end: u32 },
    /// A use equation that writes a variable which a standard equation of the body defines.
    DuplicateUseEquation { name: String, start: u32, end: u32 },
    /// Two constants with the same name, visible to one system.
    DuplicateAlphaConstant { name: String, start: u32, end: u32 },
    /// A system body that no parameter value selects.
    EmptySystemBody { start: u32, end: u32 },
    /// System bodies that some parameter value selects together.
    OverlappingSystemBodies { detail: String, start: u32, end: u32 },
    /// A system with parameter values that select no body.
    IncompleteSystem { name: String, detail: String, start: u32, end: u32 },
    /// An equation that is undefined at some point of its variable's domain.
    IncompleteEquation { name: String, domain_detail: String, param_detail: String, start: u32, end: u32 },
    /// A case branch that shares points with an earlier branch.
    OverlappingCaseBranch { detail: String, start: u32, end: u32 },
    /// A reduction over an index without a finite bound on both sides.
    UnboundedReductionBody { start: u32, end: u32 },
    /// A call of the enclosing system with its own parameters.
    InfinitelyRecursiveUseEquation { start: u32, end: u32 },
    /// Use equations that write the same region of a variable.
    OverlappingUseEquations { name: String, detail: String, start: u32, end: u32 },
    /// Use equations that together leave part of their variable unwritten.
    IncompleteUseEquation { name: String, detail: String, start: u32, end: u32 },
    /// An output, or a local that is used, without an equation in a system body.
    UndefinedVariable { name: String, start: u32, end: u32 },
    /// A variable of qubits that is not declared linear.
    QubitMustBeLinear { variable: String, start: u32, end: u32 },
    /// A linear value that an unrestricted variable is defined by.
    LinearValueWidened { target: String, start: u32, end: u32 },
    /// A linear value handed to an operand that may be copied or dropped.
    LinearArgumentToUnrestrictedPort { operator: String, start: u32, end: u32 },
    /// A linear variable inside a construct that linear values cannot go through.
    LinearityUnsupportedHere { construct: String, start: u32, end: u32 },
    /// A read that takes the same point of a linear variable more than once.
    LinearUseNotInjective { variable: String, start: u32, end: u32 },
    /// Two reads that take the same point of a linear variable.
    LinearUsesOverlap { variable: String, start: u32, end: u32 },
    /// An if whose branches take different points of linear variables.
    LinearBranchMismatch { start: u32, end: u32 },
    /// A linear variable with points that nothing takes.
    LinearValueUnconsumed { variable: String, detail: String, start: u32, end: u32 },
    /// A call of an operation with another number of operands or results than it has.
    OperationArityMismatch { operation: String, start: u32, end: u32 },
    /// An operand or a result of an operation with another element type than its port.
    OperationPortTypeMismatch { operation: String, start: u32, end: u32 },
    /// A call of an operation in which two operands are the same point.
    OperationOperandAliased { operation: String, start: u32, end: u32 },
    /// A call whose operands and results are not defined over the same points.
    CallDomainMismatch { operation: String, start: u32, end: u32 },
    /// An operation inside an expression.
    InvalidOperationContext { operation: String, start: u32, end: u32 },
    /// A system or an external function with the name of an operation.
    ReservedOperationName { name: String, start: u32, end: u32 },
}

/// What a [`Diagnostic`] is about, without its texts and its range.
pub enum IssueKind {
    Syntax,
    IslError,
    InvalidCalculatorOperand,
    InvalidCalculatorOperandPair,
    UnsupportedCalculatorOp,
    UndefinedReference,
    CyclicDefinition,
    IncompatibleContextAndExpressionDomain,
    AutoRestrictNotInCase,
    MultipleAutoRestrict,
    EmptyAutoRestrict,
    MultipleUnrestrictedSystemBody,
    RestrictDomainDimensionMismatch,
    SelectRelationDimensionMismatch,
    DuplicateSystem,
    DuplicateExternalFunction,
    DuplicateVariable,
    DuplicatePolyhedralObject,
    DuplicateStandardEquation,
    DuplicateUseEquation,
    DuplicateAlphaConstant,
    EmptySystemBody,
    OverlappingSystemBodies,
    IncompleteSystem,
    IncompleteEquation,
    OverlappingCaseBranch,
    UnboundedReductionBody,
    InfinitelyRecursiveUseEquation,
    OverlappingUseEquations,
    IncompleteUseEquation,
    UndefinedVariable,
    QubitMustBeLinear,
    LinearValueWidened,
    LinearArgumentToUnrestrictedPort,
    LinearityUnsupportedHere,
    LinearUseNotInjective,
    LinearUsesOverlap,
    LinearBranchMismatch,
    LinearValueUnconsumed,
    OperationArityMismatch,
    OperationPortTypeMismatch,
    OperationOperandAliased,
    CallDomainMismatch,
    InvalidOperationContext,
    ReservedOperationName,
}

/// A [`Diagnostic`] as a mathematical value: its kind, its texts in declared order, its range.
pub struct Issue {
    pub kind: IssueKind,
    pub texts: Seq<Seq<char>>,
    pub start: u32,
    pub end: u32,
}

pub open spec fn issue(kind: IssueKind, texts: Seq<Seq<char>>, span: (u32, u32)) -> Issue {
    Issue { kind, texts, start: span.0, end: span.1 }
}

impl View for Diagnostic {
    type V = Issue;

    open spec fn view(&self) -> Issue {
        match *self {
            Diagnostic::Syntax(e) => issue(IssueKind::Syntax, seq![e.message@], (e.start, e.end)),
            Diagnostic::IslError { message, start, end } => issue(
                IssueKind::IslError,
                seq![message@],
                (start, end),
            ),
            Diagnostic::InvalidCalculatorOperand { operator, operand_kind, start, end } => issue(
                IssueKind::InvalidCalculatorOperand,
                seq![operator@, operand_kind@],
                (start, end),
            ),
            Diagnostic::InvalidCalculatorOperandPair { operator, left_kind, right_kind, start, end } => issue(
                IssueKind::InvalidCalculatorOperandPair,
                seq![operator@, left_kind@, right_kind@],
                (start, end),
            ),
            Diagnostic::UnsupportedCalculatorOp { operator, start, end } => issue(
                IssueKind::UnsupportedCalculatorOp,
                seq![operator@],
                (start, end),
            ),
            Diagnostic::UndefinedReference { name, start, end } => issue(
                IssueKind::UndefinedReference,
                seq![name@],
                (start, end),
            ),
            Diagnostic::CyclicDefinition { name, start, end } => issue(
                IssueKind::CyclicDefinition,
                seq![name@],
                (start, end),
            ),
            Diagnostic::IncompatibleContextAndExpressionDomain { start, end } => issue(
                IssueKind::IncompatibleContextAndExpressionDomain,
                seq![],
                (start, end),
            ),
            Diagnostic::AutoRestrictNotInCase { start, end } => issue(
                IssueKind::AutoRestrictNotInCase,
                seq![],
                (start, end),
            ),
            Diagnostic::MultipleAutoRestrict { start, end } => issue(
                IssueKind::MultipleAutoRestrict,
                seq![],
                (start, end),
            ),
            Diagnostic::EmptyAutoRestrict { start, end } => issue(
                IssueKind::EmptyAutoRestrict,
                seq![],
                (start, end),
            ),
            Diagnostic::MultipleUnrestrictedSystemBody { start, end } => issue(
                IssueKind::MultipleUnrestrictedSystemBody,
                seq![],
                (start, end),
            ),
            Diagnostic::RestrictDomainDimensionMismatch { start, end } => issue(
                IssueKind::RestrictDomainDimensionMismatch,
                seq![],
                (start, end),
            ),
            Diagnostic::SelectRelationDimensionMismatch { start, end } => issue(
                IssueKind::SelectRelationDimensionMismatch,
                seq![],
                (start, end),
            ),
            Diagnostic::DuplicateSystem { name, start, end } => issue(
                IssueKind::DuplicateSystem,
                seq![name@],
                (start, end),
            ),
            Diagnostic::DuplicateExternalFunction { name, start, end } => issue(
                IssueKind::DuplicateExternalFunction,
                seq![name@],
                (start, end),
            ),
            Diagnostic::DuplicateVariable { name, start, end } => issue(
                IssueKind::DuplicateVariable,
                seq![name@],
                (start, end),
            ),
            Diagnostic::DuplicatePolyhedralObject { name, start, end } => issue(
                IssueKind::DuplicatePolyhedralObject,
                seq![name@],
                (start, end),
            ),
            Diagnostic::DuplicateStandardEquation { name, start, end } => issue(
                IssueKind::DuplicateStandardEquation,
                seq![name@],
                (start, end),
            ),
            Diagnostic::DuplicateUseEquation { name, start, end } => issue(
                IssueKind::DuplicateUseEquation,
                seq![name@],
                (start, end),
            ),
            Diagnostic::DuplicateAlphaConstant { name, start, end } => issue(
                IssueKind::DuplicateAlphaConstant,
                seq![name@],
                (start, end),
            ),
            Diagnostic::EmptySystemBody { start, end } => issue(
                IssueKind::EmptySystemBody,
                seq![],
                (start, end),
            ),
            Diagnostic::OverlappingSystemBodies { detail, start, end } => issue(
                IssueKind::OverlappingSystemBodies,
                seq![detail@],
                (start, end),
            ),
            Diagnostic::IncompleteSystem { name, detail, start, end } => issue(
                IssueKind::IncompleteSystem,
                seq![name@, detail@],
                (start, end),
            ),
            Diagnostic::IncompleteEquation { name, domain_detail, param_detail, start, end } => issue(
                IssueKind::IncompleteEquation,
                seq![name@, domain_detail@, param_detail@],
                (start, end),
            ),
            Diagnostic::OverlappingCaseBranch { detail, start, end } => issue(
                IssueKind::OverlappingCaseBranch,
                seq![detail@],
                (start, end),
            ),
            Diagnostic::UnboundedReductionBody { start, end } => issue(
                IssueKind::UnboundedReductionBody,
                seq![],
                (start, end),
            ),
            Diagnostic::InfinitelyRecursiveUseEquation { start, end } => issue(
                IssueKind::InfinitelyRecursiveUseEquation,
                seq![],
                (start, end),
            ),
            Diagnostic::OverlappingUseEquations { name, detail, start, end } => issue(
                IssueKind::OverlappingUseEquations,
                seq![name@, detail@],
                (start, end),
            ),
            Diagnostic::IncompleteUseEquation { name, detail, start, end } => issue(
                IssueKind::IncompleteUseEquation,
                seq![name@, detail@],
                (start, end),
            ),
            Diagnostic::UndefinedVariable { name, start, end } => issue(
                IssueKind::UndefinedVariable,
                seq![name@],
                (start, end),
            ),
            Diagnostic::QubitMustBeLinear { variable, start, end } => issue(
                IssueKind::QubitMustBeLinear,
                seq![variable@],
                (start, end),
            ),
            Diagnostic::LinearValueWidened { target, start, end } => issue(
                IssueKind::LinearValueWidened,
                seq![target@],
                (start, end),
            ),
            Diagnostic::LinearArgumentToUnrestrictedPort { operator, start, end } => issue(
                IssueKind::LinearArgumentToUnrestrictedPort,
                seq![operator@],
                (start, end),
            ),
            Diagnostic::LinearityUnsupportedHere { construct, start, end } => issue(
                IssueKind::LinearityUnsupportedHere,
                seq![construct@],
                (start, end),
            ),
            Diagnostic::LinearUseNotInjective { variable, start, end } => issue(
                IssueKind::LinearUseNotInjective,
                seq![variable@],
                (start, end),
            ),
            Diagnostic::LinearUsesOverlap { variable, start, end } => issue(
                IssueKind::LinearUsesOverlap,
                seq![variable@],
                (start, end),
            ),
            Diagnostic::LinearBranchMismatch { start, end } => issue(
                IssueKind::LinearBranchMismatch,
                seq![],
                (start, end),
            ),
            Diagnostic::LinearValueUnconsumed { variable, detail, start, end } => issue(
                IssueKind::LinearValueUnconsumed,
                seq![variable@, detail@],
                (start, end),
            ),
            Diagnostic::OperationArityMismatch { operation, start, end } => issue(
                IssueKind::OperationArityMismatch,
                seq![operation@],
                (start, end),
            ),
            Diagnostic::OperationPortTypeMismatch { operation, start, end } => issue(
                IssueKind::OperationPortTypeMismatch,
                seq![operation@],
                (start, end),
            ),
            Diagnostic::OperationOperandAliased { operation, start, end } => issue(
                IssueKind::OperationOperandAliased,
                seq![operation@],
                (start, end),
            ),
            Diagnostic::CallDomainMismatch { operation, start, end } => issue(
                IssueKind::CallDomainMismatch,
                seq![operation@],
                (start, end),
            ),
            Diagnostic::InvalidOperationContext { operation, start, end } => issue(
                IssueKind::InvalidOperationContext,
                seq![operation@],
                (start, end),
            ),
            Diagnostic::ReservedOperationName { name, start, end } => issue(
                IssueKind::ReservedOperationName,
                seq![name@],
                (start, end),
            ),
        }
    }
}

impl Issue {
    /// The message shown to a user.
    pub open spec fn message(self) -> Seq<char> {
        match self.kind {
            IssueKind::Syntax => self.texts[0],
            IssueKind::IslError => self.texts[0],
            IssueKind::InvalidCalculatorOperand => "'"@ + self.texts[0] + "' is not defined for a "@ + self.texts[1],
            IssueKind::InvalidCalculatorOperandPair => "'"@ + self.texts[0] + "' is not defined between a "@ + self.texts[1] + " and a "@ + self.texts[2],
            IssueKind::UnsupportedCalculatorOp => "'"@ + self.texts[0] + "' is not yet supported by this compiler"@,
            IssueKind::UndefinedReference => "'"@ + self.texts[0] + "' is not defined"@,
            IssueKind::CyclicDefinition => "'"@ + self.texts[0] + "' is defined in terms of itself"@,
            IssueKind::IncompatibleContextAndExpressionDomain => "the context domain and expression domain are incompatible"@,
            IssueKind::AutoRestrictNotInCase => "AutoRestrict can only be a direct child of a CaseExpression"@,
            IssueKind::MultipleAutoRestrict => "more than one AutoRestrict is not allowed in a CaseExpression"@,
            IssueKind::EmptyAutoRestrict => "the inferred AutoRestrict domain is empty"@,
            IssueKind::MultipleUnrestrictedSystemBody => "at most one SystemBody can be free (without a when clause)"@,
            IssueKind::RestrictDomainDimensionMismatch => "dimensionality of the restrict domain does not match its context"@,
            IssueKind::SelectRelationDimensionMismatch => "dimensionality of the select relation does not match its context"@,
            IssueKind::DuplicateSystem => "duplicate system '"@ + self.texts[0] + "'"@,
            IssueKind::DuplicateExternalFunction => "duplicate external function '"@ + self.texts[0] + "'"@,
            IssueKind::DuplicateVariable => "duplicate name '"@ + self.texts[0] + "'"@,
            IssueKind::DuplicatePolyhedralObject => "duplicate name '"@ + self.texts[0] + "'"@,
            IssueKind::DuplicateStandardEquation => "this equation defines '"@ + self.texts[0] + "', which is already defined by another equation"@,
            IssueKind::DuplicateUseEquation => "this equation defines '"@ + self.texts[0] + "', which is already defined by another equation"@,
            IssueKind::DuplicateAlphaConstant => "duplicate constant '"@ + self.texts[0] + "'"@,
            IssueKind::EmptySystemBody => "the inferred SystemBody domain is empty"@,
            IssueKind::OverlappingSystemBodies => "the SystemBodies define overlapping domains of the output: "@ + self.texts[0],
            IssueKind::IncompleteSystem => "SystemBodies for "@ + self.texts[0] + " do not cover the entire parameter domain; missing: "@ + self.texts[1],
            IssueKind::IncompleteEquation => "equation for "@ + self.texts[0] + " is not defined with parameters "@ + self.texts[2] + " for "@ + self.texts[1],
            IssueKind::OverlappingCaseBranch => "context domains of case branches overlap: "@ + self.texts[0],
            IssueKind::UnboundedReductionBody => "the expression has an unbounded reduction body"@,
            IssueKind::InfinitelyRecursiveUseEquation => "self-recursion with an identity call parameter is prohibited (infinite recursion)"@,
            IssueKind::OverlappingUseEquations => "the UseEquations defining "@ + self.texts[0] + " overlap: "@ + self.texts[1],
            IssueKind::IncompleteUseEquation => "the UseEquations for "@ + self.texts[0] + " do not define the variable for "@ + self.texts[1],
            IssueKind::UndefinedVariable => "'"@ + self.texts[0] + "' is used but not defined in this SystemBody"@,
            IssueKind::QubitMustBeLinear => "'"@ + self.texts[0] + "' holds qubits and must be declared linear"@,
            IssueKind::LinearValueWidened => "a linear value cannot define the unrestricted variable '"@ + self.texts[0] + "'"@,
            IssueKind::LinearArgumentToUnrestrictedPort => "'"@ + self.texts[0] + "' does not take a linear value here"@,
            IssueKind::LinearityUnsupportedHere => "linear values are not supported inside a "@ + self.texts[0],
            IssueKind::LinearUseNotInjective => "this use of '"@ + self.texts[0] + "' takes the same point more than once"@,
            IssueKind::LinearUsesOverlap => "this use of '"@ + self.texts[0] + "' takes points that another use takes too"@,
            IssueKind::LinearBranchMismatch => "both branches of an if must use the same linear values"@,
            IssueKind::LinearValueUnconsumed => "'"@ + self.texts[0] + "' is not used at "@ + self.texts[1],
            IssueKind::OperationArityMismatch => "'"@ + self.texts[0] + "' is called with the wrong number of operands or results"@,
            IssueKind::OperationPortTypeMismatch => "the element type of this value does not fit '"@ + self.texts[0] + "'"@,
            IssueKind::OperationOperandAliased => "two operands of '"@ + self.texts[0] + "' are the same value"@,
            IssueKind::CallDomainMismatch => "the operands and results of '"@ + self.texts[0] + "' have different domains"@,
            IssueKind::InvalidOperationContext => "'"@ + self.texts[0] + "' can only be called by an equation of its own"@,
            IssueKind::ReservedOperationName => "'"@ + self.texts[0] + "' is the name of an operation"@,
        }
    }

    pub open spec fn range(self) -> (u32, u32) {
        (self.start, self.end)
    }
}

impl Diagnostic {
    pub fn to_text(&self) -> (r: String)
        ensures
            r@ == self@.message(),
    {
        match self {
            Diagnostic::Syntax(e) => e.message.clone(),
            Diagnostic::IslError { message, .. } => message.clone(),
            Diagnostic::InvalidCalculatorOperand { operator, operand_kind, .. } => cat4("'", operator.as_str(), "' is not defined for a ", operand_kind.as_str()),
            Diagnostic::InvalidCalculatorOperandPair { operator, left_kind, right_kind, .. } => cat6("'", operator.as_str(), "' is not defined between a ", left_kind.as_str(), " and a ", right_kind.as_str()),
            Diagnostic::UnsupportedCalculatorOp { operator, .. } => cat3("'", operator.as_str(), "' is not yet supported by this compiler"),
            Diagnostic::UndefinedReference { name, .. } => cat3("'", name.as_str(), "' is not defined"),
            Diagnostic::CyclicDefinition { name, .. } => cat3("'", name.as_str(), "' is defined in terms of itself"),
            Diagnostic::IncompatibleContextAndExpressionDomain { .. } => "the context domain and expression domain are incompatible".to_owned(),
            Diagnostic::AutoRestrictNotInCase { .. } => "AutoRestrict can only be a direct child of a CaseExpression".to_owned(),
            Diagnostic::MultipleAutoRestrict { .. } => "more than one AutoRestrict is not allowed in a CaseExpression".to_owned(),
            Diagnostic::EmptyAutoRestrict { .. } => "the inferred AutoRestrict domain is empty".to_owned(),
            Diagnostic::MultipleUnrestrictedSystemBody { .. } => "at most one SystemBody can be free (without a when clause)".to_owned(),
            Diagnostic::RestrictDomainDimensionMismatch { .. } => "dimensionality of the restrict domain does not match its context".to_owned(),
            Diagnostic::SelectRelationDimensionMismatch { .. } => "dimensionality of the select relation does not match its context".to_owned(),
            Diagnostic::DuplicateSystem { name, .. } => cat3("duplicate system '", name.as_str(), "'"),
            Diagnostic::DuplicateExternalFunction { name, .. } => cat3("duplicate external function '", name.as_str(), "'"),
            Diagnostic::DuplicateVariable { name, .. } => cat3("duplicate name '", name.as_str(), "'"),
            Diagnostic::DuplicatePolyhedralObject { name, .. } => cat3("duplicate name '", name.as_str(), "'"),
            Diagnostic::DuplicateStandardEquation { name, .. } => cat3("this equation defines '", name.as_str(), "', which is already defined by another equation"),
            Diagnostic::DuplicateUseEquation { name, .. } => cat3("this equation defines '", name.as_str(), "', which is already defined by another equation"),
            Diagnostic::DuplicateAlphaConstant { name, .. } => cat3("duplicate constant '", name.as_str(), "'"),
            Diagnostic::EmptySystemBody { .. } => "the inferred SystemBody domain is empty".to_owned(),
            Diagnostic::OverlappingSystemBodies { detail, .. } => cat2("the SystemBodies define overlapping domains of the output: ", detail.as_str()),
            Diagnostic::IncompleteSystem { name, detail, .. } => cat4("SystemBodies for ", name.as_str(), " do not cover the entire parameter domain; missing: ", detail.as_str()),
            Diagnostic::IncompleteEquation { name, domain_detail, param_detail, .. } => cat6("equation for ", name.as_str(), " is not defined with parameters ", param_detail.as_str(), " for ", domain_detail.as_str()),
            Diagnostic::OverlappingCaseBranch { detail, .. } => cat2("context domains of case branches overlap: ", detail.as_str()),
            Diagnostic::UnboundedReductionBody { .. } => "the expression has an unbounded reduction body".to_owned(),
            Diagnostic::InfinitelyRecursiveUseEquation { .. } => "self-recursion with an identity call parameter is prohibited (infinite recursion)".to_owned(),
            Diagnostic::OverlappingUseEquations { name, detail, .. } => cat4("the UseEquations defining ", name.as_str(), " overlap: ", detail.as_str()),
            Diagnostic::IncompleteUseEquation { name, detail, .. } => cat4("the UseEquations for ", name.as_str(), " do not define the variable for ", detail.as_str()),
            Diagnostic::UndefinedVariable { name, .. } => cat3("'", name.as_str(), "' is used but not defined in this SystemBody"),
            Diagnostic::QubitMustBeLinear { variable, .. } => cat3("'", variable.as_str(), "' holds qubits and must be declared linear"),
            Diagnostic::LinearValueWidened { target, .. } => cat3("a linear value cannot define the unrestricted variable '", target.as_str(), "'"),
            Diagnostic::LinearArgumentToUnrestrictedPort { operator, .. } => cat3("'", operator.as_str(), "' does not take a linear value here"),
            Diagnostic::LinearityUnsupportedHere { construct, .. } => cat2("linear values are not supported inside a ", construct.as_str()),
            Diagnostic::LinearUseNotInjective { variable, .. } => cat3("this use of '", variable.as_str(), "' takes the same point more than once"),
            Diagnostic::LinearUsesOverlap { variable, .. } => cat3("this use of '", variable.as_str(), "' takes points that another use takes too"),
            Diagnostic::LinearBranchMismatch { .. } => "both branches of an if must use the same linear values".to_owned(),
            Diagnostic::LinearValueUnconsumed { variable, detail, .. } => cat4("'", variable.as_str(), "' is not used at ", detail.as_str()),
            Diagnostic::OperationArityMismatch { operation, .. } => cat3("'", operation.as_str(), "' is called with the wrong number of operands or results"),
            Diagnostic::OperationPortTypeMismatch { operation, .. } => cat3("the element type of this value does not fit '", operation.as_str(), "'"),
            Diagnostic::OperationOperandAliased { operation, .. } => cat3("two operands of '", operation.as_str(), "' are the same value"),
            Diagnostic::CallDomainMismatch { operation, .. } => cat3("the operands and results of '", operation.as_str(), "' have different domains"),
            Diagnostic::InvalidOperationContext { operation, .. } => cat3("'", operation.as_str(), "' can only be called by an equation of its own"),
            Diagnostic::ReservedOperationName { name, .. } => cat3("'", name.as_str(), "' is the name of an operation"),
        }
    }

    /// The source range that the problem is about.
    pub fn range(&self) -> (r: (u32, u32))
        ensures
            r == self@.range(),
    {
        match self {
            Diagnostic::Syntax(e) => (e.start, e.end),
            Diagnostic::IslError { start, end, .. } => (*start, *end),
            Diagnostic::InvalidCalculatorOperand { start, end, .. } => (*start, *end),
            Diagnostic::InvalidCalculatorOperandPair { start, end, .. } => (*start, *end),
            Diagnostic::UnsupportedCalculatorOp { start, end, .. } => (*start, *end),
            Diagnostic::UndefinedReference { start, end, .. } => (*start, *end),
            Diagnostic::CyclicDefinition { start, end, .. } => (*start, *end),
            Diagnostic::IncompatibleContextAndExpressionDomain { start, end, .. } => (*start, *end),
            Diagnostic::AutoRestrictNotInCase { start, end, .. } => (*start, *end),
            Diagnostic::MultipleAutoRestrict { start, end, .. } => (*start, *end),
            Diagnostic::EmptyAutoRestrict { start, end, .. } => (*start, *end),
            Diagnostic::MultipleUnrestrictedSystemBody { start, end, .. } => (*start, *end),
            Diagnostic::RestrictDomainDimensionMismatch { start, end, .. } => (*start, *end),
            Diagnostic::SelectRelationDimensionMismatch { start, end, .. } => (*start, *end),
            Diagnostic::DuplicateSystem { start, end, .. } => (*start, *end),
            Diagnostic::DuplicateExternalFunction { start, end, .. } => (*start, *end),
            Diagnostic::DuplicateVariable { start, end, .. } => (*start, *end),
            Diagnostic::DuplicatePolyhedralObject { start, end, .. } => (*start, *end),
            Diagnostic::DuplicateStandardEquation { start, end, .. } => (*start, *end),
            Diagnostic::DuplicateUseEquation { start, end, .. } => (*start, *end),
            Diagnostic::DuplicateAlphaConstant { start, end, .. } => (*start, *end),
            Diagnostic::EmptySystemBody { start, end, .. } => (*start, *end),
            Diagnostic::OverlappingSystemBodies { start, end, .. } => (*start, *end),
            Diagnostic::IncompleteSystem { start, end, .. } => (*start, *end),
            Diagnostic::IncompleteEquation { start, end, .. } => (*start, *end),
            Diagnostic::OverlappingCaseBranch { start, end, .. } => (*start, *end),
            Diagnostic::UnboundedReductionBody { start, end, .. } => (*start, *end),
            Diagnostic::InfinitelyRecursiveUseEquation { start, end, .. } => (*start, *end),
            Diagnostic::OverlappingUseEquations { start, end, .. } => (*start, *end),
            Diagnostic::IncompleteUseEquation { start, end, .. } => (*start, *end),
            Diagnostic::UndefinedVariable { start, end, .. } => (*start, *end),
            Diagnostic::QubitMustBeLinear { start, end, .. } => (*start, *end),
            Diagnostic::LinearValueWidened { start, end, .. } => (*start, *end),
            Diagnostic::LinearArgumentToUnrestrictedPort { start, end, .. } => (*start, *end),
            Diagnostic::LinearityUnsupportedHere { start, end, .. } => (*start, *end),
            Diagnostic::LinearUseNotInjective { start, end, .. } => (*start, *end),
            Diagnostic::LinearUsesOverlap { start, end, .. } => (*start, *end),
            Diagnostic::LinearBranchMismatch { start, end, .. } => (*start, *end),
            Diagnostic::LinearValueUnconsumed { start, end, .. } => (*start, *end),
            Diagnostic::OperationArityMismatch { start, end, .. } => (*start, *end),
            Diagnostic::OperationPortTypeMismatch { start, end, .. } => (*start, *end),
            Diagnostic::OperationOperandAliased { start, end, .. } => (*start, *end),
            Diagnostic::CallDomainMismatch { start, end, .. } => (*start, *end),
            Diagnostic::InvalidOperationContext { start, end, .. } => (*start, *end),
            Diagnostic::ReservedOperationName { start, end, .. } => (*start, *end),
        }
    }
}

impl Clone for SyntaxError {
    fn clone(&self) -> (r: SyntaxError)
        ensures
            r == *self,
    {
        SyntaxError { message: self.message.clone(), start: self.start, end: self.end }
    }
}

impl Clone for Diagnostic {
    fn clone(&self) -> (r: Diagnostic)
        ensures
            r@ == self@,
    {
        match self {
            Diagnostic::Syntax(e) => Diagnostic::Syntax(e.clone()),
            Diagnostic::IslError { message, start, end } => Diagnostic::IslError { message: message.clone(), start: *start, end: *end },
            Diagnostic::InvalidCalculatorOperand { operator, operand_kind, start, end } => Diagnostic::InvalidCalculatorOperand { operator: operator.clone(), operand_kind: operand_kind.clone(), start: *start, end: *end },
            Diagnostic::InvalidCalculatorOperandPair { operator, left_kind, right_kind, start, end } => Diagnostic::InvalidCalculatorOperandPair { operator: operator.clone(), left_kind: left_kind.clone(), right_kind: right_kind.clone(), start: *start, end: *end },
            Diagnostic::UnsupportedCalculatorOp { operator, start, end } => Diagnostic::UnsupportedCalculatorOp { operator: operator.clone(), start: *start, end: *end },
            Diagnostic::UndefinedReference { name, start, end } => Diagnostic::UndefinedReference { name: name.clone(), start: *start, end: *end },
            Diagnostic::CyclicDefinition { name, start, end } => Diagnostic::CyclicDefinition { name: name.clone(), start: *start, end: *end },
            Diagnostic::IncompatibleContextAndExpressionDomain { start, end } => Diagnostic::IncompatibleContextAndExpressionDomain { start: *start, end: *end },
            Diagnostic::AutoRestrictNotInCase { start, end } => Diagnostic::AutoRestrictNotInCase { start: *start, end: *end },
            Diagnostic::MultipleAutoRestrict { start, end } => Diagnostic::MultipleAutoRestrict { start: *start, end: *end },
            Diagnostic::EmptyAutoRestrict { start, end } => Diagnostic::EmptyAutoRestrict { start: *start, end: *end },
            Diagnostic::MultipleUnrestrictedSystemBody { start, end } => Diagnostic::MultipleUnrestrictedSystemBody { start: *start, end: *end },
            Diagnostic::RestrictDomainDimensionMismatch { start, end } => Diagnostic::RestrictDomainDimensionMismatch { start: *start, end: *end },
            Diagnostic::SelectRelationDimensionMismatch { start, end } => Diagnostic::SelectRelationDimensionMismatch { start: *start, end: *end },
            Diagnostic::DuplicateSystem { name, start, end } => Diagnostic::DuplicateSystem { name: name.clone(), start: *start, end: *end },
            Diagnostic::DuplicateExternalFunction { name, start, end } => Diagnostic::DuplicateExternalFunction { name: name.clone(), start: *start, end: *end },
            Diagnostic::DuplicateVariable { name, start, end } => Diagnostic::DuplicateVariable { name: name.clone(), start: *start, end: *end },
            Diagnostic::DuplicatePolyhedralObject { name, start, end } => Diagnostic::DuplicatePolyhedralObject { name: name.clone(), start: *start, end: *end },
            Diagnostic::DuplicateStandardEquation { name, start, end } => Diagnostic::DuplicateStandardEquation { name: name.clone(), start: *start, end: *end },
            Diagnostic::DuplicateUseEquation { name, start, end } => Diagnostic::DuplicateUseEquation { name: name.clone(), start: *start, end: *end },
            Diagnostic::DuplicateAlphaConstant { name, start, end } => Diagnostic::DuplicateAlphaConstant { name: name.clone(), start: *start, end: *end },
            Diagnostic::EmptySystemBody { start, end } => Diagnostic::EmptySystemBody { start: *start, end: *end },
            Diagnostic::OverlappingSystemBodies { detail, start, end } => Diagnostic::OverlappingSystemBodies { detail: detail.clone(), start: *start, end: *end },
            Diagnostic::IncompleteSystem { name, detail, start, end } => Diagnostic::IncompleteSystem { name: name.clone(), detail: detail.clone(), start: *start, end: *end },
            Diagnostic::IncompleteEquation { name, domain_detail, param_detail, start, end } => Diagnostic::IncompleteEquation { name: name.clone(), domain_detail: domain_detail.clone(), param_detail: param_detail.clone(), start: *start, end: *end },
            Diagnostic::OverlappingCaseBranch { detail, start, end } => Diagnostic::OverlappingCaseBranch { detail: detail.clone(), start: *start, end: *end },
            Diagnostic::UnboundedReductionBody { start, end } => Diagnostic::UnboundedReductionBody { start: *start, end: *end },
            Diagnostic::InfinitelyRecursiveUseEquation { start, end } => Diagnostic::InfinitelyRecursiveUseEquation { start: *start, end: *end },
            Diagnostic::OverlappingUseEquations { name, detail, start, end } => Diagnostic::OverlappingUseEquations { name: name.clone(), detail: detail.clone(), start: *start, end: *end },
            Diagnostic::IncompleteUseEquation { name, detail, start, end } => Diagnostic::IncompleteUseEquation { name: name.clone(), detail: detail.clone(), start: *start, end: *end },
            Diagnostic::UndefinedVariable { name, start, end } => Diagnostic::UndefinedVariable { name: name.clone(), start: *start, end: *end },
            Diagnostic::QubitMustBeLinear { variable, start, end } => Diagnostic::QubitMustBeLinear { variable: variable.clone(), start: *start, end: *end },
            Diagnostic::LinearValueWidened { target, start, end } => Diagnostic::LinearValueWidened { target: target.clone(), start: *start, end: *end },
            Diagnostic::LinearArgumentToUnrestrictedPort { operator, start, end } => Diagnostic::LinearArgumentToUnrestrictedPort { operator: operator.clone(), start: *start, end: *end },
            Diagnostic::LinearityUnsupportedHere { construct, start, end } => Diagnostic::LinearityUnsupportedHere { construct: construct.clone(), start: *start, end: *end },
            Diagnostic::LinearUseNotInjective { variable, start, end } => Diagnostic::LinearUseNotInjective { variable: variable.clone(), start: *start, end: *end },
            Diagnostic::LinearUsesOverlap { variable, start, end } => Diagnostic::LinearUsesOverlap { variable: variable.clone(), start: *start, end: *end },
            Diagnostic::LinearBranchMismatch { start, end } => Diagnostic::LinearBranchMismatch { start: *start, end: *end },
            Diagnostic::LinearValueUnconsumed { variable, detail, start, end } => Diagnostic::LinearValueUnconsumed { variable: variable.clone(), detail: detail.clone(), start: *start, end: *end },
            Diagnostic::OperationArityMismatch { operation, start, end } => Diagnostic::OperationArityMismatch { operation: operation.clone(), start: *start, end: *end },
            Diagnostic::OperationPortTypeMismatch { operation, start, end } => Diagnostic::OperationPortTypeMismatch { operation: operation.clone(), start: *start, end: *end },
            Diagnostic::OperationOperandAliased { operation, start, end } => Diagnostic::OperationOperandAliased { operation: operation.clone(), start: *start, end: *end },
            Diagnostic::CallDomainMismatch { operation, start, end } => Diagnostic::CallDomainMismatch { operation: operation.clone(), start: *start, end: *end },
            Diagnostic::InvalidOperationContext { operation, start, end } => Diagnostic::InvalidOperationContext { operation: operation.clone(), start: *start, end: *end },
            Diagnostic::ReservedOperationName { name, start, end } => Diagnostic::ReservedOperationName { name: name.clone(), start: *start, end: *end },
        }
    }
}

/// The views of a list of diagnostics.
pub open spec fn issues(v: Seq<Diagnostic>) -> Seq<Issue> {
    Seq::new(v.len(), |i: int| v[i]@)
}

/// Appends one diagnostic.
pub fn report(out: &mut Vec<Diagnostic>, d: Diagnostic)
    ensures
        issues(final(out)@) == issues(old(out)@).push(d@),
{
    out.push(d);
    proof {
        assert(issues(out@) =~= issues(old(out)@).push(d@));
    }
}

/// Moves every diagnostic of `more` to the end of `out`.
pub fn report_all(out: &mut Vec<Diagnostic>, more: Vec<Diagnostic>)
    ensures
        issues(final(out)@) == issues(old(out)@) + issues(more@),
{
    let mut rest = more;
    out.append(&mut rest);
    proof {
        assert(issues(out@) =~= issues(old(out)@) + issues(more@));
    }
}

} // verus!
