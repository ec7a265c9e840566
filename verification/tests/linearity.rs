use alpha::analyze::{analyze_system, OutcomeOfEquation, PlanOutcome, SystemAnswers};
use alpha::completeness::{
    BodiesAnswer, BodyAnswer, BranchAnswer, EquationAnswer, ReduceAnswer,
};
use alpha::diagnostic::Diagnostic;
use alpha::ir;
use alpha::linear_checks::{LinearAnswers, LinearPlan};
use alpha::linearity::Uses;
use alpha::multiplicity::Multiplicity;
use alpha::polyhedral::FunctionTerm;
use alpha::program::{analyze_root, check_source, collect_program, Findings};
use alpha::resolve::Resolver;
use alpha::schedule::{Fragment, Reading};
use alpha::scheduled_ir::{AstExpr, AstNode, AstOp, Scheduling};
use alpha::scheduledc::validate_scheduled_system;
use alpha::syntax::{
    Calc, CalcKind, Decl, Equation, Expr, ExprKind, ExternalFunction, FnExpr, FnExprKind, Name, Package, Span,
    StandardEquation, System, SystemBody, Token, UseEquation,
};
use alpha::ty::{DeclaredType, ElementType};
use alpha::walk::walk_expr;

fn span(start: u32) -> Span {
    Span {
        start,
        end: start + 1,
    }
}

fn name(text: &str) -> Option<Name> {
    Some(Name {
        text: text.to_string(),
        span: span(1),
    })
}

fn calc(text: &str, kind: CalcKind) -> Calc {
    Calc {
        span: span(2),
        tokens: vec![Token::Other(text.to_string())],
        kind,
    }
}

fn expr(node: usize, kind: ExprKind) -> Expr {
    Expr {
        node,
        span: span(node as u32),
        kind,
    }
}

/// `variable[index]`; the read is node `node` and the variable inside it the one after.
fn read(node: usize, variable: &str, index: &str) -> Expr {
    expr(
        node,
        ExprKind::Dependence {
            function: Some(calc(
                &format!("[{index}]"),
                CalcKind::ArrayFunction {
                    elements: vec![index.to_string()],
                },
            )),
            expr: Some(Box::new(expr(
                node + 1,
                ExprKind::Variable {
                    name: Some(variable.to_string()),
                },
            ))),
        },
    )
}

fn boxed(e: Expr) -> Option<Box<Expr>> {
    Some(Box::new(e))
}

const TO_N: &str = "{[i] : 0 <= i < N}";
const PAIR: &str = "{[i] : 0 <= i < 2}";

/// A group of variables over one domain; `linear` stands before the first of them.
fn declared(names: &[&str], domain: &str, linear: bool, of: Option<DeclaredType>) -> Vec<Decl> {
    let last = names.len() - 1;
    names
        .iter()
        .enumerate()
        .map(|(i, n)| Decl {
            span: span(3),
            fuzzy: false,
            linear: linear && i == 0,
            name: name(n),
            domain: if i == last {
                Some(calc(domain, CalcKind::Domain))
            } else {
                None
            },
            element_type: if i == last { of } else { None },
        })
        .collect()
}

fn defined(variable: &str, value: Expr) -> Equation {
    Equation::Standard(StandardEquation {
        span: span(4),
        variable: name(variable),
        indices: vec!["i".to_string()],
        expr: Some(value),
    })
}

fn called(outputs: Vec<Expr>, callee: &str, inputs: Vec<Expr>) -> Equation {
    Equation::Use(UseEquation {
        span: span(5),
        over: None,
        dims: vec!["i".to_string()],
        callee: Some(vec![callee.to_string()]),
        call_params: None,
        outputs,
        inputs,
    })
}

fn system(
    title: &str,
    parameters: &str,
    inputs: Vec<Decl>,
    outputs: Vec<Decl>,
    locals: Vec<Decl>,
    equations: Vec<Equation>,
) -> System {
    System {
        span: span(0),
        name: name(title),
        params: if parameters.starts_with("[N]") {
            vec!["N".to_string()]
        } else {
            vec![]
        },
        param_domain: calc(parameters, CalcKind::ParamDomain),
        scopes: vec![],
        inputs,
        outputs,
        locals,
        objects: vec![],
        bodies: if equations.is_empty() {
            vec![]
        } else {
            vec![SystemBody {
                span: span(6),
                guard: None,
                equations,
            }]
        },
    }
}

fn file(externals: Vec<ExternalFunction>, systems: Vec<System>) -> Package {
    Package {
        name: None,
        systems,
        externals,
        packages: vec![],
    }
}

fn clean(plan: &LinearPlan) -> LinearAnswers {
    LinearAnswers {
        choices: plan.choices.iter().map(|_| Ok(false)).collect(),
        repeats: plan.accesses.iter().map(|_| Ok(false)).collect(),
        overlaps: plan.accesses.iter().map(|_| Ok(false)).collect(),
        aliased: plan.calls.iter().map(|_| Ok(false)).collect(),
        differs: plan.calls.iter().map(|_| Ok(false)).collect(),
        unused: plan.held.iter().map(|_| Ok(None)).collect(),
    }
}

/// What is reported of a file; `found` changes the answers from those of a clean system.
fn diagnostics(root: Package, found: impl Fn(&LinearPlan, &mut LinearAnswers)) -> Vec<Diagnostic> {
    let answers: Vec<SystemAnswers> = {
        let (systems, signatures) = collect_program(&root);
        systems
            .iter()
            .map(|(scope, s)| {
                let resolver = Resolver::new(s);
                let uses = Uses {
                    resolver: &resolver,
                    signatures: &signatures,
                    scope: scope.as_str(),
                };
                let plan = uses.linear_plan();
                let mut linear = clean(&plan);
                found(&plan, &mut linear);
                answers_for(s, linear)
            })
            .collect()
    };
    let reports = analyze_root(&vec![root], &answers);
    check_source(&Findings::Systems(reports))
        .into_iter()
        .map(|(_, d)| d)
        .collect()
}

/// The plans of a system carried out without a failure.
fn carried_out(s: &System) -> Vec<PlanOutcome> {
    Resolver::new(s)
        .analyze_system()
        .iter()
        .map(|p| PlanOutcome {
            domains: p.domains.iter().map(|_| None).collect(),
            context: None,
        })
        .collect()
}

fn answers_for(s: &System, linear: LinearAnswers) -> SystemAnswers {
    let mut cases: Vec<Vec<BranchAnswer>> = vec![];
    let mut reduces: Vec<ReduceAnswer> = vec![];
    for body in &s.bodies {
        for eq in &body.equations {
            let Equation::Standard(q) = eq else { continue };
            let mut inside: Vec<&Expr> = vec![];
            if let Some(x) = &q.expr {
                walk_expr(x, &mut inside);
            }
            for e in inside {
                match &e.kind {
                    ExprKind::Case { branches } => cases.push(
                        branches
                            .iter()
                            .map(|_| BranchAnswer {
                                context: true,
                                overlap: Ok(None),
                            })
                            .collect(),
                    ),
                    ExprKind::Reduce { .. } => reduces.push(ReduceAnswer {
                        context: true,
                        failure: None,
                        bounds: vec![],
                    }),
                    _ => {}
                }
            }
        }
    }
    SystemAnswers {
        plans: carried_out(s),
        linear,
        bodies: BodiesAnswer {
            params: true,
            bodies: s
                .bodies
                .iter()
                .map(|_| BodyAnswer::Resolved {
                    empty: false,
                    failure: None,
                })
                .collect(),
            overlaps: vec![],
            overlap: String::new(),
            missing: Ok(None),
        },
        cases,
        reduces,
        equations: s
            .bodies
            .iter()
            .map(|b| {
                b.equations
                    .iter()
                    .map(|_| OutcomeOfEquation {
                        standard: EquationAnswer {
                            domain: Some(1),
                            variable: Some(1),
                            body: true,
                            undefined: Ok(None),
                        },
                        identity: Ok(false),
                    })
                    .collect()
            })
            .collect(),
    }
}

fn as_planned(_: &LinearPlan, _: &mut LinearAnswers) {}

/// One output `Y` over one input `X`.
fn transfer(linear_input: bool, linear_output: bool, value: Expr) -> System {
    system(
        "widened",
        "[N] -> {: N > 0}",
        declared(&["X"], TO_N, linear_input, None),
        declared(&["Y"], TO_N, linear_output, None),
        vec![],
        vec![defined("Y", value)],
    )
}

fn one(s: System) -> Package {
    file(vec![], vec![s])
}

// Multiplicities.

#[test]
fn linear_value_cannot_flow_to_unrestricted_target() {
    let found = diagnostics(one(transfer(true, false, read(10, "X", "i"))), as_planned);
    assert!(found
        .iter()
        .any(|d| matches!(d, Diagnostic::LinearValueWidened { target, .. } if target == "Y")));
}

#[test]
fn unrestricted_value_can_be_restricted_to_a_linear_target() {
    let found = diagnostics(one(transfer(false, true, read(10, "X", "i"))), as_planned);
    assert!(found.is_empty(), "{found:#?}");
}

#[test]
fn linear_value_can_flow_to_a_linear_target() {
    let found = diagnostics(one(transfer(true, true, read(10, "X", "i"))), as_planned);
    assert!(found.is_empty(), "{found:#?}");
}

#[test]
fn existing_operators_reject_linear_operands() {
    let value = expr(
        9,
        ExprKind::Unary {
            operator: "-".to_string(),
            operand: boxed(expr(
                10,
                ExprKind::Paren {
                    inner: boxed(expr(
                        11,
                        ExprKind::Dependence {
                            function: Some(calc(
                                "(i -> i)",
                                CalcKind::Function {
                                    inputs: vec!["i".to_string()],
                                    exprs: vec![FnExpr {
                                        span: span(2),
                                        kind: FnExprKind::Literal("i".to_string()),
                                    }],
                                },
                            )),
                            expr: boxed(expr(
                                12,
                                ExprKind::Variable {
                                    name: Some("X".to_string()),
                                },
                            )),
                        },
                    )),
                },
            )),
        },
    );
    let found = diagnostics(one(transfer(true, false, value)), as_planned);
    assert!(
        found.iter().any(|d| matches!(
            d,
            Diagnostic::LinearArgumentToUnrestrictedPort { operator, .. } if operator == "-"
        )),
        "{found:#?}"
    );
}

#[test]
fn binary_operators_reject_linear_operands() {
    let value = expr(
        9,
        ExprKind::Binary {
            operator: "+".to_string(),
            lhs: boxed(read(10, "X", "i")),
            rhs: boxed(read(12, "X", "i")),
        },
    );
    let found = diagnostics(one(transfer(true, false, value)), as_planned);
    assert!(
        found.iter().any(|d| matches!(
            d,
            Diagnostic::LinearArgumentToUnrestrictedPort { operator, .. } if operator == "+"
        )),
        "{found:#?}"
    );
}

fn of_two(node: usize, operator: &str) -> Expr {
    expr(
        node,
        ExprKind::MultiArg {
            operator: operator.to_string(),
            args: vec![read(node + 1, "X", "i"), read(node + 3, "X", "i")],
        },
    )
}

#[test]
fn legacy_external_functions_reject_linear_operands() {
    let f = ExternalFunction {
        span: span(7),
        name: name("f"),
        cardinality: Some("2".to_string()),
        inputs: vec![],
        outputs: vec![],
    };
    let root = file(vec![f], vec![transfer(true, false, of_two(9, "f"))]);
    let found = diagnostics(root, as_planned);
    assert!(
        found.iter().any(|d| matches!(
            d,
            Diagnostic::LinearArgumentToUnrestrictedPort { operator, .. } if operator == "f"
        )),
        "{found:#?}"
    );
}

#[test]
fn linear_ports_take_and_give_linear_values() {
    let f = ExternalFunction {
        span: span(7),
        name: name("f"),
        cardinality: None,
        inputs: vec![Multiplicity::Linear, Multiplicity::Linear],
        outputs: vec![Multiplicity::Linear],
    };
    let root = file(vec![f], vec![transfer(true, true, of_two(9, "f"))]);
    let found = diagnostics(root, as_planned);
    assert!(found.is_empty(), "{found:#?}");
}

#[test]
fn reduction_with_linear_reference_is_explicitly_unsupported() {
    let value = expr(
        9,
        ExprKind::Reduce {
            projection: Some(calc(
                "[j]",
                CalcKind::ArrayFunction {
                    elements: vec!["j".to_string()],
                },
            )),
            body: boxed(expr(
                10,
                ExprKind::Restrict {
                    domain: Some(calc("{: 0 <= j <= i}", CalcKind::ArrayDomain)),
                    expr: boxed(read(11, "X", "j")),
                },
            )),
        },
    );
    let found = diagnostics(one(transfer(true, true, value)), as_planned);
    assert!(
        found.iter().any(|d| matches!(
            d,
            Diagnostic::LinearityUnsupportedHere { construct, .. } if construct == "reduce"
        )),
        "{found:#?}"
    );
}

#[test]
fn identity_transfer_consumes_each_linear_point_once() {
    let s = transfer(true, true, read(10, "X", "i"));
    let resolver = Resolver::new(&s);
    let uses = Uses {
        resolver: &resolver,
        signatures: &vec![],
        scope: "",
    };
    let plan = uses.linear_plan();
    assert_eq!(plan.accesses.len(), 1);
    assert_eq!(plan.accesses[0].variable, "X");
    assert_eq!(plan.accesses[0].steps.len(), 1);
    assert_eq!(plan.accesses[0].steps[0].node, 10);
    match &plan.accesses[0].steps[0].function {
        FunctionTerm::Read { text, .. } => assert_eq!(text, "[N] -> { [i] -> [i] }"),
        other => panic!("unexpected {other:?}"),
    }
    assert_eq!(plan.held.len(), 1);
    assert_eq!(plan.held[0].name, "X");
    assert!(uses.check_system(&clean(&plan)).is_empty());
}

#[test]
fn two_reads_of_the_same_linear_points_overlap() {
    let s = system(
        "duplicate",
        "[N] -> {: N > 0}",
        declared(&["X"], TO_N, true, None),
        declared(&["Y", "Z"], TO_N, true, None),
        vec![],
        vec![
            defined("Y", read(10, "X", "i")),
            defined("Z", read(20, "X", "i")),
        ],
    );
    let found = diagnostics(one(s), |plan, a| {
        assert_eq!(plan.accesses.len(), 2);
        a.overlaps[1] = Ok(true);
    });
    assert!(
        found
            .iter()
            .any(|d| matches!(d, Diagnostic::LinearUsesOverlap { variable, .. } if variable == "X")),
        "{found:#?}"
    );
}

#[test]
fn broadcast_read_is_not_injective() {
    let mut written = defined("Y", read(10, "X", "i"));
    if let Equation::Standard(q) = &mut written {
        q.indices.push("j".to_string());
    }
    let s = system(
        "broadcast",
        "[N] -> {: N > 0}",
        declared(&["X"], TO_N, true, None),
        declared(&["Y"], "{[i, j] : 0 <= i < N and 0 <= j < 2}", true, None),
        vec![],
        vec![written],
    );
    let found = diagnostics(one(s), |_, a| a.repeats[0] = Ok(true));
    assert!(
        found.iter().any(
            |d| matches!(d, Diagnostic::LinearUseNotInjective { variable, .. } if variable == "X")
        ),
        "{found:#?}"
    );
}

#[test]
fn partially_read_linear_input_reports_unconsumed_points() {
    let s = system(
        "partial",
        "[N] -> {: N > 1}",
        declared(&["X"], TO_N, true, None),
        declared(&["Y"], "{[i] : 0 <= i < N - 1}", true, None),
        vec![],
        vec![defined("Y", read(10, "X", "i"))],
    );
    let found = diagnostics(one(s), |_, a| {
        a.unused[0] = Ok(Some("[N] -> { [-1 + N] : N >= 2 }".to_string()));
    });
    assert!(
        found.iter().any(|d| matches!(
            d,
            Diagnostic::LinearValueUnconsumed { variable, detail, .. }
                if variable == "X" && detail.contains('N')
        )),
        "{found:#?}"
    );
}

#[test]
fn affine_permutation_consumes_each_linear_point_once() {
    let s = transfer(true, true, read(10, "X", "N - i - 1"));
    let found = diagnostics(one(s), as_planned);
    assert!(found.is_empty(), "{found:#?}");
}

fn choosing(title: &str, parameters: &str, held: &[&str], second: Expr) -> System {
    let value = expr(
        9,
        ExprKind::If {
            cond: boxed(read(10, "C", "i")),
            then_branch: boxed(read(12, "X", "i")),
            else_branch: boxed(second),
        },
    );
    let mut inputs = declared(&["C"], TO_N, false, None);
    inputs.extend(declared(held, TO_N, true, None));
    system(
        title,
        parameters,
        inputs,
        declared(&["Y"], TO_N, true, None),
        vec![],
        vec![defined("Y", value)],
    )
}

#[test]
fn runtime_if_branches_must_consume_the_same_linear_resources() {
    let s = choosing(
        "branch",
        "[N] -> {: N > 0}",
        &["X", "A"],
        read(14, "A", "i"),
    );
    let found = diagnostics(one(s), |plan, a| {
        assert_eq!(plan.choices.len(), 1);
        assert_eq!(plan.choices[0].first[0].variable, "X");
        assert_eq!(plan.choices[0].second[0].variable, "A");
        a.choices[0] = Ok(true);
    });
    assert!(
        found
            .iter()
            .any(|d| matches!(d, Diagnostic::LinearBranchMismatch { .. })),
        "{found:#?}"
    );
}

#[test]
fn runtime_if_counts_equal_branch_resources_once() {
    let s = choosing("branch", "[N] -> {: N > 0}", &["X"], read(14, "X", "i"));
    let found = diagnostics(one(s), |plan, _| assert_eq!(plan.accesses.len(), 1));
    assert!(found.is_empty(), "{found:#?}");
}

fn in_pieces(title: &str, first: &str, second: &str) -> System {
    let piece = |node: usize, domain: &str| {
        expr(
            node,
            ExprKind::Restrict {
                domain: Some(calc(domain, CalcKind::ArrayDomain)),
                expr: boxed(read(node + 1, "X", "i")),
            },
        )
    };
    let value = expr(
        9,
        ExprKind::Case {
            branches: vec![piece(10, first), piece(20, second)],
        },
    );
    system(
        title,
        "[N] -> {: N > 1}",
        declared(&["X"], TO_N, true, None),
        declared(&["Y"], TO_N, true, None),
        vec![],
        vec![defined("Y", value)],
    )
}

#[test]
fn disjoint_case_branches_union_linear_uses() {
    let s = in_pieces("pieces", "{: i < N - 1}", "{: i >= N - 1}");
    let found = diagnostics(one(s), |plan, _| assert_eq!(plan.accesses.len(), 2));
    assert!(found.is_empty(), "{found:#?}");
}

#[test]
fn overlapping_case_branches_report_overlapping_linear_uses() {
    let s = in_pieces("overlapping_pieces", "{: i < N}", "{: i >= N - 1}");
    let found = diagnostics(one(s), |_, a| a.overlaps[1] = Ok(true));
    assert!(
        found
            .iter()
            .any(|d| matches!(d, Diagnostic::LinearUsesOverlap { .. })),
        "{found:#?}"
    );
}

#[test]
fn runtime_if_compares_access_relations_not_only_variable_names() {
    let s = choosing(
        "branch_map",
        "[N] -> {: N > 1}",
        &["X"],
        read(14, "X", "N - i - 1"),
    );
    let found = diagnostics(one(s), |plan, a| {
        let c = &plan.choices[0];
        assert_eq!(c.first[0].variable, c.second[0].variable);
        assert_ne!(
            format!("{:?}", c.first[0].steps[0].function),
            format!("{:?}", c.second[0].steps[0].function)
        );
        a.choices[0] = Ok(true);
    });
    assert!(
        found
            .iter()
            .any(|d| matches!(d, Diagnostic::LinearBranchMismatch { .. })),
        "{found:#?}"
    );
}

#[test]
fn a_failed_comparison_is_reported_where_it_was_asked() {
    let s = transfer(true, true, read(10, "X", "i"));
    let found = diagnostics(one(s), |_, a| a.overlaps[0] = Err("no answer".to_string()));
    assert_eq!(found.len(), 1);
    assert!(matches!(
        &found[0],
        Diagnostic::IslError { message, .. } if message == "no answer"
    ));
    assert_eq!(found[0].range(), (11, 12));
}

// Element types.

fn qubits(names: &[&str], domain: &str) -> Vec<Decl> {
    declared(names, domain, true, Some(DeclaredType::Qubit))
}

#[test]
fn explicitly_linear_qubits_are_valid() {
    let s = system(
        "q",
        "[] -> {:}",
        qubits(&["Q"], PAIR),
        qubits(&["R"], PAIR),
        vec![],
        vec![defined("R", read(10, "Q", "i"))],
    );
    let found = diagnostics(one(s), as_planned);
    assert!(found.is_empty(), "{found:#?}");
}

#[test]
fn unrestricted_qubits_are_rejected() {
    let s = system(
        "q",
        "[] -> {:}",
        declared(&["Q"], PAIR, false, Some(DeclaredType::Qubit)),
        declared(&["Y"], PAIR, false, None),
        vec![],
        vec![defined("Y", expr(10, ExprKind::Int))],
    );
    let found = diagnostics(one(s), as_planned);
    assert!(found
        .iter()
        .any(|d| matches!(d, Diagnostic::QubitMustBeLinear { variable, .. } if variable == "Q")));
}

// Operations.

fn pair(outputs: [&str; 2], inputs: [(&str, &str); 2]) -> Equation {
    called(
        vec![read(30, outputs[0], "i"), read(32, outputs[1], "i")],
        "cx",
        vec![
            read(10, inputs[0].0, inputs[0].1),
            read(20, inputs[1].0, inputs[1].1),
        ],
    )
}

#[test]
fn typed_quantum_calls_are_valid_without_external_declarations() {
    let s = system(
        "gates",
        "[] -> {:}",
        qubits(&["Q0", "R0"], PAIR),
        qubits(&["Q1", "R1"], PAIR),
        vec![],
        vec![pair(["Q1", "R1"], [("Q0", "i"), ("R0", "i")])],
    );
    let found = diagnostics(one(s), |plan, _| {
        assert_eq!(plan.calls.len(), 1);
        assert_eq!(plan.calls[0].nodes, vec![10, 20, 30, 32]);
        assert!(plan.calls[0].implicit);
        assert!(plan.accesses.iter().all(|a| a.called));
    });
    assert!(found.is_empty(), "{found:#?}");
}

#[test]
fn allocation_gates_measurement_and_discard_are_valid() {
    let circuit = system(
        "circuit",
        "[] -> {:}",
        vec![],
        declared(&["M"], PAIR, false, Some(DeclaredType::Bool)),
        qubits(&["Q0", "Q1", "Q2"], PAIR),
        vec![
            called(vec![read(10, "Q0", "i")], "qalloc", vec![]),
            called(vec![read(20, "Q1", "i")], "h", vec![read(22, "Q0", "i")]),
            called(vec![read(30, "Q2", "i")], "h", vec![read(32, "Q1", "i")]),
            called(vec![read(40, "M", "i")], "measure", vec![read(42, "Q2", "i")]),
        ],
    );
    let sink = system(
        "sink",
        "[] -> {:}",
        qubits(&["Q"], PAIR),
        vec![],
        vec![],
        vec![called(vec![], "discard", vec![read(50, "Q", "i")])],
    );
    let found = diagnostics(file(vec![], vec![circuit, sink]), as_planned);
    assert!(found.is_empty(), "{found:#?}");
}

#[test]
fn wrong_operation_arity_is_rejected() {
    let s = system(
        "bad",
        "[] -> {:}",
        qubits(&["Q"], PAIR),
        qubits(&["R"], PAIR),
        vec![],
        vec![called(
            vec![read(30, "R", "i")],
            "cx",
            vec![read(10, "Q", "i")],
        )],
    );
    let found = diagnostics(one(s), as_planned);
    assert!(found.iter().any(|d| matches!(
        d,
        Diagnostic::OperationArityMismatch { operation, .. } if operation == "cx"
    )));
}

#[test]
fn operation_port_type_mismatch_is_rejected() {
    let s = system(
        "bad",
        "[] -> {:}",
        declared(&["B"], PAIR, false, Some(DeclaredType::Bool)),
        qubits(&["Q"], PAIR),
        vec![],
        vec![called(
            vec![read(30, "Q", "i")],
            "h",
            vec![read(10, "B", "i")],
        )],
    );
    let found = diagnostics(one(s), as_planned);
    assert!(found.iter().any(|d| matches!(
        d,
        Diagnostic::OperationPortTypeMismatch { operation, .. } if operation == "h"
    )));
}

#[test]
fn aliased_linear_gate_operands_are_rejected() {
    let s = system(
        "bad",
        "[] -> {:}",
        qubits(&["Q"], PAIR),
        qubits(&["R", "S"], PAIR),
        vec![],
        vec![pair(["R", "S"], [("Q", "i"), ("Q", "i")])],
    );
    let found = diagnostics(one(s), |plan, a| {
        assert_eq!(plan.calls[0].operands.len(), 2);
        a.aliased[0] = Ok(true);
    });
    assert!(
        found.iter().any(|d| matches!(
            d,
            Diagnostic::OperationOperandAliased { operation, .. } if operation == "cx"
        )),
        "{found:#?}"
    );
}

#[test]
fn disjoint_operands_from_one_linear_variable_are_valid() {
    let s = system(
        "pairs",
        "[N] -> {:N>0}",
        qubits(&["Q"], "{[i] : 0 <= i < 2*N}"),
        qubits(&["R", "S"], TO_N),
        vec![],
        vec![pair(["R", "S"], [("Q", "2*i"), ("Q", "2*i+1")])],
    );
    let found = diagnostics(one(s), as_planned);
    assert!(found.is_empty(), "{found:#?}");
}

#[test]
fn registered_operation_names_are_reserved() {
    let h = ExternalFunction {
        span: span(7),
        name: name("h"),
        cardinality: Some("1".to_string()),
        inputs: vec![],
        outputs: vec![],
    };
    let s = system("qalloc", "[] -> {:}", vec![], vec![], vec![], vec![]);
    let found = diagnostics(file(vec![h], vec![s]), as_planned);
    assert_eq!(
        found
            .iter()
            .filter(|d| matches!(d, Diagnostic::ReservedOperationName { .. }))
            .count(),
        2,
        "{found:#?}"
    );
}

#[test]
fn rejects_measurement_controlled_gate_expression() {
    let mut inputs = qubits(&["Q"], PAIR);
    inputs.extend(declared(&["M"], PAIR, false, Some(DeclaredType::Bool)));
    let gate = expr(
        12,
        ExprKind::MultiArg {
            operator: "h".to_string(),
            args: vec![read(13, "Q", "i")],
        },
    );
    let value = expr(
        9,
        ExprKind::If {
            cond: boxed(read(10, "M", "i")),
            then_branch: boxed(gate),
            else_branch: boxed(read(15, "Q", "i")),
        },
    );
    let s = system(
        "bad",
        "[] -> {:}",
        inputs,
        qubits(&["R"], PAIR),
        vec![],
        vec![defined("R", value)],
    );
    let found = diagnostics(one(s), as_planned);
    assert!(
        found.iter().any(|d| matches!(
            d,
            Diagnostic::InvalidOperationContext { operation, .. } if operation == "h"
        )),
        "{found:#?}"
    );
}

#[test]
fn implicit_call_domains_must_agree() {
    let short = "{[i] : 0 <= i < N-1}";
    let mut inputs = qubits(&["Q"], TO_N);
    inputs.extend(qubits(&["R"], short));
    let mut outputs = qubits(&["Q1"], TO_N);
    outputs.extend(qubits(&["R1"], short));
    let s = system(
        "bad",
        "[N] -> {:N>1}",
        inputs,
        outputs,
        vec![],
        vec![pair(["Q1", "R1"], [("Q", "i"), ("R", "i")])],
    );
    let found = diagnostics(one(s), |_, a| a.differs[0] = Ok(true));
    assert!(
        found.iter().any(|d| matches!(
            d,
            Diagnostic::CallDomainMismatch { operation, .. } if operation == "cx"
        )),
        "{found:#?}"
    );
}

#[test]
fn results_of_a_linear_port_need_a_linear_target() {
    let inner = system(
        "inner",
        "[N] -> {: N > 0}",
        declared(&["A"], TO_N, true, None),
        declared(&["B"], TO_N, true, None),
        vec![],
        vec![defined("B", read(60, "A", "i"))],
    );
    let outer = system(
        "outer",
        "[N] -> {: N > 0}",
        declared(&["X"], TO_N, true, None),
        declared(&["Y"], TO_N, false, None),
        vec![],
        vec![called(
            vec![read(30, "Y", "i")],
            "inner",
            vec![read(10, "X", "i")],
        )],
    );
    let found = diagnostics(file(vec![], vec![inner, outer]), as_planned);
    assert_eq!(found.len(), 1, "{found:#?}");
    assert!(matches!(
        &found[0],
        Diagnostic::LinearValueWidened { target, .. } if target == "Y"
    ));
}

// Schedules.

fn lowered_line(name: &str) -> ir::Variable {
    ir::Variable {
        name: name.to_string(),
        domain: ir::Domain {
            text: "[N] -> { [i] : 0 <= i < N }".to_string(),
            ndims: 1,
            mins: vec![Ok("0".to_string())],
            maxs: vec![Ok("N - 1".to_string())],
            nest: Ok(vec![]),
        },
        element_type: ElementType::Real,
        multiplicity: Multiplicity::Unrestricted,
    }
}

fn lowered_transfer() -> ir::System {
    let read = ir::ExprKind::Dependence {
        function: ir::AffineFunction {
            text: "{ [i] -> [i] }".to_string(),
            n_in: 1,
            outputs: vec![ir::Template {
                pieces: vec![ir::Piece::Index(0)],
            }],
        },
        operand: ir::Expr {
            kind: Box::new(ir::ExprKind::Variable("X".to_string())),
            context: None,
        },
    };
    ir::System {
        name: "Transfer".to_string(),
        params: vec![Some("N".to_string())],
        inputs: vec![lowered_line("X")],
        outputs: vec![lowered_line("Y")],
        locals: vec![],
        bodies: vec![ir::SystemBody {
            guard: "N >= 1".to_string(),
            params: vec![Some("N".to_string())],
            equations: vec![ir::Equation::Standard(ir::StandardEquation {
                variable: "Y".to_string(),
                index_names: vec!["i".to_string()],
                expr: ir::Expr {
                    kind: Box::new(read),
                    context: None,
                },
            })],
        }],
        validity: Ok("N >= 1".to_string()),
    }
}

fn in_order(reading: Reading, at: AstExpr) -> Scheduling {
    let iterator = || AstExpr::Id("c0".to_string());
    Scheduling {
        reading,
        fused: Ok(()),
        scheduled: vec![true],
        answers: vec![],
        ast: Ok(AstNode::For {
            iterator: "c0".to_string(),
            init: AstExpr::Int(Ok(0)),
            cond: AstExpr::Op {
                op: AstOp::Lt,
                label: "lt".to_string(),
                args: vec![iterator(), AstExpr::Id("N".to_string())],
            },
            inc: AstExpr::Int(Ok(1)),
            body: Box::new(AstNode::User {
                name: Some("Y".to_string()),
                indices: vec![at],
            }),
        }),
    }
}

#[test]
fn legal_schedules_do_not_change_linear_resource_validation() {
    let source = || {
        system(
            "Transfer",
            "[N] -> {: N > 0}",
            declared(&["X"], TO_N, true, None),
            declared(&["Y"], TO_N, true, None),
            vec![],
            vec![defined("Y", read(10, "X", "i"))],
        )
    };
    let found = diagnostics(one(source()), as_planned);
    assert!(found.is_empty(), "{found:#?}");

    let s = source();
    let resolver = Resolver::new(&s);
    let uses = Uses {
        resolver: &resolver,
        signatures: &vec![],
        scope: "",
    };
    let answers = answers_for(&s, clean(&uses.linear_plan()));
    let found = analyze_system(&s, &answers);
    assert!(found.is_empty(), "{found:#?}");

    let lowered = lowered_transfer();
    let difference = |l: AstExpr, r: AstExpr| AstExpr::Op {
        op: AstOp::Sub,
        label: "sub".to_string(),
        args: vec![l, r],
    };
    let iterator = || AstExpr::Id("c0".to_string());
    let identity = in_order(Reading::Read(vec![]), iterator());
    assert!(validate_scheduled_system(&lowered, "", &identity).is_ok());
    let last = difference(AstExpr::Id("N".to_string()), AstExpr::Int(Ok(1)));
    let mirror = in_order(
        Reading::Read(vec![Fragment {
            name: Some("Y".to_string()),
            width: 1,
            covers: Ok(true),
            injective: Ok(true),
        }]),
        difference(last, iterator()),
    );
    let text = "[N] -> { Y[i] -> [N - 1 - i]; }";
    assert!(validate_scheduled_system(&lowered, text, &mirror).is_ok());
}

#[test]
fn every_duplicate_is_reported_once() {
    let s = system(
        "System",
        "[N]->{:N>0}",
        declared(&["X"], "[N]", false, None),
        declared(&["X"], "[N]", false, None),
        vec![],
        vec![defined("X", read(10, "X", "i"))],
    );
    let found: Vec<(Option<String>, Diagnostic)> = {
        let root = one(s);
        let answers = {
            let (systems, signatures) = collect_program(&root);
            let (scope, s) = &systems[0];
            let resolver = Resolver::new(s);
            let uses = Uses {
                resolver: &resolver,
                signatures: &signatures,
                scope: scope.as_str(),
            };
            vec![answers_for(s, clean(&uses.linear_plan()))]
        };
        check_source(&Findings::Systems(analyze_root(&vec![root], &answers)))
    };
    let duplicates: Vec<&(Option<String>, Diagnostic)> = found
        .iter()
        .filter(|(_, d)| matches!(d, Diagnostic::DuplicateVariable { name, .. } if name == "X"))
        .collect();
    assert_eq!(duplicates.len(), 2, "{found:#?}");
    assert!(duplicates
        .iter()
        .all(|(system, _)| system.as_deref() == Some("System")));
}
