use alpha::analyze::{
    analyze_system, report_plans, OutcomeOfEquation, PlanOutcome, SystemAnswers,
};
use alpha::completeness::{
    check_one_case, check_one_reduce, check_standard_equation_completeness, check_system_bodies,
    check_undefined_variables, check_use_equation_recursion, BodiesAnswer, BodyAnswer,
    BoundAnswer, BranchAnswer, EquationAnswer, ReduceAnswer,
};
use alpha::diagnostic::{Diagnostic, SyntaxError};
use alpha::failure::{check_arity, check_inputs, check_remainder, library_failure};
use alpha::linear_checks::LinearAnswers;
use alpha::multiplicity::Multiplicity;
use alpha::program::{analyze_root, check_source, collect_program, Findings};
use alpha::resolve::Resolver;
use alpha::syntax::{
    Calc, CalcKind, Constant, Decl, Equation, Expr, ExprKind, ExternalFunction, Name, ObjectDecl,
    Package, Span, StandardEquation, System, SystemBody, Token, UseEquation,
};
use alpha::uniqueness::{check_program_uniqueness, check_system_uniqueness};
use alpha::use_outputs::{
    check_use_equation_outputs_in_body, output_mentions, MentionAnswer, VariableAnswer,
};

fn at(start: u32) -> Span {
    Span {
        start,
        end: start + 1,
    }
}

fn name(text: &str, start: u32) -> Option<Name> {
    Some(Name {
        text: text.to_string(),
        span: at(start),
    })
}

fn calc(text: &str, kind: CalcKind) -> Calc {
    Calc {
        span: at(90),
        tokens: vec![Token::Other(text.to_string())],
        kind,
    }
}

fn array_of(n: &str) -> Calc {
    calc(
        &format!("[{n}]"),
        CalcKind::RectangularDomain { names: vec![] },
    )
}

fn decl(text: &str, start: u32, domain: Option<Calc>) -> Decl {
    Decl {
        span: at(start),
        fuzzy: false,
        linear: false,
        name: name(text, start),
        domain,
        element_type: None,
    }
}

fn variable(node: usize, text: &str) -> Expr {
    Expr {
        node,
        span: at(node as u32),
        kind: ExprKind::Variable {
            name: Some(text.to_string()),
        },
    }
}

fn standard(target: &str, start: u32, expr: Expr) -> Equation {
    Equation::Standard(StandardEquation {
        span: at(start),
        variable: name(target, start),
        indices: vec![],
        expr: Some(expr),
    })
}

fn call(start: u32, callee: &str, outputs: Vec<Expr>, inputs: Vec<Expr>) -> Equation {
    Equation::Use(use_equation(start, callee, outputs, inputs))
}

fn use_equation(start: u32, callee: &str, outputs: Vec<Expr>, inputs: Vec<Expr>) -> UseEquation {
    UseEquation {
        span: at(start),
        over: None,
        dims: vec![],
        callee: Some(vec![callee.to_string()]),
        call_params: Some(calc(
            "[N]",
            CalcKind::ArrayFunction {
                elements: vec!["N".to_string()],
            },
        )),
        outputs,
        inputs,
    }
}

fn body(equations: Vec<Equation>) -> SystemBody {
    SystemBody {
        span: at(40),
        guard: None,
        equations,
    }
}

fn system(title: &str) -> System {
    System {
        span: at(0),
        name: name(title, 1),
        params: vec!["N".to_string()],
        param_domain: calc("[N]->{:N>0}", CalcKind::ParamDomain),
        scopes: vec![],
        inputs: vec![],
        outputs: vec![],
        locals: vec![],
        objects: vec![],
        bodies: vec![],
    }
}

fn package(title: Option<Vec<&str>>, systems: Vec<System>, packages: Vec<Package>) -> Package {
    Package {
        name: title.map(|v| v.iter().map(|s| s.to_string()).collect()),
        systems,
        externals: vec![],
        packages,
    }
}

fn copies_a_to_b() -> System {
    let mut s = system("System");
    s.inputs = vec![decl("A", 10, Some(array_of("N")))];
    s.outputs = vec![decl("B", 20, Some(array_of("N")))];
    s.bodies = vec![body(vec![standard("B", 41, variable(1, "A"))])];
    s
}

#[test]
fn duplicate_variable_names_are_flagged() {
    let mut s = system("System");
    s.inputs = vec![decl("X", 10, Some(array_of("N")))];
    s.outputs = vec![decl("X", 20, Some(array_of("N")))];
    s.bodies = vec![body(vec![standard("X", 41, variable(1, "X"))])];
    let diags = check_system_uniqueness(&s);
    let dup_vars = diags
        .iter()
        .filter(|d| matches!(d, Diagnostic::DuplicateVariable { name, .. } if name == "X"))
        .count();
    assert_eq!(dup_vars, 2);
    assert_eq!(diags.len(), 2);
    assert_eq!(diags[0].range(), (10, 11));
    assert_eq!(diags[1].range(), (20, 21));
    assert_eq!(diags[0].to_text(), "duplicate name 'X'");
}

#[test]
fn duplicate_between_variable_and_defined_object_is_flagged() {
    let mut s = system("System");
    s.objects = vec![ObjectDecl {
        span: at(5),
        name: name("X", 5),
        expr: Some(calc("{[i]:0<=i<N}", CalcKind::Domain)),
    }];
    s.inputs = vec![decl("A", 10, Some(array_of("N")))];
    s.outputs = vec![decl("X", 20, Some(array_of("N")))];
    s.bodies = vec![body(vec![standard("X", 41, variable(1, "A"))])];
    let diags = check_system_uniqueness(&s);
    let dup_x = diags
        .iter()
        .filter(|d| {
            matches!(
                d,
                Diagnostic::DuplicateVariable { name, .. }
                | Diagnostic::DuplicatePolyhedralObject { name, .. }
                if name == "X"
            )
        })
        .count();
    assert_eq!(dup_x, 2);
}

#[test]
fn duplicate_standard_equation_target_is_flagged() {
    let mut s = copies_a_to_b();
    s.bodies = vec![body(vec![
        standard("B", 41, variable(1, "A")),
        standard("B", 51, variable(2, "A")),
    ])];
    let diags = check_system_uniqueness(&s);
    let dup_eqs = diags
        .iter()
        .filter(|d| matches!(d, Diagnostic::DuplicateStandardEquation { name, .. } if name == "B"))
        .count();
    assert_eq!(dup_eqs, 2);
}

#[test]
fn use_equations_alone_writing_to_the_same_variable_are_not_flagged() {
    let mut s = copies_a_to_b();
    s.bodies = vec![body(vec![
        call(41, "Sub", vec![variable(1, "B")], vec![variable(2, "A")]),
        call(51, "Sub", vec![variable(3, "B")], vec![variable(4, "A")]),
    ])];
    assert!(check_system_uniqueness(&s).is_empty());
}

#[test]
fn a_use_equation_beside_a_standard_one_is_flagged() {
    let mut s = copies_a_to_b();
    s.bodies = vec![body(vec![
        call(41, "Sub", vec![variable(1, "B")], vec![variable(2, "A")]),
        standard("B", 51, variable(3, "A")),
    ])];
    let diags = check_system_uniqueness(&s);
    assert_eq!(diags.len(), 2);
    assert!(matches!(&diags[0], Diagnostic::DuplicateUseEquation { name, start: 41, .. } if name == "B"));
    assert!(matches!(&diags[1], Diagnostic::DuplicateStandardEquation { name, start: 51, .. } if name == "B"));
    assert_eq!(
        diags[0].to_text(),
        "this equation defines 'B', which is already defined by another equation"
    );
}

#[test]
fn duplicate_constant_in_direct_container_is_flagged() {
    let constant = |start: u32, value: &str| Constant {
        span: at(start),
        name: name("K", start),
        value: Some(value.to_string()),
    };
    let mut s = copies_a_to_b();
    s.scopes = vec![vec![constant(3, "1"), constant(6, "2")], vec![]];
    let diags = check_system_uniqueness(&s);
    let dup_consts = diags
        .iter()
        .filter(|d| matches!(d, Diagnostic::DuplicateAlphaConstant { name, .. } if name == "K"))
        .count();
    assert_eq!(dup_consts, 2);
    let mut outer = copies_a_to_b();
    outer.scopes = vec![vec![constant(3, "1")], vec![constant(6, "2")]];
    assert!(check_system_uniqueness(&outer).is_empty());
}

#[test]
fn duplicate_system_across_roots_is_flagged() {
    let roots = vec![
        package(None, vec![copies_a_to_b()], vec![]),
        package(None, vec![copies_a_to_b()], vec![]),
    ];
    let diags = check_program_uniqueness(&roots);
    let dup_systems = diags
        .iter()
        .filter(|d| matches!(d, Diagnostic::DuplicateSystem { name, .. } if name == "System"))
        .count();
    assert_eq!(dup_systems, 2);
}

#[test]
fn packages_keep_equal_names_apart() {
    let roots = vec![package(
        None,
        vec![copies_a_to_b()],
        vec![package(Some(vec!["a", "b"]), vec![copies_a_to_b()], vec![])],
    )];
    assert!(check_program_uniqueness(&roots).is_empty());
    let external = |start: u32| ExternalFunction {
        span: at(start),
        name: name("f", start),
        cardinality: Some("2".to_string()),
        inputs: vec![],
        outputs: vec![],
    };
    let mut root = package(None, vec![], vec![]);
    root.externals = vec![external(3), external(6)];
    let diags = check_program_uniqueness(&vec![root]);
    assert_eq!(diags.len(), 2);
    assert!(matches!(&diags[0], Diagnostic::DuplicateExternalFunction { name, .. } if name == "f"));
}

#[test]
fn undefined_locals_and_outputs_are_flagged() {
    let mut s = system("undefinedLocals");
    s.outputs = vec![decl("A", 10, Some(array_of("N")))];
    s.locals = vec![decl("B", 20, Some(array_of("N"))), decl("C", 30, Some(array_of("N")))];
    s.bodies = vec![body(vec![standard("A", 41, variable(1, "B"))])];
    let diags = check_undefined_variables(&s);
    assert!(diags
        .iter()
        .any(|d| matches!(d, Diagnostic::UndefinedVariable { name, .. } if name == "B")));
    assert_eq!(diags.len(), 1);
    assert_eq!(
        diags[0].to_text(),
        "'B' is used but not defined in this SystemBody"
    );

    let mut s = system("undefinedOutputs");
    s.outputs = vec![
        decl("A", 10, Some(array_of("N"))),
        decl("Z", 15, Some(array_of("N"))),
    ];
    s.bodies = vec![body(vec![standard("A", 41, variable(1, "Z"))])];
    let diags = check_undefined_variables(&s);
    assert!(diags
        .iter()
        .any(|d| matches!(d, Diagnostic::UndefinedVariable { name, .. } if name == "Z")));

    s.bodies = vec![body(vec![call(41, "Sub", vec![variable(1, "A")], vec![])])];
    let diags = check_undefined_variables(&s);
    assert_eq!(diags.len(), 1);
    assert!(matches!(&diags[0], Diagnostic::UndefinedVariable { name, .. } if name == "Z"));
}

fn bodies_answer(bodies: Vec<BodyAnswer>, overlaps: Vec<Result<bool, String>>) -> BodiesAnswer {
    BodiesAnswer {
        params: true,
        bodies,
        overlaps,
        overlap: "{ N = 2 }".to_string(),
        missing: Ok(None),
    }
}

fn resolved(empty: bool) -> BodyAnswer {
    BodyAnswer::Resolved {
        empty,
        failure: None,
    }
}

#[test]
fn incomplete_and_empty_system_bodies_are_flagged() {
    let mut s = system("systemBody1b");
    s.bodies = vec![body(vec![]), body(vec![])];
    let a = bodies_answer(vec![resolved(false), resolved(true)], vec![Ok(false)]);
    let diags = check_system_bodies(&s, &a);
    assert!(diags
        .iter()
        .any(|d| matches!(d, Diagnostic::EmptySystemBody { .. })));

    let mut s = system("systemBody1c");
    s.bodies = vec![body(vec![])];
    let mut a = bodies_answer(vec![resolved(false)], vec![]);
    a.missing = Ok(Some("{ N = 1 }".to_string()));
    let diags = check_system_bodies(&s, &a);
    assert!(matches!(&diags[0], Diagnostic::IncompleteSystem { name, .. } if name == "systemBody1c"));
    assert_eq!(
        diags[0].to_text(),
        "SystemBodies for systemBody1c do not cover the entire parameter domain; missing: { N = 1 }"
    );
    assert_eq!(diags[0].range(), (1, 2));
}

#[test]
fn overlapping_bodies_are_all_flagged() {
    let mut s = system("S");
    s.bodies = vec![body(vec![]), body(vec![]), body(vec![])];
    let a = bodies_answer(
        vec![resolved(false), resolved(false), resolved(false)],
        vec![Ok(false), Ok(true)],
    );
    let diags = check_system_bodies(&s, &a);
    assert_eq!(diags.len(), 3);
    assert_eq!(
        diags[2].to_text(),
        "the SystemBodies define overlapping domains of the output: { N = 2 }"
    );
}

#[test]
fn a_failed_comparison_stands_alone() {
    let mut s = system("S");
    s.bodies = vec![body(vec![]), body(vec![])];
    let a = bodies_answer(
        vec![resolved(true), resolved(false)],
        vec![Err("incompatible spaces".to_string())],
    );
    let diags = check_system_bodies(&s, &a);
    assert_eq!(diags.len(), 1);
    assert_eq!(diags[0].to_text(), "incompatible spaces");
    let a = bodies_answer(vec![resolved(true), BodyAnswer::Unresolved], vec![Ok(false)]);
    assert_eq!(check_system_bodies(&s, &a).len(), 1);
    let mut a = bodies_answer(vec![resolved(true), resolved(true)], vec![Ok(false)]);
    a.params = false;
    assert!(check_system_bodies(&s, &a).is_empty());
}

#[test]
fn unbounded_reduction_body_is_flagged() {
    let bound = |upper: bool, lower: bool| BoundAnswer {
        upper,
        lower,
        failure: None,
    };
    let mut a = ReduceAnswer {
        context: true,
        failure: None,
        bounds: vec![bound(true, true), bound(true, false), bound(false, true)],
    };
    let diags = check_one_reduce(true, at(7), &a);
    assert_eq!(diags.len(), 2);
    assert!(diags
        .iter()
        .all(|d| matches!(d, Diagnostic::UnboundedReductionBody { start: 7, .. })));
    assert!(check_one_reduce(false, at(7), &a).is_empty());
    a.bounds[2].failure = Some("no".to_string());
    assert_eq!(check_one_reduce(true, at(7), &a).len(), 1);
    a.context = false;
    assert!(check_one_reduce(true, at(7), &a).is_empty());
}

#[test]
fn self_recursive_use_equation_is_flagged() {
    let s = system("subsystem1c");
    let u = use_equation(41, "subsystem1c", vec![variable(1, "A")], vec![]);
    let diags = check_use_equation_recursion(&u, &s, &Ok(true));
    assert!(diags
        .iter()
        .any(|d| matches!(d, Diagnostic::InfinitelyRecursiveUseEquation { .. })));
    assert!(check_use_equation_recursion(&u, &s, &Ok(false)).is_empty());
    let other = use_equation(41, "elsewhere", vec![], vec![]);
    assert!(check_use_equation_recursion(&other, &s, &Ok(true)).is_empty());
    let r = Resolver::new(&s);
    assert!(r.recursion_function(&u).is_some());
    assert!(r.recursion_function(&other).is_none());
}

#[test]
fn overlapping_branches_are_flagged_at_the_later_one() {
    let branches = vec![variable(1, "A"), variable(2, "B"), variable(3, "C")];
    let answer = |overlap: Result<Option<String>, String>| BranchAnswer {
        context: true,
        overlap,
    };
    let answers = vec![
        answer(Ok(None)),
        answer(Ok(None)),
        answer(Ok(Some("{ [i] }".to_string()))),
    ];
    let diags = check_one_case(&branches, &answers);
    assert_eq!(diags.len(), 1);
    assert_eq!(diags[0].range(), (3, 4));
    assert_eq!(
        diags[0].to_text(),
        "context domains of case branches overlap: { [i] }"
    );
    let mut answers = answers;
    answers[0].context = false;
    assert!(check_one_case(&branches, &answers).is_empty());
}

#[test]
fn an_equation_must_cover_its_variable() {
    let eq = StandardEquation {
        span: at(41),
        variable: name("B", 41),
        indices: vec!["i".to_string()],
        expr: Some(variable(1, "A")),
    };
    let answer = |undefined| EquationAnswer {
        domain: Some(1),
        variable: Some(1),
        body: true,
        undefined,
    };
    let gap = Some(("{ [i] : i = 0 }".to_string(), "{ : N > 1 }".to_string()));
    let diags = check_standard_equation_completeness(&eq, &answer(Ok(gap.clone())));
    assert_eq!(
        diags[0].to_text(),
        "equation for B is not defined with parameters { : N > 1 } for { [i] : i = 0 }"
    );
    assert!(check_standard_equation_completeness(&eq, &answer(Ok(None))).is_empty());
    let mut other = answer(Ok(gap));
    other.domain = Some(2);
    assert!(check_standard_equation_completeness(&eq, &other).is_empty());
}

#[test]
fn use_equations_must_write_all_of_a_variable_once() {
    let b = body(vec![
        call(41, "Sub", vec![variable(1, "B")], vec![variable(2, "A")]),
        call(51, "Sub", vec![variable(3, "B"), variable(4, "C")], vec![]),
    ]);
    let mentions = output_mentions(&b);
    let seen: Vec<(&str, usize)> = mentions.iter().map(|m| (m.name.as_str(), m.node)).collect();
    assert_eq!(seen, vec![("B", 1), ("B", 3), ("C", 4)]);
    let mention = |overlap| MentionAnswer {
        context: true,
        overlap,
    };
    let whole = || VariableAnswer {
        overlap: "{ [0] }".to_string(),
        resolved: true,
        missing: Ok(None),
    };
    let clean = vec![mention(Ok(false)), mention(Ok(false)), mention(Ok(false))];
    let all = vec![whole(), whole(), whole()];
    assert!(check_use_equation_outputs_in_body(&b, &clean, &all).is_empty());

    let clash = vec![mention(Ok(false)), mention(Ok(true)), mention(Ok(false))];
    let diags = check_use_equation_outputs_in_body(&b, &clash, &all);
    assert_eq!(diags.len(), 2);
    assert_eq!(diags[0].to_text(), "the UseEquations defining B overlap: { [0] }");

    let mut gaps = vec![whole(), whole(), whole()];
    gaps[2].missing = Ok(Some("{ [1] }".to_string()));
    let diags = check_use_equation_outputs_in_body(&b, &clean, &gaps);
    assert_eq!(diags.len(), 1);
    assert_eq!(
        diags[0].to_text(),
        "the UseEquations for C do not define the variable for { [1] }"
    );

    let unknown = vec![
        mention(Ok(false)),
        MentionAnswer {
            context: false,
            overlap: Ok(true),
        },
        mention(Ok(false)),
    ];
    assert!(check_use_equation_outputs_in_body(&b, &unknown, &all).is_empty());
    let failed = vec![mention(Ok(false)), mention(Err("bad".to_string())), mention(Ok(false))];
    let diags = check_use_equation_outputs_in_body(&b, &failed, &all);
    assert_eq!(diags.len(), 1);
    assert_eq!(diags[0].range(), (3, 4));
}

#[test]
fn syntactically_broken_source_reports_only_syntax_diagnostics() {
    let findings = Findings::SyntaxErrors(vec![SyntaxError {
        message: "expected an expression".to_string(),
        start: 51,
        end: 51,
    }]);
    let diags = check_source(&findings);
    assert!(!diags.is_empty());
    assert!(diags
        .iter()
        .all(|(system, d)| system.is_none() && matches!(d, Diagnostic::Syntax(_))));
    assert_eq!(diags[0].1.to_text(), "expected an expression");
    assert_eq!(diags[0].1.range(), (51, 51));
}

/// The plans of a system carried out without a failure.
fn carried_out(s: &System) -> Vec<PlanOutcome> {
    Resolver::new(s)
        .analyze_system()
        .iter()
        .map(|p| PlanOutcome {
            domains: p.domains.iter().map(|_| None).collect(),
            context: None,
        })
        .collect()
}

fn plain_answers(s: &System) -> SystemAnswers {
    SystemAnswers {
        plans: carried_out(s),
        linear: LinearAnswers {
            choices: vec![],
            repeats: vec![],
            overlaps: vec![],
            aliased: vec![],
            differs: vec![],
            unused: vec![],
        },
        bodies: bodies_answer(
            s.bodies.iter().map(|_| resolved(false)).collect(),
            s.bodies.iter().skip(1).map(|_| Ok(false)).collect(),
        ),
        cases: vec![],
        reduces: vec![],
        equations: s
            .bodies
            .iter()
            .map(|b| {
                b.equations
                    .iter()
                    .map(|_| OutcomeOfEquation {
                        standard: EquationAnswer {
                            domain: Some(1),
                            variable: Some(1),
                            body: true,
                            undefined: Ok(None),
                        },
                        identity: Ok(false),
                    })
                    .collect()
            })
            .collect(),
    }
}

#[test]
fn a_sound_system_has_no_diagnostics() {
    let s = copies_a_to_b();
    assert!(analyze_system(&s, &plain_answers(&s)).is_empty());
    let r = Resolver::new(&s);
    let plans = r.analyze_system();
    assert_eq!(plans.len(), 1);
    assert_eq!(plans[0].domains.len(), 1);
    assert!(plans[0].context.is_some());
}

#[test]
fn the_first_failure_of_a_plan_is_reported() {
    let s = copies_a_to_b();
    let failed = |message: &str| Some(library_failure(message, at(7)));
    let mut answers = plain_answers(&s);
    answers.plans[0].context = failed("context");
    let found = analyze_system(&s, &answers);
    assert_eq!(found.len(), 1);
    assert_eq!(found[0].to_text(), "context");
    answers.plans[0].domains[0] = failed("domain");
    let found = analyze_system(&s, &answers);
    assert_eq!(found.len(), 1);
    assert_eq!(found[0].to_text(), "domain");
    let plans = Resolver::new(&s).analyze_system();
    assert_eq!(report_plans(&plans, &answers.plans).len(), 1);
}

#[test]
fn a_step_that_does_not_fit_is_reported_where_it_stands() {
    let span = Span { start: 3, end: 9 };
    assert!(check_arity(2, 2, span).is_none());
    let found = check_arity(1, 2, span).unwrap();
    assert!(matches!(
        found,
        Diagnostic::IncompatibleContextAndExpressionDomain { start: 3, end: 9 }
    ));
    assert!(check_remainder(false, span).is_none());
    assert!(matches!(
        check_remainder(true, span).unwrap(),
        Diagnostic::EmptyAutoRestrict { start: 3, end: 9 }
    ));
    let error = library_failure("wrong", span);
    assert!(check_inputs(2, 2, &error).is_none());
    let found = check_inputs(2, 3, &error).unwrap();
    assert_eq!(found.to_text(), "wrong");
    assert_eq!(found.range(), (3, 9));
}

#[test]
fn whole_program_problems_come_with_the_first_system() {
    let roots = vec![package(
        None,
        vec![copies_a_to_b(), copies_a_to_b()],
        vec![package(Some(vec!["p"]), vec![copies_a_to_b()], vec![])],
    )];
    let answers = vec![
        plain_answers(&roots[0].systems[0]),
        plain_answers(&roots[0].systems[1]),
        plain_answers(&roots[0].packages[0].systems[0]),
    ];
    let reports = analyze_root(&roots, &answers);
    assert_eq!(reports.len(), 3);
    assert_eq!(reports[0].1.len(), 2);
    assert!(reports[1].1.is_empty() && reports[2].1.is_empty());
    let flat = check_source(&Findings::Systems(reports));
    assert_eq!(flat.len(), 2);
    assert_eq!(flat[0].0, Some("System".to_string()));
}

#[test]
fn signatures_are_collected_by_qualified_name() {
    let mut inner = package(Some(vec!["p", "q"]), vec![copies_a_to_b()], vec![]);
    inner.externals = vec![
        ExternalFunction {
            span: at(3),
            name: name("f", 3),
            cardinality: Some("2".to_string()),
            inputs: vec![],
            outputs: vec![],
        },
        ExternalFunction {
            span: at(6),
            name: name("g", 6),
            cardinality: None,
            inputs: vec![Multiplicity::Linear],
            outputs: vec![Multiplicity::Linear, Multiplicity::Unrestricted],
        },
    ];
    let mut linear = copies_a_to_b();
    linear.inputs[0].linear = true;
    let root = package(None, vec![linear], vec![inner]);
    let (systems, signatures) = collect_program(&root);
    let scopes: Vec<&str> = systems.iter().map(|s| s.0.as_str()).collect();
    assert_eq!(scopes, vec!["", "p.q"]);
    let names: Vec<&str> = signatures.iter().map(|s| s.0.as_str()).collect();
    assert_eq!(names, vec!["System", "p.q.f", "p.q.g", "p.q.System"]);
    assert_eq!(signatures[0].1.inputs, vec![Multiplicity::Linear]);
    assert_eq!(
        signatures[1].1.inputs,
        vec![Multiplicity::Unrestricted, Multiplicity::Unrestricted]
    );
    assert_eq!(signatures[1].1.outputs, vec![Multiplicity::Unrestricted]);
    assert_eq!(signatures[2].1.outputs.len(), 2);
}
