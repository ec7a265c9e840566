use alpha::binding::{codegen_err_to_py, parse_and_lower, Loading, Raised};
use alpha::context_names::{
    bare_identifier_elements, domain_tuple_names, extend_unique, is_bare_colon_domain,
    relation_range_names,
};
use alpha::diagnostic::{Diagnostic, SyntaxError};
use alpha::error::{CodegenError, IslError};
use alpha::function::render_fn_expr;
use alpha::multiplicity::{Multiplicity, VariableId};
use alpha::polyhedral::{FunctionTerm, MapSide, MapTerm, SetOp, SetTerm, Value};
use alpha::resolve::Resolver;
use alpha::scan::{
    after_arrow, first_piece, parse_i64, parse_usize, split, split_elements, split_once, strip,
    trim, without_leading, without_trailing, Class,
};
use alpha::syntax::{
    Calc, CalcKind, Constant, Decl, Expr, ExprKind, FnExpr, FnExprKind, Name, Span, System, Token,
    UnaryKind,
};
use alpha::ty::{DeclaredType, ElementType};
use alpha::value::{eval_binary, eval_unary};
use alpha::walk::walk_expr;

fn owned(v: &[&str]) -> Vec<String> {
    v.iter().map(|s| s.to_string()).collect()
}

fn span() -> Span {
    Span { start: 3, end: 9 }
}

fn name(text: &str) -> Option<Name> {
    Some(Name {
        text: text.to_string(),
        span: span(),
    })
}

fn calc(text: &str, kind: CalcKind) -> Calc {
    Calc {
        span: span(),
        tokens: vec![Token::Other(text.to_string())],
        kind,
    }
}

fn decl(text: &str, linear: bool, domain: Option<Calc>) -> Decl {
    Decl {
        span: span(),
        fuzzy: false,
        linear,
        name: name(text),
        domain,
        element_type: None,
    }
}

fn domain(text: &str) -> Calc {
    calc(text, CalcKind::Domain)
}

fn system() -> System {
    System {
        span: span(),
        name: name("S"),
        params: owned(&["N"]),
        param_domain: calc("[N]->{:N>0}", CalcKind::ParamDomain),
        scopes: vec![],
        inputs: vec![
            decl("Q", true, None),
            decl("R", false, Some(domain("{[i]: 0<=i<N}"))),
            decl("X", false, Some(domain("{[i]: 0<=i<2}"))),
        ],
        outputs: vec![],
        locals: vec![],
        objects: vec![],
        bodies: vec![],
    }
}

fn expr(node: usize, kind: ExprKind) -> Expr {
    Expr {
        node,
        span: span(),
        kind,
    }
}

fn variable(node: usize, text: &str) -> Expr {
    expr(
        node,
        ExprKind::Variable {
            name: Some(text.to_string()),
        },
    )
}

fn read_text(t: &SetTerm) -> String {
    match t {
        SetTerm::Read { text, .. } => text.clone(),
        other => panic!("not read from a text: {other:?}"),
    }
}

// Index names.

#[test]
fn plain_names_extract_unchanged() {
    assert_eq!(domain_tuple_names("{[i,j]: i<j}"), vec!["i", "j"]);
}

#[test]
fn equality_bound_tuple_positions_extract_the_bare_name() {
    assert_eq!(
        domain_tuple_names("{[i = 0, j = 0] : 1 = 1}"),
        vec!["i", "j"]
    );
    assert_eq!(relation_range_names("{[i] -> [i, j = 0]}"), vec!["i", "j"]);
}

#[test]
fn names_join_a_context_once() {
    assert_eq!(
        extend_unique(&owned(&["i", "j"]), &owned(&["j", "k", "k"])),
        vec!["i", "j", "k"]
    );
    assert_eq!(
        bare_identifier_elements(&owned(&["i", "j+1", "_k", "é", "2", "a b"])),
        vec!["i", "_k", "é", "2"]
    );
    assert!(is_bare_colon_domain("{ : N > 0 }"));
    assert!(!is_bare_colon_domain("{ [i] : N > 0 }"));
}

// Scanning.

#[test]
fn texts_are_cut_at_their_marks() {
    assert_eq!(trim(" \t a b\n"), "a b");
    assert_eq!(trim("\u{3000}x\u{a0}"), "x");
    assert_eq!(without_leading("[[a]", Class::Only('[')), "a]");
    assert_eq!(without_trailing("a]]", Class::Only(']')), "a");
    assert_eq!(without_leading("  a ", Class::White), "a ");
    assert_eq!(split("a,,b", ','), vec!["a", "", "b"]);
    assert_eq!(split("", ','), vec![""]);
    assert_eq!(first_piece("a=b=c", '='), "a");
    assert_eq!(
        split_once("a:b:c", ':'),
        Some(("a".to_string(), "b:c".to_string()))
    );
    assert_eq!(split_once("abc", ':'), None);
    assert_eq!(after_arrow("a->b->c"), Some("b".to_string()));
    assert_eq!(after_arrow("a>b"), None);
    assert_eq!(strip("{ x }", '{', '}'), " x ");
    assert_eq!(strip("x }", '{', '}'), "");
}

#[test]
fn elements_are_split_outside_brackets() {
    assert_eq!(
        split_elements("i, min(i,j), a[b,c]"),
        vec!["i", "min(i,j)", "a[b,c]"]
    );
}

#[test]
fn numerals_are_read_within_their_range() {
    assert_eq!(parse_i64("-9223372036854775808"), Some(i64::MIN));
    assert_eq!(parse_i64("+7"), Some(7));
    assert_eq!(parse_i64("9223372036854775808"), None);
    assert_eq!(parse_i64(""), None);
    assert_eq!(parse_i64("-"), None);
    assert_eq!(parse_i64("1x"), None);
    assert_eq!(parse_usize("42"), Some(42));
    assert_eq!(parse_usize("-1"), None);
}

// Resolution.

#[test]
fn groups_share_their_domain_and_multiplicity() {
    let s = system();
    let r = Resolver::new(&s);
    assert_eq!(r.variable_multiplicity("Q"), Some(Multiplicity::Linear));
    assert_eq!(r.variable_multiplicity("R"), Some(Multiplicity::Linear));
    assert_eq!(
        r.variable_multiplicity("X"),
        Some(Multiplicity::Unrestricted)
    );
    assert_eq!(r.variable_multiplicity("Y"), None);
    assert_eq!(r.variable_id("Q"), Some(VariableId::from_index(0)));
    assert_eq!(r.variable_id("X"), Some(VariableId::from_index(2)));
    assert!(r.variable_id("Y").is_none());
    assert_ne!(r.variable_id("Q"), r.variable_id("R"));
    let of_q = format!("{:?}", r.variable_domain("Q"));
    let of_r = format!("{:?}", r.variable_domain("R"));
    assert_eq!(of_q, of_r);
    assert!(of_q.contains("[N] -> {[i]: 0<=i<N}"), "{of_q}");
}

#[test]
fn comma_group_inherits_terminating_element_type() {
    let mut s = system();
    s.inputs[1].element_type = Some(DeclaredType::Qubit);
    let r = Resolver::new(&s);
    assert_eq!(r.variable_type("Q"), Some(ElementType::Qubit));
    assert_eq!(r.variable_type("R"), Some(ElementType::Qubit));
    assert_eq!(r.variable_type("W"), None);
}

#[test]
fn untyped_variables_resolve_as_unspecified() {
    let s = system();
    let r = Resolver::new(&s);
    assert_eq!(r.variable_type("X"), Some(ElementType::Unspecified));
}

#[test]
fn constants_are_replaced_by_their_values() {
    let mut s = system();
    s.scopes = vec![vec![Constant {
        span: span(),
        name: name("K"),
        value: Some("-4".to_string()),
    }]];
    let with_constant = Calc {
        span: span(),
        tokens: vec![
            Token::Other("{[i]: i > ".to_string()),
            Token::Ident("K".to_string()),
            Token::Other("}".to_string()),
        ],
        kind: CalcKind::Domain,
    };
    let r = Resolver::new(&s);
    assert_eq!(r.text_of(&with_constant), "{[i]: i > -4}");
    assert_eq!(r.with_param_prefix("{ : }"), "[N] -> { : }");
    assert!(format!("{:?}", r.param_domain()).contains("[N]->{:N>0}"));
}

#[test]
fn unknown_variables_have_no_domain() {
    let s = system();
    let r = Resolver::new(&s);
    match r.variable_domain("W") {
        SetTerm::Failed { error, .. } => {
            assert!(error.to_text().contains('W'), "{}", error.to_text())
        }
        other => panic!("expected a failure: {other:?}"),
    }
}

#[test]
fn domains_that_go_round_in_a_circle_fail() {
    let of = |n: &str| {
        calc(
            n,
            CalcKind::VariableDomain {
                name: n.to_string(),
            },
        )
    };
    let mut s = system();
    s.inputs = vec![
        decl("A", false, Some(of("B"))),
        decl("B", false, Some(of("A"))),
    ];
    let r = Resolver::new(&s);
    let found = format!("{:?}", r.variable_domain("A"));
    assert!(found.contains("Failed"), "{found}");
    s.inputs = vec![
        decl("A", false, Some(of("B"))),
        decl("B", false, Some(domain("{[i]: 0<=i<N}"))),
    ];
    let r = Resolver::new(&s);
    let found = format!("{:?}", r.variable_domain("A"));
    assert!(!found.contains("Failed"), "{found}");
}

// Calculator values.

#[test]
fn operators_are_defined_for_their_kinds_of_values() {
    let points = || {
        Value::Points(SetTerm::Read {
            text: "{[i]}".to_string(),
            at: span(),
        })
    };
    let relation = || {
        Value::Relation(MapTerm::Read {
            text: "{[i]->[i]}".to_string(),
            at: span(),
        })
    };
    assert!(matches!(
        eval_unary(UnaryKind::Range, "range", span(), relation()),
        Value::Points(SetTerm::Side {
            side: MapSide::Range,
            ..
        })
    ));
    match eval_unary(UnaryKind::Domain, "domain", span(), points()) {
        Value::Failed { before, error } => {
            assert_eq!(before.len(), 1);
            match error {
                Diagnostic::InvalidCalculatorOperand {
                    operator,
                    operand_kind,
                    start,
                    end,
                } => {
                    assert_eq!((operator.as_str(), operand_kind.as_str()), ("domain", "set"));
                    assert_eq!((start, end), (3, 9));
                }
                other => panic!("unexpected {other:?}"),
            }
        }
        other => panic!("expected a failure: {other:?}"),
    }
    assert!(matches!(
        eval_binary(
            alpha::syntax::BinaryKind::Plus,
            "+",
            span(),
            points(),
            points()
        ),
        Value::Points(SetTerm::Combine {
            op: SetOp::Union,
            ..
        })
    ));
    assert!(matches!(
        eval_binary(
            alpha::syntax::BinaryKind::Plus,
            "+",
            span(),
            points(),
            relation()
        ),
        Value::Failed { .. }
    ));
}

#[test]
fn functions_are_written_out_in_full() {
    let leaf = |t: &str| FnExpr {
        span: span(),
        kind: FnExprKind::Literal(t.to_string()),
    };
    let sum = FnExpr {
        span: span(),
        kind: FnExprKind::Binary {
            operator: "+".to_string(),
            lhs: Some(Box::new(leaf("i"))),
            rhs: Some(Box::new(leaf("1"))),
        },
    };
    assert_eq!(render_fn_expr(&sum).unwrap(), "(i + 1)");
    let floor = FnExpr {
        span: span(),
        kind: FnExprKind::Floor(Some(Box::new(leaf("i/2")))),
    };
    assert_eq!(render_fn_expr(&floor).unwrap(), "floor(i/2)");
    let broken = FnExpr {
        span: span(),
        kind: FnExprKind::Floor(None),
    };
    assert!(render_fn_expr(&broken).is_err());

    let s = system();
    let r = Resolver::new(&s);
    let shift = calc(
        "[i+1,max(i,j)]",
        CalcKind::ArrayFunction {
            elements: owned(&["i+1", "max(i", "j)"]),
        },
    );
    match r.eval_function(&shift, &owned(&["i", "j"])) {
        FunctionTerm::Read { text, .. } => {
            assert_eq!(text, "[N] -> { [i,j] -> [i+1,max(i,j)] }")
        }
        other => panic!("unexpected {other:?}"),
    }
}

// Domains of expressions.

#[test]
fn the_domain_of_an_operator_meets_those_of_its_operands() {
    let s = system();
    let r = Resolver::new(&s);
    let sum = expr(
        7,
        ExprKind::Binary {
            operator: "+".to_string(),
            lhs: Some(Box::new(variable(5, "X"))),
            rhs: Some(Box::new(variable(6, "Q"))),
        },
    );
    match r.expression_domain(&sum, &owned(&["i"])) {
        SetTerm::Record { node, set } => {
            assert_eq!(node, 7);
            match *set {
                SetTerm::Combine { op, lhs, rhs, .. } => {
                    assert_eq!(op, SetOp::Intersect);
                    assert!(matches!(*lhs, SetTerm::Record { node: 5, .. }));
                    assert!(matches!(*rhs, SetTerm::Record { node: 6, .. }));
                }
                other => panic!("unexpected {other:?}"),
            }
        }
        other => panic!("unexpected {other:?}"),
    }
    let mut below: Vec<&Expr> = vec![];
    walk_expr(&sum, &mut below);
    let nodes: Vec<usize> = below.iter().map(|e| e.node).collect();
    assert_eq!(nodes, vec![7, 5, 6]);
}

#[test]
fn conditions_are_read_over_the_indices_in_scope() {
    let s = system();
    let r = Resolver::new(&s);
    let t = r.constraints_in_index_context(span(), "{: i < j}", &owned(&["i", "j"]));
    assert_eq!(read_text(&t), "[N] -> { [i,j] : i < j }");
}

// Messages to a caller in another language.

#[test]
fn schedule_failures_have_their_own_exception() {
    let e = CodegenError::IllegalSchedule("too early".to_string());
    assert!(matches!(codegen_err_to_py(&e), Raised::Schedule(m) if m == "too early"));
    let e = CodegenError::InvalidSchedule("no parse".to_string());
    assert!(matches!(codegen_err_to_py(&e), Raised::Schedule(m) if m == "no parse"));
    let e = CodegenError::Isl(IslError {
        message: "no memory".to_string(),
    });
    assert!(matches!(codegen_err_to_py(&e), Raised::Value(m) if m == "isl error: no memory"));
}

#[test]
fn loading_stops_at_the_first_stage_that_reports() {
    let text = |l: Loading| match parse_and_lower(&l) {
        Ok(()) => panic!("expected a failure"),
        Err(Raised::Value(m)) => m,
        Err(Raised::Schedule(m)) => panic!("unexpected {m}"),
    };
    let error = SyntaxError {
        message: "expected ';'".to_string(),
        start: 4,
        end: 5,
    };
    assert_eq!(
        text(Loading::SyntaxErrors(vec![error])),
        "1 syntax error(s):\n4..5: expected ';'"
    );
    assert_eq!(text(Loading::NoSystem), "no systems found in source");
    assert_eq!(
        text(Loading::Broken("oops".to_string())),
        "internal error lowering system: oops"
    );
    assert!(parse_and_lower(&Loading::Diagnostics(vec![])).is_ok());
    assert!(parse_and_lower(&Loading::Skipped(vec![])).is_ok());
}
