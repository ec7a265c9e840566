use alpha::ir::{
    AffineFunction, Domain, Equation, Expr, ExprKind, LoopHeader, LoopTemplate, Operator, Piece,
    ReduceDomain, StandardEquation, System, SystemBody, Template, Variable,
};
use alpha::legality::{questions, violation};
use alpha::multiplicity::Multiplicity;
use alpha::relation::Relation;
use alpha::schedule::{Answer, Fragment, Reading};
use alpha::scheduled_ir::{
    build, AstExpr, AstNode, AstOp, IndexExpr, ScheduledNode, Scheduling, StatementId,
};
use alpha::scheduledc::generate_scheduled_system;
use alpha::stmt::statements;
use alpha::ty::ElementType;

fn index(k: u32) -> Template {
    Template {
        pieces: vec![Piece::Index(k)],
    }
}

fn text(s: &str) -> Template {
    Template {
        pieces: vec![Piece::Text(s.to_string())],
    }
}

fn expr(kind: ExprKind) -> Expr {
    Expr {
        kind: Box::new(kind),
        context: None,
    }
}

/// The index at a place.
fn pick(n_in: u32, at: u32) -> AffineFunction {
    let names = ["i", "j"];
    AffineFunction {
        text: format!(
            "{{ [{}] -> [{}] }}",
            names[..n_in as usize].join(", "),
            names[at as usize]
        ),
        n_in,
        outputs: vec![index(at)],
    }
}

fn read(variable: &str, n_in: u32, at: u32) -> Expr {
    expr(ExprKind::Dependence {
        function: pick(n_in, at),
        operand: expr(ExprKind::Variable(variable.to_string())),
    })
}

/// A constant, spread over all points.
fn constant(value: &str, n_in: u32) -> Expr {
    expr(ExprKind::Dependence {
        function: AffineFunction {
            text: "{ [i] -> [] }".to_string(),
            n_in,
            outputs: vec![],
        },
        operand: expr(ExprKind::Int(value.to_string())),
    })
}

fn binary(op: &str, lhs: Expr, rhs: Expr) -> Expr {
    expr(ExprKind::Binary {
        operator: op.to_string(),
        lhs,
        rhs,
    })
}

fn negated(operand: Expr) -> Expr {
    expr(ExprKind::Unary {
        operator: "-".to_string(),
        operand,
    })
}

fn line_of(name: &str) -> Variable {
    Variable {
        name: name.to_string(),
        domain: Domain {
            text: "[N] -> { [i] : 0 <= i < N }".to_string(),
            ndims: 1,
            mins: vec![Ok("0".to_string())],
            maxs: vec![Ok("N - 1".to_string())],
            nest: Ok(vec![LoopHeader {
                iterator: "i0".to_string(),
                init: "0".to_string(),
                cond: "i0 < N".to_string(),
                inc: "1".to_string(),
            }]),
        },
        element_type: ElementType::Real,
        multiplicity: Multiplicity::Unrestricted,
    }
}

fn assigned(variable: &str, value: Expr) -> Equation {
    Equation::Standard(StandardEquation {
        variable: variable.to_string(),
        index_names: vec!["i".to_string()],
        expr: value,
    })
}

fn body(guard: &str, equations: Vec<Equation>) -> SystemBody {
    SystemBody {
        guard: guard.to_string(),
        params: vec![Some("N".to_string())],
        equations,
    }
}

fn system(
    name: &str,
    inputs: &[&str],
    outputs: &[&str],
    locals: &[&str],
    equations: Vec<Equation>,
) -> System {
    System {
        name: name.to_string(),
        params: vec![Some("N".to_string())],
        inputs: inputs.iter().map(|v| line_of(v)).collect(),
        outputs: outputs.iter().map(|v| line_of(v)).collect(),
        locals: locals.iter().map(|v| line_of(v)).collect(),
        bodies: vec![body("N >= 1", equations)],
        validity: Ok("N >= 1".to_string()),
    }
}

fn prefix_reduce(op: &str, inner: Expr) -> Expr {
    expr(ExprKind::Reduce {
        is_arg_reduce: false,
        operator: Operator::Named(op.to_string()),
        body_context: vec!["i".to_string(), "j".to_string()],
        body: inner,
        projection: pick(2, 0),
        domain: Some(ReduceDomain {
            extent: "[N] -> { [i, j] : 0 <= j < N }".to_string(),
            context: "[N] -> { [i, j] : 0 <= i < N and j <= i }".to_string(),
            total: 2,
            nest: Ok(vec![LoopTemplate {
                dim: 1,
                init: text("0"),
                cond: Template {
                    pieces: vec![
                        Piece::Index(1),
                        Piece::Text(" <= ".to_string()),
                        Piece::Index(0),
                    ],
                },
                inc: text("1"),
            }]),
            maxima: vec![Ok(index(0)), Ok(index(0))],
        }),
    })
}

fn var(name: &str) -> AstExpr {
    AstExpr::Id(name.to_string())
}

fn num(n: i64) -> AstExpr {
    AstExpr::Int(Ok(n))
}

fn op(op: AstOp, args: Vec<AstExpr>) -> AstExpr {
    AstExpr::Op {
        op,
        label: "op".to_string(),
        args,
    }
}

fn user(name: &str, indices: Vec<AstExpr>) -> AstNode {
    AstNode::User {
        name: Some(name.to_string()),
        indices,
    }
}

fn each(iterator: &str, cond: AstExpr, inner: AstNode) -> AstNode {
    AstNode::For {
        iterator: iterator.to_string(),
        init: num(0),
        cond,
        inc: num(1),
        body: Box::new(inner),
    }
}

fn below_n(iterator: &str, inner: AstNode) -> AstNode {
    each(
        iterator,
        op(AstOp::Lt, vec![var(iterator), var("N")]),
        inner,
    )
}

fn up_to(iterator: &str, last: &str, inner: AstNode) -> AstNode {
    each(
        iterator,
        op(AstOp::Le, vec![var(iterator), var(last)]),
        inner,
    )
}

/// `N - 1 - iterator`.
fn mirrored(iterator: &str) -> AstExpr {
    op(
        AstOp::Sub,
        vec![op(AstOp::Sub, vec![var("N"), num(1)]), var(iterator)],
    )
}

fn mapped(names: &[&str], width: u32) -> Reading {
    Reading::Read(
        names
            .iter()
            .map(|n| Fragment {
                name: Some(n.to_string()),
                width,
                covers: Ok(true),
                injective: Ok(true),
            })
            .collect(),
    )
}

type Pairs = Vec<(Vec<i64>, Vec<i64>)>;

/// The points of a square of side four, in one and two dimensions.
fn some_points() -> Vec<Vec<i64>> {
    let mut out: Vec<Vec<i64>> = (0..4).map(|i| vec![i]).collect();
    for i in 0..4 {
        for j in 0..4 {
            out.push(vec![i, j]);
        }
    }
    out
}

/// A function written `{ [i, j] -> [j] }`.
fn function_pairs(text: &str) -> Pairs {
    let (left, right) = text.split_once("->").unwrap();
    let names = |s: &str| -> Vec<String> {
        s.replace(['{', '}', '[', ']'], "")
            .split(',')
            .map(|n| n.trim().to_string())
            .filter(|n| !n.is_empty())
            .collect()
    };
    let (from, to) = (names(left), names(right));
    some_points()
        .into_iter()
        .filter(|p| p.len() == from.len())
        .map(|p| {
            let image = to
                .iter()
                .map(|n| p[from.iter().position(|m| m == n).unwrap()])
                .collect();
            (p, image)
        })
        .collect()
}

/// The pairs of a relation, where `schedules` holds those of each statement.
fn pairs_of(r: &Relation, schedules: &[Pairs]) -> Pairs {
    match r {
        Relation::Function(text) => function_pairs(text),
        Relation::Reverse(a) => pairs_of(a, schedules)
            .into_iter()
            .map(|(x, y)| (y, x))
            .collect(),
        Relation::Compose(a, b) => {
            let (left, right) = (pairs_of(a, schedules), pairs_of(b, schedules));
            let mut out = vec![];
            for (x, y) in &left {
                for (z, w) in &right {
                    if y == z {
                        out.push((x.clone(), w.clone()));
                    }
                }
            }
            out
        }
        Relation::Both(a, b) => {
            let right = pairs_of(b, schedules);
            pairs_of(a, schedules)
                .into_iter()
                .filter(|p| right.contains(p))
                .collect()
        }
        Relation::Schedule(i) => schedules[*i].clone(),
        Relation::NotBefore => {
            let times: Vec<Vec<i64>> = schedules.iter().flatten().map(|p| p.1.clone()).collect();
            let mut out = vec![];
            for x in &times {
                for y in &times {
                    if x >= y {
                        out.push((x.clone(), y.clone()));
                    }
                }
            }
            out
        }
        other => panic!("unexpected {other:?}"),
    }
}

/// A schedule that runs each instance at a given time, with the answers that this leads to where the
/// parameter is four. The steps of a reduction are those with the second index up to the first.
fn timed(
    s: &System,
    reading: Reading,
    time: impl Fn(&str, &[i64]) -> Vec<i64>,
    ast: AstNode,
) -> Scheduling {
    let all = statements(s).unwrap();
    let scheduled: Vec<bool> = all.iter().map(|_| true).collect();
    let schedules: Vec<Pairs> = all
        .iter()
        .map(|x| {
            some_points()
                .into_iter()
                .filter(|p| p.len() == x.ndims as usize && (p.len() == 1 || p[1] <= p[0]))
                .map(|p| {
                    let at = time(&x.name, &p);
                    (p, at)
                })
                .collect()
        })
        .collect();
    let answers: Vec<Answer> = questions(&all, &scheduled)
        .iter()
        .map(|q| Ok(!pairs_of(&violation(&all, q), &schedules).is_empty()))
        .collect();
    Scheduling {
        reading,
        fused: Ok(()),
        scheduled,
        answers,
        ast: Ok(ast),
    }
}

fn driver_body(code: &str) -> &str {
    let start = code
        .find("// Evaluate every statement, in schedule order.")
        .unwrap();
    let end = code.find("// Free all allocated memory.").unwrap();
    assert!(start < end, "{code}");
    &code[start..end]
}

/// What is generated between the declarations and the end of the entry point. Each line is
/// written without its own indentation of one.
fn check_driver(code: &str, lines: &[&str]) {
    let mut expected = "// Evaluate every statement, in schedule order.\n".to_string();
    for l in lines {
        expected.push_str(&format!("\t{l}\n"));
    }
    expected.push_str("\n\t");
    assert_eq!(driver_body(code), expected);
}

fn by_identity(s: &System) -> String {
    let ast = below_n("c0", user("Y", vec![var("c0")]));
    let facts = timed(s, Reading::Read(vec![]), |_, p| p.to_vec(), ast);
    generate_scheduled_system(s, "", &facts).unwrap()
}

fn reversed(s: &System) -> String {
    let ast = each(
        "c0",
        op(AstOp::Lt, vec![var("c0"), var("N")]),
        user("Y", vec![mirrored("c0")]),
    );
    let facts = timed(s, mapped(&["Y"], 1), |_, p| vec![3 - p[0]], ast);
    generate_scheduled_system(s, "[N] -> { Y[i] -> [N-1-i]; }", &facts).unwrap()
}

fn check_one_loop(code: &str, at: &str, assignment: &str) {
    assert!(driver_body(code).contains(assignment), "{code}");
    check_driver(
        code,
        &[
            "long c0;",
            "for (c0 = 0; c0 < N; c0 += 1) {",
            "\t{",
            &format!("\t\tlong i = {at};"),
            &format!("\t\t{assignment}"),
            "\t}",
            "}",
        ],
    );
}

fn int_literal() -> System {
    system(
        "IntLiteral",
        &[],
        &["Y"],
        &[],
        vec![assigned("Y", constant("3", 1))],
    )
}

fn plain_copy() -> System {
    system(
        "Copy",
        &["X"],
        &["Y"],
        &[],
        vec![assigned("Y", read("X", 1, 0))],
    )
}

fn if_then_else() -> System {
    let value = expr(ExprKind::If {
        cond: binary(">", read("X", 1, 0), constant("0", 1)),
        then_branch: read("X", 1, 0),
        else_branch: negated(read("X", 1, 0)),
    });
    system(
        "IfThenElse",
        &["X"],
        &["Y"],
        &[],
        vec![assigned("Y", value)],
    )
}

const CHOSEN: &str = "Y(i) = (((X(i)) > (((float)(0))))) ? (X(i)) : ((-(X(i))));";

#[test]
fn int_literal_identity_schedule() {
    check_one_loop(&by_identity(&int_literal()), "c0", "Y(i) = ((float)(3));");
}

#[test]
fn int_literal_reversed_schedule() {
    check_one_loop(
        &reversed(&int_literal()),
        "N - 1 - c0",
        "Y(i) = ((float)(3));",
    );
}

#[test]
fn dependence_read_identity_schedule() {
    check_one_loop(&by_identity(&plain_copy()), "c0", "Y(i) = X(i);");
}

#[test]
fn dependence_read_reversed_schedule() {
    check_one_loop(&reversed(&plain_copy()), "N - 1 - c0", "Y(i) = X(i);");
}

#[test]
fn if_then_else_identity_schedule() {
    check_one_loop(&by_identity(&if_then_else()), "c0", CHOSEN);
}

#[test]
fn if_then_else_reversed_schedule() {
    check_one_loop(&reversed(&if_then_else()), "N - 1 - c0", CHOSEN);
}

fn prefix_sum(inner: Expr, name: &str) -> System {
    system(
        name,
        &["X"],
        &["Y"],
        &[],
        vec![assigned("Y", prefix_reduce("+", inner))],
    )
}

const ASCENDING: &str = "{ Y__init[i] -> [i, 0, 0]; Y__reduce[i,j] -> [i, 1, j]; }";

fn ascending_ast() -> AstNode {
    below_n(
        "c0",
        AstNode::Block(vec![
            user("Y__init", vec![var("c0")]),
            up_to("c2", "c0", user("Y__reduce", vec![var("c0"), var("c2")])),
        ]),
    )
}

fn ascending(s: &System) -> String {
    let reading = mapped(&["Y__init", "Y__reduce"], 3);
    let time = |name: &str, p: &[i64]| match name {
        "Y__init" => vec![p[0], 0, 0],
        _ => vec![p[0], 1, p[1]],
    };
    let facts = timed(s, reading, time, ascending_ast());
    generate_scheduled_system(s, ASCENDING, &facts).unwrap()
}

fn accumulating(loop_header: &str, at: &str, step: &str) -> Vec<String> {
    [
        "long c0;",
        "long c2;",
        "for (c0 = 0; c0 < N; c0 += 1) {",
        "\t{",
        "\t\tlong i = c0;",
        "\t\tY(i) = 0.0f;",
        "\t}",
        &format!("\t{loop_header}"),
        "\t\t{",
        "\t\t\tlong i = c0;",
        &format!("\t\t\tlong j = {at};"),
        &format!("\t\t\tY(i) = {step};"),
        "\t\t}",
        "\t}",
        "}",
    ]
    .iter()
    .map(|l| l.to_string())
    .collect()
}

fn check_lines(code: &str, lines: Vec<String>) {
    let all: Vec<&str> = lines.iter().map(|l| l.as_str()).collect();
    check_driver(code, &all);
}

#[test]
fn prefix_sum_ascending_inner_reduce_schedule() {
    let s = prefix_sum(read("X", 2, 1), "PrefixSum");
    let lines = accumulating(
        "for (c2 = 0; c2 <= c0; c2 += 1) {",
        "c2",
        "(Y(i)) + (X(j))",
    );
    check_lines(&ascending(&s), lines);
}

#[test]
fn prefix_sum_descending_inner_reduce_schedule() {
    let s = prefix_sum(read("X", 2, 1), "PrefixSum");
    let inner = AstNode::For {
        iterator: "c2".to_string(),
        init: mirrored("c0"),
        cond: op(AstOp::Lt, vec![var("c2"), var("N")]),
        inc: num(1),
        body: Box::new(user("Y__reduce", vec![var("c0"), mirrored("c2")])),
    };
    let ast = below_n(
        "c0",
        AstNode::Block(vec![user("Y__init", vec![var("c0")]), inner]),
    );
    let time = |name: &str, p: &[i64]| match name {
        "Y__init" => vec![p[0], 0, 0],
        _ => vec![p[0], 1, 3 - p[1]],
    };
    let facts = timed(&s, mapped(&["Y__init", "Y__reduce"], 3), time, ast);
    let text = "[N] -> { Y__init[i] -> [i, 0, 0]; Y__reduce[i,j] -> [i, 1, N-1-j]; }";
    let code = generate_scheduled_system(&s, text, &facts).unwrap();
    let lines = accumulating(
        "for (c2 = N - 1 - c0; c2 < N; c2 += 1) {",
        "N - 1 - c2",
        "(Y(i)) + (X(j))",
    );
    check_lines(&code, lines);
}

#[test]
fn reduce_case_body_ascending_schedule() {
    let branch = |guard: Vec<Piece>, operand: Expr| Expr {
        kind: Box::new(ExprKind::Restrict { operand }),
        context: Some(Template { pieces: guard }),
    };
    let between = |mark: &str| {
        vec![
            Piece::Index(1),
            Piece::Text(mark.to_string()),
            Piece::Index(0),
        ]
    };
    let x = || read("X", 2, 1);
    let inner = expr(ExprKind::Case {
        branches: vec![
            branch(between(" == "), binary("+", x(), x())),
            branch(between(" < "), x()),
        ],
    });
    let s = prefix_sum(inner, "ReduceCaseBody");
    let lines = accumulating(
        "for (c2 = 0; c2 <= c0; c2 += 1) {",
        "c2",
        "(Y(i)) + ((j == i) ? (((X(j)) + (X(j)))) : (X(j)))",
    );
    check_lines(&ascending(&s), lines);
}

fn two_independent() -> System {
    system(
        "TwoIndependent",
        &["X"],
        &["Y", "W"],
        &[],
        vec![
            assigned("Y", read("X", 1, 0)),
            assigned("W", negated(read("X", 1, 0))),
        ],
    )
}

fn both_in_one_loop() -> AstNode {
    below_n(
        "c0",
        AstNode::Block(vec![
            user("Y", vec![var("c0")]),
            user("W", vec![var("c0")]),
        ]),
    )
}

fn one_loop_each() -> AstNode {
    AstNode::Block(vec![
        below_n("c1", user("Y", vec![var("c1")])),
        below_n("c1", user("W", vec![var("c1")])),
    ])
}

const FUSED: [&str; 11] = [
    "long c0;",
    "for (c0 = 0; c0 < N; c0 += 1) {",
    "\t{",
    "\t\tlong i = c0;",
    "\t\tY(i) = X(i);",
    "\t}",
    "\t{",
    "\t\tlong i = c0;",
    "\t\tW(i) = (-(X(i)));",
    "\t}",
    "}",
];

fn in_turn(second: &str) -> Vec<String> {
    [
        "long c1;",
        "for (c1 = 0; c1 < N; c1 += 1) {",
        "\t{",
        "\t\tlong i = c1;",
        "\t\tY(i) = X(i);",
        "\t}",
        "}",
        "for (c1 = 0; c1 < N; c1 += 1) {",
        "\t{",
        "\t\tlong i = c1;",
        &format!("\t\tW(i) = {second};"),
        "\t}",
        "}",
    ]
    .iter()
    .map(|l| l.to_string())
    .collect()
}

#[test]
fn two_independent_outputs_default_identity_is_legal() {
    let s = two_independent();
    let facts = timed(
        &s,
        Reading::Read(vec![]),
        |_, p| p.to_vec(),
        both_in_one_loop(),
    );
    check_driver(&generate_scheduled_system(&s, "", &facts).unwrap(), &FUSED);
}

#[test]
fn two_independent_outputs_fused_same_loop_level() {
    let s = two_independent();
    let time = |name: &str, p: &[i64]| vec![p[0], (name == "W") as i64];
    let facts = timed(&s, mapped(&["Y", "W"], 2), time, both_in_one_loop());
    let text = "{ Y[i] -> [i, 0]; W[i] -> [i, 1]; }";
    check_driver(&generate_scheduled_system(&s, text, &facts).unwrap(), &FUSED);
}

#[test]
fn two_independent_outputs_separate_sequential_loops() {
    let s = two_independent();
    let time = |name: &str, p: &[i64]| vec![(name == "W") as i64, p[0]];
    let facts = timed(&s, mapped(&["Y", "W"], 2), time, one_loop_each());
    let text = "{ Y[i] -> [0, i]; W[i] -> [1, i]; }";
    let code = generate_scheduled_system(&s, text, &facts).unwrap();
    check_lines(&code, in_turn("(-(X(i)))"));
}

fn producer_consumer() -> System {
    system(
        "ProducerConsumer",
        &["X"],
        &["Y", "W"],
        &[],
        vec![
            assigned("Y", read("X", 1, 0)),
            assigned("W", binary("+", read("Y", 1, 0), constant("1", 1))),
        ],
    )
}

#[test]
fn producer_consumer_no_reduce_legal_sequential_schedule() {
    let s = producer_consumer();
    let time = |name: &str, p: &[i64]| vec![(name == "W") as i64, p[0]];
    let facts = timed(&s, mapped(&["Y", "W"], 2), time, one_loop_each());
    let text = "{ Y[i] -> [0, i]; W[i] -> [1, i]; }";
    let code = generate_scheduled_system(&s, text, &facts).unwrap();
    check_lines(&code, in_turn("((Y(i)) + (((float)(1))))"));
}

#[test]
fn producer_consumer_no_reduce_reversed_schedule_is_illegal() {
    let s = producer_consumer();
    let time = |name: &str, p: &[i64]| vec![(name == "Y") as i64, p[0]];
    let facts = timed(&s, mapped(&["Y", "W"], 2), time, AstNode::Block(vec![]));
    let text = "{ Y[i] -> [1, i]; W[i] -> [0, i]; }";
    let err = match generate_scheduled_system(&s, text, &facts) {
        Ok(_) => panic!("expected reading before the producer to be illegal"),
        Err(e) => e.to_text(),
    };
    assert!(err.contains('W') && err.contains("§7.2"), "{err}");
}

#[test]
fn prefix_sum_with_consumer_legal_schedule() {
    let s = system(
        "PrefixSumConsumer",
        &["X"],
        &["Z"],
        &["Y"],
        vec![
            assigned("Y", prefix_reduce("+", read("X", 2, 1))),
            assigned("Z", binary("+", read("Y", 1, 0), constant("1", 1))),
        ],
    );
    let ast = below_n(
        "c0",
        AstNode::Block(vec![
            user("Y__init", vec![var("c0")]),
            up_to("c2", "c0", user("Y__reduce", vec![var("c0"), var("c2")])),
            user("Z", vec![var("c0")]),
        ]),
    );
    let reading = mapped(&["Y__init", "Y__reduce", "Z"], 3);
    let time = |name: &str, p: &[i64]| match name {
        "Y__init" => vec![p[0], 0, 0],
        "Z" => vec![p[0], 2, 0],
        _ => vec![p[0], 1, p[1]],
    };
    let facts = timed(&s, reading, time, ast);
    let text = "{ Y__init[i] -> [i, 0, 0]; \
                 Y__reduce[i,j] -> [i, 1, j]; \
                 Z[i] -> [i, 2, 0]; }";
    let code = generate_scheduled_system(&s, text, &facts).unwrap();
    let mut lines = accumulating(
        "for (c2 = 0; c2 <= c0; c2 += 1) {",
        "c2",
        "(Y(i)) + (X(j))",
    );
    let end = lines.pop().unwrap();
    for l in [
        "\t{",
        "\t\tlong i = c0;",
        "\t\tZ(i) = ((Y(i)) + (((float)(1))));",
        "\t}",
    ] {
        lines.push(l.to_string());
    }
    lines.push(end);
    check_lines(&code, lines);
}

fn two_reduces_fan_out() -> System {
    system(
        "TwoReducesFanOut",
        &["X"],
        &["Y", "MaxY"],
        &[],
        vec![
            assigned("Y", prefix_reduce("+", read("X", 2, 1))),
            assigned("MaxY", prefix_reduce("max", read("X", 2, 1))),
        ],
    )
}

#[test]
fn two_reduces_fan_out_fused_schedule() {
    let s = two_reduces_fan_out();
    let at = || vec![var("c0"), var("c2")];
    let ast = below_n(
        "c0",
        AstNode::Block(vec![
            user("Y__init", vec![var("c0")]),
            user("MaxY__init", vec![var("c0")]),
            up_to(
                "c2",
                "c0",
                AstNode::Block(vec![user("Y__reduce", at()), user("MaxY__reduce", at())]),
            ),
        ]),
    );
    let names = ["Y__init", "MaxY__init", "Y__reduce", "MaxY__reduce"];
    let time = |_: &str, p: &[i64]| match p {
        [i] => vec![*i, 0, 0],
        _ => vec![p[0], 1, p[1]],
    };
    let facts = timed(&s, mapped(&names, 3), time, ast);
    let text = "{ Y__init[i] -> [i, 0, 0]; MaxY__init[i] -> [i, 0, 0]; \
                 Y__reduce[i,j] -> [i, 1, j]; MaxY__reduce[i,j] -> [i, 1, j]; }";
    check_driver(
        &generate_scheduled_system(&s, text, &facts).unwrap(),
        &[
            "long c0;",
            "long c2;",
            "for (c0 = 0; c0 < N; c0 += 1) {",
            "\t{",
            "\t\tlong i = c0;",
            "\t\tY(i) = 0.0f;",
            "\t}",
            "\t{",
            "\t\tlong i = c0;",
            "\t\tMaxY(i) = -INFINITY;",
            "\t}",
            "\tfor (c2 = 0; c2 <= c0; c2 += 1) {",
            "\t\t{",
            "\t\t\tlong i = c0;",
            "\t\t\tlong j = c2;",
            "\t\t\tY(i) = (Y(i)) + (X(j));",
            "\t\t}",
            "\t\t{",
            "\t\t\tlong i = c0;",
            "\t\t\tlong j = c2;",
            "\t\t\tMaxY(i) = max(MaxY(i), X(j));",
            "\t\t}",
            "\t}",
            "}",
        ],
    );
}

/// All of one reduction, then all of another.
fn one_after_the_other(first: &str, second: &str) -> AstNode {
    let nest = |name: &str| {
        below_n(
            "c1",
            AstNode::Block(vec![
                user(&format!("{name}__init"), vec![var("c1")]),
                up_to(
                    "c3",
                    "c1",
                    user(&format!("{name}__reduce"), vec![var("c1"), var("c3")]),
                ),
            ]),
        )
    };
    AstNode::Block(vec![nest(first), nest(second)])
}

fn two_nests(starts: [&str; 2], steps: [&str; 2]) -> Vec<String> {
    let mut lines = vec!["long c1;".to_string(), "long c3;".to_string()];
    for k in 0..2 {
        for l in [
            "for (c1 = 0; c1 < N; c1 += 1) {",
            "\t{",
            "\t\tlong i = c1;",
            &format!("\t\t{};", starts[k]),
            "\t}",
            "\tfor (c3 = 0; c3 <= c1; c3 += 1) {",
            "\t\t{",
            "\t\t\tlong i = c1;",
            "\t\t\tlong j = c3;",
            &format!("\t\t\t{};", steps[k]),
            "\t\t}",
            "\t}",
            "}",
        ] {
            lines.push(l.to_string());
        }
    }
    lines
}

#[test]
fn two_reduces_fan_out_separate_schedule() {
    let s = two_reduces_fan_out();
    let names = ["Y__init", "Y__reduce", "MaxY__init", "MaxY__reduce"];
    let ast = one_after_the_other("Y", "MaxY");
    let time = |name: &str, p: &[i64]| {
        let second = !name.starts_with("Y__") as i64;
        match p {
            [i] => vec![second, *i, 0, 0],
            _ => vec![second, p[0], 1, p[1]],
        }
    };
    let facts = timed(&s, mapped(&names, 4), time, ast);
    let text = "{ Y__init[i] -> [0, i, 0, 0]; Y__reduce[i,j] -> [0, i, 1, j]; \
                 MaxY__init[i] -> [1, i, 0, 0]; MaxY__reduce[i,j] -> [1, i, 1, j]; }";
    let code = generate_scheduled_system(&s, text, &facts).unwrap();
    let lines = two_nests(
        ["Y(i) = 0.0f", "MaxY(i) = -INFINITY"],
        ["Y(i) = (Y(i)) + (X(j))", "MaxY(i) = max(MaxY(i), X(j))"],
    );
    check_lines(&code, lines);
}

fn nested_reduce_dependency() -> System {
    system(
        "NestedReduceDependency",
        &["X"],
        &["Y", "Z"],
        &[],
        vec![
            assigned("Y", prefix_reduce("+", read("X", 2, 1))),
            assigned("Z", prefix_reduce("+", read("Y", 2, 1))),
        ],
    )
}

#[test]
fn nested_reduce_dependency_legal_fully_sequential_schedule() {
    let s = nested_reduce_dependency();
    let names = ["Y__init", "Y__reduce", "Z__init", "Z__reduce"];
    let ast = one_after_the_other("Y", "Z");
    let time = |name: &str, p: &[i64]| {
        let second = !name.starts_with("Y__") as i64;
        match p {
            [i] => vec![second, *i, 0, 0],
            _ => vec![second, p[0], 1, p[1]],
        }
    };
    let facts = timed(&s, mapped(&names, 4), time, ast);
    let text = "{ Y__init[i] -> [0, i, 0, 0]; Y__reduce[i,j] -> [0, i, 1, j]; \
                 Z__init[i] -> [1, i, 0, 0]; Z__reduce[i,j] -> [1, i, 1, j]; }";
    let code = generate_scheduled_system(&s, text, &facts).unwrap();
    let lines = two_nests(
        ["Y(i) = 0.0f", "Z(i) = 0.0f"],
        ["Y(i) = (Y(i)) + (X(j))", "Z(i) = (Z(i)) + (Y(j))"],
    );
    check_lines(&code, lines);
}

#[test]
fn nested_reduce_dependency_illegal_interleaved_schedule() {
    let s = nested_reduce_dependency();
    let names = ["Y__init", "Z__init", "Z__reduce", "Y__reduce"];
    let time = |name: &str, p: &[i64]| match name {
        "Y__init" => vec![p[0], 0, 0],
        "Z__init" => vec![p[0], 0, 1],
        "Z__reduce" => vec![p[0], 1, p[1]],
        _ => vec![p[0], 2, p[1]],
    };
    let facts = timed(&s, mapped(&names, 3), time, AstNode::Block(vec![]));
    let text = "{ Y__init[i] -> [i, 0, 0]; Z__init[i] -> [i, 0, 1]; \
                 Z__reduce[i,j] -> [i, 1, j]; Y__reduce[i,j] -> [i, 2, j]; }";
    let err = match generate_scheduled_system(&s, text, &facts) {
        Ok(_) => panic!("expected this interleaving to be illegal"),
        Err(e) => e.to_text(),
    };
    assert!(err.contains("§7.2"), "{err}");
}

#[test]
fn piecewise_equation_identity_schedule() {
    let mut s = plain_copy();
    s.name = "PiecewiseEquation".to_string();
    s.bodies[0].guard = "N >= 11".to_string();
    s.bodies.push(body(
        "N <= 10",
        vec![assigned(
            "Y",
            binary("+", read("X", 1, 0), read("X", 1, 0)),
        )],
    ));
    check_one_loop(
        &by_identity(&s),
        "c0",
        "Y(i) = (N >= 11) ? (X(i)) : (((X(i)) + (X(i))));",
    );
}

#[test]
fn prefix_sum_full_generated_file() {
    let code = ascending(&prefix_sum(read("X", 2, 1), "PrefixSum"));
    let lines = [
        "// This code was auto-generated by alphac (alpha-rs).",
        "// ScheduledC backend — a user-supplied target mapping controls loop order.",
        "",
        "#include <float.h>",
        "#include <limits.h>",
        "#include <math.h>",
        "#include <stdbool.h>",
        "#include <stdio.h>",
        "#include <stdlib.h>",
        "#include <string.h>",
        "",
        "// Function Macros",
        "#define ceild(n,d) ((int)ceil(((double)(n))/((double)(d))))",
        "#define floord(n,d) ((int)floor(((double)(n))/((double)(d))))",
        "#define div(a,b) (ceild((a),(b)))",
        "#define max(a,b) (((a)>(b))?(a):(b))",
        "#define min(a,b) (((a)<(b))?(a):(b))",
        "#define mallocCheck(v,s) if ((v) == NULL) { printf(\"Failed to allocate memory for \
         variable: %s\\n\", (s)); exit(-1); }",
        "",
        "// Global Variables",
        "static long N;",
        "static float* X;",
        "static float* Y;",
        "",
        "// Memory Macros",
        "#define X(i0) X[i0]",
        "#define Y(i0) Y[i0]",
        "",
        "// Function Declarations",
        "void PrefixSum(long _local_N, float* _local_X, float* _local_Y);",
        "",
        "void PrefixSum(long _local_N, float* _local_X, float* _local_Y) {",
        "\tN = _local_N;",
        "\tX = _local_X;",
        "\tY = _local_Y;",
        "",
        "\t// Allocate memory for local storage.",
        "",
        "\t// Evaluate every statement, in schedule order.",
        "\tlong c0;",
        "\tlong c2;",
        "\tfor (c0 = 0; c0 < N; c0 += 1) {",
        "\t\t{",
        "\t\t\tlong i = c0;",
        "\t\t\tY(i) = 0.0f;",
        "\t\t}",
        "\t\tfor (c2 = 0; c2 <= c0; c2 += 1) {",
        "\t\t\t{",
        "\t\t\t\tlong i = c0;",
        "\t\t\t\tlong j = c2;",
        "\t\t\t\tY(i) = (Y(i)) + (X(j));",
        "\t\t\t}",
        "\t\t}",
        "\t}",
        "",
        "\t// Free all allocated memory.",
        "}",
        "",
        "",
        "// Undefine the Memory and Function Macros",
        "#undef X",
        "#undef Y",
        "#undef ceild",
        "#undef floord",
        "#undef div",
        "#undef max",
        "#undef min",
        "#undef mallocCheck",
        "",
    ];
    assert_eq!(code, lines.join("\n"));
}

#[test]
fn skewed_two_dimensional_schedule_is_structured() {
    let grid = Variable {
        name: "Y".to_string(),
        domain: Domain {
            text: "[N] -> { [i, j] : 0 <= i < N and 0 <= j < N }".to_string(),
            ndims: 2,
            mins: vec![Ok("0".to_string()), Ok("0".to_string())],
            maxs: vec![Ok("N - 1".to_string()), Ok("N - 1".to_string())],
            nest: Ok(vec![]),
        },
        element_type: ElementType::Real,
        multiplicity: Multiplicity::Unrestricted,
    };
    let mut s = system("Grid", &[], &[], &[], vec![]);
    s.outputs = vec![grid];
    s.bodies[0].equations = vec![Equation::Standard(StandardEquation {
        variable: "Y".to_string(),
        index_names: vec!["i".to_string(), "j".to_string()],
        expr: constant("0", 2),
    })];
    let inner = AstNode::For {
        iterator: "c1".to_string(),
        init: var("c0"),
        cond: op(
            AstOp::Lt,
            vec![var("c1"), op(AstOp::Add, vec![var("N"), var("c0")])],
        ),
        inc: num(1),
        body: Box::new(user(
            "Y",
            vec![var("c0"), op(AstOp::Sub, vec![var("c1"), var("c0")])],
        )),
    };
    let time = |_: &str, p: &[i64]| vec![p[0], p[0] + p[1]];
    let facts = timed(&s, mapped(&["Y"], 2), time, below_n("c0", inner));
    let program = build(&s, "[N] -> { Y[i,j] -> [i,i+j]; }", &facts).unwrap();
    let ScheduledNode::Loop { body: outer, .. } = &program.root else {
        panic!("{:?}", program.root)
    };
    let ScheduledNode::Loop { body: inner, .. } = &**outer else {
        panic!("{outer:?}")
    };
    let ScheduledNode::Invoke { statement, indices } = &**inner else {
        panic!("{inner:?}")
    };
    assert_eq!(*statement, StatementId(0));
    assert!(matches!(
        indices.as_slice(),
        [IndexExpr::Variable(_), IndexExpr::Sub(_, _)]
    ));
}
