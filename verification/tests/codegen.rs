use alpha::describe::{
    describe_normalized_system, describe_system, statements_to_schedule, variables_to_schedule,
};
use alpha::error::{CodegenError, IslError};
use alpha::expr::{
    ambient_universe, gen_value, is_valid_c_ident, isl_bound_err, pick_names, pick_names_prefixed,
    Backend, Gen, Role, VarInfo,
};
use alpha::ir::{
    Access, AffineFunction, Domain, Equation, Expr, ExprKind, LoopHeader, LoopTemplate,
    OperationCall, Operator, Piece, ReduceDomain, StandardEquation, System, SystemBody, Template,
    Variable,
};
use alpha::layout::{
    flat_access_macro, flat_index_expr, flat_size_decls, flat_size_init_stmts,
    flat_total_size_expr, interface_access_macro, interface_ctype, FlatBounds,
};
use alpha::legality::{dependence_edges, questions, violation, Producer};
use alpha::multiplicity::Multiplicity;
use alpha::operation::RegisteredOperation;
use alpha::relation::{Region, Relation};
use alpha::schedule::{build_schedule_for_names, Answer, Fragment, Reading, StatementSchedule};
use alpha::scheduled_ir::{
    build, convert_index, convert_predicate, AstExpr, AstNode, AstOp, CompareOp, IndexExpr,
    Predicate, ScheduledNode, Scheduling, StatementId,
};
use alpha::scheduledc::{
    check_reductions_fit, gen_statement_body, generate_scheduled_system, render_index,
    render_predicate, validate_scheduled_system,
};
use alpha::simplec::{CType, Function, Stmt};
use alpha::specialize::{apply, find_point, ParameterBindings};
use alpha::stmt::{statements, StatementKind};
use alpha::ty::ElementType;
use alpha::wrapper::{gen_array_alloc, generate_wrapper};
use alpha::writec::{accumulate, generate_system, neutral_element};

fn text(s: &str) -> Template {
    Template {
        pieces: vec![Piece::Text(s.to_string())],
    }
}

fn index(k: u32) -> Template {
    Template {
        pieces: vec![Piece::Index(k)],
    }
}

fn expr(kind: ExprKind) -> Expr {
    Expr {
        kind: Box::new(kind),
        context: None,
    }
}

/// The index at a place.
fn pick(n_in: u32, at: u32) -> AffineFunction {
    let names = ["i", "j"];
    AffineFunction {
        text: format!(
            "{{ [{}] -> [{}] }}",
            names[..n_in as usize].join(", "),
            names[at as usize]
        ),
        n_in,
        outputs: vec![index(at)],
    }
}

fn read(variable: &str, n_in: u32, at: u32) -> Expr {
    expr(ExprKind::Dependence {
        function: pick(n_in, at),
        operand: expr(ExprKind::Variable(variable.to_string())),
    })
}

fn binary(op: &str, lhs: Expr, rhs: Expr) -> Expr {
    expr(ExprKind::Binary {
        operator: op.to_string(),
        lhs,
        rhs,
    })
}

fn line_of(name: &str) -> Variable {
    Variable {
        name: name.to_string(),
        domain: Domain {
            text: "[N] -> { [i] : 0 <= i < N }".to_string(),
            ndims: 1,
            mins: vec![Ok("0".to_string())],
            maxs: vec![Ok("N - 1".to_string())],
            nest: Ok(vec![LoopHeader {
                iterator: "i0".to_string(),
                init: "0".to_string(),
                cond: "i0 < N".to_string(),
                inc: "1".to_string(),
            }]),
        },
        element_type: ElementType::Real,
        multiplicity: Multiplicity::Unrestricted,
    }
}

fn assigned(variable: &str, value: Expr) -> Equation {
    Equation::Standard(StandardEquation {
        variable: variable.to_string(),
        index_names: vec!["i".to_string()],
        expr: value,
    })
}

fn body(guard: &str, equations: Vec<Equation>) -> SystemBody {
    SystemBody {
        guard: guard.to_string(),
        params: vec![Some("N".to_string())],
        equations,
    }
}

fn system(name: &str, outputs: Vec<&str>, locals: Vec<&str>, bodies: Vec<SystemBody>) -> System {
    System {
        name: name.to_string(),
        params: vec![Some("N".to_string())],
        inputs: vec![line_of("X")],
        outputs: outputs.into_iter().map(line_of).collect(),
        locals: locals.into_iter().map(line_of).collect(),
        bodies,
        validity: Ok("N >= 1".to_string()),
    }
}

fn prefix_reduce(op: Operator, inner: Expr) -> Expr {
    expr(ExprKind::Reduce {
        is_arg_reduce: false,
        operator: op,
        body_context: vec!["i".to_string(), "j".to_string()],
        body: inner,
        projection: pick(2, 0),
        domain: Some(ReduceDomain {
            extent: "[N] -> { [i, j] : 0 <= j < N }".to_string(),
            context: "[N] -> { [i, j] : 0 <= i < N and j <= i }".to_string(),
            total: 2,
            nest: Ok(vec![LoopTemplate {
                dim: 1,
                init: text("0"),
                cond: Template {
                    pieces: vec![
                        Piece::Index(1),
                        Piece::Text(" <= ".to_string()),
                        Piece::Index(0),
                    ],
                },
                inc: text("1"),
            }]),
            maxima: vec![Ok(index(0)), Ok(index(0))],
        }),
    })
}

fn plus() -> Operator {
    Operator::Named("+".to_string())
}

fn prefix_sum() -> System {
    system(
        "PrefixSum",
        vec!["Y"],
        vec![],
        vec![body(
            "N >= 1",
            vec![assigned("Y", prefix_reduce(plus(), read("X", 2, 1)))],
        )],
    )
}

fn prefix_sum_with_consumer() -> System {
    system(
        "PrefixSumConsumer",
        vec!["Z"],
        vec!["Y"],
        vec![body(
            "N >= 1",
            vec![
                assigned("Y", prefix_reduce(plus(), read("X", 2, 1))),
                assigned(
                    "Z",
                    binary(
                        "+",
                        read("Y", 1, 0),
                        expr(ExprKind::Int("1".to_string())),
                    ),
                ),
            ],
        )],
    )
}

fn plain_copy() -> System {
    system(
        "Copy",
        vec!["Y"],
        vec![],
        vec![body("N >= 1", vec![assigned("Y", read("X", 1, 0))])],
    )
}

fn piecewise() -> System {
    system(
        "PiecewiseEquation",
        vec!["Y"],
        vec![],
        vec![
            body("N >= 11", vec![assigned("Y", read("X", 1, 0))]),
            body(
                "N <= 10",
                vec![assigned(
                    "Y",
                    binary("+", read("X", 1, 0), read("X", 1, 0)),
                )],
            ),
        ],
    )
}

fn access(variable: &str) -> Access {
    Access {
        variable: variable.to_string(),
        function: pick(1, 0),
    }
}

fn operation(op: RegisteredOperation, outputs: Vec<&str>, inputs: Vec<&str>) -> Equation {
    Equation::OperationCall(OperationCall {
        operation: op,
        domain: "[N] -> { [i] : 0 <= i < N }".to_string(),
        ndims: 1,
        inputs: inputs.into_iter().map(access).collect(),
        outputs: outputs.into_iter().map(access).collect(),
    })
}

fn names(s: &System) -> Vec<String> {
    statements(s).unwrap().into_iter().map(|x| x.name).collect()
}

fn var(name: &str) -> AstExpr {
    AstExpr::Id(name.to_string())
}

fn num(n: i64) -> AstExpr {
    AstExpr::Int(Ok(n))
}

fn op(op: AstOp, args: Vec<AstExpr>) -> AstExpr {
    AstExpr::Op {
        op,
        label: "op".to_string(),
        args,
    }
}

fn user(name: &str, indices: Vec<AstExpr>) -> AstNode {
    AstNode::User {
        name: Some(name.to_string()),
        indices,
    }
}

fn for_up_to(iterator: &str, cond: AstExpr, inner: AstNode) -> AstNode {
    AstNode::For {
        iterator: iterator.to_string(),
        init: num(0),
        cond,
        inc: num(1),
        body: Box::new(inner),
    }
}

fn below_n(iterator: &str, inner: AstNode) -> AstNode {
    for_up_to(
        iterator,
        op(AstOp::Lt, vec![var(iterator), var("N")]),
        inner,
    )
}

fn fragment(name: &str, width: u32) -> Fragment {
    Fragment {
        name: Some(name.to_string()),
        width,
        covers: Ok(true),
        injective: Ok(true),
    }
}

fn blank() -> Reading {
    Reading::Read(vec![])
}

/// A schedule whose answers are all no but the one at `violated`.
fn scheduling(s: &System, reading: Reading, violated: Option<usize>, ast: AstNode) -> Scheduling {
    let all = statements(s).unwrap();
    let scheduled: Vec<bool> = all.iter().map(|_| true).collect();
    let asked = questions(&all, &scheduled);
    let answers: Vec<Answer> = (0..asked.len()).map(|k| Ok(violated == Some(k))).collect();
    Scheduling {
        reading,
        fused: Ok(()),
        scheduled,
        answers,
        ast: Ok(ast),
    }
}

type Pairs = Vec<(Vec<i64>, Vec<i64>)>;

/// The points of a square of side four, in one and two dimensions.
fn some_points() -> Vec<Vec<i64>> {
    let mut out: Vec<Vec<i64>> = (0..4).map(|i| vec![i]).collect();
    for i in 0..4 {
        for j in 0..4 {
            out.push(vec![i, j]);
        }
    }
    out
}

/// A function written `{ [i, j] -> [j] }`.
fn function_pairs(text: &str) -> Pairs {
    let (left, right) = text.split_once("->").unwrap();
    let names = |s: &str| -> Vec<String> {
        s.replace(['{', '}', '[', ']'], "")
            .split(',')
            .map(|n| n.trim().to_string())
            .filter(|n| !n.is_empty())
            .collect()
    };
    let (from, to) = (names(left), names(right));
    some_points()
        .into_iter()
        .filter(|p| p.len() == from.len())
        .map(|p| {
            let image = to
                .iter()
                .map(|n| p[from.iter().position(|m| m == n).unwrap()])
                .collect();
            (p, image)
        })
        .collect()
}

/// The pairs of a relation, where `schedules` holds those of each statement.
fn pairs_of(r: &Relation, schedules: &[Pairs]) -> Pairs {
    match r {
        Relation::Function(text) => function_pairs(text),
        Relation::Reverse(a) => pairs_of(a, schedules)
            .into_iter()
            .map(|(x, y)| (y, x))
            .collect(),
        Relation::Compose(a, b) => {
            let (left, right) = (pairs_of(a, schedules), pairs_of(b, schedules));
            let mut out = vec![];
            for (x, y) in &left {
                for (z, w) in &right {
                    if y == z {
                        out.push((x.clone(), w.clone()));
                    }
                }
            }
            out
        }
        Relation::Both(a, b) => {
            let right = pairs_of(b, schedules);
            pairs_of(a, schedules)
                .into_iter()
                .filter(|p| right.contains(p))
                .collect()
        }
        Relation::Schedule(i) => schedules[*i].clone(),
        Relation::NotBefore => {
            let times: Vec<Vec<i64>> = schedules.iter().flatten().map(|p| p.1.clone()).collect();
            let mut out = vec![];
            for x in &times {
                for y in &times {
                    if x >= y {
                        out.push((x.clone(), y.clone()));
                    }
                }
            }
            out
        }
        other => panic!("unexpected {other:?}"),
    }
}

/// A schedule that runs each instance at a given time, with the answers that this leads to where the
/// parameter is four. The steps of a reduction are those with the second index up to the first.
fn timed(
    s: &System,
    reading: Reading,
    time: impl Fn(&str, &[i64]) -> Vec<i64>,
    ast: AstNode,
) -> Scheduling {
    let all = statements(s).unwrap();
    let scheduled: Vec<bool> = all.iter().map(|_| true).collect();
    let schedules: Vec<Pairs> = all
        .iter()
        .map(|x| {
            some_points()
                .into_iter()
                .filter(|p| p.len() == x.ndims as usize && (p.len() == 1 || p[1] <= p[0]))
                .map(|p| {
                    let at = time(&x.name, &p);
                    (p, at)
                })
                .collect()
        })
        .collect();
    let answers: Vec<Answer> = questions(&all, &scheduled)
        .iter()
        .map(|q| Ok(!pairs_of(&violation(&all, q), &schedules).is_empty()))
        .collect();
    Scheduling {
        reading,
        fused: Ok(()),
        scheduled,
        answers,
        ast: Ok(ast),
    }
}

fn prefix_sum_ast() -> AstNode {
    below_n(
        "c0",
        AstNode::Block(vec![
            user("Y__init", vec![var("c0")]),
            for_up_to(
                "c2",
                op(AstOp::Le, vec![var("c2"), var("c0")]),
                user("Y__reduce", vec![var("c0"), var("c2")]),
            ),
        ]),
    )
}

const PREFIX_SUM_SCHEDULE: &str = "{ Y__init[i] -> [i, 0, 0]; Y__reduce[i,j] -> [i, 1, j]; }";

/// The times of [`PREFIX_SUM_SCHEDULE`].
fn ascending(name: &str, p: &[i64]) -> Vec<i64> {
    match name {
        "Y__init" => vec![p[0], 0, 0],
        _ => vec![p[0], 1, p[1]],
    }
}

fn prefix_sum_reading() -> Reading {
    Reading::Read(vec![fragment("Y__init", 3), fragment("Y__reduce", 3)])
}

fn invocations(node: &ScheduledNode) -> Vec<(StatementId, &[IndexExpr])> {
    match node {
        ScheduledNode::Loop { body, .. } => invocations(body),
        ScheduledNode::If {
            then_body,
            else_body,
            ..
        } => {
            let mut out = invocations(then_body);
            if let Some(b) = else_body {
                out.extend(invocations(b));
            }
            out
        }
        ScheduledNode::Sequence(nodes) => nodes.iter().flat_map(invocations).collect(),
        ScheduledNode::Invoke { statement, indices } => vec![(*statement, indices.as_slice())],
    }
}

// Statements.

#[test]
fn reduce_equation_splits_into_init_and_reduce_pair() {
    let s = prefix_sum();
    let all = statements(&s).unwrap();
    let found: Vec<&str> = all.iter().map(|x| x.name.as_str()).collect();
    assert_eq!(found, vec!["Y__init", "Y__reduce"]);
    match &all[0].kind {
        StatementKind::ReduceInit { reduce_local, .. } => assert_eq!(reduce_local.as_str(), "Y"),
        _ => panic!("expected an initialisation"),
    }
    match &all[1].kind {
        StatementKind::ReduceStep { reduce_local, .. } => assert_eq!(reduce_local.as_str(), "Y"),
        _ => panic!("expected a step"),
    }
    assert_eq!(all[0].ndims, 1);
    assert_eq!(all[1].ndims, 2);
}

#[test]
fn ordinary_equation_stays_one_statement() {
    let s = plain_copy();
    let all = statements(&s).unwrap();
    assert_eq!(names(&s), vec!["Y"]);
    assert!(matches!(all[0].kind, StatementKind::Ordinary { .. }));
}

#[test]
fn piecewise_equation_stays_one_statement_with_both_equations() {
    let s = piecewise();
    let all = statements(&s).unwrap();
    assert_eq!(names(&s), vec!["Y"]);
    let StatementKind::Ordinary { equations } = &all[0].kind else {
        panic!("expected an ordinary statement");
    };
    assert_eq!(equations.len(), 2);
}

#[test]
fn operation_statements_have_deterministic_names() {
    let s = system(
        "calls",
        vec!["Q1", "R1"],
        vec![],
        vec![body(
            "N >= 1",
            vec![operation(
                RegisteredOperation::Cx,
                vec!["Q1", "R1"],
                vec!["Q0", "R0"],
            )],
        )],
    );
    assert_eq!(names(&s), vec!["Q1__call0"]);
}

#[test]
fn zero_output_calls_use_the_operation_name() {
    let s = system(
        "sink",
        vec![],
        vec![],
        vec![body(
            "N >= 1",
            vec![operation(RegisteredOperation::Discard, vec![], vec!["Q"])],
        )],
    );
    assert_eq!(names(&s), vec!["discard__call0"]);
}

#[test]
fn same_output_base_gets_source_order_suffixes() {
    let call = || {
        operation(
            RegisteredOperation::Cx,
            vec!["Q1", "R1"],
            vec!["Q0", "R0"],
        )
    };
    let s = system(
        "split",
        vec!["Q1", "R1"],
        vec![],
        vec![body("N >= 1", vec![call(), call()])],
    );
    assert_eq!(names(&s), vec!["Q1__call0", "Q1__call1"]);
}

#[test]
fn two_independent_reduces_enumerate_as_four_statements() {
    let s = system(
        "TwoReducesFanOut",
        vec!["Y", "MaxY"],
        vec![],
        vec![body(
            "N >= 1",
            vec![
                assigned("Y", prefix_reduce(plus(), read("X", 2, 1))),
                assigned(
                    "MaxY",
                    prefix_reduce(Operator::Named("max".to_string()), read("X", 2, 1)),
                ),
            ],
        )],
    );
    assert_eq!(
        names(&s),
        vec!["Y__init", "Y__reduce", "MaxY__init", "MaxY__reduce"]
    );
}

#[test]
fn piecewise_equation_enumerates_as_one_statement() {
    let s = piecewise();
    let all = statements(&s).unwrap();
    let to_schedule = statements_to_schedule(&all);
    assert_eq!(to_schedule.len(), 1);
    assert_eq!(to_schedule[0].name, "Y");
    assert_eq!(to_schedule[0].ndims, 1);
}

// Schedules.

fn schedule_of(
    s: &System,
    text: &str,
    reading: &Reading,
) -> Result<(u32, Vec<StatementSchedule>), CodegenError> {
    let all = statements(s).unwrap();
    let to_schedule = statements_to_schedule(&all);
    build_schedule_for_names(&vec!["N".to_string()], &to_schedule, text, reading)
}

fn message(r: Result<(u32, Vec<StatementSchedule>), CodegenError>) -> String {
    match r {
        Ok(_) => panic!("expected an error"),
        Err(e) => e.to_text(),
    }
}

#[test]
fn empty_text_defaults_every_statement_to_identity_padded_to_shared_width() {
    let (width, all) = schedule_of(&prefix_sum(), "", &blank()).unwrap();
    assert_eq!(width, 2);
    assert_eq!(all.len(), 2);
    assert_eq!((all[0].name.as_str(), all[0].width), ("Y__init", 1));
    assert_eq!(
        all[0].padding.as_deref(),
        Some("[N] -> { Y__init[x0] -> [0] }")
    );
    assert_eq!((all[1].name.as_str(), all[1].width), ("Y__reduce", 2));
    assert!(all[1].padding.is_none());
}

#[test]
fn explicit_uniformly_padded_schedule_builds_the_correct_nesting() {
    let s = prefix_sum();
    let (width, all) = schedule_of(&s, PREFIX_SUM_SCHEDULE, &prefix_sum_reading()).unwrap();
    assert_eq!(width, 3);
    assert!(all.iter().all(|x| x.width == 3 && x.padding.is_none()));
    assert_eq!(all[0].fragment, Some(0));
    assert_eq!(all[1].fragment, Some(1));

    let facts = scheduling(&s, prefix_sum_reading(), None, prefix_sum_ast());
    let code = generate_scheduled_system(&s, PREFIX_SUM_SCHEDULE, &facts).unwrap();
    let init = code.find("Y(i) = 0.0f;").unwrap();
    let step = code.find("Y(i) = (Y(i)) + (X(j));").unwrap();
    assert!(init < step, "{code}");
}

/// What a schedule does on the domain of its statement: what is written at a place, or the identity,
/// with a number of zeros after it.
fn on_its_domain(s: &System, place: usize, r: &Relation) -> (Option<usize>, u32) {
    let all = statements(s).unwrap();
    let domain = format!("{:?}", statements_to_schedule(&all)[place].domain);
    let (kept, zeros) = match r {
        Relation::Padded(inner, n) => (inner.as_ref(), *n),
        other => (other, 0),
    };
    match kept {
        Relation::Within(own, region) => {
            assert_eq!(format!("{:?}", region.as_ref()), domain);
            match own.as_ref() {
                Relation::Written(i) => (Some(*i), zeros),
                Relation::Identity => (None, zeros),
                other => panic!("unexpected {other:?}"),
            }
        }
        other => panic!("unexpected {other:?}"),
    }
}

#[test]
fn every_schedule_is_kept_to_the_domain_of_its_statement() {
    let s = prefix_sum();
    let (_, all) = schedule_of(&s, "", &blank()).unwrap();
    assert_eq!(on_its_domain(&s, 0, &all[0].relation), (None, 1));
    assert_eq!(on_its_domain(&s, 1, &all[1].relation), (None, 0));

    let (_, all) = schedule_of(&s, PREFIX_SUM_SCHEDULE, &prefix_sum_reading()).unwrap();
    assert_eq!(on_its_domain(&s, 0, &all[0].relation), (Some(0), 0));
    assert_eq!(on_its_domain(&s, 1, &all[1].relation), (Some(1), 0));

    let reading = Reading::Read(vec![fragment("Y__reduce", 3)]);
    let (width, all) = schedule_of(&s, "{ Y__reduce[i,j] -> [i, 0, j]; }", &reading).unwrap();
    assert_eq!(width, 3);
    assert_eq!(on_its_domain(&s, 0, &all[0].relation), (None, 2));
    assert_eq!(on_its_domain(&s, 1, &all[1].relation), (Some(0), 0));
}

#[test]
fn unknown_statement_name_is_rejected() {
    let reading = Reading::Read(vec![fragment("Bogus", 1)]);
    let msg = message(schedule_of(&prefix_sum(), "{ Bogus[i] -> [i]; }", &reading));
    assert!(msg.contains("Bogus"), "{msg}");
    assert!(
        msg.ends_with("known statements: Y__init, Y__reduce"),
        "{msg}"
    );
}

#[test]
fn partially_specified_mentioned_statement_is_rejected() {
    let mut f = fragment("Y__init", 3);
    f.covers = Ok(false);
    let text = "{ Y__init[i] -> [i, 0, 0] : 1 <= i; }";
    let msg = message(schedule_of(&prefix_sum(), text, &Reading::Read(vec![f])));
    assert!(msg.contains("Y__init") && msg.contains("cover"), "{msg}");
}

#[test]
fn non_injective_mentioned_statement_is_rejected() {
    let mut f = fragment("Y__init", 3);
    f.injective = Ok(false);
    let text = "{ Y__init[i] -> [0, 0, 0]; }";
    let msg = message(schedule_of(&prefix_sum(), text, &Reading::Read(vec![f])));
    assert!(
        msg.contains("Y__init") && msg.contains("injective"),
        "{msg}"
    );
}

#[test]
fn mismatched_explicit_widths_are_rejected() {
    let reading = Reading::Read(vec![fragment("Y__init", 2), fragment("Y__reduce", 3)]);
    let text = "{ Y__init[i] -> [i, 2]; Y__reduce[i,j] -> [i, 0, j]; }";
    let msg = message(schedule_of(&prefix_sum(), text, &reading));
    assert!(msg.contains("width"), "{msg}");
    assert!(
        msg.contains("'Y__reduce' has width 3, but 'Y__init' has width 2"),
        "{msg}"
    );
}

#[test]
fn inconsistent_and_unreadable_mappings_are_rejected() {
    let reading = Reading::Read(vec![fragment("Y__init", 2), fragment("Y__init", 3)]);
    let msg = message(schedule_of(&prefix_sum(), "{ Y__init[i] -> [i]; }", &reading));
    assert!(msg.contains("two inconsistent entries"), "{msg}");

    let reading = Reading::Unparsed("syntax error".to_string());
    let msg = message(schedule_of(&prefix_sum(), "{ Y__init", &reading));
    assert!(
        msg.contains("target mapping failed to parse: syntax error"),
        "{msg}"
    );

    let broken = || IslError {
        message: "out of memory".to_string(),
    };
    let reading = Reading::Interrupted(broken());
    assert!(matches!(
        schedule_of(&prefix_sum(), "{ Y__init[i] -> [i]; }", &reading),
        Err(CodegenError::Isl(_))
    ));
    let mut f = fragment("Y__init", 1);
    f.covers = Err(broken());
    assert!(matches!(
        schedule_of(&prefix_sum(), "{ Y__init[i] -> [i]; }", &Reading::Read(vec![f])),
        Err(CodegenError::Isl(_))
    ));
}

// Legality.

#[test]
fn identity_default_schedule_is_illegal_for_a_real_reduce_dependency() {
    let s = prefix_sum();
    let padded = |_: &str, p: &[i64]| match p {
        [i] => vec![*i, 0],
        _ => p.to_vec(),
    };
    let facts = timed(&s, blank(), padded, AstNode::Block(vec![]));
    let err = build(&s, "", &facts).err().unwrap();
    assert!(matches!(err, CodegenError::IllegalSchedule(_)));
    assert!(
        err.to_text().contains('Y') && err.to_text().contains("§7.2"),
        "{}",
        err.to_text()
    );
}

#[test]
fn properly_ordered_explicit_schedule_is_legal() {
    let s = prefix_sum();
    let facts = timed(&s, prefix_sum_reading(), ascending, prefix_sum_ast());
    assert!(validate_scheduled_system(&s, PREFIX_SUM_SCHEDULE, &facts).is_ok());
}

#[test]
fn consumer_scheduled_before_its_producer_is_illegal() {
    let s = prefix_sum_with_consumer();
    let text = "{ Z[i] -> [i, 0, 0]; Y__init[i] -> [i, 1, 0]; Y__reduce[i,j] -> [i, 2, j]; }";
    let reading = Reading::Read(vec![
        fragment("Z", 3),
        fragment("Y__init", 3),
        fragment("Y__reduce", 3),
    ]);
    let time = |name: &str, p: &[i64]| match name {
        "Z" => vec![p[0], 0, 0],
        "Y__init" => vec![p[0], 1, 0],
        _ => vec![p[0], 2, p[1]],
    };
    let facts = timed(&s, reading, time, AstNode::Block(vec![]));
    let err = build(&s, text, &facts).err().unwrap();
    assert!(matches!(err, CodegenError::IllegalSchedule(_)));
    assert!(
        err.to_text().contains("'Z' reads 'Y__reduce'") && err.to_text().contains("§7.2"),
        "{}",
        err.to_text()
    );
}

#[test]
fn reduce_scheduled_before_its_own_init_is_illegal() {
    let s = prefix_sum();
    let text = "{ Y__reduce[i,j] -> [i, 0, j]; Y__init[i] -> [i, 1, 0]; }";
    let time = |name: &str, p: &[i64]| match name {
        "Y__init" => vec![p[0], 1, 0],
        _ => vec![p[0], 0, p[1]],
    };
    let facts = timed(&s, prefix_sum_reading(), time, AstNode::Block(vec![]));
    let err = build(&s, text, &facts).err().unwrap().to_text();
    assert!(err.contains("Y__reduce") && err.contains("Y__init"), "{err}");
}

#[test]
fn a_violation_is_a_term_over_both_schedules() {
    let s = prefix_sum_with_consumer();
    let all = statements(&s).unwrap();
    let asked = questions(&all, &vec![true, true, true]);
    let q = asked
        .iter()
        .find(|q| all[q.consumer].name == "Z")
        .unwrap();
    assert_eq!(all[q.producer].name, "Y__reduce");
    let Relation::Both(own, late) = violation(&all, q) else {
        panic!("both schedules are compared")
    };
    assert!(matches!(&*own, Relation::Schedule(i) if *i == q.consumer));
    let Relation::Compose(times, order) = *late else {
        panic!("the times are compared in order")
    };
    assert!(matches!(&*order, Relation::NotBefore));
    let Relation::Compose(reached, other) = *times else {
        panic!("what is read has a time")
    };
    assert!(matches!(&*other, Relation::Schedule(i) if *i == q.producer));
    let Relation::Compose(read, back) = *reached else {
        panic!("every step of the reduction is read")
    };
    assert!(matches!(&*read, Relation::Function(t) if t == "{ [i] -> [i] }"));
    let Relation::Reverse(projection) = *back else {
        panic!("the projection is followed backwards")
    };
    assert!(matches!(&*projection, Relation::Function(t) if t == "{ [i, j] -> [i] }"));
}

#[test]
fn ordinary_copy_with_no_reduce_is_always_legal_even_at_identity() {
    let s = plain_copy();
    let all = statements(&s).unwrap();
    assert!(questions(&all, &vec![true]).is_empty());
    let facts = scheduling(
        &s,
        blank(),
        None,
        below_n("c0", user("Y", vec![var("c0")])),
    );
    assert!(validate_scheduled_system(&s, "", &facts).is_ok());
}

#[test]
fn a_schedule_without_an_instance_has_nothing_to_check() {
    let s = plain_copy();
    let facts = Scheduling {
        reading: blank(),
        fused: Ok(()),
        scheduled: vec![false],
        answers: vec![],
        ast: Ok(AstNode::Block(vec![])),
    };
    assert!(matches!(
        build(&s, "", &facts),
        Err(CodegenError::InvalidSchedule(_))
    ));
}

#[test]
fn a_reduction_step_depends_on_its_start_and_on_what_it_reads() {
    let s = prefix_sum();
    let all = statements(&s).unwrap();
    let edges = dependence_edges(&all[1]);
    assert_eq!(edges.len(), 2);
    assert!(edges.iter().any(|e| e.function.text == "{ [i, j] -> [i] }"
        && matches!(&e.producer, Producer::Named(n) if n == "Y__init")));
    assert!(edges.iter().any(|e| e.function.text == "{ [i, j] -> [j] }"
        && matches!(&e.producer, Producer::Variable(v) if v.as_str() == "X")));
    assert!(dependence_edges(&all[0]).is_empty());
}

#[test]
fn failures_of_polyhedral_work_are_passed_on_in_order() {
    let s = prefix_sum();
    let broken = |m: &str| IslError {
        message: m.to_string(),
    };
    let mut facts = scheduling(&s, blank(), None, prefix_sum_ast());
    facts.ast = Err(broken("no tree"));
    assert!(matches!(
        build(&s, "", &facts),
        Err(CodegenError::Isl(e)) if e.message == "no tree"
    ));
    facts.answers[0] = Err(broken("no answer"));
    assert!(matches!(
        build(&s, "", &facts),
        Err(CodegenError::Isl(e)) if e.message == "no answer"
    ));
    facts.fused = Err(broken("no union"));
    assert!(matches!(
        build(&s, "", &facts),
        Err(CodegenError::Isl(e)) if e.message == "no union"
    ));
}

// Descriptions.

#[test]
fn pre_normalization_skeleton_has_no_reduce_split() {
    let s = prefix_sum();
    let to_schedule = variables_to_schedule(&s);
    assert_eq!(to_schedule.len(), 1);
    assert_eq!(to_schedule[0].name, "Y");
    let rendered = Ok("[N] -> { Y[i0] -> [i0] }".to_string());
    let text = describe_system(&s, &rendered).unwrap();
    assert!(text.contains("Y["), "{text}");
    assert!(
        !text.contains("__init") && !text.contains("__reduce"),
        "{text}"
    );
}

#[test]
fn post_normalization_skeleton_has_the_reduce_split() {
    let s = prefix_sum();
    let (_, all) = schedule_of(&s, "", &blank()).unwrap();
    let found: Vec<&str> = all.iter().map(|x| x.name.as_str()).collect();
    assert_eq!(found, vec!["Y__init", "Y__reduce"]);
    let rendered =
        Ok("[N] -> { Y__init[i0] -> [i0, 0]; Y__reduce[i0, i1] -> [i0, i1] }".to_string());
    let text = describe_normalized_system(&s, "", &blank(), &rendered).unwrap();
    assert!(
        text.contains("Y__init") && text.contains("Y__reduce"),
        "{text}"
    );
}

#[test]
fn post_normalization_skeleton_reflects_an_explicit_schedule() {
    let s = prefix_sum();
    let rendered =
        Ok("[N] -> { Y__init[i0] -> [i0, 0, 0]; Y__reduce[i0, i1] -> [i0, 1, i1] }".to_string());
    let text =
        describe_normalized_system(&s, PREFIX_SUM_SCHEDULE, &prefix_sum_reading(), &rendered)
            .unwrap();
    assert!(text.contains('0') && text.contains('1'), "{text}");
}

#[test]
fn a_wrong_mapping_is_not_described() {
    let s = prefix_sum();
    let rendered = Ok("{ }".to_string());
    let reading = Reading::Read(vec![fragment("Bogus", 1)]);
    assert!(matches!(
        describe_normalized_system(&s, "{ Bogus[i] -> [i]; }", &reading, &rendered),
        Err(CodegenError::InvalidSchedule(_))
    ));
    let none = system("Empty", vec![], vec![], vec![]);
    assert_eq!(describe_system(&none, &rendered).unwrap(), "{\n}");
    assert_eq!(
        describe_normalized_system(&none, "", &blank(), &rendered).unwrap(),
        "{\n}"
    );
}

// Scheduled programs.

#[test]
fn identity_and_reverse_are_typed_index_expressions() {
    let s = plain_copy();
    let facts = scheduling(
        &s,
        blank(),
        None,
        below_n("c0", user("Y", vec![var("c0")])),
    );
    let identity = build(&s, "", &facts).unwrap();
    let mirrored = op(
        AstOp::Sub,
        vec![op(AstOp::Sub, vec![var("N"), num(1)]), var("c0")],
    );
    let facts = scheduling(
        &s,
        Reading::Read(vec![fragment("Y", 1)]),
        None,
        below_n("c0", user("Y", vec![mirrored])),
    );
    let reverse = build(&s, "[N] -> { Y[i] -> [N-1-i]; }", &facts).unwrap();

    assert!(matches!(identity.root, ScheduledNode::Loop { .. }));
    assert_eq!(invocations(&identity.root)[0].0, StatementId(0));
    assert!(matches!(
        invocations(&identity.root)[0].1,
        [IndexExpr::Variable(_)]
    ));
    assert!(matches!(
        invocations(&reverse.root)[0].1,
        [IndexExpr::Sub(_, _)]
    ));
}

#[test]
fn reductions_resolve_to_stable_statement_ids() {
    let s = prefix_sum();
    let facts = scheduling(&s, prefix_sum_reading(), None, prefix_sum_ast());
    let program = build(&s, PREFIX_SUM_SCHEDULE, &facts).unwrap();
    let ids: Vec<StatementId> = invocations(&program.root)
        .into_iter()
        .map(|(id, _)| id)
        .collect();
    assert_eq!(ids, vec![StatementId(0), StatementId(1)]);
    assert_eq!(program.width, 3);
    assert_eq!(program.schedule.len(), 2);
}

#[test]
fn registered_operation_invocation_uses_statement_id() {
    let s = system(
        "Gate",
        vec!["Q1"],
        vec![],
        vec![body(
            "N >= 1",
            vec![operation(RegisteredOperation::H, vec!["Q1"], vec!["Q0"])],
        )],
    );
    let facts = scheduling(
        &s,
        blank(),
        None,
        below_n("c0", user("Q1__call0", vec![var("c0")])),
    );
    let program = build(&s, "", &facts).unwrap();
    assert_eq!(invocations(&program.root)[0].0, StatementId(0));
    assert!(matches!(
        program.statements[0].kind,
        StatementKind::OperationCall(_)
    ));
    assert!(matches!(
        invocations(&program.root)[0].1,
        [IndexExpr::Variable(_)]
    ));
    let err = generate_scheduled_system(&s, "", &facts).err().unwrap();
    assert_eq!(
        err.to_text(),
        "unsupported: registered operation 'h' has no Scheduled C backend"
    );
}

#[test]
fn affine_statement_guard_becomes_typed_if() {
    let s = system(
        "Guard",
        vec!["Y"],
        vec!["W"],
        vec![body(
            "N >= 1",
            vec![
                assigned("Y", expr(ExprKind::Int("0".to_string()))),
                assigned("W", expr(ExprKind::Int("1".to_string()))),
            ],
        )],
    );
    let guard = op(
        AstOp::Ge,
        vec![
            var("N"),
            op(AstOp::Add, vec![op(AstOp::Mul, vec![num(2), var("c0")]), num(1)]),
        ],
    );
    let tree = below_n(
        "c0",
        AstNode::Block(vec![
            user("Y", vec![var("c0")]),
            AstNode::If {
                cond: guard,
                then_body: Box::new(user("W", vec![var("c0")])),
                else_body: None,
            },
        ]),
    );
    let facts = scheduling(&s, blank(), None, tree);
    let program = build(&s, "", &facts).unwrap();
    let ScheduledNode::Loop { body, .. } = &program.root else {
        panic!("expected a loop");
    };
    let ScheduledNode::Sequence(nodes) = body.as_ref() else {
        panic!("expected a sequence");
    };
    assert!(matches!(nodes[1], ScheduledNode::If { .. }));
}

#[test]
fn trees_that_no_program_stands_for_are_refused() {
    assert!(convert_index(&op(AstOp::Other, vec![num(1), num(2)])).is_err());
    assert!(convert_index(&op(AstOp::Add, vec![num(1)])).is_err());
    assert!(convert_index(&AstExpr::Int(Err(IslError {
        message: "too large".to_string()
    })))
    .is_err());
    assert!(convert_predicate(&op(AstOp::Add, vec![num(1), num(2)])).is_err());
    let s = plain_copy();
    for tree in [
        AstNode::Other,
        user("Bogus", vec![var("c0")]),
        AstNode::User {
            name: None,
            indices: vec![],
        },
    ] {
        let facts = scheduling(&s, blank(), None, tree);
        assert!(matches!(
            build(&s, "", &facts),
            Err(CodegenError::Unsupported(_))
        ));
    }
    let none = system("Empty", vec![], vec![], vec![]);
    let facts = Scheduling {
        reading: blank(),
        fused: Ok(()),
        scheduled: vec![],
        answers: vec![],
        ast: Ok(AstNode::Other),
    };
    assert!(matches!(
        build(&none, "", &facts),
        Err(CodegenError::Unsupported(_))
    ));
}

// Scheduled C.

#[test]
fn typed_index_rendering_preserves_arithmetic_grouping() {
    let a = || IndexExpr::Variable("a".to_string());
    let b = || IndexExpr::Variable("b".to_string());
    let c = || IndexExpr::Variable("c".to_string());
    let grouped_product = IndexExpr::Mul(
        Box::new(IndexExpr::Sub(Box::new(a()), Box::new(b()))),
        Box::new(c()),
    );
    let right_nested_subtraction = IndexExpr::Sub(
        Box::new(a()),
        Box::new(IndexExpr::Sub(Box::new(b()), Box::new(c()))),
    );
    assert_eq!(render_index(&grouped_product), "(a - b) * c");
    assert_eq!(render_index(&right_nested_subtraction), "a - (b - c)");
    assert_eq!(
        render_index(&IndexExpr::Div(Box::new(a()), Box::new(b()))),
        "a / b"
    );
    assert_eq!(
        render_index(&IndexExpr::FloorDiv(Box::new(a()), Box::new(b()))),
        "floord(a, b)"
    );
    assert_eq!(
        render_index(&IndexExpr::CeilDiv(Box::new(a()), Box::new(b()))),
        "ceild(a, b)"
    );
}

#[test]
fn quotients_and_remainders_keep_their_operands_together() {
    let v = |n: &str| Box::new(IndexExpr::Variable(n.to_string()));
    let sum = IndexExpr::Mod(Box::new(IndexExpr::Add(v("a"), v("b"))), v("c"));
    assert_eq!(render_index(&sum), "(a + b) % c");
    let by_product = IndexExpr::Mod(v("a"), Box::new(IndexExpr::Mul(v("b"), v("c"))));
    assert_eq!(render_index(&by_product), "a % (b * c)");
    let share = IndexExpr::Mul(v("a"), Box::new(IndexExpr::Div(v("b"), v("c"))));
    assert_eq!(render_index(&share), "a * (b / c)");
    let chain = IndexExpr::Mul(
        v("a"),
        Box::new(IndexExpr::Mul(Box::new(IndexExpr::Div(v("b"), v("c"))), v("d"))),
    );
    assert_eq!(render_index(&chain), "a * (b / c * d)");
    let plain = IndexExpr::Mul(v("a"), Box::new(IndexExpr::Mul(v("b"), v("c"))));
    assert_eq!(render_index(&plain), "a * b * c");
    let rest = IndexExpr::Sub(v("a"), Box::new(IndexExpr::Mod(v("b"), v("c"))));
    assert_eq!(render_index(&rest), "a - b % c");
    let single = IndexExpr::Mul(
        Box::new(IndexExpr::Min(vec![IndexExpr::Add(v("a"), v("b"))])),
        v("c"),
    );
    assert_eq!(render_index(&single), "(a + b) * c");
}

#[test]
fn predicates_are_rendered_as_c_conditions() {
    let less = || Predicate::Compare {
        op: CompareOp::Lt,
        lhs: IndexExpr::Variable("c0".to_string()),
        rhs: IndexExpr::Constant(4),
    };
    assert_eq!(render_predicate(&less()), "c0 < 4");
    assert_eq!(
        render_predicate(&Predicate::And(vec![less(), less()])),
        "(c0 < 4) && (c0 < 4)"
    );
    assert_eq!(
        render_predicate(&Predicate::Not(Box::new(less()))),
        "!(c0 < 4)"
    );
}

fn render_stmts(stmts: Vec<Stmt>) -> String {
    Function {
        return_type: CType::Void,
        name: "test".to_string(),
        params: vec![],
        body: stmts,
        is_static: false,
    }
    .to_text()
}

fn generator(s: &System) -> Gen {
    let mut variables: Vec<(String, VarInfo)> = vec![];
    for (role, list) in [
        (Role::Input, &s.inputs),
        (Role::Output, &s.outputs),
        (Role::Local, &s.locals),
    ] {
        for v in list {
            variables.push((
                v.name.clone(),
                VarInfo {
                    role,
                    ndims: v.domain.ndims,
                },
            ));
        }
    }
    Gen {
        backend: Backend::ScheduledC,
        variables,
        param_names: vec!["N".to_string()],
        reduce_fns: vec![],
        externals: vec![],
    }
}

fn render_reduce_pair(op: Operator, inner: Expr) -> (String, Vec<String>) {
    let s = system(
        "Reduce",
        vec!["Y"],
        vec![],
        vec![body("N >= 1", vec![assigned("Y", prefix_reduce(op, inner))])],
    );
    let all = statements(&s).unwrap();
    let mut g = generator(&s);
    let mut out = String::new();
    for x in &all {
        let idx: Vec<String> = (0..x.ndims).map(|i| format!("i{i}")).collect();
        let rendered = gen_statement_body(&mut g, x, &idx).unwrap();
        out.push_str(&format!("// {}\n", x.name));
        out.push_str(&render_stmts(rendered));
    }
    (out, g.externals)
}

fn pair(start: &str, step: &str) -> String {
    format!(
        "// Y__init\nvoid test(void) {{\n\tlong i = i0;\n\tY(i) = {start};\n}}\n\
         // Y__reduce\nvoid test(void) {{\n\tlong i = i0;\n\tlong j = i1;\n\tY(i) = {step};\n}}\n"
    )
}

#[test]
fn reduce_plus_baseline() {
    let (rendered, _) = render_reduce_pair(plus(), read("X", 2, 1));
    assert_eq!(rendered, pair("0.0f", "(Y(i)) + (X(j))"));
}

#[test]
fn reduce_mul() {
    let (rendered, _) = render_reduce_pair(Operator::Named("*".to_string()), read("X", 2, 1));
    assert_eq!(rendered, pair("1.0f", "(Y(i)) * (X(j))"));
}

#[test]
fn reduce_min() {
    let (rendered, _) = render_reduce_pair(Operator::Named("min".to_string()), read("X", 2, 1));
    assert_eq!(rendered, pair("INFINITY", "min(Y(i), X(j))"));
}

#[test]
fn reduce_max() {
    let (rendered, _) = render_reduce_pair(Operator::Named("max".to_string()), read("X", 2, 1));
    assert_eq!(rendered, pair("-INFINITY", "max(Y(i), X(j))"));
}

#[test]
fn reduce_external_combiner() {
    let (rendered, externals) =
        render_reduce_pair(Operator::External("delta".to_string()), read("X", 2, 1));
    assert_eq!(rendered, pair("0.0f", "delta(Y(i), X(j))"));
    assert_eq!(externals, vec!["delta"]);
}

#[test]
fn reduce_binary_body() {
    let inner = binary("+", read("X", 2, 1), read("X", 2, 1));
    let (rendered, _) = render_reduce_pair(plus(), inner);
    assert_eq!(rendered, pair("0.0f", "(Y(i)) + (((X(j)) + (X(j))))"));
}

#[test]
fn reduce_binary_body_shares_gen_value_with_ordinary_binary_op() {
    let inner = binary("+", read("X", 2, 1), read("X", 2, 1));
    let s = system(
        "ReduceBinaryBody",
        vec!["Y"],
        vec![],
        vec![body(
            "N >= 1",
            vec![assigned("Y", prefix_reduce(plus(), inner))],
        )],
    );
    let all = statements(&s).unwrap();
    let StatementKind::ReduceStep {
        body, body_context, ..
    } = &all[1].kind
    else {
        panic!("expected a step");
    };
    let index_names = pick_names(body_context, 2);
    let mut g = generator(&s);
    let rendered = gen_value(&mut g, &index_names, body).unwrap().to_text();
    assert_eq!(rendered, "((X(j)) + (X(j)))");
}

#[test]
fn piecewise_equation_renders_as_a_guard_selected_ternary_chain() {
    let s = piecewise();
    let all = statements(&s).unwrap();
    let mut g = generator(&s);
    let rendered = gen_statement_body(&mut g, &all[0], &vec!["i0".to_string()]).unwrap();
    assert_eq!(
        render_stmts(rendered),
        "void test(void) {\n\tlong i = i0;\n\tY(i) = (N >= 11) ? (X(i)) : (((X(i)) + (X(i))));\n}\n"
    );
}

#[test]
fn empty_schedule_text_is_rejected_as_illegal_for_prefix_sum() {
    let s = prefix_sum();
    let facts = scheduling(&s, blank(), Some(0), prefix_sum_ast());
    assert!(matches!(
        generate_scheduled_system(&s, "", &facts),
        Err(CodegenError::IllegalSchedule(_))
    ));
}

#[test]
fn plain_copy_generates_with_empty_schedule() {
    let s = plain_copy();
    let facts = scheduling(
        &s,
        blank(),
        None,
        below_n("c0", user("Y", vec![var("c0")])),
    );
    assert!(check_reductions_fit(&s));
    let code = generate_scheduled_system(&s, "", &facts).unwrap();
    assert!(code.contains("Copy"), "{code}");
    assert!(code.contains("for (c0 = 0; c0 < N; c0 += 1) {"), "{code}");
    assert!(code.contains("Y(i) = X(i);"), "{code}");
}

#[test]
fn prefix_sum_generates_with_explicit_schedule() {
    let s = prefix_sum();
    let facts = scheduling(&s, prefix_sum_reading(), None, prefix_sum_ast());
    let code = generate_scheduled_system(&s, PREFIX_SUM_SCHEDULE, &facts).unwrap();
    assert!(code.contains('Y'));
    assert!(code.contains("PrefixSum"));
}

#[test]
fn systems_that_call_others_have_no_backend() {
    let s = system(
        "Caller",
        vec!["Y"],
        vec![],
        vec![body("N >= 1", vec![Equation::Use])],
    );
    let facts = Scheduling {
        reading: blank(),
        fused: Ok(()),
        scheduled: vec![],
        answers: vec![],
        ast: Ok(AstNode::Block(vec![])),
    };
    assert!(matches!(
        generate_scheduled_system(&s, "", &facts),
        Err(CodegenError::Unsupported(_))
    ));
    assert!(matches!(
        generate_system(&s),
        Err(CodegenError::Unsupported(_))
    ));
}

// Demand-driven C.

#[test]
fn demand_driven_code_memoises_each_value() {
    let code = generate_system(&prefix_sum()).unwrap();
    assert!(code.contains("eval_Y"), "{code}");
    assert!(code.contains("reduce"), "{code}");
    assert!(
        code.contains("for (i0 = 0; i0 < N; i0 += 1) {"),
        "{code}"
    );
}

#[test]
fn values_of_each_kind_have_their_c_form() {
    let s = plain_copy();
    let at = vec!["i".to_string()];
    let form = |e: Expr| {
        let mut g = generator(&s);
        gen_value(&mut g, &at, &e).map(|v| v.to_text())
    };
    let x = || read("X", 1, 0);
    let num = |n: &str| expr(ExprKind::Int(n.to_string()));
    assert_eq!(form(num("3")).unwrap(), "((float)(3))");
    assert_eq!(
        form(expr(ExprKind::Real("3.0".to_string()))).unwrap(),
        "((float)(3.0))"
    );
    assert_eq!(form(expr(ExprKind::Bool(true))).unwrap(), "1.0f");
    assert_eq!(form(x()).unwrap(), "X(i)");
    assert_eq!(
        form(expr(ExprKind::Unary {
            operator: "-".to_string(),
            operand: x()
        }))
        .unwrap(),
        "(-(X(i)))"
    );
    assert_eq!(
        form(expr(ExprKind::If {
            cond: binary(">", x(), num("0")),
            then_branch: x(),
            else_branch: num("1"),
        }))
        .unwrap(),
        "(((X(i)) > (((float)(0))))) ? (X(i)) : (((float)(1)))"
    );
    assert_eq!(
        form(expr(ExprKind::MultiArg {
            operator: Operator::Named("sum".to_string()),
            args: vec![x(), num("1"), num("2")],
        }))
        .unwrap(),
        "((((X(i)) + (((float)(1))))) + (((float)(2))))"
    );
    assert_eq!(
        form(binary("min", x(), x())).unwrap(),
        "min(X(i), X(i))"
    );
    assert_eq!(
        form(expr(ExprKind::IndexFunction {
            function: AffineFunction {
                text: "[N] -> { [i] -> [N - i] }".to_string(),
                n_in: 1,
                outputs: vec![Template {
                    pieces: vec![Piece::Text("N - ".to_string()), Piece::Index(0)],
                }],
            }
        }))
        .unwrap(),
        "((float)(N - i))"
    );
    let err = form(expr(ExprKind::Select { operand: x() })).err().unwrap();
    assert!(matches!(err, CodegenError::Unsupported(_)));
    let err = form(read("W", 1, 0)).err().unwrap();
    assert!(
        err.to_text()
            .contains("reference to undeclared variable 'W'"),
        "{}",
        err.to_text()
    );
}

#[test]
fn both_generators_write_the_same_text_over_inputs() {
    let s = prefix_sum_with_consumer();
    let at = vec!["i".to_string()];
    let form = |backend: Backend, variable: &str| {
        let mut g = generator(&s);
        g.backend = backend;
        let e = binary("*", read(variable, 1, 0), read("X", 1, 0));
        gen_value(&mut g, &at, &e).unwrap().to_text()
    };
    assert_eq!(form(Backend::WriteC, "X"), form(Backend::ScheduledC, "X"));
    assert_eq!(form(Backend::ScheduledC, "Y"), "((Y(i)) * (X(i)))");
    assert_eq!(form(Backend::WriteC, "Y"), "((eval_Y(i)) * (X(i)))");
}

#[test]
fn programs_free_what_they_allocate_and_declare_their_iterators() {
    let s = prefix_sum_with_consumer();
    let code = generate_system(&s).unwrap();
    for name in ["Y", "_flag_Y", "_flag_Z"] {
        let got = code.find(&format!("{name} = (")).unwrap();
        let given = code.find(&format!("free({name});")).unwrap();
        assert!(got < given, "{code}");
    }
    let tree = below_n("c0", user("Z", vec![var("c0")]));
    let facts = scheduling(&s, blank(), None, tree);
    let code = generate_scheduled_system(&s, "", &facts).unwrap();
    assert!(code.contains("free(Y);"), "{code}");
    assert!(code.contains("long c0;"), "{code}");
}

#[test]
fn every_neutral_element_has_a_combination() {
    for (name, start) in [
        ("+", "0.0f"),
        ("sum", "0.0f"),
        ("*", "1.0f"),
        ("prod", "1.0f"),
        ("min", "INFINITY"),
        ("max", "-INFINITY"),
        ("and", "1.0f"),
        ("or", "0.0f"),
    ] {
        let operator = Operator::Named(name.to_string());
        assert_eq!(neutral_element(&operator).unwrap().to_text(), start);
        assert!(accumulate(&operator, "a", "b").is_some());
    }
    let unknown = Operator::Named("xor".to_string());
    assert!(neutral_element(&unknown).is_err());
    assert!(accumulate(&unknown, "a", "b").is_none());
}

#[test]
fn index_names_are_filled_up_and_prefixed() {
    let hint = vec!["i".to_string(), "2x".to_string()];
    assert_eq!(pick_names(&hint, 2), vec!["i0", "i1"]);
    assert_eq!(pick_names(&hint, 3), vec!["i0", "i1", "i2"]);
    let good = vec!["i".to_string(), "k".to_string()];
    assert_eq!(pick_names(&good, 2), good);
    assert_eq!(pick_names_prefixed(&vec![], 2, "r"), vec!["r0", "r1"]);
    assert!(is_valid_c_ident("_a1"));
    assert!(!is_valid_c_ident("1a"));
    assert!(!is_valid_c_ident(""));
    assert_eq!(
        ambient_universe(&vec!["N".to_string()], &hint),
        "[N] -> {[i,2x]: }"
    );
    let e = IslError {
        message: "unbounded optimum".to_string(),
    };
    assert!(matches!(
        isl_bound_err("bounds of Y", &e),
        CodegenError::Unsupported(_)
    ));
    let e = IslError {
        message: "other".to_string(),
    };
    assert!(matches!(isl_bound_err("bounds of Y", &e), CodegenError::Isl(_)));
}

// Storage.

#[test]
fn flat_storage_is_row_major() {
    assert_eq!(
        flat_size_decls("A", 1),
        vec!["static long A_min0;", "static long A_size0;"]
    );
    let bounds = FlatBounds {
        mins: vec!["0".to_string()],
        maxs: vec!["N - 1".to_string()],
    };
    assert_eq!(
        flat_size_init_stmts("A", &bounds),
        vec![
            "A_min0 = 0;",
            "A_size0 = max(0, (N - 1) - (A_min0) + 1);"
        ]
    );
    assert_eq!(flat_total_size_expr("A", 2), "A_size0 * A_size1");
    assert_eq!(flat_total_size_expr("A", 0), "1");
    assert_eq!(
        flat_index_expr("A", &vec!["i".to_string(), "j".to_string()]),
        "((i) - (A_min0)) * (A_size1) + ((j) - (A_min1)) * (1)"
    );
    assert_eq!(
        flat_access_macro("A", 1),
        "#define A(i0) A[((i0) - (A_min0)) * (1)]"
    );
    assert_eq!(
        interface_access_macro("A", 2),
        "#define A(i0,i1) A[i0][i1]"
    );
    assert_eq!(interface_access_macro("A", 0), "#define A() A[0]");
    assert_eq!(interface_ctype(CType::Float, 2).to_text(), "float**");
    assert_eq!(interface_ctype(CType::Float, 0).to_text(), "float*");
}

fn cube(name: &str, ndims: u32) -> Variable {
    Variable {
        name: name.to_string(),
        domain: Domain {
            text: String::new(),
            ndims,
            mins: (0..ndims).map(|_| Ok("0".to_string())).collect(),
            maxs: (0..ndims).map(|_| Ok("N - 1".to_string())).collect(),
            nest: Ok(vec![]),
        },
        element_type: ElementType::Real,
        multiplicity: Multiplicity::Unrestricted,
    }
}

#[test]
fn generates_for_synthetic_3d_and_4d_systems_not_in_the_fixture_corpus() {
    for ndims in [3u32, 4] {
        let mut s = plain_copy();
        s.inputs = vec![cube("X", ndims)];
        s.outputs = vec![cube("Y", ndims)];
        let code = generate_wrapper(&s).unwrap();
        let stars = "*".repeat(ndims as usize);
        assert!(code.contains(&format!("float{stars} X")), "{code}");
        assert!(code.contains(&format!("float{stars} Y")), "{code}");
        assert!(code.contains("free(X);") && code.contains("free(_X_l0);"));
    }
}

#[test]
fn every_level_of_an_array_is_allocated_and_freed() {
    let (alloc, frees, top) = gen_array_alloc(&cube("A", 2), true).unwrap();
    assert_eq!(top, "A");
    let text = render_stmts(alloc);
    assert!(
        text.contains("float* _A_l0 = (float*)malloc(sizeof(float) * (((N - 1) + 1) * ((N - 1) + 1)));"),
        "{text}"
    );
    assert!(
        text.contains("float** A = (float**)malloc(sizeof(float*) * (((N - 1) + 1)));"),
        "{text}"
    );
    assert_eq!(
        render_stmts(frees),
        "void test(void) {\n\tfree(_A_l0);\n\tfree(A);\n}\n"
    );
    let mut open = cube("A", 1);
    open.domain.maxs = vec![Err(IslError {
        message: "unbounded".to_string(),
    })];
    assert!(matches!(
        gen_array_alloc(&open, true),
        Err(CodegenError::Isl(_))
    ));
}

// Specialization.

#[test]
fn validates_and_restricts_parameter_bindings() {
    let s = plain_copy();
    let facts = scheduling(
        &s,
        blank(),
        None,
        below_n("c0", user("Y", vec![var("c0")])),
    );
    let scheduled = build(&s, "", &facts).unwrap();
    let inside = Ok(true);

    let missing = apply(&scheduled, &ParameterBindings::new(), &inside)
        .err()
        .unwrap();
    assert!(missing.to_text().contains("missing parameter 'N'"));

    let mut outside = ParameterBindings::new();
    outside.insert("N", 0);
    let outside = apply(&scheduled, &outside, &Ok(false)).err().unwrap();
    assert!(outside.to_text().contains("outside the parameter domain"));

    let mut unknown = ParameterBindings::new();
    unknown.insert("N", 4);
    unknown.insert("M", 2);
    let unknown = apply(&scheduled, &unknown, &inside).err().unwrap();
    assert!(unknown.to_text().contains("unknown parameter 'M'"));

    let mut bindings = ParameterBindings::new();
    bindings.insert("N", 4);
    let specialized = apply(&scheduled, &bindings, &inside).unwrap();
    assert_eq!(specialized.bindings.get("N"), Some(4));
    assert_eq!(specialized.parameter_point, "[N] -> { : N = 4 }");
    assert_eq!(
        find_point(&s.params, &bindings).unwrap(),
        specialized.parameter_point
    );
    assert_eq!(specialized.statement_domains.len(), 1);
    let Region::At(domain, point) = &specialized.statement_domains[0] else {
        panic!("{:?}", specialized.statement_domains)
    };
    assert_eq!(point, "[N] -> { : N = 4 }");
    assert!(matches!(&**domain, Region::Read(t) if t == "[N] -> { [i] : 0 <= i < N }"));
    assert!(matches!(
        &specialized.schedule[0],
        Relation::At(own, p) if matches!(&**own, Relation::Schedule(0)) && p == point
    ));
}

#[test]
fn a_binding_replaces_the_one_before() {
    let mut bindings = ParameterBindings::new();
    bindings.insert("N", 4);
    bindings.insert("A", -1);
    bindings.insert("N", 5);
    assert_eq!(bindings.get("N"), Some(5));
    assert_eq!(bindings.get("A"), Some(-1));
    assert_eq!(bindings.get("M"), None);
    let order: Vec<&str> = bindings.entries.iter().map(|e| e.0.as_str()).collect();
    assert_eq!(order, vec!["A", "N"]);
}

#[test]
fn parameters_without_a_name_cannot_be_bound() {
    let bindings = ParameterBindings::new();
    assert!(matches!(
        find_point(&vec![None], &bindings),
        Err(CodegenError::Specialization(_))
    ));
    let broken = Err(IslError {
        message: "no answer".to_string(),
    });
    let mut bindings = ParameterBindings::new();
    bindings.insert("N", 4);
    let s = plain_copy();
    let facts = scheduling(
        &s,
        blank(),
        None,
        below_n("c0", user("Y", vec![var("c0")])),
    );
    let scheduled = build(&s, "", &facts).unwrap();
    assert!(matches!(
        apply(&scheduled, &bindings, &broken),
        Err(CodegenError::Isl(_))
    ));
}
