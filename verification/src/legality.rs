//! Whether a schedule respects the dependences: each instance of a statement must run strictly
//! after the instances whose values it reads.
use crate::error::{CodegenError, Failure, Result};
use crate::ir::{Access, AffineFunction, Expr, ExprKind, OperationCall, StandardEquation};
use crate::relation::{
    both, comes_before, compose, composed, lemma_composed, pairs, relates, reverse,
    times_are_ordered, Leaves, Relation, RelationModel, Tuple,
};
use crate::schedule::Answer;
use crate::stmt::{statements_model, KindModel, Statement, StatementKind, StatementModel};
use crate::text::{cat2, cat5, str_eq};
use vstd::prelude::*;

verus! {

/// A read of a variable through a function.
pub struct ReadModel {
    pub function: AffineFunction,
    pub variable: Seq<char>,
}

/// The reads of an expression, from left to right. What has no generated code has none.
pub open spec fn reads(e: Expr) -> Seq<ReadModel>
    decreases e, 0int,
{
    match *e.kind {
        ExprKind::Dependence { function, operand } => match *operand.kind {
            ExprKind::Variable(name) => seq![ReadModel { function, variable: name@ }],
            _ => Seq::empty(),
        },
        ExprKind::If { cond, then_branch, else_branch } => reads(cond) + reads(then_branch)
            + reads(else_branch),
        ExprKind::Restrict { operand } => reads(operand),
        ExprKind::AutoRestrict { operand } => reads(operand),
        ExprKind::Unary { operator, operand } => reads(operand),
        ExprKind::Case { branches } => reads_of_first(branches, branches@.len()),
        ExprKind::MultiArg { operator, args } => reads_of_first(args, args@.len()),
        ExprKind::Binary { operator, lhs, rhs } => reads(lhs) + reads(rhs),
        _ => Seq::empty(),
    }
}

pub open spec fn reads_of_first(v: Vec<Expr>, n: nat) -> Seq<ReadModel>
    decreases v, n,
{
    if n == 0 || n > v@.len() {
        Seq::empty()
    } else {
        reads_of_first(v, (n - 1) as nat) + reads(v@[n - 1])
    }
}

/// A read of a variable through a function.
pub struct Read<'a> {
    pub function: &'a AffineFunction,
    pub variable: &'a String,
}

impl<'a> View for Read<'a> {
    type V = ReadModel;

    open spec fn view(&self) -> ReadModel {
        ReadModel { function: *self.function, variable: self.variable@ }
    }
}

pub open spec fn read_models(v: Seq<Read>) -> Seq<ReadModel> {
    Seq::new(v.len(), |i: int| v[i]@)
}

fn find_in_all<'a>(v: &'a Vec<Expr>, out: &mut Vec<Read<'a>>)
    ensures
        read_models(final(out)@) == read_models(old(out)@) + reads_of_first(*v, v@.len()),
    decreases v, 0int,
{
    let ghost before = read_models(out@);
    let mut i: usize = 0;
    proof {
        assert(before + reads_of_first(*v, 0) =~= before);
    }
    while i < v.len()
        invariant
            i <= v@.len(),
            read_models(out@) == before + reads_of_first(*v, i as nat),
        decreases v@.len() - i,
    {
        find_dependences(&v[i], out);
        proof {
            assert(read_models(out@) =~= before + reads_of_first(*v, (i + 1) as nat));
        }
        i += 1;
    }
}

/// Appends the reads of an expression.
pub fn find_dependences<'a>(e: &'a Expr, out: &mut Vec<Read<'a>>)
    ensures
        read_models(final(out)@) == read_models(old(out)@) + reads(*e),
    decreases e, 0int,
{
    let ghost before = read_models(out@);
    match &*e.kind {
        ExprKind::Dependence { function, operand } => match &*operand.kind {
            ExprKind::Variable(name) => {
                let r = Read { function, variable: name };
                let ghost model = r@;
                out.push(r);
                proof {
                    assert(read_models(out@) =~= before + seq![model]);
                }
            },
            _ => {},
        },
        ExprKind::If { cond, then_branch, else_branch } => {
            find_dependences(cond, out);
            find_dependences(then_branch, out);
            find_dependences(else_branch, out);
        },
        ExprKind::Restrict { operand } => find_dependences(operand, out),
        ExprKind::AutoRestrict { operand } => find_dependences(operand, out),
        ExprKind::Unary { operand, .. } => find_dependences(operand, out),
        ExprKind::Case { branches } => find_in_all(branches, out),
        ExprKind::MultiArg { args, .. } => find_in_all(args, out),
        ExprKind::Binary { lhs, rhs, .. } => {
            find_dependences(lhs, out);
            find_dependences(rhs, out);
        },
        _ => {},
    }
    proof {
        assert(read_models(out@) =~= before + reads(*e));
    }
}

/// What is read: a variable, or what a certain statement leaves.
pub enum Producer<'a> {
    Variable(&'a String),
    Named(String),
}

/// A dependence of a statement.
pub struct Edge<'a> {
    /// Sends the instances of the statement to what they read.
    pub function: &'a AffineFunction,
    pub producer: Producer<'a>,
}

pub enum ProducerModel {
    Variable(Seq<char>),
    Named(Seq<char>),
}

/// An [`Edge`] as a mathematical value.
pub struct EdgeModel {
    pub function: AffineFunction,
    pub producer: ProducerModel,
}

impl<'a> View for Edge<'a> {
    type V = EdgeModel;

    open spec fn view(&self) -> EdgeModel {
        EdgeModel {
            function: *self.function,
            producer: match self.producer {
                Producer::Variable(n) => ProducerModel::Variable(n@),
                Producer::Named(n) => ProducerModel::Named(n@),
            },
        }
    }
}

pub open spec fn edge_models(v: Seq<Edge>) -> Seq<EdgeModel> {
    Seq::new(v.len(), |i: int| v[i]@)
}

pub open spec fn read_edge(r: ReadModel) -> EdgeModel {
    EdgeModel {
        function: r.function,
        producer: ProducerModel::Variable(r.variable),
    }
}

pub open spec fn read_edges(v: Seq<ReadModel>) -> Seq<EdgeModel> {
    v.map_values(|r: ReadModel| read_edge(r))
}

pub open spec fn equation_reads(equations: Seq<(String, StandardEquation)>) -> Seq<ReadModel>
    decreases equations.len(),
{
    if equations.len() == 0 {
        Seq::empty()
    } else {
        equation_reads(equations.drop_last()) + reads(equations.last().1.expr)
    }
}

pub open spec fn access_edges(v: Seq<Access>) -> Seq<EdgeModel> {
    v.map_values(
        |a: Access|
            EdgeModel {
                function: a.function,
                producer: ProducerModel::Variable(a.variable@),
            },
    )
}

/// The dependences of a statement: its reads, and, for the step of a reduction, the start of it.
pub open spec fn edges_of(s: StatementModel) -> Seq<EdgeModel> {
    match s.kind {
        KindModel::Ordinary { equations } => read_edges(equation_reads(equations)),
        KindModel::ReduceInit { reduce_local, operator, body_context } => Seq::empty(),
        KindModel::ReduceStep { reduce_local, operator, body, body_context, projection } => seq![
            EdgeModel {
                function: projection,
                producer: ProducerModel::Named(reduce_local + "__init"@),
            },
        ] + read_edges(reads(body)),
        KindModel::OperationCall(call) => access_edges(call.inputs@),
    }
}

fn push_edge<'a>(out: &mut Vec<Edge<'a>>, e: Edge<'a>)
    ensures
        edge_models(final(out)@) == edge_models(old(out)@).push(e@),
{
    out.push(e);
    proof {
        assert(edge_models(out@) =~= edge_models(old(out)@).push(e@));
    }
}

fn push_reads<'a>(all: &Vec<Read<'a>>, out: &mut Vec<Edge<'a>>)
    ensures
        edge_models(final(out)@) == edge_models(old(out)@) + read_edges(read_models(all@)),
{
    let ghost before = edge_models(out@);
    let ghost target = read_edges(read_models(all@));
    let mut i: usize = 0;
    proof {
        assert(before + target.take(0) =~= before);
    }
    while i < all.len()
        invariant
            i <= all@.len(),
            target == read_edges(read_models(all@)),
            edge_models(out@) == before + target.take(i as int),
        decreases all@.len() - i,
    {
        push_edge(
            out,
            Edge {
                function: all[i].function,
                producer: Producer::Variable(all[i].variable),
            },
        );
        proof {
            assert(read_models(all@)[i as int] == all@[i as int]@);
            assert(target.take(i + 1) =~= target.take(i as int).push(target[i as int]));
            assert(edge_models(out@) =~= before + target.take(i + 1));
        }
        i += 1;
    }
    proof {
        assert(target.take(all@.len() as int) =~= target);
    }
}

fn push_accesses<'a>(all: &'a Vec<Access>, out: &mut Vec<Edge<'a>>)
    ensures
        edge_models(final(out)@) == edge_models(old(out)@) + access_edges(all@),
{
    let ghost before = edge_models(out@);
    let ghost target = access_edges(all@);
    let mut i: usize = 0;
    proof {
        assert(before + target.take(0) =~= before);
    }
    while i < all.len()
        invariant
            i <= all@.len(),
            target == access_edges(all@),
            edge_models(out@) == before + target.take(i as int),
        decreases all@.len() - i,
    {
        push_edge(
            out,
            Edge {
                function: &all[i].function,
                producer: Producer::Variable(&all[i].variable),
            },
        );
        proof {
            assert(target.take(i + 1) =~= target.take(i as int).push(target[i as int]));
            assert(edge_models(out@) =~= before + target.take(i + 1));
        }
        i += 1;
    }
    proof {
        assert(target.take(all@.len() as int) =~= target);
    }
}

fn equations_reads<'a>(equations: &Vec<(&'a String, &'a StandardEquation)>) -> (r: Vec<Read<'a>>)
    ensures
        read_models(r@) == equation_reads(crate::ir::referred(equations@)),
{
    let ghost all = crate::ir::referred(equations@);
    let mut out: Vec<Read<'a>> = Vec::new();
    let mut i: usize = 0;
    proof {
        assert(read_models(out@) =~= equation_reads(all.take(0)));
    }
    while i < equations.len()
        invariant
            i <= equations@.len(),
            all == crate::ir::referred(equations@),
            read_models(out@) == equation_reads(all.take(i as int)),
        decreases equations@.len() - i,
    {
        proof {
            let t = all.take(i + 1);
            assert(t.drop_last() =~= all.take(i as int));
            assert(t.last().1 == *equations@[i as int].1);
        }
        find_dependences(&equations[i].1.expr, &mut out);
        i += 1;
    }
    proof {
        assert(all.take(equations@.len() as int) =~= all);
    }
    out
}

/// The dependences of a statement.
pub fn dependence_edges<'a>(stmt: &Statement<'a>) -> (r: Vec<Edge<'a>>)
    ensures
        edge_models(r@) == edges_of(stmt@),
{
    let mut out: Vec<Edge<'a>> = Vec::new();
    proof {
        assert(edge_models(out@) =~= Seq::<EdgeModel>::empty());
    }
    match &stmt.kind {
        StatementKind::Ordinary { equations } => {
            let all = equations_reads(equations);
            push_reads(&all, &mut out);
        },
        StatementKind::ReduceInit { .. } => {},
        StatementKind::ReduceStep { reduce_local, body, projection, .. } => {
            push_edge(
                &mut out,
                Edge {
                    function: *projection,
                    producer: Producer::Named(cat2(reduce_local.as_str(), "__init")),
                },
            );
            let mut all: Vec<Read<'a>> = Vec::new();
            proof {
                assert(read_models(all@) =~= Seq::<ReadModel>::empty());
            }
            find_dependences(body, &mut all);
            proof {
                assert(read_models(all@) =~= reads(**body));
            }
            push_reads(&all, &mut out);
        },
        StatementKind::OperationCall(call) => push_accesses(&call.inputs, &mut out),
    }
    proof {
        assert(edge_models(out@) =~= edges_of(stmt@));
    }
    out
}

pub open spec fn writes(v: Seq<Access>, variable: Seq<char>) -> bool {
    exists|i: int| 0 <= i < v.len() && (#[trigger] v[i]).variable@ == variable
}

/// The statement leaves the value of the variable. A reduced variable has its value after the
/// steps, not after the start.
pub open spec fn produces(s: StatementModel, variable: Seq<char>) -> bool {
    match s.kind {
        KindModel::Ordinary { equations } => s.name == variable,
        KindModel::ReduceInit { reduce_local, operator, body_context } => false,
        KindModel::ReduceStep { reduce_local, .. } => reduce_local
            == variable,
        KindModel::OperationCall(call) => writes(call.outputs@, variable),
    }
}

/// The last of the first `n` statements that leaves the value of the variable.
pub open spec fn producer_of(all: Seq<StatementModel>, variable: Seq<char>, n: nat) -> Option<int>
    decreases n,
{
    if n == 0 || n > all.len() {
        None
    } else if produces(all[n - 1], variable) {
        Some(n - 1)
    } else {
        producer_of(all, variable, (n - 1) as nat)
    }
}

/// The last of the first `n` statements of a name.
pub open spec fn statement_named(all: Seq<StatementModel>, name: Seq<char>, n: nat) -> Option<int>
    decreases n,
{
    if n == 0 || n > all.len() {
        None
    } else if all[n - 1].name == name {
        Some(n - 1)
    } else {
        statement_named(all, name, (n - 1) as nat)
    }
}

/// The statement that a dependence is on; an input has none.
pub open spec fn producing_statement(all: Seq<StatementModel>, p: ProducerModel) -> Option<int> {
    match p {
        ProducerModel::Variable(v) => producer_of(all, v, all.len()),
        ProducerModel::Named(n) => statement_named(all, n, all.len()),
    }
}

fn is_produced(s: &Statement, variable: &str) -> (r: bool)
    ensures
        r == produces(s@, variable@),
{
    match &s.kind {
        StatementKind::Ordinary { .. } => str_eq(s.name.as_str(), variable),
        StatementKind::ReduceInit { .. } => false,
        StatementKind::ReduceStep { reduce_local, .. } => str_eq(reduce_local.as_str(), variable),
        StatementKind::OperationCall(call) => {
            let mut i: usize = 0;
            while i < call.outputs.len()
                invariant
                    i <= call.outputs@.len(),
                    s.kind == StatementKind::OperationCall(*call),
                    forall|j: int| 0 <= j < i ==> (#[trigger] call.outputs@[j]).variable@ != variable@,
                decreases call.outputs@.len() - i,
            {
                if str_eq(call.outputs[i].variable.as_str(), variable) {
                    proof {
                        assert(call.outputs@[i as int].variable@ == variable@);
                    }
                    return true;
                }
                i += 1;
            }
            false
        },
    }
}

fn find_producer(all: &Vec<Statement>, variable: &str) -> (r: Option<usize>)
    ensures
        match r {
            Some(i) => producer_of(statements_model(all@), variable@, all@.len()) == Some(i as int)
                && i < all@.len(),
            None => producer_of(statements_model(all@), variable@, all@.len()) is None,
        },
{
    let ghost models = statements_model(all@);
    let mut i: usize = all.len();
    while i > 0
        invariant
            i <= all@.len(),
            models == statements_model(all@),
            producer_of(models, variable@, all@.len()) == producer_of(models, variable@, i as nat),
        decreases i,
    {
        i -= 1;
        proof {
            assert(models[i as int] == all@[i as int]@);
        }
        if is_produced(&all[i], variable) {
            return Some(i);
        }
    }
    None
}

fn find_named(all: &Vec<Statement>, name: &str) -> (r: Option<usize>)
    ensures
        match r {
            Some(i) => statement_named(statements_model(all@), name@, all@.len()) == Some(i as int)
                && i < all@.len(),
            None => statement_named(statements_model(all@), name@, all@.len()) is None,
        },
{
    let ghost models = statements_model(all@);
    let mut i: usize = all.len();
    while i > 0
        invariant
            i <= all@.len(),
            models == statements_model(all@),
            statement_named(models, name@, all@.len()) == statement_named(
                models,
                name@,
                i as nat,
            ),
        decreases i,
    {
        i -= 1;
        proof {
            assert(models[i as int] == all@[i as int]@);
        }
        if str_eq(all[i].name.as_str(), name) {
            return Some(i);
        }
    }
    None
}

/// A question about a schedule: whether some instance of the consumer runs no later than an
/// instance of the producer that it reads, along its `edge`th dependence. Where the producer is
/// the step of a reduction, the dependence is on every instance that its projection takes to what
/// is read.
#[derive(Debug, Clone, Copy, PartialEq, Eq, Structural)]
pub struct Question {
    pub consumer: usize,
    pub edge: usize,
    pub producer: usize,
}

/// The question about one dependence, where both statements have a schedule.
pub open spec fn question_about(
    all: Seq<StatementModel>,
    scheduled: Seq<bool>,
    consumer: int,
    edge: int,
) -> Seq<Question> {
    match producing_statement(all, edges_of(all[consumer])[edge].producer) {
        None => Seq::empty(),
        Some(p) => if scheduled[p] {
            seq![
                Question { consumer: consumer as usize, edge: edge as usize, producer: p as usize },
            ]
        } else {
            Seq::empty()
        },
    }
}

pub open spec fn questions_of_edges(
    all: Seq<StatementModel>,
    scheduled: Seq<bool>,
    consumer: int,
    n: nat,
) -> Seq<Question>
    decreases n,
{
    if n == 0 {
        Seq::empty()
    } else {
        questions_of_edges(all, scheduled, consumer, (n - 1) as nat) + question_about(
            all,
            scheduled,
            consumer,
            n - 1,
        )
    }
}

/// The questions about the dependences of the first `n` statements.
pub open spec fn questions_of(all: Seq<StatementModel>, scheduled: Seq<bool>, n: nat) -> Seq<
    Question,
>
    decreases n,
{
    if n == 0 {
        Seq::empty()
    } else {
        let before = questions_of(all, scheduled, (n - 1) as nat);
        if scheduled[n - 1] {
            before + questions_of_edges(all, scheduled, n - 1, edges_of(all[n - 1]).len())
        } else {
            before
        }
    }
}

fn push_questions(
    all: &Vec<Statement>,
    scheduled: &Vec<bool>,
    consumer: usize,
    out: &mut Vec<Question>,
)
    requires
        consumer < all@.len(),
        scheduled@.len() == all@.len(),
    ensures
        final(out)@ == old(out)@ + questions_of_edges(
            statements_model(all@),
            scheduled@,
            consumer as int,
            edges_of(statements_model(all@)[consumer as int]).len(),
        ),
{
    let ghost models = statements_model(all@);
    let ghost before = out@;
    let edges = dependence_edges(&all[consumer]);
    let mut i: usize = 0;
    proof {
        assert(models[consumer as int] == all@[consumer as int]@);
        assert(edge_models(edges@).len() == edges@.len());
        assert(before + questions_of_edges(models, scheduled@, consumer as int, 0) =~= before);
    }
    while i < edges.len()
        invariant
            i <= edges@.len(),
            consumer < all@.len(),
            scheduled@.len() == all@.len(),
            models == statements_model(all@),
            edge_models(edges@) == edges_of(models[consumer as int]),
            out@ == before + questions_of_edges(models, scheduled@, consumer as int, i as nat),
        decreases edges@.len() - i,
    {
        proof {
            assert(edge_models(edges@)[i as int] == edges@[i as int]@);
        }
        let producer = match &edges[i].producer {
            Producer::Variable(v) => find_producer(all, v.as_str()),
            Producer::Named(n) => find_named(all, n.as_str()),
        };
        match producer {
            None => {},
            Some(p) => if scheduled[p] {
                out.push(Question { consumer, edge: i, producer: p });
            },
        }
        proof {
            assert(out@ =~= before + questions_of_edges(
                models,
                scheduled@,
                consumer as int,
                (i + 1) as nat,
            ));
        }
        i += 1;
    }
}

/// Every question about a schedule, in order. `scheduled` tells the statements that have one.
pub fn questions(all: &Vec<Statement>, scheduled: &Vec<bool>) -> (r: Vec<Question>)
    requires
        scheduled@.len() == all@.len(),
    ensures
        r@ == questions_of(statements_model(all@), scheduled@, all@.len()),
{
    let mut out: Vec<Question> = Vec::new();
    let mut i: usize = 0;
    while i < all.len()
        invariant
            i <= all@.len(),
            scheduled@.len() == all@.len(),
            out@ == questions_of(statements_model(all@), scheduled@, i as nat),
        decreases all@.len() - i,
    {
        if scheduled[i] {
            push_questions(all, scheduled, i, &mut out);
        }
        i += 1;
    }
    out
}

/// What an instance of the consumer reads along a dependence: the instances of the producer. Where
/// the producer is the step of a reduction, these are all the instances that its projection takes
/// to what is read.
pub open spec fn reached(all: Seq<StatementModel>, q: Question) -> RelationModel {
    let read = RelationModel::Function(edges_of(all[q.consumer as int])[q.edge as int].function.text@);
    match all[q.producer as int].kind {
        KindModel::ReduceStep { projection, .. } => composed(
            read,
            RelationModel::Reverse(Box::new(RelationModel::Function(projection.text@))),
        ),
        _ => read,
    }
}

/// The instances of the consumer with their times, where an instance that is read has the same time
/// or a later one.
pub open spec fn violation_of(all: Seq<StatementModel>, q: Question) -> RelationModel {
    RelationModel::Both(
        Box::new(RelationModel::Schedule(q.consumer)),
        Box::new(
            composed(
                composed(reached(all, q), RelationModel::Schedule(q.producer)),
                RelationModel::NotBefore,
            ),
        ),
    )
}

/// The question is about a dependence of the statements.
pub open spec fn askable(all: Seq<StatementModel>, q: Question) -> bool {
    in_range(q, all.len()) && q.edge < edges_of(all[q.consumer as int]).len()
}

/// What a question asks about: the schedule is in order where no pair is related.
pub fn violation(all: &Vec<Statement>, q: &Question) -> (r: Relation)
    requires
        askable(statements_model(all@), *q),
    ensures
        r@ == violation_of(statements_model(all@), *q),
{
    let edges = dependence_edges(&all[q.consumer]);
    proof {
        assert(statements_model(all@)[q.consumer as int] == all@[q.consumer as int]@);
        assert(statements_model(all@)[q.producer as int] == all@[q.producer as int]@);
        assert(edge_models(edges@).len() == edges@.len());
        assert(edge_models(edges@)[q.edge as int] == edges@[q.edge as int]@);
    }
    let read = Relation::Function(edges[q.edge].function.text.clone());
    let found = match &all[q.producer].kind {
        StatementKind::ReduceStep { projection, .. } => compose(
            read,
            reverse(Relation::Function(projection.text.clone())),
        ),
        _ => read,
    };
    let times = compose(found, Relation::Schedule(q.producer));
    both(Relation::Schedule(q.consumer), compose(times, Relation::NotBefore))
}

pub open spec fn some_scheduled(scheduled: Seq<bool>) -> bool {
    exists|i: int| 0 <= i < scheduled.len() && #[trigger] scheduled[i]
}

pub open spec fn illegal(consumer: Seq<char>, producer: Seq<char>) -> Failure {
    Failure::IllegalSchedule(
        "'"@ + consumer + "' reads '"@ + producer
            + "' but the schedule doesn't guarantee the producer instance runs strictly before the consumer instance that reads it (§7.2)"@,
    )
}

/// What the first answer from place `k` on that is not a plain no leads to.
pub open spec fn first_violation(
    all: Seq<StatementModel>,
    asked: Seq<Question>,
    answers: Seq<Answer>,
    k: int,
) -> Option<Failure>
    decreases asked.len() - k,
{
    if k < 0 || k >= asked.len() {
        None
    } else {
        match answers[k] {
            Err(e) => Some(Failure::Isl(e.message@)),
            Ok(violated) => if violated {
                Some(
                    illegal(
                        all[asked[k].consumer as int].name,
                        all[asked[k].producer as int].name,
                    ),
                )
            } else {
                first_violation(all, asked, answers, k + 1)
            },
        }
    }
}

/// Why a schedule is not legal, if it is not.
pub open spec fn legality_failure(
    all: Seq<StatementModel>,
    scheduled: Seq<bool>,
    answers: Seq<Answer>,
) -> Option<Failure> {
    if !some_scheduled(scheduled) {
        Some(
            Failure::InvalidSchedule(
                "internal error: no statements to check legality for"@,
            ),
        )
    } else {
        first_violation(all, questions_of(all, scheduled, all.len()), answers, 0)
    }
}

pub proof fn lemma_producer_in_range(all: Seq<StatementModel>, p: ProducerModel)
    ensures
        producing_statement(all, p) matches Some(i) ==> 0 <= i < all.len(),
{
    match p {
        ProducerModel::Variable(v) => lemma_producer_range(all, v, all.len()),
        ProducerModel::Named(n) => lemma_named_range(all, n, all.len()),
    }
}

proof fn lemma_producer_range(all: Seq<StatementModel>, v: Seq<char>, n: nat)
    ensures
        producer_of(all, v, n) matches Some(i) ==> 0 <= i < all.len(),
    decreases n,
{
    if n > 0 && n <= all.len() {
        lemma_producer_range(all, v, (n - 1) as nat);
    }
}

proof fn lemma_named_range(all: Seq<StatementModel>, v: Seq<char>, n: nat)
    ensures
        statement_named(all, v, n) matches Some(i) ==> 0 <= i < all.len(),
    decreases n,
{
    if n > 0 && n <= all.len() {
        lemma_named_range(all, v, (n - 1) as nat);
    }
}

pub open spec fn in_range(q: Question, n: nat) -> bool {
    q.consumer < n && q.producer < n
}

proof fn lemma_edge_questions_in_range(
    all: Seq<StatementModel>,
    scheduled: Seq<bool>,
    consumer: int,
    n: nat,
)
    requires
        0 <= consumer < all.len() <= usize::MAX,
    ensures
        forall|i: int|
            0 <= i < questions_of_edges(all, scheduled, consumer, n).len() ==> in_range(
                #[trigger] questions_of_edges(all, scheduled, consumer, n)[i],
                all.len(),
            ),
    decreases n,
{
    if n > 0 {
        lemma_edge_questions_in_range(all, scheduled, consumer, (n - 1) as nat);
        lemma_producer_in_range(all, edges_of(all[consumer])[n - 1].producer);
        let before = questions_of_edges(all, scheduled, consumer, (n - 1) as nat);
        let now = questions_of_edges(all, scheduled, consumer, n);
        assert forall|i: int| 0 <= i < now.len() implies in_range(#[trigger] now[i], all.len()) by {
            if i < before.len() {
                assert(now[i] == before[i]);
            }
        }
    }
}

proof fn lemma_questions_in_range(all: Seq<StatementModel>, scheduled: Seq<bool>, n: nat)
    requires
        n <= all.len() <= usize::MAX,
    ensures
        forall|i: int|
            0 <= i < questions_of(all, scheduled, n).len() ==> in_range(
                #[trigger] questions_of(all, scheduled, n)[i],
                all.len(),
            ),
    decreases n,
{
    if n > 0 {
        lemma_questions_in_range(all, scheduled, (n - 1) as nat);
        let before = questions_of(all, scheduled, (n - 1) as nat);
        let now = questions_of(all, scheduled, n);
        let count = edges_of(all[n - 1]).len();
        lemma_edge_questions_in_range(all, scheduled, n - 1, count);
        assert forall|i: int| 0 <= i < now.len() implies in_range(#[trigger] now[i], all.len()) by {
            if i < before.len() {
                assert(now[i] == before[i]);
            } else {
                let k = i - before.len();
                assert(now[i] == questions_of_edges(all, scheduled, n - 1, count)[k]);
            }
        }
    }
}

/// Accepts a schedule where every answer is no, and otherwise says what the first other one
/// leads to.
pub fn check_legality(all: &Vec<Statement>, scheduled: &Vec<bool>, answers: &Vec<Answer>) -> (r:
    Result<()>)
    requires
        scheduled@.len() == all@.len(),
        answers@.len() == questions_of(statements_model(all@), scheduled@, all@.len()).len(),
    ensures
        match r {
            Ok(()) => legality_failure(statements_model(all@), scheduled@, answers@) is None,
            Err(e) => legality_failure(statements_model(all@), scheduled@, answers@) == Some(e@),
        },
{
    let ghost models = statements_model(all@);
    let mut any = false;
    let mut i: usize = 0;
    while i < scheduled.len()
        invariant
            i <= scheduled@.len(),
            any == exists|j: int| 0 <= j < i && #[trigger] scheduled@[j],
        decreases scheduled@.len() - i,
    {
        if scheduled[i] {
            any = true;
        }
        i += 1;
    }
    if !any {
        return Err(
            CodegenError::InvalidSchedule(
                "internal error: no statements to check legality for".to_owned(),
            ),
        );
    }
    let asked = questions(all, scheduled);
    proof {
        assert(all.len() <= usize::MAX);
        lemma_questions_in_range(models, scheduled@, all@.len());
    }
    let mut k: usize = 0;
    while k < asked.len()
        invariant
            k <= asked@.len(),
            models == statements_model(all@),
            asked@ == questions_of(models, scheduled@, all@.len()),
            answers@.len() == asked@.len(),
            some_scheduled(scheduled@),
            forall|i: int| 0 <= i < asked@.len() ==> in_range(#[trigger] asked@[i], all@.len()),
            first_violation(models, asked@, answers@, 0) == first_violation(
                models,
                asked@,
                answers@,
                k as int,
            ),
        decreases asked@.len() - k,
    {
        let q = asked[k];
        proof {
            assert(in_range(asked@[k as int], all@.len()));
            assert(models[q.consumer as int] == all@[q.consumer as int]@);
            assert(models[q.producer as int] == all@[q.producer as int]@);
        }
        match &answers[k] {
            Err(e) => return Err(CodegenError::Isl(e.clone())),
            Ok(violated) => if *violated {
                return Err(
                    CodegenError::IllegalSchedule(
                        cat5(
                            "'",
                            all[q.consumer].name.as_str(),
                            "' reads '",
                            all[q.producer].name.as_str(),
                            "' but the schedule doesn't guarantee the producer instance runs strictly before the consumer instance that reads it (§7.2)",
                        ),
                    ),
                );
            },
        }
        k += 1;
    }
    Ok(())
}

proof fn lemma_edge_is_asked(
    all: Seq<StatementModel>,
    scheduled: Seq<bool>,
    consumer: int,
    edge: int,
    n: nat,
)
    requires
        0 <= edge < n,
        producing_statement(all, edges_of(all[consumer])[edge].producer) matches Some(p)
            && scheduled[p],
    ensures
        exists|i: int|
            0 <= i < questions_of_edges(all, scheduled, consumer, n).len() && (
            #[trigger] questions_of_edges(all, scheduled, consumer, n)[i]) == question_about(
                all,
                scheduled,
                consumer,
                edge,
            )[0],
    decreases n,
{
    let before = questions_of_edges(all, scheduled, consumer, (n - 1) as nat);
    let now = questions_of_edges(all, scheduled, consumer, n);
    if edge == n - 1 {
        assert(now[before.len() as int] == question_about(all, scheduled, consumer, edge)[0]);
    } else {
        lemma_edge_is_asked(all, scheduled, consumer, edge, (n - 1) as nat);
        let i = choose|i: int|
            0 <= i < before.len() && (#[trigger] before[i]) == question_about(
                all,
                scheduled,
                consumer,
                edge,
            )[0];
        assert(now[i] == before[i]);
    }
}

proof fn lemma_asked(
    all: Seq<StatementModel>,
    scheduled: Seq<bool>,
    consumer: int,
    edge: int,
    n: nat,
)
    requires
        0 <= consumer < n <= all.len(),
        scheduled[consumer],
        0 <= edge < edges_of(all[consumer]).len(),
        producing_statement(all, edges_of(all[consumer])[edge].producer) matches Some(p)
            && scheduled[p],
    ensures
        exists|i: int|
            0 <= i < questions_of(all, scheduled, n).len() && (#[trigger] questions_of(
                all,
                scheduled,
                n,
            )[i]) == question_about(all, scheduled, consumer, edge)[0],
    decreases n,
{
    let before = questions_of(all, scheduled, (n - 1) as nat);
    let now = questions_of(all, scheduled, n);
    let wanted = question_about(all, scheduled, consumer, edge)[0];
    if consumer == n - 1 {
        let count = edges_of(all[consumer]).len();
        let own = questions_of_edges(all, scheduled, consumer, count);
        lemma_edge_is_asked(all, scheduled, consumer, edge, count);
        let i = choose|i: int| 0 <= i < own.len() && (#[trigger] own[i]) == wanted;
        assert(now[before.len() + i] == wanted);
    } else {
        lemma_asked(all, scheduled, consumer, edge, (n - 1) as nat);
        let i = choose|i: int| 0 <= i < before.len() && (#[trigger] before[i]) == wanted;
        assert(now[i] == wanted);
    }
}

proof fn lemma_all_no(
    all: Seq<StatementModel>,
    asked: Seq<Question>,
    answers: Seq<Answer>,
    k: int,
    i: int,
)
    requires
        0 <= k <= i < asked.len(),
        first_violation(all, asked, answers, k) is None,
    ensures
        answers[i] matches Ok(b) && !b,
    decreases asked.len() - k,
{
    if k < i {
        lemma_all_no(all, asked, answers, k + 1, i);
    }
}

/// Every dependence between scheduled statements is asked about, and a schedule is accepted only
/// if the answer is no.
proof fn lemma_answered_no(
    all: Seq<StatementModel>,
    scheduled: Seq<bool>,
    answers: Seq<Answer>,
    consumer: int,
    edge: int,
)
    requires
        0 <= consumer < all.len() <= usize::MAX,
        scheduled[consumer],
        0 <= edge < edges_of(all[consumer]).len() <= usize::MAX,
        producing_statement(all, edges_of(all[consumer])[edge].producer) matches Some(p)
            && scheduled[p],
        legality_failure(all, scheduled, answers) is None,
    ensures
        ({
            let asked = questions_of(all, scheduled, all.len());
            exists|i: int|
                0 <= i < asked.len() && (#[trigger] asked[i]) == question_about(
                    all,
                    scheduled,
                    consumer,
                    edge,
                )[0] && (answers[i] matches Ok(b) && !b)
        }),
{
    let asked = questions_of(all, scheduled, all.len());
    lemma_asked(all, scheduled, consumer, edge, all.len());
    let wanted = question_about(all, scheduled, consumer, edge)[0];
    let i = choose|i: int| 0 <= i < asked.len() && (#[trigger] asked[i]) == wanted;
    lemma_all_no(all, asked, answers, 0, i);
}

/// Some pair is related.
pub open spec fn occurs(r: RelationModel, l: Leaves) -> bool {
    exists|x: Tuple, y: Tuple| #[trigger] relates(r, l, x, y)
}

/// The answers are right, where the leaves stand for what `l` says.
pub open spec fn answered(
    all: Seq<StatementModel>,
    asked: Seq<Question>,
    answers: Seq<Answer>,
    l: Leaves,
) -> bool {
    forall|i: int|
        0 <= i < asked.len() ==> (#[trigger] answers[i] matches Ok(b) ==> b == occurs(
            violation_of(all, asked[i]),
            l,
        ))
}

/// No dependence is reordered: under an accepted schedule, an instance that is read runs strictly
/// before the instance that reads it.
pub proof fn an_accepted_schedule_respects_every_dependence(
    all: Seq<StatementModel>,
    scheduled: Seq<bool>,
    answers: Seq<Answer>,
    l: Leaves,
    consumer: int,
    edge: int,
    instance: Tuple,
    time: Tuple,
    read: Tuple,
    read_time: Tuple,
)
    requires
        0 <= consumer < all.len() <= usize::MAX,
        scheduled[consumer],
        0 <= edge < edges_of(all[consumer]).len() <= usize::MAX,
        producing_statement(all, edges_of(all[consumer])[edge].producer) matches Some(p)
            && scheduled[p] && (l.schedules)(p as usize).contains((read, read_time)),
        legality_failure(all, scheduled, answers) is None,
        answered(all, questions_of(all, scheduled, all.len()), answers, l),
        (l.schedules)(consumer as usize).contains((instance, time)),
        relates(reached(all, question_about(all, scheduled, consumer, edge)[0]), l, instance, read),
        time.len() == read_time.len(),
    ensures
        comes_before(read_time, time),
{
    let asked = questions_of(all, scheduled, all.len());
    lemma_answered_no(all, scheduled, answers, consumer, edge);
    let q = question_about(all, scheduled, consumer, edge)[0];
    let i = choose|i: int|
        0 <= i < asked.len() && (#[trigger] asked[i]) == q && (answers[i] matches Ok(b) && !b);
    lemma_producer_in_range(all, edges_of(all[consumer])[edge].producer);
    let v = violation_of(all, q);
    let at_producer = composed(reached(all, q), RelationModel::Schedule(q.producer));
    if !comes_before(read_time, time) {
        times_are_ordered(read_time, time);
        assert(relates(reached(all, q), l, instance, read));
        assert(relates(RelationModel::Schedule(q.producer), l, read, read_time));
        lemma_composed(
            reached(all, q),
            RelationModel::Schedule(q.producer),
            l,
            instance,
            read_time,
        );
        assert(relates(at_producer, l, instance, read_time));
        assert(relates(RelationModel::NotBefore, l, read_time, time));
        let late = composed(at_producer, RelationModel::NotBefore);
        lemma_composed(at_producer, RelationModel::NotBefore, l, instance, time);
        assert(relates(late, l, instance, time));
        assert(relates(RelationModel::Schedule(q.consumer), l, instance, time));
        assert(relates(v, l, instance, time));
        assert(occurs(v, l));
    }
}

/// A read of a reduction reaches every step that the projection takes to what is read.
pub proof fn a_reduction_is_read_whole(
    all: Seq<StatementModel>,
    q: Question,
    l: Leaves,
    instance: Tuple,
    step: Tuple,
)
    requires
        all[q.producer as int].kind is ReduceStep,
    ensures
        relates(reached(all, q), l, instance, step) <==> exists|cell: Tuple|
            (l.functions)(edges_of(all[q.consumer as int])[q.edge as int].function.text@).contains(
                (instance, cell),
            ) && #[trigger] (l.functions)(
                all[q.producer as int].kind->ReduceStep_projection.text@,
            ).contains((step, cell)),
{
    let text = edges_of(all[q.consumer as int])[q.edge as int].function.text@;
    let back = all[q.producer as int].kind->ReduceStep_projection.text@;
    let read = RelationModel::Function(text);
    let projection = RelationModel::Function(back);
    let reverse = RelationModel::Reverse(Box::new(projection));
    assert forall|cell: Tuple| #[trigger] relates(read, l, instance, cell) == (l.functions)(
        text,
    ).contains((instance, cell)) by {}
    reveal_with_fuel(pairs, 3);
    assert forall|cell: Tuple| #[trigger] relates(reverse, l, cell, step) == (l.functions)(
        back,
    ).contains((step, cell)) by {
        assert(relates(projection, l, step, cell) == (l.functions)(back).contains((step, cell)));
    }
    lemma_composed(read, reverse, l, instance, step);
    if relates(reached(all, q), l, instance, step) {
        let cell = choose|z: Tuple| #[trigger]
            relates(read, l, instance, z) && relates(reverse, l, z, step);
        assert((l.functions)(back).contains((step, cell)));
    }
    if exists|cell: Tuple|
        (l.functions)(text).contains((instance, cell)) && #[trigger] (l.functions)(back).contains(
            (step, cell),
        ) {
        let cell = choose|cell: Tuple|
            (l.functions)(text).contains((instance, cell)) && #[trigger] (l.functions)(
                back,
            ).contains((step, cell));
        assert(relates(read, l, instance, cell) && relates(reverse, l, cell, step));
    }
}

} // verus!
