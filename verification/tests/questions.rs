use alpha::linear_checks::Held;
use alpha::linear_questions::{
    access_range, access_relation, branch_side, common_part, read_overlap, taken_by,
};
use alpha::linear_reads::{Access, Step};
use alpha::polyhedral::{
    FunctionTerm, MapLimit, MapOp, MapSide, MapTerm, SetOp, SetTerm, Table,
};
use alpha::questions::{branch_overlap, mention_overlap, shared_by_mentions, written_by};
use alpha::resolve::Resolver;
use alpha::syntax::{
    Calc, CalcKind, Decl, Expr, ExprKind, Name, Span, System, SystemBody, Token,
};
use alpha::use_outputs::Mention;
use std::collections::BTreeSet;

fn at(start: u32) -> Span {
    Span {
        start,
        end: start + 1,
    }
}

/// A value of the parameter and an index; the index is zero where only the parameter counts.
type Point = (i64, i64);
type Points = BTreeSet<Point>;
type Pairs = BTreeSet<(Point, Point)>;

/// Where the parameter runs from 0 to 5.
fn everywhere(keep: impl Fn(i64) -> bool) -> Points {
    (0..6).filter(|n| keep(*n)).map(|n| (n, 0)).collect()
}

/// What a text stands for.
fn read(text: &str) -> Points {
    if text.contains("i < N") {
        (0..6).flat_map(|n| (0..n).map(move |i| (n, i))).collect()
    } else if text.contains("N < 3") {
        everywhere(|n| n < 3)
    } else if text.contains("N > 1") {
        everywhere(|n| n > 1)
    } else if text.contains("N > 3") {
        everywhere(|n| n > 3)
    } else {
        assert!(text.contains("N >= 0"), "unexpected text {text}");
        everywhere(|_| true)
    }
}

fn sent(f: &FunctionTerm, p: Point) -> Point {
    match f {
        FunctionTerm::Read { text, .. } => match text.as_str() {
            "next" => (p.0, p.1 + 1),
            "twice" => (p.0, 2 * p.1),
            "first" => (p.0, 0),
            _ => unreachable!(),
        },
        FunctionTerm::Failed(_) => unreachable!(),
    }
}

/// What was kept for each node.
struct World {
    kept: Vec<(Table, usize, Points)>,
}

impl World {
    fn needed(kept: &[(usize, &[i64])]) -> World {
        World {
            kept: kept
                .iter()
                .map(|(node, points)| {
                    (
                        Table::Context,
                        *node,
                        points.iter().map(|i| (4, *i)).collect(),
                    )
                })
                .collect(),
        }
    }

    fn of(&self, table: Table, node: usize) -> Points {
        self.kept
            .iter()
            .find(|(t, n, _)| *t == table && *n == node)
            .map(|(_, _, s)| s.clone())
            .unwrap_or_default()
    }

    fn set(&self, t: &SetTerm) -> Points {
        match t {
            SetTerm::Read { text, .. } => read(text),
            SetTerm::Kept { table, node } => self.of(*table, *node),
            SetTerm::Side {
                side: MapSide::Range,
                map,
                ..
            } => self.map(map).iter().map(|(_, y)| *y).collect(),
            SetTerm::Combine { op, lhs, rhs, .. } => {
                let (l, r) = (self.set(lhs), self.set(rhs));
                match op {
                    SetOp::Union => l.union(&r).copied().collect(),
                    SetOp::Intersect => l.intersection(&r).copied().collect(),
                    SetOp::Subtract => l.difference(&r).copied().collect(),
                    SetOp::Outside => r.difference(&l).copied().collect(),
                    SetOp::IntersectParams => l
                        .iter()
                        .filter(|p| r.contains(&(p.0, 0)))
                        .copied()
                        .collect(),
                    _ => panic!("unexpected {op:?}"),
                }
            }
            other => panic!("unexpected {other:?}"),
        }
    }

    fn map(&self, t: &MapTerm) -> Pairs {
        match t {
            MapTerm::Graph { function, .. } => (0..6)
                .flat_map(|n| (-9..9).map(move |i| (n, i)))
                .map(|p| (p, sent(function, p)))
                .collect(),
            MapTerm::Same { set, .. } => self.set(set).iter().map(|p| (*p, *p)).collect(),
            MapTerm::Limit {
                limit: MapLimit::IntersectDomain,
                map,
                set,
                ..
            } => {
                let points = self.set(set);
                let pairs = self.map(map);
                pairs.into_iter().filter(|(x, _)| points.contains(x)).collect()
            }
            MapTerm::Combine { op, lhs, rhs, .. } => {
                let (l, r) = (self.map(lhs), self.map(rhs));
                match op {
                    MapOp::Union => l.union(&r).copied().collect(),
                    MapOp::Intersect => l.intersection(&r).copied().collect(),
                    MapOp::ApplyRange => l
                        .iter()
                        .flat_map(|(x, y)| {
                            r.iter().filter(move |(u, _)| u == y).map(move |(_, v)| (*x, *v))
                        })
                        .collect(),
                    _ => panic!("unexpected {op:?}"),
                }
            }
            other => panic!("unexpected {other:?}"),
        }
    }
}

fn indices(s: Points) -> Vec<i64> {
    s.iter().map(|p| p.1).collect()
}

fn steps(pairs: Pairs) -> Vec<(i64, i64)> {
    pairs.iter().map(|(x, y)| (x.1, y.1)).collect()
}

fn parameters(s: Points) -> Vec<i64> {
    s.iter().map(|p| p.0).collect()
}

fn branch(node: usize) -> Expr {
    Expr {
        node,
        span: at(node as u32),
        kind: ExprKind::Variable {
            name: Some("x".to_string()),
        },
    }
}

fn calc(text: &str, kind: CalcKind) -> Calc {
    Calc {
        span: at(90),
        tokens: vec![Token::Other(text.to_string())],
        kind,
    }
}

fn body(start: u32, guard: Option<&str>) -> SystemBody {
    SystemBody {
        span: at(start),
        guard: guard.map(|g| calc(g, CalcKind::ParamDomain)),
        equations: vec![],
    }
}

fn system(bodies: Vec<SystemBody>) -> System {
    System {
        span: at(0),
        name: Some(Name {
            text: "s".to_string(),
            span: at(1),
        }),
        params: vec!["N".to_string()],
        param_domain: calc("[N] -> { : N >= 0}", CalcKind::ParamDomain),
        scopes: vec![],
        inputs: vec![Decl {
            span: at(2),
            fuzzy: false,
            linear: true,
            name: Some(Name {
                text: "x".to_string(),
                span: at(2),
            }),
            domain: Some(calc("{[i] : 0 <= i < N}", CalcKind::Domain)),
            element_type: None,
        }],
        outputs: vec![],
        locals: vec![],
        objects: vec![],
        bodies,
    }
}

fn mention(name: &str, node: usize) -> Mention {
    Mention {
        name: name.to_string(),
        output: at(node as u32),
        node,
        span: at(node as u32),
    }
}

fn access(variable: &str, node: usize, way: &[(usize, &str)], called: bool) -> Access {
    Access {
        variable: variable.to_string(),
        node,
        at: at(node as u32),
        steps: way
            .iter()
            .map(|(node, f)| Step {
                node: *node,
                function: FunctionTerm::Read {
                    text: f.to_string(),
                    at: at(7),
                },
            })
            .collect(),
        called,
    }
}

#[test]
fn a_branch_is_compared_with_those_before_it() {
    let world = World::needed(&[(1, &[0, 1, 2]), (2, &[2, 3]), (3, &[4, 5])]);
    let list = vec![branch(1), branch(2), branch(3)];
    assert_eq!(indices(world.set(&branch_overlap(&list, 1))), vec![2]);
    assert!(world.set(&branch_overlap(&list, 2)).is_empty());
    let turned = vec![branch(3), branch(1), branch(2)];
    assert_eq!(indices(world.set(&branch_overlap(&turned, 2))), vec![2]);
}

#[test]
fn bodies_are_compared_for_the_parameters_of_the_system() {
    let world = World { kept: vec![] };
    let s = system(vec![
        body(10, Some("[N] -> { : N < 3}")),
        body(11, Some("[N] -> { : N > 1}")),
    ]);
    let r = Resolver::new(&s);
    assert_eq!(parameters(world.set(&r.body_region(0))), vec![0, 1, 2]);
    assert_eq!(parameters(world.set(&r.body_region(1))), vec![2, 3, 4, 5]);
    assert_eq!(parameters(world.set(&r.body_overlap(1))), vec![2]);
    assert!(world.set(&r.unclaimed()).is_empty());

    let s = system(vec![
        body(10, Some("[N] -> { : N < 3}")),
        body(11, Some("[N] -> { : N > 3}")),
    ]);
    let r = Resolver::new(&s);
    assert!(world.set(&r.body_overlap(1)).is_empty());
    assert_eq!(parameters(world.set(&r.unclaimed())), vec![3]);
}

#[test]
fn the_body_without_a_guard_takes_the_rest() {
    let world = World { kept: vec![] };
    let s = system(vec![body(10, Some("[N] -> { : N < 3}")), body(11, None)]);
    let r = Resolver::new(&s);
    assert_eq!(parameters(world.set(&r.body_region(1))), vec![3, 4, 5]);
    assert!(world.set(&r.body_overlap(1)).is_empty());
    assert!(world.set(&r.unclaimed()).is_empty());
}

#[test]
fn a_variable_is_needed_for_the_parameters_of_the_body() {
    let world = World { kept: vec![] };
    let s = system(vec![body(10, Some("[N] -> { : N < 3}")), body(11, None)]);
    let r = Resolver::new(&s);
    let needed = world.set(&r.needed_in_body(&s.bodies[0], "x"));
    assert_eq!(
        needed.into_iter().collect::<Vec<Point>>(),
        vec![(1, 0), (2, 0), (2, 1)]
    );
}

#[test]
fn a_mention_is_compared_with_earlier_ones_of_its_variable() {
    let world = World::needed(&[(1, &[0, 1]), (2, &[1, 2]), (3, &[1, 5])]);
    let all = vec![mention("x", 1), mention("y", 2), mention("x", 3)];
    let none = |k: usize| mention_overlap(&all, k, at(0)).is_none();
    assert!(none(0));
    assert!(none(1));
    let shared = mention_overlap(&all, 2, at(0)).unwrap();
    assert_eq!(indices(world.set(&shared)), vec![1]);
    let written = written_by(&all, "x", at(0), 3).unwrap();
    assert_eq!(indices(world.set(&written)), vec![0, 1, 5]);
    assert!(written_by(&all, "z", at(0), 3).is_none());
}

#[test]
fn what_several_bodies_take_is_taken_together() {
    let world = World { kept: vec![] };
    let s = system(vec![
        body(10, Some("[N] -> { : N < 3}")),
        body(11, Some("[N] -> { : N > 1}")),
        body(12, Some("[N] -> { : N > 3}")),
    ]);
    let r = Resolver::new(&s);
    let both = r.shared_by_bodies(&vec![false, true, true]).unwrap();
    assert_eq!(parameters(world.set(&both)), vec![2, 4, 5]);
    let one = r.shared_by_bodies(&vec![false, false, true]).unwrap();
    assert_eq!(parameters(world.set(&one)), vec![4, 5]);
    assert!(r.shared_by_bodies(&vec![false, false, false]).is_none());
}

#[test]
fn what_several_mentions_write_and_what_none_writes() {
    let world = World::needed(&[(1, &[0, 1]), (2, &[1]), (3, &[1, 2]), (4, &[0, 1, 2, 3])]);
    let all = vec![
        mention("x", 1),
        mention("x", 2),
        mention("y", 4),
        mention("x", 3),
    ];
    let found = vec![false, true, true, true];
    let shared = shared_by_mentions(&all, "x", &found, at(0)).unwrap();
    assert_eq!(indices(world.set(&shared)), vec![1]);
    assert!(shared_by_mentions(&all, "y", &found, at(0)).is_none());

    let s = system(vec![]);
    let r = Resolver::new(&s);
    let missing = world.set(&r.unwritten(&all, "x", at(0)));
    let at_four: Vec<Point> = missing.into_iter().filter(|p| p.0 == 4).collect();
    assert_eq!(at_four, vec![(4, 3)]);
}

#[test]
fn a_read_follows_its_dependences_from_the_outermost() {
    let world = World::needed(&[(1, &[0, 1, 2]), (2, &[1, 2, 3]), (3, &[2, 4])]);
    let plain = access("x", 3, &[], false);
    assert_eq!(
        steps(world.map(&access_relation(&plain))),
        vec![(2, 2), (4, 4)]
    );
    let two = access("x", 3, &[(1, "next"), (2, "twice")], false);
    assert_eq!(
        steps(world.map(&access_relation(&two))),
        vec![(0, 2), (1, 4), (2, 6)]
    );
    assert_eq!(indices(world.set(&access_range(&two))), vec![2, 4, 6]);
    let turned = access("x", 3, &[(1, "twice"), (2, "next")], false);
    assert_eq!(
        steps(world.map(&access_relation(&turned))),
        vec![(1, 3)]
    );
}

#[test]
fn an_argument_of_a_call_is_read_where_it_is_defined() {
    let mut world = World::needed(&[(1, &[0])]);
    world
        .kept
        .push((Table::Argument, 1, [(4, 2), (4, 3)].into_iter().collect()));
    let a = access("x", 9, &[(1, "next")], true);
    assert_eq!(
        steps(world.map(&access_relation(&a))),
        vec![(2, 3), (3, 4)]
    );

    let s = system(vec![body(10, Some("[N] -> { : N < 3}")), body(11, None)]);
    let r = Resolver::new(&s);
    world
        .kept
        .push((Table::Domain, 1, [(1, 0), (4, 0)].into_iter().collect()));
    assert_eq!(
        parameters(world.set(&r.argument_domain(&s.bodies[0], 1))),
        vec![1]
    );
}

#[test]
fn a_read_is_compared_with_earlier_ones_of_its_variable() {
    let world = World::needed(&[(1, &[0, 1]), (2, &[1, 2]), (3, &[2])]);
    let all = vec![
        access("x", 0, &[(1, "next")], false),
        access("y", 2, &[], false),
        access("x", 3, &[], false),
    ];
    assert!(read_overlap(&all, 0).is_none());
    assert!(read_overlap(&all, 1).is_none());
    let shared = read_overlap(&all, 2).unwrap();
    assert_eq!(indices(world.set(&shared)), vec![2]);
    let taken = taken_by(&all, "x", at(0), 3).unwrap();
    assert_eq!(indices(world.set(&taken)), vec![1, 2]);
}

#[test]
fn what_no_read_takes_is_left_over() {
    let s = system(Vec::new());
    let r = Resolver::new(&s);
    let held = Held {
        name: "x".to_string(),
        at: at(2),
    };
    let world = World::needed(&[(1, &[0, 1, 3])]);
    let none: Vec<Access> = vec![];
    assert_eq!(world.set(&r.left_over(&held, &none)).len(), 15);
    let left = world.set(&r.left_over(&held, &vec![access("x", 1, &[], false)]));
    assert_eq!(left.len(), 12);
    assert!(left.contains(&(4, 2)));
    assert!(!left.contains(&(4, 3)));
}

#[test]
fn the_branches_of_a_choice_are_compared_by_what_they_take() {
    let world = World::needed(&[(1, &[0, 1]), (2, &[0]), (3, &[1]), (4, &[0, 1])]);
    let first = vec![access("x", 1, &[], false), access("y", 4, &[], false)];
    let second = vec![access("x", 2, &[], false), access("x", 3, &[], false)];
    let side = |all: &Vec<Access>| branch_side(all, "x", at(0)).map(|t| world.map(&t));
    assert_eq!(side(&first), side(&second));
    assert!(branch_side(&second, "y", at(0)).is_none());
    let swapped = vec![access("x", 9, &[(4, "first")], false)];
    assert_ne!(side(&first), side(&swapped));
}

#[test]
fn operands_share_what_both_take_at_one_point() {
    let world = World::needed(&[(1, &[0, 1, 2]), (2, &[0, 1, 2])]);
    let same = access("x", 1, &[], false);
    let next = access("x", 9, &[(2, "next")], false);
    let twice = access("x", 9, &[(2, "twice")], false);
    assert!(world.map(&common_part(&same, &next)).is_empty());
    assert_eq!(
        steps(world.map(&common_part(&same, &twice))),
        vec![(0, 0)]
    );
    assert_eq!(
        steps(world.map(&common_part(&next, &twice))),
        vec![(1, 2)]
    );
}
