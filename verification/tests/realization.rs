use alpha::error::{CodegenError, IslError};
use alpha::ir::{
    Access, AffineFunction, Domain, Equation, OperationCall, System, SystemBody, Variable,
};
use alpha::multiplicity::Multiplicity;
use alpha::operation::RegisteredOperation;
use alpha::realize::{
    access_lane_map, common_lane_map, count_lanes, expected_points, find_exit, held_points, infer,
    operation_calls, resolve_access, root_lane_map, shared_with, system_variables, taken_by_sink,
    CallAnswers, EdgeAnswer, EntryOccupancy, ExitOccupancy, Extent, FlowEdge, FlowFacts, FlowSink,
    LaneAnswer, LogicalLaneMap, Propagation, Realization, ResolvedAccess, ResourceGroupId,
    RootDomain, RootFacts, RootKind, SinkKind,
};
use alpha::relation::{Region, Relation};
use alpha::stmt::{statements, Statement};
use alpha::ty::ElementType;

fn extent(lo: i64, hi: i64) -> Extent {
    Extent {
        minimum: Ok(Some(lo)),
        maximum: Ok(Some(hi)),
    }
}

fn domain(text: &str, extents: Vec<Extent>) -> RootDomain {
    RootDomain {
        text: text.to_string(),
        rectangular: Ok(true),
        extents,
        not_injective: Ok(None),
    }
}

/// The points of a variable as its lanes.
fn lanes_of(variable: &str) -> Relation {
    Relation::Lanes(variable.to_string(), vec![])
}

fn message(r: Result<Realization, CodegenError>) -> String {
    match r {
        Ok(_) => panic!("expected an error"),
        Err(e) => e.to_text(),
    }
}

type Index = Vec<i64>;
type Pairs = Vec<(Index, Index)>;

/// What texts stand for at certain parameter values, and the flow of the resources there.
struct World {
    sets: Vec<(&'static str, Vec<Index>)>,
    functions: Vec<(&'static str, fn(&[i64]) -> Index)>,
    roots: Vec<(&'static str, RootKind, &'static str)>,
    edges: Vec<(FlowEdge, Pairs)>,
    sinks: Vec<(FlowSink, Vec<Index>)>,
}

fn followed(left: &Pairs, right: &Pairs) -> Pairs {
    let mut out: Pairs = vec![];
    for (x, y) in left {
        for (z, w) in right {
            if y == z && !out.contains(&(x.clone(), w.clone())) {
                out.push((x.clone(), w.clone()));
            }
        }
    }
    out
}

fn joined<T: Clone + PartialEq>(mut left: Vec<T>, right: Vec<T>) -> Vec<T> {
    for x in right {
        if !left.contains(&x) {
            left.push(x);
        }
    }
    left
}

fn common<T: Clone + PartialEq>(left: Vec<T>, right: Vec<T>) -> Vec<T> {
    left.into_iter().filter(|x| right.contains(x)).collect()
}

fn same<T: Clone + Ord>(mut left: Vec<T>, mut right: Vec<T>) -> bool {
    left.sort();
    left.dedup();
    right.sort();
    right.dedup();
    left == right
}

impl World {
    fn set(&self, text: &str) -> Vec<Index> {
        let found = self.sets.iter().find(|(t, _)| *t == text);
        found.unwrap_or_else(|| panic!("no set {text}")).1.clone()
    }

    fn points(&self, r: &Region) -> Vec<Index> {
        match r {
            Region::Read(text) => self.set(text),
            Region::Both(a, b) => common(self.points(a), self.points(b)),
            Region::At(a, _) => self.points(a),
            Region::Union(a, b) => joined(self.points(a), self.points(b)),
            Region::Domain(a) => self.pairs(a).into_iter().map(|p| p.0).collect(),
        }
    }

    fn pairs(&self, r: &Relation) -> Pairs {
        match r {
            Relation::Lanes(text, single) => self
                .set(text)
                .into_iter()
                .map(|p| {
                    let kept = (0..p.len()).filter(|d| !single.contains(d));
                    let lane = kept.map(|d| p[d]).collect();
                    (p, lane)
                })
                .collect(),
            Relation::Edge(k) => self.edges[*k].1.clone(),
            Relation::Sink(k) => self.sinks[*k]
                .1
                .iter()
                .map(|p| (p.clone(), vec![]))
                .collect(),
            Relation::Within(a, region) => {
                let points = self.points(region);
                match &**a {
                    Relation::Function(text) => {
                        let f = self.functions.iter().find(|(t, _)| t == text).unwrap().1;
                        points.into_iter().map(|p| (p.clone(), f(&p))).collect()
                    }
                    a => self
                        .pairs(a)
                        .into_iter()
                        .filter(|p| points.contains(&p.0))
                        .collect(),
                }
            }
            Relation::At(a, _) => self.pairs(a),
            Relation::Reverse(a) => self.pairs(a).into_iter().map(|(x, y)| (y, x)).collect(),
            Relation::Compose(a, b) => followed(&self.pairs(a), &self.pairs(b)),
            Relation::Both(a, b) => common(self.pairs(a), self.pairs(b)),
            Relation::Union(a, b) => joined(self.pairs(a), self.pairs(b)),
            Relation::Closure(a) => {
                let step = self.pairs(a);
                let mut out = step.clone();
                loop {
                    let more = joined(out.clone(), followed(&out, &step));
                    if more.len() == out.len() {
                        return out;
                    }
                    out = more;
                }
            }
            other => panic!("unexpected {other:?}"),
        }
    }

    fn root_domain(&self, text: &str) -> RootDomain {
        let points = self.set(text);
        let bounds: Vec<(i64, i64)> = (0..points[0].len())
            .map(|d| {
                let of = || points.iter().map(|p| p[d]);
                (of().min().unwrap(), of().max().unwrap())
            })
            .collect();
        let volume: i64 = bounds.iter().map(|(lo, hi)| hi - lo + 1).product();
        let mut d = domain(text, bounds.iter().map(|(lo, hi)| extent(*lo, *hi)).collect());
        d.rectangular = Ok(volume == points.len() as i64);
        d
    }

    fn follow(&self, p: &Propagation, edges: &Vec<FlowEdge>) -> EdgeAnswer {
        let term = p.candidate(edges);
        let all = self.pairs(&term);
        let single = all
            .iter()
            .all(|(x, y)| all.iter().all(|(z, w)| x != z || y == w));
        EdgeAnswer {
            exact: Ok(true),
            conflict: Ok(match p.joined(edges) {
                Some((a, b)) => !same(self.pairs(&a), self.pairs(&b)),
                None => false,
            }),
            single_lane: Ok(single),
            grows: Ok(match &term {
                Relation::Union(before, _) => !same(self.pairs(before), all.clone()),
                _ => false,
            }),
        }
    }

    fn call(
        &self,
        s: &Statement,
        call: &OperationCall,
        point: &String,
        held: &Vec<LogicalLaneMap>,
    ) -> CallAnswers {
        assert!(!s.name.is_empty());
        let lanes = |list: &[Access]| -> Vec<Vec<LaneAnswer>> {
            list.iter()
                .map(|a| {
                    held.iter()
                        .map(|l| {
                            let used = self.pairs(&access_lane_map(call, a, point, l));
                            if l.variable != a.variable || used.is_empty() {
                                LaneAnswer::Empty
                            } else {
                                LaneAnswer::Lane
                            }
                        })
                        .collect()
                })
                .collect()
        };
        let inputs = lanes(&call.inputs);
        let used: Vec<Option<ResolvedAccess>> = call
            .inputs
            .iter()
            .zip(&inputs)
            .map(|(a, found)| {
                resolve_access(held, call.operation.name(), &a.variable, found)
                    .ok()
                    .flatten()
            })
            .collect();
        let meet = |i: usize, j: usize| match (used[i], used[j]) {
            (Some(a), Some(b)) => {
                let term = common_lane_map(call, i, j, point, &held[a.lane], &held[b.lane]);
                !self.pairs(&term).is_empty()
            }
            _ => false,
        };
        CallAnswers {
            failure: None,
            outputs: lanes(&call.outputs),
            shared: (0..used.len())
                .map(|i| (0..used.len()).map(|j| Ok(meet(i, j))).collect())
                .collect(),
            inputs,
        }
    }

    /// Everything that is asked about a system, answered on its points.
    fn facts(&self, system: &System) -> FlowFacts {
        let point = "[N] -> { : N = 2 }".to_string();
        let edge_list: Vec<FlowEdge> = self
            .edges
            .iter()
            .map(|(e, _)| edge(&e.statement, &e.input, &e.output))
            .collect();
        let sink_list: Vec<FlowSink> = self
            .sinks
            .iter()
            .map(|(s, _)| sink(&s.variable, s.kind))
            .collect();
        let mut held: Vec<LogicalLaneMap> = vec![];
        let mut roots: Vec<RootFacts> = vec![];
        for (variable, kind, text) in &self.roots {
            let d = self.root_domain(text);
            let mut facts = RootFacts {
                variable: variable.to_string(),
                kind: *kind,
                domain: Ok(self.root_domain(text)),
                steps: vec![],
                overlaps: vec![],
                sinks: sink_list.iter().map(|_| Ok(true)).collect(),
            };
            if let Ok((single, _)) = root_lane_map(&d) {
                let start = Relation::Lanes(text.to_string(), single);
                let mut p = Propagation::start(variable, start, &edge_list);
                while p.next(&edge_list).is_some() {
                    let a = self.follow(&p, &edge_list);
                    let going = p.answer(&edge_list, &a).is_ok();
                    facts.steps.push(a);
                    if !going {
                        break;
                    }
                }
                for (k, s) in sink_list.iter().enumerate() {
                    if let Some(i) = p.reached.iter().position(|n| *n == s.variable) {
                        let taken = self.points(&taken_by_sink(&p.maps[i], k));
                        facts.sinks[k] = Ok(taken.is_empty());
                    }
                }
                for (name, map) in p.reached.iter().zip(&p.maps) {
                    let shared = shared_with(&held, name, map);
                    facts
                        .overlaps
                        .push(Ok(shared.is_some_and(|r| !self.points(&r).is_empty())));
                    held.push(LogicalLaneMap {
                        variable: name.clone(),
                        group: ResourceGroupId(roots.len()),
                        relation: map.clone(),
                    });
                }
            }
            roots.push(facts);
        }
        let all = statements(system).unwrap();
        FlowFacts {
            uncovered: system_variables(system)
                .into_iter()
                .map(|v| {
                    let expected = self.points(&expected_points(v, &point));
                    Ok(match held_points(&held, &v.name) {
                        Some(r) if !same(self.points(&r), expected.clone()) => {
                            Some("something".to_string())
                        }
                        _ => None,
                    })
                })
                .collect(),
            calls: operation_calls(&all)
                .into_iter()
                .map(|(id, call)| self.call(&all[id.0], call, &point, &held))
                .collect(),
            roots,
            edges: edge_list,
            sinks: sink_list,
        }
    }

    fn infer(&self, system: &System) -> Result<Realization, CodegenError> {
        infer(system, &statements(system).unwrap(), &self.facts(system))
    }
}

fn sink(variable: &str, kind: SinkKind) -> FlowSink {
    FlowSink {
        variable: variable.to_string(),
        kind,
    }
}

fn variable(name: &str, text: &str, ndims: u32, resource: bool) -> Variable {
    Variable {
        name: name.to_string(),
        domain: Domain {
            text: text.to_string(),
            ndims,
            mins: (0..ndims).map(|_| Ok("0".to_string())).collect(),
            maxs: (0..ndims).map(|_| Ok("N - 1".to_string())).collect(),
            nest: Ok(vec![]),
        },
        element_type: if resource {
            ElementType::Qubit
        } else {
            ElementType::Bool
        },
        multiplicity: if resource {
            Multiplicity::Linear
        } else {
            Multiplicity::Unrestricted
        },
    }
}

fn access(variable: &str, function: &str, n_in: u32) -> Access {
    Access {
        variable: variable.to_string(),
        function: AffineFunction {
            text: function.to_string(),
            n_in,
            outputs: vec![],
        },
    }
}

fn call(
    operation: RegisteredOperation,
    text: &str,
    ndims: u32,
    inputs: Vec<Access>,
    outputs: Vec<Access>,
) -> Equation {
    Equation::OperationCall(OperationCall {
        operation,
        domain: text.to_string(),
        ndims,
        inputs,
        outputs,
    })
}

fn system(
    inputs: Vec<Variable>,
    outputs: Vec<Variable>,
    locals: Vec<Variable>,
    equations: Vec<Equation>,
) -> System {
    System {
        name: "S".to_string(),
        params: vec![Some("N".to_string())],
        inputs,
        outputs,
        locals,
        bodies: vec![SystemBody {
            guard: "1".to_string(),
            equations,
            params: vec![Some("N".to_string())],
        }],
        validity: Ok("N >= 1".to_string()),
    }
}

const LINE: &str = "[N] -> { [i] : 0 <= i < N }";
const ID: &str = "[N] -> { [i] -> [i] }";

fn line(n: i64) -> Vec<Index> {
    (0..n).map(|i| vec![i]).collect()
}

fn along(points: Vec<Index>) -> Pairs {
    points.into_iter().map(|p| (p.clone(), p)).collect()
}

#[test]
fn repeated_chain_uses_one_lane_per_root_point() {
    const ALL: &str = "[T,N] -> { [t,i] : 0 <= t < T and 0 <= i < N }";
    const FIRST: &str = "[T,N] -> { [t,i] : t = 0 and 0 <= i < N }";
    const LATER: &str = "[T,N] -> { [t,i] : 0 < t < T and 0 <= i < N }";
    let grid = |from: i64, to: i64| -> Vec<Index> {
        (from..to)
            .flat_map(|t| (0..4).map(move |i| vec![t, i]))
            .collect()
    };
    let w = World {
        sets: vec![
            (ALL, grid(0, 3)),
            (FIRST, grid(0, 1)),
            (LATER, grid(1, 3)),
            (LINE, line(4)),
        ],
        functions: vec![
            ("same", |p| p.to_vec()),
            ("before", |p| vec![p[0] - 1, p[1]]),
            ("last", |p| vec![2, p[0]]),
        ],
        roots: vec![("Q", RootKind::OperationOutput, FIRST)],
        edges: vec![(
            edge("Q__call1", "Q", "Q"),
            grid(0, 2)
                .into_iter()
                .map(|p| (p.clone(), vec![p[0] + 1, p[1]]))
                .collect(),
        )],
        sinks: vec![(sink("Q", SinkKind::OperationInput), grid(2, 3))],
    };
    let s = system(
        vec![],
        vec![variable("M", LINE, 1, false)],
        vec![variable("Q", ALL, 2, true)],
        vec![
            call(
                RegisteredOperation::QAlloc,
                FIRST,
                2,
                vec![],
                vec![access("Q", "same", 2)],
            ),
            call(
                RegisteredOperation::H,
                LATER,
                2,
                vec![access("Q", "before", 2)],
                vec![access("Q", "same", 2)],
            ),
            call(
                RegisteredOperation::Measure,
                LINE,
                1,
                vec![access("Q", "last", 1)],
                vec![access("M", "same", 1)],
            ),
        ],
    );
    let r = w.infer(&s).unwrap();
    assert_eq!(r.groups.len(), 1);
    assert_eq!(r.groups[0].shape, vec![4]);
    assert_eq!(r.groups[0].size, 4);
    assert_eq!(r.groups[0].entry, EntryOccupancy::Empty);
    assert_eq!(r.groups[0].exit, ExitOccupancy::Empty);
    let mut mapped = w.pairs(r.logical_lane_map("Q").unwrap());
    mapped.sort();
    let expected: Pairs = grid(0, 3).into_iter().map(|p| (p.clone(), vec![p[1]])).collect();
    assert_eq!(mapped, expected);
    assert!(r.logical_lane_map("M").is_none());
    let numbers: Vec<usize> = r.operations.iter().map(|o| o.statement.0).collect();
    assert_eq!(numbers, vec![0, 1, 2]);
    assert_eq!((r.operations[0].inputs.len(), r.operations[0].outputs.len()), (0, 1));
    assert_eq!((r.operations[2].inputs.len(), r.operations[2].outputs.len()), (1, 0));
}

/// One gate from `Q0` to `Q1` on a line of points.
fn boundary(n: i64) -> (World, System) {
    let w = World {
        sets: vec![(LINE, line(n))],
        functions: vec![(ID, |p| p.to_vec())],
        roots: vec![("Q0", RootKind::SystemInput, LINE)],
        edges: vec![(edge("Q1__call0", "Q0", "Q1"), along(line(n)))],
        sinks: vec![(sink("Q1", SinkKind::SystemOutput), line(n))],
    };
    let s = system(
        vec![variable("Q0", LINE, 1, true)],
        vec![variable("Q1", LINE, 1, true)],
        vec![],
        vec![call(
            RegisteredOperation::H,
            LINE,
            1,
            vec![access("Q0", ID, 1)],
            vec![access("Q1", ID, 1)],
        )],
    );
    (w, s)
}

#[test]
fn rejects_non_rectangular_root_domains() {
    const TRIANGLE: &str = "[N] -> { [i,j] : 0 <= i < N and 0 <= j <= i }";
    let points: Vec<Index> = (0..3)
        .flat_map(|i| (0..i + 1).map(move |j| vec![i, j]))
        .collect();
    let w = World {
        sets: vec![(TRIANGLE, points.clone())],
        functions: vec![(ID, |p| p.to_vec())],
        roots: vec![("Q0", RootKind::SystemInput, TRIANGLE)],
        edges: vec![(edge("Q1__call0", "Q0", "Q1"), along(points.clone()))],
        sinks: vec![(sink("Q1", SinkKind::SystemOutput), points)],
    };
    let s = system(
        vec![variable("Q0", TRIANGLE, 2, true)],
        vec![variable("Q1", TRIANGLE, 2, true)],
        vec![],
        vec![call(
            RegisteredOperation::H,
            TRIANGLE,
            2,
            vec![access("Q0", ID, 2)],
            vec![access("Q1", ID, 2)],
        )],
    );
    let error = message(w.infer(&s));
    assert!(error.contains("not rectangular"), "{error}");
}

#[test]
fn system_boundaries_remain_occupied() {
    let (w, s) = boundary(3);
    let r = w.infer(&s).unwrap();
    assert_eq!(r.groups.len(), 1);
    assert_eq!(r.groups[0].shape, vec![3]);
    assert_eq!(r.groups[0].entry, EntryOccupancy::Occupied);
    assert_eq!(r.groups[0].exit, ExitOccupancy::Occupied);
}

/// A gate on two lines of qubits.
fn gates() -> (World, System) {
    let w = World {
        sets: vec![(LINE, line(2))],
        functions: vec![(ID, |p| p.to_vec())],
        roots: vec![
            ("Q0", RootKind::SystemInput, LINE),
            ("R0", RootKind::SystemInput, LINE),
        ],
        edges: vec![
            (edge("Q1__call0", "Q0", "Q1"), along(line(2))),
            (edge("Q1__call0", "R0", "R1"), along(line(2))),
        ],
        sinks: vec![
            (sink("Q1", SinkKind::SystemOutput), line(2)),
            (sink("R1", SinkKind::SystemOutput), line(2)),
        ],
    };
    let s = system(
        vec![variable("Q0", LINE, 1, true), variable("R0", LINE, 1, true)],
        vec![variable("Q1", LINE, 1, true), variable("R1", LINE, 1, true)],
        vec![],
        vec![call(
            RegisteredOperation::Cx,
            LINE,
            1,
            vec![access("Q0", ID, 1), access("R0", ID, 1)],
            vec![access("Q1", ID, 1), access("R1", ID, 1)],
        )],
    );
    (w, s)
}

#[test]
fn cx_preserves_two_distinct_resource_groups() {
    let (w, s) = gates();
    let r = w.infer(&s).unwrap();
    assert_eq!(r.groups.len(), 2);
    assert_eq!(r.operations.len(), 1);
    assert_eq!(r.operations[0].statement.0, 0);
    assert_eq!(r.operations[0].inputs.len(), 2);
    assert_eq!(r.operations[0].outputs.len(), 2);
    assert!(r
        .groups
        .iter()
        .all(|group| group.shape == vec![2] && group.size == 2));
    let group_of = |name: &str| {
        r.logical_to_lane
            .iter()
            .find(|mapping| mapping.variable == name)
            .unwrap()
            .group
    };
    assert_ne!(group_of("Q0"), group_of("R0"));
}

#[test]
fn rejects_operands_that_realize_to_the_same_lane() {
    let (w, mut s) = gates();
    let Equation::OperationCall(made) = &mut s.bodies[0].equations[0] else {
        panic!("expected operation call");
    };
    made.inputs[1] = access("Q0", ID, 1);
    let error = message(w.infer(&s));
    assert!(error.contains("aliased resource operands"), "{error}");
}

#[test]
fn rejects_mixed_sink_occupancy_within_a_group() {
    let (mut w, s) = boundary(2);
    w.sinks.push((sink("Q1", SinkKind::OperationInput), line(2)));
    let error = message(w.infer(&s));
    assert!(error.contains("mixed sink occupancy"), "{error}");
}

#[test]
fn only_calls_of_operations_are_resolved_in_the_order_of_the_statements() {
    let (_, mut s) = gates();
    let more = call(
        RegisteredOperation::Discard,
        LINE,
        1,
        vec![access("Q1", ID, 1)],
        vec![],
    );
    s.bodies[0].equations.push(more);
    let all = statements(&s).unwrap();
    let found = operation_calls(&all);
    assert_eq!(found.len(), 2);
    assert_eq!(found[0].0 .0, 0);
    assert_eq!(found[1].0 .0, 1);
    assert_eq!(found[1].1.operation, RegisteredOperation::Discard);
}

#[test]
fn accesses_that_meet_several_trajectories_are_refused() {
    let (w, s) = boundary(2);
    let all = statements(&s).unwrap();
    let held = |group: usize| LogicalLaneMap {
        variable: "Q0".to_string(),
        group: ResourceGroupId(group),
        relation: lanes_of(LINE),
    };
    let lanes = vec![held(0), held(1)];
    let both = vec![LaneAnswer::Lane, LaneAnswer::Lane];
    let error = resolve_access(&lanes, "h", "Q0", &both).err().unwrap().to_text();
    assert!(
        error.contains("operation 'h' access to 'Q0' resolves to 2 trajectories"),
        "{error}"
    );
    let piecewise = vec![LaneAnswer::Piecewise, LaneAnswer::Empty];
    let error = resolve_access(&lanes, "h", "Q0", &piecewise).err().unwrap().to_text();
    assert!(error.contains("piecewise lane expression"), "{error}");
    let mut facts = w.facts(&s);
    facts.calls[0].inputs[0][0] = LaneAnswer::Piecewise;
    let error = message(infer(&s, &all, &facts));
    assert!(error.contains("operation 'h' has a piecewise lane expression"), "{error}");
}

#[test]
fn every_resource_must_be_covered_once() {
    let (w, mut s) = gates();
    s.locals = vec![variable("W", LINE, 1, true)];
    let error = message(w.infer(&s));
    assert!(error.contains("resource 'W' is unreachable"), "{error}");

    let (w, s) = gates();
    let all = statements(&s).unwrap();
    let mut facts = w.facts(&s);
    facts.uncovered[0] = Ok(Some("{ [1] }".to_string()));
    let error = message(infer(&s, &all, &facts));
    assert!(
        error.contains("resource 'Q0' has incomplete trajectory coverage: { [1] }"),
        "{error}"
    );

    let (mut w, s) = gates();
    w.roots[1].0 = "Q0";
    let error = message(w.infer(&s));
    assert!(
        error.contains("multiple trajectories cover resource 'Q0'"),
        "{error}"
    );

    let sinks = vec![sink("W", SinkKind::SystemOutput), sink("Q0", SinkKind::SystemOutput)];
    let reached = vec!["Q0".to_string()];
    let error = find_exit("Q0", &sinks, &reached, &vec![Ok(false), Ok(true)])
        .err()
        .unwrap()
        .to_text();
    assert!(
        error.contains("trajectory rooted at 'Q0' has no sink"),
        "{error}"
    );
}

#[test]
fn root_domains_are_boxes_that_start_at_zero() {
    let d = domain("D", vec![extent(5, 5), extent(0, 2), extent(0, 3)]);
    assert_eq!(root_lane_map(&d).unwrap(), (vec![0], vec![3, 4]));
    let text = |d: RootDomain| root_lane_map(&d).err().unwrap().to_text();
    assert!(text(domain("D", vec![extent(1, 2)])).contains("root domain is not zero-based: D"));
    let open = |lower: bool| {
        let mut e = extent(0, 2);
        if lower {
            e.minimum = Ok(None);
        } else {
            e.maximum = Ok(None);
        }
        domain("D", vec![e])
    };
    assert!(text(open(true)).contains("non-constant lower bound"));
    assert!(text(open(false)).contains("non-constant upper bound"));
    let mut folded = domain("D", vec![extent(0, 2)]);
    folded.not_injective = Ok(Some("{ [i] -> [0] }".to_string()));
    assert!(text(folded).contains("root-to-lane map is not injective: { [i] -> [0] }"));
    let mut broken = domain("D", vec![extent(0, 2)]);
    broken.rectangular = Err(IslError {
        message: "no answer".to_string(),
    });
    assert!(matches!(root_lane_map(&broken), Err(CodegenError::Isl(_))));
}

#[test]
fn the_size_of_a_group_is_a_product() {
    assert_eq!(count_lanes(&vec![3, 4, 5]), Some(60));
    assert_eq!(count_lanes(&vec![]), Some(1));
    assert_eq!(count_lanes(&vec![u64::MAX, 2]), None);
}

fn edge(statement: &str, input: &str, output: &str) -> FlowEdge {
    FlowEdge {
        statement: statement.to_string(),
        input: input.to_string(),
        output: output.to_string(),
    }
}

fn plain(grows: bool) -> EdgeAnswer {
    EdgeAnswer {
        exact: Ok(true),
        conflict: Ok(false),
        single_lane: Ok(true),
        grows: Ok(grows),
    }
}

#[test]
fn propagation_follows_edges_until_nothing_grows() {
    let edges = vec![edge("second", "B", "C"), edge("first", "A", "B")];
    let mut p = Propagation::start("A", lanes_of("A"), &edges);
    let mut followed: Vec<usize> = vec![];
    while let Some(k) = p.next(&edges) {
        followed.push(k);
        let new = !p.reached.contains(&edges[k].output);
        p.answer(&edges, &plain(new)).unwrap();
    }
    assert_eq!(p.reached, vec!["A", "B", "C"]);
    assert_eq!(followed[0], 1);
    assert!(followed.contains(&0));
}

#[test]
fn lanes_must_stay_single_and_consistent() {
    let edges = vec![edge("step", "A", "A")];
    let fail = |a: EdgeAnswer| {
        let mut p = Propagation::start("A", lanes_of("A"), &edges);
        assert_eq!(p.next(&edges), Some(0));
        p.answer(&edges, &a).err().unwrap().to_text()
    };
    let mut a = plain(false);
    a.exact = Ok(false);
    assert!(fail(a).contains("continuity closure for 'step' is not exact"));
    let mut a = plain(false);
    a.conflict = Ok(true);
    assert!(fail(a).contains("continuity join for 'A' assigns conflicting lanes"));
    let mut a = plain(false);
    a.single_lane = Ok(false);
    assert!(fail(a).contains("resource 'A' maps one logical point to multiple lanes"));
}
