//! A whole source file: its systems, the signatures of what they can call, and all that is
//! reported of it.
use crate::analyze::{
    analyze_system_with_signatures, answers_ok, system_report, world_of, SystemAnswers,
};
use crate::diagnostic::{issue, issues, report, Diagnostic, Issue, IssueKind, SyntaxError};
use crate::linearity::{is_operation, World};
use crate::multiplicity::Multiplicity;
use crate::operation::registered_operation;
use crate::scan::{count_value, parse_usize};
use crate::syntax::{Decl, ExternalFunction, Name, Package, System};
use crate::text::{cat3, chars_of, join, joined, views};
use crate::uniqueness::{check_shared_names, shared_clashes};
use vstd::prelude::*;

verus! {

/// The multiplicities of what goes into a call and of what comes out.
#[derive(Debug)]
pub struct PortSignature {
    pub inputs: Vec<Multiplicity>,
    pub outputs: Vec<Multiplicity>,
}

/// A [`PortSignature`] as a mathematical value.
pub struct PortModel {
    pub inputs: Seq<Multiplicity>,
    pub outputs: Seq<Multiplicity>,
}

impl View for PortSignature {
    type V = PortModel;

    open spec fn view(&self) -> PortModel {
        PortModel { inputs: self.inputs@, outputs: self.outputs@ }
    }
}

pub open spec fn signature_views(v: Seq<(String, PortSignature)>) -> Seq<(Seq<char>, PortModel)> {
    Seq::new(v.len(), |i: int| (v[i].0@, v[i].1@))
}

pub open spec fn system_views(v: Seq<(String, &System)>) -> Seq<(Seq<char>, System)> {
    Seq::new(v.len(), |i: int| (v[i].0@, *v[i].1))
}

/// A name inside a scope.
pub open spec fn scoped(scope: Seq<char>, name: Seq<char>) -> Seq<char> {
    if scope.len() == 0 {
        name
    } else {
        scope + "."@ + name
    }
}

fn in_scope(scope: &str, name: &str) -> (r: String)
    ensures
        r@ == scoped(scope@, name@),
{
    let v = chars_of(scope);
    if v.len() == 0 {
        name.to_owned()
    } else {
        cat3(scope, ".", name)
    }
}

/// The number of arguments that a declaration gives; none, where it is not a number that fits.
pub open spec fn argument_count(text: Seq<char>) -> nat {
    match count_value(text) {
        Some(n) => if 0 <= n <= usize::MAX {
            n as nat
        } else {
            0
        },
        None => 0,
    }
}

/// The ports of an external function. A number of arguments stands for that many unrestricted
/// ones and one unrestricted result.
pub open spec fn external_ports(f: ExternalFunction) -> PortModel {
    match f.cardinality {
        Some(text) => PortModel {
            inputs: Seq::new(argument_count(text@), |i: int| Multiplicity::Unrestricted),
            outputs: seq![Multiplicity::Unrestricted],
        },
        None => PortModel { inputs: f.inputs@, outputs: f.outputs@ },
    }
}

pub open spec fn decl_multiplicity(d: Decl) -> Multiplicity {
    if d.linear {
        Multiplicity::Linear
    } else {
        Multiplicity::Unrestricted
    }
}

/// The multiplicities of the variables of a section, each as it is written.
pub open spec fn section_ports(decls: Seq<Decl>) -> Seq<Multiplicity>
    decreases decls.len(),
{
    if decls.len() == 0 {
        Seq::empty()
    } else if decls.last().fuzzy {
        section_ports(decls.drop_last())
    } else {
        section_ports(decls.drop_last()).push(decl_multiplicity(decls.last()))
    }
}

pub open spec fn system_ports(s: System) -> PortModel {
    PortModel { inputs: section_ports(s.inputs@), outputs: section_ports(s.outputs@) }
}

pub open spec fn external_signatures(scope: Seq<char>, v: Seq<ExternalFunction>) -> Seq<
    (Seq<char>, PortModel),
>
    decreases v.len(),
{
    if v.len() == 0 {
        Seq::empty()
    } else {
        let before = external_signatures(scope, v.drop_last());
        match v.last().name {
            Some(n) => before.push((scoped(scope, n.text@), external_ports(v.last()))),
            None => before,
        }
    }
}

pub open spec fn system_signatures(scope: Seq<char>, v: Seq<System>) -> Seq<
    (Seq<char>, PortModel),
>
    decreases v.len(),
{
    if v.len() == 0 {
        Seq::empty()
    } else {
        let before = system_signatures(scope, v.drop_last());
        match v.last().name {
            Some(n) => before.push((scoped(scope, n.text@), system_ports(v.last()))),
            None => before,
        }
    }
}

/// The named systems of a list, with the scope they stand in.
pub open spec fn named_systems(scope: Seq<char>, v: Seq<System>) -> Seq<(Seq<char>, System)>
    decreases v.len(),
{
    if v.len() == 0 {
        Seq::empty()
    } else {
        let before = named_systems(scope, v.drop_last());
        if v.last().name is Some {
            before.push((scope, v.last()))
        } else {
            before
        }
    }
}

pub open spec fn package_scope(scope: Seq<char>, p: Package) -> Seq<char> {
    scoped(
        scope,
        match p.name {
            Some(segments) => joined(views(segments@), "."@),
            None => Seq::empty(),
        },
    )
}

/// The signatures of a package, then those of the packages inside it. The last of a name counts.
pub open spec fn signatures_in(scope: Seq<char>, p: Package) -> Seq<(Seq<char>, PortModel)>
    decreases p, 0int,
{
    external_signatures(scope, p.externals@) + system_signatures(scope, p.systems@)
        + signatures_in_first(scope, p.packages, p.packages@.len())
}

pub open spec fn signatures_in_first(scope: Seq<char>, v: Vec<Package>, n: nat) -> Seq<
    (Seq<char>, PortModel),
>
    decreases v, n,
{
    if n == 0 || n > v@.len() {
        Seq::empty()
    } else {
        signatures_in_first(scope, v, (n - 1) as nat) + signatures_in(
            package_scope(scope, v@[n - 1]),
            v@[n - 1],
        )
    }
}

/// The systems of a package, then those of the packages inside it.
pub open spec fn scoped_systems(scope: Seq<char>, p: Package) -> Seq<(Seq<char>, System)>
    decreases p, 0int,
{
    named_systems(scope, p.systems@) + scoped_systems_first(scope, p.packages, p.packages@.len())
}

pub open spec fn scoped_systems_first(scope: Seq<char>, v: Vec<Package>, n: nat) -> Seq<
    (Seq<char>, System),
>
    decreases v, n,
{
    if n == 0 || n > v@.len() {
        Seq::empty()
    } else {
        scoped_systems_first(scope, v, (n - 1) as nat) + scoped_systems(
            package_scope(scope, v@[n - 1]),
            v@[n - 1],
        )
    }
}

fn unrestricted(count: usize) -> (r: Vec<Multiplicity>)
    ensures
        r@ == Seq::new(count as nat, |i: int| Multiplicity::Unrestricted),
{
    let mut out: Vec<Multiplicity> = Vec::new();
    let mut i: usize = 0;
    while i < count
        invariant
            i <= count,
            out@ =~= Seq::new(i as nat, |i: int| Multiplicity::Unrestricted),
        decreases count - i,
    {
        out.push(Multiplicity::Unrestricted);
        i += 1;
    }
    out
}

fn copy_ports(v: &Vec<Multiplicity>) -> (r: Vec<Multiplicity>)
    ensures
        r@ == v@,
{
    let mut out: Vec<Multiplicity> = Vec::new();
    let mut i: usize = 0;
    while i < v.len()
        invariant
            i <= v@.len(),
            out@ =~= v@.take(i as int),
        decreases v@.len() - i,
    {
        out.push(v[i]);
        i += 1;
    }
    out
}

fn ports_of_external(f: &ExternalFunction) -> (r: PortSignature)
    ensures
        r@ == external_ports(*f),
{
    match &f.cardinality {
        Some(text) => {
            let count: usize = match parse_usize(text.as_str()) {
                Some(n) => n,
                None => 0,
            };
            let mut outputs: Vec<Multiplicity> = Vec::new();
            outputs.push(Multiplicity::Unrestricted);
            proof {
                assert(outputs@ =~= seq![Multiplicity::Unrestricted]);
            }
            PortSignature { inputs: unrestricted(count), outputs }
        },
        None => PortSignature { inputs: copy_ports(&f.inputs), outputs: copy_ports(&f.outputs) },
    }
}

fn ports_of_section(decls: &Vec<Decl>) -> (r: Vec<Multiplicity>)
    ensures
        r@ == section_ports(decls@),
{
    let mut out: Vec<Multiplicity> = Vec::new();
    let mut i: usize = 0;
    while i < decls.len()
        invariant
            i <= decls@.len(),
            out@ == section_ports(decls@.take(i as int)),
        decreases decls@.len() - i,
    {
        proof {
            let t = decls@.take(i + 1);
            assert(t.drop_last() =~= decls@.take(i as int));
            assert(t.last() == decls@[i as int]);
        }
        if !decls[i].fuzzy {
            if decls[i].linear {
                out.push(Multiplicity::Linear);
            } else {
                out.push(Multiplicity::Unrestricted);
            }
        }
        i += 1;
    }
    proof {
        assert(decls@.take(decls@.len() as int) =~= decls@);
    }
    out
}

fn push_signature(out: &mut Vec<(String, PortSignature)>, name: String, ports: PortSignature)
    ensures
        signature_views(final(out)@) == signature_views(old(out)@).push((name@, ports@)),
{
    out.push((name, ports));
    proof {
        assert(signature_views(out@) =~= signature_views(old(out)@).push((name@, ports@)));
    }
}

fn collect_externals(
    scope: &str,
    v: &Vec<ExternalFunction>,
    signatures: &mut Vec<(String, PortSignature)>,
)
    ensures
        signature_views(final(signatures)@) == signature_views(old(signatures)@)
            + external_signatures(scope@, v@),
{
    let ghost before = signature_views(signatures@);
    let mut i: usize = 0;
    proof {
        assert(before + external_signatures(scope@, v@.take(0)) =~= before);
    }
    while i < v.len()
        invariant
            i <= v@.len(),
            signature_views(signatures@) == before + external_signatures(
                scope@,
                v@.take(i as int),
            ),
        decreases v@.len() - i,
    {
        proof {
            let t = v@.take(i + 1);
            assert(t.drop_last() =~= v@.take(i as int));
            assert(t.last() == v@[i as int]);
        }
        match &v[i].name {
            Some(n) => {
                let name = in_scope(scope, n.text.as_str());
                push_signature(signatures, name, ports_of_external(&v[i]));
            },
            None => {},
        }
        proof {
            assert(signature_views(signatures@) =~= before + external_signatures(
                scope@,
                v@.take(i + 1),
            ));
        }
        i += 1;
    }
    proof {
        assert(v@.take(v@.len() as int) =~= v@);
    }
}

fn collect_systems<'a>(
    scope: &str,
    v: &'a Vec<System>,
    systems: &mut Vec<(String, &'a System)>,
    signatures: &mut Vec<(String, PortSignature)>,
)
    ensures
        system_views(final(systems)@) == system_views(old(systems)@) + named_systems(scope@, v@),
        signature_views(final(signatures)@) == signature_views(old(signatures)@)
            + system_signatures(scope@, v@),
{
    let ghost a = system_views(systems@);
    let ghost b = signature_views(signatures@);
    let mut i: usize = 0;
    proof {
        assert(a + named_systems(scope@, v@.take(0)) =~= a);
        assert(b + system_signatures(scope@, v@.take(0)) =~= b);
    }
    while i < v.len()
        invariant
            i <= v@.len(),
            system_views(systems@) == a + named_systems(scope@, v@.take(i as int)),
            signature_views(signatures@) == b + system_signatures(scope@, v@.take(i as int)),
        decreases v@.len() - i,
    {
        let ghost sofar = system_views(systems@);
        proof {
            let t = v@.take(i + 1);
            assert(t.drop_last() =~= v@.take(i as int));
            assert(t.last() == v@[i as int]);
        }
        match &v[i].name {
            Some(n) => {
                let name = in_scope(scope, n.text.as_str());
                let ports = PortSignature {
                    inputs: ports_of_section(&v[i].inputs),
                    outputs: ports_of_section(&v[i].outputs),
                };
                push_signature(signatures, name, ports);
                systems.push((scope.to_owned(), &v[i]));
                proof {
                    assert(system_views(systems@) =~= sofar.push((scope@, v@[i as int])));
                }
            },
            None => {},
        }
        proof {
            assert(system_views(systems@) =~= a + named_systems(scope@, v@.take(i + 1)));
            assert(signature_views(signatures@) =~= b + system_signatures(scope@, v@.take(i + 1)));
        }
        i += 1;
    }
    proof {
        assert(v@.take(v@.len() as int) =~= v@);
    }
}

fn inner_scope(scope: &str, p: &Package) -> (r: String)
    ensures
        r@ == package_scope(scope@, *p),
{
    match &p.name {
        Some(segments) => {
            let name = join(segments, ".");
            in_scope(scope, name.as_str())
        },
        None => {
            proof {
                reveal_strlit("");
                assert(""@ =~= Seq::<char>::empty());
            }
            in_scope(scope, "")
        },
    }
}

fn collect_packages<'a>(
    scope: &str,
    v: &'a Vec<Package>,
    systems: &mut Vec<(String, &'a System)>,
    signatures: &mut Vec<(String, PortSignature)>,
)
    ensures
        system_views(final(systems)@) == system_views(old(systems)@) + scoped_systems_first(
            scope@,
            *v,
            v@.len(),
        ),
        signature_views(final(signatures)@) == signature_views(old(signatures)@)
            + signatures_in_first(scope@, *v, v@.len()),
    decreases v, 0int,
{
    let ghost a = system_views(systems@);
    let ghost b = signature_views(signatures@);
    let mut i: usize = 0;
    proof {
        assert(a + scoped_systems_first(scope@, *v, 0) =~= a);
        assert(b + signatures_in_first(scope@, *v, 0) =~= b);
    }
    while i < v.len()
        invariant
            i <= v@.len(),
            system_views(systems@) == a + scoped_systems_first(scope@, *v, i as nat),
            signature_views(signatures@) == b + signatures_in_first(scope@, *v, i as nat),
        decreases v@.len() - i,
    {
        let inner = inner_scope(scope, &v[i]);
        collect_package(inner.as_str(), &v[i], systems, signatures);
        proof {
            assert(system_views(systems@) =~= a + scoped_systems_first(
                scope@,
                *v,
                (i + 1) as nat,
            ));
            assert(signature_views(signatures@) =~= b + signatures_in_first(
                scope@,
                *v,
                (i + 1) as nat,
            ));
        }
        i += 1;
    }
}

fn collect_package<'a>(
    scope: &str,
    p: &'a Package,
    systems: &mut Vec<(String, &'a System)>,
    signatures: &mut Vec<(String, PortSignature)>,
)
    ensures
        system_views(final(systems)@) == system_views(old(systems)@) + scoped_systems(scope@, *p),
        signature_views(final(signatures)@) == signature_views(old(signatures)@)
            + signatures_in(scope@, *p),
    decreases p, 0int,
{
    let ghost a = system_views(systems@);
    let ghost b = signature_views(signatures@);
    collect_externals(scope, &p.externals, signatures);
    collect_systems(scope, &p.systems, systems, signatures);
    collect_packages(scope, &p.packages, systems, signatures);
    proof {
        assert(system_views(systems@) =~= a + scoped_systems(scope@, *p));
        assert(signature_views(signatures@) =~= b + signatures_in(scope@, *p));
    }
}

/// The named systems of a file, each with its scope, and the signatures of all that can be called.
pub fn collect_program<'a>(root: &'a Package) -> (r: (
    Vec<(String, &'a System)>,
    Vec<(String, PortSignature)>,
))
    ensures
        system_views(r.0@) == scoped_systems(Seq::empty(), *root),
        signature_views(r.1@) == signatures_in(Seq::empty(), *root),
{
    let mut systems: Vec<(String, &'a System)> = Vec::new();
    let mut signatures: Vec<(String, PortSignature)> = Vec::new();
    proof {
        reveal_strlit("");
        assert(""@ =~= Seq::<char>::empty());
        assert(system_views(systems@) =~= Seq::empty());
        assert(signature_views(signatures@) =~= Seq::empty());
    }
    collect_package("", root, &mut systems, &mut signatures);
    proof {
        assert(system_views(systems@) =~= scoped_systems(Seq::empty(), *root));
        assert(signature_views(signatures@) =~= signatures_in(Seq::empty(), *root));
    }
    (systems, signatures)
}

/// What is reported of each system, under its name.
pub open spec fn report_views(v: Seq<(String, Vec<Diagnostic>)>) -> Seq<(Seq<char>, Seq<Issue>)> {
    Seq::new(v.len(), |i: int| (v[i].0@, issues(v[i].1@)))
}

pub open spec fn name_of(s: System) -> Seq<char> {
    crate::uniqueness::name_or_none(s.name)
}

pub open spec fn reserved(name: Option<Name>) -> Seq<Issue> {
    match name {
        Some(n) => if is_operation(n.text@) {
            seq![issue(IssueKind::ReservedOperationName, seq![n.text@], n.span.pair())]
        } else {
            Seq::empty()
        },
        None => Seq::empty(),
    }
}

/// The names of operations among those of the first `n` external functions.
pub open spec fn reserved_externals(v: Seq<ExternalFunction>, n: nat) -> Seq<Issue>
    decreases n,
{
    if n == 0 || n > v.len() {
        Seq::empty()
    } else {
        reserved_externals(v, (n - 1) as nat) + reserved(v[n - 1].name)
    }
}

/// The names of operations among those of the first `n` systems.
pub open spec fn reserved_systems(v: Seq<System>, n: nat) -> Seq<Issue>
    decreases n,
{
    if n == 0 || n > v.len() {
        Seq::empty()
    } else {
        reserved_systems(v, (n - 1) as nat) + reserved(v[n - 1].name)
    }
}

/// The systems and external functions that go by the name of an operation.
pub open spec fn reserved_in(p: Package) -> Seq<Issue>
    decreases p, 0int,
{
    reserved_externals(p.externals@, p.externals@.len()) + reserved_systems(
        p.systems@,
        p.systems@.len(),
    ) + reserved_in_first(p.packages, p.packages@.len())
}

pub open spec fn reserved_in_first(v: Vec<Package>, n: nat) -> Seq<Issue>
    decreases v, n,
{
    if n == 0 || n > v@.len() {
        Seq::empty()
    } else {
        reserved_in_first(v, (n - 1) as nat) + reserved_in(v@[n - 1])
    }
}

fn report_reserved(name: &Option<Name>, out: &mut Vec<Diagnostic>)
    ensures
        issues(final(out)@) == issues(old(out)@) + reserved(*name),
{
    let ghost before = issues(out@);
    match name {
        Some(n) => match registered_operation(n.text.as_str()) {
            Some(sig) => {
                proof {
                    assert(sig.operation.spelling() == n.text@);
                }
                report(
                    out,
                    Diagnostic::ReservedOperationName {
                        name: n.text.clone(),
                        start: n.span.start,
                        end: n.span.end,
                    },
                );
            },
            None => {},
        },
        None => {},
    }
    proof {
        assert(issues(out@) =~= before + reserved(*name));
    }
}

fn report_reserved_packages(v: &Vec<Package>, out: &mut Vec<Diagnostic>)
    ensures
        issues(final(out)@) == issues(old(out)@) + reserved_in_first(*v, v@.len()),
    decreases v, 0int,
{
    let ghost before = issues(out@);
    let mut i: usize = 0;
    proof {
        assert(before + reserved_in_first(*v, 0) =~= before);
    }
    while i < v.len()
        invariant
            i <= v@.len(),
            issues(out@) == before + reserved_in_first(*v, i as nat),
        decreases v@.len() - i,
    {
        check_reserved_names(&v[i], out);
        proof {
            assert(issues(out@) =~= before + reserved_in_first(*v, (i + 1) as nat));
        }
        i += 1;
    }
}

/// Reports the systems and external functions that go by the name of an operation.
pub fn check_reserved_names(p: &Package, out: &mut Vec<Diagnostic>)
    ensures
        issues(final(out)@) == issues(old(out)@) + reserved_in(*p),
    decreases p, 0int,
{
    let ghost before = issues(out@);
    let mut i: usize = 0;
    proof {
        assert(before + reserved_externals(p.externals@, 0) =~= before);
    }
    while i < p.externals.len()
        invariant
            i <= p.externals@.len(),
            issues(out@) == before + reserved_externals(p.externals@, i as nat),
        decreases p.externals@.len() - i,
    {
        report_reserved(&p.externals[i].name, out);
        proof {
            assert(issues(out@) =~= before + reserved_externals(p.externals@, (i + 1) as nat));
        }
        i += 1;
    }
    let ghost between = issues(out@);
    let mut j: usize = 0;
    proof {
        assert(between + reserved_systems(p.systems@, 0) =~= between);
    }
    while j < p.systems.len()
        invariant
            j <= p.systems@.len(),
            issues(out@) == between + reserved_systems(p.systems@, j as nat),
        decreases p.systems@.len() - j,
    {
        report_reserved(&p.systems[j].name, out);
        proof {
            assert(issues(out@) =~= between + reserved_systems(p.systems@, (j + 1) as nat));
        }
        j += 1;
    }
    report_reserved_packages(&p.packages, out);
    proof {
        assert(issues(out@) =~= before + reserved_in(*p));
    }
}

/// What concerns a file as a whole. The names of each system are reported with the system.
pub open spec fn program_report(root: Package) -> Seq<Issue> {
    shared_clashes(seq![root]) + reserved_in(root)
}

/// The `i`th system of a file, and what it can call.
pub open spec fn world_in(root: Package, i: int) -> World {
    let (scope, system) = scoped_systems(Seq::empty(), root)[i];
    world_of(system, signatures_in(Seq::empty(), root), scope)
}

/// What is reported of the `i`th system. What concerns the program as a whole comes with the
/// first.
pub open spec fn root_report(root: Package, answers: Seq<SystemAnswers>, i: int) -> (
    Seq<char>,
    Seq<Issue>,
) {
    let w = world_in(root, i);
    let own = system_report(w, answers[i]);
    (name_of(w.system), if i == 0 {
        own + program_report(root)
    } else {
        own
    })
}

pub open spec fn root_answers_ok(root: Package, answers: Seq<SystemAnswers>) -> bool {
    &&& answers.len() == scoped_systems(Seq::empty(), root).len()
    &&& forall|i: int|
        0 <= i < answers.len() ==> answers_ok(world_in(root, i), #[trigger] answers[i])
}

/// Everything that is reported of the systems of a file. `roots` holds that one file.
pub fn analyze_root(roots: &Vec<Package>, answers: &Vec<SystemAnswers>) -> (r: Vec<
    (String, Vec<Diagnostic>),
>)
    requires
        roots@.len() == 1,
        root_answers_ok(roots@[0], answers@),
    ensures
        report_views(r@) == Seq::new(
            answers@.len(),
            |i: int| root_report(roots@[0], answers@, i),
        ),
{
    let root = &roots[0];
    let (systems, signatures) = collect_program(root);
    let ghost all = scoped_systems(Seq::empty(), *root);
    let ghost target = Seq::new(answers@.len(), |i: int| root_report(*root, answers@, i));
    let mut program = check_shared_names(roots);
    check_reserved_names(root, &mut program);
    let mut out: Vec<(String, Vec<Diagnostic>)> = Vec::new();
    let mut i: usize = 0;
    proof {
        assert(roots@ =~= seq![*root]);
        assert(system_views(systems@).len() == systems@.len());
        assert(report_views(out@) =~= target.take(0));
    }
    while i < systems.len()
        invariant
            i <= systems@.len(),
            root_answers_ok(*root, answers@),
            all == scoped_systems(Seq::empty(), *root),
            system_views(systems@) == all,
            systems@.len() == answers@.len(),
            target == Seq::new(answers@.len(), |i: int| root_report(*root, answers@, i)),
            signature_views(signatures@) == signatures_in(Seq::empty(), *root),
            i == 0 ==> issues(program@) == program_report(*root),
            i > 0 ==> program@.len() == 0,
            report_views(out@) == target.take(i as int),
        decreases systems@.len() - i,
    {
        let ghost sofar = report_views(out@);
        let system = systems[i].1;
        proof {
            assert(system_views(systems@)[i as int] == (systems@[i as int].0@, *system));
            assert(answers_ok(world_in(*root, i as int), answers@[i as int]));
        }
        let mut diags = analyze_system_with_signatures(
            system,
            &signatures,
            systems[i].0.as_str(),
            &answers[i],
        );
        let ghost own = issues(diags@);
        let ghost more = issues(program@);
        diags.append(&mut program);
        proof {
            assert(issues(diags@) =~= own + more);
            if i > 0 {
                assert(more =~= Seq::<Issue>::empty());
                assert(own + more =~= own);
            }
        }
        let name = match &system.name {
            Some(n) => n.text.clone(),
            None => {
                proof {
                    reveal_strlit("");
                    assert(""@ =~= Seq::<char>::empty());
                }
                "".to_owned()
            },
        };
        let ghost entry = (name@, issues(diags@));
        out.push((name, diags));
        proof {
            assert(entry == root_report(*root, answers@, i as int));
            assert(report_views(out@) =~= sofar.push(entry));
            assert(target.take(i + 1) =~= target.take(i as int).push(target[i as int]));
        }
        i += 1;
    }
    proof {
        assert(target.take(answers@.len() as int) =~= target);
    }
    out
}

pub open spec fn optional_text(s: Option<String>) -> Option<Seq<char>> {
    match s {
        Some(t) => Some(t@),
        None => None,
    }
}

pub open spec fn entry_views(v: Seq<(Option<String>, Diagnostic)>) -> Seq<
    (Option<Seq<char>>, Issue),
> {
    Seq::new(v.len(), |i: int| (optional_text(v[i].0), v[i].1@))
}

/// The name to report under; an empty one is none.
pub open spec fn label(name: Seq<char>) -> Option<Seq<char>> {
    if name.len() == 0 {
        None
    } else {
        Some(name)
    }
}

pub open spec fn labelled(reports: Seq<(Seq<char>, Seq<Issue>)>) -> Seq<
    (Option<Seq<char>>, Issue),
>
    decreases reports.len(),
{
    if reports.len() == 0 {
        Seq::empty()
    } else {
        labelled(reports.drop_last()) + reports.last().1.map_values(
            |i: Issue| (label(reports.last().0), i),
        )
    }
}

/// What the parser and the checks found in a file.
pub enum Findings {
    /// The file does not parse, and nothing else was looked at.
    SyntaxErrors(Vec<SyntaxError>),
    /// What was reported of each system.
    Systems(Vec<(String, Vec<Diagnostic>)>),
}

/// One list of all problems of a file, each with the name of the system it was found in.
pub open spec fn source_report(f: Findings) -> Seq<(Option<Seq<char>>, Issue)> {
    match f {
        Findings::SyntaxErrors(errors) => errors@.map_values(
            |e: SyntaxError|
                (None, issue(IssueKind::Syntax, seq![e.message@], (e.start, e.end))),
        ),
        Findings::Systems(reports) => labelled(report_views(reports@)),
    }
}

fn push_entry(out: &mut Vec<(Option<String>, Diagnostic)>, name: Option<String>, d: Diagnostic)
    ensures
        entry_views(final(out)@) == entry_views(old(out)@).push((optional_text(name), d@)),
{
    out.push((name, d));
    proof {
        assert(entry_views(out@) =~= entry_views(old(out)@).push((optional_text(name), d@)));
    }
}

fn push_report(out: &mut Vec<(Option<String>, Diagnostic)>, name: &str, diags: &Vec<Diagnostic>)
    ensures
        entry_views(final(out)@) == entry_views(old(out)@) + issues(diags@).map_values(
            |i: Issue| (label(name@), i),
        ),
{
    let ghost before = entry_views(out@);
    let ghost target = issues(diags@).map_values(|i: Issue| (label(name@), i));
    let v = chars_of(name);
    let mut j: usize = 0;
    proof {
        assert(before + target.take(0) =~= before);
    }
    while j < diags.len()
        invariant
            j <= diags@.len(),
            v@ == name@,
            target == issues(diags@).map_values(|i: Issue| (label(name@), i)),
            entry_views(out@) == before + target.take(j as int),
        decreases diags@.len() - j,
    {
        let tag: Option<String> = if v.len() == 0 {
            None
        } else {
            Some(name.to_owned())
        };
        push_entry(out, tag, diags[j].clone());
        proof {
            assert(issues(diags@)[j as int] == diags@[j as int]@);
            assert(target.take(j + 1) =~= target.take(j as int).push(target[j as int]));
            assert(entry_views(out@) =~= before + target.take(j + 1));
        }
        j += 1;
    }
    proof {
        assert(target.take(diags@.len() as int) =~= target);
    }
}

/// One list of all problems of a file: the syntax errors, or else those of every system.
pub fn check_source(findings: &Findings) -> (r: Vec<(Option<String>, Diagnostic)>)
    ensures
        entry_views(r@) == source_report(*findings),
{
    let mut out: Vec<(Option<String>, Diagnostic)> = Vec::new();
    let mut i: usize = 0;
    match findings {
        Findings::SyntaxErrors(errors) => {
            let ghost target = source_report(*findings);
            proof {
                assert(entry_views(out@) =~= target.take(0));
            }
            while i < errors.len()
                invariant
                    i <= errors@.len(),
                    target == errors@.map_values(
                        |e: SyntaxError|
                            (
                                None::<Seq<char>>,
                                issue(IssueKind::Syntax, seq![e.message@], (e.start, e.end)),
                            ),
                    ),
                    entry_views(out@) == target.take(i as int),
                decreases errors@.len() - i,
            {
                push_entry(&mut out, None, Diagnostic::Syntax(errors[i].clone()));
                proof {
                    assert(target.take(i + 1) =~= target.take(i as int).push(target[i as int]));
                }
                i += 1;
            }
            proof {
                assert(target.take(errors@.len() as int) =~= target);
            }
        },
        Findings::Systems(reports) => {
            let ghost all = report_views(reports@);
            proof {
                assert(entry_views(out@) =~= labelled(all.take(0)));
            }
            while i < reports.len()
                invariant
                    i <= reports@.len(),
                    all == report_views(reports@),
                    entry_views(out@) == labelled(all.take(i as int)),
                decreases reports@.len() - i,
            {
                proof {
                    let t = all.take(i + 1);
                    assert(t.drop_last() =~= all.take(i as int));
                    assert(t.last() == (reports@[i as int].0@, issues(reports@[i as int].1@)));
                }
                push_report(&mut out, reports[i].0.as_str(), &reports[i].1);
                i += 1;
            }
            proof {
                assert(all.take(reports@.len() as int) =~= all);
            }
        },
    }
    out
}

} // verus!
