//! What is found in a source file, told by where in the file it stands: a place is the way down
//! from the file through the packages inside it.
use crate::analyze::{system_report, world_of, SystemAnswers};
use crate::diagnostic::{issue, Issue, IssueKind, SyntaxError};
use crate::multiplicity::Multiplicity;
use crate::operation::RegisteredOperation;
use crate::program::{
    argument_count, external_signatures, labelled, named_systems, program_report, report_views,
    reserved, reserved_externals, reserved_in, reserved_in_first, reserved_systems, root_report,
    scoped_systems, scoped_systems_first, section_ports, signatures_in, signatures_in_first,
    source_report, system_signatures, Findings, PortModel,
};
use crate::syntax::{Decl, ExternalFunction, Name, Package, Span, System};
use crate::text::{joined, views};
use crate::uniqueness::{
    both_of_a_clashing_pair_are_reported, clash_issue, clashes, externals_in, externals_in_first,
    items_of, package_prefix, pair_clashes, program_externals, program_systems, qualified_item,
    shared_clashes, systems_in, systems_in_first, ItemKind, ItemModel,
};
use vstd::prelude::*;

verus! {

/// A way down from package `p`: each number picks a package inside the one before.
pub open spec fn leads_on(p: Package, way: Seq<int>) -> bool
    decreases way.len(),
{
    way.len() > 0 ==> 0 <= way[0] < p.packages@.len() && leads_on(
        p.packages@[way[0]],
        way.skip(1),
    )
}

/// The package at the end of a way.
pub open spec fn package_at(p: Package, way: Seq<int>) -> Package
    decreases way.len(),
{
    if way.len() == 0 {
        p
    } else {
        package_at(p.packages@[way[0]], way.skip(1))
    }
}

/// A name after the scope it stands in, parted by a dot; the scope of a file is empty and adds
/// nothing.
pub open spec fn nested(scope: Seq<char>, name: Seq<char>) -> Seq<char> {
    if scope.len() == 0 {
        name
    } else {
        scope + "."@ + name
    }
}

pub open spec fn package_name(p: Package) -> Seq<char> {
    match p.name {
        Some(segments) => joined(views(segments@), "."@),
        None => Seq::empty(),
    }
}

/// The scope at the end of a way that starts in `scope`.
pub open spec fn scope_at(scope: Seq<char>, p: Package, way: Seq<int>) -> Seq<char>
    decreases way.len(),
{
    if way.len() == 0 {
        scope
    } else {
        let q = p.packages@[way[0]];
        scope_at(nested(scope, package_name(q)), q, way.skip(1))
    }
}

/// System `k` at the end of a way is `s`.
pub open spec fn system_stands(p: Package, way: Seq<int>, k: int, s: System) -> bool {
    leads_on(p, way) && 0 <= k < package_at(p, way).systems@.len() && package_at(
        p,
        way,
    ).systems@[k] == s
}

/// External function `k` at the end of a way is `f`.
pub open spec fn external_stands(p: Package, way: Seq<int>, k: int, f: ExternalFunction) -> bool {
    leads_on(p, way) && 0 <= k < package_at(p, way).externals@.len() && package_at(
        p,
        way,
    ).externals@[k] == f
}

/// A way through package `i` of `p`.
pub open spec fn through(i: int, way: Seq<int>) -> Seq<int> {
    seq![i] + way
}

proof fn lemma_through(scope: Seq<char>, p: Package, i: int, way: Seq<int>)
    requires
        0 <= i < p.packages@.len(),
    ensures
        leads_on(p, through(i, way)) == leads_on(p.packages@[i], way),
        package_at(p, through(i, way)) == package_at(p.packages@[i], way),
        scope_at(scope, p, through(i, way)) == scope_at(
            nested(scope, package_name(p.packages@[i])),
            p.packages@[i],
            way,
        ),
{
    assert(through(i, way).skip(1) =~= way);
    assert(through(i, way)[0] == i);
}

/// A named system with its scope.
pub open spec fn is_named_system(
    scope: Seq<char>,
    p: Package,
    way: Seq<int>,
    k: int,
    x: (Seq<char>, System),
) -> bool {
    system_stands(p, way, k, x.1) && x.1.name is Some && scope_at(scope, p, way) == x.0
}

proof fn lemma_named(scope: Seq<char>, v: Seq<System>, x: (Seq<char>, System))
    ensures
        named_systems(scope, v).contains(x) <==> x.0 == scope && x.1.name is Some && v.contains(x.1),
    decreases v.len(),
{
    if v.len() > 0 {
        lemma_named(scope, v.drop_last(), x);
        let before = named_systems(scope, v.drop_last());
        let all = named_systems(scope, v);
        assert(v == v.drop_last().push(v.last()));
        lemma_push_contains(v.drop_last(), v.last(), x.1);
        if v.last().name is Some {
            lemma_push_contains(before, (scope, v.last()), x);
        }
    }
}

proof fn lemma_push_contains<A>(s: Seq<A>, a: A, x: A)
    ensures
        s.push(a).contains(x) <==> s.contains(x) || x == a,
{
    if s.contains(x) {
        let i = choose|i: int| 0 <= i < s.len() && s[i] == x;
        assert(s.push(a)[i] == x);
    }
    assert(s.push(a)[s.len() as int] == a);
    if s.push(a).contains(x) && x != a {
        let i = choose|i: int| 0 <= i < s.push(a).len() && s.push(a)[i] == x;
        assert(s[i] == x);
    }
}

proof fn lemma_sum_contains<A>(s: Seq<A>, t: Seq<A>, x: A)
    ensures
        (s + t).contains(x) <==> s.contains(x) || t.contains(x),
{
    if s.contains(x) {
        let i = choose|i: int| 0 <= i < s.len() && s[i] == x;
        assert((s + t)[i] == x);
    }
    if t.contains(x) {
        let i = choose|i: int| 0 <= i < t.len() && t[i] == x;
        assert((s + t)[s.len() + i] == x);
    }
    if (s + t).contains(x) {
        let i = choose|i: int| 0 <= i < (s + t).len() && (s + t)[i] == x;
        if i < s.len() {
            assert(s[i] == x);
        } else {
            assert(t[i - s.len()] == x);
        }
    }
}

proof fn lemma_systems_at(scope: Seq<char>, p: Package, x: (Seq<char>, System))
    ensures
        scoped_systems(scope, p).contains(x) <==> exists|way: Seq<int>, k: int|
            is_named_system(scope, p, way, k, x),
    decreases p, 0int,
{
    let own = named_systems(scope, p.systems@);
    let inner = scoped_systems_first(scope, p.packages, p.packages@.len());
    lemma_named(scope, p.systems@, x);
    lemma_sum_contains(own, inner, x);
    lemma_systems_first(scope, p, p.packages, p.packages@.len(), x);
    if own.contains(x) {
        let k = choose|k: int| 0 <= k < p.systems@.len() && p.systems@[k] == x.1;
        assert(is_named_system(scope, p, Seq::empty(), k, x));
    }
    if exists|way: Seq<int>, k: int| is_named_system(scope, p, way, k, x) {
        let (way, k) = choose|way: Seq<int>, k: int| is_named_system(scope, p, way, k, x);
        if way.len() == 0 {
            assert(p.systems@[k] == x.1);
        } else {
            assert(through(way[0], way.skip(1)) =~= way);
            assert(is_named_system(scope, p, through(way[0], way.skip(1)), k, x));
        }
    }
}

proof fn lemma_systems_first(
    scope: Seq<char>,
    p: Package,
    v: Vec<Package>,
    n: nat,
    x: (Seq<char>, System),
)
    requires
        v == p.packages,
        n <= v@.len(),
    ensures
        scoped_systems_first(scope, v, n).contains(x) <==> exists|i: int, way: Seq<int>, k: int|
            0 <= i < n && #[trigger] is_named_system(scope, p, through(i, way), k, x),
    decreases v, n,
{
    if n > 0 {
        let i = n - 1;
        let q = v@[i];
        let inside = nested(scope, package_name(q));
        lemma_systems_first(scope, p, v, (n - 1) as nat, x);
        lemma_systems_at(inside, q, x);
        assert(crate::program::package_scope(scope, q) == inside);
        lemma_sum_contains(
            scoped_systems_first(scope, v, (n - 1) as nat),
            scoped_systems(inside, q),
            x,
        );
        assert forall|way: Seq<int>, k: int|
            #[trigger] is_named_system(scope, p, through(i, way), k, x) == is_named_system(
                inside,
                q,
                way,
                k,
                x,
            ) by {
            lemma_through(scope, p, i, way);
        }
        if scoped_systems(inside, q).contains(x) {
            let (way, k) = choose|way: Seq<int>, k: int| is_named_system(inside, q, way, k, x);
            assert(is_named_system(scope, p, through(i, way), k, x));
        }
        if exists|j: int, way: Seq<int>, k: int|
            0 <= j < n && #[trigger] is_named_system(scope, p, through(j, way), k, x) {
            let (j, way, k) = choose|j: int, way: Seq<int>, k: int|
                0 <= j < n && #[trigger] is_named_system(scope, p, through(j, way), k, x);
            if j == i {
                assert(is_named_system(inside, q, way, k, x));
            } else {
                assert(0 <= j < n - 1);
            }
        }
    }
}

/// The systems that are collected from a file are its named ones, however deep in its packages
/// they stand, each with the scope of its place.
pub proof fn every_named_system_is_collected(root: Package, scope: Seq<char>, s: System)
    ensures
        scoped_systems(Seq::empty(), root).contains((scope, s)) <==> exists|
            way: Seq<int>,
            k: int,
        | is_named_system(Seq::empty(), root, way, k, (scope, s)),
{
    lemma_systems_at(Seq::empty(), root, (scope, s));
}

/// What a section of declarations lets through: one port for each variable, in order, linear where
/// the declaration says so. A fuzzy variable is no port.
pub open spec fn declared_ports(decls: Seq<Decl>) -> Seq<Multiplicity> {
    decls.filter(|d: Decl| !d.fuzzy).map_values(
        |d: Decl|
            if d.linear {
                Multiplicity::Linear
            } else {
                Multiplicity::Unrestricted
            },
    )
}

proof fn lemma_declared_ports(decls: Seq<Decl>)
    ensures
        section_ports(decls) == declared_ports(decls),
    decreases decls.len(),
{
    reveal(Seq::filter);
    if decls.len() > 0 {
        lemma_declared_ports(decls.drop_last());
        assert(declared_ports(decls) =~= section_ports(decls));
    } else {
        assert(declared_ports(decls) =~= section_ports(decls));
    }
}

/// What can be called at a place of `p`, by its full name.
pub open spec fn takes_and_gives(
    scope: Seq<char>,
    p: Package,
    way: Seq<int>,
    k: int,
    x: (Seq<char>, PortModel),
) -> bool {
    ||| exists|s: System| #[trigger]
        system_stands(p, way, k, s) && system_gives(scope_at(scope, p, way), s, x)
    ||| exists|f: ExternalFunction| #[trigger]
        external_stands(p, way, k, f) && external_gives(scope_at(scope, p, way), f, x)
}

/// The ports of a system go by its declarations.
pub open spec fn system_gives(scope: Seq<char>, s: System, x: (Seq<char>, PortModel)) -> bool {
    s.name is Some && x == (
        nested(scope, s.name->0.text@),
        PortModel { inputs: declared_ports(s.inputs@), outputs: declared_ports(s.outputs@) },
    )
}

proof fn lemma_system_signatures(scope: Seq<char>, v: Seq<System>, x: (Seq<char>, PortModel))
    ensures
        system_signatures(scope, v).contains(x) <==> exists|k: int|
            0 <= k < v.len() && #[trigger] system_gives(scope, v[k], x),
    decreases v.len(),
{
    if v.len() > 0 {
        let w = v.drop_last();
        let s = v.last();
        lemma_system_signatures(scope, w, x);
        lemma_declared_ports(s.inputs@);
        lemma_declared_ports(s.outputs@);
        if s.name is Some {
            lemma_push_contains(
                system_signatures(scope, w),
                (nested(scope, s.name->0.text@), crate::program::system_ports(s)),
                x,
            );
        }
        if system_signatures(scope, w).contains(x) {
            let k = choose|k: int| 0 <= k < w.len() && #[trigger] system_gives(scope, w[k], x);
            assert(system_gives(scope, v[k], x));
        }
        if exists|k: int| 0 <= k < v.len() && #[trigger] system_gives(scope, v[k], x) {
            let k = choose|k: int| 0 <= k < v.len() && #[trigger] system_gives(scope, v[k], x);
            if k < w.len() {
                assert(system_gives(scope, w[k], x));
            }
        }
        if system_gives(scope, s, x) {
            assert(system_gives(scope, v[v.len() - 1], x));
        }
    }
}

/// The ports of an external function go by its declaration, where a bare number of arguments
/// stands for that many unrestricted ones and one unrestricted result.
pub open spec fn external_gives(
    scope: Seq<char>,
    f: ExternalFunction,
    x: (Seq<char>, PortModel),
) -> bool {
    f.name is Some && x.0 == nested(scope, f.name->0.text@) && match f.cardinality {
        None => x.1 == (PortModel { inputs: f.inputs@, outputs: f.outputs@ }),
        Some(count) => x.1.inputs.len() == argument_count(count@) && (forall|i: int|
            0 <= i < x.1.inputs.len() ==> x.1.inputs[i] == Multiplicity::Unrestricted)
            && x.1.outputs == seq![Multiplicity::Unrestricted],
    }
}

proof fn lemma_external_signatures(
    scope: Seq<char>,
    v: Seq<ExternalFunction>,
    x: (Seq<char>, PortModel),
)
    ensures
        external_signatures(scope, v).contains(x) <==> exists|k: int|
            0 <= k < v.len() && #[trigger] external_gives(scope, v[k], x),
    decreases v.len(),
{
    if v.len() > 0 {
        let w = v.drop_last();
        let f = v.last();
        lemma_external_signatures(scope, w, x);
        assert forall|k: int| 0 <= k < w.len() implies #[trigger] w[k] == v[k] by {}
        let ports = crate::program::external_ports(f);
        if f.name is Some {
            lemma_push_contains(
                external_signatures(scope, w),
                (nested(scope, f.name->0.text@), ports),
                x,
            );
            if external_gives(scope, f, x) && f.cardinality is Some {
                assert(x.1.inputs =~= ports.inputs);
            }
            assert(external_gives(scope, f, x) <==> x == (nested(scope, f.name->0.text@), ports));
        }
        assert(v[v.len() - 1] == f);
        if external_signatures(scope, w).contains(x) {
            let k = choose|k: int| 0 <= k < w.len() && #[trigger] external_gives(scope, w[k], x);
            assert(external_gives(scope, v[k], x));
        }
        if exists|k: int| 0 <= k < v.len() && #[trigger] external_gives(scope, v[k], x) {
            let k = choose|k: int| 0 <= k < v.len() && #[trigger] external_gives(scope, v[k], x);
            if k < w.len() {
                assert(external_gives(scope, w[k], x));
            }
        }
        if external_gives(scope, f, x) {
            assert(external_gives(scope, v[v.len() - 1], x));
        }
    }
}

proof fn lemma_signatures_here(scope: Seq<char>, p: Package, x: (Seq<char>, PortModel))
    ensures
        (external_signatures(scope, p.externals@) + system_signatures(scope, p.systems@)).contains(
            x,
        ) <==> exists|k: int| takes_and_gives(scope, p, Seq::empty(), k, x),
{
    let none = Seq::<int>::empty();
    lemma_sum_contains(
        external_signatures(scope, p.externals@),
        system_signatures(scope, p.systems@),
        x,
    );
    lemma_external_signatures(scope, p.externals@, x);
    lemma_system_signatures(scope, p.systems@, x);
    if external_signatures(scope, p.externals@).contains(x) {
        let k = choose|k: int|
            0 <= k < p.externals@.len() && #[trigger] external_gives(scope, p.externals@[k], x);
        assert(external_stands(p, none, k, p.externals@[k]));
        assert(takes_and_gives(scope, p, none, k, x));
    }
    if system_signatures(scope, p.systems@).contains(x) {
        let k = choose|k: int|
            0 <= k < p.systems@.len() && #[trigger] system_gives(scope, p.systems@[k], x);
        assert(system_stands(p, none, k, p.systems@[k]));
        assert(takes_and_gives(scope, p, none, k, x));
    }
    if exists|k: int| takes_and_gives(scope, p, none, k, x) {
        let k = choose|k: int| takes_and_gives(scope, p, none, k, x);
        if exists|f: ExternalFunction| #[trigger]
            external_stands(p, none, k, f) && external_gives(scope, f, x) {
            assert(external_gives(scope, p.externals@[k], x));
        } else {
            assert(system_gives(scope, p.systems@[k], x));
        }
    }
}

proof fn lemma_signatures_at(scope: Seq<char>, p: Package, x: (Seq<char>, PortModel))
    ensures
        signatures_in(scope, p).contains(x) <==> exists|way: Seq<int>, k: int|
            takes_and_gives(scope, p, way, k, x),
    decreases p, 0int,
{
    let own = external_signatures(scope, p.externals@) + system_signatures(scope, p.systems@);
    let inner = signatures_in_first(scope, p.packages, p.packages@.len());
    lemma_signatures_here(scope, p, x);
    lemma_sum_contains(own, inner, x);
    lemma_signatures_first(scope, p, p.packages, p.packages@.len(), x);
    if exists|way: Seq<int>, k: int| takes_and_gives(scope, p, way, k, x) {
        let (way, k) = choose|way: Seq<int>, k: int| takes_and_gives(scope, p, way, k, x);
        if way.len() == 0 {
            assert(way =~= Seq::empty());
            assert(takes_and_gives(scope, p, Seq::empty(), k, x));
        } else {
            assert(leads_on(p, way));
            assert(through(way[0], way.skip(1)) =~= way);
            assert(takes_and_gives(scope, p, through(way[0], way.skip(1)), k, x));
        }
    }
}

proof fn lemma_gives_through(
    scope: Seq<char>,
    p: Package,
    i: int,
    way: Seq<int>,
    k: int,
    x: (Seq<char>, PortModel),
)
    requires
        0 <= i < p.packages@.len(),
    ensures
        takes_and_gives(scope, p, through(i, way), k, x) == takes_and_gives(
            nested(scope, package_name(p.packages@[i])),
            p.packages@[i],
            way,
            k,
            x,
        ),
{
    let q = p.packages@[i];
    lemma_through(scope, p, i, way);
    assert forall|s: System|
        #[trigger] system_stands(p, through(i, way), k, s) == system_stands(q, way, k, s) by {}
    assert forall|f: ExternalFunction|
        #[trigger] external_stands(p, through(i, way), k, f) == external_stands(q, way, k, f) by {}
    let inside = nested(scope, package_name(q));
    if takes_and_gives(inside, q, way, k, x) {
        if exists|f: ExternalFunction| #[trigger]
            external_stands(q, way, k, f) && external_gives(scope_at(inside, q, way), f, x) {
            let f = choose|f: ExternalFunction| #[trigger]
                external_stands(q, way, k, f) && external_gives(scope_at(inside, q, way), f, x);
            assert(external_stands(p, through(i, way), k, f));
        } else {
            let s = package_at(q, way).systems@[k];
            assert(system_stands(p, through(i, way), k, s));
        }
    }
    if takes_and_gives(scope, p, through(i, way), k, x) {
        let at = scope_at(scope, p, through(i, way));
        if exists|f: ExternalFunction| #[trigger]
            external_stands(p, through(i, way), k, f) && external_gives(at, f, x) {
            let f = choose|f: ExternalFunction| #[trigger]
                external_stands(p, through(i, way), k, f) && external_gives(at, f, x);
            assert(external_stands(q, way, k, f));
        } else {
            let s = package_at(q, way).systems@[k];
            assert(system_stands(q, way, k, s));
        }
    }
}

proof fn lemma_signatures_first(
    scope: Seq<char>,
    p: Package,
    v: Vec<Package>,
    n: nat,
    x: (Seq<char>, PortModel),
)
    requires
        v == p.packages,
        n <= v@.len(),
    ensures
        signatures_in_first(scope, v, n).contains(x) <==> exists|i: int, way: Seq<int>, k: int|
            0 <= i < n && #[trigger] takes_and_gives(scope, p, through(i, way), k, x),
    decreases v, n,
{
    if n > 0 {
        let i = n - 1;
        let q = v@[i];
        let inside = nested(scope, package_name(q));
        lemma_signatures_first(scope, p, v, (n - 1) as nat, x);
        lemma_signatures_at(inside, q, x);
        assert(crate::program::package_scope(scope, q) == inside);
        lemma_sum_contains(
            signatures_in_first(scope, v, (n - 1) as nat),
            signatures_in(inside, q),
            x,
        );
        if signatures_in(inside, q).contains(x) {
            let (way, k) = choose|way: Seq<int>, k: int| takes_and_gives(inside, q, way, k, x);
            lemma_gives_through(scope, p, i, way, k, x);
            assert(takes_and_gives(scope, p, through(i, way), k, x));
        }
        if exists|j: int, way: Seq<int>, k: int|
            0 <= j < n && #[trigger] takes_and_gives(scope, p, through(j, way), k, x) {
            let (j, way, k) = choose|j: int, way: Seq<int>, k: int|
                0 <= j < n && #[trigger] takes_and_gives(scope, p, through(j, way), k, x);
            if j == i {
                lemma_gives_through(scope, p, i, way, k, x);
            } else {
                assert(0 <= j < n - 1);
            }
        }
    }
}

/// What a call can name is every named system and external function of the file, under its name
/// with the scope of its place, with the ports that its declaration gives it.
pub proof fn every_signature_is_collected(root: Package, x: (Seq<char>, PortModel))
    ensures
        signatures_in(Seq::empty(), root).contains(x) <==> exists|way: Seq<int>, k: int|
            takes_and_gives(Seq::empty(), root, way, k, x),
{
    lemma_signatures_at(Seq::empty(), root, x);
}

/// The name of an operation.
pub open spec fn names_an_operation(name: Seq<char>) -> bool {
    exists|op: RegisteredOperation| #[trigger] op.spelling() == name
}

/// A system or an external function that goes by the name of an operation, at a place of `p`.
pub open spec fn is_misnamed(p: Package, way: Seq<int>, k: int, i: Issue) -> bool {
    ||| exists|s: System| #[trigger]
        system_stands(p, way, k, s) && s.name is Some && names_an_operation(s.name->0.text@) && i
            == issue(
            IssueKind::ReservedOperationName,
            seq![s.name->0.text@],
            (s.name->0.span.start, s.name->0.span.end),
        )
    ||| exists|f: ExternalFunction| #[trigger]
        external_stands(p, way, k, f) && f.name is Some && names_an_operation(f.name->0.text@) && i
            == issue(
            IssueKind::ReservedOperationName,
            seq![f.name->0.text@],
            (f.name->0.span.start, f.name->0.span.end),
        )
}

proof fn lemma_reserved(name: Option<Name>, i: Issue)
    ensures
        reserved(name).contains(i) <==> name is Some && names_an_operation(name->0.text@) && i
            == issue(
            IssueKind::ReservedOperationName,
            seq![name->0.text@],
            (name->0.span.start, name->0.span.end),
        ),
{
    if name is Some && names_an_operation(name->0.text@) {
        assert(reserved(name)[0] == issue(
            IssueKind::ReservedOperationName,
            seq![name->0.text@],
            name->0.span.pair(),
        ));
    }
}

proof fn lemma_reserved_systems(v: Seq<System>, n: nat, i: Issue)
    requires
        n <= v.len(),
    ensures
        reserved_systems(v, n).contains(i) <==> exists|k: int|
            0 <= k < n && reserved((#[trigger] v[k]).name).contains(i),
    decreases n,
{
    if n > 0 {
        lemma_reserved_systems(v, (n - 1) as nat, i);
        lemma_sum_contains(
            reserved_systems(v, (n - 1) as nat),
            reserved(v[n - 1].name),
            i,
        );
    }
}

proof fn lemma_reserved_externals(v: Seq<ExternalFunction>, n: nat, i: Issue)
    requires
        n <= v.len(),
    ensures
        reserved_externals(v, n).contains(i) <==> exists|k: int|
            0 <= k < n && reserved((#[trigger] v[k]).name).contains(i),
    decreases n,
{
    if n > 0 {
        lemma_reserved_externals(v, (n - 1) as nat, i);
        lemma_sum_contains(
            reserved_externals(v, (n - 1) as nat),
            reserved(v[n - 1].name),
            i,
        );
    }
}

proof fn lemma_misnamed_here(p: Package, i: Issue)
    ensures
        (reserved_externals(p.externals@, p.externals@.len()) + reserved_systems(
            p.systems@,
            p.systems@.len(),
        )).contains(i) <==> exists|k: int| is_misnamed(p, Seq::empty(), k, i),
{
    let none = Seq::<int>::empty();
    let n = p.externals@.len();
    let m = p.systems@.len();
    lemma_sum_contains(reserved_externals(p.externals@, n), reserved_systems(p.systems@, m), i);
    lemma_reserved_externals(p.externals@, n, i);
    lemma_reserved_systems(p.systems@, m, i);
    if reserved_externals(p.externals@, n).contains(i) {
        let k = choose|k: int| 0 <= k < n && reserved((#[trigger] p.externals@[k]).name).contains(i);
        lemma_reserved(p.externals@[k].name, i);
        assert(external_stands(p, none, k, p.externals@[k]));
        assert(is_misnamed(p, none, k, i));
    }
    if reserved_systems(p.systems@, m).contains(i) {
        let k = choose|k: int| 0 <= k < m && reserved((#[trigger] p.systems@[k]).name).contains(i);
        lemma_reserved(p.systems@[k].name, i);
        assert(system_stands(p, none, k, p.systems@[k]));
        assert(is_misnamed(p, none, k, i));
    }
    if exists|k: int| is_misnamed(p, none, k, i) {
        let k = choose|k: int| is_misnamed(p, none, k, i);
        if 0 <= k < n {
            lemma_reserved(p.externals@[k].name, i);
        }
        if 0 <= k < m {
            lemma_reserved(p.systems@[k].name, i);
        }
    }
}

proof fn lemma_misnamed_through(p: Package, j: int, way: Seq<int>, k: int, i: Issue)
    requires
        0 <= j < p.packages@.len(),
    ensures
        is_misnamed(p, through(j, way), k, i) == is_misnamed(p.packages@[j], way, k, i),
{
    let q = p.packages@[j];
    lemma_through(Seq::empty(), p, j, way);
    let s = package_at(q, way).systems@[k];
    let f = package_at(q, way).externals@[k];
    assert(system_stands(p, through(j, way), k, s) == system_stands(q, way, k, s));
    assert(external_stands(p, through(j, way), k, f) == external_stands(q, way, k, f));
}

proof fn lemma_misnamed_at(p: Package, i: Issue)
    ensures
        reserved_in(p).contains(i) <==> exists|way: Seq<int>, k: int| is_misnamed(p, way, k, i),
    decreases p, 0int,
{
    let own = reserved_externals(p.externals@, p.externals@.len()) + reserved_systems(
        p.systems@,
        p.systems@.len(),
    );
    let inner = reserved_in_first(p.packages, p.packages@.len());
    lemma_misnamed_here(p, i);
    lemma_sum_contains(own, inner, i);
    lemma_misnamed_first(p, p.packages, p.packages@.len(), i);
    if exists|way: Seq<int>, k: int| is_misnamed(p, way, k, i) {
        let (way, k) = choose|way: Seq<int>, k: int| is_misnamed(p, way, k, i);
        if way.len() == 0 {
            assert(way =~= Seq::empty());
            assert(is_misnamed(p, Seq::empty(), k, i));
        } else {
            assert(leads_on(p, way));
            assert(through(way[0], way.skip(1)) =~= way);
            assert(is_misnamed(p, through(way[0], way.skip(1)), k, i));
        }
    }
}

proof fn lemma_misnamed_first(p: Package, v: Vec<Package>, n: nat, i: Issue)
    requires
        v == p.packages,
        n <= v@.len(),
    ensures
        reserved_in_first(v, n).contains(i) <==> exists|j: int, way: Seq<int>, k: int|
            0 <= j < n && #[trigger] is_misnamed(p, through(j, way), k, i),
    decreases v, n,
{
    if n > 0 {
        let last = n - 1;
        let q = v@[last];
        lemma_misnamed_first(p, v, (n - 1) as nat, i);
        lemma_misnamed_at(q, i);
        lemma_sum_contains(reserved_in_first(v, (n - 1) as nat), reserved_in(q), i);
        if reserved_in(q).contains(i) {
            let (way, k) = choose|way: Seq<int>, k: int| is_misnamed(q, way, k, i);
            lemma_misnamed_through(p, last, way, k, i);
            assert(is_misnamed(p, through(last, way), k, i));
        }
        if exists|j: int, way: Seq<int>, k: int|
            0 <= j < n && #[trigger] is_misnamed(p, through(j, way), k, i) {
            let (j, way, k) = choose|j: int, way: Seq<int>, k: int|
                0 <= j < n && #[trigger] is_misnamed(p, through(j, way), k, i);
            if j == last {
                lemma_misnamed_through(p, last, way, k, i);
            } else {
                assert(0 <= j < n - 1);
            }
        }
    }
}

/// What is said of reserved names is exactly this: each system and each external function of the
/// file that goes by the name of an operation, however deep it stands, at its name.
pub proof fn every_reserved_name_is_reported(root: Package, i: Issue)
    ensures
        reserved_in(root).contains(i) <==> exists|way: Seq<int>, k: int|
            is_misnamed(root, way, k, i),
{
    lemma_misnamed_at(root, i);
}

/// Nothing at all is reported of a file with systems exactly when nothing is wrong with any one of
/// its systems, its systems and external functions share no name, and none goes by the name of an
/// operation.
pub proof fn an_empty_report_means_a_file_in_order(root: Package, answers: Seq<SystemAnswers>)
    requires
        answers.len() == scoped_systems(Seq::empty(), root).len(),
        answers.len() > 0,
    ensures
        (forall|i: int|
            0 <= i < answers.len() ==> (#[trigger] root_report(root, answers, i)).1.len() == 0) <==> {
            &&& forall|i: int|
                0 <= i < answers.len() ==> system_report(
                    world_of(
                        (#[trigger] scoped_systems(Seq::empty(), root)[i]).1,
                        signatures_in(Seq::empty(), root),
                        scoped_systems(Seq::empty(), root)[i].0,
                    ),
                    answers[i],
                ).len() == 0
            &&& shared_clashes(seq![root]).len() == 0
            &&& forall|way: Seq<int>, k: int, i: Issue| !is_misnamed(root, way, k, i)
        },
{
    let all = scoped_systems(Seq::empty(), root);
    if forall|i: int|
        0 <= i < answers.len() ==> (#[trigger] root_report(root, answers, i)).1.len() == 0 {
        assert forall|i: int| 0 <= i < answers.len() implies system_report(
            world_of((#[trigger] all[i]).1, signatures_in(Seq::empty(), root), all[i].0),
            answers[i],
        ).len() == 0 by {
            assert(root_report(root, answers, i).1.len() == 0);
        }
        assert(root_report(root, answers, 0).1.len() == 0);
        assert(program_report(root).len() == 0);
        assert forall|way: Seq<int>, k: int, i: Issue| !is_misnamed(root, way, k, i) by {
            lemma_misnamed_at(root, i);
        }
    } else {
        let i = choose|i: int|
            0 <= i < answers.len() && (#[trigger] root_report(root, answers, i)).1.len() > 0;
        assert(all[i] == all[i]);
        if reserved_in(root).len() > 0 {
            let found = reserved_in(root)[0];
            lemma_misnamed_at(root, found);
        }
    }
}

/// The report of each system comes under the name of the system.
pub proof fn each_report_bears_the_name_of_its_system(
    root: Package,
    answers: Seq<SystemAnswers>,
    i: int,
)
    requires
        0 <= i < scoped_systems(Seq::empty(), root).len(),
        scoped_systems(Seq::empty(), root)[i].1.name is Some,
    ensures
        root_report(root, answers, i).0 == scoped_systems(
            Seq::empty(),
            root,
        )[i].1.name->0.text@,
{
}

/// The report of a system holds problem `i`, and `tag` is the name of the system; an empty name
/// is none.
pub open spec fn tells(r: (Seq<char>, Seq<Issue>), tag: Option<Seq<char>>, i: Issue) -> bool {
    r.1.contains(i) && if r.0.len() == 0 {
        tag is None
    } else {
        tag == Some(r.0)
    }
}

proof fn lemma_labelled(reports: Seq<(Seq<char>, Seq<Issue>)>, tag: Option<Seq<char>>, i: Issue)
    ensures
        labelled(reports).contains((tag, i)) <==> exists|k: int|
            0 <= k < reports.len() && #[trigger] tells(reports[k], tag, i),
    decreases reports.len(),
{
    if reports.len() > 0 {
        let before = reports.drop_last();
        let last = reports.last();
        lemma_labelled(before, tag, i);
        let own = last.1.map_values(|x: Issue| (crate::program::label(last.0), x));
        lemma_sum_contains(labelled(before), own, (tag, i));
        if labelled(before).contains((tag, i)) {
            let k = choose|k: int| 0 <= k < before.len() && #[trigger] tells(before[k], tag, i);
            assert(tells(reports[k], tag, i));
        }
        if exists|k: int| 0 <= k < reports.len() && #[trigger] tells(reports[k], tag, i) {
            let k = choose|k: int| 0 <= k < reports.len() && #[trigger] tells(reports[k], tag, i);
            if k < before.len() {
                assert(tells(before[k], tag, i));
            }
        }
        if own.contains((tag, i)) {
            let m = choose|m: int| 0 <= m < own.len() && own[m] == (tag, i);
            assert(last.1[m] == i);
            assert(tells(reports[reports.len() - 1], tag, i));
        }
        if tells(last, tag, i) {
            let m = choose|m: int| 0 <= m < last.1.len() && last.1[m] == i;
            assert(own[m] == (tag, i));
        }
    }
}

/// The list of all problems of a file holds exactly what was reported of its systems, each problem
/// with the name of the system it is about, or with none where the system has none.
pub proof fn every_problem_is_listed(
    reports: Vec<(String, Vec<crate::diagnostic::Diagnostic>)>,
    tag: Option<Seq<char>>,
    i: Issue,
)
    ensures
        source_report(Findings::Systems(reports)).contains((tag, i)) <==> exists|k: int|
            0 <= k < reports@.len() && #[trigger] tells(report_views(reports@)[k], tag, i),
{
    lemma_labelled(report_views(reports@), tag, i);
}

/// A file that does not parse has its syntax errors listed, in order and under no system, and
/// nothing else.
pub proof fn every_syntax_error_is_listed(errors: Vec<SyntaxError>)
    ensures
        ({
            let all = source_report(Findings::SyntaxErrors(errors));
            &&& all.len() == errors@.len()
            &&& forall|k: int|
                0 <= k < all.len() ==> (#[trigger] all[k]).0 is None && all[k].1 == issue(
                    IssueKind::Syntax,
                    seq![errors@[k].message@],
                    (errors@[k].start, errors@[k].end),
                )
        }),
{
}

/// The segments of the names of the packages on a way, after those in `prefix`. A package without a
/// name adds none.
pub open spec fn segments_at(prefix: Seq<Seq<char>>, p: Package, way: Seq<int>) -> Seq<Seq<char>>
    decreases way.len(),
{
    if way.len() == 0 {
        prefix
    } else {
        let q = p.packages@[way[0]];
        segments_at(prefix + package_segments(q), q, way.skip(1))
    }
}

pub open spec fn package_segments(p: Package) -> Seq<Seq<char>> {
    match p.name {
        Some(segments) => views(segments@),
        None => Seq::empty(),
    }
}

/// The full name of what stands at the end of a way.
pub open spec fn full_name(
    prefix: Seq<Seq<char>>,
    p: Package,
    way: Seq<int>,
    name: Option<Name>,
) -> Seq<char> {
    joined(segments_at(prefix, p, way).push(own_name(name)), "."@)
}

pub open spec fn own_name(name: Option<Name>) -> Seq<char> {
    match name {
        Some(n) => n.text@,
        None => Seq::empty(),
    }
}

/// Where something is reported: at its name, or as a whole when it has none.
pub open spec fn own_span(name: Option<Name>, whole: Span) -> (u32, u32) {
    match name {
        Some(n) => (n.span.start, n.span.end),
        None => (whole.start, whole.end),
    }
}

/// An item has this key, name and place.
pub open spec fn is_item(
    m: ItemModel,
    kind: ItemKind,
    key: Seq<char>,
    name: Seq<char>,
    span: (u32, u32),
) -> bool {
    m.kind == kind && m.key == key && m.name == name && (m.span.start, m.span.end) == span
}

proof fn lemma_segments_through(prefix: Seq<Seq<char>>, p: Package, way: Seq<int>)
    requires
        way.len() > 0,
        leads_on(p, way),
    ensures
        segments_at(prefix, p, way) == segments_at(
            package_prefix(prefix, p.packages@[way[0]]),
            p.packages@[way[0]],
            way.skip(1),
        ),
{
    let q = p.packages@[way[0]];
    assert(package_prefix(prefix, q) =~= prefix + package_segments(q));
}

proof fn lemma_systems_first_has(
    prefix: Seq<Seq<char>>,
    v: Vec<Package>,
    n: nat,
    i: int,
    x: (ItemModel, System),
)
    requires
        0 <= i < n <= v@.len(),
        systems_in(package_prefix(prefix, v@[i]), v@[i]).contains(x),
    ensures
        systems_in_first(prefix, v, n).contains(x),
    decreases n,
{
    lemma_sum_contains(
        systems_in_first(prefix, v, (n - 1) as nat),
        systems_in(package_prefix(prefix, v@[n - 1]), v@[n - 1]),
        x,
    );
    if i < n - 1 {
        lemma_systems_first_has(prefix, v, (n - 1) as nat, i, x);
    }
}

proof fn lemma_system_item(prefix: Seq<Seq<char>>, p: Package, way: Seq<int>, k: int, s: System) -> (m:
    ItemModel)
    requires
        system_stands(p, way, k, s),
    ensures
        is_item(
            m,
            ItemKind::System,
            full_name(prefix, p, way, s.name),
            own_name(s.name),
            own_span(s.name, s.span),
        ),
        systems_in(prefix, p).contains((m, s)),
    decreases way.len(),
{
    let own = p.systems@.map_values(
        |s: System| (qualified_item(prefix, s.name, ItemKind::System, s.span), s),
    );
    let inner = systems_in_first(prefix, p.packages, p.packages@.len());
    if way.len() == 0 {
        let m = qualified_item(prefix, s.name, ItemKind::System, s.span);
        assert(own[k] == (m, s));
        lemma_sum_contains(own, inner, (m, s));
        m
    } else {
        let q = p.packages@[way[0]];
        lemma_segments_through(prefix, p, way);
        let m = lemma_system_item(package_prefix(prefix, q), q, way.skip(1), k, s);
        lemma_systems_first_has(prefix, p.packages, p.packages@.len(), way[0], (m, s));
        lemma_sum_contains(own, inner, (m, s));
        m
    }
}

proof fn lemma_externals_first_has(
    prefix: Seq<Seq<char>>,
    v: Vec<Package>,
    n: nat,
    i: int,
    x: ItemModel,
)
    requires
        0 <= i < n <= v@.len(),
        externals_in(package_prefix(prefix, v@[i]), v@[i]).contains(x),
    ensures
        externals_in_first(prefix, v, n).contains(x),
    decreases n,
{
    lemma_sum_contains(
        externals_in_first(prefix, v, (n - 1) as nat),
        externals_in(package_prefix(prefix, v@[n - 1]), v@[n - 1]),
        x,
    );
    if i < n - 1 {
        lemma_externals_first_has(prefix, v, (n - 1) as nat, i, x);
    }
}

proof fn lemma_external_item(
    prefix: Seq<Seq<char>>,
    p: Package,
    way: Seq<int>,
    k: int,
    f: ExternalFunction,
) -> (m: ItemModel)
    requires
        external_stands(p, way, k, f),
    ensures
        is_item(
            m,
            ItemKind::ExternalFunction,
            full_name(prefix, p, way, f.name),
            own_name(f.name),
            own_span(f.name, f.span),
        ),
        externals_in(prefix, p).contains(m),
    decreases way.len(),
{
    let own = p.externals@.map_values(
        |f: ExternalFunction| qualified_item(prefix, f.name, ItemKind::ExternalFunction, f.span),
    );
    let inner = externals_in_first(prefix, p.packages, p.packages@.len());
    if way.len() == 0 {
        let m = qualified_item(prefix, f.name, ItemKind::ExternalFunction, f.span);
        assert(own[k] == m);
        lemma_sum_contains(own, inner, m);
        m
    } else {
        let q = p.packages@[way[0]];
        lemma_segments_through(prefix, p, way);
        let m = lemma_external_item(package_prefix(prefix, q), q, way.skip(1), k, f);
        lemma_externals_first_has(prefix, p.packages, p.packages@.len(), way[0], m);
        lemma_sum_contains(own, inner, m);
        m
    }
}

proof fn lemma_clash_of(items: Seq<ItemModel>, a: ItemModel, b: ItemModel)
    requires
        items.contains(a),
        items.contains(b),
        a.key == b.key,
        a != b,
        a.kind != ItemKind::UseEquation,
    ensures
        clashes(items).contains(clash_issue(a)),
        clashes(items).contains(clash_issue(b)),
{
    let i = choose|i: int| 0 <= i < items.len() && items[i] == a;
    let j = choose|j: int| 0 <= j < items.len() && items[j] == b;
    if i < j {
        assert(items[i].key == items[i].key);
        assert(pair_clashes(items, i, j));
        both_of_a_clashing_pair_are_reported(items, i, j);
    } else {
        assert(items[i].key == items[j].key);
        assert(pair_clashes(items, j, i));
        both_of_a_clashing_pair_are_reported(items, j, i);
    }
}

/// Two systems of one full name are both reported as duplicates, wherever in the file they stand.
pub proof fn systems_of_one_name_are_reported(
    root: Package,
    a_way: Seq<int>,
    a_place: int,
    a: System,
    b_way: Seq<int>,
    b_place: int,
    b: System,
)
    requires
        system_stands(root, a_way, a_place, a),
        system_stands(root, b_way, b_place, b),
        full_name(Seq::empty(), root, a_way, a.name) == full_name(
            Seq::empty(),
            root,
            b_way,
            b.name,
        ),
        own_span(a.name, a.span) != own_span(b.name, b.span),
    ensures
        program_report(root).contains(
            issue(
                IssueKind::DuplicateSystem,
                seq![own_name(a.name)],
                own_span(a.name, a.span),
            ),
        ),
        program_report(root).contains(
            issue(
                IssueKind::DuplicateSystem,
                seq![own_name(b.name)],
                own_span(b.name, b.span),
            ),
        ),
{
    let all = program_systems(seq![root]);
    assert(seq![root].drop_last() =~= Seq::empty());
    reveal_with_fuel(program_systems, 2);
    assert(seq![root].last() == root);
    assert(all =~= systems_in(Seq::empty(), root));
    let m = lemma_system_item(Seq::empty(), root, a_way, a_place, a);
    let n = lemma_system_item(Seq::empty(), root, b_way, b_place, b);
    let items = items_of(all);
    let i = choose|i: int| 0 <= i < all.len() && all[i] == (m, a);
    let j = choose|j: int| 0 <= j < all.len() && all[j] == (n, b);
    assert(items[i] == m);
    assert(items[j] == n);
    lemma_clash_of(items, m, n);
    let externals = clashes(program_externals(seq![root]));
    lemma_sum_contains(clashes(items), externals, clash_issue(m));
    lemma_sum_contains(clashes(items), externals, clash_issue(n));
    lemma_sum_contains(shared_clashes(seq![root]), reserved_in(root), clash_issue(m));
    lemma_sum_contains(shared_clashes(seq![root]), reserved_in(root), clash_issue(n));
}

/// Two external functions of one full name are both reported as duplicates, wherever in the file
/// they stand.
pub proof fn externals_of_one_name_are_reported(
    root: Package,
    a_way: Seq<int>,
    a_place: int,
    a: ExternalFunction,
    b_way: Seq<int>,
    b_place: int,
    b: ExternalFunction,
)
    requires
        external_stands(root, a_way, a_place, a),
        external_stands(root, b_way, b_place, b),
        full_name(Seq::empty(), root, a_way, a.name) == full_name(
            Seq::empty(),
            root,
            b_way,
            b.name,
        ),
        own_span(a.name, a.span) != own_span(b.name, b.span),
    ensures
        program_report(root).contains(
            issue(
                IssueKind::DuplicateExternalFunction,
                seq![own_name(a.name)],
                own_span(a.name, a.span),
            ),
        ),
        program_report(root).contains(
            issue(
                IssueKind::DuplicateExternalFunction,
                seq![own_name(b.name)],
                own_span(b.name, b.span),
            ),
        ),
{
    let items = program_externals(seq![root]);
    assert(seq![root].drop_last() =~= Seq::empty());
    reveal_with_fuel(program_externals, 2);
    assert(seq![root].last() == root);
    assert(items =~= externals_in(Seq::empty(), root));
    let m = lemma_external_item(Seq::empty(), root, a_way, a_place, a);
    let n = lemma_external_item(Seq::empty(), root, b_way, b_place, b);
    lemma_clash_of(items, m, n);
    let systems = clashes(items_of(program_systems(seq![root])));
    lemma_sum_contains(systems, clashes(items), clash_issue(m));
    lemma_sum_contains(systems, clashes(items), clash_issue(n));
    lemma_sum_contains(shared_clashes(seq![root]), reserved_in(root), clash_issue(m));
    lemma_sum_contains(shared_clashes(seq![root]), reserved_in(root), clash_issue(n));
}

} // verus!
