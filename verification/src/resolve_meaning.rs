//! What a name and a domain of a program stand for.
use crate::resolve::{
    as_domain, calc_value, constant_value, container_constants, entries_of, entry_place,
    next_with_domain, object_place, object_value, rectangle_text, room, scope_constants,
    section_decls, token_text, variable_set, EntryModel, Visit,
};
use crate::scan::{cut, drop_leading, head, numeral_value, pieces, trimmed, Class};
use crate::syntax::{Constant, ObjectDecl, Span, System, Token};
use crate::text::{dec, dec_int, joined};
use vstd::prelude::*;

verus! {

proof fn lemma_constant_sum(a: Seq<(Seq<char>, int)>, b: Seq<(Seq<char>, int)>, name: Seq<char>)
    ensures
        constant_value(a + b, name) == match constant_value(b, name) {
            Some(n) => Some(n),
            None => constant_value(a, name),
        },
    decreases b.len(),
{
    if b.len() == 0 {
        assert(a + b =~= a);
    } else {
        assert((a + b).last() == b.last());
        assert((a + b).drop_last() =~= a + b.drop_last());
        lemma_constant_sum(a, b.drop_last(), name);
    }
}

/// A constant of an outer container hides one of the same name further in.
pub proof fn an_outer_constant_hides_an_inner_one(
    scopes: Seq<Vec<Constant>>,
    name: Seq<char>,
)
    requires
        scopes.len() > 0,
    ensures
        constant_value(scope_constants(scopes), name) == match constant_value(
            container_constants(scopes.last()@),
            name,
        ) {
            Some(n) => Some(n),
            None => constant_value(scope_constants(scopes.drop_last()), name),
        },
{
    lemma_constant_sum(
        scope_constants(scopes.drop_last()),
        container_constants(scopes.last()@),
        name,
    );
}

/// Declaration `c` gives `name` the value `n`.
pub open spec fn gives(c: Constant, name: Seq<char>, n: int) -> bool {
    &&& c.name matches Some(own) && own.text@ == name
    &&& c.value matches Some(value) && numeral_value(value@) == Some(n)
    &&& i64::MIN <= n <= i64::MAX
}

/// A constant of a container has the value that its last declaration with a fitting number gives.
pub proof fn a_constant_has_its_declared_value(all: Seq<Constant>, name: Seq<char>)
    ensures
        match constant_value(container_constants(all), name) {
            Some(n) => exists|i: int|
                0 <= i < all.len() && #[trigger] gives(all[i], name, n) && forall|j: int, m: int|
                    i < j < all.len() ==> !#[trigger] gives(all[j], name, m),
            None => forall|j: int, m: int|
                0 <= j < all.len() ==> !#[trigger] gives(all[j], name, m),
        },
    decreases all.len(),
{
    if all.len() > 0 {
        let before = all.drop_last();
        let last = all.last();
        a_constant_has_its_declared_value(before, name);
        assert forall|j: int| 0 <= j < before.len() implies #[trigger] before[j] == all[j] by {}
        let found = constant_value(container_constants(all), name);
        let earlier = container_constants(before);
        if container_constants(all).len() > earlier.len() {
            assert(container_constants(all).drop_last() =~= earlier);
        }
        if exists|m: int| gives(last, name, m) {
            let m = choose|m: int| gives(last, name, m);
            assert(found == Some(m));
            assert(gives(all[all.len() - 1], name, m));
        } else {
            assert(found == constant_value(earlier, name)) by {
                if last.value is Some && numeral_value(last.value->0@) is Some {
                    let n = numeral_value(last.value->0@)->0;
                    assert(!gives(last, name, n));
                }
            }
            match found {
                Some(n) => {
                    let i = choose|i: int|
                        0 <= i < before.len() && #[trigger] gives(before[i], name, n) && forall|
                            j: int,
                            m: int,
                        | i < j < before.len() ==> !#[trigger] gives(before[j], name, m);
                    assert(gives(all[i], name, n));
                    assert forall|j: int, m: int| i < j < all.len() implies !#[trigger] gives(
                        all[j],
                        name,
                        m,
                    ) by {
                        if j < before.len() {
                            assert(!gives(before[j], name, m));
                        }
                    }
                },
                None => {
                    assert forall|j: int, m: int| 0 <= j < all.len() implies !#[trigger] gives(
                        all[j],
                        name,
                        m,
                    ) by {
                        if j < before.len() {
                            assert(!gives(before[j], name, m));
                        }
                    }
                },
            }
        }
    }
}

/// In a text only the names of constants are replaced, each by the numeral of its value.
pub proof fn only_constants_are_replaced(t: Token, constants: Seq<(Seq<char>, int)>)
    ensures
        token_text(t, constants) == match t {
            Token::Other(s) => s@,
            Token::Ident(s) => if constant_value(constants, s@) is Some {
                dec_int(constant_value(constants, s@)->0)
            } else {
                s@
            },
        },
{
}

/// A name stands for the last variable that is declared by it.
pub proof fn a_name_is_that_of_its_last_declaration(entries: Seq<EntryModel>, name: Seq<char>)
    ensures
        match entry_place(entries, name) {
            Some(i) => 0 <= i < entries.len() && entries[i].name == name && forall|j: int|
                i < j < entries.len() ==> (#[trigger] entries[j]).name != name,
            None => forall|j: int|
                0 <= j < entries.len() ==> (#[trigger] entries[j]).name != name,
        },
    decreases entries.len(),
{
    if entries.len() > 0 && entries.last().name != name {
        let before = entries.drop_last();
        a_name_is_that_of_its_last_declaration(before, name);
        assert forall|j: int| 0 <= j < before.len() implies #[trigger] before[j] == entries[j] by {}
        match entry_place(entries, name) {
            Some(i) => {
                assert forall|j: int| i < j < entries.len() implies (#[trigger] entries[j]).name
                    != name by {
                    if j < before.len() {
                        assert(before[j].name != name);
                    }
                }
                assert(before[i] == entries[i]);
            },
            None => {
                assert forall|j: int| 0 <= j < entries.len() implies (#[trigger] entries[j]).name
                    != name by {
                    if j < before.len() {
                        assert(before[j].name != name);
                    }
                }
            },
        }
    }
}

/// An object is called `name`.
pub open spec fn is_called(o: ObjectDecl, name: Seq<char>) -> bool {
    o.name matches Some(n) && n.text@ == name
}

/// A name stands for the last object that is defined by it.
pub proof fn a_name_is_that_of_its_last_object(objects: Seq<ObjectDecl>, name: Seq<char>)
    ensures
        match object_place(objects, name) {
            Some(i) => 0 <= i < objects.len() && is_called(objects[i], name) && forall|j: int|
                i < j < objects.len() ==> !is_called(#[trigger] objects[j], name),
            None => forall|j: int|
                0 <= j < objects.len() ==> !is_called(#[trigger] objects[j], name),
        },
    decreases objects.len(),
{
    if objects.len() > 0 && !is_called(objects.last(), name) {
        let before = objects.drop_last();
        a_name_is_that_of_its_last_object(before, name);
        match object_place(objects, name) {
            Some(i) => {
                assert forall|j: int| i < j < objects.len() implies !is_called(
                    #[trigger] objects[j],
                    name,
                ) by {
                    if j < before.len() {
                        assert(!is_called(before[j], name));
                    }
                }
                assert(before[i] == objects[i]);
            },
            None => {
                assert forall|j: int| 0 <= j < objects.len() implies !is_called(
                    #[trigger] objects[j],
                    name,
                ) by {
                    if j < before.len() {
                        assert(!is_called(before[j], name));
                    }
                }
            },
        }
    }
}

/// A declared variable whose declaration has a domain stands for that domain.
pub proof fn a_variable_has_its_declared_domain(
    s: System,
    name: Seq<char>,
    path: Seq<Visit>,
    i: int,
)
    requires
        entry_place(entries_of(s), name) == Some(i),
        section_decls(s, entries_of(s)[i].section)[entries_of(s)[i].index].domain is Some,
        !path.contains(Visit::Variable(name)),
        room(s, path) > 0,
    ensures
        ({
            let d = section_decls(s, entries_of(s)[i].section)[entries_of(s)[i].index].domain->0;
            variable_set(s, name, path) == as_domain(
                calc_value(s, d, path.push(Visit::Variable(name))),
                d.span,
            )
        }),
{
}

/// A declared variable without a domain of its own has that of the next declaration with one.
pub proof fn a_variable_shares_the_domain_that_follows(
    s: System,
    name: Seq<char>,
    path: Seq<Visit>,
    i: int,
    j: int,
    next: Seq<char>,
)
    requires
        entry_place(entries_of(s), name) == Some(i),
        ({
            let e = entries_of(s)[i];
            let decls = section_decls(s, e.section);
            decls[e.index].domain is None && next_with_domain(decls, e.index) == Some(j)
                && decls[j].name is Some && decls[j].name->0.text@ == next
        }),
        !path.contains(Visit::Variable(name)),
        room(s, path) > 0,
    ensures
        variable_set(s, name, path) == variable_set(s, next, path.push(Visit::Variable(name))),
{
}

/// A name that nothing is declared by, and one that leads back to itself, stand for no domain.
pub proof fn an_undefined_or_cyclic_name_has_no_domain(s: System, name: Seq<char>, path: Seq<Visit>)
    ensures
        (forall|k: int|
            0 <= k < entries_of(s).len() ==> (#[trigger] entries_of(s)[k]).name != name)
            ==> variable_set(s, name, path) is Failed,
        path.contains(Visit::Variable(name)) ==> variable_set(s, name, path) is Failed,
        (forall|k: int|
            0 <= k < s.objects@.len() ==> !is_called(#[trigger] s.objects@[k], name)) ==> (forall|
            at: Span,
        | (#[trigger] object_value(s, name, at, path)) is Failed),
        path.contains(Visit::Object(name)) ==> (forall|at: Span|
            (#[trigger] object_value(s, name, at, path)) is Failed),
{
    a_name_is_that_of_its_last_declaration(entries_of(s), name);
    a_name_is_that_of_its_last_object(s.objects@, name);
}

/// How a text about the indices of a point is read.
pub struct BoxReading {
    /// The value of a bound.
    pub bound: spec_fn(Seq<char>) -> int,
    /// Whether a constraint holds at a point.
    pub holds: spec_fn(Seq<char>, Seq<int>) -> bool,
    /// The points of a set.
    pub points: spec_fn(Seq<char>) -> Set<Seq<int>>,
}

/// The bounds that the text of a rectangular domain lists.
pub open spec fn bounds_of(text: Seq<char>) -> Seq<Seq<char>> {
    pieces(head(drop_leading(text, Class::Only('[')), ']'), ',').map_values(
        |p: Seq<char>| trimmed(p),
    )
}

/// The names of the indices: those given, or one made up for each bound.
pub open spec fn index_names(text: Seq<char>, names: Seq<Seq<char>>) -> Seq<Seq<char>> {
    if names.len() > 0 {
        names
    } else {
        Seq::new(bounds_of(text).len(), |i: int| "__rect"@ + dec(i as nat))
    }
}

/// Where a bound begins: at what stands before its colon, or at zero.
pub open spec fn lower(bound: Seq<char>, r: BoxReading) -> int {
    match cut(bound, ':') {
        Some((lo, hi)) => (r.bound)(trimmed(lo)),
        None => 0,
    }
}

/// Where a bound ends: before what stands after its colon, or before the bound itself.
pub open spec fn upper(bound: Seq<char>, r: BoxReading) -> int {
    match cut(bound, ':') {
        Some((lo, hi)) => (r.bound)(trimmed(hi)),
        None => (r.bound)(trimmed(bound)),
    }
}

/// The text `from <= name < to`, as a program in the notation of sets writes it.
pub open spec fn between(from: Seq<char>, name: Seq<char>, to: Seq<char>) -> Seq<char> {
    from + "<="@ + name + "<"@ + to
}

pub open spec fn from_text(bound: Seq<char>) -> Seq<char> {
    match cut(bound, ':') {
        Some((lo, hi)) => trimmed(lo),
        None => "0"@,
    }
}

pub open spec fn to_text(bound: Seq<char>) -> Seq<char> {
    match cut(bound, ':') {
        Some((lo, hi)) => trimmed(hi),
        None => trimmed(bound),
    }
}

/// The texts of a rectangular domain mean what the notation of sets says: a numeral its number, a
/// chain of comparisons that each holds, and a set the points at which all its constraints hold.
pub open spec fn box_read(text: Seq<char>, names: Seq<Seq<char>>, r: BoxReading) -> bool {
    let bounds = bounds_of(text);
    let all = index_names(text, names);
    let constraints = Seq::new(
        bounds.len(),
        |k: int| between(from_text(bounds[k]), all[k], to_text(bounds[k])),
    );
    &&& (r.bound)("0"@) == 0
    &&& forall|k: int, p: Seq<int>|
        0 <= k < bounds.len() && p.len() == all.len() ==> (#[trigger] (r.holds)(constraints[k], p)
            <==> (r.bound)(from_text(bounds[k])) <= p[k] < (r.bound)(to_text(bounds[k])))
    &&& forall|p: Seq<int>| #[trigger]
        (r.points)(
            "{ ["@ + joined(all, ","@) + "] : "@ + joined(constraints, " and "@) + " }"@,
        ).contains(p) <==> p.len() == all.len() && forall|k: int|
            0 <= k < constraints.len() ==> #[trigger] (r.holds)(constraints[k], p)
}

/// A rectangular domain with a name for each bound holds exactly the points whose every index lies
/// from its lower to before its upper bound.
pub proof fn a_rectangle_holds_the_points_within_its_bounds(
    text: Seq<char>,
    names: Seq<Seq<char>>,
    r: BoxReading,
    p: Seq<int>,
)
    requires
        index_names(text, names).len() == bounds_of(text).len(),
        box_read(text, names, r),
    ensures
        (r.points)(rectangle_text(text, names)).contains(p) <==> p.len() == bounds_of(text).len()
            && forall|k: int|
            0 <= k < p.len() ==> lower(bounds_of(text)[k], r) <= #[trigger] p[k] < upper(
                bounds_of(text)[k],
                r,
            ),
{
    let bounds = bounds_of(text);
    let all = index_names(text, names);
    let constraints = Seq::new(
        bounds.len(),
        |k: int| between(from_text(bounds[k]), all[k], to_text(bounds[k])),
    );
    reveal_strlit("0<=");
    reveal_strlit("0");
    reveal_strlit("<=");
    assert("0<="@ =~= "0"@ + "<="@);
    let used = Seq::new(
        bounds.len(),
        |k: int| crate::resolve::rectangle_constraint(bounds[k], all[k]),
    );
    assert forall|k: int| 0 <= k < bounds.len() implies #[trigger] used[k] == constraints[k] by {
        assert(used[k] =~= constraints[k]);
    }
    assert(used =~= constraints);
    let given = "{ ["@ + joined(all, ","@) + "] : "@ + joined(constraints, " and "@) + " }"@;
    assert(rectangle_text(text, names) == given);
    if (r.points)(given).contains(p) {
        assert forall|k: int| 0 <= k < p.len() implies lower(bounds[k], r) <= #[trigger] p[k]
            < upper(bounds[k], r) by {
            assert((r.holds)(constraints[k], p));
        }
    }
    if p.len() == bounds.len() && forall|k: int|
        0 <= k < p.len() ==> lower(bounds[k], r) <= #[trigger] p[k] < upper(bounds[k], r) {
        assert forall|k: int| 0 <= k < constraints.len() implies #[trigger] (r.holds)(
            constraints[k],
            p,
        ) by {
            assert(lower(bounds[k], r) <= p[k] < upper(bounds[k], r));
        }
    }
}

} // verus!
