//! What the checks of linear values ask of each declaration, expression and equation.
use crate::linear_calls::{
    all_equations, call_issues, definition_issues, equation_issues, equations_issues, equations_of,
    expr_type, operation_named, port_issues, qubit_issue, qubit_issues, widened_outputs,
};
use crate::linear_checks::{linear_report, LinearAnswers};
use crate::linearity::{
    first_linear, first_misuses, is_linear, linear_value, mentions_linear, misuses, ports_of,
    refused_args, World,
};
use crate::multiplicity::Multiplicity;
use crate::operation::{Port, RegisteredOperation};
use crate::resolve::{
    entries_of, group_multiplicity, group_type, next_with_domain, section_decls, section_entries,
    EntryModel, Section,
};
use crate::syntax::{
    Decl, Equation, Expr, ExprKind, StandardEquation, System, SystemBody, UseEquation,
};
use crate::text::{joined, views};
use crate::ty::ElementType;
use crate::walk::{
    is_named, is_part, lemma_subtree, names_are_those_of_the_variables, subtree, variable_names,
};
use vstd::prelude::*;

verus! {

/// A declaration of a variable that the program can name.
pub open spec fn is_nameable(d: Decl) -> bool {
    !d.fuzzy && d.name is Some
}

/// A linear name at place `j` opens the group that place `k` is in: no group ends between.
pub open spec fn opens_linear(decls: Seq<Decl>, j: int, k: int) -> bool {
    0 <= j <= k < decls.len() && is_nameable(decls[j]) && decls[j].linear && forall|m: int|
        j <= m < k && is_nameable(#[trigger] decls[m]) ==> decls[m].domain is None
}

proof fn lemma_group_step(decls: Seq<Decl>, k: int)
    requires
        0 < k < decls.len(),
        !is_nameable(decls[k - 1]) || (decls[k - 1].domain is None && !decls[k - 1].linear),
    ensures
        group_multiplicity(decls.take(k)) == Multiplicity::Linear <==> exists|j: int|
            opens_linear(decls, j, k) && j < k,
    decreases k, 0int,
{
    let t = decls.take(k);
    let d = decls[k - 1];
    assert(t.last() == d);
    assert(t.drop_last() =~= decls.take(k - 1));
    lemma_group_below(decls, k - 1);
    if exists|j: int| opens_linear(decls, j, k) && j < k {
        let j = choose|j: int| opens_linear(decls, j, k) && j < k;
        assert(j != k - 1);
        let p = k - 1;
        assert(opens_linear(decls, j, p) && j < p);
    }
    let p = k - 1;
    if exists|j: int| opens_linear(decls, j, p) && j < p {
        let j = choose|j: int| opens_linear(decls, j, p) && j < p;
        assert forall|m: int|
            j <= m < k && is_nameable(#[trigger] decls[m]) implies decls[m].domain is None by {
            if m < k - 1 {
                assert(decls[m].domain is None);
            }
        }
        assert(opens_linear(decls, j, k) && j < k);
    }
}

proof fn lemma_group_below(decls: Seq<Decl>, k: int)
    requires
        0 <= k < decls.len(),
    ensures
        group_multiplicity(decls.take(k)) == Multiplicity::Linear <==> exists|j: int|
            opens_linear(decls, j, k) && j < k,
    decreases k, 1int,
{
    if k > 0 {
        let t = decls.take(k);
        let d = decls[k - 1];
        assert(t.last() == d);
        assert(t.drop_last() =~= decls.take(k - 1));
        if is_nameable(d) && d.domain is None && d.linear {
            assert(opens_linear(decls, k - 1, k));
        } else if is_nameable(d) && d.domain is Some {
            assert forall|j: int| j < k implies !opens_linear(decls, j, k) by {
                assert(decls[k - 1] == d);
            }
        } else {
            lemma_group_step(decls, k);
        }
    }
}

/// An entry stands for the declaration at its place, under its name; it is linear exactly when its
/// group has a linear name at its place or before.
pub open spec fn is_entry_of(section: Section, decls: Seq<Decl>, e: EntryModel) -> bool {
    &&& e.section == section
    &&& 0 <= e.index < decls.len()
    &&& is_nameable(decls[e.index])
    &&& e.name == decls[e.index].name->0.text@
    &&& e.multiplicity == Multiplicity::Linear <==> exists|j: int| opens_linear(decls, j, e.index)
}

proof fn lemma_entry_grows(section: Section, decls: Seq<Decl>, e: EntryModel)
    requires
        decls.len() > 0,
        0 <= e.index < decls.len() - 1,
    ensures
        is_entry_of(section, decls, e) == is_entry_of(section, decls.drop_last(), e),
{
    let w = decls.drop_last();
    assert forall|j: int|
        #[trigger] opens_linear(decls, j, e.index) == opens_linear(w, j, e.index) by {
        assert forall|m: int| 0 <= m < w.len() implies #[trigger] w[m] == decls[m] by {}
        if opens_linear(decls, j, e.index) {
            assert forall|m: int|
                j <= m < e.index && is_nameable(#[trigger] w[m]) implies w[m].domain is None by {
                assert(decls[m].domain is None);
            }
        }
        if opens_linear(w, j, e.index) {
            assert forall|m: int|
                j <= m < e.index && is_nameable(
                    #[trigger] decls[m],
                ) implies decls[m].domain is None by {
                assert(w[m].domain is None);
            }
        }
    }
    if exists|j: int| opens_linear(w, j, e.index) {
        let j = choose|j: int| opens_linear(w, j, e.index);
        assert(opens_linear(decls, j, e.index));
    }
}

/// The variables of a section are its nameable declarations.
pub proof fn entries_are_the_declared_variables(section: Section, decls: Seq<Decl>, e: EntryModel)
    ensures
        section_entries(section, decls).contains(e) ==> is_entry_of(section, decls, e),
        is_entry_of(section, decls, e) ==> section_entries(section, decls).contains(e),
    decreases decls.len(),
{
    if decls.len() > 0 {
        let before = section_entries(section, decls.drop_last());
        let all = section_entries(section, decls);
        let d = decls.last();
        let k = decls.len() - 1;
        assert(decls.drop_last() =~= decls.take(k));
        entries_are_the_declared_variables(section, decls.drop_last(), e);
        if 0 <= e.index < k {
            lemma_entry_grows(section, decls, e);
        }
        if before.contains(e) {
            let i = choose|i: int| 0 <= i < before.len() && before[i] == e;
            assert(all[i] == e);
        }
        if is_nameable(d) {
            let own = all[before.len() as int];
            assert(all == before.push(own));
            assert(all.contains(own));
            lemma_group_below(decls, k);
            if d.linear {
                assert(opens_linear(decls, k, k));
            } else {
                assert((exists|j: int| opens_linear(decls, j, k)) <==> exists|j: int|
                    opens_linear(decls, j, k) && j < k) by {
                    if exists|j: int| opens_linear(decls, j, k) {
                        let j = choose|j: int| opens_linear(decls, j, k);
                        assert(j < k);
                        assert(opens_linear(decls, j, k) && j < k);
                    }
                }
            }
            assert(is_entry_of(section, decls, own));
            if is_entry_of(section, decls, e) && e.index == k {
                assert(e.multiplicity == own.multiplicity);
                assert(e == own);
            }
            if all.contains(e) {
                let i = choose|i: int| 0 <= i < all.len() && all[i] == e;
                if i < before.len() {
                    assert(before[i] == e);
                }
            }
        }
    }
}

/// A variable without a domain of its own shares that of the next declaration that has one, unless
/// a fuzzy declaration comes between.
pub proof fn a_shared_domain_is_the_next_one(decls: Seq<Decl>, i: int)
    requires
        0 <= i < decls.len(),
    ensures
        match next_with_domain(decls, i) {
            Some(j) => i < j < decls.len() && decls[j].domain is Some && forall|m: int|
                i < m <= j ==> !(#[trigger] decls[m]).fuzzy && (m < j ==> decls[m].domain is None),
            None => forall|j: int|
                i < j < decls.len() && (#[trigger] decls[j]).domain is Some ==> exists|m: int|
                    i < m <= j && (#[trigger] decls[m]).fuzzy,
        },
    decreases decls.len() - i,
{
    if i + 1 < decls.len() {
        let n = decls[i + 1];
        if !n.fuzzy && n.domain is None {
            a_shared_domain_is_the_next_one(decls, i + 1);
            if next_with_domain(decls, i) is None {
                assert forall|j: int|
                    i < j < decls.len() && (#[trigger] decls[j]).domain is Some implies exists|
                    m: int,
                | i < m <= j && (#[trigger] decls[m]).fuzzy by {
                    assert(j != i + 1);
                }
            }
        } else if n.fuzzy {
            assert forall|j: int|
                i < j < decls.len() && (#[trigger] decls[j]).domain is Some implies exists|m: int|
                i < m <= j && (#[trigger] decls[m]).fuzzy by {
                assert(decls[i + 1].fuzzy);
            }
        }
    }
}

/// `e` hands the value of its part `x` on.
pub open spec fn hands_on(e: Expr, x: Expr) -> bool {
    match e.kind {
        ExprKind::Paren { inner } => is_it(inner, x),
        ExprKind::Restrict { domain, expr } => is_it(expr, x),
        ExprKind::AutoRestrict { expr } => is_it(expr, x),
        ExprKind::Dependence { function, expr } => is_it(expr, x),
        ExprKind::Case { branches } => branches@.contains(x),
        ExprKind::If { cond, then_branch, else_branch } => is_it(then_branch, x) || is_it(
            else_branch,
            x,
        ),
        _ => false,
    }
}

pub open spec fn is_it(part: Option<Box<Expr>>, x: Expr) -> bool {
    part matches Some(p) && *p == x
}

proof fn lemma_first_linear(w: World, v: Vec<Expr>, n: nat)
    requires
        n <= v@.len(),
    ensures
        first_linear(w, v, n) <==> exists|i: int| 0 <= i < n && linear_value(w, #[trigger] v@[i]),
    decreases n,
{
    if n > 0 {
        lemma_first_linear(w, v, (n - 1) as nat);
    }
}

/// A value is linear exactly when it is that of a linear variable, the first result of a call that
/// gives a linear one, or handed on from a linear value.
pub proof fn linear_values_come_from_linear_variables_and_calls(w: World, e: Expr)
    ensures
        linear_value(w, e) <==> {
            ||| exists|n: Seq<char>| #[trigger] is_named(e, n) && is_linear(w.system, n)
            ||| e.kind matches ExprKind::MultiArg { operator, .. } && (ports_of(w, operator@)
                matches Some(p) && p.outputs.len() > 0 && p.outputs[0] == Multiplicity::Linear)
            ||| exists|x: Expr| #[trigger] hands_on(e, x) && linear_value(w, x)
        },
{
    match e.kind {
        ExprKind::Variable { name } => {
            if let Some(n) = name {
                assert(is_named(e, n@));
            }
        },
        ExprKind::Paren { inner } => {
            if let Some(x) = inner {
                assert(hands_on(e, *x));
            }
        },
        ExprKind::Restrict { domain, expr } => {
            if let Some(x) = expr {
                assert(hands_on(e, *x));
            }
        },
        ExprKind::AutoRestrict { expr } => {
            if let Some(x) = expr {
                assert(hands_on(e, *x));
            }
        },
        ExprKind::Dependence { function, expr } => {
            if let Some(x) = expr {
                assert(hands_on(e, *x));
            }
        },
        ExprKind::Case { branches } => {
            lemma_first_linear(w, branches, branches@.len());
            if linear_value(w, e) {
                let i = choose|i: int|
                    0 <= i < branches@.len() && linear_value(w, #[trigger] branches@[i]);
                assert(hands_on(e, branches@[i]));
            }
            if exists|x: Expr| #[trigger] hands_on(e, x) && linear_value(w, x) {
                let x = choose|x: Expr| #[trigger] hands_on(e, x) && linear_value(w, x);
                let i = choose|i: int| 0 <= i < branches@.len() && branches@[i] == x;
                assert(linear_value(w, branches@[i]));
            }
        },
        ExprKind::If { cond, then_branch, else_branch } => {
            if let Some(x) = then_branch {
                assert(hands_on(e, *x));
            }
            if let Some(x) = else_branch {
                assert(hands_on(e, *x));
            }
        },
        _ => {},
    }
}

pub open spec fn is_linear_part(w: World, part: Option<Box<Expr>>) -> bool {
    part matches Some(x) && linear_value(w, *x)
}

/// No linear variable stands inside the part.
pub open spec fn free_of_linear(s: System, part: Option<Box<Expr>>) -> bool {
    part matches Some(x) ==> forall|y: Expr, n: Seq<char>|
        subtree(*x).contains(y) && #[trigger] is_named(y, n) ==> !is_linear(s, n)
}

/// What `e` itself does with linear values is allowed: none is a condition or an operand, none is
/// given to a port that takes none, and none stands inside a reduction, a selection or a
/// convolution; and no operation is called inside an expression.
pub open spec fn uses_well(w: World, e: Expr) -> bool {
    match e.kind {
        ExprKind::If { cond, then_branch, else_branch } => !is_linear_part(w, cond),
        ExprKind::Unary { operator, operand } => !is_linear_part(w, operand),
        ExprKind::Binary { operator, lhs, rhs } => !is_linear_part(w, lhs) && !is_linear_part(
            w,
            rhs,
        ),
        ExprKind::MultiArg { operator, args } => {
            &&& !exists|op: RegisteredOperation| #[trigger] op.spelling() == operator@
            &&& forall|i: int|
                0 <= i < args@.len() && linear_value(w, #[trigger] args@[i]) ==> is_linear_port(
                    w,
                    operator@,
                    i,
                )
        },
        ExprKind::Reduce { projection, body } => free_of_linear(w.system, body),
        ExprKind::Select { relation, expr } => free_of_linear(w.system, expr),
        ExprKind::Convolution { kernel_domain, kernel, data } => free_of_linear(w.system, kernel)
            && free_of_linear(w.system, data),
        _ => true,
    }
}

/// What goes by `name` takes a linear value at place `i`.
pub open spec fn is_linear_port(w: World, name: Seq<char>, i: int) -> bool {
    ports_of(w, name) matches Some(p) && i < p.inputs.len() && p.inputs[i] == Multiplicity::Linear
}

proof fn lemma_free(s: System, part: Option<Box<Expr>>)
    ensures
        free_of_linear(s, part) <==> !mentions_linear(s, part),
{
    if let Some(x) = part {
        let names = variable_names(subtree(*x));
        if mentions_linear(s, part) {
            let i = choose|i: int| 0 <= i < names.len() && is_linear(s, #[trigger] names[i]);
            assert(names.contains(names[i]));
            names_are_those_of_the_variables(subtree(*x), names[i]);
            let y = choose|y: Expr| #[trigger] subtree(*x).contains(y) && is_named(y, names[i]);
            assert(is_named(y, names[i]));
        } else {
            assert forall|y: Expr, n: Seq<char>|
                subtree(*x).contains(y) && #[trigger] is_named(y, n) implies !is_linear(s, n) by {
                names_are_those_of_the_variables(subtree(*x), n);
                assert(names.contains(n));
                let i = choose|i: int| 0 <= i < names.len() && names[i] == n;
                assert(!is_linear(s, names[i]));
            }
        }
    }
}

proof fn lemma_refused(w: World, name: Seq<char>, args: Seq<Expr>, n: nat)
    requires
        n <= args.len(),
    ensures
        refused_args(w, name, args, n).len() == 0 <==> forall|i: int|
            0 <= i < n && linear_value(w, #[trigger] args[i]) ==> is_linear_port(w, name, i),
    decreases n,
{
    if n > 0 {
        lemma_refused(w, name, args, (n - 1) as nat);
    }
}

proof fn lemma_first_misuses(w: World, v: Vec<Expr>, n: nat)
    requires
        n <= v@.len(),
    ensures
        first_misuses(w, v, n).len() == 0 <==> forall|i: int|
            0 <= i < n ==> misuses(w, #[trigger] v@[i]).len() == 0,
    decreases n,
{
    if n > 0 {
        lemma_first_misuses(w, v, (n - 1) as nat);
    }
}

proof fn lemma_listed(w: World, v: Vec<Expr>)
    ensures
        first_misuses(w, v, v@.len()).len() == 0 <==> forall|c: Expr|
            #[trigger] v@.contains(c) ==> misuses(w, c).len() == 0,
{
    lemma_first_misuses(w, v, v@.len());
    if first_misuses(w, v, v@.len()).len() == 0 {
        assert forall|c: Expr| #[trigger] v@.contains(c) implies misuses(w, c).len() == 0 by {
            let i = choose|i: int| 0 <= i < v@.len() && v@[i] == c;
            assert(misuses(w, v@[i]).len() == 0);
        }
    } else {
        let i = choose|i: int| 0 <= i < v@.len() && misuses(w, #[trigger] v@[i]).len() != 0;
        assert(v@.contains(v@[i]));
    }
}

/// Nothing is wrong with an expression exactly when it uses linear values well itself and nothing
/// is wrong with any of its parts.
pub proof fn an_expression_is_clean_with_its_parts(w: World, e: Expr)
    ensures
        misuses(w, e).len() == 0 <==> uses_well(w, e) && forall|c: Expr|
            #[trigger] is_part(c, e) ==> misuses(w, c).len() == 0,
{
    match e.kind {
        ExprKind::If { cond, then_branch, else_branch } => {
            if let Some(x) = cond {
                assert(is_part(*x, e));
            }
            if let Some(x) = then_branch {
                assert(is_part(*x, e));
            }
            if let Some(x) = else_branch {
                assert(is_part(*x, e));
            }
        },
        ExprKind::Restrict { domain, expr } => {
            if let Some(x) = expr {
                assert(is_part(*x, e));
            }
        },
        ExprKind::AutoRestrict { expr } => {
            if let Some(x) = expr {
                assert(is_part(*x, e));
            }
        },
        ExprKind::Paren { inner } => {
            if let Some(x) = inner {
                assert(is_part(*x, e));
            }
        },
        ExprKind::Dependence { function, expr } => {
            if let Some(x) = expr {
                assert(is_part(*x, e));
            }
        },
        ExprKind::Unary { operator, operand } => {
            if let Some(x) = operand {
                assert(is_part(*x, e));
            }
        },
        ExprKind::Binary { operator, lhs, rhs } => {
            if let Some(x) = lhs {
                assert(is_part(*x, e));
            }
            if let Some(x) = rhs {
                assert(is_part(*x, e));
            }
        },
        ExprKind::Case { branches } => {
            lemma_listed(w, branches);
            if forall|c: Expr| #[trigger] is_part(c, e) ==> misuses(w, c).len() == 0 {
                assert forall|c: Expr| #[trigger] branches@.contains(c) implies misuses(w, c).len()
                    == 0 by {
                    assert(is_part(c, e));
                }
            }
        },
        ExprKind::MultiArg { operator, args } => {
            lemma_listed(w, args);
            lemma_refused(w, operator@, args@, args@.len());
            if forall|c: Expr| #[trigger] is_part(c, e) ==> misuses(w, c).len() == 0 {
                assert forall|c: Expr| #[trigger] args@.contains(c) implies misuses(w, c).len()
                    == 0 by {
                    assert(is_part(c, e));
                }
            }
        },
        ExprKind::Reduce { projection, body } => {
            lemma_free(w.system, body);
            if let Some(x) = body {
                assert(is_part(*x, e));
            }
        },
        ExprKind::Select { relation, expr } => {
            lemma_free(w.system, expr);
            if let Some(x) = expr {
                assert(is_part(*x, e));
            }
        },
        ExprKind::Convolution { kernel_domain, kernel, data } => {
            lemma_free(w.system, kernel);
            lemma_free(w.system, data);
            if let Some(x) = kernel {
                assert(is_part(*x, e));
            }
            if let Some(x) = data {
                assert(is_part(*x, e));
            }
        },
        _ => {},
    }
}

/// Everything inside the expression uses linear values well.
pub open spec fn uses_well_throughout(w: World, e: Expr) -> bool {
    forall|y: Expr| #[trigger] subtree(e).contains(y) ==> uses_well(w, y)
}

/// Nothing is wrong with an expression exactly when everything inside it uses linear values well.
pub proof fn a_clean_expression_uses_linear_values_well(w: World, e: Expr)
    ensures
        misuses(w, e).len() == 0 <==> uses_well_throughout(w, e),
    decreases e,
{
    an_expression_is_clean_with_its_parts(w, e);
    lemma_subtree(e, e);
    assert forall|c: Expr| #[trigger] is_part(c, e) implies (misuses(w, c).len() == 0
        <==> uses_well_throughout(w, c)) by {
        lemma_part_smaller(c, e);
        a_clean_expression_uses_linear_values_well(w, c);
    }
    if misuses(w, e).len() == 0 {
        assert forall|y: Expr| #[trigger] subtree(e).contains(y) implies uses_well(w, y) by {
            lemma_subtree(e, y);
            if y != e {
                let c = choose|c: Expr| #[trigger] is_part(c, e) && subtree(c).contains(y);
                assert(uses_well_throughout(w, c));
            }
        }
    }
    if uses_well_throughout(w, e) {
        assert forall|c: Expr| #[trigger] is_part(c, e) implies misuses(w, c).len() == 0 by {
            assert forall|y: Expr| #[trigger] subtree(c).contains(y) implies uses_well(w, y) by {
                lemma_subtree(e, y);
                assert(is_part(c, e) && subtree(c).contains(y));
                assert(subtree(e).contains(y));
            }
            assert(uses_well_throughout(w, c));
        }
        assert(uses_well(w, e));
    }
}

proof fn lemma_part_smaller(c: Expr, e: Expr)
    requires
        is_part(c, e),
    ensures
        decreases_to!(e => c),
{
    match e.kind {
        ExprKind::Case { branches } => {
            let i = choose|i: int| 0 <= i < branches@.len() && branches@[i] == c;
            assert(decreases_to!(e => branches@[i]));
        },
        ExprKind::MultiArg { operator, args } => {
            let i = choose|i: int| 0 <= i < args@.len() && args@[i] == c;
            assert(decreases_to!(e => args@[i]));
        },
        _ => {},
    }
}

/// Every value of a call has the element type of its port.
pub open spec fn fits_ports(s: System, values: Seq<Expr>, ports: Seq<Port>) -> bool {
    values.len() == ports.len() && forall|i: int|
        0 <= i < values.len() ==> expr_type(s, #[trigger] values[i]) == ports[i].element_type
}

proof fn lemma_ports(s: System, name: Seq<char>, values: Seq<Expr>, ports: Seq<Port>, n: nat)
    requires
        n <= values.len(),
    ensures
        port_issues(s, name, values, ports, n).len() == 0 <==> forall|i: int|
            0 <= i < n ==> expr_type(s, #[trigger] values[i]) == ports[i].element_type,
    decreases n,
{
    if n > 0 {
        lemma_ports(s, name, values, ports, (n - 1) as nat);
    }
}

proof fn lemma_widened(w: World, name: Seq<char>, outputs: Seq<Expr>, n: nat)
    requires
        n <= outputs.len(),
    ensures
        widened_outputs(w, name, outputs, n).len() == 0 <==> forall|i: int|
            0 <= i < n && gives_linear_at(w, name, i) ==> linear_value(w, #[trigger] outputs[i]),
    decreases n,
{
    if n > 0 {
        lemma_widened(w, name, outputs, (n - 1) as nat);
    }
}

/// What goes by `name` gives a linear value at place `i`.
pub open spec fn gives_linear_at(w: World, name: Seq<char>, i: int) -> bool {
    ports_of(w, name) matches Some(p) && i < p.outputs.len() && p.outputs[i]
        == Multiplicity::Linear
}

/// A call is in order. One of an operation has a value of the right type for each port. Any other
/// gives a linear argument only to a port that takes one, and keeps a linear result in something
/// linear. What is called without a name is not looked at but for its arguments.
pub open spec fn calls_well(w: World, u: UseEquation) -> bool {
    &&& u.callee matches Some(segments) ==> {
        let name = joined(views(segments@), "."@);
        if exists|op: RegisteredOperation| #[trigger] op.spelling() == name {
            forall|op: RegisteredOperation| #[trigger]
                op.spelling() == name ==> fits_ports(w.system, u.inputs@, op.input_ports())
                    && fits_ports(w.system, u.outputs@, op.output_ports())
        } else {
            &&& forall|i: int|
                0 <= i < u.inputs@.len() && linear_value(w, #[trigger] u.inputs@[i])
                    ==> is_linear_port(w, name, i)
            &&& forall|i: int|
                0 <= i < u.outputs@.len() && gives_linear_at(w, name, i) ==> linear_value(
                    w,
                    #[trigger] u.outputs@[i],
                )
        }
    }
    &&& forall|c: Expr| #[trigger] u.inputs@.contains(c) ==> uses_well_throughout(w, c)
}

/// A definition is in order: a linear value is kept in a linear variable.
pub open spec fn defines_well(w: World, q: StandardEquation) -> bool {
    q.expr matches Some(x) ==> {
        &&& uses_well_throughout(w, x)
        &&& linear_value(w, x) ==> (q.variable matches Some(n) ==> is_linear(w.system, n.text@))
    }
}

pub open spec fn is_linear_in_order(w: World, eq: Equation) -> bool {
    match eq {
        Equation::Standard(q) => defines_well(w, q),
        Equation::Use(u) => calls_well(w, u),
    }
}

proof fn lemma_call(w: World, u: UseEquation)
    ensures
        call_issues(w, u).len() == 0 <==> calls_well(w, u),
{
    lemma_listed(w, u.inputs);
    assert forall|c: Expr| #[trigger] u.inputs@.contains(c) implies (misuses(w, c).len() == 0
        <==> uses_well_throughout(w, c)) by {
        a_clean_expression_uses_linear_values_well(w, c);
    }
    if let Some(segments) = u.callee {
        let name = joined(views(segments@), "."@);
        lemma_refused(w, name, u.inputs@, u.inputs@.len());
        lemma_widened(w, name, u.outputs@, u.outputs@.len());
        if exists|op: RegisteredOperation| #[trigger] op.spelling() == name {
            let op = operation_named(name)->0;
            assert(op.spelling() == name);
            lemma_ports(w.system, name, u.inputs@, op.input_ports(), u.inputs@.len());
            lemma_ports(w.system, name, u.outputs@, op.output_ports(), u.outputs@.len());
            assert forall|other: RegisteredOperation| #[trigger]
                other.spelling() == name implies other == op by {
                crate::operation::operation_names_are_distinct(other, op);
            }
        }
    }
}

proof fn lemma_definition(w: World, q: StandardEquation)
    ensures
        definition_issues(w, q).len() == 0 <==> defines_well(w, q),
{
    if let Some(x) = q.expr {
        a_clean_expression_uses_linear_values_well(w, x);
    }
}

proof fn lemma_equations(w: World, all: Seq<Equation>, n: nat)
    requires
        n <= all.len(),
    ensures
        equations_issues(w, all, n).len() == 0 <==> forall|i: int|
            0 <= i < n ==> is_linear_in_order(w, #[trigger] all[i]),
    decreases n,
{
    if n > 0 {
        lemma_equations(w, all, (n - 1) as nat);
        match all[n - 1] {
            Equation::Standard(q) => lemma_definition(w, q),
            Equation::Use(u) => lemma_call(w, u),
        }
        assert(equation_issues(w, all[n - 1]).len() == 0 <==> is_linear_in_order(w, all[n - 1]));
    }
}

proof fn lemma_all_equations(bodies: Seq<SystemBody>, n: nat, eq: Equation)
    requires
        n <= bodies.len(),
    ensures
        equations_of(bodies, n).contains(eq) <==> exists|b: int|
            0 <= b < n && (#[trigger] bodies[b]).equations@.contains(eq),
    decreases n,
{
    if n > 0 {
        lemma_all_equations(bodies, (n - 1) as nat, eq);
        crate::walk::lemma_in_sum(
            equations_of(bodies, (n - 1) as nat),
            bodies[n - 1].equations@,
            eq,
        );
        if equations_of(bodies, (n - 1) as nat).contains(eq) {
            let b = choose|b: int| 0 <= b < n - 1 && (#[trigger] bodies[b]).equations@.contains(eq);
            assert(bodies[b].equations@.contains(eq));
        }
    }
}

proof fn lemma_qubits(s: System, n: nat)
    requires
        n <= entries_of(s).len(),
    ensures
        qubit_issues(s, n).len() == 0 <==> forall|i: int|
            0 <= i < n ==> qubit_issue(s, #[trigger] entries_of(s)[i]).len() == 0,
    decreases n,
{
    if n > 0 {
        lemma_qubits(s, (n - 1) as nat);
    }
}

/// Nothing is said of a system before points are compared exactly when every variable of qubits is
/// linear and every equation of every body is in order.
pub proof fn linear_values_are_kept(w: World)
    ensures
        ({
            let s = w.system;
            let all = all_equations(s);
            &&& qubit_issues(s, entries_of(s).len()).len() == 0 <==> forall|i: int|
                0 <= i < entries_of(s).len() && group_type(
                    section_decls(s, (#[trigger] entries_of(s)[i]).section),
                    entries_of(s)[i].index,
                ) == ElementType::Qubit ==> entries_of(s)[i].multiplicity == Multiplicity::Linear
            &&& equations_issues(w, all, all.len()).len() == 0 <==> forall|b: int, eq: Equation|
                0 <= b < s.bodies@.len() && #[trigger] s.bodies@[b].equations@.contains(eq)
                    ==> is_linear_in_order(w, eq)
        }),
{
    let s = w.system;
    let all = all_equations(s);
    let n = s.bodies@.len();
    lemma_qubits(s, entries_of(s).len());
    lemma_equations(w, all, all.len());
    if equations_issues(w, all, all.len()).len() == 0 {
        assert forall|b: int, eq: Equation|
            0 <= b < n && #[trigger] s.bodies@[b].equations@.contains(eq) implies is_linear_in_order(
            w,
            eq,
        ) by {
            lemma_all_equations(s.bodies@, n, eq);
            assert(s.bodies@[b].equations@.contains(eq));
            assert(all.contains(eq));
            let i = choose|i: int| 0 <= i < all.len() && all[i] == eq;
            assert(is_linear_in_order(w, all[i]));
        }
    } else {
        let i = choose|i: int| 0 <= i < all.len() && !is_linear_in_order(w, #[trigger] all[i]);
        lemma_all_equations(s.bodies@, n, all[i]);
        assert(all.contains(all[i]));
    }
}

/// A system of whose linear values nothing is reported keeps them: its variables of qubits are
/// linear, and every equation of every body is in order.
pub proof fn a_clean_system_keeps_its_linear_values(w: World, a: LinearAnswers)
    requires
        linear_report(w, a).len() == 0,
    ensures
        forall|i: int|
            0 <= i < entries_of(w.system).len() && group_type(
                section_decls(w.system, (#[trigger] entries_of(w.system)[i]).section),
                entries_of(w.system)[i].index,
            ) == ElementType::Qubit ==> entries_of(w.system)[i].multiplicity
                == Multiplicity::Linear,
        forall|b: int, eq: Equation|
            0 <= b < w.system.bodies@.len() && #[trigger] w.system.bodies@[b].equations@.contains(
                eq,
            ) ==> is_linear_in_order(w, eq),
{
    linear_values_are_kept(w);
}

} // verus!
