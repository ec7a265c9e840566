//! Names that must be unique: of systems and external functions in a program, of variables and
//! defined objects in a system, of what the equations of a body define, and of constants.
use crate::context_names::copy_all;
use crate::diagnostic::{issue, issues, report, report_all, Diagnostic, Issue, IssueKind};
use crate::syntax::{
    Constant, Decl, Equation, Expr, ExprKind, ExternalFunction, Name, ObjectDecl, Package, Span,
    System, SystemBody,
};
use crate::text::{join, joined, push_text, str_eq, views};
use crate::walk::{
    is_named, lemma_in_sum, names_are_those_of_the_variables, referred, subtree, variable_names,
    walk_expr,
};
use vstd::prelude::*;

verus! {

/// What a name is given to.
#[derive(Debug, Clone, Copy, PartialEq, Eq, Structural)]
pub enum ItemKind {
    Variable,
    Object,
    StandardEquation,
    UseEquation,
    Constant,
    System,
    ExternalFunction,
}

/// One thing that has a name, or that defines one. Things with the same key clash.
pub struct Item {
    pub key: String,
    pub name: String,
    pub kind: ItemKind,
    pub span: Span,
}

/// An [`Item`] as a mathematical value.
pub struct ItemModel {
    pub key: Seq<char>,
    pub name: Seq<char>,
    pub kind: ItemKind,
    pub span: Span,
}

impl View for Item {
    type V = ItemModel;

    open spec fn view(&self) -> ItemModel {
        ItemModel { key: self.key@, name: self.name@, kind: self.kind, span: self.span }
    }
}

pub open spec fn item_models(v: Seq<Item>) -> Seq<ItemModel> {
    Seq::new(v.len(), |i: int| v[i]@)
}

pub open spec fn clash_kind(kind: ItemKind) -> IssueKind {
    match kind {
        ItemKind::Variable => IssueKind::DuplicateVariable,
        ItemKind::Object => IssueKind::DuplicatePolyhedralObject,
        ItemKind::StandardEquation => IssueKind::DuplicateStandardEquation,
        ItemKind::UseEquation => IssueKind::DuplicateUseEquation,
        ItemKind::Constant => IssueKind::DuplicateAlphaConstant,
        ItemKind::System => IssueKind::DuplicateSystem,
        ItemKind::ExternalFunction => IssueKind::DuplicateExternalFunction,
    }
}

/// What is reported of an item that clashes with another.
pub open spec fn clash_issue(m: ItemModel) -> Issue {
    issue(clash_kind(m.kind), seq![m.name], m.span.pair())
}

impl Item {
    fn diagnostic(&self) -> (r: Diagnostic)
        ensures
            r@ == clash_issue(self@),
    {
        let name = self.name.clone();
        let start = self.span.start;
        let end = self.span.end;
        match self.kind {
            ItemKind::Variable => Diagnostic::DuplicateVariable { name, start, end },
            ItemKind::Object => Diagnostic::DuplicatePolyhedralObject { name, start, end },
            ItemKind::StandardEquation => Diagnostic::DuplicateStandardEquation {
                name,
                start,
                end,
            },
            ItemKind::UseEquation => Diagnostic::DuplicateUseEquation { name, start, end },
            ItemKind::Constant => Diagnostic::DuplicateAlphaConstant { name, start, end },
            ItemKind::System => Diagnostic::DuplicateSystem { name, start, end },
            ItemKind::ExternalFunction => Diagnostic::DuplicateExternalFunction {
                name,
                start,
                end,
            },
        }
    }
}

/// The items of a key.
pub open spec fn members(items: Seq<ItemModel>, key: Seq<char>) -> Seq<ItemModel>
    decreases items.len(),
{
    if items.len() == 0 {
        Seq::empty()
    } else {
        let before = members(items.drop_last(), key);
        if items.last().key == key {
            before.push(items.last())
        } else {
            before
        }
    }
}

/// More than one item, and not use equations alone: several of these may write one variable.
pub open spec fn clashing(group: Seq<ItemModel>) -> bool {
    group.len() > 1 && exists|i: int|
        0 <= i < group.len() && (#[trigger] group[i]).kind != ItemKind::UseEquation
}

/// No item before place `i` has its key.
pub open spec fn first_of_key(items: Seq<ItemModel>, i: int) -> bool {
    forall|j: int| 0 <= j < i ==> (#[trigger] items[j]).key != items[i].key
}

/// What is reported at place `i`: every member of a clashing group, at its first one.
pub open spec fn clash_at(items: Seq<ItemModel>, i: int) -> Seq<Issue> {
    let group = members(items, items[i].key);
    if first_of_key(items, i) && clashing(group) {
        group.map_values(|m: ItemModel| clash_issue(m))
    } else {
        Seq::empty()
    }
}

pub open spec fn clashes_before(items: Seq<ItemModel>, n: nat) -> Seq<Issue>
    decreases n,
{
    if n == 0 {
        Seq::empty()
    } else {
        clashes_before(items, (n - 1) as nat) + clash_at(items, n - 1)
    }
}

/// Everything that is reported of some items.
pub open spec fn clashes(items: Seq<ItemModel>) -> Seq<Issue> {
    clashes_before(items, items.len())
}

fn is_first_of_key(items: &Vec<Item>, i: usize) -> (r: bool)
    requires
        i < items@.len(),
    ensures
        r == first_of_key(item_models(items@), i as int),
{
    let mut j: usize = 0;
    while j < i
        invariant
            j <= i < items@.len(),
            forall|k: int|
                0 <= k < j ==> (#[trigger] item_models(items@)[k]).key != item_models(
                    items@,
                )[i as int].key,
        decreases i - j,
    {
        if str_eq(items[j].key.as_str(), items[i].key.as_str()) {
            proof {
                assert(item_models(items@)[j as int].key == item_models(items@)[i as int].key);
            }
            return false;
        }
        j += 1;
    }
    true
}

fn report_group(items: &Vec<Item>, key: &str, out: &mut Vec<Diagnostic>)
    ensures
        issues(final(out)@) == issues(old(out)@) + (if clashing(
            members(item_models(items@), key@),
        ) {
            members(item_models(items@), key@).map_values(|m: ItemModel| clash_issue(m))
        } else {
            Seq::empty()
        }),
{
    let ghost all = item_models(items@);
    let ghost before = issues(out@);
    let ghost as_issue = |m: ItemModel| clash_issue(m);
    let mut found: Vec<Diagnostic> = Vec::new();
    let mut mixed = false;
    let mut i: usize = 0;
    proof {
        assert(issues(found@) =~= members(all.take(0), key@).map_values(as_issue));
    }
    while i < items.len()
        invariant
            i <= items@.len(),
            all == item_models(items@),
            as_issue == (|m: ItemModel| clash_issue(m)),
            found@.len() == members(all.take(i as int), key@).len(),
            issues(found@) == members(all.take(i as int), key@).map_values(as_issue),
            mixed == exists|k: int|
                0 <= k < members(all.take(i as int), key@).len() && (#[trigger] members(
                    all.take(i as int),
                    key@,
                )[k]).kind != ItemKind::UseEquation,
        decreases items@.len() - i,
    {
        let ghost old_group = members(all.take(i as int), key@);
        let ghost group = members(all.take(i + 1), key@);
        proof {
            let t = all.take(i + 1);
            assert(t.drop_last() =~= all.take(i as int));
            assert(t.last() == items@[i as int]@);
        }
        if str_eq(items[i].key.as_str(), key) {
            report(&mut found, items[i].diagnostic());
            proof {
                assert(group == old_group.push(items@[i as int]@));
                assert(issues(found@) =~= group.map_values(as_issue));
                assert(group[old_group.len() as int] == items@[i as int]@);
                assert forall|k: int| 0 <= k < old_group.len() implies group[k]
                    == #[trigger] old_group[k] by {}
                if mixed {
                    let k = choose|k: int|
                        0 <= k < old_group.len() && (#[trigger] old_group[k]).kind
                            != ItemKind::UseEquation;
                    assert(group[k].kind != ItemKind::UseEquation);
                }
                if exists|k: int|
                    0 <= k < group.len() && (#[trigger] group[k]).kind != ItemKind::UseEquation {
                    let k = choose|k: int|
                        0 <= k < group.len() && (#[trigger] group[k]).kind
                            != ItemKind::UseEquation;
                    if k < old_group.len() {
                        assert(old_group[k].kind != ItemKind::UseEquation);
                    }
                }
            }
            if items[i].kind != ItemKind::UseEquation {
                mixed = true;
            }
        }
        i += 1;
    }
    proof {
        assert(all.take(items@.len() as int) =~= all);
    }
    if found.len() > 1 && mixed {
        report_all(out, found);
    } else {
        proof {
            assert(before + Seq::<Issue>::empty() =~= before);
        }
    }
}

fn report_clashes(items: &Vec<Item>, out: &mut Vec<Diagnostic>)
    ensures
        issues(final(out)@) == issues(old(out)@) + clashes(item_models(items@)),
{
    let ghost all = item_models(items@);
    let ghost before = issues(out@);
    let mut i: usize = 0;
    proof {
        assert(before + clashes_before(all, 0) =~= before);
    }
    while i < items.len()
        invariant
            i <= items@.len(),
            all == item_models(items@),
            issues(out@) == before + clashes_before(all, i as nat),
        decreases items@.len() - i,
    {
        proof {
            assert(all[i as int].key == items@[i as int].key@);
        }
        let ghost sofar = issues(out@);
        if is_first_of_key(items, i) {
            report_group(items, items[i].key.as_str(), out);
        }
        proof {
            assert(issues(out@) =~= sofar + clash_at(all, i as int));
            assert(issues(out@) =~= before + clashes_before(all, (i + 1) as nat));
        }
        i += 1;
    }
}

proof fn lemma_members_has(items: Seq<ItemModel>, key: Seq<char>, i: int)
    requires
        0 <= i < items.len(),
        items[i].key == key,
    ensures
        members(items, key).contains(items[i]),
    decreases items.len(),
{
    let before = members(items.drop_last(), key);
    if i == items.len() - 1 {
        assert(members(items, key)[before.len() as int] == items[i]);
    } else {
        lemma_members_has(items.drop_last(), key, i);
        assert(items.drop_last()[i] == items[i]);
        let k = choose|k: int| 0 <= k < before.len() && before[k] == items[i];
        assert(members(items, key)[k] == items[i]);
    }
}

proof fn lemma_members_two(items: Seq<ItemModel>, key: Seq<char>, i: int, j: int)
    requires
        0 <= i < j < items.len(),
        items[i].key == key,
        items[j].key == key,
    ensures
        members(items, key).len() > 1,
    decreases items.len(),
{
    let before = items.drop_last();
    if j == items.len() - 1 {
        lemma_members_has(before, key, i);
        assert(members(before, key).len() >= 1);
    } else {
        lemma_members_two(before, key, i, j);
    }
}

proof fn lemma_members_from(items: Seq<ItemModel>, key: Seq<char>, k: int)
    requires
        0 <= k < members(items, key).len(),
    ensures
        exists|i: int| 0 <= i < items.len() && #[trigger] items[i] == members(items, key)[k]
            && items[i].key == key,
    decreases items.len(),
{
    let before = members(items.drop_last(), key);
    if k < before.len() {
        lemma_members_from(items.drop_last(), key, k);
        let i = choose|i: int|
            0 <= i < items.len() - 1 && #[trigger] items.drop_last()[i] == before[k]
                && items.drop_last()[i].key == key;
        assert(items[i] == members(items, key)[k]);
    } else {
        assert(items[items.len() - 1] == members(items, key)[k]);
    }
}

proof fn lemma_members_pair(items: Seq<ItemModel>, key: Seq<char>)
    requires
        members(items, key).len() > 1,
    ensures
        exists|i: int, j: int|
            0 <= i < j < items.len() && (#[trigger] items[i]).key == key && (
            #[trigger] items[j]).key == key,
    decreases items.len(),
{
    let before = items.drop_last();
    if items.last().key == key {
        lemma_members_from(before, key, 0);
        let i = choose|i: int|
            0 <= i < before.len() && #[trigger] before[i] == members(before, key)[0]
                && before[i].key == key;
        assert(items[i].key == key && items[items.len() - 1].key == key);
    } else {
        lemma_members_pair(before, key);
        let (i, j) = choose|i: int, j: int|
            0 <= i < j < before.len() && (#[trigger] before[i]).key == key && (
            #[trigger] before[j]).key == key;
        assert(items[i].key == key && items[j].key == key);
    }
}

/// Two items clash: they share a key, and some item of that key is not a use equation.
pub open spec fn pair_clashes(items: Seq<ItemModel>, i: int, j: int) -> bool {
    &&& 0 <= i < j < items.len()
    &&& items[i].key == items[j].key
    &&& exists|k: int|
        0 <= k < items.len() && (#[trigger] items[k]).key == items[i].key && items[k].kind
            != ItemKind::UseEquation
}

proof fn lemma_first(items: Seq<ItemModel>, i: int) -> (f: int)
    requires
        0 <= i < items.len(),
    ensures
        0 <= f <= i,
        items[f].key == items[i].key,
        first_of_key(items, f),
    decreases i,
{
    if first_of_key(items, i) {
        i
    } else {
        let j = choose|j: int| 0 <= j < i && (#[trigger] items[j]).key == items[i].key;
        lemma_first(items, j)
    }
}

proof fn lemma_nothing_before(items: Seq<ItemModel>, n: nat, i: int)
    requires
        0 <= i < n,
        clash_at(items, i).len() > 0,
    ensures
        clashes_before(items, n).len() > 0,
    decreases n,
{
    if i < n - 1 {
        lemma_nothing_before(items, (n - 1) as nat, i);
    }
}

proof fn lemma_something_at(items: Seq<ItemModel>, n: nat)
    requires
        clashes_before(items, n).len() > 0,
    ensures
        exists|i: int| 0 <= i < n && (#[trigger] clash_at(items, i)).len() > 0,
    decreases n,
{
    if n > 0 {
        if clash_at(items, n - 1).len() == 0 {
            lemma_something_at(items, (n - 1) as nat);
        }
    }
}

/// Nothing is reported exactly when no two items clash.
pub proof fn nothing_is_reported_iff_names_are_unique(items: Seq<ItemModel>)
    ensures
        clashes(items).len() == 0 <==> forall|i: int, j: int| !pair_clashes(items, i, j),
{
    if clashes(items).len() > 0 {
        lemma_something_at(items, items.len());
        let i = choose|i: int| 0 <= i < items.len() && (#[trigger] clash_at(items, i)).len() > 0;
        let key = items[i].key;
        let group = members(items, key);
        lemma_members_pair(items, key);
        let (a, b) = choose|a: int, b: int|
            0 <= a < b < items.len() && (#[trigger] items[a]).key == key && (
            #[trigger] items[b]).key == key;
        let k = choose|k: int|
            0 <= k < group.len() && (#[trigger] group[k]).kind != ItemKind::UseEquation;
        lemma_members_from(items, key, k);
        assert(pair_clashes(items, a, b));
    }
    if exists|i: int, j: int| pair_clashes(items, i, j) {
        let (i, j) = choose|i: int, j: int| pair_clashes(items, i, j);
        let key = items[i].key;
        let group = members(items, key);
        lemma_members_two(items, key, i, j);
        let k = choose|k: int|
            0 <= k < items.len() && (#[trigger] items[k]).key == key && items[k].kind
                != ItemKind::UseEquation;
        lemma_members_has(items, key, k);
        let m = choose|m: int| 0 <= m < group.len() && group[m] == items[k];
        assert(group[m].kind != ItemKind::UseEquation);
        let f = lemma_first(items, i);
        assert(clash_at(items, f).len() == group.len());
        lemma_nothing_before(items, items.len(), f);
    }
}

proof fn lemma_reported_at(items: Seq<ItemModel>, n: nat, i: int, d: Issue)
    requires
        0 <= i < n,
        clash_at(items, i).contains(d),
    ensures
        clashes_before(items, n).contains(d),
    decreases n,
{
    let before = clashes_before(items, (n - 1) as nat);
    let own = clash_at(items, n - 1);
    if i < n - 1 {
        lemma_reported_at(items, (n - 1) as nat, i, d);
        let k = choose|k: int| 0 <= k < before.len() && before[k] == d;
        assert((before + own)[k] == d);
    } else {
        let k = choose|k: int| 0 <= k < own.len() && own[k] == d;
        assert((before + own)[before.len() + k] == d);
    }
}

/// Of two items that clash, each is reported, by its own name and at its own place.
pub proof fn both_of_a_clashing_pair_are_reported(items: Seq<ItemModel>, i: int, j: int)
    requires
        pair_clashes(items, i, j),
    ensures
        clashes(items).contains(clash_issue(items[i])),
        clashes(items).contains(clash_issue(items[j])),
{
    let key = items[i].key;
    let group = members(items, key);
    lemma_members_two(items, key, i, j);
    let k = choose|k: int|
        0 <= k < items.len() && (#[trigger] items[k]).key == key && items[k].kind
            != ItemKind::UseEquation;
    lemma_members_has(items, key, k);
    let m = choose|m: int| 0 <= m < group.len() && group[m] == items[k];
    assert(group[m].kind != ItemKind::UseEquation);
    let f = lemma_first(items, i);
    lemma_members_has(items, key, i);
    lemma_members_has(items, key, j);
    let a = choose|a: int| 0 <= a < group.len() && group[a] == items[i];
    let b = choose|b: int| 0 <= b < group.len() && group[b] == items[j];
    assert(clash_at(items, f)[a] == clash_issue(items[i]));
    assert(clash_at(items, f)[b] == clash_issue(items[j]));
    lemma_reported_at(items, items.len(), f, clash_issue(items[i]));
    lemma_reported_at(items, items.len(), f, clash_issue(items[j]));
}

proof fn lemma_no_group_clashes(items: Seq<ItemModel>)
    ensures
        clashes(items).len() == 0 <==> forall|key: Seq<char>|
            !clashing(#[trigger] members(items, key)),
{
    if clashes(items).len() > 0 {
        lemma_something_at(items, items.len());
        let i = choose|i: int| 0 <= i < items.len() && (#[trigger] clash_at(items, i)).len() > 0;
        assert(clashing(members(items, items[i].key)));
    }
    if exists|key: Seq<char>| clashing(#[trigger] members(items, key)) {
        let key = choose|key: Seq<char>| clashing(#[trigger] members(items, key));
        let group = members(items, key);
        lemma_members_from(items, key, 0);
        let k = choose|k: int| 0 <= k < items.len() && items[k] == group[0] && items[k].key == key;
        let f = lemma_first(items, k);
        assert(clash_at(items, f).len() == group.len());
        lemma_nothing_before(items, items.len(), f);
    }
}

proof fn lemma_members_of_sum(a: Seq<ItemModel>, b: Seq<ItemModel>, key: Seq<char>)
    ensures
        members(a + b, key) == members(a, key) + members(b, key),
    decreases b.len(),
{
    if b.len() == 0 {
        assert(a + b =~= a);
        assert(members(a, key) + members(b, key) =~= members(a, key));
    } else {
        lemma_members_of_sum(a, b.drop_last(), key);
        assert((a + b).drop_last() =~= a + b.drop_last());
        assert((a + b).last() == b.last());
        assert(members(a + b, key) =~= members(a, key) + members(b, key));
    }
}

/// How many declarations have a name.
pub open spec fn times_declared(decls: Seq<Decl>, name: Seq<char>) -> nat
    decreases decls.len(),
{
    if decls.len() == 0 {
        0
    } else {
        times_declared(decls.drop_last(), name) + if (decls.last().name matches Some(n) && n.text@
            == name) { 1nat } else { 0nat }
    }
}

/// How many defined objects have a name.
pub open spec fn times_defined(objects: Seq<ObjectDecl>, name: Seq<char>) -> nat
    decreases objects.len(),
{
    if objects.len() == 0 {
        0
    } else {
        times_defined(objects.drop_last(), name) + if (objects.last().name matches Some(n) && n.text@
            == name) { 1nat } else { 0nat }
    }
}

/// How many constants have a name.
pub open spec fn times_constant(constants: Seq<Constant>, name: Seq<char>) -> nat
    decreases constants.len(),
{
    if constants.len() == 0 {
        0
    } else {
        times_constant(constants.drop_last(), name) + if (constants.last().name matches Some(n)
            && n.text@ == name) { 1nat } else { 0nat }
    }
}

/// How many standard equations are for a variable.
pub open spec fn times_equated(equations: Seq<Equation>, name: Seq<char>) -> nat
    decreases equations.len(),
{
    if equations.len() == 0 {
        0
    } else {
        times_equated(equations.drop_last(), name) + if is_equation_for(equations.last(), name) {
            1nat
        } else {
            0nat
        }
    }
}

pub open spec fn is_equation_for(eq: Equation, name: Seq<char>) -> bool {
    eq matches Equation::Standard(q) && q.variable matches Some(n) && n.text@ == name
}

/// A use equation mentions a variable in one of its outputs.
pub open spec fn is_output_of(eq: Equation, name: Seq<char>) -> bool {
    eq matches Equation::Use(u) && exists|i: int, x: Expr|
        0 <= i < u.outputs@.len() && #[trigger] subtree(u.outputs@[i]).contains(x)
            && is_named(x, name)
}

proof fn lemma_declared(decls: Seq<Decl>, name: Seq<char>)
    ensures
        members(decl_items(decls, false), name).len() + members(
            decl_items(decls, true),
            name,
        ).len() == times_declared(decls, name),
        forall|i: int, fuzzy: bool|
            0 <= i < members(decl_items(decls, fuzzy), name).len() ==> (#[trigger] members(
                decl_items(decls, fuzzy),
                name,
            )[i]).kind == ItemKind::Variable,
    decreases decls.len(),
{
    if decls.len() > 0 {
        lemma_declared(decls.drop_last(), name);
        if let Some(n) = decls.last().name {
            let own = item(n, ItemKind::Variable, n.span);
            let f = decls.last().fuzzy;
            let before = decl_items(decls.drop_last(), f);
            assert(decl_items(decls, f) == before.push(own));
            assert(decl_items(decls, f).drop_last() =~= before);
            assert(decl_items(decls, !f) == decl_items(decls.drop_last(), !f));
        }
    }
}

proof fn lemma_defined(objects: Seq<ObjectDecl>, name: Seq<char>)
    ensures
        members(object_items(objects), name).len() == times_defined(objects, name),
        forall|i: int|
            0 <= i < members(object_items(objects), name).len() ==> (#[trigger] members(
                object_items(objects),
                name,
            )[i]).kind == ItemKind::Object,
    decreases objects.len(),
{
    if objects.len() > 0 {
        lemma_defined(objects.drop_last(), name);
        if let Some(n) = objects.last().name {
            let before = object_items(objects.drop_last());
            assert(object_items(objects).drop_last() =~= before);
        }
    }
}

proof fn lemma_constants(constants: Seq<Constant>, name: Seq<char>)
    ensures
        members(constant_items(constants), name).len() == times_constant(constants, name),
        forall|i: int|
            0 <= i < members(constant_items(constants), name).len() ==> (#[trigger] members(
                constant_items(constants),
                name,
            )[i]).kind == ItemKind::Constant,
    decreases constants.len(),
{
    if constants.len() > 0 {
        lemma_constants(constants.drop_last(), name);
        if let Some(n) = constants.last().name {
            let before = constant_items(constants.drop_last());
            assert(constant_items(constants).drop_last() =~= before);
        }
    }
}

proof fn lemma_mentions(outputs: Seq<Expr>, span: Span, name: Seq<char>)
    ensures
        members(output_items(outputs, span), name).len() > 0 <==> exists|i: int, x: Expr|
            0 <= i < outputs.len() && #[trigger] subtree(outputs[i]).contains(x) && is_named(
                x,
                name,
            ),
        forall|i: int|
            0 <= i < members(output_items(outputs, span), name).len() ==> (#[trigger] members(
                output_items(outputs, span),
                name,
            )[i]).kind == ItemKind::UseEquation,
    decreases outputs.len(),
{
    if outputs.len() > 0 {
        let before = outputs.drop_last();
        lemma_mentions(before, span, name);
        let names = variable_names(subtree(outputs.last()));
        let own = name_items(names, span);
        lemma_members_of_sum(output_items(before, span), own, name);
        lemma_name_items(names, span, name);
        names_are_those_of_the_variables(subtree(outputs.last()), name);
        if members(own, name).len() > 0 {
            let x = choose|x: Expr| #[trigger]
                subtree(outputs.last()).contains(x) && is_named(x, name);
            assert(subtree(outputs[outputs.len() - 1]).contains(x));
        }
        if members(output_items(before, span), name).len() > 0 {
            let (i, x) = choose|i: int, x: Expr|
                0 <= i < before.len() && #[trigger] subtree(before[i]).contains(x) && is_named(
                    x,
                    name,
                );
            assert(subtree(outputs[i]).contains(x));
        }
        if exists|i: int, x: Expr|
            0 <= i < outputs.len() && #[trigger] subtree(outputs[i]).contains(x) && is_named(
                x,
                name,
            ) {
            let (i, x) = choose|i: int, x: Expr|
                0 <= i < outputs.len() && #[trigger] subtree(outputs[i]).contains(x) && is_named(
                    x,
                    name,
                );
            if i < before.len() {
                assert(subtree(before[i]).contains(x));
            }
        }
    }
}

proof fn lemma_name_items(names: Seq<Seq<char>>, span: Span, name: Seq<char>)
    ensures
        members(name_items(names, span), name).len() > 0 <==> names.contains(name),
        forall|i: int|
            0 <= i < members(name_items(names, span), name).len() ==> (#[trigger] members(
                name_items(names, span),
                name,
            )[i]).kind == ItemKind::UseEquation,
    decreases names.len(),
{
    if names.len() > 0 {
        lemma_name_items(names.drop_last(), span, name);
        let all = name_items(names, span);
        assert(all.drop_last() =~= name_items(names.drop_last(), span));
        assert(all.last().key == names.last());
        if names.last() == name {
            assert(names[names.len() - 1] == name);
        }
        if names.contains(name) && names.last() != name {
            let i = choose|i: int| 0 <= i < names.len() && names[i] == name;
            assert(names.drop_last()[i] == name);
        }
        if names.drop_last().contains(name) {
            let i = choose|i: int| 0 <= i < names.drop_last().len() && names.drop_last()[i] == name;
            assert(names[i] == name);
        }
    }
}

/// The members of a group that are standard equations.
pub open spec fn equations_in(group: Seq<ItemModel>) -> nat
    decreases group.len(),
{
    if group.len() == 0 {
        0
    } else {
        equations_in(group.drop_last()) + if group.last().kind == ItemKind::StandardEquation {
            1nat
        } else {
            0nat
        }
    }
}

proof fn lemma_equations_in(group: Seq<ItemModel>)
    requires
        forall|i: int|
            0 <= i < group.len() ==> (#[trigger] group[i]).kind == ItemKind::StandardEquation
                || group[i].kind == ItemKind::UseEquation,
    ensures
        equations_in(group) <= group.len(),
        equations_in(group) > 0 <==> exists|i: int|
            0 <= i < group.len() && (#[trigger] group[i]).kind != ItemKind::UseEquation,
        equations_in(group) < group.len() <==> exists|i: int|
            0 <= i < group.len() && (#[trigger] group[i]).kind == ItemKind::UseEquation,
    decreases group.len(),
{
    if group.len() > 0 {
        let before = group.drop_last();
        assert forall|i: int| 0 <= i < before.len() implies (#[trigger] before[i]).kind
            == ItemKind::StandardEquation || before[i].kind == ItemKind::UseEquation by {
            assert(before[i] == group[i]);
        }
        lemma_equations_in(before);
        let last = group[group.len() - 1];
        if equations_in(before) > 0 {
            let i = choose|i: int|
                0 <= i < before.len() && (#[trigger] before[i]).kind != ItemKind::UseEquation;
            assert(group[i].kind != ItemKind::UseEquation);
        }
        if equations_in(before) < before.len() {
            let i = choose|i: int|
                0 <= i < before.len() && (#[trigger] before[i]).kind == ItemKind::UseEquation;
            assert(group[i].kind == ItemKind::UseEquation);
        }
        if exists|i: int| 0 <= i < group.len() && (#[trigger] group[i]).kind != ItemKind::UseEquation {
            let i = choose|i: int|
                0 <= i < group.len() && (#[trigger] group[i]).kind != ItemKind::UseEquation;
            if i < before.len() {
                assert(before[i].kind != ItemKind::UseEquation);
            }
        }
        if exists|i: int| 0 <= i < group.len() && (#[trigger] group[i]).kind == ItemKind::UseEquation {
            let i = choose|i: int|
                0 <= i < group.len() && (#[trigger] group[i]).kind == ItemKind::UseEquation;
            if i < before.len() {
                assert(before[i].kind == ItemKind::UseEquation);
            }
        }
    }
}

proof fn lemma_equations_in_sum(a: Seq<ItemModel>, b: Seq<ItemModel>)
    ensures
        equations_in(a + b) == equations_in(a) + equations_in(b),
    decreases b.len(),
{
    if b.len() == 0 {
        assert(a + b =~= a);
    } else {
        lemma_equations_in_sum(a, b.drop_last());
        assert((a + b).drop_last() =~= a + b.drop_last());
        assert((a + b).last() == b.last());
    }
}

proof fn lemma_equation_group(equations: Seq<Equation>, name: Seq<char>)
    ensures
        ({
            let group = members(equation_items(equations), name);
            &&& equations_in(group) == times_equated(equations, name)
            &&& forall|i: int|
                0 <= i < group.len() ==> (#[trigger] group[i]).kind == ItemKind::StandardEquation
                    || group[i].kind == ItemKind::UseEquation
            &&& equations_in(group) < group.len() <==> exists|i: int|
                0 <= i < equations.len() && is_output_of(#[trigger] equations[i], name)
        }),
    decreases equations.len(),
{
    if equations.len() > 0 {
        let before = equations.drop_last();
        let last = equations.last();
        lemma_equation_group(before, name);
        let a = equation_items(before);
        let b = match last {
            Equation::Standard(e) => match e.variable {
                Some(n) => seq![item(n, ItemKind::StandardEquation, n.span)],
                None => Seq::empty(),
            },
            Equation::Use(u) => output_items(u.outputs@, u.span),
        };
        lemma_members_of_sum(a, b, name);
        let first = members(a, name);
        let more = members(b, name);
        lemma_equations_in_sum(first, more);
        let group = members(equation_items(equations), name);
        assert(group == first + more);
        match last {
            Equation::Standard(e) => {
                if let Some(n) = e.variable {
                    assert(b.drop_last() =~= Seq::empty());
                    assert(members(b.drop_last(), name) =~= Seq::empty());
                    if n.text@ == name {
                        assert(more =~= seq![item(n, ItemKind::StandardEquation, n.span)]);
                        assert(more.drop_last() =~= Seq::empty());
                        assert(equations_in(more.drop_last()) == 0);
                        assert(equations_in(more) == 1);
                    } else {
                        assert(more =~= Seq::empty());
                    }
                } else {
                    assert(more =~= Seq::empty());
                }
                assert(equations_in(more) == more.len());
            },
            Equation::Use(u) => {
                lemma_mentions(u.outputs@, u.span, name);
                lemma_equations_in(more);
                assert(equations_in(more) == 0);
                assert(is_output_of(last, name) <==> more.len() > 0);
            },
        }
        if exists|i: int| 0 <= i < before.len() && is_output_of(#[trigger] before[i], name) {
            let i = choose|i: int| 0 <= i < before.len() && is_output_of(#[trigger] before[i], name);
            assert(is_output_of(equations[i], name));
        }
        if exists|i: int| 0 <= i < equations.len() && is_output_of(#[trigger] equations[i], name) {
            let i = choose|i: int|
                0 <= i < equations.len() && is_output_of(#[trigger] equations[i], name);
            if i < before.len() {
                assert(is_output_of(before[i], name));
            }
        }
        if is_output_of(last, name) {
            assert(is_output_of(equations[equations.len() - 1], name));
        }
        lemma_equations_in(first);
    }
}

/// Every name of a system is declared once, and every name of a constant next to it as well. In each
/// body, a variable with a standard equation has no other, and no use equation writes it.
pub open spec fn names_are_unique(s: System) -> bool {
    &&& forall|name: Seq<char>|
        #![trigger times_declared(s.inputs@, name)]
        times_declared(s.inputs@, name) + times_declared(s.outputs@, name) + times_declared(
            s.locals@,
            name,
        ) + times_defined(s.objects@, name) <= 1
    &&& forall|b: int, name: Seq<char>|
        #![trigger times_equated(s.bodies@[b].equations@, name)]
        0 <= b < s.bodies@.len() ==> equated_alone(s.bodies@[b].equations@, name)
    &&& s.scopes@.len() > 0 ==> forall|name: Seq<char>| #[trigger]
        times_constant(s.scopes@[0]@, name) <= 1
}

proof fn lemma_body_clashes(bodies: Seq<SystemBody>)
    ensures
        body_clashes(bodies).len() == 0 <==> forall|b: int|
            0 <= b < bodies.len() ==> clashes(
                equation_items((#[trigger] bodies[b]).equations@),
            ).len() == 0,
    decreases bodies.len(),
{
    if bodies.len() > 0 {
        let before = bodies.drop_last();
        lemma_body_clashes(before);
        if forall|b: int|
            0 <= b < bodies.len() ==> clashes(
                equation_items((#[trigger] bodies[b]).equations@),
            ).len() == 0 {
            assert forall|b: int| 0 <= b < before.len() implies clashes(
                equation_items((#[trigger] before[b]).equations@),
            ).len() == 0 by {
                assert(before[b] == bodies[b]);
            }
            assert(bodies[bodies.len() - 1] == bodies.last());
        }
        if body_clashes(bodies).len() == 0 {
            assert forall|b: int| 0 <= b < bodies.len() implies clashes(
                equation_items((#[trigger] bodies[b]).equations@),
            ).len() == 0 by {
                if b < before.len() {
                    assert(before[b] == bodies[b]);
                }
            }
        }
    }
}

proof fn lemma_named(s: System, name: Seq<char>)
    ensures
        members(named_items(s), name).len() == times_declared(s.inputs@, name) + times_declared(
            s.outputs@,
            name,
        ) + times_declared(s.locals@, name) + times_defined(s.objects@, name),
        forall|i: int|
            0 <= i < members(named_items(s), name).len() ==> (#[trigger] members(
                named_items(s),
                name,
            )[i]).kind != ItemKind::UseEquation,
{
    lemma_declared(s.inputs@, name);
    lemma_declared(s.outputs@, name);
    lemma_declared(s.locals@, name);
    lemma_defined(s.objects@, name);
    let a = decl_items(s.inputs@, false);
    let b = decl_items(s.inputs@, true);
    let c = decl_items(s.outputs@, false);
    let d = decl_items(s.outputs@, true);
    let e = decl_items(s.locals@, false);
    let f = decl_items(s.locals@, true);
    let g = object_items(s.objects@);
    lemma_members_of_sum(a + b + c + d + e + f, g, name);
    lemma_members_of_sum(a + b + c + d + e, f, name);
    lemma_members_of_sum(a + b + c + d, e, name);
    lemma_members_of_sum(a + b + c, d, name);
    lemma_members_of_sum(a + b, c, name);
    lemma_members_of_sum(a, b, name);
    assert forall|i: int| 0 <= i < members(named_items(s), name).len() implies (#[trigger] members(
        named_items(s),
        name,
    )[i]).kind != ItemKind::UseEquation by {
        let parts = seq![a, b, c, d, e, f, g];
        let x = members(named_items(s), name)[i];
        assert(members(a, name).contains(x) || members(b, name).contains(x) || members(
            c,
            name,
        ).contains(x) || members(d, name).contains(x) || members(e, name).contains(x) || members(
            f,
            name,
        ).contains(x) || members(g, name).contains(x)) by {
            let (a, b, c, d) = (members(a, name), members(b, name), members(c, name), members(d, name));
            let (e, f, g) = (members(e, name), members(f, name), members(g, name));
            assert((a + b + c + d + e + f + g).contains(x));
            lemma_in_sum(a + b + c + d + e + f, g, x);
            lemma_in_sum(a + b + c + d + e, f, x);
            lemma_in_sum(a + b + c + d, e, x);
            lemma_in_sum(a + b + c, d, x);
            lemma_in_sum(a + b, c, x);
            lemma_in_sum(a, b, x);
        }
    }
}

/// Nothing is reported of the names of a system exactly when they are unique.
pub proof fn a_clean_system_has_unique_names(s: System)
    ensures
        system_clashes(s).len() == 0 <==> names_are_unique(s),
{
    lemma_no_group_clashes(named_items(s));
    lemma_no_group_clashes(neighbour_items(s));
    lemma_body_clashes(s.bodies@);
    assert(clashes(named_items(s)).len() == 0 <==> forall|name: Seq<char>|
        #![trigger times_declared(s.inputs@, name)]
        times_declared(s.inputs@, name) + times_declared(s.outputs@, name) + times_declared(
            s.locals@,
            name,
        ) + times_defined(s.objects@, name) <= 1) by {
        assert forall|name: Seq<char>|
            clashing(#[trigger] members(named_items(s), name)) <==> times_declared(s.inputs@, name)
                + times_declared(s.outputs@, name) + times_declared(s.locals@, name)
                + times_defined(s.objects@, name) > 1 by {
            lemma_named(s, name);
            let group = members(named_items(s), name);
            if group.len() > 1 {
                assert(group[0].kind != ItemKind::UseEquation);
            }
        }
        if clashes(named_items(s)).len() == 0 {
            assert forall|name: Seq<char>|
                #![trigger times_declared(s.inputs@, name)]
                times_declared(s.inputs@, name) + times_declared(s.outputs@, name)
                    + times_declared(s.locals@, name) + times_defined(s.objects@, name) <= 1 by {
                assert(!clashing(members(named_items(s), name)));
            }
        }
    }
    assert(clashes(neighbour_items(s)).len() == 0 <==> (s.scopes@.len() > 0 ==> forall|
        name: Seq<char>,
    | #[trigger]
        times_constant(s.scopes@[0]@, name) <= 1)) by {
        if s.scopes@.len() > 0 {
            assert forall|name: Seq<char>|
                clashing(#[trigger] members(neighbour_items(s), name)) <==> times_constant(
                    s.scopes@[0]@,
                    name,
                ) > 1 by {
                lemma_constants(s.scopes@[0]@, name);
                let group = members(neighbour_items(s), name);
                if group.len() > 1 {
                    assert(group[0].kind != ItemKind::UseEquation);
                }
            }
            if clashes(neighbour_items(s)).len() == 0 {
                assert forall|name: Seq<char>| #[trigger]
                    times_constant(s.scopes@[0]@, name) <= 1 by {
                    assert(!clashing(members(neighbour_items(s), name)));
                }
            }
        }
    }
    assert forall|b: int| 0 <= b < s.bodies@.len() implies (clashes(
        equation_items((#[trigger] s.bodies@[b]).equations@),
    ).len() == 0 <==> forall|name: Seq<char>|
        #![trigger times_equated(s.bodies@[b].equations@, name)]
        equated_alone(s.bodies@[b].equations@, name)) by {
        let equations = s.bodies@[b].equations@;
        lemma_no_group_clashes(equation_items(equations));
        assert forall|name: Seq<char>|
            clashing(#[trigger] members(equation_items(equations), name)) <==> !equated_alone(
                equations,
                name,
            ) by {
            lemma_equation_group(equations, name);
            lemma_equations_in(members(equation_items(equations), name));
        }
        if clashes(equation_items(equations)).len() == 0 {
            assert forall|name: Seq<char>|
                #![trigger times_equated(equations, name)]
                equated_alone(equations, name) by {
                assert(!clashing(members(equation_items(equations), name)));
            }
        } else {
            let name = choose|name: Seq<char>|
                clashing(#[trigger] members(equation_items(equations), name));
            assert(times_equated(equations, name) >= 0 && !equated_alone(equations, name));
        }
    }
    if body_clashes(s.bodies@).len() == 0 {
        assert forall|b: int, name: Seq<char>|
            #![trigger times_equated(s.bodies@[b].equations@, name)]
            0 <= b < s.bodies@.len() implies equated_alone(s.bodies@[b].equations@, name) by {
            assert(clashes(equation_items(s.bodies@[b].equations@)).len() == 0);
        }
    } else {
        let b = choose|b: int|
            0 <= b < s.bodies@.len() && clashes(
                equation_items((#[trigger] s.bodies@[b]).equations@),
            ).len() != 0;
        let name = choose|name: Seq<char>|
            #![trigger times_equated(s.bodies@[b].equations@, name)]
            !equated_alone(s.bodies@[b].equations@, name);
        assert(times_equated(s.bodies@[b].equations@, name) >= 0);
    }
}

/// A variable with a standard equation has no other, and no use equation writes it.
pub open spec fn equated_alone(equations: Seq<Equation>, name: Seq<char>) -> bool {
    times_equated(equations, name) > 0 ==> times_equated(equations, name) == 1 && forall|i: int|
        0 <= i < equations.len() ==> !is_output_of(#[trigger] equations[i], name)
}

pub open spec fn item(name: Name, kind: ItemKind, span: Span) -> ItemModel {
    ItemModel { key: name.text@, name: name.text@, kind, span }
}

fn push_item(out: &mut Vec<Item>, name: &str, kind: ItemKind, span: Span)
    ensures
        item_models(final(out)@) == item_models(old(out)@).push(
            (ItemModel { key: name@, name: name@, kind, span }),
        ),
{
    out.push(Item { key: name.to_owned(), name: name.to_owned(), kind, span });
    proof {
        assert(item_models(out@) =~= item_models(old(out)@).push(
            (ItemModel { key: name@, name: name@, kind, span }),
        ));
    }
}

/// The named declarations that are fuzzy, or those that are not.
pub open spec fn decl_items(decls: Seq<Decl>, fuzzy: bool) -> Seq<ItemModel>
    decreases decls.len(),
{
    if decls.len() == 0 {
        Seq::empty()
    } else {
        let before = decl_items(decls.drop_last(), fuzzy);
        match decls.last().name {
            Some(n) if decls.last().fuzzy == fuzzy => before.push(
                item(n, ItemKind::Variable, n.span),
            ),
            _ => before,
        }
    }
}

pub open spec fn object_items(objects: Seq<ObjectDecl>) -> Seq<ItemModel>
    decreases objects.len(),
{
    if objects.len() == 0 {
        Seq::empty()
    } else {
        let before = object_items(objects.drop_last());
        match objects.last().name {
            Some(n) => before.push(item(n, ItemKind::Object, n.span)),
            None => before,
        }
    }
}

/// What shares the names of a system: its variables and its defined objects.
pub open spec fn named_items(s: System) -> Seq<ItemModel> {
    decl_items(s.inputs@, false) + decl_items(s.inputs@, true) + decl_items(s.outputs@, false)
        + decl_items(s.outputs@, true) + decl_items(s.locals@, false) + decl_items(s.locals@, true)
        + object_items(s.objects@)
}

pub open spec fn name_items(names: Seq<Seq<char>>, span: Span) -> Seq<ItemModel> {
    names.map_values(
        |n: Seq<char>| ItemModel { key: n, name: n, kind: ItemKind::UseEquation, span },
    )
}

/// The variables that the outputs of a use equation mention.
pub open spec fn output_items(outputs: Seq<Expr>, span: Span) -> Seq<ItemModel>
    decreases outputs.len(),
{
    if outputs.len() == 0 {
        Seq::empty()
    } else {
        output_items(outputs.drop_last(), span) + name_items(
            variable_names(subtree(outputs.last())),
            span,
        )
    }
}

/// What the equations of a body define.
pub open spec fn equation_items(equations: Seq<Equation>) -> Seq<ItemModel>
    decreases equations.len(),
{
    if equations.len() == 0 {
        Seq::empty()
    } else {
        equation_items(equations.drop_last()) + match equations.last() {
            Equation::Standard(e) => match e.variable {
                Some(n) => seq![item(n, ItemKind::StandardEquation, n.span)],
                None => Seq::empty(),
            },
            Equation::Use(u) => output_items(u.outputs@, u.span),
        }
    }
}

pub open spec fn constant_items(constants: Seq<Constant>) -> Seq<ItemModel>
    decreases constants.len(),
{
    if constants.len() == 0 {
        Seq::empty()
    } else {
        let before = constant_items(constants.drop_last());
        match constants.last().name {
            Some(n) => before.push(item(n, ItemKind::Constant, n.span)),
            None => before,
        }
    }
}

/// The constants next to a system.
pub open spec fn neighbour_items(s: System) -> Seq<ItemModel> {
    if s.scopes@.len() == 0 {
        Seq::empty()
    } else {
        constant_items(s.scopes@[0]@)
    }
}

pub open spec fn body_clashes(bodies: Seq<SystemBody>) -> Seq<Issue>
    decreases bodies.len(),
{
    if bodies.len() == 0 {
        Seq::empty()
    } else {
        body_clashes(bodies.drop_last()) + clashes(equation_items(bodies.last().equations@))
    }
}

/// Everything that is reported of the names of a system.
pub open spec fn system_clashes(s: System) -> Seq<Issue> {
    clashes(named_items(s)) + body_clashes(s.bodies@) + clashes(neighbour_items(s))
}

fn push_decls(out: &mut Vec<Item>, decls: &Vec<Decl>, fuzzy: bool)
    ensures
        item_models(final(out)@) == item_models(old(out)@) + decl_items(decls@, fuzzy),
{
    let ghost before = item_models(out@);
    let mut i: usize = 0;
    proof {
        assert(before + decl_items(decls@.take(0), fuzzy) =~= before);
    }
    while i < decls.len()
        invariant
            i <= decls@.len(),
            item_models(out@) == before + decl_items(decls@.take(i as int), fuzzy),
        decreases decls@.len() - i,
    {
        proof {
            let t = decls@.take(i + 1);
            assert(t.drop_last() =~= decls@.take(i as int));
            assert(t.last() == decls@[i as int]);
        }
        match &decls[i].name {
            Some(n) => if decls[i].fuzzy == fuzzy {
                push_item(out, n.text.as_str(), ItemKind::Variable, n.span);
            },
            None => {},
        }
        proof {
            assert(item_models(out@) =~= before + decl_items(decls@.take(i + 1), fuzzy));
        }
        i += 1;
    }
    proof {
        assert(decls@.take(decls@.len() as int) =~= decls@);
    }
}

fn push_objects(out: &mut Vec<Item>, objects: &Vec<ObjectDecl>)
    ensures
        item_models(final(out)@) == item_models(old(out)@) + object_items(objects@),
{
    let ghost before = item_models(out@);
    let mut i: usize = 0;
    proof {
        assert(before + object_items(objects@.take(0)) =~= before);
    }
    while i < objects.len()
        invariant
            i <= objects@.len(),
            item_models(out@) == before + object_items(objects@.take(i as int)),
        decreases objects@.len() - i,
    {
        proof {
            let t = objects@.take(i + 1);
            assert(t.drop_last() =~= objects@.take(i as int));
            assert(t.last() == objects@[i as int]);
        }
        match &objects[i].name {
            Some(n) => push_item(out, n.text.as_str(), ItemKind::Object, n.span),
            None => {},
        }
        proof {
            assert(item_models(out@) =~= before + object_items(objects@.take(i + 1)));
        }
        i += 1;
    }
    proof {
        assert(objects@.take(objects@.len() as int) =~= objects@);
    }
}

fn push_constants(out: &mut Vec<Item>, constants: &Vec<Constant>)
    ensures
        item_models(final(out)@) == item_models(old(out)@) + constant_items(constants@),
{
    let ghost before = item_models(out@);
    let mut i: usize = 0;
    proof {
        assert(before + constant_items(constants@.take(0)) =~= before);
    }
    while i < constants.len()
        invariant
            i <= constants@.len(),
            item_models(out@) == before + constant_items(constants@.take(i as int)),
        decreases constants@.len() - i,
    {
        proof {
            let t = constants@.take(i + 1);
            assert(t.drop_last() =~= constants@.take(i as int));
            assert(t.last() == constants@[i as int]);
        }
        match &constants[i].name {
            Some(n) => push_item(out, n.text.as_str(), ItemKind::Constant, n.span),
            None => {},
        }
        proof {
            assert(item_models(out@) =~= before + constant_items(constants@.take(i + 1)));
        }
        i += 1;
    }
    proof {
        assert(constants@.take(constants@.len() as int) =~= constants@);
    }
}

/// The names of the variables inside an expression, from left to right.
pub fn collect_variable_names(expr: &Expr, out: &mut Vec<String>)
    ensures
        views(final(out)@) == views(old(out)@) + variable_names(subtree(*expr)),
{
    let ghost before = views(out@);
    let mut all: Vec<&Expr> = Vec::new();
    proof {
        assert(referred(all@) =~= Seq::<Expr>::empty());
    }
    walk_expr(expr, &mut all);
    let ghost tree = subtree(*expr);
    let mut i: usize = 0;
    proof {
        assert(referred(all@) =~= tree);
        assert(before + variable_names(tree.take(0)) =~= before);
    }
    while i < all.len()
        invariant
            i <= all@.len(),
            referred(all@) == tree,
            tree.len() == all@.len(),
            views(out@) == before + variable_names(tree.take(i as int)),
        decreases all@.len() - i,
    {
        proof {
            let t = tree.take(i + 1);
            assert(t.drop_last() =~= tree.take(i as int));
            assert(referred(all@)[i as int] == *all@[i as int]);
        }
        match &all[i].kind {
            ExprKind::Variable { name: Some(n) } => push_text(out, n.clone()),
            _ => {},
        }
        proof {
            assert(views(out@) =~= before + variable_names(tree.take(i + 1)));
        }
        i += 1;
    }
    proof {
        assert(tree.take(all@.len() as int) =~= tree);
    }
}

fn push_names(out: &mut Vec<Item>, names: &Vec<String>, span: Span)
    ensures
        item_models(final(out)@) == item_models(old(out)@) + name_items(views(names@), span),
{
    let ghost before = item_models(out@);
    let ghost all = name_items(views(names@), span);
    let mut i: usize = 0;
    proof {
        assert(before + all.take(0) =~= before);
    }
    while i < names.len()
        invariant
            i <= names@.len(),
            all == name_items(views(names@), span),
            item_models(out@) == before + all.take(i as int),
        decreases names@.len() - i,
    {
        push_item(out, names[i].as_str(), ItemKind::UseEquation, span);
        proof {
            assert(views(names@)[i as int] == names@[i as int]@);
            assert(all.take(i + 1) =~= all.take(i as int).push(all[i as int]));
            assert(item_models(out@) =~= before + all.take(i + 1));
        }
        i += 1;
    }
    proof {
        assert(all.take(names@.len() as int) =~= all);
    }
}

fn push_outputs(out: &mut Vec<Item>, outputs: &Vec<Expr>, span: Span)
    ensures
        item_models(final(out)@) == item_models(old(out)@) + output_items(outputs@, span),
{
    let ghost before = item_models(out@);
    let mut i: usize = 0;
    proof {
        assert(before + output_items(outputs@.take(0), span) =~= before);
    }
    while i < outputs.len()
        invariant
            i <= outputs@.len(),
            item_models(out@) == before + output_items(outputs@.take(i as int), span),
        decreases outputs@.len() - i,
    {
        let mut names: Vec<String> = Vec::new();
        proof {
            let t = outputs@.take(i + 1);
            assert(t.drop_last() =~= outputs@.take(i as int));
            assert(t.last() == outputs@[i as int]);
            assert(views(names@) =~= Seq::<Seq<char>>::empty());
        }
        collect_variable_names(&outputs[i], &mut names);
        proof {
            assert(views(names@) =~= variable_names(subtree(outputs@[i as int])));
        }
        push_names(out, &names, span);
        proof {
            assert(item_models(out@) =~= before + output_items(outputs@.take(i + 1), span));
        }
        i += 1;
    }
    proof {
        assert(outputs@.take(outputs@.len() as int) =~= outputs@);
    }
}

fn push_equations(out: &mut Vec<Item>, equations: &Vec<Equation>)
    ensures
        item_models(final(out)@) == item_models(old(out)@) + equation_items(equations@),
{
    let ghost before = item_models(out@);
    let mut i: usize = 0;
    proof {
        assert(before + equation_items(equations@.take(0)) =~= before);
    }
    while i < equations.len()
        invariant
            i <= equations@.len(),
            item_models(out@) == before + equation_items(equations@.take(i as int)),
        decreases equations@.len() - i,
    {
        proof {
            let t = equations@.take(i + 1);
            assert(t.drop_last() =~= equations@.take(i as int));
            assert(t.last() == equations@[i as int]);
        }
        match &equations[i] {
            Equation::Standard(e) => match &e.variable {
                Some(n) => push_item(out, n.text.as_str(), ItemKind::StandardEquation, n.span),
                None => {},
            },
            Equation::Use(u) => push_outputs(out, &u.outputs, u.span),
        }
        proof {
            assert(item_models(out@) =~= before + equation_items(equations@.take(i + 1)));
        }
        i += 1;
    }
    proof {
        assert(equations@.take(equations@.len() as int) =~= equations@);
    }
}

/// Checks the names of one system.
pub fn check_system_uniqueness(system: &System) -> (r: Vec<Diagnostic>)
    ensures
        issues(r@) == system_clashes(*system),
{
    let mut diags: Vec<Diagnostic> = Vec::new();
    let mut items: Vec<Item> = Vec::new();
    proof {
        assert(issues(diags@) =~= Seq::<Issue>::empty());
        assert(item_models(items@) =~= Seq::<ItemModel>::empty());
    }
    push_decls(&mut items, &system.inputs, false);
    push_decls(&mut items, &system.inputs, true);
    push_decls(&mut items, &system.outputs, false);
    push_decls(&mut items, &system.outputs, true);
    push_decls(&mut items, &system.locals, false);
    push_decls(&mut items, &system.locals, true);
    push_objects(&mut items, &system.objects);
    proof {
        assert(item_models(items@) =~= named_items(*system));
    }
    report_clashes(&items, &mut diags);
    let bodies = &system.bodies;
    let ghost first = clashes(named_items(*system));
    let mut i: usize = 0;
    proof {
        assert(issues(diags@) =~= first + body_clashes(bodies@.take(0)));
    }
    while i < bodies.len()
        invariant
            i <= bodies@.len(),
            issues(diags@) == first + body_clashes(bodies@.take(i as int)),
        decreases bodies@.len() - i,
    {
        let mut defined: Vec<Item> = Vec::new();
        proof {
            let t = bodies@.take(i + 1);
            assert(t.drop_last() =~= bodies@.take(i as int));
            assert(t.last() == bodies@[i as int]);
            assert(item_models(defined@) =~= Seq::<ItemModel>::empty());
        }
        push_equations(&mut defined, &bodies[i].equations);
        proof {
            assert(item_models(defined@) =~= equation_items(bodies@[i as int].equations@));
        }
        report_clashes(&defined, &mut diags);
        proof {
            assert(issues(diags@) =~= first + body_clashes(bodies@.take(i + 1)));
        }
        i += 1;
    }
    proof {
        assert(bodies@.take(bodies@.len() as int) =~= bodies@);
    }
    let mut constants: Vec<Item> = Vec::new();
    proof {
        assert(item_models(constants@) =~= Seq::<ItemModel>::empty());
    }
    if system.scopes.len() > 0 {
        push_constants(&mut constants, &system.scopes[0]);
    }
    proof {
        assert(item_models(constants@) =~= neighbour_items(*system));
    }
    report_clashes(&constants, &mut diags);
    diags
}

/// A name with the names of the packages around it.
pub open spec fn qualified(prefix: Seq<Seq<char>>, name: Seq<char>) -> Seq<char> {
    joined(prefix.push(name), "."@)
}

fn fqn(prefix: &Vec<String>, name: &str) -> (r: String)
    ensures
        r@ == qualified(views(prefix@), name@),
{
    let mut segments = copy_all(prefix);
    push_text(&mut segments, name.to_owned());
    join(&segments, ".")
}

pub open spec fn name_or_none(name: Option<Name>) -> Seq<char> {
    match name {
        Some(n) => n.text@,
        None => Seq::empty(),
    }
}

pub open spec fn name_span(name: Option<Name>, whole: Span) -> Span {
    match name {
        Some(n) => n.span,
        None => whole,
    }
}

/// A system or an external function under its qualified name.
pub open spec fn qualified_item(
    prefix: Seq<Seq<char>>,
    name: Option<Name>,
    kind: ItemKind,
    whole: Span,
) -> ItemModel {
    ItemModel {
        key: qualified(prefix, name_or_none(name)),
        name: name_or_none(name),
        kind,
        span: name_span(name, whole),
    }
}

pub open spec fn package_prefix(prefix: Seq<Seq<char>>, p: Package) -> Seq<Seq<char>> {
    match p.name {
        Some(segments) => prefix + views(segments@),
        None => prefix,
    }
}

/// The systems of a package and of the packages inside it.
pub open spec fn systems_in(prefix: Seq<Seq<char>>, p: Package) -> Seq<(ItemModel, System)>
    decreases p, 0int,
{
    p.systems@.map_values(
        |s: System| (qualified_item(prefix, s.name, ItemKind::System, s.span), s),
    ) + systems_in_first(prefix, p.packages, p.packages@.len())
}

pub open spec fn systems_in_first(prefix: Seq<Seq<char>>, v: Vec<Package>, n: nat) -> Seq<
    (ItemModel, System),
>
    decreases v, n,
{
    if n == 0 || n > v@.len() {
        Seq::empty()
    } else {
        systems_in_first(prefix, v, (n - 1) as nat) + systems_in(
            package_prefix(prefix, v@[n - 1]),
            v@[n - 1],
        )
    }
}

/// The external functions of a package and of the packages inside it.
pub open spec fn externals_in(prefix: Seq<Seq<char>>, p: Package) -> Seq<ItemModel>
    decreases p, 0int,
{
    p.externals@.map_values(
        |f: ExternalFunction|
            qualified_item(prefix, f.name, ItemKind::ExternalFunction, f.span),
    ) + externals_in_first(prefix, p.packages, p.packages@.len())
}

pub open spec fn externals_in_first(prefix: Seq<Seq<char>>, v: Vec<Package>, n: nat) -> Seq<
    ItemModel,
>
    decreases v, n,
{
    if n == 0 || n > v@.len() {
        Seq::empty()
    } else {
        externals_in_first(prefix, v, (n - 1) as nat) + externals_in(
            package_prefix(prefix, v@[n - 1]),
            v@[n - 1],
        )
    }
}

/// What a program has at its top level and in its packages.
struct Collected<'a> {
    system_items: Vec<Item>,
    systems: Vec<&'a System>,
    externals: Vec<Item>,
}

spec fn collected_systems(c: Collected) -> Seq<(ItemModel, System)> {
    Seq::new(c.systems@.len(), |i: int| (c.system_items@[i]@, *c.systems@[i]))
}

spec fn collected_ok(c: Collected) -> bool {
    c.system_items@.len() == c.systems@.len()
}

fn item_of(prefix: &Vec<String>, name: &Option<Name>, kind: ItemKind, whole: Span) -> (r: Item)
    ensures
        r@ == qualified_item(views(prefix@), *name, kind, whole),
{
    match name {
        Some(n) => Item {
            key: fqn(prefix, n.text.as_str()),
            name: n.text.clone(),
            kind,
            span: n.span,
        },
        None => {
            proof {
                reveal_strlit("");
                assert(""@ =~= Seq::<char>::empty());
            }
            Item { key: fqn(prefix, ""), name: "".to_owned(), kind, span: whole }
        },
    }
}

fn collect_here<'a>(prefix: &Vec<String>, p: &'a Package, out: &mut Collected<'a>)
    requires
        collected_ok(*old(out)),
    ensures
        collected_ok(*final(out)),
        collected_systems(*final(out)) == collected_systems(*old(out)) + p.systems@.map_values(
            |s: System| (qualified_item(views(prefix@), s.name, ItemKind::System, s.span), s),
        ),
        item_models(final(out).externals@) == item_models(old(out).externals@)
            + p.externals@.map_values(
            |f: ExternalFunction|
                qualified_item(views(prefix@), f.name, ItemKind::ExternalFunction, f.span),
        ),
{
    let ghost before = collected_systems(*out);
    let ghost externals_before = item_models(out.externals@);
    let ghost all = p.systems@.map_values(
        |s: System| (qualified_item(views(prefix@), s.name, ItemKind::System, s.span), s),
    );
    let ghost all_externals = p.externals@.map_values(
        |f: ExternalFunction|
            qualified_item(views(prefix@), f.name, ItemKind::ExternalFunction, f.span),
    );
    let mut i: usize = 0;
    proof {
        assert(before + all.take(0) =~= before);
        assert(externals_before + all_externals.take(0) =~= externals_before);
    }
    while i < p.systems.len()
        invariant
            i <= p.systems@.len(),
            collected_ok(*out),
            all == p.systems@.map_values(
                |s: System| (qualified_item(views(prefix@), s.name, ItemKind::System, s.span), s),
            ),
            collected_systems(*out) == before + all.take(i as int),
            item_models(out.externals@) == externals_before,
        decreases p.systems@.len() - i,
    {
        let ghost sofar = collected_systems(*out);
        let s = &p.systems[i];
        let item = item_of(prefix, &s.name, ItemKind::System, s.span);
        out.system_items.push(item);
        out.systems.push(s);
        proof {
            assert(collected_systems(*out) =~= sofar.push(all[i as int]));
            assert(all.take(i + 1) =~= all.take(i as int).push(all[i as int]));
            assert(collected_systems(*out) =~= before + all.take(i + 1));
        }
        i += 1;
    }
    proof {
        assert(all.take(p.systems@.len() as int) =~= all);
    }
    let ghost done = collected_systems(*out);
    let mut j: usize = 0;
    while j < p.externals.len()
        invariant
            j <= p.externals@.len(),
            collected_ok(*out),
            all_externals == p.externals@.map_values(
                |f: ExternalFunction|
                    qualified_item(views(prefix@), f.name, ItemKind::ExternalFunction, f.span),
            ),
            collected_systems(*out) == done,
            item_models(out.externals@) == externals_before + all_externals.take(j as int),
        decreases p.externals@.len() - j,
    {
        let ghost sofar = item_models(out.externals@);
        let f = &p.externals[j];
        let item = item_of(prefix, &f.name, ItemKind::ExternalFunction, f.span);
        out.externals.push(item);
        proof {
            assert(collected_systems(*out) =~= done);
            assert(item_models(out.externals@) =~= sofar.push(all_externals[j as int]));
            assert(all_externals.take(j + 1) =~= all_externals.take(j as int).push(
                all_externals[j as int],
            ));
            assert(item_models(out.externals@) =~= externals_before + all_externals.take(j + 1));
        }
        j += 1;
    }
    proof {
        assert(all_externals.take(p.externals@.len() as int) =~= all_externals);
    }
}

fn inner_prefix(prefix: &Vec<String>, p: &Package) -> (r: Vec<String>)
    ensures
        views(r@) == package_prefix(views(prefix@), *p),
{
    let mut out = copy_all(prefix);
    match &p.name {
        Some(segments) => {
            let mut more = copy_all(segments);
            let ghost a = views(out@);
            let ghost b = views(more@);
            out.append(&mut more);
            proof {
                assert(views(out@) =~= a + b);
            }
            out
        },
        None => out,
    }
}

fn collect_all<'a>(prefix: &Vec<String>, v: &'a Vec<Package>, out: &mut Collected<'a>)
    requires
        collected_ok(*old(out)),
    ensures
        collected_ok(*final(out)),
        collected_systems(*final(out)) == collected_systems(*old(out)) + systems_in_first(
            views(prefix@),
            *v,
            v@.len(),
        ),
        item_models(final(out).externals@) == item_models(old(out).externals@)
            + externals_in_first(views(prefix@), *v, v@.len()),
    decreases v, 0int,
{
    let ghost a = collected_systems(*out);
    let ghost b = item_models(out.externals@);
    let mut i: usize = 0;
    proof {
        assert(a + systems_in_first(views(prefix@), *v, 0) =~= a);
        assert(b + externals_in_first(views(prefix@), *v, 0) =~= b);
    }
    while i < v.len()
        invariant
            i <= v@.len(),
            collected_ok(*out),
            collected_systems(*out) == a + systems_in_first(views(prefix@), *v, i as nat),
            item_models(out.externals@) == b + externals_in_first(views(prefix@), *v, i as nat),
        decreases v@.len() - i,
    {
        let sub = inner_prefix(prefix, &v[i]);
        collect(&sub, &v[i], out);
        proof {
            assert(collected_systems(*out) =~= a + systems_in_first(
                views(prefix@),
                *v,
                (i + 1) as nat,
            ));
            assert(item_models(out.externals@) =~= b + externals_in_first(
                views(prefix@),
                *v,
                (i + 1) as nat,
            ));
        }
        i += 1;
    }
}

fn collect<'a>(prefix: &Vec<String>, p: &'a Package, out: &mut Collected<'a>)
    requires
        collected_ok(*old(out)),
    ensures
        collected_ok(*final(out)),
        collected_systems(*final(out)) == collected_systems(*old(out)) + systems_in(
            views(prefix@),
            *p,
        ),
        item_models(final(out).externals@) == item_models(old(out).externals@) + externals_in(
            views(prefix@),
            *p,
        ),
    decreases p, 0int,
{
    let ghost a = collected_systems(*out);
    let ghost b = item_models(out.externals@);
    collect_here(prefix, p, out);
    collect_all(prefix, &p.packages, out);
    proof {
        assert(collected_systems(*out) =~= a + systems_in(views(prefix@), *p));
        assert(item_models(out.externals@) =~= b + externals_in(views(prefix@), *p));
    }
}

/// The systems of several files.
pub open spec fn program_systems(roots: Seq<Package>) -> Seq<(ItemModel, System)>
    decreases roots.len(),
{
    if roots.len() == 0 {
        Seq::empty()
    } else {
        program_systems(roots.drop_last()) + systems_in(Seq::empty(), roots.last())
    }
}

/// The external functions of several files.
pub open spec fn program_externals(roots: Seq<Package>) -> Seq<ItemModel>
    decreases roots.len(),
{
    if roots.len() == 0 {
        Seq::empty()
    } else {
        program_externals(roots.drop_last()) + externals_in(Seq::empty(), roots.last())
    }
}

pub open spec fn each_system_clashes(systems: Seq<(ItemModel, System)>) -> Seq<Issue>
    decreases systems.len(),
{
    if systems.len() == 0 {
        Seq::empty()
    } else {
        each_system_clashes(systems.drop_last()) + system_clashes(systems.last().1)
    }
}

pub open spec fn items_of(systems: Seq<(ItemModel, System)>) -> Seq<ItemModel> {
    systems.map_values(|x: (ItemModel, System)| x.0)
}

/// What is reported of the names that the systems and external functions of a program share.
pub open spec fn shared_clashes(roots: Seq<Package>) -> Seq<Issue> {
    clashes(items_of(program_systems(roots))) + clashes(program_externals(roots))
}

/// Everything that is reported of the names of a program.
pub open spec fn program_clashes(roots: Seq<Package>) -> Seq<Issue> {
    shared_clashes(roots) + each_system_clashes(program_systems(roots))
}

/// Collects the systems and external functions of a program, given file by file.
fn collect_roots<'a>(roots: &'a Vec<Package>) -> (collected: Collected<'a>)
    ensures
        collected_ok(collected),
        collected_systems(collected) == program_systems(roots@),
        item_models(collected.system_items@) == items_of(program_systems(roots@)),
        item_models(collected.externals@) == program_externals(roots@),
{
    let mut collected = Collected {
        system_items: Vec::new(),
        systems: Vec::new(),
        externals: Vec::new(),
    };
    let none: Vec<String> = Vec::new();
    let mut i: usize = 0;
    proof {
        assert(views(none@) =~= Seq::<Seq<char>>::empty());
        assert(collected_systems(collected) =~= program_systems(roots@.take(0)));
        assert(item_models(collected.externals@) =~= program_externals(roots@.take(0)));
    }
    while i < roots.len()
        invariant
            i <= roots@.len(),
            views(none@) == Seq::<Seq<char>>::empty(),
            collected_ok(collected),
            collected_systems(collected) == program_systems(roots@.take(i as int)),
            item_models(collected.externals@) == program_externals(roots@.take(i as int)),
        decreases roots@.len() - i,
    {
        proof {
            let t = roots@.take(i + 1);
            assert(t.drop_last() =~= roots@.take(i as int));
            assert(t.last() == roots@[i as int]);
        }
        collect(&none, &roots[i], &mut collected);
        i += 1;
    }
    let ghost all = program_systems(roots@);
    proof {
        assert(roots@.take(roots@.len() as int) =~= roots@);
        assert(item_models(collected.system_items@) =~= items_of(all)) by {
            assert forall|k: int| 0 <= k < collected.systems@.len() implies #[trigger] items_of(
                all,
            )[k] == collected.system_items@[k]@ by {
                assert(all[k] == collected_systems(collected)[k]);
            }
            assert(all.len() == collected.systems@.len());
        }
    }
    collected
}

fn report_shared<'a>(collected: &Collected<'a>) -> (diags: Vec<Diagnostic>)
    ensures
        issues(diags@) == clashes(item_models(collected.system_items@)) + clashes(
            item_models(collected.externals@),
        ),
{
    let mut diags: Vec<Diagnostic> = Vec::new();
    proof {
        assert(issues(diags@) =~= Seq::<Issue>::empty());
    }
    report_clashes(&collected.system_items, &mut diags);
    report_clashes(&collected.externals, &mut diags);
    proof {
        assert(issues(diags@) =~= clashes(item_models(collected.system_items@)) + clashes(
            item_models(collected.externals@),
        ));
    }
    diags
}

/// Checks that no two systems and no two external functions of a program share a qualified name.
pub fn check_shared_names(roots: &Vec<Package>) -> (r: Vec<Diagnostic>)
    ensures
        issues(r@) == shared_clashes(roots@),
{
    report_shared(&collect_roots(roots))
}

/// Checks the names of a program, given file by file: those that are shared, and those of each
/// system.
pub fn check_program_uniqueness(roots: &Vec<Package>) -> (r: Vec<Diagnostic>)
    ensures
        issues(r@) == program_clashes(roots@),
{
    let collected = collect_roots(roots);
    let ghost all = program_systems(roots@);
    let mut diags = report_shared(&collected);
    let ghost first = issues(diags@);
    let mut j: usize = 0;
    proof {
        assert(first + each_system_clashes(all.take(0)) =~= first);
    }
    while j < collected.systems.len()
        invariant
            j <= collected.systems@.len(),
            collected_ok(collected),
            all == collected_systems(collected),
            issues(diags@) == first + each_system_clashes(all.take(j as int)),
        decreases collected.systems@.len() - j,
    {
        proof {
            let t = all.take(j + 1);
            assert(t.drop_last() =~= all.take(j as int));
            assert(t.last().1 == *collected.systems@[j as int]);
        }
        let more = check_system_uniqueness(collected.systems[j]);
        report_all(&mut diags, more);
        proof {
            assert(issues(diags@) =~= first + each_system_clashes(all.take(j + 1)));
        }
        j += 1;
    }
    proof {
        assert(all.take(collected.systems@.len() as int) =~= all);
        assert(first =~= clashes(items_of(all)) + clashes(program_externals(roots@)));
    }
    diags
}

} // verus!
