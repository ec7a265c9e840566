//! The interface of a system: its parameter domain, its variables, and the sets and relations
//! that its declarations name.
use crate::context_names::copy_all;
use crate::diagnostic::{issue, Diagnostic, Issue, IssueKind};
use crate::multiplicity::{Multiplicity, VariableId};
use crate::polyhedral::{
    failed_set, one_value, set_failure, value_failure, MapModel, MapTerm, PolynomialModel,
    PolynomialTerm, SetModel, SetTerm, Value, ValueModel,
};
use crate::scan::{
    cut, drop_leading, drop_trailing, first_piece, head, numeral_value, parse_i64, pieces, split, split_once, trim,
    trimmed, without_leading, Class,
};
use crate::syntax::{Calc, CalcKind, Constant, Decl, ObjectDecl, Span, System, Token};
use crate::text::{
    cat2, cat4, cat5, dec, dec_i64, dec_int, dec_usize, join, joined, push_text, str_eq, views,
};
use crate::ty::ElementType;
use crate::value::{binary_value, eval_binary, eval_unary, unary_value};
use vstd::prelude::*;

verus! {

/// A constant with its value: the last one of a name hides the ones before it.
pub open spec fn constant_value(constants: Seq<(Seq<char>, int)>, name: Seq<char>) -> Option<int>
    decreases constants.len(),
{
    if constants.len() == 0 {
        None
    } else if constants.last().0 == name {
        Some(constants.last().1)
    } else {
        constant_value(constants.drop_last(), name)
    }
}

/// The constants of one container that have a name and a value that fits.
pub open spec fn container_constants(all: Seq<Constant>) -> Seq<(Seq<char>, int)>
    decreases all.len(),
{
    if all.len() == 0 {
        Seq::empty()
    } else {
        let before = container_constants(all.drop_last());
        match (all.last().name, all.last().value) {
            (Some(name), Some(value)) => match numeral_value(value@) {
                Some(n) => if i64::MIN <= n <= i64::MAX {
                    before.push((name.text@, n))
                } else {
                    before
                },
                None => before,
            },
            _ => before,
        }
    }
}

/// The constants of the containers, from the innermost outward.
pub open spec fn scope_constants(scopes: Seq<Vec<Constant>>) -> Seq<(Seq<char>, int)>
    decreases scopes.len(),
{
    if scopes.len() == 0 {
        Seq::empty()
    } else {
        scope_constants(scopes.drop_last()) + container_constants(scopes.last()@)
    }
}

/// The constants in scope of a system.
pub open spec fn constants_of(s: System) -> Seq<(Seq<char>, int)> {
    scope_constants(s.scopes@)
}

pub open spec fn constant_views(v: Seq<(String, i64)>) -> Seq<(Seq<char>, int)> {
    Seq::new(v.len(), |i: int| (v[i].0@, v[i].1 as int))
}

fn push_container(out: &mut Vec<(String, i64)>, all: &Vec<Constant>)
    ensures
        constant_views(final(out)@) == constant_views(old(out)@) + container_constants(all@),
{
    let mut i: usize = 0;
    let ghost base = constant_views(out@);
    proof {
        assert(base + container_constants(all@.take(0)) =~= base);
    }
    while i < all.len()
        invariant
            i <= all@.len(),
            constant_views(out@) == base + container_constants(all@.take(i as int)),
        decreases all@.len() - i,
    {
        let ghost before = constant_views(out@);
        proof {
            let t = all@.take(i + 1);
            assert(t.drop_last() =~= all@.take(i as int));
            assert(t.last() == all@[i as int]);
        }
        match (&all[i].name, &all[i].value) {
            (Some(name), Some(value)) => match parse_i64(value.as_str()) {
                Some(n) => {
                    out.push((name.text.clone(), n));
                    proof {
                        assert(constant_views(out@) =~= before.push((name.text@, n as int)));
                        assert(constant_views(out@) =~= base + container_constants(
                            all@.take(i + 1),
                        ));
                    }
                },
                None => {},
            },
            _ => {},
        }
        i += 1;
    }
    proof {
        assert(all@.take(all@.len() as int) =~= all@);
    }
}

fn constants_in_scope(system: &System) -> (r: Vec<(String, i64)>)
    ensures
        constant_views(r@) == constants_of(*system),
{
    let mut out: Vec<(String, i64)> = Vec::new();
    let mut i: usize = 0;
    proof {
        assert(constant_views(out@) =~= scope_constants(system.scopes@.take(0)));
    }
    while i < system.scopes.len()
        invariant
            i <= system.scopes@.len(),
            constant_views(out@) == scope_constants(system.scopes@.take(i as int)),
        decreases system.scopes@.len() - i,
    {
        proof {
            let t = system.scopes@.take(i + 1);
            assert(t.drop_last() =~= system.scopes@.take(i as int));
            assert(t.last() == system.scopes@[i as int]);
        }
        push_container(&mut out, &system.scopes[i]);
        i += 1;
    }
    proof {
        assert(system.scopes@.take(system.scopes@.len() as int) =~= system.scopes@);
    }
    out
}

/// The text of a token, with the numeral of its value in place of a constant's name.
pub open spec fn token_text(t: Token, constants: Seq<(Seq<char>, int)>) -> Seq<char> {
    match t {
        Token::Other(s) => s@,
        Token::Ident(s) => match constant_value(constants, s@) {
            Some(n) => dec_int(n),
            None => s@,
        },
    }
}

pub open spec fn tokens_text(tokens: Seq<Token>, constants: Seq<(Seq<char>, int)>) -> Seq<char>
    decreases tokens.len(),
{
    if tokens.len() == 0 {
        Seq::empty()
    } else {
        tokens_text(tokens.drop_last(), constants) + token_text(tokens.last(), constants)
    }
}

/// The text of a calculator expression as it stands in the source.
pub open spec fn source_text(c: Calc) -> Seq<char> {
    tokens_text(c.tokens@, Seq::empty())
}

fn find_constant(constants: &Vec<(String, i64)>, name: &str) -> (r: Option<i64>)
    ensures
        match r {
            Some(n) => constant_value(constant_views(constants@), name@) == Some(n as int),
            None => constant_value(constant_views(constants@), name@) is None,
        },
{
    let ghost all = constant_views(constants@);
    let mut i: usize = constants.len();
    proof {
        assert(all.take(constants@.len() as int) =~= all);
    }
    while i > 0
        invariant
            i <= constants@.len(),
            all == constant_views(constants@),
            constant_value(all, name@) == constant_value(all.take(i as int), name@),
        decreases i,
    {
        proof {
            assert(all.take(i as int).last() == all[i - 1]);
            assert(all.take(i as int).drop_last() =~= all.take(i - 1));
        }
        i -= 1;
        if str_eq(constants[i].0.as_str(), name) {
            return Some(constants[i].1);
        }
    }
    None
}

pub(crate) fn render_tokens(tokens: &Vec<Token>, constants: &Vec<(String, i64)>) -> (r: String)
    ensures
        r@ == tokens_text(tokens@, constant_views(constants@)),
{
    let mut out = String::new();
    let mut i: usize = 0;
    while i < tokens.len()
        invariant
            i <= tokens@.len(),
            out@ == tokens_text(tokens@.take(i as int), constant_views(constants@)),
        decreases tokens@.len() - i,
    {
        proof {
            let t = tokens@.take(i + 1);
            assert(t.drop_last() =~= tokens@.take(i as int));
            assert(t.last() == tokens@[i as int]);
        }
        match &tokens[i] {
            Token::Other(s) => out.append(s.as_str()),
            Token::Ident(s) => match find_constant(constants, s.as_str()) {
                Some(n) => {
                    let numeral = dec_i64(n);
                    out.append(numeral.as_str());
                },
                None => out.append(s.as_str()),
            },
        }
        i += 1;
    }
    proof {
        assert(tokens@.take(tokens@.len() as int) =~= tokens@);
    }
    out
}

/// The text of a calculator expression as it stands in the source.
pub fn written(c: &Calc) -> (r: String)
    ensures
        r@ == source_text(*c),
{
    let none: Vec<(String, i64)> = Vec::new();
    proof {
        assert(constant_views(none@) =~= Seq::<(Seq<char>, int)>::empty());
    }
    render_tokens(&c.tokens, &none)
}

/// Where in a system a variable is declared.
#[derive(Debug, Clone, Copy, PartialEq, Eq, Structural)]
pub enum Section {
    Inputs,
    Outputs,
    Locals,
}

pub open spec fn section_decls(s: System, section: Section) -> Seq<Decl> {
    match section {
        Section::Inputs => s.inputs@,
        Section::Outputs => s.outputs@,
        Section::Locals => s.locals@,
    }
}

fn declared<'a>(s: &'a System, section: Section) -> (r: &'a Vec<Decl>)
    ensures
        r@ == section_decls(*s, section),
{
    match section {
        Section::Inputs => &s.inputs,
        Section::Outputs => &s.outputs,
        Section::Locals => &s.locals,
    }
}

/// A variable that a name can stand for. Its number is its place among all of them.
pub struct Entry {
    pub name: String,
    pub section: Section,
    pub index: usize,
    pub multiplicity: Multiplicity,
}

/// An [`Entry`] as a mathematical value.
pub struct EntryModel {
    pub name: Seq<char>,
    pub section: Section,
    pub index: int,
    pub multiplicity: Multiplicity,
}

impl View for Entry {
    type V = EntryModel;

    open spec fn view(&self) -> EntryModel {
        EntryModel {
            name: self.name@,
            section: self.section,
            index: self.index as int,
            multiplicity: self.multiplicity,
        }
    }
}

pub open spec fn entry_models(v: Seq<Entry>) -> Seq<EntryModel> {
    Seq::new(v.len(), |i: int| v[i]@)
}

/// What the declarations so far say of the next one in their group: a group is linear from its
/// first linear name on, and ends with the name that has a domain.
pub open spec fn group_multiplicity(decls: Seq<Decl>) -> Multiplicity
    decreases decls.len(),
{
    if decls.len() == 0 {
        Multiplicity::Unrestricted
    } else {
        let d = decls.last();
        let before = group_multiplicity(decls.drop_last());
        if d.fuzzy || d.name is None {
            before
        } else if d.domain is Some {
            Multiplicity::Unrestricted
        } else if d.linear {
            Multiplicity::Linear
        } else {
            before
        }
    }
}

/// The named variables among the first declarations of a section.
pub open spec fn section_entries(section: Section, decls: Seq<Decl>) -> Seq<EntryModel>
    decreases decls.len(),
{
    if decls.len() == 0 {
        Seq::empty()
    } else {
        let d = decls.last();
        let before = section_entries(section, decls.drop_last());
        match d.name {
            Some(name) if !d.fuzzy => before.push(
                EntryModel {
                    name: name.text@,
                    section,
                    index: decls.len() - 1,
                    multiplicity: if d.linear {
                        Multiplicity::Linear
                    } else {
                        group_multiplicity(decls.drop_last())
                    },
                },
            ),
            _ => before,
        }
    }
}

/// Every named variable of a system, in order of declaration.
pub open spec fn entries_of(s: System) -> Seq<EntryModel> {
    section_entries(Section::Inputs, s.inputs@) + section_entries(Section::Outputs, s.outputs@)
        + section_entries(Section::Locals, s.locals@)
}

fn push_section(out: &mut Vec<Entry>, kind: Section, decls: &Vec<Decl>)
    ensures
        entry_models(final(out)@) == entry_models(old(out)@) + section_entries(kind, decls@),
{
    let mut i: usize = 0;
    let mut group = Multiplicity::Unrestricted;
    let ghost base = entry_models(out@);
    proof {
        assert(base + section_entries(kind, decls@.take(0)) =~= base);
    }
    while i < decls.len()
        invariant
            i <= decls@.len(),
            group == group_multiplicity(decls@.take(i as int)),
            entry_models(out@) == base + section_entries(kind, decls@.take(i as int)),
        decreases decls@.len() - i,
    {
        let ghost before = entry_models(out@);
        proof {
            let t = decls@.take(i + 1);
            assert(t.drop_last() =~= decls@.take(i as int));
            assert(t.last() == decls@[i as int]);
        }
        let d = &decls[i];
        if !d.fuzzy {
            match &d.name {
                Some(name) => {
                    if d.linear {
                        group = Multiplicity::Linear;
                    }
                    let entry = Entry {
                        name: name.text.clone(),
                        section: kind,
                        index: i,
                        multiplicity: group,
                    };
                    let ghost model = entry@;
                    out.push(entry);
                    proof {
                        assert(entry_models(out@) =~= before.push(model));
                        assert(entry_models(out@) =~= base + section_entries(
                            kind,
                            decls@.take(i + 1),
                        ));
                    }
                    if d.domain.is_some() {
                        group = Multiplicity::Unrestricted;
                    }
                },
                None => {},
            }
        }
        i += 1;
    }
    proof {
        assert(decls@.take(decls@.len() as int) =~= decls@);
    }
}

/// The place of the last variable of a name.
pub open spec fn entry_place(entries: Seq<EntryModel>, name: Seq<char>) -> Option<int>
    decreases entries.len(),
{
    if entries.len() == 0 {
        None
    } else if entries.last().name == name {
        Some(entries.len() - 1)
    } else {
        entry_place(entries.drop_last(), name)
    }
}

/// The place of the last defined object of a name.
pub open spec fn object_place(objects: Seq<ObjectDecl>, name: Seq<char>) -> Option<int>
    decreases objects.len(),
{
    if objects.len() == 0 {
        None
    } else if objects.last().name matches Some(n) && n.text@ == name {
        Some(objects.len() - 1)
    } else {
        object_place(objects.drop_last(), name)
    }
}

proof fn lemma_entry_place(entries: Seq<EntryModel>, name: Seq<char>)
    ensures
        entry_place(entries, name) matches Some(i) ==> 0 <= i < entries.len() && entries[i].name
            == name,
    decreases entries.len(),
{
    if entries.len() > 0 {
        lemma_entry_place(entries.drop_last(), name);
    }
}

proof fn lemma_object_place(objects: Seq<ObjectDecl>, name: Seq<char>)
    ensures
        object_place(objects, name) matches Some(i) ==> 0 <= i < objects.len() && (
        objects[i].name matches Some(n) && n.text@ == name),
    decreases objects.len(),
{
    if objects.len() > 0 {
        lemma_object_place(objects.drop_last(), name);
    }
}

proof fn lemma_section_entry(section: Section, decls: Seq<Decl>, i: int)
    requires
        0 <= i < section_entries(section, decls).len(),
    ensures
        section_entries(section, decls)[i].section == section,
        0 <= section_entries(section, decls)[i].index < decls.len(),
    decreases decls.len(),
{
    if decls.len() > 0 {
        let before = section_entries(section, decls.drop_last());
        if i < before.len() {
            lemma_section_entry(section, decls.drop_last(), i);
        }
    }
}

/// Every entry points at a declaration of its section.
proof fn lemma_entry_index(s: System, i: int)
    requires
        0 <= i < entries_of(s).len(),
    ensures
        0 <= entries_of(s)[i].index < section_decls(s, entries_of(s)[i].section).len(),
{
    let a = section_entries(Section::Inputs, s.inputs@);
    let b = section_entries(Section::Outputs, s.outputs@);
    let c = section_entries(Section::Locals, s.locals@);
    if i < a.len() {
        lemma_section_entry(Section::Inputs, s.inputs@, i);
    } else if i < a.len() + b.len() {
        lemma_section_entry(Section::Outputs, s.outputs@, i - a.len());
    } else {
        lemma_section_entry(Section::Locals, s.locals@, i - a.len() - b.len());
    }
}

/// What is being resolved: a variable's domain, or a defined object.
pub enum Visit {
    Variable(Seq<char>),
    Object(Seq<char>),
}

pub open spec fn object_name(o: ObjectDecl) -> Seq<char> {
    match o.name {
        Some(n) => n.text@,
        None => Seq::empty(),
    }
}

/// Everything that can be resolved in a system.
pub open spec fn visits(s: System) -> Seq<Visit> {
    entries_of(s).map_values(|e: EntryModel| Visit::Variable(e.name)) + s.objects@.map_values(
        |o: ObjectDecl| Visit::Object(object_name(o)),
    )
}

/// How many more things can be resolved inside one another.
pub open spec fn room(s: System, path: Seq<Visit>) -> nat {
    if path.len() <= visits(s).len() {
        (visits(s).len() - path.len()) as nat
    } else {
        0
    }
}

pub open spec fn undefined(name: Seq<char>, span: Span) -> Issue {
    issue(IssueKind::UndefinedReference, seq![name], span.pair())
}

pub open spec fn cyclic(name: Seq<char>, span: Span) -> Issue {
    issue(IssueKind::CyclicDefinition, seq![name], span.pair())
}

/// The text with the parameter names before it.
pub open spec fn prefixed(s: System, text: Seq<char>) -> Seq<char> {
    "["@ + joined(views(s.params@), ","@) + "] -> "@ + text
}

/// The text of a calculator expression, constants replaced by their values.
pub open spec fn text_in(s: System, c: Calc) -> Seq<char> {
    tokens_text(c.tokens@, constants_of(s))
}

/// The empty braces stand for the one point without indices.
pub open spec fn normal_text(text: Seq<char>) -> Seq<char> {
    if trimmed(text) == "{}"@ {
        "{ [] : }"@
    } else {
        text
    }
}

/// The text of a domain is never the bare braces that stand for no set, and to normalize it again
/// changes nothing.
pub proof fn normalizing_twice_changes_nothing(text: Seq<char>)
    ensures
        normal_text(normal_text(text)) == normal_text(text),
        trimmed(normal_text(text)) != "{}"@,
{
    let t = "{ [] : }"@;
    reveal_strlit("{ [] : }");
    reveal_strlit("{}");
    assert(t.len() == 8 && t[0] == '{' && t[7] == '}');
    assert(drop_leading(t, Class::White) == t);
    assert(drop_trailing(t, Class::White) == t);
    assert(trimmed(t) == t);
    assert("{}"@.len() == 2);
}

/// The names of a rectangular domain: the given ones, or one made up for each bound.
pub open spec fn rectangle_names(names: Seq<Seq<char>>, bounds: nat) -> Seq<Seq<char>> {
    if names.len() > 0 {
        names
    } else {
        Seq::new(bounds, |i: int| "__rect"@ + dec(i as nat))
    }
}

/// The constraint on one index of a rectangular domain: from a lower to an upper bound, or from
/// zero where only the upper one is given.
pub open spec fn rectangle_constraint(bound: Seq<char>, name: Seq<char>) -> Seq<char> {
    match cut(bound, ':') {
        Some((lo, hi)) => trimmed(lo) + "<="@ + name + "<"@ + trimmed(hi),
        None => "0<="@ + name + "<"@ + trimmed(bound),
    }
}

pub open spec fn shorter(a: nat, b: nat) -> nat {
    if a <= b { a } else { b }
}

/// The set that a rectangular domain stands for.
pub open spec fn rectangle_text(text: Seq<char>, names: Seq<Seq<char>>) -> Seq<char> {
    let bounds = pieces(head(drop_leading(text, Class::Only('[')), ']'), ',').map_values(
        |p: Seq<char>| trimmed(p),
    );
    let all = rectangle_names(names, bounds.len());
    let constraints = Seq::new(
        shorter(bounds.len(), all.len()),
        |i: int| rectangle_constraint(bounds[i], all[i]),
    );
    "{ ["@ + joined(all, ","@) + "] : "@ + joined(constraints, " and "@) + " }"@
}

/// A value in the place of a domain must be a set.
pub open spec fn as_domain(v: ValueModel, span: Span) -> SetModel {
    match v {
        ValueModel::Points(s) => s,
        ValueModel::Failed(before, error) => SetModel::Failed(before, error),
        other => SetModel::Failed(
            seq![other],
            issue(
                IssueKind::InvalidCalculatorOperand,
                seq!["domain position"@, other.kind()],
                span.pair(),
            ),
        ),
    }
}

/// The next declaration after place `i` that has a domain, with nothing fuzzy before it.
pub open spec fn next_with_domain(decls: Seq<Decl>, i: int) -> Option<int>
    decreases decls.len() - i,
{
    if i < 0 || i + 1 >= decls.len() || decls[i + 1].fuzzy {
        None
    } else if decls[i + 1].domain is Some {
        Some(i + 1)
    } else {
        next_with_domain(decls, i + 1)
    }
}

pub open spec fn decl_name(d: Decl) -> Seq<char> {
    match d.name {
        Some(n) => n.text@,
        None => Seq::empty(),
    }
}

/// The domain of a variable: its own, or that of the next variable of its section that has one.
/// `path` is what is being resolved around it; there is always room where nothing repeats.
pub open spec fn variable_set(s: System, name: Seq<char>, path: Seq<Visit>) -> SetModel
    decreases 2 * room(s, path), s,
{
    match entry_place(entries_of(s), name) {
        None => failed_set(undefined(name, Span { start: 0, end: 0 })),
        Some(i) => {
            let e = entries_of(s)[i];
            let decls = section_decls(s, e.section);
            let d = decls[e.index];
            let inner = path.push(Visit::Variable(name));
            if path.contains(Visit::Variable(name)) || room(s, path) == 0 {
                failed_set(cyclic(name, d.span))
            } else {
                match d.domain {
                    Some(c) => as_domain(calc_value(s, c, inner), c.span),
                    None => match next_with_domain(decls, e.index) {
                        Some(j) => variable_set(s, decl_name(decls[j]), inner),
                        None => failed_set(undefined(decl_name(d), d.span)),
                    },
                }
            }
        },
    }
}

/// The value of a defined object, named at `at`.
pub open spec fn object_value(s: System, name: Seq<char>, at: Span, path: Seq<Visit>) -> ValueModel
    decreases 2 * room(s, path), s,
{
    match object_place(s.objects@, name) {
        None => ValueModel::Failed(Seq::empty(), undefined(name, at)),
        Some(i) => if path.contains(Visit::Object(name)) || room(s, path) == 0 {
            ValueModel::Failed(Seq::empty(), cyclic(name, at))
        } else {
            match s.objects@[i].expr {
                None => ValueModel::Failed(Seq::empty(), undefined(name, at)),
                Some(c) => calc_value(s, c, path.push(Visit::Object(name))),
            }
        },
    }
}

pub open spec fn missing_operand(span: Span) -> ValueModel {
    ValueModel::Failed(Seq::empty(), undefined("<missing operand>"@, span))
}

pub open spec fn unsupported_value(what: Seq<char>, span: Span) -> ValueModel {
    ValueModel::Failed(
        Seq::empty(),
        issue(IssueKind::UnsupportedCalculatorOp, seq![what], span.pair()),
    )
}

/// What a calculator expression stands for where no index names are in scope.
pub open spec fn calc_value(s: System, c: Calc, path: Seq<Visit>) -> ValueModel
    decreases 2 * room(s, path) + 1, c,
{
    match c.kind {
        CalcKind::Domain => ValueModel::Points(
            SetModel::Read(prefixed(s, normal_text(text_in(s, c))), c.span),
        ),
        CalcKind::ArrayDomain => ValueModel::Points(
            SetModel::Read(prefixed(s, text_in(s, c)), c.span),
        ),
        CalcKind::ParamDomain => ValueModel::Points(SetModel::Read(text_in(s, c), c.span)),
        CalcKind::Relation => ValueModel::Relation(
            MapModel::Read(prefixed(s, text_in(s, c)), c.span),
        ),
        CalcKind::Polynomial | CalcKind::ArrayPolynomial => ValueModel::Polynomial(
            PolynomialModel { text: prefixed(s, text_in(s, c)), at: c.span },
        ),
        CalcKind::VariableDomain { name } => ValueModel::Points(variable_set(s, name@, path)),
        CalcKind::DefinedObject { name } => object_value(s, name@, c.span, path),
        CalcKind::RectangularDomain { names } => ValueModel::Points(
            SetModel::Read(prefixed(s, rectangle_text(text_in(s, c), views(names@))), c.span),
        ),
        CalcKind::Unary { kind, operator, operand } => match operand {
            None => missing_operand(c.span),
            Some(o) => unary_value(kind, operator@, c.span, calc_value(s, *o, path)),
        },
        CalcKind::Binary { kind, operator, lhs, rhs } => {
            let l = match lhs {
                None => missing_operand(c.span),
                Some(o) => calc_value(s, *o, path),
            };
            let r = match rhs {
                None => missing_operand(c.span),
                Some(o) => calc_value(s, *o, path),
            };
            binary_value(kind, operator@, c.span, l, r)
        },
        CalcKind::Paren { inner } => match inner {
            None => missing_operand(c.span),
            Some(o) => calc_value(s, *o, path),
        },
        CalcKind::Function { inputs, exprs } => unsupported_value(
            "function literal outside an equation body"@,
            c.span,
        ),
        CalcKind::ArrayFunction { elements } => unsupported_value(
            "function literal outside an equation body"@,
            c.span,
        ),
        CalcKind::FuzzyFunction | CalcKind::ArrayFuzzyFunction => unsupported_value(
            "fuzzy function"@,
            c.span,
        ),
    }
}

/// A set of distinct things among the known ones, and one more of them, leave room.
proof fn lemma_room(s: System, path: Seq<Visit>, v: Visit)
    requires
        path.no_duplicates(),
        forall|i: int| 0 <= i < path.len() ==> visits(s).contains(#[trigger] path[i]),
        visits(s).contains(v),
        !path.contains(v),
    ensures
        path.len() < visits(s).len(),
        path.push(v).no_duplicates(),
        forall|i: int| 0 <= i <= path.len() ==> visits(s).contains(#[trigger] path.push(v)[i]),
{
    let more = path.push(v);
    assert forall|i: int| 0 <= i < more.len() implies visits(s).contains(#[trigger] more[i]) by {
        if i < path.len() {
            assert(more[i] == path[i]);
        }
    }
    assert forall|i: int, j: int| 0 <= i < j < more.len() implies more[i] != more[j] by {
        if j == path.len() {
            assert(path.contains(path[i]));
        }
    }
    more.unique_seq_to_set();
    visits(s).lemma_cardinality_of_set();
    assert(more.to_set().subset_of(visits(s).to_set())) by {
        assert forall|x: Visit| more.to_set().contains(x) implies visits(s).to_set().contains(
            x,
        ) by {
            let i = choose|i: int| 0 <= i < more.len() && more[i] == x;
            assert(visits(s).contains(more[i]));
        }
    }
    vstd::set_lib::lemma_len_subset(more.to_set(), visits(s).to_set());
}

/// One step of what is being resolved.
enum Pending {
    Variable(String),
    Object(String),
}

spec fn pending_view(p: Pending) -> Visit {
    match p {
        Pending::Variable(n) => Visit::Variable(n@),
        Pending::Object(n) => Visit::Object(n@),
    }
}

spec fn pending_views(v: Seq<Pending>) -> Seq<Visit> {
    Seq::new(v.len(), |i: int| pending_view(v[i]))
}

/// What is being resolved is known and does not repeat.
spec fn path_ok(s: System, path: Seq<Visit>) -> bool {
    &&& path.no_duplicates()
    &&& forall|i: int| 0 <= i < path.len() ==> visits(s).contains(#[trigger] path[i])
}

fn is_pending_variable(path: &Vec<Pending>, name: &str) -> (r: bool)
    ensures
        r == pending_views(path@).contains(Visit::Variable(name@)),
{
    let mut i: usize = 0;
    while i < path.len()
        invariant
            i <= path@.len(),
            forall|j: int|
                0 <= j < i ==> #[trigger] pending_views(path@)[j] != Visit::Variable(name@),
        decreases path@.len() - i,
    {
        match &path[i] {
            Pending::Variable(n) => if str_eq(n.as_str(), name) {
                proof {
                    assert(pending_views(path@)[i as int] == Visit::Variable(name@));
                }
                return true;
            },
            Pending::Object(_) => {},
        }
        i += 1;
    }
    false
}

fn is_pending_object(path: &Vec<Pending>, name: &str) -> (r: bool)
    ensures
        r == pending_views(path@).contains(Visit::Object(name@)),
{
    let mut i: usize = 0;
    while i < path.len()
        invariant
            i <= path@.len(),
            forall|j: int|
                0 <= j < i ==> #[trigger] pending_views(path@)[j] != Visit::Object(name@),
        decreases path@.len() - i,
    {
        match &path[i] {
            Pending::Object(n) => if str_eq(n.as_str(), name) {
                proof {
                    assert(pending_views(path@)[i as int] == Visit::Object(name@));
                }
                return true;
            },
            Pending::Variable(_) => {},
        }
        i += 1;
    }
    false
}

/// The variables of a system can be numbered.
pub open spec fn system_ok(s: System) -> bool {
    entries_of(s).len() <= 0x1_0000_0000
}

/// The type that a declaration gives.
pub open spec fn given_type(d: Decl) -> ElementType {
    match d.element_type {
        Some(t) => ElementType::of_declared(t),
        None => ElementType::Unspecified,
    }
}

/// The element type of the declaration at place `i`: the type stands at the end of its group, as
/// the domain does.
pub open spec fn group_type(decls: Seq<Decl>, i: int) -> ElementType {
    if decls[i].domain is Some {
        given_type(decls[i])
    } else {
        match next_with_domain(decls, i) {
            Some(j) => given_type(decls[j]),
            None => ElementType::Unspecified,
        }
    }
}

fn type_of(d: &Decl) -> (r: ElementType)
    ensures
        r == given_type(*d),
{
    match d.element_type {
        Some(t) => ElementType::from(t),
        None => ElementType::Unspecified,
    }
}

/// Resolves the names of one system.
pub struct Resolver<'a> {
    pub system: &'a System,
    pub constants: Vec<(String, i64)>,
    pub entries: Vec<Entry>,
}

impl<'a> Resolver<'a> {
    pub open spec fn wf(&self) -> bool {
        &&& system_ok(*self.system)
        &&& constant_views(self.constants@) == constants_of(*self.system)
        &&& entry_models(self.entries@) == entries_of(*self.system)
    }

    pub fn new(system: &'a System) -> (r: Resolver<'a>)
        requires
            system_ok(*system),
        ensures
            r.wf(),
            r.system == system,
    {
        let mut entries: Vec<Entry> = Vec::new();
        proof {
            assert(entry_models(entries@) =~= Seq::<EntryModel>::empty());
        }
        push_section(&mut entries, Section::Inputs, &system.inputs);
        push_section(&mut entries, Section::Outputs, &system.outputs);
        push_section(&mut entries, Section::Locals, &system.locals);
        proof {
            assert(entry_models(entries@) =~= entries_of(*system));
        }
        Resolver { system, constants: constants_in_scope(system), entries }
    }

    fn find_entry(&self, name: &str) -> (r: Option<usize>)
        requires
            self.wf(),
        ensures
            match r {
                Some(i) => entry_place(entries_of(*self.system), name@) == Some(i as int) && i
                    < self.entries@.len(),
                None => entry_place(entries_of(*self.system), name@) is None,
            },
    {
        let ghost all = entries_of(*self.system);
        let mut i: usize = self.entries.len();
        proof {
            assert(all.take(all.len() as int) =~= all);
        }
        while i > 0
            invariant
                i <= self.entries@.len(),
                all == entry_models(self.entries@),
                all == entries_of(*self.system),
                entry_place(all, name@) == entry_place(all.take(i as int), name@),
            decreases i,
        {
            proof {
                assert(all.take(i as int).last() == all[i - 1]);
                assert(all.take(i as int).drop_last() =~= all.take(i - 1));
            }
            i -= 1;
            if str_eq(self.entries[i].name.as_str(), name) {
                return Some(i);
            }
        }
        None
    }

    fn find_object(&self, name: &str) -> (r: Option<usize>)
        ensures
            match r {
                Some(i) => object_place(self.system.objects@, name@) == Some(i as int) && i
                    < self.system.objects@.len(),
                None => object_place(self.system.objects@, name@) is None,
            },
    {
        let objects = &self.system.objects;
        let mut i: usize = objects.len();
        proof {
            assert(objects@.take(objects@.len() as int) =~= objects@);
        }
        while i > 0
            invariant
                i <= objects@.len(),
                objects@ == self.system.objects@,
                object_place(objects@, name@) == object_place(objects@.take(i as int), name@),
            decreases i,
        {
            proof {
                assert(objects@.take(i as int).last() == objects@[i - 1]);
                assert(objects@.take(i as int).drop_last() =~= objects@.take(i - 1));
            }
            i -= 1;
            match &objects[i].name {
                Some(n) => if str_eq(n.text.as_str(), name) {
                    return Some(i);
                },
                None => {},
            }
        }
        None
    }

    /// The number of a variable: the place of the last declaration of its name.
    pub fn variable_id(&self, name: &str) -> (r: Option<VariableId>)
        requires
            self.wf(),
        ensures
            match r {
                Some(id) => entry_place(entries_of(*self.system), name@) == Some(
                    id.index() as int,
                ),
                None => entry_place(entries_of(*self.system), name@) is None,
            },
    {
        proof {
            assert(entry_models(self.entries@).len() == self.entries@.len());
        }
        match self.find_entry(name) {
            Some(i) => Some(VariableId::from_index(i)),
            None => None,
        }
    }

    pub fn variable_multiplicity(&self, name: &str) -> (r: Option<Multiplicity>)
        requires
            self.wf(),
        ensures
            r == match entry_place(entries_of(*self.system), name@) {
                Some(i) => Some(entries_of(*self.system)[i].multiplicity),
                None => None,
            },
    {
        match self.find_entry(name) {
            Some(i) => {
                proof {
                    assert(entry_models(self.entries@)[i as int] == self.entries@[i as int]@);
                }
                Some(self.entries[i].multiplicity)
            },
            None => None,
        }
    }

    /// The element type of a variable. The names of a group have the type that ends the group.
    pub fn variable_type(&self, name: &str) -> (r: Option<ElementType>)
        requires
            self.wf(),
        ensures
            r == match entry_place(entries_of(*self.system), name@) {
                Some(i) => {
                    let e = entries_of(*self.system)[i];
                    Some(group_type(section_decls(*self.system, e.section), e.index))
                },
                None => None,
            },
    {
        match self.find_entry(name) {
            Some(i) => {
                proof {
                    assert(entry_models(self.entries@).len() == self.entries@.len());
                }
                Some(self.declared_type(i))
            },
            None => None,
        }
    }

    /// The declaration of the variable at place `i`.
    pub(crate) fn declaration(&self, i: usize) -> (r: &Decl)
        requires
            self.wf(),
            i < self.entries@.len(),
        ensures
            *r == section_decls(*self.system, entries_of(*self.system)[i as int].section)[entries_of(
                *self.system,
            )[i as int].index],
    {
        let e = &self.entries[i];
        proof {
            assert(entry_models(self.entries@)[i as int] == self.entries@[i as int]@);
            lemma_entry_index(*self.system, i as int);
        }
        let decls = declared(self.system, e.section);
        &decls[e.index]
    }

    /// The element type of the variable at place `i`.
    pub(crate) fn declared_type(&self, i: usize) -> (r: ElementType)
        requires
            self.wf(),
            i < self.entries@.len(),
        ensures
            r == group_type(
                section_decls(*self.system, entries_of(*self.system)[i as int].section),
                entries_of(*self.system)[i as int].index,
            ),
    {
        let e = &self.entries[i];
        proof {
            assert(entry_models(self.entries@)[i as int] == self.entries@[i as int]@);
            lemma_entry_index(*self.system, i as int);
        }
        let decls = declared(self.system, e.section);
        if decls[e.index].domain.is_some() {
            return type_of(&decls[e.index]);
        }
        match find_next(decls, e.index) {
            Some(j) => type_of(&decls[j]),
            None => ElementType::Unspecified,
        }
    }

    /// `isl_text` with the parameter names before it.
    pub fn with_param_prefix(&self, isl_text: &str) -> (r: String)
        ensures
            r@ == prefixed(*self.system, isl_text@),
    {
        let params = join(&self.system.params, ",");
        cat4("[", params.as_str(), "] -> ", isl_text)
    }

    /// The text of a calculator expression, with each constant replaced by its value.
    pub fn text_of(&self, c: &Calc) -> (r: String)
        requires
            self.wf(),
        ensures
            r@ == text_in(*self.system, *c),
    {
        render_tokens(&c.tokens, &self.constants)
    }

    /// The declared parameter domain, which has its own parameter names before it.
    pub fn param_domain(&self) -> (r: SetTerm)
        requires
            self.wf(),
        ensures
            r@ == param_set(*self.system),
    {
        SetTerm::Read {
            text: self.text_of(&self.system.param_domain),
            at: self.system.param_domain.span,
        }
    }

    /// A guard, whose names are parameters.
    pub fn array_domain_in_param_context(&self, ad: &Calc) -> (r: SetTerm)
        requires
            self.wf(),
        ensures
            r@ == guard_set(*self.system, *ad),
    {
        let text = self.text_of(ad);
        SetTerm::Read { text: self.with_param_prefix(text.as_str()), at: ad.span }
    }
}

/// The parameter domain of a system.
pub open spec fn param_set(s: System) -> SetModel {
    SetModel::Read(text_in(s, s.param_domain), s.param_domain.span)
}

/// The parameter values that a guard lets through.
pub open spec fn guard_set(s: System, guard: Calc) -> SetModel {
    SetModel::Read(prefixed(s, text_in(s, guard)), guard.span)
}

fn normalize_domain_text(text: &str) -> (r: String)
    ensures
        r@ == normal_text(text@),
{
    let t = trim(text);
    if str_eq(t.as_str(), "{}") {
        "{ [] : }".to_owned()
    } else {
        text.to_owned()
    }
}

fn trim_all(parts: &Vec<String>) -> (r: Vec<String>)
    ensures
        views(r@) == views(parts@).map_values(|p: Seq<char>| trimmed(p)),
{
    let mut out: Vec<String> = Vec::new();
    let ghost target = views(parts@).map_values(|p: Seq<char>| trimmed(p));
    let mut i: usize = 0;
    proof {
        assert(views(out@) =~= target.take(0));
    }
    while i < parts.len()
        invariant
            i <= parts@.len(),
            target == views(parts@).map_values(|p: Seq<char>| trimmed(p)),
            views(out@) == target.take(i as int),
        decreases parts@.len() - i,
    {
        proof {
            assert(views(parts@)[i as int] == parts@[i as int]@);
            assert(target.take(i + 1) =~= target.take(i as int).push(target[i as int]));
        }
        push_text(&mut out, trim(parts[i].as_str()));
        i += 1;
    }
    proof {
        assert(target.take(parts@.len() as int) =~= target);
    }
    out
}

fn made_up_names(count: usize) -> (r: Vec<String>)
    ensures
        views(r@) == Seq::new(count as nat, |i: int| "__rect"@ + dec(i as nat)),
{
    let mut out: Vec<String> = Vec::new();
    let ghost target = Seq::new(count as nat, |i: int| "__rect"@ + dec(i as nat));
    let mut i: usize = 0;
    proof {
        assert(views(out@) =~= target.take(0));
    }
    while i < count
        invariant
            i <= count,
            target == Seq::new(count as nat, |i: int| "__rect"@ + dec(i as nat)),
            views(out@) == target.take(i as int),
        decreases count - i,
    {
        proof {
            assert(target.take(i + 1) =~= target.take(i as int).push(target[i as int]));
        }
        let number = dec_usize(i);
        push_text(&mut out, cat2("__rect", number.as_str()));
        i += 1;
    }
    proof {
        assert(target.take(count as int) =~= target);
    }
    out
}

fn bound_constraint(bound: &str, name: &str) -> (r: String)
    ensures
        r@ == rectangle_constraint(bound@, name@),
{
    match split_once(bound, ':') {
        Some((lo, hi)) => {
            let low = trim(lo.as_str());
            let high = trim(hi.as_str());
            cat5(low.as_str(), "<=", name, "<", high.as_str())
        },
        None => {
            let high = trim(bound);
            cat4("0<=", name, "<", high.as_str())
        },
    }
}

fn rectangle(text: &str, explicit: &Vec<String>) -> (r: String)
    ensures
        r@ == rectangle_text(text@, views(explicit@)),
{
    let opened = without_leading(text, Class::Only('['));
    let inner = first_piece(opened.as_str(), ']');
    let parts = split(inner.as_str(), ',');
    let bounds = trim_all(&parts);
    let names = if explicit.len() > 0 {
        copy_all(explicit)
    } else {
        made_up_names(bounds.len())
    };
    let ghost all = rectangle_names(views(explicit@), bounds@.len());
    proof {
        assert(views(explicit@).len() == explicit@.len());
        assert(views(bounds@).len() == bounds@.len());
        assert(views(names@).len() == names@.len());
        assert(views(names@) == all);
    }
    let ghost target = Seq::new(
        shorter(bounds@.len(), all.len()),
        |i: int| rectangle_constraint(views(bounds@)[i], all[i]),
    );
    let mut constraints: Vec<String> = Vec::new();
    let mut i: usize = 0;
    proof {
        assert(views(constraints@) =~= target.take(0));
    }
    while i < bounds.len() && i < names.len()
        invariant
            i <= bounds@.len(),
            i <= names@.len(),
            views(names@) == all,
            all.len() == names@.len(),
            target == Seq::new(
                shorter(bounds@.len(), all.len()),
                |i: int| rectangle_constraint(views(bounds@)[i], all[i]),
            ),
            views(constraints@) == target.take(i as int),
        decreases bounds@.len() - i,
    {
        proof {
            assert(views(bounds@)[i as int] == bounds@[i as int]@);
            assert(views(names@)[i as int] == names@[i as int]@);
            assert(target.take(i + 1) =~= target.take(i as int).push(target[i as int]));
        }
        push_text(&mut constraints, bound_constraint(bounds[i].as_str(), names[i].as_str()));
        i += 1;
    }
    proof {
        assert(target.take(i as int) =~= target);
    }
    let tuple = join(&names, ",");
    let condition = join(&constraints, " and ");
    cat5("{ [", tuple.as_str(), "] : ", condition.as_str(), " }")
}

fn domain_of(v: Value, span: Span) -> (r: SetTerm)
    ensures
        r@ == as_domain(v@, span),
{
    match v {
        Value::Points(s) => s,
        Value::Failed { before, error } => SetTerm::Failed { before, error },
        other => {
            let error = Diagnostic::InvalidCalculatorOperand {
                operator: "domain position".to_owned(),
                operand_kind: other.kind_name().to_owned(),
                start: span.start,
                end: span.end,
            };
            SetTerm::Failed { before: one_value(other), error }
        },
    }
}

fn undefined_reference(name: &str, span: Span) -> (r: Diagnostic)
    ensures
        r@ == undefined(name@, span),
{
    Diagnostic::UndefinedReference { name: name.to_owned(), start: span.start, end: span.end }
}

fn no_operand(span: Span) -> (r: Value)
    ensures
        r@ == missing_operand(span),
{
    value_failure(undefined_reference("<missing operand>", span))
}

fn unsupported_calc(what: &str, span: Span) -> (r: Value)
    ensures
        r@ == unsupported_value(what@, span),
{
    value_failure(
        Diagnostic::UnsupportedCalculatorOp {
            operator: what.to_owned(),
            start: span.start,
            end: span.end,
        },
    )
}

fn find_next(decls: &Vec<Decl>, i: usize) -> (r: Option<usize>)
    requires
        i < decls@.len(),
    ensures
        match r {
            Some(j) => next_with_domain(decls@, i as int) == Some(j as int) && i < j
                < decls@.len() && !decls@[j as int].fuzzy && decls@[j as int].domain is Some,
            None => next_with_domain(decls@, i as int) is None,
        },
{
    let mut k: usize = i;
    while k < decls.len() - 1
        invariant
            i <= k < decls@.len(),
            next_with_domain(decls@, i as int) == next_with_domain(decls@, k as int),
        decreases decls@.len() - k,
    {
        let d = &decls[k + 1];
        if d.fuzzy {
            return None;
        }
        if d.domain.is_some() {
            return Some(k + 1);
        }
        k += 1;
    }
    None
}

impl<'a> Resolver<'a> {
    fn resolve_variable(&self, name: &str, path: &mut Vec<Pending>) -> (r: SetTerm)
        requires
            self.wf(),
            path_ok(*self.system, pending_views(old(path)@)),
        ensures
            final(path)@ == old(path)@,
            r@ == variable_set(*self.system, name@, pending_views(old(path)@)),
        decreases 2 * room(*self.system, pending_views(old(path)@)), *self.system,
    {
        let ghost before = path@;
        let ghost visited = pending_views(path@);
        let i = match self.find_entry(name) {
            Some(i) => i,
            None => return set_failure(
                undefined_reference(name, Span { start: 0, end: 0 }),
            ),
        };
        let e = &self.entries[i];
        proof {
            assert(entry_models(self.entries@)[i as int] == self.entries@[i as int]@);
            lemma_entry_index(*self.system, i as int);
            lemma_entry_place(entries_of(*self.system), name@);
        }
        let decls = declared(self.system, e.section);
        proof {
            reveal_strlit("");
            assert(""@ =~= Seq::<char>::empty());
        }
        let d = &decls[e.index];
        if is_pending_variable(path, name) {
            return set_failure(
                Diagnostic::CyclicDefinition {
                    name: name.to_owned(),
                    start: d.span.start,
                    end: d.span.end,
                },
            );
        }
        let ghost v = Visit::Variable(name@);
        proof {
            assert(visits(*self.system)[i as int] == v);
            lemma_room(*self.system, visited, v);
        }
        path.push(Pending::Variable(name.to_owned()));
        proof {
            assert(pending_views(path@) =~= visited.push(v));
        }
        let r = match &d.domain {
            Some(c) => {
                let value = self.resolve_calc(c, path);
                domain_of(value, c.span)
            },
            None => match find_next(decls, e.index) {
                Some(j) => match &decls[j].name {
                    Some(n) => self.resolve_variable(n.text.as_str(), path),
                    None => self.resolve_variable("", path),
                },
                None => match &d.name {
                    Some(n) => set_failure(undefined_reference(n.text.as_str(), d.span)),
                    None => set_failure(undefined_reference("", d.span)),
                },
            },
        };
        path.pop();
        proof {
            assert(path@ =~= before);
        }
        r
    }

    fn resolve_object(&self, name: &str, at: Span, path: &mut Vec<Pending>) -> (r: Value)
        requires
            self.wf(),
            path_ok(*self.system, pending_views(old(path)@)),
        ensures
            final(path)@ == old(path)@,
            r@ == object_value(*self.system, name@, at, pending_views(old(path)@)),
        decreases 2 * room(*self.system, pending_views(old(path)@)), *self.system,
    {
        let ghost before = path@;
        let ghost visited = pending_views(path@);
        let i = match self.find_object(name) {
            Some(i) => i,
            None => return value_failure(undefined_reference(name, at)),
        };
        if is_pending_object(path, name) {
            return value_failure(
                Diagnostic::CyclicDefinition {
                    name: name.to_owned(),
                    start: at.start,
                    end: at.end,
                },
            );
        }
        let ghost v = Visit::Object(name@);
        proof {
            lemma_object_place(self.system.objects@, name@);
            assert(visits(*self.system)[entries_of(*self.system).len() + i] == v);
            lemma_room(*self.system, visited, v);
        }
        let o = &self.system.objects[i];
        match &o.expr {
            None => value_failure(undefined_reference(name, at)),
            Some(c) => {
                path.push(Pending::Object(name.to_owned()));
                proof {
                    assert(pending_views(path@) =~= visited.push(v));
                }
                let r = self.resolve_calc(c, path);
                path.pop();
                proof {
                    assert(path@ =~= before);
                }
                r
            },
        }
    }

    fn resolve_operand(&self, o: &Option<Box<Calc>>, at: Span, path: &mut Vec<Pending>) -> (r:
        Value)
        requires
            self.wf(),
            path_ok(*self.system, pending_views(old(path)@)),
        ensures
            final(path)@ == old(path)@,
            r@ == match *o {
                None => missing_operand(at),
                Some(c) => calc_value(*self.system, *c, pending_views(old(path)@)),
            },
        decreases 2 * room(*self.system, pending_views(old(path)@)) + 1, o,
    {
        match o {
            None => no_operand(at),
            Some(c) => self.resolve_calc(c, path),
        }
    }

    fn resolve_calc(&self, c: &Calc, path: &mut Vec<Pending>) -> (r: Value)
        requires
            self.wf(),
            path_ok(*self.system, pending_views(old(path)@)),
        ensures
            final(path)@ == old(path)@,
            r@ == calc_value(*self.system, *c, pending_views(old(path)@)),
        decreases 2 * room(*self.system, pending_views(old(path)@)) + 1, c,
    {
        match &c.kind {
            CalcKind::Domain => {
                let text = self.text_of(c);
                let normal = normalize_domain_text(text.as_str());
                Value::Points(
                    SetTerm::Read { text: self.with_param_prefix(normal.as_str()), at: c.span },
                )
            },
            CalcKind::ArrayDomain => Value::Points(self.array_domain_in_param_context(c)),
            CalcKind::ParamDomain => Value::Points(
                SetTerm::Read { text: self.text_of(c), at: c.span },
            ),
            CalcKind::Relation => {
                let text = self.text_of(c);
                Value::Relation(
                    MapTerm::Read { text: self.with_param_prefix(text.as_str()), at: c.span },
                )
            },
            CalcKind::Polynomial | CalcKind::ArrayPolynomial => {
                let text = self.text_of(c);
                Value::Polynomial(
                    PolynomialTerm {
                        text: self.with_param_prefix(text.as_str()),
                        at: c.span,
                    },
                )
            },
            CalcKind::VariableDomain { name } => Value::Points(
                self.resolve_variable(name.as_str(), path),
            ),
            CalcKind::DefinedObject { name } => self.resolve_object(name.as_str(), c.span, path),
            CalcKind::RectangularDomain { names } => {
                let text = self.text_of(c);
                let set_text = rectangle(text.as_str(), names);
                Value::Points(
                    SetTerm::Read { text: self.with_param_prefix(set_text.as_str()), at: c.span },
                )
            },
            CalcKind::Unary { kind, operator, operand } => match operand {
                None => no_operand(c.span),
                Some(o) => {
                    let v = self.resolve_calc(o, path);
                    eval_unary(*kind, operator.as_str(), c.span, v)
                },
            },
            CalcKind::Binary { kind, operator, lhs, rhs } => {
                let l = self.resolve_operand(lhs, c.span, path);
                let r = self.resolve_operand(rhs, c.span, path);
                eval_binary(*kind, operator.as_str(), c.span, l, r)
            },
            CalcKind::Paren { inner } => self.resolve_operand(inner, c.span, path),
            CalcKind::Function { .. } => unsupported_calc(
                "function literal outside an equation body",
                c.span,
            ),
            CalcKind::ArrayFunction { .. } => unsupported_calc(
                "function literal outside an equation body",
                c.span,
            ),
            CalcKind::FuzzyFunction | CalcKind::ArrayFuzzyFunction => unsupported_calc(
                "fuzzy function",
                c.span,
            ),
        }
    }

    /// The domain of a variable.
    pub fn variable_domain(&self, name: &str) -> (r: SetTerm)
        requires
            self.wf(),
        ensures
            r@ == variable_set(*self.system, name@, Seq::empty()),
    {
        let mut path: Vec<Pending> = Vec::new();
        proof {
            assert(pending_views(path@) =~= Seq::<Visit>::empty());
        }
        self.resolve_variable(name, &mut path)
    }

    /// What a calculator expression stands for where no index names are in scope.
    pub fn eval_calc_expr(&self, expr: &Calc) -> (r: Value)
        requires
            self.wf(),
        ensures
            r@ == calc_value(*self.system, *expr, Seq::empty()),
    {
        let mut path: Vec<Pending> = Vec::new();
        proof {
            assert(pending_views(path@) =~= Seq::<Visit>::empty());
        }
        self.resolve_calc(expr, &mut path)
    }
}

} // verus!
