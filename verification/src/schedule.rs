//! Target mappings: from what a schedule text says of some statements to one schedule of all.
//!
//! A statement that the text does not mention runs in the order of its own domain. All schedules
//! go into one space: a narrower one is padded with zeros.
use crate::error::{CodegenError, Failure, IslError, Result};
use crate::expr::{prefix_text, space_prefix};
use crate::relation::{
    inside, members, padded, pairs, starting_in, starts, within, zero_tuple, Leaves, Region,
    RegionModel, Relation, RelationModel, Tuple,
};
use crate::scan::{trim, trimmed};
use crate::text::{
    cat2, cat3, cat4, cat5, chars_of, dec, dec_u32, insert_name, join, joined, lemma_with_name,
    push_text, str_eq, views, with_name,
};
use vstd::prelude::*;

verus! {

/// The answer to a yes-or-no question about polyhedral sets.
pub type Answer = core::result::Result<bool, IslError>;

/// What a schedule text says of one statement.
#[derive(Debug)]
pub struct Fragment {
    /// The statement, where the mapping names one.
    pub name: Option<String>,
    /// The number of dimensions that it maps into.
    pub width: u32,
    /// Whether it covers the whole domain of the statement.
    pub covers: Answer,
    /// Whether no two instances meet.
    pub injective: Answer,
}

/// What reading a schedule text gave.
#[derive(Debug)]
pub enum Reading {
    /// The text does not parse.
    Unparsed(String),
    /// The mappings could not be visited.
    Interrupted(IslError),
    Read(Vec<Fragment>),
}

/// A statement that can be scheduled: its name, the dimensionality of its domain, and its instances.
#[derive(Debug)]
pub struct Schedulable {
    pub name: String,
    pub ndims: u32,
    pub domain: Region,
}

/// A [`Schedulable`] as a mathematical value.
pub struct ShapeModel {
    pub name: Seq<char>,
    pub ndims: u32,
    pub domain: RegionModel,
}

impl View for Schedulable {
    type V = ShapeModel;

    open spec fn view(&self) -> ShapeModel {
        ShapeModel { name: self.name@, ndims: self.ndims, domain: self.domain@ }
    }
}

pub open spec fn shapes(v: Seq<Schedulable>) -> Seq<ShapeModel> {
    Seq::new(v.len(), |i: int| v[i]@)
}

pub open spec fn statement_names(v: Seq<ShapeModel>) -> Seq<Seq<char>> {
    Seq::new(v.len(), |i: int| v[i].name)
}

pub open spec fn is_for(f: Fragment, name: Seq<char>) -> bool {
    match f.name {
        Some(n) => n@ == name,
        None => false,
    }
}

/// The place of the last fragment for a statement among the first `n`.
pub open spec fn place_of(fragments: Seq<Fragment>, name: Seq<char>, n: nat) -> Option<int>
    decreases n,
{
    if n == 0 || n > fragments.len() {
        None
    } else if is_for(fragments[n - 1], name) {
        Some(n - 1)
    } else {
        place_of(fragments, name, (n - 1) as nat)
    }
}

fn find_fragment(fragments: &Vec<Fragment>, name: &str, n: usize) -> (r: Option<usize>)
    requires
        n <= fragments@.len(),
    ensures
        match r {
            Some(i) => place_of(fragments@, name@, n as nat) == Some(i as int) && i < n && is_for(
                fragments@[i as int],
                name@,
            ),
            None => place_of(fragments@, name@, n as nat) is None,
        },
{
    let mut i: usize = n;
    while i > 0
        invariant
            i <= n <= fragments@.len(),
            place_of(fragments@, name@, n as nat) == place_of(fragments@, name@, i as nat),
        decreases i,
    {
        i -= 1;
        match &fragments[i].name {
            Some(f) => if str_eq(f.as_str(), name) {
                return Some(i);
            },
            None => {},
        }
    }
    None
}

pub open spec fn repeats(fragments: Seq<Fragment>, k: int) -> bool {
    match fragments[k].name {
        Some(n) => place_of(fragments, n@, k as nat) is Some,
        None => false,
    }
}

pub open spec fn name_text(f: Fragment) -> Seq<char> {
    match f.name {
        Some(n) => n@,
        None => Seq::empty(),
    }
}

/// The first fragment from place `k` on for a statement that an earlier one is for.
pub open spec fn first_repeat(fragments: Seq<Fragment>, k: int) -> Option<int>
    decreases fragments.len() - k,
{
    if k < 0 || k >= fragments.len() {
        None
    } else if repeats(fragments, k) {
        Some(k)
    } else {
        first_repeat(fragments, k + 1)
    }
}

pub open spec fn repeat_failure(name: Seq<char>) -> Failure {
    Failure::InvalidSchedule(
        "target mapping has two inconsistent entries for statement '"@ + name
            + "' (same tuple name, different arity) — isl merges same-shaped entries automatically, so seeing two here means their domain tuples don't actually match"@,
    )
}

pub type FragmentsOutcome = core::result::Result<Seq<Fragment>, Failure>;

/// The fragments of a schedule text. A blank text has none; no statement may have two.
pub open spec fn fragments_of(text: Seq<char>, reading: Reading) -> FragmentsOutcome {
    if trimmed(text).len() == 0 {
        Ok(Seq::empty())
    } else {
        match reading {
            Reading::Unparsed(m) => Err(
                Failure::InvalidSchedule("target mapping failed to parse: "@ + m@),
            ),
            Reading::Interrupted(e) => Err(Failure::Isl(e.message@)),
            Reading::Read(fragments) => match first_repeat(fragments@, 0) {
                Some(k) => Err(repeat_failure(name_text(fragments@[k]))),
                None => Ok(fragments@),
            },
        }
    }
}

fn blank(text: &str) -> (r: bool)
    ensures
        r == (trimmed(text@).len() == 0),
{
    let t = trim(text);
    let v = chars_of(t.as_str());
    v.len() == 0
}

fn check_repeats(fragments: &Vec<Fragment>) -> (r: Result<()>)
    ensures
        match r {
            Ok(()) => first_repeat(fragments@, 0) is None,
            Err(e) => first_repeat(fragments@, 0) matches Some(k) && e@ == repeat_failure(
                name_text(fragments@[k]),
            ),
        },
{
    let mut k: usize = 0;
    while k < fragments.len()
        invariant
            k <= fragments@.len(),
            first_repeat(fragments@, 0) == first_repeat(fragments@, k as int),
        decreases fragments@.len() - k,
    {
        match &fragments[k].name {
            Some(n) => if find_fragment(fragments, n.as_str(), k).is_some() {
                return Err(
                    CodegenError::InvalidSchedule(
                        cat3(
                            "target mapping has two inconsistent entries for statement '",
                            n.as_str(),
                            "' (same tuple name, different arity) — isl merges same-shaped entries automatically, so seeing two here means their domain tuples don't actually match",
                        ),
                    ),
                );
            },
            None => {},
        }
        k += 1;
    }
    Ok(())
}

/// The fragments of a schedule text.
pub fn discover_written_fragments<'a>(text: &str, reading: &'a Reading) -> (r: Result<
    Option<&'a Vec<Fragment>>,
>)
    ensures
        match r {
            Ok(None) => fragments_of(text@, *reading) == Ok::<Seq<Fragment>, Failure>(
                Seq::empty(),
            ),
            Ok(Some(v)) => fragments_of(text@, *reading) == Ok::<Seq<Fragment>, Failure>(v@),
            Err(e) => fragments_of(text@, *reading) == Err::<Seq<Fragment>, Failure>(e@),
        },
{
    if blank(text) {
        return Ok(None);
    }
    match reading {
        Reading::Unparsed(m) => Err(
            CodegenError::InvalidSchedule(
                cat2("target mapping failed to parse: ", m.as_str()),
            ),
        ),
        Reading::Interrupted(e) => Err(CodegenError::Isl(e.clone())),
        Reading::Read(fragments) => match check_repeats(fragments) {
            Err(e) => Err(e),
            Ok(()) => Ok(Some(fragments)),
        },
    }
}

/// The names, in order and each once.
pub open spec fn sorted(names: Seq<Seq<char>>) -> Seq<Seq<char>>
    decreases names.len(),
{
    if names.len() == 0 {
        Seq::empty()
    } else {
        with_name(sorted(names.drop_last()), names.last())
    }
}

fn sorted_statements(v: &Vec<Schedulable>) -> (r: Vec<String>)
    ensures
        views(r@) == sorted(statement_names(shapes(v@))),
{
    let mut out: Vec<String> = Vec::new();
    let ghost all = statement_names(shapes(v@));
    let mut i: usize = 0;
    proof {
        assert(views(out@) =~= sorted(all.take(0)));
    }
    while i < v.len()
        invariant
            i <= v@.len(),
            all == statement_names(shapes(v@)),
            views(out@) == sorted(all.take(i as int)),
        decreases v@.len() - i,
    {
        proof {
            let t = all.take(i + 1);
            assert(t.drop_last() =~= all.take(i as int));
            assert(t.last() == v@[i as int].name@);
        }
        insert_name(&mut out, v[i].name.as_str());
        i += 1;
    }
    proof {
        assert(all.take(v@.len() as int) =~= all);
    }
    out
}

fn is_statement(v: &Vec<Schedulable>, name: &str) -> (r: bool)
    ensures
        r == statement_names(shapes(v@)).contains(name@),
{
    let mut i: usize = 0;
    while i < v.len()
        invariant
            i <= v@.len(),
            forall|j: int| 0 <= j < i ==> #[trigger] statement_names(shapes(v@))[j] != name@,
        decreases v@.len() - i,
    {
        if str_eq(v[i].name.as_str(), name) {
            proof {
                assert(statement_names(shapes(v@))[i as int] == name@);
            }
            return true;
        }
        i += 1;
    }
    false
}

pub open spec fn unknown_failure(name: Seq<char>, statements: Seq<ShapeModel>) -> Failure {
    Failure::InvalidSchedule(
        "target mapping mentions unknown statement '"@ + name + "' — known statements: "@
            + joined(sorted(statement_names(statements)), ", "@),
    )
}

/// What is wrong with a fragment by itself: it does not cover the statement, or two instances
/// meet.
pub open spec fn fragment_failure(f: Fragment) -> Option<Failure> {
    let name = name_text(f);
    match f.covers {
        Err(e) => Some(Failure::Isl(e.message@)),
        Ok(covers) => if !covers {
            Some(
                Failure::InvalidSchedule(
                    "target mapping for statement '"@ + name
                        + "' doesn't cover its whole domain — a partially-specified schedule for a mentioned statement is an error, not a silent partial-identity fallback (§6)"@,
                ),
            )
        } else {
            match f.injective {
                Err(e) => Some(Failure::Isl(e.message@)),
                Ok(injective) => if !injective {
                    Some(
                        Failure::InvalidSchedule(
                            "target mapping for statement '"@ + name
                                + "' is not injective — two instances would land on the same schedule-space point, making their relative order undefined (§6)"@,
                        ),
                    )
                } else {
                    None
                },
            }
        },
    }
}

/// The first fragment from place `k` on for something that is not a statement.
pub open spec fn first_unknown(
    fragments: Seq<Fragment>,
    statements: Seq<ShapeModel>,
    k: int,
) -> Option<int>
    decreases fragments.len() - k,
{
    if k < 0 || k >= fragments.len() {
        None
    } else if fragments[k].name is Some && !statement_names(statements).contains(
        name_text(fragments[k]),
    ) {
        Some(k)
    } else {
        first_unknown(fragments, statements, k + 1)
    }
}

/// The first failure of a named fragment from place `k` on.
pub open spec fn first_bad(fragments: Seq<Fragment>, k: int) -> Option<Failure>
    decreases fragments.len() - k,
{
    if k < 0 || k >= fragments.len() {
        None
    } else if fragments[k].name is Some && fragment_failure(fragments[k]) is Some {
        fragment_failure(fragments[k])
    } else {
        first_bad(fragments, k + 1)
    }
}

fn check_known(fragments: &Vec<Fragment>, statements: &Vec<Schedulable>) -> (r: Result<()>)
    ensures
        match r {
            Ok(()) => first_unknown(fragments@, shapes(statements@), 0) is None,
            Err(e) => first_unknown(fragments@, shapes(statements@), 0) matches Some(k) && e@
                == unknown_failure(name_text(fragments@[k]), shapes(statements@)),
        },
{
    let mut k: usize = 0;
    while k < fragments.len()
        invariant
            k <= fragments@.len(),
            first_unknown(fragments@, shapes(statements@), 0) == first_unknown(
                fragments@,
                shapes(statements@),
                k as int,
            ),
        decreases fragments@.len() - k,
    {
        match &fragments[k].name {
            Some(n) => if !is_statement(statements, n.as_str()) {
                let known = sorted_statements(statements);
                let list = join(&known, ", ");
                return Err(
                    CodegenError::InvalidSchedule(
                        cat4(
                            "target mapping mentions unknown statement '",
                            n.as_str(),
                            "' — known statements: ",
                            list.as_str(),
                        ),
                    ),
                );
            },
            None => {},
        }
        k += 1;
    }
    Ok(())
}

pub fn validate_written_fragment(name: &str, f: &Fragment) -> (r: Result<()>)
    requires
        is_for(*f, name@),
    ensures
        match r {
            Ok(()) => fragment_failure(*f) is None,
            Err(e) => fragment_failure(*f) == Some(e@),
        },
{
    match &f.covers {
        Err(e) => return Err(CodegenError::Isl(e.clone())),
        Ok(covers) => if !*covers {
            return Err(
                CodegenError::InvalidSchedule(
                    cat3(
                        "target mapping for statement '",
                        name,
                        "' doesn't cover its whole domain — a partially-specified schedule for a mentioned statement is an error, not a silent partial-identity fallback (§6)",
                    ),
                ),
            );
        },
    }
    match &f.injective {
        Err(e) => return Err(CodegenError::Isl(e.clone())),
        Ok(injective) => if !*injective {
            return Err(
                CodegenError::InvalidSchedule(
                    cat3(
                        "target mapping for statement '",
                        name,
                        "' is not injective — two instances would land on the same schedule-space point, making their relative order undefined (§6)",
                    ),
                ),
            );
        },
    }
    Ok(())
}

fn check_fragments(fragments: &Vec<Fragment>) -> (r: Result<()>)
    ensures
        match r {
            Ok(()) => first_bad(fragments@, 0) is None,
            Err(e) => first_bad(fragments@, 0) == Some(e@),
        },
{
    let mut k: usize = 0;
    while k < fragments.len()
        invariant
            k <= fragments@.len(),
            first_bad(fragments@, 0) == first_bad(fragments@, k as int),
        decreases fragments@.len() - k,
    {
        match &fragments[k].name {
            Some(n) => match validate_written_fragment(n.as_str(), &fragments[k]) {
                Ok(()) => {},
                Err(e) => return Err(e),
            },
            None => {},
        }
        k += 1;
    }
    Ok(())
}

/// The names that the fragments are for.
pub open spec fn fragment_names(fragments: Seq<Fragment>) -> Seq<Seq<char>>
    decreases fragments.len(),
{
    if fragments.len() == 0 {
        Seq::empty()
    } else {
        let before = fragment_names(fragments.drop_last());
        match fragments.last().name {
            Some(n) => with_name(before, n@),
            None => before,
        }
    }
}

fn names_of_fragments(fragments: &Vec<Fragment>) -> (r: Vec<String>)
    ensures
        views(r@) == fragment_names(fragments@),
{
    let mut out: Vec<String> = Vec::new();
    let mut i: usize = 0;
    proof {
        assert(views(out@) =~= fragment_names(fragments@.take(0)));
    }
    while i < fragments.len()
        invariant
            i <= fragments@.len(),
            views(out@) == fragment_names(fragments@.take(i as int)),
        decreases fragments@.len() - i,
    {
        proof {
            let t = fragments@.take(i + 1);
            assert(t.drop_last() =~= fragments@.take(i as int));
            assert(t.last() == fragments@[i as int]);
        }
        match &fragments[i].name {
            Some(n) => insert_name(&mut out, n.as_str()),
            None => {},
        }
        i += 1;
    }
    proof {
        assert(fragments@.take(fragments@.len() as int) =~= fragments@);
    }
    out
}

/// The width that the text gives a statement.
pub open spec fn written_width(fragments: Seq<Fragment>, name: Seq<char>) -> u32 {
    match place_of(fragments, name, fragments.len()) {
        Some(i) => fragments[i].width,
        None => 0,
    }
}

pub open spec fn width_failure(
    name: Seq<char>,
    width: u32,
    other: Seq<char>,
    other_width: u32,
) -> Failure {
    Failure::InvalidSchedule(
        "target mapping statements don't share one schedule-space width — '"@ + name
            + "' has width "@ + dec(width as nat) + ", but '"@ + other + "' has width "@ + dec(
            other_width as nat,
        )
            + "; every *mentioned* statement must map into exactly the same width (§6) — pad the narrower one by hand"@,
    )
}

/// The first name from place `k` on whose width differs from that of the first name.
pub open spec fn first_wider(fragments: Seq<Fragment>, names: Seq<Seq<char>>, k: int) -> Option<
    int,
>
    decreases names.len() - k,
{
    if k < 0 || k >= names.len() {
        None
    } else if written_width(fragments, names[k]) != written_width(fragments, names[0]) {
        Some(k)
    } else {
        first_wider(fragments, names, k + 1)
    }
}

fn width_of(fragments: &Vec<Fragment>, name: &str) -> (r: u32)
    ensures
        r == written_width(fragments@, name@),
{
    match find_fragment(fragments, name, fragments.len()) {
        Some(i) => fragments[i].width,
        None => 0,
    }
}

fn check_widths(fragments: &Vec<Fragment>, names: &Vec<String>) -> (r: Result<()>)
    ensures
        match r {
            Ok(()) => first_wider(fragments@, views(names@), 0) is None,
            Err(e) => first_wider(fragments@, views(names@), 0) matches Some(k) && e@
                == width_failure(
                views(names@)[k],
                written_width(fragments@, views(names@)[k]),
                views(names@)[0],
                written_width(fragments@, views(names@)[0]),
            ),
        },
{
    let mut k: usize = 0;
    while k < names.len()
        invariant
            k <= names@.len(),
            first_wider(fragments@, views(names@), 0) == first_wider(
                fragments@,
                views(names@),
                k as int,
            ),
        decreases names@.len() - k,
    {
        proof {
            assert(views(names@)[k as int] == names@[k as int]@);
            assert(views(names@)[0] == names@[0]@);
        }
        let width = width_of(fragments, names[k].as_str());
        let other = width_of(fragments, names[0].as_str());
        if width != other {
            let w = dec_u32(width);
            let o = dec_u32(other);
            let first = cat5(
                "target mapping statements don't share one schedule-space width — '",
                names[k].as_str(),
                "' has width ",
                w.as_str(),
                ", but '",
            );
            let message = cat5(
                first.as_str(),
                names[0].as_str(),
                "' has width ",
                o.as_str(),
                "; every *mentioned* statement must map into exactly the same width (§6) — pad the narrower one by hand",
            );
            return Err(CodegenError::InvalidSchedule(message));
        }
        k += 1;
    }
    Ok(())
}

pub open spec fn wider(a: u32, b: u32) -> u32 {
    if a >= b { a } else { b }
}

/// The largest dimensionality of the first `n` statements.
pub open spec fn widest(statements: Seq<ShapeModel>, n: nat) -> u32
    decreases n,
{
    if n == 0 || n > statements.len() {
        0
    } else {
        wider(widest(statements, (n - 1) as nat), statements[n - 1].ndims)
    }
}

/// The number of dimensions that every statement is scheduled into.
pub open spec fn shared_width(fragments: Seq<Fragment>, statements: Seq<ShapeModel>) -> u32 {
    let names = fragment_names(fragments);
    let own = widest(statements, statements.len());
    if names.len() == 0 {
        own
    } else {
        wider(own, written_width(fragments, names[0]))
    }
}

/// What a statement's instances are called in a padding map.
pub open spec fn instance_names(n: u32) -> Seq<Seq<char>> {
    Seq::new(n as nat, |i: int| "x"@ + dec(i as nat))
}

pub open spec fn zeros(n: nat) -> Seq<Seq<char>> {
    Seq::new(n, |i: int| "0"@)
}

/// A map that takes each instance of a statement to zeros.
pub open spec fn padding_text(
    params: Seq<Seq<char>>,
    name: Seq<char>,
    ndims: u32,
    count: nat,
) -> Seq<char> {
    prefix_text(params) + "{ "@ + name + "["@ + joined(instance_names(ndims), ","@) + "] -> ["@
        + joined(zeros(count), ","@) + "] }"@
}

/// How one statement is scheduled.
pub struct StatementSchedule {
    pub name: String,
    /// What the text says, as a place among the fragments; without it, the order of the domain.
    pub fragment: Option<usize>,
    /// How many dimensions that is.
    pub width: u32,
    /// What widens it to the shared width, where that is needed.
    pub padding: Option<String>,
    /// All of it: what the text says or the order of the domain, kept to the domain, and widened.
    pub relation: Relation,
}

/// A [`StatementSchedule`] as a mathematical value.
pub struct ScheduleModel {
    pub name: Seq<char>,
    pub fragment: Option<int>,
    pub width: u32,
    pub padding: Option<Seq<char>>,
    pub relation: RelationModel,
}

/// The schedule of a statement with the given instances: what the text says at a place, or the order
/// of the domain, kept to the instances.
pub open spec fn own_schedule(fragment: Option<int>, domain: RegionModel) -> RelationModel {
    RelationModel::Within(
        Box::new(
            match fragment {
                Some(i) => RelationModel::Written(i as usize),
                None => RelationModel::Identity,
            },
        ),
        Box::new(domain),
    )
}

/// The relation with `count` zeros more.
pub open spec fn widened(own: RelationModel, count: nat) -> RelationModel {
    if count == 0 {
        own
    } else {
        RelationModel::Padded(Box::new(own), count as u32)
    }
}

pub open spec fn optional_place(i: Option<usize>) -> Option<int> {
    match i {
        Some(n) => Some(n as int),
        None => None,
    }
}

pub open spec fn optional_view(s: Option<String>) -> Option<Seq<char>> {
    match s {
        Some(t) => Some(t@),
        None => None,
    }
}

impl View for StatementSchedule {
    type V = ScheduleModel;

    open spec fn view(&self) -> ScheduleModel {
        ScheduleModel {
            name: self.name@,
            fragment: optional_place(self.fragment),
            width: self.width,
            padding: optional_view(self.padding),
            relation: self.relation@,
        }
    }
}

/// How a statement is scheduled into `target` dimensions.
pub open spec fn statement_schedule(
    fragments: Seq<Fragment>,
    params: Seq<Seq<char>>,
    s: ShapeModel,
    target: u32,
) -> ScheduleModel {
    let fragment = place_of(fragments, s.name, fragments.len());
    let width = match fragment {
        Some(i) => fragments[i].width,
        None => s.ndims,
    };
    ScheduleModel {
        name: s.name,
        fragment,
        width,
        padding: if width == target {
            None
        } else {
            Some(padding_text(params, s.name, s.ndims, (target - width) as nat))
        },
        relation: widened(own_schedule(fragment, s.domain), (target - width) as nat),
    }
}

pub open spec fn schedule_models(v: Seq<StatementSchedule>) -> Seq<ScheduleModel> {
    Seq::new(v.len(), |i: int| v[i]@)
}

pub type ScheduleOutcome = core::result::Result<(u32, Seq<ScheduleModel>), Failure>;

/// The schedule of every statement, or what is wrong with the mentioned ones: the first unknown
/// one, the first that is not covered or injective, the first two of different widths.
pub open spec fn schedule_of(
    fragments: Seq<Fragment>,
    params: Seq<Seq<char>>,
    statements: Seq<ShapeModel>,
) -> ScheduleOutcome {
    match first_unknown(fragments, statements, 0) {
        Some(k) => Err(unknown_failure(name_text(fragments[k]), statements)),
        None => match first_bad(fragments, 0) {
            Some(f) => Err(f),
            None => {
                let names = fragment_names(fragments);
                match first_wider(fragments, names, 0) {
                    Some(k) => Err(
                        width_failure(
                            names[k],
                            written_width(fragments, names[k]),
                            names[0],
                            written_width(fragments, names[0]),
                        ),
                    ),
                    None => {
                        let target = shared_width(fragments, statements);
                        Ok(
                            (
                                target,
                                Seq::new(
                                    statements.len(),
                                    |i: int|
                                        statement_schedule(
                                            fragments,
                                            params,
                                            statements[i],
                                            target,
                                        ),
                                ),
                            ),
                        )
                    },
                }
            },
        },
    }
}

fn find_widest(statements: &Vec<Schedulable>) -> (r: u32)
    ensures
        r == widest(shapes(statements@), shapes(statements@).len()),
{
    let mut out: u32 = 0;
    let mut i: usize = 0;
    while i < statements.len()
        invariant
            i <= shapes(statements@).len(),
            out == widest(shapes(statements@), i as nat),
        decreases statements@.len() - i,
    {
        if statements[i].ndims > out {
            out = statements[i].ndims;
        }
        i += 1;
    }
    out
}

fn make_instance_names(n: u32) -> (r: Vec<String>)
    ensures
        views(r@) == instance_names(n),
{
    let mut out: Vec<String> = Vec::new();
    let mut i: u32 = 0;
    while i < n
        invariant
            i <= n,
            views(out@) =~= instance_names(n).take(i as int),
        decreases n - i,
    {
        let number = dec_u32(i);
        push_text(&mut out, cat2("x", number.as_str()));
        i += 1;
    }
    proof {
        assert(instance_names(n).take(n as int) =~= instance_names(n));
    }
    out
}

fn make_zeros(n: u32) -> (r: Vec<String>)
    ensures
        views(r@) == zeros(n as nat),
{
    let mut out: Vec<String> = Vec::new();
    let mut i: u32 = 0;
    while i < n
        invariant
            i <= n,
            views(out@) =~= zeros(n as nat).take(i as int),
        decreases n - i,
    {
        push_text(&mut out, "0".to_owned());
        i += 1;
    }
    proof {
        assert(zeros(n as nat).take(n as int) =~= zeros(n as nat));
    }
    out
}

/// What widens the schedule of a statement by `count` dimensions.
pub fn pad_range(params: &Vec<String>, name: &str, ndims: u32, count: u32) -> (r: String)
    ensures
        r@ == padding_text(views(params@), name@, ndims, count as nat),
{
    let prefix = space_prefix(params);
    let names = make_instance_names(ndims);
    let nothing = make_zeros(count);
    let domain = join(&names, ",");
    let range = join(&nothing, ",");
    let first = cat5(prefix.as_str(), "{ ", name, "[", domain.as_str());
    cat4(first.as_str(), "] -> [", range.as_str(), "] }")
}

proof fn lemma_widest(statements: Seq<ShapeModel>, n: nat, i: int)
    requires
        0 <= i < n <= statements.len(),
    ensures
        statements[i].ndims <= widest(statements, n),
    decreases n,
{
    if i < n - 1 {
        lemma_widest(statements, (n - 1) as nat, i);
    }
}

proof fn lemma_fragment_named(fragments: Seq<Fragment>, i: int)
    requires
        0 <= i < fragments.len(),
        fragments[i].name is Some,
    ensures
        fragment_names(fragments).contains(name_text(fragments[i])),
    decreases fragments.len(),
{
    let before = fragment_names(fragments.drop_last());
    if i == fragments.len() - 1 {
        lemma_with_name(before, name_text(fragments[i]));
    } else {
        assert(fragments.drop_last()[i] == fragments[i]);
        lemma_fragment_named(fragments.drop_last(), i);
        match fragments.last().name {
            Some(n) => lemma_with_name(before, n@),
            None => {},
        }
    }
}

proof fn lemma_same_width(fragments: Seq<Fragment>, names: Seq<Seq<char>>, k: int, i: int)
    requires
        0 <= k <= i < names.len(),
        first_wider(fragments, names, k) is None,
    ensures
        written_width(fragments, names[i]) == written_width(fragments, names[0]),
    decreases names.len() - k,
{
    if k < i {
        lemma_same_width(fragments, names, k + 1, i);
    }
}

/// A statement's own schedule is never wider than the shared one.
proof fn lemma_fits(fragments: Seq<Fragment>, statements: Seq<ShapeModel>, i: int)
    requires
        0 <= i < statements.len(),
        first_wider(fragments, fragment_names(fragments), 0) is None,
    ensures
        match place_of(fragments, statements[i].name, fragments.len()) {
            Some(k) => 0 <= k < fragments.len() && fragments[k].width <= shared_width(
                fragments,
                statements,
            ),
            None => statements[i].ndims <= shared_width(fragments, statements),
        },
{
    let name = statements[i].name;
    lemma_widest(statements, statements.len(), i);
    lemma_place(fragments, name, fragments.len());
    match place_of(fragments, name, fragments.len()) {
        Some(k) => {
            lemma_fragment_named(fragments, k);
            let names = fragment_names(fragments);
            let j = choose|j: int| 0 <= j < names.len() && names[j] == name;
            lemma_same_width(fragments, names, 0, j);
        },
        None => {},
    }
}

proof fn lemma_place(fragments: Seq<Fragment>, name: Seq<char>, n: nat)
    requires
        n <= fragments.len(),
    ensures
        place_of(fragments, name, n) matches Some(i) ==> 0 <= i < n && is_for(fragments[i], name),
    decreases n,
{
    if n > 0 && !is_for(fragments[n - 1], name) {
        lemma_place(fragments, name, (n - 1) as nat);
    }
}

fn schedule_statement(
    fragments: &Vec<Fragment>,
    params: &Vec<String>,
    s: &Schedulable,
    target: u32,
) -> (r: StatementSchedule)
    requires
        statement_schedule(fragments@, views(params@), s@, target).width <= target,
    ensures
        r@ == statement_schedule(fragments@, views(params@), s@, target),
{
    let fragment = find_fragment(fragments, s.name.as_str(), fragments.len());
    let width: u32 = match fragment {
        Some(i) => fragments[i].width,
        None => s.ndims,
    };
    let padding = if width == target {
        None
    } else {
        Some(pad_range(params, s.name.as_str(), s.ndims, target - width))
    };
    let own = match fragment {
        Some(i) => Relation::Written(i),
        None => Relation::Identity,
    };
    let kept = within(own, s.domain.clone());
    let relation = if width == target {
        kept
    } else {
        padded(kept, target - width)
    };
    StatementSchedule { name: s.name.clone(), fragment, width, padding, relation }
}

fn fuse(
    fragments: &Vec<Fragment>,
    params: &Vec<String>,
    statements: &Vec<Schedulable>,
) -> (r: Result<(u32, Vec<StatementSchedule>)>)
    ensures
        match r {
            Ok((w, v)) => schedule_of(fragments@, views(params@), shapes(statements@)) == Ok::<
                (u32, Seq<ScheduleModel>),
                Failure,
            >((w, schedule_models(v@))),
            Err(e) => schedule_of(fragments@, views(params@), shapes(statements@)) == Err::<
                (u32, Seq<ScheduleModel>),
                Failure,
            >(e@),
        },
{
    match check_known(fragments, statements) {
        Ok(()) => {},
        Err(e) => return Err(e),
    }
    match check_fragments(fragments) {
        Ok(()) => {},
        Err(e) => return Err(e),
    }
    let names = names_of_fragments(fragments);
    match check_widths(fragments, &names) {
        Ok(()) => {},
        Err(e) => return Err(e),
    }
    let own = find_widest(statements);
    let target: u32 = if names.len() == 0 {
        own
    } else {
        let explicit = width_of(fragments, names[0].as_str());
        if own >= explicit {
            own
        } else {
            explicit
        }
    };
    proof {
        assert(views(names@).len() == names@.len());
        if names@.len() > 0 {
            assert(views(names@)[0] == names@[0]@);
        }
        assert(target == shared_width(fragments@, shapes(statements@)));
    }
    let ghost all = Seq::new(
        shapes(statements@).len(),
        |i: int| statement_schedule(fragments@, views(params@), shapes(statements@)[i], target),
    );
    let mut out: Vec<StatementSchedule> = Vec::new();
    let mut i: usize = 0;
    while i < statements.len()
        invariant
            i <= shapes(statements@).len(),
            first_wider(fragments@, fragment_names(fragments@), 0) is None,
            target == shared_width(fragments@, shapes(statements@)),
            all == Seq::new(
                shapes(statements@).len(),
                |i: int| statement_schedule(fragments@, views(params@), shapes(statements@)[i], target),
            ),
            out@.len() == i,
            forall|j: int| 0 <= j < i ==> (#[trigger] out@[j])@ == all[j],
        decreases statements@.len() - i,
    {
        proof {
            lemma_fits(fragments@, shapes(statements@), i as int);
        }
        out.push(schedule_statement(fragments, params, &statements[i], target));
        i += 1;
    }
    proof {
        assert(schedule_models(out@) =~= all);
    }
    Ok((target, out))
}

/// The schedule of every statement that a schedule text describes.
pub open spec fn built_schedule(
    params: Seq<Seq<char>>,
    statements: Seq<ShapeModel>,
    text: Seq<char>,
    reading: Reading,
) -> ScheduleOutcome {
    match fragments_of(text, reading) {
        Err(f) => Err(f),
        Ok(fragments) => schedule_of(fragments, params, statements),
    }
}

/// One schedule of all statements from a schedule text and what reading it gave.
pub fn build_schedule_for_names(
    params: &Vec<String>,
    statements: &Vec<Schedulable>,
    text: &str,
    reading: &Reading,
) -> (r: Result<(u32, Vec<StatementSchedule>)>)
    ensures
        match r {
            Ok((w, v)) => built_schedule(views(params@), shapes(statements@), text@, *reading) == Ok::<
                (u32, Seq<ScheduleModel>),
                Failure,
            >((w, schedule_models(v@))),
            Err(e) => built_schedule(views(params@), shapes(statements@), text@, *reading) == Err::<
                (u32, Seq<ScheduleModel>),
                Failure,
            >(e@),
        },
{
    match discover_written_fragments(text, reading) {
        Err(e) => Err(e),
        Ok(Some(fragments)) => fuse(fragments, params, statements),
        Ok(None) => {
            let empty: Vec<Fragment> = Vec::new();
            proof {
                assert(empty@ =~= Seq::<Fragment>::empty());
            }
            fuse(&empty, params, statements)
        },
    }
}

/// Every statement is scheduled, under its own name, into the same number of dimensions: what its
/// own schedule lacks, zeros make up for.
pub proof fn all_statements_share_one_width(
    fragments: Seq<Fragment>,
    params: Seq<Seq<char>>,
    statements: Seq<ShapeModel>,
)
    ensures
        schedule_of(fragments, params, statements) matches Ok((w, all)) ==> {
            &&& all.len() == statements.len()
            &&& forall|i: int|
                0 <= i < all.len() ==> {
                    &&& (#[trigger] all[i]).name == statements[i].name
                    &&& all[i].width <= w
                    &&& all[i].padding == if all[i].width == w {
                        None
                    } else {
                        Some(
                            padding_text(
                                params,
                                all[i].name,
                                statements[i].ndims,
                                (w - all[i].width) as nat,
                            ),
                        )
                    }
                }
        },
{
    match schedule_of(fragments, params, statements) {
        Ok((w, all)) => {
            assert forall|i: int| 0 <= i < all.len() implies {
                &&& (#[trigger] all[i]).name == statements[i].name
                &&& all[i].width <= w
            } by {
                lemma_fits(fragments, statements, i);
            }
        },
        Err(_) => {},
    }
}

/// With nothing written, every statement follows the order of its own domain.
pub proof fn a_blank_mapping_is_the_identity(
    params: Seq<Seq<char>>,
    statements: Seq<ShapeModel>,
    text: Seq<char>,
    reading: Reading,
)
    requires
        trimmed(text).len() == 0,
    ensures
        built_schedule(params, statements, text, reading) matches Ok((w, all)) && w == widest(
            statements,
            statements.len(),
        ) && all.len() == statements.len() && forall|i: int|
            0 <= i < all.len() ==> (#[trigger] all[i]).fragment is None && all[i].width
                == statements[i].ndims,
{
}

/// No two points are related to one.
pub open spec fn one_to_one(of: Set<(Tuple, Tuple)>) -> bool {
    forall|x: Tuple, y: Tuple, t: Tuple| #[trigger]
        of.contains((x, t)) && #[trigger] of.contains((y, t)) ==> x == y
}

/// What is known of a fragment is right, for a statement with the given instances.
pub open spec fn fragment_true(f: Fragment, place: usize, domain: RegionModel, l: Leaves) -> bool {
    &&& f.covers matches Ok(b) ==> b == members(domain, l).subset_of(starts((l.written)(place)))
    &&& f.injective matches Ok(b) ==> b == one_to_one((l.written)(place))
    &&& forall|x: Tuple, t: Tuple| #[trigger]
        (l.written)(place).contains((x, t)) ==> t.len() == f.width
}

proof fn lemma_no_bad(fragments: Seq<Fragment>, k: int, i: int)
    requires
        0 <= k <= i < fragments.len(),
        first_bad(fragments, k) is None,
        fragments[i].name is Some,
    ensures
        fragment_failure(fragments[i]) is None,
    decreases i - k,
{
    if k < i {
        lemma_no_bad(fragments, k + 1, i);
    }
}

proof fn lemma_padding_cancels(a: Tuple, b: Tuple, n: nat)
    requires
        a + zero_tuple(n) == b + zero_tuple(n),
    ensures
        a == b,
{
    let x = a + zero_tuple(n);
    let y = b + zero_tuple(n);
    assert(x.len() == y.len());
    assert(a.len() == b.len());
    assert forall|i: int| 0 <= i < a.len() implies a[i] == b[i] by {
        assert(x[i] == y[i]);
    }
    assert(a =~= b);
}

/// Every statement is scheduled on exactly its domain, at times of the shared width, and no two of
/// its instances at one time. One that the text does not mention runs in the order of its domain.
pub proof fn every_statement_is_scheduled_on_its_domain(
    fragments: Seq<Fragment>,
    params: Seq<Seq<char>>,
    statements: Seq<ShapeModel>,
    i: int,
    l: Leaves,
)
    requires
        schedule_of(fragments, params, statements) is Ok,
        0 <= i < statements.len(),
        fragments.len() <= usize::MAX,
        place_of(fragments, statements[i].name, fragments.len()) matches Some(k) ==> fragment_true(
            fragments[k],
            k as usize,
            statements[i].domain,
            l,
        ),
        forall|x: Tuple| #[trigger]
            inside(statements[i].domain, l, x) ==> x.len() == statements[i].ndims,
    ensures
        schedule_of(fragments, params, statements) matches Ok((w, all)) && {
            let of = pairs(all[i].relation, l);
            &&& forall|x: Tuple|
                inside(statements[i].domain, l, x) <==> #[trigger] starts(of).contains(x)
            &&& forall|x: Tuple, t: Tuple| #[trigger] of.contains((x, t)) ==> t.len() == w
            &&& one_to_one(of)
            &&& all[i].fragment is None ==> forall|x: Tuple, t: Tuple| #[trigger]
                of.contains((x, t)) <==> inside(statements[i].domain, l, x) && t == x + zero_tuple(
                    (w - statements[i].ndims) as nat,
                )
        },
{
    let (w, all) = schedule_of(fragments, params, statements)->Ok_0;
    let s = statements[i];
    let fragment = place_of(fragments, s.name, fragments.len());
    lemma_place(fragments, s.name, fragments.len());
    lemma_fits(fragments, statements, i);
    let own = own_schedule(fragment, s.domain);
    let inner = pairs(own, l);
    let points = members(s.domain, l);
    let width = all[i].width;
    match fragment {
        Some(k) => {
            lemma_no_bad(fragments, 0, k);
            let written = (l.written)(k as usize);
            assert(pairs(RelationModel::Written(k as usize), l) == written);
            assert forall|x: Tuple, t: Tuple| #[trigger] inner.contains((x, t)) <==> points.contains(
                x,
            ) && written.contains((x, t)) by {}
            assert forall|x: Tuple| points.contains(x) implies #[trigger] starts(inner).contains(
                x,
            ) by {
                assert(starts(written).contains(x));
                let t = choose|t: Tuple| #[trigger] written.contains((x, t));
                assert(inner.contains((x, t)));
            }
            assert(one_to_one(inner));
        },
        None => {
            let same = pairs(RelationModel::Identity, l);
            assert(same == Set::new(|p: (Tuple, Tuple)| p.0 == p.1));
            assert(inner == starting_in(same, points));
            assert forall|x: Tuple, t: Tuple| #[trigger] inner.contains((x, t)) <==> points.contains(
                x,
            ) && x == t by {
                assert(same.contains((x, t)) <==> x == t);
            }
            assert forall|x: Tuple| points.contains(x) implies #[trigger] starts(inner).contains(
                x,
            ) by {
                assert(inner.contains((x, x)));
            }
            assert(one_to_one(inner));
        },
    }
    assert forall|x: Tuple, t: Tuple| #[trigger] inner.contains((x, t)) implies t.len()
        == width by {
        assert(inside(s.domain, l, x));
    }
    let n = (w - width) as nat;
    let of = pairs(all[i].relation, l);
    assert(all[i].relation == widened(own, n));
    if n == 0 {
        assert(of == inner);
        if fragment is None {
            assert forall|x: Tuple, t: Tuple| #[trigger] of.contains((x, t)) <==> inside(
                s.domain,
                l,
                x,
            ) && t == x + zero_tuple(n) by {
                assert(x + zero_tuple(0) =~= x);
            }
        }
        assert forall|x: Tuple| inside(s.domain, l, x) <==> #[trigger] starts(of).contains(x) by {
            if starts(of).contains(x) {
                let t = choose|t: Tuple| #[trigger] of.contains((x, t));
                assert(inner.contains((x, t)));
            }
        }
    } else {
        assert((n as u32) as nat == n);
        assert forall|x: Tuple, t: Tuple| #[trigger] of.contains((x, t)) <==> exists|y: Tuple|
            #[trigger] inner.contains((x, y)) && t == y + zero_tuple(n) by {
            let p = (x, t);
            if of.contains(p) {
                let y = choose|y: Tuple| #[trigger]
                    inner.contains((p.0, y)) && p.1 == y + zero_tuple(n);
                assert(inner.contains((x, y)));
            }
            if exists|y: Tuple| #[trigger] inner.contains((x, y)) && t == y + zero_tuple(n) {
                let y = choose|y: Tuple| #[trigger] inner.contains((x, y)) && t == y + zero_tuple(n);
                assert(inner.contains((p.0, y)) && p.1 == y + zero_tuple(n));
            }
        }
        assert forall|x: Tuple| inside(s.domain, l, x) <==> #[trigger] starts(of).contains(x) by {
            if starts(of).contains(x) {
                let t = choose|t: Tuple| #[trigger] of.contains((x, t));
                let y = choose|y: Tuple| #[trigger] inner.contains((x, y)) && t == y + zero_tuple(n);
                assert(inner.contains((x, y)));
            }
            if inside(s.domain, l, x) {
                assert(starts(inner).contains(x));
                let y = choose|y: Tuple| #[trigger] inner.contains((x, y));
                assert(of.contains((x, y + zero_tuple(n))));
            }
        }
        assert(one_to_one(of)) by {
            assert forall|x: Tuple, y: Tuple, t: Tuple| #[trigger]
                of.contains((x, t)) && #[trigger] of.contains((y, t)) implies x == y by {
                let a = choose|a: Tuple| #[trigger] inner.contains((x, a)) && t == a + zero_tuple(n);
                let b = choose|b: Tuple| #[trigger] inner.contains((y, b)) && t == b + zero_tuple(n);
                lemma_padding_cancels(a, b, n);
                assert(inner.contains((x, a)) && inner.contains((y, a)));
            }
        }
        assert forall|x: Tuple, t: Tuple| #[trigger] of.contains((x, t)) implies t.len() == w by {
            let a = choose|a: Tuple| #[trigger] inner.contains((x, a)) && t == a + zero_tuple(n);
            assert(inner.contains((x, a)));
        }
        if fragment is None {
            assert forall|x: Tuple, t: Tuple| #[trigger] of.contains((x, t)) <==> inside(
                s.domain,
                l,
                x,
            ) && t == x + zero_tuple(n) by {
                if inside(s.domain, l, x) && t == x + zero_tuple(n) {
                    assert(inner.contains((x, x)));
                }
            }
        }
    }
}

} // verus!
