//! The index names that a construct brings into scope, read off its text.
use crate::scan::{
    after_arrow, alphanumeric, drop_leading, drop_trailing, first_piece, head, is_alphanumeric,
    past_arrow, pieces, split, trim, trimmed, without_leading, without_trailing, Class,
};
use crate::text::{chars_of, push_text, str_eq, views};
use vstd::prelude::*;

verus! {

/// The name at one place of a tuple: what stands before a `=`, which would bind it to a value.
pub open spec fn position_name(s: Seq<char>) -> Seq<char> {
    trimmed(head(s, '='))
}

fn tuple_position_name(s: &str) -> (r: String)
    ensures
        r@ == position_name(s@),
{
    let name = first_piece(s, '=');
    trim(name.as_str())
}

/// The inside of the tuple that a text starts with: what stands before a `:`, without brackets.
pub open spec fn tuple_inside(s: Seq<char>) -> Seq<char> {
    drop_trailing(drop_leading(trimmed(head(s, ':')), Class::Only('[')), Class::Only(']'))
}

/// The names of a tuple with the given inside; none, where that is empty.
pub open spec fn names_inside(inner: Seq<char>) -> Seq<Seq<char>> {
    if inner.len() == 0 {
        Seq::empty()
    } else {
        pieces(inner, ',').map_values(|p: Seq<char>| position_name(p))
    }
}

fn tuple_names(text: &str) -> (r: Vec<String>)
    ensures
        views(r@) == names_inside(tuple_inside(text@)),
{
    let before = first_piece(text, ':');
    let tuple = trim(before.as_str());
    let opened = without_leading(tuple.as_str(), Class::Only('['));
    let inner = without_trailing(opened.as_str(), Class::Only(']'));
    let chars = chars_of(inner.as_str());
    let mut out: Vec<String> = Vec::new();
    if chars.len() == 0 {
        proof {
            assert(views(out@) =~= Seq::<Seq<char>>::empty());
        }
        return out;
    }
    let parts = split(inner.as_str(), ',');
    let ghost target = names_inside(inner@);
    let mut i: usize = 0;
    proof {
        assert(views(parts@).len() == parts@.len());
        assert(views(out@) =~= target.take(0));
    }
    while i < parts.len()
        invariant
            i <= parts@.len(),
            views(parts@) == pieces(inner@, ','),
            target == pieces(inner@, ',').map_values(|p: Seq<char>| position_name(p)),
            target.len() == parts@.len(),
            views(out@) == target.take(i as int),
        decreases parts@.len() - i,
    {
        proof {
            assert(views(parts@)[i as int] == parts@[i as int]@);
            assert(target.take(i + 1) =~= target.take(i as int).push(target[i as int]));
        }
        push_text(&mut out, tuple_position_name(parts[i].as_str()));
        i += 1;
    }
    proof {
        assert(target.take(parts@.len() as int) =~= target);
    }
    out
}

/// The names of the tuple of a domain `{[i,j] : ...}`.
pub open spec fn domain_names(text: Seq<char>) -> Seq<Seq<char>> {
    names_inside(tuple_inside(drop_leading(text, Class::Only('{'))))
}

pub fn domain_tuple_names(text: &str) -> (r: Vec<String>)
    ensures
        views(r@) == domain_names(text@),
{
    let opened = without_leading(text, Class::Only('{'));
    tuple_names(opened.as_str())
}

/// The names of the second tuple of a relation `{[i,j] -> [x] : ...}`.
pub open spec fn range_names(text: Seq<char>) -> Seq<Seq<char>> {
    match past_arrow(text) {
        None => Seq::empty(),
        Some(rest) => names_inside(tuple_inside(rest)),
    }
}

pub fn relation_range_names(text: &str) -> (r: Vec<String>)
    ensures
        views(r@) == range_names(text@),
{
    match after_arrow(text) {
        None => {
            let out: Vec<String> = Vec::new();
            proof {
                assert(views(out@) =~= Seq::<Seq<char>>::empty());
            }
            out
        },
        Some(rest) => tuple_names(rest.as_str()),
    }
}

pub open spec fn identifier_char(c: char) -> bool {
    alphanumeric(c) || c == '_'
}

/// A text of letters, digits and underscores, at least one of them.
pub open spec fn bare_identifier(s: Seq<char>) -> bool {
    s.len() > 0 && forall|i: int| 0 <= i < s.len() ==> identifier_char(#[trigger] s[i])
}

fn is_bare_identifier(s: &str) -> (r: bool)
    ensures
        r == bare_identifier(s@),
{
    let v = chars_of(s);
    if v.len() == 0 {
        return false;
    }
    let mut i: usize = 0;
    while i < v.len()
        invariant
            i <= v@.len(),
            v@ == s@,
            forall|j: int| 0 <= j < i ==> identifier_char(#[trigger] s@[j]),
        decreases v@.len() - i,
    {
        let c = v[i];
        if !(is_alphanumeric(c) || c == '_') {
            proof {
                assert(!identifier_char(s@[i as int]));
            }
            return false;
        }
        i += 1;
    }
    true
}

/// The elements that are bare identifiers, in order.
pub fn bare_identifier_elements(elements: &Vec<String>) -> (r: Vec<String>)
    ensures
        views(r@) == views(elements@).filter(|e: Seq<char>| bare_identifier(e)),
{
    let mut out: Vec<String> = Vec::new();
    let ghost all = views(elements@);
    let ghost keep = |e: Seq<char>| bare_identifier(e);
    let mut i: usize = 0;
    proof {
        reveal(Seq::filter);
        assert(all.take(0).filter(keep) =~= Seq::<Seq<char>>::empty());
        assert(views(out@) =~= Seq::<Seq<char>>::empty());
    }
    while i < elements.len()
        invariant
            i <= elements@.len(),
            all == views(elements@),
            keep == (|e: Seq<char>| bare_identifier(e)),
            views(out@) == all.take(i as int).filter(keep),
        decreases elements@.len() - i,
    {
        proof {
            reveal(Seq::filter);
            let t = all.take(i + 1);
            assert(t.drop_last() =~= all.take(i as int));
            assert(t.last() == elements@[i as int]@);
        }
        if is_bare_identifier(elements[i].as_str()) {
            push_text(&mut out, elements[i].clone());
        }
        i += 1;
    }
    proof {
        assert(all.take(elements@.len() as int) =~= all);
    }
    out
}

/// `base`, followed by the names of `more` that are not there yet.
pub open spec fn extended(base: Seq<Seq<char>>, more: Seq<Seq<char>>) -> Seq<Seq<char>>
    decreases more.len(),
{
    if more.len() == 0 {
        base
    } else {
        let before = extended(base, more.drop_last());
        if before.contains(more.last()) {
            before
        } else {
            before.push(more.last())
        }
    }
}

pub fn has_name(names: &Vec<String>, name: &str) -> (r: bool)
    ensures
        r == views(names@).contains(name@),
{
    let mut i: usize = 0;
    while i < names.len()
        invariant
            i <= names@.len(),
            forall|j: int| 0 <= j < i ==> #[trigger] views(names@)[j] != name@,
        decreases names@.len() - i,
    {
        if str_eq(names[i].as_str(), name) {
            proof {
                assert(views(names@)[i as int] == name@);
            }
            return true;
        }
        i += 1;
    }
    false
}

pub fn copy_all(names: &Vec<String>) -> (r: Vec<String>)
    ensures
        views(r@) == views(names@),
{
    let mut out: Vec<String> = Vec::new();
    let mut i: usize = 0;
    proof {
        assert(views(out@) =~= views(names@).take(0));
    }
    while i < names.len()
        invariant
            i <= names@.len(),
            views(out@) == views(names@).take(i as int),
        decreases names@.len() - i,
    {
        proof {
            assert(views(names@).take(i + 1) =~= views(names@).take(i as int).push(
                names@[i as int]@,
            ));
        }
        push_text(&mut out, names[i].clone());
        i += 1;
    }
    proof {
        assert(views(names@).take(names@.len() as int) =~= views(names@));
    }
    out
}

pub fn extend_unique(base: &Vec<String>, more: &Vec<String>) -> (r: Vec<String>)
    ensures
        views(r@) == extended(views(base@), views(more@)),
{
    let mut out = copy_all(base);
    let mut i: usize = 0;
    proof {
        assert(views(more@).take(0).len() == 0);
    }
    while i < more.len()
        invariant
            i <= more@.len(),
            views(out@) == extended(views(base@), views(more@).take(i as int)),
        decreases more@.len() - i,
    {
        proof {
            let t = views(more@).take(i + 1);
            assert(t.drop_last() =~= views(more@).take(i as int));
            assert(t.last() == more@[i as int]@);
        }
        if !has_name(&out, more[i].as_str()) {
            push_text(&mut out, more[i].clone());
        }
        i += 1;
    }
    proof {
        assert(views(more@).take(more@.len() as int) =~= views(more@));
    }
    out
}

/// Extending a list of names without repetition keeps it so, keeps its names where they are, and
/// brings in every new name.
pub proof fn extending_keeps_names_distinct(base: Seq<Seq<char>>, more: Seq<Seq<char>>)
    requires
        base.no_duplicates(),
    ensures
        extended(base, more).no_duplicates(),
        base.is_prefix_of(extended(base, more)),
        forall|n: Seq<char>| #[trigger]
            extended(base, more).contains(n) <==> base.contains(n) || more.contains(n),
    decreases more.len(),
{
    let after = extended(base, more);
    if more.len() > 0 {
        let before = extended(base, more.drop_last());
        extending_keeps_names_distinct(base, more.drop_last());
        assert forall|n: Seq<char>| #[trigger] after.contains(n) implies base.contains(n)
            || more.contains(n) by {
            if before.contains(n) {
                if more.drop_last().contains(n) {
                    let k = choose|k: int|
                        0 <= k < more.len() - 1 && more.drop_last()[k] == n;
                    assert(more[k] == n);
                }
            } else {
                assert(n == more.last());
                assert(more[more.len() - 1] == n);
            }
        }
        assert forall|n: Seq<char>| base.contains(n) || more.contains(n) implies
            #[trigger] after.contains(n) by {
            if more.contains(n) && n != more.last() {
                let k = choose|k: int| 0 <= k < more.len() && more[k] == n;
                assert(more.drop_last()[k] == n);
                assert(more.drop_last().contains(n));
            }
            if n == more.last() && !before.contains(n) {
                assert(after[after.len() - 1] == n);
            } else {
                assert(before.contains(n));
                let j = choose|j: int| 0 <= j < before.len() && before[j] == n;
                assert(after[j] == n);
            }
        }
    } else {
        assert(!more.contains(more[0]) || more.len() > 0);
    }
}

/// A text that, after an opening brace, starts with a colon: constraints without a tuple.
pub open spec fn bare_colon(s: Seq<char>) -> bool {
    let t = drop_leading(drop_leading(s, Class::Only('{')), Class::White);
    t.len() > 0 && t[0] == ':'
}

pub fn is_bare_colon_domain(s: &str) -> (r: bool)
    ensures
        r == bare_colon(s@),
{
    let opened = without_leading(s, Class::Only('{'));
    let t = without_leading(opened.as_str(), Class::White);
    let v = chars_of(t.as_str());
    v.len() > 0 && v[0] == ':'
}

} // verus!
