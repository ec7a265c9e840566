//! The sets that the checks of a system ask about, written down as terms.
//!
//! Each question is whether a set is empty, or whether two sets are the same. Which sets these are
//! is said here; what they hold is for the polyhedral library to find out.
use crate::domain::{body_set, folded};
use crate::polyhedral::{combine, combined, SetModel, SetOp, SetTerm, Table};
use crate::resolve::{param_set, variable_set, Resolver};
use crate::syntax::{Expr, Span, System, SystemBody};
use crate::text::str_eq;
use crate::use_outputs::{mention_models, Mention, MentionModel};
use vstd::prelude::*;

verus! {

/// Where the value of `node` is needed.
pub open spec fn needed_at(node: usize) -> SetModel {
    SetModel::Kept(Table::Context, node)
}

pub fn needed(node: usize) -> (r: SetTerm)
    ensures
        r@ == needed_at(node),
{
    SetTerm::Kept { table: Table::Context, node }
}

/// Where the branches of a case are needed.
pub open spec fn branch_sets(branches: Seq<Expr>) -> Seq<SetModel> {
    Seq::new(branches.len(), |i: int| needed_at(branches[i].node))
}

/// What the branch at place `k` shares with those before it.
pub open spec fn branch_overlap_set(branches: Seq<Expr>, k: int) -> SetModel {
    combined(
        SetOp::Intersect,
        branch_sets(branches)[k],
        folded(SetOp::Union, branch_sets(branches).take(k), branches[k].span),
        branches[k].span,
    )
}

/// What the branch at place `k` of a case shares with those before it: it has to be empty.
pub fn branch_overlap(branches: &Vec<Expr>, k: usize) -> (r: SetTerm)
    requires
        0 < k < branches@.len(),
    ensures
        r@ == branch_overlap_set(branches@, k as int),
{
    let at = branches[k].span;
    let ghost sets = branch_sets(branches@);
    let mut before = needed(branches[0].node);
    let mut i: usize = 1;
    proof {
        assert(sets.take(1)[0] == sets[0]);
    }
    while i < k
        invariant
            1 <= i <= k < branches@.len(),
            sets == branch_sets(branches@),
            before@ == folded(SetOp::Union, sets.take(i as int), at),
        decreases k - i,
    {
        proof {
            let t = sets.take(i + 1);
            assert(t.drop_last() =~= sets.take(i as int));
            assert(t.last() == sets[i as int]);
        }
        before = combine(SetOp::Union, before, needed(branches[i].node), at);
        i += 1;
    }
    combine(SetOp::Intersect, needed(branches[k].node), before, at)
}

/// The parameter values of each body, kept to those of the system.
pub open spec fn body_regions(s: System) -> Seq<SetModel> {
    Seq::new(
        s.bodies@.len(),
        |i: int|
            combined(
                SetOp::Intersect,
                body_set(s, s.bodies@[i]),
                param_set(s),
                s.bodies@[i].span,
            ),
    )
}

/// What the body at place `k` shares with those before it.
pub open spec fn body_overlap_set(s: System, k: int) -> SetModel {
    combined(
        SetOp::Intersect,
        folded(SetOp::Union, body_regions(s).take(k), s.span),
        body_regions(s)[k],
        s.span,
    )
}

/// The parameter values of the system that no body takes.
pub open spec fn unclaimed_set(s: System) -> SetModel {
    combined(
        SetOp::Subtract,
        param_set(s),
        folded(SetOp::Union, body_regions(s), s.span),
        s.span,
    )
}

/// Where a variable is needed in a body.
pub open spec fn needed_set(s: System, body: SystemBody, name: Seq<char>) -> SetModel {
    combined(
        SetOp::IntersectParams,
        variable_set(s, name, Seq::empty()),
        body_set(s, body),
        body.span,
    )
}

impl<'a> Resolver<'a> {
    /// The parameter values of the body at place `i`, kept to those of the system.
    pub fn body_region(&self, i: usize) -> (r: SetTerm)
        requires
            self.wf(),
            i < self.system.bodies@.len(),
        ensures
            r@ == body_regions(*self.system)[i as int],
    {
        let body = &self.system.bodies[i];
        combine(
            SetOp::Intersect,
            self.system_body_domain(body),
            self.param_domain(),
            body.span,
        )
    }

    fn first_regions(&self, k: usize) -> (r: SetTerm)
        requires
            self.wf(),
            0 < k <= self.system.bodies@.len(),
        ensures
            r@ == folded(
                SetOp::Union,
                body_regions(*self.system).take(k as int),
                self.system.span,
            ),
    {
        let at = self.system.span;
        let ghost sets = body_regions(*self.system);
        let mut out = self.body_region(0);
        let mut i: usize = 1;
        proof {
            assert(sets.take(1)[0] == sets[0]);
        }
        while i < k
            invariant
                self.wf(),
                1 <= i <= k <= self.system.bodies@.len(),
                sets == body_regions(*self.system),
                at == self.system.span,
                out@ == folded(SetOp::Union, sets.take(i as int), at),
            decreases k - i,
        {
            proof {
                let t = sets.take(i + 1);
                assert(t.drop_last() =~= sets.take(i as int));
                assert(t.last() == sets[i as int]);
            }
            out = combine(SetOp::Union, out, self.body_region(i), at);
            i += 1;
        }
        out
    }

    /// What the body at place `k` shares with those before it: it has to be empty.
    pub fn body_overlap(&self, k: usize) -> (r: SetTerm)
        requires
            self.wf(),
            0 < k < self.system.bodies@.len(),
        ensures
            r@ == body_overlap_set(*self.system, k as int),
    {
        combine(
            SetOp::Intersect,
            self.first_regions(k),
            self.body_region(k),
            self.system.span,
        )
    }

    /// The parameter values of the system that no body takes: there must be none.
    pub fn unclaimed(&self) -> (r: SetTerm)
        requires
            self.wf(),
            self.system.bodies@.len() > 0,
        ensures
            r@ == unclaimed_set(*self.system),
    {
        let total: usize = self.system.bodies.len();
        let claimed = self.first_regions(total);
        proof {
            let sets = body_regions(*self.system);
            assert(sets.take(total as int) =~= sets);
        }
        combine(SetOp::Subtract, self.param_domain(), claimed, self.system.span)
    }

    /// Where a variable is needed in a body: exactly there it has to be written.
    pub fn needed_in_body(&self, body: &SystemBody, name: &str) -> (r: SetTerm)
        requires
            self.wf(),
        ensures
            r@ == needed_set(*self.system, *body, name@),
    {
        combine(
            SetOp::IntersectParams,
            self.variable_domain(name),
            self.system_body_domain(body),
            body.span,
        )
    }
}

pub open spec fn term_view(t: Option<SetTerm>) -> Option<SetModel> {
    match t {
        Some(x) => Some(x@),
        None => None,
    }
}

/// Where the first `n` mentions write a variable, taken together.
pub open spec fn written_by_first(all: Seq<MentionModel>, name: Seq<char>, at: Span, n: nat) -> Option<
    SetModel,
>
    decreases n,
{
    if n == 0 || n > all.len() {
        None
    } else {
        let before = written_by_first(all, name, at, (n - 1) as nat);
        if all[n - 1].name != name {
            before
        } else {
            match before {
                None => Some(needed_at(all[n - 1].node)),
                Some(b) => Some(combined(SetOp::Union, b, needed_at(all[n - 1].node), at)),
            }
        }
    }
}

/// Where the first `n` mentions write a variable, taken together.
pub fn written_by(all: &Vec<Mention>, name: &str, at: Span, n: usize) -> (r: Option<SetTerm>)
    requires
        n <= all@.len(),
    ensures
        term_view(r) == written_by_first(mention_models(all@), name@, at, n as nat),
{
    let ghost models = mention_models(all@);
    let mut out: Option<SetTerm> = None;
    let mut i: usize = 0;
    while i < n
        invariant
            i <= n <= all@.len(),
            models == mention_models(all@),
            term_view(out) == written_by_first(models, name@, at, i as nat),
        decreases n - i,
    {
        proof {
            assert(models[i as int] == all@[i as int]@);
        }
        if str_eq(all[i].name.as_str(), name) {
            let own = needed(all[i].node);
            out = match out {
                None => Some(own),
                Some(b) => Some(combine(SetOp::Union, b, own, at)),
            };
        }
        i += 1;
    }
    out
}

/// What the mention at place `k` writes that an earlier one of the same variable writes too.
pub open spec fn mention_overlap_set(all: Seq<MentionModel>, k: int, at: Span) -> Option<SetModel> {
    match written_by_first(all, all[k].name, at, k as nat) {
        None => None,
        Some(b) => Some(combined(SetOp::Intersect, needed_at(all[k].node), b, at)),
    }
}

/// What the mention at place `k` writes that an earlier one of the same variable writes too: it has
/// to be empty.
pub fn mention_overlap(all: &Vec<Mention>, k: usize, at: Span) -> (r: Option<SetTerm>)
    requires
        k < all@.len(),
    ensures
        term_view(r) == mention_overlap_set(mention_models(all@), k as int, at),
{
    proof {
        assert(mention_models(all@)[k as int] == all@[k as int]@);
    }
    match written_by(all, all[k].name.as_str(), at, k) {
        None => None,
        Some(b) => Some(combine(SetOp::Intersect, needed(all[k].node), b, at)),
    }
}

/// A part, if there is one, added to what there is already.
pub open spec fn joined(before: Option<SetModel>, part: Option<SetModel>, at: Span) -> Option<SetModel> {
    match part {
        None => before,
        Some(x) => match before {
            None => Some(x),
            Some(b) => Some(combined(SetOp::Union, b, x, at)),
        },
    }
}

fn join(before: Option<SetTerm>, part: Option<SetTerm>, at: Span) -> (r: Option<SetTerm>)
    ensures
        term_view(r) == joined(term_view(before), term_view(part), at),
{
    match part {
        None => before,
        Some(x) => match before {
            None => Some(x),
            Some(b) => Some(combine(SetOp::Union, b, x, at)),
        },
    }
}

/// Those of the first `n` parts that were found to hold something, taken together.
pub open spec fn joined_first(
    parts: Seq<Option<SetModel>>,
    found: Seq<bool>,
    at: Span,
    n: nat,
) -> Option<SetModel>
    decreases n,
{
    if n == 0 {
        None
    } else {
        let before = joined_first(parts, found, at, (n - 1) as nat);
        if found[n - 1] {
            joined(before, parts[n - 1], at)
        } else {
            before
        }
    }
}

/// What each body shares with those before it.
pub open spec fn body_clashes(s: System) -> Seq<Option<SetModel>> {
    Seq::new(
        s.bodies@.len(),
        |k: int|
            if k == 0 {
                None
            } else {
                Some(body_overlap_set(s, k))
            },
    )
}

/// What each mention of a variable writes that an earlier one writes too.
pub open spec fn mention_clashes(all: Seq<MentionModel>, name: Seq<char>, at: Span) -> Seq<
    Option<SetModel>,
> {
    Seq::new(
        all.len(),
        |k: int|
            if all[k].name == name {
                mention_overlap_set(all, k, at)
            } else {
                None
            },
    )
}

/// What mentions of a variable write more than once. `found` says for each mention whether it writes
/// something that an earlier one writes too.
pub fn shared_by_mentions(all: &Vec<Mention>, name: &str, found: &Vec<bool>, at: Span) -> (r: Option<
    SetTerm,
>)
    requires
        found@.len() == all@.len(),
    ensures
        term_view(r) == joined_first(
            mention_clashes(mention_models(all@), name@, at),
            found@,
            at,
            all@.len(),
        ),
{
    let ghost models = mention_models(all@);
    let ghost parts = mention_clashes(models, name@, at);
    let mut out: Option<SetTerm> = None;
    let mut k: usize = 0;
    while k < all.len()
        invariant
            k <= all@.len(),
            found@.len() == all@.len(),
            models == mention_models(all@),
            parts == mention_clashes(models, name@, at),
            term_view(out) == joined_first(parts, found@, at, k as nat),
        decreases all@.len() - k,
    {
        proof {
            assert(models[k as int] == all@[k as int]@);
        }
        if found[k] && str_eq(all[k].name.as_str(), name) {
            out = join(out, mention_overlap(all, k, at), at);
        }
        k += 1;
    }
    out
}

/// The points of a variable that no mention writes.
pub open spec fn unwritten_set(s: System, all: Seq<MentionModel>, name: Seq<char>, at: Span) -> SetModel {
    match written_by_first(all, name, at, all.len()) {
        None => variable_set(s, name, Seq::empty()),
        Some(w) => combined(SetOp::Subtract, variable_set(s, name, Seq::empty()), w, at),
    }
}

impl<'a> Resolver<'a> {
    /// What several bodies take. `found` says for each body whether it shares something with those
    /// before it.
    pub fn shared_by_bodies(&self, found: &Vec<bool>) -> (r: Option<SetTerm>)
        requires
            self.wf(),
            found@.len() == self.system.bodies@.len(),
        ensures
            term_view(r) == joined_first(
                body_clashes(*self.system),
                found@,
                self.system.span,
                found@.len(),
            ),
    {
        let at = self.system.span;
        let ghost parts = body_clashes(*self.system);
        let mut out: Option<SetTerm> = None;
        let mut k: usize = 0;
        while k < found.len()
            invariant
                self.wf(),
                k <= found@.len(),
                found@.len() == self.system.bodies@.len(),
                parts == body_clashes(*self.system),
                at == self.system.span,
                term_view(out) == joined_first(parts, found@, at, k as nat),
            decreases found@.len() - k,
        {
            if found[k] && k > 0 {
                out = join(out, Some(self.body_overlap(k)), at);
            }
            k += 1;
        }
        out
    }

    /// The points of a variable that no mention writes.
    pub fn unwritten(&self, all: &Vec<Mention>, name: &str, at: Span) -> (r: SetTerm)
        requires
            self.wf(),
        ensures
            r@ == unwritten_set(*self.system, mention_models(all@), name@, at),
    {
        let whole = self.variable_domain(name);
        match written_by(all, name, at, all.len()) {
            None => whole,
            Some(w) => combine(SetOp::Subtract, whole, w, at),
        }
    }
}

} // verus!
