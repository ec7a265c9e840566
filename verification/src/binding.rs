//! What the Python module shows its users: how loading a source can fail, and how generation
//! errors are classed.
use crate::diagnostic::{issues, Diagnostic, Issue, SyntaxError};
use crate::error::{CodegenError, Failure};
use crate::text::{cat3, cat5, dec, dec_u32, dec_usize, join, joined, push_text, views};
use vstd::prelude::*;

verus! {

/// An exception: of the module's own kind for a bad schedule, a plain value error otherwise.
#[derive(Debug)]
pub enum Raised {
    Schedule(String),
    Value(String),
}

/// A [`Raised`] as a mathematical value.
pub enum RaisedModel {
    Schedule(Seq<char>),
    Value(Seq<char>),
}

impl View for Raised {
    type V = RaisedModel;

    open spec fn view(&self) -> RaisedModel {
        match *self {
            Raised::Schedule(m) => RaisedModel::Schedule(m@),
            Raised::Value(m) => RaisedModel::Value(m@),
        }
    }
}

/// The exception for a failure. One about a schedule carries its bare message.
pub open spec fn raised(f: Failure) -> RaisedModel {
    match f {
        Failure::InvalidSchedule(m) => RaisedModel::Schedule(m),
        Failure::IllegalSchedule(m) => RaisedModel::Schedule(m),
        _ => RaisedModel::Value(f.message()),
    }
}

pub fn codegen_err_to_py(e: &CodegenError) -> (r: Raised)
    ensures
        r@ == raised(e@),
{
    match e {
        CodegenError::InvalidSchedule(m) => Raised::Schedule(m.clone()),
        CodegenError::IllegalSchedule(m) => Raised::Schedule(m.clone()),
        _ => Raised::Value(e.to_text()),
    }
}

/// What came of loading a source text.
#[derive(Debug)]
pub enum Loading {
    SyntaxErrors(Vec<SyntaxError>),
    NoSystem,
    /// What was reported of the first system.
    Diagnostics(Vec<Diagnostic>),
    /// Lowering the system failed.
    Broken(String),
    /// What was reported of the equations that lowering left out.
    Skipped(Vec<Diagnostic>),
}

pub open spec fn syntax_line(e: SyntaxError) -> Seq<char> {
    dec(e.start as nat) + ".."@ + dec(e.end as nat) + ": "@ + e.message@
}

pub open spec fn syntax_lines(v: Seq<SyntaxError>) -> Seq<Seq<char>> {
    v.map_values(|e: SyntaxError| syntax_line(e))
}

pub open spec fn message_lines(v: Seq<Issue>) -> Seq<Seq<char>> {
    v.map_values(|i: Issue| i.message())
}

/// How many there are of something, and each on its own line.
pub open spec fn listing(count: nat, what: Seq<char>, lines: Seq<Seq<char>>) -> Seq<char> {
    dec(count) + what + joined(lines, "\n"@)
}

/// The message that loading fails with, if it does. The stages come in order, and only the first
/// that reports anything is heard.
pub open spec fn loading_failure(l: Loading) -> Option<Seq<char>> {
    match l {
        Loading::SyntaxErrors(v) => if v@.len() == 0 {
            None
        } else {
            Some(listing(v@.len(), " syntax error(s):\n"@, syntax_lines(v@)))
        },
        Loading::NoSystem => Some("no systems found in source"@),
        Loading::Diagnostics(v) => if v@.len() == 0 {
            None
        } else {
            Some(listing(v@.len(), " diagnostic(s):\n"@, message_lines(issues(v@))))
        },
        Loading::Broken(m) => Some("internal error lowering system: "@ + m@),
        Loading::Skipped(v) => if v@.len() == 0 {
            None
        } else {
            Some(
                listing(
                    v@.len(),
                    " equation(s) skipped during lowering:\n"@,
                    message_lines(issues(v@)),
                ),
            )
        },
    }
}

fn all_messages(v: &Vec<Diagnostic>) -> (r: Vec<String>)
    ensures
        views(r@) == message_lines(issues(v@)),
{
    let ghost target = message_lines(issues(v@));
    let mut out: Vec<String> = Vec::new();
    let mut i: usize = 0;
    proof {
        assert(views(out@) =~= target.take(0));
    }
    while i < v.len()
        invariant
            i <= v@.len(),
            target == message_lines(issues(v@)),
            views(out@) == target.take(i as int),
        decreases v@.len() - i,
    {
        proof {
            assert(issues(v@)[i as int] == v@[i as int]@);
            assert(target.take(i + 1) =~= target.take(i as int).push(target[i as int]));
        }
        push_text(&mut out, v[i].to_text());
        i += 1;
    }
    proof {
        assert(target.take(v@.len() as int) =~= target);
    }
    out
}

fn all_syntax_lines(v: &Vec<SyntaxError>) -> (r: Vec<String>)
    ensures
        views(r@) == syntax_lines(v@),
{
    let ghost target = syntax_lines(v@);
    let mut out: Vec<String> = Vec::new();
    let mut i: usize = 0;
    proof {
        assert(views(out@) =~= target.take(0));
    }
    while i < v.len()
        invariant
            i <= v@.len(),
            target == syntax_lines(v@),
            views(out@) == target.take(i as int),
        decreases v@.len() - i,
    {
        proof {
            assert(target.take(i + 1) =~= target.take(i as int).push(target[i as int]));
        }
        let start = dec_u32(v[i].start);
        let end = dec_u32(v[i].end);
        push_text(
            &mut out,
            cat5(start.as_str(), "..", end.as_str(), ": ", v[i].message.as_str()),
        );
        i += 1;
    }
    proof {
        assert(target.take(v@.len() as int) =~= target);
    }
    out
}

fn list(count: usize, what: &str, lines: &Vec<String>) -> (r: String)
    ensures
        r@ == listing(count as nat, what@, views(lines@)),
{
    let number = dec_usize(count);
    let all = join(lines, "\n");
    cat3(number.as_str(), what, all.as_str())
}

/// The message that loading fails with, if it does.
pub fn parse_and_lower(l: &Loading) -> (r: core::result::Result<(), Raised>)
    ensures
        match r {
            Ok(()) => loading_failure(*l) is None,
            Err(e) => loading_failure(*l) matches Some(m) && e@ == RaisedModel::Value(m),
        },
{
    match l {
        Loading::SyntaxErrors(v) => if v.len() == 0 {
            Ok(())
        } else {
            let lines = all_syntax_lines(v);
            Err(Raised::Value(list(v.len(), " syntax error(s):\n", &lines)))
        },
        Loading::NoSystem => Err(Raised::Value("no systems found in source".to_owned())),
        Loading::Diagnostics(v) => if v.len() == 0 {
            Ok(())
        } else {
            let lines = all_messages(v);
            Err(Raised::Value(list(v.len(), " diagnostic(s):\n", &lines)))
        },
        Loading::Broken(m) => Err(
            Raised::Value(crate::text::cat2("internal error lowering system: ", m.as_str())),
        ),
        Loading::Skipped(v) => if v.len() == 0 {
            Ok(())
        } else {
            let lines = all_messages(v);
            Err(
                Raised::Value(
                    list(v.len(), " equation(s) skipped during lowering:\n", &lines),
                ),
            )
        },
    }
}

} // verus!
