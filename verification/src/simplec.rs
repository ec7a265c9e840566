//! A small C syntax tree: just the statements and expressions that the generators emit.
//!
//! Preprocessor lines and global declarations are plain text; only function bodies are trees. The
//! meaning of an expression is the C text it prints, and the meaning of a statement is a tree over
//! such texts ([`StmtModel`]).
use crate::text::{cat2, cat3, cat4, cat5, cat7, join, joined, push_char, push_text, views};
use vstd::prelude::*;

verus! {

#[derive(Debug, PartialEq, Eq)]
pub enum CType {
    Float,
    Long,
    Char,
    Void,
    /// `n` levels of `*` on top of the base type (`Ptr(Float, 2)` is `float**`).
    Ptr(Box<CType>, u32),
}

/// `n` asterisks.
pub open spec fn stars(n: nat) -> Seq<char> {
    Seq::new(n, |i: int| '*')
}

impl CType {
    /// The C spelling of a type.
    pub open spec fn spelling(self) -> Seq<char>
        decreases self,
    {
        match self {
            CType::Float => "float"@,
            CType::Long => "long"@,
            CType::Char => "char"@,
            CType::Void => "void"@,
            CType::Ptr(base, levels) => base.spelling() + stars(levels as nat),
        }
    }

    /// `base` under `levels` levels of pointer; no level at all is `base` itself.
    pub open spec fn pointer_to(base: CType, levels: u32) -> CType {
        if levels == 0 {
            base
        } else {
            CType::Ptr(Box::new(base), levels)
        }
    }

    pub fn ptr(base: CType, levels: u32) -> (r: CType)
        ensures
            r == Self::pointer_to(base, levels),
    {
        if levels == 0 {
            base
        } else {
            CType::Ptr(Box::new(base), levels)
        }
    }

    pub fn to_text(&self) -> (r: String)
        ensures
            r@ == self.spelling(),
        decreases self,
    {
        match self {
            CType::Float => "float".to_owned(),
            CType::Long => "long".to_owned(),
            CType::Char => "char".to_owned(),
            CType::Void => "void".to_owned(),
            CType::Ptr(base, levels) => {
                let mut s = base.to_text();
                let mut i: u32 = 0;
                proof {
                    assert(s@ + stars(0) =~= s@);
                }
                while i < *levels
                    invariant
                        i <= *levels,
                        s@ == base.spelling() + stars(i as nat),
                    decreases *levels - i,
                {
                    push_char(&mut s, '*');
                    i += 1;
                    proof {
                        assert(s@ =~= base.spelling() + stars(i as nat));
                    }
                }
                s
            },
        }
    }
}

impl Clone for CType {
    fn clone(&self) -> (r: CType)
        ensures
            r == *self,
        decreases self,
    {
        match self {
            CType::Float => CType::Float,
            CType::Long => CType::Long,
            CType::Char => CType::Char,
            CType::Void => CType::Void,
            CType::Ptr(base, levels) => CType::Ptr(Box::new((&**base).clone()), *levels),
        }
    }
}

#[derive(Debug)]
pub enum Expr {
    /// C text, printed verbatim.
    Raw(String),
    Call(String, Vec<Expr>),
    /// `cond ? then : else`.
    Ternary(Box<Expr>, Box<Expr>, Box<Expr>),
}

/// The C text of an expression.
pub open spec fn expr_text(e: Expr) -> Seq<char>
    decreases e,
{
    match e {
        Expr::Raw(s) => s@,
        Expr::Call(name, args) => name@ + "("@ + joined(exprs_text(args@), ", "@) + ")"@,
        Expr::Ternary(c, t, e) => "("@ + expr_text(*c) + ") ? ("@ + expr_text(*t) + ") : ("@ + expr_text(
            *e,
        ) + ")"@,
    }
}

/// The C text of each expression of a list.
pub open spec fn exprs_text(v: Seq<Expr>) -> Seq<Seq<char>>
    decreases v,
{
    Seq::new(v.len(), |i: int| if 0 <= i < v.len() { expr_text(v[i]) } else { Seq::empty() })
}

impl View for Expr {
    type V = Seq<char>;

    open spec fn view(&self) -> Seq<char> {
        expr_text(*self)
    }
}

impl Expr {
    pub fn to_text(&self) -> (r: String)
        ensures
            r@ == self@,
        decreases self, 0int,
    {
        match self {
            Expr::Raw(s) => s.clone(),
            Expr::Call(name, args) => {
                let texts = Self::texts(args);
                cat4(name.as_str(), "(", join(&texts, ", ").as_str(), ")")
            },
            Expr::Ternary(c, t, e) => {
                let c = c.to_text();
                let t = t.to_text();
                let e = e.to_text();
                cat7("(", c.as_str(), ") ? (", t.as_str(), ") : (", e.as_str(), ")")
            },
        }
    }

    pub fn texts(args: &Vec<Expr>) -> (r: Vec<String>)
        ensures
            views(r@) == exprs_text(args@),
        decreases args, 0int,
    {
        let mut texts: Vec<String> = Vec::new();
        let mut i: usize = 0;
        while i < args.len()
            invariant
                i <= args.len(),
                views(texts@) =~= exprs_text(args@).take(i as int),
            decreases args.len() - i,
        {
            push_text(&mut texts, args[i].to_text());
            i += 1;
        }
        proof {
            assert(exprs_text(args@).take(i as int) =~= exprs_text(args@));
        }
        texts
    }
}

#[derive(Debug)]
#[allow(inconsistent_fields)]
pub enum Stmt {
    Decl { ty: CType, name: String, init: Option<Expr> },
    Assign { target: Expr, value: Expr },
    If { cond: Expr, then_branch: Vec<Stmt>, else_branch: Vec<Stmt> },
    /// A `for` loop whose header pieces are C text.
    For { iterator: String, init: String, cond: String, inc: String, body: Vec<Stmt> },
    Return(Option<Expr>),
    Expr(Expr),
    /// One formatted line, printed verbatim; the empty line has no indentation.
    Raw(String),
    /// A brace-enclosed scope of its own.
    Block(Vec<Stmt>),
}

/// A statement as a tree over C texts.
#[allow(inconsistent_fields)]
pub enum StmtModel {
    Decl { ty: CType, name: Seq<char>, init: Option<Seq<char>> },
    Assign { target: Seq<char>, value: Seq<char> },
    If { cond: Seq<char>, then_branch: Seq<StmtModel>, else_branch: Seq<StmtModel> },
    For {
        iterator: Seq<char>,
        init: Seq<char>,
        cond: Seq<char>,
        inc: Seq<char>,
        body: Seq<StmtModel>,
    },
    Return(Option<Seq<char>>),
    Expr(Seq<char>),
    Raw(Seq<char>),
    Block(Seq<StmtModel>),
}

pub open spec fn opt_text(e: Option<Expr>) -> Option<Seq<char>> {
    match e {
        None => None,
        Some(e) => Some(e@),
    }
}

pub open spec fn stmt_model(s: Stmt) -> StmtModel
    decreases s,
{
    match s {
        Stmt::Decl { ty, name, init } => StmtModel::Decl { ty, name: name@, init: opt_text(init) },
        Stmt::Assign { target, value } => StmtModel::Assign { target: target@, value: value@ },
        Stmt::If { cond, then_branch, else_branch } => StmtModel::If {
            cond: cond@,
            then_branch: stmts_model(then_branch@),
            else_branch: stmts_model(else_branch@),
        },
        Stmt::For { iterator, init, cond, inc, body } => StmtModel::For {
            iterator: iterator@,
            init: init@,
            cond: cond@,
            inc: inc@,
            body: stmts_model(body@),
        },
        Stmt::Return(e) => StmtModel::Return(opt_text(e)),
        Stmt::Expr(e) => StmtModel::Expr(e@),
        Stmt::Raw(s) => StmtModel::Raw(s@),
        Stmt::Block(body) => StmtModel::Block(stmts_model(body@)),
    }
}

/// The model of each statement of a list.
pub open spec fn stmts_model(v: Seq<Stmt>) -> Seq<StmtModel>
    decreases v,
{
    Seq::new(
        v.len(),
        |i: int| if 0 <= i < v.len() { stmt_model(v[i]) } else { StmtModel::Return(None) },
    )
}

impl View for Stmt {
    type V = StmtModel;

    open spec fn view(&self) -> StmtModel {
        stmt_model(*self)
    }
}

/// What a statement prints when its first line is indented by `pad`.
pub open spec fn stmt_text(s: StmtModel, pad: Seq<char>) -> Seq<char>
    decreases s,
{
    match s {
        StmtModel::Decl { ty, name, init: Some(e) } => pad + ty.spelling() + " "@ + name + " = "@ + e
            + ";\n"@,
        StmtModel::Decl { ty, name, init: None } => pad + ty.spelling() + " "@ + name + ";\n"@,
        StmtModel::Assign { target, value } => pad + target + " = "@ + value + ";\n"@,
        StmtModel::If { cond, then_branch, else_branch } => {
            let head = pad + "if ("@ + cond + ") {\n"@ + stmts_text(then_branch, pad + "\t"@);
            if else_branch.len() == 0 {
                head + pad + "}\n"@
            } else {
                head + pad + "}\n"@ + pad + "else {\n"@ + stmts_text(else_branch, pad + "\t"@) + pad
                    + "}\n"@
            }
        },
        StmtModel::For { iterator, init, cond, inc, body } => pad + "for ("@ + iterator + " = "@ + init
            + "; "@ + cond + "; "@ + iterator + " += "@ + inc + ") {\n"@ + stmts_text(
            body,
            pad + "\t"@,
        ) + pad + "}\n"@,
        StmtModel::Return(None) => pad + "return;\n"@,
        StmtModel::Return(Some(e)) => pad + "return "@ + e + ";\n"@,
        StmtModel::Expr(e) => pad + e + ";\n"@,
        StmtModel::Raw(line) => if line.len() == 0 {
            "\n"@
        } else {
            pad + line + "\n"@
        },
        StmtModel::Block(body) => pad + "{\n"@ + stmts_text(body, pad + "\t"@) + pad + "}\n"@,
    }
}

/// What a list of statements prints.
pub open spec fn stmts_text(v: Seq<StmtModel>, pad: Seq<char>) -> Seq<char>
    decreases v,
{
    if v.len() == 0 {
        Seq::empty()
    } else {
        stmts_text(v.drop_last(), pad) + stmt_text(v.last(), pad)
    }
}

/// Prints `stmts`, each first line indented by `pad`.
pub fn write_stmts(out: &mut String, stmts: &Vec<Stmt>, pad: &str)
    ensures
        final(out)@ == old(out)@ + stmts_text(stmts_model(stmts@), pad@),
    decreases stmts, 0int,
{
    let mut i: usize = 0;
    proof {
        assert(stmts_model(stmts@).take(0) =~= Seq::empty());
        assert(out@ + Seq::<char>::empty() =~= out@);
    }
    while i < stmts.len()
        invariant
            i <= stmts.len(),
            out@ == old(out)@ + stmts_text(stmts_model(stmts@).take(i as int), pad@),
        decreases stmts.len() - i,
    {
        let ghost before = stmts_text(stmts_model(stmts@).take(i as int), pad@);
        write_stmt(out, &stmts[i], pad);
        i += 1;
        proof {
            let t = stmts_model(stmts@).take(i as int);
            assert(t.drop_last() =~= stmts_model(stmts@).take(i - 1));
            assert(t.last() == stmts@[i - 1]@);
            assert(out@ =~= old(out)@ + (before + stmt_text(stmts@[i - 1]@, pad@)));
        }
    }
    proof {
        assert(stmts_model(stmts@).take(stmts.len() as int) =~= stmts_model(stmts@));
    }
}

/// Prints one statement, its first line indented by `pad`.
pub fn write_stmt(out: &mut String, stmt: &Stmt, pad: &str)
    ensures
        final(out)@ == old(out)@ + stmt_text(stmt@, pad@),
    decreases stmt, 1int,
{
    let s = stmt_string(stmt, pad);
    out.append(s.as_str());
}

fn stmt_string(stmt: &Stmt, pad: &str) -> (r: String)
    ensures
        r@ == stmt_text(stmt@, pad@),
    decreases stmt, 0int,
{
    match stmt {
        Stmt::Decl { ty, name, init } => {
            let ty = ty.to_text();
            match init {
                Some(init) => {
                    let init = init.to_text();
                    cat7(pad, ty.as_str(), " ", name.as_str(), " = ", init.as_str(), ";\n")
                },
                None => cat5(pad, ty.as_str(), " ", name.as_str(), ";\n"),
            }
        },
        Stmt::Assign { target, value } => {
            let target = target.to_text();
            let value = value.to_text();
            cat5(pad, target.as_str(), " = ", value.as_str(), ";\n")
        },
        Stmt::If { cond, then_branch, else_branch } => {
            let cond = cond.to_text();
            let mut s = cat4(pad, "if (", cond.as_str(), ") {\n");
            let inner = cat2(pad, "\t");
            write_stmts(&mut s, then_branch, inner.as_str());
            s.append(pad);
            s.append("}\n");
            if else_branch.len() > 0 {
                s.append(pad);
                s.append("else {\n");
                write_stmts(&mut s, else_branch, inner.as_str());
                s.append(pad);
                s.append("}\n");
            }
            s
        },
        Stmt::For { iterator, init, cond, inc, body } => {
            let mut s = cat7(pad, "for (", iterator.as_str(), " = ", init.as_str(), "; ", cond.as_str());
            s.append("; ");
            s.append(iterator.as_str());
            s.append(" += ");
            s.append(inc.as_str());
            s.append(") {\n");
            let inner = cat2(pad, "\t");
            write_stmts(&mut s, body, inner.as_str());
            s.append(pad);
            s.append("}\n");
            s
        },
        Stmt::Return(None) => cat2(pad, "return;\n"),
        Stmt::Return(Some(e)) => {
            let e = e.to_text();
            cat4(pad, "return ", e.as_str(), ";\n")
        },
        Stmt::Expr(e) => {
            let e = e.to_text();
            cat3(pad, e.as_str(), ";\n")
        },
        Stmt::Raw(s) => {
            if s.as_str().is_empty() {
                "\n".to_owned()
            } else {
                cat3(pad, s.as_str(), "\n")
            }
        },
        Stmt::Block(body) => {
            let mut s = cat2(pad, "{\n");
            let inner = cat2(pad, "\t");
            write_stmts(&mut s, body, inner.as_str());
            s.append(pad);
            s.append("}\n");
            s
        },
    }
}

pub struct Function {
    pub return_type: CType,
    pub name: String,
    pub params: Vec<(CType, String)>,
    pub body: Vec<Stmt>,
    /// Printed `static`: every generated helper, but not the entry point of a system.
    pub is_static: bool,
}

/// A function as a tree over C texts.
pub struct FunctionModel {
    pub return_type: CType,
    pub name: Seq<char>,
    pub params: Seq<(CType, Seq<char>)>,
    pub body: Seq<StmtModel>,
    pub is_static: bool,
}

/// The type and the name of each parameter.
pub open spec fn params_model(params: Seq<(CType, String)>) -> Seq<(CType, Seq<char>)> {
    Seq::new(params.len(), |i: int| (params[i].0, params[i].1@))
}

impl View for Function {
    type V = FunctionModel;

    open spec fn view(&self) -> FunctionModel {
        FunctionModel {
            return_type: self.return_type,
            name: self.name@,
            params: params_model(self.params@),
            body: stmts_model(self.body@),
            is_static: self.is_static,
        }
    }
}

/// `type name` for each parameter.
pub open spec fn params_text(params: Seq<(CType, Seq<char>)>) -> Seq<Seq<char>> {
    Seq::new(params.len(), |i: int| params[i].0.spelling() + " "@ + params[i].1)
}

impl FunctionModel {
    /// The header line without its brace: `void` stands for an empty parameter list.
    pub open spec fn header(self) -> Seq<char> {
        (if self.is_static {
            "static "@
        } else {
            ""@
        }) + self.return_type.spelling() + " "@ + self.name + "("@ + (if self.params.len() == 0 {
            "void"@
        } else {
            joined(params_text(self.params), ", "@)
        }) + ")"@
    }

    /// The whole printed definition.
    pub open spec fn definition(self) -> Seq<char> {
        self.header() + " {\n"@ + stmts_text(self.body, "\t"@) + "}\n"@
    }
}

/// An expression that is printed as it stands.
pub fn raw(s: String) -> (r: Expr)
    ensures
        r@ == s@,
{
    Expr::Raw(s)
}

/// A statement that is printed as it stands.
pub fn raw_line(s: &str) -> (r: Stmt)
    ensures
        r@ == StmtModel::Raw(s@),
{
    Stmt::Raw(s.to_owned())
}

/// `target = value;`
pub fn assign(target: String, value: Expr) -> (r: Stmt)
    ensures
        r@ == (StmtModel::Assign { target: target@, value: value@ }),
{
    let target = raw(target);
    Stmt::Assign { target, value }
}

/// Appends a statement.
pub fn push_stmt(v: &mut Vec<Stmt>, s: Stmt)
    ensures
        stmts_model(final(v)@) == stmts_model(old(v)@).push(s@),
{
    v.push(s);
    proof {
        assert(stmts_model(v@) =~= stmts_model(old(v)@).push(s@));
    }
}

/// Appends a list of statements.
pub fn append_stmts(v: &mut Vec<Stmt>, more: Vec<Stmt>)
    ensures
        stmts_model(final(v)@) == stmts_model(old(v)@) + stmts_model(more@),
{
    let mut more = more;
    let ghost added = more@;
    v.append(&mut more);
    proof {
        assert(stmts_model(v@) =~= stmts_model(old(v)@) + stmts_model(added));
    }
}

/// A list of one statement.
pub fn one_stmt(s: Stmt) -> (r: Vec<Stmt>)
    ensures
        stmts_model(r@) == seq![s@],
{
    let mut v: Vec<Stmt> = Vec::new();
    v.push(s);
    proof {
        assert(stmts_model(v@) =~= seq![s@]);
    }
    v
}

/// Appends a parameter.
pub fn push_param(v: &mut Vec<(CType, String)>, ty: CType, name: String)
    ensures
        params_model(final(v)@) == params_model(old(v)@).push((ty, name@)),
{
    v.push((ty, name));
    proof {
        assert(params_model(v@) =~= params_model(old(v)@).push((ty, name@)));
    }
}

/// Appends an expression.
pub fn push_expr(v: &mut Vec<Expr>, e: Expr)
    ensures
        exprs_text(final(v)@) == exprs_text(old(v)@).push(e@),
{
    v.push(e);
    proof {
        assert(exprs_text(v@) =~= exprs_text(old(v)@).push(e@));
    }
}

impl Function {
    pub fn signature(&self) -> (r: String)
        ensures
            r@ == self@.header(),
    {
        let params = if self.params.len() == 0 {
            "void".to_owned()
        } else {
            let mut texts: Vec<String> = Vec::new();
            let mut i: usize = 0;
            while i < self.params.len()
                invariant
                    i <= self.params.len(),
                    views(texts@) =~= params_text(params_model(self.params@)).take(i as int),
                decreases self.params.len() - i,
            {
                let ty = self.params[i].0.to_text();
                push_text(&mut texts, cat3(ty.as_str(), " ", self.params[i].1.as_str()));
                i += 1;
            }
            proof {
                assert(params_text(self@.params).take(i as int) =~= params_text(self@.params));
            }
            join(&texts, ", ")
        };
        let ty = self.return_type.to_text();
        cat7(
            if self.is_static {
                "static "
            } else {
                ""
            },
            ty.as_str(),
            " ",
            self.name.as_str(),
            "(",
            params.as_str(),
            ")",
        )
    }

    pub fn to_text(&self) -> (r: String)
        ensures
            r@ == self@.definition(),
    {
        let head = self.signature();
        let mut s = cat2(head.as_str(), " {\n");
        write_stmts(&mut s, &self.body, "\t");
        s.append("}\n");
        s
    }
}

} // verus!
