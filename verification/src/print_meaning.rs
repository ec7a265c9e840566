//! What printed C says, apart from its layout: with line ends and tabs taken out, a statement
//! prints as the grammar of C writes it.
use crate::simplec::{expr_text, stmt_text, stmts_text, CType, Expr, FunctionModel, StmtModel};
use crate::text::joined;
use vstd::prelude::*;

verus! {

/// A text without its line ends and tabs.
pub open spec fn bare(s: Seq<char>) -> Seq<char>
    decreases s.len(),
{
    if s.len() == 0 {
        Seq::empty()
    } else if s.last() == '\n' || s.last() == '\t' {
        bare(s.drop_last())
    } else {
        bare(s.drop_last()).push(s.last())
    }
}

/// The C of a statement.
pub open spec fn c_statement(s: StmtModel) -> Seq<char>
    decreases s,
{
    match s {
        StmtModel::Decl { ty, name, init } => bare(c_type(ty)) + bare(" "@) + bare(name) + (
        match init {
            Some(e) => bare(" = "@) + bare(e),
            None => Seq::empty(),
        }) + bare(";"@),
        StmtModel::Assign { target, value } => bare(target) + bare(" = "@) + bare(value) + bare(
            ";"@,
        ),
        StmtModel::If { cond, then_branch, else_branch } => bare("if ("@) + bare(cond) + bare(
            ") {"@,
        ) + c_statements(then_branch) + bare("}"@) + (if else_branch.len() == 0 {
            Seq::empty()
        } else {
            bare("else {"@) + c_statements(else_branch) + bare("}"@)
        }),
        StmtModel::For { iterator, init, cond, inc, body } => bare("for ("@) + bare(iterator)
            + bare(" = "@) + bare(init) + bare("; "@) + bare(cond) + bare("; "@) + bare(iterator)
            + bare(" += "@) + bare(inc) + bare(") {"@) + c_statements(body) + bare("}"@),
        StmtModel::Return(value) => match value {
            Some(e) => bare("return "@) + bare(e) + bare(";"@),
            None => bare("return;"@),
        },
        StmtModel::Expr(e) => bare(e) + bare(";"@),
        StmtModel::Raw(line) => bare(line),
        StmtModel::Block(body) => bare("{"@) + c_statements(body) + bare("}"@),
    }
}

/// The C of statements, one after the other.
pub open spec fn c_statements(v: Seq<StmtModel>) -> Seq<char>
    decreases v,
{
    if v.len() == 0 {
        Seq::empty()
    } else {
        c_statements(v.drop_last()) + c_statement(v.last())
    }
}

/// The C of a type: a star for each level of pointer.
pub open spec fn c_type(t: CType) -> Seq<char>
    decreases t,
{
    match t {
        CType::Float => "float"@,
        CType::Long => "long"@,
        CType::Char => "char"@,
        CType::Void => "void"@,
        CType::Ptr(base, levels) => c_type(*base) + Seq::new(levels as nat, |i: int| '*'),
    }
}

/// The C of the head of a function. One that takes nothing says so.
pub open spec fn c_head(f: FunctionModel) -> Seq<char> {
    (if f.is_static {
        "static "@
    } else {
        Seq::empty()
    }) + c_type(f.return_type) + " "@ + f.name + "("@ + (if f.params.len() == 0 {
        "void"@
    } else {
        joined(
            Seq::new(f.params.len(), |i: int| c_type(f.params[i].0) + " "@ + f.params[i].1),
            ", "@,
        )
    }) + ")"@
}

proof fn lemma_bare_sum(a: Seq<char>, b: Seq<char>)
    ensures
        bare(a + b) == bare(a) + bare(b),
    decreases b.len(),
{
    if b.len() == 0 {
        assert(a + b =~= a);
        assert(bare(a) + bare(b) =~= bare(a));
    } else {
        lemma_bare_sum(a, b.drop_last());
        assert((a + b).drop_last() =~= a + b.drop_last());
        assert((a + b).last() == b.last());
        assert(bare(a + b) =~= bare(a) + bare(b));
    }
}

proof fn lemma_bare_line(a: Seq<char>, b: Seq<char>)
    requires
        b == a.push('\n'),
    ensures
        bare(b) == bare(a),
{
    assert(b.drop_last() =~= a);
}

proof fn lemma_bare_ends()
    ensures
        bare(";\n"@) == bare(";"@),
        bare(") {\n"@) == bare(") {"@),
        bare("}\n"@) == bare("}"@),
        bare("else {\n"@) == bare("else {"@),
        bare("return;\n"@) == bare("return;"@),
        bare("{\n"@) == bare("{"@),
        bare(" {\n"@) == bare(" {"@),
        bare("\n"@) == Seq::<char>::empty(),
        bare("\t"@) == Seq::<char>::empty(),
{
    reveal_strlit(";\n");
    reveal_strlit(";");
    reveal_strlit(") {\n");
    reveal_strlit(") {");
    reveal_strlit("}\n");
    reveal_strlit("}");
    reveal_strlit("else {\n");
    reveal_strlit("else {");
    reveal_strlit("return;\n");
    reveal_strlit("return;");
    reveal_strlit("{\n");
    reveal_strlit("{");
    reveal_strlit(" {\n");
    reveal_strlit(" {");
    reveal_strlit("\n");
    reveal_strlit("\t");
    assert(";\n"@ =~= ";"@.push('\n'));
    assert(") {\n"@ =~= ") {"@.push('\n'));
    assert("}\n"@ =~= "}"@.push('\n'));
    assert("else {\n"@ =~= "else {"@.push('\n'));
    assert("return;\n"@ =~= "return;"@.push('\n'));
    assert("{\n"@ =~= "{"@.push('\n'));
    assert(" {\n"@ =~= " {"@.push('\n'));
    lemma_bare_line(";"@, ";\n"@);
    lemma_bare_line(") {"@, ") {\n"@);
    lemma_bare_line("}"@, "}\n"@);
    lemma_bare_line("else {"@, "else {\n"@);
    lemma_bare_line("return;"@, "return;\n"@);
    lemma_bare_line("{"@, "{\n"@);
    lemma_bare_line(" {"@, " {\n"@);
    reveal_with_fuel(bare, 2);
    assert("\n"@.drop_last() =~= Seq::<char>::empty());
    assert("\t"@.drop_last() =~= Seq::<char>::empty());
}

/// Every way to lay out a statement leaves the same C.
pub proof fn a_statement_prints_its_c(s: StmtModel, pad: Seq<char>)
    requires
        bare(pad).len() == 0,
    ensures
        bare(stmt_text(s, pad)) == c_statement(s),
    decreases s,
{
    lemma_bare_ends();
    lemma_bare_sum(pad, "\t"@);
    assert(bare(pad) =~= Seq::empty());
    let inner = pad + "\t"@;
    assert(bare(inner) =~= Seq::empty());
    match s {
        StmtModel::Decl { ty, name, init } => {
            lemma_type(ty);
            let t = ty.spelling();
            lemma_bare_sum(pad, t);
            lemma_bare_sum(pad + t, " "@);
            lemma_bare_sum(pad + t + " "@, name);
            match init {
                Some(e) => {
                    lemma_bare_sum(pad + t + " "@ + name, " = "@);
                    lemma_bare_sum(pad + t + " "@ + name + " = "@, e);
                    lemma_bare_sum(pad + t + " "@ + name + " = "@ + e, ";\n"@);
                },
                None => {
                    lemma_bare_sum(pad + t + " "@ + name, ";\n"@);
                },
            }
            assert(bare(stmt_text(s, pad)) =~= c_statement(s));
        },
        StmtModel::Assign { target, value } => {
            lemma_bare_sum(pad, target);
            lemma_bare_sum(pad + target, " = "@);
            lemma_bare_sum(pad + target + " = "@, value);
            lemma_bare_sum(pad + target + " = "@ + value, ";\n"@);
            assert(bare(stmt_text(s, pad)) =~= c_statement(s));
        },
        StmtModel::If { cond, then_branch, else_branch } => {
            statements_print_their_c(then_branch, inner);
            statements_print_their_c(else_branch, inner);
            lemma_if(s, pad);
        },
        StmtModel::For { iterator, init, cond, inc, body } => {
            statements_print_their_c(body, inner);
            lemma_for(s, pad);
        },
        StmtModel::Return(value) => {
            match value {
                Some(e) => {
                    lemma_bare_sum(pad, "return "@);
                    lemma_bare_sum(pad + "return "@, e);
                    lemma_bare_sum(pad + "return "@ + e, ";\n"@);
                },
                None => {
                    lemma_bare_sum(pad, "return;\n"@);
                },
            }
            assert(bare(stmt_text(s, pad)) =~= c_statement(s));
        },
        StmtModel::Expr(e) => {
            lemma_bare_sum(pad, e);
            lemma_bare_sum(pad + e, ";\n"@);
            assert(bare(stmt_text(s, pad)) =~= c_statement(s));
        },
        StmtModel::Raw(line) => {
            lemma_bare_sum(pad, line);
            lemma_bare_sum(pad + line, "\n"@);
            assert(bare(stmt_text(s, pad)) =~= c_statement(s));
        },
        StmtModel::Block(body) => {
            statements_print_their_c(body, inner);
            let t = stmts_text(body, inner);
            lemma_bare_sum(pad, "{\n"@);
            lemma_bare_sum(pad + "{\n"@, t);
            lemma_bare_sum(pad + "{\n"@ + t, pad);
            lemma_bare_sum(pad + "{\n"@ + t + pad, "}\n"@);
            assert(bare(stmt_text(s, pad)) =~= c_statement(s));
        },
    }
}

proof fn lemma_if(s: StmtModel, pad: Seq<char>)
    requires
        bare(pad) == Seq::<char>::empty(),
        s matches StmtModel::If { then_branch, else_branch, .. } && bare(
            stmts_text(then_branch, pad + "\t"@),
        ) == c_statements(then_branch) && bare(stmts_text(else_branch, pad + "\t"@))
            == c_statements(else_branch),
    ensures
        bare(stmt_text(s, pad)) == c_statement(s),
{
    lemma_bare_ends();
    if let StmtModel::If { cond, then_branch, else_branch } = s {
        let t = stmts_text(then_branch, pad + "\t"@);
        let e = stmts_text(else_branch, pad + "\t"@);
        let a = pad + "if ("@;
        let b = a + cond;
        let c = b + ") {\n"@;
        let d = c + t;
        let f = d + pad;
        let g = f + "}\n"@;
        lemma_bare_sum(pad, "if ("@);
        lemma_bare_sum(a, cond);
        lemma_bare_sum(b, ") {\n"@);
        lemma_bare_sum(c, t);
        lemma_bare_sum(d, pad);
        lemma_bare_sum(f, "}\n"@);
        lemma_bare_sum(g, pad);
        lemma_bare_sum(g + pad, "else {\n"@);
        lemma_bare_sum(g + pad + "else {\n"@, e);
        lemma_bare_sum(g + pad + "else {\n"@ + e, pad);
        lemma_bare_sum(g + pad + "else {\n"@ + e + pad, "}\n"@);
        assert(bare(stmt_text(s, pad)) =~= c_statement(s));
    }
}

proof fn lemma_for(s: StmtModel, pad: Seq<char>)
    requires
        bare(pad) == Seq::<char>::empty(),
        s matches StmtModel::For { body, .. } && bare(stmts_text(body, pad + "\t"@))
            == c_statements(body),
    ensures
        bare(stmt_text(s, pad)) == c_statement(s),
{
    lemma_bare_ends();
    if let StmtModel::For { iterator, init, cond, inc, body } = s {
        let t = stmts_text(body, pad + "\t"@);
        let a = pad + "for ("@;
        let b = a + iterator;
        let c = b + " = "@;
        let d = c + init;
        let e = d + "; "@;
        let f = e + cond;
        let g = f + "; "@;
        let h = g + iterator;
        let i = h + " += "@;
        let j = i + inc;
        let k = j + ") {\n"@;
        let l = k + t;
        let m = l + pad;
        lemma_bare_sum(pad, "for ("@);
        lemma_bare_sum(a, iterator);
        lemma_bare_sum(b, " = "@);
        lemma_bare_sum(c, init);
        lemma_bare_sum(d, "; "@);
        lemma_bare_sum(e, cond);
        lemma_bare_sum(f, "; "@);
        lemma_bare_sum(g, iterator);
        lemma_bare_sum(h, " += "@);
        lemma_bare_sum(i, inc);
        lemma_bare_sum(j, ") {\n"@);
        lemma_bare_sum(k, t);
        lemma_bare_sum(l, pad);
        lemma_bare_sum(m, "}\n"@);
        assert(bare(stmt_text(s, pad)) =~= c_statement(s));
    }
}

/// Every way to lay out a list of statements leaves the same C.
pub proof fn statements_print_their_c(v: Seq<StmtModel>, pad: Seq<char>)
    requires
        bare(pad).len() == 0,
    ensures
        bare(stmts_text(v, pad)) == c_statements(v),
    decreases v,
{
    if v.len() > 0 {
        statements_print_their_c(v.drop_last(), pad);
        a_statement_prints_its_c(v.last(), pad);
        lemma_bare_sum(stmts_text(v.drop_last(), pad), stmt_text(v.last(), pad));
    }
}

proof fn lemma_type(t: CType)
    ensures
        t.spelling() == c_type(t),
    decreases t,
{
    if let CType::Ptr(base, levels) = t {
        lemma_type(*base);
        assert(t.spelling() =~= c_type(t));
    }
}

/// A function prints as its head, and its statements between braces.
pub proof fn a_function_prints_its_c(f: FunctionModel)
    ensures
        f.header() == c_head(f),
        bare(f.definition()) == bare(c_head(f)) + bare(" {"@) + c_statements(f.body) + bare("}"@),
{
    lemma_type(f.return_type);
    reveal_strlit("");
    assert(""@ =~= Seq::<char>::empty());
    assert forall|i: int| 0 <= i < f.params.len() implies (#[trigger] f.params[i]).0.spelling()
        == c_type(f.params[i].0) by {
        lemma_type(f.params[i].0);
    }
    assert(crate::simplec::params_text(f.params) =~= Seq::new(
        f.params.len(),
        |i: int| c_type(f.params[i].0) + " "@ + f.params[i].1,
    ));
    assert(f.header() == c_head(f));
    lemma_bare_ends();
    statements_print_their_c(f.body, "\t"@);
    let t = stmts_text(f.body, "\t"@);
    lemma_bare_sum(f.header(), " {\n"@);
    lemma_bare_sum(f.header() + " {\n"@, t);
    lemma_bare_sum(f.header() + " {\n"@ + t, "}\n"@);
}

/// A choice prints its condition, what it gives when that holds and what it gives else, each in
/// parentheses; a call prints its name and its arguments in order.
pub proof fn an_expression_prints_its_c(e: Expr)
    ensures
        match e {
            Expr::Raw(s) => e@ == s@,
            Expr::Call(name, args) => e@ == name@ + "("@ + joined(
                Seq::new(args@.len(), |i: int| args@[i]@),
                ", "@,
            ) + ")"@,
            Expr::Ternary(c, t, f) => e@ == "("@ + c@ + ") ? ("@ + t@ + ") : ("@ + f@ + ")"@,
        },
{
    if let Expr::Call(name, args) = e {
        assert(crate::simplec::exprs_text(args@) =~= Seq::new(args@.len(), |i: int| args@[i]@));
        assert(expr_text(e) == e@);
    }
}

} // verus!
