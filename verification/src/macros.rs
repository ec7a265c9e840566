//! The macros of a generated program: what is defined is undefined at the end, in the same order.
use crate::driver::{
    flat_macro, flat_macros, interface_macro, interface_macros, preamble, undefined_macros, var_names,
    wrapped,
};
use crate::ir::{System, Variable};
use crate::scheduledc::{closing_lines, storage_lines};
use crate::simplec::FunctionModel;
use crate::writec::{macro_lines, undef_lines};
use vstd::prelude::*;

verus! {

/// The line defines a macro of the given name.
pub open spec fn defines(line: Seq<char>, name: Seq<char>) -> bool {
    exists|rest: Seq<char>| line == #[trigger] define_text(name, rest)
}

pub open spec fn define_text(name: Seq<char>, rest: Seq<char>) -> Seq<char> {
    "#define "@ + name + "("@ + rest
}

/// The line undefines the macro of the given name.
pub open spec fn undefines(line: Seq<char>, name: Seq<char>) -> bool {
    line == "#undef "@ + name
}

/// From place `k` on, the lines define the macros of the given names, in order.
pub open spec fn defined_from(lines: Seq<Seq<char>>, k: int, names: Seq<Seq<char>>) -> bool {
    &&& k + names.len() <= lines.len()
    &&& forall|i: int| 0 <= i < names.len() ==> defines(lines[k + i], #[trigger] names[i])
}

/// From place `k` on, the lines undefine the macros of the given names, in order.
pub open spec fn undefined_from(lines: Seq<Seq<char>>, k: int, names: Seq<Seq<char>>) -> bool {
    &&& k + names.len() <= lines.len()
    &&& forall|i: int| 0 <= i < names.len() ==> undefines(lines[k + i], #[trigger] names[i])
}

/// The macros that every program has.
pub open spec fn function_macros() -> Seq<Seq<char>> {
    seq!["ceild"@, "floord"@, "div"@, "max"@, "min"@, "mallocCheck"@]
}

/// The names of the variables of a system, in order.
pub open spec fn variable_names(system: System) -> Seq<Seq<char>> {
    var_names(system.inputs@) + var_names(system.outputs@) + var_names(system.locals@)
}

/// The names of the flags of the variables that a program on demand computes, in order.
pub open spec fn flag_names(system: System) -> Seq<Seq<char>> {
    let computed = var_names(system.outputs@) + var_names(system.locals@);
    Seq::new(computed.len(), |i: int| "_flag_"@ + computed[i])
}

proof fn lemma_interface_macro(v: Variable)
    ensures
        defines(interface_macro(v.name@, v.domain.ndims as nat), v.name@),
{
    let name = v.name@;
    let ndims = v.domain.ndims as nat;
    let rest = crate::text::joined(crate::layout::macro_params(ndims), ","@) + ") "@ + name
        + crate::layout::interface_subscripts(ndims);
    assert(interface_macro(name, ndims) =~= define_text(name, rest));
}

proof fn lemma_flat_macro(name: Seq<char>, ndims: nat)
    ensures
        defines(flat_macro(name, ndims), name),
{
    let params = crate::layout::macro_params(ndims);
    let rest = crate::text::joined(params, ","@) + ") "@ + name + "["@ + crate::layout::arith_text(
        crate::layout::row_major(name, params),
    ) + "]"@;
    assert(flat_macro(name, ndims) =~= define_text(name, rest));
}

proof fn lemma_variables_defined(system: System)
    ensures
        defined_from(
            interface_macros(system.inputs@) + interface_macros(system.outputs@) + flat_macros(
                ""@,
                system.locals@,
            ),
            0,
            variable_names(system),
        ),
{
    let lines = interface_macros(system.inputs@) + interface_macros(system.outputs@) + flat_macros(
        ""@,
        system.locals@,
    );
    let names = variable_names(system);
    let a = system.inputs@.len() as int;
    let b = a + system.outputs@.len();
    reveal_strlit("");
    assert forall|i: int| 0 <= i < names.len() implies defines(lines[i], #[trigger] names[i]) by {
        if i < a {
            lemma_interface_macro(system.inputs@[i]);
        } else if i < b {
            lemma_interface_macro(system.outputs@[i - a]);
        } else {
            let v = system.locals@[i - b];
            assert(""@ + v.name@ =~= v.name@);
            lemma_flat_macro(v.name@, v.domain.ndims as nat);
        }
    }
}

proof fn lemma_flags_defined(system: System)
    ensures
        defined_from(
            flat_macros("_flag_"@, system.outputs@) + flat_macros("_flag_"@, system.locals@),
            0,
            flag_names(system),
        ),
{
    let lines = flat_macros("_flag_"@, system.outputs@) + flat_macros("_flag_"@, system.locals@);
    let names = flag_names(system);
    let a = system.outputs@.len() as int;
    assert forall|i: int| 0 <= i < names.len() implies defines(lines[i], #[trigger] names[i]) by {
        let v = if i < a {
            system.outputs@[i]
        } else {
            system.locals@[i - a]
        };
        lemma_flat_macro("_flag_"@ + v.name@, v.domain.ndims as nat);
    }
}

/// The lines that undefine the macros of the variables.
pub open spec fn variable_undefs(system: System) -> Seq<Seq<char>> {
    wrapped("#undef "@, var_names(system.inputs@), ""@) + wrapped(
        "#undef "@,
        var_names(system.outputs@),
        ""@,
    ) + wrapped("#undef "@, var_names(system.locals@), ""@)
}

proof fn lemma_variables_undefined(system: System)
    ensures
        undefined_from(variable_undefs(system), 0, variable_names(system)),
        variable_undefs(system).len() == variable_names(system).len(),
{
    let lines = variable_undefs(system);
    let names = variable_names(system);
    reveal_strlit("");
    assert forall|i: int| 0 <= i < names.len() implies undefines(lines[i], #[trigger] names[i]) by {
        assert("#undef "@ + names[i] + ""@ =~= "#undef "@ + names[i]);
    }
}

/// The lines that undefine the macros of the flags.
pub open spec fn flag_undefs(system: System) -> Seq<Seq<char>> {
    wrapped("#undef _flag_"@, var_names(system.outputs@), ""@) + wrapped(
        "#undef _flag_"@,
        var_names(system.locals@),
        ""@,
    )
}

proof fn lemma_flags_undefined(system: System)
    ensures
        undefined_from(flag_undefs(system), 0, flag_names(system)),
        flag_undefs(system).len() == flag_names(system).len(),
{
    let lines = flag_undefs(system);
    let names = flag_names(system);
    let computed = var_names(system.outputs@) + var_names(system.locals@);
    reveal_strlit("");
    reveal_strlit("#undef ");
    reveal_strlit("_flag_");
    reveal_strlit("#undef _flag_");
    assert("#undef _flag_"@ =~= "#undef "@ + "_flag_"@);
    assert forall|i: int| 0 <= i < names.len() implies undefines(lines[i], #[trigger] names[i]) by {
        let n = computed[i];
        assert("#undef _flag_"@ + n + ""@ =~= "#undef "@ + ("_flag_"@ + n));
    }
}

proof fn lemma_define_line(line: Seq<char>, name: Seq<char>)
    requires
        "#define "@.len() + name.len() + 1 <= line.len(),
        line.take(("#define "@.len() + name.len() + 1) as int) == "#define "@ + name + "("@,
        "("@.len() == 1,
    ensures
        defines(line, name),
{
    let n = "#define "@.len() + name.len() + 1;
    let rest = line.skip(n as int);
    assert(line =~= line.take(n as int) + rest);
    assert(line == define_text(name, rest));
}

proof fn lemma_functions_defined()
    ensures
        defined_from(preamble(), 9, function_macros()),
        undefined_from(undefined_macros(), 0, function_macros()),
{
    reveal_strlit("#define ");
    reveal_strlit("(");
    reveal_strlit("#undef ");
    reveal_strlit("ceild");
    reveal_strlit("floord");
    reveal_strlit("div");
    reveal_strlit("max");
    reveal_strlit("min");
    reveal_strlit("mallocCheck");
    reveal_strlit("#undef ceild");
    reveal_strlit("#undef floord");
    reveal_strlit("#undef div");
    reveal_strlit("#undef max");
    reveal_strlit("#undef min");
    reveal_strlit("#undef mallocCheck");
    reveal_strlit("#define ceild(n,d) ((int)ceil(((double)(n))/((double)(d))))");
    reveal_strlit("#define floord(n,d) ((int)floor(((double)(n))/((double)(d))))");
    reveal_strlit("#define div(a,b) (ceild((a),(b)))");
    reveal_strlit("#define max(a,b) (((a)>(b))?(a):(b))");
    reveal_strlit("#define min(a,b) (((a)<(b))?(a):(b))");
    reveal_strlit(
        "#define mallocCheck(v,s) if ((v) == NULL) { printf(\"Failed to allocate memory for variable: %s\\n\", (s)); exit(-1); }",
    );
    assert("#undef ceild"@ =~= "#undef "@ + "ceild"@);
    assert("#undef floord"@ =~= "#undef "@ + "floord"@);
    assert("#undef div"@ =~= "#undef "@ + "div"@);
    assert("#undef max"@ =~= "#undef "@ + "max"@);
    assert("#undef min"@ =~= "#undef "@ + "min"@);
    assert("#undef mallocCheck"@ =~= "#undef "@ + "mallocCheck"@);
    let lines = preamble();
    let names = function_macros();
    assert(lines[9].take(14) =~= "#define "@ + "ceild"@ + "("@);
    lemma_define_line(lines[9], names[0]);
    assert(lines[10].take(15) =~= "#define "@ + "floord"@ + "("@);
    lemma_define_line(lines[10], names[1]);
    assert(lines[11].take(12) =~= "#define "@ + "div"@ + "("@);
    lemma_define_line(lines[11], names[2]);
    assert(lines[12].take(12) =~= "#define "@ + "max"@ + "("@);
    lemma_define_line(lines[12], names[3]);
    assert(lines[13].take(12) =~= "#define "@ + "min"@ + "("@);
    lemma_define_line(lines[13], names[4]);
    assert(lines[14].take(20) =~= "#define "@ + "mallocCheck"@ + "("@);
    lemma_define_line(lines[14], names[5]);
    assert forall|i: int| 0 <= i < names.len() implies defines(lines[9 + i], #[trigger] names[i]) by {
        if i == 0 {
        } else if i == 1 {
        } else if i == 2 {
        } else if i == 3 {
        } else if i == 4 {
        } else {
            assert(i == 5);
        }
    }
    let undefs = undefined_macros();
    assert forall|i: int| 0 <= i < names.len() implies undefines(
        undefs[i],
        #[trigger] names[i],
    ) by {
        if i == 0 {
        } else if i == 1 {
        } else if i == 2 {
        } else if i == 3 {
        } else if i == 4 {
        } else {
            assert(i == 5);
        }
    }
}

/// A program that computes on demand defines a macro for every variable and for every flag, and the
/// macros that every program has; it undefines exactly these, in the same order, at the end.
pub proof fn a_program_on_demand_undefines_its_macros(system: System)
    ensures
        ({
            let memory = variable_names(system) + flag_names(system);
            &&& defined_from(macro_lines(system), 1, memory)
            &&& macro_lines(system).len() == memory.len() + 2
            &&& defined_from(preamble(), 9, function_macros())
            &&& undefined_from(undef_lines(system), 1, memory + function_macros())
            &&& undef_lines(system).len() == memory.len() + function_macros().len() + 1
        }),
{
    lemma_variables_defined(system);
    lemma_flags_defined(system);
    lemma_variables_undefined(system);
    lemma_flags_undefined(system);
    lemma_functions_defined();
    let names = variable_names(system);
    let flags = flag_names(system);
    let memory = names + flags;
    let all = memory + function_macros();
    let first = interface_macros(system.inputs@) + interface_macros(system.outputs@) + flat_macros(
        ""@,
        system.locals@,
    );
    let second = flat_macros("_flag_"@, system.outputs@) + flat_macros("_flag_"@, system.locals@);
    let lines = macro_lines(system);
    assert(lines =~= seq!["// Memory Macros"@] + first + second + seq![""@]);
    assert forall|i: int| 0 <= i < memory.len() implies defines(lines[1 + i], #[trigger] memory[i]) by {
        if i < names.len() {
            assert(defines(first[0 + i], names[i]));
            assert(lines[1 + i] == first[i]);
        } else {
            let j = i - names.len();
            assert(defines(second[0 + j], flags[j]));
            assert(lines[1 + i] == second[j]);
        }
    }
    let undefs = undef_lines(system);
    assert(undefs =~= seq!["// Undefine the Memory and Function Macros"@] + variable_undefs(system)
        + flag_undefs(system) + undefined_macros());
    assert forall|i: int| 0 <= i < all.len() implies undefines(undefs[1 + i], #[trigger] all[i]) by {
        if i < names.len() {
            assert(undefines(variable_undefs(system)[0 + i], names[i]));
            assert(undefs[1 + i] == variable_undefs(system)[i]);
        } else if i < memory.len() {
            let j = i - names.len();
            assert(undefines(flag_undefs(system)[0 + j], flags[j]));
            assert(undefs[1 + i] == flag_undefs(system)[j]);
        } else {
            let j = i - memory.len();
            assert(undefines(undefined_macros()[0 + j], function_macros()[j]));
            assert(undefs[1 + i] == undefined_macros()[j]);
        }
    }
}

/// A scheduled program defines a macro for every variable and the macros that every program has; it
/// undefines exactly these, in the same order, at the end.
pub proof fn a_scheduled_program_undefines_its_macros(
    system: System,
    params: Seq<Seq<char>>,
    driver: FunctionModel,
)
    ensures
        ({
            let names = variable_names(system);
            let stored = storage_lines(system, params);
            let closing = closing_lines(system, driver);
            &&& defined_from(stored, stored.len() - names.len() - 1, names)
            &&& defined_from(preamble(), 9, function_macros())
            &&& undefined_from(closing, 6, names + function_macros())
            &&& closing.len() == 6 + names.len() + function_macros().len()
        }),
{
    lemma_variables_defined(system);
    lemma_variables_undefined(system);
    lemma_functions_defined();
    let names = variable_names(system);
    let all = names + function_macros();
    let first = interface_macros(system.inputs@) + interface_macros(system.outputs@) + flat_macros(
        ""@,
        system.locals@,
    );
    let stored = storage_lines(system, params);
    let start = stored.len() - names.len() - 1;
    let before = stored.take(start);
    assert(stored =~= before + first + seq![""@]);
    assert forall|i: int| 0 <= i < names.len() implies defines(
        stored[start + i],
        #[trigger] names[i],
    ) by {
        assert(defines(first[0 + i], names[i]));
        assert(stored[start + i] == first[i]);
    }
    let closing = closing_lines(system, driver);
    let head = closing.take(6);
    assert(closing =~= head + variable_undefs(system) + undefined_macros());
    assert forall|i: int| 0 <= i < all.len() implies undefines(closing[6 + i], #[trigger] all[i]) by {
        if i < names.len() {
            assert(undefines(variable_undefs(system)[0 + i], names[i]));
            assert(closing[6 + i] == variable_undefs(system)[i]);
        } else {
            let j = i - names.len();
            assert(undefines(undefined_macros()[0 + j], function_macros()[j]));
            assert(closing[6 + i] == undefined_macros()[j]);
        }
    }
}

} // verus!
