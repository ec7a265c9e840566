//! What the arrays of a wrapper hold: to follow the pointers of an array by the indices of a point
//! leads to the cell of the point.
use crate::ir::{System, Variable};
use crate::layout::{in_box, position, position_in_allocation, product};
use crate::simplec::{CType, StmtModel};
use crate::text::{dec, joined};
use crate::wrapper::{
    all_frees, allocs, array_alloc, array_frees, data_level, entry_declaration, extents, level_text,
    levels, main_call, main_opening, main_outcome, param_reads, pointer_level, pointer_levels,
    variable_names,
};
use vstd::prelude::*;

verus! {

/// The product of the first `n` sizes.
pub open spec fn first_product(sizes: Seq<int>, n: nat) -> int
    decreases n,
{
    if n == 0 {
        1
    } else {
        first_product(sizes, (n - 1) as nat) * sizes[n - 1]
    }
}

/// What the texts of the extents of an array come to: each its size, and a product in parentheses
/// the product of the sizes.
pub open spec fn extents_read(
    exts: Seq<Seq<char>>,
    sizes: Seq<int>,
    amount: spec_fn(Seq<char>) -> int,
) -> bool {
    &&& exts.len() == sizes.len()
    &&& forall|d: int| 0 <= d < exts.len() ==> amount(#[trigger] exts[d]) == sizes[d]
    &&& forall|n: int|
        0 < n <= exts.len() ==> amount("("@ + joined(#[trigger] exts.take(n), " * "@) + ")"@)
            == first_product(sizes, n as nat)
}

/// A loop that sets the entries of `from`, from the first to before the given number, each to a
/// place in `to` that lies so many times the stride after its beginning.
pub open spec fn links(
    s: StmtModel,
    from: Seq<char>,
    to: Seq<char>,
    size: Seq<char>,
    stride: Seq<char>,
) -> bool {
    s matches StmtModel::For { iterator, init, cond, inc, body } && iterator == "_i"@ && init
        == "0"@ && cond == "_i < "@ + size && inc == "1"@ && body.len() == 1 && body[0]
        == (StmtModel::Assign {
        target: from + "[_i]"@,
        value: "&"@ + to + "[_i * "@ + stride + "]"@,
    })
}

/// Entry `i` of `from` points at entry `at` of `to`, as some statement has set it.
pub open spec fn points_at(
    stmts: Seq<StmtModel>,
    from: Seq<char>,
    i: int,
    to: Seq<char>,
    at: int,
    amount: spec_fn(Seq<char>) -> int,
) -> bool {
    exists|k: int, size: Seq<char>, stride: Seq<char>|
        0 <= k < stmts.len() && #[trigger] links(stmts[k], from, to, size, stride) && 0 <= i
            < amount(size) && at == i * amount(stride)
}

/// The entry that the first `n` indices of a point pick, in the level that they lead to.
pub open spec fn picked_entry(point: Seq<int>, sizes: Seq<int>, n: nat) -> int
    decreases n,
{
    if n == 0 {
        0
    } else {
        picked_entry(point, sizes, (n - 1) as nat) * sizes[n - 1] + point[n - 1]
    }
}

proof fn lemma_level_stands(name: Seq<char>, exts: Seq<Seq<char>>, upto: nat, level: nat)
    requires
        1 <= level < upto <= exts.len(),
    ensures
        exists|k: int|
            0 <= k < pointer_levels(name, exts, upto).len() && #[trigger] links(
                pointer_levels(name, exts, upto)[k],
                level_text(name, level, (exts.len() - 1) as nat),
                level_text(name, (level - 1) as nat, (exts.len() - 1) as nat),
                "("@ + joined(exts.take(exts.len() - level), " * "@) + ")"@,
                exts[exts.len() - level],
            ),
    decreases upto,
{
    let prev = (upto - 1) as nat;
    let before = pointer_levels(name, exts, prev);
    let own = pointer_level(name, exts, prev);
    let all = pointer_levels(name, exts, upto);
    let top = (exts.len() - 1) as nat;
    let from = level_text(name, level, top);
    let to = level_text(name, (level - 1) as nat, top);
    let size = "("@ + joined(exts.take(exts.len() - level), " * "@) + ")"@;
    let stride = exts[exts.len() - level];
    if level == prev {
        let at = before.len() as int + 2;
        assert(all[at] == own[2]);
        assert(links(own[2], from, to, size, stride));
        assert(links(all[at], from, to, size, stride));
    } else {
        lemma_level_stands(name, exts, prev, level);
        let k = choose|k: int|
            0 <= k < before.len() && #[trigger] links(before[k], from, to, size, stride);
        assert(all[k] == before[k]);
        assert(links(all[k], from, to, size, stride));
    }
}

proof fn lemma_picked_bound(point: Seq<int>, sizes: Seq<int>, n: nat)
    requires
        point.len() == sizes.len(),
        n <= sizes.len(),
        forall|d: int| 0 <= d < sizes.len() ==> 0 <= #[trigger] point[d] < sizes[d],
    ensures
        0 <= picked_entry(point, sizes, n) < first_product(sizes, n),
    decreases n,
{
    if n > 0 {
        lemma_picked_bound(point, sizes, (n - 1) as nat);
        let a = picked_entry(point, sizes, (n - 1) as nat);
        let f = first_product(sizes, (n - 1) as nat);
        let s = sizes[n - 1];
        let p = point[n - 1];
        assert(0 <= p < s);
        assert(0 <= a * s + p < f * s) by (nonlinear_arith)
            requires
                0 <= a < f,
                0 <= p < s,
        ;
    }
}

proof fn lemma_picked_position(point: Seq<int>, sizes: Seq<int>, n: nat)
    requires
        point.len() == sizes.len(),
        n <= sizes.len(),
    ensures
        ({
            let zeros = Seq::new(sizes.len(), |d: int| 0int);
            position(point, zeros, sizes) == picked_entry(point, sizes, n) * product(
                sizes.skip(n as int),
            ) + position(point.skip(n as int), zeros.skip(n as int), sizes.skip(n as int))
        }),
    decreases n,
{
    let zeros = Seq::new(sizes.len(), |d: int| 0int);
    if n == 0 {
        assert(point.skip(0) =~= point);
        assert(zeros.skip(0) =~= zeros);
        assert(sizes.skip(0) =~= sizes);
    } else {
        let m = n - 1;
        lemma_picked_position(point, sizes, m as nat);
        assert(point.skip(m).skip(1) =~= point.skip(n as int));
        assert(zeros.skip(m).skip(1) =~= zeros.skip(n as int));
        assert(sizes.skip(m).skip(1) =~= sizes.skip(n as int));
        let a = picked_entry(point, sizes, m as nat);
        let s = sizes[m];
        let p = point[m];
        let rest = product(sizes.skip(n as int));
        let tail = position(point.skip(n as int), zeros.skip(n as int), sizes.skip(n as int));
        assert(product(sizes.skip(m)) == s * rest);
        assert(position(point.skip(m), zeros.skip(m), sizes.skip(m)) == p * rest + tail);
        assert(a * (s * rest) + (p * rest + tail) == (a * s + p) * rest + tail) by (nonlinear_arith);
    }
}

/// An array of a wrapper is taken apart by its indices. The pointer that the first indices of a
/// point pick leads to the run of the next level that the next index counts in, and the last index
/// picks a cell of the buffer: that of the point, in row-major order, which lies within the buffer.
pub proof fn the_pointers_of_an_array_lead_to_the_cell_of_a_point(
    name: Seq<char>,
    exts: Seq<Seq<char>>,
    is_input: bool,
    sizes: Seq<int>,
    amount: spec_fn(Seq<char>) -> int,
    point: Seq<int>,
    n: nat,
)
    requires
        0 < n <= exts.len(),
        extents_read(exts, sizes, amount),
        point.len() == sizes.len(),
        forall|d: int| 0 <= d < sizes.len() ==> 0 <= #[trigger] point[d] < sizes[d],
    ensures
        ({
            let all = array_alloc(name, exts, is_input);
            let top = (exts.len() - 1) as nat;
            let zeros = Seq::new(sizes.len(), |d: int| 0int);
            let entry = picked_entry(point, sizes, n);
            let buffer = level_text(name, 0, top);
            let total = "("@ + joined(exts, " * "@) + ")"@;
            &&& n < exts.len() ==> points_at(
                all,
                level_text(name, (exts.len() - n) as nat, top),
                entry,
                level_text(name, (exts.len() - n - 1) as nat, top),
                picked_entry(point, sizes, n + 1) - point[n as int],
                amount,
            )
            &&& n == exts.len() ==> entry == position(point, zeros, sizes) && 0 <= entry < product(
                sizes,
            )
            &&& all[0] matches StmtModel::Decl { ty, name: declared, init } && declared == buffer
                && init == Some(
                if is_input {
                    "(float*)malloc(sizeof(float) * "@ + total + ")"@
                } else {
                    "(float*)calloc("@ + total + ", sizeof(float))"@
                },
            )
        }),
{
    let all = array_alloc(name, exts, is_input);
    let top = (exts.len() - 1) as nat;
    let zeros = Seq::new(sizes.len(), |d: int| 0int);
    let first = data_level(name, exts, is_input);
    assert(all[0] == first[0]);
    assert(first[0]->Decl_name == level_text(name, 0, top));
    lemma_picked_bound(point, sizes, n);
    if n < exts.len() {
        let level = (exts.len() - n) as nat;
        let from = level_text(name, level, top);
        let to = level_text(name, (level - 1) as nat, top);
        lemma_level_stands(name, exts, exts.len(), level);
        let size = "("@ + joined(exts.take(exts.len() - level), " * "@) + ")"@;
        let stride = exts[exts.len() - level];
        let levels = pointer_levels(name, exts, exts.len());
        let k = choose|k: int|
            0 <= k < levels.len() && #[trigger] links(levels[k], from, to, size, stride);
        assert(all[first.len() + k] == levels[k]);
        assert(links(all[first.len() + k], from, to, size, stride));
        assert(amount(size) == first_product(sizes, n));
        assert(amount(stride) == sizes[n as int]);
        let entry = picked_entry(point, sizes, n);
        assert(picked_entry(point, sizes, n + 1) == entry * sizes[n as int] + point[n as int]);
        assert(points_at(all, from, entry, to, entry * sizes[n as int], amount));
    } else {
        lemma_picked_position(point, sizes, n);
        assert(sizes.skip(n as int) =~= Seq::empty());
        assert(product(sizes.skip(n as int)) == 1);
        assert(point.skip(n as int).len() == 0);
        assert(picked_entry(point, sizes, n) * 1 == picked_entry(point, sizes, n));
        assert(position(point, zeros, sizes) == picked_entry(point, sizes, n));
        assert(in_box(point, zeros, sizes));
        position_in_allocation(point, zeros, sizes);
    }
}

/// `part` stands in `all`, all of it before place `end`.
pub open spec fn stands_before(all: Seq<StmtModel>, part: Seq<StmtModel>, end: int) -> bool {
    exists|k: int|
        0 <= k && k + part.len() <= end <= all.len() && #[trigger] all.subrange(
            k,
            k + part.len(),
        ) == part
}

/// `part` stands in `all`, all of it after place `start`.
pub open spec fn stands_after(all: Seq<StmtModel>, part: Seq<StmtModel>, start: int) -> bool {
    exists|k: int|
        start < k && k + part.len() <= all.len() && #[trigger] all.subrange(k, k + part.len())
            == part
}

proof fn lemma_alloc_stands(vars: Seq<Variable>, is_input: bool, v: int) -> (k: int)
    requires
        0 <= v < vars.len(),
        allocs(vars, is_input) is Ok,
    ensures
        extents(vars[v].domain) is Ok,
        ({
            let own = array_alloc(vars[v].name@, extents(vars[v].domain)->Ok_0, is_input);
            let all = allocs(vars, is_input)->Ok_0;
            0 <= k && k + own.len() <= all.len() && all.subrange(k, k + own.len()) == own
        }),
    decreases vars.len(),
{
    let all = allocs(vars, is_input)->Ok_0;
    let before = allocs(vars.drop_last(), is_input)->Ok_0;
    let own = array_alloc(vars[v].name@, extents(vars[v].domain)->Ok_0, is_input);
    if v == vars.len() - 1 {
        let k = before.len() as int;
        assert(all.subrange(k, k + own.len()) =~= own);
        k
    } else {
        let k = lemma_alloc_stands(vars.drop_last(), is_input, v);
        assert(all.subrange(k, k + own.len()) =~= before.subrange(k, k + own.len()));
        k
    }
}

proof fn lemma_free_stands(vars: Seq<Variable>, v: int) -> (k: int)
    requires
        0 <= v < vars.len(),
    ensures
        ({
            let own = array_frees(vars[v].name@, levels(vars[v].domain));
            let all = all_frees(vars);
            0 <= k && k + own.len() <= all.len() && all.subrange(k, k + own.len()) == own
        }),
    decreases vars.len(),
{
    let all = all_frees(vars);
    let before = all_frees(vars.drop_last());
    let own = array_frees(vars[v].name@, levels(vars[v].domain));
    if v == vars.len() - 1 {
        let k = before.len() as int;
        assert(all.subrange(k, k + own.len()) =~= own);
        k
    } else {
        let k = lemma_free_stands(vars.drop_last(), v);
        assert(all.subrange(k, k + own.len()) =~= before.subrange(k, k + own.len()));
        k
    }
}

proof fn lemma_read_stands(params: Seq<Seq<char>>, n: nat, k: int)
    requires
        0 <= k < n <= params.len(),
    ensures
        param_reads(params, n).len() == 2 * n,
        param_reads(params, n)[2 * k] == (StmtModel::Decl {
            ty: CType::Long,
            name: params[k],
            init: Some("strtol(argv["@ + dec((k + 1) as nat) + "], &endptr, 10)"@),
        }),
    decreases n,
{
    if n > 1 {
        if k < n - 1 {
            lemma_read_stands(params, (n - 1) as nat, k);
        } else {
            lemma_read_stands(params, (n - 1) as nat, 0);
        }
    } else {
        reveal_with_fuel(param_reads, 2);
    }
}

/// The wrapper calls the entry point once, with what the entry point declares for each of its
/// parameters, in order. Before the call it reads every parameter from the argument at its place
/// and allocates the array of every interface variable; after the call it frees each of them, and
/// it ends with success.
pub proof fn the_wrapper_passes_what_the_entry_point_declares(
    params: Seq<Seq<char>>,
    system: System,
    v: int,
)
    requires
        main_outcome(params, system) is Ok,
    ensures
        ({
            let all = main_outcome(params, system)->Ok_0;
            let entry = entry_declaration(params, system);
            exists|c: int, args: Seq<Seq<char>>|
                0 <= c < all.len() && all[c] == StmtModel::Expr(
                    entry.name + "("@ + #[trigger] joined(args, ", "@) + ")"@,
                ) && args.len() == entry.params.len() && (forall|k: int|
                    0 <= k < args.len() ==> (#[trigger] entry.params[k]).1 == "_local_"@ + args[k])
                    && #[trigger] is_call_place(all, system, params, v, c)
        }),
        main_outcome(params, system)->Ok_0.last() == StmtModel::Return(Some("0"@)),
{
    let inputs = allocs(system.inputs@, true)->Ok_0;
    let outputs = allocs(system.outputs@, false)->Ok_0;
    let opening = main_opening(params);
    let call = main_call(params, system);
    let frees = all_frees(system.inputs@) + all_frees(system.outputs@);
    let all = main_outcome(params, system)->Ok_0;
    let entry = entry_declaration(params, system);
    let args = params + variable_names(system.inputs@) + variable_names(system.outputs@);
    let a = opening.len() as int;
    let b = a + inputs.len();
    let c = b + outputs.len();
    assert(all == opening + inputs + outputs + call + frees + seq![StmtModel::Return(Some("0"@))]);
    assert(all[c] == call[0]);
    assert forall|k: int| 0 <= k < args.len() implies (#[trigger] entry.params[k]).1 == "_local_"@
        + args[k] by {}
    if 0 <= v < system.inputs@.len() {
        let k = lemma_alloc_stands(system.inputs@, true, v);
        let own = array_alloc(
            system.inputs@[v].name@,
            extents(system.inputs@[v].domain)->Ok_0,
            true,
        );
        assert(all.subrange(a + k, a + k + own.len()) =~= inputs.subrange(k, k + own.len()));
        let m = lemma_free_stands(system.inputs@, v);
        let gone = array_frees(system.inputs@[v].name@, levels(system.inputs@[v].domain));
        let at = c + 4 + m;
        assert(all.subrange(at, at + gone.len()) =~= all_frees(system.inputs@).subrange(
            m,
            m + gone.len(),
        ));
    }
    if 0 <= v < system.outputs@.len() {
        let k = lemma_alloc_stands(system.outputs@, false, v);
        let own = array_alloc(
            system.outputs@[v].name@,
            extents(system.outputs@[v].domain)->Ok_0,
            false,
        );
        assert(all.subrange(b + k, b + k + own.len()) =~= outputs.subrange(k, k + own.len()));
        let m = lemma_free_stands(system.outputs@, v);
        let gone = array_frees(system.outputs@[v].name@, levels(system.outputs@[v].domain));
        let at = c + 4 + all_frees(system.inputs@).len() + m;
        assert(all.subrange(at, at + gone.len()) =~= all_frees(system.outputs@).subrange(
            m,
            m + gone.len(),
        ));
    }
    if 0 <= v < params.len() {
        lemma_read_stands(params, params.len(), v);
        assert(opening[2 + 2 * v] == param_reads(params, params.len())[2 * v]);
        assert(all[2 + 2 * v] == opening[2 + 2 * v]);
    }
    assert(is_call_place(all, system, params, v, c));
    assert(all[c] == StmtModel::Expr(entry.name + "("@ + joined(args, ", "@) + ")"@));
}

/// What belongs to the `v`th parameter, input and output stands on the right side of place `c`.
pub open spec fn is_call_place(
    all: Seq<StmtModel>,
    system: System,
    params: Seq<Seq<char>>,
    v: int,
    c: int,
) -> bool {
    &&& 0 <= v < params.len() ==> exists|k: int|
        0 <= k < c && #[trigger] all[k] == (StmtModel::Decl {
            ty: CType::Long,
            name: params[v],
            init: Some("strtol(argv["@ + dec((v + 1) as nat) + "], &endptr, 10)"@),
        })
    &&& 0 <= v < system.inputs@.len() ==> {
        let x = system.inputs@[v];
        &&& extents(x.domain) is Ok
        &&& stands_before(all, array_alloc(x.name@, extents(x.domain)->Ok_0, true), c)
        &&& stands_after(all, array_frees(x.name@, levels(x.domain)), c)
    }
    &&& 0 <= v < system.outputs@.len() ==> {
        let x = system.outputs@[v];
        &&& extents(x.domain) is Ok
        &&& stands_before(all, array_alloc(x.name@, extents(x.domain)->Ok_0, false), c)
        &&& stands_after(all, array_frees(x.name@, levels(x.domain)), c)
    }
}

} // verus!
