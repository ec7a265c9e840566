//! Where a variable lives in memory and how it is indexed.
//!
//! Interface variables (the inputs and outputs of a system) are pointer chains that the caller
//! allocates: they are indexed directly by the equation's own index values. Flat variables (locals
//! and flags) are single allocations that the generated code sizes itself: they are indexed by the
//! row-major position of a point in the bounding box of the variable's domain.
use crate::simplec::CType;
use crate::text::{cat2, cat3, cat4, cat5, cat6, cat7, dec, dec_u32, join, joined, push_text, views};
use vstd::prelude::*;

verus! {

/// The bounding box of a domain: one C expression per dimension for its lowest and its highest
/// value.
pub struct FlatBounds {
    pub mins: Vec<String>,
    pub maxs: Vec<String>,
}

/// C arithmetic over named integers, as far as index computations need it.
pub enum Arith {
    Name(Seq<char>),
    /// `(a) - (b)`
    Diff(Box<Arith>, Box<Arith>),
    /// `(a) * (b)`
    Scaled(Box<Arith>, Box<Arith>),
    /// `a * b * ...`, and `1` for no factor.
    Product(Seq<Arith>),
    /// `a + b + ...`, and `0` for no term.
    Sum(Seq<Arith>),
}

/// The C text of an expression.
pub open spec fn arith_text(a: Arith) -> Seq<char>
    decreases a,
{
    match a {
        Arith::Name(s) => s,
        Arith::Diff(x, y) => "("@ + arith_text(*x) + ") - ("@ + arith_text(*y) + ")"@,
        Arith::Scaled(x, y) => "("@ + arith_text(*x) + ") * ("@ + arith_text(*y) + ")"@,
        Arith::Product(v) => if v.len() == 0 {
            "1"@
        } else {
            joined(arith_texts(v), " * "@)
        },
        Arith::Sum(v) => if v.len() == 0 {
            "0"@
        } else {
            joined(arith_texts(v), " + "@)
        },
    }
}

pub open spec fn arith_texts(v: Seq<Arith>) -> Seq<Seq<char>>
    decreases v,
{
    Seq::new(v.len(), |i: int| if 0 <= i < v.len() { arith_text(v[i]) } else { Seq::empty() })
}

/// The integer an expression stands for when `env` gives each name its value.
pub open spec fn arith_value(a: Arith, env: Map<Seq<char>, int>) -> int
    decreases a,
{
    match a {
        Arith::Name(s) => env[s],
        Arith::Diff(x, y) => arith_value(*x, env) - arith_value(*y, env),
        Arith::Scaled(x, y) => arith_value(*x, env) * arith_value(*y, env),
        Arith::Product(v) => product(arith_values(v, env)),
        Arith::Sum(v) => sum(arith_values(v, env)),
    }
}

pub open spec fn arith_values(v: Seq<Arith>, env: Map<Seq<char>, int>) -> Seq<int>
    decreases v,
{
    Seq::new(v.len(), |i: int| if 0 <= i < v.len() { arith_value(v[i], env) } else { 0 })
}

pub open spec fn product(v: Seq<int>) -> int
    decreases v.len(),
{
    if v.len() == 0 {
        1
    } else {
        v[0] * product(v.skip(1))
    }
}

pub open spec fn sum(v: Seq<int>) -> int
    decreases v.len(),
{
    if v.len() == 0 {
        0
    } else {
        v[0] + sum(v.skip(1))
    }
}

/// The global that holds the lowest value of dimension `d` of `name`.
pub open spec fn min_name(name: Seq<char>, d: nat) -> Seq<char> {
    name + "_min"@ + dec(d)
}

/// The global that holds the extent of dimension `d` of `name`.
pub open spec fn size_name(name: Seq<char>, d: nat) -> Seq<char> {
    name + "_size"@ + dec(d)
}

/// The product of the extents of dimensions `from` up to `to`.
pub open spec fn extent(name: Seq<char>, from: nat, to: nat) -> Arith {
    Arith::Product(
        Seq::new((to - from) as nat, |i: int| Arith::Name(size_name(name, (from + i) as nat))),
    )
}

/// The position of the point `idx` in the row-major order of the bounding box of `name`.
pub open spec fn row_major(name: Seq<char>, idx: Seq<Seq<char>>) -> Arith {
    Arith::Sum(Seq::new(idx.len(), |d: int| row_major_term(name, idx, d)))
}

pub open spec fn row_major_term(name: Seq<char>, idx: Seq<Seq<char>>, d: int) -> Arith {
    Arith::Scaled(
        Box::new(
            Arith::Diff(
                Box::new(Arith::Name(idx[d])),
                Box::new(Arith::Name(min_name(name, d as nat))),
            ),
        ),
        Box::new(extent(name, (d + 1) as nat, idx.len())),
    )
}

pub fn min_global(name: &str, d: u32) -> (r: String)
    ensures
        r@ == min_name(name@, d as nat),
{
    cat3(name, "_min", dec_u32(d).as_str())
}

pub fn size_global(name: &str, d: u32) -> (r: String)
    ensures
        r@ == size_name(name@, d as nat),
{
    cat3(name, "_size", dec_u32(d).as_str())
}

/// Dimension by dimension, the declaration of the minimum and that of the extent.
pub open spec fn size_decls(name: Seq<char>, ndims: nat) -> Seq<Seq<char>> {
    Seq::new(
        2 * ndims,
        |k: int|
            if k % 2 == 0 {
                "static long "@ + min_name(name, (k / 2) as nat) + ";"@
            } else {
                "static long "@ + size_name(name, (k / 2) as nat) + ";"@
            },
    )
}

/// The `static long` declarations of the per-dimension globals of a flat variable.
pub fn flat_size_decls(name: &str, ndims: u32) -> (r: Vec<String>)
    ensures
        views(r@) == size_decls(name@, ndims as nat),
{
    let mut out: Vec<String> = Vec::new();
    let mut d: u32 = 0;
    while d < ndims
        invariant
            d <= ndims,
            views(out@) =~= size_decls(name@, d as nat),
        decreases ndims - d,
    {
        push_text(&mut out, cat3("static long ", min_global(name, d).as_str(), ";"));
        push_text(&mut out, cat3("static long ", size_global(name, d).as_str(), ";"));
        d += 1;
    }
    out
}

/// Dimension by dimension, the assignment of the minimum and that of the extent, which is never
/// negative.
pub open spec fn size_inits(name: Seq<char>, mins: Seq<Seq<char>>, maxs: Seq<Seq<char>>, n: nat) -> Seq<
    Seq<char>,
> {
    Seq::new(
        2 * n,
        |k: int|
            if k % 2 == 0 {
                min_name(name, (k / 2) as nat) + " = "@ + mins[k / 2] + ";"@
            } else {
                size_name(name, (k / 2) as nat) + " = max(0, ("@ + maxs[k / 2] + ") - ("@ + min_name(
                    name,
                    (k / 2) as nat,
                ) + ") + 1);"@
            },
    )
}

/// The assignments that compute the per-dimension globals of a flat variable from its bounds.
pub fn flat_size_init_stmts(name: &str, bounds: &FlatBounds) -> (r: Vec<String>)
    requires
        bounds.mins.len() <= u32::MAX || bounds.maxs.len() <= u32::MAX,
    ensures
        views(r@) == size_inits(
            name@,
            views(bounds.mins@),
            views(bounds.maxs@),
            if bounds.mins@.len() <= bounds.maxs@.len() {
                bounds.mins@.len()
            } else {
                bounds.maxs@.len()
            },
        ),
{
    let n: usize = if bounds.mins.len() <= bounds.maxs.len() {
        bounds.mins.len()
    } else {
        bounds.maxs.len()
    };
    let mut out: Vec<String> = Vec::new();
    let mut i: usize = 0;
    while i < n
        invariant
            i <= n <= bounds.mins.len(),
            n <= bounds.maxs.len(),
            n <= u32::MAX,
            views(out@) =~= size_inits(name@, views(bounds.mins@), views(bounds.maxs@), i as nat),
        decreases n - i,
    {
        let d: u32 = i as u32;
        let min = min_global(name, d);
        push_text(&mut out, cat4(min.as_str(), " = ", bounds.mins[i].as_str(), ";"));
        push_text(
            &mut out,
            cat6(
                size_global(name, d).as_str(),
                " = max(0, (",
                bounds.maxs[i].as_str(),
                ") - (",
                min.as_str(),
                ") + 1);",
            ),
        );
        i += 1;
    }
    out
}

fn size_product(name: &str, from: u32, to: u32) -> (r: String)
    requires
        from <= to,
    ensures
        r@ == arith_text(extent(name@, from as nat, to as nat)),
{
    let ghost factors = Seq::new(
        (to - from) as nat,
        |i: int| Arith::Name(size_name(name@, (from + i) as nat)),
    );
    if from == to {
        return "1".to_owned();
    }
    let mut out: Vec<String> = Vec::new();
    let mut d: u32 = from;
    while d < to
        invariant
            from <= d <= to,
            factors == Seq::new(
                (to - from) as nat,
                |i: int| Arith::Name(size_name(name@, (from + i) as nat)),
            ),
            views(out@) =~= arith_texts(factors).take(d - from),
        decreases to - d,
    {
        push_text(&mut out, size_global(name, d));
        d += 1;
    }
    proof {
        assert(arith_texts(factors).take(to - from) =~= arith_texts(factors));
    }
    join(&out, " * ")
}

/// The number of cells of a flat variable.
pub fn flat_total_size_expr(name: &str, ndims: u32) -> (r: String)
    ensures
        r@ == arith_text(extent(name@, 0, ndims as nat)),
{
    size_product(name, 0, ndims)
}

/// The row-major position of the point whose coordinates are the C expressions `idx`.
pub fn flat_index_expr(name: &str, idx: &Vec<String>) -> (r: String)
    requires
        idx.len() <= u32::MAX,
    ensures
        r@ == arith_text(row_major(name@, views(idx@))),
{
    let ndims: u32 = idx.len() as u32;
    let ghost terms = Seq::new(idx@.len(), |d: int| row_major_term(name@, views(idx@), d));
    if ndims == 0 {
        return "0".to_owned();
    }
    let mut out: Vec<String> = Vec::new();
    let mut d: u32 = 0;
    while d < ndims
        invariant
            d <= ndims,
            ndims == idx.len(),
            terms == Seq::new(idx@.len(), |d: int| row_major_term(name@, views(idx@), d)),
            views(out@) =~= arith_texts(terms).take(d as int),
        decreases ndims - d,
    {
        let stride = size_product(name, d + 1, ndims);
        let offset = cat5("(", idx[d as usize].as_str(), ") - (", min_global(name, d).as_str(), ")");
        push_text(&mut out, cat5("(", offset.as_str(), ") * (", stride.as_str(), ")"));
        proof {
            let at = Arith::Name(views(idx@)[d as int]);
            let low = Arith::Name(min_name(name@, d as nat));
            assert(arith_text(at) == idx@[d as int]@);
            assert(arith_text(low) == min_name(name@, d as nat));
            assert(arith_text(Arith::Diff(Box::new(at), Box::new(low))) == offset@);
            assert(arith_text(terms[d as int]) == arith_texts(terms)[d as int]);
        }
        d += 1;
    }
    proof {
        assert(arith_texts(terms).take(ndims as int) =~= arith_texts(terms));
    }
    join(&out, " + ")
}

/// `i0`, `i1`, and so on.
pub open spec fn macro_params(ndims: nat) -> Seq<Seq<char>> {
    Seq::new(ndims, |d: int| "i"@ + dec(d as nat))
}

fn param_list(ndims: u32) -> (r: Vec<String>)
    ensures
        views(r@) == macro_params(ndims as nat),
{
    let mut out: Vec<String> = Vec::new();
    let mut d: u32 = 0;
    while d < ndims
        invariant
            d <= ndims,
            views(out@) =~= macro_params(d as nat),
        decreases ndims - d,
    {
        push_text(&mut out, cat2("i", dec_u32(d).as_str()));
        d += 1;
    }
    out
}

/// `#define NAME(i0,i1,...) NAME[<row-major position>]` for a flat variable.
pub fn flat_access_macro(name: &str, ndims: u32) -> (r: String)
    ensures
        r@ == "#define "@ + name@ + "("@ + joined(macro_params(ndims as nat), ","@) + ") "@ + name@ + "["@
            + arith_text(row_major(name@, macro_params(ndims as nat))) + "]"@,
{
    let params = param_list(ndims);
    let idx = flat_index_expr(name, &params);
    let mut s = cat7("#define ", name, "(", join(&params, ",").as_str(), ") ", name, "[");
    s.append(idx.as_str());
    s.append("]");
    s
}

/// `[p]` for each parameter, one after another.
pub open spec fn subscripts(params: Seq<Seq<char>>) -> Seq<char>
    decreases params.len(),
{
    if params.len() == 0 {
        Seq::empty()
    } else {
        subscripts(params.drop_last()) + "["@ + params.last() + "]"@
    }
}

/// What an interface variable of `ndims` dimensions is indexed by: a 0-dimensional one is the
/// single cell its pointer points at.
pub open spec fn interface_subscripts(ndims: nat) -> Seq<char> {
    if ndims == 0 {
        "[0]"@
    } else {
        subscripts(macro_params(ndims))
    }
}

/// `#define NAME(i0,i1,...) NAME[i0][i1]...` for an interface variable.
pub fn interface_access_macro(name: &str, ndims: u32) -> (r: String)
    ensures
        r@ == "#define "@ + name@ + "("@ + joined(macro_params(ndims as nat), ","@) + ") "@ + name@
            + interface_subscripts(ndims as nat),
{
    let params = param_list(ndims);
    let chain = if ndims == 0 {
        "[0]".to_owned()
    } else {
        let mut chain = String::new();
        let mut d: usize = 0;
        proof {
            assert(views(params@).take(0) =~= Seq::empty());
        }
        while d < params.len()
            invariant
                d <= params.len(),
                chain@ == subscripts(views(params@).take(d as int)),
            decreases params.len() - d,
        {
            proof {
                assert(views(params@).take(d + 1).drop_last() =~= views(params@).take(d as int));
            }
            chain.append("[");
            chain.append(params[d].as_str());
            chain.append("]");
            d += 1;
        }
        proof {
            assert(views(params@).take(d as int) =~= views(params@));
        }
        chain
    };
    let list = join(&params, ",");
    cat7("#define ", name, "(", list.as_str(), ") ", name, chain.as_str())
}

/// The C type of an interface variable: at least one pointer level, one per dimension.
pub fn interface_ctype(elem: CType, ndims: u32) -> (r: CType)
    ensures
        r == CType::Ptr(Box::new(elem), if ndims == 0 { 1 } else { ndims }),
{
    CType::ptr(elem, if ndims == 0 { 1 } else { ndims })
}

/// A point lies in the box with the given lowest values and extents.
pub open spec fn in_box(point: Seq<int>, mins: Seq<int>, sizes: Seq<int>) -> bool {
    &&& point.len() == mins.len() == sizes.len()
    &&& forall|d: int| 0 <= d < point.len() ==> mins[d] <= #[trigger] point[d] < mins[d] + sizes[d]
}

/// The row-major position of a point of the box.
pub open spec fn position(point: Seq<int>, mins: Seq<int>, sizes: Seq<int>) -> int
    decreases point.len(),
{
    if point.len() == 0 {
        0
    } else {
        (point[0] - mins[0]) * product(sizes.skip(1)) + position(
            point.skip(1),
            mins.skip(1),
            sizes.skip(1),
        )
    }
}

/// `env` gives the names of a flat variable's globals and index expressions the values of a box and
/// of a point.
pub open spec fn describes(
    env: Map<Seq<char>, int>,
    name: Seq<char>,
    idx: Seq<Seq<char>>,
    point: Seq<int>,
    mins: Seq<int>,
    sizes: Seq<int>,
) -> bool {
    &&& idx.len() == point.len() == mins.len() == sizes.len()
    &&& forall|d: int| 0 <= d < idx.len() ==> env[#[trigger] idx[d]] == point[d]
    &&& forall|d: int|
        0 <= d < idx.len() ==> env[min_name(name, d as nat)] == #[trigger] mins[d]
    &&& forall|d: int|
        0 <= d < idx.len() ==> env[size_name(name, d as nat)] == #[trigger] sizes[d]
}

/// The emitted total is the product of the extents.
pub proof fn total_size_is_product(
    env: Map<Seq<char>, int>,
    name: Seq<char>,
    idx: Seq<Seq<char>>,
    point: Seq<int>,
    mins: Seq<int>,
    sizes: Seq<int>,
)
    requires
        describes(env, name, idx, point, mins, sizes),
    ensures
        arith_value(extent(name, 0, idx.len()), env) == product(sizes),
{
    lemma_extent_value(env, name, idx, point, mins, sizes, 0);
    assert(sizes.skip(0) =~= sizes);
}

proof fn lemma_extent_value(
    env: Map<Seq<char>, int>,
    name: Seq<char>,
    idx: Seq<Seq<char>>,
    point: Seq<int>,
    mins: Seq<int>,
    sizes: Seq<int>,
    from: nat,
)
    requires
        describes(env, name, idx, point, mins, sizes),
        from <= idx.len(),
    ensures
        arith_value(extent(name, from, idx.len()), env) == product(sizes.skip(from as int)),
{
    let factors = Seq::new(
        (idx.len() - from) as nat,
        |i: int| Arith::Name(size_name(name, (from + i) as nat)),
    );
    assert forall|i: int| 0 <= i < factors.len() implies #[trigger] arith_values(factors, env)[i]
        == sizes.skip(from as int)[i] by {
        assert(factors[i] == Arith::Name(size_name(name, (from + i) as nat)));
        assert(sizes[from + i] == env[size_name(name, (from + i) as nat)]);
    }
    assert(arith_values(factors, env) =~= sizes.skip(from as int));
}

/// The emitted index is the row-major position of the point.
pub proof fn flat_index_is_position(
    env: Map<Seq<char>, int>,
    name: Seq<char>,
    idx: Seq<Seq<char>>,
    point: Seq<int>,
    mins: Seq<int>,
    sizes: Seq<int>,
)
    requires
        describes(env, name, idx, point, mins, sizes),
    ensures
        arith_value(row_major(name, idx), env) == position(point, mins, sizes),
{
    let terms = Seq::new(idx.len(), |d: int| row_major_term(name, idx, d));
    lemma_tail_position(env, name, idx, point, mins, sizes, 0);
    assert(arith_values(terms, env).skip(0) =~= arith_values(terms, env));
    assert(point.skip(0) =~= point);
    assert(mins.skip(0) =~= mins);
    assert(sizes.skip(0) =~= sizes);
}

proof fn lemma_tail_position(
    env: Map<Seq<char>, int>,
    name: Seq<char>,
    idx: Seq<Seq<char>>,
    point: Seq<int>,
    mins: Seq<int>,
    sizes: Seq<int>,
    from: nat,
)
    requires
        describes(env, name, idx, point, mins, sizes),
        from <= idx.len(),
    ensures
        sum(
            arith_values(Seq::new(idx.len(), |d: int| row_major_term(name, idx, d)), env).skip(
                from as int,
            ),
        ) == position(point.skip(from as int), mins.skip(from as int), sizes.skip(from as int)),
    decreases idx.len() - from,
{
    let terms = Seq::new(idx.len(), |d: int| row_major_term(name, idx, d));
    let values = arith_values(terms, env);
    let f = from as int;
    if from < idx.len() {
        lemma_tail_position(env, name, idx, point, mins, sizes, from + 1);
        lemma_extent_value(env, name, idx, point, mins, sizes, from + 1);
        let min = Arith::Name(min_name(name, from));
        let diff = Arith::Diff(Box::new(Arith::Name(idx[f])), Box::new(min));
        assert(terms[f] == row_major_term(name, idx, f));
        assert(mins[f] == env[min_name(name, from)]);
        assert(arith_value(Arith::Name(idx[f]), env) == point[f]);
        assert(arith_value(min, env) == mins[f]);
        assert(arith_value(diff, env) == point[f] - mins[f]);
        assert(values[f] == (point[f] - mins[f]) * product(sizes.skip(f + 1)));
        assert(values.skip(f).skip(1) =~= values.skip(f + 1));
        assert(point.skip(f).skip(1) =~= point.skip(f + 1));
        assert(mins.skip(f).skip(1) =~= mins.skip(f + 1));
        assert(sizes.skip(f).skip(1) =~= sizes.skip(f + 1));
    }
}

/// A point of the box has a position inside the allocation.
pub proof fn position_in_allocation(point: Seq<int>, mins: Seq<int>, sizes: Seq<int>)
    requires
        in_box(point, mins, sizes),
    ensures
        0 <= position(point, mins, sizes) < product(sizes),
    decreases point.len(),
{
    if point.len() > 0 {
        let rest = product(sizes.skip(1));
        assert forall|d: int| 0 <= d < point.skip(1).len() implies mins.skip(1)[d]
            <= #[trigger] point.skip(1)[d] < mins.skip(1)[d] + sizes.skip(1)[d] by {
            assert(point.skip(1)[d] == point[d + 1]);
        }
        position_in_allocation(point.skip(1), mins.skip(1), sizes.skip(1));
        let a = point[0] - mins[0];
        let s = sizes[0];
        assert(0 <= a < s);
        assert(0 <= a * rest && a * rest + rest <= s * rest) by (nonlinear_arith)
            requires
                0 <= a < s,
                rest > 0,
        ;
    }
}

proof fn lemma_product_not_negative(sizes: Seq<int>)
    requires
        forall|d: int| 0 <= d < sizes.len() ==> #[trigger] sizes[d] >= 0,
    ensures
        product(sizes) >= 0,
    decreases sizes.len(),
{
    if sizes.len() > 0 {
        assert forall|d: int| 0 <= d < sizes.skip(1).len() implies #[trigger] sizes.skip(1)[d] >= 0 by {
            assert(sizes.skip(1)[d] == sizes[d + 1]);
        }
        lemma_product_not_negative(sizes.skip(1));
        let rest = product(sizes.skip(1));
        let first = sizes[0];
        assert(first * rest >= 0) by (nonlinear_arith)
            requires
                first >= 0,
                rest >= 0,
        ;
    }
}

/// The point of the box that has a cell.
pub open spec fn cell_point(cell: int, mins: Seq<int>, sizes: Seq<int>) -> Seq<int>
    decreases sizes.len(),
{
    if sizes.len() == 0 {
        Seq::empty()
    } else {
        let rest = product(sizes.skip(1));
        seq![mins[0] + cell / rest] + cell_point(cell % rest, mins.skip(1), sizes.skip(1))
    }
}

/// Every cell of the allocation is taken by a point of the box. With
/// [`position_in_allocation`] and [`position_is_injective`], each is taken exactly once.
pub proof fn every_cell_is_taken(cell: int, mins: Seq<int>, sizes: Seq<int>)
    requires
        mins.len() == sizes.len(),
        forall|d: int| 0 <= d < sizes.len() ==> #[trigger] sizes[d] >= 0,
        0 <= cell < product(sizes),
    ensures
        in_box(cell_point(cell, mins, sizes), mins, sizes),
        position(cell_point(cell, mins, sizes), mins, sizes) == cell,
    decreases sizes.len(),
{
    if sizes.len() > 0 {
        let rest = product(sizes.skip(1));
        let first = sizes[0];
        assert forall|d: int| 0 <= d < sizes.skip(1).len() implies #[trigger] sizes.skip(1)[d] >= 0 by {
            assert(sizes.skip(1)[d] == sizes[d + 1]);
        }
        lemma_product_not_negative(sizes.skip(1));
        assert(rest > 0) by (nonlinear_arith)
            requires
                0 <= cell < first * rest,
                rest >= 0,
        ;
        let q = cell / rest;
        let m = cell % rest;
        assert(cell == q * rest + m && 0 <= m < rest) by (nonlinear_arith)
            requires
                rest > 0,
                q == cell / rest,
                m == cell % rest,
        ;
        assert(0 <= q < first) by (nonlinear_arith)
            requires
                cell == q * rest + m,
                0 <= m < rest,
                0 <= cell < first * rest,
        ;
        every_cell_is_taken(m, mins.skip(1), sizes.skip(1));
        let tail = cell_point(m, mins.skip(1), sizes.skip(1));
        let p = cell_point(cell, mins, sizes);
        assert(p.skip(1) =~= tail);
        assert(p[0] == mins[0] + q);
        assert forall|d: int| 0 <= d < p.len() implies mins[d] <= #[trigger] p[d] < mins[d] + sizes[d] by {
            if d > 0 {
                assert(p[d] == tail[d - 1]);
                assert(mins.skip(1)[d - 1] == mins[d] && sizes.skip(1)[d - 1] == sizes[d]);
            }
        }
    }
}

/// Two points of the box share a cell only where they are the same point.
pub proof fn position_is_injective(p: Seq<int>, q: Seq<int>, mins: Seq<int>, sizes: Seq<int>)
    requires
        in_box(p, mins, sizes),
        in_box(q, mins, sizes),
        position(p, mins, sizes) == position(q, mins, sizes),
    ensures
        p == q,
    decreases p.len(),
{
    if p.len() > 0 {
        let rest = product(sizes.skip(1));
        assert forall|d: int| 0 <= d < p.skip(1).len() implies mins.skip(1)[d] <= #[trigger] p.skip(
            1,
        )[d] < mins.skip(1)[d] + sizes.skip(1)[d] by {
            assert(p.skip(1)[d] == p[d + 1]);
        }
        assert forall|d: int| 0 <= d < q.skip(1).len() implies mins.skip(1)[d] <= #[trigger] q.skip(
            1,
        )[d] < mins.skip(1)[d] + sizes.skip(1)[d] by {
            assert(q.skip(1)[d] == q[d + 1]);
        }
        position_in_allocation(p.skip(1), mins.skip(1), sizes.skip(1));
        position_in_allocation(q.skip(1), mins.skip(1), sizes.skip(1));
        let a = p[0] - mins[0];
        let b = q[0] - mins[0];
        let x = position(p.skip(1), mins.skip(1), sizes.skip(1));
        let y = position(q.skip(1), mins.skip(1), sizes.skip(1));
        assert(a == b) by (nonlinear_arith)
            requires
                a * rest + x == b * rest + y,
                0 <= x < rest,
                0 <= y < rest,
        ;
        position_is_injective(p.skip(1), q.skip(1), mins.skip(1), sizes.skip(1));
        assert forall|d: int| 0 <= d < p.len() implies p[d] == q[d] by {
            if d > 0 {
                assert(p.skip(1)[d - 1] == q.skip(1)[d - 1]);
            }
        }
    }
    assert(p =~= q);
}

} // verus!
