//! What the index and validity expressions of a shape tracker compute.
//!
//! A logical index is a number written in mixed radix: its digits are the
//! coordinates along the shown axes, the radices their logical sizes. The
//! laws below say that the index expression evaluates to the memory offset
//! of these coordinates, and the validity expression to 1 exactly where
//! every coordinate lies in the stored part of its axis.

use crate::indexing::INDEX_VAR;
use crate::simplify::lemma_minimized_sound;
use crate::symbolic::{
    lemma_trunc_div_cases, lemma_trunc_rem_cases, truth, Expression, Op,
};
use crate::tracker::Layout;
use vstd::prelude::*;

verus! {

/// The value of `e` under `env`, where it has one.
pub open spec fn value(e: Expression, env: Map<char, int>) -> int {
    e.eval(env)->Some_0
}

/// Whether every size, cut and padding of the layout has a value under
/// `env`.
pub open spec fn is_readable(s: Layout, env: Map<char, int>) -> bool {
    forall|p: int|
        0 <= p < s.dims.len() ==> (#[trigger] s.dims[p]).eval(env) is Some && s.padding[p].0.eval(env)
            is Some && s.padding[p].1.eval(env) is Some && s.slices[p].0.eval(env) is Some
            && s.slices[p].1.eval(env) is Some
}

/// The logical size of the axis shown at position `k`.
pub open spec fn extent_at(s: Layout, env: Map<char, int>, k: int) -> int {
    let p = s.indexes[k] as int;
    let padded = value(s.dims[p], env) + value(s.padding[p].0, env) + value(s.padding[p].1, env);
    let high = value(s.slices[p].1, env);
    (if padded <= high {
        padded
    } else {
        high
    }) - value(s.slices[p].0, env)
}

/// The product of the logical sizes at the positions `k` and after.
pub open spec fn span_at(s: Layout, env: Map<char, int>, k: int) -> int
    decreases s.dims.len() - k,
{
    if k >= s.dims.len() {
        1
    } else {
        span_at(s, env, k + 1) * extent_at(s, env, k)
    }
}

/// The memory stride of physical axis `p`.
pub open spec fn stride_at(s: Layout, env: Map<char, int>, p: int) -> int
    decreases s.dims.len() - p,
{
    if p + 1 >= s.dims.len() {
        1
    } else if s.fake[p + 1] {
        stride_at(s, env, p + 1)
    } else {
        stride_at(s, env, p + 1) * value(s.dims[p + 1], env)
    }
}

/// Whether `c` holds one coordinate for each shown axis, each within the
/// logical size of its axis.
pub open spec fn are_coordinates(s: Layout, env: Map<char, int>, c: Seq<int>) -> bool {
    &&& c.len() == s.len()
    &&& forall|k: int| 0 <= k < c.len() ==> 0 <= (#[trigger] c[k]) < extent_at(s, env, k)
}

/// The part of the logical index that the coordinates at the positions
/// `k` and after make up.
pub open spec fn tail_index(s: Layout, env: Map<char, int>, c: Seq<int>, k: int) -> int
    decreases s.dims.len() - k,
{
    if k >= s.dims.len() {
        0
    } else {
        c[k] * span_at(s, env, k + 1) + tail_index(s, env, c, k + 1)
    }
}

/// The logical index of the coordinates `c`.
pub open spec fn logical_index(s: Layout, env: Map<char, int>, c: Seq<int>) -> int {
    tail_index(s, env, c, 0)
}

/// The number that the coordinates before position `k` make up.
pub open spec fn head_index(s: Layout, env: Map<char, int>, c: Seq<int>, k: int) -> int
    decreases k,
{
    if k <= 0 {
        0
    } else {
        head_index(s, env, c, k - 1) * extent_at(s, env, k - 1) + c[k - 1]
    }
}

/// What the axis shown at position `k` adds to the memory offset of the
/// coordinates `c`: nothing for a fake axis, else
/// `(coordinate - before + (low - min(before, low))) * stride`.
pub open spec fn offset_part(s: Layout, env: Map<char, int>, c: Seq<int>, k: int) -> int {
    let p = s.indexes[k] as int;
    let before = value(s.padding[p].0, env);
    let low = value(s.slices[p].0, env);
    if s.fake[p] {
        0
    } else {
        (c[k] - before + (low - if before <= low {
            before
        } else {
            low
        })) * stride_at(s, env, p)
    }
}

/// The memory offset that the coordinates at the positions `k` and after
/// make up.
pub open spec fn offset_from(s: Layout, env: Map<char, int>, c: Seq<int>, k: int) -> int
    decreases s.dims.len() - k,
{
    if k >= s.dims.len() {
        0
    } else {
        offset_from(s, env, c, k + 1) + offset_part(s, env, c, k)
    }
}

/// Whether the coordinate at position `k` lies in the stored part of its
/// axis: always so for a fake axis, else
/// `before - min(low, before) <= coordinate < min(dim + before, high)`.
pub open spec fn is_stored(s: Layout, env: Map<char, int>, c: Seq<int>, k: int) -> bool {
    let p = s.indexes[k] as int;
    let before = value(s.padding[p].0, env);
    let low = value(s.slices[p].0, env);
    let high = value(s.slices[p].1, env);
    let end = value(s.dims[p], env) + before;
    s.fake[p] || (c[k] >= before - (if low <= before {
        low
    } else {
        before
    }) && c[k] < (if end <= high {
        end
    } else {
        high
    }))
}

/// Whether every coordinate at the positions `k` and after is stored.
pub open spec fn all_stored(s: Layout, env: Map<char, int>, c: Seq<int>, k: int) -> bool
    decreases s.dims.len() - k,
{
    if k >= s.dims.len() {
        true
    } else {
        all_stored(s, env, c, k + 1) && is_stored(s, env, c, k)
    }
}

/// The value of a node whose operands have values.
pub proof fn lemma_node_value(op: Op, l: Expression, r: Expression, env: Map<char, int>)
    requires
        l.eval(env) is Some,
        r.eval(env) is Some,
    ensures
        Expression::spec_binary(op, l, r).eval(env) == op.apply(value(l, env), value(r, env)),
{
}

/// The logical size of a shown axis is the value of its extent.
pub proof fn lemma_extent_value(s: Layout, env: Map<char, int>, k: int)
    requires
        s.wf(),
        is_readable(s, env),
        0 <= k < s.len(),
    ensures
        s.extent(s.indexes[k] as int).eval(env) == Some(extent_at(s, env, k)),
{
    let p = s.indexes[k] as int;
    assert(s.dims[p].eval(env) is Some);
    let sum1 = Expression::spec_binary(Op::Add, s.dims[p], s.padding[p].0);
    lemma_node_value(Op::Add, s.dims[p], s.padding[p].0, env);
    let sum2 = Expression::spec_binary(Op::Add, sum1, s.padding[p].1);
    lemma_node_value(Op::Add, sum1, s.padding[p].1, env);
    let least = Expression::spec_binary(Op::Min, sum2, s.slices[p].1);
    lemma_node_value(Op::Min, sum2, s.slices[p].1, env);
    lemma_node_value(Op::Sub, least, s.slices[p].0, env);
}

/// The spans are positive, and the span expression has the span as its
/// value.
pub proof fn lemma_span_value(s: Layout, env: Map<char, int>, c: Seq<int>, k: int)
    requires
        s.wf(),
        is_readable(s, env),
        are_coordinates(s, env, c),
        0 <= k <= s.len(),
    ensures
        span_at(s, env, k) > 0,
        s.span_after(k).eval(env) == Some(span_at(s, env, k)),
    decreases s.dims.len() - k,
{
    if k < s.dims.len() {
        lemma_span_value(s, env, c, k + 1);
        lemma_extent_value(s, env, k);
        assert(0 <= c[k] < extent_at(s, env, k));
        lemma_node_value(Op::Mul, s.span_after(k + 1), s.extent(s.indexes[k] as int), env);
        assert(span_at(s, env, k + 1) * extent_at(s, env, k) > 0) by (nonlinear_arith)
            requires
                span_at(s, env, k + 1) > 0,
                extent_at(s, env, k) > 0,
        ;
    }
}

/// The stride expression has the stride as its value.
pub proof fn lemma_stride_value(s: Layout, env: Map<char, int>, p: int)
    requires
        s.wf(),
        is_readable(s, env),
        0 <= p < s.len(),
    ensures
        s.raw_stride(p).eval(env) == Some(stride_at(s, env, p)),
    decreases s.dims.len() - p,
{
    if p + 1 < s.dims.len() {
        lemma_stride_value(s, env, p + 1);
        if !s.fake[p + 1] {
            assert(s.dims[p + 1].eval(env) is Some);
            lemma_node_value(Op::Mul, s.raw_stride(p + 1), s.dims[p + 1], env);
        }
    }
}

/// The coordinates from a position on make up a number below the span
/// of that position.
pub proof fn lemma_tail_below_span(s: Layout, env: Map<char, int>, c: Seq<int>, k: int)
    requires
        s.wf(),
        is_readable(s, env),
        are_coordinates(s, env, c),
        0 <= k <= s.len(),
    ensures
        0 <= tail_index(s, env, c, k) < span_at(s, env, k),
    decreases s.dims.len() - k,
{
    if k < s.dims.len() {
        lemma_tail_below_span(s, env, c, k + 1);
        lemma_span_value(s, env, c, k + 1);
        let span = span_at(s, env, k + 1);
        let e = extent_at(s, env, k);
        let d = c[k];
        let t = tail_index(s, env, c, k + 1);
        assert(0 <= d < e);
        assert(0 <= d * span + t < span * e) by (nonlinear_arith)
            requires
                0 <= d < e,
                0 <= t < span,
        ;
    }
}

/// The logical index is the number before a position, times the span of
/// the position, plus the number from the position on.
pub proof fn lemma_index_split(s: Layout, env: Map<char, int>, c: Seq<int>, k: int)
    requires
        s.wf(),
        is_readable(s, env),
        are_coordinates(s, env, c),
        0 <= k <= s.len(),
    ensures
        logical_index(s, env, c) == head_index(s, env, c, k) * span_at(s, env, k) + tail_index(
            s,
            env,
            c,
            k,
        ),
        0 <= head_index(s, env, c, k),
    decreases k,
{
    if k > 0 {
        lemma_index_split(s, env, c, k - 1);
        let h = head_index(s, env, c, k - 1);
        let e = extent_at(s, env, k - 1);
        let d = c[k - 1];
        let span = span_at(s, env, k);
        let t = tail_index(s, env, c, k);
        assert(0 <= d < e);
        assert((h * e + d) * span + t == h * (span * e) + (d * span + t)) by (nonlinear_arith);
        assert(0 <= h * e + d) by (nonlinear_arith)
            requires
                0 <= h,
                0 <= d < e,
        ;
    } else {
        assert(head_index(s, env, c, 0) * span_at(s, env, 0) == 0) by (nonlinear_arith)
            requires
                head_index(s, env, c, 0) == 0,
        ;
    }
}

/// The coordinate expression of a position evaluates to the coordinate.
pub proof fn lemma_coordinate_value(s: Layout, env: Map<char, int>, c: Seq<int>, k: int)
    requires
        s.wf(),
        is_readable(s, env),
        are_coordinates(s, env, c),
        env.contains_key(INDEX_VAR),
        env[INDEX_VAR] == logical_index(s, env, c),
        0 <= k < s.len(),
    ensures
        s.coordinate(k).eval(env) == Some(c[k]),
{
    let z = logical_index(s, env, c);
    let span = span_at(s, env, k + 1);
    let e = extent_at(s, env, k);
    let h = head_index(s, env, c, k + 1);
    let t = tail_index(s, env, c, k + 1);
    lemma_span_value(s, env, c, k + 1);
    lemma_extent_value(s, env, k);
    lemma_index_split(s, env, c, k + 1);
    lemma_index_split(s, env, c, k);
    lemma_tail_below_span(s, env, c, k + 1);
    assert(0 <= c[k] < e);
    // z / span is the number before position k + 1.
    assert(z == span * h + t) by (nonlinear_arith)
        requires
            z == h * span + t,
    ;
    vstd::arithmetic::div_mod::lemma_fundamental_div_mod_converse(z, span, h, t);
    assert(z >= 0) by (nonlinear_arith)
        requires
            z == h * span + t,
            h >= 0,
            span > 0,
            t >= 0,
    ;
    lemma_trunc_div_cases(z, span);
    // Its last digit is the coordinate.
    let before = head_index(s, env, c, k);
    assert(h == e * before + c[k]) by (nonlinear_arith)
        requires
            h == before * e + c[k],
    ;
    vstd::arithmetic::div_mod::lemma_fundamental_div_mod_converse(h, e, before, c[k]);
    lemma_trunc_rem_cases(h, e);
    let index = Expression::Var(INDEX_VAR);
    let quotient = Expression::spec_binary(Op::Div, index, s.span_after(k + 1));
    lemma_node_value(Op::Div, index, s.span_after(k + 1), env);
    assert(quotient.eval(env) == Some(h));
    lemma_node_value(Op::Mod, quotient, s.extent(s.indexes[k] as int), env);
}

/// The sum of offset terms has the memory offset as its value.
pub proof fn lemma_offset_sum_value(s: Layout, env: Map<char, int>, c: Seq<int>, k: int)
    requires
        s.wf(),
        is_readable(s, env),
        are_coordinates(s, env, c),
        env.contains_key(INDEX_VAR),
        env[INDEX_VAR] == logical_index(s, env, c),
        0 <= k <= s.len(),
    ensures
        s.offset_sum(k).eval(env) == Some(offset_from(s, env, c, k)),
    decreases s.dims.len() - k,
{
    if k < s.dims.len() {
        lemma_offset_sum_value(s, env, c, k + 1);
        let p = s.indexes[k] as int;
        if !s.fake[p] {
            assert(s.dims[p].eval(env) is Some);
            lemma_coordinate_value(s, env, c, k);
            lemma_stride_value(s, env, p);
            let before = s.padding[p].0;
            let low = s.slices[p].0;
            let lead = Expression::spec_binary(Op::Sub, s.coordinate(k), before);
            let least = Expression::spec_binary(Op::Min, before, low);
            let shift = Expression::spec_binary(Op::Sub, low, least);
            let place = Expression::spec_binary(Op::Add, lead, shift);
            lemma_node_value(Op::Sub, s.coordinate(k), before, env);
            lemma_node_value(Op::Min, before, low, env);
            lemma_node_value(Op::Sub, low, least, env);
            lemma_node_value(Op::Add, lead, shift, env);
            lemma_node_value(Op::Mul, place, s.raw_stride(p), env);
            assert(s.offset_term(k) == Expression::spec_binary(Op::Mul, place, s.raw_stride(p)));
            lemma_node_value(Op::Add, s.offset_sum(k + 1), s.offset_term(k), env);
        }
    }
}

/// The conjunction of axis tests is 1 where every coordinate is stored,
/// else 0.
pub proof fn lemma_valid_chain_value(s: Layout, env: Map<char, int>, c: Seq<int>, k: int)
    requires
        s.wf(),
        is_readable(s, env),
        are_coordinates(s, env, c),
        env.contains_key(INDEX_VAR),
        env[INDEX_VAR] == logical_index(s, env, c),
        0 <= k <= s.len(),
    ensures
        s.valid_chain(k).eval(env) == Some(truth(all_stored(s, env, c, k))),
    decreases s.dims.len() - k,
{
    if k < s.dims.len() {
        lemma_valid_chain_value(s, env, c, k + 1);
        let p = s.indexes[k] as int;
        if !s.fake[p] {
            assert(s.dims[p].eval(env) is Some);
            lemma_coordinate_value(s, env, c, k);
            let before = s.padding[p].0;
            let low = s.slices[p].0;
            let high = s.slices[p].1;
            let least = Expression::spec_binary(Op::Min, low, before);
            let floor = Expression::spec_binary(Op::Sub, before, least);
            lemma_node_value(Op::Min, low, before, env);
            lemma_node_value(Op::Sub, before, least, env);
            lemma_node_value(Op::Gte, s.coordinate(k), floor, env);
            let end = Expression::spec_binary(Op::Add, s.dims[p], before);
            let roof = Expression::spec_binary(Op::Min, end, high);
            lemma_node_value(Op::Add, s.dims[p], before, env);
            lemma_node_value(Op::Min, end, high, env);
            lemma_node_value(Op::Lt, s.coordinate(k), roof, env);
            assert(s.lower_test(k) == Expression::spec_binary(Op::Gte, s.coordinate(k), floor));
            assert(s.upper_test(k) == Expression::spec_binary(Op::Lt, s.coordinate(k), roof));
            let both = Expression::spec_binary(Op::And, s.valid_chain(k + 1), s.lower_test(k));
            lemma_node_value(Op::And, s.valid_chain(k + 1), s.lower_test(k), env);
            lemma_node_value(Op::And, both, s.upper_test(k), env);
        }
    }
}

/// The index expression maps a logical index to memory: where the
/// tracker is not plain, its value at the logical index of the
/// coordinates `c` is the memory offset of `c`; where it is plain, it is
/// the logical index itself.
pub proof fn lemma_index_expression_value(s: Layout, env: Map<char, int>, c: Seq<int>)
    requires
        s.wf(),
        is_readable(s, env),
        are_coordinates(s, env, c),
        env.contains_key(INDEX_VAR),
        env[INDEX_VAR] == logical_index(s, env, c),
    ensures
        s.index_expression().eval(env) == Some(
            if s.is_plain() {
                logical_index(s, env, c)
            } else {
                offset_from(s, env, c, 0)
            },
        ),
{
    if !s.is_plain() {
        lemma_offset_sum_value(s, env, c, 0);
        lemma_minimized_sound(s.offset_sum(0), env);
    }
}

/// The validity expression is 1 exactly where the logical index names a
/// stored element: where the tracker is not plain, its value at the
/// logical index of the coordinates `c` is 1 if every coordinate lies in
/// the stored part of its axis, and 0 if not.
pub proof fn lemma_valid_expression_value(s: Layout, env: Map<char, int>, c: Seq<int>)
    requires
        s.wf(),
        is_readable(s, env),
        are_coordinates(s, env, c),
        env.contains_key(INDEX_VAR),
        env[INDEX_VAR] == logical_index(s, env, c),
    ensures
        s.valid_expression().eval(env) == Some(
            if s.is_plain() {
                1
            } else {
                truth(all_stored(s, env, c, 0))
            },
        ),
{
    if !s.is_plain() {
        lemma_valid_chain_value(s, env, c, 0);
        lemma_minimized_sound(s.valid_chain(0), env);
    }
}


/// The coordinate along a fake axis adds nothing to the memory offset:
/// coordinates that differ only along a fake axis have one offset.
pub proof fn lemma_fake_coordinate_adds_nothing(
    s: Layout,
    env: Map<char, int>,
    c1: Seq<int>,
    c2: Seq<int>,
    k: int,
)
    requires
        s.wf(),
        0 <= k < s.len(),
        s.fake[s.indexes[k] as int],
        c1.len() == s.len(),
        c2.len() == s.len(),
        forall|j: int| 0 <= j < s.len() && j != k ==> c1[j] == c2[j],
    ensures
        offset_from(s, env, c1, 0) == offset_from(s, env, c2, 0),
{
    lemma_offsets_agree(s, env, c1, c2, k, 0);
}

proof fn lemma_offsets_agree(
    s: Layout,
    env: Map<char, int>,
    c1: Seq<int>,
    c2: Seq<int>,
    k: int,
    from: int,
)
    requires
        s.wf(),
        0 <= k < s.len(),
        s.fake[s.indexes[k] as int],
        c1.len() == s.len(),
        c2.len() == s.len(),
        forall|j: int| 0 <= j < s.len() && j != k ==> c1[j] == c2[j],
        0 <= from <= s.len(),
    ensures
        offset_from(s, env, c1, from) == offset_from(s, env, c2, from),
    decreases s.dims.len() - from,
{
    if from < s.dims.len() {
        lemma_offsets_agree(s, env, c1, c2, k, from + 1);
    }
}

} // verus!
