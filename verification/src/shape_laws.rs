//! What holds of every shape tracker, proved over layouts.

use crate::indexing::INDEX_VAR;
use crate::simplify::{
    lemma_minimized_sound, lemma_minimized_truth_valued, lemma_truth_values,
};
use crate::symbolic::{Expression, Op};
use crate::tracker::{is_permutation, Layout, UNSET_BOUND};
use vstd::prelude::*;

verus! {

/// Whether `q` undoes `p`: position `i` of `q` names the place where `p`
/// holds `i`.
pub open spec fn is_inverse_of(q: Seq<usize>, p: Seq<usize>) -> bool {
    &&& q.len() == p.len()
    &&& forall|i: int| 0 <= i < q.len() ==> (#[trigger] q[i]) < p.len() && p[q[i] as int] == i
}

/// The product of the items of `v`.
pub open spec fn product(v: Seq<int>) -> int
    decreases v.len(),
{
    if v.len() == 0 {
        1
    } else {
        product(v.drop_last()) * v.last()
    }
}

/// The inverse of the permutation `axes`.
pub fn inverse_permutation(axes: &[usize]) -> (inv: Vec<usize>)
    requires
        is_permutation(axes@),
    ensures
        is_inverse_of(inv@, axes@),
{
    let n = axes.len();
    let mut inv: Vec<usize> = Vec::new();
    let mut v: usize = 0;
    while v < n
        invariant
            v <= n,
            n == axes@.len(),
            is_permutation(axes@),
            inv@.len() == v,
            forall|i: int| 0 <= i < v ==> (#[trigger] inv@[i]) < n && axes@[inv@[i] as int] == i,
        decreases n - v,
    {
        let mut j: usize = 0;
        while j < n && axes[j] != v
            invariant
                j <= n,
                n == axes@.len(),
                forall|k: int| 0 <= k < j ==> axes@[k] != v,
            decreases n - j,
        {
            j += 1;
        }
        proof {
            if j == n {
                lemma_permutation_onto(axes@, v as int);
            }
        }
        inv.push(j);
        v += 1;
    }
    inv
}

/// A permutation of `0 .. n` holds every number below `n`.
pub proof fn lemma_permutation_onto(p: Seq<usize>, v: int)
    requires
        is_permutation(p),
        0 <= v < p.len(),
    ensures
        exists|k: int| 0 <= k < p.len() && p[k] == v,
{
    let n = p.len() as int;
    if forall|k: int| 0 <= k < n ==> p[k] != v {
        // n distinct values in a set of n - 1 numbers.
        let image = Set::new(|x: int| exists|k: int| 0 <= k < n && p[k] == x);
        let room = Set::new(|x: int| 0 <= x < n && x != v);
        lemma_range_without(n, v);
        assert(image.subset_of(room)) by {
            assert forall|x: int| image.contains(x) implies room.contains(x) by {
                let k = choose|k: int| 0 <= k < n && p[k] == x;
                assert(p[k] < p.len());
            }
        }
        vstd::set_lib::lemma_len_subset(image, room);
        lemma_injective_image(p, n);
        assert(Set::new(|x: int| exists|k: int| 0 <= k < n && p[k] == x) == image);
    }
}

/// `0 .. n` without one of its numbers has `n - 1` items.
proof fn lemma_range_without(n: int, v: int)
    requires
        0 <= v < n,
    ensures
        Set::new(|x: int| 0 <= x < n && x != v).finite(),
        Set::new(|x: int| 0 <= x < n && x != v).len() == n - 1,
{
    let full = Set::new(|x: int| 0 <= x < n);
    vstd::set_lib::lemma_int_range(0, n);
    assert(full =~= vstd::set_lib::set_int_range(0, n));
    assert(Set::new(|x: int| 0 <= x < n && x != v) =~= full.remove(v));
}

/// The first `m` items of a sequence without repeats are `m` values.
proof fn lemma_injective_image(p: Seq<usize>, m: int)
    requires
        0 <= m <= p.len(),
        forall|i: int, j: int| 0 <= i < j < p.len() ==> p[i] != p[j],
    ensures
        Set::new(|x: int| exists|k: int| 0 <= k < m && p[k] == x).finite(),
        Set::new(|x: int| exists|k: int| 0 <= k < m && p[k] == x).len() == m,
    decreases m,
{
    let image = Set::new(|x: int| exists|k: int| 0 <= k < m && p[k] == x);
    if m == 0 {
        assert(image =~= Set::<int>::empty());
    } else {
        let before = Set::new(|x: int| exists|k: int| 0 <= k < m - 1 && p[k] == x);
        lemma_injective_image(p, m - 1);
        let last = p[m - 1] as int;
        assert(!before.contains(last)) by {
            if before.contains(last) {
                let k = choose|k: int| 0 <= k < m - 1 && p[k] == last;
                assert(p[k] != p[m - 1]);
            }
        }
        assert(image =~= before.insert(last)) by {
            assert forall|x: int| image.contains(x) implies before.insert(last).contains(x) by {
                let k = choose|k: int| 0 <= k < m && p[k] == x;
                if k < m - 1 {
                    assert(before.contains(x));
                }
            }
            assert forall|x: int| before.insert(last).contains(x) implies image.contains(x) by {
                if x == last {
                    assert(p[m - 1] == x);
                } else {
                    let k = choose|k: int| 0 <= k < m - 1 && p[k] == x;
                    assert(0 <= k < m && p[k] == x);
                }
            }
        }
    }
}

/// The shape has one entry for each axis.
pub proof fn lemma_shape_len(s: Layout)
    ensures
        s.shape().len() == s.len(),
{
}

/// Under a tracker that is contiguous, not cut and not padded, logical
/// index `i` is memory offset `i`.
pub proof fn lemma_plain_index_is_identity(s: Layout, i: int)
    requires
        s.is_plain(),
    ensures
        s.index_expression().eval(map![INDEX_VAR => i]) == Some(i),
{
}

/// The validity expression takes no value but 0 and 1, and is the
/// literal 1 under a tracker that is contiguous, not cut and not padded.
pub proof fn lemma_valid_expression_is_flag(s: Layout, env: Map<char, int>)
    ensures
        s.valid_expression().eval(env) matches Some(v) ==> v == 0 || v == 1,
        s.is_plain() ==> s.valid_expression().eval(env) == Some(1int),
{
    if !s.is_plain() {
        lemma_valid_chain_truth_valued(s, 0);
        lemma_minimized_truth_valued(s.valid_chain(0));
        lemma_truth_values(s.valid_chain(0).minimized(), env);
    }
}

/// The conjunction of the axis tests is a literal 1 or a logical node.
pub proof fn lemma_valid_chain_truth_valued(s: Layout, k: int)
    ensures
        s.valid_chain(k).is_truth_valued(),
    decreases s.dims.len() - k,
{
    if k < s.dims.len() {
        lemma_valid_chain_truth_valued(s, k + 1);
    }
}

/// Permuting by `p` and then by its inverse `q` gives the layout back.
pub proof fn lemma_permute_inverse(s: Layout, p: Seq<usize>, q: Seq<usize>)
    requires
        s.wf(),
        p.len() == s.len(),
        is_permutation(p),
        is_inverse_of(q, p),
    ensures
        s.permuted(p).permuted(q) == s,
{
    let out = s.permuted(p).permuted(q);
    assert forall|i: int| 0 <= i < s.indexes.len() implies out.indexes[i] == s.indexes[i] by {
        assert(q[i] < p.len());
        assert(p[q[i] as int] == i);
    }
    assert(out.indexes =~= s.indexes);
}

/// Adding an axis at position `axis` and removing the axis at that
/// position gives the layout back, all five sequences of it.
pub proof fn lemma_add_then_remove(s: Layout, axis: int, dim: Expression, fake: bool)
    requires
        s.wf(),
        s.len() < 6,
        0 <= axis <= s.len(),
    ensures
        s.with_dim(axis, dim, fake).without_axis(axis) == s,
{
    let grown = s.with_dim(axis, dim, fake);
    let out = grown.without_axis(axis);
    let n = s.dims.len();
    assert(grown.indexes[axis] == n);
    assert(grown.indexes.remove(axis) =~= s.indexes);
    assert(out.indexes =~= s.indexes);
    assert(out.dims =~= s.dims);
    assert(out.fake =~= s.fake);
    assert(out.slices =~= s.slices);
    assert(out.padding =~= s.padding);
}

/// A shape whose entries are all literals of at most the unset bound.
pub open spec fn is_concrete(shape: Seq<Expression>) -> bool {
    forall|k: int|
        0 <= k < shape.len() ==> ((#[trigger] shape[k]) matches Expression::Num(n) && n
            <= UNSET_BOUND)
}

/// A fresh layout is contiguous, not cut and not padded.
pub proof fn lemma_fresh_is_plain(dims: Seq<Expression>)
    requires
        dims.len() <= 6,
    ensures
        Layout::fresh(dims).is_plain(),
{
    let f = Layout::fresh(dims);
    assert forall|p: int| 0 <= p < f.slices.len() implies !f.axis_sliced(p) by {
        assert(Expression::Num(UNSET_BOUND).spec_to_usize() == Some(UNSET_BOUND as usize));
    }
    assert forall|p: int| 0 <= p < f.padding.len() implies !f.axis_padded(p) by {}
}

/// The contiguous version of a tracker is contiguous; and where the
/// shape is concrete, making it contiguous once more changes nothing.
pub proof fn lemma_contiguous_idempotent(s: Layout)
    requires
        s.wf(),
    ensures
        s.contiguous().is_contiguous(),
        s.contiguous().is_plain(),
        is_concrete(s.shape()) ==> s.contiguous().contiguous() == s.contiguous(),
{
    lemma_fresh_is_plain(s.shape());
    if is_concrete(s.shape()) {
        let once = s.contiguous();
        let twice = once.contiguous();
        reveal_with_fuel(Expression::minimized, 5);
        assert forall|k: int| 0 <= k < once.shape().len() implies once.shape()[k]
            == s.shape()[k] by {
            let e = s.shape()[k];
            assert(e is Num);
            assert(once.indexes[k] == k);
            assert(once.dims[k] == e);
        }
        assert(once.shape() =~= s.shape());
    }
}

/// A layout whose axes are all fake stores one element.
pub proof fn lemma_all_fake_stores_one(dims: Seq<Expression>)
    ensures
        Layout::all_fake(dims).n_physical_elements() == Expression::Num(1),
{
    lemma_all_fake_stored_before(dims, dims.len() as int);
}

proof fn lemma_all_fake_stored_before(dims: Seq<Expression>, p: int)
    requires
        0 <= p <= dims.len(),
    ensures
        Layout::all_fake(dims).stored_before(p) == Expression::Num(1),
    decreases p,
{
    if p > 0 {
        lemma_all_fake_stored_before(dims, p - 1);
    }
}

/// Whether `l` is the layout of a new tensor with sizes `dims`, fake or
/// not.
pub open spec fn is_initial(l: Layout, dims: Seq<Expression>) -> bool {
    l == Layout::fresh(dims) || l == Layout::all_fake(dims)
}

/// The element count of a new tracker, fake or not, is the product of
/// its sizes, where these are positive and at most the unset bound.
pub proof fn lemma_n_elements_is_product(
    l: Layout,
    dims: Seq<Expression>,
    values: Seq<int>,
    env: Map<char, int>,
)
    requires
        is_initial(l, dims),
        dims.len() <= 6,
        values.len() == dims.len(),
        forall|k: int|
            0 <= k < dims.len() ==> (#[trigger] dims[k]).eval(env) == Some(values[k]) && 0
                < values[k] <= UNSET_BOUND,
    ensures
        l.n_elements().eval(env) == Some(product(values)),
        product(values) > 0,
{
    let n = dims.len() as int;
    lemma_count_before_value(l, dims, values, env, n);
    assert(values.take(n) == values);
    lemma_minimized_sound(l.count_before(n), env);
}

proof fn lemma_count_before_value(
    l: Layout,
    dims: Seq<Expression>,
    values: Seq<int>,
    env: Map<char, int>,
    k: int,
)
    requires
        is_initial(l, dims),
        dims.len() <= 6,
        values.len() == dims.len(),
        0 <= k <= dims.len(),
        forall|k: int|
            0 <= k < dims.len() ==> (#[trigger] dims[k]).eval(env) == Some(values[k]) && 0
                < values[k] <= UNSET_BOUND,
    ensures
        l.count_before(k).eval(env) == Some(product(values.take(k))),
        product(values.take(k)) > 0,
    decreases k,
{
    if k == 0 {
        assert(values.take(0).len() == 0);
    } else {
        lemma_count_before_value(l, dims, values, env, k - 1);
        reveal_with_fuel(Expression::eval, 6);
        assert(l.indexes[k - 1] == k - 1);
        assert(dims[k - 1].eval(env) == Some(values[k - 1]));
        assert(l.extent(k - 1).eval(env) == Some(values[k - 1]));
        assert(values.take(k).drop_last() == values.take(k - 1));
        assert(values.take(k).last() == values[k - 1]);
        let a = product(values.take(k - 1));
        let b = values[k - 1];
        assert(a * b > 0) by (nonlinear_arith)
            requires
                a > 0,
                b > 0,
        ;
    }
}


/// Whether two bindings agree on every variable but `c`.
pub open spec fn agree_but(env1: Map<char, int>, env2: Map<char, int>, c: char) -> bool {
    forall|d: char|
        #![trigger env1.contains_key(d)]
        #![trigger env2.contains_key(d)]
        d != c ==> env1.contains_key(d) == env2.contains_key(d) && (env1.contains_key(d)
            ==> env1[d] == env2[d])
}

impl Layout {
    /// Whether no size, cut or padding of the layout mentions `c`.
    pub open spec fn free_of(self, c: char) -> bool {
        forall|p: int|
            0 <= p < self.dims.len() ==> !(#[trigger] self.dims[p]).mentions(c)
                && !self.slices[p].0.mentions(c) && !self.slices[p].1.mentions(c)
                && !self.padding[p].0.mentions(c) && !self.padding[p].1.mentions(c)
    }
}

/// An expression has one value under two bindings that agree on every
/// variable but one it does not mention.
pub proof fn lemma_eval_ignores(e: Expression, env1: Map<char, int>, env2: Map<char, int>, c: char)
    requires
        !e.mentions(c),
        agree_but(env1, env2, c),
    ensures
        e.eval(env1) == e.eval(env2),
    decreases e,
{
    match e {
        Expression::Num(_) => {},
        Expression::Var(d) => {
            assert(env1.contains_key(d) == env2.contains_key(d));
        },
        Expression::Binary(_, l, r) => {
            lemma_eval_ignores(*l, env1, env2, c);
            lemma_eval_ignores(*r, env1, env2, c);
        },
    }
}

/// The stride of an axis mentions no variable that the sizes do not
/// mention.
pub proof fn lemma_stride_free_of(s: Layout, p: int, c: char)
    requires
        s.wf(),
        s.free_of(c),
        0 <= p < s.len(),
    ensures
        !s.raw_stride(p).mentions(c),
    decreases s.dims.len() - p,
{
    if p + 1 < s.dims.len() {
        lemma_stride_free_of(s, p + 1, c);
        assert(!s.dims[p + 1].mentions(c));
    }
}

/// A fake axis takes no part in the memory offset: two logical indices
/// that differ only by their coordinate along a fake axis read the same
/// element. Stated for a tracker whose sizes do not mention `z`, and for
/// bindings under which the offset has a value.
pub proof fn lemma_fake_axis_reads_one_element(
    s: Layout,
    k: int,
    env1: Map<char, int>,
    env2: Map<char, int>,
)
    requires
        s.wf(),
        s.free_of(INDEX_VAR),
        0 <= k < s.len(),
        s.fake[s.indexes[k] as int],
        agree_but(env1, env2, INDEX_VAR),
        forall|j: int|
            0 <= j < s.len() && j != k ==> (#[trigger] s.coordinate(j)).eval(env1) == s.coordinate(
                j,
            ).eval(env2),
        s.offset_sum(0).eval(env1) is Some,
    ensures
        s.index_expression().eval(env1) == s.index_expression().eval(env2),
        s.index_expression().eval(env1) == s.offset_sum(0).eval(env1),
{
    lemma_offset_sum_agrees(s, k, env1, env2, 0);
    assert(!s.is_contiguous()) by {
        assert(s.indexes[k] < s.fake.len());
    }
    lemma_minimized_sound(s.offset_sum(0), env1);
    lemma_minimized_sound(s.offset_sum(0), env2);
}

proof fn lemma_offset_sum_agrees(
    s: Layout,
    k: int,
    env1: Map<char, int>,
    env2: Map<char, int>,
    from: int,
)
    requires
        s.wf(),
        s.free_of(INDEX_VAR),
        0 <= k < s.len(),
        s.fake[s.indexes[k] as int],
        agree_but(env1, env2, INDEX_VAR),
        forall|j: int|
            0 <= j < s.len() && j != k ==> (#[trigger] s.coordinate(j)).eval(env1) == s.coordinate(
                j,
            ).eval(env2),
        0 <= from <= s.len(),
    ensures
        s.offset_sum(from).eval(env1) == s.offset_sum(from).eval(env2),
    decreases s.dims.len() - from,
{
    if from < s.dims.len() {
        lemma_offset_sum_agrees(s, k, env1, env2, from + 1);
        let p = s.indexes[from] as int;
        if !s.fake[p] {
            assert(from != k);
            assert(s.coordinate(from).eval(env1) == s.coordinate(from).eval(env2));
            assert(!s.dims[p].mentions(INDEX_VAR));
            lemma_eval_ignores(s.padding[p].0, env1, env2, INDEX_VAR);
            lemma_eval_ignores(s.slices[p].0, env1, env2, INDEX_VAR);
            lemma_stride_free_of(s, p, INDEX_VAR);
            lemma_eval_ignores(s.raw_stride(p), env1, env2, INDEX_VAR);
            let before = s.padding[p].0;
            let low = s.slices[p].0;
            let lead = Expression::spec_binary(Op::Sub, s.coordinate(from), before);
            let least = Expression::spec_binary(Op::Min, before, low);
            let shift = Expression::spec_binary(Op::Sub, low, least);
            let place = Expression::spec_binary(Op::Add, lead, shift);
            lemma_binary_agrees(Op::Sub, s.coordinate(from), before, env1, env2);
            lemma_binary_agrees(Op::Min, before, low, env1, env2);
            lemma_binary_agrees(Op::Sub, low, least, env1, env2);
            lemma_binary_agrees(Op::Add, lead, shift, env1, env2);
            lemma_binary_agrees(Op::Mul, place, s.raw_stride(p), env1, env2);
            assert(s.offset_term(from) == Expression::spec_binary(Op::Mul, place, s.raw_stride(p)));
            lemma_binary_agrees(
                Op::Add,
                s.offset_sum(from + 1),
                s.offset_term(from),
                env1,
                env2,
            );
        }
    }
}

/// A node whose operands have one value each under two bindings has
/// one value under them.
pub proof fn lemma_binary_agrees(
    op: Op,
    l: Expression,
    r: Expression,
    env1: Map<char, int>,
    env2: Map<char, int>,
)
    requires
        l.eval(env1) == l.eval(env2),
        r.eval(env1) == r.eval(env2),
    ensures
        Expression::spec_binary(op, l, r).eval(env1) == Expression::spec_binary(op, l, r).eval(
            env2,
        ),
{
}

} // verus!
