//! Operations that change what a shape tracker holds without changing its
//! rank: cuts, padding, new sizes, and the resolution of symbolic sizes.

use crate::arrays::{as_slice, new_exprs, new_flags, new_indexes, new_pairs, push, put};
use crate::symbolic::{Expression, Op};
use crate::tracker::{is_permutation, Layout, ShapeError, ShapeTracker, UNSET_BOUND};
use rustc_hash::FxHashMap;
use tinyvec::ArrayVec;
use vstd::prelude::*;

verus! {

/// The cut `cur` narrowed by the bounds `b`:
/// `(max(low, max(b.0, 0)), min(high, max(b.1, 0)))`, simplified.
pub open spec fn narrowed(cur: (Expression, Expression), b: (Expression, Expression)) -> (
    Expression,
    Expression,
) {
    (
        Expression::spec_binary(
            Op::Max,
            cur.0,
            Expression::spec_binary(Op::Max, b.0, Expression::Num(0)),
        ).minimized(),
        Expression::spec_binary(
            Op::Min,
            cur.1,
            Expression::spec_binary(Op::Max, b.1, Expression::Num(0)),
        ).minimized(),
    )
}

/// The padding `cur` grown by the amounts `a`:
/// `(before + max(a.0, 0), after + max(a.1, 0))`, simplified.
pub open spec fn widened(cur: (Expression, Expression), a: (Expression, Expression)) -> (
    Expression,
    Expression,
) {
    (
        Expression::spec_binary(
            Op::Add,
            cur.0,
            Expression::spec_binary(Op::Max, a.0, Expression::Num(0)),
        ).minimized(),
        Expression::spec_binary(
            Op::Add,
            cur.1,
            Expression::spec_binary(Op::Max, a.1, Expression::Num(0)),
        ).minimized(),
    )
}

/// Whether the amounts `a` would pad an axis that the cut `cur` has cut:
/// an amount not known to be 0 against a cut not known to be unset.
pub open spec fn collides(cur: (Expression, Expression), a: (Expression, Expression)) -> bool {
    &&& a.0.spec_to_usize() != Some(0usize) || a.1.spec_to_usize() != Some(0usize)
    &&& cur.0.spec_to_usize() != Some(0usize) || cur.1.spec_to_usize() != Some(
        UNSET_BOUND as usize,
    )
}

/// `e` with the variables of `m` replaced, simplified.
pub open spec fn resolved(e: Expression, m: Map<char, usize>) -> Expression {
    e.substituted(m).minimized()
}

/// The size that takes the place of `own` when it is unknown: `other`, or
/// 1 where `other` is unknown too and `default_to_one` is set.
pub open spec fn filled(own: Expression, other: Expression, default_to_one: bool) -> Expression {
    if !own.spec_is_unknown() {
        own
    } else if other.spec_is_unknown() && default_to_one {
        Expression::Num(1)
    } else {
        other
    }
}

impl Layout {
    /// The layout with every expression resolved against `m`.
    pub open spec fn resolved(self, m: Map<char, usize>) -> Layout {
        Layout {
            dims: Seq::new(self.dims.len(), |p: int| resolved(self.dims[p], m)),
            slices: Seq::new(
                self.slices.len(),
                |p: int| (resolved(self.slices[p].0, m), resolved(self.slices[p].1, m)),
            ),
            padding: Seq::new(
                self.padding.len(),
                |p: int| (resolved(self.padding[p].0, m), resolved(self.padding[p].1, m)),
            ),
            ..self
        }
    }

    /// A fresh layout whose sizes are the shape of this one.
    pub open spec fn contiguous(self) -> Layout {
        Layout::fresh(self.shape())
    }

    /// Whether `amounts` cannot be added as padding.
    pub open spec fn pad_collides(self, amounts: Seq<(Expression, Expression)>) -> bool {
        exists|i: int|
            0 <= i < amounts.len() && collides(
                self.slices[self.indexes[i] as int],
                #[trigger] amounts[i],
            )
    }
}

/// Two places of a permutation hold different items.
pub proof fn lemma_permutation_distinct(p: Seq<usize>, i: int, j: int)
    requires
        is_permutation(p),
        0 <= i < p.len(),
        0 <= j < p.len(),
        i != j,
    ensures
        p[i] != p[j],
{
    if i < j {
        assert(p[i] != p[j]);
    } else {
        assert(p[j] != p[i]);
    }
}

fn copy_exprs(v: &ArrayVec<[Expression; 6]>) -> (r: ArrayVec<[Expression; 6]>)
    ensures
        crate::arrays::expr_items(r) == crate::arrays::expr_items(*v),
{
    let s = as_slice(v);
    let mut r = new_exprs();
    let mut i: usize = 0;
    while i < s.len()
        invariant
            i <= s@.len() <= 6,
            crate::arrays::expr_items(r) == s@.take(i as int),
        decreases s@.len() - i,
    {
        push(&mut r, s[i].clone());
        i += 1;
    }
    assert(s@.take(s@.len() as int) == s@);
    r
}

fn copy_indexes(v: &ArrayVec<[usize; 6]>) -> (r: ArrayVec<[usize; 6]>)
    ensures
        crate::arrays::index_items(r) == crate::arrays::index_items(*v),
{
    let s = as_slice(v);
    let mut r = new_indexes();
    let mut i: usize = 0;
    while i < s.len()
        invariant
            i <= s@.len() <= 6,
            crate::arrays::index_items(r) == s@.take(i as int),
        decreases s@.len() - i,
    {
        push(&mut r, s[i]);
        i += 1;
    }
    assert(s@.take(s@.len() as int) == s@);
    r
}

fn copy_flags(v: &ArrayVec<[bool; 6]>) -> (r: ArrayVec<[bool; 6]>)
    ensures
        crate::arrays::flag_items(r) == crate::arrays::flag_items(*v),
{
    let s = as_slice(v);
    let mut r = new_flags();
    let mut i: usize = 0;
    while i < s.len()
        invariant
            i <= s@.len() <= 6,
            crate::arrays::flag_items(r) == s@.take(i as int),
        decreases s@.len() - i,
    {
        push(&mut r, s[i]);
        i += 1;
    }
    assert(s@.take(s@.len() as int) == s@);
    r
}

fn copy_pairs(v: &ArrayVec<[(Expression, Expression); 6]>) -> (r: ArrayVec<
    [(Expression, Expression); 6],
>)
    ensures
        crate::arrays::pair_items(r) == crate::arrays::pair_items(*v),
{
    let s = as_slice(v);
    let mut r = new_pairs();
    let mut i: usize = 0;
    while i < s.len()
        invariant
            i <= s@.len() <= 6,
            crate::arrays::pair_items(r) == s@.take(i as int),
        decreases s@.len() - i,
    {
        push(&mut r, (s[i].0.clone(), s[i].1.clone()));
        i += 1;
    }
    assert(s@.take(s@.len() as int) == s@);
    r
}

fn same_exprs(a: &[Expression], b: &[Expression]) -> (r: bool)
    ensures
        r == (a@ == b@),
{
    if a.len() != b.len() {
        return false;
    }
    let mut i: usize = 0;
    while i < a.len()
        invariant
            i <= a@.len(),
            a@.len() == b@.len(),
            forall|j: int| 0 <= j < i ==> a@[j] == b@[j],
        decreases a@.len() - i,
    {
        if !a[i].same(&b[i]) {
            return false;
        }
        i += 1;
    }
    assert(a@ =~= b@);
    true
}

fn same_indexes(a: &[usize], b: &[usize]) -> (r: bool)
    ensures
        r == (a@ == b@),
{
    if a.len() != b.len() {
        return false;
    }
    let mut i: usize = 0;
    while i < a.len()
        invariant
            i <= a@.len(),
            a@.len() == b@.len(),
            forall|j: int| 0 <= j < i ==> a@[j] == b@[j],
        decreases a@.len() - i,
    {
        if a[i] != b[i] {
            return false;
        }
        i += 1;
    }
    assert(a@ =~= b@);
    true
}

fn same_flags(a: &[bool], b: &[bool]) -> (r: bool)
    ensures
        r == (a@ == b@),
{
    if a.len() != b.len() {
        return false;
    }
    let mut i: usize = 0;
    while i < a.len()
        invariant
            i <= a@.len(),
            a@.len() == b@.len(),
            forall|j: int| 0 <= j < i ==> a@[j] == b@[j],
        decreases a@.len() - i,
    {
        if a[i] != b[i] {
            return false;
        }
        i += 1;
    }
    assert(a@ =~= b@);
    true
}

fn same_pairs(a: &[(Expression, Expression)], b: &[(Expression, Expression)]) -> (r: bool)
    ensures
        r == (a@ == b@),
{
    if a.len() != b.len() {
        return false;
    }
    let mut i: usize = 0;
    while i < a.len()
        invariant
            i <= a@.len(),
            a@.len() == b@.len(),
            forall|j: int| 0 <= j < i ==> a@[j] == b@[j],
        decreases a@.len() - i,
    {
        if !(a[i].0.same(&b[i].0) && a[i].1.same(&b[i].1)) {
            return false;
        }
        i += 1;
    }
    assert(a@ =~= b@);
    true
}

impl ShapeTracker {
    /// Whether both trackers hold the same five arrays.
    pub fn same(&self, other: &ShapeTracker) -> (r: bool)
        ensures
            r == (self@ == other@),
    {
        same_exprs(as_slice(&self.dims), as_slice(&other.dims)) && same_indexes(
            as_slice(&self.indexes),
            as_slice(&other.indexes),
        ) && same_flags(as_slice(&self.fake), as_slice(&other.fake)) && same_pairs(
            as_slice(&self.slices),
            as_slice(&other.slices),
        ) && same_pairs(as_slice(&self.padding), as_slice(&other.padding))
    }
}

impl PartialEq for ShapeTracker {
    fn eq(&self, other: &Self) -> (r: bool) {
        self.same(other)
    }
}

impl vstd::std_specs::cmp::PartialEqSpecImpl for ShapeTracker {
    open spec fn obeys_eq_spec() -> bool {
        true
    }

    open spec fn eq_spec(&self, other: &Self) -> bool {
        self@ == other@
    }
}

impl Clone for ShapeTracker {
    fn clone(&self) -> (r: Self)
        ensures
            r@ == self@,
    {
        ShapeTracker {
            dims: copy_exprs(&self.dims),
            indexes: copy_indexes(&self.indexes),
            fake: copy_flags(&self.fake),
            slices: copy_pairs(&self.slices),
            padding: copy_pairs(&self.padding),
        }
    }
}

impl ShapeTracker {
    /// Gives the axis at each position `i` the size `dims[i]`. Cuts and
    /// padding stay as they are.
    pub fn realize(self, dims: &[Expression]) -> (r: Self)
        requires
            self.wf(),
            dims@.len() >= self@.len(),
        ensures
            r.wf(),
            r@.indexes == self@.indexes,
            r@.fake == self@.fake,
            r@.slices == self@.slices,
            r@.padding == self@.padding,
            r@.dims.len() == self@.dims.len(),
            forall|i: int| 0 <= i < self@.len() ==> r@.dims[self@.indexes[i] as int] == dims@[i],
    {
        let mut r = self;
        let n = r.len();
        let mut i: usize = 0;
        while i < n
            invariant
                i <= n,
                n == self@.len(),
                n <= dims@.len(),
                self.wf(),
                r@.indexes == self@.indexes,
                r@.fake == self@.fake,
                r@.slices == self@.slices,
                r@.padding == self@.padding,
                r@.dims.len() == n,
                forall|k: int| 0 <= k < i ==> r@.dims[self@.indexes[k] as int] == dims@[k],
            decreases n - i,
        {
            let p = as_slice(&r.indexes)[i];
            proof {
                assert forall|k: int| 0 <= k < i implies self@.indexes[k] != p by {
                    lemma_permutation_distinct(self@.indexes, k, i as int);
                }
            }
            put(&mut r.dims, p, dims[i].clone());
            i += 1;
        }
        r
    }

    /// A tracker for a new tensor whose sizes are the shape of this one:
    /// contiguous, not cut and not padded.
    pub fn contiguous(self) -> (r: Self)
        requires
            self.wf(),
        ensures
            r@ == self@.contiguous(),
            r.wf(),
            r@.is_contiguous(),
            r@.is_plain(),
    {
        proof {
            crate::shape_laws::lemma_contiguous_idempotent(self@);
        }
        let shape = self.shape();
        ShapeTracker::new(shape.as_slice())
    }

    /// Narrows the cut of the axis at each position `i` by `bounds[i]`.
    pub fn slice(&mut self, bounds: &[(Expression, Expression)])
        requires
            old(self).wf(),
            bounds@.len() <= old(self)@.len(),
        ensures
            final(self).wf(),
            final(self)@.dims == old(self)@.dims,
            final(self)@.indexes == old(self)@.indexes,
            final(self)@.fake == old(self)@.fake,
            final(self)@.padding == old(self)@.padding,
            final(self)@.slices.len() == old(self)@.slices.len(),
            forall|k: int|
                0 <= k < old(self)@.len() ==> final(self)@.slices[old(self)@.indexes[k] as int]
                    == if k < bounds@.len() {
                    narrowed(old(self)@.slices[old(self)@.indexes[k] as int], bounds@[k])
                } else {
                    old(self)@.slices[old(self)@.indexes[k] as int]
                },
    {
        let m = bounds.len();
        let mut i: usize = 0;
        while i < m
            invariant
                i <= m,
                m == bounds@.len(),
                m <= old(self)@.len(),
                old(self).wf(),
                self@.dims == old(self)@.dims,
                self@.indexes == old(self)@.indexes,
                self@.fake == old(self)@.fake,
                self@.padding == old(self)@.padding,
                self@.slices.len() == old(self)@.slices.len(),
                forall|k: int|
                    0 <= k < old(self)@.len() ==> self@.slices[old(self)@.indexes[k] as int]
                        == if k < i {
                        narrowed(old(self)@.slices[old(self)@.indexes[k] as int], bounds@[k])
                    } else {
                        old(self)@.slices[old(self)@.indexes[k] as int]
                    },
            decreases m - i,
        {
            let p = as_slice(&self.indexes)[i];
            let cur = as_slice(&self.slices);
            let lo = cur[p].0.clone().max(bounds[i].0.clone().max(Expression::Num(0))).minimize();
            let hi = cur[p].1.clone().min(bounds[i].1.clone().max(Expression::Num(0))).minimize();
            proof {
                assert forall|k: int| 0 <= k < old(self)@.len() && k != i implies old(
                    self,
                )@.indexes[k] != p by {
                    lemma_permutation_distinct(old(self)@.indexes, k, i as int);
                }
            }
            put(&mut self.slices, p, (lo, hi));
            i += 1;
        }
    }

    fn pad_collides(&self, amounts: &[(Expression, Expression)]) -> (b: bool)
        requires
            self.wf(),
            amounts@.len() <= self@.len(),
        ensures
            b == self@.pad_collides(amounts@),
    {
        let m = amounts.len();
        let mut i: usize = 0;
        while i < m
            invariant
                i <= m,
                m == amounts@.len(),
                m <= self@.len(),
                self.wf(),
                forall|k: int|
                    0 <= k < i ==> !collides(
                        self@.slices[self@.indexes[k] as int],
                        #[trigger] amounts@[k],
                    ),
            decreases m - i,
        {
            let p = as_slice(&self.indexes)[i];
            let cur = as_slice(&self.slices);
            let after_set = amounts[i].1.to_usize() != Some(0);
            let high_set = cur[p].1.to_usize() != Some(UNSET_BOUND as usize);
            let before_set = amounts[i].0.to_usize() != Some(0);
            let low_set = cur[p].0.to_usize() != Some(0);
            if (after_set || before_set) && (high_set || low_set) {
                assert(collides(self@.slices[self@.indexes[i as int] as int], amounts@[i as int]));
                return true;
            }
            i += 1;
        }
        false
    }

    /// Adds `amounts[i]` to the padding of the axis at each position `i`.
    /// Refused, with nothing changed, where an amount meets a cut.
    pub fn pad(&mut self, amounts: &[(Expression, Expression)]) -> (r: Result<(), ShapeError>)
        requires
            old(self).wf(),
            amounts@.len() <= old(self)@.len(),
        ensures
            final(self).wf(),
            old(self)@.pad_collides(amounts@) ==> r == Err::<(), ShapeError>(
                ShapeError::InvalidCompose,
            ) && final(self)@ == old(self)@,
            !old(self)@.pad_collides(amounts@) ==> r == Ok::<(), ShapeError>(()),
            final(self)@.dims == old(self)@.dims,
            final(self)@.indexes == old(self)@.indexes,
            final(self)@.fake == old(self)@.fake,
            final(self)@.slices == old(self)@.slices,
            final(self)@.padding.len() == old(self)@.padding.len(),
            r is Ok ==> forall|k: int|
                0 <= k < old(self)@.len() ==> final(self)@.padding[old(self)@.indexes[k] as int]
                    == if k < amounts@.len() {
                    widened(old(self)@.padding[old(self)@.indexes[k] as int], amounts@[k])
                } else {
                    old(self)@.padding[old(self)@.indexes[k] as int]
                },
    {
        if self.pad_collides(amounts) {
            return Err(ShapeError::InvalidCompose);
        }
        let m = amounts.len();
        let mut i: usize = 0;
        while i < m
            invariant
                i <= m,
                m == amounts@.len(),
                m <= old(self)@.len(),
                old(self).wf(),
                self@.dims == old(self)@.dims,
                self@.indexes == old(self)@.indexes,
                self@.fake == old(self)@.fake,
                self@.slices == old(self)@.slices,
                self@.padding.len() == old(self)@.padding.len(),
                forall|k: int|
                    0 <= k < old(self)@.len() ==> self@.padding[old(self)@.indexes[k] as int]
                        == if k < i {
                        widened(old(self)@.padding[old(self)@.indexes[k] as int], amounts@[k])
                    } else {
                        old(self)@.padding[old(self)@.indexes[k] as int]
                    },
            decreases m - i,
        {
            let p = as_slice(&self.indexes)[i];
            let cur = as_slice(&self.padding);
            let before = cur[p].0.clone().plus(
                amounts[i].0.clone().max(Expression::Num(0)),
            ).minimize();
            let after = cur[p].1.clone().plus(
                amounts[i].1.clone().max(Expression::Num(0)),
            ).minimize();
            proof {
                assert forall|k: int| 0 <= k < old(self)@.len() && k != i implies old(
                    self,
                )@.indexes[k] != p by {
                    lemma_permutation_distinct(old(self)@.indexes, k, i as int);
                }
            }
            put(&mut self.padding, p, (before, after));
            i += 1;
        }
        Ok(())
    }

    /// Replaces, in every expression of the tracker, the variables that
    /// `dyn_dim_map` binds by their values, and simplifies.
    pub fn resolve_global_dyn_dims(&mut self, dyn_dim_map: &FxHashMap<char, usize>)
        requires
            old(self).wf(),
        ensures
            final(self)@ == old(self)@.resolved(dyn_dim_map@),
            final(self).wf(),
    {
        let mut stack: Vec<i32> = Vec::new();
        self.resolve_global_dyn_dims_stack(dyn_dim_map, &mut stack);
    }

    /// As [`ShapeTracker::resolve_global_dyn_dims`]. `stack` is scratch
    /// space of the caller and comes back as it was given.
    pub fn resolve_global_dyn_dims_stack(
        &mut self,
        dyn_dim_map: &FxHashMap<char, usize>,
        stack: &mut Vec<i32>,
    )
        requires
            old(self).wf(),
        ensures
            final(self)@ == old(self)@.resolved(dyn_dim_map@),
            final(self).wf(),
            final(stack)@ == old(stack)@,
    {
        let n = self.len();
        let mut p: usize = 0;
        while p < n
            invariant
                p <= n,
                n == old(self)@.len(),
                old(self).wf(),
                self@.indexes == old(self)@.indexes,
                self@.fake == old(self)@.fake,
                self@.dims.len() == n,
                self@.slices.len() == n,
                self@.padding.len() == n,
                forall|q: int| 0 <= q < p ==> self@.dims[q] == old(self)@.resolved(dyn_dim_map@).dims[q],
                forall|q: int| p <= q < n ==> self@.dims[q] == old(self)@.dims[q],
                forall|q: int|
                    0 <= q < p ==> self@.slices[q] == old(self)@.resolved(dyn_dim_map@).slices[q],
                forall|q: int| p <= q < n ==> self@.slices[q] == old(self)@.slices[q],
                forall|q: int|
                    0 <= q < p ==> self@.padding[q] == old(self)@.resolved(
                        dyn_dim_map@,
                    ).padding[q],
                forall|q: int| p <= q < n ==> self@.padding[q] == old(self)@.padding[q],
            decreases n - p,
        {
            let d = as_slice(&self.dims)[p].substitute(dyn_dim_map).minimize();
            put(&mut self.dims, p, d);
            let s = as_slice(&self.slices);
            let lo = s[p].0.substitute(dyn_dim_map).minimize();
            let hi = s[p].1.substitute(dyn_dim_map).minimize();
            put(&mut self.slices, p, (lo, hi));
            let a = as_slice(&self.padding);
            let before = a[p].0.substitute(dyn_dim_map).minimize();
            let after = a[p].1.substitute(dyn_dim_map).minimize();
            put(&mut self.padding, p, (before, after));
            p += 1;
        }
        proof {
            let want = old(self)@.resolved(dyn_dim_map@);
            assert(self@.dims =~= want.dims);
            assert(self@.slices =~= want.slices);
            assert(self@.padding =~= want.padding);
        }
    }
}

/// Fills the unknown sizes of `a` from `b`, position by position, and then
/// those of `b` from `a`.
pub fn resolve_local_dyn_dims(a: &mut ShapeTracker, b: &mut ShapeTracker, default_to_one: bool)
    requires
        old(a).wf(),
        old(b).wf(),
        old(a)@.len() <= old(b)@.len(),
    ensures
        final(a).wf(),
        final(b).wf(),
        final(a)@.indexes == old(a)@.indexes,
        final(a)@.fake == old(a)@.fake,
        final(a)@.slices == old(a)@.slices,
        final(a)@.padding == old(a)@.padding,
        final(a)@.dims.len() == old(a)@.dims.len(),
        final(b)@.indexes == old(b)@.indexes,
        final(b)@.fake == old(b)@.fake,
        final(b)@.slices == old(b)@.slices,
        final(b)@.padding == old(b)@.padding,
        final(b)@.dims.len() == old(b)@.dims.len(),
        forall|k: int|
            0 <= k < old(a)@.len() ==> final(a)@.dims[old(a)@.indexes[k] as int] == filled(
                old(a)@.dims[old(a)@.indexes[k] as int],
                old(b)@.dims[old(b)@.indexes[k] as int],
                default_to_one,
            ),
        forall|k: int|
            0 <= k < old(b)@.len() ==> final(b)@.dims[old(b)@.indexes[k] as int] == if k < old(
                a,
            )@.len() {
                filled(
                    old(b)@.dims[old(b)@.indexes[k] as int],
                    final(a)@.dims[old(a)@.indexes[k] as int],
                    default_to_one,
                )
            } else {
                old(b)@.dims[old(b)@.indexes[k] as int]
            },
{
    let n = a.len();
    fill_unknown(a, b, n, default_to_one);
    fill_unknown(b, a, n, default_to_one);
}

/// Fills the unknown sizes of `own` at the first `n` positions from the
/// sizes that `other` shows there.
fn fill_unknown(own: &mut ShapeTracker, other: &ShapeTracker, n: usize, default_to_one: bool)
    requires
        old(own).wf(),
        other.wf(),
        n <= old(own)@.len(),
        n <= other@.len(),
    ensures
        final(own).wf(),
        final(own)@.indexes == old(own)@.indexes,
        final(own)@.fake == old(own)@.fake,
        final(own)@.slices == old(own)@.slices,
        final(own)@.padding == old(own)@.padding,
        final(own)@.dims.len() == old(own)@.dims.len(),
        forall|k: int|
            0 <= k < old(own)@.len() ==> final(own)@.dims[old(own)@.indexes[k] as int] == if k
                < n {
                filled(
                    old(own)@.dims[old(own)@.indexes[k] as int],
                    other@.dims[other@.indexes[k] as int],
                    default_to_one,
                )
            } else {
                old(own)@.dims[old(own)@.indexes[k] as int]
            },
{
    let mut i: usize = 0;
    while i < n
        invariant
            i <= n,
            n <= old(own)@.len(),
            n <= other@.len(),
            old(own).wf(),
            other.wf(),
            own@.indexes == old(own)@.indexes,
            own@.fake == old(own)@.fake,
            own@.slices == old(own)@.slices,
            own@.padding == old(own)@.padding,
            own@.dims.len() == old(own)@.dims.len(),
            forall|k: int|
                0 <= k < old(own)@.len() ==> own@.dims[old(own)@.indexes[k] as int] == if k < i {
                    filled(
                        old(own)@.dims[old(own)@.indexes[k] as int],
                        other@.dims[other@.indexes[k] as int],
                        default_to_one,
                    )
                } else {
                    old(own)@.dims[old(own)@.indexes[k] as int]
                },
        decreases n - i,
    {
        let p = as_slice(&own.indexes)[i];
        let q = as_slice(&other.indexes)[i];
        proof {
            assert forall|k: int| 0 <= k < old(own)@.len() && k != i implies old(own)@.indexes[k]
                != p by {
                lemma_permutation_distinct(old(own)@.indexes, k, i as int);
            }
        }
        if as_slice(&own.dims)[p].is_unknown() {
            let candidate = as_slice(&other.dims)[q].clone();
            if candidate.is_unknown() && default_to_one {
                put(&mut own.dims, p, Expression::Num(1));
            } else {
                put(&mut own.dims, p, candidate);
            }
        }
        i += 1;
    }
}

} // verus!
