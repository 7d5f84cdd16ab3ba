//! The shape tracker: how the logical axes of a tensor map to memory.
//!
//! A tracker holds five parallel arrays of at most six items. Its
//! mathematical model is a [`Layout`] of five sequences; every operation of
//! the tracker is a function on layouts, and the executable code is proved to
//! compute it.

use crate::arrays::{
    as_slice, expr_items, MAX_DIMS, flag_items, index_items, insert, new_exprs, new_flags, new_indexes,
    new_pairs, pair_items, push, put, remove,
};
use crate::symbolic::Expression;
use tinyvec::ArrayVec;
use vstd::prelude::*;

verus! {

/// Why a shape operation was refused.
#[derive(Debug, Clone, Copy, PartialEq, Eq, Structural)]
pub enum ShapeError {
    /// Padding met an axis that is sliced.
    InvalidCompose,
    /// The axis does not exist.
    AxisOutOfRange,
}

/// The upper slice bound that stands for "no bound".
pub const UNSET_BOUND: i64 = 2147483647;

/// How the logical axes of a tensor map to memory: five parallel arrays,
/// one entry for each axis.
#[derive(Debug)]
pub struct ShapeTracker {
    /// The size of each physical axis.
    pub dims: ArrayVec<[Expression; 6]>,
    /// The physical axis shown at each logical position.
    pub indexes: ArrayVec<[usize; 6]>,
    /// Whether a physical axis is broadcast and takes no memory.
    pub fake: ArrayVec<[bool; 6]>,
    /// The `(low, high)` cut of each physical axis.
    pub slices: ArrayVec<[(Expression, Expression); 6]>,
    /// The `(before, after)` zero padding of each physical axis.
    pub padding: ArrayVec<[(Expression, Expression); 6]>,
}

/// What a shape tracker holds, as five sequences.
pub struct Layout {
    pub dims: Seq<Expression>,
    pub indexes: Seq<usize>,
    pub fake: Seq<bool>,
    pub slices: Seq<(Expression, Expression)>,
    pub padding: Seq<(Expression, Expression)>,
}

/// The slice of an axis nobody has cut.
pub open spec fn unset_slice() -> (Expression, Expression) {
    (Expression::Num(0), Expression::Num(UNSET_BOUND))
}

/// The padding of an axis nobody has padded.
pub open spec fn no_padding() -> (Expression, Expression) {
    (Expression::Num(0), Expression::Num(0))
}

/// Whether `p` holds each of `0 .. p.len()` once.
pub open spec fn is_permutation(p: Seq<usize>) -> bool {
    &&& forall|i: int| 0 <= i < p.len() ==> (#[trigger] p[i]) < p.len()
    &&& forall|i: int, j: int| 0 <= i < j < p.len() ==> p[i] != p[j]
}

/// `p` with every item above `removed` lowered by one.
pub open spec fn close_gap(p: Seq<usize>, removed: usize) -> Seq<usize> {
    Seq::new(
        p.len(),
        |i: int|
            if p[i] > removed {
                (p[i] - 1) as usize
            } else {
                p[i]
            },
    )
}

impl Layout {
    /// The number of axes.
    pub open spec fn len(self) -> nat {
        self.dims.len()
    }

    /// The five sequences have one length of at most six, and `indexes`
    /// is a permutation.
    pub open spec fn wf(self) -> bool {
        &&& self.dims.len() <= MAX_DIMS
        &&& self.indexes.len() == self.dims.len()
        &&& self.fake.len() == self.dims.len()
        &&& self.slices.len() == self.dims.len()
        &&& self.padding.len() == self.dims.len()
        &&& is_permutation(self.indexes)
    }

    /// The layout of a new tensor with sizes `dims`: axes in order, none
    /// fake, cut or padded.
    pub open spec fn fresh(dims: Seq<Expression>) -> Layout {
        Layout {
            dims,
            indexes: Seq::new(dims.len(), |i: int| i as usize),
            fake: Seq::new(dims.len(), |i: int| false),
            slices: Seq::new(dims.len(), |i: int| unset_slice()),
            padding: Seq::new(dims.len(), |i: int| no_padding()),
        }
    }

    /// As [`Layout::fresh`], with every axis fake.
    pub open spec fn all_fake(dims: Seq<Expression>) -> Layout {
        Layout { fake: Seq::new(dims.len(), |i: int| true), ..Layout::fresh(dims) }
    }

    /// A new physical axis of size `dim`, shown at position `axis`.
    pub open spec fn with_dim(self, axis: int, dim: Expression, fake: bool) -> Layout {
        Layout {
            dims: self.dims.push(dim),
            indexes: self.indexes.insert(axis, self.dims.len() as usize),
            fake: self.fake.push(fake),
            slices: self.slices.push(unset_slice()),
            padding: self.padding.push(no_padding()),
        }
    }

    /// The layout without the axis shown at position `axis`.
    pub open spec fn without_axis(self, axis: int) -> Layout {
        let p = self.indexes[axis];
        Layout {
            dims: self.dims.remove(p as int),
            indexes: close_gap(self.indexes.remove(axis), p),
            fake: self.fake.remove(p as int),
            slices: self.slices.remove(p as int),
            padding: self.padding.remove(p as int),
        }
    }

    /// The layout that shows at position `i` what was shown at `axes[i]`.
    pub open spec fn permuted(self, axes: Seq<usize>) -> Layout {
        Layout {
            indexes: Seq::new(self.indexes.len(), |i: int| self.indexes[axes[i] as int]),
            ..self
        }
    }
}

impl View for ShapeTracker {
    type V = Layout;

    open spec fn view(&self) -> Layout {
        Layout {
            dims: expr_items(self.dims),
            indexes: index_items(self.indexes),
            fake: flag_items(self.fake),
            slices: pair_items(self.slices),
            padding: pair_items(self.padding),
        }
    }
}

/// The identity permutation stays one when an axis joins at the end.
pub proof fn lemma_with_dim_wf(l: Layout, axis: int, dim: Expression, fake: bool)
    requires
        l.wf(),
        l.len() < 6,
        0 <= axis <= l.len(),
    ensures
        l.with_dim(axis, dim, fake).wf(),
{
    let out = l.with_dim(axis, dim, fake);
    assert forall|i: int, j: int| 0 <= i < j < out.indexes.len() implies out.indexes[i]
        != out.indexes[j] by {
        let oi = if i < axis {
            i
        } else {
            i - 1
        };
        let oj = if j < axis {
            j
        } else {
            j - 1
        };
        if i != axis && j != axis {
            assert(out.indexes[i] == l.indexes[oi]);
            assert(out.indexes[j] == l.indexes[oj]);
        } else if i == axis {
            assert(out.indexes[j] == l.indexes[oj]);
        } else {
            assert(out.indexes[i] == l.indexes[oi]);
        }
    }
    assert forall|i: int| 0 <= i < out.indexes.len() implies (#[trigger] out.indexes[i])
        < out.indexes.len() by {
        if i < axis {
            assert(out.indexes[i] == l.indexes[i]);
        } else if i > axis {
            assert(out.indexes[i] == l.indexes[i - 1]);
        }
    }
}

/// What is left of a permutation when one axis leaves is a permutation.
pub proof fn lemma_without_axis_wf(l: Layout, axis: int)
    requires
        l.wf(),
        0 <= axis < l.len(),
    ensures
        l.without_axis(axis).wf(),
{
    let out = l.without_axis(axis);
    let p = l.indexes[axis];
    let rest = l.indexes.remove(axis);
    assert forall|i: int| 0 <= i < rest.len() implies (#[trigger] rest[i]) != p && rest[i]
        < l.indexes.len() by {
        if i < axis {
            assert(rest[i] == l.indexes[i]);
        } else {
            assert(rest[i] == l.indexes[i + 1]);
        }
    }
    assert forall|i: int| 0 <= i < out.indexes.len() implies (#[trigger] out.indexes[i])
        < out.indexes.len() by {
        assert(rest[i] != p);
    }
    assert forall|i: int, j: int| 0 <= i < j < out.indexes.len() implies out.indexes[i]
        != out.indexes[j] by {
        assert(rest[i] != p);
        assert(rest[j] != p);
        let oi = if i < axis {
            i
        } else {
            i + 1
        };
        let oj = if j < axis {
            j
        } else {
            j + 1
        };
        assert(rest[i] == l.indexes[oi]);
        assert(rest[j] == l.indexes[oj]);
    }
}

/// A permutation of a permutation is one.
pub proof fn lemma_permuted_wf(l: Layout, axes: Seq<usize>)
    requires
        l.wf(),
        axes.len() == l.len(),
        is_permutation(axes),
    ensures
        l.permuted(axes).wf(),
{
    let out = l.permuted(axes);
    assert forall|i: int, j: int| 0 <= i < j < out.indexes.len() implies out.indexes[i]
        != out.indexes[j] by {
        let a = axes[i] as int;
        let b = axes[j] as int;
        assert(a != b);
        if a < b {
            assert(l.indexes[a] != l.indexes[b]);
        } else {
            assert(l.indexes[b] != l.indexes[a]);
        }
    }
}

impl ShapeTracker {
    /// The tracker's layout is well formed.
    pub open spec fn wf(&self) -> bool {
        self@.wf()
    }

    /// Tests whether the tracker is well formed.
    pub fn is_well_formed(&self) -> (b: bool)
        ensures
            b == self.wf(),
    {
        let indexes = as_slice(&self.indexes);
        let n = as_slice(&self.dims).len();
        if indexes.len() != n || as_slice(&self.fake).len() != n || as_slice(&self.slices).len()
            != n || as_slice(&self.padding).len() != n {
            return false;
        }
        let mut i: usize = 0;
        while i < n
            invariant
                i <= n,
                n == indexes@.len(),
                n <= 6,
                indexes@ == self@.indexes,
                n == self@.dims.len() && n == self@.fake.len() && n == self@.slices.len() && n
                    == self@.padding.len(),
                forall|a: int| 0 <= a < i ==> (#[trigger] indexes@[a]) < n,
                forall|a: int, b: int| 0 <= a < b < i ==> indexes@[a] != indexes@[b],
            decreases n - i,
        {
            if indexes[i] >= n {
                return false;
            }
            let mut j: usize = 0;
            while j < i
                invariant
                    j <= i,
                    i < n,
                    n == indexes@.len(),
                    indexes@ == self@.indexes,
                    forall|a: int| 0 <= a < j ==> indexes@[a] != indexes@[i as int],
                decreases i - j,
            {
                if indexes[j] == indexes[i] {
                    return false;
                }
                j += 1;
            }
            i += 1;
        }
        true
    }

    /// A tracker for a new tensor with sizes `dims`.
    pub fn new(dims: &[Expression]) -> (s: Self)
        requires
            dims@.len() <= MAX_DIMS,
        ensures
            s@ == Layout::fresh(dims@),
            s.wf(),
    {
        ShapeTracker::build(dims, false)
    }

    /// A tracker with sizes `dims` where every axis is fake.
    pub fn fake(dims: &[Expression]) -> (s: Self)
        requires
            dims@.len() <= MAX_DIMS,
        ensures
            s@ == Layout::all_fake(dims@),
            s.wf(),
    {
        ShapeTracker::build(dims, true)
    }

    fn build(dims: &[Expression], fake: bool) -> (s: Self)
        requires
            dims@.len() <= MAX_DIMS,
        ensures
            s@ == (Layout { fake: Seq::new(dims@.len(), |i: int| fake), ..Layout::fresh(dims@) }),
            s.wf(),
    {
        let mut s = ShapeTracker {
            dims: new_exprs(),
            indexes: new_indexes(),
            fake: new_flags(),
            slices: new_pairs(),
            padding: new_pairs(),
        };
        let n = dims.len();
        let mut i: usize = 0;
        while i < n
            invariant
                i <= n,
                n == dims@.len(),
                n <= 6,
                s@.dims == dims@.take(i as int),
                s@.indexes == Seq::new(i as nat, |k: int| k as usize),
                s@.fake == Seq::new(i as nat, |k: int| fake),
                s@.slices == Seq::new(i as nat, |k: int| unset_slice()),
                s@.padding == Seq::new(i as nat, |k: int| no_padding()),
            decreases n - i,
        {
            push(&mut s.dims, dims[i].clone());
            push(&mut s.indexes, i);
            push(&mut s.fake, fake);
            push(&mut s.slices, (Expression::Num(0), Expression::Num(UNSET_BOUND)));
            push(&mut s.padding, (Expression::Num(0), Expression::Num(0)));
            i += 1;
        }
        assert(dims@.take(n as int) == dims@);
        s
    }

    /// The number of axes.
    pub fn len(&self) -> (n: usize)
        ensures
            n == self@.len(),
    {
        as_slice(&self.dims).len()
    }

    /// Whether the tracker has no axis.
    pub fn is_empty(&self) -> (b: bool)
        ensures
            b == (self@.len() == 0),
    {
        self.len() == 0
    }

    /// Adds a physical axis of size `dim` and shows it at position `axis`.
    pub fn add_dim(&mut self, axis: usize, dim: Expression)
        requires
            old(self).wf(),
            old(self)@.len() < MAX_DIMS,
            axis <= old(self)@.len(),
        ensures
            final(self)@ == old(self)@.with_dim(axis as int, dim, false),
            final(self).wf(),
    {
        self.grow(axis, dim, false)
    }

    /// Adds a broadcast axis of size `dim` and shows it at position `axis`.
    pub fn expand(&mut self, axis: usize, dim: Expression)
        requires
            old(self).wf(),
            old(self)@.len() < MAX_DIMS,
            axis <= old(self)@.len(),
        ensures
            final(self)@ == old(self)@.with_dim(axis as int, dim, true),
            final(self).wf(),
    {
        self.grow(axis, dim, true)
    }

    fn grow(&mut self, axis: usize, dim: Expression, fake: bool)
        requires
            old(self).wf(),
            old(self)@.len() < MAX_DIMS,
            axis <= old(self)@.len(),
        ensures
            final(self)@ == old(self)@.with_dim(axis as int, dim, fake),
            final(self).wf(),
    {
        let n = self.len();
        insert(&mut self.indexes, axis, n);
        push(&mut self.dims, dim);
        push(&mut self.fake, fake);
        push(&mut self.slices, (Expression::Num(0), Expression::Num(UNSET_BOUND)));
        push(&mut self.padding, (Expression::Num(0), Expression::Num(0)));
        proof {
            lemma_with_dim_wf(old(self)@, axis as int, dim, fake);
        }
    }

    /// Removes the axis shown at position `axis` and returns its size.
    /// The physical axes above it move down by one.
    pub fn remove_dim(&mut self, axis: usize) -> (r: Result<Expression, ShapeError>)
        requires
            old(self).wf(),
        ensures
            final(self).wf(),
            axis >= old(self)@.len() ==> r == Err::<Expression, ShapeError>(
                ShapeError::AxisOutOfRange,
            ) && final(self)@ == old(self)@,
            axis < old(self)@.len() ==> r == Ok::<Expression, ShapeError>(
                old(self)@.dims[old(self)@.indexes[axis as int] as int],
            ) && final(self)@ == old(self)@.without_axis(axis as int),
    {
        let n = self.len();
        if axis >= n {
            return Err(ShapeError::AxisOutOfRange);
        }
        let p = remove(&mut self.indexes, axis);
        let _ = remove(&mut self.fake, p);
        let _ = remove(&mut self.slices, p);
        let _ = remove(&mut self.padding, p);
        let dim = remove(&mut self.dims, p);
        let ghost rest = old(self)@.indexes.remove(axis as int);
        let mut i: usize = 0;
        while i < n - 1
            invariant
                i <= n - 1,
                n == old(self)@.len(),
                rest.len() == n - 1,
                self@.indexes.len() == n - 1,
                forall|k: int| 0 <= k < i ==> self@.indexes[k] == close_gap(rest, p)[k],
                forall|k: int| i <= k < n - 1 ==> self@.indexes[k] == rest[k],
                self@.dims == old(self)@.dims.remove(p as int),
                self@.fake == old(self)@.fake.remove(p as int),
                self@.slices == old(self)@.slices.remove(p as int),
                self@.padding == old(self)@.padding.remove(p as int),
            decreases n - 1 - i,
        {
            let v = as_slice(&self.indexes)[i];
            if v > p {
                put(&mut self.indexes, i, v - 1);
            }
            i += 1;
        }
        proof {
            assert(self@.indexes =~= close_gap(rest, p));
            lemma_without_axis_wf(old(self)@, axis as int);
        }
        Ok(dim)
    }

    /// Reorders the logical axes: position `i` shows what position
    /// `axes[i]` showed.
    pub fn permute(&mut self, axes: &[usize])
        requires
            old(self).wf(),
            axes@.len() == old(self)@.len(),
            is_permutation(axes@),
        ensures
            final(self)@ == old(self)@.permuted(axes@),
            final(self).wf(),
    {
        let n = self.len();
        let mut fresh: Vec<usize> = Vec::new();
        let mut i: usize = 0;
        while i < n
            invariant
                i <= n,
                n == axes@.len(),
                n == self@.len(),
                self@ == old(self)@,
                self.wf(),
                is_permutation(axes@),
                fresh@.len() == i,
                forall|k: int| 0 <= k < i ==> fresh@[k] == self@.indexes[axes@[k] as int],
            decreases n - i,
        {
            let a = axes[i];
            fresh.push(as_slice(&self.indexes)[a]);
            i += 1;
        }
        let mut j: usize = 0;
        while j < n
            invariant
                j <= n,
                n == fresh@.len(),
                n == old(self)@.len(),
                self@.indexes.len() == n,
                forall|k: int| 0 <= k < j ==> self@.indexes[k] == fresh@[k],
                forall|k: int|
                    0 <= k < n ==> fresh@[k] == old(self)@.indexes[axes@[k] as int],
                self@.dims == old(self)@.dims,
                self@.fake == old(self)@.fake,
                self@.slices == old(self)@.slices,
                self@.padding == old(self)@.padding,
            decreases n - j,
        {
            put(&mut self.indexes, j, fresh[j]);
            j += 1;
        }
        proof {
            let want = old(self)@.permuted(axes@).indexes;
            assert(want.len() == n);
            assert forall|k: int| 0 <= k < n implies self@.indexes[k] == want[k] by {
                assert(self@.indexes[k] == fresh@[k]);
                assert(fresh@[k] == old(self)@.indexes[axes@[k] as int]);
            }
            assert(self@.indexes =~= want);
            lemma_permuted_wf(old(self)@, axes@);
        }
    }
}

} // verus!
