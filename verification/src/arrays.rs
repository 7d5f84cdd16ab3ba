//! The bounded arrays of a shape tracker: `tinyvec::ArrayVec` with six
//! slots, and what the library assumes of the methods it calls on them.

use crate::symbolic::Expression;
use tinyvec::ArrayVec;
use vstd::prelude::*;

verus! {

/// The most axes a shape tracker can hold.
pub const MAX_DIMS: usize = 6;

/// `tinyvec::ArrayVec`, opaque: what it holds is known by the names below.
#[verifier::external_type_specification]
#[verifier::external_body]
#[verifier::reject_recursive_types(A)]
pub struct ExArrayVec<A>(tinyvec::ArrayVec<A>);

/// The items of an array of expressions, first to last.
pub uninterp spec fn expr_items(v: ArrayVec<[Expression; 6]>) -> Seq<Expression>;

/// The items of an array of axis numbers, first to last.
pub uninterp spec fn index_items(v: ArrayVec<[usize; 6]>) -> Seq<usize>;

/// The items of an array of flags, first to last.
pub uninterp spec fn flag_items(v: ArrayVec<[bool; 6]>) -> Seq<bool>;

/// The items of an array of expression pairs, first to last.
pub uninterp spec fn pair_items(v: ArrayVec<[(Expression, Expression); 6]>) -> Seq<
    (Expression, Expression),
>;

/// An item type of the tracker's arrays, with the name of what an array of
/// it holds. The four impls below are all there are.
pub(crate) trait Slot: Sized + Default {
    spec fn items(v: ArrayVec<[Self; 6]>) -> Seq<Self>;
}

impl Slot for Expression {
    open spec fn items(v: ArrayVec<[Expression; 6]>) -> Seq<Expression> {
        expr_items(v)
    }
}

impl Slot for usize {
    open spec fn items(v: ArrayVec<[usize; 6]>) -> Seq<usize> {
        index_items(v)
    }
}

impl Slot for bool {
    open spec fn items(v: ArrayVec<[bool; 6]>) -> Seq<bool> {
        flag_items(v)
    }
}

impl Slot for (Expression, Expression) {
    open spec fn items(v: ArrayVec<[(Expression, Expression); 6]>) -> Seq<
        (Expression, Expression),
    > {
        pair_items(v)
    }
}

/// `ArrayVec::new` for expressions: an array with no items.
#[verifier::external_body]
pub(crate) fn new_exprs() -> (v: ArrayVec<[Expression; 6]>)
    ensures
        expr_items(v) == Seq::<Expression>::empty(),
{
    ArrayVec::new()
}

/// `ArrayVec::new` for axis numbers: an array with no items.
#[verifier::external_body]
pub(crate) fn new_indexes() -> (v: ArrayVec<[usize; 6]>)
    ensures
        index_items(v) == Seq::<usize>::empty(),
{
    ArrayVec::new()
}

/// `ArrayVec::new` for flags: an array with no items.
#[verifier::external_body]
pub(crate) fn new_flags() -> (v: ArrayVec<[bool; 6]>)
    ensures
        flag_items(v) == Seq::<bool>::empty(),
{
    ArrayVec::new()
}

/// `ArrayVec::new` for expression pairs: an array with no items.
#[verifier::external_body]
pub(crate) fn new_pairs() -> (v: ArrayVec<[(Expression, Expression); 6]>)
    ensures
        pair_items(v) == Seq::<(Expression, Expression)>::empty(),
{
    ArrayVec::new()
}

/// `ArrayVec::as_slice`: the items as a slice. The array never holds more
/// than its six slots.
#[verifier::external_body]
pub(crate) fn as_slice<T: Slot>(v: &ArrayVec<[T; 6]>) -> (s: &[T])
    ensures
        s@ == T::items(*v),
        s@.len() <= 6,
{
    v.as_slice()
}

/// `ArrayVec::push`: `x` becomes the last item. The call panics on a full
/// array, which `requires` leaves out.
#[verifier::external_body]
pub(crate) fn push<T: Slot>(v: &mut ArrayVec<[T; 6]>, x: T)
    requires
        T::items(*old(v)).len() < 6,
    ensures
        T::items(*final(v)) == T::items(*old(v)).push(x),
{
    v.push(x)
}

/// `ArrayVec::insert`: `x` becomes item `index`, the items from there on
/// move up by one. The call panics on a full array and on `index > len`.
#[verifier::external_body]
pub(crate) fn insert<T: Slot>(v: &mut ArrayVec<[T; 6]>, index: usize, x: T)
    requires
        T::items(*old(v)).len() < 6,
        index <= T::items(*old(v)).len(),
    ensures
        T::items(*final(v)) == T::items(*old(v)).insert(index as int, x),
{
    v.insert(index, x)
}

/// `ArrayVec::remove`: item `index` leaves and is returned, the items
/// after it move down by one. The call panics on `index >= len`.
#[verifier::external_body]
pub(crate) fn remove<T: Slot>(v: &mut ArrayVec<[T; 6]>, index: usize) -> (x: T)
    requires
        index < T::items(*old(v)).len(),
    ensures
        x == T::items(*old(v))[index as int],
        T::items(*final(v)) == T::items(*old(v)).remove(index as int),
{
    v.remove(index)
}

/// Assignment through `IndexMut`: item `index` becomes `x`, the others
/// stay. The call panics on `index >= len`.
#[verifier::external_body]
pub(crate) fn put<T: Slot>(v: &mut ArrayVec<[T; 6]>, index: usize, x: T)
    requires
        index < T::items(*old(v)).len(),
    ensures
        T::items(*final(v)) == T::items(*old(v)).update(index as int, x),
{
    v[index] = x;
}

} // verus!
