//! What a shape tracker says of the tensor it describes: shape, strides,
//! element counts, and the expressions that map a logical index to memory.

use crate::arrays::as_slice;
use crate::index_laws::{
    all_stored, are_coordinates, is_readable, lemma_index_expression_value,
    lemma_valid_expression_value, logical_index, offset_from,
};
use crate::shape_laws::lemma_valid_expression_is_flag;
use crate::symbolic::{truth, BigExpression, Expression, Op};
use crate::tracker::{Layout, ShapeTracker, UNSET_BOUND};
use vstd::prelude::*;

verus! {

/// The variable that stands for the logical index.
pub const INDEX_VAR: char = 'z';

impl Layout {
    /// The logical size of physical axis `p`:
    /// `min(dim + before + after, high) - low`.
    pub open spec fn extent(self, p: int) -> Expression {
        Expression::spec_binary(
            Op::Sub,
            Expression::spec_binary(
                Op::Min,
                Expression::spec_binary(
                    Op::Add,
                    Expression::spec_binary(Op::Add, self.dims[p], self.padding[p].0),
                    self.padding[p].1,
                ),
                self.slices[p].1,
            ),
            self.slices[p].0,
        )
    }

    /// The logical sizes in presentation order, simplified.
    pub open spec fn shape(self) -> Seq<Expression> {
        Seq::new(self.len(), |k: int| self.extent(self.indexes[k] as int).minimized())
    }

    /// The memory stride of physical axis `p`: the product of the sizes of
    /// the axes after it that are not fake.
    pub open spec fn raw_stride(self, p: int) -> Expression
        decreases self.dims.len() - p,
    {
        if p + 1 >= self.dims.len() {
            Expression::Num(1)
        } else if self.fake[p + 1] {
            self.raw_stride(p + 1)
        } else {
            Expression::spec_binary(Op::Mul, self.raw_stride(p + 1), self.dims[p + 1])
        }
    }

    /// The strides by physical axis, simplified.
    pub open spec fn unordered_strides(self) -> Seq<Expression> {
        Seq::new(self.len(), |p: int| self.raw_stride(p).minimized())
    }

    /// The strides in presentation order, simplified.
    pub open spec fn strides(self) -> Seq<Expression> {
        Seq::new(self.len(), |k: int| self.raw_stride(self.indexes[k] as int).minimized())
    }

    /// The product of the logical sizes at positions `k` and after.
    pub open spec fn span_after(self, k: int) -> Expression
        decreases self.dims.len() - k,
    {
        if k >= self.dims.len() {
            Expression::Num(1)
        } else {
            Expression::spec_binary(
                Op::Mul,
                self.span_after(k + 1),
                self.extent(self.indexes[k] as int),
            )
        }
    }

    /// The coordinate of the logical index along position `k`:
    /// `(z / span) mod extent`.
    pub open spec fn coordinate(self, k: int) -> Expression {
        Expression::spec_binary(
            Op::Mod,
            Expression::spec_binary(
                Op::Div,
                Expression::Var(INDEX_VAR),
                self.span_after(k + 1),
            ),
            self.extent(self.indexes[k] as int),
        )
    }

    /// What position `k` adds to the memory offset:
    /// `(coordinate - before + (low - min(before, low))) * stride`.
    pub open spec fn offset_term(self, k: int) -> Expression {
        let p = self.indexes[k] as int;
        Expression::spec_binary(
            Op::Mul,
            Expression::spec_binary(
                Op::Add,
                Expression::spec_binary(Op::Sub, self.coordinate(k), self.padding[p].0),
                Expression::spec_binary(
                    Op::Sub,
                    self.slices[p].0,
                    Expression::spec_binary(Op::Min, self.padding[p].0, self.slices[p].0),
                ),
            ),
            self.raw_stride(p),
        )
    }

    /// The sum of the offset terms of the positions `k` and after that are
    /// not fake.
    pub open spec fn offset_sum(self, k: int) -> Expression
        decreases self.dims.len() - k,
    {
        if k >= self.dims.len() {
            Expression::Num(0)
        } else if self.fake[self.indexes[k] as int] {
            self.offset_sum(k + 1)
        } else {
            Expression::spec_binary(Op::Add, self.offset_sum(k + 1), self.offset_term(k))
        }
    }

    /// The lower test of position `k`:
    /// `coordinate >= before - min(low, before)`.
    pub open spec fn lower_test(self, k: int) -> Expression {
        let p = self.indexes[k] as int;
        Expression::spec_binary(
            Op::Gte,
            self.coordinate(k),
            Expression::spec_binary(
                Op::Sub,
                self.padding[p].0,
                Expression::spec_binary(Op::Min, self.slices[p].0, self.padding[p].0),
            ),
        )
    }

    /// The upper test of position `k`:
    /// `coordinate < min(dim + before, high)`.
    pub open spec fn upper_test(self, k: int) -> Expression {
        let p = self.indexes[k] as int;
        Expression::spec_binary(
            Op::Lt,
            self.coordinate(k),
            Expression::spec_binary(
                Op::Min,
                Expression::spec_binary(Op::Add, self.dims[p], self.padding[p].0),
                self.slices[p].1,
            ),
        )
    }

    /// The conjunction of both tests of the positions `k` and after that
    /// are not fake.
    pub open spec fn valid_chain(self, k: int) -> Expression
        decreases self.dims.len() - k,
    {
        if k >= self.dims.len() {
            Expression::Num(1)
        } else if self.fake[self.indexes[k] as int] {
            self.valid_chain(k + 1)
        } else {
            Expression::spec_binary(
                Op::And,
                Expression::spec_binary(Op::And, self.valid_chain(k + 1), self.lower_test(k)),
                self.upper_test(k),
            )
        }
    }

    /// The product of the logical sizes at the positions before `k`.
    pub open spec fn count_before(self, k: int) -> Expression
        decreases k,
    {
        if k <= 0 {
            Expression::Num(1)
        } else {
            Expression::spec_binary(
                Op::Mul,
                self.count_before(k - 1),
                self.extent(self.indexes[k - 1] as int),
            )
        }
    }

    /// The product of the sizes of the physical axes before `p` that are
    /// not fake.
    pub open spec fn stored_before(self, p: int) -> Expression
        decreases p,
    {
        if p <= 0 {
            Expression::Num(1)
        } else if self.fake[p - 1] {
            self.stored_before(p - 1)
        } else {
            Expression::spec_binary(Op::Mul, self.stored_before(p - 1), self.dims[p - 1])
        }
    }

    /// Axes are shown in physical order and none is fake.
    pub open spec fn is_contiguous(self) -> bool {
        &&& forall|i: int| 0 <= i < self.indexes.len() ==> self.indexes[i] == i
        &&& forall|i: int| 0 <= i < self.fake.len() ==> !self.fake[i]
    }

    /// Whether the cut of axis `p` is anything but the known `(0, unset)`.
    pub open spec fn axis_sliced(self, p: int) -> bool {
        self.slices[p].0.spec_to_usize() != Some(0usize) || self.slices[p].1.spec_to_usize()
            != Some(UNSET_BOUND as usize)
    }

    /// Whether the padding of axis `p` is anything but the known `(0, 0)`.
    pub open spec fn axis_padded(self, p: int) -> bool {
        self.padding[p].0.spec_to_usize() != Some(0usize) || self.padding[p].1.spec_to_usize()
            != Some(0usize)
    }

    /// Some axis is cut.
    pub open spec fn is_sliced(self) -> bool {
        exists|p: int| 0 <= p < self.slices.len() && self.axis_sliced(p)
    }

    /// Some axis is padded.
    pub open spec fn is_padded(self) -> bool {
        exists|p: int| 0 <= p < self.padding.len() && self.axis_padded(p)
    }

    /// Whether a logical index is its own memory offset.
    pub open spec fn is_plain(self) -> bool {
        self.is_contiguous() && !self.is_sliced() && !self.is_padded()
    }

    /// The memory offset of logical index `z`.
    pub open spec fn index_expression(self) -> Expression {
        if self.is_plain() {
            Expression::Var(INDEX_VAR)
        } else {
            self.offset_sum(0).minimized()
        }
    }

    /// 1 where logical index `z` names a stored element, 0 where it falls
    /// into padding.
    pub open spec fn valid_expression(self) -> Expression {
        if self.is_plain() {
            Expression::Num(1)
        } else {
            self.valid_chain(0).minimized()
        }
    }

    /// 1 where `product` is the literal 0, else `product`.
    pub open spec fn never_zero(product: Expression) -> Expression {
        if product == Expression::Num(0) {
            Expression::Num(1)
        } else {
            product
        }
    }

    /// The number of logical elements.
    pub open spec fn n_elements(self) -> Expression {
        Layout::never_zero(self.count_before(self.len() as int).minimized())
    }

    /// The number of stored elements.
    pub open spec fn n_physical_elements(self) -> Expression {
        Layout::never_zero(self.stored_before(self.len() as int).minimized())
    }
}

impl ShapeTracker {
    fn dim_at(&self, p: usize) -> (r: Expression)
        requires
            p < self@.dims.len(),
        ensures
            r == self@.dims[p as int],
    {
        as_slice(&self.dims)[p].clone()
    }

    fn index_at(&self, k: usize) -> (r: usize)
        requires
            k < self@.indexes.len(),
        ensures
            r == self@.indexes[k as int],
    {
        as_slice(&self.indexes)[k]
    }

    fn fake_at(&self, p: usize) -> (r: bool)
        requires
            p < self@.fake.len(),
        ensures
            r == self@.fake[p as int],
    {
        as_slice(&self.fake)[p]
    }

    fn slice_at(&self, p: usize) -> (r: (Expression, Expression))
        requires
            p < self@.slices.len(),
        ensures
            r == self@.slices[p as int],
    {
        let s = as_slice(&self.slices);
        (s[p].0.clone(), s[p].1.clone())
    }

    fn padding_at(&self, p: usize) -> (r: (Expression, Expression))
        requires
            p < self@.padding.len(),
        ensures
            r == self@.padding[p as int],
    {
        let s = as_slice(&self.padding);
        (s[p].0.clone(), s[p].1.clone())
    }

    fn extent_at(&self, p: usize) -> (r: Expression)
        requires
            self.wf(),
            p < self@.len(),
        ensures
            r == self@.extent(p as int),
    {
        let (before, after) = self.padding_at(p);
        let (lo, hi) = self.slice_at(p);
        self.dim_at(p).plus(before).plus(after).min(hi).minus(lo)
    }

    fn coordinate_at(&self, k: usize, span: &Expression) -> (r: Expression)
        requires
            self.wf(),
            k < self@.len(),
            *span == self@.span_after(k + 1),
        ensures
            r == self@.coordinate(k as int),
    {
        let p = self.index_at(k);
        Expression::var(INDEX_VAR).divided_by(span.clone()).modulo(self.extent_at(p))
    }

    /// The memory stride of every physical axis, not simplified.
    fn raw_strides(&self) -> (v: Vec<Expression>)
        requires
            self.wf(),
        ensures
            v@.len() == self@.len(),
            forall|p: int| 0 <= p < v@.len() ==> v@[p] == self@.raw_stride(p),
    {
        let n = self.len();
        let mut v: Vec<Expression> = Vec::new();
        let mut i: usize = 0;
        while i < n
            invariant
                i <= n,
                v@.len() == i,
            decreases n - i,
        {
            v.push(Expression::Num(1));
            i += 1;
        }
        let mut p: usize = n;
        let mut state = Expression::Num(1);
        while p > 0
            invariant
                p <= n,
                n == self@.len(),
                self.wf(),
                v@.len() == n,
                state == self@.raw_stride(p as int - 1),
                forall|q: int| p <= q < n ==> v@[q] == self@.raw_stride(q),
            decreases p,
        {
            p -= 1;
            v.set(p, state.clone());
            if !self.fake_at(p) {
                state = state.times(self.dim_at(p));
            }
        }
        v
    }

    /// The strides by physical axis.
    pub fn unordered_strides(&self) -> (v: Vec<Expression>)
        requires
            self.wf(),
        ensures
            v@ == self@.unordered_strides(),
    {
        let raw = self.raw_strides();
        let n = self.len();
        let mut v: Vec<Expression> = Vec::new();
        let mut p: usize = 0;
        while p < n
            invariant
                p <= n,
                n == self@.len(),
                raw@.len() == n,
                forall|q: int| 0 <= q < n ==> raw@[q] == self@.raw_stride(q),
                v@.len() == p,
                forall|q: int| 0 <= q < p ==> v@[q] == self@.unordered_strides()[q],
            decreases n - p,
        {
            v.push(raw[p].clone().minimize());
            p += 1;
        }
        assert(v@ =~= self@.unordered_strides());
        v
    }

    /// The strides in presentation order.
    pub fn strides(&self) -> (v: Vec<Expression>)
        requires
            self.wf(),
        ensures
            v@ == self@.strides(),
    {
        let raw = self.raw_strides();
        let n = self.len();
        let mut v: Vec<Expression> = Vec::new();
        let mut k: usize = 0;
        while k < n
            invariant
                k <= n,
                n == self@.len(),
                self.wf(),
                raw@.len() == n,
                forall|q: int| 0 <= q < n ==> raw@[q] == self@.raw_stride(q),
                v@.len() == k,
                forall|q: int| 0 <= q < k ==> v@[q] == self@.strides()[q],
            decreases n - k,
        {
            let p = self.index_at(k);
            v.push(raw[p].clone().minimize());
            k += 1;
        }
        assert(v@ =~= self@.strides());
        v
    }

    /// The logical sizes in presentation order.
    pub fn shape(&self) -> (v: Vec<BigExpression>)
        requires
            self.wf(),
        ensures
            v@ == self@.shape(),
            v@.len() == self@.len(),
    {
        let n = self.len();
        let mut v: Vec<Expression> = Vec::new();
        let mut k: usize = 0;
        while k < n
            invariant
                k <= n,
                n == self@.len(),
                self.wf(),
                v@.len() == k,
                forall|q: int| 0 <= q < k ==> v@[q] == self@.shape()[q],
            decreases n - k,
        {
            let p = self.index_at(k);
            v.push(self.extent_at(p).minimize());
            k += 1;
        }
        assert(v@ =~= self@.shape());
        v
    }

    /// Whether the axes are shown in physical order and none is fake.
    pub fn is_contiguous(&self) -> (b: bool)
        requires
            self.wf(),
        ensures
            b == self@.is_contiguous(),
    {
        let n = self.len();
        let mut i: usize = 0;
        while i < n
            invariant
                i <= n,
                n == self@.len(),
                self.wf(),
                forall|j: int| 0 <= j < i ==> self@.indexes[j] == j && !self@.fake[j],
            decreases n - i,
        {
            if self.index_at(i) != i || self.fake_at(i) {
                return false;
            }
            i += 1;
        }
        true
    }

    /// Whether some axis is cut.
    pub fn is_sliced(&self) -> (b: bool)
        requires
            self.wf(),
        ensures
            b == self@.is_sliced(),
    {
        let n = self.len();
        let mut p: usize = 0;
        while p < n
            invariant
                p <= n,
                n == self@.len(),
                self.wf(),
                forall|q: int| 0 <= q < p ==> !self@.axis_sliced(q),
            decreases n - p,
        {
            let s = as_slice(&self.slices);
            let lo = s[p].0.to_usize();
            let hi = s[p].1.to_usize();
            if lo != Some(0) || hi != Some(UNSET_BOUND as usize) {
                assert(self@.axis_sliced(p as int));
                return true;
            }
            p += 1;
        }
        false
    }

    /// Whether some axis is padded.
    pub fn is_padded(&self) -> (b: bool)
        requires
            self.wf(),
        ensures
            b == self@.is_padded(),
    {
        let n = self.len();
        let mut p: usize = 0;
        while p < n
            invariant
                p <= n,
                n == self@.len(),
                self.wf(),
                forall|q: int| 0 <= q < p ==> !self@.axis_padded(q),
            decreases n - p,
        {
            let s = as_slice(&self.padding);
            let before = s[p].0.to_usize();
            let after = s[p].1.to_usize();
            if before != Some(0) || after != Some(0) {
                assert(self@.axis_padded(p as int));
                return true;
            }
            p += 1;
        }
        false
    }

    /// An expression over `z`, the logical index, for the memory offset:
    /// where the sizes have values and `z` is the logical index of
    /// coordinates, the expression has the memory offset of these
    /// coordinates as its value (the logical index itself for a plain
    /// tracker).
    pub fn index_expression(&self) -> (e: BigExpression)
        requires
            self.wf(),
        ensures
            e == self@.index_expression(),
            forall|env: Map<char, int>, c: Seq<int>|
                is_readable(self@, env) && #[trigger] are_coordinates(self@, env, c)
                    && env.contains_key(INDEX_VAR) && env[INDEX_VAR] == logical_index(
                    self@,
                    env,
                    c,
                ) ==> #[trigger] e.eval(env) == Some(
                    if self@.is_plain() {
                        logical_index(self@, env, c)
                    } else {
                        offset_from(self@, env, c, 0)
                    },
                ),
    {
        proof {
            assert forall|env: Map<char, int>, c: Seq<int>|
                is_readable(self@, env) && #[trigger] are_coordinates(self@, env, c)
                    && env.contains_key(INDEX_VAR) && env[INDEX_VAR] == logical_index(
                    self@,
                    env,
                    c,
                ) implies #[trigger] self@.index_expression().eval(env) == Some(
                if self@.is_plain() {
                    logical_index(self@, env, c)
                } else {
                    offset_from(self@, env, c, 0)
                },
            ) by {
                lemma_index_expression_value(self@, env, c);
            }
        }
        if self.is_contiguous() && !self.is_sliced() && !self.is_padded() {
            return Expression::var(INDEX_VAR);
        }
        let raw = self.raw_strides();
        let n = self.len();
        let mut sum = Expression::Num(0);
        let mut span = Expression::Num(1);
        let mut k: usize = n;
        while k > 0
            invariant
                k <= n,
                n == self@.len(),
                self.wf(),
                raw@.len() == n,
                forall|q: int| 0 <= q < n ==> raw@[q] == self@.raw_stride(q),
                sum == self@.offset_sum(k as int),
                span == self@.span_after(k as int),
            decreases k,
        {
            k -= 1;
            let p = self.index_at(k);
            if !self.fake_at(p) {
                let (before, _) = self.padding_at(p);
                let (lo, _) = self.slice_at(p);
                let shift = lo.clone().minus(before.clone().min(lo));
                let term = self.coordinate_at(k, &span).minus(before).plus(shift).times(
                    raw[p].clone(),
                );
                sum = sum.plus(term);
            }
            span = span.times(self.extent_at(p));
        }
        sum.minimize()
    }

    /// An expression over `z`, the logical index: 1 where it names a
    /// stored element, 0 where it falls into padding. Where the sizes
    /// have values and `z` is the logical index of coordinates, the
    /// value is 1 exactly if every coordinate lies in the stored part of
    /// its axis.
    pub fn valid_expression(&self) -> (e: BigExpression)
        requires
            self.wf(),
        ensures
            e == self@.valid_expression(),
            forall|env: Map<char, int>| (#[trigger] e.eval(env)) matches Some(v) ==> v == 0 || v == 1,
            forall|env: Map<char, int>, c: Seq<int>|
                is_readable(self@, env) && #[trigger] are_coordinates(self@, env, c)
                    && env.contains_key(INDEX_VAR) && env[INDEX_VAR] == logical_index(
                    self@,
                    env,
                    c,
                ) ==> #[trigger] e.eval(env) == Some(
                    if self@.is_plain() {
                        1
                    } else {
                        truth(all_stored(self@, env, c, 0))
                    },
                ),
    {
        proof {
            assert forall|env: Map<char, int>| (#[trigger] self@.valid_expression().eval(
                env,
            )) matches Some(v) ==> v == 0 || v == 1 by {
                lemma_valid_expression_is_flag(self@, env);
            }
            assert forall|env: Map<char, int>, c: Seq<int>|
                is_readable(self@, env) && #[trigger] are_coordinates(self@, env, c)
                    && env.contains_key(INDEX_VAR) && env[INDEX_VAR] == logical_index(
                    self@,
                    env,
                    c,
                ) implies #[trigger] self@.valid_expression().eval(env) == Some(
                if self@.is_plain() {
                    1
                } else {
                    truth(all_stored(self@, env, c, 0))
                },
            ) by {
                lemma_valid_expression_value(self@, env, c);
            }
        }
        if self.is_contiguous() && !self.is_sliced() && !self.is_padded() {
            return Expression::num(1);
        }
        let n = self.len();
        let mut all = Expression::Num(1);
        let mut span = Expression::Num(1);
        let mut k: usize = n;
        while k > 0
            invariant
                k <= n,
                n == self@.len(),
                self.wf(),
                all == self@.valid_chain(k as int),
                span == self@.span_after(k as int),
            decreases k,
        {
            k -= 1;
            let p = self.index_at(k);
            if !self.fake_at(p) {
                let (before, _) = self.padding_at(p);
                let (lo, hi) = self.slice_at(p);
                let floor = before.clone().minus(lo.min(before.clone()));
                let lower = self.coordinate_at(k, &span).gte(floor);
                let upper = self.coordinate_at(k, &span).lt(self.dim_at(p).plus(before).min(hi));
                all = all.and(lower).and(upper);
            }
            span = span.times(self.extent_at(p));
        }
        all.minimize()
    }

    /// The number of logical elements, 1 where the product is the literal 0.
    pub fn n_elements(&self) -> (e: BigExpression)
        requires
            self.wf(),
        ensures
            e == self@.n_elements(),
    {
        let n = self.len();
        let mut product = Expression::Num(1);
        let mut k: usize = 0;
        while k < n
            invariant
                k <= n,
                n == self@.len(),
                self.wf(),
                product == self@.count_before(k as int),
            decreases n - k,
        {
            let p = self.index_at(k);
            product = product.times(self.extent_at(p));
            k += 1;
        }
        ShapeTracker::never_zero(product.minimize())
    }

    /// The number of stored elements, 1 where the product is the literal 0.
    pub fn n_physical_elements(&self) -> (e: BigExpression)
        requires
            self.wf(),
        ensures
            e == self@.n_physical_elements(),
    {
        let n = self.len();
        let mut product = Expression::Num(1);
        let mut p: usize = 0;
        while p < n
            invariant
                p <= n,
                n == self@.len(),
                self.wf(),
                product == self@.stored_before(p as int),
            decreases n - p,
        {
            if !self.fake_at(p) {
                product = product.times(self.dim_at(p));
            }
            p += 1;
        }
        ShapeTracker::never_zero(product.minimize())
    }

    fn never_zero(product: Expression) -> (e: Expression)
        ensures
            e == Layout::never_zero(product),
    {
        match product {
            Expression::Num(0) => Expression::Num(1),
            other => other,
        }
    }
}

} // verus!
