//! What the fused operators hand to their device kernels: sizes, memory
//! orders and offsets, computed from the shape trackers of the operands.
//! Each function answers `None` where a size is not a known number or a
//! product does not fit its machine type.

use crate::symbolic::Expression;
use crate::tracker::{Layout, ShapeTracker};
use vstd::prelude::*;

verus! {

/// The width of a half-precision number in bytes.
pub const HALF_BYTES: u64 = 2;

/// The known numbers that the expressions stand for, where all of them
/// stand for one.
pub open spec fn numbers(v: Seq<Expression>) -> Option<Seq<usize>> {
    if forall|i: int| 0 <= i < v.len() ==> (#[trigger] v[i]).spec_to_usize() is Some {
        Some(Seq::new(v.len(), |i: int| v[i].spec_to_usize()->Some_0))
    } else {
        None
    }
}

/// The known numbers that the expressions stand for.
pub fn to_numbers(v: &Vec<Expression>) -> (r: Option<Vec<usize>>)
    ensures
        match r {
            Some(out) => numbers(v@) == Some(out@),
            None => numbers(v@) is None,
        },
{
    let mut out: Vec<usize> = Vec::new();
    let mut i: usize = 0;
    while i < v.len()
        invariant
            i <= v@.len(),
            out@.len() == i,
            forall|j: int| 0 <= j < i ==> (#[trigger] v@[j]).spec_to_usize() == Some(out@[j]),
        decreases v@.len() - i,
    {
        match v[i].to_usize() {
            Some(x) => out.push(x),
            None => {
                return None;
            },
        }
        i += 1;
    }
    assert(numbers(v@)->Some_0 =~= out@);
    Some(out)
}

/// What the plain matmul kernel is started with.
#[derive(Debug, Clone, Copy, PartialEq, Eq, Structural)]
pub struct MatmulLaunch {
    pub m: u32,
    pub k: u32,
    pub n: u32,
    pub a_row_major: bool,
    pub b_row_major: bool,
    /// Bytes of the result: `m * n` half-precision numbers.
    pub out_bytes: u64,
    /// Kernel instances: one for each number of the result.
    pub threads: u64,
}

/// What the batched matmul kernel is started with.
#[derive(Debug, Clone, Copy, PartialEq, Eq, Structural)]
pub struct BatchMatmulLaunch {
    pub batch: u32,
    pub m: u32,
    pub k: u32,
    pub n: u32,
    pub a_row_major: bool,
    pub b_row_major: bool,
    pub a_batch_stride: u32,
    pub out_bytes: u64,
    pub threads: u64,
}

/// What cuBLAS is called with for a plain matmul. The result is computed
/// transposed, so the operands change places: the first operand of the
/// call is `b`, and it is transposed where `b` is not row-major.
#[derive(Debug, Clone, Copy, PartialEq, Eq, Structural)]
pub struct GemmConfig {
    pub transpose_a: bool,
    pub transpose_b: bool,
    pub m: i32,
    pub n: i32,
    pub k: i32,
    pub lda: i32,
    pub ldb: i32,
    pub ldc: i32,
    /// Numbers of the result.
    pub out_len: usize,
}

/// The launch of the plain kernel for operands `a` of shape `[m, k]` and
/// `b` of shape `[k, n]`: an operand is row-major where its first stride
/// is the larger one.
pub open spec fn matmul_launch_of(a: Layout, b: Layout) -> Option<MatmulLaunch> {
    match (numbers(a.shape()), numbers(a.strides()), numbers(b.shape()), numbers(b.strides())) {
        (Some(a_shape), Some(a_strides), Some(b_shape), Some(b_strides)) => {
            if a.len() < 2 || b.len() < 2 {
                None
            } else {
                let m = a_shape[0];
                let k = a_shape[1];
                let n = b_shape[1];
                if m > u32::MAX || k > u32::MAX || n > u32::MAX || m * n * 2 > u64::MAX {
                    None
                } else {
                    Some(
                        MatmulLaunch {
                            m: m as u32,
                            k: k as u32,
                            n: n as u32,
                            a_row_major: a_strides[0] > a_strides[1],
                            b_row_major: b_strides[0] > b_strides[1],
                            out_bytes: (m * n * 2) as u64,
                            threads: (m * n) as u64,
                        },
                    )
                }
            }
        },
        _ => None,
    }
}

/// The launch of the plain matmul kernel.
pub fn matmul_launch(a: &ShapeTracker, b: &ShapeTracker) -> (r: Option<MatmulLaunch>)
    requires
        a.wf(),
        b.wf(),
    ensures
        r == matmul_launch_of(a@, b@),
{
    let a_shape = to_numbers(&a.shape())?;
    let a_strides = to_numbers(&a.strides())?;
    let b_shape = to_numbers(&b.shape())?;
    let b_strides = to_numbers(&b.strides())?;
    if a_shape.len() < 2 || b_shape.len() < 2 {
        return None;
    }
    let m = a_shape[0];
    let k = a_shape[1];
    let n = b_shape[1];
    if m > u32::MAX as usize || k > u32::MAX as usize || n > u32::MAX as usize {
        return None;
    }
    assert(m * n <= 0xffff_ffff * 0xffff_ffff) by (nonlinear_arith)
        requires
            m <= 0xffff_ffff,
            n <= 0xffff_ffff,
    ;
    let threads: u64 = m as u64 * n as u64;
    let out_bytes: u64 = threads.checked_mul(HALF_BYTES)?;
    Some(
        MatmulLaunch {
            m: m as u32,
            k: k as u32,
            n: n as u32,
            a_row_major: a_strides[0] > a_strides[1],
            b_row_major: b_strides[0] > b_strides[1],
            out_bytes,
            threads,
        },
    )
}

/// The launch of the batched kernel for operands `a` of shape
/// `[batch, m, k]` and `b` of shape `[k, n]`.
pub open spec fn batch_matmul_launch_of(a: Layout, b: Layout) -> Option<BatchMatmulLaunch> {
    match (numbers(a.shape()), numbers(a.strides()), numbers(b.shape()), numbers(b.strides())) {
        (Some(a_shape), Some(a_strides), Some(b_shape), Some(b_strides)) => {
            if a.len() < 3 || b.len() < 2 {
                None
            } else {
                let batch = a_shape[0];
                let m = a_shape[1];
                let k = a_shape[2];
                let n = b_shape[1];
                if batch > u32::MAX || m > u32::MAX || k > u32::MAX || n > u32::MAX
                    || a_strides[0] > u32::MAX || batch * m * n * 2 > u64::MAX {
                    None
                } else {
                    Some(
                        BatchMatmulLaunch {
                            batch: batch as u32,
                            m: m as u32,
                            k: k as u32,
                            n: n as u32,
                            a_row_major: a_strides[1] > a_strides[2],
                            b_row_major: b_strides[0] > b_strides[1],
                            a_batch_stride: a_strides[0] as u32,
                            out_bytes: (batch * m * n * 2) as u64,
                            threads: (batch * m * n) as u64,
                        },
                    )
                }
            }
        },
        _ => None,
    }
}

/// The launch of the batched matmul kernel.
pub fn batch_matmul_launch(a: &ShapeTracker, b: &ShapeTracker) -> (r: Option<BatchMatmulLaunch>)
    requires
        a.wf(),
        b.wf(),
    ensures
        r == batch_matmul_launch_of(a@, b@),
{
    let a_shape = to_numbers(&a.shape())?;
    let a_strides = to_numbers(&a.strides())?;
    let b_shape = to_numbers(&b.shape())?;
    let b_strides = to_numbers(&b.strides())?;
    if a_shape.len() < 3 || b_shape.len() < 2 {
        return None;
    }
    let batch = a_shape[0];
    let m = a_shape[1];
    let k = a_shape[2];
    let n = b_shape[1];
    let limit = u32::MAX as usize;
    if batch > limit || m > limit || k > limit || n > limit || a_strides[0] > limit {
        return None;
    }
    assert(m * n <= 0xffff_ffff * 0xffff_ffff) by (nonlinear_arith)
        requires
            m <= 0xffff_ffff,
            n <= 0xffff_ffff,
    ;
    let plane: u64 = m as u64 * n as u64;
    proof {
        assert(batch * m * n == batch * (m * n)) by (nonlinear_arith);
        assert(batch * m * n * 2 == (batch * (m * n)) * 2) by (nonlinear_arith);
        assert(batch * (m * n) > u64::MAX ==> batch * (m * n) * 2 > u64::MAX) by (nonlinear_arith);
    }
    let threads: u64 = (batch as u64).checked_mul(plane)?;
    let out_bytes: u64 = threads.checked_mul(HALF_BYTES)?;
    Some(
        BatchMatmulLaunch {
            batch: batch as u32,
            m: m as u32,
            k: k as u32,
            n: n as u32,
            a_row_major: a_strides[1] > a_strides[2],
            b_row_major: b_strides[0] > b_strides[1],
            a_batch_stride: a_strides[0] as u32,
            out_bytes,
            threads,
        },
    )
}

/// The cuBLAS call for operands `a` of shape `[m, k]` and `b` of shape
/// `[k, n]`: an operand is row-major where its last stride is 1.
pub open spec fn gemm_config_of(a: Layout, b: Layout) -> Option<GemmConfig> {
    match (numbers(a.shape()), numbers(a.strides()), numbers(b.shape()), numbers(b.strides())) {
        (Some(a_shape), Some(a_strides), Some(b_shape), Some(b_strides)) => {
            if a.len() < 2 || b.len() < 2 {
                None
            } else {
                let m = a_shape[0];
                let k = a_shape[1];
                let n = b_shape[1];
                let a_row_major = a_strides[1] == 1;
                let b_row_major = b_strides[1] == 1;
                if m > i32::MAX || k > i32::MAX || n > i32::MAX || m * n > usize::MAX {
                    None
                } else {
                    Some(
                        GemmConfig {
                            transpose_a: !b_row_major,
                            transpose_b: !a_row_major,
                            m: n as i32,
                            n: m as i32,
                            k: k as i32,
                            lda: if b_row_major {
                                n as i32
                            } else {
                                k as i32
                            },
                            ldb: if a_row_major {
                                k as i32
                            } else {
                                m as i32
                            },
                            ldc: n as i32,
                            out_len: (m * n) as usize,
                        },
                    )
                }
            }
        },
        _ => None,
    }
}

/// The cuBLAS call for a plain matmul.
pub fn gemm_config(a: &ShapeTracker, b: &ShapeTracker) -> (r: Option<GemmConfig>)
    requires
        a.wf(),
        b.wf(),
    ensures
        r == gemm_config_of(a@, b@),
{
    let a_shape = to_numbers(&a.shape())?;
    let a_strides = to_numbers(&a.strides())?;
    let b_shape = to_numbers(&b.shape())?;
    let b_strides = to_numbers(&b.strides())?;
    if a_shape.len() < 2 || b_shape.len() < 2 {
        return None;
    }
    let m = a_shape[0];
    let k = a_shape[1];
    let n = b_shape[1];
    let limit = i32::MAX as usize;
    if m > limit || k > limit || n > limit {
        return None;
    }
    let out_len = m.checked_mul(n)?;
    let a_row_major = a_strides[1] == 1;
    let b_row_major = b_strides[1] == 1;
    Some(
        GemmConfig {
            transpose_a: !b_row_major,
            transpose_b: !a_row_major,
            m: n as i32,
            n: m as i32,
            k: k as i32,
            lda: if b_row_major {
                n as i32
            } else {
                k as i32
            },
            ldb: if a_row_major {
                k as i32
            } else {
                m as i32
            },
            ldc: n as i32,
            out_len,
        },
    )
}


/// One matrix product of the attention matmul: where its result and its
/// operands start, counted in numbers from the start of their buffers.
#[derive(Debug, Clone, Copy, PartialEq, Eq, Structural)]
pub struct GemmCall {
    pub dst: usize,
    pub lhs: usize,
    pub rhs: usize,
}

/// The matrix products of the attention matmul: `calls.len()` products of
/// a `m x k` by a `k x n` matrix, with the strides of result and operands.
#[derive(Debug, PartialEq, Eq)]
pub struct AttnPlan {
    pub m: usize,
    pub n: usize,
    pub k: usize,
    pub dst_cs: isize,
    pub dst_rs: isize,
    pub lhs_cs: isize,
    pub lhs_rs: isize,
    pub rhs_cs: isize,
    pub rhs_rs: isize,
    /// Numbers of the result.
    pub out_len: usize,
    pub calls: Vec<GemmCall>,
}

/// The sizes and strides that the attention plan is made from: operand
/// `a` of shape `[a, b, c, d]`, operand `b` of shape `[a, b, d, e]`.
pub struct AttnSizes {
    pub a: int,
    pub b: int,
    pub c: int,
    pub d: int,
    pub e: int,
    pub lhs: Seq<usize>,
    pub rhs: Seq<usize>,
}

/// The sizes and strides of the operands, where they are known numbers
/// and the operands have four axes.
pub open spec fn attn_sizes_of(a: Layout, b: Layout) -> Option<AttnSizes> {
    match (numbers(a.shape()), numbers(a.strides()), numbers(b.shape()), numbers(b.strides())) {
        (Some(a_shape), Some(a_strides), Some(b_shape), Some(b_strides)) => {
            if a.len() < 4 || b.len() < 4 {
                None
            } else {
                Some(
                    AttnSizes {
                        a: a_shape[0] as int,
                        b: a_shape[1] as int,
                        c: a_shape[2] as int,
                        d: a_shape[3] as int,
                        e: b_shape[3] as int,
                        lhs: a_strides,
                        rhs: b_strides,
                    },
                )
            }
        },
        _ => None,
    }
}

impl AttnSizes {
    /// Whether every count, stride and offset of the plan fits its
    /// machine type.
    pub open spec fn fits(self) -> bool {
        &&& self.a * self.b <= usize::MAX
        &&& self.c * self.e <= usize::MAX
        &&& self.a * self.b * (self.c * self.e) <= usize::MAX
        &&& self.e <= isize::MAX
        &&& self.lhs[2] <= isize::MAX && self.lhs[3] <= isize::MAX
        &&& self.rhs[2] <= isize::MAX && self.rhs[3] <= isize::MAX
        &&& self.a > 0 && self.b > 0 ==> (self.a - 1) * self.lhs[0] + (self.b - 1) * self.lhs[1]
            <= usize::MAX && (self.a - 1) * self.rhs[0] + (self.b - 1) * self.rhs[1] <= usize::MAX
    }

    /// The product for batch entry `(i, j)`.
    pub open spec fn call(self, i: int, j: int) -> GemmCall {
        GemmCall {
            dst: ((i * self.b + j) * (self.c * self.e)) as usize,
            lhs: (i * self.lhs[0] + j * self.lhs[1]) as usize,
            rhs: (i * self.rhs[0] + j * self.rhs[1]) as usize,
        }
    }

    /// The products, batch entry `(i, j)` at place `i * b + j`.
    pub open spec fn calls(self) -> Seq<GemmCall> {
        Seq::new((self.a * self.b) as nat, |x: int| self.call(x / self.b, x % self.b))
    }
}

/// Whether `plan` is the plan for `sizes`.
pub open spec fn is_plan_for(plan: AttnPlan, sizes: AttnSizes) -> bool {
    &&& plan.m == sizes.c
    &&& plan.n == sizes.e
    &&& plan.k == sizes.d
    &&& plan.dst_cs == 1
    &&& plan.dst_rs == sizes.e
    &&& plan.lhs_cs == sizes.lhs[3]
    &&& plan.lhs_rs == sizes.lhs[2]
    &&& plan.rhs_cs == sizes.rhs[3]
    &&& plan.rhs_rs == sizes.rhs[2]
    &&& plan.out_len == sizes.a * sizes.b * (sizes.c * sizes.e)
    &&& plan.calls@ == sizes.calls()
}

/// The matrix products that make up the attention matmul.
pub fn attn_plan(a: &ShapeTracker, b: &ShapeTracker) -> (r: Option<AttnPlan>)
    requires
        a.wf(),
        b.wf(),
    ensures
        match r {
            Some(plan) => attn_sizes_of(a@, b@) matches Some(sizes) && sizes.fits() && is_plan_for(
                plan,
                sizes,
            ),
            None => attn_sizes_of(a@, b@) matches Some(sizes) ==> !sizes.fits(),
        },
{
    let a_shape = to_numbers(&a.shape())?;
    let lhs = to_numbers(&a.strides())?;
    let b_shape = to_numbers(&b.shape())?;
    let rhs = to_numbers(&b.strides())?;
    if a_shape.len() < 4 || b_shape.len() < 4 {
        return None;
    }
    let ghost sizes = attn_sizes_of(a@, b@)->Some_0;
    let batch = a_shape[0];
    let heads = a_shape[1];
    let c = a_shape[2];
    let d = a_shape[3];
    let e = b_shape[3];
    let limit = isize::MAX as usize;
    if e > limit || lhs[2] > limit || lhs[3] > limit || rhs[2] > limit || rhs[3] > limit {
        return None;
    }
    let count = batch.checked_mul(heads)?;
    let plane = c.checked_mul(e)?;
    let out_len = count.checked_mul(plane)?;
    if batch > 0 && heads > 0 {
        let last_lhs = match ((batch - 1).checked_mul(lhs[0]), (heads - 1).checked_mul(lhs[1])) {
            (Some(x), Some(y)) => x.checked_add(y),
            _ => None,
        };
        let last_rhs = match ((batch - 1).checked_mul(rhs[0]), (heads - 1).checked_mul(rhs[1])) {
            (Some(x), Some(y)) => x.checked_add(y),
            _ => None,
        };
        if last_lhs.is_none() || last_rhs.is_none() {
            return None;
        }
    }
    assert(sizes.fits());
    let mut calls: Vec<GemmCall> = Vec::new();
    let mut i: usize = 0;
    while i < batch
        invariant
            i <= batch,
            sizes.fits(),
            sizes.a == batch && sizes.b == heads && plane == sizes.c * sizes.e,
            sizes.lhs == lhs@ && sizes.rhs == rhs@,
            lhs@.len() >= 4 && rhs@.len() >= 4,
            calls@.len() == i * heads,
            forall|x: int| 0 <= x < calls@.len() ==> calls@[x] == sizes.call(x / sizes.b, x % sizes.b),
        decreases batch - i,
    {
        let mut j: usize = 0;
        while j < heads
            invariant
                i < batch,
                j <= heads,
                sizes.fits(),
                sizes.a == batch && sizes.b == heads && plane == sizes.c * sizes.e,
                sizes.lhs == lhs@ && sizes.rhs == rhs@,
                lhs@.len() >= 4 && rhs@.len() >= 4,
                calls@.len() == i * heads + j,
                forall|x: int|
                    0 <= x < calls@.len() ==> calls@[x] == sizes.call(x / sizes.b, x % sizes.b),
            decreases heads - j,
        {
            proof {
                lemma_within(i as int, j as int, batch as int, heads as int, plane as int);
                lemma_offset_within(
                    i as int,
                    j as int,
                    batch as int,
                    heads as int,
                    lhs@[0] as int,
                    lhs@[1] as int,
                );
                lemma_offset_within(
                    i as int,
                    j as int,
                    batch as int,
                    heads as int,
                    rhs@[0] as int,
                    rhs@[1] as int,
                );
                lemma_place(i as int, j as int, heads as int);
            }
            let call = GemmCall {
                dst: (i * heads + j) * plane,
                lhs: i * lhs[0] + j * lhs[1],
                rhs: i * rhs[0] + j * rhs[1],
            };
            calls.push(call);
            j += 1;
        }
        assert((i + 1) * heads == i * heads + heads) by (nonlinear_arith);
        i += 1;
    }
    assert(calls@ =~= sizes.calls());
    Some(
        AttnPlan {
            m: c,
            n: e,
            k: d,
            dst_cs: 1,
            dst_rs: e as isize,
            lhs_cs: lhs[3] as isize,
            lhs_rs: lhs[2] as isize,
            rhs_cs: rhs[3] as isize,
            rhs_rs: rhs[2] as isize,
            out_len,
            calls,
        },
    )
}

/// The place of batch entry `(i, j)` and the start of its result stay
/// within the result.
proof fn lemma_within(i: int, j: int, a: int, b: int, plane: int)
    requires
        0 <= i < a,
        0 <= j < b,
        0 <= plane,
    ensures
        0 <= i * b,
        0 <= i * b + j < a * b,
        0 <= (i * b + j) * plane <= a * b * plane,
{
    assert(i * b + j < a * b) by (nonlinear_arith)
        requires
            0 <= i < a,
            0 <= j < b,
    ;
    assert(0 <= i * b) by (nonlinear_arith)
        requires
            0 <= i,
            0 <= b,
    ;
    assert((i * b + j) * plane <= a * b * plane) by (nonlinear_arith)
        requires
            0 <= i * b + j < a * b,
            0 <= plane,
    ;
    assert(0 <= (i * b + j) * plane) by (nonlinear_arith)
        requires
            0 <= i * b + j,
            0 <= plane,
    ;
}

/// The start of an operand for batch entry `(i, j)` lies no further than
/// that of the last entry.
proof fn lemma_offset_within(i: int, j: int, a: int, b: int, s0: int, s1: int)
    requires
        0 <= i < a,
        0 <= j < b,
        0 <= s0,
        0 <= s1,
    ensures
        0 <= i * s0 <= (a - 1) * s0,
        0 <= j * s1 <= (b - 1) * s1,
{
    assert(0 <= i * s0 <= (a - 1) * s0) by (nonlinear_arith)
        requires
            0 <= i < a,
            0 <= s0,
    ;
    assert(0 <= j * s1 <= (b - 1) * s1) by (nonlinear_arith)
        requires
            0 <= j < b,
            0 <= s1,
    ;
}

/// Place `i * b + j` stands for batch entry `(i, j)`.
proof fn lemma_place(i: int, j: int, b: int)
    requires
        0 <= i,
        0 <= j < b,
    ensures
        (i * b + j) / b == i,
        (i * b + j) % b == j,
{
    vstd::arithmetic::div_mod::lemma_fundamental_div_mod_converse(i * b + j, b, i, j);
}

} // verus!
