use luminal::kernels::{
    attn_plan, batch_matmul_launch, gemm_config, matmul_launch, to_numbers, BatchMatmulLaunch,
    GemmCall, GemmConfig, MatmulLaunch,
};
use luminal::symbolic::Expression;
use luminal::tracker::ShapeTracker;

fn n(v: i64) -> Expression {
    Expression::num(v)
}

fn tracker(v: &[i64]) -> ShapeTracker {
    let dims: Vec<Expression> = v.iter().map(|i| n(*i)).collect();
    ShapeTracker::new(&dims)
}

fn transposed(v: &[i64]) -> ShapeTracker {
    let mut t = tracker(v);
    t.permute(&[1, 0]);
    t
}

#[test]
fn numbers_of_expressions() {
    assert_eq!(to_numbers(&vec![n(3), n(2).plus(n(2))]), Some(vec![3, 4]));
    assert_eq!(to_numbers(&vec![n(3), Expression::var('a')]), None);
    assert_eq!(to_numbers(&vec![n(-1)]), None);
    assert_eq!(to_numbers(&vec![]), Some(vec![]));
}

#[test]
fn plain_launch_values() {
    let r = matmul_launch(&tracker(&[2, 4]), &tracker(&[4, 3]));
    assert_eq!(
        r,
        Some(MatmulLaunch {
            m: 2,
            k: 4,
            n: 3,
            a_row_major: true,
            b_row_major: true,
            out_bytes: 12,
            threads: 6,
        })
    );
    let r = matmul_launch(&transposed(&[4, 2]), &transposed(&[3, 4])).unwrap();
    assert_eq!((r.m, r.k, r.n), (2, 4, 3));
    assert!(!r.a_row_major && !r.b_row_major);
}

#[test]
fn plain_launch_needs_known_sizes_and_two_axes() {
    let symbolic = ShapeTracker::new(&[Expression::var('a'), n(4)]);
    assert_eq!(matmul_launch(&symbolic, &tracker(&[4, 3])), None);
    assert_eq!(matmul_launch(&tracker(&[4]), &tracker(&[4, 3])), None);
    assert_eq!(matmul_launch(&tracker(&[2, 4]), &tracker(&[4])), None);
}

#[test]
fn sizes_above_the_unset_bound_show_as_the_bound() {
    let r = matmul_launch(&tracker(&[5_000_000_000, 4]), &tracker(&[4, 3])).unwrap();
    assert_eq!(r.m, 2147483647);
    assert_eq!(r.threads, 2147483647 * 3);
    assert_eq!(r.out_bytes, 2147483647 * 3 * 2);
}

#[test]
fn batched_launch_values() {
    let r = batch_matmul_launch(&tracker(&[5, 2, 4]), &tracker(&[4, 3]));
    assert_eq!(
        r,
        Some(BatchMatmulLaunch {
            batch: 5,
            m: 2,
            k: 4,
            n: 3,
            a_row_major: true,
            b_row_major: true,
            a_batch_stride: 8,
            out_bytes: 60,
            threads: 30,
        })
    );
    assert_eq!(batch_matmul_launch(&tracker(&[2, 4]), &tracker(&[4, 3])), None);
}

#[test]
fn cublas_call_table() {
    let rr = gemm_config(&tracker(&[2, 4]), &tracker(&[4, 3]));
    assert_eq!(
        rr,
        Some(GemmConfig {
            transpose_a: false,
            transpose_b: false,
            m: 3,
            n: 2,
            k: 4,
            lda: 3,
            ldb: 4,
            ldc: 3,
            out_len: 6,
        })
    );
    let cc = gemm_config(&transposed(&[4, 2]), &transposed(&[3, 4])).unwrap();
    assert_eq!((cc.transpose_a, cc.transpose_b), (true, true));
    assert_eq!((cc.lda, cc.ldb, cc.ldc), (4, 2, 3));
    let cr = gemm_config(&transposed(&[4, 2]), &tracker(&[4, 3])).unwrap();
    assert_eq!((cr.transpose_a, cr.transpose_b), (false, true));
    assert_eq!((cr.lda, cr.ldb), (3, 2));
    let rc = gemm_config(&tracker(&[2, 4]), &transposed(&[3, 4])).unwrap();
    assert_eq!((rc.transpose_a, rc.transpose_b), (true, false));
    assert_eq!((rc.lda, rc.ldb), (4, 4));
}

#[test]
fn attention_plan_values() {
    // a: [2, 3, 4, 6], b: [2, 3, 6, 5]
    let plan = attn_plan(&tracker(&[2, 3, 4, 6]), &tracker(&[2, 3, 6, 5])).unwrap();
    assert_eq!((plan.m, plan.n, plan.k), (4, 5, 6));
    assert_eq!((plan.dst_cs, plan.dst_rs), (1, 5));
    assert_eq!((plan.lhs_cs, plan.lhs_rs), (1, 6));
    assert_eq!((plan.rhs_cs, plan.rhs_rs), (1, 5));
    assert_eq!(plan.out_len, 2 * 3 * 4 * 5);
    assert_eq!(plan.calls.len(), 6);
    assert_eq!(plan.calls[0], GemmCall { dst: 0, lhs: 0, rhs: 0 });
    assert_eq!(plan.calls[1], GemmCall { dst: 20, lhs: 24, rhs: 30 });
    assert_eq!(plan.calls[3], GemmCall { dst: 60, lhs: 72, rhs: 90 });
    assert_eq!(plan.calls[5], GemmCall { dst: 100, lhs: 120, rhs: 150 });
}

#[test]
fn attention_plan_refusals() {
    assert_eq!(attn_plan(&tracker(&[2, 3, 4]), &tracker(&[2, 3, 6, 5])), None);
    let symbolic = ShapeTracker::new(&[n(2), n(3), Expression::var('c'), n(6)]);
    assert_eq!(attn_plan(&symbolic, &tracker(&[2, 3, 6, 5])), None);
    let empty = attn_plan(&tracker(&[0, 3, 4, 6]), &tracker(&[0, 3, 6, 5])).unwrap();
    assert!(empty.calls.is_empty());
    assert_eq!(empty.out_len, 0);
}
