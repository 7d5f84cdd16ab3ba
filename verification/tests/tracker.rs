use luminal::adjust::resolve_local_dyn_dims;
use luminal::shape_laws::inverse_permutation;
use luminal::symbolic::Expression;
use luminal::tracker::{ShapeError, ShapeTracker, UNSET_BOUND};
use rustc_hash::FxHashMap;

fn n(v: i64) -> Expression {
    Expression::num(v)
}

fn x(c: char) -> Expression {
    Expression::var(c)
}

fn nums(v: &[i64]) -> Vec<Expression> {
    v.iter().map(|i| n(*i)).collect()
}

fn tracker(v: &[i64]) -> ShapeTracker {
    ShapeTracker::new(&nums(v))
}

fn at(e: &Expression, z: usize) -> i64 {
    let mut m = FxHashMap::default();
    m.insert('z', z);
    e.exec(&m).unwrap()
}

fn closed(e: &Expression) -> i64 {
    e.eval_closed().unwrap()
}

#[test]
fn contiguous_identity() {
    let s = tracker(&[3, 4]);
    assert_eq!(s.shape(), nums(&[3, 4]));
    assert_eq!(s.strides(), nums(&[4, 1]));
    assert!(s.is_contiguous());
    assert_eq!(s.index_expression(), x('z'));
    assert_eq!(s.valid_expression(), n(1));
    assert_eq!(s.n_elements(), n(12));
    assert_eq!(s.n_physical_elements(), n(12));
    assert_eq!(s.len(), 2);
    assert!(!s.is_empty());
    assert!(!s.is_sliced());
    assert!(!s.is_padded());
}

#[test]
fn transpose() {
    let mut s = tracker(&[3, 4]);
    s.permute(&[1, 0]);
    assert_eq!(s.shape(), nums(&[4, 3]));
    assert_eq!(s.strides(), nums(&[1, 4]));
    assert!(!s.is_contiguous());
    let index = s.index_expression();
    let strides: Vec<i64> = s.strides().iter().map(closed).collect();
    for z in 0..12usize {
        let row = (z / 3) as i64;
        let col = (z % 3) as i64;
        assert_eq!(at(&index, z), row * strides[0] + col * strides[1]);
    }
    assert_eq!(at(&index, 5), 9);
    assert_eq!(at(&s.valid_expression(), 5), 1);
}

#[test]
fn broadcast() {
    let mut s = tracker(&[3]);
    s.expand(1, n(5));
    assert_eq!(s.shape(), nums(&[3, 5]));
    assert_eq!(s.n_elements(), n(15));
    assert_eq!(s.n_physical_elements(), n(3));
    let index = s.index_expression();
    for r in 0..3usize {
        for c in 0..5usize {
            assert_eq!(at(&index, r * 5 + c), r as i64);
        }
    }
}

#[test]
fn pad_then_slice_forbidden() {
    let mut s = tracker(&[3, 3]);
    s.slice(&[(n(1), n(3)), (n(0), n(3))]);
    let before = s.clone();
    assert_eq!(s.pad(&[(n(1), n(0)), (n(0), n(0))]), Err(ShapeError::InvalidCompose));
    assert_eq!(s, before);
}

#[test]
fn shape_has_one_entry_per_axis() {
    let mut s = tracker(&[2, 3, 4]);
    assert_eq!(s.shape().len(), s.len());
    s.expand(1, n(7));
    assert_eq!(s.shape().len(), s.len());
    let _ = s.remove_dim(0);
    assert_eq!(s.shape().len(), s.len());
    assert_eq!(ShapeTracker::new(&[]).shape().len(), 0);
}

#[test]
fn plain_tracker_indexes_itself() {
    let s = tracker(&[2, 3]);
    let index = s.index_expression();
    let valid = s.valid_expression();
    for z in 0..6usize {
        assert_eq!(at(&index, z), z as i64);
        assert_eq!(at(&valid, z), 1);
    }
}

#[test]
fn valid_expression_is_a_flag() {
    let mut s = tracker(&[3]);
    assert_eq!(s.pad(&[(n(1), n(2))]), Ok(()));
    assert!(s.is_padded());
    assert_eq!(s.shape(), nums(&[6]));
    let valid = s.valid_expression();
    let index = s.index_expression();
    let want = [0, 1, 1, 1, 0, 0];
    for z in 0..6usize {
        assert_eq!(at(&valid, z), want[z]);
        if want[z] == 1 {
            assert_eq!(at(&index, z), z as i64 - 1);
        }
    }
}

#[test]
fn permute_then_inverse_restores() {
    let mut s = tracker(&[2, 3, 4]);
    s.expand(0, n(9));
    let before = s.clone();
    let p = [2usize, 0, 3, 1];
    let q = inverse_permutation(&p);
    assert_eq!(q, vec![1, 3, 0, 2]);
    s.permute(&p);
    assert_ne!(s, before);
    s.permute(&q);
    assert_eq!(s, before);
}

#[test]
fn add_then_remove_restores() {
    for axis in 0..3usize {
        let mut s = tracker(&[5, 6]);
        s.permute(&[1, 0]);
        let before = s.clone();
        s.add_dim(axis, n(7));
        assert_eq!(s.len(), 3);
        assert_eq!(s.shape()[axis], n(7));
        assert_eq!(s.remove_dim(axis), Ok(n(7)));
        assert_eq!(s, before);
    }
}

#[test]
fn remove_dim_closes_the_gap() {
    let mut s = tracker(&[2, 3, 4]);
    s.permute(&[2, 0, 1]);
    assert_eq!(s.remove_dim(1), Ok(n(2)));
    assert_eq!(s.indexes.as_slice(), &[1, 0]);
    assert_eq!(s.dims.as_slice(), nums(&[3, 4]).as_slice());
    assert_eq!(s.shape(), nums(&[4, 3]));
}

#[test]
fn remove_dim_out_of_range() {
    let mut s = tracker(&[2, 3]);
    let before = s.clone();
    assert_eq!(s.remove_dim(2), Err(ShapeError::AxisOutOfRange));
    assert_eq!(s, before);
}

#[test]
fn contiguous_is_idempotent() {
    let mut s = tracker(&[3, 4, 5]);
    s.permute(&[2, 0, 1]);
    s.slice(&[(n(1), n(4))]);
    let once = s.contiguous();
    assert!(once.is_contiguous());
    assert_eq!(once.shape(), nums(&[3, 3, 4]));
    assert_eq!(once, tracker(&[3, 3, 4]));
    let twice = once.clone().contiguous();
    assert_eq!(twice, once);
}

#[test]
fn fake_tracker_counts() {
    let s = ShapeTracker::fake(&nums(&[2, 3, 4]));
    assert_eq!(s.n_physical_elements(), n(1));
    assert_eq!(s.n_elements(), n(24));
    assert_eq!(s.fake.as_slice(), &[true, true, true]);
    assert!(!s.is_contiguous());
}

#[test]
fn zero_product_collapses_to_one() {
    assert_eq!(tracker(&[3, 0]).n_elements(), n(1));
    assert_eq!(tracker(&[0]).n_physical_elements(), n(1));
    assert_eq!(ShapeTracker::new(&[]).n_elements(), n(1));
}

#[test]
fn fake_axis_reads_one_element() {
    let mut s = tracker(&[2, 3]);
    s.expand(1, n(4));
    // Shown as [2, 4, 3] with the middle axis fake.
    assert_eq!(s.shape(), nums(&[2, 4, 3]));
    let index = s.index_expression();
    for a in 0..2usize {
        for c in 0..3usize {
            let first = at(&index, a * 12 + c);
            assert_eq!(first, (a * 3 + c) as i64);
            for b in 0..4usize {
                assert_eq!(at(&index, a * 12 + b * 3 + c), first);
            }
        }
    }
}

#[test]
fn strides_skip_fake_axes() {
    let mut s = tracker(&[2, 3]);
    s.expand(1, n(4));
    assert_eq!(s.unordered_strides(), nums(&[3, 1, 1]));
    assert_eq!(s.strides(), nums(&[3, 1, 1]));
    let t = tracker(&[2, 3, 4]);
    assert_eq!(t.strides(), nums(&[12, 4, 1]));
}

#[test]
fn symbolic_sizes() {
    let s = ShapeTracker::new(&[x('a'), n(4)]);
    assert_eq!(s.strides(), vec![n(4), n(1)]);
    assert_eq!(s.shape(), vec![x('a').min(n(UNSET_BOUND)), n(4)]);
    assert_eq!(s.n_physical_elements(), x('a').times(n(4)));
}

#[test]
fn slice_clamps() {
    let mut s = tracker(&[10]);
    s.slice(&[(n(2), n(7))]);
    assert!(s.is_sliced());
    assert_eq!(s.slices.as_slice(), &[(n(2), n(7))]);
    assert_eq!(s.shape(), nums(&[5]));
    s.slice(&[(n(1), n(9))]);
    assert_eq!(s.slices.as_slice(), &[(n(2), n(7))]);
    s.slice(&[(n(-3), n(-1))]);
    assert_eq!(s.slices.as_slice(), &[(n(2), n(0))]);
    let index = tracker_index(&[10], 2, 7);
    for z in 0..5usize {
        assert_eq!(at(&index, z), z as i64 + 2);
    }
}

fn tracker_index(dims: &[i64], lo: i64, hi: i64) -> Expression {
    let mut s = tracker(dims);
    s.slice(&[(n(lo), n(hi))]);
    s.index_expression()
}

#[test]
fn slice_follows_the_shown_order() {
    let mut s = tracker(&[4, 6]);
    s.permute(&[1, 0]);
    s.slice(&[(n(1), n(5))]);
    assert_eq!(s.slices.as_slice(), &[(n(0), n(UNSET_BOUND)), (n(1), n(5))]);
}

#[test]
fn pad_adds_up() {
    let mut s = tracker(&[4, 6]);
    assert_eq!(s.pad(&[(n(1), n(2)), (n(0), n(0))]), Ok(()));
    assert_eq!(s.pad(&[(n(3), n(-5))]), Ok(()));
    assert_eq!(s.padding.as_slice(), &[(n(4), n(2)), (n(0), n(0))]);
    assert_eq!(s.shape(), nums(&[10, 6]));
}

#[test]
fn pad_of_zero_on_a_sliced_axis_is_fine() {
    let mut s = tracker(&[3, 3]);
    s.slice(&[(n(1), n(3))]);
    assert_eq!(s.pad(&[(n(0), n(0)), (n(2), n(2))]), Ok(()));
    assert_eq!(s.padding.as_slice(), &[(n(0), n(0)), (n(2), n(2))]);
}

#[test]
fn realize_sets_shown_sizes() {
    let mut s = ShapeTracker::new(&[x('a'), x('b')]);
    s.permute(&[1, 0]);
    let r = s.realize(&nums(&[7, 9]));
    assert_eq!(r.dims.as_slice(), nums(&[9, 7]).as_slice());
    assert_eq!(r.shape(), nums(&[7, 9]));
}

#[test]
fn resolve_global_replaces_variables() {
    let mut s = ShapeTracker::new(&[x('a'), x('b').times(n(2))]);
    s.slice(&[(n(0), x('a'))]);
    let mut m = FxHashMap::default();
    m.insert('a', 3usize);
    m.insert('b', 5usize);
    let mut stack = vec![1i32, 2];
    s.resolve_global_dyn_dims_stack(&m, &mut stack);
    assert_eq!(stack, vec![1, 2]);
    assert_eq!(s.dims.as_slice(), nums(&[3, 10]).as_slice());
    assert_eq!(s.slices.as_slice()[0], (n(0), n(3)));
    let mut t = ShapeTracker::new(&[x('a'), x('c')]);
    t.resolve_global_dyn_dims(&m);
    assert_eq!(t.dims.as_slice(), &[n(3), x('c')]);
}

#[test]
fn resolve_local_fills_unknowns() {
    let mut a = ShapeTracker::new(&[x('-'), n(4), x('-')]);
    let mut b = ShapeTracker::new(&[n(2), x('-'), x('-')]);
    resolve_local_dyn_dims(&mut a, &mut b, true);
    assert_eq!(a.dims.as_slice(), nums(&[2, 4, 1]).as_slice());
    assert_eq!(b.dims.as_slice(), nums(&[2, 4, 1]).as_slice());
    let mut c = ShapeTracker::new(&[x('-')]);
    let mut d = ShapeTracker::new(&[x('-')]);
    resolve_local_dyn_dims(&mut c, &mut d, false);
    assert_eq!(c.dims.as_slice(), &[x('-')]);
    assert_eq!(d.dims.as_slice(), &[x('-')]);
}

#[test]
fn new_tracker_defaults() {
    let s = tracker(&[5, 6, 7]);
    assert_eq!(s.indexes.as_slice(), &[0, 1, 2]);
    assert_eq!(s.fake.as_slice(), &[false, false, false]);
    assert_eq!(s.slices.as_slice()[2], (n(0), n(2147483647)));
    assert_eq!(s.padding.as_slice()[1], (n(0), n(0)));
    assert!(ShapeTracker::new(&[]).is_empty());
}

#[test]
fn six_axes_fit() {
    let mut s = tracker(&[1, 2, 3, 4, 5]);
    s.add_dim(5, n(6));
    assert_eq!(s.len(), 6);
    assert_eq!(s.n_elements(), n(720));
}

/// The memory offset and the validity of every logical index, computed
/// from the coordinates.
fn by_coordinates(s: &ShapeTracker) -> Vec<(i64, bool)> {
    let n = s.len();
    let extents: Vec<i64> = s.shape().iter().map(closed).collect();
    let strides: Vec<i64> = s.strides().iter().map(closed).collect();
    let total: i64 = extents.iter().product();
    let mut out = Vec::new();
    for z in 0..total {
        let mut rest = z;
        let mut offset = 0;
        let mut stored = true;
        for k in (0..n).rev() {
            let c = rest % extents[k];
            rest /= extents[k];
            let p = s.indexes.as_slice()[k];
            if s.fake.as_slice()[p] {
                continue;
            }
            let dim = closed(&s.dims.as_slice()[p]);
            let before = closed(&s.padding.as_slice()[p].0);
            let low = closed(&s.slices.as_slice()[p].0);
            let high = closed(&s.slices.as_slice()[p].1);
            offset += (c - before + (low - before.min(low))) * strides[k];
            stored = stored && c >= before - low.min(before) && c < (dim + before).min(high);
        }
        out.push((offset, stored));
    }
    out
}

fn agrees_with_coordinates(s: &ShapeTracker) {
    let index = s.index_expression();
    let valid = s.valid_expression();
    let want = by_coordinates(s);
    assert!(!want.is_empty());
    for (z, (offset, stored)) in want.iter().enumerate() {
        assert_eq!(at(&valid, z), *stored as i64);
        assert_eq!(at(&index, z), *offset);
    }
}

#[test]
fn index_expression_is_the_offset_of_the_coordinates() {
    let mut permuted = tracker(&[2, 3, 4]);
    permuted.permute(&[2, 0, 1]);
    agrees_with_coordinates(&permuted);

    let mut padded = tracker(&[3, 2]);
    assert_eq!(padded.pad(&[(n(1), n(2)), (n(0), n(1))]), Ok(()));
    padded.permute(&[1, 0]);
    agrees_with_coordinates(&padded);

    let mut sliced = tracker(&[5, 4]);
    sliced.slice(&[(n(1), n(4)), (n(2), n(9))]);
    agrees_with_coordinates(&sliced);

    let mut broadcast = tracker(&[3, 2]);
    broadcast.expand(1, n(4));
    broadcast.expand(0, n(2));
    broadcast.permute(&[3, 1, 0, 2]);
    agrees_with_coordinates(&broadcast);

    let mut mixed = tracker(&[4, 3]);
    mixed.slice(&[(n(1), n(3))]);
    mixed.expand(2, n(2));
    assert_eq!(mixed.pad(&[(n(0), n(0)), (n(1), n(1))]), Ok(()));
    agrees_with_coordinates(&mixed);
}

#[test]
fn pad_on_either_side_of_a_cut_axis_is_refused() {
    // Cut at the low end only, padded at the high end only.
    let mut s = tracker(&[5]);
    s.slice(&[(n(1), n(2147483647))]);
    assert_eq!(s.slices.as_slice(), &[(n(1), n(UNSET_BOUND))]);
    assert_eq!(s.pad(&[(n(0), n(2))]), Err(ShapeError::InvalidCompose));
    // An amount that is not a known number counts as padding.
    let mut t = tracker(&[5]);
    t.slice(&[(n(0), n(3))]);
    assert_eq!(t.pad(&[(x('p'), n(0))]), Err(ShapeError::InvalidCompose));
    // Cutting a padded axis is no fault.
    let mut u = tracker(&[5]);
    assert_eq!(u.pad(&[(n(1), n(1))]), Ok(()));
    u.slice(&[(n(2), n(6))]);
    assert_eq!(u.shape(), nums(&[4]));
    agrees_with_coordinates(&u);
}
