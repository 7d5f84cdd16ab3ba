use luminal::graph::{
    move_outgoing_edge, move_references, Dependency, Device, Graph, GraphError, OpKind, Operator,
};
use luminal::matmul::{
    fuse_matmuls, matmul_selector, rewrite_at, Compiler, CudaMatMulOptimizer, GraphOptimizer,
    MatmulForm, MetalMatMulCompiler, Rewrite, RewriteSkipped,
};
use luminal::search::GraphSelector;
use luminal::selector::{Dim, OpTest, OpType, PatternMalformed, SelectOp};
use luminal::symbolic::Expression;
use luminal::tracker::ShapeTracker;
use petgraph::stable_graph::NodeIndex;
use rustc_hash::{FxHashMap, FxHashSet};

fn n(v: i64) -> Expression {
    Expression::num(v)
}

fn nums(v: &[i64]) -> Vec<Expression> {
    v.iter().map(|i| n(*i)).collect()
}

fn tracker(v: &[i64]) -> ShapeTracker {
    ShapeTracker::new(&nums(v))
}

fn op(device: Device, kind: OpKind) -> Operator {
    Operator { device, kind }
}

fn leaf(g: &mut Graph, device: Device, tag: u32) -> u32 {
    let new = g.add_op(op(device, OpKind::Other(tag)));
    new.finish(g).unwrap()
}

/// The ids of a graph with one plain product: a, b, mul, sum, reader.
struct Plain {
    a: u32,
    b: u32,
    mul: u32,
    sum: u32,
    reader: u32,
}

fn left_operand() -> ShapeTracker {
    let mut t = tracker(&[2, 4]);
    t.expand(1, n(3));
    t
}

fn right_operand() -> ShapeTracker {
    let mut t = tracker(&[4, 3]);
    t.expand(0, n(2));
    t.permute(&[0, 2, 1]);
    t
}

fn plain_graph(device: Device, leaves_first: bool) -> (Graph, Plain) {
    let mut g = Graph::new();
    let (a, b);
    if leaves_first {
        a = leaf(&mut g, device, 1);
        b = leaf(&mut g, device, 2);
    } else {
        b = leaf(&mut g, device, 2);
        let _spare = leaf(&mut g, device, 7);
        a = leaf(&mut g, device, 1);
    }
    let mul = g
        .add_op(op(device, OpKind::Mul))
        .input(a, 0, left_operand())
        .input(b, 0, right_operand())
        .finish(&mut g)
        .unwrap();
    let sum = g
        .add_op(op(device, OpKind::SumReduce(2)))
        .input(mul, 0, tracker(&[2, 3, 4]))
        .finish(&mut g)
        .unwrap();
    let reader = g
        .add_op(op(device, OpKind::Other(9)))
        .input(sum, 0, tracker(&[2, 3]))
        .finish(&mut g)
        .unwrap();
    (g, Plain { a, b, mul, sum, reader })
}

fn describe(g: &Graph) -> Vec<(u32, Operator, Vec<(u32, ShapeTracker)>)> {
    g.node_ids()
        .into_iter()
        .map(|id| (id, g.node_weight(id).unwrap(), g.get_sources(id)))
        .collect()
}

#[test]
fn operands_show_the_product_shape() {
    assert_eq!(left_operand().shape(), nums(&[2, 3, 4]));
    assert_eq!(right_operand().shape(), nums(&[2, 3, 4]));
}

#[test]
fn matmul_2d_fusion() {
    let (mut g, ids) = plain_graph(Device::Metal, true);
    let report = MetalMatMulCompiler.compile(&mut g);
    assert_eq!(report.plain.len(), 1);
    assert!(report.batched.is_empty());
    assert!(report.attention.is_empty());
    let entry = report.plain[0];
    assert_eq!(entry.source, ids.mul);
    assert_eq!(entry.sink, ids.sum);
    let fused = entry.result.unwrap();
    assert_eq!(g.node_weight(ids.mul), None);
    assert_eq!(g.node_weight(ids.sum), None);
    assert_eq!(g.node_weight(fused), Some(op(Device::Metal, OpKind::Matmul2D)));
    let sources = g.get_sources(fused);
    assert_eq!(sources.len(), 2);
    assert_eq!(sources[0].0, ids.a);
    assert_eq!(sources[0].1, tracker(&[2, 4]));
    assert_eq!(sources[1].0, ids.b);
    assert_eq!(sources[1].1, tracker(&[4, 3]));
    assert_eq!(sources[1].1.shape(), nums(&[4, 3]));
    let reads = g.get_sources(ids.reader);
    assert_eq!(reads.len(), 1);
    assert_eq!(reads[0].0, fused);
    assert_eq!(reads[0].1, tracker(&[2, 3]));
    assert_eq!(g.id_remap.get(&ids.sum), Some(&fused));
    assert_eq!(g.id_remap.get(&ids.mul), None);
    assert_eq!(g.node_ids().len(), 4);
}

#[test]
fn pinned_node_prevents_rewrite() {
    let (mut g, ids) = plain_graph(Device::Metal, true);
    g.no_delete.insert(ids.mul);
    let before = describe(&g);
    let report = MetalMatMulCompiler.compile(&mut g);
    assert_eq!(
        report.plain,
        vec![Rewrite { source: ids.mul, sink: ids.sum, result: Err(RewriteSkipped::Pinned) }]
    );
    assert_eq!(describe(&g), before);
    assert!(g.id_remap.is_empty());
    assert!(g.no_delete.contains(&ids.mul));
}

#[test]
fn pass_twice_is_pass_once() {
    let (mut g, _) = plain_graph(Device::Metal, true);
    let _ = MetalMatMulCompiler.compile(&mut g);
    let once = describe(&g);
    let remap = g.id_remap.clone();
    let again = MetalMatMulCompiler.compile(&mut g);
    assert!(again.plain.is_empty() && again.batched.is_empty() && again.attention.is_empty());
    assert_eq!(describe(&g), once);
    assert_eq!(g.id_remap, remap);
}

#[test]
fn matching_does_not_depend_on_node_ids() {
    let (g1, ids1) = plain_graph(Device::Metal, true);
    let (g2, ids2) = plain_graph(Device::Metal, false);
    assert_ne!(ids1.mul, ids2.mul);
    let s = matmul_selector(Device::Metal, MatmulForm::Plain);
    assert_eq!(s.search(&g1), vec![vec![ids1.mul, ids1.sum]]);
    assert_eq!(s.search(&g2), vec![vec![ids2.mul, ids2.sum]]);
}

#[test]
fn cuda_pass_remaps_the_product_too() {
    let (mut g, ids) = plain_graph(Device::Cuda, true);
    g.to_retrieve.insert(ids.sum);
    let report = CudaMatMulOptimizer.optimize(&mut g);
    assert_eq!(report.len(), 1);
    let fused = report[0].result.unwrap();
    assert_eq!(g.node_weight(fused), Some(op(Device::Cuda, OpKind::Matmul2D)));
    assert_eq!(g.id_remap.get(&ids.sum), Some(&fused));
    assert_eq!(g.id_remap.get(&ids.mul), Some(&fused));
    assert!(g.to_retrieve.contains(&fused));
    assert!(!g.to_retrieve.contains(&ids.sum));
}

#[test]
fn metal_pass_leaves_cuda_nodes() {
    let (mut g, _) = plain_graph(Device::Cuda, true);
    let before = describe(&g);
    let report = MetalMatMulCompiler.compile(&mut g);
    assert!(report.plain.is_empty());
    assert_eq!(describe(&g), before);
}

#[test]
fn wrong_axis_is_no_match() {
    let (mut g, ids) = plain_graph(Device::Metal, true);
    assert_eq!(rewrite_at(&mut g, Device::Metal, MatmulForm::Batched, ids.sum), None);
    assert_eq!(rewrite_at(&mut g, Device::Metal, MatmulForm::Plain, ids.mul), None);
    assert!(fuse_matmuls(&mut g, Device::Metal, MatmulForm::Attention).is_empty());
    assert_eq!(g.node_ids().len(), 5);
}

#[test]
fn wrong_fake_axes_are_no_match() {
    let mut g = Graph::new();
    let a = leaf(&mut g, Device::Metal, 1);
    let b = leaf(&mut g, Device::Metal, 2);
    // Both operands broadcast the same axis.
    let mul = g
        .add_op(op(Device::Metal, OpKind::Mul))
        .input(a, 0, left_operand())
        .input(b, 0, left_operand())
        .finish(&mut g)
        .unwrap();
    let sum = g
        .add_op(op(Device::Metal, OpKind::SumReduce(2)))
        .input(mul, 0, tracker(&[2, 3, 4]))
        .finish(&mut g)
        .unwrap();
    assert_eq!(rewrite_at(&mut g, Device::Metal, MatmulForm::Plain, sum), None);
}

#[test]
fn shapes_must_agree_by_name() {
    let mut g = Graph::new();
    let a = leaf(&mut g, Device::Metal, 1);
    let b = leaf(&mut g, Device::Metal, 2);
    let mut right = tracker(&[4, 5]);
    right.expand(0, n(2));
    right.permute(&[0, 2, 1]);
    let mul = g
        .add_op(op(Device::Metal, OpKind::Mul))
        .input(a, 0, left_operand())
        .input(b, 0, right)
        .finish(&mut g)
        .unwrap();
    let sum = g
        .add_op(op(Device::Metal, OpKind::SumReduce(2)))
        .input(mul, 0, tracker(&[2, 3, 4]))
        .finish(&mut g)
        .unwrap();
    let s = matmul_selector(Device::Metal, MatmulForm::Plain);
    assert_eq!(s.find_at(&g, sum), None);
    assert!(s.search(&g).is_empty());
}

fn batched_graph() -> (Graph, u32, u32, u32, u32) {
    let mut g = Graph::new();
    let a = leaf(&mut g, Device::Metal, 1);
    let b = leaf(&mut g, Device::Metal, 2);
    // [D, A, B] = [5, 2, 4] shown as [5, 2, 3, 4] with axis 2 fake.
    let mut left = tracker(&[5, 2, 4]);
    left.expand(2, n(3));
    // [B, C] = [4, 3] shown as [5, 2, 3, 4] with axes 0 and 1 fake.
    let mut right = tracker(&[4, 3]);
    right.expand(0, n(5));
    right.expand(1, n(2));
    right.permute(&[0, 1, 3, 2]);
    assert_eq!(left.shape(), nums(&[5, 2, 3, 4]));
    assert_eq!(right.shape(), nums(&[5, 2, 3, 4]));
    let mul = g
        .add_op(op(Device::Metal, OpKind::Mul))
        .input(a, 0, left)
        .input(b, 0, right)
        .finish(&mut g)
        .unwrap();
    let sum = g
        .add_op(op(Device::Metal, OpKind::SumReduce(3)))
        .input(mul, 0, tracker(&[5, 2, 3, 4]))
        .finish(&mut g)
        .unwrap();
    (g, a, b, mul, sum)
}

#[test]
fn batched_matmul_fusion() {
    let (mut g, a, b, mul, sum) = batched_graph();
    let report = MetalMatMulCompiler.compile(&mut g);
    assert!(report.plain.is_empty());
    assert_eq!(report.batched.len(), 1);
    assert_eq!((report.batched[0].source, report.batched[0].sink), (mul, sum));
    let fused = report.batched[0].result.unwrap();
    assert_eq!(g.node_weight(fused), Some(op(Device::Metal, OpKind::BatchMatmul2D)));
    let sources = g.get_sources(fused);
    assert_eq!(sources[0].0, a);
    assert_eq!(sources[0].1, tracker(&[5, 2, 4]));
    assert_eq!(sources[1].0, b);
    assert_eq!(sources[1].1, tracker(&[4, 3]));
}

#[test]
fn attention_matmul_fusion() {
    let mut g = Graph::new();
    let a = leaf(&mut g, Device::Metal, 1);
    let b = leaf(&mut g, Device::Metal, 2);
    // [A, B, C, D] = [2, 3, 4, 6] shown as [2, 3, 4, 5, 6] with axis 3 fake.
    let mut left = tracker(&[2, 3, 4, 6]);
    left.expand(3, n(5));
    // [A, B, D, E] = [2, 3, 6, 5] shown as [2, 3, 4, 5, 6] with axis 2 fake.
    let mut right = tracker(&[2, 3, 6, 5]);
    right.expand(2, n(4));
    right.permute(&[0, 1, 2, 4, 3]);
    assert_eq!(left.shape(), nums(&[2, 3, 4, 5, 6]));
    assert_eq!(right.shape(), nums(&[2, 3, 4, 5, 6]));
    let mul = g
        .add_op(op(Device::Metal, OpKind::Mul))
        .input(a, 0, left)
        .input(b, 0, right)
        .finish(&mut g)
        .unwrap();
    let sum = g
        .add_op(op(Device::Metal, OpKind::SumReduce(4)))
        .input(mul, 0, tracker(&[2, 3, 4, 5, 6]))
        .finish(&mut g)
        .unwrap();
    let report = MetalMatMulCompiler.compile(&mut g);
    assert_eq!(report.attention.len(), 1);
    assert_eq!((report.attention[0].source, report.attention[0].sink), (mul, sum));
    let fused = report.attention[0].result.unwrap();
    assert_eq!(g.node_weight(fused), Some(op(Device::Metal, OpKind::AttnMatmul2D)));
    let sources = g.get_sources(fused);
    assert_eq!(sources[0].1, tracker(&[2, 3, 4, 6]));
    assert_eq!(sources[1].1, tracker(&[2, 3, 6, 5]));
}

#[test]
fn shared_product_is_claimed_once() {
    let (mut g, ids) = plain_graph(Device::Metal, true);
    let second = g
        .add_op(op(Device::Metal, OpKind::SumReduce(2)))
        .input(ids.mul, 0, tracker(&[2, 3, 4]))
        .finish(&mut g)
        .unwrap();
    let report = fuse_matmuls(&mut g, Device::Metal, MatmulForm::Plain);
    assert_eq!(report.len(), 1);
    assert_eq!(report[0].sink, ids.sum);
    assert!(report[0].result.is_ok());
    assert_eq!(g.node_weight(ids.mul), None);
    assert_eq!(g.node_weight(second), Some(op(Device::Metal, OpKind::SumReduce(2))));
    assert!(g.get_sources(second).is_empty());
}

#[test]
fn builder_reports_missing_source() {
    let mut g = Graph::new();
    let a = leaf(&mut g, Device::Cpu, 0);
    let r = g.add_op(op(Device::Cpu, OpKind::Mul)).input(a + 5, 0, tracker(&[1])).finish(&mut g);
    assert_eq!(r, Err(GraphError::NodeMissing));
    assert_eq!(g.node_ids(), vec![a]);
}

#[test]
fn builder_numbers_inputs_in_order() {
    let mut g = Graph::new();
    let a = leaf(&mut g, Device::Cpu, 0);
    let b = leaf(&mut g, Device::Cpu, 1);
    let c = g
        .add_op(op(Device::Cpu, OpKind::Mul))
        .input(b, 3, tracker(&[7]))
        .input(a, 0, tracker(&[8]))
        .finish(&mut g)
        .unwrap();
    let first = g.input(c, 0).unwrap();
    assert_eq!((first.0, first.1), (b, 3));
    assert_eq!(first.2, tracker(&[7]));
    let second = g.input(c, 1).unwrap();
    assert_eq!((second.0, second.1), (a, 0));
    assert!(g.input(c, 2).is_none());
    assert!(g.input(a, 0).is_none());
    let sources = g.get_sources(c);
    assert_eq!(sources.len(), 2);
    assert_eq!(sources[0].0, b);
    assert_eq!(sources[1].0, a);
}

#[test]
fn remove_node_takes_its_edges() {
    let (mut g, ids) = plain_graph(Device::Cpu, true);
    g.remove_node(ids.mul);
    assert_eq!(g.node_weight(ids.mul), None);
    assert!(g.get_sources(ids.sum).is_empty());
    assert_eq!(g.get_sources(ids.reader).len(), 1);
    assert_eq!(g.node_ids(), vec![ids.a, ids.b, ids.sum, ids.reader]);
    g.remove_node(ids.mul);
    assert_eq!(g.node_ids().len(), 4);
}

#[test]
fn move_outgoing_edge_reparents() {
    let (mut g, ids) = plain_graph(Device::Cpu, true);
    assert_eq!(move_outgoing_edge(ids.mul, ids.a, &mut g), Ok(()));
    let sources = g.get_sources(ids.sum);
    assert_eq!(sources.len(), 1);
    assert_eq!(sources[0].0, ids.a);
    assert_eq!(sources[0].1, tracker(&[2, 3, 4]));
    assert_eq!(move_outgoing_edge(ids.mul, 999, &mut g), Err(GraphError::NodeMissing));
    assert_eq!(move_outgoing_edge(ids.a, ids.a, &mut g), Ok(()));
    assert_eq!(g.get_sources(ids.sum)[0].0, ids.a);
}

#[test]
fn move_references_moves_marks() {
    let mut remap: FxHashMap<u32, u32> = FxHashMap::default();
    let mut pinned: FxHashSet<u32> = FxHashSet::default();
    let mut kept: FxHashSet<u32> = FxHashSet::default();
    pinned.insert(4);
    kept.insert(9);
    move_references(&mut remap, &mut pinned, &mut kept, 4, 6);
    assert_eq!(remap.get(&4), Some(&6));
    assert!(pinned.contains(&6) && !pinned.contains(&4));
    assert!(kept.contains(&9) && kept.len() == 1);
}

#[test]
fn select_op_tests_one_node() {
    let (g, ids) = plain_graph(Device::Metal, true);
    let any = SelectOp::new();
    assert!(any.test(&g, ids.a));
    assert!(!any.test(&g, 12345));
    let mul = SelectOp::new().ty(Device::Metal, OpType::Mul);
    assert!(mul.test(&g, ids.mul));
    assert!(!mul.test(&g, ids.sum));
    assert!(!SelectOp::new().ty(Device::Cuda, OpType::Mul).test(&g, ids.mul));
    let axis = SelectOp::new().check(OpTest::ReduceAxis(2));
    assert!(axis.test(&g, ids.sum));
    assert!(!SelectOp::new().check(OpTest::ReduceAxis(1)).test(&g, ids.sum));
    let exact = SelectOp::new().check(OpTest::Exactly(op(Device::Metal, OpKind::Other(9))));
    assert!(exact.test(&g, ids.reader));
    assert!(!exact.test(&g, ids.a));
}

#[test]
fn known_sizes_in_patterns() {
    let (g, ids) = plain_graph(Device::Metal, true);
    let good = SelectOp::new().shapes(vec![vec![Dim::Known(2), Dim::Known(3), Dim::Unknown('k')]]);
    assert!(good.test(&g, ids.sum));
    let bad = SelectOp::new().shapes(vec![vec![Dim::Known(2), Dim::Known(4), Dim::Unknown('k')]]);
    assert!(!bad.test(&g, ids.sum));
    let short = SelectOp::new().shapes(vec![vec![Dim::Known(2), Dim::Known(3)]]);
    assert!(!short.test(&g, ids.sum));
    let twice = SelectOp::new().shapes(vec![vec![Dim::Unknown('k'), Dim::Known(3), Dim::Unknown('k')]]);
    assert!(!twice.test(&g, ids.sum));
    let fakes = SelectOp::new().fakes(vec![vec![false, true], vec![true]]);
    assert!(fakes.test(&g, ids.mul));
    assert!(!SelectOp::new().fakes(vec![vec![true]]).test(&g, ids.mul));
}

#[test]
fn edge_selector_names_the_input() {
    let (g, ids) = plain_graph(Device::Metal, true);
    let s = GraphSelector::pair_at(
        SelectOp::new().check(OpTest::Exactly(op(Device::Metal, OpKind::Other(2)))),
        1,
        SelectOp::new().ty(Device::Metal, OpType::Mul),
    );
    assert_eq!(s.find_at(&g, ids.mul), Some(vec![ids.b, ids.mul]));
    let t = GraphSelector::pair(
        SelectOp::new().check(OpTest::Exactly(op(Device::Metal, OpKind::Other(2)))),
        SelectOp::new().ty(Device::Metal, OpType::Mul),
    );
    assert_eq!(t.find_at(&g, ids.mul), None);
    let any = GraphSelector::pair(SelectOp::new(), SelectOp::new());
    assert_eq!(
        any.search_all(&g),
        vec![vec![ids.a, ids.mul], vec![ids.mul, ids.sum], vec![ids.sum, ids.reader]]
    );
    // A match that shares a node with one claimed before is left out.
    assert_eq!(any.search(&g), vec![vec![ids.a, ids.mul], vec![ids.sum, ids.reader]]);
}

#[test]
fn selector_of_three_vertices() {
    let (g, ids) = plain_graph(Device::Metal, true);
    // A chain: product, sum, reader; built from the root up.
    let mut chain = GraphSelector::new();
    let reader = chain.op(SelectOp::new().check(OpTest::Exactly(op(Device::Metal, OpKind::Other(9)))));
    let sum = chain.op(SelectOp::new().ty(Device::Metal, OpType::SumReduce));
    let product = chain.op(SelectOp::new().ty(Device::Metal, OpType::Mul));
    chain.edge(product, sum);
    chain.edge(sum, reader);
    assert_eq!(chain.validate(), Ok(()));
    assert_eq!(chain.root(), Some(reader));
    assert_eq!(chain.find_at(&g, ids.reader), Some(vec![ids.reader, ids.sum, ids.mul]));
    assert_eq!(chain.find_at(&g, ids.sum), None);
    assert_eq!(chain.search(&g), vec![vec![ids.reader, ids.sum, ids.mul]]);
    // A tree: a product with both of its operands.
    let mut tree = GraphSelector::new();
    let left = tree.op(SelectOp::new().check(OpTest::Exactly(op(Device::Metal, OpKind::Other(1)))));
    let right = tree.op(SelectOp::new().check(OpTest::Exactly(op(Device::Metal, OpKind::Other(2)))));
    let product = tree.op(SelectOp::new().ty(Device::Metal, OpType::Mul));
    tree.edge_at(left, 0, product);
    tree.edge_at(right, 1, product);
    assert_eq!(tree.validate(), Ok(()));
    assert_eq!(tree.root(), Some(product));
    assert_eq!(tree.find_at(&g, ids.mul), Some(vec![ids.a, ids.b, ids.mul]));
    assert_eq!(tree.search_all(&g), vec![vec![ids.a, ids.b, ids.mul]]);
    // The operands the other way round do not match.
    let mut turned = GraphSelector::new();
    let left = turned.op(SelectOp::new().check(OpTest::Exactly(op(Device::Metal, OpKind::Other(1)))));
    let right = turned.op(SelectOp::new().check(OpTest::Exactly(op(Device::Metal, OpKind::Other(2)))));
    let product = turned.op(SelectOp::new().ty(Device::Metal, OpType::Mul));
    turned.edge_at(left, 1, product);
    turned.edge_at(right, 0, product);
    assert_eq!(turned.find_at(&g, ids.mul), None);
}

#[test]
fn selector_of_one_vertex() {
    let (g, ids) = plain_graph(Device::Metal, true);
    let mut s = GraphSelector::new();
    let v = s.op(SelectOp::new().ty(Device::Metal, OpType::SumReduce));
    assert_eq!(v, 0);
    assert_eq!(s.validate(), Ok(()));
    assert_eq!(s.search(&g), vec![vec![ids.sum]]);
    assert_eq!(GraphSelector::new().search_all(&g), Vec::<Vec<u32>>::new());
}

#[test]
fn selectors_that_are_no_trees_are_refused() {
    assert_eq!(GraphSelector::new().validate(), Err(PatternMalformed));
    let mut two_roots = GraphSelector::new();
    two_roots.op(SelectOp::new());
    two_roots.op(SelectOp::new());
    assert_eq!(two_roots.validate(), Err(PatternMalformed));
    let (g, ids) = plain_graph(Device::Metal, true);
    assert_eq!(two_roots.find_at(&g, ids.mul), None);
    let mut cycle = GraphSelector::new();
    let root = cycle.op(SelectOp::new());
    let a = cycle.op(SelectOp::new());
    let b = cycle.op(SelectOp::new());
    cycle.edge(a, b);
    cycle.edge(b, a);
    assert_eq!(cycle.root(), Some(root));
    assert_eq!(cycle.validate(), Err(PatternMalformed));
    assert_eq!(cycle.find_at(&g, ids.mul), None);
    let mut dangling = GraphSelector::new();
    let a = dangling.op(SelectOp::new());
    dangling.op(SelectOp::new());
    dangling.edge(a, 7);
    assert_eq!(dangling.validate(), Err(PatternMalformed));
    // An edge from a vertex that is not there changes nothing.
    let mut one = GraphSelector::new();
    one.op(SelectOp::new());
    one.edge(3, 0);
    assert_eq!(one.validate(), Ok(()));
}

#[test]
fn names_bind_across_both_patterns() {
    let (g, ids) = plain_graph(Device::Metal, true);
    let product = || {
        SelectOp::new().ty(Device::Metal, OpType::Mul).shapes(vec![
            vec![Dim::Unknown('A'), Dim::Unknown('C'), Dim::Unknown('B')],
            vec![Dim::Unknown('A'), Dim::Unknown('C'), Dim::Unknown('B')],
        ])
    };
    let same = GraphSelector::pair(
        product(),
        SelectOp::new().shapes(vec![vec![Dim::Unknown('A'), Dim::Unknown('C'), Dim::Unknown('B')]]),
    );
    assert_eq!(same.find_at(&g, ids.sum), Some(vec![ids.mul, ids.sum]));
    let turned = GraphSelector::pair(
        product(),
        SelectOp::new().shapes(vec![vec![Dim::Unknown('B'), Dim::Unknown('C'), Dim::Unknown('A')]]),
    );
    assert_eq!(turned.find_at(&g, ids.sum), None);
    let other = GraphSelector::pair(
        product(),
        SelectOp::new().shapes(vec![vec![Dim::Unknown('X'), Dim::Unknown('Y'), Dim::Unknown('Z')]]),
    );
    assert_eq!(other.find_at(&g, ids.sum), Some(vec![ids.mul, ids.sum]));
}

#[test]
fn well_formedness_is_tested() {
    let (mut g, ids) = plain_graph(Device::Metal, true);
    assert!(g.is_well_formed());
    assert!(Graph::new().is_well_formed());
    let _ = MetalMatMulCompiler.compile(&mut g);
    assert!(g.is_well_formed());
    assert!(left_operand().is_well_formed());
    let mut broken = tracker(&[2, 3]);
    broken.indexes.as_mut_slice()[0] = 1;
    assert!(!broken.is_well_formed());
    let mut short = tracker(&[2, 3]);
    short.fake.pop();
    assert!(!short.is_well_formed());
    let _ = ids;
}

#[test]
fn pinned_flag_is_read() {
    let (mut g, ids) = plain_graph(Device::Metal, true);
    assert!(!g.is_pinned(ids.mul));
    g.no_delete.insert(ids.mul);
    assert!(g.is_pinned(ids.mul));
}

#[test]
fn matmul_form_tables() {
    assert_eq!(MatmulForm::Plain.axis(), 2);
    assert_eq!(MatmulForm::Batched.axis(), 3);
    assert_eq!(MatmulForm::Attention.axis(), 4);
    assert_eq!(MatmulForm::Plain.kind(), OpKind::Matmul2D);
    assert_eq!(MatmulForm::Batched.kind(), OpKind::BatchMatmul2D);
    assert_eq!(MatmulForm::Attention.kind(), OpKind::AttnMatmul2D);
    assert_eq!(OpKind::SumReduce(3).op_type(), OpType::SumReduce);
}

#[test]
fn resolve_follows_the_remap() {
    let (mut g, ids) = plain_graph(Device::Metal, true);
    assert_eq!(g.resolve(ids.sum), ids.sum);
    let report = MetalMatMulCompiler.compile(&mut g);
    let fused = report.plain[0].result.unwrap();
    assert_eq!(g.resolve(ids.sum), fused);
    assert_eq!(g.resolve(fused), fused);
    g.id_remap.insert(fused, 77);
    g.id_remap.insert(77, 78);
    assert_eq!(g.resolve(ids.sum), 78);
}

#[test]
fn resolve_stops_on_a_cycle() {
    let mut g = Graph::new();
    g.id_remap.insert(1, 2);
    g.id_remap.insert(2, 1);
    assert_eq!(g.resolve(1), 1);
    assert_eq!(g.resolve(2), 2);
    assert_eq!(g.resolve(3), 3);
}

#[test]
fn pin_and_retrieve_mark_nodes() {
    let (mut g, ids) = plain_graph(Device::Metal, true);
    g.pin(ids.mul);
    g.retrieve(ids.sum);
    assert!(g.is_pinned(ids.mul));
    assert!(g.to_retrieve.contains(&ids.sum));
    let report = MetalMatMulCompiler.compile(&mut g);
    assert_eq!(report.plain[0].result, Err(RewriteSkipped::Pinned));
}

#[test]
fn a_pinned_sum_moves_its_pin_to_the_fused_node() {
    let (mut g, ids) = plain_graph(Device::Metal, true);
    g.pin(ids.sum);
    let report = MetalMatMulCompiler.compile(&mut g);
    let fused = report.plain[0].result.unwrap();
    assert!(g.is_pinned(fused));
    assert!(!g.is_pinned(ids.sum));
}

#[test]
fn a_product_with_another_reader_breaks_idempotence() {
    // A second product reads the first one as a third input, and its sum
    // has the smaller id.
    let mut g = Graph::new();
    let a = leaf(&mut g, Device::Metal, 1);
    let b = leaf(&mut g, Device::Metal, 2);
    let early_sum = g.add_op(op(Device::Metal, OpKind::SumReduce(2))).finish(&mut g).unwrap();
    let first = g
        .add_op(op(Device::Metal, OpKind::Mul))
        .input(a, 0, left_operand())
        .input(b, 0, right_operand())
        .finish(&mut g)
        .unwrap();
    let second = g
        .add_op(op(Device::Metal, OpKind::Mul))
        .input(a, 0, left_operand())
        .input(b, 0, right_operand())
        .input(first, 0, tracker(&[2, 3, 4]))
        .finish(&mut g)
        .unwrap();
    let late_sum = g
        .add_op(op(Device::Metal, OpKind::SumReduce(2)))
        .input(first, 0, tracker(&[2, 3, 4]))
        .finish(&mut g)
        .unwrap();
    // Make the early sum read the second product.
    g.remove_node(early_sum);
    let early_sum = g
        .add_op(op(Device::Metal, OpKind::SumReduce(2)))
        .input(second, 0, tracker(&[2, 3, 4]))
        .finish(&mut g)
        .unwrap();
    assert!(early_sum < late_sum);
    let once = fuse_matmuls(&mut g, Device::Metal, MatmulForm::Plain);
    assert_eq!(once.len(), 1);
    assert_eq!((once[0].source, once[0].sink), (first, late_sum));
    let again = fuse_matmuls(&mut g, Device::Metal, MatmulForm::Plain);
    assert_eq!(again.len(), 1);
    assert_eq!((again[0].source, again[0].sink), (second, early_sum));
    assert!(again[0].result.is_ok());
}

#[test]
fn two_edges_into_one_input_are_malformed() {
    let (mut g, ids) = plain_graph(Device::Metal, true);
    g.graph.add_edge(
        NodeIndex::new(ids.b as usize),
        NodeIndex::new(ids.mul as usize),
        Dependency { input_order: 0, output_order: 0, shape: tracker(&[1]) },
    );
    assert!(!g.is_well_formed());
}

#[test]
fn an_edge_with_a_broken_shape_is_malformed() {
    let (mut g, ids) = plain_graph(Device::Metal, true);
    let mut shape = tracker(&[1, 2]);
    shape.indexes.as_mut_slice()[1] = 0;
    g.graph.add_edge(
        NodeIndex::new(ids.b as usize),
        NodeIndex::new(ids.reader as usize),
        Dependency { input_order: 4, output_order: 0, shape },
    );
    assert!(!g.is_well_formed());
}

#[test]
fn set_node_weight_replaces_the_operator() {
    let (mut g, ids) = plain_graph(Device::Metal, true);
    let old = g.set_node_weight(ids.sum, op(Device::Metal, OpKind::SumReduce(1)));
    assert_eq!(old, Some(op(Device::Metal, OpKind::SumReduce(2))));
    assert_eq!(g.node_weight(ids.sum), Some(op(Device::Metal, OpKind::SumReduce(1))));
    assert_eq!(g.get_sources(ids.sum).len(), 1);
    assert_eq!(g.set_node_weight(4242, op(Device::Cpu, OpKind::Mul)), None);
    assert!(MetalMatMulCompiler.compile(&mut g).plain.is_empty());
}

#[test]
fn builder_refuses_more_inputs_than_can_be_numbered() {
    let mut g = Graph::new();
    let a = leaf(&mut g, Device::Cpu, 0);
    let mut many = g.add_op(op(Device::Cpu, OpKind::Other(1)));
    for _ in 0..256 {
        many = many.input(a, 0, tracker(&[1]));
    }
    let full = many.finish(&mut g).unwrap();
    assert_eq!(g.get_sources(full).len(), 256);
    assert_eq!(g.input(full, 255).unwrap().0, a);
    let mut too_many = g.add_op(op(Device::Cpu, OpKind::Other(2)));
    for _ in 0..257 {
        too_many = too_many.input(a, 0, tracker(&[1]));
    }
    assert_eq!(too_many.finish(&mut g), Err(GraphError::TooManyInputs));
    assert_eq!(g.node_ids(), vec![a, full]);
}

#[test]
fn malformed_patterns_are_refused() {
    let rows = || vec![vec![Dim::Unknown('a'), Dim::Known(2)]];
    assert_eq!(SelectOp::new().validate(), Ok(()));
    assert_eq!(SelectOp::new().shapes(rows()).validate(), Ok(()));
    assert_eq!(SelectOp::new().shapes(rows()).fakes(vec![vec![true, false]]).validate(), Ok(()));
    assert_eq!(
        SelectOp::new().shapes(rows()).fakes(vec![vec![true]]).validate(),
        Err(PatternMalformed)
    );
    assert_eq!(
        SelectOp::new().shapes(rows()).fakes(vec![vec![true, false], vec![]]).validate(),
        Err(PatternMalformed)
    );
    let bad = GraphSelector::pair(
        SelectOp::new(),
        SelectOp::new().shapes(rows()).fakes(vec![]),
    );
    assert_eq!(bad.validate(), Err(PatternMalformed));
    for form in [MatmulForm::Plain, MatmulForm::Batched, MatmulForm::Attention] {
        assert_eq!(matmul_selector(Device::Cuda, form).validate(), Ok(()));
    }
}

#[test]
fn a_product_read_by_two_sums_settles_in_one_pass() {
    let (mut g, ids) = plain_graph(Device::Metal, true);
    let second = g
        .add_op(op(Device::Metal, OpKind::SumReduce(2)))
        .input(ids.mul, 0, tracker(&[2, 3, 4]))
        .finish(&mut g)
        .unwrap();
    let first_run = MetalMatMulCompiler.compile(&mut g);
    assert_eq!(first_run.plain.len(), 1);
    assert!(first_run.plain[0].result.is_ok());
    let once = describe(&g);
    let remap = g.id_remap.clone();
    let again = MetalMatMulCompiler.compile(&mut g);
    assert!(again.plain.is_empty() && again.batched.is_empty() && again.attention.is_empty());
    assert_eq!(describe(&g), once);
    assert_eq!(g.id_remap, remap);
    assert!(g.get_sources(second).is_empty());
}

#[test]
fn a_small_graph_has_room_for_every_change() {
    let mut g = Graph::new();
    let a = leaf(&mut g, Device::Cuda, 1);
    let b = g
        .add_op(op(Device::Cuda, OpKind::Mul))
        .input(a, 0, tracker(&[2, 3]))
        .input(a, 0, tracker(&[2, 3]))
        .finish(&mut g);
    assert!(b.is_ok());
    let c = leaf(&mut g, Device::Cuda, 2);
    assert_eq!(move_outgoing_edge(a, c, &mut g), Ok(()));
    let sources = g.get_sources(b.unwrap());
    assert_eq!(sources.len(), 2);
    assert_eq!((sources[0].0, sources[1].0), (c, c));
    assert_eq!(g.graph.edge_count(), 2);

    let (mut g, ids) = plain_graph(Device::Cuda, true);
    let report = CudaMatMulOptimizer.optimize(&mut g);
    assert_eq!(report.len(), 1);
    assert_eq!((report[0].source, report[0].sink), (ids.mul, ids.sum));
    assert!(report.iter().all(|r| r.result != Err(RewriteSkipped::GraphFull)));
    assert!(report[0].result.is_ok());
}

#[test]
fn the_pass_does_the_same_to_a_graph_with_other_ids() {
    let (mut g1, ids1) = plain_graph(Device::Metal, true);
    let (mut g2, ids2) = plain_graph(Device::Metal, false);
    let r1 = fuse_matmuls(&mut g1, Device::Metal, MatmulForm::Plain);
    let r2 = fuse_matmuls(&mut g2, Device::Metal, MatmulForm::Plain);
    assert_eq!(r1.len(), 1);
    assert_eq!(r2.len(), 1);
    assert_eq!((r1[0].source, r1[0].sink), (ids1.mul, ids1.sum));
    assert_eq!((r2[0].source, r2[0].sink), (ids2.mul, ids2.sum));
    let f1 = r1[0].result.unwrap();
    let f2 = r2[0].result.unwrap();
    // The fused nodes read the operands that correspond, under the same
    // shapes, and are read by the nodes that correspond.
    let s1 = g1.get_sources(f1);
    let s2 = g2.get_sources(f2);
    assert_eq!((s1[0].0, s1[1].0), (ids1.a, ids1.b));
    assert_eq!((s2[0].0, s2[1].0), (ids2.a, ids2.b));
    assert_eq!((&s1[0].1, &s1[1].1), (&s2[0].1, &s2[1].1));
    assert_eq!(g1.get_sources(ids1.reader)[0].0, f1);
    assert_eq!(g2.get_sources(ids2.reader)[0].0, f2);
    assert_eq!(g1.id_remap.get(&ids1.sum), Some(&f1));
    assert_eq!(g2.id_remap.get(&ids2.sum), Some(&f2));
    assert_eq!(g1.node_ids().len() + 1, g2.node_ids().len());
}
