//! The matmul fusion pass: an element-wise product of two broadcast
//! operands that feeds a sum along the last axis becomes one fused
//! operator.

use crate::capacity::{
    lemma_grown_counts, lemma_input_count, lemma_slots_finite, lemma_used_up_count, taken_from,
};
use crate::graph::{
    move_outgoing_edge, move_references, moved_mark, Device, Graph, GraphView, InputView, OpKind,
    Operator,
};
use crate::search::{lemma_edge_selector, GraphSelector};
use crate::selector::{
    dim_rows, input_shapes, lists_nodes, mask_rows, Dim, EdgePattern, Match, OpTest, OpType,
    Pattern, SelectOp,
};
use crate::stable_graph::ascending;
use crate::tracker::Layout;
use vstd::prelude::*;
use vstd::set_lib::lemma_len_subset;

verus! {

/// The three products the pass knows.
#[derive(Debug, Clone, Copy, PartialEq, Eq, Structural)]
pub enum MatmulForm {
    /// `[A, B] x [B, C]`, seen as `[A, C, B]` with the sum along axis 2.
    Plain,
    /// `[D, A, B] x [B, C]`, seen as `[D, A, C, B]` with the sum along
    /// axis 3.
    Batched,
    /// `[A, B, C, D] x [A, B, D, E]`, seen as `[A, B, C, E, D]` with the
    /// sum along axis 4.
    Attention,
}

/// Why a match was left as it is.
#[derive(Debug, Clone, Copy, PartialEq, Eq, Structural)]
pub enum RewriteSkipped {
    /// The product is a node that must not be deleted.
    Pinned,
    /// The graph had no index left for the fused operator or its edges.
    GraphFull,
}

/// What the pass did at one match.
#[derive(Debug, Clone, Copy, PartialEq, Eq)]
pub struct Rewrite {
    /// The product.
    pub source: u32,
    /// The sum.
    pub sink: u32,
    /// The fused operator that took their place.
    pub result: Result<u32, RewriteSkipped>,
}

impl MatmulForm {
    /// The axis that the sum runs along.
    pub open spec fn spec_axis(self) -> usize {
        match self {
            MatmulForm::Plain => 2,
            MatmulForm::Batched => 3,
            MatmulForm::Attention => 4,
        }
    }

    /// The operator that takes the place of product and sum.
    pub open spec fn spec_kind(self) -> OpKind {
        match self {
            MatmulForm::Plain => OpKind::Matmul2D,
            MatmulForm::Batched => OpKind::BatchMatmul2D,
            MatmulForm::Attention => OpKind::AttnMatmul2D,
        }
    }

    /// The shape that both operands of the product show.
    pub open spec fn spec_shape(self) -> Seq<Dim> {
        match self {
            MatmulForm::Plain => seq![Dim::Unknown('A'), Dim::Unknown('C'), Dim::Unknown('B')],
            MatmulForm::Batched => seq![
                Dim::Unknown('D'),
                Dim::Unknown('A'),
                Dim::Unknown('C'),
                Dim::Unknown('B'),
            ],
            MatmulForm::Attention => seq![
                Dim::Unknown('A'),
                Dim::Unknown('B'),
                Dim::Unknown('C'),
                Dim::Unknown('E'),
                Dim::Unknown('D'),
            ],
        }
    }

    /// The axes that the first operand broadcasts.
    pub open spec fn spec_left_fakes(self) -> Seq<bool> {
        match self {
            MatmulForm::Plain => seq![false, true, false],
            MatmulForm::Batched => seq![false, false, true, false],
            MatmulForm::Attention => seq![false, false, false, true, false],
        }
    }

    /// The axes that the second operand broadcasts.
    pub open spec fn spec_right_fakes(self) -> Seq<bool> {
        match self {
            MatmulForm::Plain => seq![true, false, false],
            MatmulForm::Batched => seq![true, true, false, false],
            MatmulForm::Attention => seq![false, false, true, false, false],
        }
    }

    /// The axis that the sum runs along.
    pub fn axis(self) -> (a: usize)
        ensures
            a == self.spec_axis(),
    {
        match self {
            MatmulForm::Plain => 2,
            MatmulForm::Batched => 3,
            MatmulForm::Attention => 4,
        }
    }

    /// The operator that takes the place of product and sum.
    pub fn kind(self) -> (k: OpKind)
        ensures
            k == self.spec_kind(),
    {
        match self {
            MatmulForm::Plain => OpKind::Matmul2D,
            MatmulForm::Batched => OpKind::BatchMatmul2D,
            MatmulForm::Attention => OpKind::AttnMatmul2D,
        }
    }

    fn shape(self) -> (v: Vec<Dim>)
        ensures
            v@ == self.spec_shape(),
    {
        let v = match self {
            MatmulForm::Plain => vec![Dim::Unknown('A'), Dim::Unknown('C'), Dim::Unknown('B')],
            MatmulForm::Batched => vec![
                Dim::Unknown('D'),
                Dim::Unknown('A'),
                Dim::Unknown('C'),
                Dim::Unknown('B'),
            ],
            MatmulForm::Attention => vec![
                Dim::Unknown('A'),
                Dim::Unknown('B'),
                Dim::Unknown('C'),
                Dim::Unknown('E'),
                Dim::Unknown('D'),
            ],
        };
        assert(v@ =~= self.spec_shape());
        v
    }

    fn left_fakes(self) -> (v: Vec<bool>)
        ensures
            v@ == self.spec_left_fakes(),
    {
        let v = match self {
            MatmulForm::Plain => vec![false, true, false],
            MatmulForm::Batched => vec![false, false, true, false],
            MatmulForm::Attention => vec![false, false, false, true, false],
        };
        assert(v@ =~= self.spec_left_fakes());
        v
    }

    fn right_fakes(self) -> (v: Vec<bool>)
        ensures
            v@ == self.spec_right_fakes(),
    {
        let v = match self {
            MatmulForm::Plain => vec![true, false, false],
            MatmulForm::Batched => vec![true, true, false, false],
            MatmulForm::Attention => vec![false, false, true, false, false],
        };
        assert(v@ =~= self.spec_right_fakes());
        v
    }
}

/// What the pass looks for: a product on `device` whose two inputs show
/// the shape of `form` with its fake axes, feeding input 0 of a sum on
/// `device` along the axis of `form`.
pub open spec fn matmul_pattern(device: Device, form: MatmulForm) -> EdgePattern {
    EdgePattern {
        source: Pattern {
            ty: Some((device, OpType::Mul)),
            check: OpTest::Any,
            shapes: Some(seq![form.spec_shape(), form.spec_shape()]),
            fakes: Some(seq![form.spec_left_fakes(), form.spec_right_fakes()]),
        },
        sink: Pattern {
            ty: Some((device, OpType::SumReduce)),
            check: OpTest::ReduceAxis(form.spec_axis()),
            shapes: None,
            fakes: None,
        },
        input: 0,
    }
}

/// The selector of the pass.
pub fn matmul_selector(device: Device, form: MatmulForm) -> (s: GraphSelector)
    ensures
        s@ == matmul_pattern(device, form).as_selector(),
{
    let mut shapes: Vec<Vec<Dim>> = Vec::new();
    shapes.push(form.shape());
    shapes.push(form.shape());
    let mut fakes: Vec<Vec<bool>> = Vec::new();
    fakes.push(form.left_fakes());
    fakes.push(form.right_fakes());
    proof {
        assert(dim_rows(shapes@) =~= seq![form.spec_shape(), form.spec_shape()]);
        assert(mask_rows(fakes@) =~= seq![form.spec_left_fakes(), form.spec_right_fakes()]);
    }
    let source = SelectOp::new().ty(device, OpType::Mul).shapes(shapes).fakes(fakes);
    let sink = SelectOp::new().ty(device, OpType::SumReduce).check(OpTest::ReduceAxis(form.axis()));
    GraphSelector::pair(source, sink)
}

/// The shapes under which the fused operator reads its operands: the
/// broadcast axes are gone, and the second operand is turned so that the
/// summed axis comes first of its last two.
pub open spec fn operand_layouts(form: MatmulForm, a: Layout, b: Layout) -> (Layout, Layout) {
    match form {
        MatmulForm::Plain => (a.without_axis(1), b.without_axis(0).permuted(seq![1usize, 0usize])),
        MatmulForm::Batched => (
            a.without_axis(2),
            b.without_axis(1).without_axis(0).permuted(seq![1usize, 0usize]),
        ),
        MatmulForm::Attention => (
            a.without_axis(3),
            b.permuted(seq![0usize, 1usize, 2usize, 4usize, 3usize]).without_axis(2),
        ),
    }
}

/// The inputs of the fused operator that takes the place of the product
/// `source` of `g`.
pub open spec fn fused_inputs(g: GraphView, form: MatmulForm, source: u32) -> Seq<InputView> {
    let srcs = g.sources(source);
    let shapes = operand_layouts(form, srcs[0].1, srcs[1].1);
    seq![
        InputView { src: srcs[0].0, output_order: 0, shape: shapes.0 },
        InputView { src: srcs[1].0, output_order: 0, shape: shapes.1 },
    ]
}

/// The graph with the references to `old_id` moved to `new_id`.
pub open spec fn with_references_moved(g: GraphView, old_id: u32, new_id: u32) -> GraphView {
    GraphView {
        id_remap: g.id_remap.insert(old_id, new_id),
        no_delete: moved_mark(g.no_delete, old_id, new_id),
        to_retrieve: moved_mark(g.to_retrieve, old_id, new_id),
        ..g
    }
}

/// The graph after the match `m` has become the fused operator `id`: the
/// operator reads the operands of the product, everything that read the
/// sum reads the operator, references to the sum (on a CUDA device also
/// to the product) point to the operator, and product and sum are gone.
pub open spec fn fused(g: GraphView, device: Device, form: MatmulForm, m: Match, id: u32) -> GraphView {
    let op = Operator { device, kind: form.spec_kind() };
    let grown = g.with_op(id, op, fused_inputs(g, form, m.source)).reparented(m.sink, id);
    let moved = with_references_moved(grown, m.sink, id);
    let settled = if device == Device::Cuda {
        with_references_moved(moved, m.source, id)
    } else {
        moved
    };
    settled.without_node(m.source).without_node(m.sink)
}

/// Whether `g` has room for the rewrite of the match `m`: an index for
/// the fused operator, and an edge index for each of its two inputs and
/// for each input that is taken from the sum, which is handed to the
/// fused operator before the sum leaves.
pub open spec fn fusion_room(g: GraphView, form: MatmulForm, m: Match) -> bool {
    g.node_room() && g.input_room(
        2 + g.readers(m.sink).len() + taken_from(fused_inputs(g, form, m.source), m.sink),
    )
}

/// Whether `r` is what the pass does at the node `sink` of `g`: there is
/// a match, a pinned product is skipped, and any other is fused into a
/// node that `g` did not have where `g` has room for the rewrite, and
/// skipped where it has none.
pub open spec fn entry_fits(
    g: GraphView,
    device: Device,
    form: MatmulForm,
    sink: u32,
    r: Rewrite,
) -> bool {
    &&& matmul_pattern(device, form).match_at(g, sink) == Some(
        Match { source: r.source, sink: r.sink },
    )
    &&& g.no_delete.contains(r.source) ==> r.result == Err::<u32, RewriteSkipped>(
        RewriteSkipped::Pinned,
    )
    &&& !g.no_delete.contains(r.source) ==> match r.result {
        Ok(id) => !g.nodes.contains_key(id) && fusion_room(
            g,
            form,
            Match { source: r.source, sink: r.sink },
        ),
        Err(e) => e == RewriteSkipped::GraphFull && !fusion_room(
            g,
            form,
            Match { source: r.source, sink: r.sink },
        ),
    }
}

/// The graph after the step that `r` records.
pub open spec fn after(g: GraphView, device: Device, form: MatmulForm, r: Rewrite) -> GraphView {
    match r.result {
        Ok(id) => fused(g, device, form, Match { source: r.source, sink: r.sink }, id),
        Err(_) => g,
    }
}

/// The graph after the pass has visited the nodes `ids` in order and
/// recorded `report`; `None` where `report` is no record of such a walk.
pub open spec fn run(
    g: GraphView,
    device: Device,
    form: MatmulForm,
    ids: Seq<u32>,
    report: Seq<Rewrite>,
) -> Option<GraphView>
    decreases ids.len(),
{
    if ids.len() == 0 {
        if report.len() == 0 {
            Some(g)
        } else {
            None
        }
    } else if report.len() > 0 && report.last().sink == ids.last() {
        match run(g, device, form, ids.drop_last(), report.drop_last()) {
            Some(w) => if entry_fits(w, device, form, ids.last(), report.last()) {
                Some(after(w, device, form, report.last()))
            } else {
                None
            },
            None => None,
        }
    } else {
        match run(g, device, form, ids.drop_last(), report) {
            Some(w) => if matmul_pattern(device, form).match_at(w, ids.last()) is None {
                Some(w)
            } else {
                None
            },
            None => None,
        }
    }
}

/// Whether one pass over `g` that recorded `report` leaves `w`.
pub open spec fn pass_leaves(
    g: GraphView,
    device: Device,
    form: MatmulForm,
    report: Seq<Rewrite>,
    w: GraphView,
) -> bool {
    exists|ids: Seq<u32>| #[trigger] lists_nodes(ids, g) && run(g, device, form, ids, report) == Some(w)
}


/// Whether `entry` is source and shape of an input of `node`.
pub open spec fn is_input_of(g: GraphView, node: u32, entry: (u32, Layout)) -> bool {
    exists|x: u8|
        #![trigger g.inputs.contains_key((node, x))]
        g.inputs.contains_key((node, x)) && g.inputs[(node, x)].src == entry.0 && g.inputs[(
            node,
            x,
        )].shape == entry.1
}

/// Every entry of the list of inputs of a node is one of its inputs.
pub proof fn lemma_sources_are_inputs(g: GraphView, node: u32, i: int)
    requires
        0 <= i <= 256,
    ensures
        forall|j: int|
            0 <= j < g.sources_below(node, i).len() ==> is_input_of(
                g,
                node,
                #[trigger] g.sources_below(node, i)[j],
            ),
    decreases i,
{
    if i > 0 {
        lemma_sources_are_inputs(g, node, i - 1);
        let rest = g.sources_below(node, i - 1);
        let k = (node, (i - 1) as u8);
        assert forall|j: int| 0 <= j < g.sources_below(node, i).len() implies is_input_of(
            g,
            node,
            #[trigger] g.sources_below(node, i)[j],
        ) by {
            if j < rest.len() {
                assert(is_input_of(g, node, rest[j]));
            } else {
                assert(g.inputs.contains_key(k));
            }
        }
    }
}

/// Taking out a node that was just put in gives the graph back.
pub proof fn lemma_with_op_undone(g: GraphView, id: u32, op: Operator, ins: Seq<InputView>)
    requires
        g.wf(),
        !g.nodes.contains_key(id),
    ensures
        g.with_op(id, op, ins).without_node(id) == g,
{
    let out = g.with_op(id, op, ins).without_node(id);
    assert(out.nodes =~= g.nodes);
    assert forall|k: (u32, u8)| out.inputs.contains_key(k) <==> g.inputs.contains_key(k) by {
        if g.inputs.contains_key(k) {
            assert(g.nodes.contains_key(k.0));
            assert(g.nodes.contains_key(g.inputs[k].src));
        }
    }
    assert(out.inputs =~= g.inputs);
}

/// Whether the graph has room for every rewrite: a node index is left,
/// and each input could be taken over once besides the four edges that
/// one rewrite adds at most.
pub open spec fn is_roomy(g: GraphView) -> bool {
    g.node_room() && 2 * g.inputs.dom().len() + 4 <= u32::MAX
}

/// A roomy graph has room for the rewrite of any match.
pub proof fn lemma_roomy_fits(g: GraphView, form: MatmulForm, m: Match)
    requires
        is_roomy(g),
    ensures
        fusion_room(g, form, m),
{
    lemma_slots_finite(g.inputs.dom());
    lemma_len_subset(g.readers(m.sink), g.inputs.dom());
}

/// A rewrite adds neither to the number of nodes nor to the number of
/// inputs, so that a roomy graph stays roomy.
pub proof fn lemma_fused_counts(
    g: GraphView,
    device: Device,
    form: MatmulForm,
    m: Match,
    id: u32,
)
    requires
        matmul_pattern(device, form).match_at(g, m.sink) == Some(m),
    ensures
        fused(g, device, form, m, id).nodes.dom().len() <= g.nodes.dom().len(),
        fused(g, device, form, m, id).inputs.dom().len() <= g.inputs.dom().len(),
        is_roomy(g) ==> is_roomy(fused(g, device, form, m, id)),
{
    let w = fused(g, device, form, m, id);
    let op = Operator { device, kind: form.spec_kind() };
    lemma_used_up_count(g.nodes);
    lemma_slots_finite(g.inputs.dom());
    assert(g.nodes.contains_key(m.sink) && g.nodes.contains_key(m.source));
    assert(m.source != m.sink);
    assert(w.nodes.dom() =~= g.nodes.dom().insert(id).remove(m.source).remove(m.sink));
    // The product has an input, and the sum reads the product.
    let srcs = g.sources(m.source);
    let rows = seq![form.spec_shape(), form.spec_shape()];
    assert(input_shapes(g, m.source).len() == rows.len());
    lemma_sources_are_inputs(g, m.source, 256);
    assert(is_input_of(g, m.source, srcs[0]));
    let x = choose|x: u8|
        #![trigger g.inputs.contains_key((m.source, x))]
        g.inputs.contains_key((m.source, x)) && g.inputs[(m.source, x)].src == srcs[0].0
            && g.inputs[(m.source, x)].shape == srcs[0].1;
    let gone_a = (m.source, x);
    let gone_b = (m.sink, 0u8);
    assert(g.inputs.contains_key(gone_b));
    let most = g.inputs.dom().insert((id, 0u8)).insert((id, 1u8));
    let left = most.remove(gone_a).remove(gone_b);
    assert(w.inputs.dom().subset_of(left));
    lemma_len_subset(w.inputs.dom(), left);
}

/// Whether `report` records no match that was skipped for want of room.
pub open spec fn none_for_room(report: Seq<Rewrite>) -> bool {
    forall|i: int|
        0 <= i < report.len() ==> (#[trigger] report[i]).result != Err::<u32, RewriteSkipped>(
            RewriteSkipped::GraphFull,
        )
}

/// A walk over a roomy graph leaves a roomy graph and skips nothing for
/// want of room.
pub proof fn lemma_roomy_run(
    g: GraphView,
    device: Device,
    form: MatmulForm,
    ids: Seq<u32>,
    report: Seq<Rewrite>,
)
    requires
        is_roomy(g),
        run(g, device, form, ids, report) is Some,
    ensures
        is_roomy(run(g, device, form, ids, report)->Some_0),
        none_for_room(report),
    decreases ids.len(),
{
    if ids.len() > 0 {
        if report.len() > 0 && report.last().sink == ids.last() {
            let e = report.last();
            let m = Match { source: e.source, sink: e.sink };
            lemma_roomy_run(g, device, form, ids.drop_last(), report.drop_last());
            let prev = run(g, device, form, ids.drop_last(), report.drop_last())->Some_0;
            assert(entry_fits(prev, device, form, ids.last(), e));
            lemma_roomy_fits(prev, form, m);
            match e.result {
                Ok(id) => {
                    lemma_fused_counts(prev, device, form, m, id);
                },
                Err(_) => {},
            }
            assert forall|i: int| 0 <= i < report.len() implies (#[trigger] report[i]).result
                != Err::<u32, RewriteSkipped>(RewriteSkipped::GraphFull) by {
                if i < report.len() - 1 {
                    assert(report[i] == report.drop_last()[i]);
                }
            }
        } else {
            lemma_roomy_run(g, device, form, ids.drop_last(), report);
        }
    }
}

/// Looks for the pattern of `form` at the sum `sink` and, where it is
/// there and the product is not pinned, puts the fused operator in the
/// place of product and sum; the match is skipped for want of room
/// where the graph has none for the rewrite, and only there. `None`
/// where there is no match.
pub fn rewrite_at(graph: &mut Graph, device: Device, form: MatmulForm, sink: u32) -> (r: Option<
    Rewrite,
>)
    requires
        old(graph).wf(),
    ensures
        final(graph).wf(),
        r is None ==> matmul_pattern(device, form).match_at(old(graph)@, sink) is None,
        r is None ==> final(graph)@ == old(graph)@,
        r matches Some(e) ==> entry_fits(old(graph)@, device, form, sink, e) && final(graph)@
            == after(old(graph)@, device, form, e),
{
    let selector = matmul_selector(device, form);
    proof {
        lemma_edge_selector(matmul_pattern(device, form), graph@, sink);
    }
    let m = match selector.find_at(graph, sink) {
        Some(nodes) => Match { source: nodes[0], sink: nodes[1] },
        None => {
            return None;
        },
    };
    if graph.is_pinned(m.source) {
        return Some(Rewrite { source: m.source, sink: m.sink, result: Err(RewriteSkipped::Pinned) });
    }
    let skipped = Rewrite {
        source: m.source,
        sink: m.sink,
        result: Err(RewriteSkipped::GraphFull),
    };
    let ghost g0 = graph@;
    let ghost srcs = g0.sources(m.source);
    proof {
        lemma_input_count(crate::stable_graph::graph_edges(graph.graph));
        crate::graph::lemma_view_wf(graph);
        lemma_sources_are_inputs(g0, m.source, 256);
        assert(is_input_of(g0, m.source, srcs[0]));
        assert(is_input_of(g0, m.source, srcs[1]));
        assert(crate::selector::input_shapes(g0, m.source).len() == 2);
        assert(srcs.len() == 2);
        let shape = form.spec_shape();
        let rows = seq![shape, shape];
        assert(rows[0] == shape && rows[1] == shape);
        assert(crate::selector::input_shapes(g0, m.source)[0] == srcs[0].1.shape());
        assert(crate::selector::input_shapes(g0, m.source)[1] == srcs[1].1.shape());
        assert(srcs[0].1.len() == shape.len());
        assert(srcs[1].1.len() == shape.len());
    }
    let mut sources = graph.get_sources(m.source);
    let (b_src, mut b) = match sources.pop() {
        Some(p) => p,
        None => {
            return Some(skipped);
        },
    };
    let (a_src, mut a) = match sources.pop() {
        Some(p) => p,
        None => {
            return Some(skipped);
        },
    };
    assert(a@ == srcs[0].1 && b@ == srcs[1].1 && a_src == srcs[0].0 && b_src == srcs[1].0);
    let swap: Vec<usize> = vec![1, 0];
    match form {
        MatmulForm::Plain => {
            let _ = a.remove_dim(1);
            let _ = b.remove_dim(0);
            assert(swap@ =~= seq![1usize, 0usize]);
            b.permute(swap.as_slice());
        },
        MatmulForm::Batched => {
            let _ = a.remove_dim(2);
            let _ = b.remove_dim(1);
            let _ = b.remove_dim(0);
            assert(swap@ =~= seq![1usize, 0usize]);
            b.permute(swap.as_slice());
        },
        MatmulForm::Attention => {
            let _ = a.remove_dim(3);
            let turn: Vec<usize> = vec![0, 1, 2, 4, 3];
            assert(turn@ =~= seq![0usize, 1usize, 2usize, 4usize, 3usize]);
            b.permute(turn.as_slice());
            let _ = b.remove_dim(2);
        },
    }
    assert((a@, b@) == operand_layouts(form, srcs[0].1, srcs[1].1));
    let op = Operator { device, kind: form.kind() };
    let built = graph.add_op(op).input(a_src, 0, a).input(b_src, 0, b);
    proof {
        assert(built.input_views() =~= fused_inputs(g0, form, m.source));
        assert(built.sources_in(g0)) by {
            assert(built.inputs@.len() == 2);
            assert(built.input_views()[0].src == a_src);
            assert(built.input_views()[1].src == b_src);
        }
    }
    let id = match built.finish(graph) {
        Ok(id) => id,
        Err(_) => {
            return Some(skipped);
        },
    };
    proof {
        lemma_grown_counts(g0, id, op, fused_inputs(g0, form, m.source), m.sink);
    }
    match move_outgoing_edge(m.sink, id, graph) {
        Ok(_) => {},
        Err(_) => {
            graph.remove_node(id);
            proof {
                lemma_with_op_undone(g0, id, op, fused_inputs(g0, form, m.source));
            }
            return Some(skipped);
        },
    }
    move_references(
        &mut graph.id_remap,
        &mut graph.no_delete,
        &mut graph.to_retrieve,
        m.sink,
        id,
    );
    if device == Device::Cuda {
        move_references(
            &mut graph.id_remap,
            &mut graph.no_delete,
            &mut graph.to_retrieve,
            m.source,
            id,
        );
    }
    graph.remove_node(m.source);
    graph.remove_node(m.sink);
    Some(Rewrite { source: m.source, sink: m.sink, result: Ok(id) })
}

/// One pass for one form: visits the nodes by rising id and rewrites
/// every match whose product is not pinned. The result records, match by
/// match, what was done. On a roomy graph no match is skipped for want
/// of room, and the graph stays roomy.
pub fn fuse_matmuls(graph: &mut Graph, device: Device, form: MatmulForm) -> (report: Vec<Rewrite>)
    requires
        old(graph).wf(),
    ensures
        final(graph).wf(),
        pass_leaves(old(graph)@, device, form, report@, final(graph)@),
        is_roomy(old(graph)@) ==> is_roomy(final(graph)@) && none_for_room(report@),
{
    let ids = graph.node_ids();
    let mut report: Vec<Rewrite> = Vec::new();
    let mut k: usize = 0;
    assert(ids@.take(0) =~= Seq::<u32>::empty());
    while k < ids.len()
        invariant
            k <= ids@.len(),
            graph.wf(),
            ascending(ids@),
            run(old(graph)@, device, form, ids@.take(k as int), report@) == Some(graph@),
            forall|i: int|
                0 <= i < report@.len() ==> exists|q: int|
                    0 <= q < k && ids@[q] == (#[trigger] report@[i]).sink,
        decreases ids@.len() - k,
    {
        let ghost before = report@;
        let ghost visited = ids@.take(k as int);
        let ghost next = ids@.take(k as int + 1);
        let ghost g = graph@;
        proof {
            assert(next.drop_last() =~= visited);
            assert(next.last() == ids@[k as int]);
            if before.len() > 0 {
                let q = choose|q: int| 0 <= q < k && ids@[q] == before[before.len() - 1].sink;
                assert(ids@[q] < ids@[k as int]);
            }
        }
        match rewrite_at(graph, device, form, ids[k]) {
            Some(r) => {
                report.push(r);
                proof {
                    assert(report@.drop_last() =~= before);
                    assert(report@.last() == r);
                    assert(r.sink == ids@[k as int]);
                    assert forall|i: int| 0 <= i < report@.len() implies exists|q: int|
                        0 <= q < k + 1 && ids@[q] == (#[trigger] report@[i]).sink by {
                        if i < before.len() {
                            let q = choose|q: int| 0 <= q < k && ids@[q] == before[i].sink;
                            assert(ids@[q] == report@[i].sink);
                        } else {
                            assert(ids@[k as int] == report@[i].sink);
                        }
                    }
                }
            },
            None => {},
        }
        k += 1;
    }
    proof {
        assert(ids@.take(ids@.len() as int) =~= ids@);
        assert(lists_nodes(ids@, old(graph)@));
        if is_roomy(old(graph)@) {
            lemma_roomy_run(old(graph)@, device, form, ids@, report@);
        }
    }
    report
}

/// The matmul pass for Metal: plain, batched and attention products,
/// one pass each, in this order.
pub struct MetalMatMulCompiler;

/// What [`MetalMatMulCompiler::compile`] did, pass by pass.
pub struct MetalReport {
    pub plain: Vec<Rewrite>,
    pub batched: Vec<Rewrite>,
    pub attention: Vec<Rewrite>,
}

/// A pass that lowers operators of the graph for a device.
pub trait Compiler {
    /// What the pass reports of its work.
    type Output;

    fn compile(&self, graph: &mut Graph) -> (report: Self::Output)
        requires
            old(graph).wf(),
        ensures
            final(graph).wf(),
    ;
}

/// A pass that replaces operators of the graph by faster ones.
pub trait GraphOptimizer {
    /// What the pass reports of its work.
    type Output;

    fn optimize(&self, graph: &mut Graph) -> (report: Self::Output)
        requires
            old(graph).wf(),
        ensures
            final(graph).wf(),
    ;
}

impl Compiler for MetalMatMulCompiler {
    type Output = MetalReport;

    /// Runs the three passes. The graph is left as the third pass
    /// leaves what the second leaves of what the first leaves. On a
    /// roomy graph no pass skips a match for want of room.
    fn compile(&self, graph: &mut Graph) -> (report: MetalReport)
        ensures
            final(graph).wf(),
            exists|g1: GraphView, g2: GraphView|
                #![trigger pass_leaves(g1, Device::Metal, MatmulForm::Batched, report.batched@, g2)]
                pass_leaves(old(graph)@, Device::Metal, MatmulForm::Plain, report.plain@, g1)
                    && pass_leaves(g1, Device::Metal, MatmulForm::Batched, report.batched@, g2)
                    && pass_leaves(
                    g2,
                    Device::Metal,
                    MatmulForm::Attention,
                    report.attention@,
                    final(graph)@,
                ),
            is_roomy(old(graph)@) ==> is_roomy(final(graph)@) && none_for_room(report.plain@)
                && none_for_room(report.batched@) && none_for_room(report.attention@),
    {
        let plain = fuse_matmuls(graph, Device::Metal, MatmulForm::Plain);
        let ghost g1 = graph@;
        let batched = fuse_matmuls(graph, Device::Metal, MatmulForm::Batched);
        let ghost g2 = graph@;
        let attention = fuse_matmuls(graph, Device::Metal, MatmulForm::Attention);
        let report = MetalReport { plain, batched, attention };
        proof {
            assert(pass_leaves(g1, Device::Metal, MatmulForm::Batched, report.batched@, g2));
        }
        report
    }
}

/// The matmul pass for CUDA: plain products.
pub struct CudaMatMulOptimizer;

impl GraphOptimizer for CudaMatMulOptimizer {
    type Output = Vec<Rewrite>;

    /// Runs the pass for plain products. On a roomy graph it skips no
    /// match for want of room.
    fn optimize(&self, graph: &mut Graph) -> (report: Vec<Rewrite>)
        ensures
            final(graph).wf(),
            pass_leaves(old(graph)@, Device::Cuda, MatmulForm::Plain, report@, final(graph)@),
            is_roomy(old(graph)@) ==> is_roomy(final(graph)@) && none_for_room(report@),
    {
        fuse_matmuls(graph, Device::Cuda, MatmulForm::Plain)
    }
}

} // verus!
