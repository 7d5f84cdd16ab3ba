//! What holds of matching and of the matmul pass on every graph.

use crate::graph::{Device, GraphView, OpKind, Operator};
use crate::matmul::{
    after, entry_fits, fused, fused_inputs, is_roomy, lemma_roomy_fits, lemma_roomy_run,
    matmul_pattern, run, with_references_moved, MatmulForm, Rewrite, RewriteSkipped,
};
use crate::search::SelectorView;
use crate::selector::{
    input_layouts, input_shapes, lists_nodes, EdgePattern, Match, OpType, Pattern,
};
use vstd::prelude::*;

verus! {

/// Whether `f` renames node ids one to one, with `back` as its inverse.
pub open spec fn is_relabeling(f: spec_fn(u32) -> u32, back: spec_fn(u32) -> u32) -> bool {
    forall|n: u32|
        #![trigger f(n)]
        #![trigger back(n)]
        back(f(n)) == n && f(back(n)) == n
}

/// The graph `g` with every node id `n` renamed to `f(n)`.
pub open spec fn relabeled(
    g: GraphView,
    f: spec_fn(u32) -> u32,
    back: spec_fn(u32) -> u32,
) -> GraphView {
    GraphView {
        nodes: Map::new(|n: u32| g.nodes.contains_key(back(n)), |n: u32| g.nodes[back(n)]),
        inputs: Map::new(
            |k: (u32, u8)| g.inputs.contains_key((back(k.0), k.1)),
            |k: (u32, u8)|
                g.inputs[(back(k.0), k.1)].from_node(f(g.inputs[(back(k.0), k.1)].src)),
        ),
        id_remap: Map::new(
            |n: u32| g.id_remap.contains_key(back(n)),
            |n: u32| f(g.id_remap[back(n)]),
        ),
        no_delete: Set::new(|n: u32| g.no_delete.contains(back(n))),
        to_retrieve: Set::new(|n: u32| g.to_retrieve.contains(back(n))),
    }
}

/// A renamed node has the inputs of the node it was, from renamed
/// sources.
pub proof fn lemma_relabeled_sources(
    g: GraphView,
    f: spec_fn(u32) -> u32,
    back: spec_fn(u32) -> u32,
    node: u32,
    i: int,
)
    requires
        is_relabeling(f, back),
        0 <= i <= 256,
    ensures
        relabeled(g, f, back).sources_below(f(node), i).len() == g.sources_below(node, i).len(),
        forall|j: int|
            0 <= j < g.sources_below(node, i).len() ==> (#[trigger] relabeled(
                g,
                f,
                back,
            ).sources_below(f(node), i)[j]) == (
                f(g.sources_below(node, i)[j].0),
                g.sources_below(node, i)[j].1,
            ),
    decreases i,
{
    if i > 0 {
        lemma_relabeled_sources(g, f, back, node, i - 1);
        assert(back(f(node)) == node);
    }
}

/// A node fits a pattern in the renamed graph where the node it was fits
/// it in the graph.
pub proof fn lemma_relabeled_fits(
    g: GraphView,
    f: spec_fn(u32) -> u32,
    back: spec_fn(u32) -> u32,
    p: Pattern,
    node: u32,
)
    requires
        is_relabeling(f, back),
    ensures
        p.fits(relabeled(g, f, back), f(node)) == p.fits(g, node),
        input_shapes(relabeled(g, f, back), f(node)) == input_shapes(g, node),
{
    let r = relabeled(g, f, back);
    lemma_relabeled_sources(g, f, back, node, 256);
    assert(back(f(node)) == node);
    assert(input_layouts(r, f(node)) =~= input_layouts(g, node));
    assert(input_shapes(r, f(node)) =~= input_shapes(g, node));
}

/// Matching does not depend on the ids that the nodes carry: a selector
/// matches at a node of the renamed graph where it matches at the node it
/// was, and the match is the renamed match.
pub proof fn lemma_match_relabeled(
    g: GraphView,
    f: spec_fn(u32) -> u32,
    back: spec_fn(u32) -> u32,
    s: EdgePattern,
    sink: u32,
)
    requires
        is_relabeling(f, back),
    ensures
        s.match_at(relabeled(g, f, back), f(sink)) == match s.match_at(g, sink) {
            Some(m) => Some(Match { source: f(m.source), sink: f(m.sink) }),
            None => None,
        },
{
    let r = relabeled(g, f, back);
    assert(back(f(sink)) == sink);
    lemma_relabeled_fits(g, f, back, s.sink, sink);
    if g.inputs.contains_key((sink, s.input)) {
        let src = g.inputs[(sink, s.input)].src;
        lemma_relabeled_fits(g, f, back, s.source, src);
        assert(r.inputs[(f(sink), s.input)].src == f(src));
    }
}


/// The node of a vertex in the renamed graph is the renamed node of the
/// vertex.
pub proof fn lemma_relabeled_node(
    g: GraphView,
    f: spec_fn(u32) -> u32,
    back: spec_fn(u32) -> u32,
    s: SelectorView,
    anchor: u32,
    v: int,
    steps: nat,
)
    requires
        is_relabeling(f, back),
    ensures
        s.node_of(relabeled(g, f, back), f(anchor), v, steps) == match s.node_of(
            g,
            anchor,
            v,
            steps,
        ) {
            Some(n) => Some(f(n)),
            None => None,
        },
    decreases steps,
{
    if 0 <= v < s.parents.len() && s.root() != Some(v) && steps > 0 {
        match s.parents[v] {
            Some((p, i)) => {
                lemma_relabeled_node(g, f, back, s, anchor, p as int, (steps - 1) as nat);
                match s.node_of(g, anchor, p as int, (steps - 1) as nat) {
                    Some(above) => {
                        assert(back(f(above)) == above);
                    },
                    None => {},
                }
            },
            None => {},
        }
    }
}

/// Matching does not depend on the ids that the nodes carry: a selector
/// matches with its root on a node of the renamed graph where it matches
/// with its root on the node it was, and the match is the renamed match.
pub proof fn lemma_selector_relabeled(
    g: GraphView,
    f: spec_fn(u32) -> u32,
    back: spec_fn(u32) -> u32,
    s: SelectorView,
    anchor: u32,
)
    requires
        is_relabeling(f, back),
    ensures
        s.match_at(relabeled(g, f, back), f(anchor)) == match s.match_at(g, anchor) {
            Some(m) => Some(Seq::new(m.len(), |v: int| f(m[v]))),
            None => None,
        },
{
    let r = relabeled(g, f, back);
    let n = s.ops.len() as int;
    if s.ops.len() == s.parents.len() && n > 0 {
        if s.matches_at(g, anchor) {
            assert forall|v: int| 0 <= v < n implies #[trigger] s.vertex_fits(r, f(anchor), v) by {
                lemma_vertex_relabeled(g, f, back, s, anchor, v);
                assert(s.vertex_fits(g, anchor, v));
            }
            assert forall|u: int, v: int| 0 <= u < v < n implies #[trigger] s.pair_agrees(
                r,
                f(anchor),
                u,
                v,
            ) by {
                assert(s.vertex_fits(g, anchor, u) && s.vertex_fits(g, anchor, v));
                assert(s.pair_agrees(g, anchor, u, v));
                lemma_vertex_relabeled(g, f, back, s, anchor, u);
                lemma_vertex_relabeled(g, f, back, s, anchor, v);
            }
            let m = s.match_at(g, anchor)->Some_0;
            let m2 = s.match_at(r, f(anchor))->Some_0;
            assert forall|v: int| 0 <= v < n implies m2[v] == f(m[v]) by {
                assert(s.vertex_fits(g, anchor, v));
                lemma_vertex_relabeled(g, f, back, s, anchor, v);
            }
            assert(m2 =~= Seq::new(m.len(), |v: int| f(m[v])));
        } else if s.matches_at(r, f(anchor)) {
            assert forall|v: int| 0 <= v < n implies #[trigger] s.vertex_fits(g, anchor, v) by {
                assert(s.vertex_fits(r, f(anchor), v));
                lemma_vertex_relabeled(g, f, back, s, anchor, v);
            }
            assert forall|u: int, v: int| 0 <= u < v < n implies #[trigger] s.pair_agrees(
                g,
                anchor,
                u,
                v,
            ) by {
                assert(s.vertex_fits(r, f(anchor), u) && s.vertex_fits(r, f(anchor), v));
                assert(s.pair_agrees(r, f(anchor), u, v));
                lemma_vertex_relabeled(g, f, back, s, anchor, u);
                lemma_vertex_relabeled(g, f, back, s, anchor, v);
            }
        }
    }
}

/// A vertex has a fitting node in the renamed graph where it has one in
/// the graph: the renamed node, with the same input shapes.
pub proof fn lemma_vertex_relabeled(
    g: GraphView,
    f: spec_fn(u32) -> u32,
    back: spec_fn(u32) -> u32,
    s: SelectorView,
    anchor: u32,
    v: int,
)
    requires
        is_relabeling(f, back),
    ensures
        s.node(relabeled(g, f, back), f(anchor), v) == match s.node(g, anchor, v) {
            Some(x) => Some(f(x)),
            None => None,
        },
        s.vertex_fits(relabeled(g, f, back), f(anchor), v) == s.vertex_fits(g, anchor, v),
        s.node(g, anchor, v) matches Some(x) ==> input_shapes(relabeled(g, f, back), f(x))
            == input_shapes(g, x),
{
    lemma_relabeled_node(g, f, back, s, anchor, v, s.parents.len());
    match s.node(g, anchor, v) {
        Some(x) => {
            lemma_relabeled_fits(g, f, back, s.ops[v], x);
        },
        None => {},
    }
}

/// Whether every match of the pattern of `form` on `device` has a pinned
/// product, so that the pass has nothing to rewrite.
pub open spec fn is_settled(g: GraphView, device: Device, form: MatmulForm) -> bool {
    forall|sink: u32|
        (#[trigger] matmul_pattern(device, form).match_at(g, sink)) matches Some(m)
            ==> g.no_delete.contains(m.source)
}

/// Whether node `n` reads node `src`.
pub open spec fn reads(g: GraphView, n: u32, src: u32) -> bool {
    exists|x: u8|
        #![trigger g.inputs.contains_key((n, x))]
        g.inputs.contains_key((n, x)) && g.inputs[(n, x)].src == src
}

/// Whether the product of the match `m` leaves quietly when the fused
/// operator `id` takes its place: no node that read the product is the
/// product of a match afterwards, for any form on any device.
pub open spec fn leaves_quietly(
    g: GraphView,
    device: Device,
    form: MatmulForm,
    m: Match,
    id: u32,
) -> bool {
    forall|d2: Device, f2: MatmulForm, sink: u32|
        (#[trigger] matmul_pattern(d2, f2).match_at(fused(g, device, form, m, id), sink)) matches Some(
            m2,
        ) ==> !reads(g, m2.source, m.source)
}

/// Whether no product reads the product of the match `m`: its readers
/// are sums and other operators.
pub open spec fn read_by_no_product(g: GraphView, m: Match) -> bool {
    forall|k: (u32, u8)| #[trigger]
        g.inputs.contains_key(k) && g.inputs[k].src == m.source && g.nodes.contains_key(k.0)
            ==> g.nodes[k.0].kind.spec_op_type() != OpType::Mul
}

/// A product that no product reads leaves quietly: so does one that two
/// sums read.
pub proof fn lemma_sums_leave_quietly(
    g: GraphView,
    device: Device,
    form: MatmulForm,
    m: Match,
    id: u32,
)
    requires
        read_by_no_product(g, m),
    ensures
        leaves_quietly(g, device, form, m, id),
{
    let w = fused(g, device, form, m, id);
    let op = Operator { device, kind: form.spec_kind() };
    assert(w.nodes == g.nodes.insert(id, op).remove(m.source).remove(m.sink));
    assert forall|d2: Device, f2: MatmulForm, sink: u32|
        (#[trigger] matmul_pattern(d2, f2).match_at(w, sink)) is Some implies !reads(
        g,
        matmul_pattern(d2, f2).match_at(w, sink)->Some_0.source,
        m.source,
    ) by {
        {
            let src = matmul_pattern(d2, f2).match_at(w, sink)->Some_0.source;
            assert(w.nodes[src].kind.spec_op_type() == OpType::Mul);
            assert(src != id);
            assert(g.nodes.contains_key(src) && g.nodes[src] == w.nodes[src]);
            if reads(g, src, m.source) {
                let x = choose|x: u8|
                    #![trigger g.inputs.contains_key((src, x))]
                    g.inputs.contains_key((src, x)) && g.inputs[(src, x)].src == m.source;
                assert(g.inputs.contains_key((src, x)));
            }
        }
    }
}

/// Whether every product that the walk recorded by `report` fused left
/// quietly.
pub open spec fn is_orderly(
    g: GraphView,
    device: Device,
    form: MatmulForm,
    ids: Seq<u32>,
    report: Seq<Rewrite>,
) -> bool
    decreases ids.len(),
{
    if ids.len() == 0 {
        true
    } else if report.len() > 0 && report.last().sink == ids.last() {
        &&& is_orderly(g, device, form, ids.drop_last(), report.drop_last())
        &&& match run(g, device, form, ids.drop_last(), report.drop_last()) {
            Some(w) => match report.last().result {
                Ok(id) => leaves_quietly(
                    w,
                    device,
                    form,
                    Match { source: report.last().source, sink: report.last().sink },
                    id,
                ),
                Err(_) => true,
            },
            None => true,
        }
    } else {
        is_orderly(g, device, form, ids.drop_last(), report)
    }
}

/// On a settled graph the pass changes nothing: every match is recorded
/// as skipped for its pin.
pub proof fn lemma_settled_pass_is_identity(
    g: GraphView,
    device: Device,
    form: MatmulForm,
    ids: Seq<u32>,
    report: Seq<Rewrite>,
)
    requires
        is_settled(g, device, form),
        run(g, device, form, ids, report) is Some,
    ensures
        run(g, device, form, ids, report) == Some(g),
        forall|i: int|
            0 <= i < report.len() ==> (#[trigger] report[i]).result == Err::<u32, RewriteSkipped>(
                RewriteSkipped::Pinned,
            ),
        is_orderly(g, device, form, ids, report),
    decreases ids.len(),
{
    if ids.len() > 0 {
        if report.len() > 0 && report.last().sink == ids.last() {
            lemma_settled_pass_is_identity(g, device, form, ids.drop_last(), report.drop_last());
            let e = report.last();
            assert(matmul_pattern(device, form).match_at(g, ids.last()) == Some(
                Match { source: e.source, sink: e.sink },
            ));
            assert forall|i: int| 0 <= i < report.len() implies (#[trigger] report[i]).result
                == Err::<u32, RewriteSkipped>(RewriteSkipped::Pinned) by {
                if i < report.len() - 1 {
                    assert(report[i] == report.drop_last()[i]);
                }
            }
        } else {
            lemma_settled_pass_is_identity(g, device, form, ids.drop_last(), report);
        }
    }
}

/// What a node that is neither the fused operator, the product nor the
/// sum, and does not read the product, reads after the rewrite: what it
/// read before, under the same shape, with the fused operator in the
/// place of the sum.
pub proof fn lemma_fused_inputs(
    g: GraphView,
    device: Device,
    form: MatmulForm,
    m: Match,
    id: u32,
    k: (u32, u8),
)
    requires
        !reads(g, k.0, m.source),
        id != m.sink,
        id != m.source,
        k.0 != id,
        k.0 != m.source,
        k.0 != m.sink,
    ensures
        fused(g, device, form, m, id).inputs.contains_key(k) == g.inputs.contains_key(k),
        g.inputs.contains_key(k) ==> fused(g, device, form, m, id).inputs[k].shape
            == g.inputs[k].shape && fused(g, device, form, m, id).inputs[k].src == if g.inputs[k].src
            == m.sink {
            id
        } else {
            g.inputs[k].src
        },
{
    let op = Operator { device, kind: form.spec_kind() };
    let g1 = g.with_op(id, op, fused_inputs(g, form, m.source));
    let g2 = g1.reparented(m.sink, id);
    let g3 = with_references_moved(g2, m.sink, id);
    let g4 = if device == Device::Cuda {
        with_references_moved(g3, m.source, id)
    } else {
        g3
    };
    let g5 = g4.without_node(m.source);
    let g6 = g5.without_node(m.sink);
    assert(g6 == fused(g, device, form, m, id));
    assert(g1.inputs.contains_key(k) == g.inputs.contains_key(k));
    if g.inputs.contains_key(k) {
        assert(g1.inputs[k] == g.inputs[k]);
        assert(g2.inputs.contains_key(k));
        assert(g4.inputs == g2.inputs);
        assert(g.inputs.contains_key((k.0, k.1)));
        assert(g.inputs[k].src != m.source);
        assert(g5.inputs.contains_key(k));
        assert(g6.inputs.contains_key(k));
    }
}

/// The inputs of a node that the rewrite leaves alone keep their number
/// and their shapes.
pub proof fn lemma_fused_sources(
    g: GraphView,
    device: Device,
    form: MatmulForm,
    m: Match,
    id: u32,
    node: u32,
    i: int,
)
    requires
        !reads(g, node, m.source),
        id != m.sink,
        id != m.source,
        node != id,
        node != m.source,
        node != m.sink,
        0 <= i <= 256,
    ensures
        fused(g, device, form, m, id).sources_below(node, i).len() == g.sources_below(
            node,
            i,
        ).len(),
        forall|j: int|
            0 <= j < g.sources_below(node, i).len() ==> (#[trigger] fused(
                g,
                device,
                form,
                m,
                id,
            ).sources_below(node, i)[j]).1 == g.sources_below(node, i)[j].1,
    decreases i,
{
    if i > 0 {
        lemma_fused_sources(g, device, form, m, id, node, i - 1);
        lemma_fused_inputs(g, device, form, m, id, (node, (i - 1) as u8));
    }
}

/// A rewrite makes no new match, for any form on any device: what
/// matches afterwards matched before, and a pinned product stays pinned.
pub proof fn lemma_fused_keeps_matches(
    g: GraphView,
    device: Device,
    form: MatmulForm,
    m: Match,
    id: u32,
    other_device: Device,
    other_form: MatmulForm,
    sink: u32,
)
    requires
        matmul_pattern(device, form).match_at(g, m.sink) == Some(m),
        !g.nodes.contains_key(id),
        leaves_quietly(g, device, form, m, id),
    ensures
        matmul_pattern(other_device, other_form).match_at(
            fused(g, device, form, m, id),
            sink,
        ) matches Some(m2) ==> matmul_pattern(other_device, other_form).match_at(g, sink) == Some(
            m2,
        ) && (g.no_delete.contains(m2.source) ==> fused(g, device, form, m, id).no_delete.contains(
            m2.source,
        )),
{
    let w = fused(g, device, form, m, id);
    let pat = matmul_pattern(other_device, other_form);
    if pat.match_at(w, sink) is Some {
        let m2 = pat.match_at(w, sink)->Some_0;
        let op = Operator { device, kind: form.spec_kind() };
        let g1 = g.with_op(id, op, fused_inputs(g, form, m.source));
        let g2 = g1.reparented(m.sink, id);
        let g3 = with_references_moved(g2, m.sink, id);
        let g4 = if device == Device::Cuda {
            with_references_moved(g3, m.source, id)
        } else {
            g3
        };
        let g5 = g4.without_node(m.source);
        assert(w == g5.without_node(m.sink));
        assert(w.nodes == g.nodes.insert(id, op).remove(m.source).remove(m.sink));
        // The sum of the new match is an old node that the rewrite left.
        assert(w.nodes[sink].kind.spec_op_type() == crate::selector::OpType::SumReduce);
        assert(sink != id);
        assert(g.nodes.contains_key(sink) && g.nodes[sink] == w.nodes[sink]);
        // So is its product, which the sum read before.
        let src = m2.source;
        let k = (sink, 0u8);
        assert(w.inputs[k].src == src);
        assert(w.nodes[src].kind.spec_op_type() == crate::selector::OpType::Mul);
        assert(src != id);
        assert(g5.inputs.contains_key(k) && g4.inputs.contains_key(k));
        assert(g4.inputs == g2.inputs);
        assert(g1.inputs.contains_key(k) && g.inputs.contains_key(k));
        assert(w.inputs[k] == g2.inputs[k]);
        assert(g.inputs[k].src == src);
        assert(!reads(g, src, m.source));
        assert(g.nodes.contains_key(src) && g.nodes[src] == w.nodes[src]);
        lemma_fused_sources(g, device, form, m, id, src, 256);
        assert(input_layouts(w, src) =~= input_layouts(g, src));
        assert(input_shapes(w, src) =~= input_shapes(g, src));
        assert(pat.source.fits(g, src));
        assert(pat.sink.fits(g, sink));
        assert(pat.match_at(g, sink) == Some(m2));
    }
}


/// Whether every match at a node of `ids` has a pinned product.
pub open spec fn visited_settled(
    g: GraphView,
    device: Device,
    form: MatmulForm,
    ids: Seq<u32>,
) -> bool {
    forall|q: int|
        0 <= q < ids.len() ==> ((#[trigger] matmul_pattern(device, form).match_at(
            g,
            ids[q],
        )) matches Some(m) ==> g.no_delete.contains(m.source))
}

/// Whether the operator is one that the pass puts in.
pub open spec fn is_fused_kind(kind: OpKind) -> bool {
    kind == OpKind::Matmul2D || kind == OpKind::BatchMatmul2D || kind == OpKind::AttnMatmul2D
}

/// Whether every node that `all` does not list is a fused operator.
pub open spec fn strangers_are_fused(g: GraphView, all: Seq<u32>) -> bool {
    forall|n: u32| #[trigger] g.nodes.contains_key(n) && !all.contains(n) ==> is_fused_kind(
        g.nodes[n].kind,
    )
}

/// One rewrite keeps what the walk has reached: visited matches stay
/// pinned, the new node is a fused operator, and what was settled for a
/// form stays settled.
pub proof fn lemma_fused_settles(
    g: GraphView,
    device: Device,
    form: MatmulForm,
    m: Match,
    id: u32,
    all: Seq<u32>,
    visited: Seq<u32>,
)
    requires
        matmul_pattern(device, form).match_at(g, m.sink) == Some(m),
        !g.nodes.contains_key(id),
        leaves_quietly(g, device, form, m, id),
        strangers_are_fused(g, all),
        visited_settled(g, device, form, visited),
    ensures
        visited_settled(fused(g, device, form, m, id), device, form, visited),
        strangers_are_fused(fused(g, device, form, m, id), all),
        !fused(g, device, form, m, id).nodes.contains_key(m.sink),
        forall|d2: Device, f2: MatmulForm|
            is_settled(g, d2, f2) ==> #[trigger] is_settled(
                fused(g, device, form, m, id),
                d2,
                f2,
            ),
{
    let w = fused(g, device, form, m, id);
    let pat = matmul_pattern(device, form);
    let op = Operator { device, kind: form.spec_kind() };
    assert(w.nodes == g.nodes.insert(id, op).remove(m.source).remove(m.sink));
    assert forall|q: int| 0 <= q < visited.len() implies ((#[trigger] pat.match_at(
        w,
        visited[q],
    )) matches Some(m2) ==> w.no_delete.contains(m2.source)) by {
        lemma_fused_keeps_matches(g, device, form, m, id, device, form, visited[q]);
        if pat.match_at(w, visited[q]) is Some {
            assert(pat.match_at(g, visited[q]) is Some);
        }
    }
    assert forall|d2: Device, f2: MatmulForm| is_settled(g, d2, f2) implies #[trigger] is_settled(
        w,
        d2,
        f2,
    ) by {
        assert forall|sink: u32|
            (#[trigger] matmul_pattern(d2, f2).match_at(w, sink)) matches Some(m2)
                ==> w.no_delete.contains(m2.source) by {
            lemma_fused_keeps_matches(g, device, form, m, id, d2, f2, sink);
            if matmul_pattern(d2, f2).match_at(w, sink) is Some {
                assert(matmul_pattern(d2, f2).match_at(g, sink) is Some);
            }
        }
    }
}

/// A walk over a roomy graph in which every fused product left quietly
/// leaves every visited match pinned, adds nothing but fused operators,
/// and keeps settled what was settled for any form.
pub proof fn lemma_run_settles(
    g: GraphView,
    device: Device,
    form: MatmulForm,
    all: Seq<u32>,
    ids: Seq<u32>,
    report: Seq<Rewrite>,
)
    requires
        strangers_are_fused(g, all),
        run(g, device, form, ids, report) is Some,
        is_roomy(g),
        is_orderly(g, device, form, ids, report),
    ensures
        visited_settled(run(g, device, form, ids, report)->Some_0, device, form, ids),
        strangers_are_fused(run(g, device, form, ids, report)->Some_0, all),
        forall|d2: Device, f2: MatmulForm|
            is_settled(g, d2, f2) ==> #[trigger] is_settled(
                run(g, device, form, ids, report)->Some_0,
                d2,
                f2,
            ),
    decreases ids.len(),
{
    let w = run(g, device, form, ids, report)->Some_0;
    let pat = matmul_pattern(device, form);
    if ids.len() > 0 {
        let rest = ids.drop_last();
        let s = ids.last();
        if report.len() > 0 && report.last().sink == s {
            let e = report.last();
            lemma_run_settles(g, device, form, all, rest, report.drop_last());
            let prev = run(g, device, form, rest, report.drop_last())->Some_0;
            let m = Match { source: e.source, sink: e.sink };
            assert(entry_fits(prev, device, form, s, e));
            lemma_roomy_run(g, device, form, rest, report.drop_last());
            lemma_roomy_fits(prev, form, m);
            match e.result {
                Ok(id) => {
                    assert(w == fused(prev, device, form, m, id));
                    lemma_fused_settles(prev, device, form, m, id, all, rest);
                    assert forall|q: int| 0 <= q < ids.len() implies ((#[trigger] pat.match_at(
                        w,
                        ids[q],
                    )) matches Some(m2) ==> w.no_delete.contains(m2.source)) by {
                        if q < rest.len() {
                            assert(ids[q] == rest[q]);
                        } else {
                            assert(!w.nodes.contains_key(s));
                        }
                    }
                    assert forall|d2: Device, f2: MatmulForm| is_settled(g, d2, f2) implies #[trigger] is_settled(
                        w,
                        d2,
                        f2,
                    ) by {
                        assert(is_settled(prev, d2, f2));
                    }
                },
                Err(_) => {
                    assert(w == prev);
                    assert forall|q: int| 0 <= q < ids.len() implies ((#[trigger] pat.match_at(
                        w,
                        ids[q],
                    )) matches Some(m2) ==> w.no_delete.contains(m2.source)) by {
                        if q < rest.len() {
                            assert(ids[q] == rest[q]);
                        }
                    }
                },
            }
        } else {
            lemma_run_settles(g, device, form, all, rest, report);
            assert forall|q: int| 0 <= q < ids.len() implies ((#[trigger] pat.match_at(
                w,
                ids[q],
            )) matches Some(m2) ==> w.no_delete.contains(m2.source)) by {
                if q < rest.len() {
                    assert(ids[q] == rest[q]);
                }
            }
        }
    }
}

/// After a pass over all nodes of a roomy graph in which every fused
/// product left quietly, the pass has nothing left to rewrite.
pub proof fn lemma_pass_settles(
    g: GraphView,
    device: Device,
    form: MatmulForm,
    ids: Seq<u32>,
    report: Seq<Rewrite>,
)
    requires
        lists_nodes(ids, g),
        run(g, device, form, ids, report) is Some,
        is_roomy(g),
        is_orderly(g, device, form, ids, report),
    ensures
        is_settled(run(g, device, form, ids, report)->Some_0, device, form),
{
    let w = run(g, device, form, ids, report)->Some_0;
    let pat = matmul_pattern(device, form);
    lemma_run_settles(g, device, form, ids, ids, report);
    assert forall|sink: u32| (#[trigger] pat.match_at(w, sink)) matches Some(m)
        ==> w.no_delete.contains(m.source) by {
        if pat.match_at(w, sink) is Some {
            assert(w.nodes.contains_key(sink));
            assert(w.nodes[sink].kind.spec_op_type() == crate::selector::OpType::SumReduce);
            assert(ids.contains(sink));
            let q = choose|q: int| 0 <= q < ids.len() && ids[q] == sink;
            assert(pat.match_at(w, ids[q]) is Some);
        }
    }
}

/// The pass is idempotent: after a first pass over a roomy graph in
/// which every fused product left quietly, a second pass changes nothing
/// and records only pinned products. On a graph that is not roomy the
/// first pass may skip a match for want of room and make that room by a
/// later rewrite, and where a reader of a fused product becomes a product
/// of two operands by losing it, the second pass finds a match that the
/// first did not.
pub proof fn lemma_pass_twice(
    g: GraphView,
    device: Device,
    form: MatmulForm,
    ids: Seq<u32>,
    report: Seq<Rewrite>,
    ids_again: Seq<u32>,
    report_again: Seq<Rewrite>,
)
    requires
        lists_nodes(ids, g),
        run(g, device, form, ids, report) is Some,
        is_roomy(g),
        is_orderly(g, device, form, ids, report),
        run(run(g, device, form, ids, report)->Some_0, device, form, ids_again, report_again)
            is Some,
    ensures
        run(run(g, device, form, ids, report)->Some_0, device, form, ids_again, report_again)
            == run(g, device, form, ids, report),
        forall|i: int|
            0 <= i < report_again.len() ==> (#[trigger] report_again[i]).result == Err::<
                u32,
                RewriteSkipped,
            >(RewriteSkipped::Pinned),
{
    let w = run(g, device, form, ids, report)->Some_0;
    lemma_pass_settles(g, device, form, ids, report);
    lemma_settled_pass_is_identity(w, device, form, ids_again, report_again);
}

/// Whether no product of `g` reads a product.
pub open spec fn products_apart(g: GraphView) -> bool {
    forall|k: (u32, u8)| #[trigger]
        g.inputs.contains_key(k) && g.nodes.contains_key(k.0) && g.nodes.contains_key(
            g.inputs[k].src,
        ) && g.nodes[k.0].kind.spec_op_type() == OpType::Mul ==> g.nodes[g.inputs[k].src].kind.spec_op_type()
            != OpType::Mul
}

/// Where no product reads a product, a rewrite leaves it so, and the
/// fused product leaves quietly.
pub proof fn lemma_fused_apart(g: GraphView, device: Device, form: MatmulForm, m: Match, id: u32)
    requires
        products_apart(g),
        matmul_pattern(device, form).match_at(g, m.sink) == Some(m),
        !g.nodes.contains_key(id),
    ensures
        products_apart(fused(g, device, form, m, id)),
        leaves_quietly(g, device, form, m, id),
{
    let w = fused(g, device, form, m, id);
    let op = Operator { device, kind: form.spec_kind() };
    let g1 = g.with_op(id, op, fused_inputs(g, form, m.source));
    let g2 = g1.reparented(m.sink, id);
    let g3 = with_references_moved(g2, m.sink, id);
    let g4 = if device == Device::Cuda {
        with_references_moved(g3, m.source, id)
    } else {
        g3
    };
    let g5 = g4.without_node(m.source);
    assert(w == g5.without_node(m.sink));
    assert(w.nodes == g.nodes.insert(id, op).remove(m.source).remove(m.sink));
    assert(g4.inputs == g2.inputs);
    assert(g.nodes[m.source].kind.spec_op_type() == OpType::Mul);
    assert forall|k: (u32, u8)| #[trigger]
        w.inputs.contains_key(k) && w.nodes.contains_key(k.0) && w.nodes.contains_key(
            w.inputs[k].src,
        ) && w.nodes[k.0].kind.spec_op_type() == OpType::Mul implies w.nodes[w.inputs[k].src].kind.spec_op_type()
        != OpType::Mul by {
        assert(k.0 != id);
        assert(g5.inputs.contains_key(k) && g2.inputs.contains_key(k));
        assert(g1.inputs.contains_key(k) && g.inputs.contains_key(k));
        assert(w.inputs[k] == g2.inputs[k]);
        if g.inputs[k].src != m.sink {
            assert(w.inputs[k].src == g.inputs[k].src);
        }
    }
    assert(read_by_no_product(g, m)) by {
        assert forall|k: (u32, u8)| #[trigger]
            g.inputs.contains_key(k) && g.inputs[k].src == m.source && g.nodes.contains_key(
                k.0,
            ) implies g.nodes[k.0].kind.spec_op_type() != OpType::Mul by {}
    }
    lemma_sums_leave_quietly(g, device, form, m, id);
}

/// Where no product reads a product, every product that a walk fuses
/// leaves quietly, and no product reads a product afterwards.
pub proof fn lemma_apart_run(
    g: GraphView,
    device: Device,
    form: MatmulForm,
    ids: Seq<u32>,
    report: Seq<Rewrite>,
)
    requires
        products_apart(g),
        run(g, device, form, ids, report) is Some,
    ensures
        products_apart(run(g, device, form, ids, report)->Some_0),
        is_orderly(g, device, form, ids, report),
    decreases ids.len(),
{
    if ids.len() > 0 {
        if report.len() > 0 && report.last().sink == ids.last() {
            let e = report.last();
            let m = Match { source: e.source, sink: e.sink };
            lemma_apart_run(g, device, form, ids.drop_last(), report.drop_last());
            let prev = run(g, device, form, ids.drop_last(), report.drop_last())->Some_0;
            assert(entry_fits(prev, device, form, ids.last(), e));
            match e.result {
                Ok(id) => {
                    if !prev.no_delete.contains(e.source) {
                        lemma_fused_apart(prev, device, form, m, id);
                    }
                },
                Err(_) => {},
            }
        } else {
            lemma_apart_run(g, device, form, ids.drop_last(), report);
        }
    }
}

/// On a roomy graph in which no product reads a product the pass is
/// idempotent: a second pass changes nothing and records only pinned
/// products.
pub proof fn lemma_pass_twice_apart(
    g: GraphView,
    device: Device,
    form: MatmulForm,
    ids: Seq<u32>,
    report: Seq<Rewrite>,
    ids_again: Seq<u32>,
    report_again: Seq<Rewrite>,
)
    requires
        lists_nodes(ids, g),
        run(g, device, form, ids, report) is Some,
        is_roomy(g),
        products_apart(g),
        run(run(g, device, form, ids, report)->Some_0, device, form, ids_again, report_again)
            is Some,
    ensures
        run(run(g, device, form, ids, report)->Some_0, device, form, ids_again, report_again)
            == run(g, device, form, ids, report),
        forall|i: int|
            0 <= i < report_again.len() ==> (#[trigger] report_again[i]).result == Err::<
                u32,
                RewriteSkipped,
            >(RewriteSkipped::Pinned),
{
    lemma_apart_run(g, device, form, ids, report);
    lemma_pass_twice(g, device, form, ids, report, ids_again, report_again);
}

/// On a roomy graph in which no product reads a product the three passes
/// of the Metal compiler, run again, change nothing.
pub proof fn lemma_compile_twice_apart(
    g: GraphView,
    ids: Seq<Seq<u32>>,
    reports: Seq<Seq<Rewrite>>,
    ids_again: Seq<Seq<u32>>,
    reports_again: Seq<Seq<Rewrite>>,
)
    requires
        ids.len() == 3 && reports.len() == 3 && ids_again.len() == 3 && reports_again.len() == 3,
        three_passes(g, ids, reports) is Some,
        is_roomy(g),
        products_apart(g),
        lists_nodes(ids[0], g),
        lists_nodes(ids[1], run(g, Device::Metal, MatmulForm::Plain, ids[0], reports[0])->Some_0),
        lists_nodes(
            ids[2],
            run(
                run(g, Device::Metal, MatmulForm::Plain, ids[0], reports[0])->Some_0,
                Device::Metal,
                MatmulForm::Batched,
                ids[1],
                reports[1],
            )->Some_0,
        ),
        three_passes(three_passes(g, ids, reports)->Some_0, ids_again, reports_again) is Some,
    ensures
        three_passes(three_passes(g, ids, reports)->Some_0, ids_again, reports_again)
            == three_passes(g, ids, reports),
{
    let g1 = run(g, Device::Metal, MatmulForm::Plain, ids[0], reports[0])->Some_0;
    let g2 = run(g1, Device::Metal, MatmulForm::Batched, ids[1], reports[1])->Some_0;
    lemma_apart_run(g, Device::Metal, MatmulForm::Plain, ids[0], reports[0]);
    lemma_apart_run(g1, Device::Metal, MatmulForm::Batched, ids[1], reports[1]);
    lemma_apart_run(g2, Device::Metal, MatmulForm::Attention, ids[2], reports[2]);
    lemma_compile_twice(g, ids, reports, ids_again, reports_again);
}

/// The three passes of the Metal compiler, run again after a first run
/// over a roomy graph in which every fused product left quietly, change
/// nothing.
pub proof fn lemma_compile_twice(
    g: GraphView,
    ids: Seq<Seq<u32>>,
    reports: Seq<Seq<Rewrite>>,
    ids_again: Seq<Seq<u32>>,
    reports_again: Seq<Seq<Rewrite>>,
)
    requires
        ids.len() == 3 && reports.len() == 3 && ids_again.len() == 3 && reports_again.len() == 3,
        three_passes(g, ids, reports) is Some,
        is_roomy(g),
        lists_nodes(ids[0], g),
        is_orderly(g, Device::Metal, MatmulForm::Plain, ids[0], reports[0]),
        lists_nodes(ids[1], run(g, Device::Metal, MatmulForm::Plain, ids[0], reports[0])->Some_0),
        is_orderly(
            run(g, Device::Metal, MatmulForm::Plain, ids[0], reports[0])->Some_0,
            Device::Metal,
            MatmulForm::Batched,
            ids[1],
            reports[1],
        ),
        lists_nodes(
            ids[2],
            run(
                run(g, Device::Metal, MatmulForm::Plain, ids[0], reports[0])->Some_0,
                Device::Metal,
                MatmulForm::Batched,
                ids[1],
                reports[1],
            )->Some_0,
        ),
        is_orderly(
            run(
                run(g, Device::Metal, MatmulForm::Plain, ids[0], reports[0])->Some_0,
                Device::Metal,
                MatmulForm::Batched,
                ids[1],
                reports[1],
            )->Some_0,
            Device::Metal,
            MatmulForm::Attention,
            ids[2],
            reports[2],
        ),
        three_passes(three_passes(g, ids, reports)->Some_0, ids_again, reports_again) is Some,
    ensures
        three_passes(three_passes(g, ids, reports)->Some_0, ids_again, reports_again)
            == three_passes(g, ids, reports),
{
    let g1 = run(g, Device::Metal, MatmulForm::Plain, ids[0], reports[0])->Some_0;
    let g2 = run(g1, Device::Metal, MatmulForm::Batched, ids[1], reports[1])->Some_0;
    let g3 = run(g2, Device::Metal, MatmulForm::Attention, ids[2], reports[2])->Some_0;
    lemma_roomy_run(g, Device::Metal, MatmulForm::Plain, ids[0], reports[0]);
    lemma_roomy_run(g1, Device::Metal, MatmulForm::Batched, ids[1], reports[1]);
    lemma_pass_settles(g, Device::Metal, MatmulForm::Plain, ids[0], reports[0]);
    lemma_pass_settles(g1, Device::Metal, MatmulForm::Batched, ids[1], reports[1]);
    lemma_pass_settles(g2, Device::Metal, MatmulForm::Attention, ids[2], reports[2]);
    lemma_run_settles(g1, Device::Metal, MatmulForm::Batched, ids[1], ids[1], reports[1]);
    assert(is_settled(g2, Device::Metal, MatmulForm::Plain));
    lemma_run_settles(g2, Device::Metal, MatmulForm::Attention, ids[2], ids[2], reports[2]);
    assert(is_settled(g3, Device::Metal, MatmulForm::Plain));
    assert(is_settled(g3, Device::Metal, MatmulForm::Batched));
    lemma_settled_pass_is_identity(
        g3,
        Device::Metal,
        MatmulForm::Plain,
        ids_again[0],
        reports_again[0],
    );
    lemma_settled_pass_is_identity(
        g3,
        Device::Metal,
        MatmulForm::Batched,
        ids_again[1],
        reports_again[1],
    );
    lemma_settled_pass_is_identity(
        g3,
        Device::Metal,
        MatmulForm::Attention,
        ids_again[2],
        reports_again[2],
    );
}

/// The graph after the plain, the batched and the attention pass for
/// Metal, in this order.
pub open spec fn three_passes(
    g: GraphView,
    ids: Seq<Seq<u32>>,
    reports: Seq<Seq<Rewrite>>,
) -> Option<GraphView> {
    match run(g, Device::Metal, MatmulForm::Plain, ids[0], reports[0]) {
        Some(g1) => match run(g1, Device::Metal, MatmulForm::Batched, ids[1], reports[1]) {
            Some(g2) => run(g2, Device::Metal, MatmulForm::Attention, ids[2], reports[2]),
            None => None,
        },
        None => None,
    }
}


/// The nodes of a graph have one listing by rising id: what a search or
/// a pass says of "a listing" it says of this one.
pub proof fn lemma_listing_unique(a: Seq<u32>, b: Seq<u32>, g: GraphView)
    requires
        lists_nodes(a, g),
        lists_nodes(b, g),
    ensures
        a == b,
{
    lemma_same_items(a, b);
}

/// Two rising sequences with the same items are one sequence.
proof fn lemma_same_items(a: Seq<u32>, b: Seq<u32>)
    requires
        crate::stable_graph::ascending(a),
        crate::stable_graph::ascending(b),
        forall|x: u32| a.contains(x) <==> b.contains(x),
    ensures
        a == b,
    decreases a.len(),
{
    if a.len() == 0 {
        if b.len() > 0 {
            assert(b.contains(b[0]));
            assert(a.contains(b[0]));
        }
        assert(a =~= b);
    } else {
        assert(a.contains(a[0]));
        assert(b.contains(a[0]));
        let j = choose|j: int| 0 <= j < b.len() && b[j] == a[0];
        assert(b.contains(b[0]));
        assert(a.contains(b[0]));
        let i = choose|i: int| 0 <= i < a.len() && a[i] == b[0];
        if j > 0 {
            assert(b[0] < b[j]);
        }
        if i > 0 {
            assert(a[0] < a[i]);
        }
        assert(a[0] == b[0]);
        let rest_a = a.drop_first();
        let rest_b = b.drop_first();
        assert forall|x: u32| rest_a.contains(x) <==> rest_b.contains(x) by {
            if rest_a.contains(x) {
                let k = choose|k: int| 0 <= k < rest_a.len() && rest_a[k] == x;
                assert(a[k + 1] == x);
                assert(a[0] < a[k + 1]);
                assert(a.contains(x));
                assert(b.contains(x));
                let l = choose|l: int| 0 <= l < b.len() && b[l] == x;
                assert(l > 0);
                assert(rest_b[l - 1] == x);
            }
            if rest_b.contains(x) {
                let k = choose|k: int| 0 <= k < rest_b.len() && rest_b[k] == x;
                assert(b[k + 1] == x);
                assert(b[0] < b[k + 1]);
                assert(b.contains(x));
                assert(a.contains(x));
                let l = choose|l: int| 0 <= l < a.len() && a[l] == x;
                assert(l > 0);
                assert(rest_a[l - 1] == x);
            }
        }
        assert(crate::stable_graph::ascending(rest_a)) by {
            assert forall|p: int, q: int| 0 <= p < q < rest_a.len() implies rest_a[p]
                < rest_a[q] by {
                assert(a[p + 1] < a[q + 1]);
            }
        }
        assert(crate::stable_graph::ascending(rest_b)) by {
            assert forall|p: int, q: int| 0 <= p < q < rest_b.len() implies rest_b[p]
                < rest_b[q] by {
                assert(b[p + 1] < b[q + 1]);
            }
        }
        lemma_same_items(rest_a, rest_b);
        assert(a =~= seq![a[0]] + rest_a);
        assert(b =~= seq![b[0]] + rest_b);
    }
}

} // verus!
