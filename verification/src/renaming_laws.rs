//! The matmul pass on a graph whose nodes carry other ids: it does to the
//! renamed graph what it does to the graph, as long as the renaming
//! keeps the order in which the nodes are visited.

use crate::capacity::{lemma_image_size, lemma_slots_finite, lemma_used_up_count, taken_from};
use crate::graph::{Device, GraphView, InputView, Operator};
use crate::graph_laws::{is_relabeling, lemma_match_relabeled, lemma_relabeled_sources, relabeled};
use crate::matmul::{
    after, entry_fits, fused, fused_inputs, fusion_room, matmul_pattern, pass_leaves, run,
    with_references_moved, MatmulForm, Rewrite,
};
use crate::selector::{input_shapes, lists_nodes, Match};
use vstd::prelude::*;

verus! {

/// The inputs `ins`, each taken from the renamed node.
pub open spec fn relabeled_inputs(ins: Seq<InputView>, f: spec_fn(u32) -> u32) -> Seq<InputView> {
    Seq::new(ins.len(), |i: int| ins[i].from_node(f(ins[i].src)))
}

/// The record `r` with its nodes renamed.
pub open spec fn relabeled_entry(r: Rewrite, f: spec_fn(u32) -> u32) -> Rewrite {
    Rewrite {
        source: f(r.source),
        sink: f(r.sink),
        result: match r.result {
            Ok(id) => Ok(f(id)),
            Err(e) => Err(e),
        },
    }
}

/// The records `report`, each with its nodes renamed.
pub open spec fn relabeled_report(report: Seq<Rewrite>, f: spec_fn(u32) -> u32) -> Seq<Rewrite> {
    Seq::new(report.len(), |i: int| relabeled_entry(report[i], f))
}

/// The ids `ids`, each renamed.
pub open spec fn relabeled_ids(ids: Seq<u32>, f: spec_fn(u32) -> u32) -> Seq<u32> {
    Seq::new(ids.len(), |i: int| f(ids[i]))
}

/// Whether `f` keeps the order of the nodes of `g`.
pub open spec fn keeps_order(f: spec_fn(u32) -> u32, g: GraphView) -> bool {
    forall|a: u32, b: u32|
        #![trigger g.nodes.contains_key(a), g.nodes.contains_key(b)]
        g.nodes.contains_key(a) && g.nodes.contains_key(b) && a < b ==> f(a) < f(b)
}

/// Renaming and adding a node can be done in either order.
pub proof fn lemma_with_op_relabeled(
    g: GraphView,
    f: spec_fn(u32) -> u32,
    back: spec_fn(u32) -> u32,
    id: u32,
    op: Operator,
    ins: Seq<InputView>,
)
    requires
        is_relabeling(f, back),
    ensures
        relabeled(g.with_op(id, op, ins), f, back) == relabeled(g, f, back).with_op(
            f(id),
            op,
            relabeled_inputs(ins, f),
        ),
{
    let a = relabeled(g.with_op(id, op, ins), f, back);
    let b = relabeled(g, f, back).with_op(f(id), op, relabeled_inputs(ins, f));
    assert forall|n: u32| a.nodes.contains_key(n) <==> b.nodes.contains_key(n) by {
        assert(f(back(n)) == n);
        assert(back(f(id)) == id);
    }
    assert forall|n: u32| a.nodes.contains_key(n) implies a.nodes[n] == b.nodes[n] by {
        assert(f(back(n)) == n);
        assert(back(f(id)) == id);
    }
    assert(a.nodes =~= b.nodes);
    assert forall|k: (u32, u8)| a.inputs.contains_key(k) <==> b.inputs.contains_key(k) by {
        assert(f(back(k.0)) == k.0);
        assert(back(f(id)) == id);
    }
    assert forall|k: (u32, u8)| a.inputs.contains_key(k) implies a.inputs[k] == b.inputs[k] by {
        assert(f(back(k.0)) == k.0);
        assert(back(f(id)) == id);
    }
    assert(a.inputs =~= b.inputs);
    assert(a.id_remap =~= b.id_remap);
    assert(a.no_delete =~= b.no_delete);
    assert(a.to_retrieve =~= b.to_retrieve);
}

/// Renaming and handing the readers of a node to another can be done in
/// either order.
pub proof fn lemma_reparented_relabeled(
    g: GraphView,
    f: spec_fn(u32) -> u32,
    back: spec_fn(u32) -> u32,
    from: u32,
    to: u32,
)
    requires
        is_relabeling(f, back),
    ensures
        relabeled(g.reparented(from, to), f, back) == relabeled(g, f, back).reparented(
            f(from),
            f(to),
        ),
{
    let a = relabeled(g.reparented(from, to), f, back);
    let b = relabeled(g, f, back).reparented(f(from), f(to));
    assert(a.nodes =~= b.nodes);
    assert forall|k: (u32, u8)| a.inputs.contains_key(k) implies a.inputs[k] == b.inputs[k] by {
        let src = g.inputs[(back(k.0), k.1)].src;
        assert(back(f(src)) == src);
        assert(back(f(from)) == from);
    }
    assert(a.inputs =~= b.inputs);
    assert(a.id_remap =~= b.id_remap);
    assert(a.no_delete =~= b.no_delete);
    assert(a.to_retrieve =~= b.to_retrieve);
}

/// Renaming and moving the references to a node can be done in either
/// order.
pub proof fn lemma_moved_relabeled(
    g: GraphView,
    f: spec_fn(u32) -> u32,
    back: spec_fn(u32) -> u32,
    old_id: u32,
    new_id: u32,
)
    requires
        is_relabeling(f, back),
    ensures
        relabeled(with_references_moved(g, old_id, new_id), f, back) == with_references_moved(
            relabeled(g, f, back),
            f(old_id),
            f(new_id),
        ),
{
    let a = relabeled(with_references_moved(g, old_id, new_id), f, back);
    let b = with_references_moved(relabeled(g, f, back), f(old_id), f(new_id));
    assert(back(f(old_id)) == old_id);
    assert(back(f(new_id)) == new_id);
    assert(a.nodes =~= b.nodes);
    assert(a.inputs =~= b.inputs);
    assert forall|n: u32| a.id_remap.contains_key(n) <==> b.id_remap.contains_key(n) by {
        assert(f(back(n)) == n);
    }
    assert forall|n: u32| a.id_remap.contains_key(n) implies a.id_remap[n] == b.id_remap[n] by {
        assert(f(back(n)) == n);
    }
    assert(a.id_remap =~= b.id_remap);
    assert forall|n: u32| a.no_delete.contains(n) <==> b.no_delete.contains(n) by {
        assert(f(back(n)) == n);
    }
    assert(a.no_delete =~= b.no_delete);
    assert forall|n: u32| a.to_retrieve.contains(n) <==> b.to_retrieve.contains(n) by {
        assert(f(back(n)) == n);
    }
    assert(a.to_retrieve =~= b.to_retrieve);
}

/// Renaming and taking out a node can be done in either order.
pub proof fn lemma_without_relabeled(
    g: GraphView,
    f: spec_fn(u32) -> u32,
    back: spec_fn(u32) -> u32,
    n: u32,
)
    requires
        is_relabeling(f, back),
    ensures
        relabeled(g.without_node(n), f, back) == relabeled(g, f, back).without_node(f(n)),
{
    let a = relabeled(g.without_node(n), f, back);
    let b = relabeled(g, f, back).without_node(f(n));
    assert(back(f(n)) == n);
    assert forall|x: u32| a.nodes.contains_key(x) <==> b.nodes.contains_key(x) by {
        assert(f(back(x)) == x);
    }
    assert(a.nodes =~= b.nodes);
    assert forall|k: (u32, u8)| a.inputs.contains_key(k) <==> b.inputs.contains_key(k) by {
        assert(f(back(k.0)) == k.0);
        let src = g.inputs[(back(k.0), k.1)].src;
        assert(back(f(src)) == src);
    }
    assert(a.inputs =~= b.inputs);
    assert(a.id_remap =~= b.id_remap);
    assert(a.no_delete =~= b.no_delete);
    assert(a.to_retrieve =~= b.to_retrieve);
}

/// The fused operator of a renamed match reads the renamed operands.
pub proof fn lemma_fused_inputs_relabeled(
    g: GraphView,
    f: spec_fn(u32) -> u32,
    back: spec_fn(u32) -> u32,
    form: MatmulForm,
    source: u32,
)
    requires
        is_relabeling(f, back),
        g.sources(source).len() == 2,
    ensures
        fused_inputs(relabeled(g, f, back), form, f(source)) == relabeled_inputs(
            fused_inputs(g, form, source),
            f,
        ),
{
    lemma_relabeled_sources(g, f, back, source, 256);
    let r = relabeled(g, f, back);
    assert(r.sources(f(source))[0] == (f(g.sources(source)[0].0), g.sources(source)[0].1));
    assert(r.sources(f(source))[1] == (f(g.sources(source)[1].0), g.sources(source)[1].1));
    assert(fused_inputs(r, form, f(source)) =~= relabeled_inputs(
        fused_inputs(g, form, source),
        f,
    ));
}

/// Renaming and rewriting a match can be done in either order.
pub proof fn lemma_fused_relabeled(
    g: GraphView,
    f: spec_fn(u32) -> u32,
    back: spec_fn(u32) -> u32,
    device: Device,
    form: MatmulForm,
    m: Match,
    id: u32,
)
    requires
        is_relabeling(f, back),
        g.sources(m.source).len() == 2,
    ensures
        relabeled(fused(g, device, form, m, id), f, back) == fused(
            relabeled(g, f, back),
            device,
            form,
            Match { source: f(m.source), sink: f(m.sink) },
            f(id),
        ),
{
    let op = Operator { device, kind: form.spec_kind() };
    let ins = fused_inputs(g, form, m.source);
    let g1 = g.with_op(id, op, ins);
    let g2 = g1.reparented(m.sink, id);
    let g3 = with_references_moved(g2, m.sink, id);
    let g4 = if device == Device::Cuda {
        with_references_moved(g3, m.source, id)
    } else {
        g3
    };
    let g5 = g4.without_node(m.source);
    lemma_fused_inputs_relabeled(g, f, back, form, m.source);
    lemma_with_op_relabeled(g, f, back, id, op, ins);
    lemma_reparented_relabeled(g1, f, back, m.sink, id);
    lemma_moved_relabeled(g2, f, back, m.sink, id);
    if device == Device::Cuda {
        lemma_moved_relabeled(g3, f, back, m.source, id);
    }
    lemma_without_relabeled(g4, f, back, m.source);
    lemma_without_relabeled(g5, f, back, m.sink);
}

/// The slot `k` of the renamed graph.
pub open spec fn relabeled_slot(k: (u32, u8), f: spec_fn(u32) -> u32) -> (u32, u8) {
    (f(k.0), k.1)
}

/// A renamed graph has as many nodes and inputs as the graph, and a
/// renamed node as many readers as the node.
pub proof fn lemma_counts_relabeled(
    g: GraphView,
    f: spec_fn(u32) -> u32,
    back: spec_fn(u32) -> u32,
    n: u32,
)
    requires
        is_relabeling(f, back),
    ensures
        relabeled(g, f, back).nodes.dom().len() == g.nodes.dom().len(),
        relabeled(g, f, back).inputs.dom().len() == g.inputs.dom().len(),
        relabeled(g, f, back).readers(f(n)).len() == g.readers(n).len(),
{
    let r = relabeled(g, f, back);
    lemma_used_up_count(g.nodes);
    lemma_slots_finite(g.inputs.dom());
    lemma_slots_finite(g.readers(n));
    let kf = |k: (u32, u8)| relabeled_slot(k, f);
    let kback = |k: (u32, u8)| relabeled_slot(k, back);
    assert forall|y: u32| #[trigger] r.nodes.dom().contains(y) <==> g.nodes.dom().contains(back(y)) && f(
        back(y),
    ) == y by {
        assert(f(back(y)) == y);
    }
    lemma_image_size(g.nodes.dom(), r.nodes.dom(), f, back);
    assert forall|k: (u32, u8)| g.inputs.dom().contains(k) implies kback(#[trigger] kf(k))
        == k by {
        assert(back(f(k.0)) == k.0);
    }
    assert forall|y: (u32, u8)| #[trigger] r.inputs.dom().contains(y) <==> g.inputs.dom().contains(kback(y))
        && kf(kback(y)) == y by {
        assert(f(back(y.0)) == y.0);
    }
    lemma_image_size(g.inputs.dom(), r.inputs.dom(), kf, kback);
    assert forall|k: (u32, u8)| g.readers(n).contains(k) implies kback(#[trigger] kf(k)) == k by {
        assert(back(f(k.0)) == k.0);
    }
    assert forall|y: (u32, u8)| #[trigger] r.readers(f(n)).contains(y) <==> g.readers(n).contains(kback(y))
        && kf(kback(y)) == y by {
        assert(f(back(y.0)) == y.0);
        assert(back(f(n)) == n);
        if g.inputs.contains_key(kback(y)) {
            let src = g.inputs[kback(y)].src;
            assert(back(f(src)) == src);
        }
    }
    lemma_image_size(g.readers(n), r.readers(f(n)), kf, kback);
}

/// A renamed graph has room for the rewrite of a renamed match where the
/// graph has room for the rewrite of the match.
pub proof fn lemma_room_relabeled(
    g: GraphView,
    f: spec_fn(u32) -> u32,
    back: spec_fn(u32) -> u32,
    form: MatmulForm,
    m: Match,
)
    requires
        is_relabeling(f, back),
        g.sources(m.source).len() == 2,
    ensures
        fusion_room(relabeled(g, f, back), form, Match { source: f(m.source), sink: f(m.sink) })
            == fusion_room(g, form, m),
{
    lemma_counts_relabeled(g, f, back, m.sink);
    lemma_fused_inputs_relabeled(g, f, back, form, m.source);
    let ins = fused_inputs(g, form, m.source);
    assert(back(f(ins[0].src)) == ins[0].src);
    assert(back(f(ins[1].src)) == ins[1].src);
    assert(back(f(m.sink)) == m.sink);
    assert(taken_from(relabeled_inputs(ins, f), f(m.sink)) == taken_from(ins, m.sink));
}

/// What the pass does at a node of the graph it does, renamed, at the
/// renamed node of the renamed graph.
pub proof fn lemma_entry_relabeled(
    g: GraphView,
    f: spec_fn(u32) -> u32,
    back: spec_fn(u32) -> u32,
    device: Device,
    form: MatmulForm,
    sink: u32,
    r: Rewrite,
)
    requires
        is_relabeling(f, back),
        entry_fits(g, device, form, sink, r),
    ensures
        entry_fits(relabeled(g, f, back), device, form, f(sink), relabeled_entry(r, f)),
        after(relabeled(g, f, back), device, form, relabeled_entry(r, f)) == relabeled(
            after(g, device, form, r),
            f,
            back,
        ),
{
    let m = Match { source: r.source, sink: r.sink };
    lemma_match_relabeled(g, f, back, matmul_pattern(device, form), sink);
    let rows = seq![form.spec_shape(), form.spec_shape()];
    assert(input_shapes(g, m.source).len() == rows.len());
    assert(g.sources(m.source).len() == 2);
    assert(back(f(r.source)) == r.source);
    lemma_room_relabeled(g, f, back, form, m);
    match r.result {
        Ok(id) => {
            assert(back(f(id)) == id);
            lemma_fused_relabeled(g, f, back, device, form, m, id);
        },
        Err(_) => {},
    }
}

/// A walk over the renamed graph that visits the renamed nodes in the
/// same order does what the walk over the graph does, renamed: it
/// records the renamed matches and leaves the renamed graph.
pub proof fn lemma_run_relabeled(
    g: GraphView,
    f: spec_fn(u32) -> u32,
    back: spec_fn(u32) -> u32,
    device: Device,
    form: MatmulForm,
    ids: Seq<u32>,
    report: Seq<Rewrite>,
)
    requires
        is_relabeling(f, back),
        run(g, device, form, ids, report) is Some,
    ensures
        run(
            relabeled(g, f, back),
            device,
            form,
            relabeled_ids(ids, f),
            relabeled_report(report, f),
        ) == Some(relabeled(run(g, device, form, ids, report)->Some_0, f, back)),
    decreases ids.len(),
{
    let ids2 = relabeled_ids(ids, f);
    let report2 = relabeled_report(report, f);
    if ids.len() > 0 {
        let s = ids.last();
        assert(ids2.drop_last() =~= relabeled_ids(ids.drop_last(), f));
        assert(ids2.last() == f(s));
        if report.len() > 0 && report.last().sink == s {
            let e = report.last();
            lemma_run_relabeled(g, f, back, device, form, ids.drop_last(), report.drop_last());
            let prev = run(g, device, form, ids.drop_last(), report.drop_last())->Some_0;
            assert(report2.drop_last() =~= relabeled_report(report.drop_last(), f));
            assert(report2.last() == relabeled_entry(e, f));
            assert(entry_fits(prev, device, form, s, e));
            lemma_entry_relabeled(prev, f, back, device, form, s, e);
        } else {
            lemma_run_relabeled(g, f, back, device, form, ids.drop_last(), report);
            let w = run(g, device, form, ids.drop_last(), report)->Some_0;
            lemma_match_relabeled(w, f, back, matmul_pattern(device, form), s);
            if report.len() > 0 {
                assert(report2.last() == relabeled_entry(report.last(), f));
                assert(back(f(report.last().sink)) == report.last().sink);
                assert(back(f(s)) == s);
                assert(report2.last().sink != ids2.last());
            }
        }
    } else {
        assert(report.len() == 0);
        assert(report2.len() == 0);
    }
}

/// The pass does not depend on the ids that the nodes carry, as long as
/// their order is kept: the pass over the renamed graph records the
/// renamed matches and leaves the renamed graph. Where the order is not
/// kept, a product that two sums read is fused with another of them.
pub proof fn lemma_pass_relabeled(
    g: GraphView,
    f: spec_fn(u32) -> u32,
    back: spec_fn(u32) -> u32,
    device: Device,
    form: MatmulForm,
    report: Seq<Rewrite>,
    w: GraphView,
)
    requires
        is_relabeling(f, back),
        keeps_order(f, g),
        pass_leaves(g, device, form, report, w),
    ensures
        pass_leaves(
            relabeled(g, f, back),
            device,
            form,
            relabeled_report(report, f),
            relabeled(w, f, back),
        ),
{
    let ids = choose|ids: Seq<u32>| #[trigger]
        lists_nodes(ids, g) && run(g, device, form, ids, report) == Some(w);
    lemma_run_relabeled(g, f, back, device, form, ids, report);
    lemma_listing_relabeled(g, f, back, ids);
}

/// The renamed listing of the nodes of a graph lists the nodes of the
/// renamed graph, where the renaming keeps their order.
pub proof fn lemma_listing_relabeled(
    g: GraphView,
    f: spec_fn(u32) -> u32,
    back: spec_fn(u32) -> u32,
    ids: Seq<u32>,
)
    requires
        is_relabeling(f, back),
        keeps_order(f, g),
        lists_nodes(ids, g),
    ensures
        lists_nodes(relabeled_ids(ids, f), relabeled(g, f, back)),
{
    let ids2 = relabeled_ids(ids, f);
    let r = relabeled(g, f, back);
    assert forall|i: int, j: int| 0 <= i < j < ids2.len() implies ids2[i] < ids2[j] by {
        assert(ids.contains(ids[i]) && ids.contains(ids[j]));
        assert(g.nodes.contains_key(ids[i]) && g.nodes.contains_key(ids[j]));
        assert(ids[i] < ids[j]);
    }
    assert forall|a: u32| r.nodes.contains_key(a) <==> ids2.contains(a) by {
        if r.nodes.contains_key(a) {
            assert(ids.contains(back(a)));
            let i = choose|i: int| 0 <= i < ids.len() && ids[i] == back(a);
            assert(ids2[i] == f(back(a)));
            assert(f(back(a)) == a);
        }
        if ids2.contains(a) {
            let i = choose|i: int| 0 <= i < ids2.len() && ids2[i] == a;
            assert(ids.contains(ids[i]));
            assert(back(f(ids[i])) == ids[i]);
        }
    }
}

} // verus!
