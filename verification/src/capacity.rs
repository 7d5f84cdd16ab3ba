//! How many nodes and inputs a graph can hold: a graph gives out every
//! index of 32 bits but the largest, so it is full once as many nodes, or
//! as many edges, are in it.

use crate::graph::{
    fills, inputs_of, slot_of, slots_unique, Dependency, GraphView, InputView, Operator,
};
use crate::stable_graph::{in_range, no_repeats, used_up};
use vstd::prelude::*;
use vstd::relations::injective_on;
use vstd::set_lib::{
    full_set_properties, lemma_len_subset, lemma_map_size, range_set_properties,
};

verus! {

/// A map keyed by indices has finitely many keys: at least as many as
/// there are indices to give out once all of them are in use, and no
/// more where every key is such an index.
pub proof fn lemma_used_up_count<V>(used: Map<u32, V>)
    ensures
        used.dom().finite(),
        used_up(used) ==> used.dom().len() >= u32::MAX,
        in_range(used) ==> used.dom().len() <= u32::MAX,
{
    broadcast use full_set_properties;

    assert(Set::<u32>::full().finite());
    lemma_len_subset(used.dom(), Set::<u32>::full());
    if used_up(used) {
        let all = Set::<u32>::range(0u32, u32::MAX);
        range_set_properties::<u32>(0u32, u32::MAX);
        assert forall|i: u32| all.contains(i) implies used.dom().contains(i) by {
            assert(used.contains_key(i));
        }
        lemma_len_subset(all, used.dom());
    }
    if in_range(used) {
        let all = Set::<u32>::range(0u32, u32::MAX);
        range_set_properties::<u32>(0u32, u32::MAX);
        assert forall|i: u32| used.dom().contains(i) implies all.contains(i) by {
            assert(used.contains_key(i));
        }
        lemma_len_subset(used.dom(), all);
    }
}

/// A finite set has as many items as its image under a function that can
/// be undone.
pub proof fn lemma_image_size<A>(s: Set<A>, t: Set<A>, f: spec_fn(A) -> A, back: spec_fn(A) -> A)
    requires
        s.finite(),
        forall|x: A| s.contains(x) ==> back(#[trigger] f(x)) == x,
        forall|y: A| #[trigger] t.contains(y) <==> s.contains(back(y)) && f(back(y)) == y,
    ensures
        t.len() == s.len(),
{
    assert(injective_on(f, s));
    assert forall|y: A| s.map(f).contains(y) <==> t.contains(y) by {
        if s.map(f).contains(y) {
            let x = choose|x: A| s.contains(x) && y == f(x);
            assert(back(f(x)) == x);
        }
        if t.contains(y) {
            assert(s.contains(back(y)) && y == f(back(y)));
        }
    }
    assert(s.map(f) =~= t);
    lemma_map_size(s, t, f);
}

/// There are finitely many input slots.
pub proof fn lemma_slots_finite(slots: Set<(u32, u8)>)
    ensures
        slots.finite(),
{
    let codes = Set::<u64>::range(0u64, 0x100_0000_0000u64);
    range_set_properties::<u64>(0u64, 0x100_0000_0000u64);
    let f = |x: u64| ((x / 256) as u32, (x % 256) as u8);
    codes.lemma_map_finite(f);
    assert forall|k: (u32, u8)| slots.contains(k) implies codes.map(f).contains(k) by {
        let x = (k.0 * 256 + k.1) as u64;
        assert(codes.contains(x));
        assert(f(x) == k);
    }
    lemma_len_subset(slots, codes.map(f));
}

/// Where no two edges fill one slot, the graph has as many inputs as
/// edges.
pub proof fn lemma_input_count(edges: Map<u32, (u32, u32, Dependency)>)
    requires
        slots_unique(edges),
    ensures
        inputs_of(edges).dom().finite(),
        inputs_of(edges).dom().len() == edges.dom().len(),
{
    lemma_used_up_count(edges);
    let f = |e: u32| slot_of(edges[e]);
    assert(injective_on(f, edges.dom()));
    let image = edges.dom().map(f);
    assert forall|k: (u32, u8)| image.contains(k) <==> inputs_of(edges).dom().contains(k) by {
        if image.contains(k) {
            let e = choose|e: u32| edges.dom().contains(e) && k == f(e);
            assert(fills(edges, e, k));
        }
        if inputs_of(edges).dom().contains(k) {
            let e = choose|e: u32| fills(edges, e, k);
            assert(edges.dom().contains(e) && k == f(e));
        }
    }
    assert(image =~= inputs_of(edges).dom());
    lemma_map_size(edges.dom(), inputs_of(edges).dom(), f);
}

/// Where no two edges fill one slot, a node has as many readers as edges
/// leave it.
pub proof fn lemma_reader_count(
    edges: Map<u32, (u32, u32, Dependency)>,
    g: GraphView,
    from: u32,
    outs: Seq<u32>,
)
    requires
        slots_unique(edges),
        g.inputs == inputs_of(edges),
        no_repeats(outs),
        forall|e: u32| outs.contains(e) <==> (edges.contains_key(e) && edges[e].0 == from),
    ensures
        g.readers(from).finite(),
        g.readers(from).len() == outs.len(),
{
    assert(outs.no_duplicates());
    outs.unique_seq_to_set();
    let leaving = outs.to_set();
    let f = |e: u32| slot_of(edges[e]);
    assert(injective_on(f, leaving)) by {
        assert forall|x1: u32, x2: u32|
            leaving.contains(x1) && leaving.contains(x2) && #[trigger] f(x1) == #[trigger] f(
                x2,
            ) implies x1 == x2 by {
            assert(outs.contains(x1) && outs.contains(x2));
        }
    }
    let image = leaving.map(f);
    assert forall|k: (u32, u8)| image.contains(k) <==> g.readers(from).contains(k) by {
        if image.contains(k) {
            let e = choose|e: u32| leaving.contains(e) && k == f(e);
            assert(outs.contains(e));
            crate::graph::lemma_input_of_edge(edges, e);
        }
        if g.readers(from).contains(k) {
            crate::graph::lemma_input_has_edge(edges, k);
            let e = crate::graph::slot_edge(edges, k);
            assert(outs.contains(e));
            assert(leaving.contains(e) && k == f(e));
        }
    }
    assert(image =~= g.readers(from));
    lemma_map_size(leaving, g.readers(from), f);
}

/// A new node adds one node and as many inputs as it has.
pub proof fn lemma_with_op_counts(g: GraphView, id: u32, op: Operator, ins: Seq<InputView>)
    requires
        g.wf(),
        !g.nodes.contains_key(id),
        ins.len() <= 256,
    ensures
        g.with_op(id, op, ins).nodes.dom().len() == g.nodes.dom().len() + 1,
        g.with_op(id, op, ins).inputs.dom().finite(),
        g.with_op(id, op, ins).inputs.dom().len() == g.inputs.dom().len() + ins.len(),
    decreases ins.len(),
{
    lemma_used_up_count(g.nodes);
    lemma_slots_finite(g.inputs.dom());
    let w = g.with_op(id, op, ins);
    assert(w.nodes.dom() =~= g.nodes.dom().insert(id));
    if ins.len() == 0 {
        assert(w.inputs.dom() =~= g.inputs.dom());
    } else {
        let fewer = ins.drop_last();
        let k = (id, (ins.len() - 1) as u8);
        lemma_with_op_counts(g, id, op, fewer);
        if g.inputs.contains_key(k) {
            assert(g.nodes.contains_key(k.0));
        }
        assert(w.inputs.dom() =~= g.with_op(id, op, fewer).inputs.dom().insert(k));
    }
}

/// How many of the two inputs `ins` are taken from node `n`.
pub open spec fn taken_from(ins: Seq<InputView>, n: u32) -> nat {
    let first: nat = if ins[0].src == n {
        1
    } else {
        0
    };
    let second: nat = if ins[1].src == n {
        1
    } else {
        0
    };
    first + second
}

/// A new node with two inputs adds two inputs to the graph, and to the
/// readers of a node as many as it takes from that node.
pub proof fn lemma_grown_counts(g: GraphView, id: u32, op: Operator, ins: Seq<InputView>, n: u32)
    requires
        g.wf(),
        !g.nodes.contains_key(id),
        ins.len() == 2,
    ensures
        g.with_op(id, op, ins).inputs.dom().finite(),
        g.with_op(id, op, ins).inputs.dom().len() == g.inputs.dom().len() + 2,
        g.readers(n).finite(),
        g.with_op(id, op, ins).readers(n).len() == g.readers(n).len() + taken_from(ins, n),
{
    lemma_slots_finite(g.inputs.dom());
    lemma_with_op_counts(g, id, op, ins);
    let w = g.with_op(id, op, ins);
    let k0 = (id, 0u8);
    let k1 = (id, 1u8);
    assert(!g.inputs.contains_key(k0) && !g.inputs.contains_key(k1)) by {
        if g.inputs.contains_key(k0) {
            assert(g.nodes.contains_key(k0.0));
        }
        if g.inputs.contains_key(k1) {
            assert(g.nodes.contains_key(k1.0));
        }
    }
    lemma_len_subset(g.readers(n), g.inputs.dom());
    let with_first = if ins[0].src == n {
        g.readers(n).insert(k0)
    } else {
        g.readers(n)
    };
    let with_both = if ins[1].src == n {
        with_first.insert(k1)
    } else {
        with_first
    };
    assert(w.readers(n) =~= with_both);
}

} // verus!
