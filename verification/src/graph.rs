//! The operator graph: nodes are operators, an edge carries one input of
//! its target with the shape under which the target reads it.

use crate::capacity::{lemma_input_count, lemma_reader_count, lemma_used_up_count};
use crate::hashing::{
    add_id, bind_id, count_ids, drop_id, has_id, lookup_id, new_id_map, new_id_set,
};
use crate::stable_graph::{
    edge_endpoints, edge_ids, edge_weight, empty_graph, graph_edges, graph_nodes, in_range,
    incoming_edges, no_repeats, node_ids, node_weight, outgoing_edges, remove_edge, remove_node,
    replace_node_weight, try_add_edge, try_add_node,
};
use crate::tracker::{Layout, ShapeTracker};
use petgraph::stable_graph::StableGraph;
use rustc_hash::{FxHashMap, FxHashSet};
use vstd::prelude::*;

verus! {

/// Where an operator runs.
#[derive(Debug, Clone, Copy, PartialEq, Eq, Structural)]
pub enum Device {
    Cpu,
    Metal,
    Cuda,
}

/// What an operator computes, as far as a rewrite reads it.
#[derive(Debug, Clone, Copy, PartialEq, Eq, Structural)]
pub enum OpKind {
    /// Element-wise product of two inputs.
    Mul,
    /// Sum along the axis.
    SumReduce(usize),
    /// Product of an `M x K` by a `K x N` matrix.
    Matmul2D,
    /// Product of a batch of `M x K` matrices by a `K x N` matrix.
    BatchMatmul2D,
    /// Product of `A x B x C x D` by `A x B x D x E`.
    AttnMatmul2D,
    /// Any other operator, by a tag of the caller.
    Other(u32),
}

/// An operator node.
#[derive(Debug, Clone, Copy, PartialEq, Eq, Structural)]
pub struct Operator {
    pub device: Device,
    pub kind: OpKind,
}

/// An edge: output `output_order` of the source is input `input_order`
/// of the target, read under `shape`.
#[derive(Debug)]
pub struct Dependency {
    pub input_order: u8,
    pub output_order: u8,
    pub shape: ShapeTracker,
}

impl Clone for Dependency {
    fn clone(&self) -> (r: Self)
        ensures
            r.input_order == self.input_order,
            r.output_order == self.output_order,
            r.shape@ == self.shape@,
    {
        Dependency {
            input_order: self.input_order,
            output_order: self.output_order,
            shape: self.shape.clone(),
        }
    }
}


/// Why a change of the graph was refused.
#[derive(Debug, Clone, Copy, PartialEq, Eq, Structural)]
pub enum GraphError {
    /// A node that the change names is not in the graph.
    NodeMissing,
    /// The graph has no index left for a new node or edge.
    Full,
    /// A new operator has more inputs than an input number can count.
    TooManyInputs,
}

/// The operator graph with the sets that outside holders of node ids rely
/// on.
pub struct Graph {
    pub graph: StableGraph<Operator, Dependency>,
    /// Where a node that a rewrite replaced has gone.
    pub id_remap: FxHashMap<u32, u32>,
    /// The nodes that no rewrite may delete.
    pub no_delete: FxHashSet<u32>,
    /// The nodes whose output must stay available.
    pub to_retrieve: FxHashSet<u32>,
}

/// One input of a node: where it comes from and how it is read.
pub struct InputView {
    pub src: u32,
    pub output_order: u8,
    pub shape: Layout,
}

/// What a graph holds. Input `i` of node `n` is `inputs[(n, i)]`.
pub struct GraphView {
    pub nodes: Map<u32, Operator>,
    pub inputs: Map<(u32, u8), InputView>,
    pub id_remap: Map<u32, u32>,
    pub no_delete: Set<u32>,
    pub to_retrieve: Set<u32>,
}

/// The input slot that an edge fills: its target and its input number.
pub open spec fn slot_of(rec: (u32, u32, Dependency)) -> (u32, u8) {
    (rec.1, rec.2.input_order)
}

/// The input that an edge carries.
pub open spec fn input_view(rec: (u32, u32, Dependency)) -> InputView {
    InputView { src: rec.0, output_order: rec.2.output_order, shape: rec.2.shape@ }
}

/// Whether edge `e` fills the input slot `slot`.
pub open spec fn fills(edges: Map<u32, (u32, u32, Dependency)>, e: u32, slot: (u32, u8)) -> bool {
    edges.contains_key(e) && slot_of(edges[e]) == slot
}

/// An edge that fills `slot`.
pub open spec fn slot_edge(edges: Map<u32, (u32, u32, Dependency)>, slot: (u32, u8)) -> u32 {
    choose|e: u32| fills(edges, e, slot)
}

/// The inputs that the edges carry, by slot.
pub open spec fn inputs_of(edges: Map<u32, (u32, u32, Dependency)>) -> Map<(u32, u8), InputView> {
    Map::new(
        |k: (u32, u8)| exists|e: u32| fills(edges, e, k),
        |k: (u32, u8)| input_view(edges[slot_edge(edges, k)]),
    )
}

/// No two edges fill one slot.
pub open spec fn slots_unique(edges: Map<u32, (u32, u32, Dependency)>) -> bool {
    forall|e1: u32, e2: u32|
        edges.contains_key(e1) && edges.contains_key(e2) && slot_of(edges[e1]) == slot_of(
            edges[e2],
        ) ==> e1 == e2
}

/// Every edge joins two nodes of the graph and carries a well-formed
/// shape.
pub open spec fn edges_sound(
    nodes: Map<u32, Operator>,
    edges: Map<u32, (u32, u32, Dependency)>,
) -> bool {
    forall|e: u32| #[trigger]
        edges.contains_key(e) ==> nodes.contains_key(edges[e].0) && nodes.contains_key(edges[e].1)
            && edges[e].2.shape.wf()
}

/// Whether `after` holds an edge with input number `j` that `before` does
/// not hold.
pub open spec fn has_added_edge(
    after: Map<u32, (u32, u32, Dependency)>,
    before: Map<u32, (u32, u32, Dependency)>,
    j: int,
) -> bool {
    exists|x: u32|
        #![trigger after.contains_key(x)]
        after.contains_key(x) && !before.contains_key(x) && after[x].2.input_order == j
}

impl InputView {
    /// The same input, taken from node `src`.
    pub open spec fn from_node(self, src: u32) -> InputView {
        InputView { src, ..self }
    }
}

impl GraphView {
    /// Every input belongs to a node of the graph, comes from one, and
    /// has a well-formed shape.
    pub open spec fn wf(self) -> bool {
        forall|k: (u32, u8)| #[trigger]
            self.inputs.contains_key(k) ==> self.nodes.contains_key(k.0)
                && self.nodes.contains_key(self.inputs[k].src) && self.inputs[k].shape.wf()
    }

    /// The graph without node `n`, the inputs of `n` and the inputs that
    /// came from `n`.
    pub open spec fn without_node(self, n: u32) -> GraphView {
        GraphView {
            nodes: self.nodes.remove(n),
            inputs: Map::new(
                |k: (u32, u8)|
                    self.inputs.contains_key(k) && k.0 != n && self.inputs[k].src != n,
                |k: (u32, u8)| self.inputs[k],
            ),
            ..self
        }
    }

    /// The graph with a new node `id` whose inputs, in order, are `ins`.
    pub open spec fn with_op(self, id: u32, op: Operator, ins: Seq<InputView>) -> GraphView {
        GraphView {
            nodes: self.nodes.insert(id, op),
            inputs: Map::new(
                |k: (u32, u8)| self.inputs.contains_key(k) || (k.0 == id && k.1 < ins.len()),
                |k: (u32, u8)|
                    if k.0 == id && k.1 < ins.len() {
                        ins[k.1 as int]
                    } else {
                        self.inputs[k]
                    },
            ),
            ..self
        }
    }

    /// The graph in which every input that came from `from` comes from
    /// `to`.
    pub open spec fn reparented(self, from: u32, to: u32) -> GraphView {
        GraphView {
            inputs: Map::new(
                |k: (u32, u8)| self.inputs.contains_key(k),
                |k: (u32, u8)|
                    if self.inputs[k].src == from {
                        self.inputs[k].from_node(to)
                    } else {
                        self.inputs[k]
                    },
            ),
            ..self
        }
    }

    /// The inputs that are taken from node `n`.
    pub open spec fn readers(self, n: u32) -> Set<(u32, u8)> {
        Set::new(|k: (u32, u8)| self.inputs.contains_key(k) && self.inputs[k].src == n)
    }

    /// Whether the graph holds fewer nodes than there are node indices,
    /// so that one more finds an index.
    pub open spec fn node_room(self) -> bool {
        self.nodes.dom().len() < u32::MAX
    }

    /// Whether the graph with `n` more inputs holds no more inputs than
    /// there are edge indices, so that each of them finds an index.
    pub open spec fn input_room(self, n: nat) -> bool {
        self.inputs.dom().len() + n <= u32::MAX
    }

    /// The inputs of `node` numbered below `i`, in order, each as its
    /// source and shape.
    pub open spec fn sources_below(self, node: u32, i: int) -> Seq<(u32, Layout)>
        decreases i,
    {
        if i <= 0 {
            Seq::empty()
        } else {
            let rest = self.sources_below(node, i - 1);
            let k = (node, (i - 1) as u8);
            if self.inputs.contains_key(k) {
                rest.push((self.inputs[k].src, self.inputs[k].shape))
            } else {
                rest
            }
        }
    }

    /// The inputs of `node` in order, each as its source and shape.
    pub open spec fn sources(self, node: u32) -> Seq<(u32, Layout)> {
        self.sources_below(node, 256)
    }
}

/// The edge that fills a slot is the one whose input the view shows there.
pub proof fn lemma_input_of_edge(edges: Map<u32, (u32, u32, Dependency)>, e: u32)
    requires
        slots_unique(edges),
        edges.contains_key(e),
    ensures
        inputs_of(edges).contains_key(slot_of(edges[e])),
        inputs_of(edges)[slot_of(edges[e])] == input_view(edges[e]),
        slot_edge(edges, slot_of(edges[e])) == e,
{
    let slot = slot_of(edges[e]);
    assert(fills(edges, e, slot));
}

/// A slot that the view shows is filled by an edge.
pub proof fn lemma_input_has_edge(edges: Map<u32, (u32, u32, Dependency)>, k: (u32, u8))
    requires
        inputs_of(edges).contains_key(k),
    ensures
        fills(edges, slot_edge(edges, k), k),
        inputs_of(edges)[k] == input_view(edges[slot_edge(edges, k)]),
{
}

impl View for Graph {
    type V = GraphView;

    open spec fn view(&self) -> GraphView {
        GraphView {
            nodes: graph_nodes(self.graph),
            inputs: inputs_of(graph_edges(self.graph)),
            id_remap: self.id_remap@,
            no_delete: self.no_delete@,
            to_retrieve: self.to_retrieve@,
        }
    }
}

/// A new operator with the inputs given so far.
pub struct NewOp {
    pub op: Operator,
    pub inputs: Vec<(u32, u8, ShapeTracker)>,
}

impl NewOp {
    /// The inputs given so far.
    pub open spec fn input_views(self) -> Seq<InputView> {
        Seq::new(
            self.inputs@.len(),
            |i: int|
                InputView {
                    src: self.inputs@[i].0,
                    output_order: self.inputs@[i].1,
                    shape: self.inputs@[i].2@,
                },
        )
    }

    /// Every shape given so far is well formed.
    pub open spec fn wf(self) -> bool {
        forall|i: int| 0 <= i < self.inputs@.len() ==> (#[trigger] self.inputs@[i]).2.wf()
    }

    /// Whether every source given so far is a node of `g`.
    pub open spec fn sources_in(self, g: GraphView) -> bool {
        forall|i: int|
            0 <= i < self.inputs@.len() ==> g.nodes.contains_key((#[trigger] self.inputs@[i]).0)
    }

    /// Adds an input: output `output_order` of node `src`, read under
    /// `shape`.
    pub fn input(self, src: u32, output_order: u8, shape: ShapeTracker) -> (r: NewOp)
        requires
            self.wf(),
            shape.wf(),
        ensures
            r.wf(),
            r.op == self.op,
            r.input_views() == self.input_views().push(
                InputView { src, output_order, shape: shape@ },
            ),
    {
        let mut r = self;
        r.inputs.push((src, output_order, shape));
        assert(r.input_views() =~= self.input_views().push(
            InputView { src, output_order, shape: shape@ },
        ));
        r
    }

    fn sources_present(&self, graph: &Graph) -> (b: bool)
        ensures
            b == self.sources_in(graph@),
    {
        let mut i: usize = 0;
        while i < self.inputs.len()
            invariant
                i <= self.inputs@.len(),
                forall|j: int|
                    0 <= j < i ==> graph@.nodes.contains_key((#[trigger] self.inputs@[j]).0),
            decreases self.inputs@.len() - i,
        {
            if node_weight(&graph.graph, self.inputs[i].0).is_none() {
                return false;
            }
            i += 1;
        }
        true
    }

    /// Puts the operator into the graph and returns its node id. Either
    /// the node and all its inputs are added, or nothing is. It is
    /// refused as `Full` where the graph has no room for one more node
    /// or for the inputs, and only there.
    pub fn finish(self, graph: &mut Graph) -> (r: Result<u32, GraphError>)
        requires
            old(graph).wf(),
            self.wf(),
        ensures
            final(graph).wf(),
            r is Err ==> final(graph)@ == old(graph)@,
            self.inputs@.len() > 256 ==> r == Err::<u32, GraphError>(GraphError::TooManyInputs),
            self.inputs@.len() <= 256 && !self.sources_in(old(graph)@) ==> r == Err::<
                u32,
                GraphError,
            >(GraphError::NodeMissing),
            self.inputs@.len() <= 256 && self.sources_in(old(graph)@) ==> r is Ok || r == Err::<
                u32,
                GraphError,
            >(GraphError::Full),
            r == Err::<u32, GraphError>(GraphError::Full) ==> !old(graph)@.node_room() || !old(
                graph,
            )@.input_room(self.inputs@.len()),
            r is Ok ==> old(graph)@.node_room() && old(graph)@.input_room(self.inputs@.len()),
            r matches Ok(id) ==> !old(graph)@.nodes.contains_key(id) && final(graph)@ == old(
                graph,
            )@.with_op(id, self.op, self.input_views()),
    {
        let n = self.inputs.len();
        if n > 256 {
            return Err(GraphError::TooManyInputs);
        }
        if !self.sources_present(graph) {
            return Err(GraphError::NodeMissing);
        }
        let ghost nodes0 = graph_nodes(graph.graph);
        let ghost edges0 = graph_edges(graph.graph);
        let id = match try_add_node(&mut graph.graph, self.op) {
            Some(id) => id,
            None => {
                proof {
                    assert(graph_nodes(graph.graph) =~= nodes0);
                    lemma_used_up_count(nodes0);
                }
                return Err(GraphError::Full);
            },
        };
        proof {
            lemma_used_up_count(edges0);
        }
        let mut i: usize = 0;
        while i < n
            invariant
                i <= n,
                graph_edges(graph.graph).dom().finite(),
                graph_edges(graph.graph).dom().len() == edges0.dom().len() + i,
                id < u32::MAX,
                in_range(graph_edges(graph.graph)),
                n == self.inputs@.len(),
                n <= 256,
                self.wf(),
                self.sources_in(old(graph)@),
                nodes0 == graph_nodes(old(graph).graph),
                edges0 == graph_edges(old(graph).graph),
                old(graph).wf(),
                !nodes0.contains_key(id),
                graph_nodes(graph.graph) == nodes0.insert(id, self.op),
                graph.id_remap == old(graph).id_remap,
                graph.no_delete == old(graph).no_delete,
                graph.to_retrieve == old(graph).to_retrieve,
                forall|e: u32| edges0.contains_key(e) ==> #[trigger] graph_edges(
                    graph.graph,
                ).contains_key(e) && graph_edges(graph.graph)[e] == edges0[e],
                forall|e: u32| #[trigger]
                    graph_edges(graph.graph).contains_key(e) && !edges0.contains_key(e) ==> {
                        let rec = graph_edges(graph.graph)[e];
                        &&& rec.1 == id
                        &&& rec.2.input_order < i
                        &&& input_view(rec) == self.input_views()[rec.2.input_order as int]
                        &&& rec.2.shape.wf()
                    },
                forall|j: int|
                    0 <= j < i ==> #[trigger] has_added_edge(graph_edges(graph.graph), edges0, j),
                slots_unique(graph_edges(graph.graph)),
            decreases n - i,
        {
            let src = self.inputs[i].0;
            let dep = Dependency {
                input_order: i as u8,
                output_order: self.inputs[i].1,
                shape: self.inputs[i].2.clone(),
            };
            let ghost before = graph_edges(graph.graph);
            assert(self.inputs@[i as int].2.wf());
            assert(nodes0.contains_key(self.inputs@[i as int].0));
            match try_add_edge(&mut graph.graph, src, id, dep) {
                Some(e) => {
                    proof {
                        let after = graph_edges(graph.graph);
                        assert(after.dom() =~= before.dom().insert(e));
                        assert forall|e1: u32, e2: u32|
                            after.contains_key(e1) && after.contains_key(e2) && slot_of(after[e1])
                                == slot_of(after[e2]) implies e1 == e2 by {
                            if e1 == e && e2 != e {
                                assert(before.contains_key(e2));
                                if edges0.contains_key(e2) {
                                    assert(nodes0.contains_key(edges0[e2].1));
                                }
                            } else if e2 == e && e1 != e {
                                assert(before.contains_key(e1));
                                if edges0.contains_key(e1) {
                                    assert(nodes0.contains_key(edges0[e1].1));
                                }
                            } else if e1 != e && e2 != e {
                                assert(before.contains_key(e1) && before.contains_key(e2));
                            }
                        }
                        assert forall|j: int| 0 <= j < i + 1 implies #[trigger] has_added_edge(
                            after,
                            edges0,
                            j,
                        ) by {
                            if j < i {
                                assert(has_added_edge(before, edges0, j));
                                let x = choose|x: u32|
                                    #![trigger before.contains_key(x)]
                                    before.contains_key(x) && !edges0.contains_key(x)
                                        && before[x].2.input_order == j;
                                assert(after.contains_key(x));
                            } else {
                                assert(after.contains_key(e));
                            }
                        }
                    }
                },
                None => {
                    let _ = remove_node(&mut graph.graph, id);
                    proof {
                        lemma_used_up_count(before);
                        lemma_input_count(edges0);
                        assert(graph_nodes(graph.graph) =~= nodes0);
                        assert forall|x: u32| edges0.contains_key(x) implies edges0[x].0 != id
                            && edges0[x].1 != id by {
                            assert(nodes0.contains_key(edges0[x].0));
                        }
                        assert forall|x: u32| #[trigger]
                            before.contains_key(x) && !edges0.contains_key(x) implies before[x].1
                            == id by {}
                        assert(graph_edges(graph.graph) =~= edges0);
                    }
                    return Err(GraphError::Full);
                },
            }
            i += 1;
        }
        proof {
            lemma_used_up_count(nodes0);
            lemma_used_up_count(graph_nodes(graph.graph));
            assert(graph_nodes(graph.graph).dom() =~= nodes0.dom().insert(id));
            lemma_used_up_count(graph_edges(graph.graph));
            lemma_input_count(edges0);
            let edges1 = graph_edges(graph.graph);
            let want = old(graph)@.with_op(id, self.op, self.input_views());
            let got = inputs_of(edges1);
            assert forall|x: u32| edges0.contains_key(x) implies edges0[x].1 != id by {
                assert(nodes0.contains_key(edges0[x].1));
            }
            assert forall|k: (u32, u8)| got.contains_key(k) <==> want.inputs.contains_key(k) by {
                if got.contains_key(k) {
                    let x = slot_edge(edges1, k);
                    lemma_input_has_edge(edges1, k);
                    if edges0.contains_key(x) {
                        assert(fills(edges0, x, k));
                    }
                }
                if want.inputs.contains_key(k) {
                    if inputs_of(edges0).contains_key(k) {
                        let x = slot_edge(edges0, k);
                        lemma_input_has_edge(edges0, k);
                        assert(edges1.contains_key(x));
                        assert(fills(edges1, x, k));
                    } else {
                        let j = k.1 as int;
                        assert(has_added_edge(edges1, edges0, j));
                        let x = choose|x: u32|
                            #![trigger edges1.contains_key(x)]
                            edges1.contains_key(x) && !edges0.contains_key(x)
                                && edges1[x].2.input_order == j;
                        assert(fills(edges1, x, k));
                    }
                }
            }
            assert forall|k: (u32, u8)| got.contains_key(k) implies got[k] == want.inputs[k] by {
                let x = slot_edge(edges1, k);
                lemma_input_has_edge(edges1, k);
                if edges0.contains_key(x) {
                    lemma_input_of_edge(edges0, x);
                }
            }
            assert(got =~= want.inputs);
            assert forall|e: u32| #[trigger] edges1.contains_key(e) implies graph_nodes(
                graph.graph,
            ).contains_key(edges1[e].0) && graph_nodes(graph.graph).contains_key(edges1[e].1)
                && edges1[e].2.shape.wf() by {
                if edges0.contains_key(e) {
                    assert(nodes0.contains_key(edges0[e].0));
                } else {
                    let rec = edges1[e];
                    let j = rec.2.input_order as int;
                    assert(input_view(rec) == self.input_views()[j]);
                    assert(nodes0.contains_key(self.inputs@[j].0));
                }
            }
        }
        Ok(id)
    }
}

impl Graph {
    /// Edges join nodes of the graph, carry well-formed shapes, and no
    /// two of them fill one input slot; no node and no edge stands at
    /// the largest index, which stands for "none".
    pub open spec fn wf(&self) -> bool {
        &&& edges_sound(graph_nodes(self.graph), graph_edges(self.graph))
        &&& slots_unique(graph_edges(self.graph))
        &&& in_range(graph_nodes(self.graph))
        &&& in_range(graph_edges(self.graph))
    }

    /// Tests whether the graph is well formed.
    pub fn is_well_formed(&self) -> (b: bool)
        ensures
            b == self.wf(),
    {
        let ghost nodes = graph_nodes(self.graph);
        let ghost edges = graph_edges(self.graph);
        let all = node_ids(&self.graph);
        let mut a: usize = 0;
        while a < all.len()
            invariant
                a <= all@.len(),
                nodes == graph_nodes(self.graph),
                forall|n: u32| nodes.contains_key(n) <==> all@.contains(n),
                forall|q: int| 0 <= q < a ==> #[trigger] all@[q] < u32::MAX,
            decreases all@.len() - a,
        {
            if all[a] == u32::MAX {
                assert(all@.contains(all@[a as int]));
                return false;
            }
            a += 1;
        }
        assert(in_range(nodes)) by {
            assert forall|n: u32| #[trigger] nodes.contains_key(n) implies n < u32::MAX by {
                let q = choose|q: int| 0 <= q < all@.len() && all@[q] == n;
                assert(all@[q] == n);
            }
        }
        let ids = edge_ids(&self.graph);
        let mut i: usize = 0;
        while i < ids.len()
            invariant
                i <= ids@.len(),
                nodes == graph_nodes(self.graph),
                edges == graph_edges(self.graph),
                in_range(nodes),
                forall|a: int| 0 <= a < i ==> #[trigger] ids@[a] < u32::MAX,
                forall|e: u32| edges.contains_key(e) <==> ids@.contains(e),
                forall|a: int|
                    0 <= a < i ==> nodes.contains_key(edges[#[trigger] ids@[a]].0)
                        && nodes.contains_key(edges[ids@[a]].1) && edges[ids@[a]].2.shape.wf(),
                forall|a: int, b: int|
                    0 <= a < i && 0 <= b < i && slot_of(edges[#[trigger] ids@[a]]) == slot_of(
                        edges[#[trigger] ids@[b]],
                    ) ==> ids@[a] == ids@[b],
            decreases ids@.len() - i,
        {
            let e = ids[i];
            assert(ids@.contains(e));
            if e == u32::MAX {
                return false;
            }
            let (src, dst) = match edge_endpoints(&self.graph, e) {
                Some(p) => p,
                None => {
                    return false;
                },
            };
            let dep = match edge_weight(&self.graph, e) {
                Some(d) => d,
                None => {
                    return false;
                },
            };
            if node_weight(&self.graph, src).is_none() || node_weight(&self.graph, dst).is_none()
                || !dep.shape.is_well_formed() {
                return false;
            }
            let mut j: usize = 0;
            while j < i
                invariant
                    j <= i,
                    i < ids@.len(),
                    e == ids@[i as int],
                    edges == graph_edges(self.graph),
                    edges.contains_key(e),
                    dst == edges[e].1,
                    *dep == edges[e].2,
                    forall|x: u32| edges.contains_key(x) <==> ids@.contains(x),
                    forall|b: int|
                        0 <= b < j && slot_of(edges[#[trigger] ids@[b]]) == slot_of(edges[e])
                            ==> ids@[b] == e,
                decreases i - j,
            {
                let other = ids[j];
                assert(ids@.contains(other));
                if other != e {
                    let same_target = match edge_endpoints(&self.graph, other) {
                        Some(p) => p.1 == dst,
                        None => false,
                    };
                    let same_input = match edge_weight(&self.graph, other) {
                        Some(d) => d.input_order == dep.input_order,
                        None => false,
                    };
                    if same_target && same_input {
                        return false;
                    }
                }
                j += 1;
            }
            i += 1;
        }
        proof {
            assert forall|e: u32| #[trigger] edges.contains_key(e) implies nodes.contains_key(
                edges[e].0,
            ) && nodes.contains_key(edges[e].1) && edges[e].2.shape.wf() by {
                let a = choose|a: int| 0 <= a < ids@.len() && ids@[a] == e;
                assert(ids@[a] == e);
            }
            assert forall|e1: u32, e2: u32|
                edges.contains_key(e1) && edges.contains_key(e2) && slot_of(edges[e1]) == slot_of(
                    edges[e2],
                ) implies e1 == e2 by {
                let a = choose|a: int| 0 <= a < ids@.len() && ids@[a] == e1;
                let b = choose|b: int| 0 <= b < ids@.len() && ids@[b] == e2;
                assert(ids@[a] == e1 && ids@[b] == e2);
            }
            assert forall|e: u32| #[trigger] edges.contains_key(e) implies e < u32::MAX by {
                let a = choose|a: int| 0 <= a < ids@.len() && ids@[a] == e;
                assert(ids@[a] == e);
            }
        }
        true
    }

    /// A graph without nodes.
    pub fn new() -> (g: Graph)
        ensures
            g.wf(),
            g@.nodes.dom() == Set::<u32>::empty(),
            g@.inputs.dom() == Set::<(u32, u8)>::empty(),
            g@.id_remap.dom() == Set::<u32>::empty(),
            g@.no_delete == Set::<u32>::empty(),
            g@.to_retrieve == Set::<u32>::empty(),
    {
        let g = Graph {
            graph: empty_graph(),
            id_remap: new_id_map(),
            no_delete: new_id_set(),
            to_retrieve: new_id_set(),
        };
        assert(g@.inputs.dom() =~= Set::<(u32, u8)>::empty());
        g
    }

    /// Starts a new operator. Nothing enters the graph before
    /// [`NewOp::finish`].
    pub fn add_op(&self, op: Operator) -> (r: NewOp)
        ensures
            r.op == op,
            r.inputs@.len() == 0,
            r.wf(),
    {
        NewOp { op, inputs: Vec::new() }
    }

    /// The operator at node `n`.
    pub fn node_weight(&self, n: u32) -> (r: Option<Operator>)
        ensures
            r == if self@.nodes.contains_key(n) {
                Some(self@.nodes[n])
            } else {
                None
            },
    {
        node_weight(&self.graph, n)
    }

    /// Puts the operator `op` at node `n` and returns the operator that
    /// was there; `None`, and nothing changed, where the graph has no
    /// such node.
    pub fn set_node_weight(&mut self, n: u32, op: Operator) -> (r: Option<Operator>)
        requires
            old(self).wf(),
        ensures
            final(self).wf(),
            r == if old(self)@.nodes.contains_key(n) {
                Some(old(self)@.nodes[n])
            } else {
                None
            },
            final(self)@ == (GraphView {
                nodes: if old(self)@.nodes.contains_key(n) {
                    old(self)@.nodes.insert(n, op)
                } else {
                    old(self)@.nodes
                },
                ..old(self)@
            }),
    {
        replace_node_weight(&mut self.graph, n, op)
    }

    /// The node ids in rising order.
    pub fn node_ids(&self) -> (v: Vec<u32>)
        ensures
            crate::stable_graph::ascending(v@),
            forall|a: u32| self@.nodes.contains_key(a) <==> v@.contains(a),
    {
        node_ids(&self.graph)
    }

    /// Forbids rewrites to delete node `n`.
    pub fn pin(&mut self, n: u32)
        requires
            old(self).wf(),
        ensures
            final(self).wf(),
            final(self)@ == (GraphView { no_delete: old(self)@.no_delete.insert(n), ..old(self)@ }),
    {
        add_id(&mut self.no_delete, n);
    }

    /// Asks that the output of node `n` stays available.
    pub fn retrieve(&mut self, n: u32)
        requires
            old(self).wf(),
        ensures
            final(self).wf(),
            final(self)@ == (GraphView {
                to_retrieve: old(self)@.to_retrieve.insert(n),
                ..old(self)@
            }),
    {
        add_id(&mut self.to_retrieve, n);
    }

    /// Where node `id` has gone: follows the remap from `id`, entry by
    /// entry, for as many steps as the remap has entries.
    pub fn resolve(&self, id: u32) -> (r: u32)
        ensures
            r == followed(self@.id_remap, id, self@.id_remap.len()),
    {
        let steps = count_ids(&self.id_remap);
        let mut at = id;
        let mut left = steps;
        while left > 0
            invariant
                steps == self@.id_remap.len(),
                followed(self@.id_remap, id, steps as nat) == followed(
                    self@.id_remap,
                    at,
                    left as nat,
                ),
            decreases left,
        {
            match lookup_id(&self.id_remap, at) {
                Some(next) => {
                    at = next;
                },
                None => {
                    return at;
                },
            }
            left -= 1;
        }
        at
    }

    /// Whether no rewrite may delete node `n`.
    pub fn is_pinned(&self, n: u32) -> (b: bool)
        ensures
            b == self@.no_delete.contains(n),
    {
        has_id(&self.no_delete, n)
    }

    /// Input `i` of `node`: its source node, the output it takes there,
    /// and the shape it is read under.
    pub fn input(&self, node: u32, i: u8) -> (r: Option<(u32, u8, ShapeTracker)>)
        requires
            self.wf(),
        ensures
            r is Some == self@.inputs.contains_key((node, i)),
            r matches Some(t) ==> self@.inputs[(node, i)] == (InputView {
                src: t.0,
                output_order: t.1,
                shape: t.2@,
            }) && t.2.wf(),
    {
        let ghost edges = graph_edges(self.graph);
        if node_weight(&self.graph, node).is_none() {
            proof {
                if self@.inputs.contains_key((node, i)) {
                    lemma_input_has_edge(edges, (node, i));
                    assert(edges.contains_key(slot_edge(edges, (node, i))));
                }
            }
            return None;
        }
        let ids = incoming_edges(&self.graph, node);
        let mut j: usize = 0;
        while j < ids.len()
            invariant
                j <= ids@.len(),
                edges == graph_edges(self.graph),
                self.wf(),
                forall|e: u32|
                    ids@.contains(e) <==> (edges.contains_key(e) && edges[e].1 == node),
                forall|q: int| 0 <= q < j ==> !fills(edges, #[trigger] ids@[q], (node, i)),
            decreases ids@.len() - j,
        {
            let e = ids[j];
            assert(ids@.contains(e));
            match edge_weight(&self.graph, e) {
                Some(dep) => {
                    if dep.input_order == i {
                        let src = match edge_endpoints(&self.graph, e) {
                            Some(p) => p.0,
                            None => 0,
                        };
                        proof {
                            lemma_input_of_edge(edges, e);
                        }
                        return Some((src, dep.output_order, dep.shape.clone()));
                    }
                },
                None => {},
            }
            j += 1;
        }
        proof {
            if self@.inputs.contains_key((node, i)) {
                lemma_input_has_edge(edges, (node, i));
                let e = slot_edge(edges, (node, i));
                assert(ids@.contains(e));
                let q = choose|q: int| 0 <= q < ids@.len() && ids@[q] == e;
                assert(!fills(edges, ids@[q], (node, i)));
            }
        }
        None
    }

    /// The inputs of `node` in order, each as its source and shape.
    pub fn get_sources(&self, node: u32) -> (v: Vec<(u32, ShapeTracker)>)
        requires
            self.wf(),
        ensures
            v@.len() == self@.sources(node).len(),
            forall|j: int|
                0 <= j < v@.len() ==> (#[trigger] v@[j]).0 == self@.sources(node)[j].0 && v@[j].1@
                    == self@.sources(node)[j].1 && v@[j].1.wf(),
    {
        let mut v: Vec<(u32, ShapeTracker)> = Vec::new();
        let mut i: usize = 0;
        while i < 256
            invariant
                i <= 256,
                self.wf(),
                v@.len() == self@.sources_below(node, i as int).len(),
                forall|j: int|
                    0 <= j < v@.len() ==> (#[trigger] v@[j]).0 == self@.sources_below(
                        node,
                        i as int,
                    )[j].0 && v@[j].1@ == self@.sources_below(node, i as int)[j].1
                        && v@[j].1.wf(),
            decreases 256 - i,
        {
            match self.input(node, i as u8) {
                Some(t) => {
                    v.push((t.0, t.2));
                },
                None => {},
            }
            i += 1;
        }
        v
    }

    /// Removes node `n`, its inputs, and the inputs that other nodes
    /// took from it.
    pub fn remove_node(&mut self, n: u32)
        requires
            old(self).wf(),
        ensures
            final(self).wf(),
            final(self)@ == old(self)@.without_node(n),
    {
        let ghost nodes0 = graph_nodes(self.graph);
        let ghost edges0 = graph_edges(self.graph);
        let _ = remove_node(&mut self.graph, n);
        proof {
            let edges1 = graph_edges(self.graph);
            let want = old(self)@.without_node(n);
            if !nodes0.contains_key(n) {
                assert(nodes0.remove(n) =~= nodes0);
                assert forall|e: u32| edges0.contains_key(e) implies edges0[e].0 != n
                    && edges0[e].1 != n by {
                    assert(nodes0.contains_key(edges0[e].0));
                }
            }
            assert forall|e: u32| edges1.contains_key(e) <==> (edges0.contains_key(e)
                && edges0[e].0 != n && edges0[e].1 != n) by {}
            assert forall|e: u32| edges1.contains_key(e) implies edges1[e] == edges0[e] by {}
            lemma_filtered_view(edges0, edges1, n);
            assert(inputs_of(edges1) =~= want.inputs);
        }
    }
}

/// The view of the edges that do not touch `n` is the view without the
/// inputs of `n` and from `n`.
proof fn lemma_filtered_view(
    edges0: Map<u32, (u32, u32, Dependency)>,
    edges1: Map<u32, (u32, u32, Dependency)>,
    n: u32,
)
    requires
        slots_unique(edges0),
        forall|e: u32|
            edges1.contains_key(e) <==> (edges0.contains_key(e) && edges0[e].0 != n && edges0[e].1
                != n),
        forall|e: u32| edges1.contains_key(e) ==> edges1[e] == edges0[e],
    ensures
        slots_unique(edges1),
        forall|k: (u32, u8)|
            inputs_of(edges1).contains_key(k) <==> (inputs_of(edges0).contains_key(k) && k.0 != n
                && inputs_of(edges0)[k].src != n),
        forall|k: (u32, u8)|
            inputs_of(edges1).contains_key(k) ==> inputs_of(edges1)[k] == inputs_of(edges0)[k],
{
    assert forall|k: (u32, u8)|
        inputs_of(edges1).contains_key(k) <==> (inputs_of(edges0).contains_key(k) && k.0 != n
            && inputs_of(edges0)[k].src != n) by {
        if inputs_of(edges1).contains_key(k) {
            lemma_input_has_edge(edges1, k);
            let e = slot_edge(edges1, k);
            assert(fills(edges0, e, k));
            lemma_input_of_edge(edges0, e);
        }
        if inputs_of(edges0).contains_key(k) && k.0 != n && inputs_of(edges0)[k].src != n {
            lemma_input_has_edge(edges0, k);
            let e = slot_edge(edges0, k);
            assert(fills(edges1, e, k));
        }
    }
    assert forall|k: (u32, u8)| inputs_of(edges1).contains_key(k) implies inputs_of(edges1)[k]
        == inputs_of(edges0)[k] by {
        lemma_input_has_edge(edges1, k);
        let e = slot_edge(edges1, k);
        assert(fills(edges0, e, k));
        lemma_input_of_edge(edges0, e);
    }
}

/// A well-formed graph has a well-formed view.
pub proof fn lemma_view_wf(g: &Graph)
    requires
        g.wf(),
    ensures
        g@.wf(),
{
    let edges = graph_edges(g.graph);
    assert forall|k: (u32, u8)| #[trigger] g@.inputs.contains_key(k) implies g@.nodes.contains_key(
        k.0,
    ) && g@.nodes.contains_key(g@.inputs[k].src) && g@.inputs[k].shape.wf() by {
        lemma_input_has_edge(edges, k);
        assert(edges.contains_key(slot_edge(edges, k)));
    }
}

/// Records that node `old_id` has become node `new_id`: the remap gets
/// the entry, and a pin or a retrieval mark moves along.
pub fn move_references(
    id_remap: &mut FxHashMap<u32, u32>,
    no_delete: &mut FxHashSet<u32>,
    to_retrieve: &mut FxHashSet<u32>,
    old_id: u32,
    new_id: u32,
)
    ensures
        final(id_remap)@ == old(id_remap)@.insert(old_id, new_id),
        final(no_delete)@ == moved_mark(old(no_delete)@, old_id, new_id),
        final(to_retrieve)@ == moved_mark(old(to_retrieve)@, old_id, new_id),
{
    bind_id(id_remap, old_id, new_id);
    if drop_id(no_delete, old_id) {
        add_id(no_delete, new_id);
    } else {
        assert(no_delete@ =~= old(no_delete)@);
    }
    if drop_id(to_retrieve, old_id) {
        add_id(to_retrieve, new_id);
    } else {
        assert(to_retrieve@ =~= old(to_retrieve)@);
    }
}

/// The node reached from `id` by following the remap for at most
/// `steps` entries.
pub open spec fn followed(remap: Map<u32, u32>, id: u32, steps: nat) -> u32
    decreases steps,
{
    if steps == 0 || !remap.contains_key(id) {
        id
    } else {
        followed(remap, remap[id], (steps - 1) as nat)
    }
}

/// The set in which a mark on `old_id`, if there is one, has moved to
/// `new_id`.
pub open spec fn moved_mark(marks: Set<u32>, old_id: u32, new_id: u32) -> Set<u32> {
    if marks.contains(old_id) {
        marks.remove(old_id).insert(new_id)
    } else {
        marks
    }
}


/// Whether `rec` is the edge `old_rec` taken over by node `to`: the same
/// target, input number, output number and shape.
pub open spec fn takes_over(
    rec: (u32, u32, Dependency),
    old_rec: (u32, u32, Dependency),
    to: u32,
) -> bool {
    &&& rec.0 == to
    &&& rec.1 == old_rec.1
    &&& rec.2.input_order == old_rec.2.input_order
    &&& rec.2.output_order == old_rec.2.output_order
    &&& rec.2.shape@ == old_rec.2.shape@
}

/// Makes every input that is taken from node `from` come from node `to`.
/// Either all of them move, or nothing changes. Each input is handed
/// over before the old one leaves, so the move to another node is
/// refused as `Full` where the graph has no room for as many inputs
/// again as `from` has readers, and only there.
pub fn move_outgoing_edge(from: u32, to: u32, graph: &mut Graph) -> (r: Result<(), GraphError>)
    requires
        old(graph).wf(),
    ensures
        final(graph).wf(),
        r is Err ==> final(graph)@ == old(graph)@,
        !old(graph)@.nodes.contains_key(from) || !old(graph)@.nodes.contains_key(to) ==> r
            == Err::<(), GraphError>(GraphError::NodeMissing),
        old(graph)@.nodes.contains_key(from) && old(graph)@.nodes.contains_key(to) ==> r is Ok
            || r == Err::<(), GraphError>(GraphError::Full),
        r == Err::<(), GraphError>(GraphError::Full) ==> !old(graph)@.input_room(
            old(graph)@.readers(from).len(),
        ),
        r is Ok && from != to ==> old(graph)@.input_room(old(graph)@.readers(from).len()),
        r is Ok ==> final(graph)@ == old(graph)@.reparented(from, to),
{
    if node_weight(&graph.graph, from).is_none() || node_weight(&graph.graph, to).is_none() {
        return Err(GraphError::NodeMissing);
    }
    if from == to {
        assert(old(graph)@.reparented(from, to).inputs =~= old(graph)@.inputs);
        return Ok(());
    }
    let ghost nodes0 = graph_nodes(graph.graph);
    let ghost edges0 = graph_edges(graph.graph);
    let outs = outgoing_edges(&graph.graph, from);
    proof {
        lemma_used_up_count(edges0);
        lemma_input_count(edges0);
        lemma_reader_count(edges0, graph@, from, outs@);
    }
    let mut added: Vec<u32> = Vec::new();
    let mut i: usize = 0;
    while i < outs.len()
        invariant
            i <= outs@.len(),
            outs@.len() == old(graph)@.readers(from).len(),
            old(graph)@.inputs.dom().len() == edges0.dom().len(),
            graph_edges(graph.graph).dom().finite(),
            graph_edges(graph.graph).dom().len() == edges0.dom().len() + i,
            in_range(graph_edges(graph.graph)),
            from != to,
            nodes0 == graph_nodes(old(graph).graph),
            edges0 == graph_edges(old(graph).graph),
            old(graph).wf(),
            nodes0.contains_key(to),
            graph_nodes(graph.graph) == nodes0,
            graph.id_remap == old(graph).id_remap,
            graph.no_delete == old(graph).no_delete,
            graph.to_retrieve == old(graph).to_retrieve,
            forall|e: u32| outs@.contains(e) <==> (edges0.contains_key(e) && edges0[e].0 == from),
            added@.len() == i,
            forall|e: u32| edges0.contains_key(e) ==> #[trigger] graph_edges(
                graph.graph,
            ).contains_key(e) && graph_edges(graph.graph)[e] == edges0[e],
            forall|e: u32| #[trigger]
                graph_edges(graph.graph).contains_key(e) ==> edges0.contains_key(e)
                    || added@.contains(e),
            forall|q: int|
                0 <= q < i ==> graph_edges(graph.graph).contains_key(#[trigger] added@[q])
                    && !edges0.contains_key(added@[q]) && takes_over(
                    graph_edges(graph.graph)[added@[q]],
                    edges0[outs@[q]],
                    to,
                ),
        decreases outs@.len() - i,
    {
        let e = outs[i];
        assert(outs@.contains(e));
        let target = match edge_endpoints(&graph.graph, e) {
            Some(p) => p.1,
            None => to,
        };
        let dep = match edge_weight(&graph.graph, e) {
            Some(d) => d.clone(),
            None => {
                return Err(GraphError::Full);
            },
        };
        assert(nodes0.contains_key(edges0[e].1));
        let ghost before = graph_edges(graph.graph);
        let ghost added_before = added@;
        match try_add_edge(&mut graph.graph, to, target, dep) {
            Some(ne) => {
                added.push(ne);
                proof {
                    let after = graph_edges(graph.graph);
                    assert(after.dom() =~= before.dom().insert(ne));
                    assert forall|x: u32| #[trigger] after.contains_key(x) implies edges0.contains_key(
                        x,
                    ) || added@.contains(x) by {
                        if x == ne {
                            assert(added@[i as int] == ne);
                        } else {
                            assert(before.contains_key(x));
                            if !edges0.contains_key(x) {
                                let q = choose|q: int|
                                    0 <= q < i && added_before[q] == x;
                                assert(added@[q] == x);
                            }
                        }
                    }
                    assert forall|q: int| 0 <= q < i + 1 implies after.contains_key(
                        #[trigger] added@[q],
                    ) && !edges0.contains_key(added@[q]) && takes_over(
                        after[added@[q]],
                        edges0[outs@[q]],
                        to,
                    ) by {
                        if q < i {
                            assert(added@[q] == added_before[q]);
                            assert(before.contains_key(added@[q]));
                        }
                    }
                }
            },
            None => {
                proof {
                    lemma_used_up_count(before);
                }
                undo_added(graph, &added, Ghost(edges0));
                return Err(GraphError::Full);
            },
        }
        i += 1;
    }
    let ghost edges1 = graph_edges(graph.graph);
    proof {
        lemma_used_up_count(edges1);
    }
    let mut j: usize = 0;
    while j < outs.len()
        invariant
            j <= outs@.len(),
            in_range(edges1),
            old(graph)@.input_room(old(graph)@.readers(from).len()),
            graph_nodes(graph.graph) == nodes0,
            graph.id_remap == old(graph).id_remap,
            graph.no_delete == old(graph).no_delete,
            graph.to_retrieve == old(graph).to_retrieve,
            forall|e: u32|
                #![trigger graph_edges(graph.graph).contains_key(e)]
                graph_edges(graph.graph).contains_key(e) <==> (edges1.contains_key(e)
                    && !outs@.take(j as int).contains(e)),
            forall|e: u32| #[trigger]
                graph_edges(graph.graph).contains_key(e) ==> graph_edges(graph.graph)[e]
                    == edges1[e],
        decreases outs@.len() - j,
    {
        let ghost before = graph_edges(graph.graph);
        remove_edge(&mut graph.graph, outs[j]);
        proof {
            let after = graph_edges(graph.graph);
            let done = outs@.take(j as int);
            let next = outs@.take(j as int + 1);
            assert(next =~= done.push(outs@[j as int]));
            assert forall|e: u32| #![trigger after.contains_key(e)]
                after.contains_key(e) <==> (edges1.contains_key(e) && !next.contains(e)) by {
                if e == outs@[j as int] {
                    assert(next[j as int] == e);
                } else {
                    if next.contains(e) {
                        let q = choose|q: int| 0 <= q < next.len() && next[q] == e;
                        assert(done[q] == e);
                    }
                    if done.contains(e) {
                        let q = choose|q: int| 0 <= q < done.len() && done[q] == e;
                        assert(next[q] == e);
                    }
                }
            }
        }
        j += 1;
    }
    proof {
        assert(outs@.take(outs@.len() as int) =~= outs@);
        let edges2 = graph_edges(graph.graph);
        assert forall|e: u32| #![trigger edges2.contains_key(e)]
            edges2.contains_key(e) <==> (edges1.contains_key(e) && !outs@.contains(e)) by {}
        assert(handed_over(edges0, edges1, edges2, outs@, added@, from, to));
        lemma_reparented_view(edges0, edges1, edges2, outs@, added@, from, to);
        let want = old(graph)@.reparented(from, to);
        assert(inputs_of(edges2) =~= want.inputs);
        assert forall|e: u32| #[trigger] edges2.contains_key(e) implies nodes0.contains_key(
            edges2[e].0,
        ) && nodes0.contains_key(edges2[e].1) && edges2[e].2.shape.wf() by {
            assert(edges1.contains_key(e));
            if edges0.contains_key(e) {
                assert(nodes0.contains_key(edges0[e].0));
            } else {
                let q = choose|q: int| 0 <= q < added@.len() && added@[q] == e;
                assert(added@[q] == e);
                assert(outs@.contains(outs@[q]));
                assert(nodes0.contains_key(edges0[outs@[q]].1));
            }
        }
    }
    Ok(())
}

/// How the edges stand once node `to` has taken over the edges `outs` of
/// node `from`: `edges1` holds the old edges and the copies `added`,
/// `edges2` is `edges1` without `outs`.
pub open spec fn handed_over(
    edges0: Map<u32, (u32, u32, Dependency)>,
    edges1: Map<u32, (u32, u32, Dependency)>,
    edges2: Map<u32, (u32, u32, Dependency)>,
    outs: Seq<u32>,
    added: Seq<u32>,
    from: u32,
    to: u32,
) -> bool {
    &&& from != to
    &&& added.len() == outs.len()
    &&& forall|e: u32|
        #![trigger outs.contains(e)]
        outs.contains(e) <==> (edges0.contains_key(e) && edges0[e].0 == from)
    &&& forall|e: u32|
        edges0.contains_key(e) ==> #[trigger] edges1.contains_key(e) && edges1[e] == edges0[e]
    &&& forall|e: u32| #[trigger]
        edges1.contains_key(e) ==> edges0.contains_key(e) || added.contains(e)
    &&& forall|q: int|
        0 <= q < added.len() ==> edges1.contains_key(#[trigger] added[q]) && !edges0.contains_key(
            added[q],
        ) && takes_over(edges1[added[q]], edges0[outs[q]], to)
    &&& forall|e: u32|
        #![trigger edges2.contains_key(e)]
        edges2.contains_key(e) <==> (edges1.contains_key(e) && !outs.contains(e))
    &&& forall|e: u32| #[trigger] edges2.contains_key(e) ==> edges2[e] == edges1[e]
}

/// Takes the edges `added` out of the graph again.
fn undo_added(
    graph: &mut Graph,
    added: &Vec<u32>,
    Ghost(edges0): Ghost<Map<u32, (u32, u32, Dependency)>>,
)
    requires
        forall|e: u32| edges0.contains_key(e) ==> #[trigger] graph_edges(
            old(graph).graph,
        ).contains_key(e) && graph_edges(old(graph).graph)[e] == edges0[e],
        forall|e: u32| #[trigger]
            graph_edges(old(graph).graph).contains_key(e) ==> edges0.contains_key(e)
                || added@.contains(e),
        forall|q: int| 0 <= q < added@.len() ==> !edges0.contains_key(#[trigger] added@[q]),
    ensures
        graph_nodes(final(graph).graph) == graph_nodes(old(graph).graph),
        graph_edges(final(graph).graph) == edges0,
        final(graph).id_remap == old(graph).id_remap,
        final(graph).no_delete == old(graph).no_delete,
        final(graph).to_retrieve == old(graph).to_retrieve,
{
    let mut k: usize = 0;
    while k < added.len()
        invariant
            k <= added@.len(),
            graph_nodes(graph.graph) == graph_nodes(old(graph).graph),
            graph.id_remap == old(graph).id_remap,
            graph.no_delete == old(graph).no_delete,
            graph.to_retrieve == old(graph).to_retrieve,
            forall|q: int| 0 <= q < added@.len() ==> !edges0.contains_key(#[trigger] added@[q]),
            forall|e: u32| edges0.contains_key(e) ==> #[trigger] graph_edges(
                graph.graph,
            ).contains_key(e) && graph_edges(graph.graph)[e] == edges0[e],
            forall|e: u32| #[trigger]
                graph_edges(graph.graph).contains_key(e) ==> edges0.contains_key(e) || (exists|
                    q: int,
                | k <= q < added@.len() && added@[q] == e),
        decreases added@.len() - k,
    {
        let ghost before = graph_edges(graph.graph);
        remove_edge(&mut graph.graph, added[k]);
        proof {
            let after = graph_edges(graph.graph);
            assert forall|e: u32| edges0.contains_key(e) implies #[trigger] after.contains_key(e)
                && after[e] == edges0[e] by {
                assert(before.contains_key(e));
            }
            assert forall|e: u32| #[trigger] after.contains_key(e) implies edges0.contains_key(e)
                || (exists|q: int| k + 1 <= q < added@.len() && added@[q] == e) by {
                assert(before.contains_key(e));
                if !edges0.contains_key(e) {
                    let q = choose|q: int| k <= q < added@.len() && added@[q] == e;
                    assert(q != k);
                }
            }
        }
        k += 1;
    }
    assert(graph_edges(graph.graph) =~= edges0);
}

/// What the view shows once the edges out of `from` are replaced by
/// edges out of `to`.
proof fn lemma_reparented_view(
    edges0: Map<u32, (u32, u32, Dependency)>,
    edges1: Map<u32, (u32, u32, Dependency)>,
    edges2: Map<u32, (u32, u32, Dependency)>,
    outs: Seq<u32>,
    added: Seq<u32>,
    from: u32,
    to: u32,
)
    requires
        slots_unique(edges0),
        no_repeats(outs),
        handed_over(edges0, edges1, edges2, outs, added, from, to),
    ensures
        slots_unique(edges2),
        forall|k: (u32, u8)| inputs_of(edges2).contains_key(k) <==> inputs_of(edges0).contains_key(k),
        forall|k: (u32, u8)|
            inputs_of(edges0).contains_key(k) ==> inputs_of(edges2)[k] == if inputs_of(
                edges0,
            )[k].src == from {
                inputs_of(edges0)[k].from_node(to)
            } else {
                inputs_of(edges0)[k]
            },
{
    assert forall|e1: u32, e2: u32|
        edges2.contains_key(e1) && edges2.contains_key(e2) && slot_of(edges2[e1]) == slot_of(
            edges2[e2],
        ) implies e1 == e2 by {
        lemma_origin(edges0, edges1, edges2, outs, added, from, to, e1);
        lemma_origin(edges0, edges1, edges2, outs, added, from, to, e2);
        let o1 = origin(edges0, outs, added, e1);
        let o2 = origin(edges0, outs, added, e2);
        assert(o1 == o2);
        if !edges0.contains_key(e1) && !edges0.contains_key(e2) {
            assert(added.contains(e1) && added.contains(e2));
            let q1 = place_of(added, e1);
            let q2 = place_of(added, e2);
            if q1 < q2 {
                assert(outs[q1] != outs[q2]);
            } else if q2 < q1 {
                assert(outs[q2] != outs[q1]);
            }
        }
    }
    assert forall|k: (u32, u8)| inputs_of(edges2).contains_key(k) <==> inputs_of(
        edges0,
    ).contains_key(k) by {
        if inputs_of(edges2).contains_key(k) {
            lemma_input_has_edge(edges2, k);
            let e = slot_edge(edges2, k);
            lemma_origin(edges0, edges1, edges2, outs, added, from, to, e);
            assert(fills(edges0, origin(edges0, outs, added, e), k));
        }
        if inputs_of(edges0).contains_key(k) {
            lemma_input_has_edge(edges0, k);
            let o = slot_edge(edges0, k);
            if edges0[o].0 == from {
                assert(outs.contains(o));
                let q = choose|q: int| 0 <= q < outs.len() && outs[q] == o;
                let e = added[q];
                assert(edges1.contains_key(e));
                assert(!outs.contains(e));
                assert(edges2.contains_key(e));
                assert(slot_of(edges2[e]) == k);
                assert(fills(edges2, e, k));
            } else {
                assert(edges1.contains_key(o));
                assert(!outs.contains(o));
                assert(edges2.contains_key(o));
                assert(slot_of(edges2[o]) == k);
                assert(fills(edges2, o, k));
            }
        }
    }
    assert forall|k: (u32, u8)| inputs_of(edges0).contains_key(k) implies inputs_of(edges2)[k]
        == if inputs_of(edges0)[k].src == from {
        inputs_of(edges0)[k].from_node(to)
    } else {
        inputs_of(edges0)[k]
    } by {
        lemma_input_has_edge(edges2, k);
        let e = slot_edge(edges2, k);
        lemma_origin(edges0, edges1, edges2, outs, added, from, to, e);
        let o = origin(edges0, outs, added, e);
        lemma_input_of_edge(edges0, o);
    }
}

/// The edge of the old graph that an edge of the new graph stands for:
/// itself, or the edge it took over.
pub open spec fn origin(
    edges0: Map<u32, (u32, u32, Dependency)>,
    outs: Seq<u32>,
    added: Seq<u32>,
    e: u32,
) -> u32 {
    if edges0.contains_key(e) {
        e
    } else {
        outs[place_of(added, e)]
    }
}

/// A place where `v` holds `e`.
pub open spec fn place_of(v: Seq<u32>, e: u32) -> int {
    choose|q: int| 0 <= q < v.len() && v[q] == e
}

proof fn lemma_origin(
    edges0: Map<u32, (u32, u32, Dependency)>,
    edges1: Map<u32, (u32, u32, Dependency)>,
    edges2: Map<u32, (u32, u32, Dependency)>,
    outs: Seq<u32>,
    added: Seq<u32>,
    from: u32,
    to: u32,
    e: u32,
)
    requires
        handed_over(edges0, edges1, edges2, outs, added, from, to),
        edges2.contains_key(e),
    ensures
        ({
            let o = origin(edges0, outs, added, e);
            &&& edges0.contains_key(o)
            &&& slot_of(edges0[o]) == slot_of(edges2[e])
            &&& edges0.contains_key(e) ==> edges0[e].0 != from
            &&& input_view(edges2[e]) == if edges0[o].0 == from {
                input_view(edges0[o]).from_node(to)
            } else {
                input_view(edges0[o])
            }
        }),
{
    assert(edges1.contains_key(e));
    if edges0.contains_key(e) {
        assert(!outs.contains(e));
    } else {
        assert(added.contains(e));
        let q = place_of(added, e);
        assert(added[q] == e);
        let o = outs[q];
        assert(origin(edges0, outs, added, e) == o);
        assert(outs.contains(o));
        assert(edges0.contains_key(o) && edges0[o].0 == from);
        assert(takes_over(edges1[added[q]], edges0[o], to));
    }
}

} // verus!
