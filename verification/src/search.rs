//! Selectors: patterns of several nodes, and the search for the places
//! where they match.
//!
//! The vertices of a selector are node patterns, numbered as they are
//! added. An edge says that one vertex feeds an input of another. The
//! vertex that feeds nothing is the root; a match places the root on a
//! node of the graph, and every other vertex on the node that the graph
//! has in the place the edges say. Because an input has one source, the
//! place of the root decides the whole match.

use crate::graph::{Graph, GraphView};
use crate::selector::{dim_rows, input_shapes, lists_nodes, names_agree, names_match, shape_lists, EdgePattern, Pattern, PatternMalformed, SelectOp};
use crate::symbolic::Expression;
use vstd::prelude::*;

verus! {

/// A pattern of several nodes.
pub struct GraphSelector {
    /// The node patterns.
    pub ops: Vec<SelectOp>,
    /// For each vertex, the vertex it feeds and the input it feeds
    /// there; `None` for a vertex that feeds nothing.
    pub parents: Vec<Option<(usize, u8)>>,
}

/// What a selector asks for.
pub struct SelectorView {
    pub ops: Seq<Pattern>,
    pub parents: Seq<Option<(usize, u8)>>,
}

impl View for GraphSelector {
    type V = SelectorView;

    open spec fn view(&self) -> SelectorView {
        SelectorView {
            ops: Seq::new(self.ops@.len(), |v: int| self.ops@[v]@),
            parents: self.parents@,
        }
    }
}

/// The rows of a list of matches.
pub open spec fn id_rows(v: Seq<Vec<u32>>) -> Seq<Seq<u32>> {
    Seq::new(v.len(), |i: int| v[i]@)
}

/// Whether the match `m` shares a node with one of the matches `found`.
pub open spec fn touches(found: Seq<Seq<u32>>, m: Seq<u32>) -> bool {
    exists|i: int, a: int, b: int|
        0 <= i < found.len() && 0 <= a < found[i].len() && 0 <= b < m.len() && (
        #[trigger] found[i][a]) == #[trigger] m[b]
}

impl SelectorView {
    /// The first vertex from `k` on that feeds nothing.
    pub open spec fn first_free(self, k: int) -> Option<int>
        decreases self.parents.len() - k,
    {
        if k >= self.parents.len() {
            None
        } else if self.parents[k] is None {
            Some(k)
        } else {
            self.first_free(k + 1)
        }
    }

    /// The root: the first vertex that feeds nothing.
    pub open spec fn root(self) -> Option<int> {
        self.first_free(0)
    }

    /// The node of vertex `v` when the root stands on `anchor`, as far as
    /// `steps` edges lead from `v` to the root.
    pub open spec fn node_of(self, g: GraphView, anchor: u32, v: int, steps: nat) -> Option<u32>
        decreases steps,
    {
        if !(0 <= v < self.parents.len()) {
            None
        } else if self.root() == Some(v) {
            Some(anchor)
        } else if steps == 0 {
            None
        } else {
            match self.parents[v] {
                Some((p, i)) => match self.node_of(g, anchor, p as int, (steps - 1) as nat) {
                    Some(above) => if g.inputs.contains_key((above, i)) {
                        Some(g.inputs[(above, i)].src)
                    } else {
                        None
                    },
                    None => None,
                },
                None => None,
            }
        }
    }

    /// The node of vertex `v` when the root stands on `anchor`.
    pub open spec fn node(self, g: GraphView, anchor: u32, v: int) -> Option<u32> {
        self.node_of(g, anchor, v, self.parents.len())
    }

    /// Whether vertex `v` has a node that fits its pattern.
    pub open spec fn vertex_fits(self, g: GraphView, anchor: u32, v: int) -> bool {
        self.node(g, anchor, v) matches Some(n) && self.ops[v].fits(g, n)
    }

    /// Whether the names that the shape patterns of the vertices `u` and
    /// `v` share stand for the same sizes.
    pub open spec fn pair_agrees(self, g: GraphView, anchor: u32, u: int, v: int) -> bool {
        names_agree(
            self.ops[u].shapes,
            input_shapes(g, self.node(g, anchor, u)->Some_0),
            self.ops[v].shapes,
            input_shapes(g, self.node(g, anchor, v)->Some_0),
        )
    }

    /// Whether the selector matches with its root on `anchor`: every
    /// vertex has a node that fits its pattern, and a name stands for one
    /// size in all shape patterns.
    pub open spec fn matches_at(self, g: GraphView, anchor: u32) -> bool {
        &&& self.ops.len() == self.parents.len()
        &&& self.ops.len() > 0
        &&& forall|v: int| 0 <= v < self.ops.len() ==> #[trigger] self.vertex_fits(g, anchor, v)
        &&& forall|u: int, v: int|
            0 <= u < v < self.ops.len() ==> #[trigger] self.pair_agrees(g, anchor, u, v)
    }

    /// The match with the root on `anchor`, where there is one: the node
    /// of each vertex.
    pub open spec fn match_at(self, g: GraphView, anchor: u32) -> Option<Seq<u32>> {
        if self.matches_at(g, anchor) {
            Some(Seq::new(self.ops.len(), |v: int| self.node(g, anchor, v)->Some_0))
        } else {
            None
        }
    }

    /// The matches that a walk over the nodes `ids` claims: a match is
    /// claimed unless one claimed before shares a node with it.
    pub open spec fn claimed(self, g: GraphView, ids: Seq<u32>) -> Seq<Seq<u32>>
        decreases ids.len(),
    {
        if ids.len() == 0 {
            Seq::empty()
        } else {
            let before = self.claimed(g, ids.drop_last());
            match self.match_at(g, ids.last()) {
                Some(m) => if touches(before, m) {
                    before
                } else {
                    before.push(m)
                },
                None => before,
            }
        }
    }

    /// All matches with the root on one of the nodes `ids`, in this
    /// order.
    pub open spec fn all_matches(self, g: GraphView, ids: Seq<u32>) -> Seq<Seq<u32>>
        decreases ids.len(),
    {
        if ids.len() == 0 {
            Seq::empty()
        } else {
            let before = self.all_matches(g, ids.drop_last());
            match self.match_at(g, ids.last()) {
                Some(m) => before.push(m),
                None => before,
            }
        }
    }

    /// Whether `steps` edges lead from vertex `v` to the root.
    pub open spec fn reaches_root(self, v: int, steps: nat) -> bool
        decreases steps,
    {
        if !(0 <= v < self.parents.len()) {
            false
        } else if self.root() == Some(v) {
            true
        } else if steps == 0 {
            false
        } else {
            match self.parents[v] {
                Some((p, _)) => self.reaches_root(p as int, (steps - 1) as nat),
                None => false,
            }
        }
    }

    /// Whether the selector is a tree of well-formed node patterns:
    /// it has a vertex, and edges lead from every vertex to the root.
    pub open spec fn is_well_formed(self) -> bool {
        &&& self.ops.len() == self.parents.len()
        &&& self.ops.len() > 0
        &&& forall|v: int| 0 <= v < self.ops.len() ==> (#[trigger] self.ops[v]).is_well_formed()
        &&& forall|v: int|
            0 <= v < self.ops.len() ==> #[trigger] self.reaches_root(v, self.parents.len())
    }
}

impl EdgePattern {
    /// The pattern as a selector of two vertices: the source, and the sink
    /// as the root.
    pub open spec fn as_selector(self) -> SelectorView {
        SelectorView {
            ops: seq![self.source, self.sink],
            parents: seq![Some((1usize, self.input)), None],
        }
    }
}

/// A selector of two vertices matches where the edge pattern matches, and
/// the match is source and sink.
pub proof fn lemma_edge_selector(e: EdgePattern, g: GraphView, anchor: u32)
    ensures
        e.as_selector().match_at(g, anchor) == match e.match_at(g, anchor) {
            Some(m) => Some(seq![m.source, m.sink]),
            None => None,
        },
{
    let s = e.as_selector();
    reveal_with_fuel(SelectorView::first_free, 3);
    reveal_with_fuel(SelectorView::node_of, 3);
    assert(s.root() == Some(1int));
    assert(s.node(g, anchor, 1) == Some(anchor));
    if g.inputs.contains_key((anchor, e.input)) {
        assert(s.node(g, anchor, 0) == Some(g.inputs[(anchor, e.input)].src));
    } else {
        assert(s.node(g, anchor, 0) is None);
    }
    if e.matches_at(g, anchor) {
        let src = g.inputs[(anchor, e.input)].src;
        assert forall|v: int| 0 <= v < s.ops.len() implies #[trigger] s.vertex_fits(
            g,
            anchor,
            v,
        ) by {}
        assert forall|u: int, v: int| 0 <= u < v < s.ops.len() implies #[trigger] s.pair_agrees(
            g,
            anchor,
            u,
            v,
        ) by {}
        assert(s.match_at(g, anchor)->Some_0 =~= seq![src, anchor]);
    } else {
        if s.matches_at(g, anchor) {
            assert(s.vertex_fits(g, anchor, 0));
            assert(s.vertex_fits(g, anchor, 1));
            assert(s.pair_agrees(g, anchor, 0, 1));
        }
    }
}

/// Without a root no vertex has a node.
proof fn lemma_no_root_no_node(s: SelectorView, g: GraphView, anchor: u32, v: int, steps: nat)
    requires
        s.root() is None,
    ensures
        s.node_of(g, anchor, v, steps) is None,
        !s.reaches_root(v, steps),
    decreases steps,
{
    if 0 <= v < s.parents.len() && steps > 0 {
        match s.parents[v] {
            Some((p, i)) => {
                lemma_no_root_no_node(s, g, anchor, p as int, (steps - 1) as nat);
            },
            None => {},
        }
    }
}

/// The root is a vertex that feeds nothing.
proof fn lemma_first_free(s: SelectorView, k: int)
    requires
        0 <= k,
    ensures
        match s.first_free(k) {
            Some(r) => k <= r < s.parents.len() && s.parents[r] is None && forall|v: int|
                k <= v < r ==> (#[trigger] s.parents[v]) is Some,
            None => forall|v: int| k <= v < s.parents.len() ==> (#[trigger] s.parents[v]) is Some,
        },
    decreases s.parents.len() - k,
{
    if k < s.parents.len() && s.parents[k] is Some {
        lemma_first_free(s, k + 1);
    }
}

impl GraphSelector {
    /// A selector without vertices.
    pub fn new() -> (s: GraphSelector)
        ensures
            s@.ops.len() == 0,
            s@.parents.len() == 0,
    {
        GraphSelector { ops: Vec::new(), parents: Vec::new() }
    }

    /// Adds a vertex with the pattern `op` and returns its number.
    pub fn op(&mut self, op: SelectOp) -> (v: usize)
        ensures
            v == old(self)@.ops.len(),
            final(self)@.ops == old(self)@.ops.push(op@),
            final(self)@.parents == old(self)@.parents.push(None),
    {
        let v = self.ops.len();
        self.ops.push(op);
        self.parents.push(None);
        assert(self@.ops =~= old(self)@.ops.push(op@));
        v
    }

    /// Says that vertex `source` feeds input 0 of vertex `sink`. Nothing
    /// changes where the selector has no vertex `source`.
    pub fn edge(&mut self, source: usize, sink: usize)
        ensures
            final(self)@.ops == old(self)@.ops,
            final(self)@.parents == if source < old(self)@.parents.len() {
                old(self)@.parents.update(source as int, Some((sink, 0u8)))
            } else {
                old(self)@.parents
            },
    {
        self.edge_at(source, 0, sink)
    }

    /// Says that vertex `source` feeds input `input` of vertex `sink`.
    /// Nothing changes where the selector has no vertex `source`.
    pub fn edge_at(&mut self, source: usize, input: u8, sink: usize)
        ensures
            final(self)@.ops == old(self)@.ops,
            final(self)@.parents == if source < old(self)@.parents.len() {
                old(self)@.parents.update(source as int, Some((sink, input)))
            } else {
                old(self)@.parents
            },
    {
        if source < self.parents.len() {
            self.parents.set(source, Some((sink, input)));
        }
        assert(self@.ops =~= old(self)@.ops);
    }

    /// The selector of two vertices in which `source` feeds input `input`
    /// of `sink`.
    pub fn pair_at(source: SelectOp, input: u8, sink: SelectOp) -> (s: GraphSelector)
        ensures
            s@ == (EdgePattern { source: source@, sink: sink@, input }).as_selector(),
    {
        let mut s = GraphSelector::new();
        let a = s.op(source);
        let b = s.op(sink);
        s.edge_at(a, input, b);
        proof {
            let want = (EdgePattern { source: source@, sink: sink@, input }).as_selector();
            assert(s@.ops =~= want.ops);
            assert(s@.parents =~= want.parents);
        }
        s
    }

    /// The selector of two vertices in which `source` feeds input 0 of
    /// `sink`.
    pub fn pair(source: SelectOp, sink: SelectOp) -> (s: GraphSelector)
        ensures
            s@ == (EdgePattern { source: source@, sink: sink@, input: 0 }).as_selector(),
    {
        GraphSelector::pair_at(source, 0, sink)
    }

    /// The root: the first vertex that feeds nothing.
    pub fn root(&self) -> (r: Option<usize>)
        ensures
            match r {
                Some(v) => self@.root() == Some(v as int),
                None => self@.root() is None,
            },
    {
        let mut k: usize = 0;
        while k < self.parents.len()
            invariant
                k <= self.parents@.len(),
                self@.root() == self@.first_free(k as int),
            decreases self.parents@.len() - k,
        {
            if self.parents[k].is_none() {
                return Some(k);
            }
            k += 1;
        }
        None
    }

    /// The vertices that edges lead to the root from, found by following
    /// the edges for as many rounds as there are vertices.
    fn reach(&self) -> (v: Vec<bool>)
        ensures
            v@.len() == self@.parents.len(),
            forall|x: int|
                0 <= x < v@.len() ==> (#[trigger] v@[x]) == self@.reaches_root(
                    x,
                    self@.parents.len(),
                ),
    {
        let n = self.parents.len();
        let root = self.root();
        let mut cur: Vec<bool> = Vec::new();
        let mut x: usize = 0;
        while x < n
            invariant
                x <= n,
                n == self@.parents.len(),
                match root {
                    Some(r) => self@.root() == Some(r as int),
                    None => self@.root() is None,
                },
                cur@.len() == x,
                forall|y: int| 0 <= y < x ==> (#[trigger] cur@[y]) == self@.reaches_root(y, 0),
            decreases n - x,
        {
            cur.push(root == Some(x));
            x += 1;
        }
        let mut round: usize = 0;
        while round < n
            invariant
                round <= n,
                n == self@.parents.len(),
                match root {
                    Some(r) => self@.root() == Some(r as int),
                    None => self@.root() is None,
                },
                cur@.len() == n,
                forall|y: int|
                    0 <= y < n ==> (#[trigger] cur@[y]) == self@.reaches_root(y, round as nat),
            decreases n - round,
        {
            let mut next: Vec<bool> = Vec::new();
            let mut x: usize = 0;
            while x < n
                invariant
                    x <= n,
                    round < n,
                    n == self@.parents.len(),
                    match root {
                        Some(r) => self@.root() == Some(r as int),
                        None => self@.root() is None,
                    },
                    cur@.len() == n,
                    forall|y: int|
                        0 <= y < n ==> (#[trigger] cur@[y]) == self@.reaches_root(y, round as nat),
                    next@.len() == x,
                    forall|y: int|
                        0 <= y < x ==> (#[trigger] next@[y]) == self@.reaches_root(
                            y,
                            (round + 1) as nat,
                        ),
                decreases n - x,
            {
                let reached = if root == Some(x) {
                    true
                } else {
                    match self.parents[x] {
                        Some((p, _)) => {
                            if p < n {
                                assert(cur@[p as int] == self@.reaches_root(
                                    p as int,
                                    round as nat,
                                ));
                                cur[p]
                            } else {
                                assert(!self@.reaches_root(p as int, round as nat));
                                false
                            }
                        },
                        None => false,
                    }
                };
                assert(((round + 1) as nat - 1) as nat == round as nat);
                assert(reached == self@.reaches_root(x as int, (round + 1) as nat));
                next.push(reached);
                x += 1;
            }
            cur = next;
            round += 1;
        }
        cur
    }

    /// Tests whether the selector is well formed.
    pub fn validate(&self) -> (r: Result<(), PatternMalformed>)
        ensures
            r is Ok == self@.is_well_formed(),
    {
        let n = self.ops.len();
        if n == 0 || self.parents.len() != n {
            return Err(PatternMalformed);
        }
        let mut v: usize = 0;
        while v < n
            invariant
                v <= n,
                n == self.ops@.len(),
                forall|x: int| 0 <= x < v ==> (#[trigger] self@.ops[x]).is_well_formed(),
            decreases n - v,
        {
            if self.ops[v].validate().is_err() {
                assert(!self@.ops[v as int].is_well_formed());
                return Err(PatternMalformed);
            }
            v += 1;
        }
        let reach = self.reach();
        let mut v: usize = 0;
        while v < n
            invariant
                v <= n,
                n == self.ops@.len(),
                n == self@.parents.len(),
                reach@.len() == n,
                forall|x: int|
                    0 <= x < n ==> (#[trigger] reach@[x]) == self@.reaches_root(
                        x,
                        self@.parents.len(),
                    ),
                forall|x: int|
                    0 <= x < v ==> #[trigger] self@.reaches_root(x, self@.parents.len()),
            decreases n - v,
        {
            if !reach[v] {
                assert(!self@.reaches_root(v as int, self@.parents.len()));
                return Err(PatternMalformed);
            }
            v += 1;
        }
        Ok(())
    }

    /// The node of every vertex when the root stands on `anchor`.
    fn place(&self, graph: &Graph, anchor: u32) -> (nodes: Vec<Option<u32>>)
        requires
            graph.wf(),
        ensures
            nodes@.len() == self@.parents.len(),
            forall|v: int|
                0 <= v < nodes@.len() ==> (#[trigger] nodes@[v]) == self@.node(graph@, anchor, v),
    {
        let n = self.parents.len();
        let root = self.root();
        let mut cur: Vec<Option<u32>> = Vec::new();
        let mut x: usize = 0;
        while x < n
            invariant
                x <= n,
                n == self@.parents.len(),
                match root {
                    Some(r) => self@.root() == Some(r as int),
                    None => self@.root() is None,
                },
                cur@.len() == x,
                forall|y: int|
                    0 <= y < x ==> (#[trigger] cur@[y]) == self@.node_of(graph@, anchor, y, 0),
            decreases n - x,
        {
            cur.push(
                if root == Some(x) {
                    Some(anchor)
                } else {
                    None
                },
            );
            x += 1;
        }
        let mut round: usize = 0;
        while round < n
            invariant
                round <= n,
                n == self@.parents.len(),
                graph.wf(),
                match root {
                    Some(r) => self@.root() == Some(r as int),
                    None => self@.root() is None,
                },
                cur@.len() == n,
                forall|y: int|
                    0 <= y < n ==> (#[trigger] cur@[y]) == self@.node_of(
                        graph@,
                        anchor,
                        y,
                        round as nat,
                    ),
            decreases n - round,
        {
            let mut next: Vec<Option<u32>> = Vec::new();
            let mut x: usize = 0;
            while x < n
                invariant
                    x <= n,
                    round < n,
                    n == self@.parents.len(),
                    graph.wf(),
                    match root {
                        Some(r) => self@.root() == Some(r as int),
                        None => self@.root() is None,
                    },
                    cur@.len() == n,
                    forall|y: int|
                        0 <= y < n ==> (#[trigger] cur@[y]) == self@.node_of(
                            graph@,
                            anchor,
                            y,
                            round as nat,
                        ),
                    next@.len() == x,
                    forall|y: int|
                        0 <= y < x ==> (#[trigger] next@[y]) == self@.node_of(
                            graph@,
                            anchor,
                            y,
                            (round + 1) as nat,
                        ),
                decreases n - x,
            {
                let placed: Option<u32> = if root == Some(x) {
                    Some(anchor)
                } else {
                    match self.parents[x] {
                        Some((p, i)) => {
                            if p < n {
                                match cur[p] {
                                    Some(above) => match graph.input(above, i) {
                                        Some(t) => Some(t.0),
                                        None => None,
                                    },
                                    None => None,
                                }
                            } else {
                                None
                            }
                        },
                        None => None,
                    }
                };
                next.push(placed);
                x += 1;
            }
            cur = next;
            round += 1;
        }
        cur
    }

    /// Looks for a match with the root on `anchor`. The result holds the
    /// node of each vertex.
    pub fn find_at(&self, graph: &Graph, anchor: u32) -> (m: Option<Vec<u32>>)
        requires
            graph.wf(),
        ensures
            match m {
                Some(nodes) => self@.match_at(graph@, anchor) == Some(nodes@),
                None => self@.match_at(graph@, anchor) is None,
            },
    {
        let n = self.ops.len();
        if n == 0 || self.parents.len() != n {
            return None;
        }
        let placed = self.place(graph, anchor);
        let mut nodes: Vec<u32> = Vec::new();
        let mut sizes: Vec<Vec<Vec<Expression>>> = Vec::new();
        let mut v: usize = 0;
        while v < n
            invariant
                v <= n,
                n == self.ops@.len(),
                n == self@.parents.len(),
                graph.wf(),
                placed@.len() == n,
                forall|x: int|
                    0 <= x < n ==> (#[trigger] placed@[x]) == self@.node(graph@, anchor, x),
                nodes@.len() == v,
                sizes@.len() == v,
                forall|x: int|
                    0 <= x < v ==> self@.node(graph@, anchor, x) == Some(#[trigger] nodes@[x]),
                forall|x: int| 0 <= x < v ==> #[trigger] self@.vertex_fits(graph@, anchor, x),
                forall|x: int|
                    0 <= x < v ==> (#[trigger] sizes@[x])@.len() == input_shapes(
                        graph@,
                        nodes@[x],
                    ).len(),
                forall|x: int, i: int|
                    0 <= x < v && 0 <= i < sizes@[x]@.len() ==> (#[trigger] sizes@[x]@[i])@
                        == input_shapes(graph@, nodes@[x])[i],
            decreases n - v,
        {
            let node = match placed[v] {
                Some(node) => node,
                None => {
                    assert(!self@.vertex_fits(graph@, anchor, v as int));
                    return None;
                },
            };
            if !self.ops[v].test(graph, node) {
                assert(!self@.vertex_fits(graph@, anchor, v as int));
                return None;
            }
            nodes.push(node);
            sizes.push(shape_lists(graph, node));
            v += 1;
        }
        let mut u: usize = 0;
        while u < n
            invariant
                u <= n,
                n == self.ops@.len(),
                n == self@.parents.len(),
                nodes@.len() == n,
                sizes@.len() == n,
                forall|x: int|
                    0 <= x < n ==> self@.node(graph@, anchor, x) == Some(#[trigger] nodes@[x]),
                forall|x: int| 0 <= x < n ==> #[trigger] self@.vertex_fits(graph@, anchor, x),
                forall|x: int|
                    0 <= x < n ==> (#[trigger] sizes@[x])@.len() == input_shapes(
                        graph@,
                        nodes@[x],
                    ).len(),
                forall|x: int, i: int|
                    0 <= x < n && 0 <= i < sizes@[x]@.len() ==> (#[trigger] sizes@[x]@[i])@
                        == input_shapes(graph@, nodes@[x])[i],
                forall|a: int, b: int|
                    0 <= a < b < n && a < u ==> #[trigger] self@.pair_agrees(graph@, anchor, a, b),
            decreases n - u,
        {
            let mut w: usize = u + 1;
            while w < n
                invariant
                    u < n,
                    u < w <= n,
                    n == self.ops@.len(),
                    n == self@.parents.len(),
                    nodes@.len() == n,
                    sizes@.len() == n,
                    forall|x: int|
                        0 <= x < n ==> self@.node(graph@, anchor, x) == Some(#[trigger] nodes@[x]),
                    forall|x: int| 0 <= x < n ==> #[trigger] self@.vertex_fits(graph@, anchor, x),
                    forall|x: int|
                        0 <= x < n ==> (#[trigger] sizes@[x])@.len() == input_shapes(
                            graph@,
                            nodes@[x],
                        ).len(),
                    forall|x: int, i: int|
                        0 <= x < n && 0 <= i < sizes@[x]@.len() ==> (#[trigger] sizes@[x]@[i])@
                            == input_shapes(graph@, nodes@[x])[i],
                    forall|b: int|
                        u < b < w ==> #[trigger] self@.pair_agrees(graph@, anchor, u as int, b),
                decreases n - w,
            {
                if !self.names_agree_at(graph, anchor, &nodes, &sizes, u, w) {
                    assert(!self@.pair_agrees(graph@, anchor, u as int, w as int));
                    return None;
                }
                w += 1;
            }
            u += 1;
        }
        proof {
            assert(self@.matches_at(graph@, anchor));
            assert(self@.match_at(graph@, anchor)->Some_0 =~= nodes@);
        }
        Some(nodes)
    }

    /// Tests whether the shape patterns of two vertices agree on the
    /// names they share.
    fn names_agree_at(
        &self,
        graph: &Graph,
        anchor: u32,
        nodes: &Vec<u32>,
        sizes: &Vec<Vec<Vec<Expression>>>,
        u: usize,
        w: usize,
    ) -> (b: bool)
        requires
            u < self.ops@.len(),
            w < self.ops@.len(),
            nodes@.len() == self.ops@.len(),
            sizes@.len() == self.ops@.len(),
            self@.node(graph@, anchor, u as int) == Some(nodes@[u as int]),
            self@.node(graph@, anchor, w as int) == Some(nodes@[w as int]),
            self@.vertex_fits(graph@, anchor, u as int),
            self@.vertex_fits(graph@, anchor, w as int),
            sizes@[u as int]@.len() == input_shapes(graph@, nodes@[u as int]).len(),
            sizes@[w as int]@.len() == input_shapes(graph@, nodes@[w as int]).len(),
            forall|i: int|
                0 <= i < sizes@[u as int]@.len() ==> (#[trigger] sizes@[u as int]@[i])@
                    == input_shapes(graph@, nodes@[u as int])[i],
            forall|i: int|
                0 <= i < sizes@[w as int]@.len() ==> (#[trigger] sizes@[w as int]@[i])@
                    == input_shapes(graph@, nodes@[w as int])[i],
        ensures
            b == self@.pair_agrees(graph@, anchor, u as int, w as int),
    {
        match (&self.ops[u].shapes, &self.ops[w].shapes) {
            (Some(p), Some(q)) => {
                let first = &sizes[u];
                let second = &sizes[w];
                proof {
                    let su = input_shapes(graph@, nodes@[u as int]);
                    let sw = input_shapes(graph@, nodes@[w as int]);
                    assert(self@.ops[u as int].shapes == Some(dim_rows(p@)));
                    assert(self@.ops[w as int].shapes == Some(dim_rows(q@)));
                    assert(dim_rows(p@).len() == su.len());
                    assert(dim_rows(q@).len() == sw.len());
                    assert forall|i: int| 0 <= i < p@.len() implies (#[trigger] p@[i])@.len()
                        == first@[i]@.len() by {
                        assert(dim_rows(p@)[i].len() == su[i].len());
                    }
                    assert forall|i: int| 0 <= i < q@.len() implies (#[trigger] q@[i])@.len()
                        == second@[i]@.len() by {
                        assert(dim_rows(q@)[i].len() == sw[i].len());
                    }
                }
                names_match(
                    p,
                    first,
                    q,
                    second,
                    Ghost(input_shapes(graph@, nodes@[u as int])),
                    Ghost(input_shapes(graph@, nodes@[w as int])),
                )
            },
            _ => true,
        }
    }

    /// The matches that a walk over the nodes by rising id claims: no
    /// two of them share a node.
    pub fn search(&self, graph: &Graph) -> (found: Vec<Vec<u32>>)
        requires
            graph.wf(),
        ensures
            exists|ids: Seq<u32>| #[trigger]
                lists_nodes(ids, graph@) && id_rows(found@) == self@.claimed(graph@, ids),
    {
        let ids = graph.node_ids();
        let mut found: Vec<Vec<u32>> = Vec::new();
        let mut k: usize = 0;
        assert(ids@.take(0) =~= Seq::<u32>::empty());
        assert(id_rows(found@) =~= Seq::<Seq<u32>>::empty());
        while k < ids.len()
            invariant
                k <= ids@.len(),
                graph.wf(),
                id_rows(found@) == self@.claimed(graph@, ids@.take(k as int)),
            decreases ids@.len() - k,
        {
            proof {
                let next = ids@.take(k as int + 1);
                assert(next.drop_last() =~= ids@.take(k as int));
                assert(next.last() == ids@[k as int]);
            }
            let ghost before = found@;
            match self.find_at(graph, ids[k]) {
                Some(m) => {
                    if !is_touched(&found, &m) {
                        found.push(m);
                        assert(id_rows(found@) =~= id_rows(before).push(m@));
                    }
                },
                None => {},
            }
            k += 1;
        }
        proof {
            assert(ids@.take(ids@.len() as int) =~= ids@);
            assert(lists_nodes(ids@, graph@));
        }
        found
    }

    /// All matches, by rising id of the node of the root.
    pub fn search_all(&self, graph: &Graph) -> (found: Vec<Vec<u32>>)
        requires
            graph.wf(),
        ensures
            exists|ids: Seq<u32>| #[trigger]
                lists_nodes(ids, graph@) && id_rows(found@) == self@.all_matches(graph@, ids),
    {
        let ids = graph.node_ids();
        let mut found: Vec<Vec<u32>> = Vec::new();
        let mut k: usize = 0;
        assert(ids@.take(0) =~= Seq::<u32>::empty());
        assert(id_rows(found@) =~= Seq::<Seq<u32>>::empty());
        while k < ids.len()
            invariant
                k <= ids@.len(),
                graph.wf(),
                id_rows(found@) == self@.all_matches(graph@, ids@.take(k as int)),
            decreases ids@.len() - k,
        {
            proof {
                let next = ids@.take(k as int + 1);
                assert(next.drop_last() =~= ids@.take(k as int));
                assert(next.last() == ids@[k as int]);
            }
            let ghost before = found@;
            match self.find_at(graph, ids[k]) {
                Some(m) => {
                    found.push(m);
                    assert(id_rows(found@) =~= id_rows(before).push(m@));
                },
                None => {},
            }
            k += 1;
        }
        proof {
            assert(ids@.take(ids@.len() as int) =~= ids@);
            assert(lists_nodes(ids@, graph@));
        }
        found
    }
}

/// Tests whether the match `m` shares a node with one of the matches
/// `found`.
fn is_touched(found: &Vec<Vec<u32>>, m: &Vec<u32>) -> (b: bool)
    ensures
        b == touches(id_rows(found@), m@),
{
    let mut i: usize = 0;
    while i < found.len()
        invariant
            i <= found@.len(),
            forall|x: int, a: int, b: int|
                0 <= x < i && 0 <= a < found@[x]@.len() && 0 <= b < m@.len() ==> (
                #[trigger] id_rows(found@)[x][a]) != #[trigger] m@[b],
        decreases found@.len() - i,
    {
        let row = &found[i];
        let mut a: usize = 0;
        while a < row.len()
            invariant
                i < found@.len(),
                *row == found@[i as int],
                a <= row@.len(),
                forall|y: int, b: int|
                    0 <= y < a && 0 <= b < m@.len() ==> (#[trigger] row@[y]) != #[trigger] m@[b],
            decreases row@.len() - a,
        {
            let mut b: usize = 0;
            while b < m.len()
                invariant
                    i < found@.len(),
                    *row == found@[i as int],
                    a < row@.len(),
                    b <= m@.len(),
                    forall|y: int| 0 <= y < b ==> row@[a as int] != #[trigger] m@[y],
                decreases m@.len() - b,
            {
                if row[a] == m[b] {
                    assert(id_rows(found@)[i as int][a as int] == m@[b as int]);
                    return true;
                }
                b += 1;
            }
            a += 1;
        }
        assert forall|x: int, a: int, b: int|
            0 <= x < i + 1 && 0 <= a < found@[x]@.len() && 0 <= b < m@.len() implies (
        #[trigger] id_rows(found@)[x][a]) != #[trigger] m@[b] by {
            if x == i {
                assert(id_rows(found@)[x][a] == row@[a]);
            }
        }
        i += 1;
    }
    false
}

} // verus!
