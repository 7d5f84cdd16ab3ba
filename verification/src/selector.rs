//! Patterns over the operator graph.
//!
//! A [`SelectOp`] describes one node: the device and type of its operator,
//! a test on the operator, and what the shapes of its inputs must look
//! like. An [`EdgePattern`] is the smallest pattern of more than one node:
//! two node patterns joined by an edge.

use crate::graph::{Device, Graph, GraphView, OpKind, Operator};
use crate::symbolic::Expression;
use crate::tracker::{Layout, ShapeTracker};
use vstd::prelude::*;

verus! {

/// One entry of a shape pattern.
#[derive(Debug, Clone, Copy, PartialEq, Eq, Structural)]
pub enum Dim {
    /// The size must be this number.
    Known(usize),
    /// The size is free, but equal wherever the same name stands.
    Unknown(char),
}

/// The type of an operator, without what it carries.
#[derive(Debug, Clone, Copy, PartialEq, Eq, Structural)]
pub enum OpType {
    Mul,
    SumReduce,
    Matmul2D,
    BatchMatmul2D,
    AttnMatmul2D,
    Other,
}

/// A test on an operator.
#[derive(Debug, Clone, Copy, PartialEq, Eq, Structural)]
pub enum OpTest {
    /// Every operator passes.
    Any,
    /// The operator is a sum along this axis.
    ReduceAxis(usize),
    /// The operator is this one.
    Exactly(Operator),
}

/// A selector that contradicts itself.
#[derive(Debug, Clone, Copy, PartialEq, Eq, Structural)]
pub struct PatternMalformed;

/// A pattern for one node.
pub struct SelectOp {
    pub ty: Option<(Device, OpType)>,
    pub check: OpTest,
    pub shapes: Option<Vec<Vec<Dim>>>,
    pub fakes: Option<Vec<Vec<bool>>>,
}

/// A place where a selector matches.
#[derive(Debug, Clone, Copy, PartialEq, Eq, Structural)]
pub struct Match {
    pub source: u32,
    pub sink: u32,
}

impl OpKind {
    /// The type of the operator.
    pub open spec fn spec_op_type(self) -> OpType {
        match self {
            OpKind::Mul => OpType::Mul,
            OpKind::SumReduce(_) => OpType::SumReduce,
            OpKind::Matmul2D => OpType::Matmul2D,
            OpKind::BatchMatmul2D => OpType::BatchMatmul2D,
            OpKind::AttnMatmul2D => OpType::AttnMatmul2D,
            OpKind::Other(_) => OpType::Other,
        }
    }

    /// The type of the operator.
    pub fn op_type(self) -> (t: OpType)
        ensures
            t == self.spec_op_type(),
    {
        match self {
            OpKind::Mul => OpType::Mul,
            OpKind::SumReduce(_) => OpType::SumReduce,
            OpKind::Matmul2D => OpType::Matmul2D,
            OpKind::BatchMatmul2D => OpType::BatchMatmul2D,
            OpKind::AttnMatmul2D => OpType::AttnMatmul2D,
            OpKind::Other(_) => OpType::Other,
        }
    }
}

impl OpTest {
    /// Whether `op` passes the test.
    pub open spec fn passes(self, op: Operator) -> bool {
        match self {
            OpTest::Any => true,
            OpTest::ReduceAxis(axis) => op.kind == OpKind::SumReduce(axis),
            OpTest::Exactly(want) => op == want,
        }
    }

    /// Whether `op` passes the test.
    pub fn test(self, op: Operator) -> (b: bool)
        ensures
            b == self.passes(op),
    {
        match self {
            OpTest::Any => true,
            OpTest::ReduceAxis(axis) => match op.kind {
                OpKind::SumReduce(a) => a == axis,
                _ => false,
            },
            OpTest::Exactly(want) => op == want,
        }
    }
}

/// Whether the operator has the device and type that `ty` asks for.
pub open spec fn type_fits(ty: Option<(Device, OpType)>, op: Operator) -> bool {
    ty matches Some(t) ==> op.device == t.0 && op.kind.spec_op_type() == t.1
}

/// Whether the fake flag shown at position `j` of `l` is set.
pub open spec fn shown_fake(l: Layout, j: int) -> bool {
    l.fake[l.indexes[j] as int]
}

/// Whether the shapes of the inputs fit the pattern: one row for each
/// input, one entry for each axis, known sizes met, and one size for one
/// name.
pub open spec fn shapes_fit(pattern: Seq<Seq<Dim>>, shapes: Seq<Seq<Expression>>) -> bool {
    &&& pattern.len() == shapes.len()
    &&& forall|i: int| 0 <= i < pattern.len() ==> (#[trigger] pattern[i]).len() == shapes[i].len()
    &&& forall|i: int, j: int|
        0 <= i < pattern.len() && 0 <= j < pattern[i].len() ==> entry_fits(
            #[trigger] pattern[i][j],
            shapes[i][j],
        )
    &&& forall|i: int, j: int, i2: int, j2: int|
        0 <= i < pattern.len() && 0 <= j < pattern[i].len() && 0 <= i2 < pattern.len() && 0 <= j2
            < pattern[i2].len() && same_name(#[trigger] pattern[i][j], #[trigger] pattern[i2][j2])
            ==> shapes[i][j] == shapes[i2][j2]
}

/// The rows of a shape pattern.
pub open spec fn dim_rows(v: Seq<Vec<Dim>>) -> Seq<Seq<Dim>> {
    Seq::new(v.len(), |i: int| v[i]@)
}

/// The rows of a list of fake masks.
pub open spec fn mask_rows(v: Seq<Vec<bool>>) -> Seq<Seq<bool>> {
    Seq::new(v.len(), |i: int| v[i]@)
}

/// Whether a size meets a pattern entry taken alone.
pub open spec fn entry_fits(d: Dim, size: Expression) -> bool {
    d matches Dim::Known(k) ==> size.spec_to_usize() == Some(k)
}

/// Whether two pattern entries are the same name.
pub open spec fn same_name(a: Dim, b: Dim) -> bool {
    a matches Dim::Unknown(c) && b == Dim::Unknown(c)
}

/// Whether the fake flags of the inputs fit the masks, as far as there is
/// a mask entry for a shown axis.
pub open spec fn fakes_fit(masks: Seq<Seq<bool>>, layouts: Seq<Layout>) -> bool {
    forall|i: int, j: int|
        0 <= i < masks.len() && i < layouts.len() && 0 <= j < masks[i].len() && j
            < layouts[i].len() ==> (#[trigger] masks[i][j]) == shown_fake(layouts[i], j)
}

/// What a node pattern asks for.
pub struct Pattern {
    pub ty: Option<(Device, OpType)>,
    pub check: OpTest,
    pub shapes: Option<Seq<Seq<Dim>>>,
    pub fakes: Option<Seq<Seq<bool>>>,
}

/// A pattern of two nodes: `source` feeds input `input` of `sink`.
pub struct EdgePattern {
    pub source: Pattern,
    pub sink: Pattern,
    pub input: u8,
}

impl Pattern {
    /// Whether shape pattern and fake masks, where the pattern has both,
    /// speak of the same inputs: as many rows, and row by row as many
    /// entries.
    pub open spec fn is_well_formed(self) -> bool {
        match (self.shapes, self.fakes) {
            (Some(p), Some(m)) => p.len() == m.len() && forall|i: int|
                0 <= i < p.len() ==> (#[trigger] p[i]).len() == m[i].len(),
            _ => true,
        }
    }

    /// Whether node `n` of `g` fits the pattern.
    pub open spec fn fits(self, g: GraphView, n: u32) -> bool {
        &&& g.nodes.contains_key(n)
        &&& type_fits(self.ty, g.nodes[n])
        &&& self.check.passes(g.nodes[n])
        &&& self.shapes matches Some(p) ==> shapes_fit(p, input_shapes(g, n))
        &&& self.fakes matches Some(m) ==> fakes_fit(m, input_layouts(g, n))
    }
}

/// Whether a name that stands in both patterns stands for one size:
/// always so where one of the nodes has no shape pattern.
pub open spec fn names_agree(
    first: Option<Seq<Seq<Dim>>>,
    first_shapes: Seq<Seq<Expression>>,
    second: Option<Seq<Seq<Dim>>>,
    second_shapes: Seq<Seq<Expression>>,
) -> bool {
    match (first, second) {
        (Some(p), Some(q)) => rows_agree(p, first_shapes, q, second_shapes),
        _ => true,
    }
}

/// Whether a name that stands in both lists of rows stands for one size.
pub open spec fn rows_agree(
    p: Seq<Seq<Dim>>,
    first_shapes: Seq<Seq<Expression>>,
    q: Seq<Seq<Dim>>,
    second_shapes: Seq<Seq<Expression>>,
) -> bool {
    forall|i: int, j: int, i2: int, j2: int|
        0 <= i < p.len() && 0 <= j < p[i].len() && 0 <= i2 < q.len() && 0 <= j2 < q[i2].len()
            && same_name(#[trigger] p[i][j], #[trigger] q[i2][j2]) ==> first_shapes[i][j]
            == second_shapes[i2][j2]
}

/// Whether `ids` lists the nodes of `g` by rising id.
pub open spec fn lists_nodes(ids: Seq<u32>, g: GraphView) -> bool {
    &&& crate::stable_graph::ascending(ids)
    &&& forall|a: u32| g.nodes.contains_key(a) <==> ids.contains(a)
}

impl EdgePattern {
    /// Whether the selector matches with `sink` as the target of its
    /// edge: both nodes fit their patterns, and the names of both shape
    /// patterns stand for the same sizes.
    pub open spec fn matches_at(self, g: GraphView, sink: u32) -> bool {
        &&& self.sink.fits(g, sink)
        &&& g.inputs.contains_key((sink, self.input))
        &&& self.source.fits(g, g.inputs[(sink, self.input)].src)
        &&& names_agree(
            self.source.shapes,
            input_shapes(g, g.inputs[(sink, self.input)].src),
            self.sink.shapes,
            input_shapes(g, sink),
        )
    }

    /// The match with `sink` as the target of the edge, where there is
    /// one.
    pub open spec fn match_at(self, g: GraphView, sink: u32) -> Option<Match> {
        if self.matches_at(g, sink) {
            Some(Match { source: g.inputs[(sink, self.input)].src, sink })
        } else {
            None
        }
    }
}

/// The layouts of the inputs of `node`, in order.
pub open spec fn input_layouts(g: GraphView, node: u32) -> Seq<Layout> {
    Seq::new(g.sources(node).len(), |i: int| g.sources(node)[i].1)
}

/// The shapes of the inputs of `node`, in order.
pub open spec fn input_shapes(g: GraphView, node: u32) -> Seq<Seq<Expression>> {
    Seq::new(g.sources(node).len(), |i: int| g.sources(node)[i].1.shape())
}

impl View for SelectOp {
    type V = Pattern;

    open spec fn view(&self) -> Pattern {
        Pattern {
            ty: self.ty,
            check: self.check,
            shapes: match self.shapes {
                Some(p) => Some(dim_rows(p@)),
                None => None,
            },
            fakes: match self.fakes {
                Some(m) => Some(mask_rows(m@)),
                None => None,
            },
        }
    }
}

impl SelectOp {
    /// A pattern that every node fits.
    pub fn new() -> (p: SelectOp)
        ensures
            p.ty is None,
            p.check == OpTest::Any,
            p.shapes is None,
            p.fakes is None,
    {
        SelectOp { ty: None, check: OpTest::Any, shapes: None, fakes: None }
    }

    /// Asks for an operator of this device and type.
    pub fn ty(self, device: Device, op_type: OpType) -> (p: SelectOp)
        ensures
            p.ty == Some((device, op_type)),
            p.check == self.check,
            p.shapes == self.shapes,
            p.fakes == self.fakes,
    {
        SelectOp { ty: Some((device, op_type)), ..self }
    }

    /// Asks for an operator that passes `test`.
    pub fn check(self, test: OpTest) -> (p: SelectOp)
        ensures
            p.ty == self.ty,
            p.check == test,
            p.shapes == self.shapes,
            p.fakes == self.fakes,
    {
        SelectOp { check: test, ..self }
    }

    /// Asks for inputs of these shapes.
    pub fn shapes(self, shapes: Vec<Vec<Dim>>) -> (p: SelectOp)
        ensures
            p.ty == self.ty,
            p.check == self.check,
            p.shapes == Some(shapes),
            p.fakes == self.fakes,
    {
        SelectOp { shapes: Some(shapes), ..self }
    }

    /// Asks for inputs with these fake flags, by shown axis.
    pub fn fakes(self, fakes: Vec<Vec<bool>>) -> (p: SelectOp)
        ensures
            p.ty == self.ty,
            p.check == self.check,
            p.shapes == self.shapes,
            p.fakes == Some(fakes),
    {
        SelectOp { fakes: Some(fakes), ..self }
    }

    /// Tests whether the pattern is well formed.
    pub fn validate(&self) -> (r: Result<(), PatternMalformed>)
        ensures
            r is Ok == self@.is_well_formed(),
    {
        match (&self.shapes, &self.fakes) {
            (Some(p), Some(m)) => {
                if p.len() != m.len() {
                    return Err(PatternMalformed);
                }
                let mut i: usize = 0;
                while i < p.len()
                    invariant
                        i <= p@.len(),
                        p@.len() == m@.len(),
                        self.shapes == Some(*p),
                        self.fakes == Some(*m),
                        forall|j: int| 0 <= j < i ==> (#[trigger] p@[j])@.len() == m@[j]@.len(),
                    decreases p@.len() - i,
                {
                    if p[i].len() != m[i].len() {
                        assert(dim_rows(p@)[i as int].len() != mask_rows(m@)[i as int].len());
                        return Err(PatternMalformed);
                    }
                    i += 1;
                }
                assert forall|j: int| 0 <= j < dim_rows(p@).len() implies (#[trigger] dim_rows(
                    p@,
                )[j]).len() == mask_rows(m@)[j].len() by {
                    assert(p@[j]@.len() == m@[j]@.len());
                }
                Ok(())
            },
            _ => Ok(()),
        }
    }

    /// Tests node `n` of the graph against the pattern.
    pub fn test(&self, graph: &Graph, n: u32) -> (b: bool)
        requires
            graph.wf(),
        ensures
            b == self@.fits(graph@, n),
    {
        let op = match graph.node_weight(n) {
            Some(op) => op,
            None => {
                return false;
            },
        };
        match self.ty {
            Some(t) => {
                if !(op.device == t.0 && op.kind.op_type() == t.1) {
                    return false;
                }
            },
            None => {},
        }
        if !self.check.test(op) {
            return false;
        }
        if self.shapes.is_none() && self.fakes.is_none() {
            return true;
        }
        let sources = graph.get_sources(n);
        proof {
            assert(input_layouts(graph@, n).len() == sources@.len());
        }
        match &self.shapes {
            Some(p) => {
                if !shapes_match(p, &sources, Ghost(input_shapes(graph@, n))) {
                    return false;
                }
            },
            None => {},
        }
        match &self.fakes {
            Some(m) => {
                if !fakes_match(m, &sources, Ghost(input_layouts(graph@, n))) {
                    return false;
                }
            },
            None => {},
        }
        true
    }
}

/// Tests the fake flags of `sources` against `masks`.
fn fakes_match(
    masks: &Vec<Vec<bool>>,
    sources: &Vec<(u32, ShapeTracker)>,
    Ghost(layouts): Ghost<Seq<Layout>>,
) -> (b: bool)
    requires
        layouts.len() == sources@.len(),
        forall|i: int|
            0 <= i < sources@.len() ==> (#[trigger] sources@[i]).1@ == layouts[i]
                && sources@[i].1.wf(),
    ensures
        b == fakes_fit(mask_rows(masks@), layouts),
{
    let mut i: usize = 0;
    while i < masks.len() && i < sources.len()
        invariant
            i <= masks@.len(),
            i <= sources@.len(),
            layouts.len() == sources@.len(),
            forall|i: int|
                0 <= i < sources@.len() ==> (#[trigger] sources@[i]).1@ == layouts[i]
                    && sources@[i].1.wf(),
            forall|a: int, j: int|
                0 <= a < i && 0 <= j < masks@[a]@.len() && j < layouts[a].len() ==> (
                #[trigger] masks@[a]@[j]) == shown_fake(layouts[a], j),
        decreases masks@.len() - i,
    {
        let mask = &masks[i];
        let tracker = &sources[i].1;
        let n = tracker.len();
        let mut j: usize = 0;
        while j < mask.len() && j < n
            invariant
                j <= mask@.len(),
                j <= n,
                i < masks@.len(),
                i < sources@.len(),
                *mask == masks@[i as int],
                *tracker == sources@[i as int].1,
                i < layouts.len(),
                tracker@ == layouts[i as int],
                tracker.wf(),
                n == tracker@.len(),
                forall|q: int| 0 <= q < j ==> (#[trigger] mask@[q]) == shown_fake(tracker@, q),
            decreases mask@.len() - j,
        {
            let p = crate::arrays::as_slice(&tracker.indexes)[j];
            let flag = crate::arrays::as_slice(&tracker.fake)[p];
            if mask[j] != flag {
                assert(mask_rows(masks@)[i as int][j as int] != shown_fake(
                    layouts[i as int],
                    j as int,
                ));
                return false;
            }
            j += 1;
        }
        i += 1;
    }
    true
}

/// Tests the shapes of `sources` against `pattern`.
fn shapes_match(
    pattern: &Vec<Vec<Dim>>,
    sources: &Vec<(u32, ShapeTracker)>,
    Ghost(shapes): Ghost<Seq<Seq<Expression>>>,
) -> (b: bool)
    requires
        shapes.len() == sources@.len(),
        forall|i: int|
            0 <= i < sources@.len() ==> (#[trigger] sources@[i]).1@.shape() == shapes[i]
                && sources@[i].1.wf(),
    ensures
        b == shapes_fit(dim_rows(pattern@), shapes),
{
    if pattern.len() != sources.len() {
        return false;
    }
    let n = pattern.len();
    let mut sizes: Vec<Vec<Expression>> = Vec::new();
    let mut i: usize = 0;
    while i < n
        invariant
            i <= n,
            n == pattern@.len(),
            n == sources@.len(),
            shapes.len() == n,
            forall|i: int|
                0 <= i < sources@.len() ==> (#[trigger] sources@[i]).1@.shape() == shapes[i]
                    && sources@[i].1.wf(),
            sizes@.len() == i,
            forall|a: int| 0 <= a < i ==> (#[trigger] sizes@[a])@ == shapes[a],
            forall|a: int| 0 <= a < i ==> (#[trigger] pattern@[a])@.len() == shapes[a].len(),
        decreases n - i,
    {
        let shape = sources[i].1.shape();
        if shape.len() != pattern[i].len() {
            assert(dim_rows(pattern@)[i as int].len() != shapes[i as int].len());
            return false;
        }
        sizes.push(shape);
        i += 1;
    }
    // Known sizes.
    let mut a: usize = 0;
    while a < n
        invariant
            a <= n,
            n == pattern@.len(),
            shapes.len() == n,
            sizes@.len() == n,
            forall|x: int| 0 <= x < n ==> (#[trigger] sizes@[x])@ == shapes[x],
            forall|x: int| 0 <= x < n ==> (#[trigger] pattern@[x])@.len() == shapes[x].len(),
            forall|x: int, j: int|
                0 <= x < a && 0 <= j < pattern@[x]@.len() ==> entry_fits(
                    #[trigger] pattern@[x]@[j],
                    shapes[x][j],
                ),
        decreases n - a,
    {
        let row = &pattern[a];
        let mut j: usize = 0;
        while j < row.len()
            invariant
                j <= row@.len(),
                a < n,
                n == pattern@.len(),
                sizes@.len() == n,
                *row == pattern@[a as int],
                sizes@[a as int]@ == shapes[a as int],
                row@.len() == shapes[a as int].len(),
                forall|q: int| 0 <= q < j ==> entry_fits(#[trigger] row@[q], shapes[a as int][q]),
            decreases row@.len() - j,
        {
            match row[j] {
                Dim::Known(k) => {
                    if sizes[a][j].to_usize() != Some(k) {
                        assert(!entry_fits(
                            dim_rows(pattern@)[a as int][j as int],
                            shapes[a as int][j as int],
                        ));
                        return false;
                    }
                },
                Dim::Unknown(_) => {},
            }
            j += 1;
        }
        a += 1;
    }
    // One size for one name.
    let mut a: usize = 0;
    while a < n
        invariant
            a <= n,
            n == pattern@.len(),
            shapes.len() == n,
            sizes@.len() == n,
            forall|x: int| 0 <= x < n ==> (#[trigger] sizes@[x])@ == shapes[x],
            forall|x: int| 0 <= x < n ==> (#[trigger] pattern@[x])@.len() == shapes[x].len(),
            forall|x: int, j: int|
                0 <= x < n && 0 <= j < pattern@[x]@.len() ==> entry_fits(
                    #[trigger] pattern@[x]@[j],
                    shapes[x][j],
                ),
            forall|x: int, j: int, x2: int, j2: int|
                0 <= x < a && 0 <= j < pattern@[x]@.len() && 0 <= x2 < n && 0 <= j2
                    < pattern@[x2]@.len() && same_name(
                    #[trigger] pattern@[x]@[j],
                    #[trigger] pattern@[x2]@[j2],
                ) ==> shapes[x][j] == shapes[x2][j2],
        decreases n - a,
    {
        let mut j: usize = 0;
        while j < pattern[a].len()
            invariant
                j <= pattern@[a as int]@.len(),
                a < n,
                n == pattern@.len(),
                shapes.len() == n,
                sizes@.len() == n,
                forall|x: int| 0 <= x < n ==> (#[trigger] sizes@[x])@ == shapes[x],
                forall|x: int| 0 <= x < n ==> (#[trigger] pattern@[x])@.len() == shapes[x].len(),
                forall|q: int, x2: int, j2: int|
                    0 <= q < j && 0 <= x2 < n && 0 <= j2 < pattern@[x2]@.len() && same_name(
                        #[trigger] pattern@[a as int]@[q],
                        #[trigger] pattern@[x2]@[j2],
                    ) ==> shapes[a as int][q] == shapes[x2][j2],
            decreases pattern@[a as int]@.len() - j,
        {
            let d = pattern[a][j];
            let mut a2: usize = 0;
            while a2 < n
                invariant
                    a2 <= n,
                    a < n,
                    j < pattern@[a as int]@.len(),
                    d == pattern@[a as int]@[j as int],
                    n == pattern@.len(),
                    shapes.len() == n,
                    sizes@.len() == n,
                    forall|x: int| 0 <= x < n ==> (#[trigger] sizes@[x])@ == shapes[x],
                    forall|x: int|
                        0 <= x < n ==> (#[trigger] pattern@[x])@.len() == shapes[x].len(),
                    forall|x2: int, j2: int|
                        0 <= x2 < a2 && 0 <= j2 < pattern@[x2]@.len() && same_name(
                            d,
                            #[trigger] pattern@[x2]@[j2],
                        ) ==> shapes[a as int][j as int] == shapes[x2][j2],
                decreases n - a2,
            {
                let mut j2: usize = 0;
                while j2 < pattern[a2].len()
                    invariant
                        j2 <= pattern@[a2 as int]@.len(),
                        a2 < n,
                        a < n,
                        j < pattern@[a as int]@.len(),
                        d == pattern@[a as int]@[j as int],
                        n == pattern@.len(),
                        shapes.len() == n,
                        sizes@.len() == n,
                        forall|x: int| 0 <= x < n ==> (#[trigger] sizes@[x])@ == shapes[x],
                        forall|x: int|
                            0 <= x < n ==> (#[trigger] pattern@[x])@.len() == shapes[x].len(),
                        forall|q: int|
                            0 <= q < j2 && same_name(d, #[trigger] pattern@[a2 as int]@[q])
                                ==> shapes[a as int][j as int] == shapes[a2 as int][q],
                    decreases pattern@[a2 as int]@.len() - j2,
                {
                    let d2 = pattern[a2][j2];
                    if names_equal(d, d2) {
                        assert(sizes@[a as int]@ == shapes[a as int]);
                        assert(sizes@[a2 as int]@ == shapes[a2 as int]);
                        assert(pattern@[a as int]@.len() == shapes[a as int].len());
                        assert(pattern@[a2 as int]@.len() == shapes[a2 as int].len());
                        if !sizes[a][j].same(&sizes[a2][j2]) {
                            assert(same_name(
                                dim_rows(pattern@)[a as int][j as int],
                                dim_rows(pattern@)[a2 as int][j2 as int],
                            ));
                            return false;
                        }
                    }
                    j2 += 1;
                }
                a2 += 1;
            }
            j += 1;
        }
        a += 1;
    }
    true
}

fn names_equal(a: Dim, b: Dim) -> (r: bool)
    ensures
        r == same_name(a, b),
{
    match a {
        Dim::Unknown(c) => match b {
            Dim::Unknown(c2) => c == c2,
            _ => false,
        },
        _ => false,
    }
}

/// The shapes of the inputs of `node`, in order.
pub(crate) fn shape_lists(graph: &Graph, node: u32) -> (v: Vec<Vec<Expression>>)
    requires
        graph.wf(),
    ensures
        v@.len() == input_shapes(graph@, node).len(),
        forall|i: int| 0 <= i < v@.len() ==> (#[trigger] v@[i])@ == input_shapes(graph@, node)[i],
{
    let sources = graph.get_sources(node);
    let mut v: Vec<Vec<Expression>> = Vec::new();
    let mut i: usize = 0;
    while i < sources.len()
        invariant
            i <= sources@.len(),
            sources@.len() == graph@.sources(node).len(),
            forall|j: int|
                0 <= j < sources@.len() ==> (#[trigger] sources@[j]).1@ == graph@.sources(
                    node,
                )[j].1 && sources@[j].1.wf(),
            v@.len() == i,
            forall|j: int| 0 <= j < i ==> (#[trigger] v@[j])@ == input_shapes(graph@, node)[j],
        decreases sources@.len() - i,
    {
        v.push(sources[i].1.shape());
        i += 1;
    }
    v
}

/// Tests whether the names that stand in both patterns stand for the
/// same sizes.
pub(crate) fn names_match(
    first: &Vec<Vec<Dim>>,
    first_sizes: &Vec<Vec<Expression>>,
    second: &Vec<Vec<Dim>>,
    second_sizes: &Vec<Vec<Expression>>,
    Ghost(first_shapes): Ghost<Seq<Seq<Expression>>>,
    Ghost(second_shapes): Ghost<Seq<Seq<Expression>>>,
) -> (b: bool)
    requires
        first@.len() == first_sizes@.len(),
        second@.len() == second_sizes@.len(),
        first_shapes.len() == first@.len(),
        second_shapes.len() == second@.len(),
        forall|i: int|
            0 <= i < first@.len() ==> (#[trigger] first@[i])@.len() == first_sizes@[i]@.len(),
        forall|i: int|
            0 <= i < second@.len() ==> (#[trigger] second@[i])@.len() == second_sizes@[i]@.len(),
        forall|i: int| 0 <= i < first@.len() ==> (#[trigger] first_sizes@[i])@ == first_shapes[i],
        forall|i: int|
            0 <= i < second@.len() ==> (#[trigger] second_sizes@[i])@ == second_shapes[i],
    ensures
        b == names_agree(
            Some(dim_rows(first@)),
            first_shapes,
            Some(dim_rows(second@)),
            second_shapes,
        ),
{
    let mut i: usize = 0;
    while i < first.len()
        invariant
            i <= first@.len(),
            first@.len() == first_sizes@.len(),
            second@.len() == second_sizes@.len(),
            first_shapes.len() == first@.len(),
            second_shapes.len() == second@.len(),
            forall|i: int|
                0 <= i < first@.len() ==> (#[trigger] first@[i])@.len() == first_sizes@[i]@.len(),
            forall|i: int|
                0 <= i < second@.len() ==> (#[trigger] second@[i])@.len()
                    == second_sizes@[i]@.len(),
            forall|i: int|
                0 <= i < first@.len() ==> (#[trigger] first_sizes@[i])@ == first_shapes[i],
            forall|i: int|
                0 <= i < second@.len() ==> (#[trigger] second_sizes@[i])@ == second_shapes[i],
            forall|a: int, j: int, i2: int, j2: int|
                0 <= a < i && 0 <= j < first@[a]@.len() && 0 <= i2 < second@.len() && 0 <= j2
                    < second@[i2]@.len() && same_name(
                    #[trigger] first@[a]@[j],
                    #[trigger] second@[i2]@[j2],
                ) ==> first_shapes[a][j] == second_shapes[i2][j2],
        decreases first@.len() - i,
    {
        let mut j: usize = 0;
        while j < first[i].len()
            invariant
                i < first@.len(),
                j <= first@[i as int]@.len(),
                first@.len() == first_sizes@.len(),
                second@.len() == second_sizes@.len(),
                first_shapes.len() == first@.len(),
                second_shapes.len() == second@.len(),
                forall|i: int|
                    0 <= i < first@.len() ==> (#[trigger] first@[i])@.len()
                        == first_sizes@[i]@.len(),
                forall|i: int|
                    0 <= i < second@.len() ==> (#[trigger] second@[i])@.len()
                        == second_sizes@[i]@.len(),
                forall|i: int|
                    0 <= i < first@.len() ==> (#[trigger] first_sizes@[i])@ == first_shapes[i],
                forall|i: int|
                    0 <= i < second@.len() ==> (#[trigger] second_sizes@[i])@ == second_shapes[i],
                forall|q: int, i2: int, j2: int|
                    0 <= q < j && 0 <= i2 < second@.len() && 0 <= j2 < second@[i2]@.len()
                        && same_name(#[trigger] first@[i as int]@[q], #[trigger] second@[i2]@[j2])
                        ==> first_shapes[i as int][q] == second_shapes[i2][j2],
            decreases first@[i as int]@.len() - j,
        {
            let d = first[i][j];
            let mut i2: usize = 0;
            while i2 < second.len()
                invariant
                    i < first@.len(),
                    j < first@[i as int]@.len(),
                    d == first@[i as int]@[j as int],
                    i2 <= second@.len(),
                    first@.len() == first_sizes@.len(),
                    second@.len() == second_sizes@.len(),
                    first_shapes.len() == first@.len(),
                    second_shapes.len() == second@.len(),
                    forall|i: int|
                        0 <= i < first@.len() ==> (#[trigger] first@[i])@.len()
                            == first_sizes@[i]@.len(),
                    forall|i: int|
                        0 <= i < second@.len() ==> (#[trigger] second@[i])@.len()
                            == second_sizes@[i]@.len(),
                    forall|i: int|
                        0 <= i < first@.len() ==> (#[trigger] first_sizes@[i])@ == first_shapes[i],
                    forall|i: int|
                        0 <= i < second@.len() ==> (#[trigger] second_sizes@[i])@
                            == second_shapes[i],
                    forall|x2: int, j2: int|
                        0 <= x2 < i2 && 0 <= j2 < second@[x2]@.len() && same_name(
                            d,
                            #[trigger] second@[x2]@[j2],
                        ) ==> first_shapes[i as int][j as int] == second_shapes[x2][j2],
                decreases second@.len() - i2,
            {
                let mut j2: usize = 0;
                while j2 < second[i2].len()
                    invariant
                        i < first@.len(),
                        j < first@[i as int]@.len(),
                        d == first@[i as int]@[j as int],
                        i2 < second@.len(),
                        j2 <= second@[i2 as int]@.len(),
                        first@.len() == first_sizes@.len(),
                        second@.len() == second_sizes@.len(),
                        first_shapes.len() == first@.len(),
                        second_shapes.len() == second@.len(),
                        forall|i: int|
                            0 <= i < first@.len() ==> (#[trigger] first@[i])@.len()
                                == first_sizes@[i]@.len(),
                        forall|i: int|
                            0 <= i < second@.len() ==> (#[trigger] second@[i])@.len()
                                == second_sizes@[i]@.len(),
                        forall|i: int|
                            0 <= i < first@.len() ==> (#[trigger] first_sizes@[i])@
                                == first_shapes[i],
                        forall|i: int|
                            0 <= i < second@.len() ==> (#[trigger] second_sizes@[i])@
                                == second_shapes[i],
                        forall|q: int|
                            0 <= q < j2 && same_name(d, #[trigger] second@[i2 as int]@[q])
                                ==> first_shapes[i as int][j as int] == second_shapes[i2 as int][q],
                    decreases second@[i2 as int]@.len() - j2,
                {
                    if names_equal(d, second[i2][j2]) {
                        assert(first@[i as int]@.len() == first_sizes@[i as int]@.len());
                        assert(second@[i2 as int]@.len() == second_sizes@[i2 as int]@.len());
                        assert(first_sizes@[i as int]@ == first_shapes[i as int]);
                        assert(second_sizes@[i2 as int]@ == second_shapes[i2 as int]);
                        if !first_sizes[i][j].same(&second_sizes[i2][j2]) {
                            proof {
                                let p = dim_rows(first@);
                                let q = dim_rows(second@);
                                assert(p[i as int] == first@[i as int]@);
                                assert(q[i2 as int] == second@[i2 as int]@);
                                assert(same_name(p[i as int][j as int], q[i2 as int][j2 as int]));
                                assert(first_shapes[i as int][j as int]
                                    != second_shapes[i2 as int][j2 as int]);
                                assert(!rows_agree(p, first_shapes, q, second_shapes));
                            }
                            return false;
                        }
                    }
                    j2 += 1;
                }
                i2 += 1;
            }
            j += 1;
        }
        i += 1;
    }
    true
}

} // verus!
