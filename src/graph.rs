use vstd::prelude::*;

use crate::array::{copy_vec, Array, ArrayError};
use crate::image::{
    lemma_roll_len, roll_spec, roll_values, transpose_spec, transpose_values, unroll_spec, unroll_values, Window,
};
use crate::matmul::{matmul_flat, product};
use crate::numbers::{add_seq, add_values, mul_seq, mul_values, Scalar};
use crate::shape::{count, positive};

verus! {

/// The operation that produced a node, with the parameters its gradient rule
/// needs.
#[derive(Clone, Copy, Debug, PartialEq, Eq, Structural)]
pub enum Op {
    /// An array entered by the user.
    Leaf,
    /// Element-wise sum of two arrays.
    Add,
    /// Element-wise product of two arrays.
    Mul,
    /// `batches` products of a `rows x inner` by an `inner x cols` matrix.
    Matmul { a_transpose: bool, b_transpose: bool, batches: usize, rows: usize, inner: usize, cols: usize },
    /// The same values under other dimensions.
    Reshape,
    /// The patches of `batches` images copied into the rows of matrices.
    Unroll { window: Window, batches: usize },
    /// Unrolled matrices of `batches` images added back into images.
    Roll { window: Window, batches: usize },
    /// `batches` matrices of `patches` rows and `filters` columns, each
    /// transposed to one row of patch values per filter.
    Expand { batches: usize, patches: usize, filters: usize },
}

/// One recorded operation: the dimensions of its result, the operation, and
/// its operands as they were when it ran.
pub struct Node {
    pub(crate) dimensions: Vec<usize>,
    pub(crate) op: Op,
    pub(crate) inputs: Vec<Array>,
}

/// The arena of recorded operations. Node `i` only refers to nodes before it,
/// so the order of the arena is a topological order of the computation.
pub struct Graph {
    pub(crate) nodes: Vec<Node>,
    pub(crate) gradients: Vec<Option<Vec<Scalar>>>,
}

/// Two arrays with the same dimensions, values and node.
pub open(crate) spec fn same_array(x: Array, y: Array) -> bool {
    x.shape() == y.shape() && x.vals() == y.vals() && x.handle() == y.handle()
}

/// The view of an optional vector.
pub open(crate) spec fn opt_view(v: Option<Vec<Scalar>>) -> Option<Seq<Scalar>> {
    match v {
        Some(x) => Some(x@),
        None => None,
    }
}

/// Adds a contribution `d` to an optional accumulator.
pub open(crate) spec fn add_opt(acc: Option<Seq<Scalar>>, d: Seq<Scalar>) -> Option<Seq<Scalar>> {
    match acc {
        Some(a) => Some(add_seq(a, d)),
        None => Some(d),
    }
}

/// A sequence of `n` ones.
pub open(crate) spec fn ones(n: nat) -> Seq<Scalar> {
    Seq::new(n, |i: int| 1i64)
}

impl Node {
    pub open(crate) spec fn shape(&self) -> Seq<usize> {
        self.dimensions@
    }

    pub open(crate) spec fn ins(&self) -> Seq<Array> {
        self.inputs@
    }

    pub open(crate) spec fn operation(&self) -> Op {
        self.op
    }
}

/// The gradient that node `n`'s operation sends to its operand in slot `j`,
/// given the gradient `g` of its own result.
pub open(crate) spec fn delta(node: Node, g: Seq<Scalar>, j: int) -> Seq<Scalar> {
    let ins = node.ins();
    match node.op {
        Op::Leaf => Seq::empty(),
        Op::Add => g,
        Op::Mul => if j == 0 {
            mul_seq(ins[1].vals(), g)
        } else {
            mul_seq(ins[0].vals(), g)
        },
        Op::Matmul { a_transpose: at, b_transpose: bt, batches: nb, rows, inner, cols } => if j == 0 {
            if !at {
                product(g, false, ins[1].vals(), !bt, nb as int, rows as int, cols as int, inner as int)
            } else {
                product(ins[1].vals(), bt, g, true, nb as int, inner as int, cols as int, rows as int)
            }
        } else {
            if !bt {
                product(ins[0].vals(), !at, g, false, nb as int, inner as int, rows as int, cols as int)
            } else {
                product(g, true, ins[0].vals(), at, nb as int, cols as int, rows as int, inner as int)
            }
        },
        Op::Reshape => g,
        Op::Unroll { window, batches } => roll_spec(g, window, batches as int),
        Op::Roll { window, batches } => unroll_spec(g, window, batches as int),
        Op::Expand { batches, patches, filters } => transpose_spec(
            g,
            batches as int,
            filters as int,
            patches as int,
        ),
    }
}

/// The operands of a node fit its operation.
pub open(crate) spec fn op_ok(node: Node) -> bool {
    let ins = node.ins();
    match node.op {
        Op::Leaf => ins.len() == 0,
        Op::Add | Op::Mul => ins.len() == 2 && ins[0].shape() == node.shape() && ins[1].shape()
            == node.shape(),
        Op::Matmul { a_transpose: at, b_transpose: bt, batches: nb, rows, inner, cols } => {
            &&& ins.len() == 2
            &&& count(ins[0].shape()) == nb * rows * inner
            &&& count(ins[1].shape()) == nb * inner * cols
            &&& count(node.shape()) == nb * rows * cols
        },
        Op::Reshape => ins.len() == 1 && count(ins[0].shape()) == count(node.shape()),
        Op::Unroll { window, batches } => {
            &&& ins.len() == 1
            &&& window.ok()
            &&& count(ins[0].shape()) == batches * window.image_len()
            &&& count(node.shape()) == batches * window.patches() * window.patch_len()
        },
        Op::Roll { window, batches } => {
            &&& ins.len() == 1
            &&& window.ok()
            &&& count(ins[0].shape()) == batches * window.patches() * window.patch_len()
            &&& count(node.shape()) == batches * window.image_len()
        },
        Op::Expand { batches, patches, filters } => {
            &&& ins.len() == 1
            &&& count(ins[0].shape()) == batches * patches * filters
            &&& count(node.shape()) == batches * filters * patches
        },
    }
}

/// Node `i` of `nodes` is well formed: its operands are well-formed arrays,
/// tracked ones name earlier nodes of the same dimensions, and they fit the
/// operation.
pub open(crate) spec fn node_ok(nodes: Seq<Node>, i: int) -> bool {
    let n = nodes[i];
    let ins = n.ins();
    &&& count(n.shape()) <= usize::MAX
    &&& positive(n.shape())
    &&& forall|j: int|
        0 <= j < ins.len() ==> #[trigger] ins[j].vals().len() == count(ins[j].shape())
    &&& forall|j: int|
        0 <= j < ins.len() ==> (#[trigger] ins[j].handle() matches Some(c) ==> 0 <= c < i
            && nodes[c as int].shape() == ins[j].shape())
    &&& op_ok(n)
}

/// The gradient that reaches node `n` when the backward pass starts at `root`
/// with gradient `seed`: the seed at the root, otherwise the sum of what every
/// reached consumer sends to it, or `None` when nothing reaches it.
pub open(crate) spec fn grad(nodes: Seq<Node>, root: int, seed: Seq<Scalar>, n: int) -> Option<Seq<Scalar>>
    decreases 2 * (root - n) + 1,
{
    if n == root {
        Some(seed)
    } else if n < 0 || n > root {
        None
    } else {
        received(nodes, root, seed, n, n + 1)
    }
}

/// What the consumers among nodes `lo..=root` send to node `n`, taken from
/// the root down and, within a node, by operand slot.
pub open(crate) spec fn received(nodes: Seq<Node>, root: int, seed: Seq<Scalar>, n: int, lo: int) -> Option<
    Seq<Scalar>,
>
    decreases 2 * (root - lo + 1),
{
    if lo > root || lo < 0 {
        None
    } else {
        let before = received(nodes, root, seed, n, lo + 1);
        match grad(nodes, root, seed, lo) {
            Some(g) => slot_acc(nodes[lo], g, n, before, nodes[lo].ins().len() as int),
            None => before,
        }
    }
}

/// Adds to `start` what `node`, with result gradient `g`, sends to node `n`
/// through its operand slots below `j`.
pub open(crate) spec fn slot_acc(
    node: Node,
    g: Seq<Scalar>,
    n: int,
    start: Option<Seq<Scalar>>,
    j: int,
) -> Option<Seq<Scalar>>
    decreases j,
{
    if j <= 0 {
        start
    } else {
        let prev = slot_acc(node, g, n, start, j - 1);
        if node.ins()[j - 1].handle() == Some(n as usize) {
            add_opt(prev, delta(node, g, j - 1))
        } else {
            prev
        }
    }
}

proof fn lemma_mul3(a: int, b: int, c: int)
    ensures
        a * b * c == a * c * b,
        a * b * c == a * (b * c),
{
    assert(a * b * c == a * c * b) by (nonlinear_arith);
    assert(a * b * c == a * (b * c)) by (nonlinear_arith);
}

/// What a node sends to an operand has that operand's number of values.
pub proof fn lemma_delta_len(node: Node, g: Seq<Scalar>, j: int)
    requires
        op_ok(node),
        forall|k: int|
            0 <= k < node.ins().len() ==> #[trigger] node.ins()[k].vals().len() == count(
                node.ins()[k].shape(),
            ),
        g.len() == count(node.shape()),
        0 <= j < node.ins().len(),
    ensures
        delta(node, g, j).len() == count(node.ins()[j].shape()),
{
    match node.op {
        Op::Matmul { a_transpose: at, b_transpose: bt, batches: nb, rows, inner, cols } => {
            lemma_mul3(nb as int, rows as int, inner as int);
            lemma_mul3(nb as int, inner as int, cols as int);
            lemma_mul3(nb as int, cols as int, rows as int);
            lemma_mul3(nb as int, inner as int, rows as int);
            lemma_mul3(nb as int, cols as int, inner as int);
        },
        Op::Expand { batches, patches, filters } => {
            lemma_mul3(batches as int, filters as int, patches as int);
        },
        Op::Unroll { window, batches } => {
            lemma_roll_len(g, window, batches as int, batches * window.patches() * window.patch_len());
        },
        _ => {},
    }
}

impl Node {
    /// Computes what this node sends to its operand in slot `j` when its own
    /// result has gradient `g`.
    pub(crate) fn backward_op(&self, g: &Vec<Scalar>, j: usize) -> (r: Vec<Scalar>)
        requires
            op_ok(*self),
            forall|k: int|
                0 <= k < self.ins().len() ==> #[trigger] self.ins()[k].vals().len() == count(
                    self.ins()[k].shape(),
                ),
            g@.len() == count(self.shape()),
            j < self.ins().len(),
        ensures
            r@ == delta(*self, g@, j as int),
            r@.len() == count(self.ins()[j as int].shape()),
    {
        proof {
            lemma_delta_len(*self, g@, j as int);
        }
        match self.op {
            Op::Leaf => Vec::new(),
            Op::Add => copy_vec(g),
            Op::Reshape => copy_vec(g),
            Op::Mul => {
                if j == 0 {
                    mul_values(self.inputs[1].values(), g)
                } else {
                    mul_values(self.inputs[0].values(), g)
                }
            },
            Op::Matmul { a_transpose: at, b_transpose: bt, batches: nb, rows, inner, cols } => {
                let a = self.inputs[0].values();
                let b = self.inputs[1].values();
                proof {
                    lemma_mul3(nb as int, rows as int, inner as int);
                    lemma_mul3(nb as int, inner as int, cols as int);
                    lemma_mul3(nb as int, cols as int, rows as int);
                    lemma_mul3(nb as int, inner as int, rows as int);
                    lemma_mul3(nb as int, cols as int, inner as int);
                }
                let _ = (a.len(), b.len());
                if j == 0 {
                    if !at {
                        matmul_flat(g, false, b, !bt, nb, rows, cols, inner)
                    } else {
                        matmul_flat(b, bt, g, true, nb, inner, cols, rows)
                    }
                } else {
                    if !bt {
                        matmul_flat(a, !at, g, false, nb, inner, rows, cols)
                    } else {
                        matmul_flat(g, true, a, at, nb, cols, rows, inner)
                    }
                }
            },
            Op::Unroll { window, batches } => {
                let _ = self.inputs[0].values().len();
                roll_values(g, window, batches)
            },
            Op::Roll { window, batches } => {
                let _ = self.inputs[0].values().len();
                unroll_values(g, window, batches)
            },
            Op::Expand { batches, patches, filters } => {
                proof {
                    lemma_mul3(batches as int, filters as int, patches as int);
                }
                transpose_values(g, batches, filters, patches)
            },
        }
    }
}

/// The seed of a backward pass from `a`: the given gradient, or ones.
pub open(crate) spec fn seed_values(a: Array, seed: Option<Array>) -> Seq<Scalar> {
    match seed {
        Some(s) => s.vals(),
        None => ones(a.vals().len()),
    }
}

/// The seed, when given, has the dimensions of `a`.
pub open(crate) spec fn seed_fits(a: Array, seed: Option<Array>) -> bool {
    match seed {
        Some(s) => s.shape() == a.shape(),
        None => true,
    }
}

/// Some node that the pass from `root` reaches still holds a gradient.
pub open(crate) spec fn blocked(
    nodes: Seq<Node>,
    grads: Seq<Option<Seq<Scalar>>>,
    root: int,
    seed: Seq<Scalar>,
) -> bool {
    exists|n: int| 0 <= n <= root && (#[trigger] grad(nodes, root, seed, n)) is Some && grads[n] is Some
}

/// The gradients after a pass from `root`: every reached node holds what
/// reached it, the others keep theirs.
pub open(crate) spec fn after_backward(
    nodes: Seq<Node>,
    grads: Seq<Option<Seq<Scalar>>>,
    root: int,
    seed: Seq<Scalar>,
) -> Seq<Option<Seq<Scalar>>> {
    Seq::new(
        grads.len(),
        |n: int|
            if n <= root && grad(nodes, root, seed, n) is Some {
                grad(nodes, root, seed, n)
            } else {
                grads[n]
            },
    )
}

/// Number of the operand slots of `node` below `j` that name node `n`.
pub open(crate) spec fn slots_to(node: Node, n: int, j: int) -> nat
    decreases j,
{
    if j <= 0 {
        0
    } else {
        slots_to(node, n, j - 1) + if node.ins()[j - 1].handle() == Some(n as usize) {
            1nat
        } else {
            0nat
        }
    }
}

/// Number of edges into node `n` from the nodes below `hi` that the
/// backward pass from `root` reaches: its consumers, counted once per edge.
pub open(crate) spec fn consumers(nodes: Seq<Node>, root: int, n: int, hi: int) -> nat
    decreases hi,
{
    if hi <= 0 {
        0
    } else {
        let p = hi - 1;
        consumers(nodes, root, n, p) + if p <= root && grad(
            nodes,
            root,
            ones(count(nodes[root].shape())),
            p,
        ) is Some {
            slots_to(nodes[p], n, nodes[p].ins().len() as int)
        } else {
            0nat
        }
    }
}

/// `x`, or `usize::MAX` when it is larger.
pub open(crate) spec fn capped(x: nat) -> usize {
    if x > usize::MAX {
        usize::MAX
    } else {
        x as usize
    }
}

impl Graph {
    /// The recorded nodes.
    pub open(crate) spec fn structure(&self) -> Seq<Node> {
        self.nodes@
    }

    /// The gradient each node holds.
    pub open(crate) spec fn grads(&self) -> Seq<Option<Seq<Scalar>>> {
        self.gradients@.map_values(|g: Option<Vec<Scalar>>| opt_view(g))
    }

    /// The graph is well formed.
    pub open(crate) spec fn wf(&self) -> bool {
        &&& self.nodes@.len() == self.gradients@.len()
        &&& forall|i: int| 0 <= i < self.nodes@.len() ==> #[trigger] node_ok(self.nodes@, i)
        &&& forall|i: int|
            0 <= i < self.nodes@.len() ==> (#[trigger] self.grads()[i] matches Some(g) ==> g.len()
                == count(self.nodes@[i].shape()))
    }

    /// `a` is untracked, or names a node of this graph with its dimensions.
    pub open(crate) spec fn holds(&self, a: &Array) -> bool {
        a.handle() matches Some(c) ==> 0 <= c < self.nodes@.len() && self.nodes@[c as int].shape()
            == a.shape()
    }

    /// An empty graph.
    pub fn new() -> (r: Graph)
        ensures
            r.wf(),
            r.structure().len() == 0,
    {
        let r = Graph { nodes: Vec::new(), gradients: Vec::new() };
        assert(r.grads() =~= Seq::empty());
        r
    }

    /// Walks the nodes from `root` down to the first one and returns, for
    /// each node up to `root`, the sum of every gradient that reaches it.
    /// Node ids order the graph topologically, so a node is visited only
    /// after every consumer of it has sent its contribution.
    fn sweep(&self, root: usize, seed: Vec<Scalar>) -> (r: Vec<Option<Vec<Scalar>>>)
        requires
            self.wf(),
            root < self.structure().len(),
            seed@.len() == count(self.structure()[root as int].shape()),
        ensures
            r@.len() == root + 1,
            forall|n: int|
                0 <= n <= root ==> opt_view(#[trigger] r@[n]) == grad(
                    self.structure(),
                    root as int,
                    seed@,
                    n,
                ),
            forall|n: int|
                0 <= n <= root ==> (#[trigger] r@[n] matches Some(v) ==> v@.len() == count(
                    self.structure()[n].shape(),
                )),
    {
        let ghost nodes = self.nodes@;
        let ghost sd = seed@;
        let mut acc: Vec<Option<Vec<Scalar>>> = Vec::new();
        let mut i: usize = 0;
        while i < root
            invariant
                i <= root,
                acc@.len() == i,
                forall|n: int| 0 <= n < i ==> #[trigger] acc@[n] is None,
            decreases root - i,
        {
            acc.push(None);
            i += 1;
        }
        acc.push(Some(seed));
        let total = self.nodes.len();
        let mut done: usize = root + 1;
        while done > 0
            invariant
                self.wf(),
                nodes == self.nodes@,
                root < nodes.len(),
                acc@.len() == root + 1,
                done <= root + 1,
                forall|n: int|
                    0 <= n < done ==> opt_view(#[trigger] acc@[n]) == (if n == root {
                        Some(sd)
                    } else {
                        received(nodes, root as int, sd, n, done as int)
                    }),
                forall|n: int|
                    done <= n <= root ==> opt_view(#[trigger] acc@[n]) == grad(
                        nodes,
                        root as int,
                        sd,
                        n,
                    ),
                forall|n: int|
                    0 <= n <= root ==> (#[trigger] acc@[n] matches Some(v) ==> v@.len() == count(
                        nodes[n].shape(),
                    )),
            decreases done,
        {
            let p = done - 1;
            assert(node_ok(nodes, p as int));
            let gp = match &acc[p] {
                Some(v) => Some(copy_vec(v)),
                None => None,
            };
            assert(opt_view(gp) == grad(nodes, root as int, sd, p as int));
            match gp {
                Some(g) => {
                    let node = &self.nodes[p];
                    let mut j: usize = 0;
                    while j < node.inputs.len()
                        invariant
                            self.wf(),
                            nodes == self.nodes@,
                            node == nodes[p as int],
                            node_ok(nodes, p as int),
                            p < done <= root + 1,
                            root < nodes.len(),
                            acc@.len() == root + 1,
                            j <= node.ins().len(),
                            g@.len() == count(node.shape()),
                            grad(nodes, root as int, sd, p as int) == Some(g@),
                            forall|n: int|
                                0 <= n < p ==> opt_view(#[trigger] acc@[n]) == slot_acc(
                                    *node,
                                    g@,
                                    n,
                                    received(nodes, root as int, sd, n, p + 1),
                                    j as int,
                                ),
                            forall|n: int|
                                p <= n <= root ==> opt_view(#[trigger] acc@[n]) == grad(
                                    nodes,
                                    root as int,
                                    sd,
                                    n,
                                ),
                            forall|n: int|
                                0 <= n <= root ==> (#[trigger] acc@[n] matches Some(v) ==> v@.len()
                                    == count(nodes[n].shape())),
                        decreases node.ins().len() - j,
                    {
                        match node.inputs[j].node {
                            Some(c) => {
                                assert(node.ins()[j as int].handle() == Some(c));
                                assert(node.ins()[j as int].vals().len() == count(node.ins()[j as int].shape()));
                                let d = node.backward_op(&g, j);
                                let nv = match &acc[c] {
                                    Some(v) => add_values(v, &d),
                                    None => d,
                                };
                                acc.set(c, Some(nv));
                            },
                            None => {},
                        }
                        j += 1;
                    }
                },
                None => {},
            }
            done = p;
        }
        acc
    }

    /// Forgets every gradient, so that a new backward pass may reach any
    /// node.
    pub fn clear_gradients(&mut self)
        requires
            old(self).wf(),
        ensures
            final(self).wf(),
            final(self).structure() == old(self).structure(),
            final(self).grads() == Seq::new(old(self).grads().len(), |i: int| None::<Seq<Scalar>>),
    {
        let n = self.gradients.len();
        let mut i: usize = 0;
        while i < n
            invariant
                i <= n,
                n == self.gradients@.len(),
                self.nodes@ == old(self).nodes@,
                self.gradients@.len() == old(self).gradients@.len(),
                forall|k: int| 0 <= k < i ==> #[trigger] self.gradients@[k] is None,
                forall|k: int| i <= k < n ==> #[trigger] self.gradients@[k] == old(self).gradients@[k],
            decreases n - i,
        {
            self.gradients.set(i, None);
            i += 1;
        }
        assert(self.grads() =~= Seq::new(old(self).grads().len(), |i: int| None::<Seq<Scalar>>));
        assert forall|i: int| 0 <= i < self.nodes@.len() implies (#[trigger] self.grads()[i] matches Some(g) ==> g.len()
                == count(self.nodes@[i].shape())) by {}
    }

    /// The number of recorded nodes.
    pub fn len(&self) -> (r: usize)
        ensures
            r == self.structure().len(),
    {
        self.nodes.len()
    }
}

impl Array {
    /// The gradient left in this array's node by the last backward pass that
    /// reached it; `None` for an untracked array or one not reached yet.
    pub fn gradient(&self, graph: &Graph) -> (r: Option<Array>)
        requires
            graph.wf(),
            graph.holds(self),
        ensures
            self.handle() is None ==> r is None,
            self.handle() matches Some(c) ==> match graph.grads()[c as int] {
                None => r is None,
                Some(g) => r matches Some(x) && x.shape() == self.shape() && x.vals() == g
                    && x.handle() is None,
            },
    {
        proof {
            use_type_invariant(self);
        }
        match self.node {
            None => None,
            Some(c) => {
                assert(graph.grads()[c as int] == opt_view(graph.gradients@[c as int]));
                match &graph.gradients[c] {
                    None => None,
                    Some(g) => Some(Array::raw(copy_vec(self.dimensions()), copy_vec(g))),
                }
            },
        }
    }

    /// The consumer count of every node for a backward pass from this
    /// array: how many operand slots of reached nodes name it (at most
    /// `usize::MAX`). All counts are zero for an untracked array.
    pub fn propagate_consumers(&self, graph: &Graph) -> (r: Vec<usize>)
        requires
            graph.wf(),
            graph.holds(self),
        ensures
            r@.len() == graph.structure().len(),
            self.handle() is None ==> forall|n: int| 0 <= n < r@.len() ==> r@[n] == 0,
            self.handle() matches Some(root) ==> forall|n: int|
                0 <= n < r@.len() ==> #[trigger] r@[n] == capped(
                    consumers(graph.structure(), root as int, n, root + 1),
                ),
    {
        proof {
            use_type_invariant(self);
        }
        let len = graph.nodes.len();
        let mut counts: Vec<usize> = Vec::with_capacity(len);
        let mut i: usize = 0;
        while i < len
            invariant
                i <= len,
                counts@.len() == i,
                forall|n: int| 0 <= n < i ==> #[trigger] counts@[n] == 0,
            decreases len - i,
        {
            counts.push(0);
            i += 1;
        }
        let root = match self.node {
            None => {
                return counts;
            },
            Some(c) => c,
        };
        let ghost nodes = graph.nodes@;
        let n = self.values.len();
        let mut seed: Vec<Scalar> = Vec::with_capacity(n);
        let mut k: usize = 0;
        while k < n
            invariant
                k <= n,
                seed@ =~= ones(n as nat).take(k as int),
            decreases n - k,
        {
            seed.push(1);
            k += 1;
        }
        let ghost sd = seed@;
        assert(sd =~= ones(count(nodes[root as int].shape())));
        let acc = graph.sweep(root, seed);
        let mut p: usize = 0;
        while p <= root
            invariant
                graph.wf(),
                nodes == graph.nodes@,
                len == nodes.len(),
                root < len,
                p <= root + 1,
                sd == ones(count(nodes[root as int].shape())),
                acc@.len() == root + 1,
                forall|k: int|
                    0 <= k <= root ==> opt_view(#[trigger] acc@[k]) == grad(nodes, root as int, sd, k),
                counts@.len() == len,
                forall|m: int|
                    0 <= m < len ==> #[trigger] counts@[m] == capped(
                        consumers(nodes, root as int, m, p as int),
                    ),
            decreases root + 1 - p,
        {
            if acc[p].is_some() {
                let node = &graph.nodes[p];
                assert(node_ok(nodes, p as int));
                let mut j: usize = 0;
                while j < node.inputs.len()
                    invariant
                        nodes == graph.nodes@,
                        node == nodes[p as int],
                        node_ok(nodes, p as int),
                        p <= root,
                        root < len,
                        len == nodes.len(),
                        j <= node.ins().len(),
                        counts@.len() == len,
                        forall|m: int|
                            0 <= m < len ==> #[trigger] counts@[m] == capped(
                                consumers(nodes, root as int, m, p as int) + slots_to(*node, m, j as int),
                            ),
                    decreases node.ins().len() - j,
                {
                    if let Some(c) = node.inputs[j].node {
                        assert(node.ins()[j as int].handle() == Some(c));
                        let v = counts[c].saturating_add(1);
                        counts.set(c, v);
                    }
                    j += 1;
                }
            }
            p += 1;
        }
        counts
    }

    /// Runs the backward pass from this array with gradient `seed` (ones
    /// when `None`): every node the pass reaches receives the sum of the
    /// gradients its consumers send it.
    ///
    /// Fails with `ShapeMismatch` when the seed's dimensions differ from this
    /// array's, and with `DoubleBackward`, changing nothing, when a reached
    /// node still holds a gradient. An untracked array has no graph to walk.
    pub fn backward(&self, graph: &mut Graph, seed: Option<Array>) -> (r: Result<(), ArrayError>)
        requires
            old(graph).wf(),
            old(graph).holds(self),
        ensures
            final(graph).wf(),
            final(graph).structure() == old(graph).structure(),
            !seed_fits(*self, seed) ==> r == Err::<(), ArrayError>(ArrayError::ShapeMismatch)
                && final(graph).grads() == old(graph).grads(),
            seed_fits(*self, seed) && self.handle() is None ==> r == Ok::<(), ArrayError>(())
                && final(graph).grads() == old(graph).grads(),
            self.handle() matches Some(root) ==> seed_fits(*self, seed) ==> {
                let sv = seed_values(*self, seed);
                let nodes = old(graph).structure();
                let grads = old(graph).grads();
                &&& blocked(nodes, grads, root as int, sv) ==> r == Err::<(), ArrayError>(
                    ArrayError::DoubleBackward,
                ) && final(graph).grads() == grads
                &&& !blocked(nodes, grads, root as int, sv) ==> r == Ok::<(), ArrayError>(())
                    && final(graph).grads() == after_backward(nodes, grads, root as int, sv)
            },
    {
        proof {
            use_type_invariant(self);
        }
        let ghost sv = seed_values(*self, seed);
        let ghost seed0 = seed;
        let seed_vals: Vec<Scalar> = match seed {
            Some(s) => {
                if !crate::array::same_dims(s.dimensions(), self.dimensions()) {
                    return Err(ArrayError::ShapeMismatch);
                }
                copy_vec(s.values())
            },
            None => {
                let n = self.values.len();
                let mut v: Vec<Scalar> = Vec::with_capacity(n);
                let mut i: usize = 0;
                while i < n
                    invariant
                        i <= n,
                        v@ =~= ones(n as nat).take(i as int),
                    decreases n - i,
                {
                    v.push(1);
                    i += 1;
                }
                v
            },
        };
        assert(seed_vals@ =~= sv);
        assert(seed_fits(*self, seed0));
        let root = match self.node {
            None => return Ok(()),
            Some(c) => c,
        };
        let ghost nodes = graph.nodes@;
        let ghost grads0 = graph.grads();
        let _ = graph.nodes.len();
        let acc = graph.sweep(root, seed_vals);
        let mut n: usize = 0;
        while n <= root
            invariant
                graph.wf(),
                graph.nodes@ == nodes,
                graph.grads() == grads0,
                nodes == old(graph).nodes@,
                grads0 == old(graph).grads(),
                nodes.len() <= usize::MAX,
                seed0 == seed,
                seed_fits(*self, seed0),
                sv == seed_values(*self, seed0),
                self.handle() == Some(root),
                root < nodes.len(),
                n <= root + 1,
                acc@.len() == root + 1,
                forall|k: int|
                    0 <= k <= root ==> opt_view(#[trigger] acc@[k]) == grad(nodes, root as int, sv, k),
                forall|k: int|
                    0 <= k < n ==> !(grad(nodes, root as int, sv, k) is Some && grads0[k] is Some),
            decreases root + 1 - n,
        {
            assert(grads0[n as int] == opt_view(graph.gradients@[n as int]));
            if acc[n].is_some() && graph.gradients[n].is_some() {
                assert(opt_view(acc@[n as int]) == grad(nodes, root as int, sv, n as int));
                assert(blocked(nodes, grads0, root as int, sv));
                return Err(ArrayError::DoubleBackward);
            }
            n += 1;
        }
        let ghost acc0 = acc@;
        let mut acc = acc;
        assert forall|i: int|
            0 <= i < nodes.len() implies (#[trigger] graph.gradients@[i] matches Some(v) ==> v@.len()
                == count(nodes[i].shape())) by {
            assert(graph.grads()[i] == opt_view(graph.gradients@[i]));
        }
        while acc.len() > 0
            invariant
                graph.nodes@ == nodes,
                graph.gradients@.len() == nodes.len(),
                forall|i: int| 0 <= i < nodes.len() ==> #[trigger] node_ok(nodes, i),
                forall|i: int|
                    0 <= i < nodes.len() ==> (#[trigger] graph.gradients@[i] matches Some(v) ==> v@.len()
                        == count(nodes[i].shape())),
                grads0.len() == nodes.len(),
                seed_fits(*self, seed0),
                sv == seed_values(*self, seed0),
                self.handle() == Some(root),
                root < nodes.len(),
                acc@.len() <= root + 1,
                acc@ == acc0.take(acc@.len() as int),
                acc0.len() == root + 1,
                forall|k: int|
                    0 <= k <= root ==> opt_view(#[trigger] acc0[k]) == grad(nodes, root as int, sv, k),
                forall|k: int|
                    0 <= k <= root ==> (#[trigger] acc0[k] matches Some(v) ==> v@.len() == count(
                        nodes[k].shape(),
                    )),
                forall|k: int|
                    0 <= k < nodes.len() ==> #[trigger] opt_view(graph.gradients@[k]) == if acc@.len()
                        <= k <= root && grad(nodes, root as int, sv, k) is Some {
                        grad(nodes, root as int, sv, k)
                    } else {
                        grads0[k]
                    },
            decreases acc@.len(),
        {
            let k = acc.len() - 1;
            let x = acc.pop();
            assert(x == Some(acc0[k as int]));
            match x {
                Some(Some(v)) => {
                    graph.gradients.set(k, Some(v));
                },
                _ => {},
            }
        }
        assert(graph.grads() =~= after_backward(nodes, grads0, root as int, sv));
        assert forall|i: int|
            0 <= i < graph.nodes@.len() implies (#[trigger] graph.grads()[i] matches Some(g) ==> g.len()
                == count(graph.nodes@[i].shape())) by {
            assert(graph.grads()[i] == opt_view(graph.gradients@[i]));
        }
        Ok(())
    }
}

} // verus!
