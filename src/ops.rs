use vstd::prelude::*;

use crate::array::{copy_vec, Array, ArrayError};
use crate::graph::{node_ok, op_ok, same_array, Graph, Node, Op};
use crate::matmul::{
    batch_of, inner_a, inner_b, matmul_dims, matmul_flat, matmul_ok, matmul_values, outer_a,
    outer_b,
};
use crate::image::{
    conv_dims, conv_fits, conv_lead, conv_ok, conv_values, conv_window, filter_count, filter_lead, lead, lemma_sizes, roll_ok, roll_spec, roll_values, transpose_spec, transpose_values, unroll_ok,
    unroll_spec, unroll_values, window_for, window_of, Window,
};
use crate::numbers::{add_seq, add_values, mul_seq, mul_values, Scalar};
use crate::shape::{
    count, lemma_count2, lemma_count3, lemma_count4, lemma_count_prefix_le, lemma_count_push, lemma_count_split, positive,
};

verus! {

/// A node with well-formed operands, each of which is untracked or names a
/// node of `nodes` with its dimensions, fits after `nodes`.
proof fn lemma_new_node_ok(nodes: Seq<Node>, n: Node)
    requires
        count(n.shape()) <= usize::MAX,
        positive(n.shape()),
        op_ok(n),
        forall|j: int|
            0 <= j < n.ins().len() ==> #[trigger] n.ins()[j].vals().len() == count(n.ins()[j].shape()),
        forall|j: int|
            0 <= j < n.ins().len() ==> (#[trigger] n.ins()[j].handle() matches Some(c) ==> 0 <= c
                < nodes.len() && nodes[c as int].shape() == n.ins()[j].shape()),
    ensures
        node_ok(nodes.push(n), nodes.len() as int),
{
    let all = nodes.push(n);
    assert(all[nodes.len() as int] == n);
    assert forall|j: int| 0 <= j < n.ins().len() implies (#[trigger] n.ins()[j].handle() matches Some(c)
        ==> 0 <= c < nodes.len() && all[c as int].shape() == n.ins()[j].shape()) by {
        if let Some(c) = n.ins()[j].handle() {
            assert(all[c as int] == nodes[c as int]);
        }
    }
}

/// The element count of an operand is that of its batch dimensions times
/// that of its matrix.
proof fn lemma_count_matrix(a: Seq<usize>, at: bool)
    requires
        a.len() >= 1,
    ensures
        count(a) == count(batch_of(a)) * outer_a(a, at) * inner_a(a, at),
        count(a) == count(batch_of(a)) * inner_b(a, at) * outer_b(a, at),
{
    let n = a.len();
    if n >= 2 {
        let d = a.drop_last();
        assert(d.drop_last() =~= a.take(n - 2));
        let c = count(a.take(n - 2)) as int;
        let x = a[n - 2] as int;
        let y = a[n - 1] as int;
        assert(count(a) == count(d) * (y as nat));
        assert(count(d) == count(d.drop_last()) * (x as nat));
        assert(count(a) == c * x * y);
        assert(c * x * y == c * y * x) by (nonlinear_arith);
    } else {
        assert(a.drop_last() =~= Seq::<usize>::empty());
        assert(count(a) == count(a.drop_last()) * (a[0] as nat));
        assert(count(a.drop_last()) == 1);
        assert(count(batch_of(a)) == 1);
        let x = a[0] as int;
        assert(count(a) == 1 * x);
        assert(1 * 1 * x == x && 1 * x * 1 == x) by (nonlinear_arith);
    }
}

/// The element count of the first `la` dimensions, which `ad` and `bd`
/// share; `None` when they differ.
fn shared_batch(ad: &Vec<usize>, bd: &Vec<usize>, la: usize) -> (r: Option<usize>)
    requires
        la <= ad@.len(),
        la <= bd@.len(),
        positive(ad@),
        count(ad@) <= usize::MAX,
    ensures
        r is Some <==> ad@.take(la as int) == bd@.take(la as int),
        r matches Some(nb) ==> nb == count(ad@.take(la as int)),
{
    let mut nb: usize = 1;
    let mut k: usize = 0;
    while k < la
        invariant
            la <= ad@.len(),
            la <= bd@.len(),
            k <= la,
            positive(ad@),
            count(ad@) <= usize::MAX,
            nb == count(ad@.take(k as int)),
            forall|i: int| 0 <= i < k ==> ad@[i] == bd@[i],
        decreases la - k,
    {
        if ad[k] != bd[k] {
            assert(ad@.take(la as int)[k as int] != bd@.take(la as int)[k as int]);
            return None;
        }
        proof {
            lemma_count_prefix_le(ad@, k as int + 1);
            lemma_count_push(ad@.take(k as int), ad@[k as int]);
            assert(ad@.take(k as int).push(ad@[k as int]) =~= ad@.take(k as int + 1));
        }
        nb = nb * ad[k];
        k += 1;
    }
    assert(ad@.take(la as int) =~= bd@.take(la as int));
    Some(nb)
}

/// The first `k` dimensions of `d`.
fn copy_prefix(d: &Vec<usize>, k: usize) -> (r: Vec<usize>)
    requires
        k <= d@.len(),
    ensures
        r@ == d@.take(k as int),
{
    let mut r: Vec<usize> = Vec::new();
    let mut i: usize = 0;
    while i < k
        invariant
            i <= k,
            k <= d@.len(),
            r@ =~= d@.take(i as int),
        decreases k - i,
    {
        r.push(d[i]);
        i += 1;
    }
    r
}

/// The element count of the first `k` of the positive dimensions `d`, and
/// how the whole count splits at `k`.
fn prefix_count(d: &Vec<usize>, k: usize) -> (r: usize)
    requires
        k <= d@.len(),
        positive(d@),
        count(d@) <= usize::MAX,
    ensures
        r == count(d@.take(k as int)),
        count(d@) == r * count(d@.skip(k as int)),
        r >= 1,
{
    proof {
        lemma_count_split(d@, k as int);
        lemma_count_prefix_le(d@, k as int);
        lemma_count_positive(d@.take(k as int));
    }
    let p = copy_prefix(d, k);
    match crate::shape::element_count(&p) {
        Some(n) => n,
        None => 1,
    }
}

/// Positive dimensions hold at least one element.
proof fn lemma_count_positive(d: Seq<usize>)
    requires
        positive(d),
    ensures
        count(d) >= 1,
    decreases d.len(),
{
    if d.len() > 0 {
        lemma_count_positive(d.drop_last());
        let c = count(d.drop_last());
        let l = d.last() as nat;
        assert(c * l >= 1) by (nonlinear_arith)
            requires
                c >= 1,
                l >= 1,
        ;
    }
}

/// One operand is tracked exactly when it is.
proof fn lemma_any_tracked1(x: Array)
    ensures
        any_tracked(seq![x]) <==> x.handle() is Some,
{
    if x.handle() is Some {
        assert(seq![x][0] == x);
    }
}

/// Two operands are tracked exactly when one of them is.
proof fn lemma_any_tracked2(x: Array, y: Array)
    ensures
        any_tracked(seq![x, y]) <==> (x.handle() is Some || y.handle() is Some),
{
    if x.handle() is Some {
        assert(seq![x, y][0] == x);
    }
    if y.handle() is Some {
        assert(seq![x, y][1] == y);
    }
}

/// Some operand is tracked.
pub open(crate) spec fn any_tracked(ins: Seq<Array>) -> bool {
    exists|j: int| 0 <= j < ins.len() && (#[trigger] ins[j]).handle() is Some
}

impl Graph {
    /// `new` holds every node and gradient of `old`, and perhaps more nodes.
    pub open(crate) spec fn extends(&self, new: &Graph) -> bool {
        &&& self.structure().len() <= new.structure().len()
        &&& self.grads().len() <= new.grads().len()
        &&& new.structure().take(self.structure().len() as int) == self.structure()
        &&& new.grads().take(self.grads().len() as int) == self.grads()
    }

    /// `new` is `self` with one more node, of dimensions `dims`, operation
    /// `op` and operands `ins`, which holds no gradient.
    pub open(crate) spec fn pushed(&self, new: &Graph, dims: Seq<usize>, op: Op, ins: Seq<Array>) -> bool {
        let last = new.structure().last();
        &&& new.structure().len() == self.structure().len() + 1
        &&& new.structure().drop_last() == self.structure()
        &&& new.grads() == self.grads().push(None)
        &&& last.shape() == dims
        &&& last.op == op
        &&& last.ins().len() == ins.len()
        &&& forall|j: int| 0 <= j < ins.len() ==> same_array(#[trigger] last.ins()[j], ins[j])
    }

    /// The result `r` of an operation with operands `ins` is recorded: as a
    /// new node when some operand is tracked, not at all otherwise.
    pub open(crate) spec fn records(&self, new: &Graph, r: Array, op: Op, ins: Seq<Array>) -> bool {
        if any_tracked(ins) {
            self.pushed(new, r.shape(), op, ins) && r.handle() == Some(self.structure().len() as usize)
        } else {
            new.structure() == self.structure() && new.grads() == self.grads() && r.handle() is None
        }
    }

    pub(crate) proof fn lemma_extends_holds(&self, new: &Graph, a: &Array)
        requires
            self.extends(new),
            self.holds(a),
        ensures
            new.holds(a),
    {
        if let Some(c) = a.handle() {
            assert(new.structure()[c as int] == new.structure().take(self.structure().len() as int)[c as int]);
        }
    }

    /// Recording is the same for operands that agree in dimensions, values
    /// and nodes.
    proof fn lemma_records_same(old: &Graph, new: &Graph, r: Array, op: Op, x: Seq<Array>, y: Seq<Array>)
        requires
            old.records(new, r, op, x),
            x.len() == y.len(),
            forall|j: int| 0 <= j < x.len() ==> same_array(#[trigger] x[j], y[j]),
        ensures
            old.records(new, r, op, y),
    {
        if any_tracked(x) {
            let k = choose|k: int| 0 <= k < x.len() && (#[trigger] x[k]).handle() is Some;
            assert(same_array(x[k], y[k]));
            assert(y[k].handle() is Some);
        }
        if any_tracked(y) {
            let k = choose|k: int| 0 <= k < y.len() && (#[trigger] y[k]).handle() is Some;
            assert(same_array(x[k], y[k]));
            assert(x[k].handle() is Some);
        }
        if any_tracked(x) {
            let last = new.structure().last();
            assert forall|j: int| 0 <= j < y.len() implies same_array(#[trigger] last.ins()[j], y[j]) by {
                assert(same_array(last.ins()[j], x[j]));
                assert(same_array(x[j], y[j]));
            }
        }
    }

    pub(crate) proof fn lemma_extends_refl(g: &Graph)
        ensures
            g.extends(g),
    {
        assert(g.structure().take(g.structure().len() as int) =~= g.structure());
        assert(g.grads().take(g.grads().len() as int) =~= g.grads());
    }

    pub(crate) proof fn lemma_extends_trans(a: &Graph, b: &Graph, c: &Graph)
        requires
            a.extends(b),
            b.extends(c),
        ensures
            a.extends(c),
    {
        assert(c.structure().take(a.structure().len() as int) =~= b.structure().take(a.structure().len() as int));
        assert(c.grads().take(a.grads().len() as int) =~= b.grads().take(a.grads().len() as int));
    }

    /// Appends a node without gradient and returns its id.
    fn push_node(&mut self, dimensions: Vec<usize>, op: Op, inputs: Vec<Array>) -> (id: usize)
        requires
            old(self).wf(),
            node_ok(old(self).structure().push(Node { dimensions, op, inputs }), old(self).structure().len() as int),
        ensures
            final(self).wf(),
            final(self).structure() == old(self).structure().push(Node { dimensions, op, inputs }),
            final(self).grads() == old(self).grads().push(None),
            id == old(self).structure().len(),
    {
        let ghost n = Node { dimensions, op, inputs };
        let ghost old_nodes = self.nodes@;
        let id = self.nodes.len();
        self.nodes.push(Node { dimensions, op, inputs });
        self.gradients.push(None);
        assert(self.grads() =~= old(self).grads().push(None));
        assert forall|i: int| 0 <= i < self.nodes@.len() implies #[trigger] node_ok(self.nodes@, i) by {
            if i < old_nodes.len() {
                assert(node_ok(old_nodes, i));
                assert forall|j: int| 0 <= j < old_nodes[i].ins().len() implies (
                    #[trigger] old_nodes[i].ins()[j].handle() matches Some(c) ==> 0 <= c < i
                        && self.nodes@[c as int].shape() == old_nodes[i].ins()[j].shape()) by {
                    if let Some(c) = old_nodes[i].ins()[j].handle() {
                        assert(self.nodes@[c as int] == old_nodes[c as int]);
                    }
                }
            }
        }
        id
    }

    /// Records the result of an operation when some operand is tracked and
    /// returns it, naming its node.
    fn record(&mut self, dimensions: Vec<usize>, values: Vec<Scalar>, op: Op, inputs: Vec<Array>) -> (r: Array)
        requires
            old(self).wf(),
            values@.len() == count(dimensions@),
            positive(dimensions@),
            node_ok(old(self).structure().push(Node { dimensions, op, inputs }), old(self).structure().len() as int),
        ensures
            final(self).wf(),
            old(self).extends(final(self)),
            old(self).records(final(self), r, op, inputs@),
            r.shape() == dimensions@,
            r.vals() == values@,
            final(self).holds(&r),
    {
        let ghost ins = inputs@;
        let mut any = false;
        let mut j: usize = 0;
        while j < inputs.len()
            invariant
                j <= inputs@.len(),
                any == exists|k: int| 0 <= k < j && (#[trigger] inputs@[k]).handle() is Some,
            decreases inputs@.len() - j,
        {
            if inputs[j].is_tracked() {
                any = true;
            }
            j += 1;
        }
        if any {
            let dims = copy_vec(&dimensions);
            let id = self.push_node(dimensions, op, inputs);
            let r = Array { dimensions: dims, values, node: Some(id) };
            assert(self.structure().drop_last() =~= old(self).structure());
            assert(self.structure().take(old(self).structure().len() as int) =~= old(self).structure());
            assert(self.grads().take(old(self).grads().len() as int) =~= old(self).grads());
            r
        } else {
            assert(self.structure().take(old(self).structure().len() as int) =~= old(self).structure());
            assert(self.grads().take(old(self).grads().len() as int) =~= old(self).grads());
            Array::raw(dimensions, values)
        }
    }
}

impl Array {
    /// A tracked copy of this array: a new leaf of `graph` when the array is
    /// untracked, the array itself otherwise.
    pub fn track(&self, graph: &mut Graph) -> (r: Array)
        requires
            old(graph).wf(),
            old(graph).holds(self),
        ensures
            final(graph).wf(),
            old(graph).extends(final(graph)),
            final(graph).holds(&r),
            r.shape() == self.shape(),
            r.vals() == self.vals(),
            r.handle() is Some,
            self.handle() is Some ==> r.handle() == self.handle() && final(graph).structure()
                == old(graph).structure() && final(graph).grads() == old(graph).grads(),
            self.handle() is None ==> r.handle() == Some(old(graph).structure().len() as usize)
                && old(graph).pushed(final(graph), self.shape(), Op::Leaf, Seq::empty()),
    {
        proof {
            use_type_invariant(self);
        }
        if self.node.is_some() {
            assert(graph.structure().take(graph.structure().len() as int) =~= graph.structure());
            assert(graph.grads().take(graph.grads().len() as int) =~= graph.grads());
            return self.clone();
        }
        let dims = copy_vec(self.dimensions());
        let _ = self.values().len();
        let ins: Vec<Array> = Vec::new();
        proof {
            lemma_new_node_ok(graph.structure(), Node { dimensions: dims, op: Op::Leaf, inputs: ins });
        }
        let id = graph.push_node(dims, Op::Leaf, ins);
        assert(graph.structure().drop_last() =~= old(graph).structure());
        assert(graph.structure().take(old(graph).structure().len() as int) =~= old(graph).structure());
        assert(graph.grads().take(old(graph).grads().len() as int) =~= old(graph).grads());
        Array { dimensions: copy_vec(self.dimensions()), values: copy_vec(self.values()), node: Some(id) }
    }

    /// Starts recording operations on this array, making it a new leaf of
    /// `graph` when it is untracked.
    pub fn start_tracking(&mut self, graph: &mut Graph)
        requires
            old(graph).wf(),
            old(graph).holds(old(self)),
        ensures
            final(graph).wf(),
            old(graph).extends(final(graph)),
            final(graph).holds(final(self)),
            final(self).shape() == old(self).shape(),
            final(self).vals() == old(self).vals(),
            final(self).handle() is Some,
            old(self).handle() is Some ==> final(self).handle() == old(self).handle(),
    {
        *self = self.track(graph);
    }

    /// Element-wise sum. Fails with `ShapeMismatch` when the dimensions
    /// differ.
    pub fn add(graph: &mut Graph, a: &Array, b: &Array) -> (r: Result<Array, ArrayError>)
        requires
            old(graph).wf(),
            old(graph).holds(a),
            old(graph).holds(b),
        ensures
            final(graph).wf(),
            old(graph).extends(final(graph)),
            a.shape() != b.shape() ==> r == Err::<Array, ArrayError>(ArrayError::ShapeMismatch)
                && final(graph).structure() == old(graph).structure() && final(graph).grads()
                == old(graph).grads(),
            a.shape() == b.shape() ==> (r matches Ok(c) && c.shape() == a.shape() && c.vals()
                == add_seq(a.vals(), b.vals()) && old(graph).records(final(graph), c, Op::Add, seq![*a, *b])
                && final(graph).holds(&c)),
            r matches Ok(c) ==> (c.handle() is Some <==> (a.handle() is Some || b.handle() is Some)),
    {
        proof {
            use_type_invariant(a);
            use_type_invariant(b);
        }
        let _ = a.values().len();
        if !crate::array::same_dims(a.dimensions(), b.dimensions()) {
            assert(graph.structure().take(graph.structure().len() as int) =~= graph.structure());
            assert(graph.grads().take(graph.grads().len() as int) =~= graph.grads());
            return Err(ArrayError::ShapeMismatch);
        }
        let values = add_values(a.values(), b.values());
        let inputs = vec![a.clone(), b.clone()];
        let dims = copy_vec(a.dimensions());
        proof {
            lemma_new_node_ok(graph.structure(), Node { dimensions: dims, op: Op::Add, inputs });
        }
        let r = graph.record(dims, values, Op::Add, inputs);
        proof {
            Graph::lemma_records_same(&*old(graph), &*graph, r, Op::Add, inputs@, seq![*a, *b]);
            lemma_any_tracked2(*a, *b);
        }
        Ok(r)
    }

    /// Element-wise (Hadamard) product. Fails with `ShapeMismatch` when the dimensions
    /// differ.
    pub fn mul(graph: &mut Graph, a: &Array, b: &Array) -> (r: Result<Array, ArrayError>)
        requires
            old(graph).wf(),
            old(graph).holds(a),
            old(graph).holds(b),
        ensures
            final(graph).wf(),
            old(graph).extends(final(graph)),
            a.shape() != b.shape() ==> r == Err::<Array, ArrayError>(ArrayError::ShapeMismatch)
                && final(graph).structure() == old(graph).structure() && final(graph).grads()
                == old(graph).grads(),
            a.shape() == b.shape() ==> (r matches Ok(c) && c.shape() == a.shape() && c.vals()
                == mul_seq(a.vals(), b.vals()) && old(graph).records(final(graph), c, Op::Mul, seq![*a, *b])
                && final(graph).holds(&c)),
            r matches Ok(c) ==> (c.handle() is Some <==> (a.handle() is Some || b.handle() is Some)),
    {
        proof {
            use_type_invariant(a);
            use_type_invariant(b);
        }
        let _ = a.values().len();
        if !crate::array::same_dims(a.dimensions(), b.dimensions()) {
            assert(graph.structure().take(graph.structure().len() as int) =~= graph.structure());
            assert(graph.grads().take(graph.grads().len() as int) =~= graph.grads());
            return Err(ArrayError::ShapeMismatch);
        }
        let values = mul_values(a.values(), b.values());
        let inputs = vec![a.clone(), b.clone()];
        let dims = copy_vec(a.dimensions());
        proof {
            lemma_new_node_ok(graph.structure(), Node { dimensions: dims, op: Op::Mul, inputs });
        }
        let r = graph.record(dims, values, Op::Mul, inputs);
        proof {
            Graph::lemma_records_same(&*old(graph), &*graph, r, Op::Mul, inputs@, seq![*a, *b]);
            lemma_any_tracked2(*a, *b);
        }
        Ok(r)
    }

    /// Matrix product of `a` by `b`, each optionally transposed. The last
    /// two dimensions of an operand form its matrix and the ones before are
    /// batch dimensions, which must agree; a vector is a row on the left and
    /// a column on the right. Fails with `DimMismatch` when an operand has no
    /// dimension, the batch dimensions differ or the contraction lengths do.
    #[verifier::rlimit(60)]
    pub fn matmul(graph: &mut Graph, a: &Array, b: &Array, a_transpose: bool, b_transpose: bool) -> (r:
        Result<Array, ArrayError>)
        requires
            old(graph).wf(),
            old(graph).holds(a),
            old(graph).holds(b),
            matmul_ok(a.shape(), b.shape(), a_transpose, b_transpose) ==> count(
                matmul_dims(a.shape(), b.shape(), a_transpose, b_transpose),
            ) <= usize::MAX,
        ensures
            final(graph).wf(),
            old(graph).extends(final(graph)),
            !matmul_ok(a.shape(), b.shape(), a_transpose, b_transpose) ==> r == Err::<Array, ArrayError>(
                ArrayError::DimMismatch,
            ) && final(graph).structure() == old(graph).structure() && final(graph).grads()
                == old(graph).grads(),
            matmul_ok(a.shape(), b.shape(), a_transpose, b_transpose) ==> (r matches Ok(c) && c.shape()
                == matmul_dims(a.shape(), b.shape(), a_transpose, b_transpose) && c.vals()
                == matmul_values(a.shape(), a.vals(), b.shape(), b.vals(), a_transpose, b_transpose)
                && old(graph).records(
                final(graph),
                c,
                Op::Matmul {
                    a_transpose,
                    b_transpose,
                    batches: count(batch_of(a.shape())) as usize,
                    rows: outer_a(a.shape(), a_transpose) as usize,
                    inner: inner_a(a.shape(), a_transpose) as usize,
                    cols: outer_b(b.shape(), b_transpose) as usize,
                },
                seq![*a, *b],
            ) && final(graph).holds(&c)),
            r matches Ok(c) ==> (c.handle() is Some <==> (a.handle() is Some || b.handle() is Some)),
    {
        proof {
            use_type_invariant(a);
            use_type_invariant(b);
            assert(graph.structure().take(graph.structure().len() as int) =~= graph.structure());
            assert(graph.grads().take(graph.grads().len() as int) =~= graph.grads());
        }
        let ad = a.dimensions();
        let bd = b.dimensions();
        let _ = a.values().len();
        let _ = b.values().len();
        let ra = ad.len();
        let rb = bd.len();
        if ra == 0 || rb == 0 {
            return Err(ArrayError::DimMismatch);
        }
        let la: usize = if ra >= 2 { ra - 2 } else { 0 };
        let lb: usize = if rb >= 2 { rb - 2 } else { 0 };
        assert(batch_of(ad@) =~= ad@.take(la as int));
        assert(batch_of(bd@) =~= bd@.take(lb as int));
        if la != lb {
            return Err(ArrayError::DimMismatch);
        }
        let nb = match shared_batch(ad, bd, la) {
            Some(nb) => nb,
            None => {
                return Err(ArrayError::DimMismatch);
            },
        };
        assert(ad@.take(la as int) =~= bd@.take(lb as int));
        let rows: usize = if ra >= 2 {
            if a_transpose { ad[ra - 1] } else { ad[ra - 2] }
        } else {
            1
        };
        let inner: usize = if ra >= 2 {
            if a_transpose { ad[ra - 2] } else { ad[ra - 1] }
        } else {
            ad[0]
        };
        let inner_right: usize = if rb >= 2 {
            if b_transpose { bd[rb - 1] } else { bd[rb - 2] }
        } else {
            bd[0]
        };
        let cols: usize = if rb >= 2 {
            if b_transpose { bd[rb - 2] } else { bd[rb - 1] }
        } else {
            1
        };
        if inner != inner_right {
            return Err(ArrayError::DimMismatch);
        }
        let mut dims: Vec<usize> = Vec::new();
        let mut i: usize = 0;
        while i < la
            invariant
                i <= la,
                la <= ad@.len(),
                dims@ =~= ad@.take(i as int),
            decreases la - i,
        {
            dims.push(ad[i]);
            i += 1;
        }
        if ra >= 2 {
            dims.push(rows);
        }
        dims.push(cols);
        proof {
            lemma_count_matrix(ad@, a_transpose);
            lemma_count_matrix(bd@, b_transpose);
            let bt = batch_of(ad@);
            if ra >= 2 {
                assert(dims@ =~= bt.push(rows).push(cols));
                lemma_count_push(bt, rows);
                lemma_count_push(bt.push(rows), cols);
            } else {
                assert(dims@ =~= bt.push(cols));
                lemma_count_push(bt, cols);
                assert(count(bt) * 1 == count(bt)) by (nonlinear_arith);
            }
            assert forall|q: int| 0 <= q < dims@.len() implies #[trigger] dims@[q] >= 1 by {
                if q < la {
                    assert(dims@[q] == ad@[q]);
                }
            }
        }
        let values = matmul_flat(a.values(), a_transpose, b.values(), b_transpose, nb, rows, inner, cols);
        let inputs = vec![a.clone(), b.clone()];
        let op = Op::Matmul { a_transpose, b_transpose, batches: nb, rows, inner, cols };
        proof {
            lemma_new_node_ok(graph.structure(), Node { dimensions: dims, op, inputs });
        }
        let r = graph.record(dims, values, op, inputs);
        proof {
            Graph::lemma_records_same(&*old(graph), &*graph, r, op, inputs@, seq![*a, *b]);
            lemma_any_tracked2(*a, *b);
        }
        Ok(r)
    }

    /// Copies every patch of size `filter_dimensions`, taken
    /// `stride_dimensions` apart, of the images formed by the last three
    /// dimensions (depth, rows, columns) into one row of a matrix, one
    /// matrix per image. Fails with `DimMismatch` when the array has fewer
    /// than three dimensions, a stride or filter size is zero, or the filter
    /// does not fit in the image.
    pub fn unroll_blocks(
        graph: &mut Graph,
        image: &Array,
        stride_dimensions: (usize, usize),
        filter_dimensions: (usize, usize),
    ) -> (r: Result<Array, ArrayError>)
        requires
            old(graph).wf(),
            old(graph).holds(image),
            unroll_ok(image.shape(), stride_dimensions, filter_dimensions) ==> ({
                let w = window_of(image.shape(), stride_dimensions, filter_dimensions);
                count(lead(image.shape(), 3)) * w.patches() * w.patch_len() <= usize::MAX
            }),
        ensures
            final(graph).wf(),
            old(graph).extends(final(graph)),
            !unroll_ok(image.shape(), stride_dimensions, filter_dimensions) ==> r == Err::<
                Array,
                ArrayError,
            >(ArrayError::DimMismatch) && final(graph).structure() == old(graph).structure()
                && final(graph).grads() == old(graph).grads(),
            unroll_ok(image.shape(), stride_dimensions, filter_dimensions) ==> ({
                let w = window_of(image.shape(), stride_dimensions, filter_dimensions);
                let nb = count(lead(image.shape(), 3));
                r matches Ok(u) && u.shape() == lead(image.shape(), 3).push(w.patches() as usize).push(
                    w.patch_len() as usize,
                ) && u.vals() == unroll_spec(image.vals(), w, nb as int) && old(graph).records(
                    final(graph),
                    u,
                    Op::Unroll { window: w, batches: nb as usize },
                    seq![*image],
                ) && final(graph).holds(&u)
            }),
            r matches Ok(u) ==> (u.handle() is Some <==> image.handle() is Some),
    {
        proof {
            use_type_invariant(image);
            assert(graph.structure().take(graph.structure().len() as int) =~= graph.structure());
            assert(graph.grads().take(graph.grads().len() as int) =~= graph.grads());
        }
        let d = image.dimensions();
        let _ = image.values().len();
        let n = d.len();
        if n < 3 {
            return Err(ArrayError::DimMismatch);
        }
        let w = Window {
            depth: d[n - 3],
            rows: d[n - 2],
            cols: d[n - 1],
            stride_rows: stride_dimensions.0,
            stride_cols: stride_dimensions.1,
            filter_rows: filter_dimensions.0,
            filter_cols: filter_dimensions.1,
        };
        assert(w == window_of(d@, stride_dimensions, filter_dimensions));
        if !w.is_ok() {
            return Err(ArrayError::DimMismatch);
        }
        let nb = prefix_count(d, n - 3);
        proof {
            lemma_sizes(w, nb as int);
            let tail = d@.skip(n - 3);
            lemma_count3(tail);
            assert(tail[0] == w.depth && tail[1] == w.rows && tail[2] == w.cols);
            let (pp, ql) = (w.patches(), w.patch_len());
            assert(nb * pp <= nb * pp * ql && w.depth * w.filter_rows <= ql && pp * 1 <= pp * ql) by (nonlinear_arith)
                requires
                    pp >= 1,
                    ql >= 1,
                    nb >= 1,
                    ql == w.depth * w.filter_rows * w.filter_cols,
                    w.filter_cols >= 1,
            ;
        }
        let orr = (w.rows - w.filter_rows) / w.stride_rows + 1;
        let oc = (w.cols - w.filter_cols) / w.stride_cols + 1;
        let pp = orr * oc;
        let ql = w.depth * w.filter_rows * w.filter_cols;
        let values = unroll_values(image.values(), w, nb);
        let mut dims = copy_prefix(d, n - 3);
        dims.push(pp);
        dims.push(ql);
        proof {
            let l = d@.take(n - 3);
            assert(dims@ =~= l.push(pp).push(ql));
            lemma_count_push(l, pp);
            lemma_count_push(l.push(pp), ql);
            assert forall|q: int| 0 <= q < dims@.len() implies #[trigger] dims@[q] >= 1 by {
                if q < n - 3 {
                    assert(dims@[q] == d@[q]);
                }
            }
        }
        let inputs = vec![image.clone()];
        let op = Op::Unroll { window: w, batches: nb };
        proof {
            lemma_new_node_ok(graph.structure(), Node { dimensions: dims, op, inputs });
        }
        let r = graph.record(dims, values, op, inputs);
        proof {
            Graph::lemma_records_same(&*old(graph), &*graph, r, op, inputs@, seq![*image]);
            lemma_any_tracked1(*image);
        }
        Ok(r)
    }

    /// Adds every row of the unrolled matrices back into the patch of the
    /// image, of dimensions `image_dimensions` (depth, rows, columns), that
    /// it was copied from; values of overlapping patches add up, which makes
    /// this the adjoint of `unroll_blocks`. Fails with `DimMismatch` when the
    /// array has fewer than two dimensions, the window is ill formed, or the
    /// last two dimensions are not the number of patches and their length.
    pub fn roll_blocks(
        graph: &mut Graph,
        unrolled: &Array,
        image_dimensions: (usize, usize, usize),
        stride_dimensions: (usize, usize),
        filter_dimensions: (usize, usize),
    ) -> (r: Result<Array, ArrayError>)
        requires
            old(graph).wf(),
            old(graph).holds(unrolled),
            roll_ok(unrolled.shape(), image_dimensions, stride_dimensions, filter_dimensions) ==> count(
                lead(unrolled.shape(), 2),
            ) * window_for(image_dimensions, stride_dimensions, filter_dimensions).image_len()
                <= usize::MAX,
        ensures
            final(graph).wf(),
            old(graph).extends(final(graph)),
            !roll_ok(unrolled.shape(), image_dimensions, stride_dimensions, filter_dimensions) ==> r
                == Err::<Array, ArrayError>(ArrayError::DimMismatch) && final(graph).structure()
                == old(graph).structure() && final(graph).grads() == old(graph).grads(),
            roll_ok(unrolled.shape(), image_dimensions, stride_dimensions, filter_dimensions) ==> ({
                let w = window_for(image_dimensions, stride_dimensions, filter_dimensions);
                let nb = count(lead(unrolled.shape(), 2));
                r matches Ok(x) && x.shape() == lead(unrolled.shape(), 2).push(image_dimensions.0).push(
                    image_dimensions.1,
                ).push(image_dimensions.2) && x.vals() == roll_spec(unrolled.vals(), w, nb as int)
                    && old(graph).records(
                    final(graph),
                    x,
                    Op::Roll { window: w, batches: nb as usize },
                    seq![*unrolled],
                ) && final(graph).holds(&x)
            }),
            r matches Ok(x) ==> (x.handle() is Some <==> unrolled.handle() is Some),
    {
        proof {
            use_type_invariant(unrolled);
            assert(graph.structure().take(graph.structure().len() as int) =~= graph.structure());
            assert(graph.grads().take(graph.grads().len() as int) =~= graph.grads());
        }
        let d = unrolled.dimensions();
        let _ = unrolled.values().len();
        let n = d.len();
        let w = Window {
            depth: image_dimensions.0,
            rows: image_dimensions.1,
            cols: image_dimensions.2,
            stride_rows: stride_dimensions.0,
            stride_cols: stride_dimensions.1,
            filter_rows: filter_dimensions.0,
            filter_cols: filter_dimensions.1,
        };
        if n < 2 || !w.is_ok() {
            return Err(ArrayError::DimMismatch);
        }
        let orr = (w.rows - w.filter_rows) / w.stride_rows + 1;
        let oc = (w.cols - w.filter_cols) / w.stride_cols + 1;
        proof {
            assert(w.depth * w.filter_rows <= w.depth * w.filter_rows * w.filter_cols) by (nonlinear_arith)
                requires
                    w.filter_cols >= 1,
            ;
        }
        let pp = match orr.checked_mul(oc) {
            Some(x) => x,
            None => {
                return Err(ArrayError::DimMismatch);
            },
        };
        let ql = match w.depth.checked_mul(w.filter_rows) {
            Some(x) => match x.checked_mul(w.filter_cols) {
                Some(y) => y,
                None => {
                    return Err(ArrayError::DimMismatch);
                },
            },
            None => {
                return Err(ArrayError::DimMismatch);
            },
        };
        if d[n - 2] != pp || d[n - 1] != ql {
            return Err(ArrayError::DimMismatch);
        }
        let nb = prefix_count(d, n - 2);
        proof {
            lemma_sizes(w, nb as int);
            lemma_count_matrix(d@, false);
            assert(batch_of(d@) == d@.take(n - 2));
            let il = w.image_len();
            assert(w.depth * w.rows <= il && il <= nb * il && nb * w.depth <= nb * w.depth * w.rows
                && nb * w.depth * w.rows <= nb * w.depth * w.rows * w.cols && nb * il == nb * w.depth * w.rows * w.cols) by (nonlinear_arith)
                requires
                    il == w.depth * w.rows * w.cols,
                    w.cols >= 1,
                    w.rows >= 1,
                    nb >= 1,
                    il >= 1,
            ;
        }
        let values = roll_values(unrolled.values(), w, nb);
        let mut dims = copy_prefix(d, n - 2);
        dims.push(w.depth);
        dims.push(w.rows);
        dims.push(w.cols);
        proof {
            let l = d@.take(n - 2);
            assert(dims@ =~= l.push(w.depth).push(w.rows).push(w.cols));
            lemma_count_push(l, w.depth);
            lemma_count_push(l.push(w.depth), w.rows);
            lemma_count_push(l.push(w.depth).push(w.rows), w.cols);
            assert forall|q: int| 0 <= q < dims@.len() implies #[trigger] dims@[q] >= 1 by {
                if q < n - 2 {
                    assert(dims@[q] == d@[q]);
                }
            }
        }
        let inputs = vec![unrolled.clone()];
        let op = Op::Roll { window: w, batches: nb };
        proof {
            lemma_new_node_ok(graph.structure(), Node { dimensions: dims, op, inputs });
        }
        let r = graph.record(dims, values, op, inputs);
        proof {
            Graph::lemma_records_same(&*old(graph), &*graph, r, op, inputs@, seq![*unrolled]);
            lemma_any_tracked1(*unrolled);
        }
        Ok(r)
    }

    /// Turns matrices of one row per patch position and one column per
    /// filter into one image per filter: dimensions `(.., patches, filters)`
    /// become `(.., filters, out_rows, out_cols)`. Fails with `DimMismatch`
    /// when the array has fewer than two dimensions or the number of rows is
    /// not `out_rows * out_cols`.
    pub fn expand_conv(&self, graph: &mut Graph, stride_counts: (usize, usize)) -> (r: Result<Array, ArrayError>)
        requires
            old(graph).wf(),
            old(graph).holds(self),
        ensures
            final(graph).wf(),
            old(graph).extends(final(graph)),
            !(self.shape().len() >= 2 && self.shape()[self.shape().len() - 2] == stride_counts.0
                * stride_counts.1) ==> r == Err::<Array, ArrayError>(ArrayError::DimMismatch)
                && final(graph).structure() == old(graph).structure() && final(graph).grads()
                == old(graph).grads(),
            (self.shape().len() >= 2 && self.shape()[self.shape().len() - 2] == stride_counts.0
                * stride_counts.1) ==> ({
                let d = self.shape();
                let nb = count(lead(d, 2));
                let f = d[d.len() - 1];
                let pp = d[d.len() - 2];
                r matches Ok(x) && x.shape() == lead(d, 2).push(f).push(stride_counts.0).push(
                    stride_counts.1,
                ) && x.vals() == transpose_spec(self.vals(), nb as int, pp as int, f as int)
                    && old(graph).records(
                    final(graph),
                    x,
                    Op::Expand { batches: nb as usize, patches: pp, filters: f },
                    seq![*self],
                ) && final(graph).holds(&x)
            }),
            r matches Ok(x) ==> (x.handle() is Some <==> self.handle() is Some),
    {
        proof {
            use_type_invariant(self);
            assert(graph.structure().take(graph.structure().len() as int) =~= graph.structure());
            assert(graph.grads().take(graph.grads().len() as int) =~= graph.grads());
        }
        let d = self.dimensions();
        let _ = self.values().len();
        let n = d.len();
        if n < 2 {
            return Err(ArrayError::DimMismatch);
        }
        let (out_rows, out_cols) = stride_counts;
        match out_rows.checked_mul(out_cols) {
            Some(p) => {
                if p != d[n - 2] {
                    return Err(ArrayError::DimMismatch);
                }
            },
            None => {
                return Err(ArrayError::DimMismatch);
            },
        }
        let pp = d[n - 2];
        let f = d[n - 1];
        let nb = prefix_count(d, n - 2);
        proof {
            lemma_count_matrix(d@, false);
            assert(batch_of(d@) == d@.take(n - 2));
            assert(out_rows >= 1 && out_cols >= 1) by (nonlinear_arith)
                requires
                    out_rows * out_cols == pp,
                    pp >= 1,
                    out_rows >= 0,
                    out_cols >= 0,
            ;
            assert(nb * f * out_rows * out_cols == nb * pp * f) by (nonlinear_arith)
                requires
                    out_rows * out_cols == pp,
            ;
        }
        let values = transpose_values(self.values(), nb, pp, f);
        let mut dims = copy_prefix(d, n - 2);
        dims.push(f);
        dims.push(out_rows);
        dims.push(out_cols);
        proof {
            let l = d@.take(n - 2);
            assert(dims@ =~= l.push(f).push(out_rows).push(out_cols));
            lemma_count_push(l, f);
            lemma_count_push(l.push(f), out_rows);
            lemma_count_push(l.push(f).push(out_rows), out_cols);
            assert(nb * f * pp == nb * pp * f) by (nonlinear_arith);
            assert forall|q: int| 0 <= q < dims@.len() implies #[trigger] dims@[q] >= 1 by {
                if q < n - 2 {
                    assert(dims@[q] == d@[q]);
                }
            }
        }
        let inputs = vec![self.clone()];
        let op = Op::Expand { batches: nb, patches: pp, filters: f };
        proof {
            lemma_new_node_ok(graph.structure(), Node { dimensions: dims, op, inputs });
        }
        let r = graph.record(dims, values, op, inputs);
        proof {
            Graph::lemma_records_same(&*old(graph), &*graph, r, op, inputs@, seq![*self]);
            lemma_any_tracked1(*self);
        }
        Ok(r)
    }

    /// The same values under the dimensions `dimensions`. Fails with
    /// `ShapeMismatch` when a dimension is zero or the element counts differ.
    pub fn reshape(graph: &mut Graph, a: &Array, dimensions: Vec<usize>) -> (r: Result<Array, ArrayError>)
        requires
            old(graph).wf(),
            old(graph).holds(a),
        ensures
            final(graph).wf(),
            old(graph).extends(final(graph)),
            !(positive(dimensions@) && count(dimensions@) == count(a.shape())) ==> r == Err::<
                Array,
                ArrayError,
            >(ArrayError::ShapeMismatch) && final(graph).structure() == old(graph).structure()
                && final(graph).grads() == old(graph).grads(),
            (positive(dimensions@) && count(dimensions@) == count(a.shape())) ==> (r matches Ok(x)
                && x.shape() == dimensions@ && x.vals() == a.vals() && old(graph).records(
                final(graph),
                x,
                Op::Reshape,
                seq![*a],
            ) && final(graph).holds(&x)),
            r matches Ok(x) ==> (x.handle() is Some <==> a.handle() is Some),
    {
        proof {
            use_type_invariant(a);
            assert(graph.structure().take(graph.structure().len() as int) =~= graph.structure());
            assert(graph.grads().take(graph.grads().len() as int) =~= graph.grads());
        }
        let _ = a.values().len();
        if !crate::shape::all_positive(&dimensions) {
            return Err(ArrayError::ShapeMismatch);
        }
        match crate::shape::element_count(&dimensions) {
            Some(c) => {
                if c != a.values().len() {
                    return Err(ArrayError::ShapeMismatch);
                }
            },
            None => {
                return Err(ArrayError::ShapeMismatch);
            },
        }
        let values = copy_vec(a.values());
        let inputs = vec![a.clone()];
        proof {
            lemma_new_node_ok(graph.structure(), Node { dimensions, op: Op::Reshape, inputs });
        }
        let r = graph.record(dimensions, values, Op::Reshape, inputs);
        proof {
            Graph::lemma_records_same(&*old(graph), &*graph, r, Op::Reshape, inputs@, seq![*a]);
            lemma_any_tracked1(*a);
        }
        Ok(r)
    }

    /// Convolution by filters without leading dimensions, which serve every
    /// image.
    #[verifier::rlimit(80)]
    fn conv_shared_filters(&self, graph: &mut Graph, filters: &Array, stride_dimensions: (usize, usize)) -> (r:
        Result<Array, ArrayError>)
        requires
            old(graph).wf(),
            old(graph).holds(self),
            old(graph).holds(filters),
            conv_ok(self.shape(), filters.shape(), stride_dimensions),
            filter_lead(filters.shape()).len() == 0,
            conv_fits(self.shape(), filters.shape(), stride_dimensions),
        ensures
            final(graph).wf(),
            old(graph).extends(final(graph)),
            r matches Ok(x) && x.shape() == conv_dims(self.shape(), filters.shape(), stride_dimensions)
                && x.vals() == conv_values(self.shape(), self.vals(), filters.shape(), filters.vals(), stride_dimensions)
                && final(graph).holds(&x) && (x.handle() is Some <==> (self.handle() is Some
                || filters.handle() is Some)),
    {
        proof {
            use_type_invariant(self);
            use_type_invariant(filters);
            assert(graph.structure().take(graph.structure().len() as int) =~= graph.structure());
            assert(graph.grads().take(graph.grads().len() as int) =~= graph.grads());
        }
        let d = self.dimensions();
        let fd = filters.dimensions();
        let _ = self.values().len();
        let _ = filters.values().len();
        let n = d.len();
        let m = fd.len();
        if n < 3 || !(m == 3 || m == 4) || fd[m - 3] != d[n - 3] {
            return Err(ArrayError::DimMismatch);
        }
        let filter_dimensions = (fd[m - 2], fd[m - 1]);
        let w = Window {
            depth: d[n - 3],
            rows: d[n - 2],
            cols: d[n - 1],
            stride_rows: stride_dimensions.0,
            stride_cols: stride_dimensions.1,
            filter_rows: filter_dimensions.0,
            filter_cols: filter_dimensions.1,
        };
        assert(w == conv_window(d@, fd@, stride_dimensions));
        assert(w == window_of(d@, stride_dimensions, filter_dimensions));
        if !w.is_ok() {
            return Err(ArrayError::DimMismatch);
        }
        let nf: usize = if m == 4 { fd[0] } else { 1 };
        let nb = prefix_count(d, n - 3);
        let ghost g0 = *graph;
        let u = match Array::unroll_blocks(graph, self, stride_dimensions, filter_dimensions) {
            Ok(u) => u,
            Err(e) => {
                return Err(e);
            },
        };
        let ghost g1 = *graph;
        proof {
            lemma_sizes(w, nb as int);
            let (pp, ql) = (w.patches(), w.patch_len());
            assert(nb * pp >= 1 && nb * pp <= nb * pp * ql && ql <= nb * pp * ql && (nb * pp) * ql
                == nb * pp * ql && nf * ql == ql * nf) by (nonlinear_arith)
                requires
                    nb >= 1,
                    pp >= 1,
                    ql >= 1,
            ;
            assert(w.depth * w.filter_rows <= ql) by (nonlinear_arith)
                requires
                    ql == w.depth * w.filter_rows * w.filter_cols,
                    w.filter_cols >= 1,
            ;
            let l = d@.take(n - 3);
            lemma_count_push(l, pp as usize);
            lemma_count_push(l.push(pp as usize), ql as usize);
            lemma_count_push(seq![(nb * pp) as usize], ql as usize);
            lemma_count_push(Seq::<usize>::empty(), (nb * pp) as usize);
            assert(seq![(nb * pp) as usize] =~= Seq::<usize>::empty().push((nb * pp) as usize));
            assert(seq![(nb * pp) as usize, ql as usize] =~= seq![(nb * pp) as usize].push(ql as usize));
        }
        let orr = (w.rows - w.filter_rows) / w.stride_rows + 1;
        let oc = (w.cols - w.filter_cols) / w.stride_cols + 1;
        let pp = orr * oc;
        let ql = w.depth * w.filter_rows * w.filter_cols;
        let udims = vec![nb * pp, ql];
        assert(udims@ =~= seq![(nb * pp) as usize, ql]);
        assert(positive(udims@));
        assert(count(u.shape()) == nb * pp * ql);
        proof {
            crate::shape::lemma_count2((nb * pp) as usize, ql);
        }
        let u2 = match Array::reshape(graph, &u, udims) {
            Ok(x) => x,
            Err(e) => {
                return Err(e);
            },
        };
        let ghost g2 = *graph;
        proof {
            Graph::lemma_extends_trans(&g0, &g1, &g2);
            Graph::lemma_extends_holds(&*old(graph), &g2, filters);
            if m == 4 {
                lemma_count_split(fd@, 1);
                lemma_count3(fd@.skip(1));
                assert(fd@.take(1) =~= Seq::<usize>::empty().push(fd@[0]));
                lemma_count_push(Seq::<usize>::empty(), fd@[0]);
            } else {
                lemma_count3(fd@);
            }
            crate::shape::lemma_count2(nf, ql);
            assert(count(filters.shape()) == nf * ql);
        }
        let wm = match Array::reshape(graph, filters, vec![nf, ql]) {
            Ok(x) => x,
            Err(e) => {
                return Err(e);
            },
        };
        let ghost g3 = *graph;
        proof {
            Graph::lemma_extends_trans(&g0, &g2, &g3);
            Graph::lemma_extends_holds(&g2, &g3, &u2);
            assert(batch_of(u2.shape()) =~= Seq::<usize>::empty());
            assert(batch_of(wm.shape()) =~= Seq::<usize>::empty());
            assert(count(Seq::<usize>::empty()) == 1);
            let rows = (nb * pp) as int;
            assert(matmul_dims(u2.shape(), wm.shape(), false, true) =~= seq![rows as usize, nf]);
            crate::shape::lemma_count2(rows as usize, nf);
            assert(1 * rows * nf == nb * pp * nf) by (nonlinear_arith)
                requires
                    rows == nb * pp,
            ;
        }
        let mm = match Array::matmul(graph, &u2, &wm, false, true) {
            Ok(x) => x,
            Err(e) => {
                return Err(e);
            },
        };
        let ghost g4 = *graph;
        let mut dims = copy_prefix(d, n - 3);
        dims.push(pp);
        dims.push(nf);
        proof {
            Graph::lemma_extends_trans(&g0, &g3, &g4);
            let l = d@.take(n - 3);
            assert(dims@ =~= l.push(pp).push(nf));
            lemma_count_push(l, pp);
            lemma_count_push(l.push(pp), nf);
            assert(nb * pp * nf == 1 * (nb * pp) * nf) by (nonlinear_arith);
            assert forall|q: int| 0 <= q < dims@.len() implies #[trigger] dims@[q] >= 1 by {
                if q < n - 3 {
                    assert(dims@[q] == d@[q]);
                }
            }
        }
        let m2 = match Array::reshape(graph, &mm, dims) {
            Ok(x) => x,
            Err(e) => {
                return Err(e);
            },
        };
        let ghost g5 = *graph;
        proof {
            Graph::lemma_extends_trans(&g0, &g4, &g5);
            let l = d@.take(n - 3);
            assert(lead(m2.shape(), 2) =~= l);
        }
        let r = match m2.expand_conv(graph, (orr, oc)) {
            Ok(x) => x,
            Err(e) => {
                return Err(e);
            },
        };
        proof {
            Graph::lemma_extends_trans(&g0, &g5, &*graph);
        }
        Ok(r)
    }

    /// Convolution where images and filters have the same leading
    /// dimensions: image and filter group of the same leading index go
    /// together.
    #[verifier::rlimit(80)]
    fn conv_paired(&self, graph: &mut Graph, filters: &Array, stride_dimensions: (usize, usize)) -> (r:
        Result<Array, ArrayError>)
        requires
            old(graph).wf(),
            old(graph).holds(self),
            old(graph).holds(filters),
            conv_ok(self.shape(), filters.shape(), stride_dimensions),
            filter_lead(filters.shape()).len() > 0,
            filter_lead(filters.shape()) == lead(self.shape(), 3),
            conv_fits(self.shape(), filters.shape(), stride_dimensions),
        ensures
            final(graph).wf(),
            old(graph).extends(final(graph)),
            r matches Ok(x) && x.shape() == conv_dims(self.shape(), filters.shape(), stride_dimensions)
                && x.vals() == conv_values(self.shape(), self.vals(), filters.shape(), filters.vals(), stride_dimensions)
                && final(graph).holds(&x) && (x.handle() is Some <==> (self.handle() is Some
                || filters.handle() is Some)),
    {
        proof {
            use_type_invariant(self);
            use_type_invariant(filters);
        }
        let d = self.dimensions();
        let fd = filters.dimensions();
        let _ = self.values().len();
        let _ = filters.values().len();
        let n = d.len();
        let m = fd.len();
        let filter_dimensions = (fd[m - 2], fd[m - 1]);
        let w = Window {
            depth: d[n - 3],
            rows: d[n - 2],
            cols: d[n - 1],
            stride_rows: stride_dimensions.0,
            stride_cols: stride_dimensions.1,
            filter_rows: filter_dimensions.0,
            filter_cols: filter_dimensions.1,
        };
        assert(w == conv_window(d@, fd@, stride_dimensions));
        assert(w == window_of(d@, stride_dimensions, filter_dimensions));
        let nf = fd[m - 4];
        let nb = prefix_count(d, n - 3);
        let ghost l = d@.take(n - 3);
        assert(fd@.take(m - 4) == l);
        let ghost g0 = *graph;
        let u = match Array::unroll_blocks(graph, self, stride_dimensions, filter_dimensions) {
            Ok(u) => u,
            Err(e) => {
                return Err(e);
            },
        };
        let ghost g1 = *graph;
        proof {
            lemma_sizes(w, nb as int);
            let (pp, ql) = (w.patches(), w.patch_len());
            assert(ql <= nb * pp * ql && w.depth * w.filter_rows <= ql) by (nonlinear_arith)
                requires
                    nb >= 1,
                    pp >= 1,
                    ql >= 1,
                    ql == w.depth * w.filter_rows * w.filter_cols,
                    w.filter_cols >= 1,
            ;
            Graph::lemma_extends_holds(&g0, &g1, filters);
            lemma_count_split(fd@, m - 4);
            lemma_count4(fd@.skip(m - 4));
            assert(fd@.skip(m - 4)[0] == nf);
        }
        let orr = (w.rows - w.filter_rows) / w.stride_rows + 1;
        let oc = (w.cols - w.filter_cols) / w.stride_cols + 1;
        let pp = orr * oc;
        let ql = w.depth * w.filter_rows * w.filter_cols;
        let mut wdims = copy_prefix(fd, m - 3);
        wdims.push(ql);
        proof {
            let fl = fd@.take(m - 3);
            assert(fl =~= l.push(nf));
            assert(wdims@ =~= l.push(nf).push(ql));
            lemma_count_push(l, nf);
            lemma_count_push(l.push(nf), ql);
            assert(count(filters.shape()) == count(l) * (nf * ql)) by {
                assert(fd@.skip(m - 4)[1] == w.depth && fd@.skip(m - 4)[2] == w.filter_rows
                    && fd@.skip(m - 4)[3] == w.filter_cols);
            }
            assert(count(l) * (nf * ql) == count(l) * nf * ql) by (nonlinear_arith);
            assert forall|q: int| 0 <= q < wdims@.len() implies #[trigger] wdims@[q] >= 1 by {
                if q < m - 3 {
                    assert(wdims@[q] == fd@[q]);
                }
            }
        }
        let wm = match Array::reshape(graph, filters, wdims) {
            Ok(x) => x,
            Err(e) => {
                return Err(e);
            },
        };
        let ghost g2 = *graph;
        proof {
            Graph::lemma_extends_trans(&g0, &g1, &g2);
            Graph::lemma_extends_holds(&g1, &g2, &u);
            assert(batch_of(u.shape()) =~= l);
            assert(batch_of(wm.shape()) =~= l);
            let md = matmul_dims(u.shape(), wm.shape(), false, true);
            assert(md =~= l.push(pp).push(nf));
            lemma_count_push(l, pp);
            lemma_count_push(l.push(pp), nf);
        }
        let mm = match Array::matmul(graph, &u, &wm, false, true) {
            Ok(x) => x,
            Err(e) => {
                return Err(e);
            },
        };
        let ghost g3 = *graph;
        proof {
            Graph::lemma_extends_trans(&g0, &g2, &g3);
            assert(lead(mm.shape(), 2) =~= l);
        }
        let r = match mm.expand_conv(graph, (orr, oc)) {
            Ok(x) => x,
            Err(e) => {
                return Err(e);
            },
        };
        proof {
            Graph::lemma_extends_trans(&g0, &g3, &*graph);
            assert(r.shape() =~= conv_dims(self.shape(), filters.shape(), stride_dimensions));
        }
        Ok(r)
    }

    /// Convolution of images without leading dimensions by filters with
    /// them: the image serves every group of filters.
    #[verifier::rlimit(80)]
    fn conv_shared_image(&self, graph: &mut Graph, filters: &Array, stride_dimensions: (usize, usize)) -> (r:
        Result<Array, ArrayError>)
        requires
            old(graph).wf(),
            old(graph).holds(self),
            old(graph).holds(filters),
            conv_ok(self.shape(), filters.shape(), stride_dimensions),
            filter_lead(filters.shape()).len() > 0,
            lead(self.shape(), 3).len() == 0,
            conv_fits(self.shape(), filters.shape(), stride_dimensions),
        ensures
            final(graph).wf(),
            old(graph).extends(final(graph)),
            r matches Ok(x) && x.shape() == conv_dims(self.shape(), filters.shape(), stride_dimensions)
                && x.vals() == conv_values(self.shape(), self.vals(), filters.shape(), filters.vals(), stride_dimensions)
                && final(graph).holds(&x) && (x.handle() is Some <==> (self.handle() is Some
                || filters.handle() is Some)),
    {
        proof {
            use_type_invariant(self);
            use_type_invariant(filters);
        }
        let d = self.dimensions();
        let fd = filters.dimensions();
        let _ = self.values().len();
        let _ = filters.values().len();
        let n = d.len();
        let m = fd.len();
        let filter_dimensions = (fd[m - 2], fd[m - 1]);
        let w = Window {
            depth: d[n - 3],
            rows: d[n - 2],
            cols: d[n - 1],
            stride_rows: stride_dimensions.0,
            stride_cols: stride_dimensions.1,
            filter_rows: filter_dimensions.0,
            filter_cols: filter_dimensions.1,
        };
        assert(w == conv_window(d@, fd@, stride_dimensions));
        assert(w == window_of(d@, stride_dimensions, filter_dimensions));
        let nf = fd[m - 4];
        let ng = prefix_count(fd, m - 4);
        let ghost fl = fd@.take(m - 4);
        assert(d@.take(n - 3) =~= Seq::<usize>::empty());
        assert(count(Seq::<usize>::empty()) == 1);
        let ghost g0 = *graph;
        let u = match Array::unroll_blocks(graph, self, stride_dimensions, filter_dimensions) {
            Ok(u) => u,
            Err(e) => {
                return Err(e);
            },
        };
        let ghost g1 = *graph;
        proof {
            lemma_sizes(w, 1);
            let (pp, ql) = (w.patches(), w.patch_len());
            assert(pp <= 1 * pp * ql && ql <= 1 * pp * ql && w.depth * w.filter_rows <= ql) by (nonlinear_arith)
                requires
                    pp >= 1,
                    ql >= 1,
                    ql == w.depth * w.filter_rows * w.filter_cols,
                    w.filter_cols >= 1,
            ;
        }
        let orr = (w.rows - w.filter_rows) / w.stride_rows + 1;
        let oc = (w.cols - w.filter_cols) / w.stride_cols + 1;
        let pp = orr * oc;
        let ql = w.depth * w.filter_rows * w.filter_cols;
        proof {
            Graph::lemma_extends_holds(&g0, &g1, filters);
            lemma_count4(fd@.skip(m - 4));
            assert(fd@.skip(m - 4)[0] == nf && fd@.skip(m - 4)[1] == w.depth && fd@.skip(m - 4)[2]
                == w.filter_rows && fd@.skip(m - 4)[3] == w.filter_cols);
            assert(count(filters.shape()) == ng * (nf * ql));
            assert(ng * (nf * ql) == (ng * nf) * ql && ng * nf >= 1 && (ng * nf) <= ng * nf * pp
                && ng * pp * nf == ng * nf * pp) by (nonlinear_arith)
                requires
                    ng >= 1,
                    nf >= 1,
                    pp >= 1,
            ;
        }
        let groups = ng * nf;
        let wdims = vec![groups, ql];
        proof {
            assert(wdims@ =~= seq![groups, ql]);
            lemma_count2(groups, ql);
            assert(u.shape() =~= seq![pp, ql]);
        }
        let wm = match Array::reshape(graph, filters, wdims) {
            Ok(x) => x,
            Err(e) => {
                return Err(e);
            },
        };
        let ghost g2 = *graph;
        proof {
            Graph::lemma_extends_trans(&g0, &g1, &g2);
            Graph::lemma_extends_holds(&g1, &g2, &u);
            assert(batch_of(u.shape()) =~= Seq::<usize>::empty());
            assert(batch_of(wm.shape()) =~= Seq::<usize>::empty());
            assert(matmul_dims(u.shape(), wm.shape(), false, true) =~= seq![pp, groups]);
            lemma_count2(pp, groups);
            assert(pp * groups == ng * pp * nf) by (nonlinear_arith)
                requires
                    groups == ng * nf,
            ;
            assert(1 * pp * groups == pp * groups);
        }
        let mm = match Array::matmul(graph, &u, &wm, false, true) {
            Ok(x) => x,
            Err(e) => {
                return Err(e);
            },
        };
        let ghost g3 = *graph;
        proof {
            Graph::lemma_extends_trans(&g0, &g2, &g3);
            assert(lead(mm.shape(), 2) =~= Seq::<usize>::empty());
        }
        let e = match mm.expand_conv(graph, (orr, oc)) {
            Ok(x) => x,
            Err(e) => {
                return Err(e);
            },
        };
        let ghost g4 = *graph;
        let mut dims = copy_prefix(fd, m - 3);
        dims.push(orr);
        dims.push(oc);
        proof {
            Graph::lemma_extends_trans(&g0, &g3, &g4);
            assert(fd@.take(m - 3) =~= fl.push(nf));
            assert(dims@ =~= fl.push(nf).push(orr).push(oc));
            lemma_count_push(fl, nf);
            lemma_count_push(fl.push(nf), orr);
            lemma_count_push(fl.push(nf).push(orr), oc);
            let es = e.shape();
            assert(es =~= Seq::<usize>::empty().push(groups).push(orr).push(oc));
            lemma_count_push(Seq::<usize>::empty(), groups);
            lemma_count_push(Seq::<usize>::empty().push(groups), orr);
            lemma_count_push(Seq::<usize>::empty().push(groups).push(orr), oc);
            assert(count(fl) * nf * orr * oc == 1 * groups * orr * oc) by (nonlinear_arith)
                requires
                    groups == count(fl) * nf,
            ;
            assert forall|q: int| 0 <= q < dims@.len() implies #[trigger] dims@[q] >= 1 by {
                if q < m - 3 {
                    assert(dims@[q] == fd@[q]);
                }
            }
        }
        let r = match Array::reshape(graph, &e, dims) {
            Ok(x) => x,
            Err(e) => {
                return Err(e);
            },
        };
        proof {
            Graph::lemma_extends_trans(&g0, &g4, &*graph);
        }
        Ok(r)
    }

    /// Convolves the images formed by the last three dimensions (depth,
    /// rows, columns) of this array with `filters`: leading dimensions, then
    /// the filter count, depth, rows and columns (or one filter of depth,
    /// rows and columns). Each patch position `stride_dimensions` apart gives
    /// one value per filter; the result has the leading dimensions, then one
    /// image per filter. Leading dimensions broadcast: filters without them
    /// serve every image, an image without them serves every group of
    /// filters, and otherwise both must have the same. The patches are
    /// unrolled into the rows of a matrix, multiplied by the flattened
    /// filters and laid out filter by filter, each step a recorded operation,
    /// so the result is tracked when an operand is. Fails with `DimMismatch`
    /// when either array has fewer than three dimensions, the depths differ,
    /// a stride is zero, a filter does not fit, or both have leading
    /// dimensions and they differ.
    pub fn conv(&self, graph: &mut Graph, filters: &Array, stride_dimensions: (usize, usize)) -> (r:
        Result<Array, ArrayError>)
        requires
            old(graph).wf(),
            old(graph).holds(self),
            old(graph).holds(filters),
            conv_ok(self.shape(), filters.shape(), stride_dimensions) ==> conv_fits(
                self.shape(),
                filters.shape(),
                stride_dimensions,
            ),
        ensures
            final(graph).wf(),
            old(graph).extends(final(graph)),
            !conv_ok(self.shape(), filters.shape(), stride_dimensions) ==> r == Err::<Array, ArrayError>(
                ArrayError::DimMismatch,
            ) && final(graph).structure() == old(graph).structure() && final(graph).grads()
                == old(graph).grads(),
            conv_ok(self.shape(), filters.shape(), stride_dimensions) ==> (r matches Ok(x) && x.shape()
                == conv_dims(self.shape(), filters.shape(), stride_dimensions) && x.vals()
                == conv_values(self.shape(), self.vals(), filters.shape(), filters.vals(), stride_dimensions)
                && final(graph).holds(&x) && (x.handle() is Some <==> (self.handle() is Some
                || filters.handle() is Some))),
    {
        proof {
            use_type_invariant(self);
            use_type_invariant(filters);
            assert(graph.structure().take(graph.structure().len() as int) =~= graph.structure());
            assert(graph.grads().take(graph.grads().len() as int) =~= graph.grads());
        }
        let d = self.dimensions();
        let fd = filters.dimensions();
        let n = d.len();
        let m = fd.len();
        if n < 3 || m < 3 || fd[m - 3] != d[n - 3] {
            return Err(ArrayError::DimMismatch);
        }
        let w = Window {
            depth: d[n - 3],
            rows: d[n - 2],
            cols: d[n - 1],
            stride_rows: stride_dimensions.0,
            stride_cols: stride_dimensions.1,
            filter_rows: fd[m - 2],
            filter_cols: fd[m - 1],
        };
        assert(w == conv_window(d@, fd@, stride_dimensions));
        if !w.is_ok() {
            return Err(ArrayError::DimMismatch);
        }
        let il = n - 3;
        let fl: usize = if m >= 4 { m - 4 } else { 0 };
        assert(filter_lead(fd@) =~= fd@.take(fl as int));
        assert(lead(d@, 3) =~= d@.take(il as int));
        if fl == 0 {
            return self.conv_shared_filters(graph, filters, stride_dimensions);
        }
        if il == 0 {
            return self.conv_shared_image(graph, filters, stride_dimensions);
        }
        if fl != il {
            return Err(ArrayError::DimMismatch);
        }
        let _ = self.values().len();
        if shared_batch(d, fd, il).is_none() {
            return Err(ArrayError::DimMismatch);
        }
        self.conv_paired(graph, filters, stride_dimensions)
    }
}

} // verus!
