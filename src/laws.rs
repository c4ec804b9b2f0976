use vstd::prelude::*;

use crate::array::Array;
use crate::graph::{
    add_opt, after_backward, delta, grad, lemma_delta_len, node_ok, ones, received, seed_fits,
    seed_values, slot_acc, Graph, Node, Op,
};
use crate::image::{lemma_roll_len, lemma_sizes, roll_prefix, roll_spec, unroll_spec, Window};
use crate::matmul::product;
use crate::numbers::{add_s, mul_seq, Scalar};
use crate::shape::count;

verus! {

/// Node `c` has the two distinct leaves `a` and `b` as operands.
pub open(crate) spec fn joins_leaves(nodes: Seq<Node>, c: int, a: int, b: int) -> bool {
    &&& 0 <= a < c
    &&& 0 <= b < c
    &&& c < nodes.len()
    &&& c <= usize::MAX
    &&& a != b
    &&& nodes[c].ins().len() == 2
    &&& nodes[c].ins()[0].handle() == Some(a as usize)
    &&& nodes[c].ins()[1].handle() == Some(b as usize)
    &&& nodes[a].ins().len() == 0
    &&& nodes[b].ins().len() == 0
}

/// A node with no operands sends nothing to anyone.
proof fn lemma_no_slots(node: Node, g: Seq<Scalar>, n: int, start: Option<Seq<Scalar>>)
    requires
        node.ins().len() == 0,
    ensures
        slot_acc(node, g, n, start, node.ins().len() as int) == start,
{
}

/// A node none of whose slots below `j` names `n` sends it nothing.
proof fn lemma_other_slots(node: Node, g: Seq<Scalar>, n: int, start: Option<Seq<Scalar>>, j: int)
    requires
        0 <= j <= node.ins().len(),
        forall|k: int| 0 <= k < j ==> node.ins()[k].handle() != Some(n as usize),
    ensures
        slot_acc(node, g, n, start, j) == start,
    decreases j,
{
    if j > 0 {
        lemma_other_slots(node, g, n, start, j - 1);
    }
}

/// In a pass from `c`, whose operands are the leaves `a` and `b`, no node
/// but `c`, `a` and `b` is reached.
proof fn lemma_unreached(nodes: Seq<Node>, c: int, a: int, b: int, seed: Seq<Scalar>, n: int)
    requires
        joins_leaves(nodes, c, a, b),
        0 <= n < c,
        n != a,
        n != b,
    ensures
        grad(nodes, c, seed, n) is None,
    decreases c - n, c - n + 1,
{
    lemma_nothing_received(nodes, c, a, b, seed, n, n + 1);
}

/// What reaches such a node `n` from the nodes `lo..=c` is nothing.
proof fn lemma_nothing_received(
    nodes: Seq<Node>,
    c: int,
    a: int,
    b: int,
    seed: Seq<Scalar>,
    n: int,
    lo: int,
)
    requires
        joins_leaves(nodes, c, a, b),
        0 <= n < lo,
        n < c,
        n != a,
        n != b,
    ensures
        received(nodes, c, seed, n, lo) is None,
    decreases c - n, c + 1 - lo,
{
    if lo <= c {
        lemma_nothing_received(nodes, c, a, b, seed, n, lo + 1);
        let before = received(nodes, c, seed, n, lo + 1);
        if lo == c {
            assert(nodes[c].ins()[0].handle() != Some(n as usize));
            assert(nodes[c].ins()[1].handle() != Some(n as usize));
            lemma_other_slots(nodes[c], seed, n, before, 2);
        } else if lo == a || lo == b {
            if let Some(g) = grad(nodes, c, seed, lo) {
                lemma_no_slots(nodes[lo], g, n, before);
            }
        } else {
            lemma_unreached(nodes, c, a, b, seed, lo);
        }
    }
}

/// What reaches the operand `x` (`a` or `b`) from the nodes `lo..=c`: what
/// `c` sends it.
proof fn lemma_operand_received(
    nodes: Seq<Node>,
    c: int,
    a: int,
    b: int,
    seed: Seq<Scalar>,
    x: int,
    j: int,
    lo: int,
)
    requires
        joins_leaves(nodes, c, a, b),
        j == 0 || j == 1,
        x == if j == 0 { a } else { b },
        x < lo <= c,
    ensures
        received(nodes, c, seed, x, lo) == Some(delta(nodes[c], seed, j)),
    decreases c - lo,
{
    let before = received(nodes, c, seed, x, lo + 1);
    if lo == c {
        assert(before is None);
        let node = nodes[c];
        assert(slot_acc(node, seed, x, before, 0) == before);
        assert(node.ins()[1 - j].handle() != Some(x as usize));
        if j == 0 {
            assert(slot_acc(node, seed, x, before, 1) == add_opt(before, delta(node, seed, 0)));
            assert(slot_acc(node, seed, x, before, 2) == slot_acc(node, seed, x, before, 1));
        } else {
            assert(slot_acc(node, seed, x, before, 1) == before);
            assert(slot_acc(node, seed, x, before, 2) == add_opt(before, delta(node, seed, 1)));
        }
    } else {
        lemma_operand_received(nodes, c, a, b, seed, x, j, lo + 1);
        if lo == a || lo == b {
            if let Some(g) = grad(nodes, c, seed, lo) {
                lemma_no_slots(nodes[lo], g, x, before);
            }
        } else {
            lemma_unreached(nodes, c, a, b, seed, lo);
        }
    }
}

/// In a pass from `c`, whose operands are the distinct leaves `a` and `b`,
/// each operand receives exactly what `c`'s gradient rule sends it.
pub proof fn lemma_operand_gradients(nodes: Seq<Node>, c: int, a: int, b: int, seed: Seq<Scalar>)
    requires
        joins_leaves(nodes, c, a, b),
    ensures
        grad(nodes, c, seed, a) == Some(delta(nodes[c], seed, 0)),
        grad(nodes, c, seed, b) == Some(delta(nodes[c], seed, 1)),
{
    lemma_operand_received(nodes, c, a, b, seed, a, 0, a + 1);
    lemma_operand_received(nodes, c, a, b, seed, b, 1, b + 1);
}

/// The gradient of a node after a pass from `root` that reached it.
proof fn lemma_after(nodes: Seq<Node>, grads: Seq<Option<Seq<Scalar>>>, root: int, seed: Seq<Scalar>, n: int)
    requires
        0 <= n <= root,
        n < grads.len(),
        grad(nodes, root, seed, n) is Some,
    ensures
        after_backward(nodes, grads, root, seed)[n] == grad(nodes, root, seed, n),
{
}

/// Seed identity: a backward pass without a seed is the pass seeded with
/// ones of the root's dimensions.
pub proof fn law_seed_identity(root: Array, ones_like: Array)
    requires
        ones_like.shape() == root.shape(),
        ones_like.vals() == ones(root.vals().len()),
    ensures
        seed_fits(root, None) && seed_fits(root, Some(ones_like)),
        seed_values(root, None) == seed_values(root, Some(ones_like)),
{
}

/// Sum rule: after a backward pass with seed `g` from `c = a + b`, where `a`
/// and `b` are distinct tracked leaves, both hold `g`.
pub proof fn law_add_gradient(graph: &Graph, a: &Array, b: &Array, c: &Array, g: Seq<Scalar>)
    requires
        graph.wf(),
        a.handle() matches Some(ai) && b.handle() matches Some(bi) && c.handle() matches Some(ci)
            && ci < graph.structure().len() && graph.structure()[ci as int].operation() == Op::Add
            && joins_leaves(graph.structure(), ci as int, ai as int, bi as int),
    ensures
        ({
            let (ai, bi, ci) = (a.handle().unwrap() as int, b.handle().unwrap() as int, c.handle().unwrap() as int);
            let after = after_backward(graph.structure(), graph.grads(), ci, g);
            after[ai] == Some(g) && after[bi] == Some(g)
        }),
{
    let (ai, bi, ci) = (a.handle().unwrap() as int, b.handle().unwrap() as int, c.handle().unwrap() as int);
    let nodes = graph.structure();
    lemma_operand_gradients(nodes, ci, ai, bi, g);
    lemma_after(nodes, graph.grads(), ci, g, ai);
    lemma_after(nodes, graph.grads(), ci, g, bi);
}

/// Product rule: after a backward pass with seed `g` from `c = a * b`, where
/// `a` and `b` are distinct tracked leaves, `a` holds `b ⊙ g` and `b` holds
/// `a ⊙ g`.
pub proof fn law_mul_gradient(graph: &Graph, a: &Array, b: &Array, c: &Array, g: Seq<Scalar>)
    requires
        graph.wf(),
        a.handle() matches Some(ai) && b.handle() matches Some(bi) && c.handle() matches Some(ci)
            && ci < graph.structure().len() && graph.structure()[ci as int].operation() == Op::Mul
            && joins_leaves(graph.structure(), ci as int, ai as int, bi as int),
        graph.holds(a),
        graph.holds(b),
    ensures
        ({
            let (ai, bi, ci) = (a.handle().unwrap() as int, b.handle().unwrap() as int, c.handle().unwrap() as int);
            let after = after_backward(graph.structure(), graph.grads(), ci, g);
            after[ai] == Some(mul_seq(graph.structure()[ci].ins()[1].vals(), g))
                && after[bi] == Some(mul_seq(graph.structure()[ci].ins()[0].vals(), g))
        }),
{
    let (ai, bi, ci) = (a.handle().unwrap() as int, b.handle().unwrap() as int, c.handle().unwrap() as int);
    let nodes = graph.structure();
    lemma_operand_gradients(nodes, ci, ai, bi, g);
    lemma_after(nodes, graph.grads(), ci, g, ai);
    lemma_after(nodes, graph.grads(), ci, g, bi);
}

/// Matrix product rule: after a backward pass with seed `g` from
/// `c = matmul(a, b, false, false)`, where `a` and `b` are distinct tracked
/// leaves, `a` holds `matmul(g, b, false, true)` and `b` holds
/// `matmul(a, g, true, false)`, taken batch by batch over `c`'s matrices.
pub proof fn law_matmul_adjoint(graph: &Graph, a: &Array, b: &Array, c: &Array, g: Seq<Scalar>)
    requires
        graph.wf(),
        a.handle() matches Some(ai) && b.handle() matches Some(bi) && c.handle() matches Some(ci)
            && ci < graph.structure().len() && joins_leaves(graph.structure(), ci as int, ai as int, bi as int)
            && graph.structure()[ci as int].operation() matches Op::Matmul {
            a_transpose: false,
            b_transpose: false,
            ..
        },
    ensures
        ({
            let (ai, bi, ci) = (a.handle().unwrap() as int, b.handle().unwrap() as int, c.handle().unwrap() as int);
            let node = graph.structure()[ci];
            let after = after_backward(graph.structure(), graph.grads(), ci, g);
            match node.operation() {
                Op::Matmul { batches: nb, rows, inner, cols, .. } => {
                    &&& after[ai] == Some(
                        product(g, false, node.ins()[1].vals(), true, nb as int, rows as int, cols as int, inner as int),
                    )
                    &&& after[bi] == Some(
                        product(node.ins()[0].vals(), true, g, false, nb as int, inner as int, rows as int, cols as int),
                    )
                },
                _ => true,
            }
        }),
{
    let (ai, bi, ci) = (a.handle().unwrap() as int, b.handle().unwrap() as int, c.handle().unwrap() as int);
    let nodes = graph.structure();
    lemma_operand_gradients(nodes, ci, ai, bi, g);
    lemma_after(nodes, graph.grads(), ci, g, ai);
    lemma_after(nodes, graph.grads(), ci, g, bi);
}

/// Every node is well formed.
pub open(crate) spec fn all_ok(nodes: Seq<Node>) -> bool {
    forall|i: int| 0 <= i < nodes.len() ==> #[trigger] node_ok(nodes, i)
}

/// What a node sends to `n` through its slots keeps the length of `n`'s values.
proof fn lemma_slot_len(nodes: Seq<Node>, p: int, g: Seq<Scalar>, n: int, start: Option<Seq<Scalar>>, j: int)
    requires
        all_ok(nodes),
        0 <= n < p < nodes.len(),
        p <= usize::MAX,
        g.len() == count(nodes[p].shape()),
        0 <= j <= nodes[p].ins().len(),
        start matches Some(v) ==> v.len() == count(nodes[n].shape()),
    ensures
        slot_acc(nodes[p], g, n, start, j) matches Some(v) ==> v.len() == count(nodes[n].shape()),
    decreases j,
{
    if j > 0 {
        lemma_slot_len(nodes, p, g, n, start, j - 1);
        let node = nodes[p];
        assert(node_ok(nodes, p));
        if node.ins()[j - 1].handle() == Some(n as usize) {
            lemma_delta_len(node, g, j - 1);
            assert(node.ins()[j - 1].handle() matches Some(c) ==> nodes[c as int].shape() == node.ins()[j - 1].shape());
            assert(nodes[n].shape() == node.ins()[j - 1].shape());
        }
    }
}

/// Every gradient a pass computes has as many values as its node.
proof fn lemma_grad_len(nodes: Seq<Node>, root: int, seed: Seq<Scalar>, n: int)
    requires
        all_ok(nodes),
        0 <= n <= root < nodes.len(),
        root <= usize::MAX,
        seed.len() == count(nodes[root].shape()),
    ensures
        grad(nodes, root, seed, n) matches Some(v) ==> v.len() == count(nodes[n].shape()),
    decreases root - n, root - n + 1,
{
    if n < root {
        lemma_received_len(nodes, root, seed, n, n + 1);
    }
}

/// What reaches `n` from the nodes `lo..=root` has as many values as `n`.
proof fn lemma_received_len(nodes: Seq<Node>, root: int, seed: Seq<Scalar>, n: int, lo: int)
    requires
        all_ok(nodes),
        0 <= n < lo,
        n < root < nodes.len(),
        root <= usize::MAX,
        seed.len() == count(nodes[root].shape()),
    ensures
        received(nodes, root, seed, n, lo) matches Some(v) ==> v.len() == count(nodes[n].shape()),
    decreases root - n, root + 1 - lo,
{
    if lo <= root {
        lemma_received_len(nodes, root, seed, n, lo + 1);
        lemma_grad_len(nodes, root, seed, lo);
        if let Some(g) = grad(nodes, root, seed, lo) {
            lemma_slot_len(nodes, lo, g, n, received(nodes, root, seed, n, lo + 1), nodes[lo].ins().len() as int);
        }
    }
}

/// Shape preservation: after a backward pass from `root` with a seed of its
/// size, the gradient held by any tracked array `x` of the graph has as many
/// values as `x`, so `x.gradient()` has the dimensions of `x`.
pub proof fn law_gradient_shape(graph: &Graph, root: &Array, x: &Array, seed: Seq<Scalar>)
    requires
        graph.wf(),
        graph.holds(root),
        graph.holds(x),
        root.handle() is Some,
        x.handle() is Some,
        seed.len() == count(root.shape()),
    ensures
        after_backward(graph.structure(), graph.grads(), root.handle().unwrap() as int, seed)[x.handle().unwrap() as int] matches Some(v)
            ==> v.len() == count(x.shape()),
{
    let nodes = graph.structure();
    let (r, n) = (root.handle().unwrap() as int, x.handle().unwrap() as int);
    assert(graph.grads()[n] matches Some(v) ==> v.len() == count(nodes[n].shape()));
    if n <= r {
        lemma_grad_len(nodes, r, seed, n);
    }
}

/// Along an axis of `dim` pixels, patches of `f` pixels taken `st` apart
/// cover every pixel once: the patch spans the axis, or the stride is the
/// patch size and the patches fill the axis exactly.
pub open(crate) spec fn axis_tiles(dim: int, f: int, st: int) -> bool {
    f == dim || (st == f && dim % f == 0)
}

/// Patches that cover every pixel of the image once.
pub open(crate) spec fn tiles_without_overlap(w: Window) -> bool {
    &&& axis_tiles(w.rows as int, w.filter_rows as int, w.stride_rows as int)
    &&& axis_tiles(w.cols as int, w.filter_cols as int, w.stride_cols as int)
}

/// The patch position and the position inside the patch along one axis
/// that together give coordinate `x`.
spec fn axis_parts(dim: int, f: int, x: int) -> (int, int) {
    if f == dim {
        (0, x)
    } else {
        (x / f, x % f)
    }
}

/// Along a tiled axis the patch positions times the patch size is the axis.
proof fn lemma_axis(dim: int, f: int, st: int)
    requires
        1 <= f <= dim,
        st >= 1,
        axis_tiles(dim, f, st),
    ensures
        ((dim - f) / st + 1) * f == dim,
{
    if f == dim {
        lemma_div_mod_of(0, st, 0, 0);
        assert((dim - f) / st == 0);
        assert(((dim - f) / st + 1) * f == 1 * f);
    } else {
        assert(st == f);
        lemma_split(dim, f);
        let q = dim / f;
        assert(q >= 1) by (nonlinear_arith)
            requires
                dim == q * f,
                dim >= f,
                f >= 1,
        ;
        assert(dim - f == (q - 1) * f + 0) by (nonlinear_arith)
            requires
                dim == q * f + 0,
        ;
        lemma_div_mod_of(dim - f, f, q - 1, 0);
        assert((dim - f) / st + 1 == q);
        assert(q * f == dim) by (nonlinear_arith)
            requires
                dim == q * f + 0,
        ;
    }
}

/// Splitting a coordinate read from patch `i`, offset `m`, gives them back.
proof fn lemma_axis_parts_of(dim: int, f: int, st: int, i: int, m: int)
    requires
        1 <= f <= dim,
        st >= 1,
        axis_tiles(dim, f, st),
        0 <= i < (dim - f) / st + 1,
        0 <= m < f,
    ensures
        axis_parts(dim, f, m + st * i) == (i, m),
{
    lemma_axis(dim, f, st);
    if f == dim {
        assert(i == 0) by (nonlinear_arith)
            requires
                ((dim - f) / st + 1) * f == dim,
                f == dim,
                dim >= 1,
                0 <= i < (dim - f) / st + 1,
        ;
    } else {
        lemma_div_mod_of(m + st * i, f, i, m);
    }
}

/// Splitting a coordinate gives a patch position and an offset in range
/// that read it.
proof fn lemma_axis_parts_range(dim: int, f: int, st: int, x: int)
    requires
        1 <= f <= dim,
        st >= 1,
        axis_tiles(dim, f, st),
        0 <= x < dim,
    ensures
        0 <= axis_parts(dim, f, x).0 < (dim - f) / st + 1,
        0 <= axis_parts(dim, f, x).1 < f,
        axis_parts(dim, f, x).1 + st * axis_parts(dim, f, x).0 == x,
{
    lemma_axis(dim, f, st);
    let cnt = (dim - f) / st + 1;
    if f == dim {
        vstd::arithmetic::div_mod::lemma_div_pos_is_pos(dim - f, st);
    } else {
        lemma_split(x, f);
        assert(x < f * cnt) by (nonlinear_arith)
            requires
                cnt * f == dim,
                x < dim,
        ;
        vstd::arithmetic::div_mod::lemma_multiply_divide_lt(x, f, cnt);
        assert(x % f + st * (x / f) == x) by (nonlinear_arith)
            requires
                st == f,
                x == (x / f) * f + x % f,
        ;
    }
}

/// The element of the unrolled batch that reads image position `y`.
spec fn decode(w: Window, y: int) -> int {
    let (d, r, c) = (w.depth as int, w.rows as int, w.cols as int);
    let (fr, fc) = (w.filter_rows as int, w.filter_cols as int);
    let b = y / w.image_len();
    let k = (y / (r * c)) % d;
    let row = (y / c) % r;
    let col = y % c;
    let (i, m) = axis_parts(r, fr, row);
    let (j, n) = axis_parts(c, fc, col);
    b * (w.patches() * w.patch_len()) + (i * w.out_cols() + j) * w.patch_len() + (k * (fr * fc) + m
        * fc + n)
}

proof fn lemma_div_mod_of(x: int, d: int, q: int, r: int)
    requires
        d > 0,
        0 <= r < d,
        x == q * d + r,
    ensures
        x / d == q,
        x % d == r,
{
    vstd::arithmetic::div_mod::lemma_fundamental_div_mod_converse(x, d, q, r);
}

proof fn lemma_split(x: int, d: int)
    requires
        d > 0,
        x >= 0,
    ensures
        x == (x / d) * d + x % d,
        0 <= x % d < d,
        x / d >= 0,
{
    vstd::arithmetic::div_mod::lemma_fundamental_div_mod(x, d);
    vstd::arithmetic::div_mod::lemma_mod_pos_bound(x, d);
    vstd::arithmetic::div_mod::lemma_div_pos_is_pos(x, d);
    assert(d * (x / d) == (x / d) * d) by (nonlinear_arith);
}

proof fn lemma_div_div(x: int, a: int, b: int)
    requires
        x >= 0,
        a > 0,
        b > 0,
    ensures
        x / a / b == x / (a * b),
        x / a / b == x / (b * a),
{
    vstd::arithmetic::div_mod::lemma_div_denominator(x, a, b);
    assert(a * b == b * a) by (nonlinear_arith);
}

/// The sizes of a window whose patches cover every pixel once.
proof fn lemma_tiling_sizes(w: Window)
    requires
        w.ok(),
        tiles_without_overlap(w),
    ensures
        w.out_rows() * w.filter_rows == w.rows,
        w.out_cols() * w.filter_cols == w.cols,
        w.patches() * w.patch_len() == w.image_len(),
{
    let (d, r, c) = (w.depth as int, w.rows as int, w.cols as int);
    let (fr, fc) = (w.filter_rows as int, w.filter_cols as int);
    let (orr, oc) = (w.out_rows(), w.out_cols());
    lemma_axis(r, fr, w.stride_rows as int);
    lemma_axis(c, fc, w.stride_cols as int);
    assert(orr * oc * (d * fr * fc) == d * r * c) by (nonlinear_arith)
        requires
            orr * fr == r,
            oc * fc == c,
    ;
}

/// Unrolling element `o` and decoding the position it reads gives `o` back.
proof fn lemma_decode_source(w: Window, nb: int, o: int)
    requires
        w.ok(),
        tiles_without_overlap(w),
        0 <= o < nb * w.patches() * w.patch_len(),
    ensures
        decode(w, w.source(o)) == o,
{
    crate::image::lemma_source(w, nb, o);
    lemma_tiling_sizes(w);
    let (d, r, c) = (w.depth as int, w.rows as int, w.cols as int);
    let (fr, fc) = (w.filter_rows as int, w.filter_cols as int);
    let (pp, ql, il) = (w.patches(), w.patch_len(), w.image_len());
    let oc = w.out_cols();
    assert(pp * ql > 0 && fr * fc > 0 && r * c > 0 && il == d * (r * c)) by (nonlinear_arith)
        requires
            pp >= 1,
            ql >= 1,
            fr >= 1,
            fc >= 1,
            r >= 1,
            c >= 1,
            il == d * r * c,
    ;
    let b = o / (pp * ql);
    let p = (o / ql) % pp;
    let q = o % ql;
    let i = p / oc;
    let j = p % oc;
    let k = q / (fr * fc);
    let m = (q / fc) % fr;
    let n = q % fc;
    lemma_split(o, ql);
    lemma_split(o / ql, pp);
    lemma_div_div(o, ql, pp);
    assert(o == (b * pp + p) * ql + q);
    lemma_split(p, oc);
    lemma_split(q, fc);
    lemma_split(q / fc, fr);
    lemma_div_div(q, fc, fr);
    assert(q == (k * fr + m) * fc + n);
    assert(0 <= b < nb) by {
        assert(nb * pp * ql == nb * (pp * ql)) by (nonlinear_arith);
        vstd::arithmetic::div_mod::lemma_div_pos_is_pos(o, pp * ql);
        vstd::arithmetic::div_mod::lemma_multiply_divide_lt(o, pp * ql, nb);
        assert((pp * ql) * nb == nb * (pp * ql)) by (nonlinear_arith);
    }
    assert(0 <= k < d) by {
        vstd::arithmetic::div_mod::lemma_div_pos_is_pos(q, fr * fc);
        assert(ql == d * (fr * fc)) by (nonlinear_arith)
            requires
                ql == d * fr * fc,
        ;
        vstd::arithmetic::div_mod::lemma_multiply_divide_lt(q, fr * fc, d);
        assert((fr * fc) * d == d * (fr * fc)) by (nonlinear_arith);
    }
    assert(0 <= i < w.out_rows()) by {
        vstd::arithmetic::div_mod::lemma_div_pos_is_pos(p, oc);
        vstd::arithmetic::div_mod::lemma_multiply_divide_lt(p, oc, w.out_rows());
        assert(oc * w.out_rows() == w.out_rows() * oc) by (nonlinear_arith);
    }
    let row = m + w.stride_rows * i;
    let col = n + w.stride_cols * j;
    crate::image::lemma_parts(w, nb, b, i, j, k, m, n);
    assert(0 <= row < r && 0 <= col < c);
    let y = w.source(o);
    assert(y == b * il + (k * r + row) * c + col);
    // Decoding y.
    assert(y == b * il + (k * (r * c) + (row * c + col))) by (nonlinear_arith)
        requires
            y == b * il + (k * r + row) * c + col,
    ;
    assert(0 <= row * c + col < r * c) by (nonlinear_arith)
        requires
            0 <= row < r,
            0 <= col < c,
    ;
    assert(0 <= k * (r * c) + (row * c + col) < il) by (nonlinear_arith)
        requires
            0 <= k < d,
            0 <= row * c + col < r * c,
            il == d * (r * c),
    ;
    lemma_div_mod_of(y, il, b, k * (r * c) + (row * c + col));
    assert(y == (b * d + k) * (r * c) + (row * c + col)) by (nonlinear_arith)
        requires
            y == b * il + (k * (r * c) + (row * c + col)),
            il == d * (r * c),
    ;
    lemma_div_mod_of(y, r * c, b * d + k, row * c + col);
    lemma_div_mod_of(y / (r * c), d, b, k);
    assert(y == ((b * d + k) * r + row) * c + col) by (nonlinear_arith)
        requires
            y == (b * d + k) * (r * c) + (row * c + col),
    ;
    lemma_div_mod_of(y, c, (b * d + k) * r + row, col);
    lemma_div_mod_of(y / c, r, b * d + k, row);
    lemma_axis_parts_of(r, fr, w.stride_rows as int, i, m);
    lemma_axis_parts_of(c, fc, w.stride_cols as int, j, n);
    assert(decode(w, y) == b * (pp * ql) + (i * oc + j) * ql + (k * (fr * fc) + m * fc + n));
    assert(b * (pp * ql) + (i * oc + j) * ql + (k * (fr * fc) + m * fc + n) == o) by (nonlinear_arith)
        requires
            o == (b * pp + p) * ql + q,
            p == i * oc + j,
            q == (k * fr + m) * fc + n,
    ;
}

/// Decoding an image position gives an element of the unrolled batch that
/// reads that position.
proof fn lemma_source_decode(w: Window, nb: int, y: int)
    requires
        w.ok(),
        tiles_without_overlap(w),
        0 <= y < nb * w.image_len(),
    ensures
        0 <= decode(w, y) < nb * w.patches() * w.patch_len(),
        w.source(decode(w, y)) == y,
{
    lemma_tiling_sizes(w);
    let (d, r, c) = (w.depth as int, w.rows as int, w.cols as int);
    let (fr, fc) = (w.filter_rows as int, w.filter_cols as int);
    let (pp, ql, il) = (w.patches(), w.patch_len(), w.image_len());
    let (orr, oc) = (w.out_rows(), w.out_cols());
    assert(nb >= 1) by (nonlinear_arith)
        requires
            0 <= y < nb * il,
            il >= 0,
    ;
    lemma_sizes(w, nb);
    assert(fr * fc > 0 && r * c > 0 && il == d * (r * c) && il == (r * c) * d && pp * ql > 0) by (nonlinear_arith)
        requires
            fr >= 1,
            fc >= 1,
            r >= 1,
            c >= 1,
            pp >= 1,
            ql >= 1,
            il == d * r * c,
    ;
    let b = y / il;
    let k = (y / (r * c)) % d;
    let row = (y / c) % r;
    let col = y % c;
    lemma_split(y, c);
    lemma_split(y / c, r);
    lemma_div_div(y, c, r);
    lemma_split(y / (r * c), d);
    lemma_div_div(y, r * c, d);
    assert(y / (r * c) / d == b);
    assert(y == ((b * d + k) * r + row) * c + col);
    assert(0 <= b < nb) by {
        vstd::arithmetic::div_mod::lemma_div_pos_is_pos(y, il);
        assert(il * nb == nb * il) by (nonlinear_arith);
        vstd::arithmetic::div_mod::lemma_multiply_divide_lt(y, il, nb);
    }
    let (i, m) = axis_parts(r, fr, row);
    let (j, n) = axis_parts(c, fc, col);
    lemma_axis_parts_range(r, fr, w.stride_rows as int, row);
    lemma_axis_parts_range(c, fc, w.stride_cols as int, col);
    let p = i * oc + j;
    let q = k * (fr * fc) + m * fc + n;
    assert(0 <= p < pp) by (nonlinear_arith)
        requires
            0 <= i < orr,
            0 <= j < oc,
            pp == orr * oc,
            p == i * oc + j,
    ;
    assert(0 <= q < ql) by (nonlinear_arith)
        requires
            0 <= k < d,
            0 <= m < fr,
            0 <= n < fc,
            ql == d * fr * fc,
            q == k * (fr * fc) + m * fc + n,
    ;
    let o = decode(w, y);
    assert(o == b * (pp * ql) + p * ql + q);
    assert(0 <= o < nb * pp * ql) by (nonlinear_arith)
        requires
            0 <= b < nb,
            0 <= p < pp,
            0 <= q < ql,
            o == b * (pp * ql) + p * ql + q,
    ;
    // The parts of o.
    assert(o == (b * pp + p) * ql + q) by (nonlinear_arith)
        requires
            o == b * (pp * ql) + p * ql + q,
    ;
    assert(0 <= p * ql + q < pp * ql) by (nonlinear_arith)
        requires
            0 <= p < pp,
            0 <= q < ql,
    ;
    lemma_div_mod_of(o, pp * ql, b, p * ql + q);
    lemma_div_mod_of(o, ql, b * pp + p, q);
    lemma_div_mod_of(o / ql, pp, b, p);
    lemma_div_mod_of(p, oc, i, j);
    assert(q == (k * fr + m) * fc + n) by (nonlinear_arith)
        requires
            q == k * (fr * fc) + m * fc + n,
    ;
    assert(0 <= m * fc + n < fr * fc) by (nonlinear_arith)
        requires
            0 <= m < fr,
            0 <= n < fc,
    ;
    lemma_div_mod_of(q, fr * fc, k, m * fc + n);
    lemma_div_mod_of(q, fc, k * fr + m, n);
    lemma_div_mod_of(q / fc, fr, k, m);
    assert(w.source(o) == b * il + (k * r + m + w.stride_rows * i) * c + n + w.stride_cols * j);
    assert(y == b * il + (k * r + row) * c + col) by (nonlinear_arith)
        requires
            y == ((b * d + k) * r + row) * c + col,
            il == d * r * c,
    ;
    assert(k * r + m + w.stride_rows * i == k * r + row);
}

proof fn lemma_zero_add(v: Scalar)
    ensures
        add_s(0, v) == v,
{
}

/// Rolling the first `t` elements of an unrolled batch without overlap puts
/// each image value read so far back in place and leaves the rest zero.
proof fn lemma_roll_partial(x: Seq<Scalar>, w: Window, nb: int, t: int)
    requires
        w.ok(),
        tiles_without_overlap(w),
        nb >= 0,
        x.len() == nb * w.image_len(),
        0 <= t <= nb * w.patches() * w.patch_len(),
    ensures
        forall|y: int|
            0 <= y < x.len() ==> #[trigger] roll_prefix(unroll_spec(x, w, nb), w, nb, t)[y] == if 0
                <= decode(w, y) < t {
                x[y]
            } else {
                0
            },
    decreases t,
{
    let u = unroll_spec(x, w, nb);
    lemma_roll_len(u, w, nb, t);
    if t > 0 {
        lemma_roll_partial(x, w, nb, t - 1);
        let prev = roll_prefix(u, w, nb, t - 1);
        let s = w.source(t - 1);
        crate::image::lemma_source(w, nb, t - 1);
        lemma_decode_source(w, nb, t - 1);
        lemma_roll_len(u, w, nb, t - 1);
        assert(prev[s] == 0);
        lemma_zero_add(u[t - 1]);
        assert forall|y: int| 0 <= y < x.len() implies #[trigger] roll_prefix(u, w, nb, t)[y] == if 0
            <= decode(w, y) < t {
            x[y]
        } else {
            0
        } by {
            if y != s {
                lemma_source_decode(w, nb, y);
                assert(decode(w, y) != t - 1);
            }
        }
    } else {
        assert forall|y: int| 0 <= y < x.len() implies #[trigger] roll_prefix(u, w, nb, t)[y] == if 0
            <= decode(w, y) < t {
            x[y]
        } else {
            0
        } by {}
    }
}

/// Round trip: with patches that cover every pixel once (one pixel apart
/// and one pixel or the whole image wide, or as far apart as they are wide
/// and filling the image), rolling back the unrolled matrices of `nb`
/// images gives the images.
pub proof fn law_roll_unroll(x: Seq<Scalar>, w: Window, nb: int)
    requires
        w.ok(),
        tiles_without_overlap(w),
        nb >= 0,
        x.len() == nb * w.image_len(),
    ensures
        roll_spec(unroll_spec(x, w, nb), w, nb) == x,
{
    let t = nb * w.patches() * w.patch_len();
    if nb == 0 {
        assert(t == 0 && x.len() == 0) by (nonlinear_arith)
            requires
                nb == 0,
                t == nb * w.patches() * w.patch_len(),
                x.len() == nb * w.image_len(),
        ;
    } else {
        lemma_sizes(w, nb);
        assert(t >= 0) by (nonlinear_arith)
            requires
                nb >= 0,
                w.patches() >= 0,
                w.patch_len() >= 0,
                t == nb * w.patches() * w.patch_len(),
        ;
    }
    lemma_roll_partial(x, w, nb, t);
    lemma_roll_len(unroll_spec(x, w, nb), w, nb, t);
    assert forall|y: int| 0 <= y < x.len() implies #[trigger] roll_spec(unroll_spec(x, w, nb), w, nb)[y] == x[y] by {
        lemma_source_decode(w, nb, y);
    }
    assert(roll_spec(unroll_spec(x, w, nb), w, nb) =~= x);
}

} // verus!
