use vstd::prelude::*;

use crate::numbers::{add_s, mul_s, Scalar};
use crate::shape::count;

verus! {

/// The batch dimensions of an operand: all but the last two.
pub open spec fn batch_of(d: Seq<usize>) -> Seq<usize> {
    if d.len() >= 2 {
        d.take(d.len() - 2)
    } else {
        Seq::empty()
    }
}

/// Rows of the left operand as used (after the optional transpose); a
/// vector is a single row.
pub open spec fn outer_a(a: Seq<usize>, at: bool) -> int {
    if a.len() >= 2 {
        if at {
            a[a.len() - 1] as int
        } else {
            a[a.len() - 2] as int
        }
    } else {
        1
    }
}

/// Columns of the left operand as used: the contraction length.
pub open spec fn inner_a(a: Seq<usize>, at: bool) -> int {
    if a.len() >= 2 {
        if at {
            a[a.len() - 2] as int
        } else {
            a[a.len() - 1] as int
        }
    } else {
        a[0] as int
    }
}

/// Rows of the right operand as used: the contraction length; a vector is
/// a single column.
pub open spec fn inner_b(b: Seq<usize>, bt: bool) -> int {
    if b.len() >= 2 {
        if bt {
            b[b.len() - 1] as int
        } else {
            b[b.len() - 2] as int
        }
    } else {
        b[0] as int
    }
}

/// Columns of the right operand as used.
pub open spec fn outer_b(b: Seq<usize>, bt: bool) -> int {
    if b.len() >= 2 {
        if bt {
            b[b.len() - 2] as int
        } else {
            b[b.len() - 1] as int
        }
    } else {
        1
    }
}

/// The operands can be multiplied: both have a dimension, their batch
/// dimensions agree and so do their contraction lengths.
pub open spec fn matmul_ok(a: Seq<usize>, b: Seq<usize>, at: bool, bt: bool) -> bool {
    &&& a.len() >= 1
    &&& b.len() >= 1
    &&& batch_of(a) == batch_of(b)
    &&& inner_a(a, at) == inner_b(b, bt)
}

/// Dimensions of the product: the batch dimensions, then the rows (left out
/// when the left operand is a vector) and the columns.
pub open spec fn matmul_dims(a: Seq<usize>, b: Seq<usize>, at: bool, bt: bool) -> Seq<usize> {
    if a.len() < 2 {
        batch_of(a).push(outer_b(b, bt) as usize)
    } else {
        batch_of(a).push(outer_a(a, at) as usize).push(outer_b(b, bt) as usize)
    }
}

/// Values of the product of `a` by `b`.
pub open spec fn matmul_values(
    a: Seq<usize>,
    av: Seq<Scalar>,
    b: Seq<usize>,
    bv: Seq<Scalar>,
    at: bool,
    bt: bool,
) -> Seq<Scalar> {
    product(
        av,
        at,
        bv,
        bt,
        count(batch_of(a)) as int,
        outer_a(a, at),
        inner_a(a, at),
        outer_b(b, bt),
    )
}

/// Element `(r, k)` of the `n x m` matrix stored in `x` from position `base`:
/// row-major, or as the row-major `m x n` transpose when `t` holds.
pub open spec fn entry(x: Seq<Scalar>, base: int, n: int, m: int, t: bool, r: int, k: int) -> Scalar {
    if t {
        x[base + k * n + r]
    } else {
        x[base + r * m + k]
    }
}

/// Sum over `k < len` of `X[r][k] * Y[k][j]`, added in order of `k`, where
/// `X` (`n x m`) is stored in `x` from `xb` and `Y` (`m x p`) in `y` from `yb`.
pub open spec fn dot(
    x: Seq<Scalar>,
    xb: int,
    xt: bool,
    y: Seq<Scalar>,
    yb: int,
    yt: bool,
    n: int,
    m: int,
    p: int,
    r: int,
    j: int,
    len: int,
) -> Scalar
    decreases len,
{
    if len <= 0 {
        0
    } else {
        add_s(
            dot(x, xb, xt, y, yb, yt, n, m, p, r, j, len - 1),
            mul_s(entry(x, xb, n, m, xt, r, len - 1), entry(y, yb, m, p, yt, len - 1, j)),
        )
    }
}

/// Element `q` of the batched product: `nb` products of an `n x m` matrix of
/// `x` by an `m x p` matrix of `y`, each batch stored one after the other.
pub open spec fn product_at(
    x: Seq<Scalar>,
    xt: bool,
    y: Seq<Scalar>,
    yt: bool,
    n: int,
    m: int,
    p: int,
    q: int,
) -> Scalar {
    let b = q / (n * p);
    let r = (q % (n * p)) / p;
    let j = q % p;
    dot(x, b * n * m, xt, y, b * m * p, yt, n, m, p, r, j, m)
}

/// The batched matrix product of `nb` pairs, as a flat row-major sequence.
pub open spec fn product(
    x: Seq<Scalar>,
    xt: bool,
    y: Seq<Scalar>,
    yt: bool,
    nb: int,
    n: int,
    m: int,
    p: int,
) -> Seq<Scalar> {
    Seq::new((nb * n * p) as nat, |q: int| product_at(x, xt, y, yt, n, m, p, q))
}

pub(crate) proof fn lemma_split_index(q: int, nb: int, n: int, p: int)
    requires
        0 <= q < nb * n * p,
        n > 0,
        p > 0,
    ensures
        0 <= q / (n * p) < nb,
        0 <= (q % (n * p)) / p < n,
        0 <= q % p < p,
{
    assert(n * p > 0 && nb * n * p == (n * p) * nb) by (nonlinear_arith)
        requires
            n > 0,
            p > 0,
    ;
    vstd::arithmetic::div_mod::lemma_div_pos_is_pos(q, n * p);
    vstd::arithmetic::div_mod::lemma_multiply_divide_lt(q, n * p, nb);
    vstd::arithmetic::div_mod::lemma_mod_pos_bound(q, n * p);
    let s = q % (n * p);
    assert(n * p == p * n) by (nonlinear_arith);
    vstd::arithmetic::div_mod::lemma_div_pos_is_pos(s, p);
    vstd::arithmetic::div_mod::lemma_multiply_divide_lt(s, p, n);
    vstd::arithmetic::div_mod::lemma_mod_pos_bound(q, p);
}

pub(crate) proof fn lemma_entry_in_bounds(b: int, nb: int, n: int, m: int, r: int, k: int)
    requires
        0 <= b < nb,
        0 <= r < n,
        0 <= k < m,
    ensures
        0 <= b * n * m + r * m + k < nb * n * m,
        0 <= b * n * m + k * n + r < nb * n * m,
        0 <= r * m,
        0 <= k * n,
        0 <= b * n * m,
{
    assert(0 <= r * m && 0 <= k * n && 0 <= b * n * m) by (nonlinear_arith)
        requires
            0 <= b < nb,
            0 <= r < n,
            0 <= k < m,
    ;
    assert(0 <= b * n * m + r * m + k < nb * n * m) by (nonlinear_arith)
        requires
            0 <= b < nb,
            0 <= r < n,
            0 <= k < m,
    ;
    assert(0 <= b * n * m + k * n + r < nb * n * m) by (nonlinear_arith)
        requires
            0 <= b < nb,
            0 <= r < n,
            0 <= k < m,
    ;
}

proof fn lemma_offsets(b: int, nb: int, n: int, m: int, p: int)
    requires
        0 <= b < nb,
        n > 0,
        p > 0,
        m >= 0,
    ensures
        0 <= b * n <= nb * n,
        0 <= b * n * m <= nb * n * m,
        0 <= b * m <= b * m * p,
        b * m * p <= nb * m * p,
{
    assert(0 <= b * n <= nb * n) by (nonlinear_arith)
        requires
            0 <= b < nb,
            n > 0,
    ;
    assert(0 <= b * n * m <= nb * n * m) by (nonlinear_arith)
        requires
            0 <= b < nb,
            n > 0,
            m >= 0,
    ;
    assert(0 <= b * m <= b * m * p) by (nonlinear_arith)
        requires
            0 <= b,
            m >= 0,
            p > 0,
    ;
    assert(b * m * p <= nb * m * p) by (nonlinear_arith)
        requires
            0 <= b < nb,
            m >= 0,
            p > 0,
    ;
}

/// Computes `nb` matrix products one after the other: batch `b` multiplies the
/// `n x m` matrix stored in `x` from `b * n * m` (transposed storage when `xt`)
/// by the `m x p` matrix stored in `y` from `b * m * p` (transposed storage
/// when `yt`).
pub fn matmul_flat(
    x: &Vec<Scalar>,
    xt: bool,
    y: &Vec<Scalar>,
    yt: bool,
    nb: usize,
    n: usize,
    m: usize,
    p: usize,
) -> (r: Vec<Scalar>)
    requires
        x@.len() == nb * n * m,
        y@.len() == nb * m * p,
        nb * n * p <= usize::MAX,
    ensures
        r@ == product(x@, xt, y@, yt, nb as int, n as int, m as int, p as int),
{
    let ghost spec_r = product(x@, xt, y@, yt, nb as int, n as int, m as int, p as int);
    let xl = x.len();
    let yl = y.len();
    if nb == 0 || n == 0 || p == 0 {
        let out: Vec<Scalar> = Vec::new();
        assert(nb * n * p == 0) by (nonlinear_arith)
            requires
                nb == 0 || n == 0 || p == 0,
        ;
        assert(out@ =~= spec_r);
        return out;
    }
    assert(n * p <= nb * n * p && nb * n <= nb * n * p && n * p > 0) by (nonlinear_arith)
        requires
            nb >= 1,
            n >= 1,
            p >= 1,
    ;
    let total = nb * n * p;
    let mut out: Vec<Scalar> = Vec::with_capacity(total);
    let np = n * p;
    let mut q: usize = 0;
    while q < total
        invariant
            n > 0,
            p > 0,
            nb > 0,
            np == n * p,
            np > 0,
            total == nb * n * p,
            nb * n <= total,
            xl == x@.len(),
            yl == y@.len(),
            x@.len() == nb * n * m,
            y@.len() == nb * m * p,
            q <= total,
            spec_r.len() == total,
            spec_r == product(x@, xt, y@, yt, nb as int, n as int, m as int, p as int),
            out@ =~= spec_r.take(q as int),
        decreases total - q,
    {
        proof {
            lemma_split_index(q as int, nb as int, n as int, p as int);
        }
        let b = q / np;
        let row = (q % np) / p;
        let col = q % p;
        proof {
            lemma_offsets(b as int, nb as int, n as int, m as int, p as int);
        }
        let bn = b * n;
        let xb = bn * m;
        let bm = b * m;
        let yb = bm * p;
        let mut sum: Scalar = 0;
        let mut k: usize = 0;
        while k < m
            invariant
                0 <= b < nb,
                0 <= row < n,
                0 <= col < p,
                xb == b * n * m,
                yb == b * m * p,
                xl == x@.len(),
                yl == y@.len(),
                x@.len() == nb * n * m,
                y@.len() == nb * m * p,
                k <= m,
                sum == dot(x@, xb as int, xt, y@, yb as int, yt, n as int, m as int, p as int, row as int, col as int, k as int),
            decreases m - k,
        {
            proof {
                lemma_entry_in_bounds(b as int, nb as int, n as int, m as int, row as int, k as int);
                lemma_entry_in_bounds(b as int, nb as int, m as int, p as int, k as int, col as int);
            }
            let xv = if xt {
                x[xb + k * n + row]
            } else {
                x[xb + row * m + k]
            };
            let yv = if yt {
                y[yb + col * m + k]
            } else {
                y[yb + k * p + col]
            };
            sum = sum.wrapping_add(xv.wrapping_mul(yv));
            k += 1;
        }
        out.push(sum);
        q += 1;
    }
    out
}

} // verus!
