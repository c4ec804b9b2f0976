use vstd::prelude::*;

use crate::matmul::{lemma_entry_in_bounds, lemma_split_index};
use crate::matmul::product;
use crate::numbers::{add_s, Scalar};
use crate::shape::count;

verus! {

/// Where the patches of a convolution lie in an image: the image's depth,
/// rows and columns, the strides between patches, and the patch size.
#[derive(Clone, Copy, Debug, PartialEq, Eq, Structural)]
pub struct Window {
    pub depth: usize,
    pub rows: usize,
    pub cols: usize,
    pub stride_rows: usize,
    pub stride_cols: usize,
    pub filter_rows: usize,
    pub filter_cols: usize,
}

impl Window {
    /// Every size and stride is positive and the patch fits in the image.
    pub open spec fn ok(self) -> bool {
        &&& self.depth >= 1
        &&& self.rows >= 1
        &&& self.cols >= 1
        &&& self.stride_rows >= 1
        &&& self.stride_cols >= 1
        &&& 1 <= self.filter_rows <= self.rows
        &&& 1 <= self.filter_cols <= self.cols
    }

    /// Number of patch positions down the image.
    pub open spec fn out_rows(self) -> int {
        (self.rows - self.filter_rows) / (self.stride_rows as int) + 1
    }

    /// Number of patch positions across the image.
    pub open spec fn out_cols(self) -> int {
        (self.cols - self.filter_cols) / (self.stride_cols as int) + 1
    }

    /// Number of patch positions.
    pub open spec fn patches(self) -> int {
        self.out_rows() * self.out_cols()
    }

    /// Number of values in one patch, over all depths.
    pub open spec fn patch_len(self) -> int {
        self.depth * self.filter_rows * self.filter_cols
    }

    /// Number of values in one image.
    pub open spec fn image_len(self) -> int {
        self.depth * self.rows * self.cols
    }

    /// Position in the image batch of element `o` of the unrolled matrix
    /// batch: row `p` of the matrix is patch `(i, j)`, column `q` is depth
    /// `k`, patch row `m` and patch column `n`.
    pub open spec fn source(self, o: int) -> int {
        let pq = self.patches() * self.patch_len();
        let b = o / pq;
        let p = (o / self.patch_len()) % self.patches();
        let q = o % self.patch_len();
        let i = p / self.out_cols();
        let j = p % self.out_cols();
        let k = q / (self.filter_rows * self.filter_cols);
        let m = (q / (self.filter_cols as int)) % (self.filter_rows as int);
        let n = q % (self.filter_cols as int);
        b * self.image_len() + (k * self.rows + m + self.stride_rows * i) * self.cols + n
            + self.stride_cols * j
    }
}

/// The dimensions before the last `k`.
pub open spec fn lead(d: Seq<usize>, k: int) -> Seq<usize> {
    d.take(d.len() - k)
}

/// The window of patches of size `filter`, `stride` apart, over images whose
/// depth, rows and columns are the last three dimensions of `d`.
pub open spec fn window_of(d: Seq<usize>, stride: (usize, usize), filter: (usize, usize)) -> Window {
    Window {
        depth: d[d.len() - 3],
        rows: d[d.len() - 2],
        cols: d[d.len() - 1],
        stride_rows: stride.0,
        stride_cols: stride.1,
        filter_rows: filter.0,
        filter_cols: filter.1,
    }
}

/// The window over images of dimensions `image`.
pub open spec fn window_for(
    image: (usize, usize, usize),
    stride: (usize, usize),
    filter: (usize, usize),
) -> Window {
    Window {
        depth: image.0,
        rows: image.1,
        cols: image.2,
        stride_rows: stride.0,
        stride_cols: stride.1,
        filter_rows: filter.0,
        filter_cols: filter.1,
    }
}

/// Unrolled matrices of dimensions `d` can be rolled back into images of
/// dimensions `image`.
pub open spec fn roll_ok(
    d: Seq<usize>,
    image: (usize, usize, usize),
    stride: (usize, usize),
    filter: (usize, usize),
) -> bool {
    let w = window_for(image, stride, filter);
    &&& d.len() >= 2
    &&& w.ok()
    &&& d[d.len() - 2] == w.patches()
    &&& d[d.len() - 1] == w.patch_len()
}

/// Images of dimensions `d` can be unrolled with this stride and filter.
pub open spec fn unroll_ok(d: Seq<usize>, stride: (usize, usize), filter: (usize, usize)) -> bool {
    d.len() >= 3 && window_of(d, stride, filter).ok()
}

/// The leading dimensions of filters of dimensions `f`: those before the
/// filter count.
pub open spec fn filter_lead(f: Seq<usize>) -> Seq<usize> {
    if f.len() >= 4 {
        lead(f, 4)
    } else {
        Seq::empty()
    }
}

/// Images of dimensions `i` can be convolved with filters of dimensions `f`
/// (leading dimensions, then the filter count, depth, rows and columns; or
/// just one filter of depth, rows and columns) at this stride. Leading
/// dimensions broadcast: when only one side has them, the other side is used
/// for each of them; when both have them, they must agree.
pub open spec fn conv_ok(i: Seq<usize>, f: Seq<usize>, stride: (usize, usize)) -> bool {
    &&& i.len() >= 3
    &&& f.len() >= 3
    &&& window_of(i, stride, (f[f.len() - 2], f[f.len() - 1])).ok()
    &&& f[f.len() - 3] == i[i.len() - 3]
    &&& (filter_lead(f).len() == 0 || lead(i, 3).len() == 0 || filter_lead(f) == lead(i, 3))
}

/// The number of filters in an array of filters of dimensions `f`.
pub open spec fn filter_count(f: Seq<usize>) -> usize {
    if f.len() >= 4 {
        f[f.len() - 4]
    } else {
        1
    }
}

/// The window of a convolution of images `i` by filters `f`.
pub open spec fn conv_window(i: Seq<usize>, f: Seq<usize>, stride: (usize, usize)) -> Window {
    window_of(i, stride, (f[f.len() - 2], f[f.len() - 1]))
}

/// The leading dimensions of a convolution: the filters' when they have
/// some, the images' otherwise.
pub open spec fn conv_lead(i: Seq<usize>, f: Seq<usize>) -> Seq<usize> {
    if filter_lead(f).len() == 0 {
        lead(i, 3)
    } else {
        filter_lead(f)
    }
}

/// Dimensions of a convolution: the leading dimensions, then one image of
/// patch positions per filter.
pub open spec fn conv_dims(i: Seq<usize>, f: Seq<usize>, stride: (usize, usize)) -> Seq<usize> {
    let w = conv_window(i, f, stride);
    conv_lead(i, f).push(filter_count(f)).push(w.out_rows() as usize).push(w.out_cols() as usize)
}

/// The unrolled images and the convolution's values fit in memory.
pub open spec fn conv_fits(i: Seq<usize>, f: Seq<usize>, stride: (usize, usize)) -> bool {
    let w = conv_window(i, f, stride);
    &&& count(lead(i, 3)) * w.patches() * w.patch_len() <= usize::MAX
    &&& count(conv_lead(i, f)) * w.patches() * filter_count(f) <= usize::MAX
}

/// Values of a convolution: every patch of every image unrolled into a row,
/// multiplied by every filter flattened into a row, and laid out filter by
/// filter. Filters without leading dimensions serve every image; one image
/// without them serves every group of filters; otherwise image and filter
/// group of the same leading index go together.
pub open spec fn conv_values(
    i: Seq<usize>,
    iv: Seq<Scalar>,
    f: Seq<usize>,
    fv: Seq<Scalar>,
    stride: (usize, usize),
) -> Seq<Scalar> {
    let w = conv_window(i, f, stride);
    let nb = count(lead(i, 3)) as int;
    let nf = filter_count(f) as int;
    let ng = count(filter_lead(f)) as int;
    let u = unroll_spec(iv, w, nb);
    if filter_lead(f).len() == 0 {
        transpose_spec(
            product(u, false, fv, true, 1, nb * w.patches(), w.patch_len(), nf),
            nb,
            w.patches(),
            nf,
        )
    } else if lead(i, 3).len() == 0 {
        transpose_spec(
            product(u, false, fv, true, 1, w.patches(), w.patch_len(), ng * nf),
            1,
            w.patches(),
            ng * nf,
        )
    } else {
        transpose_spec(product(u, false, fv, true, nb, w.patches(), w.patch_len(), nf), nb, w.patches(), nf)
    }
}

/// The unrolled matrices of `nb` images: one row per patch position, holding
/// the patch's values depth by depth, each row by row.
pub open spec fn unroll_spec(x: Seq<Scalar>, w: Window, nb: int) -> Seq<Scalar> {
    Seq::new((nb * w.patches() * w.patch_len()) as nat, |o: int| x[w.source(o)])
}

/// Adds the first `t` values of the unrolled batch `u` back at the image
/// positions they were read from, starting from zeros.
pub open spec fn roll_prefix(u: Seq<Scalar>, w: Window, nb: int, t: int) -> Seq<Scalar>
    decreases t,
{
    if t <= 0 {
        Seq::new((nb * w.image_len()) as nat, |i: int| 0i64)
    } else {
        let prev = roll_prefix(u, w, nb, t - 1);
        let at = w.source(t - 1);
        prev.update(at, add_s(prev[at], u[t - 1]))
    }
}

/// Rolling keeps the size of the image batch.
pub proof fn lemma_roll_len(u: Seq<Scalar>, w: Window, nb: int, t: int)
    requires
        w.ok(),
        nb >= 0,
        t <= nb * w.patches() * w.patch_len(),
    ensures
        roll_prefix(u, w, nb, t).len() == nb * w.image_len(),
    decreases t,
{
    assert(nb * w.image_len() >= 0) by (nonlinear_arith)
        requires
            nb >= 0,
            w.image_len() >= 0,
    ;
    if t > 0 {
        lemma_roll_len(u, w, nb, t - 1);
        lemma_source(w, nb, t - 1);
    }
}

/// The images rebuilt from the unrolled batch `u`: every value is added back
/// at the image position it was read from, so overlapping patches add up.
pub open spec fn roll_spec(u: Seq<Scalar>, w: Window, nb: int) -> Seq<Scalar> {
    roll_prefix(u, w, nb, nb * w.patches() * w.patch_len())
}

/// Each of `nb` matrices `n x m`, stored one after the other, transposed.
pub open spec fn transpose_spec(x: Seq<Scalar>, nb: int, n: int, m: int) -> Seq<Scalar> {
    Seq::new(
        (nb * n * m) as nat,
        |o: int|
            {
                let b = o / (n * m);
                let j = (o % (n * m)) / n;
                let i = o % n;
                x[b * n * m + i * m + j]
            },
    )
}

proof fn lemma_div_mod_bounds(x: int, d: int, e: int)
    requires
        0 <= x < d * e,
        d > 0,
        e > 0,
    ensures
        0 <= x / e < d,
        0 <= x % e < e,
{
    assert(d * e == e * d) by (nonlinear_arith);
    vstd::arithmetic::div_mod::lemma_div_pos_is_pos(x, e);
    vstd::arithmetic::div_mod::lemma_multiply_divide_lt(x, e, d);
    vstd::arithmetic::div_mod::lemma_mod_pos_bound(x, e);
}

/// Facts about one element `o` of an unrolled batch: the parts it splits
/// into are in range and the image position it reads lies in the batch.
pub proof fn lemma_source(w: Window, nb: int, o: int)
    requires
        w.ok(),
        0 <= o < nb * w.patches() * w.patch_len(),
    ensures
        w.out_rows() >= 1,
        w.out_cols() >= 1,
        w.patches() >= 1,
        w.patch_len() >= 1,
        w.image_len() >= 1,
        w.stride_rows * (w.out_rows() - 1) <= w.rows - w.filter_rows,
        w.stride_cols * (w.out_cols() - 1) <= w.cols - w.filter_cols,
        0 <= w.source(o) < nb * w.image_len(),
{
    let (d, r, c, sr, sc, fr, fc) = (
        w.depth as int,
        w.rows as int,
        w.cols as int,
        w.stride_rows as int,
        w.stride_cols as int,
        w.filter_rows as int,
        w.filter_cols as int,
    );
    let (orr, oc) = (w.out_rows(), w.out_cols());
    vstd::arithmetic::div_mod::lemma_div_pos_is_pos(r - fr, sr);
    vstd::arithmetic::div_mod::lemma_div_pos_is_pos(c - fc, sc);
    vstd::arithmetic::div_mod::lemma_fundamental_div_mod(r - fr, sr);
    vstd::arithmetic::div_mod::lemma_fundamental_div_mod(c - fc, sc);
    vstd::arithmetic::div_mod::lemma_mod_pos_bound(r - fr, sr);
    vstd::arithmetic::div_mod::lemma_mod_pos_bound(c - fc, sc);
    let (pp, ql) = (w.patches(), w.patch_len());
    assert(pp >= 1 && ql >= 1 && w.image_len() >= 1 && fr * fc >= 1) by (nonlinear_arith)
        requires
            orr >= 1,
            oc >= 1,
            d >= 1,
            r >= 1,
            c >= 1,
            fr >= 1,
            fc >= 1,
            pp == orr * oc,
            ql == d * fr * fc,
            w.image_len() == d * r * c,
    ;
    assert(nb * pp * ql == nb * (pp * ql)) by (nonlinear_arith);
    assert(nb >= 1) by (nonlinear_arith)
        requires
            0 <= o < nb * pp * ql,
            pp >= 1,
            ql >= 1,
    ;
    assert(pp * ql >= 1) by (nonlinear_arith)
        requires
            pp >= 1,
            ql >= 1,
    ;
    lemma_div_mod_bounds(o, nb, pp * ql);
    let b = o / (pp * ql);
    assert(o / ql < pp * nb) by {
        assert((pp * nb) * ql == nb * (pp * ql) && pp * nb > 0) by (nonlinear_arith)
            requires
                pp >= 1,
                nb >= 1,
        ;
        lemma_div_mod_bounds(o, pp * nb, ql);
    }
    vstd::arithmetic::div_mod::lemma_div_pos_is_pos(o, ql);
    vstd::arithmetic::div_mod::lemma_mod_pos_bound(o / ql, pp);
    let p = (o / ql) % pp;
    vstd::arithmetic::div_mod::lemma_mod_pos_bound(o, ql);
    let q = o % ql;
    lemma_div_mod_bounds(p, orr, oc);
    let i = p / oc;
    let j = p % oc;
    assert(ql == d * (fr * fc)) by (nonlinear_arith)
        requires
            ql == d * fr * fc,
    ;
    lemma_div_mod_bounds(q, d, fr * fc);
    let k = q / (fr * fc);
    assert(q / fc < d * fr) by {
        assert((d * fr) * fc == d * (fr * fc) && d * fr > 0) by (nonlinear_arith)
            requires
                d >= 1,
                fr >= 1,
        ;
        lemma_div_mod_bounds(q, d * fr, fc);
    }
    vstd::arithmetic::div_mod::lemma_div_pos_is_pos(q, fc);
    vstd::arithmetic::div_mod::lemma_mod_pos_bound(q / fc, fr);
    let m = (q / fc) % fr;
    vstd::arithmetic::div_mod::lemma_mod_pos_bound(q, fc);
    let n = q % fc;
    assert(sr * (orr - 1) <= r - fr) by (nonlinear_arith)
        requires
            orr - 1 == (r - fr) / sr,
            r - fr == sr * ((r - fr) / sr) + (r - fr) % sr,
            (r - fr) % sr >= 0,
    ;
    assert(sc * (oc - 1) <= c - fc) by (nonlinear_arith)
        requires
            oc - 1 == (c - fc) / sc,
            c - fc == sc * ((c - fc) / sc) + (c - fc) % sc,
            (c - fc) % sc >= 0,
    ;
    let row = m + sr * i;
    let col = n + sc * j;
    assert(0 <= row < r) by (nonlinear_arith)
        requires
            0 <= m < fr,
            0 <= i < orr,
            sr >= 1,
            sr * (orr - 1) <= r - fr,
            row == m + sr * i,
    ;
    assert(0 <= col < c) by (nonlinear_arith)
        requires
            0 <= n < fc,
            0 <= j < oc,
            sc >= 1,
            sc * (oc - 1) <= c - fc,
            col == n + sc * j,
    ;
    assert(0 <= b * (d * r * c) + (k * r + row) * c + col < nb * (d * r * c)) by (nonlinear_arith)
        requires
            0 <= b < nb,
            0 <= k < d,
            0 <= row < r,
            0 <= col < c,
    ;
    assert(w.source(o) == b * (d * r * c) + (k * r + row) * c + col);
}

/// Bounds on the image position of a patch element, given its parts.
pub(crate) proof fn lemma_parts(w: Window, nb: int, b: int, i: int, j: int, k: int, m: int, n: int)
    requires
        w.ok(),
        0 <= b < nb,
        0 <= i < w.out_rows(),
        0 <= j < w.out_cols(),
        0 <= k < w.depth,
        0 <= m < w.filter_rows,
        0 <= n < w.filter_cols,
        w.stride_rows * (w.out_rows() - 1) <= w.rows - w.filter_rows,
        w.stride_cols * (w.out_cols() - 1) <= w.cols - w.filter_cols,
    ensures
        0 <= w.stride_rows * i <= w.rows,
        0 <= w.stride_cols * j <= w.cols,
        0 <= m + w.stride_rows * i < w.rows,
        0 <= n + w.stride_cols * j < w.cols,
        0 <= k * w.rows,
        0 <= k * w.rows + m + w.stride_rows * i < w.depth * w.rows,
        0 <= (k * w.rows + m + w.stride_rows * i) * w.cols,
        0 <= (k * w.rows + m + w.stride_rows * i) * w.cols + n + w.stride_cols * j < w.image_len(),
        0 <= b * w.image_len(),
        b * w.image_len() + (k * w.rows + m + w.stride_rows * i) * w.cols + n + w.stride_cols * j
            < nb * w.image_len(),
{
    let (d, r, c, sr, sc, fr, fc) = (
        w.depth as int,
        w.rows as int,
        w.cols as int,
        w.stride_rows as int,
        w.stride_cols as int,
        w.filter_rows as int,
        w.filter_cols as int,
    );
    let (orr, oc) = (w.out_rows(), w.out_cols());
    assert(0 <= sr * i <= sr * (orr - 1)) by (nonlinear_arith)
        requires
            0 <= i < orr,
            sr >= 1,
    ;
    assert(0 <= sc * j <= sc * (oc - 1)) by (nonlinear_arith)
        requires
            0 <= j < oc,
            sc >= 1,
    ;
    let row = m + sr * i;
    let col = n + sc * j;
    assert(0 <= k * r && k * r + row < d * r) by (nonlinear_arith)
        requires
            0 <= k < d,
            0 <= row < r,
    ;
    assert(0 <= (k * r + row) * c && (k * r + row) * c + col < d * r * c) by (nonlinear_arith)
        requires
            0 <= k * r + row < d * r,
            0 <= col < c,
    ;
    let il = d * r * c;
    assert(0 <= b * il && b * il + (k * r + row) * c + col < nb * il) by (nonlinear_arith)
        requires
            0 <= b < nb,
            0 <= (k * r + row) * c + col < il,
    ;
}

impl Window {
    /// Whether the window is well formed.
    pub fn is_ok(&self) -> (r: bool)
        ensures
            r == self.ok(),
    {
        self.depth >= 1 && self.rows >= 1 && self.cols >= 1 && self.stride_rows >= 1
            && self.stride_cols >= 1 && 1 <= self.filter_rows && self.filter_rows <= self.rows
            && 1 <= self.filter_cols && self.filter_cols <= self.cols
    }

    /// Computes `self.source(o)` for an element of an unrolled batch of `nb`
    /// images.
    fn source_index(&self, nb: usize, o: usize) -> (r: usize)
        requires
            self.ok(),
            0 <= o < nb * self.patches() * self.patch_len(),
            nb * self.image_len() <= usize::MAX,
            nb * self.patches() * self.patch_len() <= usize::MAX,
        ensures
            r == self.source(o as int),
            r < nb * self.image_len(),
    {
        proof {
            lemma_source(*self, nb as int, o as int);
        }
        let w = *self;
        let orr = (w.rows - w.filter_rows) / w.stride_rows + 1;
        let oc = (w.cols - w.filter_cols) / w.stride_cols + 1;
        proof {
            let (pp, ql) = (orr * oc, w.patch_len());
            assert(nb >= 1 && pp * ql <= nb * pp * ql && pp <= pp * ql && ql <= pp * ql
                && w.filter_rows * w.filter_cols <= ql && w.image_len() <= nb * w.image_len()
                && w.depth * w.rows <= w.image_len()) by (nonlinear_arith)
                requires
                    0 <= o < nb * pp * ql,
                    pp >= 1,
                    ql >= 1,
                    ql == w.depth * w.filter_rows * w.filter_cols,
                    w.depth >= 1,
                    w.cols >= 1,
                    w.image_len() == w.depth * w.rows * w.cols,
            ;
        }
        proof {
            assert(w.depth * (w.filter_rows * w.filter_cols) == w.patch_len()) by (nonlinear_arith);
        }
        let pp = orr * oc;
        let frc = w.filter_rows * w.filter_cols;
        let ql = w.depth * frc;
        let il = w.depth * w.rows * w.cols;
        let b = o / (pp * ql);
        let p = (o / ql) % pp;
        let q = o % ql;
        let i = p / oc;
        let j = p % oc;
        let k = q / frc;
        let m = (q / w.filter_cols) % w.filter_rows;
        let n = q % w.filter_cols;
        proof {
            assert(ql == w.patch_len()) by (nonlinear_arith)
                requires
                    ql == w.depth * frc,
                    frc == w.filter_rows * w.filter_cols,
            ;
            assert(pp * ql > 0) by (nonlinear_arith)
                requires
                    pp >= 1,
                    ql >= 1,
            ;
            assert(nb * pp * ql == nb * (pp * ql)) by (nonlinear_arith);
            lemma_div_mod_bounds(o as int, nb as int, (pp * ql) as int);
            vstd::arithmetic::div_mod::lemma_mod_pos_bound((o / ql) as int, pp as int);
            vstd::arithmetic::div_mod::lemma_mod_pos_bound(o as int, ql as int);
            lemma_div_mod_bounds(p as int, orr as int, oc as int);
            assert(ql == w.depth * frc);
            lemma_div_mod_bounds(q as int, w.depth as int, frc as int);
            vstd::arithmetic::div_mod::lemma_mod_pos_bound((q / w.filter_cols) as int, w.filter_rows as int);
            vstd::arithmetic::div_mod::lemma_mod_pos_bound(q as int, w.filter_cols as int);
            lemma_parts(w, nb as int, b as int, i as int, j as int, k as int, m as int, n as int);
        }
        let row = m + w.stride_rows * i;
        let col = n + w.stride_cols * j;
        b * il + (k * w.rows + row) * w.cols + col
    }
}

/// Sizes of the unrolled batch and of the image batch, and their bounds.
pub proof fn lemma_sizes(w: Window, nb: int)
    requires
        w.ok(),
        nb >= 1,
    ensures
        w.patches() >= 1,
        w.patch_len() >= 1,
        w.image_len() >= 1,
        w.patches() <= nb * w.patches() * w.patch_len(),
        w.patch_len() <= nb * w.patches() * w.patch_len(),
{
    vstd::arithmetic::div_mod::lemma_div_pos_is_pos(w.rows - w.filter_rows, w.stride_rows as int);
    vstd::arithmetic::div_mod::lemma_div_pos_is_pos(w.cols - w.filter_cols, w.stride_cols as int);
    let (pp, ql) = (w.patches(), w.patch_len());
    assert(pp >= 1 && ql >= 1 && w.image_len() >= 1) by (nonlinear_arith)
        requires
            w.out_rows() >= 1,
            w.out_cols() >= 1,
            w.depth >= 1,
            w.rows >= 1,
            w.cols >= 1,
            w.filter_rows >= 1,
            w.filter_cols >= 1,
            pp == w.out_rows() * w.out_cols(),
            ql == w.depth * w.filter_rows * w.filter_cols,
            w.image_len() == w.depth * w.rows * w.cols,
    ;
    assert(pp <= nb * pp * ql && ql <= nb * pp * ql) by (nonlinear_arith)
        requires
            pp >= 1,
            ql >= 1,
            nb >= 1,
    ;
}

/// The unrolled matrices of a batch of `nb` images.
pub fn unroll_values(x: &Vec<Scalar>, w: Window, nb: usize) -> (r: Vec<Scalar>)
    requires
        w.ok(),
        x@.len() == nb * w.image_len(),
        nb * w.patches() * w.patch_len() <= usize::MAX,
    ensures
        r@ == unroll_spec(x@, w, nb as int),
{
    let ghost sp = unroll_spec(x@, w, nb as int);
    if nb == 0 {
        assert(0 * w.patches() * w.patch_len() == 0) by (nonlinear_arith);
        assert(sp =~= Seq::<Scalar>::empty());
        return Vec::new();
    }
    proof {
        lemma_sizes(w, nb as int);
        let (pp, ql) = (w.patches(), w.patch_len());
        assert(nb * pp <= nb * pp * ql && w.depth * w.filter_rows <= ql) by (nonlinear_arith)
            requires
                pp >= 1,
                ql >= 1,
                nb >= 1,
                ql == w.depth * w.filter_rows * w.filter_cols,
                w.filter_cols >= 1,
        ;
    }
    let _ = x.len();
    let orr = (w.rows - w.filter_rows) / w.stride_rows + 1;
    let oc = (w.cols - w.filter_cols) / w.stride_cols + 1;
    let pp = orr * oc;
    let ql = w.depth * w.filter_rows * w.filter_cols;
    let total = nb * pp * ql;
    let mut out: Vec<Scalar> = Vec::with_capacity(total);
    let mut o: usize = 0;
    while o < total
        invariant
            w.ok(),
            x@.len() == nb * w.image_len(),
            nb * w.image_len() <= usize::MAX,
            total == nb * w.patches() * w.patch_len(),
            total <= usize::MAX,
            sp == unroll_spec(x@, w, nb as int),
            o <= total,
            out@ =~= sp.take(o as int),
        decreases total - o,
    {
        let t = w.source_index(nb, o);
        out.push(x[t]);
        o += 1;
    }
    out
}

/// The images rebuilt from an unrolled batch of `nb` images, overlapping
/// patches adding up.
pub fn roll_values(u: &Vec<Scalar>, w: Window, nb: usize) -> (r: Vec<Scalar>)
    requires
        w.ok(),
        u@.len() == nb * w.patches() * w.patch_len(),
        nb * w.image_len() <= usize::MAX,
    ensures
        r@ == roll_spec(u@, w, nb as int),
        r@.len() == nb * w.image_len(),
{
    let _ = u.len();
    if nb == 0 {
        assert(0 * w.patches() * w.patch_len() == 0 && 0 * w.image_len() == 0) by (nonlinear_arith);
        let out: Vec<Scalar> = Vec::new();
        assert(out@ =~= roll_spec(u@, w, 0));
        return out;
    }
    proof {
        lemma_sizes(w, nb as int);
        assert(w.depth * w.rows <= w.image_len() && w.image_len() <= nb * w.image_len()) by (nonlinear_arith)
            requires
                w.image_len() == w.depth * w.rows * w.cols,
                w.cols >= 1,
                nb >= 1,
                w.image_len() >= 1,
        ;
    }
    let size = nb * (w.depth * w.rows * w.cols);
    let mut out: Vec<Scalar> = Vec::with_capacity(size);
    let mut i: usize = 0;
    while i < size
        invariant
            i <= size,
            size == nb * w.image_len(),
            out@ =~= roll_prefix(u@, w, nb as int, 0).take(i as int),
        decreases size - i,
    {
        out.push(0);
        i += 1;
    }
    let total = u.len();
    let mut o: usize = 0;
    while o < total
        invariant
            w.ok(),
            total == u@.len(),
            u@.len() == nb * w.patches() * w.patch_len(),
            nb * w.image_len() <= usize::MAX,
            o <= total,
            out@ == roll_prefix(u@, w, nb as int, o as int),
            out@.len() == nb * w.image_len(),
        decreases total - o,
    {
        let t = w.source_index(nb, o);
        let v = out[t].wrapping_add(u[o]);
        out.set(t, v);
        o += 1;
    }
    out
}

/// Transposes each of `nb` matrices `n x m` stored one after the other.
pub fn transpose_values(x: &Vec<Scalar>, nb: usize, n: usize, m: usize) -> (r: Vec<Scalar>)
    requires
        x@.len() == nb * n * m,
    ensures
        r@ == transpose_spec(x@, nb as int, n as int, m as int),
{
    let ghost sp = transpose_spec(x@, nb as int, n as int, m as int);
    let _ = x.len();
    if nb == 0 || n == 0 || m == 0 {
        assert(nb * n * m == 0) by (nonlinear_arith)
            requires
                nb == 0 || n == 0 || m == 0,
        ;
        assert(sp =~= Seq::<Scalar>::empty());
        return Vec::new();
    }
    assert(n * m <= nb * n * m && n * m > 0 && nb * n * m == nb * m * n && n * m == m * n) by (nonlinear_arith)
        requires
            nb >= 1,
            n >= 1,
            m >= 1,
    ;
    assert(nb * (n * m) == nb * n * m) by (nonlinear_arith);
    let nm = n * m;
    let total = nb * nm;
    let mut out: Vec<Scalar> = Vec::with_capacity(total);
    let mut o: usize = 0;
    while o < total
        invariant
            nb >= 1,
            n >= 1,
            m >= 1,
            nm == n * m,
            nm == m * n,
            nm > 0,
            total == nb * n * m,
            total == nb * m * n,
            x@.len() == nb * n * m,
            sp == transpose_spec(x@, nb as int, n as int, m as int),
            o <= total,
            out@ =~= sp.take(o as int),
        decreases total - o,
    {
        proof {
            lemma_split_index(o as int, nb as int, m as int, n as int);
        }
        let b = o / nm;
        let j = (o % nm) / n;
        let i = o % n;
        proof {
            lemma_entry_in_bounds(b as int, nb as int, n as int, m as int, i as int, j as int);
            assert(b * nm == b * n * m) by (nonlinear_arith)
                requires
                    nm == n * m,
            ;
        }
        out.push(x[b * nm + i * m + j]);
        o += 1;
    }
    out
}

} // verus!
