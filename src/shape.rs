use vstd::prelude::*;

verus! {

/// Number of elements of an array with dimensions `dims`: their product.
pub open spec fn count(dims: Seq<usize>) -> nat
    decreases dims.len(),
{
    if dims.len() == 0 {
        1
    } else {
        count(dims.drop_last()) * (dims.last() as nat)
    }
}


/// Every dimension is at least one.
pub open spec fn positive(dims: Seq<usize>) -> bool {
    forall|k: int| 0 <= k < dims.len() ==> #[trigger] dims[k] >= 1
}

/// The count of a prefix of positive dimensions is at most the whole count.
pub proof fn lemma_count_prefix_le(dims: Seq<usize>, k: int)
    requires
        0 <= k <= dims.len(),
        positive(dims),
    ensures
        count(dims.take(k)) <= count(dims),
{
    lemma_count_prefix(dims, k);
}

/// The count of dimensions followed by one more.
pub proof fn lemma_count_push(dims: Seq<usize>, d: usize)
    ensures
        count(dims.push(d)) == count(dims) * (d as nat),
{
    assert(dims.push(d).drop_last() =~= dims);
}

/// The element count splits between the first `k` dimensions and the rest.
pub proof fn lemma_count_split(d: Seq<usize>, k: int)
    requires
        0 <= k <= d.len(),
    ensures
        count(d) == count(d.take(k)) * count(d.skip(k)),
    decreases d.len(),
{
    if k == d.len() {
        assert(d.take(k) =~= d);
        assert(d.skip(k) =~= Seq::<usize>::empty());
        assert(count(Seq::<usize>::empty()) == 1);
        assert(count(d.skip(k)) == 1);
        assert(count(d) == count(d.take(k)) * 1);
    } else {
        let e = d.drop_last();
        lemma_count_split(e, k);
        assert(e.take(k) =~= d.take(k));
        assert(d.skip(k).drop_last() =~= e.skip(k));
        assert(d.skip(k).last() == d.last());
        assert(count(d) == count(e) * (d.last() as nat));
        assert(count(d.skip(k)) == count(d.skip(k).drop_last()) * (d.skip(k).last() as nat));
        let (a, b, l) = (count(d.take(k)) as int, count(e.skip(k)) as int, d.last() as int);
        let (cd, ce, cs) = (count(d) as int, count(e) as int, count(d.skip(k)) as int);
        assert(cd == a * cs) by (nonlinear_arith)
            requires
                cd == ce * l,
                ce == a * b,
                cs == b * l,
        ;
    }
}

/// The element count of two dimensions.
pub proof fn lemma_count2(a: usize, b: usize)
    ensures
        count(seq![a, b]) == a * b,
{
    let d = seq![a, b];
    assert(d.drop_last() =~= seq![a]);
    lemma_count1(a);
    assert(count(d) == count(seq![a]) * (b as nat));
}

/// The element count of one dimension.
pub proof fn lemma_count1(a: usize)
    ensures
        count(seq![a]) == a,
{
    let d = seq![a];
    assert(d.drop_last() =~= Seq::<usize>::empty());
    assert(d.last() == a);
    assert(count(Seq::<usize>::empty()) == 1);
    assert(count(d) == count(d.drop_last()) * (d.last() as nat));
}

/// The element count with one more dimension in front.
pub proof fn lemma_count_cons(n: usize, d: Seq<usize>)
    ensures
        count(seq![n] + d) == n * count(d),
    decreases d.len(),
{
    if d.len() == 0 {
        assert(seq![n] + d =~= seq![n]);
        lemma_count1(n);
        assert(count(d) == 1);
        assert(count(seq![n] + d) == n);
    } else {
        lemma_count_cons(n, d.drop_last());
        let s = seq![n] + d;
        assert(s.drop_last() =~= seq![n] + d.drop_last());
        assert(s.last() == d.last());
        assert(count(s) == count(s.drop_last()) * (s.last() as nat));
        assert(count(d) == count(d.drop_last()) * (d.last() as nat));
        let (a, b, c) = (n as int, count(d.drop_last()) as int, d.last() as int);
        let (cs, cp, cd) = (count(s) as int, count(s.drop_last()) as int, count(d) as int);
        assert(cs == a * cd) by (nonlinear_arith)
            requires
                cs == cp * c,
                cp == a * b,
                cd == b * c,
        ;
    }
}

/// The element count of four dimensions: the first times the other three.
pub proof fn lemma_count4(d: Seq<usize>)
    requires
        d.len() == 4,
    ensures
        count(d) == d[0] * (d[1] * d[2] * d[3]),
{
    lemma_count_split(d, 1);
    lemma_count3(d.skip(1));
    assert(d.take(1) =~= seq![d[0]]);
    lemma_count1(d[0]);
}

/// The element count of three dimensions.
pub proof fn lemma_count3(d: Seq<usize>)
    requires
        d.len() == 3,
    ensures
        count(d) == d[0] * d[1] * d[2],
{
    let d2 = d.drop_last();
    let d1 = d2.drop_last();
    let d0 = d1.drop_last();
    assert(d0 =~= Seq::<usize>::empty());
    assert(d1.last() == d[0] && d2.last() == d[1] && d.last() == d[2]);
    assert(count(d0) == 1);
    assert(count(d1) == count(d0) * (d[0] as nat));
    assert(count(d2) == count(d1) * (d[1] as nat));
    assert(count(d) == count(d2) * (d[2] as nat));
    let (x, y, z) = (d[0] as int, d[1] as int, d[2] as int);
    assert(count(d1) == x);
}

/// Whether every dimension is at least one.
pub fn all_positive(d: &Vec<usize>) -> (r: bool)
    ensures
        r == positive(d@),
{
    let mut k: usize = 0;
    while k < d.len()
        invariant
            k <= d@.len(),
            forall|q: int| 0 <= q < k ==> #[trigger] d@[q] >= 1,
        decreases d@.len() - k,
    {
        if d[k] == 0 {
            return false;
        }
        k += 1;
    }
    true
}

/// Row-major flat position of the coordinates `idx` in an array with
/// dimensions `dims`: `((i0 * d1 + i1) * d2 + i2) ...`.
pub open spec fn flat_index(idx: Seq<usize>, dims: Seq<usize>) -> int
    decreases idx.len(),
{
    if idx.len() == 0 || dims.len() == 0 {
        0
    } else {
        flat_index(idx.drop_last(), dims.drop_last()) * (dims.last() as int) + (idx.last() as int)
    }
}

/// `idx` names an element of an array with dimensions `dims`.
pub open spec fn valid_index(idx: Seq<usize>, dims: Seq<usize>) -> bool {
    &&& idx.len() == dims.len()
    &&& forall|k: int| 0 <= k < idx.len() ==> #[trigger] idx[k] < dims[k]
}

proof fn lemma_count_take_step(dims: Seq<usize>, k: int)
    requires
        0 <= k < dims.len(),
    ensures
        count(dims.take(k + 1)) == count(dims.take(k)) * (dims[k] as nat),
{
    assert(dims.take(k + 1).drop_last() =~= dims.take(k));
}

/// A valid coordinate vector flattens to a position inside the array.
pub proof fn lemma_flat_index_bound(idx: Seq<usize>, dims: Seq<usize>)
    requires
        valid_index(idx, dims),
    ensures
        0 <= flat_index(idx, dims) < count(dims),
    decreases idx.len(),
{
    if idx.len() > 0 {
        let (i, d) = (idx.drop_last(), dims.drop_last());
        lemma_flat_index_bound(i, d);
        let f = flat_index(i, d);
        let c = count(d) as int;
        let l = dims.last() as int;
        let x = idx.last() as int;
        assert(x < l);
        assert(f * l + x < c * l) by (nonlinear_arith)
            requires
                0 <= f < c,
                0 <= x < l,
        ;
        assert(f * l >= 0) by (nonlinear_arith)
            requires
                f >= 0,
                l >= 0,
        ;
    }
}

/// Number of elements of an array with dimensions `dims`, or `None` when it
/// does not fit in `usize`.
pub fn element_count(dims: &Vec<usize>) -> (r: Option<usize>)
    ensures
        r matches Some(n) ==> n == count(dims@),
        r is None ==> count(dims@) > usize::MAX,
{
    let mut n: usize = 1;
    let mut k: usize = 0;
    let mut overflow = false;
    while k < dims.len()
        invariant
            k <= dims@.len(),
            !overflow ==> n == count(dims@.take(k as int)),
            overflow ==> count(dims@.take(k as int)) > usize::MAX,
        decreases dims@.len() - k,
    {
        proof {
            lemma_count_take_step(dims@, k as int);
        }
        let d = dims[k];
        if d == 0 {
            let ghost c = count(dims@.take(k as int));
            assert(c * (d as nat) == 0) by (nonlinear_arith)
                requires
                    d == 0,
            ;
            overflow = false;
            n = 0;
        } else if overflow {
            let ghost c = count(dims@.take(k as int));
            assert(c * (d as nat) >= c) by (nonlinear_arith)
                requires
                    d >= 1,
            ;
        } else {
            match n.checked_mul(d) {
                Some(m) => {
                    assert(m == count(dims@.take(k as int)) * (d as nat));
                    n = m;
                },
                None => {
                    overflow = true;
                },
            }
        }
        k += 1;
    }
    assert(dims@.take(dims@.len() as int) =~= dims@);
    if overflow {
        None
    } else {
        Some(n)
    }
}

/// Row-major flat position of the coordinates `indices` in an array with
/// dimensions `dimensions`.
pub fn flatten_indices_unchecked(indices: &Vec<usize>, dimensions: &Vec<usize>) -> (r: usize)
    requires
        valid_index(indices@, dimensions@),
        count(dimensions@) <= usize::MAX,
    ensures
        r == flat_index(indices@, dimensions@),
{
    let mut acc: usize = 0;
    let mut k: usize = 0;
    while k < indices.len()
        invariant
            valid_index(indices@, dimensions@),
            count(dimensions@) <= usize::MAX,
            k <= indices@.len(),
            acc == flat_index(indices@.take(k as int), dimensions@.take(k as int)),
        decreases indices@.len() - k,
    {
        let ghost i1 = indices@.take(k as int + 1);
        let ghost d1 = dimensions@.take(k as int + 1);
        proof {
            assert(i1.drop_last() =~= indices@.take(k as int));
            assert(d1.drop_last() =~= dimensions@.take(k as int));
            assert(valid_index(i1, d1));
            lemma_flat_index_bound(i1, d1);
            assert forall|j: int| 0 <= j < dimensions@.len() implies #[trigger] dimensions@[j] >= 1 by {
                assert(indices@[j] < dimensions@[j]);
            }
            lemma_count_prefix(dimensions@, k as int + 1);
        }
        acc = acc * dimensions[k] + indices[k];
        k += 1;
    }
    assert(indices@.take(k as int) =~= indices@);
    assert(dimensions@.take(k as int) =~= dimensions@);
    acc
}

/// The element count of a prefix of nonzero dimensions is at most the whole count.
proof fn lemma_count_prefix(dims: Seq<usize>, k: int)
    requires
        0 <= k <= dims.len(),
        forall|j: int| 0 <= j < dims.len() ==> #[trigger] dims[j] >= 1,
    ensures
        count(dims.take(k)) <= count(dims),
    decreases dims.len() - k,
{
    if k < dims.len() {
        lemma_count_prefix(dims, k + 1);
        lemma_count_take_step(dims, k);
        let c = count(dims.take(k));
        let d = dims[k] as nat;
        assert(c * d >= c) by (nonlinear_arith)
            requires
                d >= 1,
        ;
    } else {
        assert(dims.take(k) =~= dims);
    }
}

} // verus!
