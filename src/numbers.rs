use vstd::prelude::*;

verus! {

/// The scalar type of every array element.
pub type Scalar = i64;

/// Sum of two scalars, wrapping on overflow.
pub open spec fn add_s(a: Scalar, b: Scalar) -> Scalar {
    a.wrapping_add(b)
}

/// Product of two scalars, wrapping on overflow.
pub open spec fn mul_s(a: Scalar, b: Scalar) -> Scalar {
    a.wrapping_mul(b)
}

/// Element-wise sum of two sequences; the length is that of `a`.
pub open spec fn add_seq(a: Seq<Scalar>, b: Seq<Scalar>) -> Seq<Scalar> {
    Seq::new(a.len(), |i: int| add_s(a[i], b[i]))
}

/// Element-wise (Hadamard) product of two sequences; the length is that of `a`.
pub open spec fn mul_seq(a: Seq<Scalar>, b: Seq<Scalar>) -> Seq<Scalar> {
    Seq::new(a.len(), |i: int| mul_s(a[i], b[i]))
}

/// Element-wise sum of two vectors of equal length.
pub fn add_values(a: &Vec<Scalar>, b: &Vec<Scalar>) -> (r: Vec<Scalar>)
    requires
        a@.len() == b@.len(),
    ensures
        r@ == add_seq(a@, b@),
{
    let mut r: Vec<Scalar> = Vec::with_capacity(a.len());
    let mut i: usize = 0;
    while i < a.len()
        invariant
            a@.len() == b@.len(),
            i <= a@.len(),
            r@ =~= add_seq(a@, b@).take(i as int),
        decreases a@.len() - i,
    {
        r.push(a[i].wrapping_add(b[i]));
        i += 1;
    }
    r
}

/// Element-wise product of two vectors of equal length.
pub fn mul_values(a: &Vec<Scalar>, b: &Vec<Scalar>) -> (r: Vec<Scalar>)
    requires
        a@.len() == b@.len(),
    ensures
        r@ == mul_seq(a@, b@),
{
    let mut r: Vec<Scalar> = Vec::with_capacity(a.len());
    let mut i: usize = 0;
    while i < a.len()
        invariant
            a@.len() == b@.len(),
            i <= a@.len(),
            r@ =~= mul_seq(a@, b@).take(i as int),
        decreases a@.len() - i,
    {
        r.push(a[i].wrapping_mul(b[i]));
        i += 1;
    }
    r
}

} // verus!
