use vstd::prelude::*;

use crate::numbers::Scalar;
use crate::shape::{count, positive, element_count, flat_index, flatten_indices_unchecked, lemma_flat_index_bound, valid_index};

verus! {

/// The ways an array operation can fail.
#[derive(Debug, Clone, Copy, PartialEq, Eq, Structural)]
pub enum ArrayError {
    /// Parts of a nested construction, the operands of an element-wise
    /// operation, or a seed gradient and its root disagree in shape.
    ShapeMismatch,
    /// Matrix or convolution operands whose dimensions cannot be combined.
    DimMismatch,
    /// An index that lies outside the array.
    InvalidIndex,
    /// `backward` reached a node that still holds the gradient of an earlier
    /// backward pass.
    DoubleBackward,
}

/// An n-dimensional array of scalars in row-major order.
///
/// An array is a value: two arrays are equal when their dimensions and
/// values are. A tracked array also names the node of a
/// [`Graph`](crate::graph::Graph) that records how it was computed.
#[derive(Debug)]
pub struct Array {
    pub(crate) dimensions: Vec<usize>,
    pub(crate) values: Vec<Scalar>,
    pub(crate) node: Option<usize>,
}

impl Array {
    #[verifier::type_invariant]
    pub(crate) open spec fn inv(&self) -> bool {
        &&& self.values@.len() == count(self.dimensions@)
        &&& positive(self.dimensions@)
    }

    /// The dimensions of the array.
    pub open(crate) spec fn shape(&self) -> Seq<usize> {
        self.dimensions@
    }

    /// The values of the array, in row-major order.
    pub open(crate) spec fn vals(&self) -> Seq<Scalar> {
        self.values@
    }

    /// The graph node of a tracked array; `None` for an untracked one.
    pub open(crate) spec fn handle(&self) -> Option<usize> {
        self.node
    }

    /// Builds an untracked array; the caller guarantees the sizes agree.
    pub(crate) fn raw(dimensions: Vec<usize>, values: Vec<Scalar>) -> (r: Array)
        requires
            values@.len() == count(dimensions@),
            positive(dimensions@),
        ensures
            r.shape() == dimensions@,
            r.vals() == values@,
            r.handle() is None,
    {
        Array { dimensions, values, node: None }
    }

    /// The dimensions of the array.
    pub fn dimensions(&self) -> (r: &Vec<usize>)
        ensures
            r@ == self.shape(),
            positive(r@),
            count(r@) == self.vals().len(),
    {
        proof {
            use_type_invariant(self);
        }
        &self.dimensions
    }

    /// The values of the array, in row-major order.
    pub fn values(&self) -> (r: &Vec<Scalar>)
        ensures
            r@ == self.vals(),
            r@.len() == count(self.shape()),
    {
        proof {
            use_type_invariant(self);
        }
        &self.values
    }

    /// Whether the array records the operations applied to it.
    pub fn is_tracked(&self) -> (r: bool)
        ensures
            r == self.handle() is Some,
    {
        self.node.is_some()
    }

    /// The graph node of a tracked array.
    pub fn node_id(&self) -> (r: Option<usize>)
        ensures
            r == self.handle(),
    {
        self.node
    }

    /// Stops recording: later operations on this array do not reach its node.
    pub fn stop_tracking(&mut self)
        ensures
            final(self).shape() == old(self).shape(),
            final(self).vals() == old(self).vals(),
            final(self).handle() is None,
    {
        proof {
            use_type_invariant(&*self);
        }
        self.node = None;
    }

    /// The value at flat position `index`.
    pub fn get(&self, index: usize) -> (r: Result<Scalar, ArrayError>)
        ensures
            index < self.vals().len() ==> r == Ok::<Scalar, ArrayError>(self.vals()[index as int]),
            index >= self.vals().len() ==> r == Err::<Scalar, ArrayError>(ArrayError::InvalidIndex),
    {
        if index < self.values.len() {
            Ok(self.values[index])
        } else {
            Err(ArrayError::InvalidIndex)
        }
    }

    /// The value at the coordinates `indices`, one per dimension.
    pub fn at(&self, indices: &Vec<usize>) -> (r: Result<Scalar, ArrayError>)
        ensures
            valid_index(indices@, self.shape()) ==> r == Ok::<Scalar, ArrayError>(
                self.vals()[flat_index(indices@, self.shape())],
            ),
            !valid_index(indices@, self.shape()) ==> r == Err::<Scalar, ArrayError>(
                ArrayError::InvalidIndex,
            ),
    {
        proof {
            use_type_invariant(self);
        }
        if indices.len() != self.dimensions.len() {
            return Err(ArrayError::InvalidIndex);
        }
        let mut k: usize = 0;
        while k < indices.len()
            invariant
                indices@.len() == self.dimensions@.len(),
                k <= indices@.len(),
                forall|j: int| 0 <= j < k ==> #[trigger] indices@[j] < self.dimensions@[j],
            decreases indices@.len() - k,
        {
            if indices[k] >= self.dimensions[k] {
                return Err(ArrayError::InvalidIndex);
            }
            k += 1;
        }
        proof {
            lemma_flat_index_bound(indices@, self.dimensions@);
        }
        assert(self.values@.len() == self.values.len());
        let i = flatten_indices_unchecked(indices, &self.dimensions);
        Ok(self.values[i])
    }
}

/// Ways to build an [`Array`].
pub trait Arrays: Sized {
    /// The dimensions and values of the array built from `self`, or `None`
    /// when `self` describes no array.
    spec fn built(&self) -> Option<(Seq<usize>, Seq<Scalar>)>;

    /// Builds an untracked array. Fails with `ShapeMismatch` when `self`
    /// describes no array.
    fn new(self) -> (r: Result<Array, ArrayError>)
        ensures
            self.built() matches Some(p) ==> (r matches Ok(a) && a.shape() == p.0 && a.vals() == p.1
                && a.handle() is None),
            self.built() is None ==> r == Err::<Array, ArrayError>(ArrayError::ShapeMismatch),
    ;
}

/// A one-dimensional array of the given values; there must be at least one.
impl Arrays for Vec<Scalar> {
    open spec fn built(&self) -> Option<(Seq<usize>, Seq<Scalar>)> {
        if self@.len() >= 1 {
            Some((seq![self@.len() as usize], self@))
        } else {
            None
        }
    }

    fn new(self) -> (r: Result<Array, ArrayError>) {
        let n = self.len();
        if n == 0 {
            return Err(ArrayError::ShapeMismatch);
        }
        let dims = vec![n];
        proof {
            crate::shape::lemma_count1(n);
            assert(dims@ =~= seq![n]);
        }
        Ok(Array::raw(dims, self))
    }
}

/// Zeros of the given dimensions, which must be positive and whose element
/// count must fit in `usize`.
impl Arrays for Vec<usize> {
    open spec fn built(&self) -> Option<(Seq<usize>, Seq<Scalar>)> {
        if positive(self@) && count(self@) <= usize::MAX {
            Some((self@, Seq::new(count(self@), |i: int| 0i64)))
        } else {
            None
        }
    }

    fn new(self) -> (r: Result<Array, ArrayError>) {
        if !crate::shape::all_positive(&self) {
            return Err(ArrayError::ShapeMismatch);
        }
        let n = match element_count(&self) {
            Some(n) => n,
            None => {
                return Err(ArrayError::ShapeMismatch);
            },
        };
        let mut v: Vec<Scalar> = Vec::with_capacity(n);
        let mut i: usize = 0;
        while i < n
            invariant
                i <= n,
                v@ =~= Seq::new(n as nat, |i: int| 0i64).take(i as int),
            decreases n - i,
        {
            v.push(0);
            i += 1;
        }
        Ok(Array::raw(self, v))
    }
}

/// The given dimensions and row-major values; the dimensions must be
/// positive and the number of values their product.
impl Arrays for (Vec<usize>, Vec<Scalar>) {
    open spec fn built(&self) -> Option<(Seq<usize>, Seq<Scalar>)> {
        if positive(self.0@) && self.1@.len() == count(self.0@) {
            Some((self.0@, self.1@))
        } else {
            None
        }
    }

    fn new(self) -> (r: Result<Array, ArrayError>) {
        let dimensions = self.0;
        let values = self.1;
        let _ = values.len();
        if !crate::shape::all_positive(&dimensions) {
            return Err(ArrayError::ShapeMismatch);
        }
        match element_count(&dimensions) {
            Some(n) => {
                if n != values.len() {
                    return Err(ArrayError::ShapeMismatch);
                }
            },
            None => {
                return Err(ArrayError::ShapeMismatch);
            },
        }
        Ok(Array::raw(dimensions, values))
    }
}

/// The values of the first `k` parts, one after the other.
pub open spec fn stacked(parts: Seq<Array>, k: int) -> Seq<Scalar>
    decreases k,
{
    if k <= 0 {
        Seq::empty()
    } else {
        stacked(parts, k - 1) + parts[k - 1].vals()
    }
}

/// The parts stacked along a new first dimension; there must be at least
/// one part, and all must have the same dimensions.
impl Arrays for Vec<Array> {
    open spec fn built(&self) -> Option<(Seq<usize>, Seq<Scalar>)> {
        let parts = self@;
        if parts.len() >= 1 && forall|i: int| 0 <= i < parts.len() ==> #[trigger] parts[i].shape() == parts[0].shape() {
            Some((seq![parts.len() as usize] + parts[0].shape(), stacked(parts, parts.len() as int)))
        } else {
            None
        }
    }

    fn new(self) -> (r: Result<Array, ArrayError>) {
        let n = self.len();
        if n == 0 {
            return Err(ArrayError::ShapeMismatch);
        }
        let p0 = &self[0];
        proof {
            use_type_invariant(p0);
        }
        let first = copy_vec(p0.dimensions());
        let mut values: Vec<Scalar> = Vec::new();
        let mut i: usize = 0;
        while i < n
            invariant
                n == self@.len(),
                i <= n,
                first@ == self@[0].shape(),
                forall|k: int| 0 <= k < i ==> #[trigger] self@[k].shape() == first@,
                values@ == stacked(self@, i as int),
                values@.len() == i * count(first@),
            decreases n - i,
        {
            let pi = &self[i];
            proof {
                use_type_invariant(pi);
            }
            if !same_dims(pi.dimensions(), &first) {
                return Err(ArrayError::ShapeMismatch);
            }
            let part = pi.values();
            let mut j: usize = 0;
            let ghost before = values@;
            while j < part.len()
                invariant
                    j <= part@.len(),
                    values@ == before + part@.take(j as int),
                decreases part@.len() - j,
            {
                values.push(part[j]);
                j += 1;
                assert(values@ =~= before + part@.take(j as int));
            }
            assert(part@.take(j as int) =~= part@);
            assert(values@.len() == (i + 1) * count(first@)) by (nonlinear_arith)
                requires
                    values@.len() == i * count(first@) + count(first@),
            ;
            i += 1;
        }
        let mut dims: Vec<usize> = vec![n];
        let mut k: usize = 0;
        while k < first.len()
            invariant
                k <= first@.len(),
                dims@ =~= seq![n] + first@.take(k as int),
            decreases first@.len() - k,
        {
            dims.push(first[k]);
            k += 1;
        }
        proof {
            assert(first@.take(k as int) =~= first@);
            crate::shape::lemma_count_cons(n, first@);
            assert forall|q: int| 0 <= q < dims@.len() implies #[trigger] dims@[q] >= 1 by {
                if q > 0 {
                    assert(dims@[q] == first@[q - 1]);
                }
            }
        }
        Ok(Array::raw(dims, values))
    }
}

/// Copies a vector of plain values.
pub(crate) fn copy_vec<T: Copy>(v: &Vec<T>) -> (r: Vec<T>)
    ensures
        r@ == v@,
{
    let mut r: Vec<T> = Vec::with_capacity(v.len());
    let mut i: usize = 0;
    while i < v.len()
        invariant
            i <= v@.len(),
            r@ =~= v@.take(i as int),
        decreases v@.len() - i,
    {
        r.push(v[i]);
        i += 1;
    }
    assert(v@.take(i as int) =~= v@);
    r
}

/// Whether two dimension lists are equal.
pub(crate) fn same_dims(a: &Vec<usize>, b: &Vec<usize>) -> (r: bool)
    ensures
        r == (a@ == b@),
{
    if a.len() != b.len() {
        return false;
    }
    let mut i: usize = 0;
    while i < a.len()
        invariant
            a@.len() == b@.len(),
            i <= a@.len(),
            forall|k: int| 0 <= k < i ==> a@[k] == b@[k],
        decreases a@.len() - i,
    {
        if a[i] != b[i] {
            return false;
        }
        i += 1;
    }
    assert(a@ =~= b@);
    true
}

/// Whether two value sequences are equal.
fn same_values(a: &Vec<Scalar>, b: &Vec<Scalar>) -> (r: bool)
    ensures
        r == (a@ == b@),
{
    if a.len() != b.len() {
        return false;
    }
    let mut i: usize = 0;
    while i < a.len()
        invariant
            a@.len() == b@.len(),
            i <= a@.len(),
            forall|k: int| 0 <= k < i ==> a@[k] == b@[k],
        decreases a@.len() - i,
    {
        if a[i] != b[i] {
            return false;
        }
        i += 1;
    }
    assert(a@ =~= b@);
    true
}

impl Clone for Array {
    /// Copies the array; the copy names the same graph node.
    fn clone(&self) -> (r: Array)
        ensures
            r.shape() == self.shape(),
            r.vals() == self.vals(),
            r.handle() == self.handle(),
    {
        proof {
            use_type_invariant(self);
        }
        Array { dimensions: copy_vec(&self.dimensions), values: copy_vec(&self.values), node: self.node }
    }
}

impl PartialEq for Array {
    /// Arrays are equal when their dimensions and values are; the graph node
    /// plays no part.
    fn eq(&self, other: &Array) -> (r: bool)
        ensures
            r == (self.shape() == other.shape() && self.vals() == other.vals()),
    {
        same_dims(&self.dimensions, &other.dimensions) && same_values(&self.values, &other.values)
    }
}

impl vstd::std_specs::cmp::PartialEqSpecImpl for Array {
    open spec fn obeys_eq_spec() -> bool {
        true
    }

    closed spec fn eq_spec(&self, other: &Array) -> bool {
        self.dimensions@ == other.dimensions@ && self.values@ == other.values@
    }
}

} // verus!
