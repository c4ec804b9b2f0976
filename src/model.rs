use vstd::prelude::*;

use crate::array::{Array, ArrayError};
use crate::graph::{grad, ones, Graph};
use crate::numbers::{add_s, Scalar};

verus! {

/// A layer of a neural network, which computes a forward pass.
pub trait Layer {
    /// Computes the forward pass of the layer, recording its operations in
    /// `graph`.
    fn forward(&self, graph: &mut Graph, input: Array) -> (r: Array)
        requires
            old(graph).wf(),
            old(graph).holds(&input),
        ensures
            final(graph).wf(),
            old(graph).extends(final(graph)),
            final(graph).holds(&r),
    ;
}

/// A cost function: an error array from an output and its target.
pub trait Cost {
    /// The error of `output` against `target`, recorded in `graph`.
    fn cost(&self, graph: &mut Graph, output: &Array, target: &Array) -> (r: Array)
        requires
            old(graph).wf(),
            old(graph).holds(output),
            old(graph).holds(target),
        ensures
            final(graph).wf(),
            old(graph).extends(final(graph)),
            final(graph).holds(&r),
    ;
}

/// Sum of the first `k` values, wrapping on overflow.
pub open spec fn sum_prefix(v: Seq<Scalar>, k: int) -> Scalar
    decreases k,
{
    if k <= 0 {
        0
    } else {
        add_s(sum_prefix(v, k - 1), v[k - 1])
    }
}

/// Sum of all values of an array, wrapping on overflow.
pub fn sum_all(a: &Array) -> (r: Scalar)
    ensures
        r == sum_prefix(a.vals(), a.vals().len() as int),
{
    let v = a.values();
    let mut s: Scalar = 0;
    let mut i: usize = 0;
    while i < v.len()
        invariant
            v@ == a.vals(),
            i <= v@.len(),
            s == sum_prefix(v@, i as int),
        decreases v@.len() - i,
    {
        s = s.wrapping_add(v[i]);
        i += 1;
    }
    s
}

/// A supervised model: layers applied in turn, and a cost that measures
/// their last output against a target.
pub struct Model<L, C> {
    pub(crate) layers: Vec<L>,
    pub(crate) output: Option<Array>,
    pub(crate) cost: C,
}

impl<L: Layer, C: Cost> Model<L, C> {
    /// The layers, in order.
    pub open(crate) spec fn layer_seq(&self) -> Seq<L> {
        self.layers@
    }

    /// The output of the last forward pass.
    pub open(crate) spec fn last_output(&self) -> Option<Array> {
        self.output
    }

    /// The cost function.
    pub open(crate) spec fn cost_fn(&self) -> C {
        self.cost
    }

    /// A model of the given layers and cost, with no output yet.
    pub fn new(layers: Vec<L>, cost: C) -> (r: Self)
        ensures
            r.layer_seq() == layers@,
            r.cost_fn() == cost,
            r.last_output() is None,
    {
        Model { layers, output: None, cost }
    }

    /// Runs `input` through every layer in turn, each layer's forward pass
    /// called once with the previous one's result, keeps the last result as
    /// the model's output and returns it; without layers that is `input`.
    pub fn forward(&mut self, graph: &mut Graph, input: Array) -> (r: Array)
        requires
            old(graph).wf(),
            old(graph).holds(&input),
        ensures
            final(graph).wf(),
            old(graph).extends(final(graph)),
            final(graph).holds(&r),
            final(self).layer_seq() == old(self).layer_seq(),
            final(self).cost_fn() == old(self).cost_fn(),
            final(self).last_output() matches Some(o) && o.shape() == r.shape() && o.vals() == r.vals()
                && o.handle() == r.handle(),
            old(self).layer_seq().len() == 0 ==> r == input,
    {
        let mut x = input;
        let mut i: usize = 0;
        proof {
            Graph::lemma_extends_refl(&*graph);
        }
        while i < self.layers.len()
            invariant
                graph.wf(),
                old(graph).extends(&*graph),
                graph.holds(&x),
                i <= self.layers@.len(),
                i == 0 ==> x == input,
            decreases self.layers@.len() - i,
        {
            let ghost before = *graph;
            x = self.layers[i].forward(graph, x);
            proof {
                Graph::lemma_extends_trans(&*old(graph), &before, &*graph);
            }
            i += 1;
        }
        self.output = Some(x.clone());
        x
    }

    /// Measures the last output against `target` with the cost, runs the
    /// backward pass from the error, seeded with ones, and returns the sum of
    /// the error's values. Fails as the backward pass does.
    pub fn backward(&mut self, graph: &mut Graph, target: &Array) -> (r: Result<Scalar, ArrayError>)
        requires
            old(graph).wf(),
            old(graph).holds(target),
            old(self).last_output() matches Some(o) && old(graph).holds(&o),
        ensures
            final(graph).wf(),
            final(self).layer_seq() == old(self).layer_seq(),
            r matches Ok(s) ==> exists|e: Array|
                #![trigger sum_prefix(e.vals(), e.vals().len() as int)]
                s == sum_prefix(e.vals(), e.vals().len() as int) && (e.handle() matches Some(root)
                    ==> final(graph).grads()[root as int] == Some(ones(e.vals().len()))),
    {
        let output = match &self.output {
            Some(o) => o,
            None => {
                return Err(ArrayError::ShapeMismatch);
            },
        };
        let error = self.cost.cost(graph, output, target);
        let ghost g1 = *graph;
        match error.backward(graph, None) {
            Ok(()) => {},
            Err(e) => {
                return Err(e);
            },
        }
        proof {
            if let Some(root) = error.handle() {
                assert(grad(g1.structure(), root as int, ones(error.vals().len()), root as int) == Some(
                    ones(error.vals().len()),
                ));
            }
        }
        let s = sum_all(&error);
        assert(s == sum_prefix(error.vals(), error.vals().len() as int));
        Ok(s)
    }
}

} // verus!
