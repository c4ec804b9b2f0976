use corgi::array::{Array, Arrays};
use corgi::graph::Graph;
use corgi::model::{Cost, Layer, Model};

fn v(values: &[i64]) -> Array {
    Arrays::new(values.to_vec()).unwrap()
}

struct Scale {
    weight: Array,
}

impl Layer for Scale {
    fn forward(&self, graph: &mut Graph, input: Array) -> Array {
        Array::mul(graph, &input, &self.weight).unwrap()
    }
}

struct Product;

impl Cost for Product {
    fn cost(&self, graph: &mut Graph, output: &Array, target: &Array) -> Array {
        Array::mul(graph, output, target).unwrap()
    }
}

#[test]
fn model_runs_layers_and_backpropagates_the_cost() {
    let mut g = Graph::new();
    let w1 = v(&[2, 3]).track(&mut g);
    let w2 = v(&[5, 7]).track(&mut g);
    let mut model = Model::new(vec![Scale { weight: w1.clone() }, Scale { weight: w2.clone() }], Product);

    let out = model.forward(&mut g, v(&[1, 1]));
    assert_eq!(out, v(&[10, 21]));

    let loss = model.backward(&mut g, &v(&[1, 2])).unwrap();
    assert_eq!(loss, 10 + 42);
    assert_eq!(w1.gradient(&g).unwrap(), v(&[5, 14]));
    assert_eq!(w2.gradient(&g).unwrap(), v(&[2, 6]));
}
