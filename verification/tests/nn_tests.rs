use std::cell::Cell;

use hypergrad::hyper_engine::{Graph, Op, Value};
use hypergrad::hyper_neuron::{Layer, Module, Neuron, MLP};

fn eval(op: Op<f64>, a: f64, b: Option<f64>) -> f64 {
    match op {
        Op::Leaf => a,
        Op::Add => a + b.unwrap(),
        Op::Sub => a - b.unwrap(),
        Op::Mul => a * b.unwrap(),
        Op::Neg => -a,
        Op::Pow(e) => a.powf(e),
        Op::Exp => a.exp(),
        Op::Tanh => a.tanh(),
        Op::Relu => a.max(0.0),
    }
}

fn ids(vs: &[Value]) -> Vec<usize> {
    vs.iter().map(|v| v.id).collect()
}

fn leaves(g: &mut Graph<f64>, xs: &[f64]) -> Vec<Value> {
    xs.iter().map(|&x| Value::new(g, x)).collect()
}

#[test]
fn neuron_parameters_are_new_leaves_weights_then_bias() {
    let mut g = Graph::new(0.0);
    let _first = Value::new(&mut g, 9.0);
    let next = Cell::new(0.0);
    let init = || {
        let v = next.get() + 1.0;
        next.set(v);
        v
    };
    let n = Neuron::new(&mut g, 3, true, &init);
    let ps = n.parameters();
    assert_eq!(ids(&ps), vec![1, 2, 3, 4]);
    let data: Vec<f64> = ps.iter().map(|p| p.data(&g)).collect();
    assert_eq!(data, vec![1.0, 2.0, 3.0, 0.0]);
    assert!(ps.iter().all(|p| matches!(p.op(&g), Op::Leaf)));
    assert_eq!(g.len(), 5);
}

#[test]
fn neuron_forward_is_bias_plus_products_then_relu() {
    let mut g = Graph::new(0.0);
    let next = Cell::new(0.0);
    let init = || {
        let v = next.get() + 1.0;
        next.set(v);
        v
    };
    let n = Neuron::new(&mut g, 2, true, &init);
    let x = leaves(&mut g, &[3.0, -4.0]);
    let before = g.len();
    let out = n.forward(&mut g, &x, &eval);
    // 0 + 1 * 3 + 2 * (-4) = -5, then ReLU.
    assert_eq!(g.len(), before + 5);
    assert_eq!(out.id, before + 4);
    assert_eq!(out.data(&g), 0.0);
    assert!(matches!(out.op(&g), Op::Relu));
    let sum = out.prev(&g)[0];
    assert_eq!(sum.data(&g), -5.0);
    assert!(matches!(sum.op(&g), Op::Add));
    assert_eq!(ids(&Value { id: before }.prev(&g)), vec![0, x[0].id]);
    assert_eq!(ids(&Value { id: before + 1 }.prev(&g)), vec![2, before]);
}

#[test]
fn linear_neuron_without_terms_returns_its_bias() {
    let mut g = Graph::new(0.0);
    let init = || 0.5;
    let n = Neuron::new(&mut g, 0, false, &init);
    let before = g.len();
    let out = n.forward(&mut g, &[], &eval);
    assert_eq!(out.id, 0);
    assert_eq!(g.len(), before);
}

#[test]
fn neuron_forward_stops_at_the_shorter_side() {
    let mut g = Graph::new(0.0);
    let init = || 2.0;
    let n = Neuron::new(&mut g, 3, false, &init);
    let x = leaves(&mut g, &[5.0]);
    let before = g.len();
    let out = n.forward(&mut g, &x, &eval);
    assert_eq!(g.len(), before + 2);
    assert_eq!(out.data(&g), 10.0);
}

#[test]
fn neuron_description() {
    let mut g = Graph::new(0.0);
    let init = || 1.0;
    let relu = Neuron::new(&mut g, 3, true, &init);
    let linear = Neuron::new(&mut g, 12, false, &init);
    assert_eq!(relu.to_string(), "ReLUNeuron(3)");
    assert_eq!(linear.to_string(), "LinearNeuron(12)");
}

#[test]
fn layer_forward_gives_one_output_per_neuron() {
    let mut g = Graph::new(0.0);
    let init = || 1.0;
    let l = Layer::new(&mut g, 2, 3, false, &init);
    assert_eq!(l.parameters().len(), 9);
    let x = leaves(&mut g, &[1.0, 2.0]);
    let out = l.forward(&mut g, &x, &eval);
    assert_eq!(out.len(), 3);
    for o in &out {
        assert_eq!(o.data(&g), 3.0);
    }
    assert_eq!(l.to_string(), "Layer of [LinearNeuron(2), LinearNeuron(2), LinearNeuron(2)]");
}

#[test]
fn mlp_shape_and_description() {
    let mut g = Graph::new(0.0);
    let init = || 0.1;
    let m = MLP::new(&mut g, 3, &[4, 4, 1], &init);
    let ps = m.parameters();
    assert_eq!(ps.len(), 41);
    assert_eq!(g.len(), 41);
    assert_eq!(ids(&ps), (0..41).collect::<Vec<usize>>());
    let relu3 = vec!["ReLUNeuron(3)"; 4].join(", ");
    let relu4 = vec!["ReLUNeuron(4)"; 4].join(", ");
    let expected = format!(
        "MLP of [Layer of [{}], Layer of [{}], Layer of [LinearNeuron(4)]]",
        relu3, relu4
    );
    assert_eq!(m.to_string(), expected);
}

#[test]
fn mlp_forward_feeds_each_layer_into_the_next() {
    let mut g = Graph::new(0.0);
    let init = || 1.0;
    let m = MLP::new(&mut g, 2, &[2, 1], &init);
    let x = leaves(&mut g, &[1.0, -3.0]);
    let out = m.forward(&mut g, &x, &eval);
    assert_eq!(out.len(), 1);
    // First layer: relu(0 + 1 - 3) = 0 twice; second layer: 0 + 0 + 0.
    assert_eq!(out[0].data(&g), 0.0);
    let x2 = leaves(&mut g, &[2.0, 3.0]);
    let out2 = m.forward(&mut g, &x2, &eval);
    // First layer: relu(5) = 5 twice; second layer: 5 + 5 = 10.
    assert_eq!(out2[0].data(&g), 10.0);
}

#[test]
fn mlp_without_layers_returns_its_inputs() {
    let mut g = Graph::new(0.0);
    let init = || 1.0;
    let m = MLP::new(&mut g, 3, &[], &init);
    assert!(m.parameters().is_empty());
    let x = leaves(&mut g, &[1.0, 2.0]);
    let out = m.forward(&mut g, &x, &eval);
    assert_eq!(ids(&out), ids(&x));
    assert_eq!(m.to_string(), "MLP of []");
}

#[test]
fn zero_grad_resets_parameters_only() {
    let mut g = Graph::new(0.0);
    let init = || 1.0;
    let n = Neuron::new(&mut g, 2, true, &init);
    let other = Value::new(&mut g, 4.0);
    for p in n.parameters() {
        p.set_grad(&mut g, 7.0);
    }
    other.set_grad(&mut g, 7.0);
    n.zero_grad(&mut g);
    for p in n.parameters() {
        assert_eq!(p.grad(&g), 0.0);
    }
    assert_eq!(other.grad(&g), 7.0);
    assert_eq!(other.data(&g), 4.0);
}

fn local(op: Op<f64>, up: f64, out: f64, a: f64, b: Option<f64>) -> (f64, f64) {
    match op {
        Op::Leaf => (0.0, 0.0),
        Op::Add => (up, up),
        Op::Sub => (up, -up),
        Op::Mul => (up * b.unwrap(), up * a),
        Op::Neg => (-up, 0.0),
        Op::Pow(e) => (up * e * a.powf(e - 1.0), 0.0),
        Op::Exp => (up * out, 0.0),
        Op::Tanh => (up * (1.0 - out * out), 0.0),
        Op::Relu => (if a > 0.0 { up } else { 0.0 }, 0.0),
    }
}

fn acc(x: f64, y: f64) -> f64 {
    x + y
}

#[test]
fn mse_loss_builds_the_mean_of_squared_errors() {
    let mut g = Graph::new(0.0);
    let init = || 1.0;
    // One linear neuron with two weights of 1 and a bias of 0: p = x0 + x1.
    let m = MLP::new(&mut g, 2, &[1], &init);
    let before = g.len();
    let xs = vec![vec![1.0, 2.0], vec![0.5, 0.5]];
    let ys = vec![1.0, 3.0];
    let loss = m.mse_loss(&mut g, &xs, &ys, 0.0, 0.5, &eval);
    // ((3 - 1)^2 + (1 - 3)^2) / 2 = 4.
    assert_eq!(loss.data(&g), 4.0);
    assert_eq!(loss.id, g.len() - 1);
    assert!(matches!(loss.op(&g), Op::Mul));
    // Start leaf, then per sample 2 input leaves, 4 forward nodes, target, Sub, Mul, Add;
    // then the scale leaf and the product.
    assert_eq!(g.len(), before + 1 + 2 * 10 + 2);
    assert_eq!(Value { id: before }.data(&g), 0.0);
    assert_eq!(Value { id: before + 1 }.data(&g), 1.0);
    assert_eq!(Value { id: before + 2 }.data(&g), 2.0);
    assert_eq!(Value { id: before + 7 }.data(&g), 1.0);
    assert!(matches!(Value { id: before + 8 }.op(&g), Op::Sub));
    assert_eq!(ids(&Value { id: before + 10 }.prev(&g)), vec![before, before + 9]);
    assert_eq!(Value { id: g.len() - 2 }.data(&g), 0.5);
}

#[test]
fn sgd_step_zeroes_propagates_then_updates() {
    let mut g = Graph::new(0.0);
    let init = || 1.0;
    let m = MLP::new(&mut g, 1, &[1], &init);
    let ps = m.parameters();
    // A stale gradient that the step must clear first.
    ps[0].set_grad(&mut g, 100.0);
    let xs = vec![vec![2.0]];
    let ys = vec![0.0];
    let loss = m.mse_loss(&mut g, &xs, &ys, 0.0, 1.0, &eval);
    // p = w * x + b = 2, loss = (2 - 0)^2 = 4; dloss/dw = 2 * 2 * x = 8, dloss/db = 4.
    assert_eq!(loss.data(&g), 4.0);
    let update = |d: f64, r: f64| d - 0.1 * r;
    m.sgd_step(&mut g, loss, 1.0, &local, &acc, &update);
    assert_eq!(ps[0].grad(&g), 8.0);
    assert_eq!(ps[1].grad(&g), 4.0);
    assert!((ps[0].data(&g) - (1.0 - 0.8)).abs() < 1e-12);
    assert!((ps[1].data(&g) - (0.0 - 0.4)).abs() < 1e-12);
    assert_eq!(loss.grad(&g), 1.0);
}

#[test]
fn truncate_drops_an_epoch_and_keeps_the_parameters() {
    let mut g = Graph::new(0.0);
    let init = || 1.0;
    let m = MLP::new(&mut g, 2, &[1], &init);
    let keep = g.len();
    let xs = vec![vec![1.0, 1.0]];
    let ys = vec![1.0];
    let loss = m.mse_loss(&mut g, &xs, &ys, 0.0, 1.0, &eval);
    let update = |d: f64, r: f64| d - 0.5 * r;
    m.sgd_step(&mut g, loss, 1.0, &local, &acc, &update);
    let after: Vec<f64> = m.parameters().iter().map(|p| p.data(&g)).collect();
    g.truncate(keep);
    assert_eq!(g.len(), keep);
    let kept: Vec<f64> = m.parameters().iter().map(|p| p.data(&g)).collect();
    assert_eq!(after, kept);
    let again = m.mse_loss(&mut g, &xs, &ys, 0.0, 1.0, &eval);
    assert_eq!(again.id, g.len() - 1);
}

#[test]
fn forward_twice_gives_equal_outputs() {
    let mut g = Graph::new(0.0);
    let next = Cell::new(0.0);
    let init = || {
        let v = next.get() + 0.5;
        next.set(v);
        v - 1.0
    };
    let m = MLP::new(&mut g, 2, &[3, 2], &init);
    let x = leaves(&mut g, &[0.7, -1.2]);
    let a = m.forward(&mut g, &x, &eval);
    let b = m.forward(&mut g, &x, &eval);
    assert_eq!(a.len(), 2);
    assert_ne!(ids(&a), ids(&b));
    for (p, q) in a.iter().zip(b.iter()) {
        assert_eq!(p.data(&g), q.data(&g));
    }
}

#[test]
fn layer_outputs_follow_neuron_order() {
    let mut g = Graph::new(0.0);
    let next = Cell::new(0.0);
    let init = || {
        let v = next.get() + 1.0;
        next.set(v);
        v
    };
    let l = Layer::new(&mut g, 2, 3, true, &init);
    let x = leaves(&mut g, &[1.0, -0.5]);
    let out = l.forward(&mut g, &x, &eval);
    // Neuron j has weights 2j + 1 and 2j + 2 and bias 0.
    assert_eq!(out[0].data(&g), 0.0);
    assert_eq!(out[1].data(&g), 1.0);
    assert_eq!(out[2].data(&g), 2.0);
}

#[test]
fn mlp_forward_matches_its_layers_run_in_turn() {
    let mut g = Graph::new(0.0);
    let next = Cell::new(0.0);
    let init = || {
        let v = next.get() + 0.25;
        next.set(v);
        v - 1.0
    };
    let m = MLP::new(&mut g, 2, &[3, 2], &init);
    // The same draws again give layers with the same weights as the perceptron's.
    next.set(0.0);
    let l0 = Layer::new(&mut g, 2, 3, true, &init);
    let l1 = Layer::new(&mut g, 3, 2, false, &init);
    let x = leaves(&mut g, &[0.9, -0.4]);
    let out = m.forward(&mut g, &x, &eval);
    let h = l0.forward(&mut g, &x, &eval);
    let o = l1.forward(&mut g, &h, &eval);
    assert_eq!(out.len(), 2);
    assert_eq!(o.len(), 2);
    for (p, q) in out.iter().zip(o.iter()) {
        assert_eq!(p.data(&g), q.data(&g));
    }
}

#[test]
fn mse_loss_pairs_samples_with_targets_up_to_the_shorter_list() {
    let mut g = Graph::new(0.0);
    let init = || 1.0;
    let m = MLP::new(&mut g, 2, &[1], &init);
    let before = g.len();
    // The third sample has no target and is left out.
    let xs = vec![vec![1.0, 2.0], vec![0.5, 0.5], vec![9.0, 9.0]];
    let ys = vec![1.0, 3.0];
    let loss = m.mse_loss(&mut g, &xs, &ys, 0.0, 0.5, &eval);
    assert_eq!(loss.data(&g), 4.0);
    assert_eq!(g.len(), before + 1 + 2 * 10 + 2);
    // Fewer samples than targets: only the first target is used.
    let xs1 = vec![vec![1.0, 2.0]];
    let loss1 = m.mse_loss(&mut g, &xs1, &ys, 0.0, 1.0, &eval);
    assert_eq!(loss1.data(&g), 4.0);
}
