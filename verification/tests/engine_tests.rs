use hypergrad::hyper_engine::{Graph, Op, Value};

fn eval(op: Op<f64>, a: f64, b: Option<f64>) -> f64 {
    match op {
        Op::Leaf => a,
        Op::Add => a + b.unwrap(),
        Op::Sub => a - b.unwrap(),
        Op::Mul => a * b.unwrap(),
        Op::Neg => -a,
        Op::Pow(e) => a.powf(e),
        Op::Exp => a.exp(),
        Op::Tanh => a.tanh(),
        Op::Relu => a.max(0.0),
    }
}

/// Local derivatives: the contributions of an operation's output gradient to
/// the gradients of its inputs.
fn local(op: Op<f64>, up: f64, out: f64, a: f64, b: Option<f64>) -> (f64, f64) {
    match op {
        Op::Leaf => (0.0, 0.0),
        Op::Add => (up, up),
        Op::Sub => (up, -up),
        Op::Mul => (up * b.unwrap(), up * a),
        Op::Neg => (-up, 0.0),
        Op::Pow(e) => (up * e * a.powf(e - 1.0), 0.0),
        Op::Exp => (up * out, 0.0),
        Op::Tanh => (up * (1.0 - out * out), 0.0),
        Op::Relu => (if a > 0.0 { up } else { 0.0 }, 0.0),
    }
}

fn acc(x: f64, y: f64) -> f64 {
    x + y
}

fn ids(vs: &[Value]) -> Vec<usize> {
    vs.iter().map(|v| v.id).collect()
}

#[test]
fn leaf_holds_data_and_zero_grad() {
    let mut g = Graph::new(0.0);
    let a = Value::new(&mut g, 2.5);
    assert_eq!(a.id, 0);
    assert_eq!(g.len(), 1);
    assert_eq!(a.data(&g), 2.5);
    assert_eq!(a.grad(&g), 0.0);
    assert!(matches!(a.op(&g), Op::Leaf));
    assert!(a.prev(&g).is_empty());
}

#[test]
fn set_data_and_set_grad_touch_one_node() {
    let mut g = Graph::new(0.0);
    let a = Value::new(&mut g, 1.0);
    let b = Value::new(&mut g, 2.0);
    a.set_data(&mut g, 5.0);
    b.set_grad(&mut g, 3.0);
    assert_eq!(a.data(&g), 5.0);
    assert_eq!(b.data(&g), 2.0);
    assert_eq!(a.grad(&g), 0.0);
    assert_eq!(b.grad(&g), 3.0);
}

#[test]
fn operations_record_inputs_and_values() {
    let mut g = Graph::new(0.0);
    let a = Value::new(&mut g, 2.0);
    let b = Value::new(&mut g, -3.0);
    let s = a.add(b, &mut g, &eval);
    let d = a.sub(b, &mut g, &eval);
    let m = a.mul(b, &mut g, &eval);
    let n = a.neg(&mut g, &eval);
    let p = a.pow(3.0, &mut g, &eval);
    let e = b.exp(&mut g, &eval);
    let t = a.tanh(&mut g, &eval);
    let r = b.relu(&mut g, &eval);
    let r2 = a.relu(&mut g, &eval);
    assert_eq!(s.data(&g), -1.0);
    assert_eq!(d.data(&g), 5.0);
    assert_eq!(m.data(&g), -6.0);
    assert_eq!(n.data(&g), -2.0);
    assert_eq!(p.data(&g), 8.0);
    assert!((e.data(&g) - (-3.0f64).exp()).abs() < 1e-12);
    assert!((t.data(&g) - 2.0f64.tanh()).abs() < 1e-12);
    assert_eq!(r.data(&g), 0.0);
    assert_eq!(r2.data(&g), 2.0);
    assert_eq!(ids(&m.prev(&g)), vec![a.id, b.id]);
    assert_eq!(ids(&n.prev(&g)), vec![a.id]);
    assert!(matches!(m.op(&g), Op::Mul));
    assert!(matches!(p.op(&g), Op::Pow(x) if x == 3.0));
    assert_eq!(m.id, 4);
    assert_eq!(g.len(), 11);
    assert_eq!(m.grad(&g), 0.0);
}

#[test]
fn backward_schedule_of_a_product() {
    let mut g = Graph::new(0.0);
    let a = Value::new(&mut g, 2.0);
    let b = Value::new(&mut g, 3.0);
    let c = a.mul(b, &mut g, &eval);
    let order = c.backward(&mut g, 1.0, &local, &acc);
    assert_eq!(ids(&order), vec![2, 1, 0]);
    assert_eq!(c.grad(&g), 1.0);
    assert_eq!(a.grad(&g), 3.0);
    assert_eq!(b.grad(&g), 2.0);
}

#[test]
fn backward_visits_only_reachable_nodes() {
    let mut g = Graph::new(0.0);
    let a = Value::new(&mut g, 1.0);
    let b = Value::new(&mut g, 2.0);
    let _unused = a.add(b, &mut g, &eval);
    let c = a.neg(&mut g, &eval);
    b.set_grad(&mut g, 5.0);
    let order = c.backward(&mut g, 1.0, &local, &acc);
    assert_eq!(ids(&order), vec![3, 0]);
    assert_eq!(a.grad(&g), -1.0);
    assert_eq!(b.grad(&g), 5.0);
    assert_eq!(_unused.grad(&g), 0.0);
}

#[test]
fn scalar_products_create_a_leaf_then_a_product() {
    let mut g = Graph::new(0.0);
    let a = Value::new(&mut g, 3.0);
    let b = a.mul_scalar(2.0, &mut g, &eval);
    assert_eq!(b.id, 2);
    assert_eq!(b.data(&g), 6.0);
    assert_eq!(ids(&b.prev(&g)), vec![0, 1]);
    assert_eq!(Value { id: 1 }.data(&g), 2.0);
    let c = Value::scalar_mul(4.0, a, &mut g, &eval);
    assert_eq!(c.data(&g), 12.0);
    assert_eq!(ids(&c.prev(&g)), vec![3, 0]);
}

#[test]
fn shared_input_is_scheduled_once_and_gradients_add_up() {
    let mut g = Graph::new(0.0);
    let a = Value::new(&mut g, 3.0);
    let b = a.mul(a, &mut g, &eval);
    let order = b.backward(&mut g, 1.0, &local, &acc);
    assert_eq!(ids(&order), vec![1, 0]);
    assert_eq!(a.grad(&g), 6.0);
}

#[test]
fn diamond_users_come_before_inputs() {
    let mut g = Graph::new(0.0);
    let a = Value::new(&mut g, 2.0);
    let b = a.exp(&mut g, &eval);
    let c = a.mul(b, &mut g, &eval);
    let d = c.add(b, &mut g, &eval);
    let order = d.backward(&mut g, 1.0, &local, &acc);
    assert_eq!(ids(&order), vec![3, 2, 1, 0]);
    // d = a * e^a + e^a, so dd/da = e^a + a * e^a + e^a.
    let ea = 2.0f64.exp();
    assert!((a.grad(&g) - (ea + 2.0 * ea + ea)).abs() < 1e-9);
}

#[test]
fn backward_adds_to_existing_gradients() {
    let mut g = Graph::new(0.0);
    let a = Value::new(&mut g, 2.0);
    let b = a.tanh(&mut g, &eval);
    a.set_grad(&mut g, 10.0);
    b.backward(&mut g, 1.0, &local, &acc);
    assert_eq!(b.grad(&g), 1.0);
    let t = 2.0f64.tanh();
    assert!((a.grad(&g) - (10.0 + 1.0 - t * t)).abs() < 1e-12);
}

#[test]
fn gradient_of_relu_and_product_expression() {
    let mut g = Graph::new(0.0);
    let x = Value::new(&mut g, -4.0);
    let two = Value::new(&mut g, 2.0);
    let two_x = two.mul(x, &mut g, &eval);
    let t = two_x.add(two, &mut g, &eval);
    let z = t.add(x, &mut g, &eval);
    let zr = z.relu(&mut g, &eval);
    let zx = z.mul(x, &mut g, &eval);
    let q = zr.add(zx, &mut g, &eval);
    let zz = z.mul(z, &mut g, &eval);
    let h = zz.relu(&mut g, &eval);
    let hq = h.add(q, &mut g, &eval);
    let qx = q.mul(x, &mut g, &eval);
    let y = hq.add(qx, &mut g, &eval);
    assert_eq!(y.data(&g), -20.0);
    y.backward(&mut g, 1.0, &local, &acc);
    assert_eq!(x.grad(&g), 46.0);
}

#[test]
fn pow_and_relu_derivatives() {
    let mut g = Graph::new(0.0);
    let a = Value::new(&mut g, 3.0);
    let p = a.pow(2.0, &mut g, &eval);
    p.backward(&mut g, 1.0, &local, &acc);
    assert_eq!(a.grad(&g), 6.0);

    let mut h = Graph::new(0.0);
    let n = Value::new(&mut h, -1.0);
    let r = n.relu(&mut h, &eval);
    r.backward(&mut h, 1.0, &local, &acc);
    assert_eq!(n.grad(&h), 0.0);
}

#[test]
fn backward_changes_no_data() {
    let mut g = Graph::new(0.0);
    let a = Value::new(&mut g, 1.5);
    let b = Value::new(&mut g, -2.0);
    let c = a.sub(b, &mut g, &eval);
    c.backward(&mut g, 2.0, &local, &acc);
    assert_eq!(a.data(&g), 1.5);
    assert_eq!(b.data(&g), -2.0);
    assert_eq!(c.data(&g), 3.5);
    assert_eq!(c.grad(&g), 2.0);
    assert_eq!(a.grad(&g), 2.0);
    assert_eq!(b.grad(&g), -2.0);
    assert_eq!(g.len(), 3);
}

#[test]
fn graph_reports_its_zero() {
    let g: Graph<f64> = Graph::new(0.0);
    assert_eq!(g.zero(), 0.0);
    assert_eq!(g.len(), 0);
}
