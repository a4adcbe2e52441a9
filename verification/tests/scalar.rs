use homemade_ml::model::value::{Pool, ScalarOp, Value};
use homemade_ml::model::neuron::Neuron;
use homemade_ml::model::layer::Layer;
use homemade_ml::model::loss::mse_loss;
use homemade_ml::engine::value as ev;
use homemade_ml::engine::activation::{Activation, ONE_BITS, TWO_BITS};

#[test]
fn neuron_sums_products_then_tanh() {
    let mut pool = Pool::new();
    let n = Neuron::new(&mut pool, 2);
    assert_eq!(n.w, vec![Value(0), Value(1)]);
    assert_eq!(n.b, Value(2));
    let x0 = pool.new_value(1.0f64.to_bits());
    let x1 = pool.new_value(2.0f64.to_bits());
    let out = n.call(&mut pool, &[x0, x1]);
    assert_eq!(out, Value(9));
    let ops: Vec<ScalarOp> = pool.nodes[5..].iter().map(|n| n.op).collect();
    assert_eq!(ops, vec![ScalarOp::Mul, ScalarOp::Add, ScalarOp::Mul, ScalarOp::Add, ScalarOp::Tanh]);
    assert_eq!(pool.nodes[6].parents, vec![2, 5]);
    assert_eq!(pool.nodes[9].parents, vec![8]);
}

#[test]
fn layer_calls_each_neuron() {
    let mut pool = Pool::new();
    let l = Layer::new(&mut pool, 3, 2);
    assert_eq!(pool.nodes.len(), 8);
    assert_eq!(l.neurons[1].w, vec![Value(4), Value(5), Value(6)]);
    assert_eq!(l.neurons[1].b, Value(7));
    let x: Vec<Value> = (0..3).map(|i| pool.new_value((i as f64).to_bits())).collect();
    let y = l.call(&mut pool, &x);
    assert_eq!(y, vec![Value(17), Value(24)]);
}

#[test]
fn mse_loss_starts_at_zero_and_adds_squares() {
    let mut pool = Pool::new();
    let ys: Vec<Value> = (0..2).map(|_| pool.new_value(0)).collect();
    let yp: Vec<Value> = (0..3).map(|_| pool.new_value(0)).collect();
    let l = mse_loss(&mut pool, &ys, &yp);
    assert_eq!(l, Value(11));
    assert_eq!(pool.nodes[5].op, ScalarOp::Leaf);
    assert_eq!(pool.nodes[6].op, ScalarOp::Sub);
    assert_eq!(pool.nodes[7].op, ScalarOp::Pow2);
    assert_eq!(pool.nodes[8].parents, vec![5, 7]);
}

#[test]
fn backward_order_walks_down_from_the_root() {
    let mut pool = Pool::new();
    let a = pool.new_value(0);
    let b = pool.new_value(0);
    let c = pool.mul(a, b);
    let d = pool.tanh(c);
    assert_eq!(pool.backward_order(d), vec![(3, 0), (2, 0), (2, 1)]);
}

#[test]
fn flush_keeps_the_parameters() {
    let mut pool = Pool::new();
    let a = pool.new_random();
    pool.set_param_end();
    let b = pool.new_value(0);
    pool.add(a, b);
    pool.flush();
    assert_eq!(pool.nodes.len(), 1);
}

#[test]
fn scalar_tanh_is_built_from_exponentials() {
    let mut pool = ev::Pool::new();
    let x = pool.new_value(0);
    let t = homemade_ml::engine::activation::tanh(&mut pool, x);
    assert_eq!(t, ev::Value(7));
    assert_eq!(pool.nodes[1].init, homemade_ml::model::value::Init::Bits(TWO_BITS));
    assert_eq!(pool.nodes[2].init, homemade_ml::model::value::Init::Bits(ONE_BITS));
    assert_eq!(pool.nodes[7].op, ev::ValueOp::Div);
    assert_eq!(pool.nodes[7].parents, vec![5, 6]);
}

#[test]
fn scalar_softmax_divides_by_the_total() {
    let mut pool = ev::Pool::new();
    let xs: Vec<ev::Value> = (0..3).map(|_| pool.new_value(0)).collect();
    let r = Activation::Softmax.apply(&mut pool, &xs);
    assert_eq!(r, vec![ev::Value(10), ev::Value(11), ev::Value(12)]);
    assert_eq!(pool.nodes[10].parents, vec![3, 9]);
    let r = Activation::Relu.apply(&mut pool, &xs);
    assert_eq!(r, vec![ev::Value(14), ev::Value(16), ev::Value(18)]);
}

#[test]
fn scalar_flushes_keep_their_boundary() {
    let mut pool = ev::Pool::new();
    let a = pool.new_value(0);
    pool.set_param_end();
    let b = pool.new_value(0);
    pool.set_input_end();
    pool.mul(a, b);
    pool.flush_compute();
    assert_eq!(pool.nodes.len(), 2);
    pool.flush();
    assert_eq!(pool.nodes.len(), 1);
}
