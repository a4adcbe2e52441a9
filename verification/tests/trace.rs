use homemade_ml::model::value::{Pool, Value};
use homemade_ml::draw_dot::trace::trace;

#[test]
fn trace_walks_inputs_depth_first() {
    let mut pool = Pool::new();
    let a = pool.new_value(1.0f64.to_bits());
    let b = pool.new_value(2.0f64.to_bits());
    let unused = pool.new_value(3.0f64.to_bits());
    let c = pool.mul(a, b);
    let d = pool.add(c, a);
    let (nodes, edges) = trace(&pool, d);
    assert_eq!(nodes, vec![d.0, c.0, a.0, b.0]);
    assert!(!nodes.contains(&unused.0));
    assert_eq!(edges, vec![(c.0, d.0), (a.0, c.0), (b.0, c.0), (a.0, d.0)]);
}

#[test]
fn trace_keeps_an_edge_per_input_slot() {
    let mut pool = Pool::new();
    let a = pool.new_value(3.0f64.to_bits());
    let sq = pool.mul(a, a);
    let (nodes, edges) = trace(&pool, sq);
    assert_eq!(nodes, vec![sq.0, a.0]);
    assert_eq!(edges, vec![(a.0, sq.0), (a.0, sq.0)]);
}

#[test]
fn trace_of_a_leaf_is_the_leaf_alone() {
    let mut pool = Pool::new();
    let a = pool.new_value(0);
    let (nodes, edges) = trace(&pool, a);
    assert_eq!(nodes, vec![a.0]);
    assert!(edges.is_empty());
    assert_eq!(a, Value(0));
}
