use homemade_ml::draw_dot::layout::{layout, node_width, node_width_fits, GEdge, GNode};
use homemade_ml::draw_dot::rank::kahn_ranks;

fn node(id: usize, label: &str, op: &str) -> (GNode, i32) {
    let data = format!("data={:.3}", 0.0f64);
    let grad = format!("grad={:.3}", 0.0f64);
    (GNode { id, has_op: !op.is_empty() }, node_width(label.len(), data.len(), grad.len()))
}

fn index(nodes: &[GNode], id: usize) -> usize {
    nodes.iter().position(|n| n.id == id).unwrap()
}

#[test]
fn derived_nodes_stay_vertically_centered_between_their_parents() {
    let spec = vec![
        node(9, "o", "tanh"),
        node(8, "n", "+"),
        node(5, "sum", "+"),
        node(3, "left", "*"),
        node(1, "x1", ""),
        node(2, "w1", ""),
        node(4, "right", "*"),
        node(6, "x2", ""),
        node(7, "w2", ""),
        node(10, "b", ""),
    ];
    let nodes: Vec<GNode> = spec.iter().map(|(n, _)| *n).collect();
    let widths: Vec<i32> = spec.iter().map(|(_, w)| *w).collect();
    let edges = vec![
        GEdge { from: 1, to: 3 }, GEdge { from: 2, to: 3 },
        GEdge { from: 6, to: 4 }, GEdge { from: 7, to: 4 },
        GEdge { from: 3, to: 5 }, GEdge { from: 4, to: 5 },
        GEdge { from: 5, to: 8 }, GEdge { from: 10, to: 8 },
        GEdge { from: 8, to: 9 },
    ];

    let (positions, operation_positions) = layout(&nodes, &edges, &widths);

    for child in [3, 4, 5, 8, 9] {
        let parents: Vec<_> = edges.iter().filter(|edge| edge.to == child).collect();
        let expected_y = parents.iter().map(|edge| positions[index(&nodes, edge.from)].1).sum::<i32>()
            / parents.len() as i32;
        let c = index(&nodes, child);
        assert_eq!(positions[c].1, expected_y, "node {child} is not centered");
        assert_eq!(operation_positions[c].unwrap().1, expected_y);
    }

    let (n5, n10) = (index(&nodes, 5), index(&nodes, 10));
    assert_eq!(
        positions[n5].0 - widths[n5] / 2,
        positions[n10].0 - widths[n10] / 2,
        "nodes in the same column should share a left edge",
    );
}

#[test]
fn node_width_sums_the_sections() {
    assert_eq!(node_width(0, 10, 10), 2 * (10 * 7 + 14));
    assert_eq!(node_width(1, 10, 10), 21 + 2 * (10 * 7 + 14));
    assert_eq!(node_width(0, 0, 0), 28);
    assert_eq!(node_width(1, 0, 0), 21 + 28);
}

#[test]
fn node_width_fits_up_to_the_i32_limit() {
    assert!(node_width_fits(0, 10, 10));
    assert!(node_width_fits(20_000_000, 10, 10));
    assert_eq!(node_width(20_000_000, 10, 10), 20_000_000 * 7 + 14 + 2 * (10 * 7 + 14));
    assert!(node_width_fits(0, 306_783_374, 0));
    assert!(!node_width_fits(0, 306_783_376, 0));
    assert!(node_width_fits(100_000_000, 100_000_000, 100_000_000));
    assert!(!node_width_fits(110_000_000, 110_000_000, 110_000_000));
}

#[test]
fn chain_layout_exact_positions() {
    // a -> b -> c, every node 100 wide: three columns 110 apart.
    let nodes = vec![
        GNode { id: 30, has_op: true },
        GNode { id: 20, has_op: true },
        GNode { id: 10, has_op: false },
    ];
    let edges = vec![GEdge { from: 10, to: 20 }, GEdge { from: 20, to: 30 }];
    let widths = vec![100, 100, 100];
    let (val, op) = layout(&nodes, &edges, &widths);
    assert_eq!(val[2], (50, 25));
    assert_eq!(val[1], (260, 25));
    assert_eq!(val[0], (470, 25));
    assert_eq!(op[2], None);
    assert_eq!(op[1], Some((155, 25)));
    assert_eq!(op[0], Some((365, 25)));
}

#[test]
fn column_spreads_overlapping_nodes_downwards() {
    // Two leaves feeding one node each sit in the first column, 50 apart.
    let nodes = vec![
        GNode { id: 0, has_op: false },
        GNode { id: 1, has_op: false },
        GNode { id: 2, has_op: true },
        GNode { id: 3, has_op: true },
    ];
    let edges = vec![GEdge { from: 0, to: 2 }, GEdge { from: 1, to: 3 }, GEdge { from: 0, to: 3 }];
    let widths = vec![40, 40, 40, 40];
    let (val, _) = layout(&nodes, &edges, &widths);
    assert_eq!(val[0].1, -25);
    assert_eq!(val[1].1, 25);
    // Node 2 centres on node 0; node 3 on the mean of nodes 1 and 0 (0),
    // which is too close below node 2 and is pushed down.
    assert_eq!(val[2].1, -25);
    assert_eq!(val[3].1, 25);
}

#[test]
fn a_lone_node_sits_at_the_origin_column() {
    let nodes = vec![GNode { id: 7, has_op: false }];
    let (val, op) = layout(&nodes, &Vec::new(), &vec![30]);
    assert_eq!(val, vec![(15, 25)]);
    assert_eq!(op, vec![None]);
}

#[test]
fn kahn_ranks_longest_paths_from_the_sources() {
    let es = vec![(0usize, 1usize), (1, 2), (0, 2), (2, 3)];
    let (rank, taken) = kahn_ranks(4, &es);
    assert_eq!(rank, vec![0, 1, 2, 3]);
    assert_eq!(taken, vec![true, true, true, true]);
}

#[test]
fn kahn_ranks_leave_a_cycle_untaken() {
    let es = vec![(0usize, 1usize), (1, 2), (2, 1)];
    let (rank, taken) = kahn_ranks(4, &es);
    assert_eq!(taken, vec![true, false, false, true]);
    assert_eq!(rank, vec![0, 1, 0, 0]);
}

#[test]
fn layout_of_a_cyclic_graph_is_the_same_each_time() {
    let nodes = vec![
        GNode { id: 0, has_op: false },
        GNode { id: 1, has_op: true },
        GNode { id: 2, has_op: true },
    ];
    let widths = vec![40, 50, 60];
    let edges = vec![GEdge { from: 0, to: 1 }, GEdge { from: 1, to: 2 }, GEdge { from: 2, to: 1 }];
    let first = layout(&nodes, &edges, &widths);
    let second = layout(&nodes, &edges, &widths);
    assert_eq!(first, second);
    assert_eq!(first.0.len(), 3);
    assert!(first.1[0].is_none() && first.1[1].is_some() && first.1[2].is_some());
}

#[test]
fn layout_laws_hold_on_a_small_expression() {
    let spec = vec![
        node(9, "o", "tanh"),
        node(8, "n", "+"),
        node(5, "sum", "+"),
        node(3, "left", "*"),
        node(1, "x1", ""),
        node(2, "w1", ""),
        node(4, "right", "*"),
        node(6, "x2", ""),
        node(7, "w2", ""),
        node(10, "b", ""),
    ];
    let nodes: Vec<GNode> = spec.iter().map(|(n, _)| *n).collect();
    let widths: Vec<i32> = spec.iter().map(|(_, w)| *w).collect();
    let edges = vec![
        GEdge { from: 1, to: 3 }, GEdge { from: 2, to: 3 },
        GEdge { from: 6, to: 4 }, GEdge { from: 7, to: 4 },
        GEdge { from: 3, to: 5 }, GEdge { from: 4, to: 5 },
        GEdge { from: 5, to: 8 }, GEdge { from: 10, to: 8 },
        GEdge { from: 8, to: 9 },
    ];
    let (pos, ops) = layout(&nodes, &edges, &widths);
    for v in 0..nodes.len() {
        assert_eq!(ops[v].is_some(), nodes[v].has_op);
        if let Some((ox, oy)) = ops[v] {
            assert_eq!(oy, pos[v].1);
            assert!(ox < pos[v].0 - widths[v] / 2);
        }
    }
    for e in &edges {
        let a = index(&nodes, e.from);
        let b = index(&nodes, e.to);
        assert!(pos[a].0 + widths[a] / 2 < pos[b].0 - widths[b] / 2);
    }
    for p in 0..nodes.len() {
        for q in 0..nodes.len() {
            if p != q && pos[p].0 - widths[p] / 2 == pos[q].0 - widths[q] / 2 {
                assert!((pos[p].1 - pos[q].1).abs() >= 50);
            }
        }
    }
    for v in 0..nodes.len() {
        let ins: Vec<i32> = edges.iter().filter(|e| e.to == nodes[v].id).map(|e| pos[index(&nodes, e.from)].1).collect();
        if !ins.is_empty() && pos[v].0 - widths[v] / 2 > 0 {
            assert!(pos[v].1 >= ins.iter().sum::<i32>() / ins.len() as i32);
        }
    }
}

#[test]
fn a_graph_of_two_thousand_nodes_is_laid_out() {
    let n = 2000usize;
    let nodes: Vec<GNode> = (0..n).map(|id| GNode { id, has_op: id > 0 }).collect();
    let widths: Vec<i32> = vec![200; n];
    let edges: Vec<GEdge> = (1..n).map(|id| GEdge { from: id - 1, to: id }).collect();
    assert!(homemade_ml::draw_dot::layout::layout_fits(&nodes, &edges, &widths));
    let (pos, _) = layout(&nodes, &edges, &widths);
    assert_eq!(pos.len(), n);
    for id in 1..n {
        assert!(pos[id - 1].0 + 100 < pos[id].0 - 100);
    }
}
