//! Scenario tests that drive the engine together with the real random-walk
//! estimator and the PageRank crate, the way the service does: the engine
//! holds the graph and the caches, the estimator computes scores which are
//! fed back through `put_ranks`.

use meritrank::{MeritRank, MyGraph, NodeId};
use repgraph::engine::AugMultiGraph;
use repgraph::{WEIGHT_SCALE, TOP_NODES_LIMIT};
use simple_pagerank::Pagerank;

fn fx(x: f64) -> i128 {
    (x * (WEIGHT_SCALE as f64)).round() as i128
}

fn to_fx(x: f64) -> i128 {
    (x * (WEIGHT_SCALE as f64)) as i128
}

/// Mirror the engine's null-context edges into a fresh estimator, calculate
/// walks for `ego`, and feed the resulting ranks back into the engine.
/// Ids are shifted by one in the estimator, which treats id zero as unset.
fn refresh_ranks(g: &mut AugMultiGraph, edges: &[(&str, &str, f64)], ego: &str) {
    let mg = MyGraph::new();
    let mut mr = MeritRank::new(mg).unwrap();
    for (s, d, w) in edges {
        let sid = g.find_node_id(s).unwrap();
        let did = g.find_node_id(d).unwrap();
        mr.add_node(NodeId::UInt(sid + 1));
        mr.add_node(NodeId::UInt(did + 1));
        mr.add_edge(NodeId::UInt(sid + 1), NodeId::UInt(did + 1), *w);
    }
    let ego_id = g.find_node_id(ego).unwrap();
    if mr.calculate(NodeId::UInt(ego_id + 1), 200).is_err() {
        g.put_ranks("", ego, Vec::new());
        return;
    }
    let ranks = match mr.get_ranks(NodeId::UInt(ego_id + 1), None) {
        Ok(r) => r,
        Err(_) => Vec::new(),
    };
    let fixed: Vec<(usize, i128)> = ranks
        .into_iter()
        .filter_map(|(n, s)| match n {
            NodeId::UInt(i) if i >= 1 => Some((i - 1, to_fx(s))),
            _ => None,
        })
        .collect();
    g.put_ranks("", ego, fixed);
}

#[test]
fn positive_edge_gives_positive_asymmetric_score() {
    let mut g = AugMultiGraph::new();
    g.write_put_edge("", "U_a", "U_b", fx(1.0));
    refresh_ranks(&mut g, &[("U_a", "U_b", 1.0)], "U_a");
    let rows = g.read_node_score("", "U_a", "U_b");
    assert_eq!(rows.len(), 1);
    assert!(rows[0].2 > 0, "expected a positive score, got {}", rows[0].2);
    // the reverse direction has no walks through the edge
    refresh_ranks(&mut g, &[("U_a", "U_b", 1.0)], "U_b");
    let rows = g.read_node_score("", "U_b", "U_a");
    assert_eq!(rows[0].2, 0);
}

#[test]
fn zero_node_reseeded_from_page_rank() {
    let mut g = AugMultiGraph::new();
    g.write_put_edge("", "U_a", "U_b", fx(1.0));
    g.write_put_edge("", "U_b", "U_c", fx(1.0));
    g.write_put_edge("", "U_c", "U_a", fx(1.0));
    let a = g.find_node_id("U_a").unwrap();
    let b = g.find_node_id("U_b").unwrap();
    let c = g.find_node_id("U_c").unwrap();
    // cached ranks stand in for walk results
    g.put_ranks("", "U_a", vec![(b, fx(0.9))]);
    g.put_ranks("", "U_b", vec![(c, fx(0.9))]);
    g.put_ranks("", "U_c", vec![(a, fx(0.9))]);
    let reduced = g.reduced_graph();
    assert!(!reduced.is_empty());
    let mut pr = Pagerank::<usize>::new();
    for (s, d, _w) in reduced.iter() {
        pr.add_edge(*s, *d);
    }
    pr.calculate();
    let top: Vec<(usize, i128)> = pr
        .nodes()
        .into_iter()
        .take(TOP_NODES_LIMIT)
        .map(|(n, score)| (*n, to_fx(score)))
        .collect();
    g.write_recalculate_zero(&top.clone());
    // the zero node's outgoing edges: at most the top-node limit, no
    // self-loops, each to a user or beacon with a positive amount
    let rows = g.read_connected("", "U000000000000");
    assert!(rows.len() <= TOP_NODES_LIMIT);
    let edges = g.read_edges("");
    let zero_edges: Vec<_> = edges.iter().filter(|r| r.0 == "U000000000000").collect();
    assert!(!zero_edges.is_empty());
    for r in zero_edges {
        assert_ne!(r.1, "U000000000000");
        assert!(r.1.starts_with('U') || r.1.starts_with('B'));
        assert!(r.2 > 0);
    }
}
