use graphlib::graph::Graph;
use graphlib::graph::GraphError;
use graphlib::graph::Link;
use graphlib::graph::Node;

fn help_create_test_directed_graph() -> Graph {
    let mut g = Graph::new();
    let n1 = Node::new("a".to_string(), "a".to_string());
    let n2 = Node::new("b".to_string(), "b".to_string());
    let n3 = Node::new("c".to_string(), "c".to_string());
    let n4 = Node::new("d".to_string(), "d".to_string());
    let _ = g.add_node(&n1);
    let _ = g.add_node(&n2);
    let _ = g.add_node(&n3);
    let _ = g.add_node(&n4);
    let _ = g.add_link(&Link {
        source: "a".to_string(),
        target: "b".to_string(),
        label: "".to_string(),
        weight: 1,
    });
    let _ = g.add_link(&Link {
        source: "c".to_string(),
        target: "d".to_string(),
        label: "".to_string(),
        weight: 1,
    });
    g
}

#[test]
fn test_create_graph() {
    let g = Graph::new();
    assert_eq!(g.weighted, false);
    assert_eq!(g.directed, true);
    assert_eq!(g.nodes.len(), 0);
    assert_eq!(g.nodes_map.len(), 0);
    assert_eq!(g.links.len(), 0);
}

#[test]
fn test_new_node() {
    let n1 = Node::new("1".to_string(), "1".to_string());
    let n2 = Node {
        id: "1".to_string(),
        name: "1".to_string(),
    };
    assert_eq!(n1, n2);
}

#[test]
fn test_clone_node() {
    let n1 = Node::new("1".to_string(), "1".to_string());
    let n2 = n1.clone();
    assert_eq!(n1, n2);
}

#[test]
fn test_clone_link() {
    let l1 = Link {
        source: "1".to_string(),
        target: "2".to_string(),
        label: "1".to_string(),
        weight: 1,
    };
    let l2 = l1.clone();
    assert_eq!(l1.source, l2.source);
    assert_eq!(l1.target, l2.target);
    assert_eq!(l1.label, l2.label);
    assert_eq!(l1.weight, l2.weight);
}

#[test]
fn test_add_node() {
    let mut g = Graph::new();
    let n1 = Node::new("1".to_string(), "1".to_string());
    let _ = g.add_node(&n1);
    assert_eq!(g.get_node(&n1.id).unwrap(), n1);
    // same nodes will not duplicate
    let _ = g.add_node(&n1);
    assert_eq!(g.nodes.len(), 1);
    assert_eq!(g.nodes_map.len(), 1);
}

#[test]
fn test_add_link() {
    let mut g = Graph::new();
    let l1 = Link {
        source: "1".to_string(),
        target: "2".to_string(),
        label: "1".to_string(),
        weight: 1,
    };
    let _ = g.add_link(&l1);
    assert_eq!(g.nodes.len(), 2);
    assert_eq!(g.nodes_map.len(), 2);
    assert_eq!(g.links.len(), 1);
    assert_eq!(g.get_node("1").unwrap().id, "1");
    assert_eq!(g.get_node("2").unwrap().id, "2");
    assert_eq!(g.get_link("1", "2").unwrap().source, "1");
    assert_eq!(g.get_link("1", "2").unwrap().target, "2");
}

#[test]
fn test_to_matrix() {
    let mut g = Graph::new();
    let l1 = Link {
        source: "1".to_string(),
        target: "2".to_string(),
        label: "1".to_string(),
        weight: 1,
    };
    let _ = g.add_link(&l1);
    assert_eq!(g.to_matrix(), vec![vec![false, true], vec![false, false]]);
    g.directed = false;
    assert_eq!(g.to_matrix(), vec![vec![false, true], vec![true, false]]);
}

#[test]
fn test_direct_connected() {
    let mut g = Graph::new();
    let _ = g.add_link(&Link {
        source: "1".to_string(),
        target: "2".to_string(),
        label: "1".to_string(),
        weight: 1,
    });
    let _ = g.add_link(&Link {
        source: "1".to_string(),
        target: "3".to_string(),
        label: "1".to_string(),
        weight: 1,
    });
    assert_eq!(
        g.direct_connected("1"),
        vec![
            Node {
                id: "2".to_string(),
                name: "".to_string()
            },
            Node {
                id: "3".to_string(),
                name: "".to_string()
            }
        ]
    );
    assert_eq!(g.direct_connected("2"), vec![]);
    g.directed = false;
    assert_eq!(
        g.direct_connected("2"),
        vec![Node {
            id: "1".to_string(),
            name: "".to_string()
        },]
    );
}

#[test]
fn test_connected_components_ok() {
    let mut g = Graph::new();
    g.directed = false;
    assert_eq!(g.connected_components().len(), 0);
    assert_eq!(g.directed, false);
    let n1 = Node::new("a".to_string(), "a".to_string());
    let n2 = Node::new("b".to_string(), "b".to_string());
    let n3 = Node::new("c".to_string(), "c".to_string());
    let n4 = Node::new("d".to_string(), "d".to_string());
    let _ = g.add_node(&n1);
    let _ = g.add_node(&n2);
    let _ = g.add_node(&n3);
    let _ = g.add_node(&n4);
    let _ = g.add_link(&Link {
        source: "a".to_string(),
        target: "b".to_string(),
        label: "".to_string(),
        weight: 1,
    });
    let _ = g.add_link(&Link {
        source: "c".to_string(),
        target: "d".to_string(),
        label: "".to_string(),
        weight: 1,
    });
    g.directed = true;
    assert_eq!(g.connected_components().len(), 2);
    assert_eq!(g.directed, true);
}

#[test]
fn test_indegree() {
    let mut g = help_create_test_directed_graph();
    assert_eq!(g.indegree("a"), 0);
    assert_eq!(g.indegree("b"), 1);
}

#[test]
fn test_outdegree() {
    let mut g = help_create_test_directed_graph();
    assert_eq!(g.outdegree("a"), 1);
    assert_eq!(g.outdegree("b"), 0);
}

#[test]
fn test_degree_centrality() {
    let mut g = help_create_test_directed_graph();
    assert_eq!(g.degree_centrality("a"), 1);
    assert_eq!(g.degree_centrality("b"), 1);
}

#[test]
fn test_duplicate_node_rejected() {
    let mut g = Graph::new();
    let n1 = Node::new("x".to_string(), "first".to_string());
    let n2 = Node::new("x".to_string(), "second".to_string());
    assert_eq!(g.add_node(&n1), Ok(true));
    assert_eq!(g.add_node(&n2), Err(GraphError::DuplicateNode));
    assert_eq!(g.nodes.len(), 1);
    assert_eq!(g.get_node("x").unwrap().name, "first");
}

#[test]
fn test_duplicate_link_rejected_reverse_accepted() {
    let mut g = Graph::new();
    let fwd = Link {
        source: "a".to_string(),
        target: "b".to_string(),
        label: "".to_string(),
        weight: 1,
    };
    assert_eq!(g.add_link(&fwd), Ok(true));
    assert_eq!(g.add_link(&fwd), Err(GraphError::DuplicateLink));
    assert_eq!(g.links.len(), 1);
    assert_eq!(g.nodes.len(), 2);
    // the reverse ordered pair is a different link and is accepted
    let rev = Link {
        source: "b".to_string(),
        target: "a".to_string(),
        label: "".to_string(),
        weight: 1,
    };
    assert_eq!(g.add_link(&rev), Ok(true));
    assert_eq!(g.links.len(), 2);
}

#[test]
fn test_error_messages() {
    assert_eq!(
        GraphError::DuplicateNode.message(),
        "node id is already present"
    );
    assert_eq!(
        GraphError::DuplicateLink.message(),
        "link key is already present"
    );
}

#[test]
fn test_get_link_absent() {
    let mut g = Graph::new();
    let _ = g.add_link(&Link {
        source: "a".to_string(),
        target: "b".to_string(),
        label: "".to_string(),
        weight: 1,
    });
    assert!(g.get_link("b", "a").is_none());
    assert!(g.get_node("z").is_none());
}

#[test]
fn test_matrix_symmetric_iff_undirected() {
    let mut g = Graph::new();
    let _ = g.add_link(&Link {
        source: "a".to_string(),
        target: "b".to_string(),
        label: "".to_string(),
        weight: 1,
    });
    let _ = g.add_link(&Link {
        source: "b".to_string(),
        target: "c".to_string(),
        label: "".to_string(),
        weight: 1,
    });
    let m = g.to_matrix();
    // directed: a->b is stored, b->a is not
    assert!(m[0][1] && !m[1][0]);
    g.directed = false;
    let m = g.to_matrix();
    for i in 0..m.len() {
        for j in 0..m.len() {
            assert_eq!(m[i][j], m[j][i]);
        }
    }
}

#[test]
fn test_components_partition_nodes() {
    let mut g = Graph::new();
    g.directed = false;
    let _ = g.add_link(&Link {
        source: "a".to_string(),
        target: "b".to_string(),
        label: "".to_string(),
        weight: 1,
    });
    let _ = g.add_link(&Link {
        source: "c".to_string(),
        target: "d".to_string(),
        label: "".to_string(),
        weight: 1,
    });
    let comps = g.connected_components();
    assert_eq!(comps.len(), 2);
    for comp in &comps {
        assert_eq!(comp.len(), 2);
    }
    let mut seen: Vec<String> = comps
        .iter()
        .flat_map(|c| c.iter().map(|n| n.id.clone()))
        .collect();
    seen.sort();
    assert_eq!(seen, vec!["a", "b", "c", "d"]);
}

#[test]
fn test_components_span_chains() {
    // a chain is one component even though its ends are not directly linked
    let mut g = Graph::new();
    let _ = g.add_link(&Link {
        source: "a".to_string(),
        target: "b".to_string(),
        label: "".to_string(),
        weight: 1,
    });
    let _ = g.add_link(&Link {
        source: "b".to_string(),
        target: "c".to_string(),
        label: "".to_string(),
        weight: 1,
    });
    let comps = g.connected_components();
    assert_eq!(comps.len(), 1);
    assert_eq!(comps[0].len(), 3);
    // the seed (first stored node) heads its component
    assert_eq!(comps[0][0].id, "a");
}

#[test]
fn test_degree_of_unknown_id() {
    let mut g = help_create_test_directed_graph();
    assert_eq!(g.indegree("nope"), 0);
    assert_eq!(g.outdegree("nope"), 0);
    assert_eq!(g.degree_centrality("nope"), 0);
}
