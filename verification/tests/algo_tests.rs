use graphlib::algo::dijkstra_shortest;
use graphlib::graph::Graph;
use graphlib::graph::Link;
use graphlib::graph::Node;

fn link(source: &str, target: &str, weight: u64) -> Link {
    Link {
        source: source.to_string(),
        target: target.to_string(),
        label: "".to_string(),
        weight,
    }
}

#[test]
fn test_dijkstra_shortest() {
    let mut g = Graph::new();
    let n1 = Node::new("a".to_string(), "a".to_string());
    let n2 = Node::new("b".to_string(), "b".to_string());
    let n3 = Node::new("c".to_string(), "c".to_string());
    let n4 = Node::new("d".to_string(), "d".to_string());
    let _ = g.add_node(&n1);
    let _ = g.add_node(&n2);
    let _ = g.add_node(&n3);
    let _ = g.add_node(&n4);
    let _ = g.add_link(&Link {
        source: "a".to_string(),
        target: "b".to_string(),
        label: "".to_string(),
        weight: 1,
    });
    let _ = g.add_link(&Link {
        source: "b".to_string(),
        target: "c".to_string(),
        label: "".to_string(),
        weight: 1,
    });
    let _ = g.add_link(&Link {
        source: "c".to_string(),
        target: "d".to_string(),
        label: "".to_string(),
        weight: 1,
    });
    let _ = g.add_link(&Link {
        source: "a".to_string(),
        target: "c".to_string(),
        label: "".to_string(),
        weight: 1,
    });
    assert_eq!(
        dijkstra_shortest(&g, "a", "d"),
        vec![n1.clone(), n3, n4.clone()]
    );
    let _ = g.add_link(&Link {
        source: "a".to_string(),
        target: "d".to_string(),
        label: "".to_string(),
        weight: 1,
    });
    assert_eq!(dijkstra_shortest(&g, "a", "d"), vec![n1, n4]);
}

#[test]
fn test_dijkstra_unknown_endpoints() {
    let mut g = Graph::new();
    let _ = g.add_link(&link("a", "b", 1));
    assert_eq!(dijkstra_shortest(&g, "a", "z"), vec![]);
    assert_eq!(dijkstra_shortest(&g, "z", "b"), vec![]);
    assert_eq!(dijkstra_shortest(&g, "y", "z"), vec![]);
}

#[test]
fn test_dijkstra_same_node() {
    let mut g = Graph::new();
    let n = Node::new("a".to_string(), "home".to_string());
    let _ = g.add_node(&n);
    let _ = g.add_link(&link("a", "b", 1));
    assert_eq!(dijkstra_shortest(&g, "a", "a"), vec![n]);
}

#[test]
fn test_dijkstra_no_path() {
    let mut g = Graph::new();
    let _ = g.add_link(&link("a", "b", 1));
    let _ = g.add_link(&link("c", "d", 1));
    assert_eq!(dijkstra_shortest(&g, "a", "d"), vec![]);
    // links are stored directed: no path against the arrow
    assert_eq!(dijkstra_shortest(&g, "b", "a"), vec![]);
}

#[test]
fn test_dijkstra_weighted() {
    let mut g = Graph::new();
    g.weighted = true;
    let _ = g.add_link(&link("a", "d", 10));
    let _ = g.add_link(&link("a", "c", 1));
    let _ = g.add_link(&link("c", "d", 1));
    let path = dijkstra_shortest(&g, "a", "d");
    let ids: Vec<&str> = path.iter().map(|n| n.id.as_str()).collect();
    assert_eq!(ids, vec!["a", "c", "d"]);
    // unweighted, the direct link wins
    g.weighted = false;
    let path = dijkstra_shortest(&g, "a", "d");
    let ids: Vec<&str> = path.iter().map(|n| n.id.as_str()).collect();
    assert_eq!(ids, vec!["a", "d"]);
}

#[test]
fn test_dijkstra_undirected_uses_reverse_links() {
    let mut g = Graph::new();
    let _ = g.add_link(&link("a", "b", 1));
    g.directed = false;
    let path = dijkstra_shortest(&g, "b", "a");
    let ids: Vec<&str> = path.iter().map(|n| n.id.as_str()).collect();
    assert_eq!(ids, vec!["b", "a"]);
}
