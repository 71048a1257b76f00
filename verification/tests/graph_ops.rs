use simple_graph::{Graph, GraphOperationError};

fn city_graph() -> Graph {
    let mut g = Graph::new();
    let moscow = g.add_vertex("Moscow".to_string()).unwrap();
    let vladimir = g.add_vertex("Vladimir".to_string()).unwrap();
    let yaroslavl = g.add_vertex("Yaroslavl".to_string()).unwrap();
    let novgorod = g.add_vertex("Novgorod".to_string()).unwrap();
    let vologda = g.add_vertex("Vologda".to_string()).unwrap();
    g.add_edge(moscow, vladimir, "180".to_string()).unwrap();
    g.add_edge(moscow, yaroslavl, "250".to_string()).unwrap();
    g.add_edge(vladimir, novgorod, "225".to_string()).unwrap();
    g.add_edge(yaroslavl, vologda, "175".to_string()).unwrap();
    g
}

#[test]
fn duplicate_vertex_is_rejected() {
    let mut g = Graph::new();
    assert!(g.add_vertex("Moscow".to_string()).is_ok());
    assert_eq!(
        g.add_vertex("Moscow".to_string()),
        Err(GraphOperationError::VertexAlreadyExists)
    );
    assert_eq!(g.vertices_count(), 1);
}

#[test]
fn edge_to_missing_vertex_is_rejected() {
    let mut g = Graph::new();
    let a = g.add_vertex("a".to_string()).unwrap();
    let ghost_town = g.get_vertex_id(&"nowhere".to_string());
    assert_eq!(
        g.add_edge(a, ghost_town, "x".to_string()),
        Err(GraphOperationError::VertexDoesNotExist)
    );
    assert_eq!(
        g.add_edge(ghost_town, a, "x".to_string()),
        Err(GraphOperationError::VertexDoesNotExist)
    );
    assert_eq!(g.edges_count(), 0);
    assert_eq!(g.vertices_count(), 1);
}

#[test]
fn identity_is_deterministic() {
    let g = Graph::new();
    let h = Graph::new();
    let a1 = g.get_vertex_id(&"Moscow".to_string());
    let a2 = g.get_vertex_id(&"Moscow".to_string());
    let b = h.get_vertex_id(&"Moscow".to_string());
    assert_eq!(a1, a2);
    assert_eq!(a1, b);
    assert_ne!(a1, g.get_vertex_id(&"Vladimir".to_string()));
    assert_eq!(
        simple_graph::hash_str("Moscow"),
        simple_graph::hash_str("Moscow")
    );
}

#[test]
fn get_vertex_resolves_by_id() {
    let g = city_graph();
    let moscow = g.get_vertex_id(&"Moscow".to_string());
    assert_eq!(g.get_vertex(moscow), Ok(&"Moscow".to_string()));
    let unknown = g.get_vertex_id(&"New York".to_string());
    assert_eq!(
        g.get_vertex(unknown),
        Err(GraphOperationError::VertexDoesNotExist)
    );
}

#[test]
fn remove_vertex_drops_every_touching_edge() {
    let mut g = Graph::new();
    let a = g.add_vertex("a".to_string()).unwrap();
    let b = g.add_vertex("b".to_string()).unwrap();
    let c = g.add_vertex("c".to_string()).unwrap();
    let d = g.add_vertex("d".to_string()).unwrap();
    g.add_edge(a, b, "1".to_string()).unwrap();
    g.add_edge(c, b, "2".to_string()).unwrap();
    g.add_edge(b, d, "3".to_string()).unwrap();
    g.add_edge(a, c, "4".to_string()).unwrap();
    assert_eq!(g.edges_count(), 4);
    assert!(g.remove_vertex(b).is_ok());
    assert_eq!(g.vertices_count(), 3);
    assert_eq!(g.edges_count(), 1);
    // no dangling edges: every listed endpoint still resolves
    for (from, to, _) in g.edges().unwrap() {
        let fid = g.get_vertex_id(&from);
        let tid = g.get_vertex_id(&to);
        assert!(g.get_vertex(fid).is_ok());
        assert!(g.get_vertex(tid).is_ok());
    }
    assert_eq!(
        g.remove_vertex(b),
        Err(GraphOperationError::VertexDoesNotExist)
    );
}

#[test]
fn remove_vertex_drops_parallel_incoming_edges() {
    let mut g = Graph::new();
    let a = g.add_vertex("a".to_string()).unwrap();
    let b = g.add_vertex("b".to_string()).unwrap();
    g.add_edge(a, b, "1".to_string()).unwrap();
    g.add_edge(a, b, "2".to_string()).unwrap();
    assert_eq!(g.edges_count(), 2);
    assert!(g.remove_vertex(b).is_ok());
    assert_eq!(g.edges_count(), 0);
    assert!(g.get_edge(a, b).is_err());
}

#[test]
fn duplicate_edge_collapses() {
    let mut g = Graph::new();
    let a = g.add_vertex("a".to_string()).unwrap();
    let b = g.add_vertex("b".to_string()).unwrap();
    g.add_edge(a, b, "1".to_string()).unwrap();
    g.add_edge(a, b, "1".to_string()).unwrap();
    assert_eq!(g.edges_count(), 1);
    g.add_edge(a, b, "2".to_string()).unwrap();
    assert_eq!(g.edges_count(), 2);
}

#[test]
fn get_edge_and_value() {
    let g = city_graph();
    let moscow = g.get_vertex_id(&"Moscow".to_string());
    let vladimir = g.get_vertex_id(&"Vladimir".to_string());
    let e = g.get_edge(moscow, vladimir).unwrap();
    assert_eq!(e.from, moscow);
    assert_eq!(e.to, vladimir);
    assert_eq!(e.label, "180".to_string());
    assert_eq!(g.get_edge_value(moscow, vladimir), Ok(&"180".to_string()));
    assert!(matches!(
        g.get_edge(vladimir, moscow),
        Err(GraphOperationError::EdgeDoesNotExist)
    ));
}

#[test]
fn remove_edge_first_match_only() {
    let mut g = Graph::new();
    let a = g.add_vertex("a".to_string()).unwrap();
    let b = g.add_vertex("b".to_string()).unwrap();
    g.add_edge(a, b, "1".to_string()).unwrap();
    g.add_edge(a, b, "2".to_string()).unwrap();
    assert!(g.remove_edge(a, b).is_ok());
    assert_eq!(g.get_edge_value(a, b), Ok(&"2".to_string()));
    assert!(g.remove_edge(a, b).is_ok());
    assert_eq!(
        g.remove_edge(a, b),
        Err(GraphOperationError::EdgeDoesNotExist)
    );
}

#[test]
fn counts_and_listings() {
    let g = city_graph();
    assert_eq!(g.vertices_count(), 5);
    assert_eq!(g.edges_count(), 4);
    let vs = g.vertices().unwrap();
    assert_eq!(vs.len(), 5);
    assert_eq!(vs[0].0, "Moscow".to_string());
    assert_eq!(
        vs[0].1,
        vec![
            ("Vladimir".to_string(), "180".to_string()),
            ("Yaroslavl".to_string(), "250".to_string())
        ]
    );
    assert_eq!(vs[3].1, Vec::<(String, String)>::new());
    let es = g.edges().unwrap();
    assert_eq!(
        es,
        vec![
            ("Moscow".to_string(), "Vladimir".to_string(), "180".to_string()),
            ("Moscow".to_string(), "Yaroslavl".to_string(), "250".to_string()),
            ("Vladimir".to_string(), "Novgorod".to_string(), "225".to_string()),
            ("Yaroslavl".to_string(), "Vologda".to_string(), "175".to_string()),
        ]
    );
}

#[test]
fn vertex_info_resolves_neighbors() {
    let g = city_graph();
    let moscow = g.get_vertex_id(&"Moscow".to_string());
    let (value, adjacent) = g.get_vertex_info(moscow).unwrap();
    assert_eq!(value, "Moscow".to_string());
    assert_eq!(
        adjacent,
        vec![
            ("Vladimir".to_string(), "180".to_string()),
            ("Yaroslavl".to_string(), "250".to_string())
        ]
    );
    let unknown = g.get_vertex_id(&"New York".to_string());
    assert!(g.get_vertex_info(unknown).is_err());
}
