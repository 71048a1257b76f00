use simple_graph::{AlgorithmType, Graph, GraphOperationError};

fn city_graph() -> Graph {
    let mut g = Graph::new();
    let moscow = g.add_vertex("Moscow".to_string()).unwrap();
    let vladimir = g.add_vertex("Vladimir".to_string()).unwrap();
    let yaroslavl = g.add_vertex("Yaroslavl".to_string()).unwrap();
    let novgorod = g.add_vertex("Novgorod".to_string()).unwrap();
    let vologda = g.add_vertex("Vologda".to_string()).unwrap();
    g.add_edge(moscow, vladimir, "180".to_string()).unwrap();
    g.add_edge(moscow, yaroslavl, "250".to_string()).unwrap();
    g.add_edge(vladimir, novgorod, "225".to_string()).unwrap();
    g.add_edge(yaroslavl, vologda, "175".to_string()).unwrap();
    g
}

fn visited_names(log: &[(String, Vec<(String, String)>)]) -> Vec<String> {
    log.iter().map(|(v, _)| v.clone()).collect()
}

#[test]
fn bfs_layering_order() {
    let g = city_graph();
    let moscow = g.get_vertex_id(&"Moscow".to_string());
    let log = g.bfs(moscow).unwrap();
    assert_eq!(
        visited_names(&log),
        vec!["Moscow", "Vladimir", "Yaroslavl", "Novgorod", "Vologda"]
    );
    // the visitor sees the resolved neighbor list of each vertex
    assert_eq!(
        log[0].1,
        vec![
            ("Vladimir".to_string(), "180".to_string()),
            ("Yaroslavl".to_string(), "250".to_string())
        ]
    );
    assert_eq!(log[4].1, Vec::<(String, String)>::new());
}

#[test]
fn dfs_last_listed_neighbor_first() {
    let g = city_graph();
    let moscow = g.get_vertex_id(&"Moscow".to_string());
    let log = g.dfs(moscow).unwrap();
    assert_eq!(
        visited_names(&log),
        vec!["Moscow", "Yaroslavl", "Vologda", "Vladimir", "Novgorod"]
    );
}

#[test]
fn traversal_from_missing_source_fails() {
    let g = city_graph();
    let unknown = g.get_vertex_id(&"New York".to_string());
    assert_eq!(g.bfs(unknown), Err(GraphOperationError::VertexDoesNotExist));
    assert_eq!(g.dfs(unknown), Err(GraphOperationError::VertexDoesNotExist));
}

#[test]
fn traversal_visits_reachable_exactly_once() {
    let mut g = Graph::new();
    let a = g.add_vertex("a".to_string()).unwrap();
    let b = g.add_vertex("b".to_string()).unwrap();
    let c = g.add_vertex("c".to_string()).unwrap();
    let _isolated = g.add_vertex("island".to_string()).unwrap();
    // a cycle, plus parallel paths into c
    g.add_edge(a, b, "1".to_string()).unwrap();
    g.add_edge(b, a, "2".to_string()).unwrap();
    g.add_edge(a, c, "3".to_string()).unwrap();
    g.add_edge(b, c, "4".to_string()).unwrap();
    for log in [g.bfs(a).unwrap(), g.dfs(a).unwrap()] {
        let mut names = visited_names(&log);
        assert!(!names.contains(&"island".to_string()));
        let full = names.len();
        names.sort();
        names.dedup();
        assert_eq!(names.len(), full);
        assert_eq!(names, vec!["a", "b", "c"]);
    }
}

#[test]
fn parse_algorithm_accepts_both_spellings() {
    assert!(matches!(
        simple_graph::parse_algorithm("bfs"),
        Ok(AlgorithmType::BreadthFirstSearch)
    ));
    assert!(matches!(
        simple_graph::parse_algorithm("BFS"),
        Ok(AlgorithmType::BreadthFirstSearch)
    ));
    assert!(matches!(
        simple_graph::parse_algorithm("dfs"),
        Ok(AlgorithmType::DepthFirstSearch)
    ));
    assert!(matches!(
        simple_graph::parse_algorithm("DFS"),
        Ok(AlgorithmType::DepthFirstSearch)
    ));
    assert!(simple_graph::parse_algorithm("dijkstra").is_err());
    assert!(simple_graph::parse_algorithm("").is_err());
}
