use simple_graph::{Graph, GraphOperationError, ParseGraphError};

fn city_graph() -> Graph {
    let mut g = Graph::new();
    let moscow = g.add_vertex("Moscow".to_string()).unwrap();
    let vladimir = g.add_vertex("Vladimir".to_string()).unwrap();
    let yaroslavl = g.add_vertex("Yaroslavl".to_string()).unwrap();
    let novgorod = g.add_vertex("Novgorod".to_string()).unwrap();
    let vologda = g.add_vertex("Vologda".to_string()).unwrap();
    g.add_edge(moscow, vladimir, "180".to_string()).unwrap();
    g.add_edge(moscow, yaroslavl, "250".to_string()).unwrap();
    g.add_edge(vladimir, novgorod, "225".to_string()).unwrap();
    g.add_edge(yaroslavl, vologda, "175".to_string()).unwrap();
    g
}

const CITY_TGF: &str = "1 Moscow\n2 Vladimir\n3 Yaroslavl\n4 Novgorod\n5 Vologda\n#\n1 2 180\n1 3 250\n2 4 225\n3 5 175\n";

#[test]
fn serialize_city_graph() {
    assert_eq!(city_graph().to_tgf(), CITY_TGF.to_string());
}

#[test]
fn serialize_empty_graph() {
    assert_eq!(Graph::new().to_tgf(), "#\n".to_string());
}

#[test]
fn parse_city_graph() {
    let g = Graph::from_tgf(CITY_TGF).unwrap();
    assert_eq!(g.vertices_count(), 5);
    assert_eq!(g.edges_count(), 4);
    let moscow = g.get_vertex_id(&"Moscow".to_string());
    let vladimir = g.get_vertex_id(&"Vladimir".to_string());
    assert_eq!(g.get_edge_value(moscow, vladimir), Ok(&"180".to_string()));
}

#[test]
fn round_trip_keeps_the_graph() {
    let g = city_graph();
    let g2 = Graph::from_tgf(&g.to_tgf()).unwrap();
    assert_eq!(g.to_tgf(), g2.to_tgf());
    assert_eq!(g.vertices().unwrap(), g2.vertices().unwrap());
    assert_eq!(g.edges().unwrap(), g2.edges().unwrap());
}

#[test]
fn round_trip_without_trailing_newline_in_source() {
    let s = "1 First node\n2 Second node\n#\n1 2 Edge between the two\n";
    let g = Graph::from_tgf(s).unwrap();
    assert_eq!(g.to_tgf(), s.to_string());
    let first = g.get_vertex_id(&"First node".to_string());
    let second = g.get_vertex_id(&"Second node".to_string());
    let e = g.get_edge(first, second).unwrap();
    assert_eq!(e.label, "Edge between the two".to_string());
}

#[test]
fn parse_empty_document() {
    let g = Graph::from_tgf("").unwrap();
    assert_eq!(g.vertices_count(), 0);
    assert_eq!(g.edges_count(), 0);
}

#[test]
fn parse_reports_non_integer_index_with_line() {
    let s = "1 Moscow\nabc Vladimir\n";
    assert!(matches!(Graph::from_tgf(s), Err(ParseGraphError::ParseInt(2))));
}

#[test]
fn parse_reports_undefined_edge_endpoint_with_line() {
    let s = "1 A\n2 B\n#\n1 2 x\n1 7 y\n";
    assert!(matches!(
        Graph::from_tgf(s),
        Err(ParseGraphError::VerticesNotDefined(1, 7, 5))
    ));
}

#[test]
fn parse_reports_malformed_vertex_line() {
    let s = "\n1 A\n";
    assert!(matches!(Graph::from_tgf(s), Err(ParseGraphError::VertexDefinition(1))));
}

#[test]
fn parse_reports_malformed_edge_line() {
    let s = "1 A\n#\n1\n";
    assert!(matches!(Graph::from_tgf(s), Err(ParseGraphError::EdgeDefinition(3))));
}

#[test]
fn parse_reports_blank_line_in_edge_section() {
    let s = "1 A\n#\n\n";
    assert!(matches!(Graph::from_tgf(s), Err(ParseGraphError::EdgeDefinition(3))));
}

#[test]
fn parse_reports_reused_index() {
    let s = "1 A\n1 B\n";
    assert!(matches!(
        Graph::from_tgf(s),
        Err(ParseGraphError::VertexAlreadyDefined(1, 2))
    ));
}

#[test]
fn parse_reports_duplicate_content_as_graph_error() {
    let s = "1 A\n2 A\n";
    assert!(matches!(
        Graph::from_tgf(s),
        Err(ParseGraphError::GraphError(
            GraphOperationError::VertexAlreadyExists,
            2
        ))
    ));
}

#[test]
fn later_separator_lines_are_skipped() {
    let s = "1 A\n2 B\n#\n1 2 x\n#\n2 1 y\n";
    let g = Graph::from_tgf(s).unwrap();
    assert_eq!(g.vertices_count(), 2);
    assert_eq!(g.edges_count(), 2);
}

#[test]
fn vertex_line_without_label_gets_empty_label() {
    let g = Graph::from_tgf("1\n").unwrap();
    let id = g.get_vertex_id(&"".to_string());
    assert_eq!(g.get_vertex(id), Ok(&"".to_string()));
}

#[test]
fn crlf_lines_are_accepted() {
    let s = "1 A\r\n2 B\r\n#\r\n1 2 x\r\n";
    let g = Graph::from_tgf(s).unwrap();
    assert_eq!(g.vertices_count(), 2);
    assert_eq!(g.edges_count(), 1);
    let a = g.get_vertex_id(&"A".to_string());
    let b = g.get_vertex_id(&"B".to_string());
    assert_eq!(g.get_edge_value(a, b), Ok(&"x".to_string()));
}

#[test]
fn parse_index_accepts_plain_and_signed_forms() {
    assert_eq!(simple_graph::parse_index("12", 1), Ok(12));
    assert_eq!(simple_graph::parse_index("+5", 1), Ok(5));
    assert_eq!(simple_graph::parse_index("0", 1), Ok(0));
    assert_eq!(
        simple_graph::parse_index("abc", 3),
        Err(ParseGraphError::ParseInt(3))
    );
    assert_eq!(
        simple_graph::parse_index("", 4),
        Err(ParseGraphError::ParseInt(4))
    );
    assert_eq!(
        simple_graph::parse_index("+", 5),
        Err(ParseGraphError::ParseInt(5))
    );
    assert_eq!(
        simple_graph::parse_index("99999999999999999999999999", 6),
        Err(ParseGraphError::ParseInt(6))
    );
}

#[test]
fn parse_label_keeps_the_text() {
    assert_eq!(
        simple_graph::parse_label("two words", 1),
        Ok("two words".to_string())
    );
    assert_eq!(simple_graph::parse_label("", 1), Ok("".to_string()));
}
