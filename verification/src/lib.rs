//! A directed, labeled multigraph with content-addressed vertex identity,
//! breadth-first and depth-first traversal over one shared engine, and a
//! round-trip text serialization in the Trivial Graph Format.

mod error;
mod graph;
mod ident;
mod text;
mod tgf;
mod traverse;

pub use error::{GraphOperationError, ParseGraphError};
pub use graph::{
    add_edge_model, edges_model, edges_of, graph_wf, has_id, label_of, lemma_no_dangling_edges,
    remove_edge_model, remove_vertex_model, row_index, total_edges, vertices_model, Edge, EdgeV,
    Graph, RowV, VertexId, VertexInfo,
};
pub use ident::{fnv_hash, hash_str, lemma_identity_deterministic};
pub use text::{dec_digits, parse_index, parse_label, spec_lines};
pub use tgf::{
    clean_labels, lemma_edge_line_round_trip, lemma_render_tgf_lines, lemma_vertex_line_round_trip,
    parse_tgf_spec, render_tgf, tgf_clean_label,
};
pub use traverse::{
    bfs_order, dfs_order, ids_set, infos_of, is_path, lemma_traversal_visits_reachable_once,
    parse_algorithm, reachable, search_rec, step_frontier, AlgorithmType,
};
