use vstd::prelude::*;

use crate::error::GraphOperationError;
use crate::ident::fnv_hash;
use crate::ident::hash_str;

verus! {

/// The content-derived stable handle of a vertex: the FNV-1a hash of the
/// vertex's label. Identity is derived, never assigned.
#[derive(Debug, Clone, Copy, PartialEq, Eq, Hash, Structural)]
pub struct VertexId(pub u64);

impl View for VertexId {
    type V = u64;

    open spec fn view(&self) -> u64 {
        self.0
    }
}

/// A directed labeled edge: a (from, to, label) triple kept in the
/// outgoing-edge list of its `from` vertex.
#[derive(Debug)]
pub struct Edge {
    pub from: VertexId,
    pub to: VertexId,
    pub label: String,
}

/// The mathematical value of an [`Edge`].
#[verifier::ext_equal]
pub ghost struct EdgeV {
    pub from: u64,
    pub to: u64,
    pub label: Seq<char>,
}

impl View for Edge {
    type V = EdgeV;

    open spec fn view(&self) -> EdgeV {
        EdgeV { from: self.from@, to: self.to@, label: self.label@ }
    }
}

impl Clone for Edge {
    fn clone(&self) -> (r: Edge)
        ensures
            r@ == self@,
    {
        Edge { from: self.from, to: self.to, label: self.label.clone() }
    }
}

/// One vertex of the store: its id, its value, and its outgoing edges in
/// insertion order.
pub struct VertexRow {
    pub id: VertexId,
    pub label: String,
    pub edges: Vec<Edge>,
}

/// The mathematical value of one vertex row.
#[verifier::ext_equal]
pub ghost struct RowV {
    pub id: u64,
    pub label: Seq<char>,
    pub edges: Seq<EdgeV>,
}

impl View for VertexRow {
    type V = RowV;

    open spec fn view(&self) -> RowV {
        RowV { id: self.id@, label: self.label@, edges: self.edges.deep_view() }
    }
}

impl DeepView for Edge {
    type V = EdgeV;

    open spec fn deep_view(&self) -> EdgeV {
        self@
    }
}

/// The value of one vertex paired with its resolved outgoing neighbors:
/// each neighbor as (destination value, edge value).
pub type VertexInfo = (String, Vec<(String, String)>);

/// One flattened edge: (from value, to value, edge value).
pub type EdgeListing = (String, String, String);

/// A directed, labeled multigraph with content-addressed vertex identity.
/// Vertices and each vertex's outgoing edges keep insertion order; both
/// behave as sets (no repeated vertex id, no repeated edge triple).
pub struct Graph {
    pub rows: Vec<VertexRow>,
}

/// The mathematical value of a whole row list.
pub open spec fn rows_view(rs: Seq<VertexRow>) -> Seq<RowV> {
    Seq::new(rs.len(), |i: int| rs[i]@)
}

impl View for Graph {
    type V = Seq<RowV>;

    open spec fn view(&self) -> Seq<RowV> {
        rows_view(self.rows@)
    }
}

/// Whether some row carries the given vertex id.
pub open spec fn has_id(rows: Seq<RowV>, id: u64) -> bool {
    exists|i: int| 0 <= i < rows.len() && (#[trigger] rows[i]).id == id
}

/// The position of the first row with the given id; `rows.len()` when none.
pub open spec fn row_index(rows: Seq<RowV>, id: u64) -> int
    decreases rows.len(),
{
    if rows.len() == 0 {
        0
    } else if rows[0].id == id {
        0
    } else {
        1 + row_index(rows.drop_first(), id)
    }
}

pub proof fn lemma_row_index(rows: Seq<RowV>, id: u64)
    ensures
        0 <= row_index(rows, id) <= rows.len(),
        has_id(rows, id) <==> row_index(rows, id) < rows.len(),
        row_index(rows, id) < rows.len() ==> rows[row_index(rows, id)].id == id,
        forall|j: int| 0 <= j < row_index(rows, id) ==> (#[trigger] rows[j]).id != id,
    decreases rows.len(),
{
    if rows.len() == 0 {
    } else if rows[0].id == id {
    } else {
        lemma_row_index(rows.drop_first(), id);
        let sub = rows.drop_first();
        assert forall|i: int| 0 <= i < rows.len() && (#[trigger] rows[i]).id == id implies
            row_index(rows, id) < rows.len() by {
            assert(sub[i - 1] == rows[i]);
        }
        if has_id(sub, id) {
            let i = choose|i: int| 0 <= i < sub.len() && (#[trigger] sub[i]).id == id;
            assert(rows[i + 1] == sub[i]);
        }
        assert forall|j: int| 0 <= j < row_index(rows, id) implies (#[trigger] rows[j]).id
            != id by {
            if j > 0 {
                assert(sub[j - 1] == rows[j]);
            }
        }
    }
}

/// The label of the vertex with the given id.
pub open spec fn label_of(rows: Seq<RowV>, id: u64) -> Seq<char> {
    rows[row_index(rows, id)].label
}

/// The outgoing edges of the vertex with the given id, in insertion order.
pub open spec fn edges_of(rows: Seq<RowV>, id: u64) -> Seq<EdgeV> {
    rows[row_index(rows, id)].edges
}

/// Well-formedness of one row's outgoing-edge list with respect to the
/// whole store: edges start at their owner, end at an existing vertex,
/// and no (from, to, label) triple repeats.
pub open spec fn edge_list_wf(rows: Seq<RowV>, row: RowV) -> bool {
    &&& forall|k: int| 0 <= k < row.edges.len() ==> (#[trigger] row.edges[k]).from == row.id
        && has_id(rows, row.edges[k].to)
    &&& forall|k: int, l: int| 0 <= k < l < row.edges.len() ==> !((#[trigger] row.edges[k]).to
        == (#[trigger] row.edges[l]).to && row.edges[k].label == row.edges[l].label)
}

/// The store's invariant: vertex ids are unique, each id is derived from
/// its label, and every edge list is well formed (no dangling endpoint).
pub open spec fn graph_wf(rows: Seq<RowV>) -> bool {
    &&& forall|i: int, j: int| 0 <= i < j < rows.len() ==> (#[trigger] rows[i]).id != (
    #[trigger] rows[j]).id
    &&& forall|i: int| 0 <= i < rows.len() ==> (#[trigger] rows[i]).id == fnv_hash(rows[i].label)
    &&& forall|i: int| 0 <= i < rows.len() ==> edge_list_wf(rows, #[trigger] rows[i])
}

/// No edge dangles in a well-formed store: both endpoints of any edge of
/// any row resolve to vertices of the store.
pub proof fn lemma_no_dangling_edges(rows: Seq<RowV>, i: int, k: int)
    requires
        graph_wf(rows),
        0 <= i < rows.len(),
        0 <= k < rows[i].edges.len(),
    ensures
        has_id(rows, rows[i].edges[k].from),
        has_id(rows, rows[i].edges[k].to),
{
    assert(rows[i].edges[k].from == rows[i].id);
}

impl Graph {
    /// The store's invariant, as a predicate on the whole graph.
    pub open spec fn wf(&self) -> bool {
        graph_wf(self@)
    }

    /// Creates an empty graph.
    pub fn new() -> (g: Graph)
        ensures
            g@ == Seq::<RowV>::empty(),
            g.wf(),
    {
        Graph { rows: Vec::new() }
    }

    /// Derives the [`VertexId`] of a vertex value: the stable hash of its
    /// content. Pure and deterministic; never fails.
    pub fn get_vertex_id(&self, vertex: &String) -> (id: VertexId)
        ensures
            id@ == fnv_hash(vertex@),
    {
        VertexId(hash_str(vertex.as_str()))
    }

    /// Finds the position of the row holding `id`, if any.
    pub(crate) fn find_row(&self, id: VertexId) -> (r: Option<usize>)
        ensures
            match r {
                Some(i) => i == row_index(self@, id@) && i < self@.len() && self@[i as int].id
                    == id@,
                None => !has_id(self@, id@),
            },
    {
        proof {
            lemma_row_index(self@, id@);
        }
        let n = self.rows.len();
        let mut i: usize = 0;
        while i < n
            invariant
                i <= n,
                n == self@.len(),
                forall|j: int| 0 <= j < i ==> (#[trigger] self@[j]).id != id@,
            decreases n - i,
        {
            if self.rows[i].id == id {
                proof {
                    lemma_row_index_found(self@, id@, i as int);
                }
                return Some(i);
            }
            i = i + 1;
        }
        None
    }

    /// Number of vertices in the graph.
    pub fn vertices_count(&self) -> (n: usize)
        ensures
            n == self@.len(),
    {
        self.rows.len()
    }

    /// Adds a vertex holding `vertex`, deriving its id from the content.
    /// Fails with [`GraphOperationError::VertexAlreadyExists`], changing
    /// nothing, when that id is already present.
    pub fn add_vertex(&mut self, vertex: String) -> (r: Result<VertexId, GraphOperationError>)
        requires
            old(self).wf(),
        ensures
            final(self).wf(),
            match r {
                Ok(id) => {
                    &&& id@ == fnv_hash(vertex@)
                    &&& !has_id(old(self)@, id@)
                    &&& final(self)@ == old(self)@.push(
                        (RowV { id: id@, label: vertex@, edges: Seq::empty() }),
                    )
                },
                Err(e) => {
                    &&& e == GraphOperationError::VertexAlreadyExists
                    &&& has_id(old(self)@, fnv_hash(vertex@))
                    &&& final(self)@ == old(self)@
                },
            },
    {
        let id = self.get_vertex_id(&vertex);
        if self.find_row(id).is_some() {
            return Err(GraphOperationError::VertexAlreadyExists);
        }
        let ghost old_view = self@;
        let ghost vertex_view = vertex@;
        self.rows.push(VertexRow { id, label: vertex, edges: Vec::new() });
        proof {
            assert(self@ =~~= old_view.push(
                RowV { id: id@, label: vertex_view, edges: Seq::empty() },
            ));
            lemma_wf_push(old_view, id@, vertex_view);
        }
        Ok(id)
    }

    /// Looks a vertex's value up by id; fails with
    /// [`GraphOperationError::VertexDoesNotExist`] when the id is absent.
    pub fn get_vertex(&self, vertex: VertexId) -> (r: Result<&String, GraphOperationError>)
        ensures
            match r {
                Ok(v) => has_id(self@, vertex@) && v@ == label_of(self@, vertex@),
                Err(e) => e == GraphOperationError::VertexDoesNotExist && !has_id(self@, vertex@),
            },
    {
        match self.find_row(vertex) {
            Some(i) => Ok(&self.rows[i].label),
            None => Err(GraphOperationError::VertexDoesNotExist),
        }
    }

    /// Adds the edge `(from, to, edge)` to `from`'s outgoing list. Fails
    /// with [`GraphOperationError::VertexDoesNotExist`], changing nothing,
    /// unless both endpoints exist. Adding an identical triple again is
    /// accepted and changes nothing (set semantics).
    pub fn add_edge(&mut self, from: VertexId, to: VertexId, edge: String) -> (r: Result<
        (),
        GraphOperationError,
    >)
        requires
            old(self).wf(),
        ensures
            final(self).wf(),
            match r {
                Ok(()) => {
                    &&& has_id(old(self)@, from@)
                    &&& has_id(old(self)@, to@)
                    &&& final(self)@ == add_edge_model(old(self)@, from@, to@, edge@)
                },
                Err(e) => {
                    &&& e == GraphOperationError::VertexDoesNotExist
                    &&& !(has_id(old(self)@, from@) && has_id(old(self)@, to@))
                    &&& final(self)@ == old(self)@
                },
            },
    {
        if self.find_row(to).is_none() {
            return Err(GraphOperationError::VertexDoesNotExist);
        }
        match self.find_row(from) {
            None => Err(GraphOperationError::VertexDoesNotExist),
            Some(i) => {
                let ghost old_view = self@;
                let row_ref = &self.rows[i];
                if edge_triple_present(&row_ref.edges, to, &edge) {
                    proof {
                        assert(final(self)@ =~~= add_edge_model(old_view, from@, to@, edge@));
                    }
                    return Ok(());
                }
                let mut new_edges = clone_edges(&row_ref.edges);
                let ghost edge_view = edge@;
                new_edges.push(Edge { from, to, label: edge });
                let new_row = VertexRow {
                    id: row_ref.id,
                    label: row_ref.label.clone(),
                    edges: new_edges,
                };
                self.rows.set(i, new_row);
                proof {
                    let row = old_view[i as int];
                    assert(self@ =~~= old_view.update(
                        i as int,
                        RowV {
                            id: row.id,
                            label: row.label,
                            edges: row.edges.push(EdgeV { from: from@, to: to@, label: edge_view }),
                        },
                    ));
                    assert(self@ =~~= add_edge_model(old_view, from@, to@, edge_view));
                    lemma_add_edge_wf(old_view, from@, to@, edge_view);
                }
                Ok(())
            },
        }
    }

    /// Looks up the first edge from `from` to `to`, in edge-insertion
    /// order. Fails with [`GraphOperationError::EdgeDoesNotExist`] when
    /// `from` is absent or no such edge exists.
    pub fn get_edge(&self, from: VertexId, to: VertexId) -> (r: Result<&Edge, GraphOperationError>)
        ensures
            match r {
                Ok(e) => {
                    &&& has_id(self@, from@)
                    &&& has_edge_to(edges_of(self@, from@), to@)
                    &&& e@ == first_edge_to(edges_of(self@, from@), to@)
                },
                Err(err) => {
                    &&& err == GraphOperationError::EdgeDoesNotExist
                    &&& !(has_id(self@, from@) && has_edge_to(edges_of(self@, from@), to@))
                },
            },
    {
        match self.find_row(from) {
            None => Err(GraphOperationError::EdgeDoesNotExist),
            Some(i) => {
                proof {
                    assert(self@[i as int].edges == self.rows@[i as int]@.edges);
                }
                match find_edge_to(&self.rows[i].edges, to) {
                    None => Err(GraphOperationError::EdgeDoesNotExist),
                    Some(k) => Ok(&self.rows[i].edges[k]),
                }
            },
        }
    }

    /// Looks up the value of the first edge from `from` to `to`. Fails
    /// with [`GraphOperationError::EdgeDoesNotExist`] when `from` is
    /// absent or no such edge exists.
    pub fn get_edge_value(&self, from: VertexId, to: VertexId) -> (r: Result<
        &String,
        GraphOperationError,
    >)
        ensures
            match r {
                Ok(v) => {
                    &&& has_id(self@, from@)
                    &&& has_edge_to(edges_of(self@, from@), to@)
                    &&& v@ == first_edge_to(edges_of(self@, from@), to@).label
                },
                Err(err) => {
                    &&& err == GraphOperationError::EdgeDoesNotExist
                    &&& !(has_id(self@, from@) && has_edge_to(edges_of(self@, from@), to@))
                },
            },
    {
        match self.get_edge(from, to) {
            Ok(e) => Ok(&e.label),
            Err(err) => Err(err),
        }
    }

    /// Removes the first edge from `from` to `to`. Fails with
    /// [`GraphOperationError::EdgeDoesNotExist`], changing nothing, when
    /// `from` is absent or no such edge exists.
    pub fn remove_edge(&mut self, from: VertexId, to: VertexId) -> (r: Result<
        (),
        GraphOperationError,
    >)
        requires
            old(self).wf(),
        ensures
            final(self).wf(),
            match r {
                Ok(()) => {
                    &&& has_id(old(self)@, from@)
                    &&& has_edge_to(edges_of(old(self)@, from@), to@)
                    &&& final(self)@ == remove_edge_model(old(self)@, from@, to@)
                },
                Err(err) => {
                    &&& err == GraphOperationError::EdgeDoesNotExist
                    &&& !(has_id(old(self)@, from@) && has_edge_to(
                        edges_of(old(self)@, from@),
                        to@,
                    ))
                    &&& final(self)@ == old(self)@
                },
            },
    {
        match self.find_row(from) {
            None => Err(GraphOperationError::EdgeDoesNotExist),
            Some(i) => {
                let ghost old_view = self@;
                proof {
                    assert(self@[i as int].edges == self.rows@[i as int]@.edges);
                }
                match find_edge_to(&self.rows[i].edges, to) {
                    None => Err(GraphOperationError::EdgeDoesNotExist),
                    Some(k) => {
                        let row_ref = &self.rows[i];
                        let mut new_edges = clone_edges(&row_ref.edges);
                        new_edges.remove(k);
                        let new_row = VertexRow {
                            id: row_ref.id,
                            label: row_ref.label.clone(),
                            edges: new_edges,
                        };
                        self.rows.set(i, new_row);
                        proof {
                            let row = old_view[i as int];
                            assert(self@ =~~= old_view.update(
                                i as int,
                                RowV {
                                    id: row.id,
                                    label: row.label,
                                    edges: row.edges.remove(k as int),
                                },
                            ));
                            assert(self@ =~~= remove_edge_model(old_view, from@, to@));
                            lemma_remove_edge_wf(old_view, from@, to@);
                        }
                        Ok(())
                    },
                }
            },
        }
    }

    /// Removes a vertex by id, dropping its own outgoing edges and every
    /// edge of other vertices ending at it. Fails with
    /// [`GraphOperationError::VertexDoesNotExist`], changing nothing, when
    /// the id is absent.
    pub fn remove_vertex(&mut self, target_vertex: VertexId) -> (r: Result<
        (),
        GraphOperationError,
    >)
        requires
            old(self).wf(),
        ensures
            final(self).wf(),
            match r {
                Ok(()) => {
                    &&& has_id(old(self)@, target_vertex@)
                    &&& final(self)@ == remove_vertex_model(old(self)@, target_vertex@)
                },
                Err(e) => {
                    &&& e == GraphOperationError::VertexDoesNotExist
                    &&& !has_id(old(self)@, target_vertex@)
                    &&& final(self)@ == old(self)@
                },
            },
    {
        if self.find_row(target_vertex).is_none() {
            return Err(GraphOperationError::VertexDoesNotExist);
        }
        let ghost old_view = self@;
        let n = self.rows.len();
        let mut new_rows: Vec<VertexRow> = Vec::new();
        let mut i: usize = 0;
        while i < n
            invariant
                i <= n,
                n == old_view.len(),
                self@ == old_view,
                rows_view(new_rows@) =~~= remove_vertex_model(
                    old_view.subrange(0, i as int),
                    target_vertex@,
                ),
            decreases n - i,
        {
            proof {
                assert(old_view.subrange(0, i + 1).drop_last() =~= old_view.subrange(0, i as int));
                assert(old_view.subrange(0, i + 1).last() == old_view[i as int]);
                assert(old_view[i as int] == self.rows@[i as int]@);
            }
            let ghost prev_rows = rows_view(new_rows@);
            let row_ref = &self.rows[i];
            if row_ref.id == target_vertex {
            } else {
                let stripped = strip_edges_exec(&row_ref.edges, target_vertex);
                let new_row = VertexRow {
                    id: row_ref.id,
                    label: row_ref.label.clone(),
                    edges: stripped,
                };
                new_rows.push(new_row);
                proof {
                    let rv = old_view[i as int];
                    assert(rows_view(new_rows@) =~~= prev_rows.push(
                        RowV {
                            id: rv.id,
                            label: rv.label,
                            edges: strip_edges(rv.edges, target_vertex@),
                        },
                    ));
                }
            }
            i = i + 1;
        }
        proof {
            assert(old_view.subrange(0, n as int) =~= old_view);
        }
        self.rows = new_rows;
        proof {
            lemma_remove_vertex_wf(old_view, target_vertex@);
        }
        Ok(())
    }

    /// Number of edges in the graph: the sum of the outgoing-edge list
    /// lengths, in bounded time proportional to the vertex count.
    pub fn edges_count(&self) -> (n: usize)
        requires
            total_edges(self@) <= usize::MAX,
        ensures
            n == total_edges(self@),
    {
        let rows_n = self.rows.len();
        let mut count: usize = 0;
        let mut i: usize = 0;
        while i < rows_n
            invariant
                i <= rows_n,
                rows_n == self@.len(),
                total_edges(self@) <= usize::MAX,
                count == total_edges(self@.subrange(0, i as int)),
            decreases rows_n - i,
        {
            proof {
                assert(self@.subrange(0, i + 1).drop_last() =~= self@.subrange(0, i as int));
                assert(self@.subrange(0, i + 1).last() == self@[i as int]);
                lemma_total_edges_prefix(self@, i + 1);
                assert(self@[i as int].edges == self.rows@[i as int]@.edges);
            }
            count = count + self.rows[i].edges.len();
            i = i + 1;
        }
        proof {
            assert(self@.subrange(0, rows_n as int) =~= self@);
        }
        count
    }
}

/// Whether the list holds an edge with this destination and label.
fn edge_triple_present(edges: &Vec<Edge>, to: VertexId, label: &String) -> (r: bool)
    ensures
        r == has_edge_triple(edges.deep_view(), to@, label@),
{
    let n = edges.len();
    let mut k: usize = 0;
    while k < n
        invariant
            k <= n,
            n == edges.deep_view().len(),
            forall|j: int| 0 <= j < k ==> !((#[trigger] edges.deep_view()[j]).to == to@
                && edges.deep_view()[j].label == label@),
        decreases n - k,
    {
        if edges[k].to == to && edges[k].label.eq(label) {
            assert(edges.deep_view()[k as int].to == to@);
            return true;
        }
        k = k + 1;
    }
    false
}

impl Graph {
    /// The value of one vertex together with its resolved outgoing
    /// neighbors, each as (destination value, edge value), in
    /// edge-insertion order. Fails with
    /// [`GraphOperationError::VertexDoesNotExist`] when the id is absent.
    pub fn get_vertex_info(&self, vertex_id: VertexId) -> (r: Result<VertexInfo, GraphOperationError>)
        requires
            self.wf(),
        ensures
            match r {
                Ok(info) => {
                    &&& has_id(self@, vertex_id@)
                    &&& info.0@ == label_of(self@, vertex_id@)
                    &&& info.1.deep_view() == neighbor_view(self@, edges_of(self@, vertex_id@))
                },
                Err(e) => {
                    &&& e == GraphOperationError::VertexDoesNotExist
                    &&& !has_id(self@, vertex_id@)
                },
            },
    {
        let i = match self.find_row(vertex_id) {
            None => {
                return Err(GraphOperationError::VertexDoesNotExist);
            },
            Some(i) => i,
        };
        proof {
            assert(self@[i as int].edges == self.rows@[i as int]@.edges);
        }
        let ghost eds = edges_of(self@, vertex_id@);
        let row_ref = &self.rows[i];
        let label = row_ref.label.clone();
        let m = row_ref.edges.len();
        let mut adj: Vec<(String, String)> = Vec::new();
        let mut k: usize = 0;
        while k < m
            invariant
                self.wf(),
                k <= m,
                i < self@.len(),
                row_ref == &self.rows[i as int],
                eds == self@[i as int].edges,
                eds == row_ref.edges.deep_view(),
                m == eds.len(),
                adj.deep_view() =~~= neighbor_view(self@, eds.subrange(0, k as int)),
            decreases m - k,
        {
            let e_to = row_ref.edges[k].to;
            proof {
                assert(eds[k as int].to == e_to@);
                assert(edge_list_wf(self@, self@[i as int]));
            }
            let to_label = match self.get_vertex(e_to) {
                Ok(v) => v.clone(),
                Err(err) => {
                    proof {
                        assert(has_id(self@, eds[k as int].to));
                        assert(false);
                    }
                    return Err(err);
                },
            };
            let ghost prev = adj.deep_view();
            let e_label = row_ref.edges[k].label.clone();
            adj.push((to_label, e_label));
            proof {
                assert(adj.deep_view() =~= prev.push((to_label@, e_label@)));
                assert(eds.subrange(0, k + 1).drop_last() =~= eds.subrange(0, k as int));
                assert(eds.subrange(0, k + 1).last() == eds[k as int]);
            }
            k = k + 1;
        }
        proof {
            assert(eds.subrange(0, m as int) =~= eds);
        }
        Ok((label, adj))
    }

    /// Every vertex of the graph, in insertion order, each paired with
    /// its resolved outgoing neighbors in edge-insertion order. On a well
    /// formed store this always succeeds.
    pub fn vertices(&self) -> (r: Result<Vec<VertexInfo>, GraphOperationError>)
        requires
            self.wf(),
        ensures
            r is Ok,
            r matches Ok(out) ==> out.deep_view() == vertices_model(self@),
    {
        let n = self.rows.len();
        let mut out: Vec<VertexInfo> = Vec::new();
        let mut i: usize = 0;
        while i < n
            invariant
                self.wf(),
                i <= n,
                n == self@.len(),
                out.deep_view() =~~= vertices_model(self@).subrange(0, i as int),
            decreases n - i,
        {
            let id = self.rows[i].id;
            proof {
                assert(self@[i as int].id == id@);
                lemma_row_index_found(self@, id@, i as int);
            }
            let info = match self.get_vertex_info(id) {
                Ok(info) => info,
                Err(err) => {
                    proof {
                        assert(has_id(self@, id@));
                        assert(false);
                    }
                    return Err(err);
                },
            };
            let ghost prev = out.deep_view();
            out.push(info);
            proof {
                assert(out.deep_view() =~= prev.push((info.0@, info.1.deep_view())));
                assert(vertices_model(self@)[i as int] == (
                    self@[i as int].label,
                    neighbor_view(self@, self@[i as int].edges),
                ));
            }
            i = i + 1;
        }
        proof {
            assert(vertices_model(self@).subrange(0, n as int) =~= vertices_model(self@));
        }
        Ok(out)
    }

    /// Every edge of the graph as (from value, to value, edge value), in
    /// vertex-then-edge insertion order. On a well formed store this
    /// always succeeds.
    pub fn edges(&self) -> (r: Result<Vec<EdgeListing>, GraphOperationError>)
        requires
            self.wf(),
        ensures
            r is Ok,
            r matches Ok(out) ==> out.deep_view() == edges_model(self@),
    {
        let n = self.rows.len();
        let mut out: Vec<EdgeListing> = Vec::new();
        let mut i: usize = 0;
        while i < n
            invariant
                self.wf(),
                i <= n,
                n == self@.len(),
                out.deep_view() =~~= edges_listing(self@, self@.subrange(0, i as int)),
            decreases n - i,
        {
            let row_ref = &self.rows[i];
            let m = row_ref.edges.len();
            let ghost eds = self@[i as int].edges;
            proof {
                assert(eds == row_ref.edges.deep_view());
                assert(self@.subrange(0, i + 1).drop_last() =~= self@.subrange(0, i as int));
                assert(self@.subrange(0, i + 1).last() == self@[i as int]);
            }
            let mut k: usize = 0;
            while k < m
                invariant
                    self.wf(),
                    k <= m,
                    i < self@.len(),
                    row_ref == &self.rows[i as int],
                    eds == self@[i as int].edges,
                    eds == row_ref.edges.deep_view(),
                    m == eds.len(),
                    out.deep_view() =~~= edges_listing(self@, self@.subrange(0, i as int))
                        + row_edges_listing(self@, eds.subrange(0, k as int)),
                decreases m - k,
            {
                let e_from = row_ref.edges[k].from;
                let e_to = row_ref.edges[k].to;
                proof {
                    assert(eds[k as int].from == e_from@);
                    assert(eds[k as int].to == e_to@);
                    assert(edge_list_wf(self@, self@[i as int]));
                }
                let from_label = match self.get_vertex(e_from) {
                    Ok(v) => v.clone(),
                    Err(err) => {
                        proof {
                            assert(has_id(self@, eds[k as int].from));
                            assert(false);
                        }
                        return Err(err);
                    },
                };
                let to_label = match self.get_vertex(e_to) {
                    Ok(v) => v.clone(),
                    Err(err) => {
                        proof {
                            assert(has_id(self@, eds[k as int].to));
                            assert(false);
                        }
                        return Err(err);
                    },
                };
                let ghost prev = out.deep_view();
                let e_label = row_ref.edges[k].label.clone();
                out.push((from_label, to_label, e_label));
                proof {
                    assert(out.deep_view() =~= prev.push((from_label@, to_label@, e_label@)));
                    assert(eds.subrange(0, k + 1).drop_last() =~= eds.subrange(0, k as int));
                    assert(eds.subrange(0, k + 1).last() == eds[k as int]);
                }
                k = k + 1;
            }
            proof {
                assert(eds.subrange(0, m as int) =~= eds);
            }
            i = i + 1;
        }
        proof {
            assert(self@.subrange(0, n as int) =~= self@);
        }
        Ok(out)
    }
}

/// Copies an edge list, dropping every edge that ends at `id`.
fn strip_edges_exec(edges: &Vec<Edge>, id: VertexId) -> (r: Vec<Edge>)
    ensures
        r.deep_view() == strip_edges(edges.deep_view(), id@),
{
    let n = edges.len();
    let mut r: Vec<Edge> = Vec::new();
    let mut k: usize = 0;
    while k < n
        invariant
            k <= n,
            n == edges.deep_view().len(),
            r.deep_view() =~~= strip_edges(edges.deep_view().subrange(0, k as int), id@),
        decreases n - k,
    {
        proof {
            assert(edges.deep_view().subrange(0, k + 1).drop_last() =~= edges.deep_view().subrange(
                0,
                k as int,
            ));
            assert(edges.deep_view().subrange(0, k + 1).last() == edges.deep_view()[k as int]);
        }
        let ghost prev = r.deep_view();
        if edges[k].to == id {
            proof {
                assert(edges.deep_view()[k as int].to == id@);
            }
        } else {
            let c = edges[k].clone();
            r.push(c);
            proof {
                assert(c.deep_view() == edges.deep_view()[k as int]);
                assert(r.deep_view() =~= prev.push(c.deep_view()));
            }
        }
        k = k + 1;
    }
    proof {
        assert(edges.deep_view().subrange(0, n as int) =~= edges.deep_view());
    }
    r
}

/// Copies an edge list, value for value.
fn clone_edges(edges: &Vec<Edge>) -> (r: Vec<Edge>)
    ensures
        r.deep_view() == edges.deep_view(),
{
    let n = edges.len();
    let mut r: Vec<Edge> = Vec::new();
    let mut k: usize = 0;
    while k < n
        invariant
            k <= n,
            n == edges.deep_view().len(),
            r.deep_view() =~~= edges.deep_view().subrange(0, k as int),
        decreases n - k,
    {
        let ghost prev = r.deep_view();
        let c = edges[k].clone();
        r.push(c);
        proof {
            assert(c.deep_view() == edges.deep_view()[k as int]);
            assert(r.deep_view() =~= prev.push(c.deep_view()));
            assert(prev.push(c.deep_view()) =~= edges.deep_view().subrange(0, k + 1));
        }
        k = k + 1;
    }
    proof {
        assert(edges.deep_view().subrange(0, n as int) =~= edges.deep_view());
    }
    r
}

/// Whether some edge of the list ends at `to`.
pub open spec fn has_edge_to(edges: Seq<EdgeV>, to: u64) -> bool {
    exists|k: int| 0 <= k < edges.len() && (#[trigger] edges[k]).to == to
}

/// The position of the first edge ending at `to`; `edges.len()` when none.
pub open spec fn edge_index(edges: Seq<EdgeV>, to: u64) -> int
    decreases edges.len(),
{
    if edges.len() == 0 {
        0
    } else if edges[0].to == to {
        0
    } else {
        1 + edge_index(edges.drop_first(), to)
    }
}

pub proof fn lemma_edge_index(edges: Seq<EdgeV>, to: u64)
    ensures
        0 <= edge_index(edges, to) <= edges.len(),
        has_edge_to(edges, to) <==> edge_index(edges, to) < edges.len(),
        edge_index(edges, to) < edges.len() ==> edges[edge_index(edges, to)].to == to,
        forall|j: int| 0 <= j < edge_index(edges, to) ==> (#[trigger] edges[j]).to != to,
    decreases edges.len(),
{
    if edges.len() == 0 {
    } else if edges[0].to == to {
    } else {
        lemma_edge_index(edges.drop_first(), to);
        let sub = edges.drop_first();
        assert forall|k: int| 0 <= k < edges.len() && (#[trigger] edges[k]).to == to implies
            edge_index(edges, to) < edges.len() by {
            assert(sub[k - 1] == edges[k]);
        }
        if has_edge_to(sub, to) {
            let k = choose|k: int| 0 <= k < sub.len() && (#[trigger] sub[k]).to == to;
            assert(edges[k + 1] == sub[k]);
        }
        assert forall|j: int| 0 <= j < edge_index(edges, to) implies (#[trigger] edges[j]).to
            != to by {
            if j > 0 {
                assert(sub[j - 1] == edges[j]);
            }
        }
    }
}

/// The first edge of the list ending at `to`.
pub open spec fn first_edge_to(edges: Seq<EdgeV>, to: u64) -> EdgeV {
    edges[edge_index(edges, to)]
}

/// Whether an edge with this destination and label is already present.
pub open spec fn has_edge_triple(edges: Seq<EdgeV>, to: u64, label: Seq<char>) -> bool {
    exists|k: int| 0 <= k < edges.len() && (#[trigger] edges[k]).to == to && edges[k].label
        == label
}

/// The store after `add_edge(from, to, label)` succeeds: the edge is
/// appended to `from`'s outgoing list unless the identical triple is
/// already there (set semantics).
pub open spec fn add_edge_model(rows: Seq<RowV>, from: u64, to: u64, label: Seq<char>) -> Seq<
    RowV,
> {
    let i = row_index(rows, from);
    let row = rows[i];
    if has_edge_triple(row.edges, to, label) {
        rows
    } else {
        rows.update(
            i,
            RowV { id: row.id, label: row.label, edges: row.edges.push(EdgeV { from, to, label }) },
        )
    }
}

/// Pushing a fresh vertex row keeps the store well formed.
pub proof fn lemma_wf_push(rows: Seq<RowV>, id: u64, label: Seq<char>)
    requires
        graph_wf(rows),
        !has_id(rows, id),
        id == fnv_hash(label),
    ensures
        graph_wf(rows.push(RowV { id, label, edges: Seq::empty() })),
{
    let rows2 = rows.push(RowV { id, label, edges: Seq::empty() });
    assert forall|i: int, j: int| 0 <= i < j < rows2.len() implies (#[trigger] rows2[i]).id != (
    #[trigger] rows2[j]).id by {
        if j == rows.len() {
            assert(rows2[i] == rows[i]);
            if rows[i].id == id {
                assert(has_id(rows, id));
            }
        } else {
            assert(rows2[i] == rows[i]);
            assert(rows2[j] == rows[j]);
        }
    }
    assert forall|i: int| 0 <= i < rows2.len() implies edge_list_wf(rows2, #[trigger] rows2[i]) by {
        if i < rows.len() {
            assert(rows2[i] == rows[i]);
            assert(edge_list_wf(rows, rows[i]));
            assert forall|k: int| 0 <= k < rows2[i].edges.len() implies (#[trigger] rows2[i].edges[k]).from
                == rows2[i].id && has_id(rows2, rows2[i].edges[k].to) by {
                let t = rows[i].edges[k].to;
                assert(has_id(rows, t));
                let w = choose|w: int| 0 <= w < rows.len() && (#[trigger] rows[w]).id == t;
                assert(rows2[w] == rows[w]);
            }
        }
    }
}

/// Appending a fresh edge between existing vertices keeps the store well
/// formed.
pub proof fn lemma_add_edge_wf(rows: Seq<RowV>, from: u64, to: u64, label: Seq<char>)
    requires
        graph_wf(rows),
        has_id(rows, from),
        has_id(rows, to),
    ensures
        graph_wf(add_edge_model(rows, from, to, label)),
{
    lemma_row_index(rows, from);
    let i = row_index(rows, from);
    let row = rows[i];
    if !has_edge_triple(row.edges, to, label) {
        let e = EdgeV { from, to, label };
        let row2 = RowV { id: row.id, label: row.label, edges: row.edges.push(e) };
        let rows2 = rows.update(i, row2);
        assert(rows2.len() == rows.len());
        assert forall|x: u64| has_id(rows, x) implies has_id(rows2, x) by {
            let w = choose|w: int| 0 <= w < rows.len() && (#[trigger] rows[w]).id == x;
            assert(rows2[w].id == x);
        }
        assert forall|n: int| 0 <= n < rows2.len() implies edge_list_wf(rows2, #[trigger] rows2[n]) by {
            if n != i {
                assert(rows2[n] == rows[n]);
                assert(edge_list_wf(rows, rows[n]));
            } else {
                assert(edge_list_wf(rows, row));
                assert forall|k: int| 0 <= k < row2.edges.len() implies (#[trigger] row2.edges[k]).from
                    == row2.id && has_id(rows2, row2.edges[k].to) by {
                    if k < row.edges.len() {
                        assert(row2.edges[k] == row.edges[k]);
                    } else {
                        assert(row2.edges[k] == e);
                        assert(row.id == from);
                    }
                }
                assert forall|k: int, l: int| 0 <= k < l < row2.edges.len() implies !((
                #[trigger] row2.edges[k]).to == (#[trigger] row2.edges[l]).to && row2.edges[k].label
                    == row2.edges[l].label) by {
                    if l < row.edges.len() {
                        assert(row2.edges[k] == row.edges[k]);
                        assert(row2.edges[l] == row.edges[l]);
                    } else {
                        assert(row2.edges[l] == e);
                        assert(row2.edges[k] == row.edges[k]);
                        if row.edges[k].to == to && row.edges[k].label == label {
                            assert(has_edge_triple(row.edges, to, label));
                        }
                    }
                }
            }
        }
    }
}

/// The store after `remove_edge(from, to)` succeeds: the first edge of
/// `from`'s outgoing list ending at `to` is removed.
pub open spec fn remove_edge_model(rows: Seq<RowV>, from: u64, to: u64) -> Seq<RowV> {
    let i = row_index(rows, from);
    let row = rows[i];
    let k = edge_index(row.edges, to);
    rows.update(i, RowV { id: row.id, label: row.label, edges: row.edges.remove(k) })
}

/// Removing one edge keeps the store well formed.
pub proof fn lemma_remove_edge_wf(rows: Seq<RowV>, from: u64, to: u64)
    requires
        graph_wf(rows),
        has_id(rows, from),
        has_edge_to(edges_of(rows, from), to),
    ensures
        graph_wf(remove_edge_model(rows, from, to)),
{
    lemma_row_index(rows, from);
    let i = row_index(rows, from);
    let row = rows[i];
    lemma_edge_index(row.edges, to);
    let k = edge_index(row.edges, to);
    let edges2 = row.edges.remove(k);
    let row2 = RowV { id: row.id, label: row.label, edges: edges2 };
    let rows2 = rows.update(i, row2);
    assert forall|x: u64| has_id(rows, x) implies has_id(rows2, x) by {
        let w = choose|w: int| 0 <= w < rows.len() && (#[trigger] rows[w]).id == x;
        assert(rows2[w].id == x);
    }
    assert forall|n: int| 0 <= n < rows2.len() implies edge_list_wf(rows2, #[trigger] rows2[n]) by {
        let old_row = if n == i { row } else { rows[n] };
        assert(edge_list_wf(rows, old_row));
        let new_edges = rows2[n].edges;
        assert forall|m: int| 0 <= m < new_edges.len() implies (#[trigger] new_edges[m]).from
            == rows2[n].id && has_id(rows2, new_edges[m].to) by {
            let m0 = if n == i && m >= k { m + 1 } else { m };
            assert(new_edges[m] == old_row.edges[m0]);
        }
        assert forall|m: int, l: int| 0 <= m < l < new_edges.len() implies !((
        #[trigger] new_edges[m]).to == (#[trigger] new_edges[l]).to && new_edges[m].label
            == new_edges[l].label) by {
            let m0 = if n == i && m >= k { m + 1 } else { m };
            let l0 = if n == i && l >= k { l + 1 } else { l };
            assert(new_edges[m] == old_row.edges[m0]);
            assert(new_edges[l] == old_row.edges[l0]);
        }
    }
}

/// The total number of edges of the store: the sum of the outgoing-edge
/// list lengths.
pub open spec fn total_edges(rows: Seq<RowV>) -> nat
    decreases rows.len(),
{
    if rows.len() == 0 {
        0
    } else {
        total_edges(rows.drop_last()) + rows.last().edges.len()
    }
}

/// The edge total of a prefix never exceeds the whole store's total.
pub proof fn lemma_total_edges_prefix(rows: Seq<RowV>, i: int)
    requires
        0 <= i <= rows.len(),
    ensures
        total_edges(rows.subrange(0, i)) <= total_edges(rows),
    decreases rows.len() - i,
{
    if i == rows.len() {
        assert(rows.subrange(0, i) =~= rows);
    } else {
        lemma_total_edges_prefix(rows, i + 1);
        assert(rows.subrange(0, i + 1).drop_last() =~= rows.subrange(0, i));
        assert(rows.subrange(0, i + 1).last() == rows[i]);
    }
}

/// An edge list with every edge ending at `id` dropped, in order.
pub open spec fn strip_edges(edges: Seq<EdgeV>, id: u64) -> Seq<EdgeV>
    decreases edges.len(),
{
    if edges.len() == 0 {
        Seq::empty()
    } else {
        let rest = strip_edges(edges.drop_last(), id);
        if edges.last().to == id {
            rest
        } else {
            rest.push(edges.last())
        }
    }
}

/// Every edge the strip keeps comes from the original list and does not
/// end at the dropped vertex.
pub proof fn lemma_strip_edges(edges: Seq<EdgeV>, id: u64)
    ensures
        forall|k: int| 0 <= k < strip_edges(edges, id).len() ==> (#[trigger] strip_edges(
            edges,
            id,
        )[k]).to != id && edges.contains(strip_edges(edges, id)[k]),
    decreases edges.len(),
{
    if edges.len() == 0 {
    } else {
        let prev = edges.drop_last();
        lemma_strip_edges(prev, id);
        let s = strip_edges(edges, id);
        assert forall|k: int| 0 <= k < s.len() implies (#[trigger] s[k]).to != id
            && edges.contains(s[k]) by {
            if k < strip_edges(prev, id).len() {
                assert(s[k] == strip_edges(prev, id)[k]);
                let j = choose|j: int| 0 <= j < prev.len() && prev[j] == s[k];
                assert(edges[j] == s[k]);
            } else {
                assert(s[k] == edges.last());
                assert(edges[edges.len() - 1] == s[k]);
            }
        }
    }
}

/// Stripping keeps the edge triples pairwise distinct.
pub proof fn lemma_strip_edges_distinct(edges: Seq<EdgeV>, id: u64)
    requires
        forall|k: int, l: int| 0 <= k < l < edges.len() ==> !((#[trigger] edges[k]).to == (
        #[trigger] edges[l]).to && edges[k].label == edges[l].label),
    ensures
        forall|k: int, l: int| 0 <= k < l < strip_edges(edges, id).len() ==> !((
        #[trigger] strip_edges(edges, id)[k]).to == (#[trigger] strip_edges(edges, id)[l]).to
            && strip_edges(edges, id)[k].label == strip_edges(edges, id)[l].label),
    decreases edges.len(),
{
    if edges.len() == 0 {
    } else {
        let prev = edges.drop_last();
        assert forall|k: int, l: int| 0 <= k < l < prev.len() implies !((#[trigger] prev[k]).to
            == (#[trigger] prev[l]).to && prev[k].label == prev[l].label) by {
            assert(prev[k] == edges[k]);
            assert(prev[l] == edges[l]);
        }
        lemma_strip_edges_distinct(prev, id);
        lemma_strip_edges(prev, id);
        let s = strip_edges(edges, id);
        let rest = strip_edges(prev, id);
        assert forall|k: int, l: int| 0 <= k < l < s.len() implies !((#[trigger] s[k]).to == (
        #[trigger] s[l]).to && s[k].label == s[l].label) by {
            if l < rest.len() {
                assert(s[k] == rest[k]);
                assert(s[l] == rest[l]);
            } else if s.len() > rest.len() {
                assert(s[l] == edges.last());
                assert(s[k] == rest[k]);
                assert(prev.contains(rest[k]));
                let j = choose|j: int| 0 <= j < prev.len() && prev[j] == rest[k];
                assert(edges[j] == rest[k]);
                if rest[k].to == edges.last().to && rest[k].label == edges.last().label {
                    assert(edges[j].to == edges[edges.len() - 1].to);
                    assert(false);
                }
            }
        }
    }
}

/// The store after `remove_vertex(id)` succeeds: the vertex's own row is
/// dropped, and so is every edge ending at it.
pub open spec fn remove_vertex_model(rows: Seq<RowV>, id: u64) -> Seq<RowV>
    decreases rows.len(),
{
    if rows.len() == 0 {
        Seq::empty()
    } else {
        let rest = remove_vertex_model(rows.drop_last(), id);
        let row = rows.last();
        if row.id == id {
            rest
        } else {
            rest.push(RowV { id: row.id, label: row.label, edges: strip_edges(row.edges, id) })
        }
    }
}

/// What the rows of the store look like after a vertex removal: the kept
/// rows are the other rows in order, each with its edges stripped, and
/// exactly the other ids remain.
pub proof fn lemma_remove_vertex_elements(rows: Seq<RowV>, id: u64)
    requires
        forall|i: int, j: int| 0 <= i < j < rows.len() ==> (#[trigger] rows[i]).id != (
        #[trigger] rows[j]).id,
    ensures
        forall|x: u64| #[trigger] has_id(remove_vertex_model(rows, id), x) <==> (has_id(rows, x)
            && x != id),
        forall|n: int| 0 <= n < remove_vertex_model(rows, id).len() ==> exists|i: int| 0 <= i
            < rows.len() && (#[trigger] rows[i]).id == (#[trigger] remove_vertex_model(
            rows,
            id,
        )[n]).id && rows[i].label == remove_vertex_model(rows, id)[n].label
            && remove_vertex_model(rows, id)[n].edges == strip_edges(rows[i].edges, id),
        forall|n: int, m: int| 0 <= n < m < remove_vertex_model(rows, id).len() ==> (
        #[trigger] remove_vertex_model(rows, id)[n]).id != (#[trigger] remove_vertex_model(
            rows,
            id,
        )[m]).id,
    decreases rows.len(),
{
    if rows.len() == 0 {
        assert forall|x: u64| #[trigger] has_id(remove_vertex_model(rows, id), x) implies (has_id(
            rows,
            x,
        ) && x != id) by {}
    } else {
        let prev = rows.drop_last();
        assert forall|i: int, j: int| 0 <= i < j < prev.len() implies (#[trigger] prev[i]).id != (
        #[trigger] prev[j]).id by {
            assert(prev[i] == rows[i]);
            assert(prev[j] == rows[j]);
        }
        lemma_remove_vertex_elements(prev, id);
        let model = remove_vertex_model(rows, id);
        let rest = remove_vertex_model(prev, id);
        let row = rows.last();
        assert(rows[rows.len() - 1] == row);
        assert forall|x: u64| #[trigger] has_id(model, x) implies (has_id(rows, x) && x != id) by {
            let n = choose|n: int| 0 <= n < model.len() && (#[trigger] model[n]).id == x;
            if n < rest.len() {
                assert(model[n] == rest[n]);
                assert(has_id(rest, x));
                let i = choose|i: int| 0 <= i < prev.len() && (#[trigger] prev[i]).id == x;
                assert(rows[i] == prev[i]);
            } else {
                assert(model[n].id == row.id);
            }
        }
        assert forall|x: u64| has_id(rows, x) && x != id implies #[trigger] has_id(model, x) by {
            let i = choose|i: int| 0 <= i < rows.len() && (#[trigger] rows[i]).id == x;
            if i < prev.len() {
                assert(prev[i] == rows[i]);
                assert(has_id(prev, x));
                assert(has_id(rest, x));
                let n = choose|n: int| 0 <= n < rest.len() && (#[trigger] rest[n]).id == x;
                assert(model[n] == rest[n]);
            } else {
                assert(row.id == x);
                assert(model[model.len() - 1].id == x);
            }
        }
        assert forall|n: int| 0 <= n < model.len() implies exists|i: int| 0 <= i < rows.len() && (
        #[trigger] rows[i]).id == (#[trigger] model[n]).id && rows[i].label == model[n].label
            && model[n].edges == strip_edges(rows[i].edges, id) by {
            if n < rest.len() {
                assert(model[n] == rest[n]);
                let i = choose|i: int| 0 <= i < prev.len() && (#[trigger] prev[i]).id
                    == rest[n].id && prev[i].label == rest[n].label && rest[n].edges
                    == strip_edges(prev[i].edges, id);
                assert(rows[i] == prev[i]);
                assert(rows[i].id == model[n].id && rows[i].label == model[n].label
                    && model[n].edges == strip_edges(rows[i].edges, id));
            } else {
                let i = rows.len() - 1;
                assert(rows[i].id == model[n].id && rows[i].label == model[n].label
                    && model[n].edges == strip_edges(rows[i].edges, id));
            }
        }
        assert forall|n: int, m: int| 0 <= n < m < model.len() implies (#[trigger] model[n]).id
            != (#[trigger] model[m]).id by {
            if m < rest.len() {
                assert(model[n] == rest[n]);
                assert(model[m] == rest[m]);
            } else if model.len() > rest.len() {
                assert(model[m].id == row.id);
                assert(model[n] == rest[n]);
                assert(has_id(rest, rest[n].id));
                let i = choose|i: int| 0 <= i < prev.len() && (#[trigger] prev[i]).id
                    == rest[n].id;
                assert(rows[i] == prev[i]);
                assert(rows[i].id != row.id);
            }
        }
    }
}

/// Removing a vertex keeps the store well formed.
pub proof fn lemma_remove_vertex_wf(rows: Seq<RowV>, id: u64)
    requires
        graph_wf(rows),
    ensures
        graph_wf(remove_vertex_model(rows, id)),
{
    lemma_remove_vertex_elements(rows, id);
    let model = remove_vertex_model(rows, id);
    assert forall|n: int| 0 <= n < model.len() implies (#[trigger] model[n]).id == fnv_hash(
        model[n].label,
    ) && edge_list_wf(model, model[n]) by {
        let i = choose|i: int| 0 <= i < rows.len() && (#[trigger] rows[i]).id == model[n].id
            && rows[i].label == model[n].label && model[n].edges == strip_edges(rows[i].edges, id);
        assert(edge_list_wf(rows, rows[i]));
        lemma_strip_edges(rows[i].edges, id);
        lemma_strip_edges_distinct(rows[i].edges, id);
        assert forall|k: int| 0 <= k < model[n].edges.len() implies (#[trigger] model[n].edges[k]).from
            == model[n].id && has_id(model, model[n].edges[k].to) by {
            let e = model[n].edges[k];
            assert(rows[i].edges.contains(e));
            let j = choose|j: int| 0 <= j < rows[i].edges.len() && rows[i].edges[j] == e;
            assert(e.from == rows[i].id);
            assert(has_id(rows, e.to));
            assert(e.to != id);
        }
    }
}

/// The resolved outgoing-neighbor list of one edge list: each edge as
/// (destination label, edge label), in edge-insertion order.
pub open spec fn neighbor_view(rows: Seq<RowV>, edges: Seq<EdgeV>) -> Seq<(Seq<char>, Seq<char>)> {
    edges.map_values(|e: EdgeV| (label_of(rows, e.to), e.label))
}

/// The resolved listing of every vertex: its label and its neighbors, in
/// vertex-insertion order.
pub open spec fn vertices_model(rows: Seq<RowV>) -> Seq<
    (Seq<char>, Seq<(Seq<char>, Seq<char>)>),
> {
    Seq::new(rows.len(), |i: int| (rows[i].label, neighbor_view(rows, rows[i].edges)))
}

/// One row's edges as (from label, to label, edge label) triples.
pub open spec fn row_edges_listing(rows: Seq<RowV>, edges: Seq<EdgeV>) -> Seq<
    (Seq<char>, Seq<char>, Seq<char>),
> {
    edges.map_values(|e: EdgeV| (label_of(rows, e.from), label_of(rows, e.to), e.label))
}

/// The flattened edge listing of a prefix of the store's rows, in
/// vertex-then-edge insertion order.
pub open spec fn edges_listing(all: Seq<RowV>, rows: Seq<RowV>) -> Seq<
    (Seq<char>, Seq<char>, Seq<char>),
>
    decreases rows.len(),
{
    if rows.len() == 0 {
        Seq::empty()
    } else {
        edges_listing(all, rows.drop_last()) + row_edges_listing(all, rows.last().edges)
    }
}

/// The flattened edge listing of the whole store.
pub open spec fn edges_model(rows: Seq<RowV>) -> Seq<(Seq<char>, Seq<char>, Seq<char>)> {
    edges_listing(rows, rows)
}

/// If position `k` holds an edge to `to` and no earlier position does,
/// `k` is the first position of such an edge.
pub proof fn lemma_edge_index_found(edges: Seq<EdgeV>, to: u64, k: int)
    requires
        0 <= k < edges.len(),
        edges[k].to == to,
        forall|j: int| 0 <= j < k ==> (#[trigger] edges[j]).to != to,
    ensures
        edge_index(edges, to) == k,
{
    lemma_edge_index(edges, to);
    let r = edge_index(edges, to);
    if r < k {
        assert(edges[r].to != to);
    }
}

/// Finds the position of the first edge ending at `to`, if any.
fn find_edge_to(edges: &Vec<Edge>, to: VertexId) -> (r: Option<usize>)
    ensures
        match r {
            Some(k) => k == edge_index(edges.deep_view(), to@) && k < edges.deep_view().len()
                && edges.deep_view()[k as int].to == to@,
            None => !has_edge_to(edges.deep_view(), to@),
        },
{
    let n = edges.len();
    let mut k: usize = 0;
    while k < n
        invariant
            k <= n,
            n == edges.deep_view().len(),
            forall|j: int| 0 <= j < k ==> (#[trigger] edges.deep_view()[j]).to != to@,
        decreases n - k,
    {
        if edges[k].to == to {
            proof {
                assert(edges.deep_view()[k as int].to == to@);
                lemma_edge_index_found(edges.deep_view(), to@, k as int);
            }
            return Some(k);
        }
        k = k + 1;
    }
    None
}

/// If position `i` holds `id` and no earlier position does, `i` is the
/// first position of `id`.
pub proof fn lemma_row_index_found(rows: Seq<RowV>, id: u64, i: int)
    requires
        0 <= i < rows.len(),
        rows[i].id == id,
        forall|j: int| 0 <= j < i ==> (#[trigger] rows[j]).id != id,
    ensures
        row_index(rows, id) == i,
    decreases i,
{
    lemma_row_index(rows, id);
    let r = row_index(rows, id);
    if r < i {
        assert(rows[r].id != id);
    }
}

} // verus!
