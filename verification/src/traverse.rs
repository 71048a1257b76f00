use vstd::prelude::*;
use vstd::set_lib::lemma_len_subset;
use vstd::string::StrSliceExecFns;
use vstd::string::StringExecFns;

use crate::error::GraphOperationError;
use crate::graph::{
    edge_list_wf, edges_of, graph_wf, has_id, label_of, neighbor_view, row_index, EdgeV, Graph,
    RowV, VertexId, VertexInfo,
};

verus! {

broadcast use vstd::seq_lib::seq_to_set_is_finite;

/// The set of vertex ids of the store.
pub open spec fn ids_set(rows: Seq<RowV>) -> Set<u64> {
    rows.map_values(|r: RowV| r.id).to_set()
}

pub proof fn lemma_ids_set(rows: Seq<RowV>)
    ensures
        ids_set(rows).finite(),
        forall|x: u64| #[trigger] ids_set(rows).contains(x) <==> has_id(rows, x),
{
    let ids = rows.map_values(|r: RowV| r.id);
    assert forall|x: u64| #[trigger] ids_set(rows).contains(x) implies has_id(rows, x) by {
        assert(ids.contains(x));
        let i = choose|i: int| 0 <= i < ids.len() && ids[i] == x;
        assert(rows[i].id == x);
    }
    assert forall|x: u64| has_id(rows, x) implies #[trigger] ids_set(rows).contains(x) by {
        let i = choose|i: int| 0 <= i < rows.len() && (#[trigger] rows[i]).id == x;
        assert(ids[i] == x);
        assert(ids.contains(x));
    }
}

/// One dequeue step's enqueue work: walk the dequeued vertex's outgoing
/// edges in order, collecting each destination not yet visited and
/// marking it visited on the spot. Returns the enqueued ids in order and
/// the grown visited set.
pub open spec fn step_frontier(edges: Seq<EdgeV>, visited: Set<u64>) -> (Seq<u64>, Set<u64>)
    decreases edges.len(),
{
    if edges.len() == 0 {
        (Seq::empty(), visited)
    } else if visited.contains(edges[0].to) {
        step_frontier(edges.drop_first(), visited)
    } else {
        let rec = step_frontier(edges.drop_first(), visited.insert(edges[0].to));
        (seq![edges[0].to] + rec.0, rec.1)
    }
}

pub proof fn lemma_step_frontier(edges: Seq<EdgeV>, visited: Set<u64>)
    ensures
        forall|x: u64| #[trigger] step_frontier(edges, visited).1.contains(x) <==> (
        visited.contains(x) || step_frontier(edges, visited).0.contains(x)),
        forall|n: int| 0 <= n < step_frontier(edges, visited).0.len() ==> !visited.contains(
            #[trigger] step_frontier(edges, visited).0[n],
        ) && has_edge_dest(edges, step_frontier(edges, visited).0[n]),
        forall|n: int, m: int| 0 <= n < m < step_frontier(edges, visited).0.len() ==> (
        #[trigger] step_frontier(edges, visited).0[n]) != (#[trigger] step_frontier(
            edges,
            visited,
        ).0[m]),
        visited.finite() ==> step_frontier(edges, visited).1.finite(),
        forall|x: u64| #[trigger] has_edge_dest(edges, x) ==> step_frontier(
            edges,
            visited,
        ).1.contains(x),
    decreases edges.len(),
{
    if edges.len() == 0 {
    } else {
        let e0 = edges[0].to;
        let sub = edges.drop_first();
        assert forall|x: u64| has_edge_dest(sub, x) implies has_edge_dest(edges, x) by {
            let k = choose|k: int| 0 <= k < sub.len() && (#[trigger] sub[k]).to == x;
            assert(edges[k + 1].to == x);
        }
        assert forall|x: u64| #[trigger] has_edge_dest(edges, x) && x != e0 implies has_edge_dest(
            sub,
            x,
        ) by {
            let k = choose|k: int| 0 <= k < edges.len() && (#[trigger] edges[k]).to == x;
            assert(sub[k - 1].to == x);
        }
        if visited.contains(e0) {
            lemma_step_frontier(sub, visited);
            assert(step_frontier(edges, visited) == step_frontier(sub, visited));
        } else {
            lemma_step_frontier(sub, visited.insert(e0));
            let rec = step_frontier(sub, visited.insert(e0));
            let fr = step_frontier(edges, visited).0;
            let vis2 = step_frontier(edges, visited).1;
            assert(fr == seq![e0] + rec.0);
            assert(vis2 == rec.1);
            assert(edges[0].to == e0);
            assert(has_edge_dest(edges, e0));
            assert forall|x: u64| #[trigger] fr.contains(x) implies (x == e0 || rec.0.contains(
                x,
            )) by {
                let n = choose|n: int| 0 <= n < fr.len() && fr[n] == x;
                if n > 0 {
                    assert(rec.0[n - 1] == x);
                }
            }
            assert forall|x: u64| (x == e0 || rec.0.contains(x)) implies #[trigger] fr.contains(
                x,
            ) by {
                if x == e0 {
                    assert(fr[0] == x);
                } else {
                    let n = choose|n: int| 0 <= n < rec.0.len() && rec.0[n] == x;
                    assert(fr[n + 1] == x);
                }
            }
            assert forall|x: u64| #[trigger] vis2.contains(x) implies (visited.contains(x)
                || fr.contains(x)) by {
                assert(rec.1.contains(x));
            }
            assert forall|x: u64| (visited.contains(x) || fr.contains(x)) implies
                #[trigger] vis2.contains(x) by {
                if visited.contains(x) {
                    assert(visited.insert(e0).contains(x) || x == e0);
                }
            }
            assert forall|n: int| 0 <= n < fr.len() implies !visited.contains(#[trigger] fr[n])
                && has_edge_dest(edges, fr[n]) by {
                if n > 0 {
                    assert(fr[n] == rec.0[n - 1]);
                }
            }
            assert forall|n: int, m: int| 0 <= n < m < fr.len() implies (#[trigger] fr[n]) != (
            #[trigger] fr[m]) by {
                assert(fr[m] == rec.0[m - 1]);
                if n > 0 {
                    assert(fr[n] == rec.0[n - 1]);
                } else {
                    assert(fr[n] == e0);
                    assert(!visited.insert(e0).contains(rec.0[m - 1]));
                }
            }
        }
    }
}

/// Whether some edge of the list ends at `x`.
pub open spec fn has_edge_dest(edges: Seq<EdgeV>, x: u64) -> bool {
    exists|k: int| 0 <= k < edges.len() && (#[trigger] edges[k]).to == x
}

/// Whether every id the work queue holds names a vertex of the store.
pub open spec fn queue_ok(rows: Seq<RowV>, queue: Seq<u64>) -> bool {
    forall|n: int| 0 <= n < queue.len() ==> has_id(rows, #[trigger] queue[n])
}

/// The visit order of the shared traversal engine, from a work queue and
/// a visited set. The queue discipline decides the algorithm: FIFO gives
/// breadth-first, LIFO gives depth-first. A vertex is marked visited when
/// it is enqueued, so no vertex is dequeued twice.
pub open spec fn search_rec(rows: Seq<RowV>, queue: Seq<u64>, visited: Set<u64>, fifo: bool) -> Seq<
    u64,
>
    decreases ids_set(rows).difference(visited).len(), queue.len(),
    when graph_wf(rows) && visited.finite() && queue_ok(rows, queue)
{
    if queue.len() == 0 {
        Seq::empty()
    } else {
        let v = if fifo {
            queue[0]
        } else {
            queue.last()
        };
        let rest = if fifo {
            queue.drop_first()
        } else {
            queue.drop_last()
        };
        let fr = step_frontier(edges_of(rows, v), visited).0;
        let vis2 = step_frontier(edges_of(rows, v), visited).1;
        proof {
            lemma_search_step(rows, queue, visited, fifo);
        }
        seq![v] + search_rec(rows, rest + fr, vis2, fifo)
    }
}

/// The facts one dequeue step needs: the frontier holds ids of the store
/// that were not yet visited, and the measure shrinks.
pub proof fn lemma_search_step(rows: Seq<RowV>, queue: Seq<u64>, visited: Set<u64>, fifo: bool)
    requires
        graph_wf(rows),
        visited.finite(),
        queue_ok(rows, queue),
        queue.len() > 0,
    ensures
        ({
            let v = if fifo {
                queue[0]
            } else {
                queue.last()
            };
            let rest = if fifo {
                queue.drop_first()
            } else {
                queue.drop_last()
            };
            let fr = step_frontier(edges_of(rows, v), visited).0;
            let vis2 = step_frontier(edges_of(rows, v), visited).1;
            &&& vis2.finite()
            &&& queue_ok(rows, fr)
            &&& queue_ok(rows, rest + fr)
            &&& forall|x: u64| #[trigger] vis2.contains(x) <==> (visited.contains(x)
                || fr.contains(x))
            &&& forall|n: int| 0 <= n < fr.len() ==> !visited.contains(#[trigger] fr[n])
            &&& (fr.len() > 0 ==> ids_set(rows).difference(vis2).len() < ids_set(
                rows,
            ).difference(visited).len())
            &&& (fr.len() == 0 ==> vis2 == visited && ids_set(rows).difference(vis2).len()
                == ids_set(rows).difference(visited).len())
        }),
{
    let v = if fifo {
        queue[0]
    } else {
        queue.last()
    };
    let rest = if fifo {
        queue.drop_first()
    } else {
        queue.drop_last()
    };
    assert(has_id(rows, v));
    lemma_ids_set(rows);
    crate::graph::lemma_row_index(rows, v);
    let ri = row_index(rows, v);
    let eds = edges_of(rows, v);
    assert(eds == rows[ri].edges);
    assert(edge_list_wf(rows, rows[ri]));
    lemma_step_frontier(eds, visited);
    let fr = step_frontier(eds, visited).0;
    let vis2 = step_frontier(eds, visited).1;
    assert forall|n: int| 0 <= n < fr.len() implies has_id(rows, #[trigger] fr[n]) by {
        assert(has_edge_dest(eds, fr[n]));
        let k = choose|k: int| 0 <= k < eds.len() && (#[trigger] eds[k]).to == fr[n];
        assert(has_id(rows, eds[k].to));
    }
    assert forall|n: int| 0 <= n < (rest + fr).len() implies has_id(
        rows,
        #[trigger] (rest + fr)[n],
    ) by {
        if n < rest.len() {
            if fifo {
                assert(rest[n] == queue[n + 1]);
            } else {
                assert(rest[n] == queue[n]);
            }
        } else {
            assert((rest + fr)[n] == fr[n - rest.len()]);
        }
    }
    if fr.len() == 0 {
        assert(vis2 =~= visited);
    } else {
        let x = fr[0];
        assert(!visited.contains(x));
        assert(has_id(rows, x));
        let a = ids_set(rows).difference(vis2);
        let b = ids_set(rows).difference(visited);
        assert(b.contains(x));
        assert(!a.contains(x));
        assert(a.subset_of(b.remove(x)));
        lemma_len_subset(a, b.remove(x));
        assert(b.remove(x).len() == b.len() - 1);
    }
}

/// The mathematical value of one traversal visit: a vertex's label and
/// its resolved neighbor list.
pub type InfoV = (Seq<char>, Seq<(Seq<char>, Seq<char>)>);

/// The visit log that a traversal of the given order produces.
pub open spec fn infos_of(rows: Seq<RowV>, ord: Seq<u64>) -> Seq<InfoV> {
    ord.map_values(|v: u64| (label_of(rows, v), neighbor_view(rows, edges_of(rows, v))))
}

/// The queue the engine still has to process: the tail that starts at
/// `head`.
pub open spec fn pending(queue: Seq<u64>, head: int) -> Seq<u64> {
    queue.subrange(head, queue.len() as int)
}

/// The visit order of breadth-first search from `src`.
pub open spec fn bfs_order(rows: Seq<RowV>, src: u64) -> Seq<u64> {
    search_rec(rows, seq![src], Set::empty().insert(src), true)
}

/// The visit order of depth-first search from `src`.
pub open spec fn dfs_order(rows: Seq<RowV>, src: u64) -> Seq<u64> {
    search_rec(rows, seq![src], Set::empty().insert(src), false)
}

/// Appending one visit to the order appends its info entry to the log.
pub proof fn lemma_infos_push(rows: Seq<RowV>, order: Seq<u64>, v: u64)
    ensures
        infos_of(rows, order.push(v)) == infos_of(rows, order).push(
            (label_of(rows, v), neighbor_view(rows, edges_of(rows, v))),
        ),
{
    assert(infos_of(rows, order.push(v)) =~~= infos_of(rows, order).push(
        (label_of(rows, v), neighbor_view(rows, edges_of(rows, v))),
    ));
}

/// One dequeue advances the engine: the order gains the dequeued vertex,
/// and the remaining work is the rest of the queue plus the new frontier.
pub proof fn lemma_search_advance(
    rows: Seq<RowV>,
    cur: Seq<u64>,
    vis: Set<u64>,
    fifo: bool,
    order: Seq<u64>,
    target: Seq<u64>,
)
    requires
        graph_wf(rows),
        vis.finite(),
        queue_ok(rows, cur),
        cur.len() > 0,
        order + search_rec(rows, cur, vis, fifo) == target,
    ensures
        ({
            let v = if fifo {
                cur[0]
            } else {
                cur.last()
            };
            let rest = if fifo {
                cur.drop_first()
            } else {
                cur.drop_last()
            };
            let fr = step_frontier(edges_of(rows, v), vis).0;
            let vis2 = step_frontier(edges_of(rows, v), vis).1;
            order.push(v) + search_rec(rows, rest + fr, vis2, fifo) == target
        }),
{
    let v = if fifo {
        cur[0]
    } else {
        cur.last()
    };
    let rest = if fifo {
        cur.drop_first()
    } else {
        cur.drop_last()
    };
    let fr = step_frontier(edges_of(rows, v), vis).0;
    let vis2 = step_frontier(edges_of(rows, v), vis).1;
    lemma_search_step(rows, cur, vis, fifo);
    assert(search_rec(rows, cur, vis, fifo) == seq![v] + search_rec(rows, rest + fr, vis2, fifo));
    assert(order.push(v) + search_rec(rows, rest + fr, vis2, fifo) =~= order + (seq![v]
        + search_rec(rows, rest + fr, vis2, fifo)));
}

/// Whether a plain vector holds a value.
fn vec_contains_u64(v: &Vec<u64>, x: u64) -> (r: bool)
    ensures
        r == v@.contains(x),
{
    let n = v.len();
    let mut i: usize = 0;
    while i < n
        invariant
            i <= n,
            n == v@.len(),
            forall|j: int| 0 <= j < i ==> v@[j] != x,
        decreases n - i,
    {
        if v[i] == x {
            return true;
        }
        i = i + 1;
    }
    false
}

impl Graph {
    /// One dequeue step's enqueue work: walks row `i`'s outgoing edges in
    /// order, enqueueing every destination not yet visited and marking it
    /// visited on the spot.
    fn expand_frontier(
        &self,
        i: usize,
        queue: &mut Vec<u64>,
        visited: &mut Vec<u64>,
        Ghost(vis): Ghost<Set<u64>>,
    ) -> (gv: Ghost<Set<u64>>)
        requires
            self.wf(),
            i < self@.len(),
            vis.finite(),
            forall|x: u64| #[trigger] vis.contains(x) <==> old(visited)@.contains(x),
        ensures
            gv@ == step_frontier(self@[i as int].edges, vis).1,
            final(queue)@ == old(queue)@ + step_frontier(self@[i as int].edges, vis).0,
            gv@.finite(),
            forall|x: u64| #[trigger] gv@.contains(x) <==> final(visited)@.contains(x),
    {
        let ghost eds = self@[i as int].edges;
        let ghost vis_entry = vis;
        let ghost queue_entry = queue@;
        let ghost fr = step_frontier(eds, vis_entry).0;
        let ghost vis2 = step_frontier(eds, vis_entry).1;
        let ghost mut cur_vis = vis;
        let ghost mut enq: Seq<u64> = Seq::empty();
        proof {
            lemma_step_frontier(eds, vis_entry);
            assert(eds.subrange(0, eds.len() as int) =~= eds);
            assert(queue@ =~= queue_entry + enq);
        }
        let m = self.rows[i].edges.len();
        let mut k: usize = 0;
        while k < m
            invariant
                self.wf(),
                i < self@.len(),
                self@[i as int].edges == eds,
                eds == self.rows@[i as int]@.edges,
                m == eds.len(),
                k <= m,
                cur_vis.finite(),
                forall|x: u64| #[trigger] cur_vis.contains(x) <==> visited@.contains(x),
                fr =~~= enq + step_frontier(eds.subrange(k as int, m as int), cur_vis).0,
                vis2 =~= step_frontier(eds.subrange(k as int, m as int), cur_vis).1,
                queue@ =~= queue_entry + enq,
            decreases m - k,
        {
            let ghost sub = eds.subrange(k as int, m as int);
            proof {
                assert(sub[0] == eds[k as int]);
                assert(sub.drop_first() =~= eds.subrange(k + 1, m as int));
            }
            let to = self.rows[i].edges[k].to.0;
            proof {
                assert(eds[k as int].to == to);
            }
            if !vec_contains_u64(&visited, to) {
                let ghost visited_prev = visited@;
                let ghost vis_prev = cur_vis;
                queue.push(to);
                visited.push(to);
                proof {
                    assert(!vis_prev.contains(to));
                    let rec = step_frontier(sub.drop_first(), vis_prev.insert(to));
                    assert(step_frontier(sub, vis_prev).0 == seq![to] + rec.0);
                    cur_vis = cur_vis.insert(to);
                    enq = enq.push(to);
                    assert(fr =~~= enq + step_frontier(eds.subrange(k + 1, m as int), cur_vis).0);
                    assert(visited@ == visited_prev.push(to));
                    assert forall|x: u64| #[trigger] cur_vis.contains(x) implies
                        visited@.contains(x) by {
                        if x == to {
                            assert(visited@[visited_prev.len() as int] == x);
                        } else {
                            assert(vis_prev.contains(x));
                            let j = choose|j: int| 0 <= j < visited_prev.len() && visited_prev[j]
                                == x;
                            assert(visited@[j] == x);
                        }
                    }
                    assert forall|x: u64| visited@.contains(x) implies #[trigger] cur_vis.contains(
                        x,
                    ) by {
                        let j = choose|j: int| 0 <= j < visited@.len() && visited@[j] == x;
                        if j < visited_prev.len() {
                            assert(visited_prev[j] == x);
                        } else {
                            assert(x == to);
                        }
                    }
                }
            } else {
                proof {
                    assert(cur_vis.contains(eds[k as int].to));
                    assert(step_frontier(sub, cur_vis) == step_frontier(sub.drop_first(), cur_vis));
                }
            }
            k = k + 1;
        }
        proof {
            assert(eds.subrange(m as int, m as int) =~= Seq::<EdgeV>::empty());
            assert(fr =~~= enq);
            assert(vis2 =~= cur_vis);
            assert(vis2 == cur_vis);
            assert(final(queue)@ =~= queue_entry + fr);
        }
        Ghost(cur_vis)
    }

    /// The shared traversal engine: one algorithm over a work queue whose
    /// discipline is chosen by `fifo`. A vertex is marked visited when it
    /// is enqueued; the visitor log entry is produced when it is dequeued,
    /// after its fresh neighbors were enqueued. Fails with
    /// [`GraphOperationError::VertexDoesNotExist`] when the source id is
    /// absent.
    #[verifier::rlimit(100)]
    fn search(&self, source: VertexId, fifo: bool) -> (r: Result<Vec<VertexInfo>, GraphOperationError>)
        requires
            self.wf(),
        ensures
            match r {
                Ok(out) => has_id(self@, source@) && out.deep_view() == infos_of(
                    self@,
                    search_rec(self@, seq![source@], Set::empty().insert(source@), fifo),
                ),
                Err(e) => e == GraphOperationError::VertexDoesNotExist && !has_id(self@, source@),
            },
    {
        if self.find_row(source).is_none() {
            return Err(GraphOperationError::VertexDoesNotExist);
        }
        let ghost rows = self@;
        let ghost target = search_rec(rows, seq![source@], Set::empty().insert(source@), fifo);
        let mut queue: Vec<u64> = Vec::new();
        let mut head: usize = 0;
        let mut visited: Vec<u64> = Vec::new();
        let mut out: Vec<VertexInfo> = Vec::new();
        let ghost mut order: Seq<u64> = Seq::empty();
        let ghost mut vis: Set<u64> = Set::empty().insert(source@);
        queue.push(source.0);
        visited.push(source.0);
        proof {
            assert(pending(queue@, head as int) =~= seq![source@]);
            assert(forall|x: u64| #[trigger] vis.contains(x) <==> visited@.contains(x));
        }
        while head < queue.len()
            invariant
                self.wf(),
                rows == self@,
                has_id(rows, source@),
                head <= queue@.len(),
                !fifo ==> head == 0,
                queue_ok(rows, pending(queue@, head as int)),
                vis.finite(),
                forall|x: u64| #[trigger] vis.contains(x) <==> visited@.contains(x),
                order + search_rec(rows, pending(queue@, head as int), vis, fifo) == target,
                out.deep_view() == infos_of(rows, order),
            decreases ids_set(rows).difference(vis).len(), queue@.len() - head,
        {
            let ghost cur = pending(queue@, head as int);
            proof {
                lemma_search_step(rows, cur, vis, fifo);
            }
            let v: u64 = if fifo {
                let x = queue[head];
                head = head + 1;
                x
            } else {
                match queue.pop() {
                    Some(x) => x,
                    None => {
                        proof {
                            assert(false);
                        }
                        0
                    },
                }
            };
            let ghost rest = if fifo {
                cur.drop_first()
            } else {
                cur.drop_last()
            };
            proof {
                if fifo {
                    assert(v == cur[0]);
                } else {
                    assert(v == cur.last());
                    assert(pending(queue@, head as int) =~= rest);
                }
                assert(has_id(rows, v));
            }
            let vid = VertexId(v);
            let i = match self.find_row(vid) {
                Some(i) => i,
                None => {
                    proof {
                        assert(false);
                    }
                    return Err(GraphOperationError::VertexDoesNotExist);
                },
            };
            let ghost eds = edges_of(rows, v);
            let ghost vis_entry = vis;
            let ghost fr = step_frontier(eds, vis_entry).0;
            let ghost vis2 = step_frontier(eds, vis_entry).1;
            proof {
                assert(rows[i as int].edges == eds);
            }
            let gv = self.expand_frontier(i, &mut queue, &mut visited, Ghost(vis));
            proof {
                vis = gv@;
                assert(vis == vis2);
            }
            let info = match self.get_vertex_info(vid) {
                Ok(info) => info,
                Err(e) => {
                    proof {
                        assert(false);
                    }
                    return Err(e);
                },
            };
            let ghost prev_out = out.deep_view();
            let ghost prev_order = order;
            out.push(info);
            proof {
                order = order.push(v);
                lemma_infos_push(rows, prev_order, v);
                assert(out.deep_view() =~= prev_out.push(
                    (label_of(rows, v), neighbor_view(rows, edges_of(rows, v))),
                ));
                lemma_search_advance(rows, cur, vis_entry, fifo, prev_order, target);
                // the next pending queue is the rest of the old one plus
                // this step's frontier
                assert(pending(queue@, head as int) =~= rest + fr);
            }
        }
        proof {
            assert(pending(queue@, head as int).len() == 0);
            assert(search_rec(rows, pending(queue@, head as int), vis, fifo) =~= Seq::<
                u64,
            >::empty());
            assert(order =~= target);
            assert(out.deep_view() == infos_of(rows, target));
        }
        Ok(out)
    }

    /// Breadth-first search: the traversal engine with a FIFO queue. The
    /// visit log holds, for every vertex reachable from `source`, its
    /// value and resolved neighbor list, in non-decreasing
    /// distance-from-source order, ties broken by discovery order.
    pub fn bfs(&self, source: VertexId) -> (r: Result<Vec<VertexInfo>, GraphOperationError>)
        requires
            self.wf(),
        ensures
            match r {
                Ok(out) => has_id(self@, source@) && out.deep_view() == infos_of(
                    self@,
                    bfs_order(self@, source@),
                ),
                Err(e) => e == GraphOperationError::VertexDoesNotExist && !has_id(self@, source@),
            },
    {
        self.search(source, true)
    }

    /// Depth-first search: the traversal engine with a LIFO stack.
    /// Neighbors are pushed in their stored order and popped from the
    /// same end, so the last-listed neighbor's subtree is explored first.
    pub fn dfs(&self, source: VertexId) -> (r: Result<Vec<VertexInfo>, GraphOperationError>)
        requires
            self.wf(),
        ensures
            match r {
                Ok(out) => has_id(self@, source@) && out.deep_view() == infos_of(
                    self@,
                    dfs_order(self@, source@),
                ),
                Err(e) => e == GraphOperationError::VertexDoesNotExist && !has_id(self@, source@),
            },
    {
        self.search(source, false)
    }
}

/// A directed step of the store: `a` exists and one of its edges ends at
/// `b`.
pub open spec fn edge_to(rows: Seq<RowV>, a: u64, b: u64) -> bool {
    has_id(rows, a) && has_edge_dest(edges_of(rows, a), b)
}

/// A directed walk through the store, one vertex id per step.
pub open spec fn is_path(rows: Seq<RowV>, p: Seq<u64>) -> bool {
    &&& p.len() > 0
    &&& has_id(rows, p[0])
    &&& forall|k: int| 0 <= k < p.len() - 1 ==> edge_to(rows, #[trigger] p[k], p[k + 1])
}

/// Whether `dst` can be reached from `src` along the store's edges.
pub open spec fn reachable(rows: Seq<RowV>, src: u64, dst: u64) -> bool {
    exists|p: Seq<u64>| is_path(rows, p) && p[0] == src && p.last() == dst
}

/// One more edge extends reachability.
pub proof fn lemma_reachable_step(rows: Seq<RowV>, src: u64, a: u64, b: u64)
    requires
        reachable(rows, src, a),
        edge_to(rows, a, b),
    ensures
        reachable(rows, src, b),
{
    let p = choose|p: Seq<u64>| is_path(rows, p) && p[0] == src && p.last() == a;
    let p2 = p.push(b);
    assert forall|k: int| 0 <= k < p2.len() - 1 implies edge_to(rows, #[trigger] p2[k], p2[k + 1]) by {
        if k < p.len() - 1 {
            assert(p2[k] == p[k]);
            assert(p2[k + 1] == p[k + 1]);
        } else {
            assert(p2[k] == p.last());
            assert(p2[k + 1] == b);
        }
    }
    assert(is_path(rows, p2) && p2[0] == src && p2.last() == b);
}

/// What the engine's recursion guarantees of its visit order: every
/// visited vertex is reachable from `src`, none is visited twice, and a
/// visit is either owed to the queue or to a vertex not yet marked.
#[verifier::rlimit(100)]
#[verifier::spinoff_prover]
pub proof fn lemma_search_rec_sound(
    rows: Seq<RowV>,
    queue: Seq<u64>,
    visited: Set<u64>,
    fifo: bool,
    src: u64,
)
    requires
        graph_wf(rows),
        visited.finite(),
        queue_ok(rows, queue),
        forall|n: int| 0 <= n < queue.len() ==> reachable(rows, src, #[trigger] queue[n]),
        forall|n: int, m: int| 0 <= n < m < queue.len() ==> queue[n] != queue[m],
        forall|n: int| 0 <= n < queue.len() ==> visited.contains(#[trigger] queue[n]),
    ensures
        forall|n: int| 0 <= n < search_rec(rows, queue, visited, fifo).len() ==> reachable(
            rows,
            src,
            #[trigger] search_rec(rows, queue, visited, fifo)[n],
        ),
        forall|n: int, m: int| 0 <= n < m < search_rec(rows, queue, visited, fifo).len() ==> (
        #[trigger] search_rec(rows, queue, visited, fifo)[n]) != (#[trigger] search_rec(
            rows,
            queue,
            visited,
            fifo,
        )[m]),
        forall|n: int| 0 <= n < search_rec(rows, queue, visited, fifo).len() ==> (queue.contains(
            #[trigger] search_rec(rows, queue, visited, fifo)[n],
        ) || !visited.contains(search_rec(rows, queue, visited, fifo)[n])),
    decreases ids_set(rows).difference(visited).len(), queue.len(),
{
    if queue.len() == 0 {
    } else {
        lemma_search_step(rows, queue, visited, fifo);
        let v = if fifo {
            queue[0]
        } else {
            queue.last()
        };
        let rest = if fifo {
            queue.drop_first()
        } else {
            queue.drop_last()
        };
        let eds = edges_of(rows, v);
        lemma_step_frontier(eds, visited);
        let fr = step_frontier(eds, visited).0;
        let vis2 = step_frontier(eds, visited).1;
        let queue2 = rest + fr;
        let res = search_rec(rows, queue, visited, fifo);
        let res2 = search_rec(rows, queue2, vis2, fifo);
        assert(res == seq![v] + res2);
        assert forall|n: int| 0 <= n < rest.len() implies #[trigger] rest[n] == (if fifo {
            queue[n + 1]
        } else {
            queue[n]
        }) by {}
        // the rest of the queue and the fresh frontier satisfy the
        // recursion's hypotheses
        assert forall|n: int| 0 <= n < queue2.len() implies reachable(
            rows,
            src,
            #[trigger] queue2[n],
        ) && vis2.contains(queue2[n]) by {
            if n < rest.len() {
                assert(queue.contains(rest[n]));
                let j = choose|j: int| 0 <= j < queue.len() && queue[j] == rest[n];
                assert(reachable(rows, src, queue[j]));
                assert(visited.contains(queue[j]));
            } else {
                let x = fr[n - rest.len()];
                assert(queue2[n] == x);
                assert(has_edge_dest(eds, x));
                assert(queue.contains(v));
                let j = choose|j: int| 0 <= j < queue.len() && queue[j] == v;
                assert(reachable(rows, src, v));
                lemma_reachable_step(rows, src, v, x);
                assert(fr.contains(x));
            }
        }
        assert forall|n: int, m: int| 0 <= n < m < queue2.len() implies queue2[n] != queue2[m] by {
            if m < rest.len() {
                if fifo {
                    assert(queue[n + 1] != queue[m + 1]);
                } else {
                    assert(queue[n] != queue[m]);
                }
            } else if n >= rest.len() {
                assert(queue2[n] == fr[n - rest.len()]);
                assert(queue2[m] == fr[m - rest.len()]);
            } else {
                // an old queue entry is marked, a frontier entry is not
                assert(queue.contains(rest[n]));
                let j = choose|j: int| 0 <= j < queue.len() && queue[j] == rest[n];
                assert(visited.contains(rest[n]));
                assert(!visited.contains(fr[m - rest.len()]));
            }
        }
        lemma_search_rec_sound(rows, queue2, vis2, fifo, src);
        assert(queue.contains(v));
        let jv = choose|j: int| 0 <= j < queue.len() && queue[j] == v;
        assert(reachable(rows, src, v));
        assert forall|n: int| 0 <= n < res.len() implies reachable(rows, src, #[trigger] res[n])
            && (queue.contains(res[n]) || !visited.contains(res[n])) by {
            if n > 0 {
                assert(res[n] == res2[n - 1]);
                if queue2.contains(res2[n - 1]) {
                    let j = choose|j: int| 0 <= j < queue2.len() && queue2[j] == res2[n - 1];
                    if j < rest.len() {
                        assert(queue.contains(rest[j]));
                    } else {
                        assert(!visited.contains(fr[j - rest.len()]));
                    }
                } else {
                    assert(!vis2.contains(res2[n - 1]));
                }
            }
        }
        assert forall|n: int, m: int| 0 <= n < m < res.len() implies (#[trigger] res[n]) != (
        #[trigger] res[m]) by {
            if n > 0 {
                assert(res[n] == res2[n - 1]);
                assert(res[m] == res2[m - 1]);
            } else {
                assert(res[n] == v);
                assert(res[m] == res2[m - 1]);
                // v is marked and no longer queued, so it cannot be
                // visited again
                if queue2.contains(res2[m - 1]) {
                    let j = choose|j: int| 0 <= j < queue2.len() && queue2[j] == res2[m - 1];
                    if j < rest.len() {
                        if rest[j] == v {
                            if fifo {
                                assert(queue[j + 1] == queue[0]);
                            } else {
                                assert(queue[j] == queue[queue.len() - 1]);
                            }
                            assert(false);
                        }
                    } else {
                        assert(!visited.contains(fr[j - rest.len()]));
                        assert(visited.contains(v));
                    }
                } else {
                    assert(!vis2.contains(res2[m - 1]));
                    assert(vis2.contains(v));
                }
            }
        }
    }
}

/// The last position of a path whose vertex is the dequeued one or still
/// queued.
proof fn lemma_last_index_in(p: Seq<u64>, queue2: Seq<u64>, v: u64) -> (k: int)
    requires
        p.len() > 0,
        p[0] == v || queue2.contains(p[0]),
    ensures
        0 <= k < p.len(),
        p[k] == v || queue2.contains(p[k]),
        forall|j: int| k < j < p.len() ==> !((#[trigger] p[j]) == v || queue2.contains(p[j])),
    decreases p.len(),
{
    if p.last() == v || queue2.contains(p.last()) {
        p.len() - 1
    } else {
        let q = p.drop_last();
        assert(q[0] == p[0]);
        let k = lemma_last_index_in(q, queue2, v);
        assert(q[k] == p[k]);
        assert forall|j: int| k < j < p.len() implies !((#[trigger] p[j]) == v
            || queue2.contains(p[j])) by {
            if j < p.len() - 1 {
                assert(q[j] == p[j]);
            }
        }
        k
    }
}

/// Traversal completeness for the engine's recursion: a vertex at the end
/// of a path that starts in the queue and stays off the visited set is
/// eventually dequeued.
#[verifier::rlimit(100)]
#[verifier::spinoff_prover]
proof fn lemma_search_rec_complete(
    rows: Seq<RowV>,
    queue: Seq<u64>,
    visited: Set<u64>,
    fifo: bool,
    w: u64,
    p: Seq<u64>,
)
    requires
        graph_wf(rows),
        visited.finite(),
        queue_ok(rows, queue),
        forall|n: int| 0 <= n < queue.len() ==> visited.contains(#[trigger] queue[n]),
        is_path(rows, p),
        queue.contains(p[0]),
        p.last() == w,
        forall|k: int| 1 <= k < p.len() ==> !visited.contains(#[trigger] p[k]),
    ensures
        search_rec(rows, queue, visited, fifo).contains(w),
    decreases ids_set(rows).difference(visited).len(), queue.len(),
{
    lemma_search_step(rows, queue, visited, fifo);
    let v = if fifo {
        queue[0]
    } else {
        queue.last()
    };
    let rest = if fifo {
        queue.drop_first()
    } else {
        queue.drop_last()
    };
    let eds = edges_of(rows, v);
    lemma_step_frontier(eds, visited);
    let fr = step_frontier(eds, visited).0;
    let vis2 = step_frontier(eds, visited).1;
    let queue2 = rest + fr;
    let res = search_rec(rows, queue, visited, fifo);
    let res2 = search_rec(rows, queue2, vis2, fifo);
    assert(res == seq![v] + res2);
    if w == v {
        assert(res[0] == w);
    } else {
        assert forall|n: int| 0 <= n < rest.len() implies #[trigger] rest[n] == (if fifo {
            queue[n + 1]
        } else {
            queue[n]
        }) by {}
        // the path's first vertex is the dequeued one or still queued
        assert(queue.contains(p[0]));
        let j0 = choose|j: int| 0 <= j < queue.len() && queue[j] == p[0];
        if p[0] != v {
            if fifo {
                assert(rest[j0 - 1] == p[0]);
            } else {
                assert(rest[j0] == p[0]);
            }
            assert(queue2[if fifo {
                j0 - 1
            } else {
                j0
            }] == p[0]);
            assert(queue2.contains(p[0]));
        }
        let k = lemma_last_index_in(p, queue2, v);
        if p[k] == v {
            // the next path vertex is an unvisited target of the dequeued
            // vertex, so it was just enqueued: the cut was not last
            assert(k < p.len() - 1);
            assert(edge_to(rows, p[k], p[k + 1]));
            assert(has_edge_dest(eds, p[k + 1]));
            assert(!visited.contains(p[k + 1]));
            assert(vis2.contains(p[k + 1]));
            assert(fr.contains(p[k + 1]));
            let jf = choose|j: int| 0 <= j < fr.len() && fr[j] == p[k + 1];
            assert(queue2[rest.len() + jf] == p[k + 1]);
            assert(queue2.contains(p[k + 1]));
            assert(false);
        }
        // recurse on the path's suffix from its last queued vertex
        let p2 = p.subrange(k, p.len() as int);
        assert(p2[0] == p[k]);
        assert(p2.last() == w);
        assert forall|m: int| 0 <= m < p2.len() - 1 implies edge_to(
            rows,
            #[trigger] p2[m],
            p2[m + 1],
        ) by {
            assert(p2[m] == p[k + m]);
            assert(p2[m + 1] == p[k + m + 1]);
        }
        assert(queue_ok(rows, queue2));
        assert(has_id(rows, p2[0]));
        assert(is_path(rows, p2));
        assert forall|m: int| 1 <= m < p2.len() implies !vis2.contains(#[trigger] p2[m]) by {
            assert(p2[m] == p[k + m]);
            assert(!(p[k + m] == v || queue2.contains(p[k + m])));
            if vis2.contains(p[k + m]) {
                assert(visited.contains(p[k + m]) || fr.contains(p[k + m]));
                if k + m >= 1 {
                    assert(!visited.contains(p[k + m]));
                }
                if fr.contains(p[k + m]) {
                    let jf = choose|j: int| 0 <= j < fr.len() && fr[j] == p[k + m];
                    assert(queue2[rest.len() + jf] == p[k + m]);
                    assert(queue2.contains(p[k + m]));
                }
                assert(false);
            }
        }
        assert forall|n: int| 0 <= n < queue2.len() implies vis2.contains(
            #[trigger] queue2[n],
        ) by {
            if n < rest.len() {
                assert(queue.contains(rest[n]));
                let j = choose|j: int| 0 <= j < queue.len() && queue[j] == rest[n];
                assert(visited.contains(queue[j]));
            } else {
                assert(queue2[n] == fr[n - rest.len()]);
                assert(fr.contains(fr[n - rest.len()]));
            }
        }
        lemma_search_rec_complete(rows, queue2, vis2, fifo, w, p2);
        let nw = choose|n: int| 0 <= n < res2.len() && res2[n] == w;
        assert(res[nw + 1] == w);
    }
}

/// Traversal soundness: from any source vertex of the store, both queue
/// disciplines visit only vertices reachable from the source, and visit
/// no vertex twice.
pub proof fn lemma_traversal_visits_reachable_once(rows: Seq<RowV>, src: u64, fifo: bool)
    requires
        graph_wf(rows),
        has_id(rows, src),
    ensures
        forall|n: int| 0 <= n < search_rec(rows, seq![src], Set::empty().insert(src), fifo).len()
            ==> reachable(
            rows,
            src,
            #[trigger] search_rec(rows, seq![src], Set::empty().insert(src), fifo)[n],
        ),
        forall|n: int, m: int|
            0 <= n < m < search_rec(rows, seq![src], Set::empty().insert(src), fifo).len() ==> (
            #[trigger] search_rec(rows, seq![src], Set::empty().insert(src), fifo)[n]) != (
            #[trigger] search_rec(rows, seq![src], Set::empty().insert(src), fifo)[m]),
        forall|w: u64| #[trigger] reachable(rows, src, w) ==> search_rec(
            rows,
            seq![src],
            Set::empty().insert(src),
            fifo,
        ).contains(w),
{
    let p0 = seq![src];
    assert(is_path(rows, p0) && p0[0] == src && p0.last() == src);
    assert(reachable(rows, src, src));
    assert(seq![src][0] == src);
    lemma_search_rec_sound(rows, seq![src], Set::empty().insert(src), fifo, src);
    assert forall|w: u64| #[trigger] reachable(rows, src, w) implies search_rec(
        rows,
        seq![src],
        Set::empty().insert(src),
        fifo,
    ).contains(w) by {
        let p = choose|p: Seq<u64>| is_path(rows, p) && p[0] == src && p.last() == w;
        // cut the path at its last visit of the source, so that its inner
        // vertices avoid the starting visited set
        let k = lemma_last_index_in(p, seq![src], src);
        assert(p[k] == src || seq![src].contains(p[k]));
        assert(seq![src][0] == src);
        assert(p[k] == src);
        let p2 = p.subrange(k, p.len() as int);
        assert(p2[0] == src);
        assert(p2.last() == w);
        assert forall|m: int| 0 <= m < p2.len() - 1 implies edge_to(
            rows,
            #[trigger] p2[m],
            p2[m + 1],
        ) by {
            assert(p2[m] == p[k + m]);
            assert(p2[m + 1] == p[k + m + 1]);
        }
        assert(is_path(rows, p2));
        assert(seq![src].contains(p2[0]));
        assert forall|m: int| 1 <= m < p2.len() implies !Set::empty().insert(src).contains(
            #[trigger] p2[m],
        ) by {
            assert(p2[m] == p[k + m]);
            assert(!(p[k + m] == src || seq![src].contains(p[k + m])));
        }
        lemma_search_rec_complete(rows, seq![src], Set::empty().insert(src), fifo, w, p2);
    }
}

/// Which traversal a caller asks for.
#[derive(Debug, Clone, Copy, PartialEq, Eq, Structural)]
pub enum AlgorithmType {
    BreadthFirstSearch,
    DepthFirstSearch,
}

/// Whether two strings hold the same characters.
fn str_eq(a: &str, b: &str) -> (r: bool)
    ensures
        r == (a@ == b@),
{
    let na = a.unicode_len();
    let nb = b.unicode_len();
    if na != nb {
        return false;
    }
    let mut i: usize = 0;
    while i < na
        invariant
            i <= na,
            na == a@.len(),
            na == b@.len(),
            forall|j: int| 0 <= j < i ==> a@[j] == b@[j],
        decreases na - i,
    {
        if a.get_char(i) != b.get_char(i) {
            return false;
        }
        i = i + 1;
    }
    proof {
        assert(a@ =~= b@);
    }
    true
}

/// Chooses a traversal from its textual name: `bfs` or `BFS` for
/// breadth-first, `dfs` or `DFS` for depth-first; anything else is
/// rejected with a message.
pub fn parse_algorithm(value: &str) -> (r: Result<AlgorithmType, String>)
    ensures
        match r {
            Ok(a) => ((a == AlgorithmType::BreadthFirstSearch) <==> (value@ == "BFS"@ || value@
                == "bfs"@)) && ((a == AlgorithmType::DepthFirstSearch) <==> (value@ == "DFS"@
                || value@ == "dfs"@)),
            Err(_) => !(value@ == "BFS"@ || value@ == "bfs"@ || value@ == "DFS"@ || value@
                == "dfs"@),
        },
{
    proof {
        reveal_strlit("BFS");
        reveal_strlit("bfs");
        reveal_strlit("DFS");
        reveal_strlit("dfs");
        assert("BFS"@[0] == 'B' && "bfs"@[0] == 'b' && "DFS"@[0] == 'D' && "dfs"@[0] == 'd');
    }
    if str_eq(value, "BFS") || str_eq(value, "bfs") {
        Ok(AlgorithmType::BreadthFirstSearch)
    } else if str_eq(value, "DFS") || str_eq(value, "dfs") {
        Ok(AlgorithmType::DepthFirstSearch)
    } else {
        Err(String::from_str("unknown algorithm type, only bfs and dfs is available"))
    }
}

} // verus!
