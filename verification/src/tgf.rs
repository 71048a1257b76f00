use vstd::prelude::*;
use vstd::string::StrSliceExecFns;
use vstd::string::StringExecFns;

use crate::error::{GraphOperationError, ParseGraphError};
use crate::graph::{
    add_edge_model, edge_list_wf, graph_wf, has_id, row_index, EdgeV, Graph, RowV, VertexId,
};
use crate::ident::fnv_hash;
use crate::text::{
    dec_digits, dec_string, is_uint_token, parse_index, parse_label, skip_ws, skip_ws_exec,
    spec_lines, split_lines, token_end, token_end_exec, uint_val,
};

verus! {

/// One vertex line of the Trivial Graph Format: the 1-based number, one
/// space, the label, a newline.
pub open spec fn vertex_line(num: nat, label: Seq<char>) -> Seq<char> {
    dec_digits(num) + seq![' '] + label + seq!['\n']
}

/// The vertex section: one line per vertex, in insertion order, numbered
/// from one.
pub open spec fn render_vertices(rows: Seq<RowV>) -> Seq<char>
    decreases rows.len(),
{
    if rows.len() == 0 {
        Seq::empty()
    } else {
        render_vertices(rows.drop_last()) + vertex_line(rows.len() as nat, rows.last().label)
    }
}

/// One edge line: the endpoints' assigned numbers and the label.
pub open spec fn edge_line(rows: Seq<RowV>, e: EdgeV) -> Seq<char> {
    dec_digits((row_index(rows, e.from) + 1) as nat) + seq![' '] + dec_digits(
        (row_index(rows, e.to) + 1) as nat,
    ) + seq![' '] + e.label + seq!['\n']
}

/// The edge lines of one vertex's outgoing list, in insertion order.
pub open spec fn render_edge_list(rows: Seq<RowV>, edges: Seq<EdgeV>) -> Seq<char>
    decreases edges.len(),
{
    if edges.len() == 0 {
        Seq::empty()
    } else {
        render_edge_list(rows, edges.drop_last()) + edge_line(rows, edges.last())
    }
}

/// The edge section of a prefix of the store's rows.
pub open spec fn render_edge_rows(all: Seq<RowV>, rows: Seq<RowV>) -> Seq<char>
    decreases rows.len(),
{
    if rows.len() == 0 {
        Seq::empty()
    } else {
        render_edge_rows(all, rows.drop_last()) + render_edge_list(all, rows.last().edges)
    }
}

/// The whole Trivial Graph Format document of a store: the vertex
/// section, the `#` separator line, the edge section.
pub open spec fn render_tgf(rows: Seq<RowV>) -> Seq<char> {
    render_vertices(rows) + seq!['#', '\n'] + render_edge_rows(rows, rows)
}

/// The parser's running state: which section it is in, the table from
/// external index to derived vertex id, and the store built so far.
#[verifier::ext_equal]
pub ghost struct ParseSt {
    pub edge_mode: bool,
    pub table: Map<int, u64>,
    pub rows: Seq<RowV>,
}

/// The parser's starting state.
pub open spec fn init_parse_st() -> ParseSt {
    ParseSt { edge_mode: false, table: Map::empty(), rows: Seq::empty() }
}

/// One vertex-definition line: index token, then the rest of the line
/// (after one whitespace run) as the label.
pub open spec fn parse_vertex_line(st: ParseSt, line: Seq<char>, n: nat) -> Result<
    ParseSt,
    ParseGraphError,
> {
    let a = skip_ws(line, 0);
    if a == line.len() {
        Err(ParseGraphError::VertexDefinition(n as usize))
    } else {
        let b = token_end(line, a);
        let tok = line.subrange(a, b);
        if !is_uint_token(tok) || uint_val(tok) > usize::MAX {
            Err(ParseGraphError::ParseInt(n as usize))
        } else {
            let idx = uint_val(tok) as int;
            let label = line.subrange(skip_ws(line, b), line.len() as int);
            let id = fnv_hash(label);
            if has_id(st.rows, id) {
                Err(ParseGraphError::GraphError(GraphOperationError::VertexAlreadyExists, n as usize))
            } else if st.table.dom().contains(idx) {
                Err(ParseGraphError::VertexAlreadyDefined(uint_val(tok) as usize, n as usize))
            } else {
                Ok(ParseSt {
                    edge_mode: st.edge_mode,
                    table: st.table.insert(idx, id),
                    rows: st.rows.push(RowV { id, label, edges: Seq::empty() }),
                })
            }
        }
    }
}

/// One edge-definition line: two index tokens, then the rest of the line
/// (after one whitespace run) as the label.
pub open spec fn parse_edge_line(st: ParseSt, line: Seq<char>, n: nat) -> Result<
    ParseSt,
    ParseGraphError,
> {
    let a = skip_ws(line, 0);
    let b = token_end(line, a);
    let c = skip_ws(line, b);
    let d = token_end(line, c);
    if a == line.len() || c == line.len() {
        Err(ParseGraphError::EdgeDefinition(n as usize))
    } else {
        let t1 = line.subrange(a, b);
        let t2 = line.subrange(c, d);
        if !is_uint_token(t1) || uint_val(t1) > usize::MAX || !is_uint_token(t2) || uint_val(t2)
            > usize::MAX {
            Err(ParseGraphError::ParseInt(n as usize))
        } else {
            let fi = uint_val(t1) as int;
            let ti = uint_val(t2) as int;
            let label = line.subrange(skip_ws(line, d), line.len() as int);
            if !(st.table.dom().contains(fi) && st.table.dom().contains(ti)) {
                Err(ParseGraphError::VerticesNotDefined(
                    uint_val(t1) as usize,
                    uint_val(t2) as usize,
                    n as usize,
                ))
            } else {
                let fid = st.table[fi];
                let tid = st.table[ti];
                if !(has_id(st.rows, fid) && has_id(st.rows, tid)) {
                    Err(ParseGraphError::GraphError(
                        GraphOperationError::VertexDoesNotExist,
                        n as usize,
                    ))
                } else {
                    Ok(ParseSt {
                        edge_mode: st.edge_mode,
                        table: st.table,
                        rows: add_edge_model(st.rows, fid, tid, label),
                    })
                }
            }
        }
    }
}

/// One line of a TGF document: a line whose first character is `#`
/// switches to the edge section and is otherwise not interpreted.
pub open spec fn parse_line_spec(st: ParseSt, line: Seq<char>, n: nat) -> Result<
    ParseSt,
    ParseGraphError,
> {
    if line.len() > 0 && line[0] == '#' {
        Ok(ParseSt { edge_mode: true, table: st.table, rows: st.rows })
    } else if st.edge_mode {
        parse_edge_line(st, line, n)
    } else {
        parse_vertex_line(st, line, n)
    }
}

/// A TGF document line by line, `n` the 1-based number of the first
/// line. Parsing stops at the first error.
pub open spec fn parse_lines_spec(st: ParseSt, lines: Seq<Seq<char>>, n: nat) -> Result<
    ParseSt,
    ParseGraphError,
>
    decreases lines.len(),
{
    if lines.len() == 0 {
        Ok(st)
    } else {
        match parse_line_spec(st, lines[0], n) {
            Ok(st2) => parse_lines_spec(st2, lines.drop_first(), n + 1),
            Err(e) => Err(e),
        }
    }
}

/// What parsing a whole TGF document yields: the store's rows, or the
/// first error.
pub open spec fn parse_tgf_spec(s: Seq<char>) -> Result<Seq<RowV>, ParseGraphError> {
    match parse_lines_spec(init_parse_st(), spec_lines(s), 1) {
        Ok(st) => Ok(st.rows),
        Err(e) => Err(e),
    }
}

/// A label that the text format can carry and give back unchanged: no
/// line break inside it, and no leading whitespace (the parser folds the
/// whitespace run after the index token into the separator).
pub open spec fn tgf_clean_label(label: Seq<char>) -> bool {
    &&& forall|i: int| 0 <= i < label.len() ==> (#[trigger] label[i]) != '\n' && label[i] != '\r'
    &&& label.len() > 0 ==> !crate::text::is_ws(label[0])
}

/// One vertex round-trips through its rendered line: parsing the line the
/// serializer writes for a fresh vertex adds exactly that vertex, under
/// exactly its rendered index. This is the vertex-section half of the
/// serialize-then-parse law, one record at a time.
pub proof fn lemma_vertex_line_round_trip(st: ParseSt, label: Seq<char>, num: nat, n: nat)
    requires
        tgf_clean_label(label),
        1 <= num <= usize::MAX,
        !has_id(st.rows, fnv_hash(label)),
        !st.table.dom().contains(num as int),
    ensures
        parse_vertex_line(st, dec_digits(num) + seq![' '] + label, n) == Ok::<
            ParseSt,
            ParseGraphError,
        >(
            ParseSt {
                edge_mode: st.edge_mode,
                table: st.table.insert(num as int, fnv_hash(label)),
                rows: st.rows.push(
                    RowV { id: fnv_hash(label), label, edges: Seq::<EdgeV>::empty() },
                ),
            },
        ),
{
    let digits = dec_digits(num);
    let line = digits + seq![' '] + label;
    crate::text::lemma_dec_digits_value(num);
    let dlen = digits.len() as int;
    assert(line[dlen] == ' ');
    assert forall|j: int| 0 <= j < dlen implies !crate::text::is_ws(#[trigger] line[j]) by {
        assert(line[j] == digits[j]);
        assert(crate::text::is_digit(digits[j]));
    }
    assert(!crate::text::is_ws(line[0]));
    crate::text::lemma_skip_ws_found(line, 0, 0);
    crate::text::lemma_token_end_found(line, 0, dlen);
    let tok = line.subrange(0, dlen);
    assert(tok =~= digits);
    assert(crate::text::is_digit(tok[0]));
    assert(tok[0] != '+');
    assert(is_uint_token(tok));
    assert(uint_val(tok) == num);
    if label.len() > 0 {
        assert(line[dlen + 1] == label[0]);
        assert(!crate::text::is_ws(line[dlen + 1]));
        crate::text::lemma_skip_ws_found(line, dlen, dlen + 1);
    } else {
        crate::text::lemma_skip_ws_found(line, dlen, dlen + 1);
    }
    assert(line.subrange(dlen + 1, line.len() as int) =~= label);
}

/// One edge round-trips through its rendered line: parsing the line the
/// serializer writes for an edge adds exactly that edge between the
/// vertices its two indices name. This is the edge-section half of the
/// serialize-then-parse law, one record at a time.
pub proof fn lemma_edge_line_round_trip(st: ParseSt, label: Seq<char>, f: nat, t: nat, n: nat)
    requires
        tgf_clean_label(label),
        1 <= f <= usize::MAX,
        1 <= t <= usize::MAX,
        st.table.dom().contains(f as int),
        st.table.dom().contains(t as int),
        has_id(st.rows, st.table[f as int]),
        has_id(st.rows, st.table[t as int]),
    ensures
        parse_edge_line(
            st,
            dec_digits(f) + seq![' '] + dec_digits(t) + seq![' '] + label,
            n,
        ) == Ok::<ParseSt, ParseGraphError>(
            ParseSt {
                edge_mode: st.edge_mode,
                table: st.table,
                rows: add_edge_model(st.rows, st.table[f as int], st.table[t as int], label),
            },
        ),
{
    let d1 = dec_digits(f);
    let d2 = dec_digits(t);
    let line = d1 + seq![' '] + d2 + seq![' '] + label;
    crate::text::lemma_dec_digits_value(f);
    crate::text::lemma_dec_digits_value(t);
    let l1 = d1.len() as int;
    let l2 = d2.len() as int;
    assert(line[l1] == ' ');
    assert(line[l1 + 1 + l2] == ' ');
    assert forall|j: int| 0 <= j < l1 implies !crate::text::is_ws(#[trigger] line[j]) by {
        assert(line[j] == d1[j]);
        assert(crate::text::is_digit(d1[j]));
    }
    assert forall|j: int| l1 + 1 <= j < l1 + 1 + l2 implies !crate::text::is_ws(
        #[trigger] line[j],
    ) by {
        assert(line[j] == d2[j - l1 - 1]);
        assert(crate::text::is_digit(d2[j - l1 - 1]));
    }
    crate::text::lemma_skip_ws_found(line, 0, 0);
    crate::text::lemma_token_end_found(line, 0, l1);
    crate::text::lemma_skip_ws_found(line, l1, l1 + 1);
    crate::text::lemma_token_end_found(line, l1 + 1, l1 + 1 + l2);
    if label.len() > 0 {
        assert(line[l1 + 1 + l2 + 1] == label[0]);
        assert(!crate::text::is_ws(line[l1 + 1 + l2 + 1]));
        crate::text::lemma_skip_ws_found(line, l1 + 1 + l2, l1 + 1 + l2 + 1);
    } else {
        crate::text::lemma_skip_ws_found(line, l1 + 1 + l2, l1 + 1 + l2 + 1);
    }
    let t1 = line.subrange(0, l1);
    let t2 = line.subrange(l1 + 1, l1 + 1 + l2);
    assert(t1 =~= d1);
    assert(t2 =~= d2);
    assert(t1[0] != '+');
    assert(t2[0] != '+');
    assert(is_uint_token(t1) && uint_val(t1) == f);
    assert(is_uint_token(t2) && uint_val(t2) == t);
    assert(line.subrange(l1 + 1 + l2 + 1, line.len() as int) =~= label);
}

/// Whether every vertex and edge label of the store round-trips through
/// the text format.
pub open spec fn clean_labels(rows: Seq<RowV>) -> bool {
    &&& forall|i: int| 0 <= i < rows.len() ==> tgf_clean_label((#[trigger] rows[i]).label)
    &&& forall|i: int, k: int| 0 <= i < rows.len() && 0 <= k < rows[i].edges.len()
        ==> tgf_clean_label((#[trigger] rows[i].edges[k]).label)
}

/// Whether a line's content can sit between two newlines and come back
/// unchanged from the line splitter.
pub open spec fn clean_line(content: Seq<char>) -> bool {
    forall|i: int| 0 <= i < content.len() ==> (#[trigger] content[i]) != '\n' && content[i] != '\r'
}

/// The contents of the vertex-section lines, in order.
pub open spec fn vline_contents(rows: Seq<RowV>) -> Seq<Seq<char>>
    decreases rows.len(),
{
    if rows.len() == 0 {
        Seq::empty()
    } else {
        vline_contents(rows.drop_last()).push(
            dec_digits(rows.len() as nat) + seq![' '] + rows.last().label,
        )
    }
}

/// The content of one edge line.
pub open spec fn eline_content(all: Seq<RowV>, e: EdgeV) -> Seq<char> {
    dec_digits((row_index(all, e.from) + 1) as nat) + seq![' '] + dec_digits(
        (row_index(all, e.to) + 1) as nat,
    ) + seq![' '] + e.label
}

/// The contents of one vertex's edge lines, in order.
pub open spec fn eline_list(all: Seq<RowV>, edges: Seq<EdgeV>) -> Seq<Seq<char>>
    decreases edges.len(),
{
    if edges.len() == 0 {
        Seq::empty()
    } else {
        eline_list(all, edges.drop_last()).push(eline_content(all, edges.last()))
    }
}

/// The contents of the edge-section lines of a prefix of the rows.
pub open spec fn eline_contents(all: Seq<RowV>, rows: Seq<RowV>) -> Seq<Seq<char>>
    decreases rows.len(),
{
    if rows.len() == 0 {
        Seq::empty()
    } else {
        eline_contents(all, rows.drop_last()) + eline_list(all, rows.last().edges)
    }
}

/// Splitting one framed line off a text: a newline-free content followed
/// by a newline is one line, and the rest splits on its own.
pub proof fn lemma_split_line(content: Seq<char>, rest: Seq<char>)
    requires
        clean_line(content),
    ensures
        spec_lines(content + seq!['\n'] + rest) == seq![content] + spec_lines(rest),
{
    let s = content + seq!['\n'] + rest;
    let clen = content.len() as int;
    assert(s[clen] == '\n');
    assert forall|j: int| 0 <= j < clen implies s[j] != '\n' by {
        assert(s[j] == content[j]);
    }
    crate::text::lemma_first_nl_found(s, clen);
    assert(s.subrange(0, clen) =~= content);
    assert(crate::text::strip_cr(content) == content);
    assert(s.subrange(clen + 1, s.len() as int) =~= rest);
    assert(spec_lines(s) =~= seq![content] + spec_lines(rest));
}

/// The vertex section splits into one line per vertex, whatever follows.
pub proof fn lemma_render_vertices_lines(rows: Seq<RowV>, tail: Seq<char>)
    requires
        forall|i: int| 0 <= i < rows.len() ==> clean_line((#[trigger] rows[i]).label),
    ensures
        spec_lines(render_vertices(rows) + tail) == vline_contents(rows) + spec_lines(tail),
    decreases rows.len(),
{
    if rows.len() == 0 {
        assert(render_vertices(rows) + tail =~= tail);
        assert(vline_contents(rows) + spec_lines(tail) =~= spec_lines(tail));
    } else {
        let prev = rows.drop_last();
        let content = dec_digits(rows.len() as nat) + seq![' '] + rows.last().label;
        crate::text::lemma_dec_digits_value(rows.len() as nat);
        assert forall|j: int| 0 <= j < content.len() implies (#[trigger] content[j]) != '\n'
            && content[j] != '\r' by {
            let digits = dec_digits(rows.len() as nat);
            if j < digits.len() {
                assert(content[j] == digits[j]);
                assert(crate::text::is_digit(digits[j]));
            } else if j == digits.len() {
                assert(content[j] == ' ');
            } else {
                assert(content[j] == rows.last().label[j - digits.len() - 1]);
                assert(rows[rows.len() - 1] == rows.last());
            }
        }
        let tail2 = content + seq!['\n'] + tail;
        assert forall|i: int| 0 <= i < prev.len() implies clean_line(
            (#[trigger] prev[i]).label,
        ) by {
            assert(prev[i] == rows[i]);
        }
        lemma_render_vertices_lines(prev, tail2);
        assert(render_vertices(rows) + tail =~= render_vertices(prev) + tail2);
        lemma_split_line(content, tail);
        assert(vline_contents(prev) + (seq![content] + spec_lines(tail)) =~= vline_contents(rows)
            + spec_lines(tail));
    }
}

/// One vertex's edge lines split into one line per edge.
pub proof fn lemma_render_edge_list_lines(all: Seq<RowV>, edges: Seq<EdgeV>, tail: Seq<char>)
    requires
        forall|k: int| 0 <= k < edges.len() ==> clean_line((#[trigger] edges[k]).label),
    ensures
        spec_lines(render_edge_list(all, edges) + tail) == eline_list(all, edges) + spec_lines(
            tail,
        ),
    decreases edges.len(),
{
    if edges.len() == 0 {
        assert(render_edge_list(all, edges) + tail =~= tail);
        assert(eline_list(all, edges) + spec_lines(tail) =~= spec_lines(tail));
    } else {
        let prev = edges.drop_last();
        let e = edges.last();
        let content = eline_content(all, e);
        let d1 = dec_digits((row_index(all, e.from) + 1) as nat);
        let d2 = dec_digits((row_index(all, e.to) + 1) as nat);
        crate::graph::lemma_row_index(all, e.from);
        crate::graph::lemma_row_index(all, e.to);
        crate::text::lemma_dec_digits_value((row_index(all, e.from) + 1) as nat);
        crate::text::lemma_dec_digits_value((row_index(all, e.to) + 1) as nat);
        assert(edges[edges.len() - 1] == e);
        assert forall|j: int| 0 <= j < content.len() implies (#[trigger] content[j]) != '\n'
            && content[j] != '\r' by {
            let l1 = d1.len() as int;
            let l2 = d2.len() as int;
            if j < l1 {
                assert(content[j] == d1[j]);
                assert(crate::text::is_digit(d1[j]));
            } else if j == l1 {
                assert(content[j] == ' ');
            } else if j < l1 + 1 + l2 {
                assert(content[j] == d2[j - l1 - 1]);
                assert(crate::text::is_digit(d2[j - l1 - 1]));
            } else if j == l1 + 1 + l2 {
                assert(content[j] == ' ');
            } else {
                assert(content[j] == e.label[j - l1 - l2 - 2]);
            }
        }
        let tail2 = content + seq!['\n'] + tail;
        assert forall|k: int| 0 <= k < prev.len() implies clean_line(
            (#[trigger] prev[k]).label,
        ) by {
            assert(prev[k] == edges[k]);
        }
        lemma_render_edge_list_lines(all, prev, tail2);
        assert(render_edge_list(all, edges) + tail =~= render_edge_list(all, prev) + tail2);
        assert(edge_line(all, e) =~= content + seq!['\n']);
        lemma_split_line(content, tail);
        assert(eline_list(all, prev) + (seq![content] + spec_lines(tail)) =~= eline_list(
            all,
            edges,
        ) + spec_lines(tail));
    }
}

/// The edge section splits into one line per edge, row by row.
pub proof fn lemma_render_edge_rows_lines(all: Seq<RowV>, rows: Seq<RowV>, tail: Seq<char>)
    requires
        forall|i: int, k: int| 0 <= i < rows.len() && 0 <= k < rows[i].edges.len()
            ==> clean_line((#[trigger] rows[i].edges[k]).label),
    ensures
        spec_lines(render_edge_rows(all, rows) + tail) == eline_contents(all, rows) + spec_lines(
            tail,
        ),
    decreases rows.len(),
{
    if rows.len() == 0 {
        assert(render_edge_rows(all, rows) + tail =~= tail);
        assert(eline_contents(all, rows) + spec_lines(tail) =~= spec_lines(tail));
    } else {
        let prev = rows.drop_last();
        let eds = rows.last().edges;
        assert(rows[rows.len() - 1] == rows.last());
        let tail2 = render_edge_list(all, eds) + tail;
        assert forall|i: int, k: int| 0 <= i < prev.len() && 0 <= k < prev[i].edges.len() implies
            clean_line((#[trigger] prev[i].edges[k]).label) by {
            assert(prev[i] == rows[i]);
        }
        lemma_render_edge_rows_lines(all, prev, tail2);
        assert(render_edge_rows(all, rows) + tail =~= render_edge_rows(all, prev) + tail2);
        assert forall|k: int| 0 <= k < eds.len() implies clean_line((#[trigger] eds[k]).label) by {
        }
        lemma_render_edge_list_lines(all, eds, tail);
        assert(eline_contents(all, prev) + (eline_list(all, eds) + spec_lines(tail))
            =~= eline_contents(all, rows) + spec_lines(tail));
    }
}

/// The serializer frames its output faithfully: the rendered document
/// splits back into exactly one line per vertex, the separator, and one
/// line per edge, each line holding its record's rendered content.
pub proof fn lemma_render_tgf_lines(rows: Seq<RowV>)
    requires
        clean_labels(rows),
    ensures
        spec_lines(render_tgf(rows)) == vline_contents(rows) + seq![seq!['#']] + eline_contents(
            rows,
            rows,
        ),
{
    let sep_tail = seq!['#', '\n'] + render_edge_rows(rows, rows);
    assert(render_tgf(rows) =~= render_vertices(rows) + sep_tail);
    lemma_render_vertices_lines(rows, sep_tail);
    let sep: Seq<char> = seq!['#'];
    assert(sep_tail =~= sep + seq!['\n'] + render_edge_rows(rows, rows));
    lemma_split_line(sep, render_edge_rows(rows, rows));
    assert(render_edge_rows(rows, rows) =~= render_edge_rows(rows, rows) + Seq::<char>::empty());
    lemma_render_edge_rows_lines(rows, rows, Seq::<char>::empty());
    assert(spec_lines(Seq::<char>::empty()) =~= Seq::<Seq<char>>::empty());
    assert(eline_contents(rows, rows) + Seq::<Seq<char>>::empty() =~= eline_contents(rows, rows));
    assert(vline_contents(rows) + (seq![sep] + (eline_contents(rows, rows))) =~= vline_contents(
        rows,
    ) + seq![seq!['#']] + eline_contents(rows, rows));
    assert(spec_lines(render_tgf(rows)) =~= vline_contents(rows) + seq![seq!['#']]
        + eline_contents(rows, rows));
}

/// The mathematical value of the parser's index table.
pub open spec fn table_model(t: Seq<(usize, VertexId)>) -> Map<int, u64>
    decreases t.len(),
{
    if t.len() == 0 {
        Map::empty()
    } else {
        table_model(t.drop_last()).insert(t.last().0 as int, t.last().1@)
    }
}

/// Looks an external index up in the table, newest entry first.
fn table_get(t: &Vec<(usize, VertexId)>, idx: usize) -> (r: Option<VertexId>)
    ensures
        match r {
            Some(v) => table_model(t@).dom().contains(idx as int) && table_model(t@)[idx as int]
                == v@,
            None => !table_model(t@).dom().contains(idx as int),
        },
{
    let mut k: usize = t.len();
    proof {
        assert(t@.subrange(0, k as int) =~= t@);
    }
    while k > 0
        invariant
            k <= t@.len(),
            table_model(t@.subrange(0, k as int)).dom().contains(idx as int) ==> table_model(
                t@,
            ).dom().contains(idx as int) && table_model(t@)[idx as int] == table_model(
                t@.subrange(0, k as int),
            )[idx as int],
            !table_model(t@.subrange(0, k as int)).dom().contains(idx as int) ==> !table_model(
                t@,
            ).dom().contains(idx as int),
        decreases k,
    {
        let ghost pre = t@.subrange(0, k as int);
        proof {
            assert(pre.drop_last() =~= t@.subrange(0, k - 1));
            assert(pre.last() == t@[k - 1]);
        }
        k = k - 1;
        let entry = t[k];
        if entry.0 == idx {
            proof {
                assert(table_model(pre)[idx as int] == entry.1@);
            }
            return Some(entry.1);
        }
    }
    proof {
        assert(t@.subrange(0, 0) =~= Seq::<(usize, VertexId)>::empty());
    }
    None
}

impl Graph {
    /// Parses a Trivial Graph Format document into a graph. Parsing
    /// aborts at the first error, each error carrying the 1-based line
    /// number of the offending line.
    #[verifier::rlimit(100)]
    #[verifier::spinoff_prover]
    pub fn from_tgf(s: &str) -> (r: Result<Graph, ParseGraphError>)
        ensures
            match r {
                Ok(g) => g.wf() && parse_tgf_spec(s@) == Ok::<Seq<RowV>, ParseGraphError>(g@),
                Err(e) => parse_tgf_spec(s@) == Err::<Seq<RowV>, ParseGraphError>(e),
            },
    {
        let ghost all = spec_lines(s@);
        let lines = split_lines(s);
        let mut graph = Graph::new();
        let mut table: Vec<(usize, VertexId)> = Vec::new();
        let mut edge_mode = false;
        let nl = lines.len();
        let mut i: usize = 0;
        proof {
            assert(all.subrange(0, all.len() as int) =~= all);
            assert(table_model(table@) =~= Map::<int, u64>::empty());
            assert(init_parse_st() =~~= (ParseSt {
                edge_mode: edge_mode,
                table: table_model(table@),
                rows: graph@,
            }));
        }
        while i < nl
            invariant
                graph.wf(),
                nl == lines@.len(),
                i <= nl,
                all == spec_lines(s@),
                lines.deep_view() == all,
                parse_lines_spec(init_parse_st(), all, 1) == parse_lines_spec(
                    ParseSt { edge_mode: edge_mode, table: table_model(table@), rows: graph@ },
                    all.subrange(i as int, nl as int),
                    (i + 1) as nat,
                ),
            decreases nl - i,
        {
            let ghost st = ParseSt {
                edge_mode: edge_mode,
                table: table_model(table@),
                rows: graph@,
            };
            let ghost rem = all.subrange(i as int, nl as int);
            let ghost lv = all[i as int];
            proof {
                assert(rem[0] == lv);
                assert(rem.drop_first() =~= all.subrange(i + 1, nl as int));
                assert(lines.deep_view()[i as int] == lines@[i as int]@);
                assert forall|e: ParseGraphError|
                    parse_line_spec(st, lv, (i + 1) as nat) == Err::<ParseSt, ParseGraphError>(
                        e,
                    ) implies parse_tgf_spec(s@) == Err::<Seq<RowV>, ParseGraphError>(e) by {
                    assert(parse_lines_spec(st, rem, (i + 1) as nat) == Err::<
                        ParseSt,
                        ParseGraphError,
                    >(e));
                    assert(parse_lines_spec(init_parse_st(), all, 1) == parse_lines_spec(
                        st,
                        rem,
                        (i + 1) as nat,
                    ));
                    assert(all == spec_lines(s@));
                    assert(parse_lines_spec(init_parse_st(), spec_lines(s@), 1) == Err::<
                        ParseSt,
                        ParseGraphError,
                    >(e));
                }
            }
            let n_line = i + 1;
            let line = &lines[i];
            proof {
                assert(line@ == lv);
            }
            let line_len = line.as_str().unicode_len();
            if line_len > 0 && line.as_str().get_char(0) == '#' {
                edge_mode = true;
                proof {
                    assert(parse_line_spec(st, lv, n_line as nat) == Ok::<ParseSt, ParseGraphError>(
                        ParseSt { edge_mode: true, table: st.table, rows: st.rows },
                    ));
                    assert((ParseSt {
                        edge_mode: edge_mode,
                        table: table_model(table@),
                        rows: graph@,
                    }) =~~= (ParseSt { edge_mode: true, table: st.table, rows: st.rows }));
                }
            } else if !edge_mode {
                let a = skip_ws_exec(line.as_str(), 0);
                proof {
                    assert(!(lv.len() > 0 && lv[0] == '#'));
                    assert(parse_line_spec(st, lv, n_line as nat) == parse_vertex_line(
                        st,
                        lv,
                        n_line as nat,
                    ));
                }
                if a == line_len {
                    return Err(ParseGraphError::VertexDefinition(n_line));
                }
                let b = token_end_exec(line.as_str(), a);
                let tok = line.as_str().substring_char(a, b);
                let idx = match parse_index(tok, n_line) {
                    Ok(v) => v,
                    Err(e) => {
                        return Err(e);
                    },
                };
                let c = skip_ws_exec(line.as_str(), b);
                let label_str = line.as_str().substring_char(c, line_len);
                let label = match parse_label(label_str, n_line) {
                    Ok(v) => v,
                    Err(e) => {
                        proof {
                            assert(false);
                        }
                        return Err(e);
                    },
                };
                let ghost rows_before = graph@;
                let id = match graph.add_vertex(label) {
                    Ok(id) => id,
                    Err(err) => {
                        proof {
                            assert(err == GraphOperationError::VertexAlreadyExists);
                        }
                        return Err(ParseGraphError::GraphError(err, n_line));
                    },
                };
                if table_get(&table, idx).is_some() {
                    return Err(ParseGraphError::VertexAlreadyDefined(idx, n_line));
                }
                let ghost table_before = table@;
                table.push((idx, id));
                proof {
                    assert(table@.drop_last() =~= table_before);
                    assert(table@.last() == (idx, id));
                    assert(table_model(table@) =~= table_model(table_before).insert(
                        idx as int,
                        id@,
                    ));
                    assert((ParseSt {
                        edge_mode: edge_mode,
                        table: table_model(table@),
                        rows: graph@,
                    }) =~~= parse_vertex_line(st, lv, n_line as nat).unwrap());
                }
            } else {
                let a = skip_ws_exec(line.as_str(), 0);
                let b = token_end_exec(line.as_str(), a);
                let c = skip_ws_exec(line.as_str(), b);
                let d = token_end_exec(line.as_str(), c);
                proof {
                    assert(!(lv.len() > 0 && lv[0] == '#'));
                    assert(parse_line_spec(st, lv, n_line as nat) == parse_edge_line(
                        st,
                        lv,
                        n_line as nat,
                    ));
                }
                if a == line_len || c == line_len {
                    return Err(ParseGraphError::EdgeDefinition(n_line));
                }
                let t1 = line.as_str().substring_char(a, b);
                let t2 = line.as_str().substring_char(c, d);
                let fi = match parse_index(t1, n_line) {
                    Ok(v) => v,
                    Err(e) => {
                        return Err(e);
                    },
                };
                let ti = match parse_index(t2, n_line) {
                    Ok(v) => v,
                    Err(e) => {
                        return Err(e);
                    },
                };
                let e_pos = skip_ws_exec(line.as_str(), d);
                let label_str = line.as_str().substring_char(e_pos, line_len);
                let label = match parse_label(label_str, n_line) {
                    Ok(v) => v,
                    Err(e) => {
                        proof {
                            assert(false);
                        }
                        return Err(e);
                    },
                };
                let fid = table_get(&table, fi);
                let tid = table_get(&table, ti);
                let (fid, tid) = match (fid, tid) {
                    (Some(fid), Some(tid)) => (fid, tid),
                    _ => {
                        return Err(ParseGraphError::VerticesNotDefined(fi, ti, n_line));
                    },
                };
                match graph.add_edge(fid, tid, label) {
                    Ok(()) => {
                        proof {
                            assert((ParseSt {
                                edge_mode: edge_mode,
                                table: table_model(table@),
                                rows: graph@,
                            }) =~~= parse_edge_line(st, lv, n_line as nat).unwrap());
                        }
                    },
                    Err(err) => {
                        proof {
                            assert(err == GraphOperationError::VertexDoesNotExist);
                        }
                        return Err(ParseGraphError::GraphError(err, n_line));
                    },
                }
            }
            proof {
                let st2 = ParseSt { edge_mode: edge_mode, table: table_model(table@), rows: graph@ };
                assert(parse_line_spec(st, lv, (i + 1) as nat) == Ok::<ParseSt, ParseGraphError>(
                    st2,
                ));
                assert(parse_lines_spec(st, rem, (i + 1) as nat) == parse_lines_spec(
                    st2,
                    rem.drop_first(),
                    (i + 2) as nat,
                ));
            }
            i = i + 1;
        }
        proof {
            assert(all.subrange(nl as int, nl as int).len() == 0);
            assert(parse_lines_spec(init_parse_st(), all, 1) == Ok::<ParseSt, ParseGraphError>(
                ParseSt { edge_mode: edge_mode, table: table_model(table@), rows: graph@ },
            ));
        }
        Ok(graph)
    }

    /// Serializes the graph as a Trivial Graph Format document: numbered
    /// vertex lines in insertion order, a `#` separator, then one line
    /// per edge in vertex-then-edge insertion order, each endpoint named
    /// by its assigned number.
    pub fn to_tgf(&self) -> (r: String)
        requires
            self.wf(),
        ensures
            r@ == render_tgf(self@),
    {
        proof {
            reveal_strlit(" ");
            reveal_strlit("\n");
            reveal_strlit("#\n");
        }
        let mut out = String::new();
        let n = self.rows.len();
        let mut i: usize = 0;
        while i < n
            invariant
                self.wf(),
                n == self@.len(),
                i <= n,
                out@ =~= render_vertices(self@.subrange(0, i as int)),
            decreases n - i,
        {
            proof {
                reveal_strlit(" ");
                reveal_strlit("\n");
                assert(self@.subrange(0, i + 1).drop_last() =~= self@.subrange(0, i as int));
                assert(self@.subrange(0, i + 1).last() == self@[i as int]);
                assert(self@[i as int].label == self.rows@[i as int]@.label);
            }
            let num_s = dec_string(i + 1);
            out.append(num_s.as_str());
            out.append(" ");
            out.append(self.rows[i].label.as_str());
            out.append("\n");
            i = i + 1;
            proof {
                assert(out@ =~= render_vertices(self@.subrange(0, i as int)));
            }
        }
        proof {
            assert(self@.subrange(0, n as int) =~= self@);
        }
        out.append("#\n");
        let ghost header = render_vertices(self@) + seq!['#', '\n'];
        proof {
            assert(out@ =~= header);
        }
        let mut i: usize = 0;
        while i < n
            invariant
                self.wf(),
                n == self@.len(),
                i <= n,
                header == render_vertices(self@) + seq!['#', '\n'],
                out@ =~= header + render_edge_rows(self@, self@.subrange(0, i as int)),
            decreases n - i,
        {
            proof {
                assert(self@.subrange(0, i + 1).drop_last() =~= self@.subrange(0, i as int));
                assert(self@.subrange(0, i + 1).last() == self@[i as int]);
            }
            let ghost eds = self@[i as int].edges;
            proof {
                assert(eds == self.rows@[i as int]@.edges);
                assert(eds.subrange(0, 0) =~= Seq::<EdgeV>::empty());
            }
            let m = self.rows[i].edges.len();
            let mut k: usize = 0;
            while k < m
                invariant
                    self.wf(),
                    n == self@.len(),
                    i < n,
                    eds == self@[i as int].edges,
                    eds == self.rows@[i as int]@.edges,
                    m == eds.len(),
                    k <= m,
                    out@ =~= header + render_edge_rows(self@, self@.subrange(0, i as int))
                        + render_edge_list(self@, eds.subrange(0, k as int)),
                decreases m - k,
            {
                proof {
                    reveal_strlit(" ");
                    reveal_strlit("\n");
                    assert(eds.subrange(0, k + 1).drop_last() =~= eds.subrange(0, k as int));
                    assert(eds.subrange(0, k + 1).last() == eds[k as int]);
                }
                let e_from = self.rows[i].edges[k].from;
                let e_to = self.rows[i].edges[k].to;
                proof {
                    assert(eds[k as int].from == e_from@);
                    assert(eds[k as int].to == e_to@);
                    assert(edge_list_wf(self@, self@[i as int]));
                }
                let fi = match self.find_row(e_from) {
                    Some(fi) => fi,
                    None => {
                        proof {
                            assert(has_id(self@, eds[k as int].from));
                            assert(false);
                        }
                        0
                    },
                };
                let ti = match self.find_row(e_to) {
                    Some(ti) => ti,
                    None => {
                        proof {
                            assert(has_id(self@, eds[k as int].to));
                            assert(false);
                        }
                        0
                    },
                };
                let f_s = dec_string(fi + 1);
                let t_s = dec_string(ti + 1);
                out.append(f_s.as_str());
                out.append(" ");
                out.append(t_s.as_str());
                out.append(" ");
                out.append(self.rows[i].edges[k].label.as_str());
                out.append("\n");
                proof {
                    assert(self.rows@[i as int]@.edges[k as int].label == eds[k as int].label);
                }
                k = k + 1;
                proof {
                    assert(out@ =~= header + render_edge_rows(self@, self@.subrange(0, i as int))
                        + render_edge_list(self@, eds.subrange(0, k as int)));
                }
            }
            proof {
                assert(eds.subrange(0, m as int) =~= eds);
            }
            i = i + 1;
            proof {
                assert(out@ =~= header + render_edge_rows(self@, self@.subrange(0, i as int)));
            }
        }
        proof {
            assert(self@.subrange(0, n as int) =~= self@);
            assert(out@ =~= render_tgf(self@));
        }
        out
    }
}

} // verus!
