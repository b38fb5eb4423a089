use vstd::prelude::*;
use crate::display::{
    Edge, decimal_text, node_line, node_lines, ranges_to, edges_from, edge_list, edge_line, labelled_edges, dot_text,
    full_label, find_label, dot_char_label, min_start, superscript_text, legend_rows, legend_html, html_escaped,
};

verus! {

/// `part` occurs in `whole`.
pub open spec fn occurs_in(part: Seq<char>, whole: Seq<char>) -> bool {
    exists|k: int| 0 <= k && k + part.len() <= whole.len() && #[trigger] whole.subrange(k, k + part.len()) == part
}

/// What occurs in a piece occurs in any text that holds that piece.
pub proof fn lemma_occurs_in_joined(part: Seq<char>, a: Seq<char>, b: Seq<char>, c: Seq<char>)
    requires
        occurs_in(part, b),
    ensures
        occurs_in(part, a + b + c),
{
    let k = choose|k: int| 0 <= k && k + part.len() <= b.len() && #[trigger] b.subrange(k, k + part.len()) == part;
    let w = a + b + c;
    let k2 = a.len() + k;
    assert(w.subrange(k2, k2 + part.len()) =~= part);
}

/// A text occurs in itself.
proof fn lemma_occurs_in_self(x: Seq<char>)
    ensures
        occurs_in(x, x),
{
    let k: int = 0;
    assert(x.subrange(k, k + x.len()) =~= x);
}

/// The start of what occurs in a text occurs in it too.
proof fn lemma_occurs_in_prefix(part: Seq<char>, whole: Seq<char>, n: int)
    requires
        occurs_in(part, whole),
        0 <= n <= part.len(),
    ensures
        occurs_in(part.take(n), whole),
{
    let k = choose|k: int| 0 <= k && k + part.len() <= whole.len() && #[trigger] whole.subrange(k, k + part.len()) == part;
    assert(whole.subrange(k, k + n) =~= part.take(n));
}

/// The node lines declare each state.
proof fn lemma_node_lines_declare(accepting: Seq<bool>, i: int)
    requires
        0 <= i < accepting.len(),
    ensures
        occurs_in(node_line(i as nat, accepting[i]), node_lines(accepting)),
    decreases accepting.len(),
{
    let init = accepting.drop_last();
    let line = node_line(i as nat, accepting[i]);
    if i == accepting.len() - 1 {
        lemma_occurs_in_self(line);
        lemma_occurs_in_joined(line, node_lines(init), line, Seq::empty());
        assert(node_lines(init) + line + Seq::<char>::empty() =~= node_lines(accepting));
    } else {
        assert(init[i] == accepting[i]);
        lemma_node_lines_declare(init, i);
        let last = node_line((accepting.len() - 1) as nat, accepting.last());
        lemma_occurs_in_joined(line, Seq::empty(), node_lines(init), last);
        assert(Seq::<char>::empty() + node_lines(init) + last =~= node_lines(accepting));
    }
}

/// Edges from `from` include one to each target that some range leads to.
proof fn lemma_edges_from_has(rs: Seq<(char, char, usize)>, from: nat, to_count: nat, t: nat)
    requires
        t < to_count,
        ranges_to(rs, t).len() > 0,
    ensures
        exists|j: int| 0 <= j < edges_from(rs, from, to_count).len() && (#[trigger] edges_from(rs, from, to_count)[j]).0
            == from && edges_from(rs, from, to_count)[j].1 == t,
    decreases to_count,
{
    let to = (to_count - 1) as nat;
    let e = edges_from(rs, from, to_count);
    let e0 = edges_from(rs, from, to);
    if t == to {
        let j = e0.len() as int;
        assert(e[j] == (from, t, ranges_to(rs, t)));
    } else {
        lemma_edges_from_has(rs, from, to, t);
        let j = choose|j: int| 0 <= j < e0.len() && (#[trigger] e0[j]).0 == from && e0[j].1 == t;
        assert(e[j] == e0[j]);
    }
}

/// The edge list holds an edge from each state to each target that some of
/// its ranges leads to.
proof fn lemma_edge_list_has(transitions: Seq<Seq<(char, char, usize)>>, count: nat, n: nat, f: nat, t: nat)
    requires
        f < count,
        t < n,
        ranges_to(transitions[f as int], t).len() > 0,
    ensures
        exists|j: int| 0 <= j < edge_list(transitions, count, n).len() && (#[trigger] edge_list(transitions, count, n)[j]).0
            == f && edge_list(transitions, count, n)[j].1 == t,
    decreases count,
{
    let c0 = (count - 1) as nat;
    let l = edge_list(transitions, count, n);
    let l0 = edge_list(transitions, c0, n);
    if f == c0 {
        lemma_edges_from_has(transitions[f as int], f, n, t);
        let ef = edges_from(transitions[f as int], f, n);
        let j = choose|j: int| 0 <= j < ef.len() && (#[trigger] ef[j]).0 == f && ef[j].1 == t;
        assert(l[l0.len() + j] == ef[j]);
    } else {
        lemma_edge_list_has(transitions, c0, n, f, t);
        let j = choose|j: int| 0 <= j < l0.len() && (#[trigger] l0[j]).0 == f && l0[j].1 == t;
        assert(l[j] == l0[j]);
    }
}

/// Each edge gets a line, with some label.
proof fn lemma_labelled_edges_has(edges: Seq<Edge>, j: int)
    requires
        0 <= j < edges.len(),
    ensures
        exists|label: Seq<char>| occurs_in(#[trigger] edge_line(edges[j].0, edges[j].1, label), labelled_edges(edges).0),
    decreases edges.len(),
{
    let init = edges.drop_last();
    let (text0, legend0) = labelled_edges(init);
    let e = edges.last();
    let text = labelled_edges(edges).0;
    let last_label = match find_label(legend0, full_label(e.2)) {
        Some(l) => l,
        None => dot_char_label(min_start(e.2)) + superscript_text(legend0.len() + 1),
    };
    let last_line = edge_line(e.0, e.1, last_label);
    assert(text == text0 + last_line);
    if j == edges.len() - 1 {
        lemma_occurs_in_self(last_line);
        lemma_occurs_in_joined(last_line, text0, last_line, Seq::empty());
        assert(text0 + last_line + Seq::<char>::empty() =~= text);
    } else {
        assert(init[j] == edges[j]);
        lemma_labelled_edges_has(init, j);
        let lab = choose|lab: Seq<char>| occurs_in(#[trigger] edge_line(edges[j].0, edges[j].1, lab), text0);
        let line = edge_line(edges[j].0, edges[j].1, lab);
        lemma_occurs_in_joined(line, Seq::empty(), text0, last_line);
        assert(Seq::<char>::empty() + text0 + last_line =~= text);
    }
}

/// The text before the node lines of the Graphviz text.
spec fn dot_head(start: nat) -> Seq<char> {
    "digraph TinyRegex {\n  rankdir=LR;\n"@ + "  __start [shape=point];\n"@ + ("  __start -> s"@ + decimal_text(start) + ";\n"@)
}

/// The Graphviz text is its head, the node lines, the edge lines and a tail.
proof fn lemma_dot_text_split(start: nat, accepting: Seq<bool>, transitions: Seq<Seq<(char, char, usize)>>)
    ensures
        dot_text(start, accepting, transitions) == dot_head(start) + node_lines(accepting)
            + labelled_edges(edge_list(transitions, transitions.len(), transitions.len())).0 + dot_text(
            start,
            accepting,
            transitions,
        ).skip((dot_head(start) + node_lines(accepting) + labelled_edges(
            edge_list(transitions, transitions.len(), transitions.len()),
        ).0).len() as int),
{
    let n = transitions.len();
    let edge_text = labelled_edges(edge_list(transitions, n, n)).0;
    let text = dot_text(start, accepting, transitions);
    let pre = dot_head(start) + node_lines(accepting) + edge_text;
    assert(text =~= pre + text.skip(pre.len() as int));
}

proof fn lemma_dot_text_start(start: nat, accepting: Seq<bool>, transitions: Seq<Seq<(char, char, usize)>>)
    ensures
        occurs_in("  __start -> s"@ + decimal_text(start) + ";\n"@, dot_text(start, accepting, transitions)),
{
    let n = transitions.len();
    let edge_text = labelled_edges(edge_list(transitions, n, n)).0;
    let text = dot_text(start, accepting, transitions);
    lemma_dot_text_split(start, accepting, transitions);
    let a = "digraph TinyRegex {\n  rankdir=LR;\n"@ + "  __start [shape=point];\n"@;
    let line = "  __start -> s"@ + decimal_text(start) + ";\n"@;
    let rest = text.skip((dot_head(start) + node_lines(accepting) + edge_text).len() as int);
    lemma_occurs_in_self(line);
    lemma_occurs_in_joined(line, a, line, node_lines(accepting) + edge_text + rest);
    assert(a + line + (node_lines(accepting) + edge_text + rest) =~= text);
}

proof fn lemma_dot_text_nodes(start: nat, accepting: Seq<bool>, transitions: Seq<Seq<(char, char, usize)>>, i: int)
    requires
        0 <= i < accepting.len(),
    ensures
        occurs_in("  s"@ + decimal_text(i as nat) + " [shape="@ + (if accepting[i] {
            "doublecircle"@
        } else {
            "circle"@
        }) + "];\n"@, dot_text(start, accepting, transitions)),
{
    let n = transitions.len();
    let edge_text = labelled_edges(edge_list(transitions, n, n)).0;
    let text = dot_text(start, accepting, transitions);
    lemma_dot_text_split(start, accepting, transitions);
    let rest = text.skip((dot_head(start) + node_lines(accepting) + edge_text).len() as int);
    lemma_node_lines_declare(accepting, i);
    lemma_occurs_in_joined(node_line(i as nat, accepting[i]), dot_head(start), node_lines(accepting), edge_text + rest);
    assert(dot_head(start) + node_lines(accepting) + (edge_text + rest) =~= text);
}

proof fn lemma_dot_text_edges(start: nat, accepting: Seq<bool>, transitions: Seq<Seq<(char, char, usize)>>, f: int, k: int)
    requires
        0 <= f < transitions.len(),
        0 <= k < transitions[f].len(),
        transitions[f][k].2 < transitions.len(),
    ensures
        occurs_in(
            "  s"@ + decimal_text(f as nat) + " -> s"@ + decimal_text(transitions[f][k].2 as nat) + " [label=\""@,
            dot_text(start, accepting, transitions),
        ),
{
    let n = transitions.len();
    let edge_text = labelled_edges(edge_list(transitions, n, n)).0;
    let text = dot_text(start, accepting, transitions);
    lemma_dot_text_split(start, accepting, transitions);
    let rest = text.skip((dot_head(start) + node_lines(accepting) + edge_text).len() as int);
    let t = transitions[f][k].2 as nat;
    lemma_ranges_to_has(transitions[f], t, k);
    lemma_edge_list_has(transitions, n, n, f as nat, t);
    let el = edge_list(transitions, n, n);
    let j = choose|j: int| 0 <= j < el.len() && (#[trigger] el[j]).0 == f && el[j].1 == t;
    lemma_labelled_edges_has(el, j);
    let lab = choose|lab: Seq<char>| occurs_in(#[trigger] edge_line(el[j].0, el[j].1, lab), edge_text);
    let line = edge_line(f as nat, t, lab);
    lemma_occurs_in_joined(line, dot_head(start) + node_lines(accepting), edge_text, rest);
    let p = "  s"@ + decimal_text(f as nat) + " -> s"@ + decimal_text(t) + " [label=\""@;
    assert(line =~= p + lab + "\"];\n"@);
    assert(line.take(p.len() as int) =~= p);
    lemma_occurs_in_prefix(line, text, p.len() as int);
}

/// The Graphviz text of an automaton points into its start state, declares
/// every state by its index, as a double circle when it accepts and a circle
/// otherwise, and draws an edge from every state to every state that one of
/// its ranges leads to.
pub proof fn lemma_dot_text_shows_the_automaton(
    start: nat,
    accepting: Seq<bool>,
    transitions: Seq<Seq<(char, char, usize)>>,
)
    ensures
        occurs_in("  __start -> s"@ + decimal_text(start) + ";\n"@, dot_text(start, accepting, transitions)),
        forall|i: int| 0 <= i < accepting.len() && #[trigger] accepting[i] ==> occurs_in(
            "  s"@ + decimal_text(i as nat) + " [shape=doublecircle];\n"@,
            dot_text(start, accepting, transitions),
        ),
        forall|i: int| 0 <= i < accepting.len() && !#[trigger] accepting[i] ==> occurs_in(
            "  s"@ + decimal_text(i as nat) + " [shape=circle];\n"@,
            dot_text(start, accepting, transitions),
        ),
        forall|f: int, k: int|
            0 <= f < transitions.len() && 0 <= k < transitions[f].len() && #[trigger] transitions[f][k].2 < transitions.len()
                ==> occurs_in(
                "  s"@ + decimal_text(f as nat) + " -> s"@ + decimal_text(transitions[f][k].2 as nat) + " [label=\""@,
                dot_text(start, accepting, transitions),
            ),
{
    lemma_dot_text_start(start, accepting, transitions);
    assert forall|i: int| 0 <= i < accepting.len() && #[trigger] accepting[i] implies occurs_in(
        "  s"@ + decimal_text(i as nat) + " [shape=doublecircle];\n"@,
        dot_text(start, accepting, transitions),
    ) by {
        reveal_strlit(" [shape=");
        reveal_strlit("doublecircle");
        reveal_strlit("];\n");
        reveal_strlit(" [shape=doublecircle];\n");
        lemma_dot_text_nodes(start, accepting, transitions, i);
        assert("  s"@ + decimal_text(i as nat) + " [shape="@ + "doublecircle"@ + "];\n"@ =~= "  s"@ + decimal_text(i as nat)
            + " [shape=doublecircle];\n"@);
    }
    assert forall|i: int| 0 <= i < accepting.len() && !#[trigger] accepting[i] implies occurs_in(
        "  s"@ + decimal_text(i as nat) + " [shape=circle];\n"@,
        dot_text(start, accepting, transitions),
    ) by {
        reveal_strlit(" [shape=");
        reveal_strlit("circle");
        reveal_strlit("];\n");
        reveal_strlit(" [shape=circle];\n");
        lemma_dot_text_nodes(start, accepting, transitions, i);
        assert("  s"@ + decimal_text(i as nat) + " [shape="@ + "circle"@ + "];\n"@ =~= "  s"@ + decimal_text(i as nat)
            + " [shape=circle];\n"@);
    }
    assert forall|f: int, k: int|
        0 <= f < transitions.len() && 0 <= k < transitions[f].len() && #[trigger] transitions[f][k].2 < transitions.len()
            implies occurs_in(
            "  s"@ + decimal_text(f as nat) + " -> s"@ + decimal_text(transitions[f][k].2 as nat) + " [label=\""@,
            dot_text(start, accepting, transitions),
        ) by {
        lemma_dot_text_edges(start, accepting, transitions, f, k);
    }
}

/// The ranges of `rs` leading to the target of range `k` are not empty.
proof fn lemma_ranges_to_has(rs: Seq<(char, char, usize)>, to: nat, k: int)
    requires
        0 <= k < rs.len(),
        rs[k].2 == to,
    ensures
        ranges_to(rs, to).len() > 0,
    decreases rs.len(),
{
    if k < rs.len() - 1 {
        lemma_ranges_to_has(rs.drop_last(), to, k);
    }
}

/// The row of the legend for an entry: the short label, ` = ` and the full
/// text, escaped for HTML, in a left-aligned monospace cell.
pub open spec fn legend_row(entry: (Seq<char>, Seq<char>)) -> Seq<char> {
    "<TR><TD ALIGN=\"LEFT\"><FONT FACE=\"monospace\">"@ + html_escaped(entry.0 + " = "@ + entry.1) + "</FONT></TD></TR>"@
}

proof fn lemma_legend_rows_has(entries: Seq<(Seq<char>, Seq<char>)>, j: int)
    requires
        0 <= j < entries.len(),
    ensures
        occurs_in(legend_row(entries[j]), legend_rows(entries)),
    decreases entries.len(),
{
    let init = entries.drop_last();
    let last = legend_row(entries.last());
    assert(legend_rows(entries) =~= legend_rows(init) + last);
    if j == entries.len() - 1 {
        lemma_occurs_in_self(last);
        lemma_occurs_in_joined(last, legend_rows(init), last, Seq::empty());
        assert(legend_rows(init) + last + Seq::<char>::empty() =~= legend_rows(entries));
    } else {
        assert(init[j] == entries[j]);
        lemma_legend_rows_has(init, j);
        lemma_occurs_in_joined(legend_row(entries[j]), Seq::empty(), legend_rows(init), last);
        assert(Seq::<char>::empty() + legend_rows(init) + last =~= legend_rows(entries));
    }
}

/// The legend has a row for each of its entries, pairing the short label
/// with the full text.
pub proof fn lemma_legend_lists_every_entry(entries: Seq<(Seq<char>, Seq<char>)>, j: int)
    requires
        0 <= j < entries.len(),
    ensures
        occurs_in(
            "<TR><TD ALIGN=\"LEFT\"><FONT FACE=\"monospace\">"@ + html_escaped(entries[j].0 + " = "@ + entries[j].1)
                + "</FONT></TD></TR>"@,
            legend_html(entries),
        ),
{
    lemma_legend_rows_has(entries, j);
    let head = "<TABLE BORDER=\"0\" CELLBORDER=\"0\" CELLPADDING=\"2\" CELLSPACING=\"0\">"@
        + "<TR><TD ALIGN=\"LEFT\"><B>Key</B></TD></TR>"@;
    lemma_occurs_in_joined(legend_row(entries[j]), head, legend_rows(entries), "</TABLE>"@);
}

} // verus!
