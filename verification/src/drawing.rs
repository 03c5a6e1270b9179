//! What drawings of a neighborhood promise: every node and every edge is drawn once, with its
//! identity, and its name is written so that the drawing reads it back.

use vstd::prelude::*;

use crate::graph::{
    dot_edge, dot_edges, dot_escaped, dot_node, dot_nodes, dot_text, format_named,
    label_of, mermaid_edge, mermaid_edges, mermaid_escaped, mermaid_node, mermaid_nodes,
    mermaid_text, GraphEdgeModel, GraphFormat, GraphNodeModel, SubgraphModel,
};
use crate::harvest::{is_plain_name, law_files_are_named_by_the_last_part};
use crate::text::{decimal_int, flat, replaced};

verus! {

/// How a character is written in a quoted DOT text.
pub open spec fn dot_written(c: char) -> Seq<char> {
    if c == '\\' || c == '"' {
        seq!['\\', c]
    } else {
        seq![c]
    }
}

/// How a character is written in a Mermaid label.
pub open spec fn mermaid_written(c: char) -> Seq<char> {
    if c == '"' {
        "&quot;"@
    } else if c == '[' || c == ']' || c == '{' || c == '}' {
        Seq::empty()
    } else {
        seq![c]
    }
}

proof fn lemma_replaced_push(s: Seq<char>, d: char, c: char, with: Seq<char>)
    ensures
        replaced(s.push(d), c, with) == replaced(s, c, with) + (if d == c {
            with
        } else {
            seq![d]
        }),
{
    assert(s.push(d).drop_last() =~= s);
    assert(replaced(s, c, with).push(d) =~= replaced(s, c, with) + seq![d]);
}

proof fn lemma_replaced_concat(s: Seq<char>, t: Seq<char>, c: char, with: Seq<char>)
    ensures
        replaced(s + t, c, with) == replaced(s, c, with) + replaced(t, c, with),
{
    crate::wording::law_replacing_goes_place_by_place(s, t, c, with);
}

/// In a quoted DOT text a backslash stands before each backslash and each quote, and everything
/// else stands for itself.
pub proof fn law_dot_escapes_quotes_and_backslashes(s: Seq<char>, c: char)
    ensures
        dot_escaped(Seq::empty()) == Seq::<char>::empty(),
        dot_escaped(s.push(c)) == dot_escaped(s) + dot_written(c),
{
    reveal_strlit("\\\\");
    reveal_strlit("\\\"");
    assert("\\\\"@ =~= seq!['\\', '\\']);
    assert("\\\""@ =~= seq!['\\', '"']);
    let first = replaced(s, '\\', "\\\\"@);
    lemma_replaced_push(s, c, '\\', "\\\\"@);
    if c == '\\' {
        lemma_replaced_concat(first, "\\\\"@, '"', "\\\""@);
        crate::wording::law_replacing_goes_place_by_place("\\\\"@, first, '"', "\\\""@);
    } else {
        lemma_replaced_push(first, c, '"', "\\\""@);
        assert(first + seq![c] =~= first.push(c));
    }
    assert(dot_escaped(s.push(c)) =~= dot_escaped(s) + dot_written(c));
}

/// In a Mermaid label quotes are written as entities, brackets and braces are left out, and
/// everything else stands for itself.
pub proof fn law_mermaid_leaves_brackets_out(s: Seq<char>, c: char)
    ensures
        mermaid_escaped(Seq::empty()) == Seq::<char>::empty(),
        mermaid_escaped(s.push(c)) == mermaid_escaped(s) + mermaid_written(c),
{
    reveal_strlit("&quot;");
    reveal_strlit("");
    let none = Seq::<char>::empty();
    assert(""@ =~= none);
    let one = if c == '"' {
        "&quot;"@
    } else {
        seq![c]
    };
    let q = replaced(s, '"', "&quot;"@);
    lemma_replaced_push(s, c, '"', "&quot;"@);
    let a = replaced(q, '[', none);
    let b = replaced(a, ']', none);
    let d = replaced(b, '{', none);
    if c == '"' {
        let t = "&quot;"@;
        assert(!t.contains('[') && !t.contains(']') && !t.contains('{') && !t.contains('}'));
        lemma_replaced_concat(q, t, '[', none);
        crate::wording::law_replacing_goes_place_by_place(t, none, '[', none);
        lemma_replaced_concat(a, t, ']', none);
        crate::wording::law_replacing_goes_place_by_place(t, none, ']', none);
        lemma_replaced_concat(b, t, '{', none);
        crate::wording::law_replacing_goes_place_by_place(t, none, '{', none);
        lemma_replaced_concat(d, t, '}', none);
        crate::wording::law_replacing_goes_place_by_place(t, none, '}', none);
    } else {
        assert(q + one =~= q.push(c));
        lemma_replaced_push(q, c, '[', none);
        lemma_replaced_push(a, c, ']', none);
        lemma_replaced_push(b, c, '{', none);
        lemma_replaced_push(d, c, '}', none);
        assert(a + seq![c] =~= a.push(c));
        assert(b + seq![c] =~= b.push(c));
        assert(d + seq![c] =~= d.push(c));
        assert(a + none =~= a);
        assert(b + none =~= b);
        assert(d + none =~= d);
    }
    assert(mermaid_escaped(s.push(c)) =~= mermaid_escaped(s) + mermaid_written(c));
}

/// A note is labelled with the name of its file, anything else with its own name.
pub proof fn law_notes_are_labelled_by_file(dir: Seq<char>, name: Seq<char>, node: GraphNodeModel)
    requires
        is_plain_name(name),
    ensures
        node.kind == "note"@ && node.name == dir.push('/') + name ==> label_of(node) == name,
        node.kind != "note"@ ==> label_of(node) == node.name,
{
    law_files_are_named_by_the_last_part(dir, name);
}

/// The DOT line of a node: its identity, its label, the colour of its kind, and a shape of its own
/// for the start.
pub open spec fn node_drawn(node: GraphNodeModel, start: int) -> Seq<char> {
    let colour = if node.kind == "project"@ {
        "#a6e3a1"@
    } else if node.kind == "entity"@ {
        "#89b4fa"@
    } else if node.kind == "note"@ {
        "#f9e2af"@
    } else if node.kind == "loop"@ {
        "#f38ba8"@
    } else {
        "#cdd6f4"@
    };
    let shape = if node.id == start {
        "doublecircle"@
    } else {
        "box"@
    };
    "  n"@ + decimal_int(node.id) + " [label=\""@ + dot_escaped(label_of(node))
        + "\", fillcolor=\""@ + colour + "\", shape="@ + shape + "];\n"@
}

/// The DOT line of an edge: from where, to where, what it says, and how wide.
pub open spec fn edge_drawn(edge: GraphEdgeModel, pen: Seq<char>) -> Seq<char> {
    "  n"@ + decimal_int(edge.src) + " -> n"@ + decimal_int(edge.dst) + " [label=\""@ + dot_escaped(
        edge.relation,
    ) + "\", penwidth="@ + pen + "];\n"@
}

proof fn lemma_flat_push(all: Seq<Seq<char>>, last: Seq<char>)
    ensures
        flat(all.push(last)) == flat(all) + last,
{
    assert(all.push(last).drop_last() =~= all);
}

proof fn lemma_dot_nodes(sub: SubgraphModel, n: int)
    requires
        0 <= n <= sub.nodes.len(),
    ensures
        dot_nodes(sub, n) == flat(
            Seq::new(n as nat, |i: int| node_drawn(sub.nodes[i], sub.start)),
        ),
    decreases n,
{
    let all = Seq::new(n as nat, |i: int| node_drawn(sub.nodes[i], sub.start));
    if n > 0 {
        lemma_dot_nodes(sub, n - 1);
        let less = Seq::new((n - 1) as nat, |i: int| node_drawn(sub.nodes[i], sub.start));
        assert(all =~= less.push(node_drawn(sub.nodes[n - 1], sub.start)));
        lemma_flat_push(less, node_drawn(sub.nodes[n - 1], sub.start));
        assert(dot_node(sub.nodes[n - 1], sub.start) =~= node_drawn(sub.nodes[n - 1], sub.start));
    } else {
        assert(all =~= Seq::<Seq<char>>::empty());
    }
}

proof fn lemma_dot_edges(sub: SubgraphModel, pens: Seq<Seq<char>>, n: int)
    requires
        0 <= n <= sub.edges.len(),
    ensures
        dot_edges(sub, pens, n) == flat(
            Seq::new(n as nat, |i: int| edge_drawn(sub.edges[i], pens[i])),
        ),
    decreases n,
{
    let all = Seq::new(n as nat, |i: int| edge_drawn(sub.edges[i], pens[i]));
    if n > 0 {
        lemma_dot_edges(sub, pens, n - 1);
        let less = Seq::new((n - 1) as nat, |i: int| edge_drawn(sub.edges[i], pens[i]));
        assert(all =~= less.push(edge_drawn(sub.edges[n - 1], pens[n - 1])));
        lemma_flat_push(less, edge_drawn(sub.edges[n - 1], pens[n - 1]));
        assert(dot_edge(sub.edges[n - 1], pens[n - 1]) =~= edge_drawn(
            sub.edges[n - 1],
            pens[n - 1],
        ));
    } else {
        assert(all =~= Seq::<Seq<char>>::empty());
    }
}

/// A DOT drawing has one line for each node and then one for each edge, in their order.
pub proof fn law_dot_draws_everything_once(sub: SubgraphModel, pens: Seq<Seq<char>>)
    ensures
        dot_text(sub, pens) == "digraph raft {\n"@ + "  rankdir=LR;\n"@
            + "  node [style=filled, fontname=\"monospace\"];\n"@ + flat(
            Seq::new(sub.nodes.len(), |i: int| node_drawn(sub.nodes[i], sub.start)),
        ) + flat(Seq::new(sub.edges.len(), |i: int| edge_drawn(sub.edges[i], pens[i]))) + "}\n"@,
{
    lemma_dot_nodes(sub, sub.nodes.len() as int);
    lemma_dot_edges(sub, pens, sub.edges.len() as int);
}

/// The Mermaid line of a node: its identity and its label, in brackets that tell the start from a
/// note, a loop and anything else.
pub open spec fn node_charted(node: GraphNodeModel, start: int) -> Seq<char> {
    let ends = if node.id == start {
        ("(((\""@, "\")))\n"@)
    } else if node.kind == "note"@ {
        ("[\""@, "\"]\n"@)
    } else if node.kind == "loop"@ {
        (">\""@, "\"]\n"@)
    } else {
        ("(\""@, "\")\n"@)
    };
    "  n"@ + decimal_int(node.id) + ends.0 + mermaid_escaped(label_of(node)) + ends.1
}

/// The Mermaid line of an edge: from where, what it says, and to where.
pub open spec fn edge_charted(edge: GraphEdgeModel) -> Seq<char> {
    "  n"@ + decimal_int(edge.src) + " -->|"@ + mermaid_escaped(edge.relation) + "| n"@ + decimal_int(
        edge.dst,
    ) + "\n"@
}

proof fn lemma_mermaid_nodes(sub: SubgraphModel, n: int)
    requires
        0 <= n <= sub.nodes.len(),
    ensures
        mermaid_nodes(sub, n) == flat(
            Seq::new(n as nat, |i: int| node_charted(sub.nodes[i], sub.start)),
        ),
    decreases n,
{
    let all = Seq::new(n as nat, |i: int| node_charted(sub.nodes[i], sub.start));
    if n > 0 {
        lemma_mermaid_nodes(sub, n - 1);
        let less = Seq::new((n - 1) as nat, |i: int| node_charted(sub.nodes[i], sub.start));
        assert(all =~= less.push(node_charted(sub.nodes[n - 1], sub.start)));
        lemma_flat_push(less, node_charted(sub.nodes[n - 1], sub.start));
        assert(mermaid_node(sub.nodes[n - 1], sub.start) =~= node_charted(
            sub.nodes[n - 1],
            sub.start,
        ));
    } else {
        assert(all =~= Seq::<Seq<char>>::empty());
    }
}

proof fn lemma_mermaid_edges(sub: SubgraphModel, n: int)
    requires
        0 <= n <= sub.edges.len(),
    ensures
        mermaid_edges(sub, n) == flat(Seq::new(n as nat, |i: int| edge_charted(sub.edges[i]))),
    decreases n,
{
    let all = Seq::new(n as nat, |i: int| edge_charted(sub.edges[i]));
    if n > 0 {
        lemma_mermaid_edges(sub, n - 1);
        let less = Seq::new((n - 1) as nat, |i: int| edge_charted(sub.edges[i]));
        assert(all =~= less.push(edge_charted(sub.edges[n - 1])));
        lemma_flat_push(less, edge_charted(sub.edges[n - 1]));
        assert(mermaid_edge(sub.edges[n - 1]) =~= edge_charted(sub.edges[n - 1]));
    } else {
        assert(all =~= Seq::<Seq<char>>::empty());
    }
}

/// A Mermaid drawing has one line for each node and then one for each edge, in their order.
pub proof fn law_mermaid_draws_everything_once(sub: SubgraphModel)
    ensures
        mermaid_text(sub) == "graph LR\n"@ + flat(
            Seq::new(sub.nodes.len(), |i: int| node_charted(sub.nodes[i], sub.start)),
        ) + flat(Seq::new(sub.edges.len(), |i: int| edge_charted(sub.edges[i]))),
{
    lemma_mermaid_nodes(sub, sub.nodes.len() as int);
    lemma_mermaid_edges(sub, sub.edges.len() as int);
}

/// Each format has two names, and no other name stands for one.
pub proof fn law_formats_have_two_names(lower: Seq<char>)
    ensures
        format_named(lower) == Some(GraphFormat::Dot) <==> lower == "dot"@ || lower == "graphviz"@,
        format_named(lower) == Some(GraphFormat::Mermaid) <==> lower == "mermaid"@ || lower
            == "mmd"@,
{
    reveal_strlit("dot");
    reveal_strlit("graphviz");
    reveal_strlit("mermaid");
    reveal_strlit("mmd");
    assert("dot"@[0] == 'd' && "graphviz"@[0] == 'g' && "mermaid"@[0] == 'm' && "mmd"@[0] == 'm');
}

} // verus!
