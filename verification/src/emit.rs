//! Graphviz DOT and Mermaid renderings of a rule-dependency graph.

use vstd::prelude::*;
use crate::grammar::Grammar;
use crate::graph::{
    EdgeView, GraphData, GraphView, graph_of, isolated_names, isolated_nodes,
    lemma_graph_covers_endpoints, lemma_graph_finite, lemma_isolated_names,
};
use crate::names::{NameSet, lemma_sorted_names, name_eq, owned, sorted_names, views};
use vstd::string::StringExecFns;

verus! {

/// The text made of `lines`, each followed by a newline.
pub open spec fn join_lines(lines: Seq<Seq<char>>) -> Seq<char>
    decreases lines.len(),
{
    if lines.len() == 0 {
        Seq::empty()
    } else {
        join_lines(lines.drop_last()) + lines.last() + "\n"@
    }
}

/// Joins lines with newlines, ending with a newline.
pub fn join_with_newlines(lines: &Vec<String>) -> (r: String)
    ensures
        r@ == join_lines(views(lines@)),
{
    let n = lines.len();
    let mut out = String::new();
    let mut i: usize = 0;
    assert(views(lines@).take(0) =~= Seq::<Seq<char>>::empty());
    while i < n
        invariant
            n == lines.len(),
            i <= n,
            out@ == join_lines(views(lines@).take(i as int)),
        decreases n - i,
    {
        out.append(lines[i].as_str());
        out.append("\n");
        assert(views(lines@).take(i + 1).drop_last() =~= views(lines@).take(i as int));
        i = i + 1;
    }
    assert(views(lines@).take(n as int) =~= views(lines@));
    out
}

/// DOT: the start symbol's node.
pub open spec fn dot_start_line(n: Seq<char>) -> Seq<char> {
    "  \""@ + n + "\" [shape=doublecircle];"@
}

/// DOT: an undefined rule's node.
pub open spec fn dot_dashed_line(n: Seq<char>) -> Seq<char> {
    "  \""@ + n + "\" [style=dashed];"@
}

/// DOT: an isolated rule's node.
pub open spec fn dot_node_line(n: Seq<char>) -> Seq<char> {
    "  \""@ + n + "\";"@
}

/// DOT: an edge.
pub open spec fn dot_edge_line(a: Seq<char>, b: Seq<char>) -> Seq<char> {
    "  \""@ + a + "\" -> \""@ + b + "\";"@
}

/// DOT: one dashed node line per name, in order.
pub open spec fn dot_dashed_lines(names: Seq<Seq<char>>) -> Seq<Seq<char>> {
    Seq::new(names.len(), |i: int| dot_dashed_line(names[i]))
}

/// DOT: one plain node line per name, in order.
pub open spec fn dot_node_lines(names: Seq<Seq<char>>) -> Seq<Seq<char>> {
    Seq::new(names.len(), |i: int| dot_node_line(names[i]))
}

/// DOT: one line per edge, in order.
pub open spec fn dot_edge_lines(edges: Seq<EdgeView>) -> Seq<Seq<char>> {
    Seq::new(edges.len(), |i: int| dot_edge_line(edges[i].0, edges[i].1))
}

/// The lines of the DOT rendering: the header, the start symbol (if any), the undefined rules
/// (sorted), the isolated rules (sorted), the edges in order, and the closing brace.
pub open spec fn dot_lines(v: GraphView) -> Seq<Seq<char>> {
    seq!["digraph grammar {"@] + (if v.start.len() > 0 {
        seq![dot_start_line(v.start)]
    } else {
        Seq::empty()
    }) + dot_dashed_lines(sorted_names(v.undefined)) + dot_node_lines(
        sorted_names(isolated_names(v)),
    ) + dot_edge_lines(v.edges) + seq!["}"@]
}

fn dot_start(n: &str) -> (r: String)
    ensures
        r@ == dot_start_line(n@),
{
    let mut s = String::new();
    s.append("  \"");
    s.append(n);
    s.append("\" [shape=doublecircle];");
    assert(s@ =~= dot_start_line(n@));
    s
}

fn dot_dashed(n: &str) -> (r: String)
    ensures
        r@ == dot_dashed_line(n@),
{
    let mut s = String::new();
    s.append("  \"");
    s.append(n);
    s.append("\" [style=dashed];");
    assert(s@ =~= dot_dashed_line(n@));
    s
}

fn dot_node(n: &str) -> (r: String)
    ensures
        r@ == dot_node_line(n@),
{
    let mut s = String::new();
    s.append("  \"");
    s.append(n);
    s.append("\";");
    assert(s@ =~= dot_node_line(n@));
    s
}

fn dot_edge(a: &str, b: &str) -> (r: String)
    ensures
        r@ == dot_edge_line(a@, b@),
{
    let mut s = String::new();
    s.append("  \"");
    s.append(a);
    s.append("\" -> \"");
    s.append(b);
    s.append("\";");
    assert(s@ =~= dot_edge_line(a@, b@));
    s
}

/// Emits `data` as a Graphviz DOT digraph.
///
/// All node IDs are double-quoted, so rule names that are DOT keywords (`node`, `graph`,
/// `edge`, ...) stay valid; rule names cannot contain quotes.
pub fn emit_dot(data: &GraphData) -> (r: String)
    ensures
        r@ == join_lines(dot_lines(data@)),
{
    let ghost v = data@;
    let mut lines: Vec<String> = Vec::new();
    lines.push(owned("digraph grammar {"));
    if !data.start.as_str().is_empty() {
        lines.push(dot_start(data.start.as_str()));
    }
    let ghost p0 = views(lines@);
    assert(p0 =~= seq!["digraph grammar {"@] + (if v.start.len() > 0 {
        seq![dot_start_line(v.start)]
    } else {
        Seq::empty()
    }));
    let undef = data.undefined.sorted();
    let nu = undef.len();
    let mut i: usize = 0;
    assert(dot_dashed_lines(views(undef@).take(0)) =~= Seq::<Seq<char>>::empty());
    while i < nu
        invariant
            nu == undef.len(),
            i <= nu,
            views(lines@) == p0 + dot_dashed_lines(views(undef@).take(i as int)),
        decreases nu - i,
    {
        let line = dot_dashed(undef[i].as_str());
        let ghost before = views(lines@);
        let ghost lv = line@;
        lines.push(line);
        assert(views(lines@) =~= before.push(lv));
        assert(dot_dashed_lines(views(undef@).take(i + 1)) =~= dot_dashed_lines(
            views(undef@).take(i as int),
        ).push(dot_dashed_line(views(undef@)[i as int])));
        assert(views(lines@) =~= p0 + dot_dashed_lines(views(undef@).take(i + 1)));
        i = i + 1;
    }
    assert(views(undef@).take(nu as int) =~= views(undef@));
    let ghost p1 = views(lines@);
    let iso = isolated_nodes(data);
    let ni = iso.len();
    let mut i: usize = 0;
    assert(dot_node_lines(views(iso@).take(0)) =~= Seq::<Seq<char>>::empty());
    assert(p1 =~= p1 + dot_node_lines(views(iso@).take(0)));
    while i < ni
        invariant
            ni == iso.len(),
            i <= ni,
            views(lines@) == p1 + dot_node_lines(views(iso@).take(i as int)),
        decreases ni - i,
    {
        let line = dot_node(iso[i].as_str());
        let ghost before = views(lines@);
        let ghost lv = line@;
        lines.push(line);
        assert(views(lines@) =~= before.push(lv));
        assert(dot_node_lines(views(iso@).take(i + 1)) =~= dot_node_lines(
            views(iso@).take(i as int),
        ).push(dot_node_line(views(iso@)[i as int])));
        assert(views(lines@) =~= p1 + dot_node_lines(views(iso@).take(i + 1)));
        i = i + 1;
    }
    assert(views(iso@).take(ni as int) =~= views(iso@));
    let ghost p2 = views(lines@);
    let ne = data.edges.len();
    let mut i: usize = 0;
    assert(dot_edge_lines(v.edges.take(0)) =~= Seq::<Seq<char>>::empty());
    assert(p2 =~= p2 + dot_edge_lines(v.edges.take(0)));
    while i < ne
        invariant
            ne == data.edges.len(),
            v == data@,
            i <= ne,
            views(lines@) == p2 + dot_edge_lines(v.edges.take(i as int)),
        decreases ne - i,
    {
        let line = dot_edge(data.edges[i].0.as_str(), data.edges[i].1.as_str());
        let ghost before = views(lines@);
        let ghost lv = line@;
        lines.push(line);
        assert(views(lines@) =~= before.push(lv));
        assert(dot_edge_lines(v.edges.take(i + 1)) =~= dot_edge_lines(v.edges.take(i as int)).push(
            dot_edge_line(v.edges[i as int].0, v.edges[i as int].1),
        ));
        assert(views(lines@) =~= p2 + dot_edge_lines(v.edges.take(i + 1)));
        i = i + 1;
    }
    assert(v.edges.take(ne as int) =~= v.edges);
    let ghost p3 = views(lines@);
    lines.push(owned("}"));
    assert(views(lines@) =~= p3.push("}"@));
    assert(views(lines@) =~= dot_lines(v));
    join_with_newlines(&lines)
}

/// The Mermaid node ID of a rule: its name with a trailing underscore, so that no ID is a
/// Mermaid keyword (`end`, `style`, ...).
pub open spec fn mermaid_id_of(name: Seq<char>) -> Seq<char> {
    name + "_"@
}

/// Mermaid: the declaration of a node, labelled with the rule's real name; the start symbol
/// is drawn as a stadium marked `★`, an undefined rule is marked `⚠`.
pub open spec fn mermaid_node_line(v: GraphView, n: Seq<char>) -> Seq<char> {
    if n == v.start {
        "  "@ + mermaid_id_of(n) + "([\""@ + n + "  ★\"])"@
    } else if v.undefined.contains(n) {
        "  "@ + mermaid_id_of(n) + "[\""@ + n + " ⚠\"]"@
    } else {
        "  "@ + mermaid_id_of(n) + "[\""@ + n + "\"]"@
    }
}

/// Mermaid: an edge.
pub open spec fn mermaid_edge_line(a: Seq<char>, b: Seq<char>) -> Seq<char> {
    "  "@ + mermaid_id_of(a) + " --> "@ + mermaid_id_of(b)
}

/// Mermaid: one declaration line per name, in order.
pub open spec fn mermaid_node_lines(v: GraphView, names: Seq<Seq<char>>) -> Seq<Seq<char>> {
    Seq::new(names.len(), |i: int| mermaid_node_line(v, names[i]))
}

/// Mermaid: one line per edge, in order.
pub open spec fn mermaid_edge_lines(edges: Seq<EdgeView>) -> Seq<Seq<char>> {
    Seq::new(edges.len(), |i: int| mermaid_edge_line(edges[i].0, edges[i].1))
}

/// The lines of the Mermaid rendering: the header, one declaration per defined or undefined
/// rule (sorted), a blank separator when there are edges, and the edges in order.
pub open spec fn mermaid_lines(v: GraphView) -> Seq<Seq<char>> {
    seq!["graph TD"@] + mermaid_node_lines(v, sorted_names(v.defined.union(v.undefined))) + (
    if v.edges.len() > 0 {
        seq![Seq::<char>::empty()]
    } else {
        Seq::empty()
    }) + mermaid_edge_lines(v.edges)
}

/// The Mermaid node ID for a rule name.
pub fn mermaid_id(name: &str) -> (r: String)
    ensures
        r@ == mermaid_id_of(name@),
{
    let mut s = String::new();
    s.append(name);
    s.append("_");
    assert(s@ =~= mermaid_id_of(name@));
    s
}

fn mermaid_node(data: &GraphData, name: &str) -> (r: String)
    ensures
        r@ == mermaid_node_line(data@, name@),
{
    let id = mermaid_id(name);
    let mut s = String::new();
    s.append("  ");
    s.append(id.as_str());
    if name_eq(name, data.start.as_str()) {
        s.append("([\"");
        s.append(name);
        s.append("  ★\"])");
    } else if data.undefined.contains(name) {
        s.append("[\"");
        s.append(name);
        s.append(" ⚠\"]");
    } else {
        s.append("[\"");
        s.append(name);
        s.append("\"]");
    }
    assert(s@ =~= mermaid_node_line(data@, name@));
    s
}

fn mermaid_edge(a: &str, b: &str) -> (r: String)
    ensures
        r@ == mermaid_edge_line(a@, b@),
{
    let ia = mermaid_id(a);
    let ib = mermaid_id(b);
    let mut s = String::new();
    s.append("  ");
    s.append(ia.as_str());
    s.append(" --> ");
    s.append(ib.as_str());
    assert(s@ =~= mermaid_edge_line(a@, b@));
    s
}

fn union_of(a: &NameSet, b: &NameSet) -> (r: NameSet)
    ensures
        r@ == a@.union(b@),
{
    let mut all = NameSet::new();
    let ia = a.items();
    let na = ia.len();
    let mut i: usize = 0;
    assert(views(ia@).take(0).to_set() =~= Set::<Seq<char>>::empty());
    while i < na
        invariant
            na == ia.len(),
            i <= na,
            all@ == views(ia@).take(i as int).to_set(),
        decreases na - i,
    {
        all.insert(ia[i].clone());
        assert(views(ia@).take(i + 1) =~= views(ia@).take(i as int).push(views(ia@)[i as int]));
        proof {
            views(ia@).take(i as int).lemma_push_to_set_commute(views(ia@)[i as int]);
        }
        i = i + 1;
    }
    assert(views(ia@).take(na as int) =~= views(ia@));
    let ib = b.items();
    let nb = ib.len();
    let mut j: usize = 0;
    assert(a@.union(views(ib@).take(0).to_set()) =~= a@);
    while j < nb
        invariant
            nb == ib.len(),
            j <= nb,
            all@ == a@.union(views(ib@).take(j as int).to_set()),
        decreases nb - j,
    {
        all.insert(ib[j].clone());
        assert(views(ib@).take(j + 1) =~= views(ib@).take(j as int).push(views(ib@)[j as int]));
        proof {
            views(ib@).take(j as int).lemma_push_to_set_commute(views(ib@)[j as int]);
        }
        assert(all@ =~= a@.union(views(ib@).take(j + 1).to_set()));
        j = j + 1;
    }
    assert(views(ib@).take(nb as int) =~= views(ib@));
    all
}

/// Emits `data` as a Mermaid flowchart.
///
/// Node IDs are escaped by `mermaid_id`, so every node gets an explicit `id["name"]`
/// declaration showing the real rule name; declarations come first (sorted), then the edges
/// in declaration order.
pub fn emit_mermaid(data: &GraphData) -> (r: String)
    ensures
        r@ == join_lines(mermaid_lines(data@)),
{
    let ghost v = data@;
    let mut lines: Vec<String> = Vec::new();
    lines.push(owned("graph TD"));
    let ghost p0 = views(lines@);
    assert(p0 =~= seq!["graph TD"@]);
    let names = union_of(&data.defined, &data.undefined).sorted();
    let nn = names.len();
    let mut i: usize = 0;
    assert(mermaid_node_lines(v, views(names@).take(0)) =~= Seq::<Seq<char>>::empty());
    assert(p0 =~= p0 + mermaid_node_lines(v, views(names@).take(0)));
    while i < nn
        invariant
            nn == names.len(),
            v == data@,
            i <= nn,
            views(lines@) == p0 + mermaid_node_lines(v, views(names@).take(i as int)),
        decreases nn - i,
    {
        let line = mermaid_node(data, names[i].as_str());
        let ghost before = views(lines@);
        let ghost lv = line@;
        lines.push(line);
        assert(views(lines@) =~= before.push(lv));
        assert(mermaid_node_lines(v, views(names@).take(i + 1)) =~= mermaid_node_lines(
            v,
            views(names@).take(i as int),
        ).push(mermaid_node_line(v, views(names@)[i as int])));
        assert(views(lines@) =~= p0 + mermaid_node_lines(v, views(names@).take(i + 1)));
        i = i + 1;
    }
    assert(views(names@).take(nn as int) =~= views(names@));
    if data.edges.len() > 0 {
        lines.push(String::new());
    }
    let ghost p1 = views(lines@);
    assert(p1 =~= p0 + mermaid_node_lines(v, views(names@)) + (if v.edges.len() > 0 {
        seq![Seq::<char>::empty()]
    } else {
        Seq::empty()
    }));
    let ne = data.edges.len();
    let mut i: usize = 0;
    assert(mermaid_edge_lines(v.edges.take(0)) =~= Seq::<Seq<char>>::empty());
    assert(p1 =~= p1 + mermaid_edge_lines(v.edges.take(0)));
    while i < ne
        invariant
            ne == data.edges.len(),
            v == data@,
            i <= ne,
            views(lines@) == p1 + mermaid_edge_lines(v.edges.take(i as int)),
        decreases ne - i,
    {
        let line = mermaid_edge(data.edges[i].0.as_str(), data.edges[i].1.as_str());
        let ghost before = views(lines@);
        let ghost lv = line@;
        lines.push(line);
        assert(views(lines@) =~= before.push(lv));
        assert(mermaid_edge_lines(v.edges.take(i + 1)) =~= mermaid_edge_lines(
            v.edges.take(i as int),
        ).push(mermaid_edge_line(v.edges[i as int].0, v.edges[i as int].1)));
        assert(views(lines@) =~= p1 + mermaid_edge_lines(v.edges.take(i + 1)));
        i = i + 1;
    }
    assert(v.edges.take(ne as int) =~= v.edges);
    assert(views(lines@) =~= mermaid_lines(v));
    join_with_newlines(&lines)
}


/// Mermaid node IDs end with an underscore, and different rules get different IDs.
pub proof fn lemma_mermaid_id_injective(a: Seq<char>, b: Seq<char>)
    ensures
        (mermaid_id_of(a) == mermaid_id_of(b)) == (a == b),
        mermaid_id_of(a).last() == '_',
{
    reveal_strlit("_");
    if mermaid_id_of(a) == mermaid_id_of(b) {
        assert(a.len() == b.len());
        assert forall|k: int| 0 <= k < a.len() implies a[k] == b[k] by {
            assert(mermaid_id_of(a)[k] == a[k]);
            assert(mermaid_id_of(b)[k] == b[k]);
        }
        assert(a =~= b);
    }
}

/// The DOT rendering opens with the `digraph` header and closes with `}`; it marks the start
/// symbol (when there is one), draws every undefined rule dashed, lists every isolated rule,
/// and has a line for every edge.
pub proof fn lemma_dot_contents(v: GraphView)
    requires
        v.defined.finite(),
        v.undefined.finite(),
    ensures
        dot_lines(v)[0] == "digraph grammar {"@,
        dot_lines(v).last() == "}"@,
        v.start.len() > 0 ==> dot_lines(v).contains(dot_start_line(v.start)),
        forall|n: Seq<char>| #[trigger] v.undefined.contains(n) ==> dot_lines(v).contains(dot_dashed_line(n)),
        forall|n: Seq<char>| #[trigger] isolated_names(v).contains(n) ==> dot_lines(v).contains(dot_node_line(n)),
        forall|i: int| 0 <= i < v.edges.len() ==> dot_lines(v).contains(
            dot_edge_line(#[trigger] v.edges[i].0, v.edges[i].1),
        ),
{
    let a = seq!["digraph grammar {"@];
    let b: Seq<Seq<char>> = if v.start.len() > 0 {
        seq![dot_start_line(v.start)]
    } else {
        Seq::empty()
    };
    let su = sorted_names(v.undefined);
    let si = sorted_names(isolated_names(v));
    let c = dot_dashed_lines(su);
    let d = dot_node_lines(si);
    let e = dot_edge_lines(v.edges);
    let l = dot_lines(v);
    assert(l == a + b + c + d + e + seq!["}"@]);
    lemma_sorted_names(v.undefined);
    vstd::set_lib::lemma_set_subset_finite(v.defined, isolated_names(v));
    lemma_sorted_names(isolated_names(v));
    if v.start.len() > 0 {
        assert(l[1] == dot_start_line(v.start));
    }
    assert forall|n: Seq<char>| #[trigger] v.undefined.contains(n) implies l.contains(dot_dashed_line(n)) by {
        assert(su.to_set().contains(n));
        let k = choose|k: int| 0 <= k < su.len() && su[k] == n;
        assert(l[a.len() + b.len() + k] == c[k]);
    }
    assert forall|n: Seq<char>| #[trigger] isolated_names(v).contains(n) implies l.contains(dot_node_line(n)) by {
        assert(si.to_set().contains(n));
        let k = choose|k: int| 0 <= k < si.len() && si[k] == n;
        assert(l[a.len() + b.len() + c.len() + k] == d[k]);
    }
    assert forall|i: int| 0 <= i < v.edges.len() implies l.contains(
        dot_edge_line(#[trigger] v.edges[i].0, v.edges[i].1),
    ) by {
        assert(l[a.len() + b.len() + c.len() + d.len() + i] == e[i]);
    }
}

/// The Mermaid rendering opens with `graph TD`, declares every defined or undefined rule, in
/// particular both ends of every edge (labelled with its real name), and has a line for every
/// edge.
pub proof fn lemma_mermaid_contents(v: GraphView)
    requires
        v.defined.finite(),
        v.undefined.finite(),
    ensures
        mermaid_lines(v)[0] == "graph TD"@,
        forall|n: Seq<char>| #[trigger] v.defined.union(v.undefined).contains(n) ==> mermaid_lines(v).contains(
            mermaid_node_line(v, n),
        ),
        forall|i: int| 0 <= i < v.edges.len() ==> mermaid_lines(v).contains(
            mermaid_edge_line(#[trigger] v.edges[i].0, v.edges[i].1),
        ),
{
    let a = seq!["graph TD"@];
    let all = v.defined.union(v.undefined);
    let sn = sorted_names(all);
    let b = mermaid_node_lines(v, sn);
    let c: Seq<Seq<char>> = if v.edges.len() > 0 {
        seq![Seq::<char>::empty()]
    } else {
        Seq::empty()
    };
    let e = mermaid_edge_lines(v.edges);
    let l = mermaid_lines(v);
    assert(l == a + b + c + e);
    lemma_sorted_names(all);
    assert forall|n: Seq<char>| #[trigger] all.contains(n) implies l.contains(mermaid_node_line(v, n)) by {
        assert(sn.to_set().contains(n));
        let k = choose|k: int| 0 <= k < sn.len() && sn[k] == n;
        assert(l[a.len() + k] == b[k]);
    }
    assert forall|i: int| 0 <= i < v.edges.len() implies l.contains(
        mermaid_edge_line(#[trigger] v.edges[i].0, v.edges[i].1),
    ) by {
        assert(l[a.len() + b.len() + c.len() + i] == e[i]);
    }
}


/// In the Mermaid rendering of a grammar's graph, both ends of every edge are declared with
/// their real names, so no edge refers to an undeclared node.
pub proof fn lemma_mermaid_declares_endpoints(g: Grammar, start_rule: Option<Seq<char>>)
    ensures
        forall|i: int| 0 <= i < graph_of(g, start_rule).edges.len() ==> {
            &&& mermaid_lines(graph_of(g, start_rule)).contains(
                mermaid_node_line(graph_of(g, start_rule), #[trigger] graph_of(g, start_rule).edges[i].0),
            )
            &&& mermaid_lines(graph_of(g, start_rule)).contains(
                mermaid_node_line(graph_of(g, start_rule), graph_of(g, start_rule).edges[i].1),
            )
        },
{
    let v = graph_of(g, start_rule);
    lemma_graph_finite(g, start_rule);
    lemma_graph_covers_endpoints(g, start_rule);
    lemma_mermaid_contents(v);
    assert forall|i: int| 0 <= i < v.edges.len() implies {
        &&& mermaid_lines(v).contains(mermaid_node_line(v, #[trigger] v.edges[i].0))
        &&& mermaid_lines(v).contains(mermaid_node_line(v, v.edges[i].1))
    } by {
        assert(v.defined.union(v.undefined).contains(v.edges[i].0));
        assert(v.defined.union(v.undefined).contains(v.edges[i].1));
    }
}


/// `line` stands in `text` at position `p` as one whole line: it starts `text` or follows a
/// newline, and a newline follows it.
pub open spec fn line_at(text: Seq<char>, line: Seq<char>, p: int) -> bool {
    &&& 0 <= p
    &&& p + line.len() < text.len()
    &&& text.subrange(p, p + line.len()) == line
    &&& text[p + line.len()] == '\n'
    &&& p == 0 || text[p - 1] == '\n'
}

/// `line` is one whole line of `text`.
pub open spec fn has_line(text: Seq<char>, line: Seq<char>) -> bool {
    exists|p: int| #[trigger] line_at(text, line, p)
}

proof fn lemma_join_lines_ends_with_newline(lines: Seq<Seq<char>>)
    ensures
        join_lines(lines).len() == 0 || join_lines(lines).last() == '\n',
{
    reveal_strlit("\n");
}

proof fn lemma_has_line_append(x: Seq<char>, y: Seq<char>, line: Seq<char>)
    requires
        has_line(x, line),
    ensures
        has_line(x + y, line),
{
    let p = choose|p: int| #[trigger] line_at(x, line, p);
    let z = x + y;
    assert(z.subrange(p, p + line.len()) =~= x.subrange(p, p + line.len()));
    assert(z[p + line.len()] == x[p + line.len()]);
    if p > 0 {
        assert(z[p - 1] == x[p - 1]);
    }
    assert(line_at(z, line, p));
}

proof fn lemma_has_last_line(pre: Seq<char>, line: Seq<char>)
    requires
        pre.len() == 0 || pre.last() == '\n',
    ensures
        has_line(pre + line + "\n"@, line),
{
    reveal_strlit("\n");
    let t = pre + line + "\n"@;
    let p = pre.len() as int;
    assert(t.subrange(p, p + line.len()) =~= line);
    assert(t[p + line.len()] == '\n');
    if p > 0 {
        assert(t[p - 1] == pre.last());
    }
    assert(line_at(t, line, p));
}

/// Every line given to `join_lines` is a whole line of its text.
pub proof fn lemma_join_lines_has_line(lines: Seq<Seq<char>>, k: int)
    requires
        0 <= k < lines.len(),
    ensures
        has_line(join_lines(lines), lines[k]),
    decreases lines.len(),
{
    let d = lines.drop_last();
    let t = join_lines(lines);
    assert(t == join_lines(d) + lines.last() + "\n"@);
    if k == lines.len() - 1 {
        lemma_join_lines_ends_with_newline(d);
        lemma_has_last_line(join_lines(d), lines[k]);
    } else {
        lemma_join_lines_has_line(d, k);
        assert(d[k] == lines[k]);
        lemma_has_line_append(join_lines(d), lines.last() + "\n"@, lines[k]);
        assert(join_lines(d) + (lines.last() + "\n"@) =~= t);
    }
}

/// The DOT text has these whole lines: the `digraph grammar {` header and the closing `}`;
/// `  "s" [shape=doublecircle];` for a non-empty start symbol `s`; `  "n" [style=dashed];`
/// for every undefined rule `n`; `  "n";` for every defined rule `n` that is not the start
/// symbol and that no edge starts or ends at; and `  "a" -> "b";` for every edge `(a, b)`,
/// self-edges included.
pub proof fn lemma_dot_text(v: GraphView)
    requires
        v.defined.finite(),
        v.undefined.finite(),
    ensures
        has_line(join_lines(dot_lines(v)), "digraph grammar {"@),
        has_line(join_lines(dot_lines(v)), "}"@),
        v.start.len() > 0 ==> has_line(
            join_lines(dot_lines(v)),
            "  \""@ + v.start + "\" [shape=doublecircle];"@,
        ),
        forall|n: Seq<char>| #[trigger] v.undefined.contains(n) ==> has_line(
            join_lines(dot_lines(v)),
            "  \""@ + n + "\" [style=dashed];"@,
        ),
        forall|n: Seq<char>|
            #[trigger] v.defined.contains(n) && n != v.start && (forall|i: int|
                0 <= i < v.edges.len() ==> #[trigger] v.edges[i].0 != n && v.edges[i].1 != n)
                ==> has_line(join_lines(dot_lines(v)), "  \""@ + n + "\";"@),
        forall|i: int| 0 <= i < v.edges.len() ==> has_line(
            join_lines(dot_lines(v)),
            "  \""@ + #[trigger] v.edges[i].0 + "\" -> \""@ + v.edges[i].1 + "\";"@,
        ),
{
    let l = dot_lines(v);
    lemma_dot_contents(v);
    lemma_join_lines_has_line(l, 0);
    lemma_join_lines_has_line(l, l.len() - 1);
    if v.start.len() > 0 {
        let k = choose|k: int| 0 <= k < l.len() && l[k] == dot_start_line(v.start);
        lemma_join_lines_has_line(l, k);
    }
    assert forall|n: Seq<char>| #[trigger] v.undefined.contains(n) implies has_line(
        join_lines(l),
        "  \""@ + n + "\" [style=dashed];"@,
    ) by {
        let k = choose|k: int| 0 <= k < l.len() && l[k] == dot_dashed_line(n);
        lemma_join_lines_has_line(l, k);
    }
    assert forall|n: Seq<char>|
        #[trigger] v.defined.contains(n) && n != v.start && (forall|i: int|
            0 <= i < v.edges.len() ==> #[trigger] v.edges[i].0 != n && v.edges[i].1 != n)
        implies has_line(join_lines(l), "  \""@ + n + "\";"@) by {
        lemma_isolated_names(v, n);
        let k = choose|k: int| 0 <= k < l.len() && l[k] == dot_node_line(n);
        lemma_join_lines_has_line(l, k);
    }
    assert forall|i: int| 0 <= i < v.edges.len() implies has_line(
        join_lines(l),
        "  \""@ + #[trigger] v.edges[i].0 + "\" -> \""@ + v.edges[i].1 + "\";"@,
    ) by {
        let k = choose|k: int| 0 <= k < l.len() && l[k] == dot_edge_line(v.edges[i].0, v.edges[i].1);
        lemma_join_lines_has_line(l, k);
    }
}

/// The Mermaid text has these whole lines: the `graph TD` header; for every defined or
/// undefined rule `n`, `  n_(["n  ★"])` when `n` is the start symbol, otherwise
/// `  n_["n ⚠"]` when `n` is undefined and `  n_["n"]` when it is defined; and
/// `  a_ --> b_` for every edge `(a, b)`, self-edges included.
pub proof fn lemma_mermaid_text(v: GraphView)
    requires
        v.defined.finite(),
        v.undefined.finite(),
    ensures
        has_line(join_lines(mermaid_lines(v)), "graph TD"@),
        forall|n: Seq<char>|
            #[trigger] v.defined.union(v.undefined).contains(n) && n == v.start ==> has_line(
                join_lines(mermaid_lines(v)),
                "  "@ + n + "_"@ + "([\""@ + n + "  ★\"])"@,
            ),
        forall|n: Seq<char>|
            #[trigger] v.undefined.contains(n) && n != v.start ==> has_line(
                join_lines(mermaid_lines(v)),
                "  "@ + n + "_"@ + "[\""@ + n + " ⚠\"]"@,
            ),
        forall|n: Seq<char>|
            #[trigger] v.defined.contains(n) && !v.undefined.contains(n) && n != v.start ==> has_line(
                join_lines(mermaid_lines(v)),
                "  "@ + n + "_"@ + "[\""@ + n + "\"]"@,
            ),
        forall|i: int| 0 <= i < v.edges.len() ==> has_line(
            join_lines(mermaid_lines(v)),
            "  "@ + #[trigger] v.edges[i].0 + "_"@ + " --> "@ + v.edges[i].1 + "_"@,
        ),
{
    let l = mermaid_lines(v);
    lemma_mermaid_contents(v);
    lemma_join_lines_has_line(l, 0);
    assert forall|n: Seq<char>|
        #[trigger] v.defined.union(v.undefined).contains(n) && n == v.start implies has_line(
            join_lines(l),
            "  "@ + n + "_"@ + "([\""@ + n + "  ★\"])"@,
        ) by {
        let k = choose|k: int| 0 <= k < l.len() && l[k] == mermaid_node_line(v, n);
        assert(mermaid_node_line(v, n) =~= "  "@ + n + "_"@ + "([\""@ + n + "  ★\"])"@);
        lemma_join_lines_has_line(l, k);
    }
    assert forall|n: Seq<char>|
        #[trigger] v.undefined.contains(n) && n != v.start implies has_line(
            join_lines(l),
            "  "@ + n + "_"@ + "[\""@ + n + " ⚠\"]"@,
        ) by {
        assert(v.defined.union(v.undefined).contains(n));
        let k = choose|k: int| 0 <= k < l.len() && l[k] == mermaid_node_line(v, n);
        assert(mermaid_node_line(v, n) =~= "  "@ + n + "_"@ + "[\""@ + n + " ⚠\"]"@);
        lemma_join_lines_has_line(l, k);
    }
    assert forall|n: Seq<char>|
        #[trigger] v.defined.contains(n) && !v.undefined.contains(n) && n != v.start implies has_line(
            join_lines(l),
            "  "@ + n + "_"@ + "[\""@ + n + "\"]"@,
        ) by {
        assert(v.defined.union(v.undefined).contains(n));
        let k = choose|k: int| 0 <= k < l.len() && l[k] == mermaid_node_line(v, n);
        assert(mermaid_node_line(v, n) =~= "  "@ + n + "_"@ + "[\""@ + n + "\"]"@);
        lemma_join_lines_has_line(l, k);
    }
    assert forall|i: int| 0 <= i < v.edges.len() implies has_line(
        join_lines(l),
        "  "@ + #[trigger] v.edges[i].0 + "_"@ + " --> "@ + v.edges[i].1 + "_"@,
    ) by {
        let k = choose|k: int|
            0 <= k < l.len() && l[k] == mermaid_edge_line(v.edges[i].0, v.edges[i].1);
        assert(mermaid_edge_line(v.edges[i].0, v.edges[i].1) =~= "  "@ + v.edges[i].0 + "_"@
            + " --> "@ + v.edges[i].1 + "_"@);
        lemma_join_lines_has_line(l, k);
    }
}

} // verus!
