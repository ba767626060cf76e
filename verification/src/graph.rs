//! The rule-dependency graph of a grammar: its edges, start symbol, defined and undefined rules.

use vstd::prelude::*;
use crate::grammar::{Grammar, Production, rule_names};
use crate::names::{
    NameSet, contains_name, lemma_sorted_names, name_eq, owned, sort_names, sorted_names,
    strictly_sorted, views,
};
use vstd::string::StringExecFns;

verus! {

/// An edge `(from_rule, to_rule)` as a pair of character sequences.
pub type EdgeView = (Seq<char>, Seq<char>);

/// The view of a list of edges.
pub open spec fn edge_views(e: Seq<(String, String)>) -> Seq<EdgeView> {
    e.map_values(|p: (String, String)| (p.0@, p.1@))
}

/// The elements of `s` in order, each kept at its first occurrence only.
pub open spec fn first_occurrences<A>(s: Seq<A>) -> Seq<A>
    decreases s.len(),
{
    if s.len() == 0 {
        Seq::empty()
    } else if s.drop_last().contains(s.last()) {
        first_occurrences(s.drop_last())
    } else {
        first_occurrences(s.drop_last()).push(s.last())
    }
}

/// `first_occurrences` keeps exactly the elements of `s`, each once.
pub proof fn lemma_first_occurrences<A>(s: Seq<A>)
    ensures
        first_occurrences(s).no_duplicates(),
        forall|x: A| #[trigger] first_occurrences(s).contains(x) <==> s.contains(x),
    decreases s.len(),
{
    if s.len() > 0 {
        let d = s.drop_last();
        lemma_first_occurrences(d);
        assert(s =~= d.push(s.last()));
        assert forall|x: A| #[trigger] s.contains(x) <==> (d.contains(x) || x == s.last()) by {
            if s.contains(x) {
                let k = choose|k: int| 0 <= k < s.len() && s[k] == x;
                if k < d.len() {
                    assert(d[k] == x);
                }
            }
            if d.contains(x) {
                let k = choose|k: int| 0 <= k < d.len() && d[k] == x;
                assert(s[k] == x);
            }
            if x == s.last() {
                assert(s[s.len() - 1] == x);
            }
        }
        if !d.contains(s.last()) {
            let f = first_occurrences(d);
            assert forall|x: A| #[trigger] f.push(s.last()).contains(x) <==> (f.contains(x) || x
                == s.last()) by {
                if f.push(s.last()).contains(x) {
                    let k = choose|k: int| 0 <= k < f.len() + 1 && f.push(s.last())[k] == x;
                    if k < f.len() {
                        assert(f[k] == x);
                    }
                }
                if f.contains(x) {
                    let k = choose|k: int| 0 <= k < f.len() && f[k] == x;
                    assert(f.push(s.last())[k] == x);
                }
                if x == s.last() {
                    assert(f.push(s.last())[f.len() as int] == x);
                }
            }
            let g = f.push(s.last());
            assert forall|i: int, j: int| 0 <= i < g.len() && 0 <= j < g.len() && i != j implies g[i]
                != g[j] by {
                if i < f.len() && j < f.len() {
                    assert(g[i] == f[i] && g[j] == f[j]);
                } else if i < f.len() {
                    assert(f.contains(f[i]));
                } else {
                    assert(f.contains(f[j]));
                }
            }
        }
    }
}

/// The edges contributed by one production: one per rule reference in its body, in order.
pub open spec fn production_edges(p: Production) -> Seq<EdgeView> {
    p.body.referenced_names().map_values(|n: Seq<char>| (p.name@, n))
}

/// The edges of all productions, in declaration order, repeats included.
pub open spec fn all_references(rules: Seq<Production>) -> Seq<EdgeView>
    decreases rules.len(),
{
    if rules.len() == 0 {
        Seq::empty()
    } else {
        all_references(rules.drop_last()) + production_edges(rules.last())
    }
}

/// The deduplicated edges of a grammar, in declaration order.
pub open spec fn raw_edges(g: Grammar) -> Seq<EdgeView> {
    first_occurrences(all_references(g.rules()))
}

/// The names of the rules a grammar defines.
pub open spec fn defined_names(g: Grammar) -> Set<Seq<char>> {
    rule_names(g.rules()).to_set()
}

/// Whether `(a, b)` is among `edges`.
pub fn contains_edge(edges: &Vec<(String, String)>, a: &str, b: &str) -> (r: bool)
    ensures
        r == edge_views(edges@).contains((a@, b@)),
{
    let n = edges.len();
    let mut i: usize = 0;
    while i < n
        invariant
            n == edges.len(),
            i <= n,
            forall|k: int| 0 <= k < i ==> edge_views(edges@)[k] != (a@, b@),
        decreases n - i,
    {
        if name_eq(edges[i].0.as_str(), a) && name_eq(edges[i].1.as_str(), b) {
            assert(edge_views(edges@)[i as int] == (a@, b@));
            return true;
        }
        i = i + 1;
    }
    false
}

/// All deduplicated `(lhs, rhs)` rule-reference edges of the grammar, in declaration order.
pub fn build_raw_edges(grammar: &Grammar) -> (r: Vec<(String, String)>)
    ensures
        edge_views(r@) == raw_edges(*grammar),
{
    let prods = grammar.productions();
    let n = prods.len();
    let mut edges: Vec<(String, String)> = Vec::new();
    let mut i: usize = 0;
    assert(prods@.take(0) =~= Seq::<Production>::empty());
    assert(edge_views(edges@) =~= Seq::<EdgeView>::empty());
    while i < n
        invariant
            n == prods.len(),
            prods@ == grammar.rules(),
            i <= n,
            edge_views(edges@) == first_occurrences(all_references(prods@.take(i as int))),
        decreases n - i,
    {
        let lhs = &prods[i].name;
        let rhs_names = prods[i].body.nonterminal_names();
        let ghost base = all_references(prods@.take(i as int));
        let ghost pe = production_edges(prods@[i as int]);
        let m = rhs_names.len();
        let mut j: usize = 0;
        assert(base + pe.take(0) =~= base);
        while j < m
            invariant
                m == rhs_names.len(),
                j <= m,
                views(rhs_names@) == prods@[i as int].body.referenced_names(),
                pe == production_edges(prods@[i as int]),
                *lhs == prods@[i as int].name,
                edge_views(edges@) == first_occurrences(base + pe.take(j as int)),
            decreases m - j,
        {
            let found = contains_edge(&edges, lhs.as_str(), rhs_names[j].as_str());
            let ghost x = (lhs@, rhs_names@[j as int]@);
            let ghost s = base + pe.take(j as int);
            assert(pe[j as int] == x);
            assert(base + pe.take(j + 1) =~= s.push(x));
            assert(s.push(x).drop_last() =~= s);
            proof {
                lemma_first_occurrences(s);
            }
            if !found {
                let ghost before = edge_views(edges@);
                edges.push((lhs.clone(), rhs_names[j].clone()));
                assert(edge_views(edges@) =~= before.push(x));
            }
            j = j + 1;
        }
        assert(pe.take(m as int) =~= pe);
        assert(prods@.take(i + 1).drop_last() =~= prods@.take(i as int));
        i = i + 1;
    }
    assert(prods@.take(n as int) =~= prods@);
    edges
}


/// The rules that some edge points to.
pub open spec fn edge_targets(edges: Seq<EdgeView>) -> Set<Seq<char>> {
    Set::new(|n: Seq<char>| exists|i: int| 0 <= i < edges.len() && edges[i].1 == n)
}

/// The warning printed for a rule that is referenced but never defined.
pub open spec fn warning_message(name: Seq<char>) -> Seq<char> {
    "warning: rule '"@ + name + "' referenced but not defined"@
}

/// The warnings for a set of undefined rules.
pub open spec fn warning_messages(names: Set<Seq<char>>) -> Set<Seq<char>> {
    Set::new(|m: Seq<char>| exists|n: Seq<char>| names.contains(n) && m == warning_message(n))
}

/// Different rules get different warnings.
pub proof fn lemma_warning_message_injective(a: Seq<char>, b: Seq<char>)
    requires
        warning_message(a) == warning_message(b),
    ensures
        a == b,
{
    let p = "warning: rule '"@;
    let q = "' referenced but not defined"@;
    assert(warning_message(a).len() == p.len() + a.len() + q.len());
    assert(warning_message(b).len() == p.len() + b.len() + q.len());
    assert forall|k: int| 0 <= k < a.len() implies a[k] == b[k] by {
        assert(warning_message(a)[p.len() + k] == a[k]);
        assert(warning_message(b)[p.len() + k] == b[k]);
    }
    assert(a =~= b);
}

/// The warning for `name`.
pub fn warning_for(name: &str) -> (r: String)
    ensures
        r@ == warning_message(name@),
{
    let mut m = String::new();
    m.append("warning: rule '");
    m.append(name);
    m.append("' referenced but not defined");
    assert(m@ =~= warning_message(name@));
    m
}

/// The rules referenced by `edges` but not in `defined`, and one warning per such rule,
/// in sorted order.
pub fn compute_undefined(edges: &Vec<(String, String)>, defined: &NameSet) -> (r: (
    NameSet,
    Vec<String>,
))
    ensures
        r.0@ == edge_targets(edge_views(edges@)).difference(defined@),
        views(r.1@) == sorted_names(warning_messages(r.0@)),
{
    let ghost ev = edge_views(edges@);
    let n = edges.len();
    let mut undefined = NameSet::new();
    let mut i: usize = 0;
    assert(edge_targets(ev.take(0)).difference(defined@) =~= Set::<Seq<char>>::empty());
    while i < n
        invariant
            n == edges.len(),
            ev == edge_views(edges@),
            i <= n,
            undefined@ == edge_targets(ev.take(i as int)).difference(defined@),
        decreases n - i,
    {
        if !defined.contains(edges[i].1.as_str()) {
            undefined.insert(edges[i].1.clone());
        }
        proof {
            let t1 = ev.take(i + 1);
            let t0 = ev.take(i as int);
            let y = ev[i as int].1;
            assert forall|x: Seq<char>| #[trigger] edge_targets(t1).contains(x) <==> edge_targets(
                t0,
            ).insert(y).contains(x) by {
                if edge_targets(t1).contains(x) {
                    let k = choose|k: int| 0 <= k < t1.len() && #[trigger] t1[k].1 == x;
                    if k < i {
                        assert(t0[k].1 == x);
                    }
                }
                if edge_targets(t0).contains(x) {
                    let k = choose|k: int| 0 <= k < t0.len() && #[trigger] t0[k].1 == x;
                    assert(t1[k].1 == x);
                }
                if x == y {
                    assert(t1[i as int].1 == x);
                }
            }
            assert(edge_targets(t1) =~= edge_targets(t0).insert(y));
        }
        i = i + 1;
    }
    assert(ev.take(n as int) =~= ev);
    let items = undefined.items();
    let m = items.len();
    let mut msgs: Vec<String> = Vec::new();
    let mut k: usize = 0;
    while k < m
        invariant
            m == items.len(),
            k <= m,
            msgs.len() == k,
            forall|j: int| 0 <= j < k ==> #[trigger] views(msgs@)[j] == warning_message(views(items@)[j]),
        decreases m - k,
    {
        let w = warning_for(items[k].as_str());
        let ghost before = views(msgs@);
        let ghost wv = w@;
        msgs.push(w);
        assert(views(msgs@) =~= before.push(wv));
        assert(views(items@)[k as int] == items@[k as int]@);
        k = k + 1;
    }
    let ghost names = views(items@);
    let ghost ms = views(msgs@);
    assert(ms.no_duplicates()) by {
        assert forall|a: int, b: int| 0 <= a < ms.len() && 0 <= b < ms.len() && a != b implies ms[a]
            != ms[b] by {
            if ms[a] == ms[b] {
                lemma_warning_message_injective(names[a], names[b]);
            }
        }
    }
    assert(ms.to_set() =~= warning_messages(undefined@)) by {
        assert forall|x: Seq<char>| #[trigger] ms.to_set().contains(x) <==> warning_messages(
            undefined@,
        ).contains(x) by {
            if ms.to_set().contains(x) {
                let j = choose|j: int| 0 <= j < ms.len() && ms[j] == x;
                assert(names.to_set().contains(names[j]));
            }
            if warning_messages(undefined@).contains(x) {
                let nm = choose|nm: Seq<char>| undefined@.contains(nm) && x == warning_message(nm);
                let j = choose|j: int| 0 <= j < names.len() && names[j] == nm;
                assert(ms[j] == x);
            }
        }
    }
    let warnings = sort_names(msgs);
    (undefined, warnings)
}

/// Consecutive names of `path` are joined by edges.
pub open spec fn is_path(edges: Seq<EdgeView>, path: Seq<Seq<char>>) -> bool {
    forall|i: int| 0 <= i < path.len() - 1 ==> #[trigger] edges.contains((path[i], path[i + 1]))
}

/// `to` can be reached from `from` along zero or more edges.
pub open spec fn reaches(edges: Seq<EdgeView>, from: Seq<char>, to: Seq<char>) -> bool {
    exists|path: Seq<Seq<char>>|
        path.len() > 0 && path[0] == from && path.last() == to && #[trigger] is_path(edges, path)
}

/// The edges whose source is reachable from `start`.
pub open spec fn from_reachable(edges: Seq<EdgeView>, start: Seq<char>) -> spec_fn(EdgeView) -> bool {
    |e: EdgeView| reaches(edges, start, e.0)
}

/// The names reachable from `start`.
pub open spec fn reachable_from(edges: Seq<EdgeView>, start: Seq<char>) -> spec_fn(Seq<char>) -> bool {
    |n: Seq<char>| reaches(edges, start, n)
}

/// Every name reaches itself.
pub proof fn lemma_reaches_self(edges: Seq<EdgeView>, a: Seq<char>)
    ensures
        reaches(edges, a, a),
{
    let p = seq![a];
    assert(is_path(edges, p));
}

/// Reachability extends along an edge.
pub proof fn lemma_reaches_step(edges: Seq<EdgeView>, s: Seq<char>, a: Seq<char>, b: Seq<char>)
    requires
        reaches(edges, s, a),
        edges.contains((a, b)),
    ensures
        reaches(edges, s, b),
{
    let p = choose|path: Seq<Seq<char>>|
        path.len() > 0 && path[0] == s && path.last() == a && #[trigger] is_path(edges, path);
    let q = p.push(b);
    assert forall|i: int| 0 <= i < q.len() - 1 implies #[trigger] edges.contains((q[i], q[i + 1])) by {
        if i < p.len() - 1 {
            assert(q[i] == p[i] && q[i + 1] == p[i + 1]);
            assert(edges.contains((p[i], p[i + 1])));
        } else {
            assert(q[i] == a && q[i + 1] == b);
        }
    }
    assert(is_path(edges, q));
    assert(q[0] == s && q.last() == b);
}

/// Names of `r` whose outgoing edges all lead back into `r`.
pub open spec fn closed_under(edges: Seq<EdgeView>, r: Seq<Seq<char>>) -> bool {
    forall|j: int| 0 <= j < edges.len() && r.contains(#[trigger] edges[j].0) ==> r.contains(edges[j].1)
}

proof fn lemma_path_stays_in(edges: Seq<EdgeView>, r: Seq<Seq<char>>, path: Seq<Seq<char>>)
    requires
        path.len() > 0,
        r.contains(path[0]),
        is_path(edges, path),
        closed_under(edges, r),
    ensures
        r.contains(path.last()),
    decreases path.len(),
{
    if path.len() > 1 {
        let p = path.drop_last();
        assert forall|i: int| 0 <= i < p.len() - 1 implies #[trigger] edges.contains((p[i], p[i + 1])) by {
            assert(edges.contains((path[i], path[i + 1])));
        }
        lemma_path_stays_in(edges, r, p);
        let i = path.len() - 2;
        assert(edges.contains((path[i], path[i + 1])));
        let j = choose|j: int| 0 <= j < edges.len() && edges[j] == (path[i], path[i + 1]);
        assert(r.contains(edges[j].0));
    }
}

/// A set of names that contains `start` and is closed under the edges holds
/// every name reachable from `start`.
pub proof fn lemma_closed_holds_reachable(
    edges: Seq<EdgeView>,
    r: Seq<Seq<char>>,
    start: Seq<char>,
    x: Seq<char>,
)
    requires
        r.contains(start),
        closed_under(edges, r),
        reaches(edges, start, x),
    ensures
        r.contains(x),
{
    let p = choose|path: Seq<Seq<char>>|
        path.len() > 0 && path[0] == start && path.last() == x && #[trigger] is_path(edges, path);
    lemma_path_stays_in(edges, r, p);
}

/// The targets of the edges, in order.
pub open spec fn target_seq(edges: Seq<EdgeView>) -> Seq<Seq<char>> {
    edges.map_values(|e: EdgeView| e.1)
}

proof fn lemma_distinct_len_bound(a: Seq<Seq<char>>, b: Seq<Seq<char>>)
    requires
        a.no_duplicates(),
        forall|i: int| 0 <= i < a.len() ==> b.contains(#[trigger] a[i]),
    ensures
        a.len() <= b.len(),
{
    a.unique_seq_to_set();
    b.lemma_cardinality_of_set();
    assert(a.to_set().subset_of(b.to_set())) by {
        assert forall|x: Seq<char>| a.to_set().contains(x) implies b.to_set().contains(x) by {
            let k = choose|k: int| 0 <= k < a.len() && a[k] == x;
            assert(b.contains(a[k]));
        }
    }
    vstd::set_lib::lemma_len_subset(a.to_set(), b.to_set());
}

/// Restricts `edges` to those whose source is reachable from `start`, and `defined`
/// to the names reachable from `start`.
pub fn filter_reachable(edges: Vec<(String, String)>, defined: &NameSet, start: &str) -> (r: (
    Vec<(String, String)>,
    NameSet,
))
    ensures
        edge_views(r.0@) == edge_views(edges@).filter(from_reachable(edge_views(edges@), start@)),
        r.1@ == defined@.filter(reachable_from(edge_views(edges@), start@)),
{
    let ghost ev = edge_views(edges@);
    let ghost st = start@;
    let ne = edges.len();
    let mut reach: Vec<String> = Vec::new();
    reach.push(owned(start));
    proof {
        lemma_reaches_self(ev, st);
    }
    let mut k: usize = 0;
    while k < reach.len()
        invariant
            ne == edges.len(),
            ev == edge_views(edges@),
            1 <= reach.len() <= ne + 1,
            k <= reach.len(),
            views(reach@)[0] == st,
            views(reach@).no_duplicates(),
            forall|m: int| 0 <= m < reach.len() ==> reaches(ev, st, #[trigger] views(reach@)[m]),
            forall|m: int| 1 <= m < reach.len() ==> target_seq(ev).contains(#[trigger] views(reach@)[m]),
            forall|m: int, j: int|
                #![trigger views(reach@)[m], ev[j]]
                0 <= m < k && 0 <= j < ne && ev[j].0 == views(reach@)[m] ==> views(reach@).contains(ev[j].1),
        decreases ne + 1 - k,
    {
        let cur = reach[k].clone();
        let mut j: usize = 0;
        while j < ne
            invariant
                ne == edges.len(),
                ev == edge_views(edges@),
                1 <= reach.len() <= ne + 1,
                k < reach.len(),
                cur@ == views(reach@)[k as int],
                j <= ne,
                views(reach@)[0] == st,
                views(reach@).no_duplicates(),
                forall|m: int| 0 <= m < reach.len() ==> reaches(ev, st, #[trigger] views(reach@)[m]),
                forall|m: int| 1 <= m < reach.len() ==> target_seq(ev).contains(#[trigger] views(reach@)[m]),
                forall|m: int, jj: int|
                    #![trigger views(reach@)[m], ev[jj]]
                    0 <= m < k && 0 <= jj < ne && ev[jj].0 == views(reach@)[m] ==> views(reach@).contains(ev[jj].1),
                forall|jj: int| 0 <= jj < j && ev[jj].0 == cur@ ==> views(reach@).contains(#[trigger] ev[jj].1),
            decreases ne - j,
        {
            if name_eq(edges[j].0.as_str(), cur.as_str()) && !contains_name(&reach, edges[j].1.as_str()) {
                let ghost before = views(reach@);
                let ghost t = ev[j as int].1;
                proof {
                    assert(ev[j as int] == (cur@, t));
                    assert(ev.contains((cur@, t)));
                    lemma_reaches_step(ev, st, cur@, t);
                    assert(target_seq(ev)[j as int] == t);
                }
                reach.push(edges[j].1.clone());
                assert(views(reach@) =~= before.push(t));
                assert forall|y: Seq<char>| before.contains(y) implies #[trigger] views(reach@).contains(y) by {
                    let w = choose|w: int| 0 <= w < before.len() && before[w] == y;
                    assert(views(reach@)[w] == y);
                }
                assert(views(reach@).contains(t)) by {
                    assert(views(reach@)[before.len() as int] == t);
                }
                proof {
                    let rest = views(reach@).drop_first();
                    assert forall|i: int| 0 <= i < rest.len() implies target_seq(ev).contains(#[trigger] rest[i]) by {
                        assert(rest[i] == views(reach@)[i + 1]);
                    }
                    lemma_distinct_len_bound(rest, target_seq(ev));
                }
            }
            j = j + 1;
        }
        k = k + 1;
    }
    let ghost rv = views(reach@);
    proof {
        assert(rv.contains(st)) by {
            assert(rv[0] == st);
        }
        assert forall|jj: int| 0 <= jj < ev.len() && rv.contains(#[trigger] ev[jj].0) implies rv.contains(ev[jj].1) by {
            let m = choose|m: int| 0 <= m < rv.len() && rv[m] == ev[jj].0;
        }
    }
    assert forall|x: Seq<char>| rv.contains(x) <==> reaches(ev, st, x) by {
        if rv.contains(x) {
            let m = choose|m: int| 0 <= m < rv.len() && rv[m] == x;
        }
        if reaches(ev, st, x) {
            lemma_closed_holds_reachable(ev, rv, st, x);
        }
    }
    let mut filtered: Vec<(String, String)> = Vec::new();
    let mut i: usize = 0;
    assert(ev.take(0).filter(from_reachable(ev, st)) =~= Seq::<EdgeView>::empty()) by {
        assert(ev.take(0) =~= Seq::<EdgeView>::empty());
        reveal(Seq::filter);
    }
    while i < ne
        invariant
            ne == edges.len(),
            ev == edge_views(edges@),
            rv == views(reach@),
            forall|x: Seq<char>| rv.contains(x) <==> reaches(ev, st, x),
            i <= ne,
            edge_views(filtered@) == ev.take(i as int).filter(from_reachable(ev, st)),
        decreases ne - i,
    {
        let keep = contains_name(&reach, edges[i].0.as_str());
        let ghost before = edge_views(filtered@);
        assert(ev.take(i + 1) =~= ev.take(i as int).push(ev[i as int]));
        proof {
            ev.take(i as int).lemma_filter_push(ev[i as int], from_reachable(ev, st));
        }
        if keep {
            filtered.push((edges[i].0.clone(), edges[i].1.clone()));
            assert(edge_views(filtered@) =~= before.push(ev[i as int]));
        }
        i = i + 1;
    }
    assert(ev.take(ne as int) =~= ev);
    let items = defined.items();
    let nd = items.len();
    let mut kept = NameSet::new();
    let mut d: usize = 0;
    let ghost names = views(items@);
    assert(names.take(0).to_set().filter(reachable_from(ev, st)) =~= Set::<Seq<char>>::empty());
    while d < nd
        invariant
            nd == items.len(),
            names == views(items@),
            rv == views(reach@),
            forall|x: Seq<char>| rv.contains(x) <==> reaches(ev, st, x),
            d <= nd,
            kept@ == names.take(d as int).to_set().filter(reachable_from(ev, st)),
        decreases nd - d,
    {
        if contains_name(&reach, items[d].as_str()) {
            kept.insert(items[d].clone());
        }
        assert(names.take(d + 1) =~= names.take(d as int).push(names[d as int]));
        proof {
            names.take(d as int).lemma_push_to_set_commute(names[d as int]);
        }
        assert(kept@ =~= names.take(d + 1).to_set().filter(reachable_from(ev, st)));
        d = d + 1;
    }
    assert(names.take(nd as int) =~= names);
    (filtered, kept)
}


/// A rule-dependency graph extracted from a BNF grammar.
pub struct GraphData {
    /// Deduplicated directed edges in declaration order: `(from_rule, to_rule)`.
    pub edges: Vec<(String, String)>,
    /// The name of the start (root) rule.
    pub start: String,
    /// Rule names that are defined in the grammar (after any start-rule filtering).
    pub defined: NameSet,
    /// Rule names referenced on a right-hand side but never defined.
    pub undefined: NameSet,
}

/// The mathematical content of a `GraphData`.
pub struct GraphView {
    /// The edges, in order.
    pub edges: Seq<EdgeView>,
    /// The start symbol.
    pub start: Seq<char>,
    /// The defined rules.
    pub defined: Set<Seq<char>>,
    /// The referenced but undefined rules.
    pub undefined: Set<Seq<char>>,
}

impl View for GraphData {
    type V = GraphView;

    open spec fn view(&self) -> GraphView {
        GraphView {
            edges: edge_views(self.edges@),
            start: self.start@,
            defined: self.defined@,
            undefined: self.undefined@,
        }
    }
}

/// The view of an optional name.
pub open spec fn opt_view(o: Option<&str>) -> Option<Seq<char>> {
    match o {
        Some(s) => Some(s@),
        None => None,
    }
}

/// The error for a start rule that the grammar does not define.
pub open spec fn not_found_message(rule: Seq<char>) -> Seq<char> {
    "rule '"@ + rule + "' not found in grammar"@
}

/// The start symbol of the graph: the requested start rule, else the grammar's start symbol,
/// else the empty name.
pub open spec fn start_of(g: Grammar, start_rule: Option<Seq<char>>) -> Seq<char> {
    match start_rule {
        Some(s) => s,
        None => match g.start_symbol() {
            Some(s) => s,
            None => Seq::empty(),
        },
    }
}

/// The graph of `g`; with a (non-empty) requested start rule, restricted to what it reaches.
pub open spec fn graph_of(g: Grammar, start_rule: Option<Seq<char>>) -> GraphView {
    let start = start_of(g, start_rule);
    let raw = raw_edges(g);
    let restrict = start_rule is Some && start.len() > 0;
    let edges = if restrict {
        raw.filter(from_reachable(raw, start))
    } else {
        raw
    };
    let defined = if restrict {
        defined_names(g).filter(reachable_from(raw, start))
    } else {
        defined_names(g)
    };
    GraphView { edges, start, defined, undefined: edge_targets(edges).difference(defined) }
}

/// Builds the rule-dependency graph of `grammar`, optionally restricted to the rules reachable
/// from `start_rule`, together with one warning per undefined reference (sorted).
///
/// The start symbol is the grammar's start symbol (`%axiom`, else the first production);
/// `start_rule` overrides it. Fails exactly when `start_rule` names no rule of the grammar.
pub fn build_graph(grammar: &Grammar, start_rule: Option<&str>) -> (r: Result<
    (GraphData, Vec<String>),
    String,
>)
    ensures
        r is Err <==> (start_rule matches Some(sr) && !defined_names(*grammar).contains(sr@)),
        r matches Err(e) ==> (start_rule matches Some(sr) && e@ == not_found_message(sr@)),
        r matches Ok((data, warnings)) ==> {
            &&& data@ == graph_of(*grammar, opt_view(start_rule))
            &&& views(warnings@) == sorted_names(warning_messages(data@.undefined))
        },
{
    let prods = grammar.productions();
    let np = prods.len();
    let mut defined = NameSet::new();
    let mut i: usize = 0;
    let ghost rn = rule_names(grammar.rules());
    assert(rn.take(0).to_set() =~= Set::<Seq<char>>::empty());
    while i < np
        invariant
            np == prods.len(),
            prods@ == grammar.rules(),
            rn == rule_names(grammar.rules()),
            i <= np,
            defined@ == rn.take(i as int).to_set(),
        decreases np - i,
    {
        defined.insert(prods[i].name.clone());
        assert(rn.take(i + 1) =~= rn.take(i as int).push(rn[i as int]));
        proof {
            rn.take(i as int).lemma_push_to_set_commute(rn[i as int]);
        }
        i = i + 1;
    }
    assert(rn.take(np as int) =~= rn);
    let start: String = match start_rule {
        Some(sr) => {
            if !defined.contains(sr) {
                let mut e = String::new();
                e.append("rule '");
                e.append(sr);
                e.append("' not found in grammar");
                assert(e@ =~= not_found_message(sr@));
                return Err(e);
            }
            owned(sr)
        },
        None => match grammar.root_rule() {
            Some(root) => owned(root),
            None => String::new(),
        },
    };
    assert(start@ == start_of(*grammar, opt_view(start_rule)));
    let mut edges = build_raw_edges(grammar);
    if start_rule.is_some() && !start.as_str().is_empty() {
        let (e2, d2) = filter_reachable(edges, &defined, start.as_str());
        edges = e2;
        defined = d2;
    }
    let (undefined, warnings) = compute_undefined(&edges, &defined);
    let data = GraphData { edges, start, defined, undefined };
    Ok((data, warnings))
}

/// Whether `n` is an endpoint of some edge.
pub open spec fn is_endpoint(edges: Seq<EdgeView>, n: Seq<char>) -> bool {
    exists|i: int| 0 <= i < edges.len() && (edges[i].0 == n || edges[i].1 == n)
}

/// Defined rules that are neither the start symbol nor an endpoint of any edge.
pub open spec fn isolated_names(v: GraphView) -> Set<Seq<char>> {
    v.defined.filter(|n: Seq<char>| n != v.start && !is_endpoint(v.edges, n))
}

fn endpoint_of(edges: &Vec<(String, String)>, name: &str) -> (r: bool)
    ensures
        r == is_endpoint(edge_views(edges@), name@),
{
    let n = edges.len();
    let mut i: usize = 0;
    while i < n
        invariant
            n == edges.len(),
            i <= n,
            forall|k: int|
                0 <= k < i ==> edge_views(edges@)[k].0 != name@ && edge_views(edges@)[k].1 != name@,
        decreases n - i,
    {
        if name_eq(edges[i].0.as_str(), name) || name_eq(edges[i].1.as_str(), name) {
            assert(edge_views(edges@)[i as int].0 == name@ || edge_views(edges@)[i as int].1 == name@);
            return true;
        }
        i = i + 1;
    }
    false
}

/// Defined rule names that appear in no edge and are not the start symbol, in sorted order.
pub fn isolated_nodes(data: &GraphData) -> (r: Vec<String>)
    ensures
        views(r@) == sorted_names(isolated_names(data@)),
{
    let ghost v = data@;
    let ghost p = |n: Seq<char>| n != v.start && !is_endpoint(v.edges, n);
    let items = data.defined.items();
    let nd = items.len();
    let mut kept = NameSet::new();
    let mut d: usize = 0;
    let ghost names = views(items@);
    assert(names.take(0).to_set().filter(p) =~= Set::<Seq<char>>::empty());
    while d < nd
        invariant
            nd == items.len(),
            names == views(items@),
            v == data@,
            p == (|n: Seq<char>| n != v.start && !is_endpoint(v.edges, n)),
            d <= nd,
            kept@ == names.take(d as int).to_set().filter(p),
        decreases nd - d,
    {
        let is_start = name_eq(items[d].as_str(), data.start.as_str());
        if !is_start && !endpoint_of(&data.edges, items[d].as_str()) {
            kept.insert(items[d].clone());
        }
        assert(names.take(d + 1) =~= names.take(d as int).push(names[d as int]));
        proof {
            names.take(d as int).lemma_push_to_set_commute(names[d as int]);
        }
        assert(kept@ =~= names.take(d + 1).to_set().filter(p));
        d = d + 1;
    }
    assert(names.take(nd as int) =~= names);
    assert(kept@ =~= isolated_names(data@));
    kept.sorted()
}


/// Some rule of `g` named `a` refers to `b` in its body.
pub open spec fn refers_to(g: Grammar, a: Seq<char>, b: Seq<char>) -> bool {
    exists|i: int|
        0 <= i < g.rules().len() && #[trigger] g.rules()[i].name@ == a
            && g.rules()[i].body.referenced_names().contains(b)
}

proof fn lemma_all_references_contains(rules: Seq<Production>, a: Seq<char>, b: Seq<char>)
    ensures
        all_references(rules).contains((a, b)) <==> exists|i: int|
            0 <= i < rules.len() && #[trigger] rules[i].name@ == a
                && rules[i].body.referenced_names().contains(b),
    decreases rules.len(),
{
    if rules.len() > 0 {
        let d = rules.drop_last();
        let last = rules.last();
        let pe = production_edges(last);
        let rn = last.body.referenced_names();
        lemma_all_references_contains(d, a, b);
        let all = all_references(rules);
        let ad = all_references(d);
        assert(all == ad + pe);
        if all.contains((a, b)) {
            let k = choose|k: int| 0 <= k < all.len() && all[k] == (a, b);
            if k < ad.len() {
                assert(ad[k] == (a, b));
                let i = choose|i: int|
                    0 <= i < d.len() && #[trigger] d[i].name@ == a
                        && d[i].body.referenced_names().contains(b);
                assert(rules[i] == d[i]);
            } else {
                assert(pe[k - ad.len()] == (a, b));
                assert(rn[k - ad.len()] == b);
                assert(rules[rules.len() - 1].name@ == a);
            }
        }
        if exists|i: int|
            0 <= i < rules.len() && #[trigger] rules[i].name@ == a
                && rules[i].body.referenced_names().contains(b) {
            let i = choose|i: int|
                0 <= i < rules.len() && #[trigger] rules[i].name@ == a
                    && rules[i].body.referenced_names().contains(b);
            if i < d.len() {
                assert(d[i] == rules[i]);
                assert(ad.contains((a, b)));
                let k = choose|k: int| 0 <= k < ad.len() && ad[k] == (a, b);
                assert(all[k] == (a, b));
            } else {
                let m = choose|m: int| 0 <= m < rn.len() && rn[m] == b;
                assert(pe[m] == (a, b));
                assert(all[ad.len() + m] == (a, b));
            }
        }
    }
}

/// The raw edges of a grammar are distinct, and `(a, b)` is one of them exactly when
/// rule `a` refers to `b`.
pub proof fn lemma_raw_edges(g: Grammar)
    ensures
        raw_edges(g).no_duplicates(),
        forall|a: Seq<char>, b: Seq<char>| #[trigger] raw_edges(g).contains((a, b)) <==> refers_to(g, a, b),
{
    lemma_first_occurrences(all_references(g.rules()));
    assert forall|a: Seq<char>, b: Seq<char>| #[trigger] raw_edges(g).contains((a, b)) <==> refers_to(g, a, b) by {
        lemma_all_references_contains(g.rules(), a, b);
    }
}

/// `(a, b)` is a raw edge of a grammar exactly when the body of rule `a` holds a reference to
/// `b` somewhere inside it, at any depth.
pub proof fn lemma_raw_edges_mentions(g: Grammar, a: Seq<char>, b: Seq<char>)
    ensures
        raw_edges(g).contains((a, b)) <==> exists|i: int|
            0 <= i < g.rules().len() && #[trigger] g.rules()[i].name@ == a && g.rules()[i].body.mentions(b),
{
    lemma_raw_edges(g);
    if raw_edges(g).contains((a, b)) {
        let i = choose|i: int|
            0 <= i < g.rules().len() && #[trigger] g.rules()[i].name@ == a
                && g.rules()[i].body.referenced_names().contains(b);
        g.rules()[i].body.lemma_referenced_names_mentions(b);
    }
    if exists|i: int|
        0 <= i < g.rules().len() && #[trigger] g.rules()[i].name@ == a && g.rules()[i].body.mentions(b) {
        let i = choose|i: int|
            0 <= i < g.rules().len() && #[trigger] g.rules()[i].name@ == a && g.rules()[i].body.mentions(b);
        g.rules()[i].body.lemma_referenced_names_mentions(b);
        assert(refers_to(g, a, b));
    }
}

/// A defined rule is isolated exactly when it is not the start symbol and no edge starts or
/// ends at it.
pub proof fn lemma_isolated_names(v: GraphView, n: Seq<char>)
    ensures
        isolated_names(v).contains(n) <==> (v.defined.contains(n) && n != v.start && forall|i: int|
            0 <= i < v.edges.len() ==> #[trigger] v.edges[i].0 != n && v.edges[i].1 != n),
{
    if !isolated_names(v).contains(n) && v.defined.contains(n) && n != v.start {
        assert(is_endpoint(v.edges, n));
        let i = choose|i: int| 0 <= i < v.edges.len() && (v.edges[i].0 == n || v.edges[i].1 == n);
    }
}

proof fn lemma_filter_no_duplicates<A>(s: Seq<A>, f: spec_fn(A) -> bool)
    requires
        s.no_duplicates(),
    ensures
        s.filter(f).no_duplicates(),
    decreases s.len(),
{
    if s.len() > 0 {
        let d = s.drop_last();
        let x = s.last();
        assert(s =~= d.push(x));
        assert(d.no_duplicates()) by {
            assert forall|i: int, j: int| 0 <= i < d.len() && 0 <= j < d.len() && i != j implies d[i]
                != d[j] by {
                assert(s[i] == d[i] && s[j] == d[j]);
            }
        }
        lemma_filter_no_duplicates(d, f);
        d.lemma_filter_push(x, f);
        if f(x) {
            let fd = d.filter(f);
            assert(!fd.contains(x)) by {
                if fd.contains(x) {
                    d.lemma_filter_contains_rev(f, x);
                    let k = choose|k: int| 0 <= k < d.len() && d[k] == x;
                    assert(s[k] == s[s.len() - 1]);
                }
            }
            assert forall|i: int, j: int|
                0 <= i < fd.push(x).len() && 0 <= j < fd.push(x).len() && i != j implies fd.push(
                x,
            )[i] != fd.push(x)[j] by {
                if i < fd.len() && j < fd.len() {
                } else if i < fd.len() {
                    assert(fd.contains(fd[i]));
                } else {
                    assert(fd.contains(fd[j]));
                }
            }
        }
    }
}

/// The edges of a graph are distinct.
pub proof fn lemma_graph_edges_distinct(g: Grammar, start_rule: Option<Seq<char>>)
    ensures
        graph_of(g, start_rule).edges.no_duplicates(),
{
    lemma_raw_edges(g);
    let start = start_of(g, start_rule);
    if start_rule is Some && start.len() > 0 {
        lemma_filter_no_duplicates(raw_edges(g), from_reachable(raw_edges(g), start));
    }
}

/// Every edge starts at a defined rule and ends at a defined or an undefined rule, and no
/// rule is both defined and undefined: `defined` and `undefined` together cover every node.
pub proof fn lemma_graph_covers_endpoints(g: Grammar, start_rule: Option<Seq<char>>)
    ensures
        forall|i: int|
            0 <= i < graph_of(g, start_rule).edges.len() ==> {
                &&& graph_of(g, start_rule).defined.contains(
                    #[trigger] graph_of(g, start_rule).edges[i].0,
                )
                &&& graph_of(g, start_rule).defined.contains(graph_of(g, start_rule).edges[i].1)
                    || graph_of(g, start_rule).undefined.contains(
                    graph_of(g, start_rule).edges[i].1,
                )
            },
        graph_of(g, start_rule).defined.disjoint(graph_of(g, start_rule).undefined),
{
    let v = graph_of(g, start_rule);
    let raw = raw_edges(g);
    let start = start_of(g, start_rule);
    let restrict = start_rule is Some && start.len() > 0;
    lemma_raw_edges(g);
    assert forall|i: int| 0 <= i < v.edges.len() implies v.defined.contains(#[trigger] v.edges[i].0) && (
    v.defined.contains(v.edges[i].1) || v.undefined.contains(v.edges[i].1)) by {
        let e = v.edges[i];
        assert(v.edges.contains(e));
        if restrict {
            raw.lemma_filter_contains_rev(from_reachable(raw, start), e);
            raw.lemma_filter_pred(from_reachable(raw, start), i);
        }
        assert(raw.contains((e.0, e.1)));
        assert(refers_to(g, e.0, e.1));
        let k = choose|k: int|
            0 <= k < g.rules().len() && #[trigger] g.rules()[k].name@ == e.0
                && g.rules()[k].body.referenced_names().contains(e.1);
        assert(rule_names(g.rules())[k] == e.0);
        assert(defined_names(g).contains(e.0));
        if !v.defined.contains(e.1) {
            assert(edge_targets(v.edges).contains(e.1));
        }
    }
    assert(v.defined.disjoint(v.undefined));
}

/// With a requested start rule, the graph holds exactly the edges whose source the start rule
/// reaches and the defined rules it reaches; both ends of every kept edge are reachable.
pub proof fn lemma_restricted_graph(g: Grammar, start: Seq<char>)
    requires
        start.len() > 0,
    ensures
        graph_of(g, Some(start)).start == start,
        forall|e: EdgeView| #[trigger] graph_of(g, Some(start)).edges.contains(e) <==> (raw_edges(g).contains(e)
            && reaches(raw_edges(g), start, e.0)),
        forall|n: Seq<char>| #[trigger] graph_of(g, Some(start)).defined.contains(n) <==> (defined_names(g).contains(n)
            && reaches(raw_edges(g), start, n)),
        forall|e: EdgeView| #[trigger] graph_of(g, Some(start)).edges.contains(e) ==> reaches(raw_edges(g), start, e.1),
{
    let v = graph_of(g, Some(start));
    let raw = raw_edges(g);
    let f = from_reachable(raw, start);
    assert forall|e: EdgeView| #[trigger] v.edges.contains(e) <==> (raw.contains(e) && reaches(raw, start, e.0)) by {
        if v.edges.contains(e) {
            raw.lemma_filter_contains_rev(f, e);
            let i = choose|i: int| 0 <= i < v.edges.len() && v.edges[i] == e;
            raw.lemma_filter_pred(f, i);
        }
        if raw.contains(e) && reaches(raw, start, e.0) {
            let i = choose|i: int| 0 <= i < raw.len() && raw[i] == e;
            raw.lemma_filter_contains(f, i);
        }
    }
    assert forall|e: EdgeView| #[trigger] v.edges.contains(e) implies reaches(raw, start, e.1) by {
        lemma_reaches_step(raw, start, e.0, e.1);
    }
}

/// Without a requested start rule, the start symbol is the first `%axiom` name if any, else
/// the first production's name, else empty; with one, it is the requested rule.
pub proof fn lemma_graph_start(g: Grammar, start_rule: Option<Seq<char>>)
    ensures
        graph_of(g, start_rule).start == match start_rule {
            Some(s) => s,
            None => if g.axiom_names().len() > 0 {
                g.axiom_names()[0]
            } else if g.rules().len() > 0 {
                g.rules()[0].name@
            } else {
                Seq::empty()
            },
        },
{
}

/// The defined and undefined rules of a graph are finite sets.
pub proof fn lemma_graph_finite(g: Grammar, start_rule: Option<Seq<char>>)
    ensures
        graph_of(g, start_rule).defined.finite(),
        graph_of(g, start_rule).undefined.finite(),
{
    let v = graph_of(g, start_rule);
    assert(defined_names(g).finite());
    vstd::set_lib::lemma_set_subset_finite(defined_names(g), v.defined);
    assert(edge_targets(v.edges) =~= target_seq(v.edges).to_set()) by {
        assert forall|x: Seq<char>| edge_targets(v.edges).contains(x) <==> target_seq(v.edges).to_set().contains(x) by {
            if edge_targets(v.edges).contains(x) {
                let i = choose|i: int| 0 <= i < v.edges.len() && v.edges[i].1 == x;
                assert(target_seq(v.edges)[i] == x);
            }
            if target_seq(v.edges).to_set().contains(x) {
                let i = choose|i: int| 0 <= i < target_seq(v.edges).len() && target_seq(v.edges)[i] == x;
                assert(v.edges[i].1 == x);
            }
        }
    }
    vstd::set_lib::lemma_set_subset_finite(edge_targets(v.edges), v.undefined);
}

/// The warnings of a graph are strictly sorted and hold exactly one message per undefined rule.
pub proof fn lemma_graph_warnings(g: Grammar, start_rule: Option<Seq<char>>)
    ensures
        strictly_sorted(sorted_names(warning_messages(graph_of(g, start_rule).undefined))),
        forall|n: Seq<char>| #[trigger] sorted_names(warning_messages(graph_of(g, start_rule).undefined)).contains(
            warning_message(n),
        ) <==> graph_of(g, start_rule).undefined.contains(n),
        sorted_names(warning_messages(graph_of(g, start_rule).undefined)).len()
            == graph_of(g, start_rule).undefined.len(),
{
    let u = graph_of(g, start_rule).undefined;
    lemma_graph_finite(g, start_rule);
    let f = |n: Seq<char>| warning_message(n);
    assert(warning_messages(u) =~= u.map(f));
    u.lemma_map_finite(f);
    lemma_sorted_names(warning_messages(u));
    let w = sorted_names(warning_messages(u));
    assert forall|n: Seq<char>| #[trigger] w.contains(warning_message(n)) <==> u.contains(n) by {
        if w.contains(warning_message(n)) {
            assert(w.to_set().contains(warning_message(n)));
            let m = choose|m: Seq<char>| u.contains(m) && warning_message(n) == warning_message(m);
            lemma_warning_message_injective(n, m);
        }
        if u.contains(n) {
            assert(warning_messages(u).contains(warning_message(n)));
            assert(w.to_set().contains(warning_message(n)));
        }
    }
    assert forall|a: Seq<char>, b: Seq<char>| u.contains(a) && u.contains(b) && #[trigger] f(a) == #[trigger] f(b) implies a == b by {
        lemma_warning_message_injective(a, b);
    }
    vstd::set_lib::lemma_map_size(u, warning_messages(u), f);
    crate::names::lemma_sorted_no_duplicates(w);
    w.unique_seq_to_set();
}

} // verus!
