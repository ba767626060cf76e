//! The grammar model: rule bodies, productions in declaration order, and `%axiom` declarations.

use vstd::prelude::*;
use crate::names::{name_eq, views};

verus! {

/// A node of a rule body.
pub enum GrammarNode {
    /// A reference to a rule by name.
    NonTerminal(String),
    /// A quoted literal terminal, e.g. `'+'`.
    TerminalLiteral(String),
    /// A regular-expression terminal, e.g. `/[0-9]+/`.
    TerminalPattern(String),
    /// The items in order.
    Sequence(Vec<GrammarNode>),
    /// One of the alternatives.
    Choice(Vec<GrammarNode>),
    /// The item or nothing (`?`).
    Optional(Box<GrammarNode>),
    /// Zero or more repetitions (`*`).
    ZeroOrMore(Box<GrammarNode>),
    /// One or more repetitions (`+`).
    OneOrMore(Box<GrammarNode>),
}

impl GrammarNode {
    /// The names of the rules this node refers to, in left-to-right order, repeats included.
    pub open spec fn referenced_names(self) -> Seq<Seq<char>>
        decreases self,
    {
        match self {
            GrammarNode::NonTerminal(n) => seq![n@],
            GrammarNode::TerminalLiteral(_) => Seq::empty(),
            GrammarNode::TerminalPattern(_) => Seq::empty(),
            GrammarNode::Sequence(v) => list_referenced_names(v@),
            GrammarNode::Choice(v) => list_referenced_names(v@),
            GrammarNode::Optional(b) => (*b).referenced_names(),
            GrammarNode::ZeroOrMore(b) => (*b).referenced_names(),
            GrammarNode::OneOrMore(b) => (*b).referenced_names(),
        }
    }

    /// Whether a `NonTerminal(n)` node occurs in this node, at any depth.
    pub open spec fn mentions(self, n: Seq<char>) -> bool
        decreases self,
    {
        match self {
            GrammarNode::NonTerminal(m) => m@ == n,
            GrammarNode::TerminalLiteral(_) => false,
            GrammarNode::TerminalPattern(_) => false,
            GrammarNode::Sequence(v) => some_mentions(v@, n),
            GrammarNode::Choice(v) => some_mentions(v@, n),
            GrammarNode::Optional(b) => (*b).mentions(n),
            GrammarNode::ZeroOrMore(b) => (*b).mentions(n),
            GrammarNode::OneOrMore(b) => (*b).mentions(n),
        }
    }

    /// A name is among the referenced names exactly when a `NonTerminal` of that name occurs
    /// somewhere inside the node: every reference is found, at any depth and under any
    /// `?`, `*`, `+`, sequence or choice, and nothing else is.
    pub proof fn lemma_referenced_names_mentions(self, n: Seq<char>)
        ensures
            self.referenced_names().contains(n) <==> self.mentions(n),
        decreases self,
    {
        match self {
            GrammarNode::NonTerminal(m) => {
                let r = self.referenced_names();
                assert(r == seq![m@]);
                assert(self.mentions(n) == (m@ == n));
                if r.contains(n) {
                    let k = choose|k: int| 0 <= k < r.len() && r[k] == n;
                    assert(k == 0);
                    assert(r[0] == m@);
                    assert(m@ == n);
                    assert(self.mentions(n));
                }
                if self.mentions(n) {
                    assert(m@ == n);
                    assert(r[0] == n);
                    assert(r.contains(n));
                }
            },
            GrammarNode::TerminalLiteral(_) => {
                assert(self.referenced_names().contains(n) <==> self.mentions(n));
            },
            GrammarNode::TerminalPattern(_) => {
                assert(self.referenced_names().contains(n) <==> self.mentions(n));
            },
            GrammarNode::Sequence(v) => {
                lemma_list_referenced_names_mentions(v@, n);
            },
            GrammarNode::Choice(v) => {
                lemma_list_referenced_names_mentions(v@, n);
            },
            GrammarNode::Optional(b) => {
                (*b).lemma_referenced_names_mentions(n);
                assert(self.referenced_names().contains(n) <==> self.mentions(n));
            },
            GrammarNode::ZeroOrMore(b) => {
                (*b).lemma_referenced_names_mentions(n);
                assert(self.referenced_names().contains(n) <==> self.mentions(n));
            },
            GrammarNode::OneOrMore(b) => {
                (*b).lemma_referenced_names_mentions(n);
                assert(self.referenced_names().contains(n) <==> self.mentions(n));
            },
        }
    }

    /// The names of the rules this node refers to, in left-to-right order, repeats included.
    pub fn nonterminal_names(&self) -> (r: Vec<String>)
        ensures
            views(r@) == self.referenced_names(),
            forall|n: Seq<char>| #[trigger] views(r@).contains(n) <==> self.mentions(n),
    {
        let mut out: Vec<String> = Vec::new();
        self.collect_names(&mut out);
        assert(views(out@) =~= Seq::<Seq<char>>::empty() + self.referenced_names());
        assert forall|n: Seq<char>| #[trigger] views(out@).contains(n) <==> self.mentions(n) by {
            self.lemma_referenced_names_mentions(n);
        }
        out
    }

    fn collect_names(&self, out: &mut Vec<String>)
        ensures
            views(final(out)@) == views(old(out)@) + self.referenced_names(),
        decreases self,
    {
        match self {
            GrammarNode::NonTerminal(n) => {
                out.push(n.clone());
                assert(views(out@) =~= views(old(out)@) + seq![n@]);
            },
            GrammarNode::TerminalLiteral(_) => {
                assert(views(out@) =~= views(old(out)@) + Seq::<Seq<char>>::empty());
            },
            GrammarNode::TerminalPattern(_) => {
                assert(views(out@) =~= views(old(out)@) + Seq::<Seq<char>>::empty());
            },
            GrammarNode::Sequence(v) => {
                collect_list_names(v, out);
            },
            GrammarNode::Choice(v) => {
                collect_list_names(v, out);
            },
            GrammarNode::Optional(b) => {
                b.collect_names(out);
            },
            GrammarNode::ZeroOrMore(b) => {
                b.collect_names(out);
            },
            GrammarNode::OneOrMore(b) => {
                b.collect_names(out);
            },
        }
    }
}

/// The names referred to by a list of nodes, in order.
pub open spec fn list_referenced_names(s: Seq<GrammarNode>) -> Seq<Seq<char>>
    decreases s,
{
    if s.len() == 0 {
        Seq::empty()
    } else {
        list_referenced_names(s.drop_last()) + s.last().referenced_names()
    }
}

/// A `?`, `*` or `+` group refers to exactly the names its item refers to, whatever the item
/// is; a sequence or a choice refers to exactly the names its items refer to.
pub proof fn lemma_group_names(x: GrammarNode, v: Vec<GrammarNode>, n: Seq<char>)
    ensures
        GrammarNode::Optional(Box::new(x)).referenced_names().contains(n) <==> x.referenced_names().contains(n),
        GrammarNode::ZeroOrMore(Box::new(x)).referenced_names().contains(n) <==> x.referenced_names().contains(n),
        GrammarNode::OneOrMore(Box::new(x)).referenced_names().contains(n) <==> x.referenced_names().contains(n),
        GrammarNode::Sequence(v).referenced_names().contains(n) <==> exists|i: int|
            0 <= i < v@.len() && #[trigger] v@[i].referenced_names().contains(n),
        GrammarNode::Choice(v).referenced_names().contains(n) <==> exists|i: int|
            0 <= i < v@.len() && #[trigger] v@[i].referenced_names().contains(n),
{
    x.lemma_referenced_names_mentions(n);
    GrammarNode::Optional(Box::new(x)).lemma_referenced_names_mentions(n);
    GrammarNode::ZeroOrMore(Box::new(x)).lemma_referenced_names_mentions(n);
    GrammarNode::OneOrMore(Box::new(x)).lemma_referenced_names_mentions(n);
    GrammarNode::Sequence(v).lemma_referenced_names_mentions(n);
    GrammarNode::Choice(v).lemma_referenced_names_mentions(n);
    lemma_some_mentions(v@, n);
    assert(GrammarNode::Sequence(v).mentions(n) == some_mentions(v@, n));
    assert(GrammarNode::Choice(v).mentions(n) == some_mentions(v@, n));
    if some_mentions(v@, n) {
        let i = choose|i: int| 0 <= i < v@.len() && #[trigger] v@[i].mentions(n);
        v@[i].lemma_referenced_names_mentions(n);
    }
    if exists|i: int| 0 <= i < v@.len() && #[trigger] v@[i].referenced_names().contains(n) {
        let i = choose|i: int| 0 <= i < v@.len() && #[trigger] v@[i].referenced_names().contains(n);
        v@[i].lemma_referenced_names_mentions(n);
    }
}

/// Whether some node of the list mentions `n`.
pub open spec fn some_mentions(s: Seq<GrammarNode>, n: Seq<char>) -> bool
    decreases s,
{
    if s.len() == 0 {
        false
    } else {
        some_mentions(s.drop_last(), n) || s.last().mentions(n)
    }
}

/// `some_mentions` holds exactly when one of the nodes mentions `n`.
pub proof fn lemma_some_mentions(s: Seq<GrammarNode>, n: Seq<char>)
    ensures
        some_mentions(s, n) <==> exists|i: int| 0 <= i < s.len() && #[trigger] s[i].mentions(n),
    decreases s.len(),
{
    if s.len() > 0 {
        let d = s.drop_last();
        lemma_some_mentions(d, n);
        if some_mentions(d, n) {
            let i = choose|i: int| 0 <= i < d.len() && #[trigger] d[i].mentions(n);
            assert(s[i] == d[i]);
        }
        if s.last().mentions(n) {
            assert(s[s.len() - 1].mentions(n));
        }
        if exists|i: int| 0 <= i < s.len() && #[trigger] s[i].mentions(n) {
            let i = choose|i: int| 0 <= i < s.len() && #[trigger] s[i].mentions(n);
            if i < d.len() {
                assert(d[i] == s[i]);
            }
        }
    }
}

/// The names referred to by a list of nodes are those mentioned by one of its nodes.
pub proof fn lemma_list_referenced_names_mentions(s: Seq<GrammarNode>, n: Seq<char>)
    ensures
        list_referenced_names(s).contains(n) <==> exists|i: int|
            0 <= i < s.len() && #[trigger] s[i].mentions(n),
        list_referenced_names(s).contains(n) <==> some_mentions(s, n),
    decreases s,
{
    lemma_some_mentions(s, n);
    if s.len() > 0 {
        let d = s.drop_last();
        let x = s.last();
        lemma_list_referenced_names_mentions(d, n);
        x.lemma_referenced_names_mentions(n);
        let ld = list_referenced_names(d);
        let lx = x.referenced_names();
        let all = list_referenced_names(s);
        assert(all == ld + lx);
        if all.contains(n) {
            let k = choose|k: int| 0 <= k < all.len() && all[k] == n;
            if k < ld.len() {
                assert(ld[k] == n);
                let i = choose|i: int| 0 <= i < d.len() && #[trigger] d[i].mentions(n);
                assert(s[i] == d[i]);
            } else {
                assert(lx[k - ld.len()] == n);
                assert(s[s.len() - 1].mentions(n));
            }
        }
        if exists|i: int| 0 <= i < s.len() && #[trigger] s[i].mentions(n) {
            let i = choose|i: int| 0 <= i < s.len() && #[trigger] s[i].mentions(n);
            if i < d.len() {
                assert(d[i] == s[i]);
                assert(ld.contains(n));
                let k = choose|k: int| 0 <= k < ld.len() && ld[k] == n;
                assert(all[k] == n);
            } else {
                assert(lx.contains(n));
                let k = choose|k: int| 0 <= k < lx.len() && lx[k] == n;
                assert(all[ld.len() + k] == n);
            }
        }
    }
}

fn collect_list_names(v: &Vec<GrammarNode>, out: &mut Vec<String>)
    ensures
        views(final(out)@) == views(old(out)@) + list_referenced_names(v@),
    decreases v,
{
    let n = v.len();
    let mut i: usize = 0;
    assert(v@.take(0) =~= Seq::<GrammarNode>::empty());
    assert(views(out@) =~= views(old(out)@) + list_referenced_names(v@.take(0)));
    while i < n
        invariant
            n == v.len(),
            i <= n,
            views(out@) == views(old(out)@) + list_referenced_names(v@.take(i as int)),
        decreases n - i,
    {
        assert(decreases_to!(v => v@[i as int]));
        v[i].collect_names(out);
        assert(v@.take(i + 1).drop_last() =~= v@.take(i as int));
        i = i + 1;
    }
    assert(v@.take(n as int) =~= v@);
}

/// A rule definition: `name -> body ;`.
pub struct Production {
    /// The rule's name.
    pub name: String,
    /// The rule's body.
    pub body: GrammarNode,
}

impl Production {
    /// A rule named `name` with the given body.
    pub fn new(name: String, body: GrammarNode) -> (r: Self)
        ensures
            r.name == name,
            r.body == body,
    {
        Production { name, body }
    }
}

/// A name as written in a directive, with the line it was declared on.
pub struct SpannedName {
    /// The name.
    pub name: String,
    /// The 1-based source line of the declaration.
    pub line: usize,
}

/// The rule names of a list of productions, in order.
pub open spec fn rule_names(rules: Seq<Production>) -> Seq<Seq<char>> {
    rules.map_values(|p: Production| p.name@)
}

/// The rules after defining `p`: a rule of the same name keeps its place and takes the new body
/// (the last definition wins); a new name is appended.
pub open spec fn with_rule(rules: Seq<Production>, p: Production) -> Seq<Production> {
    if rule_names(rules).contains(p.name@) {
        rules.update(rule_names(rules).index_of(p.name@), p)
    } else {
        rules.push(p)
    }
}

/// The rules obtained by defining each production of `s` in turn, starting from none.
pub open spec fn rules_from(s: Seq<Production>) -> Seq<Production>
    decreases s.len(),
{
    if s.len() == 0 {
        Seq::empty()
    } else {
        with_rule(rules_from(s.drop_last()), s.last())
    }
}

/// Defining a list of productions in turn yields each name once, exactly the names of the
/// list, and keeps every production that no later production of the same name replaces
/// (the last definition wins).
#[verifier::spinoff_prover]
#[verifier::rlimit(40)]
pub proof fn lemma_rules_from(s: Seq<Production>)
    ensures
        rule_names(rules_from(s)).no_duplicates(),
        rule_names(rules_from(s)).to_set() == rule_names(s).to_set(),
        forall|i: int|
            0 <= i < s.len() && (forall|j: int| i < j < s.len() ==> #[trigger] s[j].name@ != s[i].name@)
                ==> rules_from(s).contains(#[trigger] s[i]),
    decreases s.len(),
{
    if s.len() == 0 {
        assert(rule_names(rules_from(s)).to_set() =~= rule_names(s).to_set());
    } else {
        let d = s.drop_last();
        let x = s.last();
        lemma_rules_from(d);
        let r = rules_from(d);
        let nr = rule_names(r);
        let r2 = with_rule(r, x);
        assert(r2 == rules_from(s));
        let nr2 = rule_names(r2);
        if nr.contains(x.name@) {
            let idx = nr.index_of(x.name@);
            assert(nr2 =~= nr);
            assert forall|i: int|
                0 <= i < s.len() && (forall|j: int| i < j < s.len() ==> #[trigger] s[j].name@ != s[i].name@)
                    implies r2.contains(#[trigger] s[i]) by {
                if i == s.len() - 1 {
                    assert(r2[idx] == x);
                } else {
                    assert(d[i] == s[i]);
                    assert forall|j: int| i < j < d.len() implies #[trigger] d[j].name@ != d[i].name@ by {
                        assert(d[j] == s[j]);
                    }
                    assert(r.contains(d[i]));
                    let k = choose|k: int| 0 <= k < r.len() && r[k] == d[i];
                    assert(s[s.len() - 1].name@ != s[i].name@);
                    assert(nr[k] == s[i].name@);
                    assert(k != idx);
                    assert(r2[k] == s[i]);
                }
            }
        } else {
            assert(nr2 =~= nr.push(x.name@));
            assert forall|i: int, j: int| 0 <= i < nr2.len() && 0 <= j < nr2.len() && i != j implies nr2[i]
                != nr2[j] by {
                if i < nr.len() && j < nr.len() {
                } else if i < nr.len() {
                    assert(nr.contains(nr[i]));
                } else {
                    assert(nr.contains(nr[j]));
                }
            }
            assert forall|i: int|
                0 <= i < s.len() && (forall|j: int| i < j < s.len() ==> #[trigger] s[j].name@ != s[i].name@)
                    implies r2.contains(#[trigger] s[i]) by {
                if i == s.len() - 1 {
                    assert(r2[r.len() as int] == x);
                } else {
                    assert(d[i] == s[i]);
                    assert forall|j: int| i < j < d.len() implies #[trigger] d[j].name@ != d[i].name@ by {
                        assert(d[j] == s[j]);
                    }
                    assert(r.contains(d[i]));
                    let k = choose|k: int| 0 <= k < r.len() && r[k] == d[i];
                    assert(r2[k] == s[i]);
                }
            }
        }
        assert(rule_names(s) =~= rule_names(d).push(x.name@));
        assert(nr2.to_set() =~= rule_names(s).to_set()) by {
            assert forall|y: Seq<char>| nr2.to_set().contains(y) <==> rule_names(s).to_set().contains(y) by {
                if nr2.to_set().contains(y) {
                    let k = choose|k: int| 0 <= k < nr2.len() && nr2[k] == y;
                    if k < nr.len() && nr2[k] == nr[k] {
                        assert(nr.to_set().contains(y));
                        assert(rule_names(d).to_set().contains(y));
                        let m = choose|m: int| 0 <= m < rule_names(d).len() && rule_names(d)[m] == y;
                        assert(rule_names(s)[m] == y);
                    } else {
                        assert(y == x.name@);
                        assert(rule_names(s)[s.len() - 1] == y);
                    }
                }
                if rule_names(s).to_set().contains(y) {
                    let k = choose|k: int| 0 <= k < rule_names(s).len() && rule_names(s)[k] == y;
                    if k < d.len() {
                        assert(rule_names(d)[k] == y);
                        assert(rule_names(d).to_set().contains(y));
                        assert(nr.to_set().contains(y));
                        let m = choose|m: int| 0 <= m < nr.len() && nr[m] == y;
                        if nr2.len() == nr.len() {
                            assert(nr2[m] == y);
                        } else {
                            assert(nr2[m] == y);
                        }
                    } else {
                        if nr.contains(x.name@) {
                            let m = nr.index_of(x.name@);
                            assert(nr2[m] == y);
                        } else {
                            assert(nr2[nr.len() as int] == y);
                        }
                    }
                }
            }
        }
    }
}

/// A BNF grammar: its productions, keyed by rule name, in declaration order,
/// and its `%axiom` declarations.
pub struct Grammar {
    productions: Vec<Production>,
    axioms: Vec<SpannedName>,
}

impl Grammar {
    #[verifier::type_invariant]
    spec fn names_unique(self) -> bool {
        rule_names(self.productions@).no_duplicates()
    }

    /// The productions in declaration order.
    pub closed spec fn rules(self) -> Seq<Production> {
        self.productions@
    }

    /// The names declared by `%axiom`, in declaration order.
    pub closed spec fn axiom_names(self) -> Seq<Seq<char>> {
        self.axioms@.map_values(|d: SpannedName| d.name@)
    }

    /// The start symbol: the first `%axiom` name if any was declared,
    /// otherwise the first production's name.
    pub open spec fn start_symbol(self) -> Option<Seq<char>> {
        if self.axiom_names().len() > 0 {
            Some(self.axiom_names()[0])
        } else if self.rules().len() > 0 {
            Some(self.rules()[0].name@)
        } else {
            None
        }
    }

    /// A grammar with no rules and no directives.
    pub fn new() -> (g: Self)
        ensures
            g.rules() == Seq::<Production>::empty(),
            g.axiom_names() == Seq::<Seq<char>>::empty(),
    {
        let g = Grammar { productions: Vec::new(), axioms: Vec::new() };
        assert(g.axiom_names() =~= Seq::<Seq<char>>::empty());
        assert(rule_names(g.productions@) =~= Seq::<Seq<char>>::empty());
        g
    }

    /// A grammar holding the given productions in order, with no directives.
    pub fn from_rules(rules: Vec<Production>) -> (g: Self)
        ensures
            g.rules() == rules_from(rules@),
            g.axiom_names() == Seq::<Seq<char>>::empty(),
    {
        let mut g = Grammar::new();
        let mut rules = rules;
        let ghost all = rules@;
        let ghost n = all.len();
        while rules.len() > 0
            invariant
                n == all.len(),
                rules@.len() <= n,
                rules@ == all.subrange(n - rules@.len(), n as int),
                g.rules() == rules_from(all.subrange(0, n - rules@.len())),
                g.axiom_names() == Seq::<Seq<char>>::empty(),
            decreases rules.len(),
        {
            let ghost k = n - rules@.len();
            let p = rules.remove(0);
            assert(rules@ =~= all.subrange(k + 1, n as int));
            assert(all.subrange(0, k + 1).drop_last() =~= all.subrange(0, k));
            g.add_rule(p);
        }
        assert(all.subrange(0, n as int) =~= all);
        g
    }

    /// Defines a rule; a rule of the same name keeps its place and takes the new body.
    pub fn add_rule(&mut self, production: Production)
        ensures
            final(self).rules() == with_rule(old(self).rules(), production),
            final(self).axiom_names() == old(self).axiom_names(),
    {
        proof {
            use_type_invariant(&*self);
        }
        let ghost old_rules = self.productions@;
        let ghost names = rule_names(old_rules);
        let mut prods: Vec<Production> = Vec::new();
        std::mem::swap(&mut prods, &mut self.productions);
        let n = prods.len();
        let mut i: usize = 0;
        loop
            invariant
                n == prods.len(),
                prods@ == old_rules,
                names == rule_names(old_rules),
                i <= n,
                forall|k: int| 0 <= k < i ==> names[k] != production.name@,
            ensures
                i <= n,
                forall|k: int| 0 <= k < i ==> names[k] != production.name@,
                i < n ==> names[i as int] == production.name@,
            decreases n - i,
        {
            if i >= n {
                break;
            }
            if name_eq(prods[i].name.as_str(), production.name.as_str()) {
                break;
            }
            i = i + 1;
        }
        if i < n {
            assert(names[i as int] == production.name@);
            assert(names.contains(production.name@));
            assert(names.index_of(production.name@) == i) by {
                let j = names.index_of(production.name@);
                assert(names[j] == production.name@);
                if j != i {
                    assert(!names.no_duplicates());
                }
            }
            prods.set(i, production);
            assert(rule_names(prods@) =~= names.update(i as int, production.name@));
            assert(rule_names(prods@) =~= names);
        } else {
            assert(!names.contains(production.name@));
            let ghost nv = production.name@;
            prods.push(production);
            assert(rule_names(prods@) =~= names.push(nv));
        }
        self.productions = prods;
    }

    /// Records a `%axiom` declaration; the first declaration names the start symbol.
    pub fn declare_axiom(&mut self, ident: SpannedName)
        ensures
            final(self).axiom_names() == old(self).axiom_names().push(ident.name@),
            final(self).rules() == old(self).rules(),
    {
        proof {
            use_type_invariant(&*self);
        }
        let ghost nv = ident.name@;
        let mut axioms: Vec<SpannedName> = Vec::new();
        std::mem::swap(&mut axioms, &mut self.axioms);
        axioms.push(ident);
        assert(axioms@.map_values(|d: SpannedName| d.name@) =~= old(self).axiom_names().push(nv));
        self.axioms = axioms;
    }

    /// The productions in declaration order.
    pub fn productions(&self) -> (r: &Vec<Production>)
        ensures
            r@ == self.rules(),
            rule_names(r@).no_duplicates(),
    {
        proof {
            use_type_invariant(self);
        }
        &self.productions
    }

    /// The start symbol: the first `%axiom` name if any, else the first production's name.
    pub fn root_rule(&self) -> (r: Option<&str>)
        ensures
            match r {
                Some(s) => self.start_symbol() == Some(s@),
                None => self.start_symbol() is None,
            },
    {
        if self.axioms.len() > 0 {
            Some(self.axioms[0].name.as_str())
        } else if self.productions.len() > 0 {
            Some(self.productions[0].name.as_str())
        } else {
            None
        }
    }
}

} // verus!
