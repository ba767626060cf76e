use std::collections::HashSet;

use ts_bnf_tool::emit::{emit_dot, emit_mermaid, mermaid_id};
use ts_bnf_tool::grammar::{Grammar, GrammarNode, Production, SpannedName};
use ts_bnf_tool::graph::build_graph;

fn p(name: &str, body: GrammarNode) -> Production {
    Production::new(name.to_string(), body)
}

fn nt(name: &str) -> GrammarNode {
    GrammarNode::NonTerminal(name.into())
}

fn di(name: &str, line: usize) -> SpannedName {
    SpannedName {
        name: name.to_string(),
        line,
    }
}

/// Convenience: build a two-rule grammar `root -> a ; a -> /x/ ;`.
fn two_rule_grammar() -> Grammar {
    Grammar::from_rules(vec![
        p("root", GrammarNode::NonTerminal("a".into())),
        p("a", GrammarNode::TerminalPattern("/x/".into())),
    ])
}

#[test]
/// Non-terminal references in rule bodies produce directed edges.
fn basic_edges() {
    let g = Grammar::from_rules(vec![
        p(
            "expr",
            GrammarNode::Sequence(vec![
                nt("term"),
                GrammarNode::TerminalLiteral("'+'".into()),
                nt("term"),
            ]),
        ),
        p("term", GrammarNode::TerminalPattern("/[0-9]+/".into())),
    ]);
    let (data, _) = build_graph(&g, None).unwrap();
    assert_eq!(data.edges, vec![("expr".to_string(), "term".to_string())]);
}

#[test]
/// A directly recursive rule emits a self-edge.
fn self_edge() {
    let g = Grammar::from_rules(vec![p(
        "expr",
        GrammarNode::Choice(vec![
            GrammarNode::Sequence(vec![
                nt("expr"),
                GrammarNode::TerminalLiteral("'+'".into()),
                GrammarNode::TerminalPattern("/[0-9]+/".into()),
            ]),
            GrammarNode::TerminalPattern("/[0-9]+/".into()),
        ]),
    )]);
    let (data, _) = build_graph(&g, None).unwrap();
    assert!(data
        .edges
        .contains(&("expr".to_string(), "expr".to_string())));
}

#[test]
/// The start symbol is the first production in declaration order.
fn start_symbol_is_first_production() {
    let (data, _) = build_graph(&two_rule_grammar(), None).unwrap();
    assert_eq!(data.start, "root");
}

#[test]
/// `%axiom` overrides declaration order: the named rule is the start symbol.
fn start_symbol_honors_axiom() {
    let mut g = two_rule_grammar();
    g.declare_axiom(di("a", 1));
    let (data, _) = build_graph(&g, None).unwrap();
    assert_eq!(data.start, "a");
}

#[test]
/// A non-terminal that is referenced but never defined appears in `undefined` with a warning.
fn undefined_reference_detected() {
    let g = Grammar::from_rules(vec![p("root", nt("extern_rule"))]);
    let (data, warnings) = build_graph(&g, None).unwrap();
    assert!(data.undefined.contains("extern_rule"));
    assert!(warnings.iter().any(|w| w.contains("extern_rule")));
}

#[test]
/// `--start` restricts the graph to rules reachable from the named rule.
fn start_filter_prunes_unreachable() {
    let g = Grammar::from_rules(vec![
        p("root", nt("a")),
        p("a", GrammarNode::TerminalPattern("/x/".into())),
        p("unreachable", GrammarNode::TerminalPattern("/y/".into())),
    ]);
    let (data, _) = build_graph(&g, Some("a")).unwrap();
    let lhs_set: HashSet<&str> = data.edges.iter().map(|(l, _)| l.as_str()).collect();
    assert!(!lhs_set.contains("unreachable"));
    assert_eq!(data.start, "a");
}

#[test]
/// `--start` with a rule name not in the grammar returns an error.
fn start_unknown_rule_returns_error() {
    let g = Grammar::from_rules(vec![p("root", GrammarNode::TerminalPattern("/x/".into()))]);
    let err = match build_graph(&g, Some("missing")) {
        Err(e) => e,
        Ok(_) => panic!("expected an error for an unknown start rule"),
    };
    assert_eq!(err, "rule 'missing' not found in grammar");
    assert!(!err.starts_with("error:"));
}

#[test]
/// An empty grammar produces an empty graph without panicking.
fn empty_grammar_no_panic() {
    let (data, warnings) = build_graph(&Grammar::new(), None).unwrap();
    assert!(data.edges.is_empty());
    assert!(warnings.is_empty());
    assert!(emit_dot(&data).contains("digraph grammar {"));
}

#[test]
/// The start symbol node carries `shape=doublecircle` in DOT output.
fn dot_start_is_doublecircle() {
    let (data, _) = build_graph(&two_rule_grammar(), None).unwrap();
    assert!(emit_dot(&data).contains("\"root\" [shape=doublecircle]"));
}

#[test]
/// All DOT node IDs are quoted, so rule names that collide with DOT
/// keywords (`node`, `graph`, `edge`, …) still produce valid DOT.
fn dot_ids_are_quoted() {
    let g = Grammar::from_rules(vec![
        p("expr", nt("node")),
        p("node", GrammarNode::TerminalPattern("/[0-9]+/".into())),
    ]);
    let (data, _) = build_graph(&g, None).unwrap();
    let dot = emit_dot(&data);
    assert!(dot.contains("\"expr\" [shape=doublecircle];"));
    assert!(dot.contains("\"expr\" -> \"node\";"));
}

#[test]
/// A defined rule that appears in no edge is still emitted as a DOT node.
fn dot_isolated_node_emitted() {
    let g = Grammar::from_rules(vec![
        p("root", GrammarNode::TerminalPattern("/x/".into())),
        p("orphan", GrammarNode::TerminalPattern("/y/".into())),
    ]);
    let (data, _) = build_graph(&g, None).unwrap();
    assert!(emit_dot(&data).contains("  \"orphan\";"));
}

#[test]
/// Undefined references carry `style=dashed` in DOT output.
fn dot_undefined_is_dashed() {
    let g = Grammar::from_rules(vec![p("root", nt("extern_rule"))]);
    let (data, _) = build_graph(&g, None).unwrap();
    assert!(emit_dot(&data).contains("\"extern_rule\" [style=dashed]"));
}

#[test]
/// The start symbol node carries the `★` suffix in Mermaid output.
fn mermaid_start_has_star() {
    let (data, _) = build_graph(&two_rule_grammar(), None).unwrap();
    let mermaid = emit_mermaid(&data);
    assert!(mermaid.contains("★"));
    assert!(mermaid.contains("root"));
}

#[test]
/// A rule named after a Mermaid keyword (`end`) is emitted under an escaped
/// node ID with the real name as label, so the diagram still renders.
fn mermaid_reserved_name_escaped_in_edges() {
    let g = Grammar::from_rules(vec![
        p("root", nt("end")),
        p("end", GrammarNode::TerminalPattern("/x/".into())),
    ]);
    let (data, _) = build_graph(&g, None).unwrap();
    let mermaid = emit_mermaid(&data);
    assert!(mermaid.contains("root_ --> end_"));
    assert!(mermaid.contains("end_[\"end\"]"));
    assert!(!mermaid.contains("--> end\n"));
}

#[test]
/// An isolated rule named after a Mermaid statement keyword (`style`) is not
/// emitted as a bare keyword line, which Mermaid would parse as a statement.
fn mermaid_isolated_reserved_name_escaped() {
    let g = Grammar::from_rules(vec![
        p("root", GrammarNode::TerminalPattern("/x/".into())),
        p("style", GrammarNode::TerminalPattern("/y/".into())),
    ]);
    let (data, _) = build_graph(&g, None).unwrap();
    let mermaid = emit_mermaid(&data);
    assert!(!mermaid.lines().any(|l| l.trim() == "style"));
    assert!(mermaid.contains("style_[\"style\"]"));
}

#[test]
/// Undefined references carry the `⚠` suffix in Mermaid output.
fn mermaid_undefined_has_warning_symbol() {
    let g = Grammar::from_rules(vec![p("root", nt("extern_rule"))]);
    let (data, _) = build_graph(&g, None).unwrap();
    let mermaid = emit_mermaid(&data);
    assert!(mermaid.contains("⚠") && mermaid.contains("extern_rule"));
}

#[test]
fn mermaid_id_appends_underscore() {
    assert_eq!(mermaid_id("end"), "end_");
    assert_ne!(mermaid_id("a"), mermaid_id("a_"));
    assert!(mermaid_id("style").ends_with('_'));
}

#[test]
fn edges_are_deduplicated_in_declaration_order() {
    let g = Grammar::from_rules(vec![
        p(
            "root",
            GrammarNode::Sequence(vec![nt("b"), nt("a"), nt("b"), nt("a")]),
        ),
        p("a", GrammarNode::Choice(vec![nt("b"), nt("b")])),
        p("b", GrammarNode::TerminalPattern("/x/".into())),
    ]);
    let (data, warnings) = build_graph(&g, None).unwrap();
    assert_eq!(
        data.edges,
        vec![
            ("root".to_string(), "b".to_string()),
            ("root".to_string(), "a".to_string()),
            ("a".to_string(), "b".to_string()),
        ]
    );
    assert!(warnings.is_empty());
    assert!(data.undefined.is_empty());
    assert_eq!(data.defined.len(), 3);
}

#[test]
fn nested_repetitions_are_traversed_left_to_right() {
    let body = GrammarNode::Sequence(vec![
        GrammarNode::Optional(Box::new(nt("x"))),
        GrammarNode::ZeroOrMore(Box::new(GrammarNode::Choice(vec![nt("y"), nt("x")]))),
        GrammarNode::OneOrMore(Box::new(nt("z"))),
        GrammarNode::TerminalLiteral("';'".into()),
    ]);
    assert_eq!(
        body.nonterminal_names(),
        vec!["x".to_string(), "y".to_string(), "x".to_string(), "z".to_string()]
    );
}

#[test]
fn warnings_are_sorted_one_per_undefined_rule() {
    let g = Grammar::from_rules(vec![p(
        "root",
        GrammarNode::Sequence(vec![nt("zeta"), nt("alpha"), nt("zeta"), nt("Mid")]),
    )]);
    let (data, warnings) = build_graph(&g, None).unwrap();
    assert_eq!(
        warnings,
        vec![
            "warning: rule 'Mid' referenced but not defined".to_string(),
            "warning: rule 'alpha' referenced but not defined".to_string(),
            "warning: rule 'zeta' referenced but not defined".to_string(),
        ]
    );
    assert_eq!(data.undefined.len(), 3);
    assert!(!data.undefined.contains("root"));
    assert!(data.defined.contains("root"));
}

#[test]
fn empty_start_rule_is_an_unknown_rule() {
    let g = Grammar::from_rules(vec![p("root", nt("a"))]);
    match build_graph(&g, Some("")) {
        Err(e) => assert_eq!(e, "rule '' not found in grammar"),
        Ok(_) => panic!("expected an error"),
    }
}

#[test]
fn start_filter_follows_transitive_references() {
    let g = Grammar::from_rules(vec![
        p("root", GrammarNode::Sequence(vec![nt("a"), nt("c")])),
        p("a", nt("b")),
        p("b", GrammarNode::Sequence(vec![nt("a"), nt("missing")])),
        p("c", GrammarNode::TerminalPattern("/c/".into())),
    ]);
    let (data, warnings) = build_graph(&g, Some("a")).unwrap();
    assert_eq!(
        data.edges,
        vec![
            ("a".to_string(), "b".to_string()),
            ("b".to_string(), "a".to_string()),
            ("b".to_string(), "missing".to_string()),
        ]
    );
    assert_eq!(data.defined.len(), 2);
    assert!(data.defined.contains("a") && data.defined.contains("b"));
    assert!(!data.defined.contains("root") && !data.defined.contains("c"));
    assert_eq!(
        warnings,
        vec!["warning: rule 'missing' referenced but not defined".to_string()]
    );
}

#[test]
fn start_filter_drops_rules_referring_back_only() {
    let g = Grammar::from_rules(vec![
        p("root", nt("leaf")),
        p("leaf", GrammarNode::TerminalPattern("/x/".into())),
    ]);
    let (data, warnings) = build_graph(&g, Some("leaf")).unwrap();
    assert!(data.edges.is_empty());
    assert!(warnings.is_empty());
    assert_eq!(data.defined.sorted(), vec!["leaf".to_string()]);
}

#[test]
fn dot_output_is_exact() {
    let (data, _) = build_graph(&two_rule_grammar(), None).unwrap();
    assert_eq!(
        emit_dot(&data),
        "digraph grammar {\n  \"root\" [shape=doublecircle];\n  \"root\" -> \"a\";\n}\n"
    );
}

#[test]
fn dot_orders_undefined_and_isolated_nodes() {
    let g = Grammar::from_rules(vec![
        p("root", GrammarNode::Sequence(vec![nt("zz"), nt("Aa")])),
        p("b", GrammarNode::TerminalPattern("/b/".into())),
        p("B", GrammarNode::TerminalPattern("/B/".into())),
    ]);
    let (data, _) = build_graph(&g, None).unwrap();
    assert_eq!(
        emit_dot(&data),
        "digraph grammar {\n  \"root\" [shape=doublecircle];\n  \"Aa\" [style=dashed];\n  \"zz\" [style=dashed];\n  \"B\";\n  \"b\";\n  \"root\" -> \"zz\";\n  \"root\" -> \"Aa\";\n}\n"
    );
}

#[test]
fn dot_of_empty_grammar_has_no_start_line() {
    let (data, _) = build_graph(&Grammar::new(), None).unwrap();
    assert_eq!(emit_dot(&data), "digraph grammar {\n}\n");
    assert_eq!(emit_mermaid(&data), "graph TD\n");
}

#[test]
fn mermaid_output_is_exact() {
    let g = Grammar::from_rules(vec![
        p("root", GrammarNode::Sequence(vec![nt("a"), nt("extern_rule")])),
        p("a", GrammarNode::TerminalPattern("/x/".into())),
    ]);
    let (data, _) = build_graph(&g, None).unwrap();
    assert_eq!(
        emit_mermaid(&data),
        "graph TD\n  a_[\"a\"]\n  extern_rule_[\"extern_rule ⚠\"]\n  root_([\"root  ★\"])\n\n  root_ --> a_\n  root_ --> extern_rule_\n"
    );
}

#[test]
fn axiom_first_declaration_wins() {
    let mut g = two_rule_grammar();
    g.declare_axiom(di("a", 1));
    g.declare_axiom(di("root", 2));
    assert_eq!(g.root_rule(), Some("a"));
    let (data, _) = build_graph(&g, None).unwrap();
    assert_eq!(data.start, "a");
}

#[test]
fn undefined_axiom_is_still_the_start_symbol() {
    let mut g = two_rule_grammar();
    g.declare_axiom(di("nowhere", 1));
    let (data, _) = build_graph(&g, None).unwrap();
    assert_eq!(data.start, "nowhere");
    assert!(!data.defined.contains("nowhere"));
    let dot = emit_dot(&data);
    assert!(dot.contains("  \"nowhere\" [shape=doublecircle];\n"));
    assert!(dot.contains("  \"root\" -> \"a\";\n"));
    assert!(!dot.contains("\"root\" [shape=doublecircle]"));
}

#[test]
fn redefinition_keeps_position_and_last_body_wins() {
    let g = Grammar::from_rules(vec![
        p("root", nt("a")),
        p("a", GrammarNode::TerminalPattern("/x/".into())),
        p("root", nt("b")),
    ]);
    assert_eq!(g.productions().len(), 2);
    assert_eq!(g.productions()[0].name, "root");
    assert_eq!(g.root_rule(), Some("root"));
    let (data, warnings) = build_graph(&g, None).unwrap();
    assert_eq!(data.edges, vec![("root".to_string(), "b".to_string())]);
    assert_eq!(
        warnings,
        vec!["warning: rule 'b' referenced but not defined".to_string()]
    );
}

#[test]
fn root_rule_of_empty_grammar_is_none() {
    assert_eq!(Grammar::new().root_rule(), None);
    let (data, _) = build_graph(&Grammar::new(), None).unwrap();
    assert_eq!(data.start, "");
}
