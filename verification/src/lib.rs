//! Rule-dependency graphs of BNF grammars, with Graphviz DOT and Mermaid renderings.

pub mod emit;
pub mod grammar;
pub mod graph;
pub mod names;
