//! Algebraic expressions with named free variables, for the nodes of a graph
//! canvas: a tokenizer and a recursive-descent parser, the ordered binding
//! set of an expression, and the reconciliation that keeps a node's input
//! connections attached to the right variables whenever its expression text
//! is edited. Besides, the resolution of a graph description's edges onto
//! canvas nodes when such a description is imported.

pub mod ast;
pub mod lexer;
pub mod parser;
pub mod bindings;
pub mod wiring;
pub mod node;
pub mod canvas;
pub mod dot_import;
