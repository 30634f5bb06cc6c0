//! Turns a context-free grammar, given as a JSON tree of rule bodies, into a block of
//! mutually recursive type definitions.
//!
//! The work is done in three steps: [`grammar::parse_grammar`] reads the rules out of the
//! JSON tree, [`converter::convert_to_ast`] expands every rule body into a node tree and
//! places the helper definitions of repetitions behind their first use, and
//! [`converter::ast_to_string`] writes the definitions out. [`pipeline::generate`] goes
//! the whole way from a JSON value to the text of the definitions.
//!
//! What holds of all grammars is proved in [`laws`] and [`census`].

pub mod ast;
pub mod census;
pub mod converter;
pub mod expand;
pub mod grammar;
pub mod json_tree;
pub mod laws;
pub mod parser;
pub mod pipeline;
pub mod placement;
pub mod render;
pub mod text;
