//! The whole way from a JSON value to the text of the type definitions.

use crate::converter::{conversion_of, convert_to_ast, ConvertError};
use crate::json_tree::{json_tree, snapshot, JsonTree, JsonTreeView};
use crate::parser::{grammar_from_tree, grammar_of, ParseError};
use crate::render::{ast_to_string, render_ast};
use vstd::prelude::*;

verus! {

/// Why a JSON value gives no type definitions.
#[derive(Debug, Clone, Copy, PartialEq, Eq)]
pub enum GenerateError {
    /// The JSON value is no grammar.
    Shape(ParseError),
    /// The grammar cannot be converted.
    Structure(ConvertError),
}

/// The type definitions of the grammar that a JSON tree describes, or the first reason
/// why there are none.
pub open spec fn definitions_of(tree: JsonTreeView) -> Result<Seq<char>, GenerateError> {
    match grammar_of(tree) {
        Err(error) => Err(GenerateError::Shape(error)),
        Ok(grammar) => match conversion_of(grammar) {
            Err(error) => Err(GenerateError::Structure(error)),
            Ok(ast) => Ok(render_ast(ast)),
        },
    }
}

/// Writes the type definitions of the grammar that a JSON tree describes.
pub fn generate_from_tree(tree: &JsonTree) -> (result: Result<String, GenerateError>)
    ensures
        match result {
            Ok(text) => definitions_of(tree@) == Ok::<Seq<char>, GenerateError>(text@),
            Err(error) => definitions_of(tree@) == Err::<Seq<char>, GenerateError>(error),
        },
{
    let grammar = match grammar_from_tree(tree) {
        Ok(grammar) => grammar,
        Err(error) => {
            return Err(GenerateError::Shape(error));
        },
    };
    let ast = match convert_to_ast(grammar) {
        Ok(ast) => ast,
        Err(error) => {
            return Err(GenerateError::Structure(error));
        },
    };
    Ok(ast_to_string(ast))
}

/// Writes the type definitions of the grammar that a value of the `json` crate
/// describes.
pub fn generate(grammar: &json::JsonValue) -> (result: Result<String, GenerateError>)
    ensures
        match result {
            Ok(text) => definitions_of(json_tree(*grammar)) == Ok::<Seq<char>, GenerateError>(
                text@,
            ),
            Err(error) => definitions_of(json_tree(*grammar)) == Err::<Seq<char>, GenerateError>(
                error,
            ),
        },
{
    let tree = snapshot(grammar);
    generate_from_tree(&tree)
}

} // verus!
