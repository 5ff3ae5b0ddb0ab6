//! Parser and layout-preserving serializer for brace-structured game script files.
pub mod ast;
pub mod lexer;
pub mod localisation;
pub mod parser;
pub mod round_trip;
pub mod serializer;
pub mod string_utils;
pub mod text;
pub mod words;

pub use ast::{Array, ArrayItem, Block, Date, Item, Key, Number, Operator, Pair, Value};
pub use parser::{parse_str, parse_str_with, Expected, ParseError, ParseOptions};
pub use serializer::{serialize_ast, serialize_ast_with, IndentStyle};
pub use string_utils::{escape_string, unescape_string};
