//! Transpiler from line-oriented templates to Python source, with source
//! maps back to the template.
pub mod text;
pub mod lexer;
pub mod structure;
pub mod transpile;
pub mod guarantees;

pub use lexer::{classify_line, lex, Line, LineType};
pub use structure::{content_bounds, find_structure, has_async_construct, has_await};
pub use transpile::{transpile, transpile_ext, BlockKind, PythonPiece, SourceMapping, TranspileResult};
