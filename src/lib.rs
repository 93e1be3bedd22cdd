//! A small JSON reader and writer: a document is read into a tree of
//! values, and a value is written back as text the reader accepts.
pub mod grammar;
pub mod laws;
pub mod object;
pub mod parser;
pub mod serialize;
pub mod text;
pub mod value;

pub use grammar::ErrorKind;
pub use parser::JsonParseError;
pub use value::{Json, JsonModel, NumModel, Number};
