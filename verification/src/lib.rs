pub mod answers;
pub mod blob;
pub mod boxed;
pub mod bytes;
pub mod corpus;
pub mod cst;
pub mod diag;
pub mod error;
pub mod exec;
pub mod fixtures;
pub mod flatten;
pub mod iter;
pub mod layout;
pub mod lexer;
pub mod lower;
pub mod machine;
pub mod mem_store;
pub mod parse;
pub mod parser;
pub mod plan;
pub mod print;
pub mod program;
pub mod reading;
pub mod reorder;
pub mod schema;
pub mod shape;
pub mod syntax;
pub mod text;
pub mod tuple;
