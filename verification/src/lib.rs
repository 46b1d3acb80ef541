//! A build-time rendering (BTR) engine: a JSON-like value model with a
//! dotted-path resolver, a small boolean expression language (tokenizer and
//! evaluator), and a stream interpreter that renders a protocol document
//! against a state tree through a caller-supplied output sink.

pub mod values;
pub mod text;
pub mod expression;
pub mod protocol;
pub mod parser;

pub use values::Value;
