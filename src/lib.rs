//! A small Lisp in the Clojure family: a reader that turns text into forms and an
//! evaluator that runs those forms against a chain of lexical frames.
pub mod environment;
pub mod eval;
pub mod laws;
pub mod printer;
pub mod reader;
pub mod text;
pub mod value;
