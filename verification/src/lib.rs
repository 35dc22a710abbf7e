//! A compiler from a small functional language to type-level function encodings.
//!
//! A program is a list of declarations `let name = term`, where a term is a
//! variable, an application, an abstraction `fun x -> term` or a local binding
//! `let x = term in term`. Each declaration becomes either a type alias for a chain
//! of nested applications, or a family of interfaces that stand for a function on
//! types.
//!
//! - `lambda` holds the terms, their mathematical model, free variables and
//!   substitution; `names` holds the finite sets of names; `fresh` is the supply of
//!   fresh names.
//! - `parser` reads a program from text.
//! - `transformer` brings each term into the form that the generator takes.
//! - `generator` writes the text of the encoding.
//! - `compiler` runs the three, one after the other.
//!
//! Every function states what it yields over the model of its arguments, and is
//! verified against that statement.

pub mod compiler;
pub mod fresh;
pub mod generator;
pub mod lambda;
pub mod names;
pub mod parser;
pub mod text;
pub mod transformer;
