//! Front end of a small Lisp-family language: syntax tree arena, symbol
//! table and the binding pass that resolves every symbol reference.

pub mod bindings;
pub mod bound;
pub mod interner;
pub mod laws;
pub mod scope;
pub mod syntax;
pub mod value;
