use vstd::prelude::*;

verus! {

/// The kind of a runtime value, named when a value of another kind turns
/// up where this one was expected.
#[derive(Clone, Copy, Debug, PartialEq, Eq, Structural)]
pub enum ValueKind {
    List,
    String,
    Float,
    Int,
    Bool,
    Symbol,
    Lambda,
}

} // verus!
