use vstd::prelude::*;

verus! {

/// Tag describing the concrete type stored in an `Index` or a value column.
///
/// The catalog only covers the types this crate ships `Label` implementations
/// for; downstream layers that store richer types carry their own descriptors.
#[derive(Debug, Clone, Copy, PartialEq, Eq, Structural)]
pub enum DType {
    I8,
    I16,
    I32,
    I64,
    ISize,
    U8,
    U16,
    U32,
    U64,
    USize,
    Char,
    Bool,
}

} // verus!
