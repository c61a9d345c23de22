use vstd::prelude::*;

use crate::types::DType;

verus! {

/// A value that can sit in a value column of a `Series`.
///
/// The only capability the core needs from a stored value is a copy that is
/// provably equal to the original; everything else (display, transport) is
/// left to the embedding application.
pub trait Storable: Sized {
    /// Produces a copy equal to the original value.
    fn clone_value(&self) -> (r: Self)
        ensures
            r == *self,
    ;
}

/// A plain (non-optional) storable value. `Option<R>` is storable exactly
/// when `R` is a `RawType`, which is what the missing-data operations of
/// `Series` (`fill_none`, `drop_none`) are defined over.
pub trait RawType: Storable {

}

/// What an `Index` needs from a label: decidable equality, a total order,
/// and a type tag. The order laws are stated as proof obligations, so every
/// implementation carries its own evidence; the sorting and range contracts
/// of `Index` rest on them.
pub trait Label: Storable {
    /// The total order on labels, as a specification-level relation.
    spec fn le_spec(self, other: Self) -> bool;

    /// Specification-level counterpart of `dtype`.
    spec fn dtype_spec() -> DType;

    proof fn lemma_le_refl(a: Self)
        ensures
            a.le_spec(a),
    ;

    proof fn lemma_le_antisym(a: Self, b: Self)
        requires
            a.le_spec(b),
            b.le_spec(a),
        ensures
            a == b,
    ;

    proof fn lemma_le_trans(a: Self, b: Self, c: Self)
        requires
            a.le_spec(b),
            b.le_spec(c),
        ensures
            a.le_spec(c),
    ;

    proof fn lemma_le_total(a: Self, b: Self)
        ensures
            a.le_spec(b) || b.le_spec(a),
    ;

    /// Decides equality of two labels.
    fn eq_label(&self, other: &Self) -> (r: bool)
        ensures
            r <==> *self == *other,
    ;

    /// Decides the total order on labels.
    fn le_label(&self, other: &Self) -> (r: bool)
        ensures
            r <==> self.le_spec(*other),
    ;

    /// The tag describing this label type.
    fn dtype() -> (r: DType)
        ensures
            r == Self::dtype_spec(),
    ;
}

/// The order of a label type, packaged as a first-class relation so that it
/// can be handed to the sequence-sorting machinery of the standard proof
/// library.
pub open spec fn label_le<L: Label>() -> spec_fn(L, L) -> bool {
    |a: L, b: L| a.le_spec(b)
}

/// `label_le` is a total ordering: the laws carried by the `Label` trait,
/// restated over the packaged relation.
pub proof fn lemma_label_le_total_ordering<L: Label>()
    ensures
        vstd::relations::total_ordering(label_le::<L>()),
{
    let leq = label_le::<L>();
    assert forall|a: L| #[trigger] leq(a, a) by {
        L::lemma_le_refl(a);
    }
    assert forall|a: L, b: L| #[trigger] leq(a, b) && #[trigger] leq(b, a) implies a == b by {
        L::lemma_le_antisym(a, b);
    }
    assert forall|a: L, b: L, c: L| #[trigger] leq(a, b) && #[trigger] leq(b, c) implies leq(
        a,
        c,
    ) by {
        L::lemma_le_trans(a, b, c);
    }
    assert forall|a: L, b: L| #[trigger] leq(a, b) || #[trigger] leq(b, a) by {
        L::lemma_le_total(a, b);
    }
}

impl<R: RawType> Storable for Option<R> {
    fn clone_value(&self) -> (r: Self) {
        match self {
            Some(v) => Some(v.clone_value()),
            None => None,
        }
    }
}

impl Storable for i8 {
    fn clone_value(&self) -> (r: Self) {
        *self
    }
}

impl RawType for i8 {

}

impl Label for i8 {
    open spec fn le_spec(self, other: Self) -> bool {
        self <= other
    }

    open spec fn dtype_spec() -> DType {
        DType::I8
    }

    proof fn lemma_le_refl(a: Self) {
    }

    proof fn lemma_le_antisym(a: Self, b: Self) {
    }

    proof fn lemma_le_trans(a: Self, b: Self, c: Self) {
    }

    proof fn lemma_le_total(a: Self, b: Self) {
    }

    fn eq_label(&self, other: &Self) -> (r: bool) {
        *self == *other
    }

    fn le_label(&self, other: &Self) -> (r: bool) {
        *self <= *other
    }

    fn dtype() -> (r: DType) {
        DType::I8
    }
}

impl Storable for i16 {
    fn clone_value(&self) -> (r: Self) {
        *self
    }
}

impl RawType for i16 {

}

impl Label for i16 {
    open spec fn le_spec(self, other: Self) -> bool {
        self <= other
    }

    open spec fn dtype_spec() -> DType {
        DType::I16
    }

    proof fn lemma_le_refl(a: Self) {
    }

    proof fn lemma_le_antisym(a: Self, b: Self) {
    }

    proof fn lemma_le_trans(a: Self, b: Self, c: Self) {
    }

    proof fn lemma_le_total(a: Self, b: Self) {
    }

    fn eq_label(&self, other: &Self) -> (r: bool) {
        *self == *other
    }

    fn le_label(&self, other: &Self) -> (r: bool) {
        *self <= *other
    }

    fn dtype() -> (r: DType) {
        DType::I16
    }
}

impl Storable for i32 {
    fn clone_value(&self) -> (r: Self) {
        *self
    }
}

impl RawType for i32 {

}

impl Label for i32 {
    open spec fn le_spec(self, other: Self) -> bool {
        self <= other
    }

    open spec fn dtype_spec() -> DType {
        DType::I32
    }

    proof fn lemma_le_refl(a: Self) {
    }

    proof fn lemma_le_antisym(a: Self, b: Self) {
    }

    proof fn lemma_le_trans(a: Self, b: Self, c: Self) {
    }

    proof fn lemma_le_total(a: Self, b: Self) {
    }

    fn eq_label(&self, other: &Self) -> (r: bool) {
        *self == *other
    }

    fn le_label(&self, other: &Self) -> (r: bool) {
        *self <= *other
    }

    fn dtype() -> (r: DType) {
        DType::I32
    }
}


impl Storable for i64 {
    fn clone_value(&self) -> (r: Self) {
        *self
    }
}

impl RawType for i64 {

}

impl Label for i64 {
    open spec fn le_spec(self, other: Self) -> bool {
        self <= other
    }

    open spec fn dtype_spec() -> DType {
        DType::I64
    }

    proof fn lemma_le_refl(a: Self) {
    }

    proof fn lemma_le_antisym(a: Self, b: Self) {
    }

    proof fn lemma_le_trans(a: Self, b: Self, c: Self) {
    }

    proof fn lemma_le_total(a: Self, b: Self) {
    }

    fn eq_label(&self, other: &Self) -> (r: bool) {
        *self == *other
    }

    fn le_label(&self, other: &Self) -> (r: bool) {
        *self <= *other
    }

    fn dtype() -> (r: DType) {
        DType::I64
    }
}

impl Storable for isize {
    fn clone_value(&self) -> (r: Self) {
        *self
    }
}

impl RawType for isize {

}

impl Label for isize {
    open spec fn le_spec(self, other: Self) -> bool {
        self <= other
    }

    open spec fn dtype_spec() -> DType {
        DType::ISize
    }

    proof fn lemma_le_refl(a: Self) {
    }

    proof fn lemma_le_antisym(a: Self, b: Self) {
    }

    proof fn lemma_le_trans(a: Self, b: Self, c: Self) {
    }

    proof fn lemma_le_total(a: Self, b: Self) {
    }

    fn eq_label(&self, other: &Self) -> (r: bool) {
        *self == *other
    }

    fn le_label(&self, other: &Self) -> (r: bool) {
        *self <= *other
    }

    fn dtype() -> (r: DType) {
        DType::ISize
    }
}

impl Storable for u8 {
    fn clone_value(&self) -> (r: Self) {
        *self
    }
}

impl RawType for u8 {

}

impl Label for u8 {
    open spec fn le_spec(self, other: Self) -> bool {
        self <= other
    }

    open spec fn dtype_spec() -> DType {
        DType::U8
    }

    proof fn lemma_le_refl(a: Self) {
    }

    proof fn lemma_le_antisym(a: Self, b: Self) {
    }

    proof fn lemma_le_trans(a: Self, b: Self, c: Self) {
    }

    proof fn lemma_le_total(a: Self, b: Self) {
    }

    fn eq_label(&self, other: &Self) -> (r: bool) {
        *self == *other
    }

    fn le_label(&self, other: &Self) -> (r: bool) {
        *self <= *other
    }

    fn dtype() -> (r: DType) {
        DType::U8
    }
}

impl Storable for u16 {
    fn clone_value(&self) -> (r: Self) {
        *self
    }
}

impl RawType for u16 {

}

impl Label for u16 {
    open spec fn le_spec(self, other: Self) -> bool {
        self <= other
    }

    open spec fn dtype_spec() -> DType {
        DType::U16
    }

    proof fn lemma_le_refl(a: Self) {
    }

    proof fn lemma_le_antisym(a: Self, b: Self) {
    }

    proof fn lemma_le_trans(a: Self, b: Self, c: Self) {
    }

    proof fn lemma_le_total(a: Self, b: Self) {
    }

    fn eq_label(&self, other: &Self) -> (r: bool) {
        *self == *other
    }

    fn le_label(&self, other: &Self) -> (r: bool) {
        *self <= *other
    }

    fn dtype() -> (r: DType) {
        DType::U16
    }
}

impl Storable for u32 {
    fn clone_value(&self) -> (r: Self) {
        *self
    }
}

impl RawType for u32 {

}

impl Label for u32 {
    open spec fn le_spec(self, other: Self) -> bool {
        self <= other
    }

    open spec fn dtype_spec() -> DType {
        DType::U32
    }

    proof fn lemma_le_refl(a: Self) {
    }

    proof fn lemma_le_antisym(a: Self, b: Self) {
    }

    proof fn lemma_le_trans(a: Self, b: Self, c: Self) {
    }

    proof fn lemma_le_total(a: Self, b: Self) {
    }

    fn eq_label(&self, other: &Self) -> (r: bool) {
        *self == *other
    }

    fn le_label(&self, other: &Self) -> (r: bool) {
        *self <= *other
    }

    fn dtype() -> (r: DType) {
        DType::U32
    }
}

impl Storable for u64 {
    fn clone_value(&self) -> (r: Self) {
        *self
    }
}

impl RawType for u64 {

}

impl Label for u64 {
    open spec fn le_spec(self, other: Self) -> bool {
        self <= other
    }

    open spec fn dtype_spec() -> DType {
        DType::U64
    }

    proof fn lemma_le_refl(a: Self) {
    }

    proof fn lemma_le_antisym(a: Self, b: Self) {
    }

    proof fn lemma_le_trans(a: Self, b: Self, c: Self) {
    }

    proof fn lemma_le_total(a: Self, b: Self) {
    }

    fn eq_label(&self, other: &Self) -> (r: bool) {
        *self == *other
    }

    fn le_label(&self, other: &Self) -> (r: bool) {
        *self <= *other
    }

    fn dtype() -> (r: DType) {
        DType::U64
    }
}

impl Storable for usize {
    fn clone_value(&self) -> (r: Self) {
        *self
    }
}

impl RawType for usize {

}

impl Label for usize {
    open spec fn le_spec(self, other: Self) -> bool {
        self <= other
    }

    open spec fn dtype_spec() -> DType {
        DType::USize
    }

    proof fn lemma_le_refl(a: Self) {
    }

    proof fn lemma_le_antisym(a: Self, b: Self) {
    }

    proof fn lemma_le_trans(a: Self, b: Self, c: Self) {
    }

    proof fn lemma_le_total(a: Self, b: Self) {
    }

    fn eq_label(&self, other: &Self) -> (r: bool) {
        *self == *other
    }

    fn le_label(&self, other: &Self) -> (r: bool) {
        *self <= *other
    }

    fn dtype() -> (r: DType) {
        DType::USize
    }
}

impl Storable for bool {
    fn clone_value(&self) -> (r: Self) {
        *self
    }
}

impl RawType for bool {

}

impl Label for bool {
    open spec fn le_spec(self, other: Self) -> bool {
        !self || other
    }

    open spec fn dtype_spec() -> DType {
        DType::Bool
    }

    proof fn lemma_le_refl(a: Self) {
    }

    proof fn lemma_le_antisym(a: Self, b: Self) {
    }

    proof fn lemma_le_trans(a: Self, b: Self, c: Self) {
    }

    proof fn lemma_le_total(a: Self, b: Self) {
    }

    fn eq_label(&self, other: &Self) -> (r: bool) {
        *self == *other
    }

    fn le_label(&self, other: &Self) -> (r: bool) {
        !*self || *other
    }

    fn dtype() -> (r: DType) {
        DType::Bool
    }
}

impl Storable for char {
    fn clone_value(&self) -> (r: Self) {
        *self
    }
}

impl RawType for char {

}

impl Label for char {
    open spec fn le_spec(self, other: Self) -> bool {
        (self as u32) <= (other as u32)
    }

    open spec fn dtype_spec() -> DType {
        DType::Char
    }

    proof fn lemma_le_refl(a: Self) {
    }

    proof fn lemma_le_antisym(a: Self, b: Self) {
        vstd::utf8::char_u32_cast(a, a as u32);
        vstd::utf8::char_u32_cast(b, a as u32);
    }

    proof fn lemma_le_trans(a: Self, b: Self, c: Self) {
    }

    proof fn lemma_le_total(a: Self, b: Self) {
    }

    fn eq_label(&self, other: &Self) -> (r: bool) {
        *self == *other
    }

    fn le_label(&self, other: &Self) -> (r: bool) {
        (*self as u32) <= (*other as u32)
    }

    fn dtype() -> (r: DType) {
        DType::Char
    }
}

} // verus!
