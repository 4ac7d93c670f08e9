//! Comparison traits for registry entries.
//!
//! The registries are generic over their key and value types; all their
//! contracts speak about views. These traits tie a type's executable
//! equality, ordering and duplication to its view.

use vstd::prelude::*;

verus! {

/// A type whose executable equality and duplication decide and preserve
/// view equality.
pub trait EqView: View + Sized {
    /// Executable equality on views.
    fn eq_view(&self, other: &Self) -> (r: bool)
        ensures
            r == (self@ == other@),
    ;

    /// A duplicate carrying the same view.
    fn clone_view(&self) -> (r: Self)
        ensures
            r@ == self@,
    ;
}

/// A type whose views carry a total order that an executable comparison
/// decides.
pub trait OrdView: EqView {
    /// The order on views.
    spec fn le_spec(a: Self::V, b: Self::V) -> bool;

    /// Executable comparison, tied to the order on views.
    fn le_view(&self, other: &Self) -> (r: bool)
        ensures
            r == Self::le_spec(self@, other@),
    ;

    /// The order is total.
    proof fn le_total(a: Self::V, b: Self::V)
        ensures
            Self::le_spec(a, b) || Self::le_spec(b, a),
    ;
}

impl EqView for usize {
    fn eq_view(&self, other: &Self) -> (r: bool)
        ensures
            r == (self@ == other@),
    {
        *self == *other
    }

    fn clone_view(&self) -> (r: Self)
        ensures
            r@ == self@,
    {
        *self
    }
}

impl OrdView for usize {
    open spec fn le_spec(a: usize, b: usize) -> bool {
        a <= b
    }

    fn le_view(&self, other: &Self) -> (r: bool)
        ensures
            r == Self::le_spec(self@, other@),
    {
        *self <= *other
    }

    proof fn le_total(a: usize, b: usize)
        ensures
            Self::le_spec(a, b) || Self::le_spec(b, a),
    {
    }
}

impl EqView for u64 {
    fn eq_view(&self, other: &Self) -> (r: bool)
        ensures
            r == (self@ == other@),
    {
        *self == *other
    }

    fn clone_view(&self) -> (r: Self)
        ensures
            r@ == self@,
    {
        *self
    }
}

impl OrdView for u64 {
    open spec fn le_spec(a: u64, b: u64) -> bool {
        a <= b
    }

    fn le_view(&self, other: &Self) -> (r: bool)
        ensures
            r == Self::le_spec(self@, other@),
    {
        *self <= *other
    }

    proof fn le_total(a: u64, b: u64)
        ensures
            Self::le_spec(a, b) || Self::le_spec(b, a),
    {
    }
}

impl EqView for i32 {
    fn eq_view(&self, other: &Self) -> (r: bool)
        ensures
            r == (self@ == other@),
    {
        *self == *other
    }

    fn clone_view(&self) -> (r: Self)
        ensures
            r@ == self@,
    {
        *self
    }
}

impl OrdView for i32 {
    open spec fn le_spec(a: i32, b: i32) -> bool {
        a <= b
    }

    fn le_view(&self, other: &Self) -> (r: bool)
        ensures
            r == Self::le_spec(self@, other@),
    {
        *self <= *other
    }

    proof fn le_total(a: i32, b: i32)
        ensures
            Self::le_spec(a, b) || Self::le_spec(b, a),
    {
    }
}

impl EqView for String {
    fn eq_view(&self, other: &Self) -> (r: bool)
        ensures
            r == (self@ == other@),
    {
        self.eq(other)
    }

    fn clone_view(&self) -> (r: Self)
        ensures
            r@ == self@,
    {
        self.clone()
    }
}

} // verus!
