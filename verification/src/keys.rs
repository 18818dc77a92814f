use vstd::prelude::*;

verus! {

/// Keys that are totally ordered through an injective, order-preserving rank in the integers.
/// The rank is what the ordered containers of this crate reason about.
pub trait OrdKey: Sized {
    spec fn rank(&self) -> int;

    /// Two keys of equal rank are the same key.
    proof fn rank_injective(a: &Self, b: &Self)
        ensures
            a.rank() == b.rank() ==> a == b,
    ;

    fn key_lt(&self, other: &Self) -> (r: bool)
        ensures
            r == (self.rank() < other.rank()),
    ;

    fn key_eq(&self, other: &Self) -> (r: bool)
        ensures
            r == (self.rank() == other.rank()),
    ;

    fn key_clone(&self) -> (r: Self)
        ensures
            r == *self,
    ;
}

/// Keys that can be compared for equality through an abstract view.
/// Values that can be copied exactly.
pub trait ExactCopy: Sized {
    fn exact_copy(&self) -> (r: Self)
        ensures
            r == *self,
    ;
}

pub trait EqKey: Sized {
    type KeyView;

    spec fn key_view(&self) -> Self::KeyView;

    fn key_eq(&self, other: &Self) -> (r: bool)
        ensures
            r == (self.key_view() == other.key_view()),
    ;

    fn key_clone(&self) -> (r: Self)
        ensures
            r.key_view() == self.key_view(),
    ;
}

impl OrdKey for i32 {
    open spec fn rank(&self) -> int {
        *self as int
    }

    proof fn rank_injective(a: &Self, b: &Self) {
    }

    fn key_lt(&self, other: &Self) -> (r: bool) {
        *self < *other
    }

    fn key_eq(&self, other: &Self) -> (r: bool) {
        *self == *other
    }

    fn key_clone(&self) -> (r: Self) {
        *self
    }
}

impl OrdKey for i64 {
    open spec fn rank(&self) -> int {
        *self as int
    }

    proof fn rank_injective(a: &Self, b: &Self) {
    }

    fn key_lt(&self, other: &Self) -> (r: bool) {
        *self < *other
    }

    fn key_eq(&self, other: &Self) -> (r: bool) {
        *self == *other
    }

    fn key_clone(&self) -> (r: Self) {
        *self
    }
}

impl EqKey for i32 {
    type KeyView = i32;

    open spec fn key_view(&self) -> i32 {
        *self
    }

    fn key_eq(&self, other: &Self) -> (r: bool) {
        *self == *other
    }

    fn key_clone(&self) -> (r: Self) {
        *self
    }
}

impl EqKey for String {
    type KeyView = Seq<char>;

    open spec fn key_view(&self) -> Seq<char> {
        self@
    }

    fn key_eq(&self, other: &Self) -> (r: bool) {
        *self == *other
    }

    fn key_clone(&self) -> (r: Self) {
        self.clone()
    }
}

} // verus!
