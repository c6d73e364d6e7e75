use vstd::prelude::*;

verus! {

/// Identifiers of graph nodes. Two identifiers name the same node
/// exactly when their views are equal.
pub trait Identifier: View + Sized {
    /// Returns true if `self` and `other` name the same node.
    fn same_id(&self, other: &Self) -> (same: bool)
        ensures
            same == (self@ == other@),
    ;

    /// Returns a copy of the identifier.
    fn clone_id(&self) -> (copy: Self)
        ensures
            copy@ == self@,
    ;
}

impl Identifier for usize {
    fn same_id(&self, other: &Self) -> (same: bool) {
        *self == *other
    }

    fn clone_id(&self) -> (copy: Self) {
        *self
    }
}

impl Identifier for u32 {
    fn same_id(&self, other: &Self) -> (same: bool) {
        *self == *other
    }

    fn clone_id(&self) -> (copy: Self) {
        *self
    }
}

impl Identifier for u64 {
    fn same_id(&self, other: &Self) -> (same: bool) {
        *self == *other
    }

    fn clone_id(&self) -> (copy: Self) {
        *self
    }
}

impl Identifier for i32 {
    fn same_id(&self, other: &Self) -> (same: bool) {
        *self == *other
    }

    fn clone_id(&self) -> (copy: Self) {
        *self
    }
}

impl Identifier for i64 {
    fn same_id(&self, other: &Self) -> (same: bool) {
        *self == *other
    }

    fn clone_id(&self) -> (copy: Self) {
        *self
    }
}

impl Identifier for String {
    fn same_id(&self, other: &Self) -> (same: bool) {
        self.eq(other)
    }

    fn clone_id(&self) -> (copy: Self) {
        self.clone()
    }
}

} // verus!
