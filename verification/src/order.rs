use vstd::prelude::*;

verus! {

/// A total order on a type, usable both in contracts (through `le_spec`)
/// and at run time (through `less`).
///
/// Element types of the heap implement this trait: `le_spec` gives the
/// mathematical "less than or equal" relation, the two lemmas oblige the
/// implementor to prove that the relation really is total and transitive,
/// and `less` is the executable strict comparison the heap's algorithms run.
pub trait TotalOrder: Sized {
    /// The "less than or equal" relation of the order.
    spec fn le_spec(self, other: Self) -> bool;

    /// Any two values are comparable (which also yields reflexivity).
    proof fn lemma_le_total(x: Self, y: Self)
        ensures
            x.le_spec(y) || y.le_spec(x),
    ;

    /// The relation is transitive.
    proof fn lemma_le_transitive(x: Self, y: Self, z: Self)
        requires
            x.le_spec(y),
            y.le_spec(z),
        ensures
            x.le_spec(z),
    ;

    /// Executable strict comparison: true exactly when `self` comes
    /// strictly before `other` in the order.
    fn less(&self, other: &Self) -> (r: bool)
        ensures
            r == !other.le_spec(*self),
    ;
}

impl TotalOrder for u8 {
    open spec fn le_spec(self, other: u8) -> bool {
        self <= other
    }

    proof fn lemma_le_total(x: u8, y: u8) {
    }

    proof fn lemma_le_transitive(x: u8, y: u8, z: u8) {
    }

    fn less(&self, other: &u8) -> (r: bool) {
        *self < *other
    }
}

impl TotalOrder for u64 {
    open spec fn le_spec(self, other: u64) -> bool {
        self <= other
    }

    proof fn lemma_le_total(x: u64, y: u64) {
    }

    proof fn lemma_le_transitive(x: u64, y: u64, z: u64) {
    }

    fn less(&self, other: &u64) -> (r: bool) {
        *self < *other
    }
}

} // verus!
