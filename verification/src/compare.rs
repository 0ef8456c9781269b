use vstd::prelude::*;
use std::cmp::Ordering;
use crate::index::{Index, Shift};

verus! {

impl PartialEq<usize> for Shift {
    /// A shift equals the number of bits it stands for.
    fn eq(&self, other: &usize) -> (r: bool) {
        self.0.eq(other)
    }
}

impl vstd::std_specs::cmp::PartialEqSpecImpl<usize> for Shift {
    open spec fn obeys_eq_spec() -> bool {
        true
    }

    open spec fn eq_spec(&self, other: &usize) -> bool {
        self.0 == *other
    }
}

impl PartialOrd<usize> for Shift {
    /// Shifts compare with bit counts by their number of bits.
    fn partial_cmp(&self, other: &usize) -> (r: Option<Ordering>) {
        self.0.partial_cmp(other)
    }
}

impl vstd::std_specs::cmp::PartialOrdSpecImpl<usize> for Shift {
    open spec fn obeys_partial_cmp_spec() -> bool {
        true
    }

    open spec fn partial_cmp_spec(&self, other: &usize) -> Option<Ordering> {
        if self.0 < *other {
            Some(Ordering::Less)
        } else if self.0 == *other {
            Some(Ordering::Equal)
        } else {
            Some(Ordering::Greater)
        }
    }
}

impl PartialEq<usize> for Index {
    /// An index equals the position it stands for.
    fn eq(&self, other: &usize) -> (r: bool) {
        self.0.eq(other)
    }
}

impl vstd::std_specs::cmp::PartialEqSpecImpl<usize> for Index {
    open spec fn obeys_eq_spec() -> bool {
        true
    }

    open spec fn eq_spec(&self, other: &usize) -> bool {
        self.0 == *other
    }
}

impl PartialOrd<usize> for Index {
    /// Indices compare with positions by their position.
    fn partial_cmp(&self, other: &usize) -> (r: Option<Ordering>) {
        self.0.partial_cmp(other)
    }
}

impl vstd::std_specs::cmp::PartialOrdSpecImpl<usize> for Index {
    open spec fn obeys_partial_cmp_spec() -> bool {
        true
    }

    open spec fn partial_cmp_spec(&self, other: &usize) -> Option<Ordering> {
        if self.0 < *other {
            Some(Ordering::Less)
        } else if self.0 == *other {
            Some(Ordering::Equal)
        } else {
            Some(Ordering::Greater)
        }
    }
}

} // verus!
