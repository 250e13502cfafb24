//! The order on addresses and page numbers: by their value.
use vstd::prelude::*;

use core::cmp::Ordering;

use super::address::{PhysAddr, PhysPageNum, VirtAddr, VirtPageNum};

verus! {

/// The order of two machine words.
pub open spec fn word_order(a: usize, b: usize) -> Option<Ordering> {
    if a < b {
        Some(Ordering::Less)
    } else if a == b {
        Some(Ordering::Equal)
    } else {
        Some(Ordering::Greater)
    }
}

fn order_words(a: usize, b: usize) -> (r: Option<Ordering>)
    ensures
        r == word_order(a, b),
{
    if a < b {
        Some(Ordering::Less)
    } else if a == b {
        Some(Ordering::Equal)
    } else {
        Some(Ordering::Greater)
    }
}

impl PartialOrd for PhysAddr {
    fn partial_cmp(&self, other: &Self) -> (r: Option<Ordering>) {
        order_words(self.0, other.0)
    }
}

impl vstd::std_specs::cmp::PartialOrdSpecImpl for PhysAddr {
    open spec fn obeys_partial_cmp_spec() -> bool {
        true
    }

    open spec fn partial_cmp_spec(&self, other: &Self) -> Option<Ordering> {
        word_order(self.0, other.0)
    }
}

impl PartialOrd for VirtAddr {
    fn partial_cmp(&self, other: &Self) -> (r: Option<Ordering>) {
        order_words(self.0, other.0)
    }
}

impl vstd::std_specs::cmp::PartialOrdSpecImpl for VirtAddr {
    open spec fn obeys_partial_cmp_spec() -> bool {
        true
    }

    open spec fn partial_cmp_spec(&self, other: &Self) -> Option<Ordering> {
        word_order(self.0, other.0)
    }
}

impl PartialOrd for PhysPageNum {
    fn partial_cmp(&self, other: &Self) -> (r: Option<Ordering>) {
        order_words(self.0, other.0)
    }
}

impl vstd::std_specs::cmp::PartialOrdSpecImpl for PhysPageNum {
    open spec fn obeys_partial_cmp_spec() -> bool {
        true
    }

    open spec fn partial_cmp_spec(&self, other: &Self) -> Option<Ordering> {
        word_order(self.0, other.0)
    }
}

impl PartialOrd for VirtPageNum {
    fn partial_cmp(&self, other: &Self) -> (r: Option<Ordering>) {
        order_words(self.0, other.0)
    }
}

impl vstd::std_specs::cmp::PartialOrdSpecImpl for VirtPageNum {
    open spec fn obeys_partial_cmp_spec() -> bool {
        true
    }

    open spec fn partial_cmp_spec(&self, other: &Self) -> Option<Ordering> {
        word_order(self.0, other.0)
    }
}

} // verus!
