//! Equality and ordering of the number types by the values they denote.
use core::cmp::Ordering;
use vstd::prelude::*;
use vstd::std_specs::cmp::{PartialEqSpecImpl, PartialOrdSpecImpl};

use crate::fixed::BigFixed;
use crate::signed::BigIntCore;
use crate::uint::BigUintCore;

verus! {

/// The ordering of two natural numbers.
pub open spec fn nat_order(x: nat, y: nat) -> Ordering {
    if x < y {
        Ordering::Less
    } else if x == y {
        Ordering::Equal
    } else {
        Ordering::Greater
    }
}

/// The ordering of two mathematical integers.
pub open spec fn int_order(x: int, y: int) -> Ordering {
    if x < y {
        Ordering::Less
    } else if x == y {
        Ordering::Equal
    } else {
        Ordering::Greater
    }
}

impl PartialEq for BigUintCore {
    fn eq(&self, other: &Self) -> (r: bool) {
        self.compare_to(other) == 0
    }
}

impl PartialEqSpecImpl for BigUintCore {
    open spec fn obeys_eq_spec() -> bool {
        true
    }

    open spec fn eq_spec(&self, other: &Self) -> bool {
        self@ == other@
    }
}

impl Eq for BigUintCore {

}

impl PartialOrd for BigUintCore {
    fn partial_cmp(&self, other: &Self) -> (r: Option<Ordering>) {
        let order = self.compare_to(other);
        if order == -1 {
            Some(Ordering::Less)
        } else if order == 0 {
            Some(Ordering::Equal)
        } else {
            Some(Ordering::Greater)
        }
    }
}

impl PartialOrdSpecImpl for BigUintCore {
    open spec fn obeys_partial_cmp_spec() -> bool {
        true
    }

    open spec fn partial_cmp_spec(&self, other: &Self) -> Option<Ordering> {
        Some(nat_order(self@, other@))
    }
}

impl PartialEq for BigIntCore {
    fn eq(&self, other: &Self) -> (r: bool) {
        self.compare_to(other) == 0
    }
}

impl PartialEqSpecImpl for BigIntCore {
    open spec fn obeys_eq_spec() -> bool {
        true
    }

    open spec fn eq_spec(&self, other: &Self) -> bool {
        self@ == other@
    }
}

impl Eq for BigIntCore {

}

impl PartialOrd for BigIntCore {
    fn partial_cmp(&self, other: &Self) -> (r: Option<Ordering>) {
        let order = self.compare_to(other);
        if order == -1 {
            Some(Ordering::Less)
        } else if order == 0 {
            Some(Ordering::Equal)
        } else {
            Some(Ordering::Greater)
        }
    }
}

impl PartialOrdSpecImpl for BigIntCore {
    open spec fn obeys_partial_cmp_spec() -> bool {
        true
    }

    open spec fn partial_cmp_spec(&self, other: &Self) -> Option<Ordering> {
        Some(int_order(self@, other@))
    }
}

impl<const SCALE: u32> PartialEq for BigFixed<SCALE> {
    fn eq(&self, other: &Self) -> (r: bool) {
        self.mantissa().compare_to(other.mantissa()) == 0
    }
}

impl<const SCALE: u32> PartialEqSpecImpl for BigFixed<SCALE> {
    open spec fn obeys_eq_spec() -> bool {
        true
    }

    open spec fn eq_spec(&self, other: &Self) -> bool {
        self@ == other@
    }
}

impl<const SCALE: u32> Eq for BigFixed<SCALE> {

}

impl<const SCALE: u32> PartialOrd for BigFixed<SCALE> {
    fn partial_cmp(&self, other: &Self) -> (r: Option<Ordering>) {
        let order = self.mantissa().compare_to(other.mantissa());
        if order == -1 {
            Some(Ordering::Less)
        } else if order == 0 {
            Some(Ordering::Equal)
        } else {
            Some(Ordering::Greater)
        }
    }
}

impl<const SCALE: u32> PartialOrdSpecImpl for BigFixed<SCALE> {
    open spec fn obeys_partial_cmp_spec() -> bool {
        true
    }

    open spec fn partial_cmp_spec(&self, other: &Self) -> Option<Ordering> {
        Some(int_order(self@, other@))
    }
}

} // verus!
