//! The order of cars: by lap time alone.

use vstd::prelude::*;
use core::cmp::Ordering;
use vstd::std_specs::cmp::PartialOrdSpecImpl;
use crate::car::Car;

verus! {

impl PartialOrd for Car {
    /// Cars are ordered by lap time, whatever their identifiers.
    fn partial_cmp(&self, other: &Car) -> (order: Option<Ordering>) {
        if self.lap_time < other.lap_time {
            Some(Ordering::Less)
        } else if self.lap_time > other.lap_time {
            Some(Ordering::Greater)
        } else {
            Some(Ordering::Equal)
        }
    }
}

impl PartialOrdSpecImpl for Car {
    open spec fn obeys_partial_cmp_spec() -> bool {
        true
    }

    open spec fn partial_cmp_spec(&self, other: &Car) -> Option<Ordering> {
        if self.lap_time < other.lap_time {
            Some(Ordering::Less)
        } else if self.lap_time > other.lap_time {
            Some(Ordering::Greater)
        } else {
            Some(Ordering::Equal)
        }
    }
}

} // verus!
