//! `==`, `<` and the comparison methods of `Value`.
use crate::meaningful::{meaningful_order, mle};
use crate::order::{order, Order};
use crate::value::Value;
use core::cmp::Ordering;
use vstd::prelude::*;
use vstd::std_specs::cmp::{PartialEqSpecImpl, PartialOrdSpecImpl};

verus! {

/// The standard library's name for an outcome.
pub open spec fn ordering_of(o: Order) -> Ordering {
    match o {
        Order::Less => Ordering::Less,
        Order::Equal => Ordering::Equal,
        Order::Greater => Ordering::Greater,
    }
}

/// The standard library's name for an outcome.
pub fn to_ordering(o: Order) -> (r: Ordering)
    ensures
        r == ordering_of(o),
{
    match o {
        Order::Less => Ordering::Less,
        Order::Equal => Ordering::Equal,
        Order::Greater => Ordering::Greater,
    }
}

impl PartialEq for Value {
    fn eq(&self, other: &Self) -> (r: bool) {
        self.same(other)
    }
}

impl PartialEqSpecImpl for Value {
    open spec fn obeys_eq_spec() -> bool {
        true
    }

    open spec fn eq_spec(&self, other: &Self) -> bool {
        self@ == other@
    }
}

impl Eq for Value {

}

impl PartialOrd for Value {
    fn partial_cmp(&self, other: &Self) -> (r: Option<Ordering>) {
        Some(to_ordering(self.total_order(other)))
    }
}

impl PartialOrdSpecImpl for Value {
    open spec fn obeys_partial_cmp_spec() -> bool {
        true
    }

    open spec fn partial_cmp_spec(&self, other: &Self) -> Option<Ordering> {
        Some(ordering_of(order(self@, other@)))
    }
}

impl Value {
    /// Compares two values in the meaningful partial order; `None` where neither is at most
    /// the other.
    pub fn meaningful_partial_cmp(&self, other: &Self) -> (r: Option<Ordering>)
        requires
            self.wf(),
            other.wf(),
        ensures
            r == match meaningful_order(self@, other@) {
                Some(o) => Some(ordering_of(o)),
                None => None,
            },
    {
        if self.meaningful_le(other) {
            if other.meaningful_le(self) {
                Some(Ordering::Equal)
            } else {
                Some(Ordering::Less)
            }
        } else if other.meaningful_le(self) {
            Some(Ordering::Greater)
        } else {
            None
        }
    }

    /// Whether `self` is strictly below `other` in the meaningful partial order.
    pub fn meaningful_lt(&self, other: &Self) -> (r: bool)
        requires
            self.wf(),
            other.wf(),
        ensures
            r == (mle(self@, other@) && !mle(other@, self@)),
    {
        self.meaningful_le(other) && !other.meaningful_le(self)
    }

    /// Whether `self` is strictly above `other` in the meaningful partial order.
    pub fn meaningful_gt(&self, other: &Self) -> (r: bool)
        requires
            self.wf(),
            other.wf(),
        ensures
            r == (mle(other@, self@) && !mle(self@, other@)),
    {
        other.meaningful_le(self) && !self.meaningful_le(other)
    }

    /// Whether `self` is at least `other` in the meaningful partial order.
    pub fn meaningful_ge(&self, other: &Self) -> (r: bool)
        requires
            self.wf(),
            other.wf(),
        ensures
            r == mle(other@, self@),
    {
        other.meaningful_le(self)
    }
}

} // verus!
