//! An edge with a weight.

use core::cmp::Ordering;
use vstd::prelude::*;

verus! {

/// An edge between two vertices with a weight. The weight is kept as the
/// bits of a single-precision number; for weights that are not negative,
/// the order of the bits is the order of the numbers.
#[derive(Debug, Eq, PartialEq, Clone, Copy)]
pub struct Edge {
    v: usize,
    w: usize,
    weight: u32,
}

impl Edge {
    /// One end of the edge.
    pub closed spec fn first(&self) -> usize {
        self.v
    }

    /// The other end of the edge.
    pub closed spec fn second(&self) -> usize {
        self.w
    }

    /// The bits of the weight.
    pub closed spec fn bits(&self) -> u32 {
        self.weight
    }

    /// The end of the edge that is not `v`, if `v` is one of its ends.
    pub open spec fn far(&self, v: usize) -> Option<usize> {
        if v == self.first() {
            Some(self.second())
        } else if v == self.second() {
            Some(self.first())
        } else {
            None
        }
    }

    /// The edge between `v` and `w` whose weight has the bits `weight`.
    pub fn new(v: usize, w: usize, weight: u32) -> (e: Self)
        ensures
            e.first() == v,
            e.second() == w,
            e.bits() == weight,
    {
        Edge { v, w, weight }
    }

    /// The bits of the weight.
    pub fn weight(&self) -> (bits: u32)
        ensures
            bits == self.bits(),
    {
        self.weight
    }

    /// One of the two ends.
    pub fn either(&self) -> (v: usize)
        ensures
            v == self.first(),
    {
        self.v
    }

    /// The end that is not `v`; `None` where `v` is no end of the edge.
    pub fn other(&self, v: usize) -> (r: Option<usize>)
        ensures
            r == self.far(v),
    {
        if v == self.v {
            Some(self.w)
        } else if v == self.w {
            Some(self.v)
        } else {
            None
        }
    }

    /// Whether this edge is lighter than `other`.
    pub fn lighter(&self, other: &Edge) -> (r: bool)
        ensures
            r == (self.bits() < other.bits()),
    {
        self.weight < other.weight
    }
}

/// The edges are ordered against their weights: the lighter edge is the
/// greater one, so that a heap with the greatest element at the top hands
/// out the lightest edge.
impl PartialOrd for Edge {
    fn partial_cmp(&self, other: &Edge) -> (r: Option<Ordering>) {
        if other.weight < self.weight {
            Some(Ordering::Less)
        } else if other.weight > self.weight {
            Some(Ordering::Greater)
        } else {
            Some(Ordering::Equal)
        }
    }
}

impl vstd::std_specs::cmp::PartialOrdSpecImpl for Edge {
    open spec fn obeys_partial_cmp_spec() -> bool {
        true
    }

    open spec fn partial_cmp_spec(&self, other: &Edge) -> Option<Ordering> {
        if other.bits() < self.bits() {
            Some(Ordering::Less)
        } else if other.bits() > self.bits() {
            Some(Ordering::Greater)
        } else {
            Some(Ordering::Equal)
        }
    }
}

} // verus!
