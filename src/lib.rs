//! Sampling-based motion planning: single-tree RRT and bidirectional
//! RRT-Connect over an append-only, parent-linked tree of configurations.
use vstd::prelude::*;

pub mod random;
pub mod rrt;
pub mod rrt_connect;
pub mod rrt_star;
pub mod tree;
pub mod utils;

use tree::{path_of, scan_nearest, tree_wf};

verus! {

/// A region of configuration space, such as a goal region.
pub trait Region {
    type Point;

    /// Whether `point` lies in the region.
    spec fn member(&self, point: Self::Point) -> bool;

    fn is_in(&self, point: &Self::Point) -> (r: bool)
        ensures
            r == self.member(*point),
    ;
}

/// The environment: random configurations and straight-line collision tests.
pub trait Space {
    type Point;

    /// Whether the straight motion from `from` to `to` avoids every obstacle.
    spec fn free(&self, from: Self::Point, to: Self::Point) -> bool;

    /// Whether `point` is one that `sample` may draw.
    spec fn samples(&self, point: Self::Point) -> bool;

    fn sample(&self, rng: &mut rand::rngs::ThreadRng) -> (r: Self::Point)
        ensures
            self.samples(r),
    ;

    fn is_collision_free(&self, from: &Self::Point, to: &Self::Point) -> (r: bool)
        ensures
            r == self.free(*from, *to),
    ;
}

/// The smaller of two naturals.
pub open spec fn min_nat(a: nat, b: nat) -> nat {
    if a <= b {
        a
    } else {
        b
    }
}

/// A configuration, with an integer-valued metric and a steering operation.
pub trait Point: Sized + Copy {
    /// The metric between two configurations.
    spec fn dist(self, other: Self) -> nat;

    /// The metric is symmetric and vanishes exactly on equal configurations.
    proof fn lemma_metric(a: Self, b: Self)
        ensures
            a.dist(b) == b.dist(a),
            (a.dist(b) == 0) == (a == b),
    ;

    fn distance(&self, other: &Self) -> (r: u64)
        ensures
            r as nat == self.dist(*other),
    ;

    /// The configuration reached by steering from `self` toward `to` by `d`.
    spec fn steer(self, to: Self, d: nat) -> Self;

    /// Steering moves `min(d, dist(a, b))` from `a`, on a shortest way to `b`.
    proof fn lemma_steer(a: Self, b: Self, d: nat)
        ensures
            a.dist(a.steer(b, d)) == min_nat(d, a.dist(b)),
            a.dist(a.steer(b, d)) + a.steer(b, d).dist(b) == a.dist(b),
    ;

    /// Steers from `self` toward `to` by at most `d`: the result lies at
    /// distance `min(d, dist(self, to))` from `self`, on a shortest way to `to`.
    fn get_new(&self, to: &Self, d: u64) -> (r: Self)
        ensures
            r == self.steer(*to, d as nat),
            self.dist(r) == min_nat(d as nat, self.dist(*to)),
            self.dist(r) + r.dist(*to) == self.dist(*to),
    ;
}

/// Steering from a point toward itself stays at that point, whatever the step.
pub proof fn lemma_steer_to_self<P: Point>(a: P, d: nat)
    ensures
        a.steer(a, d) == a,
{
    P::lemma_metric(a, a);
    P::lemma_steer(a, a, d);
    P::lemma_metric(a, a.steer(a, d));
}

/// An append-only tree of configurations, modelled by its sequence of
/// `(parent, point)` entries in insertion order.
pub trait Tree<T: Point>: Sized {
    spec fn entries(&self) -> Seq<(usize, T)>;

    fn new(start: T) -> (r: Self)
        ensures
            r.entries() == seq![(0usize, start)],
    ;

    fn size(&self) -> (r: usize)
        ensures
            r == self.entries().len(),
    ;

    fn get(&self, index: usize) -> (r: &T)
        requires
            index < self.entries().len(),
        ensures
            *r == self.entries()[index as int].1,
    ;

    /// Appends `to` as a new node whose parent is `from`.
    fn expand(&mut self, from: usize, to: T)
        requires
            from < old(self).entries().len(),
            old(self).entries().len() < usize::MAX,
        ensures
            final(self).entries() == old(self).entries().push((from, to)),
    ;

    /// The points from the root down to node `end`.
    fn path(&self, end: usize) -> (r: Vec<T>)
        requires
            tree_wf(self.entries()),
            end < self.entries().len(),
        ensures
            r@ == path_of(self.entries(), end as int),
    ;

    /// The first node, in insertion order, among those closest to `point`.
    fn nearest(&self, point: &T) -> (r: usize)
        requires
            self.entries().len() > 0,
        ensures
            r as int == scan_nearest(self.entries(), *point, self.entries().len() as int),
    ;
}

} // verus!
