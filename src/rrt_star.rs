//! The state of an RRT* planner.
use vstd::prelude::*;

verus! {

/// An RRT* planner's state: its tree, goal region, space, step length `d`
/// and random source.
#[allow(dead_code)]
pub struct RRTStar<T, G, S> {
    tree: T,
    goal: G,
    space: S,
    d: u64,
    rng: rand::rngs::ThreadRng,
}

} // verus!
