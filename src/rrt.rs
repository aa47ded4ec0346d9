//! Single-tree RRT: grow one tree from the start until a step reaches the goal.
use vstd::prelude::*;

use crate::random::thread_rng;
use crate::tree::{edges_free, edges_within, path_of, scan_nearest, tree_wf};
use crate::{Point, Region, Space, Tree};

verus! {

/// A single-tree planner with step length `d`.
pub struct RRT<T, G, S> {
    pub tree: T,
    pub goal: G,
    pub space: S,
    pub d: u64,
    pub rng: rand::rngs::ThreadRng,
}

/// The outcome of one planning step.
pub enum StepResult<P> {
    Success(SuccessStep<P>),
    Failure,
}

/// A collision-free step: the new point, the tree node it was grown from, and
/// whether it lies in the goal region.
pub struct SuccessStep<P> {
    pub new: P,
    pub nearest: usize,
    pub is_goal: bool,
}

#[derive(Debug)]
pub enum RRTError {
    Failure,
}

impl<T, G, S, P> RRT<T, G, S> where P: Point, T: Tree<P>, G: Region<Point = P>, S: Space<Point = P> {
    /// The tree is well formed, none of its edges is longer than a step, and
    /// every edge is free of collisions.
    pub open spec fn wf(&self) -> bool {
        &&& tree_wf(self.tree.entries())
        &&& edges_within(self.tree.entries(), self.d as nat)
        &&& edges_free(self.tree.entries(), self.space)
    }

    /// `post` and `r` are what one step toward `sample` makes of `self`.
    pub open spec fn stepped(self, sample: P, post: Self, r: StepResult<P>) -> bool {
        let s = self.tree.entries();
        let n = scan_nearest(s, sample, s.len() as int);
        let q = s[n].1;
        let new = q.steer(sample, self.d as nat);
        &&& post.goal == self.goal
        &&& post.space == self.space
        &&& post.d == self.d
        &&& if !self.space.free(q, new) {
            r == StepResult::<P>::Failure && post.tree.entries() == s
        } else if self.goal.member(new) {
            r == StepResult::Success(SuccessStep { new, nearest: n as usize, is_goal: true })
                && post.tree.entries() == s
        } else {
            r == StepResult::Success(SuccessStep { new, nearest: n as usize, is_goal: false })
                && post.tree.entries() == s.push((n as usize, new))
        }
    }

    /// The route of a success: the tree path to its nearest node, then its point.
    pub open spec fn route(self, res: SuccessStep<P>) -> Seq<P> {
        path_of(self.tree.entries(), res.nearest as int).push(res.new)
    }

    /// A colliding step leaves the tree as it was, a step that reaches the goal
    /// does too, and any other step adds exactly one node.
    pub proof fn lemma_step_size(self, sample: P, post: Self, r: StepResult<P>)
        requires
            self.stepped(sample, post, r),
        ensures
            r is Failure ==> post.tree.entries().len() == self.tree.entries().len(),
            r matches StepResult::Success(res) ==> post.tree.entries().len() == self.tree.entries().len() + (if res.is_goal { 0int } else { 1int }),
    {
    }

    /// The route of a successful step runs from the root to the new point,
    /// consecutive points on it are at most one step length apart, and the
    /// motion from each point to the next is free of collisions.
    pub proof fn lemma_route_contiguous(self, sample: P, post: Self, res: SuccessStep<P>)
        requires
            self.wf(),
            self.stepped(sample, post, StepResult::Success(res)),
        ensures
            self.route(res)[0] == self.tree.entries()[0].1,
            self.route(res).last() == res.new,
            forall|k: int|
                0 <= k < self.route(res).len() - 1 ==> #[trigger] self.route(res)[k].dist(self.route(res)[k + 1])
                    <= self.d,
            forall|k: int|
                0 <= k < self.route(res).len() - 1 ==> #[trigger] self.space.free(self.route(res)[k], self.route(res)[k + 1]),
    {
        let s = self.tree.entries();
        let n = res.nearest as int;
        crate::tree::lemma_scan_nearest_is_first_minimum(s, sample, s.len() as int);
        assert(n == scan_nearest(s, sample, s.len() as int));
        assert(res.new == s[n].1.steer(sample, self.d as nat));
        crate::tree::lemma_path_ends(s, n);
        crate::tree::lemma_path_steps(s, n, self.d as nat);
        crate::tree::lemma_path_free(s, n, self.space);
        let head = path_of(s, n);
        let full = self.route(res);
        assert forall|k: int| 0 <= k < full.len() - 1 implies #[trigger] self.space.free(full[k], full[k + 1]) by {
            if k < head.len() - 1 {
                assert(full[k] == head[k] && full[k + 1] == head[k + 1]);
            } else {
                assert(k == head.len() - 1);
                assert(full[k] == s[n].1);
                assert(full[k + 1] == res.new);
            }
        }
        assert forall|k: int| 0 <= k < full.len() - 1 implies #[trigger] full[k].dist(full[k + 1]) <= self.d by {
            if k < head.len() - 1 {
                assert(full[k] == head[k] && full[k + 1] == head[k + 1]);
            } else {
                assert(k == head.len() - 1);
                assert(full[k] == s[n].1);
                assert(full[k + 1] == res.new);
                P::lemma_steer(s[n].1, sample, self.d as nat);
            }
        }
    }

    pub fn new(start: P, goal: G, space: S, d: u64) -> (r: Self)
        ensures
            r.tree.entries() == seq![(0usize, start)],
            r.goal == goal,
            r.space == space,
            r.d == d,
            r.wf(),
    {
        Self { tree: T::new(start), goal, space, rng: thread_rng(), d }
    }

    /// One step toward a random sample of the space.
    pub fn step(&mut self) -> (r: StepResult<P>)
        requires
            old(self).wf(),
            old(self).tree.entries().len() < usize::MAX,
        ensures
            final(self).wf(),
            exists|sample: P| old(self).space.samples(sample) && old(self).stepped(sample, *final(self), r),
            r is Failure ==> final(self).tree.entries().len() == old(self).tree.entries().len(),
            r matches StepResult::Success(res) ==> final(self).tree.entries().len() == old(self).tree.entries().len() + (if res.is_goal { 0int } else { 1int }),
    {
        let sample = self.space.sample(&mut self.rng);
        let ghost drawn = *self;
        let r = self.step_toward(sample);
        assert(drawn.tree == old(self).tree && drawn.goal == old(self).goal && drawn.space == old(self).space);
        assert(old(self).stepped(sample, *self, r));
        proof {
            old(self).lemma_step_size(sample, *self, r);
        }
        r
    }

    /// One step toward `sample`: steer from the nearest node, and keep the new
    /// point unless its edge collides or it reaches the goal.
    pub fn step_toward(&mut self, sample: P) -> (r: StepResult<P>)
        requires
            old(self).wf(),
            old(self).tree.entries().len() < usize::MAX,
        ensures
            final(self).wf(),
            old(self).stepped(sample, *final(self), r),
    {
        let nearest = self.tree.nearest(&sample);
        proof {
            let s = self.tree.entries();
            crate::tree::lemma_scan_nearest_is_first_minimum(s, sample, s.len() as int);
        }
        let nearest_point = *self.tree.get(nearest);
        let new = nearest_point.get_new(&sample, self.d);
        if self.space.is_collision_free(&nearest_point, &new) {
            if self.goal.is_in(&new) {
                return StepResult::Success(SuccessStep { new, nearest, is_goal: true });
            }
            let ghost s = self.tree.entries();
            self.tree.expand(nearest, new);
            proof {
                crate::tree::lemma_expand_keeps_parent_order(s, nearest, new);
                crate::tree::lemma_expand_keeps_edges(s, nearest, new, self.d as nat);
                crate::tree::lemma_expand_keeps_free(s, nearest, new, self.space);
            }
            StepResult::Success(SuccessStep { new, nearest, is_goal: false })
        } else {
            StepResult::Failure
        }
    }

    pub fn tree_size(&self) -> (r: usize)
        ensures
            r == self.tree.entries().len(),
    {
        self.tree.size()
    }

    /// The full route of a goal-reaching step.
    pub fn path(&self, step_result: SuccessStep<P>) -> (r: Vec<P>)
        requires
            self.wf(),
            step_result.is_goal,
            step_result.nearest < self.tree.entries().len(),
        ensures
            r@ == self.route(step_result),
    {
        let mut path = self.tree.path(step_result.nearest);
        path.push(step_result.new);
        path
    }
}

} // verus!
