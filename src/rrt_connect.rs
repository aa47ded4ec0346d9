//! RRT-Connect: two trees, one from the start and one from the goal, grown in
//! turn until a new point of one can be joined to the other.
use vstd::prelude::*;

use crate::random::thread_rng;
use crate::tree::{
    edges_free, edges_within, lemma_expand_keeps_edges, lemma_expand_keeps_free,
    lemma_expand_keeps_parent_order, lemma_path_ends, lemma_path_free, lemma_path_steps, lemma_scan_nearest_is_first_minimum, path_of, reversed, scan_nearest, tree_wf,
};
use crate::{Point, Space, Tree};

verus! {

/// A bidirectional planner with step length `d`.
pub struct RRTConnect<T, S> {
    pub start_tree: T,
    pub goal_tree: T,
    pub space: S,
    pub d: u64,
    pub rng: rand::rngs::ThreadRng,
}

/// The outcome of one planning step.
pub enum StepResult<P> {
    Success(SuccessStep<P>),
    Failure,
}

/// A collision-free step: the new point, the nearest node to it in each tree,
/// which tree grew, and whether the trees were joined.
pub struct SuccessStep<P> {
    pub is_goal: bool,
    pub new: P,
    pub is_start: bool,
    pub nearest_start: usize,
    pub nearest_goal: usize,
}

/// Growing tree `a` toward `sample`, with `b` as the other tree: the entries
/// of `a` afterwards, and for a collision-free edge the new point, its nearest
/// node in `a`, its nearest node in `b`, and whether it joins `b`.
pub open spec fn grow_spec<P: Point, S: Space<Point = P>>(
    a: Seq<(usize, P)>,
    b: Seq<(usize, P)>,
    space: S,
    d: nat,
    sample: P,
) -> (Seq<(usize, P)>, Option<(P, usize, usize, bool)>) {
    let n = scan_nearest(a, sample, a.len() as int);
    let q = a[n].1;
    let new = q.steer(sample, d);
    let m = scan_nearest(b, new, b.len() as int);
    let w = b[m].1;
    let bridged = w.dist(new) < d && space.free(w, new);
    if !space.free(q, new) {
        (a, None)
    } else if bridged {
        (a, Some((new, n as usize, m as usize, true)))
    } else {
        (a.push((n as usize, new)), Some((new, n as usize, m as usize, false)))
    }
}

fn grow<P: Point, T: Tree<P>, S: Space<Point = P>>(
    a: &mut T,
    b: &T,
    space: &S,
    d: u64,
    sample: P,
) -> (r: Option<(P, usize, usize, bool)>)
    requires
        tree_wf(old(a).entries()),
        edges_within(old(a).entries(), d as nat),
        edges_free(old(a).entries(), *space),
        old(a).entries().len() < usize::MAX,
        tree_wf(b.entries()),
    ensures
        (final(a).entries(), r) == grow_spec(old(a).entries(), b.entries(), *space, d as nat, sample),
        tree_wf(final(a).entries()),
        edges_within(final(a).entries(), d as nat),
        edges_free(final(a).entries(), *space),
{
    let ghost s = a.entries();
    let nearest = a.nearest(&sample);
    proof {
        lemma_scan_nearest_is_first_minimum(s, sample, s.len() as int);
    }
    let nearest_point = *a.get(nearest);
    let new = nearest_point.get_new(&sample, d);
    if !space.is_collision_free(&nearest_point, &new) {
        return None;
    }
    let nearest_in_b = b.nearest(&new);
    proof {
        lemma_scan_nearest_is_first_minimum(b.entries(), new, b.entries().len() as int);
    }
    let nearest_point_in_b = *b.get(nearest_in_b);
    if nearest_point_in_b.distance(&new) < d && space.is_collision_free(&nearest_point_in_b, &new) {
        return Some((new, nearest, nearest_in_b, true));
    }
    a.expand(nearest, new);
    proof {
        lemma_expand_keeps_parent_order(s, nearest, new);
        lemma_expand_keeps_edges(s, nearest, new, d as nat);
        lemma_expand_keeps_free(s, nearest, new, *space);
    }
    Some((new, nearest, nearest_in_b, false))
}

impl<T, P, S> RRTConnect<T, S> where P: Point, T: Tree<P>, S: Space<Point = P> {
    /// Both trees are well formed, none of their edges is longer than a step,
    /// and every edge is free of collisions.
    pub open spec fn wf(&self) -> bool {
        &&& tree_wf(self.start_tree.entries())
        &&& tree_wf(self.goal_tree.entries())
        &&& edges_within(self.start_tree.entries(), self.d as nat)
        &&& edges_within(self.goal_tree.entries(), self.d as nat)
        &&& edges_free(self.start_tree.entries(), self.space)
        &&& edges_free(self.goal_tree.entries(), self.space)
    }

    /// Whether the start tree grows on the next step: the smaller tree grows,
    /// the start tree on a tie.
    pub open spec fn grows_start(self) -> bool {
        self.start_tree.entries().len() <= self.goal_tree.entries().len()
    }

    /// `post` and `r` are what one step toward `sample` makes of `self`.
    pub open spec fn stepped(self, sample: P, post: Self, r: StepResult<P>) -> bool {
        let st = self.start_tree.entries();
        let gt = self.goal_tree.entries();
        let grow_start = self.grows_start();
        let g = if grow_start {
            grow_spec(st, gt, self.space, self.d as nat, sample)
        } else {
            grow_spec(gt, st, self.space, self.d as nat, sample)
        };
        &&& post.space == self.space
        &&& post.d == self.d
        &&& post.start_tree.entries() == (if grow_start { g.0 } else { st })
        &&& post.goal_tree.entries() == (if grow_start { gt } else { g.0 })
        &&& r == match g.1 {
            None => StepResult::<P>::Failure,
            Some(o) => StepResult::Success(
                SuccessStep {
                    is_goal: o.3,
                    new: o.0,
                    is_start: grow_start,
                    nearest_start: if grow_start { o.1 } else { o.2 },
                    nearest_goal: if grow_start { o.2 } else { o.1 },
                },
            ),
        }
    }

    /// The route of a success: the start tree's path to its bridging node, the
    /// new point, then the goal tree's path to its bridging node, reversed.
    pub open spec fn route(self, res: SuccessStep<P>) -> Seq<P> {
        path_of(self.start_tree.entries(), res.nearest_start as int).push(res.new) + path_of(
            self.goal_tree.entries(),
            res.nearest_goal as int,
        ).reverse()
    }

    /// One step adds at most one node to the two trees together, and a step
    /// that fails or joins the trees adds none.
    pub proof fn lemma_step_size(self, sample: P, post: Self, r: StepResult<P>)
        requires
            self.stepped(sample, post, r),
        ensures
            self.start_tree.entries().len() + self.goal_tree.entries().len()
                <= post.start_tree.entries().len() + post.goal_tree.entries().len()
                <= self.start_tree.entries().len() + self.goal_tree.entries().len() + 1,
            r is Failure ==> post.start_tree.entries().len() + post.goal_tree.entries().len()
                == self.start_tree.entries().len() + self.goal_tree.entries().len(),
            r matches StepResult::Success(res) ==> post.start_tree.entries().len()
                + post.goal_tree.entries().len() == self.start_tree.entries().len()
                + self.goal_tree.entries().len() + (if res.is_goal { 0int } else { 1int }),
    {
    }

    /// The route of a step that joins the trees starts at the start tree's
    /// root, ends at the goal tree's root, and consecutive points on it are at
    /// most one step length apart. Each motion between consecutive points is
    /// free of collisions in the direction it was tested: forward up to the
    /// new point, and from each later point back to the one before it.
    pub proof fn lemma_route_contiguous(self, sample: P, post: Self, res: SuccessStep<P>)
        requires
            self.wf(),
            self.stepped(sample, post, StepResult::Success(res)),
            res.is_goal,
        ensures
            self.route(res)[0] == self.start_tree.entries()[0].1,
            self.route(res).last() == self.goal_tree.entries()[0].1,
            forall|k: int|
                0 <= k < self.route(res).len() - 1 ==> #[trigger] self.route(res)[k].dist(self.route(res)[k + 1])
                    <= self.d,
            self.route(res)[path_of(self.start_tree.entries(), res.nearest_start as int).len() as int] == res.new,
            forall|k: int|
                0 <= k < path_of(self.start_tree.entries(), res.nearest_start as int).len()
                    ==> #[trigger] self.space.free(self.route(res)[k], self.route(res)[k + 1]),
            forall|k: int|
                path_of(self.start_tree.entries(), res.nearest_start as int).len() <= k < self.route(res).len() - 1
                    ==> #[trigger] self.space.free(self.route(res)[k + 1], self.route(res)[k]),
    {
        let st = self.start_tree.entries();
        let gt = self.goal_tree.entries();
        let d = self.d as nat;
        let (a, b) = if self.grows_start() { (st, gt) } else { (gt, st) };
        let n = scan_nearest(a, sample, a.len() as int);
        lemma_scan_nearest_is_first_minimum(a, sample, a.len() as int);
        let new = a[n].1.steer(sample, d);
        lemma_scan_nearest_is_first_minimum(b, new, b.len() as int);
        let m = scan_nearest(b, new, b.len() as int);
        P::lemma_steer(a[n].1, sample, d);
        P::lemma_metric(a[n].1, new);
        P::lemma_metric(b[m].1, new);
        assert(res.new == new);
        let i = res.nearest_start as int;
        let j = res.nearest_goal as int;
        // Both bridging nodes lie within a step of the new point.
        assert(st[i].1.dist(new) <= d);
        assert(new.dist(gt[j].1) <= d);
        lemma_path_ends(st, i);
        lemma_path_ends(gt, j);
        lemma_path_steps(st, i, d);
        lemma_path_steps(gt, j, d);
        let head = path_of(st, i).push(new);
        let g = path_of(gt, j);
        let tail = g.reverse();
        let full = self.route(res);
        assert(full == head + tail);
        assert forall|k: int| 0 <= k < full.len() - 1 implies #[trigger] full[k].dist(full[k + 1]) <= self.d by {
            if k < head.len() - 2 {
                assert(full[k] == path_of(st, i)[k] && full[k + 1] == path_of(st, i)[k + 1]);
            } else if k == head.len() - 2 {
                assert(full[k] == st[i].1);
                assert(full[k + 1] == new);
            } else if k == head.len() - 1 {
                assert(full[k] == new);
                assert(full[k + 1] == tail[0]);
                assert(tail[0] == g[g.len() - 1]);
            } else {
                let t = k - head.len();
                let x = g.len() - 2 - t;
                assert(full[k] == tail[t]);
                assert(full[k + 1] == tail[t + 1]);
                assert(tail[t] == g[x + 1]);
                assert(tail[t + 1] == g[x]);
                assert(g[x].dist(g[x + 1]) <= d);
                P::lemma_metric(g[x], g[x + 1]);
            }
        }
        lemma_path_free(st, i, self.space);
        lemma_path_free(gt, j, self.space);
        assert(self.space.free(st[i].1, new));
        assert(self.space.free(gt[j].1, new));
        assert forall|k: int| 0 <= k < head.len() - 1 implies #[trigger] self.space.free(full[k], full[k + 1]) by {
            if k < head.len() - 2 {
                assert(full[k] == path_of(st, i)[k] && full[k + 1] == path_of(st, i)[k + 1]);
            } else {
                assert(full[k] == st[i].1);
                assert(full[k + 1] == new);
            }
        }
        assert forall|k: int| head.len() - 1 <= k < full.len() - 1 implies #[trigger] self.space.free(full[k + 1], full[k]) by {
            if k == head.len() - 1 {
                assert(full[k] == new);
                assert(full[k + 1] == tail[0]);
                assert(tail[0] == g[g.len() - 1]);
            } else {
                let t = k - head.len();
                let x = g.len() - 2 - t;
                assert(full[k] == tail[t]);
                assert(full[k + 1] == tail[t + 1]);
                assert(tail[t] == g[x + 1]);
                assert(tail[t + 1] == g[x]);
                assert(self.space.free(g[x], g[x + 1]));
            }
        }
        assert(full[head.len() - 1] == new);
        assert(full.last() == tail[tail.len() - 1]);
        assert(full[0] == head[0]);
    }

    pub fn new(start: P, goal: P, space: S, d: u64) -> (r: Self)
        ensures
            r.start_tree.entries() == seq![(0usize, start)],
            r.goal_tree.entries() == seq![(0usize, goal)],
            r.space == space,
            r.d == d,
            r.wf(),
    {
        Self {
            start_tree: T::new(start),
            goal_tree: T::new(goal),
            space,
            rng: thread_rng(),
            d,
        }
    }

    /// One step toward a random sample of the space.
    pub fn step(&mut self) -> (r: StepResult<P>)
        requires
            old(self).wf(),
            old(self).start_tree.entries().len() < usize::MAX,
            old(self).goal_tree.entries().len() < usize::MAX,
        ensures
            final(self).wf(),
            exists|sample: P| old(self).space.samples(sample) && old(self).stepped(sample, *final(self), r),
            old(self).start_tree.entries().len() + old(self).goal_tree.entries().len()
                <= final(self).start_tree.entries().len() + final(self).goal_tree.entries().len()
                <= old(self).start_tree.entries().len() + old(self).goal_tree.entries().len() + 1,
    {
        let sample = self.space.sample(&mut self.rng);
        let ghost drawn = *self;
        let r = self.step_toward(sample);
        assert(drawn.start_tree == old(self).start_tree && drawn.goal_tree == old(self).goal_tree
            && drawn.space == old(self).space);
        assert(old(self).stepped(sample, *self, r));
        proof {
            old(self).lemma_step_size(sample, *self, r);
        }
        r
    }

    /// One step toward `sample`: grow the smaller tree toward it, and report
    /// whether the new point joins the other tree.
    pub fn step_toward(&mut self, sample: P) -> (r: StepResult<P>)
        requires
            old(self).wf(),
            old(self).start_tree.entries().len() < usize::MAX,
            old(self).goal_tree.entries().len() < usize::MAX,
        ensures
            final(self).wf(),
            old(self).stepped(sample, *final(self), r),
    {
        let start_tree = self.start_tree.size() <= self.goal_tree.size();
        let grown = if start_tree {
            grow(&mut self.start_tree, &self.goal_tree, &self.space, self.d, sample)
        } else {
            grow(&mut self.goal_tree, &self.start_tree, &self.space, self.d, sample)
        };
        match grown {
            None => StepResult::Failure,
            Some((new, nearest, nearest_in_b, is_goal)) => StepResult::Success(
                SuccessStep {
                    new,
                    nearest_start: if start_tree { nearest } else { nearest_in_b },
                    nearest_goal: if start_tree { nearest_in_b } else { nearest },
                    is_start: start_tree,
                    is_goal,
                },
            ),
        }
    }

    /// The full route of a step that joined the trees, from the start to the goal.
    pub fn path(&self, step_result: SuccessStep<P>) -> (r: Vec<P>)
        requires
            self.wf(),
            step_result.is_goal,
            step_result.nearest_start < self.start_tree.entries().len(),
            step_result.nearest_goal < self.goal_tree.entries().len(),
        ensures
            r@ == self.route(step_result),
    {
        let mut start_path = self.start_tree.path(step_result.nearest_start);
        let goal_path = self.goal_tree.path(step_result.nearest_goal);
        let mut goal_path = reversed(&goal_path);
        start_path.push(step_result.new);
        start_path.append(&mut goal_path);
        start_path
    }
}

} // verus!
