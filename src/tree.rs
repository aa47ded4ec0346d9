//! Parent-linked, append-only trees of configurations.
use vstd::prelude::*;

use crate::{Point, Space, Tree};

verus! {

/// Every non-root node names a parent inserted strictly before it, the root
/// (node 0) is its own parent, and every index fits in `usize`.
pub open spec fn tree_wf<T>(s: Seq<(usize, T)>) -> bool {
    &&& 0 < s.len() <= usize::MAX
    &&& s[0].0 == 0
    &&& forall|i: int| 0 < i < s.len() ==> (#[trigger] s[i]).0 < i
}

/// Every parent edge of the tree is at most `d` long.
pub open spec fn edges_within<T: Point>(s: Seq<(usize, T)>, d: nat) -> bool {
    forall|i: int| 0 < i < s.len() ==> (#[trigger] s[s[i].0 as int]).1.dist(s[i].1) <= d
}

/// The straight motion along every parent edge, from parent to child, is
/// free of collisions in `space`.
pub open spec fn edges_free<T, S: Space<Point = T>>(s: Seq<(usize, T)>, space: S) -> bool {
    forall|i: int| 0 < i < s.len() ==> space.free((#[trigger] s[s[i].0 as int]).1, s[i].1)
}

/// Whether node `i` has a real parent edge to follow.
pub open spec fn has_parent<T>(s: Seq<(usize, T)>, i: int) -> bool {
    0 < i < s.len() && (s[i].0 as int) < i
}

/// The points met on the way from the root down to node `i`, root first.
pub open spec fn path_of<T>(s: Seq<(usize, T)>, i: int) -> Seq<T>
    decreases i,
{
    if has_parent(s, i) {
        path_of(s, s[i].0 as int).push(s[i].1)
    } else {
        seq![s[i].1]
    }
}

/// The number of parent edges between node `i` and the root.
pub open spec fn depth<T>(s: Seq<(usize, T)>, i: int) -> nat
    decreases i,
{
    if has_parent(s, i) {
        depth(s, s[i].0 as int) + 1
    } else {
        0
    }
}

/// A brute-force scan of the first `n` nodes for the one closest to `p`,
/// keeping the first of equally close nodes.
pub open spec fn scan_nearest<T: Point>(s: Seq<(usize, T)>, p: T, n: int) -> int
    decreases n,
{
    if n <= 1 {
        0
    } else {
        let best = scan_nearest(s, p, n - 1);
        if s[n - 1].1.dist(p) < s[best].1.dist(p) {
            n - 1
        } else {
            best
        }
    }
}

/// Appending a node under an existing parent keeps every parent index
/// strictly below its child's index.
pub proof fn lemma_expand_keeps_parent_order<T>(s: Seq<(usize, T)>, from: usize, p: T)
    requires
        tree_wf(s),
        from < s.len(),
        s.len() < usize::MAX,
    ensures
        tree_wf(s.push((from, p))),
{
    let t = s.push((from, p));
    assert forall|i: int| 0 < i < t.len() implies (#[trigger] t[i]).0 < i by {
        if i < s.len() {
            assert(t[i] == s[i]);
        }
    }
}

/// A path starts at the root's point, ends at the point of its end node, and
/// holds one point more than the end node's depth.
pub proof fn lemma_path_ends<T>(s: Seq<(usize, T)>, i: int)
    requires
        tree_wf(s),
        0 <= i < s.len(),
    ensures
        path_of(s, i).len() == depth(s, i) + 1,
        path_of(s, i)[0] == s[0].1,
        path_of(s, i).last() == s[i].1,
    decreases i,
{
    if has_parent(s, i) {
        lemma_path_ends(s, s[i].0 as int);
    } else {
        assert(i == 0);
    }
}

/// Consecutive points of a path are at most `d` apart when every edge is.
pub proof fn lemma_path_steps<T: Point>(s: Seq<(usize, T)>, i: int, d: nat)
    requires
        tree_wf(s),
        edges_within(s, d),
        0 <= i < s.len(),
    ensures
        forall|k: int|
            0 <= k < path_of(s, i).len() - 1 ==> #[trigger] path_of(s, i)[k].dist(path_of(s, i)[k + 1])
                <= d,
    decreases i,
{
    if has_parent(s, i) {
        let p = s[i].0 as int;
        lemma_path_steps(s, p, d);
        lemma_path_ends(s, p);
        let head = path_of(s, p);
        let full = path_of(s, i);
        assert(full == head.push(s[i].1));
        assert forall|k: int| 0 <= k < full.len() - 1 implies #[trigger] full[k].dist(full[k + 1]) <= d by {
            if k < head.len() - 1 {
                assert(full[k] == head[k] && full[k + 1] == head[k + 1]);
            } else {
                assert(full[k] == s[p].1);
                assert(full[k + 1] == s[i].1);
                assert(s[s[i].0 as int].1.dist(s[i].1) <= d);
            }
        }
    }
}

/// The scan's answer is a node of the tree, none is closer to `p`, and every
/// node before it is strictly farther.
pub proof fn lemma_scan_nearest_is_first_minimum<T: Point>(s: Seq<(usize, T)>, p: T, n: int)
    requires
        0 < n <= s.len(),
    ensures
        0 <= scan_nearest(s, p, n) < n,
        forall|j: int|
            0 <= j < n ==> s[scan_nearest(s, p, n)].1.dist(p) <= #[trigger] s[j].1.dist(p),
        forall|j: int|
            0 <= j < scan_nearest(s, p, n) ==> s[scan_nearest(s, p, n)].1.dist(p) < #[trigger] s[j].1.dist(p),
    decreases n,
{
    if n > 1 {
        lemma_scan_nearest_is_first_minimum(s, p, n - 1);
    }
}

/// Appending a node leaves the spec of every existing node's path unchanged.
pub proof fn lemma_path_of_push<T>(s: Seq<(usize, T)>, e: (usize, T), i: int)
    requires
        0 <= i < s.len(),
    ensures
        path_of(s.push(e), i) == path_of(s, i),
    decreases i,
{
    let t = s.push(e);
    assert(t[i] == s[i]);
    if has_parent(s, i) {
        lemma_path_of_push(s, e, s[i].0 as int);
    }
}

/// Appending a node no farther than `d` from its parent keeps every edge
/// within `d`.
pub proof fn lemma_expand_keeps_edges<T: Point>(s: Seq<(usize, T)>, from: usize, p: T, d: nat)
    requires
        tree_wf(s),
        edges_within(s, d),
        from < s.len(),
        s[from as int].1.dist(p) <= d,
    ensures
        edges_within(s.push((from, p)), d),
{
    let t = s.push((from, p));
    assert forall|i: int| 0 < i < t.len() implies (#[trigger] t[t[i].0 as int]).1.dist(t[i].1) <= d by {
        if i < s.len() {
            assert(t[i] == s[i]);
            assert(s[s[i].0 as int] == t[t[i].0 as int]);
        }
    }
}

/// Appending a node whose edge from its parent is free keeps every edge free.
pub proof fn lemma_expand_keeps_free<T, S: Space<Point = T>>(s: Seq<(usize, T)>, from: usize, p: T, space: S)
    requires
        tree_wf(s),
        edges_free(s, space),
        from < s.len(),
        space.free(s[from as int].1, p),
    ensures
        edges_free(s.push((from, p)), space),
{
    let t = s.push((from, p));
    assert forall|i: int| 0 < i < t.len() implies space.free((#[trigger] t[t[i].0 as int]).1, t[i].1) by {
        if i < s.len() {
            assert(t[i] == s[i]);
            assert(s[s[i].0 as int] == t[t[i].0 as int]);
        }
    }
}

/// Consecutive points of a path are joined by free motions when every edge is.
pub proof fn lemma_path_free<T, S: Space<Point = T>>(s: Seq<(usize, T)>, i: int, space: S)
    requires
        tree_wf(s),
        edges_free(s, space),
        0 <= i < s.len(),
    ensures
        forall|k: int|
            0 <= k < path_of(s, i).len() - 1 ==> #[trigger] space.free(path_of(s, i)[k], path_of(s, i)[k + 1]),
    decreases i,
{
    if has_parent(s, i) {
        let p = s[i].0 as int;
        lemma_path_free(s, p, space);
        lemma_path_ends(s, p);
        let head = path_of(s, p);
        let full = path_of(s, i);
        assert(full == head.push(s[i].1));
        assert forall|k: int| 0 <= k < full.len() - 1 implies #[trigger] space.free(full[k], full[k + 1]) by {
            if k < head.len() - 1 {
                assert(full[k] == head[k] && full[k + 1] == head[k + 1]);
            } else {
                assert(full[k] == s[p].1);
                assert(full[k + 1] == s[i].1);
                assert(space.free(s[s[i].0 as int].1, s[i].1));
            }
        }
    }
}

/// A copy of `v` in reverse order.
pub fn reversed<T: Copy>(v: &Vec<T>) -> (r: Vec<T>)
    ensures
        r@ == v@.reverse(),
{
    let mut out: Vec<T> = Vec::new();
    let mut k: usize = v.len();
    while k > 0
        invariant
            k <= v.len(),
            out@ =~= v@.subrange(k as int, v.len() as int).reverse(),
        decreases k,
    {
        k = k - 1;
        out.push(v[k]);
        assert(out@ =~= v@.subrange(k as int, v.len() as int).reverse());
    }
    assert(v@.subrange(0, v.len() as int) =~= v@);
    out
}

/// A tree held as a vector of `(parent, point)` entries.
pub struct SimpleTree<T> {
    pub nodes: Vec<(usize, T)>,
}

impl<T: Point> Tree<T> for SimpleTree<T> {
    open spec fn entries(&self) -> Seq<(usize, T)> {
        self.nodes@
    }

    fn new(start: T) -> (r: Self) {
        let mut nodes: Vec<(usize, T)> = Vec::new();
        nodes.push((0, start));
        SimpleTree { nodes }
    }

    fn size(&self) -> (r: usize) {
        self.nodes.len()
    }

    fn get(&self, index: usize) -> (r: &T) {
        &self.nodes[index].1
    }

    fn expand(&mut self, from: usize, to: T) {
        self.nodes.push((from, to));
    }

    fn path(&self, end: usize) -> (r: Vec<T>) {
        let ghost s = self.nodes@;
        let mut rev: Vec<T> = Vec::new();
        let mut cur: usize = end;
        loop
            invariant_except_break
                s == self.nodes@,
                tree_wf(s),
                end < s.len(),
                cur < s.len(),
                path_of(s, end as int) == path_of(s, cur as int) + rev@.reverse(),
            ensures
                path_of(s, end as int) == rev@.reverse(),
            decreases cur,
        {
            let (parent, point) = self.nodes[cur];
            let ghost old_rev = rev@;
            rev.push(point);
            assert(rev@.reverse() =~= seq![point] + old_rev.reverse());
            if cur == 0 {
                assert(path_of(s, 0) == seq![point]);
                assert(path_of(s, end as int) =~= rev@.reverse());
                break;
            }
            assert(path_of(s, cur as int) == path_of(s, parent as int).push(point));
            assert(path_of(s, end as int) =~= path_of(s, parent as int) + rev@.reverse());
            cur = parent;
        }
        reversed(&rev)
    }

    fn nearest(&self, point: &T) -> (r: usize) {
        let ghost s = self.nodes@;
        let mut best: usize = 0;
        let mut best_dist: u64 = self.nodes[0].1.distance(point);
        let mut i: usize = 1;
        while i < self.nodes.len()
            invariant
                s == self.nodes@,
                1 <= i <= s.len(),
                best == scan_nearest(s, *point, i as int),
                best < s.len(),
                best_dist as nat == s[best as int].1.dist(*point),
            decreases s.len() - i,
        {
            let dd = self.nodes[i].1.distance(point);
            if dd < best_dist {
                best = i;
                best_dist = dd;
            }
            i = i + 1;
        }
        best
    }
}

} // verus!
