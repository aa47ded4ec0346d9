//! A reference space: integer points on a grid under the Chebyshev metric,
//! axis-aligned rectangular obstacles, and a ball-shaped goal region.
use vstd::prelude::*;

use crate::random::random_below;
use crate::{Point, Region, Space};

verus! {

/// A point of the integer grid.
#[derive(Clone, Copy, Debug, PartialEq, Eq, Structural)]
pub struct GridPoint {
    pub x: i32,
    pub y: i32,
}

pub open spec fn abs_int(v: int) -> int {
    if v < 0 {
        -v
    } else {
        v
    }
}

pub open spec fn max_int(a: int, b: int) -> int {
    if a < b {
        b
    } else {
        a
    }
}

/// `v` limited to the interval `[-d, d]`.
pub open spec fn clamp_int(v: int, d: int) -> int {
    if v > d {
        d
    } else if v < -d {
        -d
    } else {
        v
    }
}

/// The Chebyshev distance between two grid points.
pub open spec fn cheb(a: GridPoint, b: GridPoint) -> nat {
    max_int(abs_int(b.x - a.x), abs_int(b.y - a.y)) as nat
}

fn abs_diff(a: i32, b: i32) -> (r: u64)
    ensures
        r as int == abs_int(b - a),
{
    let v: i64 = b as i64 - a as i64;
    if v < 0 {
        (-v) as u64
    } else {
        v as u64
    }
}

fn clamp_step(v: i64, d: u64) -> (r: i64)
    requires
        -0x1_0000_0000 <= v <= 0x1_0000_0000,
    ensures
        r == clamp_int(v as int, d as int),
{
    if d >= 0x1_0000_0000 {
        v
    } else if v > d as i64 {
        d as i64
    } else if v < -(d as i64) {
        -(d as i64)
    } else {
        v
    }
}

impl Point for GridPoint {
    open spec fn dist(self, other: Self) -> nat {
        cheb(self, other)
    }

    proof fn lemma_metric(a: Self, b: Self) {
    }

    open spec fn steer(self, to: Self, d: nat) -> Self {
        GridPoint {
            x: (self.x + clamp_int(to.x - self.x, d as int)) as i32,
            y: (self.y + clamp_int(to.y - self.y, d as int)) as i32,
        }
    }

    proof fn lemma_steer(a: Self, b: Self, d: nat) {
    }

    fn distance(&self, other: &Self) -> (r: u64) {
        let dx = abs_diff(self.x, other.x);
        let dy = abs_diff(self.y, other.y);
        if dx < dy {
            dy
        } else {
            dx
        }
    }

    fn get_new(&self, to: &Self, d: u64) -> (r: Self) {
        let sx = clamp_step(to.x as i64 - self.x as i64, d);
        let sy = clamp_step(to.y as i64 - self.y as i64, d);
        let r = GridPoint { x: (self.x as i64 + sx) as i32, y: (self.y as i64 + sy) as i32 };
        proof {
            Self::lemma_steer(*self, *to, d as nat);
        }
        r
    }
}

/// The closed ball of configurations within `radius` of `position`.
pub struct Goal<P> {
    pub position: P,
    pub radius: u64,
}

impl<P: Point> Region for Goal<P> {
    type Point = P;

    open spec fn member(&self, point: P) -> bool {
        point.dist(self.position) <= self.radius
    }

    fn is_in(&self, point: &P) -> (r: bool) {
        point.distance(&self.position) <= self.radius
    }
}

/// An axis-aligned rectangle, boundary included.
#[derive(Clone, Copy, Debug, PartialEq, Eq, Structural)]
pub struct Rect {
    pub min: GridPoint,
    pub max: GridPoint,
}

/// The cross product of `a - o` and `b - o`: positive when `o`, `a`, `b` turn
/// counter-clockwise, negative when they turn clockwise, zero when collinear.
pub open spec fn cross(o: GridPoint, a: GridPoint, b: GridPoint) -> int {
    (a.x - o.x) * (b.y - o.y) - (a.y - o.y) * (b.x - o.x)
}

/// Whether `q` lies in the bounding box of `p` and `r`.
pub open spec fn in_box(p: GridPoint, q: GridPoint, r: GridPoint) -> bool {
    &&& (if p.x <= r.x { p.x <= q.x <= r.x } else { r.x <= q.x <= p.x })
    &&& (if p.y <= r.y { p.y <= q.y <= r.y } else { r.y <= q.y <= p.y })
}

/// The orientation test of the closed segments `p1 p2` and `p3 p4`: each
/// segment strictly straddles the other's line, or an endpoint of one is
/// collinear with the other and lies in its bounding box.
pub open spec fn segments_meet(p1: GridPoint, p2: GridPoint, p3: GridPoint, p4: GridPoint) -> bool {
    let d1 = cross(p1, p2, p3);
    let d2 = cross(p1, p2, p4);
    let d3 = cross(p3, p4, p1);
    let d4 = cross(p3, p4, p2);
    ||| ((d1 > 0 && d2 < 0) || (d1 < 0 && d2 > 0)) && ((d3 > 0 && d4 < 0) || (d3 < 0 && d4 > 0))
    ||| d1 == 0 && in_box(p1, p3, p2)
    ||| d2 == 0 && in_box(p1, p4, p2)
    ||| d3 == 0 && in_box(p3, p1, p4)
    ||| d4 == 0 && in_box(p3, p2, p4)
}

impl Rect {
    /// The corner `i` of the rectangle, counter-clockwise from `min`.
    pub open spec fn corner(self, i: int) -> GridPoint {
        if i == 0 {
            self.min
        } else if i == 1 {
            GridPoint { x: self.max.x, y: self.min.y }
        } else if i == 2 {
            self.max
        } else {
            GridPoint { x: self.min.x, y: self.max.y }
        }
    }

    /// Whether the segment `from to` touches the rectangle: an endpoint lies
    /// inside it, or the segment meets one of its four edges.
    pub open spec fn hits(self, from: GridPoint, to: GridPoint) -> bool {
        ||| self.member(from)
        ||| self.member(to)
        ||| exists|i: int| 0 <= i < 4 && #[trigger] segments_meet(from, to, self.corner(i), self.corner((i + 1) % 4))
    }

    pub fn new(min: GridPoint, max: GridPoint) -> (r: Self)
        ensures
            r.min == min,
            r.max == max,
    {
        Self { min, max }
    }

    fn corner_at(&self, i: usize) -> (r: GridPoint)
        requires
            i < 4,
        ensures
            r == self.corner(i as int),
    {
        if i == 0 {
            self.min
        } else if i == 1 {
            GridPoint { x: self.max.x, y: self.min.y }
        } else if i == 2 {
            self.max
        } else {
            GridPoint { x: self.min.x, y: self.max.y }
        }
    }

    pub fn intersect_line(&self, from: &GridPoint, to: &GridPoint) -> (r: bool)
        ensures
            r == self.hits(*from, *to),
    {
        if self.is_in(from) || self.is_in(to) {
            return true;
        }
        let mut i: usize = 0;
        while i < 4
            invariant
                i <= 4,
                forall|j: int| 0 <= j < i ==> !#[trigger] segments_meet(*from, *to, self.corner(j), self.corner((j + 1) % 4)),
            decreases 4 - i,
        {
            let edge_start = self.corner_at(i);
            let edge_end = self.corner_at((i + 1) % 4);
            if Self::segments_intersect(from, to, &edge_start, &edge_end) {
                return true;
            }
            i = i + 1;
        }
        false
    }

    pub fn segments_intersect(p1: &GridPoint, p2: &GridPoint, p3: &GridPoint, p4: &GridPoint) -> (r: bool)
        ensures
            r == segments_meet(*p1, *p2, *p3, *p4),
    {
        let d1 = Self::cross_product_2d(p1, p2, p3);
        let d2 = Self::cross_product_2d(p1, p2, p4);
        let d3 = Self::cross_product_2d(p3, p4, p1);
        let d4 = Self::cross_product_2d(p3, p4, p2);
        if ((d1 > 0 && d2 < 0) || (d1 < 0 && d2 > 0)) && ((d3 > 0 && d4 < 0) || (d3 < 0 && d4 > 0)) {
            return true;
        }
        (d1 == 0 && Self::on_segment(p1, p3, p2)) || (d2 == 0 && Self::on_segment(p1, p4, p2))
            || (d3 == 0 && Self::on_segment(p3, p1, p4)) || (d4 == 0 && Self::on_segment(p3, p2, p4))
    }

    /// The cross product of `a - o` and `b - o`.
    pub fn cross_product_2d(o: &GridPoint, a: &GridPoint, b: &GridPoint) -> (r: i128)
        ensures
            r == cross(*o, *a, *b),
    {
        let ax = a.x as i128 - o.x as i128;
        let ay = a.y as i128 - o.y as i128;
        let bx = b.x as i128 - o.x as i128;
        let by = b.y as i128 - o.y as i128;
        assert(-0x1_0000_0000 * 0x1_0000_0000 <= ax * by <= 0x1_0000_0000 * 0x1_0000_0000) by (nonlinear_arith)
            requires
                -0x1_0000_0000 <= ax <= 0x1_0000_0000,
                -0x1_0000_0000 <= by <= 0x1_0000_0000,
        ;
        assert(-0x1_0000_0000 * 0x1_0000_0000 <= ay * bx <= 0x1_0000_0000 * 0x1_0000_0000) by (nonlinear_arith)
            requires
                -0x1_0000_0000 <= ay <= 0x1_0000_0000,
                -0x1_0000_0000 <= bx <= 0x1_0000_0000,
        ;
        ax * by - ay * bx
    }

    /// Whether `q` lies in the bounding box of `p` and `r`.
    pub fn on_segment(p: &GridPoint, q: &GridPoint, r: &GridPoint) -> (b: bool)
        ensures
            b == in_box(*p, *q, *r),
    {
        let (lo_x, hi_x) = if p.x <= r.x { (p.x, r.x) } else { (r.x, p.x) };
        let (lo_y, hi_y) = if p.y <= r.y { (p.y, r.y) } else { (r.y, p.y) };
        lo_x <= q.x && q.x <= hi_x && lo_y <= q.y && q.y <= hi_y
    }
}

impl Region for Rect {
    type Point = GridPoint;

    open spec fn member(&self, point: GridPoint) -> bool {
        self.min.x <= point.x <= self.max.x && self.min.y <= point.y <= self.max.y
    }

    fn is_in(&self, point: &GridPoint) -> (r: bool) {
        point.x >= self.min.x && point.x <= self.max.x && point.y >= self.min.y && point.y <= self.max.y
    }
}

/// The rectangle `[0, width) x [0, height)` of the grid, with obstacles.
pub struct CubeSpace {
    pub width: i32,
    pub height: i32,
    pub obstacles: Vec<Rect>,
}

/// A uniform draw from `0..n`, or 0 where `n` is not positive.
fn sample_coordinate(rng: &mut rand::rngs::ThreadRng, n: i32) -> (r: i32)
    ensures
        n > 0 ==> 0 <= r < n,
        n <= 0 ==> r == 0,
{
    if n <= 0 {
        0
    } else {
        random_below(rng, n as u64) as i32
    }
}

impl Space for CubeSpace {
    type Point = GridPoint;

    open spec fn free(&self, from: GridPoint, to: GridPoint) -> bool {
        forall|i: int| 0 <= i < self.obstacles@.len() ==> !(#[trigger] self.obstacles@[i]).hits(from, to)
    }

    open spec fn samples(&self, p: GridPoint) -> bool {
        &&& (if self.width > 0 { 0 <= p.x < self.width } else { p.x == 0 })
        &&& (if self.height > 0 { 0 <= p.y < self.height } else { p.y == 0 })
    }

    fn sample(&self, rng: &mut rand::rngs::ThreadRng) -> (r: GridPoint) {
        let x = sample_coordinate(rng, self.width);
        let y = sample_coordinate(rng, self.height);
        GridPoint { x, y }
    }

    fn is_collision_free(&self, from: &GridPoint, to: &GridPoint) -> (r: bool) {
        let mut i: usize = 0;
        while i < self.obstacles.len()
            invariant
                i <= self.obstacles@.len(),
                forall|j: int| 0 <= j < i ==> !(#[trigger] self.obstacles@[j]).hits(*from, *to),
            decreases self.obstacles@.len() - i,
        {
            if self.obstacles[i].intersect_line(from, to) {
                return false;
            }
            i = i + 1;
        }
        true
    }
}

} // verus!
