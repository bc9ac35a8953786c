use vstd::prelude::*;
use crate::paint::Place;
use crate::point::Point;
use crate::point::UNIT;
use crate::stored_octree::StoredNode;
use crate::tree::pow2;

verus! {

/// The value `num / d` lies between `lo` and `hi`, both included; stated
/// without the division. The divisor is not zero.
pub open spec fn between(lo: int, hi: int, num: int, d: int) -> bool {
    if d > 0 {
        lo * d <= num <= hi * d
    } else {
        hi * d <= num <= lo * d
    }
}

/// Where the line through `near` and `far` meets the plane on which the
/// coordinate of axis `a` is `p`, the coordinate of axis `b` of that
/// point, times the difference of the two ends along `a`.
pub open spec fn crossing(near: Point, far: Point, a: int, p: int, b: int) -> int {
    near[b] * (far[a] - near[a]) + (p - near[a]) * (far[b] - near[b])
}

impl StoredNode {
    /// The least coordinate of the cube along the axis, in fixed-point units.
    pub open spec fn low(self, axis: int) -> int {
        if axis == 0 {
            self.x * UNIT
        } else if axis == 1 {
            self.y * UNIT
        } else {
            self.z * UNIT
        }
    }

    /// The greatest coordinate of a cube of edge `size` along the axis, in
    /// fixed-point units.
    pub open spec fn high(self, size: int, axis: int) -> int {
        self.low(axis) + size * UNIT
    }

    /// The line through `near` and `far` meets the plane on which the
    /// coordinate of axis `a` is `p` in one point, and the point is inside
    /// the cube's bounds along the other two axes.
    pub open spec fn meets_plane(self, size: int, near: Point, far: Point, a: int, p: int) -> bool {
        let d = far[a] - near[a];
        let b = if a == 0 { 1int } else { 0int };
        let c = if a == 2 { 1int } else { 2int };
        &&& d != 0
        &&& between(self.low(b), self.high(size, b), crossing(near, far, a, p, b), d)
        &&& between(self.low(c), self.high(size, c), crossing(near, far, a, p, c), d)
    }

    /// The line through `near` and `far` meets one of the six planes that
    /// bound the cube, of edge `size`, inside the cube's bounds.
    pub open spec fn spec_intersects(self, size: int, near: Point, far: Point) -> bool {
        ||| self.meets_plane(size, near, far, 0, self.low(0))
        ||| self.meets_plane(size, near, far, 0, self.high(size, 0))
        ||| self.meets_plane(size, near, far, 1, self.low(1))
        ||| self.meets_plane(size, near, far, 1, self.high(size, 1))
        ||| self.meets_plane(size, near, far, 2, self.low(2))
        ||| self.meets_plane(size, near, far, 2, self.high(size, 2))
    }

    /// The squared distance from the point to the corner of the cube at
    /// its index, in fixed-point units.
    pub open spec fn spec_distance(self, point: Point) -> int {
        let dx = point[0] - self.low(0);
        let dy = point[1] - self.low(1);
        let dz = point[2] - self.low(2);
        dx * dx + dy * dy + dz * dz
    }

    /// The place of the node.
    pub open spec fn place(self) -> Place {
        (self.x, self.y, self.z, self.level)
    }
}

/// The node `nodes[i]` is met by the line and is the first of the nodes
/// met that are nearest to `near`.
pub open spec fn first_nearest(nodes: Seq<StoredNode>, depth: u32, near: Point, far: Point, i: int)
    -> bool {
    &&& 0 <= i < nodes.len()
    &&& hit(nodes[i], depth, near, far)
    &&& forall|j: int|
        0 <= j < nodes.len() && hit(#[trigger] nodes[j], depth, near, far)
            ==> nodes[i].spec_distance(near) <= nodes[j].spec_distance(near)
    &&& forall|j: int|
        0 <= j < i && hit(#[trigger] nodes[j], depth, near, far) ==> nodes[i].spec_distance(near)
            < nodes[j].spec_distance(near)
}

/// The line through `near` and `far` meets the cube of the node, in a
/// tree of the given depth.
pub open spec fn hit(node: StoredNode, depth: u32, near: Point, far: Point) -> bool {
    node.spec_intersects(pow2((depth - node.level) as nat), near, far)
}

/// What picking gives for the active nodes listed: nothing where the line
/// meets none of them, else the place of the first of the nearest met.
pub open spec fn picked(
    nodes: Seq<StoredNode>,
    depth: u32,
    near: Point,
    far: Point,
    r: Option<Place>,
) -> bool {
    match r {
        None => forall|j: int| 0 <= j < nodes.len() ==> !hit(#[trigger] nodes[j], depth, near, far),
        Some(c) => exists|i: int| #[trigger]
            first_nearest(nodes, depth, near, far, i) && nodes[i].place() == c,
    }
}

/// Picking is determined: for the same nodes and the same line there is
/// one answer only.
pub proof fn law_picking_determined(
    nodes: Seq<StoredNode>,
    depth: u32,
    near: Point,
    far: Point,
    r: Option<Place>,
    s: Option<Place>,
)
    requires
        picked(nodes, depth, near, far, r),
        picked(nodes, depth, near, far, s),
    ensures
        r == s,
{
    if r.is_some() {
        let i = choose|i: int| #[trigger]
            first_nearest(nodes, depth, near, far, i) && nodes[i].place() == r.unwrap();
        assert(hit(nodes[i], depth, near, far));
        if s.is_some() {
            let j = choose|j: int| #[trigger]
                first_nearest(nodes, depth, near, far, j) && nodes[j].place() == s.unwrap();
            assert(hit(nodes[j], depth, near, far));
            if i < j {
                assert(nodes[j].spec_distance(near) < nodes[i].spec_distance(near));
            } else if j < i {
                assert(nodes[i].spec_distance(near) < nodes[j].spec_distance(near));
            }
        }
    } else if s.is_some() {
        let j = choose|j: int| #[trigger]
            first_nearest(nodes, depth, near, far, j) && nodes[j].place() == s.unwrap();
        assert(hit(nodes[j], depth, near, far));
    }
}

/// The product of two numbers of at most 34 bits, which fits in 128 bits.
fn product(a: i64, b: i64) -> (r: i128)
    requires
        -0x2_0000_0000 <= a <= 0x2_0000_0000,
        -0x2_0000_0000 <= b <= 0x2_0000_0000,
    ensures
        r == a * b,
        -0x4_0000_0000_0000_0000 <= r <= 0x4_0000_0000_0000_0000,
{
    assert(-0x4_0000_0000_0000_0000 <= a * b <= 0x4_0000_0000_0000_0000) by (nonlinear_arith)
        requires
            -0x2_0000_0000 <= a <= 0x2_0000_0000,
            -0x2_0000_0000 <= b <= 0x2_0000_0000,
    ;
    (a as i128) * (b as i128)
}

/// Whether `num / d` lies between `lo` and `hi`, both included.
fn is_between(lo: i64, hi: i64, num: i128, d: i64) -> (r: bool)
    requires
        -0x2_0000_0000 <= lo <= 0x2_0000_0000,
        -0x2_0000_0000 <= hi <= 0x2_0000_0000,
        -0x2_0000_0000 <= d <= 0x2_0000_0000,
    ensures
        r == between(lo as int, hi as int, num as int, d as int),
{
    let low = product(lo, d);
    let high = product(hi, d);
    if d > 0 {
        low <= num && num <= high
    } else {
        high <= num && num <= low
    }
}

impl StoredNode {
    /// The least coordinate of the cube along each axis, in fixed-point units.
    fn corner(&self) -> (r: [i64; 3])
        requires
            -128 <= self.x <= 128,
            -128 <= self.y <= 128,
            -128 <= self.z <= 128,
        ensures
            r[0] == self.low(0),
            r[1] == self.low(1),
            r[2] == self.low(2),
    {
        [(self.x as i64) * 65536, (self.y as i64) * 65536, (self.z as i64) * 65536]
    }

    /// Whether the line meets the plane on which the coordinate of axis
    /// `a` is `p`, inside the cube's bounds along the other two axes.
    fn plane_met(&self, size: u32, near: &Point, far: &Point, a: usize, p: i64) -> (r: bool)
        requires
            -128 <= self.x <= 128,
            -128 <= self.y <= 128,
            -128 <= self.z <= 128,
            1 <= size <= 256,
            a < 3,
            -0x200_0000 <= p <= 0x200_0000,
        ensures
            r == self.meets_plane(size as int, *near, *far, a as int, p as int),
    {
        let d: i64 = far[a] as i64 - near[a] as i64;
        if d == 0 {
            return false;
        }
        let b: usize = if a == 0 { 1 } else { 0 };
        let c: usize = if a == 2 { 1 } else { 2 };
        let low = self.corner();
        let edge: i64 = (size as i64) * 65536;
        let step: i64 = p - near[a] as i64;
        let along_b = product(near[b] as i64, d) + product(step, far[b] as i64 - near[b] as i64);
        let along_c = product(near[c] as i64, d) + product(step, far[c] as i64 - near[c] as i64);
        is_between(low[b], low[b] + edge, along_b, d) && is_between(
            low[c],
            low[c] + edge,
            along_c,
            d,
        )
    }

    /// Whether the line through `near` and `far` meets one of the six
    /// planes that bound the cube, of edge `size`, inside the cube's bounds.
    pub fn intersects_line(&self, size: u32, near: &Point, far: &Point) -> (r: bool)
        requires
            -128 <= self.x <= 128,
            -128 <= self.y <= 128,
            -128 <= self.z <= 128,
            1 <= size <= 256,
        ensures
            r == self.spec_intersects(size as int, *near, *far),
    {
        let low = self.corner();
        let edge: i64 = (size as i64) * 65536;
        self.plane_met(size, near, far, 0, low[0]) || self.plane_met(
            size,
            near,
            far,
            0,
            low[0] + edge,
        ) || self.plane_met(size, near, far, 1, low[1]) || self.plane_met(
            size,
            near,
            far,
            1,
            low[1] + edge,
        ) || self.plane_met(size, near, far, 2, low[2]) || self.plane_met(
            size,
            near,
            far,
            2,
            low[2] + edge,
        )
    }

    /// The squared distance from the point to the corner of the cube at
    /// its index, in fixed-point units.
    pub fn distance_to(&self, point: &Point) -> (r: i128)
        requires
            -128 <= self.x <= 128,
            -128 <= self.y <= 128,
            -128 <= self.z <= 128,
        ensures
            r == self.spec_distance(*point),
            r >= 0,
    {
        let low = self.corner();
        let dx: i64 = point[0] as i64 - low[0];
        let dy: i64 = point[1] as i64 - low[1];
        let dz: i64 = point[2] as i64 - low[2];
        let xx = product(dx, dx);
        let yy = product(dy, dy);
        let zz = product(dz, dz);
        assert(dx * dx >= 0 && dy * dy >= 0 && dz * dz >= 0) by (nonlinear_arith);
        xx + yy + zz
    }
}

} // verus!
