use vstd::prelude::*;
use crate::edits::selects;
use crate::ocnode::spec_range;
use crate::ocnode::Ocnode;
use crate::tree::LEVELS;

verus! {

/// Simple list of supported selection shapes.
#[derive(PartialEq, Eq, Copy, Clone, Debug, Structural)]
pub enum SelectionShape {
    Sphere,
    Cube,
    SquareXZ,
    SquareXY,
    SquareYZ,
    CircleXZ,
    CircleXY,
    CircleYZ,
}

/// The largest radius a selection can have.
pub const MAX_SELECTION_RADIUS: u32 = 128;

/// The smallest radius a selection can have.
pub const MIN_SELECTION_RADIUS: u32 = 1;

/// The square of the distance between two points.
pub open spec fn distance_squared(cx: int, cy: int, cz: int, x: int, y: int, z: int) -> int {
    (cx - x) * (cx - x) + (cy - y) * (cy - y) + (cz - z) * (cz - z)
}

/// The absolute value.
pub open spec fn abs(v: int) -> int {
    if v < 0 {
        -v
    } else {
        v
    }
}

/// The shape lies in a plane at right angles to the axis, through the centre.
pub open spec fn flat_along(shape: SelectionShape, axis: int) -> bool {
    match shape {
        SelectionShape::Sphere => false,
        SelectionShape::Cube => false,
        SelectionShape::SquareXZ => axis == 1,
        SelectionShape::CircleXZ => axis == 1,
        SelectionShape::SquareXY => axis == 2,
        SelectionShape::CircleXY => axis == 2,
        SelectionShape::SquareYZ => axis == 0,
        SelectionShape::CircleYZ => axis == 0,
    }
}

/// The coordinate `v` along an axis is one that the selection looks at:
/// the centre's own where the shape is flat along the axis; else within
/// one more than the radius below the centre and the radius above it,
/// and within twice the range of the tree.
pub open spec fn in_reach(shape: SelectionShape, axis: int, c: int, radius: int, range: int, v: int) -> bool {
    if flat_along(shape, axis) {
        v == c
    } else {
        c - radius - 1 <= v < c + radius + 1 && -range <= v < range
    }
}

/// The point is inside the shape of the given radius around the centre.
pub open spec fn inside(
    shape: SelectionShape,
    center: [i32; 3],
    radius: int,
    x: int,
    y: int,
    z: int,
) -> bool {
    let dx = center[0] - x;
    let dy = center[1] - y;
    let dz = center[2] - z;
    match shape {
        SelectionShape::Sphere => dx * dx + dy * dy + dz * dz < radius * radius,
        SelectionShape::Cube => abs(dx) < radius && abs(dy) < radius && abs(dz) < radius,
        SelectionShape::SquareXZ => abs(dx) < radius && abs(dz) < radius,
        SelectionShape::SquareXY => abs(dx) < radius && abs(dy) < radius,
        SelectionShape::SquareYZ => abs(dy) < radius && abs(dz) < radius,
        SelectionShape::CircleXZ => radius > 0 && dx * dx + dz * dz < radius * radius,
        SelectionShape::CircleXY => radius > 0 && dx * dx + dy * dy < radius * radius,
        SelectionShape::CircleYZ => radius > 0 && dy * dy + dz * dz < radius * radius,
    }
}

/// The voxel is selected: it is in reach along each axis and inside the shape.
pub open spec fn selected(
    shape: SelectionShape,
    center: [i32; 3],
    radius: int,
    range: int,
    x: int,
    y: int,
    z: int,
) -> bool {
    &&& in_reach(shape, 0, center[0] as int, radius, range, x)
    &&& in_reach(shape, 1, center[1] as int, radius, range, y)
    &&& in_reach(shape, 2, center[2] as int, radius, range, z)
    &&& inside(shape, center, radius, x, y, z)
}

/// The voxel comes before the point in the order of x, then y, then z.
pub open spec fn before(v: [i32; 3], x: int, y: int, z: int) -> bool {
    v[0] < x || (v[0] == x && (v[1] < y || (v[1] == y && v[2] < z)))
}

impl SelectionShape {
    /// The shape that follows this one when the shapes are gone through
    /// in turn; after the last comes the first.
    pub open spec fn spec_next(self) -> SelectionShape {
        match self {
            SelectionShape::Sphere => SelectionShape::Cube,
            SelectionShape::Cube => SelectionShape::SquareXZ,
            SelectionShape::SquareXZ => SelectionShape::SquareXY,
            SelectionShape::SquareXY => SelectionShape::SquareYZ,
            SelectionShape::SquareYZ => SelectionShape::CircleXZ,
            SelectionShape::CircleXZ => SelectionShape::CircleXY,
            SelectionShape::CircleXY => SelectionShape::CircleYZ,
            SelectionShape::CircleYZ => SelectionShape::Sphere,
        }
    }

    /// The shape that follows this one.
    pub fn next(self) -> (r: SelectionShape)
        ensures
            r == self.spec_next(),
    {
        match self {
            SelectionShape::Sphere => SelectionShape::Cube,
            SelectionShape::Cube => SelectionShape::SquareXZ,
            SelectionShape::SquareXZ => SelectionShape::SquareXY,
            SelectionShape::SquareXY => SelectionShape::SquareYZ,
            SelectionShape::SquareYZ => SelectionShape::CircleXZ,
            SelectionShape::CircleXZ => SelectionShape::CircleXY,
            SelectionShape::CircleXY => SelectionShape::CircleYZ,
            SelectionShape::CircleYZ => SelectionShape::Sphere,
        }
    }

    /// Whether the shape lies in a plane at right angles to the axis.
    fn is_flat_along(self, axis: usize) -> (r: bool)
        ensures
            r == flat_along(self, axis as int),
    {
        match self {
            SelectionShape::Sphere => false,
            SelectionShape::Cube => false,
            SelectionShape::SquareXZ => axis == 1,
            SelectionShape::CircleXZ => axis == 1,
            SelectionShape::SquareXY => axis == 2,
            SelectionShape::CircleXY => axis == 2,
            SelectionShape::SquareYZ => axis == 0,
            SelectionShape::CircleYZ => axis == 0,
        }
    }

    /// The coordinates along an axis that the selection looks at: from
    /// the first of the pair up to, but not with, the second.
    fn reach(self, axis: usize, c: i32, radius: i32, range: i32) -> (r: (i64, i64))
        requires
            axis < 3,
            0 <= range <= 128,
        ensures
            forall|v: int| r.0 <= v < r.1 <==> in_reach(self, axis as int, c as int, radius as int, range as int, v),
            -0x8000_0000 <= r.0,
            r.1 <= 0x8000_0000,
    {
        if self.is_flat_along(axis) {
            (c as i64, c as i64 + 1)
        } else {
            let low: i64 = c as i64 - radius as i64 - 1;
            let high: i64 = c as i64 + radius as i64 + 1;
            let from: i64 = if low > -(range as i64) { low } else { -(range as i64) };
            let to: i64 = if high < range as i64 { high } else { range as i64 };
            (from, to)
        }
    }

    /// Whether the point is inside the shape of the given radius around
    /// the centre.
    fn holds(self, center: &[i32; 3], radius: i32, x: i32, y: i32, z: i32) -> (r: bool)
        ensures
            r == inside(self, *center, radius as int, x as int, y as int, z as int),
    {
        let dx: i64 = center[0] as i64 - x as i64;
        let dy: i64 = center[1] as i64 - y as i64;
        let dz: i64 = center[2] as i64 - z as i64;
        let r: i64 = radius as i64;
        let xx: i128 = square(dx);
        let yy: i128 = square(dy);
        let zz: i128 = square(dz);
        let rr: i128 = square(r);
        let ax: i64 = if dx < 0 { -dx } else { dx };
        let ay: i64 = if dy < 0 { -dy } else { dy };
        let az: i64 = if dz < 0 { -dz } else { dz };
        match self {
            SelectionShape::Sphere => xx + yy + zz < rr,
            SelectionShape::Cube => ax < r && ay < r && az < r,
            SelectionShape::SquareXZ => ax < r && az < r,
            SelectionShape::SquareXY => ax < r && ay < r,
            SelectionShape::SquareYZ => ay < r && az < r,
            SelectionShape::CircleXZ => r > 0 && xx + zz < rr,
            SelectionShape::CircleXY => r > 0 && xx + yy < rr,
            SelectionShape::CircleYZ => r > 0 && yy + zz < rr,
        }
    }
}

/// The square of a number of at most 34 bits.
fn square(a: i64) -> (r: i128)
    requires
        -0x2_0000_0000 <= a <= 0x2_0000_0000,
    ensures
        r == a * a,
        0 <= r <= 0x4_0000_0000_0000_0000,
{
    assert(0 <= a * a <= 0x4_0000_0000_0000_0000) by (nonlinear_arith)
        requires
            -0x2_0000_0000 <= a <= 0x2_0000_0000,
    ;
    (a as i128) * (a as i128)
}

/// Quicker than distance: no square root.
pub fn calculate_distance_squared(from: &[i32; 3], to: &[i32; 3]) -> (r: i128)
    ensures
        r == distance_squared(
            from[0] as int,
            from[1] as int,
            from[2] as int,
            to[0] as int,
            to[1] as int,
            to[2] as int,
        ),
{
    square(from[0] as i64 - to[0] as i64) + square(from[1] as i64 - to[1] as i64) + square(
        from[2] as i64 - to[2] as i64,
    )
}

/// The radius of the selection after the wheel has turned: one more, but
/// not more than the largest, where `direction` is not zero; else one
/// less, but not less than the smallest.
pub fn scrolled_radius(radius: u32, direction: u32) -> (r: u32)
    ensures
        r == if direction > 0 {
            if radius >= MAX_SELECTION_RADIUS {
                MAX_SELECTION_RADIUS as int
            } else {
                radius + 1
            }
        } else {
            if radius <= MIN_SELECTION_RADIUS {
                MIN_SELECTION_RADIUS as int
            } else {
                radius - 1
            }
        },
{
    if direction > 0 {
        if radius >= MAX_SELECTION_RADIUS {
            MAX_SELECTION_RADIUS
        } else {
            radius + 1
        }
    } else {
        if radius <= MIN_SELECTION_RADIUS {
            MIN_SELECTION_RADIUS
        } else {
            radius - 1
        }
    }
}

/// Generate voxels based on selection: the voxels of a tree of the given
/// depth that are in reach of the centre and inside the shape, each once,
/// in the order of x, then y, then z.
pub fn selection_voxels(center: &[i32; 3], radius: i32, shape: SelectionShape, depth: u32) -> (voxels:
    Vec<[i32; 3]>)
    requires
        1 <= depth <= LEVELS,
    ensures
        forall|i: int|
            0 <= i < voxels@.len() ==> selected(
                shape,
                *center,
                radius as int,
                2 * spec_range(depth),
                (#[trigger] voxels@[i])[0] as int,
                voxels@[i][1] as int,
                voxels@[i][2] as int,
            ),
        forall|x: int, y: int, z: int| #[trigger]
            selected(shape, *center, radius as int, 2 * spec_range(depth), x, y, z) ==> selects(
                voxels@,
                x,
                y,
                z,
            ),
        forall|i: int, j: int|
            0 <= i < j < voxels@.len() ==> before(
                #[trigger] voxels@[i],
                (#[trigger] voxels@[j])[0] as int,
                voxels@[j][1] as int,
                voxels@[j][2] as int,
            ),
{
    let mut voxels: Vec<[i32; 3]> = Vec::new();
    let range: i32 = Ocnode::range(depth) * 2;
    let (x0, x1) = shape.reach(0, center[0], radius, range);
    let (y0, y1) = shape.reach(1, center[1], radius, range);
    let (z0, z1) = shape.reach(2, center[2], radius, range);
    let ghost c = *center;
    let ghost r = radius as int;
    let ghost g = range as int;
    let mut x: i64 = x0;
    while x < x1
        invariant
            x0 <= x,
            -0x8000_0000 <= x0,
            x1 <= 0x8000_0000,
            -0x8000_0000 <= y0,
            y1 <= 0x8000_0000,
            -0x8000_0000 <= z0,
            z1 <= 0x8000_0000,
            c == *center,
            r == radius as int,
            g == 2 * spec_range(depth),
            forall|v: int| x0 <= v < x1 <==> in_reach(shape, 0, c[0] as int, r, g, v),
            forall|v: int| y0 <= v < y1 <==> in_reach(shape, 1, c[1] as int, r, g, v),
            forall|v: int| z0 <= v < z1 <==> in_reach(shape, 2, c[2] as int, r, g, v),
            forall|i: int|
                0 <= i < voxels@.len() ==> selected(
                    shape,
                    c,
                    r,
                    g,
                    (#[trigger] voxels@[i])[0] as int,
                    voxels@[i][1] as int,
                    voxels@[i][2] as int,
                ) && voxels@[i][0] < x,
            forall|a: int, b: int, d: int| #[trigger]
                selected(shape, c, r, g, a, b, d) && a < x ==> selects(voxels@, a, b, d),
            forall|i: int, j: int|
                0 <= i < j < voxels@.len() ==> before(
                    #[trigger] voxels@[i],
                    (#[trigger] voxels@[j])[0] as int,
                    voxels@[j][1] as int,
                    voxels@[j][2] as int,
                ),
        decreases x1 - x,
    {
        let mut y: i64 = y0;
        while y < y1
            invariant
                x0 <= x < x1,
                y0 <= y,
                g == 2 * spec_range(depth),
                -0x8000_0000 <= x0,
                x1 <= 0x8000_0000,
                -0x8000_0000 <= y0,
                y1 <= 0x8000_0000,
                -0x8000_0000 <= z0,
                z1 <= 0x8000_0000,
                c == *center,
                r == radius as int,
                forall|v: int| x0 <= v < x1 <==> in_reach(shape, 0, c[0] as int, r, g, v),
                forall|v: int| y0 <= v < y1 <==> in_reach(shape, 1, c[1] as int, r, g, v),
                forall|v: int| z0 <= v < z1 <==> in_reach(shape, 2, c[2] as int, r, g, v),
                forall|i: int|
                    0 <= i < voxels@.len() ==> selected(
                        shape,
                        c,
                        r,
                        g,
                        (#[trigger] voxels@[i])[0] as int,
                        voxels@[i][1] as int,
                        voxels@[i][2] as int,
                    ) && (voxels@[i][0] < x || (voxels@[i][0] == x && voxels@[i][1] < y)),
                forall|a: int, b: int, d: int| #[trigger]
                    selected(shape, c, r, g, a, b, d) && (a < x || (a == x && b < y)) ==> selects(
                        voxels@,
                        a,
                        b,
                        d,
                    ),
                forall|i: int, j: int|
                    0 <= i < j < voxels@.len() ==> before(
                        #[trigger] voxels@[i],
                        (#[trigger] voxels@[j])[0] as int,
                        voxels@[j][1] as int,
                        voxels@[j][2] as int,
                    ),
            decreases y1 - y,
        {
            let mut z: i64 = z0;
            while z < z1
                invariant
                    x0 <= x < x1,
                    y0 <= y < y1,
                    -0x8000_0000 <= x0,
                    x1 <= 0x8000_0000,
                    -0x8000_0000 <= y0,
                    y1 <= 0x8000_0000,
                    -0x8000_0000 <= z0,
                    z1 <= 0x8000_0000,
                    z0 <= z,
                    g == 2 * spec_range(depth),
                    c == *center,
                    r == radius as int,
                    forall|v: int| x0 <= v < x1 <==> in_reach(shape, 0, c[0] as int, r, g, v),
                    forall|v: int| y0 <= v < y1 <==> in_reach(shape, 1, c[1] as int, r, g, v),
                    forall|v: int| z0 <= v < z1 <==> in_reach(shape, 2, c[2] as int, r, g, v),
                    forall|i: int|
                        0 <= i < voxels@.len() ==> selected(
                            shape,
                            c,
                            r,
                            g,
                            (#[trigger] voxels@[i])[0] as int,
                            voxels@[i][1] as int,
                            voxels@[i][2] as int,
                        ) && before(voxels@[i], x as int, y as int, z as int),
                    forall|a: int, b: int, d: int| #[trigger]
                        selected(shape, c, r, g, a, b, d) && (a < x || (a == x && (b < y || (b == y
                            && d < z)))) ==> selects(voxels@, a, b, d),
                    forall|i: int, j: int|
                        0 <= i < j < voxels@.len() ==> before(
                            #[trigger] voxels@[i],
                            (#[trigger] voxels@[j])[0] as int,
                            voxels@[j][1] as int,
                            voxels@[j][2] as int,
                        ),
                decreases z1 - z,
            {
                let ghost old_voxels = voxels@;
                if shape.holds(center, radius, x as i32, y as i32, z as i32) {
                    voxels.push([x as i32, y as i32, z as i32]);
                    proof {
                        let n = old_voxels.len() as int;
                        assert(voxels@[n][0] == x && voxels@[n][1] == y && voxels@[n][2] == z);
                        assert forall|i: int| 0 <= i < voxels@.len() implies selected(
                            shape,
                            c,
                            r,
                            g,
                            (#[trigger] voxels@[i])[0] as int,
                            voxels@[i][1] as int,
                            voxels@[i][2] as int,
                        ) && before(voxels@[i], x as int, y as int, z + 1) by {
                            if i < n {
                                assert(voxels@[i] == old_voxels[i]);
                            }
                        }
                        assert forall|i: int, j: int| 0 <= i < j < voxels@.len() implies before(
                            #[trigger] voxels@[i],
                            (#[trigger] voxels@[j])[0] as int,
                            voxels@[j][1] as int,
                            voxels@[j][2] as int,
                        ) by {
                            assert(voxels@[i] == old_voxels[i]);
                            if j < n {
                                assert(voxels@[j] == old_voxels[j]);
                            }
                        }
                    }
                }
                proof {
                    assert forall|a: int, b: int, d: int| #[trigger]
                        selected(shape, c, r, g, a, b, d) && (a < x || (a == x && (b < y || (b == y
                            && d < z + 1)))) implies selects(voxels@, a, b, d) by {
                        if a == x && b == y && d == z {
                            let n = old_voxels.len() as int;
                            assert(voxels@[n][0] == a && voxels@[n][1] == b && voxels@[n][2] == d);
                        } else {
                            assert(selects(old_voxels, a, b, d));
                            let w = choose|w: int|
                                0 <= w < old_voxels.len() && (#[trigger] old_voxels[w])[0] == a
                                    && old_voxels[w][1] == b && old_voxels[w][2] == d;
                            assert(voxels@[w] == old_voxels[w]);
                        }
                    }
                }
                z = z + 1;
            }
            y = y + 1;
        }
        x = x + 1;
    }
    voxels
}

} // verus!
