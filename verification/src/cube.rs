use vstd::prelude::*;
use crate::color::Color;
use crate::occlusion::Face;

verus! {

/// Where along one axis a point of a cube's mesh lies.
#[derive(Clone, Copy, Debug, PartialEq, Eq, Structural)]
pub enum Coord {
    /// On the low side of the cube.
    Low,
    /// Moved from the low side towards the middle, to round the cube.
    LowInset,
    /// In the middle of the cube.
    Middle,
    /// Moved from the high side towards the middle, to round the cube.
    HighInset,
    /// On the high side of the cube.
    High,
}

/// A point of a cube's mesh.
#[derive(Clone, Copy, Debug, PartialEq, Eq, Structural)]
pub struct MeshPoint {
    pub x: Coord,
    pub y: Coord,
    pub z: Coord,
}

/// One corner of a triangle of a cube's mesh: the face the triangle
/// belongs to, where the corner is, and the triangle it is a corner of.
/// The normal of the triangle is the cross product of `first - apex` and
/// `second - apex`.
#[derive(Clone, Copy, Debug, PartialEq, Eq, Structural)]
pub struct MeshVertex {
    pub face: Face,
    pub position: MeshPoint,
    pub first: MeshPoint,
    pub second: MeshPoint,
    pub apex: MeshPoint,
}

/// A cube is a drawable item: one active cube of an octree, as the
/// renderer gets it.
#[derive(Copy, Clone, Debug, PartialEq, Eq)]
pub struct Cube {
    pub vertices_count: u16,
    /// The index of the cube: its position in units of the smallest voxel.
    pub translation: [i32; 3],
    pub color: Color,
    /// The edge length of the cube, in units of the smallest voxel.
    pub scale: u32,
    pub fluid: i32,
    pub noise: i32,
    pub bottom_occluded: bool,
    pub left_occluded: bool,
    pub right_occluded: bool,
    pub front_occluded: bool,
    pub back_occluded: bool,
    pub top_occluded: bool,
    pub smooth: bool,
    pub key: u64,
}

/// Draws a number of 64 bits with `rand::random`, from the generator of the
/// thread. Nothing is claimed of the number.
#[verifier::external_body]
fn random_key() -> (key: u64) {
    rand::random::<u64>()
}

/// The cube with its key set to zero.
pub open spec fn unkeyed(c: Cube) -> Cube {
    Cube { key: 0, ..c }
}

/// The cubes with their keys set to zero.
pub open spec fn keyless(cubes: Seq<Cube>) -> Seq<Cube> {
    Seq::new(cubes.len(), |i: int| unkeyed(cubes[i]))
}

/// The colour of a new cube: 0.3, 0.3, 0.1 and alpha 1.
pub const CUBE_COLOR: Color = [0x3e99_999a, 0x3e99_999a, 0x3dcc_cccd, 0x3f80_0000];

/// The order in which the faces of a cube are put into its mesh.
pub open spec fn mesh_face(k: int) -> Face {
    if k == 0 {
        Face::Bottom
    } else if k == 1 {
        Face::Left
    } else if k == 2 {
        Face::Right
    } else if k == 3 {
        Face::Front
    } else if k == 4 {
        Face::Back
    } else {
        Face::Top
    }
}

/// The face is on the high side of its axis.
pub open spec fn high_side(face: Face) -> bool {
    face == Face::Right || face == Face::Top || face == Face::Back
}

/// The four corners of a face in the order of a walk around it: for each,
/// whether it is on the right, up, and at the back.
pub open spec fn face_corner(face: Face, i: int) -> (bool, bool, bool) {
    match face {
        Face::Bottom => (i == 1 || i == 2, false, i == 2 || i == 3),
        Face::Left => (false, i == 2 || i == 3, i == 1 || i == 2),
        Face::Right => (true, i == 1 || i == 2, i == 2 || i == 3),
        Face::Back => (i == 1 || i == 2, i == 2 || i == 3, true),
        Face::Front => (i == 2 || i == 3, i == 1 || i == 2, false),
        Face::Top => (i == 2 || i == 3, true, i == 1 || i == 2),
    }
}

/// The corner of a face at which the triangle `t` of its fan begins; the
/// triangle goes on to the next corner of the walk and ends in the
/// middle of the face.
pub open spec fn fan_start(face: Face, t: int) -> int {
    if face == Face::Left {
        if t == 0 { 0 } else { 4 - t }
    } else {
        t
    }
}

impl Cube {
    /// The flag that tells whether the face is occluded.
    pub open spec fn is_occluded(self, face: Face) -> bool {
        match face {
            Face::Bottom => self.bottom_occluded,
            Face::Top => self.top_occluded,
            Face::Left => self.left_occluded,
            Face::Right => self.right_occluded,
            Face::Front => self.front_occluded,
            Face::Back => self.back_occluded,
        }
    }

    /// How many faces of the cube are occluded.
    pub open spec fn occluded_faces(self) -> int {
        (if self.bottom_occluded { 1int } else { 0int }) + (if self.left_occluded { 1int } else { 0int })
            + (if self.right_occluded { 1int } else { 0int }) + (if self.front_occluded {
            1int
        } else {
            0int
        }) + (if self.back_occluded { 1int } else { 0int }) + (if self.top_occluded {
            1int
        } else {
            0int
        })
    }

    /// A corner of the cube is rounded: the cube is smooth and none of the
    /// three faces that meet in the corner is occluded.
    pub open spec fn corner_rounded(self, right: bool, up: bool, back: bool) -> bool {
        &&& self.smooth
        &&& !self.is_occluded(if right { Face::Right } else { Face::Left })
        &&& !self.is_occluded(if up { Face::Top } else { Face::Bottom })
        &&& !self.is_occluded(if back { Face::Back } else { Face::Front })
    }

    /// The middle of a face is moved: the cube is smooth and no face but
    /// the one on the other side is occluded.
    pub open spec fn middle_moved(self, face: Face) -> bool {
        &&& self.smooth
        &&& forall|k: int| 0 <= k < 6 && mesh_face(k) != face.opposite() ==> !self.is_occluded(
            #[trigger] mesh_face(k),
        )
    }

    /// Where a point on the low or high side lies along an axis.
    pub open spec fn side(high: bool, moved: bool) -> Coord {
        if high {
            if moved { Coord::HighInset } else { Coord::High }
        } else {
            if moved { Coord::LowInset } else { Coord::Low }
        }
    }

    /// The corner of the cube on the sides given.
    pub open spec fn spec_corner(self, right: bool, up: bool, back: bool) -> MeshPoint {
        let moved = self.corner_rounded(right, up, back);
        MeshPoint {
            x: Cube::side(right, moved),
            y: Cube::side(up, moved),
            z: Cube::side(back, moved),
        }
    }

    /// The point in the middle of a face.
    pub open spec fn spec_middle(self, face: Face) -> MeshPoint {
        let on = Cube::side(high_side(face), self.middle_moved(face));
        match face {
            Face::Left => MeshPoint { x: on, y: Coord::Middle, z: Coord::Middle },
            Face::Right => MeshPoint { x: on, y: Coord::Middle, z: Coord::Middle },
            Face::Bottom => MeshPoint { x: Coord::Middle, y: on, z: Coord::Middle },
            Face::Top => MeshPoint { x: Coord::Middle, y: on, z: Coord::Middle },
            Face::Front => MeshPoint { x: Coord::Middle, y: Coord::Middle, z: on },
            Face::Back => MeshPoint { x: Coord::Middle, y: Coord::Middle, z: on },
        }
    }

    /// Corner `i`, counted around the face, of a face of the cube.
    pub open spec fn spec_face_point(self, face: Face, i: int) -> MeshPoint {
        let c = face_corner(face, i % 4);
        self.spec_corner(c.0, c.1, c.2)
    }

    /// The three corners of a triangle.
    pub open spec fn triangle(face: Face, a: MeshPoint, b: MeshPoint, c: MeshPoint) -> Seq<MeshVertex> {
        seq![
            MeshVertex { face, position: a, first: a, second: b, apex: c },
            MeshVertex { face, position: b, first: a, second: b, apex: c },
            MeshVertex { face, position: c, first: a, second: b, apex: c },
        ]
    }

    /// Triangle `t` of a face. A smooth cube has four to a face, a fan
    /// around the middle of the face; a flat cube has two, which divide
    /// the face along a diagonal.
    pub open spec fn spec_triangle(self, face: Face, t: int) -> Seq<MeshVertex> {
        if self.smooth {
            let i = fan_start(face, t);
            Cube::triangle(
                face,
                self.spec_face_point(face, i),
                self.spec_face_point(face, i + 1),
                self.spec_middle(face),
            )
        } else {
            Cube::triangle(
                face,
                self.spec_face_point(face, 2 * t),
                self.spec_face_point(face, 2 * t + 1),
                self.spec_face_point(face, 2 * t + 2),
            )
        }
    }

    /// How many triangles a face of the cube has.
    pub open spec fn triangles(self) -> nat {
        if self.smooth {
            4
        } else {
            2
        }
    }

    /// The first `n` triangles of a face.
    pub open spec fn face_mesh(self, face: Face, n: nat) -> Seq<MeshVertex>
        decreases n,
    {
        if n == 0 {
            Seq::empty()
        } else {
            self.face_mesh(face, (n - 1) as nat) + self.spec_triangle(face, n - 1)
        }
    }

    /// The mesh of the first `n` faces in the order of `mesh_face`: the
    /// triangles of each face that is not occluded.
    pub open spec fn mesh(self, n: nat) -> Seq<MeshVertex>
        decreases n,
    {
        if n == 0 {
            Seq::empty()
        } else {
            let face = mesh_face(n - 1);
            self.mesh((n - 1) as nat) + if self.is_occluded(face) {
                Seq::empty()
            } else {
                self.face_mesh(face, self.triangles())
            }
        }
    }

    /// Create a new default cube.
    pub fn new() -> (r: Cube)
        ensures
            r == (Cube {
                vertices_count: 216,
                translation: [0i32, 0i32, 0i32],
                color: CUBE_COLOR,
                scale: 1,
                fluid: 0,
                noise: 0,
                bottom_occluded: false,
                left_occluded: false,
                right_occluded: false,
                front_occluded: false,
                back_occluded: false,
                top_occluded: false,
                smooth: false,
                key: 0,
            }),
    {
        Cube {
            vertices_count: 216,
            translation: [0, 0, 0],
            color: CUBE_COLOR,
            scale: 1,
            fluid: 0,
            noise: 0,
            bottom_occluded: false,
            left_occluded: false,
            right_occluded: false,
            front_occluded: false,
            back_occluded: false,
            top_occluded: false,
            smooth: false,
            key: 0,
        }
    }

    /// Init a new cube so it is ready to draw: gives it a key drawn at
    /// random. Nothing else changes.
    pub fn init(&mut self)
        ensures
            unkeyed(*final(self)) == unkeyed(*old(self)),
    {
        self.set_key(random_key());
    }

    /// Gives the cube the key. Nothing else changes.
    pub fn set_key(&mut self, key: u64)
        ensures
            *final(self) == (Cube { key, ..*old(self) }),
    {
        self.key = key;
    }

    /// Whether the face is occluded.
    pub fn occluded(&self, face: Face) -> (r: bool)
        ensures
            r == self.is_occluded(face),
    {
        match face {
            Face::Bottom => self.bottom_occluded,
            Face::Top => self.top_occluded,
            Face::Left => self.left_occluded,
            Face::Right => self.right_occluded,
            Face::Front => self.front_occluded,
            Face::Back => self.back_occluded,
        }
    }

    /// A cube always has the same number of vertices minus occlusion: the
    /// count it was given, less 36 for each occluded face.
    pub fn count_vertices(&self) -> (r: u16)
        requires
            self.vertices_count >= 36 * self.occluded_faces(),
        ensures
            r == self.vertices_count - 36 * self.occluded_faces(),
    {
        let mut occluded = self.vertices_count;
        if self.bottom_occluded {
            occluded -= 36;
        }
        if self.left_occluded {
            occluded -= 36;
        }
        if self.right_occluded {
            occluded -= 36;
        }
        if self.front_occluded {
            occluded -= 36;
        }
        if self.back_occluded {
            occluded -= 36;
        }
        if self.top_occluded {
            occluded -= 36;
        }
        occluded
    }

    /// The key under which the vertices of the cube can be cached.
    pub fn key(&self) -> (r: u64)
        ensures
            r == self.key,
    {
        self.key
    }

    /// Where the cube is.
    pub fn translation(&self) -> (r: &[i32; 3])
        ensures
            *r == self.translation,
    {
        &self.translation
    }

    /// Cubes have a colour, alpha included.
    pub fn color(&self) -> (r: &Color)
        ensures
            *r == self.color,
    {
        &self.color
    }

    /// The fluid tag of the cube.
    pub fn fluid(&self) -> (r: i32)
        ensures
            r == self.fluid,
    {
        self.fluid
    }

    /// The noise tag of the cube.
    pub fn noise(&self) -> (r: i32)
        ensures
            r == self.noise,
    {
        self.noise
    }

    /// Move a cube.
    pub fn translate(&mut self, amount: [i32; 3])
        requires
            i32::MIN <= old(self).translation[0] + amount[0] <= i32::MAX,
            i32::MIN <= old(self).translation[1] + amount[1] <= i32::MAX,
            i32::MIN <= old(self).translation[2] + amount[2] <= i32::MAX,
        ensures
            final(self).translation[0] == old(self).translation[0] + amount[0],
            final(self).translation[1] == old(self).translation[1] + amount[1],
            final(self).translation[2] == old(self).translation[2] + amount[2],
            *final(self) == (Cube { translation: final(self).translation, ..*old(self) }),
    {
        let moved: [i32; 3] = [
            self.translation[0] + amount[0],
            self.translation[1] + amount[1],
            self.translation[2] + amount[2],
        ];
        self.translation = moved;
    }

    /// Where a point on the low or high side lies along an axis.
    fn on_side(high: bool, moved: bool) -> (r: Coord)
        ensures
            r == Cube::side(high, moved),
    {
        if high {
            if moved { Coord::HighInset } else { Coord::High }
        } else {
            if moved { Coord::LowInset } else { Coord::Low }
        }
    }

    /// The corner of the cube on the sides given.
    pub fn corner(&self, right: bool, up: bool, back: bool) -> (r: MeshPoint)
        ensures
            r == self.spec_corner(right, up, back),
    {
        let moved = self.smooth && !self.occluded(if right { Face::Right } else { Face::Left })
            && !self.occluded(if up { Face::Top } else { Face::Bottom }) && !self.occluded(
            if back { Face::Back } else { Face::Front },
        );
        MeshPoint {
            x: Cube::on_side(right, moved),
            y: Cube::on_side(up, moved),
            z: Cube::on_side(back, moved),
        }
    }

    /// The point in the middle of a face.
    pub fn middle(&self, face: Face) -> (r: MeshPoint)
        ensures
            r == self.spec_middle(face),
    {
        let clear = match face {
            Face::Left => !self.left_occluded && !self.front_occluded && !self.back_occluded
                && !self.bottom_occluded && !self.top_occluded,
            Face::Right => !self.right_occluded && !self.front_occluded && !self.back_occluded
                && !self.bottom_occluded && !self.top_occluded,
            Face::Bottom => !self.bottom_occluded && !self.front_occluded && !self.back_occluded
                && !self.left_occluded && !self.right_occluded,
            Face::Top => !self.top_occluded && !self.front_occluded && !self.back_occluded
                && !self.left_occluded && !self.right_occluded,
            Face::Front => !self.front_occluded && !self.bottom_occluded && !self.top_occluded
                && !self.left_occluded && !self.right_occluded,
            Face::Back => !self.back_occluded && !self.bottom_occluded && !self.top_occluded
                && !self.left_occluded && !self.right_occluded,
        };
        let moved = self.smooth && clear;
        proof {
            assert(mesh_face(0) == Face::Bottom && mesh_face(1) == Face::Left && mesh_face(2)
                == Face::Right && mesh_face(3) == Face::Front && mesh_face(4) == Face::Back
                && mesh_face(5) == Face::Top);
        }
        let high = match face {
            Face::Right => true,
            Face::Top => true,
            Face::Back => true,
            _ => false,
        };
        let on = Cube::on_side(high, moved);
        match face {
            Face::Left => MeshPoint { x: on, y: Coord::Middle, z: Coord::Middle },
            Face::Right => MeshPoint { x: on, y: Coord::Middle, z: Coord::Middle },
            Face::Bottom => MeshPoint { x: Coord::Middle, y: on, z: Coord::Middle },
            Face::Top => MeshPoint { x: Coord::Middle, y: on, z: Coord::Middle },
            Face::Front => MeshPoint { x: Coord::Middle, y: Coord::Middle, z: on },
            Face::Back => MeshPoint { x: Coord::Middle, y: Coord::Middle, z: on },
        }
    }

    /// Corner `i`, counted around the face, of a face of the cube.
    fn face_point(&self, face: Face, i: usize) -> (r: MeshPoint)
        requires
            i <= 8,
        ensures
            r == self.spec_face_point(face, i as int),
    {
        let j: usize = i % 4;
        let a = j == 1 || j == 2;
        let b = j == 2 || j == 3;
        match face {
            Face::Bottom => self.corner(a, false, b),
            Face::Left => self.corner(false, b, a),
            Face::Right => self.corner(true, a, b),
            Face::Back => self.corner(a, b, true),
            Face::Front => self.corner(b, a, false),
            Face::Top => self.corner(b, true, a),
        }
    }

    /// Adds the three corners of a triangle to `out`.
    fn push_triangle(face: Face, a: MeshPoint, b: MeshPoint, c: MeshPoint, out: &mut Vec<MeshVertex>)
        ensures
            final(out)@ == old(out)@ + Cube::triangle(face, a, b, c),
    {
        out.push(MeshVertex { face, position: a, first: a, second: b, apex: c });
        out.push(MeshVertex { face, position: b, first: a, second: b, apex: c });
        out.push(MeshVertex { face, position: c, first: a, second: b, apex: c });
        proof {
            assert(out@ =~= old(out)@ + Cube::triangle(face, a, b, c));
        }
    }

    /// Adds the triangles of a face to `out`.
    fn push_face(&self, face: Face, out: &mut Vec<MeshVertex>)
        ensures
            final(out)@ == old(out)@ + self.face_mesh(face, self.triangles()),
    {
        let count: usize = if self.smooth { 4 } else { 2 };
        let mut t: usize = 0;
        proof {
            assert(out@ =~= old(out)@ + self.face_mesh(face, 0));
        }
        while t < count
            invariant
                t <= count,
                count == self.triangles(),
                out@ == old(out)@ + self.face_mesh(face, t as nat),
            decreases count - t,
        {
            if self.smooth {
                let i: usize = match face {
                    Face::Left => if t == 0 { 0 } else { 4 - t },
                    _ => t,
                };
                let a = self.face_point(face, i);
                let b = self.face_point(face, i + 1);
                let c = self.middle(face);
                Cube::push_triangle(face, a, b, c, out);
            } else {
                let a = self.face_point(face, 2 * t);
                let b = self.face_point(face, 2 * t + 1);
                let c = self.face_point(face, 2 * t + 2);
                Cube::push_triangle(face, a, b, c, out);
            }
            t = t + 1;
            proof {
                assert(out@ =~= old(out)@ + self.face_mesh(face, t as nat));
            }
        }
    }

    /// Get the mesh of the cube: for each face that is not occluded, in
    /// the order bottom, left, right, front, back, top, the corners of its
    /// triangles. An occluded face adds nothing.
    pub fn vertices(&self) -> (out: Vec<MeshVertex>)
        ensures
            out@ == self.mesh(6),
            out@.len() == if self.smooth {
                12 * (6 - self.occluded_faces())
            } else {
                6 * (6 - self.occluded_faces())
            },
            forall|i: int| 0 <= i < out@.len() ==> !self.is_occluded((#[trigger] out@[i]).face),
    {
        let mut out: Vec<MeshVertex> = Vec::new();
        let mut k: usize = 0;
        proof {
            assert(out@ =~= self.mesh(0));
        }
        while k < 6
            invariant
                k <= 6,
                out@ == self.mesh(k as nat),
            decreases 6 - k,
        {
            let face = if k == 0 {
                Face::Bottom
            } else if k == 1 {
                Face::Left
            } else if k == 2 {
                Face::Right
            } else if k == 3 {
                Face::Front
            } else if k == 4 {
                Face::Back
            } else {
                Face::Top
            };
            if !self.occluded(face) {
                self.push_face(face, &mut out);
            } else {
                proof {
                    assert(out@ =~= self.mesh(k as nat) + Seq::<MeshVertex>::empty());
                }
            }
            k = k + 1;
        }
        proof {
            self.lemma_mesh(6);
        }
        out
    }

    /// Every triangle of a face of the mesh belongs to that face, and a
    /// face has three corners for each of its triangles.
    pub proof fn lemma_face_mesh(self, face: Face, n: nat)
        ensures
            self.face_mesh(face, n).len() == 3 * n,
            forall|i: int|
                0 <= i < self.face_mesh(face, n).len() ==> (#[trigger] self.face_mesh(face, n)[i]).face
                    == face,
        decreases n,
    {
        if n > 0 {
            self.lemma_face_mesh(face, (n - 1) as nat);
        }
    }

    /// How many of the first `n` faces, in the order of the mesh, are occluded.
    pub open spec fn occluded_among(self, n: nat) -> int
        decreases n,
    {
        if n == 0 {
            0
        } else {
            self.occluded_among((n - 1) as nat) + if self.is_occluded(mesh_face(n - 1)) {
                1int
            } else {
                0int
            }
        }
    }

    /// The mesh holds no corner of an occluded face, and three corners
    /// for each triangle of every other face.
    pub proof fn lemma_mesh(self, n: nat)
        requires
            n <= 6,
        ensures
            self.mesh(n).len() == if self.smooth {
                12 * (n - self.occluded_among(n))
            } else {
                6 * (n - self.occluded_among(n))
            },
            forall|i: int|
                0 <= i < self.mesh(n).len() ==> !self.is_occluded((#[trigger] self.mesh(n)[i]).face),
            n == 6 ==> self.occluded_among(n) == self.occluded_faces(),
        decreases n,
    {
        if n > 0 {
            let face = mesh_face(n - 1);
            let before = self.mesh((n - 1) as nat);
            let added = self.face_mesh(face, self.triangles());
            self.lemma_mesh((n - 1) as nat);
            self.lemma_face_mesh(face, self.triangles());
            if self.smooth {
                assert(self.triangles() == 4);
            } else {
                assert(self.triangles() == 2);
            }
            if !self.is_occluded(face) {
                assert forall|i: int| 0 <= i < self.mesh(n).len() implies !self.is_occluded(
                    (#[trigger] self.mesh(n)[i]).face,
                ) by {
                    if i < before.len() {
                        assert(self.mesh(n)[i] == before[i]);
                    } else {
                        assert(self.mesh(n)[i] == added[i - before.len()]);
                    }
                }
            } else {
                assert(self.mesh(n) =~= before);
            }
        }
        if n == 6 {
            self.lemma_occluded_among();
        }
    }

    /// Counted face by face, the occluded faces are as many as counted at once.
    proof fn lemma_occluded_among(self)
        ensures
            self.occluded_among(6) == self.occluded_faces(),
    {
        reveal_with_fuel(Cube::occluded_among, 7);
    }
}

} // verus!
