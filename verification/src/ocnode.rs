use vstd::prelude::*;
use crate::color::Color;
use crate::cube::keyless;
use crate::cube::Cube;
use crate::drawables::cube_of;
use crate::edits::painted;
use crate::occlusion::step;
use crate::paint::extends;
use crate::paint::lemma_extends_within;
use crate::paint::paint_face;
use crate::paint::within;
use crate::paint::Place;
use crate::picking::first_nearest;
use crate::picking::hit;
use crate::picking::picked;
use crate::occlusion::Face;
use crate::point::Point;
use crate::point::UNIT;
use crate::stored_octree::StoredNode;
use crate::tree::lemma_pow2_bounds;
use crate::tree::pow2;
use crate::tree::slot;
use crate::tree::Tree;
use crate::tree::LEVELS;

verus! {

/// A single cube of the octree. A cube is a leaf, or holds the eight
/// smaller cubes that fill it.
pub struct Ocnode {
    /// The x index of the cube.
    x_index: i32,
    /// The y index of the cube.
    y_index: i32,
    /// The z index of the cube.
    z_index: i32,
    /// How many levels down from the top this cube is; the top is 1.
    sub_division_level: u32,
    /// The level of the smallest cubes of the tree this cube belongs to.
    depth: u32,
    /// Is this cube filled?
    active: bool,
    /// The smaller cubes inside this one: none, or eight.
    children: Vec<Ocnode>,
    /// The colour of the cube, alpha included.
    color: Color,
    /// Render this cube with fluid animation.
    fluid: i32,
    /// Render this cube with a noisy texture.
    noise: i32,
    front_occluded_calculated: bool,
    back_occluded_calculated: bool,
    top_occluded_calculated: bool,
    bottom_occluded_calculated: bool,
    left_occluded_calculated: bool,
    right_occluded_calculated: bool,
}

/// The colour of a cube that nothing has painted: 0.8 in every channel.
pub const DEFAULT_COLOR: Color = [0x3f4c_cccd, 0x3f4c_cccd, 0x3f4c_cccd, 0x3f4c_cccd];

/// Half the edge length of the whole of a tree of the given depth: its
/// cubes have indices from `-range` up.
pub open spec fn spec_range(depth: u32) -> int {
    pow2((depth - 1) as nat) / 2
}

/// What the top cube of a new tree holds.
pub open spec fn new_node() -> StoredNode {
    StoredNode {
        x: 0,
        y: 0,
        z: 0,
        level: 1,
        active: false,
        color: DEFAULT_COLOR,
        fluid: 0,
        noise: 0,
        front_occluded: false,
        back_occluded: false,
        top_occluded: false,
        bottom_occluded: false,
        left_occluded: false,
        right_occluded: false,
    }
}

/// Two to the power `n`.
fn power_of_two(n: u32) -> (r: u32)
    requires
        n <= 8,
    ensures
        r == pow2(n as nat),
        1 <= r <= 256,
{
    let mut r: u32 = 1;
    let mut i: u32 = 0;
    while i < n
        invariant
            i <= n <= 8,
            r == pow2(i as nat),
            1 <= r <= 256,
        decreases n - i,
    {
        proof {
            reveal_with_fuel(pow2, 10);
        }
        r = r * 2;
        i = i + 1;
    }
    r
}

/// The place among eight children of the one in the upper half along the
/// axes given.
fn slot_index(dx: bool, dy: bool, dz: bool) -> (k: usize)
    ensures
        k == slot(dx, dy, dz),
        k < 8,
{
    if dx {
        if dy {
            if dz { 7 } else { 4 }
        } else {
            if dz { 6 } else { 1 }
        }
    } else {
        if dy {
            if dz { 5 } else { 2 }
        } else {
            if dz { 3 } else { 0 }
        }
    }
}

impl View for Ocnode {
    type V = Tree;

    closed spec fn view(&self) -> Tree {
        self.model()
    }
}

impl Ocnode {
    /// What the cube and all below it are, apart from how they are held.
    closed spec fn model(&self) -> Tree
        decreases self,
    {
        Tree {
            node: StoredNode {
                x: self.x_index,
                y: self.y_index,
                z: self.z_index,
                level: self.sub_division_level,
                active: self.active,
                color: self.color,
                fluid: self.fluid,
                noise: self.noise,
                front_occluded: self.front_occluded_calculated,
                back_occluded: self.back_occluded_calculated,
                top_occluded: self.top_occluded_calculated,
                bottom_occluded: self.bottom_occluded_calculated,
                left_occluded: self.left_occluded_calculated,
                right_occluded: self.right_occluded_calculated,
            },
            depth: self.depth,
            children: Seq::new(
                self.children@.len(),
                |k: int|
                    if 0 <= k < self.children@.len() {
                        self.children@[k].model()
                    } else {
                        arbitrary()
                    },
            ),
        }
    }

    /// The cube and all below it are well formed.
    pub open spec fn wf(&self) -> bool {
        self@.wf()
    }

    /// Create a new empty cube: a tree of one level, which holds the single
    /// voxel at the origin.
    pub fn new() -> (r: Ocnode)
        ensures
            r.wf(),
            r@.complete(),
            r@ == (Tree { node: new_node(), depth: 1, children: Seq::empty() }),
    {
        let r = Ocnode {
            x_index: 0,
            y_index: 0,
            z_index: 0,
            sub_division_level: 1,
            depth: 1,
            active: false,
            children: Vec::new(),
            color: DEFAULT_COLOR,
            fluid: 0,
            noise: 0,
            front_occluded_calculated: false,
            back_occluded_calculated: false,
            top_occluded_calculated: false,
            bottom_occluded_calculated: false,
            left_occluded_calculated: false,
            right_occluded_calculated: false,
        };
        assert(r@.children =~= Seq::empty());
        r
    }

    /// What the cube holds, in stored form.
    pub fn record(&self) -> (r: StoredNode)
        ensures
            r == self@.node,
    {
        StoredNode {
            x: self.x_index,
            y: self.y_index,
            z: self.z_index,
            level: self.sub_division_level,
            active: self.active,
            color: self.color,
            fluid: self.fluid,
            noise: self.noise,
            front_occluded: self.front_occluded_calculated,
            back_occluded: self.back_occluded_calculated,
            top_occluded: self.top_occluded_calculated,
            bottom_occluded: self.bottom_occluded_calculated,
            left_occluded: self.left_occluded_calculated,
            right_occluded: self.right_occluded_calculated,
        }
    }

    /// Does this cube contain smaller ones?
    pub fn has_children(&self) -> (r: bool)
        ensures
            r == (self@.children.len() != 0),
    {
        self.children.len() != 0
    }

    /// The level of the smallest cubes of the tree this cube belongs to.
    pub fn depth(&self) -> (r: u32)
        ensures
            r == self@.depth,
    {
        self.depth
    }

    /// Return the coordinate range of a tree of the given depth. The
    /// indices of its cubes start at `-range`.
    pub fn range(depth: u32) -> (r: i32)
        requires
            1 <= depth <= LEVELS,
        ensures
            r == spec_range(depth),
            0 <= r <= 64,
    {
        let full: u32 = power_of_two(depth - 1);
        proof {
            lemma_pow2_bounds((depth - 1) as nat);
        }
        (full / 2) as i32
    }

    /// Calculate the width of a cube at this subdivision level, in units of
    /// the smallest cube of the tree.
    pub fn resolution(&self, sub_division_level: u32) -> (r: u32)
        requires
            self.wf(),
            sub_division_level <= self@.depth,
        ensures
            r == pow2((self@.depth - sub_division_level) as nat),
            1 <= r <= 256,
    {
        power_of_two(self.depth - sub_division_level)
    }

    /// Find the cube with the given index at the given level, in this cube
    /// and all below it. The cube found is the one the tree holds at that
    /// place, with all that is below it.
    pub fn find_by_index(&self, x: i32, y: i32, z: i32, level: u32) -> (r: Option<&Ocnode>)
        requires
            self.wf(),
        ensures
            match r {
                Some(n) => n.wf() && n@.depth == self@.depth && self@.node_at(
                    x as int,
                    y as int,
                    z as int,
                    level as int,
                ) == Some(n@.node) && self@.tree_at(x as int, y as int, z as int, level as int)
                    == Some(n@),
                None => self@.node_at(x as int, y as int, z as int, level as int).is_none()
                    && self@.tree_at(x as int, y as int, z as int, level as int).is_none(),
            },
        decreases self,
    {
        proof {
            self@.lemma_tree_at_node(x as int, y as int, z as int, level as int);
        }
        if level == self.sub_division_level {
            if self.x_index == x && self.y_index == y && self.z_index == z {
                Some(self)
            } else {
                None
            }
        } else if self.sub_division_level < level && self.children.len() == 8 {
            let size: i32 = self.resolution(self.sub_division_level) as i32;
            proof {
                lemma_pow2_bounds((self.depth - self.sub_division_level) as nat);
            }
            if self.x_index <= x && x < self.x_index + size && self.y_index <= y && y
                < self.y_index + size && self.z_index <= z && z < self.z_index + size {
                let half: i32 = size / 2;
                let k = slot_index(
                    x >= self.x_index + half,
                    y >= self.y_index + half,
                    z >= self.z_index + half,
                );
                assert(self@.children[k as int].wf() && self@.child_placed(k as int));
                self.children[k].find_by_index(x, y, z, level)
            } else {
                None
            }
        } else {
            None
        }
    }
    /// The model of a cube holds the models of its children, in order.
    proof fn lemma_view_children(&self)
        ensures
            self@.children.len() == self.children@.len(),
            forall|j: int|
                0 <= j < self.children@.len() ==> #[trigger] self@.children[j]
                    == self.children@[j]@,
            self@.depth == self.depth,
            self@.node.level == self.sub_division_level,
            self@.node.x == self.x_index,
            self@.node.y == self.y_index,
            self@.node.z == self.z_index,
    {
    }

    /// The cube that a subdivision puts at place `k` below this one.
    fn child(&self, k: usize) -> (c: Ocnode)
        requires
            self.wf(),
            self@.node.level < self@.depth,
            k < 8,
        ensures
            c@ == Tree::leaf(self@.child_node(k as int), self@.depth),
            c.wf(),
    {
        proof {
            lemma_pow2_bounds((self.depth - self.sub_division_level) as nat);
            lemma_pow2_bounds((self.depth - self.sub_division_level - 1) as nat);
        }
        let half: i32 = self.resolution(self.sub_division_level + 1) as i32;
        let dx: i32 = if k == 1 || k == 4 || k == 6 || k == 7 { half } else { 0 };
        let dy: i32 = if k == 2 || k == 4 || k == 5 || k == 7 { half } else { 0 };
        let dz: i32 = if k == 3 || k == 5 || k == 6 || k == 7 { half } else { 0 };
        let c = Ocnode {
            x_index: self.x_index + dx,
            y_index: self.y_index + dy,
            z_index: self.z_index + dz,
            sub_division_level: self.sub_division_level + 1,
            depth: self.depth,
            active: false,
            children: Vec::new(),
            color: self.color,
            fluid: self.fluid,
            noise: self.noise,
            front_occluded_calculated: false,
            back_occluded_calculated: false,
            top_occluded_calculated: false,
            bottom_occluded_calculated: false,
            left_occluded_calculated: false,
            right_occluded_calculated: false,
        };
        proof {
            assert(c@.children =~= Seq::empty());
            Tree::leaf(self@.node, self@.depth).lemma_child_fits(k as int);
        }
        c
    }

    /// Used by the decimate function to create smaller cubes: puts eight
    /// new leaves below this cube, in place of what was there.
    pub fn subdivide(&mut self)
        requires
            old(self).wf(),
            old(self)@.node.level < old(self)@.depth,
        ensures
            final(self)@ == old(self)@.subdivided(),
            final(self).wf(),
    {
        let mut made: Vec<Ocnode> = Vec::new();
        let mut k: usize = 0;
        while k < 8
            invariant
                k <= 8,
                made@.len() == k,
                self.wf(),
                self@.node.level < self@.depth,
                *self == *old(self),
                forall|j: int|
                    0 <= j < k ==> (#[trigger] made@[j])@ == Tree::leaf(
                        self@.child_node(j),
                        self@.depth,
                    ),
            decreases 8 - k,
        {
            let c = self.child(k);
            made.push(c);
            k = k + 1;
        }
        self.children = made;
        proof {
            assert(self@.children =~= old(self)@.subdivided().children);
            let t = self@;
            assert forall|j: int| 0 <= j < t.children.len() implies (#[trigger] t.children[j]).wf()
                && t.child_placed(j) by {
                Tree::leaf(t.node, t.depth).lemma_child_fits(j);
            }
        }
    }

    /// Builds every level below this cube, down to the smallest cubes, in
    /// place of what was there.
    fn build_below(&mut self)
        requires
            old(self).wf(),
        ensures
            final(self)@ == Tree::dense(old(self)@.node, old(self)@.depth),
            final(self).wf(),
        decreases old(self)@.depth - old(self)@.node.level,
    {
        proof {
            Tree::lemma_dense_wf(self@.node, self@.depth);
        }
        if self.sub_division_level < self.depth {
            self.subdivide();
            let ghost top = self@;
            proof {
                self.lemma_view_children();
                assert forall|j: int| 0 <= j < 8 implies (#[trigger] self.children@[j])@
                    == Tree::leaf(top.child_node(j), top.depth) by {
                    assert(self@.children[j] == self.children@[j]@);
                }
            }
            let mut k: usize = 0;
            while k < 8
                invariant
                    k <= 8,
                    self.children@.len() == 8,
                    self@.node == top.node,
                    self@.depth == top.depth,
                    top == old(self)@.subdivided(),
                    old(self).wf(),
                    old(self)@.node.level < old(self)@.depth,
                    forall|j: int|
                        0 <= j < k ==> (#[trigger] self.children@[j])@ == Tree::dense(
                            top.child_node(j),
                            top.depth,
                        ),
                    forall|j: int|
                        k <= j < 8 ==> (#[trigger] self.children@[j])@ == Tree::leaf(
                            top.child_node(j),
                            top.depth,
                        ),
                decreases 8 - k,
            {
                proof {
                    Tree::leaf(top.node, top.depth).lemma_child_fits(k as int);
                }
                self.children[k].build_below();
                k = k + 1;
            }
            proof {
                assert(self@.children =~= Tree::dense(old(self)@.node, old(self)@.depth).children);
            }
        } else {
            self.children = Vec::new();
            proof {
                assert(self@.children =~= Seq::empty());
            }
        }
    }

    /// Create smaller children cubes from this outer cube: makes of this
    /// top cube a complete tree with the given number of levels, whose
    /// cubes below the top are newly made.
    pub fn decimate(&mut self, sub_division_level: u32)
        requires
            old(self).wf(),
            old(self)@.node.level == 1,
            1 <= sub_division_level <= LEVELS,
        ensures
            final(self)@ == Tree::dense(
                Self::spec_top(old(self)@.node, sub_division_level),
                sub_division_level,
            ),
            final(self).wf(),
            final(self)@.complete(),
            !old(self)@.node.active ==> final(self)@.records(false) == Seq::<StoredNode>::empty(),
    {
        proof {
            if !old(self)@.node.active {
                Tree::lemma_dense_records(
                    Self::spec_top(old(self)@.node, sub_division_level),
                    sub_division_level,
                    false,
                );
            }
        }
        let r: i32 = Self::range(sub_division_level);
        self.depth = sub_division_level;
        self.x_index = -r;
        self.y_index = -r;
        self.z_index = -r;
        self.children = Vec::new();
        proof {
            assert(self@.children =~= Seq::empty());
            lemma_pow2_bounds((sub_division_level - 1) as nat);
            Tree::lemma_dense_wf(self@.node, self@.depth);
        }
        self.build_below();
    }

    /// The top node of a tree of the given depth that holds what `node` holds.
    pub open spec fn spec_top(node: StoredNode, depth: u32) -> StoredNode {
        StoredNode {
            x: (-spec_range(depth)) as i32,
            y: (-spec_range(depth)) as i32,
            z: (-spec_range(depth)) as i32,
            ..node
        }
    }
    /// Used when restoring from serial form: gives the cube at the place of
    /// `node` what `node` holds. Tells whether there is such a cube.
    pub fn apply(&mut self, node: &StoredNode) -> (found: bool)
        requires
            old(self).wf(),
        ensures
            final(self)@ == old(self)@.applied(*node),
            final(self).wf(),
            found == old(self)@.node_at(
                node.x as int,
                node.y as int,
                node.z as int,
                node.level as int,
            ).is_some(),
        decreases *old(self),
    {
        proof {
            old(self)@.lemma_applied_shape(*node);
        }
        if node.level == self.sub_division_level {
            if self.x_index == node.x && self.y_index == node.y && self.z_index == node.z {
                self.overwrite(node);
                true
            } else {
                false
            }
        } else if self.sub_division_level < node.level && self.children.len() == 8 {
            match self.slot_for(node.x, node.y, node.z) {
                Some(k) => {
                    let found = self.children[k].apply(node);
                    proof {
                        assert(self@.children =~= old(self)@.applied(*node).children);
                    }
                    found
                },
                None => false,
            }
        } else {
            false
        }
    }

    /// Gives this cube what `node`, a node at its place, holds.
    fn overwrite(&mut self, node: &StoredNode)
        requires
            node.at(
                old(self)@.node.x as int,
                old(self)@.node.y as int,
                old(self)@.node.z as int,
                old(self)@.node.level as int,
            ),
        ensures
            final(self)@ == (Tree { node: *node, ..old(self)@ }),
    {
        self.active = node.active;
        self.color = node.color;
        self.fluid = node.fluid;
        self.noise = node.noise;
        self.back_occluded_calculated = node.back_occluded;
        self.front_occluded_calculated = node.front_occluded;
        self.top_occluded_calculated = node.top_occluded;
        self.bottom_occluded_calculated = node.bottom_occluded;
        self.left_occluded_calculated = node.left_occluded;
        self.right_occluded_calculated = node.right_occluded;
        proof {
            assert(self@.children =~= old(self)@.children);
        }
    }

    /// The place of the child whose cube holds the point, if this cube
    /// holds it.
    fn slot_for(&self, x: i32, y: i32, z: i32) -> (r: Option<usize>)
        requires
            self.wf(),
            self.children@.len() == 8,
        ensures
            match r {
                Some(k) => self@.covers(x as int, y as int, z as int) && k == self@.slot_of(
                    x as int,
                    y as int,
                    z as int,
                ) && k < 8 && self.children@[k as int].wf() && self.children@[k as int]@
                    == self@.children[k as int],
                None => !self@.covers(x as int, y as int, z as int),
            },
    {
        let size: i32 = self.resolution(self.sub_division_level) as i32;
        proof {
            lemma_pow2_bounds((self.depth - self.sub_division_level) as nat);
        }
        if self.x_index <= x && x < self.x_index + size && self.y_index <= y && y < self.y_index
            + size && self.z_index <= z && z < self.z_index + size {
            let half: i32 = size / 2;
            let k = slot_index(
                x >= self.x_index + half,
                y >= self.y_index + half,
                z >= self.z_index + half,
            );
            assert(self@.children[k as int].wf() && self@.child_placed(k as int));
            Some(k)
        } else {
            None
        }
    }

    /// Set this cube and all its children to hidden.
    pub fn clear(&mut self)
        requires
            old(self).wf(),
        ensures
            final(self)@ == old(self)@.cleared(),
            final(self).wf(),
            final(self)@.records(false) == Seq::<StoredNode>::empty(),
        decreases *old(self),
    {
        proof {
            old(self)@.lemma_cleared_shape();
            old(self)@.lemma_cleared_records(false);
            self.lemma_view_children();
        }
        self.active = false;
        let n: usize = self.children.len();
        let mut i: usize = 0;
        while i < n
            invariant
                i <= n,
                self.children@.len() == n,
                old(self).children@.len() == n,
                old(self).wf(),
                self@.node == (StoredNode { active: false, ..old(self)@.node }),
                self@.depth == old(self)@.depth,
                forall|j: int| i <= j < n ==> self.children@[j] == old(self).children@[j],
                forall|j: int|
                    0 <= j < i ==> (#[trigger] self.children@[j])@ == old(
                        self,
                    ).children@[j]@.cleared(),
            decreases n - i,
        {
            proof {
                old(self).lemma_view_children();
                assert(old(self)@.children[i as int].wf());
            }
            self.children[i].clear();
            i = i + 1;
        }
        proof {
            old(self).lemma_view_children();
            assert(self@.children =~= old(self)@.cleared().children);
        }
    }

    /// Adds to `found` the active cubes among this one and all below it;
    /// with `leaves_only`, the active leaves.
    fn collect(&self, leaves_only: bool, found: &mut Vec<StoredNode>)
        requires
            self.wf(),
        ensures
            final(found)@ == old(found)@ + self@.records(leaves_only),
        decreases self,
    {
        let n: usize = self.children.len();
        if self.active && (!leaves_only || n == 0) {
            found.push(self.record());
        }
        let ghost head = found@;
        let mut i: usize = 0;
        while i < n
            invariant
                i <= n,
                self.children@.len() == n,
                self.wf(),
                found@ == head + Tree::records_of(self@.children, i as nat, leaves_only),
            decreases n - i,
        {
            proof {
                self.lemma_view_children();
                assert(self@.children[i as int].wf());
            }
            self.children[i].collect(leaves_only, found);
            i = i + 1;
            proof {
                assert(found@ =~= head + Tree::records_of(self@.children, i as nat, leaves_only));
            }
        }
        proof {
            assert(found@ =~= old(found)@ + self@.records(leaves_only));
        }
    }

    /// Get the list of active cubes including this one and all its children.
    pub fn active_nodes(&self) -> (found: Vec<StoredNode>)
        requires
            self.wf(),
        ensures
            found@ == self@.records(false),
    {
        let mut found: Vec<StoredNode> = Vec::new();
        self.collect(false, &mut found);
        found
    }

    /// Get the list of active leaves among this cube and all its children.
    pub fn active_leaves(&self) -> (found: Vec<StoredNode>)
        requires
            self.wf(),
        ensures
            found@ == self@.records(true),
    {
        let mut found: Vec<StoredNode> = Vec::new();
        self.collect(true, &mut found);
        found
    }
    /// Whether this cube is far from the eye: its distance, divided by the
    /// number of levels below it, is more than `threshold` voxel edges.
    fn is_far(&self, eye: &Point, threshold: u32) -> (r: bool)
        requires
            self.wf(),
        ensures
            r == self@.far(*eye, threshold),
    {
        proof {
            lemma_pow2_bounds((self.depth - self.sub_division_level) as nat);
        }
        let size: i64 = self.resolution(self.sub_division_level) as i64;
        let unit: i64 = UNIT as i64;
        let dx: i128 = ((2 * (self.x_index as i64) + size) * unit - 2 * (eye[0] as i64)) as i128;
        let dy: i128 = ((2 * (self.y_index as i64) + size) * unit - 2 * (eye[1] as i64)) as i128;
        let dz: i128 = ((2 * (self.z_index as i64) + size) * unit - 2 * (eye[2] as i64)) as i128;
        let below: i64 = (self.depth - self.sub_division_level) as i64;
        let span: i64 = 131072 * (threshold as i64);
        assert(0 <= span * below <= 0x100_0000_0000_0000) by (nonlinear_arith)
            requires
                0 <= span <= 0x2_0000_0000_0000,
                0 <= below <= 8,
        ;
        let reach: i128 = (span * below) as i128;
        assert(reach == 2 * UNIT * threshold * (self.depth - self.sub_division_level))
            by (nonlinear_arith)
            requires
                reach == span * below,
                span == 131072 * threshold,
                below == self.depth - self.sub_division_level,
                UNIT == 65536,
        ;
        assert(-0x2_0000_0000 <= dx <= 0x2_0000_0000);
        assert(-0x2_0000_0000 <= dy <= 0x2_0000_0000);
        assert(-0x2_0000_0000 <= dz <= 0x2_0000_0000);
        assert(0 <= reach <= 0x100_0000_0000_0000);
        assert(0 <= dx * dx <= 0x4_0000_0000_0000_0000) by (nonlinear_arith)
            requires
                -0x2_0000_0000 <= dx <= 0x2_0000_0000,
        ;
        assert(0 <= dy * dy <= 0x4_0000_0000_0000_0000) by (nonlinear_arith)
            requires
                -0x2_0000_0000 <= dy <= 0x2_0000_0000,
        ;
        assert(0 <= dz * dz <= 0x4_0000_0000_0000_0000) by (nonlinear_arith)
            requires
                -0x2_0000_0000 <= dz <= 0x2_0000_0000,
        ;
        assert(0 <= reach * reach <= 0x1_0000_0000_0000_0000_0000_0000_0000) by (nonlinear_arith)
            requires
                0 <= reach <= 0x100_0000_0000_0000,
        ;
        dx * dx + dy * dy + dz * dz > reach * reach
    }

    /// Sets the active state of every cube with children to match the
    /// combined state of its children, from the deepest up: such a cube
    /// takes the colour and tags of its last active child, and becomes
    /// active if it has an active child and is far from the eye, or if all
    /// its children are active and uniform; else it becomes inactive.
    pub fn optimize(&mut self, camera_eye: &Point, threshold: u32)
        requires
            old(self).wf(),
        ensures
            final(self)@ == old(self)@.optimized(*camera_eye, threshold),
            final(self).wf(),
        decreases *old(self),
    {
        proof {
            old(self)@.lemma_optimized_shape(*camera_eye, threshold);
            old(self).lemma_view_children();
        }
        if self.children.len() == 8 {
            let ghost want = old(self)@.optimized(*camera_eye, threshold);
            let mut k: usize = 0;
            while k < 8
                invariant
                    k <= 8,
                    self.children@.len() == 8,
                    old(self).children@.len() == 8,
                    old(self).wf(),
                    want == old(self)@.optimized(*camera_eye, threshold),
                    self@.node == old(self)@.node,
                    self@.depth == old(self)@.depth,
                    forall|j: int| k <= j < 8 ==> self.children@[j] == old(self).children@[j],
                    forall|j: int| 0 <= j < k ==> (#[trigger] self.children@[j])@ == want.children[j],
                decreases 8 - k,
            {
                proof {
                    old(self).lemma_view_children();
                    assert(old(self)@.children[k as int].wf());
                }
                self.children[k].optimize(camera_eye, threshold);
                k = k + 1;
            }
            proof {
                assert(self@.children =~= want.children);
            }
            let far = self.is_far(camera_eye, threshold);
            let mut all: bool = true;
            let mut probe: Option<StoredNode> = None;
            let mut i: usize = 0;
            while i < 8
                invariant
                    i <= 8,
                    self.children@.len() == 8,
                    self@.children == want.children,
                    probe == Tree::last_active(want.children, i as nat),
                    all == Tree::all_active(want.children, i as nat),
                decreases 8 - i,
            {
                proof {
                    self.lemma_view_children();
                }
                let r = self.children[i].record();
                if r.active {
                    probe = Some(r);
                } else {
                    all = false;
                }
                i = i + 1;
            }
            match probe {
                None => {
                    self.active = false;
                },
                Some(p) => {
                    let mut uniform: bool = true;
                    let mut j: usize = 0;
                    while j < 8
                        invariant
                            j <= 8,
                            self.children@.len() == 8,
                            self@.children == want.children,
                            uniform == Tree::all_uniform(want.children, j as nat, p),
                        decreases 8 - j,
                    {
                        proof {
                            self.lemma_view_children();
                        }
                        let r = self.children[j].record();
                        assert(want.children[j as int].node == r);
                        if !p.uniform(&r) {
                            uniform = false;
                        }
                        j = j + 1;
                    }
                    self.active = far || (all && uniform);
                    self.color = p.color;
                    self.fluid = p.fluid;
                    self.noise = p.noise;
                },
            }
            proof {
                assert(self@.children =~= want.children);
            }
        }
    }
    /// Whether this cube and `compare` are uniform: their colours compare
    /// equal and their fluid and noise tags are the same.
    pub fn uniform(&self, compare: &Ocnode) -> (r: bool)
        ensures
            r == self@.node.spec_uniform(compare@.node),
    {
        self.record().uniform(&compare.record())
    }

    /// Whether the tree below `root` has, at this cube's level and with
    /// the given index, an active cube that is uniform with this one.
    fn hidden_by(&self, root: &Ocnode, x: i32, y: i32, z: i32) -> (r: bool)
        requires
            root.wf(),
        ensures
            r == match root@.node_at(x as int, y as int, z as int, self@.node.level as int) {
                Some(n) => n.active && self@.node.spec_uniform(n),
                None => false,
            },
    {
        match root.find_by_index(x, y, z, self.sub_division_level) {
            Some(n) => n.active && self.uniform(n),
            None => false,
        }
    }

    /// Whether the face towards lower y is hidden by a cube of `root`.
    pub fn bottom_occluded(&self, root: &Ocnode) -> (r: bool)
        requires
            self.wf(),
            root.wf(),
            root@.depth == self@.depth,
        ensures
            r == root@.hides(self@.node, Face::Bottom),
    {
        proof {
            lemma_pow2_bounds((self.depth - self.sub_division_level) as nat);
        }
        let size: i32 = self.resolution(self.sub_division_level) as i32;
        self.hidden_by(root, self.x_index, self.y_index - size, self.z_index)
    }

    /// Whether the face towards lower x is hidden by a cube of `root`.
    pub fn left_occluded(&self, root: &Ocnode) -> (r: bool)
        requires
            self.wf(),
            root.wf(),
            root@.depth == self@.depth,
        ensures
            r == root@.hides(self@.node, Face::Left),
    {
        proof {
            lemma_pow2_bounds((self.depth - self.sub_division_level) as nat);
        }
        let size: i32 = self.resolution(self.sub_division_level) as i32;
        self.hidden_by(root, self.x_index - size, self.y_index, self.z_index)
    }

    /// Whether the face towards higher x is hidden by a cube of `root`.
    pub fn right_occluded(&self, root: &Ocnode) -> (r: bool)
        requires
            self.wf(),
            root.wf(),
            root@.depth == self@.depth,
        ensures
            r == root@.hides(self@.node, Face::Right),
    {
        proof {
            lemma_pow2_bounds((self.depth - self.sub_division_level) as nat);
        }
        let size: i32 = self.resolution(self.sub_division_level) as i32;
        self.hidden_by(root, self.x_index + size, self.y_index, self.z_index)
    }

    /// Whether the face towards lower z is hidden by a cube of `root`.
    pub fn front_occluded(&self, root: &Ocnode) -> (r: bool)
        requires
            self.wf(),
            root.wf(),
            root@.depth == self@.depth,
        ensures
            r == root@.hides(self@.node, Face::Front),
    {
        proof {
            lemma_pow2_bounds((self.depth - self.sub_division_level) as nat);
        }
        let size: i32 = self.resolution(self.sub_division_level) as i32;
        self.hidden_by(root, self.x_index, self.y_index, self.z_index - size)
    }

    /// Whether the face towards higher z is hidden by a cube of `root`.
    pub fn back_occluded(&self, root: &Ocnode) -> (r: bool)
        requires
            self.wf(),
            root.wf(),
            root@.depth == self@.depth,
        ensures
            r == root@.hides(self@.node, Face::Back),
    {
        proof {
            lemma_pow2_bounds((self.depth - self.sub_division_level) as nat);
        }
        let size: i32 = self.resolution(self.sub_division_level) as i32;
        self.hidden_by(root, self.x_index, self.y_index, self.z_index + size)
    }

    /// Whether the face towards higher y is hidden by a cube of `root`.
    pub fn top_occluded(&self, root: &Ocnode) -> (r: bool)
        requires
            self.wf(),
            root.wf(),
            root@.depth == self@.depth,
        ensures
            r == root@.hides(self@.node, Face::Top),
    {
        proof {
            lemma_pow2_bounds((self.depth - self.sub_division_level) as nat);
        }
        let size: i32 = self.resolution(self.sub_division_level) as i32;
        self.hidden_by(root, self.x_index, self.y_index + size, self.z_index)
    }

    /// Calculates again, against the tree below `root`, the occlusion
    /// flags of each active cube among this one and all below it.
    pub fn recalculate_occlusion(&mut self, root: &Ocnode)
        requires
            old(self).wf(),
            root.wf(),
            root@.depth == old(self)@.depth,
        ensures
            final(self)@ == old(self)@.occluded_in(root@),
            final(self).wf(),
        decreases *old(self),
    {
        proof {
            old(self)@.lemma_occluded_shape(root@);
            old(self).lemma_view_children();
        }
        if self.active {
            let front = self.front_occluded(root);
            let back = self.back_occluded(root);
            let top = self.top_occluded(root);
            let bottom = self.bottom_occluded(root);
            let left = self.left_occluded(root);
            let right = self.right_occluded(root);
            self.front_occluded_calculated = front;
            self.back_occluded_calculated = back;
            self.top_occluded_calculated = top;
            self.bottom_occluded_calculated = bottom;
            self.left_occluded_calculated = left;
            self.right_occluded_calculated = right;
        }
        let n: usize = self.children.len();
        let mut i: usize = 0;
        while i < n
            invariant
                i <= n,
                self.children@.len() == n,
                old(self).children@.len() == n,
                old(self).wf(),
                root.wf(),
                root@.depth == old(self)@.depth,
                self@.node == Tree::refreshed(root@, old(self)@.node),
                self@.depth == old(self)@.depth,
                forall|j: int| i <= j < n ==> self.children@[j] == old(self).children@[j],
                forall|j: int|
                    0 <= j < i ==> (#[trigger] self.children@[j])@ == old(
                        self,
                    ).children@[j]@.occluded_in(root@),
            decreases n - i,
        {
            proof {
                old(self).lemma_view_children();
                assert(old(self)@.children[i as int].wf() && old(self)@.child_placed(i as int));
            }
            self.children[i].recalculate_occlusion(root);
            i = i + 1;
        }
        proof {
            old(self).lemma_view_children();
            assert(self@.children =~= old(self)@.occluded_in(root@).children);
        }
    }
    /// Applies the records one after the other. Tells how many of them
    /// were at a place where there is no cube.
    pub fn apply_all(&mut self, nodes: &Vec<StoredNode>) -> (missed: usize)
        requires
            old(self).wf(),
        ensures
            final(self)@ == old(self)@.applied_all(nodes@),
            final(self).wf(),
            missed == old(self)@.missing(nodes@),
    {
        let mut missed: usize = 0;
        let mut i: usize = 0;
        while i < nodes.len()
            invariant
                i <= nodes.len(),
                old(self).wf(),
                self.wf(),
                self@ == old(self)@.applied_all(nodes@.take(i as int)),
                missed == old(self)@.missing(nodes@.take(i as int)),
                missed <= i,
            decreases nodes.len() - i,
        {
            proof {
                let next = nodes@.take(i + 1);
                assert(next.drop_last() =~= nodes@.take(i as int));
                assert(next.last() == nodes@[i as int]);
                old(self)@.lemma_applied_all_dom(
                    nodes@.take(i as int),
                    nodes@[i as int].x as int,
                    nodes@[i as int].y as int,
                    nodes@[i as int].z as int,
                    nodes@[i as int].level as int,
                );
            }
            let found = self.apply(&nodes[i]);
            if !found {
                missed = missed + 1;
            }
            i = i + 1;
        }
        proof {
            assert(nodes@.take(nodes@.len() as int) =~= nodes@);
        }
        missed
    }

    /// Switches the smallest cubes at the given positions on or off, and
    /// gives them the colour and tags. A position with no cube is passed
    /// over. Occlusion flags stay as they are.
    pub fn toggle_voxels(
        &mut self,
        positions: &Vec<[i32; 3]>,
        value: bool,
        color: Color,
        fluid: i32,
        noise: i32,
    )
        requires
            old(self).wf(),
        ensures
            final(self)@ == old(self)@.toggled_all(positions@, value, color, fluid, noise),
            final(self).wf(),
    {
        let mut records: Vec<StoredNode> = Vec::new();
        let mut i: usize = 0;
        while i < positions.len()
            invariant
                i <= positions.len(),
                self.wf(),
                records@ == self@.toggle_records(
                    positions@.take(i as int),
                    value,
                    color,
                    fluid,
                    noise,
                ),
            decreases positions.len() - i,
        {
            proof {
                let next = positions@.take(i + 1);
                assert(next.drop_last() =~= positions@.take(i as int));
                assert(next.last() == positions@[i as int]);
            }
            let p = &positions[i];
            match self.find_by_index(p[0], p[1], p[2], self.depth) {
                Some(n) => {
                    let r = n.record();
                    records.push(
                        StoredNode { active: value, color: color, fluid: fluid, noise: noise, ..r },
                    );
                },
                None => {},
            }
            i = i + 1;
        }
        proof {
            assert(positions@.take(positions@.len() as int) =~= positions@);
        }
        self.apply_all(&records);
    }

    /// Are all the smallest cubes at the given positions active? A
    /// position with no cube is passed over.
    pub fn all_voxels_active(&self, positions: &Vec<[i32; 3]>) -> (r: bool)
        requires
            self.wf(),
        ensures
            r == forall|i: int|
                0 <= i < positions@.len() ==> match self@.node_at(
                    (#[trigger] positions@[i])[0] as int,
                    positions@[i][1] as int,
                    positions@[i][2] as int,
                    self@.depth as int,
                ) {
                    Some(n) => n.active,
                    None => true,
                },
    {
        let mut i: usize = 0;
        while i < positions.len()
            invariant
                i <= positions.len(),
                self.wf(),
                forall|j: int|
                    0 <= j < i ==> match self@.node_at(
                        (#[trigger] positions@[j])[0] as int,
                        positions@[j][1] as int,
                        positions@[j][2] as int,
                        self@.depth as int,
                    ) {
                        Some(n) => n.active,
                        None => true,
                    },
            decreases positions.len() - i,
        {
            let p = &positions[i];
            match self.find_by_index(p[0], p[1], p[2], self.depth) {
                Some(n) => {
                    if !n.active {
                        return false;
                    }
                },
                None => {},
            }
            i = i + 1;
        }
        true
    }

    /// What this cube holds, with each occlusion flag calculated against
    /// the tree below `root`.
    pub fn refreshed_record(&self, root: &Ocnode) -> (r: StoredNode)
        requires
            self.wf(),
            root.wf(),
            root@.depth == self@.depth,
        ensures
            r == root@.with_occlusion(self@.node),
    {
        let front = self.front_occluded(root);
        let back = self.back_occluded(root);
        let top = self.top_occluded(root);
        let bottom = self.bottom_occluded(root);
        let left = self.left_occluded(root);
        let right = self.right_occluded(root);
        let r = self.record();
        StoredNode {
            front_occluded: front,
            back_occluded: back,
            top_occluded: top,
            bottom_occluded: bottom,
            left_occluded: left,
            right_occluded: right,
            ..r
        }
    }

    /// Adds to `found` the smallest cube at the given index, with its
    /// occlusion calculated, if there is such a cube and it is active.
    pub fn refresh_into(&self, x: i64, y: i64, z: i64, found: &mut Vec<StoredNode>)
        requires
            self.wf(),
        ensures
            final(found)@ == old(found)@ + self@.refresh_record(x as int, y as int, z as int),
    {
        proof {
            if self@.node_at(x as int, y as int, z as int, self@.depth as int).is_some() {
                self@.lemma_node_at_inside(x as int, y as int, z as int, self@.depth as int);
            }
        }
        if -128 <= x && x <= 128 && -128 <= y && y <= 128 && -128 <= z && z <= 128 {
            match self.find_by_index(x as i32, y as i32, z as i32, self.depth) {
                Some(n) => {
                    if n.active {
                        let r = n.refreshed_record(self);
                        found.push(r);
                        proof {
                            assert(found@ =~= old(found)@ + seq![r]);
                        }
                        return ;
                    }
                },
                None => {},
            }
        }
        proof {
            assert(found@ =~= old(found)@ + Seq::<StoredNode>::empty());
        }
    }

    /// Adds to `found` the records of `refresh_into` for the position and
    /// for the six points one step from it.
    fn refresh_near(&self, p: &[i32; 3], found: &mut Vec<StoredNode>)
        requires
            self.wf(),
        ensures
            final(found)@ == old(found)@ + self@.near_records(*p, 7),
    {
        let mut k: usize = 0;
        proof {
            assert(found@ =~= old(found)@ + self@.near_records(*p, 0));
        }
        while k < 7
            invariant
                k <= 7,
                self.wf(),
                found@ == old(found)@ + self@.near_records(*p, k as nat),
            decreases 7 - k,
        {
            let dx: i64 = if k == 1 { 1 } else if k == 2 { -1 } else { 0 };
            let dy: i64 = if k == 3 { 1 } else if k == 4 { -1 } else { 0 };
            let dz: i64 = if k == 5 { 1 } else if k == 6 { -1 } else { 0 };
            assert(step(k as int) == (dx as int, dy as int, dz as int));
            self.refresh_into(p[0] as i64 + dx, p[1] as i64 + dy, p[2] as i64 + dz, found);
            k = k + 1;
            proof {
                assert(found@ =~= old(found)@ + self@.near_records(*p, k as nat));
            }
        }
    }

    /// The records that calculate again the occlusion of the active
    /// smallest cubes at the given positions and one step from them.
    pub fn refresh_records(&self, positions: &Vec<[i32; 3]>) -> (found: Vec<StoredNode>)
        requires
            self.wf(),
        ensures
            found@ == self@.refresh_records(positions@),
    {
        let mut found: Vec<StoredNode> = Vec::new();
        let mut i: usize = 0;
        while i < positions.len()
            invariant
                i <= positions.len(),
                self.wf(),
                found@ == self@.refresh_records(positions@.take(i as int)),
            decreases positions.len() - i,
        {
            proof {
                let next = positions@.take(i + 1);
                assert(next.drop_last() =~= positions@.take(i as int));
                assert(next.last() == positions@[i as int]);
            }
            self.refresh_near(&positions[i], &mut found);
            i = i + 1;
        }
        proof {
            assert(positions@.take(positions@.len() as int) =~= positions@);
        }
        found
    }

    /// Whether the place is among those completed.
    fn visited(completed: &Vec<Place>, x: i32, y: i32, z: i32, level: u32) -> (r: bool)
        ensures
            r == completed@.contains((x, y, z, level)),
    {
        let mut i: usize = 0;
        while i < completed.len()
            invariant
                i <= completed.len(),
                forall|j: int| 0 <= j < i ==> completed@[j] != (x, y, z, level),
            decreases completed.len() - i,
        {
            let c = completed[i];
            if c.0 == x && c.1 == y && c.2 == z && c.3 == level {
                return true;
            }
            i = i + 1;
        }
        false
    }

    /// The flag of the face that painting looks at in turn `k`.
    fn face_flag(r: &StoredNode, k: usize) -> (flag: bool)
        requires
            k < 6,
        ensures
            flag == r.occluded(paint_face(k as int)),
    {
        if k == 0 {
            r.left_occluded
        } else if k == 1 {
            r.right_occluded
        } else if k == 2 {
            r.top_occluded
        } else if k == 3 {
            r.bottom_occluded
        } else if k == 4 {
            r.front_occluded
        } else {
            r.back_occluded
        }
    }

    /// Searches the region that painting from the cube at the given place
    /// covers, and adds to `completed` the places it comes to, each once:
    /// the cube itself first, if there is one, and then, for each of its
    /// faces flagged as occluded, what a search from the cube beyond that
    /// face adds, unless that cube is among the completed already.
    fn spread(&self, x: i32, y: i32, z: i32, level: u32, completed: &mut Vec<Place>)
        requires
            self.wf(),
        ensures
            self@.flooded((x, y, z, level), old(completed)@, final(completed)@),
            forall|fuel: nat|
                fuel >= self@.depth_of_search((x, y, z, level), old(completed)@)
                    ==> final(completed)@ == #[trigger] self@.search(
                    (x, y, z, level),
                    old(completed)@,
                    fuel,
                ),
        decreases
                self@.unvisited(level, old(completed)@),
                (if old(completed)@.contains((x, y, z, level)) {
                    1nat
                } else {
                    0nat
                }),
    {
        let ghost tree = self@;
        let ghost seed: Place = (x, y, z, level);
        let ghost before = completed@;
        let r = match self.find_by_index(x, y, z, level) {
            Some(n) => n.record(),
            None => {
                return ;
            },
        };
        proof {
            tree.lemma_node_at_inside(x as int, y as int, z as int, level as int);
            lemma_pow2_bounds((self.depth - level) as nat);
            tree.lemma_connected_self(seed, before);
        }
        completed.push((x, y, z, level));
        let ghost first = completed@;
        proof {
            assert(within(before, first)) by {
                assert(extends(before, first));
                lemma_extends_within(before, first);
            }
            assert(first.contains(seed)) by {
                assert(first[before.len() as int] == seed);
            }
            tree.lemma_unvisited_monotone(level, before, first);
            if !before.contains(seed) {
                tree.lemma_unvisited_decreases(seed, before, first);
            }
        }
        let size: i32 = self.resolution(level) as i32;
        let mut k: usize = 0;
        while k < 6
            invariant
                k <= 6,
                self.wf(),
                tree == self@,
                seed == (x, y, z, level),
                tree.has(seed),
                tree.get(seed) == r,
                size == pow2((tree.depth - level) as nat),
                -128 <= x < 128 && -128 <= y < 128 && -128 <= z < 128,
                1 <= size <= 128,
                before == old(completed)@,
                first == before.push(seed),
                extends(first, completed@),
                tree.unvisited(level, completed@) <= tree.unvisited(level, first),
                tree.unvisited(level, first) <= tree.unvisited(level, before),
                !before.contains(seed) ==> tree.unvisited(level, first) < tree.unvisited(
                    level,
                    before,
                ),
                forall|j: int|
                    before.len() <= j < completed@.len() ==> tree.connected_past(
                        seed,
                        #[trigger] completed@[j],
                        before,
                    ),
                forall|j: int|
                    before.len() < j < completed@.len() ==> !before.contains(
                        #[trigger] completed@[j],
                    ),
                forall|i: int, j: int|
                    before.len() <= i < j < completed@.len() ==> #[trigger] completed@[i]
                        != #[trigger] completed@[j],
                forall|j: int|
                    first.len() <= j < completed@.len() ==> tree.closed_at(
                        #[trigger] completed@[j],
                        completed@,
                    ),
                forall|f: int, m: Place|
                    0 <= f < k && r.occluded(#[trigger] paint_face(f)) && tree.next_to(
                        seed,
                        paint_face(f),
                    ) == (m.0 as int, m.1 as int, m.2 as int) && m.3 == level && #[trigger] tree.has(
                        m,
                    ) ==> completed@.contains(m),
                forall|fuel: nat|
                    fuel >= tree.depth_of_search(seed, before) ==> completed@
                        == #[trigger] tree.search_faces(seed, first, k as nat, (fuel - 1) as nat),
            decreases 6 - k,
        {
            let ghost cur = completed@;
            let dx: i32 = if k == 0 { -size } else if k == 1 { size } else { 0 };
            let dy: i32 = if k == 2 { size } else if k == 3 { -size } else { 0 };
            let dz: i32 = if k == 4 { -size } else if k == 5 { size } else { 0 };
            let ghost next: Place = ((x + dx) as i32, (y + dy) as i32, (z + dz) as i32, level);
            assert(tree.next_to(seed, paint_face(k as int)) == (x + dx, y + dy, z + dz));
            if Self::face_flag(&r, k) && !Self::visited(completed, x + dx, y + dy, z + dz, level) {
                proof {
                    lemma_extends_within(first, cur);
                    tree.lemma_unvisited_monotone(level, first, cur);
                }
                self.spread(x + dx, y + dy, z + dz, level, completed);
                proof {
                    let after = completed@;
                    assert(tree.beyond(seed, paint_face(k as int)) == next);
                    assert forall|fuel: nat|
                        fuel >= tree.depth_of_search(seed, before) implies after
                        == #[trigger] tree.search_faces(
                        seed,
                        first,
                        (k + 1) as nat,
                        (fuel - 1) as nat,
                    ) by {
                        assert(cur == tree.search_faces(seed, first, k as nat, (fuel - 1) as nat));
                        assert((fuel - 1) as nat >= tree.depth_of_search(next, cur));
                        assert(after == tree.search(next, cur, (fuel - 1) as nat));
                    }
                    lemma_extends_within(cur, after);
                    tree.lemma_unvisited_monotone(level, cur, after);
                    lemma_extends_within(before, first);
                    assert(within(before, cur));
                    assert forall|j: int| before.len() <= j < after.len() implies tree.connected_past(
                        seed,
                        #[trigger] after[j],
                        before,
                    ) by {
                        if j < cur.len() {
                            assert(after[j] == cur[j]);
                        } else {
                            assert(tree.connected_past(next, after[j], cur));
                            let n = choose|n: nat| tree.reaches(next, after[j], n, cur);
                            tree.lemma_reaches_past_fewer(next, after[j], n, cur, before);
                            assert(tree.has(next));
                            assert(tree.passes(seed, next)) by {
                                assert(r.occluded(paint_face(k as int)));
                            }
                            tree.lemma_connected_step(seed, next, after[j], before);
                        }
                    }
                    assert forall|j: int| before.len() < j < after.len() implies !before.contains(
                        #[trigger] after[j],
                    ) by {
                        if j < cur.len() {
                            assert(after[j] == cur[j]);
                        } else if j == cur.len() {
                            assert(after[j] == next);
                        } else {
                            assert(!cur.contains(after[j]));
                        }
                    }
                    assert forall|i: int, j: int|
                        before.len() <= i < j < after.len() implies #[trigger] after[i]
                        != #[trigger] after[j] by {
                        if j < cur.len() {
                            assert(after[j] == cur[j] && after[i] == cur[i]);
                        } else if i < cur.len() {
                            assert(after[i] == cur[i]);
                            assert(cur.contains(after[i]));
                            if j == cur.len() {
                                assert(after[j] == next);
                            } else {
                                assert(!cur.contains(after[j]));
                            }
                        }
                    }
                    assert forall|j: int| first.len() <= j < after.len() implies tree.closed_at(
                        #[trigger] after[j],
                        after,
                    ) by {
                        if j < cur.len() {
                            assert(after[j] == cur[j]);
                            tree.lemma_closed_at_extends(cur[j], cur, after);
                        }
                    }
                    assert forall|f: int, m: Place|
                        0 <= f < k + 1 && r.occluded(#[trigger] paint_face(f)) && tree.next_to(
                            seed,
                            paint_face(f),
                        ) == (m.0 as int, m.1 as int, m.2 as int) && m.3 == level
                            && #[trigger] tree.has(m) implies after.contains(m) by {
                        if f < k {
                            assert(cur.contains(m));
                        } else {
                            assert(m == next);
                            assert(after[cur.len() as int] == next);
                        }
                    }
                }
            } else {
                proof {
                    assert forall|f: int, m: Place|
                        0 <= f < k + 1 && r.occluded(#[trigger] paint_face(f)) && tree.next_to(
                            seed,
                            paint_face(f),
                        ) == (m.0 as int, m.1 as int, m.2 as int) && m.3 == level
                            && #[trigger] tree.has(m) implies cur.contains(m) by {
                        if f == k {
                            assert(m == next);
                        }
                    }
                    assert(tree.beyond(seed, paint_face(k as int)) == next);
                    assert forall|fuel: nat|
                        fuel >= tree.depth_of_search(seed, before) implies cur
                        == #[trigger] tree.search_faces(
                        seed,
                        first,
                        (k + 1) as nat,
                        (fuel - 1) as nat,
                    ) by {
                        assert(cur == tree.search_faces(seed, first, k as nat, (fuel - 1) as nat));
                    }
                }
            }
            k = k + 1;
        }
        proof {
            let after = completed@;
            assert(extends(before, after));
            assert(after[before.len() as int] == seed) by {
                assert(first[before.len() as int] == seed);
            }
            assert(tree.closed_at(seed, after)) by {
                assert forall|m: Place| #[trigger] tree.passes(seed, m) implies after.contains(
                    m,
                ) by {
                    let f = choose|f: int|
                        0 <= f < 6 && tree.get(seed).occluded(#[trigger] paint_face(f))
                            && tree.next_to(seed, paint_face(f)) == (
                            m.0 as int,
                            m.1 as int,
                            m.2 as int,
                        );
                    assert(tree.has(m));
                }
            }
            assert forall|j: int| before.len() <= j < after.len() implies tree.connected_past(
                seed,
                #[trigger] after[j],
                before,
            ) && tree.closed_at(after[j], after) by {
                if j == before.len() {
                    assert(after[j] == seed);
                }
            }
            assert forall|fuel: nat| fuel >= tree.depth_of_search(seed, before) implies after
                == #[trigger] tree.search(seed, before, fuel) by {
                assert(after == tree.search_faces(seed, first, 6, (fuel - 1) as nat));
            }
        }
    }

    /// The records that paint the cubes at the places from `start` on.
    fn paint_records(
        &self,
        completed: &Vec<Place>,
        start: usize,
        color: Color,
        noise: i32,
        fluid: i32,
    ) -> (records: Vec<StoredNode>)
        requires
            self.wf(),
            start <= completed@.len(),
        ensures
            records@ == self@.paint_records(completed@.skip(start as int), color, noise, fluid),
    {
        let mut records: Vec<StoredNode> = Vec::new();
        let mut i: usize = start;
        let ghost places = completed@.skip(start as int);
        while i < completed.len()
            invariant
                start <= i <= completed.len(),
                self.wf(),
                places == completed@.skip(start as int),
                records@ == self@.paint_records(places.take(i - start), color, noise, fluid),
            decreases completed.len() - i,
        {
            proof {
                let next = places.take(i - start + 1);
                assert(next.drop_last() =~= places.take(i - start));
                assert(next.last() == completed@[i as int]);
            }
            let c = completed[i];
            match self.find_by_index(c.0, c.1, c.2, c.3) {
                Some(n) => {
                    let r = n.record();
                    records.push(StoredNode { color: color, fluid: fluid, noise: noise, ..r });
                },
                None => {},
            }
            i = i + 1;
        }
        proof {
            assert(places.take(places.len() as int) =~= places);
        }
        records
    }

    /// Paints the region that the cube at `collision` belongs to, and adds
    /// the places painted to `completed`. The search starts at the cube and
    /// goes on through each face that is flagged as occluded to the cube
    /// beyond it, but not into a cube that is among the completed already.
    pub fn paint_connected_nodes_with_completion(
        &mut self,
        collision: Place,
        material_color: Color,
        noise: i32,
        fluid: i32,
        completed: &mut Vec<Place>,
    )
        requires
            old(self).wf(),
        ensures
            final(completed)@ == old(self)@.searched(collision, old(completed)@),
            old(self)@.flooded(collision, old(completed)@, final(completed)@),
            final(self)@ == old(self)@.applied_all(
                old(self)@.paint_records(
                    final(completed)@.skip(old(completed)@.len() as int),
                    material_color,
                    noise,
                    fluid,
                ),
            ),
            final(self).wf(),
            forall|c: Place| #[trigger]
                final(self)@.at_place(c) == match old(self)@.at_place(c) {
                    Some(r) => Some(
                        if old(self)@.connected_past(collision, c, old(completed)@) {
                            painted(r, material_color, noise, fluid)
                        } else {
                            r
                        },
                    ),
                    None => None,
                },
    {
        let start: usize = completed.len();
        let ghost tree = self@;
        self.spread(collision.0, collision.1, collision.2, collision.3, completed);
        let records = self.paint_records(completed, start, material_color, noise, fluid);
        proof {
            let added = completed@.skip(start as int);
            assert forall|c: Place| #[trigger]
                tree.applied_all(records@).at_place(c) == match tree.at_place(c) {
                    Some(r) => Some(
                        if tree.connected_past(collision, c, old(completed)@) {
                            painted(r, material_color, noise, fluid)
                        } else {
                            r
                        },
                    ),
                    None => None,
                } by {
                tree.lemma_flood_exact(collision, old(completed)@, completed@, c);
                tree.lemma_painted_node_at(added, material_color, noise, fluid, c);
            }
        }
        self.apply_all(&records);
    }

    /// Paints the region that the cube at `collision` belongs to: that
    /// cube and every cube that is reached from it through faces flagged
    /// as occluded. Every other cube stays as it is.
    pub fn paint_connected_nodes(
        &mut self,
        collision: Place,
        material_color: Color,
        noise: i32,
        fluid: i32,
    )
        requires
            old(self).wf(),
        ensures
            final(self).wf(),
            final(self)@.depth == old(self)@.depth,
            old(self)@.complete() ==> final(self)@.complete(),
            final(self)@.node.place() == old(self)@.node.place(),
            forall|c: Place| #[trigger]
                final(self)@.at_place(c) == match old(self)@.at_place(c) {
                    Some(r) => Some(
                        if old(self)@.connected(collision, c) {
                            painted(r, material_color, noise, fluid)
                        } else {
                            r
                        },
                    ),
                    None => None,
                },
    {
        let mut completed: Vec<Place> = Vec::new();
        let ghost tree = self@;
        self.paint_connected_nodes_with_completion(
            collision,
            material_color,
            noise,
            fluid,
            &mut completed,
        );
        proof {
            let found = completed@;
            assert(found.skip(0) =~= found);
            let records = tree.paint_records(found, material_color, noise, fluid);
            tree.lemma_applied_all_shape(records);
        }
    }

    /// Whether the line through `near` and `far` meets one of the six
    /// planes that bound this cube inside the cube's bounds.
    pub fn intersects_line(&self, near: &Point, far: &Point) -> (r: bool)
        requires
            self.wf(),
        ensures
            r == hit(self@.node, self@.depth, *near, *far),
    {
        proof {
            lemma_pow2_bounds((self.depth - self.sub_division_level) as nat);
        }
        let size = self.resolution(self.sub_division_level);
        self.record().intersects_line(size, near, far)
    }

    /// The squared distance from the point to the corner of this cube at
    /// its index, in fixed-point units.
    pub fn distance_to(&self, point: &Point) -> (r: i128)
        requires
            self.wf(),
        ensures
            r == self@.node.spec_distance(*point),
    {
        proof {
            lemma_pow2_bounds((self.depth - self.sub_division_level) as nat);
        }
        self.record().distance_to(point)
    }

    /// Finds the active cube that the line through `near` and `far` meets
    /// and whose corner is nearest to `near`; of several at the same
    /// distance, the first in the order of `active_nodes`.
    pub fn find_first_collision(&self, near: &Point, far: &Point) -> (r: Option<Place>)
        requires
            self.wf(),
        ensures
            picked(self@.records(false), self@.depth, *near, *far, r),
            r.is_some() ==> self@.has(r.unwrap()) && self@.get(r.unwrap()).active,
    {
        let nodes = self.active_nodes();
        let mut best: Option<usize> = None;
        let mut least: i128 = 0;
        let mut i: usize = 0;
        while i < nodes.len()
            invariant
                i <= nodes.len(),
                self.wf(),
                nodes@ == self@.records(false),
                match best {
                    None => forall|j: int|
                        0 <= j < i ==> !hit(#[trigger] nodes@[j], self@.depth, *near, *far),
                    Some(b) => {
                        &&& b < i
                        &&& hit(nodes@[b as int], self@.depth, *near, *far)
                        &&& least == nodes@[b as int].spec_distance(*near)
                        &&& forall|j: int|
                            0 <= j < i && hit(#[trigger] nodes@[j], self@.depth, *near, *far)
                                ==> least <= nodes@[j].spec_distance(*near)
                        &&& forall|j: int|
                            0 <= j < b && hit(#[trigger] nodes@[j], self@.depth, *near, *far)
                                ==> least < nodes@[j].spec_distance(*near)
                    },
                },
            decreases nodes.len() - i,
        {
            let node = &nodes[i];
            proof {
                assert(nodes@.contains(*node));
                self@.lemma_records_sound(false, *node);
                self@.lemma_node_at_inside(
                    node.x as int,
                    node.y as int,
                    node.z as int,
                    node.level as int,
                );
                lemma_pow2_bounds((self.depth - node.level) as nat);
                lemma_pow2_bounds((self.depth - self.sub_division_level) as nat);
            }
            let size = power_of_two(self.depth - node.level);
            if node.intersects_line(size, near, far) {
                let distance = node.distance_to(near);
                match best {
                    None => {
                        best = Some(i);
                        least = distance;
                    },
                    Some(_) => {
                        if distance < least {
                            best = Some(i);
                            least = distance;
                        }
                    },
                }
            }
            i = i + 1;
        }
        match best {
            None => None,
            Some(b) => {
                let node = &nodes[b];
                proof {
                    assert(first_nearest(nodes@, self@.depth, *near, *far, b as int));
                    assert(nodes@.contains(*node));
                    self@.lemma_records_sound(false, *node);
                }
                Some((node.x, node.y, node.z, node.level))
            },
        }
    }

    /// Find the cube with the given index at the given level, in this cube
    /// and all below it, to change it. It is the cube that `find_by_index`
    /// finds, handed out as the tree holds it: the lookup itself changes
    /// nothing, and the tree afterwards is the tree as it was with what
    /// the caller made of that cube in its place.
    pub fn find_mut_by_index(&mut self, x: i32, y: i32, z: i32, level: u32) -> (r: Option<
        &mut Ocnode,
    >)
        requires
            old(self).wf(),
        ensures
            match r {
                Some(n) => n.wf() && n@.depth == old(self)@.depth && old(self)@.node_at(
                    x as int,
                    y as int,
                    z as int,
                    level as int,
                ) == Some(n@.node) && old(self)@.tree_at(
                    x as int,
                    y as int,
                    z as int,
                    level as int,
                ) == Some(n@) && ({
                    let grafted = old(self)@.grafted(
                        x as int,
                        y as int,
                        z as int,
                        level as int,
                        final(n)@,
                    );
                    &&& final(self)@.node == grafted.node
                    &&& final(self)@.depth == grafted.depth
                    &&& final(self)@.children =~~= grafted.children
                }),
                None => old(self)@.node_at(x as int, y as int, z as int, level as int).is_none()
                    && old(self)@.tree_at(x as int, y as int, z as int, level as int).is_none()
                    && final(self)@.node == old(self)@.node && final(self)@.depth == old(
                    self,
                )@.depth && final(self)@.children =~~= old(self)@.children,
            },
        decreases *old(self),
    {
        proof {
            old(self).lemma_view_children();
            old(self)@.lemma_tree_at_node(x as int, y as int, z as int, level as int);
        }
        if level == self.sub_division_level {
            if self.x_index == x && self.y_index == y && self.z_index == z {
                Some(self)
            } else {
                None
            }
        } else if self.sub_division_level < level && self.children.len() == 8 {
            match self.slot_for(x, y, z) {
                Some(k) => self.children[k].find_mut_by_index(x, y, z, level),
                None => None,
            }
        } else {
            None
        }
    }

    /// Adds to `out` the cubes drawn for this cube and all below it.
    fn draw_into(&self, out: &mut Vec<Cube>)
        requires
            self.wf(),
        ensures
            keyless(final(out)@) == keyless(old(out)@) + self@.cubes(),
        decreases self,
    {
        if self.active {
            proof {
                lemma_pow2_bounds((self.depth - self.sub_division_level) as nat);
            }
            let scale = self.resolution(self.sub_division_level);
            let mut cube = Cube::new();
            cube.color = self.color;
            cube.fluid = self.fluid;
            cube.noise = self.noise;
            cube.scale = scale;
            cube.smooth = true;
            cube.bottom_occluded = self.bottom_occluded_calculated;
            cube.left_occluded = self.left_occluded_calculated;
            cube.right_occluded = self.right_occluded_calculated;
            cube.front_occluded = self.front_occluded_calculated;
            cube.back_occluded = self.back_occluded_calculated;
            cube.top_occluded = self.top_occluded_calculated;
            cube.init();
            cube.translate([self.x_index, self.y_index, self.z_index]);
            proof {
                assert(cube.translation =~= [self.x_index, self.y_index, self.z_index]);
                assert(crate::cube::unkeyed(cube) == cube_of(self@.node, self@.size()));
            }
            out.push(cube);
            proof {
                assert(keyless(out@) =~= keyless(old(out)@) + self@.cubes());
            }
        } else {
            let n: usize = self.children.len();
            let mut i: usize = 0;
            proof {
                assert(keyless(out@) =~= keyless(old(out)@) + Tree::cubes_of(self@.children, 0));
            }
            while i < n
                invariant
                    i <= n,
                    self.children@.len() == n,
                    self.wf(),
                    keyless(out@) == keyless(old(out)@) + Tree::cubes_of(self@.children, i as nat),
                decreases n - i,
            {
                proof {
                    self.lemma_view_children();
                    assert(self@.children[i as int].wf());
                }
                self.children[i].draw_into(out);
                i = i + 1;
                proof {
                    assert(keyless(out@) =~= keyless(old(out)@) + Tree::cubes_of(
                        self@.children,
                        i as nat,
                    ));
                }
            }
        }
    }

    /// Generate the list of drawables from the active cubes in this one:
    /// one cube for each active cube that is not below another active
    /// cube. Each has a key drawn at random.
    pub fn drawables(&self) -> (out: Vec<Cube>)
        requires
            self.wf(),
        ensures
            keyless(out@) == self@.cubes(),
    {
        let mut out: Vec<Cube> = Vec::new();
        self.draw_into(&mut out);
        proof {
            assert(keyless(out@) =~= self@.cubes());
        }
        out
    }
}

impl Clone for Ocnode {
    /// A copy of the cube and all below it.
    fn clone(&self) -> (r: Ocnode)
        ensures
            r@ == self@,
        decreases self,
    {
        let mut children: Vec<Ocnode> = Vec::new();
        let n: usize = self.children.len();
        let mut i: usize = 0;
        while i < n
            invariant
                i <= n,
                self.children@.len() == n,
                children@.len() == i,
                forall|j: int| 0 <= j < i ==> (#[trigger] children@[j])@ == self.children@[j]@,
            decreases n - i,
        {
            let c = self.children[i].clone();
            children.push(c);
            i = i + 1;
        }
        let r = Ocnode {
            x_index: self.x_index,
            y_index: self.y_index,
            z_index: self.z_index,
            sub_division_level: self.sub_division_level,
            depth: self.depth,
            active: self.active,
            children,
            color: self.color,
            fluid: self.fluid,
            noise: self.noise,
            front_occluded_calculated: self.front_occluded_calculated,
            back_occluded_calculated: self.back_occluded_calculated,
            top_occluded_calculated: self.top_occluded_calculated,
            bottom_occluded_calculated: self.bottom_occluded_calculated,
            left_occluded_calculated: self.left_occluded_calculated,
            right_occluded_calculated: self.right_occluded_calculated,
        };
        proof {
            assert(r@.children =~= self@.children);
        }
        r
    }
}

} // verus!
