use vstd::prelude::*;
use crate::color::Color;
use crate::edits::selects;
use crate::selection::before;
use crate::selection::selected;
use crate::selection::selection_voxels;
use crate::selection::SelectionShape;
use crate::cube::keyless;
use crate::cube::Cube;
use crate::edits::painted;
use crate::paint::Place;
use crate::picking::picked;
use crate::occlusion::touches;
use crate::ocnode::new_node;
use crate::ocnode::spec_range;
use crate::ocnode::Ocnode;
use crate::point::Point;
use crate::stored_octree::StoredNode;
use crate::stored_octree::StoredOctree;
use crate::tree::Tree;
use crate::tree::LEVELS;

verus! {

/// An octree: a tree of cubes of a fixed depth, built once; after that
/// only what its cubes hold changes.
#[derive(Clone)]
pub struct Octree {
    /// The top cube, with all the cubes below it.
    pub root: Ocnode,
    /// The depth the tree was built with.
    pub depth: u32,
    /// The threshold of the level of detail, if one is set.
    pub lod: Option<u32>,
}

impl View for Octree {
    type V = Tree;

    /// What the octree is: the tree of its top cube.
    open spec fn view(&self) -> Tree {
        self.root@
    }
}

impl Octree {
    /// The depth the tree was built with.
    pub open spec fn spec_depth(&self) -> u32 {
        self.depth
    }

    /// The threshold of the level of detail: where it is set, `optimize`
    /// collapses cubes that are farther from the eye than this many voxel
    /// edges for each level below them; where it is not, `optimize`
    /// changes nothing.
    pub open spec fn spec_lod(&self) -> Option<u32> {
        self.lod
    }

    /// The tree is well formed: it is complete, and its top cube is at
    /// level 1 with each index at minus the range of its depth.
    pub open spec fn wf(&self) -> bool {
        &&& self@.wf()
        &&& self@.complete()
        &&& self@.depth == self.spec_depth()
        &&& self@.node.level == 1
        &&& self@.node.x == -spec_range(self@.depth)
        &&& self@.node.y == -spec_range(self@.depth)
        &&& self@.node.z == -spec_range(self@.depth)
    }

    /// Create a new Octree: a single inactive voxel, with no threshold set.
    pub fn new() -> (r: Octree)
        ensures
            r.wf(),
            r@ == Tree::leaf(new_node(), 1),
            r.spec_lod().is_none(),
    {
        proof {
            reveal_with_fuel(crate::tree::pow2, 2);
        }
        Octree { root: Ocnode::new(), depth: 1, lod: None }
    }

    /// The depth the tree was built with.
    pub fn depth(&self) -> (r: u32)
        ensures
            r == self.spec_depth(),
    {
        self.depth
    }

    /// The threshold of the level of detail, if one is set.
    pub fn lod_threshold(&self) -> (r: Option<u32>)
        ensures
            r == self.spec_lod(),
    {
        self.lod
    }

    /// Sets or removes the threshold of the level of detail. The cubes stay
    /// as they are until the next `optimize`.
    pub fn set_lod_threshold(&mut self, threshold: Option<u32>)
        ensures
            final(self)@ == old(self)@,
            final(self).spec_depth() == old(self).spec_depth(),
            final(self).spec_lod() == threshold,
    {
        self.lod = threshold;
    }

    /// Find the cube with the given index at the given level. There is
    /// one exactly if the index is inside the tree and a whole number of
    /// cubes of that level away from the tree's corner. The cube found is
    /// the one the tree holds at that place, with all that is below it.
    pub fn find(&self, x: i32, y: i32, z: i32, level: u32) -> (r: Option<&Ocnode>)
        requires
            self.wf(),
        ensures
            r.is_some() == self@.valid_cell(x as int, y as int, z as int, level as int),
            match r {
                Some(n) => n.wf() && n@.depth == self@.depth && self@.node_at(
                    x as int,
                    y as int,
                    z as int,
                    level as int,
                ) == Some(n@.node) && self@.tree_at(x as int, y as int, z as int, level as int)
                    == Some(n@),
                None => self@.node_at(x as int, y as int, z as int, level as int).is_none()
                    && self@.tree_at(x as int, y as int, z as int, level as int).is_none(),
            },
    {
        proof {
            self@.lemma_node_at_exists(x as int, y as int, z as int, level as int);
        }
        self.root.find_by_index(x, y, z, level)
    }

    /// Get the full list of active nodes from the tree: each active node
    /// once, as the tree holds it, a node before those below it.
    pub fn active_nodes(&self) -> (found: Vec<StoredNode>)
        requires
            self.wf(),
        ensures
            found@ == self@.records(false),
            forall|i: int|
                0 <= i < found@.len() ==> (#[trigger] found@[i]).active && self@.at_place(
                    found@[i].place(),
                ) == Some(found@[i]),
            forall|c: Place|
                self@.has(c) && (#[trigger] self@.get(c)).active ==> found@.contains(self@.get(c)),
    {
        proof {
            let listed = self@.records(false);
            assert forall|i: int| 0 <= i < listed.len() implies (#[trigger] listed[i]).active
                && self@.at_place(listed[i].place()) == Some(listed[i]) by {
                assert(listed.contains(listed[i]));
                self@.lemma_records_sound(false, listed[i]);
            }
            assert forall|c: Place|
                self@.has(c) && (#[trigger] self@.get(c)).active implies listed.contains(
                self@.get(c),
            ) by {
                self@.lemma_records_complete(false, c.0 as int, c.1 as int, c.2 as int, c.3 as int);
            }
        }
        self.root.active_nodes()
    }

    /// Calculates again the occlusion flags of every active cube, against
    /// the tree as it is.
    pub fn recalculate_occlusion(&mut self)
        requires
            old(self).wf(),
        ensures
            final(self)@ == old(self)@.occluded_in(old(self)@),
            final(self).wf(),
            final(self).spec_lod() == old(self).spec_lod(),
            final(self).spec_depth() == old(self).spec_depth(),
    {
        proof {
            self@.lemma_occluded_shape(self@);
        }
        let borrow = self.root.clone();
        self.root.recalculate_occlusion(&borrow);
    }

    /// Optimize walks the tree and, based on the camera position, hides
    /// nested smaller cubes in bigger ones if the detail is not required.
    /// It changes nothing where no threshold is set.
    pub fn optimize(&mut self, camera_eye: Point)
        requires
            old(self).wf(),
        ensures
            final(self)@ == old(self)@.optimized_by(camera_eye, old(self).spec_lod()),
            final(self).wf(),
            final(self).spec_lod() == old(self).spec_lod(),
            final(self).spec_depth() == old(self).spec_depth(),
    {
        match self.lod {
            Some(threshold) => {
                proof {
                    self@.lemma_optimized_shape(camera_eye, threshold);
                }
                self.root.optimize(&camera_eye, threshold);
            },
            None => {},
        }
    }

    /// Subdivide the tree into small cubes, down to the deepest level there is.
    pub fn init(&mut self)
        requires
            old(self).wf(),
        ensures
            final(self)@ == Tree::dense(Ocnode::spec_top(old(self)@.node, LEVELS), LEVELS),
            final(self).wf(),
            final(self).spec_depth() == LEVELS,
            final(self).spec_lod() == old(self).spec_lod(),
    {
        self.decimate(LEVELS);
    }

    /// Restores the tree from its stored form: clears every cube, applies
    /// the records one after the other, and optimizes. Tells how many
    /// records were dropped because the tree has no cube at their place.
    pub fn load_from_serial(&mut self, source: StoredOctree, camera_eye: Point) -> (dropped: usize)
        requires
            old(self).wf(),
        ensures
            final(self)@ == old(self)@.cleared().applied_all(source.active_nodes@).optimized_by(
                camera_eye,
                old(self).spec_lod(),
            ),
            dropped == old(self)@.missing(source.active_nodes@),
            final(self).wf(),
            final(self).spec_lod() == old(self).spec_lod(),
            final(self).spec_depth() == old(self).spec_depth(),
    {
        proof {
            self@.lemma_cleared_shape();
            self@.cleared().lemma_applied_all_shape(source.active_nodes@);
            self@.lemma_missing_cleared(source.active_nodes@);
        }
        self.root.clear();
        let dropped = self.root.apply_all(&source.active_nodes);
        self.optimize(camera_eye);
        dropped
    }

    /// Subdivide the tree into smaller cubes: makes of it a complete tree
    /// with the given number of levels, whose cubes below the top are
    /// newly made.
    pub fn decimate(&mut self, sub_division_level: u32)
        requires
            old(self).wf(),
            1 <= sub_division_level <= LEVELS,
        ensures
            final(self)@ == Tree::dense(
                Ocnode::spec_top(old(self)@.node, sub_division_level),
                sub_division_level,
            ),
            final(self).wf(),
            final(self).spec_depth() == sub_division_level,
            final(self).spec_lod() == old(self).spec_lod(),
            !old(self)@.node.active ==> final(self)@.records(false) == Seq::<StoredNode>::empty(),
            forall|x: int, y: int, z: int, level: int| #[trigger]
                final(self)@.node_at(x, y, z, level) == if final(self)@.valid_cell(x, y, z, level) {
                    Some(
                        if level == 1 {
                            Ocnode::spec_top(old(self)@.node, sub_division_level)
                        } else {
                            StoredNode {
                                x: x as i32,
                                y: y as i32,
                                z: z as i32,
                                level: level as u32,
                                ..Tree::leaf(old(self)@.node, sub_division_level).child_node(0)
                            }
                        },
                    )
                } else {
                    None
                },
    {
        self.depth = sub_division_level;
        self.root.decimate(sub_division_level);
        proof {
            let top = Ocnode::spec_top(old(self)@.node, sub_division_level);
            crate::tree::lemma_pow2_bounds((sub_division_level - 1) as nat);
            assert(Tree::fits(top, sub_division_level));
            Tree::lemma_dense_wf(top, sub_division_level);
            let built = Tree::dense(top, sub_division_level);
            assert forall|x: int, y: int, z: int, level: int| #[trigger]
                built.node_at(x, y, z, level) == if built.valid_cell(x, y, z, level) {
                    Some(
                        if level == 1 {
                            top
                        } else {
                            StoredNode {
                                x: x as i32,
                                y: y as i32,
                                z: z as i32,
                                level: level as u32,
                                ..Tree::leaf(old(self)@.node, sub_division_level).child_node(0)
                            }
                        },
                    )
                } else {
                    None
                } by {
                built.lemma_node_at_exists(x, y, z, level);
                if built.node_at(x, y, z, level).is_some() {
                    Tree::lemma_dense_node_at(top, sub_division_level, x, y, z, level);
                }
            }
        }
    }

    /// Switches the smallest cubes at the given positions on or off, gives
    /// them the colour and tags, and optimizes. Occlusion flags stay as
    /// they are.
    pub fn toggle_voxels(
        &mut self,
        positions: Vec<[i32; 3]>,
        value: bool,
        color: Color,
        camera_eye: Point,
        fluid: i32,
        noise: i32,
    )
        requires
            old(self).wf(),
        ensures
            final(self)@ == old(self)@.toggled_all(
                positions@,
                value,
                color,
                fluid,
                noise,
            ).optimized_by(camera_eye, old(self).spec_lod()),
            final(self).wf(),
            final(self).spec_lod() == old(self).spec_lod(),
            final(self).spec_depth() == old(self).spec_depth(),
    {
        proof {
            self@.lemma_applied_all_shape(
                self@.toggle_records(positions@, value, color, fluid, noise),
            );
        }
        self.root.toggle_voxels(&positions, value, color, fluid, noise);
        self.optimize(camera_eye);
    }

    /// Serialize the tree: its active leaves, each once and as the tree
    /// holds it, in the order of a walk through the tree. An inactive leaf
    /// and a cube with children have no record.
    pub fn prepare(&self) -> (stored: StoredOctree)
        requires
            self.wf(),
        ensures
            stored.active_nodes@ == self@.records(true),
            forall|i: int|
                0 <= i < stored.active_nodes@.len() ==> {
                    let r = #[trigger] stored.active_nodes@[i];
                    r.active && r.level == self@.depth && self@.at_place(r.place()) == Some(r)
                },
            forall|c: Place|
                c.3 == self@.depth && self@.has(c) && (#[trigger] self@.get(c)).active
                    ==> stored.active_nodes@.contains(self@.get(c)),
    {
        proof {
            let listed = self@.records(true);
            assert forall|i: int| 0 <= i < listed.len() implies {
                let r = #[trigger] listed[i];
                r.active && r.level == self@.depth && self@.at_place(r.place()) == Some(r)
            } by {
                assert(listed.contains(listed[i]));
                self@.lemma_records_sound(true, listed[i]);
            }
            assert forall|c: Place|
                c.3 == self@.depth && self@.has(c) && (#[trigger] self@.get(c)).active
                implies listed.contains(self@.get(c)) by {
                self@.lemma_records_complete(true, c.0 as int, c.1 as int, c.2 as int, c.3 as int);
            }
        }
        StoredOctree { active_nodes: self.root.active_leaves() }
    }

    /// Check all positions and determine if all the cubes there are active.
    pub fn all_voxels_active(&self, positions: &Vec<[i32; 3]>) -> (r: bool)
        requires
            self.wf(),
        ensures
            r == forall|i: int|
                0 <= i < positions@.len() ==> match self@.node_at(
                    (#[trigger] positions@[i])[0] as int,
                    positions@[i][1] as int,
                    positions@[i][2] as int,
                    self@.depth as int,
                ) {
                    Some(n) => n.active,
                    None => true,
                },
    {
        self.root.all_voxels_active(positions)
    }
    /// Calculates again the occlusion flags of the active smallest cubes
    /// at the given positions and one step from them along each axis. For
    /// these cubes the flags are those that a calculation over the whole
    /// tree gives; every other cube stays as it is.
    pub fn recalculate_occlusion_for_selections(&mut self, selections: Vec<[i32; 3]>)
        requires
            old(self).wf(),
        ensures
            final(self)@ == old(self)@.applied_all(old(self)@.refresh_records(selections@)),
            final(self).wf(),
            final(self).spec_lod() == old(self).spec_lod(),
            final(self).spec_depth() == old(self).spec_depth(),
            forall|x: int, y: int, z: int, level: int| #[trigger]
                final(self)@.node_at(x, y, z, level) == match old(self)@.node_at(x, y, z, level) {
                    Some(r) => Some(
                        if level == old(self)@.depth && touches(selections@, x, y, z) {
                            Tree::refreshed(old(self)@, r)
                        } else {
                            r
                        },
                    ),
                    None => None,
                },
    {
        let records = self.root.refresh_records(&selections);
        proof {
            let tree = self@;
            tree.lemma_applied_all_shape(records@);
            assert forall|x: int, y: int, z: int, level: int| #[trigger]
                tree.applied_all(records@).node_at(x, y, z, level) == match tree.node_at(
                    x,
                    y,
                    z,
                    level,
                ) {
                    Some(r) => Some(
                        if level == tree.depth && touches(selections@, x, y, z) {
                            Tree::refreshed(tree, r)
                        } else {
                            r
                        },
                    ),
                    None => None,
                } by {
                tree.lemma_refreshed_node_at(selections@, x, y, z, level);
            }
        }
        self.root.apply_all(&records);
    }
    /// Finds the active cube that the line through `near` and `far` meets
    /// first, as `find_first_collision` tells, and paints the region it
    /// belongs to. Tells the place of the cube found.
    pub fn paint_first_collision(
        &mut self,
        near: Point,
        far: Point,
        material_color: Color,
        noise: i32,
        fluid: i32,
    ) -> (collision: Option<Place>)
        requires
            old(self).wf(),
        ensures
            final(self).wf(),
            final(self).spec_lod() == old(self).spec_lod(),
            final(self).spec_depth() == old(self).spec_depth(),
            picked(old(self)@.records(false), old(self)@.depth, near, far, collision),
            forall|c: Place| #[trigger]
                final(self)@.at_place(c) == match old(self)@.at_place(c) {
                    Some(r) => Some(
                        if collision.is_some() && old(self)@.connected(collision.unwrap(), c) {
                            painted(r, material_color, noise, fluid)
                        } else {
                            r
                        },
                    ),
                    None => None,
                },
    {
        let collision_opt = self.root.find_first_collision(&near, &far);
        if let Some(collision) = collision_opt {
            self.root.paint_connected_nodes(collision, material_color, noise, fluid);
        }
        collision_opt
    }
    /// Generate the list of drawables from the tree of cubes: one cube for
    /// each active cube that is not below another active cube, in the
    /// order of a walk through the tree. Each has a key drawn at random.
    pub fn drawables(&self) -> (out: Vec<Cube>)
        requires
            self.wf(),
        ensures
            keyless(out@) == self@.cubes(),
    {
        self.root.drawables()
    }
    /// The voxels are those of the selection of the given shape and
    /// radius around the centre, in a tree of the given depth: each once,
    /// in the order of x, then y, then z.
    pub open spec fn is_selection(
        voxels: Seq<[i32; 3]>,
        center: [i32; 3],
        radius: i32,
        shape: SelectionShape,
        depth: u32,
    ) -> bool {
        &&& forall|i: int|
            0 <= i < voxels.len() ==> selected(
                shape,
                center,
                radius as int,
                2 * spec_range(depth),
                (#[trigger] voxels[i])[0] as int,
                voxels[i][1] as int,
                voxels[i][2] as int,
            )
        &&& forall|x: int, y: int, z: int| #[trigger]
            selected(shape, center, radius as int, 2 * spec_range(depth), x, y, z) ==> selects(
                voxels,
                x,
                y,
                z,
            )
        &&& forall|i: int, j: int|
            0 <= i < j < voxels.len() ==> before(
                #[trigger] voxels[i],
                (#[trigger] voxels[j])[0] as int,
                voxels[j][1] as int,
                voxels[j][2] as int,
            )
    }

    /// Every one of the smallest cubes at the positions is active; a
    /// position with no cube is passed over.
    pub open spec fn all_active(tree: Tree, positions: Seq<[i32; 3]>) -> bool {
        forall|i: int|
            0 <= i < positions.len() ==> match tree.node_at(
                (#[trigger] positions[i])[0] as int,
                positions[i][1] as int,
                positions[i][2] as int,
                tree.depth as int,
            ) {
                Some(n) => n.active,
                None => true,
            }
    }

    /// Toggles the selection of the given shape and radius around the
    /// centre: switches its voxels off if all of them are active, else
    /// on; gives them the colour and tags; optimizes; and calculates
    /// again the occlusion of the voxels of the selection and of those
    /// one step from them. Tells whether it switched the voxels on, and
    /// which voxels the selection holds.
    pub fn toggle_selection(
        &mut self,
        center: &[i32; 3],
        radius: i32,
        shape: SelectionShape,
        color: Color,
        camera_eye: Point,
        fluid: i32,
        noise: i32,
    ) -> (out: (bool, Vec<[i32; 3]>))
        requires
            old(self).wf(),
        ensures
            Octree::is_selection(out.1@, *center, radius, shape, old(self).spec_depth()),
            out.0 == !Octree::all_active(old(self)@, out.1@),
            final(self)@ == ({
                let switched = old(self)@.toggled_all(out.1@, out.0, color, fluid, noise).optimized_by(
                    camera_eye,
                    old(self).spec_lod(),
                );
                switched.applied_all(switched.refresh_records(out.1@))
            }),
            final(self).wf(),
            final(self).spec_lod() == old(self).spec_lod(),
            final(self).spec_depth() == old(self).spec_depth(),
    {
        let selections = selection_voxels(center, radius, shape, self.depth);
        let value = !self.root.all_voxels_active(&selections);
        proof {
            let toggled = self@.toggled_all(selections@, value, color, fluid, noise);
            self@.lemma_applied_all_shape(
                self@.toggle_records(selections@, value, color, fluid, noise),
            );
            if self.lod.is_some() {
                toggled.lemma_optimized_shape(camera_eye, self.lod.unwrap());
            }
            let switched = toggled.optimized_by(camera_eye, self.lod);
            switched.lemma_applied_all_shape(switched.refresh_records(selections@));
        }
        self.root.toggle_voxels(&selections, value, color, fluid, noise);
        self.optimize(camera_eye);
        let records = self.root.refresh_records(&selections);
        self.root.apply_all(&records);
        (value, selections)
    }
}

} // verus!
