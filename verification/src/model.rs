use vstd::prelude::*;
use crate::color::Color;
use crate::cube::keyless;
use crate::cube::Cube;
use crate::edits::painted;
use crate::occlusion::touches;
use crate::octree::Octree;
use crate::paint::Place;
use crate::picking::picked;
use crate::point::Point;
use crate::selection::SelectionShape;
use crate::storage::Storage;
use crate::stored_octree::StoredOctree;
use crate::tree::Tree;
use crate::tree::LEVELS;

verus! {

/// A model contains an Octree of voxels.
#[derive(Clone)]
pub struct Model {
    pub voxels: Octree,
}

impl View for Model {
    type V = Tree;

    open spec fn view(&self) -> Tree {
        self.voxels@
    }
}

impl Model {
    /// The model's octree is well formed.
    pub open spec fn wf(&self) -> bool {
        self.voxels.wf()
    }

    /// Create new empty model.
    pub fn new() -> (r: Model)
        ensures
            r.wf(),
            r.voxels.spec_lod().is_none(),
    {
        Model { voxels: Octree::new() }
    }

    /// Get the list of drawables from the octree.
    pub fn drawables(&self) -> (out: Vec<Cube>)
        requires
            self.wf(),
        ensures
            keyless(out@) == self@.cubes(),
    {
        self.voxels.drawables()
    }

    /// Paints the region of the active cube that the line through `near`
    /// and `far` meets first. Tells the place of that cube.
    pub fn paint_first_collision(
        &mut self,
        near: Point,
        far: Point,
        material_color: Color,
        noise: i32,
        fluid: i32,
    ) -> (collision: Option<Place>)
        requires
            old(self).wf(),
        ensures
            final(self).wf(),
            final(self).voxels.spec_lod() == old(self).voxels.spec_lod(),
            final(self).voxels.spec_depth() == old(self).voxels.spec_depth(),
            picked(old(self)@.records(false), old(self)@.depth, near, far, collision),
            forall|c: Place| #[trigger]
                final(self)@.at_place(c) == match old(self)@.at_place(c) {
                    Some(r) => Some(
                        if collision.is_some() && old(self)@.connected(collision.unwrap(), c) {
                            painted(r, material_color, noise, fluid)
                        } else {
                            r
                        },
                    ),
                    None => None,
                },
    {
        self.voxels.paint_first_collision(near, far, material_color, noise, fluid)
    }

    /// Call optimize on the nested cubes.
    pub fn optimize(&mut self, camera_eye: Point)
        requires
            old(self).wf(),
        ensures
            final(self)@ == old(self)@.optimized_by(camera_eye, old(self).voxels.spec_lod()),
            final(self).wf(),
            final(self).voxels.spec_lod() == old(self).voxels.spec_lod(),
            final(self).voxels.spec_depth() == old(self).voxels.spec_depth(),
    {
        self.voxels.optimize(camera_eye);
    }

    /// Calculates again the occlusion flags of every active cube.
    pub fn recalculate_occlusion(&mut self)
        requires
            old(self).wf(),
        ensures
            final(self)@ == old(self)@.occluded_in(old(self)@),
            final(self).wf(),
            final(self).voxels.spec_lod() == old(self).voxels.spec_lod(),
            final(self).voxels.spec_depth() == old(self).voxels.spec_depth(),
    {
        self.voxels.recalculate_occlusion();
    }

    /// Calculates again the occlusion flags of the active smallest cubes
    /// at the given positions and one step from them.
    pub fn recalculate_occlusion_for_selections(&mut self, selections: Vec<[i32; 3]>)
        requires
            old(self).wf(),
        ensures
            final(self)@ == old(self)@.applied_all(old(self)@.refresh_records(selections@)),
            final(self).wf(),
            final(self).voxels.spec_lod() == old(self).voxels.spec_lod(),
            final(self).voxels.spec_depth() == old(self).voxels.spec_depth(),
            forall|x: int, y: int, z: int, level: int| #[trigger]
                final(self)@.node_at(x, y, z, level) == match old(self)@.node_at(x, y, z, level) {
                    Some(r) => Some(
                        if level == old(self)@.depth && touches(selections@, x, y, z) {
                            Tree::refreshed(old(self)@, r)
                        } else {
                            r
                        },
                    ),
                    None => None,
                },
    {
        self.voxels.recalculate_occlusion_for_selections(selections);
    }

    /// Initialise: builds the octree down to the deepest level there is.
    pub fn init(&mut self)
        requires
            old(self).wf(),
        ensures
            final(self)@ == Tree::dense(
                crate::ocnode::Ocnode::spec_top(old(self)@.node, LEVELS),
                LEVELS,
            ),
            final(self).wf(),
            final(self).voxels.spec_lod() == old(self).voxels.spec_lod(),
            final(self).voxels.spec_depth() == LEVELS,
    {
        self.voxels.init();
    }

    /// Switches the smallest cubes at the given positions on or off, gives
    /// them the colour and tags, and optimizes.
    pub fn toggle_voxels(
        &mut self,
        positions: Vec<[i32; 3]>,
        value: bool,
        color: Color,
        camera_eye: Point,
        fluid: i32,
        noise: i32,
    )
        requires
            old(self).wf(),
        ensures
            final(self)@ == old(self)@.toggled_all(
                positions@,
                value,
                color,
                fluid,
                noise,
            ).optimized_by(camera_eye, old(self).voxels.spec_lod()),
            final(self).wf(),
            final(self).voxels.spec_lod() == old(self).voxels.spec_lod(),
            final(self).voxels.spec_depth() == old(self).voxels.spec_depth(),
    {
        self.voxels.toggle_voxels(positions, value, color, camera_eye, fluid, noise);
    }

    /// Determine if all voxels in the list are active.
    pub fn all_voxels_active(&self, positions: &Vec<[i32; 3]>) -> (r: bool)
        requires
            self.wf(),
        ensures
            r == forall|i: int|
                0 <= i < positions@.len() ==> match self@.node_at(
                    (#[trigger] positions@[i])[0] as int,
                    positions@[i][1] as int,
                    positions@[i][2] as int,
                    self@.depth as int,
                ) {
                    Some(n) => n.active,
                    None => true,
                },
    {
        self.voxels.all_voxels_active(positions)
    }

    /// Save a scene: gives the storage for the file at `path` and the
    /// stored form of the octree to write there.
    pub fn save(&self, path: &str) -> (out: (Storage, StoredOctree))
        requires
            self.wf(),
        ensures
            out.0.spec_path() == path@,
            out.1.active_nodes@ == self@.records(true),
    {
        let storage = Storage::new(path);
        let serial = self.voxels.prepare();
        (storage, serial)
    }

    /// Load a scene that was read from its file: restores the octree from
    /// the stored form. Tells how many records were dropped.
    pub fn load(&mut self, loaded: StoredOctree, camera_eye: Point) -> (dropped: usize)
        requires
            old(self).wf(),
        ensures
            final(self)@ == old(self)@.cleared().applied_all(loaded.active_nodes@).optimized_by(
                camera_eye,
                old(self).voxels.spec_lod(),
            ),
            dropped == old(self)@.missing(loaded.active_nodes@),
            final(self).wf(),
            final(self).voxels.spec_lod() == old(self).voxels.spec_lod(),
            final(self).voxels.spec_depth() == old(self).voxels.spec_depth(),
    {
        self.voxels.load_from_serial(loaded, camera_eye)
    }
    /// Toggles the selection of the given shape and radius around the
    /// centre: switches its voxels off if all of them are active, else
    /// on, and calculates again the occlusion around them. Tells whether
    /// it switched the voxels on, and which voxels the selection holds.
    pub fn toggle_selection(
        &mut self,
        center: &[i32; 3],
        radius: i32,
        shape: SelectionShape,
        color: Color,
        camera_eye: Point,
        fluid: i32,
        noise: i32,
    ) -> (out: (bool, Vec<[i32; 3]>))
        requires
            old(self).wf(),
        ensures
            Octree::is_selection(out.1@, *center, radius, shape, old(self).voxels.spec_depth()),
            out.0 == !Octree::all_active(old(self)@, out.1@),
            final(self)@ == ({
                let switched = old(self)@.toggled_all(out.1@, out.0, color, fluid, noise).optimized_by(
                    camera_eye,
                    old(self).voxels.spec_lod(),
                );
                switched.applied_all(switched.refresh_records(out.1@))
            }),
            final(self).wf(),
            final(self).voxels.spec_lod() == old(self).voxels.spec_lod(),
            final(self).voxels.spec_depth() == old(self).voxels.spec_depth(),
    {
        self.voxels.toggle_selection(center, radius, shape, color, camera_eye, fluid, noise)
    }
}

} // verus!
