use vstd::prelude::*;
use crate::point::Point;
use crate::point::UNIT;
use crate::stored_octree::StoredNode;
use crate::tree::Tree;

verus! {

impl Tree {
    /// Four times the squared distance between the eye and the centre of
    /// the top node's cube, in fixed-point units.
    pub open spec fn eye_distance(self, eye: Point) -> int {
        let dx = (2 * self.node.x + self.size()) * UNIT - 2 * eye[0];
        let dy = (2 * self.node.y + self.size()) * UNIT - 2 * eye[1];
        let dz = (2 * self.node.z + self.size()) * UNIT - 2 * eye[2];
        dx * dx + dy * dy + dz * dz
    }

    /// The top node is far from the eye: its distance, divided by the
    /// number of levels below it, is more than `threshold` voxel edges.
    pub open spec fn far(self, eye: Point, threshold: u32) -> bool {
        let reach = 2 * UNIT * threshold * (self.depth - self.node.level);
        self.eye_distance(eye) > reach * reach
    }

    /// The last active node among the tops of the first `n` trees.
    pub open spec fn last_active(kids: Seq<Tree>, n: nat) -> Option<StoredNode>
        decreases n,
    {
        if n == 0 || n > kids.len() {
            None
        } else if kids[n - 1].node.active {
            Some(kids[n - 1].node)
        } else {
            Tree::last_active(kids, (n - 1) as nat)
        }
    }

    /// The tops of the first `n` trees are all active.
    pub open spec fn all_active(kids: Seq<Tree>, n: nat) -> bool {
        forall|k: int| 0 <= k < n ==> (#[trigger] kids[k]).node.active
    }

    /// The tops of the first `n` trees are all uniform with `probe`.
    pub open spec fn all_uniform(kids: Seq<Tree>, n: nat, probe: StoredNode) -> bool {
        forall|k: int| 0 <= k < n ==> probe.spec_uniform((#[trigger] kids[k]).node)
    }

    /// What the top node holds after its children `kids` have been looked
    /// at: with no active child it is inactive; else it has the colour and
    /// tags of the last active child, and is active if it is far from the
    /// eye or if all its children are active and uniform.
    pub open spec fn collapsed(self, kids: Seq<Tree>, eye: Point, threshold: u32) -> StoredNode {
        match Tree::last_active(kids, 8) {
            None => StoredNode { active: false, ..self.node },
            Some(p) => StoredNode {
                active: self.far(eye, threshold) || (Tree::all_active(kids, 8)
                    && Tree::all_uniform(kids, 8, p)),
                color: p.color,
                fluid: p.fluid,
                noise: p.noise,
                ..self.node
            },
        }
    }

    /// The tree after every node with children, from the deepest up, has
    /// been collapsed or opened by the rule of `collapsed`.
    pub open spec fn optimized(self, eye: Point, threshold: u32) -> Tree
        decreases self,
    {
        if self.children.len() != 8 {
            self
        } else {
            let kids = Seq::new(
                8,
                |k: int|
                    if 0 <= k < 8 {
                        self.children[k].optimized(eye, threshold)
                    } else {
                        self
                    },
            );
            Tree { node: self.collapsed(kids, eye, threshold), depth: self.depth, children: kids }
        }
    }

    /// Optimizing keeps the shape of the tree.
    pub proof fn lemma_optimized_shape(self, eye: Point, threshold: u32)
        requires
            self.wf(),
        ensures
            self.optimized(eye, threshold).wf(),
            self.complete() ==> self.optimized(eye, threshold).complete(),
            self.optimized(eye, threshold).depth == self.depth,
            self.optimized(eye, threshold).children.len() == self.children.len(),
            self.optimized(eye, threshold).node.at(
                self.node.x as int,
                self.node.y as int,
                self.node.z as int,
                self.node.level as int,
            ),
            self.children.len() == 0 ==> self.optimized(eye, threshold) == self,
        decreases self,
    {
        let after = self.optimized(eye, threshold);
        if self.children.len() == 8 {
            assert forall|j: int| 0 <= j < 8 implies (#[trigger] after.children[j]).wf()
                && after.child_placed(j) && (self.complete() ==> after.children[j].complete()) by {
                assert(self.children[j].wf() && self.child_placed(j));
                assert(self.complete() ==> self.children[j].complete());
                self.children[j].lemma_optimized_shape(eye, threshold);
            }
        }
    }

    /// Optimizing leaves the nodes at the deepest level of a complete tree
    /// as they are.
    pub proof fn lemma_optimized_finest(self, eye: Point, threshold: u32, x: int, y: int, z: int)
        requires
            self.wf(),
            self.complete(),
        ensures
            self.optimized(eye, threshold).node_at(x, y, z, self.depth as int) == self.node_at(
                x,
                y,
                z,
                self.depth as int,
            ),
        decreases self,
    {
        if self.children.len() == 8 && self.covers(x, y, z) {
            let j = self.slot_of(x, y, z);
            assert(self.children[j].wf() && self.child_placed(j));
            assert(self.children[j].complete());
            self.children[j].lemma_optimized_finest(eye, threshold, x, y, z);
        }
    }

    /// Optimizing leaves the list of active leaves as it is.
    pub proof fn lemma_optimized_leaves(self, eye: Point, threshold: u32)
        ensures
            self.optimized(eye, threshold).records(true) == self.records(true),
        decreases self,
    {
        if self.children.len() == 8 {
            let after = self.optimized(eye, threshold);
            Tree::lemma_optimized_leaves_of(self.children, 8, eye, threshold);
            assert(after.children =~= Seq::new(
                8,
                |k: int| self.children[k].optimized(eye, threshold),
            ));
        }
    }

    proof fn lemma_optimized_leaves_of(ts: Seq<Tree>, n: nat, eye: Point, threshold: u32)
        requires
            n <= ts.len(),
        ensures
            Tree::records_of(
                Seq::new(ts.len(), |k: int| ts[k].optimized(eye, threshold)),
                n,
                true,
            ) == Tree::records_of(ts, n, true),
        decreases ts, n,
    {
        if n > 0 {
            Tree::lemma_optimized_leaves_of(ts, (n - 1) as nat, eye, threshold);
            ts[n - 1].lemma_optimized_leaves(eye, threshold);
        }
    }
    /// The tree optimized where a threshold is set, and as it is where
    /// none is.
    pub open spec fn optimized_by(self, eye: Point, lod: Option<u32>) -> Tree {
        match lod {
            Some(threshold) => self.optimized(eye, threshold),
            None => self,
        }
    }
    /// The tops of the eight trees are uniform with each other.
    pub open spec fn mutually_uniform(kids: Seq<Tree>) -> bool {
        forall|i: int, j: int|
            0 <= i < 8 && 0 <= j < 8 ==> (#[trigger] kids[i]).node.spec_uniform(
                (#[trigger] kids[j]).node,
            )
    }

    /// Where all eight children are active, they are all uniform with the
    /// last of them exactly if they are uniform with each other: a cube
    /// near the eye is collapsed exactly if its children are all active
    /// and mutually uniform.
    pub proof fn law_collapse_of_uniform_children(self, kids: Seq<Tree>, eye: Point, threshold: u32)
        requires
            kids.len() == 8,
            Tree::all_active(kids, 8),
            !self.far(eye, threshold),
        ensures
            Tree::last_active(kids, 8) == Some(kids[7].node),
            self.collapsed(kids, eye, threshold).active == Tree::mutually_uniform(kids),
    {
        let p = kids[7].node;
        assert(kids[7].node.active);
        if Tree::all_uniform(kids, 8, p) {
            assert forall|i: int, j: int| 0 <= i < 8 && 0 <= j < 8 implies (#[trigger] kids[i]).node.spec_uniform(
                (#[trigger] kids[j]).node,
            ) by {
                assert(p.spec_uniform(kids[i].node));
                assert(p.spec_uniform(kids[j].node));
                p.lemma_uniform_symmetric(kids[i].node);
                kids[i].node.lemma_uniform_transitive(p, kids[j].node);
            }
        }
        if Tree::mutually_uniform(kids) {
            assert forall|k: int| 0 <= k < 8 implies p.spec_uniform((#[trigger] kids[k]).node) by {
                assert(kids[7].node.spec_uniform(kids[k].node));
            }
        }
    }
}

} // verus!
