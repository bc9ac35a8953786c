use vstd::prelude::*;
use crate::stored_octree::StoredNode;
use crate::tree::pow2;
use crate::tree::Tree;

verus! {

/// The six faces of a cube. Left and right are towards lower and higher
/// x, bottom and top towards lower and higher y, front and back towards
/// lower and higher z.
#[derive(Clone, Copy, Debug, PartialEq, Eq, Structural)]
pub enum Face {
    Bottom,
    Left,
    Right,
    Front,
    Back,
    Top,
}

impl Face {
    /// The face on the other side of the cube.
    pub open spec fn opposite(self) -> Face {
        match self {
            Face::Bottom => Face::Top,
            Face::Top => Face::Bottom,
            Face::Left => Face::Right,
            Face::Right => Face::Left,
            Face::Front => Face::Back,
            Face::Back => Face::Front,
        }
    }
}

impl StoredNode {
    /// The cached flag that tells whether the face is occluded.
    pub open spec fn occluded(self, face: Face) -> bool {
        match face {
            Face::Bottom => self.bottom_occluded,
            Face::Top => self.top_occluded,
            Face::Left => self.left_occluded,
            Face::Right => self.right_occluded,
            Face::Front => self.front_occluded,
            Face::Back => self.back_occluded,
        }
    }

    /// The index of the cube of the same size that touches the face of a
    /// cube at this node's place, where cubes at its level have edge `size`.
    pub open spec fn beside(self, face: Face, size: int) -> (int, int, int) {
        match face {
            Face::Bottom => (self.x as int, self.y - size, self.z as int),
            Face::Top => (self.x as int, self.y + size, self.z as int),
            Face::Left => (self.x - size, self.y as int, self.z as int),
            Face::Right => (self.x + size, self.y as int, self.z as int),
            Face::Front => (self.x as int, self.y as int, self.z - size),
            Face::Back => (self.x as int, self.y as int, self.z + size),
        }
    }
}

/// The seven steps of a neighbourhood: none, and one step either way
/// along each axis.
pub open spec fn step(k: int) -> (int, int, int) {
    if k == 1 {
        (1, 0, 0)
    } else if k == 2 {
        (-1, 0, 0)
    } else if k == 3 {
        (0, 1, 0)
    } else if k == 4 {
        (0, -1, 0)
    } else if k == 5 {
        (0, 0, 1)
    } else if k == 6 {
        (0, 0, -1)
    } else {
        (0, 0, 0)
    }
}

/// The point is the position `p` or one step from it along one axis.
pub open spec fn adjacent(p: [i32; 3], x: int, y: int, z: int) -> bool {
    exists|k: int|
        0 <= k < 7 && x == p[0] + (#[trigger] step(k)).0 && y == p[1] + step(k).1 && z == p[2]
            + step(k).2
}

/// The point is one of the positions or one step from one of them.
pub open spec fn touches(positions: Seq<[i32; 3]>, x: int, y: int, z: int) -> bool {
    exists|i: int| 0 <= i < positions.len() && adjacent(#[trigger] positions[i], x, y, z)
}

impl Tree {
    /// The node that touches the face of `r`: the one at the level of `r`,
    /// one edge length away.
    pub open spec fn neighbor(self, r: StoredNode, face: Face) -> Option<StoredNode> {
        let p = r.beside(face, pow2((self.depth - r.level) as nat));
        self.node_at(p.0, p.1, p.2, r.level as int)
    }

    /// The face of `r` is hidden: the tree has a neighbour there, which is
    /// active and uniform with `r`.
    pub open spec fn hides(self, r: StoredNode, face: Face) -> bool {
        match self.neighbor(r, face) {
            Some(n) => n.active && r.spec_uniform(n),
            None => false,
        }
    }

    /// The node `r` with each occlusion flag set to what the tree gives.
    pub open spec fn with_occlusion(self, r: StoredNode) -> StoredNode {
        StoredNode {
            front_occluded: self.hides(r, Face::Front),
            back_occluded: self.hides(r, Face::Back),
            top_occluded: self.hides(r, Face::Top),
            bottom_occluded: self.hides(r, Face::Bottom),
            left_occluded: self.hides(r, Face::Left),
            right_occluded: self.hides(r, Face::Right),
            ..r
        }
    }

    /// What the node holds after its occlusion has been calculated again
    /// against `root`: an inactive node keeps its flags.
    pub open spec fn refreshed(root: Tree, r: StoredNode) -> StoredNode {
        if r.active {
            root.with_occlusion(r)
        } else {
            r
        }
    }

    /// The tree with the occlusion flags of each active node calculated
    /// again against `root`.
    pub open spec fn occluded_in(self, root: Tree) -> Tree
        decreases self,
    {
        Tree {
            node: Tree::refreshed(root, self.node),
            depth: self.depth,
            children: Seq::new(
                self.children.len(),
                |k: int|
                    if 0 <= k < self.children.len() {
                        self.children[k].occluded_in(root)
                    } else {
                        self
                    },
            ),
        }
    }

    /// Calculating occlusion keeps the shape of the tree.
    pub proof fn lemma_occluded_shape(self, root: Tree)
        requires
            self.wf(),
        ensures
            self.occluded_in(root).wf(),
            self.complete() ==> self.occluded_in(root).complete(),
            self.occluded_in(root).depth == self.depth,
            self.occluded_in(root).children.len() == self.children.len(),
            self.occluded_in(root).node == Tree::refreshed(root, self.node),
        decreases self,
    {
        let after = self.occluded_in(root);
        assert forall|j: int| 0 <= j < after.children.len() implies (#[trigger] after.children[j]).wf()
            && after.child_placed(j) && (self.complete() ==> after.children[j].complete()) by {
            assert(self.children[j].wf() && self.child_placed(j));
            assert(self.complete() ==> self.children[j].complete());
            self.children[j].lemma_occluded_shape(root);
        }
    }

    /// After occlusion has been calculated, the tree has the nodes it had,
    /// each refreshed.
    pub proof fn lemma_occluded_node_at(self, root: Tree, x: int, y: int, z: int, level: int)
        requires
            self.wf(),
        ensures
            self.occluded_in(root).node_at(x, y, z, level) == match self.node_at(x, y, z, level) {
                Some(r) => Some(Tree::refreshed(root, r)),
                None => None,
            },
        decreases self,
    {
        if level != self.node.level && self.node.level < level && self.children.len() == 8
            && self.covers(x, y, z) {
            let j = self.slot_of(x, y, z);
            assert(self.children[j].wf() && self.child_placed(j));
            self.children[j].lemma_occluded_node_at(root, x, y, z, level);
        }
    }
    /// The record of the node at the deepest level with the given index,
    /// with its occlusion calculated, if there is such a node and it is
    /// active; else nothing.
    pub open spec fn refresh_record(self, x: int, y: int, z: int) -> Seq<StoredNode> {
        match self.node_at(x, y, z, self.depth as int) {
            Some(r) => if r.active {
                seq![self.with_occlusion(r)]
            } else {
                Seq::empty()
            },
            None => Seq::empty(),
        }
    }
    /// The records of `refresh_record` for the position `p` moved by each
    /// of the first `n` steps.
    pub open spec fn near_records(self, p: [i32; 3], n: nat) -> Seq<StoredNode>
        decreases n,
    {
        if n == 0 {
            Seq::empty()
        } else {
            let d = step(n - 1);
            self.near_records(p, (n - 1) as nat) + self.refresh_record(
                p[0] + d.0,
                p[1] + d.1,
                p[2] + d.2,
            )
        }
    }

    /// The records that calculate again the occlusion of the active nodes
    /// at the deepest level that are at one of the positions or one step
    /// from it.
    pub open spec fn refresh_records(self, positions: Seq<[i32; 3]>) -> Seq<StoredNode>
        decreases positions.len(),
    {
        if positions.len() == 0 {
            Seq::empty()
        } else {
            self.refresh_records(positions.drop_last()) + self.near_records(positions.last(), 7)
        }
    }

    /// The record is that of an active node of the tree at the deepest
    /// level, with its occlusion calculated.
    pub open spec fn is_refresh(self, t: StoredNode) -> bool {
        &&& t.level == self.depth
        &&& self.refresh_record(t.x as int, t.y as int, t.z as int) == seq![t]
    }

    /// Each record made near `p` is that of an active node near `p`.
    pub proof fn lemma_near_records_sound(self, p: [i32; 3], n: nat, t: StoredNode)
        requires
            self.wf(),
            n <= 7,
            self.near_records(p, n).contains(t),
        ensures
            self.is_refresh(t),
            adjacent(p, t.x as int, t.y as int, t.z as int),
        decreases n,
    {
        if n > 0 {
            let d = step(n - 1);
            let last = self.refresh_record(p[0] + d.0, p[1] + d.1, p[2] + d.2);
            crate::tree::lemma_concat_contains(self.near_records(p, (n - 1) as nat), last, t);
            if last.contains(t) {
                self.lemma_refresh_record(p[0] + d.0, p[1] + d.1, p[2] + d.2);
                assert(last[0] == t);
            } else {
                self.lemma_near_records_sound(p, (n - 1) as nat, t);
            }
        }
    }

    /// A record of `refresh_record` is at the place asked for.
    pub proof fn lemma_refresh_record(self, x: int, y: int, z: int)
        requires
            self.wf(),
            self.refresh_record(x, y, z).len() > 0,
        ensures
            self.refresh_record(x, y, z).len() == 1,
            self.refresh_record(x, y, z)[0].at(x, y, z, self.depth as int),
            self.is_refresh(self.refresh_record(x, y, z)[0]),
    {
        self.lemma_node_at_inside(x, y, z, self.depth as int);
    }

    /// The record of each active node near `p` is among those made near `p`.
    pub proof fn lemma_near_records_complete(self, p: [i32; 3], n: nat, k: int)
        requires
            self.wf(),
            0 <= k < n <= 7,
            self.refresh_record(p[0] + step(k).0, p[1] + step(k).1, p[2] + step(k).2).len() > 0,
        ensures
            self.near_records(p, n).contains(
                self.refresh_record(p[0] + step(k).0, p[1] + step(k).1, p[2] + step(k).2)[0],
            ),
        decreases n,
    {
        let d = step(n - 1);
        let last = self.refresh_record(p[0] + d.0, p[1] + d.1, p[2] + d.2);
        let t = self.refresh_record(p[0] + step(k).0, p[1] + step(k).1, p[2] + step(k).2)[0];
        crate::tree::lemma_concat_contains(self.near_records(p, (n - 1) as nat), last, t);
        if k == n - 1 {
            assert(last[0] == t);
        } else {
            self.lemma_near_records_complete(p, (n - 1) as nat, k);
        }
    }

    /// Each refresh record is that of an active node that touches the positions.
    pub proof fn lemma_refresh_records_sound(self, positions: Seq<[i32; 3]>, t: StoredNode)
        requires
            self.wf(),
            self.refresh_records(positions).contains(t),
        ensures
            self.is_refresh(t),
            touches(positions, t.x as int, t.y as int, t.z as int),
        decreases positions.len(),
    {
        if positions.len() > 0 {
            let front = positions.drop_last();
            let p = positions.last();
            crate::tree::lemma_concat_contains(
                self.refresh_records(front),
                self.near_records(p, 7),
                t,
            );
            if self.near_records(p, 7).contains(t) {
                self.lemma_near_records_sound(p, 7, t);
                assert(positions[positions.len() - 1] == p);
            } else {
                self.lemma_refresh_records_sound(front, t);
                let a = choose|a: int|
                    0 <= a < front.len() && adjacent(
                        #[trigger] front[a],
                        t.x as int,
                        t.y as int,
                        t.z as int,
                    );
                assert(positions[a] == front[a]);
            }
        }
    }

    /// The record of each active node that touches the positions is among
    /// the refresh records.
    pub proof fn lemma_refresh_records_complete(self, positions: Seq<[i32; 3]>, x: int, y: int, z: int)
        requires
            self.wf(),
            touches(positions, x, y, z),
            self.refresh_record(x, y, z).len() > 0,
        ensures
            self.refresh_records(positions).contains(self.refresh_record(x, y, z)[0]),
        decreases positions.len(),
    {
        let t = self.refresh_record(x, y, z)[0];
        let front = positions.drop_last();
        let p = positions.last();
        crate::tree::lemma_concat_contains(self.refresh_records(front), self.near_records(p, 7), t);
        if adjacent(p, x, y, z) {
            let k = choose|k: int|
                0 <= k < 7 && x == p[0] + (#[trigger] step(k)).0 && y == p[1] + step(k).1 && z
                    == p[2] + step(k).2;
            self.lemma_near_records_complete(p, 7, k);
        } else {
            let a = choose|a: int| 0 <= a < positions.len() && adjacent(#[trigger] positions[a], x, y, z);
            assert(a < positions.len() - 1) by {
                assert(positions[positions.len() - 1] == p);
            }
            assert(front[a] == positions[a]);
            assert(touches(front, x, y, z));
            self.lemma_refresh_records_complete(front, x, y, z);
        }
    }

    /// After the refresh records have been applied, the active nodes at
    /// the deepest level that touch the positions have the occlusion that
    /// a calculation over the whole tree gives, and every other node is as
    /// it was.
    pub proof fn lemma_refreshed_node_at(
        self,
        positions: Seq<[i32; 3]>,
        x: int,
        y: int,
        z: int,
        level: int,
    )
        requires
            self.wf(),
        ensures
            self.applied_all(self.refresh_records(positions)).node_at(x, y, z, level)
                == match self.node_at(x, y, z, level) {
                Some(r) => Some(
                    if level == self.depth && touches(positions, x, y, z) {
                        Tree::refreshed(self, r)
                    } else {
                        r
                    },
                ),
                None => None,
            },
    {
        let recs = self.refresh_records(positions);
        self.lemma_applied_all_dom(recs, x, y, z, level);
        assert(crate::edits::agreeing(recs)) by {
            assert forall|i: int, j: int|
                0 <= i < recs.len() && 0 <= j < recs.len() && (#[trigger] recs[i]).at(
                    recs[j].x as int,
                    recs[j].y as int,
                    recs[j].z as int,
                    recs[j].level as int,
                ) implies recs[i] == #[trigger] recs[j] by {
                self.lemma_refresh_records_sound(positions, recs[i]);
                self.lemma_refresh_records_sound(positions, recs[j]);
                assert(seq![recs[i]][0] == seq![recs[j]][0]);
            }
        }
        if self.node_at(x, y, z, level).is_some() {
            self.lemma_node_at_inside(x, y, z, level);
            if crate::edits::names(recs, x, y, z, level) {
                let w = choose|w: int| 0 <= w < recs.len() && (#[trigger] recs[w]).at(x, y, z, level);
                self.lemma_refresh_records_sound(positions, recs[w]);
                self.lemma_applied_all_hit(recs, w);
                assert(self.refresh_record(x, y, z)[0] == recs[w]);
            } else {
                self.lemma_applied_all_miss(recs, x, y, z, level);
                if level == self.depth && touches(positions, x, y, z) && self.node_at(
                    x,
                    y,
                    z,
                    level,
                ).unwrap().active {
                    self.lemma_refresh_records_complete(positions, x, y, z);
                    let t = self.refresh_record(x, y, z)[0];
                    let w = choose|w: int| 0 <= w < recs.len() && recs[w] == t;
                    assert(recs[w].at(x, y, z, level));
                }
            }
        }
    }
}

} // verus!
