use vstd::prelude::*;
use crate::color::Color;
use crate::stored_octree::StoredNode;
use crate::tree::Tree;

verus! {

/// The records agree: two of them at the same place are the same record.
pub open spec fn agreeing(rs: Seq<StoredNode>) -> bool {
    forall|i: int, j: int|
        0 <= i < rs.len() && 0 <= j < rs.len() && (#[trigger] rs[i]).at(
            rs[j].x as int,
            rs[j].y as int,
            rs[j].z as int,
            rs[j].level as int,
        ) ==> rs[i] == #[trigger] rs[j]
}

/// One of the records is at the given place.
pub open spec fn names(rs: Seq<StoredNode>, x: int, y: int, z: int, level: int) -> bool {
    exists|i: int| 0 <= i < rs.len() && (#[trigger] rs[i]).at(x, y, z, level)
}

/// One of the positions is the given point.
pub open spec fn selects(positions: Seq<[i32; 3]>, x: int, y: int, z: int) -> bool {
    exists|i: int|
        0 <= i < positions.len() && (#[trigger] positions[i])[0] == x && positions[i][1] == y
            && positions[i][2] == z
}

/// The node `r` switched on or off and given a colour and tags; its
/// occlusion flags stay.
pub open spec fn toggled(r: StoredNode, value: bool, color: Color, fluid: i32, noise: i32)
    -> StoredNode {
    StoredNode { active: value, color, fluid, noise, ..r }
}

/// The node `r` given a colour and tags.
pub open spec fn painted(r: StoredNode, color: Color, noise: i32, fluid: i32) -> StoredNode {
    StoredNode { color, fluid, noise, ..r }
}

impl Tree {
    /// The tree after the records have been applied one after the other.
    pub open spec fn applied_all(self, rs: Seq<StoredNode>) -> Tree
        decreases rs.len(),
    {
        if rs.len() == 0 {
            self
        } else {
            self.applied_all(rs.drop_last()).applied(rs.last())
        }
    }

    /// How many of the records are at a place where the tree has no node.
    pub open spec fn missing(self, rs: Seq<StoredNode>) -> nat
        decreases rs.len(),
    {
        if rs.len() == 0 {
            0
        } else {
            let r = rs.last();
            self.missing(rs.drop_last()) + if self.node_at(
                r.x as int,
                r.y as int,
                r.z as int,
                r.level as int,
            ).is_none() {
                1nat
            } else {
                0nat
            }
        }
    }

    /// Applying records keeps the shape of the tree.
    pub proof fn lemma_applied_all_shape(self, rs: Seq<StoredNode>)
        requires
            self.wf(),
        ensures
            self.applied_all(rs).wf(),
            self.complete() ==> self.applied_all(rs).complete(),
            self.applied_all(rs).depth == self.depth,
            self.applied_all(rs).node.at(
                self.node.x as int,
                self.node.y as int,
                self.node.z as int,
                self.node.level as int,
            ),
            self.missing(rs) <= rs.len(),
        decreases rs.len(),
    {
        if rs.len() > 0 {
            self.lemma_applied_all_shape(rs.drop_last());
            self.applied_all(rs.drop_last()).lemma_applied_shape(rs.last());
        }
    }

    /// The tree has a node at a place after records have been applied
    /// exactly if it had one before.
    pub proof fn lemma_applied_all_dom(self, rs: Seq<StoredNode>, x: int, y: int, z: int, level: int)
        requires
            self.wf(),
        ensures
            self.applied_all(rs).node_at(x, y, z, level).is_some() == self.node_at(
                x,
                y,
                z,
                level,
            ).is_some(),
        decreases rs.len(),
    {
        if rs.len() > 0 {
            self.lemma_applied_all_dom(rs.drop_last(), x, y, z, level);
            self.lemma_applied_all_shape(rs.drop_last());
            self.applied_all(rs.drop_last()).lemma_applied_node_at(rs.last(), x, y, z, level);
        }
    }

    /// Where no record is at a place, applying the records leaves the node
    /// there as it is.
    pub proof fn lemma_applied_all_miss(self, rs: Seq<StoredNode>, x: int, y: int, z: int, level: int)
        requires
            self.wf(),
            !names(rs, x, y, z, level),
        ensures
            self.applied_all(rs).node_at(x, y, z, level) == self.node_at(x, y, z, level),
        decreases rs.len(),
    {
        if rs.len() > 0 {
            let front = rs.drop_last();
            assert(!rs.last().at(x, y, z, level)) by {
                assert(rs[rs.len() - 1] == rs.last());
            }
            assert(!names(front, x, y, z, level)) by {
                if names(front, x, y, z, level) {
                    let i = choose|i: int| 0 <= i < front.len() && (#[trigger] front[i]).at(x, y, z, level);
                    assert(rs[i] == front[i]);
                }
            }
            self.lemma_applied_all_miss(front, x, y, z, level);
            self.lemma_applied_all_shape(front);
            self.applied_all(front).lemma_applied_node_at(rs.last(), x, y, z, level);
        }
    }

    /// Where agreeing records are applied and one of them is at a place
    /// where the tree has a node, the tree then has that record there.
    pub proof fn lemma_applied_all_hit(self, rs: Seq<StoredNode>, i: int)
        requires
            self.wf(),
            agreeing(rs),
            0 <= i < rs.len(),
            self.node_at(rs[i].x as int, rs[i].y as int, rs[i].z as int, rs[i].level as int).is_some(),
        ensures
            self.applied_all(rs).node_at(
                rs[i].x as int,
                rs[i].y as int,
                rs[i].z as int,
                rs[i].level as int,
            ) == Some(rs[i]),
        decreases rs.len(),
    {
        let front = rs.drop_last();
        let r = rs[i];
        let (x, y, z, level) = (r.x as int, r.y as int, r.z as int, r.level as int);
        self.lemma_applied_all_shape(front);
        self.lemma_applied_all_dom(front, x, y, z, level);
        self.applied_all(front).lemma_applied_node_at(rs.last(), x, y, z, level);
        if rs.last().at(x, y, z, level) {
            assert(rs[rs.len() - 1] == rs.last());
            assert(rs.last() == r);
        } else {
            assert(i < rs.len() - 1);
            assert(agreeing(front)) by {
                assert forall|a: int, b: int|
                    0 <= a < front.len() && 0 <= b < front.len() && (#[trigger] front[a]).at(
                        front[b].x as int,
                        front[b].y as int,
                        front[b].z as int,
                        front[b].level as int,
                    ) implies front[a] == #[trigger] front[b] by {
                    assert(rs[a] == front[a] && rs[b] == front[b]);
                }
            }
            assert(front[i] == rs[i]);
            self.lemma_applied_all_hit(front, i);
        }
    }
    /// The records that switch the nodes at the given positions, at the
    /// deepest level, on or off: one for each position where the tree has a
    /// node, in the order of the positions.
    pub open spec fn toggle_records(
        self,
        positions: Seq<[i32; 3]>,
        value: bool,
        color: Color,
        fluid: i32,
        noise: i32,
    ) -> Seq<StoredNode>
        decreases positions.len(),
    {
        if positions.len() == 0 {
            Seq::empty()
        } else {
            let p = positions.last();
            let front = self.toggle_records(positions.drop_last(), value, color, fluid, noise);
            match self.node_at(p[0] as int, p[1] as int, p[2] as int, self.depth as int) {
                Some(r) => front.push(toggled(r, value, color, fluid, noise)),
                None => front,
            }
        }
    }

    /// The tree after the nodes at the given positions, at the deepest
    /// level, have been switched on or off and given a colour and tags.
    pub open spec fn toggled_all(
        self,
        positions: Seq<[i32; 3]>,
        value: bool,
        color: Color,
        fluid: i32,
        noise: i32,
    ) -> Tree {
        self.applied_all(self.toggle_records(positions, value, color, fluid, noise))
    }

    /// Every toggle record is the toggled node of one of the positions, and
    /// every position with a node has its record.
    pub proof fn lemma_toggle_records(
        self,
        positions: Seq<[i32; 3]>,
        value: bool,
        color: Color,
        fluid: i32,
        noise: i32,
    )
        requires
            self.wf(),
        ensures
            forall|i: int|
                0 <= i < self.toggle_records(positions, value, color, fluid, noise).len() ==> {
                    let t = #[trigger] self.toggle_records(positions, value, color, fluid, noise)[i];
                    &&& t.level == self.depth
                    &&& selects(positions, t.x as int, t.y as int, t.z as int)
                    &&& self.node_at(t.x as int, t.y as int, t.z as int, t.level as int).is_some()
                    &&& t == toggled(
                        self.node_at(t.x as int, t.y as int, t.z as int, t.level as int).unwrap(),
                        value,
                        color,
                        fluid,
                        noise,
                    )
                },
            forall|x: int, y: int, z: int|
                selects(positions, x, y, z) && (#[trigger] self.node_at(
                    x,
                    y,
                    z,
                    self.depth as int,
                )).is_some() ==> names(
                    self.toggle_records(positions, value, color, fluid, noise),
                    x,
                    y,
                    z,
                    self.depth as int,
                ),
        decreases positions.len(),
    {
        let recs = self.toggle_records(positions, value, color, fluid, noise);
        if positions.len() > 0 {
            let p = positions.last();
            let front_positions = positions.drop_last();
            let front = self.toggle_records(front_positions, value, color, fluid, noise);
            self.lemma_toggle_records(front_positions, value, color, fluid, noise);
            let found = self.node_at(p[0] as int, p[1] as int, p[2] as int, self.depth as int);
            if found.is_some() {
                self.lemma_node_at_inside(p[0] as int, p[1] as int, p[2] as int, self.depth as int);
            }
            assert forall|i: int| 0 <= i < recs.len() implies {
                let t = #[trigger] recs[i];
                &&& t.level == self.depth
                &&& selects(positions, t.x as int, t.y as int, t.z as int)
                &&& self.node_at(t.x as int, t.y as int, t.z as int, t.level as int).is_some()
                &&& t == toggled(
                    self.node_at(t.x as int, t.y as int, t.z as int, t.level as int).unwrap(),
                    value,
                    color,
                    fluid,
                    noise,
                )
            } by {
                let t = recs[i];
                if i < front.len() {
                    assert(front[i] == t);
                    let w = choose|w: int|
                        0 <= w < front_positions.len() && (#[trigger] front_positions[w])[0] == t.x
                            && front_positions[w][1] == t.y && front_positions[w][2] == t.z;
                    assert(positions[w] == front_positions[w]);
                } else {
                    assert(positions[positions.len() - 1] == p);
                }
            }
            assert forall|x: int, y: int, z: int|
                selects(positions, x, y, z) && (#[trigger] self.node_at(
                    x,
                    y,
                    z,
                    self.depth as int,
                )).is_some() implies names(recs, x, y, z, self.depth as int) by {
                let w = choose|w: int|
                    0 <= w < positions.len() && (#[trigger] positions[w])[0] == x && positions[w][1]
                        == y && positions[w][2] == z;
                if w < positions.len() - 1 {
                    assert(front_positions[w] == positions[w]);
                    assert(selects(front_positions, x, y, z));
                    let i = choose|i: int|
                        0 <= i < front.len() && (#[trigger] front[i]).at(x, y, z, self.depth as int);
                    assert(recs[i] == front[i]);
                } else {
                    assert(recs[recs.len() - 1].at(x, y, z, self.depth as int));
                }
            }
        }
    }

    /// After a toggle the tree has the nodes it had; those at the deepest
    /// level whose index is among the positions are switched and coloured,
    /// the others are as they were.
    pub proof fn lemma_toggled_node_at(
        self,
        positions: Seq<[i32; 3]>,
        value: bool,
        color: Color,
        fluid: i32,
        noise: i32,
        x: int,
        y: int,
        z: int,
        level: int,
    )
        requires
            self.wf(),
        ensures
            self.toggled_all(positions, value, color, fluid, noise).node_at(x, y, z, level)
                == match self.node_at(x, y, z, level) {
                Some(r) => Some(
                    if level == self.depth && selects(positions, x, y, z) {
                        toggled(r, value, color, fluid, noise)
                    } else {
                        r
                    },
                ),
                None => None,
            },
    {
        let recs = self.toggle_records(positions, value, color, fluid, noise);
        self.lemma_toggle_records(positions, value, color, fluid, noise);
        self.lemma_applied_all_dom(recs, x, y, z, level);
        if self.node_at(x, y, z, level).is_some() {
            if names(recs, x, y, z, level) {
                let i = choose|i: int| 0 <= i < recs.len() && (#[trigger] recs[i]).at(x, y, z, level);
                assert(agreeing(recs));
                self.lemma_applied_all_hit(recs, i);
            } else {
                self.lemma_applied_all_miss(recs, x, y, z, level);
            }
        }
    }
    /// A cleared tree lacks a node wherever the tree lacks one.
    pub proof fn lemma_missing_cleared(self, rs: Seq<StoredNode>)
        requires
            self.wf(),
        ensures
            self.cleared().missing(rs) == self.missing(rs),
        decreases rs.len(),
    {
        if rs.len() > 0 {
            let r = rs.last();
            self.lemma_missing_cleared(rs.drop_last());
            self.lemma_cleared_node_at(r.x as int, r.y as int, r.z as int, r.level as int);
        }
    }
}

} // verus!
