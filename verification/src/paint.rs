use vstd::prelude::*;
use crate::color::Color;
use crate::edits::agreeing;
use crate::edits::names;
use crate::edits::painted;
use crate::occlusion::Face;
use crate::stored_octree::StoredNode;
use crate::tree::pow2;
use crate::tree::Tree;

verus! {

/// A place in a tree: the x, y and z index of a cube and its level.
pub type Place = (i32, i32, i32, u32);

/// Every place of `before` is a place of `after`.
pub open spec fn within(before: Seq<Place>, after: Seq<Place>) -> bool {
    forall|c: Place| before.contains(c) ==> after.contains(c)
}

/// The sequence `after` is `before` with places added at its end.
pub open spec fn extends(before: Seq<Place>, after: Seq<Place>) -> bool {
    &&& before.len() <= after.len()
    &&& forall|j: int| 0 <= j < before.len() ==> before[j] == after[j]
}

/// A sequence that extends another holds what the other holds.
pub proof fn lemma_extends_within(before: Seq<Place>, after: Seq<Place>)
    requires
        extends(before, after),
    ensures
        within(before, after),
{
    assert forall|c: Place| before.contains(c) implies after.contains(c) by {
        let j = choose|j: int| 0 <= j < before.len() && before[j] == c;
        assert(after[j] == c);
    }
}

/// The order in which painting looks at the faces of a cube.
pub open spec fn paint_face(k: int) -> Face {
    if k == 0 {
        Face::Left
    } else if k == 1 {
        Face::Right
    } else if k == 2 {
        Face::Top
    } else if k == 3 {
        Face::Bottom
    } else if k == 4 {
        Face::Front
    } else {
        Face::Back
    }
}

impl Tree {
    /// The place of the cube that touches the face of the cube at `c`.
    pub open spec fn next_to(self, c: Place, face: Face) -> (int, int, int) {
        let size = pow2((self.depth - c.3) as nat);
        match face {
            Face::Bottom => (c.0 as int, c.1 - size, c.2 as int),
            Face::Top => (c.0 as int, c.1 + size, c.2 as int),
            Face::Left => (c.0 - size, c.1 as int, c.2 as int),
            Face::Right => (c.0 + size, c.1 as int, c.2 as int),
            Face::Front => (c.0 as int, c.1 as int, c.2 - size),
            Face::Back => (c.0 as int, c.1 as int, c.2 + size),
        }
    }

    /// The node at the place, if the tree has one.
    pub open spec fn at_place(self, c: Place) -> Option<StoredNode> {
        self.node_at(c.0 as int, c.1 as int, c.2 as int, c.3 as int)
    }

    /// The tree has a node at the place.
    pub open spec fn has(self, c: Place) -> bool {
        self.node_at(c.0 as int, c.1 as int, c.2 as int, c.3 as int).is_some()
    }

    /// The node at the place.
    pub open spec fn get(self, c: Place) -> StoredNode {
        self.node_at(c.0 as int, c.1 as int, c.2 as int, c.3 as int).unwrap()
    }

    /// Painting passes from the cube at `a` to the cube at `b`: both are
    /// nodes of the tree, `b` touches a face of `a`, and the flag of `a`
    /// says that this face is occluded.
    pub open spec fn passes(self, a: Place, b: Place) -> bool {
        &&& self.has(a)
        &&& self.has(b)
        &&& a.3 == b.3
        &&& exists|k: int|
            0 <= k < 6 && self.get(a).occluded(#[trigger] paint_face(k)) && self.next_to(
                a,
                paint_face(k),
            ) == (b.0 as int, b.1 as int, b.2 as int)
    }

    /// Painting gets from the cube at `a` to the cube at `b` in at most
    /// `n` passes, none of them to a place of `avoid`.
    pub open spec fn reaches(self, a: Place, b: Place, n: nat, avoid: Seq<Place>) -> bool
        decreases n,
    {
        &&& self.has(a)
        &&& (a == b || (n > 0 && exists|m: Place| #[trigger]
            self.passes(a, m) && !avoid.contains(m) && self.reaches(m, b, (n - 1) as nat, avoid)))
    }

    /// Painting gets from the cube at `a` to the cube at `b` without a
    /// pass to a place of `avoid`.
    pub open spec fn connected_past(self, a: Place, b: Place, avoid: Seq<Place>) -> bool {
        exists|n: nat| self.reaches(a, b, n, avoid)
    }

    /// The cube at `b` is in the region that painting from `a` covers.
    pub open spec fn connected(self, a: Place, b: Place) -> bool {
        self.connected_past(a, b, Seq::empty())
    }

    /// How many nodes the tree has at the level that are not among the places.
    pub open spec fn unvisited(self, level: u32, seen: Seq<Place>) -> nat
        decreases self,
    {
        if self.node.level == level {
            if seen.contains((self.node.x, self.node.y, self.node.z, level)) {
                0
            } else {
                1
            }
        } else {
            Tree::unvisited_of(self.children, self.children.len(), level, seen)
        }
    }

    /// The sum of `unvisited` over the first `n` trees.
    pub open spec fn unvisited_of(ts: Seq<Tree>, n: nat, level: u32, seen: Seq<Place>) -> nat
        decreases ts, n,
    {
        if n == 0 || n > ts.len() {
            0
        } else {
            Tree::unvisited_of(ts, (n - 1) as nat, level, seen) + ts[n - 1].unvisited(level, seen)
        }
    }

    /// With more places seen, no more nodes are unvisited.
    pub proof fn lemma_unvisited_monotone(self, level: u32, seen: Seq<Place>, more: Seq<Place>)
        requires
            within(seen, more),
        ensures
            self.unvisited(level, more) <= self.unvisited(level, seen),
        decreases self,
    {
        if self.node.level != level {
            Tree::lemma_unvisited_of_monotone(self.children, self.children.len(), level, seen, more);
        }
    }

    proof fn lemma_unvisited_of_monotone(
        ts: Seq<Tree>,
        n: nat,
        level: u32,
        seen: Seq<Place>,
        more: Seq<Place>,
    )
        requires
            within(seen, more),
        ensures
            Tree::unvisited_of(ts, n, level, more) <= Tree::unvisited_of(ts, n, level, seen),
        decreases ts, n,
    {
        if n > 0 && n <= ts.len() {
            Tree::lemma_unvisited_of_monotone(ts, (n - 1) as nat, level, seen, more);
            ts[n - 1].lemma_unvisited_monotone(level, seen, more);
        }
    }

    /// When a node of the tree that was not among the places seen comes to
    /// be among them, fewer nodes are unvisited.
    pub proof fn lemma_unvisited_decreases(self, c: Place, seen: Seq<Place>, more: Seq<Place>)
        requires
            self.wf(),
            within(seen, more),
            self.has(c),
            !seen.contains(c),
            more.contains(c),
        ensures
            self.unvisited(c.3, more) < self.unvisited(c.3, seen),
        decreases self,
    {
        self.lemma_node_at_inside(c.0 as int, c.1 as int, c.2 as int, c.3 as int);
        if self.node.level != c.3 {
            let k = self.slot_of(c.0 as int, c.1 as int, c.2 as int);
            assert(self.children[k].wf() && self.child_placed(k));
            self.children[k].lemma_unvisited_decreases(c, seen, more);
            Tree::lemma_unvisited_of_decreases(self.children, 8, k, c.3, seen, more);
        }
    }

    proof fn lemma_unvisited_of_decreases(
        ts: Seq<Tree>,
        n: nat,
        k: int,
        level: u32,
        seen: Seq<Place>,
        more: Seq<Place>,
    )
        requires
            within(seen, more),
            0 <= k < n <= ts.len(),
            ts[k].unvisited(level, more) < ts[k].unvisited(level, seen),
        ensures
            Tree::unvisited_of(ts, n, level, more) < Tree::unvisited_of(ts, n, level, seen),
        decreases n,
    {
        if k == n - 1 {
            Tree::lemma_unvisited_of_monotone(ts, (n - 1) as nat, level, seen, more);
        } else {
            Tree::lemma_unvisited_of_decreases(ts, (n - 1) as nat, k, level, seen, more);
            ts[n - 1].lemma_unvisited_monotone(level, seen, more);
        }
    }

    /// Where painting passes from `a` to `m` and gets from `m` to `b`, it
    /// gets from `a` to `b`.
    pub proof fn lemma_connected_step(self, a: Place, m: Place, b: Place, avoid: Seq<Place>)
        requires
            self.passes(a, m),
            !avoid.contains(m),
            self.connected_past(m, b, avoid),
        ensures
            self.connected_past(a, b, avoid),
    {
        let n = choose|n: nat| self.reaches(m, b, n, avoid);
        assert(self.reaches(a, b, n + 1, avoid));
    }

    /// Painting gets from a node of the tree to itself.
    pub proof fn lemma_connected_self(self, a: Place, avoid: Seq<Place>)
        requires
            self.has(a),
        ensures
            self.connected_past(a, a, avoid),
    {
        assert(self.reaches(a, a, 0, avoid));
    }

    /// Where painting gets from `a` to `b` past some places, it gets
    /// there past fewer.
    pub proof fn lemma_reaches_past_fewer(
        self,
        a: Place,
        b: Place,
        n: nat,
        avoid: Seq<Place>,
        fewer: Seq<Place>,
    )
        requires
            within(fewer, avoid),
            self.reaches(a, b, n, avoid),
        ensures
            self.reaches(a, b, n, fewer),
        decreases n,
    {
        if a != b {
            let m = choose|m: Place| #[trigger]
                self.passes(a, m) && !avoid.contains(m) && self.reaches(
                    m,
                    b,
                    (n - 1) as nat,
                    avoid,
                );
            self.lemma_reaches_past_fewer(m, b, (n - 1) as nat, avoid, fewer);
        }
    }

    /// Every cube that painting passes to from the cube at `c` is among
    /// the places.
    pub open spec fn closed_at(self, c: Place, seen: Seq<Place>) -> bool {
        forall|m: Place| #[trigger] self.passes(c, m) ==> seen.contains(m)
    }

    /// What a search from `seed` adds to the places `before`: nothing
    /// where the tree has no node at `seed`; else `seed` first and then,
    /// each once, places not among `before` that painting gets to from
    /// `seed` without a pass to a place of `before`, so that from each
    /// place added painting passes only to places among `after`.
    pub open spec fn flooded(self, seed: Place, before: Seq<Place>, after: Seq<Place>) -> bool {
        &&& extends(before, after)
        &&& (!self.has(seed) ==> after == before)
        &&& (self.has(seed) ==> after.len() > before.len() && after[before.len() as int] == seed)
        &&& forall|j: int|
            before.len() <= j < after.len() ==> self.connected_past(seed, #[trigger] after[j], before)
                && self.closed_at(after[j], after)
        &&& forall|j: int| before.len() < j < after.len() ==> !before.contains(#[trigger] after[j])
        &&& forall|i: int, j: int|
            before.len() <= i < j < after.len() ==> #[trigger] after[i] != #[trigger] after[j]
    }

    /// A cube from which painting passes only to places seen still does so
    /// when more places are seen.
    pub proof fn lemma_closed_at_extends(self, c: Place, seen: Seq<Place>, more: Seq<Place>)
        requires
            self.closed_at(c, seen),
            within(seen, more),
        ensures
            self.closed_at(c, more),
    {
    }

    /// Every cube that painting gets to from a place that a search added,
    /// without a pass to a place seen before the search, is a place that
    /// the search added.
    pub proof fn lemma_flood_closed(
        self,
        seed: Place,
        before: Seq<Place>,
        after: Seq<Place>,
        a: Place,
        b: Place,
        n: nat,
    )
        requires
            self.flooded(seed, before, after),
            after.skip(before.len() as int).contains(a),
            self.reaches(a, b, n, before),
        ensures
            after.skip(before.len() as int).contains(b),
        decreases n,
    {
        let added = after.skip(before.len() as int);
        if a != b {
            let m = choose|m: Place| #[trigger]
                self.passes(a, m) && !before.contains(m) && self.reaches(
                    m,
                    b,
                    (n - 1) as nat,
                    before,
                );
            let j = choose|j: int| 0 <= j < added.len() && added[j] == a;
            assert(after[before.len() + j] == a);
            assert(self.closed_at(after[before.len() + j], after));
            let w = choose|w: int| 0 <= w < after.len() && after[w] == m;
            if w < before.len() {
                assert(before[w] == m);
            }
            assert(added[w - before.len()] == m);
            self.lemma_flood_closed(seed, before, after, m, b, (n - 1) as nat);
        }
    }

    /// A search from `seed` adds exactly the places that painting gets to
    /// from `seed` without a pass to a place seen before.
    pub proof fn lemma_flood_exact(self, seed: Place, before: Seq<Place>, after: Seq<Place>, c: Place)
        requires
            self.flooded(seed, before, after),
        ensures
            after.skip(before.len() as int).contains(c) == self.connected_past(seed, c, before),
    {
        let added = after.skip(before.len() as int);
        if added.contains(c) {
            let j = choose|j: int| 0 <= j < added.len() && added[j] == c;
            assert(after[before.len() + j] == c);
            assert(self.connected_past(seed, after[before.len() + j], before));
        }
        if self.connected_past(seed, c, before) {
            let n = choose|n: nat| self.reaches(seed, c, n, before);
            assert(added[0] == seed);
            self.lemma_flood_closed(seed, before, after, seed, c, n);
        }
    }

    /// From a cube none of whose faces is flagged as occluded, painting
    /// gets to that cube alone.
    pub proof fn lemma_isolated(self, seed: Place, c: Place)
        requires
            self.has(seed),
            forall|k: int| 0 <= k < 6 ==> !self.get(seed).occluded(#[trigger] paint_face(k)),
        ensures
            self.connected(seed, c) == (c == seed),
    {
        let none = Seq::<Place>::empty();
        if self.connected(seed, c) {
            let n = choose|n: nat| self.reaches(seed, c, n, none);
            if c != seed {
                let m = choose|m: Place| #[trigger]
                    self.passes(seed, m) && !none.contains(m) && self.reaches(
                        m,
                        c,
                        (n - 1) as nat,
                        none,
                    );
                assert(false);
            }
        } else {
            if c == seed {
                self.lemma_connected_self(seed, none);
            }
        }
    }

    /// The records that paint the nodes at the places: one for each place
    /// where the tree has a node, in the order of the places.
    pub open spec fn paint_records(self, places: Seq<Place>, color: Color, noise: i32, fluid: i32)
        -> Seq<StoredNode>
        decreases places.len(),
    {
        if places.len() == 0 {
            Seq::empty()
        } else {
            let front = self.paint_records(places.drop_last(), color, noise, fluid);
            if self.has(places.last()) {
                front.push(painted(self.get(places.last()), color, noise, fluid))
            } else {
                front
            }
        }
    }

    /// Every paint record is the painted node of one of the places, and
    /// every place with a node has its record.
    pub proof fn lemma_paint_records(self, places: Seq<Place>, color: Color, noise: i32, fluid: i32)
        requires
            self.wf(),
        ensures
            forall|i: int|
                0 <= i < self.paint_records(places, color, noise, fluid).len() ==> {
                    let t = #[trigger] self.paint_records(places, color, noise, fluid)[i];
                    &&& places.contains((t.x, t.y, t.z, t.level))
                    &&& self.has((t.x, t.y, t.z, t.level))
                    &&& t == painted(self.get((t.x, t.y, t.z, t.level)), color, noise, fluid)
                },
            forall|c: Place|
                places.contains(c) && #[trigger] self.has(c) ==> names(
                    self.paint_records(places, color, noise, fluid),
                    c.0 as int,
                    c.1 as int,
                    c.2 as int,
                    c.3 as int,
                ),
        decreases places.len(),
    {
        let recs = self.paint_records(places, color, noise, fluid);
        if places.len() > 0 {
            let last = places.last();
            let front_places = places.drop_last();
            let front = self.paint_records(front_places, color, noise, fluid);
            self.lemma_paint_records(front_places, color, noise, fluid);
            assert(places[places.len() - 1] == last);
            if self.has(last) {
                self.lemma_node_at_inside(last.0 as int, last.1 as int, last.2 as int, last.3 as int);
            }
            assert forall|i: int| 0 <= i < recs.len() implies {
                let t = #[trigger] recs[i];
                &&& places.contains((t.x, t.y, t.z, t.level))
                &&& self.has((t.x, t.y, t.z, t.level))
                &&& t == painted(self.get((t.x, t.y, t.z, t.level)), color, noise, fluid)
            } by {
                let t = recs[i];
                if i < front.len() {
                    assert(front[i] == t);
                    let c = (t.x, t.y, t.z, t.level);
                    let w = choose|w: int| 0 <= w < front_places.len() && front_places[w] == c;
                    assert(places[w] == front_places[w]);
                }
            }
            assert forall|c: Place| places.contains(c) && #[trigger] self.has(c) implies names(
                recs,
                c.0 as int,
                c.1 as int,
                c.2 as int,
                c.3 as int,
            ) by {
                let w = choose|w: int| 0 <= w < places.len() && places[w] == c;
                if w < places.len() - 1 {
                    assert(front_places[w] == places[w]);
                    assert(front_places.contains(c));
                    let i = choose|i: int|
                        0 <= i < front.len() && (#[trigger] front[i]).at(
                            c.0 as int,
                            c.1 as int,
                            c.2 as int,
                            c.3 as int,
                        );
                    assert(recs[i] == front[i]);
                } else {
                    assert(recs[recs.len() - 1].at(c.0 as int, c.1 as int, c.2 as int, c.3 as int));
                }
            }
        }
    }

    /// After the paint records have been applied, the nodes at the places
    /// are painted and every other node is as it was.
    pub proof fn lemma_painted_node_at(
        self,
        places: Seq<Place>,
        color: Color,
        noise: i32,
        fluid: i32,
        c: Place,
    )
        requires
            self.wf(),
        ensures
            self.applied_all(self.paint_records(places, color, noise, fluid)).node_at(
                c.0 as int,
                c.1 as int,
                c.2 as int,
                c.3 as int,
            ) == if self.has(c) {
                Some(
                    if places.contains(c) {
                        painted(self.get(c), color, noise, fluid)
                    } else {
                        self.get(c)
                    },
                )
            } else {
                None
            },
    {
        let recs = self.paint_records(places, color, noise, fluid);
        let (x, y, z, level) = (c.0 as int, c.1 as int, c.2 as int, c.3 as int);
        self.lemma_paint_records(places, color, noise, fluid);
        self.lemma_applied_all_dom(recs, x, y, z, level);
        if self.has(c) {
            if names(recs, x, y, z, level) {
                let i = choose|i: int| 0 <= i < recs.len() && (#[trigger] recs[i]).at(x, y, z, level);
                assert(agreeing(recs));
                assert((recs[i].x, recs[i].y, recs[i].z, recs[i].level) == c);
                self.lemma_applied_all_hit(recs, i);
            } else {
                self.lemma_applied_all_miss(recs, x, y, z, level);
            }
        }
    }
    /// The place beyond the face of the cube at `c`.
    pub open spec fn beyond(self, c: Place, face: Face) -> Place {
        let p = self.next_to(c, face);
        (p.0 as i32, p.1 as i32, p.2 as i32, c.3)
    }

    /// The places seen after a search from the cube at `c` that began
    /// with the places `seen`, where the search may go `fuel` cubes deep:
    /// `seen` itself where the tree has no node at `c`; else `c` is added,
    /// and then the faces of the cube are looked at in turn.
    pub open spec fn search(self, c: Place, seen: Seq<Place>, fuel: nat) -> Seq<Place>
        decreases fuel, 0nat,
    {
        if fuel == 0 || !self.has(c) {
            seen
        } else {
            self.search_faces(c, seen.push(c), 6, (fuel - 1) as nat)
        }
    }

    /// The places seen after the first `k` faces of the cube at `c` have
    /// been looked at: through a face that is flagged as occluded the
    /// search goes on from the cube beyond it, unless that cube is among
    /// the places seen by then.
    pub open spec fn search_faces(self, c: Place, seen: Seq<Place>, k: nat, fuel: nat) -> Seq<Place>
        decreases fuel, k,
    {
        if k == 0 {
            seen
        } else {
            let so_far = self.search_faces(c, seen, (k - 1) as nat, fuel);
            let face = paint_face(k - 1);
            let next = self.beyond(c, face);
            if self.get(c).occluded(face) && !so_far.contains(next) {
                self.search(next, so_far, fuel)
            } else {
                so_far
            }
        }
    }

    /// How deep a search from the cube at `c` can go at most: it comes to
    /// each node not yet seen at most once.
    pub open spec fn depth_of_search(self, c: Place, seen: Seq<Place>) -> nat {
        self.unvisited(c.3, seen) + if seen.contains(c) {
            2nat
        } else {
            1nat
        }
    }

    /// The places seen after a search from the cube at `c` that began
    /// with the places `seen`.
    pub open spec fn searched(self, c: Place, seen: Seq<Place>) -> Seq<Place> {
        self.search(c, seen, self.depth_of_search(c, seen))
    }
}

} // verus!
