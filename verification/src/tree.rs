use vstd::prelude::*;
use crate::stored_octree::StoredNode;

verus! {

/// The deepest subdivision a tree can be built with.
pub const LEVELS: u32 = 8;

/// Two to the power `n`.
pub open spec fn pow2(n: nat) -> int
    decreases n,
{
    if n == 0 {
        1
    } else {
        2 * pow2((n - 1) as nat)
    }
}

/// Powers of two are positive, and at most 128 up to the seventh.
pub proof fn lemma_pow2_bounds(n: nat)
    ensures
        pow2(n) >= 1,
        n <= 7 ==> pow2(n) <= 128,
        n >= 1 ==> pow2(n) == 2 * pow2((n - 1) as nat),
{
    reveal_with_fuel(pow2, 9);
    if n > 7 {
        lemma_pow2_positive(n);
    }
}

proof fn lemma_pow2_positive(n: nat)
    ensures
        pow2(n) >= 1,
    decreases n,
{
    if n > 0 {
        lemma_pow2_positive((n - 1) as nat);
    }
}

/// A power of two is the product of two lesser ones.
pub proof fn lemma_pow2_split(a: nat, b: nat)
    requires
        b <= a,
    ensures
        pow2(a) == pow2((a - b) as nat) * pow2(b),
    decreases a - b,
{
    if a > b {
        lemma_pow2_split((a - 1) as nat, b);
        assert(2 * (pow2((a - 1 - b) as nat) * pow2(b)) == (2 * pow2((a - 1 - b) as nat)) * pow2(b))
            by (nonlinear_arith);
    } else {
        assert(pow2(0) == 1);
        assert(1 * pow2(b) == pow2(b)) by (nonlinear_arith);
    }
}

/// Taking a multiple of `m` off a number does not change what is left
/// when it is divided by `m`.
pub proof fn lemma_shift_aligned(v: int, q: int, m: int)
    requires
        m > 0,
    ensures
        (v - q * m) % m == v % m,
{
    vstd::arithmetic::div_mod::lemma_mod_multiples_vanish(-q, v, m);
    assert(m * (-q) + v == v - q * m) by (nonlinear_arith);
}

/// The place among its parent's eight children of the child that lies in
/// the upper half along the axes given.
pub open spec fn slot(dx: bool, dy: bool, dz: bool) -> int {
    if dx {
        if dy {
            if dz { 7 } else { 4 }
        } else {
            if dz { 6 } else { 1 }
        }
    } else {
        if dy {
            if dz { 5 } else { 2 }
        } else {
            if dz { 3 } else { 0 }
        }
    }
}

/// The child at place `k` lies in the upper half along x.
pub open spec fn slot_dx(k: int) -> bool {
    k == 1 || k == 4 || k == 6 || k == 7
}

/// The child at place `k` lies in the upper half along y.
pub open spec fn slot_dy(k: int) -> bool {
    k == 2 || k == 4 || k == 5 || k == 7
}

/// The child at place `k` lies in the upper half along z.
pub open spec fn slot_dz(k: int) -> bool {
    k == 3 || k == 5 || k == 6 || k == 7
}

/// A sequence made of two holds what either of them holds.
pub proof fn lemma_concat_contains<T>(a: Seq<T>, b: Seq<T>, r: T)
    ensures
        (a + b).contains(r) == (a.contains(r) || b.contains(r)),
{
    if a.contains(r) {
        let i = choose|i: int| 0 <= i < a.len() && a[i] == r;
        assert((a + b)[i] == r);
    }
    if b.contains(r) {
        let i = choose|i: int| 0 <= i < b.len() && b[i] == r;
        assert((a + b)[a.len() + i] == r);
    }
    if (a + b).contains(r) {
        let i = choose|i: int| 0 <= i < (a + b).len() && (a + b)[i] == r;
        if i < a.len() {
            assert(a[i] == r);
        } else {
            assert(b[i - a.len()] == r);
        }
    }
}

/// What a tree of nodes is, apart from how it is held in memory: the node
/// at its top, the depth of the whole tree it belongs to, and the trees
/// below it.
pub struct Tree {
    pub node: StoredNode,
    pub depth: u32,
    pub children: Seq<Tree>,
}

impl Tree {
    /// The edge length of the top node, in units of the smallest voxel.
    pub open spec fn size(self) -> int {
        pow2((self.depth - self.node.level) as nat)
    }

    /// The edge length of the children of the top node.
    pub open spec fn half(self) -> int {
        pow2((self.depth - self.node.level - 1) as nat)
    }

    /// The point lies in the cube that the top node covers.
    pub open spec fn covers(self, x: int, y: int, z: int) -> bool {
        &&& self.node.x <= x < self.node.x + self.size()
        &&& self.node.y <= y < self.node.y + self.size()
        &&& self.node.z <= z < self.node.z + self.size()
    }

    /// The place of the child whose cube holds the point.
    pub open spec fn slot_of(self, x: int, y: int, z: int) -> int {
        slot(
            x >= self.node.x + self.half(),
            y >= self.node.y + self.half(),
            z >= self.node.z + self.half(),
        )
    }

    /// The child at place `k` is where it belongs: one level down, in its
    /// own eighth of the parent's cube.
    pub open spec fn child_placed(self, k: int) -> bool {
        let c = self.children[k];
        &&& c.depth == self.depth
        &&& c.node.level == self.node.level + 1
        &&& c.node.x == self.node.x + if slot_dx(k) { self.half() } else { 0 }
        &&& c.node.y == self.node.y + if slot_dy(k) { self.half() } else { 0 }
        &&& c.node.z == self.node.z + if slot_dz(k) { self.half() } else { 0 }
    }

    /// The tree is well formed: its levels run from 1 to its depth, which
    /// is at most `LEVELS`; the cube of every node lies between -128 and
    /// 128 along each axis; and every node is a leaf or has eight
    /// children, each placed in its own eighth of the parent's cube.
    pub open spec fn wf(self) -> bool
        decreases self,
    {
        &&& 1 <= self.node.level <= self.depth <= LEVELS
        &&& -128 <= self.node.x && self.node.x + self.size() <= 128
        &&& -128 <= self.node.y && self.node.y + self.size() <= 128
        &&& -128 <= self.node.z && self.node.z + self.size() <= 128
        &&& (self.children.len() == 0 || self.children.len() == 8)
        &&& self.children.len() == 8 ==> self.node.level < self.depth
        &&& forall|k: int|
            0 <= k < self.children.len() ==> (#[trigger] self.children[k]).wf()
                && self.child_placed(k)
    }

    /// The tree is complete: its leaves are exactly the nodes at the
    /// deepest level.
    pub open spec fn complete(self) -> bool
        decreases self,
    {
        &&& self.children.len() == 0 ==> self.node.level == self.depth
        &&& forall|k: int|
            0 <= k < self.children.len() ==> (#[trigger] self.children[k]).complete()
    }

    /// The node with the given index at the given level, if the tree has one.
    pub open spec fn node_at(self, x: int, y: int, z: int, level: int) -> Option<StoredNode>
        decreases self,
    {
        if level == self.node.level {
            if self.node.x == x && self.node.y == y && self.node.z == z {
                Some(self.node)
            } else {
                None
            }
        } else if self.node.level < level && self.children.len() == 8 && self.covers(x, y, z) {
            self.children[self.slot_of(x, y, z)].node_at(x, y, z, level)
        } else {
            None
        }
    }

    /// The top node is listed: it is active and, where only leaves are
    /// asked for, a leaf.
    pub open spec fn listed(self, leaves_only: bool) -> bool {
        self.node.active && (!leaves_only || self.children.len() == 0)
    }

    /// The active nodes of the tree in the order of a walk that visits a
    /// node before its children and the children in their places' order;
    /// with `leaves_only`, the active leaves.
    pub open spec fn records(self, leaves_only: bool) -> Seq<StoredNode>
        decreases self,
    {
        let head = if self.listed(leaves_only) {
            seq![self.node]
        } else {
            Seq::empty()
        };
        head + Self::records_of(self.children, self.children.len(), leaves_only)
    }

    /// The records of the first `n` trees of `ts`, one tree after the other.
    pub open spec fn records_of(ts: Seq<Tree>, n: nat, leaves_only: bool) -> Seq<StoredNode>
        decreases ts, n,
    {
        if n == 0 || n > ts.len() {
            Seq::empty()
        } else {
            Self::records_of(ts, (n - 1) as nat, leaves_only) + ts[n - 1].records(leaves_only)
        }
    }

    /// The tree with every node made inactive.
    pub open spec fn cleared(self) -> Tree
        decreases self,
    {
        Tree {
            node: StoredNode { active: false, ..self.node },
            depth: self.depth,
            children: Seq::new(
                self.children.len(),
                |k: int|
                    if 0 <= k < self.children.len() {
                        self.children[k].cleared()
                    } else {
                        self
                    },
            ),
        }
    }

    /// The tree after the node at the place of `r`, if there is one, has
    /// been given what `r` holds.
    pub open spec fn applied(self, r: StoredNode) -> Tree
        decreases self,
    {
        if r.level == self.node.level {
            if self.node.x == r.x && self.node.y == r.y && self.node.z == r.z {
                Tree { node: r, ..self }
            } else {
                self
            }
        } else if self.node.level < r.level && self.children.len() == 8 && self.covers(
            r.x as int,
            r.y as int,
            r.z as int,
        ) {
            let k = self.slot_of(r.x as int, r.y as int, r.z as int);
            Tree { children: self.children.update(k, self.children[k].applied(r)), ..self }
        } else {
            self
        }
    }

    /// A node that the tree has at some place is at that place, at or below
    /// the top node's level, and inside the top node's cube.
    pub proof fn lemma_node_at_inside(self, x: int, y: int, z: int, level: int)
        requires
            self.wf(),
            self.node_at(x, y, z, level).is_some(),
        ensures
            self.node_at(x, y, z, level).unwrap().at(x, y, z, level),
            self.node.level <= level <= self.depth,
            self.covers(x, y, z),
        decreases self,
    {
        lemma_pow2_bounds((self.depth - self.node.level) as nat);
        if level != self.node.level {
            let k = self.slot_of(x, y, z);
            assert(self.children[k].wf() && self.child_placed(k));
            self.children[k].lemma_node_at_inside(x, y, z, level);
        }
    }

    /// What a child has at some place, the tree has at that place.
    pub proof fn lemma_child_node_at(self, k: int, x: int, y: int, z: int, level: int)
        requires
            self.wf(),
            0 <= k < self.children.len(),
            self.children[k].node_at(x, y, z, level).is_some(),
        ensures
            self.node_at(x, y, z, level) == self.children[k].node_at(x, y, z, level),
    {
        lemma_pow2_bounds((self.depth - self.node.level) as nat);
        assert(self.children[k].wf() && self.child_placed(k));
        self.children[k].lemma_node_at_inside(x, y, z, level);
        assert(self.slot_of(x, y, z) == k);
    }
    /// Applying a record keeps the shape of the tree: the places, levels
    /// and number of children of its nodes.
    pub proof fn lemma_applied_shape(self, r: StoredNode)
        requires
            self.wf(),
        ensures
            self.applied(r).wf(),
            self.complete() ==> self.applied(r).complete(),
            self.applied(r).depth == self.depth,
            self.applied(r).children.len() == self.children.len(),
            self.applied(r).node.at(
                self.node.x as int,
                self.node.y as int,
                self.node.z as int,
                self.node.level as int,
            ),
        decreases self,
    {
        if r.level != self.node.level && self.node.level < r.level && self.children.len() == 8
            && self.covers(r.x as int, r.y as int, r.z as int) {
            let k = self.slot_of(r.x as int, r.y as int, r.z as int);
            let after = self.applied(r);
            assert(self.children[k].wf() && self.child_placed(k));
            self.children[k].lemma_applied_shape(r);
            assert forall|j: int| 0 <= j < after.children.len() implies (
            #[trigger] after.children[j]).wf() && after.child_placed(j) by {
                assert(self.children[j].wf() && self.child_placed(j));
            }
            if self.complete() {
                assert forall|j: int| 0 <= j < after.children.len() implies (
                #[trigger] after.children[j]).complete() by {
                    assert(self.children[j].complete());
                }
            }
        }
    }

    /// Applying a record changes what the tree has at the record's place,
    /// if it has a node there, and nothing else.
    pub proof fn lemma_applied_node_at(self, r: StoredNode, x: int, y: int, z: int, level: int)
        requires
            self.wf(),
        ensures
            self.applied(r).node_at(x, y, z, level) == if self.node_at(x, y, z, level).is_some()
                && r.at(x, y, z, level) {
                Some(r)
            } else {
                self.node_at(x, y, z, level)
            },
        decreases self,
    {
        if r.level != self.node.level && self.node.level < r.level && self.children.len() == 8
            && self.covers(r.x as int, r.y as int, r.z as int) {
            let k = self.slot_of(r.x as int, r.y as int, r.z as int);
            assert(self.children[k].wf() && self.child_placed(k));
            self.children[k].lemma_applied_shape(r);
            if level != self.node.level && self.node.level < level && self.covers(x, y, z) {
                let j = self.slot_of(x, y, z);
                assert(self.children[j].wf() && self.child_placed(j));
                if j == k {
                    self.children[k].lemma_applied_node_at(r, x, y, z, level);
                }
            }
        }
    }

    /// Clearing keeps the shape of the tree.
    pub proof fn lemma_cleared_shape(self)
        requires
            self.wf(),
        ensures
            self.cleared().wf(),
            self.complete() ==> self.cleared().complete(),
            self.cleared().depth == self.depth,
            self.cleared().children.len() == self.children.len(),
            self.cleared().node == (StoredNode { active: false, ..self.node }),
        decreases self,
    {
        let after = self.cleared();
        assert forall|j: int| 0 <= j < after.children.len() implies (#[trigger] after.children[j]).wf()
            && after.child_placed(j) by {
            assert(self.children[j].wf() && self.child_placed(j));
            self.children[j].lemma_cleared_shape();
        }
        if self.complete() {
            assert forall|j: int| 0 <= j < after.children.len() implies (
            #[trigger] after.children[j]).complete() by {
                assert(self.children[j].complete());
                self.children[j].lemma_cleared_shape();
            }
        }
    }

    /// A cleared tree has the nodes that the tree had, each made inactive.
    pub proof fn lemma_cleared_node_at(self, x: int, y: int, z: int, level: int)
        requires
            self.wf(),
        ensures
            self.cleared().node_at(x, y, z, level) == match self.node_at(x, y, z, level) {
                Some(n) => Some(StoredNode { active: false, ..n }),
                None => None,
            },
        decreases self,
    {
        if level != self.node.level && self.node.level < level && self.children.len() == 8
            && self.covers(x, y, z) {
            let j = self.slot_of(x, y, z);
            assert(self.children[j].wf() && self.child_placed(j));
            self.children[j].lemma_cleared_node_at(x, y, z, level);
        }
    }

    /// A cleared tree lists no node.
    pub proof fn lemma_cleared_records(self, leaves_only: bool)
        ensures
            self.cleared().records(leaves_only) == Seq::<StoredNode>::empty(),
        decreases self,
    {
        let after = self.cleared();
        Self::lemma_cleared_records_of(self.children, self.children.len(), leaves_only);
        assert(after.children =~= Seq::new(self.children.len(), |k: int| self.children[k].cleared()));
        assert(after.records(leaves_only) =~= Seq::<StoredNode>::empty());
    }

    proof fn lemma_cleared_records_of(ts: Seq<Tree>, n: nat, leaves_only: bool)
        requires
            n <= ts.len(),
        ensures
            Self::records_of(
                Seq::new(ts.len(), |k: int| ts[k].cleared()),
                n,
                leaves_only,
            ) == Seq::<StoredNode>::empty(),
        decreases ts, n,
    {
        if n > 0 {
            Self::lemma_cleared_records_of(ts, (n - 1) as nat, leaves_only);
            ts[n - 1].lemma_cleared_records(leaves_only);
            let cs = Seq::new(ts.len(), |k: int| ts[k].cleared());
            assert(Self::records_of(cs, n, leaves_only) =~= Seq::<StoredNode>::empty());
        }
    }
    /// Every listed record is active and is what the tree has at the
    /// record's place; a listed leaf of a complete tree is at the deepest level.
    pub proof fn lemma_records_sound(self, leaves_only: bool, r: StoredNode)
        requires
            self.wf(),
            self.records(leaves_only).contains(r),
        ensures
            r.active,
            self.node_at(r.x as int, r.y as int, r.z as int, r.level as int) == Some(r),
            leaves_only && self.complete() ==> r.level == self.depth,
        decreases self,
    {
        let head = if self.listed(leaves_only) {
            seq![self.node]
        } else {
            Seq::empty()
        };
        let tail = Self::records_of(self.children, self.children.len(), leaves_only);
        lemma_concat_contains(head, tail, r);
        if head.contains(r) {
            assert(head[0] == r);
        } else {
            let k = Self::lemma_records_of_member(
                self.children,
                self.children.len(),
                leaves_only,
                r,
            );
            assert(self.children[k].wf() && self.child_placed(k));
            assert(self.complete() ==> self.children[k].complete());
            self.children[k].lemma_records_sound(leaves_only, r);
            self.lemma_child_node_at(k, r.x as int, r.y as int, r.z as int, r.level as int);
        }
    }

    /// A record among those of the first `n` trees is a record of one of them.
    pub proof fn lemma_records_of_member(
        ts: Seq<Tree>,
        n: nat,
        leaves_only: bool,
        r: StoredNode,
    ) -> (k: int)
        requires
            Self::records_of(ts, n, leaves_only).contains(r),
        ensures
            0 <= k < n <= ts.len(),
            ts[k].records(leaves_only).contains(r),
        decreases n,
    {
        if n == 0 || n > ts.len() {
            assert(Self::records_of(ts, n, leaves_only).len() == 0);
            0
        } else {
            lemma_concat_contains(
                Self::records_of(ts, (n - 1) as nat, leaves_only),
                ts[n - 1].records(leaves_only),
                r,
            );
            if ts[n - 1].records(leaves_only).contains(r) {
                n - 1
            } else {
                Self::lemma_records_of_member(ts, (n - 1) as nat, leaves_only, r)
            }
        }
    }

    /// A record of one of the first `n` trees is among the records of them all.
    pub proof fn lemma_records_of_contains(
        ts: Seq<Tree>,
        n: nat,
        leaves_only: bool,
        k: int,
        r: StoredNode,
    )
        requires
            0 <= k < n <= ts.len(),
            ts[k].records(leaves_only).contains(r),
        ensures
            Self::records_of(ts, n, leaves_only).contains(r),
        decreases n,
    {
        lemma_concat_contains(
            Self::records_of(ts, (n - 1) as nat, leaves_only),
            ts[n - 1].records(leaves_only),
            r,
        );
        if k < n - 1 {
            Self::lemma_records_of_contains(ts, (n - 1) as nat, leaves_only, k, r);
        }
    }

    /// Every active node of the tree is listed; so is every active node at
    /// the deepest level of a complete tree where only leaves are asked for.
    pub proof fn lemma_records_complete(
        self,
        leaves_only: bool,
        x: int,
        y: int,
        z: int,
        level: int,
    )
        requires
            self.wf(),
            self.node_at(x, y, z, level).is_some(),
            self.node_at(x, y, z, level).unwrap().active,
            leaves_only ==> self.complete() && level == self.depth,
        ensures
            self.records(leaves_only).contains(self.node_at(x, y, z, level).unwrap()),
        decreases self,
    {
        let r = self.node_at(x, y, z, level).unwrap();
        let head = if self.listed(leaves_only) {
            seq![self.node]
        } else {
            Seq::empty()
        };
        let tail = Self::records_of(self.children, self.children.len(), leaves_only);
        lemma_concat_contains(head, tail, r);
        if level == self.node.level {
            assert(head[0] == r);
        } else {
            let k = self.slot_of(x, y, z);
            assert(self.children[k].wf() && self.child_placed(k));
            assert(self.complete() ==> self.children[k].complete());
            self.children[k].lemma_records_complete(leaves_only, x, y, z, level);
            Self::lemma_records_of_contains(self.children, self.children.len(), leaves_only, k, r);
        }
    }

    /// A complete tree has a node at the deepest level for exactly the
    /// points of its cube.
    pub proof fn lemma_finest_node_at(self, x: int, y: int, z: int)
        requires
            self.wf(),
            self.complete(),
        ensures
            self.node_at(x, y, z, self.depth as int).is_some() == self.covers(x, y, z),
        decreases self,
    {
        lemma_pow2_bounds((self.depth - self.node.level) as nat);
        if self.node_at(x, y, z, self.depth as int).is_some() {
            self.lemma_node_at_inside(x, y, z, self.depth as int);
        }
        if self.covers(x, y, z) && self.node.level < self.depth {
            let k = self.slot_of(x, y, z);
            assert(self.children[k].wf() && self.child_placed(k));
            assert(self.children[k].complete());
            self.children[k].lemma_finest_node_at(x, y, z);
        }
    }
    /// What a newly made child at place `k` holds: it is inactive, has the
    /// parent's colour and tags, and no face of it is occluded.
    pub open spec fn child_node(self, k: int) -> StoredNode {
        StoredNode {
            x: (self.node.x + if slot_dx(k) { self.half() } else { 0 }) as i32,
            y: (self.node.y + if slot_dy(k) { self.half() } else { 0 }) as i32,
            z: (self.node.z + if slot_dz(k) { self.half() } else { 0 }) as i32,
            level: (self.node.level + 1) as u32,
            active: false,
            color: self.node.color,
            fluid: self.node.fluid,
            noise: self.node.noise,
            front_occluded: false,
            back_occluded: false,
            top_occluded: false,
            bottom_occluded: false,
            left_occluded: false,
            right_occluded: false,
        }
    }

    /// A tree of the node alone.
    pub open spec fn leaf(node: StoredNode, depth: u32) -> Tree {
        Tree { node, depth, children: Seq::empty() }
    }

    /// The tree with eight newly made leaves in place of what was below its
    /// top node.
    pub open spec fn subdivided(self) -> Tree {
        Tree {
            children: Seq::new(8, |k: int| Tree::leaf(self.child_node(k), self.depth)),
            ..self
        }
    }

    /// The complete tree of newly made nodes below the given top node.
    pub open spec fn dense(node: StoredNode, depth: u32) -> Tree
        decreases depth - node.level,
    {
        let top = Tree::leaf(node, depth);
        if node.level >= depth {
            top
        } else {
            Tree {
                node,
                depth,
                children: Seq::new(
                    8,
                    |k: int|
                        if 0 <= k < 8 {
                            Tree::dense(top.child_node(k), depth)
                        } else {
                            top
                        },
                ),
            }
        }
    }

    /// A node can be the top of a well-formed tree of the given depth.
    pub open spec fn fits(node: StoredNode, depth: u32) -> bool {
        Tree::leaf(node, depth).wf()
    }

    /// A newly made child fits where its parent does.
    pub proof fn lemma_child_fits(self, k: int)
        requires
            Tree::fits(self.node, self.depth),
            self.node.level < self.depth,
            0 <= k < 8,
        ensures
            Tree::fits(self.child_node(k), self.depth),
            self.child_node(k).x == self.node.x + if slot_dx(k) { self.half() } else { 0 },
            self.child_node(k).y == self.node.y + if slot_dy(k) { self.half() } else { 0 },
            self.child_node(k).z == self.node.z + if slot_dz(k) { self.half() } else { 0 },
            self.child_node(k).level == self.node.level + 1,
    {
        lemma_pow2_bounds((self.depth - self.node.level) as nat);
        lemma_pow2_bounds((self.depth - self.node.level - 1) as nat);
    }

    /// A newly built tree is well formed and complete.
    pub proof fn lemma_dense_wf(node: StoredNode, depth: u32)
        requires
            Tree::fits(node, depth),
        ensures
            Tree::dense(node, depth).wf(),
            Tree::dense(node, depth).complete(),
            Tree::dense(node, depth).node == node,
            Tree::dense(node, depth).depth == depth,
        decreases depth - node.level,
    {
        let t = Tree::dense(node, depth);
        let top = Tree::leaf(node, depth);
        if node.level < depth {
            assert forall|k: int| 0 <= k < t.children.len() implies (#[trigger] t.children[k]).wf()
                && t.child_placed(k) && t.children[k].complete() by {
                top.lemma_child_fits(k);
                Tree::lemma_dense_wf(top.child_node(k), depth);
            }
        }
    }

    /// A newly built tree has its top node and, below it, inactive nodes
    /// with the top node's colour and tags, no face of them occluded.
    pub proof fn lemma_dense_node_at(node: StoredNode, depth: u32, x: int, y: int, z: int, level: int)
        requires
            Tree::fits(node, depth),
            Tree::dense(node, depth).node_at(x, y, z, level).is_some(),
        ensures
            ({
                let r = Tree::dense(node, depth).node_at(x, y, z, level).unwrap();
                if level == node.level {
                    r == node
                } else {
                    r == (StoredNode {
                        x: x as i32,
                        y: y as i32,
                        z: z as i32,
                        level: level as u32,
                        ..Tree::leaf(node, depth).child_node(0)
                    })
                }
            }),
        decreases depth - node.level,
    {
        let t = Tree::dense(node, depth);
        let top = Tree::leaf(node, depth);
        Tree::lemma_dense_wf(node, depth);
        t.lemma_node_at_inside(x, y, z, level);
        if level != node.level {
            let k = t.slot_of(x, y, z);
            top.lemma_child_fits(k);
            Tree::lemma_dense_wf(top.child_node(k), depth);
            Tree::lemma_dense_node_at(top.child_node(k), depth, x, y, z, level);
        }
    }

    /// A newly built tree below an inactive node lists nothing.
    pub proof fn lemma_dense_records(node: StoredNode, depth: u32, leaves_only: bool)
        requires
            !node.active,
            node.level <= depth,
        ensures
            Tree::dense(node, depth).records(leaves_only) == Seq::<StoredNode>::empty(),
        decreases depth - node.level, 9nat,
    {
        let t = Tree::dense(node, depth);
        if node.level < depth {
            Tree::lemma_dense_records_of(node, depth, 8, leaves_only);
        }
        assert(t.records(leaves_only) =~= Seq::<StoredNode>::empty());
    }

    proof fn lemma_dense_records_of(node: StoredNode, depth: u32, n: nat, leaves_only: bool)
        requires
            node.level < depth,
            n <= 8,
        ensures
            Tree::records_of(Tree::dense(node, depth).children, n, leaves_only) == Seq::<
                StoredNode,
            >::empty(),
        decreases depth - node.level, n,
    {
        let t = Tree::dense(node, depth);
        if n > 0 {
            Tree::lemma_dense_records_of(node, depth, (n - 1) as nat, leaves_only);
            Tree::lemma_dense_records(Tree::leaf(node, depth).child_node(n - 1), depth, leaves_only);
            assert(Tree::records_of(t.children, n, leaves_only) =~= Seq::<StoredNode>::empty());
        }
    }
    /// The tree with `sub` in place of the node with the given index at
    /// the given level and all below it, if the tree has such a node.
    pub open spec fn grafted(self, x: int, y: int, z: int, level: int, sub: Tree) -> Tree
        decreases self,
    {
        if level == self.node.level {
            if self.node.x == x && self.node.y == y && self.node.z == z {
                sub
            } else {
                self
            }
        } else if self.node.level < level && self.children.len() == 8 && self.covers(x, y, z) {
            let k = self.slot_of(x, y, z);
            Tree { children: self.children.update(k, self.children[k].grafted(x, y, z, level, sub)), ..self }
        } else {
            self
        }
    }
    /// The index is one that a node at the level can have in the cube of
    /// the top node: it is inside the cube, and a whole number of cubes
    /// of that level away from the cube's corner along each axis.
    pub open spec fn valid_cell(self, x: int, y: int, z: int, level: int) -> bool {
        let m = pow2((self.depth - level) as nat);
        &&& self.node.level <= level <= self.depth
        &&& self.covers(x, y, z)
        &&& (x - self.node.x) % m == 0
        &&& (y - self.node.y) % m == 0
        &&& (z - self.node.z) % m == 0
    }

    /// A complete tree has a node for exactly the cells that are valid.
    pub proof fn lemma_node_at_exists(self, x: int, y: int, z: int, level: int)
        requires
            self.wf(),
            self.complete(),
        ensures
            self.node_at(x, y, z, level).is_some() == self.valid_cell(x, y, z, level),
        decreases self,
    {
        lemma_pow2_bounds((self.depth - self.node.level) as nat);
        if self.node_at(x, y, z, level).is_some() {
            self.lemma_node_at_inside(x, y, z, level);
        }
        if level == self.node.level {
            let m = self.size();
            if self.covers(x, y, z) {
                vstd::arithmetic::div_mod::lemma_small_mod((x - self.node.x) as nat, m as nat);
                vstd::arithmetic::div_mod::lemma_small_mod((y - self.node.y) as nat, m as nat);
                vstd::arithmetic::div_mod::lemma_small_mod((z - self.node.z) as nat, m as nat);
            } else {
                assert(0int % m == 0) by {
                    vstd::arithmetic::div_mod::lemma_small_mod(0, m as nat);
                }
            }
            if self.node.x == x && self.node.y == y && self.node.z == z {
                vstd::arithmetic::div_mod::lemma_small_mod(0, m as nat);
            }
        } else if self.node.level < level <= self.depth && self.covers(x, y, z) {
            let k = self.slot_of(x, y, z);
            let c = self.children[k];
            let m = pow2((self.depth - level) as nat);
            let half = self.half();
            assert(c.wf() && self.child_placed(k) && c.complete());
            c.lemma_node_at_exists(x, y, z, level);
            lemma_pow2_bounds((self.depth - level) as nat);
            lemma_pow2_split((self.depth - self.node.level - 1) as nat, (self.depth - level) as nat);
            let q = pow2((level - self.node.level - 1) as nat);
            assert(half == q * m);
            lemma_shift_aligned(x - self.node.x, q, m);
            lemma_shift_aligned(y - self.node.y, q, m);
            lemma_shift_aligned(z - self.node.z, q, m);
            assert(c.covers(x, y, z));
        }
    }
    /// The tree below the node with the given index at the given level,
    /// that node at its top, if the tree has such a node.
    pub open spec fn tree_at(self, x: int, y: int, z: int, level: int) -> Option<Tree>
        decreases self,
    {
        if level == self.node.level {
            if self.node.x == x && self.node.y == y && self.node.z == z {
                Some(self)
            } else {
                None
            }
        } else if self.node.level < level && self.children.len() == 8 && self.covers(x, y, z) {
            self.children[self.slot_of(x, y, z)].tree_at(x, y, z, level)
        } else {
            None
        }
    }

    /// The node at a place is the top of the tree at that place.
    pub proof fn lemma_tree_at_node(self, x: int, y: int, z: int, level: int)
        ensures
            self.node_at(x, y, z, level) == match self.tree_at(x, y, z, level) {
                Some(t) => Some(t.node),
                None => None,
            },
        decreases self,
    {
        if level != self.node.level && self.node.level < level && self.children.len() == 8
            && self.covers(x, y, z) {
            self.children[self.slot_of(x, y, z)].lemma_tree_at_node(x, y, z, level);
        }
    }

    /// The tree at a place of a well-formed tree is well formed and of the
    /// same depth, and complete if the tree is.
    pub proof fn lemma_tree_at_wf(self, x: int, y: int, z: int, level: int)
        requires
            self.wf(),
            self.tree_at(x, y, z, level).is_some(),
        ensures
            self.tree_at(x, y, z, level).unwrap().wf(),
            self.tree_at(x, y, z, level).unwrap().depth == self.depth,
            self.complete() ==> self.tree_at(x, y, z, level).unwrap().complete(),
        decreases self,
    {
        if level != self.node.level {
            let k = self.slot_of(x, y, z);
            assert(self.children[k].wf() && self.child_placed(k));
            assert(self.complete() ==> self.children[k].complete());
            self.children[k].lemma_tree_at_wf(x, y, z, level);
        }
    }

    /// Putting the tree that is at a place in at that place gives the
    /// tree as it was.
    pub proof fn lemma_grafted_back(self, x: int, y: int, z: int, level: int)
        requires
            self.tree_at(x, y, z, level).is_some(),
        ensures
            self.grafted(x, y, z, level, self.tree_at(x, y, z, level).unwrap()) == self,
        decreases self,
    {
        if level != self.node.level {
            let k = self.slot_of(x, y, z);
            let sub = self.tree_at(x, y, z, level).unwrap();
            self.children[k].lemma_grafted_back(x, y, z, level);
            assert(self.children.update(k, self.children[k].grafted(x, y, z, level, sub))
                =~= self.children);
        }
    }

    /// After a tree has been put in at a place where the tree has a node,
    /// it is the tree at that place.
    pub proof fn lemma_grafted_tree_at(self, x: int, y: int, z: int, level: int, sub: Tree)
        requires
            self.tree_at(x, y, z, level).is_some(),
            sub.node.at(x, y, z, level),
        ensures
            self.grafted(x, y, z, level, sub).tree_at(x, y, z, level) == Some(sub),
        decreases self,
    {
        if level != self.node.level {
            let k = self.slot_of(x, y, z);
            self.children[k].lemma_grafted_tree_at(x, y, z, level, sub);
        }
    }
}

} // verus!
