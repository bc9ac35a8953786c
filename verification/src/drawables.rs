use vstd::prelude::*;
use crate::cube::Cube;
use crate::stored_octree::StoredNode;
use crate::tree::Tree;

verus! {

/// The cube drawn for a node whose edge is `size`: it is at the node's
/// index, has the node's colour, tags and occlusion flags, and is smooth.
/// Its key is zero.
pub open spec fn cube_of(node: StoredNode, size: int) -> Cube {
    Cube {
        vertices_count: 216,
        translation: [node.x, node.y, node.z],
        color: node.color,
        scale: size as u32,
        fluid: node.fluid,
        noise: node.noise,
        bottom_occluded: node.bottom_occluded,
        left_occluded: node.left_occluded,
        right_occluded: node.right_occluded,
        front_occluded: node.front_occluded,
        back_occluded: node.back_occluded,
        top_occluded: node.top_occluded,
        smooth: true,
        key: 0,
    }
}

impl Tree {
    /// The cubes drawn for the tree, with zero for their keys: one for
    /// the top node if it is active, which then stands for all below it;
    /// else the cubes of its children, one child after the other.
    pub open spec fn cubes(self) -> Seq<Cube>
        decreases self,
    {
        if self.node.active {
            seq![cube_of(self.node, self.size())]
        } else {
            Tree::cubes_of(self.children, self.children.len())
        }
    }

    /// The cubes drawn for the first `n` trees, one tree after the other.
    pub open spec fn cubes_of(ts: Seq<Tree>, n: nat) -> Seq<Cube>
        decreases ts, n,
    {
        if n == 0 || n > ts.len() {
            Seq::empty()
        } else {
            Tree::cubes_of(ts, (n - 1) as nat) + ts[n - 1].cubes()
        }
    }
    /// No node of the tree that has children is active.
    pub open spec fn no_active_branch(self) -> bool
        decreases self,
    {
        &&& self.children.len() > 0 ==> !self.node.active
        &&& forall|k: int|
            0 <= k < self.children.len() ==> (#[trigger] self.children[k]).no_active_branch()
    }

    /// The cubes of the nodes, each of edge 1.
    pub open spec fn unit_cubes(nodes: Seq<StoredNode>) -> Seq<Cube> {
        Seq::new(nodes.len(), |i: int| cube_of(nodes[i], 1))
    }

    /// In a complete tree none of whose nodes with children is active,
    /// the cubes drawn are those of the active leaves, in their order.
    pub proof fn law_cubes_of_leaves(self)
        requires
            self.wf(),
            self.complete(),
            self.no_active_branch(),
        ensures
            self.cubes() == Tree::unit_cubes(self.records(true)),
        decreases self,
    {
        if self.children.len() == 0 {
            assert(self.size() == 1);
            assert(self.cubes() =~= Tree::unit_cubes(self.records(true)));
        } else {
            Tree::lemma_cubes_of_children(self, self.children.len());
            assert(self.records(true) =~= Tree::records_of(self.children, self.children.len(), true));
        }
    }

    proof fn lemma_cubes_of_children(t: Tree, n: nat)
        requires
            t.wf(),
            t.complete(),
            t.no_active_branch(),
            n <= t.children.len(),
        ensures
            Tree::cubes_of(t.children, n) == Tree::unit_cubes(Tree::records_of(t.children, n, true)),
        decreases t, n,
    {
        if n > 0 {
            Tree::lemma_cubes_of_children(t, (n - 1) as nat);
            let c = t.children[n - 1];
            assert(c.wf() && c.complete() && c.no_active_branch());
            c.law_cubes_of_leaves();
            assert(Tree::cubes_of(t.children, n) =~= Tree::unit_cubes(
                Tree::records_of(t.children, n, true),
            ));
        } else {
            assert(Tree::cubes_of(t.children, n) =~= Tree::unit_cubes(
                Tree::records_of(t.children, n, true),
            ));
        }
    }
}

} // verus!
