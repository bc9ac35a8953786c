use vstd::prelude::*;
use crate::color::Color;
use crate::color::color_eq;
use crate::color::colors_equal;
use crate::color::lemma_channel_eq_symmetric;
use crate::color::lemma_channel_eq_transitive;

verus! {

/// One node of a tree in stored form: where it is, and what it holds.
#[derive(Clone, Copy, Debug, PartialEq, Eq)]
pub struct StoredNode {
    pub x: i32,
    pub y: i32,
    pub z: i32,
    pub level: u32,
    pub active: bool,
    pub color: Color,
    pub fluid: i32,
    pub noise: i32,
    pub front_occluded: bool,
    pub back_occluded: bool,
    pub top_occluded: bool,
    pub bottom_occluded: bool,
    pub left_occluded: bool,
    pub right_occluded: bool,
}

/// The stored form of a tree: its active leaves, in the order of a walk
/// through the tree.
#[derive(Clone, Debug, PartialEq, Eq)]
pub struct StoredOctree {
    pub active_nodes: Vec<StoredNode>,
}

impl StoredNode {
    /// Two nodes are uniform: their colours compare equal, and they have
    /// the same fluid and noise tags. Occlusion plays no part.
    pub open spec fn spec_uniform(self, other: StoredNode) -> bool {
        &&& color_eq(self.color, other.color)
        &&& self.fluid == other.fluid
        &&& self.noise == other.noise
    }

    /// Whether the two nodes are uniform.
    pub fn uniform(&self, other: &StoredNode) -> (r: bool)
        ensures
            r == self.spec_uniform(*other),
    {
        colors_equal(&self.color, &other.color) && self.fluid == other.fluid && self.noise
            == other.noise
    }

    /// The node is at the given place.
    pub open spec fn at(self, x: int, y: int, z: int, level: int) -> bool {
        self.x == x && self.y == y && self.z == z && self.level == level
    }
    /// Being uniform is symmetric.
    pub proof fn lemma_uniform_symmetric(self, other: StoredNode)
        ensures
            self.spec_uniform(other) == other.spec_uniform(self),
    {
        lemma_channel_eq_symmetric(self.color[0], other.color[0]);
        lemma_channel_eq_symmetric(self.color[1], other.color[1]);
        lemma_channel_eq_symmetric(self.color[2], other.color[2]);
        lemma_channel_eq_symmetric(self.color[3], other.color[3]);
    }

    /// Being uniform is transitive.
    pub proof fn lemma_uniform_transitive(self, middle: StoredNode, other: StoredNode)
        requires
            self.spec_uniform(middle),
            middle.spec_uniform(other),
        ensures
            self.spec_uniform(other),
    {
        lemma_channel_eq_transitive(self.color[0], middle.color[0], other.color[0]);
        lemma_channel_eq_transitive(self.color[1], middle.color[1], other.color[1]);
        lemma_channel_eq_transitive(self.color[2], middle.color[2], other.color[2]);
        lemma_channel_eq_transitive(self.color[3], middle.color[3], other.color[3]);
    }
}

} // verus!
