use vstd::prelude::*;
use crate::color::Color;
use crate::color::lemma_channel_eq_symmetric;
use crate::edits::agreeing;
use crate::edits::names;
use crate::edits::selects;
use crate::occlusion::Face;
use crate::ocnode::new_node;
use crate::ocnode::spec_range;
use crate::ocnode::Ocnode;
use crate::point::Point;
use crate::stored_octree::StoredNode;
use crate::tree::lemma_pow2_bounds;
use crate::tree::Tree;
use crate::tree::LEVELS;

verus! {

/// The tree is one that an octree holds: complete, its top cube at level 1
/// with each index at minus the range of its depth.
pub open spec fn whole(t: Tree) -> bool {
    &&& t.wf()
    &&& t.complete()
    &&& t.node.level == 1
    &&& t.node.x == -spec_range(t.depth)
    &&& t.node.y == -spec_range(t.depth)
    &&& t.node.z == -spec_range(t.depth)
}

/// A tree newly built to any depth has no active node.
pub proof fn law_new_tree_has_no_active_node(depth: u32)
    requires
        1 <= depth <= LEVELS,
    ensures
        whole(Tree::dense(Ocnode::spec_top(new_node(), depth), depth)),
        Tree::dense(Ocnode::spec_top(new_node(), depth), depth).records(false) == Seq::<
            StoredNode,
        >::empty(),
{
    let top = Ocnode::spec_top(new_node(), depth);
    lemma_pow2_bounds((depth - 1) as nat);
    Tree::lemma_dense_wf(top, depth);
    Tree::lemma_dense_records(top, depth, false);
}

/// After a toggle, the cube at the deepest level at any position of the
/// list that lies inside the tree is switched as asked and has exactly
/// the colour and tags given, whatever the level of detail.
pub proof fn law_toggle_then_find(
    t: Tree,
    positions: Seq<[i32; 3]>,
    value: bool,
    color: Color,
    fluid: i32,
    noise: i32,
    eye: Point,
    lod: Option<u32>,
    x: int,
    y: int,
    z: int,
)
    requires
        whole(t),
        selects(positions, x, y, z),
        t.covers(x, y, z),
    ensures
        ({
            let found = t.toggled_all(positions, value, color, fluid, noise).optimized_by(
                eye,
                lod,
            ).node_at(x, y, z, t.depth as int);
            &&& found.is_some()
            &&& found.unwrap().at(x, y, z, t.depth as int)
            &&& found.unwrap().active == value
            &&& found.unwrap().color == color
            &&& found.unwrap().fluid == fluid
            &&& found.unwrap().noise == noise
        }),
{
    let recs = t.toggle_records(positions, value, color, fluid, noise);
    let mid = t.toggled_all(positions, value, color, fluid, noise);
    t.lemma_finest_node_at(x, y, z);
    t.lemma_node_at_inside(x, y, z, t.depth as int);
    t.lemma_toggled_node_at(positions, value, color, fluid, noise, x, y, z, t.depth as int);
    t.lemma_applied_all_shape(recs);
    if lod.is_some() {
        mid.lemma_optimized_finest(eye, lod.unwrap(), x, y, z);
    }
}

/// Two nodes at the deepest level agree: both are missing, or both are
/// inactive, or they are the same active node.
pub open spec fn leaves_agree(a: Option<StoredNode>, b: Option<StoredNode>) -> bool {
    match (a, b) {
        (None, None) => true,
        (Some(m), Some(n)) => m.active == n.active && (m.active ==> m == n),
        _ => false,
    }
}

/// Two complete trees over the same cube whose nodes at the deepest level
/// agree list the same active leaves.
pub proof fn lemma_leaves_determine_records(a: Tree, b: Tree)
    requires
        a.wf(),
        b.wf(),
        a.complete(),
        b.complete(),
        a.depth == b.depth,
        a.node.at(b.node.x as int, b.node.y as int, b.node.z as int, b.node.level as int),
        forall|x: int, y: int, z: int|
            leaves_agree(
                #[trigger] a.node_at(x, y, z, a.depth as int),
                b.node_at(x, y, z, a.depth as int),
            ),
    ensures
        a.records(true) == b.records(true),
    decreases a,
{
    if a.node.level == a.depth {
        assert(leaves_agree(
            a.node_at(a.node.x as int, a.node.y as int, a.node.z as int, a.depth as int),
            b.node_at(a.node.x as int, a.node.y as int, a.node.z as int, a.depth as int),
        ));
        assert(a.records(true) =~= b.records(true));
    } else {
        lemma_children_determine_records(a, b, 8);
    }
}

proof fn lemma_children_determine_records(a: Tree, b: Tree, n: nat)
    requires
        a.wf(),
        b.wf(),
        a.complete(),
        b.complete(),
        a.depth == b.depth,
        a.node.level < a.depth,
        a.node.at(b.node.x as int, b.node.y as int, b.node.z as int, b.node.level as int),
        forall|x: int, y: int, z: int|
            leaves_agree(
                #[trigger] a.node_at(x, y, z, a.depth as int),
                b.node_at(x, y, z, a.depth as int),
            ),
        n <= 8,
    ensures
        Tree::records_of(a.children, n, true) == Tree::records_of(b.children, n, true),
    decreases a, n,
{
    if n > 0 {
        lemma_children_determine_records(a, b, (n - 1) as nat);
        let k = n - 1;
        let c = a.children[k];
        let d = b.children[k];
        assert(c.wf() && a.child_placed(k) && c.complete());
        assert(d.wf() && b.child_placed(k) && d.complete());
        assert forall|x: int, y: int, z: int|
            leaves_agree(
                #[trigger] c.node_at(x, y, z, c.depth as int),
                d.node_at(x, y, z, c.depth as int),
            ) by {
            c.lemma_finest_node_at(x, y, z);
            d.lemma_finest_node_at(x, y, z);
            if c.covers(x, y, z) {
                a.lemma_child_node_at(k, x, y, z, a.depth as int);
                b.lemma_child_node_at(k, x, y, z, a.depth as int);
                assert(leaves_agree(
                    a.node_at(x, y, z, a.depth as int),
                    b.node_at(x, y, z, a.depth as int),
                ));
            }
        }
        lemma_leaves_determine_records(c, d);
    }
}

/// Round trip: the stored form of a tree, loaded into any tree of the same
/// depth, drops no record and gives a tree with the same stored form: the
/// same active leaves, with their colours, tags and occlusion flags, in
/// the same order.
pub proof fn law_round_trip(t: Tree, u: Tree, eye: Point, lod: Option<u32>)
    requires
        whole(t),
        whole(u),
        t.depth == u.depth,
    ensures
        u.missing(t.records(true)) == 0,
        u.cleared().applied_all(t.records(true)).optimized_by(eye, lod).records(true)
            == t.records(true),
{
    let s = t.records(true);
    let blank = u.cleared();
    let filled = blank.applied_all(s);
    let after = filled.optimized_by(eye, lod);
    u.lemma_cleared_shape();
    blank.lemma_applied_all_shape(s);
    assert forall|i: int| 0 <= i < s.len() implies u.node_at(
        (#[trigger] s[i]).x as int,
        s[i].y as int,
        s[i].z as int,
        s[i].level as int,
    ).is_some() by {
        lemma_stored_record(t, u, i);
    }
    lemma_nothing_missing(u, s);
    assert(agreeing(s)) by {
        assert forall|i: int, j: int|
            0 <= i < s.len() && 0 <= j < s.len() && (#[trigger] s[i]).at(
                s[j].x as int,
                s[j].y as int,
                s[j].z as int,
                s[j].level as int,
            ) implies s[i] == #[trigger] s[j] by {
            t.lemma_records_sound(true, s[i]);
            t.lemma_records_sound(true, s[j]);
        }
    }
    assert forall|x: int, y: int, z: int|
        leaves_agree(
            #[trigger] filled.node_at(x, y, z, filled.depth as int),
            t.node_at(x, y, z, filled.depth as int),
        ) by {
        let level = t.depth as int;
        t.lemma_finest_node_at(x, y, z);
        u.lemma_finest_node_at(x, y, z);
        u.lemma_cleared_node_at(x, y, z, level);
        blank.lemma_applied_all_dom(s, x, y, z, level);
        if names(s, x, y, z, level) {
            let i = choose|i: int| 0 <= i < s.len() && (#[trigger] s[i]).at(x, y, z, level);
            t.lemma_records_sound(true, s[i]);
            lemma_stored_record(t, u, i);
            blank.lemma_applied_all_hit(s, i);
        } else {
            blank.lemma_applied_all_miss(s, x, y, z, level);
            if t.node_at(x, y, z, level).is_some() && t.node_at(x, y, z, level).unwrap().active {
                t.lemma_records_complete(true, x, y, z, level);
                let r = t.node_at(x, y, z, level).unwrap();
                t.lemma_node_at_inside(x, y, z, level);
                let i = choose|i: int| 0 <= i < s.len() && s[i] == r;
                assert(s[i].at(x, y, z, level));
            }
        }
    }
    lemma_leaves_determine_records(filled, t);
    if lod.is_some() {
        filled.lemma_optimized_leaves(eye, lod.unwrap());
    }
}

/// A stored leaf of one tree is at the deepest level, where any tree of
/// the same depth has a node too.
proof fn lemma_stored_record(t: Tree, u: Tree, i: int)
    requires
        whole(t),
        whole(u),
        t.depth == u.depth,
        0 <= i < t.records(true).len(),
    ensures
        t.records(true)[i].level == t.depth,
        u.node_at(
            t.records(true)[i].x as int,
            t.records(true)[i].y as int,
            t.records(true)[i].z as int,
            t.records(true)[i].level as int,
        ).is_some(),
        u.cleared().node_at(
            t.records(true)[i].x as int,
            t.records(true)[i].y as int,
            t.records(true)[i].z as int,
            t.records(true)[i].level as int,
        ).is_some(),
{
    let r = t.records(true)[i];
    t.lemma_records_sound(true, r);
    t.lemma_node_at_inside(r.x as int, r.y as int, r.z as int, r.level as int);
    u.lemma_finest_node_at(r.x as int, r.y as int, r.z as int);
    u.lemma_cleared_node_at(r.x as int, r.y as int, r.z as int, r.level as int);
}

/// Where the tree has a node at the place of every record, none is missing.
proof fn lemma_nothing_missing(u: Tree, s: Seq<StoredNode>)
    requires
        forall|i: int|
            0 <= i < s.len() ==> u.node_at(
                (#[trigger] s[i]).x as int,
                s[i].y as int,
                s[i].z as int,
                s[i].level as int,
            ).is_some(),
    ensures
        u.missing(s) == 0,
    decreases s.len(),
{
    if s.len() > 0 {
        let front = s.drop_last();
        assert forall|i: int| 0 <= i < front.len() implies u.node_at(
            (#[trigger] front[i]).x as int,
            front[i].y as int,
            front[i].z as int,
            front[i].level as int,
        ).is_some() by {
            assert(front[i] == s[i]);
        }
        lemma_nothing_missing(u, front);
        assert(s.last() == s[s.len() - 1]);
    }
}

/// Occlusion symmetry: after occlusion has been calculated, two active
/// cubes that touch across a face have the same flag towards each other,
/// and it tells whether they are uniform.
pub proof fn law_occlusion_symmetry(t: Tree, x: int, y: int, z: int, level: int, face: Face)
    requires
        t.wf(),
        t.node_at(x, y, z, level).is_some(),
        t.node_at(x, y, z, level).unwrap().active,
        t.neighbor(t.node_at(x, y, z, level).unwrap(), face).is_some(),
        t.neighbor(t.node_at(x, y, z, level).unwrap(), face).unwrap().active,
    ensures
        ({
            let a = t.node_at(x, y, z, level).unwrap();
            let b = t.neighbor(a, face).unwrap();
            let after = t.occluded_in(t);
            let a2 = after.node_at(x, y, z, level);
            let b2 = after.node_at(b.x as int, b.y as int, b.z as int, b.level as int);
            &&& a2.is_some()
            &&& b2.is_some()
            &&& a2.unwrap().occluded(face) == b2.unwrap().occluded(face.opposite())
            &&& a2.unwrap().occluded(face) == a.spec_uniform(b)
        }),
{
    let a = t.node_at(x, y, z, level).unwrap();
    let b = t.neighbor(a, face).unwrap();
    let size = crate::tree::pow2((t.depth - a.level) as nat);
    let p = a.beside(face, size);
    t.lemma_node_at_inside(x, y, z, level);
    t.lemma_node_at_inside(p.0, p.1, p.2, level);
    t.lemma_occluded_node_at(t, x, y, z, level);
    t.lemma_occluded_node_at(t, p.0, p.1, p.2, level);
    let q = b.beside(face.opposite(), size);
    assert(q == (x, y, z));
    assert(t.neighbor(b, face.opposite()) == Some(a));
    lemma_channel_eq_symmetric(a.color[0], b.color[0]);
    lemma_channel_eq_symmetric(a.color[1], b.color[1]);
    lemma_channel_eq_symmetric(a.color[2], b.color[2]);
    lemma_channel_eq_symmetric(a.color[3], b.color[3]);
}

/// A node keeps its place, activity, colour and tags when its occlusion
/// is calculated, and calculating it again against the tree so obtained
/// gives the same flags.
proof fn lemma_refresh_stable(root: Tree, r: StoredNode)
    requires
        root.wf(),
    ensures
        Tree::refreshed(root.occluded_in(root), Tree::refreshed(root, r)) == Tree::refreshed(
            root,
            r,
        ),
{
    let after = root.occluded_in(root);
    let r2 = Tree::refreshed(root, r);
    root.lemma_occluded_shape(root);
    if r.active {
        assert forall|face: Face| after.hides(r2, face) == root.hides(r, face) by {
            let size = crate::tree::pow2((root.depth - r.level) as nat);
            let p = r.beside(face, size);
            assert(r2.beside(face, size) == p);
            root.lemma_occluded_node_at(root, p.0, p.1, p.2, r.level as int);
        }
        assert(after.hides(r2, Face::Front) == root.hides(r, Face::Front));
        assert(after.hides(r2, Face::Back) == root.hides(r, Face::Back));
        assert(after.hides(r2, Face::Top) == root.hides(r, Face::Top));
        assert(after.hides(r2, Face::Bottom) == root.hides(r, Face::Bottom));
        assert(after.hides(r2, Face::Left) == root.hides(r, Face::Left));
        assert(after.hides(r2, Face::Right) == root.hides(r, Face::Right));
    }
}

proof fn lemma_occluded_twice(root: Tree, s: Tree)
    requires
        root.wf(),
    ensures
        s.occluded_in(root).occluded_in(root.occluded_in(root)) == s.occluded_in(root),
    decreases s,
{
    let once = s.occluded_in(root);
    let twice = once.occluded_in(root.occluded_in(root));
    lemma_refresh_stable(root, s.node);
    assert forall|k: int| 0 <= k < s.children.len() implies twice.children[k]
        == once.children[k] by {
        lemma_occluded_twice(root, s.children[k]);
    }
    assert(twice.children =~= once.children);
}

/// Idempotence: calculating occlusion a second time, with no edit in
/// between, changes nothing.
pub proof fn law_occlusion_idempotent(t: Tree)
    requires
        t.wf(),
    ensures
        t.occluded_in(t).occluded_in(t.occluded_in(t)) == t.occluded_in(t),
{
    lemma_occluded_twice(t, t);
}

} // verus!
