use crafter::cube::Cube;
use crafter::model::Model;
use crafter::occlusion::Face;
use crafter::octree::Octree;
use crafter::point::UNIT;
use crafter::selection::selection_voxels;
use crafter::selection::SelectionShape;
use crafter::stored_octree::StoredNode;
use crafter::stored_octree::StoredOctree;

fn rgba(r: f32, g: f32, b: f32, a: f32) -> [u32; 4] {
    [r.to_bits(), g.to_bits(), b.to_bits(), a.to_bits()]
}

fn built(depth: u32) -> Octree {
    let mut tree = Octree::new();
    tree.decimate(depth);
    tree
}

fn at(tree: &Octree, x: i32, y: i32, z: i32) -> StoredNode {
    tree.find(x, y, z, tree.depth()).unwrap().record()
}

fn flags(r: &StoredNode) -> [bool; 6] {
    [
        r.left_occluded,
        r.right_occluded,
        r.bottom_occluded,
        r.top_occluded,
        r.front_occluded,
        r.back_occluded,
    ]
}

fn point(x: f32, y: f32, z: f32) -> [i32; 3] {
    [
        (x * UNIT as f32).round() as i32,
        (y * UNIT as f32).round() as i32,
        (z * UNIT as f32).round() as i32,
    ]
}

const EYE: [i32; 3] = [0, 0, 0];

#[test]
fn fresh_trees_have_no_active_nodes() {
    for depth in 1..6 {
        let tree = built(depth);
        assert_eq!(tree.depth(), depth);
        assert!(tree.active_nodes().is_empty());
        assert!(tree.prepare().active_nodes.is_empty());
        assert!(tree.drawables().is_empty());
    }
    let tree = Octree::new();
    assert_eq!(tree.depth(), 1);
    assert!(tree.active_nodes().is_empty());
    assert_eq!(tree.lod_threshold(), None);
}

#[test]
fn toggle_then_find_gives_the_voxel() {
    let color = rgba(0.25, 0.5, 0.75, 1.0);
    for depth in 2..6 {
        let range = 1 << (depth - 2);
        for c in [[-range, -range, -range], [range - 1, range - 1, range - 1], [0, -1, 0]] {
            let mut tree = built(depth);
            tree.toggle_voxels(vec![c], true, color, EYE, 3, 4);
            let r = at(&tree, c[0], c[1], c[2]);
            assert!(r.active);
            assert_eq!((r.color, r.fluid, r.noise), (color, 3, 4));
            assert_eq!((r.x, r.y, r.z, r.level), (c[0], c[1], c[2], depth));
            assert_eq!(tree.active_nodes(), vec![r]);
        }
    }
}

#[test]
fn toggle_outside_the_tree_changes_nothing() {
    let mut tree = built(3);
    tree.toggle_voxels(vec![[2, 0, 0], [0, -3, 0], [i32::MAX, 0, 0]], true, rgba(1.0, 0.0, 0.0, 1.0), EYE, 0, 0);
    assert!(tree.active_nodes().is_empty());
    assert!(tree.all_voxels_active(&vec![[2, 0, 0]]));
}

#[test]
fn toggle_does_not_touch_occlusion() {
    let red = rgba(1.0, 0.0, 0.0, 1.0);
    let mut tree = built(3);
    tree.toggle_voxels(vec![[0, 0, 0], [1, 0, 0]], true, red, EYE, 0, 0);
    assert_eq!(flags(&at(&tree, 0, 0, 0)), [false; 6]);
    tree.recalculate_occlusion();
    assert!(at(&tree, 0, 0, 0).right_occluded);
    tree.toggle_voxels(vec![[1, 0, 0]], false, red, EYE, 0, 0);
    assert!(at(&tree, 0, 0, 0).right_occluded);
    assert!(at(&tree, 1, 0, 0).left_occluded);
    tree.recalculate_occlusion();
    assert!(!at(&tree, 0, 0, 0).right_occluded);
    assert!(at(&tree, 1, 0, 0).left_occluded);
}

#[test]
fn two_red_voxels_hide_the_face_between_them() {
    let red = rgba(1.0, 0.0, 0.0, 1.0);
    let mut tree = built(3);
    tree.toggle_voxels(vec![[0, 0, 0], [1, 0, 0]], true, red, EYE, 0, 0);
    tree.recalculate_occlusion();
    let a = at(&tree, 0, 0, 0);
    let b = at(&tree, 1, 0, 0);
    assert_eq!(flags(&a), [false, true, false, false, false, false]);
    assert_eq!(flags(&b), [true, false, false, false, false, false]);
    let cubes = tree.drawables();
    assert_eq!(cubes.len(), 2);
    let cube = cubes.iter().find(|c| c.translation == [0, 0, 0]).unwrap();
    assert!(cube.right_occluded);
    assert!(cube.smooth);
    assert_eq!(cube.scale, 1);
    assert_eq!(cube.color, red);
    let mesh = cube.vertices();
    assert_eq!(mesh.len(), 60);
    assert!(mesh.iter().all(|v| v.face != Face::Right));
    for face in [Face::Bottom, Face::Left, Face::Front, Face::Back, Face::Top] {
        assert_eq!(mesh.iter().filter(|v| v.face == face).count(), 12);
    }
    let other = cubes.iter().find(|c| c.translation == [1, 0, 0]).unwrap();
    assert!(other.left_occluded);
    assert!(other.vertices().iter().all(|v| v.face != Face::Left));
}

#[test]
fn occlusion_in_every_direction() {
    let c = rgba(0.1, 0.2, 0.3, 1.0);
    let mut tree = built(4);
    let around = vec![[0, 0, 0], [-1, 0, 0], [1, 0, 0], [0, -1, 0], [0, 1, 0], [0, 0, -1], [0, 0, 1]];
    tree.toggle_voxels(around, true, c, EYE, 0, 0);
    tree.recalculate_occlusion();
    assert_eq!(flags(&at(&tree, 0, 0, 0)), [true; 6]);
    assert_eq!(flags(&at(&tree, -1, 0, 0)), [false, true, false, false, false, false]);
    assert_eq!(flags(&at(&tree, 1, 0, 0)), [true, false, false, false, false, false]);
    assert_eq!(flags(&at(&tree, 0, -1, 0)), [false, false, false, true, false, false]);
    assert_eq!(flags(&at(&tree, 0, 1, 0)), [false, false, true, false, false, false]);
    assert_eq!(flags(&at(&tree, 0, 0, -1)), [false, false, false, false, false, true]);
    assert_eq!(flags(&at(&tree, 0, 0, 1)), [false, false, false, false, true, false]);
    assert!(tree.drawables().iter().find(|c| c.translation == [0, 0, 0]).unwrap().vertices().is_empty());
}

#[test]
fn neighbours_that_differ_do_not_occlude() {
    let mut tree = built(3);
    tree.toggle_voxels(vec![[0, 0, 0]], true, rgba(1.0, 0.0, 0.0, 1.0), EYE, 0, 0);
    tree.toggle_voxels(vec![[1, 0, 0]], true, rgba(0.0, 1.0, 0.0, 1.0), EYE, 0, 0);
    tree.toggle_voxels(vec![[0, 1, 0]], true, rgba(1.0, 0.0, 0.0, 1.0), EYE, 1, 0);
    tree.toggle_voxels(vec![[0, 0, 1]], true, rgba(1.0, 0.0, 0.0, 1.0), EYE, 0, 1);
    tree.recalculate_occlusion();
    for r in tree.active_nodes() {
        assert_eq!(flags(&r), [false; 6]);
    }
}

#[test]
fn occlusion_is_symmetric_and_stable() {
    let mut tree = built(4);
    let mut cells = Vec::new();
    for x in -3..3 {
        for y in -2..2 {
            for z in 0..3 {
                if (x * 7 + y * 3 + z) % 3 != 0 {
                    cells.push([x, y, z]);
                }
            }
        }
    }
    let (first, second) = cells.split_at(cells.len() / 2);
    tree.toggle_voxels(first.to_vec(), true, rgba(1.0, 0.0, 0.0, 1.0), EYE, 0, 0);
    tree.toggle_voxels(second.to_vec(), true, rgba(0.0, 0.0, 1.0, 1.0), EYE, 0, 0);
    tree.recalculate_occlusion();
    let once = tree.active_nodes();
    for a in once.iter() {
        if let Some(n) = tree.find(a.x + 1, a.y, a.z, 4) {
            let b = n.record();
            if b.active {
                assert_eq!(a.right_occluded, b.left_occluded);
                assert_eq!(a.right_occluded, a.uniform(&b));
            } else {
                assert!(!a.right_occluded);
            }
        }
        if let Some(n) = tree.find(a.x, a.y + 1, a.z, 4) {
            let b = n.record();
            if b.active {
                assert_eq!(a.top_occluded, b.bottom_occluded);
            }
        }
        if let Some(n) = tree.find(a.x, a.y, a.z + 1, 4) {
            let b = n.record();
            if b.active {
                assert_eq!(a.back_occluded, b.front_occluded);
            }
        }
    }
    tree.recalculate_occlusion();
    assert_eq!(tree.active_nodes(), once);
}

#[test]
fn targeted_recalculation_matches_the_full_one() {
    let red = rgba(1.0, 0.0, 0.0, 1.0);
    let mut full = built(4);
    let mut near = built(4);
    let base = vec![[0, 0, 0], [1, 0, 0], [2, 0, 0], [1, 1, 0], [-4, -4, -4], [3, 3, 3]];
    for tree in [&mut full, &mut near] {
        tree.toggle_voxels(base.clone(), true, red, EYE, 0, 0);
        tree.recalculate_occlusion();
        tree.toggle_voxels(vec![[1, 0, 0]], false, red, EYE, 0, 0);
        tree.toggle_voxels(vec![[1, 0, 1]], true, red, EYE, 0, 0);
    }
    full.recalculate_occlusion();
    near.recalculate_occlusion_for_selections(vec![[1, 0, 0], [1, 0, 1], [i32::MAX, i32::MIN, 0]]);
    for p in [[0, 0, 0], [2, 0, 0], [1, 1, 0], [1, 0, 1], [1, 0, 0]] {
        assert_eq!(at(&near, p[0], p[1], p[2]), at(&full, p[0], p[1], p[2]));
    }
    assert_eq!(flags(&at(&near, 1, 1, 0)), [false; 6]);
    assert_eq!(flags(&at(&near, 1, 0, 1)), [false; 6]);
    assert!(at(&near, 1, 0, 0).left_occluded);
}

#[test]
fn targeted_recalculation_leaves_far_cubes_alone() {
    let red = rgba(1.0, 0.0, 0.0, 1.0);
    let mut tree = built(4);
    tree.toggle_voxels(vec![[0, 0, 0], [1, 0, 0], [3, 0, 0], [2, 0, 0]], true, red, EYE, 0, 0);
    tree.recalculate_occlusion_for_selections(vec![[0, 0, 0]]);
    assert!(at(&tree, 0, 0, 0).right_occluded);
    assert!(at(&tree, 1, 0, 0).left_occluded && at(&tree, 1, 0, 0).right_occluded);
    assert_eq!(flags(&at(&tree, 2, 0, 0)), [false; 6]);
    assert_eq!(flags(&at(&tree, 3, 0, 0)), [false; 6]);
}

fn round_trip(depth: u32, cells: Vec<[i32; 3]>) {
    let mut tree = built(depth);
    let half = cells.len() / 2;
    tree.toggle_voxels(cells[..half].to_vec(), true, rgba(1.0, 0.0, 0.0, 1.0), EYE, 1, 0);
    tree.toggle_voxels(cells[half..].to_vec(), true, rgba(0.0, 0.5, 0.0, 0.5), EYE, 0, 2);
    tree.recalculate_occlusion();
    let stored = tree.prepare();
    assert_eq!(stored.active_nodes.len(), cells.len());
    let mut other = built(depth);
    other.toggle_voxels(vec![[0, 0, 0], [-1, -1, -1]], true, rgba(0.0, 0.0, 0.0, 0.0), EYE, 9, 9);
    let dropped = other.load_from_serial(StoredOctree { active_nodes: stored.active_nodes.clone() }, EYE);
    assert_eq!(dropped, 0);
    assert_eq!(other.prepare(), stored);
    assert_eq!(other.active_nodes(), tree.active_nodes());
}

#[test]
fn round_trip_of_an_empty_tree() {
    round_trip(3, vec![]);
}

#[test]
fn round_trip_of_one_leaf() {
    round_trip(3, vec![[1, -2, 0]]);
}

#[test]
fn round_trip_of_many_leaves() {
    let mut cells = Vec::new();
    for x in -4..4 {
        for y in -4..4 {
            for z in -4..4 {
                if (x + 2 * y + 3 * z) % 4 != 0 {
                    cells.push([x, y, z]);
                }
            }
        }
    }
    assert!(cells.len() > 100);
    round_trip(4, cells);
}

#[test]
fn load_reports_the_records_it_drops() {
    let red = rgba(1.0, 0.0, 0.0, 1.0);
    let mut deep = built(4);
    deep.toggle_voxels(vec![[0, 0, 0], [3, 3, 3], [-4, 0, 0]], true, red, EYE, 0, 0);
    let stored = deep.prepare();
    let mut shallow = built(3);
    shallow.toggle_voxels(vec![[1, 1, 1]], true, red, EYE, 0, 0);
    assert_eq!(shallow.load_from_serial(stored, EYE), 3);
    assert!(shallow.active_nodes().is_empty());
    let mut same = built(4);
    let mut records = deep.prepare().active_nodes;
    records[1].x = 99;
    assert_eq!(same.load_from_serial(StoredOctree { active_nodes: records }, EYE), 1);
    assert_eq!(same.active_nodes().len(), 2);
}

#[test]
fn load_copies_occlusion_flags_as_stored() {
    let mut tree = built(3);
    let record = StoredNode {
        x: 0,
        y: 0,
        z: 0,
        level: 3,
        active: true,
        color: rgba(0.5, 0.5, 0.5, 1.0),
        fluid: 1,
        noise: 1,
        front_occluded: true,
        back_occluded: false,
        top_occluded: true,
        bottom_occluded: false,
        left_occluded: true,
        right_occluded: false,
    };
    assert_eq!(tree.load_from_serial(StoredOctree { active_nodes: vec![record] }, EYE), 0);
    assert_eq!(at(&tree, 0, 0, 0), record);
}

#[test]
fn paint_of_an_isolated_leaf_paints_that_leaf_only() {
    let red = rgba(1.0, 0.0, 0.0, 1.0);
    let blue = rgba(0.0, 0.0, 1.0, 1.0);
    let green = rgba(0.0, 1.0, 0.0, 1.0);
    let mut tree = built(3);
    tree.toggle_voxels(vec![[0, 0, 0], [0, 1, 1]], true, red, EYE, 0, 0);
    tree.toggle_voxels(vec![[1, 0, 0]], true, blue, EYE, 0, 0);
    tree.recalculate_occlusion();
    let before = tree.active_nodes();
    tree.root.paint_connected_nodes((0, 0, 0, 3), green, 5, 6);
    let r = at(&tree, 0, 0, 0);
    assert_eq!((r.color, r.noise, r.fluid), (green, 5, 6));
    for old in before.iter() {
        if (old.x, old.y, old.z) != (0, 0, 0) {
            assert_eq!(at(&tree, old.x, old.y, old.z), *old);
        }
    }
    assert_eq!(tree.active_nodes().len(), 3);
}

#[test]
fn paint_covers_the_connected_region() {
    let red = rgba(1.0, 0.0, 0.0, 1.0);
    let blue = rgba(0.0, 0.0, 1.0, 1.0);
    let green = rgba(0.0, 1.0, 0.0, 1.0);
    let mut tree = built(4);
    let region = vec![[0, 0, 0], [1, 0, 0], [2, 0, 0], [2, 1, 0], [2, 1, 1], [2, 1, -1], [0, -1, 0]];
    tree.toggle_voxels(region.clone(), true, red, EYE, 0, 0);
    tree.toggle_voxels(vec![[3, 0, 0], [0, 0, 1]], true, blue, EYE, 0, 0);
    tree.toggle_voxels(vec![[-3, -3, -3], [2, 3, 0]], true, red, EYE, 0, 0);
    tree.recalculate_occlusion();
    let mut completed = Vec::new();
    tree.root.paint_connected_nodes_with_completion((2, 1, 1, 4), green, 1, 2, &mut completed);
    assert_eq!(completed[0], (2, 1, 1, 4));
    let mut found: Vec<[i32; 3]> = completed.iter().map(|c| [c.0, c.1, c.2]).collect();
    found.sort();
    let mut want = region.clone();
    want.sort();
    assert_eq!(found, want);
    for p in region {
        let r = at(&tree, p[0], p[1], p[2]);
        assert_eq!((r.color, r.noise, r.fluid), (green, 1, 2));
    }
    assert_eq!(at(&tree, 3, 0, 0).color, blue);
    assert_eq!(at(&tree, 0, 0, 1).color, blue);
    assert_eq!(at(&tree, -3, -3, -3).color, red);
    assert_eq!(at(&tree, 2, 3, 0).color, red);
}

#[test]
fn paint_order_is_left_right_top_bottom_front_back() {
    let red = rgba(1.0, 0.0, 0.0, 1.0);
    let mut tree = built(4);
    let around = vec![[0, 0, 0], [-1, 0, 0], [1, 0, 0], [0, -1, 0], [0, 1, 0], [0, 0, -1], [0, 0, 1]];
    tree.toggle_voxels(around, true, red, EYE, 0, 0);
    tree.recalculate_occlusion();
    let mut completed = Vec::new();
    tree.root.paint_connected_nodes_with_completion((0, 0, 0, 4), red, 0, 0, &mut completed);
    assert_eq!(
        completed,
        vec![(0, 0, 0, 4), (-1, 0, 0, 4), (1, 0, 0, 4), (0, 1, 0, 4), (0, -1, 0, 4), (0, 0, -1, 4), (0, 0, 1, 4)]
    );
}

#[test]
fn paint_keeps_out_of_completed_places() {
    let red = rgba(1.0, 0.0, 0.0, 1.0);
    let green = rgba(0.0, 1.0, 0.0, 1.0);
    let mut tree = built(4);
    tree.toggle_voxels(vec![[0, 0, 0], [1, 0, 0], [2, 0, 0]], true, red, EYE, 0, 0);
    tree.recalculate_occlusion();
    let mut completed = vec![(1, 0, 0, 4)];
    tree.root.paint_connected_nodes_with_completion((0, 0, 0, 4), green, 0, 0, &mut completed);
    assert_eq!(completed, vec![(1, 0, 0, 4), (0, 0, 0, 4)]);
    assert_eq!(at(&tree, 0, 0, 0).color, green);
    assert_eq!(at(&tree, 1, 0, 0).color, red);
    assert_eq!(at(&tree, 2, 0, 0).color, red);
}

#[test]
fn paint_at_a_missing_place_changes_nothing() {
    let red = rgba(1.0, 0.0, 0.0, 1.0);
    let mut tree = built(3);
    tree.toggle_voxels(vec![[0, 0, 0]], true, red, EYE, 0, 0);
    let before = tree.active_nodes();
    let mut completed = Vec::new();
    tree.root.paint_connected_nodes_with_completion((7, 0, 0, 3), rgba(0.0, 0.0, 0.0, 0.0), 1, 1, &mut completed);
    assert!(completed.is_empty());
    assert_eq!(tree.active_nodes(), before);
}

#[test]
fn picking_returns_the_nearest_cube_met() {
    let red = rgba(1.0, 0.0, 0.0, 1.0);
    let mut tree = built(4);
    tree.toggle_voxels(vec![[3, 0, 0], [0, 0, 0], [-2, 0, 0], [0, 3, 3]], true, red, EYE, 0, 0);
    let near = point(-7.5, 0.5, 0.5);
    let far = point(7.5, 0.5, 0.5);
    assert_eq!(tree.root.find_first_collision(&near, &far), Some((-2, 0, 0, 4)));
    assert_eq!(tree.root.find_first_collision(&far, &near), Some((3, 0, 0, 4)));
    for _ in 0..5 {
        assert_eq!(tree.root.find_first_collision(&near, &far), Some((-2, 0, 0, 4)));
    }
    let miss_near = point(-7.5, 2.5, 0.5);
    let miss_far = point(7.5, 2.5, 0.5);
    assert_eq!(tree.root.find_first_collision(&miss_near, &miss_far), None);
    let slant_near = point(0.5, 7.5, 7.5);
    let slant_far = point(0.5, 6.5, 6.5);
    assert_eq!(tree.root.find_first_collision(&slant_near, &slant_far), Some((0, 3, 3, 4)));
}

#[test]
fn picking_takes_the_first_of_equally_near_cubes() {
    let red = rgba(1.0, 0.0, 0.0, 1.0);
    let mut tree = built(3);
    tree.toggle_voxels(vec![[1, 0, 0], [-1, 0, 0]], true, red, EYE, 0, 0);
    let near = point(0.0, 0.5, 0.5);
    let far = point(1.0, 0.5, 0.5);
    let listed = tree.active_nodes();
    assert_eq!((listed[0].x, listed[1].x), (-1, 1));
    assert_eq!(listed[0].distance_to(&near), listed[1].distance_to(&near));
    assert_eq!(tree.root.find_first_collision(&near, &far), Some((-1, 0, 0, 3)));
}

#[test]
fn intersection_and_distance_of_one_cube() {
    let mut tree = built(3);
    tree.toggle_voxels(vec![[1, 0, -1]], true, rgba(1.0, 1.0, 1.0, 1.0), EYE, 0, 0);
    let node = tree.find(1, 0, -1, 3).unwrap();
    assert!(node.intersects_line(&point(1.5, 0.5, 5.0), &point(1.5, 0.5, 4.0)));
    assert!(node.intersects_line(&point(1.0, 0.0, 5.0), &point(1.0, 0.0, 4.0)));
    assert!(node.intersects_line(&point(2.0, 1.0, 5.0), &point(2.0, 1.0, 4.0)));
    assert!(!node.intersects_line(&point(2.5, 0.5, 5.0), &point(2.5, 0.5, 4.0)));
    assert!(!node.intersects_line(&point(1.5, 0.5, 5.0), &point(1.5, 0.5, 5.0)));
    assert!(node.intersects_line(&point(0.0, 0.0, -2.0), &point(4.0, 2.0, 2.0)));
    assert!(!node.intersects_line(&point(0.0, 3.0, -2.0), &point(4.0, 5.0, 2.0)));
    assert_eq!(node.distance_to(&point(1.0, 0.0, -1.0)), 0);
    let unit = UNIT as i128;
    assert_eq!(node.distance_to(&point(2.0, 2.0, 1.0)), (1 + 4 + 4) * unit * unit);
    assert_eq!(node.distance_to(&point(0.5, 0.0, -1.0)), unit * unit / 4);
    assert_eq!(node.distance_to(&[i32::MIN, i32::MAX, 0]) > 0, true);
}

#[test]
fn paint_first_collision_paints_what_it_hits() {
    let red = rgba(1.0, 0.0, 0.0, 1.0);
    let green = rgba(0.0, 1.0, 0.0, 1.0);
    let mut model = Model::new();
    model.voxels.decimate(4);
    model.toggle_voxels(vec![[0, 0, 0], [1, 0, 0], [3, 0, 0]], true, red, EYE, 0, 0);
    model.recalculate_occlusion();
    let hit = model.paint_first_collision(point(7.5, 0.5, 0.5), point(-7.5, 0.5, 0.5), green, 1, 0);
    assert_eq!(hit, Some((3, 0, 0, 4)));
    assert_eq!(at(&model.voxels, 3, 0, 0).color, green);
    assert_eq!(at(&model.voxels, 1, 0, 0).color, red);
    let hit = model.paint_first_collision(point(-7.5, 0.5, 0.5), point(7.5, 0.5, 0.5), green, 1, 0);
    assert_eq!(hit, Some((0, 0, 0, 4)));
    assert_eq!(at(&model.voxels, 0, 0, 0).color, green);
    assert_eq!(at(&model.voxels, 1, 0, 0).color, green);
    let hit = model.paint_first_collision(point(-7.5, 5.5, 0.5), point(7.5, 5.5, 0.5), red, 0, 0);
    assert_eq!(hit, None);
    assert_eq!(model.voxels.active_nodes().iter().filter(|r| r.color == green).count(), 3);
}

#[test]
fn optimize_does_nothing_without_a_threshold() {
    let red = rgba(1.0, 0.0, 0.0, 1.0);
    let mut tree = built(3);
    let mut all = Vec::new();
    for x in -2..2 {
        for y in -2..2 {
            for z in -2..2 {
                all.push([x, y, z]);
            }
        }
    }
    tree.toggle_voxels(all, true, red, [1000 * UNIT, 0, 0], 0, 0);
    let before = tree.active_nodes();
    assert_eq!(before.len(), 64);
    tree.optimize([1000 * UNIT, 0, 0]);
    assert_eq!(tree.active_nodes(), before);
    assert_eq!(tree.drawables().len(), 64);
}

#[test]
fn optimize_collapses_uniform_full_branches() {
    let red = rgba(1.0, 0.0, 0.0, 1.0);
    let mut tree = built(3);
    tree.set_lod_threshold(Some(1000));
    assert_eq!(tree.lod_threshold(), Some(1000));
    let mut block = Vec::new();
    for x in 0..2 {
        for y in 0..2 {
            for z in 0..2 {
                block.push([x, y, z]);
            }
        }
    }
    tree.toggle_voxels(block.clone(), true, red, EYE, 2, 3);
    let branch = tree.find(0, 0, 0, 2).unwrap().record();
    assert!(branch.active);
    assert_eq!((branch.color, branch.fluid, branch.noise), (red, 2, 3));
    assert!(!tree.find(-2, -2, -2, 1).unwrap().record().active);
    assert_eq!(tree.active_nodes().len(), 9);
    assert_eq!(tree.prepare().active_nodes.len(), 8);
    let cubes: Vec<Cube> = tree.drawables();
    assert_eq!(cubes.len(), 1);
    assert_eq!((cubes[0].translation, cubes[0].scale), ([0, 0, 0], 2));
    tree.toggle_voxels(vec![[1, 1, 1]], true, rgba(0.0, 0.0, 1.0, 1.0), EYE, 2, 3);
    assert!(!tree.find(0, 0, 0, 2).unwrap().record().active);
    assert_eq!(tree.drawables().len(), 8);
    tree.toggle_voxels(vec![[1, 1, 1]], false, red, EYE, 2, 3);
    assert!(!tree.find(0, 0, 0, 2).unwrap().record().active);
    assert_eq!(tree.drawables().len(), 7);
}

#[test]
fn optimize_collapses_far_branches_with_an_active_child() {
    let red = rgba(1.0, 0.0, 0.0, 1.0);
    let blue = rgba(0.0, 0.0, 1.0, 1.0);
    let mut tree = built(3);
    tree.set_lod_threshold(Some(10));
    tree.toggle_voxels(vec![[0, 0, 0]], true, red, EYE, 0, 0);
    tree.toggle_voxels(vec![[1, 1, 0]], true, blue, EYE, 0, 0);
    assert!(!tree.find(0, 0, 0, 2).unwrap().record().active);
    tree.optimize([40 * UNIT, 0, 0]);
    let branch = tree.find(0, 0, 0, 2).unwrap().record();
    assert!(branch.active);
    assert_eq!(branch.color, blue);
    assert!(!tree.find(-2, 0, 0, 2).unwrap().record().active);
    let top = tree.find(-2, -2, -2, 1).unwrap().record();
    assert!(top.active);
    assert_eq!(top.color, blue);
    let cubes = tree.drawables();
    assert_eq!(cubes.len(), 1);
    assert_eq!((cubes[0].translation, cubes[0].scale), ([-2, -2, -2], 4));
    tree.optimize([12 * UNIT, 1 * UNIT, 1 * UNIT]);
    assert!(tree.find(0, 0, 0, 2).unwrap().record().active);
    assert!(!tree.find(-2, -2, -2, 1).unwrap().record().active);
    tree.optimize(EYE);
    assert!(!tree.find(0, 0, 0, 2).unwrap().record().active);
    assert_eq!(tree.drawables().len(), 2);
    assert_eq!(tree.prepare().active_nodes.len(), 2);
}

#[test]
fn far_threshold_is_exact() {
    let red = rgba(1.0, 0.0, 0.0, 1.0);
    let mut tree = built(2);
    tree.set_lod_threshold(Some(5));
    tree.toggle_voxels(vec![[0, 0, 0]], true, red, EYE, 0, 0);
    tree.optimize([5 * UNIT, 0, 0]);
    assert!(!tree.find(-1, -1, -1, 1).unwrap().record().active);
    tree.optimize([5 * UNIT + 1, 0, 0]);
    assert!(tree.find(-1, -1, -1, 1).unwrap().record().active);
    tree.optimize([-5 * UNIT, 0, 0]);
    assert!(!tree.find(-1, -1, -1, 1).unwrap().record().active);
    tree.optimize([-5 * UNIT - 1, 0, 0]);
    assert!(tree.find(-1, -1, -1, 1).unwrap().record().active);
    tree.optimize([i32::MAX, i32::MIN, i32::MAX]);
    assert!(tree.find(-1, -1, -1, 1).unwrap().record().active);
}

#[test]
fn round_trip_with_level_of_detail() {
    let red = rgba(1.0, 0.0, 0.0, 1.0);
    let mut tree = built(3);
    tree.set_lod_threshold(Some(3));
    let mut block = Vec::new();
    for x in -2..0 {
        for y in -2..0 {
            for z in -2..0 {
                block.push([x, y, z]);
            }
        }
    }
    block.push([1, 1, 1]);
    tree.toggle_voxels(block, true, red, EYE, 0, 0);
    tree.recalculate_occlusion();
    let stored = tree.prepare();
    assert_eq!(stored.active_nodes.len(), 9);
    let mut other = built(3);
    other.set_lod_threshold(Some(7));
    assert_eq!(other.load_from_serial(tree.prepare(), [90 * UNIT, 0, 0]), 0);
    assert_eq!(other.prepare(), stored);
}

#[test]
fn init_builds_the_deepest_tree() {
    let mut model = Model::new();
    model.init();
    assert_eq!(model.voxels.depth(), 8);
    assert!(model.voxels.find(-64, -64, -64, 8).is_some());
    assert!(model.voxels.find(63, 63, 63, 8).is_some());
    assert!(model.voxels.find(64, 0, 0, 8).is_none());
    assert!(model.voxels.find(-64, -64, -64, 1).is_some());
    assert!(model.voxels.active_nodes().is_empty());
    model.toggle_voxels(vec![[63, -64, 0]], true, rgba(1.0, 1.0, 1.0, 1.0), EYE, 0, 0);
    assert!(model.all_voxels_active(&vec![[63, -64, 0]]));
    assert_eq!(model.drawables().len(), 1);
}

#[test]
fn model_saves_and_loads() {
    let red = rgba(1.0, 0.0, 0.0, 1.0);
    let mut model = Model::new();
    model.voxels.decimate(3);
    model.toggle_voxels(vec![[0, 0, 0], [1, 0, 0]], true, red, EYE, 0, 0);
    model.recalculate_occlusion_for_selections(vec![[0, 0, 0]]);
    let (storage, stored) = model.save("scene.scn");
    assert_eq!(storage.path(), "scene.scn");
    assert_eq!(stored.active_nodes.len(), 2);
    assert!(stored.active_nodes[0].right_occluded);
    let mut other = Model::new();
    other.voxels.decimate(3);
    assert_eq!(other.load(stored, EYE), 0);
    assert_eq!(other.voxels.active_nodes(), model.voxels.active_nodes());
    other.optimize(EYE);
    assert_eq!(other.voxels.active_nodes(), model.voxels.active_nodes());
}

#[test]
fn toggling_a_selection_switches_it_on_then_off() {
    let red = rgba(1.0, 0.0, 0.0, 1.0);
    let mut model = Model::new();
    model.voxels.decimate(4);
    let want = selection_voxels(&[0, 0, 0], 2, SelectionShape::Sphere, 4);
    assert_eq!(want.len(), 27);
    let (on, voxels) = model.toggle_selection(&[0, 0, 0], 2, SelectionShape::Sphere, red, EYE, 0, 0);
    assert!(on);
    assert_eq!(voxels, want);
    assert_eq!(model.voxels.active_nodes().len(), 27);
    assert_eq!(flags(&at(&model.voxels, 0, 0, 0)), [true; 6]);
    assert_eq!(flags(&at(&model.voxels, 1, 1, 1)), [true, false, true, false, true, false]);
    let mut full = model.clone();
    full.recalculate_occlusion();
    assert_eq!(full.voxels.active_nodes(), model.voxels.active_nodes());
    let (on, _) = model.toggle_selection(&[1, 0, 0], 1, SelectionShape::Cube, red, EYE, 0, 0);
    assert!(!on);
    assert_eq!(model.voxels.active_nodes().len(), 26);
    assert!(!at(&model.voxels, 0, 0, 0).right_occluded);
    assert!(at(&model.voxels, 0, 0, 0).left_occluded);
    let (on, _) = model.toggle_selection(&[0, 0, 0], 2, SelectionShape::Sphere, red, EYE, 0, 0);
    assert!(on);
    assert_eq!(model.voxels.active_nodes().len(), 27);
    let (on, _) = model.toggle_selection(&[0, 0, 0], 2, SelectionShape::Sphere, red, EYE, 0, 0);
    assert!(!on);
    assert!(model.voxels.active_nodes().is_empty());
    let (on, voxels) = model.toggle_selection(&[100, 0, 0], 2, SelectionShape::Sphere, red, EYE, 0, 0);
    assert!(!on);
    assert!(voxels.is_empty());
    let (on, voxels) = model.toggle_selection(&[3, 0, 0], 2, SelectionShape::SquareYZ, red, EYE, 0, 0);
    assert_eq!((on, voxels.len()), (true, 9));
    assert_eq!(model.voxels.active_nodes().len(), 9);
    let (on, voxels) = model.toggle_selection(&[20, 0, 0], 2, SelectionShape::SquareYZ, red, EYE, 0, 0);
    assert_eq!((on, voxels.len()), (false, 9));
    assert_eq!(model.voxels.active_nodes().len(), 9);
}
