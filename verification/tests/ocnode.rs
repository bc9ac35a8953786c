use crafter::ocnode::Ocnode;
use crafter::ocnode::DEFAULT_COLOR;
use crafter::stored_octree::StoredNode;
use crafter::tree::LEVELS;

fn red() -> [u32; 4] {
    [1.0f32.to_bits(), 0.0f32.to_bits(), 0.0f32.to_bits(), 1.0f32.to_bits()]
}

fn voxel(x: i32, y: i32, z: i32, level: u32) -> StoredNode {
    StoredNode {
        x,
        y,
        z,
        level,
        active: true,
        color: red(),
        fluid: 0,
        noise: 0,
        front_occluded: false,
        back_occluded: false,
        top_occluded: false,
        bottom_occluded: false,
        left_occluded: false,
        right_occluded: false,
    }
}

#[test]
fn new_tree_is_one_inactive_voxel() {
    let root = Ocnode::new();
    assert!(!root.has_children());
    assert_eq!(root.depth(), 1);
    assert!(root.active_nodes().is_empty());
    let r = root.find_by_index(0, 0, 0, 1).unwrap().record();
    assert_eq!((r.x, r.y, r.z, r.level), (0, 0, 0, 1));
    assert_eq!(r.color, DEFAULT_COLOR);
    assert_eq!(r.color, [0.8f32.to_bits(); 4]);
    assert!(root.find_by_index(1, 0, 0, 1).is_none());
}

#[test]
fn range_and_resolution() {
    assert_eq!(LEVELS, 8);
    assert_eq!(Ocnode::range(1), 0);
    assert_eq!(Ocnode::range(2), 1);
    assert_eq!(Ocnode::range(3), 2);
    assert_eq!(Ocnode::range(8), 64);
    let mut root = Ocnode::new();
    root.decimate(5);
    assert_eq!(root.resolution(5), 1);
    assert_eq!(root.resolution(4), 2);
    assert_eq!(root.resolution(1), 16);
    assert_eq!(root.resolution(0), 32);
}

#[test]
fn decimate_builds_every_cell() {
    let mut root = Ocnode::new();
    root.decimate(3);
    assert_eq!(root.depth(), 3);
    assert!(root.has_children());
    let mut count = 0;
    for x in -3..4 {
        for y in -3..4 {
            for z in -3..4 {
                let inside = -2 <= x && x < 2 && -2 <= y && y < 2 && -2 <= z && z < 2;
                let found = root.find_by_index(x, y, z, 3);
                assert_eq!(found.is_some(), inside);
                if let Some(n) = found {
                    let r = n.record();
                    assert_eq!((r.x, r.y, r.z, r.level), (x, y, z, 3));
                    assert!(!r.active);
                    assert!(!n.has_children());
                    assert_eq!(r.color, DEFAULT_COLOR);
                    count += 1;
                }
            }
        }
    }
    assert_eq!(count, 64);
    assert!(root.find_by_index(-2, -2, -2, 1).is_some());
    assert!(root.find_by_index(0, 0, 0, 1).is_none());
    assert!(root.find_by_index(0, 0, 0, 2).is_some());
    assert!(root.find_by_index(-2, 0, 0, 2).is_some());
    assert!(root.find_by_index(1, 0, 0, 2).is_none());
    assert!(root.find_by_index(0, 0, 0, 4).is_none());
    assert!(root.find_by_index(0, 0, 0, 0).is_none());
    assert!(root.find_by_index(i32::MAX, i32::MIN, 0, 3).is_none());
    assert!(root.active_nodes().is_empty());
}

#[test]
fn decimate_to_one_level_leaves_a_single_voxel() {
    let mut root = Ocnode::new();
    root.decimate(3);
    root.decimate(1);
    assert_eq!(root.depth(), 1);
    assert!(!root.has_children());
    assert!(root.find_by_index(0, 0, 0, 1).is_some());
}

#[test]
fn subdivide_makes_eight_leaves_in_order() {
    let mut root = Ocnode::new();
    root.decimate(2);
    assert!(root.apply(&voxel(0, 0, 0, 2)));
    root.subdivide();
    assert!(root.active_nodes().is_empty());
    let order = [
        (-1, -1, -1),
        (0, -1, -1),
        (-1, 0, -1),
        (-1, -1, 0),
        (0, 0, -1),
        (-1, 0, 0),
        (0, -1, 0),
        (0, 0, 0),
    ];
    for p in order.iter() {
        let mut v = voxel(p.0, p.1, p.2, 2);
        v.fluid = 7;
        assert!(root.apply(&v));
    }
    let listed: Vec<(i32, i32, i32)> = root.active_nodes().iter().map(|r| (r.x, r.y, r.z)).collect();
    assert_eq!(listed, order.to_vec());
}

#[test]
fn children_take_the_colour_of_their_parent() {
    let mut root = Ocnode::new();
    let mut top = voxel(0, 0, 0, 1);
    top.active = false;
    top.noise = 3;
    top.fluid = 4;
    assert!(root.apply(&top));
    root.decimate(3);
    let r = root.find_by_index(1, -2, 0, 3).unwrap().record();
    assert_eq!(r.color, red());
    assert_eq!((r.noise, r.fluid, r.active), (3, 4, false));
    let t = root.find_by_index(-2, -2, -2, 1).unwrap().record();
    assert_eq!(t.color, red());
}

#[test]
fn apply_then_list() {
    let mut root = Ocnode::new();
    root.decimate(3);
    assert!(root.apply(&voxel(1, 0, 0, 3)));
    assert!(root.apply(&voxel(0, 0, 0, 3)));
    assert!(!root.apply(&voxel(2, 0, 0, 3)));
    assert!(!root.apply(&voxel(0, 0, 0, 4)));
    let nodes = root.active_nodes();
    assert_eq!(nodes, vec![voxel(0, 0, 0, 3), voxel(1, 0, 0, 3)]);
    assert_eq!(root.active_leaves(), nodes);
    root.clear();
    assert!(root.active_nodes().is_empty());
    assert_eq!(root.find_by_index(1, 0, 0, 3).unwrap().record().color, red());
}

#[test]
fn apply_all_counts_the_missing() {
    let mut root = Ocnode::new();
    root.decimate(2);
    let records = vec![voxel(0, 0, 0, 2), voxel(5, 0, 0, 2), voxel(-1, -1, -1, 2), voxel(0, 0, 0, 3)];
    assert_eq!(root.apply_all(&records), 2);
    assert_eq!(root.active_nodes().len(), 2);
}

#[test]
fn active_branch_is_listed_before_its_children() {
    let mut root = Ocnode::new();
    root.decimate(3);
    assert!(root.apply(&voxel(0, 0, 0, 2)));
    assert!(root.apply(&voxel(1, 1, 1, 3)));
    let all = root.active_nodes();
    assert_eq!(all, vec![voxel(0, 0, 0, 2), voxel(1, 1, 1, 3)]);
    assert_eq!(root.active_leaves(), vec![voxel(1, 1, 1, 3)]);
}

#[test]
fn find_mut_agrees_with_find() {
    let mut root = Ocnode::new();
    root.decimate(3);
    assert!(root.apply(&voxel(1, -1, 0, 3)));
    for x in -3..3 {
        for level in 0..5 {
            let seen = root.find_by_index(x, -1, 0, level).map(|n| n.record());
            let changed = root.find_mut_by_index(x, -1, 0, level).map(|n| n.record());
            assert_eq!(seen, changed);
        }
    }
    let n = root.find_mut_by_index(1, -1, 0, 3).unwrap();
    n.clear();
    assert!(root.active_nodes().is_empty());
}

#[test]
fn toggle_on_a_node_sets_the_smallest_cubes() {
    let mut root = Ocnode::new();
    root.decimate(3);
    root.toggle_voxels(&vec![[0, 0, 0], [9, 9, 9], [0, 0, 0], [-2, 1, 1]], true, red(), 2, 5);
    let r = root.find_by_index(0, 0, 0, 3).unwrap().record();
    assert!(r.active);
    assert_eq!((r.color, r.fluid, r.noise), (red(), 2, 5));
    assert_eq!(root.active_nodes().len(), 2);
    assert!(root.all_voxels_active(&vec![[0, 0, 0], [-2, 1, 1], [9, 9, 9]]));
    assert!(!root.all_voxels_active(&vec![[0, 0, 0], [1, 1, 1]]));
    assert!(root.all_voxels_active(&vec![]));
    root.toggle_voxels(&vec![[0, 0, 0]], false, DEFAULT_COLOR, 0, 0);
    assert!(!root.find_by_index(0, 0, 0, 3).unwrap().record().active);
}

#[test]
fn uniform_compares_colours_as_numbers() {
    let mut a = voxel(0, 0, 0, 1);
    let mut b = voxel(1, 0, 0, 1);
    b.left_occluded = true;
    assert!(a.uniform(&b));
    b.noise = 1;
    assert!(!a.uniform(&b));
    b.noise = 0;
    b.fluid = 1;
    assert!(!a.uniform(&b));
    b.fluid = 0;
    a.color[1] = 0.0f32.to_bits();
    b.color[1] = (-0.0f32).to_bits();
    assert!(a.uniform(&b));
    a.color[2] = f32::NAN.to_bits();
    b.color[2] = f32::NAN.to_bits();
    assert!(!a.uniform(&b));
    assert!(!a.uniform(&a));
    a.color[2] = 0.5f32.to_bits();
    b.color[2] = 0.25f32.to_bits();
    assert!(!a.uniform(&b));
    assert_eq!(
        crafter::color::channels_equal(f32::INFINITY.to_bits(), f32::INFINITY.to_bits()),
        f32::INFINITY == f32::INFINITY
    );
    let samples = [0.0f32, -0.0, 1.0, -1.0, 0.8, f32::NAN, f32::INFINITY, f32::NEG_INFINITY, f32::MIN_POSITIVE];
    for x in samples.iter() {
        for y in samples.iter() {
            assert_eq!(crafter::color::channels_equal(x.to_bits(), y.to_bits()), x == y);
        }
    }
}

#[test]
fn clone_copies_the_tree() {
    let mut root = Ocnode::new();
    root.decimate(3);
    assert!(root.apply(&voxel(1, 0, 0, 3)));
    let copy = root.clone();
    root.clear();
    assert_eq!(copy.active_nodes(), vec![voxel(1, 0, 0, 3)]);
    assert_eq!(copy.depth(), 3);
    assert!(root.active_nodes().is_empty());
}

#[test]
fn occlusion_of_a_single_cube_against_a_root() {
    let mut root = Ocnode::new();
    root.decimate(3);
    for p in [[0, 0, 0], [-1, 0, 0], [0, 1, 0], [0, 0, -1]] {
        assert!(root.apply(&voxel(p[0], p[1], p[2], 3)));
    }
    let mut green = voxel(1, 0, 0, 3);
    green.color[1] = 1.0f32.to_bits();
    assert!(root.apply(&green));
    let node = root.find_by_index(0, 0, 0, 3).unwrap();
    assert!(node.left_occluded(&root));
    assert!(!node.right_occluded(&root));
    assert!(node.top_occluded(&root));
    assert!(!node.bottom_occluded(&root));
    assert!(node.front_occluded(&root));
    assert!(!node.back_occluded(&root));
    assert!(node.uniform(root.find_by_index(-1, 0, 0, 3).unwrap()));
    assert!(!node.uniform(root.find_by_index(1, 0, 0, 3).unwrap()));
    let fresh = node.refreshed_record(&root);
    assert!(fresh.left_occluded && fresh.top_occluded && fresh.front_occluded);
    assert!(!fresh.right_occluded && !fresh.bottom_occluded && !fresh.back_occluded);
    assert!(!node.record().left_occluded);
    let edge = root.find_by_index(-2, -2, -2, 3).unwrap();
    assert!(!edge.left_occluded(&root) && !edge.bottom_occluded(&root) && !edge.front_occluded(&root));
    let mut found = Vec::new();
    root.refresh_into(0, 0, 0, &mut found);
    root.refresh_into(1, 1, 1, &mut found);
    root.refresh_into(1 << 40, 0, 0, &mut found);
    root.refresh_into(-3, 0, 0, &mut found);
    assert_eq!(found, vec![fresh]);
    let near = root.refresh_records(&vec![[0, 0, 0]]);
    let places: Vec<(i32, i32, i32)> = near.iter().map(|r| (r.x, r.y, r.z)).collect();
    assert_eq!(places, vec![(0, 0, 0), (1, 0, 0), (-1, 0, 0), (0, 1, 0), (0, 0, -1)]);
    let snapshot = root.clone();
    root.recalculate_occlusion(&snapshot);
    assert_eq!(root.find_by_index(0, 0, 0, 3).unwrap().record(), fresh);
}

#[test]
fn optimize_on_a_node_with_a_threshold() {
    let mut root = Ocnode::new();
    root.decimate(2);
    for x in -1..1 {
        for y in -1..1 {
            for z in -1..1 {
                assert!(root.apply(&voxel(x, y, z, 2)));
            }
        }
    }
    assert_eq!(root.active_nodes().len(), 8);
    root.optimize(&[0, 0, 0], 100);
    let top = root.find_by_index(-1, -1, -1, 1).unwrap().record();
    assert!(top.active);
    assert_eq!(top.color, red());
    assert_eq!(root.active_nodes().len(), 9);
    assert_eq!(root.active_leaves().len(), 8);
    let cubes = root.drawables();
    assert_eq!(cubes.len(), 1);
    assert_eq!(cubes[0].scale, 2);
    let mut blue = voxel(0, 0, 0, 2);
    blue.color[2] = 1.0f32.to_bits();
    assert!(root.apply(&blue));
    root.optimize(&[0, 0, 0], 100);
    let top = root.find_by_index(-1, -1, -1, 1).unwrap().record();
    assert!(!top.active);
    assert_eq!(top.color, blue.color);
    assert_eq!(root.drawables().len(), 8);
}

#[test]
fn line_and_distance_on_a_stored_node() {
    let node = voxel(2, 0, 0, 3);
    let unit = 65536;
    assert!(node.intersects_line(2, &[0, unit, unit], &[unit, unit, unit]));
    assert!(node.intersects_line(2, &[0, 2 * unit, 2 * unit], &[unit, 2 * unit, 2 * unit]));
    assert!(!node.intersects_line(1, &[0, 2 * unit, 2 * unit + 1], &[unit, 2 * unit, 2 * unit + 1]));
    assert!(!node.intersects_line(2, &[0, 3 * unit, unit], &[unit, 3 * unit, unit]));
    assert!(!node.intersects_line(2, &[0, 0, 0], &[0, 0, 0]));
    assert!(node.intersects_line(2, &[0, 0, 0], &[4 * unit, 2 * unit, 2 * unit]));
    assert!(node.intersects_line(2, &[4 * unit, 2 * unit, 2 * unit], &[0, 0, 0]));
    assert_eq!(node.distance_to(&[2 * unit, 0, 0]), 0);
    assert_eq!(node.distance_to(&[2 * unit + 3, -4, 12]), 9 + 16 + 144);
}

#[test]
fn lookup_to_change_leaves_the_tree_as_it_was() {
    let mut root = Ocnode::new();
    root.decimate(3);
    assert!(root.apply(&voxel(0, 0, 0, 2)));
    assert!(root.apply(&voxel(1, 1, 1, 3)));
    assert!(root.apply(&voxel(-2, 0, 1, 3)));
    let before = root.active_nodes();
    for level in 0..5 {
        for x in -3..3 {
            let found = root.find_mut_by_index(x, 0, 0, level).is_some();
            assert_eq!(found, root.find_by_index(x, 0, 0, level).is_some());
        }
    }
    assert_eq!(root.active_nodes(), before);
    let branch = root.find_mut_by_index(0, 0, 0, 2).unwrap();
    assert!(branch.has_children());
    assert_eq!(branch.active_nodes(), vec![voxel(0, 0, 0, 2), voxel(1, 1, 1, 3)]);
    assert!(branch.find_by_index(1, 1, 1, 3).is_some());
    assert_eq!(root.find_by_index(0, 0, 0, 2).unwrap().active_nodes().len(), 2);
}
