use crafter::selection::calculate_distance_squared;
use crafter::selection::scrolled_radius;
use crafter::selection::selection_voxels;
use crafter::selection::SelectionShape;

fn brute(center: [i32; 3], radius: i32, shape: SelectionShape, range: i32) -> Vec<[i32; 3]> {
    let mut out = Vec::new();
    let c = [center[0] as i64, center[1] as i64, center[2] as i64];
    let r = radius as i64;
    for x in c[0] - r - 3..c[0] + r + 3 {
        for y in c[1] - r - 3..c[1] + r + 3 {
            for z in c[2] - r - 3..c[2] + r + 3 {
                let lim = range as i64;
                let reach = |axis: usize, v: i64, flat: bool| {
                    if flat {
                        v == c[axis]
                    } else {
                        c[axis] - r - 1 <= v && v < c[axis] + r + 1 && -lim <= v && v < lim
                    }
                };
                let (fx, fy, fz) = match shape {
                    SelectionShape::Sphere | SelectionShape::Cube => (false, false, false),
                    SelectionShape::SquareXZ | SelectionShape::CircleXZ => (false, true, false),
                    SelectionShape::SquareXY | SelectionShape::CircleXY => (false, false, true),
                    SelectionShape::SquareYZ | SelectionShape::CircleYZ => (true, false, false),
                };
                if !(reach(0, x, fx) && reach(1, y, fy) && reach(2, z, fz)) {
                    continue;
                }
                let (dx, dy, dz) = (c[0] - x, c[1] - y, c[2] - z);
                let inside = match shape {
                    SelectionShape::Sphere => dx * dx + dy * dy + dz * dz < r * r,
                    SelectionShape::Cube => dx.abs() < r && dy.abs() < r && dz.abs() < r,
                    SelectionShape::SquareXZ => dx.abs() < r && dz.abs() < r,
                    SelectionShape::SquareXY => dx.abs() < r && dy.abs() < r,
                    SelectionShape::SquareYZ => dy.abs() < r && dz.abs() < r,
                    SelectionShape::CircleXZ => (((dx * dx + dz * dz) as f64).sqrt()) < r as f64,
                    SelectionShape::CircleXY => (((dx * dx + dy * dy) as f64).sqrt()) < r as f64,
                    SelectionShape::CircleYZ => (((dy * dy + dz * dz) as f64).sqrt()) < r as f64,
                };
                if inside {
                    out.push([x as i32, y as i32, z as i32]);
                }
            }
        }
    }
    out
}

const SHAPES: [SelectionShape; 8] = [
    SelectionShape::Sphere,
    SelectionShape::Cube,
    SelectionShape::SquareXZ,
    SelectionShape::SquareXY,
    SelectionShape::SquareYZ,
    SelectionShape::CircleXZ,
    SelectionShape::CircleXY,
    SelectionShape::CircleYZ,
];

#[test]
fn selection_of_radius_one_is_the_centre() {
    for shape in SHAPES {
        assert_eq!(selection_voxels(&[0, 0, 0], 1, shape, 8), vec![[0, 0, 0]]);
        assert_eq!(selection_voxels(&[3, -2, 1], 1, shape, 8), vec![[3, -2, 1]]);
        assert!(selection_voxels(&[0, 0, 0], 0, shape, 8).is_empty());
        assert!(selection_voxels(&[0, 0, 0], -3, shape, 8).is_empty());
    }
}

#[test]
fn selection_shapes_of_radius_two() {
    let sphere = selection_voxels(&[0, 0, 0], 2, SelectionShape::Sphere, 8);
    assert_eq!(
        sphere,
        vec![
            [-1, -1, -1], [-1, -1, 0], [-1, -1, 1], [-1, 0, -1], [-1, 0, 0], [-1, 0, 1], [-1, 1, -1],
            [-1, 1, 0], [-1, 1, 1], [0, -1, -1], [0, -1, 0], [0, -1, 1], [0, 0, -1], [0, 0, 0],
            [0, 0, 1], [0, 1, -1], [0, 1, 0], [0, 1, 1], [1, -1, -1], [1, -1, 0], [1, -1, 1],
            [1, 0, -1], [1, 0, 0], [1, 0, 1], [1, 1, -1], [1, 1, 0], [1, 1, 1],
        ]
    );
    assert_eq!(selection_voxels(&[0, 0, 0], 3, SelectionShape::Sphere, 8).len(), 93);
    assert_eq!(selection_voxels(&[0, 0, 0], 2, SelectionShape::Cube, 8).len(), 27);
    assert_eq!(
        selection_voxels(&[5, 6, 7], 2, SelectionShape::SquareXZ, 8),
        vec![[4, 6, 6], [4, 6, 7], [4, 6, 8], [5, 6, 6], [5, 6, 7], [5, 6, 8], [6, 6, 6], [6, 6, 7], [6, 6, 8]]
    );
    assert_eq!(
        selection_voxels(&[0, 0, 0], 2, SelectionShape::CircleXY, 8),
        vec![[-1, -1, 0], [-1, 0, 0], [-1, 1, 0], [0, -1, 0], [0, 0, 0], [0, 1, 0], [1, -1, 0], [1, 0, 0], [1, 1, 0]]
    );
    assert_eq!(selection_voxels(&[0, 0, 0], 3, SelectionShape::CircleYZ, 8).len(), 25);
    assert_eq!(selection_voxels(&[0, 0, 0], 3, SelectionShape::SquareYZ, 8).len(), 25);
    assert_eq!(selection_voxels(&[0, 0, 0], 3, SelectionShape::SquareXY, 8).len(), 25);
    assert_eq!(selection_voxels(&[0, 0, 0], 3, SelectionShape::CircleXZ, 8).len(), 25);
    assert_eq!(selection_voxels(&[0, 0, 0], 4, SelectionShape::CircleXZ, 8).len(), 45);
}

#[test]
fn selection_agrees_with_a_plain_search() {
    for shape in SHAPES {
        for (center, radius, depth) in [
            ([0, 0, 0], 4, 8),
            ([126, -127, 3], 5, 8),
            ([0, 0, 0], 3, 3),
            ([3, 3, 3], 2, 3),
            ([-130, 0, 0], 6, 8),
            ([7, 200, 7], 4, 8),
        ] {
            let range = 2 * (1 << (depth - 1)) / 2;
            assert_eq!(
                selection_voxels(&center, radius, shape, depth),
                brute(center, radius, shape, range),
                "{:?} {:?} {} {}",
                shape,
                center,
                radius,
                depth
            );
        }
    }
}

#[test]
fn selection_is_kept_within_twice_the_range() {
    let all = selection_voxels(&[0, 0, 0], 10, SelectionShape::Cube, 3);
    assert_eq!(all.len(), 512);
    assert!(all.iter().all(|v| v.iter().all(|c| -4 <= *c && *c < 4)));
    assert_eq!(all[0], [-4, -4, -4]);
    assert_eq!(all[511], [3, 3, 3]);
    assert!(selection_voxels(&[i32::MAX, i32::MIN, 0], i32::MAX, SelectionShape::Sphere, 2).is_empty());
    let edge = selection_voxels(&[i32::MAX, 0, 0], i32::MAX, SelectionShape::Sphere, 3);
    assert_eq!(edge.len(), 3 * 64);
    assert!(edge.iter().all(|v| 1 <= v[0] && v[0] < 4));
    assert!(selection_voxels(&[i32::MAX, i32::MIN, 0], 5, SelectionShape::Sphere, 8).is_empty());
    assert!(selection_voxels(&[0, 0, 0], i32::MIN, SelectionShape::Cube, 8).is_empty());
}

#[test]
fn shapes_follow_each_other_in_turn() {
    let mut shape = SelectionShape::Sphere;
    let mut seen = Vec::new();
    for _ in 0..8 {
        seen.push(shape);
        shape = shape.next();
    }
    assert_eq!(seen, SHAPES.to_vec());
    assert_eq!(shape, SelectionShape::Sphere);
}

#[test]
fn radius_follows_the_wheel_within_bounds() {
    assert_eq!(scrolled_radius(1, 1), 2);
    assert_eq!(scrolled_radius(127, 7), 128);
    assert_eq!(scrolled_radius(128, 1), 128);
    assert_eq!(scrolled_radius(500, 1), 128);
    assert_eq!(scrolled_radius(5, 0), 4);
    assert_eq!(scrolled_radius(1, 0), 1);
    assert_eq!(scrolled_radius(0, 0), 1);
    assert_eq!(scrolled_radius(0, 1), 1);
}

#[test]
fn distance_squared_is_exact() {
    assert_eq!(calculate_distance_squared(&[0, 0, 0], &[1, 2, 3]), 14);
    assert_eq!(calculate_distance_squared(&[1, 2, 3], &[1, 2, 3]), 0);
    assert_eq!(calculate_distance_squared(&[-1, -1, -1], &[1, 1, 1]), 12);
    let far = calculate_distance_squared(&[i32::MIN, 0, 0], &[i32::MAX, 0, 0]);
    assert_eq!(far, (u32::MAX as i128) * (u32::MAX as i128));
}
