use crafter::button::ButtonState;
use crafter::button::ButtonStates;
use crafter::command::Command;
use crafter::command::CommandType;
use crafter::cube::Coord;
use crafter::editor::handle_pick_material;
use crafter::editor::key_action;
use crafter::editor::update_current_material;
use crafter::editor::KeyAction;
use crafter::editor::Throttle;
use crafter::cube::Cube;
use crafter::cube::MeshPoint;
use crafter::cube::CUBE_COLOR;
use crafter::material::Material;
use crafter::occlusion::Face;
use crafter::storage::Storage;

fn p(x: Coord, y: Coord, z: Coord) -> MeshPoint {
    MeshPoint { x, y, z }
}

#[test]
fn new_cube_has_the_defaults() {
    let cube = Cube::new();
    assert_eq!(cube.vertices_count, 216);
    assert_eq!(cube.translation, [0, 0, 0]);
    assert_eq!(cube.color, [0.3f32.to_bits(), 0.3f32.to_bits(), 0.1f32.to_bits(), 1.0f32.to_bits()]);
    assert_eq!(cube.color, CUBE_COLOR);
    assert_eq!(cube.scale, 1);
    assert!(!cube.smooth);
    assert_eq!(cube.key(), 0);
    assert_eq!(cube.count_vertices(), 216);
    assert_eq!((cube.fluid(), cube.noise()), (0, 0));
    assert_eq!(*cube.color(), CUBE_COLOR);
}

#[test]
fn init_changes_the_key_only() {
    let mut keys = Vec::new();
    for _ in 0..4 {
        let mut cube = Cube::new();
        cube.fluid = 3;
        cube.init();
        keys.push(cube.key());
        cube.set_key(0);
        let mut plain = Cube::new();
        plain.fluid = 3;
        assert_eq!(cube, plain);
    }
    assert!(keys.iter().any(|k| *k != keys[0]) || keys[0] != 0);
}

#[test]
fn translate_adds_to_the_position() {
    let mut cube = Cube::new();
    cube.translate([1, -2, 3]);
    cube.translate([10, 20, 30]);
    assert_eq!(*cube.translation(), [11, 18, 33]);
}

#[test]
fn count_vertices_takes_off_occluded_faces() {
    let mut cube = Cube::new();
    cube.left_occluded = true;
    cube.top_occluded = true;
    assert_eq!(cube.count_vertices(), 144);
    cube.bottom_occluded = true;
    cube.right_occluded = true;
    cube.front_occluded = true;
    cube.back_occluded = true;
    assert_eq!(cube.count_vertices(), 0);
    cube.smooth = true;
    assert!(cube.vertices().is_empty());
}

#[test]
fn smooth_mesh_has_a_fan_for_each_visible_face() {
    let mut cube = Cube::new();
    cube.smooth = true;
    let mesh = cube.vertices();
    assert_eq!(mesh.len(), 72);
    assert_eq!(mesh.len() * 3, cube.count_vertices() as usize);
    let order: Vec<Face> = mesh.chunks(12).map(|c| c[0].face).collect();
    assert_eq!(order, vec![Face::Bottom, Face::Left, Face::Right, Face::Front, Face::Back, Face::Top]);
    for tri in mesh.chunks(3) {
        assert_eq!(tri[0].position, tri[0].first);
        assert_eq!(tri[1].position, tri[0].second);
        assert_eq!(tri[2].position, tri[0].apex);
        assert_eq!((tri[0].first, tri[0].second, tri[0].apex), (tri[1].first, tri[1].second, tri[1].apex));
        assert_eq!((tri[0].first, tri[0].second, tri[0].apex), (tri[2].first, tri[2].second, tri[2].apex));
        assert_eq!((tri[0].face, tri[1].face), (tri[2].face, tri[2].face));
    }
    let lo = Coord::LowInset;
    let hi = Coord::HighInset;
    let mid = Coord::Middle;
    let bottom: Vec<MeshPoint> = mesh[0..12].iter().map(|v| v.position).collect();
    let ldf = p(lo, lo, lo);
    let rdf = p(hi, lo, lo);
    let rdb = p(hi, lo, hi);
    let ldb = p(lo, lo, hi);
    let dc = p(mid, lo, mid);
    assert_eq!(bottom, vec![ldf, rdf, dc, rdf, rdb, dc, rdb, ldb, dc, ldb, ldf, dc]);
    let luf = p(lo, hi, lo);
    let lub = p(lo, hi, hi);
    let lc = p(lo, mid, mid);
    let left: Vec<MeshPoint> = mesh[12..24].iter().map(|v| v.position).collect();
    assert_eq!(left, vec![ldf, ldb, lc, luf, ldf, lc, lub, luf, lc, ldb, lub, lc]);
    let ruf = p(hi, hi, lo);
    let rub = p(hi, hi, hi);
    let rc = p(hi, mid, mid);
    let right: Vec<MeshPoint> = mesh[24..36].iter().map(|v| v.position).collect();
    assert_eq!(right, vec![rdf, ruf, rc, ruf, rub, rc, rub, rdb, rc, rdb, rdf, rc]);
    let fc = p(mid, mid, lo);
    let front: Vec<MeshPoint> = mesh[36..48].iter().map(|v| v.position).collect();
    assert_eq!(front, vec![ldf, luf, fc, luf, ruf, fc, ruf, rdf, fc, rdf, ldf, fc]);
    let bc = p(mid, mid, hi);
    let back: Vec<MeshPoint> = mesh[48..60].iter().map(|v| v.position).collect();
    assert_eq!(back, vec![ldb, rdb, bc, rdb, rub, bc, rub, lub, bc, lub, ldb, bc]);
    let uc = p(mid, hi, mid);
    let top: Vec<MeshPoint> = mesh[60..72].iter().map(|v| v.position).collect();
    assert_eq!(top, vec![luf, lub, uc, lub, rub, uc, rub, ruf, uc, ruf, luf, uc]);
}

#[test]
fn corners_are_rounded_only_where_three_faces_are_free() {
    let mut cube = Cube::new();
    cube.smooth = true;
    cube.right_occluded = true;
    assert_eq!(cube.corner(false, false, false), p(Coord::LowInset, Coord::LowInset, Coord::LowInset));
    assert_eq!(cube.corner(false, true, true), p(Coord::LowInset, Coord::HighInset, Coord::HighInset));
    assert_eq!(cube.corner(true, false, false), p(Coord::High, Coord::Low, Coord::Low));
    assert_eq!(cube.corner(true, true, true), p(Coord::High, Coord::High, Coord::High));
    assert_eq!(cube.middle(Face::Left), p(Coord::LowInset, Coord::Middle, Coord::Middle));
    assert_eq!(cube.middle(Face::Right), p(Coord::High, Coord::Middle, Coord::Middle));
    assert_eq!(cube.middle(Face::Top), p(Coord::Middle, Coord::High, Coord::Middle));
    assert_eq!(cube.middle(Face::Bottom), p(Coord::Middle, Coord::Low, Coord::Middle));
    assert_eq!(cube.middle(Face::Front), p(Coord::Middle, Coord::Middle, Coord::Low));
    assert_eq!(cube.middle(Face::Back), p(Coord::Middle, Coord::Middle, Coord::High));
    assert_eq!(cube.vertices().len(), 60);
    assert!(cube.vertices().iter().all(|v| v.face != Face::Right));
    assert!(cube.occluded(Face::Right) && !cube.occluded(Face::Left));
    cube.smooth = false;
    assert_eq!(cube.corner(false, false, false), p(Coord::Low, Coord::Low, Coord::Low));
    assert_eq!(cube.middle(Face::Left), p(Coord::Low, Coord::Middle, Coord::Middle));
}

#[test]
fn flat_mesh_has_two_triangles_for_each_visible_face() {
    let mut cube = Cube::new();
    let mesh = cube.vertices();
    assert_eq!(mesh.len(), 36);
    let lo = Coord::Low;
    let hi = Coord::High;
    let bottom: Vec<MeshPoint> = mesh[0..6].iter().map(|v| v.position).collect();
    assert_eq!(
        bottom,
        vec![p(lo, lo, lo), p(hi, lo, lo), p(hi, lo, hi), p(hi, lo, hi), p(lo, lo, hi), p(lo, lo, lo)]
    );
    for v in mesh.iter() {
        for c in [v.position.x, v.position.y, v.position.z] {
            assert!(c == Coord::Low || c == Coord::High);
        }
    }
    for (k, face) in [Face::Bottom, Face::Left, Face::Right, Face::Front, Face::Back, Face::Top].iter().enumerate() {
        for v in mesh[6 * k..6 * k + 6].iter() {
            assert_eq!(v.face, *face);
            let on = match face {
                Face::Bottom => v.position.y == lo,
                Face::Top => v.position.y == hi,
                Face::Left => v.position.x == lo,
                Face::Right => v.position.x == hi,
                Face::Front => v.position.z == lo,
                Face::Back => v.position.z == hi,
            };
            assert!(on);
        }
    }
    cube.front_occluded = true;
    cube.bottom_occluded = true;
    let mesh = cube.vertices();
    assert_eq!(mesh.len(), 24);
    assert!(mesh.iter().all(|v| v.face != Face::Front && v.face != Face::Bottom));
}

#[test]
fn storage_keeps_its_path() {
    let storage = Storage::new("some/where.scn");
    assert_eq!(storage.path(), "some/where.scn");
    assert_eq!(Storage::new("").path(), "");
}

#[test]
fn plain_values_hold_what_they_are_given() {
    let command = Command { command_type: CommandType::KeyDown, data1: 57, data2: 0 };
    let copy = command;
    assert_eq!(copy, command);
    assert_ne!(CommandType::MouseDown, CommandType::MouseUp);
    let a = Material { color: [255, 0, 0, 255], noise: 0, noise_x: 1, noise_y: 2, noise_z: 3, fluid: 0 };
    let b = Material { color: [255, 0, 0, 255], noise: 0, noise_x: 1, noise_y: 2, noise_z: 3, fluid: 0 };
    assert_eq!(a, b);
    let mut cache = std::collections::HashMap::new();
    cache.insert(a, 1);
    assert_eq!(cache.get(&b), Some(&1));
    let state = ButtonState { name: String::from("on"), icon_path: String::from("on.png") };
    assert_eq!((state.name.as_str(), state.icon_path.as_str()), ("on", "on.png"));
}

#[test]
fn storage_lists_the_default_scene() {
    assert_eq!(Storage::new("x").list_scenes(), vec![String::from("Default")]);
}

#[test]
fn first_state_added_becomes_the_current_one() {
    let mut states = ButtonStates::new();
    assert_eq!(states.current(), None);
    assert!(states.current_state.is_empty());
    states.add_state(String::from("show"), String::from("show.png"));
    states.add_state(String::from("hide"), String::from("hide.png"));
    states.add_state(String::from("hide"), String::from("other.png"));
    assert_eq!(states.current_state, "show");
    assert_eq!(states.current(), Some(0));
    assert_eq!(states.states.len(), 3);
    assert_eq!(states.states[1].icon_path, "hide.png");
    states.current_state = String::from("hide");
    assert_eq!(states.current(), Some(1));
    states.current_state = String::from("gone");
    assert_eq!(states.current(), None);
    states.current_state = String::new();
    states.add_state(String::from("late"), String::from("late.png"));
    assert_eq!(states.current_state, "late");
    assert_eq!(states.current(), Some(3));
}

#[test]
fn keys_ask_for_their_actions() {
    assert_eq!(key_action(1), Some(KeyAction::OpenFile));
    assert_eq!(key_action(2), Some(KeyAction::SaveFile));
    assert_eq!(key_action(16), Some(KeyAction::MoveUp));
    assert_eq!(key_action(18), Some(KeyAction::MoveDown));
    assert_eq!((key_action(30), key_action(105)), (Some(KeyAction::MoveLeft), Some(KeyAction::MoveLeft)));
    assert_eq!((key_action(32), key_action(106)), (Some(KeyAction::MoveRight), Some(KeyAction::MoveRight)));
    assert_eq!((key_action(17), key_action(103)), (Some(KeyAction::MoveForward), Some(KeyAction::MoveForward)));
    assert_eq!((key_action(31), key_action(108)), (Some(KeyAction::MoveBackward), Some(KeyAction::MoveBackward)));
    assert_eq!(key_action(57), Some(KeyAction::ToggleVoxel));
    assert_eq!((key_action(36), key_action(75)), (Some(KeyAction::MoveSelectionLeft), Some(KeyAction::MoveSelectionLeft)));
    assert_eq!((key_action(38), key_action(77)), (Some(KeyAction::MoveSelectionRight), Some(KeyAction::MoveSelectionRight)));
    assert_eq!((key_action(23), key_action(72)), (Some(KeyAction::MoveSelectionForward), Some(KeyAction::MoveSelectionForward)));
    assert_eq!((key_action(37), key_action(76)), (Some(KeyAction::MoveSelectionBackward), Some(KeyAction::MoveSelectionBackward)));
    assert_eq!((key_action(22), key_action(71)), (Some(KeyAction::MoveSelectionUp), Some(KeyAction::MoveSelectionUp)));
    assert_eq!((key_action(24), key_action(73)), (Some(KeyAction::MoveSelectionDown), Some(KeyAction::MoveSelectionDown)));
    assert_eq!(key_action(20), Some(KeyAction::ToggleSelectionShape));
    assert_eq!(key_action(33), Some(KeyAction::ToggleFluid));
    assert_eq!(key_action(34), Some(KeyAction::ToggleShowGrid));
    assert_eq!(key_action(49), Some(KeyAction::ToggleNoise));
    let colours = [
        KeyAction::MoreRed,
        KeyAction::MoreGreen,
        KeyAction::MoreBlue,
        KeyAction::MoreAlpha,
        KeyAction::LessRed,
        KeyAction::LessGreen,
        KeyAction::LessBlue,
        KeyAction::LessAlpha,
    ];
    for (i, action) in colours.iter().enumerate() {
        assert_eq!(key_action(59 + i as u32), Some(*action));
    }
    let known = (0..200u32).filter(|k| key_action(*k).is_some()).count();
    assert_eq!(known, 37);
    assert_eq!(key_action(0), None);
    assert_eq!(key_action(67), None);
    assert_eq!(key_action(u32::MAX), None);
}

#[test]
fn pick_material_tells_colour_noise_and_fluid() {
    let color = [0.25f32.to_bits(), 0.5f32.to_bits(), 0.75f32.to_bits(), 1.0f32.to_bits()];
    let asked = Command { command_type: CommandType::PickMaterial, data1: 4, data2: 3 };
    let told = handle_pick_material(&color, true, false, &asked);
    let types = [
        CommandType::CurrentMaterialRed,
        CommandType::CurrentMaterialGreen,
        CommandType::CurrentMaterialBlue,
        CommandType::CurrentMaterialAlpha,
        CommandType::CurrentMaterialNoise,
        CommandType::CurrentMaterialFluid,
    ];
    let data = [color[0], color[1], color[2], color[3], 1, 0];
    assert_eq!(told.len(), 6);
    for i in 0..6 {
        assert_eq!(told[i], Command { command_type: types[i], data1: data[i], data2: 3 });
    }
    let told = handle_pick_material(&color, false, true, &asked);
    assert_eq!((told[4].data1, told[5].data1), (0, 1));
}

#[test]
fn material_updates_set_one_channel() {
    let start = [1u32, 2, 3, 4];
    let cases = [
        (CommandType::UpdateCurrentMaterialRed, CommandType::SetMaterialRed, 0usize),
        (CommandType::UpdateCurrentMaterialGreen, CommandType::SetMaterialGreen, 1),
        (CommandType::UpdateCurrentMaterialBlue, CommandType::SetMaterialBlue, 2),
        (CommandType::UpdateCurrentMaterialAlpha, CommandType::SetMaterialAlpha, 3),
    ];
    for (update, set, channel) in cases {
        let mut color = start;
        let out = update_current_material(&mut color, &Command { command_type: update, data1: 77, data2: 9 });
        assert_eq!(out, vec![Command { command_type: set, data1: 77, data2: channel as u32 }]);
        let mut want = start;
        want[channel] = 77;
        assert_eq!(color, want);
    }
    let mut color = start;
    let out = update_current_material(&mut color, &Command { command_type: CommandType::KeyDown, data1: 77, data2: 9 });
    assert!(out.is_empty());
    assert_eq!(color, start);
}

#[test]
fn throttle_lets_frames_through_until_it_looks_at_the_time() {
    let mut pace = Throttle::new();
    assert_eq!(pace, Throttle { dirty: true, loading: true, drawing: false, throttle: 10, target_fps: 30 });
    assert!(pace.throttle(Some(0)));
    pace.loading = false;
    assert!(pace.throttle(None));
    assert_eq!(pace.throttle, 10);
    pace.drawing = true;
    for left in (1..10).rev() {
        assert!(pace.throttle(None));
        assert_eq!(pace.throttle, left);
    }
    assert!(!pace.throttle(None));
    assert_eq!(pace.throttle, 2);
    assert!(pace.throttle(Some(1000)));
    assert_eq!(pace.throttle, 1);
    assert!(pace.throttle(Some(32)));
    assert_eq!(pace.throttle, 2);
    assert!(pace.throttle(Some(33)));
    assert!(!pace.throttle(Some(33)));
    assert_eq!(pace.throttle, 2);
    pace.dirty = false;
    assert!(pace.throttle(Some(5000)));
    assert_eq!(pace.throttle, 2);
}
