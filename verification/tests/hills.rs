use voxel_world::clear::clear;
use voxel_world::pos_to_index::pos_to_index;
use voxel_world::shared::{ChunkMapping, Dims, Voxels, AIR_MARKER};
use voxel_world::worlds::hills::Hills;
use voxel_world::worlds::noise::Noise;
use voxel_world::worlds::{Key, KeyState, World};

fn height_field(edge: usize) -> Vec<u32> {
    let mut heights = Vec::new();
    for z in 0..2 * edge {
        for x in 0..2 * edge {
            let a = (x as f32 * std::f32::consts::PI / 2. / 4.).cos();
            let b = (z as f32 * std::f32::consts::PI / 2. / 4.).cos();
            let h = (1.0 - a * b) * 4.;
            heights.push(if h < 0.0 { 0 } else { h.floor() as u32 });
        }
    }
    heights
}

fn hills_world() -> (ChunkMapping, Voxels) {
    let dims = Dims::new(8, 4).unwrap();
    let mut mapping = ChunkMapping::new(dims);
    let mut voxels = Voxels::new(dims);
    clear(0, &mut mapping, &mut voxels);
    (mapping, voxels)
}

#[test]
fn hills_point_two_layers_of_chunks_to_their_slots() {
    let (mut mapping, mut voxels) = hills_world();
    mapping.set(pos_to_index((2, 3, 1), 4).unwrap(), 9);
    let mut hills = Hills::new(height_field(8));
    hills.fill_in_voxels(&mut mapping, &mut voxels);
    for x in 0..4 {
        for z in 0..4 {
            for y in 0..4 {
                let entry = mapping.get(pos_to_index((x, y, z), 4).unwrap());
                let expected = match y {
                    0 => (1 + x % 2 + (z % 2) * 2) as u32,
                    1 => 5,
                    _ => if (x, y, z) == (2, 3, 1) { 9 } else { 0 },
                };
                assert_eq!(entry, expected);
            }
        }
    }
    assert_eq!(mapping.get(0), 1);
    assert_eq!(mapping.get(1), 2);
    assert_eq!(mapping.get(16), 3);
    assert_eq!(mapping.get(17), 4);
    assert_eq!(mapping.get(4), 5);
}

#[test]
fn hills_fill_the_quadrants_above_the_height_field() {
    let (mut mapping, mut voxels) = hills_world();
    let heights = height_field(8);
    let mut hills = Hills::new(heights.clone());
    hills.fill_in_voxels(&mut mapping, &mut voxels);
    assert_eq!(voxels.slot_count(), 6);
    assert!((0..512).all(|i| voxels.get(0, i) == AIR_MARKER));
    assert!((0..512).all(|i| 1 <= voxels.get(5, i) && voxels.get(5, i) < 5));
    for n in 0..4usize {
        let mut set = 0usize;
        for x in 0..8usize {
            for y in 0..8usize {
                for z in 0..8usize {
                    let h = heights[(z + (n / 2) * 8) * 16 + x + (n % 2) * 8];
                    let code = voxels.get(n + 1, x + y * 8 + z * 64);
                    if y as u32 <= h {
                        assert_eq!(code, 0);
                    } else {
                        assert!(1 + 4 * n as u32 <= code && code < 5 + 4 * n as u32);
                        set += 1;
                    }
                }
            }
        }
        assert!(set > 0);
    }
    assert_eq!(voxels.get(1, 0), 0);
    assert!(voxels.get(1, 8) != 0);
    assert_eq!(heights[0], 0);
    assert_eq!(heights[8], 8);
    assert!((0..8).all(|y| voxels.get(2, y * 8) == 0));
}

#[test]
fn hills_empty_what_lies_at_or_below_the_height() {
    let (mut mapping, mut voxels) = hills_world();
    for _ in 0..7 {
        voxels.push_slot();
    }
    for slot in 1..8 {
        for place in 0..512 {
            voxels.set(slot, place, 99);
        }
    }
    let heights = vec![3u32; 256];
    let mut hills = Hills::new(heights);
    hills.fill_in_voxels(&mut mapping, &mut voxels);
    assert_eq!(voxels.slot_count(), 8);
    for n in 0..4usize {
        for place in 0..512usize {
            let y = (place / 8) % 8;
            let code = voxels.get(n + 1, place);
            if y <= 3 {
                assert_eq!(code, 0);
            } else {
                assert!(1 + 4 * n as u32 <= code && code < 5 + 4 * n as u32);
            }
        }
    }
    assert!((0..512).all(|i| voxels.get(6, i) == 99));
    assert!((0..512).all(|i| voxels.get(7, i) == 99));
}

#[test]
fn hills_draw_the_same_voxels_each_time() {
    let mut worlds = Vec::new();
    for _ in 0..2 {
        let (mut mapping, mut voxels) = hills_world();
        let mut hills = Hills::new(height_field(8));
        hills.fill_in_voxels(&mut mapping, &mut voxels);
        let mut all = Vec::new();
        for slot in 1..6 {
            for place in 0..512 {
                all.push(voxels.get(slot, place));
            }
        }
        worlds.push(all);
    }
    assert_eq!(worlds[0], worlds[1]);
    let solid = &worlds[0][4 * 512..];
    assert!(solid.iter().any(|&c| c != solid[0]));
}

#[test]
fn hills_populate_once_until_reset() {
    let (mut mapping, mut voxels) = hills_world();
    let mut hills = Hills::new(height_field(8));
    hills.fill_in_voxels(&mut mapping, &mut voxels);
    mapping.set(0, 0);
    voxels.set(1, 8, 0);
    hills.fill_in_voxels(&mut mapping, &mut voxels);
    assert_eq!(mapping.get(0), 0);
    assert_eq!(voxels.get(1, 8), 0);
    hills.keyboard_input(Key::X, KeyState::Released);
    hills.fill_in_voxels(&mut mapping, &mut voxels);
    assert_eq!(mapping.get(0), 0);
    hills.reset_event();
    hills.fill_in_voxels(&mut mapping, &mut voxels);
    assert_eq!(mapping.get(0), 1);
    assert!(voxels.get(1, 8) != 0);
    mapping.set(0, 0);
    hills.keyboard_input(Key::X, KeyState::Pressed);
    hills.fill_in_voxels(&mut mapping, &mut voxels);
    assert_eq!(mapping.get(0), 1);
}

#[test]
fn noise_leaves_the_world_alone() {
    let (mut mapping, mut voxels) = hills_world();
    mapping.set(3, 0);
    let mut noise = Noise::new();
    noise.fill_in_voxels(&mut mapping, &mut voxels);
    noise.keyboard_input(Key::X, KeyState::Pressed);
    noise.fill_in_voxels(&mut mapping, &mut voxels);
    assert!((0..mapping.len()).all(|i| mapping.get(i) == 0));
    assert_eq!(voxels.slot_count(), 1);
    assert!((0..512).all(|i| voxels.get(0, i) == AIR_MARKER));
}
