use voxel_world::clear::clear;
use voxel_world::create_vertex_buffer::set_vertex_buffer;
use voxel_world::place_one_sphere::{place_one_sphere, place_sphere, Sphere};
use voxel_world::pos_to_index::{index_to_pos, pos_to_index};
use voxel_world::shared::{ChunkMapping, Dims, MyVertex, Vertices, Voxels, AIR_MARKER};
use voxel_world::worlds::spheres::Spheres;
use voxel_world::worlds::{Key, KeyState, World};

fn sphere_world() -> (ChunkMapping, Voxels) {
    let dims = Dims::new(8, 16).unwrap();
    let mut mapping = ChunkMapping::new(dims);
    let mut voxels = Voxels::new(dims);
    clear(0, &mut mapping, &mut voxels);
    (mapping, voxels)
}

fn populated_chunks(mapping: &ChunkMapping) -> usize {
    (0..mapping.len()).filter(|&i| mapping.get(i) != 0).count()
}

fn expected_code(sphere: &Sphere, p: (i32, i32, i32)) -> u32 {
    let d = (p.0 - sphere.center.0, p.1 - sphere.center.1, p.2 - sphere.center.2);
    let d2 = d.0 * d.0 + d.1 * d.1 + d.2 * d.2;
    if d2 < sphere.radius * sphere.radius {
        ((d2 & 10) >> 1) as u32 + 3 + (sphere.index as u32 % 10) * 2
    } else {
        0
    }
}

fn passed_over(sphere: &Sphere, chunk: (i32, i32, i32)) -> bool {
    let m = (chunk.0 * 8 + 4, chunk.1 * 8 + 4, chunk.2 * 8 + 4);
    let d = (m.0 - sphere.center.0, m.1 - sphere.center.1, m.2 - sphere.center.2);
    d.0 * d.0 + d.1 * d.1 + d.2 * d.2 > (sphere.radius - 8) * (sphere.radius - 8)
}

#[test]
fn a_sphere_claims_its_chunks_in_order() {
    let (mut mapping, mut voxels) = sphere_world();
    let sphere = Sphere { index: 3, radius: 20, center: (64, 64, 64) };
    let mut new_chunk = 1usize;
    place_sphere(&sphere, &mut new_chunk, &mut mapping, &mut voxels);
    assert_eq!(new_chunk, 9);
    assert_eq!(populated_chunks(&mapping), 8);
    let order = [
        (7, 7, 7), (7, 7, 8), (7, 8, 7), (7, 8, 8), (8, 7, 7), (8, 7, 8), (8, 8, 7), (8, 8, 8),
    ];
    for (k, c) in order.iter().enumerate() {
        let i = pos_to_index(*c, 16).unwrap();
        assert_eq!(mapping.get(i), k as u32 + 1);
    }
    assert!((0..512).all(|i| voxels.get(0, i) == AIR_MARKER));
}

#[test]
fn a_sphere_writes_the_material_of_the_formula() {
    let (mut mapping, mut voxels) = sphere_world();
    let sphere = Sphere { index: 3, radius: 20, center: (64, 64, 64) };
    let mut new_chunk = 1usize;
    place_sphere(&sphere, &mut new_chunk, &mut mapping, &mut voxels);
    let read = |p: (i32, i32, i32)| {
        let chunk = pos_to_index((p.0 / 8, p.1 / 8, p.2 / 8), 16).unwrap();
        let place = pos_to_index((p.0 % 8, p.1 % 8, p.2 % 8), 8).unwrap();
        voxels.get(mapping.get(chunk) as usize, place)
    };
    assert_eq!(read((64, 64, 64)), 9);
    assert_eq!(read((65, 64, 64)), 9);
    assert_eq!(read((65, 65, 64)), 10);
    assert_eq!(read((66, 66, 64)), 13);
    assert_eq!(read((67, 65, 64)), 14);
    assert_eq!(read((63, 63, 63)), 10);
    assert_eq!(read((56, 56, 56)), expected_code(&sphere, (56, 56, 56)));
}

#[test]
fn every_chunk_of_a_sphere_is_staged_whole_or_passed_over() {
    let (mut mapping, mut voxels) = sphere_world();
    let sphere = Sphere { index: 17, radius: 33, center: (60, 71, 50) };
    let mut new_chunk = 1usize;
    place_sphere(&sphere, &mut new_chunk, &mut mapping, &mut voxels);
    let mut claimed = 0usize;
    for i in 0..mapping.len() {
        let c = index_to_pos(i, 16).unwrap();
        let slot = mapping.get(i) as usize;
        let mut any = false;
        for place in 0..512 {
            let v = index_to_pos(place, 8).unwrap();
            let p = (c.0 * 8 + v.0, c.1 * 8 + v.1, c.2 * 8 + v.2);
            let code = expected_code(&sphere, p);
            any = any || code != 0;
            if slot != 0 {
                assert_eq!(voxels.get(slot, place), code);
                assert!(code == 0 || (17 <= code && code <= 22));
            }
        }
        let in_box = (0..3).all(|k| {
            let (ck, center) = match k {
                0 => (c.0, sphere.center.0),
                1 => (c.1, sphere.center.1),
                _ => (c.2, sphere.center.2),
            };
            (center - sphere.radius) / 8 <= ck && ck <= (center + sphere.radius) / 8
        });
        let expected = in_box && !passed_over(&sphere, c) && any;
        assert_eq!(slot != 0, expected);
        if slot != 0 {
            claimed += 1;
            assert!((0..512).any(|place| voxels.get(slot, place) != 0));
        }
    }
    assert!(claimed > 0);
    assert_eq!(claimed, new_chunk - 1);
    assert_eq!(populated_chunks(&mapping), new_chunk - 1);
}

#[test]
fn a_sphere_that_sets_no_voxel_claims_nothing() {
    let (mut mapping, mut voxels) = sphere_world();
    let sphere = Sphere { index: 0, radius: 0, center: (64, 64, 64) };
    let mut new_chunk = 1usize;
    place_sphere(&sphere, &mut new_chunk, &mut mapping, &mut voxels);
    assert_eq!(new_chunk, 1);
    assert_eq!(populated_chunks(&mapping), 0);
}

#[test]
fn an_unclaimed_candidate_is_staged_again() {
    let (mut mapping, mut voxels) = sphere_world();
    voxels.push_slot();
    for place in 0..512 {
        voxels.set(1, place, 77);
    }
    let sphere = Sphere { index: 1, radius: 9, center: (20, 20, 20) };
    let mut new_chunk = 1usize;
    place_sphere(&sphere, &mut new_chunk, &mut mapping, &mut voxels);
    for i in 0..mapping.len() {
        let slot = mapping.get(i) as usize;
        if slot != 0 {
            let c = index_to_pos(i, 16).unwrap();
            for place in 0..512 {
                let v = index_to_pos(place, 8).unwrap();
                let p = (c.0 * 8 + v.0, c.1 * 8 + v.1, c.2 * 8 + v.2);
                assert_eq!(voxels.get(slot, place), expected_code(&sphere, p));
            }
        }
    }
    assert_eq!(populated_chunks(&mapping), new_chunk - 1);
}

#[test]
fn two_spheres_on_one_chunk_claim_it_twice() {
    let (mut mapping, mut voxels) = sphere_world();
    let first = Sphere { index: 0, radius: 20, center: (64, 64, 64) };
    let second = Sphere { index: 1, radius: 20, center: (64, 64, 64) };
    let mut new_chunk = 1usize;
    place_sphere(&first, &mut new_chunk, &mut mapping, &mut voxels);
    assert_eq!(new_chunk, 9);
    place_sphere(&second, &mut new_chunk, &mut mapping, &mut voxels);
    assert_eq!(new_chunk, 17);
    assert_eq!(populated_chunks(&mapping), 8);
    assert_eq!(mapping.get(pos_to_index((7, 7, 7), 16).unwrap()), 9);
    assert_eq!(voxels.get(9, 0), expected_code(&second, (56, 56, 56)));
    assert_eq!(voxels.get(1, 0), expected_code(&first, (56, 56, 56)));
}

#[test]
fn a_drawn_sphere_keeps_the_world_consistent() {
    for n in 0..6usize {
        let (mut mapping, mut voxels) = sphere_world();
        let mut new_chunk = 1usize;
        place_one_sphere(n, &mut new_chunk, &mut mapping, &mut voxels);
        assert!(new_chunk >= 1);
        assert!(new_chunk <= voxels.slot_count());
        assert_eq!(populated_chunks(&mapping), new_chunk - 1);
        let low = 3 + (n as u32 % 10) * 2;
        for slot in 1..new_chunk {
            let mut any = false;
            for place in 0..512 {
                let code = voxels.get(slot, place);
                assert!(code == 0 || (low <= code && code <= low + 5));
                any = any || code != 0;
            }
            assert!(any);
        }
        for i in 0..mapping.len() {
            assert!((mapping.get(i) as usize) < new_chunk);
        }
        assert!((0..512).all(|i| voxels.get(0, i) == AIR_MARKER));
    }
}

#[test]
fn the_sphere_field_populates_once_until_reset() {
    let dims = Dims::new(8, 16).unwrap();
    let mut mapping = ChunkMapping::new(dims);
    let mut voxels = Voxels::new(dims);
    let mut field = Spheres::default();
    assert_eq!(field.chunk_count(), 0);
    field.fill_in_voxels(&mut mapping, &mut voxels);
    let used = field.chunk_count();
    assert!(used >= 1);
    assert!(used <= voxels.slot_count());
    assert!(populated_chunks(&mapping) <= used - 1);
    assert!((0..512).all(|i| voxels.get(0, i) == AIR_MARKER));
    for i in 0..mapping.len() {
        let slot = mapping.get(i) as usize;
        assert!(slot < used);
        if slot != 0 {
            assert!((0..512).any(|place| voxels.get(slot, place) != 0));
        }
    }
    for slot in 1..used {
        for place in 0..512 {
            let code = voxels.get(slot, place);
            assert!(code == 0 || (3 <= code && code <= 26));
        }
    }
    let before: Vec<u32> = (0..mapping.len()).map(|i| mapping.get(i)).collect();
    field.fill_in_voxels(&mut mapping, &mut voxels);
    let after: Vec<u32> = (0..mapping.len()).map(|i| mapping.get(i)).collect();
    assert_eq!(before, after);
    assert_eq!(field.chunk_count(), used);
    field.keyboard_input(Key::X, KeyState::Released);
    field.keyboard_input(Key::Other, KeyState::Pressed);
    field.fill_in_voxels(&mut mapping, &mut voxels);
    let still: Vec<u32> = (0..mapping.len()).map(|i| mapping.get(i)).collect();
    assert_eq!(before, still);
    field.keyboard_input(Key::X, KeyState::Pressed);
    field.fill_in_voxels(&mut mapping, &mut voxels);
    let again = field.chunk_count();
    assert!(populated_chunks(&mapping) <= again - 1);
    for i in 0..mapping.len() {
        assert!((mapping.get(i) as usize) < again);
    }
}

#[test]
fn geometry_follows_a_sphere() {
    let (mut mapping, mut voxels) = sphere_world();
    let sphere = Sphere { index: 3, radius: 20, center: (64, 64, 64) };
    let mut new_chunk = 1usize;
    place_sphere(&sphere, &mut new_chunk, &mut mapping, &mut voxels);
    let mut buffer = Vertices::new();
    let mut count = 0usize;
    set_vertex_buffer(&mapping, &mut buffer, &mut count);
    assert_eq!(count, 36 * populated_chunks(&mapping));
    assert_eq!(count, 288);
    assert_eq!(buffer.get(0), MyVertex { position: (64, 64, 56) });
    assert_eq!(buffer.get(5), MyVertex { position: (56, 56, 56) });
    assert_eq!(buffer.get(36), MyVertex { position: (72, 64, 56) });
    clear(new_chunk, &mut mapping, &mut voxels);
    set_vertex_buffer(&mapping, &mut buffer, &mut count);
    assert_eq!(count, 0);
    assert!((0..288).all(|i| buffer.get(i) == MyVertex::default()));
}

#[test]
fn drawn_spheres_differ_in_size_and_place() {
    let mut outcomes = Vec::new();
    for _ in 0..20 {
        let (mut mapping, mut voxels) = sphere_world();
        let mut new_chunk = 1usize;
        place_one_sphere(0, &mut new_chunk, &mut mapping, &mut voxels);
        let first = (0..mapping.len()).find(|&i| mapping.get(i) != 0);
        outcomes.push((new_chunk, first));
    }
    assert!(outcomes.iter().any(|o| *o != outcomes[0]));
}
