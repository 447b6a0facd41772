use voxel_world::shared::{ChunkMapping, Dims, Length, Voxels, AIR_MARKER};
use voxel_world::worlds::hills::Hills;
use voxel_world::worlds::noise::Noise;
use voxel_world::worlds::spheres::Spheres;
use voxel_world::worlds::{Generator, Key, KeyState, World};

fn fresh(chunk_edge: usize, world_edge_chunks: usize) -> (ChunkMapping, Voxels) {
    let dims = Dims::new(chunk_edge, world_edge_chunks).unwrap();
    (ChunkMapping::new(dims), Voxels::new(dims))
}

#[test]
fn a_generator_tells_which_worlds_it_can_populate() {
    let (small_mapping, small_voxels) = fresh(8, 4);
    let (wide_mapping, wide_voxels) = fresh(8, 16);
    let (flat_mapping, flat_voxels) = fresh(8, 1);
    let spheres = Generator::Spheres(Spheres::new());
    assert!(!spheres.is_ready(&small_mapping, &small_voxels));
    assert!(spheres.is_ready(&wide_mapping, &wide_voxels));
    let (edge_mapping, edge_voxels) = fresh(7, 17);
    assert!(spheres.is_ready(&edge_mapping, &edge_voxels));
    let (short_mapping, short_voxels) = fresh(2, 59);
    assert!(!spheres.is_ready(&short_mapping, &short_voxels));
    let hills = Generator::Hills(Hills::new(vec![0; 256]));
    assert!(hills.is_ready(&small_mapping, &small_voxels));
    assert!(!hills.is_ready(&flat_mapping, &flat_voxels));
    let unfit = Generator::Hills(Hills::new(vec![0; 255]));
    assert!(!unfit.is_ready(&small_mapping, &small_voxels));
    let noise = Generator::Noise(Noise::new());
    assert!(noise.is_ready(&flat_mapping, &flat_voxels));
}

#[test]
fn the_chosen_generator_populates_the_world() {
    let (mut mapping, mut voxels) = fresh(8, 4);
    let mut generators = vec![
        Generator::Noise(Noise::new()),
        Generator::Hills(Hills::new(vec![2; 256])),
    ];
    assert!(!generators[0].is_populated());
    generators[0].fill_in_voxels(&mut mapping, &mut voxels);
    assert!(generators[0].is_populated());
    assert!((0..mapping.len()).all(|i| mapping.get(i) == 0));
    assert!(!generators[1].is_populated());
    generators[1].fill_in_voxels(&mut mapping, &mut voxels);
    assert!(generators[1].is_populated());
    assert_eq!(mapping.get(0), 1);
    assert_eq!(mapping.get(4), 5);
    assert_eq!(voxels.slot_count(), 6);
    assert!((0..512).all(|i| voxels.get(0, i) == AIR_MARKER));
    generators[1].keyboard_input(Key::Other, KeyState::Pressed);
    assert!(generators[1].is_populated());
    generators[1].keyboard_input(Key::X, KeyState::Released);
    assert!(generators[1].is_populated());
    generators[1].keyboard_input(Key::X, KeyState::Pressed);
    assert!(!generators[1].is_populated());
    generators[0].reset_event();
    assert!(!generators[0].is_populated());
}

#[test]
fn an_array_knows_its_length() {
    assert_eq!(<[u32; 5] as Length>::LEN, 5);
    assert_eq!(<[(i32, i32, i32); 36] as Length>::LEN, 36);
    assert_eq!(<[u8; 0] as Length>::LEN, 0);
}
