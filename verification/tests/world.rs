use voxel_world::claim::{claim, claim_if_occupied, is_occupied, open_candidate};
use voxel_world::clear::clear;
use voxel_world::create_vertex_buffer::set_vertex_buffer;
use voxel_world::shared::{ChunkMapping, Dims, MyVertex, Vertices, Voxels, AIR_MARKER};

fn small_world() -> (ChunkMapping, Voxels) {
    let dims = Dims::new(8, 4).unwrap();
    (ChunkMapping::new(dims), Voxels::new(dims))
}

fn nonzero_entries(mapping: &ChunkMapping) -> usize {
    (0..mapping.len()).filter(|&i| mapping.get(i) != 0).count()
}

#[test]
fn dimensions_are_checked() {
    assert_eq!(Dims::new(8, 4), Some(Dims { chunk_edge: 8, world_edge_chunks: 4 }));
    assert_eq!(Dims::new(0, 4), None);
    assert_eq!(Dims::new(8, 0), None);
    assert_eq!(Dims::new(1 << 16, 1 << 16), None);
    assert_eq!(Dims::new(1, i32::MAX as usize), None);
    let dims = Dims::new(8, 128).unwrap();
    assert_eq!(dims.volume(), 512);
    assert_eq!(dims.chunk_count(), 128 * 128 * 128);
    assert_eq!(dims.edge_voxels(), 1024);
}

#[test]
fn a_new_world_is_empty_and_holds_the_sentinel() {
    let (mapping, voxels) = small_world();
    assert_eq!(mapping.len(), 64);
    assert_eq!(nonzero_entries(&mapping), 0);
    assert_eq!(voxels.slot_count(), 1);
    assert_eq!(voxels.slot_len(0), 512);
    assert!((0..512).all(|i| voxels.get(0, i) == AIR_MARKER));
}

#[test]
fn clear_resets_mapping_sentinel_and_live_slots() {
    let (mut mapping, mut voxels) = small_world();
    for _ in 0..4 {
        voxels.push_slot();
    }
    for slot in 1..5 {
        voxels.set(slot, 7, 9);
        voxels.set(slot, 511, 4);
    }
    mapping.set(0, 1);
    mapping.set(21, 2);
    mapping.set(63, 4);
    clear(3, &mut mapping, &mut voxels);
    assert_eq!(nonzero_entries(&mapping), 0);
    assert_eq!(voxels.slot_count(), 5);
    assert!((0..512).all(|i| voxels.get(0, i) == AIR_MARKER));
    assert!((0..512).all(|i| voxels.get(1, i) == 0));
    assert!((0..512).all(|i| voxels.get(2, i) == 0));
    assert_eq!(voxels.get(3, 7), 9);
    assert_eq!(voxels.get(3, 511), 4);
    assert_eq!(voxels.get(4, 7), 9);
}

#[test]
fn clear_takes_any_count() {
    for n in [0usize, 1, 2, 5, 6, 1000, usize::MAX] {
        let (mut mapping, mut voxels) = small_world();
        for _ in 0..4 {
            voxels.push_slot();
        }
        for slot in 1..5 {
            voxels.set(slot, 3, 11);
        }
        mapping.set(5, 3);
        clear(n, &mut mapping, &mut voxels);
        assert_eq!(nonzero_entries(&mapping), 0);
        assert!((0..512).all(|i| voxels.get(0, i) == AIR_MARKER));
        for slot in 1..5 {
            let expected = if slot < n { 0 } else { 11 };
            assert_eq!(voxels.get(slot, 3), expected);
        }
    }
}

#[test]
fn claim_commits_the_candidate_and_moves_on() {
    let (mut mapping, mut voxels) = small_world();
    let mut new_chunk = 1usize;
    open_candidate(&mut voxels, new_chunk);
    assert_eq!(voxels.slot_count(), 2);
    assert!(!is_occupied(&voxels, 1));
    voxels.set(1, 146, 5);
    assert!(is_occupied(&voxels, 1));
    claim(21, &mut new_chunk, &mut mapping);
    assert_eq!(new_chunk, 2);
    assert_eq!(mapping.get(21), 1);
    assert_eq!(nonzero_entries(&mapping), 1);
    open_candidate(&mut voxels, new_chunk);
    assert_eq!(voxels.slot_count(), 3);
    open_candidate(&mut voxels, new_chunk);
    assert_eq!(voxels.slot_count(), 3);
    open_candidate(&mut voxels, 1);
    assert_eq!(voxels.slot_count(), 3);
    assert_eq!(voxels.get(1, 146), 5);
}

#[test]
fn a_second_claim_of_a_chunk_leaves_the_count_of_populated_chunks() {
    let (mut mapping, mut voxels) = small_world();
    let mut new_chunk = 1usize;
    open_candidate(&mut voxels, new_chunk);
    claim(7, &mut new_chunk, &mut mapping);
    open_candidate(&mut voxels, new_chunk);
    claim(7, &mut new_chunk, &mut mapping);
    assert_eq!(new_chunk, 3);
    assert_eq!(mapping.get(7), 2);
    assert_eq!(nonzero_entries(&mapping), 1);
}

#[test]
fn geometry_of_an_empty_world_is_empty() {
    let (mapping, _) = small_world();
    let mut buffer = Vertices::new();
    let mut count = 0usize;
    set_vertex_buffer(&mapping, &mut buffer, &mut count);
    assert_eq!(count, 0);
    assert_eq!(buffer.len(), 0);
}

#[test]
fn geometry_holds_one_cube_for_each_populated_chunk() {
    let (mut mapping, _) = small_world();
    mapping.set(21, 1);
    mapping.set(0, 2);
    mapping.set(63, 3);
    let mut buffer = Vertices::new();
    let mut count = 0usize;
    set_vertex_buffer(&mapping, &mut buffer, &mut count);
    assert_eq!(count, 3 * 36);
    assert_eq!(count % 36, 0);
    assert_eq!(buffer.len(), 108);
    let unit: [(i32, i32, i32); 36] = [
        (1, 1, 0), (0, 1, 0), (1, 0, 0), (0, 1, 0), (1, 0, 0), (0, 0, 0),
        (1, 1, 1), (0, 1, 1), (1, 0, 1), (0, 1, 1), (1, 0, 1), (0, 0, 1),
        (0, 1, 1), (0, 1, 0), (0, 0, 1), (0, 1, 0), (0, 0, 1), (0, 0, 0),
        (1, 1, 1), (1, 1, 0), (1, 0, 1), (1, 1, 0), (1, 0, 1), (1, 0, 0),
        (1, 0, 1), (1, 0, 0), (0, 0, 1), (1, 0, 0), (0, 0, 1), (0, 0, 0),
        (1, 1, 1), (1, 1, 0), (0, 1, 1), (1, 1, 0), (0, 1, 1), (0, 1, 0),
    ];
    let origins = [(0, 0, 0), (1, 1, 1), (3, 3, 3)];
    for (k, o) in origins.iter().enumerate() {
        for (j, u) in unit.iter().enumerate() {
            let expected = MyVertex { position: ((o.0 + u.0) * 8, (o.1 + u.1) * 8, (o.2 + u.2) * 8) };
            assert_eq!(buffer.get(k * 36 + j), expected);
        }
    }
}

#[test]
fn geometry_that_shrinks_pads_its_tail_with_zero_vertices() {
    let (mut mapping, _) = small_world();
    mapping.set(1, 1);
    mapping.set(2, 2);
    mapping.set(3, 3);
    let mut buffer = Vertices::new();
    let mut count = 0usize;
    set_vertex_buffer(&mapping, &mut buffer, &mut count);
    assert_eq!(count, 108);
    mapping.set(2, 0);
    mapping.set(3, 0);
    set_vertex_buffer(&mapping, &mut buffer, &mut count);
    assert_eq!(count, 36);
    assert_eq!(buffer.len(), 108);
    assert_eq!(buffer.get(0), MyVertex { position: (16, 8, 0) });
    for i in 36..108 {
        assert_eq!(buffer.get(i), MyVertex::default());
    }
    mapping.set(1, 0);
    set_vertex_buffer(&mapping, &mut buffer, &mut count);
    assert_eq!(count, 0);
    for i in 0..36 {
        assert_eq!(buffer.get(i), MyVertex { position: (0, 0, 0) });
    }
}

#[test]
fn geometry_leaves_vertices_behind_the_old_count_alone() {
    let (mut mapping, _) = small_world();
    let mut buffer = Vertices::new();
    for i in 0..80 {
        buffer.put(i, MyVertex { position: (7, 7, 7) });
    }
    mapping.set(0, 1);
    let mut count = 50usize;
    set_vertex_buffer(&mapping, &mut buffer, &mut count);
    assert_eq!(count, 36);
    assert_eq!(buffer.len(), 80);
    for i in 36..50 {
        assert_eq!(buffer.get(i), MyVertex::default());
    }
    for i in 50..80 {
        assert_eq!(buffer.get(i), MyVertex { position: (7, 7, 7) });
    }
}

#[test]
fn an_empty_candidate_is_left_for_the_next_chunk() {
    let (mut mapping, mut voxels) = small_world();
    let mut new_chunk = 1usize;
    open_candidate(&mut voxels, new_chunk);
    assert!(!claim_if_occupied(3, &mut new_chunk, &mut mapping, &voxels));
    assert_eq!(new_chunk, 1);
    assert_eq!(mapping.get(3), 0);
    assert_eq!(nonzero_entries(&mapping), 0);
    open_candidate(&mut voxels, new_chunk);
    voxels.set(1, 511, 1);
    assert!(claim_if_occupied(4, &mut new_chunk, &mut mapping, &voxels));
    assert_eq!(new_chunk, 2);
    assert_eq!(mapping.get(4), 1);
    assert_eq!(nonzero_entries(&mapping), new_chunk - 1);
    assert_eq!(voxels.slot_count(), 2);
}
