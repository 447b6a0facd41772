use voxel_world::claim::{claim, open_candidate};
use voxel_world::clear::clear;
use voxel_world::pos_to_index::pos_to_index;
use voxel_world::shared::{ChunkMapping, Dims, Voxels, AIR_MARKER};
use voxel_world::trace::{check_entries, shade, trace, voxel_unit_at, Hit, Ray, Shade};

fn world_with(voxels_set: &[((i32, i32, i32), u32)]) -> (ChunkMapping, Voxels) {
    let dims = Dims::new(8, 4).unwrap();
    let mut mapping = ChunkMapping::new(dims);
    let mut voxels = Voxels::new(dims);
    clear(0, &mut mapping, &mut voxels);
    let mut new_chunk = 1usize;
    for &(p, code) in voxels_set {
        let chunk = pos_to_index((p.0 / 8, p.1 / 8, p.2 / 8), 4).unwrap();
        if mapping.get(chunk) == 0 {
            open_candidate(&mut voxels, new_chunk);
            claim(chunk, &mut new_chunk, &mut mapping);
        }
        let place = pos_to_index((p.0 % 8, p.1 % 8, p.2 % 8), 8).unwrap();
        voxels.set(mapping.get(chunk) as usize, place, code);
    }
    (mapping, voxels)
}

fn point(hit: &Hit) -> (f64, f64, f64) {
    let s = hit.scale as f64;
    (hit.position.0 as f64 / s, hit.position.1 as f64 / s, hit.position.2 as f64 / s)
}

fn ray(origin: (i128, i128, i128), scale: u64, direction: (i32, i32, i32)) -> Ray {
    Ray::new(origin, scale, direction).unwrap()
}

#[test]
fn a_ray_along_z_hits_the_single_voxel() {
    let (mapping, voxels) = world_with(&[((10, 10, 10), 5)]);
    assert!(check_entries(&mapping, &voxels));
    let hit = trace(&mapping, &voxels, &ray((10, 10, -50), 1, (0, 0, 1)));
    assert!(!hit.is_air);
    assert_eq!(hit.material, 5);
    assert_eq!(hit.normal, (0, 0, -1));
    assert_eq!(hit.cell, (10, 10, 10));
    assert_eq!(hit.position, (10, 10, 10));
    assert_eq!(hit.scale, 1);
    let p = point(&hit);
    assert!((p.2 - 10.0).abs() < 1e-9);
    assert!(hit.steps <= 96);
    assert_eq!(hit.steps, 10);
}

#[test]
fn a_ray_beside_the_world_finds_nothing() {
    let (mapping, voxels) = world_with(&[((10, 10, 10), 5)]);
    let hit = trace(&mapping, &voxels, &ray((10, 10, -50), 1, (0, 1, 0)));
    assert!(hit.is_air);
    assert_eq!(hit.material, 0);
    assert_eq!(hit.normal, (0, 0, 0));
    assert_eq!(hit.position, (0, 0, 0));
    assert_eq!(hit.steps, 96);
}

#[test]
fn a_ray_through_an_empty_world_finds_nothing() {
    let (mapping, voxels) = world_with(&[]);
    for direction in [(1, 0, 0), (0, -1, 0), (1, 1, 1), (-3, 7, 2), (1, -1, 0)] {
        let hit = trace(&mapping, &voxels, &ray((33, 31, 35), 2, direction));
        assert!(hit.is_air);
        assert_eq!(hit.material, 0);
        assert_eq!(hit.steps, 96);
    }
}

#[test]
fn a_slanted_ray_enters_the_voxel_on_a_face() {
    let (mapping, voxels) = world_with(&[((10, 10, 10), 7), ((10, 10, 9), 0)]);
    let hit = trace(&mapping, &voxels, &ray((105, 94, 90), 10, (0, 3, 4)));
    assert!(!hit.is_air);
    assert_eq!(hit.material, 7);
    assert_eq!(hit.cell, (10, 10, 10));
    assert_eq!(hit.normal, (0, 0, -1));
    assert_eq!(hit.scale, 40);
    assert_eq!(hit.position, (420, 406, 400));
    assert_eq!(hit.steps, 2);
    let p = point(&hit);
    assert!((p.0 - 10.5).abs() < 1e-9);
    assert!((p.1 - 10.15).abs() < 1e-9);
    assert!((p.2 - 10.0).abs() < 1e-9);
}

#[test]
fn a_ray_through_an_edge_steps_along_z_before_y() {
    let (mapping, voxels) = world_with(&[((10, 10, 10), 7), ((10, 10, 9), 0)]);
    let hit = trace(&mapping, &voxels, &ray((105, 94, 92), 10, (0, 3, 4)));
    assert_eq!(hit.material, 7);
    assert_eq!(hit.cell, (10, 10, 10));
    assert_eq!(hit.normal, (0, -1, 0));
    assert_eq!(hit.scale, 30);
    assert_eq!(hit.position, (315, 300, 300));
    assert_eq!(hit.steps, 2);
}

#[test]
fn a_ray_downwards_hits_the_upper_face() {
    let (mapping, voxels) = world_with(&[((10, 10, 10), 4), ((10, 12, 10), 0)]);
    let hit = trace(&mapping, &voxels, &ray((21, 25, 21), 2, (0, -1, 0)));
    assert_eq!(hit.material, 4);
    assert_eq!(hit.normal, (0, 1, 0));
    assert_eq!(hit.cell, (10, 10, 10));
    let p = point(&hit);
    assert!((p.0 - 10.5).abs() < 1e-9);
    assert!((p.1 - 11.0).abs() < 1e-9);
    assert!((p.2 - 10.5).abs() < 1e-9);
    assert_eq!(hit.steps, 2);
}

#[test]
fn the_first_voxel_on_the_way_is_the_one_that_is_hit() {
    let (mapping, voxels) = world_with(&[((10, 10, 12), 3), ((10, 10, 14), 8)]);
    let hit = trace(&mapping, &voxels, &ray((21, 21, 19), 2, (0, 0, 1)));
    assert_eq!(hit.material, 3);
    assert_eq!(hit.cell, (10, 10, 12));
    let back = trace(&mapping, &voxels, &ray((21, 21, 31), 2, (0, 0, -1)));
    assert_eq!(back.material, 8);
    assert_eq!(back.cell, (10, 10, 14));
    assert_eq!(back.normal, (0, 0, 1));
}

#[test]
fn the_opaque_marker_ends_a_ray_as_air() {
    let (mapping, voxels) = world_with(&[((10, 10, 12), 1)]);
    let hit = trace(&mapping, &voxels, &ray((21, 21, 19), 2, (0, 0, 1)));
    assert!(hit.is_air);
    assert_eq!(hit.material, 1);
    assert_eq!(hit.cell, (10, 10, 12));
    assert_eq!(shade(&mapping, &voxels, &ray((21, 21, 19), 2, (0, 0, 1))), Shade::Sky);
}

#[test]
fn air_is_skipped_a_macro_chunk_at_a_time() {
    let (mapping, voxels) = world_with(&[((20, 10, 10), 6)]);
    let hit = trace(&mapping, &voxels, &ray((1, 21, 21), 2, (1, 0, 0)));
    assert_eq!(hit.material, 6);
    assert_eq!(hit.cell, (20, 10, 10));
    assert_eq!(hit.normal, (-1, 0, 0));
    assert_eq!(hit.position, (40, 21, 21));
    assert_eq!(hit.scale, 2);
    assert_eq!(hit.steps, 6);
}

#[test]
fn the_cell_that_a_skip_ends_in_is_not_read() {
    let (mapping, voxels) = world_with(&[((16, 10, 10), 6)]);
    let hit = trace(&mapping, &voxels, &ray((1, 21, 21), 2, (1, 0, 0)));
    assert!(hit.is_air);
    assert_eq!(hit.material, 0);
    assert_eq!(hit.steps, 96);
    let near = trace(&mapping, &voxels, &ray((31, 21, 21), 2, (1, 0, 0)));
    assert_eq!(near.material, 6);
    assert_eq!(near.cell, (16, 10, 10));
    assert_eq!(near.steps, 1);
    let (mapping, voxels) = world_with(&[((16, 10, 10), 6), ((15, 10, 10), 0)]);
    let hit = trace(&mapping, &voxels, &ray((17, 21, 21), 2, (1, 0, 0)));
    assert_eq!(hit.material, 6);
    assert_eq!(hit.cell, (16, 10, 10));
}

#[test]
fn cells_read_through_the_mapping() {
    let (mapping, voxels) = world_with(&[((10, 10, 10), 5)]);
    assert_eq!(voxel_unit_at(&mapping, &voxels, (10, 10, 10)), 5);
    assert_eq!(voxel_unit_at(&mapping, &voxels, (11, 10, 10)), 0);
    assert_eq!(voxel_unit_at(&mapping, &voxels, (8, 8, 8)), 0);
    assert_eq!(voxel_unit_at(&mapping, &voxels, (7, 10, 10)), AIR_MARKER);
    assert_eq!(voxel_unit_at(&mapping, &voxels, (0, 0, 0)), AIR_MARKER);
    assert_eq!(voxel_unit_at(&mapping, &voxels, (31, 31, 31)), AIR_MARKER);
    assert_eq!(voxel_unit_at(&mapping, &voxels, (32, 10, 10)), AIR_MARKER);
    assert_eq!(voxel_unit_at(&mapping, &voxels, (-1, 10, 10)), AIR_MARKER);
    assert_eq!(voxel_unit_at(&mapping, &voxels, (10, 10, i128::MAX)), AIR_MARKER);
}

#[test]
fn entries_that_name_no_slot_are_found() {
    let (mut mapping, voxels) = world_with(&[((10, 10, 10), 5)]);
    assert!(check_entries(&mapping, &voxels));
    mapping.set(3, 2);
    assert!(!check_entries(&mapping, &voxels));
}

#[test]
fn a_hit_in_the_light_is_lit() {
    let (mapping, voxels) = world_with(&[((10, 10, 10), 5)]);
    let r = ray((21, 21, -100), 2, (0, 0, 1));
    assert_eq!(shade(&mapping, &voxels, &r), Shade::Lit(5));
}

#[test]
fn a_hit_behind_another_voxel_is_in_shadow() {
    let (mapping, voxels) = world_with(&[((10, 10, 10), 5), ((9, 9, 8), 4)]);
    let r = ray((21, 21, -100), 2, (0, 0, 1));
    let hit = trace(&mapping, &voxels, &r);
    assert_eq!(hit.material, 5);
    assert_eq!(hit.position, (21, 21, 20));
    assert_eq!(hit.scale, 2);
    let second = ray((21, 21, 18), 2, (-1, -1, -1));
    let blocked = trace(&mapping, &voxels, &second);
    assert_eq!(blocked.material, 4);
    assert_eq!(blocked.cell, (9, 9, 8));
    assert_eq!(shade(&mapping, &voxels, &r), Shade::Shadowed(5));
}

#[test]
fn a_ray_that_finds_nothing_shows_the_sky() {
    let (mapping, voxels) = world_with(&[((10, 10, 10), 5)]);
    assert_eq!(shade(&mapping, &voxels, &ray((10, 10, -50), 1, (0, 1, 0))), Shade::Sky);
}

#[test]
fn ties_between_axes_are_broken_in_a_fixed_order() {
    let (mapping, voxels) = world_with(&[((10, 10, 10), 0), ((11, 10, 10), 3), ((10, 11, 10), 4), ((10, 10, 11), 6)]);
    let diagonal = trace(&mapping, &voxels, &ray((10, 10, 10), 1, (1, 1, 1)));
    assert_eq!(diagonal.cell, (11, 10, 10));
    assert_eq!(diagonal.normal, (-1, 0, 0));
    let xy = trace(&mapping, &voxels, &ray((20, 20, 21), 2, (1, 1, 0)));
    assert_eq!(xy.cell, (10, 11, 10));
    let yz = trace(&mapping, &voxels, &ray((21, 20, 20), 2, (0, 1, 1)));
    assert_eq!(yz.cell, (10, 10, 11));
    let zx = trace(&mapping, &voxels, &ray((20, 21, 20), 2, (1, 0, 1)));
    assert_eq!(zx.cell, (11, 10, 10));
}

#[test]
fn rays_outside_the_limits_are_refused() {
    assert!(Ray::new((0, 0, 0), 1, (0, 0, 1)).is_some());
    assert_eq!(Ray::new((0, 0, 0), 1, (0, 0, 0)), None);
    assert_eq!(Ray::new((0, 0, 0), 0, (0, 0, 1)), None);
    assert_eq!(Ray::new((0, 0, 0), 1, (i32::MIN, 0, 1)), None);
    assert_eq!(Ray::new((0, 0, 0), 1 << 52, (0, 0, 1)), None);
    assert_eq!(Ray::new((0, 0, 0), 1 << 51, (0, 0, 2)), None);
    assert!(Ray::new((0, 0, 0), 1 << 51, (0, -1, 1)).is_some());
    assert!(Ray::new((0, 0, 0), 1 << 20, (i32::MAX, -i32::MAX, 1)).is_some());
    assert_eq!(Ray::new((1 << 40, 0, 0), 1, (0, 0, 1)), None);
    assert!(Ray::new(((1 << 40) - 1, -(1 << 40), 0), 1, (0, 0, 1)).is_some());
    assert_eq!(Ray::new((0, -(1 << 40) - 1, 0), 1, (0, 0, 1)), None);
    assert!(Ray::new((1 << 41, 0, 0), 4, (0, 0, 1)).is_some());
    assert_eq!(
        Ray::new((5, 6, 7), 3, (1, -2, 3)),
        Some(Ray { origin: (5, 6, 7), scale: 3, direction: (1, -2, 3) })
    );
}

#[test]
fn a_ray_from_far_away_with_a_long_direction_is_traced() {
    let (mapping, voxels) = world_with(&[((10, 10, 10), 5)]);
    let r = ray((21 << 19, 21 << 19, -(1i128 << 59)), 1 << 20, (0, 0, i32::MAX));
    let hit = trace(&mapping, &voxels, &r);
    assert!(hit.is_air);
    assert_eq!(hit.steps, 96);
    let r = ray((21 << 19, 21 << 19, -(60i128 << 20)), 1 << 20, (0, 0, i32::MAX));
    let hit = trace(&mapping, &voxels, &r);
    assert_eq!(hit.material, 5);
    let p = point(&hit);
    assert!((p.0 - 10.5).abs() < 1e-9 && (p.1 - 10.5).abs() < 1e-9 && (p.2 - 10.0).abs() < 1e-9);
}
