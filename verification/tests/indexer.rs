use voxel_world::pos_to_index::{cell_index, index_cell, index_to_pos, pos_to_index, IndexError};

#[test]
fn index_of_a_cell_follows_the_formula() {
    assert_eq!(pos_to_index((0, 0, 0), 8), Ok(0));
    assert_eq!(pos_to_index((1, 0, 0), 8), Ok(1));
    assert_eq!(pos_to_index((0, 1, 0), 8), Ok(8));
    assert_eq!(pos_to_index((0, 0, 1), 8), Ok(64));
    assert_eq!(pos_to_index((3, 5, 7), 8), Ok(7 * 64 + 5 * 8 + 3));
    assert_eq!(pos_to_index((127, 127, 127), 128), Ok(128 * 128 * 128 - 1));
}

#[test]
fn cell_of_an_index_follows_the_formula() {
    assert_eq!(index_to_pos(0, 8), Ok((0, 0, 0)));
    assert_eq!(index_to_pos(491, 8), Ok((3, 5, 7)));
    assert_eq!(index_to_pos(511, 8), Ok((7, 7, 7)));
    assert_eq!(index_to_pos(21, 4), Ok((1, 1, 1)));
}

#[test]
fn round_trip_over_every_cell_of_small_grids() {
    for edge in 1usize..7 {
        let mut seen = 0usize;
        for z in 0..edge as i32 {
            for y in 0..edge as i32 {
                for x in 0..edge as i32 {
                    let i = pos_to_index((x, y, z), edge).unwrap();
                    assert_eq!(i, seen);
                    assert_eq!(index_to_pos(i, edge), Ok((x, y, z)));
                    seen += 1;
                }
            }
        }
        assert_eq!(seen, edge * edge * edge);
    }
}

#[test]
fn coordinates_outside_the_grid_are_refused() {
    assert_eq!(pos_to_index((8, 0, 0), 8), Err(IndexError::InvalidCoordinate));
    assert_eq!(pos_to_index((0, 8, 0), 8), Err(IndexError::InvalidCoordinate));
    assert_eq!(pos_to_index((0, 0, 8), 8), Err(IndexError::InvalidCoordinate));
    assert_eq!(pos_to_index((-1, 0, 0), 8), Err(IndexError::InvalidCoordinate));
    assert_eq!(pos_to_index((0, -1, 0), 8), Err(IndexError::InvalidCoordinate));
    assert_eq!(pos_to_index((0, 0, i32::MIN), 8), Err(IndexError::InvalidCoordinate));
    assert_eq!(pos_to_index((0, 0, 0), 0), Err(IndexError::InvalidCoordinate));
}

#[test]
fn indices_outside_the_array_are_refused() {
    assert_eq!(index_to_pos(512, 8), Err(IndexError::InvalidIndex));
    assert_eq!(index_to_pos(usize::MAX, 8), Err(IndexError::InvalidIndex));
    assert_eq!(index_to_pos(0, 0), Err(IndexError::InvalidIndex));
    assert_eq!(index_to_pos(1, 1), Err(IndexError::InvalidIndex));
    assert_eq!(index_to_pos(0, 1), Ok((0, 0, 0)));
}

#[test]
fn unchecked_index_and_cell_agree_with_the_checked_ones() {
    assert_eq!(cell_index(3, 5, 7, 8), 491);
    assert_eq!(index_cell(491, 8), (3, 5, 7));
    assert_eq!(index_cell(cell_index(2, 2, 2, 8), 8), (2, 2, 2));
}
