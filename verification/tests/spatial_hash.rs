use fluid_sim::spatial_hash::{
    hash_cell_2d, hash_neighbour, key_from_hash, HASH_K1, HASH_K2, OFFSETS_2D,
};

#[test]
fn hash_of_origin_is_zero() {
    assert_eq!(hash_cell_2d(&(0, 0)), 0);
}

#[test]
fn hash_of_unit_cells_gives_the_factors() {
    assert_eq!(hash_cell_2d(&(1, 0)), 15823);
    assert_eq!(hash_cell_2d(&(0, 1)), 9737333);
    assert_eq!(hash_cell_2d(&(1, 1)), 9753156);
    assert_eq!(HASH_K1, 15823);
    assert_eq!(HASH_K2, 9737333);
}

#[test]
fn hash_is_linear_in_small_cells() {
    // -3 * 15823 + 7 * 9737333
    assert_eq!(hash_cell_2d(&(-3, 7)), 68113862);
    // 12 * 15823 + 5 * 9737333
    assert_eq!(hash_cell_2d(&(12, 5)), 48876541);
}

#[test]
fn hash_wraps_for_negative_cells() {
    // 2^32 - 15823
    assert_eq!(hash_cell_2d(&(-1, 0)), 4294951473);
    // 2^32 - 9737333
    assert_eq!(hash_cell_2d(&(0, -1)), 4285229963);
    // 2^32 - 15823 - 9737333
    assert_eq!(hash_cell_2d(&(-1, -1)), 4285214140);
}

#[test]
fn hash_wraps_for_large_cells() {
    // 1000000 * 9737333 = 9737333000000, modulo 2^32
    assert_eq!(hash_cell_2d(&(0, 1_000_000)), (9_737_333_000_000u64 % (1u64 << 32)) as u32);
    let x = i32::MAX as i64;
    let y = i32::MIN as i64;
    let expected = (x * 15823 + y * 9737333).rem_euclid(1i64 << 32) as u32;
    assert_eq!(hash_cell_2d(&(i32::MAX, i32::MIN)), expected);
}

#[test]
fn key_is_the_remainder() {
    assert_eq!(key_from_hash(10, 3), 1);
    assert_eq!(key_from_hash(0, 7), 0);
    assert_eq!(key_from_hash(15823, 15823), 0);
    assert_eq!(key_from_hash(u32::MAX, 1), 0);
    assert_eq!(key_from_hash(u32::MAX, 10), 5);
    assert_eq!(key_from_hash(9, 10), 9);
}

#[test]
fn offsets_are_the_nine_cells_around() {
    assert_eq!(OFFSETS_2D.len(), 9);
    assert_eq!(OFFSETS_2D[0], (-1, 1));
    assert_eq!(OFFSETS_2D[4], (0, 0));
    assert_eq!(OFFSETS_2D[8], (1, -1));
    for dx in -1..=1 {
        for dy in -1..=1 {
            let count = OFFSETS_2D.iter().filter(|o| **o == (dx, dy)).count();
            assert_eq!(count, 1);
        }
    }
}

#[test]
fn neighbour_hash_is_the_hash_of_the_shifted_cell() {
    let cell = (4, -9);
    for k in 0..9 {
        let shifted = (cell.0 + OFFSETS_2D[k].0, cell.1 + OFFSETS_2D[k].1);
        assert_eq!(hash_neighbour(&cell, k), hash_cell_2d(&shifted));
    }
    assert_eq!(hash_neighbour(&(0, 0), 4), 0);
    assert_eq!(hash_neighbour(&(0, 0), 5), 15823);
    assert_eq!(hash_neighbour(&(0, 0), 1), 9737333);
}

#[test]
fn neighbour_hash_wraps_at_the_edge_of_the_coordinates() {
    // one step right of the largest column is the smallest column
    assert_eq!(hash_neighbour(&(i32::MAX, 0), 5), hash_cell_2d(&(i32::MIN, 0)));
    assert_eq!(hash_neighbour(&(0, i32::MIN), 7), hash_cell_2d(&(0, i32::MAX)));
}

#[test]
fn neighbour_hashes_of_a_cell_all_differ() {
    for cell in [(0, 0), (-7, 3), (i32::MAX, i32::MIN), (123456, -654321)] {
        for k in 0..9 {
            for l in 0..9 {
                if k != l {
                    assert_ne!(hash_neighbour(&cell, k), hash_neighbour(&cell, l));
                }
            }
        }
    }
}
