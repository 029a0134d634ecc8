use fluid_sim::hash_grid::HashGrid;
use fluid_sim::spatial_hash::{hash_cell_2d, key_from_hash};

#[test]
fn new_table_is_empty() {
    let grid = HashGrid::new();
    assert_eq!(grid.size(), 0);
    assert_eq!(grid.neighbours((0, 0), None), Vec::<u32>::new());
}

#[test]
fn rebuild_with_no_particles_finds_nothing() {
    let mut grid = HashGrid::new();
    grid.rebuild(&vec![(1, 1), (2, 2)]);
    grid.rebuild(&vec![]);
    assert_eq!(grid.size(), 0);
    assert_eq!(grid.neighbours((1, 1), None), Vec::<u32>::new());
}

#[test]
fn one_particle_is_found_from_the_nine_cells_around_it() {
    let mut grid = HashGrid::new();
    grid.rebuild(&vec![(5, -3)]);
    assert_eq!(grid.size(), 1);
    for dx in -1..=1 {
        for dy in -1..=1 {
            assert_eq!(grid.neighbours((5 + dx, -3 + dy), None), vec![0]);
        }
    }
    assert_eq!(grid.neighbours((7, -3), None), Vec::<u32>::new());
    assert_eq!(grid.neighbours((5, -5), None), Vec::<u32>::new());
}

#[test]
fn skip_leaves_out_one_particle() {
    let mut grid = HashGrid::new();
    grid.rebuild(&vec![(0, 0), (0, 0), (0, 0)]);
    assert_eq!(grid.neighbours((0, 0), None), vec![0, 1, 2]);
    assert_eq!(grid.neighbours((0, 0), Some(1)), vec![0, 2]);
    assert_eq!(grid.neighbours((0, 0), Some(0)), vec![1, 2]);
    assert_eq!(grid.neighbours((0, 0), Some(7)), vec![0, 1, 2]);
}

#[test]
fn found_particles_come_by_offset_then_by_id() {
    let mut grid = HashGrid::new();
    // particles 0 and 3 above the origin, 1 and 4 at it, 2 to its right
    let cells = vec![(0, 1), (0, 0), (1, 0), (0, 1), (0, 0)];
    grid.rebuild(&cells);
    // the offsets go (0, 1), then (0, 0), then (1, 0)
    assert_eq!(grid.neighbours((0, 0), None), vec![0, 3, 1, 4, 2]);
    assert_eq!(grid.neighbours((0, 0), Some(4)), vec![0, 3, 1, 2]);
}

#[test]
fn particles_of_far_cells_are_not_found() {
    let mut grid = HashGrid::new();
    let cells = vec![(0, 0), (2, 0), (0, 2), (-2, -2), (1, 1), (-1, 1)];
    grid.rebuild(&cells);
    let mut found = grid.neighbours((0, 0), None);
    found.sort();
    assert_eq!(found, vec![0, 4, 5]);
}

#[test]
fn cells_that_share_a_key_are_told_apart_by_hash() {
    // with two particles every hash has key 0 or 1: cells (0, 0) and (2, 0)
    // have hashes 0 and 31646, both of key 0
    let cells = vec![(0, 0), (2, 0)];
    assert_eq!(key_from_hash(hash_cell_2d(&cells[0]), 2), 0);
    assert_eq!(key_from_hash(hash_cell_2d(&cells[1]), 2), 0);
    let mut grid = HashGrid::new();
    grid.rebuild(&cells);
    assert_eq!(grid.neighbours((-1, 0), None), vec![0]);
    assert_eq!(grid.neighbours((3, 0), None), vec![1]);
    let mut both = grid.neighbours((1, 0), None);
    both.sort();
    assert_eq!(both, vec![0, 1]);
}

#[test]
fn cells_that_share_a_hash_are_found_together() {
    // 9737333 * 15823 = 15823 * 9737333: the cells (9737333, 0) and (0, 15823)
    // have the same hash
    let a = (9737333, 0);
    let b = (0, 15823);
    assert_eq!(hash_cell_2d(&a), hash_cell_2d(&b));
    let mut grid = HashGrid::new();
    grid.rebuild(&vec![a, b, (50, 50)]);
    assert_eq!(grid.neighbours(a, None), vec![0, 1]);
    assert_eq!(grid.neighbours(b, Some(1)), vec![0]);
}

#[test]
fn rebuild_forgets_the_cells_of_before() {
    let mut grid = HashGrid::new();
    grid.rebuild(&vec![(0, 0), (0, 0)]);
    grid.rebuild(&vec![(10, 10), (0, 0), (10, 10)]);
    assert_eq!(grid.size(), 3);
    assert_eq!(grid.neighbours((0, 0), None), vec![1]);
    assert_eq!(grid.neighbours((10, 10), None), vec![0, 2]);
}

#[test]
fn every_particle_of_the_cells_around_is_found_once() {
    let mut cells = vec![];
    let mut state: u32 = 2024;
    for _ in 0..300 {
        state = state.wrapping_mul(1664525).wrapping_add(1013904223);
        let x = (state >> 16) as i32 % 9 - 4;
        state = state.wrapping_mul(1664525).wrapping_add(1013904223);
        let y = (state >> 16) as i32 % 7 - 3;
        cells.push((x, y));
    }
    let mut grid = HashGrid::new();
    grid.rebuild(&cells);
    for id in 0..cells.len() {
        let mut found = grid.neighbours(cells[id], Some(id));
        let mut expected = vec![];
        for j in 0..cells.len() {
            let dx = cells[j].0 - cells[id].0;
            let dy = cells[j].1 - cells[id].1;
            if j != id && dx.abs() <= 1 && dy.abs() <= 1 {
                expected.push(j as u32);
            }
        }
        found.sort();
        // on so few cells no two hashes collide: what is found is what is near
        assert_eq!(found, expected);
    }
}
