use fluid_sim::region_grid::RegionGrid;

fn one_per_region() -> Vec<(usize, usize)> {
    // particle r * 3 + c lies in row r, column c
    let mut cells = vec![];
    for r in 0..3 {
        for c in 0..3 {
            cells.push((r, c));
        }
    }
    cells
}

#[test]
fn new_grid_has_no_regions() {
    let grid = RegionGrid::new();
    assert_eq!(grid.rows(), 0);
    assert_eq!(grid.cols(), 0);
    assert_eq!(grid.neighbours(0, 0, 0), Vec::<usize>::new());
}

#[test]
fn rebuild_sets_rows_and_cols() {
    let mut grid = RegionGrid::new();
    grid.rebuild(3, 5, &vec![]);
    assert_eq!(grid.rows(), 3);
    assert_eq!(grid.cols(), 5);
}

#[test]
fn neighbours_come_in_the_order_of_the_offsets() {
    let mut grid = RegionGrid::new();
    grid.rebuild(3, 3, &one_per_region());
    assert_eq!(grid.neighbours(1, 1, 4), vec![2, 5, 8, 1, 7, 0, 3, 6]);
}

#[test]
fn neighbours_leave_out_the_particle_itself_only() {
    let mut grid = RegionGrid::new();
    grid.rebuild(3, 3, &one_per_region());
    assert_eq!(grid.neighbours(1, 1, 100), vec![2, 5, 8, 1, 4, 7, 0, 3, 6]);
    assert_eq!(grid.neighbours(1, 1, 0), vec![2, 5, 8, 1, 4, 7, 3, 6]);
}

#[test]
fn neighbours_at_a_corner_skip_regions_outside() {
    let mut grid = RegionGrid::new();
    grid.rebuild(3, 3, &one_per_region());
    // around (0, 0): rows -1 and columns -1 do not exist
    assert_eq!(grid.neighbours(0, 0, 0), vec![1, 4, 3]);
    // around (2, 2): rows 3 and columns 3 do not exist
    assert_eq!(grid.neighbours(2, 2, 8), vec![5, 4, 7]);
}

#[test]
fn particles_of_one_region_keep_rising_order() {
    let mut grid = RegionGrid::new();
    let cells = vec![(0, 0), (1, 1), (0, 0), (1, 1), (0, 0)];
    grid.rebuild(2, 2, &cells);
    // offsets (-1, 0) gives region (0, 1): empty; (0, 0) gives (1, 1); (-1, -1) gives (0, 0)
    assert_eq!(grid.neighbours(1, 1, 1), vec![3, 0, 2, 4]);
    assert_eq!(grid.neighbours(0, 0, 2), vec![1, 3, 0, 4]);
}

#[test]
fn cells_beyond_the_grid_are_clamped_to_its_edge() {
    let mut grid = RegionGrid::new();
    let cells = vec![(7, 0), (0, 9), (usize::MAX, usize::MAX), (1, 1)];
    grid.rebuild(2, 2, &cells);
    // particle 0 is held by (1, 0), particle 1 by (0, 1), particles 2 and 3 by (1, 1)
    assert_eq!(grid.neighbours(1, 1, 3), vec![1, 2, 0]);
}

#[test]
fn a_particle_beyond_the_grid_searches_from_where_it_lies() {
    let mut grid = RegionGrid::new();
    let cells = vec![(0, 0), (0, 1), (0, 2), (0, 5)];
    grid.rebuild(1, 3, &cells);
    // particle 3 is held by column 2, and searches around column 5: nothing there
    assert_eq!(grid.neighbours(0, 5, 3), Vec::<usize>::new());
    // around column 3 only column 2 exists
    assert_eq!(grid.neighbours(0, 3, 3), vec![2]);
    assert_eq!(grid.neighbours(0, 3, 9), vec![2, 3]);
    assert_eq!(grid.neighbours(usize::MAX, usize::MAX, 3), Vec::<usize>::new());
}

#[test]
fn rebuild_forgets_the_particles_of_before() {
    let mut grid = RegionGrid::new();
    grid.rebuild(3, 3, &one_per_region());
    grid.rebuild(3, 3, &vec![(1, 1), (1, 1)]);
    assert_eq!(grid.neighbours(1, 1, 0), vec![1]);
    assert_eq!(grid.neighbours(0, 0, 5), vec![0, 1]);
    grid.rebuild(1, 1, &vec![(0, 0), (3, 3), (0, 0)]);
    assert_eq!(grid.rows(), 1);
    assert_eq!(grid.cols(), 1);
    assert_eq!(grid.neighbours(0, 0, 1), vec![0, 2]);
}

#[test]
fn every_other_particle_near_is_found_once() {
    let rows = 4;
    let cols = 6;
    let mut cells = vec![];
    let mut state: u32 = 12345;
    for _ in 0..200 {
        state = state.wrapping_mul(1664525).wrapping_add(1013904223);
        let r = (state >> 16) as usize % rows;
        state = state.wrapping_mul(1664525).wrapping_add(1013904223);
        let c = (state >> 16) as usize % cols;
        cells.push((r, c));
    }
    let mut grid = RegionGrid::new();
    grid.rebuild(rows, cols, &cells);
    for id in 0..cells.len() {
        let mut found = grid.neighbours(cells[id].0, cells[id].1, id);
        let mut expected = vec![];
        for j in 0..cells.len() {
            let dr = cells[j].0 as i64 - cells[id].0 as i64;
            let dc = cells[j].1 as i64 - cells[id].1 as i64;
            if j != id && dr.abs() <= 1 && dc.abs() <= 1 {
                expected.push(j);
            }
        }
        found.sort();
        assert_eq!(found, expected);
    }
}
