use fluid_sim::keyboard::pause;
use fluid_sim::particle::Particle;
use fluid_sim::sim::Simulation;

#[test]
fn new_simulation_runs_freely_and_logs_frame_zero() {
    let sim = Simulation::new(10, false);
    assert_eq!(sim.num_particles(), 10);
    assert_eq!(sim.region_rows(), 0);
    assert_eq!(sim.region_cols(), 0);
    assert_eq!(sim.frames_to_advance(), u32::MAX);
    let debug = sim.debug_params();
    assert!(!debug.use_sfs);
    assert_eq!(debug.current_frame, 0);
    assert_eq!(debug.frames_to_show, u32::MAX);
    assert_eq!(debug.log_frame, 0);
    assert!(!debug.show_fps);
    assert!(!debug.show_arrows);
    assert!(!debug.show_smoothing_radius);
    assert!(!debug.show_region_grid);
    assert!(debug.use_inertia);
    assert!(debug.use_viscosity);
    assert!(debug.use_heatmap);
}

#[test]
fn new_simulation_has_its_particles_at_the_origin() {
    let sim = Simulation::new(4, true);
    assert!(sim.debug_params().use_sfs);
    assert_eq!(sim.sfs_neighbours((0, 0), None), vec![0, 1, 2, 3]);
    assert_eq!(sim.sfs_neighbours((1, -1), Some(2)), vec![0, 1, 3]);
    assert_eq!(sim.sfs_neighbours((2, 0), None), Vec::<u32>::new());
    assert_eq!(sim.region_neighbours(0, 0, 0), Vec::<usize>::new());
}

#[test]
fn simulation_without_particles() {
    let mut sim = Simulation::new(0, false);
    assert_eq!(sim.num_particles(), 0);
    assert!(sim.update_particles(1, 1, &vec![], &vec![]));
    assert_eq!(sim.region_neighbours(0, 0, 0), Vec::<usize>::new());
    sim.sfs_update_spatial_hash(&vec![]);
    assert_eq!(sim.sfs_neighbours((0, 0), None), Vec::<u32>::new());
}

#[test]
fn update_regions_fills_the_regions() {
    let mut sim = Simulation::new(3, false);
    sim.update_regions(2, 2, &vec![(0, 0), (1, 1), (0, 1)]);
    assert_eq!(sim.region_rows(), 2);
    assert_eq!(sim.region_cols(), 2);
    assert_eq!(sim.region_neighbours(0, 0, 0), vec![2, 1]);
    assert_eq!(sim.num_particles(), 3);
}

#[test]
fn update_spatial_hash_fills_the_table() {
    let mut sim = Simulation::new(3, true);
    sim.sfs_update_spatial_hash(&vec![(4, 4), (9, 9), (5, 5)]);
    assert_eq!(sim.sfs_neighbours((4, 4), Some(0)), vec![2]);
    assert_eq!(sim.sfs_neighbours((9, 9), None), vec![1]);
    assert_eq!(sim.sfs_neighbours((0, 0), None), Vec::<u32>::new());
}

#[test]
fn update_particles_rebuilds_the_regions_when_they_are_searched() {
    let mut sim = Simulation::new(2, false);
    let advance = sim.update_particles(1, 2, &vec![(0, 0), (0, 1)], &vec![(7, 7), (7, 7)]);
    assert!(advance);
    assert_eq!(sim.region_rows(), 1);
    assert_eq!(sim.region_cols(), 2);
    assert_eq!(sim.region_neighbours(0, 0, 0), vec![1]);
    // the table still holds the particles at the origin
    assert_eq!(sim.sfs_neighbours((0, 0), None), vec![0, 1]);
    assert_eq!(sim.sfs_neighbours((7, 7), None), Vec::<u32>::new());
}

#[test]
fn update_particles_rebuilds_the_table_when_it_is_searched() {
    let mut sim = Simulation::new(2, true);
    let advance = sim.update_particles(1, 2, &vec![(0, 0), (0, 1)], &vec![(7, 7), (7, 8)]);
    assert!(advance);
    assert_eq!(sim.region_rows(), 0);
    assert_eq!(sim.region_cols(), 0);
    assert_eq!(sim.region_neighbours(0, 0, 0), Vec::<usize>::new());
    assert_eq!(sim.sfs_neighbours((7, 7), Some(0)), vec![1]);
    assert_eq!(sim.sfs_neighbours((0, 0), None), Vec::<u32>::new());
}

#[test]
fn update_particles_reads_only_the_cells_it_needs() {
    let mut sim = Simulation::new(2, false);
    assert!(sim.update_particles(1, 1, &vec![(0, 0), (0, 0)], &vec![]));
    let mut hashed = Simulation::new(2, true);
    assert!(hashed.update_particles(0, 0, &vec![], &vec![(1, 1), (1, 1)]));
    assert_eq!(hashed.sfs_neighbours((1, 1), None), vec![0, 1]);
}

#[test]
fn a_paused_simulation_does_not_advance() {
    let mut sim = Simulation::new(1, false);
    sim.set_frames_to_show(0);
    assert!(!sim.update_particles(1, 1, &vec![(0, 0)], &vec![]));
    // the index is rebuilt all the same
    assert_eq!(sim.region_rows(), 1);
    sim.set_frames_to_show(1);
    assert!(sim.update_particles(1, 1, &vec![(0, 0)], &vec![]));
}

#[test]
fn end_frame_counts_frames_up_and_frames_to_show_down() {
    let mut sim = Simulation::new(1, false);
    sim.set_frames_to_show(2);
    assert!(sim.end_frame());
    assert_eq!(sim.debug_params().current_frame, 1);
    assert_eq!(sim.frames_to_advance(), 1);
    assert!(!sim.end_frame());
    assert_eq!(sim.debug_params().current_frame, 2);
    assert_eq!(sim.frames_to_advance(), 0);
    assert!(!sim.end_frame());
    assert_eq!(sim.debug_params().current_frame, 3);
    assert_eq!(sim.frames_to_advance(), 0);
}

#[test]
fn end_frame_leaves_the_free_run_as_it_is() {
    let mut sim = Simulation::new(1, false);
    sim.end_frame();
    assert_eq!(sim.frames_to_advance(), u32::MAX);
    assert_eq!(sim.debug_params().current_frame, 1);
}

#[test]
fn the_free_run_goes_on_tick_after_tick() {
    let mut sim = Simulation::new(1, false);
    sim.set_frames_to_show(0);
    sim.set_frames_to_show(u32::MAX);
    for frame in 0..1000 {
        assert!(sim.update_particles(1, 1, &vec![(0, 0)], &vec![]));
        sim.end_frame();
        assert_eq!(sim.frames_to_advance(), u32::MAX);
        assert_eq!(sim.debug_params().current_frame, frame + 1);
    }
}

#[test]
fn the_count_below_the_free_run_counts_down() {
    let mut sim = Simulation::new(1, false);
    sim.set_frames_to_show(u32::MAX - 1);
    sim.end_frame();
    assert_eq!(sim.frames_to_advance(), u32::MAX - 2);
    sim.set_frames_to_show(1);
    sim.end_frame();
    assert_eq!(sim.frames_to_advance(), 0);
    sim.end_frame();
    assert_eq!(sim.frames_to_advance(), 0);
}

#[test]
fn advancing_one_frame_pauses_after_it() {
    let mut sim = Simulation::new(1, false);
    pause(&mut sim);
    sim.set_frames_to_show(1);
    assert!(sim.update_particles(1, 1, &vec![(0, 0)], &vec![]));
    sim.end_frame();
    assert!(!sim.update_particles(1, 1, &vec![(0, 0)], &vec![]));
}

#[test]
fn pause_stops_and_starts() {
    let mut sim = Simulation::new(1, false);
    pause(&mut sim);
    assert_eq!(sim.frames_to_advance(), 0);
    pause(&mut sim);
    assert_eq!(sim.frames_to_advance(), u32::MAX);
    sim.set_frames_to_show(5);
    pause(&mut sim);
    assert_eq!(sim.frames_to_advance(), 0);
}

#[test]
fn log_next_frame_logs_the_frame_after_this_one() {
    let mut sim = Simulation::new(1, false);
    assert!(sim.logging());
    assert_eq!(sim.debug("first".to_string()), Some("first".to_string()));
    sim.end_frame();
    assert!(!sim.logging());
    assert_eq!(sim.debug("second".to_string()), None);
    sim.log_next_frame();
    assert_eq!(sim.debug_params().log_frame, 2);
    assert_eq!(sim.debug("still second".to_string()), None);
    assert!(!sim.end_frame());
    assert_eq!(sim.debug("third".to_string()), Some("third".to_string()));
    assert!(sim.end_frame());
    assert_eq!(sim.debug("fourth".to_string()), None);
}

#[test]
fn toggles_flip_one_switch_each() {
    let mut sim = Simulation::new(1, false);
    sim.toggle_arrows();
    assert!(sim.debug_params().show_arrows);
    sim.toggle_smoothing_radius();
    assert!(sim.debug_params().show_smoothing_radius);
    sim.toggle_region_grid();
    assert!(sim.debug_params().show_region_grid);
    sim.toggle_fps();
    assert!(sim.debug_params().show_fps);
    sim.toggle_heatmap();
    assert!(!sim.debug_params().use_heatmap);
    sim.toggle_inertia();
    assert!(!sim.debug_params().use_inertia);
    sim.toggle_viscosity();
    assert!(!sim.debug_params().use_viscosity);
    let debug = sim.debug_params();
    assert!(debug.show_arrows && debug.show_smoothing_radius && debug.show_region_grid);
    assert!(debug.show_fps);
    assert!(!debug.use_sfs);
    assert_eq!(debug.current_frame, 0);
    assert_eq!(debug.frames_to_show, u32::MAX);
    assert_eq!(debug.log_frame, 0);
    sim.toggle_arrows();
    sim.toggle_heatmap();
    assert!(!sim.debug_params().show_arrows);
    assert!(sim.debug_params().use_heatmap);
    assert!(sim.debug_params().show_fps);
}

#[test]
fn settings_leave_the_indexes_alone() {
    let mut sim = Simulation::new(2, false);
    sim.update_regions(1, 1, &vec![(0, 0), (0, 0)]);
    sim.toggle_inertia();
    sim.set_frames_to_show(3);
    sim.end_frame();
    sim.log_next_frame();
    pause(&mut sim);
    assert_eq!(sim.region_neighbours(0, 0, 0), vec![1]);
    assert_eq!(sim.sfs_neighbours((0, 0), None), vec![0, 1]);
    assert_eq!(sim.num_particles(), 2);
}

#[test]
fn default_particle_is_particle_zero_unwatched() {
    let particle = Particle::default();
    assert_eq!(particle.id, 0);
    assert!(!particle.watched);
    let copy = Particle { id: 7, watched: true }.clone();
    assert_eq!(copy.id, 7);
    assert!(copy.watched);
}

#[test]
fn frames_to_show_run_out_after_as_many_ticks() {
    let mut sim = Simulation::new(1, false);
    sim.set_frames_to_show(3);
    let mut moved = vec![];
    for _ in 0..6 {
        moved.push(sim.update_particles(1, 1, &vec![(0, 0)], &vec![]));
        sim.end_frame();
    }
    assert_eq!(moved, vec![true, true, true, false, false, false]);
    assert_eq!(sim.debug_params().current_frame, 6);
    assert_eq!(sim.frames_to_advance(), 0);
}
