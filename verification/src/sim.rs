//! The state that drives a simulation from tick to tick: how many particles
//! there are, the two neighbour indexes, the frame counters and the switches.
//!
//! Positions, velocities and densities are kept by the caller. Of a position
//! the simulation is told the cell it falls in, once for each index: the row
//! and column of its region, and its cell on the hashed grid.

use crate::hash_grid::{HashGrid, HashGridView};
use crate::region_grid::{bucketed, RegionGrid, RegionGridView};
use vstd::prelude::*;

verus! {

/// Frame counters and switches.
#[derive(Clone, Copy, Debug)]
pub struct DebugParams {
    /// Search neighbours on the hashed grid, not in the regions.
    pub use_sfs: bool,
    pub current_frame: u32,
    /// How many ticks particles still move: none when paused, and without end
    /// in the free run, which is `u32::MAX`.
    pub frames_to_show: u32,
    /// The frame whose state is logged.
    pub log_frame: u32,
    pub show_fps: bool,
    pub show_arrows: bool,
    pub show_smoothing_radius: bool,
    pub show_region_grid: bool,
    pub use_inertia: bool,
    pub use_viscosity: bool,
    pub use_heatmap: bool,
}

/// The driver's state. See the module.
pub struct Simulation {
    num_particles: usize,
    regions: RegionGrid,
    spatial: HashGrid,
    debug: DebugParams,
}

/// What a simulation holds.
pub struct SimulationView {
    pub num_particles: nat,
    pub regions: RegionGridView,
    pub spatial: HashGridView,
    pub debug: DebugParams,
}

/// The counters and switches of a new simulation: it runs freely, with inertia,
/// the speed limit and the density colours on, and logs frame 0.
pub open spec fn initial_debug(use_sfs: bool) -> DebugParams {
    DebugParams {
        use_sfs,
        current_frame: 0,
        frames_to_show: u32::MAX,
        log_frame: 0,
        show_fps: false,
        show_arrows: false,
        show_smoothing_radius: false,
        show_region_grid: false,
        use_inertia: true,
        use_viscosity: true,
        use_heatmap: true,
    }
}

/// The cells of `n` particles that all lie at the origin.
pub open spec fn at_origin(n: nat) -> Seq<(i32, i32)> {
    Seq::new(n, |i: int| (0i32, 0i32))
}

impl SimulationView {
    /// Both indexes are in order, and the hashed one is made for the particles
    /// of the simulation.
    pub open spec fn wf(self) -> bool {
        &&& self.regions.shaped()
        &&& self.spatial.wf()
        &&& self.spatial.entries.len() == self.num_particles
    }

    /// Whether particles move in the coming tick.
    pub open spec fn advancing(self) -> bool {
        self.debug.frames_to_show > 0
    }

    /// Whether the simulation runs freely: particles move in every tick, and the
    /// count of frames to show does not go down.
    pub open spec fn free_running(self) -> bool {
        self.debug.frames_to_show == u32::MAX
    }

    /// Whether the current frame is the one to log.
    pub open spec fn logging(self) -> bool {
        self.debug.log_frame == self.debug.current_frame
    }

    /// The simulation once the current frame has ended: the frame counter is up
    /// by one, and the count of frames to show down by one. A paused simulation
    /// stays paused, and the free run stays the free run: their counts are left
    /// as they are.
    pub open spec fn next_frame(self) -> SimulationView {
        SimulationView {
            debug: DebugParams {
                current_frame: (self.debug.current_frame + 1) as u32,
                frames_to_show: if 0 < self.debug.frames_to_show < u32::MAX {
                    (self.debug.frames_to_show - 1) as u32
                } else {
                    self.debug.frames_to_show
                },
                ..self.debug
            },
            ..self
        }
    }

    /// The simulation once `count` frames have ended.
    pub open spec fn after_frames(self, count: nat) -> SimulationView
        decreases count,
    {
        if count == 0 {
            self
        } else {
            self.after_frames((count - 1) as nat).next_frame()
        }
    }
}

impl View for Simulation {
    type V = SimulationView;

    closed spec fn view(&self) -> SimulationView {
        SimulationView {
            num_particles: self.num_particles as nat,
            regions: self.regions@,
            spatial: self.spatial@,
            debug: self.debug,
        }
    }
}

impl Simulation {
    /// Both indexes are in order, and the hashed one is made for the particles
    /// of the simulation.
    pub open spec fn wf(&self) -> bool {
        self@.wf()
    }

    /// A simulation of `num_particles` particles, all at the origin, with no
    /// regions yet. `use_sfs` chooses the hashed grid for the neighbour search.
    pub fn new(num_particles: u32, use_sfs: bool) -> (sim: Simulation)
        ensures
            sim.wf(),
            sim@.num_particles == num_particles,
            sim@.regions == (RegionGridView { rows: 0, cols: 0, buckets: Seq::empty() }),
            sim@.spatial.lists(at_origin(num_particles as nat)),
            sim@.debug == initial_debug(use_sfs),
    {
        let mut cells: Vec<(i32, i32)> = Vec::new();
        let mut i: u32 = 0;
        while i < num_particles
            invariant
                i <= num_particles,
                cells@ == at_origin(i as nat),
            decreases num_particles - i,
        {
            cells.push((0, 0));
            i += 1;
        }
        let mut spatial = HashGrid::new();
        spatial.rebuild(&cells);
        Simulation {
            num_particles: num_particles as usize,
            regions: RegionGrid::new(),
            spatial,
            debug: DebugParams {
                use_sfs,
                current_frame: 0,
                frames_to_show: u32::MAX,
                log_frame: 0,
                show_fps: false,
                show_arrows: false,
                show_smoothing_radius: false,
                show_region_grid: false,
                use_inertia: true,
                use_viscosity: true,
                use_heatmap: true,
            },
        }
    }

    /// The number of particles.
    pub fn num_particles(&self) -> (n: usize)
        ensures
            n == self@.num_particles,
    {
        self.num_particles
    }

    /// The number of rows of regions.
    pub fn region_rows(&self) -> (rows: usize)
        ensures
            rows == self@.regions.rows,
    {
        self.regions.rows()
    }

    /// The number of columns of regions.
    pub fn region_cols(&self) -> (cols: usize)
        ensures
            cols == self@.regions.cols,
    {
        self.regions.cols()
    }

    /// The frame counters and switches.
    pub fn debug_params(&self) -> (debug: DebugParams)
        ensures
            debug == self@.debug,
    {
        self.debug
    }

    /// Sorts the particles into `rows` by `cols` regions: `cells[i]` is the row
    /// and column of particle `i`.
    pub fn update_regions(&mut self, rows: usize, cols: usize, cells: &Vec<(usize, usize)>)
        requires
            old(self).wf(),
            rows >= 1,
            cols >= 1,
            cells.len() == old(self)@.num_particles,
        ensures
            final(self).wf(),
            final(self)@ == (SimulationView {
                regions: bucketed(cells@, rows as nat, cols as nat),
                ..old(self)@
            }),
    {
        self.regions.rebuild(rows, cols, cells);
    }

    /// Builds the hashed table of the particles: `cells[i]` is the cell of
    /// particle `i`.
    pub fn sfs_update_spatial_hash(&mut self, cells: &Vec<(i32, i32)>)
        requires
            old(self).wf(),
            cells.len() == old(self)@.num_particles,
        ensures
            final(self).wf(),
            final(self)@.spatial.lists(cells@),
            final(self)@.num_particles == old(self)@.num_particles,
            final(self)@.regions == old(self)@.regions,
            final(self)@.debug == old(self)@.debug,
    {
        self.spatial.rebuild(cells);
    }

    /// Starts a tick: rebuilds the index that the simulation searches, from the
    /// cells of the particles, and says whether particles move in this tick.
    /// Of `region_cells` and `hash_cells` only the one for that index is read.
    pub fn update_particles(
        &mut self,
        rows: usize,
        cols: usize,
        region_cells: &Vec<(usize, usize)>,
        hash_cells: &Vec<(i32, i32)>,
    ) -> (advance: bool)
        requires
            old(self).wf(),
            old(self)@.debug.use_sfs ==> hash_cells.len() == old(self)@.num_particles,
            !old(self)@.debug.use_sfs ==> rows >= 1,
            !old(self)@.debug.use_sfs ==> cols >= 1,
            !old(self)@.debug.use_sfs ==> region_cells.len() == old(self)@.num_particles,
        ensures
            final(self).wf(),
            advance == old(self)@.advancing(),
            final(self)@.num_particles == old(self)@.num_particles,
            final(self)@.debug == old(self)@.debug,
            old(self)@.debug.use_sfs ==> final(self)@.spatial.lists(hash_cells@),
            old(self)@.debug.use_sfs ==> final(self)@.regions == old(self)@.regions,
            !old(self)@.debug.use_sfs ==> final(self)@.regions == bucketed(
                region_cells@,
                rows as nat,
                cols as nat,
            ),
            !old(self)@.debug.use_sfs ==> final(self)@.spatial == old(self)@.spatial,
    {
        if self.debug.use_sfs {
            self.sfs_update_spatial_hash(hash_cells);
        } else {
            self.update_regions(rows, cols, region_cells);
        }
        self.frames_to_advance() > 0
    }

    /// The neighbours of particle `id` in the regions, where `id` lies in row
    /// `row` and column `col`.
    pub fn region_neighbours(&self, row: usize, col: usize, id: usize) -> (found: Vec<usize>)
        requires
            self.wf(),
        ensures
            found@ == self@.regions.neighbours(row as int, col as int, id),
    {
        self.regions.neighbours(row, col, id)
    }

    /// The particles that the hashed table finds around `cell`, without
    /// particle `skip`.
    pub fn sfs_neighbours(&self, cell: (i32, i32), skip: Option<usize>) -> (found: Vec<u32>)
        requires
            self.wf(),
        ensures
            found@ == self@.spatial.neighbours(cell, skip),
    {
        self.spatial.neighbours(cell, skip)
    }

    /// Ends a tick: the frame counter goes up, and the count of ticks to show
    /// goes down, except where the simulation is paused or runs freely. Says
    /// whether the frame that ends was the one to log.
    pub fn end_frame(&mut self) -> (logged: bool)
        requires
            old(self)@.debug.current_frame < u32::MAX,
        ensures
            logged == old(self)@.logging(),
            final(self)@ == old(self)@.next_frame(),
    {
        let logged = self.logging();
        self.debug.current_frame += 1;
        if 0 < self.debug.frames_to_show && self.debug.frames_to_show < u32::MAX {
            self.debug.frames_to_show -= 1;
        }
        logged
    }

    /// Whether the current frame is the one to log.
    pub fn logging(&self) -> (logging: bool)
        ensures
            logging == self@.logging(),
    {
        self.debug.log_frame == self.debug.current_frame
    }

    /// For how many ticks particles still move.
    pub fn frames_to_advance(&self) -> (frames: u32)
        ensures
            frames == self@.debug.frames_to_show,
    {
        self.debug.frames_to_show
    }

    /// Sets for how many ticks particles move: 0 pauses, `u32::MAX` is the free
    /// run, and any other count pauses the simulation after as many ticks.
    pub fn set_frames_to_show(&mut self, val: u32)
        ensures
            final(self)@ == (SimulationView {
                debug: DebugParams { frames_to_show: val, ..old(self)@.debug },
                ..old(self)@
            }),
    {
        self.debug.frames_to_show = val;
    }

    /// Hands `message` back where the current frame is the one to log.
    pub fn debug(&self, message: String) -> (line: Option<String>)
        ensures
            line == if self@.logging() {
                Some(message)
            } else {
                None
            },
    {
        if self.logging() {
            Some(message)
        } else {
            None
        }
    }

    /// Shows or hides the velocity arrows.
    pub fn toggle_arrows(&mut self)
        ensures
            final(self)@ == (SimulationView {
                debug: DebugParams {
                    show_arrows: !old(self)@.debug.show_arrows,
                    ..old(self)@.debug
                },
                ..old(self)@
            }),
    {
        self.debug.show_arrows = !self.debug.show_arrows;
    }

    /// Shows or hides the circle of the smoothing radius.
    pub fn toggle_smoothing_radius(&mut self)
        ensures
            final(self)@ == (SimulationView {
                debug: DebugParams {
                    show_smoothing_radius: !old(self)@.debug.show_smoothing_radius,
                    ..old(self)@.debug
                },
                ..old(self)@
            }),
    {
        self.debug.show_smoothing_radius = !self.debug.show_smoothing_radius;
    }

    /// Shows or hides the outlines of the regions.
    pub fn toggle_region_grid(&mut self)
        ensures
            final(self)@ == (SimulationView {
                debug: DebugParams {
                    show_region_grid: !old(self)@.debug.show_region_grid,
                    ..old(self)@.debug
                },
                ..old(self)@
            }),
    {
        self.debug.show_region_grid = !self.debug.show_region_grid;
    }

    /// Shows or hides the frame rate.
    pub fn toggle_fps(&mut self)
        ensures
            final(self)@ == (SimulationView {
                debug: DebugParams { show_fps: !old(self)@.debug.show_fps, ..old(self)@.debug },
                ..old(self)@
            }),
    {
        self.debug.show_fps = !self.debug.show_fps;
    }

    /// Switches between colouring by density and colouring by speed.
    pub fn toggle_heatmap(&mut self)
        ensures
            final(self)@ == (SimulationView {
                debug: DebugParams {
                    use_heatmap: !old(self)@.debug.use_heatmap,
                    ..old(self)@.debug
                },
                ..old(self)@
            }),
    {
        self.debug.use_heatmap = !self.debug.use_heatmap;
    }

    /// Switches between velocities that build up and velocities made anew in each
    /// tick.
    pub fn toggle_inertia(&mut self)
        ensures
            final(self)@ == (SimulationView {
                debug: DebugParams {
                    use_inertia: !old(self)@.debug.use_inertia,
                    ..old(self)@.debug
                },
                ..old(self)@
            }),
    {
        self.debug.use_inertia = !self.debug.use_inertia;
    }

    /// Switches the speed limit on or off.
    pub fn toggle_viscosity(&mut self)
        ensures
            final(self)@ == (SimulationView {
                debug: DebugParams {
                    use_viscosity: !old(self)@.debug.use_viscosity,
                    ..old(self)@.debug
                },
                ..old(self)@
            }),
    {
        self.debug.use_viscosity = !self.debug.use_viscosity;
    }

    /// Has the frame after the current one logged.
    pub fn log_next_frame(&mut self)
        requires
            old(self)@.debug.current_frame < u32::MAX,
        ensures
            final(self)@ == (SimulationView {
                debug: DebugParams {
                    log_frame: (old(self)@.debug.current_frame + 1) as u32,
                    ..old(self)@.debug
                },
                ..old(self)@
            }),
    {
        self.debug.log_frame = self.debug.current_frame + 1;
    }
}

/// A simulation that is to show a count of frames, and does not run freely,
/// moves its particles in as many ticks and is paused from then on. The ends
/// of frames change the two counters and nothing else.
pub proof fn lemma_frames_run_out(sim: SimulationView, count: nat)
    requires
        !sim.free_running(),
        sim.debug.current_frame + count <= u32::MAX,
    ensures
        sim.after_frames(count).advancing() <==> count < sim.debug.frames_to_show,
        sim.after_frames(count) == (SimulationView {
            debug: DebugParams {
                current_frame: (sim.debug.current_frame + count) as u32,
                frames_to_show: if sim.debug.frames_to_show >= count {
                    (sim.debug.frames_to_show - count) as u32
                } else {
                    0
                },
                ..sim.debug
            },
            ..sim
        }),
    decreases count,
{
    if count > 0 {
        lemma_frames_run_out(sim, (count - 1) as nat);
    }
}

/// A simulation that runs freely moves its particles in every tick, however
/// many frames have ended. The ends of frames change the frame counter and
/// nothing else.
pub proof fn lemma_free_run_goes_on(sim: SimulationView, count: nat)
    requires
        sim.free_running(),
        sim.debug.current_frame + count <= u32::MAX,
    ensures
        sim.after_frames(count).free_running(),
        sim.after_frames(count).advancing(),
        sim.after_frames(count) == (SimulationView {
            debug: DebugParams {
                current_frame: (sim.debug.current_frame + count) as u32,
                ..sim.debug
            },
            ..sim
        }),
    decreases count,
{
    if count > 0 {
        lemma_free_run_goes_on(sim, (count - 1) as nat);
    }
}

} // verus!
