//! The dense neighbour index: the simulation box cut into rows and columns of
//! square regions, each holding the ids of the particles that lie in it.
//!
//! A particle is given by the row and column of the region its position falls
//! in. A coordinate beyond the last row or column is clamped to it, so every
//! particle is held by exactly one region.

use crate::particle::{lemma_ids_members, lemma_ids_push, particle_ids};
use crate::seq_facts::{apart, lemma_filter_members, lemma_flatten_members};
use crate::spatial_hash::{lemma_offsets, offset_2d, offset_number, OFFSETS_2D};
use vstd::prelude::*;

verus! {

/// A grid of regions and the particles that each holds.
pub struct RegionGrid {
    rows: usize,
    cols: usize,
    regions: Vec<Vec<Vec<usize>>>,
}

/// What a grid holds: `buckets[r][c]` lists the particles of row `r`, column `c`.
pub struct RegionGridView {
    pub rows: nat,
    pub cols: nat,
    pub buckets: Seq<Seq<Seq<usize>>>,
}

/// The region that holds a particle of the given row and column, in a grid of
/// `rows` by `cols` regions.
pub open spec fn clamped_cell(cell: (usize, usize), rows: nat, cols: nat) -> (int, int) {
    (
        if cell.0 < rows {
            cell.0 as int
        } else {
            rows - 1
        },
        if cell.1 < cols {
            cell.1 as int
        } else {
            cols - 1
        },
    )
}

/// The test "particle `i` is held by region `(r, c)`".
pub open spec fn held_by(cells: Seq<(usize, usize)>, rows: nat, cols: nat, r: int, c: int)
    -> spec_fn(usize) -> bool {
    |i: usize| clamped_cell(cells[i as int], rows, cols) == (r, c)
}

/// The particles among the first `n` that region `(r, c)` holds, in rising order.
pub open spec fn particles_in(
    cells: Seq<(usize, usize)>,
    n: nat,
    rows: nat,
    cols: nat,
    r: int,
    c: int,
) -> Seq<usize> {
    particle_ids(n).filter(held_by(cells, rows, cols, r, c))
}

/// The grid of `rows` by `cols` regions over the particles whose rows and
/// columns are `cells`.
pub open spec fn bucketed(cells: Seq<(usize, usize)>, rows: nat, cols: nat) -> RegionGridView {
    RegionGridView {
        rows,
        cols,
        buckets: Seq::new(
            rows,
            |r: int| Seq::new(cols, |c: int| particles_in(cells, cells.len(), rows, cols, r, c)),
        ),
    }
}

/// The test "is not particle `id`".
pub open spec fn other_than(id: usize) -> spec_fn(usize) -> bool {
    |j: usize| j != id
}

impl RegionGridView {
    /// Every row has `cols` buckets, and there are `rows` rows.
    pub open spec fn shaped(self) -> bool {
        &&& self.buckets.len() == self.rows
        &&& forall|r: int| 0 <= r < self.rows ==> (#[trigger] self.buckets[r]).len() == self.cols
    }

    /// Whether the grid has a region at row `r`, column `c`.
    pub open spec fn has_region(self, r: int, c: int) -> bool {
        0 <= r < self.rows && 0 <= c < self.cols
    }

    /// What the region at offset number `k` from `(row, col)` adds to the
    /// neighbours of particle `id`: its particles but `id`, or nothing where the
    /// grid has no such region.
    pub open spec fn block(self, row: int, col: int, id: usize, k: int) -> Seq<usize> {
        let r = row + offset_2d(k).0;
        let c = col + offset_2d(k).1;
        if self.has_region(r, c) {
            self.buckets[r][c].filter(other_than(id))
        } else {
            Seq::empty()
        }
    }

    /// The blocks of the first `count` offsets, in the order of the offsets.
    pub open spec fn blocks(self, row: int, col: int, id: usize, count: nat) -> Seq<Seq<usize>> {
        Seq::new(count, |k: int| self.block(row, col, id, k))
    }

    /// The neighbours of particle `id`, which lies in row `row` and column `col`:
    /// the particles of that region and of the eight around it, without `id`.
    pub open spec fn neighbours(self, row: int, col: int, id: usize) -> Seq<usize> {
        self.blocks(row, col, id, 9).flatten()
    }
}

impl View for RegionGrid {
    type V = RegionGridView;

    closed spec fn view(&self) -> RegionGridView {
        RegionGridView {
            rows: self.rows as nat,
            cols: self.cols as nat,
            buckets: Seq::new(
                self.regions.len() as nat,
                |r: int| Seq::new(self.regions[r].len() as nat, |c: int| self.regions[r][c]@),
            ),
        }
    }
}

/// `v + d` where that is a valid index below `len`.
fn shifted(v: usize, d: i32, len: usize) -> (r: Option<usize>)
    requires
        -1 <= d <= 1,
    ensures
        r.is_some() <==> 0 <= v + d < len,
        r.is_some() ==> r.unwrap() == v + d,
{
    if d < 0 {
        if v >= 1 && v - 1 < len {
            Some(v - 1)
        } else {
            None
        }
    } else if d == 0 {
        if v < len {
            Some(v)
        } else {
            None
        }
    } else {
        if v < usize::MAX && v + 1 < len {
            Some(v + 1)
        } else {
            None
        }
    }
}

impl RegionGrid {
    /// Every row of the grid has as many regions as the grid has columns.
    pub open spec fn wf(&self) -> bool {
        self@.shaped()
    }

    /// What `wf` says of the fields.
    spec fn rectangular(&self) -> bool {
        &&& self.regions.len() == self.rows
        &&& forall|r: int| 0 <= r < self.rows ==> (#[trigger] self.regions[r]).len() == self.cols
    }

    proof fn lemma_rectangular(&self)
        ensures
            self.wf() <==> self.rectangular(),
    {
        if self.wf() {
            assert forall|r: int| 0 <= r < self.rows implies (#[trigger] self.regions[r]).len()
                == self.cols by {
                assert(self@.buckets[r].len() == self.cols);
            }
        }
        if self.rectangular() {
            assert forall|r: int| 0 <= r < self@.rows implies (#[trigger] self@.buckets[r]).len()
                == self@.cols by {
                assert(self.regions[r].len() == self.cols);
            }
        }
    }

    /// A grid without regions.
    pub fn new() -> (grid: RegionGrid)
        ensures
            grid.wf(),
            grid@ == (RegionGridView { rows: 0, cols: 0, buckets: Seq::empty() }),
    {
        let grid = RegionGrid { rows: 0, cols: 0, regions: Vec::new() };
        assert(grid@.buckets =~= Seq::empty());
        grid
    }

    /// The number of rows of regions.
    pub fn rows(&self) -> (rows: usize)
        ensures
            rows == self@.rows,
    {
        self.rows
    }

    /// The number of columns of regions.
    pub fn cols(&self) -> (cols: usize)
        ensures
            cols == self@.cols,
    {
        self.cols
    }

    /// Gives the grid `rows` by `cols` empty regions. Storage is kept where the
    /// grid had that many rows and columns before.
    fn reset(&mut self, rows: usize, cols: usize)
        requires
            old(self).wf(),
        ensures
            final(self).rectangular(),
            final(self).rows == rows,
            final(self).cols == cols,
            forall|r: int, c: int|
                0 <= r < rows && 0 <= c < cols ==> (#[trigger] final(self).regions[r][c])@.len()
                    == 0,
    {
        proof {
            self.lemma_rectangular();
        }
        if self.rows != rows || self.cols != cols {
            self.rows = rows;
            self.cols = cols;
            self.regions.clear();
            let mut row: usize = 0;
            while row < rows
                invariant
                    row <= rows,
                    self.rows == rows,
                    self.cols == cols,
                    self.regions.len() == row,
                    forall|r: int| 0 <= r < row ==> (#[trigger] self.regions[r]).len() == cols,
                    forall|r: int, c: int|
                        0 <= r < row && 0 <= c < cols ==> (#[trigger] self.regions[r][c])@.len()
                            == 0,
                decreases rows - row,
            {
                let mut buckets: Vec<Vec<usize>> = Vec::new();
                let mut col: usize = 0;
                while col < cols
                    invariant
                        col <= cols,
                        buckets.len() == col,
                        forall|c: int| 0 <= c < col ==> (#[trigger] buckets[c])@.len() == 0,
                    decreases cols - col,
                {
                    buckets.push(Vec::new());
                    col += 1;
                }
                self.regions.push(buckets);
                row += 1;
            }
        } else {
            let mut row: usize = 0;
            while row < rows
                invariant
                    row <= rows,
                    self.rows == rows,
                    self.cols == cols,
                    self.regions.len() == rows,
                    forall|r: int| 0 <= r < rows ==> (#[trigger] self.regions[r]).len() == cols,
                    forall|r: int, c: int|
                        0 <= r < row && 0 <= c < cols ==> (#[trigger] self.regions[r][c])@.len()
                            == 0,
                decreases rows - row,
            {
                let mut col: usize = 0;
                while col < cols
                    invariant
                        row < rows,
                        col <= cols,
                        self.rows == rows,
                        self.cols == cols,
                        self.regions.len() == rows,
                        forall|r: int| 0 <= r < rows ==> (#[trigger] self.regions[r]).len() == cols,
                        forall|r: int, c: int|
                            0 <= r < row && 0 <= c < cols ==> (#[trigger] self.regions[r][c])@.len()
                                == 0,
                        forall|c: int|
                            0 <= c < col ==> (#[trigger] self.regions[row as int][c])@.len() == 0,
                    decreases cols - col,
                {
                    self.regions[row][col].clear();
                    col += 1;
                }
                row += 1;
            }
        }
        proof {
            self.lemma_rectangular();
        }
    }

    /// Sorts the particles into `rows` by `cols` regions. `cells[i]` is the row
    /// and column of particle `i`.
    pub fn rebuild(&mut self, rows: usize, cols: usize, cells: &Vec<(usize, usize)>)
        requires
            old(self).wf(),
            rows >= 1,
            cols >= 1,
        ensures
            final(self).wf(),
            final(self)@ == bucketed(cells@, rows as nat, cols as nat),
    {
        self.reset(rows, cols);
        let n = cells.len();
        let mut i: usize = 0;
        proof {
            assert forall|r: int, c: int| 0 <= r < rows && 0 <= c < cols implies (
            #[trigger] self.regions[r][c])@ == particles_in(
                cells@,
                0,
                rows as nat,
                cols as nat,
                r,
                c,
            ) by {
                reveal(Seq::filter);
                assert(self.regions[r][c]@ =~= Seq::empty());
            }
        }
        while i < n
            invariant
                i <= n,
                n == cells.len(),
                rows >= 1,
                cols >= 1,
                self.rows == rows,
                self.cols == cols,
                self.regions.len() == rows,
                forall|r: int| 0 <= r < rows ==> (#[trigger] self.regions[r]).len() == cols,
                forall|r: int, c: int|
                    0 <= r < rows && 0 <= c < cols ==> (#[trigger] self.regions[r][c])@
                        == particles_in(cells@, i as nat, rows as nat, cols as nat, r, c),
            decreases n - i,
        {
            let cell = cells[i];
            let row = if cell.0 < rows {
                cell.0
            } else {
                rows - 1
            };
            let col = if cell.1 < cols {
                cell.1
            } else {
                cols - 1
            };
            let ghost before = self.regions;
            self.regions[row][col].push(i);
            proof {
                lemma_ids_push(i as nat);
                assert forall|r: int, c: int| 0 <= r < rows && 0 <= c < cols implies (
                #[trigger] self.regions[r][c])@ == particles_in(
                    cells@,
                    (i + 1) as nat,
                    rows as nat,
                    cols as nat,
                    r,
                    c,
                ) by {
                    let held = held_by(cells@, rows as nat, cols as nat, r, c);
                    particle_ids(i as nat).lemma_filter_push(i, held);
                    assert(before[r][c]@ == particles_in(
                        cells@,
                        i as nat,
                        rows as nat,
                        cols as nat,
                        r,
                        c,
                    ));
                    assert(held(i) <==> (r == row && c == col));
                }
            }
            i += 1;
        }
        proof {
            self.lemma_rectangular();
            assert(self@.buckets =~~= bucketed(cells@, rows as nat, cols as nat).buckets);
        }
    }

    /// The neighbours of particle `id`, which lies in row `row` and column `col`.
    pub fn neighbours(&self, row: usize, col: usize, id: usize) -> (found: Vec<usize>)
        requires
            self.wf(),
        ensures
            found@ == self@.neighbours(row as int, col as int, id),
    {
        let mut found: Vec<usize> = Vec::new();
        let mut k: usize = 0;
        proof {
            self.lemma_rectangular();
            assert(self@.blocks(row as int, col as int, id, 0) =~= Seq::empty());
        }
        while k < 9
            invariant
                k <= 9,
                self.rectangular(),
                found@ == self@.blocks(row as int, col as int, id, k as nat).flatten(),
            decreases 9 - k,
        {
            let offset = OFFSETS_2D[k];
            let ghost so_far = found@;
            proof {
                let blocks = self@.blocks(row as int, col as int, id, k as nat);
                let block = self@.block(row as int, col as int, id, k as int);
                blocks.lemma_flatten_push(block);
                assert(self@.blocks(row as int, col as int, id, (k + 1) as nat) =~= blocks.push(
                    block,
                ));
            }
            match (shifted(row, offset.0, self.rows), shifted(col, offset.1, self.cols)) {
                (Some(r), Some(c)) => {
                    let bucket = &self.regions[r][c];
                    let mut m: usize = 0;
                    proof {
                        reveal(Seq::filter);
                        assert(bucket@.take(0).filter(other_than(id)) =~= Seq::empty());
                        assert(self@.buckets[r as int][c as int] == bucket@);
                    }
                    while m < bucket.len()
                        invariant
                            m <= bucket.len(),
                            found@ == so_far + bucket@.take(m as int).filter(other_than(id)),
                        decreases bucket.len() - m,
                    {
                        let j = bucket[m];
                        proof {
                            bucket@.take(m as int).lemma_filter_push(j, other_than(id));
                            assert(bucket@.take(m + 1) =~= bucket@.take(m as int).push(j));
                        }
                        if j != id {
                            found.push(j);
                        }
                        m += 1;
                    }
                    proof {
                        assert(bucket@.take(m as int) =~= bucket@);
                    }
                },
                _ => {},
            }
            k += 1;
        }
        found
    }
}

/// Whether region `a` is region `b` or one of the eight around it.
pub open spec fn adjacent(a: (int, int), b: (int, int)) -> bool {
    -1 <= a.0 - b.0 <= 1 && -1 <= a.1 - b.1 <= 1
}

/// The particles, other than `id`, that a search through all particles finds in
/// the region at `(row, col)` and in the eight regions around it.
pub open spec fn within_reach(
    cells: Seq<(usize, usize)>,
    rows: nat,
    cols: nat,
    row: int,
    col: int,
    id: usize,
) -> Set<usize> {
    Set::new(
        |j: usize|
            j < cells.len() && j != id && adjacent(
                clamped_cell(cells[j as int], rows, cols),
                (row, col),
            ),
    )
}

/// In the grid over `cells`, a region holds the particles that fall in it, each
/// once: so every particle is held by one region, and by no other.
pub proof fn lemma_region_members(
    cells: Seq<(usize, usize)>,
    rows: nat,
    cols: nat,
    r: int,
    c: int,
)
    requires
        cells.len() <= usize::MAX,
        0 <= r < rows,
        0 <= c < cols,
    ensures
        bucketed(cells, rows, cols).buckets[r][c].no_duplicates(),
        forall|j: usize| #[trigger]
            bucketed(cells, rows, cols).buckets[r][c].contains(j) <==> j < cells.len()
                && clamped_cell(cells[j as int], rows, cols) == (r, c),
{
    lemma_ids_members(cells.len());
    lemma_filter_members(particle_ids(cells.len()), held_by(cells, rows, cols, r, c));
}

/// What a block of the grid over `cells` holds.
proof fn lemma_block_members(
    cells: Seq<(usize, usize)>,
    rows: nat,
    cols: nat,
    row: int,
    col: int,
    id: usize,
    k: int,
)
    requires
        cells.len() <= usize::MAX,
        0 <= k < 9,
    ensures
        bucketed(cells, rows, cols).block(row, col, id, k).no_duplicates(),
        forall|j: usize| #[trigger]
            bucketed(cells, rows, cols).block(row, col, id, k).contains(j) <==> j < cells.len()
                && j != id && clamped_cell(cells[j as int], rows, cols) == (
                row + offset_2d(k).0,
                col + offset_2d(k).1,
            ) && bucketed(cells, rows, cols).has_region(
                row + offset_2d(k).0,
                col + offset_2d(k).1,
            ),
{
    let grid = bucketed(cells, rows, cols);
    let r = row + offset_2d(k).0;
    let c = col + offset_2d(k).1;
    if grid.has_region(r, c) {
        lemma_region_members(cells, rows, cols, r, c);
        lemma_filter_members(grid.buckets[r][c], other_than(id));
    }
}

/// After a rebuild, a search around `(row, col)` for the neighbours of `id`
/// finds what a search through all particles finds, and each particle once.
pub proof fn lemma_neighbours_complete(
    cells: Seq<(usize, usize)>,
    rows: nat,
    cols: nat,
    row: int,
    col: int,
    id: usize,
)
    requires
        cells.len() <= usize::MAX,
        rows >= 1,
        cols >= 1,
    ensures
        bucketed(cells, rows, cols).neighbours(row, col, id).no_duplicates(),
        bucketed(cells, rows, cols).neighbours(row, col, id).to_set() == within_reach(
            cells,
            rows,
            cols,
            row,
            col,
            id,
        ),
{
    let grid = bucketed(cells, rows, cols);
    let parts = grid.blocks(row, col, id, 9);
    let found = grid.neighbours(row, col, id);
    lemma_offsets();
    assert forall|k: int| 0 <= k < 9 implies (#[trigger] parts[k]).no_duplicates() by {
        lemma_block_members(cells, rows, cols, row, col, id, k);
    }
    assert forall|k: int, l: int, x: usize|
        0 <= k < l < 9 && #[trigger] parts[k].contains(x) implies !#[trigger] parts[l].contains(
        x,
    ) by {
        lemma_block_members(cells, rows, cols, row, col, id, k);
        lemma_block_members(cells, rows, cols, row, col, id, l);
    }
    assert(apart(parts));
    lemma_flatten_members(parts);
    assert forall|j: usize| found.to_set().contains(j) <==> within_reach(
        cells,
        rows,
        cols,
        row,
        col,
        id,
    ).contains(j) by {
        if found.contains(j) {
            let k = choose|k: int| 0 <= k < parts.len() && (#[trigger] parts[k]).contains(j);
            lemma_block_members(cells, rows, cols, row, col, id, k);
        }
        if within_reach(cells, rows, cols, row, col, id).contains(j) {
            let held = clamped_cell(cells[j as int], rows, cols);
            let k = offset_number(held.0 - row, held.1 - col);
            lemma_block_members(cells, rows, cols, row, col, id, k);
            assert(parts[k].contains(j));
        }
    }
    assert(found.to_set() =~= within_reach(cells, rows, cols, row, col, id));
}

} // verus!
