//! Hashing of grid cells for the hashed neighbour index.
//!
//! A cell is a pair of signed grid coordinates. Its hash is a linear form of the
//! two coordinates, taken modulo 2^32; its key is the hash reduced to the size of
//! the offset table.

use vstd::arithmetic::div_mod::{
    lemma_add_mod_noop, lemma_mod_equivalence, lemma_mod_multiples_vanish,
    lemma_mul_mod_noop_left,
};
use vstd::prelude::*;

verus! {

/// The cell of a point and the eight cells around it, as coordinate offsets.
pub const OFFSETS_2D: [(i32, i32); 9] = [
    (-1, 1),
    (0, 1),
    (1, 1),
    (-1, 0),
    (0, 0),
    (1, 0),
    (-1, -1),
    (0, -1),
    (1, -1),
];

/// The factor of the first coordinate in the hash of a cell.
pub const HASH_K1: u32 = 15823;

/// The factor of the second coordinate in the hash of a cell.
pub const HASH_K2: u32 = 9737333;

/// The hash of the cell `(x, y)`: `x * K1 + y * K2`, modulo 2^32.
pub open spec fn cell_hash(x: int, y: int) -> int {
    (x * HASH_K1 + y * HASH_K2) % 0x1_0000_0000
}

/// The key of a hash in a table of `table_size` slots.
pub open spec fn hash_key(hash: int, table_size: int) -> int {
    hash % table_size
}

/// The coordinate offset with number `k`, for `k` below nine.
pub open spec fn offset_2d(k: int) -> (int, int) {
    (OFFSETS_2D[k].0 as int, OFFSETS_2D[k].1 as int)
}

/// The number of the offset `(dx, dy)`.
pub open spec fn offset_number(dx: int, dy: int) -> int {
    (1 - dy) * 3 + dx + 1
}

/// The hash of the cell that lies at offset number `k` from `cell`.
pub open spec fn neighbour_hash(cell: (i32, i32), k: int) -> int {
    cell_hash(cell.0 + offset_2d(k).0, cell.1 + offset_2d(k).1)
}

/// Whether `other` is `cell` itself or one of the eight cells around it.
pub open spec fn adjacent_cells(cell: (i32, i32), other: (i32, i32)) -> bool {
    -1 <= other.0 - cell.0 <= 1 && -1 <= other.1 - cell.1 <= 1
}

/// The hash of a cell. The products and the sum wrap around at 2^32.
pub fn hash_cell_2d(cell: &(i32, i32)) -> (hash: u32)
    ensures
        hash == cell_hash(cell.0 as int, cell.1 as int),
{
    let x = cell.0 as u32;
    let y = cell.1 as u32;
    let a = x.wrapping_mul(HASH_K1);
    let b = y.wrapping_mul(HASH_K2);
    proof {
        lemma_reinterpret(cell.0);
        lemma_reinterpret(cell.1);
        lemma_hash_of_residues(cell.0 as int, cell.1 as int);
        assert(a as int == ((cell.0 as int % 0x1_0000_0000) * HASH_K1) % 0x1_0000_0000);
        assert(b as int == ((cell.1 as int % 0x1_0000_0000) * HASH_K2) % 0x1_0000_0000);
    }
    a.wrapping_add(b)
}

/// The hash of the cell that lies at offset number `k` from `cell`. Coordinates
/// wrap around, as hashes do.
pub fn hash_neighbour(cell: &(i32, i32), k: usize) -> (hash: u32)
    requires
        k < 9,
    ensures
        hash == neighbour_hash(*cell, k as int),
{
    let offset = OFFSETS_2D[k];
    let x = cell.0.wrapping_add(offset.0);
    let y = cell.1.wrapping_add(offset.1);
    proof {
        let turns_x = (x - (cell.0 + offset.0)) / 0x1_0000_0000;
        let turns_y = (y - (cell.1 + offset.1)) / 0x1_0000_0000;
        assert(x == cell.0 + offset.0 + turns_x * 0x1_0000_0000);
        assert(y == cell.1 + offset.1 + turns_y * 0x1_0000_0000);
        lemma_hash_wraps(cell.0 + offset.0, cell.1 + offset.1, turns_x, turns_y);
    }
    hash_cell_2d(&(x, y))
}

/// The key of a hash in a table of `table_size` slots: the remainder.
pub fn key_from_hash(hash: u32, table_size: u32) -> (key: u32)
    requires
        table_size > 0,
    ensures
        key == hash_key(hash as int, table_size as int),
{
    hash % table_size
}

/// The nine offsets are the nine pairs of -1, 0 and 1, each once.
pub proof fn lemma_offsets()
    ensures
        forall|k: int|
            0 <= k < 9 ==> -1 <= (#[trigger] offset_2d(k)).0 <= 1 && -1 <= offset_2d(k).1 <= 1,
        forall|k: int, l: int|
            0 <= k < l < 9 ==> #[trigger] offset_2d(k) != #[trigger] offset_2d(l),
        forall|dx: int, dy: int|
            -1 <= dx <= 1 && -1 <= dy <= 1 ==> 0 <= #[trigger] offset_number(dx, dy) < 9
                && offset_2d(offset_number(dx, dy)) == (dx, dy),
{
    assert(offset_2d(0) == (-1int, 1int));
    assert(offset_2d(1) == (0int, 1int));
    assert(offset_2d(2) == (1int, 1int));
    assert(offset_2d(3) == (-1int, 0int));
    assert(offset_2d(4) == (0int, 0int));
    assert(offset_2d(5) == (1int, 0int));
    assert(offset_2d(6) == (-1int, -1int));
    assert(offset_2d(7) == (0int, -1int));
    assert(offset_2d(8) == (1int, -1int));
}

/// A cell and the eight cells around it have nine different hashes.
pub proof fn lemma_neighbour_hashes_differ(cell: (i32, i32), k: int, l: int)
    requires
        0 <= k < 9,
        0 <= l < 9,
        k != l,
    ensures
        neighbour_hash(cell, k) != neighbour_hash(cell, l),
{
    lemma_offsets();
    let dx = offset_2d(k).0 - offset_2d(l).0;
    let dy = offset_2d(k).1 - offset_2d(l).1;
    let a = (cell.0 + offset_2d(k).0) * HASH_K1 + (cell.1 + offset_2d(k).1) * HASH_K2;
    let b = (cell.0 + offset_2d(l).0) * HASH_K1 + (cell.1 + offset_2d(l).1) * HASH_K2;
    assert(a - b == dx * HASH_K1 + dy * HASH_K2);
    assert(dx != 0 || dy != 0);
    lemma_mod_equivalence(a, b, 0x1_0000_0000);
}

/// A cell next to `cell` is the cell at one of the nine offsets from it.
pub proof fn lemma_adjacent_offset(cell: (i32, i32), other: (i32, i32)) -> (k: int)
    requires
        adjacent_cells(cell, other),
    ensures
        0 <= k < 9,
        neighbour_hash(cell, k) == cell_hash(other.0 as int, other.1 as int),
{
    lemma_offsets();
    offset_number(other.0 - cell.0, other.1 - cell.1)
}

/// Read as unsigned, a coordinate is itself modulo 2^32.
proof fn lemma_reinterpret(x: i32)
    ensures
        (x as u32) as int == (x as int) % 0x1_0000_0000,
{
    assert(x >= 0 ==> x as u32 == x) by (bit_vector);
    assert(x < 0 ==> x as u32 == x + 0x1_0000_0000) by (bit_vector);
}

/// Reducing each coordinate and each product modulo 2^32 on the way does not
/// change the hash.
proof fn lemma_hash_of_residues(x: int, y: int)
    ensures
        (((x % 0x1_0000_0000) * HASH_K1) % 0x1_0000_0000 + ((y % 0x1_0000_0000) * HASH_K2)
            % 0x1_0000_0000) % 0x1_0000_0000 == cell_hash(x, y),
{
    let m = 0x1_0000_0000int;
    lemma_mul_mod_noop_left(x, HASH_K1 as int, m);
    lemma_mul_mod_noop_left(y, HASH_K2 as int, m);
    lemma_add_mod_noop(x * HASH_K1, y * HASH_K2, m);
}

/// Cells whose coordinates differ by multiples of 2^32 have the same hash.
proof fn lemma_hash_wraps(x: int, y: int, turns_x: int, turns_y: int)
    ensures
        cell_hash(x + turns_x * 0x1_0000_0000, y + turns_y * 0x1_0000_0000) == cell_hash(x, y),
{
    let m = 0x1_0000_0000int;
    let k1 = HASH_K1 as int;
    let k2 = HASH_K2 as int;
    let turns = turns_x * k1 + turns_y * k2;
    assert((x + turns_x * m) * k1 + (y + turns_y * m) * k2 == m * turns + (x * k1 + y * k2))
        by (nonlinear_arith)
        requires
            turns == turns_x * k1 + turns_y * k2,
    ;
    lemma_mod_multiples_vanish(turns, x * k1 + y * k2, m);
}

} // verus!
