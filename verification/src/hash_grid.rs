//! The hashed neighbour index: one entry per particle, holding the hash and the
//! key of the particle's cell, in a table ordered by key; and for each key the
//! place in the table where its entries start.
//!
//! A table for `n` particles has `n` keys. Two cells may share a hash, and two
//! hashes a key: a search by cell compares hashes, so it finds the particles of
//! all cells that share the hash of the one asked for.

use crate::particle::{lemma_ids_push, particle_ids};
use crate::seq_facts::{apart, lemma_filter_members, lemma_flatten_members};
use crate::spatial_hash::{
    adjacent_cells, cell_hash, hash_cell_2d, hash_key, hash_neighbour, key_from_hash,
    lemma_adjacent_offset, lemma_neighbour_hashes_differ, neighbour_hash,
};
use vstd::prelude::*;

verus! {

/// A particle's line in the table.
#[derive(Clone, Copy, Debug)]
pub struct SpatialEntry {
    pub index: u32,
    pub hash: u32,
    pub key: u32,
}

/// The table of entries and the offsets into it.
pub struct HashGrid {
    offsets: Vec<u32>,
    entries: Vec<SpatialEntry>,
}

/// What a table holds.
pub struct HashGridView {
    pub entries: Seq<SpatialEntry>,
    pub offsets: Seq<u32>,
}

/// The hash of the cell of particle `i`.
pub open spec fn hash_of(cells: Seq<(i32, i32)>, i: int) -> int {
    cell_hash(cells[i].0 as int, cells[i].1 as int)
}

/// The key of particle `i` in the table over all of `cells`.
pub open spec fn key_of(cells: Seq<(i32, i32)>, i: int) -> int {
    hash_key(hash_of(cells, i), cells.len() as int)
}

/// The table entry of particle `i`.
pub open spec fn entry_of(cells: Seq<(i32, i32)>, i: int) -> SpatialEntry {
    SpatialEntry {
        index: i as u32,
        hash: hash_of(cells, i) as u32,
        key: key_of(cells, i) as u32,
    }
}

/// The order of the table: by key, and by particle id within a key.
pub open spec fn precedes(a: SpatialEntry, b: SpatialEntry) -> bool {
    a.key < b.key || (a.key == b.key && a.index < b.index)
}

impl HashGridView {
    /// Each entry comes before all later ones.
    pub open spec fn ordered(self) -> bool {
        forall|p: int, q: int|
            0 <= p < q < self.entries.len() ==> precedes(
                #[trigger] self.entries[p],
                #[trigger] self.entries[q],
            )
    }

    /// Each entry names a particle of the table and carries the key of its hash.
    pub open spec fn keyed(self) -> bool {
        forall|p: int|
            0 <= p < self.entries.len() ==> {
                let e = #[trigger] self.entries[p];
                e.index < self.entries.len() && e.key == hash_key(
                    e.hash as int,
                    self.entries.len() as int,
                )
            }
    }

    /// `at` is where the entries of `key` start: the least place of an entry with
    /// that key, or the length of the table where there is none.
    pub open spec fn starts_at(self, key: int, at: int) -> bool {
        &&& 0 <= at <= self.entries.len()
        &&& forall|p: int| 0 <= p < at ==> (#[trigger] self.entries[p]).key != key
        &&& at < self.entries.len() ==> self.entries[at].key == key
    }

    /// There is one offset per key, and it is where the entries of the key start.
    pub open spec fn indexed(self) -> bool {
        &&& self.offsets.len() == self.entries.len()
        &&& forall|k: int|
            0 <= k < self.offsets.len() ==> self.starts_at(k, (#[trigger] self.offsets[k]) as int)
    }

    /// The table is in order, and its offsets lead to the entries of each key.
    pub open spec fn wf(self) -> bool {
        self.entries.len() <= u32::MAX && self.ordered() && self.keyed() && self.indexed()
    }

    /// Whether some entry is that of particle `i`.
    pub open spec fn has_particle(self, i: int) -> bool {
        exists|p: int| 0 <= p < self.entries.len() && (#[trigger] self.entries[p]).index == i
    }

    /// The table holds the particles of `cells`: an entry for each, and no other.
    pub open spec fn lists(self, cells: Seq<(i32, i32)>) -> bool {
        &&& self.entries.len() == cells.len()
        &&& forall|p: int|
            0 <= p < self.entries.len() ==> {
                let e = #[trigger] self.entries[p];
                e.index < cells.len() && e == entry_of(cells, e.index as int)
            }
        &&& forall|i: int| 0 <= i < cells.len() ==> #[trigger] self.has_particle(i)
    }
}

/// The test "has hash `hash` and is not the entry of particle `skip`".
pub open spec fn sought(hash: int, skip: Option<usize>) -> spec_fn(SpatialEntry) -> bool {
    |e: SpatialEntry| e.hash == hash && skip != Some(e.index as usize)
}

/// The particle of an entry.
pub open spec fn entry_index() -> spec_fn(SpatialEntry) -> u32 {
    |e: SpatialEntry| e.index
}

impl HashGridView {
    /// The particles whose entries have hash `hash`, without `skip`, in the order
    /// of the table.
    pub open spec fn with_hash(self, hash: int, skip: Option<usize>) -> Seq<u32> {
        self.entries.filter(sought(hash, skip)).map_values(entry_index())
    }

    /// What a search around `cell` finds for the offsets before number `count`,
    /// one sequence for each.
    pub open spec fn blocks(self, cell: (i32, i32), skip: Option<usize>, count: nat) -> Seq<
        Seq<u32>,
    > {
        Seq::new(count, |k: int| self.with_hash(neighbour_hash(cell, k), skip))
    }

    /// What a search around `cell` finds: for `cell` and each of the eight cells
    /// around it, in the order of the offsets, the particles whose cell has the
    /// hash of that cell, without `skip`.
    pub open spec fn neighbours(self, cell: (i32, i32), skip: Option<usize>) -> Seq<u32> {
        self.blocks(cell, skip, 9).flatten()
    }
}

impl View for HashGrid {
    type V = HashGridView;

    closed spec fn view(&self) -> HashGridView {
        HashGridView { entries: self.entries@, offsets: self.offsets@ }
    }
}

/// The test "particle `i` has key `key`".
spec fn has_key(cells: Seq<(i32, i32)>, key: int) -> spec_fn(usize) -> bool {
    |i: usize| key_of(cells, i as int) == key
}

/// The test "particle `i` has a key below `key`".
spec fn has_key_below(cells: Seq<(i32, i32)>, key: int) -> spec_fn(usize) -> bool {
    |i: usize| key_of(cells, i as int) < key
}

/// How many of the first `upto` particles have key `key`.
spec fn count_with(cells: Seq<(i32, i32)>, upto: nat, key: int) -> nat {
    particle_ids(upto).filter(has_key(cells, key)).len()
}

/// How many of the first `upto` particles have a key below `key`.
spec fn count_below(cells: Seq<(i32, i32)>, upto: nat, key: int) -> nat {
    particle_ids(upto).filter(has_key_below(cells, key)).len()
}

/// Where the entries of `key` start in the table over `cells`.
spec fn run_start(cells: Seq<(i32, i32)>, key: int) -> nat {
    count_below(cells, cells.len(), key)
}

/// The place of particle `i` in the table over `cells`.
spec fn rank(cells: Seq<(i32, i32)>, i: int) -> nat {
    run_start(cells, key_of(cells, i)) + count_with(cells, i as nat, key_of(cells, i))
}

/// The largest table: particle ids are held in 32 bits.
pub open spec fn fits(cells: Seq<(i32, i32)>) -> bool {
    cells.len() <= u32::MAX
}

proof fn lemma_count_zero(cells: Seq<(i32, i32)>, key: int)
    ensures
        count_with(cells, 0, key) == 0,
        count_below(cells, 0, key) == 0,
{
    reveal(Seq::filter);
    assert(particle_ids(0) =~= Seq::empty());
}

proof fn lemma_count_step(cells: Seq<(i32, i32)>, upto: nat, key: int)
    requires
        upto <= u32::MAX,
    ensures
        count_with(cells, upto + 1, key) == count_with(cells, upto, key) + if key_of(
            cells,
            upto as int,
        ) == key {
            1nat
        } else {
            0nat
        },
        count_below(cells, upto + 1, key) == count_below(cells, upto, key) + if key_of(
            cells,
            upto as int,
        ) < key {
            1nat
        } else {
            0nat
        },
{
    lemma_ids_push(upto);
    particle_ids(upto).lemma_filter_push(upto as usize, has_key(cells, key));
    particle_ids(upto).lemma_filter_push(upto as usize, has_key_below(cells, key));
}

/// With particle `upto` counted too, the count of its key is up by one, and
/// the count of every other key is as before. `next` is `upto + 1`.
proof fn lemma_counts_after(cells: Seq<(i32, i32)>, upto: nat, next: nat)
    requires
        upto <= u32::MAX,
        next == upto + 1,
    ensures
        forall|key: int| #[trigger]
            count_with(cells, next, key) == count_with(cells, upto, key) + if key == key_of(
                cells,
                upto as int,
            ) {
                1nat
            } else {
                0nat
            },
{
    assert forall|key: int| #[trigger]
        count_with(cells, next, key) == count_with(cells, upto, key) + if key == key_of(
            cells,
            upto as int,
        ) {
            1nat
        } else {
            0nat
        } by {
        lemma_count_step(cells, upto, key);
    }
}

proof fn lemma_count_monotone(cells: Seq<(i32, i32)>, from: nat, upto: nat, key: int)
    requires
        from <= upto <= u32::MAX + 1,
    ensures
        count_with(cells, from, key) <= count_with(cells, upto, key),
        count_below(cells, from, key) <= count_below(cells, upto, key),
    decreases upto,
{
    if from < upto {
        lemma_count_monotone(cells, from, (upto - 1) as nat, key);
        lemma_count_step(cells, (upto - 1) as nat, key);
    }
}

/// A particle with the key counts among those that have it.
proof fn lemma_count_strict(cells: Seq<(i32, i32)>, i: nat, upto: nat, key: int)
    requires
        i < upto <= u32::MAX + 1,
        key_of(cells, i as int) == key,
    ensures
        count_with(cells, i, key) < count_with(cells, upto, key),
{
    lemma_count_step(cells, i, key);
    lemma_count_monotone(cells, i + 1, upto, key);
}

/// The keys below `key + 1` are those below `key` and `key` itself.
proof fn lemma_below_split(cells: Seq<(i32, i32)>, upto: nat, key: int)
    requires
        upto <= u32::MAX + 1,
    ensures
        count_below(cells, upto, key + 1) == count_below(cells, upto, key) + count_with(
            cells,
            upto,
            key,
        ),
    decreases upto,
{
    if upto == 0 {
        lemma_count_zero(cells, key);
        lemma_count_zero(cells, key + 1);
    } else {
        let before = (upto - 1) as nat;
        lemma_below_split(cells, before, key);
        lemma_count_step(cells, before, key);
        lemma_count_step(cells, before, key + 1);
    }
}

proof fn lemma_below_monotone(cells: Seq<(i32, i32)>, upto: nat, low: int, high: int)
    requires
        upto <= u32::MAX + 1,
        low <= high,
    ensures
        count_below(cells, upto, low) <= count_below(cells, upto, high),
    decreases upto,
{
    if upto == 0 {
        lemma_count_zero(cells, low);
        lemma_count_zero(cells, high);
    } else {
        let before = (upto - 1) as nat;
        lemma_below_monotone(cells, before, low, high);
        lemma_count_step(cells, before, low);
        lemma_count_step(cells, before, high);
    }
}

/// Every key is at least zero and below the number of particles.
proof fn lemma_key_range(cells: Seq<(i32, i32)>, i: int)
    requires
        cells.len() > 0,
    ensures
        0 <= key_of(cells, i) < cells.len(),
        0 <= hash_of(cells, i) < 0x1_0000_0000,
{
}

proof fn lemma_below_ends(cells: Seq<(i32, i32)>, upto: nat)
    requires
        upto <= cells.len(),
        fits(cells),
    ensures
        count_below(cells, upto, 0) == 0,
        count_below(cells, upto, cells.len() as int) == upto,
    decreases upto,
{
    if upto == 0 {
        lemma_count_zero(cells, 0);
        lemma_count_zero(cells, cells.len() as int);
    } else {
        let before = (upto - 1) as nat;
        lemma_below_ends(cells, before);
        lemma_count_step(cells, before, 0);
        lemma_count_step(cells, before, cells.len() as int);
        lemma_key_range(cells, before as int);
    }
}

/// The entries of a key end where those of the next key start, within the table.
proof fn lemma_run_end(cells: Seq<(i32, i32)>, key: int)
    requires
        fits(cells),
        0 <= key < cells.len(),
    ensures
        run_start(cells, key) + count_with(cells, cells.len(), key) == run_start(cells, key + 1),
        run_start(cells, key + 1) <= cells.len(),
{
    lemma_below_split(cells, cells.len(), key);
    lemma_below_monotone(cells, cells.len(), key + 1, cells.len() as int);
    lemma_below_ends(cells, cells.len());
}

proof fn lemma_rank_range(cells: Seq<(i32, i32)>, i: int)
    requires
        fits(cells),
        0 <= i < cells.len(),
    ensures
        run_start(cells, key_of(cells, i)) <= rank(cells, i) < run_start(
            cells,
            key_of(cells, i) + 1,
        ) <= cells.len(),
{
    let key = key_of(cells, i);
    lemma_key_range(cells, i);
    lemma_run_end(cells, key);
    lemma_count_strict(cells, i as nat, cells.len(), key);
}

/// The place of a particle rises with its key, and with its id within a key.
proof fn lemma_rank_order(cells: Seq<(i32, i32)>, i: int, j: int)
    requires
        fits(cells),
        0 <= i < cells.len(),
        0 <= j < cells.len(),
        key_of(cells, i) < key_of(cells, j) || (key_of(cells, i) == key_of(cells, j) && i < j),
    ensures
        rank(cells, i) < rank(cells, j),
{
    let ki = key_of(cells, i);
    let kj = key_of(cells, j);
    lemma_rank_range(cells, i);
    lemma_rank_range(cells, j);
    if ki < kj {
        lemma_below_monotone(cells, cells.len(), ki + 1, kj);
    } else {
        lemma_count_strict(cells, i as nat, j as nat, ki);
    }
}

proof fn lemma_rank_injective(cells: Seq<(i32, i32)>, i: int, j: int)
    requires
        fits(cells),
        0 <= i < cells.len(),
        0 <= j < cells.len(),
        rank(cells, i) == rank(cells, j),
    ensures
        i == j,
{
    if i != j {
        if key_of(cells, i) < key_of(cells, j) || (key_of(cells, i) == key_of(cells, j) && i < j) {
            lemma_rank_order(cells, i, j);
        } else {
            lemma_rank_order(cells, j, i);
        }
    }
}

/// Place `p` holds the entry of particle `who[p]`, and is that particle's place.
spec fn settled(
    cells: Seq<(i32, i32)>,
    entries: Seq<SpatialEntry>,
    who: Seq<int>,
    p: int,
) -> bool {
    &&& 0 <= who[p] < cells.len()
    &&& rank(cells, who[p]) == p
    &&& entries[p] == entry_of(cells, who[p])
}

/// Place `p` is one of those that the first `upto` particles with key `key` take.
spec fn in_run(cells: Seq<(i32, i32)>, upto: nat, key: int, p: int) -> bool {
    &&& 0 <= key < cells.len()
    &&& run_start(cells, key) <= p < run_start(cells, key) + count_with(cells, upto, key)
}

/// Every place of the table belongs to the entries of some key.
proof fn lemma_find_run(cells: Seq<(i32, i32)>, p: int, from: int) -> (key: int)
    requires
        fits(cells),
        0 <= from <= cells.len(),
        run_start(cells, from) <= p < cells.len(),
    ensures
        in_run(cells, cells.len(), key, p),
    decreases cells.len() - from,
{
    lemma_below_ends(cells, cells.len());
    lemma_run_end(cells, from);
    if p < run_start(cells, from + 1) {
        from
    } else {
        lemma_find_run(cells, p, from + 1)
    }
}

/// What the offset of `key` is once the table is built.
spec fn offset_of(cells: Seq<(i32, i32)>, key: int) -> nat {
    if count_with(cells, cells.len(), key) == 0 {
        cells.len()
    } else {
        run_start(cells, key)
    }
}

/// A table in which every particle stands at its place is the ordered table of
/// the particles.
proof fn lemma_table(cells: Seq<(i32, i32)>, table: HashGridView, who: Seq<int>)
    requires
        fits(cells),
        table.entries.len() == cells.len(),
        table.offsets.len() == cells.len(),
        forall|p: int| 0 <= p < cells.len() ==> #[trigger] settled(cells, table.entries, who, p),
        forall|k: int|
            0 <= k < cells.len() ==> (#[trigger] table.offsets[k]) == offset_of(cells, k),
    ensures
        table.wf(),
        table.lists(cells),
{
    let n = cells.len() as int;
    assert forall|p: int| 0 <= p < n implies {
        let e = #[trigger] table.entries[p];
        &&& e.index < n
        &&& e == entry_of(cells, e.index as int)
        &&& e.key == hash_key(e.hash as int, n)
        &&& e.key == key_of(cells, who[p])
        &&& e.index == who[p]
    } by {
        assert(settled(cells, table.entries, who, p));
        lemma_key_range(cells, who[p]);
    }
    assert forall|i: int| 0 <= i < n implies #[trigger] table.has_particle(i) by {
        lemma_rank_range(cells, i);
        let p = rank(cells, i) as int;
        assert(settled(cells, table.entries, who, p));
        lemma_rank_injective(cells, i, who[p]);
        assert(table.entries[p].index == i);
    }
    assert forall|p: int, q: int| 0 <= p < q < n implies precedes(
        #[trigger] table.entries[p],
        #[trigger] table.entries[q],
    ) by {
        assert(settled(cells, table.entries, who, p));
        assert(settled(cells, table.entries, who, q));
        let a = who[p];
        let b = who[q];
        if !(key_of(cells, a) < key_of(cells, b) || (key_of(cells, a) == key_of(cells, b) && a
            < b)) {
            if a != b {
                lemma_rank_order(cells, b, a);
            }
        }
    }
    assert forall|k: int| 0 <= k < n implies table.starts_at(
        k,
        (#[trigger] table.offsets[k]) as int,
    ) by {
        let at = table.offsets[k] as int;
        assert(at == offset_of(cells, k));
        lemma_run_end(cells, k);
        assert forall|p: int| 0 <= p < at implies (#[trigger] table.entries[p]).key != k by {
            assert(settled(cells, table.entries, who, p));
            let a = who[p];
            if key_of(cells, a) == k {
                lemma_count_strict(cells, a as nat, n as nat, k);
                lemma_rank_range(cells, a);
            }
        }
        if at < n {
            assert(settled(cells, table.entries, who, at));
            let a = who[at];
            let ka = key_of(cells, a);
            lemma_rank_range(cells, a);
            lemma_key_range(cells, a);
            if ka < k {
                lemma_below_monotone(cells, n as nat, ka + 1, k);
            } else if ka > k {
                lemma_below_monotone(cells, n as nat, k + 1, ka);
            }
        }
    }
}

/// Where a test fails before `from` and from `to` on, only what lies between
/// passes the filter.
proof fn lemma_filter_window<A>(s: Seq<A>, pred: spec_fn(A) -> bool, from: int, to: int)
    requires
        0 <= from <= to <= s.len(),
        forall|p: int| 0 <= p < from ==> !pred(#[trigger] s[p]),
        forall|p: int| to <= p < s.len() ==> !pred(#[trigger] s[p]),
    ensures
        s.filter(pred) == s.subrange(from, to).filter(pred),
{
    let head = s.subrange(0, from);
    let body = s.subrange(from, to);
    let tail = s.subrange(to, s.len() as int);
    assert(s =~= head + body + tail);
    Seq::filter_distributes_over_add(head + body, tail, pred);
    Seq::filter_distributes_over_add(head, body, pred);
    head.lemma_all_neg_filter_empty(pred);
    tail.lemma_all_neg_filter_empty(pred);
    assert(head.filter(pred) =~= Seq::empty());
    assert(tail.filter(pred) =~= Seq::empty());
    assert(head.filter(pred) + body.filter(pred) + tail.filter(pred) =~= body.filter(pred));
}

/// The table entry of particle `i`.
fn entry_for(cells: &Vec<(i32, i32)>, i: usize) -> (entry: SpatialEntry)
    requires
        i < cells.len() <= u32::MAX,
    ensures
        entry == entry_of(cells@, i as int),
        entry.key < cells.len(),
{
    let hash = hash_cell_2d(&cells[i]);
    let key = key_from_hash(hash, cells.len() as u32);
    SpatialEntry { index: i as u32, hash, key }
}

impl HashGrid {
    /// The table is in order, and its offsets lead to the entries of each key.
    pub open spec fn wf(&self) -> bool {
        self@.wf()
    }

    /// The number of particles, and of keys.
    pub fn size(&self) -> (size: usize)
        ensures
            size == self@.entries.len(),
    {
        self.entries.len()
    }

    /// A table without particles.
    pub fn new() -> (grid: HashGrid)
        ensures
            grid.wf(),
            grid@.lists(Seq::empty()),
    {
        HashGrid { offsets: Vec::new(), entries: Vec::new() }
    }

    /// Sets every offset to zero and makes room for `n` entries.
    fn clear(&mut self, n: usize)
        requires
            n <= u32::MAX,
        ensures
            final(self).offsets.len() == n,
            final(self).entries.len() == n,
            forall|k: int| 0 <= k < n ==> (#[trigger] final(self).offsets[k]) == 0,
    {
        self.offsets.clear();
        self.entries.clear();
        let mut k: usize = 0;
        while k < n
            invariant
                k <= n,
                self.offsets.len() == k,
                self.entries.len() == k,
                forall|j: int| 0 <= j < k ==> (#[trigger] self.offsets[j]) == 0,
            decreases n - k,
        {
            self.offsets.push(0);
            self.entries.push(SpatialEntry { index: 0, hash: 0, key: 0 });
            k += 1;
        }
    }

    /// Counts, for each key, the particles that have it.
    fn count_keys(&mut self, cells: &Vec<(i32, i32)>)
        requires
            cells.len() <= u32::MAX,
            old(self).offsets.len() == cells.len(),
            forall|k: int| 0 <= k < cells.len() ==> (#[trigger] old(self).offsets[k]) == 0,
        ensures
            final(self).entries == old(self).entries,
            final(self).offsets.len() == cells.len(),
            forall|k: int|
                0 <= k < cells.len() ==> (#[trigger] final(self).offsets[k]) == count_with(
                    cells@,
                    cells@.len(),
                    k,
                ),
    {
        let n = cells.len();
        let mut i: usize = 0;
        proof {
            assert forall|k: int| 0 <= k < n implies (#[trigger] self.offsets[k]) == count_with(
                cells@,
                0,
                k,
            ) by {
                lemma_count_zero(cells@, k);
            }
        }
        while i < n
            invariant
                i <= n,
                n == cells.len(),
                n <= u32::MAX,
                self.entries == old(self).entries,
                self.offsets.len() == n,
                forall|k: int|
                    0 <= k < n ==> (#[trigger] self.offsets[k]) == count_with(cells@, i as nat, k),
            decreases n - i,
        {
            let key = entry_for(cells, i).key as usize;
            proof {
                particle_ids(i as nat).lemma_filter_len(has_key(cells@, key as int));
                lemma_counts_after(cells@, i as nat, (i + 1) as nat);
            }
            let count = self.offsets[key];
            self.offsets[key] = count + 1;
            i += 1;
        }
    }

    /// Turns the counts into the places where the entries of each key start.
    fn sum_counts(&mut self, cells: &Vec<(i32, i32)>)
        requires
            cells.len() <= u32::MAX,
            old(self).offsets.len() == cells.len(),
            forall|k: int|
                0 <= k < cells.len() ==> (#[trigger] old(self).offsets[k]) == count_with(
                    cells@,
                    cells@.len(),
                    k,
                ),
        ensures
            final(self).entries == old(self).entries,
            final(self).offsets.len() == cells.len(),
            forall|k: int|
                0 <= k < cells.len() ==> (#[trigger] final(self).offsets[k]) == run_start(
                    cells@,
                    k as int,
                ),
    {
        let n = cells.len();
        let mut k: usize = 0;
        let mut start: u32 = 0;
        proof {
            lemma_below_ends(cells@, n as nat);
        }
        while k < n
            invariant
                k <= n,
                n == cells.len(),
                n <= u32::MAX,
                self.entries == old(self).entries,
                self.offsets.len() == n,
                start == run_start(cells@, k as int),
                forall|j: int| 0 <= j < k ==> (#[trigger] self.offsets[j]) == run_start(cells@, j),
                forall|j: int|
                    k <= j < n ==> (#[trigger] self.offsets[j]) == count_with(
                        cells@,
                        cells@.len(),
                        j,
                    ),
            decreases n - k,
        {
            proof {
                lemma_run_end(cells@, k as int);
            }
            let count = self.offsets[k];
            self.offsets[k] = start;
            start = start + count;
            k += 1;
        }
    }

    /// Puts each particle's entry at its place. The offset of a key moves on with
    /// each entry and ends where the entries of the key end.
    fn place_entries(&mut self, cells: &Vec<(i32, i32)>) -> (who: Ghost<Seq<int>>)
        requires
            cells.len() <= u32::MAX,
            old(self).offsets.len() == cells.len(),
            old(self).entries.len() == cells.len(),
            forall|k: int|
                0 <= k < cells.len() ==> (#[trigger] old(self).offsets[k]) == run_start(cells@, k),
        ensures
            final(self).offsets.len() == cells.len(),
            final(self).entries.len() == cells.len(),
            forall|k: int|
                0 <= k < cells.len() ==> (#[trigger] final(self).offsets[k]) == run_start(
                    cells@,
                    k + 1,
                ),
            forall|p: int|
                0 <= p < cells.len() ==> #[trigger] settled(cells@, final(self).entries@, who@, p),
    {
        let n = cells.len();
        let mut i: usize = 0;
        let ghost mut who: Seq<int> = Seq::new(n as nat, |p: int| 0int);
        proof {
            assert forall|k: int| 0 <= k < n implies count_with(cells@, 0, k) == 0 by {
                lemma_count_zero(cells@, k);
            }
        }
        while i < n
            invariant
                i <= n,
                n == cells.len(),
                n <= u32::MAX,
                self.offsets.len() == n,
                self.entries.len() == n,
                who.len() == n,
                forall|k: int|
                    0 <= k < n ==> (#[trigger] self.offsets[k]) == run_start(cells@, k)
                        + count_with(cells@, i as nat, k),
                forall|k: int, p: int| #[trigger]
                    in_run(cells@, i as nat, k, p) ==> settled(cells@, self.entries@, who, p),
            decreases n - i,
        {
            let entry = entry_for(cells, i);
            let key = entry.key as usize;
            let at = self.offsets[key];
            let ghost before = self.entries@;
            let ghost who_before = who;
            proof {
                lemma_rank_range(cells@, i as int);
                lemma_counts_after(cells@, i as nat, (i + 1) as nat);
            }
            self.entries[at as usize] = entry;
            self.offsets[key] = at + 1;
            proof {
                who = who.update(at as int, i as int);
                assert forall|k: int, p: int| #[trigger]
                    in_run(cells@, (i + 1) as nat, k, p) implies settled(
                    cells@,
                    self.entries@,
                    who,
                    p,
                ) by {
                    lemma_run_end(cells@, k);
                    lemma_count_monotone(cells@, (i + 1) as nat, n as nat, k);
                    if p != at {
                        assert(in_run(cells@, i as nat, k, p));
                        assert(settled(cells@, before, who_before, p));
                    } else {
                        assert(rank(cells@, i as int) == at);
                    }
                }
            }
            i += 1;
        }
        proof {
            assert forall|k: int| 0 <= k < n implies (#[trigger] self.offsets[k]) == run_start(
                cells@,
                k + 1,
            ) by {
                lemma_run_end(cells@, k);
            }
            assert forall|p: int| 0 <= p < n implies #[trigger] settled(
                cells@,
                self.entries@,
                who,
                p,
            ) by {
                lemma_below_ends(cells@, n as nat);
                let k = lemma_find_run(cells@, p, 0);
                assert(in_run(cells@, n as nat, k, p));
            }
        }
        Ghost(who)
    }

    /// Turns the places where the entries of each key end into the places where
    /// they start, and into the length of the table for a key without entries.
    fn mark_starts(&mut self, cells: &Vec<(i32, i32)>)
        requires
            cells.len() <= u32::MAX,
            old(self).offsets.len() == cells.len(),
            forall|k: int|
                0 <= k < cells.len() ==> (#[trigger] old(self).offsets[k]) == run_start(
                    cells@,
                    k + 1,
                ),
        ensures
            final(self).entries == old(self).entries,
            final(self).offsets.len() == cells.len(),
            forall|k: int|
                0 <= k < cells.len() ==> (#[trigger] final(self).offsets[k]) == offset_of(
                    cells@,
                    k,
                ),
    {
        let n = cells.len();
        let mut k: usize = 0;
        let mut start: u32 = 0;
        proof {
            lemma_below_ends(cells@, n as nat);
        }
        while k < n
            invariant
                k <= n,
                n == cells.len(),
                n <= u32::MAX,
                self.entries == old(self).entries,
                self.offsets.len() == n,
                start == run_start(cells@, k as int),
                forall|j: int| 0 <= j < k ==> (#[trigger] self.offsets[j]) == offset_of(cells@, j),
                forall|j: int|
                    k <= j < n ==> (#[trigger] self.offsets[j]) == run_start(cells@, j + 1),
            decreases n - k,
        {
            proof {
                lemma_run_end(cells@, k as int);
            }
            let end = self.offsets[k];
            if end == start {
                self.offsets[k] = n as u32;
            } else {
                self.offsets[k] = start;
            }
            start = end;
            k += 1;
        }
    }

    /// Builds the table of the particles whose cells are `cells`: `cells[i]` is
    /// the cell of particle `i`.
    pub fn rebuild(&mut self, cells: &Vec<(i32, i32)>)
        requires
            fits(cells@),
        ensures
            final(self).wf(),
            final(self)@.lists(cells@),
    {
        self.clear(cells.len());
        self.count_keys(cells);
        self.sum_counts(cells);
        let who = self.place_entries(cells);
        self.mark_starts(cells);
        proof {
            lemma_table(cells@, self@, who@);
        }
    }

    /// Adds to `found` the particles whose entries have hash `hash`, without
    /// `skip`, in the order of the table.
    fn collect(&self, hash: u32, skip: Option<usize>, found: &mut Vec<u32>)
        requires
            self.wf(),
        ensures
            final(found)@ == old(found)@ + self@.with_hash(hash as int, skip),
    {
        let n = self.entries.len();
        let ghost test = sought(hash as int, skip);
        let ghost so_far = found@;
        if n == 0 {
            proof {
                reveal(Seq::filter);
                assert(self@.with_hash(hash as int, skip) =~= Seq::empty());
            }
            return ;
        }
        let key = key_from_hash(hash, n as u32);
        let start = self.offsets[key as usize] as usize;
        let mut at = start;
        proof {
            assert(self@.starts_at(key as int, self@.offsets[key as int] as int));
            reveal(Seq::filter);
            assert(self.entries@.subrange(start as int, at as int) =~= Seq::empty());
            assert(Seq::<SpatialEntry>::empty().filter(test).map_values(entry_index())
                =~= Seq::empty());
        }
        while at < n && self.entries[at].key == key
            invariant
                start <= at <= n,
                n == self.entries.len(),
                test == sought(hash as int, skip),
                found@ == so_far + self.entries@.subrange(start as int, at as int).filter(
                    test,
                ).map_values(entry_index()),
            decreases n - at,
        {
            let entry = self.entries[at];
            let wanted = match skip {
                Some(id) => id != entry.index as usize,
                None => true,
            };
            proof {
                let seen = self.entries@.subrange(start as int, at as int);
                assert(self.entries@.subrange(start as int, at + 1) =~= seen.push(entry));
                seen.lemma_filter_push(entry, test);
                seen.filter(test).lemma_push_map_commute(entry_index(), entry);
            }
            if entry.hash == hash && wanted {
                found.push(entry.index);
            }
            at += 1;
        }
        proof {
            let entries = self.entries@;
            assert forall|p: int| 0 <= p < start implies !test(#[trigger] entries[p]) by {}
            assert forall|p: int| at <= p < n implies !test(#[trigger] entries[p]) by {
                if at < n && entries[p].key == key {
                    assert(entries[at as int].key != key);
                    if start < at {
                        assert(precedes(entries[start as int], entries[at as int]));
                    }
                    if at < p {
                        assert(precedes(entries[at as int], entries[p]));
                    }
                }
            }
            lemma_filter_window(entries, test, start as int, at as int);
        }
    }

    /// The particles that a search around `cell` finds: for `cell` and each of
    /// the eight cells around it, those whose cell has the same hash, without
    /// particle `skip`.
    pub fn neighbours(&self, cell: (i32, i32), skip: Option<usize>) -> (found: Vec<u32>)
        requires
            self.wf(),
        ensures
            found@ == self@.neighbours(cell, skip),
    {
        let mut found: Vec<u32> = Vec::new();
        let mut k: usize = 0;
        proof {
            assert(self@.blocks(cell, skip, 0) =~= Seq::empty());
        }
        while k < 9
            invariant
                k <= 9,
                self.wf(),
                found@ == self@.blocks(cell, skip, k as nat).flatten(),
            decreases 9 - k,
        {
            let hash = hash_neighbour(&cell, k);
            proof {
                let blocks = self@.blocks(cell, skip, k as nat);
                let block = self@.with_hash(hash as int, skip);
                blocks.lemma_flatten_push(block);
                assert(self@.blocks(cell, skip, (k + 1) as nat) =~= blocks.push(block));
            }
            self.collect(hash, skip, &mut found);
            k += 1;
        }
        found
    }
}

/// The particles, other than `skip`, that a search through all particles finds
/// with the hash of `cell` or of one of the eight cells around it.
pub open spec fn sharing_hash(cells: Seq<(i32, i32)>, cell: (i32, i32), skip: Option<usize>) -> Set<
    u32,
> {
    Set::new(
        |j: u32|
            j < cells.len() && skip != Some(j as usize) && exists|k: int|
                0 <= k < 9 && hash_of(cells, j as int) == #[trigger] neighbour_hash(cell, k),
    )
}

/// In the table of `cells`, the particles found for a hash are those, other
/// than `skip`, whose cell has the hash: each once.
proof fn lemma_with_hash_members(
    table: HashGridView,
    cells: Seq<(i32, i32)>,
    hash: int,
    skip: Option<usize>,
)
    requires
        table.wf(),
        table.lists(cells),
    ensures
        table.with_hash(hash, skip).no_duplicates(),
        forall|j: u32| #[trigger]
            table.with_hash(hash, skip).contains(j) <==> j < cells.len() && hash_of(
                cells,
                j as int,
            ) == hash && skip != Some(j as usize),
{
    let entries = table.entries;
    let kept = entries.filter(sought(hash, skip));
    let found = table.with_hash(hash, skip);
    assert(entries.no_duplicates()) by {
        assert forall|p: int, q: int| 0 <= p < entries.len() && 0 <= q < entries.len() && p
            != q implies entries[p] != entries[q] by {
            if p < q {
                assert(precedes(entries[p], entries[q]));
            } else {
                assert(precedes(entries[q], entries[p]));
            }
        }
    }
    lemma_filter_members(entries, sought(hash, skip));
    assert forall|a: int| 0 <= a < kept.len() implies {
        let e = #[trigger] kept[a];
        e.index < cells.len() && e == entry_of(cells, e.index as int) && sought(hash, skip)(e)
    } by {
        let e = kept[a];
        assert(kept.contains(e));
        assert(entries.contains(e));
        let p = choose|p: int| 0 <= p < entries.len() && entries[p] == e;
        assert(entries[p] == e);
    }
    assert forall|a: int, b: int| 0 <= a < found.len() && 0 <= b < found.len() && a
        != b implies found[a] != found[b] by {
        assert(kept[a] != kept[b]);
    }
    assert forall|j: u32| #[trigger]
        found.contains(j) <==> j < cells.len() && hash_of(cells, j as int) == hash && skip
            != Some(j as usize) by {
        if found.contains(j) {
            let a = choose|a: int| 0 <= a < found.len() && found[a] == j;
            assert(kept[a].index == j);
            lemma_key_range(cells, j as int);
        }
        if j < cells.len() && hash_of(cells, j as int) == hash && skip != Some(j as usize) {
            assert(table.has_particle(j as int));
            let p = choose|p: int|
                0 <= p < entries.len() && (#[trigger] entries[p]).index == j as int;
            let e = entries[p];
            lemma_key_range(cells, j as int);
            assert(entries.contains(e));
            assert(kept.contains(e));
            let a = choose|a: int| 0 <= a < kept.len() && kept[a] == e;
            assert(found[a] == j);
        }
    }
}

/// After a rebuild, a search around `cell` finds what a search through all
/// particles finds by the hashes of the nine cells, and each particle once.
/// Among them are all the particles, other than `skip`, of `cell` and of the
/// eight cells around it.
pub proof fn lemma_neighbours_complete(
    table: HashGridView,
    cells: Seq<(i32, i32)>,
    cell: (i32, i32),
    skip: Option<usize>,
)
    requires
        table.wf(),
        table.lists(cells),
    ensures
        table.neighbours(cell, skip).no_duplicates(),
        table.neighbours(cell, skip).to_set() == sharing_hash(cells, cell, skip),
        forall|j: int|
            0 <= j < cells.len() && skip != Some(j as usize) && adjacent_cells(
                cell,
                #[trigger] cells[j],
            ) ==> table.neighbours(cell, skip).contains(j as u32),
{
    let parts = table.blocks(cell, skip, 9);
    let found = table.neighbours(cell, skip);
    assert forall|k: int| 0 <= k < 9 implies (#[trigger] parts[k]).no_duplicates() by {
        lemma_with_hash_members(table, cells, neighbour_hash(cell, k), skip);
    }
    assert forall|k: int, l: int, x: u32|
        0 <= k < l < 9 && #[trigger] parts[k].contains(x) implies !#[trigger] parts[l].contains(
        x,
    ) by {
        lemma_with_hash_members(table, cells, neighbour_hash(cell, k), skip);
        lemma_with_hash_members(table, cells, neighbour_hash(cell, l), skip);
        lemma_neighbour_hashes_differ(cell, k, l);
    }
    assert(apart(parts));
    lemma_flatten_members(parts);
    assert forall|j: u32| found.to_set().contains(j) <==> sharing_hash(cells, cell, skip).contains(
        j,
    ) by {
        if found.contains(j) {
            let k = choose|k: int| 0 <= k < parts.len() && (#[trigger] parts[k]).contains(j);
            lemma_with_hash_members(table, cells, neighbour_hash(cell, k), skip);
        }
        if sharing_hash(cells, cell, skip).contains(j) {
            let k = choose|k: int|
                0 <= k < 9 && hash_of(cells, j as int) == #[trigger] neighbour_hash(cell, k);
            lemma_with_hash_members(table, cells, neighbour_hash(cell, k), skip);
            assert(parts[k].contains(j));
        }
    }
    assert(found.to_set() =~= sharing_hash(cells, cell, skip));
    assert forall|j: int|
        0 <= j < cells.len() && skip != Some(j as usize) && adjacent_cells(
            cell,
            #[trigger] cells[j],
        ) implies found.contains(j as u32) by {
        let k = lemma_adjacent_offset(cell, cells[j]);
        assert(sharing_hash(cells, cell, skip).contains(j as u32));
        assert(found.to_set().contains(j as u32));
    }
}

/// In two tables of the same particles, an entry of the one that stands at or
/// after place `p` of the other, where the two agree before `p`.
proof fn lemma_place_in_other(
    a: HashGridView,
    b: HashGridView,
    cells: Seq<(i32, i32)>,
    p: int,
) -> (q: int)
    requires
        a.wf(),
        a.lists(cells),
        b.wf(),
        b.lists(cells),
        0 <= p < cells.len(),
        forall|r: int| 0 <= r < p ==> a.entries[r] == b.entries[r],
    ensures
        p <= q < cells.len(),
        b.entries[q] == a.entries[p],
{
    let e = a.entries[p];
    assert(b.has_particle(e.index as int));
    let q = choose|q: int|
        0 <= q < b.entries.len() && (#[trigger] b.entries[q]).index == e.index as int;
    assert(b.entries[q] == entry_of(cells, e.index as int));
    if q < p {
        assert(precedes(a.entries[q], a.entries[p]));
    }
    q
}

/// There is one table of the particles of `cells`: what a rebuild leaves is
/// settled by the cells alone.
pub proof fn lemma_table_unique(a: HashGridView, b: HashGridView, cells: Seq<(i32, i32)>)
    requires
        a.wf(),
        a.lists(cells),
        b.wf(),
        b.lists(cells),
    ensures
        a == b,
{
    let n = cells.len() as int;
    assert forall|p: int| 0 <= p < n implies a.entries[p] == b.entries[p] by {
        lemma_entries_agree(a, b, cells, p);
    }
    assert(a.entries =~= b.entries);
    assert forall|k: int| 0 <= k < n implies a.offsets[k] == b.offsets[k] by {
        let at_a = a.offsets[k] as int;
        let at_b = b.offsets[k] as int;
        assert(a.starts_at(k, at_a));
        assert(b.starts_at(k, at_b));
        if at_a < at_b {
            assert(b.entries[at_a].key != k);
        }
        if at_b < at_a {
            assert(a.entries[at_b].key != k);
        }
    }
    assert(a.offsets =~= b.offsets);
}

/// Two tables of the same particles agree at every place up to `p`.
proof fn lemma_entries_agree(a: HashGridView, b: HashGridView, cells: Seq<(i32, i32)>, p: int)
    requires
        a.wf(),
        a.lists(cells),
        b.wf(),
        b.lists(cells),
        0 <= p < cells.len(),
    ensures
        forall|r: int| 0 <= r <= p ==> a.entries[r] == b.entries[r],
    decreases p,
{
    if p > 0 {
        lemma_entries_agree(a, b, cells, p - 1);
    }
    let in_b = lemma_place_in_other(a, b, cells, p);
    let in_a = lemma_place_in_other(b, a, cells, p);
    if in_b > p && in_a > p {
        assert(precedes(b.entries[p], b.entries[in_b]));
        assert(precedes(a.entries[p], a.entries[in_a]));
    }
}

} // verus!
