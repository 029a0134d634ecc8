//! Particles are known by their id: the index of a particle in every
//! per-particle array.

use vstd::prelude::*;

verus! {

/// What a drawn particle carries: its id, and whether it is highlighted.
#[derive(Clone, Debug, Default)]
pub struct Particle {
    pub id: usize,
    pub watched: bool,
}

/// The ids `0, 1, .., n - 1`.
pub open spec fn particle_ids(n: nat) -> Seq<usize> {
    Seq::new(n, |i: int| i as usize)
}

pub(crate) proof fn lemma_ids_push(n: nat)
    ensures
        particle_ids(n + 1) == particle_ids(n).push(n as usize),
{
    assert(particle_ids(n + 1) =~= particle_ids(n).push(n as usize));
}

/// The ids below `n` are the numbers below `n`, each once.
pub(crate) proof fn lemma_ids_members(n: nat)
    requires
        n <= usize::MAX,
    ensures
        particle_ids(n).no_duplicates(),
        forall|x: usize| #[trigger] particle_ids(n).contains(x) <==> x < n,
{
    assert forall|x: usize| #[trigger] particle_ids(n).contains(x) <==> x < n by {
        if x < n {
            assert(particle_ids(n)[x as int] == x);
        }
    }
}

} // verus!
