//! From one generation to the next.

use vstd::prelude::*;
use vstd::std_specs::iter::IteratorSpec;
use crate::cell::representable;
use crate::counts::lemma_live_neighbors_of_shifted;
use crate::counts::live_neighbors;
use crate::counts::neighbor_count_map;
use crate::field::shifted;
use crate::field::within;
use crate::field::Field;
use crate::key::point_of;
use crate::key::unpack;

verus! {

broadcast use vstd::std_specs::hash::group_hash_axioms;

/// The rule of the game: `p` is live in the generation after `cells` if it
/// has exactly three live neighbors, or if it is live and has exactly two.
pub open spec fn lives_on(cells: Set<(int, int)>, p: (int, int)) -> bool {
    ||| live_neighbors(cells, p) == 3
    ||| cells.contains(p) && live_neighbors(cells, p) == 2
}

/// The generation after `cells`.
pub open spec fn next_generation(cells: Set<(int, int)>) -> Set<(int, int)> {
    Set::new(|p: (int, int)| lives_on(cells, p))
}

/// Nothing is born where nothing lives.
pub proof fn lemma_next_generation_of_empty()
    ensures
        next_generation(Set::<(int, int)>::empty()) == Set::<(int, int)>::empty(),
{
    assert(next_generation(Set::<(int, int)>::empty()) =~= Set::<(int, int)>::empty());
}

/// A generation reaches at most one position further than the one before.
pub proof fn lemma_next_generation_spreads_by_one(cells: Set<(int, int)>, lo: int, hi: int)
    requires
        within(cells, lo, hi),
    ensures
        within(next_generation(cells), lo - 1, hi + 1),
{
}

/// The rule does not depend on where the cells are: the generation after
/// the moved cells is the moved generation after the cells.
pub proof fn lemma_next_generation_of_shifted(cells: Set<(int, int)>, dx: int, dy: int)
    ensures
        next_generation(shifted(cells, dx, dy)) == shifted(next_generation(cells), dx, dy),
{
    assert forall|p: (int, int)|
        next_generation(shifted(cells, dx, dy)).contains(p) <==> shifted(
            next_generation(cells),
            dx,
            dy,
        ).contains(p) by {
        lemma_live_neighbors_of_shifted(cells, dx, dy, p);
    }
    assert(next_generation(shifted(cells, dx, dy)) =~= shifted(next_generation(cells), dx, dy));
}

/// Only positions with a neighbor count can be live in the next generation.
pub proof fn lemma_next_generation_is_counted(cells: Set<(int, int)>, p: (int, int))
    requires
        next_generation(cells).contains(p),
    ensures
        neighbor_count_map(cells).contains_key(p),
        neighbor_count_map(cells)[p] == 2 || neighbor_count_map(cells)[p] == 3,
{
}

impl Field {
    /// The next generation.  The field itself stays as it is.
    ///
    /// A cell holds its coordinates as `i64`, so no cell of the next
    /// generation lies beyond this range.  After an interior field the rule
    /// gives no cell there.
    pub fn step(&mut self) -> (next: Field)
        ensures
            final(self)@ == old(self)@,
            next@ == next_generation(old(self)@).filter(|p: (int, int)| representable(p)),
            old(self).interior() ==> next@ == next_generation(old(self)@),
            old(self)@.is_empty() ==> next@.is_empty(),
    {
        let mut field = Field::empty();
        let counts = self.neighbor_counts();
        for entry in it: counts.map.iter()
            invariant
                self@ == old(self)@,
                counts@ == neighbor_count_map(self@).filter_keys(|p: (int, int)| representable(p)),
                forall|p: (int, int)| #[trigger]
                    field@.contains(p) ==> representable(p) && lives_on(self@, p),
                forall|i: int|
                    0 <= i < it.index() && lives_on(
                        self@,
                        point_of(*(#[trigger] it.seq()[i]).0 as int),
                    ) ==> field@.contains(point_of(*it.seq()[i].0 as int)),
        {
            let (k, count) = entry;
            let cell = unpack(*k);
            proof {
                counts.lemma_walk();
                assert(entry == it.seq()[it.index()]);
            }
            if *count == 3 || self.contains(cell) && *count == 2 {
                field.add(cell);
            }
        }
        proof {
            let walk = counts.map.iter().remaining();
            let kept = next_generation(self@).filter(|p: (int, int)| representable(p));
            counts.lemma_walk();
            assert forall|p: (int, int)| kept.contains(p) implies field@.contains(p) by {
                lemma_next_generation_is_counted(self@, p);
                assert(counts@.contains_key(p));
                let i = choose|i: int|
                    0 <= i < walk.len() && point_of(*(#[trigger] walk[i]).0 as int) == p;
            }
            assert(field@ =~= kept);
            if self.interior() {
                lemma_next_generation_spreads_by_one(self@, i64::MIN + 1, i64::MAX - 1);
                assert(kept =~= next_generation(self@));
            }
            if self@.is_empty() {
                lemma_next_generation_of_empty();
            }
        }
        field
    }
}

} // verus!
