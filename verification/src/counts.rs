//! Counting the live neighbors of every position.

use std::collections::HashMap;
use vstd::prelude::*;
use vstd::set_lib::lemma_map_size;
use vstd::std_specs::iter::IteratorSpec;
use crate::cell::adjacent;
use crate::cell::lemma_neighborhood_is_adjacency;
use crate::cell::neighborhood;
use crate::cell::representable;
use crate::cell::Cell;
use crate::field::shifted;
use crate::field::within;
use crate::field::Field;
use crate::key::key_of;
use crate::key::lemma_key_of_point;
use crate::key::lemma_point_of_key;
use crate::key::pack;
use crate::key::point_of;
use crate::key::unpack;

verus! {

broadcast use vstd::std_specs::hash::group_hash_axioms;

/// 1 if `p` is live in `cells`, 0 if it is dead.
pub open spec fn alive(cells: Set<(int, int)>, p: (int, int)) -> nat {
    if cells.contains(p) {
        1
    } else {
        0
    }
}

/// How many of the eight neighbors of `p` are live in `cells`.
pub open spec fn live_neighbors(cells: Set<(int, int)>, p: (int, int)) -> nat {
    let around = neighborhood(p);
    alive(cells, around[0]) + alive(cells, around[1]) + alive(cells, around[2]) + alive(
        cells,
        around[3],
    ) + alive(cells, around[4]) + alive(cells, around[5]) + alive(cells, around[6]) + alive(
        cells,
        around[7],
    )
}

/// The neighbor counts of a generation: every position with at least one
/// live neighbor, with the number of its live neighbors.
pub open spec fn neighbor_count_map(cells: Set<(int, int)>) -> Map<(int, int), nat> {
    Map::new(
        |p: (int, int)| live_neighbors(cells, p) > 0,
        |p: (int, int)| live_neighbors(cells, p),
    )
}

/// The count that `counts` holds for `p`: 0 where it holds none.
spec fn count_at(counts: Map<(int, int), nat>, p: (int, int)) -> nat {
    if counts.contains_key(p) {
        counts[p]
    } else {
        0
    }
}

/// A position has a live neighbor exactly if some live cell is adjacent to
/// it.
pub proof fn lemma_counted_means_adjacent(cells: Set<(int, int)>, p: (int, int))
    ensures
        live_neighbors(cells, p) > 0 <==> exists|q: (int, int)| #[trigger]
            cells.contains(q) && adjacent(p, q),
{
    let around = neighborhood(p);
    if live_neighbors(cells, p) > 0 {
        let i = if cells.contains(around[0]) {
            0int
        } else if cells.contains(around[1]) {
            1int
        } else if cells.contains(around[2]) {
            2int
        } else if cells.contains(around[3]) {
            3int
        } else if cells.contains(around[4]) {
            4int
        } else if cells.contains(around[5]) {
            5int
        } else if cells.contains(around[6]) {
            6int
        } else {
            7int
        };
        assert(cells.contains(around[i]) && adjacent(p, around[i]));
    }
    if exists|q: (int, int)| #[trigger] cells.contains(q) && adjacent(p, q) {
        let q = choose|q: (int, int)| #[trigger] cells.contains(q) && adjacent(p, q);
        lemma_neighborhood_is_adjacency(p, q);
        let i = choose|i: int| 0 <= i < around.len() && around[i] == q;
        assert(alive(cells, around[i]) == 1);
    }
}

/// The cells may be counted in parts: the live neighbors among two sets of
/// cells that share none are those among the one and those among the other.
pub proof fn lemma_live_neighbors_of_parts(
    a: Set<(int, int)>,
    b: Set<(int, int)>,
    p: (int, int),
)
    requires
        a.disjoint(b),
    ensures
        live_neighbors(a.union(b), p) == live_neighbors(a, p) + live_neighbors(b, p),
{
}

/// Moving the cells moves the counts with them.
pub proof fn lemma_live_neighbors_of_shifted(
    cells: Set<(int, int)>,
    dx: int,
    dy: int,
    p: (int, int),
)
    ensures
        live_neighbors(shifted(cells, dx, dy), p) == live_neighbors(cells, (p.0 - dx, p.1 - dy)),
{
}

/// `counts` holds no count of 0.
spec fn no_zero(counts: Map<(int, int), nat>) -> bool {
    forall|p: (int, int)| #[trigger] counts.contains_key(p) ==> counts[p] > 0
}

/// `p` is one of the first `n` neighbors of `c`.
spec fn among_first(c: (int, int), p: (int, int), n: int) -> bool {
    let around = neighborhood(c);
    ||| 0 < n && p == around[0]
    ||| 1 < n && p == around[1]
    ||| 2 < n && p == around[2]
    ||| 3 < n && p == around[3]
    ||| 4 < n && p == around[4]
    ||| 5 < n && p == around[5]
    ||| 6 < n && p == around[6]
    ||| 7 < n && p == around[7]
}

/// `p` is a neighbor of `c` that comes, in the order of the neighborhood,
/// before the position at the offset `(dx, dy)` from the first corner of the
/// block around `c`.
spec fn comes_before(c: (int, int), p: (int, int), dx: int, dy: int) -> bool {
    adjacent(c, p) && 3 * (p.0 - c.0 + 1) + (p.1 - c.1 + 1) < 3 * dx + dy
}

/// A live cell more at `c`, which was dead, is one live neighbor more for
/// each of the eight positions around `c` and for no other position.
proof fn lemma_one_more_cell(cells: Set<(int, int)>, c: (int, int), p: (int, int))
    requires
        !cells.contains(c),
    ensures
        live_neighbors(cells.insert(c), p) == live_neighbors(cells, p) + if adjacent(c, p) {
            1nat
        } else {
            0nat
        },
        among_first(c, p, 8) <==> adjacent(c, p),
{
}

/// A number of live neighbors for each of some positions.
#[derive(Debug)]
pub struct Counts {
    pub(crate) map: HashMap<u128, u64>,
}

impl View for Counts {
    type V = Map<(int, int), nat>;

    closed spec fn view(&self) -> Map<(int, int), nat> {
        Map::new(
            |p: (int, int)| representable(p) && self.map@.contains_key(key_of(p) as u128),
            |p: (int, int)| self.map@[key_of(p) as u128] as nat,
        )
    }
}

impl Counts {
    /// How the stored entries and the counted positions correspond.
    pub(crate) proof fn lemma_entries(&self)
        ensures
            self.map@.dom().finite(),
            self@.dom().finite(),
            self.map@.dom().len() == self@.dom().len(),
            forall|k: u128| #[trigger]
                self.map@.contains_key(k) <==> self@.contains_key(point_of(k as int)),
            forall|k: u128| #[trigger]
                self.map@.contains_key(k) ==> self@[point_of(k as int)] == self.map@[k],
            forall|p: (int, int)| #[trigger]
                self@.contains_key(p) <==> representable(p) && self.map@.contains_key(
                    key_of(p) as u128,
                ),
    {
        assert forall|k: u128| #[trigger]
            self.map@.contains_key(k) <==> self@.contains_key(point_of(k as int)) by {
            lemma_point_of_key(k as int);
        }
        assert forall|k: u128| #[trigger]
            self.map@.contains_key(k) implies self@[point_of(k as int)] == self.map@[k] by {
            lemma_point_of_key(k as int);
        }
        let f = |k: u128| point_of(k as int);
        assert forall|a: u128, b: u128| #[trigger] f(a) == #[trigger] f(b) implies a == b by {
            lemma_point_of_key(a as int);
            lemma_point_of_key(b as int);
        }
        assert(self.map@.dom().map(f) =~= self@.dom()) by {
            assert forall|p: (int, int)|
                self@.dom().contains(p) implies self.map@.dom().map(f).contains(p) by {
                lemma_key_of_point(p);
                assert(f(key_of(p) as u128) == p);
            }
            assert forall|p: (int, int)|
                self.map@.dom().map(f).contains(p) implies self@.dom().contains(p) by {
                let k = choose|k: u128| self.map@.dom().contains(k) && p == f(k);
                lemma_point_of_key(k as int);
            }
        }
        lemma_map_size(self.map@.dom(), self@.dom(), f);
    }

    /// Only finitely many positions have a count, and their coordinates fit in
    /// `i64`.
    pub proof fn lemma_view(&self)
        ensures
            self@.dom().finite(),
            within(self@.dom(), i64::MIN as int, i64::MAX as int),
    {
        self.lemma_entries();
    }

    /// A walk over the stored entries passes every counted position once,
    /// with its count, and nothing else.
    pub(crate) proof fn lemma_walk(&self)
        ensures
            ({
                let walk = self.map.iter().remaining();
                &&& walk.len() == self@.dom().len()
                &&& forall|i: int|
                    0 <= i < walk.len() ==> self@.contains_key(
                        point_of(*(#[trigger] walk[i]).0 as int),
                    ) && self@[point_of(*walk[i].0 as int)] == *walk[i].1
                &&& forall|p: (int, int)|
                    self@.contains_key(p) ==> exists|i: int|
                        0 <= i < walk.len() && point_of(*(#[trigger] walk[i]).0 as int) == p
                &&& walk.no_duplicates() ==> forall|i: int, j: int|
                    0 <= i < j < walk.len() ==> point_of(*(#[trigger] walk[i]).0 as int)
                        != point_of(*(#[trigger] walk[j]).0 as int)
            }),
    {
        let walk = self.map.iter().remaining();
        self.lemma_entries();
        assert forall|p: (int, int)| self@.contains_key(p) implies exists|i: int|
            0 <= i < walk.len() && point_of(*(#[trigger] walk[i]).0 as int) == p by {
            let k = key_of(p) as u128;
            assert(walk.contains((&k, &self.map@[k])));
            let i = choose|i: int| 0 <= i < walk.len() && walk[i] == (&k, &self.map@[k]);
            assert(*walk[i].0 == k);
            lemma_key_of_point(p);
        }
        if walk.no_duplicates() {
            assert forall|i: int, j: int| 0 <= i < j < walk.len() implies point_of(
                *(#[trigger] walk[i]).0 as int,
            ) != point_of(*(#[trigger] walk[j]).0 as int) by {
                lemma_point_of_key(*walk[i].0 as int);
                lemma_point_of_key(*walk[j].0 as int);
                assert(self.map@[*walk[i].0] == *walk[i].1);
                assert(self.map@[*walk[j].0] == *walk[j].1);
                assert(walk[i] != walk[j]);
            }
        }
    }

    /// The number of positions that have a count.
    pub fn len(&self) -> (n: usize)
        ensures
            n == self@.dom().len(),
    {
        proof {
            self.lemma_entries();
        }
        self.map.len()
    }

    /// The count of `cell`, if it has one.
    pub fn get(&self, cell: Cell) -> (count: Option<u64>)
        ensures
            match count {
                Some(n) => self@.contains_key(cell@) && self@[cell@] == n,
                None => !self@.contains_key(cell@),
            },
    {
        let k = pack(cell);
        proof {
            lemma_key_of_point(cell@);
        }
        match self.map.get(&k) {
            Some(n) => Some(*n),
            None => None,
        }
    }

    /// The positions that have a count, each of them once and with its count,
    /// in no particular order.
    pub fn entries(&self) -> (entries: Vec<(Cell, u64)>)
        ensures
            entries@.len() == self@.dom().len(),
            forall|i: int|
                0 <= i < entries@.len() ==> self@.contains_key((#[trigger] entries@[i]).0@)
                    && self@[entries@[i].0@] == entries@[i].1,
            forall|i: int, j: int|
                0 <= i < j < entries@.len() ==> (#[trigger] entries@[i]).0
                    != (#[trigger] entries@[j]).0,
            forall|p: (int, int)|
                self@.contains_key(p) ==> exists|i: int|
                    0 <= i < entries@.len() && (#[trigger] entries@[i]).0@ == p,
    {
        let mut entries: Vec<(Cell, u64)> = Vec::new();
        for entry in it: self.map.iter()
            invariant
                it.seq().no_duplicates(),
                entries@.len() == it.index(),
                forall|i: int|
                    0 <= i < entries@.len() ==> (#[trigger] entries@[i]).0@ == point_of(
                        *it.seq()[i].0 as int,
                    ) && entries@[i].1 == *it.seq()[i].1,
        {
            let (k, n) = entry;
            assert(entry == it.seq()[it.index()]);
            entries.push((unpack(*k), *n));
        }
        proof {
            let walk = self.map.iter().remaining();
            self.lemma_walk();
            assert forall|i: int, j: int| 0 <= i < j < entries@.len() implies
                (#[trigger] entries@[i]).0 != (#[trigger] entries@[j]).0 by {
                assert(point_of(*walk[i].0 as int) != point_of(*walk[j].0 as int));
            }
            assert forall|p: (int, int)| self@.contains_key(p) implies exists|i: int|
                0 <= i < entries@.len() && (#[trigger] entries@[i]).0@ == p by {
                let i = choose|i: int|
                    0 <= i < walk.len() && point_of(*(#[trigger] walk[i]).0 as int) == p;
                assert(entries@[i].0@ == p);
            }
        }
        entries
    }

    /// Counts one neighbor more for `cell`.
    fn bump(&mut self, cell: Cell)
        requires
            count_at(old(self)@, cell@) < u64::MAX,
        ensures
            forall|p: (int, int)| #[trigger]
                count_at(final(self)@, p) == count_at(old(self)@, p) + if p == cell@ {
                    1nat
                } else {
                    0nat
                },
            no_zero(old(self)@) ==> no_zero(final(self)@),
    {
        let k = pack(cell);
        proof {
            lemma_key_of_point(cell@);
        }
        let n: u64 = match self.map.get(&k) {
            Some(n) => *n + 1,
            None => 1,
        };
        self.map.insert(k, n);
        proof {
            assert forall|p: (int, int)|
                representable(p) && key_of(p) == key_of(cell@) implies p == cell@ by {
                lemma_key_of_point(p);
            }
            if no_zero(old(self)@) {
                assert forall|p: (int, int)| #[trigger]
                    self@.contains_key(p) implies self@[p] > 0 by {
                    assert(count_at(self@, p) == count_at(old(self)@, p) + if p == cell@ {
                        1nat
                    } else {
                        0nat
                    });
                }
            }
        }
    }
}

impl Counts {
    /// Counts one neighbor more for each of the positions around `cell` that
    /// a cell can hold.
    fn bump_around(&mut self, cell: Cell)
        requires
            forall|p: (int, int)| #[trigger] count_at(old(self)@, p) <= 8,
        ensures
            forall|p: (int, int)| #[trigger]
                count_at(final(self)@, p) == count_at(old(self)@, p) + if representable(p)
                    && adjacent(cell@, p) {
                    1nat
                } else {
                    0nat
                },
            no_zero(old(self)@) ==> no_zero(final(self)@),
    {
        for dx in 0..3i64
            invariant
                forall|p: (int, int)| #[trigger] count_at(old(self)@, p) <= 8,
                forall|p: (int, int)| #[trigger]
                    count_at(self@, p) == count_at(old(self)@, p) + if representable(p)
                        && comes_before(cell@, p, dx as int, 0) {
                        1nat
                    } else {
                        0nat
                    },
                no_zero(old(self)@) ==> no_zero(self@),
        {
            for dy in 0..3i64
                invariant
                    0 <= dx < 3,
                    forall|p: (int, int)| #[trigger] count_at(old(self)@, p) <= 8,
                    forall|p: (int, int)| #[trigger]
                        count_at(self@, p) == count_at(old(self)@, p) + if representable(p)
                            && comes_before(cell@, p, dx as int, dy as int) {
                            1nat
                        } else {
                            0nat
                        },
                    no_zero(old(self)@) ==> no_zero(self@),
            {
                let x: i128 = cell.x as i128 - 1 + dx as i128;
                let y: i128 = cell.y as i128 - 1 + dy as i128;
                if (dx != 1 || dy != 1) && i64::MIN as i128 <= x && x <= i64::MAX as i128
                    && i64::MIN as i128 <= y && y <= i64::MAX as i128 {
                    let neighbor = Cell { x: x as i64, y: y as i64 };
                    assert(count_at(self@, neighbor@) <= 9);
                    self.bump(neighbor);
                }
            }
        }
    }
}

impl Field {
    /// The number of live neighbors of every position that has at least
    /// one.  A live cell counts for its neighbors, not for itself.
    ///
    /// A cell holds its coordinates as `i64`, so a position beyond this range
    /// gets no count.  An interior field has no live neighbor there.
    pub fn neighbor_counts(&self) -> (counts: Counts)
        ensures
            counts@ == neighbor_count_map(self@).filter_keys(|p: (int, int)| representable(p)),
            self.interior() ==> counts@ == neighbor_count_map(self@),
            forall|p: (int, int)| #[trigger] counts@.contains_key(p) ==> 1 <= counts@[p] <= 8,
    {
        let mut counts = Counts { map: HashMap::new() };
        let mut neighbors = [Cell { x: 0, y: 0 }; 8];
        let ghost mut seen: Set<(int, int)> = Set::empty();
        for k in it: self.keys.iter()
            invariant
                forall|p: (int, int)|
                    seen.contains(p) <==> exists|i: int|
                        0 <= i < it.index() && point_of(*#[trigger] it.seq()[i] as int) == p,
                forall|p: (int, int)|
                    representable(p) ==> #[trigger] count_at(counts@, p) == live_neighbors(seen, p),
                no_zero(counts@),
        {
            let cell = unpack(*k);
            proof {
                self.lemma_walk();
                counts.lemma_view();
                assert(*k == *it.seq()[it.index()]);
            }
            let ghost before = counts@;
            if cell.is_interior() {
                cell.neighbors(&mut neighbors);
                for i in 0..8usize
                    invariant
                        forall|j: int|
                            0 <= j < 8 ==> (#[trigger] neighbors[j])@ == neighborhood(cell@)[j],
                        forall|p: (int, int)|
                            representable(p) ==> #[trigger] count_at(before, p)
                                == live_neighbors(seen, p),
                        forall|p: (int, int)| #[trigger]
                            count_at(counts@, p) == count_at(before, p) + if among_first(
                                cell@,
                                p,
                                i as int,
                            ) {
                                1nat
                            } else {
                                0nat
                            },
                        no_zero(counts@),
                {
                    assert(count_at(counts@, neighbors[i as int]@) <= 9);
                    counts.bump(neighbors[i]);
                }
            } else {
                // At the edge of the coordinate range no cell can hold some
                // of the eight neighbors.
                counts.bump_around(cell);
            }
            proof {
                assert(!seen.contains(cell@)) by {
                    if seen.contains(cell@) {
                        let i = choose|i: int|
                            0 <= i < it.index() && point_of(*#[trigger] it.seq()[i] as int)
                                == cell@;
                        assert(point_of(*it.seq()[i] as int) != point_of(
                            *it.seq()[it.index()] as int,
                        ));
                    }
                }
                counts.lemma_view();
                assert forall|p: (int, int)| representable(p) implies
                    #[trigger] count_at(counts@, p) == live_neighbors(seen.insert(cell@), p) by {
                    lemma_one_more_cell(seen, cell@, p);
                    assert(count_at(before, p) == live_neighbors(seen, p));
                }
                let ghost passed = seen;
                seen = seen.insert(cell@);
                assert forall|p: (int, int)| seen.contains(p) implies exists|i: int|
                    0 <= i < it.index() + 1 && point_of(*#[trigger] it.seq()[i] as int) == p by {
                    if passed.contains(p) {
                        let i = choose|i: int|
                            0 <= i < it.index() && point_of(*#[trigger] it.seq()[i] as int) == p;
                        assert(point_of(*it.seq()[i] as int) == p);
                    } else {
                        assert(point_of(*it.seq()[it.index()] as int) == p);
                    }
                }
            }
        }
        proof {
            self.lemma_walk();
            self.lemma_view();
            counts.lemma_view();
            assert(seen =~= self@);
            let kept = neighbor_count_map(self@).filter_keys(|p: (int, int)| representable(p));
            assert forall|p: (int, int)| #[trigger]
                counts@.contains_key(p) implies 1 <= counts@[p] <= 8 by {
                assert(count_at(counts@, p) == live_neighbors(seen, p));
            }
            assert(counts@ =~= kept) by {
                assert forall|p: (int, int)|
                    counts@.contains_key(p) <==> kept.contains_key(p) by {
                    if representable(p) {
                        assert(count_at(counts@, p) == live_neighbors(seen, p));
                    }
                }
                assert forall|p: (int, int)|
                    counts@.contains_key(p) implies counts@[p] == kept[p] by {
                    assert(count_at(counts@, p) == live_neighbors(seen, p));
                }
            }
            if self.interior() {
                assert forall|p: (int, int)|
                    neighbor_count_map(self@).contains_key(p) implies representable(p) by {
                    lemma_counted_means_adjacent(self@, p);
                    let q = choose|q: (int, int)| #[trigger] self@.contains(q) && adjacent(p, q);
                }
                assert(kept =~= neighbor_count_map(self@));
            }
        }
        counts
    }
}

} // verus!
