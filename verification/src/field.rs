//! The set of live cells.

use std::collections::HashSet;
use vstd::prelude::*;
use vstd::seq_lib::seq_to_set_is_finite;
use vstd::set_lib::lemma_map_size;
use vstd::set_lib::lemma_subset_equality;
use vstd::std_specs::cmp::PartialEqSpecImpl;
use vstd::std_specs::hash::spec_hash_keys_iter;
use vstd::std_specs::iter::IteratorSpec;
use crate::cell::representable;
use crate::cell::Cell;
use crate::key::key_of;
use crate::key::lemma_key_of_point;
use crate::key::lemma_point_of_key;
use crate::key::pack;
use crate::key::point_of;
use crate::key::unpack;

verus! {

broadcast use vstd::std_specs::hash::group_hash_axioms;

/// The live cells of one generation: a finite set of positions.  A position
/// that is not in the set is dead.
#[derive(Debug)]
pub struct Field {
    pub(crate) keys: HashSet<u128>,
}

impl View for Field {
    type V = Set<(int, int)>;

    closed spec fn view(&self) -> Set<(int, int)> {
        Set::new(|p: (int, int)| representable(p) && self.keys@.contains(key_of(p) as u128))
    }
}

/// Every position of `cells` has both coordinates between `lo` and `hi`.
pub open spec fn within(cells: Set<(int, int)>, lo: int, hi: int) -> bool {
    forall|p: (int, int)| #[trigger] cells.contains(p) ==> lo <= p.0 <= hi && lo <= p.1 <= hi
}

/// `cells`, each moved by `dx` columns and `dy` rows.
pub open spec fn shifted(cells: Set<(int, int)>, dx: int, dy: int) -> Set<(int, int)> {
    Set::new(|p: (int, int)| cells.contains((p.0 - dx, p.1 - dy)))
}

impl Field {
    /// How the stored keys and the live positions correspond.
    pub(crate) proof fn lemma_keys(&self)
        ensures
            self.keys@.finite(),
            self@.finite(),
            self.keys@.len() == self@.len(),
            forall|k: u128| #[trigger]
                self.keys@.contains(k) <==> self@.contains(point_of(k as int)),
            forall|p: (int, int)| #[trigger]
                self@.contains(p) <==> representable(p) && self.keys@.contains(key_of(p) as u128),
    {
        assert forall|k: u128| #[trigger]
            self.keys@.contains(k) <==> self@.contains(point_of(k as int)) by {
            lemma_point_of_key(k as int);
        }
        assert(self.keys@.finite()) by {
            let walk = spec_hash_keys_iter(&self.keys).remaining();
            seq_to_set_is_finite(walk.unref());
        }
        let f = |k: u128| point_of(k as int);
        assert forall|a: u128, b: u128| #[trigger] f(a) == #[trigger] f(b) implies a == b by {
            lemma_point_of_key(a as int);
            lemma_point_of_key(b as int);
        }
        assert(self.keys@.map(f) =~= self@) by {
            assert forall|p: (int, int)|
                self@.contains(p) implies self.keys@.map(f).contains(p) by {
                lemma_key_of_point(p);
                assert(f(key_of(p) as u128) == p);
            }
            assert forall|p: (int, int)|
                self.keys@.map(f).contains(p) implies self@.contains(p) by {
                let k = choose|k: u128| self.keys@.contains(k) && p == f(k);
                lemma_point_of_key(k as int);
            }
        }
        lemma_map_size(self.keys@, self@, f);
    }

    /// A walk over the stored keys passes every live cell once, and nothing
    /// else.
    pub(crate) proof fn lemma_walk(&self)
        ensures
            ({
                let walk = self.keys.iter().remaining();
                &&& walk.len() == self@.len()
                &&& forall|i: int|
                    0 <= i < walk.len() ==> self@.contains(point_of(*#[trigger] walk[i] as int))
                &&& forall|p: (int, int)|
                    self@.contains(p) ==> exists|i: int|
                        0 <= i < walk.len() && point_of(*#[trigger] walk[i] as int) == p
                &&& forall|i: int, j: int|
                    0 <= i < j < walk.len() ==> point_of(*#[trigger] walk[i] as int) != point_of(
                        *#[trigger] walk[j] as int,
                    )
            }),
    {
        let walk = self.keys.iter().remaining();
        self.lemma_keys();
        assert forall|i: int| 0 <= i < walk.len() implies self@.contains(
            point_of(*#[trigger] walk[i] as int),
        ) by {
            assert(walk.unref()[i] == *walk[i]);
            assert(walk.unref().to_set().contains(*walk[i]));
        }
        assert forall|p: (int, int)| self@.contains(p) implies exists|i: int|
            0 <= i < walk.len() && point_of(*#[trigger] walk[i] as int) == p by {
            let k = key_of(p) as u128;
            assert(walk.unref().to_set().contains(k));
            let i = choose|i: int| 0 <= i < walk.unref().len() && walk.unref()[i] == k;
            assert(walk.unref()[i] == *walk[i]);
            lemma_key_of_point(p);
        }
        assert forall|i: int, j: int| 0 <= i < j < walk.len() implies point_of(
            *#[trigger] walk[i] as int,
        ) != point_of(*#[trigger] walk[j] as int) by {
            lemma_point_of_key(*walk[i] as int);
            lemma_point_of_key(*walk[j] as int);
        }
    }

    /// A field is finite, and the coordinates of its cells fit in `i64`.
    pub proof fn lemma_view(&self)
        ensures
            self@.finite(),
            within(self@, i64::MIN as int, i64::MAX as int),
    {
        self.lemma_keys();
    }

    /// All neighbors of all live cells have coordinates that fit in `i64`.
    pub open spec fn interior(&self) -> bool {
        within(self@, i64::MIN + 1, i64::MAX - 1)
    }

    /// The field without any live cell.
    pub fn empty() -> (field: Field)
        ensures
            field@ == Set::<(int, int)>::empty(),
    {
        let field = Field { keys: HashSet::new() };
        assert(field@ =~= Set::<(int, int)>::empty());
        field
    }

    /// Makes `cell` live.  A cell that is live already stays so.
    pub fn add(&mut self, cell: Cell)
        ensures
            final(self)@ == old(self)@.insert(cell@),
    {
        let k = pack(cell);
        self.keys.insert(k);
        proof {
            lemma_key_of_point(cell@);
            assert forall|p: (int, int)|
                representable(p) && key_of(p) == key_of(cell@) implies p == cell@ by {
                lemma_key_of_point(p);
            }
            assert(self@ =~= old(self)@.insert(cell@));
        }
    }

    /// Whether `cell` is live.
    pub fn contains(&self, cell: Cell) -> (live: bool)
        ensures
            live == self@.contains(cell@),
    {
        let k = pack(cell);
        proof {
            lemma_key_of_point(cell@);
        }
        self.keys.contains(&k)
    }

    /// Whether no cell is live.
    pub fn is_empty(&self) -> (none: bool)
        ensures
            none == self@.is_empty(),
    {
        proof {
            self.lemma_keys();
        }
        self.keys.len() == 0
    }

    /// The number of live cells.
    pub fn size(&self) -> (n: usize)
        ensures
            n == self@.len(),
    {
        proof {
            self.lemma_keys();
        }
        self.keys.len()
    }

    /// Whether all neighbors of all live cells have coordinates that fit in
    /// `i64`.
    pub fn is_interior(&self) -> (yes: bool)
        ensures
            yes == self.interior(),
    {
        for k in it: self.keys.iter()
            invariant
                forall|i: int|
                    0 <= i < it.index() ==> i64::MIN < point_of(*#[trigger] it.seq()[i] as int).0
                        < i64::MAX && i64::MIN < point_of(*it.seq()[i] as int).1 < i64::MAX,
        {
            let cell = unpack(*k);
            proof {
                self.lemma_walk();
                assert(*k == *it.seq()[it.index()]);
            }
            if cell.x == i64::MIN || cell.x == i64::MAX || cell.y == i64::MIN
                || cell.y == i64::MAX {
                assert(self@.contains(cell@));
                return false;
            }
        }
        proof {
            let walk = self.keys.iter().remaining();
            self.lemma_walk();
            assert forall|p: (int, int)| #[trigger] self@.contains(p) implies
                i64::MIN + 1 <= p.0 <= i64::MAX - 1 && i64::MIN + 1 <= p.1 <= i64::MAX - 1 by {
                let i = choose|i: int|
                    0 <= i < walk.len() && point_of(*#[trigger] walk[i] as int) == p;
            }
        }
        true
    }

    /// The live cells, each of them once, in no particular order.
    pub fn cells(&self) -> (cells: Vec<Cell>)
        ensures
            cells@.no_duplicates(),
            cells@.len() == self@.len(),
            forall|i: int| 0 <= i < cells@.len() ==> self@.contains(#[trigger] cells@[i]@),
            forall|p: (int, int)|
                self@.contains(p) ==> exists|i: int|
                    0 <= i < cells@.len() && (#[trigger] cells@[i])@ == p,
    {
        let mut cells: Vec<Cell> = Vec::new();
        for k in it: self.keys.iter()
            invariant
                cells@.len() == it.index(),
                forall|i: int|
                    0 <= i < cells@.len() ==> (#[trigger] cells@[i])@ == point_of(
                        *it.seq()[i] as int,
                    ),
        {
            cells.push(unpack(*k));
        }
        proof {
            let walk = self.keys.iter().remaining();
            self.lemma_walk();
            assert forall|p: (int, int)| self@.contains(p) implies exists|i: int|
                0 <= i < cells@.len() && (#[trigger] cells@[i])@ == p by {
                let i = choose|i: int|
                    0 <= i < walk.len() && point_of(*#[trigger] walk[i] as int) == p;
                assert(cells@[i]@ == p);
            }
            assert forall|i: int, j: int|
                0 <= i < cells@.len() && 0 <= j < cells@.len() && i != j implies
                cells@[i] != cells@[j] by {
                if i < j {
                    assert(point_of(*walk[i] as int) != point_of(*walk[j] as int));
                } else {
                    assert(point_of(*walk[j] as int) != point_of(*walk[i] as int));
                }
            }
        }
        cells
    }
}

impl PartialEq for Field {
    /// Two fields are equal when the same cells are live in both.
    fn eq(&self, other: &Field) -> (same: bool) {
        proof {
            self.lemma_keys();
            other.lemma_keys();
            self.lemma_walk();
        }
        if self.keys.len() != other.keys.len() {
            return false;
        }
        for k in it: self.keys.iter()
            invariant
                forall|i: int|
                    0 <= i < it.index() ==> other@.contains(
                        point_of(*#[trigger] it.seq()[i] as int),
                    ),
        {
            proof {
                self.lemma_walk();
                other.lemma_keys();
                assert(*k == *it.seq()[it.index()]);
            }
            if !other.keys.contains(k) {
                return false;
            }
        }
        proof {
            let walk = self.keys.iter().remaining();
            assert forall|p: (int, int)| self@.contains(p) implies other@.contains(p) by {
                let i = choose|i: int|
                    0 <= i < walk.len() && point_of(*#[trigger] walk[i] as int) == p;
            }
            lemma_subset_equality(self@, other@);
        }
        true
    }
}

impl PartialEqSpecImpl for Field {
    open spec fn obeys_eq_spec() -> bool {
        true
    }

    open spec fn eq_spec(&self, other: &Field) -> bool {
        self@ == other@
    }
}

} // verus!
