//! What a cell of the simulation holds: nothing, one specimen, or (only while
//! a generation is being worked out) several specimens contesting the cell.

use vstd::prelude::*;
use crate::board::{Board, slot, lemma_slot_in_bounds};

verus! {

/// A specimen, carrying a nonnegative amount of energy in fixed-point units.
#[derive(Clone, Copy, Debug, PartialEq, Eq, Structural)]
pub struct Specimen {
    pub energy: u64,
}

/// The occupancy of one cell.
#[derive(Clone, Debug)]
pub enum Field {
    Empty,
    Occupied(Specimen),
    /// Two or more specimens that arrived at the same cell, in arrival order.
    Collision(Vec<Specimen>),
}

impl Field {
    /// The specimens the cell holds, in arrival order.
    pub open spec fn specimens(self) -> Seq<Specimen> {
        match self {
            Field::Empty => Seq::empty(),
            Field::Occupied(s) => seq![s],
            Field::Collision(v) => v@,
        }
    }

    /// A collision always has at least two contestants.
    pub open spec fn wf(self) -> bool {
        self is Collision ==> self.specimens().len() >= 2
    }

    pub fn is_empty(&self) -> (r: bool)
        ensures
            r == (*self is Empty),
    {
        match self {
            Field::Empty => true,
            _ => false,
        }
    }

    pub fn is_collision(&self) -> (r: bool)
        ensures
            r == (*self is Collision),
    {
        match self {
            Field::Collision(_) => true,
            _ => false,
        }
    }

    /// How many specimens the cell holds.
    pub fn count(&self) -> (r: usize)
        ensures
            r == self.specimens().len(),
    {
        match self {
            Field::Empty => 0,
            Field::Occupied(_) => 1,
            Field::Collision(v) => v.len(),
        }
    }
}

/// Total energy of a list of specimens.
pub open spec fn energy_sum(s: Seq<Specimen>) -> nat
    decreases s.len(),
{
    if s.len() == 0 {
        0
    } else {
        energy_sum(s.drop_last()) + s.last().energy as nat
    }
}

/// The specimens of each cell.
pub open spec fn lists(cells: Seq<Field>) -> Seq<Seq<Specimen>> {
    cells.map_values(|f: Field| f.specimens())
}

/// How many specimens the lists hold together.
pub open spec fn lists_count(l: Seq<Seq<Specimen>>) -> nat
    decreases l.len(),
{
    if l.len() == 0 {
        0
    } else {
        lists_count(l.drop_last()) + l.last().len()
    }
}

/// The energy the lists hold together.
pub open spec fn lists_energy(l: Seq<Seq<Specimen>>) -> nat
    decreases l.len(),
{
    if l.len() == 0 {
        0
    } else {
        lists_energy(l.drop_last()) + energy_sum(l.last())
    }
}

/// How many specimens the cells hold.
pub open spec fn count_of(cells: Seq<Field>) -> nat {
    lists_count(lists(cells))
}

/// The energy the cells hold.
pub open spec fn energy_of(cells: Seq<Field>) -> nat {
    lists_energy(lists(cells))
}

/// No cell holds a collision.
pub open spec fn is_stable(cells: Seq<Field>) -> bool {
    forall|i: int| 0 <= i < cells.len() ==> !(#[trigger] cells[i] is Collision)
}

pub open spec fn all_wf(cells: Seq<Field>) -> bool {
    forall|i: int| 0 <= i < cells.len() ==> (#[trigger] cells[i]).wf()
}

/// `n` cells with nothing in them.
pub open spec fn empty_lists(n: nat) -> Seq<Seq<Specimen>> {
    Seq::new(n, |i: int| Seq::<Specimen>::empty())
}

/// A specimen bound for a cell.
pub type Placement = ((usize, usize), Specimen);

/// The lists after `p`'s specimen joins the cell `p` names, on a grid `w`
/// cells wide.
pub open spec fn place(l: Seq<Seq<Specimen>>, w: int, p: Placement) -> Seq<Seq<Specimen>> {
    let i = slot(p.0.0 as int, p.0.1 as int, w);
    l.update(i, l[i].push(p.1))
}

/// The lists after each placement in turn.
pub open spec fn place_all(l: Seq<Seq<Specimen>>, w: int, ps: Seq<Placement>) -> Seq<
    Seq<Specimen>,
>
    decreases ps.len(),
{
    if ps.len() == 0 {
        l
    } else {
        place(place_all(l, w, ps.drop_last()), w, ps.last())
    }
}

/// Total energy of the specimens being placed.
pub open spec fn placed_energy(ps: Seq<Placement>) -> nat
    decreases ps.len(),
{
    if ps.len() == 0 {
        0
    } else {
        placed_energy(ps.drop_last()) + ps.last().1.energy as nat
    }
}

/// Whether every placement names a cell of a `w` x `h` grid.
pub open spec fn placements_in_bounds(ps: Seq<Placement>, w: int, h: int) -> bool {
    forall|k: int|
        0 <= k < ps.len() ==> 0 <= (#[trigger] ps[k]).0.0 < w && 0 <= ps[k].0.1 < h
}

pub proof fn lemma_energy_sum_push(s: Seq<Specimen>, x: Specimen)
    ensures
        energy_sum(s.push(x)) == energy_sum(s) + x.energy,
{
    assert(s.push(x).drop_last() == s);
}

pub proof fn lemma_energy_sum_concat(a: Seq<Specimen>, b: Seq<Specimen>)
    ensures
        energy_sum(a + b) == energy_sum(a) + energy_sum(b),
    decreases b.len(),
{
    if b.len() == 0 {
        assert(a + b == a);
    } else {
        assert((a + b).drop_last() == a + b.drop_last());
        lemma_energy_sum_concat(a, b.drop_last());
    }
}

/// A prefix holds no more energy than the whole list.
pub proof fn lemma_energy_sum_prefix(s: Seq<Specimen>, k: int)
    requires
        0 <= k <= s.len(),
    ensures
        energy_sum(s.take(k)) <= energy_sum(s),
    decreases s.len() - k,
{
    if k < s.len() {
        assert(s.take(k + 1) == s.take(k).push(s[k]));
        lemma_energy_sum_push(s.take(k), s[k]);
        lemma_energy_sum_prefix(s, k + 1);
    } else {
        assert(s.take(k) == s);
    }
}

/// Replacing one list changes the totals by the difference it makes.
pub proof fn lemma_lists_update(l: Seq<Seq<Specimen>>, i: int, v: Seq<Specimen>)
    requires
        0 <= i < l.len(),
    ensures
        lists_count(l.update(i, v)) + l[i].len() == lists_count(l) + v.len(),
        lists_energy(l.update(i, v)) + energy_sum(l[i]) == lists_energy(l) + energy_sum(v),
    decreases l.len(),
{
    let u = l.update(i, v);
    if i == l.len() - 1 {
        assert(u.drop_last() == l.drop_last());
    } else {
        assert(u.drop_last() == l.drop_last().update(i, v));
        lemma_lists_update(l.drop_last(), i, v);
    }
}

pub proof fn lemma_empty_lists(n: nat)
    ensures
        lists_count(empty_lists(n)) == 0,
        lists_energy(empty_lists(n)) == 0,
    decreases n,
{
    if n > 0 {
        assert(empty_lists(n).drop_last() == empty_lists((n - 1) as nat));
        lemma_empty_lists((n - 1) as nat);
    }
}

/// Placing specimens adds exactly them to the totals.
pub proof fn lemma_place_all_totals(l: Seq<Seq<Specimen>>, w: int, h: int, ps: Seq<Placement>)
    requires
        l.len() == w * h,
        placements_in_bounds(ps, w, h),
    ensures
        place_all(l, w, ps).len() == l.len(),
        lists_count(place_all(l, w, ps)) == lists_count(l) + ps.len(),
        lists_energy(place_all(l, w, ps)) == lists_energy(l) + placed_energy(ps),
    decreases ps.len(),
{
    if ps.len() > 0 {
        let rest = ps.drop_last();
        assert(placements_in_bounds(rest, w, h)) by {
            assert forall|k: int| 0 <= k < rest.len() implies 0 <= (#[trigger] rest[k]).0.0 < w
                && 0 <= rest[k].0.1 < h by {
                assert(rest[k] == ps[k]);
            }
        }
        lemma_place_all_totals(l, w, h, rest);
        let before = place_all(l, w, rest);
        let p = ps.last();
        assert(0 <= p.0.0 < w && 0 <= p.0.1 < h) by {
            assert(ps[ps.len() - 1] == p);
        }
        lemma_slot_in_bounds(p.0.0 as int, p.0.1 as int, w, h);
        let i = slot(p.0.0 as int, p.0.1 as int, w);
        lemma_lists_update(before, i, before[i].push(p.1));
        lemma_energy_sum_push(before[i], p.1);
    }
}

/// The merge rule: `s` joins the cell's occupants.
pub fn merge(f: Field, s: Specimen) -> (r: Field)
    requires
        f.wf(),
    ensures
        r.specimens() == f.specimens().push(s),
        r.wf(),
        !(r is Empty),
{
    match f {
        Field::Empty => Field::Occupied(s),
        Field::Occupied(o) => {
            let r = Field::Collision(vec![o, s]);
            assert(r.specimens() == seq![o].push(s));
            r
        },
        Field::Collision(v) => {
            let mut v = v;
            v.push(s);
            Field::Collision(v)
        },
    }
}

} // verus!
