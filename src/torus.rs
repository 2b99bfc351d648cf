//! The eight neighbours of a cell on a grid whose edges wrap around.

use vstd::prelude::*;
use vstd::arithmetic::div_mod::lemma_fundamental_div_mod_converse;

verus! {

/// Coordinate `c + d - 1` on an axis of length `end` that wraps around.
pub open spec fn wrap(c: int, d: int, end: int) -> int {
    (c + d - 1) % end
}

/// Offset `k` of the eight neighbours within the 3x3 block, counted in raster
/// order with the centre (offset 4) left out.
pub open spec fn neighbor_offset(k: int) -> int {
    if k < 4 {
        k
    } else {
        k + 1
    }
}

/// The eight neighbours of `(x, y)` on an `x_end` x `y_end` torus: the 3x3
/// block around it in raster order, centre excluded.
pub open spec fn torus_neighbor_seq(x: usize, y: usize, x_end: usize, y_end: usize) -> Seq<
    (usize, usize),
> {
    Seq::new(
        8,
        |k: int|
            (
                wrap(x as int, neighbor_offset(k) % 3, x_end as int) as usize,
                wrap(y as int, neighbor_offset(k) / 3, y_end as int) as usize,
            ),
    )
}

/// `wrap` written out case by case for a coordinate on the axis.
proof fn lemma_wrap_cases(c: int, d: int, end: int)
    requires
        0 <= c < end,
        0 <= d <= 2,
    ensures
        c + d - 1 < 0 ==> wrap(c, d, end) == end - 1,
        c + d - 1 >= end ==> wrap(c, d, end) == 0,
        0 <= c + d - 1 < end ==> wrap(c, d, end) == c + d - 1,
{
    let v = c + d - 1;
    if v < 0 {
        lemma_fundamental_div_mod_converse(v, end, -1, end - 1);
    } else if v >= end {
        lemma_fundamental_div_mod_converse(v, end, 1, v - end);
    } else {
        lemma_fundamental_div_mod_converse(v, end, 0, v);
    }
}

/// `(c + d - 1) mod end`, for `c` on the axis and `d` one of 0, 1, 2.
fn torus_sub_1(c: usize, d: usize, end: usize) -> (r: usize)
    requires
        c < end,
        d <= 2,
    ensures
        r == wrap(c as int, d as int, end as int),
{
    proof {
        lemma_wrap_cases(c as int, d as int, end as int);
    }
    if d == 0 {
        if c == 0 {
            end - 1
        } else {
            c - 1
        }
    } else {
        let v = c + (d - 1);
        if v == end {
            0
        } else {
            v
        }
    }
}

/// The neighbours of one cell, handed out one at a time.
pub struct TorusNeighbors {
    x: usize,
    y: usize,
    idx: usize,
    x_end: usize,
    y_end: usize,
}

impl TorusNeighbors {
    #[verifier::type_invariant]
    closed spec fn inv(self) -> bool {
        &&& self.x < self.x_end
        &&& self.y < self.y_end
        &&& self.idx <= 9
        &&& self.idx != 4
    }

    /// How many neighbours have been handed out.
    closed spec fn taken(self) -> int {
        if self.idx <= 4 {
            self.idx as int
        } else {
            self.idx - 1
        }
    }
}

impl View for TorusNeighbors {
    type V = Seq<(usize, usize)>;

    /// The neighbours still to come.
    closed spec fn view(&self) -> Seq<(usize, usize)> {
        torus_neighbor_seq(self.x, self.y, self.x_end, self.y_end).subrange(self.taken(), 8)
    }
}

impl TorusNeighbors {
    /// Hands out the next neighbour, or `None` once all eight have been given.
    pub fn next(&mut self) -> (r: Option<(usize, usize)>)
        ensures
            old(self)@.len() == 0 ==> r is None && final(self)@ == old(self)@,
            old(self)@.len() > 0 ==> r == Some(old(self)@[0]) && final(self)@
                == old(self)@.drop_first(),
    {
        proof {
            use_type_invariant(&*self);
        }
        if self.idx == 9 {
            return None;
        }
        let x = torus_sub_1(self.x, self.idx % 3, self.x_end);
        let y = torus_sub_1(self.y, self.idx / 3, self.y_end);
        let next_idx = if self.idx == 3 {
            5
        } else {
            self.idx + 1
        };
        let ghost before = *self;
        *self = TorusNeighbors {
            x: self.x,
            y: self.y,
            idx: next_idx,
            x_end: self.x_end,
            y_end: self.y_end,
        };
        proof {
            assert(neighbor_offset(before.taken()) == before.idx);
        }
        Some((x, y))
    }
}

/// The eight neighbours of `(x, y)` on an `x_end` x `y_end` grid whose edges
/// wrap around.
pub fn torus_neighbors(x: usize, y: usize, x_end: usize, y_end: usize) -> (r: TorusNeighbors)
    requires
        x < x_end,
        y < y_end,
    ensures
        r@ == torus_neighbor_seq(x, y, x_end, y_end),
{
    TorusNeighbors { x, y, idx: 0, x_end, y_end }
}

/// On a grid at least three cells wide and high, the neighbours of a cell
/// are eight distinct cells of the grid, none of them the cell itself.
pub proof fn lemma_torus_neighbors_distinct(x: usize, y: usize, x_end: usize, y_end: usize)
    requires
        x < x_end,
        y < y_end,
        3 <= x_end,
        3 <= y_end,
    ensures
        torus_neighbor_seq(x, y, x_end, y_end).len() == 8,
        torus_neighbor_seq(x, y, x_end, y_end).no_duplicates(),
        !torus_neighbor_seq(x, y, x_end, y_end).contains((x, y)),
        forall|k: int|
            0 <= k < 8 ==> (#[trigger] torus_neighbor_seq(x, y, x_end, y_end)[k]).0 < x_end
                && torus_neighbor_seq(x, y, x_end, y_end)[k].1 < y_end,
{
    let s = torus_neighbor_seq(x, y, x_end, y_end);
    assert forall|d: int| 0 <= d <= 2 implies {
        &&& 0 <= #[trigger] wrap(x as int, d, x_end as int) < x_end
        &&& 0 <= wrap(y as int, d, y_end as int) < y_end
    } by {
        lemma_wrap_cases(x as int, d, x_end as int);
        lemma_wrap_cases(y as int, d, y_end as int);
    }
    assert forall|d1: int, d2: int|
        0 <= d1 <= 2 && 0 <= d2 <= 2 && d1 != d2 implies #[trigger] wrap(x as int, d1, x_end as int)
        != #[trigger] wrap(x as int, d2, x_end as int) && wrap(y as int, d1, y_end as int)
        != wrap(y as int, d2, y_end as int) by {
        lemma_wrap_cases(x as int, d1, x_end as int);
        lemma_wrap_cases(x as int, d2, x_end as int);
        lemma_wrap_cases(y as int, d1, y_end as int);
        lemma_wrap_cases(y as int, d2, y_end as int);
    }
    lemma_wrap_cases(x as int, 1, x_end as int);
    lemma_wrap_cases(y as int, 1, y_end as int);
    assert forall|i: int, j: int| 0 <= i < 8 && 0 <= j < 8 && i != j implies s[i] != s[j] by {
        let oi = neighbor_offset(i);
        let oj = neighbor_offset(j);
        assert(oi % 3 != oj % 3 || oi / 3 != oj / 3);
        assert(0 <= oi % 3 <= 2 && 0 <= oj % 3 <= 2 && 0 <= oi / 3 <= 2 && 0 <= oj / 3 <= 2);
        lemma_wrap_cases(x as int, oi % 3, x_end as int);
        lemma_wrap_cases(x as int, oj % 3, x_end as int);
        lemma_wrap_cases(y as int, oi / 3, y_end as int);
        lemma_wrap_cases(y as int, oj / 3, y_end as int);
    }
    assert forall|k: int| 0 <= k < 8 implies s[k] != (x, y) by {
        let o = neighbor_offset(k);
        assert(o % 3 != 1 || o / 3 != 1);
        assert(0 <= o % 3 <= 2 && 0 <= o / 3 <= 2);
        lemma_wrap_cases(x as int, o % 3, x_end as int);
        lemma_wrap_cases(y as int, o / 3, y_end as int);
    }
}

} // verus!
