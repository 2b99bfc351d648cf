//! Conway's Game of Life on a grid whose edges wrap around: each cell is
//! alive or dead, and lives on according to how many of its eight neighbours
//! are alive.

use vstd::prelude::*;
use crate::board::{Board, lemma_slot_in_bounds};
use crate::torus::{torus_neighbors, torus_neighbor_seq};
use crate::random::random_bool;

verus! {

/// How many of the cells listed in `s` are alive on `b`.
pub open spec fn alive_among(b: Board<bool>, s: Seq<(usize, usize)>) -> nat
    decreases s.len(),
{
    if s.len() == 0 {
        0
    } else {
        alive_among(b, s.drop_last()) + if b.cell(s.last().0 as int, s.last().1 as int) {
            1nat
        } else {
            0nat
        }
    }
}

/// How many of the eight neighbours of `(x, y)` are alive.
pub open spec fn alive_neighbors(b: Board<bool>, x: usize, y: usize) -> nat {
    alive_among(b, torus_neighbor_seq(x, y, b.width(), b.height()))
}

/// Whether a cell is alive in the next generation: a dead cell with exactly
/// three live neighbours comes alive, a live one with two or three stays.
pub open spec fn next_alive(alive: bool, neighbors: nat) -> bool {
    (!alive && neighbors == 3) || (alive && (neighbors == 2 || neighbors == 3))
}

/// The board a generation later.
pub open spec fn next_board_cell(b: Board<bool>, i: int) -> bool {
    next_alive(
        b@[i],
        alive_neighbors(b, (i % b.width() as int) as usize, (i / b.width() as int) as usize),
    )
}

/// A Game of Life in progress.
pub struct GameOfLife {
    board: Board<bool>,
}

impl GameOfLife {
    pub closed spec fn spec_board(&self) -> Board<bool> {
        self.board
    }

    /// A game starting from `board`.
    pub fn new(board: Board<bool>) -> (g: GameOfLife)
        ensures
            g.spec_board() == board,
    {
        GameOfLife { board }
    }

    /// The current generation.
    pub fn board(&self) -> (r: &Board<bool>)
        ensures
            *r == self.spec_board(),
    {
        &self.board
    }

    /// How many of the eight neighbours of `(x, y)` are alive.
    pub fn count_alive_neighbors(board: &Board<bool>, x: usize, y: usize) -> (r: usize)
        requires
            board.wf(),
            board.in_bounds(x as int, y as int),
        ensures
            r == alive_neighbors(*board, x, y),
    {
        let ghost all = torus_neighbor_seq(x, y, board.width(), board.height());
        let mut nbrs = torus_neighbors(x, y, board.width(), board.height());
        let mut nbrs_alive: usize = 0;
        let ghost mut taken: int = 0;
        loop
            invariant
                board.wf(),
                0 <= taken <= 8,
                nbrs@ == all.subrange(taken, 8),
                nbrs_alive == alive_among(*board, all.take(taken)),
                nbrs_alive <= taken,
                all == torus_neighbor_seq(x, y, board.width(), board.height()),
                forall|k: int|
                    0 <= k < 8 ==> board.in_bounds(
                        (#[trigger] all[k]).0 as int,
                        all[k].1 as int,
                    ),
            decreases 8 - taken,
        {
            match nbrs.next() {
                None => {
                    assert(all.take(taken) == all);
                    return nbrs_alive;
                },
                Some((nx, ny)) => {
                    assert(all.take(taken + 1).drop_last() == all.take(taken));
                    if *board.at(nx, ny) {
                        nbrs_alive += 1;
                    }
                    proof {
                        taken = taken + 1;
                    }
                },
            }
        }
    }

    /// The generation after `old`.
    pub fn advance_board(old: &Board<bool>) -> (new: Board<bool>)
        requires
            old.wf(),
        ensures
            new.wf(),
            new.width() == old.width(),
            new.height() == old.height(),
            forall|i: int| 0 <= i < new@.len() ==> #[trigger] new@[i] == next_board_cell(*old, i),
    {
        let w = old.width();
        let h = old.height();
        let mut cells: Vec<bool> = Vec::new();
        let mut y: usize = 0;
        while y < h
            invariant
                old.wf(),
                w == old.width(),
                h == old.height(),
                y <= h,
                cells.len() == y * w,
                forall|i: int| 0 <= i < cells.len() ==> #[trigger] cells@[i] == next_board_cell(*old, i),
            decreases h - y,
        {
            let mut x: usize = 0;
            while x < w
                invariant
                    old.wf(),
                    w == old.width(),
                    h == old.height(),
                    y < h,
                    x <= w,
                    cells.len() == y * w + x,
                    forall|i: int|
                        0 <= i < cells.len() ==> #[trigger] cells@[i] == next_board_cell(*old, i),
                decreases w - x,
            {
                proof {
                    lemma_slot_in_bounds(x as int, y as int, w as int, h as int);
                }
                let is_alive = *old.at(x, y);
                let nbrs_alive = GameOfLife::count_alive_neighbors(old, x, y);
                let alive = (!is_alive && nbrs_alive == 3) || (is_alive && (nbrs_alive == 2
                    || nbrs_alive == 3));
                cells.push(alive);
                x += 1;
            }
            assert((y + 1) * w == y * w + w) by (nonlinear_arith);
            y += 1;
        }
        assert(h * w == w * h) by (nonlinear_arith);
        Board::from_cells(w, h, cells)
    }

    /// Moves the game on by one generation.
    pub fn advance(&mut self)
        requires
            old(self).spec_board().wf(),
        ensures
            final(self).spec_board().wf(),
            final(self).spec_board().width() == old(self).spec_board().width(),
            final(self).spec_board().height() == old(self).spec_board().height(),
            forall|i: int|
                0 <= i < final(self).spec_board()@.len() ==> #[trigger] final(self).spec_board()@[i]
                    == next_board_cell(old(self).spec_board(), i),
    {
        self.board = GameOfLife::advance_board(&self.board);
    }
}

impl Board<bool> {
    /// A `width` x `height` board whose cells are drawn at random.
    pub fn new_random(width: usize, height: usize) -> (b: Board<bool>)
        requires
            width * height <= usize::MAX,
        ensures
            b.wf(),
            b.width() == width,
            b.height() == height,
    {
        let n: usize = width * height;
        let mut values: Vec<bool> = Vec::with_capacity(n);
        let mut i: usize = 0;
        while i < n
            invariant
                i <= n,
                values.len() == i,
            decreases n - i,
        {
            values.push(random_bool());
            i += 1;
        }
        Board::from_cells(width, height, values)
    }
}

} // verus!
