//! What every simulation offers: a step to the next generation.

use vstd::prelude::*;
use crate::good_evil::{GoodEvil, SimError, movers, moved_through};
use crate::field::{Field, count_of, energy_of};
use crate::life::{GameOfLife, next_board_cell};

verus! {

/// A simulation over cells of type `T`, advanced one generation at a time.
pub trait Simulation<T>: Sized {
    /// Whether the simulation is in a state it can be advanced from.
    spec fn ready(&self) -> bool;

    /// Whether one step from `before` may end in `after` with result `r`.
    spec fn advanced(before: Self, after: Self, r: Result<(), SimError>) -> bool;

    /// Moves on by one generation, or says why the simulation cannot go on.
    fn advance(&mut self) -> (r: Result<(), SimError>)
        requires
            old(self).ready(),
        ensures
            final(self).ready(),
            Self::advanced(*old(self), *final(self), r),
    ;
}

impl Simulation<bool> for GameOfLife {
    open spec fn ready(&self) -> bool {
        self.spec_board().wf()
    }

    /// The game always moves on, every cell by the rule of life.
    open spec fn advanced(before: GameOfLife, after: GameOfLife, r: Result<(), SimError>) -> bool {
        &&& r is Ok
        &&& after.spec_board().width() == before.spec_board().width()
        &&& after.spec_board().height() == before.spec_board().height()
        &&& after.spec_board()@.len() == before.spec_board()@.len()
        &&& forall|i: int|
            0 <= i < after.spec_board()@.len() ==> #[trigger] after.spec_board()@[i]
                == next_board_cell(before.spec_board(), i)
    }

    fn advance(&mut self) -> (r: Result<(), SimError>) {
        GameOfLife::advance(self);
        Ok(())
    }
}

impl Simulation<Field> for GoodEvil {
    open spec fn ready(&self) -> bool {
        self.wf()
    }

    /// As the engine's own step: extinction exactly when nobody survives the
    /// toll, success with a lone survivor, nothing changed on failure, success
    /// whenever the moves contest no cell, and on success the count kept and the
    /// energy conserved.
    open spec fn advanced(before: GoodEvil, after: GoodEvil, r: Result<(), SimError>) -> bool {
        let b = before.spec_board();
        let m = movers(b@, b.width() as int, before.spec_cfg()).len();
        &&& (r == Err::<(), SimError>(SimError::Extinct)) <==> m == 0
        &&& m == 1 ==> r is Ok
        &&& r is Err ==> after.spec_board() == b && after.spec_pool() == before.spec_pool()
            && after.spec_iteration() == before.spec_iteration()
        &&& r is Ok ==> {
            &&& count_of(after.spec_board()@) == m
            &&& energy_of(after.spec_board()@) + after.spec_pool() == energy_of(b@)
                + before.spec_pool()
        }
        &&& m > 0 ==> exists|t: Seq<(usize, usize)>|
            #[trigger] moved_through(
                b,
                before.spec_pool(),
                before.spec_cfg(),
                t,
                after.spec_board(),
                after.spec_pool(),
                r is Ok,
            )
    }

    fn advance(&mut self) -> (r: Result<(), SimError>) {
        let res = GoodEvil::advance(self);
        let r = match res {
            Ok(_) => Ok(()),
            Err(e) => Err(e),
        };
        proof {
            let b = old(self).spec_board();
            if movers(b@, b.width() as int, old(self).spec_cfg()).len() > 0 {
                let t = choose|t: Seq<(usize, usize)>|
                    #[trigger] moved_through(
                        b,
                        old(self).spec_pool(),
                        old(self).spec_cfg(),
                        t,
                        self.spec_board(),
                        self.spec_pool(),
                        res is Ok,
                    );
                assert(moved_through(
                    b,
                    old(self).spec_pool(),
                    old(self).spec_cfg(),
                    t,
                    self.spec_board(),
                    self.spec_pool(),
                    r is Ok,
                ));
            }
        }
        r
    }
}

} // verus!
