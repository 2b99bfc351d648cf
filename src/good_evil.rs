//! The specimen simulation: each generation every specimen pays an energy
//! toll and moves to a random nearby cell; specimens that meet in one cell
//! share out the energy pool and are pushed apart until no cell is contested.

use vstd::prelude::*;
use crate::board::{Board, slot, lemma_slot_in_bounds, lemma_coordinates_of_slot};
use vstd::arithmetic::div_mod::lemma_fundamental_div_mod_converse;
use crate::field::{
    Field,
    Specimen,
    Placement,
    merge,
    lists,
    lists_count,
    lists_energy,
    count_of,
    energy_of,
    energy_sum,
    is_stable,
    all_wf,
    empty_lists,
    place,
    place_all,
    placed_energy,
    lemma_lists_update,
    lemma_energy_sum_push,
    lemma_empty_lists,
    lemma_energy_sum_prefix,
    lemma_place_all_totals,
    placements_in_bounds,
};
use crate::random::{gen_range, shuffle};
use crate::split::{SplitPolicy, split_spec, split_energy};

verus! {

/// Parameters of a simulation. Energies are in fixed-point units.
#[derive(Clone, Copy, Debug, PartialEq, Eq, Structural)]
pub struct GoodEvilConfig {
    pub num_specimens: usize,
    pub initial_specimen_energy: u64,
    pub energy_loss_per_step: u64,
    pub deadly_energy_margin: u64,
}

/// Conditions under which the simulation cannot go on.
#[derive(Clone, Copy, Debug, PartialEq, Eq, Structural)]
pub enum SimError {
    /// The board is narrower or lower than two cells.
    BoardTooSmall,
    /// More specimens were asked for than the board has cells.
    TooManySpecimens,
    /// No empty cell turned up within as many random probes as the board has cells.
    SeedingExhausted,
    /// A collision has more contestants than there are cells around it.
    CrowdedCollision,
    /// Collisions were still left after the allowed number of resolution passes.
    NoConvergence,
    /// No specimen is left.
    Extinct,
}

/// The cell at slot `i` of a grid `w` cells wide.
pub open spec fn coord(i: int, w: int) -> (usize, usize) {
    ((i % w) as usize, (i / w) as usize)
}

/// Whether two cells are equal or touch, diagonals included.
pub open spec fn near(a: (usize, usize), b: (usize, usize)) -> bool {
    -1 <= a.0 - b.0 <= 1 && -1 <= a.1 - b.1 <= 1
}

/// Whether `s` outlives the toll of one generation.
pub open spec fn survives(s: Specimen, cfg: GoodEvilConfig) -> bool {
    s.energy >= cfg.energy_loss_per_step + cfg.deadly_energy_margin
}

/// `s` after paying the toll of one generation.
pub open spec fn decayed(s: Specimen, cfg: GoodEvilConfig) -> Specimen {
    Specimen { energy: (s.energy - cfg.energy_loss_per_step) as u64 }
}

/// The specimens that survive the toll, each with the cell it starts from,
/// in row-major order.
pub open spec fn movers(cells: Seq<Field>, w: int, cfg: GoodEvilConfig) -> Seq<Placement>
    decreases cells.len(),
{
    if cells.len() == 0 {
        Seq::empty()
    } else {
        let rest = movers(cells.drop_last(), w, cfg);
        match cells.last() {
            Field::Occupied(s) => if survives(s, cfg) {
                rest.push((coord(cells.len() - 1, w), decayed(s, cfg)))
            } else {
                rest
            },
            _ => rest,
        }
    }
}

/// The energy the pool gains from the toll: every specimen's toll, and all
/// the energy of those that die.
pub open spec fn decay_pool(cells: Seq<Field>, cfg: GoodEvilConfig) -> nat
    decreases cells.len(),
{
    if cells.len() == 0 {
        0
    } else {
        decay_pool(cells.drop_last(), cfg) + match cells.last() {
            Field::Occupied(s) => if survives(s, cfg) {
                cfg.energy_loss_per_step as nat
            } else {
                s.energy as nat
            },
            _ => 0nat,
        }
    }
}

/// The placements `ps` sent to the cells `targets` instead.
pub open spec fn retarget(ps: Seq<Placement>, targets: Seq<(usize, usize)>) -> Seq<Placement> {
    Seq::new(ps.len(), |k: int| (targets[k], ps[k].1))
}

/// Whether every cell of `t` lies on a `w` x `h` grid.
pub open spec fn all_in_bounds(t: Seq<(usize, usize)>, w: int, h: int) -> bool {
    forall|k: int| 0 <= k < t.len() ==> (#[trigger] t[k]).0 < w && t[k].1 < h
}

/// The lists of a board after `f` is put at slot `i`.
proof fn lemma_lists_after_update(cells: Seq<Field>, i: int, f: Field)
    requires
        0 <= i < cells.len(),
    ensures
        lists(cells.update(i, f)) == lists(cells).update(i, f.specimens()),
{
    assert(lists(cells.update(i, f)) =~= lists(cells).update(i, f.specimens()));
}

/// The lists of the first `i + 1` cells.
proof fn lemma_lists_take(cells: Seq<Field>, i: int)
    requires
        0 <= i < cells.len(),
    ensures
        lists(cells.take(i + 1)) == lists(cells.take(i)).push(cells[i].specimens()),
        lists(cells.take(i + 1)).drop_last() == lists(cells.take(i)),
        lists(cells.take(i + 1)).last() == cells[i].specimens(),
        cells.take(i + 1).drop_last() == cells.take(i),
        cells.take(i + 1).last() == cells[i],
{
    assert(lists(cells.take(i + 1)) =~= lists(cells.take(i)).push(cells[i].specimens()));
    assert(cells.take(i + 1).drop_last() =~= cells.take(i));
}

proof fn lemma_lists_energy_prefix(l: Seq<Seq<Specimen>>, k: int)
    requires
        0 <= k <= l.len(),
    ensures
        lists_energy(l.take(k)) <= lists_energy(l),
        lists_count(l.take(k)) <= lists_count(l),
    decreases l.len() - k,
{
    if k < l.len() {
        assert(l.take(k + 1).drop_last() == l.take(k));
        lemma_lists_energy_prefix(l, k + 1);
    } else {
        assert(l.take(k) == l);
    }
}

/// A board of `width` x `height` empty cells.
pub fn empty_board(width: usize, height: usize) -> (b: Board<Field>)
    requires
        width * height <= usize::MAX,
    ensures
        b.wf(),
        b.width() == width,
        b.height() == height,
        lists(b@) == empty_lists((width * height) as nat),
        is_stable(b@),
        all_wf(b@),
        forall|i: int| 0 <= i < b@.len() ==> #[trigger] b@[i] is Empty,
{
    let n: usize = width * height;
    let mut cells: Vec<Field> = Vec::with_capacity(n);
    let mut i: usize = 0;
    while i < n
        invariant
            i <= n,
            cells.len() == i,
            forall|j: int| 0 <= j < i ==> #[trigger] cells@[j] is Empty,
        decreases n - i,
    {
        cells.push(Field::Empty);
        i += 1;
    }
    let b = Board::from_cells(width, height, cells);
    assert(lists(b@) =~= empty_lists((width * height) as nat));
    b
}

/// Places `specimen` into the cell `(dst_x, dst_y)` of the board under
/// construction, by the merge rule.
pub fn move_specimen(specimen: Specimen, dst_x: usize, dst_y: usize, new: &mut Board<Field>)
    requires
        old(new).wf(),
        old(new).in_bounds(dst_x as int, dst_y as int),
        all_wf(old(new)@),
    ensures
        final(new).wf(),
        final(new).width() == old(new).width(),
        final(new).height() == old(new).height(),
        all_wf(final(new)@),
        lists(final(new)@) == place(
            lists(old(new)@),
            old(new).width() as int,
            ((dst_x, dst_y), specimen),
        ),
        lists_count(lists(final(new)@)) == lists_count(lists(old(new)@)) + 1,
        lists_energy(lists(final(new)@)) == lists_energy(lists(old(new)@)) + specimen.energy,
{
    let ghost before = *new;
    let ghost i = slot(dst_x as int, dst_y as int, new.width() as int);
    proof {
        lemma_slot_in_bounds(dst_x as int, dst_y as int, new.width() as int, new.height() as int);
    }
    let target_field: &mut Field = new.at_mut(dst_x, dst_y);
    let mut current = Field::Empty;
    std::mem::swap(target_field, &mut current);
    *target_field = merge(current, specimen);
    proof {
        let f = new@[i];
        lemma_lists_after_update(before@, i, f);
        lemma_lists_update(lists(before@), i, f.specimens());
        lemma_energy_sum_push(before@[i].specimens(), specimen);
        assert(new@ == before@.update(i, f));
    }
}

/// A random cell within one step of `(x, y)`, diagonals included, that lies
/// on a `width` x `height` grid.
fn get_new_coords(x: usize, y: usize, width: usize, height: usize, rng: &mut rand::StdRng) -> (r: (
    usize,
    usize,
))
    requires
        x < width,
        y < height,
    ensures
        r.0 < width,
        r.1 < height,
        near(r, (x, y)),
{
    let min_x = if x == 0 {
        0
    } else {
        x - 1
    };
    let max_x = if x + 1 < width {
        x + 2
    } else {
        width
    };
    let min_y = if y == 0 {
        0
    } else {
        y - 1
    };
    let max_y = if y + 1 < height {
        y + 2
    } else {
        height
    };
    let nx = gen_range(rng, min_x, max_x);
    let ny = gen_range(rng, min_y, max_y);
    (nx, ny)
}

/// Picks at random, for each specimen that survives the toll, the cell it
/// moves to: one within a step of where it stands.
pub fn draw_moves(old: &Board<Field>, cfg: &GoodEvilConfig, rng: &mut rand::StdRng) -> (r: Vec<
    (usize, usize),
>)
    requires
        old.wf(),
    ensures
        r.len() == movers(old@, old.width() as int, *cfg).len(),
        all_in_bounds(r@, old.width() as int, old.height() as int),
        forall|k: int|
            0 <= k < r.len() ==> near(
                #[trigger] r@[k],
                movers(old@, old.width() as int, *cfg)[k].0,
            ),
{
    let w = old.width();
    let h = old.height();
    let cells = old.cells();
    let n = cells.len();
    let ghost m = movers(old@, w as int, *cfg);
    let mut targets: Vec<(usize, usize)> = Vec::new();
    let mut i: usize = 0;
    while i < n
        invariant
            n == cells.len(),
            cells@ == old@,
            old.wf(),
            w == old.width(),
            h == old.height(),
            i <= n,
            targets.len() == movers(old@.take(i as int), w as int, *cfg).len(),
            all_in_bounds(targets@, w as int, h as int),
            forall|k: int|
                0 <= k < targets.len() ==> near(
                    #[trigger] targets@[k],
                    movers(old@.take(i as int), w as int, *cfg)[k].0,
                ),
        decreases n - i,
    {
        let ghost prev = movers(old@.take(i as int), w as int, *cfg);
        proof {
            lemma_lists_take(old@, i as int);
        }
        match &cells[i] {
            Field::Occupied(s) => {
                if s.energy >= cfg.energy_loss_per_step && s.energy - cfg.energy_loss_per_step
                    >= cfg.deadly_energy_margin {
                    proof {
                        lemma_coordinates_of_slot(i as int, w as int, h as int);
                    }
                    let t = get_new_coords(i % w, i / w, w, h, rng);
                    targets.push(t);
                    proof {
                        let cur = movers(old@.take(i + 1), w as int, *cfg);
                        assert(cur == prev.push((coord(i as int, w as int), decayed(*s, *cfg))));
                        assert forall|k: int| 0 <= k < targets.len() implies near(
                            #[trigger] targets@[k],
                            cur[k].0,
                        ) by {
                            if k < prev.len() {
                                assert(cur[k] == prev[k]);
                            }
                        }
                    }
                }
            },
            _ => {},
        }
        i += 1;
    }
    proof {
        assert(old@.take(n as int) == old@);
    }
    targets
}

/// Each specimen pays the toll, and the survivors are placed one by one,
/// in row-major order of where they stand, into the cells `targets` gives
/// them, on a fresh board. Returns the new board and the energy the pool
/// gains.
pub fn move_phase(old: &Board<Field>, cfg: &GoodEvilConfig, targets: &Vec<(usize, usize)>) -> (r: (
    Board<Field>,
    u64,
))
    requires
        old.wf(),
        is_stable(old@),
        energy_of(old@) <= u64::MAX,
        targets.len() == movers(old@, old.width() as int, *cfg).len(),
        all_in_bounds(targets@, old.width() as int, old.height() as int),
    ensures
        r.0.wf(),
        r.0.width() == old.width(),
        r.0.height() == old.height(),
        all_wf(r.0@),
        lists(r.0@) == place_all(
            empty_lists(old@.len()),
            old.width() as int,
            retarget(movers(old@, old.width() as int, *cfg), targets@),
        ),
        r.1 == decay_pool(old@, *cfg),
        count_of(r.0@) == movers(old@, old.width() as int, *cfg).len(),
        energy_of(r.0@) + r.1 == energy_of(old@),
{
    let w = old.width();
    let h = old.height();
    let cells = old.cells();
    let n = cells.len();
    let mut new = empty_board(w, h);
    proof {
        lemma_empty_lists(n as nat);
    }
    let mut gained: u64 = 0;
    let mut k: usize = 0;
    let mut i: usize = 0;
    while i < n
        invariant
            n == cells.len(),
            cells@ == old@,
            old.wf(),
            is_stable(old@),
            energy_of(old@) <= u64::MAX,
            w == old.width(),
            h == old.height(),
            targets.len() == movers(old@, w as int, *cfg).len(),
            all_in_bounds(targets@, w as int, h as int),
            i <= n,
            k == movers(old@.take(i as int), w as int, *cfg).len(),
            k <= targets.len(),
            new.wf(),
            new.width() == w,
            new.height() == h,
            all_wf(new@),
            lists(new@) == place_all(
                empty_lists(n as nat),
                w as int,
                retarget(movers(old@.take(i as int), w as int, *cfg), targets@),
            ),
            lists_count(lists(new@)) == k,
            lists_energy(lists(new@)) == placed_energy(
                retarget(movers(old@.take(i as int), w as int, *cfg), targets@),
            ),
            gained == decay_pool(old@.take(i as int), *cfg),
            gained + placed_energy(retarget(movers(old@.take(i as int), w as int, *cfg), targets@))
                == energy_of(old@.take(i as int)),
        decreases n - i,
    {
        let ghost prev_m = movers(old@.take(i as int), w as int, *cfg);
        let ghost prev_r = retarget(prev_m, targets@);
        proof {
            lemma_lists_take(old@, i as int);
            lemma_lists_energy_prefix(lists(old@), i + 1);
            assert(lists(old@).take(i + 1) == lists(old@.take(i + 1)));
            lemma_movers_prefix_len(old@, w as int, *cfg, i + 1);
        }
        match &cells[i] {
            Field::Occupied(s) => {
                if s.energy >= cfg.energy_loss_per_step && s.energy - cfg.energy_loss_per_step
                    >= cfg.deadly_energy_margin {
                    let moved = Specimen { energy: s.energy - cfg.energy_loss_per_step };
                    let t = targets[k];
                    proof {
                        let cur_m = movers(old@.take(i + 1), w as int, *cfg);
                        assert(cur_m == prev_m.push((coord(i as int, w as int), moved)));
                        let cur_r = retarget(cur_m, targets@);
                        assert(cur_r =~= prev_r.push((t, moved)));
                        assert(cur_r.drop_last() == prev_r);
                        assert(old@.take(i + 1).last() == old@[i as int]);
                        lemma_energy_sum_one(*s);
                    }
                    move_specimen(moved, t.0, t.1, &mut new);
                    gained = gained + cfg.energy_loss_per_step;
                    k += 1;
                } else {
                    proof {
                        lemma_energy_sum_one(*s);
                    }
                    gained = gained + s.energy;
                }
            },
            Field::Empty => {},
            Field::Collision(_) => {
                proof {
                    assert(!(old@[i as int] is Collision));
                }
            },
        }
        i += 1;
    }
    proof {
        assert(old@.take(n as int) == old@);
        let ps = retarget(movers(old@, w as int, *cfg), targets@);
        assert(placements_in_bounds(ps, w as int, h as int)) by {
            assert forall|j: int| 0 <= j < ps.len() implies 0 <= (#[trigger] ps[j]).0.0 < w
                && 0 <= ps[j].0.1 < h by {
                assert(ps[j].0 == targets@[j]);
            }
        }
        lemma_place_all_totals(empty_lists(n as nat), w as int, h as int, ps);
    }
    (new, gained)
}

proof fn lemma_energy_sum_one(s: Specimen)
    ensures
        energy_sum(seq![s]) == s.energy,
{
    let one = seq![s];
    assert(one.drop_last() == Seq::<Specimen>::empty());
    assert(one.last() == s);
    assert(energy_sum(Seq::<Specimen>::empty()) == 0);
}

proof fn lemma_movers_prefix_len(cells: Seq<Field>, w: int, cfg: GoodEvilConfig, i: int)
    requires
        0 <= i <= cells.len(),
    ensures
        movers(cells.take(i), w, cfg).len() <= movers(cells, w, cfg).len(),
    decreases cells.len() - i,
{
    if i < cells.len() {
        assert(cells.take(i + 1).drop_last() == cells.take(i));
        lemma_movers_prefix_len(cells, w, cfg, i + 1);
    } else {
        assert(cells.take(i) == cells);
    }
}

/// How many cells hold a collision.
pub open spec fn collision_cells(cells: Seq<Field>) -> nat
    decreases cells.len(),
{
    if cells.len() == 0 {
        0
    } else {
        collision_cells(cells.drop_last()) + if cells.last() is Collision {
            1nat
        } else {
            0nat
        }
    }
}

/// How many specimens are contesting a cell.
pub open spec fn contested(cells: Seq<Field>) -> nat
    decreases cells.len(),
{
    if cells.len() == 0 {
        0
    } else {
        contested(cells.drop_last()) + if cells.last() is Collision {
            cells.last().specimens().len()
        } else {
            0nat
        }
    }
}

/// The cell lists handed to a resolution pass, one per collision.
pub open spec fn spots_view(s: Seq<Vec<(usize, usize)>>) -> Seq<Seq<(usize, usize)>> {
    s.map_values(|v: Vec<(usize, usize)>| v@)
}

/// The contestants `parts` sent to the first cells of `spots`, in order.
pub open spec fn scatter(parts: Seq<Specimen>, spots: Seq<(usize, usize)>) -> Seq<Placement> {
    Seq::new(parts.len(), |j: int| (spots[j], parts[j]))
}

/// What each contestant is entitled to in a pass: the pool shared evenly
/// among the `c` contestants, or nothing when there are none.
pub open spec fn pass_gain(pool: nat, c: nat) -> nat {
    if c == 0 {
        0
    } else {
        pool / c
    }
}

/// The energy a collision of `n` contestants is entitled to.
pub open spec fn entitlement(n: nat, gain: nat) -> nat {
    n * gain
}

/// What a resolution pass places, in order: each lone specimen stays where it
/// is; the contestants of the `k`-th collision, after sharing its entitlement
/// by `policy`, go to the first cells of `spots[k]`.
pub open spec fn resolve_moves(
    cells: Seq<Field>,
    w: int,
    gain: nat,
    policy: SplitPolicy,
    spots: Seq<Seq<(usize, usize)>>,
) -> Seq<Placement>
    decreases cells.len(),
{
    if cells.len() == 0 {
        Seq::empty()
    } else {
        let rest = resolve_moves(cells.drop_last(), w, gain, policy, spots);
        match cells.last() {
            Field::Empty => rest,
            Field::Occupied(s) => rest.push((coord(cells.len() - 1, w), s)),
            Field::Collision(v) => rest + scatter(
                split_spec(policy, v@, entitlement(v@.len(), gain)).0,
                spots[collision_cells(cells.drop_last()) as int],
            ),
        }
    }
}

/// The energy the splits of a resolution pass leave undistributed.
pub open spec fn split_leftover(cells: Seq<Field>, gain: nat, policy: SplitPolicy) -> nat
    decreases cells.len(),
{
    if cells.len() == 0 {
        0
    } else {
        split_leftover(cells.drop_last(), gain, policy) + match cells.last() {
            Field::Collision(v) => split_spec(policy, v@, entitlement(v@.len(), gain)).1,
            _ => 0nat,
        }
    }
}

/// Whether some collision has fewer cells to go to than contestants.
pub open spec fn crowded(cells: Seq<Field>, spots: Seq<Seq<(usize, usize)>>) -> bool
    decreases cells.len(),
{
    if cells.len() == 0 {
        false
    } else {
        crowded(cells.drop_last(), spots) || (cells.last() is Collision && spots[collision_cells(
            cells.drop_last(),
        ) as int].len() < cells.last().specimens().len())
    }
}

proof fn lemma_prefix_measures(cells: Seq<Field>, spots: Seq<Seq<(usize, usize)>>, i: int)
    requires
        0 <= i <= cells.len(),
    ensures
        collision_cells(cells.take(i)) <= collision_cells(cells),
        contested(cells.take(i)) <= contested(cells),
        contested(cells.take(i)) <= count_of(cells.take(i)),
        crowded(cells.take(i), spots) ==> crowded(cells, spots),
    decreases cells.len() - i,
{
    lemma_contested_le_count(cells.take(i));
    if i < cells.len() {
        assert(cells.take(i + 1).drop_last() == cells.take(i));
        lemma_prefix_measures(cells, spots, i + 1);
    } else {
        assert(cells.take(i) == cells);
    }
}

proof fn lemma_contested_le_count(cells: Seq<Field>)
    ensures
        contested(cells) <= count_of(cells),
    decreases cells.len(),
{
    if cells.len() > 0 {
        lemma_contested_le_count(cells.drop_last());
        assert(lists(cells.drop_last()) == lists(cells).drop_last());
    }
}

/// Whether any cell holds a collision.
pub fn has_collisions(board: &Board<Field>) -> (r: bool)
    ensures
        r == !is_stable(board@),
{
    let cells = board.cells();
    let mut i: usize = 0;
    while i < cells.len()
        invariant
            cells@ == board@,
            i <= cells.len(),
            forall|j: int| 0 <= j < i ==> !(#[trigger] cells@[j] is Collision),
        decreases cells.len() - i,
    {
        if cells[i].is_collision() {
            return true;
        }
        i += 1;
    }
    false
}

/// How many specimens are contesting a cell.
pub fn count_collisions(board: &Board<Field>) -> (r: usize)
    requires
        count_of(board@) <= usize::MAX,
    ensures
        r == contested(board@),
{
    let cells = board.cells();
    let mut sum: usize = 0;
    let mut i: usize = 0;
    while i < cells.len()
        invariant
            cells@ == board@,
            count_of(board@) <= usize::MAX,
            i <= cells.len(),
            sum == contested(board@.take(i as int)),
        decreases cells.len() - i,
    {
        proof {
            lemma_lists_take(board@, i as int);
            lemma_prefix_measures(board@, Seq::empty(), i + 1);
            lemma_lists_energy_prefix(lists(board@), i + 1);
            assert(lists(board@).take(i + 1) == lists(board@.take(i + 1)));
        }
        if cells[i].is_collision() {
            sum = sum + cells[i].count();
        }
        i += 1;
    }
    assert(board@.take(cells.len() as int) == board@);
    sum
}

/// How many specimens the board holds.
pub fn count_specimens(board: &Board<Field>) -> (r: usize)
    requires
        count_of(board@) <= usize::MAX,
    ensures
        r == count_of(board@),
{
    let cells = board.cells();
    let mut sum: usize = 0;
    let mut i: usize = 0;
    while i < cells.len()
        invariant
            cells@ == board@,
            count_of(board@) <= usize::MAX,
            i <= cells.len(),
            sum == count_of(board@.take(i as int)),
        decreases cells.len() - i,
    {
        proof {
            lemma_lists_take(board@, i as int);
            lemma_lists_energy_prefix(lists(board@), i + 1);
            assert(lists(board@).take(i + 1) == lists(board@.take(i + 1)));
        }
        sum = sum + cells[i].count();
        i += 1;
    }
    assert(board@.take(cells.len() as int) == board@);
    sum
}

/// The energy the specimens on the board hold together.
pub fn total_energy(board: &Board<Field>) -> (r: u64)
    requires
        energy_of(board@) <= u64::MAX,
    ensures
        r == energy_of(board@),
{
    let cells = board.cells();
    let mut sum: u64 = 0;
    let mut i: usize = 0;
    while i < cells.len()
        invariant
            cells@ == board@,
            energy_of(board@) <= u64::MAX,
            i <= cells.len(),
            sum == energy_of(board@.take(i as int)),
        decreases cells.len() - i,
    {
        proof {
            lemma_lists_take(board@, i as int);
            lemma_lists_energy_prefix(lists(board@), i + 1);
            assert(lists(board@).take(i + 1) == lists(board@.take(i + 1)));
        }
        let part = cell_energy(&cells[i]);
        sum = sum + part;
        i += 1;
    }
    assert(board@.take(cells.len() as int) == board@);
    sum
}

/// The energy the specimens of one cell hold together.
fn cell_energy(f: &Field) -> (r: u64)
    requires
        energy_sum(f.specimens()) <= u64::MAX,
    ensures
        r == energy_sum(f.specimens()),
{
    match f {
        Field::Empty => 0,
        Field::Occupied(s) => {
            proof {
                lemma_energy_sum_one(*s);
            }
            s.energy
        },
        Field::Collision(v) => {
            let mut sum: u64 = 0;
            let mut i: usize = 0;
            while i < v.len()
                invariant
                    i <= v.len(),
                    energy_sum(v@) <= u64::MAX,
                    sum == energy_sum(v@.take(i as int)),
                decreases v.len() - i,
            {
                proof {
                    assert(v@.take(i + 1) == v@.take(i as int).push(v@[i as int]));
                    lemma_energy_sum_push(v@.take(i as int), v@[i as int]);
                    lemma_energy_sum_prefix(v@, i + 1);
                }
                sum = sum + v[i].energy;
                i += 1;
            }
            assert(v@.take(v.len() as int) == v@);
            sum
        },
    }
}

/// One resolution pass over `old`. The pool is shared out evenly per
/// contestant: each collision is entitled to its number of contestants times
/// `pool / contested`, which it splits by `policy`; its contestants then go,
/// in split order, to the first cells of `spots[k]` (`k` counting the
/// collisions in row-major order). Lone specimens stay where they are. All are
/// placed by the merge rule on a fresh board, in row-major order of the cell
/// they come from. Returns the new board and the energy left in the pool, or
/// `CrowdedCollision` when some collision has fewer cells to go to than
/// contestants.
pub fn resolve_pass(
    old: &Board<Field>,
    pool: u64,
    policy: SplitPolicy,
    spots: &Vec<Vec<(usize, usize)>>,
) -> (r: Result<(Board<Field>, u64), SimError>)
    requires
        old.wf(),
        all_wf(old@),
        count_of(old@) <= usize::MAX,
        energy_of(old@) + pool <= u64::MAX,
        spots.len() == collision_cells(old@),
        forall|k: int|
            0 <= k < spots.len() ==> all_in_bounds(
                (#[trigger] spots@[k])@,
                old.width() as int,
                old.height() as int,
            ),
    ensures
        r is Err <==> crowded(old@, spots_view(spots@)),
        r is Err ==> r == Err::<(Board<Field>, u64), SimError>(SimError::CrowdedCollision),
        r matches Ok((new, left)) ==> {
            let gain = pass_gain(pool as nat, contested(old@));
            &&& new.wf()
            &&& new.width() == old.width()
            &&& new.height() == old.height()
            &&& all_wf(new@)
            &&& lists(new@) == place_all(
                empty_lists(old@.len()),
                old.width() as int,
                resolve_moves(old@, old.width() as int, gain, policy, spots_view(spots@)),
            )
            &&& left == pool - contested(old@) * gain + split_leftover(old@, gain, policy)
            &&& count_of(new@) == count_of(old@)
            &&& energy_of(new@) + left == energy_of(old@) + pool
            &&& is_stable(old@) ==> lists(new@) == lists(old@) && left == pool
        },
        is_stable(old@) ==> r is Ok,
{
    let w = old.width();
    let h = old.height();
    let cells = old.cells();
    let n = cells.len();
    let ghost sv = spots_view(spots@);
    let total = count_collisions(old);
    let gain: u64 = if total == 0 {
        0
    } else {
        pool / (total as u64)
    };
    let ghost c = contested(old@);
    let ghost g = gain as nat;
    proof {
        if c > 0 {
            assert(c * g <= pool) by (nonlinear_arith)
                requires
                    g == pool as int / (c as int),
                    c > 0,
            ;
        }
        lemma_empty_lists(n as nat);
    }
    let mut new = empty_board(w, h);
    let mut left: u64 = pool;
    let mut k: usize = 0;
    proof {
        assert(old@.take(0) == Seq::<Field>::empty());
        assert(contested(old@.take(0)) == 0);
        assert(split_leftover(old@.take(0), g, policy) == 0);
        assert(0 * g == 0);
    }
    let mut i: usize = 0;
    while i < n
        invariant
            n == cells.len(),
            cells@ == old@,
            old.wf(),
            all_wf(old@),
            w == old.width(),
            h == old.height(),
            count_of(old@) <= usize::MAX,
            energy_of(old@) + pool <= u64::MAX,
            spots.len() == collision_cells(old@),
            forall|k: int|
                0 <= k < spots.len() ==> all_in_bounds((#[trigger] spots@[k])@, w as int, h as int),
            sv == spots_view(spots@),
            c == contested(old@),
            g == gain,
            c * g <= pool,
            i <= n,
            k == collision_cells(old@.take(i as int)),
            k <= spots.len(),
            !crowded(old@.take(i as int), sv),
            new.wf(),
            new.width() == w,
            new.height() == h,
            all_wf(new@),
            lists(new@) == place_all(
                empty_lists(n as nat),
                w as int,
                resolve_moves(old@.take(i as int), w as int, g, policy, sv),
            ),
            lists_count(lists(new@)) == count_of(old@.take(i as int)),
            lists_energy(lists(new@)) + left == energy_of(old@.take(i as int)) + pool,
            left == pool - contested(old@.take(i as int)) * g + split_leftover(
                old@.take(i as int),
                g,
                policy,
            ),
            new@.len() == n,
            is_stable(old@) ==> left == pool,
            is_stable(old@) ==> forall|j: int|
                0 <= j < n ==> #[trigger] lists(new@)[j] == if j < i {
                    lists(old@)[j]
                } else {
                    Seq::<Specimen>::empty()
                },
        decreases n - i,
    {
        let ghost prev = resolve_moves(old@.take(i as int), w as int, g, policy, sv);
        let ghost ci = contested(old@.take(i as int));
        proof {
            lemma_lists_take(old@, i as int);
            lemma_lists_energy_prefix(lists(old@), i + 1);
            assert(lists(old@).take(i + 1) == lists(old@.take(i + 1)));
            lemma_prefix_measures(old@, sv, i + 1);
        }
        match &cells[i] {
            Field::Empty => {},
            Field::Occupied(s) => {
                proof {
                    lemma_coordinates_of_slot(i as int, w as int, h as int);
                    lemma_energy_sum_one(*s);
                    let cur = resolve_moves(old@.take(i + 1), w as int, g, policy, sv);
                    assert(cur == prev.push((coord(i as int, w as int), *s)));
                    assert(cur.drop_last() == prev);
                }
                let ghost before = lists(new@);
                move_specimen(*s, i % w, i / w, &mut new);
                proof {
                    if is_stable(old@) {
                        assert(slot((i % w) as int, (i / w) as int, w as int) == i);
                        assert(lists(new@) == before.update(i as int, before[i as int].push(*s)));
                        assert(before[i as int] == Seq::<Specimen>::empty());
                        assert(lists(old@)[i as int] == seq![*s]);
                        assert(seq![*s] == Seq::<Specimen>::empty().push(*s));
                    }
                }
            },
            Field::Collision(v) => {
                proof {
                    assert(old@[i as int] is Collision);
                }
                let positions = &spots[k];
                if positions.len() < v.len() {
                    proof {
                        assert(sv[k as int] == positions@);
                        assert(crowded(old@.take(i + 1), sv));
                    }
                    return Err(SimError::CrowdedCollision);
                }
                proof {
                    assert(ci + v@.len() <= c);
                    assert(v@.len() * g <= left) by (nonlinear_arith)
                        requires
                            left >= pool - ci * g,
                            c * g <= pool,
                            ci + v@.len() <= c,
                            g >= 0,
                    ;
                    assert(v@.len() * g <= pool) by (nonlinear_arith)
                        requires
                            c * g <= pool,
                            v@.len() <= c,
                            g >= 0,
                    ;
                }
                let avail: u64 = (v.len() as u64) * gain;
                let (parts, rest) = split_energy(policy, v, avail);
                let ghost base = lists(new@);
                let ghost chunk = scatter(parts@, positions@);
                let mut j: usize = 0;
                while j < parts.len()
                    invariant
                        j <= parts.len(),
                        parts.len() == v.len(),
                        v.len() <= positions.len(),
                        all_in_bounds(positions@, w as int, h as int),
                        chunk == scatter(parts@, positions@),
                        new.wf(),
                        new.width() == w,
                        new.height() == h,
                        all_wf(new@),
                        lists(new@) == place_all(
                            empty_lists(n as nat),
                            w as int,
                            prev + chunk.take(j as int),
                        ),
                        lists_count(lists(new@)) == lists_count(base) + j,
                        lists_energy(lists(new@)) == lists_energy(base) + energy_sum(
                            parts@.take(j as int),
                        ),
                        base == place_all(empty_lists(n as nat), w as int, prev),
                    decreases parts.len() - j,
                {
                    let spot = positions[j];
                    proof {
                        assert(prev + chunk.take(j + 1) == (prev + chunk.take(j as int)).push(
                            (spot, parts@[j as int]),
                        ));
                        assert((prev + chunk.take(j + 1)).drop_last() == prev + chunk.take(
                            j as int,
                        ));
                        assert(parts@.take(j + 1) == parts@.take(j as int).push(parts@[j as int]));
                        lemma_energy_sum_push(parts@.take(j as int), parts@[j as int]);
                    }
                    move_specimen(parts[j], spot.0, spot.1, &mut new);
                    j += 1;
                }
                proof {
                    assert(prev + chunk.take(0) == prev);
                    assert(chunk.take(chunk.len() as int) == chunk);
                    assert(parts@.take(parts.len() as int) == parts@);
                    assert(sv[k as int] == positions@);
                    let cur = resolve_moves(old@.take(i + 1), w as int, g, policy, sv);
                    assert(cur == prev + chunk);
                }
                proof {
                    assert((ci + v@.len()) * g == ci * g + v@.len() * g) by (nonlinear_arith);
                    assert(avail as nat == entitlement(v@.len(), g));
                    assert(contested(old@.take(i + 1)) == ci + v@.len());
                }
                left = left - avail + rest;
                k += 1;
            },
        }
        i += 1;
    }
    proof {
        assert(old@.take(n as int) == old@);
        if is_stable(old@) {
            assert(lists(new@) =~= lists(old@));
        }
    }
    Ok((new, left))
}

/// First cell of the block around `c`, the grid's edge cutting it off.
pub open spec fn clamp_lo(c: int) -> int {
    if c == 0 {
        0
    } else {
        c - 1
    }
}

/// One past the last cell of the block around `c` on an axis of length `end`.
pub open spec fn clamp_hi(c: int, end: int) -> int {
    if c + 2 <= end {
        c + 2
    } else {
        end
    }
}

/// The cells of the 3x3 block around `(x, y)` that lie on a `w` x `h` grid,
/// column by column, each column from the top.
pub open spec fn surrounding(x: usize, y: usize, w: usize, h: usize) -> Seq<(usize, usize)> {
    let lx = clamp_lo(x as int);
    let ly = clamp_lo(y as int);
    let nx = clamp_hi(x as int, w as int) - lx;
    let ny = clamp_hi(y as int, h as int) - ly;
    Seq::new((ny * nx) as nat, |i: int| ((lx + i / ny) as usize, (ly + i % ny) as usize))
}

/// The block around a cell holds distinct cells of the grid, each within a
/// step of it, and at least four of them on a grid at least two cells wide and
/// high.
pub proof fn lemma_surrounding(x: usize, y: usize, w: usize, h: usize)
    requires
        x < w,
        y < h,
    ensures
        surrounding(x, y, w, h).no_duplicates(),
        all_in_bounds(surrounding(x, y, w, h), w as int, h as int),
        forall|j: int|
            0 <= j < surrounding(x, y, w, h).len() ==> near(
                #[trigger] surrounding(x, y, w, h)[j],
                (x, y),
            ),
        w >= 2 && h >= 2 ==> surrounding(x, y, w, h).len() >= 4,
{
    let s = surrounding(x, y, w, h);
    let lx = clamp_lo(x as int);
    let ly = clamp_lo(y as int);
    let nx = clamp_hi(x as int, w as int) - lx;
    let ny = clamp_hi(y as int, h as int) - ly;
    assert forall|j: int| 0 <= j < s.len() implies {
        &&& lx <= (#[trigger] s[j]).0 < lx + nx
        &&& ly <= s[j].1 < ly + ny
        &&& j == (s[j].0 - lx) * ny + (s[j].1 - ly)
    } by {
        lemma_coordinates_of_slot(j, ny, nx);
    }
    assert forall|j: int| 0 <= j < s.len() implies near(#[trigger] s[j], (x, y)) by {}
    assert forall|i: int, j: int| 0 <= i < s.len() && 0 <= j < s.len() && i != j implies s[i]
        != s[j] by {}
    if w >= 2 && h >= 2 {
        assert(ny * nx >= 4) by (nonlinear_arith)
            requires
                nx >= 2,
                ny >= 2,
        ;
    }
}

/// The cells of the 3x3 block around `(x, y)` that lie on a `width` x
/// `height` grid.
pub fn surrounding_fields(x: usize, y: usize, width: usize, height: usize) -> (r: Vec<
    (usize, usize),
>)
    requires
        x < width,
        y < height,
    ensures
        r@ == surrounding(x, y, width, height),
{
    let lx = if x == 0 {
        0
    } else {
        x - 1
    };
    let hx = if x + 1 < width {
        x + 2
    } else {
        width
    };
    let ly = if y == 0 {
        0
    } else {
        y - 1
    };
    let hy = if y + 1 < height {
        y + 2
    } else {
        height
    };
    let ghost ny = hy - ly;
    let ghost spec_s = surrounding(x, y, width, height);
    let mut fields: Vec<(usize, usize)> = Vec::new();
    let mut cx = lx;
    while cx < hx
        invariant
            lx <= cx <= hx,
            ly < hy,
            ny == hy - ly,
            lx == clamp_lo(x as int),
            hx == clamp_hi(x as int, width as int),
            ly == clamp_lo(y as int),
            hy == clamp_hi(y as int, height as int),
            spec_s == surrounding(x, y, width, height),
            fields.len() == (cx - lx) * ny,
            forall|j: int| 0 <= j < fields.len() ==> #[trigger] fields@[j] == spec_s[j],
        decreases hx - cx,
    {
        let mut cy = ly;
        while cy < hy
            invariant
                lx <= cx < hx,
                ly <= cy <= hy,
                ny == hy - ly,
                lx == clamp_lo(x as int),
                hx == clamp_hi(x as int, width as int),
                ly == clamp_lo(y as int),
                hy == clamp_hi(y as int, height as int),
                spec_s == surrounding(x, y, width, height),
                fields.len() == (cx - lx) * ny + (cy - ly),
                forall|j: int| 0 <= j < fields.len() ==> #[trigger] fields@[j] == spec_s[j],
            decreases hy - cy,
        {
            proof {
                let idx = (cx - lx) * ny + (cy - ly);
                lemma_fundamental_div_mod_converse(idx, ny, cx - lx, cy - ly);
                assert(idx < ny * (hx - lx)) by (nonlinear_arith)
                    requires
                        idx == (cx - lx) * ny + (cy - ly),
                        ly <= cy < hy,
                        lx <= cx < hx,
                        ny == hy - ly,
                ;
                assert(ny * (hx - lx) == spec_s.len());
            }
            fields.push((cx, cy));
            cy += 1;
        }
        proof {
            assert((cx + 1 - lx) * ny == (cx - lx) * ny + ny) by (nonlinear_arith);
        }
        cx += 1;
    }
    proof {
        assert(fields.len() == ny * (hx - lx)) by (nonlinear_arith)
            requires
                fields.len() == (hx - lx) * ny,
        ;
        assert(fields@ == spec_s);
    }
    fields
}

/// The block around `(x, y)` in a random order.
pub fn assign_neighbors(
    x: usize,
    y: usize,
    width: usize,
    height: usize,
    rng: &mut rand::StdRng,
) -> (r: Vec<(usize, usize)>)
    requires
        x < width,
        y < height,
    ensures
        r@.to_multiset() == surrounding(x, y, width, height).to_multiset(),
        r@.no_duplicates(),
        all_in_bounds(r@, width as int, height as int),
        forall|j: int| 0 <= j < r.len() ==> near(#[trigger] r@[j], (x, y)),
{
    let mut fields = surrounding_fields(x, y, width, height);
    shuffle(rng, &mut fields);
    proof {
        let s = surrounding(x, y, width, height);
        lemma_surrounding(x, y, width, height);
        broadcast use vstd::seq_lib::group_to_multiset_ensures;

        s.lemma_multiset_has_no_duplicates();
        fields@.lemma_multiset_has_no_duplicates_conv();
        assert forall|j: int| 0 <= j < fields.len() implies s.contains(#[trigger] fields@[j]) by {
            assert(fields@.to_multiset().count(fields@[j]) > 0);
        }
        assert forall|j: int| 0 <= j < fields.len() implies near(#[trigger] fields@[j], (x, y))
            && fields@[j].0 < width && fields@[j].1 < height by {
            assert(s.contains(fields@[j]));
        }
    }
    fields
}

/// The cells holding a collision, in row-major order.
pub open spec fn collision_coords(cells: Seq<Field>, w: int) -> Seq<(usize, usize)>
    decreases cells.len(),
{
    if cells.len() == 0 {
        Seq::empty()
    } else {
        let rest = collision_coords(cells.drop_last(), w);
        if cells.last() is Collision {
            rest.push(coord(cells.len() - 1, w))
        } else {
            rest
        }
    }
}

proof fn lemma_collision_coords_len(cells: Seq<Field>, w: int)
    ensures
        collision_coords(cells, w).len() == collision_cells(cells),
    decreases cells.len(),
{
    if cells.len() > 0 {
        lemma_collision_coords_len(cells.drop_last(), w);
    }
}

/// For each collision, in row-major order, the block around its cell in a
/// random order.
pub fn draw_spots(old: &Board<Field>, rng: &mut rand::StdRng) -> (r: Vec<Vec<(usize, usize)>>)
    requires
        old.wf(),
    ensures
        r.len() == collision_cells(old@),
        forall|k: int|
            0 <= k < r.len() ==> {
                let c = collision_coords(old@, old.width() as int)[k];
                &&& (#[trigger] r@[k])@.to_multiset() == surrounding(
                    c.0,
                    c.1,
                    old.width(),
                    old.height(),
                ).to_multiset()
                &&& r@[k]@.no_duplicates()
                &&& all_in_bounds(r@[k]@, old.width() as int, old.height() as int)
                &&& forall|j: int| 0 <= j < r@[k].len() ==> near(#[trigger] r@[k]@[j], c)
            },
{
    let w = old.width();
    let h = old.height();
    let cells = old.cells();
    let n = cells.len();
    let mut spots: Vec<Vec<(usize, usize)>> = Vec::new();
    let mut i: usize = 0;
    while i < n
        invariant
            n == cells.len(),
            cells@ == old@,
            old.wf(),
            w == old.width(),
            h == old.height(),
            i <= n,
            spots.len() == collision_cells(old@.take(i as int)),
            forall|k: int|
                0 <= k < spots.len() ==> {
                    let c = collision_coords(old@.take(i as int), w as int)[k];
                    &&& (#[trigger] spots@[k])@.to_multiset() == surrounding(
                        c.0,
                        c.1,
                        w,
                        h,
                    ).to_multiset()
                    &&& spots@[k]@.no_duplicates()
                    &&& all_in_bounds(spots@[k]@, w as int, h as int)
                    &&& forall|j: int| 0 <= j < spots@[k].len() ==> near(#[trigger] spots@[k]@[j], c)
                },
        decreases n - i,
    {
        proof {
            lemma_lists_take(old@, i as int);
            lemma_collision_coords_len(old@.take(i as int), w as int);
        }
        if cells[i].is_collision() {
            proof {
                lemma_coordinates_of_slot(i as int, w as int, h as int);
            }
            let block = assign_neighbors(i % w, i / w, w, h, rng);
            let ghost prev = spots@;
            spots.push(block);
            proof {
                let cur = collision_coords(old@.take(i + 1), w as int);
                let before = collision_coords(old@.take(i as int), w as int);
                assert(cur == before.push(coord(i as int, w as int)));
                assert forall|k: int| 0 <= k < spots.len() implies {
                    let c = cur[k];
                    &&& (#[trigger] spots@[k])@.to_multiset() == surrounding(
                        c.0,
                        c.1,
                        w,
                        h,
                    ).to_multiset()
                    &&& spots@[k]@.no_duplicates()
                    &&& all_in_bounds(spots@[k]@, w as int, h as int)
                    &&& forall|j: int| 0 <= j < spots@[k].len() ==> near(#[trigger] spots@[k]@[j], c)
                } by {
                    if k < prev.len() {
                        assert(spots@[k] == prev[k]);
                        assert(cur[k] == before[k]);
                    }
                }
            }
        }
        i += 1;
    }
    proof {
        assert(old@.take(n as int) == old@);
    }
    spots
}

/// How many resolution passes a generation may take before it is given up.
pub const MAX_RESOLUTION_PASSES: usize = 1000;

/// A summary of the population after a generation.
#[derive(Clone, Copy, Debug, PartialEq, Eq, Structural)]
pub struct GenerationStats {
    pub iteration: usize,
    pub specimens: usize,
    pub min_energy: u64,
    pub max_energy: u64,
    pub total_energy: u64,
}

/// Whether `st` describes the stable board `cells`: how many specimens it
/// holds, their least, greatest and total energy.
pub open spec fn describes(st: GenerationStats, cells: Seq<Field>) -> bool {
    &&& st.specimens == count_of(cells)
    &&& st.total_energy == energy_of(cells)
    &&& forall|i: int|
        0 <= i < cells.len() && #[trigger] cells[i] is Occupied ==> st.min_energy
            <= cells[i]->Occupied_0.energy <= st.max_energy
    &&& exists|i: int|
        0 <= i < cells.len() && #[trigger] cells[i] is Occupied && cells[i]->Occupied_0.energy
            == st.min_energy
    &&& exists|i: int|
        0 <= i < cells.len() && #[trigger] cells[i] is Occupied && cells[i]->Occupied_0.energy
            == st.max_energy
}

proof fn lemma_movers_le_count(cells: Seq<Field>, w: int, cfg: GoodEvilConfig)
    ensures
        movers(cells, w, cfg).len() <= count_of(cells),
    decreases cells.len(),
{
    if cells.len() > 0 {
        lemma_movers_le_count(cells.drop_last(), w, cfg);
        assert(lists(cells.drop_last()) == lists(cells).drop_last());
    }
}

proof fn lemma_stable_count(cells: Seq<Field>)
    requires
        is_stable(cells),
    ensures
        count_of(cells) <= cells.len(),
    decreases cells.len(),
{
    if cells.len() > 0 {
        lemma_stable_count(cells.drop_last());
        assert(lists(cells.drop_last()) == lists(cells).drop_last());
    }
}

/// The toll of a generation moves energy but loses none: what the survivors
/// keep and what the pool gains add up to what the board held.
pub proof fn lemma_toll_accounting(cells: Seq<Field>, w: int, cfg: GoodEvilConfig)
    requires
        is_stable(cells),
    ensures
        placed_energy(movers(cells, w, cfg)) + decay_pool(cells, cfg) == energy_of(cells),
    decreases cells.len(),
{
    if cells.len() > 0 {
        let rest = cells.drop_last();
        lemma_toll_accounting(rest, w, cfg);
        assert(lists(rest) == lists(cells).drop_last());
        match cells.last() {
            Field::Occupied(s) => {
                lemma_energy_sum_one(s);
                if survives(s, cfg) {
                    let m = movers(rest, w, cfg);
                    assert(movers(cells, w, cfg).drop_last() == m);
                }
            },
            _ => {},
        }
    }
}

/// The energy, before the toll, of the specimens that survive it.
pub open spec fn survivor_energy(cells: Seq<Field>, cfg: GoodEvilConfig) -> nat
    decreases cells.len(),
{
    if cells.len() == 0 {
        0
    } else {
        survivor_energy(cells.drop_last(), cfg) + match cells.last() {
            Field::Occupied(s) => if survives(s, cfg) {
                s.energy as nat
            } else {
                0nat
            },
            _ => 0nat,
        }
    }
}

/// Leaving aside the specimens that die, the toll takes exactly
/// `energy_loss_per_step` from each specimen: the survivors hold what they
/// held before, less the toll once per survivor.
pub proof fn lemma_toll_on_survivors(cells: Seq<Field>, w: int, cfg: GoodEvilConfig)
    ensures
        placed_energy(movers(cells, w, cfg)) + movers(cells, w, cfg).len()
            * cfg.energy_loss_per_step == survivor_energy(cells, cfg),
    decreases cells.len(),
{
    if cells.len() > 0 {
        let rest = cells.drop_last();
        lemma_toll_on_survivors(rest, w, cfg);
        let m = movers(rest, w, cfg);
        match cells.last() {
            Field::Occupied(s) => {
                if survives(s, cfg) {
                    assert(movers(cells, w, cfg).drop_last() == m);
                    assert((m.len() + 1) * cfg.energy_loss_per_step == m.len()
                        * cfg.energy_loss_per_step + cfg.energy_loss_per_step) by (nonlinear_arith);
                }
            },
            _ => {},
        }
    }
}

/// Whether `t` is a choice of destinations for the survivors of `cells` on a
/// `w` x `h` grid: one each, on the grid and within a step of where it stands.
pub open spec fn valid_targets(
    cells: Seq<Field>,
    w: int,
    h: int,
    cfg: GoodEvilConfig,
    t: Seq<(usize, usize)>,
) -> bool {
    &&& t.len() == movers(cells, w, cfg).len()
    &&& all_in_bounds(t, w, h)
    &&& forall|k: int| 0 <= k < t.len() ==> near(#[trigger] t[k], movers(cells, w, cfg)[k].0)
}

/// Whether a generation from board `b` and pool `pool` to `after` and
/// `after_pool`, succeeding as `ok` says, moved the survivors to the
/// destinations `t`: these are a valid choice, and when they leave no cell
/// contested, the generation succeeds, the new board is what placing the
/// survivors there gives and the pool has gained the toll.
pub open spec fn moved_through(
    b: Board<Field>,
    pool: u64,
    cfg: GoodEvilConfig,
    t: Seq<(usize, usize)>,
    after: Board<Field>,
    after_pool: u64,
    ok: bool,
) -> bool {
    let moved = place_all(
        empty_lists(b@.len()),
        b.width() as int,
        retarget(movers(b@, b.width() as int, cfg), t),
    );
    &&& valid_targets(b@, b.width() as int, b.height() as int, cfg, t)
    &&& uncontested(moved) ==> ok && lists(after@) == moved && after_pool == pool + decay_pool(
        b@,
        cfg,
    )
}

/// No cell is contested.
pub open spec fn uncontested(l: Seq<Seq<Specimen>>) -> bool {
    forall|j: int| 0 <= j < l.len() ==> (#[trigger] l[j]).len() <= 1
}

proof fn lemma_uncontested_stable(cells: Seq<Field>)
    requires
        all_wf(cells),
        uncontested(lists(cells)),
    ensures
        is_stable(cells),
{
    assert forall|i: int| 0 <= i < cells.len() implies !(#[trigger] cells[i] is Collision) by {
        assert(lists(cells)[i] == cells[i].specimens());
        assert(cells[i].wf());
    }
}

proof fn lemma_single_stable(cells: Seq<Field>)
    requires
        all_wf(cells),
        count_of(cells) <= 1,
    ensures
        is_stable(cells),
    decreases cells.len(),
{
    if cells.len() > 0 {
        assert(lists(cells.drop_last()) == lists(cells).drop_last());
        assert(all_wf(cells.drop_last())) by {
            assert forall|j: int| 0 <= j < cells.len() - 1 implies (
            #[trigger] cells.drop_last()[j]).wf() by {
                assert(cells.drop_last()[j] == cells[j]);
            }
        }
        lemma_single_stable(cells.drop_last());
        assert(cells.last().wf());
        assert forall|i: int| 0 <= i < cells.len() implies !(#[trigger] cells[i] is Collision) by {
            if i < cells.len() - 1 {
                assert(cells.drop_last()[i] == cells[i]);
            }
        }
    }
}

/// The first of `probes` that names an empty cell of `b`.
pub open spec fn first_empty_spec(b: Board<Field>, probes: Seq<(usize, usize)>) -> Option<
    (usize, usize),
>
    decreases probes.len(),
{
    if probes.len() == 0 {
        None
    } else if b.cell(probes[0].0 as int, probes[0].1 as int) is Empty {
        Some(probes[0])
    } else {
        first_empty_spec(b, probes.drop_first())
    }
}

/// The first of `probes` that names an empty cell of `board`, if any.
pub fn first_empty(board: &Board<Field>, probes: &Vec<(usize, usize)>) -> (r: Option<
    (usize, usize),
>)
    requires
        board.wf(),
        all_in_bounds(probes@, board.width() as int, board.height() as int),
    ensures
        r == first_empty_spec(*board, probes@),
{
    let mut i: usize = 0;
    assert(probes@.skip(0) == probes@);
    while i < probes.len()
        invariant
            board.wf(),
            all_in_bounds(probes@, board.width() as int, board.height() as int),
            i <= probes.len(),
            first_empty_spec(*board, probes@.skip(i as int)) == first_empty_spec(*board, probes@),
        decreases probes.len() - i,
    {
        let p = probes[i];
        proof {
            assert(probes@.skip(i as int)[0] == p);
            assert(probes@.skip(i as int).drop_first() == probes@.skip(i + 1));
        }
        if board.at(p.0, p.1).is_empty() {
            return Some(p);
        }
        i += 1;
    }
    proof {
        assert(probes@.skip(i as int).len() == 0);
    }
    None
}

proof fn lemma_first_empty_found(b: Board<Field>, probes: Seq<(usize, usize)>)
    requires
        first_empty_spec(b, probes) is Some,
        all_in_bounds(probes, b.width() as int, b.height() as int),
    ensures
        ({
            let p = first_empty_spec(b, probes)->Some_0;
            b.in_bounds(p.0 as int, p.1 as int) && b.cell(p.0 as int, p.1 as int) is Empty
        }),
    decreases probes.len(),
{
    if !(b.cell(probes[0].0 as int, probes[0].1 as int) is Empty) {
        let rest = probes.drop_first();
        assert forall|k: int| 0 <= k < rest.len() implies (#[trigger] rest[k]).0 < b.width()
            && rest[k].1 < b.height() by {
            assert(rest[k] == probes[k + 1]);
        }
        lemma_first_empty_found(b, rest);
    }
}

/// A random empty cell of `board`: as many random cells as the board has are
/// drawn, and the first empty one among them is taken.
fn find_empty_field(board: &Board<Field>, rng: &mut rand::StdRng) -> (r: Option<(usize, usize)>)
    requires
        board.wf(),
        board.width() >= 1,
        board.height() >= 1,
    ensures
        exists|probes: Seq<(usize, usize)>|
            probes.len() == board@.len() && all_in_bounds(
                probes,
                board.width() as int,
                board.height() as int,
            ) && r == first_empty_spec(*board, probes),
        r matches Some(p) ==> board.in_bounds(p.0 as int, p.1 as int) && board.cell(
            p.0 as int,
            p.1 as int,
        ) is Empty,
        (forall|i: int| 0 <= i < board@.len() ==> #[trigger] board@[i] is Empty) ==> r is Some,
{
    let loop_limit = board.cells().len();
    let mut probes: Vec<(usize, usize)> = Vec::new();
    let mut i: usize = 0;
    while i < loop_limit
        invariant
            board.wf(),
            board.width() >= 1,
            board.height() >= 1,
            loop_limit == board@.len(),
            i <= loop_limit,
            probes.len() == i,
            all_in_bounds(probes@, board.width() as int, board.height() as int),
        decreases loop_limit - i,
    {
        let x = gen_range(rng, 0, board.width());
        let y = gen_range(rng, 0, board.height());
        probes.push((x, y));
        i += 1;
    }
    let r = first_empty(board, &probes);
    proof {
        if r is Some {
            lemma_first_empty_found(*board, probes@);
        }
        if forall|i: int| 0 <= i < board@.len() ==> #[trigger] board@[i] is Empty {
            assert(board.width() * board.height() >= 1) by (nonlinear_arith)
                requires
                    board.width() >= 1,
                    board.height() >= 1,
            ;
            let p = probes@[0];
            lemma_slot_in_bounds(p.0 as int, p.1 as int, board.width() as int, board.height() as int);
            assert(board@[slot(p.0 as int, p.1 as int, board.width() as int)] is Empty);
        }
    }
    r
}

/// The summary of the stable, nonempty board `board` after generation
/// `iteration`.
pub fn board_stats(board: &Board<Field>, iteration: usize) -> (r: GenerationStats)
    requires
        is_stable(board@),
        count_of(board@) > 0,
        count_of(board@) <= usize::MAX,
        energy_of(board@) <= u64::MAX,
    ensures
        r.iteration == iteration,
        describes(r, board@),
{
    let specimens = count_specimens(board);
    let total = total_energy(board);
    let cells = board.cells();
    let mut min_energy: u64 = u64::MAX;
    let mut max_energy: u64 = 0;
    let mut found: bool = false;
    let ghost mut min_at: int = 0;
    let ghost mut max_at: int = 0;
    let mut i: usize = 0;
    while i < cells.len()
        invariant
            cells@ == board@,
            i <= cells.len(),
            found ==> 0 <= min_at < i && cells@[min_at] is Occupied && cells@[min_at]->Occupied_0.energy == min_energy,
            found ==> 0 <= max_at < i && cells@[max_at] is Occupied && cells@[max_at]->Occupied_0.energy == max_energy,
            !found ==> forall|j: int| 0 <= j < i ==> !(#[trigger] cells@[j] is Occupied),
            forall|j: int|
                0 <= j < i && #[trigger] cells@[j] is Occupied ==> min_energy
                    <= cells@[j]->Occupied_0.energy <= max_energy,
        decreases cells.len() - i,
    {
        match &cells[i] {
            Field::Occupied(s) => {
                if !found || s.energy < min_energy {
                    min_energy = s.energy;
                    proof {
                        min_at = i as int;
                    }
                }
                if !found || s.energy > max_energy {
                    max_energy = s.energy;
                    proof {
                        max_at = i as int;
                    }
                }
                found = true;
            },
            _ => {},
        }
        i += 1;
    }
    proof {
        if !found {
            lemma_no_occupant_empty(board@);
        }
    }
    GenerationStats { iteration, specimens, min_energy, max_energy, total_energy: total }
}

proof fn lemma_no_occupant_empty(cells: Seq<Field>)
    requires
        is_stable(cells),
        forall|j: int| 0 <= j < cells.len() ==> !(#[trigger] cells[j] is Occupied),
    ensures
        count_of(cells) == 0,
    decreases cells.len(),
{
    if cells.len() > 0 {
        lemma_no_occupant_empty(cells.drop_last());
        assert(lists(cells.drop_last()) == lists(cells).drop_last());
    }
}

/// The simulation: a board of specimens, the energy pool awaiting
/// redistribution, and the generator its random choices come from.
pub struct GoodEvil {
    cfg: GoodEvilConfig,
    rng: rand::StdRng,
    collision_energy: u64,
    board: Board<Field>,
    iteration: usize,
    policy: SplitPolicy,
}

impl GoodEvil {
    pub closed spec fn spec_board(&self) -> Board<Field> {
        self.board
    }

    pub closed spec fn spec_pool(&self) -> u64 {
        self.collision_energy
    }

    pub closed spec fn spec_iteration(&self) -> usize {
        self.iteration
    }

    pub closed spec fn spec_cfg(&self) -> GoodEvilConfig {
        self.cfg
    }

    pub closed spec fn spec_policy(&self) -> SplitPolicy {
        self.policy
    }

    /// Between generations the board is at least 2x2, holds no collision,
    /// and its energy together with the pool fits the energy type.
    pub open spec fn wf(&self) -> bool {
        let b = self.spec_board();
        &&& b.wf()
        &&& b.width() >= 2
        &&& b.height() >= 2
        &&& is_stable(b@)
        &&& all_wf(b@)
        &&& energy_of(b@) + self.spec_pool() <= u64::MAX
    }

    /// A `width` x `height` board with `cfg.num_specimens` specimens of
    /// `cfg.initial_specimen_energy` each, put one by one on random empty
    /// cells. Energy is shared in collisions weakest-takes-all.
    pub fn new(width: usize, height: usize, cfg: GoodEvilConfig, rng: rand::StdRng) -> (r: Result<
        GoodEvil,
        SimError,
    >)
        requires
            width * height <= usize::MAX,
            cfg.num_specimens * cfg.initial_specimen_energy <= u64::MAX,
        ensures
            r == Err::<GoodEvil, SimError>(SimError::BoardTooSmall) <==> width < 2 || height < 2,
            r == Err::<GoodEvil, SimError>(SimError::TooManySpecimens) <==> width >= 2 && height
                >= 2 && cfg.num_specimens > width * height,
            r is Err ==> r == Err::<GoodEvil, SimError>(SimError::BoardTooSmall) || r == Err::<
                GoodEvil,
                SimError,
            >(SimError::TooManySpecimens) || r == Err::<GoodEvil, SimError>(
                SimError::SeedingExhausted,
            ),
            width >= 2 && height >= 2 && cfg.num_specimens <= 1 ==> r is Ok,
            r matches Ok(g) ==> {
                &&& g.wf()
                &&& g.spec_board().width() == width
                &&& g.spec_board().height() == height
                &&& g.spec_cfg() == cfg
                &&& g.spec_policy() == SplitPolicy::WeakTakesAll
                &&& g.spec_pool() == 0
                &&& g.spec_iteration() == 0
                &&& count_of(g.spec_board()@) == cfg.num_specimens
                &&& energy_of(g.spec_board()@) == cfg.num_specimens * cfg.initial_specimen_energy
                &&& forall|i: int|
                    0 <= i < g.spec_board()@.len() ==> (#[trigger] g.spec_board()@[i] is Empty
                        || g.spec_board()@[i] == Field::Occupied(
                        Specimen { energy: cfg.initial_specimen_energy },
                    ))
            },
    {
        if width < 2 || height < 2 {
            return Err(SimError::BoardTooSmall);
        }
        assert(width * height >= 4) by (nonlinear_arith)
            requires
                width >= 2,
                height >= 2,
        ;
        if cfg.num_specimens > width * height {
            return Err(SimError::TooManySpecimens);
        }
        let mut rng = rng;
        let mut board = empty_board(width, height);
        let seed = Specimen { energy: cfg.initial_specimen_energy };
        proof {
            lemma_empty_lists((width * height) as nat);
        }
        let mut placed: usize = 0;
        while placed < cfg.num_specimens
            invariant
                placed <= cfg.num_specimens,
                cfg.num_specimens <= width * height,
                cfg.num_specimens * cfg.initial_specimen_energy <= u64::MAX,
                seed == (Specimen { energy: cfg.initial_specimen_energy }),
                board.wf(),
                board.width() == width,
                board.height() == height,
                width >= 2,
                height >= 2,
                is_stable(board@),
                all_wf(board@),
                count_of(board@) == placed,
                placed == 0 ==> forall|i: int| 0 <= i < board@.len() ==> #[trigger] board@[i] is Empty,
                energy_of(board@) == placed * cfg.initial_specimen_energy,
                forall|i: int|
                    0 <= i < board@.len() ==> (#[trigger] board@[i] is Empty || board@[i]
                        == Field::Occupied(seed)),
            decreases cfg.num_specimens - placed,
        {
            match find_empty_field(&board, &mut rng) {
                Some((x, y)) => {
                    let ghost before = board@;
                    let ghost i = slot(x as int, y as int, width as int);
                    proof {
                        lemma_slot_in_bounds(x as int, y as int, width as int, height as int);
                        lemma_lists_after_update(before, i, Field::Occupied(seed));
                        lemma_lists_update(lists(before), i, seq![seed]);
                        lemma_energy_sum_one(seed);
                        assert((placed + 1) * cfg.initial_specimen_energy == placed
                            * cfg.initial_specimen_energy + cfg.initial_specimen_energy)
                            by (nonlinear_arith);
                    }
                    *board.at_mut(x, y) = Field::Occupied(seed);
                    proof {
                        assert(board@ == before.update(i, Field::Occupied(seed)));
                    }
                },
                None => {
                    return Err(SimError::SeedingExhausted);
                },
            }
            placed += 1;
        }
        Ok(
            GoodEvil {
                cfg,
                rng,
                collision_energy: 0,
                board,
                iteration: 0,
                policy: SplitPolicy::WeakTakesAll,
            },
        )
    }

    /// The current board.
    pub fn board(&self) -> (r: &Board<Field>)
        ensures
            *r == self.spec_board(),
    {
        &self.board
    }

    /// The parameters the simulation runs with.
    pub fn config(&self) -> (r: &GoodEvilConfig)
        ensures
            *r == self.spec_cfg(),
    {
        &self.cfg
    }

    /// The energy awaiting redistribution to collision survivors.
    pub fn collision_energy(&self) -> (r: u64)
        ensures
            r == self.spec_pool(),
    {
        self.collision_energy
    }

    /// How many generations have completed.
    pub fn iteration(&self) -> (r: usize)
        ensures
            r == self.spec_iteration(),
    {
        self.iteration
    }

    /// Shares energy in later collisions by `policy`.
    pub fn set_split_policy(&mut self, policy: SplitPolicy)
        ensures
            final(self).spec_policy() == policy,
            final(self).spec_board() == old(self).spec_board(),
            final(self).spec_pool() == old(self).spec_pool(),
            final(self).spec_iteration() == old(self).spec_iteration(),
            final(self).spec_cfg() == old(self).spec_cfg(),
    {
        self.policy = policy;
    }

    /// Runs one generation: every specimen pays the toll and moves, then
    /// collisions are resolved pass by pass until none is left. On success the
    /// new board replaces the old one and its summary is returned. `Extinct`
    /// comes exactly when no specimen survives the toll; on any error the
    /// board, the pool and the generation count stay as they were.
    pub fn advance(&mut self) -> (r: Result<GenerationStats, SimError>)
        requires
            old(self).wf(),
        ensures
            final(self).wf(),
            final(self).spec_cfg() == old(self).spec_cfg(),
            final(self).spec_policy() == old(self).spec_policy(),
            final(self).spec_board().width() == old(self).spec_board().width(),
            final(self).spec_board().height() == old(self).spec_board().height(),
            (r == Err::<GenerationStats, SimError>(SimError::Extinct)) <==> movers(
                old(self).spec_board()@,
                old(self).spec_board().width() as int,
                old(self).spec_cfg(),
            ).len() == 0,
            r is Err ==> r == Err::<GenerationStats, SimError>(SimError::Extinct) || r == Err::<
                GenerationStats,
                SimError,
            >(SimError::NoConvergence) || r == Err::<GenerationStats, SimError>(
                SimError::CrowdedCollision,
            ),
            movers(
                old(self).spec_board()@,
                old(self).spec_board().width() as int,
                old(self).spec_cfg(),
            ).len() == 1 ==> r is Ok,
            movers(
                old(self).spec_board()@,
                old(self).spec_board().width() as int,
                old(self).spec_cfg(),
            ).len() > 0 ==> exists|t: Seq<(usize, usize)>|
                #[trigger] moved_through(
                    old(self).spec_board(),
                    old(self).spec_pool(),
                    old(self).spec_cfg(),
                    t,
                    final(self).spec_board(),
                    final(self).spec_pool(),
                    r is Ok,
                ),
            r is Err ==> final(self).spec_board() == old(self).spec_board() && final(self).spec_pool()
                == old(self).spec_pool() && final(self).spec_iteration() == old(
                self,
            ).spec_iteration(),
            r matches Ok(stats) ==> {
                &&& count_of(final(self).spec_board()@) == movers(
                    old(self).spec_board()@,
                    old(self).spec_board().width() as int,
                    old(self).spec_cfg(),
                ).len()
                &&& energy_of(final(self).spec_board()@) + final(self).spec_pool() == energy_of(
                    old(self).spec_board()@,
                ) + old(self).spec_pool()
                &&& final(self).spec_iteration() == if old(self).spec_iteration() < usize::MAX {
                    old(self).spec_iteration() + 1
                } else {
                    old(self).spec_iteration() as int
                }
                &&& stats.iteration == final(self).spec_iteration()
                &&& describes(stats, final(self).spec_board()@)
            },
    {
        let ghost w = self.board.width() as int;
        let ghost start = energy_of(self.board@) + self.collision_energy;
        let n = self.board.cells().len();
        let targets = draw_moves(&self.board, &self.cfg, &mut self.rng);
        let (moved, gained) = move_phase(&self.board, &self.cfg, &targets);
        proof {
            lemma_movers_le_count(self.board@, w, self.cfg);
            lemma_stable_count(self.board@);
        }
        let specimens = count_specimens(&moved);
        if specimens == 0 {
            return Err(SimError::Extinct);
        }
        let ghost moved_view = moved@;
        proof {
            if specimens == 1 {
                lemma_single_stable(moved@);
            }
            if uncontested(lists(moved@)) {
                lemma_uncontested_stable(moved@);
            }
        }
        let mut pool: u64 = self.collision_energy + gained;
        let ghost pool0 = pool;
        let mut board = moved;
        let mut passes: usize = 0;
        while has_collisions(&board)
            invariant
                board.wf(),
                board.width() == self.board.width(),
                board.height() == self.board.height(),
                all_wf(board@),
                count_of(board@) == specimens,
                specimens > 0,
                specimens == movers(old(self).spec_board()@, w, old(self).spec_cfg()).len(),
                w == old(self).spec_board().width(),
                energy_of(board@) + pool == start,
                start == energy_of(old(self).spec_board()@) + old(self).spec_pool(),
                start <= u64::MAX,
                passes <= MAX_RESOLUTION_PASSES,
                self.spec_board() == old(self).spec_board(),
                self.spec_pool() == old(self).spec_pool(),
                self.spec_iteration() == old(self).spec_iteration(),
                self.spec_cfg() == old(self).spec_cfg(),
                self.spec_policy() == old(self).spec_policy(),
                old(self).wf(),
                is_stable(moved_view) ==> board@ == moved_view && pool == pool0,
                specimens == 1 ==> is_stable(moved_view),
                uncontested(lists(moved_view)) ==> is_stable(moved_view),
                lists(moved_view) == place_all(
                    empty_lists(old(self).spec_board()@.len()),
                    w,
                    retarget(movers(old(self).spec_board()@, w, old(self).spec_cfg()), targets@),
                ),
                pool0 == old(self).spec_pool() + decay_pool(
                    old(self).spec_board()@,
                    old(self).spec_cfg(),
                ),
                valid_targets(
                    old(self).spec_board()@,
                    w,
                    old(self).spec_board().height() as int,
                    old(self).spec_cfg(),
                    targets@,
                ),
            decreases MAX_RESOLUTION_PASSES - passes,
        {
            proof {
                assert(!is_stable(moved_view));
                assert(!uncontested(lists(moved_view)));
            }
            if passes == MAX_RESOLUTION_PASSES {
                proof {
                    assert(moved_through(
                        old(self).spec_board(),
                        old(self).spec_pool(),
                        old(self).spec_cfg(),
                        targets@,
                        self.spec_board(),
                        self.spec_pool(),
                        false,
                    ));
                }
                return Err(SimError::NoConvergence);
            }
            let spots = draw_spots(&board, &mut self.rng);
            match resolve_pass(&board, pool, self.policy, &spots) {
                Ok((next, left)) => {
                    board = next;
                    pool = left;
                },
                Err(e) => {
                    proof {
                        assert(moved_through(
                            old(self).spec_board(),
                            old(self).spec_pool(),
                            old(self).spec_cfg(),
                            targets@,
                            self.spec_board(),
                            self.spec_pool(),
                            false,
                        ));
                    }
                    return Err(e);
                },
            }
            passes += 1;
        }
        let ghost before = *self;
        self.board = board;
        self.collision_energy = pool;
        if self.iteration < usize::MAX {
            self.iteration = self.iteration + 1;
        }
        proof {
            assert(before.spec_board() == old(self).spec_board());
            assert(moved_through(
                old(self).spec_board(),
                old(self).spec_pool(),
                old(self).spec_cfg(),
                targets@,
                self.spec_board(),
                self.spec_pool(),
                true,
            ));
        }
        Ok(board_stats(&self.board, self.iteration))
    }
}

} // verus!
