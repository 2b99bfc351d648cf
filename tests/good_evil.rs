use cell_sim::board::Board;
use cell_sim::field::{merge, Field, Specimen};
use cell_sim::good_evil::{
    assign_neighbors, first_empty, count_collisions, count_specimens, draw_moves, draw_spots, has_collisions,
    move_phase, resolve_pass, surrounding_fields, total_energy, GoodEvil, GoodEvilConfig, SimError,
};
use cell_sim::simulation::Simulation;
use cell_sim::split::SplitPolicy;
use rand::{SeedableRng, StdRng};

const UNIT: u64 = 1_000_000;

fn seeded(seed: usize) -> StdRng {
    SeedableRng::from_seed(&[seed, 7, 11, 13][..])
}

fn occ(energy: u64) -> Field {
    Field::Occupied(Specimen { energy })
}

fn energies(f: &Field) -> Vec<u64> {
    match f {
        Field::Empty => vec![],
        Field::Occupied(s) => vec![s.energy],
        Field::Collision(v) => v.iter().map(|s| s.energy).collect(),
    }
}

fn cfg(num: usize, initial: u64, loss: u64, margin: u64) -> GoodEvilConfig {
    GoodEvilConfig {
        num_specimens: num,
        initial_specimen_energy: initial,
        energy_loss_per_step: loss,
        deadly_energy_margin: margin,
    }
}

#[test]
fn merge_rule() {
    let a = Specimen { energy: 1 };
    let b = Specimen { energy: 2 };
    let c = Specimen { energy: 3 };
    let one = merge(Field::Empty, a);
    assert_eq!(energies(&one), vec![1]);
    assert!(!one.is_collision());
    let two = merge(one, b);
    assert!(two.is_collision());
    assert_eq!(energies(&two), vec![1, 2]);
    let three = merge(two, c);
    assert_eq!(energies(&three), vec![1, 2, 3]);
    assert_eq!(three.count(), 3);
}

#[test]
fn new_rejects_small_boards_and_crowds() {
    assert_eq!(GoodEvil::new(1, 5, cfg(1, UNIT, 1, 0), seeded(1)).err(), Some(SimError::BoardTooSmall));
    assert_eq!(GoodEvil::new(5, 1, cfg(1, UNIT, 1, 0), seeded(1)).err(), Some(SimError::BoardTooSmall));
    assert_eq!(GoodEvil::new(2, 2, cfg(5, UNIT, 1, 0), seeded(1)).err(), Some(SimError::TooManySpecimens));
}

#[test]
fn new_places_the_population() {
    let sim = GoodEvil::new(8, 6, cfg(12, UNIT, 10, 0), seeded(3)).unwrap();
    let board = sim.board();
    assert_eq!((board.width(), board.height()), (8, 6));
    assert_eq!(count_specimens(board), 12);
    assert_eq!(total_energy(board), 12 * UNIT);
    assert!(!has_collisions(board));
    for f in board.cells() {
        assert!(f.is_empty() || energies(f) == vec![UNIT]);
    }
    assert_eq!(sim.collision_energy(), 0);
    assert_eq!(sim.iteration(), 0);
}

#[test]
fn move_phase_applies_toll_and_targets() {
    let old = Board::from_cells(2, 2, vec![occ(100), Field::Empty, Field::Empty, occ(30)]);
    let c = cfg(2, 0, 20, 20);
    let (new, gained) = move_phase(&old, &c, &vec![(1, 0)]);
    assert_eq!(energies(new.at(1, 0)), vec![80]);
    assert_eq!(count_specimens(&new), 1);
    assert_eq!(gained, 20 + 30);
    assert_eq!(total_energy(&new) + gained, total_energy(&old));
}

#[test]
fn move_phase_merges_into_collisions() {
    let old = Board::from_cells(2, 2, vec![occ(10), occ(20), occ(30), Field::Empty]);
    let (new, gained) = move_phase(&old, &cfg(3, 0, 1, 0), &vec![(1, 1), (1, 1), (1, 1)]);
    assert_eq!(energies(new.at(1, 1)), vec![9, 19, 29]);
    assert!(has_collisions(&new));
    assert_eq!(count_collisions(&new), 3);
    assert_eq!(gained, 3);
}

#[test]
fn draw_moves_stays_near_and_varies() {
    let old = Board::from_cells(3, 3, vec![
        Field::Empty, Field::Empty, Field::Empty,
        Field::Empty, occ(50), Field::Empty,
        Field::Empty, Field::Empty, Field::Empty,
    ]);
    let mut rng = seeded(5);
    let mut seen = Vec::new();
    for _ in 0..200 {
        let t = draw_moves(&old, &cfg(1, 0, 1, 0), &mut rng);
        assert_eq!(t.len(), 1);
        assert!(t[0].0 < 3 && t[0].1 < 3);
        if !seen.contains(&t[0]) {
            seen.push(t[0]);
        }
    }
    assert_eq!(seen.len(), 9);
}

#[test]
fn surrounding_fields_is_clamped_block() {
    assert_eq!(surrounding_fields(0, 0, 3, 3), vec![(0, 0), (0, 1), (1, 0), (1, 1)]);
    assert_eq!(
        surrounding_fields(1, 1, 3, 3),
        vec![(0, 0), (0, 1), (0, 2), (1, 0), (1, 1), (1, 2), (2, 0), (2, 1), (2, 2)]
    );
    assert_eq!(surrounding_fields(2, 0, 3, 2), vec![(1, 0), (1, 1), (2, 0), (2, 1)]);
}

#[test]
fn assign_neighbors_permutes_the_block() {
    let mut rng = seeded(9);
    let block = surrounding_fields(1, 1, 3, 3);
    let mut reordered = false;
    for _ in 0..20 {
        let mut r = assign_neighbors(1, 1, 3, 3, &mut rng);
        if r != block {
            reordered = true;
        }
        r.sort();
        assert_eq!(r, block);
    }
    assert!(reordered);
}

#[test]
fn resolve_pass_splits_and_scatters() {
    let old = Board::from_cells(3, 3, vec![
        Field::Empty, Field::Empty, Field::Empty,
        Field::Empty, Field::Collision(vec![Specimen { energy: 5 }, Specimen { energy: 3 }]), occ(7),
        Field::Empty, Field::Empty, Field::Empty,
    ]);
    let spots = vec![vec![(0, 0), (2, 2), (1, 1)]];
    let (new, left) = resolve_pass(&old, 10, SplitPolicy::WeakTakesAll, &spots).unwrap();
    assert_eq!(energies(new.at(0, 0)), vec![13]);
    assert_eq!(energies(new.at(2, 2)), vec![5]);
    assert_eq!(energies(new.at(2, 1)), vec![7]);
    assert!(new.at(1, 1).is_empty());
    assert_eq!(left, 0);
    assert_eq!(count_specimens(&new), count_specimens(&old));
    assert_eq!(total_energy(&new) + left, total_energy(&old) + 10);
}

#[test]
fn resolve_pass_keeps_undivided_energy_in_pool() {
    let old = Board::from_cells(2, 2, vec![
        Field::Collision(vec![Specimen { energy: 1 }, Specimen { energy: 2 }]),
        Field::Empty, Field::Empty, Field::Empty,
    ]);
    let spots = vec![vec![(1, 1), (0, 0), (1, 0), (0, 1)]];
    let (new, left) = resolve_pass(&old, 5, SplitPolicy::Equal, &spots).unwrap();
    assert_eq!(energies(new.at(1, 1)), vec![3]);
    assert_eq!(energies(new.at(0, 0)), vec![4]);
    assert_eq!(left, 1);
}

#[test]
fn resolve_pass_reports_crowded_collision() {
    let old = Board::from_cells(2, 2, vec![
        Field::Collision(vec![Specimen { energy: 1 }, Specimen { energy: 2 }, Specimen { energy: 3 }]),
        Field::Empty, Field::Empty, Field::Empty,
    ]);
    let spots = vec![vec![(1, 1), (0, 0)]];
    assert_eq!(resolve_pass(&old, 0, SplitPolicy::WeakTakesAll, &spots).err(), Some(SimError::CrowdedCollision));
}

#[test]
fn resolution_never_loses_specimens() {
    for seed in 0..20 {
        let mut rng = seeded(seed);
        let mut board = Board::from_cells(4, 4, vec![
            Field::Empty, Field::Empty, Field::Empty, Field::Empty,
            Field::Empty, Field::Collision(vec![Specimen { energy: 1 }, Specimen { energy: 2 }, Specimen { energy: 3 }]), occ(4), Field::Empty,
            Field::Empty, occ(5), Field::Collision(vec![Specimen { energy: 6 }, Specimen { energy: 7 }]), Field::Empty,
            Field::Empty, Field::Empty, Field::Empty, Field::Empty,
        ]);
        let count = count_specimens(&board);
        let mut pool = 9;
        let energy = total_energy(&board) + pool;
        let mut passes = 0;
        while has_collisions(&board) {
            passes += 1;
            assert!(passes <= 100);
            let spots = draw_spots(&board, &mut rng);
            let (next, left) = resolve_pass(&board, pool, SplitPolicy::WeakTakesAll, &spots).unwrap();
            assert!(count_specimens(&next) >= count);
            board = next;
            pool = left;
        }
        assert_eq!(count_specimens(&board), count);
        assert_eq!(total_energy(&board) + pool, energy);
    }
}

#[test]
fn generations_conserve_energy() {
    for seed in 0..10 {
        let mut sim = GoodEvil::new(10, 8, cfg(30, UNIT, UNIT / 100, 0), seeded(seed)).unwrap();
        let mut before = total_energy(sim.board()) + sim.collision_energy();
        assert_eq!(before, 30 * UNIT);
        for gen in 1..=20 {
            let live_before = count_specimens(sim.board());
            let stats = sim.advance().unwrap();
            assert_eq!(stats.iteration, gen);
            assert_eq!(stats.specimens, live_before);
            assert!(!has_collisions(sim.board()));
            let after = total_energy(sim.board()) + sim.collision_energy();
            assert_eq!(after, before);
            assert_eq!(stats.total_energy, total_energy(sim.board()));
            assert!(stats.min_energy <= stats.max_energy);
            before = after;
        }
    }
}

#[test]
fn dense_population_settles() {
    for seed in 0..10 {
        let mut sim = GoodEvil::new(6, 6, cfg(18, UNIT, UNIT / 10, 0), seeded(seed)).unwrap();
        sim.set_split_policy(SplitPolicy::PoorHalf);
        for _ in 0..5 {
            let stats = sim.advance().unwrap();
            assert_eq!(stats.specimens, 18);
        }
    }
}

#[test]
fn extinction_is_reported() {
    let mut sim = GoodEvil::new(3, 3, cfg(2, 5, 10, 0), seeded(2)).unwrap();
    let board_before = sim.board().cells().len();
    assert_eq!(sim.advance().err(), Some(SimError::Extinct));
    assert_eq!(sim.board().cells().len(), board_before);
    assert_eq!(count_specimens(sim.board()), 2);
    assert_eq!(sim.iteration(), 0);
}

#[test]
fn lone_specimen_runs_down() {
    let mut sim = GoodEvil::new(2, 2, cfg(1, UNIT, UNIT / 10, 0), seeded(4)).unwrap();
    for gen in 1..=10u64 {
        let stats = sim.advance().unwrap();
        assert_eq!(stats.specimens, 1);
        assert_eq!(stats.min_energy, UNIT - gen * (UNIT / 10));
        assert_eq!(stats.max_energy, stats.min_energy);
        assert_eq!(sim.collision_energy(), gen * (UNIT / 10));
    }
    assert_eq!(sim.advance().err(), Some(SimError::Extinct));
}

#[test]
fn simulation_trait_advances_engine() {
    let mut sim = GoodEvil::new(4, 4, cfg(3, UNIT, 1, 0), seeded(8)).unwrap();
    assert_eq!(Simulation::advance(&mut sim), Ok(()));
    assert_eq!(sim.iteration(), 1);
}

#[test]
fn first_empty_takes_the_first_free_probe() {
    let board = Board::from_cells(2, 2, vec![occ(1), Field::Empty, occ(2), Field::Empty]);
    assert_eq!(first_empty(&board, &vec![(0, 0), (0, 1), (1, 1), (1, 0)]), Some((1, 1)));
    assert_eq!(first_empty(&board, &vec![(0, 0), (0, 1)]), None);
    assert_eq!(first_empty(&board, &vec![]), None);
}

#[test]
fn resolve_pass_leaves_settled_board_alone() {
    let old = Board::from_cells(2, 2, vec![occ(1), Field::Empty, occ(2), Field::Empty]);
    let (new, left) = resolve_pass(&old, 17, SplitPolicy::WeakTakesAll, &vec![]).unwrap();
    for i in 0..4 {
        assert_eq!(energies(&new.cells()[i]), energies(&old.cells()[i]));
    }
    assert_eq!(left, 17);
}

#[test]
fn new_with_zero_or_one_specimen_succeeds() {
    for seed in 0..20 {
        let sim = GoodEvil::new(2, 2, cfg(1, UNIT, 1, 0), seeded(seed)).unwrap();
        assert_eq!(count_specimens(sim.board()), 1);
        let sim = GoodEvil::new(3, 2, cfg(0, UNIT, 1, 0), seeded(seed)).unwrap();
        assert_eq!(count_specimens(sim.board()), 0);
    }
}
