use cell_sim::board::Board;
use cell_sim::life::GameOfLife;
use cell_sim::simulation::Simulation;

fn board_with(width: usize, height: usize, alive: &[(usize, usize)]) -> Board<bool> {
    let mut b = Board::new(width, height, false);
    for &(x, y) in alive {
        *b.at_mut(x, y) = true;
    }
    b
}

#[test]
fn count_alive_neighbors_wraps_around() {
    let b = board_with(4, 4, &[(3, 3), (1, 0), (0, 3)]);
    assert_eq!(GameOfLife::count_alive_neighbors(&b, 0, 0), 3);
    assert_eq!(GameOfLife::count_alive_neighbors(&b, 2, 2), 1);
}

#[test]
fn blinker_oscillates() {
    let b = board_with(5, 5, &[(1, 2), (2, 2), (3, 2)]);
    let next = GameOfLife::advance_board(&b);
    for y in 0..5 {
        for x in 0..5 {
            let expected = x == 2 && (1..=3).contains(&y);
            assert_eq!(*next.at(x, y), expected);
        }
    }
    let mut game = GameOfLife::new(next);
    Simulation::advance(&mut game).unwrap();
    for y in 0..5 {
        for x in 0..5 {
            assert_eq!(*game.board().at(x, y), *b.at(x, y));
        }
    }
}

#[test]
fn random_board_has_requested_size() {
    let b = Board::new_random(6, 4);
    assert_eq!(b.width(), 6);
    assert_eq!(b.height(), 4);
    assert_eq!(b.cells().len(), 24);
}
