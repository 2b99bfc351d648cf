use cell_sim::board::{indices_2d, Board};
use cell_sim::torus::torus_neighbors;

fn assert_point_iterables_eq(
    expected_vals: &[(usize, usize)],
    actual_next: &mut dyn FnMut() -> Option<(usize, usize)>,
) {
    let mut num_compared = 0;
    let mut expected_it = expected_vals.iter();

    while let (Some(actual), Some(&expected)) = (actual_next(), expected_it.next()) {
        assert_eq!(expected, actual);
        num_compared += 1;
    }

    assert_eq!(expected_vals.len(), num_compared);
    assert!(actual_next().is_none());
}

#[test]
fn test_board_at() {
    let mut board = Board::new(4, 3, 0);

    assert_eq!(board.width(), 4);
    assert_eq!(board.height(), 3);

    for y in 0..board.height() {
        for x in 0..board.width() {
            let value = y * board.width() + x;
            *board.at_mut(x, y) = value;
            assert_eq!(*board.at(x, y), value);
        }
    }
}

#[test]
fn test_indices_2d() {
    let expected = [
        (0, 0), (1, 0), (2, 0),
        (0, 1), (1, 1), (2, 1),
        (0, 2), (1, 2), (2, 2),
        (0, 3), (1, 3), (2, 3),
    ];

    let mut it = indices_2d(3, 4);
    assert_point_iterables_eq(&expected, &mut || it.next());
}

#[test]
fn test_torus_neighbors_basic() {
    let expected_output = [
        (0, 0), (1, 0), (2, 0),
        (0, 1),         (2, 1),
        (0, 2), (1, 2), (2, 2),
    ];

    let mut it = torus_neighbors(1, 1, 3, 3);
    assert_point_iterables_eq(&expected_output, &mut || it.next());
}

#[test]
fn test_torus_neighbors_zero() {
    let expected_output = [
        (2, 2), (0, 2), (1, 2),
        (2, 0),         (1, 0),
        (2, 1), (0, 1), (1, 1),
    ];

    let mut it = torus_neighbors(0, 0, 3, 3);
    assert_point_iterables_eq(&expected_output, &mut || it.next());
}

#[test]
fn test_torus_neighbors_end() {
    let expected_output = [
        (1, 1), (2, 1), (0, 1),
        (1, 2),         (0, 2),
        (1, 0), (2, 0), (0, 0),
    ];

    let mut it = torus_neighbors(2, 2, 3, 3);
    assert_point_iterables_eq(&expected_output, &mut || it.next());
}

#[test]
fn write_then_read_leaves_other_cells() {
    let mut board = Board::new(5, 2, 7u32);
    *board.at_mut(3, 1) = 42;
    for y in 0..2 {
        for x in 0..5 {
            let expected = if (x, y) == (3, 1) { 42 } else { 7 };
            assert_eq!(*board.at(x, y), expected);
        }
    }
    assert_eq!(board.cells()[1 * 5 + 3], 42);
}

#[test]
fn indices_cover_board_once_in_row_major_order() {
    for (w, h) in [(1usize, 1usize), (1, 5), (5, 1), (4, 3), (7, 6)] {
        let board = Board::new(w, h, false);
        let mut it = board.indices();
        let mut seen = Vec::new();
        while let Some(p) = it.next() {
            seen.push(p);
        }
        assert_eq!(seen.len(), w * h);
        for (i, &(x, y)) in seen.iter().enumerate() {
            assert_eq!((x, y), (i % w, i / w));
        }
        assert!(it.next().is_none());
    }
}

#[test]
fn indices_of_empty_grid() {
    assert!(indices_2d(0, 4).next().is_none());
    assert!(indices_2d(4, 0).next().is_none());
}

#[test]
fn torus_neighbors_are_eight_distinct_cells() {
    for (w, h) in [(3usize, 3usize), (4, 5), (6, 3)] {
        for y in 0..h {
            for x in 0..w {
                let mut it = torus_neighbors(x, y, w, h);
                let mut seen = Vec::new();
                while let Some(p) = it.next() {
                    assert!(p.0 < w && p.1 < h);
                    assert_ne!(p, (x, y));
                    assert!(!seen.contains(&p));
                    seen.push(p);
                }
                assert_eq!(seen.len(), 8);
            }
        }
    }
}

#[test]
fn torus_neighbors_on_narrow_grid_repeat() {
    let mut it = torus_neighbors(0, 0, 1, 1);
    let mut n = 0;
    while let Some(p) = it.next() {
        assert_eq!(p, (0, 0));
        n += 1;
    }
    assert_eq!(n, 8);
}
