use game_of_life::board::Board;

fn board_with(width: i32, height: i32, alive: &[(i32, i32)]) -> Board {
    let mut b = Board::new(width, height);
    for &(x, y) in alive {
        b.set_cell(x, y, true);
    }
    b
}

fn live_cells(b: &Board) -> Vec<(i32, i32)> {
    let mut out = Vec::new();
    for y in 0..b.height() {
        for x in 0..b.width() {
            if b.get_cell(x, y) {
                out.push((x, y));
            }
        }
    }
    out
}

#[test]
fn new_board_has_one_dead_cell_per_position() {
    for &(w, h) in &[(0, 0), (0, 5), (5, 0), (1, 1), (3, 7), (16, 16)] {
        let b = Board::new(w, h);
        assert_eq!(b.width(), w);
        assert_eq!(b.height(), h);
        assert_eq!(b.cells().len(), (w * h) as usize);
        assert!(b.cells().iter().all(|c| !c));
    }
}

#[test]
fn zero_area_board_is_empty_and_steps_to_empty() {
    let b = Board::new(0, 4);
    assert!(b.cells().is_empty());
    let n = b.next_generation();
    assert_eq!(n.width(), 0);
    assert_eq!(n.height(), 4);
    assert!(n.cells().is_empty());
}

#[test]
fn default_board_is_ten_by_ten_and_dead() {
    let b = Board::default();
    assert_eq!(b.width(), 10);
    assert_eq!(b.height(), 10);
    assert_eq!(b.cells().len(), 100);
    assert!(b.cells().iter().all(|c| !c));
}

#[test]
fn try_new_rejects_negative_dimensions() {
    assert!(Board::try_new(-1, 3).is_none());
    assert!(Board::try_new(3, -1).is_none());
    assert!(Board::try_new(-2, -2).is_none());
    let b = Board::try_new(4, 2).unwrap();
    assert_eq!(b.cells().len(), 8);
    assert!(Board::try_new(0, 0).unwrap().cells().is_empty());
}

#[test]
fn index_is_row_major() {
    let b = Board::new(4, 3);
    assert_eq!(b.get_index(0, 0), 0);
    assert_eq!(b.get_index(3, 0), 3);
    assert_eq!(b.get_index(0, 1), 4);
    assert_eq!(b.get_index(1, 2), 9);
    assert_eq!(b.get_index(3, 2), 11);
}

#[test]
fn index_covers_every_position_once() {
    let b = Board::new(5, 3);
    let mut seen = vec![false; 15];
    for y in 0..3 {
        for x in 0..5 {
            let i = b.get_index(x, y);
            assert!(i < 15);
            assert!(!seen[i]);
            seen[i] = true;
        }
    }
    assert!(seen.iter().all(|s| *s));
}

#[test]
fn set_cell_changes_only_that_cell() {
    let mut b = Board::new(3, 3);
    b.set_cell(2, 1, true);
    assert!(b.get_cell(2, 1));
    assert_eq!(live_cells(&b), vec![(2, 1)]);
    assert!(b.cells()[5]);
    b.set_cell(2, 1, false);
    assert!(live_cells(&b).is_empty());
}

#[test]
fn toggle_twice_restores_cell() {
    let mut b = board_with(4, 4, &[(1, 1), (3, 0)]);
    let before = b.cells().clone();
    b.toggle_cell(1, 1);
    assert!(!b.get_cell(1, 1));
    b.toggle_cell(1, 1);
    assert_eq!(b.cells(), &before);
    b.toggle_cell(2, 3);
    assert!(b.get_cell(2, 3));
    b.toggle_cell(2, 3);
    assert_eq!(b.cells(), &before);
}

#[test]
fn clear_makes_every_cell_dead() {
    let mut b = board_with(3, 2, &[(0, 0), (2, 1), (1, 0)]);
    b.clear();
    assert_eq!(b.width(), 3);
    assert_eq!(b.height(), 2);
    for y in 0..2 {
        for x in 0..3 {
            assert!(!b.get_cell(x, y));
        }
    }
}

#[test]
fn next_generation_is_deterministic_and_leaves_board_unchanged() {
    let b = board_with(6, 5, &[(0, 0), (1, 0), (2, 1), (4, 4), (3, 3), (3, 4)]);
    let before = b.cells().clone();
    let n1 = b.next_generation();
    let n2 = b.next_generation();
    assert_eq!(n1.cells(), n2.cells());
    assert_eq!(b.cells(), &before);
}

#[test]
fn block_is_a_still_life() {
    let block = [(1, 1), (2, 1), (1, 2), (2, 2)];
    let b = board_with(4, 4, &block);
    let n = b.next_generation();
    assert_eq!(n.cells(), b.cells());
    let b = board_with(7, 6, &[(3, 2), (4, 2), (3, 3), (4, 3)]);
    assert_eq!(b.next_generation().cells(), b.cells());
}

#[test]
fn blinker_oscillates_with_period_two() {
    let b = board_with(5, 5, &[(1, 2), (2, 2), (3, 2)]);
    let n = b.next_generation();
    assert_eq!(live_cells(&n), vec![(2, 1), (2, 2), (2, 3)]);
    let m = n.next_generation();
    assert_eq!(live_cells(&m), vec![(1, 2), (2, 2), (3, 2)]);
    assert_eq!(m.cells(), b.cells());
}

#[test]
fn isolated_corner_cell_dies() {
    for &(w, h) in &[(1, 1), (2, 2), (5, 3)] {
        let b = board_with(w, h, &[(0, 0)]);
        let n = b.next_generation();
        assert!(!n.get_cell(0, 0));
        assert!(live_cells(&n).is_empty());
    }
}

#[test]
fn birth_reads_only_previous_generation() {
    let b = board_with(3, 3, &[(0, 1), (1, 1), (2, 1)]);
    let n = b.next_generation();
    assert!(n.get_cell(1, 1));
    assert!(n.get_cell(1, 0));
    assert!(n.get_cell(1, 2));
    assert!(!n.get_cell(0, 1));
    assert!(!n.get_cell(2, 1));
    assert_eq!(live_cells(&n), vec![(1, 0), (1, 1), (1, 2)]);
}

#[test]
fn overcrowded_cell_dies_and_survivor_with_two_lives() {
    // The centre has four neighbours and the corner (0, 0) one: both die.
    let b = board_with(3, 3, &[(0, 0), (1, 1), (2, 0), (0, 2), (2, 2)]);
    let n = b.next_generation();
    assert!(!n.get_cell(1, 1));
    assert!(!n.get_cell(0, 0));
    let b = board_with(3, 3, &[(0, 0), (1, 0), (0, 1)]);
    let n = b.next_generation();
    assert!(n.get_cell(0, 0));
    assert!(n.get_cell(1, 1));
    assert_eq!(live_cells(&n), vec![(0, 0), (1, 0), (0, 1), (1, 1)]);
}

#[test]
fn edges_do_not_wrap() {
    // A vertical line on the left edge would feed the right edge on a torus.
    let b = board_with(4, 3, &[(0, 0), (0, 1), (0, 2)]);
    let n = b.next_generation();
    assert_eq!(live_cells(&n), vec![(0, 1), (1, 1)]);
}
