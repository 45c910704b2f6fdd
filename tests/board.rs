use cat_wasm::{Board, Point, PointWithParent};

fn obstacle_count(board: &Board) -> usize {
    board.cells().iter().filter(|c| **c).count()
}

#[test]
fn new_board_is_clear() {
    let board = Board::new(4);
    assert_eq!(board.size(), 4);
    assert_eq!(board.cells().len(), 16);
    assert_eq!(obstacle_count(&board), 0);
    assert_eq!(board.cat_position(), Point::new(0, 0));
}

#[test]
fn init_centres_cat_and_scatters_obstacles() {
    for size in [1usize, 2, 3, 4, 5, 6, 9, 11] {
        for _ in 0..20 {
            let mut board = Board::new(size);
            board.init();
            let c = board.cat_position();
            assert_eq!(c, Point::new(size / 2, size / 2));
            assert!(!board.is_obstacle(c.x, c.y));
            let count = obstacle_count(&board);
            let cap = size * size - 1;
            assert!(count >= size.min(cap));
            assert!(count <= (size + 4).min(cap));
        }
    }
}

#[test]
fn init_on_even_size_takes_lower_centre() {
    let mut board = Board::new(6);
    board.init();
    assert_eq!(board.cat_position(), Point::new(3, 3));
}

#[test]
fn init_after_moves_keeps_cat_clear() {
    let mut board = Board::new(5);
    board.put_hindrance(2, 2);
    board.set_cat(2, 2);
    assert!(board.is_obstacle(2, 2));
    board.init();
    assert_eq!(board.cat_position(), Point::new(2, 2));
    assert!(!board.is_obstacle(2, 2));
}

#[test]
fn generate_board_saturates_small_board() {
    for _ in 0..20 {
        let mut board = Board::new(2);
        board.set_cat(1, 0);
        board.generate_board();
        let count = obstacle_count(&board);
        assert!(count == 2 || count == 3);
        assert!(!board.is_obstacle(1, 0));
        assert_eq!(board.cat_position(), Point::new(1, 0));
    }
}

#[test]
fn generate_board_on_single_cell_places_nothing() {
    let mut board = Board::new(1);
    board.generate_board();
    assert_eq!(obstacle_count(&board), 0);
}

#[test]
fn generate_board_clears_previous_obstacles() {
    let mut board = Board::new(3);
    for y in 0..3 {
        for x in 0..3 {
            if (x, y) != (0, 0) {
                board.put_hindrance(x, y);
            }
        }
    }
    assert_eq!(obstacle_count(&board), 8);
    board.generate_board();
    let count = obstacle_count(&board);
    assert!(count >= 3 && count <= 7);
    assert!(!board.is_obstacle(0, 0));
}

#[test]
fn check_number_ok_cases() {
    let board = Board::new(5);
    assert!(board.check_number_ok(0, 0));
    assert!(board.check_number_ok(4, 4));
    assert!(!board.check_number_ok(5, 5));
    assert!(!board.check_number_ok(-1, -1));
    assert!(!board.check_number_ok(2, 3));
}

#[test]
fn cell_from_candidates_cases() {
    let board = Board::new(5);
    assert_eq!(board.cell_from_candidates(1, 1, 3, 3), Some(Point::new(3, 1)));
    assert_eq!(board.cell_from_candidates(1, 2, 3, 3), None);
    assert_eq!(board.cell_from_candidates(1, 1, 3, 4), None);
    assert_eq!(board.cell_from_candidates(-1, -1, 0, 0), None);
    assert_eq!(board.cell_from_candidates(0, 0, 5, 5), None);
}

#[test]
fn hindrance_placement() {
    let mut board = Board::new(5);
    board.set_cat(2, 2);
    assert!(!board.check_hindrance_ok(2, 2));
    assert!(board.check_hindrance_ok(1, 2));
    board.put_hindrance(1, 2);
    assert!(board.is_obstacle(1, 2));
    assert!(!board.check_hindrance_ok(1, 2));
    assert_eq!(board.cells()[2 * 5 + 1], true);
    assert_eq!(obstacle_count(&board), 1);
}

#[test]
fn set_cat_moves_cat() {
    let mut board = Board::new(5);
    board.set_cat(3, 1);
    assert_eq!(board.cat_position(), Point::new(3, 1));
    board.reset_cat();
    assert_eq!(board.cat_position(), Point::new(2, 2));
}

#[test]
fn point_conversions() {
    let p = Point::new(3, 4);
    assert_eq!(p.x, 3);
    assert_eq!(p.y, 4);
    let node = PointWithParent::from(p);
    assert_eq!(node.point, p);
    assert_eq!(node.parent, None);
    let back: Point = node.into();
    assert_eq!(back, p);
}

#[test]
fn scattered_obstacles_vary_between_boards() {
    let mut counts = std::collections::HashSet::new();
    let mut layouts = std::collections::HashSet::new();
    for _ in 0..40 {
        let mut board = Board::new(9);
        board.init();
        counts.insert(obstacle_count(&board));
        layouts.insert(board.cells().clone());
    }
    assert!(counts.len() > 1);
    assert!(counts.iter().any(|c| *c > 9));
    assert!(layouts.len() > 1);
}

fn free_list(board: &Board) -> Vec<usize> {
    let n = board.size();
    let cat = board.cat_position();
    (0..n * n)
        .filter(|i| *i != cat.y * n + cat.x && !board.cells()[*i])
        .collect()
}

#[test]
fn scatter_places_size_plus_extra() {
    for extra in 0..5usize {
        for _ in 0..10 {
            let mut board = Board::new(6);
            board.set_cat(3, 3);
            board.put_hindrance(0, 0);
            board.scatter(extra);
            assert_eq!(obstacle_count(&board), 6 + extra);
            assert!(!board.is_obstacle(3, 3));
            assert_eq!(board.cat_position(), Point::new(3, 3));
        }
    }
}

#[test]
fn scatter_caps_at_all_but_cat() {
    let mut board = Board::new(2);
    board.set_cat(0, 1);
    board.scatter(4);
    assert_eq!(obstacle_count(&board), 3);
    assert!(!board.is_obstacle(0, 1));
}

#[test]
fn place_free_takes_the_chosen_free_cell() {
    let mut board = Board::new(3);
    board.set_cat(1, 1);
    board.put_hindrance(1, 0);
    // free cells in row-major order: 0, 2, 3, 5, 6, 7, 8
    assert_eq!(free_list(&board), vec![0, 2, 3, 5, 6, 7, 8]);
    board.place_free(2);
    assert!(board.is_obstacle(0, 1));
    assert_eq!(obstacle_count(&board), 2);
    board.place_free(0);
    assert!(board.is_obstacle(0, 0));
    assert_eq!(free_list(&board), vec![2, 5, 6, 7, 8]);
    board.place_free(4);
    assert!(board.is_obstacle(2, 2));
}
