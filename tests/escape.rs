use cat_wasm::{Board, Point};

fn on_edge(p: Point, size: usize) -> bool {
    p.x == 0 || p.y == 0 || p.x == size - 1 || p.y == size - 1
}

#[test]
fn open_board_escape_takes_hex_distance_steps() {
    let mut board = Board::new(5);
    board.set_cat(2, 2);
    let first = board.bfs().unwrap();
    assert!(!on_edge(first, 5));
    let mut steps = 0;
    loop {
        let next = board.bfs().unwrap();
        if next == board.cat_position() {
            break;
        }
        let dy = next.y as isize - board.cat_position().y as isize;
        assert!(dy.abs() <= 1);
        board.set_cat(next.x, next.y);
        steps += 1;
        assert!(steps <= 5);
    }
    assert_eq!(steps, 2);
    assert!(on_edge(board.cat_position(), 5));
}

#[test]
fn first_step_on_open_board() {
    let mut board = Board::new(5);
    board.set_cat(2, 2);
    assert_eq!(board.bfs(), Some(Point::new(2, 1)));
}

#[test]
fn enclosed_cat_has_no_escape() {
    let mut board = Board::new(5);
    board.set_cat(2, 2);
    for (x, y) in [(2, 1), (1, 1), (1, 2), (3, 2), (2, 3), (1, 3)] {
        board.put_hindrance(x, y);
    }
    assert_eq!(board.bfs(), None);
}

#[test]
fn enclosed_cat_on_odd_row_has_no_escape() {
    let mut board = Board::new(5);
    board.set_cat(2, 1);
    for (x, y) in [(2, 0), (3, 0), (1, 1), (3, 1), (2, 2), (3, 2)] {
        board.put_hindrance(x, y);
    }
    assert_eq!(board.bfs(), None);
}

#[test]
fn larger_enclosure_has_no_escape() {
    let mut board = Board::new(7);
    board.set_cat(3, 3);
    for y in 0..7 {
        for x in 0..7 {
            if x == 1 || x == 5 || y == 1 || y == 5 {
                board.put_hindrance(x, y);
            }
        }
    }
    assert_eq!(board.bfs(), None);
}

#[test]
fn boundary_start_returns_own_cell() {
    let mut board = Board::new(5);
    board.set_cat(0, 2);
    assert_eq!(board.bfs(), Some(Point::new(0, 2)));
    board.put_hindrance(1, 2);
    board.put_hindrance(0, 1);
    assert_eq!(board.bfs(), Some(Point::new(0, 2)));
    let mut random = Board::new(9);
    random.init();
    random.set_cat(0, 2);
    assert_eq!(random.bfs(), Some(Point::new(0, 2)));
}

#[test]
fn escape_goes_around_obstacles() {
    let mut board = Board::new(5);
    board.set_cat(2, 2);
    // close every neighbour but the right one
    for (x, y) in [(2, 1), (1, 1), (1, 2), (2, 3), (1, 3)] {
        board.put_hindrance(x, y);
    }
    assert_eq!(board.bfs(), Some(Point::new(3, 2)));
}

#[test]
fn single_cell_board_escapes_in_place() {
    let board = Board::new(1);
    assert_eq!(board.bfs(), Some(Point::new(0, 0)));
}

#[test]
fn repeated_searches_agree() {
    for _ in 0..10 {
        let mut board = Board::new(9);
        board.init();
        let first = board.bfs();
        for _ in 0..5 {
            assert_eq!(board.bfs(), first);
        }
    }
}

#[test]
fn following_moves_around_a_wall_reaches_edge_in_shortest_steps() {
    // a wall on column 3 with one gap at the top; the cat starts left of it
    let mut board = Board::new(7);
    board.set_cat(2, 3);
    for y in 0..7 {
        board.put_hindrance(3, y);
        board.put_hindrance(1, y);
    }
    for x in 0..7 {
        if x != 3 {
            board.put_hindrance(x, 6);
        }
    }
    let mut steps = 0;
    loop {
        let next = board.bfs().unwrap();
        if next == board.cat_position() {
            break;
        }
        board.set_cat(next.x, next.y);
        steps += 1;
        assert!(steps <= 10);
    }
    // from (2, 3): (2, 2), (2, 1), then (2, 0) on the top edge
    assert_eq!(steps, 3);
    assert_eq!(board.cat_position().y, 0);
}
