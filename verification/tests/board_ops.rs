use reversi::board::{Board, Cell, Color, Move, Pos};

#[test]
fn color_equal_compares_by_value() {
    assert!(Color::equal(&Color::Black, &Color::Black));
    assert!(Color::equal(&Color::White, &Color::White));
    assert!(!Color::equal(&Color::Black, &Color::White));
    assert!(!Color::equal(&Color::White, &Color::Black));
}

#[test]
fn color_predicates() {
    assert!(Color::Black.is_black());
    assert!(!Color::Black.is_white());
    assert!(Color::White.is_white());
    assert!(!Color::White.is_black());
    assert_eq!(Color::Black.opposite(), Color::White);
    assert_eq!(Color::White.opposite(), Color::Black);
}

#[test]
fn cell_predicates() {
    assert!(Cell::Empty.is_empty());
    assert!(!Cell::Empty.is_available());
    assert!(!Cell::Empty.is_piece());
    assert!(Cell::Available.is_available());
    assert!(!Cell::Available.is_empty());
    assert!(!Cell::Available.is_piece());
    assert!(Cell::Piece(Color::Black).is_piece());
    assert!(!Cell::Piece(Color::White).is_empty());
    assert!(!Cell::Piece(Color::White).is_available());
}

#[test]
fn pos_add_steps_and_bounds() {
    let p = Pos { x: 3usize, y: 0usize };
    let east = p.add(Pos { x: 1i32, y: 0i32 }).unwrap();
    assert_eq!((east.x, east.y), (4, 0));
    // Stepping north off the top row leaves the board.
    assert!(p.add(Pos { x: 0i32, y: -1i32 }).is_none());
    let corner = Pos { x: 7usize, y: 7usize };
    assert!(corner.add(Pos { x: 1i32, y: 0i32 }).is_none());
    assert!(corner.add(Pos { x: 0i32, y: 1i32 }).is_none());
    let back = corner.add(Pos { x: -1i32, y: -1i32 }).unwrap();
    assert_eq!((back.x, back.y), (6, 6));
}

#[test]
fn move_new_validates_bounds() {
    let m = Move::new(0, 7, Color::White).unwrap();
    assert_eq!((m.x, m.y), (0, 7));
    assert_eq!(m.color, Color::White);
    assert_eq!(Move::new(8, 0, Color::Black).unwrap_err(), "Invalid Pos");
    assert!(Move::new(0, 8, Color::Black).is_err());
    assert!(Move::new(-1, 0, Color::Black).is_err());
    assert!(Move::new(0, -1, Color::Black).is_err());
}

#[test]
fn new_board_is_empty() {
    let b = Board::new();
    for y in 0..8usize {
        for x in 0..8usize {
            assert_eq!(b.get_cell(Pos { x, y }), Cell::Empty);
        }
    }
    assert_eq!(b.count_piece(), (0, 0));
}

#[test]
fn all_pos_row_major() {
    let v = Board::all_pos();
    assert_eq!(v.len(), 64);
    assert_eq!((v[0].x, v[0].y), (0, 0));
    assert_eq!((v[1].x, v[1].y), (1, 0));
    assert_eq!((v[8].x, v[8].y), (0, 1));
    assert_eq!((v[63].x, v[63].y), (7, 7));
    for (i, p) in v.iter().enumerate() {
        assert_eq!(p.x, i % 8);
        assert_eq!(p.y, i / 8);
    }
}

#[test]
fn set_and_get_cell() {
    let mut b = Board::new();
    b.set_cell(Pos { x: 5usize, y: 2usize }, Cell::Piece(Color::White));
    assert_eq!(b.get_cell(Pos { x: 5, y: 2 }), Cell::Piece(Color::White));
    assert_eq!(b.get_cell(Pos { x: 2, y: 5 }), Cell::Empty);
    b.set_cell(Pos { x: 5usize, y: 2usize }, Cell::Available);
    assert_eq!(b.get_cell(Pos { x: 5, y: 2 }), Cell::Available);
    assert_eq!(b.count_piece(), (0, 0));
}

#[test]
fn count_piece_tallies_both_colors() {
    let mut b = Board::new();
    b.set_cell(Pos { x: 0usize, y: 0usize }, Cell::Piece(Color::Black));
    b.set_cell(Pos { x: 1usize, y: 0usize }, Cell::Piece(Color::Black));
    b.set_cell(Pos { x: 2usize, y: 0usize }, Cell::Piece(Color::White));
    b.set_cell(Pos { x: 7usize, y: 7usize }, Cell::Piece(Color::Black));
    b.set_cell(Pos { x: 3usize, y: 3usize }, Cell::Available);
    assert_eq!(b.count_piece(), (3, 1));
}
