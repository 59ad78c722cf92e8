use reversi::board::{Cell, Color, Move, Pos};
use reversi::game::Game;

fn snapshot(g: &Game) -> Vec<Cell> {
    let mut v = Vec::new();
    for y in 0..8usize {
        for x in 0..8usize {
            v.push(g.board.get_cell(Pos { x, y }));
        }
    }
    v
}

fn available_set(g: &Game) -> Vec<(usize, usize)> {
    let mut v = Vec::new();
    for y in 0..8usize {
        for x in 0..8usize {
            if g.board.get_cell(Pos { x, y }).is_available() {
                v.push((x, y));
            }
        }
    }
    v
}

fn occupied_count(g: &Game) -> usize {
    let mut n = 0;
    for y in 0..8usize {
        for x in 0..8usize {
            if g.board.get_cell(Pos { x, y }).is_piece() {
                n += 1;
            }
        }
    }
    n
}

#[test]
fn initial_state() {
    let g = Game::new();
    assert_eq!(g.turn, Color::Black);
    assert_eq!(g.board.get_cell(Pos { x: 3, y: 3 }), Cell::Piece(Color::Black));
    assert_eq!(g.board.get_cell(Pos { x: 4, y: 4 }), Cell::Piece(Color::Black));
    assert_eq!(g.board.get_cell(Pos { x: 3, y: 4 }), Cell::Piece(Color::White));
    assert_eq!(g.board.get_cell(Pos { x: 4, y: 3 }), Cell::Piece(Color::White));
    assert_eq!(g.board.count_piece(), (2, 2));
    assert_eq!(occupied_count(&g), 4);
    for y in 0..8usize {
        for x in 0..8usize {
            if (x == 3 || x == 4) && (y == 3 || y == 4) {
                continue;
            }
            assert_eq!(g.board.get_cell(Pos { x, y }), Cell::Empty);
        }
    }
}

#[test]
fn opening_moves_for_black() {
    let mut g = Game::new();
    g.update_available_cell();
    let avail = available_set(&g);
    assert_eq!(avail.len(), 4);
    // With Black seeded on the (3,3)-(4,4) diagonal, Black's four opening
    // placements sit beside the two White pieces.
    assert!(avail.contains(&(2, 4)));
    assert!(avail.contains(&(4, 2)));
    assert!(avail.contains(&(3, 5)));
    assert!(avail.contains(&(5, 3)));
}

#[test]
fn recompute_is_idempotent() {
    let mut g = Game::new();
    g.update_available_cell();
    let first = snapshot(&g);
    g.update_available_cell();
    let second = snapshot(&g);
    assert_eq!(first, second);
    assert_eq!(available_set(&g).len(), 4);
}

#[test]
fn first_capture_flips_one_white() {
    let mut g = Game::new();
    g.update_available_cell();
    let m = Move { x: 2, y: 4, color: Color::Black };
    assert!(g.put_piece(m).is_ok());
    // Black placed at (2,4) brackets the White piece at (3,4) against the
    // Black anchor at (4,4): one flip.
    assert_eq!(g.board.get_cell(Pos { x: 2, y: 4 }), Cell::Piece(Color::Black));
    assert_eq!(g.board.get_cell(Pos { x: 3, y: 4 }), Cell::Piece(Color::Black));
    assert_eq!(g.board.count_piece(), (4, 1));
    assert_eq!(g.turn, Color::White);
    assert_eq!(g.winner(), Some(Color::Black));
}

#[test]
fn winner_is_none_on_tie() {
    let g = Game::new();
    assert_eq!(g.winner(), None);
}

#[test]
fn change_turn_alternates() {
    let mut g = Game::new();
    g.change_turn();
    assert_eq!(g.turn, Color::White);
    g.change_turn();
    assert_eq!(g.turn, Color::Black);
}

#[test]
fn illegal_move_leaves_board_unchanged() {
    let mut g = Game::new();
    g.update_available_cell();
    let before = snapshot(&g);
    let turn_before = g.turn;
    // An occupied cell.
    assert_eq!(
        g.put_piece(Move { x: 3, y: 3, color: Color::Black }).unwrap_err(),
        "Not Available Cell"
    );
    assert_eq!(snapshot(&g), before);
    assert_eq!(g.turn, turn_before);
    // An empty cell that is not marked Available.
    assert!(g.put_piece(Move { x: 0, y: 0, color: Color::Black }).is_err());
    assert_eq!(snapshot(&g), before);
    assert_eq!(g.turn, turn_before);
}

#[test]
fn piece_sum_counts_occupied_and_never_drops() {
    let mut g = Game::new();
    g.update_available_cell();
    let mut last_sum = {
        let (b, w) = g.board.count_piece();
        assert_eq!(b + w, occupied_count(&g));
        b + w
    };
    // Play greedily: always take the first available cell, a few turns.
    for _ in 0..6 {
        let avail = available_set(&g);
        if avail.is_empty() {
            break;
        }
        let (x, y) = avail[0];
        let color = g.turn;
        assert!(g.put_piece(Move { x, y, color }).is_ok());
        let (b, w) = g.board.count_piece();
        assert_eq!(b + w, occupied_count(&g));
        assert!(b + w >= last_sum);
        assert_eq!(b + w, last_sum + 1);
        last_sum = b + w;
    }
}

#[test]
fn edge_run_without_anchor_gives_no_move() {
    let mut g = Game::new();
    // A White run reaching the east edge with no Black anchor beyond it.
    g.board.set_cell(Pos { x: 6, y: 0 }, Cell::Piece(Color::White));
    g.board.set_cell(Pos { x: 7, y: 0 }, Cell::Piece(Color::White));
    g.turn = Color::Black;
    g.update_available_cell();
    assert!(!g.board.get_cell(Pos { x: 5, y: 0 }).is_available());
    assert!(g.put_piece(Move { x: 5, y: 0, color: Color::Black }).is_err());
    assert_eq!(g.board.get_cell(Pos { x: 6, y: 0 }), Cell::Piece(Color::White));
    assert_eq!(g.board.get_cell(Pos { x: 7, y: 0 }), Cell::Piece(Color::White));
}

#[test]
fn edge_run_with_anchor_flips() {
    let mut g = Game::new();
    // The same run, but bracketed: White at (6,0), Black anchor at (7,0).
    g.board.set_cell(Pos { x: 6, y: 0 }, Cell::Piece(Color::White));
    g.board.set_cell(Pos { x: 7, y: 0 }, Cell::Piece(Color::Black));
    g.turn = Color::Black;
    g.update_available_cell();
    assert!(g.board.get_cell(Pos { x: 5, y: 0 }).is_available());
    assert!(g.put_piece(Move { x: 5, y: 0, color: Color::Black }).is_ok());
    assert_eq!(g.board.get_cell(Pos { x: 5, y: 0 }), Cell::Piece(Color::Black));
    assert_eq!(g.board.get_cell(Pos { x: 6, y: 0 }), Cell::Piece(Color::Black));
    assert_eq!(g.board.get_cell(Pos { x: 7, y: 0 }), Cell::Piece(Color::Black));
}

#[test]
fn flip_recursive_flips_one_bracketed_run() {
    let mut g = Game::new();
    // Black to move; the run starting at the White piece (4,3), heading
    // west, is anchored by the Black piece at (3,3).
    let start = Pos { x: 4, y: 3 };
    let west = Pos { x: -1i32, y: 0i32 };
    assert!(g.flip_recursive(Some(start), west).is_ok());
    assert_eq!(g.board.get_cell(Pos { x: 4, y: 3 }), Cell::Piece(Color::Black));
    // Off-board hand-off reports failure and changes nothing.
    let before = snapshot(&g);
    assert!(g.flip_recursive(None, west).is_err());
    assert_eq!(snapshot(&g), before);
}

#[test]
fn flip_commits_all_qualifying_directions() {
    let mut g = Game::new();
    // Place Black at (2,4) by hand, then run the flip pass alone.
    g.board.set_cell(Pos { x: 2, y: 4 }, Cell::Piece(Color::Black));
    g.flip(Pos { x: 2, y: 4 });
    assert_eq!(g.board.get_cell(Pos { x: 3, y: 4 }), Cell::Piece(Color::Black));
    assert_eq!(g.board.count_piece(), (4, 1));
    // The other White piece is untouched: its runs have no bracket here.
    assert_eq!(g.board.get_cell(Pos { x: 4, y: 3 }), Cell::Piece(Color::White));
}

#[test]
fn multi_direction_capture() {
    let mut g = Game::new();
    // Surround (5,4): a White run west of it anchored by Black at (2,4)
    // (after the first capture there), and the White piece north of it
    // anchored by Black at (5,2).
    g.board.set_cell(Pos { x: 3, y: 4 }, Cell::Piece(Color::White));
    g.board.set_cell(Pos { x: 4, y: 4 }, Cell::Piece(Color::White));
    g.board.set_cell(Pos { x: 2, y: 4 }, Cell::Piece(Color::Black));
    g.board.set_cell(Pos { x: 5, y: 3 }, Cell::Piece(Color::White));
    g.board.set_cell(Pos { x: 5, y: 2 }, Cell::Piece(Color::Black));
    g.turn = Color::Black;
    g.update_available_cell();
    assert!(g.board.get_cell(Pos { x: 5, y: 4 }).is_available());
    assert!(g.put_piece(Move { x: 5, y: 4, color: Color::Black }).is_ok());
    // West run (4,4),(3,4) and north run (5,3) all flip at once.
    assert_eq!(g.board.get_cell(Pos { x: 4, y: 4 }), Cell::Piece(Color::Black));
    assert_eq!(g.board.get_cell(Pos { x: 3, y: 4 }), Cell::Piece(Color::Black));
    assert_eq!(g.board.get_cell(Pos { x: 5, y: 3 }), Cell::Piece(Color::Black));
}

#[test]
fn winner_follows_the_tally() {
    let mut g = Game::new();
    g.board.set_cell(Pos { x: 0, y: 0 }, Cell::Piece(Color::White));
    assert_eq!(g.winner(), Some(Color::White));
    g.board.set_cell(Pos { x: 1, y: 0 }, Cell::Piece(Color::Black));
    assert_eq!(g.winner(), None);
    g.board.set_cell(Pos { x: 2, y: 0 }, Cell::Piece(Color::Black));
    assert_eq!(g.winner(), Some(Color::Black));
}
