use triboard::create_board;
use triboard::Coord;
use triboard::Piece;
use triboard::Tile;
use triboard::TileStore;

fn snapshot(store: &TileStore) -> Vec<(Coord, Tile)> {
    let mut v = Vec::new();
    let mut i = 0;
    while i < store.len() {
        v.push(store.cell_at(i));
        i += 1;
    }
    v
}

fn count_pieces(store: &TileStore) -> usize {
    snapshot(store).iter().filter(|(_, t)| t.piece.is_some()).count()
}

fn row_board() -> TileStore {
    // A small board holding rows y in {-1, 0, 1}, columns 0..=2, with
    // pieces that identify their row.
    let mut store = TileStore::new();
    for y in -1isize..=1 {
        for x in 0isize..=2 {
            let piece = match y {
                -1 => Some(Piece::Blue(false)),
                0 => Some(Piece::Red(false)),
                _ => None,
            };
            assert!(store.add_cell(Coord(x, y), Tile { piece }));
        }
    }
    store
}

#[test]
fn create_board_shape() {
    let store = create_board();
    // Rows -3..3 hold 7, 9, 11, 11, 9 and 7 cells.
    assert_eq!(store.len(), 54);
    let ((minx, maxx), (miny, maxy)) = store.bounding_box();
    assert_eq!((minx, maxx), (-5, 5));
    assert_eq!((miny, maxy), (-3, 2));
    // Row bounds: row -1 reaches column 5, row -3 only column 3.
    assert!(store.get(Coord(5, -1)).is_some());
    assert!(store.get(Coord(5, 0)).is_some());
    assert!(store.get(Coord(4, -3)).is_none());
    assert!(store.get(Coord(3, -3)).is_some());
    assert!(store.get(Coord(0, 3)).is_none());
}

#[test]
fn create_board_seeding() {
    let store = create_board();
    // Blue fills rows -3 and -2 on parity-1 cells, promoted at x == 0.
    assert_eq!(store.get(Coord(0, -3)).unwrap().piece, Some(Piece::Blue(true)));
    assert_eq!(store.get(Coord(2, -3)).unwrap().piece, Some(Piece::Blue(false)));
    assert_eq!(store.get(Coord(1, -3)).unwrap().piece, None);
    // In row -2 the middle column has the wrong parity, so the row
    // has no promoted piece.
    assert_eq!(store.get(Coord(0, -2)).unwrap().piece, None);
    assert_eq!(store.get(Coord(1, -2)).unwrap().piece, Some(Piece::Blue(false)));
    // Red fills rows 1 and 2 on parity -1 cells, promoted at x == 0.
    assert_eq!(store.get(Coord(0, 2)).unwrap().piece, Some(Piece::Red(true)));
    assert_eq!(store.get(Coord(1, 1)).unwrap().piece, Some(Piece::Red(false)));
    assert_eq!(store.get(Coord(0, 1)).unwrap().piece, None);
    // The middle of the board is empty.
    assert_eq!(store.get(Coord(0, 0)).unwrap().piece, None);
    assert_eq!(store.get(Coord(0, -1)).unwrap().piece, None);
}

#[test]
fn move_swaps_occupants_and_conserves_pieces() {
    let mut store = create_board();
    let before = count_pieces(&store);
    let signaled = store.move_piece(Coord(0, -3), Coord(0, 0));
    assert!(signaled);
    assert_eq!(store.get(Coord(0, 0)).unwrap().piece, Some(Piece::Blue(true)));
    assert_eq!(store.get(Coord(0, -3)).unwrap().piece, None);
    assert_eq!(count_pieces(&store), before);
}

#[test]
fn move_with_missing_end_is_a_noop_but_signals() {
    let mut store = create_board();
    let before = snapshot(&store);
    let signaled = store.move_piece(Coord(0, -3), Coord(100, 100));
    assert!(signaled);
    assert_eq!(snapshot(&store), before);
}

#[test]
fn move_onto_itself_changes_nothing() {
    let mut store = create_board();
    let before = snapshot(&store);
    assert!(store.move_piece(Coord(0, -3), Coord(0, -3)));
    assert_eq!(snapshot(&store), before);
}

#[test]
fn set_overwrites_an_existing_cell() {
    let mut store = create_board();
    let signaled = store.set_piece(Coord(0, 0), Some(Piece::Red(true)));
    assert!(signaled);
    assert_eq!(store.get(Coord(0, 0)).unwrap().piece, Some(Piece::Red(true)));
}

#[test]
fn set_on_an_absent_cell_is_silent() {
    let mut store = create_board();
    let before = snapshot(&store);
    let signaled = store.set_piece(Coord(100, 100), Some(Piece::Red(true)));
    assert!(!signaled);
    assert_eq!(snapshot(&store), before);
}

#[test]
fn shear_identity_signals_once_and_moves_nothing() {
    let mut store = create_board();
    let before = snapshot(&store);
    let signaled = store.shear(Coord(0, 0), Coord(0, 0));
    assert!(signaled);
    assert_eq!(snapshot(&store), before);
}

#[test]
fn shear_parity_mismatch_is_rejected_without_signal() {
    let mut store = create_board();
    let before = snapshot(&store);
    let signaled = store.shear(Coord(0, 0), Coord(1, 0));
    assert!(!signaled);
    assert_eq!(snapshot(&store), before);
}

#[test]
fn shear_off_axis_is_rejected_without_signal() {
    let mut store = create_board();
    let before = snapshot(&store);
    // Same parity, but (2, 4) lies on none of the three axes through
    // the origin.
    let signaled = store.shear(Coord(0, 0), Coord(2, 4));
    assert!(!signaled);
    assert_eq!(snapshot(&store), before);
}

#[test]
fn shear_horizontal_moves_the_lower_half_plane() {
    let mut store = row_board();
    // parity(0, 0) == -1, so the selected cells are those with
    // y * -1 >= 0, that is y <= 0; they move by +2 in x.
    let signaled = store.shear(Coord(0, 0), Coord(2, 0));
    assert!(signaled);
    // Rows -1 and 0 moved: their old leftmost columns are gone.
    assert!(store.get(Coord(0, -1)).is_none());
    assert!(store.get(Coord(0, 0)).is_none());
    assert_eq!(store.get(Coord(2, -1)).unwrap().piece, Some(Piece::Blue(false)));
    assert_eq!(store.get(Coord(4, -1)).unwrap().piece, Some(Piece::Blue(false)));
    assert_eq!(store.get(Coord(2, 0)).unwrap().piece, Some(Piece::Red(false)));
    // Row 1 stays where it was.
    assert_eq!(store.get(Coord(0, 1)).unwrap().piece, None);
    assert!(store.get(Coord(3, 1)).is_none());
}

#[test]
fn shear_diagonal_translates_by_the_full_vector() {
    let mut store = row_board();
    // Endpoints (0, 0) and (1, 1) lie on the first diagonal axis and
    // share parity -1... (0+0 even, 1+1 even).  Selected cells satisfy
    // (x - 0) * -1 >= (y - 0) * -1, that is x <= y.
    let signaled = store.shear(Coord(0, 0), Coord(1, 1));
    assert!(signaled);
    // (0, 0) satisfies x <= y and moves to (1, 1), displacing nothing
    // else there: the old (1, 1) cell also moved, to (2, 2).
    assert_eq!(store.get(Coord(1, 1)).unwrap().piece, Some(Piece::Red(false)));
    assert_eq!(store.get(Coord(2, 2)).unwrap().piece, None);
    // (2, 0) has x > y and stays.
    assert_eq!(store.get(Coord(2, 0)).unwrap().piece, Some(Piece::Red(false)));
}

#[test]
fn shear_second_diagonal_selects_the_other_half_plane() {
    let mut store = row_board();
    // Endpoints (0, 0) and (-1, 1) lie on the second diagonal axis
    // (0 - (-1) == 1 - 0) and share parity -1.  Selected cells satisfy
    // (0 - x) * -1 >= (y - 0) * -1, that is x + y >= 0; they move by
    // (-1, 1).
    let signaled = store.shear(Coord(0, 0), Coord(-1, 1));
    assert!(signaled);
    assert_eq!(store.get(Coord(0, 0)).unwrap().piece, Some(Piece::Blue(false)));
    assert_eq!(store.get(Coord(-1, 1)).unwrap().piece, Some(Piece::Red(false)));
    // (0, -1) has x + y < 0 and stays put.
    assert_eq!(store.get(Coord(0, -1)).unwrap().piece, Some(Piece::Blue(false)));
    // (2, 1) moved away and nothing replaced it.
    assert!(store.get(Coord(2, 1)).is_none());
}

#[test]
fn recenter_of_an_empty_board_is_harmless() {
    let mut store = TileStore::new();
    store.recenter();
    assert_eq!(store.len(), 0);
}

#[test]
fn recenter_is_idempotent() {
    let mut store = row_board();
    store.recenter();
    let once = snapshot(&store);
    store.recenter();
    assert_eq!(snapshot(&store), once);
}

#[test]
fn recenter_shifts_by_the_even_midpoint() {
    let mut store = TileStore::new();
    for x in 0isize..=4 {
        for y in 0isize..=2 {
            store.add_cell(Coord(x, y), Tile { piece: None });
        }
    }
    // x-range [0, 4]: center (0 + 4) / 4 * 2 = 2; y-range [0, 2]:
    // center (0 + 2) / 4 * 2 = 0.
    store.recenter();
    let ((minx, maxx), (miny, maxy)) = store.bounding_box();
    assert_eq!((minx, maxx), (-2, 2));
    assert_eq!((miny, maxy), (0, 2));
}

#[test]
fn recenter_on_the_starting_board_changes_nothing() {
    let mut store = create_board();
    let before = snapshot(&store);
    store.recenter();
    assert_eq!(snapshot(&store), before);
}

#[test]
fn empty_board_bounding_box_keeps_sentinels() {
    let store = TileStore::new();
    let ((minx, maxx), (miny, maxy)) = store.bounding_box();
    assert_eq!((minx, maxx), (isize::MAX, isize::MIN));
    assert_eq!((miny, maxy), (isize::MAX, isize::MIN));
}

#[test]
fn add_cell_refuses_a_duplicate_key() {
    let mut store = TileStore::new();
    assert!(store.add_cell(Coord(1, 1), Tile { piece: None }));
    assert!(!store.add_cell(Coord(1, 1), Tile { piece: Some(Piece::Blue(false)) }));
    assert_eq!(store.len(), 1);
    assert_eq!(store.get(Coord(1, 1)).unwrap().piece, None);
}
