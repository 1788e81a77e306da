use triboard::apply_action;
use triboard::apply_actions;
use triboard::create_board;
use triboard::parse_command;
use triboard::ActionEvent;
use triboard::Coord;
use triboard::Piece;

#[test]
fn parses_a_move_command() {
    assert_eq!(
        parse_command("move 0,0 1,0"),
        Some(ActionEvent::Move(Coord(0, 0), Coord(1, 0)))
    );
}

#[test]
fn parses_a_shear_command_with_signs() {
    assert_eq!(
        parse_command("shear -1,2 3,2"),
        Some(ActionEvent::Shear(Coord(-1, 2), Coord(3, 2)))
    );
    assert_eq!(
        parse_command("move +4,-7 -0,+0"),
        Some(ActionEvent::Move(Coord(4, -7), Coord(0, 0)))
    );
}

#[test]
fn parses_every_piece_keyword() {
    assert_eq!(
        parse_command("set 0,0 empty"),
        Some(ActionEvent::SetPiece(Coord(0, 0), None))
    );
    assert_eq!(
        parse_command("set 0,0 blue"),
        Some(ActionEvent::SetPiece(Coord(0, 0), Some(Piece::Blue(false))))
    );
    assert_eq!(
        parse_command("set 0,0 blue-special"),
        Some(ActionEvent::SetPiece(Coord(0, 0), Some(Piece::Blue(true))))
    );
    assert_eq!(
        parse_command("set -2,1 red"),
        Some(ActionEvent::SetPiece(Coord(-2, 1), Some(Piece::Red(false))))
    );
    assert_eq!(
        parse_command("set 0,0 red-special"),
        Some(ActionEvent::SetPiece(Coord(0, 0), Some(Piece::Red(true))))
    );
}

#[test]
fn malformed_lines_yield_nothing() {
    assert_eq!(parse_command("move abc"), None);
    assert_eq!(parse_command(""), None);
    assert_eq!(parse_command("move"), None);
    assert_eq!(parse_command("move 0,0"), None);
    assert_eq!(parse_command("move 0 0"), None);
    assert_eq!(parse_command("move 0,0 1,"), None);
    assert_eq!(parse_command("move 0,0 ,1"), None);
    assert_eq!(parse_command("move 0,0 1,0 extra"), None);
    assert_eq!(parse_command("shear 0,0"), None);
    assert_eq!(parse_command("set 0,0 purple"), None);
    assert_eq!(parse_command("set 0,0"), None);
    assert_eq!(parse_command("jump 0,0 1,0"), None);
    assert_eq!(parse_command("MOVE 0,0 1,0"), None);
    assert_eq!(parse_command("move  0,0 1,0"), None);
    assert_eq!(parse_command("move 0,0,0 1,0"), None);
    assert_eq!(parse_command("move 0.5,0 1,0"), None);
}

#[test]
fn numbers_out_of_the_machine_range_are_dropped() {
    assert_eq!(parse_command("move 99999999999999999999999999,0 1,0"), None);
    // Leading zeros are harmless.
    assert_eq!(
        parse_command("move 0000000000000000000000007,0 1,0"),
        Some(ActionEvent::Move(Coord(7, 0), Coord(1, 0)))
    );
}

#[test]
fn extreme_machine_values_parse() {
    let max = isize::MAX.to_string();
    let min = isize::MIN.to_string();
    let line = format!("move {max},0 {min},1");
    assert_eq!(
        parse_command(&line),
        Some(ActionEvent::Move(Coord(isize::MAX, 0), Coord(isize::MIN, 1)))
    );
    // One past the maximum overflows and drops the line.
    let line = format!("move {}8,0 1,0", isize::MAX / 10);
    let over = parse_command(&line);
    assert_eq!(over, None);
}

#[test]
fn actions_drive_the_board() {
    let mut store = create_board();
    let act = parse_command("set 0,0 red-special").unwrap();
    assert!(apply_action(&mut store, act));
    assert_eq!(store.get(Coord(0, 0)).unwrap().piece, Some(Piece::Red(true)));
    let act = parse_command("move 0,0 1,0").unwrap();
    assert!(apply_action(&mut store, act));
    assert_eq!(store.get(Coord(1, 0)).unwrap().piece, Some(Piece::Red(true)));
    assert_eq!(store.get(Coord(0, 0)).unwrap().piece, None);
}

#[test]
fn a_tick_queue_signals_once_for_many_actions() {
    let mut store = create_board();
    let queue = vec![
        parse_command("set 0,0 blue").unwrap(),
        parse_command("move 0,0 1,0").unwrap(),
        parse_command("shear 0,0 0,0").unwrap(),
    ];
    assert!(apply_actions(&mut store, &queue));
    assert_eq!(store.get(Coord(1, 0)).unwrap().piece, Some(Piece::Blue(false)));
}

#[test]
fn a_queue_of_rejected_actions_signals_nothing() {
    let mut store = create_board();
    let queue = vec![
        parse_command("set 100,100 blue").unwrap(),
        parse_command("shear 0,0 1,0").unwrap(),
    ];
    assert!(!apply_actions(&mut store, &queue));
}
