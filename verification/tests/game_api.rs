//! The game API end to end: creation, state import and export, moves,
//! results, and the printed grid.

use connect_four::game::{ConnectFour, ErrorCode, State};

fn create_default() -> ConnectFour {
    ConnectFour::create(None, None).unwrap()
}

fn create_with_state(string: &str) -> ConnectFour {
    ConnectFour::create(None, Some(string)).unwrap()
}

fn create_err(string: &str) -> ErrorCode {
    ConnectFour::create(Some(string), None).unwrap_err().code
}

fn assert_invalid(game: &mut ConnectFour, string: &str) {
    let err = game.import_state(Some(string)).unwrap_err().code;
    assert_eq!(ErrorCode::InvalidInput, err);
}

#[test]
fn create() {
    let game = ConnectFour::create(None, None).unwrap();
    assert_eq!(7, game.options().width);
    assert_eq!(6, game.options().height);
    assert_eq!(4, game.options().length);

    let game = ConnectFour::create(Some("4x3@2"), None).unwrap();
    assert_eq!(4, game.options().width);
    assert_eq!(3, game.options().height);
    assert_eq!(2, game.options().length);

    assert_eq!(ErrorCode::InvalidInput, create_err(""));
    assert_eq!(ErrorCode::InvalidInput, create_err("7x4"));
    assert_eq!(ErrorCode::InvalidInput, create_err("-5x4@2"));
    assert_eq!(ErrorCode::InvalidOptions, create_err("4x4@5"));
    assert_eq!(ErrorCode::InvalidOptions, create_err("2x0@1"));
}

#[test]
fn import_state() {
    let mut game = create_with_state("XO/O/////X#O");
    let mut winners = vec![];
    game.get_results(&mut winners);
    assert_eq!(vec![2], winners);
    assert_eq!(State::X, game.cell_at((0, 0)));
    assert_eq!(State::O, game.cell_at((0, 1)));
    assert_eq!(State::O, game.cell_at((1, 0)));
    assert_eq!(State::Empty, game.cell_at((1, 1)));
    assert_eq!(State::X, game.cell_at((6, 0)));

    game.import_state(None).unwrap();
    let mut to_move = vec![];
    game.players_to_move(&mut to_move);
    assert_eq!(vec![1], to_move);
    for column in 0..7u8 {
        for row in 0..6u8 {
            assert_eq!(State::Empty, game.cell_at((column, row)));
        }
    }

    game.import_state(Some("/XO//#-")).unwrap();
    assert!(game.is_draw());
    assert_eq!(State::X, game.cell_at((1, 0)));
    assert_eq!(State::O, game.cell_at((1, 1)));
    assert_eq!(State::Empty, game.cell_at((1, 2)));

    assert_invalid(&mut game, "///////#x");
    assert_invalid(&mut game, "XXXXXXXXXX#-");
    assert_invalid(&mut game, "X/O/X#F");
}

#[test]
fn copy_from() {
    let a = create_with_state("O/X#X");
    let mut b = create_with_state("O/X#o");

    b.copy_from(&a);
    assert_eq!(a, b);
}

#[test]
fn export_state() {
    let game = create_with_state("X/OOxO//X#O");

    let expected = "X/OOXO//X///#O";
    assert_eq!(expected, game.export_state());
}

#[test]
fn players_to_move() {
    let mut game = create_default();

    let mut storage = vec![];
    game.players_to_move(&mut storage);
    assert_eq!(vec![1], storage);

    game.import_state(Some("#o")).unwrap();
    let mut storage = vec![];
    game.players_to_move(&mut storage);
    assert_eq!(vec![2], storage);

    game.import_state(Some("/#O")).unwrap();
    let mut storage = vec![];
    game.players_to_move(&mut storage);
    assert_eq!(Vec::<u8>::new(), storage);

    game.import_state(Some("/x/#-")).unwrap();
    let mut storage = vec![];
    game.players_to_move(&mut storage);
    assert_eq!(Vec::<u8>::new(), storage);
}

#[test]
fn get_concrete_moves() {
    let mut game = create_with_state("//XOXOXO//#o");

    let mut storage = vec![];
    game.get_concrete_moves(1, &mut storage);
    assert_eq!(Vec::<u64>::new(), storage);

    let mut storage = vec![];
    game.get_concrete_moves(2, &mut storage);
    let expected: Vec<u64> = (0..7u64).filter(|&c| c != 2).collect();
    assert_eq!(expected, storage);

    game.import_state(Some("#X")).unwrap();
    let mut storage = vec![];
    game.get_concrete_moves(1, &mut storage);
    assert_eq!(Vec::<u64>::new(), storage);
}

#[test]
fn is_legal_move() {
    let mut game = create_with_state("/OXOOXO/#o");

    let err = game.is_legal_move(1, 0).unwrap_err().code;
    assert_eq!(ErrorCode::InvalidInput, err);

    game.is_legal_move(2, 0).unwrap();

    let err = game.is_legal_move(2, 1).unwrap_err().code;
    assert_eq!(ErrorCode::InvalidInput, err);

    let err = game.is_legal_move(2, 7).unwrap_err().code;
    assert_eq!(ErrorCode::InvalidInput, err);

    game.import_state(Some("#X")).unwrap();
    let err = game.is_legal_move(2, 1).unwrap_err().code;
    assert_eq!(ErrorCode::InvalidInput, err);

    game.import_state(Some("#-")).unwrap();
    let err = game.is_legal_move(2, 2).unwrap_err().code;
    assert_eq!(ErrorCode::InvalidInput, err);
}

#[test]
fn make_move() {
    let mut game = create_with_state("/OOO/#x");

    game.make_move(1, 0);
    game.make_move(2, 1);

    let expected = "X/OOOO/////#O";
    assert_eq!(expected, game.export_state());

    game.import_state(Some("XXXOOO/OOOXXX/XXXOOO/OOOXXX/XXXOO/OOOXXX/XXXOOO#o"))
        .unwrap();
    game.make_move(2, 4);
    assert!(game.is_draw());
}

#[test]
fn get_results() {
    let mut game = create_with_state("/OXO/#x");

    let mut storage = vec![];
    game.get_results(&mut storage);
    assert_eq!(Vec::<u8>::new(), storage);

    game.import_state(Some("OOOO#O")).unwrap();
    let mut storage = vec![];
    game.get_results(&mut storage);
    assert_eq!(vec![2], storage);

    game.import_state(Some("#-")).unwrap();
    let mut storage = vec![];
    game.get_results(&mut storage);
    assert_eq!(Vec::<u8>::new(), storage);
}

#[test]
fn get_move_code() {
    let game = create_default();

    let mov = game.get_move_data(" 4 ").unwrap();
    assert_eq!(4, mov);

    let err = game.get_move_data("-3").unwrap_err().code;
    assert_eq!(ErrorCode::InvalidInput, err);
}

#[test]
fn get_move_str() {
    let game = create_default();

    assert_eq!("3", game.get_move_str(3));
}

#[test]
fn print() {
    let game = create_with_state("x/o/xoxoxo//x/#x");

    let expected = "| | |O| | | | |\n| | |X| | | | |\n| | |O| | | | |\n| | |X| | | | |\n| | |O| | | | |\n|X|O|X| |X| | |\n 0 1 2 3 4 5 6 \n";
    assert_eq!(expected, game.print());
}
