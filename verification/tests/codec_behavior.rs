//! The text codecs on concrete values: option round trips, state
//! round trips, rejected texts, wins on every axis, and copies.

use connect_four::game::{ConnectFour, ErrorCode};

fn with_state(string: &str) -> ConnectFour {
    ConnectFour::create(None, Some(string)).unwrap()
}

fn observables(game: &ConnectFour) -> (String, Vec<u8>, Vec<u8>, bool) {
    let mut to_move = vec![];
    game.players_to_move(&mut to_move);
    let mut winners = vec![];
    game.get_results(&mut winners);
    (game.export_state(), to_move, winners, game.is_draw())
}

fn assert_round_trip(state: &str) {
    let mut game = with_state(state);
    let before = observables(&game);
    let text = game.export_state();
    game.import_state(Some(&text)).unwrap();
    let after = observables(&game);
    assert_eq!(before, after);
    assert_eq!(text, game.export_state());
}

#[test]
fn options_round_trips() {
    let game = ConnectFour::create(Some("9x8@6"), None).unwrap();
    assert_eq!("9 8 6", game.export_options());

    let game = ConnectFour::create(Some("255x255@255"), None).unwrap();
    assert_eq!("255 255 255", game.export_options());

    let game = ConnectFour::create(Some("1x1@1"), None).unwrap();
    assert_eq!("1 1 1", game.export_options());

    let game = ConnectFour::create(None, None).unwrap();
    assert_eq!("7 6 4", game.export_options());
}

#[test]
fn options_rejected() {
    let code = |s: &str| ConnectFour::create(Some(s), None).unwrap_err().code;
    assert_eq!(ErrorCode::InvalidInput, code("7x6@4!"));
    assert_eq!(ErrorCode::InvalidInput, code("7x6"));
    assert_eq!(ErrorCode::InvalidInput, code("999x6@4"));
    assert_eq!(ErrorCode::InvalidOptions, code("0x5@1"));
    assert_eq!(ErrorCode::InvalidOptions, code("5x0@1"));
    assert_eq!(ErrorCode::InvalidOptions, code("5x5@0"));
    assert_eq!(ErrorCode::InvalidOptions, code("3x3@4"));
}

#[test]
fn state_round_trips() {
    assert_round_trip("#x");
    assert_round_trip("XO/O/////X#O");
    assert_round_trip("/XO//#-");
    assert_round_trip("xoxoxo/oxoxox/xoxoxo/oxoxox/xoxoxo/oxoxox/xoxoxo#o");
    assert_round_trip("X//////#X");
}

#[test]
fn empty_board_exports_only_slashes() {
    let game = ConnectFour::create(None, None).unwrap();
    assert_eq!("//////#x", game.export_state());

    let game = ConnectFour::create(Some("1x1@1"), None).unwrap();
    assert_eq!("#x", game.export_state());
}

#[test]
fn state_rejected() {
    let mut game = ConnectFour::create(None, None).unwrap();
    let before = game.export_state();

    let code = |game: &mut ConnectFour, s: &str| game.import_state(Some(s)).unwrap_err().code;
    assert_eq!(ErrorCode::InvalidInput, code(&mut game, "////////#x"));
    assert_eq!(ErrorCode::InvalidInput, code(&mut game, "XXXXXXX#x"));
    assert_eq!(ErrorCode::InvalidInput, code(&mut game, "X/O#q"));
    assert_eq!(ErrorCode::InvalidInput, code(&mut game, "X/O"));
    assert_eq!(ErrorCode::InvalidInput, code(&mut game, "X/O#xx"));
    assert_eq!(ErrorCode::InvalidInput, code(&mut game, "A/B#x"));

    // A rejected import leaves the game untouched.
    assert_eq!(before, game.export_state());
}

#[test]
fn vertical_win_blocks_further_moves() {
    let mut game = with_state("XXX//////#x");
    game.is_legal_move(1, 0).unwrap();
    game.make_move(1, 0);

    let mut winners = vec![];
    game.get_results(&mut winners);
    assert_eq!(vec![1], winners);

    // The game is over: no column is playable, though all have room.
    for column in 0..7u8 {
        assert!(!game.possible_move(column));
    }
    let mut moves = vec![];
    game.get_concrete_moves(1, &mut moves);
    assert_eq!(Vec::<u64>::new(), moves);
    assert_eq!(
        ErrorCode::InvalidInput,
        game.is_legal_move(1, 1).unwrap_err().code
    );
}

#[test]
fn horizontal_win() {
    let mut game = with_state("X/X/X/#x");
    game.make_move(1, 3);
    let mut winners = vec![];
    game.get_results(&mut winners);
    assert_eq!(vec![1], winners);
}

#[test]
fn rising_diagonal_win() {
    let mut game = with_state("X/OX/OOX/OOO#x");
    game.make_move(1, 3);
    let mut winners = vec![];
    game.get_results(&mut winners);
    assert_eq!(vec![1], winners);
}

#[test]
fn falling_diagonal_win() {
    let mut game = with_state("OOOX/OO/OX/X///#x");
    game.make_move(1, 1);
    let mut winners = vec![];
    game.get_results(&mut winners);
    assert_eq!(vec![1], winners);
}

#[test]
fn winning_move_flips_nothing_but_result() {
    // After a win the mover stays the recorded turn owner; an ordinary
    // move passes the turn instead.
    let mut game = with_state("#x");
    game.make_move(1, 3);
    let mut to_move = vec![];
    game.players_to_move(&mut to_move);
    assert_eq!(vec![2], to_move);
    assert_eq!("///X///#o", game.export_state());
}

#[test]
fn custom_length_win() {
    // On a 5x4 board with run length 2 a single pair wins.
    let mut game = ConnectFour::create(Some("5x4@2"), Some("X////#x")).unwrap();
    game.make_move(1, 1);
    let mut winners = vec![];
    game.get_results(&mut winners);
    assert_eq!(vec![1], winners);
}

#[test]
fn reset_after_game_over() {
    let mut game = with_state("OOOO#O");
    game.import_state(None).unwrap();
    let mut to_move = vec![];
    game.players_to_move(&mut to_move);
    assert_eq!(vec![1], to_move);
    assert!(!game.is_draw());
    assert_eq!("//////#x", game.export_state());
}

#[test]
fn copies_export_identically() {
    let a = with_state("XOX/O/X////#o");
    let mut b = ConnectFour::create(None, Some("OOO/X#X")).unwrap();
    b.copy_from(&a);
    assert_eq!(a.export_state(), b.export_state());
    assert_eq!(a.export_options(), b.export_options());
}

#[test]
fn move_text_round_trips() {
    let game = ConnectFour::create(None, None).unwrap();
    assert_eq!("0", game.get_move_str(0));
    assert_eq!("12345", game.get_move_str(12345));
    assert_eq!(0, game.get_move_data("0").unwrap());
    assert_eq!(7, game.get_move_data("+7").unwrap());
    assert_eq!(u64::MAX, game.get_move_data("18446744073709551615").unwrap());
    assert_eq!(
        ErrorCode::InvalidInput,
        game.get_move_data("18446744073709551616").unwrap_err().code
    );
    assert_eq!(
        ErrorCode::InvalidInput,
        game.get_move_data("").unwrap_err().code
    );
    assert_eq!(
        ErrorCode::InvalidInput,
        game.get_move_data("4x").unwrap_err().code
    );
}

#[test]
fn print_wide_board() {
    let game = ConnectFour::create(Some("12x1@1"), Some("x/o//////////#o")).unwrap();
    let expected = "|XX|OO|  |  |  |  |  |  |  |  |  |  |\n  0  1  2  3  4  5  6  7  8  9 10 11 \n";
    assert_eq!(expected, game.print());
}
