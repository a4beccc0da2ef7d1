//! The packed bit storage, the direction walker, and the
//! presentation-layer queries.

use connect_four::bitvec::{div_ceil, BitVec};
use connect_four::direction::Direction;
use connect_four::game::{ConnectFour, State};
use connect_four::query::{strip_nul, Game};

#[test]
fn div_ceil_values() {
    assert_eq!(0, div_ceil(0, 64));
    assert_eq!(1, div_ceil(1, 64));
    assert_eq!(1, div_ceil(64, 64));
    assert_eq!(2, div_ceil(65, 64));
    assert_eq!(3, div_ceil(7, 3));
}

#[test]
fn bitvec_set_get() {
    let mut bits = BitVec::new(130);
    assert_eq!(130, bits.len());
    assert!(!bits.any());

    bits.set(0, true);
    bits.set(64, true);
    bits.set(129, true);
    assert!(bits.get(0));
    assert!(!bits.get(1));
    assert!(bits.get(64));
    assert!(bits.get(129));
    assert!(bits.any());

    bits.set(0, false);
    assert!(!bits.get(0));

    let collected = bits.iter();
    assert_eq!(130, collected.len());
    assert!(!collected[0]);
    assert!(collected[64]);
    assert!(collected[129]);

    let mut copy = BitVec::new(130);
    copy.copy_from_bitvec(&bits);
    assert_eq!(bits, copy);
    assert!(copy.get(64));

    bits.reset();
    assert!(!bits.any());
}

#[test]
fn direction_walk() {
    assert_eq!(Some((3, 4)), Direction::N.walk((3, 3), 7, 6));
    assert_eq!(Some((4, 4)), Direction::NE.walk((3, 3), 7, 6));
    assert_eq!(Some((4, 3)), Direction::E.walk((3, 3), 7, 6));
    assert_eq!(Some((4, 2)), Direction::SE.walk((3, 3), 7, 6));
    assert_eq!(Some((3, 2)), Direction::S.walk((3, 3), 7, 6));
    assert_eq!(Some((2, 2)), Direction::SW.walk((3, 3), 7, 6));
    assert_eq!(Some((2, 3)), Direction::W.walk((3, 3), 7, 6));
    assert_eq!(Some((2, 4)), Direction::NW.walk((3, 3), 7, 6));

    assert_eq!(None, Direction::N.walk((0, 5), 7, 6));
    assert_eq!(None, Direction::S.walk((0, 0), 7, 6));
    assert_eq!(None, Direction::W.walk((0, 3), 7, 6));
    assert_eq!(None, Direction::E.walk((6, 3), 7, 6));
    assert_eq!(None, Direction::SW.walk((3, 0), 7, 6));
}

#[test]
fn direction_inv() {
    assert_eq!(Direction::S, Direction::N.inv());
    assert_eq!(Direction::SW, Direction::NE.inv());
    assert_eq!(Direction::W, Direction::E.inv());
    assert_eq!(Direction::NW, Direction::SE.inv());
    assert_eq!(Direction::N, Direction::S.inv());
    assert_eq!(Direction::NE, Direction::SW.inv());
    assert_eq!(Direction::E, Direction::W.inv());
    assert_eq!(Direction::SE, Direction::NW.inv());
}

#[test]
fn direction_half() {
    assert_eq!(
        [Direction::N, Direction::NE, Direction::E, Direction::SE],
        Direction::half()
    );
}

#[test]
fn walking_the_board() {
    let game = ConnectFour::create(None, Some("XO/O#x")).unwrap();
    assert_eq!(
        vec![
            State::X,
            State::O,
            State::Empty,
            State::Empty,
            State::Empty,
            State::Empty
        ],
        game.iter((0, 0), Direction::N)
    );
    assert_eq!(
        vec![State::O, State::Empty, State::Empty, State::Empty, State::Empty],
        game.iter((0, 1), Direction::NE)
    );
    assert_eq!(vec![State::X], game.iter((0, 0), Direction::S));
}

#[test]
fn free_cell_and_possible_move() {
    let game = ConnectFour::create(None, Some("XO/O#x")).unwrap();
    assert_eq!(2, game.free_cell(0));
    assert_eq!(1, game.free_cell(1));
    assert_eq!(0, game.free_cell(2));
    assert!(game.possible_move(0));
    assert!(game.possible_move(6));
}

#[test]
fn wrapper_queries() {
    let game = Game::create(None, Some("X/O#o")).unwrap();
    assert_eq!(7, game.width());
    assert_eq!(6, game.height());
    assert_eq!(2, game.player_id());
    assert_eq!(vec![(0u8, 0u8, false), (1u8, 0u8, true)], game.chips());

    let fresh = Game::create(Some("4x3@2"), None).unwrap();
    assert_eq!(4, fresh.width());
    assert_eq!(3, fresh.height());
    assert_eq!(1, fresh.player_id());
    assert_eq!(Vec::<(u8, u8, bool)>::new(), fresh.chips());
}

#[test]
fn col_chars_widths() {
    let narrow = ConnectFour::create(Some("10x6@4"), None).unwrap();
    assert_eq!(1, narrow.options().col_chars());
    let mid = ConnectFour::create(Some("11x6@4"), None).unwrap();
    assert_eq!(2, mid.options().col_chars());
    let wide = ConnectFour::create(Some("101x6@4"), None).unwrap();
    assert_eq!(3, wide.options().col_chars());
}

#[test]
fn strip_nul_drops_terminator() {
    assert_eq!("Connect_Four", strip_nul("Connect_Four\0"));
    assert_eq!("", strip_nul("\0"));
}
