//! The board model and the rule engine.

use crate::bitvec::BitVec;
use crate::direction::{Direction, Pos};
use vstd::arithmetic::div_mod::lemma_fundamental_div_mod_converse;
use vstd::prelude::*;

verus! {

/// The state of a single cell of the game board.
#[derive(Clone, Copy, PartialEq, Eq, Structural, Debug)]
pub enum State {
    /// No piece at this position.
    Empty,
    /// A piece of the first player.
    X,
    /// A piece of the second player.
    O,
}

/// Whether the game is still running, won by the player whose turn it
/// is, or drawn.
#[derive(Clone, Copy, PartialEq, Eq, Structural, Debug)]
pub enum GameResult {
    Ongoing,
    Winner,
    Draw,
}

impl GameResult {
    /// Has the game ended?
    pub fn is_over(&self) -> (r: bool)
        ensures
            r == !(*self is Ongoing),
    {
        !(*self == GameResult::Ongoing)
    }
}

/// The kind of a recoverable error.
#[derive(Clone, Copy, PartialEq, Eq, Structural, Debug)]
pub enum ErrorCode {
    /// Malformed or currently-illegal input.
    InvalidInput,
    /// A structurally well-formed but rejected configuration.
    InvalidOptions,
}

/// A recoverable error: its kind together with a short description of
/// the field or rule that was violated.
#[derive(Clone, Copy, Debug)]
pub struct GameError {
    pub code: ErrorCode,
    pub msg: &'static str,
}

/// The immutable configuration of a game.
#[derive(Clone, Copy, PartialEq, Eq, Structural, Debug)]
pub struct GameOptions {
    /// Number of columns.
    pub width: u8,
    /// Number of rows.
    pub height: u8,
    /// Number of successive stones needed for victory.
    pub length: u8,
}

impl GameOptions {
    /// Dimensions are nonzero and a winning run fits in at least one
    /// dimension.
    pub open spec fn valid(self) -> bool {
        &&& self.width >= 1
        &&& self.height >= 1
        &&& self.length >= 1
        &&& (self.length <= self.width || self.length <= self.height)
    }

    /// Width of the board.
    pub fn width(&self) -> (r: u8)
        ensures
            r == self.width,
    {
        self.width
    }

    /// Height of the board.
    pub fn height(&self) -> (r: u8)
        ensures
            r == self.height,
    {
        self.height
    }

    /// Number of characters required to print the largest column
    /// index.
    pub open spec fn spec_col_chars(self) -> int {
        if self.width <= 10 {
            1
        } else if self.width <= 100 {
            2
        } else {
            3
        }
    }

    /// Number of characters required to print the largest column
    /// index; column indices start from zero.
    pub fn col_chars(&self) -> (r: usize)
        ensures
            r == self.spec_col_chars(),
    {
        if self.width <= 10 {
            1
        } else if self.width <= 100 {
            2
        } else {
            3
        }
    }
}

impl Default for GameOptions {
    /// The classic configuration: seven columns, six rows, four in a
    /// row to win.
    fn default() -> (r: Self)
        ensures
            r == (GameOptions { width: 7, height: 6, length: 4 }),
    {
        GameOptions { width: 7, height: 6, length: 4 }
    }
}

/// The mathematical value of a game: its configuration, one `State`
/// per cell (column-major, row 0 at the bottom), whose turn it is,
/// and the result so far.
pub ghost struct BoardModel {
    pub width: int,
    pub height: int,
    pub length: int,
    /// Cell (c, r) is at index `c * height + r`.
    pub cells: Seq<State>,
    /// `false` means the first player (X) moves, `true` the second (O).
    pub turn: bool,
    pub result: GameResult,
}

impl BoardModel {
    pub open spec fn wf(self) -> bool {
        &&& 1 <= self.width <= 255
        &&& 1 <= self.height <= 255
        &&& 1 <= self.length <= 255
        &&& (self.length <= self.width || self.length <= self.height)
        &&& self.cells.len() == self.width * self.height
    }

    pub open spec fn in_range(self, c: int, r: int) -> bool {
        0 <= c < self.width && 0 <= r < self.height
    }

    /// The state of the cell in column `c`, row `r`.
    pub open spec fn cell(self, c: int, r: int) -> State {
        self.cells[c * self.height + r]
    }

    /// The same model with one cell replaced.
    pub open spec fn with_cell(self, c: int, r: int, s: State) -> BoardModel {
        BoardModel { cells: self.cells.update(c * self.height + r, s), ..self }
    }

    /// Every cell of the top row is occupied.
    pub open spec fn top_full(self) -> bool {
        forall|c: int| 0 <= c < self.width ==> !(#[trigger] self.cell(c, self.height - 1) is Empty)
    }

    /// Every stone rests on the bottom or on another stone: no column
    /// has an occupied cell above an empty one.
    pub open spec fn stacked(self) -> bool {
        forall|c: int, r: int|
            0 <= c < self.width && 0 < r < self.height && !(#[trigger] self.cell(c, r) is Empty)
                ==> !(self.cell(c, r - 1) is Empty)
    }

    /// The first empty row of column `c` at or above row `r`, or
    /// `height` if there is none.
    pub open spec fn first_empty_from(self, c: int, r: int) -> int
        decreases self.height - r,
    {
        if r < 0 || r >= self.height {
            self.height
        } else if self.cell(c, r) is Empty {
            r
        } else {
            self.first_empty_from(c, r + 1)
        }
    }

    /// The row a stone dropped into column `c` comes to rest in.
    pub open spec fn free_row(self, c: int) -> int {
        self.first_empty_from(c, 0)
    }

    /// How many steps can be taken from (c, r) in direction `d`
    /// before leaving the board.
    pub open spec fn avail(self, c: int, r: int, d: Direction) -> int {
        let ax = if d.dx() > 0 {
            self.width - 1 - c
        } else if d.dx() < 0 {
            c
        } else {
            self.width + self.height
        };
        let ay = if d.dy() > 0 {
            self.height - 1 - r
        } else if d.dy() < 0 {
            r
        } else {
            self.width + self.height
        };
        if ax <= ay {
            ax
        } else {
            ay
        }
    }

    /// The number of consecutive cells holding `s` strictly beyond
    /// (c, r) in direction `d`.
    pub open spec fn run(self, s: State, c: int, r: int, d: Direction) -> nat
        decreases self.avail(c, r, d),
    {
        if !self.in_range(c, r) {
            0
        } else {
            let c2 = c + d.dx();
            let r2 = r + d.dy();
            if self.in_range(c2, r2) && self.cell(c2, r2) == s {
                1 + self.run(s, c2, r2, d)
            } else {
                0
            }
        }
    }

    /// The stone at (c, r) lies in a run of at least `length` cells
    /// of its owner along the axis of `d`.
    pub open spec fn wins_dir(self, c: int, r: int, d: Direction) -> bool {
        let s = self.cell(c, r);
        1 + self.run(s, c, r, d) + self.run(s, c, r, d.spec_inv()) >= self.length
    }

    /// The stone at (c, r) completes a winning run along some axis.
    pub open spec fn wins_at(self, c: int, r: int) -> bool {
        ||| self.wins_dir(c, r, Direction::N)
        ||| self.wins_dir(c, r, Direction::NE)
        ||| self.wins_dir(c, r, Direction::E)
        ||| self.wins_dir(c, r, Direction::SE)
    }

    /// The columns that still accept a stone, in increasing order,
    /// starting from column `c`.
    pub open spec fn movable_from(self, c: int) -> Seq<u64>
        decreases self.width - c,
    {
        if c < 0 || c >= self.width {
            Seq::empty()
        } else if self.cell(c, self.height - 1) is Empty {
            seq![c as u64] + self.movable_from(c + 1)
        } else {
            self.movable_from(c + 1)
        }
    }

    /// Equality of everything a caller can observe: the same board
    /// and result, and the same turn whenever the turn is meaningful
    /// (the side to move while the game runs, the winner after a win).
    pub open spec fn observably_eq(self, other: BoardModel) -> bool {
        &&& self.width == other.width
        &&& self.height == other.height
        &&& self.cells == other.cells
        &&& self.result == other.result
        &&& !(self.result is Draw) ==> self.turn == other.turn
    }
}

/// The player's id (1 for X, 2 for O) as the turn boolean.
pub fn player_from_id(player: u8) -> (r: bool)
    requires
        player == 1 || player == 2,
    ensures
        r == (player == 2),
{
    player == 2
}

/// The turn boolean as a player id (1 for X, 2 for O).
pub fn player_to_id(player: bool) -> (r: u8)
    ensures
        r == spec_player_id(player),
{
    if player {
        2
    } else {
        1
    }
}

/// The id of the player a turn boolean denotes.
pub open spec fn spec_player_id(player: bool) -> u8 {
    if player {
        2
    } else {
        1
    }
}

/// The stone of the player a turn boolean denotes.
pub open spec fn player_state(player: u8) -> State {
    if player == 2 {
        State::O
    } else {
        State::X
    }
}

impl State {
    /// The stone of the player with this id (1 or 2).
    pub fn from_player_id(player: u8) -> (r: State)
        requires
            player == 1 || player == 2,
        ensures
            r == player_state(player),
    {
        if player == 2 {
            State::O
        } else {
            State::X
        }
    }
}

/// The mutable part of a game: the packed board, whose turn it is,
/// and the result.
#[derive(PartialEq, Eq, Debug)]
pub struct GameData {
    /// Every two bits describe a single cell: the first says whether
    /// the cell is occupied, the second picks the owner's color.
    pub(crate) board: BitVec,
    /// `false` means X moves, `true` means O.
    pub(crate) turn: bool,
    pub(crate) result: GameResult,
}

impl GameData {
    pub open(crate) spec fn spec_bits(self) -> Seq<bool> {
        self.board@
    }

    pub open(crate) spec fn spec_turn(self) -> bool {
        self.turn
    }

    pub open(crate) spec fn spec_result(self) -> GameResult {
        self.result
    }

    pub open(crate) spec fn wf(self) -> bool {
        self.board.wf()
    }

    /// Fresh data for a board of the given dimensions: all cells
    /// empty, X to move, game ongoing.
    pub fn new(options: &GameOptions) -> (r: GameData)
        ensures
            r.wf(),
            r.spec_bits().len() == 2 * (options.width * options.height),
            forall|i: int| 0 <= i < r.spec_bits().len() ==> !r.spec_bits()[i],
            r.spec_turn() == false,
            r.spec_result() == GameResult::Ongoing,
    {
        proof {
            assert(options.width as int * options.height as int <= 255 * 255) by (nonlinear_arith)
                requires
                    options.width <= 255,
                    options.height <= 255,
            ;
        }
        let board = BitVec::new(2 * ((options.width as usize) * (options.height as usize)));
        GameData { board, turn: false, result: GameResult::Ongoing }
    }

    /// Overwrite this data with a copy of `other`.
    ///
    /// The two boards must have the same bit-count.
    pub fn copy_from(&mut self, other: &GameData)
        requires
            old(self).wf(),
            other.wf(),
            old(self).spec_bits().len() == other.spec_bits().len(),
        ensures
            final(self).wf(),
            final(self).spec_bits() == other.spec_bits(),
            final(self).spec_turn() == other.spec_turn(),
            final(self).spec_result() == other.spec_result(),
    {
        self.board.copy_from_bitvec(&other.board);
        self.turn = other.turn;
        self.result = other.result;
    }

    /// Clear the board and return to the initial turn and result.
    pub fn reset(&mut self)
        requires
            old(self).wf(),
        ensures
            final(self).wf(),
            final(self).spec_bits().len() == old(self).spec_bits().len(),
            forall|i: int| 0 <= i < final(self).spec_bits().len() ==> !final(self).spec_bits()[i],
            final(self).spec_turn() == false,
            final(self).spec_result() == GameResult::Ongoing,
    {
        self.board.reset();
        self.turn = false;
        self.result = GameResult::Ongoing;
    }
}

/// A cell as read from the packed bit pair starting at `2 * i`.
pub open spec fn cell_from_bits(bits: Seq<bool>, i: int) -> State {
    if !bits[2 * i] {
        State::Empty
    } else if !bits[2 * i + 1] {
        State::X
    } else {
        State::O
    }
}

/// The two bits that encode `state`: occupied, then owner.
pub open spec fn bits_of_state(state: State) -> (bool, bool) {
    match state {
        State::Empty => (false, false),
        State::X => (true, false),
        State::O => (true, true),
    }
}

/// Writing one cell's bit pair changes that cell alone and keeps the
/// owner bit of an empty cell zero.
proof fn lemma_pair_update(bits: Seq<bool>, n: int, t: int, state: State)
    requires
        bits.len() == 2 * n,
        0 <= t < n,
    ensures
        ({
            let nb = bits.update(2 * t, bits_of_state(state).0).update(
                2 * t + 1,
                bits_of_state(state).1,
            );
            &&& nb.len() == 2 * n
            &&& cell_from_bits(nb, t) == state
            &&& !nb[2 * t] ==> !nb[2 * t + 1]
            &&& forall|j: int|
                0 <= j < n && j != t ==> (#[trigger] nb[2 * j]) == bits[2 * j] && nb[2 * j + 1]
                    == bits[2 * j + 1]
        }),
{
    let nb = bits.update(2 * t, bits_of_state(state).0).update(2 * t + 1, bits_of_state(state).1);
    assert(cell_from_bits(nb, t) == state);
    assert forall|j: int| 0 <= j < n && j != t implies (#[trigger] nb[2 * j]) == bits[2 * j] && nb[2
        * j + 1] == bits[2 * j + 1] by {
        assert(2 * j != 2 * t && 2 * j != 2 * t + 1);
        assert(2 * j + 1 != 2 * t && 2 * j + 1 != 2 * t + 1);
    }
}

/// A full game: options and mutable state.
#[derive(PartialEq, Eq, Debug)]
pub struct ConnectFour {
    pub(crate) options: GameOptions,
    pub(crate) data: GameData,
}

impl ConnectFour {
    /// The options this game was created with.
    pub open(crate) spec fn spec_options(self) -> GameOptions {
        self.options
    }

    /// The mathematical value of this game.
    pub open(crate) spec fn model(self) -> BoardModel {
        BoardModel {
            width: self.options.width as int,
            height: self.options.height as int,
            length: self.options.length as int,
            cells: Seq::new(
                (self.options.width * self.options.height) as nat,
                |i: int| cell_from_bits(self.data.board@, i),
            ),
            turn: self.data.turn,
            result: self.data.result,
        }
    }

    /// Valid options, a board of the right size, and a zero owner bit
    /// under every empty cell.
    pub open(crate) spec fn wf(self) -> bool {
        &&& self.options.valid()
        &&& self.data.board.wf()
        &&& self.data.board@.len() == 2 * (self.options.width * self.options.height)
        &&& forall|i: int|
            0 <= i < self.options.width * self.options.height && !self.data.board@[2 * i]
                ==> !(#[trigger] self.data.board@[2 * i + 1])
    }

    /// Assemble a game from validated options and matching data.
    pub(crate) fn assemble(options: GameOptions, data: GameData) -> (r: ConnectFour)
        requires
            options.valid(),
            data.wf(),
            data.spec_bits().len() == 2 * (options.width * options.height),
            forall|i: int| 0 <= i < data.spec_bits().len() ==> !data.spec_bits()[i],
        ensures
            r.wf(),
            r.spec_options() == options,
            r.model().width == options.width,
            r.model().height == options.height,
            r.model().length == options.length,
            forall|c: int, r2: int|
                r.model().in_range(c, r2) ==> #[trigger] r.model().cell(c, r2) is Empty,
            r.model().turn == data.spec_turn(),
            r.model().result == data.spec_result(),
    {
        let r = ConnectFour { options, data };
        proof {
            r.lemma_cells_in_bounds();
        }
        r
    }

    /// Every in-range cell index lies inside the cells sequence.
    pub(crate) proof fn lemma_cells_in_bounds(self)
        requires
            self.spec_options().valid(),
        ensures
            forall|c: int, r: int|
                self.model().in_range(c, r) ==> 0 <= c * self.model().height + r
                    < self.model().width * self.model().height && 2 * (c * self.model().height + r)
                    + 1 < 2 * (self.model().width * self.model().height),
    {
        let h = self.model().height;
        let w = self.model().width;
        assert forall|c: int, r: int| self.model().in_range(c, r) implies 0 <= c * h + r < w * h
            && 2 * (c * h + r) + 1 < 2 * (w * h) by {
            assert(0 <= c * h + r && c * h + r < w * h) by (nonlinear_arith)
                requires
                    0 <= c,
                    c < w,
                    0 <= r,
                    r < h,
            ;
        }
    }

    /// The board-cell index (c, r) is the same for no two positions.
    pub(crate) proof fn lemma_cell_index_injective(h: int, c1: int, r1: int, c2: int, r2: int)
        requires
            h > 0,
            0 <= r1 < h,
            0 <= r2 < h,
            c1 * h + r1 == c2 * h + r2,
        ensures
            c1 == c2 && r1 == r2,
    {
        lemma_fundamental_div_mod_converse(c1 * h + r1, h, c1, r1);
        lemma_fundamental_div_mod_converse(c2 * h + r2, h, c2, r2);
    }

    /// Convert a position to its index in the packed bit array.
    pub fn idx(&self, pos: Pos) -> (r: usize)
        requires
            self.wf(),
            pos.0 < self.model().width,
            pos.1 < self.model().height,
        ensures
            r == 2 * (pos.0 as int * self.model().height + pos.1 as int),
    {
        proof {
            assert(pos.0 as int * self.options.height as int <= 255 * 255) by (nonlinear_arith)
                requires
                    pos.0 <= 255,
                    self.options.height <= 255,
            ;
        }
        2 * ((pos.0 as usize) * (self.options.height as usize) + (pos.1 as usize))
    }

    /// Read-only access to the internal options.
    pub fn options(&self) -> (r: &GameOptions)
        ensures
            *r == self.spec_options(),
    {
        &self.options
    }

    /// The state of the board at `pos`.
    pub fn cell_at(&self, pos: Pos) -> (r: State)
        requires
            self.wf(),
            pos.0 < self.model().width,
            pos.1 < self.model().height,
        ensures
            r == self.model().cell(pos.0 as int, pos.1 as int),
    {
        proof {
            self.lemma_cells_in_bounds();
            assert(self.model().in_range(pos.0 as int, pos.1 as int));
        }
        let i = self.idx(pos);
        if !self.data.board.get(i) {
            State::Empty
        } else if !self.data.board.get(i + 1) {
            State::X
        } else {
            State::O
        }
    }

    /// Write `state` at `pos` of the game board.
    pub fn set(&mut self, pos: Pos, state: State)
        requires
            old(self).wf(),
            pos.0 < old(self).model().width,
            pos.1 < old(self).model().height,
        ensures
            final(self).wf(),
            final(self).spec_options() == old(self).spec_options(),
            final(self).model() == old(self).model().with_cell(pos.0 as int, pos.1 as int, state),
    {
        proof {
            self.lemma_cells_in_bounds();
            assert(self.model().in_range(pos.0 as int, pos.1 as int));
        }
        let ghost bits0 = self.data.board@;
        let ghost c = pos.0 as int;
        let ghost r = pos.1 as int;
        let ghost h = self.model().height;
        let ghost n = self.model().width * h;
        let ghost target = c * h + r;
        let i = self.idx(pos);
        let occ = !(state == State::Empty);
        let owner = state == State::O;
        self.data.board.set(i, occ);
        self.data.board.set(i + 1, owner);
        proof {
            assert(i as int == 2 * target);
            assert((occ, owner) == bits_of_state(state));
            assert(self.data.board@ == bits0.update(2 * target, occ).update(2 * target + 1, owner));
            lemma_pair_update(bits0, n, target, state);
            assert forall|j: int| 0 <= j < n && j != target implies cell_from_bits(
                self.data.board@,
                j,
            ) == cell_from_bits(bits0, j) by {}
            assert(self.model().cells =~= old(self).model().with_cell(c, r, state).cells);
        }
    }

    /// Return who is currently to move.
    ///
    /// The game must still be ongoing.
    pub fn turn(&self) -> (r: bool)
        requires
            self.wf(),
            self.model().result is Ongoing,
        ensures
            r == self.model().turn,
    {
        self.data.turn
    }

    /// Check if a move can be performed in this column: the game is
    /// not over and the column is not full.
    pub fn possible_move(&self, column: u8) -> (r: bool)
        requires
            self.wf(),
            column < self.model().width,
        ensures
            r == (self.model().result is Ongoing && self.model().cell(
                column as int,
                self.model().height - 1,
            ) is Empty),
    {
        !self.data.result.is_over() && {
            let top = self.cell_at((column, self.options.height - 1));
            top == State::Empty
        }
    }

    /// The row number of the lowest free cell in `column`.
    ///
    /// The column must have at least one free cell.
    pub fn free_cell(&self, column: u8) -> (r: u8)
        requires
            self.wf(),
            column < self.model().width,
            exists|r2: int|
                0 <= r2 < self.model().height && #[trigger] self.model().cell(
                    column as int,
                    r2,
                ) is Empty,
        ensures
            r == self.model().free_row(column as int),
            r < self.model().height,
            self.model().cell(column as int, r as int) is Empty,
            forall|r2: int|
                0 <= r2 < r ==> !(#[trigger] self.model().cell(column as int, r2) is Empty),
    {
        let ghost m = self.model();
        let height = self.options.height;
        let mut row: u8 = 0;
        while row < height
            invariant
                self.wf(),
                m == self.model(),
                height == m.height,
                column < m.width,
                0 <= row <= height,
                m.free_row(column as int) == m.first_empty_from(column as int, row as int),
                forall|r2: int|
                    0 <= r2 < row ==> !(#[trigger] m.cell(column as int, r2) is Empty),
            decreases height - row,
        {
            if self.cell_at((column, row)) == State::Empty {
                return row;
            }
            row += 1;
        }
        proof {
            m.lemma_first_empty_from(column as int, 0);
            assert(false);
        }
        0
    }

    /// The number of players.
    pub fn player_count(&self) -> (r: u8)
        ensures
            r == 2,
    {
        2
    }

    /// Does this game's result mark a draw?
    pub fn is_draw(&self) -> (r: bool)
        ensures
            r == (self.model().result is Draw),
    {
        self.data.result == GameResult::Draw
    }

    /// Push the id of the player to move, if the game is ongoing.
    pub fn players_to_move(&self, players: &mut Vec<u8>)
        requires
            self.wf(),
        ensures
            final(players)@ == old(players)@ + (if self.model().result is Ongoing {
                seq![spec_player_id(self.model().turn)]
            } else {
                Seq::<u8>::empty()
            }),
    {
        if !self.data.result.is_over() {
            players.push(player_to_id(self.data.turn));
        }
        proof {
            if self.model().result is Ongoing {
                assert(players@ =~= old(players)@ + seq![spec_player_id(self.model().turn)]);
            } else {
                assert(players@ =~= old(players)@ + Seq::<u8>::empty());
            }
        }
    }

    /// Push the id of the winner, if there is one.
    pub fn get_results(&self, players: &mut Vec<u8>)
        requires
            self.wf(),
        ensures
            final(players)@ == old(players)@ + (if self.model().result is Winner {
                seq![spec_player_id(self.model().turn)]
            } else {
                Seq::<u8>::empty()
            }),
    {
        if self.data.result == GameResult::Winner {
            players.push(player_to_id(self.data.turn));
        }
        proof {
            if self.model().result is Winner {
                assert(players@ =~= old(players)@ + seq![spec_player_id(self.model().turn)]);
            } else {
                assert(players@ =~= old(players)@ + Seq::<u8>::empty());
            }
        }
    }

    /// Overwrite this game's state with a copy of `other`'s.
    ///
    /// The two games must have been created with identical options.
    pub fn copy_from(&mut self, other: &ConnectFour)
        requires
            old(self).wf(),
            other.wf(),
            old(self).spec_options() == other.spec_options(),
        ensures
            final(self).wf(),
            final(self).spec_options() == old(self).spec_options(),
            final(self).model() == other.model(),
    {
        self.data.copy_from(&other.data);
        proof {
            assert(self.model().cells =~= other.model().cells);
        }
    }
}

impl ConnectFour {
    /// The states of the cells encountered when starting at `pos` and
    /// repeatedly stepping in `direction`, until the edge of the
    /// board.
    pub fn iter(&self, pos: Pos, direction: Direction) -> (out: Vec<State>)
        requires
            self.wf(),
            pos.0 < self.model().width,
            pos.1 < self.model().height,
        ensures
            out@.len() == 1 + self.model().avail(pos.0 as int, pos.1 as int, direction),
            forall|k: int|
                0 <= k < out@.len() ==> out@[k] == self.model().cell(
                    pos.0 + k * direction.dx(),
                    pos.1 + k * direction.dy(),
                ),
    {
        let ghost m = self.model();
        let ghost c0 = pos.0 as int;
        let ghost r0 = pos.1 as int;
        let width = self.options.width;
        let height = self.options.height;
        let mut out: Vec<State> = Vec::new();
        out.push(self.cell_at(pos));
        let mut cur: Pos = pos;
        let ghost mut j: int = 0;
        proof {
            m.lemma_avail_step(c0, r0, direction);
        }
        loop
            invariant_except_break
                self.wf(),
                m == self.model(),
                width == m.width,
                height == m.height,
                0 <= j,
                cur.0 == c0 + j * direction.dx(),
                cur.1 == r0 + j * direction.dy(),
                m.in_range(cur.0 as int, cur.1 as int),
                m.avail(cur.0 as int, cur.1 as int, direction) == m.avail(c0, r0, direction) - j,
                out@.len() == j + 1,
                forall|k: int|
                    0 <= k < out@.len() ==> out@[k] == m.cell(
                        c0 + k * direction.dx(),
                        r0 + k * direction.dy(),
                    ),
            ensures
                out@.len() == 1 + m.avail(c0, r0, direction),
                forall|k: int|
                    0 <= k < out@.len() ==> out@[k] == m.cell(
                        c0 + k * direction.dx(),
                        r0 + k * direction.dy(),
                    ),
            decreases m.avail(cur.0 as int, cur.1 as int, direction),
        {
            proof {
                m.lemma_avail_step(cur.0 as int, cur.1 as int, direction);
            }
            match direction.walk(cur, width, height) {
                None => {
                    proof {
                        assert(m.avail(cur.0 as int, cur.1 as int, direction) == 0);
                    }
                    break ;
                },
                Some(p) => {
                    out.push(self.cell_at(p));
                    cur = p;
                    proof {
                        assert((j + 1) * direction.dx() == j * direction.dx() + direction.dx())
                            by (nonlinear_arith);
                        assert((j + 1) * direction.dy() == j * direction.dy() + direction.dy())
                            by (nonlinear_arith);
                        j = j + 1;
                    }
                },
            }
        }
        out
    }
}

impl BoardModel {
    /// Stepping once in direction `d` from an in-range position stays
    /// on the board exactly when steps remain, and uses up one step.
    pub proof fn lemma_avail_step(self, c: int, r: int, d: Direction)
        requires
            self.in_range(c, r),
        ensures
            self.avail(c, r, d) >= 0,
            self.in_range(c + d.dx(), r + d.dy()) <==> self.avail(c, r, d) >= 1,
            self.in_range(c + d.dx(), r + d.dy()) ==> self.avail(c + d.dx(), r + d.dy(), d)
                == self.avail(c, r, d) - 1,
    {
    }

    /// What `first_empty_from` finds: an empty cell below `height`
    /// with only occupied cells between `r` and it, or `height` with
    /// no empty cell at or above `r`.
    pub proof fn lemma_first_empty_from(self, c: int, r: int)
        requires
            0 <= r <= self.height,
        ensures
            r <= self.first_empty_from(c, r) <= self.height,
            self.first_empty_from(c, r) < self.height ==> self.cell(
                c,
                self.first_empty_from(c, r),
            ) is Empty,
            forall|r2: int|
                r <= r2 < self.first_empty_from(c, r) ==> !(#[trigger] self.cell(c, r2) is Empty),
            self.first_empty_from(c, r) == self.height ==> forall|r2: int|
                r <= r2 < self.height ==> !(#[trigger] self.cell(c, r2) is Empty),
        decreases self.height - r,
    {
        if r < self.height && !(self.cell(c, r) is Empty) {
            self.lemma_first_empty_from(c, r + 1);
        }
    }
}


impl ConnectFour {
    /// Count the cells holding `s` strictly beyond `pos` in direction
    /// `d`, stopping after at most `cap` cells.
    fn count_run(&self, pos: Pos, d: Direction, s: State, cap: u8) -> (cnt: u8)
        requires
            self.wf(),
            pos.0 < self.model().width,
            pos.1 < self.model().height,
        ensures
            ({
                let full = self.model().run(s, pos.0 as int, pos.1 as int, d);
                cnt as int == if full <= cap as int {
                    full as int
                } else {
                    cap as int
                }
            }),
    {
        let ghost m = self.model();
        let width = self.options.width;
        let height = self.options.height;
        let mut cnt: u8 = 0;
        let mut cur: Pos = pos;
        loop
            invariant_except_break
                self.wf(),
                m == self.model(),
                width == m.width,
                height == m.height,
                m.in_range(cur.0 as int, cur.1 as int),
                cnt <= cap,
                m.run(s, pos.0 as int, pos.1 as int, d) == cnt + m.run(
                    s,
                    cur.0 as int,
                    cur.1 as int,
                    d,
                ),
            ensures
                ({
                    let full = m.run(s, pos.0 as int, pos.1 as int, d);
                    cnt as int == if full <= cap as int {
                        full as int
                    } else {
                        cap as int
                    }
                }),
            decreases cap - cnt,
        {
            if cnt == cap {
                break ;
            }
            match d.walk(cur, width, height) {
                None => {
                    proof {
                        assert(m.run(s, cur.0 as int, cur.1 as int, d) == 0);
                    }
                    break ;
                },
                Some(p) => {
                    if self.cell_at(p) == s {
                        cnt += 1;
                        cur = p;
                    } else {
                        proof {
                            assert(m.run(s, cur.0 as int, cur.1 as int, d) == 0);
                        }
                        break ;
                    }
                },
            }
        }
        cnt
    }

    /// Does the stone at `pos` complete a winning run along the axis
    /// of `d`?
    fn check_axis(&self, pos: Pos, s: State, d: Direction) -> (won: bool)
        requires
            self.wf(),
            pos.0 < self.model().width,
            pos.1 < self.model().height,
            self.model().cell(pos.0 as int, pos.1 as int) == s,
        ensures
            won == self.model().wins_dir(pos.0 as int, pos.1 as int, d),
    {
        let ghost m = self.model();
        let length = self.options.length;
        let c1 = self.count_run(pos, d, s, length - 1);
        let missing = length - 1 - c1;
        let c2 = self.count_run(pos, d.inv(), s, missing);
        let won = 1 + c1 + c2 >= length;
        proof {
            let run1 = m.run(s, pos.0 as int, pos.1 as int, d);
            let run2 = m.run(s, pos.0 as int, pos.1 as int, d.spec_inv());
            if run1 <= length - 1 {
                assert(c1 as int == run1);
                if run2 <= missing as int {
                    assert(won == (1 + run1 + run2 >= length));
                } else {
                    assert(c2 == missing);
                    assert(won);
                    assert(1 + run1 + run2 >= length);
                }
            } else {
                assert(c1 == length - 1);
                assert(won);
                assert(1 + run1 + run2 >= length);
            }
        }
        won
    }

    /// Is every cell of the top row occupied?
    fn top_row_full(&self) -> (full: bool)
        requires
            self.wf(),
        ensures
            full == self.model().top_full(),
    {
        let ghost m = self.model();
        let width = self.options.width;
        let height = self.options.height;
        let mut column: u8 = 0;
        while column < width
            invariant
                self.wf(),
                m == self.model(),
                width == m.width,
                height == m.height,
                column <= width,
                forall|k: int| 0 <= k < column ==> !(#[trigger] m.cell(k, m.height - 1) is Empty),
            decreases width - column,
        {
            if self.cell_at((column, height - 1)) == State::Empty {
                return false;
            }
            column += 1;
        }
        true
    }

    /// Check whether dropping a stone in column `mov` is legal for
    /// `player` (1 or 2) right now: the column exists, the game is
    /// ongoing, it is that player's turn, and the column is not full.
    pub fn is_legal_move(&self, player: u8, mov: u64) -> (r: Result<(), GameError>)
        requires
            self.wf(),
            player == 1 || player == 2,
        ensures
            (r is Ok) == (mov < self.model().width && self.model().result is Ongoing
                && self.model().turn == (player == 2) && self.model().cell(
                mov as int,
                self.model().height - 1,
            ) is Empty),
            r matches Err(e) ==> e.code == ErrorCode::InvalidInput,
    {
        if mov >= self.options.width as u64 {
            return Err(GameError { code: ErrorCode::InvalidInput, msg: "column does not exist" });
        }
        if self.data.result.is_over() {
            return Err(GameError { code: ErrorCode::InvalidInput, msg: "game is already over" });
        }
        if self.data.turn != player_from_id(player) {
            return Err(GameError { code: ErrorCode::InvalidInput, msg: "not this player's turn" });
        }
        if self.cell_at((mov as u8, self.options.height - 1)) == State::Empty {
            Ok(())
        } else {
            Err(GameError { code: ErrorCode::InvalidInput, msg: "column full" })
        }
    }

    /// Drop `player`'s stone into column `mov`: the stone falls to
    /// the lowest empty cell, a completed run of `length` stones wins,
    /// a full top row without a win draws, and otherwise the turn
    /// passes to the other player.
    ///
    /// The caller must have checked legality, for instance through
    /// `is_legal_move`.
    pub fn make_move(&mut self, player: u8, mov: u64)
        requires
            old(self).wf(),
            player == 1 || player == 2,
            old(self).model().result is Ongoing,
            mov < old(self).model().width,
            old(self).model().turn == (player == 2),
            old(self).model().cell(mov as int, old(self).model().height - 1) is Empty,
        ensures
            final(self).wf(),
            final(self).spec_options() == old(self).spec_options(),
            ({
                let m0 = old(self).model();
                let row = m0.free_row(mov as int);
                let placed = m0.with_cell(mov as int, row, player_state(player));
                let m1 = final(self).model();
                &&& m1.width == m0.width && m1.height == m0.height && m1.length == m0.length
                &&& m1.cells == placed.cells
                &&& m1.result == (if placed.wins_at(mov as int, row) {
                    GameResult::Winner
                } else if placed.top_full() {
                    GameResult::Draw
                } else {
                    GameResult::Ongoing
                })
                &&& m1.turn == (if m1.result is Ongoing {
                    !m0.turn
                } else {
                    m0.turn
                })
            }),
    {
        let ghost m0 = self.model();
        let col = mov as u8;
        proof {
            assert(m0.cell(col as int, m0.height - 1) is Empty);
            assert(exists|r2: int|
                0 <= r2 < m0.height && #[trigger] m0.cell(col as int, r2) is Empty);
        }
        let row = self.free_cell(col);
        let s = State::from_player_id(player);
        self.set((col, row), s);
        let ghost placed = self.model();
        proof {
            self.lemma_cells_in_bounds();
            assert(placed.in_range(col as int, row as int));
            assert(placed.cell(col as int, row as int) == s);
        }
        let won = self.check_axis((col, row), s, Direction::N) || self.check_axis(
            (col, row),
            s,
            Direction::NE,
        ) || self.check_axis((col, row), s, Direction::E) || self.check_axis(
            (col, row),
            s,
            Direction::SE,
        );
        if won {
            self.data.result = GameResult::Winner;
        } else if self.top_row_full() {
            self.data.result = GameResult::Draw;
        } else {
            self.data.turn = !self.data.turn;
        }
    }

    /// Append to `moves` every column the player could drop a stone
    /// into, in increasing order; nothing is appended if the game is
    /// over or it is not that player's turn.
    pub fn get_concrete_moves(&self, player: u8, moves: &mut Vec<u64>)
        requires
            self.wf(),
            player == 1 || player == 2,
        ensures
            final(moves)@ == old(moves)@ + (if self.model().result is Ongoing
                && self.model().turn == (player == 2) {
                self.model().movable_from(0)
            } else {
                Seq::<u64>::empty()
            }),
    {
        let ghost m = self.model();
        let width = self.options.width;
        let height = self.options.height;
        let p = player_from_id(player);
        if self.data.result.is_over() || p != self.data.turn {
            proof {
                assert(moves@ =~= old(moves)@ + Seq::<u64>::empty());
            }
            return ;
        }
        let mut column: u8 = 0;
        while column < width
            invariant
                self.wf(),
                m == self.model(),
                width == m.width,
                height == m.height,
                column <= width,
                moves@ + m.movable_from(column as int) =~= old(moves)@ + m.movable_from(0),
            decreases width - column,
        {
            let ghost before = moves@;
            if self.cell_at((column, height - 1)) == State::Empty {
                moves.push(column as u64);
                proof {
                    assert(m.movable_from(column as int) =~= seq![column as u64]
                        + m.movable_from(column as int + 1));
                    assert(moves@ + m.movable_from(column as int + 1) =~= before
                        + m.movable_from(column as int));
                }
            } else {
                proof {
                    assert(m.movable_from(column as int) =~= m.movable_from(column as int + 1));
                }
            }
            column += 1;
        }
        proof {
            assert(m.movable_from(width as int) =~= Seq::<u64>::empty());
            assert(moves@ =~= old(moves)@ + m.movable_from(0));
        }
    }
}

} // verus!
