//! Read-only conveniences for a presentation layer driving a game.

use crate::codec::create_post;
use crate::game::{spec_player_id, BoardModel, ConnectFour, GameError, State};
use vstd::prelude::*;
use vstd::string::{is_ascii, StringSliceAdditionalSpecFns};

verus! {

/// The occupied cells of a board scanned row by row from the bottom,
/// each as column, row, and owner (`false` for X, `true` for O),
/// starting at cell (x, y).
pub open spec fn chips_from(m: BoardModel, x: int, y: int) -> Seq<(u8, u8, bool)>
    decreases m.height - y, m.width - x,
{
    if y < 0 || y >= m.height || x < 0 || x >= m.width {
        Seq::empty()
    } else {
        let here = match m.cell(x, y) {
            State::Empty => Seq::<(u8, u8, bool)>::empty(),
            State::X => seq![(x as u8, y as u8, false)],
            State::O => seq![(x as u8, y as u8, true)],
        };
        if x == m.width - 1 {
            here + chips_from(m, 0, y + 1)
        } else {
            here + chips_from(m, x + 1, y)
        }
    }
}

/// Convenience wrapper around a [`ConnectFour`] game.
pub struct Game(pub ConnectFour);

impl Game {
    /// Wrapper around `ConnectFour::create`.
    pub fn create(options: Option<&str>, state: Option<&str>) -> (r: Result<Game, GameError>)
        ensures
            r matches Ok(g) ==> create_post(options, state, Ok::<ConnectFour, GameError>(g.0)),
            r matches Err(e) ==> create_post(options, state, Err::<ConnectFour, GameError>(e)),
    {
        match ConnectFour::create(options, state) {
            Ok(g) => Ok(Game(g)),
            Err(e) => Err(e),
        }
    }

    /// Width of the board.
    pub fn width(&self) -> (r: u8)
        ensures
            r == self.0.spec_options().width,
    {
        self.0.options().width()
    }

    /// Height of the board.
    pub fn height(&self) -> (r: u8)
        ensures
            r == self.0.spec_options().height,
    {
        self.0.options().height()
    }

    /// All chips currently on the board, scanned row by row from the
    /// bottom-left.
    pub fn chips(&self) -> (r: Vec<(u8, u8, bool)>)
        requires
            self.0.wf(),
        ensures
            r@ == chips_from(self.0.model(), 0, 0),
    {
        let ghost m = self.0.model();
        let width = self.0.options().width();
        let height = self.0.options().height();
        let mut out: Vec<(u8, u8, bool)> = Vec::new();
        let mut y: u8 = 0;
        while y < height
            invariant
                self.0.wf(),
                m == self.0.model(),
                width == m.width,
                height == m.height,
                y <= height,
                out@ + chips_from(m, 0, y as int) == chips_from(m, 0, 0),
            decreases height - y,
        {
            let mut x: u8 = 0;
            while x < width
                invariant
                    self.0.wf(),
                    m == self.0.model(),
                    width == m.width,
                    height == m.height,
                    y < height,
                    x <= width,
                    out@ + (if x < width {
                        chips_from(m, x as int, y as int)
                    } else {
                        chips_from(m, 0, y as int + 1)
                    }) == chips_from(m, 0, 0),
                decreases width - x,
            {
                let ghost before = out@;
                match self.0.cell_at((x, y)) {
                    State::Empty => {},
                    State::X => {
                        out.push((x, y, false));
                    },
                    State::O => {
                        out.push((x, y, true));
                    },
                }
                proof {
                    let rest = if x as int == m.width - 1 {
                        chips_from(m, 0, y as int + 1)
                    } else {
                        chips_from(m, x as int + 1, y as int)
                    };
                    assert(before + chips_from(m, x as int, y as int) == chips_from(m, 0, 0));
                    assert(out@ + rest =~= before + chips_from(m, x as int, y as int));
                }
                x += 1;
            }
            y += 1;
        }
        proof {
            assert(chips_from(m, 0, height as int) =~= Seq::<(u8, u8, bool)>::empty());
            assert(out@ =~= out@ + chips_from(m, 0, height as int));
        }
        out
    }

    /// The id (1 for X, 2 for O) of the player to move.
    ///
    /// The game must still be ongoing.
    pub fn player_id(&self) -> (r: u8)
        requires
            self.0.wf(),
            self.0.model().result is Ongoing,
        ensures
            r == spec_player_id(self.0.model().turn),
    {
        crate::game::player_to_id(self.0.turn())
    }
}

/// Strip the trailing NUL character from an ASCII string.
pub fn strip_nul(s: &str) -> (r: &str)
    requires
        is_ascii(s),
        0 < s@.len() <= usize::MAX,
        s@.last() == '\0',
    ensures
        r@ == s@.drop_last(),
{
    let n = s.len();
    proof {
        vstd::string::is_ascii_spec_bytes(s);
        assert(s.spec_bytes() =~= Seq::new(s@.len(), |i: int| s@.index(i) as u8));
        assert(n == s@.len());
        assert(s.spec_bytes()[n as int - 1] == '\0' as u8);
        assert(!vstd::utf8::is_continuation_byte(s.spec_bytes()[n as int - 1]));
        vstd::utf8::encode_utf8_valid_utf8(s@);
        vstd::utf8::is_char_boundary_iff_not_is_continuation_byte(s.spec_bytes(), n as int - 1);
    }
    let (head, _tail) = s.split_at(n - 1);
    proof {
        let hc = s@.drop_last();
        assert(vstd::utf8::is_ascii_chars(hc)) by {
            assert(forall|i: int| 0 <= i < hc.len() ==> #[trigger] hc[i] == s@[i]);
        }
        vstd::utf8::is_ascii_chars_encode_utf8(hc);
        assert(head.spec_bytes() =~= vstd::utf8::encode_utf8(hc));
        vstd::utf8::encode_utf8_decode_utf8(head@);
        vstd::utf8::encode_utf8_decode_utf8(hc);
        assert(head@ == hc);
    }
    head
}

} // verus!
