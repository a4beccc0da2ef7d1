//! The textual state format: parsing and printing of full game
//! states.

use crate::game::{BoardModel, ConnectFour, ErrorCode, GameError, GameResult, State};
use crate::text::{dec, push_char, subvec, trim, trim_start_idx, trim_start_vec, trim_vec};
use vstd::prelude::*;

verus! {

/// A character that denotes a stone on import.
pub open spec fn is_stone(c: char) -> bool {
    c == 'x' || c == 'X' || c == 'o' || c == 'O'
}

/// The cell state a stone character denotes.
pub open spec fn stone_state(c: char) -> State {
    if c == 'x' || c == 'X' {
        State::X
    } else {
        State::O
    }
}

/// The character a cell is printed as.
pub open spec fn state_char(s: State) -> char {
    match s {
        State::Empty => ' ',
        State::X => 'X',
        State::O => 'O',
    }
}

/// The index of the last `/` in `t`, or `-1`.
pub open spec fn last_slash(t: Seq<char>) -> int
    decreases t.len(),
{
    if t.len() == 0 {
        -1
    } else if t.last() == '/' {
        t.len() - 1
    } else {
        last_slash(t.drop_last())
    }
}

/// `t` split at every `/`, empty pieces included.
pub open spec fn segments(t: Seq<char>) -> Seq<Seq<char>>
    decreases t.len(),
{
    let ls = last_slash(t);
    if ls < 0 || ls >= t.len() {
        seq![t]
    } else {
        segments(t.take(ls)).push(t.skip(ls + 1))
    }
}

/// The last slash lies inside `t` and nothing after it is a slash.
proof fn lemma_last_slash(t: Seq<char>)
    ensures
        -1 <= last_slash(t) < t.len(),
        last_slash(t) >= 0 ==> t[last_slash(t)] == '/',
        forall|j: int| last_slash(t) < j < t.len() ==> t[j] != '/',
    decreases t.len(),
{
    if t.len() > 0 && t.last() != '/' {
        lemma_last_slash(t.drop_last());
        assert forall|j: int| last_slash(t) < j < t.len() implies t[j] != '/' by {
            if j < t.len() - 1 {
                assert(t.drop_last()[j] == t[j]);
            }
        }
    }
}

/// Where the last slash of a sequence with a known final slash lies.
proof fn lemma_last_slash_at(u: Seq<char>, k: int)
    requires
        0 <= k < u.len(),
        u[k] == '/',
        forall|j: int| k < j < u.len() ==> u[j] != '/',
    ensures
        last_slash(u) == k,
    decreases u.len(),
{
    if k < u.len() - 1 {
        assert(u.last() != '/');
        lemma_last_slash_at(u.drop_last(), k);
    }
}

/// There is always at least one piece.
proof fn lemma_segments_len(t: Seq<char>)
    ensures
        segments(t).len() >= 1,
{
    lemma_last_slash(t);
}

/// A sequence without slashes is one piece.
pub proof fn lemma_segments_noslash(a: Seq<char>)
    requires
        forall|i: int| 0 <= i < a.len() ==> a[i] != '/',
    ensures
        segments(a) == seq![a],
{
    lemma_last_slash(a);
}

/// Appending a non-slash character extends the last piece.
proof fn lemma_segments_push(t: Seq<char>, c: char)
    requires
        c != '/',
    ensures
        segments(t).len() >= 1,
        segments(t.push(c)) == segments(t).update(
            segments(t).len() - 1,
            segments(t).last().push(c),
        ),
{
    lemma_segments_len(t);
    lemma_last_slash(t);
    let u = t.push(c);
    assert(u.drop_last() =~= t);
    assert(u.last() == c);
    assert(last_slash(u) == last_slash(t));
    let ls = last_slash(t);
    if ls < 0 {
        assert(segments(u) == seq![u]);
        assert(segments(t) == seq![t]);
        assert(segments(t).update(0, t.push(c)) =~= seq![u]);
    } else {
        assert(u.take(ls) =~= t.take(ls));
        assert(u.skip(ls + 1) =~= t.skip(ls + 1).push(c));
        assert(segments(u) == segments(u.take(ls)).push(u.skip(ls + 1)));
        assert(segments(t).update(segments(t).len() - 1, segments(t).last().push(c)) =~= segments(
            t.take(ls),
        ).push(t.skip(ls + 1).push(c)));
    }
}

/// Appending a slash starts a new, empty piece.
proof fn lemma_segments_push_slash(t: Seq<char>)
    ensures
        segments(t.push('/')) == segments(t).push(Seq::empty()),
{
    let u = t.push('/');
    assert(u.last() == '/');
    assert(last_slash(u) == u.len() - 1);
    assert(u.take(u.len() - 1) =~= t);
    assert(u.skip(u.len() as int) =~= Seq::<char>::empty());
}

/// Splitting a slash-joined pair peels off the first piece.
pub proof fn lemma_segments_join(a: Seq<char>, b: Seq<char>)
    requires
        forall|i: int| 0 <= i < a.len() ==> a[i] != '/',
    ensures
        segments(a + seq!['/'] + b) == seq![a] + segments(b),
    decreases b.len(),
{
    let u = a + seq!['/'] + b;
    lemma_last_slash(b);
    lemma_segments_noslash(a);
    let lsb = last_slash(b);
    if lsb < 0 {
        lemma_last_slash_at(u, a.len() as int);
        assert(segments(u) == segments(u.take(a.len() as int)).push(u.skip(a.len() as int + 1)));
        assert(u.take(a.len() as int) =~= a);
        assert(u.skip(a.len() as int + 1) =~= b);
        lemma_segments_noslash(b);
        assert(seq![a].push(b) =~= seq![a] + segments(b));
    } else {
        let k = a.len() + 1 + lsb;
        assert(u[k] == b[lsb]);
        assert forall|j: int| k < j < u.len() implies u[j] != '/' by {
            assert(u[j] == b[j - a.len() - 1]);
        }
        lemma_last_slash_at(u, k);
        assert(segments(u) == segments(u.take(k)).push(u.skip(k + 1)));
        assert(u.take(k) =~= a + seq!['/'] + b.take(lsb));
        assert(u.skip(k + 1) =~= b.skip(lsb + 1));
        lemma_segments_join(a, b.take(lsb));
        assert(segments(b) == segments(b.take(lsb)).push(b.skip(lsb + 1)));
        assert((seq![a] + segments(b.take(lsb))).push(b.skip(lsb + 1)) =~= seq![a] + segments(b));
    }
}

/// The first `#` at or after `i`, or the length.
pub open spec fn hash_idx(t: Seq<char>, i: int) -> int
    decreases t.len() - i,
{
    if 0 <= i < t.len() && t[i] != '#' {
        hash_idx(t, i + 1)
    } else {
        i
    }
}

/// The board part of a state text: everything after leading
/// whitespace and before the first `#`.
pub open spec fn state_body(t: Seq<char>) -> Seq<char> {
    let u = t.skip(trim_start_idx(t, 0));
    u.take(hash_idx(u, 0))
}

/// The trailer part of a state text: everything after the first `#`,
/// trimmed.
pub open spec fn state_trailer(t: Seq<char>) -> Seq<char> {
    let u = t.skip(trim_start_idx(t, 0));
    let hp = hash_idx(u, 0);
    if hp < u.len() {
        trim(u.skip(hp + 1))
    } else {
        Seq::empty()
    }
}

/// What a trailer denotes: whose turn it is and the result. A
/// lowercase letter names the player to move, an uppercase letter a
/// winner, and a dash a draw.
pub open spec fn parse_trailer(t: Seq<char>) -> Option<(bool, GameResult)> {
    if t.len() != 1 {
        None
    } else if t[0] == 'x' {
        Some((false, GameResult::Ongoing))
    } else if t[0] == 'X' {
        Some((false, GameResult::Winner))
    } else if t[0] == 'o' {
        Some((true, GameResult::Ongoing))
    } else if t[0] == 'O' {
        Some((true, GameResult::Winner))
    } else if t[0] == '-' {
        Some((false, GameResult::Draw))
    } else {
        None
    }
}

/// A board part fits a `w` by `h` board: no more than `w` columns, no
/// more than `h` stones per column, and stone characters only.
pub open spec fn body_ok(segs: Seq<Seq<char>>, w: int, h: int) -> bool {
    &&& segs.len() <= w
    &&& forall|k: int| 0 <= k < segs.len() ==> (#[trigger] segs[k]).len() <= h
    &&& forall|k: int, j: int|
        0 <= k < segs.len() && 0 <= j < segs[k].len() ==> is_stone(#[trigger] segs[k][j])
}

/// Does a state text describe a game on a `w` by `h` board?
pub open spec fn state_text_ok(t: Seq<char>, w: int, h: int) -> bool {
    body_ok(segments(state_body(t)), w, h) && parse_trailer(state_trailer(t)) is Some
}

/// The cell a state text puts in column `c`, row `r`.
pub open spec fn decoded_cell(t: Seq<char>, c: int, r: int) -> State {
    let segs = segments(state_body(t));
    if 0 <= c < segs.len() && 0 <= r < segs[c].len() {
        stone_state(segs[c][r])
    } else {
        State::Empty
    }
}

/// The turn a state text sets.
pub open spec fn decoded_turn(t: Seq<char>) -> bool {
    match parse_trailer(state_trailer(t)) {
        Some(p) => p.0,
        None => false,
    }
}

/// The result a state text sets.
pub open spec fn decoded_result(t: Seq<char>) -> GameResult {
    match parse_trailer(state_trailer(t)) {
        Some(p) => p.1,
        None => GameResult::Ongoing,
    }
}

/// The stones of column `c` from bottom to top, up to the first empty
/// cell.
pub open spec fn col_seq(m: BoardModel, c: int) -> Seq<char> {
    Seq::new(m.free_row(c) as nat, |r: int| state_char(m.cell(c, r)))
}

/// The board part of the exported text, from column `c` on: the
/// columns' stones joined by slashes.
pub open spec fn body_from(m: BoardModel, c: int) -> Seq<char>
    decreases m.width - c,
{
    if c < 0 || c >= m.width {
        Seq::empty()
    } else if c == m.width - 1 {
        col_seq(m, c)
    } else {
        col_seq(m, c) + seq!['/'] + body_from(m, c + 1)
    }
}

/// The one-character trailer of the exported text.
pub open spec fn trailer_char(turn: bool, result: GameResult) -> char {
    match result {
        GameResult::Ongoing => if turn {
            'o'
        } else {
            'x'
        },
        GameResult::Winner => if turn {
            'O'
        } else {
            'X'
        },
        GameResult::Draw => '-',
    }
}

/// The full exported text of a game state.
pub open spec fn encoded(m: BoardModel) -> Seq<char> {
    body_from(m, 0) + seq!['#'] + seq![trailer_char(m.turn, m.result)]
}


/// Is `c` a stone character?
fn is_stone_exec(c: char) -> (r: bool)
    ensures
        r == is_stone(c),
{
    c == 'x' || c == 'X' || c == 'o' || c == 'O'
}

/// The cell state of a stone character.
fn stone_state_exec(c: char) -> (r: State)
    ensures
        r == stone_state(c),
{
    if c == 'x' || c == 'X' {
        State::X
    } else {
        State::O
    }
}

/// The character a cell is printed as.
fn state_char_exec(s: State) -> (r: char)
    ensures
        r == state_char(s),
{
    match s {
        State::Empty => ' ',
        State::X => 'X',
        State::O => 'O',
    }
}

/// The exported trailer character.
fn trailer_char_exec(turn: bool, result: GameResult) -> (r: char)
    ensures
        r == trailer_char(turn, result),
{
    match result {
        GameResult::Ongoing => if turn {
            'o'
        } else {
            'x'
        },
        GameResult::Winner => if turn {
            'O'
        } else {
            'X'
        },
        GameResult::Draw => '-',
    }
}

/// The index of the first `#` in `u`, or the length.
fn find_hash(u: &Vec<char>) -> (hp: usize)
    ensures
        hp == hash_idx(u@, 0),
        hp <= u@.len(),
{
    let n = u.len();
    let mut i: usize = 0;
    while i < n
        invariant
            i <= n,
            n == u@.len(),
            hash_idx(u@, 0) == hash_idx(u@, i as int),
        decreases n - i,
    {
        if u[i] == '#' {
            return i;
        }
        i += 1;
    }
    i
}

/// `body` split at every `/`, empty pieces included.
fn split_segments(body: &Vec<char>) -> (segs: Vec<Vec<char>>)
    ensures
        segs@.len() == segments(body@).len(),
        forall|k: int| 0 <= k < segs@.len() ==> (#[trigger] segs@[k])@ == segments(body@)[k],
{
    let n = body.len();
    let mut segs: Vec<Vec<char>> = Vec::new();
    let mut cur: Vec<char> = Vec::new();
    let mut i: usize = 0;
    while i < n
        invariant
            i <= n,
            n == body@.len(),
            segs@.len() + 1 == segments(body@.take(i as int)).len(),
            forall|k: int|
                0 <= k < segs@.len() ==> (#[trigger] segs@[k])@ == segments(body@.take(i as int))[k],
            cur@ == segments(body@.take(i as int)).last(),
        decreases n - i,
    {
        let ghost pfx = body@.take(i as int);
        let c = body[i];
        if c == '/' {
            proof {
                lemma_segments_push_slash(pfx);
                assert(body@.take(i + 1) =~= pfx.push('/'));
            }
            segs.push(cur);
            cur = Vec::new();
        } else {
            proof {
                lemma_segments_push(pfx, c);
                assert(body@.take(i + 1) =~= pfx.push(c));
            }
            cur.push(c);
        }
        i += 1;
    }
    proof {
        assert(body@.take(n as int) =~= body@);
    }
    segs.push(cur);
    segs
}

impl ConnectFour {
    /// The game state as text: for every column its stones from
    /// bottom to top, columns joined by `/`, then `#` and a trailer
    /// character naming the side to move or the outcome.
    pub fn export_state(&self) -> (r: String)
        requires
            self.wf(),
        ensures
            r@ == encoded(self.model()),
    {
        let ghost m = self.model();
        let width = self.options.width;
        let height = self.options.height;
        let mut out = String::new();
        let mut c: u8 = 0;
        while c < width
            invariant
                self.wf(),
                m == self.model(),
                width == m.width,
                height == m.height,
                c <= width,
                out@ + (if c == 0 {
                    body_from(m, 0)
                } else if c < width {
                    seq!['/'] + body_from(m, c as int)
                } else {
                    Seq::<char>::empty()
                }) == body_from(m, 0),
            decreases width - c,
        {
            if c > 0 {
                push_char(&mut out, '/');
            }
            let ghost base = out@;
            let ghost col = col_seq(m, c as int);
            let mut r: u8 = 0;
            while r < height && !(self.cell_at((c, r)) == State::Empty)
                invariant
                    self.wf(),
                    m == self.model(),
                    width == m.width,
                    height == m.height,
                    c < width,
                    r <= height,
                    col == col_seq(m, c as int),
                    m.free_row(c as int) == m.first_empty_from(c as int, r as int),
                    forall|r2: int|
                        0 <= r2 < r ==> !(#[trigger] m.cell(c as int, r2) is Empty),
                    out@ == base + col.take(r as int),
                decreases height - r,
            {
                let st = self.cell_at((c, r));
                proof {
                    m.lemma_first_empty_from(c as int, r as int + 1);
                    assert(m.free_row(c as int) >= r + 1);
                }
                push_char(&mut out, state_char_exec(st));
                proof {
                    assert(col[r as int] == state_char(m.cell(c as int, r as int)));
                    assert(out@ =~= base + col.take(r as int + 1));
                }
                r += 1;
            }
            proof {
                if r < height {
                    assert(m.free_row(c as int) == r);
                } else {
                    assert(m.free_row(c as int) == height);
                }
                assert(col.take(m.free_row(c as int)) =~= col);
                assert(out@ == base + col);
            }
            proof {
                if c == 0 {
                    if width == 1 {
                        assert(body_from(m, 0) =~= col);
                        assert(out@ + Seq::<char>::empty() =~= body_from(m, 0));
                    } else {
                        assert(body_from(m, 0) =~= col + seq!['/'] + body_from(m, 1));
                        assert(out@ + (seq!['/'] + body_from(m, 1)) =~= body_from(m, 0));
                    }
                } else {
                    let old_out = base.take(base.len() - 1);
                    assert(base =~= old_out + seq!['/']);
                    assert(old_out + (seq!['/'] + body_from(m, c as int)) == body_from(m, 0));
                    if c as int == m.width - 1 {
                        assert(body_from(m, c as int) =~= col);
                        assert(out@ + Seq::<char>::empty() =~= old_out + (seq!['/'] + body_from(
                            m,
                            c as int,
                        )));
                    } else {
                        assert(body_from(m, c as int) =~= col + seq!['/'] + body_from(
                            m,
                            c as int + 1,
                        ));
                        assert(out@ + (seq!['/'] + body_from(m, c as int + 1)) =~= old_out + (seq![
                            '/',
                        ] + body_from(m, c as int)));
                    }
                }
            }
            c += 1;
        }
        proof {
            assert(out@ + Seq::<char>::empty() =~= out@);
            assert(out@ == body_from(m, 0));
        }
        push_char(&mut out, '#');
        push_char(&mut out, trailer_char_exec(self.data.turn, self.data.result));
        proof {
            assert(out@ =~= encoded(m));
        }
        out
    }

    /// The options as text: width, height, and run length separated
    /// by single spaces.
    pub fn export_options(&self) -> (r: String)
        ensures
            r@ == crate::text::options_text(self.spec_options()),
    {
        let mut out = crate::text::format_u8(self.options.width);
        push_char(&mut out, ' ');
        let h = crate::text::format_u8(self.options.height);
        out.append(h.as_str());
        push_char(&mut out, ' ');
        let l = crate::text::format_u8(self.options.length);
        out.append(l.as_str());
        proof {
            assert(out@ =~= crate::text::options_text(self.spec_options()));
        }
        out
    }

    /// Parse a move text as a column number.
    pub fn get_move_data(&self, string: &str) -> (r: Result<u64, GameError>)
        ensures
            (r is Ok) == crate::text::spec_parse_move_ok(string@),
            r matches Ok(n) ==> n == crate::text::val(crate::text::move_digits(string@)),
            r matches Err(e) ==> e.code == ErrorCode::InvalidInput,
    {
        crate::text::parse_move_text(string)
    }

    /// The decimal text of a move's column number.
    pub fn get_move_str(&self, mov: u64) -> (r: String)
        ensures
            r@ == dec(mov as int),
    {
        crate::text::format_move_text(mov)
    }
}


/// The options a `create` call works with: the parsed options text,
/// or the classic defaults when none is given.
pub open spec fn spec_create_options(options: Option<&str>) -> Result<
    crate::game::GameOptions,
    ErrorCode,
> {
    match options {
        Some(o) => crate::text::spec_parse_options(o@),
        None => Ok(crate::game::GameOptions { width: 7, height: 6, length: 4 }),
    }
}

/// What `create` returns: a well-formed game holding exactly the
/// parsed options and the decoded state, or the first error.
pub open spec fn create_post(
    options: Option<&str>,
    state: Option<&str>,
    r: Result<ConnectFour, GameError>,
) -> bool {
    let opts = spec_create_options(options);
    match r {
        Ok(g) => {
            &&& opts matches Ok(op) && g.spec_options() == op
            &&& g.wf()
            &&& match state {
                None => {
                    &&& forall|c: int, r2: int|
                        g.model().in_range(c, r2) ==> #[trigger] g.model().cell(c, r2) is Empty
                    &&& g.model().turn == false
                    &&& g.model().result is Ongoing
                },
                Some(st) => {
                    &&& state_text_ok(st@, g.model().width, g.model().height)
                    &&& forall|c: int, r2: int|
                        g.model().in_range(c, r2) ==> #[trigger] g.model().cell(c, r2)
                            == decoded_cell(st@, c, r2)
                    &&& g.model().turn == decoded_turn(st@)
                    &&& g.model().result == decoded_result(st@)
                },
            }
        },
        Err(e) => {
            ||| (opts matches Err(code) && e.code == code)
            ||| (opts matches Ok(op) && state matches Some(st) && !state_text_ok(
                st@,
                op.width as int,
                op.height as int,
            ) && e.code == ErrorCode::InvalidInput)
        },
    }
}

impl ConnectFour {
    /// Replace this game's state with the one a state text describes,
    /// leaving the options as they are.
    ///
    /// `None` resets to an empty board with X to move. Otherwise the
    /// text's column groups fill the board bottom-up and its trailer
    /// sets the turn and result. A text that does not fit the board
    /// or has an unknown stone or trailer character is rejected, and
    /// the game is left untouched.
    pub fn import_state(&mut self, string: Option<&str>) -> (r: Result<(), GameError>)
        requires
            old(self).wf(),
        ensures
            final(self).wf(),
            final(self).spec_options() == old(self).spec_options(),
            match string {
                None => ({
                    &&& r is Ok
                    &&& forall|c: int, r2: int|
                        final(self).model().in_range(c, r2)
                            ==> #[trigger] final(self).model().cell(c, r2) is Empty
                    &&& final(self).model().turn == false
                    &&& final(self).model().result is Ongoing
                }),
                Some(st) => ({
                    &&& (r is Ok) == state_text_ok(
                        st@,
                        old(self).model().width,
                        old(self).model().height,
                    )
                    &&& r is Ok ==> {
                        &&& forall|c: int, r2: int|
                            final(self).model().in_range(c, r2)
                                ==> #[trigger] final(self).model().cell(c, r2) == decoded_cell(
                                st@,
                                c,
                                r2,
                            )
                        &&& final(self).model().turn == decoded_turn(st@)
                        &&& final(self).model().result == decoded_result(st@)
                    }
                    &&& r matches Err(e) ==> e.code == ErrorCode::InvalidInput && *final(self)
                        == *old(self)
                }),
            },
    {
        let ghost m0 = old(self).model();
        let s: &str = match string {
            None => {
                self.data.reset();
                proof {
                    self.lemma_cells_in_bounds();
                }
                return Ok(());
            },
            Some(s) => s,
        };
        let chars = crate::text::to_chars(s);
        let u = trim_start_vec(&chars);
        let hp = find_hash(&u);
        let body = subvec(&u, 0, hp);
        proof {
            assert(body@ =~= state_body(s@));
        }
        let ghost gsegs = segments(state_body(s@));
        let segs = split_segments(&body);
        let trailer_raw: Vec<char> = if hp < u.len() {
            subvec(&u, hp + 1, u.len())
        } else {
            Vec::new()
        };
        let trailer = trim_vec(&trailer_raw);
        proof {
            if hp < u@.len() {
                assert(trailer_raw@ =~= u@.skip(hp + 1));
            } else {
                assert(trim(Seq::<char>::empty()) =~= Seq::<char>::empty());
            }
            assert(trailer@ == state_trailer(s@));
        }
        let tr: Option<(bool, GameResult)> = if trailer.len() == 1 {
            let c0 = trailer[0];
            if c0 == 'x' {
                Some((false, GameResult::Ongoing))
            } else if c0 == 'X' {
                Some((false, GameResult::Winner))
            } else if c0 == 'o' {
                Some((true, GameResult::Ongoing))
            } else if c0 == 'O' {
                Some((true, GameResult::Winner))
            } else if c0 == '-' {
                Some((false, GameResult::Draw))
            } else {
                None
            }
        } else {
            None
        };
        proof {
            assert(tr == parse_trailer(state_trailer(s@)));
        }
        let (turn, result) = match tr {
            Some(p) => p,
            None => {
                return Err(
                    GameError { code: ErrorCode::InvalidInput, msg: "unknown state trailer" },
                );
            },
        };
        let width = self.options.width;
        let height = self.options.height;
        if segs.len() > width as usize {
            return Err(GameError { code: ErrorCode::InvalidInput, msg: "state has too many columns" });
        }
        let mut k: usize = 0;
        while k < segs.len()
            invariant
                *self == *old(self),
                old(self).wf(),
                m0 == old(self).model(),
                string == Some(s),
                gsegs == segments(state_body(s@)),
                k <= segs@.len(),
                segs@.len() == gsegs.len(),
                gsegs.len() <= m0.width,
                forall|k2: int| 0 <= k2 < segs@.len() ==> (#[trigger] segs@[k2])@ == gsegs[k2],
                height == old(self).model().height,
                forall|k2: int| 0 <= k2 < k ==> (#[trigger] gsegs[k2]).len() <= height,
                forall|k2: int, j: int|
                    0 <= k2 < k && 0 <= j < gsegs[k2].len() ==> is_stone(#[trigger] gsegs[k2][j]),
            decreases segs@.len() - k,
        {
            let seg = &segs[k];
            if seg.len() > height as usize {
                return Err(
                    GameError { code: ErrorCode::InvalidInput, msg: "state has too many rows" },
                );
            }
            let mut j: usize = 0;
            while j < seg.len()
                invariant
                    *self == *old(self),
                    old(self).wf(),
                    m0 == old(self).model(),
                    string == Some(s),
                    gsegs == segments(state_body(s@)),
                    k < segs@.len(),
                    segs@.len() == gsegs.len(),
                    gsegs.len() <= m0.width,
                    seg@ == gsegs[k as int],
                    j <= seg@.len(),
                    height == old(self).model().height,
                    seg@.len() <= height,
                    forall|j2: int| 0 <= j2 < j ==> is_stone(#[trigger] seg@[j2]),
                decreases seg@.len() - j,
            {
                if !is_stone_exec(seg[j]) {
                    return Err(
                        GameError { code: ErrorCode::InvalidInput, msg: "not a valid player" },
                    );
                }
                j += 1;
            }
            k += 1;
        }
        proof {
            assert(body_ok(gsegs, m0.width, m0.height));
            assert(state_text_ok(s@, m0.width, m0.height));
        }
        self.data.reset();
        self.data.turn = turn;
        self.data.result = result;
        proof {
            self.lemma_cells_in_bounds();
            assert forall|c: int, r2: int| self.model().in_range(c, r2) implies #[trigger] self.model().cell(
                c,
                r2,
            ) is Empty by {}
        }
        let mut k: usize = 0;
        while k < segs.len()
            invariant
                self.wf(),
                self.spec_options() == old(self).spec_options(),
                self.model().width == m0.width,
                self.model().height == m0.height,
                self.model().turn == turn,
                self.model().result == result,
                k <= segs@.len(),
                segs@.len() == gsegs.len(),
                gsegs.len() <= m0.width,
                forall|k2: int| 0 <= k2 < segs@.len() ==> (#[trigger] segs@[k2])@ == gsegs[k2],
                forall|k2: int| 0 <= k2 < gsegs.len() ==> (#[trigger] gsegs[k2]).len()
                    <= m0.height,
                forall|k2: int, j: int|
                    0 <= k2 < gsegs.len() && 0 <= j < gsegs[k2].len() ==> is_stone(
                        #[trigger] gsegs[k2][j],
                    ),
                forall|c: int, r2: int|
                    self.model().in_range(c, r2) ==> #[trigger] self.model().cell(c, r2) == (
                    if c < k && 0 <= r2 < gsegs[c].len() {
                        stone_state(gsegs[c][r2])
                    } else {
                        State::Empty
                    }),
            decreases segs@.len() - k,
        {
            let seg = &segs[k];
            let mut j: usize = 0;
            while j < seg.len()
                invariant
                    self.wf(),
                    self.spec_options() == old(self).spec_options(),
                    self.model().width == m0.width,
                    self.model().height == m0.height,
                    self.model().turn == turn,
                    self.model().result == result,
                    k < segs@.len(),
                    segs@.len() == gsegs.len(),
                    gsegs.len() <= m0.width,
                    seg@ == gsegs[k as int],
                    j <= seg@.len(),
                    seg@.len() <= m0.height,
                    forall|k2: int| 0 <= k2 < segs@.len() ==> (#[trigger] segs@[k2])@ == gsegs[k2],
                    forall|k2: int| 0 <= k2 < gsegs.len() ==> (#[trigger] gsegs[k2]).len()
                        <= m0.height,
                    forall|k2: int, j2: int|
                        0 <= k2 < gsegs.len() && 0 <= j2 < gsegs[k2].len() ==> is_stone(
                            #[trigger] gsegs[k2][j2],
                        ),
                    forall|c: int, r2: int|
                        self.model().in_range(c, r2) ==> #[trigger] self.model().cell(c, r2) == (
                        if c < k && 0 <= r2 < gsegs[c].len() {
                            stone_state(gsegs[c][r2])
                        } else if c == k && 0 <= r2 < j {
                            stone_state(gsegs[c][r2])
                        } else {
                            State::Empty
                        }),
                decreases seg@.len() - j,
            {
                let st = stone_state_exec(seg[j]);
                let ghost before = self.model();
                self.set((k as u8, j as u8), st);
                proof {
                    let h = self.model().height;
                    self.lemma_cells_in_bounds();
                    assert(k < 256 && j < 256);
                    assert(self.model() == before.with_cell(k as int, j as int, st));
                    assert(before.in_range(k as int, j as int));
                    assert(before.cells.len() == m0.width * m0.height);
                    assert(0 <= (k as int) * h + (j as int) && (k as int) * h + (j as int)
                        < m0.width * h) by (nonlinear_arith)
                        requires
                            0 <= (k as int) < m0.width,
                            0 <= (j as int) < h,
                    ;
                    assert(0 <= (k as int) * h + (j as int) < before.cells.len());
                    assert forall|c: int, r2: int| self.model().in_range(c, r2) implies
                        #[trigger] self.model().cell(c, r2) == (if c == k && r2 == j {
                            st
                        } else {
                            before.cell(c, r2)
                        }) by {
                        assert(0 <= c * h + r2 && c * h + r2 < m0.width * h) by (nonlinear_arith)
                            requires
                                0 <= c < m0.width,
                                0 <= r2 < h,
                        ;
                        if !(c == k && r2 == j) {
                            if c * h + r2 == k as int * h + j as int {
                                ConnectFour::lemma_cell_index_injective(
                                    h,
                                    c,
                                    r2,
                                    k as int,
                                    j as int,
                                );
                            }
                        }
                    }
                }
                j += 1;
            }
            k += 1;
        }
        proof {
            assert forall|c: int, r2: int| self.model().in_range(c, r2) implies #[trigger] self.model().cell(
                c,
                r2,
            ) == decoded_cell(s@, c, r2) by {}
        }
        Ok(())
    }

    /// Create a game from an options text (or the classic defaults)
    /// and an optional state text.
    pub fn create(options: Option<&str>, state: Option<&str>) -> (r: Result<ConnectFour, GameError>)
        ensures
            create_post(options, state, r),
    {
        let opts = match options {
            Some(o) => match crate::game::GameOptions::new(o) {
                Ok(op) => op,
                Err(e) => {
                    return Err(e);
                },
            },
            None => crate::game::GameOptions { width: 7, height: 6, length: 4 },
        };
        proof {
            assert(opts.valid());
        }
        let data = crate::game::GameData::new(&opts);
        let mut game = ConnectFour::assemble(opts, data);
        match game.import_state(state) {
            Ok(()) => Ok(game),
            Err(e) => Err(e),
        }
    }
}


/// Characters needed to print the largest column index of a board
/// `w` columns wide.
pub open spec fn col_chars_for(w: int) -> int {
    if w <= 10 {
        1
    } else if w <= 100 {
        2
    } else {
        3
    }
}

/// One printed cell: its character repeated `n` times.
pub open spec fn render_cell(s: State, n: int) -> Seq<char> {
    Seq::new(n as nat, |i: int| state_char(s))
}

/// One printed board row from column `x` on, ending in `|` and a
/// newline.
pub open spec fn row_from(m: BoardModel, y: int, x: int, n: int) -> Seq<char>
    decreases m.width - x,
{
    if x < 0 || x >= m.width {
        seq!['|', '\n']
    } else {
        seq!['|'] + render_cell(m.cell(x, y), n) + row_from(m, y, x + 1, n)
    }
}

/// The printed rows from row `y` down to the bottom.
pub open spec fn rows_down(m: BoardModel, y: int, n: int) -> Seq<char>
    decreases y + 1,
{
    if y < 0 {
        Seq::empty()
    } else {
        row_from(m, y, 0, n) + rows_down(m, y - 1, n)
    }
}

/// `t` padded on the left with spaces to width `n`.
pub open spec fn pad_left(t: Seq<char>, n: int) -> Seq<char> {
    Seq::new(if n >= t.len() {
        (n - t.len()) as nat
    } else {
        0
    }, |i: int| ' ') + t
}

/// The printed row of column indices from column `x` on, ending in a
/// space and a newline.
pub open spec fn idx_row(m: BoardModel, x: int, n: int) -> Seq<char>
    decreases m.width - x,
{
    if x < 0 || x >= m.width {
        seq![' ', '\n']
    } else {
        seq![' '] + pad_left(dec(x), n) + idx_row(m, x + 1, n)
    }
}

/// The human-readable grid: the board from the top row down, then the
/// column indices.
pub open spec fn printed(m: BoardModel) -> Seq<char> {
    let n = col_chars_for(m.width);
    rows_down(m, m.height - 1, n) + idx_row(m, 0, n)
}

impl ConnectFour {
    /// Render the board as a grid of `|`-separated cells from the top
    /// row down, followed by a row of column indices. Purely
    /// diagnostic; not used for state transfer.
    pub fn print(&self) -> (r: String)
        requires
            self.wf(),
        ensures
            r@ == printed(self.model()),
    {
        let ghost m = self.model();
        let width = self.options.width;
        let height = self.options.height;
        let n = self.options.col_chars();
        let ghost nn = col_chars_for(m.width);
        proof {
            assert(n as int == nn);
        }
        let mut out = String::new();
        let mut yy: u8 = height;
        while yy > 0
            invariant
                self.wf(),
                m == self.model(),
                width == m.width,
                height == m.height,
                n as int == nn,
                nn == col_chars_for(m.width),
                yy <= height,
                out@ + rows_down(m, yy as int - 1, nn) + idx_row(m, 0, nn) == printed(m),
            decreases yy,
        {
            yy -= 1;
            let y = yy;
            let ghost row_total = out@ + row_from(m, y as int, 0, nn);
            proof {
                assert(rows_down(m, y as int, nn) == row_from(m, y as int, 0, nn) + rows_down(
                    m,
                    y as int - 1,
                    nn,
                ));
                assert((out@ + rows_down(m, y as int, nn)) + idx_row(m, 0, nn) =~= (row_total
                    + rows_down(m, y as int - 1, nn)) + idx_row(m, 0, nn));
            }
            let mut x: u8 = 0;
            while x < width
                invariant
                    self.wf(),
                    m == self.model(),
                    width == m.width,
                    height == m.height,
                    n as int == nn,
                    nn == col_chars_for(m.width),
                    x <= width,
                    y < height,
                    out@ + row_from(m, y as int, x as int, nn) == row_total,
                decreases width - x,
            {
                push_char(&mut out, '|');
                let st = self.cell_at((x, y));
                let ghost cellbase = out@;
                let mut kk: usize = 0;
                while kk < n
                    invariant
                        n as int == nn,
                        kk <= n,
                        out@ == cellbase + render_cell(st, nn).take(kk as int),
                        st == m.cell(x as int, y as int),
                    decreases n - kk,
                {
                    push_char(&mut out, state_char_exec(st));
                    proof {
                        assert(out@ =~= cellbase + render_cell(st, nn).take(kk as int + 1));
                    }
                    kk += 1;
                }
                proof {
                    assert(render_cell(st, nn).take(nn) =~= render_cell(st, nn));
                    assert(row_from(m, y as int, x as int, nn) == seq!['|'] + render_cell(st, nn)
                        + row_from(m, y as int, x as int + 1, nn));
                    assert(out@ + row_from(m, y as int, x as int + 1, nn) =~= (cellbase.take(
                        cellbase.len() - 1,
                    )) + row_from(m, y as int, x as int, nn));
                    assert(cellbase.take(cellbase.len() - 1) + row_from(m, y as int, x as int, nn)
                        =~= row_total);
                }
                x += 1;
            }
            push_char(&mut out, '|');
            push_char(&mut out, '\n');
            proof {
                assert(row_from(m, y as int, width as int, nn) =~= seq!['|', '\n']);
                assert(out@ =~= row_total);
                assert(out@ + rows_down(m, y as int - 1, nn) + idx_row(m, 0, nn) == printed(m));
            }
        }
        let ghost idx_base = out@;
        proof {
            assert(rows_down(m, -1, nn) =~= Seq::<char>::empty());
            assert(idx_base + Seq::<char>::empty() =~= idx_base);
            assert(idx_base + idx_row(m, 0, nn) == printed(m));
        }
        let mut x: u8 = 0;
        while x < width
            invariant
                self.wf(),
                m == self.model(),
                width == m.width,
                n as int == nn,
                nn == col_chars_for(m.width),
                x <= width,
                out@ + idx_row(m, x as int, nn) == printed(m),
            decreases width - x,
        {
            push_char(&mut out, ' ');
            let digits: usize = if x >= 100 {
                3
            } else if x >= 10 {
                2
            } else {
                1
            };
            proof {
                crate::text::lemma_dec_len_u8(x as int);
                assert(digits <= n);
            }
            let ghost numbase = out@;
            let mut p: usize = 0;
            let pad = n - digits;
            while p < pad
                invariant
                    p <= pad,
                    out@ == numbase + Seq::new(p as nat, |i: int| ' '),
                decreases pad - p,
            {
                push_char(&mut out, ' ');
                proof {
                    assert(out@ =~= numbase + Seq::new((p + 1) as nat, |i: int| ' '));
                }
                p += 1;
            }
            let numtext = crate::text::format_u8(x);
            out.append(numtext.as_str());
            proof {
                assert(pad_left(dec(x as int), nn) =~= Seq::new((nn - digits) as nat, |i: int| ' ')
                    + dec(x as int));
                assert(out@ =~= numbase + pad_left(dec(x as int), nn));
                assert(idx_row(m, x as int, nn) == seq![' '] + pad_left(dec(x as int), nn)
                    + idx_row(m, x as int + 1, nn));
                assert(out@ + idx_row(m, x as int + 1, nn) =~= (numbase.take(numbase.len() - 1))
                    + idx_row(m, x as int, nn));
                assert(numbase.take(numbase.len() - 1) + idx_row(m, x as int, nn) =~= printed(m));
            }
            x += 1;
        }
        push_char(&mut out, ' ');
        push_char(&mut out, '\n');
        proof {
            assert(idx_row(m, width as int, nn) =~= seq![' ', '\n']);
            assert(out@ =~= printed(m));
        }
        out
    }
}

} // verus!
