//! Laws relating the codecs and the engine: parsing inverts printing.

use crate::codec::{
    body_from, body_ok, col_seq, decoded_cell, decoded_result, decoded_turn, encoded, hash_idx,
    is_stone, parse_trailer, segments, state_body, state_char, state_text_ok, state_trailer,
    stone_state, trailer_char,
};
use crate::game::{BoardModel, ErrorCode, GameOptions};
use crate::text::{
    dec, is_digit, is_space, lemma_dec_val, spec_parse_options, tok_end, trim, trim_end_idx,
    trim_start_idx,
};
use vstd::prelude::*;

verus! {

/// Where a digit run known in full ends.
proof fn lemma_tok_end_at(t: Seq<char>, i: int, e: int)
    requires
        0 <= i <= e <= t.len(),
        forall|j: int| i <= j < e ==> is_digit(#[trigger] t[j]),
        e == t.len() || !is_digit(t[e]),
    ensures
        tok_end(t, i) == e,
    decreases e - i,
{
    if i < e {
        lemma_tok_end_at(t, i + 1, e);
    }
}

/// Where the first `#` of a sequence known in full lies.
proof fn lemma_hash_idx_at(t: Seq<char>, k: int)
    requires
        0 <= k <= t.len(),
        forall|j: int| 0 <= j < k ==> t[j] != '#',
        k == t.len() || t[k] == '#',
    ensures
        hash_idx(t, 0) == k,
{
    lemma_hash_idx_at_from(t, 0, k);
}

proof fn lemma_hash_idx_at_from(t: Seq<char>, i: int, k: int)
    requires
        0 <= i <= k <= t.len(),
        forall|j: int| i <= j < k ==> t[j] != '#',
        k == t.len() || t[k] == '#',
    ensures
        hash_idx(t, i) == k,
    decreases k - i,
{
    if i < k {
        lemma_hash_idx_at_from(t, i + 1, k);
    }
}

/// A text of non-space characters trims to itself.
proof fn lemma_trim_nonspace(t: Seq<char>)
    requires
        t.len() == 0 || !is_space(t[0]),
        t.len() == 0 || !is_space(t[t.len() - 1]),
    ensures
        trim(t) == t,
        trim_start_idx(t, 0) == 0,
{
    assert(trim_start_idx(t, 0) == 0);
    assert(trim_end_idx(t, t.len() as int) == t.len());
    assert(t.subrange(0, t.len() as int) =~= t);
}

/// For all valid options, the text `WxH@L` parses back to exactly
/// those options.
pub proof fn lemma_options_round_trip(o: GameOptions)
    requires
        o.valid(),
    ensures
        spec_parse_options(
            dec(o.width as int) + seq!['x'] + dec(o.height as int) + seq!['@'] + dec(
                o.length as int,
            ),
        ) == Ok::<GameOptions, ErrorCode>(o),
{
    let dw = dec(o.width as int);
    let dh = dec(o.height as int);
    let dl = dec(o.length as int);
    lemma_dec_val(o.width as int);
    lemma_dec_val(o.height as int);
    lemma_dec_val(o.length as int);
    let t = dw + seq!['x'] + dh + seq!['@'] + dl;
    let e1 = dw.len() as int;
    let e2 = e1 + 1 + dh.len();
    let e3 = e2 + 1 + dl.len();
    assert(!is_space(t[0]));
    assert(!is_space(t[t.len() - 1]));
    lemma_trim_nonspace(t);
    assert forall|j: int| 0 <= j < e1 implies is_digit(#[trigger] t[j]) by {
        assert(t[j] == dw[j]);
    }
    assert(t[e1] == 'x');
    lemma_tok_end_at(t, 0, e1);
    assert forall|j: int| e1 + 1 <= j < e2 implies is_digit(#[trigger] t[j]) by {
        assert(t[j] == dh[j - e1 - 1]);
    }
    assert(t[e2] == '@');
    lemma_tok_end_at(t, e1 + 1, e2 as int);
    assert forall|j: int| e2 + 1 <= j < e3 implies is_digit(#[trigger] t[j]) by {
        assert(t[j] == dl[j - e2 - 1]);
    }
    lemma_tok_end_at(t, e2 + 1, e3 as int);
    assert(t.subrange(0, e1) =~= dw);
    assert(t.subrange(e1 + 1, e2 as int) =~= dh);
    assert(t.subrange(e2 + 1, e3 as int) =~= dl);
    assert(e3 == t.len());
}

/// Below a column's first empty cell every character printed for it
/// is a stone, and the column text fits the board.
proof fn lemma_col_seq_ok(m: BoardModel, c: int)
    requires
        m.wf(),
        0 <= c < m.width,
    ensures
        0 <= col_seq(m, c).len() <= m.height,
        forall|r: int|
            0 <= r < col_seq(m, c).len() ==> is_stone(#[trigger] col_seq(m, c)[r]) && stone_state(
                col_seq(m, c)[r],
            ) == m.cell(c, r),
        forall|r: int| 0 <= r < col_seq(m, c).len() ==> !(#[trigger] m.cell(c, r) is Empty),
    decreases 0int,
{
    m.lemma_first_empty_from(c, 0);
    assert forall|r: int| 0 <= r < col_seq(m, c).len() implies is_stone(#[trigger] col_seq(m, c)[r])
        && stone_state(col_seq(m, c)[r]) == m.cell(c, r) && !(m.cell(c, r) is Empty) by {
        assert(!(m.cell(c, r) is Empty));
        assert(col_seq(m, c)[r] == state_char(m.cell(c, r)));
    }
}

/// Every character of the board text is a stone or a slash.
proof fn lemma_body_chars(m: BoardModel, c: int)
    requires
        m.wf(),
        0 <= c < m.width,
    ensures
        forall|i: int|
            0 <= i < body_from(m, c).len() ==> is_stone(#[trigger] body_from(m, c)[i]) || body_from(
                m,
                c,
            )[i] == '/',
    decreases m.width - c,
{
    lemma_col_seq_ok(m, c);
    if c < m.width - 1 {
        lemma_body_chars(m, c + 1);
        assert forall|i: int| 0 <= i < body_from(m, c).len() implies is_stone(
            #[trigger] body_from(m, c)[i],
        ) || body_from(m, c)[i] == '/' by {
            let col = col_seq(m, c);
            if i < col.len() {
                assert(body_from(m, c)[i] == col[i]);
            } else if i == col.len() {
                assert(body_from(m, c)[i] == '/');
            } else {
                assert(body_from(m, c)[i] == body_from(m, c + 1)[i - col.len() - 1]);
            }
        }
    }
}

/// The board text splits back into exactly the per-column texts.
proof fn lemma_body_segments(m: BoardModel, c: int)
    requires
        m.wf(),
        0 <= c < m.width,
    ensures
        segments(body_from(m, c)) == Seq::new((m.width - c) as nat, |k: int| col_seq(m, c + k)),
    decreases m.width - c,
{
    lemma_col_seq_ok(m, c);
    if c == m.width - 1 {
        crate::codec::lemma_segments_noslash(col_seq(m, c));
        assert(segments(body_from(m, c)) =~= Seq::new(
            (m.width - c) as nat,
            |k: int| col_seq(m, c + k),
        ));
    } else {
        lemma_body_segments(m, c + 1);
        crate::codec::lemma_segments_join(col_seq(m, c), body_from(m, c + 1));
        assert(segments(body_from(m, c)) =~= Seq::new(
            (m.width - c) as nat,
            |k: int| col_seq(m, c + k),
        ));
    }
}

/// In a stacked column, everything at or above an empty cell is
/// empty.
proof fn lemma_stacked_empty_above(m: BoardModel, c: int, r1: int, r2: int)
    requires
        m.stacked(),
        0 <= c < m.width,
        0 <= r1 <= r2 < m.height,
        m.cell(c, r1) is Empty,
    ensures
        m.cell(c, r2) is Empty,
    decreases r2 - r1,
{
    if r2 > r1 {
        lemma_stacked_empty_above(m, c, r1, r2 - 1);
    }
}

/// The exported text splits back into its board part and its
/// trailer.
proof fn lemma_encoded_parts(m: BoardModel)
    requires
        m.wf(),
    ensures
        state_body(encoded(m)) == body_from(m, 0),
        state_trailer(encoded(m)) == seq![trailer_char(m.turn, m.result)],
{
    let body = body_from(m, 0);
    let tc = trailer_char(m.turn, m.result);
    let t = encoded(m);
    lemma_body_chars(m, 0);
    assert(t.len() == body.len() + 2);
    assert forall|i: int| 0 <= i < body.len() implies t[i] == body[i] && t[i] != '#' && !is_space(
        #[trigger] t[i],
    ) by {}
    assert(t[body.len() as int] == '#');
    assert(t[body.len() as int + 1] == tc);
    assert(!is_space(t[0]));
    assert(trim_start_idx(t, 0) == 0);
    assert(t.skip(0) =~= t);
    lemma_hash_idx_at(t, body.len() as int);
    assert(state_body(t) =~= body);
    let trl = t.skip(body.len() as int + 1);
    assert(trl =~= seq![tc]);
    assert(!is_space(tc));
    assert(trim_start_idx(trl, 0) == 0);
    assert(trim_end_idx(trl, 1) == 1);
    assert(trim(trl) =~= trl);
    assert(state_trailer(t) == trim(trl));
}

/// The exported board part fits the board it came from.
proof fn lemma_encoded_body_ok(m: BoardModel)
    requires
        m.wf(),
    ensures
        body_ok(segments(body_from(m, 0)), m.width, m.height),
        segments(body_from(m, 0)).len() == m.width,
        forall|c: int| 0 <= c < m.width ==> segments(body_from(m, 0))[c] == col_seq(m, c),
{
    lemma_body_segments(m, 0);
    let segs = segments(body_from(m, 0));
    assert(segs.len() == m.width);
    assert forall|k: int| 0 <= k < segs.len() implies (#[trigger] segs[k]).len() <= m.height by {
        assert(segs[k] == col_seq(m, k));
        lemma_col_seq_ok(m, k);
    }
    assert forall|k: int, j: int|
        0 <= k < segs.len() && 0 <= j < segs[k].len() implies is_stone(#[trigger] segs[k][j]) by {
        assert(segs[k] == col_seq(m, k));
        lemma_col_seq_ok(m, k);
    }
}

/// Each cell decoded from the exported text is the cell it came
/// from.
#[verifier::rlimit(80)]
#[verifier::spinoff_prover]
proof fn lemma_decoded_cells(m: BoardModel)
    requires
        m.wf(),
        m.stacked(),
    ensures
        forall|c: int, r: int|
            m.in_range(c, r) ==> decoded_cell(encoded(m), c, r) == #[trigger] m.cell(c, r),
{
    let t = encoded(m);
    lemma_encoded_parts(m);
    lemma_encoded_body_ok(m);
    let segs = segments(state_body(t));
    assert forall|c: int, r: int| m.in_range(c, r) implies decoded_cell(t, c, r)
        == #[trigger] m.cell(c, r) by {
        assert(segs[c] == col_seq(m, c));
        lemma_col_seq_ok(m, c);
        m.lemma_first_empty_from(c, 0);
        if r < col_seq(m, c).len() {
            assert(decoded_cell(t, c, r) == stone_state(col_seq(m, c)[r]));
        } else {
            assert(decoded_cell(t, c, r) is Empty);
            if m.free_row(c) < m.height {
                lemma_stacked_empty_above(m, c, m.free_row(c), r);
            }
        }
    }
}

/// Round trip: the exported text of any well-formed, stacked state is
/// accepted by the importer and decodes to the same board, the same
/// result, and, whenever the turn is observable, the same turn.
#[verifier::rlimit(100)]
#[verifier::spinoff_prover]
pub proof fn lemma_state_round_trip(m: BoardModel)
    requires
        m.wf(),
        m.stacked(),
    ensures
        state_text_ok(encoded(m), m.width, m.height),
        forall|c: int, r: int|
            m.in_range(c, r) ==> decoded_cell(encoded(m), c, r) == #[trigger] m.cell(c, r),
        decoded_result(encoded(m)) == m.result,
        !(m.result is Draw) ==> decoded_turn(encoded(m)) == m.turn,
{
    let t = encoded(m);
    let tc = trailer_char(m.turn, m.result);
    lemma_encoded_parts(m);
    lemma_encoded_body_ok(m);
    lemma_decoded_cells(m);
    assert(parse_trailer(seq![tc]) == Some((if m.result is Draw {
        false
    } else {
        m.turn
    }, m.result)));
    assert(state_text_ok(t, m.width, m.height));
}

/// A board whose cells all come from one state text is stacked, so
/// the round trip applies to every imported state.
pub proof fn lemma_imported_state_is_stacked(m: BoardModel, t: Seq<char>)
    requires
        m.wf(),
        forall|c: int, r: int|
            m.in_range(c, r) ==> #[trigger] m.cell(c, r) == decoded_cell(t, c, r),
    ensures
        m.stacked(),
{
    assert forall|c: int, r: int|
        0 <= c < m.width && 0 < r < m.height && !(#[trigger] m.cell(c, r) is Empty) implies !(
    m.cell(c, r - 1) is Empty) by {
        assert(m.cell(c, r) == decoded_cell(t, c, r));
        assert(m.cell(c, r - 1) == decoded_cell(t, c, r - 1));
    }
}

/// Two games with the same dimensions, cells, turn, and result export
/// the same text, whatever their win lengths: so a game overwritten
/// by `copy_from` exports exactly what its source exports.
pub proof fn lemma_copy_export_identical(a: BoardModel, b: BoardModel)
    requires
        a.width == b.width,
        a.height == b.height,
        a.cells == b.cells,
        a.turn == b.turn,
        a.result == b.result,
    ensures
        encoded(a) == encoded(b),
{
    lemma_body_from_eq(a, b, 0);
}

/// The board text does not depend on the win length.
proof fn lemma_body_from_eq(a: BoardModel, b: BoardModel, c: int)
    requires
        a.width == b.width,
        a.height == b.height,
        a.cells == b.cells,
    ensures
        body_from(a, c) == body_from(b, c),
    decreases a.width - c,
{
    lemma_first_empty_eq(a, b, c, 0);
    assert(col_seq(a, c) =~= col_seq(b, c));
    if c >= 0 && c < a.width - 1 {
        lemma_body_from_eq(a, b, c + 1);
    }
}

/// The first empty row does not depend on the win length.
proof fn lemma_first_empty_eq(a: BoardModel, b: BoardModel, c: int, r: int)
    requires
        a.width == b.width,
        a.height == b.height,
        a.cells == b.cells,
    ensures
        a.first_empty_from(c, r) == b.first_empty_from(c, r),
    decreases a.height - r,
{
    if r >= 0 && r < a.height && !(a.cell(c, r) is Empty) {
        lemma_first_empty_eq(a, b, c, r + 1);
    }
}

} // verus!
